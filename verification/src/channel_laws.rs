//! Laws of the channel, stated of its calls: what goes into a call, what comes out, and how one
//! call relates to the next.
//!
//! The laws speak of calls by [`call_ensures`], so they hold of whatever the functions promise.
//! A ring of `n` slots has message `s` on slot `s % n`. A mutable reference stands for what it
//! refers to before the call (`old`) and after it (`final`).
use crate::buffer::{Access, Buffer, Look};
use crate::capacity::is_power_of_two;
use crate::heap_buffer::HeapBuffer;
use crate::ring::{first_active, laid, lemma_newest_next, orderly, slot_evolves};
use crate::spmc_broadcast::{lemma_resume, local_channel, Receiver, Sender};
use crate::state::Stamp;
use vstd::arithmetic::div_mod::{
    lemma_mod_bound, lemma_mod_equivalence, lemma_mod_self_0, lemma_small_mod,
};
use vstd::arithmetic::power2::pow2;
use vstd::prelude::*;

verus! {

/// The slots of two consecutive messages differ.
proof fn lemma_slots(seq_no: u64, n: int)
    requires
        n >= 2,
    ensures
        0 <= seq_no as int % n < n,
        0 <= (seq_no + 1) % n < n,
        seq_no as int % n != (seq_no + 1) % n,
{
    lemma_newest_next(0, seq_no as int, 0, n);
}

// ---------------------------------------------------------------------------
// Sending
// ---------------------------------------------------------------------------

/// Initializing a ring leaves slot 1 dirty, for message 1, all others empty, and default payloads
/// everywhere; message 1 is sent next.
pub proof fn law_init_call<T: Clone + Default, B: Buffer<T, Stamp>>(buffer: &mut B, tx: Sender)
    requires
        old(buffer)@.slots.len() >= 2,
        call_ensures(Sender::with_init::<T, B>, (buffer,), tx),
    ensures
        final(buffer).inv(),
        tx.next() == 1,
        final(buffer)@.slots.len() == old(buffer)@.slots.len(),
        final(buffer)@.steady == old(buffer)@.steady,
        forall|i: int|
            #![trigger final(buffer)@.slots[i]]
            0 <= i < old(buffer)@.slots.len() ==> {
                let slot = final(buffer)@.slots[i];
                &&& slot.state.dirty <==> i == 1
                &&& slot.state.seq_no == (if i == 1 {
                    1
                } else {
                    0int
                })
                &&& T::default.ensures((), slot.payload)
                &&& old(buffer)@.steady && i != 1 ==> final(buffer)@.live.contains(i)
            },
{
}

/// Initializing a ring empties its slots one after the other, and marks slot 1 at last.
pub proof fn law_init_order<T: Clone + Default, B: Buffer<T, Stamp>>(
    buffer: &mut B,
    tx: Sender,
    t: int,
    i: int,
)
    requires
        old(buffer)@.slots.len() >= 2,
        call_ensures(Sender::with_init::<T, B>, (buffer,), tx),
        0 <= t <= old(buffer)@.slots.len(),
        0 <= i < old(buffer)@.slots.len(),
    ensures
        ({
            let before = old(buffer)@;
            let after = final(buffer)@;
            let k = before.trail.len() as int;
            &&& after.trail.len() == k + before.slots.len() + 1
            &&& before.trail.is_prefix_of(after.trail)
            &&& before.looks.is_prefix_of(after.looks)
            &&& after.trail[k + t] matches Access::Store { slots }
            &&& slots.len() == before.slots.len()
            &&& t == slots.len() ==> slots[i] == after.slots[i]
            &&& t < slots.len() && i <= t ==> {
                &&& !slots[i].state.dirty
                &&& slots[i].state.seq_no == 0
                &&& T::default.ensures((), slots[i].payload)
            }
            &&& t < slots.len() && i > t ==> slots[i] == before.slots[i]
        }),
{
}

/// A sender on a ring whose first slot that is dirty with a number is slot `i` goes on with
/// that number, and leaves the ring alone.
pub proof fn law_take_over<T: Clone + Default, B: Buffer<T, Stamp>>(
    buffer: &mut B,
    tx: Sender,
    i: int,
)
    requires
        old(buffer)@.steady,
        0 <= i < old(buffer)@.slots.len(),
        old(buffer)@.slots[i].state.dirty,
        old(buffer)@.slots[i].state.seq_no != 0,
        forall|j: int|
            #![trigger old(buffer)@.slots[j]]
            0 <= j < i ==> !old(buffer)@.slots[j].state.dirty || old(buffer)@.slots[j].state.seq_no
                == 0,
        call_ensures(Sender::new::<T, B>, (buffer,), tx),
    ensures
        final(buffer).inv(),
        tx.next() == old(buffer)@.slots[i].state.seq_no,
        final(buffer)@.slots == old(buffer)@.slots,
        old(buffer)@.looks.is_prefix_of(final(buffer)@.looks),
        final(buffer)@.trail == old(buffer)@.trail,
        final(buffer)@.steady,
{
    assert(first_active(old(buffer)@.slots, i));
}

/// A sender on a ring with no such slot initializes it.
pub proof fn law_fresh_start<T: Clone + Default, B: Buffer<T, Stamp>>(buffer: &mut B, tx: Sender)
    requires
        old(buffer)@.slots.len() >= 2,
        old(buffer)@.steady,
        forall|j: int|
            #![trigger old(buffer)@.slots[j]]
            0 <= j < old(buffer)@.slots.len()
                ==> !old(buffer)@.slots[j].state.dirty || old(buffer)@.slots[j].state.seq_no == 0,
        call_ensures(Sender::new::<T, B>, (buffer,), tx),
    ensures
        old(buffer)@.trail.is_prefix_of(final(buffer)@.trail),
        final(buffer)@.trail.len() == old(buffer)@.trail.len() + old(buffer)@.slots.len() + 1,
        final(buffer).inv(),
        tx.next() == 1,
        final(buffer)@.slots.len() == old(buffer)@.slots.len(),
        final(buffer)@.steady,
        forall|i: int|
            #![trigger final(buffer)@.slots[i]]
            0 <= i < old(buffer)@.slots.len() ==> {
                let slot = final(buffer)@.slots[i];
                &&& slot.state.dirty <==> i == 1
                &&& slot.state.seq_no == (if i == 1 {
                    1
                } else {
                    0int
                })
                &&& T::default.ensures((), slot.payload)
                &&& i != 1 ==> final(buffer)@.live.contains(i)
            },
{
}

/// Reserving lends out the payload of the slot of the next message, and does nothing else: what
/// the borrower leaves there is all that changes.
pub proof fn law_reserve_call<T, B: Buffer<T, Stamp>>(
    tx: Sender,
    buffer: &mut B,
    seq_no: u64,
    slot: &mut T,
    i: int,
)
    requires
        old(buffer)@.slots.len() >= 2,
        0 <= i < old(buffer)@.slots.len(),
        call_ensures(Sender::reserve::<T, B>, (&tx, buffer), (seq_no, slot)),
    ensures
        final(buffer).inv(),
        ({
            let before = old(buffer)@;
            let after = final(buffer)@;
            let at = tx.next() as int % before.slots.len() as int;
            &&& seq_no == tx.next()
            &&& *old(slot) == before.slots[at].payload
            &&& after.slots.len() == before.slots.len()
            &&& after.slots[i].state == before.slots[i].state
            &&& after.slots[i].payload == (if i == at {
                *final(slot)
            } else {
                before.slots[i].payload
            })
            &&& after.steady == before.steady
            &&& after.looks == before.looks
            &&& after.trail.len() == before.trail.len() + 1
            &&& after.trail.last() == (Access::Lend { index: at, slots: before.slots })
            &&& before.steady && !before.slots[i].state.dirty ==> after.live.contains(i)
        }),
{
    lemma_mod_bound(tx.next() as int, old(buffer)@.slots.len() as int);
    assert(final(buffer)@.slots[i].state == old(buffer)@.slots[i].state);
}

/// Committing message `s` marks slot `(s + 1) % n` dirty, for the next message, and then clears
/// the flag of slot `s % n`. No payload changes, and no other slot. Message `s + 1` is next.
pub proof fn law_commit_call<T, B: Buffer<T, Stamp>>(tx: &mut Sender, buffer: &mut B, i: int)
    requires
        old(buffer)@.slots.len() >= 2,
        old(tx).next() + 1 < 0x8000_0000_0000_0000,
        0 <= i < old(buffer)@.slots.len(),
        call_ensures(Sender::commit::<T, B>, (tx, buffer), ()),
    ensures
        final(buffer).inv(),
        ({
            let before = old(buffer)@;
            let after = final(buffer)@;
            let n = before.slots.len() as int;
            let s = old(tx).next();
            let k = before.trail.len() as int;
            &&& final(tx).next() == s + 1
            &&& after.slots.len() == n
            &&& after.slots[i].payload == before.slots[i].payload
            &&& i == s as int % n ==> !after.slots[i].state.dirty && after.slots[i].state.seq_no
                == s
            &&& i == (s + 1) % n ==> after.slots[i].state.dirty && after.slots[i].state.seq_no
                == s + 1
            &&& i != s as int % n && i != (s + 1) % n ==> after.slots[i].state
                == before.slots[i].state
            &&& after.steady == before.steady
            &&& after.looks == before.looks
            &&& before.steady && !after.slots[i].state.dirty ==> after.live.contains(i)
            &&& after.trail.len() == k + 2
            &&& after.trail[k + 1] == (Access::Store { slots: after.slots })
            &&& after.trail[k] matches Access::Store { slots }
            &&& slots.len() == n
            &&& slots[i] == (if i == (s + 1) % n {
                after.slots[i]
            } else {
                before.slots[i]
            })
        }),
{
    lemma_slots(old(tx).next(), old(buffer)@.slots.len() as int);
}

/// Sending returns the number of the message, and the next message has the next number. The
/// payload is in slot `s % n`, which is clean, and slot `(s + 1) % n` is dirty; nothing else
/// has changed.
pub proof fn law_send_call<T, B: Buffer<T, Stamp>>(
    tx: &mut Sender,
    buffer: &mut B,
    payload: T,
    s: u64,
    i: int,
)
    requires
        old(buffer)@.slots.len() >= 2,
        s + 1 < 0x8000_0000_0000_0000,
        0 <= i < old(buffer)@.slots.len(),
        call_ensures(Sender::send::<T, B>, (tx, buffer, payload), s),
    ensures
        final(buffer).inv(),
        ({
            let before = old(buffer)@;
            let after = final(buffer)@;
            let n = before.slots.len() as int;
            &&& s == old(tx).next()
            &&& final(tx).next() == s + 1
            &&& after.slots.len() == n
            &&& i == s as int % n ==> {
                &&& !after.slots[i].state.dirty
                &&& after.slots[i].state.seq_no == s
                &&& after.slots[i].payload == payload
            }
            &&& i == (s + 1) % n ==> {
                &&& after.slots[i].state.dirty
                &&& after.slots[i].state.seq_no == s + 1
                &&& after.slots[i].payload == before.slots[i].payload
            }
            &&& i != s as int % n && i != (s + 1) % n ==> after.slots[i] == before.slots[i]
            &&& after.steady == before.steady
            &&& after.looks == before.looks
            &&& before.steady && !after.slots[i].state.dirty ==> after.live.contains(i)
        }),
{
    lemma_slots(old(tx).next(), old(buffer)@.slots.len() as int);
}

/// Sending a clone does the same, with a clone of the payload.
pub proof fn law_send_from_call<T: Clone, B: Buffer<T, Stamp>>(
    tx: &mut Sender,
    buffer: &mut B,
    payload: T,
    s: u64,
    i: int,
)
    requires
        old(buffer)@.slots.len() >= 2,
        s + 1 < 0x8000_0000_0000_0000,
        0 <= i < old(buffer)@.slots.len(),
        call_ensures(Sender::send_from::<T, B>, (tx, buffer, &payload), s),
    ensures
        final(buffer).inv(),
        ({
            let before = old(buffer)@;
            let after = final(buffer)@;
            let n = before.slots.len() as int;
            &&& s == old(tx).next()
            &&& final(tx).next() == s + 1
            &&& after.slots.len() == n
            &&& i == s as int % n ==> {
                &&& !after.slots[i].state.dirty
                &&& after.slots[i].state.seq_no == s
                &&& cloned(payload, after.slots[i].payload)
            }
            &&& i == (s + 1) % n ==> {
                &&& after.slots[i].state.dirty
                &&& after.slots[i].state.seq_no == s + 1
                &&& after.slots[i].payload == before.slots[i].payload
            }
            &&& i != s as int % n && i != (s + 1) % n ==> after.slots[i] == before.slots[i]
            &&& after.steady == before.steady
            &&& after.looks == before.looks
            &&& before.steady && !after.slots[i].state.dirty ==> after.live.contains(i)
        }),
{
    lemma_slots(old(tx).next(), old(buffer)@.slots.len() as int);
}

/// What others may see while a message is sent. Let its slot be dirty, with its number, when
/// the call begins. Then at every access that the call makes, a payload is lent out only while
/// its slot is dirty, some slot is dirty, and whoever sees the message clean sees its payload,
/// and sees the slot of the next message marked. No slot but these two differs from what it
/// was.
pub proof fn law_send_is_never_seen_half_done<T, B: Buffer<T, Stamp>>(
    tx: &mut Sender,
    buffer: &mut B,
    payload: T,
    s: u64,
    t: int,
    i: int,
)
    requires
        old(buffer)@.slots.len() >= 2,
        s + 1 < 0x8000_0000_0000_0000,
        old(buffer)@.slots[s as int % old(buffer)@.slots.len() as int].state == (Stamp {
            dirty: true,
            seq_no: s,
        }),
        call_ensures(Sender::send::<T, B>, (tx, buffer, payload), s),
        old(buffer)@.trail.len() <= t < final(buffer)@.trail.len(),
        0 <= i < old(buffer)@.slots.len(),
    ensures
        ({
            let before = old(buffer)@.slots;
            let n = before.len() as int;
            let at = s as int % n;
            let next = (s + 1) % n;
            let ring = match final(buffer)@.trail[t] {
                Access::Lend { slots, .. } => slots,
                Access::Store { slots } => slots,
            };
            &&& ring.len() == n
            &&& final(buffer)@.trail[t] matches Access::Lend { index, .. } ==> {
                &&& index == at
                &&& ring[index].state.dirty
            }
            &&& ring[at].state.seq_no == s
            &&& ring[at].state.dirty || ring[next].state.dirty
            &&& !ring[at].state.dirty ==> {
                &&& ring[at].payload == payload
                &&& ring[next].state.dirty
                &&& ring[next].state.seq_no == s + 1
            }
            &&& i != at && i != next ==> ring[i] == before[i]
            &&& i == next ==> ring[i].payload == before[i].payload && (ring[i].state
                == before[i].state || ring[i].state.dirty && ring[i].state.seq_no == s + 1)
        }),
{
    lemma_slots(old(tx).next(), old(buffer)@.slots.len() as int);
    let k = old(buffer)@.trail.len() as int;
    assert(final(buffer)@.trail.len() == k + 3);
    assert(t == k || t == k + 1 || t == k + 2);
}

/// What others may see while a clone is sent.
pub proof fn law_send_from_is_never_seen_half_done<T: Clone, B: Buffer<T, Stamp>>(
    tx: &mut Sender,
    buffer: &mut B,
    payload: T,
    s: u64,
    t: int,
    i: int,
)
    requires
        old(buffer)@.slots.len() >= 2,
        s + 1 < 0x8000_0000_0000_0000,
        old(buffer)@.slots[s as int % old(buffer)@.slots.len() as int].state == (Stamp {
            dirty: true,
            seq_no: s,
        }),
        call_ensures(Sender::send_from::<T, B>, (tx, buffer, &payload), s),
        old(buffer)@.trail.len() <= t < final(buffer)@.trail.len(),
        0 <= i < old(buffer)@.slots.len(),
    ensures
        ({
            let before = old(buffer)@.slots;
            let n = before.len() as int;
            let at = s as int % n;
            let next = (s + 1) % n;
            let ring = match final(buffer)@.trail[t] {
                Access::Lend { slots, .. } => slots,
                Access::Store { slots } => slots,
            };
            &&& ring.len() == n
            &&& final(buffer)@.trail[t] matches Access::Lend { index, .. } ==> {
                &&& index == at
                &&& ring[index].state.dirty
            }
            &&& ring[at].state.seq_no == s
            &&& ring[at].state.dirty || ring[next].state.dirty
            &&& !ring[at].state.dirty ==> {
                &&& cloned(payload, ring[at].payload)
                &&& ring[next].state.dirty
                &&& ring[next].state.seq_no == s + 1
            }
            &&& i != at && i != next ==> ring[i] == before[i]
            &&& i == next ==> ring[i].payload == before[i].payload && (ring[i].state
                == before[i].state || ring[i].state.dirty && ring[i].state.seq_no == s + 1)
        }),
{
    lemma_slots(old(tx).next(), old(buffer)@.slots.len() as int);
    let k = old(buffer)@.trail.len() as int;
    assert(final(buffer)@.trail.len() == k + 3);
    assert(t == k || t == k + 1 || t == k + 2);
}

/// Whatever a sender does adds to its trail, and never takes back what is in it; and the last
/// thing it does is to store the ring that it leaves behind.
pub proof fn law_trail_grows<T: Clone, B: Buffer<T, Stamp>>(
    tx: &mut Sender,
    buffer: &mut B,
    payload: T,
    s: u64,
    tx2: &mut Sender,
    buffer2: &mut B,
    t: int,
)
    requires
        old(buffer)@.slots.len() >= 2,
        call_ensures(Sender::send::<T, B>, (tx, buffer, payload), s),
        old(buffer2)@.slots.len() >= 2,
        call_ensures(Sender::commit::<T, B>, (tx2, buffer2), ()),
    ensures
        0 <= t < old(buffer)@.trail.len() ==> final(buffer)@.trail[t] == old(buffer)@.trail[t],
        final(buffer)@.trail.last() == (Access::Store { slots: final(buffer)@.slots }),
        0 <= t < old(buffer2)@.trail.len() ==> final(buffer2)@.trail[t] == old(buffer2)@.trail[t],
        final(buffer2)@.trail.last() == (Access::Store { slots: final(buffer2)@.slots }),
{
}

// ---------------------------------------------------------------------------
// Receiving
// ---------------------------------------------------------------------------

/// Receiving changes nothing: nothing is written, nothing changes on a ring that nobody else
/// changes, and whatever else is seen to change is what a sender may change. The number in a
/// slot only grows, by multiples of the capacity, and a committed message stays as it is while
/// its number does.
pub proof fn law_recv_only_looks<T: Clone, B: Buffer<T, Stamp>>(
    rx: &mut Receiver<T>,
    buffer: &mut B,
    got: (u64, &T),
    i: int,
)
    requires
        call_ensures(Receiver::<T>::recv::<B>, (rx, buffer), got),
        0 <= i < old(buffer)@.slots.len(),
    ensures
        final(buffer).inv(),
        final(buffer)@.trail == old(buffer)@.trail,
        old(buffer)@.looks.is_prefix_of(final(buffer)@.looks),
        final(buffer)@.steady == old(buffer)@.steady,
        old(buffer)@.steady ==> final(buffer)@.slots == old(buffer)@.slots,
        final(buffer)@.slots.len() == old(buffer)@.slots.len(),
        old(buffer)@.live.subset_of(final(buffer)@.live),
        ({
            let n = old(buffer)@.slots.len() as int;
            let a = old(buffer)@.slots[i];
            let b = final(buffer)@.slots[i];
            &&& a.state.seq_no <= b.state.seq_no
            &&& a.state.seq_no != 0 ==> (b.state.seq_no - a.state.seq_no) % n == 0
            &&& a.state.seq_no == b.state.seq_no && !a.state.dirty ==> b == a
        }),
{
    assert(slot_evolves(
        old(buffer)@.slots[i],
        final(buffer)@.slots[i],
        old(buffer)@.slots.len() as int,
    ));
}

/// An attempt to receive changes nothing.
pub proof fn law_try_recv_only_looks<T: Clone, B: Buffer<T, Stamp>>(
    rx: &mut Receiver<T>,
    buffer: &mut B,
    got: (u64, Option<&T>),
    i: int,
)
    requires
        call_ensures(Receiver::<T>::try_recv::<B>, (rx, buffer), got),
        0 <= i < old(buffer)@.slots.len(),
    ensures
        final(buffer).inv(),
        final(buffer)@.trail == old(buffer)@.trail,
        old(buffer)@.looks.is_prefix_of(final(buffer)@.looks),
        final(buffer)@.steady == old(buffer)@.steady,
        old(buffer)@.steady ==> final(buffer)@.slots == old(buffer)@.slots,
        final(buffer)@.slots.len() == old(buffer)@.slots.len(),
        old(buffer)@.live.subset_of(final(buffer)@.live),
        ({
            let n = old(buffer)@.slots.len() as int;
            let a = old(buffer)@.slots[i];
            let b = final(buffer)@.slots[i];
            &&& a.state.seq_no <= b.state.seq_no
            &&& a.state.seq_no != 0 ==> (b.state.seq_no - a.state.seq_no) % n == 0
            &&& a.state.seq_no == b.state.seq_no && !a.state.dirty ==> b == a
        }),
{
    assert(slot_evolves(
        old(buffer)@.slots[i],
        final(buffer)@.slots[i],
        old(buffer)@.slots.len() as int,
    ));
}

/// Waiting changes nothing.
pub proof fn law_wait_only_looks<T: Clone, B: Buffer<T, Stamp>>(
    rx: &mut Receiver<T>,
    buffer: &mut B,
    got: u64,
    i: int,
)
    requires
        call_ensures(Receiver::<T>::wait::<B>, (rx, buffer), got),
        0 <= i < old(buffer)@.slots.len(),
    ensures
        final(buffer).inv(),
        final(buffer)@.trail == old(buffer)@.trail,
        old(buffer)@.looks.is_prefix_of(final(buffer)@.looks),
        final(buffer)@.steady == old(buffer)@.steady,
        old(buffer)@.steady ==> final(buffer)@.slots == old(buffer)@.slots,
        final(buffer)@.slots.len() == old(buffer)@.slots.len(),
        old(buffer)@.live.subset_of(final(buffer)@.live),
        ({
            let n = old(buffer)@.slots.len() as int;
            let a = old(buffer)@.slots[i];
            let b = final(buffer)@.slots[i];
            &&& a.state.seq_no <= b.state.seq_no
            &&& a.state.seq_no != 0 ==> (b.state.seq_no - a.state.seq_no) % n == 0
            &&& a.state.seq_no == b.state.seq_no && !a.state.dirty ==> b == a
        }),
{
    assert(slot_evolves(
        old(buffer)@.slots[i],
        final(buffer)@.slots[i],
        old(buffer)@.slots.len() as int,
    ));
}

/// Peeking changes nothing.
pub proof fn law_peek_only_looks<T: Clone, B: Buffer<T, Stamp>>(
    rx: &mut Receiver<T>,
    buffer: &mut B,
    got: (u64, &T),
    i: int,
)
    requires
        call_ensures(Receiver::<T>::peek_unsafe::<B>, (rx, buffer), got),
        0 <= i < old(buffer)@.slots.len(),
    ensures
        final(buffer).inv(),
        final(buffer)@.trail == old(buffer)@.trail,
        old(buffer)@.looks.is_prefix_of(final(buffer)@.looks),
        final(buffer)@.steady == old(buffer)@.steady,
        old(buffer)@.steady ==> final(buffer)@.slots == old(buffer)@.slots,
        final(buffer)@.slots.len() == old(buffer)@.slots.len(),
        old(buffer)@.live.subset_of(final(buffer)@.live),
        ({
            let n = old(buffer)@.slots.len() as int;
            let a = old(buffer)@.slots[i];
            let b = final(buffer)@.slots[i];
            &&& a.state.seq_no <= b.state.seq_no
            &&& a.state.seq_no != 0 ==> (b.state.seq_no - a.state.seq_no) % n == 0
            &&& a.state.seq_no == b.state.seq_no && !a.state.dirty ==> b == a
        }),
{
    assert(slot_evolves(
        old(buffer)@.slots[i],
        final(buffer)@.slots[i],
        old(buffer)@.slots.len() as int,
    ));
}

/// An attempt to peek changes nothing.
pub proof fn law_try_peek_only_looks<T: Clone, B: Buffer<T, Stamp>>(
    rx: &mut Receiver<T>,
    buffer: &mut B,
    got: (u64, Option<&T>),
    i: int,
)
    requires
        call_ensures(Receiver::<T>::try_peek_unsafe::<B>, (rx, buffer), got),
        0 <= i < old(buffer)@.slots.len(),
    ensures
        final(buffer).inv(),
        final(buffer)@.trail == old(buffer)@.trail,
        old(buffer)@.looks.is_prefix_of(final(buffer)@.looks),
        final(buffer)@.steady == old(buffer)@.steady,
        old(buffer)@.steady ==> final(buffer)@.slots == old(buffer)@.slots,
        final(buffer)@.slots.len() == old(buffer)@.slots.len(),
        old(buffer)@.live.subset_of(final(buffer)@.live),
        ({
            let n = old(buffer)@.slots.len() as int;
            let a = old(buffer)@.slots[i];
            let b = final(buffer)@.slots[i];
            &&& a.state.seq_no <= b.state.seq_no
            &&& a.state.seq_no != 0 ==> (b.state.seq_no - a.state.seq_no) % n == 0
            &&& a.state.seq_no == b.state.seq_no && !a.state.dirty ==> b == a
        }),
{
    assert(slot_evolves(
        old(buffer)@.slots[i],
        final(buffer)@.slots[i],
        old(buffer)@.slots.len() as int,
    ));
}

/// Confirming changes nothing.
pub proof fn law_advance_only_looks<T: Clone, B: Buffer<T, Stamp>>(
    rx: &mut Receiver<T>,
    buffer: &mut B,
    got: bool,
    i: int,
)
    requires
        call_ensures(Receiver::<T>::advance::<B>, (rx, buffer), got),
        0 <= i < old(buffer)@.slots.len(),
    ensures
        final(buffer).inv(),
        final(buffer)@.trail == old(buffer)@.trail,
        old(buffer)@.looks.is_prefix_of(final(buffer)@.looks),
        final(buffer)@.steady == old(buffer)@.steady,
        old(buffer)@.steady ==> final(buffer)@.slots == old(buffer)@.slots,
        final(buffer)@.slots.len() == old(buffer)@.slots.len(),
        old(buffer)@.live.subset_of(final(buffer)@.live),
        ({
            let n = old(buffer)@.slots.len() as int;
            let a = old(buffer)@.slots[i];
            let b = final(buffer)@.slots[i];
            &&& a.state.seq_no <= b.state.seq_no
            &&& a.state.seq_no != 0 ==> (b.state.seq_no - a.state.seq_no) % n == 0
            &&& a.state.seq_no == b.state.seq_no && !a.state.dirty ==> b == a
        }),
{
    assert(slot_evolves(
        old(buffer)@.slots[i],
        final(buffer)@.slots[i],
        old(buffer)@.slots.len() as int,
    ));
}

/// Making a receiver changes nothing.
pub proof fn law_receiver_start_only_looks<T: Clone + Default, B: Buffer<T, Stamp>>(
    buffer: &mut B,
    got: Option<Receiver<T>>,
    i: int,
)
    requires
        call_ensures(Receiver::<T>::new::<B>, (buffer,), got),
        0 <= i < old(buffer)@.slots.len(),
    ensures
        final(buffer).inv(),
        final(buffer)@.trail == old(buffer)@.trail,
        old(buffer)@.looks.is_prefix_of(final(buffer)@.looks),
        final(buffer)@.steady == old(buffer)@.steady,
        old(buffer)@.steady ==> final(buffer)@.slots == old(buffer)@.slots,
        final(buffer)@.slots.len() == old(buffer)@.slots.len(),
        old(buffer)@.live.subset_of(final(buffer)@.live),
        ({
            let n = old(buffer)@.slots.len() as int;
            let a = old(buffer)@.slots[i];
            let b = final(buffer)@.slots[i];
            &&& a.state.seq_no <= b.state.seq_no
            &&& a.state.seq_no != 0 ==> (b.state.seq_no - a.state.seq_no) % n == 0
            &&& a.state.seq_no == b.state.seq_no && !a.state.dirty ==> b == a
        }),
{
    assert(slot_evolves(
        old(buffer)@.slots[i],
        final(buffer)@.slots[i],
        old(buffer)@.slots.len() as int,
    ));
}

/// A receiver starts at the message that is being written: on a ring that nobody else changes,
/// at the number in the first slot that is dirty with a number, and there is none if there is
/// no such slot.
pub proof fn law_receiver_start<T: Clone + Default, B: Buffer<T, Stamp>>(
    buffer: &mut B,
    made: Option<Receiver<T>>,
    i: int,
)
    requires
        old(buffer)@.steady,
        call_ensures(Receiver::<T>::new::<B>, (buffer,), made),
        0 <= i <= old(buffer)@.slots.len(),
        forall|j: int|
            #![trigger old(buffer)@.slots[j]]
            0 <= j < i ==> !old(buffer)@.slots[j].state.dirty || old(buffer)@.slots[j].state.seq_no
                == 0,
    ensures
        final(buffer)@.slots == old(buffer)@.slots,
        final(buffer)@.trail == old(buffer)@.trail,
        i == old(buffer)@.slots.len() ==> made is None,
        i < old(buffer)@.slots.len() && old(buffer)@.slots[i].state.dirty
            && old(buffer)@.slots[i].state.seq_no != 0 ==> {
            &&& made matches Some(rx)
            &&& rx.expected() == old(buffer)@.slots[i].state.seq_no
            &&& T::default.ensures((), rx.held())
        },
        forall|j: int|
            #![trigger final(buffer)@.slots[j]]
            0 <= j < old(buffer)@.slots.len() && !final(buffer)@.slots[j].state.dirty
                ==> final(buffer)@.live.contains(j),
{
    if i < old(buffer)@.slots.len() && old(buffer)@.slots[i].state.dirty
        && old(buffer)@.slots[i].state.seq_no != 0 {
        assert(first_active(old(buffer)@.slots, i));
    }
}

/// On any ring, a receiver starts where its search stops: it loads the states of the slots one
/// after the other, until it finds one that is dirty with a number, loads that state again, and
/// expects the number that it finds then. If it finds none, there is no receiver.
pub proof fn law_receiver_search<T: Clone + Default, B: Buffer<T, Stamp>>(
    buffer: &mut B,
    made: Option<Receiver<T>>,
    j: int,
)
    requires
        call_ensures(Receiver::<T>::new::<B>, (buffer,), made),
        0 <= j < final(buffer)@.looks.len() - old(buffer)@.looks.len(),
    ensures
        ({
            let k = old(buffer)@.looks.len() as int;
            let count = final(buffer)@.looks.len() - k;
            let n = old(buffer)@.slots.len() as int;
            let look = final(buffer)@.looks[k + j];
            &&& made is None ==> count == n
            &&& made is Some ==> 2 <= count <= n + 1
            &&& look matches Look::Loaded { index, slots }
            &&& made is Some && j == count - 1 ==> {
                &&& index == count - 2
                &&& slots == final(buffer)@.slots
                &&& made->0.expected() == slots[index].state.seq_no
            }
            &&& made is Some && j == count - 2 ==> {
                &&& index == j
                &&& slots[j].state.dirty
                &&& slots[j].state.seq_no != 0
            }
            &&& made is None || j < count - 2 ==> {
                &&& index == j
                &&& !slots[j].state.dirty || slots[j].state.seq_no == 0
            }
        }),
{
    let k = old(buffer)@.looks.len() as int;
    assert(final(buffer)@.looks[k + j] == final(buffer)@.looks[k + j]);
}

/// A clone of a receiver is at the same position, and holds a clone of what it holds.
pub proof fn law_receiver_clone<T: Clone>(rx: Receiver<T>, copy: Receiver<T>)
    requires
        call_ensures(<Receiver<T> as Clone>::clone, (&rx,), copy),
    ensures
        copy.expected() == rx.expected(),
        cloned(rx.held(), copy.held()),
{
}

/// A receiver that expects message `e` receives from slot `e % n`. It gets the committed
/// message that is there when the call returns, which is message `e` or a later one that falls
/// on that slot, and expects the one after it: exactly the next number, however far it was
/// overtaken.
pub proof fn law_recv_call<T: Clone, B: Buffer<T, Stamp>>(
    rx: &mut Receiver<T>,
    buffer: &mut B,
    got: (u64, &T),
)
    requires
        old(buffer)@.slots.len() >= 2,
        call_ensures(Receiver::<T>::recv::<B>, (rx, buffer), got),
    ensures
        ({
            let n = old(buffer)@.slots.len() as int;
            let e = old(rx).expected();
            let slot = final(buffer)@.slots[e as int % n];
            let looks = final(buffer)@.looks;
            let k = looks.len() as int;
            &&& final(buffer)@.slots.len() == n
            &&& !slot.state.dirty
            &&& slot.state.seq_no == got.0
            &&& cloned(slot.payload, *got.1)
            &&& got.0 >= e
            &&& (got.0 - e) % n == 0
            &&& final(rx).expected() == got.0 + 1
            &&& final(rx).held() == *got.1
            &&& k >= 3
            &&& looks[k - 3] matches Look::Loaded { index, slots } && index == e as int % n
                && !slots[index].state.dirty && slots[index].state.seq_no == got.0
            &&& looks[k - 2] matches Look::Copied { index, value, .. } && index == e as int % n
                && value == *got.1
            &&& looks[k - 1] matches Look::Loaded { index, slots } && index == e as int % n
                && slots[index].state.seq_no == got.0
        }),
{
}

/// A receiver loses nothing but what was overwritten: after it has received message `s`,
/// whichever that was, the next call receives from slot `(s + 1) % n`. If message `s + 1` is
/// committed there, and the ring does not change meanwhile, the call returns it, with its
/// payload; if it was overwritten by a later one, it returns that one.
pub proof fn law_recv_after_recv<T: Clone, B: Buffer<T, Stamp>>(
    rx: &mut Receiver<T>,
    buffer: &mut B,
    got: (u64, &T),
    rx2: &mut Receiver<T>,
    buffer2: &mut B,
    got2: (u64, &T),
)
    requires
        call_ensures(Receiver::<T>::recv::<B>, (rx, buffer), got),
        *old(rx2) == *final(rx),
        old(buffer2)@.slots.len() >= 2,
        call_ensures(Receiver::<T>::recv::<B>, (rx2, buffer2), got2),
    ensures
        ({
            let n = old(buffer2)@.slots.len() as int;
            let slot = final(buffer2)@.slots[(got.0 + 1) % n];
            &&& got2.0 == slot.state.seq_no
            &&& cloned(slot.payload, *got2.1)
            &&& got2.0 >= got.0 + 1
            &&& (got2.0 - (got.0 + 1)) % n == 0
            &&& old(buffer2)@.steady ==> slot == old(buffer2)@.slots[(got.0 + 1) % n]
            &&& old(buffer2)@.steady && old(buffer2)@.slots[(got.0 + 1) % n].state.seq_no == got.0
                + 1 ==> got2.0 == got.0 + 1
        }),
{
}

/// So it is if the next call does not wait.
pub proof fn law_try_recv_after_recv<T: Clone, B: Buffer<T, Stamp>>(
    rx: &mut Receiver<T>,
    buffer: &mut B,
    got: (u64, &T),
    rx2: &mut Receiver<T>,
    buffer2: &mut B,
    attempt: (u64, Option<&T>),
)
    requires
        call_ensures(Receiver::<T>::recv::<B>, (rx, buffer), got),
        *old(rx2) == *final(rx),
        old(buffer2)@.slots.len() >= 2,
        old(buffer2)@.steady,
        old(buffer2)@.slots[(got.0 + 1) % old(buffer2)@.slots.len() as int].state.seq_no == got.0
            + 1,
        call_ensures(Receiver::<T>::try_recv::<B>, (rx2, buffer2), attempt),
    ensures
        ({
            let slot = old(buffer2)@.slots[(got.0 + 1) % old(buffer2)@.slots.len() as int];
            &&& attempt.0 == got.0 + 1
            &&& attempt.1 is Some <==> !slot.state.dirty
            &&& attempt.1 matches Some(payload) ==> cloned(slot.payload, *payload)
            &&& final(rx2).expected() == got.0 + (if slot.state.dirty {
                1int
            } else {
                2
            })
        }),
{
}

/// So it is after an attempt that got a message.
pub proof fn law_recv_after_try_recv<T: Clone, B: Buffer<T, Stamp>>(
    rx: &mut Receiver<T>,
    buffer: &mut B,
    attempt: (u64, Option<&T>),
    rx2: &mut Receiver<T>,
    buffer2: &mut B,
    got: (u64, &T),
)
    requires
        old(buffer)@.slots.len() >= 2,
        call_ensures(Receiver::<T>::try_recv::<B>, (rx, buffer), attempt),
        *old(rx2) == *final(rx),
        old(buffer2)@.slots.len() >= 2,
        call_ensures(Receiver::<T>::recv::<B>, (rx2, buffer2), got),
    ensures
        ({
            let n = old(buffer2)@.slots.len() as int;
            let e = attempt.0 + (if attempt.1 is Some {
                1int
            } else {
                0
            });
            let slot = final(buffer2)@.slots[e % n];
            &&& got.0 == slot.state.seq_no
            &&& cloned(slot.payload, *got.1)
            &&& got.0 >= e
            &&& (got.0 - e) % n == 0
            &&& old(buffer2)@.steady && old(buffer2)@.slots[e % n].state.seq_no == e ==> got.0 == e
        }),
{
}

/// A peek after a message that was received finds the next one.
pub proof fn law_peek_after_recv<T: Clone, B: Buffer<T, Stamp>>(
    rx: &mut Receiver<T>,
    buffer: &mut B,
    got: (u64, &T),
    rx2: &mut Receiver<T>,
    buffer2: &mut B,
    peek: (u64, &T),
)
    requires
        call_ensures(Receiver::<T>::recv::<B>, (rx, buffer), got),
        *old(rx2) == *final(rx),
        old(buffer2)@.slots.len() >= 2,
        old(buffer2)@.steady,
        old(buffer2)@.slots[(got.0 + 1) % old(buffer2)@.slots.len() as int].state.seq_no == got.0
            + 1,
        call_ensures(Receiver::<T>::peek_unsafe::<B>, (rx2, buffer2), peek),
    ensures
        peek.0 == got.0 + 1,
        *peek.1 == old(buffer2)@.slots[(got.0 + 1) % old(buffer2)@.slots.len() as int].payload,
{
}

/// What an attempt to receive returns, on any ring: it loads the state of slot `e % n`, where
/// `e` is the message that is expected. If that is dirty, it returns the number, and nothing
/// more is done. If it is clean, with number `s`, it copies the payload of slot `s % n` and
/// loads the state of that slot. If the number is still `s`, it delivers the copy under that
/// number, and the next message is expected. If it is another, nothing is delivered, that
/// number is returned, and expected.
pub proof fn law_try_recv_call<T: Clone, B: Buffer<T, Stamp>>(
    rx: &mut Receiver<T>,
    buffer: &mut B,
    got: (u64, Option<&T>),
)
    requires
        old(buffer)@.slots.len() >= 2,
        call_ensures(Receiver::<T>::try_recv::<B>, (rx, buffer), got),
    ensures
        ({
            let n = old(buffer)@.slots.len() as int;
            let at = old(rx).expected() as int % n;
            let k = old(buffer)@.looks.len() as int;
            let looks = final(buffer)@.looks;
            &&& got.0 < 0x8000_0000_0000_0000
            &&& looks.len() > k
            &&& looks[k] matches Look::Loaded { index, slots }
            &&& index == at
            &&& slots[at].state.dirty ==> {
                &&& looks.len() == k + 1
                &&& got.1 is None
                &&& got.0 == slots[at].state.seq_no
                &&& final(rx).expected() == got.0
                &&& final(rx).held() == old(rx).held()
            }
            &&& !slots[at].state.dirty ==> {
                let s = slots[at].state.seq_no;
                &&& looks.len() == k + 3
                &&& looks[k + 1] matches Look::Copied { index: from, value, .. }
                &&& from == s as int % n
                &&& final(rx).held() == value
                &&& looks[k + 2] matches Look::Loaded { index: from, slots: last }
                &&& from == s as int % n
                &&& got.0 == last[from].state.seq_no
                &&& got.1 is Some <==> got.0 == s
                &&& got.1 matches Some(payload) ==> *payload == value
                &&& got.1 is Some ==> final(rx).expected() == got.0 + 1
                &&& got.1 is None ==> final(rx).expected() == got.0
            }
        }),
{
}

/// On a ring that nobody else changes, an attempt gets the message in slot `e % n` if that is
/// clean and its number falls on that slot, and nothing but the number if it is dirty.
pub proof fn law_try_recv_steady<T: Clone, B: Buffer<T, Stamp>>(
    rx: &mut Receiver<T>,
    buffer: &mut B,
    got: (u64, Option<&T>),
)
    requires
        old(buffer)@.slots.len() >= 2,
        old(buffer)@.steady,
        call_ensures(Receiver::<T>::try_recv::<B>, (rx, buffer), got),
    ensures
        ({
            let n = old(buffer)@.slots.len() as int;
            let slot = old(buffer)@.slots[old(rx).expected() as int % n];
            let falls = slot.state.seq_no as int % n == old(rx).expected() as int % n;
            &&& slot.state.dirty ==> got.1 is None && got.0 == slot.state.seq_no
            &&& !slot.state.dirty && falls ==> {
                &&& got.0 == slot.state.seq_no
                &&& got.1 matches Some(payload)
                &&& cloned(slot.payload, *payload)
            }
        }),
{
}

/// A receiver that the ring has come to stays one: if its slot holds the message that it
/// expects, or a later one that falls there, then an attempt returns no smaller number, which
/// falls on that slot too, and delivers the message that is in the slot when the call returns.
pub proof fn law_try_recv_tracks<T: Clone, B: Buffer<T, Stamp>>(
    rx: &mut Receiver<T>,
    buffer: &mut B,
    got: (u64, Option<&T>),
)
    requires
        old(buffer)@.slots.len() >= 2,
        ({
            let n = old(buffer)@.slots.len() as int;
            let e = old(rx).expected();
            let number = old(buffer)@.slots[e as int % n].state.seq_no;
            &&& 1 <= e <= number
            &&& (number - e) % n == 0
        }),
        call_ensures(Receiver::<T>::try_recv::<B>, (rx, buffer), got),
    ensures
        ({
            let n = old(buffer)@.slots.len() as int;
            let e = old(rx).expected();
            let slot = final(buffer)@.slots[e as int % n];
            &&& got.0 >= e
            &&& (got.0 - e) % n == 0
            &&& slot.state.seq_no == got.0
            &&& got.1 matches Some(payload) ==> !slot.state.dirty && cloned(
                slot.payload,
                *payload,
            )
            &&& got.1 is None ==> slot.state.dirty || slot.state.seq_no
                != old(buffer)@.slots[e as int % n].state.seq_no || old(buffer)@.slots[e as int
                % n].state.dirty
        }),
{
}

/// Waiting for message `e` loads the state of slot `e % n` again and again, for as long as it
/// is dirty. It returns the number that is there when it is clean, and the receiver expects
/// that one.
pub proof fn law_wait_call<T: Clone, B: Buffer<T, Stamp>>(
    rx: &mut Receiver<T>,
    buffer: &mut B,
    s: u64,
    j: int,
)
    requires
        old(buffer)@.slots.len() >= 2,
        call_ensures(Receiver::<T>::wait::<B>, (rx, buffer), s),
        old(buffer)@.looks.len() <= j < final(buffer)@.looks.len(),
    ensures
        ({
            let n = old(buffer)@.slots.len() as int;
            let e = old(rx).expected();
            let at = e as int % n;
            let before = old(buffer)@.slots[at].state.seq_no;
            &&& s < 0x8000_0000_0000_0000
            &&& final(buffer)@.looks.last() == (Look::Loaded {
                index: at,
                slots: final(buffer)@.slots,
            })
            &&& final(rx).expected() == s
            &&& final(rx).held() == old(rx).held()
            &&& !final(buffer)@.slots[at].state.dirty
            &&& final(buffer)@.slots[at].state.seq_no == s
            &&& 1 <= e <= before && (before - e) % n == 0 ==> s >= e && (s - e) % n == 0
            &&& final(buffer)@.trail == old(buffer)@.trail
            &&& old(buffer)@.steady ==> final(buffer)@.slots == old(buffer)@.slots
            &&& final(buffer)@.looks[j] matches Look::Loaded { index, slots }
            &&& index == at
            &&& slots[at].state.dirty <==> j < final(buffer)@.looks.len() - 1
        }),
{
}

// ---------------------------------------------------------------------------
// Reading in place
// ---------------------------------------------------------------------------

/// Peeking waits as [`law_wait_call`] says, and lends out the payload of slot `s % n`, where
/// `s` is the number that it returns. The receiver expects that message, so it has not gone on.
pub proof fn law_peek_call<T: Clone, B: Buffer<T, Stamp>>(
    rx: &mut Receiver<T>,
    buffer: &mut B,
    got: (u64, &T),
    j: int,
)
    requires
        old(buffer)@.slots.len() >= 2,
        call_ensures(Receiver::<T>::peek_unsafe::<B>, (rx, buffer), got),
        old(buffer)@.looks.len() <= j < final(buffer)@.looks.len(),
    ensures
        ({
            let n = old(buffer)@.slots.len() as int;
            let at = old(rx).expected() as int % n;
            let looks = final(buffer)@.looks;
            &&& final(rx).expected() == got.0
            &&& final(rx).held() == old(rx).held()
            &&& !final(buffer)@.slots[at].state.dirty
            &&& final(buffer)@.slots[at].state.seq_no == got.0
            &&& old(buffer)@.steady ==> *got.1 == old(buffer)@.slots[got.0 as int % n].payload
            &&& looks.len() > old(buffer)@.looks.len() + 1
            &&& j == looks.len() - 1 ==> {
                &&& looks[j] matches Look::Lent { index, slots, value }
                &&& index == got.0 as int % n
                &&& slots == final(buffer)@.slots
                &&& value == *got.1
            }
            &&& j < looks.len() - 1 ==> {
                &&& looks[j] matches Look::Loaded { index, slots }
                &&& index == at
                &&& slots[at].state.dirty <==> j < looks.len() - 2
            }
        }),
{
    assert(j < final(buffer)@.looks.len() - 1 ==> final(buffer)@.looks[j]
        == final(buffer)@.looks.drop_last()[j]);
}

/// Peeking without waiting returns the number in slot `e % n`, and lends out the payload of
/// that message if it is clean. The receiver expects that number.
pub proof fn law_try_peek_call<T: Clone, B: Buffer<T, Stamp>>(
    rx: &mut Receiver<T>,
    buffer: &mut B,
    got: (u64, Option<&T>),
)
    requires
        old(buffer)@.slots.len() >= 2,
        call_ensures(Receiver::<T>::try_peek_unsafe::<B>, (rx, buffer), got),
    ensures
        ({
            let n = old(buffer)@.slots.len() as int;
            let at = old(rx).expected() as int % n;
            let state = final(buffer)@.slots[at].state;
            let k = old(buffer)@.looks.len() as int;
            let looks = final(buffer)@.looks;
            &&& got.0 == state.seq_no
            &&& got.1 is None <==> state.dirty
            &&& final(rx).expected() == got.0
            &&& final(rx).held() == old(rx).held()
            &&& final(buffer)@.trail == old(buffer)@.trail
            &&& old(buffer)@.steady ==> final(buffer)@.slots == old(buffer)@.slots
            &&& looks.len() == k + (if got.1 is Some {
                2int
            } else {
                1
            })
            &&& looks[k] matches Look::Loaded { index, slots } && index == at && slots
                == final(buffer)@.slots
            &&& got.1 matches Some(payload) ==> {
                &&& looks[k + 1] matches Look::Lent { index, slots, value }
                &&& index == got.0 as int % n
                &&& slots == final(buffer)@.slots
                &&& value == *payload
                &&& old(buffer)@.steady ==> *payload == old(buffer)@.slots[got.0 as int
                    % n].payload
            }
        }),
{
}

/// Confirming looks at slot `e % n` once, where `e` is the message that is expected. It
/// succeeds if the number there is `e`, and then the next message is expected. If it fails, the
/// receiver stays: it expects exactly the number that is there, be the slot clean or dirty.
pub proof fn law_advance_call<T: Clone, B: Buffer<T, Stamp>>(
    rx: &mut Receiver<T>,
    buffer: &mut B,
    valid: bool,
)
    requires
        old(buffer)@.slots.len() >= 2,
        call_ensures(Receiver::<T>::advance::<B>, (rx, buffer), valid),
    ensures
        ({
            let n = old(buffer)@.slots.len() as int;
            let e = old(rx).expected();
            let state = final(buffer)@.slots[e as int % n].state;
            let k = old(buffer)@.looks.len() as int;
            &&& valid <==> state.seq_no == e
            &&& valid ==> final(rx).expected() == e + 1
            &&& !valid ==> final(rx).expected() == state.seq_no
            &&& final(rx).held() == old(rx).held()
            &&& final(buffer)@.looks.len() == k + 1
            &&& final(buffer)@.looks[k] == (Look::Loaded {
                index: e as int % n,
                slots: final(buffer)@.slots,
            })
        }),
{
}

/// A receiver whose peek was not confirmed does not lose the message that overwrote the slot:
/// whatever number the confirming call found there, be it of a clean slot or of a dirty one,
/// the next call gets that message from that slot, once it is committed.
pub proof fn law_overwriting_message_is_received<T: Clone, B: Buffer<T, Stamp>>(
    rx: &mut Receiver<T>,
    buffer: &mut B,
    rx2: &mut Receiver<T>,
    buffer2: &mut B,
    attempt: (u64, Option<&T>),
    rx3: &mut Receiver<T>,
    buffer3: &mut B,
    got: (u64, &T),
)
    requires
        old(buffer)@.slots.len() >= 2,
        call_ensures(Receiver::<T>::advance::<B>, (rx, buffer), false),
        *old(rx2) == *final(rx),
        old(buffer2)@.slots.len() == old(buffer)@.slots.len(),
        old(buffer2)@.steady,
        ({
            let n = old(buffer)@.slots.len() as int;
            let at = old(rx).expected() as int % n;
            let found = final(buffer)@.slots[at].state.seq_no;
            &&& found as int % n == at
            &&& old(buffer2)@.slots[at].state.seq_no == found
            &&& !old(buffer2)@.slots[at].state.dirty
        }),
        call_ensures(Receiver::<T>::try_recv::<B>, (rx2, buffer2), attempt),
        *old(rx3) == *final(rx),
        old(buffer3)@.slots == old(buffer2)@.slots,
        old(buffer3)@.steady,
        call_ensures(Receiver::<T>::recv::<B>, (rx3, buffer3), got),
    ensures
        ({
            let at = old(rx).expected() as int % old(buffer)@.slots.len() as int;
            let slot = old(buffer2)@.slots[at];
            &&& attempt.0 == final(buffer)@.slots[at].state.seq_no
            &&& attempt.1 matches Some(payload)
            &&& cloned(slot.payload, *payload)
            &&& got.0 == attempt.0
            &&& cloned(slot.payload, *got.1)
        }),
{
}

/// While the slot is still being written, the attempts after a failed confirmation return its
/// number and nothing else, and the receiver stays.
pub proof fn law_overwriting_message_is_waited_for<T: Clone, B: Buffer<T, Stamp>>(
    rx: &mut Receiver<T>,
    buffer: &mut B,
    rx2: &mut Receiver<T>,
    buffer2: &mut B,
    attempt: (u64, Option<&T>),
)
    requires
        old(buffer)@.slots.len() >= 2,
        call_ensures(Receiver::<T>::advance::<B>, (rx, buffer), false),
        *old(rx2) == *final(rx),
        old(buffer2)@.slots == final(buffer)@.slots,
        old(buffer2)@.steady,
        ({
            let n = old(buffer)@.slots.len() as int;
            let at = old(rx).expected() as int % n;
            &&& final(buffer)@.slots.len() == n
            &&& final(buffer)@.slots[at].state.seq_no as int % n == at
            &&& final(buffer)@.slots[at].state.dirty
        }),
        call_ensures(Receiver::<T>::try_recv::<B>, (rx2, buffer2), attempt),
    ensures
        ({
            let at = old(rx).expected() as int % old(buffer)@.slots.len() as int;
            &&& attempt.0 == final(buffer)@.slots[at].state.seq_no
            &&& attempt.1 is None
            &&& final(rx2).expected() == attempt.0
        }),
{
}

/// A peek that is confirmed read the message: if the slot was clean when it was peeked at, and
/// whatever the sender did in between, a confirming call that succeeds shows that what was read
/// is the payload that is still in the slot, under the number that the peek returned.
pub proof fn law_confirmed_peek_calls<T: Clone, B: Buffer<T, Stamp>>(
    rx: &mut Receiver<T>,
    buffer: &mut B,
    peek: (u64, &T),
    rx2: &mut Receiver<T>,
    buffer2: &mut B,
)
    requires
        old(buffer)@.slots.len() >= 2,
        call_ensures(Receiver::<T>::peek_unsafe::<B>, (rx, buffer), peek),
        peek.0 as int % old(buffer)@.slots.len() as int == old(rx).expected() as int
            % old(buffer)@.slots.len() as int,
        *old(rx2) == *final(rx),
        *old(buffer2) == *final(buffer),
        call_ensures(Receiver::<T>::advance::<B>, (rx2, buffer2), true),
    ensures
        ({
            let at = peek.0 as int % old(buffer)@.slots.len() as int;
            let slot = final(buffer2)@.slots[at];
            &&& slot.payload == *peek.1
            &&& slot.state.seq_no == peek.0
            &&& !slot.state.dirty
            &&& final(rx2).expected() == peek.0 + 1
        }),
{
    let n = old(buffer)@.slots.len() as int;
    let at = peek.0 as int % n;
    lemma_mod_bound(peek.0 as int, n);
    crate::laws::law_confirmed_value(
        final(buffer)@,
        final(buffer2)@,
        final(buffer)@.looks.len() - 1,
        at,
        *peek.1,
    );
}

// ---------------------------------------------------------------------------
// Sending and receiving
// ---------------------------------------------------------------------------

/// A message stays in its slot until the sender comes round to it: sending message `s` leaves
/// message `m` as it was, if `m < s < m + n - 1`, and takes its slot for message `m + n` if `s
/// == m + n - 1`.
pub proof fn law_message_stays<T, B: Buffer<T, Stamp>>(
    tx: &mut Sender,
    buffer: &mut B,
    payload: T,
    s: u64,
    m: u64,
)
    requires
        old(buffer)@.slots.len() >= 2,
        s + 1 < 0x8000_0000_0000_0000,
        call_ensures(Sender::send::<T, B>, (tx, buffer, payload), s),
        m < s < m + old(buffer)@.slots.len(),
    ensures
        ({
            let n = old(buffer)@.slots.len() as int;
            let at = m as int % n;
            &&& s + 1 < m + n ==> final(buffer)@.slots[at] == old(buffer)@.slots[at]
            &&& s + 1 == m + n ==> {
                &&& final(buffer)@.slots[at].state.dirty
                &&& final(buffer)@.slots[at].state.seq_no == m + n
            }
        }),
{
    let n = old(buffer)@.slots.len() as int;
    lemma_mod_bound(m as int, n);
    lemma_slots(s, n);
    lemma_apart(m as int, s as int, n);
    lemma_apart(m as int, s + 1, n);
}

/// Two numbers fall on the same slot only if they are a multiple of the capacity apart.
proof fn lemma_apart(a: int, b: int, n: int)
    requires
        n > 0,
        a < b <= a + n,
    ensures
        a % n == b % n <==> b == a + n,
{
    lemma_mod_equivalence(b, a, n);
    if b < a + n {
        lemma_small_mod((b - a) as nat, n as nat);
    } else {
        lemma_mod_self_0(n);
    }
}

/// What is sent is what is received, under the number that sending returned.
pub proof fn law_sent_then_received<T: Clone, B: Buffer<T, Stamp>>(
    tx: &mut Sender,
    buffer: &mut B,
    payload: T,
    s: u64,
    rx: &mut Receiver<T>,
    buffer2: &mut B,
    got: (u64, &T),
)
    requires
        old(buffer)@.slots.len() >= 2,
        old(buffer)@.steady,
        s + 1 < 0x8000_0000_0000_0000,
        call_ensures(Sender::send::<T, B>, (tx, buffer, payload), s),
        old(buffer2)@ == final(buffer)@,
        old(rx).expected() == s,
        call_ensures(Receiver::<T>::recv::<B>, (rx, buffer2), got),
    ensures
        got.0 == s,
        cloned(payload, *got.1),
        final(rx).expected() == s + 1,
{
    lemma_slots(s, old(buffer)@.slots.len() as int);
}

/// So it is with an attempt, which is a success.
pub proof fn law_sent_then_tried<T: Clone, B: Buffer<T, Stamp>>(
    tx: &mut Sender,
    buffer: &mut B,
    payload: T,
    s: u64,
    rx: &mut Receiver<T>,
    buffer2: &mut B,
    got: (u64, Option<&T>),
)
    requires
        old(buffer)@.slots.len() >= 2,
        old(buffer)@.steady,
        s + 1 < 0x8000_0000_0000_0000,
        call_ensures(Sender::send::<T, B>, (tx, buffer, payload), s),
        old(buffer2)@ == final(buffer)@,
        old(rx).expected() == s,
        call_ensures(Receiver::<T>::try_recv::<B>, (rx, buffer2), got),
    ensures
        got.0 == s,
        got.1 matches Some(received) && cloned(payload, *received),
        final(rx).expected() == s + 1,
{
    lemma_slots(s, old(buffer)@.slots.len() as int);
}

/// So it is with a peek, which reads the payload itself.
pub proof fn law_sent_then_peeked<T: Clone, B: Buffer<T, Stamp>>(
    tx: &mut Sender,
    buffer: &mut B,
    payload: T,
    s: u64,
    rx: &mut Receiver<T>,
    buffer2: &mut B,
    got: (u64, &T),
)
    requires
        old(buffer)@.slots.len() >= 2,
        old(buffer)@.steady,
        s + 1 < 0x8000_0000_0000_0000,
        call_ensures(Sender::send::<T, B>, (tx, buffer, payload), s),
        old(buffer2)@ == final(buffer)@,
        old(rx).expected() == s,
        call_ensures(Receiver::<T>::peek_unsafe::<B>, (rx, buffer2), got),
    ensures
        got.0 == s,
        *got.1 == payload,
        final(rx).expected() == s,
{
    lemma_slots(s, old(buffer)@.slots.len() as int);
}

/// So it is with an attempt to peek.
pub proof fn law_sent_then_peeked_at<T: Clone, B: Buffer<T, Stamp>>(
    tx: &mut Sender,
    buffer: &mut B,
    payload: T,
    s: u64,
    rx: &mut Receiver<T>,
    buffer2: &mut B,
    got: (u64, Option<&T>),
)
    requires
        old(buffer)@.slots.len() >= 2,
        old(buffer)@.steady,
        s + 1 < 0x8000_0000_0000_0000,
        call_ensures(Sender::send::<T, B>, (tx, buffer, payload), s),
        old(buffer2)@ == final(buffer)@,
        old(rx).expected() == s,
        call_ensures(Receiver::<T>::try_peek_unsafe::<B>, (rx, buffer2), got),
    ensures
        got.0 == s,
        got.1 matches Some(read) && *read == payload,
        final(rx).expected() == s,
{
    lemma_slots(s, old(buffer)@.slots.len() as int);
}

/// Sending a clone leaves a clone in the ring.
pub proof fn law_sent_from_then_peeked_at<T: Clone, B: Buffer<T, Stamp>>(
    tx: &mut Sender,
    buffer: &mut B,
    payload: T,
    s: u64,
    rx: &mut Receiver<T>,
    buffer2: &mut B,
    got: (u64, Option<&T>),
)
    requires
        old(buffer)@.slots.len() >= 2,
        old(buffer)@.steady,
        s + 1 < 0x8000_0000_0000_0000,
        call_ensures(Sender::send_from::<T, B>, (tx, buffer, &payload), s),
        old(buffer2)@ == final(buffer)@,
        old(rx).expected() == s,
        call_ensures(Receiver::<T>::try_peek_unsafe::<B>, (rx, buffer2), got),
    ensures
        got.0 == s,
        got.1 matches Some(read) && cloned(payload, *read),
{
    lemma_slots(s, old(buffer)@.slots.len() as int);
}

/// After message `s` there is nothing to receive until message `s + 1` is sent.
pub proof fn law_nothing_after_the_last<T: Clone, B: Buffer<T, Stamp>>(
    tx: &mut Sender,
    buffer: &mut B,
    payload: T,
    s: u64,
    rx: &mut Receiver<T>,
    buffer2: &mut B,
    got: (u64, Option<&T>),
)
    requires
        old(buffer)@.slots.len() >= 2,
        old(buffer)@.steady,
        s + 1 < 0x8000_0000_0000_0000,
        call_ensures(Sender::send::<T, B>, (tx, buffer, payload), s),
        old(buffer2)@ == final(buffer)@,
        old(rx).expected() == s + 1,
        call_ensures(Receiver::<T>::try_recv::<B>, (rx, buffer2), got),
    ensures
        got.0 == s + 1,
        got.1 is None,
        final(rx).expected() == s + 1,
{
    lemma_slots(s, old(buffer)@.slots.len() as int);
}

/// Writing a reserved payload and committing it sends it.
pub proof fn law_reserve_and_commit<T, B: Buffer<T, Stamp>>(
    tx: &mut Sender,
    buffer: &mut B,
    s: u64,
    slot: &mut T,
    buffer2: &mut B,
    i: int,
)
    requires
        old(buffer)@.slots.len() >= 2,
        s + 1 < 0x8000_0000_0000_0000,
        call_ensures(Sender::reserve::<T, B>, (old(tx), buffer), (s, slot)),
        old(buffer2)@ == final(buffer)@,
        call_ensures(Sender::commit::<T, B>, (tx, buffer2), ()),
        0 <= i < old(buffer)@.slots.len(),
    ensures
        ({
            let n = old(buffer)@.slots.len() as int;
            let sent = final(buffer2)@.slots[i];
            &&& final(tx).next() == s + 1
            &&& i == s as int % n ==> {
                &&& !sent.state.dirty
                &&& sent.state.seq_no == s
                &&& sent.payload == *final(slot)
            }
            &&& i == (s + 1) % n ==> sent.state.dirty && sent.state.seq_no == s + 1
            &&& i != s as int % n && i != (s + 1) % n ==> sent == old(buffer)@.slots[i]
        }),
{
    lemma_slots(s, old(buffer)@.slots.len() as int);
}

/// A ring that is initialized, and then sent to, is at all times one that a sender of the
/// protocol may have left behind.
pub proof fn law_sending_keeps_order<T: Clone + Default, B: Buffer<T, Stamp>>(
    buffer: &mut B,
    made: Sender,
    tx: &mut Sender,
    buffer2: &mut B,
    payload: T,
    s: u64,
)
    requires
        old(buffer)@.slots.len() >= 2,
        call_ensures(Sender::with_init::<T, B>, (buffer,), made),
        old(tx).in_step(old(buffer2)@.slots),
        s + 1 < 0x8000_0000_0000_0000,
        call_ensures(Sender::send::<T, B>, (tx, buffer2, payload), s),
    ensures
        made.in_step(final(buffer)@.slots),
        orderly(final(buffer)@.slots),
        final(tx).in_step(final(buffer2)@.slots),
        orderly(final(buffer2)@.slots),
{
    assert(laid(final(buffer)@.slots, made.next() as int, made.next() as int, 0));
    assert(laid(final(buffer2)@.slots, final(tx).next() as int, final(tx).next() as int, 0));
}

/// A receiver that is made on the ring of a sender between two messages starts at the message
/// that is sent next, and is where the ring is.
pub proof fn law_receiver_starts_in_step<T: Clone + Default, B: Buffer<T, Stamp>>(
    tx: Sender,
    buffer: &mut B,
    made: Option<Receiver<T>>,
)
    requires
        old(buffer)@.steady,
        tx.in_step(old(buffer)@.slots),
        call_ensures(Receiver::<T>::new::<B>, (buffer,), made),
    ensures
        made matches Some(rx) && rx.expected() == tx.next(),
        ({
            let n = old(buffer)@.slots.len() as int;
            let slot = final(buffer)@.slots[tx.next() as int % n];
            slot.state.dirty && slot.state.seq_no == tx.next()
        }),
{
    lemma_resume(old(buffer)@.slots, tx.next() as int);
}

/// Receiving goes on for as long as messages are committed: on a ring of the protocol, after
/// message `s` was received, the ring has come to message `s + 1`, so that it may be waited
/// for, once it is known to be committed some time.
pub proof fn law_recv_goes_on<T: Clone, B: Buffer<T, Stamp>>(
    rx: &mut Receiver<T>,
    buffer: &mut B,
    got: (u64, &T),
    rx2: &mut Receiver<T>,
    buffer2: &mut B,
    k: nat,
)
    requires
        old(buffer)@.slots.len() >= 2,
        orderly(old(buffer)@.slots),
        call_ensures(Receiver::<T>::recv::<B>, (rx, buffer), got),
        *old(rx2) == *final(rx),
        *old(buffer2) == *final(buffer),
        old(buffer2)@.slots.len() == pow2(k),
    ensures
        ({
            let n = old(buffer2)@.slots.len() as int;
            let number = old(buffer2)@.slots[(got.0 + 1) % n].state.seq_no;
            &&& number >= got.0 + 1
            &&& (number - (got.0 + 1)) % n == 0
            &&& old(buffer2)@.live.contains((got.0 + 1) % n) ==> call_requires(
                Receiver::<T>::recv::<B>,
                (rx2, buffer2),
            )
        }),
{
    assert(is_power_of_two(old(buffer2)@.slots.len() as int));
}

/// So it is after an attempt, whether it got a message or not, if the receiver was where the
/// ring was.
pub proof fn law_try_recv_goes_on<T: Clone, B: Buffer<T, Stamp>>(
    rx: &mut Receiver<T>,
    buffer: &mut B,
    got: (u64, Option<&T>),
)
    requires
        old(buffer)@.slots.len() >= 2,
        orderly(old(buffer)@.slots),
        ({
            let n = old(buffer)@.slots.len() as int;
            let e = old(rx).expected();
            let number = old(buffer)@.slots[e as int % n].state.seq_no;
            &&& 1 <= e <= number
            &&& (number - e) % n == 0
        }),
        call_ensures(Receiver::<T>::try_recv::<B>, (rx, buffer), got),
    ensures
        ({
            let n = old(buffer)@.slots.len() as int;
            let e = final(rx).expected();
            let number = final(buffer)@.slots[e as int % n].state.seq_no;
            &&& 1 <= e <= number
            &&& (number - e) % n == 0
        }),
{
}

/// So it is after a confirmation, if the slot was not dirty under a number that was confirmed.
pub proof fn law_advance_goes_on<T: Clone, B: Buffer<T, Stamp>>(
    rx: &mut Receiver<T>,
    buffer: &mut B,
    valid: bool,
)
    requires
        old(buffer)@.slots.len() >= 2,
        orderly(old(buffer)@.slots),
        ({
            let n = old(buffer)@.slots.len() as int;
            let e = old(rx).expected();
            let number = old(buffer)@.slots[e as int % n].state.seq_no;
            &&& 1 <= e <= number
            &&& (number - e) % n == 0
        }),
        call_ensures(Receiver::<T>::advance::<B>, (rx, buffer), valid),
        valid ==> !final(buffer)@.slots[old(rx).expected() as int
            % old(buffer)@.slots.len() as int].state.dirty,
    ensures
        ({
            let n = old(buffer)@.slots.len() as int;
            let e = final(rx).expected();
            let number = final(buffer)@.slots[e as int % n].state.seq_no;
            &&& 1 <= e <= number
            &&& (number - e) % n == 0
        }),
{
}

/// Every call is allowed that the protocol allows: a sender may send, to any ring, until the
/// numbers run out; a receiver may try to receive, peek and confirm at any time, and may wait
/// for a message that was committed, or will be.
pub proof fn law_calls_are_allowed<T: Clone + Default, B: Buffer<T, Stamp>>(
    tx: &mut Sender,
    rx: &mut Receiver<T>,
    buffer: &mut B,
    payload: T,
    k: nat,
)
    requires
        old(buffer).inv(),
        old(buffer)@.slots.len() == pow2(k),
        old(buffer)@.slots.len() >= 2,
    ensures
        call_requires(Sender::with_init::<T, B>, (buffer,)),
        old(buffer)@.steady ==> call_requires(Sender::new::<T, B>, (buffer,)),
        call_requires(Sender::reserve::<T, B>, (old(tx), buffer)),
        old(tx).next() + 1 < 0x8000_0000_0000_0000 ==> {
            &&& call_requires(Sender::commit::<T, B>, (tx, buffer))
            &&& call_requires(Sender::send::<T, B>, (tx, buffer, payload))
            &&& call_requires(Sender::send_from::<T, B>, (tx, buffer, &payload))
        },
        call_requires(Receiver::<T>::new::<B>, (buffer,)),
        call_requires(Receiver::<T>::try_recv::<B>, (rx, buffer)),
        call_requires(Receiver::<T>::try_peek_unsafe::<B>, (rx, buffer)),
        call_requires(Receiver::<T>::advance::<B>, (rx, buffer)),
        ({
            let n = old(buffer)@.slots.len() as int;
            let e = old(rx).expected();
            let number = old(buffer)@.slots[e as int % n].state.seq_no;
            &&& old(buffer)@.live.contains(e as int % n) ==> {
                &&& call_requires(Receiver::<T>::wait::<B>, (rx, buffer))
                &&& call_requires(Receiver::<T>::peek_unsafe::<B>, (rx, buffer))
                &&& 1 <= e <= number && (number - e) % n == 0 ==> call_requires(
                    Receiver::<T>::recv::<B>,
                    (rx, buffer),
                )
            }
        }),
{
    assert(is_power_of_two(old(buffer)@.slots.len() as int));
}

// ---------------------------------------------------------------------------
// A channel in one process
// ---------------------------------------------------------------------------

/// A channel in one process has as many slots as the least power of two that is at least the
/// capacity asked for, and at least 2. Message 1 is sent next, and received next.
pub proof fn law_local_channel_call<T: Clone + Default>(
    capacity: usize,
    channel: (Sender, Receiver<T>, HeapBuffer<T>),
    i: int,
)
    requires
        call_ensures(local_channel::<T>, (capacity,), channel),
        0 <= i < channel.2@.slots.len(),
    ensures
        channel.0.next() == 1,
        channel.1.expected() == 1,
        T::default.ensures((), channel.1.held()),
        channel.2.inv(),
        channel.2@.steady,
        channel.2@.slots.len() >= 2,
        channel.2@.slots.len() >= capacity,
        channel.2@.slots.len() > 2 ==> channel.2@.slots.len() < 2 * capacity,
        exists|k: nat| channel.2@.slots.len() == #[trigger] pow2(k),
        channel.2@.slots[i].state.dirty <==> i == 1,
        channel.2@.slots[i].state.seq_no == (if i == 1 {
            1
        } else {
            0int
        }),
        T::default.ensures((), channel.2@.slots[i].payload),
        i != 1 ==> channel.2@.live.contains(i),
        capacity <= usize::MAX / 2 + 1 ==> call_requires(local_channel::<T>, (capacity,)),
{
    crate::storage_laws::lemma_least(channel.2@.slots.len() as int, capacity as int);
}

} // verus!
