//! Laws of the ring that carries a word of the user's, stated of the calls of its sender and
//! its receivers.
//!
//! The laws speak of calls by [`call_ensures`], so they hold of whatever the functions promise.
//! A mutable reference stands for what it refers to before the call (`old`) and after it
//! (`final`).
use crate::buffer::{Access, Buffer, Look};
use crate::laws::law_confirmed_value;
use crate::ring::{first_dirty, laid, orderly, slot_evolves};
use crate::user_broadcast::{Receiver, Sender};
use crate::wide_state::WideStamp;
use vstd::arithmetic::div_mod::{lemma_mod_bound, lemma_mod_self_0, lemma_small_mod};
use vstd::prelude::*;

verus! {

/// The slot after a slot is another one.
proof fn lemma_next(at: int, n: int)
    requires
        n >= 2,
        at >= 0,
    ensures
        0 <= (at + 1) % n < n,
        (at + 1) % n != at,
{
    lemma_mod_bound(at + 1, n);
    if at + 1 < n {
        lemma_small_mod((at + 1) as nat, n as nat);
    } else if at + 1 == n {
        lemma_mod_self_0(n);
    }
}

// ---------------------------------------------------------------------------
// Sending
// ---------------------------------------------------------------------------

/// Initializing a ring leaves slot 0 dirty, for message 1, the other slots below `4096` empty,
/// the user's words 0, default payloads there, and the rest as it was; message 1 is sent next,
/// from slot 0.
pub proof fn law_init_call<T: Clone + Default, B: Buffer<T, WideStamp>>(buffer: &mut B, tx: Sender)
    requires
        old(buffer)@.slots.len() >= 4096,
        call_ensures(Sender::with_init::<T, B>, (buffer,), tx),
    ensures
        final(buffer).inv(),
        tx.at() == 0,
        tx.next() == 1,
        final(buffer)@.slots.len() == old(buffer)@.slots.len(),
        final(buffer)@.steady == old(buffer)@.steady,
        forall|i: int|
            #![trigger final(buffer)@.slots[i]]
            0 <= i < 4096 ==> {
                let slot = final(buffer)@.slots[i];
                &&& slot.state.dirty <==> i == 0
                &&& slot.state.seq_no == (if i == 0 {
                    1
                } else {
                    0int
                })
                &&& slot.state.user_state == 0
                &&& T::default.ensures((), slot.payload)
                &&& old(buffer)@.steady && i != 0 ==> final(buffer)@.live.contains(i)
            },
        forall|i: int|
            #![trigger final(buffer)@.slots[i]]
            4096 <= i < old(buffer)@.slots.len() ==> final(buffer)@.slots[i]
                == old(buffer)@.slots[i],
{
}

/// Initializing a ring goes from slot to slot, slot 0 first.
pub proof fn law_init_order<T: Clone + Default, B: Buffer<T, WideStamp>>(
    buffer: &mut B,
    tx: Sender,
    t: int,
    i: int,
)
    requires
        old(buffer)@.slots.len() >= 4096,
        call_ensures(Sender::with_init::<T, B>, (buffer,), tx),
        0 <= t < 4096,
        0 <= i < old(buffer)@.slots.len(),
    ensures
        ({
            let before = old(buffer)@;
            let after = final(buffer)@;
            let k = before.trail.len() as int;
            &&& after.trail.len() == k + 4096
            &&& before.trail.is_prefix_of(after.trail)
            &&& before.looks.is_prefix_of(after.looks)
            &&& after.trail[k + t] matches Access::Store { slots }
            &&& slots.len() == before.slots.len()
            &&& i <= t ==> {
                &&& slots[i].state == after.slots[i].state
                &&& T::default.ensures((), slots[i].payload)
            }
            &&& i > t ==> slots[i] == before.slots[i]
        }),
{
    let k = old(buffer)@.trail.len() as int;
    assert(final(buffer)@.trail[k + t] is Store);
}

/// A sender on a ring whose first dirty slot is slot `i` goes on from there, with the number in
/// it, and leaves the ring alone.
pub proof fn law_take_over<T: Clone + Default, B: Buffer<T, WideStamp>>(
    buffer: &mut B,
    tx: Sender,
    i: int,
)
    requires
        old(buffer)@.steady,
        0 <= i < old(buffer)@.slots.len(),
        old(buffer)@.slots[i].state.dirty,
        forall|j: int|
            #![trigger old(buffer)@.slots[j]]
            0 <= j < i ==> !old(buffer)@.slots[j].state.dirty,
        call_ensures(Sender::new::<T, B>, (buffer,), tx),
    ensures
        final(buffer).inv(),
        tx.at() == i,
        tx.next() == old(buffer)@.slots[i].state.seq_no,
        final(buffer)@.slots == old(buffer)@.slots,
        old(buffer)@.looks.is_prefix_of(final(buffer)@.looks),
        final(buffer)@.trail == old(buffer)@.trail,
        final(buffer)@.steady,
{
    assert(first_dirty(old(buffer)@.slots, i));
}

/// A sender on a ring with no dirty slot initializes it.
pub proof fn law_fresh_start<T: Clone + Default, B: Buffer<T, WideStamp>>(
    buffer: &mut B,
    tx: Sender,
)
    requires
        old(buffer)@.slots.len() >= 4096,
        old(buffer)@.steady,
        forall|j: int|
            #![trigger old(buffer)@.slots[j]]
            0 <= j < old(buffer)@.slots.len() ==> !old(buffer)@.slots[j].state.dirty,
        call_ensures(Sender::new::<T, B>, (buffer,), tx),
    ensures
        old(buffer)@.trail.is_prefix_of(final(buffer)@.trail),
        final(buffer)@.trail.len() == old(buffer)@.trail.len() + 4096,
        final(buffer).inv(),
        tx.at() == 0,
        tx.next() == 1,
        final(buffer)@.slots.len() == old(buffer)@.slots.len(),
        final(buffer)@.steady,
        forall|i: int|
            #![trigger final(buffer)@.slots[i]]
            0 <= i < 4096 ==> {
                let slot = final(buffer)@.slots[i];
                &&& slot.state.dirty <==> i == 0
                &&& slot.state.seq_no == (if i == 0 {
                    1
                } else {
                    0int
                })
                &&& slot.state.user_state == 0
                &&& T::default.ensures((), slot.payload)
                &&& i != 0 ==> final(buffer)@.live.contains(i)
            },
        forall|i: int|
            #![trigger final(buffer)@.slots[i]]
            4096 <= i < old(buffer)@.slots.len() ==> final(buffer)@.slots[i]
                == old(buffer)@.slots[i],
{
}

/// A sender tells the number of the message that it sends next.
pub proof fn law_seq_no_call(tx: Sender, s: u64)
    requires
        call_ensures(Sender::seq_no, (&tx,), s),
    ensures
        s == tx.next(),
{
}

/// Sending returns the number of the message, and the next message has the next number. A clone
/// of the payload is in the slot of the message, with the user's word, and the slot is clean;
/// the next slot is dirty, with no word; nothing else has changed.
pub proof fn law_send_call<T: Clone, B: Buffer<T, WideStamp>>(
    tx: &mut Sender,
    buffer: &mut B,
    user_state: u64,
    payload: T,
    s: u64,
    i: int,
)
    requires
        old(buffer)@.slots.len() >= 4096,
        old(tx).at() < old(buffer)@.slots.len(),
        call_ensures(Sender::send::<T, B>, (tx, buffer, user_state, &payload), s),
        0 <= i < old(buffer)@.slots.len(),
    ensures
        final(buffer).inv(),
        ({
            let before = old(buffer)@;
            let after = final(buffer)@;
            let at = old(tx).at();
            let next = (at + 1) % 4096;
            &&& s == old(tx).next()
            &&& final(tx).next() == s + 1
            &&& final(tx).at() == next
            &&& after.slots.len() == before.slots.len()
            &&& i == at ==> {
                &&& !after.slots[i].state.dirty
                &&& after.slots[i].state.seq_no == s
                &&& after.slots[i].state.user_state == user_state
                &&& cloned(payload, after.slots[i].payload)
            }
            &&& i == next ==> {
                &&& after.slots[i].state.dirty
                &&& after.slots[i].state.seq_no == s + 1
                &&& after.slots[i].state.user_state == 0
                &&& after.slots[i].payload == before.slots[i].payload
            }
            &&& i != at && i != next ==> after.slots[i] == before.slots[i]
            &&& after.steady == before.steady
            &&& after.looks == before.looks
            &&& before.steady && !after.slots[i].state.dirty ==> after.live.contains(i)
        }),
{
    lemma_next(old(tx).at() as int, 4096);
}

/// What others may see while a message is sent. Let its slot be dirty, with its number, when
/// the call begins. Then at every access that the call makes, a payload is lent out only while
/// its slot is dirty, some slot is dirty, and whoever sees the message clean sees its payload,
/// and sees the next slot marked. No slot but these two differs from what it was.
pub proof fn law_send_is_never_seen_half_done<T: Clone, B: Buffer<T, WideStamp>>(
    tx: &mut Sender,
    buffer: &mut B,
    user_state: u64,
    payload: T,
    s: u64,
    t: int,
    i: int,
)
    requires
        old(buffer)@.slots.len() >= 4096,
        old(tx).at() < old(buffer)@.slots.len(),
        call_ensures(Sender::send::<T, B>, (tx, buffer, user_state, &payload), s),
        old(buffer)@.slots[old(tx).at() as int].state.dirty,
        old(buffer)@.slots[old(tx).at() as int].state.seq_no == s,
        old(buffer)@.trail.len() <= t < final(buffer)@.trail.len(),
        0 <= i < old(buffer)@.slots.len(),
    ensures
        ({
            let before = old(buffer)@.slots;
            let at = old(tx).at() as int;
            let next = (at + 1) % 4096;
            let ring = match final(buffer)@.trail[t] {
                Access::Lend { slots, .. } => slots,
                Access::Store { slots } => slots,
            };
            &&& ring.len() == before.len()
            &&& final(buffer)@.trail[t] matches Access::Lend { index, .. } ==> {
                &&& index == at
                &&& ring[index].state.dirty
            }
            &&& ring[at].state.seq_no == s
            &&& ring[at].state.dirty || ring[next].state.dirty
            &&& !ring[at].state.dirty ==> {
                &&& cloned(payload, ring[at].payload)
                &&& ring[at].state.user_state == user_state
                &&& ring[next].state.dirty
                &&& ring[next].state.seq_no == s + 1
            }
            &&& i != at && i != next ==> ring[i] == before[i]
            &&& i == next ==> ring[i].payload == before[i].payload && (ring[i].state
                == before[i].state || ring[i].state.dirty && ring[i].state.seq_no == s + 1)
        }),
{
    lemma_next(old(tx).at() as int, 4096);
    let k = old(buffer)@.trail.len() as int;
    assert(final(buffer)@.trail.len() == k + 3);
    assert(t == k || t == k + 1 || t == k + 2);
}

/// Sending adds to the trail, and never takes back what is in it; the last thing that it does
/// is to store the ring that it leaves behind.
pub proof fn law_trail_grows<T: Clone, B: Buffer<T, WideStamp>>(
    tx: &mut Sender,
    buffer: &mut B,
    user_state: u64,
    payload: T,
    s: u64,
    t: int,
)
    requires
        old(buffer)@.slots.len() >= 4096,
        old(tx).at() < old(buffer)@.slots.len(),
        call_ensures(Sender::send::<T, B>, (tx, buffer, user_state, &payload), s),
    ensures
        0 <= t < old(buffer)@.trail.len() ==> final(buffer)@.trail[t] == old(buffer)@.trail[t],
        final(buffer)@.trail.last() == (Access::Store { slots: final(buffer)@.slots }),
{
}

// ---------------------------------------------------------------------------
// Receiving
// ---------------------------------------------------------------------------

/// Receiving changes nothing: nothing is written, nothing changes on a ring that nobody else
/// changes, and whatever else is seen to change is what a sender may change. The number in a
/// slot only grows, by multiples of the length, and a committed message stays as it is while
/// its number does.
pub proof fn law_recv_only_looks<T: Clone, B: Buffer<T, WideStamp>>(
    rx: &mut Receiver<T>,
    buffer: &mut B,
    got: (u64, u64, &T),
    i: int,
)
    requires
        call_ensures(Receiver::<T>::recv::<B>, (rx, buffer), got),
        0 <= i < old(buffer)@.slots.len(),
    ensures
        final(buffer).inv(),
        final(buffer)@.trail == old(buffer)@.trail,
        old(buffer)@.looks.is_prefix_of(final(buffer)@.looks),
        final(buffer)@.steady == old(buffer)@.steady,
        old(buffer)@.steady ==> final(buffer)@.slots == old(buffer)@.slots,
        final(buffer)@.slots.len() == old(buffer)@.slots.len(),
        old(buffer)@.live.subset_of(final(buffer)@.live),
        ({
            let n = old(buffer)@.slots.len() as int;
            let a = old(buffer)@.slots[i];
            let b = final(buffer)@.slots[i];
            &&& a.state.seq_no <= b.state.seq_no
            &&& a.state.seq_no != 0 ==> (b.state.seq_no - a.state.seq_no) % n == 0
            &&& a.state.seq_no == b.state.seq_no && !a.state.dirty ==> b == a
        }),
{
    assert(slot_evolves(
        old(buffer)@.slots[i],
        final(buffer)@.slots[i],
        old(buffer)@.slots.len() as int,
    ));
}

/// An attempt to receive changes nothing.
pub proof fn law_try_recv_only_looks<T: Clone, B: Buffer<T, WideStamp>>(
    rx: &mut Receiver<T>,
    buffer: &mut B,
    got: (u64, u64, Option<&T>),
    i: int,
)
    requires
        call_ensures(Receiver::<T>::try_recv::<B>, (rx, buffer), got),
        0 <= i < old(buffer)@.slots.len(),
    ensures
        final(buffer).inv(),
        final(buffer)@.trail == old(buffer)@.trail,
        old(buffer)@.looks.is_prefix_of(final(buffer)@.looks),
        final(buffer)@.steady == old(buffer)@.steady,
        old(buffer)@.steady ==> final(buffer)@.slots == old(buffer)@.slots,
        final(buffer)@.slots.len() == old(buffer)@.slots.len(),
        old(buffer)@.live.subset_of(final(buffer)@.live),
        ({
            let n = old(buffer)@.slots.len() as int;
            let a = old(buffer)@.slots[i];
            let b = final(buffer)@.slots[i];
            &&& a.state.seq_no <= b.state.seq_no
            &&& a.state.seq_no != 0 ==> (b.state.seq_no - a.state.seq_no) % n == 0
            &&& a.state.seq_no == b.state.seq_no && !a.state.dirty ==> b == a
        }),
{
    assert(slot_evolves(
        old(buffer)@.slots[i],
        final(buffer)@.slots[i],
        old(buffer)@.slots.len() as int,
    ));
}

/// Receiving in place changes nothing.
pub proof fn law_recv_in_place_only_looks<T: Clone, B: Buffer<T, WideStamp>>(
    rx: &mut Receiver<T>,
    buffer: &mut B,
    got: (u64, u64, &T),
    i: int,
)
    requires
        call_ensures(Receiver::<T>::recv_unsafe::<B>, (rx, buffer), got),
        0 <= i < old(buffer)@.slots.len(),
    ensures
        final(buffer).inv(),
        final(buffer)@.trail == old(buffer)@.trail,
        old(buffer)@.looks.is_prefix_of(final(buffer)@.looks),
        final(buffer)@.steady == old(buffer)@.steady,
        old(buffer)@.steady ==> final(buffer)@.slots == old(buffer)@.slots,
        final(buffer)@.slots.len() == old(buffer)@.slots.len(),
        old(buffer)@.live.subset_of(final(buffer)@.live),
        ({
            let n = old(buffer)@.slots.len() as int;
            let a = old(buffer)@.slots[i];
            let b = final(buffer)@.slots[i];
            &&& a.state.seq_no <= b.state.seq_no
            &&& a.state.seq_no != 0 ==> (b.state.seq_no - a.state.seq_no) % n == 0
            &&& a.state.seq_no == b.state.seq_no && !a.state.dirty ==> b == a
        }),
{
    assert(slot_evolves(
        old(buffer)@.slots[i],
        final(buffer)@.slots[i],
        old(buffer)@.slots.len() as int,
    ));
}

/// An attempt to receive in place changes nothing.
pub proof fn law_try_recv_in_place_only_looks<T: Clone, B: Buffer<T, WideStamp>>(
    rx: &mut Receiver<T>,
    buffer: &mut B,
    got: (u64, u64, Option<&T>),
    i: int,
)
    requires
        call_ensures(Receiver::<T>::try_recv_unsafe::<B>, (rx, buffer), got),
        0 <= i < old(buffer)@.slots.len(),
    ensures
        final(buffer).inv(),
        final(buffer)@.trail == old(buffer)@.trail,
        old(buffer)@.looks.is_prefix_of(final(buffer)@.looks),
        final(buffer)@.steady == old(buffer)@.steady,
        old(buffer)@.steady ==> final(buffer)@.slots == old(buffer)@.slots,
        final(buffer)@.slots.len() == old(buffer)@.slots.len(),
        old(buffer)@.live.subset_of(final(buffer)@.live),
        ({
            let n = old(buffer)@.slots.len() as int;
            let a = old(buffer)@.slots[i];
            let b = final(buffer)@.slots[i];
            &&& a.state.seq_no <= b.state.seq_no
            &&& a.state.seq_no != 0 ==> (b.state.seq_no - a.state.seq_no) % n == 0
            &&& a.state.seq_no == b.state.seq_no && !a.state.dirty ==> b == a
        }),
{
    assert(slot_evolves(
        old(buffer)@.slots[i],
        final(buffer)@.slots[i],
        old(buffer)@.slots.len() as int,
    ));
}

/// Peeking changes nothing.
pub proof fn law_peek_in_place_only_looks<T: Clone, B: Buffer<T, WideStamp>>(
    rx: Receiver<T>,
    buffer: &mut B,
    got: (u64, u64, &T),
    i: int,
)
    requires
        call_ensures(Receiver::<T>::peek_unsafe::<B>, (&rx, buffer), got),
        0 <= i < old(buffer)@.slots.len(),
    ensures
        final(buffer).inv(),
        final(buffer)@.trail == old(buffer)@.trail,
        old(buffer)@.looks.is_prefix_of(final(buffer)@.looks),
        final(buffer)@.steady == old(buffer)@.steady,
        old(buffer)@.steady ==> final(buffer)@.slots == old(buffer)@.slots,
        final(buffer)@.slots.len() == old(buffer)@.slots.len(),
        old(buffer)@.live.subset_of(final(buffer)@.live),
        ({
            let n = old(buffer)@.slots.len() as int;
            let a = old(buffer)@.slots[i];
            let b = final(buffer)@.slots[i];
            &&& a.state.seq_no <= b.state.seq_no
            &&& a.state.seq_no != 0 ==> (b.state.seq_no - a.state.seq_no) % n == 0
            &&& a.state.seq_no == b.state.seq_no && !a.state.dirty ==> b == a
        }),
{
    assert(slot_evolves(
        old(buffer)@.slots[i],
        final(buffer)@.slots[i],
        old(buffer)@.slots.len() as int,
    ));
}

/// An attempt to peek changes nothing.
pub proof fn law_try_peek_in_place_only_looks<T: Clone, B: Buffer<T, WideStamp>>(
    rx: Receiver<T>,
    buffer: &mut B,
    got: (u64, u64, Option<&T>),
    i: int,
)
    requires
        call_ensures(Receiver::<T>::try_peek_unsafe::<B>, (&rx, buffer), got),
        0 <= i < old(buffer)@.slots.len(),
    ensures
        final(buffer).inv(),
        final(buffer)@.trail == old(buffer)@.trail,
        old(buffer)@.looks.is_prefix_of(final(buffer)@.looks),
        final(buffer)@.steady == old(buffer)@.steady,
        old(buffer)@.steady ==> final(buffer)@.slots == old(buffer)@.slots,
        final(buffer)@.slots.len() == old(buffer)@.slots.len(),
        old(buffer)@.live.subset_of(final(buffer)@.live),
        ({
            let n = old(buffer)@.slots.len() as int;
            let a = old(buffer)@.slots[i];
            let b = final(buffer)@.slots[i];
            &&& a.state.seq_no <= b.state.seq_no
            &&& a.state.seq_no != 0 ==> (b.state.seq_no - a.state.seq_no) % n == 0
            &&& a.state.seq_no == b.state.seq_no && !a.state.dirty ==> b == a
        }),
{
    assert(slot_evolves(
        old(buffer)@.slots[i],
        final(buffer)@.slots[i],
        old(buffer)@.slots.len() as int,
    ));
}

/// Confirming changes nothing.
pub proof fn law_advance_checked_only_looks<T: Clone, B: Buffer<T, WideStamp>>(
    rx: &mut Receiver<T>,
    buffer: &mut B,
    got: bool,
    i: int,
)
    requires
        call_ensures(Receiver::<T>::advance_checked::<B>, (rx, buffer), got),
        0 <= i < old(buffer)@.slots.len(),
    ensures
        final(buffer).inv(),
        final(buffer)@.trail == old(buffer)@.trail,
        old(buffer)@.looks.is_prefix_of(final(buffer)@.looks),
        final(buffer)@.steady == old(buffer)@.steady,
        old(buffer)@.steady ==> final(buffer)@.slots == old(buffer)@.slots,
        final(buffer)@.slots.len() == old(buffer)@.slots.len(),
        old(buffer)@.live.subset_of(final(buffer)@.live),
        ({
            let n = old(buffer)@.slots.len() as int;
            let a = old(buffer)@.slots[i];
            let b = final(buffer)@.slots[i];
            &&& a.state.seq_no <= b.state.seq_no
            &&& a.state.seq_no != 0 ==> (b.state.seq_no - a.state.seq_no) % n == 0
            &&& a.state.seq_no == b.state.seq_no && !a.state.dirty ==> b == a
        }),
{
    assert(slot_evolves(
        old(buffer)@.slots[i],
        final(buffer)@.slots[i],
        old(buffer)@.slots.len() as int,
    ));
}

/// Waiting for a state changes nothing.
pub proof fn law_load_state_only_looks<T: Clone, B: Buffer<T, WideStamp>>(
    rx: Receiver<T>,
    buffer: &mut B,
    got: (u64, u64),
    i: int,
)
    requires
        call_ensures(Receiver::<T>::load_state::<B>, (&rx, buffer), got),
        0 <= i < old(buffer)@.slots.len(),
    ensures
        final(buffer).inv(),
        final(buffer)@.trail == old(buffer)@.trail,
        old(buffer)@.looks.is_prefix_of(final(buffer)@.looks),
        final(buffer)@.steady == old(buffer)@.steady,
        old(buffer)@.steady ==> final(buffer)@.slots == old(buffer)@.slots,
        final(buffer)@.slots.len() == old(buffer)@.slots.len(),
        old(buffer)@.live.subset_of(final(buffer)@.live),
        ({
            let n = old(buffer)@.slots.len() as int;
            let a = old(buffer)@.slots[i];
            let b = final(buffer)@.slots[i];
            &&& a.state.seq_no <= b.state.seq_no
            &&& a.state.seq_no != 0 ==> (b.state.seq_no - a.state.seq_no) % n == 0
            &&& a.state.seq_no == b.state.seq_no && !a.state.dirty ==> b == a
        }),
{
    assert(slot_evolves(
        old(buffer)@.slots[i],
        final(buffer)@.slots[i],
        old(buffer)@.slots.len() as int,
    ));
}

/// Loading a state changes nothing.
pub proof fn law_try_load_state_only_looks<T: Clone, B: Buffer<T, WideStamp>>(
    rx: Receiver<T>,
    buffer: &mut B,
    got: (bool, u64, u64),
    i: int,
)
    requires
        call_ensures(Receiver::<T>::try_load_state::<B>, (&rx, buffer), got),
        0 <= i < old(buffer)@.slots.len(),
    ensures
        final(buffer).inv(),
        final(buffer)@.trail == old(buffer)@.trail,
        old(buffer)@.looks.is_prefix_of(final(buffer)@.looks),
        final(buffer)@.steady == old(buffer)@.steady,
        old(buffer)@.steady ==> final(buffer)@.slots == old(buffer)@.slots,
        final(buffer)@.slots.len() == old(buffer)@.slots.len(),
        old(buffer)@.live.subset_of(final(buffer)@.live),
        ({
            let n = old(buffer)@.slots.len() as int;
            let a = old(buffer)@.slots[i];
            let b = final(buffer)@.slots[i];
            &&& a.state.seq_no <= b.state.seq_no
            &&& a.state.seq_no != 0 ==> (b.state.seq_no - a.state.seq_no) % n == 0
            &&& a.state.seq_no == b.state.seq_no && !a.state.dirty ==> b == a
        }),
{
    assert(slot_evolves(
        old(buffer)@.slots[i],
        final(buffer)@.slots[i],
        old(buffer)@.slots.len() as int,
    ));
}

/// Making a receiver changes nothing.
pub proof fn law_receiver_start_only_looks<T: Clone + Default, B: Buffer<T, WideStamp>>(
    buffer: &mut B,
    made: Option<Receiver<T>>,
    i: int,
)
    requires
        call_ensures(Receiver::<T>::new::<B>, (buffer,), made),
        0 <= i < old(buffer)@.slots.len(),
    ensures
        final(buffer).inv(),
        final(buffer)@.trail == old(buffer)@.trail,
        old(buffer)@.looks.is_prefix_of(final(buffer)@.looks),
        final(buffer)@.steady == old(buffer)@.steady,
        old(buffer)@.steady ==> final(buffer)@.slots == old(buffer)@.slots,
        final(buffer)@.slots.len() == old(buffer)@.slots.len(),
        old(buffer)@.live.subset_of(final(buffer)@.live),
        ({
            let n = old(buffer)@.slots.len() as int;
            let a = old(buffer)@.slots[i];
            let b = final(buffer)@.slots[i];
            &&& a.state.seq_no <= b.state.seq_no
            &&& a.state.seq_no != 0 ==> (b.state.seq_no - a.state.seq_no) % n == 0
            &&& a.state.seq_no == b.state.seq_no && !a.state.dirty ==> b == a
        }),
{
    assert(slot_evolves(
        old(buffer)@.slots[i],
        final(buffer)@.slots[i],
        old(buffer)@.slots.len() as int,
    ));
}

/// On a ring that nobody else changes, a receiver starts at the first dirty slot, and there is
/// none if no slot is dirty.
pub proof fn law_receiver_start<T: Clone + Default, B: Buffer<T, WideStamp>>(
    buffer: &mut B,
    made: Option<Receiver<T>>,
    i: int,
)
    requires
        old(buffer)@.steady,
        call_ensures(Receiver::<T>::new::<B>, (buffer,), made),
        0 <= i <= old(buffer)@.slots.len(),
        forall|j: int|
            #![trigger old(buffer)@.slots[j]]
            0 <= j < i ==> !old(buffer)@.slots[j].state.dirty,
    ensures
        i == old(buffer)@.slots.len() ==> made is None,
        i < old(buffer)@.slots.len() && old(buffer)@.slots[i].state.dirty ==> {
            &&& made matches Some(rx)
            &&& rx.at() == i
            &&& rx.expected() == old(buffer)@.slots[i].state.seq_no
            &&& T::default.ensures((), rx.held())
        },
        forall|j: int|
            #![trigger final(buffer)@.slots[j]]
            0 <= j < old(buffer)@.slots.len() && !final(buffer)@.slots[j].state.dirty
                ==> final(buffer)@.live.contains(j),
{
    if i < old(buffer)@.slots.len() && old(buffer)@.slots[i].state.dirty {
        assert(first_dirty(old(buffer)@.slots, i));
    }
}

/// On any ring, a receiver starts where its search stops: it loads the states of the slots one
/// after the other, until it finds one that is dirty, loads that state again, and expects the
/// number that it finds then. If it finds none, there is no receiver.
pub proof fn law_receiver_search<T: Clone + Default, B: Buffer<T, WideStamp>>(
    buffer: &mut B,
    made: Option<Receiver<T>>,
    j: int,
)
    requires
        call_ensures(Receiver::<T>::new::<B>, (buffer,), made),
        0 <= j < final(buffer)@.looks.len() - old(buffer)@.looks.len(),
    ensures
        ({
            let k = old(buffer)@.looks.len() as int;
            let count = final(buffer)@.looks.len() - k;
            &&& made is None ==> count == old(buffer)@.slots.len()
            &&& made matches Some(rx) ==> count == rx.at() + 2
            &&& final(buffer)@.looks[k + j] matches Look::Loaded { index, slots }
            &&& made is Some && j == count - 1 ==> {
                &&& index == count - 2
                &&& made->0.expected() == slots[index].state.seq_no
            }
            &&& made is None || j < count - 1 ==> {
                &&& index == j
                &&& slots[j].state.dirty <==> made is Some && j == count - 2
            }
        }),
{
    let k = old(buffer)@.looks.len() as int;
    assert(final(buffer)@.looks[k + j] == final(buffer)@.looks[k + j]);
}

/// Receiving gets the committed message that is in the receiver's slot when the call returns,
/// and goes on to the next slot, whatever number it got.
pub proof fn law_recv_call<T: Clone, B: Buffer<T, WideStamp>>(
    rx: &mut Receiver<T>,
    buffer: &mut B,
    got: (u64, u64, &T),
)
    requires
        old(rx).at() < old(buffer)@.slots.len(),
        call_ensures(Receiver::<T>::recv::<B>, (rx, buffer), got),
    ensures
        ({
            let at = old(rx).at() as int;
            let slot = final(buffer)@.slots[at];
            let looks = final(buffer)@.looks;
            let k = looks.len() as int;
            &&& !slot.state.dirty
            &&& slot.state.seq_no == got.0
            &&& slot.state.user_state == got.1
            &&& cloned(slot.payload, *got.2)
            &&& final(rx).at() == (at + 1) % 4096
            &&& final(rx).held() == *got.2
            &&& final(rx).expected() == (old(rx).expected() + 1) % 0x1_0000_0000_0000_0000
            &&& k >= 3
            &&& looks[k - 3] matches Look::Loaded { index, slots } && index == at
                && !slots[at].state.dirty && slots[at].state.seq_no == got.0
            &&& looks[k - 2] matches Look::Copied { index, value, .. } && index == at && value
                == *got.2
            &&& looks[k - 1] matches Look::Loaded { index, slots } && index == at
                && slots[at].state.seq_no == got.0
        }),
{
}

/// A receiver loses nothing but what was overwritten: after a message from slot `i` it gets the
/// message in slot `(i + 1) % 4096`, and on a ring that nobody else changes that is the one
/// that is there.
pub proof fn law_recv_after_recv<T: Clone, B: Buffer<T, WideStamp>>(
    rx: &mut Receiver<T>,
    buffer: &mut B,
    got: (u64, u64, &T),
    rx2: &mut Receiver<T>,
    buffer2: &mut B,
    got2: (u64, u64, &T),
)
    requires
        call_ensures(Receiver::<T>::recv::<B>, (rx, buffer), got),
        *old(rx2) == *final(rx),
        old(buffer2)@.slots.len() >= 4096,
        call_ensures(Receiver::<T>::recv::<B>, (rx2, buffer2), got2),
    ensures
        ({
            let next = (old(rx).at() + 1) % 4096;
            let slot = final(buffer2)@.slots[next];
            &&& got2.0 == slot.state.seq_no
            &&& slot.state.user_state == got2.1
            &&& !slot.state.dirty
            &&& cloned(slot.payload, *got2.2)
            &&& old(buffer2)@.steady ==> slot == old(buffer2)@.slots[next]
        }),
{
}

/// So it is if the first call was an attempt that got a message; if it got none, the next call
/// gets the message in the same slot.
pub proof fn law_recv_after_try_recv<T: Clone, B: Buffer<T, WideStamp>>(
    rx: &mut Receiver<T>,
    buffer: &mut B,
    attempt: (u64, u64, Option<&T>),
    rx2: &mut Receiver<T>,
    buffer2: &mut B,
    got2: (u64, u64, &T),
)
    requires
        old(rx).at() < old(buffer)@.slots.len(),
        call_ensures(Receiver::<T>::try_recv::<B>, (rx, buffer), attempt),
        *old(rx2) == *final(rx),
        old(buffer2)@.slots.len() >= 4096,
        call_ensures(Receiver::<T>::recv::<B>, (rx2, buffer2), got2),
    ensures
        ({
            let next = if attempt.2 is Some {
                (old(rx).at() + 1) % 4096
            } else {
                old(rx).at() as int
            };
            let slot = final(buffer2)@.slots[next];
            &&& got2.0 == slot.state.seq_no
            &&& slot.state.user_state == got2.1
            &&& !slot.state.dirty
            &&& cloned(slot.payload, *got2.2)
            &&& old(buffer2)@.steady ==> slot == old(buffer2)@.slots[next]
        }),
{
}

/// What an attempt to receive returns, on any ring: it loads the state of its slot. If that is
/// dirty, it returns the number and the user's word, and nothing more is done. If it is clean,
/// with number `s`, it copies the payload and loads the state again. If the number is still
/// `s`, it delivers the copy, and goes on to the next slot. If it is another, nothing is
/// delivered, that number and word is returned, and the receiver stays.
pub proof fn law_try_recv_call<T: Clone, B: Buffer<T, WideStamp>>(
    rx: &mut Receiver<T>,
    buffer: &mut B,
    got: (u64, u64, Option<&T>),
)
    requires
        old(rx).at() < old(buffer)@.slots.len(),
        call_ensures(Receiver::<T>::try_recv::<B>, (rx, buffer), got),
    ensures
        ({
            let at = old(rx).at() as int;
            let k = old(buffer)@.looks.len() as int;
            let looks = final(buffer)@.looks;
            &&& got.2 is Some ==> {
                &&& final(rx).at() == (at + 1) % 4096
                &&& final(rx).expected() == (old(rx).expected() + 1) % 0x1_0000_0000_0000_0000
            }
            &&& got.2 is None ==> {
                &&& final(rx).at() == at
                &&& final(rx).expected() == old(rx).expected()
            }
            &&& looks.len() > k
            &&& looks[k] matches Look::Loaded { index, slots }
            &&& index == at
            &&& slots[at].state.dirty ==> {
                &&& looks.len() == k + 1
                &&& got.2 is None
                &&& got.0 == slots[at].state.seq_no
                &&& got.1 == slots[at].state.user_state
                &&& final(rx).held() == old(rx).held()
            }
            &&& !slots[at].state.dirty ==> {
                &&& looks.len() == k + 3
                &&& looks[k + 1] matches Look::Copied { index: from, value, .. }
                &&& from == at
                &&& final(rx).held() == value
                &&& looks[k + 2] matches Look::Loaded { index: from, slots: last }
                &&& from == at
                &&& got.0 == last[at].state.seq_no
                &&& got.1 == last[at].state.user_state
                &&& got.2 is Some <==> got.0 == slots[at].state.seq_no
                &&& got.2 matches Some(payload) ==> *payload == value
            }
        }),
{
}

/// On a ring that nobody else changes, an attempt gets the message in its slot if that is
/// clean, and nothing but the number and the word if it is dirty. On any ring, what it gets is
/// in the slot when the call returns.
pub proof fn law_try_recv_result<T: Clone, B: Buffer<T, WideStamp>>(
    rx: &mut Receiver<T>,
    buffer: &mut B,
    got: (u64, u64, Option<&T>),
)
    requires
        old(rx).at() < old(buffer)@.slots.len(),
        call_ensures(Receiver::<T>::try_recv::<B>, (rx, buffer), got),
    ensures
        ({
            let slot = final(buffer)@.slots[old(rx).at() as int];
            &&& got.0 == slot.state.seq_no
            &&& slot.state.user_state == got.1
            &&& old(buffer)@.steady ==> (got.2 is Some <==> !slot.state.dirty)
            &&& got.2 matches Some(payload) ==> !slot.state.dirty && cloned(slot.payload, *payload)
        }),
{
}

/// Receiving in place waits until the slot is clean, lends out its payload, and goes on to the
/// next slot.
pub proof fn law_recv_in_place_call<T: Clone, B: Buffer<T, WideStamp>>(
    rx: &mut Receiver<T>,
    buffer: &mut B,
    got: (u64, u64, &T),
    j: int,
)
    requires
        old(rx).at() < old(buffer)@.slots.len(),
        call_ensures(Receiver::<T>::recv_unsafe::<B>, (rx, buffer), got),
        old(buffer)@.looks.len() <= j < final(buffer)@.looks.len(),
    ensures
        ({
            let at = old(rx).at() as int;
            let slot = final(buffer)@.slots[at];
            let looks = final(buffer)@.looks;
            &&& !slot.state.dirty
            &&& got.0 == slot.state.seq_no
            &&& got.1 == slot.state.user_state
            &&& old(buffer)@.steady ==> *got.2 == old(buffer)@.slots[at].payload
            &&& final(rx).at() == (at + 1) % 4096
            &&& final(rx).expected() == (old(rx).expected() + 1) % 0x1_0000_0000_0000_0000
            &&& final(rx).held() == old(rx).held()
            &&& j == looks.len() - 1 ==> {
                &&& looks[j] matches Look::Lent { index, slots, value }
                &&& index == at
                &&& slots == final(buffer)@.slots
                &&& value == *got.2
            }
            &&& j < looks.len() - 1 ==> {
                &&& looks[j] matches Look::Loaded { index, slots }
                &&& index == at
                &&& slots[at].state.dirty <==> j < looks.len() - 2
            }
        }),
{
    assert(j < final(buffer)@.looks.len() - 1 ==> final(buffer)@.looks[j]
        == final(buffer)@.looks.drop_last()[j]);
}

/// An attempt to receive in place returns what the state of the slot says, and, if the slot is
/// clean, lends out its payload and goes on to the next slot.
pub proof fn law_try_recv_in_place_call<T: Clone, B: Buffer<T, WideStamp>>(
    rx: &mut Receiver<T>,
    buffer: &mut B,
    got: (u64, u64, Option<&T>),
)
    requires
        old(rx).at() < old(buffer)@.slots.len(),
        call_ensures(Receiver::<T>::try_recv_unsafe::<B>, (rx, buffer), got),
    ensures
        ({
            let at = old(rx).at() as int;
            let slot = final(buffer)@.slots[at];
            let k = old(buffer)@.looks.len() as int;
            let looks = final(buffer)@.looks;
            &&& got.0 == slot.state.seq_no
            &&& got.1 == slot.state.user_state
            &&& got.2 is None <==> slot.state.dirty
            &&& got.2 is Some ==> {
                &&& final(rx).at() == (at + 1) % 4096
                &&& final(rx).expected() == (old(rx).expected() + 1) % 0x1_0000_0000_0000_0000
            }
            &&& got.2 is None ==> final(rx).at() == at && final(rx).expected() == old(rx).expected()
            &&& final(rx).held() == old(rx).held()
            &&& looks.len() == k + (if got.2 is Some {
                2int
            } else {
                1
            })
            &&& looks[k] matches Look::Loaded { index, slots } && index == at && slots
                == final(buffer)@.slots
            &&& got.2 matches Some(payload) ==> {
                &&& looks[k + 1] matches Look::Lent { index, slots, value }
                &&& index == at
                &&& slots == final(buffer)@.slots
                &&& value == *payload
                &&& old(buffer)@.steady ==> *payload == old(buffer)@.slots[at].payload
            }
        }),
{
}

// ---------------------------------------------------------------------------
// Reading in place
// ---------------------------------------------------------------------------

/// Peeking loads the state of the slot again and again, for as long as it is dirty, and then
/// lends out its payload. The receiver stays.
pub proof fn law_peek_call<T: Clone, B: Buffer<T, WideStamp>>(
    rx: Receiver<T>,
    buffer: &mut B,
    got: (u64, u64, &T),
    j: int,
)
    requires
        rx.at() < old(buffer)@.slots.len(),
        call_ensures(Receiver::<T>::peek_unsafe::<B>, (&rx, buffer), got),
        old(buffer)@.looks.len() <= j < final(buffer)@.looks.len(),
    ensures
        ({
            let at = rx.at() as int;
            let slot = final(buffer)@.slots[at];
            let looks = final(buffer)@.looks;
            &&& !slot.state.dirty
            &&& got.0 == slot.state.seq_no
            &&& got.1 == slot.state.user_state
            &&& old(buffer)@.steady ==> *got.2 == old(buffer)@.slots[at].payload
            &&& j == looks.len() - 1 ==> {
                &&& looks[j] matches Look::Lent { index, slots, value }
                &&& index == at
                &&& slots == final(buffer)@.slots
                &&& value == *got.2
            }
            &&& j < looks.len() - 1 ==> {
                &&& looks[j] matches Look::Loaded { index, slots }
                &&& index == at
                &&& slots[at].state.dirty <==> j < looks.len() - 2
            }
        }),
{
    assert(j < final(buffer)@.looks.len() - 1 ==> final(buffer)@.looks[j]
        == final(buffer)@.looks.drop_last()[j]);
}

/// Peeking without waiting returns what the state of the slot says, and lends out its payload
/// if it is clean. The receiver stays.
pub proof fn law_try_peek_call<T: Clone, B: Buffer<T, WideStamp>>(
    rx: Receiver<T>,
    buffer: &mut B,
    got: (u64, u64, Option<&T>),
)
    requires
        rx.at() < old(buffer)@.slots.len(),
        call_ensures(Receiver::<T>::try_peek_unsafe::<B>, (&rx, buffer), got),
    ensures
        ({
            let at = rx.at() as int;
            let slot = final(buffer)@.slots[at];
            let k = old(buffer)@.looks.len() as int;
            let looks = final(buffer)@.looks;
            &&& got.0 == slot.state.seq_no
            &&& got.1 == slot.state.user_state
            &&& got.2 is None <==> slot.state.dirty
            &&& looks.len() == k + (if got.2 is Some {
                2int
            } else {
                1
            })
            &&& looks[k] matches Look::Loaded { index, slots } && index == at && slots
                == final(buffer)@.slots
            &&& got.2 matches Some(payload) ==> {
                &&& looks[k + 1] matches Look::Lent { index, slots, value }
                &&& index == at
                &&& slots == final(buffer)@.slots
                &&& value == *payload
                &&& old(buffer)@.steady ==> *payload == old(buffer)@.slots[at].payload
            }
        }),
{
}

/// Confirming looks at the slot once. It succeeds if the number there is the one that is
/// expected, and then the receiver goes on to the next slot and number. If it fails, the
/// receiver stays, and expects exactly the number that is there, be the slot clean or dirty.
pub proof fn law_advance_checked_call<T: Clone, B: Buffer<T, WideStamp>>(
    rx: &mut Receiver<T>,
    buffer: &mut B,
    valid: bool,
)
    requires
        old(rx).at() < 4096,
        old(rx).at() < old(buffer)@.slots.len(),
        call_ensures(Receiver::<T>::advance_checked::<B>, (rx, buffer), valid),
    ensures
        ({
            let at = old(rx).at() as int;
            let number = final(buffer)@.slots[at].state.seq_no;
            let k = old(buffer)@.looks.len() as int;
            &&& valid <==> number == old(rx).expected()
            &&& valid ==> final(rx).at() == (at + 1) % 4096 && final(rx).expected() == number + 1
            &&& !valid ==> final(rx).at() == at && final(rx).expected() == number
            &&& final(rx).held() == old(rx).held()
            &&& final(buffer)@.looks.len() == k + 1
            &&& final(buffer)@.looks[k] == (Look::Loaded { index: at, slots: final(buffer)@.slots })
        }),
{
    lemma_small_mod(old(rx).at() as nat, 4096);
}

/// A receiver whose peek was not confirmed does not lose the message that overwrote the slot:
/// the next call gets it from that slot, once it is committed.
pub proof fn law_overwriting_message_is_received<T: Clone, B: Buffer<T, WideStamp>>(
    rx: &mut Receiver<T>,
    buffer: &mut B,
    rx2: &mut Receiver<T>,
    buffer2: &mut B,
    attempt: (u64, u64, Option<&T>),
)
    requires
        old(rx).at() < 4096,
        old(rx).at() < old(buffer)@.slots.len(),
        call_ensures(Receiver::<T>::advance_checked::<B>, (rx, buffer), false),
        *old(rx2) == *final(rx),
        old(buffer2)@.slots.len() == old(buffer)@.slots.len(),
        old(buffer2)@.steady,
        !old(buffer2)@.slots[old(rx).at() as int].state.dirty,
        call_ensures(Receiver::<T>::try_recv::<B>, (rx2, buffer2), attempt),
    ensures
        ({
            let slot = old(buffer2)@.slots[old(rx).at() as int];
            &&& attempt.0 == slot.state.seq_no
            &&& attempt.1 == slot.state.user_state
            &&& attempt.2 matches Some(payload)
            &&& cloned(slot.payload, *payload)
        }),
{
    lemma_small_mod(old(rx).at() as nat, 4096);
}

/// A peek that is confirmed read the message: whatever the sender did in between, a confirming
/// call that succeeds shows that what was read is the payload that is still in the slot, under
/// the number that the peek returned.
pub proof fn law_confirmed_peek_calls<T: Clone, B: Buffer<T, WideStamp>>(
    rx: Receiver<T>,
    buffer: &mut B,
    peek: (u64, u64, &T),
    rx2: &mut Receiver<T>,
    buffer2: &mut B,
)
    requires
        rx.at() < old(buffer)@.slots.len(),
        call_ensures(Receiver::<T>::peek_unsafe::<B>, (&rx, buffer), peek),
        *old(rx2) == rx,
        *old(buffer2) == *final(buffer),
        rx.expected() == peek.0,
        call_ensures(Receiver::<T>::advance_checked::<B>, (rx2, buffer2), true),
    ensures
        ({
            let slot = final(buffer2)@.slots[rx.at() as int];
            &&& slot.payload == *peek.2
            &&& slot.state.seq_no == peek.0
            &&& !slot.state.dirty
        }),
{
    law_confirmed_value(
        final(buffer)@,
        final(buffer2)@,
        final(buffer)@.looks.len() - 1,
        rx.at() as int,
        *peek.2,
    );
}

/// Going on without looking goes to the next slot and the next number.
pub proof fn law_advance_call<T: Clone>(rx: &mut Receiver<T>)
    requires
        call_ensures(Receiver::<T>::advance, (rx,), ()),
    ensures
        final(rx).at() == (old(rx).at() + 1) % 4096,
        final(rx).held() == old(rx).held(),
        final(rx).expected() == (old(rx).expected() + 1) % 0x1_0000_0000_0000_0000,
{
}

/// Waiting loads the state of the slot again and again, for as long as it is dirty, and returns
/// what it says when it is clean.
pub proof fn law_load_state_call<T: Clone, B: Buffer<T, WideStamp>>(
    rx: Receiver<T>,
    buffer: &mut B,
    got: (u64, u64),
    j: int,
)
    requires
        rx.at() < old(buffer)@.slots.len(),
        call_ensures(Receiver::<T>::load_state::<B>, (&rx, buffer), got),
        old(buffer)@.looks.len() <= j < final(buffer)@.looks.len(),
    ensures
        ({
            let at = rx.at() as int;
            let slot = final(buffer)@.slots[at];
            &&& got.0 < 0x8000_0000_0000_0000
            &&& final(buffer)@.looks.last() == (Look::Loaded {
                index: at,
                slots: final(buffer)@.slots,
            })
            &&& !slot.state.dirty
            &&& got.0 == slot.state.seq_no
            &&& got.1 == slot.state.user_state
            &&& final(buffer)@.looks[j] matches Look::Loaded { index, slots }
            &&& index == at
            &&& slots[at].state.dirty <==> j < final(buffer)@.looks.len() - 1
        }),
{
}

/// Loading returns what the state of the slot says, in one look.
pub proof fn law_try_load_state_call<T: Clone, B: Buffer<T, WideStamp>>(
    rx: Receiver<T>,
    buffer: &mut B,
    got: (bool, u64, u64),
)
    requires
        rx.at() < old(buffer)@.slots.len(),
        call_ensures(Receiver::<T>::try_load_state::<B>, (&rx, buffer), got),
    ensures
        ({
            let at = rx.at() as int;
            let slot = final(buffer)@.slots[at];
            let k = old(buffer)@.looks.len() as int;
            &&& got.1 < 0x8000_0000_0000_0000
            &&& got.0 == slot.state.dirty
            &&& got.1 == slot.state.seq_no
            &&& got.2 == slot.state.user_state
            &&& final(buffer)@.looks.len() == k + 1
            &&& final(buffer)@.looks[k] == (Look::Loaded { index: at, slots: final(buffer)@.slots })
        }),
{
}

// ---------------------------------------------------------------------------
// Sending and receiving
// ---------------------------------------------------------------------------

/// What is sent is what is received, cloned on the way in and on the way out, with the user's
/// word, under the number that sending returned.
pub proof fn law_sent_then_received<T: Clone, B: Buffer<T, WideStamp>>(
    tx: &mut Sender,
    buffer: &mut B,
    user_state: u64,
    payload: T,
    s: u64,
    rx: &mut Receiver<T>,
    buffer2: &mut B,
    got: (u64, u64, &T),
)
    requires
        old(buffer)@.slots.len() >= 4096,
        old(tx).at() < old(buffer)@.slots.len(),
        call_ensures(Sender::send::<T, B>, (tx, buffer, user_state, &payload), s),
        old(buffer)@.steady,
        old(buffer2)@ == final(buffer)@,
        old(rx).at() == old(tx).at(),
        call_ensures(Receiver::<T>::recv::<B>, (rx, buffer2), got),
    ensures
        got.0 == s,
        got.1 == user_state,
        exists|sent: T| #[trigger] cloned(payload, sent) && cloned(sent, *got.2),
        final(rx).at() == final(tx).at(),
{
    lemma_next(old(tx).at() as int, 4096);
    assert(cloned(payload, final(buffer)@.slots[old(tx).at() as int].payload));
}

/// So it is with an attempt, which is a success.
pub proof fn law_sent_then_tried<T: Clone, B: Buffer<T, WideStamp>>(
    tx: &mut Sender,
    buffer: &mut B,
    user_state: u64,
    payload: T,
    s: u64,
    rx: &mut Receiver<T>,
    buffer2: &mut B,
    got: (u64, u64, Option<&T>),
)
    requires
        old(buffer)@.slots.len() >= 4096,
        old(tx).at() < old(buffer)@.slots.len(),
        call_ensures(Sender::send::<T, B>, (tx, buffer, user_state, &payload), s),
        old(buffer)@.steady,
        old(buffer2)@ == final(buffer)@,
        old(rx).at() == old(tx).at(),
        call_ensures(Receiver::<T>::try_recv::<B>, (rx, buffer2), got),
    ensures
        got.0 == s,
        got.1 == user_state,
        got.2 matches Some(received) && exists|sent: T| #[trigger]
            cloned(payload, sent) && cloned(sent, *received),
        final(rx).at() == final(tx).at(),
{
    lemma_next(old(tx).at() as int, 4096);
    assert(cloned(payload, final(buffer)@.slots[old(tx).at() as int].payload));
}

/// So it is with a peek.
pub proof fn law_sent_then_peeked<T: Clone, B: Buffer<T, WideStamp>>(
    tx: &mut Sender,
    buffer: &mut B,
    user_state: u64,
    payload: T,
    s: u64,
    rx: Receiver<T>,
    buffer2: &mut B,
    got: (u64, u64, &T),
)
    requires
        old(buffer)@.slots.len() >= 4096,
        old(tx).at() < old(buffer)@.slots.len(),
        call_ensures(Sender::send::<T, B>, (tx, buffer, user_state, &payload), s),
        old(buffer)@.steady,
        old(buffer2)@ == final(buffer)@,
        rx.at() == old(tx).at(),
        call_ensures(Receiver::<T>::peek_unsafe::<B>, (&rx, buffer2), got),
    ensures
        got.0 == s,
        got.1 == user_state,
        cloned(payload, *got.2),
{
    lemma_next(old(tx).at() as int, 4096);
    assert(cloned(payload, final(buffer)@.slots[old(tx).at() as int].payload));
}

/// So it is with an attempt to peek.
pub proof fn law_sent_then_peeked_at<T: Clone, B: Buffer<T, WideStamp>>(
    tx: &mut Sender,
    buffer: &mut B,
    user_state: u64,
    payload: T,
    s: u64,
    rx: Receiver<T>,
    buffer2: &mut B,
    got: (u64, u64, Option<&T>),
)
    requires
        old(buffer)@.slots.len() >= 4096,
        old(tx).at() < old(buffer)@.slots.len(),
        call_ensures(Sender::send::<T, B>, (tx, buffer, user_state, &payload), s),
        old(buffer)@.steady,
        old(buffer2)@ == final(buffer)@,
        rx.at() == old(tx).at(),
        call_ensures(Receiver::<T>::try_peek_unsafe::<B>, (&rx, buffer2), got),
    ensures
        got.0 == s,
        got.1 == user_state,
        got.2 matches Some(read) && cloned(payload, *read),
{
    lemma_next(old(tx).at() as int, 4096);
    assert(cloned(payload, final(buffer)@.slots[old(tx).at() as int].payload));
}

/// After a message there is nothing to receive until the next one is sent.
pub proof fn law_nothing_after_the_last<T: Clone, B: Buffer<T, WideStamp>>(
    tx: &mut Sender,
    buffer: &mut B,
    user_state: u64,
    payload: T,
    s: u64,
    rx: &mut Receiver<T>,
    buffer2: &mut B,
    got: (u64, u64, Option<&T>),
)
    requires
        old(buffer)@.slots.len() >= 4096,
        old(tx).at() < old(buffer)@.slots.len(),
        call_ensures(Sender::send::<T, B>, (tx, buffer, user_state, &payload), s),
        old(buffer)@.steady,
        old(buffer2)@ == final(buffer)@,
        old(rx).at() == final(tx).at(),
        call_ensures(Receiver::<T>::try_recv::<B>, (rx, buffer2), got),
    ensures
        got.0 == s + 1,
        got.2 is None,
        final(rx).at() == old(rx).at(),
{
    lemma_next(old(tx).at() as int, 4096);
}

/// A ring of just the length that is initialized, and then sent to, is at all times one that a
/// sender of the protocol may have left behind.
pub proof fn law_sending_keeps_order<T: Clone + Default, B: Buffer<T, WideStamp>>(
    buffer: &mut B,
    made: Sender,
    tx: &mut Sender,
    buffer2: &mut B,
    user_state: u64,
    payload: T,
    s: u64,
)
    requires
        old(buffer)@.slots.len() == 4096,
        call_ensures(Sender::with_init::<T, B>, (buffer,), made),
        old(tx).in_step(old(buffer2)@.slots),
        s + 1 < 0x8000_0000_0000_0000,
        call_ensures(Sender::send::<T, B>, (tx, buffer2, user_state, &payload), s),
    ensures
        made.in_step(final(buffer)@.slots),
        orderly(final(buffer)@.slots),
        final(tx).in_step(final(buffer2)@.slots),
        orderly(final(buffer2)@.slots),
{
    assert(laid(final(buffer)@.slots, made.next() as int, made.next() as int, 1));
    assert(laid(final(buffer2)@.slots, final(tx).next() as int, final(tx).next() as int, 1));
}

/// Every call is allowed that the protocol allows: a sender may send, to any ring that is long
/// enough, until the numbers run out; a receiver may try at any time, and may wait for a
/// message that was committed, or will be.
pub proof fn law_calls_are_allowed<T: Clone + Default, B: Buffer<T, WideStamp>>(
    tx: &mut Sender,
    rx: &mut Receiver<T>,
    buffer: &mut B,
    user_state: u64,
    payload: T,
)
    requires
        old(buffer).inv(),
        old(buffer)@.slots.len() >= 4096,
    ensures
        call_requires(Sender::with_init::<T, B>, (buffer,)),
        old(buffer)@.steady ==> call_requires(Sender::new::<T, B>, (buffer,)),
        old(tx).at() < old(buffer)@.slots.len() && old(tx).next() + 1 < 0x8000_0000_0000_0000
            ==> call_requires(
            Sender::send::<T, B>,
            (tx, buffer, user_state, &payload),
        ),
        call_requires(Receiver::<T>::new::<B>, (buffer,)),
        call_requires(Receiver::<T>::advance, (rx,)),
        old(rx).at() < old(buffer)@.slots.len() ==> {
            &&& call_requires(Receiver::<T>::try_recv::<B>, (rx, buffer))
            &&& call_requires(Receiver::<T>::try_peek_unsafe::<B>, (&*old(rx), buffer))
            &&& call_requires(Receiver::<T>::advance_checked::<B>, (rx, buffer))
            &&& call_requires(Receiver::<T>::try_load_state::<B>, (&*old(rx), buffer))
            &&& call_requires(Receiver::<T>::try_recv_unsafe::<B>, (rx, buffer))
        },
        old(rx).at() < old(buffer)@.slots.len() && old(buffer)@.live.contains(
            old(rx).at() as int,
        ) ==> {
            &&& call_requires(Receiver::<T>::recv::<B>, (rx, buffer))
            &&& call_requires(Receiver::<T>::peek_unsafe::<B>, (&*old(rx), buffer))
            &&& call_requires(Receiver::<T>::load_state::<B>, (&*old(rx), buffer))
            &&& call_requires(Receiver::<T>::recv_unsafe::<B>, (rx, buffer))
        },
{
}

} // verus!
