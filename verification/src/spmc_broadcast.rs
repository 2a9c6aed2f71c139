//! The broadcast channel: one sender, any number of receivers, no backpressure.
//!
//! Message `s` falls on slot `s` modulo the capacity. The sender keeps the slot of the
//! message that it will send next dirty; it marks the slot after it dirty before it
//! clears the flag of a message, so at least one slot is dirty at all times. A message
//! that is not received before the sender comes round again is overwritten.
//!
//! Sender and receivers are positions in the ring. The ring itself, or a handle on
//! it, goes into every call, so that a contract can say what the call does to it.
pub use crate::buffer::Buffer;
use crate::buffer::{
    assign_clone, attempted, copied, extends, lemma_looked_trans, lemma_watched_refl,
    lemma_watched_trans, looked, searched, settled, stops, vouches, waited, watched, Access, Look,
    RingModel,
};
use crate::capacity::{is_capacity, slot_index};
pub use crate::heap_buffer::{HeapBuffer, Message};
use crate::ring::{
    active, congruent, evolves, first_active, has_active, home, laid, lemma_clear, lemma_congruent,
    lemma_evolves_refl, lemma_evolves_trans, lemma_fill, lemma_follow, lemma_head,
    lemma_laid_evolves, lemma_mark, lemma_newest, lemma_newest_next, newest, orderly, slot_evolves,
    with_payload, with_state, Slot, Tag,
};
use crate::state::{Stamp, DIRTY_MASK};
use vstd::arithmetic::div_mod::{
    lemma_add_mod_noop, lemma_mod_bound, lemma_mod_twice, lemma_small_mod,
};
use vstd::prelude::*;

verus! {

/// `core::hint::spin_loop` tells the processor that the caller is waiting in a loop. Nothing is
/// claimed of it.
pub assume_specification[ core::hint::spin_loop ]();

/// The slot of message `seq_no`.
pub open spec fn slot_of<T>(slots: Seq<Slot<T, Stamp>>, seq_no: u64) -> int {
    home(seq_no as int, 0, slots.len() as int)
}

/// The ring after the slot of message `seq_no` was marked dirty.
pub open spec fn marked<T>(slots: Seq<Slot<T, Stamp>>, seq_no: u64) -> Seq<Slot<T, Stamp>> {
    with_state(slots, slot_of(slots, seq_no), Stamp { dirty: true, seq_no })
}

/// The ring after the slot of message `seq_no` was marked clean.
pub open spec fn cleared<T>(slots: Seq<Slot<T, Stamp>>, seq_no: u64) -> Seq<Slot<T, Stamp>> {
    with_state(slots, slot_of(slots, seq_no), Stamp { dirty: false, seq_no })
}

/// The ring after message `seq_no` was committed: the slot of the next message is
/// dirty, that of this one is clean.
pub open spec fn committed<T>(slots: Seq<Slot<T, Stamp>>, seq_no: u64) -> Seq<Slot<T, Stamp>> {
    cleared(marked(slots, (seq_no + 1) as u64), seq_no)
}

/// The ring after `payload` was sent as message `seq_no`.
pub open spec fn published<T>(slots: Seq<Slot<T, Stamp>>, seq_no: u64, payload: T) -> Seq<
    Slot<T, Stamp>,
> {
    committed(with_payload(slots, slot_of(slots, seq_no), payload), seq_no)
}

/// How a committing sender goes about it: it marks the slot of the next message, then it clears the
/// flag of this one.
pub open spec fn commit_trail<T>(slots: Seq<Slot<T, Stamp>>, seq_no: u64) -> Seq<
    Access<T, Stamp>,
> {
    seq![
        Access::Store { slots: marked(slots, (seq_no + 1) as u64) },
        Access::Store { slots: committed(slots, seq_no) },
    ]
}

/// How a sender that sends a message goes about it: it writes the payload into the reserved slot,
/// and then commits.
pub open spec fn send_trail<T>(slots: Seq<Slot<T, Stamp>>, seq_no: u64, payload: T) -> Seq<
    Access<T, Stamp>,
> {
    let at = slot_of(slots, seq_no);
    seq![Access::Lend { index: at, slots }] + commit_trail(
        with_payload(slots, at, payload),
        seq_no,
    )
}

/// A ring in which nothing was sent yet: slot 1 is dirty, for message 1, and all other
/// slots are empty. The payloads are default values.
pub open spec fn initial<T: Default>(slots: Seq<Slot<T, Stamp>>) -> bool {
    forall|i: int|
        #![trigger slots[i]]
        0 <= i < slots.len() ==> {
            &&& slots[i].state == (if i == 1 {
                Stamp { dirty: true, seq_no: 1 }
            } else {
                Stamp { dirty: false, seq_no: 0 }
            })
            &&& T::default.ensures((), slots[i].payload)
        }
}

/// A ring of which the first `len` slots were emptied, with default payloads, and the others are
/// as they were before.
pub open spec fn emptied<T: Default>(
    before: Seq<Slot<T, Stamp>>,
    slots: Seq<Slot<T, Stamp>>,
    len: int,
) -> bool {
    &&& slots.len() == before.len()
    &&& forall|i: int|
        #![trigger slots[i]]
        0 <= i < slots.len() ==> if i < len {
            &&& slots[i].state == (Stamp { dirty: false, seq_no: 0 })
            &&& T::default.ensures((), slots[i].payload)
        } else {
            slots[i] == before[i]
        }
}

/// Whether a ring was initialized: its slots were emptied one after the other, and then slot 1 was
/// marked, for message 1.
pub open spec fn initialized<T: Default>(m: RingModel<T, Stamp>, m2: RingModel<T, Stamp>) -> bool {
    let n = m.slots.len() as int;
    let first = m.trail.len() as int;
    &&& initial(m2.slots)
    &&& m2.slots.len() == n
    &&& m2.trail.len() == first + n + 1
    &&& m.trail.is_prefix_of(m2.trail)
    &&& extends(m.looks, m2.looks)
    &&& forall|t: int|
        #![trigger m2.trail[first + t]]
        0 <= t < n ==> m2.trail[first + t] is Store && emptied(
            m.slots,
            m2.trail[first + t].ring(),
            t + 1,
        )
    &&& m2.trail.last() == (Access::Store { slots: m2.slots })
}

/// Whether the ring has come as far as message `seq_no`: its slot holds that message,
/// or a later one that falls on the same slot.
pub open spec fn tracks<T>(slots: Seq<Slot<T, Stamp>>, seq_no: u64) -> bool {
    let number = slots[slot_of(slots, seq_no)].state.seq_no;
    &&& 1 <= seq_no <= number
    &&& congruent(number as int, seq_no as int, slots.len() as int)
}

/// Whether a ring has evolved, and with that has not fallen back behind any message.
pub open spec fn keeps_course<T>(
    before: Seq<Slot<T, Stamp>>,
    after: Seq<Slot<T, Stamp>>,
) -> bool {
    &&& evolves(before, after)
    &&& forall|seq_no: u64| #[trigger] tracks(before, seq_no) ==> tracks(after, seq_no)
}

/// A ring that evolves does not fall back behind a message.
pub proof fn lemma_keeps_course<T>(before: Seq<Slot<T, Stamp>>, after: Seq<Slot<T, Stamp>>)
    requires
        before.len() > 0,
        evolves(before, after),
    ensures
        keeps_course(before, after),
{
    assert forall|seq_no: u64| #[trigger] tracks(before, seq_no) implies tracks(after, seq_no) by {
        lemma_tracks_evolves(before, after, seq_no);
    }
}

/// Whether a ring is one that a sender may have left behind, between any two of its steps.
pub open spec fn on_course<T>(slots: Seq<Slot<T, Stamp>>) -> bool {
    exists|lo: int, hi: int| laid(slots, lo, hi, 0)
}

/// A ring in which nothing was sent yet is one in which message 1 is being written.
pub proof fn lemma_initial<T: Default>(slots: Seq<Slot<T, Stamp>>)
    requires
        slots.len() >= 2,
        initial(slots),
    ensures
        laid(slots, 1, 1, 0),
        tracks(slots, 1),
{
    let n = slots.len() as int;
    lemma_small_mod(1, n as nat);
    assert(home(1, 0, n) == 1);
    assert forall|i: int| #![trigger slots[i]] 0 <= i < n implies {
        let m = newest(i, 1, 0, n);
        &&& slots[i].state.number() == (if m > 0 {
            m
        } else {
            0
        })
        &&& slots[i].state.is_dirty() == (m >= 1)
    } by {
        lemma_newest(i, 1, 0, n);
    }
    lemma_congruent(1, 1, 1, n);
}

/// Committing the message that is being written takes a ring to the next message, by steps
/// of the protocol.
pub proof fn lemma_committed<T>(slots: Seq<Slot<T, Stamp>>, seq_no: u64)
    requires
        laid(slots, seq_no as int, seq_no as int, 0),
        seq_no + 1 < DIRTY_MASK,
    ensures
        laid(committed(slots, seq_no), seq_no + 1, seq_no + 1, 0),
        keeps_course(slots, committed(slots, seq_no)),
        tracks(committed(slots, seq_no), seq_no),
        tracks(committed(slots, seq_no), (seq_no + 1) as u64),
{
    let next: u64 = (seq_no + 1) as u64;
    let mid = marked(slots, next);
    let after = committed(slots, seq_no);
    lemma_mark(slots, seq_no as int, 0, Stamp { dirty: true, seq_no: next });
    lemma_clear(mid, seq_no as int, 0, Stamp { dirty: false, seq_no });
    lemma_evolves_trans(slots, mid, after);
    lemma_newest_next(0, seq_no as int, 0, slots.len() as int);
    lemma_congruent(seq_no as int, seq_no as int, 0, slots.len() as int);
    lemma_congruent(next as int, next as int, 0, slots.len() as int);
    lemma_keeps_course(slots, after);
}

/// So does sending it.
pub proof fn lemma_published<T>(slots: Seq<Slot<T, Stamp>>, seq_no: u64, payload: T)
    requires
        laid(slots, seq_no as int, seq_no as int, 0),
        seq_no + 1 < DIRTY_MASK,
    ensures
        laid(published(slots, seq_no, payload), seq_no + 1, seq_no + 1, 0),
        keeps_course(slots, published(slots, seq_no, payload)),
        tracks(published(slots, seq_no, payload), seq_no),
        tracks(published(slots, seq_no, payload), (seq_no + 1) as u64),
{
    let filled = with_payload(slots, slot_of(slots, seq_no), payload);
    let after = published(slots, seq_no, payload);
    lemma_fill(slots, seq_no as int, seq_no as int, 0, payload);
    lemma_committed(filled, seq_no);
    lemma_evolves_trans(slots, filled, after);
    lemma_keeps_course(slots, after);
}

/// In a ring between two messages, the slot of the message that is being written is the one that
/// a search for a dirty slot comes upon.
pub proof fn lemma_resume<T>(slots: Seq<Slot<T, Stamp>>, head: int)
    requires
        laid(slots, head, head, 0),
    ensures
        first_active(slots, home(head, 0, slots.len() as int)),
        slots[home(head, 0, slots.len() as int)].state.seq_no == head,
        forall|i: int| #[trigger]
            first_active(slots, i) ==> i == home(head, 0, slots.len() as int),
{
    lemma_head(slots, head, 0);
}

/// In a ring of the protocol, the number in a slot that was dirty is one that the ring has come
/// to.
pub proof fn lemma_tracks_active<T>(
    a: Seq<Slot<T, Stamp>>,
    b: Seq<Slot<T, Stamp>>,
    i: int,
)
    requires
        on_course(a),
        evolves(a, b),
        0 <= i < b.len(),
        b[i].state.seq_no > 0,
    ensures
        on_course(b),
        tracks(b, b[i].state.seq_no),
{
    let n = a.len() as int;
    let (lo, hi) = choose|lo: int, hi: int| laid(a, lo, hi, 0);
    lemma_laid_evolves(a, b, lo, hi, 0);
    let (lo2, hi2) = choose|lo2: int, hi2: int| laid(b, lo2, hi2, 0);
    assert(laid(b, lo2, hi2, 0));
    lemma_newest(i, hi2, 0, n);
    lemma_congruent(b[i].state.seq_no as int, b[i].state.seq_no as int, 0, n);
}

/// The sending handle of a channel.
///
/// There is no backpressure: when the ring is full, a new message overwrites the oldest
/// one. A receiver that must not miss a message has to keep up.
#[derive(Debug)]
pub struct Sender {
    /// The number of the message that is sent next, whose slot is dirty.
    seq_no: u64,
}

/// What sending a message does to the sender and to what is known of the ring, and the number that
/// it returns.
pub open spec fn sends<T>(
    tx: Sender,
    m: RingModel<T, Stamp>,
    payload: T,
    tx2: Sender,
    m2: RingModel<T, Stamp>,
    seq_no: u64,
) -> bool {
    &&& seq_no == tx.next()
    &&& tx2.next() == tx.next() + 1
    &&& m2.steady == m.steady
    &&& m2.slots == published(m.slots, tx.next(), payload)
    &&& m2.trail == m.trail + send_trail(m.slots, tx.next(), payload)
    &&& m2.looks == m.looks
    &&& settled(m2)
    &&& tx.in_step(m.slots) ==> {
        &&& tx2.in_step(m2.slots)
        &&& keeps_course(m.slots, m2.slots)
        &&& tracks(m2.slots, tx.next())
        &&& tracks(m2.slots, tx2.next())
    }
}

impl Sender {
    /// The number of the message that is sent next.
    pub closed spec fn next(&self) -> u64 {
        self.seq_no
    }

    /// Whether the ring is where the sender takes it to be: the message that is sent next, and
    /// no other, is being written.
    pub open spec fn in_step<T>(&self, slots: Seq<Slot<T, Stamp>>) -> bool {
        laid(slots, self.next() as int, self.next() as int, 0)
    }

    /// Constructs a sender on a ring.
    ///
    /// If the ring has a dirty slot with a number, the sender goes on where the
    /// previous one left off. If not, the ring is initialized.
    pub fn new<T: Clone + Default, B: Buffer<T, Stamp>>(buffer: &mut B) -> (sender: Sender)
        requires
            old(buffer).inv(),
            old(buffer)@.steady,
            is_capacity(old(buffer)@.slots.len() as int),
        ensures
            final(buffer).inv(),
            final(buffer)@.steady,
            final(buffer)@.slots.len() == old(buffer)@.slots.len(),
            forall|i: int| #[trigger]
                first_active(old(buffer)@.slots, i) ==> {
                    &&& sender.next() == old(buffer)@.slots[i].state.seq_no
                    &&& final(buffer)@.slots == old(buffer)@.slots
                    &&& final(buffer)@.trail == old(buffer)@.trail
                    &&& extends(old(buffer)@.looks, final(buffer)@.looks)
                },
            forall|head: int| #[trigger]
                laid(old(buffer)@.slots, head, head, 0) ==> sender.next() == head
                    && sender.in_step(final(buffer)@.slots),
            (forall|i: int|
                0 <= i < old(buffer)@.slots.len() ==> !active(#[trigger] old(buffer)@.slots[i]))
                ==> {
                &&& sender.next() == 1
                &&& initialized(old(buffer)@, final(buffer)@)
                &&& sender.in_step(final(buffer)@.slots)
            },
            settled(final(buffer)@),
    {
        let n = buffer.capacity();
        let mut i: usize = 0;
        proof {
            assert forall|head: int| #[trigger] laid(buffer@.slots, head, head, 0) implies exists|
                j: int,
            | #[trigger]
                first_active(buffer@.slots, j) && buffer@.slots[j].state.seq_no == head by {
                lemma_resume(buffer@.slots, head);
            }
        }
        while i < n
            invariant
                buffer.inv(),
                buffer@.steady,
                buffer@.slots == old(buffer)@.slots,
                buffer@.trail == old(buffer)@.trail,
                extends(old(buffer)@.looks, buffer@.looks),
                settled(buffer@),
                forall|head: int| #[trigger]
                    laid(buffer@.slots, head, head, 0) ==> exists|j: int| #[trigger]
                        first_active(buffer@.slots, j) && buffer@.slots[j].state.seq_no == head,
                n == buffer@.slots.len(),
                i <= n,
                is_capacity(n as int),
                forall|j: int| 0 <= j < i ==> !active(#[trigger] buffer@.slots[j]),
            decreases n - i,
        {
            let stamp = buffer.load(i);
            if stamp.dirty && stamp.seq_no != 0 {
                let again = buffer.load(i);
                proof {
                    assert(active(old(buffer)@.slots[i as int]));
                    assert forall|j: int| #[trigger]
                        first_active(old(buffer)@.slots, j) implies j == i by {}
                }
                return Sender { seq_no: again.seq_no };
            }
            i = i + 1;
        }
        Self::with_init(buffer)
    }

    /// Constructs a sender and initializes the ring, whatever was in it: slot 1 is dirty,
    /// for message 1, all other slots are empty, and all payloads are default values.
    pub fn with_init<T: Clone + Default, B: Buffer<T, Stamp>>(buffer: &mut B) -> (sender: Sender)
        requires
            old(buffer).inv(),
            is_capacity(old(buffer)@.slots.len() as int),
        ensures
            final(buffer).inv(),
            final(buffer)@.steady == old(buffer)@.steady,
            final(buffer)@.slots.len() == old(buffer)@.slots.len(),
            sender.next() == 1,
            initialized(old(buffer)@, final(buffer)@),
            sender.in_step(final(buffer)@.slots),
            settled(final(buffer)@),
    {
        let ghost first = buffer@.trail.len() as int;
        let n = buffer.capacity();
        let mut i: usize = 0;
        while i < n
            invariant
                buffer.inv(),
                buffer@.steady == old(buffer)@.steady,
                n == buffer@.slots.len(),
                n == old(buffer)@.slots.len(),
                i <= n,
                emptied(old(buffer)@.slots, buffer@.slots, i as int),
                first == old(buffer)@.trail.len(),
                buffer@.trail.len() == first + i,
                old(buffer)@.trail.is_prefix_of(buffer@.trail),
                buffer@.looks == old(buffer)@.looks,
                forall|t: int|
                    #![trigger buffer@.trail[first + t]]
                    0 <= t < i ==> buffer@.trail[first + t] is Store && emptied(
                        old(buffer)@.slots,
                        buffer@.trail[first + t].ring(),
                        t + 1,
                    ),
            decreases n - i,
        {
            buffer.replace(i, Stamp { dirty: false, seq_no: 0 }, T::default());
            i = i + 1;
        }
        buffer.replace(1, Stamp { dirty: true, seq_no: 1 }, T::default());
        proof {
            lemma_initial(buffer@.slots);
        }
        Sender { seq_no: 1 }
    }

    /// Lends out the payload of the next message, to be written in place.
    ///
    /// The sender always has a slot reserved, so this changes nothing by itself: it may
    /// be called again, and need not be followed by [`Sender::commit`].
    pub fn reserve<'b, T, B: Buffer<T, Stamp>>(&self, buffer: &'b mut B) -> (reserved: (
        u64,
        &'b mut T,
    ))
        requires
            old(buffer).inv(),
            is_capacity(old(buffer)@.slots.len() as int),
        ensures
            reserved.0 == self.next(),
            *reserved.1 == old(buffer)@.slots[slot_of(old(buffer)@.slots, self.next())].payload,
            final(buffer).inv(),
            final(buffer)@.steady == old(buffer)@.steady,
            final(buffer)@.slots == with_payload(
                old(buffer)@.slots,
                slot_of(old(buffer)@.slots, self.next()),
                *final(reserved.1),
            ),
            final(buffer)@.trail == old(buffer)@.trail.push(
                Access::Lend {
                    index: slot_of(old(buffer)@.slots, self.next()),
                    slots: old(buffer)@.slots,
                },
            ),
            final(buffer)@.looks == old(buffer)@.looks,
            settled(final(buffer)@),
            self.in_step(old(buffer)@.slots) ==> {
                &&& self.in_step(final(buffer)@.slots)
                &&& keeps_course(old(buffer)@.slots, final(buffer)@.slots)
            },
    {
        proof {
            if self.in_step(buffer@.slots) {
                let at = slot_of(buffer@.slots, self.seq_no);
                assert forall|payload: T| #![trigger with_payload(buffer@.slots, at, payload)] {
                    &&& self.in_step(with_payload(buffer@.slots, at, payload))
                    &&& keeps_course(buffer@.slots, with_payload(buffer@.slots, at, payload))
                } by {
                    lemma_fill(buffer@.slots, self.seq_no as int, self.seq_no as int, 0, payload);
                    lemma_keeps_course(buffer@.slots, with_payload(buffer@.slots, at, payload));
                }
            }
        }
        let index = slot_index(self.seq_no, buffer.capacity());
        (self.seq_no, buffer.payload_mut(index))
    }

    /// Publishes the reserved slot with whatever payload it holds.
    pub fn commit<T, B: Buffer<T, Stamp>>(&mut self, buffer: &mut B)
        requires
            old(buffer).inv(),
            is_capacity(old(buffer)@.slots.len() as int),
            old(self).next() + 1 < DIRTY_MASK,
        ensures
            final(self).next() == old(self).next() + 1,
            final(buffer).inv(),
            final(buffer)@.steady == old(buffer)@.steady,
            final(buffer)@.slots == committed(old(buffer)@.slots, old(self).next()),
            final(buffer)@.trail == old(buffer)@.trail + commit_trail(
                old(buffer)@.slots,
                old(self).next(),
            ),
            final(buffer)@.looks == old(buffer)@.looks,
            settled(final(buffer)@),
            old(self).in_step(old(buffer)@.slots) ==> {
                &&& final(self).in_step(final(buffer)@.slots)
                &&& keeps_course(old(buffer)@.slots, final(buffer)@.slots)
                &&& tracks(final(buffer)@.slots, old(self).next())
                &&& tracks(final(buffer)@.slots, final(self).next())
            },
    {
        proof {
            if self.in_step(buffer@.slots) {
                lemma_committed(buffer@.slots, self.seq_no);
            }
        }
        let n = buffer.capacity();
        let seq_no = self.seq_no;
        let next_seq_no: u64 = seq_no + 1;
        self.seq_no = next_seq_no;
        buffer.store(slot_index(next_seq_no, n), Stamp { dirty: true, seq_no: next_seq_no });
        buffer.store(slot_index(seq_no, n), Stamp { dirty: false, seq_no });
    }

    /// Sends a clone of `payload`, and returns the number of the message.
    pub fn send_from<T: Clone, B: Buffer<T, Stamp>>(&mut self, buffer: &mut B, payload: &T) -> (
    seq_no: u64)
        requires
            old(buffer).inv(),
            is_capacity(old(buffer)@.slots.len() as int),
            old(self).next() + 1 < DIRTY_MASK,
        ensures
            final(buffer).inv(),
            exists|p: T| #[trigger]
                cloned(*payload, p) && sends(
                    *old(self),
                    old(buffer)@,
                    p,
                    *final(self),
                    final(buffer)@,
                    seq_no,
                ),
    {
        let (seq_no, slot) = self.reserve(buffer);
        assign_clone(slot, payload);
        let ghost copy = *slot;
        self.commit(buffer);
        proof {
            assert(cloned(*payload, copy));
            assert(buffer@.trail =~= old(buffer)@.trail + send_trail(
                old(buffer)@.slots,
                seq_no,
                copy,
            ));
            if old(self).in_step(old(buffer)@.slots) {
                lemma_published(old(buffer)@.slots, seq_no, copy);
            }
        }
        seq_no
    }

    /// Sends `payload`, and returns the number of the message.
    pub fn send<T, B: Buffer<T, Stamp>>(&mut self, buffer: &mut B, payload: T) -> (seq_no: u64)
        requires
            old(buffer).inv(),
            is_capacity(old(buffer)@.slots.len() as int),
            old(self).next() + 1 < DIRTY_MASK,
        ensures
            final(buffer).inv(),
            sends(*old(self), old(buffer)@, payload, *final(self), final(buffer)@, seq_no),
    {
        proof {
            if self.in_step(buffer@.slots) {
                lemma_published(buffer@.slots, self.seq_no, payload);
            }
        }
        let (seq_no, slot) = self.reserve(buffer);
        *slot = payload;
        self.commit(buffer);
        assert(buffer@.trail =~= old(buffer)@.trail + send_trail(
            old(buffer)@.slots,
            seq_no,
            payload,
        ));
        seq_no
    }
}

/// A ring that evolves does not fall back behind a message.
pub proof fn lemma_tracks_evolves<T>(
    a: Seq<Slot<T, Stamp>>,
    b: Seq<Slot<T, Stamp>>,
    seq_no: u64,
)
    requires
        a.len() > 0,
        tracks(a, seq_no),
        evolves(a, b),
    ensures
        tracks(b, seq_no),
{
    let n = a.len() as int;
    let i = slot_of(a, seq_no);
    lemma_mod_bound(seq_no as int, n);
    assert(slot_evolves(a[i], b[i], n));
    lemma_congruent(b[i].state.seq_no as int, a[i].state.seq_no as int, seq_no as int, n);
}

/// The number in the slot of a message that the ring has come to falls on that slot.
pub proof fn lemma_tracks_slot<T>(slots: Seq<Slot<T, Stamp>>, seq_no: u64)
    requires
        slots.len() > 0,
        tracks(slots, seq_no),
    ensures
        ({
            let i = slot_of(slots, seq_no);
            let number = slots[i].state.seq_no;
            &&& 0 <= i < slots.len()
            &&& slot_of(slots, number) == i
            &&& tracks(slots, number)
        }),
{
    let n = slots.len() as int;
    let i = slot_of(slots, seq_no);
    lemma_mod_bound(seq_no as int, n);
    lemma_congruent(slots[i].state.seq_no as int, seq_no as int, 0, n);
    lemma_congruent(slots[i].state.seq_no as int, slots[i].state.seq_no as int, 0, n);
}

/// In an orderly ring, the message after a committed one has been come to.
pub proof fn lemma_tracks_next<T>(slots: Seq<Slot<T, Stamp>>, seq_no: u64)
    requires
        orderly(slots),
        slots.len() > 0,
        1 <= seq_no < u64::MAX,
        slots[slot_of(slots, seq_no)].state == (Stamp { dirty: false, seq_no }),
    ensures
        tracks(slots, (seq_no + 1) as u64),
{
    let n = slots.len() as int;
    let i = slot_of(slots, seq_no);
    lemma_mod_bound(seq_no as int, n);
    lemma_follow(slots, i);
    lemma_add_mod_noop(seq_no as int, 1, n);
    lemma_add_mod_noop(i, 1, n);
    lemma_mod_twice(seq_no as int, n);
    assert(slot_of(slots, (seq_no + 1) as u64) == (i + 1) % n);
}

/// What a receiver that expects message `seq_no` gets from a ring that does not change
/// meanwhile: the number that it reports, the message that it expects next, and the slot
/// whose payload it delivers, if any.
pub open spec fn reception<T>(slots: Seq<Slot<T, Stamp>>, seq_no: u64) -> (u64, u64, Option<int>) {
    let seen = slots[slot_of(slots, seq_no)].state;
    let at = slot_of(slots, seen.seq_no);
    if seen.dirty {
        (seen.seq_no, seen.seq_no, None)
    } else if slots[at].state.seq_no == seen.seq_no {
        (seen.seq_no, (seen.seq_no + 1) as u64, Some(at))
    } else {
        (slots[at].state.seq_no, slots[at].state.seq_no, None)
    }
}

/// A receiving handle of a channel.
///
/// A receiver never changes the ring. It keeps a position of its own, so receivers get
/// ahead at their own pace, and a payload of its own, which the references that it hands
/// out point to. If the sender has come round and overwritten the slot that a receiver
/// waits for, the receiver sees it by the number in the slot, and goes on from there.
#[derive(Debug)]
pub struct Receiver<T> {
    /// The number of the message that is expected next.
    seq_no: u64,
    /// The payload received last.
    recv_payload: T,
}

/// What a successful receive does to the receiver and to what is known of the ring, the number
/// that it returns, and the payload.
pub open spec fn receives<T: Clone>(
    rx: Receiver<T>,
    m: RingModel<T, Stamp>,
    rx2: Receiver<T>,
    m2: RingModel<T, Stamp>,
    seq_no: u64,
    payload: T,
) -> bool {
    let at = slot_of(m.slots, rx.expected());
    &&& seq_no >= rx.expected()
    &&& congruent(seq_no as int, rx.expected() as int, m.slots.len() as int)
    &&& m2.slots[at].state == (Stamp { dirty: false, seq_no })
    &&& cloned(m2.slots[at].payload, payload)
    &&& watched(m, m2, at, false)
    &&& copied(m2, at, seq_no, payload)
    &&& rx2.expected() == seq_no + 1
    &&& rx2.held() == payload
    &&& orderly(m.slots) ==> tracks(m2.slots, rx2.expected())
}

/// What an attempt to receive does to the receiver and to what is known of the ring, the number
/// that it returns, and the payload if there is one.
pub open spec fn tries<T: Clone>(
    rx: Receiver<T>,
    m: RingModel<T, Stamp>,
    rx2: Receiver<T>,
    m2: RingModel<T, Stamp>,
    seq_no: u64,
    payload: Option<&T>,
) -> bool {
    let at = slot_of(m.slots, rx.expected());
    let before = m.slots[at];
    let after = m2.slots[at];
    let first = m2.looks[m.looks.len() as int].ring()[at].state;
    let from = slot_of(m.slots, first.seq_no);
    &&& looked(m, m2)
    &&& attempted(m, m2, at, from, payload is Some, rx.held(), rx2.held())
    &&& seq_no == (if first.dirty {
        first.seq_no
    } else {
        m2.slots[from].state.seq_no
    })
    &&& seq_no < DIRTY_MASK
    &&& rx2.expected() == seq_no + (if payload is Some {
        1int
    } else {
        0
    })
    &&& payload is Some ==> {
        &&& *payload->0 == rx2.held()
        &&& m2.slots[slot_of(m.slots, seq_no)].state.seq_no == seq_no
    }
    &&& m.steady ==> {
        let (reported, expected, delivered) = reception(m.slots, rx.expected());
        &&& seq_no == reported
        &&& rx2.expected() == expected
        &&& payload is Some <==> delivered is Some
        &&& delivered is Some ==> cloned(m.slots[delivered->0].payload, *payload->0)
    }
    &&& tracks(m.slots, rx.expected()) ==> {
        &&& seq_no >= rx.expected()
        &&& congruent(seq_no as int, rx.expected() as int, m.slots.len() as int)
        &&& after.state.seq_no == seq_no
        &&& payload is Some ==> !after.state.dirty && cloned(after.payload, *payload->0)
        &&& payload is None ==> after.state.dirty || after.state != before.state
        &&& payload is Some && orderly(m.slots) || payload is None ==> tracks(
            m2.slots,
            rx2.expected(),
        )
    }
}

/// What a peek does to the receiver and to what is known of the ring, the number that it returns,
/// and what the reference that it lends out refers to.
pub open spec fn peeks<T>(
    rx: Receiver<T>,
    m: RingModel<T, Stamp>,
    rx2: Receiver<T>,
    m2: RingModel<T, Stamp>,
    seq_no: u64,
    payload: T,
) -> bool {
    let at = slot_of(m.slots, rx.expected());
    &&& m2.slots[at].state == (Stamp { dirty: false, seq_no })
    &&& m.steady ==> payload == m.slots[slot_of(m.slots, seq_no)].payload
    &&& watched(m, m2, at, false)
    &&& m2.looks.len() > m.looks.len()
    &&& waited(m.looks, m2.looks.drop_last(), at)
    &&& m2.looks.last() == (Look::Lent {
        index: slot_of(m.slots, seq_no),
        slots: m2.slots,
        value: payload,
    })
    &&& tracks(m.slots, rx.expected()) ==> {
        &&& seq_no >= rx.expected()
        &&& slot_of(m.slots, seq_no) == at
        &&& tracks(m2.slots, seq_no)
    }
    &&& rx2.expected() == seq_no
    &&& rx2.held() == rx.held()
}

/// What confirming a peek does to the receiver and to what is known of the ring, and the answer.
pub open spec fn advances<T>(
    rx: Receiver<T>,
    m: RingModel<T, Stamp>,
    rx2: Receiver<T>,
    m2: RingModel<T, Stamp>,
    valid: bool,
) -> bool {
    let at = slot_of(m.slots, rx.expected());
    let state = m2.slots[at].state;
    &&& valid == (state.seq_no == rx.expected())
    &&& rx2.expected() == state.seq_no + (if valid {
        1int
    } else {
        0
    })
    &&& watched(m, m2, at, state.dirty)
    &&& m2.looks == m.looks.push(Look::Loaded { index: at, slots: m2.slots })
    &&& vouches(m2, at)
    &&& tracks(m.slots, rx.expected()) && (valid ==> !state.dirty && orderly(m.slots)) ==> tracks(
        m2.slots,
        rx2.expected(),
    )
    &&& rx2.held() == rx.held()
}

/// Whether `seq_no` is the number in the first slot that is dirty and has one.
pub open spec fn starts_at<T>(slots: Seq<Slot<T, Stamp>>, seq_no: u64) -> bool {
    forall|i: int| #[trigger] first_active(slots, i) ==> seq_no == slots[i].state.seq_no
}

impl<T: Clone> Clone for Receiver<T> {
    /// A second receiver at the same position.
    fn clone(&self) -> (receiver: Receiver<T>)
        ensures
            receiver.expected() == self.expected(),
            cloned(self.held(), receiver.held()),
    {
        Receiver { seq_no: self.seq_no, recv_payload: self.recv_payload.clone() }
    }
}

impl<T> Receiver<T> {
    /// The number of the message that is expected next.
    pub closed spec fn expected(&self) -> u64 {
        self.seq_no
    }

    /// The payload received last.
    pub closed spec fn held(&self) -> T {
        self.recv_payload
    }
}

impl<T: Clone + Default> Receiver<T> {
    /// Constructs a receiver positioned at the slot that is being written.
    ///
    /// There is none if no dirty slot with a number is found: then the ring was never
    /// initialized, or the sender was faster than the search.
    pub fn new<B: Buffer<T, Stamp>>(buffer: &mut B) -> (receiver: Option<Receiver<T>>)
        requires
            old(buffer).inv(),
        ensures
            final(buffer).inv(),
            looked(old(buffer)@, final(buffer)@),
            settled(final(buffer)@),
            match receiver {
                Some(receiver) => {
                    let i = final(buffer)@.looks.len() - old(buffer)@.looks.len() - 2;
                    &&& searched(old(buffer)@, final(buffer)@, true, Some(i))
                    &&& final(buffer)@.looks.last() == (Look::Loaded {
                        index: i,
                        slots: final(buffer)@.slots,
                    })
                    &&& receiver.expected() == final(buffer)@.slots[i].state.seq_no
                    &&& receiver.expected() < DIRTY_MASK
                    &&& T::default.ensures((), receiver.held())
                    &&& on_course(old(buffer)@.slots) ==> tracks(
                        final(buffer)@.slots,
                        receiver.expected(),
                    )
                    &&& old(buffer)@.steady ==> starts_at(
                        old(buffer)@.slots,
                        receiver.expected(),
                    )
                },
                None => {
                    &&& searched(old(buffer)@, final(buffer)@, true, None)
                    &&& final(buffer)@.looks.len() == old(buffer)@.looks.len()
                        + old(buffer)@.slots.len()
                },
            },
            old(buffer)@.steady ==> (receiver is Some <==> has_active(old(buffer)@.slots)),
    {
        let ghost first = buffer@.looks.len() as int;
        let n = buffer.capacity();
        let mut i: usize = 0;
        proof {
            lemma_evolves_refl(buffer@.slots);
        }
        while i < n
            invariant
                buffer.inv(),
                looked(old(buffer)@, buffer@),
                settled(buffer@),
                n == buffer@.slots.len(),
                i <= n,
                first == old(buffer)@.looks.len(),
                buffer@.looks.len() == first + i,
                forall|j: int|
                    #![trigger buffer@.looks[first + j]]
                    0 <= j < i ==> buffer@.looks[first + j].loads(j) && !stops(
                        buffer@.looks[first + j].ring()[j],
                        true,
                    ),
                buffer@.steady ==> forall|j: int|
                    0 <= j < i ==> !active(#[trigger] buffer@.slots[j]),
            decreases n - i,
        {
            let ghost b0 = buffer@;
            let stamp = buffer.load(i);
            let ghost b1 = buffer@;
            proof {
                lemma_looked_trans(old(buffer)@, b0, b1);
            }
            if stamp.dirty && stamp.seq_no != 0 {
                let again = buffer.load(i);
                proof {
                    lemma_looked_trans(old(buffer)@, b1, buffer@);
                    lemma_below(again);
                    assert(slot_evolves(
                        b1.slots[i as int],
                        buffer@.slots[i as int],
                        b1.slots.len() as int,
                    ));
                    if on_course(old(buffer)@.slots) {
                        lemma_tracks_active(old(buffer)@.slots, buffer@.slots, i as int);
                    }
                    if old(buffer)@.steady {
                        assert(first_active(old(buffer)@.slots, i as int));
                    }
                }
                return Some(Receiver { seq_no: again.seq_no, recv_payload: T::default() });
            }
            i = i + 1;
        }
        None
    }
}

/// A stamp that a word can hold has a number below the dirty flag.
proof fn lemma_below(stamp: Stamp)
    requires
        stamp.kept() == stamp,
    ensures
        stamp.seq_no < DIRTY_MASK,
{
}

impl<T: Clone> Receiver<T> {
    /// The state of the slot of message `seq_no`, without waiting.
    fn load_state<B: Buffer<T, Stamp>>(&self, buffer: &mut B, seq_no: u64) -> (stamp: Stamp)
        requires
            old(buffer).inv(),
            is_capacity(old(buffer)@.slots.len() as int),
        ensures
            final(buffer).inv(),
            stamp == final(buffer)@.slots[slot_of(old(buffer)@.slots, seq_no)].state,
            stamp.seq_no < DIRTY_MASK,
            watched(
                old(buffer)@,
                final(buffer)@,
                slot_of(old(buffer)@.slots, seq_no),
                stamp.dirty,
            ),
            final(buffer)@.looks == old(buffer)@.looks.push(
                Look::Loaded {
                    index: slot_of(old(buffer)@.slots, seq_no),
                    slots: final(buffer)@.slots,
                },
            ),
            vouches(final(buffer)@, slot_of(old(buffer)@.slots, seq_no)),
    {
        let index = slot_index(seq_no, buffer.capacity());
        let stamp = buffer.load(index);
        proof {
            lemma_below(stamp);
        }
        stamp
    }

    /// Waits until the current slot is clean, and returns the number in it, which is the
    /// number of the message that the receiver expects from then on.
    ///
    /// If the receiver was overtaken, that number is greater than the one that it expected,
    /// by a multiple of the capacity.
    pub fn wait<B: Buffer<T, Stamp>>(&mut self, buffer: &mut B) -> (seq_no: u64)
        requires
            old(buffer).inv(),
            is_capacity(old(buffer)@.slots.len() as int),
            old(buffer)@.live.contains(slot_of(old(buffer)@.slots, old(self).expected())),
        ensures
            final(buffer).inv(),
            final(buffer)@.slots[slot_of(old(buffer)@.slots, old(self).expected())].state == (
            Stamp { dirty: false, seq_no }),
            seq_no < DIRTY_MASK,
            watched(
                old(buffer)@,
                final(buffer)@,
                slot_of(old(buffer)@.slots, old(self).expected()),
                false,
            ),
            waited(
                old(buffer)@.looks,
                final(buffer)@.looks,
                slot_of(old(buffer)@.slots, old(self).expected()),
            ),
            final(buffer)@.looks.last().ring() == final(buffer)@.slots,
            vouches(final(buffer)@, slot_of(old(buffer)@.slots, old(self).expected())),
            tracks(old(buffer)@.slots, old(self).expected()) ==> {
                &&& seq_no >= old(self).expected()
                &&& congruent(
                    seq_no as int,
                    old(self).expected() as int,
                    old(buffer)@.slots.len() as int,
                )
                &&& tracks(final(buffer)@.slots, seq_no)
            },
            final(self).expected() == seq_no,
            final(self).held() == old(self).held(),
    {
        let ghost i = slot_of(buffer@.slots, self.seq_no);
        let mut stamp = self.load_state(buffer, self.seq_no);
        while stamp.dirty
            invariant
                buffer.inv(),
                is_capacity(buffer@.slots.len() as int),
                buffer@.slots.len() == old(buffer)@.slots.len(),
                i == slot_of(old(buffer)@.slots, self.seq_no),
                self.seq_no == old(self).seq_no,
                self.recv_payload == old(self).recv_payload,
                old(buffer)@.live.contains(i),
                watched(old(buffer)@, buffer@, i, false),
                stamp == buffer@.slots[i].state,
                stamp.seq_no < DIRTY_MASK,
                vouches(buffer@, i),
                buffer@.looks.len() > old(buffer)@.looks.len(),
                buffer@.looks.last() == (Look::Loaded { index: i, slots: buffer@.slots }),
                forall|k: int|
                    #![trigger buffer@.looks[k]]
                    old(buffer)@.looks.len() <= k < buffer@.looks.len() - 1
                        ==> buffer@.looks[k].loads(i)
                        && buffer@.looks[k].ring()[i].state.is_dirty(),
            decreases buffer@.delay, (if stamp.dirty { 1int } else { 0 }),
        {
            let ghost b0 = buffer@;
            core::hint::spin_loop();
            stamp = self.load_state(buffer, self.seq_no);
            proof {
                lemma_watched_trans(old(buffer)@, b0, buffer@, i, false, stamp.dirty);
            }
        }
        proof {
            if tracks(old(buffer)@.slots, old(self).seq_no) {
                lemma_tracks_evolves(old(buffer)@.slots, buffer@.slots, old(self).seq_no);
                lemma_tracks_slot(buffer@.slots, old(self).seq_no);
            }
        }
        self.seq_no = stamp.seq_no;
        stamp.seq_no
    }

    /// Receives the next message, waiting for it if need be, and returns its number and its
    /// payload.
    ///
    /// The payload is copied, and the copy is delivered only if the slot still holds the same
    /// message afterwards. A receiver that was overtaken gets a later message: a gap in the
    /// numbers tells how many it missed.
    pub fn recv<'a, B: Buffer<T, Stamp>>(&'a mut self, buffer: &mut B) -> (received: (u64, &'a T))
        requires
            old(buffer).inv(),
            is_capacity(old(buffer)@.slots.len() as int),
            old(buffer)@.live.contains(slot_of(old(buffer)@.slots, old(self).expected())),
            tracks(old(buffer)@.slots, old(self).expected()),
        ensures
            final(buffer).inv(),
            receives(
                *old(self),
                old(buffer)@,
                *final(self),
                final(buffer)@,
                received.0,
                *received.1,
            ),
    {
        let ghost i = slot_of(buffer@.slots, self.seq_no);
        let ghost first = self.seq_no;
        proof {
            lemma_watched_refl(buffer@, i);
            lemma_congruent(first as int, first as int, 0, buffer@.slots.len() as int);
        }
        loop
            invariant
                buffer.inv(),
                is_capacity(buffer@.slots.len() as int),
                first == old(self).seq_no,
                i == slot_of(old(buffer)@.slots, first),
                i == slot_of(buffer@.slots, self.seq_no),
                old(buffer)@.live.contains(i),
                watched(old(buffer)@, buffer@, i, false),
                tracks(old(buffer)@.slots, first),
                tracks(buffer@.slots, self.seq_no),
            decreases buffer@.delay,
        {
            let ghost b0 = buffer@;
            let seq_no = self.wait(buffer);
            let ghost b1 = buffer@;
            proof {
                lemma_tracks_evolves(old(buffer)@.slots, b0.slots, first);
                lemma_watched_trans(old(buffer)@, b0, b1, i, false, false);
                lemma_tracks_evolves(old(buffer)@.slots, b1.slots, first);
                lemma_tracks_slot(b1.slots, first);
            }
            let index = slot_index(seq_no, buffer.capacity());
            buffer.copy_payload(index, &mut self.recv_payload);
            let ghost b2 = buffer@;
            let stamp = self.load_state(buffer, seq_no);
            let ghost b3 = buffer@;
            proof {
                lemma_watched_trans(old(buffer)@, b1, b2, i, false, false);
                lemma_watched_trans(old(buffer)@, b2, b3, i, false, stamp.dirty);
                lemma_watched_trans(b1, b2, b3, i, false, stamp.dirty);
                lemma_tracks_evolves(old(buffer)@.slots, b3.slots, first);
            }
            if stamp.seq_no == seq_no {
                proof {
                    assert(slot_evolves(b1.slots[i], b2.slots[i], b1.slots.len() as int));
                    assert(slot_evolves(b2.slots[i], b3.slots[i], b1.slots.len() as int));
                    if orderly(old(buffer)@.slots) {
                        lemma_tracks_next(b3.slots, seq_no);
                    }
                }
                self.seq_no = seq_no + 1;
                return (seq_no, &self.recv_payload);
            }
            proof {
                lemma_tracks_evolves(b1.slots, b3.slots, seq_no);
            }
        }
    }

    /// Receives the next message if it is there, without waiting.
    ///
    /// Returns the number of the message with its payload if the slot is clean and was not
    /// overwritten while the payload was copied. Returns the number in the slot with no payload
    /// if the slot is dirty, or was overwritten; the receiver then stays at the slot, and
    /// expects the message of that number.
    pub fn try_recv<'a, B: Buffer<T, Stamp>>(&'a mut self, buffer: &mut B) -> (received: (
        u64,
        Option<&'a T>,
    ))
        requires
            old(buffer).inv(),
            is_capacity(old(buffer)@.slots.len() as int),
        ensures
            final(buffer).inv(),
            tries(*old(self), old(buffer)@, *final(self), final(buffer)@, received.0, received.1),
    {
        let ghost b0 = buffer@;
        let ghost first = self.seq_no;
        let ghost i = slot_of(b0.slots, first);
        let stamp = self.load_state(buffer, self.seq_no);
        let ghost b1 = buffer@;
        let seq_no = stamp.seq_no;
        proof {
            lemma_mod_bound(first as int, b0.slots.len() as int);
            lemma_mod_bound(seq_no as int, b0.slots.len() as int);
            if tracks(b0.slots, first) {
                lemma_tracks_evolves(b0.slots, b1.slots, first);
                lemma_tracks_slot(b1.slots, first);
            }
        }
        if !stamp.dirty {
            let index = slot_index(seq_no, buffer.capacity());
            buffer.copy_payload(index, &mut self.recv_payload);
            let ghost b2 = buffer@;
            let again = self.load_state(buffer, seq_no);
            let ghost b3 = buffer@;
            proof {
                lemma_looked_trans(b1, b2, b3);
                lemma_looked_trans(b0, b1, b3);
                assert(slot_evolves(
                    b1.slots[index as int],
                    b2.slots[index as int],
                    b1.slots.len() as int,
                ));
                assert(slot_evolves(
                    b2.slots[index as int],
                    b3.slots[index as int],
                    b1.slots.len() as int,
                ));
                assert(slot_evolves(
                    b0.slots[i],
                    b1.slots[i],
                    b1.slots.len() as int,
                ));
                if tracks(b0.slots, first) {
                    lemma_tracks_evolves(b0.slots, b3.slots, first);
                    lemma_tracks_slot(b3.slots, first);
                    if again.seq_no == seq_no && orderly(b0.slots) {
                        lemma_tracks_next(b3.slots, seq_no);
                    }
                }
            }
            if again.seq_no == seq_no {
                self.seq_no = seq_no + 1;
                (seq_no, Some(&self.recv_payload))
            } else {
                self.seq_no = again.seq_no;
                (again.seq_no, None)
            }
        } else {
            self.seq_no = seq_no;
            (seq_no, None)
        }
    }

    /// Waits until the current slot is clean, and lends out its payload in place.
    ///
    /// The sender may overwrite the slot at any time, so what is read through the reference
    /// counts only if [`Receiver::advance`] confirms afterwards that the slot still holds the
    /// message:
    ///
    /// ```ignore
    /// loop {
    ///     let (seq_no, payload) = rx.peek_unsafe(&mut buffer);
    ///     // ... use `payload`, ready to take it back ...
    ///     if rx.advance(&mut buffer) {
    ///         break;
    ///     }
    /// }
    /// ```
    pub fn peek_unsafe<'b, B: Buffer<T, Stamp>>(&mut self, buffer: &'b mut B) -> (peeked: (
        u64,
        &'b T,
    ))
        requires
            old(buffer).inv(),
            is_capacity(old(buffer)@.slots.len() as int),
            old(buffer)@.live.contains(slot_of(old(buffer)@.slots, old(self).expected())),
        ensures
            final(buffer).inv(),
            peeks(*old(self), old(buffer)@, *final(self), final(buffer)@, peeked.0, *peeked.1),
    {
        let ghost first = self.seq_no;
        let seq_no = self.wait(buffer);
        proof {
            if tracks(old(buffer)@.slots, first) {
                lemma_tracks_evolves(old(buffer)@.slots, buffer@.slots, first);
                lemma_tracks_slot(buffer@.slots, first);
            }
        }
        let index = slot_index(seq_no, buffer.capacity());
        (seq_no, buffer.payload(index))
    }

    /// Lends out the payload of the current slot in place if the slot is clean, without
    /// waiting. What is read through the reference has to be confirmed by
    /// [`Receiver::advance`].
    pub fn try_peek_unsafe<'b, B: Buffer<T, Stamp>>(&mut self, buffer: &'b mut B) -> (peeked: (
        u64,
        Option<&'b T>,
    ))
        requires
            old(buffer).inv(),
            is_capacity(old(buffer)@.slots.len() as int),
        ensures
            final(buffer).inv(),
            final(buffer)@.slots[slot_of(old(buffer)@.slots, old(self).expected())].state == (
            Stamp { dirty: peeked.1 is None, seq_no: peeked.0 }),
            old(buffer)@.steady && peeked.1 is Some ==> *peeked.1->0 == old(buffer)@.slots[slot_of(
                old(buffer)@.slots,
                peeked.0,
            )].payload,
            watched(
                old(buffer)@,
                final(buffer)@,
                slot_of(old(buffer)@.slots, old(self).expected()),
                peeked.1 is None,
            ),
            ({
                let loaded = old(buffer)@.looks.push(
                    Look::Loaded {
                        index: slot_of(old(buffer)@.slots, old(self).expected()),
                        slots: final(buffer)@.slots,
                    },
                );
                final(buffer)@.looks == match peeked.1 {
                    Some(payload) => loaded.push(
                        Look::Lent {
                            index: slot_of(old(buffer)@.slots, peeked.0),
                            slots: final(buffer)@.slots,
                            value: *payload,
                        },
                    ),
                    None => loaded,
                }
            }),
            tracks(old(buffer)@.slots, old(self).expected()) ==> {
                &&& peeked.0 >= old(self).expected()
                &&& slot_of(old(buffer)@.slots, peeked.0) == slot_of(
                    old(buffer)@.slots,
                    old(self).expected(),
                )
                &&& tracks(final(buffer)@.slots, peeked.0)
            },
            final(self).expected() == peeked.0,
            final(self).held() == old(self).held(),
    {
        let ghost first = self.seq_no;
        let stamp = self.load_state(buffer, self.seq_no);
        proof {
            if tracks(old(buffer)@.slots, first) {
                lemma_tracks_evolves(old(buffer)@.slots, buffer@.slots, first);
                lemma_tracks_slot(buffer@.slots, first);
            }
        }
        self.seq_no = stamp.seq_no;
        if stamp.dirty {
            (stamp.seq_no, None)
        } else {
            let index = slot_index(stamp.seq_no, buffer.capacity());
            (stamp.seq_no, Some(buffer.payload(index)))
        }
    }

    /// Goes on to the next message if the current slot still holds the expected one, and says
    /// whether it does. If it does not, the slot was overwritten: the receiver stays at it, and
    /// expects the message that it holds.
    pub fn advance<B: Buffer<T, Stamp>>(&mut self, buffer: &mut B) -> (valid: bool)
        requires
            old(buffer).inv(),
            is_capacity(old(buffer)@.slots.len() as int),
        ensures
            final(buffer).inv(),
            advances(*old(self), old(buffer)@, *final(self), final(buffer)@, valid),
    {
        let ghost first = self.seq_no;
        let stamp = self.load_state(buffer, self.seq_no);
        proof {
            if tracks(old(buffer)@.slots, first) {
                lemma_tracks_evolves(old(buffer)@.slots, buffer@.slots, first);
                lemma_tracks_slot(buffer@.slots, first);
                if stamp.seq_no == first && !stamp.dirty && orderly(old(buffer)@.slots) {
                    lemma_tracks_next(buffer@.slots, first);
                }
            }
        }
        let valid = self.seq_no == stamp.seq_no;
        self.seq_no = if valid {
            stamp.seq_no + 1
        } else {
            stamp.seq_no
        };
        valid
    }
}

/// Creates an in-process channel, backed by a ring on the heap of at least `capacity`
/// slots, rounded up to a power of two and never fewer than 2.
pub fn local_channel<T: Clone + Default>(capacity: usize) -> (channel: (
    Sender,
    Receiver<T>,
    HeapBuffer<T>,
))
    requires
        capacity <= usize::MAX / 2 + 1,
    ensures
        channel.0.next() == 1,
        channel.1.expected() == 1,
        T::default.ensures((), channel.1.held()),
        channel.2.inv(),
        is_capacity(channel.2@.slots.len() as int),
        channel.2@.slots.len() >= capacity,
        forall|m: int| is_capacity(m) && m >= capacity ==> channel.2@.slots.len() <= m,
        initial(channel.2@.slots),
        settled(channel.2@),
        channel.0.in_step(channel.2@.slots),
        tracks(channel.2@.slots, channel.1.expected()),
{
    let mut buffer = HeapBuffer::new(capacity);
    let sender = Sender::new(&mut buffer);
    proof {
        assert(first_active(buffer@.slots, 1));
        lemma_initial(buffer@.slots);
    }
    let receiver = Receiver::new(&mut buffer);
    proof {
        assert(receiver is Some);
    }
    (sender, receiver.unwrap(), buffer)
}

} // verus!
