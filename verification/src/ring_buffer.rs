//! The broadcast ring of a fixed length, walked slot by slot.
//!
//! Sender and receivers keep the index of a slot rather than compute it from a sequence
//! number. Message 1 falls on slot 0, message 2 on slot 1, and so on round the
//! `BUFFER_LEN` slots of the ring. The protocol is that of [`crate::spmc_broadcast`].
use crate::buffer::{
    assign_clone, attempted, copied, extends, lemma_looked_trans, lemma_watched_refl,
    lemma_watched_trans, looked, searched, settled, stops, vouches, waited, watched, Access, Buffer,
    Look, RingModel,
};
use crate::capacity::{following, is_capacity, next_index};
pub use crate::heap_buffer::Message;
use crate::ring::{
    evolves, first_dirty, has_dirty, home, laid, lemma_clear, lemma_evolves_refl,
    lemma_evolves_trans, lemma_fill, lemma_head, lemma_mark, lemma_newest, newest, slot_evolves,
    with_payload, with_state, Slot, Tag,
};
use crate::state::{law_stamp_round_trip, Stamp, DIRTY_MASK};
use vstd::arithmetic::div_mod::{lemma_add_mod_noop, lemma_mod_bound, lemma_small_mod};
use vstd::prelude::*;

verus! {

/// The sequence number after `seq_no`.
pub open spec fn successor(seq_no: u64) -> u64 {
    if seq_no == u64::MAX {
        0
    } else {
        (seq_no + 1) as u64
    }
}

/// The ring after slot `next` was marked dirty, for the message after message `seq_no`.
pub open spec fn marked<T>(slots: Seq<Slot<T, Stamp>>, next: int, seq_no: u64) -> Seq<
    Slot<T, Stamp>,
> {
    with_state(slots, next, (Stamp { dirty: true, seq_no: successor(seq_no) }).kept())
}

/// The ring after `payload` was sent as message `seq_no` from slot `at`: slot `next` was
/// marked dirty, then the payload was written, then the dirty flag was cleared.
pub open spec fn sent<T>(
    slots: Seq<Slot<T, Stamp>>,
    at: int,
    next: int,
    seq_no: u64,
    payload: T,
) -> Seq<Slot<T, Stamp>> {
    with_state(
        with_payload(marked(slots, next, seq_no), at, payload),
        at,
        (Stamp { dirty: false, seq_no }).kept(),
    )
}

/// How a sender goes about it: it marks the next slot, then it writes the payload, and then it
/// clears the flag.
pub open spec fn send_trail<T>(
    slots: Seq<Slot<T, Stamp>>,
    at: int,
    next: int,
    seq_no: u64,
    payload: T,
) -> Seq<Access<T, Stamp>> {
    seq![
        Access::Store { slots: marked(slots, next, seq_no) },
        Access::Lend { index: at, slots: marked(slots, next, seq_no) },
        Access::Store { slots: sent(slots, at, next, seq_no, payload) },
    ]
}

/// A ring in which nothing was sent yet: slot 0 is dirty, for message 1, and the other slots
/// below `len` are empty. The payloads are default values.
pub open spec fn initial<T: Default>(slots: Seq<Slot<T, Stamp>>, len: int) -> bool {
    forall|i: int|
        #![trigger slots[i]]
        0 <= i < len ==> {
            &&& slots[i].state == (if i == 0 {
                Stamp { dirty: true, seq_no: 1 }
            } else {
                Stamp { dirty: false, seq_no: 0 }
            })
            &&& T::default.ensures((), slots[i].payload)
        }
}

/// Whether the first `len` slots of a ring were initialized, one after the other, slot 0 first, and
/// nothing else was changed.
pub open spec fn initialized<T: Default>(
    m: RingModel<T, Stamp>,
    m2: RingModel<T, Stamp>,
    len: int,
) -> bool {
    let first = m.trail.len() as int;
    &&& begun(m.slots, m2.slots, len)
    &&& m2.trail.len() == first + len
    &&& m.trail.is_prefix_of(m2.trail)
    &&& extends(m.looks, m2.looks)
    &&& forall|t: int|
        #![trigger m2.trail[first + t]]
        0 <= t < len ==> m2.trail[first + t] is Store && begun(
            m.slots,
            m2.trail[first + t].ring(),
            t + 1,
        )
}

/// A ring of which the first `len` slots are initialized, and the others are as they were before.
pub open spec fn begun<T: Default>(
    before: Seq<Slot<T, Stamp>>,
    slots: Seq<Slot<T, Stamp>>,
    len: int,
) -> bool {
    &&& slots.len() == before.len()
    &&& initial(slots, len)
    &&& forall|i: int| len <= i < slots.len() ==> #[trigger] slots[i] == before[i]
}

/// A ring in which nothing was sent yet is one in which message 1 is being written.
pub proof fn lemma_initial<T: Default>(slots: Seq<Slot<T, Stamp>>)
    requires
        slots.len() >= 2,
        initial(slots, slots.len() as int),
    ensures
        laid(slots, 1, 1, 1),
{
    let n = slots.len() as int;
    lemma_small_mod(0, n as nat);
    assert(home(1, 1, n) == 0);
    assert forall|i: int| #![trigger slots[i]] 0 <= i < n implies {
        let m = newest(i, 1, 1, n);
        &&& slots[i].state.number() == (if m > 0 {
            m
        } else {
            0
        })
        &&& slots[i].state.is_dirty() == (m >= 1)
    } by {
        lemma_newest(i, 1, 1, n);
    }
}

/// Sending the message that is being written takes a ring to the next message, by steps of the
/// protocol.
pub proof fn lemma_sent<T>(slots: Seq<Slot<T, Stamp>>, at: int, seq_no: u64, payload: T)
    requires
        laid(slots, seq_no as int, seq_no as int, 1),
        at == home(seq_no as int, 1, slots.len() as int),
        seq_no + 1 < DIRTY_MASK,
    ensures
        0 <= at < slots.len(),
        following(at, slots.len() as int) == home(seq_no + 1, 1, slots.len() as int),
        laid(
            sent(slots, at, following(at, slots.len() as int), seq_no, payload),
            seq_no + 1,
            seq_no + 1,
            1,
        ),
        evolves(slots, sent(slots, at, following(at, slots.len() as int), seq_no, payload)),
{
    let n = slots.len() as int;
    let next = following(at, n);
    let dirty = Stamp { dirty: true, seq_no: successor(seq_no) };
    let clean = Stamp { dirty: false, seq_no };
    lemma_mod_bound(seq_no - 1, n);
    lemma_small_mod(at as nat, n as nat);
    lemma_add_mod_noop(seq_no - 1, 1, n);
    lemma_add_mod_noop(at, 1, n);
    law_stamp_round_trip(dirty);
    law_stamp_round_trip(clean);
    let a = with_state(slots, next, dirty);
    let b = with_payload(a, at, payload);
    let c = with_state(b, at, clean);
    lemma_mark(slots, seq_no as int, 1, dirty);
    lemma_fill(a, seq_no as int, seq_no + 1, 1, payload);
    lemma_clear(b, seq_no as int, 1, clean);
    lemma_evolves_trans(slots, a, b);
    lemma_evolves_trans(slots, b, c);
}

/// Single-producer sender for a ring of `BUFFER_LEN` slots.
///
/// There is no backpressure: when the ring is full, a new message overwrites the oldest one.
#[derive(Debug)]
pub struct Sender<const BUFFER_LEN: usize> {
    /// The slot that is dirty, for the message that is sent next.
    position: usize,
    /// The number of the message that is sent next.
    seq_no: u64,
}

impl<const BUFFER_LEN: usize> Sender<BUFFER_LEN> {
    /// The slot of the message that is sent next.
    pub closed spec fn at(&self) -> usize {
        self.position
    }

    /// The number of the message that is sent next.
    pub closed spec fn next(&self) -> u64 {
        self.seq_no
    }

    /// Whether the ring is where the sender takes it to be: the message that is sent next, and
    /// no other, is being written, at the sender's position.
    pub open spec fn in_step<T>(&self, slots: Seq<Slot<T, Stamp>>) -> bool {
        &&& slots.len() == BUFFER_LEN
        &&& laid(slots, self.next() as int, self.next() as int, 1)
        &&& self.at() == home(self.next() as int, 1, slots.len() as int)
    }

    /// Constructs a sender on a ring.
    ///
    /// If the ring has a dirty slot, the sender goes on from its position and number. If not,
    /// the ring is initialized.
    pub fn new<T: Clone + Default, B: Buffer<T, Stamp>>(buffer: &mut B) -> (sender: Self)
        requires
            is_capacity(BUFFER_LEN as int),
            old(buffer).inv(),
            old(buffer)@.steady,
            old(buffer)@.slots.len() >= BUFFER_LEN,
        ensures
            final(buffer).inv(),
            final(buffer)@.steady,
            final(buffer)@.slots.len() == old(buffer)@.slots.len(),
            sender.at() < final(buffer)@.slots.len(),
            forall|i: int| #[trigger]
                first_dirty(old(buffer)@.slots, i) ==> {
                    &&& sender.at() == i
                    &&& sender.next() == old(buffer)@.slots[i].state.seq_no
                    &&& final(buffer)@.slots == old(buffer)@.slots
                    &&& final(buffer)@.trail == old(buffer)@.trail
                    &&& extends(old(buffer)@.looks, final(buffer)@.looks)
                },
            forall|head: int| #[trigger]
                laid(old(buffer)@.slots, head, head, 1) && old(buffer)@.slots.len() == BUFFER_LEN
                    ==> sender.next() == head && sender.in_step(final(buffer)@.slots),
            (forall|i: int|
                0 <= i < old(buffer)@.slots.len() ==> !(
                #[trigger] old(buffer)@.slots[i]).state.dirty) ==> {
                &&& sender.at() == 0
                &&& sender.next() == 1
                &&& initialized(old(buffer)@, final(buffer)@, BUFFER_LEN as int)
                &&& old(buffer)@.slots.len() == BUFFER_LEN ==> sender.in_step(final(buffer)@.slots)
            },
            settled(final(buffer)@),
    {
        let n = buffer.capacity();
        let mut i: usize = 0;
        proof {
            assert forall|head: int| #[trigger] laid(buffer@.slots, head, head, 1) implies ({
                let at = home(head, 1, buffer@.slots.len() as int);
                &&& first_dirty(buffer@.slots, at)
                &&& buffer@.slots[at].state.seq_no == head
            }) by {
                lemma_head(buffer@.slots, head, 1);
            }
        }
        while i < n
            invariant
                buffer.inv(),
                buffer@.steady,
                buffer@.slots == old(buffer)@.slots,
                buffer@.trail == old(buffer)@.trail,
                extends(old(buffer)@.looks, buffer@.looks),
                settled(buffer@),
                n == buffer@.slots.len(),
                i <= n,
                n >= BUFFER_LEN,
                is_capacity(BUFFER_LEN as int),
                forall|head: int| #[trigger]
                    laid(buffer@.slots, head, head, 1) ==> ({
                        let at = home(head, 1, n as int);
                        &&& first_dirty(buffer@.slots, at)
                        &&& buffer@.slots[at].state.seq_no == head
                    }),
                forall|j: int| 0 <= j < i ==> !(#[trigger] buffer@.slots[j]).state.dirty,
            decreases n - i,
        {
            let stamp = buffer.load(i);
            if stamp.dirty {
                let again = buffer.load(i);
                proof {
                    assert(old(buffer)@.slots[i as int].state.dirty);
                }
                return Sender { position: i, seq_no: again.seq_no };
            }
            i = i + 1;
        }
        Self::with_init(buffer)
    }

    /// Constructs a sender and initializes the ring, whatever was in it: slot 0 is dirty, for
    /// message 1, the other slots are empty, and the payloads are default values.
    pub fn with_init<T: Clone + Default, B: Buffer<T, Stamp>>(buffer: &mut B) -> (sender: Self)
        requires
            is_capacity(BUFFER_LEN as int),
            old(buffer).inv(),
            old(buffer)@.slots.len() >= BUFFER_LEN,
        ensures
            final(buffer).inv(),
            final(buffer)@.steady == old(buffer)@.steady,
            final(buffer)@.slots.len() == old(buffer)@.slots.len(),
            sender.at() == 0,
            sender.next() == 1,
            initialized(old(buffer)@, final(buffer)@, BUFFER_LEN as int),
            old(buffer)@.slots.len() == BUFFER_LEN ==> sender.in_step(final(buffer)@.slots),
            settled(final(buffer)@),
    {
        buffer.replace(0, Stamp { dirty: true, seq_no: 1 }, T::default());
        let mut i: usize = 1;
        while i < BUFFER_LEN
            invariant
                buffer.inv(),
                buffer@.steady == old(buffer)@.steady,
                buffer@.slots.len() == old(buffer)@.slots.len(),
                BUFFER_LEN <= buffer@.slots.len(),
                is_capacity(BUFFER_LEN as int),
                1 <= i <= BUFFER_LEN,
                initialized(old(buffer)@, buffer@, i as int),
                settled(buffer@),
            decreases BUFFER_LEN - i,
        {
            buffer.replace(i, Stamp { dirty: false, seq_no: 0 }, T::default());
            i = i + 1;
        }
        proof {
            if buffer@.slots.len() == BUFFER_LEN {
                lemma_initial(buffer@.slots);
                lemma_small_mod(0, BUFFER_LEN as nat);
            }
        }
        Sender { position: 0, seq_no: 1 }
    }

    /// Sends a clone of `payload`, and returns the number of the message.
    pub fn send<T: Clone, B: Buffer<T, Stamp>>(&mut self, buffer: &mut B, payload: &T) -> (seq_no:
        u64)
        requires
            is_capacity(BUFFER_LEN as int),
            old(buffer).inv(),
            old(buffer)@.slots.len() >= BUFFER_LEN,
            old(self).at() < old(buffer)@.slots.len(),
        ensures
            seq_no == old(self).next(),
            final(self).at() == following(old(self).at() as int, BUFFER_LEN as int),
            final(self).next() == successor(old(self).next()),
            final(buffer).inv(),
            final(buffer)@.steady == old(buffer)@.steady,
            exists|p: T| #[trigger]
                cloned(*payload, p) && final(buffer)@.slots == sent(
                    old(buffer)@.slots,
                    old(self).at() as int,
                    final(self).at() as int,
                    old(self).next(),
                    p,
                ) && final(buffer)@.trail == old(buffer)@.trail + send_trail(
                    old(buffer)@.slots,
                    old(self).at() as int,
                    final(self).at() as int,
                    old(self).next(),
                    p,
                ),
            final(buffer)@.looks == old(buffer)@.looks,
            settled(final(buffer)@),
            old(self).in_step(old(buffer)@.slots) && old(self).next() + 1 < DIRTY_MASK ==> {
                &&& final(self).in_step(final(buffer)@.slots)
                &&& evolves(old(buffer)@.slots, final(buffer)@.slots)
            },
    {
        let next_position = next_index(self.position, BUFFER_LEN);
        let seq_no = self.seq_no;
        let next_seq_no: u64 = seq_no.wrapping_add(1);
        buffer.store(next_position, Stamp { dirty: true, seq_no: next_seq_no });
        let slot = buffer.payload_mut(self.position);
        assign_clone(slot, payload);
        let ghost copy = *slot;
        proof {
            assert(cloned(*payload, copy));
            if self.in_step(old(buffer)@.slots) && seq_no + 1 < DIRTY_MASK {
                lemma_sent(old(buffer)@.slots, self.position as int, seq_no, copy);
            }
        }
        buffer.store(self.position, Stamp { dirty: false, seq_no });
        assert(buffer@.trail =~= old(buffer)@.trail + send_trail(
            old(buffer)@.slots,
            self.position as int,
            next_position as int,
            seq_no,
            copy,
        ));
        self.position = next_position;
        self.seq_no = next_seq_no;
        seq_no
    }
}

/// Receiving handle on a ring of `BUFFER_LEN` slots.
///
/// A receiver never changes the ring. It keeps the slot that it reads next, and a payload of its
/// own, which the references that it hands out point to. It can lag behind the sender; if its
/// slot is overwritten, it sees it by the number in the slot.
#[derive(Debug)]
pub struct Receiver<T, const BUFFER_LEN: usize> {
    /// The slot that is read next.
    position: usize,
    /// The payload received last.
    recv_slot: T,
    /// The number of the message peeked at last.
    recv_seq_no: u64,
}

impl<T, const BUFFER_LEN: usize> Receiver<T, BUFFER_LEN> {
    /// The slot that is read next.
    pub closed spec fn at(&self) -> usize {
        self.position
    }

    /// The payload received last.
    pub closed spec fn held(&self) -> T {
        self.recv_slot
    }

    /// The number of the message peeked at last.
    pub closed spec fn peeked(&self) -> u64 {
        self.recv_seq_no
    }
}

impl<T: Clone + Default, const BUFFER_LEN: usize> Receiver<T, BUFFER_LEN> {
    /// Constructs a receiver positioned at the slot that is being written.
    ///
    /// There is none if no dirty slot is found: then the ring was never initialized, or the
    /// sender was faster than the search.
    pub fn new<B: Buffer<T, Stamp>>(buffer: &mut B) -> (receiver: Option<Self>)
        requires
            is_capacity(BUFFER_LEN as int),
            old(buffer).inv(),
        ensures
            final(buffer).inv(),
            looked(old(buffer)@, final(buffer)@),
            settled(final(buffer)@),
            match receiver {
                Some(receiver) => {
                    &&& receiver.at() < final(buffer)@.slots.len()
                    &&& final(buffer)@.slots[receiver.at() as int].state.dirty
                    &&& receiver.peeked() == 0
                    &&& searched(old(buffer)@, final(buffer)@, false, Some(receiver.at() as int))
                    &&& final(buffer)@.looks.len() == old(buffer)@.looks.len() + receiver.at() + 1
                    &&& final(buffer)@.looks.last() == (Look::Loaded {
                        index: receiver.at() as int,
                        slots: final(buffer)@.slots,
                    })
                    &&& T::default.ensures((), receiver.held())
                    &&& old(buffer)@.steady ==> first_dirty(
                        old(buffer)@.slots,
                        receiver.at() as int,
                    )
                },
                None => {
                    &&& searched(old(buffer)@, final(buffer)@, false, None)
                    &&& final(buffer)@.looks.len() == old(buffer)@.looks.len()
                        + old(buffer)@.slots.len()
                },
            },
            old(buffer)@.steady ==> (receiver is Some <==> has_dirty(old(buffer)@.slots)),
    {
        let ghost first = buffer@.looks.len() as int;
        let n = buffer.capacity();
        let mut i: usize = 0;
        proof {
            lemma_evolves_refl(buffer@.slots);
        }
        while i < n
            invariant
                buffer.inv(),
                looked(old(buffer)@, buffer@),
                settled(buffer@),
                n == buffer@.slots.len(),
                i <= n,
                first == old(buffer)@.looks.len(),
                buffer@.looks.len() == first + i,
                forall|j: int|
                    #![trigger buffer@.looks[first + j]]
                    0 <= j < i ==> buffer@.looks[first + j].loads(j) && !stops(
                        buffer@.looks[first + j].ring()[j],
                        false,
                    ),
                buffer@.steady ==> forall|j: int|
                    0 <= j < i ==> !(#[trigger] buffer@.slots[j]).state.dirty,
            decreases n - i,
        {
            let ghost b0 = buffer@;
            let stamp = buffer.load(i);
            proof {
                lemma_looked_trans(old(buffer)@, b0, buffer@);
            }
            if stamp.dirty {
                proof {
                    if old(buffer)@.steady {
                        assert(first_dirty(old(buffer)@.slots, i as int));
                    }
                }
                return Some(Receiver { position: i, recv_slot: T::default(), recv_seq_no: 0 });
            }
            i = i + 1;
        }
        None
    }
}

impl<T: Clone, const BUFFER_LEN: usize> Receiver<T, BUFFER_LEN> {
    /// Receives the next message, waiting for it if need be, and returns its number and its
    /// payload.
    ///
    /// The payload is copied, and the copy is delivered only if the slot still holds the same
    /// message afterwards.
    pub fn recv<'a, B: Buffer<T, Stamp>>(&'a mut self, buffer: &mut B) -> (received: (u64, &'a T))
        requires
            is_capacity(BUFFER_LEN as int),
            old(buffer).inv(),
            old(self).at() < old(buffer)@.slots.len(),
            old(buffer)@.live.contains(old(self).at() as int),
        ensures
            final(buffer).inv(),
            watched(old(buffer)@, final(buffer)@, old(self).at() as int, false),
            final(buffer)@.slots[old(self).at() as int].state == (Stamp {
                dirty: false,
                seq_no: received.0,
            }),
            cloned(final(buffer)@.slots[old(self).at() as int].payload, *received.1),
            copied(final(buffer)@, old(self).at() as int, received.0, *received.1),
            final(self).at() == following(old(self).at() as int, BUFFER_LEN as int),
            final(self).held() == *received.1,
            final(self).peeked() == old(self).peeked(),
    {
        let ghost i = self.position as int;
        proof {
            lemma_watched_refl(buffer@, i);
        }
        loop
            invariant
                is_capacity(BUFFER_LEN as int),
                buffer.inv(),
                i == self.position,
                self.position == old(self).position,
                self.recv_seq_no == old(self).recv_seq_no,
                0 <= i < buffer@.slots.len(),
                old(buffer)@.live.contains(i),
                watched(old(buffer)@, buffer@, i, false),
            decreases buffer@.delay,
        {
            let ghost b0 = buffer@;
            let seq_no = self.load_state(buffer);
            let ghost b1 = buffer@;
            buffer.copy_payload(self.position, &mut self.recv_slot);
            let ghost b2 = buffer@;
            let again = self.try_load_state(buffer);
            let ghost b3 = buffer@;
            proof {
                lemma_watched_trans(old(buffer)@, b0, b1, i, false, false);
                lemma_watched_trans(old(buffer)@, b1, b2, i, false, false);
                lemma_watched_trans(old(buffer)@, b2, b3, i, false, again.0);
                assert(slot_evolves(b1.slots[i], b2.slots[i], b1.slots.len() as int));
                assert(slot_evolves(b2.slots[i], b3.slots[i], b1.slots.len() as int));
            }
            if again.1 == seq_no {
                self.advance();
                return (seq_no, &self.recv_slot);
            }
        }
    }

    /// Receives the next message if it is there, without waiting.
    ///
    /// Returns the number of the message with its payload, and goes on to the next slot, if the
    /// slot is clean and was not overwritten while the payload was copied. Otherwise returns the
    /// number in the slot with no payload, and stays at the slot.
    pub fn try_recv<'a, B: Buffer<T, Stamp>>(&'a mut self, buffer: &mut B) -> (received: (
        u64,
        Option<&'a T>,
    ))
        requires
            is_capacity(BUFFER_LEN as int),
            old(buffer).inv(),
            old(self).at() < old(buffer)@.slots.len(),
        ensures
            final(buffer).inv(),
            looked(old(buffer)@, final(buffer)@),
            attempted(
                old(buffer)@,
                final(buffer)@,
                old(self).at() as int,
                old(self).at() as int,
                received.1 is Some,
                old(self).held(),
                final(self).held(),
            ),
            ({
                let before = old(buffer)@.slots[old(self).at() as int];
                let slot = final(buffer)@.slots[old(self).at() as int];
                &&& slot.state.seq_no == received.0
                &&& received.1 is Some ==> {
                    &&& !slot.state.dirty
                    &&& cloned(slot.payload, *received.1->0)
                    &&& *received.1->0 == final(self).held()
                    &&& final(self).at() == following(old(self).at() as int, BUFFER_LEN as int)
                }
                &&& received.1 is None ==> {
                    &&& slot.state.dirty || slot.state != before.state
                    &&& final(self).at() == old(self).at()
                }
            }),
            final(self).peeked() == old(self).peeked(),
    {
        let ghost i = self.position as int;
        let ghost b0 = buffer@;
        let (dirty, seq_no) = self.try_load_state(buffer);
        if !dirty {
            let ghost b1 = buffer@;
            buffer.copy_payload(self.position, &mut self.recv_slot);
            let ghost b2 = buffer@;
            let again = self.try_load_state(buffer);
            let ghost b3 = buffer@;
            proof {
                lemma_looked_trans(b0, b1, b2);
                lemma_looked_trans(b0, b2, b3);
                assert(slot_evolves(b0.slots[i], b1.slots[i], b1.slots.len() as int));
                assert(slot_evolves(b1.slots[i], b2.slots[i], b1.slots.len() as int));
                assert(slot_evolves(b2.slots[i], b3.slots[i], b1.slots.len() as int));
            }
            if again.1 == seq_no {
                self.advance();
                (seq_no, Some(&self.recv_slot))
            } else {
                (again.1, None)
            }
        } else {
            (seq_no, None)
        }
    }

    /// Waits until the current slot is clean, and lends out its payload in place.
    ///
    /// The sender may overwrite the slot at any time, so what is read through the reference
    /// counts only if [`Receiver::advance_checked`] confirms afterwards that the slot still holds
    /// the message.
    pub fn peek_unsafe<'b, B: Buffer<T, Stamp>>(&mut self, buffer: &'b mut B) -> (peeked: (
        u64,
        &'b T,
    ))
        requires
            old(buffer).inv(),
            old(self).at() < old(buffer)@.slots.len(),
            old(buffer)@.live.contains(old(self).at() as int),
        ensures
            final(buffer).inv(),
            final(buffer)@.looks.len() > old(buffer)@.looks.len(),
            waited(old(buffer)@.looks, final(buffer)@.looks.drop_last(), old(self).at() as int),
            final(buffer)@.looks.last() == (Look::Lent {
                index: old(self).at() as int,
                slots: final(buffer)@.slots,
                value: *peeked.1,
            }),
            watched(old(buffer)@, final(buffer)@, old(self).at() as int, false),
            final(buffer)@.slots[old(self).at() as int].state == (Stamp {
                dirty: false,
                seq_no: peeked.0,
            }),
            old(buffer)@.steady ==> *peeked.1 == old(buffer)@.slots[old(self).at() as int].payload,
            final(self).at() == old(self).at(),
            final(self).held() == old(self).held(),
            final(self).peeked() == peeked.0,
    {
        let seq_no = self.load_state(buffer);
        self.recv_seq_no = seq_no;
        (seq_no, buffer.payload(self.position))
    }

    /// Lends out the payload of the current slot in place if the slot is clean, without waiting.
    /// What is read through the reference has to be confirmed by [`Receiver::advance_checked`].
    pub fn try_peek_unsafe<'b, B: Buffer<T, Stamp>>(&mut self, buffer: &'b mut B) -> (peeked: (
        u64,
        Option<&'b T>,
    ))
        requires
            old(buffer).inv(),
            old(self).at() < old(buffer)@.slots.len(),
        ensures
            final(buffer).inv(),
            ({
                let loaded = old(buffer)@.looks.push(
                    Look::Loaded { index: old(self).at() as int, slots: final(buffer)@.slots },
                );
                final(buffer)@.looks == match peeked.1 {
                    Some(payload) => loaded.push(
                        Look::Lent {
                            index: old(self).at() as int,
                            slots: final(buffer)@.slots,
                            value: *payload,
                        },
                    ),
                    None => loaded,
                }
            }),
            watched(
                old(buffer)@,
                final(buffer)@,
                old(self).at() as int,
                peeked.1 is None,
            ),
            final(buffer)@.slots[old(self).at() as int].state == (Stamp {
                dirty: peeked.1 is None,
                seq_no: peeked.0,
            }),
            old(buffer)@.steady && peeked.1 is Some ==> *peeked.1->0
                == old(buffer)@.slots[old(self).at() as int].payload,
            final(self).at() == old(self).at(),
            final(self).held() == old(self).held(),
            final(self).peeked() == (if peeked.1 is Some {
                peeked.0
            } else {
                old(self).peeked()
            }),
    {
        let (dirty, seq_no) = self.try_load_state(buffer);
        if !dirty {
            self.recv_seq_no = seq_no;
            (seq_no, Some(buffer.payload(self.position)))
        } else {
            (seq_no, None)
        }
    }

    /// Goes on to the next slot if the current one still holds the message that was peeked at,
    /// and says whether it does. If it does not, the slot was overwritten, and the receiver stays
    /// at it.
    pub fn advance_checked<B: Buffer<T, Stamp>>(&mut self, buffer: &mut B) -> (valid: bool)
        requires
            is_capacity(BUFFER_LEN as int),
            old(buffer).inv(),
            old(self).at() < old(buffer)@.slots.len(),
        ensures
            final(buffer).inv(),
            looked(old(buffer)@, final(buffer)@),
            final(buffer)@.looks == old(buffer)@.looks.push(
                Look::Loaded { index: old(self).at() as int, slots: final(buffer)@.slots },
            ),
            vouches(final(buffer)@, old(self).at() as int),
            valid == (final(buffer)@.slots[old(self).at() as int].state.seq_no
                == old(self).peeked()),
            final(self).at() == (if valid {
                following(old(self).at() as int, BUFFER_LEN as int)
            } else {
                old(self).at() as int % BUFFER_LEN as int
            }),
            final(self).held() == old(self).held(),
            final(self).peeked() == old(self).peeked(),
    {
        let (_, seq_no) = self.try_load_state(buffer);
        let valid = self.recv_seq_no == seq_no;
        self.position = if valid {
            next_index(self.position, BUFFER_LEN)
        } else {
            self.position % BUFFER_LEN
        };
        valid
    }

    /// Goes on to the next slot, whatever the current one holds.
    pub fn advance(&mut self)
        requires
            is_capacity(BUFFER_LEN as int),
        ensures
            final(self).at() == following(old(self).at() as int, BUFFER_LEN as int),
            final(self).at() < BUFFER_LEN,
            final(self).held() == old(self).held(),
            final(self).peeked() == old(self).peeked(),
    {
        self.position = next_index(self.position, BUFFER_LEN);
    }

    /// Waits until the current slot is clean, and returns the number in it.
    pub fn load_state<B: Buffer<T, Stamp>>(&self, buffer: &mut B) -> (seq_no: u64)
        requires
            old(buffer).inv(),
            self.at() < old(buffer)@.slots.len(),
            old(buffer)@.live.contains(self.at() as int),
        ensures
            final(buffer).inv(),
            watched(old(buffer)@, final(buffer)@, self.at() as int, false),
            waited(old(buffer)@.looks, final(buffer)@.looks, self.at() as int),
            final(buffer)@.looks.last().ring() == final(buffer)@.slots,
            vouches(final(buffer)@, self.at() as int),
            final(buffer)@.slots[self.at() as int].state == (Stamp { dirty: false, seq_no }),
            seq_no < DIRTY_MASK,
    {
        let ghost i = self.position as int;
        let mut pair = self.try_load_state(buffer);
        while pair.0
            invariant
                buffer.inv(),
                i == self.position,
                0 <= i < buffer@.slots.len(),
                old(buffer)@.live.contains(i),
                watched(old(buffer)@, buffer@, i, false),
                buffer@.slots[i].state == (Stamp { dirty: pair.0, seq_no: pair.1 }),
                pair.1 < DIRTY_MASK,
                vouches(buffer@, i),
                buffer@.looks.len() > old(buffer)@.looks.len(),
                buffer@.looks.last() == (Look::Loaded { index: i, slots: buffer@.slots }),
                forall|k: int|
                    #![trigger buffer@.looks[k]]
                    old(buffer)@.looks.len() <= k < buffer@.looks.len() - 1
                        ==> buffer@.looks[k].loads(i)
                        && buffer@.looks[k].ring()[i].state.is_dirty(),
            decreases buffer@.delay, (if pair.0 { 1int } else { 0 }),
        {
            let ghost b0 = buffer@;
            pair = self.try_load_state(buffer);
            proof {
                lemma_watched_trans(old(buffer)@, b0, buffer@, i, false, pair.0);
            }
        }
        pair.1
    }

    /// The `(dirty, seq_no)` of the current slot, without waiting.
    pub fn try_load_state<B: Buffer<T, Stamp>>(&self, buffer: &mut B) -> (pair: (bool, u64))
        requires
            old(buffer).inv(),
            self.at() < old(buffer)@.slots.len(),
        ensures
            final(buffer).inv(),
            watched(old(buffer)@, final(buffer)@, self.at() as int, pair.0),
            final(buffer)@.looks == old(buffer)@.looks.push(
                Look::Loaded { index: self.at() as int, slots: final(buffer)@.slots },
            ),
            vouches(final(buffer)@, self.at() as int),
            final(buffer)@.slots[self.at() as int].state == (Stamp {
                dirty: pair.0,
                seq_no: pair.1,
            }),
            pair.1 < DIRTY_MASK,
    {
        let stamp = buffer.load(self.position);
        (stamp.dirty, stamp.seq_no)
    }
}

} // verus!
