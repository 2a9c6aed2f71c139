//! Rings on the heap.
use crate::buffer::{
    assign_clone, faithful, lemma_watched_still, private_ring, Access, Buffer, Look, RingModel,
};
use crate::capacity::{effective_capacity, is_capacity, slot_index};
use crate::padding::unpadded;
use crate::ring::{home, Slot, Tag};
use crate::state::{law_stamp_round_trip, Stamp, State, DIRTY_MASK};
use crossbeam_utils::CachePadded;
use vstd::prelude::*;

verus! {

/// A slot of a ring: a state and a payload, each padded to a cache line of its own.
#[derive(Debug)]
#[verifier::reject_recursive_types(T)]
pub struct Message<T> {
    state: CachePadded<State>,
    payload: CachePadded<T>,
}

impl<T> View for Message<T> {
    type V = Slot<T, Stamp>;

    closed spec fn view(&self) -> Slot<T, Stamp> {
        Slot { state: unpadded(self.state)@, payload: unpadded(self.payload) }
    }
}

impl<T> Message<T> {
    /// A slot with the given state and payload.
    pub fn new(state: State, payload: T) -> (message: Message<T>)
        ensures
            message@ == (Slot { state: state@, payload }),
    {
        Message { state: CachePadded::new(state), payload: CachePadded::new(payload) }
    }

    /// The state of the slot, as `(dirty, seq_no)`.
    pub fn load(&mut self) -> (pair: (bool, u64))
        ensures
            pair == (old(self)@.state.dirty, old(self)@.state.seq_no),
            pair.1 < DIRTY_MASK,
            final(self)@ == old(self)@,
    {
        self.state.load()
    }

    /// Stores the state of the slot.
    pub fn store(&mut self, dirty: bool, seq_no: u64)
        ensures
            final(self)@ == (Slot {
                state: (Stamp { dirty, seq_no }).kept(),
                payload: old(self)@.payload,
            }),
    {
        self.state.store(dirty, seq_no)
    }

    /// The payload in the slot.
    pub fn payload(&self) -> (payload: &T)
        ensures
            *payload == self@.payload,
    {
        &self.payload
    }

    /// The payload in the slot, to be written.
    pub fn payload_mut(&mut self) -> (payload: &mut T)
        ensures
            *payload == old(self)@.payload,
            final(self)@ == (Slot { state: old(self)@.state, payload: *final(payload) }),
    {
        &mut self.payload
    }
}

impl<T: Default> Default for Message<T> {
    /// An empty slot, with a default payload.
    fn default() -> (message: Message<T>)
        ensures
            message@.state == (Stamp { dirty: false, seq_no: 0 }),
            T::default.ensures((), message@.payload),
    {
        Message::new(State::default(), T::default())
    }
}

/// A heap-allocated ring, the backing storage of an in-process channel.
#[verifier::reject_recursive_types(T)]
pub struct HeapBuffer<T> {
    slots: Vec<Message<T>>,
    /// The accesses that wrote to the ring, or may have.
    trail: Ghost<Seq<Access<T, Stamp>>>,
    /// The looks at the ring.
    looks: Ghost<Seq<Look<T, Stamp>>>,
}

impl<T> HeapBuffer<T> {
    /// The slots of the ring.
    pub closed spec fn contents(&self) -> Seq<Slot<T, Stamp>> {
        Seq::new(self.slots@.len(), |i: int| self.slots@[i]@)
    }

    /// The accesses that wrote to the ring, or may have, one after the other.
    pub closed spec fn accesses(&self) -> Seq<Access<T, Stamp>> {
        self.trail@
    }

    /// The looks at the ring, one after the other.
    pub closed spec fn sights(&self) -> Seq<Look<T, Stamp>> {
        self.looks@
    }
}

impl<T: Default> HeapBuffer<T> {
    /// Creates a ring of empty slots with default payloads. The requested `capacity`
    /// is rounded up to the next power of two, with a minimum of 2.
    pub fn new(capacity: usize) -> (buffer: HeapBuffer<T>)
        requires
            capacity <= usize::MAX / 2 + 1,
        ensures
            buffer.inv(),
            buffer@.trail.len() == 0,
            buffer@.looks.len() == 0,
            is_capacity(buffer@.slots.len() as int),
            buffer@.slots.len() >= capacity,
            forall|m: int| is_capacity(m) && m >= capacity ==> buffer@.slots.len() <= m,
            forall|i: int|
                #![trigger buffer@.slots[i]]
                0 <= i < buffer@.slots.len() ==> {
                    &&& buffer@.slots[i].state == (Stamp { dirty: false, seq_no: 0 })
                    &&& T::default.ensures((), buffer@.slots[i].payload)
                },
    {
        let n = effective_capacity(capacity);
        let mut slots: Vec<Message<T>> = Vec::with_capacity(n);
        while slots.len() < n
            invariant
                slots.len() <= n,
                forall|i: int|
                    #![trigger slots@[i]]
                    0 <= i < slots@.len() ==> {
                        &&& slots@[i]@.state == (Stamp { dirty: false, seq_no: 0 })
                        &&& T::default.ensures((), slots@[i]@.payload)
                    },
            decreases n - slots.len(),
        {
            slots.push(Message::default());
        }
        HeapBuffer { slots, trail: Ghost(Seq::empty()), looks: Ghost(Seq::empty()) }
    }
}

impl<T> HeapBuffer<T> {
    /// The slot of message `seq_no`.
    pub fn slot(&self, seq_no: u64) -> (message: &Message<T>)
        requires
            self.inv(),
        ensures
            message@ == self@.slots[home(seq_no as int, 0, self@.slots.len() as int)],
    {
        &self.slots[slot_index(seq_no, self.slots.len())]
    }

    /// The slot of message `seq_no`, to be written. What is done to a slot in this way leaves no
    /// trail.
    pub fn slot_mut(&mut self, seq_no: u64) -> (message: &mut Message<T>)
        requires
            old(self).inv(),
        ensures
            message@ == old(self)@.slots[home(seq_no as int, 0, old(self)@.slots.len() as int)],
            final(self).inv(),
            final(self)@.slots == old(self)@.slots.update(
                home(seq_no as int, 0, old(self)@.slots.len() as int),
                final(message)@,
            ),
            final(self)@.trail == old(self)@.trail,
            final(self)@.looks == old(self)@.looks,
    {
        let index = slot_index(seq_no, self.slots.len());
        &mut self.slots[index]
    }
}

impl<T> Buffer<T, Stamp> for HeapBuffer<T> {
    open spec fn view(&self) -> RingModel<T, Stamp> {
        private_ring(self.contents(), self.accesses(), self.sights())
    }

    open spec fn inv(&self) -> bool {
        is_capacity(self@.slots.len() as int) && faithful(self@.looks)
    }

    fn capacity(&self) -> (n: usize) {
        self.slots.len()
    }

    fn load(&mut self, index: usize) -> (state: Stamp) {
        let (dirty, seq_no) = self.slots[index].load();
        proof {
            assert(self.contents() =~= old(self).contents());
            let look = Look::Loaded { index: index as int, slots: self.contents() };
            lemma_watched_still(self@, look, index as int);
            self.looks@ = self.looks@.push(look);
            law_stamp_round_trip(Stamp { dirty, seq_no });
        }
        Stamp { dirty, seq_no }
    }

    fn copy_payload(&mut self, index: usize, copy: &mut T) where T: Clone {
        assign_clone(copy, self.slots[index].payload());
        proof {
            let look = Look::Copied { index: index as int, slots: self.contents(), value: *copy };
            lemma_watched_still(self@, look, index as int);
            self.looks@ = self.looks@.push(look);
        }
    }

    fn payload(&mut self, index: usize) -> (payload: &T) {
        proof {
            let look = Look::Lent {
                index: index as int,
                slots: self.contents(),
                value: self.contents()[index as int].payload,
            };
            lemma_watched_still(self@, look, index as int);
            self.looks@ = self.looks@.push(look);
        }
        self.slots[index].payload()
    }

    fn payload_mut(&mut self, index: usize) -> (payload: &mut T) {
        proof {
            self.trail@ = self.trail@.push(
                Access::Lend { index: index as int, slots: self.contents() },
            );
        }
        self.slots[index].payload_mut()
    }

    fn store(&mut self, index: usize, state: Stamp) {
        self.slots[index].store(state.dirty, state.seq_no);
        proof {
            self.trail@ = self.trail@.push(Access::Store { slots: self.contents() });
        }
    }

    fn replace(&mut self, index: usize, state: Stamp, payload: T) {
        let mut fresh = State::default();
        fresh.store(state.dirty, state.seq_no);
        self.slots[index] = Message::new(fresh, payload);
        proof {
            self.trail@ = self.trail@.push(Access::Store { slots: self.contents() });
        }
    }
}

} // verus!
