//! Rings on the heap whose slots carry a word of the user's.
use crate::buffer::{
    assign_clone, faithful, lemma_watched_still, private_ring, Access, Buffer, Look, RingModel,
};
use crate::padding::unpadded;
use crate::ring::{Slot, Tag};
use crate::state::DIRTY_MASK;
use crate::wide_state::{law_wide_stamp_round_trip, WideStamp, State};
use crossbeam_utils::CachePadded;
use vstd::prelude::*;

verus! {

/// A slot of a ring: a wide state and a payload, each padded to a cache line of its own.
#[derive(Debug)]
#[verifier::reject_recursive_types(T)]
pub struct Message<T> {
    state: CachePadded<State>,
    payload: CachePadded<T>,
}

impl<T> View for Message<T> {
    type V = Slot<T, WideStamp>;

    closed spec fn view(&self) -> Slot<T, WideStamp> {
        Slot { state: unpadded(self.state)@, payload: unpadded(self.payload) }
    }
}

impl<T> Message<T> {
    /// A slot with the given state and payload.
    pub fn new(state: State, payload: T) -> (message: Message<T>)
        ensures
            message@ == (Slot { state: state@, payload }),
    {
        Message { state: CachePadded::new(state), payload: CachePadded::new(payload) }
    }

    /// The state of the slot, as `(dirty, seq_no, user_state)`.
    pub fn load(&mut self) -> (triple: (bool, u64, u64))
        ensures
            triple == (
                old(self)@.state.dirty,
                old(self)@.state.seq_no,
                old(self)@.state.user_state,
            ),
            triple.1 < DIRTY_MASK,
            final(self)@ == old(self)@,
    {
        self.state.load()
    }

    /// Stores the state of the slot.
    pub fn store(&mut self, dirty: bool, seq_no: u64, user_state: u64)
        ensures
            final(self)@ == (Slot {
                state: (WideStamp { dirty, seq_no, user_state }).kept(),
                payload: old(self)@.payload,
            }),
    {
        self.state.store(dirty, seq_no, user_state)
    }

    /// The payload in the slot.
    pub fn payload(&self) -> (payload: &T)
        ensures
            *payload == self@.payload,
    {
        &self.payload
    }

    /// The payload in the slot, to be written.
    pub fn payload_mut(&mut self) -> (payload: &mut T)
        ensures
            *payload == old(self)@.payload,
            final(self)@ == (Slot { state: old(self)@.state, payload: *final(payload) }),
    {
        &mut self.payload
    }
}

impl<T: Default> Default for Message<T> {
    /// An empty slot, with a default payload.
    fn default() -> (message: Message<T>)
        ensures
            message@.state == (WideStamp { dirty: false, seq_no: 0, user_state: 0 }),
            T::default.ensures((), message@.payload),
    {
        Message::new(State::default(), T::default())
    }
}

/// A heap-allocated ring of slots with wide states.
#[verifier::reject_recursive_types(T)]
pub struct WideBuffer<T> {
    slots: Vec<Message<T>>,
    /// The accesses that wrote to the ring, or may have.
    trail: Ghost<Seq<Access<T, WideStamp>>>,
    /// The looks at the ring.
    looks: Ghost<Seq<Look<T, WideStamp>>>,
}

impl<T> WideBuffer<T> {
    /// The slots of the ring.
    pub closed spec fn contents(&self) -> Seq<Slot<T, WideStamp>> {
        Seq::new(self.slots@.len(), |i: int| self.slots@[i]@)
    }

    /// The accesses that wrote to the ring, or may have, one after the other.
    pub closed spec fn accesses(&self) -> Seq<Access<T, WideStamp>> {
        self.trail@
    }

    /// The looks at the ring, one after the other.
    pub closed spec fn sights(&self) -> Seq<Look<T, WideStamp>> {
        self.looks@
    }
}

impl<T: Default> WideBuffer<T> {
    /// Creates a ring of `len` empty slots with default payloads.
    pub fn new(len: usize) -> (buffer: WideBuffer<T>)
        ensures
            buffer.inv(),
            buffer@.trail.len() == 0,
            buffer@.looks.len() == 0,
            buffer@.slots.len() == len,
            forall|i: int|
                #![trigger buffer@.slots[i]]
                0 <= i < len ==> {
                    &&& buffer@.slots[i].state == (WideStamp {
                        dirty: false,
                        seq_no: 0,
                        user_state: 0,
                    })
                    &&& T::default.ensures((), buffer@.slots[i].payload)
                },
    {
        let mut slots: Vec<Message<T>> = Vec::with_capacity(len);
        while slots.len() < len
            invariant
                slots.len() <= len,
                forall|i: int|
                    #![trigger slots@[i]]
                    0 <= i < slots@.len() ==> {
                        &&& slots@[i]@.state == (WideStamp {
                            dirty: false,
                            seq_no: 0,
                            user_state: 0,
                        })
                        &&& T::default.ensures((), slots@[i]@.payload)
                    },
            decreases len - slots.len(),
        {
            slots.push(Message::default());
        }
        WideBuffer { slots, trail: Ghost(Seq::empty()), looks: Ghost(Seq::empty()) }
    }
}

impl<T> Buffer<T, WideStamp> for WideBuffer<T> {
    open spec fn view(&self) -> RingModel<T, WideStamp> {
        private_ring(self.contents(), self.accesses(), self.sights())
    }

    open spec fn inv(&self) -> bool {
        faithful(self@.looks)
    }

    fn capacity(&self) -> (n: usize) {
        self.slots.len()
    }

    fn load(&mut self, index: usize) -> (state: WideStamp) {
        let (dirty, seq_no, user_state) = self.slots[index].load();
        proof {
            assert(self.contents() =~= old(self).contents());
            let look = Look::Loaded { index: index as int, slots: self.contents() };
            lemma_watched_still(self@, look, index as int);
            self.looks@ = self.looks@.push(look);
            law_wide_stamp_round_trip(WideStamp { dirty, seq_no, user_state });
        }
        WideStamp { dirty, seq_no, user_state }
    }

    fn copy_payload(&mut self, index: usize, copy: &mut T) where T: Clone {
        assign_clone(copy, self.slots[index].payload());
        proof {
            let look = Look::Copied { index: index as int, slots: self.contents(), value: *copy };
            lemma_watched_still(self@, look, index as int);
            self.looks@ = self.looks@.push(look);
        }
    }

    fn payload(&mut self, index: usize) -> (payload: &T) {
        proof {
            let look = Look::Lent {
                index: index as int,
                slots: self.contents(),
                value: self.contents()[index as int].payload,
            };
            lemma_watched_still(self@, look, index as int);
            self.looks@ = self.looks@.push(look);
        }
        self.slots[index].payload()
    }

    fn payload_mut(&mut self, index: usize) -> (payload: &mut T) {
        proof {
            self.trail@ = self.trail@.push(
                Access::Lend { index: index as int, slots: self.contents() },
            );
        }
        self.slots[index].payload_mut()
    }

    fn store(&mut self, index: usize, state: WideStamp) {
        self.slots[index].store(state.dirty, state.seq_no, state.user_state);
        proof {
            self.trail@ = self.trail@.push(Access::Store { slots: self.contents() });
        }
    }

    fn replace(&mut self, index: usize, state: WideStamp, payload: T) {
        let mut fresh = State::default();
        fresh.store(state.dirty, state.seq_no, state.user_state);
        self.slots[index] = Message::new(fresh, payload);
        proof {
            self.trail@ = self.trail@.push(Access::Store { slots: self.contents() });
        }
    }
}

} // verus!
