//! Laws of what slots and rings are made of, stated of the calls: what is stored is what is
//! loaded.
//!
//! The laws speak of calls by [`call_ensures`], so they hold of whatever the functions promise.
//! A mutable reference stands for what it refers to before the call (`old`) and after it
//! (`final`).
use crate::buffer::{Access, Buffer, Look};
use crate::capacity::{effective_capacity, is_capacity, is_power_of_two, next_index, slot_index};
use crate::heap_buffer::{self, HeapBuffer};
use crate::state::{self, pack, unpack, Stamp};
use crate::user_broadcast::Payload;
use crate::wide_buffer::{self, WideBuffer};
use crate::wide_state::{self, wide_pack, wide_unpack, WideStamp};
use vstd::arithmetic::div_mod::{lemma_add_mod_noop, lemma_mod_bound, lemma_small_mod};
use vstd::arithmetic::power2::{lemma2_to64, lemma_pow2_strictly_increases, lemma_pow2_unfold, pow2};
use vstd::prelude::*;

verus! {

/// The least power of two that is at least `capacity`, and at least 2, is less than twice the
/// capacity if it is not 2.
pub(crate) proof fn lemma_least(n: int, capacity: int)
    requires
        is_capacity(n),
        forall|m: int| is_capacity(m) && m >= capacity ==> n <= m,
    ensures
        n > 2 ==> n < 2 * capacity,
{
    if n > 2 {
        let k = choose|k: nat| n == #[trigger] pow2(k);
        lemma2_to64();
        if k > 1 {
            lemma_pow2_unfold(k);
            let half = pow2((k - 1) as nat) as int;
            if k > 2 {
                lemma_pow2_strictly_increases(1, (k - 1) as nat);
            }
            assert(is_power_of_two(half));
            assert(half >= 2);
            if half >= capacity {
                assert(is_capacity(half));
            }
        }
    }
}

// ---------------------------------------------------------------------------
// Capacities and slots
// ---------------------------------------------------------------------------

/// The effective capacity is a power of two, at least 2 and at least what was asked for, and
/// the least such: it is 2, or less than twice what was asked for.
pub proof fn law_effective_capacity(capacity: usize, n: usize)
    requires
        call_ensures(effective_capacity, (capacity,), n),
    ensures
        exists|k: nat| n == #[trigger] pow2(k),
        n >= 2,
        n >= capacity,
        n > 2 ==> n < 2 * capacity,
{
    lemma_least(n as int, capacity as int);
}

/// A capacity that is a power of two already is taken as it is.
pub proof fn law_capacity_is_kept(k: nat, capacity: usize, n: usize)
    requires
        capacity == pow2(k),
        capacity >= 2,
        call_ensures(effective_capacity, (capacity,), n),
    ensures
        n == capacity,
{
    assert(is_power_of_two(capacity as int));
    assert(is_capacity(capacity as int));
}

/// More slots asked for are never fewer slots.
pub proof fn law_capacity_grows(less: usize, few: usize, more: usize, many: usize)
    requires
        less <= more,
        call_ensures(effective_capacity, (less,), few),
        call_ensures(effective_capacity, (more,), many),
    ensures
        few <= many,
{
    assert(is_capacity(many as int));
}

/// Every capacity may be asked for whose power of two is a number.
pub proof fn law_capacity_is_allowed(capacity: usize)
    requires
        capacity <= usize::MAX / 2 + 1,
    ensures
        call_requires(effective_capacity, (capacity,)),
{
}

/// Message `s` falls on slot `s % n`, whatever power of two `n` is.
pub proof fn law_slot_index(seq_no: u64, k: nat, capacity: usize, index: usize)
    requires
        capacity == pow2(k),
        capacity >= 2,
        call_ensures(slot_index, (seq_no, capacity), index),
    ensures
        index == seq_no as int % capacity as int,
        call_requires(slot_index, (seq_no, capacity)),
{
    assert(is_power_of_two(capacity as int));
}

/// The slot of the next message is the next slot.
pub proof fn law_next_slot(s: u64, t: u64, n: usize, i: usize, j: usize, next: usize)
    requires
        n >= 2,
        t == s + 1,
        call_ensures(slot_index, (s, n), i),
        call_ensures(slot_index, (t, n), j),
        call_ensures(next_index, (i, n), next),
    ensures
        next == j,
        next == (i + 1) % n as int,
        call_requires(next_index, (i, n)),
{
    lemma_add_mod_noop(s as int, 1, n as int);
    lemma_mod_bound(s as int, n as int);
    lemma_small_mod(i as nat, n as nat);
    lemma_add_mod_noop(i as int, 1, n as int);
}

/// The index after `i` is `(i + 1) % n`, wherever `i` is.
pub proof fn law_next_index(i: usize, n: usize, next: usize)
    requires
        n >= 2,
        call_ensures(next_index, (i, n), next),
    ensures
        next == (i + 1) % n as int,
{
}

// ---------------------------------------------------------------------------
// The state of a slot
// ---------------------------------------------------------------------------

/// The flag is the highest bit of the word, the number the 63 bits below; a number that does
/// not fit there runs into the flag.
pub proof fn law_pack_layout(dirty: bool, seq_no: u64, word: u64)
    requires
        call_ensures(pack, (dirty, seq_no), word),
    ensures
        dirty ==> word == 0x8000_0000_0000_0000 + seq_no as int % 0x8000_0000_0000_0000,
        !dirty ==> word == seq_no,
{
}

/// Reading a word takes the highest bit for the flag, and the 63 bits below for the number.
pub proof fn law_unpack_layout(word: u64, stamp: Stamp)
    requires
        call_ensures(unpack, (word,), stamp),
    ensures
        stamp.dirty <==> word >= 0x8000_0000_0000_0000,
        stamp.seq_no == word as int % 0x8000_0000_0000_0000,
{
}

/// What is packed is what is read, if the number fits.
pub proof fn law_packed_then_read(dirty: bool, seq_no: u64, word: u64, stamp: Stamp)
    requires
        seq_no < 0x8000_0000_0000_0000,
        call_ensures(pack, (dirty, seq_no), word),
        call_ensures(unpack, (word,), stamp),
    ensures
        stamp.dirty == dirty,
        stamp.seq_no == seq_no,
{
}

/// What is read is what is packed, whatever the word.
pub proof fn law_read_then_packed(word: u64, stamp: Stamp, again: u64)
    requires
        call_ensures(unpack, (word,), stamp),
        call_ensures(pack, (stamp.dirty, stamp.seq_no), again),
    ensures
        again == word,
{
}

/// A new state is loaded as it was made, and loading it leaves it as it is.
pub proof fn law_state_new(
    dirty: bool,
    seq_no: u64,
    made: state::State,
    state: &mut state::State,
    got: (bool, u64),
    later: &mut state::State,
    again: (bool, u64),
)
    requires
        seq_no < 0x8000_0000_0000_0000,
        call_ensures(state::State::new, (dirty, seq_no), made),
        *old(state) == made,
        call_ensures(state::State::load, (state,), got),
        *old(later) == *final(state),
        call_ensures(state::State::load, (later,), again),
    ensures
        got.0 == dirty,
        got.1 == seq_no,
        again == got,
        call_requires(state::State::new, (dirty, seq_no)),
{
}

/// What is stored is what is loaded afterwards, whatever was there; of a number beyond 63 bits
/// the lower 63 bits are left, and the flag is set.
pub proof fn law_state_store(
    dirty: bool,
    seq_no: u64,
    state: &mut state::State,
    later: &mut state::State,
    got: (bool, u64),
)
    requires
        call_ensures(state::State::store, (state, dirty, seq_no), ()),
        *old(later) == *final(state),
        call_ensures(state::State::load, (later,), got),
    ensures
        got.0 <==> dirty || seq_no >= 0x8000_0000_0000_0000,
        got.1 == seq_no as int % 0x8000_0000_0000_0000,
{
}

/// A number that is loaded, from a state or from a slot, fits in 63 bits.
pub proof fn law_loaded_number_fits<T>(
    state: &mut state::State,
    got: (bool, u64),
    message: &mut heap_buffer::Message<T>,
    read: (bool, u64),
)
    requires
        call_ensures(state::State::load, (state,), got),
        call_ensures(heap_buffer::Message::<T>::load, (message,), read),
    ensures
        got.1 < 0x8000_0000_0000_0000,
        read.1 < 0x8000_0000_0000_0000,
{
}

/// The state of an empty slot is clean, and has no number.
pub proof fn law_state_default(made: state::State, state: &mut state::State, got: (bool, u64))
    requires
        call_ensures(<state::State as Default>::default, (), made),
        *old(state) == made,
        call_ensures(state::State::load, (state,), got),
    ensures
        !got.0,
        got.1 == 0,
{
}

// ---------------------------------------------------------------------------
// The slots of a ring
// ---------------------------------------------------------------------------

/// A slot holds the state and the payload that it is made of.
pub proof fn law_message_new<T>(
    state: state::State,
    payload: T,
    made: heap_buffer::Message<T>,
    whole: &mut state::State,
    expect: (bool, u64),
    message: &mut heap_buffer::Message<T>,
    got: (bool, u64),
    held: &T,
    later: &T,
)
    requires
        call_ensures(heap_buffer::Message::<T>::new, (state, payload), made),
        *old(whole) == state,
        call_ensures(state::State::load, (whole,), expect),
        *old(message) == made,
        call_ensures(heap_buffer::Message::<T>::load, (message,), got),
        call_ensures(heap_buffer::Message::<T>::payload, (&made,), held),
        call_ensures(heap_buffer::Message::<T>::payload, (&*final(message),), later),
    ensures
        got == expect,
        *held == payload,
        *later == payload,
{
}

/// Storing the state of a slot changes what is loaded from it, and leaves the payload.
pub proof fn law_message_store<T>(
    dirty: bool,
    seq_no: u64,
    message: &mut heap_buffer::Message<T>,
    later: &mut heap_buffer::Message<T>,
    got: (bool, u64),
    before: &T,
    after: &T,
)
    requires
        call_ensures(heap_buffer::Message::<T>::store, (message, dirty, seq_no), ()),
        *old(later) == *final(message),
        call_ensures(heap_buffer::Message::<T>::load, (later,), got),
        call_ensures(heap_buffer::Message::<T>::payload, (&*old(message),), before),
        call_ensures(heap_buffer::Message::<T>::payload, (&*final(message),), after),
    ensures
        got.0 <==> dirty || seq_no >= 0x8000_0000_0000_0000,
        got.1 == seq_no as int % 0x8000_0000_0000_0000,
        *after == *before,
{
}

/// What a borrower leaves in the payload of a slot is what is read from it, and the state
/// stays.
pub proof fn law_message_payload_mut<T>(
    message: &mut heap_buffer::Message<T>,
    lent: &mut T,
    before: &T,
    after: &T,
    first: &mut heap_buffer::Message<T>,
    got: (bool, u64),
    second: &mut heap_buffer::Message<T>,
    again: (bool, u64),
)
    requires
        call_ensures(heap_buffer::Message::<T>::payload_mut, (message,), lent),
        call_ensures(heap_buffer::Message::<T>::payload, (&*old(message),), before),
        call_ensures(heap_buffer::Message::<T>::payload, (&*final(message),), after),
        *old(first) == *old(message),
        call_ensures(heap_buffer::Message::<T>::load, (first,), got),
        *old(second) == *final(message),
        call_ensures(heap_buffer::Message::<T>::load, (second,), again),
    ensures
        *old(lent) == *before,
        *final(lent) == *after,
        again == got,
{
}

/// A default slot is empty, and has a default payload.
pub proof fn law_message_default<T: Default>(
    made: heap_buffer::Message<T>,
    message: &mut heap_buffer::Message<T>,
    got: (bool, u64),
    held: &T,
)
    requires
        call_ensures(<heap_buffer::Message<T> as Default>::default, (), made),
        *old(message) == made,
        call_ensures(heap_buffer::Message::<T>::load, (message,), got),
        call_ensures(heap_buffer::Message::<T>::payload, (&made,), held),
    ensures
        !got.0,
        got.1 == 0,
        T::default.ensures((), *held),
{
}

/// A ring on the heap has as many empty slots as the effective capacity, with default payloads.
pub proof fn law_heap_new<T: Default>(capacity: usize, buffer: HeapBuffer<T>, i: int)
    requires
        call_ensures(HeapBuffer::<T>::new, (capacity,), buffer),
        0 <= i < buffer@.slots.len(),
    ensures
        buffer.inv(),
        buffer@.trail.len() == 0,
        buffer@.looks.len() == 0,
        exists|k: nat| buffer@.slots.len() == #[trigger] pow2(k),
        buffer@.slots.len() >= 2,
        buffer@.slots.len() >= capacity,
        buffer@.slots.len() > 2 ==> buffer@.slots.len() < 2 * capacity,
        !buffer@.slots[i].state.dirty,
        buffer@.slots[i].state.seq_no == 0,
        T::default.ensures((), buffer@.slots[i].payload),
        capacity <= usize::MAX / 2 + 1 ==> call_requires(HeapBuffer::<T>::new, (capacity,)),
{
    lemma_least(buffer@.slots.len() as int, capacity as int);
}

/// Message `s` is lent out from slot `s % n`.
pub proof fn law_heap_slot<T>(
    buffer: HeapBuffer<T>,
    seq_no: u64,
    message: &heap_buffer::Message<T>,
    held: &T,
    copy: &mut heap_buffer::Message<T>,
    got: (bool, u64),
)
    requires
        call_ensures(HeapBuffer::<T>::slot, (&buffer, seq_no), message),
        call_ensures(heap_buffer::Message::<T>::payload, (message,), held),
        *old(copy) == *message,
        call_ensures(heap_buffer::Message::<T>::load, (copy,), got),
    ensures
        ({
            let slot = buffer@.slots[seq_no as int % buffer@.slots.len() as int];
            &&& *held == slot.payload
            &&& got.0 == slot.state.dirty
            &&& got.1 == slot.state.seq_no
        }),
        buffer.inv() ==> call_requires(HeapBuffer::<T>::slot, (&buffer, seq_no)),
{
}

/// What a borrower leaves in the slot of message `s` is in slot `s % n`, and no other slot
/// changes.
pub proof fn law_heap_slot_mut<T>(
    buffer: &mut HeapBuffer<T>,
    seq_no: u64,
    message: &mut heap_buffer::Message<T>,
    i: int,
)
    requires
        old(buffer)@.slots.len() >= 2,
        call_ensures(HeapBuffer::<T>::slot_mut, (buffer, seq_no), message),
        0 <= i < old(buffer)@.slots.len(),
    ensures
        final(buffer).inv(),
        final(buffer)@.slots.len() == old(buffer)@.slots.len(),
        ({
            let at = seq_no as int % old(buffer)@.slots.len() as int;
            &&& old(message)@ == old(buffer)@.slots[at]
            &&& final(buffer)@.slots[i] == (if i == at {
                final(message)@
            } else {
                old(buffer)@.slots[i]
            })
        }),
        final(buffer)@.trail == old(buffer)@.trail,
        final(buffer)@.looks == old(buffer)@.looks,
{
    lemma_mod_bound(seq_no as int, old(buffer)@.slots.len() as int);
}

// ---------------------------------------------------------------------------
// The ring on the heap
// ---------------------------------------------------------------------------

/// Nobody but its owner changes a ring on the heap, and a slot of it is live if and only if it
/// is clean.
pub proof fn law_heap_is_private<T>(buffer: HeapBuffer<T>, i: int)
    ensures
        buffer@.steady,
        buffer@.live.contains(i) <==> 0 <= i < buffer@.slots.len() && !buffer@.slots[i].state.dirty,
{
}

/// The capacity is the number of slots.
pub proof fn law_heap_capacity<T>(buffer: HeapBuffer<T>, n: usize)
    requires
        call_ensures(<HeapBuffer<T> as Buffer<T, Stamp>>::capacity, (&buffer,), n),
    ensures
        n == buffer@.slots.len(),
{
}

/// Loading returns the state of the slot, leaves the ring as it is, and is one look.
pub proof fn law_heap_load<T>(buffer: &mut HeapBuffer<T>, index: usize, state: Stamp)
    requires
        call_ensures(<HeapBuffer<T> as Buffer<T, Stamp>>::load, (buffer, index), state),
    ensures
        final(buffer).inv(),
        state == old(buffer)@.slots[index as int].state,
        final(buffer)@.slots == old(buffer)@.slots,
        final(buffer)@.trail == old(buffer)@.trail,
        final(buffer)@.looks.len() == old(buffer)@.looks.len() + 1,
        final(buffer)@.looks.last() == (Look::Loaded {
            index: index as int,
            slots: old(buffer)@.slots,
        }),
{
}

/// Copying a payload makes a clone of it, leaves the ring as it is, and is one look.
pub proof fn law_heap_copy_payload<T: Clone>(buffer: &mut HeapBuffer<T>, index: usize, copy: &mut T)
    requires
        call_ensures(<HeapBuffer<T> as Buffer<T, Stamp>>::copy_payload, (buffer, index, copy), ()),
    ensures
        final(buffer).inv(),
        cloned(old(buffer)@.slots[index as int].payload, *final(copy)),
        final(buffer)@.slots == old(buffer)@.slots,
        final(buffer)@.trail == old(buffer)@.trail,
        final(buffer)@.looks.len() == old(buffer)@.looks.len() + 1,
        final(buffer)@.looks.last() == (Look::Copied {
            index: index as int,
            slots: old(buffer)@.slots,
            value: *final(copy),
        }),
{
}

/// Lending out a payload to be read lends out what is there, leaves the ring as it is, and is
/// one look.
pub proof fn law_heap_payload<T>(buffer: &mut HeapBuffer<T>, index: usize, payload: &T)
    requires
        call_ensures(<HeapBuffer<T> as Buffer<T, Stamp>>::payload, (buffer, index), payload),
    ensures
        final(buffer).inv(),
        *payload == old(buffer)@.slots[index as int].payload,
        final(buffer)@.slots == old(buffer)@.slots,
        final(buffer)@.trail == old(buffer)@.trail,
        final(buffer)@.looks.len() == old(buffer)@.looks.len() + 1,
        final(buffer)@.looks.last() == (Look::Lent {
            index: index as int,
            slots: old(buffer)@.slots,
            value: *payload,
        }),
{
}

/// What a borrower leaves in a payload is there afterwards; nothing else changes.
pub proof fn law_heap_payload_mut<T>(
    buffer: &mut HeapBuffer<T>,
    index: usize,
    payload: &mut T,
    i: int,
)
    requires
        call_ensures(<HeapBuffer<T> as Buffer<T, Stamp>>::payload_mut, (buffer, index), payload),
        index < old(buffer)@.slots.len(),
        0 <= i < old(buffer)@.slots.len(),
    ensures
        final(buffer).inv(),
        *old(payload) == old(buffer)@.slots[index as int].payload,
        final(buffer)@.slots.len() == old(buffer)@.slots.len(),
        final(buffer)@.slots[i].state == old(buffer)@.slots[i].state,
        final(buffer)@.slots[i].payload == (if i == index {
            *final(payload)
        } else {
            old(buffer)@.slots[i].payload
        }),
        final(buffer)@.looks == old(buffer)@.looks,
        final(buffer)@.trail.len() == old(buffer)@.trail.len() + 1,
        final(buffer)@.trail.last() == (Access::Lend {
            index: index as int,
            slots: old(buffer)@.slots,
        }),
{
    assert(final(buffer)@.slots[i].state == old(buffer)@.slots[i].state);
}

/// Storing a state puts it into its slot, as far as a word can hold it; nothing else changes.
pub proof fn law_heap_store<T>(buffer: &mut HeapBuffer<T>, index: usize, state: Stamp, i: int)
    requires
        call_ensures(<HeapBuffer<T> as Buffer<T, Stamp>>::store, (buffer, index, state), ()),
        index < old(buffer)@.slots.len(),
        0 <= i < old(buffer)@.slots.len(),
    ensures
        final(buffer).inv(),
        final(buffer)@.slots.len() == old(buffer)@.slots.len(),
        i == index ==> (final(buffer)@.slots[i].state.dirty <==> state.dirty || state.seq_no
            >= 0x8000_0000_0000_0000),
        i == index ==> final(buffer)@.slots[i].state.seq_no
            == state.seq_no as int % 0x8000_0000_0000_0000,
        final(buffer)@.slots[i].payload == old(buffer)@.slots[i].payload,
        i != index ==> final(buffer)@.slots[i] == old(buffer)@.slots[i],
        final(buffer)@.looks == old(buffer)@.looks,
        final(buffer)@.trail.len() == old(buffer)@.trail.len() + 1,
        final(buffer)@.trail.last() == (Access::Store { slots: final(buffer)@.slots }),
{
}

/// Replacing a slot puts state and payload into it; nothing else changes.
pub proof fn law_heap_replace<T>(
    buffer: &mut HeapBuffer<T>,
    index: usize,
    state: Stamp,
    payload: T,
    i: int,
)
    requires
        call_ensures(
            <HeapBuffer<T> as Buffer<T, Stamp>>::replace,
            (buffer, index, state, payload),
            (),
        ),
        index < old(buffer)@.slots.len(),
        0 <= i < old(buffer)@.slots.len(),
    ensures
        final(buffer).inv(),
        final(buffer)@.slots.len() == old(buffer)@.slots.len(),
        i == index ==> (final(buffer)@.slots[i].state.dirty <==> state.dirty || state.seq_no
            >= 0x8000_0000_0000_0000),
        i == index ==> final(buffer)@.slots[i].state.seq_no
            == state.seq_no as int % 0x8000_0000_0000_0000,
        i == index ==> final(buffer)@.slots[i].payload == payload,
        i != index ==> final(buffer)@.slots[i] == old(buffer)@.slots[i],
        final(buffer)@.looks == old(buffer)@.looks,
        final(buffer)@.trail.len() == old(buffer)@.trail.len() + 1,
        final(buffer)@.trail.last() == (Access::Store { slots: final(buffer)@.slots }),
{
}

/// Every slot of a ring may be looked at and written.
pub proof fn law_heap_calls_are_allowed<T: Clone>(
    buffer: &mut HeapBuffer<T>,
    index: usize,
    state: Stamp,
    payload: T,
    copy: &mut T,
)
    requires
        old(buffer).inv(),
        index < old(buffer)@.slots.len(),
    ensures
        call_requires(<HeapBuffer<T> as Buffer<T, Stamp>>::load, (buffer, index)),
        call_requires(<HeapBuffer<T> as Buffer<T, Stamp>>::copy_payload, (buffer, index, copy)),
        call_requires(<HeapBuffer<T> as Buffer<T, Stamp>>::payload, (buffer, index)),
        call_requires(<HeapBuffer<T> as Buffer<T, Stamp>>::payload_mut, (buffer, index)),
        call_requires(<HeapBuffer<T> as Buffer<T, Stamp>>::store, (buffer, index, state)),
        call_requires(
            <HeapBuffer<T> as Buffer<T, Stamp>>::replace,
            (buffer, index, state, payload),
        ),
{
}

// ---------------------------------------------------------------------------
// The wide state of a slot
// ---------------------------------------------------------------------------

/// The flag is the highest bit of the word, the number the 63 bits below, the user's word the
/// lower half; a number that does not fit in its place runs into the flag.
pub proof fn law_wide_pack_layout(dirty: bool, seq_no: u64, user_state: u64, word: u128)
    requires
        call_ensures(wide_pack, (dirty, seq_no, user_state), word),
    ensures
        dirty ==> word
            == (0x8000_0000_0000_0000 + seq_no as int % 0x8000_0000_0000_0000)
            * 0x1_0000_0000_0000_0000 + user_state,
        !dirty ==> word == seq_no * 0x1_0000_0000_0000_0000 + user_state,
{
}

/// Reading a word takes the highest bit for the flag, the 63 bits below for the number, and the
/// lower half for the user's word.
pub proof fn law_wide_unpack_layout(word: u128, stamp: WideStamp)
    requires
        call_ensures(wide_unpack, (word,), stamp),
    ensures
        stamp.dirty <==> word as int / 0x1_0000_0000_0000_0000 >= 0x8000_0000_0000_0000,
        stamp.seq_no == word as int / 0x1_0000_0000_0000_0000 % 0x8000_0000_0000_0000,
        stamp.user_state == word as int % 0x1_0000_0000_0000_0000,
{
}

/// What is packed is what is read, if the number fits.
pub proof fn law_wide_packed_then_read(
    dirty: bool,
    seq_no: u64,
    user_state: u64,
    word: u128,
    stamp: WideStamp,
)
    requires
        seq_no < 0x8000_0000_0000_0000,
        call_ensures(wide_pack, (dirty, seq_no, user_state), word),
        call_ensures(wide_unpack, (word,), stamp),
    ensures
        stamp.dirty == dirty,
        stamp.seq_no == seq_no,
        stamp.user_state == user_state,
{
}

/// What is read is what is packed, whatever the word.
pub proof fn law_wide_read_then_packed(word: u128, stamp: WideStamp, again: u128)
    requires
        call_ensures(wide_unpack, (word,), stamp),
        call_ensures(wide_pack, (stamp.dirty, stamp.seq_no, stamp.user_state), again),
    ensures
        again == word,
{
}

/// A new state is loaded as it was made, and loading it leaves it as it is.
pub proof fn law_wide_state_new(
    dirty: bool,
    seq_no: u64,
    user_state: u64,
    made: wide_state::State,
    state: &mut wide_state::State,
    got: (bool, u64, u64),
    later: &mut wide_state::State,
    again: (bool, u64, u64),
)
    requires
        seq_no < 0x8000_0000_0000_0000,
        call_ensures(wide_state::State::new, (dirty, seq_no, user_state), made),
        *old(state) == made,
        call_ensures(wide_state::State::load, (state,), got),
        *old(later) == *final(state),
        call_ensures(wide_state::State::load, (later,), again),
    ensures
        got.0 == dirty,
        got.1 == seq_no,
        got.2 == user_state,
        again == got,
        call_requires(wide_state::State::new, (dirty, seq_no, user_state)),
{
}

/// What is stored is what is loaded afterwards, whatever was there; of a number beyond 63 bits
/// the lower 63 bits are left, and the flag is set.
pub proof fn law_wide_state_store(
    dirty: bool,
    seq_no: u64,
    user_state: u64,
    state: &mut wide_state::State,
    later: &mut wide_state::State,
    got: (bool, u64, u64),
)
    requires
        call_ensures(wide_state::State::store, (state, dirty, seq_no, user_state), ()),
        *old(later) == *final(state),
        call_ensures(wide_state::State::load, (later,), got),
    ensures
        got.0 <==> dirty || seq_no >= 0x8000_0000_0000_0000,
        got.1 == seq_no as int % 0x8000_0000_0000_0000,
        got.2 == user_state,
{
}

/// A number that is loaded, from a state or from a slot, fits in 63 bits.
pub proof fn law_wide_loaded_number_fits<T>(
    state: &mut wide_state::State,
    got: (bool, u64, u64),
    message: &mut wide_buffer::Message<T>,
    read: (bool, u64, u64),
)
    requires
        call_ensures(wide_state::State::load, (state,), got),
        call_ensures(wide_buffer::Message::<T>::load, (message,), read),
    ensures
        got.1 < 0x8000_0000_0000_0000,
        read.1 < 0x8000_0000_0000_0000,
{
}

/// The state of an empty slot is clean, and has no number and no user's word.
pub proof fn law_wide_state_default(
    made: wide_state::State,
    state: &mut wide_state::State,
    got: (bool, u64, u64),
)
    requires
        call_ensures(<wide_state::State as Default>::default, (), made),
        *old(state) == made,
        call_ensures(wide_state::State::load, (state,), got),
    ensures
        !got.0,
        got.1 == 0,
        got.2 == 0,
{
}

// ---------------------------------------------------------------------------
// The slots of a wide ring
// ---------------------------------------------------------------------------

/// A slot holds the state and the payload that it is made of.
pub proof fn law_wide_message_new<T>(
    state: wide_state::State,
    payload: T,
    made: wide_buffer::Message<T>,
    whole: &mut wide_state::State,
    expect: (bool, u64, u64),
    message: &mut wide_buffer::Message<T>,
    got: (bool, u64, u64),
    held: &T,
    later: &T,
)
    requires
        call_ensures(wide_buffer::Message::<T>::new, (state, payload), made),
        *old(whole) == state,
        call_ensures(wide_state::State::load, (whole,), expect),
        *old(message) == made,
        call_ensures(wide_buffer::Message::<T>::load, (message,), got),
        call_ensures(wide_buffer::Message::<T>::payload, (&made,), held),
        call_ensures(wide_buffer::Message::<T>::payload, (&*final(message),), later),
    ensures
        got == expect,
        *held == payload,
        *later == payload,
{
}

/// Storing the state of a slot changes what is loaded from it, and leaves the payload.
pub proof fn law_wide_message_store<T>(
    dirty: bool,
    seq_no: u64,
    user_state: u64,
    message: &mut wide_buffer::Message<T>,
    later: &mut wide_buffer::Message<T>,
    got: (bool, u64, u64),
    before: &T,
    after: &T,
)
    requires
        call_ensures(wide_buffer::Message::<T>::store, (message, dirty, seq_no, user_state), ()),
        *old(later) == *final(message),
        call_ensures(wide_buffer::Message::<T>::load, (later,), got),
        call_ensures(wide_buffer::Message::<T>::payload, (&*old(message),), before),
        call_ensures(wide_buffer::Message::<T>::payload, (&*final(message),), after),
    ensures
        got.0 <==> dirty || seq_no >= 0x8000_0000_0000_0000,
        got.1 == seq_no as int % 0x8000_0000_0000_0000,
        got.2 == user_state,
        *after == *before,
{
}

/// What a borrower leaves in the payload of a slot is what is read from it, and the state
/// stays.
pub proof fn law_wide_message_payload_mut<T>(
    message: &mut wide_buffer::Message<T>,
    lent: &mut T,
    before: &T,
    after: &T,
    first: &mut wide_buffer::Message<T>,
    got: (bool, u64, u64),
    second: &mut wide_buffer::Message<T>,
    again: (bool, u64, u64),
)
    requires
        call_ensures(wide_buffer::Message::<T>::payload_mut, (message,), lent),
        call_ensures(wide_buffer::Message::<T>::payload, (&*old(message),), before),
        call_ensures(wide_buffer::Message::<T>::payload, (&*final(message),), after),
        *old(first) == *old(message),
        call_ensures(wide_buffer::Message::<T>::load, (first,), got),
        *old(second) == *final(message),
        call_ensures(wide_buffer::Message::<T>::load, (second,), again),
    ensures
        *old(lent) == *before,
        *final(lent) == *after,
        again == got,
{
}

/// A default slot is empty, and has a default payload.
pub proof fn law_wide_message_default<T: Default>(
    made: wide_buffer::Message<T>,
    message: &mut wide_buffer::Message<T>,
    got: (bool, u64, u64),
    held: &T,
)
    requires
        call_ensures(<wide_buffer::Message<T> as Default>::default, (), made),
        *old(message) == made,
        call_ensures(wide_buffer::Message::<T>::load, (message,), got),
        call_ensures(wide_buffer::Message::<T>::payload, (&made,), held),
    ensures
        !got.0,
        got.1 == 0,
        got.2 == 0,
        T::default.ensures((), *held),
{
}

/// A wide ring on the heap has as many empty slots as were asked for, with default payloads.
pub proof fn law_wide_new<T: Default>(len: usize, buffer: WideBuffer<T>, i: int)
    requires
        call_ensures(WideBuffer::<T>::new, (len,), buffer),
        0 <= i < len,
    ensures
        buffer.inv(),
        buffer@.trail.len() == 0,
        buffer@.looks.len() == 0,
        buffer@.slots.len() == len,
        !buffer@.slots[i].state.dirty,
        buffer@.slots[i].state.seq_no == 0,
        buffer@.slots[i].state.user_state == 0,
        T::default.ensures((), buffer@.slots[i].payload),
        call_requires(WideBuffer::<T>::new, (len,)),
{
}

// ---------------------------------------------------------------------------
// The wide ring on the heap
// ---------------------------------------------------------------------------

/// Nobody but its owner changes a ring on the heap, and a slot of it is live if and only if it
/// is clean.
pub proof fn law_wide_heap_is_private<T>(buffer: WideBuffer<T>, i: int)
    ensures
        buffer@.steady,
        buffer@.live.contains(i) <==> 0 <= i < buffer@.slots.len() && !buffer@.slots[i].state.dirty,
{
}

/// The capacity is the number of slots.
pub proof fn law_wide_heap_capacity<T>(buffer: WideBuffer<T>, n: usize)
    requires
        call_ensures(<WideBuffer<T> as Buffer<T, WideStamp>>::capacity, (&buffer,), n),
    ensures
        n == buffer@.slots.len(),
{
}

/// Loading returns the state of the slot, leaves the ring as it is, and is one look.
pub proof fn law_wide_heap_load<T>(buffer: &mut WideBuffer<T>, index: usize, state: WideStamp)
    requires
        call_ensures(<WideBuffer<T> as Buffer<T, WideStamp>>::load, (buffer, index), state),
    ensures
        final(buffer).inv(),
        state == old(buffer)@.slots[index as int].state,
        final(buffer)@.slots == old(buffer)@.slots,
        final(buffer)@.trail == old(buffer)@.trail,
        final(buffer)@.looks.len() == old(buffer)@.looks.len() + 1,
        final(buffer)@.looks.last() == (Look::Loaded {
            index: index as int,
            slots: old(buffer)@.slots,
        }),
{
}

/// Copying a payload makes a clone of it, leaves the ring as it is, and is one look.
pub proof fn law_wide_heap_copy_payload<T: Clone>(
    buffer: &mut WideBuffer<T>,
    index: usize,
    copy: &mut T,
)
    requires
        call_ensures(
            <WideBuffer<T> as Buffer<T, WideStamp>>::copy_payload,
            (buffer, index, copy),
            (),
        ),
    ensures
        final(buffer).inv(),
        cloned(old(buffer)@.slots[index as int].payload, *final(copy)),
        final(buffer)@.slots == old(buffer)@.slots,
        final(buffer)@.trail == old(buffer)@.trail,
        final(buffer)@.looks.len() == old(buffer)@.looks.len() + 1,
        final(buffer)@.looks.last() == (Look::Copied {
            index: index as int,
            slots: old(buffer)@.slots,
            value: *final(copy),
        }),
{
}

/// Lending out a payload to be read lends out what is there, leaves the ring as it is, and is
/// one look.
pub proof fn law_wide_heap_payload<T>(buffer: &mut WideBuffer<T>, index: usize, payload: &T)
    requires
        call_ensures(<WideBuffer<T> as Buffer<T, WideStamp>>::payload, (buffer, index), payload),
    ensures
        final(buffer).inv(),
        *payload == old(buffer)@.slots[index as int].payload,
        final(buffer)@.slots == old(buffer)@.slots,
        final(buffer)@.trail == old(buffer)@.trail,
        final(buffer)@.looks.len() == old(buffer)@.looks.len() + 1,
        final(buffer)@.looks.last() == (Look::Lent {
            index: index as int,
            slots: old(buffer)@.slots,
            value: *payload,
        }),
{
}

/// What a borrower leaves in a payload is there afterwards; nothing else changes.
pub proof fn law_wide_heap_payload_mut<T>(
    buffer: &mut WideBuffer<T>,
    index: usize,
    payload: &mut T,
    i: int,
)
    requires
        call_ensures(
            <WideBuffer<T> as Buffer<T, WideStamp>>::payload_mut,
            (buffer, index),
            payload,
        ),
        index < old(buffer)@.slots.len(),
        0 <= i < old(buffer)@.slots.len(),
    ensures
        final(buffer).inv(),
        *old(payload) == old(buffer)@.slots[index as int].payload,
        final(buffer)@.slots.len() == old(buffer)@.slots.len(),
        final(buffer)@.slots[i].state == old(buffer)@.slots[i].state,
        final(buffer)@.slots[i].payload == (if i == index {
            *final(payload)
        } else {
            old(buffer)@.slots[i].payload
        }),
        final(buffer)@.looks == old(buffer)@.looks,
        final(buffer)@.trail.len() == old(buffer)@.trail.len() + 1,
        final(buffer)@.trail.last() == (Access::Lend {
            index: index as int,
            slots: old(buffer)@.slots,
        }),
{
    assert(final(buffer)@.slots[i].state == old(buffer)@.slots[i].state);
}

/// Storing a state puts it into its slot, as far as a word can hold it; nothing else changes.
pub proof fn law_wide_heap_store<T>(
    buffer: &mut WideBuffer<T>,
    index: usize,
    state: WideStamp,
    i: int,
)
    requires
        call_ensures(<WideBuffer<T> as Buffer<T, WideStamp>>::store, (buffer, index, state), ()),
        index < old(buffer)@.slots.len(),
        0 <= i < old(buffer)@.slots.len(),
    ensures
        final(buffer).inv(),
        final(buffer)@.slots.len() == old(buffer)@.slots.len(),
        i == index ==> (final(buffer)@.slots[i].state.dirty <==> state.dirty || state.seq_no
            >= 0x8000_0000_0000_0000),
        i == index ==> final(buffer)@.slots[i].state.seq_no
            == state.seq_no as int % 0x8000_0000_0000_0000,
        i == index ==> final(buffer)@.slots[i].state.user_state == state.user_state,
        final(buffer)@.slots[i].payload == old(buffer)@.slots[i].payload,
        i != index ==> final(buffer)@.slots[i] == old(buffer)@.slots[i],
        final(buffer)@.looks == old(buffer)@.looks,
        final(buffer)@.trail.len() == old(buffer)@.trail.len() + 1,
        final(buffer)@.trail.last() == (Access::Store { slots: final(buffer)@.slots }),
{
}

/// Replacing a slot puts state and payload into it; nothing else changes.
pub proof fn law_wide_heap_replace<T>(
    buffer: &mut WideBuffer<T>,
    index: usize,
    state: WideStamp,
    payload: T,
    i: int,
)
    requires
        call_ensures(
            <WideBuffer<T> as Buffer<T, WideStamp>>::replace,
            (buffer, index, state, payload),
            (),
        ),
        index < old(buffer)@.slots.len(),
        0 <= i < old(buffer)@.slots.len(),
    ensures
        final(buffer).inv(),
        final(buffer)@.slots.len() == old(buffer)@.slots.len(),
        i == index ==> (final(buffer)@.slots[i].state.dirty <==> state.dirty || state.seq_no
            >= 0x8000_0000_0000_0000),
        i == index ==> final(buffer)@.slots[i].state.seq_no
            == state.seq_no as int % 0x8000_0000_0000_0000,
        i == index ==> final(buffer)@.slots[i].state.user_state == state.user_state,
        i == index ==> final(buffer)@.slots[i].payload == payload,
        i != index ==> final(buffer)@.slots[i] == old(buffer)@.slots[i],
        final(buffer)@.looks == old(buffer)@.looks,
        final(buffer)@.trail.len() == old(buffer)@.trail.len() + 1,
        final(buffer)@.trail.last() == (Access::Store { slots: final(buffer)@.slots }),
{
}

/// Every slot of a ring may be looked at and written.
pub proof fn law_wide_heap_calls_are_allowed<T: Clone>(
    buffer: &mut WideBuffer<T>,
    index: usize,
    state: WideStamp,
    payload: T,
    copy: &mut T,
)
    requires
        old(buffer).inv(),
        index < old(buffer)@.slots.len(),
    ensures
        call_requires(<WideBuffer<T> as Buffer<T, WideStamp>>::load, (buffer, index)),
        call_requires(<WideBuffer<T> as Buffer<T, WideStamp>>::copy_payload, (buffer, index, copy)),
        call_requires(<WideBuffer<T> as Buffer<T, WideStamp>>::payload, (buffer, index)),
        call_requires(<WideBuffer<T> as Buffer<T, WideStamp>>::payload_mut, (buffer, index)),
        call_requires(<WideBuffer<T> as Buffer<T, WideStamp>>::store, (buffer, index, state)),
        call_requires(
            <WideBuffer<T> as Buffer<T, WideStamp>>::replace,
            (buffer, index, state, payload),
        ),
{
}

// ---------------------------------------------------------------------------
// Payloads
// ---------------------------------------------------------------------------

/// A default payload is all zero.
pub proof fn law_payload_default<const N: usize>(payload: Payload<N>, i: int)
    requires
        call_ensures(<Payload<N> as Default>::default, (), payload),
        0 <= i < N,
    ensures
        payload.timestamp == 0,
        payload.bytes@[i] == 0,
{
}

/// A clone of a payload is the same payload.
pub proof fn law_payload_clone<const N: usize>(payload: Payload<N>, copy: Payload<N>)
    requires
        call_ensures(<Payload<N> as Clone>::clone, (&payload,), copy),
    ensures
        copy == payload,
{
}

} // verus!
