//! The wide state word of a slot: a dirty flag, a sequence number and a word of the
//! user's, in one `u128`.
//!
//! ```text
//! 127:      dirty flag
//! 64-126:   seq_no (63 bits)
//! 0-63:     user_state (64 bits)
//! ```
//!
//! The meaning of the flag and of the number is that of [`crate::state`].
use crate::ring::Tag;
use crate::show::{begin, field, finish};
use crate::state::DIRTY_MASK;
use core::fmt::{Debug, Formatter};
use portable_atomic::{AtomicU128, Ordering};
use vstd::prelude::*;

verus! {

/// The bit of the word that holds the dirty flag.
pub const WIDE_DIRTY_BIT: u32 = 127;

/// The word in which only the dirty flag is set.
pub const WIDE_DIRTY_MASK: u128 = 0x8000_0000_0000_0000_0000_0000_0000_0000;

/// The lowest bit of the sequence number.
pub const SEQ_SHIFT: u32 = 64;

/// The bits of the word that hold the sequence number.
pub const SEQ_MASK: u128 = 0x7fff_ffff_ffff_ffff_0000_0000_0000_0000;

/// The bits of the word that hold the user's state.
pub const USER_MASK: u128 = 0xffff_ffff_ffff_ffff;

/// What a wide state word says.
#[derive(Clone, Copy, Debug, PartialEq, Eq, Structural)]
pub struct WideStamp {
    /// Whether the slot is being written.
    pub dirty: bool,
    /// The number of the message in the slot.
    pub seq_no: u64,
    /// What the user published with the message.
    pub user_state: u64,
}

impl Tag for WideStamp {
    open spec fn is_dirty(self) -> bool {
        self.dirty
    }

    open spec fn number(self) -> u64 {
        self.seq_no
    }

    open spec fn kept(self) -> WideStamp {
        wide_stamp_of(wide_word_of(self))
    }
}

/// The word that stands for a stamp. A number that does not fit in 63 bits runs into
/// the dirty flag.
pub open spec fn wide_word_of(stamp: WideStamp) -> int {
    let high = if stamp.dirty {
        DIRTY_MASK + stamp.seq_no as int % DIRTY_MASK as int
    } else {
        stamp.seq_no as int
    };
    high * 0x1_0000_0000_0000_0000 + stamp.user_state
}

/// The stamp that a word stands for.
pub open spec fn wide_stamp_of(word: int) -> WideStamp {
    let high = word / 0x1_0000_0000_0000_0000;
    WideStamp {
        dirty: high >= DIRTY_MASK,
        seq_no: (high % DIRTY_MASK as int) as u64,
        user_state: (word % 0x1_0000_0000_0000_0000) as u64,
    }
}

/// A stamp whose number fits in 63 bits comes back from its word unchanged.
pub proof fn law_wide_stamp_round_trip(stamp: WideStamp)
    requires
        stamp.seq_no < DIRTY_MASK,
    ensures
        wide_stamp_of(wide_word_of(stamp)) == stamp,
        stamp.kept() == stamp,
{
}

/// Every word is the word of the stamp that it stands for.
pub proof fn law_wide_word_round_trip(word: u128)
    ensures
        wide_word_of(wide_stamp_of(word as int)) == word,
        wide_stamp_of(word as int).seq_no < DIRTY_MASK,
{
}

/// Packs a dirty flag, a sequence number and the user's state into a word.
pub fn wide_pack(dirty: bool, seq_no: u64, user_state: u64) -> (word: u128)
    ensures
        word == wide_word_of(WideStamp { dirty, seq_no, user_state }),
{
    let flag: u128 = if dirty {
        1
    } else {
        0
    };
    let dirty_bits: u128 = flag << WIDE_DIRTY_BIT;
    let seq_bits: u128 = (seq_no as u128) << SEQ_SHIFT;
    let user_bits: u128 = user_state as u128;
    assert(((1u128 << 127u32) | ((seq_no as u128) << 64u32) | (user_state as u128)) == (
    0x8000_0000_0000_0000u64 + seq_no % 0x8000_0000_0000_0000u64) * 0x1_0000_0000_0000_0000u128
        + user_state) by (bit_vector);
    assert(((0u128 << 127u32) | ((seq_no as u128) << 64u32) | (user_state as u128)) == seq_no
        * 0x1_0000_0000_0000_0000u128 + user_state) by (bit_vector);
    dirty_bits | seq_bits | user_bits
}

/// Reads the dirty flag, the sequence number and the user's state from a word.
pub fn wide_unpack(word: u128) -> (stamp: WideStamp)
    ensures
        stamp == wide_stamp_of(word as int),
{
    assert((word & 0x8000_0000_0000_0000_0000_0000_0000_0000u128 != 0) == (word
        / 0x1_0000_0000_0000_0000u128 >= 0x8000_0000_0000_0000u128)) by (bit_vector);
    assert(((word & 0x7fff_ffff_ffff_ffff_0000_0000_0000_0000u128) >> 64u32) == (word
        / 0x1_0000_0000_0000_0000u128) % 0x8000_0000_0000_0000u128) by (bit_vector);
    assert((word & 0xffff_ffff_ffff_ffffu128) == word % 0x1_0000_0000_0000_0000u128)
        by (bit_vector);
    WideStamp {
        dirty: (word & WIDE_DIRTY_MASK) != 0,
        seq_no: ((word & SEQ_MASK) >> SEQ_SHIFT) as u64,
        user_state: (word & USER_MASK) as u64,
    }
}

/// `portable_atomic::AtomicU128`, carried as an opaque value.
#[verifier::external_type_specification]
#[verifier::external_body]
pub struct ExAtomicU128(AtomicU128);

/// The word in a wide atomic cell that nobody else has access to.
pub uninterp spec fn wide_word_in(cell: AtomicU128) -> u128;

/// `AtomicU128::new` makes a cell that holds the given word.
#[verifier::external_body]
fn wide_cell_new(word: u128) -> (cell: AtomicU128)
    ensures
        wide_word_in(cell) == word,
{
    AtomicU128::new(word)
}

/// `AtomicU128::load` returns the word in the cell and leaves it there. The
/// exclusive borrow keeps other threads from storing in between.
#[verifier::external_body]
fn wide_cell_load(cell: &mut AtomicU128) -> (word: u128)
    ensures
        word == wide_word_in(*old(cell)),
        wide_word_in(*final(cell)) == wide_word_in(*old(cell)),
{
    cell.load(Ordering::SeqCst)
}

/// `AtomicU128::store` replaces the word in the cell. The exclusive borrow keeps
/// other threads from storing in between.
#[verifier::external_body]
fn wide_cell_store(cell: &mut AtomicU128, word: u128)
    ensures
        wide_word_in(*final(cell)) == word,
{
    cell.store(word, Ordering::SeqCst)
}

/// `AtomicU128::load` through a shared borrow, under which others may store: nothing is claimed of
/// the word.
#[verifier::external_body]
fn wide_cell_glance(cell: &AtomicU128) -> (word: u128) {
    cell.load(Ordering::SeqCst)
}

/// The state of a slot, packed into one wide atomic word.
pub struct State {
    cell: AtomicU128,
}

impl Debug for State {
    /// Shows the flag, the number and the user's state, as they are at the moment.
    fn fmt(&self, f: &mut Formatter<'_>) -> (result: Result<(), core::fmt::Error>) {
        let stamp = wide_unpack(wide_cell_glance(&self.cell));
        let mut shown = begin(f, "State");
        field(&mut shown, "dirty", &stamp.dirty);
        field(&mut shown, "seq_no", &stamp.seq_no);
        field(&mut shown, "user_state", &stamp.user_state);
        finish(&mut shown)
    }
}

impl View for State {
    type V = WideStamp;

    closed spec fn view(&self) -> WideStamp {
        wide_stamp_of(wide_word_in(self.cell) as int)
    }
}

impl Default for State {
    /// The state of an empty slot.
    fn default() -> (state: State)
        ensures
            state@ == (WideStamp { dirty: false, seq_no: 0, user_state: 0 }),
    {
        State { cell: wide_cell_new(0) }
    }
}

impl State {
    /// Creates a packed state. `seq_no` must fit in 63 bits.
    pub fn new(dirty: bool, seq_no: u64, user_state: u64) -> (state: State)
        requires
            seq_no < DIRTY_MASK,
        ensures
            state@ == (WideStamp { dirty, seq_no, user_state }),
    {
        State { cell: wide_cell_new(wide_pack(dirty, seq_no, user_state)) }
    }

    /// Returns `(dirty, seq_no, user_state)`.
    pub fn load(&mut self) -> (triple: (bool, u64, u64))
        ensures
            triple == (old(self)@.dirty, old(self)@.seq_no, old(self)@.user_state),
            triple.1 < DIRTY_MASK,
            final(self)@ == old(self)@,
    {
        let stamp = wide_unpack(wide_cell_load(&mut self.cell));
        (stamp.dirty, stamp.seq_no, stamp.user_state)
    }

    /// Stores a new `(dirty, seq_no, user_state)` triple.
    pub fn store(&mut self, dirty: bool, seq_no: u64, user_state: u64)
        ensures
            final(self)@ == (WideStamp { dirty, seq_no, user_state }).kept(),
            seq_no < DIRTY_MASK ==> final(self)@ == (WideStamp { dirty, seq_no, user_state }),
    {
        wide_cell_store(&mut self.cell, wide_pack(dirty, seq_no, user_state));
    }
}

} // verus!
