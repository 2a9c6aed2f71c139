//! The state word of a slot: a dirty flag and a sequence number in one `u64`.
//!
//! ```text
//! [ dirty (1 bit, MSB) | seq_no (63 bits) ]
//!          bit 63            bits 0-62
//! ```
//!
//! * clean, number 0: the slot is empty and was never written;
//! * clean, number above 0: the slot holds a committed message;
//! * dirty, number above 0: the message of that number is being written;
//! * dirty, number 0: does not occur.
use crate::ring::Tag;
use crate::show::{begin, field, finish};
use core::fmt::{Debug, Formatter};
use core::sync::atomic::{AtomicU64, Ordering};
use vstd::prelude::*;

verus! {

/// The bit of the word that holds the dirty flag.
pub const DIRTY_BIT: u64 = 63;

/// The word in which only the dirty flag is set; sequence numbers stay below it.
pub const DIRTY_MASK: u64 = 0x8000_0000_0000_0000;

/// What a state word says.
#[derive(Clone, Copy, Debug, PartialEq, Eq, Structural)]
pub struct Stamp {
    /// Whether the slot is being written.
    pub dirty: bool,
    /// The number of the message in the slot.
    pub seq_no: u64,
}

impl Tag for Stamp {
    open spec fn is_dirty(self) -> bool {
        self.dirty
    }

    open spec fn number(self) -> u64 {
        self.seq_no
    }

    open spec fn kept(self) -> Stamp {
        stamp_of(word_of(self))
    }
}

/// The word that stands for a stamp. A number that does not fit in the low 63 bits
/// runs into the dirty flag.
pub open spec fn word_of(stamp: Stamp) -> int {
    if stamp.dirty {
        DIRTY_MASK + stamp.seq_no as int % DIRTY_MASK as int
    } else {
        stamp.seq_no as int
    }
}

/// The stamp that a word stands for.
pub open spec fn stamp_of(word: int) -> Stamp {
    Stamp { dirty: word >= DIRTY_MASK, seq_no: (word % DIRTY_MASK as int) as u64 }
}

/// A stamp whose number fits in the low 63 bits comes back from its word unchanged.
pub proof fn law_stamp_round_trip(stamp: Stamp)
    requires
        stamp.seq_no < DIRTY_MASK,
    ensures
        stamp_of(word_of(stamp)) == stamp,
        stamp.kept() == stamp,
{
}

/// Every word is the word of the stamp that it stands for.
pub proof fn law_word_round_trip(word: u64)
    ensures
        word_of(stamp_of(word as int)) == word,
        stamp_of(word as int).seq_no < DIRTY_MASK,
{
}

/// Packs a dirty flag and a sequence number into a word.
pub fn pack(dirty: bool, seq_no: u64) -> (word: u64)
    ensures
        word == word_of(Stamp { dirty, seq_no }),
{
    let flag: u64 = if dirty {
        1
    } else {
        0
    };
    assert((seq_no | (1u64 << 63u64)) == 0x8000_0000_0000_0000u64 + seq_no
        % 0x8000_0000_0000_0000u64) by (bit_vector);
    assert((seq_no | (0u64 << 63u64)) == seq_no) by (bit_vector);
    seq_no | (flag << DIRTY_BIT)
}

/// Reads the dirty flag and the sequence number from a word.
pub fn unpack(word: u64) -> (stamp: Stamp)
    ensures
        stamp == stamp_of(word as int),
{
    assert((word & 0x8000_0000_0000_0000u64 != 0) == (word >= 0x8000_0000_0000_0000u64))
        by (bit_vector);
    assert((word & !0x8000_0000_0000_0000u64) == (word % 0x8000_0000_0000_0000u64))
        by (bit_vector);
    Stamp { dirty: word & DIRTY_MASK != 0, seq_no: word & !DIRTY_MASK }
}

/// The word in an atomic cell that nobody else has access to. A cell is stored to through
/// `cell_store` alone, which borrows it exclusively, and never through a shared borrow.
pub uninterp spec fn word_in(cell: AtomicU64) -> u64;

/// `AtomicU64::new` makes a cell that holds the given word.
#[verifier::external_body]
fn cell_new(word: u64) -> (cell: AtomicU64)
    ensures
        word_in(cell) == word,
{
    AtomicU64::new(word)
}

/// `AtomicU64::load` returns the word in the cell and leaves it there. The
/// exclusive borrow keeps other threads from storing in between.
#[verifier::external_body]
fn cell_load(cell: &mut AtomicU64) -> (word: u64)
    ensures
        word == word_in(*old(cell)),
        word_in(*final(cell)) == word_in(*old(cell)),
{
    cell.load(Ordering::Acquire)
}

/// `AtomicU64::store` replaces the word in the cell. The exclusive borrow keeps
/// other threads from storing in between.
#[verifier::external_body]
fn cell_store(cell: &mut AtomicU64, word: u64)
    ensures
        word_in(*final(cell)) == word,
{
    cell.store(word, Ordering::Release)
}

/// The state of a slot, packed into one atomic word.
pub struct State {
    cell: AtomicU64,
}

impl Debug for State {
    /// Shows the flag and the number, as they are at the moment.
    fn fmt(&self, f: &mut Formatter<'_>) -> (result: Result<(), core::fmt::Error>) {
        let stamp = unpack(self.cell.load(Ordering::Acquire));
        let mut shown = begin(f, "State");
        field(&mut shown, "dirty", &stamp.dirty);
        field(&mut shown, "seq_no", &stamp.seq_no);
        finish(&mut shown)
    }
}

impl View for State {
    type V = Stamp;

    closed spec fn view(&self) -> Stamp {
        stamp_of(word_in(self.cell) as int)
    }
}

impl Default for State {
    /// The state of an empty slot.
    fn default() -> (state: State)
        ensures
            state@ == (Stamp { dirty: false, seq_no: 0 }),
    {
        State { cell: cell_new(0) }
    }
}

impl State {
    /// Creates a packed state. `seq_no` must fit in the low 63 bits.
    pub fn new(dirty: bool, seq_no: u64) -> (state: State)
        requires
            seq_no < DIRTY_MASK,
        ensures
            state@ == (Stamp { dirty, seq_no }),
    {
        State { cell: cell_new(pack(dirty, seq_no)) }
    }

    /// Returns `(dirty, seq_no)`.
    pub fn load(&mut self) -> (pair: (bool, u64))
        ensures
            pair == (old(self)@.dirty, old(self)@.seq_no),
            pair.1 < DIRTY_MASK,
            final(self)@ == old(self)@,
    {
        let stamp = unpack(cell_load(&mut self.cell));
        (stamp.dirty, stamp.seq_no)
    }

    /// Stores a new `(dirty, seq_no)` pair.
    pub fn store(&mut self, dirty: bool, seq_no: u64)
        ensures
            final(self)@ == (Stamp { dirty, seq_no }).kept(),
            seq_no < DIRTY_MASK ==> final(self)@ == (Stamp { dirty, seq_no }),
    {
        cell_store(&mut self.cell, pack(dirty, seq_no));
    }
}

} // verus!
