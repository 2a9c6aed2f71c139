//! How many slots a ring has, and which of them a message falls on.
use crate::ring::home;
use vstd::arithmetic::div_mod::{lemma_add_mod_noop, lemma_mod_bound, lemma_small_mod};
use vstd::arithmetic::power2::{
    lemma2_to64, lemma2_to64_rest, lemma_pow2_pos, lemma_pow2_strictly_increases,
    lemma_pow2_unfold, pow2,
};
use vstd::bits::{lemma_u64_low_bits_mask_is_mod, low_bits_mask};
use vstd::prelude::*;

verus! {

/// The powers of two.
pub open spec fn is_power_of_two(n: int) -> bool {
    exists|k: nat| n == #[trigger] pow2(k)
}

/// What a ring may have for a capacity: a power of two, and never less than 2.
pub open spec fn is_capacity(n: int) -> bool {
    n >= 2 && is_power_of_two(n)
}

/// The effective capacity of a ring of at least `capacity` slots: `capacity`,
/// rounded up to the next power of two, with a minimum of 2.
pub fn effective_capacity(capacity: usize) -> (n: usize)
    requires
        capacity <= usize::MAX / 2 + 1,
    ensures
        is_capacity(n as int),
        n >= capacity,
        forall|m: int| is_capacity(m) && m >= capacity ==> n <= m,
{
    let mut n: usize = 2;
    let ghost mut k: nat = 1;
    proof {
        lemma2_to64();
    }
    while n < capacity
        invariant
            capacity <= usize::MAX / 2 + 1,
            k >= 1,
            n == pow2(k),
            k > 1 ==> pow2((k - 1) as nat) < capacity,
        decreases (if n < capacity { capacity - n } else { 0 }),
    {
        proof {
            lemma_pow2_unfold((k + 1) as nat);
            lemma_pow2_pos(k);
            k = k + 1;
        }
        n = n * 2;
    }
    proof {
        lemma2_to64();
        if k > 1 {
            lemma_pow2_strictly_increases(1, k);
        }
        assert forall|m: int| is_capacity(m) && m >= capacity implies n <= m by {
            let j = choose|j: nat| m == #[trigger] pow2(j);
            if j < k {
                if j + 1 < k {
                    lemma_pow2_strictly_increases(j, (k - 1) as nat);
                }
            } else if j > k {
                lemma_pow2_strictly_increases(k, j);
            }
        }
    }
    n
}

/// The slot of message `seq_no` in a ring of `capacity` slots. The capacity is a
/// power of two, so a mask takes the remainder.
pub fn slot_index(seq_no: u64, capacity: usize) -> (index: usize)
    requires
        is_capacity(capacity as int),
    ensures
        index == home(seq_no as int, 0, capacity as int),
        index < capacity,
{
    let mask: u64 = capacity as u64 - 1;
    proof {
        let k = choose|k: nat| capacity as int == #[trigger] pow2(k);
        lemma2_to64();
        if k >= 64 {
            lemma2_to64_rest();
            if k > 64 {
                lemma_pow2_strictly_increases(64, k);
            }
        }
        lemma_u64_low_bits_mask_is_mod(seq_no, k);
        assert(low_bits_mask(k) == mask);
        lemma_mod_bound(seq_no as int, capacity as int);
    }
    (seq_no & mask) as usize
}

/// The index after `position` in a ring of `len` slots.
pub open spec fn following(position: int, len: int) -> int {
    (position + 1) % len
}

/// The index after `position` in a ring of `len` slots.
pub fn next_index(position: usize, len: usize) -> (next: usize)
    requires
        len >= 2,
    ensures
        next == following(position as int, len as int),
        next < len,
{
    proof {
        lemma_mod_bound(position as int, len as int);
        lemma_mod_bound(position + 1, len as int);
        lemma_add_mod_noop(position as int, 1, len as int);
        lemma_small_mod(1, len as nat);
    }
    (position % len + 1) % len
}

} // verus!
