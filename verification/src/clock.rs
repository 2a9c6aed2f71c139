//! Clock readings as plain numbers.
use vstd::prelude::*;

verus! {

/// The nanoseconds in a second.
pub const NANOS_PER_SECOND: u64 = 1_000_000_000;

/// The nanoseconds of a clock reading in seconds and nanoseconds.
pub fn timespec_ns(tv_sec: u64, tv_nsec: u64) -> (ns: u64)
    requires
        tv_sec * NANOS_PER_SECOND + tv_nsec <= u64::MAX,
    ensures
        ns == tv_sec * NANOS_PER_SECOND + tv_nsec,
{
    tv_sec * NANOS_PER_SECOND + tv_nsec
}

/// Whether [`timespec_ns`] can tell a clock reading in nanoseconds.
pub fn timespec_fits(tv_sec: u64, tv_nsec: u64) -> (fits: bool)
    ensures
        fits == (tv_sec * NANOS_PER_SECOND + tv_nsec <= u64::MAX),
{
    match tv_sec.checked_mul(NANOS_PER_SECOND) {
        Some(ns) => tv_nsec <= u64::MAX - ns,
        None => false,
    }
}

/// Readings and their nanoseconds are ordered alike: a later reading is a greater number, one that
/// is no earlier is no smaller, and only the reading of zero is zero.
pub proof fn law_time_order(sec: u64, nsec: u64, later_sec: u64, later_nsec: u64)
    requires
        nsec < NANOS_PER_SECOND,
        later_nsec < NANOS_PER_SECOND,
    ensures
        ({
            let earlier = sec < later_sec || sec == later_sec && nsec < later_nsec;
            let ns = sec * NANOS_PER_SECOND + nsec;
            let later_ns = later_sec * NANOS_PER_SECOND + later_nsec;
            &&& earlier <==> ns < later_ns
            &&& sec == later_sec && nsec == later_nsec <==> ns == later_ns
            &&& ns > 0 <==> sec > 0 || nsec > 0
        }),
{
}

/// The count of a cycle counter that is read as two halves.
pub fn cycle_count(high: u32, low: u32) -> (count: u64)
    ensures
        count == high * 0x1_0000_0000 + low,
{
    assert(((high as u64) << 32u64) | (low as u64) == high * 0x1_0000_0000u64 + low)
        by (bit_vector);
    ((high as u64) << 32) | (low as u64)
}

} // verus!
