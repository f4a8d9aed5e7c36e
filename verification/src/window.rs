//! Time windows: event times are rounded up to the next bucket boundary.

use vstd::prelude::*;
use vstd::arithmetic::div_mod::lemma_fundamental_div_mod;
use vstd::arithmetic::div_mod::lemma_div_is_ordered;
use vstd::arithmetic::div_mod::lemma_mod_multiples_basic;
use vstd::arithmetic::mul::lemma_mul_inequality;
use vstd::arithmetic::mul::lemma_mul_is_distributive_add_other_way;
use vstd::arithmetic::mul::lemma_mul_is_commutative;

verus! {

/// Nanoseconds in one millisecond.
pub const NANOS_PER_MILLI: u128 = 1_000_000;

/// A granularity of no width counts as one millisecond.
pub open spec fn clamped(granularity_ms: u64) -> int {
    if granularity_ms == 0 {
        1
    } else {
        granularity_ms as int
    }
}

/// The width of a bucket in milliseconds for a granularity given in
/// nanoseconds: the whole milliseconds in it, kept to their low 64 bits,
/// and never less than one.
pub open spec fn granularity_ms_of(granularity_ns: u128) -> u64 {
    let ms = (granularity_ns as int / 1_000_000) % 0x1_0000_0000_0000_0000;
    if ms == 0 {
        1
    } else {
        ms as u64
    }
}

/// The boundary that closes the bucket holding `time_ms`: the least multiple
/// of the granularity that lies strictly after `time_ms`.
pub open spec fn bucket_of(time_ms: u64, granularity_ms: u64) -> int {
    (time_ms as int / clamped(granularity_ms) + 1) * clamped(granularity_ms)
}

/// A bucket boundary lies strictly after the time it was computed from, by
/// at most one granularity, and is a multiple of the granularity.
pub proof fn lemma_bucket_rounds_up(time_ms: u64, granularity_ms: u64)
    ensures
        bucket_of(time_ms, granularity_ms) > time_ms,
        bucket_of(time_ms, granularity_ms) - clamped(granularity_ms) <= time_ms,
        bucket_of(time_ms, granularity_ms) % clamped(granularity_ms) == 0,
{
    let t = time_ms as int;
    let g = clamped(granularity_ms);
    let q = t / g;
    lemma_fundamental_div_mod(t, g);
    lemma_mul_is_distributive_add_other_way(g, q, 1);
    lemma_mul_is_commutative(g, q);
    assert((q + 1) * g == q * g + g);
    lemma_mod_multiples_basic(q + 1, g);
}

/// Later times never fall into earlier buckets.
pub proof fn lemma_bucket_monotone(earlier_ms: u64, later_ms: u64, granularity_ms: u64)
    requires
        earlier_ms <= later_ms,
    ensures
        bucket_of(earlier_ms, granularity_ms) <= bucket_of(later_ms, granularity_ms),
{
    let g = clamped(granularity_ms);
    lemma_div_is_ordered(earlier_ms as int, later_ms as int, g);
    lemma_mul_inequality(earlier_ms as int / g + 1, later_ms as int / g + 1, g);
}

/// The bucket width in milliseconds that a granularity in nanoseconds gives.
pub fn granularity_ms(granularity_ns: u128) -> (ms: u64)
    ensures
        ms == granularity_ms_of(granularity_ns),
        ms >= 1,
{
    let whole: u128 = granularity_ns / NANOS_PER_MILLI;
    let low: u128 = whole % 0x1_0000_0000_0000_0000;
    if low == 0 {
        1
    } else {
        low as u64
    }
}

/// Rounds an event time up to the boundary that closes its bucket.
pub fn bucket(time_ms: u64, granularity_ms: u64) -> (boundary: u128)
    ensures
        boundary == bucket_of(time_ms, granularity_ms),
        boundary > time_ms,
{
    let g: u128 = if granularity_ms == 0 {
        1
    } else {
        granularity_ms as u128
    };
    let q: u128 = time_ms as u128 / g;
    proof {
        lemma_bucket_rounds_up(time_ms, granularity_ms);
        assert(q == time_ms as int / clamped(granularity_ms));
        assert((q + 1) * g == bucket_of(time_ms, granularity_ms));
    }
    (q + 1) * g
}

} // verus!
