//! Signed 64-bit arithmetic modulo 2^64.
//!
//! Lengths, counts and totals are kept as `i64`. Where an exact value does
//! not fit, the stored value is the one congruent to it modulo 2^64, so sums
//! of stored values agree with the stored value of the exact sum.

use vstd::prelude::*;

verus! {

/// The signed 64-bit integer congruent to `x` modulo 2^64.
pub open spec fn wrap64(x: int) -> i64 {
    let r = x % 0x1_0000_0000_0000_0000;
    if r >= 0x8000_0000_0000_0000 {
        (r - 0x1_0000_0000_0000_0000) as i64
    } else {
        r as i64
    }
}

/// A value that fits in 64 signed bits is stored as it is.
pub proof fn lemma_wrap64_exact(x: int)
    requires
        i64::MIN <= x <= i64::MAX,
    ensures
        wrap64(x) == x,
{
}

/// The stored value differs from the exact one by a multiple of 2^64.
pub proof fn lemma_wrap64_residue(x: int)
    ensures
        (wrap64(x) - x) % 0x1_0000_0000_0000_0000 == 0,
{
}

/// Exact values that differ by a multiple of 2^64 are stored alike.
pub proof fn lemma_wrap64_congruent(x: int, y: int)
    requires
        (x - y) % 0x1_0000_0000_0000_0000 == 0,
    ensures
        wrap64(x) == wrap64(y),
{
}

/// Storing a partial sum before adding to it does not change the stored sum.
pub proof fn lemma_wrap64_add(a: int, b: int)
    ensures
        wrap64(wrap64(a) + b) == wrap64(a + b),
        wrap64(a + wrap64(b)) == wrap64(a + b),
        wrap64(wrap64(a) + wrap64(b)) == wrap64(a + b),
{
    lemma_wrap64_residue(a);
    lemma_wrap64_residue(b);
    lemma_wrap64_congruent(wrap64(a) + b, a + b);
    lemma_wrap64_congruent(a + wrap64(b), a + b);
    lemma_wrap64_congruent(wrap64(a) + wrap64(b), a + b);
}

/// Storing the operands before subtracting does not change the stored difference.
pub proof fn lemma_wrap64_sub(a: int, b: int)
    ensures
        wrap64(wrap64(a) - wrap64(b)) == wrap64(a - b),
{
    lemma_wrap64_residue(a);
    lemma_wrap64_residue(b);
    lemma_wrap64_congruent(wrap64(a) - wrap64(b), a - b);
}

/// An unsigned 64-bit count as a signed one.
pub fn wrap_u64(x: u64) -> (r: i64)
    ensures
        r == wrap64(x as int),
{
    if x <= 0x7fff_ffff_ffff_ffff {
        x as i64
    } else {
        let low: u64 = x - 0x8000_0000_0000_0000;
        (low as i64) + i64::MIN
    }
}

/// The sum of two signed 64-bit values, modulo 2^64.
pub fn wrap_add(a: i64, b: i64) -> (r: i64)
    ensures
        r == wrap64(a + b),
{
    a.wrapping_add(b)
}

/// The difference of two signed 64-bit values, modulo 2^64.
pub fn wrap_sub(a: i64, b: i64) -> (r: i64)
    ensures
        r == wrap64(a - b),
{
    a.wrapping_sub(b)
}

} // verus!
