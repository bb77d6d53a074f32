//! A four-component tuple `(x, y, z, w)` for geometry: points carry `w = 1`,
//! vectors carry `w = 0`.
//!
//! Components are IEEE 754 binary64 numbers, carried as their 64-bit patterns
//! so that every operation is integer arithmetic the verifier can follow.
//! The module [`binary64`] gives each pattern its exact mathematical value.
use vstd::arithmetic::power2::pow2;
use vstd::prelude::*;

pub mod arith;
pub mod binary64;
pub mod decimal;
pub mod rounding;
pub mod tuple;

verus! {

/// The tolerance of [`approximate_eq`]: the binary64 number nearest to `0.00001`.
pub const EPSILON: u64 = 0x3ee4_f8b5_88e3_68f1;

/// [`EPSILON`] is `m * 2^-69` for a whole `m`, and the nearest such number to
/// one hundred-thousandth: `m * 100000` misses `2^69` by less than half of
/// `100000`.
pub proof fn lemma_epsilon()
    ensures
        binary64::quantum(EPSILON) + 69 == 1074,
        pow2(69) - 50000 < binary64::significand(EPSILON) * 100000 < pow2(69) + 50000,
{
    vstd::arithmetic::power2::lemma2_to64();
    vstd::arithmetic::power2::lemma_pow2_adds(64, 5);
    assert(binary64::significand(EPSILON) == 0x0014_f8b5_88e3_68f1);
}

/// Two numbers are approximately equal when the magnitude of their rounded
/// difference is strictly below [`EPSILON`]. A NaN is approximately equal to
/// nothing, and neither is an infinity.
pub open spec fn approximately_equal(n0: u64, n1: u64) -> bool {
    arith::is_less(binary64::magnitude_bits(arith::difference(n0, n1)), EPSILON)
}

/// Tests two binary64 numbers for approximate equality.
pub fn approximate_eq(n0: u64, n1: u64) -> (r: bool)
    ensures
        r == approximately_equal(n0, n1),
{
    arith::less(binary64::absolute(arith::minus(n0, n1)), EPSILON)
}

/// The exact distance between two finite numbers, in units of `2^-1074`.
pub open spec fn exact_distance(n0: u64, n1: u64) -> nat {
    let d = binary64::scaled_value(n0) - binary64::scaled_value(n1);
    if d >= 0 {
        d as nat
    } else {
        (-d) as nat
    }
}

/// What approximate equality means for the exact values: two finite numbers
/// are approximately equal when their exact distance is at most halfway
/// between [`EPSILON`] and the number just below it. Any larger distance
/// rounds to [`EPSILON`] or more.
pub proof fn lemma_approximately_equal_exact(n0: u64, n1: u64)
    requires
        binary64::is_finite(n0),
        binary64::is_finite(n1),
    ensures
        approximately_equal(n0, n1) <==> 2 * exact_distance(n0, n1)
            <= binary64::scaled_magnitude((EPSILON - 1) as u64) + binary64::scaled_magnitude(
            EPSILON,
        ),
{
    let distance = exact_distance(n0, n1);
    let bits = binary64::magnitude_bits(arith::difference(n0, n1));
    arith::lemma_negated(n1);
    binary64::lemma_magnitude_zero(0);
    rounding::lemma_rounded_at_most(0, 0);
    assert(bits == rounding::rounded_bits(distance));
    if bits < EPSILON {
        binary64::lemma_magnitude_order(bits, EPSILON);
    }
    if bits > EPSILON {
        binary64::lemma_magnitude_order(EPSILON, bits);
    }
    rounding::lemma_rounded_below(distance, EPSILON);
}

/// Approximate equality does not depend on the order of its operands.
pub proof fn lemma_approximately_equal_symmetric(n0: u64, n1: u64)
    ensures
        approximately_equal(n0, n1) == approximately_equal(n1, n0),
{
    arith::lemma_difference_swapped(n0, n1);
}

/// Every finite number is approximately equal to itself.
pub proof fn lemma_approximately_equal_reflexive(n: u64)
    requires
        binary64::is_finite(n),
    ensures
        approximately_equal(n, n),
{
    arith::lemma_difference_with_itself(n);
    binary64::lemma_magnitude_order(0, EPSILON);
    binary64::lemma_magnitude_zero(0);
}

} // verus!
