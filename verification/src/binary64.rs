//! The IEEE 754 binary64 format, read off a 64-bit pattern.
//!
//! A pattern has a sign (bit 63), an 11-bit exponent field and a 52-bit
//! fraction field. Every finite number is a whole multiple of `2^-1074`, so
//! its exact value is described here by an integer: the value divided by
//! `2^-1074`.
use vstd::arithmetic::power2::{
    lemma_pow2_pos, lemma_pow2_strictly_increases, lemma_pow2_unfold, pow2,
};
use vstd::prelude::*;

verus! {

/// The sign bit alone: the pattern of negative zero.
pub const SIGN_BIT: u64 = 0x8000_0000_0000_0000;

/// One step of the exponent field, `2^52`; also the hidden bit of a normal number.
pub const HIDDEN_BIT: u64 = 0x0010_0000_0000_0000;

/// Positive infinity. Magnitudes above it are NaNs.
pub const INFINITY: u64 = 0x7ff0_0000_0000_0000;

/// The NaN that every invalid operation of this library returns.
pub const QUIET_NAN: u64 = 0x7ff8_0000_0000_0000;

/// Positive zero.
pub const ZERO: u64 = 0;

/// The number one.
pub const ONE: u64 = 0x3ff0_0000_0000_0000;

/// The pattern without its sign bit.
pub open spec fn magnitude_bits(bits: u64) -> u64 {
    (bits % SIGN_BIT) as u64
}

/// Whether the sign bit is set (true of `-0` and of some NaNs too).
pub open spec fn is_negative(bits: u64) -> bool {
    bits >= SIGN_BIT
}

/// The 11-bit exponent field.
pub open spec fn exponent_field(bits: u64) -> nat {
    (magnitude_bits(bits) / HIDDEN_BIT) as nat
}

/// The 52-bit fraction field.
pub open spec fn fraction_field(bits: u64) -> nat {
    (magnitude_bits(bits) % HIDDEN_BIT) as nat
}

/// Not a number: the exponent field is all ones and the fraction is not zero.
pub open spec fn is_nan(bits: u64) -> bool {
    magnitude_bits(bits) > INFINITY
}

/// Plus or minus infinity.
pub open spec fn is_infinite(bits: u64) -> bool {
    magnitude_bits(bits) == INFINITY
}

/// Zero, subnormal or normal.
pub open spec fn is_finite(bits: u64) -> bool {
    magnitude_bits(bits) < INFINITY
}

/// The significand as an integer below `2^53`: the fraction, with the hidden
/// bit in front unless the exponent field is zero.
pub open spec fn significand(bits: u64) -> nat {
    if exponent_field(bits) == 0 {
        fraction_field(bits)
    } else {
        HIDDEN_BIT as nat + fraction_field(bits)
    }
}

/// The power of two that the significand is scaled by, counted from `2^-1074`.
pub open spec fn quantum(bits: u64) -> nat {
    if exponent_field(bits) == 0 {
        0
    } else {
        (exponent_field(bits) - 1) as nat
    }
}

/// The absolute value in units of `2^-1074`. On an infinity the same formula
/// gives `2^2098`, above every finite magnitude.
pub open spec fn scaled_magnitude(bits: u64) -> nat {
    significand(bits) * pow2(quantum(bits))
}

/// The value in units of `2^-1074`.
pub open spec fn scaled_value(bits: u64) -> int {
    if is_negative(bits) {
        -(scaled_magnitude(bits) as int)
    } else {
        scaled_magnitude(bits) as int
    }
}

/// The significand and the quantum of a finite magnitude. Together they give
/// the pattern back: `magnitude == quantum * 2^52 + significand`.
pub fn decode(magnitude: u64) -> (r: (u64, u64))
    requires
        magnitude < INFINITY,
    ensures
        r.0 == significand(magnitude),
        r.1 == quantum(magnitude),
        r.0 < 2 * HIDDEN_BIT,
        r.1 > 0 ==> r.0 >= HIDDEN_BIT,
        r.1 <= 2045,
        magnitude == r.1 * HIDDEN_BIT + r.0,
        magnitude > 0 ==> r.0 > 0,
{
    let exponent: u64 = magnitude / HIDDEN_BIT;
    let fraction: u64 = magnitude % HIDDEN_BIT;
    if exponent == 0 {
        (fraction, 0)
    } else {
        (fraction + HIDDEN_BIT, exponent - 1)
    }
}

/// Magnitude bits are ordered as the magnitudes they stand for.
pub proof fn lemma_magnitude_order(x: u64, y: u64)
    requires
        x < y < SIGN_BIT,
    ensures
        scaled_magnitude(x) < scaled_magnitude(y),
{
    let mx = significand(x);
    let kx = quantum(x);
    let my = significand(y);
    let ky = quantum(y);
    lemma_pow2_pos(kx);
    lemma_pow2_pos(ky);
    assert(kx <= ky);
    if kx == ky {
        assert(mx < my);
        assert(mx * pow2(kx) < my * pow2(kx)) by (nonlinear_arith)
            requires
                mx < my,
                pow2(kx) > 0,
        ;
    } else {
        lemma_pow2_unfold(kx + 1);
        if kx + 1 < ky {
            lemma_pow2_strictly_increases(kx + 1, ky);
        }
        assert(mx * pow2(kx) < my * pow2(ky)) by (nonlinear_arith)
            requires
                mx < 0x0020_0000_0000_0000,
                my >= 0x0010_0000_0000_0000,
                pow2(kx) > 0,
                2 * pow2(kx) <= pow2(ky),
        ;
    }
}

/// Only the two zeros have magnitude zero.
pub proof fn lemma_magnitude_zero(x: u64)
    requires
        x < SIGN_BIT,
    ensures
        scaled_magnitude(x) == 0 <==> x == 0,
{
    if x > 0 {
        lemma_magnitude_order(0, x);
    } else {
        assert(significand(0) * pow2(quantum(0)) == 0) by (nonlinear_arith)
            requires
                significand(0) == 0,
        ;
    }
}

/// [`ZERO`] is the number zero, and [`ONE`] the number one: `2^1074` units
/// of `2^-1074`.
pub proof fn lemma_zero_and_one()
    ensures
        scaled_value(ZERO) == 0,
        scaled_value(ONE) == pow2(1074),
{
    assert(significand(ZERO) == 0);
    assert(significand(ZERO) * pow2(quantum(ZERO)) == 0) by (nonlinear_arith)
        requires
            significand(ZERO) == 0,
    ;
    assert(significand(ONE) == HIDDEN_BIT);
    assert(quantum(ONE) == 1022);
    vstd::arithmetic::power2::lemma2_to64_rest();
    vstd::arithmetic::power2::lemma_pow2_adds(52, 1022);
}

/// The same number with its sign flipped; exact, also on zeros, infinities and NaNs.
pub open spec fn negated(bits: u64) -> u64 {
    if is_negative(bits) {
        (bits - SIGN_BIT) as u64
    } else {
        (bits + SIGN_BIT) as u64
    }
}

/// Flips the sign bit.
pub fn negate(bits: u64) -> (r: u64)
    ensures
        r == negated(bits),
{
    if bits >= SIGN_BIT {
        bits - SIGN_BIT
    } else {
        bits + SIGN_BIT
    }
}

/// Clears the sign bit.
pub fn absolute(bits: u64) -> (r: u64)
    ensures
        r == magnitude_bits(bits),
{
    bits % SIGN_BIT
}

} // verus!
