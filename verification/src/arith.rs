//! Addition, subtraction and ordering of binary64 numbers, on bit patterns.
//!
//! Each result is the exact result, rounded once to the nearest binary64
//! number with ties to the even significand. Every NaN result is
//! [`QUIET_NAN`].
use crate::binary64::{
    decode, is_finite, is_infinite, is_nan, is_negative, lemma_magnitude_order,
    lemma_magnitude_zero, magnitude_bits, negate, negated, quantum, scaled_magnitude,
    scaled_value, significand, HIDDEN_BIT, INFINITY, QUIET_NAN, SIGN_BIT, ZERO,
};
use crate::rounding::{
    distance, lemma_rounded_is_nearest, lemma_rounding, packed, round_to_nearest,
    rounded_bits,
};
use vstd::arithmetic::power2::{
    lemma2_to64, lemma2_to64_rest, lemma_pow2_adds, lemma_pow2_pos,
    lemma_pow2_strictly_increases, lemma_pow2_unfold, pow2,
};
use vstd::prelude::*;

verus! {

/// A magnitude with a sign bit in front.
pub open spec fn with_sign(negative: bool, magnitude: u64) -> u64 {
    if negative {
        (SIGN_BIT + magnitude) as u64
    } else {
        magnitude
    }
}

/// The pattern of an exact, finite result `exact`, rounded. An exact zero is
/// `-0` only where `negative_zero` says so.
pub open spec fn rounded(exact: int, negative_zero: bool) -> u64 {
    if exact > 0 {
        rounded_bits(exact as nat)
    } else if exact < 0 {
        with_sign(true, rounded_bits((-exact) as nat))
    } else if negative_zero {
        SIGN_BIT
    } else {
        ZERO
    }
}

/// The sum of two numbers.
///
/// A NaN operand gives a NaN, and so do two infinities of opposite sign; an
/// infinity with anything else stays. Two finite numbers give their exact sum,
/// rounded; a sum of exactly zero is `+0` unless both operands are negative.
pub open spec fn sum(a: u64, b: u64) -> u64 {
    if is_nan(a) || is_nan(b) {
        QUIET_NAN
    } else if is_infinite(a) && is_infinite(b) {
        if is_negative(a) == is_negative(b) {
            a
        } else {
            QUIET_NAN
        }
    } else if is_infinite(a) {
        a
    } else if is_infinite(b) {
        b
    } else {
        rounded(scaled_value(a) + scaled_value(b), is_negative(a) && is_negative(b))
    }
}

/// The difference `a - b`: the sum of `a` and `b` negated.
pub open spec fn difference(a: u64, b: u64) -> u64 {
    sum(a, negated(b))
}

/// Rounding the magnitude of a finite number gives the number back.
pub proof fn lemma_rounded_exact(magnitude: u64)
    requires
        magnitude < INFINITY,
    ensures
        rounded_bits(scaled_magnitude(magnitude)) == magnitude,
{
    let m = significand(magnitude);
    let k = quantum(magnitude);
    lemma_pow2_pos(k);
    lemma_rounding(scaled_magnitude(magnitude), m, k, 0);
    assert(packed(k, m) == magnitude);
}

/// A number at least `2^55` quanta below `x` does not move `x`, added or
/// subtracted: it is less than a quarter of the spacing at `x`.
proof fn lemma_negligible(x: u64, y: u64)
    requires
        x < INFINITY,
        0 < y < INFINITY,
        quantum(x) >= quantum(y) + 55,
    ensures
        scaled_magnitude(y) < scaled_magnitude(x),
        rounded_bits(scaled_magnitude(x) + scaled_magnitude(y)) == x,
        rounded_bits((scaled_magnitude(x) - scaled_magnitude(y)) as nat) == x,
{
    let mx = significand(x);
    let kx = quantum(x);
    let my = significand(y);
    let ky = quantum(y);
    let big = scaled_magnitude(x);
    let small = scaled_magnitude(y);
    let j = (kx - 1) as nat;
    let i = (kx - 2) as nat;
    let unit = pow2(kx);
    lemma_pow2_pos(ky);
    lemma_pow2_pos(i);
    lemma_pow2_unfold(kx);
    lemma_pow2_unfold(j);
    lemma_pow2_adds(53, ky);
    lemma2_to64_rest();
    if 53 + ky < i {
        lemma_pow2_strictly_increases(53 + ky, i);
    }
    assert(small < pow2(53 + ky)) by (nonlinear_arith)
        requires
            small == my * pow2(ky),
            my < 0x0020_0000_0000_0000,
            pow2(ky) > 0,
            pow2(53 + ky) == 0x0020_0000_0000_0000 * pow2(ky),
    ;
    assert(4 * small < unit);
    assert(my > 0);
    assert(small > 0) by (nonlinear_arith)
        requires
            small == my * pow2(ky),
            my > 0,
            pow2(ky) > 0,
    ;
    assert(big >= 0x0010_0000_0000_0000 * unit) by (nonlinear_arith)
        requires
            big == mx * unit,
            mx >= 0x0010_0000_0000_0000,
    ;
    assert(packed(kx, mx) == x);
    lemma_rounding(big + small, mx, kx, small);
    if mx > HIDDEN_BIT {
        let q = (mx - 1) as nat;
        let r = (unit - small) as nat;
        assert(big - small == q * unit + r) by (nonlinear_arith)
            requires
                big == mx * unit,
                q == mx - 1,
                r == unit - small,
        ;
        lemma_rounding((big - small) as nat, q, kx, r);
    } else {
        let q: nat = 0x001f_ffff_ffff_ffff;
        let half = pow2(j);
        let r = (half - small) as nat;
        assert(big - small == q * half + r) by (nonlinear_arith)
            requires
                big == mx * unit,
                mx == 0x0010_0000_0000_0000,
                unit == 2 * half,
                q == 0x001f_ffff_ffff_ffff,
                r == half - small,
        ;
        lemma_rounding((big - small) as nat, q, j, r);
        assert(packed(j, q + 1) == x);
    }
}

/// The rounded sum of two finite numbers given as sign and magnitude, the
/// one of larger magnitude first.
fn plus_ordered(x_negative: bool, x: u64, y_negative: bool, y: u64) -> (r: u64)
    requires
        y <= x < INFINITY,
    ensures
        r == rounded(
            scaled_value(with_sign(x_negative, x)) + scaled_value(with_sign(y_negative, y)),
            x_negative && y_negative,
        ),
{
    let (mx, kx) = decode(x);
    let (my, ky) = decode(y);
    let ghost big = scaled_magnitude(x);
    let ghost small = scaled_magnitude(y);
    proof {
        lemma_pow2_pos(kx as nat);
        lemma_pow2_pos(ky as nat);
        assert(magnitude_bits(with_sign(x_negative, x)) == x);
        assert(magnitude_bits(with_sign(y_negative, y)) == y);
        assert(scaled_magnitude(with_sign(x_negative, x)) == big);
        assert(scaled_magnitude(with_sign(y_negative, y)) == small);
    }
    if y == 0 {
        assert(small == 0) by (nonlinear_arith)
            requires
                small == my * pow2(ky as nat),
                my == 0,
        ;
        if x == 0 {
            return if x_negative && y_negative {
                SIGN_BIT
            } else {
                ZERO
            };
        }
        proof {
            lemma_rounded_exact(x);
            assert(big > 0) by (nonlinear_arith)
                requires
                    big == mx * pow2(kx as nat),
                    mx > 0,
                    pow2(kx as nat) > 0,
            ;
        }
        return if x_negative {
            SIGN_BIT + x
        } else {
            x
        };
    }
    let d: u64 = kx - ky;
    if d >= 55 {
        proof {
            lemma_negligible(x, y);
            assert(small > 0) by (nonlinear_arith)
                requires
                    small == my * pow2(ky as nat),
                    my > 0,
                    pow2(ky as nat) > 0,
            ;
        }
        return if x_negative {
            SIGN_BIT + x
        } else {
            x
        };
    }
    proof {
        lemma2_to64();
        lemma2_to64_rest();
        if d < 54 {
            lemma_pow2_strictly_increases(d as nat, 54);
        }
        lemma_pow2_pos(d as nat);
        vstd::bits::lemma_u64_shl_is_mul(1, d);
        lemma_pow2_adds(d as nat, ky as nat);
    }
    let scale: u64 = 1u64 << d;
    assert(scale == pow2(d as nat));
    assert(mx * scale < 0x0800_0000_0000_0000_0000_0000_0000) by (nonlinear_arith)
        requires
            mx < 0x0020_0000_0000_0000,
            scale <= 0x0040_0000_0000_0000,
    ;
    let wide: u128 = (mx as u128) * (scale as u128);
    assert(wide * pow2(ky as nat) == big) by (nonlinear_arith)
        requires
            wide == mx * scale,
            big == mx * pow2(kx as nat),
            pow2(kx as nat) == scale * pow2(ky as nat),
    ;
    assert(wide >= my) by (nonlinear_arith)
        requires
            wide == mx * scale,
            scale >= 1,
            scale == 1 ==> mx >= my,
            scale > 1 ==> mx >= 0x0010_0000_0000_0000,
            my < 0x0020_0000_0000_0000,
    ;
    let total: u128 = if x_negative == y_negative {
        wide + (my as u128)
    } else {
        wide - (my as u128)
    };
    assert(total * pow2(ky as nat) == if x_negative == y_negative {
        (big + small) as int
    } else {
        big - small
    }) by (nonlinear_arith)
        requires
            wide * pow2(ky as nat) == big,
            small == my * pow2(ky as nat),
            total == if x_negative == y_negative {
                wide + my
            } else {
                wide - my
            },
    ;
    assert(total > 0 ==> total * pow2(ky as nat) > 0) by (nonlinear_arith)
        requires
            pow2(ky as nat) > 0,
    ;
    if total == 0 {
        assert(total * pow2(ky as nat) == 0) by (nonlinear_arith)
            requires
                total == 0,
        ;
        assert(x_negative != y_negative);
        return ZERO;
    }
    let bits: u64 = round_to_nearest(total, ky);
    if x_negative {
        SIGN_BIT + bits
    } else {
        bits
    }
}

/// Adds two binary64 numbers.
pub fn plus(a: u64, b: u64) -> (r: u64)
    ensures
        r == sum(a, b),
{
    let x: u64 = a % SIGN_BIT;
    let y: u64 = b % SIGN_BIT;
    let a_negative: bool = a >= SIGN_BIT;
    let b_negative: bool = b >= SIGN_BIT;
    if x > INFINITY || y > INFINITY {
        return QUIET_NAN;
    }
    if x == INFINITY {
        return if y == INFINITY && a_negative != b_negative {
            QUIET_NAN
        } else {
            a
        };
    }
    if y == INFINITY {
        return b;
    }
    assert(with_sign(a_negative, x) == a);
    assert(with_sign(b_negative, y) == b);
    if x >= y {
        plus_ordered(a_negative, x, b_negative, y)
    } else {
        plus_ordered(b_negative, y, a_negative, x)
    }
}

/// How far the value of a pattern lies from an exact value.
pub open spec fn gap(bits: u64, exact: int) -> nat {
    if scaled_value(bits) >= exact {
        (scaled_value(bits) - exact) as nat
    } else {
        (exact - scaled_value(bits)) as nat
    }
}

/// A finite sum of two finite numbers is a binary64 number nearest to their
/// exact sum: no finite number lies closer.
pub proof fn lemma_sum_is_nearest(a: u64, b: u64, other: u64)
    requires
        is_finite(a),
        is_finite(b),
        is_finite(sum(a, b)),
        is_finite(other),
    ensures
        gap(sum(a, b), scaled_value(a) + scaled_value(b)) <= gap(
            other,
            scaled_value(a) + scaled_value(b),
        ),
{
    let exact = scaled_value(a) + scaled_value(b);
    let total = sum(a, b);
    assert(total == rounded(exact, is_negative(a) && is_negative(b)));
    lemma_magnitude_zero(0);
    if exact > 0 {
        lemma_gap_of_rounded(exact as nat, false, other);
    } else if exact < 0 {
        lemma_gap_of_rounded((-exact) as nat, true, other);
    } else {
        assert(scaled_magnitude(total) == 0);
    }
}

/// [`lemma_rounded_is_nearest`] for values with a sign.
proof fn lemma_gap_of_rounded(size: nat, negative: bool, other: u64)
    requires
        size > 0,
        rounded_bits(size) < INFINITY,
        is_finite(other),
    ensures
        gap(
            with_sign(negative, rounded_bits(size)),
            if negative {
                -(size as int)
            } else {
                size as int
            },
        ) <= gap(
            other,
            if negative {
                -(size as int)
            } else {
                size as int
            },
        ),
{
    let bits = rounded_bits(size);
    let y = magnitude_bits(other);
    let near = scaled_magnitude(bits);
    let far = scaled_magnitude(y);
    lemma_magnitude_zero(0);
    lemma_rounded_is_nearest(size, y);
    lemma_rounded_is_nearest(size, 0);
    assert(magnitude_bits(with_sign(negative, bits)) == bits);
    assert(is_negative(with_sign(negative, bits)) == negative);
    assert(scaled_magnitude(with_sign(negative, bits)) == near);
    assert(scaled_magnitude(other) == far);
    assert(distance(bits, size) <= distance(y, size));
    assert(distance(bits, size) <= size);
}

/// Addition does not depend on the order of its operands.
pub proof fn lemma_sum_commutes(a: u64, b: u64)
    ensures
        sum(a, b) == sum(b, a),
{
}

/// Negation flips the value and keeps the kind of number.
pub proof fn lemma_negated(a: u64)
    ensures
        magnitude_bits(negated(a)) == magnitude_bits(a),
        is_negative(negated(a)) == !is_negative(a),
        scaled_value(negated(a)) == -scaled_value(a),
        negated(negated(a)) == a,
{
}

/// Swapping the operands of a subtraction changes at most the sign of the result.
pub proof fn lemma_difference_swapped(a: u64, b: u64)
    ensures
        magnitude_bits(difference(b, a)) == magnitude_bits(difference(a, b)),
{
    lemma_negated(a);
    lemma_negated(b);
    if is_finite(a) && is_finite(b) {
        let d = scaled_value(a) - scaled_value(b);
        assert(scaled_value(b) + scaled_value(negated(a)) == -d);
        assert(scaled_value(a) + scaled_value(negated(b)) == d);
    }
}

/// A finite number minus itself is `+0`.
pub proof fn lemma_difference_with_itself(a: u64)
    requires
        is_finite(a),
    ensures
        difference(a, a) == ZERO,
{
    lemma_negated(a);
}

/// Whether `a < b` as numbers: never with a NaN on either side, and the two
/// zeros are equal. An infinity counts by the value that
/// [`scaled_value`] gives it, beyond every finite number.
pub open spec fn is_less(a: u64, b: u64) -> bool {
    !is_nan(a) && !is_nan(b) && scaled_value(a) < scaled_value(b)
}

/// Compares two binary64 numbers.
pub fn less(a: u64, b: u64) -> (r: bool)
    ensures
        r == is_less(a, b),
{
    let x: u64 = a % SIGN_BIT;
    let y: u64 = b % SIGN_BIT;
    if x > INFINITY || y > INFINITY {
        return false;
    }
    proof {
        lemma_magnitude_zero(x);
        lemma_magnitude_zero(y);
        if x < y {
            lemma_magnitude_order(x, y);
        }
        if y < x {
            lemma_magnitude_order(y, x);
        }
        assert(scaled_magnitude(a) == scaled_magnitude(x));
        assert(scaled_magnitude(b) == scaled_magnitude(y));
    }
    if a >= SIGN_BIT {
        if b >= SIGN_BIT {
            y < x
        } else {
            x != 0 || y != 0
        }
    } else {
        if b >= SIGN_BIT {
            false
        } else {
            x < y
        }
    }
}

/// Subtracts `b` from `a`.
pub fn minus(a: u64, b: u64) -> (r: u64)
    ensures
        r == difference(a, b),
{
    plus(a, negate(b))
}

} // verus!
