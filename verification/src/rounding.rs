//! Rounding an exact magnitude to the nearest binary64 number, ties to the
//! even significand.
//!
//! Magnitudes are natural numbers in units of `2^-1074`, as in
//! [`crate::binary64`]. A magnitude `s` is first given its quantum `k`, the
//! spacing `2^k` of the binary64 numbers around it, and then divided by that
//! spacing and rounded.
use crate::binary64::{
    lemma_magnitude_order, quantum, scaled_magnitude, significand, HIDDEN_BIT, INFINITY,
};
use vstd::arithmetic::div_mod::{lemma_div_denominator, lemma_fundamental_div_mod_converse};
use vstd::arithmetic::power2::{
    lemma2_to64, lemma_pow2_adds, lemma_pow2_pos, lemma_pow2_strictly_increases,
    lemma_pow2_unfold, pow2,
};
use vstd::prelude::*;

verus! {

/// The first significand that no longer fits: `2^53`.
pub const SIGNIFICAND_LIMIT: u64 = 0x0020_0000_0000_0000;

/// The quantum of a magnitude: the least `k` with `s < 2^53 * 2^k`.
pub open spec fn quantum_of(s: nat) -> nat
    decreases s,
{
    if s < SIGNIFICAND_LIMIT {
        0
    } else {
        1 + quantum_of(s / 2)
    }
}

/// `s / 2^k` rounded to the nearest integer; a remainder of exactly one half
/// goes to the even neighbour.
pub open spec fn quotient_to_even(s: nat, k: nat) -> nat {
    let q = s / pow2(k);
    let r = s % pow2(k);
    if 2 * r > pow2(k) || (2 * r == pow2(k) && q % 2 == 1) {
        q + 1
    } else {
        q
    }
}

/// The magnitude bits of a number with quantum `k` and significand `q`.
/// A significand of `2^53`, as rounding up may give, carries into the
/// exponent field by itself.
pub open spec fn packed(k: nat, q: nat) -> nat {
    (k * HIDDEN_BIT + q) as nat
}

/// The magnitude bits of the binary64 number nearest to `s`: infinity when
/// `s` rounds to `2^2098` or more.
pub open spec fn rounded_bits(s: nat) -> u64 {
    let k = quantum_of(s);
    let bits = packed(k, quotient_to_even(s, k));
    if bits >= INFINITY {
        INFINITY
    } else {
        bits as u64
    }
}

/// Whether a remainder `r` of a division by `d` rounds the quotient `q` up.
pub open spec fn rounds_up(q: nat, r: nat, d: nat) -> bool {
    2 * r > d || (2 * r == d && q % 2 == 1)
}

/// A magnitude whose quotient by `2^k` is a full significand, or fits with `k = 0`,
/// has quantum `k`.
pub proof fn lemma_quantum_of(s: nat, k: nat)
    requires
        k == 0 ==> s < SIGNIFICAND_LIMIT,
        k > 0 ==> HIDDEN_BIT <= s / pow2(k) < SIGNIFICAND_LIMIT,
    ensures
        quantum_of(s) == k,
    decreases k,
{
    if k > 0 {
        let j = (k - 1) as nat;
        lemma_pow2_unfold(k);
        lemma_pow2_pos(j);
        lemma_div_denominator(s as int, 2, pow2(j) as int);
        assert(pow2(k) == 2 * pow2(j));
        assert(2 * pow2(j) == pow2(j) * 2) by (nonlinear_arith);
        assert((s / 2) / pow2(j) == s / pow2(k));
        assert(s >= SIGNIFICAND_LIMIT) by (nonlinear_arith)
            requires
                s / pow2(k) >= HIDDEN_BIT,
                pow2(k) >= 2,
                HIDDEN_BIT == 0x0010_0000_0000_0000,
                SIGNIFICAND_LIMIT == 0x0020_0000_0000_0000,
        ;
        if j == 0 {
            lemma2_to64();
            assert(s / 2 == (s / 2) / pow2(0));
        }
        lemma_quantum_of(s / 2, j);
    }
}

/// The rounded quotient of `q * 2^k + r` by `2^k`.
pub proof fn lemma_quotient_to_even(s: nat, q: nat, k: nat, r: nat)
    requires
        s == q * pow2(k) + r,
        r < pow2(k),
    ensures
        quotient_to_even(s, k) == if rounds_up(q, r, pow2(k)) {
            q + 1
        } else {
            q
        },
{
    lemma_pow2_pos(k);
    lemma_fundamental_div_mod_converse(s as int, pow2(k) as int, q as int, r as int);
}

/// A common factor `2^k` of dividend and divisor does not change the
/// rounded quotient.
pub proof fn lemma_quotient_scaled(n: nat, k: nat, sh: nat)
    ensures
        (n * pow2(k)) / pow2(k + sh) == n / pow2(sh),
        quotient_to_even(n * pow2(k), k + sh) == quotient_to_even(n, sh),
{
    lemma_pow2_pos(k);
    lemma_pow2_pos(sh);
    lemma_pow2_adds(sh, k);
    let d = pow2(sh);
    let u = pow2(k);
    let q = n / d;
    let rem = n % d;
    let r = rem * u;
    vstd::arithmetic::div_mod::lemma_fundamental_div_mod(n as int, d as int);
    assert(n * u == q * (d * u) + r) by (nonlinear_arith)
        requires
            n == d * q + rem,
            r == rem * u,
    ;
    assert(r < d * u) by (nonlinear_arith)
        requires
            r == rem * u,
            rem < d,
            u > 0,
    ;
    assert(rounds_up(q, r, d * u) == rounds_up(q, rem, d)) by (nonlinear_arith)
        requires
            r == rem * u,
            u > 0,
    ;
    lemma_fundamental_div_mod_converse((n * u) as int, (d * u) as int, q as int, r as int);
}

/// Splits a magnitude written as `q * 2^k + r` into its quantum and its
/// rounded significand.
pub proof fn lemma_rounding(s: nat, q: nat, k: nat, r: nat)
    requires
        s == q * pow2(k) + r,
        r < pow2(k),
        q < SIGNIFICAND_LIMIT,
        k > 0 ==> HIDDEN_BIT <= q,
    ensures
        quantum_of(s) == k,
        quotient_to_even(s, k) == if rounds_up(q, r, pow2(k)) {
            q + 1
        } else {
            q
        },
{
    lemma_pow2_pos(k);
    lemma_fundamental_div_mod_converse(s as int, pow2(k) as int, q as int, r as int);
    if k == 0 {
        lemma2_to64();
        assert(q * pow2(0) == q) by (nonlinear_arith)
            requires
                pow2(0) == 1,
        ;
    }
    lemma_quantum_of(s, k);
}

/// The quotient of a magnitude by its quantum is a significand, full unless
/// the quantum is zero.
pub proof fn lemma_quantum_bounds(s: nat)
    ensures
        s / pow2(quantum_of(s)) < SIGNIFICAND_LIMIT,
        quantum_of(s) > 0 ==> HIDDEN_BIT <= s / pow2(quantum_of(s)),
    decreases s,
{
    lemma2_to64();
    if s >= SIGNIFICAND_LIMIT {
        let j = quantum_of(s / 2);
        lemma_quantum_bounds(s / 2);
        lemma_pow2_unfold(j + 1);
        lemma_pow2_pos(j);
        lemma_div_denominator(s as int, 2, pow2(j) as int);
        assert(2 * pow2(j) == pow2(j) * 2) by (nonlinear_arith);
        if j == 0 {
            assert((s / 2) / pow2(0) == s / 2);
        }
    } else {
        assert(s / pow2(0) == s);
    }
}

/// The magnitude that a packed pattern stands for.
pub proof fn lemma_packed_value(k: nat, q: nat)
    requires
        q <= SIGNIFICAND_LIMIT,
        k > 0 ==> HIDDEN_BIT <= q,
        packed(k, q) <= INFINITY,
    ensures
        scaled_magnitude(packed(k, q) as u64) == q * pow2(k),
{
    let bits = packed(k, q) as u64;
    assert(k * HIDDEN_BIT == k * 0x0010_0000_0000_0000);
    if q == SIGNIFICAND_LIMIT {
        assert(bits == (k + 2) * 0x0010_0000_0000_0000);
        assert(significand(bits) == HIDDEN_BIT);
        assert(quantum(bits) == k + 1);
        lemma_pow2_unfold(k + 1);
        assert(HIDDEN_BIT as nat * (2 * pow2(k)) == q * pow2(k)) by (nonlinear_arith)
            requires
                q == 2 * HIDDEN_BIT,
        ;
    } else if q >= HIDDEN_BIT {
        assert(bits == (k + 1) * 0x0010_0000_0000_0000 + (q - 0x0010_0000_0000_0000));
        assert(significand(bits) == q);
        assert(quantum(bits) == k);
    } else {
        assert(bits == q);
        assert(significand(bits) == q);
        assert(quantum(bits) == 0);
    }
}

/// How far the magnitude of a pattern lies from an exact magnitude.
pub open spec fn distance(bits: u64, s: nat) -> nat {
    if scaled_magnitude(bits) >= s {
        (scaled_magnitude(bits) - s) as nat
    } else {
        (s - scaled_magnitude(bits)) as nat
    }
}

/// Rounding picks a nearest number: where the rounded magnitude is finite,
/// no finite magnitude lies closer to the exact one, and one that lies as
/// close loses to an even pattern.
pub proof fn lemma_rounded_is_nearest(s: nat, other: u64)
    requires
        rounded_bits(s) < INFINITY,
        other < INFINITY,
    ensures
        distance(rounded_bits(s), s) <= distance(other, s),
        distance(rounded_bits(s), s) == distance(other, s) && other != rounded_bits(s)
            ==> rounded_bits(s) % 2 == 0,
{
    let k = quantum_of(s);
    let unit = pow2(k);
    let q = s / unit;
    let r = s % unit;
    lemma_pow2_pos(k);
    lemma_quantum_bounds(s);
    vstd::arithmetic::div_mod::lemma_fundamental_div_mod(s as int, unit as int);
    assert(k * HIDDEN_BIT == k * 0x0010_0000_0000_0000);
    let low = packed(k, q) as u64;
    let high = (low + 1) as u64;
    assert(high == packed(k, q + 1));
    lemma_packed_value(k, q);
    lemma_packed_value(k, q + 1);
    assert(unit * q == q * unit) by (nonlinear_arith);
    assert((q + 1) * unit == q * unit + unit) by (nonlinear_arith);
    assert(scaled_magnitude(low) == s - r);
    assert(scaled_magnitude(high) == s - r + unit);
    if other < low {
        lemma_magnitude_order(other, low);
    }
    if other > high {
        lemma_magnitude_order(high, other);
    }
    assert(k * HIDDEN_BIT % 2 == 0);
}

/// A magnitude no larger than that of a finite pattern rounds to that
/// pattern at most.
pub proof fn lemma_rounded_at_most(s: nat, bound: u64)
    requires
        bound < INFINITY,
        s <= scaled_magnitude(bound),
    ensures
        rounded_bits(s) <= bound,
{
    let k = quantum_of(s);
    let unit = pow2(k);
    let q = s / unit;
    let r = s % unit;
    let kb = quantum(bound);
    lemma_pow2_pos(k);
    lemma_pow2_pos(kb);
    lemma_quantum_bounds(s);
    vstd::arithmetic::div_mod::lemma_fundamental_div_mod(s as int, unit as int);
    assert(unit * q == q * unit) by (nonlinear_arith);
    if k > kb {
        lemma_pow2_unfold(kb + 1);
        if kb + 1 < k {
            lemma_pow2_strictly_increases(kb + 1, k);
        }
        assert(false) by (nonlinear_arith)
            requires
                q * unit <= s,
                s <= significand(bound) * pow2(kb),
                significand(bound) < 0x0020_0000_0000_0000,
                q >= 0x0010_0000_0000_0000,
                unit >= 2 * pow2(kb),
                pow2(kb) > 0,
        ;
    }
    assert(k * HIDDEN_BIT == k * 0x0010_0000_0000_0000);
    let low = packed(k, q) as u64;
    lemma_packed_value(k, q);
    if low > bound {
        lemma_magnitude_order(bound, low);
    }
    if low == bound {
        assert(r == 0);
    }
}

/// When a magnitude rounds below a finite pattern: when it lies below the
/// midpoint between that pattern and the one before it, or on the midpoint
/// with the pattern before being the even one.
pub proof fn lemma_rounded_below(s: nat, bound: u64)
    requires
        0 < bound < INFINITY,
    ensures
        rounded_bits(s) < bound <==> {
            let midpoint_twice = scaled_magnitude((bound - 1) as u64) + scaled_magnitude(bound);
            2 * s < midpoint_twice || (2 * s == midpoint_twice && bound % 2 == 1)
        },
{
    let before = (bound - 1) as u64;
    let low = scaled_magnitude(before);
    let high = scaled_magnitude(bound);
    let bits = rounded_bits(s);
    lemma_magnitude_order(before, bound);
    if bits < bound {
        lemma_rounded_is_nearest(s, bound);
        if bits < before {
            lemma_magnitude_order(bits, before);
        }
    } else if 2 * s <= low + high {
        lemma_rounded_at_most(s, bound);
        lemma_rounded_is_nearest(s, before);
    }
}

/// The largest exact magnitude that [`round_to_nearest`] takes: below `2^108`.
pub const WIDE_LIMIT: u128 = 0x1000_0000_0000_0000_0000_0000_0000;

/// The largest quantum of a finite number.
pub const MAX_QUANTUM: u64 = 2045;

/// Rounds the exact magnitude `m * 2^e` to the nearest binary64 number and
/// returns its magnitude bits.
pub fn round_to_nearest(m: u128, e: u64) -> (bits: u64)
    requires
        m < WIDE_LIMIT,
        e <= MAX_QUANTUM,
    ensures
        bits == rounded_bits(m as nat * pow2(e as nat)),
{
    let ghost s: nat = m as nat * pow2(e as nat);
    // Bring a short significand up to 53 bits while the quantum allows it.
    let mut n: u128 = m;
    let mut k: u64 = e;
    while n < 0x0010_0000_0000_0000 && k > 0
        invariant
            n as nat * pow2(k as nat) == s,
            n < WIDE_LIMIT,
            k <= MAX_QUANTUM,
        decreases k,
    {
        proof {
            lemma_pow2_unfold(k as nat);
            assert((n * 2) * pow2((k - 1) as nat) == n * (2 * pow2((k - 1) as nat)))
                by (nonlinear_arith);
        }
        n = n * 2;
        k = k - 1;
    }
    // Cut a long one down to 53 bits; `p` is the divisor so far.
    let mut q: u128 = n;
    let mut p: u128 = 1;
    let mut sh: u64 = 0;
    proof {
        lemma2_to64();
    }
    while q >= 0x0020_0000_0000_0000
        invariant
            p == pow2(sh as nat),
            q == n / p,
            1 <= p < 0x0100_0000_0000_0000,
            sh <= 55,
            n < WIDE_LIMIT,
            sh > 0 ==> q >= 0x0010_0000_0000_0000,
        decreases q,
    {
        proof {
            lemma_pow2_unfold((sh + 1) as nat);
            lemma_div_denominator(n as int, p as int, 2);
            assert(p < 0x0080_0000_0000_0000) by (nonlinear_arith)
                requires
                    q == n / p,
                    p >= 1,
                    q >= 0x0020_0000_0000_0000,
                    n < 0x1000_0000_0000_0000_0000_0000_0000,
            ;
            if sh >= 55 {
                vstd::arithmetic::power2::lemma2_to64_rest();
                if sh > 55 {
                    lemma_pow2_strictly_increases(55, sh as nat);
                }
            }
        }
        q = q / 2;
        p = p * 2;
        sh = sh + 1;
    }
    let rem: u128 = n % p;
    assert(rem < p);
    let quantum: u64 = k + sh;
    proof {
        lemma_quotient_scaled(n as nat, k as nat, sh as nat);
        if k + sh == 0 {
            lemma2_to64();
            assert(n as nat * pow2(0) == n) by (nonlinear_arith)
                requires
                    pow2(0) == 1,
            ;
        }
        lemma_quantum_of(s, (k + sh) as nat);
    }
    if quantum >= 2046 {
        return INFINITY;
    }
    let up: u64 = if 2 * rem > p || (2 * rem == p && q % 2 == 1) {
        1
    } else {
        0
    };
    let bits: u64 = quantum * HIDDEN_BIT + (q as u64) + up;
    if bits >= INFINITY {
        INFINITY
    } else {
        bits
    }
}

} // verus!
