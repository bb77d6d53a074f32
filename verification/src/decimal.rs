//! Decimal text of a binary64 number with five digits after the point.
//!
//! The digits are those of the exact value, rounded at the fifth place to
//! the nearest and, on a tie, to the even digit.
use crate::binary64::{
    decode, is_infinite, is_nan, is_negative, scaled_magnitude, INFINITY, SIGN_BIT,
};
use crate::rounding::{lemma_quotient_scaled, lemma_quotient_to_even, quotient_to_even};
use vstd::arithmetic::power::{lemma_pow0, lemma_pow1, lemma_pow_adds, pow};
use vstd::arithmetic::power2::{
    lemma2_to64, lemma2_to64_rest, lemma_pow2_adds, lemma_pow2_pos,
    lemma_pow2_strictly_increases, lemma_pow2_unfold, pow2,
};
use vstd::prelude::*;
use vstd::string::StringExecFns;

verus! {

/// The character of a decimal digit.
pub open spec fn digit(d: nat) -> char {
    if d == 0 {
        '0'
    } else if d == 1 {
        '1'
    } else if d == 2 {
        '2'
    } else if d == 3 {
        '3'
    } else if d == 4 {
        '4'
    } else if d == 5 {
        '5'
    } else if d == 6 {
        '6'
    } else if d == 7 {
        '7'
    } else if d == 8 {
        '8'
    } else {
        '9'
    }
}

/// The decimal numeral of `n`, without leading zeros.
pub open spec fn decimal(n: nat) -> Seq<char>
    decreases n,
{
    if n < 10 {
        seq![digit(n)]
    } else {
        decimal(n / 10).push(digit(n % 10))
    }
}

/// The number that a sequence of digits stands for, lowest digit first.
pub open spec fn value_of(digits: Seq<u8>) -> nat
    decreases digits.len(),
{
    if digits.len() == 0 {
        0
    } else {
        digits[0] as nat + 10 * value_of(digits.skip(1))
    }
}

/// The digits as text, highest digit first.
pub open spec fn text_of(digits: Seq<u8>) -> Seq<char>
    decreases digits.len(),
{
    if digits.len() == 0 {
        Seq::empty()
    } else {
        text_of(digits.skip(1)).push(digit(digits[0] as nat))
    }
}

/// Decimal digits, at least one, with no zero in front of others.
pub open spec fn is_numeral(digits: Seq<u8>) -> bool {
    &&& digits.len() > 0
    &&& forall|i: int| 0 <= i < digits.len() ==> digits[i] < 10
    &&& digits.len() > 1 ==> digits.last() != 0
}

proof fn lemma_value_push(digits: Seq<u8>, top: u8)
    ensures
        value_of(digits.push(top)) == value_of(digits) + top * pow(10, digits.len()),
    decreases digits.len(),
{
    if digits.len() == 0 {
        lemma_pow0(10);
        assert(digits.push(top).skip(1) =~= Seq::<u8>::empty());
        assert(value_of(digits.push(top).skip(1)) == 0);
    } else {
        let n = (digits.len() - 1) as nat;
        assert(digits.push(top).skip(1) =~= digits.skip(1).push(top));
        lemma_value_push(digits.skip(1), top);
        lemma_pow_adds(10, 1, n);
        lemma_pow1(10);
        assert(10 * (top * pow(10, n)) == top * (10 * pow(10, n))) by (nonlinear_arith);
    }
}

proof fn lemma_value_positive(digits: Seq<u8>)
    requires
        digits.len() > 0,
        digits.last() != 0,
    ensures
        value_of(digits) > 0,
    decreases digits.len(),
{
    if digits.len() > 1 {
        lemma_value_positive(digits.skip(1));
    }
}

/// The text of a numeral is the decimal numeral of its value.
pub proof fn lemma_text_of_numeral(digits: Seq<u8>)
    requires
        is_numeral(digits),
    ensures
        text_of(digits) == decimal(value_of(digits)),
    decreases digits.len(),
{
    let rest = digits.skip(1);
    if digits.len() == 1 {
        assert(rest =~= Seq::<u8>::empty());
        assert(text_of(rest) =~= Seq::<char>::empty());
        assert(value_of(rest) == 0);
        assert(text_of(digits) =~= seq![digit(digits[0] as nat)]);
    } else {
        assert(rest.last() == digits.last());
        lemma_value_positive(rest);
        lemma_text_of_numeral(rest);
    }
}

/// The decimal digits of `n`, lowest first.
fn digits_of(n: u128) -> (digits: Vec<u8>)
    ensures
        is_numeral(digits@),
        value_of(digits@) == n,
{
    let mut digits: Vec<u8> = Vec::new();
    let mut rest: u128 = n / 10;
    digits.push((n % 10) as u8);
    proof {
        lemma_value_push(Seq::<u8>::empty(), (n % 10) as u8);
        assert(Seq::<u8>::empty().push((n % 10) as u8) =~= digits@);
        lemma_pow0(10);
        lemma_pow1(10);
    }
    while rest > 0
        invariant
            digits.len() >= 1,
            forall|i: int| 0 <= i < digits.len() ==> digits[i] < 10,
            digits.len() > 1 ==> rest > 0 || digits@.last() != 0,
            value_of(digits@) + rest * pow(10, digits.len() as nat) == n,
        decreases rest,
    {
        let low: u8 = (rest % 10) as u8;
        proof {
            let len = digits.len() as nat;
            lemma_value_push(digits@, low);
            lemma_pow_adds(10, 1, len);
            lemma_pow1(10);
            assert(rest * pow(10, len) == low * pow(10, len) + (rest / 10) * (10 * pow(10, len)))
                by (nonlinear_arith)
                requires
                    rest == 10 * (rest / 10) + low,
            ;
        }
        digits.push(low);
        rest = rest / 10;
    }
    assert(rest * pow(10, digits.len() as nat) == 0) by (nonlinear_arith)
        requires
            rest == 0,
    ;
    digits
}

/// Twice the number that `digits` stands for.
fn doubled(digits: &Vec<u8>) -> (twice: Vec<u8>)
    requires
        is_numeral(digits@),
    ensures
        is_numeral(twice@),
        value_of(twice@) == 2 * value_of(digits@),
{
    let mut twice: Vec<u8> = Vec::new();
    let mut carry: u8 = 0;
    let mut i: usize = 0;
    proof {
        assert(digits@.take(0) =~= Seq::<u8>::empty());
        lemma_pow0(10);
    }
    while i < digits.len()
        invariant
            i <= digits.len(),
            twice.len() == i,
            carry <= 1,
            is_numeral(digits@),
            forall|j: int| 0 <= j < twice.len() ==> twice[j] < 10,
            value_of(twice@) + carry * pow(10, i as nat) == 2 * value_of(digits@.take(i as int)),
            i > 0 && carry == 0 && digits[i - 1] != 0 ==> twice[i - 1] != 0,
        decreases digits.len() - i,
    {
        let t: u8 = 2 * digits[i] + carry;
        proof {
            let unit = pow(10, i as nat);
            assert(digits@.take(i + 1) =~= digits@.take(i as int).push(digits[i as int]));
            lemma_value_push(digits@.take(i as int), digits[i as int]);
            lemma_value_push(twice@, t % 10);
            lemma_pow_adds(10, 1, i as nat);
            lemma_pow1(10);
            assert((t % 10) * unit + (t / 10) * (10 * unit) == t * unit) by (nonlinear_arith)
                requires
                    t == 10 * (t / 10) + t % 10,
            ;
            assert(t * unit == 2 * (digits[i as int] * unit) + carry * unit) by (nonlinear_arith)
                requires
                    t == 2 * digits[i as int] + carry,
            ;
        }
        twice.push(t % 10);
        carry = t / 10;
        i = i + 1;
    }
    assert(digits@.take(i as int) =~= digits@);
    if carry > 0 {
        proof {
            lemma_value_push(twice@, carry);
        }
        twice.push(carry);
    } else {
        assert(carry * pow(10, i as nat) == 0) by (nonlinear_arith)
            requires
                carry == 0,
        ;
    }
    twice
}

/// How many units of `0.00001` a decimal text counts.
pub const PLACES_UNIT: u64 = 100000;

/// The magnitude of a finite number in units of `0.00001`, rounded to the
/// nearest whole unit, ties to even.
pub open spec fn hundred_thousandths(bits: u64) -> nat {
    quotient_to_even(scaled_magnitude(bits) * PLACES_UNIT as nat, 1074)
}

/// The five decimal digits of a number below `100000`.
pub open spec fn five_digits(n: nat) -> Seq<char> {
    seq![
        digit(n / 10000 % 10),
        digit(n / 1000 % 10),
        digit(n / 100 % 10),
        digit(n / 10 % 10),
        digit(n % 10),
    ]
}

/// A minus sign where the sign bit is set.
pub open spec fn sign_text(bits: u64) -> Seq<char> {
    if is_negative(bits) {
        seq!['-']
    } else {
        Seq::empty()
    }
}

/// The text of a binary64 number with five digits after the point: `NaN`
/// for every NaN, `inf` or `-inf` for an infinity; otherwise an optional
/// minus sign, the whole part without leading zeros, a point and five digits.
/// A negative number that rounds to zero keeps its sign.
pub open spec fn formatted(bits: u64) -> Seq<char> {
    if is_nan(bits) {
        seq!['N', 'a', 'N']
    } else if is_infinite(bits) {
        sign_text(bits) + seq!['i', 'n', 'f']
    } else {
        let n = hundred_thousandths(bits);
        sign_text(bits) + decimal(n / PLACES_UNIT as nat) + seq!['.'] + five_digits(
            n % PLACES_UNIT as nat,
        )
    }
}

/// One decimal digit as text.
fn digit_text(d: u8) -> (text: &'static str)
    requires
        d < 10,
    ensures
        text@ == seq![digit(d as nat)],
{
    proof {
        reveal_strlit("0");
        reveal_strlit("1");
        reveal_strlit("2");
        reveal_strlit("3");
        reveal_strlit("4");
        reveal_strlit("5");
        reveal_strlit("6");
        reveal_strlit("7");
        reveal_strlit("8");
        reveal_strlit("9");
    }
    let text = match d {
        0 => "0",
        1 => "1",
        2 => "2",
        3 => "3",
        4 => "4",
        5 => "5",
        6 => "6",
        7 => "7",
        8 => "8",
        _ => "9",
    };
    assert(text@ =~= seq![digit(d as nat)]);
    text
}

/// `2^j` for a small `j`.
fn power_of_two(j: u64) -> (p: u128)
    requires
        j <= 71,
    ensures
        p == pow2(j as nat),
{
    proof {
        lemma2_to64();
        lemma2_to64_rest();
    }
    if j < 63 {
        proof {
            lemma_pow2_strictly_increases(j as nat, 63);
            vstd::bits::lemma_u64_shl_is_mul(1, j);
        }
        (1u64 << j) as u128
    } else {
        let i: u64 = j - 9;
        proof {
            lemma_pow2_strictly_increases(i as nat, 63);
            vstd::bits::lemma_u64_shl_is_mul(1, i);
            lemma_pow2_adds(i as nat, 9);
        }
        ((1u64 << i) as u128) * 512
    }
}

/// The decimal digits of `m * 2^e`, lowest first.
fn digits_of_scaled(m: u64, e: u64) -> (digits: Vec<u8>)
    ensures
        is_numeral(digits@),
        value_of(digits@) == m * pow2(e as nat),
{
    let mut digits = digits_of(m as u128);
    let mut i: u64 = 0;
    proof {
        lemma2_to64();
    }
    while i < e
        invariant
            i <= e,
            is_numeral(digits@),
            value_of(digits@) == m * pow2(i as nat),
        decreases e - i,
    {
        proof {
            lemma_pow2_unfold((i + 1) as nat);
            assert(2 * (m * pow2(i as nat)) == m * (2 * pow2(i as nat))) by (nonlinear_arith);
        }
        digits = doubled(&digits);
        i = i + 1;
    }
    digits
}

/// The magnitude of a finite number in units of `0.00001`, as the digits of
/// its whole part and the units left over.
fn split(significand: u64, quantum: u64) -> (r: (Vec<u8>, u64))
    requires
        significand < 0x0020_0000_0000_0000,
        quantum <= 2045,
    ensures
        is_numeral(r.0@),
        value_of(r.0@) == quotient_to_even(
            significand as nat * pow2(quantum as nat) * PLACES_UNIT as nat,
            1074,
        ) / PLACES_UNIT as nat,
        r.1 == quotient_to_even(
            significand as nat * pow2(quantum as nat) * PLACES_UNIT as nat,
            1074,
        ) % PLACES_UNIT as nat,
{
    let ghost s: nat = significand as nat * pow2(quantum as nat) * PLACES_UNIT as nat;
    if quantum >= 1074 {
        let e: u64 = quantum - 1074;
        let digits = digits_of_scaled(significand, e);
        proof {
            let whole = significand as nat * pow2(e as nat);
            lemma_pow2_adds(e as nat, 1074);
            lemma_pow2_pos(1074);
            assert(s == (whole * 100000) * pow2(1074) + 0) by (nonlinear_arith)
                requires
                    s == significand as nat * pow2(quantum as nat) * 100000,
                    whole == significand as nat * pow2(e as nat),
                    pow2(quantum as nat) == pow2(e as nat) * pow2(1074),
            ;
            lemma_quotient_to_even(s, whole * 100000, 1074, 0);
        }
        return (digits, 0);
    }
    let j: u64 = 1074 - quantum;
    let scaled: u128 = (significand as u128) * 100000;
    proof {
        assert(s == scaled as nat * pow2(quantum as nat)) by (nonlinear_arith)
            requires
                s == significand as nat * pow2(quantum as nat) * 100000,
                scaled == significand * 100000,
        ;
        lemma_quotient_scaled(scaled as nat, quantum as nat, j as nat);
        assert(quantum + j == 1074);
    }
    assert(scaled < 0x0040_0000_0000_0000_0000);
    let units: u128 = if j >= 72 {
        proof {
            lemma2_to64();
            lemma2_to64_rest();
            lemma_pow2_adds(63, 9);
            if j > 72 {
                lemma_pow2_strictly_increases(72, j as nat);
            }
            assert(scaled as nat == 0 * pow2(j as nat) + scaled as nat) by (nonlinear_arith);
            lemma_quotient_to_even(scaled as nat, 0, j as nat, scaled as nat);
        }
        0
    } else {
        let p: u128 = power_of_two(j);
        proof {
            lemma_pow2_pos(j as nat);
            vstd::arithmetic::div_mod::lemma_fundamental_div_mod(scaled as int, p as int);
            assert(p * (scaled / p) == (scaled / p) * p) by (nonlinear_arith);
            lemma_quotient_to_even(
                scaled as nat,
                (scaled / p) as nat,
                j as nat,
                (scaled % p) as nat,
            );
            lemma2_to64();
            lemma2_to64_rest();
            lemma_pow2_adds(63, 8);
            if j < 71 {
                lemma_pow2_strictly_increases(j as nat, 71);
            }
        }
        let q: u128 = scaled / p;
        let r: u128 = scaled % p;
        if 2 * r > p || (2 * r == p && q % 2 == 1) {
            q + 1
        } else {
            q
        }
    };
    (digits_of(units / 100000), (units % 100000) as u64)
}

/// Writes a binary64 number with five digits after the point.
pub fn to_text(bits: u64) -> (text: String)
    ensures
        text@ == formatted(bits),
{
    let magnitude: u64 = bits % SIGN_BIT;
    if magnitude > INFINITY {
        proof {
            reveal_strlit("NaN");
        }
        let text = String::from_str("NaN");
        assert(text@ =~= seq!['N', 'a', 'N']);
        return text;
    }
    let mut text = String::new();
    if bits >= SIGN_BIT {
        proof {
            reveal_strlit("-");
        }
        text.append("-");
    }
    assert(text@ =~= sign_text(bits));
    if magnitude == INFINITY {
        proof {
            reveal_strlit("inf");
        }
        text.append("inf");
        assert(text@ =~= sign_text(bits) + seq!['i', 'n', 'f']);
        return text;
    }
    let (m, k) = decode(magnitude);
    let (whole, rest) = split(m, k);
    let ghost n = hundred_thousandths(bits);
    assert(scaled_magnitude(bits) == m * pow2(k as nat));
    let mut i: usize = whole.len();
    proof {
        assert(whole@.skip(i as int) =~= Seq::<u8>::empty());
    }
    while i > 0
        invariant
            i <= whole.len(),
            is_numeral(whole@),
            text@ == sign_text(bits) + text_of(whole@.skip(i as int)),
        decreases i,
    {
        i = i - 1;
        let d: u8 = whole[i];
        proof {
            assert(whole@.skip(i as int).skip(1) =~= whole@.skip(i + 1));
        }
        text.append(digit_text(d));
        assert(text@ =~= sign_text(bits) + text_of(whole@.skip(i as int)));
    }
    proof {
        assert(whole@.skip(0) =~= whole@);
        lemma_text_of_numeral(whole@);
        reveal_strlit(".");
    }
    text.append(".");
    text.append(digit_text((rest / 10000 % 10) as u8));
    text.append(digit_text((rest / 1000 % 10) as u8));
    text.append(digit_text((rest / 100 % 10) as u8));
    text.append(digit_text((rest / 10 % 10) as u8));
    text.append(digit_text((rest % 10) as u8));
    assert(text@ =~= formatted(bits));
    text
}

} // verus!
