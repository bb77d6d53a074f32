use tuple4::approximate_eq;
use tuple4::arith::{less, minus, plus};
use tuple4::binary64::{absolute, decode, negate};
use tuple4::rounding::round_to_nearest;

fn step(state: &mut u64) -> u64 {
    *state ^= *state << 13;
    *state ^= *state >> 7;
    *state ^= *state << 17;
    *state
}

fn same_number(ours: u64, native: f64) -> bool {
    if native.is_nan() {
        f64::from_bits(ours).is_nan()
    } else {
        ours == native.to_bits()
    }
}

fn agree(a: u64, b: u64) {
    let x = f64::from_bits(a);
    let y = f64::from_bits(b);
    assert!(same_number(plus(a, b), x + y), "{:#x} + {:#x}", a, b);
    assert!(same_number(minus(a, b), x - y), "{:#x} - {:#x}", a, b);
    assert_eq!(less(a, b), x < y, "{:#x} < {:#x}", a, b);
    assert_eq!(approximate_eq(a, b), (x - y).abs() < 0.00001, "{:#x} ~ {:#x}", a, b);
}

const FRACTIONS: [u64; 12] = [
    0,
    1,
    2,
    3,
    0x0008_0000_0000_0000,
    0x0007_ffff_ffff_ffff,
    0x0008_0000_0000_0001,
    0x000f_ffff_ffff_fffe,
    0x000f_ffff_ffff_ffff,
    0x0005_5555_5555_5555,
    0x000a_aaaa_aaaa_aaaa,
    0x0000_0000_8000_0000,
];

#[test]
fn arithmetic_agrees_with_the_machine_on_arbitrary_patterns() {
    let mut s: u64 = 0x9e37_79b9_7f4a_7c15;
    for _ in 0..20000 {
        let a = step(&mut s);
        let b = step(&mut s);
        agree(a, b);
    }
}

#[test]
fn arithmetic_agrees_with_the_machine_on_close_exponents() {
    let mut s: u64 = 0x1234_5678_9abc_def1;
    for _ in 0..20000 {
        let r = step(&mut s);
        let e1 = (r >> 3) % 2047;
        let gap = (r >> 20) % 70;
        let e2 = if e1 >= gap { e1 - gap } else { (e1 + gap) % 2047 };
        let a = ((r & 1) << 63) | (e1 << 52) | (step(&mut s) >> 12);
        let b = (((r >> 1) & 1) << 63) | (e2 << 52) | (step(&mut s) >> 12);
        agree(a, b);
        agree(b, a);
    }
}

#[test]
fn arithmetic_agrees_with_the_machine_on_edge_fractions() {
    let exponents: [u64; 14] = [0, 1, 2, 3, 52, 53, 54, 55, 1000, 1023, 2044, 2045, 2046, 2047];
    for e1 in exponents {
        for e2 in exponents {
            for f1 in FRACTIONS {
                for f2 in FRACTIONS {
                    for signs in 0..4u64 {
                        let a = ((signs & 1) << 63) | (e1 << 52) | f1;
                        let b = ((signs >> 1) << 63) | (e2 << 52) | f2;
                        agree(a, b);
                    }
                }
            }
        }
    }
}

#[test]
fn arithmetic_agrees_with_the_machine_on_neighbouring_exponents() {
    for e1 in 0..2047u64 {
        for gap in 0..3u64 {
            if e1 + gap > 2047 {
                continue;
            }
            for f1 in FRACTIONS {
                for f2 in FRACTIONS {
                    let a = (e1 << 52) | f1;
                    let b = ((e1 + gap) << 52) | f2;
                    agree(a, b);
                    agree(a, negate(b));
                }
            }
        }
    }
}

#[test]
fn approximate_eq_agrees_with_the_machine_near_the_tolerance() {
    let eps = 0.00001f64;
    let mut s: u64 = 0x0dd_ba11_5eed_f00d;
    for _ in 0..20000 {
        let r = step(&mut s);
        let base = f64::from_bits(0x3ff0_0000_0000_0000 | (r >> 12)) - 1.5;
        let scale = [1.0, 0.001, 1e-5, 1e-9, 64.0, 1e6][(r % 6) as usize];
        let a = base * scale;
        let nudge = ((step(&mut s) % 2001) as f64 - 1000.0) * 1e-21;
        for d in [eps, -eps, eps + nudge, -eps - nudge, eps * (1.0 + 1e-16), eps * (1.0 - 2e-16)] {
            agree(a.to_bits(), (a + d).to_bits());
            agree((a + d).to_bits(), a.to_bits());
        }
    }
}

#[test]
fn approximate_eq_at_the_last_number_below_the_tolerance() {
    let eps = 0.00001f64;
    let below = f64::from_bits(eps.to_bits() - 1);
    let half_gap = (eps - below) / 2.0;
    for tiny in [half_gap, half_gap * 0.5, half_gap * 1.5, half_gap * 0.999_999, half_gap * 1.000_001] {
        agree(below.to_bits(), (-tiny).to_bits());
        agree(tiny.to_bits(), (-below).to_bits());
        agree(eps.to_bits(), tiny.to_bits());
    }
    assert!(approximate_eq(below.to_bits(), (-half_gap).to_bits()));
    assert!(!approximate_eq(eps.to_bits(), 0));
    assert!(approximate_eq(below.to_bits(), 0));
}

#[test]
fn plus_exact_values() {
    assert_eq!(plus(1.0f64.to_bits(), 2.0f64.to_bits()), 3.0f64.to_bits());
    assert_eq!(plus(0.1f64.to_bits(), 0.2f64.to_bits()), 0x3fd3_3333_3333_3334);
    assert_eq!(plus(0, 0x8000_0000_0000_0000), 0);
    assert_eq!(plus(0x8000_0000_0000_0000, 0x8000_0000_0000_0000), 0x8000_0000_0000_0000);
    assert_eq!(plus(1.5f64.to_bits(), (-1.5f64).to_bits()), 0);
    assert_eq!(plus(f64::MAX.to_bits(), f64::MAX.to_bits()), 0x7ff0_0000_0000_0000);
    assert_eq!(plus(1, 1), 2);
    assert_eq!(plus(0x000f_ffff_ffff_ffff, 1), 0x0010_0000_0000_0000);
}

#[test]
fn plus_on_infinities_and_nans() {
    let inf = 0x7ff0_0000_0000_0000u64;
    let ninf = 0xfff0_0000_0000_0000u64;
    let quiet = 0x7ff8_0000_0000_0000u64;
    assert_eq!(plus(inf, inf), inf);
    assert_eq!(plus(ninf, ninf), ninf);
    assert_eq!(plus(inf, ninf), quiet);
    assert_eq!(plus(ninf, inf), quiet);
    assert_eq!(plus(inf, 1.0f64.to_bits()), inf);
    assert_eq!(plus((-1.0f64).to_bits(), ninf), ninf);
    assert_eq!(plus(0x7ff0_0000_0000_0001, 0), quiet);
    assert_eq!(plus(0, 0xffff_ffff_ffff_ffff), quiet);
    assert_eq!(minus(inf, inf), quiet);
    assert_eq!(minus(inf, ninf), inf);
}

#[test]
fn less_orders_zeros_infinities_and_nans() {
    let inf = 0x7ff0_0000_0000_0000u64;
    let ninf = 0xfff0_0000_0000_0000u64;
    let neg_zero = 0x8000_0000_0000_0000u64;
    assert!(!less(0, neg_zero));
    assert!(!less(neg_zero, 0));
    assert!(less(neg_zero, 1));
    assert!(less(neg_zero + 1, 0));
    assert!(less(ninf, inf));
    assert!(less(f64::MAX.to_bits(), inf));
    assert!(less(ninf, (-f64::MAX).to_bits()));
    assert!(!less(inf, inf));
    assert!(!less(0x7ff8_0000_0000_0000, inf));
    assert!(!less(0, 0x7ff8_0000_0000_0000));
}

#[test]
fn sign_helpers() {
    assert_eq!(negate(1.0f64.to_bits()), (-1.0f64).to_bits());
    assert_eq!(negate((-1.0f64).to_bits()), 1.0f64.to_bits());
    assert_eq!(negate(0), 0x8000_0000_0000_0000);
    assert_eq!(absolute((-2.5f64).to_bits()), 2.5f64.to_bits());
    assert_eq!(absolute(2.5f64.to_bits()), 2.5f64.to_bits());
}

#[test]
fn decode_splits_significand_and_quantum() {
    assert_eq!(decode(0), (0, 0));
    assert_eq!(decode(5), (5, 0));
    assert_eq!(decode(0x0010_0000_0000_0000), (0x0010_0000_0000_0000, 0));
    assert_eq!(decode(1.0f64.to_bits()), (0x0010_0000_0000_0000, 1022));
    assert_eq!(decode(f64::MAX.to_bits()), (0x001f_ffff_ffff_ffff, 2045));
}

#[test]
fn round_to_nearest_ties_and_overflow() {
    let one = 0x0010_0000_0000_0000u128;
    assert_eq!(round_to_nearest(0, 0), 0);
    assert_eq!(round_to_nearest(0, 100), 0);
    assert_eq!(round_to_nearest(1, 0), 1);
    assert_eq!(round_to_nearest(1, 52), 0x0010_0000_0000_0000);
    assert_eq!(round_to_nearest(one, 1022), 1.0f64.to_bits());
    // one half above an even and an odd significand
    assert_eq!(round_to_nearest(2 * one + 1, 0), 0x0020_0000_0000_0000);
    assert_eq!(round_to_nearest(2 * one + 3, 0), 0x0020_0000_0000_0002);
    assert_eq!(round_to_nearest(4 * one + 1, 0), 0x0030_0000_0000_0000);
    assert_eq!(round_to_nearest(4 * one + 2, 0), 0x0030_0000_0000_0000);
    assert_eq!(round_to_nearest(4 * one + 3, 0), 0x0030_0000_0000_0001);
    assert_eq!(round_to_nearest(4 * one + 6, 0), 0x0030_0000_0000_0002);
    // a carry out of the significand
    assert_eq!(round_to_nearest(4 * one - 1, 0), 0x0030_0000_0000_0000);
    // the largest finite number, and the first magnitude that overflows
    assert_eq!(round_to_nearest(2 * one - 1, 2045), f64::MAX.to_bits());
    assert_eq!(round_to_nearest(4 * one - 2, 2044), f64::MAX.to_bits());
    assert_eq!(round_to_nearest(4 * one - 1, 2044), 0x7ff0_0000_0000_0000);
    assert_eq!(round_to_nearest(2 * one, 2045), 0x7ff0_0000_0000_0000);
}
