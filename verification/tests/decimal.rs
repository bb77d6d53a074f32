use tuple4::decimal::to_text;
use tuple4::tuple::Tuple;

fn step(state: &mut u64) -> u64 {
    *state ^= *state << 13;
    *state ^= *state >> 7;
    *state ^= *state << 17;
    *state
}

fn agree(bits: u64) {
    let native = format!("{:.5}", f64::from_bits(bits));
    assert_eq!(to_text(bits), native, "{:#x}", bits);
}

#[test]
fn display_formats_five_places() {
    let t = Tuple::new(4.3f64.to_bits(), (-4.2f64).to_bits(), 3.1f64.to_bits(), 1.0f64.to_bits());
    assert_eq!(t.to_string(), "{4.30000, -4.20000, 3.10000, 1.00000}");
}

#[test]
fn display_of_default_point_and_vector() {
    assert_eq!(Tuple::default().to_string(), "{0.00000, 0.00000, 0.00000, 0.00000}");
    let p = Tuple::point(4.0f64.to_bits(), (-4.0f64).to_bits(), 3.0f64.to_bits());
    assert_eq!(p.to_string(), "{4.00000, -4.00000, 3.00000, 1.00000}");
    let v = Tuple::vector(0.5f64.to_bits(), 1e10f64.to_bits(), (-0.0f64).to_bits());
    assert_eq!(v.to_string(), "{0.50000, 10000000000.00000, -0.00000, 0.00000}");
}

#[test]
fn display_of_nan_and_infinities() {
    let t = Tuple::new(
        f64::NAN.to_bits(),
        f64::INFINITY.to_bits(),
        f64::NEG_INFINITY.to_bits(),
        0xfff8_0000_0000_0001,
    );
    assert_eq!(t.to_string(), "{NaN, inf, -inf, NaN}");
}

#[test]
fn text_exact_values() {
    assert_eq!(to_text(0), "0.00000");
    assert_eq!(to_text(0x8000_0000_0000_0000), "-0.00000");
    assert_eq!(to_text(1.0f64.to_bits()), "1.00000");
    assert_eq!(to_text(0.1f64.to_bits()), "0.10000");
    assert_eq!(to_text(123456.789f64.to_bits()), "123456.78900");
    assert_eq!(to_text((-0.000001f64).to_bits()), "-0.00000");
    assert_eq!(to_text(0.000005f64.to_bits()), "0.00001");
    assert_eq!(to_text(0.000004999f64.to_bits()), "0.00000");
    assert_eq!(to_text(9.999999f64.to_bits()), "10.00000");
    assert_eq!(to_text(99999.999999f64.to_bits()), "100000.00000");
    assert_eq!(to_text(9007199254740992.0f64.to_bits()), "9007199254740992.00000");
    assert_eq!(to_text(1e22f64.to_bits()), "10000000000000000000000.00000");
    assert_eq!(to_text(1), "0.00000");
}

#[test]
fn text_rounds_ties_to_the_even_digit() {
    // 1/64 = 0.015625 and its odd multiples lie exactly between two texts
    assert_eq!(to_text(0.015625f64.to_bits()), "0.01562");
    assert_eq!(to_text(0.046875f64.to_bits()), "0.04688");
    assert_eq!(to_text(0.078125f64.to_bits()), "0.07812");
    assert_eq!(to_text((-0.109375f64).to_bits()), "-0.10938");
    assert_eq!(to_text(1024.015625f64.to_bits()), "1024.01562");
    for k in 0..2000u64 {
        agree(((2 * k + 1) as f64 / 64.0).to_bits());
    }
}

#[test]
fn text_of_the_largest_numbers() {
    agree(f64::MAX.to_bits());
    agree((-f64::MAX).to_bits());
    agree(1e308f64.to_bits());
    agree(f64::MIN_POSITIVE.to_bits());
    assert_eq!(to_text(f64::MAX.to_bits()).len(), 309 + 6);
}

#[test]
fn text_agrees_with_the_machine_on_arbitrary_patterns() {
    let mut s: u64 = 0x2545_f491_4f6c_dd1d;
    for _ in 0..300 {
        agree(step(&mut s));
    }
}

#[test]
fn text_agrees_with_the_machine_on_moderate_numbers() {
    let mut s: u64 = 0x0bad_cafe_dead_beef;
    for _ in 0..20000 {
        let r = step(&mut s);
        let exponent = 1023 - 40 + (r >> 20) % 100;
        agree(((r & 1) << 63) | (exponent << 52) | (step(&mut s) >> 12));
    }
}

#[test]
fn text_agrees_with_the_machine_on_every_exponent() {
    for exponent in 0..2047u64 {
        for fraction in [0u64, 1, 0x0008_0000_0000_0000, 0x000f_ffff_ffff_ffff, 0x0003_1415_9265_3589] {
            agree((exponent << 52) | fraction);
        }
    }
}
