use hmtl_kernel::types::zero_state_matrix;
use hmtl_kernel::types::Fp8;

fn fp8(x: f32) -> Fp8 {
    Fp8::from_f32(x.to_bits())
}

fn number(x: Fp8) -> f32 {
    f32::from_bits(x.to_f32())
}

/// The magnitude of the lower seven bits `p`, for a finite pattern.
fn e4m3(p: u8) -> f64 {
    if p == 0x7E {
        return 448.0;
    }
    let mantissa = (p % 8) as f64 / 8.0;
    let exponent = (p / 8) as i32;
    if exponent == 0 {
        mantissa * 2f64.powi(-6)
    } else {
        (1.0 + mantissa) * 2f64.powi(exponent - 7)
    }
}

fn is_finite(x: Fp8) -> bool {
    let p = x.0 % 0x80;
    p < 0x78 || p == 0x7E
}

#[test]
fn constants_have_their_values() {
    assert_eq!(number(Fp8(Fp8::ZERO)), 0.0);
    assert_eq!(number(Fp8(Fp8::ONE)), 1.0);
    assert_eq!(number(Fp8(Fp8::NEG_ONE)), -1.0);
    assert_eq!(number(Fp8(Fp8::MIN)), -448.0);
    assert_eq!(number(Fp8(Fp8::MAX)), 448.0);
    assert!(number(Fp8(Fp8::NAN)).is_nan());
    assert_eq!(number(Fp8(Fp8::INFINITY)), f32::INFINITY);
    assert_eq!(number(Fp8(Fp8::NEG_INFINITY)), f32::NEG_INFINITY);
}

#[test]
fn every_pattern_decodes_as_e4m3() {
    for bits in 0..=255u8 {
        let p = bits % 0x80;
        let sign = if bits >= 0x80 { -1.0 } else { 1.0 };
        let decoded = number(Fp8(bits));
        if is_finite(Fp8(bits)) {
            assert_eq!(decoded as f64, sign * e4m3(p), "pattern {:#04x}", bits);
            assert_eq!(decoded.is_sign_negative(), bits >= 0x80);
        } else if p == 0x78 {
            assert_eq!(decoded as f64, sign * f64::INFINITY);
        } else {
            assert!(decoded.is_nan());
        }
    }
}

#[test]
fn conversion_gives_exact_patterns() {
    assert_eq!(fp8(0.0), Fp8(0x00));
    assert_eq!(fp8(-0.0), Fp8(0x80));
    assert_eq!(fp8(0.5), Fp8(0x30));
    assert_eq!(fp8(1.0), Fp8(0x38));
    assert_eq!(fp8(1.99), Fp8(0x3F));
    assert_eq!(fp8(2.0), Fp8(0x40));
    assert_eq!(number(fp8(3.14)), 3.0);
    assert_eq!(number(fp8(-3.14)), -3.0);
    assert_eq!(fp8(0.03), Fp8(0x0F));
    assert_eq!(fp8(0.01), Fp8(0x05));
    assert_eq!(fp8(0.002), Fp8(0x01));
    assert_eq!(fp8(0.001), Fp8(0x00));
    assert_eq!(fp8(-0.001), Fp8(0x80));
    assert_eq!(number(fp8(255.9)), 240.0);
}

#[test]
fn conversion_saturates() {
    for x in [256.0, 300.0, 447.9, 448.0, 449.0, 1e30, f32::MAX, f32::INFINITY] {
        assert_eq!(fp8(x), Fp8(Fp8::MAX), "{}", x);
        assert_eq!(fp8(-x), Fp8(Fp8::MIN), "{}", -x);
    }
}

#[test]
fn conversion_keeps_nan() {
    assert_eq!(fp8(f32::NAN), Fp8(Fp8::NAN));
    assert_eq!(Fp8::from_f32(0xFFC0_0001), Fp8(Fp8::NAN));
    assert_eq!(Fp8::from_f32(0x7F80_0001), Fp8(Fp8::NAN));
}

#[test]
fn conversion_cuts_toward_zero() {
    let mut bits: u32 = 0;
    loop {
        let x = f32::from_bits(bits);
        if !x.is_nan() {
            let r = Fp8::from_f32(bits);
            let m = x.abs() as f64;
            let p = r.0 % 0x80;
            assert_eq!(r.0 >= 0x80, x.is_sign_negative(), "{}", x);
            if m >= 256.0 {
                assert_eq!(p, 0x7E, "{}", x);
            } else {
                assert!(p < 0x78, "{}", x);
                assert!(e4m3(p) <= m, "{}", x);
                let next = if p == 0x77 { 256.0 } else { e4m3(p + 1) };
                assert!(m < next, "{}", x);
            }
        }
        match bits.checked_add(10_007) {
            Some(b) => bits = b,
            None => return,
        }
    }
}

#[test]
fn conversion_error_is_below_an_eighth() {
    let mut x = 0.015625f32;
    while x < 256.0 {
        let kept = number(fp8(x));
        assert!(kept <= x && 8.0 * (x - kept) < kept, "{}", x);
        x *= 1.0009;
    }
}

#[test]
fn finite_values_survive_the_round_trip() {
    for bits in 0..=255u8 {
        if is_finite(Fp8(bits)) {
            assert_eq!(Fp8::from_f32(Fp8(bits).to_f32()), Fp8(bits));
        }
    }
    assert_eq!(Fp8::from_f32(Fp8(Fp8::INFINITY).to_f32()), Fp8(Fp8::MAX));
    assert_eq!(Fp8::from_f32(Fp8(0xF9).to_f32()), Fp8(Fp8::NAN));
}

#[test]
fn patterns_without_sign_are_ordered_as_numbers() {
    for a in 0..0x80u8 {
        for b in 0..0x80u8 {
            if is_finite(Fp8(a)) && is_finite(Fp8(b)) {
                assert_eq!(a < b, number(Fp8(a)) < number(Fp8(b)));
            }
        }
    }
}

#[test]
fn sums_are_converted_exact_sums() {
    for a in 0..=255u8 {
        for b in 0..=255u8 {
            let exact = number(Fp8(a)) + number(Fp8(b));
            assert_eq!(Fp8(a) + Fp8(b), fp8(exact), "{:#04x} + {:#04x}", a, b);
        }
    }
}

#[test]
fn products_are_converted_exact_products() {
    for a in 0..=255u8 {
        for b in 0..=255u8 {
            let exact = number(Fp8(a)) * number(Fp8(b));
            assert_eq!(Fp8(a) * Fp8(b), fp8(exact), "{:#04x} * {:#04x}", a, b);
        }
    }
}

#[test]
fn arithmetic_commutes() {
    assert_eq!(fp8(1.5) + fp8(0.25), fp8(0.25) + fp8(1.5));
    assert_eq!(fp8(1.5) * fp8(-0.25), fp8(-0.25) * fp8(1.5));
    assert_eq!(number(fp8(1.5) + fp8(0.25)), 1.75);
    assert_eq!(number(fp8(1.5) * fp8(-0.25)), -0.375);
}

#[test]
fn zero_and_one_are_neutral() {
    for bits in 0..=255u8 {
        if is_finite(Fp8(bits)) {
            assert_eq!(Fp8(bits) * Fp8(Fp8::ONE), Fp8(bits));
            if bits != 0x80 {
                assert_eq!(Fp8(bits) + Fp8(Fp8::ZERO), Fp8(bits));
            }
        }
    }
    assert_eq!(Fp8(0x80) + Fp8(Fp8::ZERO), Fp8(Fp8::ZERO));
}

#[test]
fn arithmetic_on_special_values() {
    let inf = Fp8(Fp8::INFINITY);
    let minus_inf = Fp8(Fp8::NEG_INFINITY);
    assert_eq!(inf + minus_inf, Fp8(Fp8::NAN));
    assert_eq!(inf + fp8(-1.0), Fp8(Fp8::MAX));
    assert_eq!(minus_inf + fp8(1.0), Fp8(Fp8::MIN));
    assert_eq!(inf * Fp8(Fp8::ZERO), Fp8(Fp8::NAN));
    assert_eq!(inf * fp8(-1.0), Fp8(Fp8::MIN));
    assert_eq!(Fp8(Fp8::NAN) + fp8(1.0), Fp8(Fp8::NAN));
}

#[test]
fn product_of_two_conversions() {
    let a = fp8(3.14);
    let b = fp8(2.0);
    let c = a * b;
    assert!((number(c) - 6.25).abs() <= 0.25);
    assert_eq!(number(c), 6.0);
}

#[test]
fn units_count_512ths() {
    assert_eq!(Fp8(Fp8::ONE).to_units(), 512);
    assert_eq!(Fp8(0x01).to_units(), 1);
    assert_eq!(Fp8(Fp8::MIN).to_units(), 448 * 512);
    assert_eq!(Fp8::from_units(true, 512), Fp8(Fp8::NEG_ONE));
    assert_eq!(Fp8::from_units(false, 17), Fp8(0x10));
    assert_eq!(Fp8::from_units(false, 256 * 512 - 1), Fp8(0x77));
    assert_eq!(Fp8::from_units(false, 256 * 512), Fp8(Fp8::MAX));
}

#[test]
fn zero_matrix_is_zero() {
    let matrix = zero_state_matrix();
    assert!(matrix.iter().all(|row| row.iter().all(|x| x.0 == 0x00)));
}
