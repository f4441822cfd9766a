use hmtl_kernel::binary32;

fn samples() -> Vec<f32> {
    vec![
        0.0,
        -0.0,
        1e-45,
        -1e-45,
        1.17e-38,
        0.5,
        -0.5,
        1.0,
        1.0000001,
        -1.0,
        448.0,
        3.4e38,
        f32::MAX,
        f32::MIN,
        f32::INFINITY,
        f32::NEG_INFINITY,
        f32::NAN,
    ]
}

#[test]
fn comparison_is_that_of_numbers() {
    for a in samples() {
        for b in samples() {
            assert_eq!(
                binary32::less_than(a.to_bits(), b.to_bits()),
                a < b,
                "{} < {}",
                a,
                b
            );
        }
    }
}

#[test]
fn nan_patterns_are_recognised() {
    for a in samples() {
        assert_eq!(binary32::is_nan(a.to_bits()), a.is_nan());
    }
    assert!(binary32::is_nan(0xFFFF_FFFF));
    assert!(binary32::is_nan(0x7F80_0001));
}

#[test]
fn named_patterns() {
    assert!(f32::from_bits(binary32::QUIET_NAN).is_nan());
    assert_eq!(f32::from_bits(binary32::POSITIVE_INFINITY), f32::INFINITY);
    assert_eq!(f32::from_bits(binary32::NEGATIVE_INFINITY), f32::NEG_INFINITY);
    assert_eq!(f32::from_bits(binary32::LARGEST_FINITE), f32::MAX);
}

#[test]
fn scaled_numbers_have_their_patterns() {
    assert_eq!(binary32::from_scaled(false, 0, 9), 0.0f32.to_bits());
    assert_eq!(binary32::from_scaled(true, 0, 9), (-0.0f32).to_bits());
    assert_eq!(binary32::from_scaled(false, 512, 9), 1.0f32.to_bits());
    assert_eq!(binary32::from_scaled(true, 3, 1), (-1.5f32).to_bits());
    for n in [1u32, 2, 7, 1000, 0xFF_FFFF, 0x100_0000, 0x100_0002, 0x1FF_FFFE, 0x200_0000] {
        for scale in [0u32, 9, 16, 100] {
            let expected = (n as f64 * 2f64.powi(-(scale as i32))) as f32;
            assert_eq!(binary32::from_scaled(false, n, scale), expected.to_bits());
            assert_eq!(binary32::from_scaled(true, n, scale), (-expected).to_bits());
        }
    }
}
