use rendersloth::binary32::{bits_are_nan, bits_less_than, MAX_FINITE_BITS};

fn samples() -> Vec<f32> {
    vec![
        0.0,
        -0.0,
        1.0,
        -1.0,
        0.5,
        -0.5,
        f32::MAX,
        f32::MIN,
        f32::MIN_POSITIVE,
        -f32::MIN_POSITIVE,
        f32::from_bits(1),
        f32::from_bits(0x8000_0001),
        f32::INFINITY,
        f32::NEG_INFINITY,
        f32::NAN,
        -f32::NAN,
        f32::from_bits(0x7f80_0001),
        f32::from_bits(0xffc0_1234),
        1234.5678,
        -1234.5678,
        0.05,
        0.2,
        1e-30,
        -1e30,
    ]
}

#[test]
fn less_than_agrees_with_float_comparison() {
    let xs = samples();
    for a in &xs {
        for b in &xs {
            assert_eq!(
                bits_less_than(a.to_bits(), b.to_bits()),
                a < b,
                "{:?} < {:?}",
                a,
                b
            );
        }
    }
}

#[test]
fn nan_detection_agrees_with_float() {
    for a in samples() {
        assert_eq!(bits_are_nan(a.to_bits()), a.is_nan(), "{:?}", a);
    }
}

#[test]
fn zeros_are_not_ordered() {
    assert!(!bits_less_than(0x8000_0000, 0));
    assert!(!bits_less_than(0, 0x8000_0000));
}

#[test]
fn largest_finite_bits() {
    assert_eq!(MAX_FINITE_BITS, f32::MAX.to_bits());
    assert!(bits_less_than(1.0f32.to_bits(), MAX_FINITE_BITS));
    assert!(!bits_less_than(f32::INFINITY.to_bits(), MAX_FINITE_BITS));
}
