use melody_extraction::real_bits::{
    bits_eq, bits_is_nan, bits_le, bits_lt, FOUR_BITS, INFINITY_BITS, NEG_INFINITY_BITS,
};

fn samples() -> Vec<f32> {
    vec![
        0.0,
        -0.0,
        1.0,
        -1.0,
        0.5,
        -0.5,
        4.0,
        4.000001,
        3.9999998,
        1e-45,
        -1e-45,
        1e-38,
        -1e-38,
        f32::MAX,
        f32::MIN,
        f32::INFINITY,
        f32::NEG_INFINITY,
        f32::NAN,
        -f32::NAN,
        f32::from_bits(0x7fc0_0001),
        f32::from_bits(0xff80_0001),
        115.0,
        125.0,
        120.0,
        60.0,
    ]
}

#[test]
fn comparisons_match_single_precision() {
    for &a in samples().iter() {
        for &b in samples().iter() {
            assert_eq!(bits_lt(a.to_bits(), b.to_bits()), a < b, "{} < {}", a, b);
            assert_eq!(bits_le(a.to_bits(), b.to_bits()), a <= b, "{} <= {}", a, b);
            assert_eq!(bits_eq(a.to_bits(), b.to_bits()), a == b, "{} == {}", a, b);
        }
    }
}

#[test]
fn nan_detection_matches() {
    for &a in samples().iter() {
        assert_eq!(bits_is_nan(a.to_bits()), a.is_nan());
    }
}

#[test]
fn named_constants_encode_their_values() {
    assert_eq!(FOUR_BITS, 4.0f32.to_bits());
    assert_eq!(INFINITY_BITS, f32::INFINITY.to_bits());
    assert_eq!(NEG_INFINITY_BITS, f32::NEG_INFINITY.to_bits());
}

#[test]
fn zeros_are_equal_and_nan_is_unordered() {
    assert!(bits_eq(0.0f32.to_bits(), (-0.0f32).to_bits()));
    assert!(!bits_lt((-0.0f32).to_bits(), 0.0f32.to_bits()));
    let nan = f32::NAN.to_bits();
    assert!(!bits_lt(nan, 1.0f32.to_bits()));
    assert!(!bits_lt(1.0f32.to_bits(), nan));
    assert!(!bits_eq(nan, nan));
}
