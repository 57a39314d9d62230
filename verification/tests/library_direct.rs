//! Direct checks of the library on concrete bit patterns.

use approx_float::approx::ApproxFloat;

const TOLERANCE: f32 = 0.00001;

fn af(v: f32) -> ApproxFloat {
    ApproxFloat::new(v.to_bits())
}

#[test]
fn tolerance_constant_matches_the_single_precision_value() {
    // 0.00001 as a single-precision value is 10995116 * 2^(-40).
    assert_eq!(TOLERANCE.to_bits(), 0x3727C5AC);
}

#[test]
fn decomposes_forty_two() {
    let a = af(42.0);
    assert_eq!(a.to_bits(), 0x42280000);
    assert!(!a.sign_bit());
    assert_eq!(
        a.exponent_bits(),
        vec![true, false, false, false, false, true, false, false]
    );
    let expected_mantissa: Vec<bool> = (0..23).map(|i| (0x280000u32 >> (22 - i)) & 1 == 1).collect();
    assert_eq!(a.mantissa_bits(), expected_mantissa);
}

#[test]
fn sign_bit_of_negative_values() {
    assert!(af(-42.0).sign_bit());
    assert!(af(-0.0).sign_bit());
    assert!(!af(0.0).sign_bit());
}

#[test]
fn renders_binary_literal() {
    assert_eq!(
        af(42.0).to_bin_str(),
        "0b01000010001010000000000000000000"
    );
    assert_eq!(
        af(-0.0).to_bin_str(),
        "0b10000000000000000000000000000000"
    );
}

#[test]
fn round_trip_reconstructs_the_pattern() {
    for v in [42.0f32, -42.0, 0.0, -0.0, 0.1, 1.999998, 3.5e-38, 6.0e-39] {
        let a = af(v);
        assert_eq!(a.recombined().to_bits(), a.to_bits());
        let rebuilt =
            ApproxFloat::from_parts(a.sign_bit(), &a.exponent_bits(), &a.mantissa_bits());
        assert_eq!(rebuilt.to_bits(), a.to_bits());
    }
}

#[test]
fn equals_close_and_far_values() {
    // Inside the tolerance.
    assert!(af(42.0).equals(&af(42.0 + TOLERANCE / 2.0)));
    assert!(af(42.0).equals(&af(42.0 - TOLERANCE / 2.0)));
    assert!(af(-42.0).equals(&af(-42.0 + TOLERANCE / 2.0)));
    assert!(af(0.5).equals(&af(0.5 + TOLERANCE / 2.0)));
    // Outside the tolerance.
    assert!(!af(42.0).equals(&af(42.0 + TOLERANCE * 2.0)));
    assert!(!af(42.0).equals(&af(42.0 - TOLERANCE * 2.0)));
    assert!(!af(-42.0).equals(&af(-42.0 - TOLERANCE * 2.0)));
    assert!(!af(0.5).equals(&af(0.5 + TOLERANCE * 2.0)));
    // Opposite signs, tiny values: within tolerance across zero.
    assert!(af(0.000004).equals(&af(-0.000004)));
    assert!(!af(0.00002).equals(&af(-0.00002)));
}

#[test]
fn equals_is_symmetric_and_reflexive_on_samples() {
    let samples = [42.0f32, -42.0, 0.0, -0.0, 0.1, 2.000003, 1.999998];
    for &x in &samples {
        assert!(af(x).equals(&af(x)));
        for &y in &samples {
            assert_eq!(af(x).equals(&af(y)), af(y).equals(&af(x)));
        }
    }
}

#[test]
fn equals_sits_exactly_on_the_boundary() {
    // Zero against the tolerance itself: equal; one ulp above: not equal.
    let tol_bits = TOLERANCE.to_bits();
    assert!(af(0.0).equals(&ApproxFloat::new(tol_bits)));
    assert!(!af(0.0).equals(&ApproxFloat::new(tol_bits + 1)));
}

#[test]
fn non_finite_values_never_compare_equal() {
    let nan = ApproxFloat::new(0x7FC00000);
    let inf = ApproxFloat::new(0x7F800000);
    let neg_inf = ApproxFloat::new(0xFF800000);
    assert!(!nan.equals(&nan));
    assert!(!inf.equals(&inf));
    assert!(!neg_inf.equals(&inf));
    assert!(!inf.equals(&af(42.0)));
    assert!(!af(42.0).equals(&nan));
}

#[test]
fn zero_identity() {
    assert!(af(0.0).equals(&af(-0.0)));
    assert_eq!(af(0.0).hash(), af(-0.0).hash());
    assert_eq!(af(0.0).hash(), 0);
}

#[test]
fn hash_of_forty_two() {
    // Exponent field 132, reconstructed exponent 33 - 127 = -94: every
    // mantissa place value falls below the tolerance, so the whole mantissa
    // is cleared and only the exponent field remains.
    assert_eq!(af(42.0).hash(), 132u32 << 23);
    // A value within tolerance of 42.0 gets the same code.
    assert_eq!(af(42.0).hash(), af(42.0 + TOLERANCE / 2.0).hash());
    // The sign still matters for non-zero values.
    assert_ne!(af(42.0).hash(), af(-42.0).hash());
}

#[test]
fn hash_keeps_significant_mantissa_bits() {
    // Exponent field 30 (0b00011110): bits 3..=6 of the most-significant-
    // first sequence are set, contributing 2^3 + 2^4 + 2^5 + 2^6 = 120, so
    // the reconstructed exponent is 120 - 127 = -7 and mantissa bits 0..=9
    // keep their place (bit 9 has place value 2^(-16), which still meets
    // the tolerance), while bits 10..=22 are cleared.
    let bits: u32 = (30u32 << 23) | 0x7FFFFF;
    let a = ApproxFloat::new(bits);
    let kept = a.significant_mantissa_bits();
    let expected: Vec<bool> = (0..23).map(|i| i <= 9).collect();
    assert_eq!(kept, expected);
    assert_eq!(a.hash(), (30u32 << 23) | 0x7FE000);
}

#[test]
fn hashes_differ_across_power_of_two_boundary() {
    // Equal by tolerance, but the exponent fields are 127 and 128, so the
    // derived codes differ: the documented breakage mode.
    let a = af(1.999998);
    let b = af(2.000003);
    assert!(a.equals(&b));
    assert_ne!(a.hash(), b.hash());
}
