use float_cmp::ApproxEq;
use float_cmp::F64Margin;
use raytracelib::scalar::Scalar;

fn s(v: f64) -> Scalar {
    Scalar::from_bits(v.to_bits())
}

fn reference(a: f64, b: f64) -> bool {
    a.approx_eq(b, F64Margin { epsilon: 0.0, ulps: 2 })
}

fn samples() -> Vec<u64> {
    let mut bits: Vec<u64> = Vec::new();
    let anchors: [u64; 14] = [
        0x0000_0000_0000_0000,
        0x0000_0000_0000_0001,
        0x000F_FFFF_FFFF_FFFF,
        0x0010_0000_0000_0000,
        0x3FE0_0000_0000_0000,
        0x3FF0_0000_0000_0000,
        0x4000_0000_0000_0000,
        0x7FEF_FFFF_FFFF_FFFF,
        0x7FF0_0000_0000_0000,
        0x7FF0_0000_0000_0001,
        0x7FF8_0000_0000_0000,
        0x7FFF_FFFF_FFFF_FFFF,
        0x3FB9_9999_9999_999A,
        0x4059_0000_0000_0000,
    ];
    for a in anchors {
        for sign in [0u64, 0x8000_0000_0000_0000] {
            for step in 0..4u64 {
                bits.push((a | sign).wrapping_add(step));
                bits.push((a | sign).wrapping_sub(step));
            }
        }
    }
    bits
}

#[test]
fn approx_eq_agrees_with_float_cmp() {
    let all = samples();
    for &a in &all {
        for &b in &all {
            let expected = reference(f64::from_bits(a), f64::from_bits(b));
            let got = Scalar::from_bits(a).approx_eq(Scalar::from_bits(b));
            assert_eq!(got, expected, "{:#018x} against {:#018x}", a, b);
        }
    }
}

#[test]
fn approx_eq_agrees_with_float_cmp_on_scattered_values() {
    // a fixed linear congruential sequence of bit patterns
    let mut x: u64 = 0x9E37_79B9_7F4A_7C15;
    for _ in 0..20000 {
        x = x.wrapping_mul(6364136223846793005).wrapping_add(1442695040888963407);
        let a = x;
        x = x.wrapping_mul(6364136223846793005).wrapping_add(1442695040888963407);
        let b = if x % 3 == 0 { a.wrapping_add(x % 7).wrapping_sub(3) } else { x };
        let expected = reference(f64::from_bits(a), f64::from_bits(b));
        assert_eq!(Scalar::from_bits(a).approx_eq(Scalar::from_bits(b)), expected);
    }
}

#[test]
fn approx_eq_within_two_steps() {
    let one = 1.0f64.to_bits();
    assert!(s(1.0).approx_eq(Scalar::from_bits(one + 1)));
    assert!(s(1.0).approx_eq(Scalar::from_bits(one + 2)));
    assert!(!s(1.0).approx_eq(Scalar::from_bits(one + 3)));
    assert!(s(1.0).approx_eq(Scalar::from_bits(one - 2)));
    assert!(!s(1.0).approx_eq(Scalar::from_bits(one - 3)));
    assert!(!s(1.0).approx_eq(s(-1.0)));
    assert!(!s(1.0).approx_eq(s(1.0000001)));
}

#[test]
fn the_two_zeros_are_equal() {
    assert!(s(0.0).approx_eq(s(-0.0)));
    assert!(s(-0.0).approx_eq(s(0.0)));
    // one step either side of a zero is within two steps of the other zero
    assert!(s(0.0).approx_eq(Scalar::from_bits(0x8000_0000_0000_0001)));
    assert!(!s(0.0).approx_eq(Scalar::from_bits(0x8000_0000_0000_0002)));
}

#[test]
fn approx_eq_is_reflexive_and_symmetric_on_samples() {
    let all = samples();
    for &a in &all {
        assert!(Scalar::from_bits(a).approx_eq(Scalar::from_bits(a)));
        for &b in &all {
            assert_eq!(
                Scalar::from_bits(a).approx_eq(Scalar::from_bits(b)),
                Scalar::from_bits(b).approx_eq(Scalar::from_bits(a))
            );
        }
    }
}

#[test]
fn negate_matches_float_negation() {
    for &a in &samples() {
        let expected = (-f64::from_bits(a)).to_bits();
        assert_eq!(Scalar::from_bits(a).negate().to_bits(), expected);
        assert_eq!(Scalar::from_bits(a).negate().negate().to_bits(), a);
    }
}

#[test]
fn fields_of_known_values() {
    assert_eq!(s(1.0).exponent(), 1023);
    assert_eq!(s(1.0).fraction(), 0);
    assert!(!s(1.0).is_sign_negative());
    assert_eq!(s(-1.5).exponent(), 1023);
    assert_eq!(s(-1.5).fraction(), 1 << 51);
    assert!(s(-1.5).is_sign_negative());
    assert_eq!(s(f64::INFINITY).exponent(), 2047);
    assert_eq!(s(f64::MIN_POSITIVE).exponent(), 1);
    assert_eq!(s(5e-324).exponent(), 0);
    assert_eq!(s(5e-324).fraction(), 1);
    assert_eq!(Scalar::from_bits(0x1234_5678_9ABC_DEF0).to_bits(), 0x1234_5678_9ABC_DEF0);
}

#[test]
fn classification_matches_the_hardware() {
    for &a in &samples() {
        let v = f64::from_bits(a);
        let x = Scalar::from_bits(a);
        assert_eq!(x.is_nan(), v.is_nan());
        assert_eq!(x.is_infinite(), v.is_infinite());
        assert_eq!(x.is_finite(), v.is_finite());
        assert_eq!(x.is_zero(), v == 0.0);
        assert_eq!(x.is_sign_negative(), v.is_sign_negative());
        assert_eq!(x.abs().to_bits(), v.abs().to_bits());
        assert_eq!(x.signed(true).to_bits(), (-v.abs()).to_bits());
        assert_eq!(x.signed(false).to_bits(), v.abs().to_bits());
    }
}

#[test]
fn parts_give_the_value_back() {
    for v in [1.0f64, 0.75, 3.0, 5e-324, 1e-310, f64::MAX, f64::MIN_POSITIVE, 255.0, 0.0] {
        let (m, j) = s(v).parts();
        // m * 2^(j - 1074), with m brought below 2 first
        let back = (m as f64) * 2.0f64.powi(-52) * 2.0f64.powi(j as i32 - 1022);
        assert_eq!(back, v);
    }
    assert_eq!(s(1.0).parts(), (1 << 52, 1022));
    assert_eq!(s(5e-324).parts(), (1, 0));
    assert_eq!(Scalar::from_fields(1023, 0).to_bits(), 1.0f64.to_bits());
    assert_eq!(Scalar::from_fields(0, 1).to_bits(), 5e-324f64.to_bits());
    assert_eq!(Scalar::from_fields(2047, 0).to_bits(), f64::INFINITY.to_bits());
}
