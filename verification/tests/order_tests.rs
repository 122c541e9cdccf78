use raytracelib::scalar::Scalar;

fn s(v: f64) -> Scalar {
    Scalar::from_bits(v.to_bits())
}

fn samples() -> Vec<f64> {
    let mut all = vec![
        0.0,
        -0.0,
        5e-324,
        -5e-324,
        f64::MIN_POSITIVE,
        2.2250738585072009e-308,
        0.49999999999999994,
        0.5,
        0.5000000000000001,
        1.0,
        1.5,
        2.5,
        -2.5,
        3.5,
        549.5,
        550.5,
        4503599627370495.5,
        4503599627370496.0,
        4503599627370497.0,
        9007199254740992.0,
        4294967295.0,
        4294967295.5,
        4294967296.0,
        9223372036854775808.0,
        18446744073709549568.0,
        18446744073709551616.0,
        1e30,
        f64::MAX,
        f64::INFINITY,
        f64::NEG_INFINITY,
        f64::NAN,
    ];
    let mut x: u64 = 0x1234_5678_9ABC_DEF1;
    for _ in 0..2000 {
        x ^= x << 13;
        x ^= x >> 7;
        x ^= x << 17;
        all.push(f64::from_bits(x));
        let e = 1000 + (x >> 52) % 120;
        all.push(f64::from_bits((x & 0x800F_FFFF_FFFF_FFFF) | (e << 52)));
    }
    all
}

#[test]
fn less_than_matches_the_hardware() {
    let all = samples();
    for &a in all.iter().take(400) {
        for &b in &all {
            assert_eq!(s(a).less_than(s(b)), a < b, "{:?} < {:?}", a, b);
            assert_eq!(s(b).less_than(s(a)), b < a, "{:?} < {:?}", b, a);
        }
    }
}

#[test]
fn less_than_on_chosen_values() {
    assert!(s(1.0).less_than(s(2.0)));
    assert!(!s(2.0).less_than(s(1.0)));
    assert!(!s(1.0).less_than(s(1.0)));
    assert!(s(-2.0).less_than(s(-1.0)));
    assert!(s(-1.0).less_than(s(5e-324)));
    assert!(!s(-0.0).less_than(s(0.0)));
    assert!(!s(0.0).less_than(s(-0.0)));
    assert!(s(f64::NEG_INFINITY).less_than(s(f64::MIN)));
    assert!(s(f64::MAX).less_than(s(f64::INFINITY)));
    assert!(!s(f64::NAN).less_than(s(1.0)));
    assert!(!s(1.0).less_than(s(f64::NAN)));
}

#[test]
fn round_to_index_matches_the_hardware() {
    for &a in &samples() {
        assert_eq!(s(a).round_to_index(), a.round() as usize, "index of {:?}", a);
    }
}

#[test]
fn round_to_index_on_chosen_values() {
    assert_eq!(s(0.0).round_to_index(), 0);
    assert_eq!(s(0.49999999999999994).round_to_index(), 0);
    assert_eq!(s(0.5).round_to_index(), 1);
    assert_eq!(s(1.5).round_to_index(), 2);
    assert_eq!(s(2.5).round_to_index(), 3);
    assert_eq!(s(2.4999).round_to_index(), 2);
    assert_eq!(s(-0.5).round_to_index(), 0);
    assert_eq!(s(-7.0).round_to_index(), 0);
    assert_eq!(s(899.0).round_to_index(), 899);
    assert_eq!(s(4503599627370497.0).round_to_index(), 4503599627370497);
    assert_eq!(s(1e30).round_to_index(), usize::MAX);
    assert_eq!(s(f64::INFINITY).round_to_index(), usize::MAX);
    assert_eq!(s(f64::NEG_INFINITY).round_to_index(), 0);
    assert_eq!(s(f64::NAN).round_to_index(), 0);
}
