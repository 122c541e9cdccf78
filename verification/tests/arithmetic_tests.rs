use raytracelib::arith::product::product;
use raytracelib::arith::quotient::quotient;
use raytracelib::arith::root::root;
use raytracelib::arith::sum::difference;
use raytracelib::arith::sum::sum;
use raytracelib::scalar::Scalar;

fn s(v: f64) -> Scalar {
    Scalar::from_bits(v.to_bits())
}

fn value(v: Scalar) -> f64 {
    f64::from_bits(v.to_bits())
}

/// Same double: the same bits, or both a NaN.
fn same(got: Scalar, expected: f64) -> bool {
    if expected.is_nan() {
        value(got).is_nan()
    } else {
        got.to_bits() == expected.to_bits()
    }
}

struct Scatter(u64);

impl Scatter {
    fn next(&mut self) -> u64 {
        self.0 ^= self.0 << 13;
        self.0 ^= self.0 >> 7;
        self.0 ^= self.0 << 17;
        self.0
    }

    /// A double with any bits.
    fn any(&mut self) -> f64 {
        f64::from_bits(self.next())
    }

    /// A double whose exponent lies within `spread` of that of `near`.
    fn close_to(&mut self, near: f64, spread: u64) -> f64 {
        let e = (near.to_bits() >> 52) & 0x7FF;
        let shift = self.next() % (2 * spread + 1);
        let e2 = (e + shift).saturating_sub(spread).min(0x7FF);
        let x = self.next();
        f64::from_bits((x & 0x800F_FFFF_FFFF_FFFF) | (e2 << 52))
    }
}

fn edge_values() -> Vec<f64> {
    vec![
        0.0,
        -0.0,
        1.0,
        -1.0,
        2.0,
        0.5,
        0.1,
        0.2,
        0.3,
        1.5,
        3.0,
        1e300,
        -1e300,
        f64::MAX,
        f64::MIN,
        f64::MIN_POSITIVE,
        -f64::MIN_POSITIVE,
        5e-324,
        -5e-324,
        1e-310,
        2.2250738585072009e-308,
        f64::INFINITY,
        f64::NEG_INFINITY,
        f64::NAN,
        f64::EPSILON,
        1.0 + f64::EPSILON,
        1.0 - f64::EPSILON / 2.0,
        9007199254740992.0,
        9007199254740993.0,
        9007199254740994.0,
        4503599627370496.0,
        4503599627370495.5,
        0.1 + 0.2,
        1.7976931348623155e308,
        8.98846567431158e307,
    ]
}

#[test]
fn sum_of_edge_values_matches_the_hardware() {
    let all = edge_values();
    for &a in &all {
        for &b in &all {
            assert!(same(sum(s(a), s(b)), a + b), "{:?} + {:?}", a, b);
            assert!(same(difference(s(a), s(b)), a - b), "{:?} - {:?}", a, b);
        }
    }
}

#[test]
fn sum_of_scattered_values_matches_the_hardware() {
    let mut g = Scatter(0x0123_4567_89AB_CDEF);
    for _ in 0..200000 {
        let a = g.any();
        let b = g.any();
        assert!(same(sum(s(a), s(b)), a + b), "{:?} + {:?}", a, b);
        let c = g.close_to(a, 60);
        assert!(same(sum(s(a), s(c)), a + c), "{:?} + {:?}", a, c);
        assert!(same(difference(s(a), s(c)), a - c), "{:?} - {:?}", a, c);
        let d = g.close_to(a, 2);
        assert!(same(sum(s(a), s(d)), a + d), "{:?} + {:?}", a, d);
        assert!(same(difference(s(a), s(d)), a - d), "{:?} - {:?}", a, d);
    }
}

#[test]
fn sum_near_the_limits() {
    let mut g = Scatter(0xFEED_FACE_CAFE_BEEF);
    for _ in 0..50000 {
        let a = g.close_to(f64::MAX, 2);
        let b = g.close_to(f64::MAX, 2);
        assert!(same(sum(s(a), s(b)), a + b), "{:?} + {:?}", a, b);
        let c = g.close_to(5e-324, 3);
        let d = g.close_to(5e-324, 3);
        assert!(same(sum(s(c), s(d)), c + d), "{:?} + {:?}", c, d);
        assert!(same(difference(s(c), s(d)), c - d), "{:?} - {:?}", c, d);
    }
}

#[test]
fn sums_of_chosen_values() {
    assert_eq!(value(sum(s(1.0), s(2.0))), 3.0);
    assert_eq!(value(sum(s(0.1), s(0.2))), 0.30000000000000004);
    assert_eq!(value(difference(s(3.0), s(5.0))), -2.0);
    assert_eq!(sum(s(1.0), s(-1.0)).to_bits(), 0.0f64.to_bits());
    assert_eq!(sum(s(-0.0), s(-0.0)).to_bits(), (-0.0f64).to_bits());
    assert_eq!(sum(s(0.0), s(-0.0)).to_bits(), 0.0f64.to_bits());
    assert_eq!(value(sum(s(f64::MAX), s(f64::MAX))), f64::INFINITY);
    assert_eq!(value(sum(s(1e300), s(1.0))), 1e300);
    assert!(value(sum(s(f64::INFINITY), s(f64::NEG_INFINITY))).is_nan());
    assert_eq!(sum(s(f64::INFINITY), s(f64::NEG_INFINITY)).to_bits(), 0x7FF8_0000_0000_0000);
    assert_eq!(value(sum(s(9007199254740992.0), s(1.0))), 9007199254740992.0);
    assert_eq!(value(sum(s(9007199254740992.0), s(3.0))), 9007199254740996.0);
}

#[test]
fn product_of_edge_values_matches_the_hardware() {
    let all = edge_values();
    for &a in &all {
        for &b in &all {
            assert!(same(product(s(a), s(b)), a * b), "{:?} * {:?}", a, b);
        }
    }
}

/// A double whose exponent field is `e` more or less.
fn with_exponent(g: &mut Scatter, e: u64, spread: u64) -> f64 {
    g.close_to(f64::from_bits(e << 52), spread)
}

#[test]
fn product_of_scattered_values_matches_the_hardware() {
    let mut g = Scatter(0x0F1E_2D3C_4B5A_6978);
    for _ in 0..200000 {
        let a = g.any();
        let b = g.any();
        assert!(same(product(s(a), s(b)), a * b), "{:?} * {:?}", a, b);
        let c = with_exponent(&mut g, 1023, 40);
        let d = with_exponent(&mut g, 1023, 40);
        assert!(same(product(s(c), s(d)), c * d), "{:?} * {:?}", c, d);
    }
}

#[test]
fn product_near_the_limits() {
    let mut g = Scatter(0x1357_9BDF_0246_8ACE);
    for _ in 0..100000 {
        // products that fall among the subnormals, or just above them
        let a = with_exponent(&mut g, 500, 60);
        let b = with_exponent(&mut g, 500, 60);
        assert!(same(product(s(a), s(b)), a * b), "{:?} * {:?}", a, b);
        let c = with_exponent(&mut g, 5, 5);
        let d = with_exponent(&mut g, 1023, 60);
        assert!(same(product(s(c), s(d)), c * d), "{:?} * {:?}", c, d);
        // products about the largest double
        let e = with_exponent(&mut g, 1535, 3);
        let f = with_exponent(&mut g, 1534, 3);
        assert!(same(product(s(e), s(f)), e * f), "{:?} * {:?}", e, f);
    }
}

#[test]
fn products_of_chosen_values() {
    assert_eq!(value(product(s(3.5), s(-2.0))), -7.0);
    assert_eq!(value(product(s(0.1), s(0.4))), 0.04000000000000001);
    assert_eq!(value(product(s(0.3), s(255.0))), 76.5);
    assert_eq!(product(s(-0.0), s(5.0)).to_bits(), (-0.0f64).to_bits());
    assert_eq!(product(s(-0.0), s(-5.0)).to_bits(), 0.0f64.to_bits());
    assert_eq!(value(product(s(1e200), s(1e200))), f64::INFINITY);
    assert_eq!(value(product(s(-1e200), s(1e200))), f64::NEG_INFINITY);
    assert_eq!(value(product(s(1e-200), s(1e-200))), 0.0);
    assert_eq!(value(product(s(5e-324), s(0.5))), 0.0);
    assert_eq!(value(product(s(5e-324), s(0.75))), 5e-324);
    assert_eq!(value(product(s(5e-324), s(1.5))), 1e-323);
    assert_eq!(product(s(0.0), s(f64::INFINITY)).to_bits(), 0x7FF8_0000_0000_0000);
    assert_eq!(value(product(s(-2.0), s(f64::INFINITY))), f64::NEG_INFINITY);
}

#[test]
fn quotient_of_edge_values_matches_the_hardware() {
    let all = edge_values();
    for &a in &all {
        for &b in &all {
            assert!(same(quotient(s(a), s(b)), a / b), "{:?} / {:?}", a, b);
        }
    }
}

#[test]
fn quotient_of_scattered_values_matches_the_hardware() {
    let mut g = Scatter(0x0BAD_5EED_0DDB_A115);
    for _ in 0..200000 {
        let a = g.any();
        let b = g.any();
        assert!(same(quotient(s(a), s(b)), a / b), "{:?} / {:?}", a, b);
        let c = with_exponent(&mut g, 1023, 40);
        let d = with_exponent(&mut g, 1023, 40);
        assert!(same(quotient(s(c), s(d)), c / d), "{:?} / {:?}", c, d);
    }
}

#[test]
fn quotient_near_the_limits() {
    let mut g = Scatter(0x7777_1234_ABCD_0001);
    for _ in 0..100000 {
        // quotients that fall among the subnormals, or just above them
        let a = with_exponent(&mut g, 30, 30);
        let b = with_exponent(&mut g, 1050, 30);
        assert!(same(quotient(s(a), s(b)), a / b), "{:?} / {:?}", a, b);
        let c = with_exponent(&mut g, 3, 3);
        let d = with_exponent(&mut g, 1023, 60);
        assert!(same(quotient(s(c), s(d)), c / d), "{:?} / {:?}", c, d);
        assert!(same(quotient(s(d), s(c)), d / c), "{:?} / {:?}", d, c);
        assert!(same(quotient(s(c), s(a)), c / a), "{:?} / {:?}", c, a);
        // quotients about the largest double
        let e = with_exponent(&mut g, 2040, 6);
        let f = with_exponent(&mut g, 1018, 6);
        assert!(same(quotient(s(e), s(f)), e / f), "{:?} / {:?}", e, f);
    }
}

#[test]
fn quotients_of_small_whole_numbers() {
    for i in 0..300u32 {
        for j in 0..300u32 {
            let a = f64::from(i);
            let b = f64::from(j);
            assert!(same(quotient(s(a), s(b)), a / b), "{:?} / {:?}", a, b);
            assert!(same(quotient(s(-a), s(b)), -a / b), "{:?} / {:?}", -a, b);
        }
    }
}

#[test]
fn quotients_of_chosen_values() {
    assert_eq!(value(quotient(s(1.0), s(2.0))), 0.5);
    assert_eq!(value(quotient(s(1.0), s(3.0))), 0.3333333333333333);
    assert_eq!(value(quotient(s(2.0), s(3.0))), 0.6666666666666666);
    assert_eq!(value(quotient(s(-7.0), s(2.0))), -3.5);
    assert_eq!(value(quotient(s(1.0), s(0.0))), f64::INFINITY);
    assert_eq!(value(quotient(s(-1.0), s(0.0))), f64::NEG_INFINITY);
    assert_eq!(value(quotient(s(1.0), s(-0.0))), f64::NEG_INFINITY);
    assert_eq!(quotient(s(0.0), s(0.0)).to_bits(), 0x7FF8_0000_0000_0000);
    assert_eq!(quotient(s(f64::INFINITY), s(f64::INFINITY)).to_bits(), 0x7FF8_0000_0000_0000);
    assert_eq!(quotient(s(1.0), s(f64::NEG_INFINITY)).to_bits(), (-0.0f64).to_bits());
    assert_eq!(quotient(s(0.0), s(-3.0)).to_bits(), (-0.0f64).to_bits());
    assert_eq!(value(quotient(s(5e-324), s(2.0))), 0.0);
    assert_eq!(value(quotient(s(5e-324), s(0.5))), 1e-323);
    assert_eq!(value(quotient(s(f64::MAX), s(0.5))), f64::INFINITY);
}

#[test]
fn root_of_edge_values_matches_the_hardware() {
    for &a in &edge_values() {
        assert!(same(root(s(a)), a.sqrt()), "root of {:?}", a);
    }
    assert_eq!(root(s(-0.0)).to_bits(), (-0.0f64).to_bits());
    assert_eq!(root(s(-1.0)).to_bits(), 0x7FF8_0000_0000_0000);
    assert_eq!(root(s(f64::NEG_INFINITY)).to_bits(), 0x7FF8_0000_0000_0000);
    assert_eq!(value(root(s(f64::INFINITY))), f64::INFINITY);
}

#[test]
fn root_of_scattered_values_matches_the_hardware() {
    let mut g = Scatter(0x600D_F00D_1234_5678);
    for _ in 0..200000 {
        let a = g.any();
        assert!(same(root(s(a)), a.sqrt()), "root of {:?}", a);
        let b = g.any().abs();
        assert!(same(root(s(b)), b.sqrt()), "root of {:?}", b);
        let c = with_exponent(&mut g, 4, 4).abs();
        assert!(same(root(s(c)), c.sqrt()), "root of {:?}", c);
        let d = with_exponent(&mut g, 1023, 3).abs();
        assert!(same(root(s(d)), d.sqrt()), "root of {:?}", d);
    }
}

#[test]
fn roots_of_whole_numbers() {
    for i in 0..100000u32 {
        let a = f64::from(i);
        assert!(same(root(s(a)), a.sqrt()), "root of {:?}", a);
        let sq = a * a;
        assert_eq!(value(root(s(sq))), a);
    }
}

#[test]
fn roots_of_chosen_values() {
    assert_eq!(value(root(s(4.0))), 2.0);
    assert_eq!(value(root(s(2.0))), 1.4142135623730951);
    assert_eq!(value(root(s(0.25))), 0.5);
    assert_eq!(value(root(s(1e-320))), 1e-320f64.sqrt());
    assert_eq!(value(root(s(5e-324))), 2.2227587494850775e-162);
    assert_eq!(value(root(s(f64::MAX))), 1.3407807929942596e154);
}

#[test]
fn root_of_a_square_is_the_absolute_value() {
    let mut g = Scatter(0x5151_5151_0000_FFFF);
    for _ in 0..100000 {
        // exponents from -511 up to 510: the square is a normal number
        let x = with_exponent(&mut g, 1022, 510);
        assert_eq!(root(product(s(x), s(x))).to_bits(), x.abs().to_bits(), "{:?}", x);
    }
    for x in [1.0f64, -1.0, 3.0, 0.1, 1.5e-154, 6.7e153, -2.9833362924800834e-154] {
        assert_eq!(root(product(s(x), s(x))).to_bits(), x.abs().to_bits(), "{:?}", x);
    }
    // beyond that range the square is lost
    assert_eq!(value(root(product(s(1e200), s(1e200)))), f64::INFINITY);
    assert_eq!(value(root(product(s(1e-200), s(1e-200)))), 0.0);
}

#[test]
fn a_scalar_over_its_absolute_value_is_one() {
    let mut g = Scatter(0x0101_0101_7777_3333);
    for _ in 0..100000 {
        let x = g.any();
        if x.is_finite() && x != 0.0 {
            let q = quotient(s(x), s(x.abs()));
            assert_eq!(q.to_bits(), 1.0f64.copysign(x).to_bits(), "{:?}", x);
        }
    }
}

#[test]
fn an_exact_sum_gives_the_first_term_back() {
    // whole numbers below 2^53 add without rounding
    let mut g = Scatter(0x4242_4242_4242_4242);
    for _ in 0..100000 {
        let a = ((g.next() >> 12) as f64) - 2251799813685248.0;
        let b = ((g.next() >> 12) as f64) - 2251799813685248.0;
        let back = difference(sum(s(a), s(b)), s(b));
        assert!(back.approx_eq(s(a)), "{:?} {:?}", a, b);
        if a != 0.0 {
            assert_eq!(back.to_bits(), a.to_bits(), "{:?} {:?}", a, b);
        }
    }
    // a zero may come back with the other sign
    let back = difference(sum(s(-0.0), s(1.0)), s(1.0));
    assert_eq!(back.to_bits(), 0.0f64.to_bits());
    assert!(back.approx_eq(s(-0.0)));
}

#[test]
fn sums_and_products_do_not_depend_on_the_order() {
    let mut g = Scatter(0x9999_8888_7777_6666);
    for _ in 0..100000 {
        let a = g.any();
        let b = g.close_to(a, 70);
        assert_eq!(sum(s(a), s(b)).to_bits(), sum(s(b), s(a)).to_bits());
        assert_eq!(product(s(a), s(b)).to_bits(), product(s(b), s(a)).to_bits());
        if !a.is_nan() {
            assert_eq!(product(s(a), s(1.0)).to_bits(), a.to_bits());
        }
        if a.is_finite() && a != 0.0 {
            assert_eq!(sum(s(a), s(0.0)).to_bits(), a.to_bits());
            assert_eq!(sum(s(-0.0), s(a)).to_bits(), a.to_bits());
            assert_eq!(difference(s(a), s(a)).to_bits(), 0);
        }
    }
}

#[test]
fn a_term_of_like_size_comes_back_within_tolerance() {
    // b at most twice as large as a, of either sign
    let mut g = Scatter(0x2468_ACE0_1357_9BDF);
    for _ in 0..200000 {
        let a = g.any();
        if !a.is_finite() || a.abs() > 1e307 {
            continue;
        }
        let scale = ((g.next() >> 11) as f64) / 9007199254740992.0 * 4.0 - 2.0;
        let mut b = a * scale;
        if b.abs() > 2.0 * a.abs() {
            b = 2.0 * a;
        }
        let back = difference(sum(s(a), s(b)), s(b));
        assert!(back.approx_eq(s(a)), "{:?} {:?}", a, b);
        let b = 2.0 * a;
        assert!(difference(sum(s(a), s(b)), s(b)).approx_eq(s(a)), "{:?} {:?}", a, b);
        let b = -2.0 * a;
        assert!(difference(sum(s(a), s(b)), s(b)).approx_eq(s(a)), "{:?} {:?}", a, b);
    }
    // a larger term can take more than the tolerance away
    let a = -920.1563244823801;
    let b = -7301.232170269712;
    assert!(!difference(sum(s(a), s(b)), s(b)).approx_eq(s(a)));
    // and beyond the largest double nothing comes back
    let top = f64::MAX;
    let b = -1.5 * 2.0f64.powi(971);
    assert_eq!(value(difference(sum(s(top), s(b)), s(b))), f64::INFINITY);
}
