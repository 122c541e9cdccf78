use raytracelib::scalar::Scalar;
use raytracelib::Tuple;

fn s(v: f64) -> Scalar {
    Scalar::from_bits(v.to_bits())
}

fn value(v: Scalar) -> f64 {
    f64::from_bits(v.to_bits())
}

fn tuple(x: f64, y: f64, z: f64, w: f64) -> Tuple {
    Tuple { x: s(x), y: s(y), z: s(z), w: s(w) }
}

#[test]
fn is_point() {
    // A tuple with w=1.0 is a point
    let result = tuple(4.3, -4.2, 3.1, 1.0);
    assert_eq!(value(result.x), 4.3);
    assert_eq!(value(result.y), -4.2);
    assert_eq!(value(result.z), 3.1);
    assert_eq!(value(result.w), 1.0);
    assert!(result.is_point());
    assert!(!result.is_vector());
}

#[test]
fn is_vector() {
    // A tuple with w=0 is a vector
    let result = tuple(4.3, -4.2, 3.1, 0.0);
    assert_eq!(value(result.x), 4.3);
    assert_eq!(value(result.y), -4.2);
    assert_eq!(value(result.z), 3.1);
    assert_eq!(value(result.w), 0.0);
    assert!(!result.is_point());
    assert!(result.is_vector());
}

#[test]
fn make_point() {
    // point() creates tuples with w=1
    let p = Tuple::point(s(4.0), s(-4.0), s(3.0));
    let v: Tuple = tuple(4.0, -4.0, 3.0, 1.0);
    assert_eq!(p, v);
}

#[test]
fn make_vector() {
    // vector() creates tuples with w=0
    let p = Tuple::vector(s(4.0), s(-4.0), s(1.0));
    let v: Tuple = tuple(4.0, -4.0, 1.0, 0.0);
    assert_eq!(p, v);
}

#[test]
fn negate_tuple() {
    let a = tuple(1.0, -2.0, 3.0, -4.0);
    assert_eq!(-a, tuple(-1.0, 2.0, -3.0, 4.0));
}

#[test]
fn negation_flips_only_the_sign_bit() {
    let a = tuple(0.0, -0.0, f64::INFINITY, 2.5e-310);
    let n = -a;
    assert_eq!(n.x.to_bits(), (-0.0f64).to_bits());
    assert_eq!(n.y.to_bits(), 0.0f64.to_bits());
    assert_eq!(value(n.z), f64::NEG_INFINITY);
    assert_eq!(value(n.w), -2.5e-310);
    let back = -n;
    assert_eq!(back.x.to_bits(), a.x.to_bits());
    assert_eq!(back.y.to_bits(), a.y.to_bits());
    assert_eq!(back.z.to_bits(), a.z.to_bits());
    assert_eq!(back.w.to_bits(), a.w.to_bits());
}

#[test]
fn point_w_is_exactly_one_and_vector_w_exactly_zero() {
    let p = Tuple::point(s(1.5), s(2.5), s(3.5));
    let v = Tuple::vector(s(1.5), s(2.5), s(3.5));
    assert_eq!(p.w.to_bits(), 1.0f64.to_bits());
    assert_eq!(v.w.to_bits(), 0.0f64.to_bits());
    assert!(p.is_point() && !p.is_vector());
    assert!(v.is_vector() && !v.is_point());
}

#[test]
fn classification_tolerates_drift_in_w() {
    // w reached by repeated addition: a few representable values off 1.0
    let mut w = 0.0f64;
    for _ in 0..10 {
        w += 0.1;
    }
    assert!(w != 1.0);
    assert!(tuple(1.0, 2.0, 3.0, w).is_point());
    // two points added give w = 2: accepted, and neither point nor vector
    let doubled = tuple(1.0, 2.0, 3.0, 1.0 + 1.0);
    assert!(!doubled.is_point());
    assert!(!doubled.is_vector());
    // three steps away from 1.0 is too far
    let far = f64::from_bits(1.0f64.to_bits() + 3);
    assert!(!tuple(0.0, 0.0, 0.0, far).is_point());
    let near = f64::from_bits(1.0f64.to_bits() + 2);
    assert!(tuple(0.0, 0.0, 0.0, near).is_point());
}

#[test]
fn equality_needs_all_four_components() {
    let a = tuple(1.0, 2.0, 3.0, 1.0);
    assert!(a != tuple(1.5, 2.0, 3.0, 1.0));
    assert!(a != tuple(1.0, 2.5, 3.0, 1.0));
    assert!(a != tuple(1.0, 2.0, 3.5, 1.0));
    assert!(a != tuple(1.0, 2.0, 3.0, 0.0));
    assert!(a == tuple(1.0, 2.0, 3.0, 1.0));
}

/*
 * Adding Tuples
 */

#[test]
fn add_vectors() {
    // Adding two vectors
    let a1 = tuple(3.0, -2.0, 5.0, 1.0);
    let a2 = tuple(-2.0, 3.0, 1.0, 0.0);
    let result = tuple(1.0, 1.0, 6.0, 1.0);
    assert_eq!(a1 + a2, result);
}

/*
 * Subtracting Tuples
 */

#[test]
fn sub_two_points() {
    // Subtracting two points
    let p1 = Tuple::point(s(3.0), s(2.0), s(1.0));
    let p2 = Tuple::point(s(5.0), s(6.0), s(7.0));
    let result = Tuple::vector(s(-2.0), s(-4.0), s(-6.0));
    assert_eq!(p1 - p2, result);
}

#[test]
fn sub_vector_from_point() {
    // Subtracting a vector from a point
    let p = Tuple::point(s(3.0), s(2.0), s(1.0));
    let v = Tuple::vector(s(5.0), s(6.0), s(7.0));
    let result = Tuple::point(s(-2.0), s(-4.0), s(-6.0));
    assert_eq!(p - v, result);
}

#[test]
fn sub_two_vectors() {
    // Subtracting two vectors
    let v1 = Tuple::vector(s(3.0), s(2.0), s(1.0));
    let v2 = Tuple::vector(s(5.0), s(6.0), s(7.0));
    let result = Tuple::vector(s(-2.0), s(-4.0), s(-6.0));
    assert_eq!(v1 - v2, result);
}

#[test]
fn sub_from_zero() {
    let zero = Tuple::vector(s(0.0), s(0.0), s(0.0));
    let v = Tuple::vector(s(1.0), s(-2.0), s(3.0));
    assert_eq!(zero - v, Tuple::vector(s(-1.0), s(2.0), s(-3.0)));
}

/*
 * Scalar Multiplication and Division
 */
#[test]
fn test_mult_by_scalar() {
    // Multiplying a tuple by a scalar
    let a = tuple(1.0, -2.0, 3.0, -4.0);
    let result = tuple(3.5, -7.0, 10.5, -14.0);
    assert_eq!(a * s(3.5), result);
}

#[test]
fn test_mult_by_fraction() {
    // Multiplying a tuple by a fraction
    let a = tuple(1.0, -2.0, 3.0, -4.0);
    let result = tuple(0.5, -1.0, 1.5, -2.0);
    assert_eq!(a * s(0.5), result);
}

#[test]
fn test_div_by_scalar() {
    // Dividing a tuple by a scalar
    let a = tuple(1.0, -2.0, 3.0, -4.0);
    let result = tuple(0.5, -1.0, 1.5, -2.0);
    assert_eq!(a / s(2.0), result);
}

#[test]
fn division_by_zero_is_not_trapped() {
    let a = tuple(1.0, -2.0, 0.0, 4.0) / s(0.0);
    assert_eq!(value(a.x), f64::INFINITY);
    assert_eq!(value(a.y), f64::NEG_INFINITY);
    assert!(value(a.z).is_nan());
    assert_eq!(value(a.w), f64::INFINITY);
}

#[test]
fn sum_classifies_by_w() {
    let p = Tuple::point(s(1.0), s(2.0), s(3.0));
    let v = Tuple::vector(s(0.5), s(0.25), s(0.125));
    assert!((v + v).is_vector());
    assert!((p + v).is_point());
    assert!((p - p).is_vector());
    assert!((p - v).is_point());
    assert!((v - v).is_vector());
    // two points: accepted, w is 2
    let pp = p + p;
    assert_eq!(value(pp.w), 2.0);
    assert!(!pp.is_point() && !pp.is_vector());
}

#[test]
fn operators_work_component_by_component() {
    let a = tuple(0.1, 1e300, -5e-324, 7.0);
    let b = tuple(0.2, 1e300, 5e-324, -7.0);
    let sum = a + b;
    assert_eq!(sum.x.to_bits(), (0.1f64 + 0.2).to_bits());
    assert_eq!(sum.y.to_bits(), (1e300f64 + 1e300).to_bits());
    assert_eq!(sum.z.to_bits(), (-5e-324f64 + 5e-324).to_bits());
    assert_eq!(sum.w.to_bits(), (7.0f64 + -7.0).to_bits());
    let diff = a - b;
    assert_eq!(diff.x.to_bits(), (0.1f64 - 0.2).to_bits());
    assert_eq!(diff.y.to_bits(), (1e300f64 - 1e300).to_bits());
    assert_eq!(diff.z.to_bits(), (-5e-324f64 - 5e-324).to_bits());
    assert_eq!(diff.w.to_bits(), (7.0f64 - -7.0).to_bits());
    let scaled = a * s(1e10);
    assert_eq!(scaled.x.to_bits(), (1e10f64 * 0.1).to_bits());
    assert_eq!(value(scaled.y), f64::INFINITY);
    assert_eq!(scaled.z.to_bits(), (1e10f64 * -5e-324).to_bits());
    assert_eq!(scaled.w.to_bits(), (1e10f64 * 7.0).to_bits());
}

#[test]
fn adding_and_taking_away_again() {
    // (a + b) - b is a again, within tolerance, where b does not dwarf a
    let a = tuple(4.3, -4.2, 3.1, 1.0);
    let b = tuple(0.7, 11.25, -0.01, 0.0);
    assert_eq!((a + b) - b, a);
    // where it does, a is lost in the sum
    let big = tuple(1e300, 1e300, 1e300, 0.0);
    assert!((a + big) - big != a);
    // components at most twice as large come back within tolerance
    let c = tuple(8.6, 8.4, -6.2, -2.0);
    assert_eq!((a + c) - c, a);
}

#[test]
fn magnitudes_of_chosen_vectors() {
    assert_eq!(value(Tuple::vector(s(1.0), s(0.0), s(0.0)).magnitude()), 1.0);
    assert_eq!(value(Tuple::vector(s(0.0), s(1.0), s(0.0)).magnitude()), 1.0);
    assert_eq!(value(Tuple::vector(s(0.0), s(0.0), s(1.0)).magnitude()), 1.0);
    assert_eq!(value(Tuple::vector(s(3.0), s(4.0), s(0.0)).magnitude()), 5.0);
    assert_eq!(value(Tuple::vector(s(1.0), s(2.0), s(3.0)).magnitude()), 14.0f64.sqrt());
    assert_eq!(value(Tuple::vector(s(-1.0), s(-2.0), s(-3.0)).magnitude()), 14.0f64.sqrt());
    // w counts too
    assert_eq!(value(tuple(1.0, 2.0, 2.0, 4.0).magnitude()), 5.0);
    assert_eq!(value(Tuple::vector(s(0.0), s(0.0), s(0.0)).magnitude()), 0.0);
}

#[test]
fn normalized_vectors_have_length_one() {
    let one = s(1.0);
    for v in [
        Tuple::vector(s(4.0), s(0.0), s(0.0)),
        Tuple::vector(s(1.0), s(2.0), s(3.0)),
        Tuple::vector(s(1.0), s(1.8), s(0.0)),
        Tuple::vector(s(-3.0), s(4.0), s(0.0)),
        Tuple::vector(s(0.0), s(0.0), s(-5e-10)),
        Tuple::vector(s(1e100), s(-1e100), s(1e99)),
    ] {
        let n = v.normalize();
        assert!(n.magnitude().approx_eq(one), "{:?}", v);
        assert!(n.is_vector());
    }
    let n = Tuple::vector(s(4.0), s(0.0), s(0.0)).normalize();
    assert_eq!(n, Tuple::vector(s(1.0), s(0.0), s(0.0)));
    let n = Tuple::vector(s(1.0), s(2.0), s(3.0)).normalize();
    let m = 14.0f64.sqrt();
    assert_eq!(n.x.to_bits(), (1.0 / m).to_bits());
    assert_eq!(n.y.to_bits(), (2.0 / m).to_bits());
    assert_eq!(n.z.to_bits(), (3.0 / m).to_bits());
}

#[test]
fn normalized_length_can_miss_one_by_three_steps() {
    // rounding in the squares, the sum, the root and the quotients adds up
    let v = Tuple::vector(s(-0.7641456117921397), s(5.781301569537165), s(-0.27194256053725674));
    let length = v.normalize().magnitude();
    assert_eq!(length.to_bits(), 1.0f64.to_bits() - 3);
    assert!(!length.approx_eq(s(1.0)));
}

#[test]
fn normalize_without_length_is_not_finite() {
    let n = Tuple::vector(s(0.0), s(0.0), s(0.0)).normalize();
    assert!(value(n.x).is_nan() && value(n.y).is_nan() && value(n.z).is_nan());
    assert!(value(n.w).is_nan());
    // squares that fall below the smallest double leave no length either
    let n = Tuple::vector(s(1e-200), s(0.0), s(0.0)).normalize();
    assert_eq!(value(n.x), f64::INFINITY);
    assert!(value(n.y).is_nan());
    // and squares beyond the largest give an infinite one
    let n = Tuple::vector(s(1e200), s(1.0), s(0.0)).normalize();
    assert_eq!(value(n.x), 0.0);
    assert_eq!(value(n.magnitude()), 0.0);
}

#[test]
fn negate_is_the_method_behind_the_operator() {
    let a = tuple(1.0, -2.0, 0.0, f64::NAN);
    let n = a.negate();
    let o = -a;
    assert_eq!(n.x.to_bits(), o.x.to_bits());
    assert_eq!(n.y.to_bits(), o.y.to_bits());
    assert_eq!(n.z.to_bits(), o.z.to_bits());
    assert_eq!(n.w.to_bits(), o.w.to_bits());
    assert_eq!(n.z.to_bits(), (-0.0f64).to_bits());
}

#[test]
fn vectors_along_an_axis_normalize_to_length_one_exactly() {
    for x in [4.0f64, -4.0, 0.1, -7.3e-120, 1.9e150, 1e-153, 3.0, 1.7976931348623157e153] {
        for axis in 0..3 {
            let mut c = [0.0f64; 3];
            c[axis] = x;
            let v = Tuple::vector(s(c[0]), s(c[1]), s(c[2]));
            assert_eq!(v.magnitude().to_bits(), x.abs().to_bits());
            let n = v.normalize();
            assert_eq!(n.magnitude().to_bits(), 1.0f64.to_bits(), "{:?}", c);
            let parts = [n.x, n.y, n.z];
            for i in 0..3 {
                let expected = if i == axis { 1.0f64.copysign(x) } else { 0.0 };
                assert_eq!(parts[i].to_bits(), expected.to_bits());
            }
            assert_eq!(n.w.to_bits(), 0);
        }
    }
}

#[test]
fn w_of_sums_and_differences() {
    let p = Tuple::point(s(1.0), s(2.0), s(3.0));
    let q = Tuple::point(s(-4.0), s(0.5), s(9.0));
    let u = Tuple::vector(s(0.1), s(0.2), s(0.3));
    let v = Tuple::vector(s(7.0), s(-8.0), s(9.0));
    assert_eq!((u + v).w.to_bits(), 0.0f64.to_bits());
    assert_eq!((p + v).w.to_bits(), 1.0f64.to_bits());
    assert_eq!((v + p).w.to_bits(), 1.0f64.to_bits());
    assert_eq!((p + q).w.to_bits(), 2.0f64.to_bits());
    assert_eq!((p - q).w.to_bits(), 0.0f64.to_bits());
    assert_eq!((p - v).w.to_bits(), 1.0f64.to_bits());
    assert_eq!((u - v).w.to_bits(), 0.0f64.to_bits());
}
