//! Homogeneous tuples (x, y, z, w): a point has w = 1, a vector has w = 0.

use crate::arith::cancel::is_balanced;
use crate::arith::cancel::lemma_sum_then_difference_within_tolerance;
use crate::arith::product::lemma_product_with_zero;
use crate::arith::product::product;
use crate::arith::product::product_of;
use crate::arith::quotient::lemma_quotient_by_absolute;
use crate::arith::quotient::lemma_quotient_by_zero;
use crate::arith::quotient::quotient;
use crate::arith::quotient::quotient_of;
use crate::arith::root::lemma_root_of_square;
use crate::arith::root::root;
use crate::arith::root::root_of;
use crate::arith::root::squares_to_normal;
use crate::arith::sum::difference;
use crate::arith::sum::difference_of;
use crate::arith::sum::lemma_difference_with_itself;
use crate::arith::sum::lemma_sum_then_difference;
use crate::arith::sum::lemma_sum_with_itself;
use crate::arith::sum::lemma_sum_with_zero;
use crate::arith::sum::sum;
use crate::arith::sum::sum_is_exact;
use crate::arith::sum::sum_of;
use crate::scalar::lemma_with_sign_fields;
use crate::scalar::lemma_zero_and_infinite_bits;
use crate::scalar::NAN_BITS;
use crate::scalar::ONE_BITS;
use crate::scalar::Scalar;
use crate::scalar::ZERO_BITS;
use std::ops::Add;
use std::ops::Div;
use std::ops::Mul;
use std::ops::Neg;
use std::ops::Sub;
use vstd::prelude::*;
use vstd::std_specs::cmp::PartialEqSpecImpl;
use vstd::std_specs::ops::AddSpecImpl;
use vstd::std_specs::ops::DivSpecImpl;
use vstd::std_specs::ops::MulSpecImpl;
use vstd::std_specs::ops::NegSpecImpl;
use vstd::std_specs::ops::SubSpecImpl;

verus! {

/// The w of a point.
pub const POINT_W: u64 = ONE_BITS;

/// The w of a vector.
pub const VECTOR_W: u64 = ZERO_BITS;

/// Bit pattern of two: the w of the sum of two points.
pub const TWO_BITS: u64 = 0x4000_0000_0000_0000;

/// Four scalars x, y, z, w. Tuples are plain values: every operation gives
/// a new one.
#[derive(Debug, Clone, Copy)]
pub struct Tuple {
    pub x: Scalar,
    pub y: Scalar,
    pub z: Scalar,
    pub w: Scalar,
}

impl Tuple {
    /// Whether w is, within tolerance, the w of a point.
    pub open spec fn is_point_spec(&self) -> bool {
        self.w.approx_eq_spec(Scalar { bits: POINT_W })
    }

    /// Whether w is, within tolerance, the w of a vector.
    pub open spec fn is_vector_spec(&self) -> bool {
        self.w.approx_eq_spec(Scalar { bits: VECTOR_W })
    }

    /// Tolerance equality on all four components.
    pub open spec fn approx_eq_spec(self, other: Tuple) -> bool {
        self.x.approx_eq_spec(other.x) && self.y.approx_eq_spec(other.y) && self.z.approx_eq_spec(
            other.z,
        ) && self.w.approx_eq_spec(other.w)
    }

    /// The sum, component by component, w included.
    pub open spec fn plus(self, other: Tuple) -> Tuple {
        Tuple {
            x: sum_of(self.x, other.x),
            y: sum_of(self.y, other.y),
            z: sum_of(self.z, other.z),
            w: sum_of(self.w, other.w),
        }
    }

    /// The difference, component by component, w included.
    pub open spec fn minus(self, other: Tuple) -> Tuple {
        Tuple {
            x: difference_of(self.x, other.x),
            y: difference_of(self.y, other.y),
            z: difference_of(self.z, other.z),
            w: difference_of(self.w, other.w),
        }
    }

    /// Every component, w included, multiplied by `k`.
    pub open spec fn times(self, k: Scalar) -> Tuple {
        Tuple {
            x: product_of(k, self.x),
            y: product_of(k, self.y),
            z: product_of(k, self.z),
            w: product_of(k, self.w),
        }
    }

    /// Every component, w included, divided by `k`.
    pub open spec fn over(self, k: Scalar) -> Tuple {
        Tuple {
            x: quotient_of(self.x, k),
            y: quotient_of(self.y, k),
            z: quotient_of(self.z, k),
            w: quotient_of(self.w, k),
        }
    }

    /// The tuple with every component negated.
    pub open spec fn negated(self) -> Tuple {
        Tuple {
            x: self.x.negated(),
            y: self.y.negated(),
            z: self.z.negated(),
            w: self.w.negated(),
        }
    }

    /// The length of the tuple: the root of the sum of the squares of the
    /// four components, summed from x to w.
    pub open spec fn magnitude_spec(&self) -> Scalar {
        root_of(
            sum_of(
                sum_of(
                    sum_of(product_of(self.x, self.x), product_of(self.y, self.y)),
                    product_of(self.z, self.z),
                ),
                product_of(self.w, self.w),
            ),
        )
    }

    /// The tuple with every component divided by the length of the tuple.
    pub open spec fn normalize_spec(&self) -> Tuple {
        self.over(self.magnitude_spec())
    }

    /// The point at (x, y, z).
    pub fn point(x: Scalar, y: Scalar, z: Scalar) -> (p: Tuple)
        ensures
            p == (Tuple { x, y, z, w: Scalar { bits: POINT_W } }),
            p.is_point_spec(),
            !p.is_vector_spec(),
    {
        Tuple { x, y, z, w: Scalar { bits: POINT_W } }
    }

    /// The vector (x, y, z).
    pub fn vector(x: Scalar, y: Scalar, z: Scalar) -> (v: Tuple)
        ensures
            v == (Tuple { x, y, z, w: Scalar { bits: VECTOR_W } }),
            v.is_vector_spec(),
            !v.is_point_spec(),
    {
        Tuple { x, y, z, w: Scalar { bits: VECTOR_W } }
    }

    /// The tuple with all four components negated.
    #[verifier::when_used_as_spec(negated)]
    pub fn negate(self) -> (r: Tuple)
        ensures
            r == self.negated(),
    {
        Tuple { x: self.x.negate(), y: self.y.negate(), z: self.z.negate(), w: self.w.negate() }
    }

    /// The length of the tuple.
    #[verifier::when_used_as_spec(magnitude_spec)]
    pub fn magnitude(&self) -> (m: Scalar)
        ensures
            m == self.magnitude_spec(),
    {
        let xx = product(self.x, self.x);
        let yy = product(self.y, self.y);
        let zz = product(self.z, self.z);
        let ww = product(self.w, self.w);
        root(sum(sum(sum(xx, yy), zz), ww))
    }

    /// The tuple scaled to length one. A tuple of length zero has no
    /// direction: its components come out as NaN, and it is for the caller
    /// to look at the length first.
    #[verifier::when_used_as_spec(normalize_spec)]
    pub fn normalize(&self) -> (n: Tuple)
        ensures
            n == self.normalize_spec(),
    {
        let m = self.magnitude();
        Tuple {
            x: quotient(self.x, m),
            y: quotient(self.y, m),
            z: quotient(self.z, m),
            w: quotient(self.w, m),
        }
    }

    /// Whether w is, within tolerance, the w of a point.
    #[verifier::when_used_as_spec(is_point_spec)]
    pub fn is_point(&self) -> (r: bool)
        ensures
            r == self.is_point_spec(),
    {
        self.w.approx_eq(Scalar { bits: POINT_W })
    }

    /// Whether w is, within tolerance, the w of a vector.
    #[verifier::when_used_as_spec(is_vector_spec)]
    pub fn is_vector(&self) -> (r: bool)
        ensures
            r == self.is_vector_spec(),
    {
        self.w.approx_eq(Scalar { bits: VECTOR_W })
    }
}

impl PartialEq for Tuple {
    /// Tolerance equality on all four components.
    fn eq(&self, other: &Self) -> (r: bool) {
        self.x.approx_eq(other.x) && self.y.approx_eq(other.y) && self.z.approx_eq(other.z)
            && self.w.approx_eq(other.w)
    }
}

impl PartialEqSpecImpl for Tuple {
    open spec fn obeys_eq_spec() -> bool {
        true
    }

    open spec fn eq_spec(&self, other: &Self) -> bool {
        self.approx_eq_spec(*other)
    }
}

impl Add for Tuple {
    type Output = Tuple;

    /// The sum, component by component, w included.
    fn add(self, other: Tuple) -> (r: Tuple) {
        Tuple {
            x: sum(self.x, other.x),
            y: sum(self.y, other.y),
            z: sum(self.z, other.z),
            w: sum(self.w, other.w),
        }
    }
}

impl AddSpecImpl for Tuple {
    open spec fn obeys_add_spec() -> bool {
        true
    }

    open spec fn add_req(self, other: Tuple) -> bool {
        true
    }

    open spec fn add_spec(self, other: Tuple) -> Tuple {
        self.plus(other)
    }
}

impl Sub for Tuple {
    type Output = Tuple;

    /// The difference, component by component, w included.
    fn sub(self, other: Tuple) -> (r: Tuple) {
        Tuple {
            x: difference(self.x, other.x),
            y: difference(self.y, other.y),
            z: difference(self.z, other.z),
            w: difference(self.w, other.w),
        }
    }
}

impl SubSpecImpl for Tuple {
    open spec fn obeys_sub_spec() -> bool {
        true
    }

    open spec fn sub_req(self, other: Tuple) -> bool {
        true
    }

    open spec fn sub_spec(self, other: Tuple) -> Tuple {
        self.minus(other)
    }
}

impl Mul<Scalar> for Tuple {
    type Output = Tuple;

    /// Every component, w included, multiplied by `rhs`.
    fn mul(self, rhs: Scalar) -> (r: Tuple) {
        Tuple {
            x: product(rhs, self.x),
            y: product(rhs, self.y),
            z: product(rhs, self.z),
            w: product(rhs, self.w),
        }
    }
}

impl MulSpecImpl<Scalar> for Tuple {
    open spec fn obeys_mul_spec() -> bool {
        true
    }

    open spec fn mul_req(self, rhs: Scalar) -> bool {
        true
    }

    open spec fn mul_spec(self, rhs: Scalar) -> Tuple {
        self.times(rhs)
    }
}

impl Div<Scalar> for Tuple {
    type Output = Tuple;

    /// Every component, w included, divided by `rhs`. Division by zero is
    /// not trapped: it gives infinities, and a NaN for a zero component.
    fn div(self, rhs: Scalar) -> (r: Tuple) {
        Tuple {
            x: quotient(self.x, rhs),
            y: quotient(self.y, rhs),
            z: quotient(self.z, rhs),
            w: quotient(self.w, rhs),
        }
    }
}

impl DivSpecImpl<Scalar> for Tuple {
    open spec fn obeys_div_spec() -> bool {
        true
    }

    open spec fn div_req(self, rhs: Scalar) -> bool {
        true
    }

    open spec fn div_spec(self, rhs: Scalar) -> Tuple {
        self.over(rhs)
    }
}

impl Neg for Tuple {
    type Output = Tuple;

    /// Negates all four components.
    fn neg(self) -> (r: Tuple) {
        self.negate()
    }
}

impl NegSpecImpl for Tuple {
    open spec fn obeys_neg_spec() -> bool {
        true
    }

    open spec fn neg_req(self) -> bool {
        true
    }

    open spec fn neg_spec(self) -> Tuple {
        self.negated()
    }
}

/// What adding and subtracting do to w, where w is exactly that of a point
/// or of a vector: two vectors add to a vector and a point and a vector to
/// a point; a point less a point is a vector, a point less a vector a
/// point, and a vector less a vector a vector. Two points add to a tuple
/// with w = 2, which is neither.
pub proof fn lemma_w_of_sums_and_differences(a: Tuple, b: Tuple)
    requires
        a.w.bits == POINT_W || a.w.bits == VECTOR_W,
        b.w.bits == POINT_W || b.w.bits == VECTOR_W,
    ensures
        a.w.bits == VECTOR_W && b.w.bits == VECTOR_W ==> a.plus(b).w.bits == VECTOR_W,
        a.w.bits == POINT_W && b.w.bits == VECTOR_W ==> a.plus(b).w.bits == POINT_W,
        a.w.bits == VECTOR_W && b.w.bits == POINT_W ==> a.plus(b).w.bits == POINT_W,
        a.w.bits == POINT_W && b.w.bits == POINT_W ==> a.plus(b).w.bits == TWO_BITS && !a.plus(
            b,
        ).is_point_spec() && !a.plus(b).is_vector_spec(),
        a.w.bits == POINT_W && b.w.bits == POINT_W ==> a.minus(b).w.bits == VECTOR_W,
        a.w.bits == POINT_W && b.w.bits == VECTOR_W ==> a.minus(b).w.bits == POINT_W,
        a.w.bits == VECTOR_W && b.w.bits == VECTOR_W ==> a.minus(b).w.bits == VECTOR_W,
{
    let one = Scalar { bits: POINT_W };
    let zero = Scalar { bits: VECTOR_W };
    assert(0x3FF0_0000_0000_0000u64 / 0x0010_0000_0000_0000 % 0x800 == 0x3FF
        && 0x3FF0_0000_0000_0000u64 % 0x0010_0000_0000_0000 == 0) by (bit_vector);
    assert(one.exponent_field() == 0x3FF && one.fraction_field() == 0);
    assert(zero.exponent_field() == 0 && zero.fraction_field() == 0);
    assert(zero.negated().bits == 0x8000_0000_0000_0000);
    assert(0x8000_0000_0000_0000u64 / 0x0010_0000_0000_0000 % 0x800 == 0 && 0x8000_0000_0000_0000u64
        % 0x0010_0000_0000_0000 == 0) by (bit_vector);
    assert(zero.negated().is_zero());
    lemma_sum_with_zero(one, zero);
    lemma_sum_with_zero(one, zero.negated());
    lemma_difference_with_itself(one);
    lemma_difference_with_itself(zero);
    lemma_sum_with_itself(one);
    assert(one.exponent_field() + 1 < 0x7FF);
}

/// Division by zero is not trapped: no component of the quotient is
/// finite.
pub proof fn lemma_over_zero(a: Tuple, k: Scalar)
    requires
        k.is_zero(),
    ensures
        !a.over(k).x.is_finite(),
        !a.over(k).y.is_finite(),
        !a.over(k).z.is_finite(),
        !a.over(k).w.is_finite(),
{
    lemma_quotient_by_zero(a.x, k);
    lemma_quotient_by_zero(a.y, k);
    lemma_quotient_by_zero(a.z, k);
    lemma_quotient_by_zero(a.w, k);
}

/// A tuple of length zero has no direction: no component of its normalized
/// form is finite.
pub proof fn lemma_normalize_of_no_length(a: Tuple)
    requires
        a.magnitude_spec().is_zero(),
    ensures
        !a.normalize_spec().x.is_finite(),
        !a.normalize_spec().y.is_finite(),
        !a.normalize_spec().z.is_finite(),
        !a.normalize_spec().w.is_finite(),
{
    lemma_over_zero(a, a.magnitude_spec());
}

/// Whether the tuple is a vector along one axis: w and two of x, y, z are
/// positive zero, and the third squares to a normal number.
pub open spec fn is_along_axis(v: Tuple) -> bool {
    &&& v.w.bits == VECTOR_W
    &&& {
        ||| squares_to_normal(v.x) && v.y.bits == ZERO_BITS && v.z.bits == ZERO_BITS
        ||| v.x.bits == ZERO_BITS && squares_to_normal(v.y) && v.z.bits == ZERO_BITS
        ||| v.x.bits == ZERO_BITS && v.y.bits == ZERO_BITS && squares_to_normal(v.z)
    }
}

/// The component of a vector along one axis that is not zero.
pub open spec fn axis_component(v: Tuple) -> Scalar {
    if squares_to_normal(v.x) {
        v.x
    } else if squares_to_normal(v.y) {
        v.y
    } else {
        v.z
    }
}

/// The length of a vector along one axis is the absolute value of its one
/// component.
pub proof fn lemma_length_along_axis(v: Tuple)
    requires
        is_along_axis(v),
    ensures
        v.magnitude_spec() == axis_component(v).absolute(),
{
    let zero = Scalar { bits: ZERO_BITS };
    let c = axis_component(v);
    let cc = product_of(c, c);
    assert(zero.exponent_field() == 0 && zero.fraction_field() == 0);
    lemma_product_with_zero(zero, zero);
    assert(product_of(zero, zero) == zero);
    lemma_root_of_square(c);
    // the square is finite and not zero: its root is not
    lemma_with_sign_fields(c, false);
    assert(c.absolute() == c.with_sign(false));
    assert(!c.absolute().is_zero());
    assert(cc.is_finite() && !cc.is_zero()) by {
        assert(0x7FF8_0000_0000_0000u64 / 0x0010_0000_0000_0000 % 0x800 == 0x7FF
            && 0x7FF8_0000_0000_0000u64 % 0x0010_0000_0000_0000 == 0x0008_0000_0000_0000)
            by (bit_vector);
        assert((Scalar { bits: NAN_BITS }).exponent_field() == 0x7FF);
        assert((Scalar { bits: NAN_BITS }).fraction_field() == 0x0008_0000_0000_0000);
        lemma_zero_and_infinite_bits(cc);
    }
    lemma_sum_with_zero(cc, zero);
}

/// A vector along one axis, normalized, is the vector along that axis
/// whose one component is one, with the sign that the component had.
pub proof fn lemma_normalize_along_axis(v: Tuple)
    requires
        is_along_axis(v),
    ensures
        is_along_axis(v.normalize_spec()),
        axis_component(v.normalize_spec()) == (Scalar { bits: ONE_BITS }).with_sign(
            axis_component(v).is_negative(),
        ),
{
    let zero = Scalar { bits: ZERO_BITS };
    let one = Scalar { bits: ONE_BITS };
    let c = axis_component(v);
    let length = c.absolute();
    lemma_length_along_axis(v);
    assert(v.normalize_spec() == v.over(length));
    lemma_with_sign_fields(c, false);
    assert(length == c.with_sign(false));
    lemma_quotient_by_absolute(c);
    assert(zero.exponent_field() == 0 && zero.fraction_field() == 0);
    assert(quotient_of(zero, length) == zero);
    lemma_unit_squares_to_normal(c.is_negative());
}

/// One, with either sign, squares to a normal number.
proof fn lemma_unit_squares_to_normal(negative: bool)
    ensures
        squares_to_normal((Scalar { bits: ONE_BITS }).with_sign(negative)),
        (Scalar { bits: ONE_BITS }).with_sign(negative).absolute().bits == ONE_BITS,
        (Scalar { bits: ONE_BITS }).with_sign(negative).bits != ZERO_BITS,
{
    let one = Scalar { bits: ONE_BITS };
    let unit = one.with_sign(negative);
    assert(0x3FF0_0000_0000_0000u64 / 0x0010_0000_0000_0000 % 0x800 == 0x3FF
        && 0x3FF0_0000_0000_0000u64 % 0x0010_0000_0000_0000 == 0) by (bit_vector);
    assert(one.exponent_field() == 0x3FF && one.fraction_field() == 0);
    lemma_with_sign_fields(one, negative);
    lemma_with_sign_fields(unit, false);
    assert(unit.absolute() == unit.with_sign(false));
}

/// A vector along one axis, normalized, has length one exactly, where its
/// one component squares to a normal number.
pub proof fn lemma_normalized_along_axis(v: Tuple)
    requires
        is_along_axis(v),
    ensures
        v.normalize_spec().magnitude_spec().bits == ONE_BITS,
{
    let n = v.normalize_spec();
    lemma_normalize_along_axis(v);
    lemma_length_along_axis(n);
    lemma_unit_squares_to_normal(axis_component(v).is_negative());
}

/// Whether a scalar that is added can be taken away again: the sum rounds
/// nothing away, or `b` weighs little enough against `a`.
pub open spec fn comes_back(a: Scalar, b: Scalar) -> bool {
    sum_is_exact(a, b) || is_balanced(a, b)
}

/// Adding `b` to `a` and taking it away again gives a tuple equal to `a`,
/// where in every component the sum rounds nothing away, or the component
/// of `b` is at most twice as large as that of `a` and nothing goes beyond
/// the largest double.
pub proof fn lemma_add_then_subtract(a: Tuple, b: Tuple)
    requires
        comes_back(a.x, b.x),
        comes_back(a.y, b.y),
        comes_back(a.z, b.z),
        comes_back(a.w, b.w),
    ensures
        a.plus(b).minus(b).approx_eq_spec(a),
{
    lemma_comes_back(a.x, b.x);
    lemma_comes_back(a.y, b.y);
    lemma_comes_back(a.z, b.z);
    lemma_comes_back(a.w, b.w);
}

/// A scalar that comes back is, within tolerance, the one that went in.
pub proof fn lemma_comes_back(a: Scalar, b: Scalar)
    requires
        comes_back(a, b),
    ensures
        difference_of(sum_of(a, b), b).approx_eq_spec(a),
{
    if sum_is_exact(a, b) {
        lemma_sum_then_difference(a, b);
    } else {
        lemma_sum_then_difference_within_tolerance(a, b);
    }
}

} // verus!
