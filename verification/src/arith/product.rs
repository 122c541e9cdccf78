//! Multiplication of scalars: the exact product, rounded once.

use crate::arith::encode::encoded;
use crate::arith::encode::lemma_finite_is_encoded;
use crate::arith::encode::lemma_holds_encoded;
use crate::arith::encode::lemma_magnitude_is_double;
use crate::arith::encode::lemma_nearest_double_scaled_shifts;
use crate::arith::encode::nearest;
use crate::arith::encode::nearest_double_scaled;
use crate::arith::rounding::excess_bits;
use crate::arith::rounding::round_half_even;
use crate::scalar::INFINITY_BITS;
use crate::scalar::lemma_with_sign_fields;
use crate::scalar::lemma_zero_and_infinite_bits;
use crate::scalar::NAN_BITS;
use crate::scalar::ONE_BITS;
use crate::scalar::Scalar;
use crate::scalar::ZERO_BITS;
use vstd::arithmetic::power2::lemma2_to64;
use vstd::arithmetic::power2::lemma2_to64_rest;
use vstd::arithmetic::power2::lemma_pow2_adds;
use vstd::arithmetic::power2::lemma_pow2_pos;
use vstd::arithmetic::power2::pow2;
use vstd::prelude::*;

verus! {

/// The product of `a` and `b`.
///
/// A NaN on either side, or zero times infinity, give the NaN of
/// `NAN_BITS`. Otherwise the sign is negative where the signs of the two
/// sides differ; an infinity gives infinity, and two finite scalars give
/// the double nearest to their exact product, infinity where that is beyond
/// the largest double.
pub open spec fn product_of(a: Scalar, b: Scalar) -> Scalar {
    if a.is_nan() || b.is_nan() || (a.is_infinite() && b.is_zero()) || (a.is_zero()
        && b.is_infinite()) {
        Scalar { bits: NAN_BITS }
    } else if a.is_infinite() || b.is_infinite() {
        (Scalar { bits: INFINITY_BITS }).with_sign(a.is_negative() != b.is_negative())
    } else {
        encoded(nearest_double_scaled(a.magnitude() * b.magnitude(), -1074)).with_sign(
            a.is_negative() != b.is_negative(),
        )
    }
}

/// The product does not depend on the order of its two sides.
pub proof fn lemma_product_commutes(a: Scalar, b: Scalar)
    ensures
        product_of(a, b) == product_of(b, a),
{
    assert(a.magnitude() * b.magnitude() == b.magnitude() * a.magnitude()) by (nonlinear_arith);
}

/// A zero times a finite scalar is a zero, negative where the signs of the
/// two sides differ.
pub proof fn lemma_product_with_zero(zero: Scalar, b: Scalar)
    requires
        zero.is_zero(),
        b.is_finite(),
    ensures
        product_of(zero, b) == (Scalar { bits: ZERO_BITS }).with_sign(
            zero.is_negative() != b.is_negative(),
        ),
        product_of(b, zero) == product_of(zero, b),
{
    lemma_product_commutes(zero, b);
    lemma2_to64();
    let t = if excess_bits(0) >= 1074 {
        excess_bits(0)
    } else {
        1074nat
    };
    let c = pow2(t) as int;
    lemma_pow2_pos(t);
    lemma_pow2_pos(1074);
    lemma_pow2_pos(2098);
    assert(zero.magnitude() * b.magnitude() == 0) by (nonlinear_arith)
        requires
            zero.magnitude() == 0,
    ;
    assert(0int / c == 0 && 0int % c == 0) by (nonlinear_arith)
        requires
            c > 0,
    ;
    assert(0 * c == 0);
    assert(round_half_even(0, t) == 0);
    assert(0int / (pow2(1074) as int) == 0) by (nonlinear_arith)
        requires
            pow2(1074) > 0,
    ;
    assert(nearest_double_scaled(0, -1074) == 0);
    assert(encoded(0).bits == 0);
}

/// Multiplying by one changes nothing, unless the scalar is a NaN.
pub proof fn lemma_product_with_one(a: Scalar)
    requires
        !a.is_nan(),
    ensures
        product_of(a, Scalar { bits: ONE_BITS }) == a,
        product_of(Scalar { bits: ONE_BITS }, a) == a,
{
    let one = Scalar { bits: ONE_BITS };
    lemma_product_commutes(a, one);
    lemma2_to64();
    lemma2_to64_rest();
    assert(0x3FF0_0000_0000_0000u64 / 0x0010_0000_0000_0000 % 0x800 == 0x3FF
        && 0x3FF0_0000_0000_0000u64 % 0x0010_0000_0000_0000 == 0) by (bit_vector);
    lemma_pow2_adds(52, 1022);
    assert(one.magnitude() == pow2(1074));
    if a.is_infinite() {
        lemma_zero_and_infinite_bits(a);
        lemma_with_sign_fields(a, a.is_negative());
        lemma_zero_and_infinite_bits(Scalar { bits: INFINITY_BITS });
    } else {
        lemma_magnitude_is_double(a);
        lemma_finite_is_encoded(a);
        lemma_nearest_double_scaled_shifts(a.magnitude(), 1074, -1074);
        assert(pow2(0) == 1);
        assert(a.magnitude() * pow2(0) == a.magnitude()) by (nonlinear_arith)
            requires
                pow2(0) == 1,
        ;
    }
}

/// The product of two scalars.
pub fn product(a: Scalar, b: Scalar) -> (r: Scalar)
    ensures
        r == product_of(a, b),
{
    let negative = a.is_sign_negative() != b.is_sign_negative();
    if a.is_nan() || b.is_nan() {
        return Scalar { bits: NAN_BITS };
    }
    if a.is_infinite() || b.is_infinite() {
        if a.is_zero() || b.is_zero() {
            return Scalar { bits: NAN_BITS };
        }
        return (Scalar { bits: INFINITY_BITS }).signed(negative);
    }
    let (ma, ja) = a.parts();
    let (mb, jb) = b.parts();
    proof {
        lemma2_to64();
        lemma2_to64_rest();
        lemma_pow2_adds(64, 64);
        lemma_pow2_adds(ja as nat, jb as nat);
        assert(0 <= ma * mb < 0x0020_0000_0000_0000 * 0x0020_0000_0000_0000) by (nonlinear_arith)
            requires
                0 <= ma < 0x0020_0000_0000_0000,
                0 <= mb < 0x0020_0000_0000_0000,
        ;
        assert((ma * mb) * pow2((ja + jb) as nat) == a.magnitude() * b.magnitude())
            by (nonlinear_arith)
            requires
                a.magnitude() == ma * pow2(ja as nat),
                b.magnitude() == mb * pow2(jb as nat),
                pow2((ja + jb) as nat) == pow2(ja as nat) * pow2(jb as nat),
        ;
        lemma_nearest_double_scaled_shifts(ma * mb, (ja + jb) as nat, -1074);
    }
    let x: u128 = (ma as u128) * (mb as u128);
    let k: i64 = (ja + jb) as i64 - 1074;
    let r = nearest(x, k);
    proof {
        lemma_holds_encoded(r, nearest_double_scaled(x as int, k as int));
    }
    r.signed(negative)
}

} // verus!
