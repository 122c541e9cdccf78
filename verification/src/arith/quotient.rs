//! Division of scalars: the exact quotient, rounded once.

use crate::arith::encode::encoded;
use crate::arith::encode::lemma_finite_is_encoded;
use crate::arith::encode::lemma_holds_encoded;
use crate::arith::encode::lemma_magnitude_is_double;
use crate::arith::encode::nearest;
use crate::arith::encode::nearest_double_scaled;
use crate::arith::ratio::lemma_nearest_ratio_by_remainder;
use crate::arith::ratio::lemma_round_ratio_common_factor;
use crate::arith::ratio::nearest_double_ratio;
use crate::arith::rounding::lemma_excess_bits_is;
use crate::scalar::HIDDEN_BIT;
use crate::scalar::INFINITY_BITS;
use crate::scalar::lemma_with_sign_fields;
use crate::scalar::NAN_BITS;
use crate::scalar::ONE_BITS;
use crate::scalar::Scalar;
use crate::scalar::ZERO_BITS;
use vstd::arithmetic::div_mod::lemma_div_by_multiple;
use vstd::arithmetic::div_mod::lemma_div_is_ordered;
use vstd::arithmetic::div_mod::lemma_div_multiples_vanish_quotient;
use vstd::arithmetic::div_mod::lemma_fundamental_div_mod;
use vstd::arithmetic::div_mod::lemma_mod_bound;
use vstd::arithmetic::div_mod::lemma_mod_multiples_basic;
use vstd::arithmetic::div_mod::lemma_truncate_middle;
use vstd::arithmetic::power2::lemma2_to64;
use vstd::arithmetic::power2::lemma2_to64_rest;
use vstd::arithmetic::power2::lemma_pow2_adds;
use vstd::arithmetic::power2::lemma_pow2_pos;
use vstd::arithmetic::power2::lemma_pow2_strictly_increases;
use vstd::arithmetic::power2::lemma_pow2_unfold;
use vstd::arithmetic::power2::pow2;
use vstd::prelude::*;

verus! {

/// Binary places by which the dividend is raised before the whole division,
/// so that the quotient comes out longer than a significand.
pub const QUOTIENT_PLACES: u64 = 73;

/// `a` divided by `b`.
///
/// A NaN on either side, zero by zero, and infinity by infinity give the
/// NaN of `NAN_BITS`. Otherwise the sign is negative where the signs of the
/// two sides differ; an infinite dividend or a zero divisor gives infinity,
/// an infinite divisor or a zero dividend gives zero, and two finite
/// scalars other than zero give the double nearest to their exact quotient,
/// infinity where that is beyond the largest double.
pub open spec fn quotient_of(a: Scalar, b: Scalar) -> Scalar {
    let negative = a.is_negative() != b.is_negative();
    if a.is_nan() || b.is_nan() || (a.is_infinite() && b.is_infinite()) || (a.is_zero()
        && b.is_zero()) {
        Scalar { bits: NAN_BITS }
    } else if a.is_infinite() || b.is_zero() {
        (Scalar { bits: INFINITY_BITS }).with_sign(negative)
    } else if b.is_infinite() || a.is_zero() {
        (Scalar { bits: ZERO_BITS }).with_sign(negative)
    } else {
        encoded(nearest_double_ratio(a.magnitude() * pow2(1074), b.magnitude())).with_sign(
            negative,
        )
    }
}

/// Nothing divided by zero is finite: the quotient is an infinity, or a NaN
/// where the dividend is zero or a NaN itself.
pub proof fn lemma_quotient_by_zero(a: Scalar, zero: Scalar)
    requires
        zero.is_zero(),
    ensures
        !quotient_of(a, zero).is_finite(),
        quotient_of(a, zero).is_nan() <==> a.is_nan() || a.is_zero(),
{
    let negative = a.is_negative() != zero.is_negative();
    assert(0x7FF8_0000_0000_0000u64 / 0x0010_0000_0000_0000 % 0x800 == 0x7FF
        && 0x7FF8_0000_0000_0000u64 % 0x0010_0000_0000_0000 == 0x0008_0000_0000_0000)
        by (bit_vector);
    assert(0x7FF0_0000_0000_0000u64 / 0x0010_0000_0000_0000 % 0x800 == 0x7FF
        && 0x7FF0_0000_0000_0000u64 % 0x0010_0000_0000_0000 == 0) by (bit_vector);
    assert((Scalar { bits: NAN_BITS }).exponent_field() == 0x7FF);
    assert((Scalar { bits: NAN_BITS }).fraction_field() == 0x0008_0000_0000_0000);
    assert((Scalar { bits: INFINITY_BITS }).exponent_field() == 0x7FF);
    assert((Scalar { bits: INFINITY_BITS }).fraction_field() == 0);
    lemma_with_sign_fields(Scalar { bits: INFINITY_BITS }, negative);
}

/// A finite scalar other than zero, divided by its absolute value, gives
/// one with the sign of the scalar.
pub proof fn lemma_quotient_by_absolute(x: Scalar)
    requires
        x.is_finite(),
        !x.is_zero(),
    ensures
        quotient_of(x, x.absolute()) == (Scalar { bits: ONE_BITS }).with_sign(x.is_negative()),
{
    let a = x.magnitude();
    let s = pow2(1074) as int;
    let g = pow2(1022) as int;
    let one = Scalar { bits: ONE_BITS };
    lemma2_to64();
    lemma2_to64_rest();
    lemma_magnitude_is_double(x);
    lemma_with_sign_fields(x, false);
    assert(x.absolute() == x.with_sign(false));
    lemma_pow2_pos(1022);
    lemma_pow2_pos(1074);
    lemma_pow2_adds(52, 1022);
    lemma_pow2_adds(53, 1022);
    lemma_pow2_unfold(1075);
    // the whole quotient is one, in units
    assert(a * s == s * a) by (nonlinear_arith);
    lemma_div_by_multiple(s, a);
    lemma_excess_bits_is(s, 1022);
    // and the division by the grain leaves nothing
    lemma_div_multiples_vanish_quotient(a, s, g);
    assert(s == 0x0010_0000_0000_0000 * g);
    lemma_div_by_multiple(0x0010_0000_0000_0000, g);
    lemma_truncate_middle(s, a, g);
    lemma_mod_multiples_basic(0x0010_0000_0000_0000, g);
    assert(a * 0 == 0);
    assert(nearest_double_ratio(a * s, a) == s);
    // one is the scalar of that magnitude
    assert(0x3FF0_0000_0000_0000u64 / 0x0010_0000_0000_0000 % 0x800 == 0x3FF
        && 0x3FF0_0000_0000_0000u64 % 0x0010_0000_0000_0000 == 0) by (bit_vector);
    assert(one.magnitude() == s);
    lemma_finite_is_encoded(one);
}

/// The exact quotient of two magnitudes in the form in which the division
/// is carried out: the dividend's significand raised by `la` and by
/// `QUOTIENT_PLACES`, over the divisor's significand, times 2^k.
proof fn lemma_quotient_in_places(
    top: int,
    bottom: int,
    n0: int,
    ma: int,
    ja: nat,
    la: nat,
    mb: int,
    jb: nat,
    k: int,
)
    requires
        top == ma * pow2(ja + 1074),
        bottom == mb * pow2(jb),
        n0 == ma * pow2(la + 73),
        0 < ma,
        0 < mb,
        la <= 52,
        k == ja - jb - la + 1001,
    ensures
        n0 > 0,
        k >= 0 ==> nearest_double_ratio(top, bottom) == nearest_double_ratio(
            n0 * pow2(k as nat),
            mb,
        ),
        k < 0 ==> nearest_double_ratio(top, bottom) == nearest_double_ratio(
            n0,
            mb * pow2((-k) as nat),
        ),
{
    lemma_pow2_pos(la + 73);
    assert(n0 > 0) by (nonlinear_arith)
        requires
            n0 == ma * pow2(la + 73),
            ma > 0,
            pow2(la + 73) > 0,
    ;
    if k >= 0 {
        let c = pow2(jb) as int;
        let b = pow2(k as nat) as int;
        lemma_pow2_pos(jb);
        lemma_pow2_pos(k as nat);
        lemma_pow2_adds(la + 73, k as nat);
        lemma_pow2_adds((la + 73 + k) as nat, jb);
        assert((la + 73 + k + jb) as nat == ja + 1074);
        assert((n0 * b) * c == top) by (nonlinear_arith)
            requires
                n0 == ma * pow2(la + 73),
                top == ma * pow2(ja + 1074),
                pow2(ja + 1074) == pow2(la + 73) * b * c,
        ;
        assert(n0 * b >= 0) by (nonlinear_arith)
            requires
                n0 > 0,
                b > 0,
        ;
        lemma_round_ratio_common_factor(n0 * b, mb, c, 0);
    } else {
        let d = (-k) as nat;
        let e = (ja + 1001 - la) as nat;
        let c = pow2(e) as int;
        lemma_pow2_pos(e);
        lemma_pow2_pos(d);
        lemma_pow2_adds(la + 73, e);
        lemma_pow2_adds(d, e);
        assert(la + 73 + e == ja + 1074);
        assert(d + e == jb);
        assert(n0 * c == top) by (nonlinear_arith)
            requires
                n0 == ma * pow2(la + 73),
                top == ma * pow2(ja + 1074),
                pow2(ja + 1074) == pow2(la + 73) * c,
        ;
        assert((mb * pow2(d)) * c == bottom) by (nonlinear_arith)
            requires
                bottom == mb * pow2(jb),
                pow2(jb) == pow2(d) * c,
        ;
        assert(mb * pow2(d) > 0) by (nonlinear_arith)
            requires
                mb > 0,
                pow2(d) > 0,
        ;
        lemma_round_ratio_common_factor(n0, mb * pow2(d), c, 0);
    }
}

/// The quotient of two finite scalars, neither of them zero, without its
/// sign.
fn quotient_of_magnitudes(a: Scalar, b: Scalar) -> (r: Scalar)
    requires
        a.is_finite(),
        b.is_finite(),
        !a.is_zero(),
        !b.is_zero(),
    ensures
        r == encoded(nearest_double_ratio(a.magnitude() * pow2(1074), b.magnitude())),
{
    let (ma, ja) = a.parts();
    let (mb, jb) = b.parts();
    let mut m: u64 = ma;
    let mut la: u64 = 0;
    proof {
        lemma2_to64();
        lemma2_to64_rest();
        assert(ma * pow2(0) == ma) by (nonlinear_arith)
            requires
                pow2(0) == 1,
        ;
    }
    while m < HIDDEN_BIT
        invariant
            0 < m < 0x0020_0000_0000_0000,
            m == ma * pow2(la as nat),
            la <= 52,
            m >= pow2(la as nat),
        decreases 53 - la,
    {
        proof {
            lemma2_to64();
            lemma2_to64_rest();
            lemma_pow2_unfold((la + 1) as nat);
            if la >= 52 {
                assert(false);
            }
            assert(2 * (ma * pow2(la as nat)) == ma * (2 * pow2(la as nat))) by (nonlinear_arith);
        }
        m = 2 * m;
        la = la + 1;
    }
    let ghost top = a.magnitude() * pow2(1074);
    let ghost bottom = b.magnitude();
    proof {
        lemma2_to64();
        lemma2_to64_rest();
        lemma_pow2_adds(64, 64);
        lemma_pow2_adds(63, 63);
        lemma_pow2_adds(ja as nat, 1074);
        lemma_pow2_adds(la as nat, 73);
        lemma_pow2_adds(53, 73);
        lemma_pow2_adds(52, 73);
        lemma_pow2_adds(9, 64);
        lemma_pow2_adds(53, 72);
        lemma_pow2_pos(72);
        lemma_pow2_pos(73);
        lemma_pow2_strictly_increases(53, 72);
        assert(top == ma * pow2((ja + 1074) as nat)) by (nonlinear_arith)
            requires
                top == a.magnitude() * pow2(1074),
                a.magnitude() == ma * pow2(ja as nat),
                pow2((ja + 1074) as nat) == pow2(ja as nat) * pow2(1074),
        ;
        assert(m * pow2(73) == ma * pow2((la + 73) as nat)) by (nonlinear_arith)
            requires
                m == ma * pow2(la as nat),
                pow2((la + 73) as nat) == pow2(la as nat) * pow2(73),
        ;
        assert(0x0010_0000_0000_0000 * pow2(73) <= m * pow2(73) < 0x0020_0000_0000_0000 * pow2(73))
            by (nonlinear_arith)
            requires
                0x0010_0000_0000_0000 <= m < 0x0020_0000_0000_0000,
                pow2(73) > 0,
        ;
    }
    let raise: u128 = 0x0200_0000_0000_0000_0000;
    assert(raise == pow2(73));
    let n0: u128 = (m as u128) * raise;
    let q: u128 = n0 / (mb as u128);
    let rem: u128 = n0 % (mb as u128);
    let k: i64 = ja as i64 - jb as i64 - la as i64 + 1001;
    proof {
        lemma_quotient_in_places(
            top,
            bottom,
            n0 as int,
            ma as int,
            ja as nat,
            la as nat,
            mb as int,
            jb as nat,
            k as int,
        );
        // the quotient is longer than a significand, and x fits
        lemma_fundamental_div_mod(n0 as int, mb as int);
        lemma_mod_bound(n0 as int, mb as int);
        assert(pow2(72) * mb <= n0) by (nonlinear_arith)
            requires
                n0 >= pow2(52) * pow2(73),
                pow2(125) == pow2(52) * pow2(73),
                pow2(125) == 0x0020_0000_0000_0000 * pow2(72),
                0 < mb < 0x0020_0000_0000_0000,
                pow2(72) > 0,
        ;
        lemma_div_is_ordered(pow2(72) * mb, n0 as int, mb as int);
        lemma_div_by_multiple(pow2(72) as int, mb as int);
        assert(q >= pow2(72));
        assert(q <= n0) by (nonlinear_arith)
            requires
                n0 == mb * q + rem,
                mb >= 1,
                q >= 0,
                rem >= 0,
        ;
        lemma_nearest_ratio_by_remainder(n0 as int, mb as int, k as int);
    }
    let x: u128 = if rem != 0 {
        2 * q + 1
    } else {
        2 * q
    };
    let r = nearest(x, k - 1);
    proof {
        lemma_holds_encoded(r, nearest_double_scaled(x as int, k - 1));
    }
    r
}

/// `a` divided by `b`.
pub fn quotient(a: Scalar, b: Scalar) -> (r: Scalar)
    ensures
        r == quotient_of(a, b),
{
    let negative = a.is_sign_negative() != b.is_sign_negative();
    if a.is_nan() || b.is_nan() {
        return Scalar { bits: NAN_BITS };
    }
    if (a.is_infinite() && b.is_infinite()) || (a.is_zero() && b.is_zero()) {
        return Scalar { bits: NAN_BITS };
    }
    if a.is_infinite() || b.is_zero() {
        return (Scalar { bits: INFINITY_BITS }).signed(negative);
    }
    if b.is_infinite() || a.is_zero() {
        return (Scalar { bits: ZERO_BITS }).signed(negative);
    }
    quotient_of_magnitudes(a, b).signed(negative)
}

} // verus!
