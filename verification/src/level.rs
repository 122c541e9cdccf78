//! The level 0..=255 at which a channel value is written to an image: the
//! value clamped to [0, 1], multiplied by 255 and rounded to a whole number.

use crate::arith::encode::encoded;
use crate::arith::encode::lemma_encoded_holds;
use crate::arith::encode::lemma_magnitude_is_double;
use crate::arith::encode::lemma_nearest_double_scaled_shifts;
use crate::arith::encode::nearest_double_scaled;
use crate::arith::encode::overflow_limit;
use crate::arith::order::is_below;
use crate::arith::order::value_of;
use crate::arith::product::lemma_product_with_zero;
use crate::arith::product::product;
use crate::arith::product::product_of;
use crate::arith::rounding::lemma_nearest_double_exact;
use crate::arith::rounding::lemma_nearest_double_idempotent;
use crate::arith::rounding::lemma_nearest_double_is_nearest;
use crate::arith::rounding::lemma_nearest_double_scales;
use crate::arith::rounding::nearest_double;
use crate::arith::whole::index_of;
use crate::scalar::lemma_with_sign_fields;
use crate::scalar::ONE_BITS;
use crate::scalar::Scalar;
use crate::scalar::unit_one;
use crate::scalar::ZERO_BITS;
use vstd::arithmetic::div_mod::lemma_fundamental_div_mod_converse;
use vstd::arithmetic::power2::lemma2_to64;
use vstd::arithmetic::power2::lemma2_to64_rest;
use vstd::arithmetic::power2::lemma_pow2_adds;
use vstd::arithmetic::power2::lemma_pow2_pos;
use vstd::arithmetic::power2::lemma_pow2_strictly_increases;
use vstd::arithmetic::power2::pow2;
use vstd::prelude::*;

verus! {

/// Highest level of a channel in the encoded image.
pub const MAX_LEVEL: i32 = 255;

/// Bit pattern of 255, by which a channel is multiplied.
pub const LEVELS_BITS: u64 = 0x406F_E000_0000_0000;

/// A channel value clamped to [0, 1]: zero for a value below zero, one for
/// a value above one, and the value itself otherwise. A NaN stays a NaN.
pub open spec fn clamped_to_unit(val: Scalar) -> Scalar {
    if val.is_nan() {
        val
    } else if is_below(val, Scalar { bits: ZERO_BITS }) {
        Scalar { bits: ZERO_BITS }
    } else if is_below(Scalar { bits: ONE_BITS }, val) {
        Scalar { bits: ONE_BITS }
    } else {
        val
    }
}

/// The level of a channel value: the value clamped to [0, 1], multiplied by
/// 255, and rounded to the nearest whole number, a tie going away from
/// zero. The product is the product of doubles, itself rounded to a double.
/// A NaN has level 0.
pub open spec fn channel_level(val: Scalar) -> int {
    index_of(product_of(clamped_to_unit(val), Scalar { bits: LEVELS_BITS }))
}

/// The magnitudes of zero, one and 255.
proof fn lemma_level_constants()
    ensures
        (Scalar { bits: ZERO_BITS }).is_zero(),
        !(Scalar { bits: ZERO_BITS }).is_negative(),
        (Scalar { bits: ONE_BITS }).is_finite(),
        !(Scalar { bits: ONE_BITS }).is_negative(),
        (Scalar { bits: ONE_BITS }).magnitude() == unit_one(),
        (Scalar { bits: LEVELS_BITS }).is_finite(),
        !(Scalar { bits: LEVELS_BITS }).is_negative(),
        (Scalar { bits: LEVELS_BITS }).magnitude() == MAX_LEVEL * unit_one(),
        0 < unit_one() < overflow_limit(),
{
    let levels = Scalar { bits: LEVELS_BITS };
    let one = Scalar { bits: ONE_BITS };
    lemma2_to64();
    lemma2_to64_rest();
    assert(0x406F_E000_0000_0000u64 / 0x0010_0000_0000_0000 % 0x800 == 0x406
        && 0x406F_E000_0000_0000u64 % 0x0010_0000_0000_0000 == 0x000F_E000_0000_0000)
        by (bit_vector);
    assert(0x3FF0_0000_0000_0000u64 / 0x0010_0000_0000_0000 % 0x800 == 0x3FF
        && 0x3FF0_0000_0000_0000u64 % 0x0010_0000_0000_0000 == 0) by (bit_vector);
    assert(levels.exponent_field() == 0x406);
    assert(levels.fraction_field() == 0x000F_E000_0000_0000);
    assert(one.exponent_field() == 0x3FF);
    assert(one.fraction_field() == 0);
    lemma_pow2_adds(45, 1029);
    lemma_pow2_adds(52, 1022);
    lemma_pow2_pos(1074);
    lemma_pow2_strictly_increases(1074, 2098);
    assert(levels.magnitude() == MAX_LEVEL * pow2(1074)) by (nonlinear_arith)
        requires
            levels.magnitude() == (0x0010_0000_0000_0000 + 0x000F_E000_0000_0000) * pow2(1029),
            pow2(1074) == 0x2000_0000_0000 * pow2(1029),
            MAX_LEVEL == 255,
    ;
}

/// The product behind the level of a value from zero up to one: it is
/// finite and not negative, and its magnitude is the double nearest to 255
/// times the magnitude of the value, which is at most 255.
pub proof fn lemma_level_product(val: Scalar)
    requires
        val.is_finite(),
        !val.is_negative(),
        val.magnitude() <= unit_one(),
    ensures
        product_of(val, Scalar { bits: LEVELS_BITS }).is_finite(),
        !product_of(val, Scalar { bits: LEVELS_BITS }).is_negative(),
        product_of(val, Scalar { bits: LEVELS_BITS }).magnitude() == nearest_double(
            MAX_LEVEL * val.magnitude(),
        ),
        0 <= nearest_double(MAX_LEVEL * val.magnitude()) <= MAX_LEVEL * unit_one(),
{
    let levels = Scalar { bits: LEVELS_BITS };
    let m = val.magnitude();
    let s = unit_one();
    lemma_level_constants();
    lemma_magnitude_is_double(val);
    let n = MAX_LEVEL * m;
    assert(m * levels.magnitude() == n * pow2(1074)) by (nonlinear_arith)
        requires
            levels.magnitude() == MAX_LEVEL * pow2(1074),
            n == MAX_LEVEL * m,
    ;
    assert(0 <= n <= MAX_LEVEL * s) by (nonlinear_arith)
        requires
            n == MAX_LEVEL * m,
            0 <= m <= s,
            MAX_LEVEL == 255,
    ;
    lemma_nearest_double_scaled_shifts(n, 1074, -1074);
    lemma2_to64();
    assert(n * pow2(0) == n) by (nonlinear_arith)
        requires
            pow2(0) == 1,
    ;
    let rounded = nearest_double(n);
    assert(nearest_double_scaled(m * levels.magnitude(), -1074) == rounded);
    lemma_nearest_double_idempotent(n);
    // 255 is a double, so the rounded product is not above it
    let top = MAX_LEVEL * s;
    lemma_nearest_double_exact(255);
    lemma_nearest_double_scales(255, 1074);
    assert(top == 255 * pow2(1074));
    lemma_nearest_double_is_nearest(n, top);
    assert(rounded <= top);
    lemma2_to64_rest();
    lemma_pow2_adds(8, 1074);
    lemma_pow2_strictly_increases(1082, 2098);
    assert(top < 256 * pow2(1074));
    assert(rounded < overflow_limit());
    lemma_encoded_holds(rounded);
    lemma_with_sign_fields(encoded(rounded), false);
}

/// Every level lies from 0 up to 255.
pub proof fn lemma_level_range(val: Scalar)
    ensures
        0 <= channel_level(val) <= MAX_LEVEL,
{
    let levels = Scalar { bits: LEVELS_BITS };
    let c = clamped_to_unit(val);
    let p = product_of(c, levels);
    let s = unit_one();
    lemma_level_constants();
    if c.is_nan() {
        assert(0x7FF8_0000_0000_0000u64 / 0x0010_0000_0000_0000 % 0x800 == 0x7FF
            && 0x7FF8_0000_0000_0000u64 % 0x0010_0000_0000_0000 == 0x0008_0000_0000_0000)
            by (bit_vector);
        assert(p.exponent_field() == 0x7FF && p.fraction_field() == 0x0008_0000_0000_0000);
    } else if c.is_negative() {
        // only negative zero is left between zero and one
        assert(value_of(c) >= 0);
        lemma_magnitude_is_double(c);
        lemma_product_with_zero(c, levels);
        lemma_with_sign_fields(Scalar { bits: ZERO_BITS }, true);
    } else {
        assert(value_of(c) <= s);
        lemma_level_product(c);
        let r = p.magnitude();
        let n = 2 * r + s;
        assert(0 <= n / (2 * s) <= 255) by (nonlinear_arith)
            requires
                n == 2 * r + s,
                0 <= r <= 255 * s,
                s > 0,
        ;
    }
}

/// A value below zero, and a NaN, have level 0.
pub proof fn lemma_level_of_negative_or_nan(val: Scalar)
    requires
        val.is_nan() || val.is_negative(),
    ensures
        channel_level(val) == 0,
{
    let levels = Scalar { bits: LEVELS_BITS };
    let c = clamped_to_unit(val);
    let p = product_of(c, levels);
    lemma_level_constants();
    if val.is_nan() {
        assert(0x7FF8_0000_0000_0000u64 / 0x0010_0000_0000_0000 % 0x800 == 0x7FF
            && 0x7FF8_0000_0000_0000u64 % 0x0010_0000_0000_0000 == 0x0008_0000_0000_0000)
            by (bit_vector);
        assert(p.exponent_field() == 0x7FF && p.fraction_field() == 0x0008_0000_0000_0000);
    } else {
        if val.is_finite() {
            lemma_magnitude_is_double(val);
        }
        assert(c.is_zero());
        lemma_product_with_zero(c, levels);
        lemma_with_sign_fields(Scalar { bits: ZERO_BITS }, c.is_negative());
        let n = unit_one();
        assert(n / (2 * n) == 0) by (nonlinear_arith)
            requires
                n > 0,
        ;
    }
}

/// A value of one or more, infinity too, has the highest level.
pub proof fn lemma_level_of_one_or_more(val: Scalar)
    requires
        !val.is_nan(),
        !is_below(val, Scalar { bits: ONE_BITS }),
    ensures
        channel_level(val) == MAX_LEVEL,
{
    let one = Scalar { bits: ONE_BITS };
    let s = unit_one();
    lemma_level_constants();
    assert(clamped_to_unit(val).is_finite());
    assert(clamped_to_unit(val).magnitude() == s) by {
        if val.is_finite() {
            lemma_magnitude_is_double(val);
        }
    }
    lemma_level_product(clamped_to_unit(val));
    lemma_nearest_double_exact(255);
    lemma_nearest_double_scales(255, 1074);
    let r = MAX_LEVEL * s;
    assert(r == 255 * pow2(1074)) by (nonlinear_arith)
        requires
            r == MAX_LEVEL * s,
            s == pow2(1074),
            MAX_LEVEL == 255,
    ;
    assert(2 * r + s == 255 * (2 * s) + s);
    lemma_fundamental_div_mod_converse(2 * r + s, 2 * s, 255, s);
}

/// The value clamped to [0, 1].
pub fn clamp_to_unit(val: Scalar) -> (r: Scalar)
    ensures
        r == clamped_to_unit(val),
{
    if val.is_nan() {
        val
    } else if val.less_than(Scalar { bits: ZERO_BITS }) {
        Scalar { bits: ZERO_BITS }
    } else if (Scalar { bits: ONE_BITS }).less_than(val) {
        Scalar { bits: ONE_BITS }
    } else {
        val
    }
}

/// The level 0..=255 at which a channel value is written to an image: the
/// value is clamped to [0, 1], multiplied by 255 and rounded to the nearest
/// whole number, a tie going away from zero. A NaN has level 0.
pub fn to_rgb(val: Scalar) -> (level: i32)
    ensures
        level == channel_level(val),
        0 <= level <= MAX_LEVEL,
{
    let product = product(clamp_to_unit(val), Scalar { bits: LEVELS_BITS });
    let index = product.round_to_index();
    proof {
        lemma_level_range(val);
    }
    index as i32
}

} // verus!
