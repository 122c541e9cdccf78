//! Addition and subtraction of scalars: the exact sum, rounded once.

use crate::arith::encode::encoded;
use crate::arith::encode::holds;
use crate::arith::encode::lemma_encoded_holds;
use crate::arith::encode::lemma_finite_is_encoded;
use crate::arith::encode::lemma_holds_encoded;
use crate::arith::encode::lemma_magnitude_is_double;
use crate::arith::encode::lemma_own_absolute;
use crate::arith::encode::nearest_raised;
use crate::arith::encode::overflow_limit;
use crate::arith::encode::power_of_two;
use crate::arith::rounding::lemma_excess_bits_is;
use crate::arith::rounding::nearest_double;
use crate::arith::rounding::round_half_even;
use crate::scalar::EXPONENT_SPECIAL;
use crate::scalar::HIDDEN_BIT;
use crate::scalar::lemma_negated_fields;
use crate::scalar::lemma_with_sign_fields;
use crate::scalar::lemma_zero_and_infinite_bits;
use crate::scalar::NAN_BITS;
use crate::scalar::Scalar;
use crate::scalar::ZERO_BITS;
use vstd::arithmetic::div_mod::lemma_fundamental_div_mod_converse;
use vstd::arithmetic::power2::lemma2_to64;
use vstd::arithmetic::power2::lemma2_to64_rest;
use vstd::arithmetic::power2::lemma_pow2_adds;
use vstd::arithmetic::power2::lemma_pow2_pos;
use vstd::arithmetic::power2::lemma_pow2_strictly_increases;
use vstd::arithmetic::power2::lemma_pow2_unfold;
use vstd::arithmetic::power2::pow2;
use vstd::prelude::*;

verus! {

/// The sum of `a` and `b`.
///
/// A NaN on either side, or two infinities of opposite sign, give the NaN
/// of `NAN_BITS`. An infinity otherwise gives itself. Two finite scalars
/// give the double nearest to their exact sum, infinity where that is
/// beyond the largest double; an exact sum of zero is positive zero, unless
/// both sides are negative.
pub open spec fn sum_of(a: Scalar, b: Scalar) -> Scalar {
    if a.is_nan() || b.is_nan() || (a.is_infinite() && b.is_infinite() && a.is_negative()
        != b.is_negative()) {
        Scalar { bits: NAN_BITS }
    } else if a.is_infinite() {
        a
    } else if b.is_infinite() {
        b
    } else {
        let n = a.units() + b.units();
        if n == 0 {
            (Scalar { bits: ZERO_BITS }).with_sign(a.is_negative() && b.is_negative())
        } else if n < 0 {
            encoded(nearest_double(-n)).with_sign(true)
        } else {
            encoded(nearest_double(n))
        }
    }
}

/// `a` minus `b`: the sum of `a` and the negation of `b`.
pub open spec fn difference_of(a: Scalar, b: Scalar) -> Scalar {
    sum_of(a, b.negated())
}

/// A double of full significand takes in what is under a quarter of its
/// last place, added or taken away: the sum rounds back to the double.
pub proof fn lemma_nearest_double_absorbs(q: int, t: nat, delta: int)
    requires
        HIDDEN_BIT <= q < 0x0020_0000_0000_0000,
        t >= 2,
        0 <= 4 * delta < pow2(t),
    ensures
        nearest_double(q * pow2(t) + delta) == q * pow2(t),
        nearest_double(q * pow2(t) - delta) == q * pow2(t),
{
    let g = pow2(t) as int;
    let big = q * g;
    lemma2_to64();
    lemma2_to64_rest();
    lemma_pow2_pos(t);
    lemma_pow2_adds(52, t);
    lemma_pow2_adds(53, t);
    lemma_pow2_unfold(t);
    lemma_pow2_unfold((t - 1) as nat);
    assert(0x0010_0000_0000_0000 * g <= big <= 0x001F_FFFF_FFFF_FFFF * g) by (nonlinear_arith)
        requires
            big == q * g,
            0x0010_0000_0000_0000 <= q <= 0x001F_FFFF_FFFF_FFFF,
            g > 0,
    ;
    // adding
    let up = big + delta;
    lemma_excess_bits_is(up, t);
    lemma_fundamental_div_mod_converse(up, g, q, delta);
    assert(round_half_even(up, t) == big);
    // taking away
    let down = big - delta;
    if delta == 0 {
    } else if q > HIDDEN_BIT {
        assert((q - 1) * g == big - g) by (nonlinear_arith)
            requires
                big == q * g,
        ;
        assert(big - g >= 0x0010_0000_0000_0000 * g) by (nonlinear_arith)
            requires
                big == q * g,
                q >= 0x0010_0000_0000_0001,
                g > 0,
        ;
        lemma_excess_bits_is(down, t);
        lemma_fundamental_div_mod_converse(down, g, q - 1, g - delta);
        assert(round_half_even(down, t) == (q - 1 + 1) * g);
    } else {
        let h = pow2((t - 1) as nat) as int;
        let u = (t - 1) as nat;
        lemma_pow2_pos(u);
        lemma_pow2_adds(52, u);
        lemma_pow2_adds(53, u);
        assert(big == 0x0020_0000_0000_0000 * h);
        lemma_excess_bits_is(down, u);
        assert(down == 0x001F_FFFF_FFFF_FFFF * h + (h - delta));
        lemma_fundamental_div_mod_converse(down, h, 0x001F_FFFF_FFFF_FFFF, h - delta);
        assert(0x001F_FFFF_FFFF_FFFFint % 2 == 1);
        assert(round_half_even(down, u) == (0x001F_FFFF_FFFF_FFFF + 1) * h);
    }
}

/// Whether the exact sum of two finite scalars is itself a double, so that
/// adding them rounds nothing away.
pub open spec fn sum_is_exact(a: Scalar, b: Scalar) -> bool {
    let n = a.units() + b.units();
    let size = if n < 0 {
        -n
    } else {
        n
    };
    a.is_finite() && b.is_finite() && size < overflow_limit() && nearest_double(size) == size
}

/// The sum does not depend on the order of its two sides.
pub proof fn lemma_sum_commutes(a: Scalar, b: Scalar)
    ensures
        sum_of(a, b) == sum_of(b, a),
{
    lemma_zero_and_infinite_bits(a);
    lemma_zero_and_infinite_bits(b);
}

/// An exact sum is the sum: where the exact sum of two finite scalars is a
/// double, their sum is finite and has that value.
pub proof fn lemma_sum_exact(a: Scalar, b: Scalar)
    requires
        sum_is_exact(a, b),
    ensures
        sum_of(a, b).is_finite(),
        sum_of(a, b).units() == a.units() + b.units(),
{
    let n = a.units() + b.units();
    lemma2_to64();
    if n == 0 {
        lemma_with_sign_fields(Scalar { bits: ZERO_BITS }, a.is_negative() && b.is_negative());
        assert((Scalar { bits: ZERO_BITS }).exponent_field() == 0);
        assert((Scalar { bits: ZERO_BITS }).fraction_field() == 0);
    } else if n < 0 {
        lemma_encoded_holds(-n);
        lemma_with_sign_fields(encoded(-n), true);
    } else {
        lemma_encoded_holds(n);
    }
}

/// Adding a zero to a finite scalar other than zero changes nothing.
pub proof fn lemma_sum_with_zero(a: Scalar, zero: Scalar)
    requires
        a.is_finite(),
        !a.is_zero(),
        zero.is_zero(),
    ensures
        sum_of(a, zero) == a,
        sum_of(zero, a) == a,
{
    lemma_magnitude_is_double(a);
    lemma_magnitude_is_double(zero);
    lemma_finite_is_encoded(a);
}

/// A normal scalar added to itself is the scalar with the next exponent
/// field and the same fraction: doubling is exact, short of overflow.
pub proof fn lemma_sum_with_itself(a: Scalar)
    requires
        0 < a.exponent_field(),
        a.exponent_field() + 1 < EXPONENT_SPECIAL,
    ensures
        sum_of(a, a).bits == a.bits + HIDDEN_BIT,
{
    let e = a.exponent_field();
    let f = a.fraction_field() as int;
    let m = HIDDEN_BIT + f;
    let p = pow2((e - 1) as nat) as int;
    let twice = Scalar { bits: (a.bits + HIDDEN_BIT) as u64 };
    let b = a.bits;
    let t = twice.bits;
    lemma2_to64();
    lemma2_to64_rest();
    lemma_pow2_pos((e - 1) as nat);
    lemma_pow2_unfold(e);
    assert(b / 0x0010_0000_0000_0000 % 0x800 + 1 < 0x7FF ==> b + 0x0010_0000_0000_0000
        <= 0xFFFF_FFFF_FFFF_FFFF) by (bit_vector);
    assert(t / 0x0010_0000_0000_0000 % 0x800 == b / 0x0010_0000_0000_0000 % 0x800 + 1 && t
        % 0x0010_0000_0000_0000 == b % 0x0010_0000_0000_0000 && (t >= 0x8000_0000_0000_0000) == (b
        >= 0x8000_0000_0000_0000)) by (bit_vector)
        requires
            t == b + 0x0010_0000_0000_0000,
            b / 0x0010_0000_0000_0000 % 0x800 + 1 < 0x7FF,
    ;
    assert(twice.magnitude() == 2 * a.magnitude()) by (nonlinear_arith)
        requires
            twice.magnitude() == m * pow2(e),
            a.magnitude() == m * p,
            pow2(e) == 2 * p,
    ;
    assert(a.magnitude() > 0) by (nonlinear_arith)
        requires
            a.magnitude() == m * p,
            m > 0,
            p > 0,
    ;
    lemma_magnitude_is_double(twice);
    lemma_finite_is_encoded(twice);
}

/// A finite scalar taken from itself leaves positive zero.
pub proof fn lemma_difference_with_itself(a: Scalar)
    requires
        a.is_finite(),
    ensures
        difference_of(a, a).bits == ZERO_BITS,
{
    lemma_negated_fields(a);
    assert((Scalar { bits: ZERO_BITS }).with_sign(false).bits == ZERO_BITS);
}

/// Where adding `b` to `a` rounds nothing away, taking `b` from the sum
/// gives `a` back: bit for bit, except that a zero may come back with the
/// other sign, which tolerance equality does not tell apart.
pub proof fn lemma_sum_then_difference(a: Scalar, b: Scalar)
    requires
        sum_is_exact(a, b),
    ensures
        difference_of(sum_of(a, b), b).approx_eq_spec(a),
        !a.is_zero() ==> difference_of(sum_of(a, b), b) == a,
{
    let s = sum_of(a, b);
    let back = difference_of(s, b);
    lemma_sum_exact(a, b);
    lemma_negated_fields(b);
    lemma_magnitude_is_double(a);
    assert(s.units() + b.negated().units() == a.units());
    if a.is_zero() {
        lemma_zero_and_infinite_bits(a);
        lemma_with_sign_fields(
            Scalar { bits: ZERO_BITS },
            s.is_negative() && b.negated().is_negative(),
        );
        lemma_zero_and_infinite_bits(back);
        assert((Scalar { bits: ZERO_BITS }).exponent_field() == 0);
        assert((Scalar { bits: ZERO_BITS }).fraction_field() == 0);
    } else {
        lemma_finite_is_encoded(a);
    }
}

/// The sum where one side is too small to be felt: under a quarter of the
/// last place of the other.
proof fn lemma_sum_absorbs(x: Scalar, y: Scalar, mx: int, jx: nat, my: int, jy: nat)
    requires
        x.is_finite(),
        y.is_finite(),
        x.magnitude() == mx * pow2(jx),
        y.magnitude() == my * pow2(jy),
        HIDDEN_BIT <= mx < 0x0020_0000_0000_0000,
        0 < my < 0x0020_0000_0000_0000,
        jx >= jy + 55,
    ensures
        sum_of(x, y) == x,
        sum_of(y, x) == x,
{
    let small = my * pow2(jy);
    lemma2_to64();
    lemma2_to64_rest();
    lemma_pow2_pos(jy);
    lemma_pow2_pos(jx);
    lemma_pow2_adds(53, jy);
    lemma_pow2_unfold(jx);
    lemma_pow2_unfold((jx - 1) as nat);
    if 53 + jy < jx - 2 {
        lemma_pow2_strictly_increases(53 + jy, (jx - 2) as nat);
    }
    assert(0 < small < 0x0020_0000_0000_0000 * pow2(jy)) by (nonlinear_arith)
        requires
            small == my * pow2(jy),
            0 < my < 0x0020_0000_0000_0000,
            pow2(jy) > 0,
    ;
    assert(0 < 4 * small < pow2(jx));
    lemma_nearest_double_absorbs(mx, jx, small);
    lemma_finite_is_encoded(x);
    assert(x.magnitude() > small) by (nonlinear_arith)
        requires
            x.magnitude() == mx * pow2(jx),
            mx >= 1,
            pow2(jx) > 4 * small,
            small > 0,
    ;
}

/// The sum of two finite scalars from the rounded sum or difference of
/// their magnitudes, both counted in the same unit.
proof fn lemma_sum_from_magnitudes(x: Scalar, y: Scalar, hi: int, lo: int, unit: int, r: Scalar)
    requires
        x.is_finite(),
        y.is_finite(),
        unit > 0,
        hi > 0,
        lo > 0,
        x.magnitude() == hi * unit,
        y.magnitude() == lo * unit,
        x.is_negative() == y.is_negative() ==> holds(r, nearest_double((hi + lo) * unit)),
        x.is_negative() != y.is_negative() && hi > lo ==> holds(
            r,
            nearest_double((hi - lo) * unit),
        ),
        x.is_negative() != y.is_negative() && hi < lo ==> holds(
            r,
            nearest_double((lo - hi) * unit),
        ),
    ensures
        x.is_negative() == y.is_negative() || hi > lo ==> sum_of(x, y) == r.with_sign(
            x.is_negative(),
        ) && sum_of(y, x) == r.with_sign(x.is_negative()),
        x.is_negative() != y.is_negative() && hi < lo ==> sum_of(x, y) == r.with_sign(
            y.is_negative(),
        ) && sum_of(y, x) == r.with_sign(y.is_negative()),
        x.is_negative() != y.is_negative() && hi == lo ==> sum_of(x, y) == (Scalar {
            bits: ZERO_BITS,
        }) && sum_of(y, x) == (Scalar { bits: ZERO_BITS }),
{
    assert((hi + lo) * unit == hi * unit + lo * unit) by (nonlinear_arith);
    assert((hi - lo) * unit == hi * unit - lo * unit) by (nonlinear_arith);
    assert((lo - hi) * unit == lo * unit - hi * unit) by (nonlinear_arith);
    assert(hi * unit > 0) by (nonlinear_arith)
        requires
            hi > 0,
            unit > 0,
    ;
    assert(lo * unit > 0) by (nonlinear_arith)
        requires
            lo > 0,
            unit > 0,
    ;
    assert(hi > lo ==> hi * unit > lo * unit) by (nonlinear_arith)
        requires
            unit > 0,
    ;
    assert(hi < lo ==> hi * unit < lo * unit) by (nonlinear_arith)
        requires
            unit > 0,
    ;
    if x.is_negative() == y.is_negative() {
        lemma_holds_encoded(r, nearest_double((hi + lo) * unit));
        lemma_own_absolute(r);
    } else if hi > lo {
        lemma_holds_encoded(r, nearest_double((hi - lo) * unit));
        lemma_own_absolute(r);
    } else if hi < lo {
        lemma_holds_encoded(r, nearest_double((lo - hi) * unit));
        lemma_own_absolute(r);
    }
}

/// The sum of two finite scalars, neither of them zero.
fn sum_of_finite(a: Scalar, b: Scalar) -> (r: Scalar)
    requires
        a.is_finite(),
        b.is_finite(),
        !a.is_zero(),
        !b.is_zero(),
    ensures
        r == sum_of(a, b),
{
    let pa = a.parts();
    let pb = b.parts();
    if pa.1 >= pb.1 {
        sum_in_order(a, pa.0, pa.1, b, pb.0, pb.1)
    } else {
        sum_in_order(b, pb.0, pb.1, a, pa.0, pa.1)
    }
}

/// The sum of two finite scalars, neither of them zero, the one with the
/// higher place first.
fn sum_in_order(x: Scalar, mx: u64, jx: u64, y: Scalar, my: u64, jy: u64) -> (r: Scalar)
    requires
        x.is_finite(),
        y.is_finite(),
        0 < mx < 0x0020_0000_0000_0000,
        0 < my < 0x0020_0000_0000_0000,
        mx >= HIDDEN_BIT || jx == 0,
        jy <= jx <= 2045,
        x.magnitude() == mx * pow2(jx as nat),
        y.magnitude() == my * pow2(jy as nat),
    ensures
        r == sum_of(x, y),
        r == sum_of(y, x),
{
    let nx = x.is_sign_negative();
    let ny = y.is_sign_negative();
    let d: u64 = jx - jy;
    if d >= 55 {
        proof {
            lemma_sum_absorbs(x, y, mx as int, jx as nat, my as int, jy as nat);
        }
        return x;
    }
    let scale = power_of_two(d as u32);
    let ghost unit = pow2(jy as nat) as int;
    proof {
        lemma2_to64();
        lemma2_to64_rest();
        lemma_pow2_pos(jy as nat);
        if d < 54 {
            lemma_pow2_strictly_increases(d as nat, 54);
        }
        lemma_pow2_adds(64, 64);
        lemma_pow2_adds(d as nat, jy as nat);
        assert(0 < mx * scale < 0x0020_0000_0000_0000 * 0x0040_0000_0000_0000)
            by (nonlinear_arith)
            requires
                0 < mx < 0x0020_0000_0000_0000,
                0 < scale <= 0x0040_0000_0000_0000,
        ;
        assert((mx * scale) * unit == x.magnitude()) by (nonlinear_arith)
            requires
                x.magnitude() == mx * pow2(jx as nat),
                pow2(jx as nat) == scale * unit,
        ;
    }
    let hi: u128 = (mx as u128) * scale;
    let lo: u128 = my as u128;
    if nx == ny {
        let r = nearest_raised(hi + lo, jy);
        proof {
            lemma_sum_from_magnitudes(x, y, hi as int, lo as int, unit, r);
        }
        r.signed(nx)
    } else if hi == lo {
        let r = Scalar::from_fields(0, 0);
        proof {
            lemma_sum_from_magnitudes(x, y, hi as int, lo as int, unit, r);
        }
        r
    } else if hi > lo {
        let r = nearest_raised(hi - lo, jy);
        proof {
            lemma_sum_from_magnitudes(x, y, hi as int, lo as int, unit, r);
        }
        r.signed(nx)
    } else {
        let r = nearest_raised(lo - hi, jy);
        proof {
            lemma_sum_from_magnitudes(x, y, hi as int, lo as int, unit, r);
        }
        r.signed(ny)
    }
}

/// The sum of two scalars.
pub fn sum(a: Scalar, b: Scalar) -> (r: Scalar)
    ensures
        r == sum_of(a, b),
{
    if a.is_nan() || b.is_nan() {
        return Scalar { bits: NAN_BITS };
    }
    if a.is_infinite() {
        if b.is_infinite() && a.is_sign_negative() != b.is_sign_negative() {
            return Scalar { bits: NAN_BITS };
        }
        return a;
    }
    if b.is_infinite() {
        return b;
    }
    proof {
        lemma_magnitude_is_double(a);
        lemma_magnitude_is_double(b);
    }
    if a.is_zero() && b.is_zero() {
        return (Scalar { bits: ZERO_BITS }).signed(a.is_sign_negative() && b.is_sign_negative());
    }
    if b.is_zero() {
        proof {
            lemma_finite_is_encoded(a);
        }
        return a;
    }
    if a.is_zero() {
        proof {
            lemma_finite_is_encoded(b);
        }
        return b;
    }
    sum_of_finite(a, b)
}

/// `a` minus `b`.
pub fn difference(a: Scalar, b: Scalar) -> (r: Scalar)
    ensures
        r == difference_of(a, b),
{
    sum(a, b.negate())
}

} // verus!
