//! The order of scalars by value.

use crate::arith::encode::lemma_magnitude_is_double;
use crate::arith::encode::overflow_limit;
use crate::scalar::HIDDEN_BIT;
use crate::scalar::INFINITY_BITS;
use crate::scalar::Scalar;
use vstd::arithmetic::div_mod::lemma_fundamental_div_mod;
use vstd::arithmetic::div_mod::lemma_fundamental_div_mod_converse;
use vstd::arithmetic::div_mod::lemma_small_mod;
use vstd::arithmetic::power2::lemma2_to64;
use vstd::arithmetic::power2::lemma2_to64_rest;
use vstd::arithmetic::power2::lemma_pow2_adds;
use vstd::arithmetic::power2::lemma_pow2_pos;
use vstd::arithmetic::power2::lemma_pow2_strictly_increases;
use vstd::arithmetic::power2::lemma_pow2_unfold;
use vstd::arithmetic::power2::pow2;
use vstd::prelude::*;

verus! {

/// The value of a scalar that is not a NaN, in units of 2^-1074: that of a
/// finite scalar, and for the infinities the overflow limit with their
/// sign, which lies beyond every finite value.
pub open spec fn value_of(a: Scalar) -> int {
    if a.is_infinite() {
        if a.is_negative() {
            -overflow_limit()
        } else {
            overflow_limit()
        }
    } else {
        a.units()
    }
}

/// Whether `a` is below `b`. A NaN is neither below nor above anything, and
/// the two zeros are the same value.
pub open spec fn is_below(a: Scalar, b: Scalar) -> bool {
    !a.is_nan() && !b.is_nan() && value_of(a) < value_of(b)
}

/// Among the scalars without the sign bit that are not NaN, the larger bit
/// pattern is the larger value.
pub proof fn lemma_value_follows_bits(a: Scalar, b: Scalar)
    requires
        !a.is_nan(),
        !b.is_nan(),
        !a.is_negative(),
        !b.is_negative(),
    ensures
        a.bits < b.bits <==> value_of(a) < value_of(b),
        a.bits == b.bits <==> value_of(a) == value_of(b),
        0 <= value_of(a),
{
    lemma_value_steps(a, b);
    lemma_value_steps(b, a);
    lemma_value_steps(a, a);
}

proof fn lemma_value_steps(a: Scalar, b: Scalar)
    requires
        !a.is_nan(),
        !b.is_nan(),
        !a.is_negative(),
        !b.is_negative(),
    ensures
        a.bits < b.bits ==> value_of(a) < value_of(b),
        0 <= value_of(a),
{
    let ea = a.exponent_field();
    let eb = b.exponent_field();
    let fa = a.fraction_field() as int;
    let fb = b.fraction_field() as int;
    lemma2_to64();
    lemma_fields_of_positive(a);
    lemma_fields_of_positive(b);
    if a.is_finite() {
        lemma_magnitude_is_double(a);
    }
    if b.is_finite() {
        lemma_magnitude_is_double(b);
    }
    if a.bits < b.bits {
        assert(ea < eb || (ea == eb && fa < fb)) by (nonlinear_arith)
            requires
                a.bits == ea * 0x0010_0000_0000_0000 + fa,
                b.bits == eb * 0x0010_0000_0000_0000 + fb,
                0 <= fa < 0x0010_0000_0000_0000,
                0 <= fb < 0x0010_0000_0000_0000,
                a.bits < b.bits,
        ;
        if b.is_infinite() {
        } else if ea == eb {
            if ea > 0 {
                let p = pow2((ea - 1) as nat) as int;
                lemma_pow2_pos((ea - 1) as nat);
                assert((HIDDEN_BIT + fa) * p < (HIDDEN_BIT + fb) * p) by (nonlinear_arith)
                    requires
                        fa < fb,
                        p > 0,
                ;
            }
        } else {
            // a lower exponent field: a is below the first value of b's
            let q = pow2((eb - 1) as nat) as int;
            lemma_pow2_pos((eb - 1) as nat);
            assert((HIDDEN_BIT + fb) * q >= 0x0010_0000_0000_0000 * q) by (nonlinear_arith)
                requires
                    fb >= 0,
                    q > 0,
                    HIDDEN_BIT == 0x0010_0000_0000_0000,
            ;
            if ea == 0 {
                assert(0x0010_0000_0000_0000 * q >= 0x0010_0000_0000_0000) by (nonlinear_arith)
                    requires
                        q >= 1,
                ;
            } else {
                let p = pow2((ea - 1) as nat) as int;
                lemma_pow2_pos((ea - 1) as nat);
                lemma_pow2_unfold(ea as nat);
                if ea < eb - 1 {
                    lemma_pow2_strictly_increases(ea as nat, (eb - 1) as nat);
                }
                assert((HIDDEN_BIT + fa) * p < 0x0010_0000_0000_0000 * q) by (nonlinear_arith)
                    requires
                        fa < 0x0010_0000_0000_0000,
                        HIDDEN_BIT == 0x0010_0000_0000_0000,
                        p > 0,
                        2 * p <= q,
                ;
            }
        }
    }
}

/// A pattern without the sign bit is its exponent field times 2^52 plus its
/// fraction field.
proof fn lemma_fields_of_positive(a: Scalar)
    requires
        !a.is_negative(),
    ensures
        a.bits == a.exponent_field() * 0x0010_0000_0000_0000 + a.fraction_field(),
{
    let bits = a.bits;
    lemma_fundamental_div_mod(bits as int, HIDDEN_BIT as int);
    assert(bits / 0x0010_0000_0000_0000 < 0x800) by (bit_vector)
        requires
            bits < 0x8000_0000_0000_0000,
    ;
    lemma_small_mod((bits / HIDDEN_BIT) as nat, 0x800);
}

/// The step from a finite scalar to the next larger in absolute value, in
/// units of 2^-1074: one unit among the subnormals, and 2 to the exponent
/// field less one from there on.
pub open spec fn grain_of(a: Scalar) -> int {
    if a.exponent_field() == 0 {
        1
    } else {
        pow2((a.exponent_field() - 1) as nat) as int
    }
}

/// The pattern after that of a finite scalar without the sign bit is the
/// next value up: one grain more. After the largest finite scalar comes
/// infinity, whose value counts as the overflow limit.
pub proof fn lemma_next_scalar(a: Scalar)
    requires
        a.is_finite(),
        !a.is_negative(),
    ensures
        ({
            let next = Scalar { bits: (a.bits + 1) as u64 };
            &&& a.bits + 1 <= INFINITY_BITS
            &&& !next.is_negative()
            &&& !next.is_nan()
            &&& value_of(next) == value_of(a) + grain_of(a)
            &&& next.is_finite() ==> grain_of(next) >= grain_of(a)
        }),
{
    let e = a.exponent_field();
    let f = a.fraction_field() as int;
    let next = Scalar { bits: (a.bits + 1) as u64 };
    lemma2_to64();
    lemma_fields_of_positive(a);
    assert(a.bits + 1 <= INFINITY_BITS) by (nonlinear_arith)
        requires
            a.bits == e * 0x0010_0000_0000_0000 + f,
            e <= 0x7FE,
            f < 0x0010_0000_0000_0000,
            INFINITY_BITS == 0x7FF * 0x0010_0000_0000_0000,
    ;
    if f + 1 < HIDDEN_BIT {
        lemma_fundamental_div_mod_converse(
            next.bits as int,
            HIDDEN_BIT as int,
            e as int,
            f + 1,
        );
        lemma_small_mod(e, 0x800);
        if e > 0 {
            let p = pow2((e - 1) as nat) as int;
            assert((HIDDEN_BIT + (f + 1)) * p == (HIDDEN_BIT + f) * p + p) by (nonlinear_arith);
        }
    } else {
        lemma_fundamental_div_mod_converse(
            next.bits as int,
            HIDDEN_BIT as int,
            (e + 1) as int,
            0,
        );
        lemma_small_mod(e + 1, 0x800);
        lemma_pow2_unfold(e + 1);
        if e > 0 {
            lemma_pow2_unfold(e);
            let p = pow2((e - 1) as nat) as int;
            assert(0x0010_0000_0000_0000 * (2 * p) == (0x0010_0000_0000_0000
                + 0x000F_FFFF_FFFF_FFFF) * p + p) by (nonlinear_arith);
            if e + 1 == 0x7FF {
                lemma_pow2_adds(53, 2045);
                lemma2_to64_rest();
            }
        } else {
            assert(pow2(0) == 1);
        }
    }
}

/// Values close to each other are equal within tolerance: two scalars
/// without the sign bit, neither a NaN, whose values are at most two
/// grains of the smaller apart.
pub proof fn lemma_near_values_approx_eq(a: Scalar, b: Scalar)
    requires
        !a.is_negative(),
        !b.is_negative(),
        a.is_finite(),
        !b.is_nan(),
        value_of(a) <= value_of(b) <= value_of(a) + 2 * grain_of(a),
    ensures
        a.bits <= b.bits <= a.bits + 2,
        a.approx_eq_spec(b),
        b.approx_eq_spec(a),
{
    lemma_value_follows_bits(a, b);
    lemma_value_follows_bits(b, a);
    if b.bits > a.bits + 2 {
        let one = Scalar { bits: (a.bits + 1) as u64 };
        let two = Scalar { bits: (a.bits + 2) as u64 };
        let three = Scalar { bits: (a.bits + 3) as u64 };
        lemma_fields_of_positive(b);
        assert(b.bits <= INFINITY_BITS) by (nonlinear_arith)
            requires
                b.bits == b.exponent_field() * 0x0010_0000_0000_0000 + b.fraction_field(),
                b.exponent_field() <= 0x7FF,
                b.exponent_field() == 0x7FF ==> b.fraction_field() == 0,
                b.fraction_field() < 0x0010_0000_0000_0000,
                INFINITY_BITS == 0x7FF * 0x0010_0000_0000_0000,
        ;
        lemma_next_scalar(a);
        lemma_finite_below_infinity(one);
        lemma_next_scalar(one);
        lemma_finite_below_infinity(two);
        lemma_next_scalar(two);
        lemma_value_follows_bits(three, b);
        lemma_value_follows_bits(b, three);
        lemma_pow2_pos((a.exponent_field() - 1) as nat);
        assert(false);
    }
}

/// A pattern without the sign bit below that of infinity is a finite
/// scalar.
proof fn lemma_finite_below_infinity(a: Scalar)
    requires
        a.bits < INFINITY_BITS,
    ensures
        a.is_finite(),
        !a.is_negative(),
{
    let b = a.bits;
    assert(b < 0x7FF0_0000_0000_0000 ==> b / 0x0010_0000_0000_0000 % 0x800 < 0x7FF) by (bit_vector);
}

impl Scalar {
    /// Whether the scalar is below `other` in value. False where either
    /// side is a NaN.
    pub fn less_than(self, other: Scalar) -> (r: bool)
        ensures
            r == is_below(self, other),
    {
        if self.is_nan() || other.is_nan() {
            return false;
        }
        let a = self.abs();
        let b = other.abs();
        proof {
            let zero = Scalar { bits: 0 };
            assert(zero.exponent_field() == 0 && zero.fraction_field() == 0);
            lemma_value_follows_bits(a, b);
            lemma_value_follows_bits(b, a);
            lemma_value_follows_bits(a, zero);
            lemma_value_follows_bits(b, zero);
            assert(value_of(self) == if self.is_negative() {
                -value_of(a)
            } else {
                value_of(a)
            });
            assert(value_of(other) == if other.is_negative() {
                -value_of(b)
            } else {
                value_of(b)
            });
        }
        if self.is_sign_negative() {
            if other.is_sign_negative() {
                b.bits < a.bits
            } else {
                a.bits != 0 || b.bits != 0
            }
        } else {
            if other.is_sign_negative() {
                false
            } else {
                a.bits < b.bits
            }
        }
    }
}

} // verus!
