//! From a scalar to the nearest whole number, as an index.

use crate::scalar::EXPONENT_BIAS;
use crate::scalar::HIDDEN_BIT;
use crate::scalar::Scalar;
use crate::scalar::unit_one;
use vstd::arithmetic::div_mod::lemma_div_multiples_vanish_quotient;
use vstd::arithmetic::div_mod::lemma_fundamental_div_mod_converse;
use vstd::arithmetic::power2::lemma2_to64;
use vstd::arithmetic::power2::lemma2_to64_rest;
use vstd::arithmetic::power2::lemma_pow2_adds;
use vstd::arithmetic::power2::lemma_pow2_pos;
use vstd::arithmetic::power2::lemma_pow2_strictly_increases;
use vstd::arithmetic::power2::lemma_pow2_unfold;
use vstd::arithmetic::power2::pow2;
use vstd::bits::lemma_u64_shl_is_mul;
use vstd::bits::lemma_u64_shr_is_div;
use vstd::prelude::*;

verus! {

/// The whole number nearest to a finite scalar that is not negative, the
/// middle between two counting for the upper.
pub open spec fn nearest_whole(val: Scalar) -> int {
    (2 * val.magnitude() + unit_one()) / (2 * unit_one())
}

/// The index nearest to a scalar: the nearest whole number, held to the
/// range of `usize`. A negative scalar and a NaN have index 0, and
/// positive infinity the largest index.
pub open spec fn index_of(val: Scalar) -> int {
    if val.is_nan() || val.is_negative() {
        0
    } else if val.is_infinite() || nearest_whole(val) > usize::MAX {
        usize::MAX as int
    } else {
        nearest_whole(val)
    }
}

/// A value under one half is nearest to zero.
proof fn lemma_whole_of_little(val: Scalar)
    requires
        val.exponent_field() < EXPONENT_BIAS - 1,
    ensures
        nearest_whole(val) == 0,
{
    let e = val.exponent_field();
    let f = val.fraction_field() as int;
    let s = unit_one();
    lemma2_to64();
    lemma2_to64_rest();
    lemma_pow2_adds(53, 1020);
    lemma_pow2_unfold(1074);
    lemma_pow2_pos(1073);
    let half = pow2(1073) as int;
    assert(0 <= val.magnitude() < half) by {
        if e == 0 {
            lemma_pow2_strictly_increases(52, 1073);
        } else {
            let p = pow2((e - 1) as nat) as int;
            let q = pow2(1020) as int;
            if e - 1 < 1020 {
                lemma_pow2_strictly_increases((e - 1) as nat, 1020);
            }
            lemma_pow2_pos((e - 1) as nat);
            assert(0 <= (HIDDEN_BIT + f) * p < 0x0020_0000_0000_0000 * q) by (nonlinear_arith)
                requires
                    0 <= HIDDEN_BIT + f < 0x0020_0000_0000_0000,
                    0 < p <= q,
            ;
        }
    }
    let n = 2 * val.magnitude() + s;
    assert(n / (2 * s) == 0) by (nonlinear_arith)
        requires
            0 <= n < 2 * s,
    ;
}

/// A value of 2^52 or more is a whole number: its significand raised by
/// `up` places.
proof fn lemma_whole_of_large(val: Scalar, up: nat)
    requires
        val.exponent_field() >= 1075,
        up == val.exponent_field() - 1075,
    ensures
        nearest_whole(val) == (HIDDEN_BIT + val.fraction_field()) * pow2(up),
        up + 1074 == val.exponent_field() - 1,
{
    let m = (HIDDEN_BIT + val.fraction_field()) as int;
    let s = unit_one();
    let w = m * pow2(up);
    lemma_pow2_pos(up);
    lemma_pow2_pos(1074);
    lemma_pow2_adds(up, 1074);
    assert(val.magnitude() == w * s) by (nonlinear_arith)
        requires
            val.magnitude() == m * pow2(up + 1074),
            pow2(up + 1074) == pow2(up) * s,
            w == m * pow2(up),
    ;
    assert(w >= 0) by (nonlinear_arith)
        requires
            w == m * pow2(up),
            m >= 0,
            pow2(up) > 0,
    ;
    assert(2 * (w * s) + s == w * (2 * s) + s) by (nonlinear_arith);
    lemma_fundamental_div_mod_converse(2 * val.magnitude() + s, 2 * s, w, s);
}

/// The whole number nearest to a value from one half up to 2^52, worked
/// out on its significand: `shift` is the number of binary places that the
/// significand has.
proof fn lemma_whole_of_middling(val: Scalar, shift: nat)
    requires
        EXPONENT_BIAS - 1 <= val.exponent_field() < 1075,
        shift == 1075 - val.exponent_field(),
    ensures
        nearest_whole(val) == (2 * (HIDDEN_BIT + val.fraction_field()) + pow2(shift)) / (pow2(
            shift + 1,
        ) as int),
        1 <= shift <= 53,
{
    let e = val.exponent_field();
    let m = (HIDDEN_BIT + val.fraction_field()) as int;
    let p = pow2((e - 1) as nat) as int;
    let k = pow2(shift) as int;
    let s = unit_one();
    lemma_pow2_adds(shift, (e - 1) as nat);
    lemma_pow2_unfold(shift + 1);
    lemma_pow2_pos((e - 1) as nat);
    lemma_pow2_pos(shift);
    assert(s == k * p);
    lemma_div_multiples_vanish_quotient(p, 2 * m + k, 2 * k);
    assert(2 * (m * p) + k * p == p * (2 * m + k)) by (nonlinear_arith);
    assert(2 * (k * p) == p * (2 * k)) by (nonlinear_arith);
}

impl Scalar {
    /// The index nearest to the scalar: the nearest whole number, a tie
    /// going away from zero, held to the range of `usize`. A negative scalar
    /// and a NaN give 0, and positive infinity the largest index.
    pub fn round_to_index(self) -> (index: usize)
        ensures
            index == index_of(self),
    {
        if self.is_nan() || self.is_sign_negative() {
            return 0;
        }
        if self.is_infinite() {
            return usize::MAX;
        }
        let exponent = self.exponent();
        if exponent < EXPONENT_BIAS - 1 {
            proof {
                lemma_whole_of_little(self);
            }
            return 0;
        }
        let significand: u64 = HIDDEN_BIT + self.fraction();
        proof {
            lemma2_to64();
            lemma2_to64_rest();
        }
        if exponent >= 1075 + 12 {
            proof {
                let up = (exponent - 1075) as nat;
                lemma_whole_of_large(self, up);
                if up > 12 {
                    lemma_pow2_strictly_increases(12, up);
                }
                assert(significand * pow2(up) >= 0x0010_0000_0000_0000 * 0x1000)
                    by (nonlinear_arith)
                    requires
                        significand >= 0x0010_0000_0000_0000,
                        pow2(up) >= 0x1000,
                ;
            }
            return usize::MAX;
        }
        let whole: u64 = if exponent >= 1075 {
            let up: u64 = exponent - 1075;
            proof {
                lemma_whole_of_large(self, up as nat);
                if up < 11 {
                    lemma_pow2_strictly_increases(up as nat, 11);
                }
                lemma_pow2_pos(up as nat);
                assert(significand * pow2(up as nat) < 0x0020_0000_0000_0000 * 0x800)
                    by (nonlinear_arith)
                    requires
                        0 <= significand < 0x0020_0000_0000_0000,
                        0 < pow2(up as nat) <= 0x800,
                ;
                lemma_u64_shl_is_mul(significand, up);
            }
            significand << up
        } else {
            let shift: u64 = 1075 - exponent;
            proof {
                lemma_whole_of_middling(self, shift as nat);
                if shift < 53 {
                    lemma_pow2_strictly_increases(shift as nat, 53);
                }
                lemma_u64_shl_is_mul(1, shift);
                lemma_u64_shr_is_div(
                    (2 * significand + (1u64 << shift)) as u64,
                    (shift + 1) as u64,
                );
            }
            (2 * significand + (1u64 << shift)) >> (shift + 1)
        };
        if whole > usize::MAX as u64 {
            usize::MAX
        } else {
            whole as usize
        }
    }
}

} // verus!
