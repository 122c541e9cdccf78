//! Double-precision scalars, held as IEEE 754 binary64 bit patterns. What
//! is read from a scalar here, and what is done to it, is integer work on
//! the 64 bits.

use vstd::arithmetic::div_mod::lemma_fundamental_div_mod_converse;
use vstd::arithmetic::div_mod::lemma_small_mod;
use vstd::arithmetic::power2::lemma2_to64;
use vstd::arithmetic::power2::pow2;
use vstd::prelude::*;

verus! {

/// Mask of the sign bit.
pub const SIGN_MASK: u64 = 0x8000_0000_0000_0000;

/// Mask of the 52 fraction bits.
pub const FRACTION_MASK: u64 = 0x000F_FFFF_FFFF_FFFF;

/// The leading significand bit that a normal number carries above its
/// fraction: 2^52.
pub const HIDDEN_BIT: u64 = 0x0010_0000_0000_0000;

/// Exponent field of the infinities and the NaNs.
pub const EXPONENT_SPECIAL: u64 = 0x7FF;

/// Exponent field of the numbers in [1, 2).
pub const EXPONENT_BIAS: u64 = 0x3FF;

/// Bit pattern of positive zero.
pub const ZERO_BITS: u64 = 0;

/// Bit pattern of one.
pub const ONE_BITS: u64 = 0x3FF0_0000_0000_0000;

/// Bit pattern of positive infinity.
pub const INFINITY_BITS: u64 = 0x7FF0_0000_0000_0000;

/// Bit pattern of the NaN that arithmetic gives where no number is the
/// answer.
pub const NAN_BITS: u64 = 0x7FF8_0000_0000_0000;

/// Two scalars at most this many representable values apart count as equal.
pub const ULP_MARGIN: u64 = 2;

/// A double-precision number, kept as its bit pattern.
#[derive(Clone, Copy, Debug)]
pub struct Scalar {
    pub bits: u64,
}

/// Place of a bit pattern in the order of the numbers: patterns with the sign
/// bit set come first, largest magnitude lowest, then those without it.
pub open spec fn ordinal(bits: u64) -> int {
    if bits >= SIGN_MASK {
        u64::MAX - bits
    } else {
        bits + SIGN_MASK
    }
}

/// Number of steps between two patterns, counted the shorter way round the
/// ring of all 2^64 ordinals. Equal patterns are 0 apart, the two zeros 1.
pub open spec fn ulp_distance(a: u64, b: u64) -> int {
    let d = if ordinal(a) >= ordinal(b) {
        ordinal(a) - ordinal(b)
    } else {
        ordinal(b) - ordinal(a)
    };
    if d <= SIGN_MASK {
        d
    } else {
        u64::MAX + 1 - d
    }
}

/// The number one, counted in the unit of `Scalar::magnitude`.
pub open spec fn unit_one() -> int {
    pow2(1074) as int
}

impl Scalar {
    /// Whether the sign bit is set.
    pub open spec fn is_negative(self) -> bool {
        self.bits >= SIGN_MASK
    }

    /// The eleven exponent bits.
    pub open spec fn exponent_field(self) -> nat {
        ((self.bits / HIDDEN_BIT) % 0x800) as nat
    }

    /// The 52 fraction bits.
    pub open spec fn fraction_field(self) -> nat {
        (self.bits % HIDDEN_BIT) as nat
    }

    /// Whether the pattern stands for no number.
    pub open spec fn is_nan_spec(self) -> bool {
        self.exponent_field() == EXPONENT_SPECIAL && self.fraction_field() != 0
    }

    /// Whether the scalar is one of the two infinities.
    pub open spec fn is_infinite_spec(self) -> bool {
        self.exponent_field() == EXPONENT_SPECIAL && self.fraction_field() == 0
    }

    /// Whether the scalar is a number other than the infinities.
    pub open spec fn is_finite_spec(self) -> bool {
        self.exponent_field() < EXPONENT_SPECIAL
    }

    /// Whether the scalar is one of the two zeros.
    pub open spec fn is_zero_spec(self) -> bool {
        self.exponent_field() == 0 && self.fraction_field() == 0
    }

    /// The absolute value of a finite scalar, counted in units of 2^-1074,
    /// the smallest positive double. Every finite double is a whole number
    /// of these.
    pub open spec fn magnitude(self) -> int {
        if self.exponent_field() == 0 {
            self.fraction_field() as int
        } else {
            (HIDDEN_BIT + self.fraction_field()) * pow2((self.exponent_field() - 1) as nat)
        }
    }

    /// The value of a finite scalar in units of 2^-1074, with its sign.
    pub open spec fn units(self) -> int {
        if self.is_negative() {
            -self.magnitude()
        } else {
            self.magnitude()
        }
    }

    /// The scalar with the sign bit cleared.
    pub open spec fn absolute(self) -> Scalar {
        Scalar { bits: (self.bits % SIGN_MASK) as u64 }
    }

    /// The same number with the opposite sign: only the sign bit changes.
    pub open spec fn negated(self) -> Scalar {
        Scalar {
            bits: if self.bits >= SIGN_MASK {
                (self.bits - SIGN_MASK) as u64
            } else {
                (self.bits + SIGN_MASK) as u64
            },
        }
    }

    /// The scalar with the sign bit set or cleared as asked.
    pub open spec fn with_sign(self, negative: bool) -> Scalar {
        if negative {
            self.absolute().negated()
        } else {
            self.absolute()
        }
    }

    /// Tolerance equality: the two patterns are at most `ULP_MARGIN`
    /// representable values apart. Equal numbers are, and so are the two
    /// zeros.
    pub open spec fn approx_eq_spec(self, other: Scalar) -> bool {
        ulp_distance(self.bits, other.bits) <= ULP_MARGIN
    }

    /// The scalar with the given bit pattern.
    pub fn from_bits(bits: u64) -> (r: Scalar)
        ensures
            r.bits == bits,
    {
        Scalar { bits }
    }

    /// The bit pattern of the scalar.
    pub fn to_bits(self) -> (r: u64)
        ensures
            r == self.bits,
    {
        self.bits
    }

    /// The non-negative scalar with the given exponent and fraction fields.
    pub fn from_fields(exponent: u64, fraction: u64) -> (r: Scalar)
        requires
            exponent <= EXPONENT_SPECIAL,
            fraction < HIDDEN_BIT,
        ensures
            !r.is_negative(),
            r.exponent_field() == exponent,
            r.fraction_field() == fraction,
            r.bits == exponent * HIDDEN_BIT + fraction,
    {
        let bits = exponent * HIDDEN_BIT + fraction;
        proof {
            lemma_fundamental_div_mod_converse(
                bits as int,
                HIDDEN_BIT as int,
                exponent as int,
                fraction as int,
            );
            lemma_small_mod(exponent as nat, 0x800);
        }
        Scalar { bits }
    }

    /// The exponent field.
    pub fn exponent(self) -> (e: u64)
        ensures
            e == self.exponent_field(),
            e <= EXPONENT_SPECIAL,
    {
        let bits = self.bits;
        assert((bits >> 52) & 0x7FF == (bits / 0x0010_0000_0000_0000) % 0x800) by (bit_vector);
        (bits >> 52) & EXPONENT_SPECIAL
    }

    /// The fraction field.
    pub fn fraction(self) -> (f: u64)
        ensures
            f == self.fraction_field(),
            f < HIDDEN_BIT,
    {
        let bits = self.bits;
        assert(bits & 0x000F_FFFF_FFFF_FFFF == bits % 0x0010_0000_0000_0000) by (bit_vector);
        bits & FRACTION_MASK
    }

    /// Whether the sign bit is set: true of negative zero and of a NaN with
    /// the bit set, too.
    #[verifier::when_used_as_spec(is_negative)]
    pub fn is_sign_negative(self) -> (r: bool)
        ensures
            r == self.is_negative(),
    {
        self.bits >= SIGN_MASK
    }

    /// Whether the pattern stands for no number.
    #[verifier::when_used_as_spec(is_nan_spec)]
    pub fn is_nan(self) -> (r: bool)
        ensures
            r == self.is_nan_spec(),
    {
        self.exponent() == EXPONENT_SPECIAL && self.fraction() != 0
    }

    /// Whether the scalar is one of the two infinities.
    #[verifier::when_used_as_spec(is_infinite_spec)]
    pub fn is_infinite(self) -> (r: bool)
        ensures
            r == self.is_infinite_spec(),
    {
        self.exponent() == EXPONENT_SPECIAL && self.fraction() == 0
    }

    /// Whether the scalar is a number other than the infinities.
    #[verifier::when_used_as_spec(is_finite_spec)]
    pub fn is_finite(self) -> (r: bool)
        ensures
            r == self.is_finite_spec(),
    {
        self.exponent() < EXPONENT_SPECIAL
    }

    /// Whether the scalar is one of the two zeros.
    #[verifier::when_used_as_spec(is_zero_spec)]
    pub fn is_zero(self) -> (r: bool)
        ensures
            r == self.is_zero_spec(),
    {
        self.exponent() == 0 && self.fraction() == 0
    }

    /// Significand and place of a finite scalar: its magnitude is the
    /// significand times 2 to the place, in units of 2^-1074.
    pub fn parts(self) -> (r: (u64, u64))
        requires
            self.is_finite(),
        ensures
            r.0 * pow2(r.1 as nat) == self.magnitude(),
            r.0 < 0x0020_0000_0000_0000,
            r.1 <= 2045,
            r.0 >= HIDDEN_BIT || r.1 == 0,
            (r.0 == 0) == self.is_zero(),
    {
        let e = self.exponent();
        let f = self.fraction();
        proof {
            lemma2_to64();
            assert(f * pow2(0) == f) by (nonlinear_arith)
                requires
                    pow2(0) == 1,
            ;
        }
        if e == 0 {
            (f, 0)
        } else {
            (HIDDEN_BIT + f, e - 1)
        }
    }

    /// The scalar with the sign bit cleared.
    pub fn abs(self) -> (r: Scalar)
        ensures
            r == self.absolute(),
            !r.is_negative(),
            r.exponent_field() == self.exponent_field(),
            r.fraction_field() == self.fraction_field(),
            r.magnitude() == self.magnitude(),
    {
        let bits = self.bits;
        assert(bits & 0x7FFF_FFFF_FFFF_FFFF == bits % 0x8000_0000_0000_0000) by (bit_vector);
        let n = bits & 0x7FFF_FFFF_FFFF_FFFF;
        assert(n / 0x0010_0000_0000_0000 % 0x800 == bits / 0x0010_0000_0000_0000 % 0x800 && n
            % 0x0010_0000_0000_0000 == bits % 0x0010_0000_0000_0000) by (bit_vector)
            requires
                n == bits & 0x7FFF_FFFF_FFFF_FFFF,
        ;
        Scalar { bits: n }
    }

    /// The same number with the opposite sign.
    pub fn negate(self) -> (r: Scalar)
        ensures
            r == self.negated(),
    {
        let bits = self.bits;
        assert(bits ^ 0x8000_0000_0000_0000 == if bits >= 0x8000_0000_0000_0000 {
            (bits - 0x8000_0000_0000_0000) as u64
        } else {
            (bits + 0x8000_0000_0000_0000) as u64
        }) by (bit_vector);
        Scalar { bits: bits ^ SIGN_MASK }
    }

    /// The scalar with the sign bit set or cleared as asked.
    pub fn signed(self, negative: bool) -> (r: Scalar)
        ensures
            r == self.with_sign(negative),
            r.is_negative() == negative,
            r.exponent_field() == self.exponent_field(),
            r.fraction_field() == self.fraction_field(),
            r.magnitude() == self.magnitude(),
            r.absolute() == self.absolute(),
    {
        let a = self.abs();
        if negative {
            proof {
                lemma_negated_fields(a);
            }
            a.negate()
        } else {
            a
        }
    }

    /// Tolerance equality: true when the two patterns are at most
    /// `ULP_MARGIN` representable values apart.
    pub fn approx_eq(self, other: Scalar) -> (r: bool)
        ensures
            r == self.approx_eq_spec(other),
    {
        let a = ordered_bits(self.bits);
        let b = ordered_bits(other.bits);
        let d = if a >= b {
            a - b
        } else {
            b - a
        };
        d <= ULP_MARGIN || d >= u64::MAX - ULP_MARGIN + 1
    }
}

/// The ordinal of a bit pattern.
fn ordered_bits(bits: u64) -> (r: u64)
    ensures
        r == ordinal(bits),
{
    assert((bits & 0x8000_0000_0000_0000 != 0) == (bits >= 0x8000_0000_0000_0000)) by (bit_vector);
    assert(!bits == 0xFFFF_FFFF_FFFF_FFFF - bits) by (bit_vector);
    assert(bits < 0x8000_0000_0000_0000 ==> bits ^ 0x8000_0000_0000_0000 == bits
        + 0x8000_0000_0000_0000) by (bit_vector);
    if bits & SIGN_MASK != 0 {
        !bits
    } else {
        bits ^ SIGN_MASK
    }
}

/// Every scalar equals itself within tolerance, a NaN too: the relation
/// goes by the bit patterns alone.
pub proof fn lemma_approx_eq_reflexive(a: Scalar)
    ensures
        a.approx_eq_spec(a),
{
}

/// Tolerance equality does not depend on the order of its two sides.
pub proof fn lemma_approx_eq_symmetric(a: Scalar, b: Scalar)
    ensures
        a.approx_eq_spec(b) == b.approx_eq_spec(a),
{
}

/// Negating twice gives the scalar back, bit for bit.
pub proof fn lemma_negated_twice(a: Scalar)
    ensures
        a.negated().negated() == a,
{
}

/// Negation changes the sign and nothing else.
pub proof fn lemma_negated_fields(a: Scalar)
    ensures
        a.negated().is_negative() == !a.is_negative(),
        a.negated().exponent_field() == a.exponent_field(),
        a.negated().fraction_field() == a.fraction_field(),
        a.negated().magnitude() == a.magnitude(),
{
    let b = a.bits;
    let n = a.negated().bits;
    assert(n / 0x0010_0000_0000_0000 % 0x800 == b / 0x0010_0000_0000_0000 % 0x800 && n
        % 0x0010_0000_0000_0000 == b % 0x0010_0000_0000_0000) by (bit_vector)
        requires
            b >= 0x8000_0000_0000_0000 ==> n == b - 0x8000_0000_0000_0000,
            b < 0x8000_0000_0000_0000 ==> n == b + 0x8000_0000_0000_0000,
    ;
}

/// Setting the sign changes the sign and nothing else.
pub proof fn lemma_with_sign_fields(a: Scalar, negative: bool)
    ensures
        a.with_sign(negative).is_negative() == negative,
        a.with_sign(negative).exponent_field() == a.exponent_field(),
        a.with_sign(negative).fraction_field() == a.fraction_field(),
        a.with_sign(negative).magnitude() == a.magnitude(),
        a.is_negative() == negative ==> a.with_sign(negative) == a,
{
    let b = a.bits;
    let n = a.absolute().bits;
    assert(n / 0x0010_0000_0000_0000 % 0x800 == b / 0x0010_0000_0000_0000 % 0x800 && n
        % 0x0010_0000_0000_0000 == b % 0x0010_0000_0000_0000 && n < 0x8000_0000_0000_0000)
        by (bit_vector)
        requires
            n == b % 0x8000_0000_0000_0000,
    ;
    lemma_negated_fields(a.absolute());
}

/// The bit patterns of the zeros and of the infinities.
pub proof fn lemma_zero_and_infinite_bits(a: Scalar)
    ensures
        a.is_zero() ==> a.bits == if a.is_negative() {
            SIGN_MASK
        } else {
            ZERO_BITS
        },
        a.is_infinite() ==> a.bits == if a.is_negative() {
            (SIGN_MASK + INFINITY_BITS) as u64
        } else {
            INFINITY_BITS
        },
{
    let b = a.bits;
    assert(b / 0x0010_0000_0000_0000 % 0x800 == 0 && b % 0x0010_0000_0000_0000 == 0 ==> b == 0 || b
        == 0x8000_0000_0000_0000) by (bit_vector);
    assert(b / 0x0010_0000_0000_0000 % 0x800 == 0x7FF && b % 0x0010_0000_0000_0000 == 0 ==> b
        == 0x7FF0_0000_0000_0000 || b == 0xFFF0_0000_0000_0000) by (bit_vector);
}

/// Two scalars are as far apart as their negations are, so negating both
/// sides keeps tolerance equality.
pub proof fn lemma_negated_distance(a: Scalar, b: Scalar)
    ensures
        ulp_distance(a.negated().bits, b.negated().bits) == ulp_distance(a.bits, b.bits),
        a.negated().approx_eq_spec(b.negated()) == a.approx_eq_spec(b),
{
}

} // verus!
