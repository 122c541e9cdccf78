//! From an exact number to the double nearest to it.

use crate::arith::rounding::excess_bits;
use crate::arith::rounding::lemma_excess_bits_is;
use crate::arith::rounding::lemma_excess_bits_range;
use crate::arith::rounding::lemma_excess_bits_scales;
use crate::arith::rounding::lemma_multiple_of_smaller_power;
use crate::arith::rounding::lemma_nearest_double_exact;
use crate::arith::rounding::lemma_nearest_double_is_nearest;
use crate::arith::rounding::lemma_nearest_double_scales;
use crate::arith::rounding::lemma_round_half_even_is_nearest;
use crate::arith::rounding::lemma_round_half_even_near;
use crate::arith::rounding::lemma_round_half_even_of_multiple;
use crate::arith::rounding::lemma_round_half_even_scales;
use crate::arith::rounding::nearest_double;
use crate::arith::rounding::round_half_even;
use crate::arith::rounding::SIGNIFICAND_LIMIT;
use crate::scalar::EXPONENT_SPECIAL;
use crate::scalar::HIDDEN_BIT;
use crate::scalar::INFINITY_BITS;
use crate::scalar::Scalar;
use vstd::arithmetic::div_mod::lemma_basic_div;
use vstd::arithmetic::div_mod::lemma_div_by_multiple;
use vstd::arithmetic::div_mod::lemma_div_denominator;
use vstd::arithmetic::div_mod::lemma_div_is_ordered;
use vstd::arithmetic::div_mod::lemma_div_multiples_vanish_quotient;
use vstd::arithmetic::div_mod::lemma_fundamental_div_mod;
use vstd::arithmetic::div_mod::lemma_fundamental_div_mod_converse;
use vstd::arithmetic::div_mod::lemma_mod_bound;
use vstd::arithmetic::div_mod::lemma_small_mod;
use vstd::arithmetic::power2::lemma2_to64;
use vstd::arithmetic::power2::lemma2_to64_rest;
use vstd::arithmetic::power2::lemma_pow2_adds;
use vstd::arithmetic::power2::lemma_pow2_pos;
use vstd::arithmetic::power2::lemma_pow2_strictly_increases;
use vstd::arithmetic::power2::lemma_pow2_unfold;
use vstd::arithmetic::power2::pow2;
use vstd::prelude::*;

verus! {

/// The first magnitude that no finite double holds: 2^1024, in units of
/// 2^-1074.
pub open spec fn overflow_limit() -> int {
    pow2(2098) as int
}

/// The double nearest to `x` times 2^k units, for any integer k. Below the
/// unit nothing is held: the result is a whole number of units.
pub open spec fn nearest_double_scaled(x: int, k: int) -> int {
    if k >= 0 {
        nearest_double(x * pow2(k as nat))
    } else {
        let t = if excess_bits(x) >= -k {
            excess_bits(x)
        } else {
            (-k) as nat
        };
        round_half_even(x, t) / (pow2((-k) as nat) as int)
    }
}

/// The scalar that holds a magnitude: the non-negative finite scalar of
/// that magnitude, or infinity from `overflow_limit` on.
pub open spec fn holds(r: Scalar, magnitude: int) -> bool {
    &&& !r.is_negative()
    &&& !r.is_nan()
    &&& magnitude < overflow_limit() ==> r.is_finite() && r.magnitude() == magnitude
    &&& magnitude >= overflow_limit() ==> r.is_infinite()
}

/// The non-negative scalar of a magnitude that a double can hold, and
/// infinity from `overflow_limit` on.
pub open spec fn encoded(magnitude: int) -> Scalar {
    if magnitude >= overflow_limit() {
        Scalar { bits: INFINITY_BITS }
    } else if magnitude < HIDDEN_BIT {
        Scalar { bits: magnitude as u64 }
    } else {
        let place = excess_bits(magnitude);
        let fraction = magnitude / (pow2(place) as int) - HIDDEN_BIT;
        Scalar { bits: ((place + 1) * HIDDEN_BIT + fraction) as u64 }
    }
}

/// Only one scalar holds a magnitude: the one that `encoded` gives.
pub proof fn lemma_holds_encoded(r: Scalar, magnitude: int)
    requires
        holds(r, magnitude),
    ensures
        r == encoded(magnitude),
{
    let bits = r.bits;
    let e = r.exponent_field();
    let f = r.fraction_field() as int;
    lemma2_to64();
    lemma2_to64_rest();
    lemma_fundamental_div_mod(bits as int, HIDDEN_BIT as int);
    assert(bits / 0x0010_0000_0000_0000 < 0x800) by (bit_vector)
        requires
            bits < 0x8000_0000_0000_0000,
    ;
    lemma_small_mod((bits / HIDDEN_BIT) as nat, 0x800);
    assert(bits == e * HIDDEN_BIT + f);
    if magnitude >= overflow_limit() {
    } else if e == 0 {
    } else {
        let j = (e - 1) as nat;
        let m = HIDDEN_BIT + f;
        lemma_pow2_pos(j);
        lemma_pow2_adds(52, j);
        lemma_pow2_adds(53, j);
        assert(0x0010_0000_0000_0000 * pow2(j) <= m * pow2(j) < 0x0020_0000_0000_0000 * pow2(j))
            by (nonlinear_arith)
            requires
                0x0010_0000_0000_0000 <= m < 0x0020_0000_0000_0000,
                pow2(j) > 0,
        ;
        if j == 0 {
            assert(pow2(0) == 1);
            assert(m * pow2(0) == m) by (nonlinear_arith)
                requires
                    pow2(0) == 1,
            ;
        }
        lemma_excess_bits_is(magnitude, j);
        lemma_div_by_multiple(m, pow2(j) as int);
        assert(magnitude >= HIDDEN_BIT) by {
            assert(pow2(j) >= 1);
            assert(m * pow2(j) >= m) by (nonlinear_arith)
                requires
                    m >= 0,
                    pow2(j) >= 1,
            ;
        }
    }
}

/// A magnitude that is a double and below the overflow limit is held by
/// the scalar that `encoded` gives for it.
pub proof fn lemma_encoded_holds(magnitude: int)
    requires
        0 <= magnitude < overflow_limit(),
        nearest_double(magnitude) == magnitude,
    ensures
        holds(encoded(magnitude), magnitude),
{
    lemma2_to64();
    lemma2_to64_rest();
    let r = encoded(magnitude);
    if magnitude < HIDDEN_BIT {
        lemma_fundamental_div_mod_converse(magnitude, HIDDEN_BIT as int, 0, magnitude);
        lemma_small_mod(0, 0x800);
        assert(r.bits == magnitude);
        assert(r.exponent_field() == 0);
        assert(r.fraction_field() == magnitude);
    } else {
        let j = excess_bits(magnitude);
        let g = pow2(j) as int;
        lemma_pow2_pos(j);
        lemma_excess_bits_range(magnitude);
        lemma_round_half_even_near(magnitude, j);
        lemma_fundamental_div_mod(magnitude, g);
        let q = magnitude / g;
        assert(magnitude == g * q);
        // q is a full significand
        lemma_pow2_adds(52, j);
        lemma_pow2_adds(53, j);
        if j == 0 {
            assert(g == 1);
            assert(magnitude / 1 == magnitude);
        }
        assert(HIDDEN_BIT <= q < 0x0020_0000_0000_0000) by (nonlinear_arith)
            requires
                magnitude == g * q,
                g > 0,
                j >= 1 ==> 0x0010_0000_0000_0000 * g <= magnitude < 0x0020_0000_0000_0000 * g,
                j == 0 ==> q == magnitude && 0x0010_0000_0000_0000 <= magnitude
                    < 0x0020_0000_0000_0000,
        ;
        // the place is below the overflow
        assert(j <= 2045) by {
            if j > 2045 {
                lemma_pow2_adds(52, 2046);
                if j > 2046 {
                    lemma_pow2_strictly_increases(2046, j);
                }
                assert(magnitude >= 0x0010_0000_0000_0000 * pow2(2046)) by (nonlinear_arith)
                    requires
                        magnitude == g * q,
                        q >= 0x0010_0000_0000_0000,
                        g >= pow2(2046),
                ;
                assert(false);
            }
        }
        let e = (j + 1) as int;
        let f = q - HIDDEN_BIT;
        assert(e * HIDDEN_BIT + f < 0x8000_0000_0000_0000) by (nonlinear_arith)
            requires
                0 <= e <= 2046,
                0 <= f < 0x0010_0000_0000_0000,
                HIDDEN_BIT == 0x0010_0000_0000_0000,
        ;
        assert(e * HIDDEN_BIT + f >= 0) by (nonlinear_arith)
            requires
                0 <= e,
                0 <= f,
                HIDDEN_BIT == 0x0010_0000_0000_0000,
        ;
        assert(r.bits == e * HIDDEN_BIT + f);
        lemma_fundamental_div_mod_converse(r.bits as int, HIDDEN_BIT as int, e, f);
        lemma_small_mod(e as nat, 0x800);
        assert(r.exponent_field() == e);
        assert(r.fraction_field() == f);
        assert((HIDDEN_BIT + f) * g == magnitude) by (nonlinear_arith)
            requires
                magnitude == g * q,
                f == q - HIDDEN_BIT,
        ;
    }
}

/// The magnitude of a finite scalar is a double, below the overflow limit,
/// and the scalar without its sign holds it.
pub proof fn lemma_magnitude_is_double(a: Scalar)
    requires
        a.is_finite(),
    ensures
        nearest_double(a.magnitude()) == a.magnitude(),
        0 <= a.magnitude() < overflow_limit(),
        a.magnitude() == 0 <==> a.is_zero(),
        holds(a.absolute(), a.magnitude()),
{
    let e = a.exponent_field();
    let f = a.fraction_field() as int;
    lemma2_to64();
    lemma2_to64_rest();
    let bits = a.bits;
    let n = a.absolute().bits;
    assert(n / 0x0010_0000_0000_0000 % 0x800 == bits / 0x0010_0000_0000_0000 % 0x800 && n
        % 0x0010_0000_0000_0000 == bits % 0x0010_0000_0000_0000 && n < 0x8000_0000_0000_0000)
        by (bit_vector)
        requires
            n == bits % 0x8000_0000_0000_0000,
    ;
    if e == 0 {
        lemma_nearest_double_exact(f);
        lemma_pow2_strictly_increases(52, 2098);
    } else {
        let m = HIDDEN_BIT + f;
        let j = (e - 1) as nat;
        lemma_nearest_double_exact(m);
        lemma_nearest_double_scales(m, j);
        lemma_pow2_adds(53, 2045);
        lemma_pow2_pos(j);
        if j < 2045 {
            lemma_pow2_strictly_increases(j, 2045);
        }
        assert(0 < m * pow2(j) < 0x0020_0000_0000_0000 * pow2(2045)) by (nonlinear_arith)
            requires
                0 < m < 0x0020_0000_0000_0000,
                0 < pow2(j) <= pow2(2045),
        ;
    }
}

/// A finite scalar is its magnitude encoded, with its sign.
pub proof fn lemma_finite_is_encoded(a: Scalar)
    requires
        a.is_finite(),
    ensures
        a == encoded(a.magnitude()).with_sign(a.is_negative()),
        !a.is_negative() ==> a == encoded(a.magnitude()),
{
    lemma_magnitude_is_double(a);
    lemma_holds_encoded(a.absolute(), a.magnitude());
}

/// A scalar without the sign bit is its own absolute value.
pub proof fn lemma_own_absolute(r: Scalar)
    requires
        !r.is_negative(),
    ensures
        r.absolute() == r,
{
}

/// No double is nearer to `x` times 2^k units than the one that
/// `nearest_double_scaled` gives: a number `d` that rounding leaves alone
/// is at least as far away. For k below zero the distances are counted in
/// parts of 2^-k.
pub proof fn lemma_nearest_double_scaled_is_nearest(x: int, k: int, d: int)
    requires
        0 <= x,
        0 <= d,
        nearest_double(d) == d,
    ensures
        ({
            let r = nearest_double_scaled(x, k);
            let n = if k >= 0 {
                x * pow2(k as nat)
            } else {
                x
            };
            let part = if k >= 0 {
                1int
            } else {
                pow2((-k) as nat) as int
            };
            &&& r * part - n <= d * part - n || r * part - n <= n - d * part
            &&& n - r * part <= d * part - n || n - r * part <= n - d * part
        }),
{
    if k >= 0 {
        let n = x * pow2(k as nat);
        lemma_pow2_pos(k as nat);
        assert(n >= 0) by (nonlinear_arith)
            requires
                n == x * pow2(k as nat),
                x >= 0,
                pow2(k as nat) > 0,
        ;
        lemma_nearest_double_is_nearest(n, d);
    } else {
        let low = (-k) as nat;
        let part = pow2(low) as int;
        let t = excess_bits(x);
        let u = excess_bits(d);
        let grain = if t >= low {
            t
        } else {
            low
        };
        let c = pow2(grain) as int;
        let rounded = round_half_even(x, grain);
        lemma2_to64();
        lemma2_to64_rest();
        lemma_pow2_pos(low);
        lemma_pow2_pos(grain);
        lemma_pow2_pos(u);
        lemma_excess_bits_range(x);
        lemma_excess_bits_range(d);
        lemma_round_half_even_near(x, grain);
        lemma_round_half_even_near(d, u);
        // the rounded number divides by the part without remainder
        lemma_fundamental_div_mod(rounded, c);
        let j = rounded / c;
        assert(rounded == j * c) by (nonlinear_arith)
            requires
                rounded == c * j + rounded % c,
                rounded % c == 0,
        ;
        assert(j >= 0) by (nonlinear_arith)
            requires
                rounded == j * c,
                rounded >= 0,
                c > 0,
        ;
        lemma_multiple_of_smaller_power(j, grain, low);
        let r = nearest_double_scaled(x, k);
        assert(r == j * pow2((grain - low) as nat));
        lemma_fundamental_div_mod(rounded, part);
        assert(r * part == rounded) by (nonlinear_arith)
            requires
                rounded == part * r + rounded % part,
                rounded % part == 0,
        ;
        // d in parts
        let g = pow2(u) as int;
        lemma_fundamental_div_mod(d, g);
        let m = d / g;
        assert(d == m * g) by (nonlinear_arith)
            requires
                d == g * m + d % g,
                d % g == 0,
        ;
        assert(m >= 0) by (nonlinear_arith)
            requires
                d == m * g,
                d >= 0,
                g > 0,
        ;
        lemma_pow2_adds(u, low);
        assert(d * part == m * pow2(u + low)) by (nonlinear_arith)
            requires
                d == m * g,
                pow2(u + low) == g * part,
        ;
        if u + low >= grain {
            lemma_multiple_of_smaller_power(m, u + low, grain);
            let i = m * pow2((u + low - grain) as nat);
            lemma_fundamental_div_mod(d * part, c);
            assert(d * part == i * c) by (nonlinear_arith)
                requires
                    d * part == c * i + (d * part) % c,
                    (d * part) % c == 0,
            ;
            lemma_round_half_even_is_nearest(x, grain, i);
        } else {
            // d in parts lies below the first number with the grain of x
            assert(grain == t && t >= 1);
            lemma_pow2_adds(53, u + low);
            lemma_pow2_adds(53, u);
            if 53 + u + low < 52 + t {
                lemma_pow2_strictly_increases(53 + u + low, 52 + t);
            }
            assert(d < pow2(53 + u)) by {
                if u == 0 {
                    assert(pow2(53 + u) == pow2(53));
                }
            }
            assert(d * part < pow2(53 + u) * part) by (nonlinear_arith)
                requires
                    d < pow2(53 + u),
                    part > 0,
            ;
            lemma_pow2_adds(53 + u, low);
            lemma_pow2_adds(52, t);
            assert(d * part < pow2(52 + t) <= x);
            lemma_round_half_even_is_nearest(
                x,
                grain,
                0x0010_0000_0000_0000,
            );
        }
    }
}

/// A factor 2^j of the number can be moved into the scale.
pub proof fn lemma_nearest_double_scaled_shifts(x: int, j: nat, k: int)
    requires
        0 <= x,
    ensures
        nearest_double_scaled(x * pow2(j), k) == nearest_double_scaled(x, k + j),
{
    let n = x * pow2(j);
    let t = excess_bits(x);
    lemma_excess_bits_scales(x, j);
    lemma_pow2_pos(j);
    if k >= 0 {
        lemma_pow2_adds(j, k as nat);
        assert(n * pow2(k as nat) == x * pow2((k + j) as nat)) by (nonlinear_arith)
            requires
                n == x * pow2(j),
                pow2((k + j) as nat) == pow2(j) * pow2(k as nat),
        ;
    } else {
        let d = (-k) as nat;
        let c = pow2(d) as int;
        lemma_pow2_pos(d);
        if t >= 1 {
            if k + j >= 0 {
                // the grain is that of the number itself
                let up = (j - d) as nat;
                lemma_round_half_even_scales(x, t, j);
                lemma_multiple_of_smaller_power(round_half_even(x, t), j, d);
                lemma_round_half_even_near(x, t);
                lemma_nearest_double_scales(x, up);
            } else {
                let low = (d - j) as nat;
                let grain = if t >= low {
                    t
                } else {
                    low
                };
                lemma_round_half_even_scales(x, grain, j);
                lemma_round_half_even_near(x, grain);
                lemma_pow2_adds(j, low);
                lemma_pow2_pos(low);
                lemma_div_multiples_vanish_quotient(
                    pow2(j) as int,
                    round_half_even(x, grain),
                    pow2(low) as int,
                );
                assert(round_half_even(x, grain) * pow2(j) == pow2(j) * round_half_even(x, grain))
                    by (nonlinear_arith);
            }
        } else {
            let u = excess_bits(n);
            if k + j >= 0 {
                let up = (j - d) as nat;
                let grain = if u >= d {
                    u
                } else {
                    d
                };
                lemma_multiple_of_smaller_power(x, j, grain);
                lemma_round_half_even_of_multiple(n, grain);
                lemma_multiple_of_smaller_power(x, j, d);
                lemma_nearest_double_exact(x);
                lemma_nearest_double_scales(x, up);
            } else {
                let low = (d - j) as nat;
                lemma_round_half_even_scales(x, low, j);
                lemma_round_half_even_near(x, low);
                lemma_pow2_adds(j, low);
                lemma_pow2_pos(low);
                lemma_div_multiples_vanish_quotient(
                    pow2(j) as int,
                    round_half_even(x, low),
                    pow2(low) as int,
                );
                assert(round_half_even(x, low) * pow2(j) == pow2(j) * round_half_even(x, low))
                    by (nonlinear_arith);
            }
        }
    }
}

/// The excess bits of `x`, and 2 to that power.
fn excess_of(x: u128) -> (r: (u32, u128))
    ensures
        r.0 == excess_bits(x as int),
        r.1 == pow2(r.0 as nat),
        r.0 <= 75,
        x / r.1 < SIGNIFICAND_LIMIT,
{
    let mut y: u128 = x;
    let mut t: u32 = 0;
    let mut grain: u128 = 1;
    proof {
        lemma2_to64();
        lemma2_to64_rest();
        lemma_pow2_adds(64, 64);
    }
    while y >= 0x0020_0000_0000_0000
        invariant
            excess_bits(x as int) == t + excess_bits(y as int),
            grain == pow2(t as nat),
            y == x / grain,
            t <= 75,
            y < pow2((128 - t) as nat),
        decreases y,
    {
        proof {
            lemma2_to64();
            lemma2_to64_rest();
            if 128 - t <= 53 {
                if 128 - t < 53 {
                    lemma_pow2_strictly_increases((128 - t) as nat, 53);
                }
                assert(false);
            }
            lemma_pow2_unfold((128 - t) as nat);
            lemma_pow2_unfold((t + 1) as nat);
            lemma_pow2_strictly_increases((t + 1) as nat, 127);
            lemma_pow2_adds(63, 64);
            lemma_pow2_pos(t as nat);
            lemma_div_denominator(x as int, grain as int, 2);
        }
        y = y / 2;
        t = t + 1;
        grain = grain * 2;
    }
    (t, grain)
}

/// `x` rounded to a multiple of `grain`, counted in grains.
fn round_at(x: u128, t: u32, grain: u128) -> (q: u128)
    requires
        grain == pow2(t as nat),
        t <= 127,
    ensures
        q * grain == round_half_even(x as int, t as nat),
        q == x / grain || q == x / grain + 1,
{
    proof {
        lemma_pow2_pos(t as nat);
        lemma_mod_bound(x as int, grain as int);
        lemma_fundamental_div_mod(x as int, grain as int);
        if t < 127 {
            lemma_pow2_strictly_increases(t as nat, 127);
        }
        lemma2_to64();
        lemma2_to64_rest();
        lemma_pow2_adds(63, 64);
        lemma_pow2_adds(64, 64);
    }
    let q: u128 = x / grain;
    let r: u128 = x % grain;
    if 2 * r > grain || (2 * r == grain && q % 2 == 1) {
        assert(q < u128::MAX) by (nonlinear_arith)
            requires
                x == grain * q + r,
                2 * r >= grain,
                grain >= 1,
                x <= u128::MAX,
                q >= 0,
        ;
        q + 1
    } else {
        q
    }
}

/// The scalar with significand `q` at `e` places above the unit.
fn pack(q: u64, e: u64) -> (r: Scalar)
    requires
        q < SIGNIFICAND_LIMIT,
        q >= HIDDEN_BIT || e == 0,
        e <= 0x7FFF_FFFF,
    ensures
        holds(r, q * pow2(e as nat)),
{
    proof {
        lemma2_to64();
        lemma2_to64_rest();
        lemma_pow2_adds(52, 2046);
        lemma_pow2_adds(53, 2045);
        lemma_pow2_pos(e as nat);
    }
    if q < HIDDEN_BIT {
        proof {
            lemma_pow2_strictly_increases(52, 2098);
        }
        Scalar::from_fields(0, q)
    } else if e >= EXPONENT_SPECIAL - 1 {
        proof {
            if e > 2046 {
                lemma_pow2_strictly_increases(2046, e as nat);
            }
            assert(q * pow2(e as nat) >= 0x0010_0000_0000_0000 * pow2(2046)) by (nonlinear_arith)
                requires
                    q >= 0x0010_0000_0000_0000,
                    pow2(e as nat) >= pow2(2046),
            ;
            lemma_small_mod(0x7FF, 0x800);
        }
        let r = Scalar::from_fields(EXPONENT_SPECIAL, 0);
        r
    } else {
        proof {
            if e < 2045 {
                lemma_pow2_strictly_increases(e as nat, 2045);
            }
            assert(q * pow2(e as nat) < 0x0020_0000_0000_0000 * pow2(2045)) by (nonlinear_arith)
                requires
                    0 <= q < 0x0020_0000_0000_0000,
                    0 < pow2(e as nat) <= pow2(2045),
            ;
        }
        Scalar::from_fields(e + 1, q - HIDDEN_BIT)
    }
}

/// 2 to the power `t`.
pub fn power_of_two(t: u32) -> (p: u128)
    requires
        t <= 127,
    ensures
        p == pow2(t as nat),
{
    let mut p: u128 = 1;
    let mut i: u32 = 0;
    proof {
        lemma2_to64();
    }
    while i < t
        invariant
            i <= t <= 127,
            p == pow2(i as nat),
        decreases t - i,
    {
        proof {
            lemma_pow2_unfold((i + 1) as nat);
            lemma2_to64();
            lemma2_to64_rest();
            lemma_pow2_adds(63, 64);
            if i + 1 < 127 {
                lemma_pow2_strictly_increases((i + 1) as nat, 127);
            }
        }
        p = p * 2;
        i = i + 1;
    }
    p
}

/// The double nearest to `x` times 2^k units.
pub fn nearest_raised(x: u128, k: u64) -> (r: Scalar)
    requires
        k <= 0x7FFF_0000,
    ensures
        holds(r, nearest_double(x * pow2(k as nat))),
{
    proof {
        lemma2_to64();
        lemma2_to64_rest();
        lemma_pow2_pos(k as nat);
        lemma_nearest_double_scales(x as int, k as nat);
    }
    if x == 0 {
        proof {
            lemma_nearest_double_exact(0);
            lemma_pow2_pos(2098);
            assert(0 * pow2(k as nat) == 0);
        }
        return Scalar::from_fields(0, 0);
    }
    let (t, grain) = excess_of(x);
    if t > 0 {
        let q = round_at(x, t, grain);
        proof {
            lemma_excess_bits_range(x as int);
            lemma_pow2_adds(52, t as nat);
            lemma_pow2_adds(t as nat, k as nat);
            lemma_pow2_pos(t as nat);
            lemma_div_by_multiple(0x0010_0000_0000_0000, grain as int);
            lemma_div_is_ordered(
                0x0010_0000_0000_0000 * grain,
                x as int,
                grain as int,
            );
            assert(q * grain * pow2(k as nat) == q * pow2((t + k) as nat)) by (nonlinear_arith)
                requires
                    pow2((t + k) as nat) == grain * pow2(k as nat),
            ;
        }
        if q == 0x0020_0000_0000_0000 {
            proof {
                lemma_pow2_unfold((t + k + 1) as nat);
                assert(q * pow2((t + k) as nat) == 0x0010_0000_0000_0000 * pow2(
                    (t + k + 1) as nat,
                )) by (nonlinear_arith)
                    requires
                        q == 0x0020_0000_0000_0000,
                        pow2((t + k + 1) as nat) == 2 * pow2((t + k) as nat),
                ;
            }
            pack(HIDDEN_BIT, k + t as u64 + 1)
        } else {
            pack(q as u64, k + t as u64)
        }
    } else {
        proof {
            lemma_nearest_double_exact(x as int);
        }
        let mut m: u64 = x as u64;
        let mut e: u64 = k;
        while m < HIDDEN_BIT && e > 0
            invariant
                0 < m < SIGNIFICAND_LIMIT,
                e <= k,
                m * pow2(e as nat) == x * pow2(k as nat),
            decreases e,
        {
            proof {
                lemma_pow2_unfold(e as nat);
                assert((2 * m) * pow2((e - 1) as nat) == m * pow2(e as nat)) by (nonlinear_arith)
                    requires
                        pow2(e as nat) == 2 * pow2((e - 1) as nat),
                ;
            }
            m = 2 * m;
            e = e - 1;
        }
        pack(m, e)
    }
}

/// The double nearest to `x` times 2^k units, for k of either sign and x
/// below 2^127.
pub fn nearest(x: u128, k: i64) -> (r: Scalar)
    requires
        x <= u128::MAX / 2,
        -0x7FFF_0000 <= k <= 0x7FFF_0000,
    ensures
        holds(r, nearest_double_scaled(x as int, k as int)),
{
    if k >= 0 {
        return nearest_raised(x, k as u64);
    }
    let d: u64 = (-k) as u64;
    let (t, grain) = excess_of(x);
    proof {
        lemma2_to64();
        lemma2_to64_rest();
        lemma_pow2_pos(d as nat);
    }
    if d <= t as u64 {
        let q = round_at(x, t, grain);
        proof {
            let up = (t - d) as nat;
            lemma_pow2_adds(up, d as nat);
            lemma_pow2_pos(up);
            assert(q * grain == (q * pow2(up)) * pow2(d as nat)) by (nonlinear_arith)
                requires
                    grain == pow2(up) * pow2(d as nat),
            ;
            assert(q * pow2(up) >= 0) by (nonlinear_arith)
                requires
                    q >= 0,
                    pow2(up) > 0,
            ;
            lemma_div_by_multiple(q * pow2(up), pow2(d as nat) as int);
            lemma_nearest_double_exact(q as int);
            lemma_nearest_double_scales(q as int, up);
            assert(round_half_even(x as int, t as nat) == q * grain);
            assert(nearest_double_scaled(x as int, k as int) == round_half_even(
                x as int,
                t as nat,
            ) / (pow2(d as nat) as int));
            assert(nearest_double_scaled(x as int, k as int) == q * pow2(up));
        }
        nearest_raised(q, t as u64 - d)
    } else if d >= 128 {
        proof {
            lemma_pow2_adds(64, 64);
            if d > 128 {
                lemma_pow2_strictly_increases(128, d as nat);
            }
            let c = pow2(d as nat) as int;
            lemma_small_mod(x as nat, c as nat);
            lemma_basic_div(x as int, c);
            assert(0 * c == 0);
            assert(0int / c == 0) by (nonlinear_arith)
                requires
                    c > 0,
            ;
            lemma_pow2_pos(2098);
            assert(round_half_even(x as int, d as nat) == 0);
            assert(nearest_double_scaled(x as int, k as int) == 0);
        }
        Scalar::from_fields(0, 0)
    } else {
        let grain = power_of_two(d as u32);
        let q = round_at(x, d as u32, grain);
        proof {
            lemma_excess_bits_range(x as int);
            lemma_pow2_adds(52, d as nat);
            if 53 + t < 52 + d {
                lemma_pow2_strictly_increases((53 + t) as nat, (52 + d) as nat);
            }
            assert(x < 0x0010_0000_0000_0000 * grain);
            lemma_div_is_ordered(
                x as int,
                0x0010_0000_0000_0000 * grain,
                grain as int,
            );
            lemma_div_by_multiple(0x0010_0000_0000_0000, grain as int);
            assert(q <= 0x0010_0000_0000_0001);
            lemma_div_by_multiple(q as int, grain as int);
            lemma_nearest_double_exact(q as int);
            assert(pow2(0) == 1);
            assert(q * pow2(0) == q);
            assert(nearest_double_scaled(x as int, k as int) == q);
        }
        nearest_raised(q, 0)
    }
}

} // verus!
