//! Adding a scalar and taking it away again: how far the result can be
//! from where it started.

use crate::arith::encode::encoded;
use crate::arith::encode::lemma_encoded_holds;
use crate::arith::encode::lemma_magnitude_is_double;
use crate::arith::encode::overflow_limit;
use crate::arith::order::grain_of;
use crate::arith::order::lemma_near_values_approx_eq;
use crate::arith::rounding::excess_bits;
use crate::arith::rounding::lemma_excess_bits_is;
use crate::arith::rounding::lemma_excess_bits_range;
use crate::arith::rounding::lemma_multiple_of_smaller_power;
use crate::arith::rounding::lemma_nearest_double_exact;
use crate::arith::rounding::lemma_nearest_double_idempotent;
use crate::arith::rounding::lemma_nearest_double_is_nearest;
use crate::arith::rounding::lemma_nearest_double_scales;
use crate::arith::rounding::lemma_round_half_even_near;
use crate::arith::rounding::nearest_double;
use crate::arith::sum::difference_of;
use crate::arith::sum::sum_of;
use crate::scalar::HIDDEN_BIT;
use crate::scalar::INFINITY_BITS;
use crate::scalar::lemma_negated_distance;
use crate::scalar::lemma_negated_fields;
use crate::scalar::lemma_with_sign_fields;
use crate::scalar::lemma_zero_and_infinite_bits;
use crate::scalar::Scalar;
use crate::scalar::ZERO_BITS;
use vstd::arithmetic::div_mod::lemma_fundamental_div_mod;
use vstd::arithmetic::power2::lemma2_to64;
use vstd::arithmetic::power2::lemma2_to64_rest;
use vstd::arithmetic::power2::lemma_pow2_adds;
use vstd::arithmetic::power2::lemma_pow2_pos;
use vstd::arithmetic::power2::lemma_pow2_strictly_increases;
use vstd::arithmetic::power2::lemma_pow2_unfold;
use vstd::arithmetic::power2::pow2;
use vstd::prelude::*;

verus! {

/// The step between the doubles about `n`: 2 to the number of excess bits.
pub open spec fn step_at(n: int) -> int {
    pow2(excess_bits(n)) as int
}

/// Rounding with the sign: the double nearest to `n`, on the side of zero
/// where `n` is.
pub open spec fn nearest_signed(n: int) -> int {
    if n < 0 {
        -nearest_double(-n)
    } else {
        nearest_double(n)
    }
}

/// Rounding stays between doubles: with a double at or below `n` and one at
/// or above, the double nearest to `n` lies between the two.
pub proof fn lemma_nearest_double_between(n: int, low: int, high: int)
    requires
        0 <= low <= n <= high,
        nearest_double(low) == low,
        nearest_double(high) == high,
    ensures
        low <= nearest_double(n) <= high,
{
    lemma_nearest_double_is_nearest(n, low);
    lemma_nearest_double_is_nearest(n, high);
}

/// A double is a whole number of its steps, and so are its neighbours one
/// step away, which are doubles too.
pub proof fn lemma_neighbours(a: int)
    requires
        0 < a,
        nearest_double(a) == a,
    ensures
        a % step_at(a) == 0,
        nearest_double(a + step_at(a)) == a + step_at(a),
        nearest_double(a - step_at(a)) == a - step_at(a),
        0 <= a - step_at(a),
        excess_bits(a) >= 1 ==> pow2(52 + excess_bits(a)) <= a < pow2(53 + excess_bits(a)),
        excess_bits(a) >= 1 ==> excess_bits(a - step_at(a)) + 1 >= excess_bits(a),
        step_at(a) >= 1,
{
    let t = excess_bits(a);
    let g = pow2(t) as int;
    lemma2_to64();
    lemma2_to64_rest();
    lemma_pow2_pos(t);
    lemma_excess_bits_range(a);
    lemma_round_half_even_near(a, t);
    lemma_fundamental_div_mod(a, g);
    let m = a / g;
    assert(a == m * g) by (nonlinear_arith)
        requires
            a == g * m + a % g,
            a % g == 0,
    ;
    if t == 0 {
        assert(g == 1);
        lemma_nearest_double_exact(a + 1);
        lemma_nearest_double_exact(a - 1);
    } else {
        lemma_pow2_adds(52, t);
        lemma_pow2_adds(53, t);
        assert(0x0010_0000_0000_0000 <= m < 0x0020_0000_0000_0000) by (nonlinear_arith)
            requires
                a == m * g,
                0x0010_0000_0000_0000 * g <= a < 0x0020_0000_0000_0000 * g,
                g > 0,
        ;
        lemma_nearest_double_exact(m + 1);
        lemma_nearest_double_scales(m + 1, t);
        lemma_nearest_double_exact(m - 1);
        lemma_nearest_double_scales(m - 1, t);
        assert((m + 1) * g == a + g && (m - 1) * g == a - g) by (nonlinear_arith)
            requires
                a == m * g,
        ;
        // one step down is at most one binade down
        let low = a - g;
        lemma_pow2_unfold(t);
        let h = pow2((t - 1) as nat) as int;
        lemma_pow2_pos((t - 1) as nat);
        lemma_pow2_adds(52, (t - 1) as nat);
        assert(low >= 0x0010_0000_0000_0000 * h) by (nonlinear_arith)
            requires
                low == (m - 1) * g,
                g == 2 * h,
                m >= 0x0010_0000_0000_0000,
                h > 0,
        ;
        lemma_excess_bits_range(low);
        let u = excess_bits(low);
        if u + 1 < t {
            // then low would be below 2^(52 + t - 1)
            if u == 0 {
                if 53 < 52 + t - 1 {
                    lemma_pow2_strictly_increases(53, (52 + t - 1) as nat);
                }
            } else {
                if 53 + u < 52 + t - 1 {
                    lemma_pow2_strictly_increases(53 + u, (52 + t - 1) as nat);
                }
            }
            assert(false);
        }
    }
}

/// A larger number has at least as many excess bits.
pub proof fn lemma_excess_bits_monotone(x: int, y: int)
    requires
        0 <= x <= y,
    ensures
        excess_bits(x) <= excess_bits(y),
{
    let t = excess_bits(x);
    let u = excess_bits(y);
    lemma_excess_bits_range(x);
    lemma_excess_bits_range(y);
    if u < t {
        if u == 0 {
            if 53 < 52 + t {
                lemma_pow2_strictly_increases(53, 52 + t);
            }
        } else {
            if 53 + u < 52 + t {
                lemma_pow2_strictly_increases(53 + u, 52 + t);
            }
        }
        assert(false);
    }
}

/// What comes back where the sum is rounded by at most one step of `alpha`:
/// a double within a step of `alpha`.
proof fn lemma_cancel_near(alpha: int, delta: int)
    requires
        0 < alpha,
        nearest_double(alpha) == alpha,
        alpha - step_at(alpha) <= delta <= alpha + step_at(alpha),
        0 < delta,
    ensures
        0 < nearest_double(delta),
        nearest_double(delta) >= alpha ==> nearest_double(delta) - alpha <= 2 * step_at(alpha),
        nearest_double(delta) < alpha ==> alpha - nearest_double(delta) <= 2 * step_at(
            nearest_double(delta),
        ),
        nearest_double(nearest_double(delta)) == nearest_double(delta),
{
    let g = step_at(alpha);
    let t = excess_bits(alpha);
    let rho = nearest_double(delta);
    lemma_neighbours(alpha);
    lemma_nearest_double_between(delta, alpha - g, alpha + g);
    lemma_nearest_double_idempotent(delta);
    lemma2_to64();
    if rho == 0 {
        // zero is nearest only to numbers at most one half
        lemma_nearest_double_exact(1);
        lemma_nearest_double_is_nearest(delta, 1);
        assert(false);
    }
    if rho < alpha {
        lemma_excess_bits_monotone(alpha - g, rho);
        let u = excess_bits(rho);
        if t >= 1 {
            lemma_pow2_unfold(t);
            if u + 1 > t {
                lemma_pow2_strictly_increases((t - 1) as nat, u);
            }
        } else {
            lemma_pow2_pos(u);
        }
    }
}

/// What comes back where the sum is two binades above `alpha`: the sum is
/// then rounded by up to two steps of `alpha`, but what comes back is a
/// double itself, two steps from `alpha` at the most.
proof fn lemma_cancel_far(alpha: int, beta: int)
    requires
        0 < alpha,
        nearest_double(alpha) == alpha,
        0 < beta <= 2 * alpha,
        nearest_double(beta) == beta,
        excess_bits(alpha + beta) == excess_bits(alpha) + 2,
    ensures
        ({
            let delta = nearest_double(alpha + beta) - beta;
            &&& 0 < delta
            &&& nearest_double(delta) == delta
            &&& delta >= alpha ==> delta - alpha <= 2 * step_at(alpha)
            &&& delta < alpha ==> alpha - delta <= 2 * step_at(delta)
        }),
{
    let t = excess_bits(alpha);
    let g = step_at(alpha);
    let n = alpha + beta;
    let sigma = nearest_double(n);
    let delta = sigma - beta;
    lemma2_to64();
    lemma2_to64_rest();
    lemma_pow2_pos(t);
    lemma_excess_bits_range(alpha);
    lemma_excess_bits_range(n);
    lemma_neighbours(alpha);
    lemma_neighbours(beta);
    lemma_round_half_even_near(n, t + 2);
    lemma_pow2_adds(2, t);
    lemma_pow2_adds(1, t);
    lemma_pow2_adds(52, t);
    lemma_pow2_adds(53, t);
    lemma_pow2_adds(54, t);
    let bottom = pow2(52 + t) as int;
    assert(pow2(t + 2) == 4 * g);
    assert(pow2(52 + t + 2) == 4 * bottom);
    assert(pow2(53 + t) == 2 * bottom);
    assert(bottom == 0x0010_0000_0000_0000 * g);
    assert(alpha < 2 * bottom) by {
        if t == 0 {
            assert(bottom == 0x0010_0000_0000_0000);
        }
    }
    assert(n >= 4 * bottom);
    // beta lies a binade above alpha at the least, so it is a whole number
    // of double steps
    assert(beta > 2 * bottom);
    let u = excess_bits(beta);
    lemma_excess_bits_range(beta);
    assert(u >= t + 1) by {
        if u < t + 1 {
            if u == 0 {
                if 53 < 53 + t {
                    lemma_pow2_strictly_increases(53, 53 + t);
                }
            } else {
                if 53 + u < 53 + t {
                    lemma_pow2_strictly_increases(53 + u, 53 + t);
                }
            }
            assert(false);
        }
    }
    let gb = pow2(u) as int;
    lemma_fundamental_div_mod(beta, gb);
    let kb = beta / gb;
    assert(beta == kb * gb) by (nonlinear_arith)
        requires
            beta == gb * kb + beta % gb,
            beta % gb == 0,
    ;
    assert(kb >= 0) by (nonlinear_arith)
        requires
            beta == kb * gb,
            beta > 0,
            gb > 0,
    ;
    lemma_multiple_of_smaller_power(kb, u, t + 1);
    let two = 2 * g;
    assert(pow2(t + 1) == two);
    assert(beta % two == 0);
    // and so is the rounded sum
    let gs = 4 * g;
    lemma_fundamental_div_mod(sigma, gs);
    let ks = sigma / gs;
    assert(sigma == (2 * ks) * two) by (nonlinear_arith)
        requires
            sigma == gs * ks + sigma % gs,
            sigma % gs == 0,
            gs == 2 * two,
    ;
    lemma_fundamental_div_mod(beta, two);
    let jb = beta / two;
    assert(beta == jb * two) by (nonlinear_arith)
        requires
            beta == two * jb + beta % two,
            beta % two == 0,
    ;
    let k = 2 * ks - jb;
    assert(delta == k * two) by (nonlinear_arith)
        requires
            delta == sigma - beta,
            sigma == (2 * ks) * two,
            beta == jb * two,
            k == 2 * ks - jb,
    ;
    // what comes back is within two steps of alpha, and in its binade
    assert(alpha - two <= delta <= alpha + two);
    assert(3 * alpha >= 4 * bottom);
    assert(delta >= bottom) by (nonlinear_arith)
        requires
            delta >= alpha - 2 * g,
            3 * alpha >= 4 * bottom,
            bottom == 0x0010_0000_0000_0000 * g,
            g >= 1,
    ;
    assert(delta <= 2 * bottom) by (nonlinear_arith)
        requires
            delta == k * two,
            delta <= alpha + two,
            alpha < 2 * bottom,
            2 * bottom == 0x0010_0000_0000_0000 * two,
            two > 0,
    ;
    // so it is a double
    let m = 2 * k;
    assert(delta == m * g) by (nonlinear_arith)
        requires
            delta == k * two,
            two == 2 * g,
            m == 2 * k,
    ;
    assert(0 <= m <= 0x0020_0000_0000_0000) by (nonlinear_arith)
        requires
            delta == m * g,
            bottom <= delta <= 2 * bottom,
            bottom == 0x0010_0000_0000_0000 * g,
            g > 0,
    ;
    lemma_nearest_double_exact(m);
    lemma_nearest_double_scales(m, t);
    if delta < alpha {
        lemma_excess_bits_monotone(bottom, delta);
        lemma_excess_bits_is(bottom, t);
        lemma_excess_bits_monotone(delta, alpha);
    }
}

/// Adding `beta` to a double `alpha` and taking it away again, each time
/// rounding to a double, where `beta` is a double, of either sign, at most
/// twice as large as `alpha`: what comes back is positive, and at most two
/// steps above `alpha` or two of its own steps below.
pub proof fn lemma_cancel_bounds(alpha: int, beta: int)
    requires
        0 < alpha,
        nearest_double(alpha) == alpha,
        -2 * alpha <= beta <= 2 * alpha,
        nearest_signed(beta) == beta,
    ensures
        ({
            let delta = nearest_signed(alpha + beta) - beta;
            let rho = nearest_double(delta);
            &&& 0 < delta
            &&& 0 < rho
            &&& nearest_double(rho) == rho
            &&& rho >= alpha ==> rho - alpha <= 2 * step_at(alpha)
            &&& rho < alpha ==> alpha - rho <= 2 * step_at(rho)
        }),
{
    let t = excess_bits(alpha);
    let g = step_at(alpha);
    let nu = alpha + beta;
    let n = if nu < 0 {
        -nu
    } else {
        nu
    };
    let u = excess_bits(n);
    let sigma = nearest_signed(nu);
    let delta = sigma - beta;
    lemma2_to64();
    lemma2_to64_rest();
    lemma_pow2_pos(t);
    lemma_pow2_pos(u);
    lemma_excess_bits_range(alpha);
    lemma_excess_bits_range(n);
    lemma_neighbours(alpha);
    lemma_round_half_even_near(n, u);
    // the sum has at most two excess bits more than alpha
    lemma_pow2_adds(55, t);
    lemma_pow2_adds(53, t);
    assert(n <= 3 * alpha);
    assert(u <= t + 2) by {
        if u > t + 2 {
            if 52 + u > 55 + t {
                lemma_pow2_strictly_increases(55 + t, 52 + u);
            }
            if t == 0 {
                assert(alpha < 0x0020_0000_0000_0000);
            }
            assert(false);
        }
    }
    if u == t + 2 {
        // only a positive beta takes the sum that far
        lemma_pow2_adds(54, t);
        assert(n >= pow2(54 + t));
        assert(beta > 0);
        lemma_cancel_far(alpha, beta);
        lemma_nearest_double_idempotent(delta);
    } else {
        // the sum is rounded by at most one step of alpha
        if u > 0 {
            lemma_pow2_unfold(u);
        }
        if u < t + 1 {
            lemma_pow2_strictly_increases(u, t + 1);
        }
        lemma_pow2_unfold(t + 1);
        assert(pow2(u) <= 2 * g);
        assert(alpha - g <= delta <= alpha + g);
        assert(delta > 0) by {
            if delta <= 0 {
                // alpha is one step, so one unit, and the sum was not rounded
                assert(alpha == g);
                lemma_pow2_adds(52, t);
                assert(t == 0);
                assert(n <= 3);
                assert(u == 0);
                assert(false);
            }
        }
        lemma_cancel_near(alpha, delta);
    }
}

/// The step above a finite scalar without the sign bit is the step of its
/// magnitude.
pub proof fn lemma_grain_is_step(a: Scalar)
    requires
        a.is_finite(),
    ensures
        grain_of(a) == step_at(a.magnitude()),
{
    let e = a.exponent_field();
    let f = a.fraction_field() as int;
    lemma2_to64();
    lemma2_to64_rest();
    if e == 0 {
        lemma_excess_bits_is(f, 0);
    } else {
        let j = (e - 1) as nat;
        let m = HIDDEN_BIT + f;
        lemma_pow2_pos(j);
        lemma_pow2_adds(52, j);
        lemma_pow2_adds(53, j);
        assert(0x0010_0000_0000_0000 * pow2(j) <= m * pow2(j) < 0x0020_0000_0000_0000 * pow2(j))
            by (nonlinear_arith)
            requires
                0x0010_0000_0000_0000 <= m < 0x0020_0000_0000_0000,
                pow2(j) > 0,
        ;
        if j == 0 {
            assert(m * pow2(0) == m) by (nonlinear_arith)
                requires
                    pow2(0) == 1,
            ;
        }
        lemma_excess_bits_is(a.magnitude(), j);
    }
}

/// Whether `b` weighs little enough against `a` to be added and taken away
/// again: both are finite, `b` is at most twice as large as `a`, and
/// neither the sum nor what comes back is beyond the largest double.
pub open spec fn is_balanced(a: Scalar, b: Scalar) -> bool {
    &&& a.is_finite()
    &&& b.is_finite()
    &&& b.magnitude() <= 2 * a.magnitude()
    &&& sum_of(a, b).is_finite()
    &&& difference_of(sum_of(a, b), b).is_finite()
}

/// Two finite scalars of the same sign are equal within tolerance where
/// the larger in magnitude is at most two steps of the smaller away.
pub proof fn lemma_same_sign_near(a: Scalar, b: Scalar)
    requires
        a.is_finite(),
        b.is_finite(),
        a.is_negative() == b.is_negative(),
        a.magnitude() <= b.magnitude() <= a.magnitude() + 2 * step_at(a.magnitude()),
    ensures
        a.approx_eq_spec(b),
        b.approx_eq_spec(a),
{
    let x = a.absolute();
    let y = b.absolute();
    lemma_with_sign_fields(a, false);
    lemma_with_sign_fields(b, false);
    assert(x == a.with_sign(false));
    assert(y == b.with_sign(false));
    lemma_grain_is_step(x);
    lemma_near_values_approx_eq(x, y);
    if a.is_negative() {
        lemma_negated_distance(x, y);
        assert(x.negated() == a);
        assert(y.negated() == b);
    } else {
        assert(x == a);
        assert(y == b);
    }
}

/// What comes back where `a` is a zero: `b` is a zero too, and so is what
/// comes back.
proof fn lemma_cancel_of_zero(a: Scalar, b: Scalar)
    requires
        a.is_zero(),
        b.is_zero(),
    ensures
        difference_of(sum_of(a, b), b).approx_eq_spec(a),
{
    let zero = Scalar { bits: ZERO_BITS };
    let s = sum_of(a, b);
    let back = difference_of(s, b);
    lemma_magnitude_is_double(a);
    lemma_magnitude_is_double(b);
    lemma_negated_fields(b);
    assert(zero.exponent_field() == 0 && zero.fraction_field() == 0);
    lemma_with_sign_fields(zero, a.is_negative() && b.is_negative());
    assert(s.is_zero());
    lemma_magnitude_is_double(s);
    lemma_with_sign_fields(zero, s.is_negative() && b.negated().is_negative());
    assert(back.is_zero());
    lemma_zero_and_infinite_bits(a);
    lemma_zero_and_infinite_bits(back);
}

/// Rounding with the sign goes with the sign: the rounded negative is the
/// negative of the rounded.
pub proof fn lemma_nearest_signed_odd(n: int)
    ensures
        nearest_signed(-n) == -nearest_signed(n),
{
    lemma_nearest_double_exact(0);
}

/// What comes back where `a` is not zero: a finite scalar with the sign of
/// `a`, at most two steps of `a` above it in magnitude, or two of its own
/// steps below.
proof fn lemma_cancel_of_finite(a: Scalar, b: Scalar)
    requires
        a.is_finite(),
        !a.is_zero(),
        b.is_finite(),
        b.magnitude() <= 2 * a.magnitude(),
        sum_of(a, b).is_finite(),
        difference_of(sum_of(a, b), b).is_finite(),
    ensures
        ({
            let back = difference_of(sum_of(a, b), b);
            let alpha = a.magnitude();
            let rho = back.magnitude();
            &&& back.is_negative() == a.is_negative()
            &&& rho >= alpha ==> rho - alpha <= 2 * step_at(alpha)
            &&& rho < alpha ==> alpha - rho <= 2 * step_at(rho)
        }),
{
    let s = sum_of(a, b);
    let back = difference_of(s, b);
    let alpha = a.magnitude();
    let beta = if a.is_negative() == b.is_negative() {
        b.magnitude()
    } else {
        -b.magnitude()
    };
    let nu = alpha + beta;
    let sigma = nearest_signed(nu);
    let delta = sigma - beta;
    let rho = nearest_double(delta);
    lemma_magnitude_is_double(a);
    lemma_magnitude_is_double(b);
    assert(nearest_signed(beta) == beta);
    lemma_cancel_bounds(alpha, beta);
    assert(delta > 0 && rho > 0);
    assert(nearest_signed(delta) == rho);
    // the value of the sum
    lemma_units_of_sum(a, b);
    lemma_nearest_signed_odd(nu);
    let turned = if a.is_negative() {
        -sigma
    } else {
        sigma
    };
    assert(a.units() + b.units() == if a.is_negative() {
        -nu
    } else {
        nu
    });
    assert(s.units() == turned);
    // the value of what comes back
    lemma_negated_fields(b);
    assert(b.negated().is_finite());
    assert(b.negated().units() == -b.units());
    lemma_units_of_sum(s, b.negated());
    lemma_nearest_signed_odd(delta);
    assert(s.units() + b.negated().units() == if a.is_negative() {
        -delta
    } else {
        delta
    });
    assert(back.units() == if a.is_negative() {
        -rho
    } else {
        rho
    });
    lemma_magnitude_is_double(back);
    assert(back.magnitude() == rho);
    assert(back.is_negative() == a.is_negative());
}

/// Adding and taking away again: where `b` is at most twice as large as
/// `a`, and neither the sum nor what comes back is beyond the largest
/// double, taking `b` from the sum of `a` and `b` gives `a` back within
/// tolerance.
pub proof fn lemma_sum_then_difference_within_tolerance(a: Scalar, b: Scalar)
    requires
        is_balanced(a, b),
    ensures
        difference_of(sum_of(a, b), b).approx_eq_spec(a),
{
    let back = difference_of(sum_of(a, b), b);
    lemma_magnitude_is_double(a);
    lemma_magnitude_is_double(b);
    if a.is_zero() {
        lemma_cancel_of_zero(a, b);
    } else {
        lemma_cancel_of_finite(a, b);
        if back.magnitude() >= a.magnitude() {
            lemma_same_sign_near(a, back);
        } else {
            lemma_same_sign_near(back, a);
        }
    }
}

/// The value of the sum of two finite scalars, where it is finite: the
/// exact sum, rounded with its sign.
pub proof fn lemma_units_of_sum(a: Scalar, b: Scalar)
    requires
        a.is_finite(),
        b.is_finite(),
        sum_of(a, b).is_finite(),
    ensures
        sum_of(a, b).units() == nearest_signed(a.units() + b.units()),
        a.units() + b.units() != 0 ==> sum_of(a, b).is_negative() == (a.units() + b.units() < 0),
{
    let n = a.units() + b.units();
    let size = if n < 0 {
        -n
    } else {
        n
    };
    lemma2_to64();
    if n == 0 {
        lemma_with_sign_fields(Scalar { bits: ZERO_BITS }, a.is_negative() && b.is_negative());
        assert((Scalar { bits: ZERO_BITS }).exponent_field() == 0);
        assert((Scalar { bits: ZERO_BITS }).fraction_field() == 0);
        lemma_nearest_double_exact(0);
    } else {
        let r = nearest_double(size);
        lemma_nearest_double_idempotent(size);
        assert(0x7FF0_0000_0000_0000u64 / 0x0010_0000_0000_0000 % 0x800 == 0x7FF) by (bit_vector);
        lemma_with_sign_fields(encoded(r), n < 0);
        if r >= overflow_limit() {
            assert(encoded(r).bits == INFINITY_BITS);
            assert(false);
        }
        lemma_encoded_holds(r);
        // a sum that is not zero does not round to zero
        if r == 0 {
            lemma_nearest_double_exact(1);
            lemma_nearest_double_is_nearest(size, 1);
            assert(false);
        }
    }
}

} // verus!
