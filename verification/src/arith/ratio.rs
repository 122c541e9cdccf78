//! Rounding a ratio of two whole numbers to the precision of a double.

use crate::arith::encode::nearest_double_scaled;
use crate::arith::rounding::excess_bits;
use crate::arith::rounding::lemma_excess_bits_is;
use crate::arith::rounding::lemma_excess_bits_range;
use crate::arith::rounding::lemma_multiple_of_smaller_power;
use crate::arith::rounding::lemma_nearest_double_scales;
use crate::arith::rounding::lemma_round_half_even_near;
use crate::arith::rounding::nearest_double;
use crate::arith::rounding::round_half_even;
use vstd::arithmetic::div_mod::lemma_breakdown;
use vstd::arithmetic::div_mod::lemma_div_by_multiple;
use vstd::arithmetic::div_mod::lemma_div_denominator;
use vstd::arithmetic::div_mod::lemma_div_is_ordered;
use vstd::arithmetic::div_mod::lemma_div_multiples_vanish_quotient;
use vstd::arithmetic::div_mod::lemma_fundamental_div_mod;
use vstd::arithmetic::div_mod::lemma_fundamental_div_mod_converse;
use vstd::arithmetic::div_mod::lemma_mod_bound;
use vstd::arithmetic::div_mod::lemma_multiply_divide_lt;
use vstd::arithmetic::div_mod::lemma_truncate_middle;
use vstd::arithmetic::power2::lemma2_to64;
use vstd::arithmetic::power2::lemma2_to64_rest;
use vstd::arithmetic::power2::lemma_pow2_adds;
use vstd::arithmetic::power2::lemma_pow2_pos;
use vstd::arithmetic::power2::lemma_pow2_strictly_increases;
use vstd::arithmetic::power2::lemma_pow2_unfold;
use vstd::arithmetic::power2::pow2;
use vstd::prelude::*;

verus! {

/// `num / den` rounded to a multiple of 2^t: to the nearest one, and from
/// the middle between two to the even one.
pub open spec fn round_ratio_half_even(num: int, den: int, t: nat) -> int {
    let g = den * pow2(t);
    let q = num / g;
    let r = num % g;
    if 2 * r > g || (2 * r == g && q % 2 == 1) {
        (q + 1) * pow2(t)
    } else {
        q * pow2(t)
    }
}

/// `num / den` rounded to 53 significant bits: the double nearest to that
/// many units, where no double is too large to hold it.
pub open spec fn nearest_double_ratio(num: int, den: int) -> int {
    round_ratio_half_even(num, den, excess_bits(num / den))
}

/// Among the multiples of 2^t none is nearer to `num / den` than the one
/// that rounding gives. Distances are counted in parts of `den`.
pub proof fn lemma_round_ratio_is_nearest(num: int, den: int, t: nat, k: int)
    requires
        0 <= num,
        0 < den,
    ensures
        ({
            let r = round_ratio_half_even(num, den, t) * den;
            let x = k * pow2(t) * den;
            &&& r - num <= x - num || r - num <= num - x
            &&& num - r <= x - num || num - r <= num - x
        }),
{
    let c = pow2(t) as int;
    let g = den * c;
    lemma_pow2_pos(t);
    assert(g > 0) by (nonlinear_arith)
        requires
            g == den * c,
            den > 0,
            c > 0,
    ;
    lemma_fundamental_div_mod(num, g);
    lemma_mod_bound(num, g);
    let q = num / g;
    assert(((q + 1) * c) * den == g * q + g) by (nonlinear_arith)
        requires
            g == den * c,
    ;
    assert((q * c) * den == g * q) by (nonlinear_arith)
        requires
            g == den * c,
    ;
    assert(k * c * den == k * g) by (nonlinear_arith)
        requires
            g == den * c,
    ;
    if k <= q {
        assert(k * g <= g * q) by (nonlinear_arith)
            requires
                k <= q,
                g > 0,
        ;
    } else {
        assert(k * g >= g * q + g) by (nonlinear_arith)
            requires
                k >= q + 1,
                g > 0,
        ;
    }
}

/// No double is nearer to `num / den` than the one that
/// `nearest_double_ratio` gives: a number `d` that rounding leaves alone is
/// at least as far from the ratio. Distances are counted in parts of `den`.
pub proof fn lemma_nearest_double_ratio_is_nearest(num: int, den: int, d: int)
    requires
        0 <= num,
        0 < den,
        0 <= d,
        nearest_double(d) == d,
    ensures
        ({
            let r = nearest_double_ratio(num, den) * den;
            let x = d * den;
            &&& r - num <= x - num || r - num <= num - x
            &&& num - r <= x - num || num - r <= num - x
        }),
{
    let whole = num / den;
    let t = excess_bits(whole);
    let u = excess_bits(d);
    let c = pow2(t) as int;
    lemma2_to64();
    lemma2_to64_rest();
    lemma_pow2_pos(t);
    lemma_pow2_pos(u);
    lemma_fundamental_div_mod(num, den);
    lemma_mod_bound(num, den);
    assert(whole >= 0) by (nonlinear_arith)
        requires
            num == den * whole + num % den,
            0 <= num % den < den,
            0 <= num,
    ;
    lemma_excess_bits_range(whole);
    lemma_excess_bits_range(d);
    lemma_round_half_even_near(d, u);
    if u >= t {
        let g = pow2(u) as int;
        lemma_fundamental_div_mod(d, g);
        let k = d / g;
        assert(d == k * g) by (nonlinear_arith)
            requires
                d == g * k + d % g,
                d % g == 0,
        ;
        assert(k >= 0) by (nonlinear_arith)
            requires
                d == k * g,
                d >= 0,
                g > 0,
        ;
        lemma_multiple_of_smaller_power(k, u, t);
        let j = k * pow2((u - t) as nat);
        assert(d == j * c) by {
            lemma_fundamental_div_mod(d, c);
            assert(d == c * j);
            assert(c * j == j * c) by (nonlinear_arith);
        }
        lemma_round_ratio_is_nearest(num, den, t, j);
    } else {
        if u >= 1 {
            if 53 + u < 52 + t {
                lemma_pow2_strictly_increases(53 + u, 52 + t);
            }
        } else if t > 1 {
            lemma_pow2_strictly_increases(53, 52 + t);
        }
        lemma_pow2_adds(52, t);
        let first = pow2(52 + t) as int;
        assert(d < first <= whole);
        assert(d * den < first * den <= num) by (nonlinear_arith)
            requires
                d < first <= whole,
                num == den * whole + num % den,
                0 <= num % den,
                den > 0,
        ;
        assert(0x0010_0000_0000_0000 * c * den == first * den) by (nonlinear_arith)
            requires
                first == 0x0010_0000_0000_0000 * c,
        ;
        lemma_round_ratio_is_nearest(num, den, t, 0x0010_0000_0000_0000);
    }
}

/// A factor common to both terms of the ratio does not change the rounded
/// value.
pub proof fn lemma_round_ratio_common_factor(num: int, den: int, c: int, t: nat)
    requires
        0 <= num,
        0 < den,
        0 < c,
    ensures
        round_ratio_half_even(num * c, den * c, t) == round_ratio_half_even(num, den, t),
        (num * c) / (den * c) == num / den,
        nearest_double_ratio(num * c, den * c) == nearest_double_ratio(num, den),
{
    lemma_common_factor_at(num, den, c, t);
    lemma_common_factor_at(num, den, c, excess_bits(num / den));
}

proof fn lemma_common_factor_at(num: int, den: int, c: int, t: nat)
    requires
        0 <= num,
        0 < den,
        0 < c,
    ensures
        round_ratio_half_even(num * c, den * c, t) == round_ratio_half_even(num, den, t),
        (num * c) / (den * c) == num / den,
{
    let p = pow2(t) as int;
    lemma_pow2_pos(t);
    let g = den * p;
    assert(g > 0) by (nonlinear_arith)
        requires
            g == den * p,
            den > 0,
            p > 0,
    ;
    assert((den * c) * p == c * g) by (nonlinear_arith)
        requires
            g == den * p,
    ;
    assert(num * c == c * num) by (nonlinear_arith);
    assert(den * c == c * den) by (nonlinear_arith);
    lemma_div_multiples_vanish_quotient(c, num, den);
    lemma_div_multiples_vanish_quotient(c, num, g);
    lemma_truncate_middle(num, c, g);
    let r = num % g;
    assert((2 * (c * r) > c * g) == (2 * r > g)) by (nonlinear_arith)
        requires
            c > 0,
    ;
    assert((2 * (c * r) == c * g) == (2 * r == g)) by (nonlinear_arith)
        requires
            c > 0,
    ;
}

/// Rounding a ratio goes by its whole quotient and by whether anything is
/// left over: with `x` twice the quotient, plus one where the division
/// leaves a remainder, the ratio rounds as half of `x` does.
pub proof fn lemma_round_ratio_by_remainder(num: int, den: int, u: nat)
    requires
        0 <= num,
        0 < den,
        u >= 1,
    ensures
        ({
            let x = 2 * (num / den) + if num % den != 0 {
                1int
            } else {
                0int
            };
            2 * round_ratio_half_even(num, den, u) == round_half_even(x, u + 1)
        }),
{
    let quotient = num / den;
    let rem = num % den;
    let s = if rem != 0 {
        1int
    } else {
        0int
    };
    let x = 2 * quotient + s;
    let c = pow2(u) as int;
    let half = pow2((u - 1) as nat) as int;
    lemma_pow2_pos(u);
    lemma_pow2_pos((u - 1) as nat);
    lemma_pow2_unfold(u);
    lemma_pow2_unfold(u + 1);
    assert(c == 2 * half);
    let g = den * c;
    assert(g > 0) by (nonlinear_arith)
        requires
            g == den * c,
            den > 0,
            c > 0,
    ;
    lemma_fundamental_div_mod(num, den);
    lemma_mod_bound(num, den);
    assert(quotient >= 0) by (nonlinear_arith)
        requires
            num == den * quotient + rem,
            0 <= rem < den,
            0 <= num,
    ;
    lemma_div_denominator(num, den, c);
    lemma_breakdown(num, den, c);
    let q = quotient / c;
    let h = quotient % c;
    lemma_fundamental_div_mod(quotient, c);
    lemma_mod_bound(quotient, c);
    assert(num / g == q);
    assert(num % g == den * h + rem);
    let r = den * h + rem;
    // the same on the side of x
    assert(x == q * (2 * c) + (2 * h + s)) by (nonlinear_arith)
        requires
            x == 2 * quotient + s,
            quotient == c * q + h,
    ;
    lemma_fundamental_div_mod_converse(x, 2 * c, q, 2 * h + s);
    assert(pow2(u + 1) == 2 * c);
    // which way each side goes
    if h > half {
        assert(2 * r > g) by (nonlinear_arith)
            requires
                r == den * h + rem,
                g == den * c,
                c == 2 * half,
                h >= half + 1,
                den > 0,
                rem >= 0,
        ;
    } else if h == half {
        assert(2 * r == g + 2 * rem) by (nonlinear_arith)
            requires
                r == den * h + rem,
                g == den * c,
                c == 2 * half,
                h == half,
        ;
    } else {
        assert(2 * r < g) by (nonlinear_arith)
            requires
                r == den * h + rem,
                g == den * c,
                c == 2 * half,
                h <= half - 1,
                den > rem,
                rem >= 0,
        ;
    }
    assert((q + 1) * (2 * c) == 2 * ((q + 1) * c)) by (nonlinear_arith);
    assert(q * (2 * c) == 2 * (q * c)) by (nonlinear_arith);
}

/// A power of two in the numerator comes out of the rounding, where the
/// grain goes up with it.
pub proof fn lemma_round_ratio_scales(num: int, den: int, t: nat, k: nat)
    requires
        0 <= num,
        0 < den,
    ensures
        round_ratio_half_even(num * pow2(k), den, t + k) == round_ratio_half_even(num, den, t)
            * pow2(k),
{
    let b = pow2(k) as int;
    let p = pow2(t) as int;
    lemma_pow2_pos(k);
    lemma_pow2_pos(t);
    lemma_pow2_adds(t, k);
    let g = den * p;
    assert(g > 0) by (nonlinear_arith)
        requires
            g == den * p,
            den > 0,
            p > 0,
    ;
    assert(den * pow2(t + k) == b * g) by (nonlinear_arith)
        requires
            g == den * p,
            pow2(t + k) == p * b,
    ;
    assert(num * b == b * num) by (nonlinear_arith);
    lemma_div_multiples_vanish_quotient(b, num, g);
    lemma_truncate_middle(num, b, g);
    let q = num / g;
    let r = num % g;
    assert((2 * (b * r) > b * g) == (2 * r > g)) by (nonlinear_arith)
        requires
            b > 0,
    ;
    assert((2 * (b * r) == b * g) == (2 * r == g)) by (nonlinear_arith)
        requires
            b > 0,
    ;
    assert((q + 1) * (p * b) == ((q + 1) * p) * b) by (nonlinear_arith);
    assert(q * (p * b) == (q * p) * b) by (nonlinear_arith);
}

/// A power of two in the denominator can be counted into the grain.
pub proof fn lemma_round_ratio_moves_grain(num: int, den: int, d: nat, t: nat)
    requires
        0 <= num,
        0 < den,
    ensures
        round_ratio_half_even(num, den * pow2(d), t) * pow2(d) == round_ratio_half_even(
            num,
            den,
            d + t,
        ),
{
    let b = pow2(d) as int;
    let p = pow2(t) as int;
    lemma_pow2_pos(d);
    lemma_pow2_pos(t);
    lemma_pow2_adds(d, t);
    assert((den * b) * p == den * pow2(d + t)) by (nonlinear_arith)
        requires
            pow2(d + t) == b * p,
    ;
    let g = den * pow2(d + t);
    let q = num / g;
    assert((q + 1) * p * b == (q + 1) * pow2(d + t)) by (nonlinear_arith)
        requires
            pow2(d + t) == b * p,
    ;
    assert(q * p * b == q * pow2(d + t)) by (nonlinear_arith)
        requires
            pow2(d + t) == b * p,
    ;
}

/// Dividing by 2^d takes d excess bits away, as far as there are any.
pub proof fn lemma_excess_bits_of_quotient(n: int, d: nat)
    requires
        0 <= n,
    ensures
        excess_bits(n / (pow2(d) as int)) == if excess_bits(n) >= d {
            (excess_bits(n) - d) as nat
        } else {
            0
        },
{
    let t = excess_bits(n);
    let b = pow2(d) as int;
    let m = n / b;
    lemma_pow2_pos(d);
    lemma_excess_bits_range(n);
    lemma2_to64();
    lemma2_to64_rest();
    lemma_fundamental_div_mod(n, b);
    lemma_mod_bound(n, b);
    assert(m >= 0) by (nonlinear_arith)
        requires
            n == b * m + n % b,
            0 <= n % b < b,
            0 <= n,
    ;
    if t > d {
        let u = (t - d) as nat;
        lemma_pow2_adds(52 + u, d);
        lemma_pow2_adds(53 + u, d);
        lemma_div_is_ordered(pow2(52 + u) * b, n, b);
        lemma_div_by_multiple(pow2(52 + u) as int, b);
        assert(b * pow2(53 + u) == pow2(53 + u) * b) by (nonlinear_arith);
        lemma_multiply_divide_lt(n, b, pow2(53 + u) as int);
        lemma_excess_bits_is(m, u);
    } else {
        // n is below 2^(53 + d)
        lemma_pow2_adds(53, d);
        if t >= 1 && t < d {
            lemma_pow2_strictly_increases(53 + t, 53 + d);
        }
        if t == 0 && d > 0 {
            lemma_pow2_strictly_increases(53, 53 + d);
        }
        assert(n < pow2(53) * b);
        assert(b * pow2(53) == pow2(53) * b) by (nonlinear_arith);
        lemma_multiply_divide_lt(n, b, pow2(53) as int);
        lemma_excess_bits_is(m, 0);
    }
}

/// The double nearest to a ratio times a power of two, from the whole
/// quotient of the ratio and whether the division leaves a remainder. With
/// `x` twice the quotient, plus one where something is left over, the
/// ratio times 2^k rounds as `x` times 2^(k - 1) does. The quotient has to
/// be longer than a significand.
pub proof fn lemma_nearest_ratio_by_remainder(num: int, den: int, k: int)
    requires
        0 <= num,
        0 < den,
        num / den >= 0x0020_0000_0000_0000,
    ensures
        ({
            let x = 2 * (num / den) + if num % den != 0 {
                1int
            } else {
                0int
            };
            &&& k >= 0 ==> nearest_double_ratio(num * pow2(k as nat), den)
                == nearest_double_scaled(x, k - 1)
            &&& k < 0 ==> nearest_double_ratio(num, den * pow2((-k) as nat))
                == nearest_double_scaled(x, k - 1)
        }),
{
    let quotient = num / den;
    let rem = num % den;
    let x = 2 * quotient + if rem != 0 {
        1int
    } else {
        0int
    };
    let t = excess_bits(quotient);
    lemma2_to64();
    lemma2_to64_rest();
    lemma_excess_bits_range(quotient);
    lemma_fundamental_div_mod(num, den);
    lemma_mod_bound(num, den);
    assert(t >= 1);
    // x is one bit longer than the quotient
    lemma_pow2_unfold(53 + t);
    lemma_pow2_unfold(54 + t);
    lemma_excess_bits_is(x, t + 1);
    if k >= 0 {
        let b = pow2(k as nat) as int;
        lemma_pow2_pos(k as nat);
        // the scaled quotient lies between the quotient and the next, scaled
        let scaled = (num * b) / den;
        assert(quotient * b * den <= num * b < (quotient + 1) * b * den) by (nonlinear_arith)
            requires
                num == den * quotient + rem,
                0 <= rem < den,
                b > 0,
        ;
        lemma_div_is_ordered(quotient * b * den, num * b, den);
        assert(quotient * b >= 0) by (nonlinear_arith)
            requires
                quotient >= 0,
                b > 0,
        ;
        lemma_div_by_multiple(quotient * b, den);
        assert(den * ((quotient + 1) * b) == (quotient + 1) * b * den) by (nonlinear_arith);
        lemma_multiply_divide_lt(num * b, den, (quotient + 1) * b);
        lemma_pow2_adds(52 + t, k as nat);
        lemma_pow2_adds(53 + t, k as nat);
        assert(pow2(52 + t) * b <= quotient * b) by (nonlinear_arith)
            requires
                pow2(52 + t) <= quotient,
                b > 0,
        ;
        assert((quotient + 1) * b <= pow2(53 + t) * b) by (nonlinear_arith)
            requires
                quotient + 1 <= pow2(53 + t),
                b > 0,
        ;
        lemma_excess_bits_is(scaled, t + k as nat);
        lemma_round_ratio_scales(num, den, t, k as nat);
        lemma_round_ratio_by_remainder(num, den, t);
        let rr = round_ratio_half_even(num, den, t);
        let rx = round_half_even(x, t + 1);
        assert(2 * rr == rx);
        if k >= 1 {
            let up = (k - 1) as nat;
            lemma_nearest_double_scales(x, up);
            lemma_pow2_unfold(k as nat);
            assert(rr * b == rx * pow2(up)) by (nonlinear_arith)
                requires
                    2 * rr == rx,
                    b == 2 * pow2(up),
            ;
            assert(nearest_double_ratio(num * b, den) == rr * b);
            assert(nearest_double_scaled(x, k - 1) == nearest_double(x * pow2(up)));
            assert(nearest_double(x) == rx);
        } else {
            assert(pow2(0) == 1);
            assert(pow2(1) == 2);
            assert(rr * b == rr) by (nonlinear_arith)
                requires
                    b == 1,
            ;
            assert(num * b == num) by (nonlinear_arith)
                requires
                    b == 1,
            ;
            assert(nearest_double_ratio(num * b, den) == rr);
            assert(nearest_double_scaled(x, k - 1) == rx / (pow2(1) as int));
        }
    } else {
        let d = (-k) as nat;
        let b = pow2(d) as int;
        lemma_pow2_pos(d);
        let u = if t >= d {
            t
        } else {
            d
        };
        let low = if t >= d {
            (t - d) as nat
        } else {
            0nat
        };
        assert(den * b > 0) by (nonlinear_arith)
            requires
                den > 0,
                b > 0,
        ;
        lemma_div_denominator(num, den, b);
        lemma_excess_bits_of_quotient(quotient, d);
        assert(excess_bits(num / (den * b)) == low);
        lemma_round_ratio_moves_grain(num, den, d, low);
        lemma_round_ratio_by_remainder(num, den, u);
        let left = round_ratio_half_even(num, den * b, low);
        let rr = round_ratio_half_even(num, den, u);
        let rx = round_half_even(x, u + 1);
        assert(left * b == rr);
        assert(2 * rr == rx);
        lemma_pow2_unfold(d + 1);
        assert(rx == left * pow2(d + 1)) by (nonlinear_arith)
            requires
                rx == 2 * rr,
                rr == left * b,
                pow2(d + 1) == 2 * b,
        ;
        lemma_pow2_pos(d + 1);
        assert(left >= 0) by {
            lemma_round_half_even_near(x, u + 1);
            assert(left >= 0) by (nonlinear_arith)
                requires
                    rx == left * pow2(d + 1),
                    rx >= 0,
                    pow2(d + 1) > 0,
            ;
        }
        lemma_div_by_multiple(left, pow2(d + 1) as int);
        assert(nearest_double_ratio(num, den * b) == left);
        assert(nearest_double_scaled(x, k - 1) == rx / (pow2(d + 1) as int));
    }
}

} // verus!
