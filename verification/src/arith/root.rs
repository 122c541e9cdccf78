//! The square root of a scalar: the exact root, rounded once.

use crate::arith::encode::encoded;
use crate::arith::encode::lemma_encoded_holds;
use crate::arith::encode::lemma_holds_encoded;
use crate::arith::encode::lemma_magnitude_is_double;
use crate::arith::encode::lemma_nearest_double_scaled_shifts;
use crate::arith::encode::nearest_double_scaled;
use crate::arith::encode::nearest_raised;
use crate::arith::encode::overflow_limit;
use crate::arith::encode::power_of_two;
use crate::arith::product::product_of;
use crate::arith::rounding::excess_bits;
use crate::arith::rounding::lemma_excess_bits_is;
use crate::arith::rounding::lemma_excess_bits_range;
use crate::arith::rounding::lemma_multiple_of_smaller_power;
use crate::arith::rounding::lemma_nearest_double_exact;
use crate::arith::rounding::lemma_nearest_double_idempotent;
use crate::arith::rounding::lemma_nearest_double_scales;
use crate::arith::rounding::lemma_round_half_even_near;
use crate::arith::rounding::nearest_double;
use crate::arith::rounding::round_half_even;
use crate::scalar::HIDDEN_BIT;
use crate::scalar::lemma_with_sign_fields;
use crate::scalar::NAN_BITS;
use crate::scalar::Scalar;
use vstd::arithmetic::div_mod::lemma_div_by_multiple;
use vstd::arithmetic::div_mod::lemma_div_is_ordered;
use vstd::arithmetic::div_mod::lemma_div_multiples_vanish_quotient;
use vstd::arithmetic::div_mod::lemma_fundamental_div_mod;
use vstd::arithmetic::div_mod::lemma_fundamental_div_mod_converse;
use vstd::arithmetic::div_mod::lemma_mod_bound;
use vstd::arithmetic::div_mod::lemma_multiply_divide_lt;
use vstd::arithmetic::power2::lemma2_to64;
use vstd::arithmetic::power2::lemma2_to64_rest;
use vstd::arithmetic::power2::lemma_pow2_adds;
use vstd::arithmetic::power2::lemma_pow2_pos;
use vstd::arithmetic::power2::lemma_pow2_strictly_increases;
use vstd::arithmetic::power2::lemma_pow2_unfold;
use vstd::arithmetic::power2::pow2;
use vstd::prelude::*;

verus! {

/// The whole part of the square root of `n`: the largest r with r * r <= n.
pub open spec fn floor_root(n: int) -> int
    decreases n,
{
    if n <= 0 {
        0
    } else {
        let r = 2 * floor_root(n / 4);
        if (r + 1) * (r + 1) <= n {
            r + 1
        } else {
            r
        }
    }
}

/// The square root of `n` rounded to a multiple of 2^t: to the nearest one,
/// and from the middle between two to the even one. The root lies above
/// the middle between q and q + 1 grains where 4 n is above the square of
/// 2 q + 1 grains.
pub open spec fn round_root_half_even(n: int, t: nat) -> int {
    let c = pow2(t) as int;
    let q = floor_root(n / (c * c));
    let middle = (2 * q + 1) * (2 * q + 1) * (c * c);
    if 4 * n > middle || (4 * n == middle && q % 2 == 1) {
        (q + 1) * c
    } else {
        q * c
    }
}

/// The square root of `n` rounded to 53 significant bits: the double
/// nearest to the root of `n`, counted in units.
pub open spec fn nearest_double_root(n: int) -> int {
    round_root_half_even(n, excess_bits(floor_root(n)))
}

/// The square root of `a`.
///
/// A NaN, and a negative scalar other than zero, give the NaN of
/// `NAN_BITS`. Either zero and positive infinity give themselves. A
/// positive finite scalar gives the double nearest to its exact root.
pub open spec fn root_of(a: Scalar) -> Scalar {
    if a.is_nan() || (a.is_negative() && !a.is_zero()) {
        Scalar { bits: NAN_BITS }
    } else if a.is_zero() || a.is_infinite() {
        a
    } else {
        encoded(nearest_double_root(a.magnitude() * pow2(1074)))
    }
}

/// What `floor_root` gives: the root's whole part.
pub proof fn lemma_floor_root(n: int)
    requires
        0 <= n,
    ensures
        0 <= floor_root(n),
        floor_root(n) * floor_root(n) <= n < (floor_root(n) + 1) * (floor_root(n) + 1),
    decreases n,
{
    if n > 0 {
        lemma_floor_root(n / 4);
        let r0 = floor_root(n / 4);
        let m = n / 4;
        assert(4 * m <= n <= 4 * m + 3);
        assert((2 * r0) * (2 * r0) <= n && n < (2 * r0 + 2) * (2 * r0 + 2)) by (nonlinear_arith)
            requires
                r0 * r0 <= m < (r0 + 1) * (r0 + 1),
                4 * m <= n <= 4 * m + 3,
                r0 >= 0,
        ;
    } else {
        assert(0 * 0 <= n < (0 + 1) * (0 + 1)) by (nonlinear_arith)
            requires
                n == 0,
        ;
    }
}

/// Only one number has its square at or below `n` and the next square
/// above.
pub proof fn lemma_floor_root_is(n: int, r: int)
    requires
        0 <= r,
        r * r <= n < (r + 1) * (r + 1),
    ensures
        floor_root(n) == r,
{
    lemma_floor_root(n);
    let f = floor_root(n);
    assert(f == r) by (nonlinear_arith)
        requires
            0 <= r,
            0 <= f,
            r * r <= n < (r + 1) * (r + 1),
            f * f <= n < (f + 1) * (f + 1),
    ;
}

/// The whole root of `n` counted in grains of `c` is the whole root of `n`
/// counted in squares of `c`.
pub proof fn lemma_floor_root_in_grains(n: int, c: int)
    requires
        0 <= n,
        0 < c,
    ensures
        floor_root(n / (c * c)) == floor_root(n) / c,
{
    lemma_floor_root(n);
    let r = floor_root(n);
    let q = r / c;
    let cc = c * c;
    lemma_fundamental_div_mod(r, c);
    lemma_mod_bound(r, c);
    assert(cc > 0) by (nonlinear_arith)
        requires
            cc == c * c,
            c > 0,
    ;
    assert(q >= 0) by (nonlinear_arith)
        requires
            r == c * q + r % c,
            0 <= r % c < c,
            0 <= r,
    ;
    assert((q * q) * cc <= n) by (nonlinear_arith)
        requires
            r == c * q + r % c,
            0 <= r % c,
            q >= 0,
            c > 0,
            r * r <= n,
            cc == c * c,
    ;
    assert(n < cc * ((q + 1) * (q + 1))) by (nonlinear_arith)
        requires
            r == c * q + r % c,
            r % c < c,
            q >= 0,
            c > 0,
            n < (r + 1) * (r + 1),
            cc == c * c,
    ;
    lemma_div_is_ordered((q * q) * cc, n, cc);
    assert(q * q >= 0) by (nonlinear_arith);
    lemma_div_by_multiple(q * q, cc);
    lemma_multiply_divide_lt(n, cc, (q + 1) * (q + 1));
    lemma_floor_root_is(n / cc, q);
}

/// Rounding a root goes by its whole part and by whether the number is a
/// square: with `x` twice the whole root, plus one where the number is
/// above its square, the root rounds as half of `x` does.
pub proof fn lemma_round_root_by_remainder(n: int, u: nat)
    requires
        0 <= n,
        u >= 1,
    ensures
        ({
            let r = floor_root(n);
            let x = 2 * r + if n != r * r {
                1int
            } else {
                0int
            };
            2 * round_root_half_even(n, u) == round_half_even(x, u + 1)
        }),
{
    let r = floor_root(n);
    let s = if n != r * r {
        1int
    } else {
        0int
    };
    let x = 2 * r + s;
    let c = pow2(u) as int;
    let h = pow2((u - 1) as nat) as int;
    lemma_pow2_pos(u);
    lemma_pow2_pos((u - 1) as nat);
    lemma_pow2_unfold(u);
    lemma_pow2_unfold(u + 1);
    lemma_floor_root(n);
    lemma_floor_root_in_grains(n, c);
    let q = r / c;
    let low = r % c;
    lemma_fundamental_div_mod(r, c);
    lemma_mod_bound(r, c);
    assert(q >= 0) by (nonlinear_arith)
        requires
            r == c * q + low,
            0 <= low < c,
            0 <= r,
    ;
    // x in grains of 2 c
    assert(x == q * (2 * c) + (2 * low + s)) by (nonlinear_arith)
        requires
            x == 2 * r + s,
            r == c * q + low,
    ;
    lemma_fundamental_div_mod_converse(x, 2 * c, q, 2 * low + s);
    // the middle between q and q + 1 grains
    let mid = (2 * q + 1) * h;
    assert(mid == c * q + h) by (nonlinear_arith)
        requires
            mid == (2 * q + 1) * h,
            c == 2 * h,
    ;
    let middle = (2 * q + 1) * (2 * q + 1) * (c * c);
    assert(middle == 4 * (mid * mid)) by (nonlinear_arith)
        requires
            middle == (2 * q + 1) * (2 * q + 1) * (c * c),
            mid == (2 * q + 1) * h,
            c == 2 * h,
    ;
    if low > h {
        assert(n > mid * mid) by (nonlinear_arith)
            requires
                r >= mid + 1,
                mid >= 0,
                r * r <= n,
        ;
    } else if low == h {
        assert(r == mid);
    } else {
        assert(n < mid * mid) by (nonlinear_arith)
            requires
                r + 1 <= mid,
                r >= 0,
                n < (r + 1) * (r + 1),
        ;
    }
    assert((q + 1) * (2 * c) == 2 * ((q + 1) * c)) by (nonlinear_arith);
    assert(q * (2 * c) == 2 * (q * c)) by (nonlinear_arith);
    assert(pow2(u + 1) == 2 * c);
}

/// Among the multiples of 2^t none is nearer to the root of `n` than the
/// one that rounding gives. The root lies at or below the middle between
/// two numbers where four times `n` is at most the square of their sum.
pub proof fn lemma_round_root_is_nearest(n: int, t: nat, k: int)
    requires
        0 <= n,
        0 <= k,
    ensures
        ({
            let r = round_root_half_even(n, t);
            let x = k * pow2(t);
            &&& x > r ==> 4 * n <= (r + x) * (r + x)
            &&& x < r ==> 4 * n >= (r + x) * (r + x)
        }),
{
    let c = pow2(t) as int;
    let cc = c * c;
    lemma_pow2_pos(t);
    assert(cc > 0) by (nonlinear_arith)
        requires
            cc == c * c,
            c > 0,
    ;
    let q = floor_root(n / cc);
    lemma_fundamental_div_mod(n, cc);
    lemma_mod_bound(n, cc);
    let whole = n / cc;
    assert(whole >= 0) by (nonlinear_arith)
        requires
            n == cc * whole + n % cc,
            0 <= n % cc < cc,
            0 <= n,
    ;
    lemma_floor_root(whole);
    // n lies between the squares of q and q + 1 grains
    assert((q * c) * (q * c) <= n < ((q + 1) * c) * ((q + 1) * c)) by (nonlinear_arith)
        requires
            n == cc * whole + n % cc,
            0 <= n % cc < cc,
            cc == c * c,
            q * q <= whole < (q + 1) * (q + 1),
    ;
    let middle = (2 * q + 1) * (2 * q + 1) * cc;
    let r = round_root_half_even(n, t);
    let x = k * c;
    assert((k <= q ==> k * c <= q * c) && (k >= q + 1 ==> k * c >= (q + 1) * c) && (k <= q - 1
        ==> k * c < q * c) && (k >= q + 2 ==> k * c > (q + 1) * c) && (q + 1) * c > q * c)
        by (nonlinear_arith)
        requires
            c > 0,
    ;
    if r == q * c {
        assert(4 * n <= middle);
        if k > q {
            assert((r + x) * (r + x) >= middle) by (nonlinear_arith)
                requires
                    r == q * c,
                    x == k * c,
                    k >= q + 1,
                    q >= 0,
                    c > 0,
                    middle == (2 * q + 1) * (2 * q + 1) * cc,
                    cc == c * c,
            ;
        } else if k < q {
            assert((r + x) * (r + x) <= 4 * ((q * c) * (q * c))) by (nonlinear_arith)
                requires
                    r == q * c,
                    x == k * c,
                    0 <= k <= q - 1,
                    c > 0,
            ;
        }
    } else {
        assert(r == (q + 1) * c);
        assert(4 * n >= middle);
        if k > q + 1 {
            assert((r + x) * (r + x) >= 4 * (((q + 1) * c) * ((q + 1) * c))) by (nonlinear_arith)
                requires
                    r == (q + 1) * c,
                    x == k * c,
                    k >= q + 2,
                    q >= 0,
                    c > 0,
            ;
        } else if k < q + 1 {
            assert((r + x) * (r + x) <= middle) by (nonlinear_arith)
                requires
                    r == (q + 1) * c,
                    x == k * c,
                    0 <= k <= q,
                    c > 0,
                    middle == (2 * q + 1) * (2 * q + 1) * cc,
                    cc == c * c,
            ;
        }
    }
    assert((x > r) == (k * c > r));
}

/// No double is nearer to the root of `n` than the one that
/// `nearest_double_root` gives: for a number `d` that rounding leaves
/// alone, the root lies on the side of the middle between the two where
/// `nearest_double_root` is.
pub proof fn lemma_nearest_double_root_is_nearest(n: int, d: int)
    requires
        0 <= n,
        0 <= d,
        nearest_double(d) == d,
    ensures
        ({
            let r = nearest_double_root(n);
            &&& d > r ==> 4 * n <= (r + d) * (r + d)
            &&& d < r ==> 4 * n >= (r + d) * (r + d)
        }),
{
    let whole = floor_root(n);
    let t = excess_bits(whole);
    let u = excess_bits(d);
    let c = pow2(t) as int;
    let r = nearest_double_root(n);
    lemma2_to64();
    lemma2_to64_rest();
    lemma_pow2_pos(t);
    lemma_pow2_pos(u);
    lemma_floor_root(n);
    lemma_excess_bits_range(whole);
    lemma_excess_bits_range(d);
    lemma_round_half_even_near(d, u);
    if u >= t {
        let g = pow2(u) as int;
        lemma_fundamental_div_mod(d, g);
        let m = d / g;
        assert(d == m * g) by (nonlinear_arith)
            requires
                d == g * m + d % g,
                d % g == 0,
        ;
        assert(m >= 0) by (nonlinear_arith)
            requires
                d == m * g,
                d >= 0,
                g > 0,
        ;
        lemma_multiple_of_smaller_power(m, u, t);
        let j = m * pow2((u - t) as nat);
        lemma_fundamental_div_mod(d, c);
        assert(d == j * c) by (nonlinear_arith)
            requires
                d == c * j + d % c,
                d % c == 0,
        ;
        assert(j >= 0) by (nonlinear_arith)
            requires
                d == j * c,
                d >= 0,
                c > 0,
        ;
        lemma_round_root_is_nearest(n, t, j);
    } else {
        // d lies below the first number with the grain of the root, and
        // that one is at or below what rounding gives
        if u >= 1 {
            if 53 + u < 52 + t {
                lemma_pow2_strictly_increases(53 + u, 52 + t);
            }
        } else if t > 1 {
            lemma_pow2_strictly_increases(53, 52 + t);
        }
        lemma_pow2_adds(52, t);
        let first = pow2(52 + t) as int;
        assert(d < first <= whole);
        assert(first == 0x0010_0000_0000_0000 * c);
        lemma_round_root_is_nearest(n, t, 0x0010_0000_0000_0000);
        lemma_floor_root_in_grains(n, c);
        let q = whole / c;
        lemma_fundamental_div_mod(whole, c);
        lemma_mod_bound(whole, c);
        assert(q >= 0x0010_0000_0000_0000) by (nonlinear_arith)
            requires
                whole == c * q + whole % c,
                whole % c < c,
                whole >= 0x0010_0000_0000_0000 * c,
                c > 0,
        ;
        assert((q + 1) * c >= q * c) by (nonlinear_arith)
            requires
                c > 0,
        ;
        assert(r >= q * c);
        assert(q * c >= first) by (nonlinear_arith)
            requires
                q >= 0x0010_0000_0000_0000,
                first == 0x0010_0000_0000_0000 * c,
                c > 0,
        ;
        if r > first {
            assert((r + d) * (r + d) <= (r + first) * (r + first)) by (nonlinear_arith)
                requires
                    0 <= d < first,
                    r >= 0,
            ;
        } else {
            // r is the first itself, at or below the root
            assert(r == q * c && q * c <= whole);
            assert((r + d) * (r + d) <= 4 * (whole * whole)) by (nonlinear_arith)
                requires
                    0 <= d < r,
                    r <= whole,
            ;
        }
    }
}

/// Four to a power in the number comes out of the root as two to that
/// power, where the root is longer than a significand.
pub proof fn lemma_nearest_root_scales(n: int, j: nat)
    requires
        0 <= n,
        floor_root(n) >= 0x0020_0000_0000_0000,
    ensures
        nearest_double_root(n * pow2(2 * j)) == nearest_double_root(n) * pow2(j),
{
    let b = pow2(j) as int;
    let bb = pow2(2 * j) as int;
    let big = n * bb;
    let r = floor_root(n);
    let t = excess_bits(r);
    let c = pow2(t) as int;
    lemma2_to64();
    lemma2_to64_rest();
    lemma_pow2_pos(j);
    lemma_pow2_pos(t);
    lemma_pow2_adds(j, j);
    lemma_pow2_adds(t, j);
    lemma_excess_bits_range(r);
    assert(bb == b * b);
    assert(bb > 0) by (nonlinear_arith)
        requires
            bb == b * b,
            b > 0,
    ;
    assert(big >= 0) by (nonlinear_arith)
        requires
            big == n * bb,
            n >= 0,
            bb > 0,
    ;
    // the root of the scaled number, in grains of b, is the root of n
    lemma_floor_root_in_grains(big, b);
    assert(n * bb == bb * n) by (nonlinear_arith);
    lemma_div_by_multiple(n, bb);
    let scaled = floor_root(big);
    lemma_floor_root(big);
    assert(scaled / b == r);
    lemma_fundamental_div_mod(scaled, b);
    lemma_mod_bound(scaled, b);
    lemma_pow2_adds(52 + t, j);
    lemma_pow2_adds(53 + t, j);
    assert(pow2(52 + t) * b <= scaled < pow2(53 + t) * b) by (nonlinear_arith)
        requires
            scaled == b * r + scaled % b,
            0 <= scaled % b < b,
            pow2(52 + t) <= r,
            r + 1 <= pow2(53 + t),
    ;
    lemma_excess_bits_is(scaled, t + j);
    // the same quotient and the same side of the middle
    let cc = c * c;
    assert(cc > 0) by (nonlinear_arith)
        requires
            cc == c * c,
            c > 0,
    ;
    assert(pow2(t + j) * pow2(t + j) == bb * cc) by (nonlinear_arith)
        requires
            pow2(t + j) == c * b,
            bb == b * b,
            cc == c * c,
    ;
    lemma_div_multiples_vanish_quotient(bb, n, cc);
    let q = floor_root(n / cc);
    let middle = (2 * q + 1) * (2 * q + 1) * cc;
    assert((2 * q + 1) * (2 * q + 1) * (bb * cc) == middle * bb) by (nonlinear_arith)
        requires
            middle == (2 * q + 1) * (2 * q + 1) * cc,
    ;
    assert((4 * big > middle * bb) == (4 * n > middle)) by (nonlinear_arith)
        requires
            big == n * bb,
            bb > 0,
    ;
    assert((4 * big == middle * bb) == (4 * n == middle)) by (nonlinear_arith)
        requires
            big == n * bb,
            bb > 0,
    ;
    assert((q + 1) * pow2(t + j) == ((q + 1) * c) * b) by (nonlinear_arith)
        requires
            pow2(t + j) == c * b,
    ;
    assert(q * pow2(t + j) == (q * c) * b) by (nonlinear_arith)
        requires
            pow2(t + j) == c * b,
    ;
}

/// The double nearest to the root of a number times 4^j, from the whole
/// root of the number and whether the number is a square. With `x` twice
/// the whole root, plus one where the number is above its square, the root
/// times 2^j rounds as `x` times 2^(j - 1) does. The whole root has to be
/// longer than a significand.
pub proof fn lemma_nearest_root_by_remainder(n: int, j: nat)
    requires
        0 <= n,
        floor_root(n) >= 0x0020_0000_0000_0000,
        j >= 1,
    ensures
        ({
            let r = floor_root(n);
            let x = 2 * r + if n != r * r {
                1int
            } else {
                0int
            };
            nearest_double_root(n * pow2(2 * j)) == nearest_double(x * pow2((j - 1) as nat))
        }),
{
    let r = floor_root(n);
    let x = 2 * r + if n != r * r {
        1int
    } else {
        0int
    };
    let t = excess_bits(r);
    lemma2_to64();
    lemma2_to64_rest();
    lemma_excess_bits_range(r);
    lemma_pow2_unfold(53 + t);
    lemma_pow2_unfold(54 + t);
    lemma_excess_bits_is(x, t + 1);
    lemma_nearest_root_scales(n, j);
    lemma_round_root_by_remainder(n, t);
    lemma_nearest_double_scales(x, (j - 1) as nat);
    lemma_pow2_unfold(j);
    let rr = round_root_half_even(n, t);
    let rx = round_half_even(x, t + 1);
    assert(nearest_double_root(n) == rr);
    assert(nearest_double(x) == rx);
    assert(rr * pow2(j) == rx * pow2((j - 1) as nat)) by (nonlinear_arith)
        requires
            2 * rr == rx,
            pow2(j) == 2 * pow2((j - 1) as nat),
    ;
}

/// The root of a rounded square: for a full significand m, the square of m
/// rounded to a double has a root that rounds back to m. Stated of four
/// times the square, whose root is as long as `lemma_nearest_root_scales`
/// asks.
pub proof fn lemma_root_of_rounded_square(m: int)
    requires
        0x0010_0000_0000_0000 <= m < 0x0020_0000_0000_0000,
    ensures
        nearest_double_root(4 * nearest_double(m * m)) == 2 * m,
        floor_root(4 * nearest_double(m * m)) >= 0x0020_0000_0000_0000,
        m * m - (m - 1) <= nearest_double(m * m) <= m * m + (m - 1),
{
    let p = m * m;
    let t = excess_bits(p);
    let pr = nearest_double(p);
    lemma2_to64();
    lemma2_to64_rest();
    lemma_pow2_adds(52, 52);
    lemma_pow2_adds(53, 53);
    assert(pow2(104) <= p < pow2(106)) by (nonlinear_arith)
        requires
            p == m * m,
            0x0010_0000_0000_0000 <= m < 0x0020_0000_0000_0000,
            pow2(104) == 0x0010_0000_0000_0000 * 0x0010_0000_0000_0000,
            pow2(106) == 0x0020_0000_0000_0000 * 0x0020_0000_0000_0000,
    ;
    lemma_excess_bits_range(p);
    // the square has 52 or 53 excess bits, and the rounding moves it by
    // less than m
    assert(t == 52 || t == 53) by {
        if t < 52 {
            lemma_pow2_strictly_increases(53 + t, 105);
            lemma_pow2_strictly_increases(104, 105);
            if t == 0 {
                lemma_pow2_strictly_increases(53, 104);
            } else {
                if 53 + t < 104 {
                    lemma_pow2_strictly_increases(53 + t, 104);
                }
            }
            assert(false);
        }
        if t > 53 {
            lemma_pow2_strictly_increases(106, 52 + t);
            assert(false);
        }
    }
    lemma_round_half_even_near(p, t);
    lemma_pow2_unfold(52);
    lemma_pow2_unfold(53);
    assert(pow2(t) <= 2 * (m - 1)) by {
        if t == 53 {
            // the square is at least 2^105, so m is above 2^52
            lemma_pow2_unfold(105);
            assert(m > 0x0010_0000_0000_0000) by (nonlinear_arith)
                requires
                    m * m >= 2 * pow2(104),
                    pow2(104) == 0x0010_0000_0000_0000 * 0x0010_0000_0000_0000,
                    m >= 0x0010_0000_0000_0000,
            ;
        }
    }
    assert(p - (m - 1) <= pr <= p + (m - 1));
    // so four times the rounded square lies between the squares of
    // 2 m - 1 and 2 m + 1
    let n = 4 * pr;
    assert((2 * m - 1) * (2 * m - 1) <= n < (2 * m + 1) * (2 * m + 1)) by (nonlinear_arith)
        requires
            n == 4 * pr,
            p == m * m,
            p - (m - 1) <= pr <= p + (m - 1),
    ;
    let r = floor_root(n);
    lemma_floor_root(n);
    assert(r == 2 * m - 1 || r == 2 * m) by (nonlinear_arith)
        requires
            (2 * m - 1) * (2 * m - 1) <= n < (2 * m + 1) * (2 * m + 1),
            r * r <= n < (r + 1) * (r + 1),
            r >= 0,
            m >= 1,
    ;
    // at m = 2^52 the square is a double itself
    if m == 0x0010_0000_0000_0000 {
        assert(p == pow2(104));
        lemma_nearest_double_scales(0x0010_0000_0000_0000, 52);
        lemma_nearest_double_exact(0x0010_0000_0000_0000);
        assert(pr == p);
        assert(n == (2 * m) * (2 * m)) by (nonlinear_arith)
            requires
                n == 4 * pr,
                pr == m * m,
        ;
        lemma_floor_root_is(n, 2 * m);
    }
    assert(r >= 0x0020_0000_0000_0000);
    assert(r < 0x0040_0000_0000_0000);
    lemma_excess_bits_is(r, 1);
    // in grains of two
    assert(pow2(1) == 2);
    let q = floor_root(n / 4);
    assert(n / 4 == pr);
    lemma_floor_root(pr);
    assert(q == m - 1 || q == m) by (nonlinear_arith)
        requires
            p == m * m,
            p - (m - 1) <= pr <= p + (m - 1),
            q * q <= pr < (q + 1) * (q + 1),
            q >= 0,
            m >= 1,
    ;
    let middle = (2 * q + 1) * (2 * q + 1) * (2 * 2);
    if q == m {
        assert(4 * n < middle) by (nonlinear_arith)
            requires
                n == 4 * pr,
                pr <= m * m + (m - 1),
                middle == (2 * q + 1) * (2 * q + 1) * (2 * 2),
                q == m,
        ;
    } else {
        assert(pr < m * m) by (nonlinear_arith)
            requires
                q == m - 1,
                pr < (q + 1) * (q + 1),
        ;
        assert(4 * n > middle) by (nonlinear_arith)
            requires
                n == 4 * pr,
                pr >= m * m - (m - 1),
                middle == (2 * q + 1) * (2 * q + 1) * (2 * 2),
                q == m - 1,
        ;
    }
    assert(round_root_half_even(n, 1) == 2 * m);
}

/// Whether the square of a scalar is a normal number: neither beyond the
/// largest double nor among the subnormals. These are the finite scalars
/// from 2^-511 up to 2^511 in absolute value.
pub open spec fn squares_to_normal(x: Scalar) -> bool {
    512 <= x.exponent_field() <= 1533
}

/// The root of a square is the absolute value, where the square is a
/// normal number.
pub proof fn lemma_root_of_square(x: Scalar)
    requires
        squares_to_normal(x),
    ensures
        root_of(product_of(x, x)) == x.absolute(),
{
    let e = x.exponent_field();
    let m = (HIDDEN_BIT + x.fraction_field()) as int;
    let j = (e - 1) as nat;
    let a = x.magnitude();
    let p = m * m;
    let t = excess_bits(p);
    let pr = nearest_double(p);
    let k = 2 * j - 1074;
    lemma2_to64();
    lemma2_to64_rest();
    lemma_pow2_pos(j);
    lemma_pow2_adds(j, j);
    lemma_root_of_rounded_square(m);
    assert(a * a == p * pow2(2 * j)) by (nonlinear_arith)
        requires
            a == m * pow2(j),
            p == m * m,
            pow2(2 * j) == pow2(j) * pow2(j),
    ;
    assert(p >= 0) by (nonlinear_arith)
        requires
            p == m * m,
    ;
    lemma_nearest_double_scaled_shifts(p, 2 * j, -1074);
    let square = nearest_double_scaled(p, k);
    assert(nearest_double_scaled(a * a, -1074) == square);
    // the square, raised by 1074 places, is the rounded p raised by 2 j
    lemma_excess_bits_range(p);
    lemma_round_half_even_near(p, t);
    lemma_nearest_double_idempotent(p);
    lemma_pow2_adds(52, 52);
    lemma_pow2_adds(53, 53);
    assert(pow2(104) <= p < pow2(106)) by (nonlinear_arith)
        requires
            p == m * m,
            0x0010_0000_0000_0000 <= m < 0x0020_0000_0000_0000,
            pow2(104) == 0x0010_0000_0000_0000 * 0x0010_0000_0000_0000,
            pow2(106) == 0x0020_0000_0000_0000 * 0x0020_0000_0000_0000,
    ;
    assert(t >= 52) by {
        if t < 52 {
            if t == 0 {
                lemma_pow2_strictly_increases(53, 104);
            } else {
                lemma_pow2_strictly_increases(53 + t, 105);
                lemma_pow2_strictly_increases(104, 105);
                if 53 + t < 104 {
                    lemma_pow2_strictly_increases(53 + t, 104);
                }
            }
            assert(false);
        }
    }
    assert(0 < pr <= pow2(106)) by (nonlinear_arith)
        requires
            p == m * m,
            p - (m - 1) <= pr <= p + (m - 1),
            0x0010_0000_0000_0000 <= m < 0x0020_0000_0000_0000,
            pow2(106) == 0x0020_0000_0000_0000 * 0x0020_0000_0000_0000,
    ;
    assert(square * pow2(1074) == pr * pow2(2 * j) && nearest_double(square) == square && 0
        < square < overflow_limit()) by {
        if k >= 0 {
            lemma_nearest_double_scales(p, k as nat);
            lemma_nearest_double_scales(pr, k as nat);
            lemma_pow2_adds(k as nat, 1074);
            lemma_pow2_pos(k as nat);
            assert(square == pr * pow2(k as nat));
            assert(square * pow2(1074) == pr * pow2(2 * j)) by (nonlinear_arith)
                requires
                    square == pr * pow2(k as nat),
                    pow2(2 * j) == pow2(k as nat) * pow2(1074),
            ;
            lemma_pow2_adds(106, k as nat);
            if 106 + k < 2098 {
                lemma_pow2_strictly_increases((106 + k) as nat, 2098);
            }
            assert(0 < pr * pow2(k as nat) <= pow2(106) * pow2(k as nat)) by (nonlinear_arith)
                requires
                    0 < pr <= pow2(106),
                    pow2(k as nat) > 0,
            ;
        } else {
            let d = (-k) as nat;
            let up = (t - d) as nat;
            let g = pow2(t) as int;
            lemma_pow2_pos(t);
            lemma_pow2_pos(d);
            lemma_pow2_pos(up);
            lemma_pow2_adds(up, d);
            lemma_pow2_adds(d, 2 * j);
            lemma_fundamental_div_mod(pr, g);
            let u = pr / g;
            assert(pr == g * u);
            assert(u > 0) by (nonlinear_arith)
                requires
                    pr == g * u,
                    pr > 0,
                    g > 0,
            ;
            let v = u * pow2(up);
            assert(pr == v * pow2(d)) by (nonlinear_arith)
                requires
                    pr == g * u,
                    g == pow2(up) * pow2(d),
                    v == u * pow2(up),
            ;
            assert(v > 0) by (nonlinear_arith)
                requires
                    v == u * pow2(up),
                    u > 0,
                    pow2(up) > 0,
            ;
            lemma_div_by_multiple(v, pow2(d) as int);
            assert(square == v);
            assert(v * pow2(1074) == pr * pow2(2 * j)) by (nonlinear_arith)
                requires
                    pr == v * pow2(d),
                    pow2(1074) == pow2(d) * pow2(2 * j),
            ;
            // v is a double: u has at most 53 bits, and 2^53 itself is one
            lemma_pow2_adds(53, t);
            lemma_pow2_unfold(53 + t + 1);
            assert(u <= 0x0020_0000_0000_0000) by (nonlinear_arith)
                requires
                    pr == g * u,
                    2 * (pr - p) <= g,
                    p < 0x0020_0000_0000_0000 * g,
                    g > 0,
            ;
            lemma_nearest_double_exact(u);
            lemma_nearest_double_scales(u, up);
            lemma_pow2_strictly_increases(106, 2098);
            assert(v <= pr) by (nonlinear_arith)
                requires
                    pr == v * pow2(d),
                    pow2(d) >= 1,
                    v > 0,
            ;
        }
    }
    lemma_encoded_holds(square);
    let xx = product_of(x, x);
    lemma_with_sign_fields(encoded(square), false);
    assert(xx == encoded(square));
    assert(xx.is_finite() && xx.magnitude() == square && !xx.is_negative());
    // the root
    let whole = pr * pow2(2 * j);
    let low = (j - 1) as nat;
    lemma_pow2_adds(2, 2 * low);
    assert(pow2(2) == 4);
    assert(whole == (4 * pr) * pow2(2 * low)) by (nonlinear_arith)
        requires
            whole == pr * pow2(2 * j),
            pow2(2 * j) == 4 * pow2(2 * low),
    ;
    lemma_nearest_root_scales(4 * pr, low);
    lemma_pow2_unfold(j);
    assert((2 * m) * pow2(low) == a) by (nonlinear_arith)
        requires
            a == m * pow2(j),
            pow2(j) == 2 * pow2(low),
    ;
    assert(nearest_double_root(xx.magnitude() * pow2(1074)) == a);
    lemma_magnitude_is_double(x);
    lemma_holds_encoded(x.absolute(), a);
}

/// The whole part of the square root of `n`.
fn whole_root(n: u128) -> (r: u64)
    requires
        n < 0x4000_0000_0000_0000_0000_0000_0000_0000,
    ensures
        r == floor_root(n as int),
        r * r <= n < (r + 1) * (r + 1),
        r < 0x8000_0000_0000_0000,
{
    let mut lo: u64 = 0;
    let mut hi: u64 = 0x8000_0000_0000_0000;
    assert(0x8000_0000_0000_0000int * 0x8000_0000_0000_0000int
        == 0x4000_0000_0000_0000_0000_0000_0000_0000int) by (nonlinear_arith);
    assert(0int * 0int == 0) by (nonlinear_arith);
    while hi - lo > 1
        invariant
            lo < hi <= 0x8000_0000_0000_0000,
            lo * lo <= n < hi * hi,
        decreases hi - lo,
    {
        let mid: u64 = lo + (hi - lo) / 2;
        assert(mid * mid < 0x8000_0000_0000_0000int * 0x8000_0000_0000_0000int)
            by (nonlinear_arith)
            requires
                0 <= mid < 0x8000_0000_0000_0000,
        ;
        if (mid as u128) * (mid as u128) <= n {
            lo = mid;
        } else {
            hi = mid;
        }
    }
    proof {
        lemma_floor_root_is(n as int, lo as int);
    }
    lo
}

/// The square root of `a`.
pub fn root(a: Scalar) -> (r: Scalar)
    ensures
        r == root_of(a),
{
    if a.is_nan() {
        return Scalar { bits: NAN_BITS };
    }
    if a.is_zero() {
        return a;
    }
    if a.is_sign_negative() {
        return Scalar { bits: NAN_BITS };
    }
    if a.is_infinite() {
        return a;
    }
    let (ma, ja) = a.parts();
    let mut m: u64 = ma;
    let mut la: u64 = 0;
    proof {
        lemma2_to64();
        lemma2_to64_rest();
        assert(ma * pow2(0) == ma) by (nonlinear_arith)
            requires
                pow2(0) == 1,
        ;
    }
    while m < HIDDEN_BIT
        invariant
            0 < m < 0x0020_0000_0000_0000,
            m == ma * pow2(la as nat),
            la <= 52,
            m >= pow2(la as nat),
        decreases 53 - la,
    {
        proof {
            lemma2_to64();
            lemma2_to64_rest();
            lemma_pow2_unfold((la + 1) as nat);
            if la >= 52 {
                assert(false);
            }
            assert(2 * (ma * pow2(la as nat)) == ma * (2 * pow2(la as nat))) by (nonlinear_arith);
        }
        m = 2 * m;
        la = la + 1;
    }
    let places: u64 = ja + 1074 - la;
    let p: u64 = if (places - 72) % 2 == 0 {
        72
    } else {
        73
    };
    let j: u64 = (places - p) / 2;
    let raise = power_of_two(p as u32);
    let ghost whole = a.magnitude() * pow2(1074);
    proof {
        lemma2_to64();
        lemma2_to64_rest();
        lemma_pow2_adds(64, 64);
        lemma_pow2_adds(62, 64);
        lemma_pow2_adds(60, 64);
        lemma_pow2_adds(52, 72);
        lemma_pow2_adds(53, 73);
        lemma_pow2_adds(8, 64);
        lemma_pow2_adds(9, 64);
        lemma_pow2_unfold(73);
        lemma_pow2_pos(72);
        lemma_pow2_adds(ja as nat, 1074);
        lemma_pow2_adds(la as nat, p as nat);
        lemma_pow2_adds((la + p) as nat, (2 * j) as nat);
        assert(0x0010_0000_0000_0000 * pow2(72) <= m * raise < 0x0020_0000_0000_0000 * pow2(73))
            by (nonlinear_arith)
            requires
                0x0010_0000_0000_0000 <= m < 0x0020_0000_0000_0000,
                pow2(72) <= raise <= pow2(73),
                pow2(72) > 0,
        ;
        assert((m * raise) * pow2((2 * j) as nat) == whole) by (nonlinear_arith)
            requires
                whole == a.magnitude() * pow2(1074),
                a.magnitude() == ma * pow2(ja as nat),
                m == ma * pow2(la as nat),
                pow2((ja + 1074) as nat) == pow2(ja as nat) * pow2(1074),
                pow2((la + p) as nat) == pow2(la as nat) * raise,
                pow2((la + p + 2 * j) as nat) == pow2((la + p) as nat) * pow2((2 * j) as nat),
                pow2((la + p + 2 * j) as nat) == pow2((ja + 1074) as nat),
        ;
    }
    let n0: u128 = (m as u128) * raise;
    let r0 = whole_root(n0);
    proof {
        assert(r0 >= 0x4000_0000_0000_0000) by (nonlinear_arith)
            requires
                n0 < (r0 + 1) * (r0 + 1),
                n0 >= 0x1000_0000_0000_0000_0000_0000_0000_0000,
                r0 >= 0,
        ;
        lemma_nearest_root_by_remainder(n0 as int, j as nat);
    }
    let x: u128 = if (r0 as u128) * (r0 as u128) != n0 {
        2 * (r0 as u128) + 1
    } else {
        2 * (r0 as u128)
    };
    let r = nearest_raised(x, j - 1);
    proof {
        lemma_holds_encoded(r, nearest_double(x * pow2((j - 1) as nat)));
    }
    r
}

} // verus!
