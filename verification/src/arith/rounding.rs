//! Rounding to the precision of a double: 53 significant bits, to the
//! nearest, ties to the even significand. Numbers are whole counts of the
//! unit 2^-1074, so every finite double is one of them.

use vstd::arithmetic::div_mod::lemma_div_by_multiple;
use vstd::arithmetic::div_mod::lemma_div_multiples_vanish_quotient;
use vstd::arithmetic::div_mod::lemma_fundamental_div_mod;
use vstd::arithmetic::div_mod::lemma_mod_bound;
use vstd::arithmetic::div_mod::lemma_mod_multiples_basic;
use vstd::arithmetic::div_mod::lemma_truncate_middle;
use vstd::arithmetic::power2::lemma2_to64;
use vstd::arithmetic::power2::lemma2_to64_rest;
use vstd::arithmetic::power2::lemma_pow2_adds;
use vstd::arithmetic::power2::lemma_pow2_pos;
use vstd::arithmetic::power2::lemma_pow2_strictly_increases;
use vstd::arithmetic::power2::lemma_pow2_unfold;
use vstd::arithmetic::power2::pow2;
use vstd::prelude::*;

verus! {

/// One more than the largest significand: 2^53.
pub const SIGNIFICAND_LIMIT: u64 = 0x0020_0000_0000_0000;

/// The number of low bits by which `n` is longer than a significand: 0 for
/// n below 2^53, and t for n from 2^(52+t) up to 2^(53+t).
pub open spec fn excess_bits(n: int) -> nat
    decreases n,
{
    if n < SIGNIFICAND_LIMIT {
        0
    } else {
        1 + excess_bits(n / 2)
    }
}

/// `n` rounded to a multiple of 2^t: to the nearest one, and from the middle
/// between two to the even one.
pub open spec fn round_half_even(n: int, t: nat) -> int {
    let q = n / (pow2(t) as int);
    let r = n % (pow2(t) as int);
    if 2 * r > pow2(t) || (2 * r == pow2(t) && q % 2 == 1) {
        (q + 1) * pow2(t)
    } else {
        q * pow2(t)
    }
}

/// `n` rounded to 53 significant bits: the double nearest to `n` units,
/// where no double is too large to hold it.
pub open spec fn nearest_double(n: int) -> int {
    round_half_even(n, excess_bits(n))
}

/// What `excess_bits` counts.
pub proof fn lemma_excess_bits_range(n: int)
    requires
        0 <= n,
    ensures
        excess_bits(n) == 0 ==> n < pow2(53),
        excess_bits(n) >= 1 ==> pow2(52 + excess_bits(n)) <= n < pow2(53 + excess_bits(n)),
    decreases n,
{
    lemma2_to64();
    lemma2_to64_rest();
    if n >= SIGNIFICAND_LIMIT {
        lemma_excess_bits_range(n / 2);
        let t = excess_bits(n / 2);
        lemma_pow2_unfold(52 + t + 1);
        lemma_pow2_unfold(53 + t + 1);
        if t == 0 {
            assert(pow2(52 + 1) == SIGNIFICAND_LIMIT);
        }
    }
}

/// A number between 2^(52+t) and 2^(53+t) has t excess bits.
pub proof fn lemma_excess_bits_is(n: int, t: nat)
    requires
        t == 0 ==> 0 <= n < pow2(53),
        t >= 1 ==> pow2(52 + t) <= n < pow2(53 + t),
    ensures
        excess_bits(n) == t,
    decreases t,
{
    lemma2_to64();
    lemma2_to64_rest();
    if t >= 1 {
        lemma_pow2_unfold(52 + t);
        lemma_pow2_unfold(53 + t);
        if 52 + t > 53 {
            lemma_pow2_strictly_increases(53, 52 + t);
        }
        lemma_excess_bits_is(n / 2, (t - 1) as nat);
    }
}

/// Rounding to a multiple of 2^t gives such a multiple, at most half of 2^t
/// away.
pub proof fn lemma_round_half_even_near(n: int, t: nat)
    requires
        0 <= n,
    ensures
        round_half_even(n, t) % (pow2(t) as int) == 0,
        2 * (round_half_even(n, t) - n) <= pow2(t),
        2 * (n - round_half_even(n, t)) <= pow2(t),
        0 <= round_half_even(n, t),
{
    let c = pow2(t) as int;
    lemma_pow2_pos(t);
    lemma_fundamental_div_mod(n, c);
    lemma_mod_bound(n, c);
    let q = n / c;
    let r = n % c;
    lemma_mod_multiples_basic(q, c);
    lemma_mod_multiples_basic(q + 1, c);
    assert((q + 1) * c == q * c + c) by (nonlinear_arith);
    assert(c * q == q * c) by (nonlinear_arith);
    assert(q >= 0) by (nonlinear_arith)
        requires
            n == c * q + r,
            0 <= r < c,
            0 <= n,
    ;
    assert(q * c >= 0) by (nonlinear_arith)
        requires
            q >= 0,
            c > 0,
    ;
}

/// Rounding commutes with scaling by a power of two.
pub proof fn lemma_round_half_even_scales(x: int, t: nat, j: nat)
    requires
        0 <= x,
    ensures
        round_half_even(x * pow2(j), t + j) == round_half_even(x, t) * pow2(j),
{
    let b = pow2(j) as int;
    let c = pow2(t) as int;
    lemma_pow2_pos(j);
    lemma_pow2_pos(t);
    lemma_pow2_adds(j, t);
    assert(pow2(t + j) == b * c);
    lemma_div_multiples_vanish_quotient(b, x, c);
    lemma_truncate_middle(x, b, c);
    let q = x / c;
    let r = x % c;
    assert(x * b == b * x) by (nonlinear_arith);
    assert((x * b) / (b * c) == q);
    assert((x * b) % (b * c) == b * r);
    assert((2 * (b * r) > b * c) == (2 * r > c)) by (nonlinear_arith)
        requires
            b > 0,
    ;
    assert((2 * (b * r) == b * c) == (2 * r == c)) by (nonlinear_arith)
        requires
            b > 0,
    ;
    assert((q + 1) * (b * c) == ((q + 1) * c) * b) by (nonlinear_arith);
    assert(q * (b * c) == (q * c) * b) by (nonlinear_arith);
}

/// A number of at most 53 bits is a double, and so is 2^53: rounding leaves
/// them alone.
pub proof fn lemma_nearest_double_exact(x: int)
    requires
        0 <= x <= SIGNIFICAND_LIMIT,
    ensures
        nearest_double(x) == x,
{
    lemma2_to64();
    if x < SIGNIFICAND_LIMIT {
        assert(excess_bits(x) == 0);
        assert(pow2(0) == 1);
    } else {
        assert(excess_bits(x / 2) == 0);
        assert(excess_bits(x) == 1);
        assert(pow2(1) == 2);
    }
}

/// What rounding gives is a double: rounding it again changes nothing.
pub proof fn lemma_nearest_double_idempotent(n: int)
    requires
        0 <= n,
    ensures
        nearest_double(nearest_double(n)) == nearest_double(n),
        0 <= nearest_double(n),
{
    let t = excess_bits(n);
    let c = pow2(t) as int;
    let r = nearest_double(n);
    lemma2_to64();
    lemma2_to64_rest();
    lemma_pow2_pos(t);
    lemma_excess_bits_range(n);
    lemma_round_half_even_near(n, t);
    lemma_fundamental_div_mod(n, c);
    lemma_mod_bound(n, c);
    let q = n / c;
    if t == 0 {
        assert(c == 1);
        assert(r == n);
    } else {
        lemma_pow2_adds(52, t);
        lemma_pow2_adds(53, t);
        lemma_pow2_unfold(t + 1);
        lemma_pow2_adds(52, t + 1);
        lemma_pow2_adds(53, t + 1);
        // the quotient is a full significand
        assert(0x0010_0000_0000_0000 <= q < 0x0020_0000_0000_0000) by (nonlinear_arith)
            requires
                n == c * q + n % c,
                0 <= n % c < c,
                0x0010_0000_0000_0000 * c <= n < 0x0020_0000_0000_0000 * c,
        ;
        if r == (q + 1) * c && q + 1 == 0x0020_0000_0000_0000 {
            // rounded up to the next power of two
            assert(r == 0x0010_0000_0000_0000 * (2 * c)) by (nonlinear_arith)
                requires
                    r == (q + 1) * c,
                    q + 1 == 0x0020_0000_0000_0000,
            ;
            lemma_excess_bits_is(r, t + 1);
            lemma_mod_multiples_basic(0x0010_0000_0000_0000, 2 * c);
            lemma_round_half_even_of_multiple(r, t + 1);
        } else {
            let k = if r == q * c {
                q
            } else {
                q + 1
            };
            assert(r == k * c);
            assert(0x0010_0000_0000_0000 * c <= k * c < 0x0020_0000_0000_0000 * c)
                by (nonlinear_arith)
                requires
                    0x0010_0000_0000_0000 <= k < 0x0020_0000_0000_0000,
                    c > 0,
            ;
            lemma_excess_bits_is(r, t);
            lemma_round_half_even_of_multiple(r, t);
        }
    }
}

/// Among the multiples of 2^t none is nearer to `n` than the one that
/// rounding gives.
pub proof fn lemma_round_half_even_is_nearest(n: int, t: nat, k: int)
    requires
        0 <= n,
    ensures
        round_half_even(n, t) - n <= k * pow2(t) - n || round_half_even(n, t) - n <= n - k * pow2(
            t,
        ),
        n - round_half_even(n, t) <= k * pow2(t) - n || n - round_half_even(n, t) <= n - k * pow2(
            t,
        ),
{
    let c = pow2(t) as int;
    lemma_pow2_pos(t);
    lemma_fundamental_div_mod(n, c);
    lemma_mod_bound(n, c);
    let q = n / c;
    let r = n % c;
    assert((q + 1) * c == q * c + c) by (nonlinear_arith);
    assert(c * q == q * c) by (nonlinear_arith);
    if k <= q {
        assert(k * c <= q * c) by (nonlinear_arith)
            requires
                k <= q,
                c > 0,
        ;
    } else {
        assert(k * c >= q * c + c) by (nonlinear_arith)
            requires
                k >= q + 1,
                c > 0,
        ;
    }
}

/// No double is nearer to `n` than the one that `nearest_double` gives: a
/// number `d` that rounding leaves alone is at least as far from `n`.
pub proof fn lemma_nearest_double_is_nearest(n: int, d: int)
    requires
        0 <= n,
        0 <= d,
        nearest_double(d) == d,
    ensures
        nearest_double(n) - n <= d - n || nearest_double(n) - n <= n - d,
        n - nearest_double(n) <= d - n || n - nearest_double(n) <= n - d,
{
    let t = excess_bits(n);
    let u = excess_bits(d);
    let c = pow2(t) as int;
    lemma2_to64();
    lemma2_to64_rest();
    lemma_pow2_pos(t);
    lemma_pow2_pos(u);
    lemma_excess_bits_range(n);
    lemma_excess_bits_range(d);
    lemma_round_half_even_near(d, u);
    if u >= t {
        // d is a multiple of the grain of n
        let g = pow2(u) as int;
        lemma_fundamental_div_mod(d, g);
        let k = d / g;
        assert(d == k * g) by (nonlinear_arith)
            requires
                d == g * k + d % g,
                d % g == 0,
        ;
        assert(k >= 0) by (nonlinear_arith)
            requires
                d == k * g,
                d >= 0,
                g > 0,
        ;
        lemma_multiple_of_smaller_power(k, u, t);
        let j = k * pow2((u - t) as nat);
        assert(d == j * c) by {
            lemma_fundamental_div_mod(d, c);
            assert(d == c * j);
            assert(c * j == j * c) by (nonlinear_arith);
        }
        lemma_round_half_even_is_nearest(n, t, j);
    } else {
        // d lies below the first number with the grain of n, which is a
        // multiple of the grain and no farther from n than d
        if u >= 1 {
            if 53 + u < 52 + t {
                lemma_pow2_strictly_increases(53 + u, 52 + t);
            }
        } else if t > 1 {
            lemma_pow2_strictly_increases(53, 52 + t);
        }
        lemma_pow2_adds(52, t);
        assert(d < pow2(52 + t) <= n);
        lemma_round_half_even_is_nearest(n, t, 0x0010_0000_0000_0000);
    }
}

/// Rounding leaves a multiple of the grain alone.
pub proof fn lemma_round_half_even_of_multiple(n: int, t: nat)
    requires
        0 <= n,
        n % (pow2(t) as int) == 0,
    ensures
        round_half_even(n, t) == n,
{
    let c = pow2(t) as int;
    lemma_pow2_pos(t);
    lemma_fundamental_div_mod(n, c);
    assert(c * (n / c) == (n / c) * c) by (nonlinear_arith);
}

/// Scaling by 2^j adds j excess bits to a number that has some, and gives
/// at most j to a number that has none.
pub proof fn lemma_excess_bits_scales(x: int, j: nat)
    requires
        0 <= x,
    ensures
        excess_bits(x) >= 1 ==> excess_bits(x * pow2(j)) == excess_bits(x) + j,
        excess_bits(x) == 0 ==> excess_bits(x * pow2(j)) <= j,
        0 <= x * pow2(j),
{
    let t = excess_bits(x);
    let b = pow2(j) as int;
    let n = x * b;
    lemma_pow2_pos(j);
    lemma_excess_bits_range(x);
    assert(n >= 0) by (nonlinear_arith)
        requires
            n == x * b,
            x >= 0,
            b > 0,
    ;
    if t == 0 {
        let u = excess_bits(n);
        lemma_excess_bits_range(n);
        lemma_pow2_adds(53, j);
        assert(n < pow2(53 + j)) by (nonlinear_arith)
            requires
                n == x * b,
                0 <= x < pow2(53),
                b > 0,
                pow2(53 + j) == pow2(53) * b,
        ;
        if u > j {
            if 52 + u > 53 + j {
                lemma_pow2_strictly_increases(53 + j, 52 + u);
            }
            assert(false);
        }
    } else {
        lemma_pow2_adds(52 + t, j);
        lemma_pow2_adds(53 + t, j);
        assert(pow2(52 + t + j) <= n < pow2(53 + t + j)) by (nonlinear_arith)
            requires
                n == x * b,
                pow2(52 + t) <= x < pow2(53 + t),
                b > 0,
                pow2(52 + t + j) == pow2(52 + t) * b,
                pow2(53 + t + j) == pow2(53 + t) * b,
        ;
        lemma_excess_bits_is(n, t + j);
    }
}

/// A multiple of 2^j is a multiple of every smaller power of two.
pub proof fn lemma_multiple_of_smaller_power(x: int, j: nat, u: nat)
    requires
        0 <= x,
        u <= j,
    ensures
        (x * pow2(j)) % (pow2(u) as int) == 0,
        (x * pow2(j)) / (pow2(u) as int) == x * pow2((j - u) as nat),
{
    let d = (j - u) as nat;
    let c = pow2(u) as int;
    lemma_pow2_adds(d, u);
    lemma_pow2_pos(u);
    lemma_pow2_pos(d);
    let k = x * pow2(d);
    assert(x * pow2(j) == k * c) by (nonlinear_arith)
        requires
            pow2(j) == pow2(d) * c,
            k == x * pow2(d),
    ;
    assert(k >= 0) by (nonlinear_arith)
        requires
            k == x * pow2(d),
            x >= 0,
            pow2(d) > 0,
    ;
    lemma_mod_multiples_basic(k, c);
    lemma_div_by_multiple(k, c);
}

/// The nearest double scales with the number: doubling the number doubles
/// the double nearest to it.
pub proof fn lemma_nearest_double_scales(x: int, j: nat)
    requires
        0 <= x,
    ensures
        nearest_double(x * pow2(j)) == nearest_double(x) * pow2(j),
{
    let t = excess_bits(x);
    let b = pow2(j) as int;
    let n = x * b;
    lemma_pow2_pos(j);
    lemma_excess_bits_range(x);
    assert(n >= 0) by (nonlinear_arith)
        requires
            n == x * b,
            x >= 0,
            b > 0,
    ;
    if t == 0 {
        lemma2_to64();
        lemma2_to64_rest();
        lemma_nearest_double_exact(x);
        let u = excess_bits(n);
        lemma_excess_bits_range(n);
        lemma_pow2_adds(53, j);
        assert(n < pow2(53 + j)) by (nonlinear_arith)
            requires
                n == x * b,
                0 <= x < pow2(53),
                b > 0,
                pow2(53 + j) == pow2(53) * b,
        ;
        if u > j {
            if 52 + u > 53 + j {
                lemma_pow2_strictly_increases(53 + j, 52 + u);
            }
            assert(false);
        }
        let d = (j - u) as nat;
        let c = pow2(u) as int;
        lemma_pow2_adds(d, u);
        lemma_pow2_pos(u);
        lemma_pow2_pos(d);
        let k = x * pow2(d);
        assert(n == k * c) by (nonlinear_arith)
            requires
                n == x * b,
                b == pow2(d) * c,
                k == x * pow2(d),
        ;
        assert(k >= 0) by (nonlinear_arith)
            requires
                k == x * pow2(d),
                x >= 0,
                pow2(d) > 0,
        ;
        lemma_mod_multiples_basic(k, c);
        lemma_div_by_multiple(k, c);
    } else {
        lemma_pow2_adds(52 + t, j);
        lemma_pow2_adds(53 + t, j);
        assert(pow2(52 + t + j) <= n < pow2(53 + t + j)) by (nonlinear_arith)
            requires
                n == x * b,
                pow2(52 + t) <= x < pow2(53 + t),
                b > 0,
                pow2(52 + t + j) == pow2(52 + t) * b,
                pow2(53 + t + j) == pow2(53 + t) * b,
        ;
        lemma_excess_bits_is(n, t + j);
        lemma_round_half_even_scales(x, t, j);
    }
}

} // verus!
