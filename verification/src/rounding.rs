//! Rounding of rationals to the values of a single-precision number.
//!
//! Every finite value of the binary32 format is a whole multiple of `2^-149`,
//! its least positive value. Values are therefore spoken of as integers, in
//! that unit.
use vstd::arithmetic::div_mod::{lemma_fundamental_div_mod, lemma_mod_bound};
use vstd::arithmetic::power2::{lemma2_to64, lemma_pow2_adds, lemma_pow2_pos, lemma_pow2_unfold, pow2};
use vstd::prelude::*;

verus! {

/// The integer nearest to `n / d`, and of two equally near ones the even one.
pub open spec fn nearest_even(n: nat, d: nat) -> nat {
    let q = n / d;
    let r = n % d;
    if 2 * r < d || (2 * r == d && q % 2 == 0) {
        q
    } else {
        q + 1
    }
}

/// `n / d` units rounded to single precision, ties to even, as a number of
/// units. Below `2^24` units every integer is a value of the format; from
/// there on the resolution halves with every doubling.
pub open spec fn rounded(n: nat, d: nat) -> nat
    decreases n - d,
{
    if d == 0 {
        0
    } else if n < 0x100_0000 * d {
        nearest_even(n, d)
    } else {
        2 * rounded(n, 2 * d)
    }
}

/// `a / b * 2^e` units, rounded.
pub open spec fn scaled(a: nat, b: nat, e: int) -> nat {
    if e >= 0 {
        rounded(a * pow2(e as nat), b)
    } else {
        rounded(a, b * pow2((-e) as nat))
    }
}

/// How the result of `nearest_even` lies to the ratio.
pub proof fn lemma_nearest_even_bounds(n: nat, d: nat)
    requires
        d > 0,
    ensures
        -(d as int) <= 2 * (nearest_even(n, d) * d - n) <= d,
        2 * (nearest_even(n, d) * d - n) == d || 2 * (nearest_even(n, d) * d - n) == -(d as int)
            ==> nearest_even(n, d) % 2 == 0,
{
    let q = n / d;
    let r = n % d;
    lemma_fundamental_div_mod(n as int, d as int);
    lemma_mod_bound(n as int, d as int);
    assert(n == d * q + r);
    assert(q * d == d * q) by (nonlinear_arith);
    assert((q + 1) * d == d * q + d) by (nonlinear_arith);
}

/// An integer that lies to the ratio as `nearest_even` does is its result.
pub proof fn lemma_nearest_even_unique(n: nat, d: nat, m: nat)
    requires
        d > 0,
        -(d as int) <= 2 * (m * d - n) <= d,
        2 * (m * d - n) == d || 2 * (m * d - n) == -(d as int) ==> m % 2 == 0,
    ensures
        nearest_even(n, d) == m,
{
    let k = nearest_even(n, d);
    lemma_nearest_even_bounds(n, d);
    if k > m {
        assert(k * d >= m * d + d) by (nonlinear_arith)
            requires
                k >= m + 1,
        ;
        if k >= m + 2 {
            assert(k * d >= m * d + 2 * d) by (nonlinear_arith)
                requires
                    k >= m + 2,
            ;
        }
    }
    if k < m {
        assert(m * d >= k * d + d) by (nonlinear_arith)
            requires
                m >= k + 1,
        ;
        if m >= k + 2 {
            assert(m * d >= k * d + 2 * d) by (nonlinear_arith)
                requires
                    m >= k + 2,
            ;
        }
    }
}

/// A common factor of numerator and denominator changes nothing.
pub proof fn lemma_nearest_even_scale(k: nat, n: nat, d: nat)
    requires
        k > 0,
        d > 0,
    ensures
        nearest_even(k * n, k * d) == nearest_even(n, d),
{
    let m = nearest_even(n, d);
    lemma_nearest_even_bounds(n, d);
    let x = m * d - n;
    assert(m * (k * d) - k * n == k * x) by (nonlinear_arith)
        requires
            x == m * d - n,
    ;
    assert(-(k * d) <= 2 * (k * x) <= k * d) by (nonlinear_arith)
        requires
            -(d as int) <= 2 * x <= d,
    ;
    assert(2 * (k * x) == k * d ==> 2 * x == d) by (nonlinear_arith)
        requires
            k > 0,
    ;
    assert(2 * (k * x) == -(k * d) ==> 2 * x == -(d as int)) by (nonlinear_arith)
        requires
            k > 0,
    ;
    assert(k * d > 0) by (nonlinear_arith)
        requires
            k > 0,
            d > 0,
    ;
    lemma_nearest_even_unique(k * n, k * d, m);
}

/// `nearest_even` keeps the order of ratios with one denominator.
pub proof fn lemma_nearest_even_monotone(n1: nat, n2: nat, d: nat)
    requires
        d > 0,
        n1 <= n2,
    ensures
        nearest_even(n1, d) <= nearest_even(n2, d),
{
    let k1 = nearest_even(n1, d);
    let k2 = nearest_even(n2, d);
    lemma_nearest_even_bounds(n1, d);
    lemma_nearest_even_bounds(n2, d);
    if k1 > k2 {
        assert(k1 * d >= k2 * d + d) by (nonlinear_arith)
            requires
                k1 >= k2 + 1,
        ;
        if k1 >= k2 + 2 {
            assert(k1 * d >= k2 * d + 2 * d) by (nonlinear_arith)
                requires
                    k1 >= k2 + 2,
            ;
        }
    }
}

/// A common factor of numerator and denominator changes nothing.
pub proof fn lemma_rounded_scale(k: nat, n: nat, d: nat)
    requires
        k > 0,
        d > 0,
    ensures
        rounded(k * n, k * d) == rounded(n, d),
    decreases n - d,
{
    assert(k * d > 0) by (nonlinear_arith)
        requires
            k > 0,
            d > 0,
    ;
    assert(k * n < 0x100_0000 * (k * d) <==> n < 0x100_0000 * d) by (nonlinear_arith)
        requires
            k > 0,
    ;
    if n < 0x100_0000 * d {
        lemma_nearest_even_scale(k, n, d);
    } else {
        lemma_rounded_scale(k, n, 2 * d);
        assert(k * (2 * d) == 2 * (k * d)) by (nonlinear_arith);
    }
}

/// Moving a factor of two between the numerator and the exponent.
pub proof fn lemma_scaled_double_numerator(a: nat, b: nat, e: int)
    requires
        b > 0,
    ensures
        scaled(2 * a, b, e - 1) == scaled(a, b, e),
{
    lemma2_to64();
    if e >= 1 {
        lemma_pow2_unfold(e as nat);
        let p = pow2((e - 1) as nat);
        assert((2 * a) * p == a * (2 * p)) by (nonlinear_arith);
    } else {
        let p = pow2((-e) as nat);
        lemma_pow2_pos((-e) as nat);
        lemma_pow2_unfold((-e + 1) as nat);
        assert(b * (2 * p) == 2 * (b * p)) by (nonlinear_arith);
        assert(b * p > 0) by (nonlinear_arith)
            requires
                b > 0,
                p > 0,
        ;
        lemma_rounded_scale(2, a, b * p);
        if e == 0 {
            assert(a * pow2(0) == a && b * pow2(0) == b);
        }
    }
}

/// Moving a factor of two between the denominator and the exponent.
pub proof fn lemma_scaled_double_denominator(a: nat, b: nat, e: int)
    requires
        b > 0,
    ensures
        scaled(a, 2 * b, e + 1) == scaled(a, b, e),
{
    lemma2_to64();
    if e >= 0 {
        let p = pow2(e as nat);
        lemma_pow2_unfold((e + 1) as nat);
        assert(a * (2 * p) == 2 * (a * p)) by (nonlinear_arith);
        lemma_rounded_scale(2, a * p, b);
    } else {
        lemma_pow2_unfold((-e) as nat);
        let p = pow2((-e - 1) as nat);
        assert((2 * b) * p == b * (2 * p)) by (nonlinear_arith);
        if e == -1 {
            assert(a * pow2(0) == a && (2 * b) * pow2(0) == 2 * b);
        }
    }
}

/// Where the ratio lies in the binade of `2^e`, rounding keeps the multiple
/// of `2^e` nearest to it.
pub proof fn lemma_rounded_in_binade(n: nat, d: nat, e: nat)
    requires
        d > 0,
        0x80_0000 * (d * pow2(e)) <= n < 0x100_0000 * (d * pow2(e)),
    ensures
        rounded(n, d) == nearest_even(n, d * pow2(e)) * pow2(e),
    decreases e,
{
    lemma2_to64();
    if e == 0 {
        assert(d * pow2(0) == d);
    } else {
        let p = pow2((e - 1) as nat);
        lemma_pow2_unfold(e);
        lemma_pow2_pos((e - 1) as nat);
        assert(d * (2 * p) == (2 * d) * p) by (nonlinear_arith);
        assert(d * (2 * p) >= 2 * d) by (nonlinear_arith)
            requires
                p >= 1,
        ;
        lemma_rounded_in_binade(n, 2 * d, (e - 1) as nat);
        let m = nearest_even(n, (2 * d) * p);
        assert(2 * (m * p) == m * (2 * p)) by (nonlinear_arith);
    }
}

/// The value of a ratio whose numerator is normalised to 24 bits.
pub proof fn lemma_scaled_normal(a: nat, b: nat, e: int)
    requires
        b > 0,
        e >= 0,
        0x80_0000 * b <= a < 0x100_0000 * b,
    ensures
        scaled(a, b, e) == nearest_even(a, b) * pow2(e as nat),
{
    let p = pow2(e as nat);
    lemma_pow2_pos(e as nat);
    assert(0x80_0000 * (b * p) <= a * p < 0x100_0000 * (b * p)) by (nonlinear_arith)
        requires
            0x80_0000 * b <= a < 0x100_0000 * b,
            p > 0,
    ;
    lemma_rounded_in_binade(a * p, b, e as nat);
    lemma_nearest_even_scale(p, a, b);
    assert(p * a == a * p && p * b == b * p) by (nonlinear_arith);
}

/// Powers of two above and below the line make one exponent.
pub proof fn lemma_scaled_split(a: nat, b: nat, p: nat, q: nat)
    requires
        b > 0,
    ensures
        rounded(a * pow2(p), b * pow2(q)) == scaled(a, b, p - q),
{
    lemma_pow2_pos(p);
    lemma_pow2_pos(q);
    if p >= q {
        let s = pow2((p - q) as nat);
        lemma_pow2_adds((p - q) as nat, q);
        let t = pow2(q);
        assert(a * (s * t) == t * (a * s)) by (nonlinear_arith);
        assert(b * t == t * b) by (nonlinear_arith);
        lemma_rounded_scale(t, a * s, b);
    } else {
        let s = pow2((q - p) as nat);
        lemma_pow2_adds((q - p) as nat, p);
        lemma_pow2_pos((q - p) as nat);
        let t = pow2(p);
        assert(b * (s * t) == t * (b * s)) by (nonlinear_arith);
        assert(a * t == t * a) by (nonlinear_arith);
        assert(b * s > 0) by (nonlinear_arith)
            requires
                b > 0,
                s > 0,
        ;
        lemma_rounded_scale(t, a, b * s);
    }
}

/// Integers below `2^24` are kept as they are.
pub proof fn lemma_nearest_even_integer(n: nat)
    ensures
        nearest_even(n, 1) == n,
{
    lemma_nearest_even_unique(n, 1, n);
}

/// A ratio of at least `2^23` units rounds to at least that.
pub proof fn lemma_rounded_lower(n: nat, d: nat)
    requires
        d > 0,
        n >= 0x80_0000 * d,
    ensures
        rounded(n, d) >= 0x80_0000,
    decreases n - d,
{
    if n < 0x100_0000 * d {
        lemma_nearest_even_monotone(0x80_0000 * d, n, d);
        lemma_nearest_even_unique(0x80_0000 * d, d, 0x80_0000);
    } else {
        lemma_rounded_lower(n, 2 * d);
    }
}

/// Rounding keeps the order of ratios with one denominator.
pub proof fn lemma_rounded_monotone_numerator(n1: nat, n2: nat, d: nat)
    requires
        d > 0,
        n1 <= n2,
    ensures
        rounded(n1, d) <= rounded(n2, d),
    decreases n1 - d,
{
    if n2 < 0x100_0000 * d {
        lemma_nearest_even_monotone(n1, n2, d);
    } else if n1 < 0x100_0000 * d {
        lemma_nearest_even_monotone(n1, 0x100_0000 * d, d);
        lemma_nearest_even_unique(0x100_0000 * d, d, 0x100_0000);
        lemma_rounded_lower(n2, 2 * d);
    } else {
        lemma_rounded_monotone_numerator(n1, n2, 2 * d);
    }
}

/// Rounding keeps the order of ratios.
pub proof fn lemma_rounded_monotone(n1: nat, d1: nat, n2: nat, d2: nat)
    requires
        d1 > 0,
        d2 > 0,
        n1 * d2 <= n2 * d1,
    ensures
        rounded(n1, d1) <= rounded(n2, d2),
{
    lemma_rounded_scale(d2, n1, d1);
    lemma_rounded_scale(d1, n2, d2);
    assert(d2 * n1 == n1 * d2 && d1 * n2 == n2 * d1 && d2 * d1 == d1 * d2) by (nonlinear_arith);
    assert(d1 * d2 > 0) by (nonlinear_arith)
        requires
            d1 > 0,
            d2 > 0,
    ;
    lemma_rounded_monotone_numerator(n1 * d2, n2 * d1, d1 * d2);
}

/// How far rounding moves a ratio: by half a unit at most below `2^24` units,
/// and by `2^-24` of itself at most from `2^23` units on.
pub proof fn lemma_rounded_error(n: nat, d: nat)
    requires
        d > 0,
    ensures
        n < 0x100_0000 * d ==> -(d as int) <= 2 * (rounded(n, d) * d - n) <= d,
        n >= 0x80_0000 * d ==> -(n as int) <= 0x100_0000 * (rounded(n, d) * d - n) <= n,
    decreases n - d,
{
    if n < 0x100_0000 * d {
        lemma_nearest_even_bounds(n, d);
    } else {
        lemma_rounded_error(n, 2 * d);
        let r = rounded(n, 2 * d);
        assert((2 * r) * d == r * (2 * d)) by (nonlinear_arith);
    }
}

/// Rounding an integer moves it by `2^-24` of itself at most.
pub proof fn lemma_rounded_integer_error(n: nat)
    ensures
        -(n as int) <= 0x100_0000 * (rounded(n, 1) - n) <= n,
        n < 0x100_0000 ==> rounded(n, 1) == n,
{
    lemma_rounded_error(n, 1);
    if n < 0x100_0000 {
        lemma_nearest_even_integer(n);
    }
}

/// A value of the format is left as it is.
pub proof fn lemma_rounded_exact(m: nat, e: nat)
    requires
        m <= 0x100_0000,
    ensures
        rounded(m * pow2(e), 1) == m * pow2(e),
    decreases e,
{
    lemma2_to64();
    let n = m * pow2(e);
    if n < 0x100_0000 {
        lemma_nearest_even_integer(n);
    } else if e == 0 {
        assert(n == m) by (nonlinear_arith)
            requires
                n == m * pow2(0),
                pow2(0) == 1,
        ;
        lemma_rounded_scale(2, 0x80_0000, 1);
        lemma_nearest_even_integer(0x80_0000);
    } else {
        let p = pow2((e - 1) as nat);
        lemma_pow2_unfold(e);
        assert(n == 2 * (m * p)) by (nonlinear_arith)
            requires
                n == m * (2 * p),
        ;
        lemma_rounded_exact(m, (e - 1) as nat);
        lemma_rounded_scale(2, m * p, 1);
    }
}

/// Rounding a rounded value leaves it as it is.
pub proof fn lemma_rounded_idempotent(n: nat, d: nat)
    requires
        d > 0,
    ensures
        rounded(rounded(n, d), 1) == rounded(n, d),
    decreases n - d,
{
    if n < 0x100_0000 * d {
        lemma_nearest_even_monotone(n, 0x100_0000 * d, d);
        lemma_nearest_even_unique(0x100_0000 * d, d, 0x100_0000);
        lemma2_to64();
        lemma_rounded_exact(rounded(n, d), 0);
    } else {
        let r = rounded(n, 2 * d);
        lemma_rounded_idempotent(n, 2 * d);
        if 2 * r < 0x100_0000 {
            lemma_nearest_even_integer(2 * r);
        } else {
            lemma_rounded_scale(2, r, 1);
        }
    }
}

/// A ratio that does not exceed a value of the format does not after rounding.
pub proof fn lemma_rounded_at_most(n: nat, d: nat, u: nat)
    requires
        d > 0,
        rounded(u, 1) == u,
        n <= u * d,
    ensures
        rounded(n, d) <= u,
{
    lemma_rounded_monotone(n, d, u, 1);
}

/// A ratio that is not below a value of the format is not after rounding.
pub proof fn lemma_rounded_at_least(n: nat, d: nat, u: nat)
    requires
        d > 0,
        rounded(u, 1) == u,
        u * d <= n,
    ensures
        rounded(n, d) >= u,
{
    lemma_rounded_monotone(u, 1, n, d);
}

} // verus!
