//! The size that a picture is scaled to.
use crate::options::Mode;
use crate::rounding::{
    lemma_rounded_at_least, lemma_rounded_at_most, lemma_rounded_error, lemma_rounded_exact,
    lemma_rounded_idempotent, lemma_rounded_integer_error, lemma_rounded_monotone, lemma_rounded_scale,
    rounded,
};
use crate::single::{
    half_up, lemma_half_up_above, lemma_half_up_below, lemma_half_up_bounds, lemma_half_up_unique,
    lemma_whole, one, ratio, signed, Single, Value,
};
use vstd::arithmetic::power2::{lemma2_to64, lemma_pow2_adds, lemma_pow2_pos, lemma_pow2_strictly_increases, pow2};
use vstd::prelude::*;

verus! {

/// The greater of two integers.
pub open spec fn at_least(n: nat, least: nat) -> nat {
    if n < least {
        least
    } else {
        n
    }
}

/// The lesser of two integers.
pub open spec fn at_most(n: nat, most: nat) -> nat {
    if n > most {
        most
    } else {
        n
    }
}

/// The factor that takes the picture's width to its limit.
pub open spec fn width_scale(src_w: nat, max_w: nat) -> Value {
    ratio(max_w, 1).over(ratio(src_w, 1))
}

/// The factor that takes the picture's height to its limit, a cell counting as
/// twice as high as it is wide.
pub open spec fn height_scale(src_h: nat, max_h: nat) -> Value {
    ratio(max_h, 1).times(ratio(2, 1)).over(ratio(src_h, 1))
}

/// The factor that keeps the picture within both limits.
pub open spec fn fit_scale(src_w: nat, src_h: nat, max_w: nat, max_h: nat) -> Value {
    width_scale(src_w, max_w).least(height_scale(src_h, max_h))
}

/// The width of the scaled picture in cells. Single precision may take a very
/// wide one past its limit, which is what it gets then.
pub open spec fn scaled_columns(src_w: nat, src_h: nat, max_w: nat, max_h: nat) -> nat {
    at_most(
        ratio(src_w, 1).times(fit_scale(src_w, src_h, max_w, max_h)).nearest_integer(),
        max_w,
    )
}

/// The height of the scaled picture in cells, and no more than its limit.
pub open spec fn scaled_rows(src_w: nat, src_h: nat, max_w: nat, max_h: nat) -> nat {
    at_most(
        ratio(src_h, 1).times(fit_scale(src_w, src_h, max_w, max_h)).over(ratio(2, 1)).nearest_integer(),
        max_h,
    )
}

/// The size in pixels that a picture is scaled to: one pixel to a cell, or two
/// above each other.
pub open spec fn fitted(
    src_w: nat,
    src_h: nat,
    max_w: nat,
    max_h: nat,
    mode: Mode,
    fill: bool,
) -> (nat, nat) {
    let (columns, rows) = if fill {
        (max_w, max_h)
    } else {
        (scaled_columns(src_w, src_h, max_w, max_h), scaled_rows(src_w, src_h, max_w, max_h))
    };
    match mode {
        Mode::Ascii => (at_least(columns, 1), at_least(rows, 1)),
        Mode::Blocks => (at_least(columns, 2), 2 * at_least(rows, 1)),
    }
}

/// Doubling a number of the format is exact.
proof fn lemma_rounded_double(u: nat)
    requires
        rounded(u, 1) == u,
    ensures
        rounded(2 * u, 1) == 2 * u,
{
    if 2 * u >= 0x100_0000 {
        lemma_rounded_scale(2, u, 1);
    } else {
        lemma_rounded_integer_error(2 * u);
    }
}

/// A limit over a side: the quotient is finite, and `2^-24` of itself off at
/// most.
proof fn lemma_quotient(l: nat, d: nat) -> (q: nat)
    requires
        one() <= d <= 0x1_0000_0000 * one(),
        l <= 0x2_0000_0000 * one(),
        l >= one() || l == 0,
    ensures
        q == rounded(l * one(), d),
        Value::Finite(l as int).over(Value::Finite(d as int)) == Value::Finite(q as int),
        -(l * one()) <= 0x100_0000 * (q * d - l * one()) <= l * one(),
        q <= 0x2_0000_0000 * one(),
        l == 0 ==> q == 0,
        l > 0 ==> q * 0x1_0000_0000 >= one(),
{
    let k = one();
    let n = l * k;
    let q = rounded(n, d);
    lemma2_to64();
    lemma_pow2_pos(149);
    lemma_pow2_adds(33, 149);
    lemma_pow2_adds(32, 117);
    lemma_pow2_adds(64, 85);
    lemma_pow2_pos(85);
    lemma_pow2_strictly_increases(182, 277);
    lemma_rounded_exact(1, 182);
    lemma_rounded_exact(1, 117);
    assert(1 * pow2(182) == pow2(182) && 1 * pow2(117) == pow2(117));
    lemma_rounded_error(n, d);
    assert(pow2(33) == 0x2_0000_0000) by {
        lemma_pow2_adds(32, 1);
    }
    assert(n <= (0x2_0000_0000 * k) * d) by (nonlinear_arith)
        requires
            n == l * k,
            l <= 0x2_0000_0000 * k,
            k <= d,
    ;
    lemma_rounded_at_most(n, d, 0x2_0000_0000 * k);
    if l == 0 {
        assert(n == 0);
        lemma_rounded_exact(0, 0);
        lemma_rounded_at_most(0, d, 0);
        assert(q * d == 0);
    } else {
        assert(n >= 0x80_0000 * d) by (nonlinear_arith)
            requires
                n == l * k,
                l >= k,
                k >= 0x1_0000_0000_0000_0000,
                d <= 0x1_0000_0000 * k,
        ;
        let t = pow2(117);
        assert(t * d <= n) by (nonlinear_arith)
            requires
                n == l * k,
                l >= k,
                k == 0x1_0000_0000 * t,
                d <= 0x1_0000_0000 * k,
        ;
        lemma_rounded_at_least(n, d, t);
    }
    q
}

/// A side times a factor: the product is finite, and `2^-24` of itself off at
/// most.
proof fn lemma_product(d: nat, s: nat) -> (p: nat)
    requires
        one() <= d <= 0x1_0000_0000 * one(),
        s <= 0x2_0000_0000 * one(),
        s == 0 || s * 0x1_0000_0000 >= one(),
    ensures
        p == rounded(d * s, one()),
        Value::Finite(d as int).times(Value::Finite(s as int)) == Value::Finite(p as int),
        -(d * s) <= 0x100_0000 * (p * one() - d * s) <= d * s,
        rounded(p, 1) == p,
{
    let k = one();
    let n = d * s;
    let p = rounded(n, k);
    lemma2_to64();
    lemma_pow2_pos(149);
    lemma_pow2_adds(65, 149);
    lemma_pow2_adds(33, 32);
    lemma_pow2_adds(32, 1);
    lemma_pow2_adds(64, 85);
    lemma_pow2_pos(85);
    lemma_pow2_strictly_increases(214, 277);
    lemma_rounded_exact(1, 214);
    assert(1 * pow2(214) == pow2(214));
    lemma_rounded_error(n, k);
    lemma_rounded_idempotent(n, k);
    assert(n <= (0x2_0000_0000 * 0x1_0000_0000 * k) * k) by (nonlinear_arith)
        requires
            n == d * s,
            d <= 0x1_0000_0000 * k,
            s <= 0x2_0000_0000 * k,
    ;
    lemma_rounded_at_most(n, k, 0x2_0000_0000 * 0x1_0000_0000 * k);
    if s == 0 {
        assert(n == 0);
        lemma_rounded_exact(0, 0);
        lemma_rounded_at_most(0, k, 0);
        assert(p * k == 0);
    } else {
        assert(n >= 0x80_0000 * k) by (nonlinear_arith)
            requires
                n == d * s,
                d >= k,
                s * 0x1_0000_0000 >= k,
                k >= 0x1_0000_0000_0000_0000,
        ;
    }
    p
}

/// Neither factor is negative.
spec fn unsigned(v: Value) -> bool {
    match v {
        Value::Nan => true,
        Value::Infinite { negative } => !negative,
        Value::Finite(x) => x >= 0,
    }
}

proof fn lemma_limit_doubled(max_h: nat) -> (l: nat)
    requires
        max_h <= u32::MAX,
    ensures
        l == 2 * rounded(max_h * one(), 1),
        ratio(max_h, 1).times(ratio(2, 1)) == Value::Finite(l as int),
        l <= 0x2_0000_0000 * one(),
        l >= one() || l == 0,
        max_h <= 0x100_0000 ==> l == 2 * (max_h * one()),
        max_h > 0 ==> l > 0,
{
    let u = lemma_whole(max_h);
    let t = lemma_whole(2);
    let k = one();
    lemma_pow2_pos(149);
    lemma_rounded_double(u);
    assert(u * (2 * k) == k * (2 * u)) by (nonlinear_arith);
    lemma_rounded_scale(k, 2 * u, 1);
    assert(k * 1 == k);
    lemma2_to64();
    lemma_pow2_adds(32, 1);
    lemma_pow2_adds(33, 149);
    lemma_pow2_strictly_increases(182, 277);
    if max_h == 0 {
        assert(max_h * k == 0);
    }
    2 * u
}

proof fn lemma_width_scale(src_w: nat, max_w: nat)
    requires
        src_w <= u32::MAX,
        max_w <= u32::MAX,
    ensures
        unsigned(width_scale(src_w, max_w)),
{
    let l = lemma_whole(max_w);
    let d = lemma_whole(src_w);
    if max_w == 0 {
        assert(max_w * one() == 0);
    }
    if src_w == 0 {
        assert(src_w * one() == 0);
    } else {
        let q = lemma_quotient(l, d);
    }
}

proof fn lemma_height_scale(src_h: nat, max_h: nat)
    requires
        src_h <= u32::MAX,
        max_h <= u32::MAX,
    ensures
        unsigned(height_scale(src_h, max_h)),
{
    let l = lemma_limit_doubled(max_h);
    let d = lemma_whole(src_h);
    if src_h == 0 {
        assert(src_h * one() == 0);
    } else {
        let q = lemma_quotient(l, d);
    }
}

/// The factor where there is a side to scale.
proof fn lemma_fit_scale(src_w: nat, src_h: nat, max_w: nat, max_h: nat) -> (s: nat)
    requires
        src_w <= u32::MAX,
        src_h <= u32::MAX,
        max_w <= u32::MAX,
        max_h <= u32::MAX,
        src_w > 0 || src_h > 0,
    ensures
        fit_scale(src_w, src_h, max_w, max_h) == Value::Finite(s as int),
        s == 0 || s * 0x1_0000_0000 >= one(),
        s <= 0x2_0000_0000 * one(),
        src_w > 0 ==> s <= rounded(rounded(max_w * one(), 1) * one(), rounded(src_w * one(), 1)),
        src_h > 0 ==> s <= rounded(2 * rounded(max_h * one(), 1) * one(), rounded(src_h * one(), 1)),
        src_w > 0 && s == rounded(rounded(max_w * one(), 1) * one(), rounded(src_w * one(), 1)) || src_h
            > 0 && s == rounded(2 * rounded(max_h * one(), 1) * one(), rounded(src_h * one(), 1)),
{
    lemma_width_scale(src_w, max_w);
    lemma_height_scale(src_h, max_h);
    let wl = lemma_whole(max_w);
    let hl = lemma_limit_doubled(max_h);
    let wd = lemma_whole(src_w);
    let hd = lemma_whole(src_h);
    if max_w == 0 {
        assert(max_w * one() == 0);
    }
    if src_w == 0 {
        assert(src_w * one() == 0);
        let q = lemma_quotient(hl, hd);
        q
    } else if src_h == 0 {
        assert(src_h * one() == 0);
        let q = lemma_quotient(wl, wd);
        q
    } else {
        let qw = lemma_quotient(wl, wd);
        let qh = lemma_quotient(hl, hd);
        if qh < qw {
            qh
        } else {
            qw
        }
    }
}

/// Two roundings take a side past its limit by `2^-23` of it at most.
proof fn lemma_side_at_most(l: nat, d: nat, s: nat) -> (p: nat)
    requires
        l == 0 || l >= one(),
        l <= 0x2_0000_0000 * one(),
        one() <= d <= 0x1_0000_0000 * one(),
        s == 0 || s * 0x1_0000_0000 >= one(),
        s <= rounded(l * one(), d),
    ensures
        p == rounded(d * s, one()),
        rounded(p, 1) == p,
        Value::Finite(d as int).times(Value::Finite(s as int)) == Value::Finite(p as int),
        p * 0x1_0000_0000_0000 <= l * 0x1_0000_0200_0001,
        0x100_0000 * (d * s) <= 0x100_0001 * (l * one()),
        -(d * s) <= 0x100_0000 * (p * one() - d * s) <= d * s,
{
    let k = one();
    lemma_pow2_pos(149);
    let q = lemma_quotient(l, d);
    let p = lemma_product(d, s);
    assert(d * s <= q * d) by (nonlinear_arith)
        requires
            s <= q,
    ;
    let x = d * s;
    let y = l * k;
    let z = p * k;
    assert(0x100_0000 * z <= 0x100_0001 * x);
    assert(0x100_0000 * x <= 0x100_0001 * y);
    assert(z * 0x1_0000_0000_0000 <= y * 0x1_0000_0200_0001);
    assert(p * 0x1_0000_0000_0000 <= l * 0x1_0000_0200_0001) by (nonlinear_arith)
        requires
            k > 0,
            (p * k) * 0x1_0000_0000_0000 <= (l * k) * 0x1_0000_0200_0001,
    ;
    p
}

/// Two roundings leave a side that was to meet a limit of `n` steps of `2^e`
/// short of it by a step at most.
proof fn lemma_side_meets(n: nat, e: nat, l: nat, d: nat) -> (p: nat)
    requires
        1 <= n <= 0x100_0000,
        l == n * pow2(e),
        one() <= l <= 0x2_0000_0000 * one(),
        one() <= d <= 0x1_0000_0000 * one(),
    ensures
        p == rounded(d * rounded(l * one(), d), one()),
        p + pow2(e) >= l,
{
    let k = one();
    lemma_pow2_pos(149);
    let q = lemma_quotient(l, d);
    let p = lemma_product(d, q);
    assert(d * q == q * d) by (nonlinear_arith);
    let x = d * q;
    let y = l * k;
    assert(0x100_0000 * x >= 0xff_ffff * y);
    let step = pow2(e);
    let m = ((n - 1) as nat) * step;
    assert(x >= m * k) by (nonlinear_arith)
        requires
            0x100_0000 * x >= 0xff_ffff * (l * k),
            l == n * step,
            m == (n - 1) * step,
            1 <= n <= 0x100_0000,
    ;
    lemma_rounded_exact((n - 1) as nat, e);
    lemma_rounded_at_least(x, k, m);
    assert(m + step == l) by (nonlinear_arith)
        requires
            l == n * step,
            m == (n - 1) * step,
    ;
    p
}

/// Half of a number of the format: exact, but where it is far below one.
proof fn lemma_halved(q: nat) -> (r: nat)
    requires
        rounded(q, 1) == q,
    ensures
        Value::Finite(q as int).over(ratio(2, 1)) == signed(false, r),
        r <= q,
        2 * r == q || (q < 0x100_0000 && r <= 0x80_0000),
{
    let k = one();
    let t = lemma_whole(2);
    lemma_pow2_pos(149);
    let r = rounded(q, 2);
    assert(q * k == k * q && 2 * k == k * 2) by (nonlinear_arith);
    lemma_rounded_scale(k, q, 2);
    lemma_rounded_at_most(q, 2, q);
    if q < 0x100_0000 {
        lemma_rounded_exact(0x80_0000, 0);
        lemma2_to64();
        lemma_rounded_at_most(q, 2, 0x80_0000);
    }
    r
}

/// The size in pixels that a picture of `src_w` by `src_h` is scaled to, so
/// that it fits into `max_w` by `max_h` cells and keeps its proportions, or
/// fills them. A cell shows one pixel, or two above each other.
pub fn fit_image(
    src_w: u32,
    src_h: u32,
    max_w: u32,
    max_h: u32,
    mode: Mode,
    fill: bool,
) -> (size: (u32, u32))
    requires
        mode is Blocks && max_h >= 0x8000_0000 ==> fitted(
            src_w as nat,
            src_h as nat,
            max_w as nat,
            max_h as nat,
            mode,
            fill,
        ).1 <= u32::MAX,
    ensures
        (size.0 as nat, size.1 as nat) == fitted(
            src_w as nat,
            src_h as nat,
            max_w as nat,
            max_h as nat,
            mode,
            fill,
        ),
{
    let (columns, rows): (u32, u32) = if fill {
        (max_w, max_h)
    } else {
        let s_w = Single::from_u32(max_w).over(Single::from_u32(src_w));
        let s_h = Single::from_u32(max_h).times(Single::from_u32(2)).over(Single::from_u32(src_h));
        let s = s_w.least(s_h);
        let w = Single::from_u32(src_w).times(s).nearest_integer();
        let h = Single::from_u32(src_h).times(s).over(Single::from_u32(2)).nearest_integer();
        (
            if w > max_w {
                max_w
            } else {
                w
            },
            if h > max_h {
                max_h
            } else {
                h
            },
        )
    };
    match mode {
        Mode::Ascii => (
            if columns < 1 {
                1
            } else {
                columns
            },
            if rows < 1 {
                1
            } else {
                rows
            },
        ),
        Mode::Blocks => (
            if columns < 2 {
                2
            } else {
                columns
            },
            2 * (if rows < 1 {
                1
            } else {
                rows
            }),
        ),
    }
}

/// The scaled picture lies within the limits.
pub proof fn law_fit_within_limits(
    src_w: u32,
    src_h: u32,
    max_w: u32,
    max_h: u32,
    mode: Mode,
    fill: bool,
)
    requires
        max_h >= 1,
        max_w >= (if mode is Blocks {
            2int
        } else {
            1
        }),
    ensures
        ({
            let (w, h) = fitted(
                src_w as nat,
                src_h as nat,
                max_w as nat,
                max_h as nat,
                mode,
                fill,
            );
            &&& w >= 1
            &&& h >= 1
            &&& w <= max_w
            &&& h <= (if mode is Blocks {
                2 * max_h as int
            } else {
                max_h as int
            })
        }),
{
}

/// A picture that fills is as large as the limits, whatever its own size.
pub proof fn law_fill_meets_both_limits(src_w: u32, src_h: u32, max_w: u32, max_h: u32, mode: Mode)
    requires
        max_h >= 1,
        max_w >= (if mode is Blocks {
            2int
        } else {
            1
        }),
    ensures
        fitted(src_w as nat, src_h as nat, max_w as nat, max_h as nat, mode, true) == (
            max_w as nat,
            if mode is Blocks {
                2 * max_h as nat
            } else {
                max_h as nat
            },
        ),
{
}

/// Where the width decides, it meets its limit.
proof fn lemma_columns_met(sw: nat, sh: nat, mw: nat, mh: nat)
    requires
        1 <= sw <= u32::MAX,
        1 <= sh <= u32::MAX,
        1 <= mw <= 0x80_0000,
        mh <= u32::MAX,
        fit_scale(sw, sh, mw, mh) == Value::Finite(
            rounded(rounded(mw * one(), 1) * one(), rounded(sw * one(), 1)) as int,
        ),
    ensures
        scaled_columns(sw, sh, mw, mh) == mw,
{
    let k = one();
    lemma2_to64();
    lemma_pow2_pos(149);
    let wl = lemma_whole(mw);
    let wd = lemma_whole(sw);
    let s = lemma_quotient(wl, wd);
    let p = lemma_side_at_most(wl, wd, s);
    lemma_pow2_adds(1, 148);
    assert(wl == (2 * mw) * pow2(148)) by (nonlinear_arith)
        requires
            wl == mw * k,
            k == 2 * pow2(148),
    ;
    let p2 = lemma_side_meets(2 * mw, 148, wl, wd);
    lemma_half_up_above(p, k, mw);
}

/// Where the height decides, it meets its limit.
proof fn lemma_rows_met(sw: nat, sh: nat, mw: nat, mh: nat)
    requires
        1 <= sw <= u32::MAX,
        1 <= sh <= u32::MAX,
        mw <= u32::MAX,
        1 <= mh <= 0x80_0000,
        fit_scale(sw, sh, mw, mh) == Value::Finite(
            rounded(2 * rounded(mh * one(), 1) * one(), rounded(sh * one(), 1)) as int,
        ),
    ensures
        scaled_rows(sw, sh, mw, mh) == mh,
{
    let k = one();
    lemma2_to64();
    lemma_pow2_pos(149);
    lemma_pow2_strictly_increases(64, 149);
    let hl = lemma_limit_doubled(mh);
    let hd = lemma_whole(sh);
    let s = lemma_quotient(hl, hd);
    let q = lemma_side_at_most(hl, hd, s);
    assert(hl == (2 * mh) * k) by (nonlinear_arith)
        requires
            hl == 2 * (mh * k),
    ;
    let q2 = lemma_side_meets(2 * mh, 149, hl, hd);
    let r = lemma_halved(q);
    let m = mh * k;
    assert(k <= m) by (nonlinear_arith)
        requires
            m == mh * k,
            1 <= mh,
    ;
    lemma_half_up_above(r, k, mh);
}

/// Which limit decides: the one that asks for the lesser factor.
proof fn lemma_lesser_factor(sw: nat, sh: nat, mw: nat, mh: nat)
    requires
        1 <= sw <= 0x100_0000,
        1 <= sh <= 0x100_0000,
        1 <= mw <= 0x80_0000,
        1 <= mh <= 0x80_0000,
    ensures
        mw * sh <= 2 * mh * sw ==> fit_scale(sw, sh, mw, mh) == Value::Finite(
            rounded(rounded(mw * one(), 1) * one(), rounded(sw * one(), 1)) as int,
        ),
        mw * sh >= 2 * mh * sw ==> fit_scale(sw, sh, mw, mh) == Value::Finite(
            rounded(2 * rounded(mh * one(), 1) * one(), rounded(sh * one(), 1)) as int,
        ),
{
    let k = one();
    lemma_pow2_pos(149);
    let wl = lemma_whole(mw);
    let hl = lemma_limit_doubled(mh);
    let wd = lemma_whole(sw);
    let hd = lemma_whole(sh);
    let s = lemma_fit_scale(sw, sh, mw, mh);
    let a = (wl * k) * hd;
    let b = (hl * k) * wd;
    let k3 = k * k * k;
    assert(a == (mw * sh) * k3 && b == (2 * mh * sw) * k3) by (nonlinear_arith)
        requires
            a == (wl * k) * hd,
            b == (hl * k) * wd,
            wl == mw * k,
            hl == 2 * (mh * k),
            wd == sw * k,
            hd == sh * k,
            k3 == k * k * k,
    ;
    if mw * sh <= 2 * mh * sw {
        assert(a <= b) by (nonlinear_arith)
            requires
                a == (mw * sh) * k3,
                b == (2 * mh * sw) * k3,
                mw * sh <= 2 * mh * sw,
        ;
        lemma_rounded_monotone(wl * k, wd, hl * k, hd);
    }
    if mw * sh >= 2 * mh * sw {
        assert(b <= a) by (nonlinear_arith)
            requires
                a == (mw * sh) * k3,
                b == (2 * mh * sw) * k3,
                mw * sh >= 2 * mh * sw,
        ;
        lemma_rounded_monotone(hl * k, hd, wl * k, wd);
    }
}

/// A picture that is scaled to fit meets one of the limits, as long as they are
/// no more than `2^23`: it could be no larger. As long as its sides are no more
/// than `2^24`, it meets the width where it is too wide for the limits, a cell
/// being twice as high as it is wide, and the height where it is too high.
pub proof fn law_fit_meets_a_limit(src_w: u32, src_h: u32, max_w: u32, max_h: u32, mode: Mode)
    requires
        src_w >= 1,
        src_h >= 1,
        1 <= max_h <= 0x80_0000,
        max_w >= (if mode is Blocks {
            2int
        } else {
            1
        }),
        max_w <= 0x80_0000,
    ensures
        ({
            let (w, h) = fitted(
                src_w as nat,
                src_h as nat,
                max_w as nat,
                max_h as nat,
                mode,
                false,
            );
            let full = if mode is Blocks {
                2 * max_h as int
            } else {
                max_h as int
            };
            &&& w == max_w || h == full
            &&& src_w <= 0x100_0000 && src_h <= 0x100_0000 ==> {
                &&& max_w * src_h <= 2 * max_h * src_w ==> w == max_w
                &&& max_w * src_h >= 2 * max_h * src_w ==> h == full
            }
        }),
{
    let (sw, sh, mw, mh) = (src_w as nat, src_h as nat, max_w as nat, max_h as nat);
    let k = one();
    let s = lemma_fit_scale(sw, sh, mw, mh);
    if s == rounded(rounded(mw * k, 1) * k, rounded(sw * k, 1)) {
        lemma_columns_met(sw, sh, mw, mh);
    } else {
        lemma_rows_met(sw, sh, mw, mh);
    }
    if src_w <= 0x100_0000 && src_h <= 0x100_0000 {
        lemma_lesser_factor(sw, sh, mw, mh);
        if mw * sh <= 2 * mh * sw {
            lemma_columns_met(sw, sh, mw, mh);
        }
        if mw * sh >= 2 * mh * sw {
            lemma_rows_met(sw, sh, mw, mh);
        }
    }
}

/// The side that does not decide, scaled by a factor that takes `d` to `l`: it
/// is off by less than one part of `d`, or less than half of one.
proof fn lemma_other_side(l: nat, d: nat, e: nat, s: nat, p: nat, t: nat)
    requires
        -((l * one()) * one()) <= 0x100_0000 * (s * (d * one()) - (l * one()) * one()) <= (l * one())
            * one(),
        -((e * one()) * s) <= 0x100_0000 * (p * one() - (e * one()) * s) <= (e * one()) * s,
        1 <= t,
        t * (l * e) < 0x80_0000,
    ensures
        -one() < t * (p * d - (l * e) * one()) < one(),
{
    let k = one();
    lemma_pow2_pos(149);
    let x = l * e;
    let k2 = k * k;
    let a = p * d;
    let b = (e * s) * d;
    assert(-(x * k) <= 0x100_0000 * (b - x * k) <= x * k) by (nonlinear_arith)
        requires
            -((l * k) * k) <= 0x100_0000 * (s * (d * k) - (l * k) * k) <= (l * k) * k,
            x == l * e,
            b == (e * s) * d,
            k > 0,
    ;
    assert(-b <= 0x100_0000 * (a - b) <= b) by (nonlinear_arith)
        requires
            -((e * k) * s) <= 0x100_0000 * (p * k - (e * k) * s) <= (e * k) * s,
            a == p * d,
            b == (e * s) * d,
            k > 0,
    ;
    let y = x * k;
    assert(-(0x200_0001 * y) <= 0x1_0000_0000_0000 * (a - y) <= 0x200_0001 * y);
    let z = a - y;
    assert(-k < t * z < k) by (nonlinear_arith)
        requires
            -(0x200_0001 * y) <= 0x1_0000_0000_0000 * z <= 0x200_0001 * y,
            y == x * k,
            t * x <= 0x7f_ffff,
            t >= 1,
            k > 0,
    ;
}

/// Where one limit decides, the other side of the scaled picture is the number
/// of cells nearest to what keeps the proportions, a cell being twice as high as
/// it is wide. It holds as long as single precision tells the nearest cell: up
/// to `2^23` for the limit times the other side.
pub proof fn law_fit_takes_the_nearest_cell(src_w: u32, src_h: u32, max_w: u32, max_h: u32)
    requires
        1 <= src_w <= 0x100_0000,
        1 <= src_h <= 0x100_0000,
        1 <= max_w <= 0x80_0000,
        1 <= max_h <= 0x80_0000,
    ensures
        ({
            let w = scaled_columns(src_w as nat, src_h as nat, max_w as nat, max_h as nat);
            let h = scaled_rows(src_w as nat, src_h as nat, max_w as nat, max_h as nat);
            &&& max_w * src_h <= 2 * max_h * src_w && max_w * src_h < 0x80_0000 ==> {
                &&& w == max_w
                &&& -src_w <= 2 * h * src_w - max_w * src_h <= src_w
            }
            &&& max_w * src_h >= 2 * max_h * src_w && 4 * max_h * src_w < 0x80_0000 ==> {
                &&& h == max_h
                &&& -src_h <= 2 * (w * src_h - 2 * max_h * src_w) <= src_h
            }
        }),
{
    let (sw, sh, mw, mh) = (src_w as nat, src_h as nat, max_w as nat, max_h as nat);
    lemma_lesser_factor(sw, sh, mw, mh);
    if mw * sh <= 2 * mh * sw && mw * sh < 0x80_0000 {
        lemma_columns_met(sw, sh, mw, mh);
        lemma_rows_nearest(sw, sh, mw, mh);
    }
    if mw * sh >= 2 * mh * sw && 4 * mh * sw < 0x80_0000 {
        lemma_rows_met(sw, sh, mw, mh);
        lemma_columns_nearest(sw, sh, mw, mh);
    }
}

proof fn lemma_rows_nearest(sw: nat, sh: nat, mw: nat, mh: nat)
    requires
        1 <= sw <= 0x100_0000,
        1 <= sh <= 0x100_0000,
        1 <= mw <= 0x80_0000,
        1 <= mh <= 0x80_0000,
        mw * sh <= 2 * mh * sw,
        mw * sh < 0x80_0000,
    ensures
        -sw <= 2 * scaled_rows(sw, sh, mw, mh) * sw - mw * sh <= sw,
{
    let k = one();
    lemma2_to64();
    lemma_pow2_pos(149);
    lemma_pow2_strictly_increases(64, 149);
    lemma_pow2_adds(32, 149);
    lemma_pow2_strictly_increases(181, 277);
    lemma_lesser_factor(sw, sh, mw, mh);
    let wl = lemma_whole(mw);
    let hl = lemma_limit_doubled(mh);
    let wd = lemma_whole(sw);
    let hd = lemma_whole(sh);
    let s = lemma_fit_scale(sw, sh, mw, mh);
    let s2 = lemma_quotient(wl, wd);
    let q = lemma_side_at_most(hl, hd, s);
    lemma_other_side(mw, sw, sh, s, q, 1);
    let x = mw * sh;
    assert((x - 1) * k == x * k - k && (x + 1) * k == x * k + k) by (nonlinear_arith);
    let r = lemma_halved(q);
    let h = half_up(r, k);
    lemma_half_up_bounds(r, k);
    if 2 * r != q {
        lemma_half_up_unique(r, k, 0);
        assert(x <= 1) by (nonlinear_arith)
            requires
                q * sw > (x - 1) * k,
                q < 0x100_0000,
                sw <= 0x100_0000,
                k >= 0x1_0000_0000_0000,
        ;
        assert(2 * h * sw == 0) by (nonlinear_arith)
            requires
                h == 0,
        ;
    } else {
        assert((2 * h - 1) * sw <= x) by (nonlinear_arith)
            requires
                2 * (h * k) <= q + k,
                q * sw < (x + 1) * k,
                k > 0,
        ;
        assert(x <= (2 * h + 1) * sw) by (nonlinear_arith)
            requires
                q < 2 * (h * k) + k,
                q * sw > (x - 1) * k,
                k > 0,
                sw > 0,
        ;
        assert((2 * h - 1) * sw == 2 * h * sw - sw && (2 * h + 1) * sw == 2 * h * sw + sw)
            by (nonlinear_arith);
    }
    assert(h <= mh) by (nonlinear_arith)
        requires
            2 * h * sw - sw <= x,
            x <= 2 * mh * sw,
            sw > 0,
    ;
    assert(scaled_rows(sw, sh, mw, mh) == h);
}

proof fn lemma_columns_nearest(sw: nat, sh: nat, mw: nat, mh: nat)
    requires
        1 <= sw <= 0x100_0000,
        1 <= sh <= 0x100_0000,
        1 <= mw <= 0x80_0000,
        1 <= mh <= 0x80_0000,
        mw * sh >= 2 * mh * sw,
        4 * mh * sw < 0x80_0000,
    ensures
        -sh <= 2 * (scaled_columns(sw, sh, mw, mh) * sh - 2 * mh * sw) <= sh,
{
    let k = one();
    lemma2_to64();
    lemma_pow2_pos(149);
    lemma_pow2_strictly_increases(64, 149);
    lemma_pow2_adds(32, 149);
    lemma_pow2_strictly_increases(181, 277);
    lemma_lesser_factor(sw, sh, mw, mh);
    let wl = lemma_whole(mw);
    let hl = lemma_limit_doubled(mh);
    let wd = lemma_whole(sw);
    let hd = lemma_whole(sh);
    let s = lemma_fit_scale(sw, sh, mw, mh);
    let s2 = lemma_quotient(hl, hd);
    let p = lemma_side_at_most(wl, wd, s);
    let m2 = 2 * mh;
    assert(hl == m2 * k) by (nonlinear_arith)
        requires
            hl == 2 * (mh * k),
            m2 == 2 * mh,
    ;
    let x = m2 * sw;
    assert(x == 2 * mh * sw);
    assert(4 * mh * sw == 2 * x) by (nonlinear_arith)
        requires
            x == 2 * mh * sw,
    ;
    lemma_other_side(m2, sh, sw, s, p, 2);
    let w = half_up(p, k);
    lemma_half_up_bounds(p, k);
    assert((2 * w - 1) * sh <= 2 * x) by (nonlinear_arith)
        requires
            2 * (w * k) <= 2 * p + k,
            2 * (p * sh - x * k) < k,
            k > 0,
    ;
    assert(2 * x <= (2 * w + 1) * sh) by (nonlinear_arith)
        requires
            2 * p < 2 * (w * k) + k,
            2 * (p * sh - x * k) > -k,
            k > 0,
            sh > 0,
    ;
    assert((2 * w - 1) * sh == 2 * (w * sh) - sh && (2 * w + 1) * sh == 2 * (w * sh) + sh)
        by (nonlinear_arith);
    assert(w <= mw) by (nonlinear_arith)
        requires
            2 * (w * sh) - sh <= 2 * x,
            x <= mw * sh,
            sh > 0,
    ;
    assert(scaled_columns(sw, sh, mw, mh) == w);
}

/// Where two sides are scaled by one factor and rounded, the scaled sides are
/// to each other as the sides are, but for the rounding. The scaled sides are
/// `w` and `2 * h`, the sides `wd` and `hd`, and what is scaled before it is
/// rounded to whole cells `p` and `q`; `k` is one.
proof fn lemma_proportions(wd: nat, hd: nat, s: nat, k: nat, p: nat, q: nat, w: nat, h: nat)
    requires
        k > 0,
        -(wd * s) <= 0x100_0000 * (p * k - wd * s) <= wd * s,
        -(hd * s) <= 0x100_0000 * (q * k - hd * s) <= hd * s,
        wd * s <= 0x40_0000 * (k * k),
        2 * (w * k) <= 2 * p + k,
        2 * p <= 2 * (w * k) + k,
        2 * (h * k) <= q + k,
        q <= 2 * (h * k) + k,
    ensures
        -(wd + hd) <= w * hd - 2 * h * wd <= wd + hd,
{
    let k2 = k * k;
    let a = wd * s;
    let b = hd * s;
    let x = a * hd;
    let pk = (p * k) * hd;
    let qk = (q * k) * wd;
    let kh = k2 * hd;
    let kw = k2 * wd;
    let wt = (w * k2) * hd;
    let ht = (2 * h * k2) * wd;
    assert(x == b * wd) by (nonlinear_arith)
        requires
            x == (wd * s) * hd,
            b == hd * s,
    ;
    assert(-x <= 0x100_0000 * (pk - x) <= x) by (nonlinear_arith)
        requires
            -a <= 0x100_0000 * (p * k - a) <= a,
            x == a * hd,
            pk == (p * k) * hd,
    ;
    assert(-x <= 0x100_0000 * (qk - x) <= x) by (nonlinear_arith)
        requires
            -b <= 0x100_0000 * (q * k - b) <= b,
            x == b * wd,
            qk == (q * k) * wd,
    ;
    assert(x <= 0x40_0000 * kh) by (nonlinear_arith)
        requires
            a <= 0x40_0000 * k2,
            x == a * hd,
            kh == k2 * hd,
    ;
    assert(2 * (w * k2) <= 2 * (p * k) + k2 && 2 * (p * k) <= 2 * (w * k2) + k2) by (nonlinear_arith)
        requires
            2 * (w * k) <= 2 * p + k,
            2 * p <= 2 * (w * k) + k,
            k2 == k * k,
            k > 0,
    ;
    assert(2 * (h * k2) <= q * k + k2 && q * k <= 2 * (h * k2) + k2) by (nonlinear_arith)
        requires
            2 * (h * k) <= q + k,
            q <= 2 * (h * k) + k,
            k2 == k * k,
            k > 0,
    ;
    assert(2 * wt <= 2 * pk + kh && 2 * pk <= 2 * wt + kh) by (nonlinear_arith)
        requires
            2 * (w * k2) <= 2 * (p * k) + k2,
            2 * (p * k) <= 2 * (w * k2) + k2,
            wt == (w * k2) * hd,
            pk == (p * k) * hd,
            kh == k2 * hd,
    ;
    assert(ht <= qk + kw && qk <= ht + kw) by (nonlinear_arith)
        requires
            2 * (h * k2) <= q * k + k2,
            q * k <= 2 * (h * k2) + k2,
            ht == (2 * h * k2) * wd,
            qk == (q * k) * wd,
            kw == k2 * wd,
    ;
    assert(-(kh + kw) <= wt - ht <= kh + kw);
    let y = w * hd - 2 * h * wd;
    let z = wd + hd;
    assert(wt - ht == y * k2) by (nonlinear_arith)
        requires
            wt == (w * k2) * hd,
            ht == (2 * h * k2) * wd,
            y == w * hd - 2 * h * wd,
    ;
    assert(kh + kw == z * k2) by (nonlinear_arith)
        requires
            kh == k2 * hd,
            kw == k2 * wd,
            z == wd + hd,
    ;
    assert(k2 > 0) by (nonlinear_arith)
        requires
            k > 0,
            k2 == k * k,
    ;
    assert(-z <= y <= z) by (nonlinear_arith)
        requires
            -(z * k2) <= y * k2 <= z * k2,
            k2 > 0,
    ;
}

/// The scaled picture, a cell being twice as high as it is wide, has the
/// proportions of the picture, to within one of its own pixels on each side.
/// Sides from `2^24` on have no exact single-precision number; there it is two.
pub proof fn law_fit_keeps_proportions(src_w: u32, src_h: u32, max_w: u32, max_h: u32)
    requires
        src_w >= 1,
        src_h >= 1,
        max_w < 0x40_0000,
        max_h < 0x40_0000,
    ensures
        ({
            let w = scaled_columns(src_w as nat, src_h as nat, max_w as nat, max_h as nat);
            let h = scaled_rows(src_w as nat, src_h as nat, max_w as nat, max_h as nat);
            let skew = w * src_h - 2 * h * src_w;
            let slack = src_w + src_h;
            &&& src_w <= 0x100_0000 && src_h <= 0x100_0000 ==> -slack <= skew <= slack
            &&& -(2 * slack) <= skew <= 2 * slack
        }),
{
    let k = one();
    let (sw, sh, mw, mh) = (src_w as nat, src_h as nat, max_w as nat, max_h as nat);
    lemma2_to64();
    lemma_pow2_pos(149);
    lemma_pow2_strictly_increases(64, 149);
    let wl = lemma_whole(mw);
    let hl = lemma_limit_doubled(mh);
    let wd = lemma_whole(sw);
    let hd = lemma_whole(sh);
    if mw == 0 {
        assert(mw * k == 0) by (nonlinear_arith)
            requires
                mw == 0,
        ;
    }
    let s = lemma_fit_scale(sw, sh, mw, mh);
    let p = lemma_side_at_most(wl, wd, s);
    let q = lemma_side_at_most(hl, hd, s);
    let r = lemma_halved(q);
    assert(wl <= 0x3f_ffff * k) by (nonlinear_arith)
        requires
            wl == mw * k,
            mw <= 0x3f_ffff,
    ;
    assert(hl <= 2 * (0x3f_ffff * k)) by (nonlinear_arith)
        requires
            hl == 2 * (mh * k),
            mh <= 0x3f_ffff,
    ;
    assert(wd * s <= 0x40_0000 * (k * k)) by (nonlinear_arith)
        requires
            0x100_0000 * (wd * s) <= 0x100_0001 * (wl * k),
            wl <= 0x3f_ffff * k,
    ;
    let w = half_up(p, k);
    let h = half_up(r, k);
    lemma_half_up_bounds(p, k);
    lemma_half_up_bounds(r, k);
    if q < 0x100_0000 {
        lemma_half_up_unique(r, k, 0);
        assert(h * k == 0);
    }
    lemma_pow2_adds(32, 149);
    lemma_pow2_strictly_increases(181, 277);
    lemma_half_up_below(p, k, mw);
    lemma_half_up_below(r, k, mh);
    assert(w == scaled_columns(sw, sh, mw, mh));
    assert(h == scaled_rows(sw, sh, mw, mh));
    lemma_proportions(wd, hd, s, k, p, q, w, h);
    let y = w * sh - 2 * h * sw;
    let v = w * hd - 2 * h * wd;
    if sw <= 0x100_0000 && sh <= 0x100_0000 {
        assert(-(sw + sh) <= y <= sw + sh) by (nonlinear_arith)
            requires
                wd == sw * k,
                hd == sh * k,
                v == w * hd - 2 * h * wd,
                y == w * sh - 2 * h * sw,
                -(wd + hd) <= v <= wd + hd,
                k > 0,
        ;
    }
    let ws = sw * k;
    let hs = sh * k;
    let e1 = w * (hd - hs);
    let e2 = h * (wd - ws);
    assert(-hs <= 4 * e1 <= hs) by (nonlinear_arith)
        requires
            -hs <= 0x100_0000 * (hd - hs) <= hs,
            w <= 0x40_0000,
            e1 == w * (hd - hs),
    ;
    assert(-ws <= 4 * e2 <= ws) by (nonlinear_arith)
        requires
            -ws <= 0x100_0000 * (wd - ws) <= ws,
            h <= 0x40_0000,
            e2 == h * (wd - ws),
    ;
    assert(y * k == v - e1 + 2 * e2) by (nonlinear_arith)
        requires
            ws == sw * k,
            hs == sh * k,
            e1 == w * (hd - hs),
            e2 == h * (wd - ws),
            v == w * hd - 2 * h * wd,
            y == w * sh - 2 * h * sw,
    ;
    assert(-(2 * (sw + sh)) <= y <= 2 * (sw + sh)) by (nonlinear_arith)
        requires
            -(2 * (ws + hs)) <= y * k <= 2 * (ws + hs),
            ws == sw * k,
            hs == sh * k,
            k > 0,
    ;
}

/// The size that a picture is shown at has the picture's proportions, for
/// characters and for half blocks. A character counts as two pixels high, a half
/// block as one. No side is longer than these ask for, unless it has its least
/// length, by more than one of the picture's own pixels on each side; sides from
/// `2^24` on have no exact single-precision number, and there it is two.
pub proof fn law_size_keeps_proportions(src_w: u32, src_h: u32, max_w: u32, max_h: u32, mode: Mode)
    requires
        src_w >= 1,
        src_h >= 1,
        max_w < 0x40_0000,
        max_h < 0x40_0000,
    ensures
        ({
            let (w, h) = fitted(src_w as nat, src_h as nat, max_w as nat, max_h as nat, mode, false);
            let (least_w, tall) = if mode is Blocks {
                (2int, h as int)
            } else {
                (1int, 2 * h as int)
            };
            let slack = if src_w <= 0x100_0000 && src_h <= 0x100_0000 {
                src_w + src_h
            } else {
                2 * (src_w + src_h)
            };
            &&& w >= least_w
            &&& tall >= 2
            &&& w > least_w ==> w * src_h - tall * src_w <= slack
            &&& tall > 2 ==> tall * src_w - w * src_h <= slack
        }),
{
    law_fit_keeps_proportions(src_w, src_h, max_w, max_h);
    let (sw, sh, mw, mh) = (src_w as nat, src_h as nat, max_w as nat, max_h as nat);
    let a = scaled_columns(sw, sh, mw, mh);
    let b = scaled_rows(sw, sh, mw, mh);
    let w = fitted(sw, sh, mw, mh, mode, false).0;
    let tall = 2 * at_least(b, 1);
    assert(a * sh <= w * sh) by (nonlinear_arith)
        requires
            a <= w,
    ;
    assert(2 * b * sw <= tall * sw) by (nonlinear_arith)
        requires
            2 * b <= tall,
    ;
}

/// Where one limit decides the size at which a picture is shown, the other side is
/// the number of cells nearest to what keeps the proportions, or the least
/// length where that is more; a cell is twice as high as it is wide. It holds as
/// long as single precision tells the nearest cell: up to `2^23` for the limit
/// times the other side.
pub proof fn law_size_takes_the_nearest_cell(src_w: u32, src_h: u32, max_w: u32, max_h: u32, mode: Mode)
    requires
        1 <= src_w <= 0x100_0000,
        1 <= src_h <= 0x100_0000,
        1 <= max_h <= 0x80_0000,
        max_w >= (if mode is Blocks {
            2int
        } else {
            1
        }),
        max_w <= 0x80_0000,
    ensures
        ({
            let (w, h) = fitted(src_w as nat, src_h as nat, max_w as nat, max_h as nat, mode, false);
            let (least_w, lines) = if mode is Blocks {
                (2int, h / 2)
            } else {
                (1int, h)
            };
            &&& mode is Blocks ==> h == 2 * lines
            &&& max_w * src_h <= 2 * max_h * src_w && max_w * src_h < 0x80_0000 ==> {
                &&& w == max_w
                &&& max_w * src_h - 2 * lines * src_w <= src_w
                &&& lines > 1 ==> 2 * lines * src_w - max_w * src_h <= src_w
            }
            &&& max_w * src_h >= 2 * max_h * src_w && 4 * max_h * src_w < 0x80_0000 ==> {
                &&& lines == max_h
                &&& 2 * (2 * max_h * src_w - w * src_h) <= src_h
                &&& w > least_w ==> 2 * (w * src_h - 2 * max_h * src_w) <= src_h
            }
        }),
{
    law_fit_takes_the_nearest_cell(src_w, src_h, max_w, max_h);
    let (sw, sh, mw, mh) = (src_w as nat, src_h as nat, max_w as nat, max_h as nat);
    let a = scaled_columns(sw, sh, mw, mh);
    let b = scaled_rows(sw, sh, mw, mh);
    let w = fitted(sw, sh, mw, mh, mode, false).0;
    let lines = at_least(b, 1);
    assert(a * sh <= w * sh) by (nonlinear_arith)
        requires
            a <= w,
    ;
    assert(2 * b * sw <= 2 * lines * sw) by (nonlinear_arith)
        requires
            b <= lines,
    ;
}

/// Half blocks show a picture on the same cells as characters do, with two rows
/// of pixels to each, but for a picture of one column, which takes two.
pub proof fn law_modes_share_cells(src_w: u32, src_h: u32, max_w: u32, max_h: u32, fill: bool)
    ensures
        ({
            let (sw, sh, mw, mh) = (src_w as nat, src_h as nat, max_w as nat, max_h as nat);
            let (columns, rows) = fitted(sw, sh, mw, mh, Mode::Ascii, fill);
            let (w, h) = fitted(sw, sh, mw, mh, Mode::Blocks, fill);
            &&& h == 2 * rows
            &&& w == columns || columns == 1 && w == 2
        }),
{
}

} // verus!
