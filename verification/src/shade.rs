//! What a pixel's colour becomes on the screen.
use crate::rounding::{
    lemma_rounded_at_least, lemma_rounded_at_most, lemma_rounded_error, lemma_rounded_exact, lemma_rounded_idempotent, lemma_rounded_integer_error,
    lemma_rounded_monotone, lemma_rounded_monotone_numerator, lemma_rounded_scale, rounded,
};
use crate::single::{
    half_up, lemma_half_up_above, lemma_half_up_below, lemma_half_up_bounds, lemma_half_up_unique,
    lemma_whole, magnitude, one,
    ratio, signed, Single, Value,
};
use crate::text::Rgb;
use vstd::arithmetic::power2::{lemma2_to64, lemma_pow2_adds, lemma_pow2_pos, lemma_pow2_strictly_increases, pow2};
use vstd::prelude::*;

verus! {

/// The characters of the brightness ramp, from the lightest to the densest.
pub const RAMP: [char; 70] = [
    ' ', '.', '\'', '`', '^', '"', ',', ':', ';', 'I', 'l', '!', 'i', '>',
    '<', '~', '+', '_', '-', '?', ']', '[', '}', '{', '1', ')', '(', '|',
    '\\', '/', 't', 'f', 'j', 'r', 'x', 'n', 'u', 'v', 'c', 'z', 'X', 'Y',
    'U', 'J', 'C', 'L', 'Q', '0', 'O', 'Z', 'm', 'w', 'q', 'p', 'd', 'b',
    'k', 'h', 'a', 'o', '*', '#', 'M', 'W', '&', '8', '%', 'B', '@', '$',
];

/// One less a number.
pub open spec fn complement(v: Value) -> Value {
    Value::Finite(one() as int).plus(v.negated())
}

/// A colour channel after brightness and inversion.
pub open spec fn adjusted(c: nat, brightness: Value, invert: bool) -> nat {
    let v = ratio(c, 1).over(ratio(255, 1)).times(brightness);
    let v = if invert {
        complement(v)
    } else {
        v
    };
    v.clamped().times(ratio(255, 1)).nearest_integer()
}

/// The luminance of a colour, by the weights of Rec. 601.
pub open spec fn luminance(c: Rgb) -> Value {
    ratio(299, 1000).times(ratio(c.0 as nat, 1)).plus(
        ratio(587, 1000).times(ratio(c.1 as nat, 1)),
    ).plus(ratio(114, 1000).times(ratio(c.2 as nat, 1))).over(ratio(255, 1))
}

/// The place in the ramp of a colour after brightness and inversion.
pub open spec fn ramp_index(c: Rgb, brightness: Value, invert: bool) -> nat {
    let v = luminance(c).times(brightness).clamped();
    let v = if invert {
        complement(v)
    } else {
        v
    };
    v.times(ratio(69, 1)).nearest_integer()
}

/// The character of the ramp for a colour after brightness and inversion.
#[verifier::opaque]
pub open spec fn ramp_glyph(c: Rgb, brightness: Value, invert: bool) -> char {
    RAMP[ramp_index(c, brightness, invert) as int]
}

/// Within `0..=1`, or no number.
pub open spec fn in_unit(v: Value) -> bool {
    match v {
        Value::Nan => true,
        Value::Infinite { .. } => false,
        Value::Finite(x) => 0 <= x <= one(),
    }
}

/// A clamped number lies within the bounds.
proof fn lemma_clamped(v: Value)
    ensures
        in_unit(v.clamped()),
{
    lemma_pow2_pos(149);
}

/// The complement of a number within the bounds lies within them.
proof fn lemma_complement(v: Value)
    requires
        in_unit(v),
    ensures
        in_unit(complement(v)),
{
    lemma_pow2_pos(149);
    if let Value::Finite(x) = v {
        let n = (one() - x) as nat;
        lemma_rounded_exact(1, 149);
        assert(1 * pow2(149) == one());
        lemma_rounded_at_most(n, 1, one());
        lemma_pow2_strictly_increases(149, 277);
    }
}

/// A number within the bounds scaled to a few levels.
proof fn lemma_levels(v: Value, n: nat) -> (p: nat)
    requires
        in_unit(v),
        n <= 255,
    ensures
        v matches Value::Finite(x) ==> {
            &&& p == rounded((x * n) as nat, 1)
            &&& v.times(ratio(n, 1)) == Value::Finite(p as int)
            &&& v.times(ratio(n, 1)).nearest_integer() == half_up(p, one())
        },
        v is Nan ==> v.times(ratio(n, 1)).nearest_integer() == 0,
        v.times(ratio(n, 1)).nearest_integer() <= n,
{
    let k = one();
    lemma2_to64();
    lemma_pow2_pos(149);
    let u = lemma_whole(n);
    if let Value::Finite(x) = v {
        let a = x as nat;
        let p = rounded(a * n, 1);
        assert(a * (n * k) == k * (a * n)) by (nonlinear_arith);
        lemma_rounded_scale(k, a * n, 1);
        assert(a * n <= n * k) by (nonlinear_arith)
            requires
                a <= k,
        ;
        lemma_rounded_at_most(a * n, 1, n * k);
        lemma_half_up_below(p, k, n);
        lemma_pow2_strictly_increases(181, 277);
        lemma_pow2_adds(32, 149);
        assert(n * k <= 255 * k) by (nonlinear_arith)
            requires
                n <= 255,
        ;
        p
    } else {
        0
    }
}

/// A colour channel after brightness and inversion.
pub fn adjust(c: u8, brightness: Single, invert: bool) -> (r: u8)
    ensures
        r == adjusted(c as nat, brightness@, invert),
{
    let v = Single::from_u32(c as u32).over(Single::from_u32(255)).times(brightness);
    let v = if invert {
        Single::one().plus(v.negated())
    } else {
        v
    };
    proof {
        lemma_clamped(v@);
        let p = lemma_levels(v@.clamped(), 255);
    }
    v.clamped().times(Single::from_u32(255)).nearest_integer() as u8
}

/// The character of the ramp for a colour after brightness and inversion.
pub fn ramp_char(c: Rgb, brightness: Single, invert: bool) -> (ch: char)
    ensures
        ramp_index(c, brightness@, invert) < 70,
        ch == ramp_glyph(c, brightness@, invert),
{
    proof {
        reveal(ramp_glyph);
    }
    let red = Single::from_ratio(299, 1000).times(Single::from_u32(c.0 as u32));
    let green = Single::from_ratio(587, 1000).times(Single::from_u32(c.1 as u32));
    let blue = Single::from_ratio(114, 1000).times(Single::from_u32(c.2 as u32));
    let luminance = red.plus(green).plus(blue).over(Single::from_u32(255));
    let v = luminance.times(brightness).clamped();
    proof {
        lemma_clamped(luminance@.times(brightness@));
        lemma_complement(v@);
    }
    let v = if invert {
        Single::one().plus(v.negated())
    } else {
        v
    };
    proof {
        let p = lemma_levels(v@, 69);
    }
    let i: usize = v.times(Single::from_u32(69)).nearest_integer() as usize;
    RAMP[i]
}

/// A channel as a fraction of its range, in units: finite, at most one, and off
/// by `2^-24` of itself at most.
proof fn lemma_fraction(c: nat) -> (d: nat)
    requires
        c <= 255,
    ensures
        d == rounded(c * one(), 255),
        ratio(c, 1).over(ratio(255, 1)) == Value::Finite(d as int),
        d <= one(),
        rounded(d, 1) == d,
        -(c * one()) <= 0x100_0000 * (255 * d - c * one()) <= c * one(),
{
    let k = one();
    lemma2_to64();
    lemma_pow2_pos(149);
    lemma_pow2_strictly_increases(64, 149);
    lemma_pow2_strictly_increases(149, 277);
    let u = lemma_whole(c);
    let t = lemma_whole(255);
    let d = rounded(c * k, 255);
    assert((c * k) * k == k * (c * k) && 255 * k == k * 255) by (nonlinear_arith);
    lemma_rounded_scale(k, c * k, 255);
    lemma_rounded_idempotent(c * k, 255);
    lemma_rounded_error(c * k, 255);
    lemma_rounded_exact(1, 149);
    assert(1 * pow2(149) == k);
    assert(c * k <= k * 255) by (nonlinear_arith)
        requires
            c <= 255,
    ;
    lemma_rounded_at_most(c * k, 255, k);
    if c == 0 {
        assert(c * k == 0);
        lemma_rounded_at_most(0, 255, 0);
    } else {
        assert(c * k >= k) by (nonlinear_arith)
            requires
                c >= 1,
        ;
    }
    d
}

/// A number times one is itself.
proof fn lemma_times_one(d: nat)
    requires
        rounded(d, 1) == d,
        d < pow2(277),
    ensures
        Value::Finite(d as int).times(Value::Finite(one() as int)) == Value::Finite(d as int),
{
    let k = one();
    lemma_pow2_pos(149);
    assert(d * k == k * d && k * 1 == k) by (nonlinear_arith);
    lemma_rounded_scale(k, d, 1);
}

/// A brightness of one leaves every channel as it is.
pub proof fn law_brightness_one_changes_nothing(c: u8)
    ensures
        adjusted(c as nat, Value::Finite(one() as int), false) == c,
{
    let k = one();
    let n = c as nat;
    lemma_pow2_pos(149);
    lemma_pow2_strictly_increases(149, 277);
    let d = lemma_fraction(n);
    lemma_times_one(d);
    let v = Value::Finite(d as int);
    assert(v.clamped() == v);
    let p = lemma_levels(v, 255);
    lemma_rounded_integer_error(d * 255);
    let m = n * k;
    assert(m <= 255 * k) by (nonlinear_arith)
        requires
            m == n * k,
            n <= 255,
    ;
    lemma_half_up_below(p, k, n);
    lemma_half_up_above(p, k, n);
}

/// At a brightness of one, inverting takes every channel to the other end of its
/// range.
pub proof fn law_invert_is_complement(c: u8)
    ensures
        adjusted(c as nat, Value::Finite(one() as int), true) == 255 - c,
{
    let k = one();
    let n = c as nat;
    let o = (255 - n) as nat;
    lemma_pow2_pos(149);
    lemma_pow2_strictly_increases(149, 277);
    let d = lemma_fraction(n);
    lemma_times_one(d);
    let e = rounded((k - d) as nat, 1);
    lemma_rounded_integer_error((k - d) as nat);
    lemma_complement(Value::Finite(d as int));
    let v = complement(Value::Finite(d as int));
    assert(v == Value::Finite(e as int));
    assert(v.clamped() == v);
    let p = lemma_levels(v, 255);
    lemma_rounded_integer_error(e * 255);
    let m = o * k;
    assert(m == 255 * k - n * k && m <= 255 * k && n * k <= 255 * k) by (nonlinear_arith)
        requires
            m == o * k,
            o == 255 - n,
            n <= 255,
    ;
    lemma_half_up_below(p, k, o);
    lemma_half_up_above(p, k, o);
}

/// A magnitude clamped to one.
spec fn at_most_one(a: nat) -> nat {
    if a < one() {
        a
    } else {
        one()
    }
}

/// What clamping makes of a magnitude, and of its complement.
proof fn lemma_clamped_magnitude(a: nat)
    ensures
        signed(false, a).clamped() == Value::Finite(at_most_one(a) as int),
        complement(signed(false, a)).clamped() == Value::Finite(
            rounded((one() - at_most_one(a)) as nat, 1) as int,
        ),
        rounded((one() - at_most_one(a)) as nat, 1) <= one(),
{
    let k = one();
    lemma_pow2_pos(149);
    lemma_pow2_strictly_increases(149, 277);
    lemma_rounded_integer_error(0);
    lemma_rounded_exact(1, 149);
    assert(1 * pow2(149) == k);
    lemma_rounded_at_most((k - at_most_one(a)) as nat, 1, k);
}

/// Not negative: a brightness that darkens or brightens, but does not turn.
pub open spec fn is_brightness(b: Value) -> bool {
    !b.below(Value::Finite(0))
}

/// Two numbers within the bounds keep their order on the levels.
proof fn lemma_levels_ordered(x1: nat, x2: nat, n: nat)
    requires
        x1 <= x2 <= one(),
        n <= 255,
    ensures
        Value::Finite(x1 as int).times(ratio(n, 1)).nearest_integer() <= Value::Finite(x2 as int).times(
            ratio(n, 1),
        ).nearest_integer(),
{
    lemma_pow2_pos(149);
    let p1 = lemma_levels(Value::Finite(x1 as int), n);
    let p2 = lemma_levels(Value::Finite(x2 as int), n);
    assert(x1 * n <= x2 * n) by (nonlinear_arith)
        requires
            x1 <= x2,
    ;
    lemma_rounded_monotone(x1 * n, 1, x2 * n, 1);
    lemma_half_up_bounds(p1, one());
    lemma_half_up_above(p2, one(), half_up(p1, one()));
}

/// The more of a thing before brightness, the more of it after, and the less of
/// it where it is inverted.
proof fn lemma_levels_monotone(a1: nat, a2: nat, b: Value, n: nat)
    requires
        a1 <= a2 < pow2(277),
        is_brightness(b),
        n <= 255,
    ensures
        ({
            let v1 = Value::Finite(a1 as int).times(b);
            let v2 = Value::Finite(a2 as int).times(b);
            &&& v1.clamped().times(ratio(n, 1)).nearest_integer() <= v2.clamped().times(
                ratio(n, 1),
            ).nearest_integer()
            &&& complement(v1).clamped().times(ratio(n, 1)).nearest_integer() >= complement(
                v2,
            ).clamped().times(ratio(n, 1)).nearest_integer()
            &&& complement(v1.clamped()).times(ratio(n, 1)).nearest_integer() >= complement(
                v2.clamped(),
            ).times(ratio(n, 1)).nearest_integer()
        }),
{
    let k = one();
    lemma2_to64();
    lemma_pow2_pos(149);
    lemma_pow2_strictly_increases(149, 277);
    let t = lemma_whole(n);
    match b {
        Value::Nan => {},
        Value::Infinite { negative } => {
            lemma_rounded_integer_error(0);
            let o = lemma_levels(Value::Finite(0), n);
            let p = lemma_levels(Value::Finite(k as int), n);
            lemma_rounded_integer_error((0 * n) as nat);
            lemma_half_up_unique(0, k, 0);
        },
        Value::Finite(y) => {
            let c = y as nat;
            assert(a1 * c <= a2 * c) by (nonlinear_arith)
                requires
                    a1 <= a2,
            ;
            let m1 = rounded(a1 * c, k);
            let m2 = rounded(a2 * c, k);
            lemma_rounded_monotone_numerator(a1 * c, a2 * c, k);
            lemma_clamped_magnitude(m1);
            lemma_clamped_magnitude(m2);
            let x1 = at_most_one(m1);
            let x2 = at_most_one(m2);
            lemma_levels_ordered(x1, x2, n);
            let z1 = rounded((k - x1) as nat, 1);
            let z2 = rounded((k - x2) as nat, 1);
            lemma_rounded_monotone_numerator((k - x2) as nat, (k - x1) as nat, 1);
            lemma_levels_ordered(z2, z1, n);
            lemma_complement(Value::Finite(x1 as int));
            lemma_complement(Value::Finite(x2 as int));
            lemma_clamped_magnitude(x1);
            lemma_clamped_magnitude(x2);
        },
    }
}

/// A brighter channel stays at least as bright, and becomes at most as bright
/// where it is inverted.
pub proof fn law_adjust_keeps_order(c1: u8, c2: u8, brightness: Value)
    requires
        c1 <= c2,
        is_brightness(brightness),
    ensures
        adjusted(c1 as nat, brightness, false) <= adjusted(c2 as nat, brightness, false),
        adjusted(c1 as nat, brightness, true) >= adjusted(c2 as nat, brightness, true),
{
    let k = one();
    let d1 = lemma_fraction(c1 as nat);
    let d2 = lemma_fraction(c2 as nat);
    assert(c1 * k <= c2 * k) by (nonlinear_arith)
        requires
            c1 <= c2,
    ;
    lemma_rounded_monotone_numerator(c1 as nat * k, c2 as nat * k, 255);
    lemma_pow2_strictly_increases(149, 277);
    lemma_levels_monotone(d1, d2, brightness, 255);
}

/// A channel times its weight, in units.
spec fn weighted(weight: nat, c: nat) -> nat {
    rounded(rounded(weight * one(), 1000) * c, 1)
}

proof fn lemma_weighted(weight: nat, c: nat)
    requires
        weight <= 1000,
        c <= 255,
    ensures
        ratio(weight, 1000).times(ratio(c, 1)) == Value::Finite(weighted(weight, c) as int),
        weighted(weight, c) <= 256 * one(),
{
    let k = one();
    lemma2_to64();
    lemma_pow2_pos(149);
    lemma_pow2_adds(8, 149);
    lemma_pow2_strictly_increases(149, 277);
    lemma_pow2_strictly_increases(157, 277);
    lemma_rounded_exact(1, 149);
    lemma_rounded_exact(1, 157);
    assert(1 * pow2(149) == k && 1 * pow2(157) == pow2(157));
    let a = rounded(weight * k, 1000);
    assert(weight * k <= k * 1000) by (nonlinear_arith)
        requires
            weight <= 1000,
    ;
    lemma_rounded_at_most(weight * k, 1000, k);
    let u = lemma_whole(c);
    assert(a * (c * k) == k * (a * c) && k * 1 == k) by (nonlinear_arith);
    lemma_rounded_scale(k, a * c, 1);
    assert(a * c <= 256 * k) by (nonlinear_arith)
        requires
            a <= k,
            c <= 255,
    ;
    lemma_rounded_at_most(a * c, 1, 256 * k);
}

/// The luminance of a colour, in units.
spec fn luminance_units(c: Rgb) -> nat {
    rounded(
        rounded(
            rounded(weighted(299, c.0 as nat) + weighted(587, c.1 as nat), 1) + weighted(
                114,
                c.2 as nat,
            ),
            1,
        ),
        255,
    )
}

proof fn lemma_luminance(c: Rgb)
    ensures
        luminance(c) == Value::Finite(luminance_units(c) as int),
        luminance_units(c) < pow2(277),
        rounded(luminance_units(c), 1) == luminance_units(c),
{
    let k = one();
    lemma2_to64();
    lemma_pow2_pos(149);
    lemma_pow2_adds(9, 149);
    lemma_pow2_adds(10, 149);
    lemma_pow2_strictly_increases(158, 277);
    lemma_pow2_strictly_increases(159, 277);
    lemma_rounded_exact(1, 158);
    lemma_rounded_exact(1, 159);
    assert(1 * pow2(158) == pow2(158) && 1 * pow2(159) == pow2(159));
    lemma_weighted(299, c.0 as nat);
    lemma_weighted(587, c.1 as nat);
    lemma_weighted(114, c.2 as nat);
    let r = weighted(299, c.0 as nat);
    let g = weighted(587, c.1 as nat);
    let b = weighted(114, c.2 as nat);
    let s = rounded(r + g, 1);
    lemma_rounded_at_most(r + g, 1, 512 * k);
    let t = rounded(s + b, 1);
    lemma_rounded_at_most(s + b, 1, 1024 * k);
    let u = lemma_whole(255);
    assert(t * k == k * t && 255 * k == k * 255) by (nonlinear_arith);
    lemma_rounded_scale(k, t, 255);
    lemma_rounded_at_most(t, 255, 1024 * k);
    lemma_rounded_idempotent(t, 255);
}

/// A brightness of one leaves the luminance of every colour as it is.
pub proof fn law_brightness_one_keeps_luminance(c: Rgb)
    ensures
        luminance(c).times(Value::Finite(one() as int)) == luminance(c),
{
    lemma_luminance(c);
    lemma_times_one(luminance_units(c));
}

/// A brighter colour has a character at least as far along the ramp, and at most
/// as far where the ramp is inverted.
pub proof fn law_ramp_keeps_order(c1: Rgb, c2: Rgb, brightness: Value)
    requires
        c1.0 <= c2.0,
        c1.1 <= c2.1,
        c1.2 <= c2.2,
        is_brightness(brightness),
    ensures
        ramp_index(c1, brightness, false) <= ramp_index(c2, brightness, false),
        ramp_index(c1, brightness, true) >= ramp_index(c2, brightness, true),
{
    lemma_luminance(c1);
    lemma_luminance(c2);
    lemma_weighted_monotone(299, c1.0 as nat, c2.0 as nat);
    lemma_weighted_monotone(587, c1.1 as nat, c2.1 as nat);
    lemma_weighted_monotone(114, c1.2 as nat, c2.2 as nat);
    let s1 = weighted(299, c1.0 as nat) + weighted(587, c1.1 as nat);
    let s2 = weighted(299, c2.0 as nat) + weighted(587, c2.1 as nat);
    lemma_rounded_monotone_numerator(s1, s2, 1);
    let t1 = rounded(s1, 1) + weighted(114, c1.2 as nat);
    let t2 = rounded(s2, 1) + weighted(114, c2.2 as nat);
    lemma_rounded_monotone_numerator(t1, t2, 1);
    lemma_rounded_monotone_numerator(rounded(t1, 1), rounded(t2, 1), 255);
    lemma_levels_monotone(luminance_units(c1), luminance_units(c2), brightness, 69);
}

proof fn lemma_weighted_monotone(weight: nat, c1: nat, c2: nat)
    requires
        c1 <= c2,
    ensures
        weighted(weight, c1) <= weighted(weight, c2),
{
    let a = rounded(weight * one(), 1000);
    assert(a * c1 <= a * c2) by (nonlinear_arith)
        requires
            c1 <= c2,
    ;
    lemma_rounded_monotone_numerator(a * c1, a * c2, 1);
}

/// No character stands at two places of the ramp, and none of them means
/// anything to a terminal but itself.
pub proof fn law_ramp_characters_differ(i: int, j: int)
    requires
        0 <= i < 70,
        0 <= j < 70,
        RAMP[i] == RAMP[j],
    ensures
        i == j,
        ' ' <= RAMP[i] <= '~',
{
}

/// A number, or the bound of `0..=most` that it lies beyond.
pub open spec fn within(x: int, most: int) -> int {
    if x < 0 {
        0
    } else if x > most {
        most
    } else {
        x
    }
}

/// A level is nearest to a part of `whole`, of `n` levels, or as good as nearest:
/// to within half a level and `2^-10` of one.
pub open spec fn nearest_level(level: int, n: int, part: int, whole: int) -> bool {
    -(513 * whole) <= 1024 * (level * whole - n * part) <= 513 * whole
}

/// A fraction times a brightness that is not negative, clamped: what is off.
proof fn lemma_brightened(num: nat, den: nat, u: nat, x: nat) -> (y: nat)
    requires
        1 <= num <= den <= 0x10_0000,
        -(num * one()) <= 0x20_0000 * (den * u - num * one()) <= num * one(),
    ensures
        y == at_most_one(rounded(u * x, one())),
        Value::Finite(u as int).times(Value::Finite(x as int)) == signed(false, rounded(u * x, one())),
        -(den * one()) <= 0xf_0000 * (den * y - within((num * x) as int, (den * one()) as int)) <= den
            * one(),
        y <= one(),
{
    let k = one();
    lemma2_to64();
    lemma_pow2_pos(149);
    lemma_pow2_strictly_increases(64, 149);
    let m = rounded(u * x, k);
    let a = u * x;
    let q = num * x;
    let whole = den * k;
    lemma_rounded_error(a, k);
    assert(-(a + 0x80_0000 * k) <= 0x100_0000 * (m * k - a) <= a + 0x80_0000 * k);
    let b = den * a;
    let qk = q * k;
    assert(-qk <= 0x20_0000 * (b - qk) <= qk) by (nonlinear_arith)
        requires
            -(num * k) <= 0x20_0000 * (den * u - num * k) <= num * k,
            a == u * x,
            b == den * a,
            q == num * x,
            qk == q * k,
    ;
    let mk = den * (m * k);
    assert(-(b + 0x80_0000 * whole) <= 0x100_0000 * (mk - b) <= b + 0x80_0000 * whole) by (nonlinear_arith)
        requires
            -(a + 0x80_0000 * k) <= 0x100_0000 * (m * k - a) <= a + 0x80_0000 * k,
            b == den * a,
            mk == den * (m * k),
            whole == den * k,
    ;
    assert(-(qk + 0x10_0000 * whole) <= 0x10_0000 * (mk - qk) <= qk + 0x10_0000 * whole);
    let dm = den * m;
    assert(-(q + 0x10_0000 * den) <= 0x10_0000 * (dm - q) <= q + 0x10_0000 * den) by (nonlinear_arith)
        requires
            -(qk + 0x10_0000 * whole) <= 0x10_0000 * (mk - qk) <= qk + 0x10_0000 * whole,
            qk == q * k,
            mk == den * (m * k),
            whole == den * k,
            dm == den * m,
            k > 0,
    ;
    let y = at_most_one(m);
    let dy = den * y;
    assert(m < k ==> dy == dm && dm <= whole) by (nonlinear_arith)
        requires
            m < k ==> y == m,
            dy == den * y,
            dm == den * m,
            whole == den * k,
    ;
    assert(m >= k ==> dy == whole && dm >= whole) by (nonlinear_arith)
        requires
            m >= k ==> y == k,
            dy == den * y,
            dm == den * m,
            whole == den * k,
    ;
    assert(whole >= 0x100_0000_0000 * den) by (nonlinear_arith)
        requires
            whole == den * k,
            k >= 0x100_0000_0000,
    ;
    y
}

/// A number within the bounds that is as good as a part of a whole has a level
/// as good as nearest, and so has its complement.
proof fn lemma_level_near(den: nat, y: nat, part: nat, n: nat)
    requires
        y <= one(),
        1 <= den <= 0x10_0000,
        part <= den * one(),
        n <= 255,
        -(den * one()) <= 0xe_0000 * (den * y - part) <= den * one(),
    ensures
        nearest_level(
            Value::Finite(y as int).times(ratio(n, 1)).nearest_integer() as int,
            n as int,
            part as int,
            (den * one()) as int,
        ),
{
    let k = one();
    lemma_pow2_pos(149);
    let p = lemma_levels(Value::Finite(y as int), n);
    let a = half_up(p, k);
    lemma_half_up_bounds(p, k);
    lemma_rounded_integer_error(y * n);
    let whole = den * k;
    let yn = y * n;
    assert(yn <= 255 * k) by (nonlinear_arith)
        requires
            yn == y * n,
            y <= k,
            n <= 255,
    ;
    let (dp, dyn_, da) = (den * p, den * yn, den * (a * k));
    assert(-(255 * whole) <= 0x100_0000 * (dp - dyn_) <= 255 * whole) by (nonlinear_arith)
        requires
            -yn <= 0x100_0000 * (p - yn) <= yn,
            yn <= 255 * k,
            dp == den * p,
            dyn_ == den * yn,
            whole == den * k,
    ;
    assert(-whole <= 2 * (da - dp) <= whole) by (nonlinear_arith)
        requires
            2 * (a * k) <= 2 * p + k,
            2 * p <= 2 * (a * k) + k,
            da == den * (a * k),
            dp == den * p,
            whole == den * k,
    ;
    let np = n * part;
    assert(-(255 * whole) <= 0xe_0000 * (dyn_ - np) <= 255 * whole) by (nonlinear_arith)
        requires
            -whole <= 0xe_0000 * (den * y - part) <= whole,
            dyn_ == den * yn,
            yn == y * n,
            np == n * part,
            n <= 255,
            whole >= 0,
    ;
    assert(da == a * whole) by (nonlinear_arith)
        requires
            da == den * (a * k),
            whole == den * k,
    ;
}

/// Levels of a fraction times a brightness, and of the complement, clamped before
/// or after.
proof fn lemma_levels_near(num: nat, den: nat, u: nat, x: int, n: nat)
    requires
        num <= den <= 0x10_0000,
        1 <= den,
        num == 0 ==> u == 0,
        -(num * one()) <= 0x20_0000 * (den * u - num * one()) <= num * one(),
        n <= 255,
    ensures
        ({
            let v = Value::Finite(u as int).times(Value::Finite(x));
            let whole = (den * one()) as int;
            let part = within(num * x, whole);
            &&& nearest_level(
                v.clamped().times(ratio(n, 1)).nearest_integer() as int,
                n as int,
                part,
                whole,
            )
            &&& nearest_level(
                complement(v).clamped().times(ratio(n, 1)).nearest_integer() as int,
                n as int,
                whole - part,
                whole,
            )
            &&& nearest_level(
                complement(v.clamped()).times(ratio(n, 1)).nearest_integer() as int,
                n as int,
                whole - part,
                whole,
            )
        }),
{
    let k = one();
    lemma2_to64();
    lemma_pow2_pos(149);
    lemma_pow2_strictly_increases(64, 149);
    lemma_pow2_strictly_increases(149, 277);
    let whole = den * k;
    assert(whole >= 0) by (nonlinear_arith)
        requires
            whole == den * k,
            den >= 0,
            k >= 0,
    ;
    let v = Value::Finite(u as int).times(Value::Finite(x));
    let part = within(num * x, whole as int);
    lemma_rounded_exact(1, 149);
    lemma_rounded_integer_error(0);
    assert(1 * pow2(149) == k);
    let y = if x >= 0 && num > 0 {
        let y = lemma_brightened(num, den, u, x as nat);
        lemma_clamped_magnitude(rounded(u * x as nat, k));
        y
    } else {
        assert(num * x <= 0) by (nonlinear_arith)
            requires
                x <= 0 || num == 0,
                num >= 0,
        ;
        let m = rounded(u * magnitude(x), k);
        if num == 0 {
            assert(u * magnitude(x) == 0) by (nonlinear_arith)
                requires
                    u == 0,
            ;
            lemma_rounded_at_most(0, k, 0);
        }
        lemma_rounded_at_least(k + m, 1, k);
        assert(v == signed(x < 0, m));
        assert(v.clamped() == Value::Finite(0));
        assert(complement(v).clamped() == Value::Finite(k as int));
        assert(den * 0 == 0);
        0
    };
    lemma_clamped_magnitude(y);
    let z = rounded((k - y) as nat, 1);
    lemma_rounded_integer_error((k - y) as nat);
    lemma_complement(Value::Finite(y as int));
    assert(v.clamped() == Value::Finite(y as int));
    assert(complement(v.clamped()) == Value::Finite(z as int));
    assert(complement(v).clamped() == Value::Finite(z as int));
    lemma_level_near(den, y, part as nat, n);
    let (dy, dz) = (den * y, den * z);
    assert(-whole <= 0x100_0000 * (dz - (whole - dy)) <= whole) by (nonlinear_arith)
        requires
            -(k - y) <= 0x100_0000 * (z - (k - y)) <= k - y,
            y <= k,
            dy == den * y,
            dz == den * z,
            whole == den * k,
    ;
    lemma_level_near(den, z, (whole - part) as nat, n);
}

/// A channel after brightness and inversion is the level nearest to what these
/// ask for: `c` times the brightness, or 255 less that, within `0..=255`. At a
/// brightness of one it is `c` itself, or 255 less it.
pub proof fn law_channel_is_nearest(c: u8, brightness: int, invert: bool)
    ensures
        ({
            let level = adjusted(c as nat, Value::Finite(brightness), invert) as int;
            let asked = if invert {
                255 * one() - c * brightness
            } else {
                c * brightness
            };
            &&& level <= 255
            &&& nearest_level(level, 255, within(asked, 255 * one() as int), 255 * one() as int)
            &&& brightness == one() ==> level == (if invert {
                255 - c
            } else {
                c as int
            })
        }),
{
    lemma_pow2_pos(149);
    let k = one();
    let d = lemma_fraction(c as nat);
    lemma_levels_near(c as nat, 255, d, brightness, 255);
    let v = Value::Finite(d as int).times(Value::Finite(brightness));
    let whole = 255 * k as int;
    lemma_clamped(v);
    lemma_clamped(complement(v));
    let p = lemma_levels(v.clamped(), 255);
    let q = lemma_levels(complement(v).clamped(), 255);
    let level = adjusted(c as nat, Value::Finite(brightness), invert) as int;
    let asked = c * brightness;
    let part = within(asked, whole);
    assert(255 * part == part * 255);
    assert(within(whole - asked, whole) == whole - part);
    law_brightness_one_changes_nothing(c);
    law_invert_is_complement(c);
}

/// The luminance is off by `2^-21` of itself at most.
proof fn lemma_luminance_near(c: Rgb)
    ensures
        ({
            let exact = 299 * c.0 + 587 * c.1 + 114 * c.2;
            &&& -(exact * one()) <= 0x20_0000 * (255_000 * luminance_units(c) - exact * one()) <= exact
                * one()
            &&& exact == 0 ==> luminance_units(c) == 0
        }),
{
    let k = one();
    lemma2_to64();
    lemma_pow2_pos(149);
    lemma_pow2_strictly_increases(64, 149);
    lemma_weighted_near(299, c.0 as nat);
    lemma_weighted_near(587, c.1 as nat);
    lemma_weighted_near(114, c.2 as nat);
    let r = weighted(299, c.0 as nat);
    let g = weighted(587, c.1 as nat);
    let b = weighted(114, c.2 as nat);
    let s = rounded(r + g, 1);
    lemma_rounded_integer_error(r + g);
    let t = rounded(s + b, 1);
    lemma_rounded_integer_error(s + b);
    lemma_rounded_error(t, 255);
    let (er, eg, eb) = (299 * c.0 * k, 587 * c.1 * k, 114 * c.2 * k);
    let exact = 299 * c.0 + 587 * c.1 + 114 * c.2;
    assert(exact * k == er + eg + eb) by (nonlinear_arith)
        requires
            er == 299 * c.0 * k,
            eg == 587 * c.1 * k,
            eb == 114 * c.2 * k,
            exact == 299 * c.0 + 587 * c.1 + 114 * c.2,
    ;
    if exact == 0 {
        assert(exact * k == 0);
        lemma_rounded_at_most(0, 255, 0);
    } else {
        assert(exact * k >= k) by (nonlinear_arith)
            requires
                exact >= 1,
        ;
        assert(t >= 0x80_0000 * 255);
    }
}

/// A weighted channel is off by `2^-22` of itself at most.
proof fn lemma_weighted_near(weight: nat, c: nat)
    requires
        1 <= weight <= 1000,
        c <= 255,
    ensures
        -(weight * c * one()) <= 0x40_0000 * (1000 * weighted(weight, c) - weight * c * one()) <= weight
            * c * one(),
{
    let k = one();
    lemma2_to64();
    lemma_pow2_pos(149);
    lemma_pow2_strictly_increases(64, 149);
    let a = rounded(weight * k, 1000);
    assert(weight * k >= k) by (nonlinear_arith)
        requires
            weight >= 1,
    ;
    lemma_rounded_error(weight * k, 1000);
    let ac = a * c;
    lemma_rounded_integer_error(ac);
    let e = weight * c * k;
    assert(-e <= 0x100_0000 * (1000 * ac - e) <= e) by (nonlinear_arith)
        requires
            -(weight * k) <= 0x100_0000 * (a * 1000 - weight * k) <= weight * k,
            ac == a * c,
            e == weight * c * k,
            c >= 0,
    ;
}

/// The character of a colour stands in the ramp at the place nearest to what the
/// colour, the brightness and the inversion ask for: 69 times the luminance, by
/// the weights of Rec. 601, times the brightness, within `0..=1`, or one less
/// that.
pub proof fn law_character_is_nearest(c: Rgb, brightness: int, invert: bool, i: int)
    requires
        0 <= i < 70,
        RAMP[i] == ramp_glyph(c, Value::Finite(brightness), invert),
    ensures
        ({
            let whole = 255_000 * one() as int;
            let bright = within((299 * c.0 + 587 * c.1 + 114 * c.2) * brightness, whole);
            let asked = if invert {
                whole - bright
            } else {
                bright
            };
            nearest_level(i, 69, asked, whole)
        }),
{
    law_character_stands_in_the_ramp(c, Value::Finite(brightness), invert);
    law_ramp_characters_differ(i, ramp_index(c, Value::Finite(brightness), invert) as int);
    lemma_luminance(c);
    lemma_luminance_near(c);
    let exact = (299 * c.0 + 587 * c.1 + 114 * c.2) as nat;
    assert(exact <= 255_000);
    lemma_levels_near(exact, 255_000, luminance_units(c), brightness, 69);
}

/// The character of a colour is one of the ramp, whatever the brightness.
pub proof fn law_character_stands_in_the_ramp(c: Rgb, brightness: Value, invert: bool)
    ensures
        ramp_index(c, brightness, invert) < 70,
        exists|i: int| 0 <= i < 70 && #[trigger] RAMP[i] == ramp_glyph(c, brightness, invert),
        RAMP[ramp_index(c, brightness, invert) as int] == ramp_glyph(c, brightness, invert),
        ' ' <= ramp_glyph(c, brightness, invert) <= '~',
{
    reveal(ramp_glyph);
    let v = luminance(c).times(brightness).clamped();
    lemma_clamped(luminance(c).times(brightness));
    lemma_complement(v);
    let p = lemma_levels(v, 69);
    let q = lemma_levels(complement(v), 69);
    let i = ramp_index(c, brightness, invert) as int;
    law_ramp_characters_differ(i, i);
    assert(RAMP[i] == ramp_glyph(c, brightness, invert));
}

/// The character of a brighter colour stands at least as far along the ramp, and
/// at most as far where the ramp is inverted. The places of a colour with and
/// without inversion add up to the whole ramp, to within one place.
pub proof fn law_characters_keep_order(
    c1: Rgb,
    c2: Rgb,
    brightness: Value,
    i1: int,
    i2: int,
    j1: int,
    j2: int,
)
    requires
        c1.0 <= c2.0,
        c1.1 <= c2.1,
        c1.2 <= c2.2,
        is_brightness(brightness),
        0 <= i1 < 70,
        0 <= i2 < 70,
        0 <= j1 < 70,
        0 <= j2 < 70,
        RAMP[i1] == ramp_glyph(c1, brightness, false),
        RAMP[i2] == ramp_glyph(c2, brightness, false),
        RAMP[j1] == ramp_glyph(c1, brightness, true),
        RAMP[j2] == ramp_glyph(c2, brightness, true),
    ensures
        i1 <= i2,
        j1 >= j2,
        brightness is Finite ==> 68 <= i1 + j1 <= 70,
{
    law_character_stands_in_the_ramp(c1, brightness, false);
    law_character_stands_in_the_ramp(c2, brightness, false);
    law_character_stands_in_the_ramp(c1, brightness, true);
    law_character_stands_in_the_ramp(c2, brightness, true);
    law_ramp_characters_differ(i1, ramp_index(c1, brightness, false) as int);
    law_ramp_characters_differ(i2, ramp_index(c2, brightness, false) as int);
    law_ramp_characters_differ(j1, ramp_index(c1, brightness, true) as int);
    law_ramp_characters_differ(j2, ramp_index(c2, brightness, true) as int);
    law_ramp_keeps_order(c1, c2, brightness);
    if let Value::Finite(x) = brightness {
        law_character_is_nearest(c1, x, false, i1);
        law_character_is_nearest(c1, x, true, j1);
        let whole = 255_000 * one() as int;
        lemma_pow2_pos(149);
        assert(68 <= i1 + j1 <= 70) by (nonlinear_arith)
            requires
                -(1026 * whole) <= 1024 * (i1 * whole + j1 * whole - 69 * whole) <= 1026 * whole,
                whole > 0,
        ;
    }
}

/// What no finite brightness does: without end, every channel and colour that is
/// not black is as bright as can be, or as dark where it is negative; where it is
/// no number, nothing is bright.
pub proof fn law_brightness_without_end(c: u8, colour: Rgb, invert: bool)
    ensures
        c > 0 ==> adjusted(c as nat, Value::Infinite { negative: false }, invert) == (if invert {
            0int
        } else {
            255
        }),
        colour != (0u8, 0u8, 0u8) ==> ramp_glyph(colour, Value::Infinite { negative: false }, invert)
            == RAMP[if invert {
            0
        } else {
            69
        }],
        c > 0 ==> adjusted(c as nat, Value::Infinite { negative: true }, invert) == (if invert {
            255int
        } else {
            0
        }),
        colour != (0u8, 0u8, 0u8) ==> ramp_glyph(colour, Value::Infinite { negative: true }, invert)
            == RAMP[if invert {
            69
        } else {
            0
        }],
        adjusted(c as nat, Value::Nan, invert) == 0,
        ramp_glyph(colour, Value::Nan, invert) == RAMP[0],
{
    let k = one();
    reveal(ramp_glyph);
    lemma2_to64();
    lemma_pow2_pos(149);
    lemma_pow2_strictly_increases(64, 149);
    lemma_pow2_strictly_increases(149, 277);
    lemma_luminance(colour);
    lemma_luminance_near(colour);
    let d = lemma_fraction(c as nat);
    let exact = 299 * colour.0 + 587 * colour.1 + 114 * colour.2;
    if exact > 0 {
        assert(exact * k >= k) by (nonlinear_arith)
            requires
                exact >= 1,
        ;
    }
    if c > 0 {
        assert(c * k >= k) by (nonlinear_arith)
            requires
                c >= 1,
        ;
    }
    lemma_rounded_integer_error(0);
    lemma_rounded_exact(1, 149);
    lemma_rounded_exact(69, 149);
    lemma_rounded_exact(255, 149);
    assert(1 * pow2(149) == k);
    lemma_half_up_unique(0, k, 0);
    lemma_half_up_unique(69 * k, k, 69);
    lemma_half_up_unique(255 * k, k, 255);
    let a = lemma_levels(Value::Finite(0), 69);
    let b = lemma_levels(Value::Finite(k as int), 69);
    let e = lemma_levels(Value::Finite(0), 255);
    let f = lemma_levels(Value::Finite(k as int), 255);
    let g = lemma_levels(Value::Nan, 69);
    let h = lemma_levels(Value::Nan, 255);
    lemma_clamped_magnitude(k);
    assert(complement(Value::Finite(k as int)) == Value::Finite(0));
}

} // verus!
