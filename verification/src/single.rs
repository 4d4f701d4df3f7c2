//! Single-precision arithmetic on bit patterns.
//!
//! A [`Single`] is the bit pattern of an IEEE 754 binary32 number. Its
//! operations give the pattern that the hardware gives, in integer arithmetic,
//! so that what they compute can be stated and proved.
use crate::rounding::{
    lemma_nearest_even_monotone, lemma_nearest_even_scale, lemma_nearest_even_unique, lemma_rounded_at_least, lemma_rounded_at_most, lemma_rounded_error,
    lemma_rounded_exact, lemma_rounded_idempotent, lemma_rounded_in_binade, lemma_rounded_integer_error,
    lemma_scaled_double_denominator,
    lemma_scaled_double_numerator, lemma_scaled_normal, lemma_scaled_split, nearest_even, rounded, scaled,
};
use vstd::arithmetic::div_mod::{
    lemma_fundamental_div_mod, lemma_fundamental_div_mod_converse, lemma_mod_bound,
};
use vstd::arithmetic::power2::{
    lemma2_to64, lemma2_to64_rest, lemma_pow2_adds, lemma_pow2_pos, lemma_pow2_strictly_increases,
    lemma_pow2_unfold, pow2,
};
use vstd::prelude::*;

verus! {

/// What a single-precision number stands for. A finite value counts units of
/// `2^-149`; the two zeros are one value.
pub enum Value {
    Nan,
    Infinite { negative: bool },
    Finite(int),
}

/// The number one, in units.
pub open spec fn one() -> nat {
    pow2(149)
}

/// The value of a magnitude that has been rounded: from `2^128` on it is
/// infinite.
pub open spec fn signed(negative: bool, units: nat) -> Value {
    if units >= pow2(277) {
        Value::Infinite { negative }
    } else if negative {
        Value::Finite(-units)
    } else {
        Value::Finite(units as int)
    }
}

/// The absolute value of an integer.
pub open spec fn magnitude(x: int) -> nat {
    if x < 0 {
        (-x) as nat
    } else {
        x as nat
    }
}

/// The single-precision number nearest to `n / d`.
pub open spec fn ratio(n: nat, d: nat) -> Value {
    signed(false, rounded(n * one(), d))
}

/// `n / d` rounded to an integer, halves upwards.
pub open spec fn half_up(n: nat, d: nat) -> nat {
    (2 * n + d) / (2 * d)
}

impl Value {
    /// The product of two numbers.
    pub open spec fn times(self, other: Value) -> Value {
        match (self, other) {
            (Value::Finite(x), Value::Finite(y)) => signed(
                (x < 0) != (y < 0),
                rounded(magnitude(x) * magnitude(y), one()),
            ),
            (Value::Infinite { negative }, Value::Finite(y)) => if y == 0 {
                Value::Nan
            } else {
                Value::Infinite { negative: negative != (y < 0) }
            },
            (Value::Finite(x), Value::Infinite { negative }) => if x == 0 {
                Value::Nan
            } else {
                Value::Infinite { negative: negative != (x < 0) }
            },
            (Value::Infinite { negative: s }, Value::Infinite { negative: t }) => Value::Infinite {
                negative: s != t,
            },
            _ => Value::Nan,
        }
    }

    /// The quotient of two numbers, the second with its sign bit clear.
    pub open spec fn over(self, other: Value) -> Value {
        match (self, other) {
            (Value::Finite(x), Value::Finite(y)) => if y != 0 {
                signed(x < 0, rounded(magnitude(x) * one(), y as nat))
            } else if x == 0 {
                Value::Nan
            } else {
                Value::Infinite { negative: x < 0 }
            },
            (Value::Finite(x), Value::Infinite { .. }) => Value::Finite(0),
            (Value::Infinite { negative }, Value::Finite(y)) => Value::Infinite { negative },
            _ => Value::Nan,
        }
    }

    /// The sum of two numbers.
    pub open spec fn plus(self, other: Value) -> Value {
        match (self, other) {
            (Value::Finite(x), Value::Finite(y)) => signed(x + y < 0, rounded(magnitude(x + y), 1)),
            (Value::Infinite { negative }, Value::Finite(_)) => Value::Infinite { negative },
            (Value::Finite(_), Value::Infinite { negative }) => Value::Infinite { negative },
            (Value::Infinite { negative: s }, Value::Infinite { negative: t }) => if s == t {
                Value::Infinite { negative: s }
            } else {
                Value::Nan
            },
            _ => Value::Nan,
        }
    }

    /// The number with the other sign.
    pub open spec fn negated(self) -> Value {
        match self {
            Value::Finite(x) => Value::Finite(-x),
            Value::Infinite { negative } => Value::Infinite { negative: !negative },
            Value::Nan => Value::Nan,
        }
    }

    /// Whether the first number is below the second.
    pub open spec fn below(self, other: Value) -> bool {
        match (self, other) {
            (Value::Finite(x), Value::Finite(y)) => x < y,
            (Value::Infinite { negative }, Value::Finite(_)) => negative,
            (Value::Finite(_), Value::Infinite { negative }) => !negative,
            (Value::Infinite { negative: s }, Value::Infinite { negative: t }) => s && !t,
            _ => false,
        }
    }

    /// The lesser of two numbers; a number rather than none.
    pub open spec fn least(self, other: Value) -> Value {
        if self is Nan || other.below(self) {
            other
        } else {
            self
        }
    }

    /// The greater of two numbers; a number rather than none.
    pub open spec fn greatest(self, other: Value) -> Value {
        if self is Nan || self.below(other) {
            other
        } else {
            self
        }
    }

    /// The number, or the bound of `0..=1` that it lies beyond.
    pub open spec fn clamped(self) -> Value {
        if self.below(Value::Finite(0)) {
            Value::Finite(0)
        } else if Value::Finite(one() as int).below(self) {
            Value::Finite(one() as int)
        } else {
            self
        }
    }

    /// The nearest integer, halves away from zero, or the bound of
    /// `0..=u32::MAX` that it lies beyond; zero where there is no number.
    pub open spec fn nearest_integer(self) -> nat {
        match self {
            Value::Nan => 0,
            Value::Infinite { negative } => if negative {
                0
            } else {
                u32::MAX as nat
            },
            Value::Finite(x) => if x < 0 {
                0
            } else if half_up(x as nat, one()) > u32::MAX {
                u32::MAX as nat
            } else {
                half_up(x as nat, one())
            },
        }
    }
}

/// A single-precision number, by its bit pattern.
#[derive(Clone, Copy, Debug, PartialEq, Eq)]
pub struct Single {
    pub bits: u32,
}

impl View for Single {
    type V = Value;

    open spec fn view(&self) -> Value {
        let negative = self.bits >= 0x8000_0000;
        let exponent = (self.bits / 0x80_0000) % 256;
        let fraction = self.bits % 0x80_0000;
        if exponent == 255 {
            if fraction == 0 {
                Value::Infinite { negative }
            } else {
                Value::Nan
            }
        } else {
            let units = if exponent == 0 {
                fraction as nat
            } else {
                (0x80_0000 + fraction) as nat * pow2((exponent - 1) as nat)
            };
            if negative {
                Value::Finite(-units)
            } else {
                Value::Finite(units as int)
            }
        }
    }
}

/// A number taken apart: a finite one is `mant * 2^exp` units.
enum Parts {
    Nan,
    Infinite { negative: bool },
    Finite { negative: bool, mant: u32, exp: u32 },
}

impl Parts {
    spec fn value(self) -> Value {
        match self {
            Parts::Nan => Value::Nan,
            Parts::Infinite { negative } => Value::Infinite { negative },
            Parts::Finite { negative, mant, exp } => if negative {
                Value::Finite(-(mant as nat * pow2(exp as nat)))
            } else {
                Value::Finite((mant as nat * pow2(exp as nat)) as int)
            },
        }
    }

    /// The mantissa has 24 bits, with the topmost one set but in the lowest
    /// binade.
    spec fn canonical(self) -> bool {
        self matches Parts::Finite { negative, mant, exp } ==> {
            &&& mant < 0x100_0000
            &&& exp <= 253
            &&& mant >= 0x80_0000 || exp == 0
        }
    }
}

/// `n / d` rounded to an integer, ties to even.
fn divide_nearest_even(n: u128, d: u128) -> (m: u128)
    requires
        0 < d < 0x1_0000_0000_0000_0000_0000_0000,
        n < 0x1_0000_0000_0000_0000_0000_0000,
    ensures
        m == nearest_even(n as nat, d as nat),
{
    let q: u128 = n / d;
    let r: u128 = n % d;
    assert(q <= n) by (nonlinear_arith)
        requires
            q == n / d,
            d > 0,
    ;
    if 2 * r < d || (2 * r == d && q % 2 == 0) {
        q
    } else {
        q + 1
    }
}

impl Single {
    fn parts(self) -> (p: Parts)
        ensures
            p.canonical(),
            p.value() == self@,
            self.bits < 0x8000_0000 ==> !(p matches Parts::Finite { negative, .. } && negative) && !(
            p matches Parts::Infinite { negative } && negative),
    {
        let negative = self.bits >= 0x8000_0000;
        let exponent: u32 = (self.bits / 0x80_0000) % 256;
        let fraction: u32 = self.bits % 0x80_0000;
        proof {
            lemma2_to64();
        }
        if exponent == 255 {
            if fraction == 0 {
                Parts::Infinite { negative }
            } else {
                Parts::Nan
            }
        } else if exponent == 0 {
            assert(fraction as nat * pow2(0) == fraction) by (nonlinear_arith)
                requires
                    pow2(0) == 1,
            ;
            Parts::Finite { negative, mant: fraction, exp: 0 }
        } else {
            Parts::Finite { negative, mant: 0x80_0000 + fraction, exp: exponent - 1 }
        }
    }

    /// The infinite number of a sign.
    fn infinite(negative: bool) -> (s: Single)
        ensures
            s@ == (Value::Infinite { negative }),
            s.bits >= 0x8000_0000 <==> negative,
    {
        if negative {
            Single { bits: 0xff80_0000 }
        } else {
            Single { bits: 0x7f80_0000 }
        }
    }

    /// No number.
    fn nan() -> (s: Single)
        ensures
            s@ == Value::Nan,
    {
        Single { bits: 0x7fc0_0000 }
    }

    /// The number of `mant * 2^exp` units.
    fn pack(negative: bool, mant: u32, exp: u32) -> (s: Single)
        requires
            mant <= 0x100_0000,
            exp <= 1000,
            mant >= 0x80_0000 || exp == 0,
        ensures
            s@ == signed(negative, mant as nat * pow2(exp as nat)),
            s.bits >= 0x8000_0000 <==> negative,
    {
        let ghost units = mant as nat * pow2(exp as nat);
        proof {
            lemma2_to64();
            lemma_pow2_unfold((exp + 1) as nat);
            lemma_pow2_adds(24, 253);
            lemma_pow2_adds(23, 254);
        }
        let (m, e): (u32, u32) = if mant == 0x100_0000 {
            (0x80_0000, exp + 1)
        } else {
            (mant, exp)
        };
        assert(units == m as nat * pow2(e as nat)) by {
            if mant == 0x100_0000 {
                let p = pow2(exp as nat);
                assert(0x100_0000 * p == 0x80_0000 * (2 * p));
            }
        }
        let top: u32 = if negative {
            0x8000_0000
        } else {
            0
        };
        if m < 0x80_0000 {
            proof {
                assert(units == m) by (nonlinear_arith)
                    requires
                        units == m as nat * pow2(0),
                        pow2(0) == 1,
                ;
                lemma_pow2_strictly_increases(24, 277);
            }
            let s = Single { bits: top + m };
            assert(s.bits % 0x80_0000 == m);
            assert((s.bits / 0x80_0000) % 256 == 0);
            s
        } else if e >= 254 {
            proof {
                if e > 254 {
                    lemma_pow2_strictly_increases(254, e as nat);
                }
                let p = pow2(e as nat);
                assert(m as nat * p >= 0x80_0000 * pow2(254)) by (nonlinear_arith)
                    requires
                        m >= 0x80_0000,
                        p >= pow2(254),
                ;
            }
            Single::infinite(negative)
        } else {
            proof {
                lemma_pow2_pos(e as nat);
                if e < 253 {
                    lemma_pow2_strictly_increases(e as nat, 253);
                }
                let p = pow2(e as nat);
                assert(m as nat * p < 0x100_0000 * pow2(253)) by (nonlinear_arith)
                    requires
                        m < 0x100_0000,
                        0 < p <= pow2(253),
                ;
            }
            let s = Single { bits: top + (e + 1) * 0x80_0000 + (m - 0x80_0000) };
            assert(s.bits % 0x80_0000 == m - 0x80_0000);
            assert(s.bits / 0x80_0000 == e + 1 + (if negative { 256int } else { 0 }));
            assert((s.bits / 0x80_0000) % 256 == e + 1);
            s
        }
    }
}

/// Nothing rounds to nothing.
proof fn lemma_scaled_zero(b: nat, e: int)
    requires
        b > 0,
    ensures
        scaled(0, b, e) == 0,
{
    if e >= 0 {
        assert(0 * pow2(e as nat) == 0);
        lemma_nearest_even_unique(0, b, 0);
    } else {
        let p = pow2((-e) as nat);
        lemma_pow2_pos((-e) as nat);
        assert(b * p > 0) by (nonlinear_arith)
            requires
                b > 0,
                p > 0,
        ;
        lemma_nearest_even_unique(0, b * p, 0);
    }
}

/// What lies far below the lowest binade rounds to nothing.
proof fn lemma_scaled_vanishes(a: nat, b: nat, e: int)
    requires
        b > 0,
        a < 0x100_0000 * b,
        e < -25,
    ensures
        scaled(a, b, e) == 0,
{
    lemma2_to64();
    let p = pow2((-e) as nat);
    if e < -26 {
        lemma_pow2_strictly_increases(26, (-e) as nat);
    }
    let d = b * p;
    assert(d >= 0x400_0000 * b) by (nonlinear_arith)
        requires
            d == b * p,
            p >= 0x400_0000,
    ;
    lemma_nearest_even_unique(a, d, 0);
}

/// The number nearest to `a / b * 2^e` units.
fn round_ratio(negative: bool, a: u128, b: u128, e: i32) -> (s: Single)
    requires
        a < 0x4000_0000_0000_0000,
        0 < b < 0x100_0000,
        -600 <= e <= 600,
    ensures
        s@ == signed(negative, scaled(a as nat, b as nat, e as int)),
        s.bits >= 0x8000_0000 <==> negative,
{
    let mut n: u128 = a;
    let mut d: u128 = b;
    let mut x: i32 = e;
    let ghost target = scaled(a as nat, b as nat, e as int);
    proof {
        lemma2_to64();
        lemma2_to64_rest();
    }
    if a == 0 {
        proof {
            lemma_scaled_zero(b as nat, e as int);
            assert(0 * pow2(0) == 0);
        }
        return Single::pack(negative, 0, 0);
    }
    while n < d * 0x80_0000
        invariant
            -600 <= e <= 600,
            x <= e,
            0 < d < 0x100_0000,
            0 < n < 0x4000_0000_0000_0000,
            pow2((e - x) as nat) <= n,
            x < e ==> n < d * 0x100_0000,
            pow2(47) == 0x8000_0000_0000,
            target == scaled(n as nat, d as nat, x as int),
        decreases d * 0x100_0000 - n,
    {
        proof {
            if e - x >= 47 {
                if e - x > 47 {
                    lemma_pow2_strictly_increases(47, (e - x) as nat);
                }
                assert(false);
            }
            lemma_scaled_double_numerator(n as nat, d as nat, x as int);
            lemma_pow2_unfold((e - x + 1) as nat);
        }
        n = 2 * n;
        x = x - 1;
    }
    let ghost y = x;
    proof {
        assert(e - x < 64) by {
            if e - x >= 64 {
                if e - x > 64 {
                    lemma_pow2_strictly_increases(64, (e - x) as nat);
                }
                assert(false);
            }
        }
    }
    while n >= d * 0x100_0000
        invariant
            y <= x,
            -664 <= y <= 600,
            0 < d,
            0 < n < 0x4000_0000_0000_0000,
            d * 0x80_0000 <= n,
            pow2((x - y) as nat) <= d,
            pow2(47) == 0x8000_0000_0000,
            target == scaled(n as nat, d as nat, x as int),
        decreases n - d,
    {
        proof {
            if x - y >= 47 {
                if x - y > 47 {
                    lemma_pow2_strictly_increases(47, (x - y) as nat);
                }
                assert(false);
            }
            lemma_scaled_double_denominator(n as nat, d as nat, x as int);
            lemma_pow2_unfold((x - y + 1) as nat);
        }
        d = 2 * d;
        x = x + 1;
    }
    proof {
        assert(x - y < 47) by {
            if x - y >= 47 {
                if x - y > 47 {
                    lemma_pow2_strictly_increases(47, (x - y) as nat);
                }
                assert(false);
            }
        }
    }
    if x >= 0 {
        proof {
            lemma_scaled_normal(n as nat, d as nat, x as int);
            lemma_nearest_even_between(n as nat, d as nat);
        }
        let m: u128 = divide_nearest_even(n, d);
        return Single::pack(negative, m as u32, x as u32);
    }
    if x < -25 {
        proof {
            lemma_scaled_vanishes(n as nat, d as nat, x as int);
            assert(0 * pow2(0) == 0);
        }
        return Single::pack(negative, 0, 0);
    }
    let ghost z = x;
    while x < 0
        invariant
            -25 <= z <= x <= 0,
            z < 0,
            0 < n < 0x4000_0000_0000_0000,
            0 < d,
            d <= 0x8000_0000_0000 * pow2((x - z) as nat),
            n < d * 0x100_0000,
            target == scaled(n as nat, d as nat, x as int),
            pow2(25) == 0x200_0000,
        decreases -x,
    {
        proof {
            lemma_pow2_strictly_increases((x - z) as nat, 25);
            lemma_scaled_double_denominator(n as nat, d as nat, x as int);
            lemma_pow2_unfold((x - z + 1) as nat);
        }
        d = 2 * d;
        x = x + 1;
    }
    proof {
        if -z < 25 {
            lemma_pow2_strictly_increases((-z) as nat, 25);
        }
        assert(n as nat * pow2(0) == n) by (nonlinear_arith)
            requires
                pow2(0) == 1,
        ;
        assert(target == nearest_even(n as nat, d as nat));
        lemma_nearest_even_at_most(n as nat, d as nat);
    }
    let m: u128 = divide_nearest_even(n, d);
    assert(m as nat * pow2(0) == m) by (nonlinear_arith)
        requires
            pow2(0) == 1,
    ;
    Single::pack(negative, m as u32, 0)
}

/// A ratio below `2^24` rounds to `2^24` at most.
proof fn lemma_nearest_even_at_most(n: nat, d: nat)
    requires
        d > 0,
        n < 0x100_0000 * d,
    ensures
        nearest_even(n, d) <= 0x100_0000,
{
    lemma_nearest_even_monotone(n, 0x100_0000 * d, d);
    lemma_nearest_even_unique(0x100_0000 * d, d, 0x100_0000);
}

/// A ratio of 24 bits rounds to a mantissa, or to the one above the last.
proof fn lemma_nearest_even_between(n: nat, d: nat)
    requires
        d > 0,
        0x80_0000 * d <= n < 0x100_0000 * d,
    ensures
        0x80_0000 <= nearest_even(n, d) <= 0x100_0000,
{
    lemma_nearest_even_at_most(n, d);
    lemma_nearest_even_monotone(0x80_0000 * d, n, d);
    lemma_nearest_even_unique(0x80_0000 * d, d, 0x80_0000);
}

/// Of two magnitudes in canonical form, the one with the greater exponent is
/// the greater.
proof fn lemma_magnitude_order(m1: u32, e1: u32, m2: u32, e2: u32)
    requires
        m1 < 0x100_0000,
        m2 >= 0x80_0000 || e2 == 0,
    ensures
        e1 == e2 ==> (m1 as nat * pow2(e1 as nat) < m2 as nat * pow2(e2 as nat) <==> m1 < m2),
        e1 < e2 ==> m1 as nat * pow2(e1 as nat) < m2 as nat * pow2(e2 as nat),
{
    let p = pow2(e1 as nat);
    lemma_pow2_pos(e1 as nat);
    if e1 == e2 {
        assert(m1 as nat * p < m2 as nat * p <==> m1 < m2) by (nonlinear_arith)
            requires
                p > 0,
        ;
    }
    if e1 < e2 {
        let q = pow2(e2 as nat);
        lemma_pow2_unfold((e1 + 1) as nat);
        if e1 + 1 < e2 {
            lemma_pow2_strictly_increases((e1 + 1) as nat, e2 as nat);
        }
        assert(m1 as nat * p < m2 as nat * q) by (nonlinear_arith)
            requires
                m1 < 0x100_0000,
                m2 >= 0x80_0000,
                p > 0,
                q >= 2 * p,
        ;
    }
}

/// Whether one magnitude in canonical form is below another.
fn magnitude_below(m1: u32, e1: u32, m2: u32, e2: u32) -> (r: bool)
    requires
        m1 < 0x100_0000,
        m2 < 0x100_0000,
        m1 >= 0x80_0000 || e1 == 0,
        m2 >= 0x80_0000 || e2 == 0,
    ensures
        r == (m1 as nat * pow2(e1 as nat) < m2 as nat * pow2(e2 as nat)),
{
    proof {
        lemma_magnitude_order(m1, e1, m2, e2);
        lemma_magnitude_order(m2, e2, m1, e1);
    }
    if e1 == e2 {
        m1 < m2
    } else {
        e1 < e2
    }
}

/// A magnitude is nothing only where its mantissa is.
proof fn lemma_magnitude_zero(m: u32, e: u32)
    ensures
        m as nat * pow2(e as nat) == 0 <==> m == 0,
{
    lemma_pow2_pos(e as nat);
    let p = pow2(e as nat);
    assert(m as nat * p == 0 <==> m == 0) by (nonlinear_arith)
        requires
            p > 0,
    ;
}

impl Single {
    /// The number one.
    pub fn one() -> (s: Single)
        ensures
            s@ == Value::Finite(one() as int),
    {
        proof {
            lemma2_to64();
            lemma_pow2_adds(23, 126);
        }
        let s = Single { bits: 0x3f80_0000 };
        assert(s.bits % 0x80_0000 == 0);
        assert((s.bits / 0x80_0000) % 256 == 127);
        s
    }

    /// The number zero.
    pub fn zero() -> (s: Single)
        ensures
            s@ == Value::Finite(0),
    {
        Single { bits: 0 }
    }

    /// The number nearest to an integer.
    pub fn from_u32(n: u32) -> (s: Single)
        ensures
            s@ == ratio(n as nat, 1),
            s.bits < 0x8000_0000,
    {
        round_ratio(false, n as u128, 1, 149)
    }

    /// The number nearest to a fraction.
    pub fn from_ratio(n: u32, d: u32) -> (s: Single)
        requires
            0 < d < 0x100_0000,
        ensures
            s@ == ratio(n as nat, d as nat),
            s.bits < 0x8000_0000,
    {
        round_ratio(false, n as u128, d as u128, 149)
    }

    /// The product of two numbers.
    pub fn times(self, other: Single) -> (s: Single)
        ensures
            s@ == self@.times(other@),
    {
        match (self.parts(), other.parts()) {
            (
                Parts::Finite { negative: s1, mant: m1, exp: e1 },
                Parts::Finite { negative: s2, mant: m2, exp: e2 },
            ) => {
                proof {
                    let p1 = pow2(e1 as nat);
                    let p2 = pow2(e2 as nat);
                    let u1 = m1 as nat * p1;
                    let u2 = m2 as nat * p2;
                    lemma_magnitude_zero(m1, e1);
                    lemma_magnitude_zero(m2, e2);
                    lemma_pow2_adds(e1 as nat, e2 as nat);
                    let a = m1 as nat * m2 as nat;
                    assert(u1 * u2 == a * (p1 * p2)) by (nonlinear_arith)
                        requires
                            u1 == m1 as nat * p1,
                            u2 == m2 as nat * p2,
                            a == m1 as nat * m2 as nat,
                    ;
                    lemma_scaled_split(a, 1, (e1 + e2) as nat, 149);
                    assert(1 * pow2(149) == one());
                    if u1 == 0 || u2 == 0 {
                        assert(a == 0) by (nonlinear_arith)
                            requires
                                m1 == 0 || m2 == 0,
                                a == m1 as nat * m2 as nat,
                        ;
                        lemma_scaled_zero(1, e1 + e2 - 149);
                        lemma_pow2_pos(277);
                    }
                    assert(a < 0x100_0000 * 0x100_0000) by (nonlinear_arith)
                        requires
                            m1 < 0x100_0000,
                            m2 < 0x100_0000,
                            a == m1 as nat * m2 as nat,
                    ;
                }
                round_ratio(s1 != s2, m1 as u128 * m2 as u128, 1, e1 as i32 + e2 as i32 - 149)
            },
            (Parts::Infinite { negative }, Parts::Finite { negative: t, mant, exp }) => {
                proof {
                    lemma_magnitude_zero(mant, exp);
                }
                if mant == 0 {
                    Single::nan()
                } else {
                    Single::infinite(negative != t)
                }
            },
            (Parts::Finite { negative: t, mant, exp }, Parts::Infinite { negative }) => {
                proof {
                    lemma_magnitude_zero(mant, exp);
                }
                if mant == 0 {
                    Single::nan()
                } else {
                    Single::infinite(negative != t)
                }
            },
            (Parts::Infinite { negative: s }, Parts::Infinite { negative: t }) => Single::infinite(s != t),
            _ => Single::nan(),
        }
    }

    /// The quotient of two numbers, the second with its sign bit clear.
    pub fn over(self, other: Single) -> (s: Single)
        requires
            other.bits < 0x8000_0000,
        ensures
            s@ == self@.over(other@),
    {
        match (self.parts(), other.parts()) {
            (
                Parts::Finite { negative: s1, mant: m1, exp: e1 },
                Parts::Finite { negative: _, mant: m2, exp: e2 },
            ) => {
                proof {
                    lemma_magnitude_zero(m1, e1);
                    lemma_magnitude_zero(m2, e2);
                }
                if m2 == 0 {
                    if m1 == 0 {
                        Single::nan()
                    } else {
                        Single::infinite(s1)
                    }
                } else {
                    proof {
                        let p1 = pow2(e1 as nat);
                        let u1 = m1 as nat * p1;
                        lemma_pow2_adds(e1 as nat, 149);
                        assert(u1 * one() == m1 as nat * (p1 * one())) by (nonlinear_arith)
                            requires
                                u1 == m1 as nat * p1,
                        ;
                        lemma_scaled_split(m1 as nat, m2 as nat, (e1 + 149) as nat, e2 as nat);
                        if u1 == 0 {
                            lemma_scaled_zero(m2 as nat, e1 + 149 - e2);
                            lemma_pow2_pos(277);
                        }
                    }
                    round_ratio(s1, m1 as u128, m2 as u128, e1 as i32 + 149 - e2 as i32)
                }
            },
            (Parts::Finite { .. }, Parts::Infinite { .. }) => Single::zero(),
            (Parts::Infinite { negative }, Parts::Finite { .. }) => Single::infinite(negative),
            _ => Single::nan(),
        }
    }

    /// The number with the other sign.
    pub fn negated(self) -> (s: Single)
        ensures
            s@ == self@.negated(),
    {
        if self.bits >= 0x8000_0000 {
            let s = Single { bits: self.bits - 0x8000_0000 };
            assert(s.bits % 0x80_0000 == self.bits % 0x80_0000);
            assert((s.bits / 0x80_0000) % 256 == (self.bits / 0x80_0000) % 256);
            s
        } else {
            let s = Single { bits: self.bits + 0x8000_0000 };
            assert(s.bits % 0x80_0000 == self.bits % 0x80_0000);
            assert((s.bits / 0x80_0000) % 256 == (self.bits / 0x80_0000) % 256);
            s
        }
    }

    /// Whether the first number is below the second.
    pub fn below(self, other: Single) -> (r: bool)
        ensures
            r == self@.below(other@),
    {
        match (self.parts(), other.parts()) {
            (
                Parts::Finite { negative: s1, mant: m1, exp: e1 },
                Parts::Finite { negative: s2, mant: m2, exp: e2 },
            ) => {
                proof {
                    lemma_magnitude_zero(m1, e1);
                    lemma_magnitude_zero(m2, e2);
                }
                if s1 && s2 {
                    magnitude_below(m2, e2, m1, e1)
                } else if s1 {
                    m1 != 0 || m2 != 0
                } else if s2 {
                    false
                } else {
                    magnitude_below(m1, e1, m2, e2)
                }
            },
            (Parts::Infinite { negative }, Parts::Finite { .. }) => negative,
            (Parts::Finite { .. }, Parts::Infinite { negative }) => !negative,
            (Parts::Infinite { negative: s }, Parts::Infinite { negative: t }) => s && !t,
            _ => false,
        }
    }

    /// Whether this is no number.
    pub fn is_nan(self) -> (r: bool)
        ensures
            r == (self@ is Nan),
    {
        matches!(self.parts(), Parts::Nan)
    }

    /// The lesser of two numbers; a number rather than none.
    pub fn least(self, other: Single) -> (s: Single)
        ensures
            s@ == self@.least(other@),
            s == self || s == other,
    {
        if self.is_nan() || other.below(self) {
            other
        } else {
            self
        }
    }

    /// The greater of two numbers; a number rather than none.
    pub fn greatest(self, other: Single) -> (s: Single)
        ensures
            s@ == self@.greatest(other@),
            s == self || s == other,
    {
        if self.is_nan() || self.below(other) {
            other
        } else {
            self
        }
    }

    /// The number, or the bound of `0..=1` that it lies beyond.
    pub fn clamped(self) -> (s: Single)
        ensures
            s@ == self@.clamped(),
    {
        if self.below(Single::zero()) {
            Single::zero()
        } else if Single::one().below(self) {
            Single::one()
        } else {
            self
        }
    }
}

/// A summand below a quarter of the last place is lost.
proof fn lemma_rounded_absorbs(m: nat, e: nat, y: nat)
    requires
        0x80_0000 <= m < 0x100_0000,
        e >= 1,
        4 * y < pow2(e),
    ensures
        rounded(m * pow2(e) + y, 1) == m * pow2(e),
        rounded((m * pow2(e) - y) as nat, 1) == m * pow2(e),
        y < m * pow2(e),
{
    let p = pow2(e);
    let u = m * p;
    lemma_pow2_pos(e);
    lemma_pow2_unfold(e);
    assert(1 * p == p);
    assert(0x80_0000 * p <= u && u + p <= 0x100_0000 * p) by (nonlinear_arith)
        requires
            u == m * p,
            0x80_0000 <= m,
            m + 1 <= 0x100_0000,
    ;
    lemma_rounded_in_binade(u + y, 1, e);
    lemma_nearest_even_unique(u + y, p, m);
    if m > 0x80_0000 {
        assert(0x80_0000 * p + p <= u) by (nonlinear_arith)
            requires
                u == m * p,
                m >= 0x80_0000 + 1,
        ;
        lemma_rounded_in_binade((u - y) as nat, 1, e);
        lemma_nearest_even_unique((u - y) as nat, p, m);
    } else if y > 0 {
        let h = pow2((e - 1) as nat);
        assert(u == 0x100_0000 * h);
        assert(1 * h == h);
        lemma_rounded_in_binade((u - y) as nat, 1, (e - 1) as nat);
        lemma_nearest_even_unique((u - y) as nat, h, 0x100_0000);
    }
}

/// A power of two.
fn power_of_two(k: u32) -> (p: u128)
    requires
        k <= 64,
    ensures
        p == pow2(k as nat),
        p <= 0x1_0000_0000_0000_0000,
{
    let mut p: u128 = 1;
    let mut i: u32 = 0;
    proof {
        lemma2_to64();
    }
    while i < k
        invariant
            i <= k <= 64,
            p == pow2(i as nat),
            pow2(64) == 0x1_0000_0000_0000_0000,
        decreases k - i,
    {
        proof {
            lemma_pow2_strictly_increases(i as nat, 64);
            lemma_pow2_unfold((i + 1) as nat);
        }
        p = 2 * p;
        i = i + 1;
    }
    proof {
        if k < 64 {
            lemma_pow2_strictly_increases(k as nat, 64);
        }
    }
    p
}

/// The sum of two finite numbers, the first with the greater exponent.
fn plus_finite(s1: bool, m1: u32, e1: u32, s2: bool, m2: u32, e2: u32) -> (s: Single)
    requires
        (Parts::Finite { negative: s1, mant: m1, exp: e1 }).canonical(),
        (Parts::Finite { negative: s2, mant: m2, exp: e2 }).canonical(),
        e1 >= e2,
    ensures
        s@ == (Parts::Finite { negative: s1, mant: m1, exp: e1 }).value().plus(
            (Parts::Finite { negative: s2, mant: m2, exp: e2 }).value(),
        ),
{
    let ghost u1 = m1 as nat * pow2(e1 as nat);
    let ghost u2 = m2 as nat * pow2(e2 as nat);
    let ghost x = if s1 {
        -u1
    } else {
        u1 as int
    };
    let ghost y = if s2 {
        -u2
    } else {
        u2 as int
    };
    let gap: u32 = e1 - e2;
    if gap > 36 {
        proof {
            lemma2_to64();
            lemma2_to64_rest();
            let p2 = pow2(e2 as nat);
            lemma_pow2_adds(e2 as nat, gap as nat);
            lemma_pow2_strictly_increases(36, gap as nat);
            lemma_pow2_pos(e2 as nat);
            assert(4 * u2 < pow2(e1 as nat)) by (nonlinear_arith)
                requires
                    u2 == m2 as nat * p2,
                    m2 < 0x100_0000,
                    p2 > 0,
                    pow2(e1 as nat) == p2 * pow2(gap as nat),
                    pow2(gap as nat) > 0x10_0000_0000,
            ;
            lemma_rounded_absorbs(m1 as nat, e1 as nat, u2);
            if s1 != s2 {
                assert(magnitude(x + y) == (u1 - u2) as nat);
            } else {
                assert(magnitude(x + y) == u1 + u2);
            }
        }
        return Single::pack(s1, m1, e1);
    }
    let scale: u128 = power_of_two(gap);
    proof {
        lemma2_to64();
        lemma2_to64_rest();
        if gap < 36 {
            lemma_pow2_strictly_increases(gap as nat, 36);
        }
        assert(m1 as nat * scale as nat <= 0x100_0000 * 0x10_0000_0000) by (nonlinear_arith)
            requires
                m1 < 0x100_0000,
                scale <= 0x10_0000_0000,
        ;
    }
    let a: u128 = m1 as u128 * scale;
    let b: u128 = m2 as u128;
    proof {
        let p2 = pow2(e2 as nat);
        lemma_pow2_adds(gap as nat, e2 as nat);
        lemma_pow2_pos(e2 as nat);
        assert(u1 == a as nat * p2) by (nonlinear_arith)
            requires
                u1 == m1 as nat * (scale as nat * p2),
                a == m1 as nat * scale as nat,
        ;
        assert((a + b) as nat * p2 == u1 + u2) by (nonlinear_arith)
            requires
                u1 == a as nat * p2,
                u2 == b as nat * p2,
        ;
        assert(a >= b ==> (a - b) as nat * p2 == u1 - u2 && u1 >= u2) by (nonlinear_arith)
            requires
                u1 == a as nat * p2,
                u2 == b as nat * p2,
        ;
        assert(b > a ==> (b - a) as nat * p2 == u2 - u1 && u2 > u1) by (nonlinear_arith)
            requires
                p2 > 0,
                u1 == a as nat * p2,
                u2 == b as nat * p2,
        ;
        lemma_scaled_zero(1, e2 as int);
        lemma_pow2_pos(277);
        assert(0 * p2 == 0);
    }
    if s1 == s2 {
        assert(magnitude(x + y) == u1 + u2);
        round_ratio(s1, a + b, 1, e2 as i32)
    } else if a >= b {
        assert(magnitude(x + y) == u1 - u2);
        round_ratio(s1, a - b, 1, e2 as i32)
    } else {
        assert(magnitude(x + y) == u2 - u1);
        round_ratio(s2, b - a, 1, e2 as i32)
    }
}

/// A common factor of numerator and denominator changes nothing.
pub proof fn lemma_half_up_scale(k: nat, n: nat, d: nat)
    requires
        k > 0,
        d > 0,
    ensures
        half_up(k * n, k * d) == half_up(n, d),
{
    let q = half_up(n, d) as int;
    let r = ((2 * n + d) % (2 * d)) as int;
    lemma_fundamental_div_mod((2 * n + d) as int, (2 * d) as int);
    lemma_mod_bound((2 * n + d) as int, (2 * d) as int);
    assert(2 * (k * n) + k * d == q * (2 * (k * d)) + k * r) by (nonlinear_arith)
        requires
            2 * n + d == (2 * d) * q + r,
    ;
    assert(0 <= k * r < 2 * (k * d)) by (nonlinear_arith)
        requires
            0 <= r < 2 * d,
            k > 0,
    ;
    lemma_fundamental_div_mod_converse(
        (2 * (k * n) + k * d) as int,
        (2 * (k * d)) as int,
        q,
        k * r,
    );
}

/// An integer that lies to the ratio as `half_up` does is its result.
pub proof fn lemma_half_up_unique(n: nat, d: nat, q: nat)
    requires
        d > 0,
        2 * d * q <= 2 * n + d < 2 * d * q + 2 * d,
    ensures
        half_up(n, d) == q,
{
    assert(2 * d * q == q * (2 * d)) by (nonlinear_arith);
    lemma_fundamental_div_mod_converse(
        (2 * n + d) as int,
        (2 * d) as int,
        q as int,
        2 * n + d - 2 * d * q,
    );
}

/// How the result of `half_up` lies to the ratio.
pub proof fn lemma_half_up_bounds(p: nat, k: nat)
    requires
        k > 0,
    ensures
        2 * (half_up(p, k) * k) <= 2 * p + k,
        2 * p < 2 * (half_up(p, k) * k) + k,
{
    let h = half_up(p, k);
    lemma_fundamental_div_mod((2 * p + k) as int, (2 * k) as int);
    lemma_mod_bound((2 * p + k) as int, (2 * k) as int);
    assert((2 * k) * h == 2 * (h * k)) by (nonlinear_arith);
}

/// What is less than half above an integer does not round beyond it.
pub proof fn lemma_half_up_below(p: nat, k: nat, m: nat)
    requires
        k > 0,
        2 * p < 2 * (m * k) + k,
    ensures
        half_up(p, k) <= m,
{
    let h = half_up(p, k);
    lemma_fundamental_div_mod((2 * p + k) as int, (2 * k) as int);
    lemma_mod_bound((2 * p + k) as int, (2 * k) as int);
    assert(h <= m) by (nonlinear_arith)
        requires
            (2 * k) * h <= 2 * p + k,
            2 * p < 2 * (m * k) + k,
            k > 0,
    ;
}

/// What is at most half below an integer rounds to it or beyond.
pub proof fn lemma_half_up_above(p: nat, k: nat, m: nat)
    requires
        k > 0,
        2 * p + k >= 2 * (m * k),
    ensures
        half_up(p, k) >= m,
{
    let h = half_up(p, k);
    lemma_fundamental_div_mod((2 * p + k) as int, (2 * k) as int);
    lemma_mod_bound((2 * p + k) as int, (2 * k) as int);
    assert(h >= m) by (nonlinear_arith)
        requires
            2 * p + k < (2 * k) * h + 2 * k,
            2 * p + k >= 2 * (m * k),
            k > 0,
    ;
}

/// An integer and the number nearest to it, in units.
pub proof fn lemma_whole(n: nat) -> (u: nat)
    requires
        n <= u32::MAX,
    ensures
        u == rounded(n * one(), 1),
        ratio(n, 1) == Value::Finite(u as int),
        n <= 0x100_0000 ==> u == n * one(),
        n >= 1 ==> u >= one(),
        u <= 0x1_0000_0000 * one(),
        -(n * one()) <= 0x100_0000 * (u - n * one()) <= n * one(),
        rounded(u, 1) == u,
{
    let k = one();
    let u = rounded(n * k, 1);
    lemma2_to64();
    lemma_pow2_pos(149);
    lemma_rounded_idempotent(n * k, 1);
    lemma_rounded_integer_error(n * k);
    if n <= 0x100_0000 {
        lemma_rounded_exact(n, 149);
    }
    lemma_rounded_exact(1, 149);
    lemma_rounded_exact(1, 181);
    lemma_pow2_adds(32, 149);
    assert(1 * k == k && 1 * pow2(181) == pow2(181));
    assert(n >= 1 ==> n * k >= k) by (nonlinear_arith);
    if n >= 1 {
        lemma_rounded_at_least(n * k, 1, k);
    }
    assert(n * k <= 0x1_0000_0000 * k) by (nonlinear_arith)
        requires
            n <= 0x1_0000_0000,
    ;
    lemma_rounded_at_most(n * k, 1, 0x1_0000_0000 * k);
    lemma_pow2_strictly_increases(181, 277);
    u
}

impl Single {
    /// The sum of two numbers.
    pub fn plus(self, other: Single) -> (s: Single)
        ensures
            s@ == self@.plus(other@),
    {
        match (self.parts(), other.parts()) {
            (
                Parts::Finite { negative: s1, mant: m1, exp: e1 },
                Parts::Finite { negative: s2, mant: m2, exp: e2 },
            ) => {
                if e1 >= e2 {
                    plus_finite(s1, m1, e1, s2, m2, e2)
                } else {
                    plus_finite(s2, m2, e2, s1, m1, e1)
                }
            },
            (Parts::Infinite { negative }, Parts::Finite { .. }) => Single::infinite(negative),
            (Parts::Finite { .. }, Parts::Infinite { negative }) => Single::infinite(negative),
            (Parts::Infinite { negative: s }, Parts::Infinite { negative: t }) => if s == t {
                Single::infinite(s)
            } else {
                Single::nan()
            },
            _ => Single::nan(),
        }
    }

    /// The nearest integer, halves away from zero, or the bound of
    /// `0..=u32::MAX` that it lies beyond; zero where there is no number.
    pub fn nearest_integer(self) -> (n: u32)
        ensures
            n == self@.nearest_integer(),
    {
        match self.parts() {
            Parts::Nan => 0,
            Parts::Infinite { negative } => if negative {
                0
            } else {
                u32::MAX
            },
            Parts::Finite { negative, mant, exp } => {
                let ghost units = mant as nat * pow2(exp as nat);
                proof {
                    lemma2_to64();
                    lemma_magnitude_zero(mant, exp);
                    lemma_pow2_pos(exp as nat);
                    lemma_pow2_pos(149);
                    lemma_half_up_unique(0, one(), 0);
                }
                if negative || mant == 0 {
                    0
                } else if exp >= 149 {
                    let gap: u32 = exp - 149;
                    let ghost g = pow2(gap as nat);
                    proof {
                        lemma_pow2_adds(gap as nat, 149);
                        let v = mant as nat * g;
                        assert(units == v * one()) by (nonlinear_arith)
                            requires
                                units == mant as nat * (g * one()),
                                v == mant as nat * g,
                        ;
                        assert(2 * one() * v == 2 * units) by (nonlinear_arith)
                            requires
                                units == v * one(),
                        ;
                        lemma_half_up_unique(units, one(), v);
                    }
                    if gap > 8 {
                        proof {
                            if gap > 9 {
                                lemma_pow2_strictly_increases(9, gap as nat);
                            }
                            assert(mant as nat * g >= 0x80_0000 * 0x200) by (nonlinear_arith)
                                requires
                                    mant >= 0x80_0000,
                                    g >= 0x200,
                            ;
                        }
                        u32::MAX
                    } else {
                        let p: u128 = power_of_two(gap);
                        proof {
                            if gap < 8 {
                                lemma_pow2_strictly_increases(gap as nat, 8);
                            }
                            assert(mant as nat * p as nat <= 0xff_ffff * 0x100) by (nonlinear_arith)
                                requires
                                    mant <= 0xff_ffff,
                                    p <= 0x100,
                            ;
                        }
                        (mant as u128 * p) as u32
                    }
                } else {
                    let gap: u32 = 149 - exp;
                    let ghost g = pow2(gap as nat);
                    proof {
                        lemma_pow2_adds(exp as nat, gap as nat);
                        lemma_pow2_pos(gap as nat);
                        let p = pow2(exp as nat);
                        assert(p * mant as nat == units) by (nonlinear_arith)
                            requires
                                units == mant as nat * p,
                        ;
                        lemma_half_up_scale(p, mant as nat, g);
                    }
                    if gap > 25 {
                        proof {
                            if gap > 26 {
                                lemma_pow2_strictly_increases(26, gap as nat);
                            }
                            lemma_half_up_unique(mant as nat, g, 0);
                        }
                        0
                    } else {
                        let p: u128 = power_of_two(gap);
                        proof {
                            if gap < 25 {
                                lemma_pow2_strictly_increases(gap as nat, 25);
                            }
                        }
                        let q: u128 = (2 * mant as u128 + p) / (2 * p);
                        assert(q <= 0x400_0000) by (nonlinear_arith)
                            requires
                                p >= 1,
                                q == (2 * mant as u128 + p) / (2 * p),
                                2 * mant as u128 + p <= 0x400_0000,
                        ;
                        q as u32
                    }
                }
            },
        }
    }

    /// The tenths that a number holds, rounded, ties to even.
    pub(crate) fn tenths(self) -> (t: u32)
        requires
            self@ matches Value::Finite(x) && 0 <= x <= 0x20_0000 * one(),
        ensures
            self@ matches Value::Finite(x) && t == nearest_even((10 * x) as nat, one()),
            t <= 0x140_0000,
    {
        let ghost k = one();
        proof {
            lemma2_to64();
            lemma2_to64_rest();
            lemma_pow2_pos(149);
        }
        match self.parts() {
            Parts::Finite { negative, mant, exp } => {
                let ghost units = mant as nat * pow2(exp as nat);
                proof {
                    lemma_magnitude_zero(mant, exp);
                    lemma_pow2_pos(exp as nat);
                    if exp >= 149 {
                        let p = pow2(exp as nat);
                        if exp > 149 {
                            lemma_pow2_strictly_increases(149, exp as nat);
                        }
                        assert(mant as nat * p > 0x20_0000 * k) by (nonlinear_arith)
                            requires
                                mant >= 0x80_0000,
                                p >= k,
                                k > 0,
                        ;
                    }
                    lemma_nearest_even_monotone(10 * units, 0x140_0000 * k, k);
                    lemma_nearest_even_unique(0x140_0000 * k, k, 0x140_0000);
                }
                let gap: u32 = 149 - exp;
                proof {
                    let p = pow2(exp as nat);
                    let g = pow2(gap as nat);
                    lemma_pow2_adds(exp as nat, gap as nat);
                    lemma_pow2_pos(gap as nat);
                    assert(p * (10 * mant as nat) == 10 * units) by (nonlinear_arith)
                        requires
                            units == mant as nat * p,
                    ;
                    lemma_nearest_even_scale(p, 10 * mant as nat, g);
                }
                if gap > 64 {
                    proof {
                        lemma_pow2_strictly_increases(64, gap as nat);
                        lemma_nearest_even_unique(10 * mant as nat, pow2(gap as nat), 0);
                    }
                    0
                } else {
                    divide_nearest_even(10 * mant as u128, power_of_two(gap)) as u32
                }
            },
            _ => 0,
        }
    }
}

/// A product is off by `2^-24` of itself at most, or by half a unit, and has the
/// sign that the signs of its factors ask for.
pub proof fn law_product_is_near(x: int, y: int)
    ensures
        Value::Finite(x).times(Value::Finite(y)) matches Value::Finite(r) ==> {
            let exact = x * y;
            &&& 0x100_0000 * magnitude(r * one() - exact) <= magnitude(exact) + 0x80_0000 * one()
            &&& r > 0 ==> exact > 0
            &&& r < 0 ==> exact < 0
        },
{
    let k = one();
    lemma_pow2_pos(149);
    let n = magnitude(x) * magnitude(y);
    lemma_rounded_error(n, k);
    let m = rounded(n, k);
    assert(x * y == (if (x < 0) != (y < 0) {
        -n
    } else {
        n as int
    })) by (nonlinear_arith)
        requires
            n == magnitude(x) * magnitude(y),
            magnitude(x) == (if x < 0 {
                -x
            } else {
                x
            }),
            magnitude(y) == (if y < 0 {
                -y
            } else {
                y
            }),
    ;
    if n == 0 {
        lemma_rounded_at_most(0, k, 0);
    }
    assert((-m) * k == -(m * k)) by (nonlinear_arith);
}

/// A quotient is off by `2^-24` of itself at most, or by half a unit.
pub proof fn law_quotient_is_near(x: int, y: int)
    requires
        y > 0,
    ensures
        Value::Finite(x).over(Value::Finite(y)) matches Value::Finite(r) ==> 0x100_0000 * magnitude(
            r * y - x * one(),
        ) <= magnitude(x) * one() + 0x80_0000 * y,
{
    let k = one();
    lemma_pow2_pos(149);
    let n = magnitude(x) * k;
    lemma_rounded_error(n, y as nat);
    let m = rounded(n, y as nat);
    assert((-m) * y == -(m * y) && (-magnitude(x)) * k == -(magnitude(x) * k)) by (nonlinear_arith);
}

/// A sum is off by `2^-24` of itself at most.
pub proof fn law_sum_is_near(x: int, y: int)
    ensures
        Value::Finite(x).plus(Value::Finite(y)) matches Value::Finite(r) ==> 0x100_0000 * magnitude(
            r - (x + y),
        ) <= magnitude(x + y),
{
    lemma_rounded_integer_error(magnitude(x + y));
}

} // verus!
