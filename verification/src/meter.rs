//! The rate at which frames are shown.
use crate::rounding::{
    lemma_nearest_even_bounds, lemma_rounded_at_least, lemma_rounded_at_most, lemma_rounded_error,
    lemma_rounded_exact, lemma_rounded_integer_error, nearest_even, rounded,
};
use crate::single::{one, ratio, Single, Value};
use crate::text::{decimal, digit, push_decimal};
use vstd::arithmetic::power2::{lemma2_to64, lemma_pow2_adds, lemma_pow2_pos, lemma_pow2_strictly_increases, pow2};
use vstd::prelude::*;

verus! {

/// The rate of one frame that took `seconds`, a microsecond at least.
pub open spec fn rate_of(seconds: Value) -> Value {
    Value::Finite(one() as int).over(seconds.greatest(ratio(1, 1_000_000)))
}

/// The rate after a frame that took `seconds`: the first frame's own, then nine
/// parts of the rate before and one part of the frame's own.
pub open spec fn next_rate(rate: Value, seconds: Value) -> Value {
    if rate == Value::Finite(0) {
        rate_of(seconds)
    } else {
        ratio(9, 10).times(rate).plus(ratio(1, 10).times(rate_of(seconds)))
    }
}

/// A text with blanks before it, so that it has five characters at least.
pub open spec fn padded(s: Seq<char>) -> Seq<char> {
    let blanks = if s.len() < 5 {
        (5 - s.len()) as nat
    } else {
        0
    };
    Seq::new(blanks, |i: int| ' ') + s
}

/// A number with one decimal, rounded, ties to even, on five places at least.
pub open spec fn rate_text(rate: Value) -> Seq<char> {
    let tenths = nearest_even((10 * rate->Finite_0) as nat, one());
    padded(decimal(tenths / 10) + seq!['.', digit(tenths % 10)])
}

/// The frame rate, smoothed.
#[derive(Clone, Copy, Debug)]
pub struct Meter {
    rate: Single,
}

/// A rate is a number, and within what frames of a microsecond can bring it to.
pub open spec fn is_rate(v: Value) -> bool {
    v matches Value::Finite(x) && 0 <= x <= 0x20_0000 * one()
}

/// The rate of a single frame is a rate.
proof fn lemma_rate_of(seconds: Value)
    ensures
        rate_of(seconds) matches Value::Finite(x) && 0 <= x <= 0x10_0000 * one(),
        seconds.greatest(ratio(1, 1_000_000)) is Nan == false,
        Value::Finite(0).below(seconds.greatest(ratio(1, 1_000_000))),
{
    let k = one();
    let a = rounded(k, 1_000_000);
    lemma2_to64();
    lemma_pow2_pos(149);
    lemma_pow2_pos(129);
    lemma_pow2_adds(129, 20);
    lemma_pow2_adds(20, 149);
    lemma_pow2_strictly_increases(149, 277);
    lemma_pow2_strictly_increases(169, 277);
    lemma_rounded_exact(1, 129);
    lemma_rounded_exact(1, 149);
    lemma_rounded_exact(1, 169);
    assert(1 * pow2(129) == pow2(129) && 1 * pow2(149) == k && 1 * pow2(169) == pow2(169));
    assert(1 * k == k);
    let m = pow2(129);
    lemma_rounded_at_least(k, 1_000_000, m);
    lemma_rounded_at_most(k, 1_000_000, k);
    assert(ratio(1, 1_000_000) == Value::Finite(a as int));
    let d = seconds.greatest(ratio(1, 1_000_000));
    if let Value::Finite(y) = d {
        let z = y as nat;
        assert(z >= m);
        assert(k * k <= (0x10_0000 * k) * z) by (nonlinear_arith)
            requires
                k == m * 0x10_0000,
                z >= m,
        ;
        lemma_rounded_at_most(k * k, z, 0x10_0000 * k);
    }
}

/// The smoothed rate is a rate.
proof fn lemma_next_rate(rate: Value, seconds: Value)
    requires
        is_rate(rate),
    ensures
        is_rate(next_rate(rate, seconds)),
{
    let k = one();
    lemma_rate_of(seconds);
    lemma2_to64();
    lemma_pow2_pos(149);
    lemma_pow2_adds(4, 145);
    lemma_pow2_adds(3, 146);
    lemma_pow2_adds(17, 149);
    lemma_pow2_adds(21, 149);
    lemma_pow2_strictly_increases(149, 277);
    lemma_pow2_strictly_increases(170, 277);
    lemma_rounded_exact(15, 145);
    lemma_rounded_exact(1, 146);
    lemma_rounded_exact(15, 166);
    lemma_rounded_exact(1, 166);
    lemma_rounded_exact(1, 170);
    assert(1 * pow2(146) == pow2(146) && 1 * pow2(166) == pow2(166) && 1 * pow2(170) == pow2(170));
    let n = rounded(9 * k, 10);
    let t = rounded(1 * k, 10);
    lemma_rounded_at_most(9 * k, 10, 15 * pow2(145));
    lemma_rounded_at_most(1 * k, 10, pow2(146));
    let x = rate->Finite_0 as nat;
    let y = rate_of(seconds)->Finite_0 as nat;
    let q = pow2(166);
    assert(n * x <= (15 * q) * k) by (nonlinear_arith)
        requires
            16 * n <= 15 * k,
            x <= 0x20_0000 * k,
            q == 0x2_0000 * k,
    ;
    assert(t * y <= q * k) by (nonlinear_arith)
        requires
            8 * t <= k,
            y <= 0x10_0000 * k,
            q == 0x2_0000 * k,
    ;
    let a = rounded(n * x, k);
    let b = rounded(t * y, k);
    lemma_rounded_at_most(n * x, k, 15 * q);
    lemma_rounded_at_most(t * y, k, q);
    lemma_rounded_at_most(a + b, 1, pow2(170));
}

impl Meter {
    #[verifier::type_invariant]
    spec fn inv(self) -> bool {
        is_rate(self.rate@)
    }

    /// The rate in frames per second; nothing before the first frame.
    pub closed spec fn rate(self) -> Value {
        self.rate@
    }

    /// A meter that has seen no frame.
    pub fn new() -> (m: Meter)
        ensures
            m.rate() == Value::Finite(0),
    {
        Meter { rate: Single::zero() }
    }

    /// Counts a frame that took `seconds`.
    pub fn record(&mut self, seconds: Single)
        ensures
            final(self).rate() == next_rate(old(self).rate(), seconds@),
            is_rate(final(self).rate()),
    {
        proof {
            use_type_invariant(&*self);
            lemma_rate_of(seconds@);
            lemma_next_rate(self.rate@, seconds@);
        }
        let dt = seconds.greatest(Single::from_ratio(1, 1_000_000));
        let current = Single::one().over(dt);
        let first = !Single::zero().below(self.rate);
        let rate = if first {
            current
        } else {
            Single::from_ratio(9, 10).times(self.rate).plus(Single::from_ratio(1, 10).times(current))
        };
        self.rate = rate;
    }

    /// Appends the rate with one decimal, on five places at least.
    pub fn push_rate(&self, out: &mut String)
        ensures
            is_rate(self.rate()),
            final(out)@ == old(out)@ + rate_text(self.rate()),
    {
        proof {
            use_type_invariant(self);
        }
        let tenths: u64 = self.rate.tenths() as u64;
        let mut s = String::new();
        push_decimal(&mut s, tenths / 10);
        s.push('.');
        push_decimal(&mut s, tenths % 10);
        let ghost number = decimal((tenths / 10) as nat) + seq!['.', digit((tenths % 10) as nat)];
        assert(s@ =~= number);
        let mut n: usize = s.as_str().unicode_len();
        let ghost start = out@;
        assert(out@ =~= start + Seq::new(0, |i: int| ' '));
        while n < 5
            invariant
                number.len() <= n,
                n <= 5 || n == number.len(),
                out@ == start + Seq::new((n - number.len()) as nat, |i: int| ' '),
            decreases 5 - n,
        {
            out.push(' ');
            n = n + 1;
            assert(out@ =~= start + Seq::new((n - number.len()) as nat, |i: int| ' '));
        }
        let ghost blanks = Seq::new((n - number.len()) as nat, |i: int| ' ');
        out.append(s.as_str());
        assert((start + blanks) + number =~= start + (blanks + number));
    }
}

/// The rate after the first frame is one over the seconds that it took, and for a
/// frame of less than a microsecond a million, to within `2^-20` of it.
pub proof fn law_first_frame_sets_the_rate(seconds: int)
    requires
        seconds <= 0x100_0000_0000 * one(),
    ensures
        next_rate(Value::Finite(0), Value::Finite(seconds)) matches Value::Finite(r) && {
            let square = one() * one();
            &&& 1_048_576_000_000 * seconds >= 0x10_0001 * one() ==> -square <= 0x10_0000 * (r * seconds
                - square) <= square
            &&& 1_048_576_000_000 * seconds <= 0xf_ffff * one() ==> -(1_000_000 * one()) <= 0x10_0000
                * (r - 1_000_000 * one()) <= 1_000_000 * one()
        },
{
    let k = one();
    lemma2_to64();
    lemma_pow2_pos(149);
    lemma_pow2_strictly_increases(64, 149);
    lemma_rate_of(Value::Finite(seconds));
    let a = rounded(k, 1_000_000);
    lemma_rounded_error(k, 1_000_000);
    assert(1 * k == k);
    lemma_pow2_strictly_increases(149, 277);
    lemma_rounded_exact(1, 149);
    assert(1 * pow2(149) == k);
    lemma_rounded_at_most(k, 1_000_000, k);
    assert(ratio(1, 1_000_000) == Value::Finite(a as int));
    let y = if seconds < a {
        a
    } else {
        seconds as nat
    };
    let n = k * k;
    let r = rounded(n, y);
    lemma_rounded_error(n, y);
    assert(n >= 0x80_0000 * y) by (nonlinear_arith)
        requires
            n == k * k,
            y <= 0x100_0000_0000 * k,
            k >= 0x8000_0000_0000_0000,
    ;
    if 1_048_576_000_000 * seconds <= 0xf_ffff * k {
        assert(0x100_0000 * (a * 1_000_000) >= 0xff_ffff * k);
        assert(y == a);
        assert(-(1_000_000 * k) <= 0x10_0000 * (r - 1_000_000 * k) <= 1_000_000 * k) by (nonlinear_arith)
            requires
                -n <= 0x100_0000 * (r * a - n) <= n,
                n == k * k,
                -k <= 0x100_0000 * (a * 1_000_000 - k) <= k,
                k > 0,
                a > 0,
        ;
    }
}

/// The rate after any other frame has nine parts of the rate before and one part
/// of what it would be were the frame the first, to within `2^-20` of it.
pub proof fn law_rate_is_smoothed(rate: int, seconds: Value)
    requires
        is_rate(Value::Finite(rate)),
        rate > 0,
    ensures
        next_rate(Value::Finite(0), seconds) matches Value::Finite(own) && next_rate(
            Value::Finite(rate),
            seconds,
        ) matches Value::Finite(r) && -(9 * rate + own + 0x200_0000) <= 0x10_0000 * (10 * r - (9 * rate
            + own)) <= 9 * rate + own + 0x200_0000,
{
    let k = one();
    lemma2_to64();
    lemma_pow2_pos(149);
    lemma_pow2_strictly_increases(64, 149);
    lemma_next_rate(Value::Finite(rate), seconds);
    lemma_next_rate(Value::Finite(0), seconds);
    lemma_rate_of(seconds);
    lemma_pow2_strictly_increases(149, 277);
    lemma_pow2_adds(22, 149);
    lemma_pow2_strictly_increases(171, 277);
    lemma_rounded_exact(1, 149);
    lemma_rounded_exact(1, 171);
    assert(1 * pow2(149) == k && 1 * pow2(171) == pow2(171));
    let x = rate as nat;
    let y = rate_of(seconds)->Finite_0 as nat;
    let n = rounded(9 * k, 10);
    let t = rounded(1 * k, 10);
    lemma_rounded_error(9 * k, 10);
    lemma_rounded_error(1 * k, 10);
    lemma_rounded_at_most(9 * k, 10, k);
    lemma_rounded_at_most(1 * k, 10, k);
    assert(ratio(9, 10) == Value::Finite(n as int));
    assert(ratio(1, 10) == Value::Finite(t as int));
    let (nx, ty) = (n * x, t * y);
    let a = rounded(nx, k);
    let b = rounded(ty, k);
    lemma_rounded_error(nx, k);
    lemma_rounded_error(ty, k);
    assert(nx <= pow2(171) * k) by (nonlinear_arith)
        requires
            nx == n * x,
            n <= k,
            x <= 0x20_0000 * k,
            pow2(171) == 0x40_0000 * k,
    ;
    assert(ty <= pow2(171) * k) by (nonlinear_arith)
        requires
            ty == t * y,
            t <= k,
            y <= 0x20_0000 * k,
            pow2(171) == 0x40_0000 * k,
    ;
    lemma_rounded_at_most(nx, k, pow2(171));
    lemma_rounded_at_most(ty, k, pow2(171));
    lemma_rounded_integer_error(a + b);
    let (xk, yk) = (9 * (x * k), y * k);
    assert(-xk <= 0x100_0000 * (10 * nx - xk) <= xk) by (nonlinear_arith)
        requires
            -(9 * k) <= 0x100_0000 * (n * 10 - 9 * k) <= 9 * k,
            nx == n * x,
            xk == 9 * (x * k),
    ;
    assert(-yk <= 0x100_0000 * (10 * ty - yk) <= yk) by (nonlinear_arith)
        requires
            -(1 * k) <= 0x100_0000 * (t * 10 - 1 * k) <= 1 * k,
            ty == t * y,
            yk == y * k,
    ;
    let (ak, bk) = (a * k, b * k);
    assert(-(nx + 0x80_0000 * k) <= 0x100_0000 * (ak - nx) <= nx + 0x80_0000 * k);
    assert(-(ty + 0x80_0000 * k) <= 0x100_0000 * (bk - ty) <= ty + 0x80_0000 * k);
    assert(-(xk + yk + 0x140_0000 * k) <= 0x20_0000 * (10 * (ak + bk) - (xk + yk)) <= xk + yk + 0x140_0000 * k);
    let z = 9 * x + y;
    assert(-(z + 0x140_0000) <= 0x20_0000 * (10 * (a + b) - z) <= z + 0x140_0000) by (nonlinear_arith)
        requires
            -(xk + yk + 0x140_0000 * k) <= 0x20_0000 * (10 * (ak + bk) - (xk + yk)) <= xk + yk + 0x140_0000 * k,
            ak == a * k,
            bk == b * k,
            xk == 9 * (x * k),
            yk == y * k,
            z == 9 * x + y,
            k > 0,
    ;
}

/// A rate is written with one decimal, to within half of one, on five places, or
/// more where it takes them, with blanks before it.
pub proof fn law_rate_has_one_decimal(rate: int)
    requires
        rate >= 0,
    ensures
        exists|whole: nat, tenth: nat|
            {
                let s = rate_text(Value::Finite(rate));
                let number = #[trigger] decimal(whole) + seq!['.', #[trigger] digit(tenth)];
                let blanks = s.len() - number.len();
                &&& tenth < 10
                &&& -one() <= 2 * (10 * rate - (10 * whole + tenth) * one()) <= one()
                &&& blanks >= 0
                &&& s.len() >= 5
                &&& blanks > 0 ==> s.len() == 5
                &&& forall|i: int| 0 <= i < blanks ==> s[i] == ' '
                &&& s.subrange(blanks, s.len() as int) == number
            },
{
    lemma_pow2_pos(149);
    let tenths = nearest_even((10 * rate) as nat, one());
    lemma_nearest_even_bounds((10 * rate) as nat, one());
    let (whole, tenth) = (tenths / 10, tenths % 10);
    assert(10 * whole + tenth == tenths);
    let number = decimal(whole) + seq!['.', digit(tenth)];
    let blanks = if number.len() < 5 {
        (5 - number.len()) as nat
    } else {
        0
    };
    let s = rate_text(Value::Finite(rate));
    assert(s =~= Seq::new(blanks, |i: int| ' ') + number);
    assert(s.subrange(blanks as int, s.len() as int) =~= number);
}

} // verus!
