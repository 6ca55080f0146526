//! Eight-line feedback delay network for the late field. A line's gain sets
//! the mid-band decay; a lowpass in each loop makes high frequencies decay
//! faster. Its parameters can move smoothly while it sounds.

use crate::arith::{
    ask, clamp_to, clamped, diff, greater, greater_of, lesser, lesser_of, minus, over, plus, prod,
    quot, raise, sum, power, times, Calc, Op,
};
use crate::delay::{is_capacity, pushed, read_of, DelayLine, MAX_LINE};
use crate::filter::{lp_coef, OnePoleLp};
use crate::exact::{is_exact, square, value};
use crate::params::ONE;
use crate::probe::{answering, is_steady};
use crate::single::Single;
use crate::smooth::{left_after, Smoothed};
use vstd::prelude::*;

verus! {

pub const NLINES: usize = 8;

/// The patterns of the line lengths in milliseconds: 23.4, 32.5, 39.7, 46.9,
/// 55.9, 62.9, 72.0, 81.4.
pub open spec fn len_ms(i: int) -> Single {
    Single(
        if i == 0 {
            0x41BB_3333
        } else if i == 1 {
            0x4202_0000
        } else if i == 2 {
            0x421E_CCCD
        } else if i == 3 {
            0x423B_999A
        } else if i == 4 {
            0x425F_999A
        } else if i == 5 {
            0x427B_999A
        } else if i == 6 {
            0x4290_0000
        } else {
            0x42A2_CCCD
        },
    )
}

/// The pattern of 1e-3.
pub const MILLI: u32 = 0x3A83_126F;

/// The pattern of 0.7: a line's gain at the start.
pub const GAIN_0: u32 = 0x3F33_3333;

/// The pattern of 0.1: how fast gains move, in seconds.
pub const GAIN_TAU: u32 = 0x3DCC_CCCD;

/// The pattern of 0.15: how fast damping moves, in seconds.
pub const DAMP_TAU: u32 = 0x3E19_999A;

/// The pattern of -3.0: a decay of 60 dB is a thousandth.
pub const MINUS_THREE: u32 = 0xC040_0000;

/// The pattern of 10.0.
pub const TEN: u32 = 0x4120_0000;

/// The pattern of 0.05: the shortest decay, and the least ratio of the bands.
pub const LEAST: u32 = 0x3D4C_CCCD;

/// The pattern of 0.9999: the largest gain.
pub const MOST: u32 = 0x3F7F_F972;

/// The pattern of 0.999: a ratio from here on needs no damping.
pub const EVEN: u32 = 0x3F7F_BE77;

/// The pattern of 20000.0.
pub const OPEN_HZ: u32 = 0x469C_4000;

/// The pattern of 6000.0.
pub const DAMP_HZ: u32 = 0x45BB_8000;

/// The pattern of 500.0.
pub const DULL_HZ: u32 = 0x43FA_0000;

/// The pattern of 0.35: how much of the input each line takes.
pub const FEED: u32 = 0x3EB3_3333;

/// The pattern of 8.0.
pub const EIGHT: u32 = 0x4100_0000;

/// One sample of every line.
pub type Lines = [Single; 8];

#[derive(Debug)]
pub struct Fdn {
    pub lines: Vec<DelayLine>,
    pub lens: Lines,
    pub damps: [OnePoleLp; 8],
    pub gains: [Smoothed; 8],
    pub damp_coef: [Smoothed; 8],
    pub sample_rate: Single,
}

/// The length of line `i` in samples.
pub open spec fn line_len(f: Calc, sample_rate: Single, i: int) -> Single {
    prod(f, prod(f, len_ms(i), Single(MILLI)), sample_rate)
}

/// Every line is short enough to be held.
pub open spec fn is_rate(f: Calc, sample_rate: Single) -> bool {
    forall|i: int|
        0 <= i < 8 ==> (#[trigger] line_len(f, sample_rate, i)).truncated(usize::MAX as nat) + 4
            <= MAX_LINE
}

/// `10 ^ (-3 * len / rt60)`: what is left after one round.
pub open spec fn round_gain(f: Calc, len_s: Single, rt60: Single) -> Single {
    power(
        f,
        Single(TEN),
        quot(f, prod(f, Single(MINUS_THREE), len_s), greater(rt60, Single(LEAST))),
    )
}

fn gain_of_round<F: Fn(Op) -> Single>(f: &F, len_s: Single, rt60: Single) -> (r: Single)
    requires
        is_steady(*f),
    ensures
        r == round_gain(answering(*f), len_s, rt60),
{
    let e: Single = over(f, times(f, Single(MINUS_THREE), len_s), greater_of(rt60, Single(LEAST)));
    raise(f, Single(TEN), e)
}

/// The cutoff that brings the highs down to `ratio` of the mids.
pub open spec fn damp_cutoff(f: Calc, ratio: Single) -> Single {
    if Single(EVEN).at_most(ratio) {
        Single(OPEN_HZ)
    } else {
        clamped(
            quot(
                f,
                prod(f, Single(DAMP_HZ), ratio),
                f(Op::Root(diff(f, Single(ONE), prod(f, ratio, ratio)))),
            ),
            Single(DULL_HZ),
            Single(OPEN_HZ),
        )
    }
}

fn cutoff_of<F: Fn(Op) -> Single>(f: &F, ratio: Single) -> (r: Single)
    requires
        is_steady(*f),
    ensures
        r == damp_cutoff(answering(*f), ratio),
{
    if Single(EVEN).le(ratio) {
        Single(OPEN_HZ)
    } else {
        let rest: Single = minus(f, Single(ONE), times(f, ratio, ratio));
        let root: Single = ask(f, Op::Root(rest));
        let fc: Single = over(f, times(f, Single(DAMP_HZ), ratio), root);
        clamp_to(fc, Single(DULL_HZ), Single(OPEN_HZ))
    }
}

/// The gain that a line of length `len` heads for.
pub open spec fn line_gain(f: Calc, len: Single, rate: Single, mid: Single) -> Single {
    lesser(round_gain(f, quot(f, len, rate), mid), Single(MOST))
}

/// The damping that a line of length `len` heads for.
pub open spec fn line_damping(f: Calc, len: Single, rate: Single, mid: Single, high: Single) -> Single {
    let len_s = quot(f, len, rate);
    let ratio = clamped(
        quot(f, round_gain(f, len_s, high), round_gain(f, len_s, mid)),
        Single(LEAST),
        Single(ONE),
    );
    lp_coef(f, damp_cutoff(f, ratio), rate)
}

/// Neighbours added and subtracted.
pub open spec fn butterfly_1(f: Calc, v: Lines) -> Lines {
    [
        sum(f, v@[0], v@[1]),
        diff(f, v@[0], v@[1]),
        sum(f, v@[2], v@[3]),
        diff(f, v@[2], v@[3]),
        sum(f, v@[4], v@[5]),
        diff(f, v@[4], v@[5]),
        sum(f, v@[6], v@[7]),
        diff(f, v@[6], v@[7]),
    ]
}

/// Lines two apart added and subtracted.
pub open spec fn butterfly_2(f: Calc, v: Lines) -> Lines {
    [
        sum(f, v@[0], v@[2]),
        sum(f, v@[1], v@[3]),
        diff(f, v@[0], v@[2]),
        diff(f, v@[1], v@[3]),
        sum(f, v@[4], v@[6]),
        sum(f, v@[5], v@[7]),
        diff(f, v@[4], v@[6]),
        diff(f, v@[5], v@[7]),
    ]
}

/// Lines four apart added and subtracted.
pub open spec fn butterfly_4(f: Calc, v: Lines) -> Lines {
    [
        sum(f, v@[0], v@[4]),
        sum(f, v@[1], v@[5]),
        sum(f, v@[2], v@[6]),
        sum(f, v@[3], v@[7]),
        diff(f, v@[0], v@[4]),
        diff(f, v@[1], v@[5]),
        diff(f, v@[2], v@[6]),
        diff(f, v@[3], v@[7]),
    ]
}

/// The 8 by 8 Hadamard matrix applied to the lines.
pub open spec fn hadamard(f: Calc, v: Lines) -> Lines {
    butterfly_4(f, butterfly_2(f, butterfly_1(f, v)))
}

fn hadamard_of<F: Fn(Op) -> Single>(f: &F, v: &Lines) -> (r: Lines)
    requires
        is_steady(*f),
    ensures
        r == hadamard(answering(*f), *v),
{
    let ghost g = answering(*f);
    let a: Lines = [
        plus(f, v[0], v[1]),
        minus(f, v[0], v[1]),
        plus(f, v[2], v[3]),
        minus(f, v[2], v[3]),
        plus(f, v[4], v[5]),
        minus(f, v[4], v[5]),
        plus(f, v[6], v[7]),
        minus(f, v[6], v[7]),
    ];
    assert(a@ =~= butterfly_1(g, *v)@);
    let b: Lines = [
        plus(f, a[0], a[2]),
        plus(f, a[1], a[3]),
        minus(f, a[0], a[2]),
        minus(f, a[1], a[3]),
        plus(f, a[4], a[6]),
        plus(f, a[5], a[7]),
        minus(f, a[4], a[6]),
        minus(f, a[5], a[7]),
    ];
    assert(b@ =~= butterfly_2(g, a)@);
    let c: Lines = [
        plus(f, b[0], b[4]),
        plus(f, b[1], b[5]),
        plus(f, b[2], b[6]),
        plus(f, b[3], b[7]),
        minus(f, b[0], b[4]),
        minus(f, b[1], b[5]),
        minus(f, b[2], b[6]),
        minus(f, b[3], b[7]),
    ];
    assert(c@ =~= butterfly_4(g, b)@);
    c
}

/// The sum and the difference of two lines are exact.
pub open spec fn exact_pair(f: Calc, v: Lines, i: int, j: int) -> bool {
    is_exact(f, Op::Plus(v@[i], v@[j])) && is_exact(f, Op::Minus(v@[i], v@[j]))
}

/// Every sum and difference on the way through the matrix is exact.
pub open spec fn exact_hadamard(f: Calc, v: Lines) -> bool {
    let a = butterfly_1(f, v);
    let b = butterfly_2(f, a);
    &&& exact_pair(f, v, 0, 1) && exact_pair(f, v, 2, 3)
    &&& exact_pair(f, v, 4, 5) && exact_pair(f, v, 6, 7)
    &&& exact_pair(f, a, 0, 2) && exact_pair(f, a, 1, 3)
    &&& exact_pair(f, a, 4, 6) && exact_pair(f, a, 5, 7)
    &&& exact_pair(f, b, 0, 4) && exact_pair(f, b, 1, 5)
    &&& exact_pair(f, b, 2, 6) && exact_pair(f, b, 3, 7)
}

/// The sum of the squares.
pub open spec fn energy(v: Lines) -> real {
    square(value(v@[0])) + square(value(v@[1])) + square(value(v@[2])) + square(value(v@[3]))
        + square(value(v@[4])) + square(value(v@[5])) + square(value(v@[6])) + square(value(v@[7]))
}

proof fn lemma_pair(a: real, b: real)
    ensures
        square(a + b) + square(a - b) == 2real * (square(a) + square(b)),
{
    assert((a + b) * (a + b) + (a - b) * (a - b) == 2real * (a * a + b * b)) by (nonlinear_arith);
}

/// Feedback preserves energy: where sums and differences are exact, the lines
/// come out of the matrix with eight times the energy they had, which the
/// scaling by the root of eight takes back.
pub proof fn feedback_preserves_energy(f: Calc, v: Lines)
    requires
        exact_hadamard(f, v),
    ensures
        energy(hadamard(f, v)) == 8real * energy(v),
{
    let a = butterfly_1(f, v);
    let b = butterfly_2(f, a);
    let c = butterfly_4(f, b);
    assert(c == hadamard(f, v));
    lemma_pair(value(v@[0]), value(v@[1]));
    lemma_pair(value(v@[2]), value(v@[3]));
    lemma_pair(value(v@[4]), value(v@[5]));
    lemma_pair(value(v@[6]), value(v@[7]));
    assert(energy(a) == 2real * energy(v));
    lemma_pair(value(a@[0]), value(a@[2]));
    lemma_pair(value(a@[1]), value(a@[3]));
    lemma_pair(value(a@[4]), value(a@[6]));
    lemma_pair(value(a@[5]), value(a@[7]));
    assert(energy(b) == 2real * energy(a));
    lemma_pair(value(b@[0]), value(b@[4]));
    lemma_pair(value(b@[1]), value(b@[5]));
    lemma_pair(value(b@[2]), value(b@[6]));
    lemma_pair(value(b@[3]), value(b@[7]));
    assert(energy(c) == 2real * energy(b));
}

impl Fdn {
    pub open spec fn wf(self) -> bool {
        &&& self.lines@.len() == 8
        &&& forall|i: int|
            0 <= i < 8 ==> (#[trigger] self.lines@[i]).wf() && 4 <= self.lines@[i]@.len() <= MAX_LINE
    }

    /// A line's output: read, damped, and scaled by its gain.
    pub open spec fn line_out(self, f: Calc, i: int) -> Single {
        prod(f, self.damped(f, i).state, self.gains@[i].ticked(f).cur)
    }

    /// A line's damping one sample on.
    pub open spec fn damped(self, f: Calc, i: int) -> OnePoleLp {
        self.damps@[i].next(
            f,
            read_of(f, self.lines@[i]@, self.lens@[i]),
            self.damp_coef@[i].ticked(f).cur,
        )
    }

    /// The outputs of all lines.
    pub open spec fn outs(self, f: Calc) -> Lines {
        [
            self.line_out(f, 0),
            self.line_out(f, 1),
            self.line_out(f, 2),
            self.line_out(f, 3),
            self.line_out(f, 4),
            self.line_out(f, 5),
            self.line_out(f, 6),
            self.line_out(f, 7),
        ]
    }

    /// What is written into a line.
    pub open spec fn line_in(self, f: Calc, input: Single, i: int) -> Single {
        sum(
            f,
            prod(f, input, Single(FEED)),
            prod(f, hadamard(f, self.outs(f))@[i], quot(f, Single(ONE), f(Op::Root(Single(EIGHT))))),
        )
    }

    /// Silent, before any decay was set.
    pub open spec fn is_fresh(self, f: Calc, sample_rate: Single) -> bool {
        &&& self.sample_rate == sample_rate
        &&& forall|i: int| 0 <= i < 8 ==> #[trigger] self.lens@[i] == line_len(f, sample_rate, i)
        &&& forall|i: int, j: int|
            0 <= i < 8 && 0 <= j < self.lines@[i]@.len() ==> #[trigger] self.lines@[i]@[j] == Single(0)
        &&& forall|i: int|
            0 <= i < 8 ==> is_capacity(
                (#[trigger] self.lines@[i])@.len(),
                self.lens@[i].truncated(usize::MAX as nat) + 4,
            )
        &&& forall|i: int| 0 <= i < 8 ==> #[trigger] self.damps@[i] == OnePoleLp::still()
        &&& forall|i: int|
            0 <= i < 8 ==> #[trigger] self.gains@[i] == Smoothed::at(
                Single(GAIN_0),
                left_after(f, Single(GAIN_TAU), sample_rate),
            )
        &&& forall|i: int|
            0 <= i < 8 ==> #[trigger] self.damp_coef@[i] == Smoothed::at(
                Single(ONE),
                left_after(f, Single(DAMP_TAU), sample_rate),
            )
    }

    /// `now` is the network one sample on.
    pub open spec fn stepped(self, f: Calc, input: Single, now: Fdn) -> bool {
        &&& now.lens == self.lens
        &&& now.sample_rate == self.sample_rate
        &&& forall|i: int| 0 <= i < 8 ==> #[trigger] now.damps@[i] == self.damped(f, i)
        &&& forall|i: int| 0 <= i < 8 ==> #[trigger] now.gains@[i] == self.gains@[i].ticked(f)
        &&& forall|i: int| 0 <= i < 8 ==> #[trigger] now.damp_coef@[i] == self.damp_coef@[i].ticked(f)
        &&& forall|i: int|
            0 <= i < 8 ==> (#[trigger] now.lines@[i])@ == pushed(
                self.lines@[i]@,
                self.line_in(f, input, i),
            )
    }

    pub fn new<F: Fn(Op) -> Single>(f: &F, sample_rate: Single) -> (r: Self)
        requires
            is_steady(*f),
            is_rate(answering(*f), sample_rate),
        ensures
            r.wf(),
            r.is_fresh(answering(*f), sample_rate),
    {
        let ms: Lines = [
            Single(0x41BB_3333),
            Single(0x4202_0000),
            Single(0x421E_CCCD),
            Single(0x423B_999A),
            Single(0x425F_999A),
            Single(0x427B_999A),
            Single(0x4290_0000),
            Single(0x42A2_CCCD),
        ];
        let ghost g = answering(*f);
        let mut lens: Lines = ms;
        let mut lines: Vec<DelayLine> = Vec::new();
        let mut i: usize = 0;
        while i < 8
            invariant
                i <= 8,
                is_steady(*f),
                g == answering(*f),
                is_rate(g, sample_rate),
                ms@.len() == 8,
                lens@.len() == 8,
                lines@.len() == i,
                forall|j: int| 0 <= j < 8 ==> #[trigger] ms@[j] == len_ms(j),
                forall|j: int| 0 <= j < i ==> #[trigger] lens@[j] == line_len(g, sample_rate, j),
                forall|j: int|
                    0 <= j < i ==> (#[trigger] lines@[j]).wf() && 4 <= lines@[j]@.len() <= MAX_LINE,
                forall|j: int, k: int|
                    0 <= j < i && 0 <= k < lines@[j]@.len() ==> #[trigger] lines@[j]@[k] == Single(0),
                forall|j: int|
                    0 <= j < i ==> is_capacity(
                        (#[trigger] lines@[j])@.len(),
                        lens@[j].truncated(usize::MAX as nat) + 4,
                    ),
            decreases 8 - i,
        {
            let l: Single = times(f, times(f, ms[i], Single(MILLI)), sample_rate);
            assert(l == line_len(g, sample_rate, i as int));
            lens[i] = l;
            lines.push(DelayLine::new(l.to_usize() + 4));
            i = i + 1;
        }
        let rest: OnePoleLp = OnePoleLp { state: Single(0) };
        let gain: Smoothed = Smoothed::new(f, Single(GAIN_0), Single(GAIN_TAU), sample_rate);
        let damp: Smoothed = Smoothed::new(f, Single(ONE), Single(DAMP_TAU), sample_rate);
        Fdn {
            lines,
            lens,
            damps: [rest;8],
            gains: [gain;8],
            damp_coef: [damp;8],
            sample_rate,
        }
    }

    /// Set the decay from the traced times of the mid and the high band.
    pub fn set_rt60<F: Fn(Op) -> Single>(&mut self, f: &F, rt60_mid: Single, rt60_high: Single)
        requires
            is_steady(*f),
        ensures
            *final(self) == (Fdn {
                gains: final(self).gains,
                damp_coef: final(self).damp_coef,
                ..*old(self)
            }),
            forall|i: int|
                0 <= i < 8 ==> #[trigger] final(self).gains@[i] == old(self).gains@[i].towards(
                    line_gain(answering(*f), old(self).lens@[i], old(self).sample_rate, rt60_mid),
                ),
            forall|i: int|
                0 <= i < 8 ==> #[trigger] final(self).damp_coef@[i]
                    == old(self).damp_coef@[i].towards(
                    line_damping(
                        answering(*f),
                        old(self).lens@[i],
                        old(self).sample_rate,
                        rt60_mid,
                        rt60_high,
                    ),
                ),
    {
        let ghost g = answering(*f);
        let ghost g0 = self.gains@;
        let ghost d0 = self.damp_coef@;
        let mut i: usize = 0;
        while i < 8
            invariant
                i <= 8,
                is_steady(*f),
                g == answering(*f),
                self.gains@.len() == 8,
                self.damp_coef@.len() == 8,
                g0 == old(self).gains@,
                d0 == old(self).damp_coef@,
                g0.len() == 8,
                d0.len() == 8,
                *self == (Fdn { gains: self.gains, damp_coef: self.damp_coef, ..*old(self) }),
                forall|j: int|
                    0 <= j < i ==> #[trigger] self.gains@[j] == g0[j].towards(
                        line_gain(g, self.lens@[j], self.sample_rate, rt60_mid),
                    ),
                forall|j: int|
                    0 <= j < i ==> #[trigger] self.damp_coef@[j] == d0[j].towards(
                        line_damping(g, self.lens@[j], self.sample_rate, rt60_mid, rt60_high),
                    ),
                forall|j: int| i <= j < 8 ==> #[trigger] self.gains@[j] == g0[j],
                forall|j: int| i <= j < 8 ==> #[trigger] self.damp_coef@[j] == d0[j],
            decreases 8 - i,
        {
            let len_s: Single = over(f, self.lens[i], self.sample_rate);
            let g_mid: Single = gain_of_round(f, len_s, rt60_mid);
            let g_high: Single = gain_of_round(f, len_s, rt60_high);
            self.gains[i].set(lesser_of(g_mid, Single(MOST)));
            let ratio: Single = clamp_to(over(f, g_high, g_mid), Single(LEAST), Single(ONE));
            let fc: Single = cutoff_of(f, ratio);
            self.damp_coef[i].set(OnePoleLp::coef(f, fc, self.sample_rate));
            i = i + 1;
        }
    }

    /// One sample in, the outputs of all lines out.
    pub fn process<F: Fn(Op) -> Single>(&mut self, f: &F, input: Single) -> (r: Lines)
        requires
            is_steady(*f),
            old(self).wf(),
        ensures
            final(self).wf(),
            r == old(self).outs(answering(*f)),
            old(self).stepped(answering(*f), input, *final(self)),
    {
        let ghost g = answering(*f);
        let ghost was = *self;
        let mut outs: Lines = [Single(0);8];
        let mut i: usize = 0;
        while i < 8
            invariant
                i <= 8,
                is_steady(*f),
                g == answering(*f),
                self.wf(),
                was == *old(self),
                self.lines == was.lines,
                self.lens == was.lens,
                self.sample_rate == was.sample_rate,
                outs@.len() == 8,
                self.damps@.len() == 8,
                self.gains@.len() == 8,
                self.damp_coef@.len() == 8,
                forall|j: int| 0 <= j < i ==> #[trigger] outs@[j] == was.line_out(g, j),
                forall|j: int| 0 <= j < i ==> #[trigger] self.damps@[j] == was.damped(g, j),
                forall|j: int| 0 <= j < i ==> #[trigger] self.gains@[j] == was.gains@[j].ticked(g),
                forall|j: int|
                    0 <= j < i ==> #[trigger] self.damp_coef@[j] == was.damp_coef@[j].ticked(g),
                forall|j: int| i <= j < 8 ==> #[trigger] self.damps@[j] == was.damps@[j],
                forall|j: int| i <= j < 8 ==> #[trigger] self.gains@[j] == was.gains@[j],
                forall|j: int| i <= j < 8 ==> #[trigger] self.damp_coef@[j] == was.damp_coef@[j],
            decreases 8 - i,
        {
            assert(self.lines@[i as int].wf());
            let raw: Single = self.lines[i].read(f, self.lens[i]);
            let c: Single = self.damp_coef[i].tick(f);
            let damped: Single = self.damps[i].tick(f, raw, c);
            let gain: Single = self.gains[i].tick(f);
            outs[i] = times(f, damped, gain);
            i = i + 1;
        }
        assert(outs@ =~= was.outs(g)@);
        let v: Lines = hadamard_of(f, &outs);
        let root: Single = ask(f, Op::Root(Single(EIGHT)));
        let norm: Single = over(f, Single(ONE), root);
        let ghost mid = *self;
        let mut i: usize = 0;
        while i < 8
            invariant
                i <= 8,
                is_steady(*f),
                g == answering(*f),
                self.wf(),
                *self == (Fdn { lines: self.lines, ..mid }),
                was.lines == mid.lines,
                v == hadamard(g, was.outs(g)),
                norm == quot(g, Single(ONE), g(Op::Root(Single(EIGHT)))),
                forall|j: int|
                    0 <= j < i ==> (#[trigger] self.lines@[j])@ == pushed(
                        was.lines@[j]@,
                        was.line_in(g, input, j),
                    ),
                forall|j: int| i <= j < 8 ==> #[trigger] self.lines@[j] == was.lines@[j],
            decreases 8 - i,
        {
            assert(self.lines@[i as int] == was.lines@[i as int]);
            assert(self.lines@[i as int].wf());
            let x: Single = plus(f, times(f, input, Single(FEED)), times(f, v[i], norm));
            self.lines[i].write(x);
            i = i + 1;
        }
        outs
    }
}

} // verus!
