//! Clips in and out: mixing to one channel, linear resampling, peak
//! normalization, and the levels of what is written.

use crate::arith::{
    add_times, diff, greater, greater_of, minus, over, plus, plus_prod, prod, quot, size, size_of,
    sum, times, Calc, Op,
};
use crate::level::{boosted, peak};
use crate::params::ONE;
use crate::probe::{answer, answering, is_steady};
use crate::single::{rounded, signed_rounded, Single};
use vstd::arithmetic::power2::*;
use vstd::prelude::*;

verus! {

/// The pattern of 1e-6.
pub const P_1E_MINUS_6: u32 = 0x3586_37BD;

/// The pattern of 0.6.
pub const P_0_6: u32 = 0x3F19_999A;

/// The pattern of 32767.0.
pub const P_32767_0: u32 = 0x46FF_FE00;

/// Whole-number samples of a width, scaled to between -1 and 1.
pub open spec fn scaled(f: Calc, ints: Seq<i32>, bits: nat) -> Seq<Single> {
    let k = quot(f, Single(ONE), rounded(pow2((bits - 1) as nat)));
    Seq::new(ints.len(), |i: int| prod(f, signed_rounded(ints[i] as int), k))
}

pub fn scale_ints<F: Fn(Op) -> Single>(f: &F, ints: &Vec<i32>, bits: u16) -> (r: Vec<Single>)
    requires
        is_steady(*f),
        1 <= bits <= 32,
    ensures
        r@ == scaled(answering(*f), ints@, bits as nat),
{
    let ghost g = answering(*f);
    let mut full: u64 = 1;
    let mut b: u16 = 1;
    proof {
        lemma2_to64();
    }
    while b < bits
        invariant
            1 <= b <= bits <= 32,
            full == pow2((b - 1) as nat),
            full <= 0x8000_0000,
            pow2(31) == 0x8000_0000,
        decreases bits - b,
    {
        proof {
            lemma_pow2_unfold(b as nat);
            if b < 31 {
                lemma_pow2_strictly_increases(b as nat, 31);
            }
        }
        full = full * 2;
        b = b + 1;
    }
    let k: Single = over(f, Single(ONE), Single::from_count(full));
    let ghost goal = scaled(g, ints@, bits as nat);
    let mut r: Vec<Single> = Vec::new();
    let mut i: usize = 0;
    while i < ints.len()
        invariant
            i <= ints@.len(),
            is_steady(*f),
            g == answering(*f),
            k == quot(g, Single(ONE), rounded(pow2((bits - 1) as nat))),
            goal == scaled(g, ints@, bits as nat),
            r@ == goal.take(i as int),
        decreases ints@.len() - i,
    {
        r.push(times(f, Single::from_signed(ints[i]), k));
        i = i + 1;
        assert(r@ =~= goal.take(i as int));
    }
    assert(r@ =~= goal);
    r
}

/// The sum of the samples from `from` up to `to`.
pub open spec fn run_sum(f: Calc, s: Seq<Single>, from: int, to: int) -> Single
    decreases to - from,
{
    if to <= from + 1 {
        s[from]
    } else {
        sum(f, run_sum(f, s, from, to - 1), s[to - 1])
    }
}

/// How many frames there are, the last one perhaps short.
pub open spec fn frames(len: nat, ch: nat) -> nat {
    if len % ch == 0 {
        len / ch
    } else {
        (len / ch + 1) as nat
    }
}

/// Where frame `i` ends.
pub open spec fn frame_end(len: nat, ch: nat, i: int) -> int {
    if (i + 1) * ch < len {
        (i + 1) * ch
    } else {
        len as int
    }
}

/// Interleaved frames mixed to one channel: each frame's sum over the number
/// of channels.
pub open spec fn mono(f: Calc, s: Seq<Single>, ch: nat) -> Seq<Single> {
    Seq::new(
        frames(s.len(), ch),
        |i: int|
            quot(f, run_sum(f, s, i * ch, frame_end(s.len(), ch, i)), rounded(ch)),
    )
}

pub fn to_mono<F: Fn(Op) -> Single>(f: &F, s: &Vec<Single>, ch: usize) -> (r: Vec<Single>)
    requires
        is_steady(*f),
        ch > 0,
    ensures
        r@ == mono(answering(*f), s@, ch as nat),
{
    let ghost g = answering(*f);
    let ghost goal = mono(g, s@, ch as nat);
    let n: usize = s.len();
    let many: Single = Single::from_usize(ch);
    let mut r: Vec<Single> = Vec::new();
    let mut at: usize = 0;
    proof {
        vstd::arithmetic::div_mod::lemma_fundamental_div_mod(n as int, ch as int);
        if n == 0 {
            vstd::arithmetic::div_mod::lemma_small_mod(0, ch as nat);
            vstd::arithmetic::div_mod::lemma_basic_div(0, ch as int);
        }
        assert(0 * ch == 0);
        if n > 0 && n as int % ch as int == 0 {
            let (ni, c) = (n as int, ch as int);
            assert(ni / c > 0) by (nonlinear_arith)
                requires
                    ni > 0,
                    c > 0,
                    ni == c * (ni / c) + ni % c,
                    ni % c == 0,
            ;
        }
    }
    while at < n
        invariant
            at <= n,
            n == s@.len(),
            ch > 0,
            is_steady(*f),
            g == answering(*f),
            many == rounded(ch as nat),
            goal == mono(g, s@, ch as nat),
            r@.len() <= goal.len(),
            r@ == goal.take(r@.len() as int),
            at < n ==> at == r@.len() * ch && r@.len() < goal.len(),
            at == n ==> r@.len() == goal.len(),
        decreases n - at,
    {
        let ghost i = r@.len() as int;
        let end: usize = if ch < n - at {
            at + ch
        } else {
            n
        };
        proof {
            assert((i + 1) * ch == i * ch + ch) by (nonlinear_arith);
        }
        assert(end == frame_end(n as nat, ch as nat, i));
        let mut acc: Single = s[at];
        let mut k: usize = at + 1;
        while k < end
            invariant
                at < k <= end <= s@.len(),
                is_steady(*f),
                g == answering(*f),
                acc == run_sum(g, s@, at as int, k as int),
            decreases end - k,
        {
            acc = plus(f, acc, s[k]);
            k = k + 1;
        }
        r.push(over(f, acc, many));
        assert(r@ =~= goal.take(i + 1));
        proof {
            let (ni, c) = (n as int, ch as int);
            vstd::arithmetic::div_mod::lemma_fundamental_div_mod(ni, c);
            let q = ni / c;
            if end < n {
                assert(i + 1 < frames(n as nat, ch as nat)) by (nonlinear_arith)
                    requires
                        (i + 1) * c < ni,
                        ni == c * q + ni % c,
                        0 <= ni % c < c,
                        c > 0,
                        frames(n as nat, ch as nat) == (if ni % c == 0 {
                            q
                        } else {
                            q + 1
                        }),
                ;
            } else {
                assert(i + 1 == frames(n as nat, ch as nat)) by (nonlinear_arith)
                    requires
                        (i + 1) * c >= ni,
                        i < frames(n as nat, ch as nat),
                        i * c < ni,
                        ni == c * q + ni % c,
                        0 <= ni % c < c,
                        c > 0,
                        frames(n as nat, ch as nat) == (if ni % c == 0 {
                            q
                        } else {
                            q + 1
                        }),
                ;
            }
        }
        at = end;
    }
    assert(goal.take(goal.len() as int) =~= goal);
    r
}

/// How many samples a clip has after resampling.
pub open spec fn resampled_len(f: Calc, len: nat, ratio: Single) -> nat {
    quot(f, rounded(len), ratio).truncated(usize::MAX as nat)
}

/// `i` or the last place of `n`.
pub open spec fn at_most_last(i: int, n: int) -> int {
    if i < n - 1 {
        i
    } else {
        n - 1
    }
}

/// Sample `i` of a clip read at a ratio, between two samples.
pub open spec fn read_at(f: Calc, s: Seq<Single>, ratio: Single, i: nat) -> Single {
    let x = prod(f, rounded(i), ratio);
    let j = x.truncated(usize::MAX as nat) as int;
    let a = s[at_most_last(j, s.len() as int)];
    let b = s[at_most_last(j + 1, s.len() as int)];
    plus_prod(f, a, diff(f, x, rounded(j as nat)), diff(f, b, a))
}

/// A clip at another rate, linearly interpolated.
pub open spec fn resampled(f: Calc, s: Seq<Single>, ratio: Single) -> Seq<Single> {
    if s.len() == 0 {
        Seq::empty()
    } else {
        Seq::new(resampled_len(f, s.len(), ratio), |i: int| read_at(f, s, ratio, i as nat))
    }
}

pub fn resample<F: Fn(Op) -> Single>(f: &F, s: &Vec<Single>, ratio: Single) -> (r: Vec<Single>)
    requires
        is_steady(*f),
    ensures
        r@ == resampled(answering(*f), s@, ratio),
{
    let ghost g = answering(*f);
    let n: usize = s.len();
    let mut r: Vec<Single> = Vec::new();
    if n == 0 {
        return r;
    }
    let ghost goal = resampled(g, s@, ratio);
    let len: usize = over(f, Single::from_usize(n), ratio).to_usize();
    let mut i: usize = 0;
    while i < len
        invariant
            i <= len,
            n == s@.len(),
            n > 0,
            is_steady(*f),
            g == answering(*f),
            goal == resampled(g, s@, ratio),
            len == goal.len(),
            r@ == goal.take(i as int),
        decreases len - i,
    {
        let x: Single = times(f, Single::from_usize(i), ratio);
        let j: usize = x.to_usize();
        let fr: Single = minus(f, x, Single::from_usize(j));
        let ja: usize = if j < n - 1 {
            j
        } else {
            n - 1
        };
        let jb: usize = if j < n - 1 {
            j + 1
        } else {
            n - 1
        };
        let a: Single = s[ja];
        let b: Single = s[jb];
        r.push(add_times(f, a, fr, minus(f, b, a)));
        assert(r@[i as int] == read_at(g, s@, ratio, i as nat));
        i = i + 1;
        assert(r@ =~= goal.take(i as int));
    }
    assert(r@ =~= goal);
    r
}

/// A clip with its peak at 0.6; one in which there is nothing stays as it is.
pub open spec fn peaked(f: Calc, s: Seq<Single>) -> Seq<Single> {
    let p = peak(s, s.len() as int);
    if Single(P_1E_MINUS_6).below(p) {
        boosted(f, s, quot(f, Single(P_0_6), p))
    } else {
        s
    }
}

pub fn normalize_peak<F: Fn(Op) -> Single>(f: &F, s: &mut Vec<Single>)
    requires
        is_steady(*f),
    ensures
        final(s)@ == peaked(answering(*f), old(s)@),
{
    let ghost g = answering(*f);
    let ghost s0 = s@;
    let n: usize = s.len();
    let mut p: Single = Single(0);
    let mut i: usize = 0;
    while i < n
        invariant
            i <= n,
            n == s@.len(),
            p == peak(s@, i as int),
        decreases n - i,
    {
        p = greater_of(p, size_of(s[i]));
        i = i + 1;
    }
    if !Single(P_1E_MINUS_6).lt(p) {
        return;
    }
    let k: Single = over(f, Single(P_0_6), p);
    let ghost goal = boosted(g, s0, k);
    let mut i: usize = 0;
    while i < n
        invariant
            i <= n,
            n == s@.len(),
            s0.len() == n,
            is_steady(*f),
            g == answering(*f),
            goal == boosted(g, s0, k),
            forall|j: int| 0 <= j < i ==> #[trigger] s@[j] == goal[j],
            forall|j: int| i <= j < n ==> #[trigger] s@[j] == s0[j],
        decreases n - i,
    {
        let x: Single = times(f, s[i], k);
        s.set(i, x);
        i = i + 1;
    }
    assert(s@ =~= goal);
}

/// A decoded file as a clip at another rate: one channel, resampled, its peak
/// at 0.6.
pub fn to_clip<F: Fn(Op) -> Single>(
    f: &F,
    s: &Vec<Single>,
    ch: usize,
    rate: u32,
    target_fs: Single,
) -> (r: Vec<Single>)
    requires
        is_steady(*f),
        ch > 0,
    ensures
        r@ == peaked(
            answering(*f),
            resampled(
                answering(*f),
                mono(answering(*f), s@, ch as nat),
                quot(answering(*f), rounded(rate as nat), target_fs),
            ),
        ),
{
    let m: Vec<Single> = to_mono(f, s, ch);
    let ratio: Single = over(f, Single::from_count(rate as u64), target_fs);
    let mut r: Vec<Single> = resample(f, &m, ratio);
    normalize_peak(f, &mut r);
    r
}

/// What was written to a file so far: the peak, the energy in double precision
/// as its pattern, and the number of frames.
#[derive(Clone, Copy, Debug, PartialEq, Eq, Structural)]
pub struct WavLevels {
    pub peak: Single,
    pub sum_sq: u64,
    pub n: usize,
}

/// A sample as 16 bits: scaled, cut towards zero, kept inside the type.
pub open spec fn sample_16(f: Calc, x: Single) -> int {
    let v = prod(f, x, Single(P_32767_0)).cut();
    if v < -32768 {
        -32768
    } else if v > 32767 {
        32767
    } else {
        v
    }
}

fn to_16<F: Fn(Op) -> Single>(f: &F, x: Single) -> (r: i16)
    requires
        is_steady(*f),
    ensures
        r == sample_16(answering(*f), x),
{
    let v: i64 = times(f, x, Single(P_32767_0)).to_i64();
    if v < -32768 {
        -32768
    } else if v > 32767 {
        32767
    } else {
        v as i16
    }
}

impl WavLevels {
    pub fn new() -> (r: Self)
        ensures
            r == (WavLevels { peak: Single(0), sum_sq: 0, n: 0 }),
    {
        WavLevels { peak: Single(0), sum_sq: 0, n: 0 }
    }

    /// The levels with one more frame.
    pub open spec fn with(
        self,
        f: Calc,
        grow: spec_fn((u64, Single)) -> u64,
        l: Single,
        r: Single,
    ) -> WavLevels {
        WavLevels {
            peak: greater(greater(self.peak, size(l)), size(r)),
            sum_sq: grow((self.sum_sq, sum(f, prod(f, l, l), prod(f, r, r)))),
            n: (self.n + 1) as usize,
        }
    }

    /// Take one frame in and give back its samples as they are written.
    /// `grow` adds half of a number to a double-precision sum.
    pub fn write<F: Fn(Op) -> Single, A: Fn((u64, Single)) -> u64>(
        &mut self,
        f: &F,
        grow: &A,
        l: Single,
        r: Single,
    ) -> (o: (i16, i16))
        requires
            is_steady(*f),
            is_steady(*grow),
            old(self).n < usize::MAX,
        ensures
            *final(self) == old(self).with(answering(*f), answering(*grow), l, r),
            o.0 == sample_16(answering(*f), l),
            o.1 == sample_16(answering(*f), r),
    {
        self.peak = greater_of(greater_of(self.peak, size_of(l)), size_of(r));
        let e: Single = plus(f, times(f, l, l), times(f, r, r));
        let next: u64 = grow((self.sum_sq, e));
        assert(answer(*grow, (self.sum_sq, e)) == next);
        self.sum_sq = next;
        self.n = self.n + 1;
        (to_16(f, l), to_16(f, r))
    }
}

} // verus!
