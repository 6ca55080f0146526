//! Loudness of imported clips: every clip is brought to one reference, so that
//! how a sound was recorded stops mattering; and beds are made beds, without
//! passages that surge out of the background.

use crate::arith::{
    ask, clamp_to, clamped, diff, greater, greater_of, lesser, lesser_of, minus, over, plus, prod,
    quot, size, size_of, sum, times, Calc, Op,
};
use crate::exact::{is_exact, lemma_one, lemma_order, lemma_size, square, value};
use crate::params::{HALF, ONE};
use crate::probe::{answer, answering, is_steady};
use crate::rank::{rising, risen};
use crate::single::{lemma_grid_increases, rounded, Single};
use vstd::prelude::*;

verus! {

/// The pattern of 0.12: the reference loudness of a clip.
pub const REF_CLIP_RMS: u32 = 0x3DF5_C28F;

/// The pattern of 1e-6: below this there is nothing to hear.
pub const NOTHING: u32 = 0x3586_37BD;

/// The pattern of 0.0316: 30 dB below the peak.
pub const GATE: u32 = 0x3D01_6F00;

/// The pattern of 1e-9.
pub const FAINTEST: u32 = 0x3089_705F;

/// The pattern of 24.0: the largest boost.
pub const MAX_BOOST: u32 = 0x41C0_0000;

/// The pattern of 0.125.
pub const EIGHTH: u32 = 0x3E00_0000;

/// The pattern of 4.0.
pub const FOUR: u32 = 0x4080_0000;

/// The pattern of 0.35.
pub const SHORT_S: u32 = 0x3EB3_3333;

/// The pattern of 2.0.
pub const DOUBLE: u32 = 0x4000_0000;

/// The pattern of 0.25.
pub const QUARTER: u32 = 0x3E80_0000;

/// Energy in double precision, done by the host. A sum is held as its bit
/// pattern; zero is the pattern 0.
pub struct Meter<A, R, M> {
    /// A sum with the square of one more sample.
    pub grow: A,
    /// The root of a sum over a count.
    pub rms: R,
    /// A sum over a count.
    pub mean: M,
}

/// A sum of squares: its pattern after the samples from `from` to `to`.
pub open spec fn energy(
    grow: spec_fn((u64, Single)) -> u64,
    s: Seq<Single>,
    from: int,
    to: int,
) -> u64
    decreases to - from,
{
    if to <= from {
        0
    } else {
        grow((energy(grow, s, from, to - 1), s[to - 1]))
    }
}

/// The largest magnitude of the first `n` samples.
pub open spec fn peak(s: Seq<Single>, n: int) -> Single
    decreases n,
{
    if n <= 0 {
        Single(0)
    } else {
        greater(peak(s, n - 1), size(s[n - 1]))
    }
}

/// Those of the first `n` samples that are louder than a threshold.
pub open spec fn loud(s: Seq<Single>, gate: Single, n: int) -> Seq<Single>
    decreases n,
{
    if n <= 0 {
        Seq::empty()
    } else if gate.below(size(s[n - 1])) {
        loud(s, gate, n - 1).push(s[n - 1])
    } else {
        loud(s, gate, n - 1)
    }
}

/// The gain that brings a clip to a loudness; nothing for a clip in which
/// there is nothing to hear.
pub open spec fn clip_gain(
    f: Calc,
    grow: spec_fn((u64, Single)) -> u64,
    rms: spec_fn((u64, u64)) -> Single,
    s: Seq<Single>,
    target_rms: Single,
) -> Option<Single> {
    let p = peak(s, s.len() as int);
    let l = loud(s, prod(f, p, Single(GATE)), s.len() as int);
    if p.below(Single(NOTHING)) || l.len() == 0 {
        None
    } else {
        let level = rms((energy(grow, l, 0, l.len() as int), l.len() as u64));
        Some(lesser(quot(f, target_rms, greater(level, Single(FAINTEST))), Single(MAX_BOOST)))
    }
}

/// Every sample times a gain.
pub open spec fn boosted(f: Calc, s: Seq<Single>, g: Single) -> Seq<Single> {
    Seq::new(s.len(), |i: int| prod(f, s[i], g))
}

/// No clip is boosted more than 24 times: near silence does not become noise.
pub proof fn the_boost_is_capped(
    f: Calc,
    grow: spec_fn((u64, Single)) -> u64,
    rms: spec_fn((u64, u64)) -> Single,
    s: Seq<Single>,
    target_rms: Single,
)
    ensures
        clip_gain(f, grow, rms, s, target_rms) matches Some(g) ==> !Single(MAX_BOOST).below(g),
{
}

/// The samples that a clip's loudness is measured over.
pub open spec fn counted(f: Calc, s: Seq<Single>) -> Seq<Single> {
    loud(s, prod(f, peak(s, s.len() as int), Single(GATE)), s.len() as int)
}

/// A clip's loudness: the host's root mean square over the counted samples.
pub open spec fn loudness(
    f: Calc,
    grow: spec_fn((u64, Single)) -> u64,
    rms: spec_fn((u64, u64)) -> Single,
    s: Seq<Single>,
) -> Single {
    let l = counted(f, s);
    rms((energy(grow, l, 0, l.len() as int), l.len() as u64))
}

/// The sum of the samples' squares, as a number.
pub open spec fn squares(l: Seq<Single>) -> real
    decreases l.len(),
{
    if l.len() == 0 {
        0real
    } else {
        squares(l.drop_last()) + square(value(l.last()))
    }
}

/// The measurement of a clip is exact: its threshold, and the root of the mean
/// of the counted squares.
pub open spec fn exact_loudness(
    f: Calc,
    grow: spec_fn((u64, Single)) -> u64,
    rms: spec_fn((u64, u64)) -> Single,
    s: Seq<Single>,
) -> bool {
    let r = loudness(f, grow, rms, s);
    &&& is_exact(f, Op::Times(peak(s, s.len() as int), Single(GATE)))
    &&& r.is_finite() && value(r) >= 0real
    &&& square(value(r)) * (counted(f, s).len() as int as real) == squares(counted(f, s))
}

/// Multiplying every sample is exact.
pub open spec fn exact_boost(f: Calc, s: Seq<Single>, g: Single) -> bool {
    forall|i: int|
        0 <= i < s.len() ==> (#[trigger] s[i]).is_finite() && is_exact(f, Op::Times(s[i], g))
}

proof fn lemma_boosted_peak(f: Calc, s: Seq<Single>, g: Single, n: int)
    requires
        0 <= n <= s.len(),
        exact_boost(f, s, g),
        value(g) > 0real,
    ensures
        peak(s, n).is_finite(),
        value(peak(s, n)) >= 0real,
        peak(boosted(f, s, g), n).is_finite(),
        value(peak(boosted(f, s, g), n)) == value(peak(s, n)) * value(g),
    decreases n,
{
    let t = boosted(f, s, g);
    let k = value(g);
    lemma_one();
    if n <= 0 {
        assert(0real * k == 0real);
    } else {
        lemma_boosted_peak(f, s, g, n - 1);
        lemma_boosted_size(f, s[n - 1], g);
        let (p, q) = (peak(s, n - 1), peak(t, n - 1));
        let (x, y) = (size(s[n - 1]), size(t[n - 1]));
        lemma_order(p, x);
        lemma_order(q, y);
        lemma_scaled_order(value(p), value(x), k);
    }
}

proof fn lemma_boosted_size(f: Calc, x: Single, g: Single)
    requires
        x.is_finite(),
        is_exact(f, Op::Times(x, g)),
        value(g) > 0real,
    ensures
        size(x).is_finite(),
        value(size(x)) >= 0real,
        size(prod(f, x, g)).is_finite(),
        value(size(prod(f, x, g))) == value(size(x)) * value(g),
{
    lemma_size(x);
    lemma_size(prod(f, x, g));
    let (a, b, k) = (value(x), value(size(x)), value(g));
    let c = value(size(prod(f, x, g)));
    assert(c == b * k) by (nonlinear_arith)
        requires
            k > 0real,
            b >= 0real,
            c >= 0real,
            b == a || b == -a,
            c == a * k || c == -(a * k),
    ;
}

proof fn lemma_scaled_order(x: real, y: real, k: real)
    requires
        k > 0real,
    ensures
        x < y <==> x * k < y * k,
{
    assert(x < y <==> x * k < y * k) by (nonlinear_arith)
        requires
            k > 0real,
    ;
}

proof fn lemma_boosted_loud(f: Calc, s: Seq<Single>, g: Single, a: Single, b: Single, n: int)
    requires
        0 <= n <= s.len(),
        exact_boost(f, s, g),
        value(g) > 0real,
        a.is_finite(),
        b.is_finite(),
        value(b) == value(a) * value(g),
    ensures
        loud(boosted(f, s, g), b, n) == boosted(f, loud(s, a, n), g),
        exact_boost(f, loud(s, a, n), g),
    decreases n,
{
    let t = boosted(f, s, g);
    if n <= 0 {
        assert(loud(t, b, n) =~= boosted(f, loud(s, a, n), g));
    } else {
        lemma_boosted_loud(f, s, g, a, b, n - 1);
        lemma_boosted_size(f, s[n - 1], g);
        lemma_order(a, size(s[n - 1]));
        lemma_order(b, size(t[n - 1]));
        lemma_scaled_order(value(a), value(size(s[n - 1])), value(g));
        assert(loud(t, b, n) =~= boosted(f, loud(s, a, n), g));
    }
}

proof fn lemma_boosted_squares(f: Calc, l: Seq<Single>, g: Single)
    requires
        exact_boost(f, l, g),
    ensures
        squares(boosted(f, l, g)) == square(value(g)) * squares(l),
    decreases l.len(),
{
    let t = boosted(f, l, g);
    let k = square(value(g));
    if l.len() == 0 {
        assert(k * 0real == 0real);
    } else {
        let head = l.drop_last();
        assert forall|i: int| 0 <= i < head.len() implies (#[trigger] head[i]).is_finite()
            && is_exact(f, Op::Times(head[i], g)) by {
            assert(head[i] == l[i]);
        }
        lemma_boosted_squares(f, head, g);
        assert(t.drop_last() =~= boosted(f, head, g));
        let (x, y, q) = (value(l.last()), value(g), squares(head));
        assert(is_exact(f, Op::Times(l[l.len() - 1], g)));
        assert((x * y) * (x * y) == (y * y) * (x * x)) by (nonlinear_arith);
        let sq = square(x);
        assert(k * (q + sq) == k * q + k * sq) by (nonlinear_arith);
    }
}

/// In exact arithmetic a clip's loudness grows as its samples do.
pub proof fn loudness_follows_the_samples(
    f: Calc,
    grow: spec_fn((u64, Single)) -> u64,
    rms: spec_fn((u64, u64)) -> Single,
    s: Seq<Single>,
    g: Single,
)
    requires
        exact_boost(f, s, g),
        value(g) > 0real,
        exact_loudness(f, grow, rms, s),
        exact_loudness(f, grow, rms, boosted(f, s, g)),
        counted(f, s).len() > 0,
    ensures
        counted(f, boosted(f, s, g)) == boosted(f, counted(f, s), g),
        value(loudness(f, grow, rms, boosted(f, s, g))) == value(loudness(f, grow, rms, s)) * value(
            g,
        ),
{
    let t = boosted(f, s, g);
    let n = s.len() as int;
    lemma_boosted_peak(f, s, g, n);
    let (p, q) = (peak(s, n), peak(t, n));
    let (x, k, w) = (value(p), value(g), value(Single(GATE)));
    assert((x * k) * w == (x * w) * k) by (nonlinear_arith);
    lemma_boosted_loud(f, s, g, prod(f, p, Single(GATE)), prod(f, q, Single(GATE)), n);
    let l = counted(f, s);
    lemma_boosted_squares(f, l, g);
    let m = l.len() as int as real;
    let a = value(loudness(f, grow, rms, s));
    let b = value(loudness(f, grow, rms, t));
    assert((k * k) * ((a * a) * m) == ((a * k) * (a * k)) * m) by (nonlinear_arith);
    let c = a * k;
    assert(b * b == c * c) by (nonlinear_arith)
        requires
            (b * b) * m == (c * c) * m,
            m > 0real,
    ;
    assert(c >= 0real) by (nonlinear_arith)
        requires
            c == a * k,
            a >= 0real,
            k > 0real,
    ;
    assert(b == c) by (nonlinear_arith)
        requires
            b * b == c * c,
            b >= 0real,
            c >= 0real,
    ;
}

/// The gain that brings a clip to a loudness is within what is allowed, and
/// exact.
pub open spec fn is_uncapped(
    f: Calc,
    grow: spec_fn((u64, Single)) -> u64,
    rms: spec_fn((u64, u64)) -> Single,
    s: Seq<Single>,
    target_rms: Single,
) -> bool {
    let level = loudness(f, grow, rms, s);
    let g = quot(f, target_rms, level);
    &&& !peak(s, s.len() as int).below(Single(NOTHING))
    &&& counted(f, s).len() > 0
    &&& exact_loudness(f, grow, rms, s)
    &&& !level.below(Single(FAINTEST))
    &&& is_exact(f, Op::Over(target_rms, level))
    &&& !Single(MAX_BOOST).below(g)
    &&& exact_boost(f, s, g)
}

proof fn lemma_uncapped(
    f: Calc,
    grow: spec_fn((u64, Single)) -> u64,
    rms: spec_fn((u64, u64)) -> Single,
    s: Seq<Single>,
    target_rms: Single,
)
    requires
        is_uncapped(f, grow, rms, s, target_rms),
        value(target_rms) > 0real,
    ensures
        ({
            let level = loudness(f, grow, rms, s);
            let g = quot(f, target_rms, level);
            &&& clip_gain(f, grow, rms, s, target_rms) == Some(g)
            &&& value(level) > 0real
            &&& value(g) > 0real
            &&& value(g) * value(level) == value(target_rms)
        }),
{
    let level = loudness(f, grow, rms, s);
    let g = quot(f, target_rms, level);
    let (a, k, t) = (value(level), value(g), value(target_rms));
    assert(k > 0real) by (nonlinear_arith)
        requires
            k * a == t,
            a >= 0real,
            t > 0real,
    ;
}

/// A clip comes to the reference: in exact arithmetic, where the boost is not
/// capped, the loudness of the clip behind it is the one asked for.
pub proof fn a_clip_comes_to_its_loudness(
    f: Calc,
    grow: spec_fn((u64, Single)) -> u64,
    rms: spec_fn((u64, u64)) -> Single,
    s: Seq<Single>,
    target_rms: Single,
)
    requires
        value(target_rms) > 0real,
        is_uncapped(f, grow, rms, s, target_rms),
        exact_loudness(
            f,
            grow,
            rms,
            boosted(f, s, quot(f, target_rms, loudness(f, grow, rms, s))),
        ),
    ensures
        clip_gain(f, grow, rms, s, target_rms) matches Some(g) && value(
            loudness(f, grow, rms, boosted(f, s, g)),
        ) == value(target_rms),
{
    let level = loudness(f, grow, rms, s);
    let g = quot(f, target_rms, level);
    lemma_uncapped(f, grow, rms, s, target_rms);
    loudness_follows_the_samples(f, grow, rms, s, g);
    let (a, k) = (value(level), value(g));
    assert(a * k == k * a) by (nonlinear_arith);
}

/// The recording level stops mattering: in exact arithmetic, where neither boost
/// is capped, a clip and the same clip recorded `k` times as loud come out the
/// same.
pub proof fn the_recording_level_stops_mattering(
    f: Calc,
    grow: spec_fn((u64, Single)) -> u64,
    rms: spec_fn((u64, u64)) -> Single,
    s: Seq<Single>,
    k: Single,
    target_rms: Single,
    i: int,
)
    requires
        value(target_rms) > 0real,
        value(k) > 0real,
        exact_boost(f, s, k),
        is_uncapped(f, grow, rms, s, target_rms),
        is_uncapped(f, grow, rms, boosted(f, s, k), target_rms),
        0 <= i < s.len(),
    ensures
        ({
            let t = boosted(f, s, k);
            &&& clip_gain(f, grow, rms, s, target_rms) matches Some(g)
            &&& clip_gain(f, grow, rms, t, target_rms) matches Some(h)
            &&& value(boosted(f, t, h)[i]) == value(boosted(f, s, g)[i])
        }),
{
    let t = boosted(f, s, k);
    lemma_uncapped(f, grow, rms, s, target_rms);
    lemma_uncapped(f, grow, rms, t, target_rms);
    loudness_follows_the_samples(f, grow, rms, s, k);
    let (a, x, c) = (value(loudness(f, grow, rms, s)), value(s[i]), value(k));
    let g = quot(f, target_rms, loudness(f, grow, rms, s));
    let h = quot(f, target_rms, loudness(f, grow, rms, t));
    let (u, w) = (value(g), value(h));
    assert(is_exact(f, Op::Times(s[i], g)));
    assert(is_exact(f, Op::Times(s[i], k)));
    assert(is_exact(f, Op::Times(t[i], h)));
    assert(w * (a * c) == (c * w) * a) by (nonlinear_arith);
    let v = c * w;
    assert(v == u) by (nonlinear_arith)
        requires
            v * a == u * a,
            a > 0real,
    ;
    assert((x * c) * w == x * (c * w)) by (nonlinear_arith);
}

/// Silence before, after or within a clip does not change its gain: only
/// samples above the threshold count.
pub proof fn silence_changes_nothing(
    f: Calc,
    grow: spec_fn((u64, Single)) -> u64,
    rms: spec_fn((u64, u64)) -> Single,
    s: Seq<Single>,
    i: int,
    target_rms: Single,
)
    requires
        0 <= i <= s.len(),
        !prod(f, peak(s, s.len() as int), Single(GATE)).below(Single(0)),
    ensures
        clip_gain(f, grow, rms, s.insert(i, Single(0)), target_rms) == clip_gain(
            f,
            grow,
            rms,
            s,
            target_rms,
        ),
{
    let t = s.insert(i, Single(0));
    let gate = prod(f, peak(s, s.len() as int), Single(GATE));
    lemma_padded(s, t, i, gate, t.len() as int);
}

/// Up to any place, a clip with one more zero has the same peak and the same
/// loud samples.
proof fn lemma_padded(s: Seq<Single>, t: Seq<Single>, i: int, gate: Single, n: int)
    requires
        0 <= i <= s.len(),
        t == s.insert(i, Single(0)),
        0 <= n <= t.len(),
        !gate.below(Single(0)),
    ensures
        n <= i ==> peak(t, n) == peak(s, n) && loud(t, gate, n) == loud(s, gate, n),
        n > i ==> peak(t, n) == peak(s, n - 1) && loud(t, gate, n) == loud(s, gate, n - 1),
        !peak(t, n).is_nan() && !peak(t, n).is_negative(),
    decreases n,
{
    if n > 0 {
        lemma_padded(s, t, i, gate, n - 1);
        assert(size(Single(0)) == Single(0));
        let p = peak(t, n - 1);
        assert(p.num() >= 0);
        assert(Single(0).num() == 0);
        assert(greater(p, Single(0)) == p);
        if n - 1 < i {
            assert(t[n - 1] == s[n - 1]);
        } else if n - 1 > i {
            assert(t[n - 1] == s[n - 2]);
        }
    }
}

/// Bring a clip to a loudness, measured over the samples that are within 30 dB
/// of its peak.
pub fn normalize_rms<
    F: Fn(Op) -> Single,
    A: Fn((u64, Single)) -> u64,
    R: Fn((u64, u64)) -> Single,
    M,
>(f: &F, meter: &Meter<A, R, M>, samples: &mut Vec<Single>, target_rms: Single)
    requires
        is_steady(*f),
        is_steady(meter.grow),
        is_steady(meter.rms),
    ensures
        final(samples)@ == (match clip_gain(
            answering(*f),
            answering(meter.grow),
            answering(meter.rms),
            old(samples)@,
            target_rms,
        ) {
            Some(g) => boosted(answering(*f), old(samples)@, g),
            None => old(samples)@,
        }),
{
    let ghost s0 = samples@;
    let ghost ad = answering(meter.grow);
    let n: usize = samples.len();
    let mut p: Single = Single(0);
    let mut i: usize = 0;
    while i < n
        invariant
            i <= n,
            n == samples@.len(),
            p == peak(samples@, i as int),
        decreases n - i,
    {
        p = greater_of(p, size_of(samples[i]));
        i = i + 1;
    }
    if p.lt(Single(NOTHING)) {
        return;
    }
    let gate: Single = times(f, p, Single(GATE));
    let mut e: u64 = 0;
    let mut count: u64 = 0;
    let mut i: usize = 0;
    while i < n
        invariant
            i <= n,
            n == samples@.len(),
            is_steady(meter.grow),
            ad == answering(meter.grow),
            count == loud(samples@, gate, i as int).len(),
            count <= i,
            e == energy(ad, loud(samples@, gate, i as int), 0, count as int),
        decreases n - i,
    {
        let x: Single = samples[i];
        if gate.lt(size_of(x)) {
            let ghost before = loud(samples@, gate, i as int);
            let next: u64 = (meter.grow)((e, x));
            assert(answer(meter.grow, (e, x)) == next);
            proof {
                lemma_energy_same(ad, before, before.push(x), count as int);
            }
            e = next;
            count = count + 1;
        }
        i = i + 1;
    }
    if count == 0 {
        return;
    }
    let level: Single = (meter.rms)((e, count));
    assert(answer(meter.rms, (e, count)) == level);
    let ratio: Single = over(f, target_rms, greater_of(level, Single(FAINTEST)));
    let g: Single = lesser_of(ratio, Single(MAX_BOOST));
    assert(clip_gain(answering(*f), ad, answering(meter.rms), s0, target_rms) == Some(g));
    let ghost goal = boosted(answering(*f), s0, g);
    let mut i: usize = 0;
    while i < n
        invariant
            i <= n,
            n == samples@.len(),
            s0.len() == n,
            is_steady(*f),
            goal == boosted(answering(*f), s0, g),
            forall|j: int| 0 <= j < i ==> #[trigger] samples@[j] == goal[j],
            forall|j: int| i <= j < n ==> #[trigger] samples@[j] == s0[j],
        decreases n - i,
    {
        let x: Single = times(f, samples[i], g);
        samples.set(i, x);
        i = i + 1;
    }
    assert(samples@ =~= goal);
}

/// A sum only looks at its own samples.
proof fn lemma_energy_same(grow: spec_fn((u64, Single)) -> u64, s: Seq<Single>, t: Seq<Single>, n: int)
    requires
        0 <= n <= s.len() <= t.len(),
        forall|j: int| 0 <= j < n ==> #[trigger] s[j] == t[j],
    ensures
        energy(grow, s, 0, n) == energy(grow, t, 0, n),
    decreases n,
{
    if n > 0 {
        lemma_energy_same(grow, s, t, n - 1);
        assert(s[n - 1] == t[n - 1]);
    }
}

// --- slow loudness

/// The shape of one pass: channels, frames, the window and its hop in frames.
#[derive(Clone, Copy, Debug)]
pub struct Windows {
    pub ch: usize,
    pub frames: usize,
    pub win: usize,
    pub hop: usize,
    pub n_win: usize,
}

/// How many channels there are: at least one.
pub open spec fn channel_count(channels: int) -> int {
    if channels < 1 {
        1
    } else {
        channels
    }
}

/// The windows of a clip.
pub open spec fn is_windows(
    f: Calc,
    len: nat,
    channels: int,
    sample_rate: Single,
    win_s: Single,
    w: Windows,
) -> bool {
    &&& w.ch == channel_count(channels)
    &&& w.frames == len as int / w.ch as int
    &&& w.win == prod(f, sample_rate, win_s).truncated(usize::MAX as nat)
    &&& w.hop == (if w.win / 2 < 1 {
        1int
    } else {
        w.win as int / 2
    })
    &&& w.n_win == w.frames / w.hop
}

/// The clip is long enough for a profile.
pub open spec fn is_profiled(w: Windows) -> bool {
    w.frames > 0 && w.frames >= 3 * w.win
}

/// The last frame of window `i`, and one.
pub open spec fn window_end(w: Windows, i: int) -> int {
    if i * w.hop + w.win < w.frames {
        i * w.hop + w.win
    } else {
        w.frames as int
    }
}

/// The loudness of window `i`.
pub open spec fn window_rms(
    f: Calc,
    grow: spec_fn((u64, Single)) -> u64,
    mean: spec_fn((u64, u64)) -> Single,
    s: Seq<Single>,
    w: Windows,
    i: int,
) -> Single {
    let from = i * w.hop;
    let to = window_end(w, i);
    let n = (to - from) * w.ch;
    let e = energy(grow, s, from * w.ch, to * w.ch);
    greater(f(Op::Root(mean((e, if n < 1 { 1 } else { n as u64 })))), Single(NOTHING))
}

/// The loudness of every window.
pub open spec fn profile(
    f: Calc,
    grow: spec_fn((u64, Single)) -> u64,
    mean: spec_fn((u64, u64)) -> Single,
    s: Seq<Single>,
    w: Windows,
) -> Seq<Single> {
    Seq::new(w.n_win as nat, |i: int| window_rms(f, grow, mean, s, w, i))
}

/// The gain that takes a window to the target, within limits.
pub open spec fn raw_gain(
    f: Calc,
    rms: Seq<Single>,
    target: Single,
    g_min: Single,
    g_max: Single,
    i: int,
) -> Single {
    clamped(quot(f, target, rms[i]), g_min, g_max)
}

/// `i` in a loop of `n`: the place after it.
pub open spec fn after(i: int, n: int) -> int {
    if i + 1 == n {
        0
    } else {
        i + 1
    }
}

/// `i` in a loop of `n`: the place before it.
pub open spec fn before(i: int, n: int) -> int {
    if i == 0 {
        n - 1
    } else {
        i - 1
    }
}

/// A gain smoothed with its neighbours; the clip is a loop.
pub open spec fn smooth_gain(f: Calc, raw: Seq<Single>, i: int) -> Single {
    let n = raw.len() as int;
    sum(
        f,
        sum(
            f,
            prod(f, Single(QUARTER), raw[before(i, n)]),
            prod(f, Single(HALF), raw[i]),
        ),
        prod(f, Single(QUARTER), raw[after(i, n)]),
    )
}

/// The smoothed gains.
pub open spec fn gains_of(
    f: Calc,
    rms: Seq<Single>,
    target: Single,
    g_min: Single,
    g_max: Single,
) -> Seq<Single> {
    let raw = Seq::new(rms.len(), |i: int| raw_gain(f, rms, target, g_min, g_max, i));
    Seq::new(rms.len(), |i: int| smooth_gain(f, raw, i))
}

/// The gain of a frame: between the gains of the two windows whose centers it
/// lies between.
pub open spec fn frame_gain(f: Calc, gains: Seq<Single>, hop: nat, frame: nat) -> Single {
    let pos = diff(f, quot(f, rounded(frame), rounded(hop)), Single(HALF));
    let w0 = f(Op::Floor(pos));
    let t = diff(f, pos, w0);
    let i0 = w0.cut() % gains.len() as int;
    sum(
        f,
        prod(f, gains[i0], diff(f, Single(ONE), t)),
        prod(f, gains[after(i0, gains.len() as int)], t),
    )
}

/// The gain of each frame in one pass, which takes the windows to their median;
/// none where the clip is too short for a profile.
pub open spec fn pass_gains(
    f: Calc,
    grow: spec_fn((u64, Single)) -> u64,
    mean: spec_fn((u64, u64)) -> Single,
    s: Seq<Single>,
    w: Windows,
    g_min: Single,
    g_max: Single,
) -> Seq<Single> {
    if is_profiled(w) {
        let rms = profile(f, grow, mean, s, w);
        let target = rms[risen(rms)[rms.len() as int / 2] as int];
        let gains = gains_of(f, rms, target, g_min, g_max);
        Seq::new(w.frames as nat, |i: int| frame_gain(f, gains, w.hop as nat, i as nat))
    } else {
        Seq::empty()
    }
}

/// The gain of sample `j`: that of its frame, where the frame has one.
pub open spec fn gain_of(gains: Seq<Single>, ch: int, j: int) -> Option<Single> {
    if j / ch < gains.len() {
        Some(gains[j / ch])
    } else {
        None
    }
}

/// Every sample with the gain of its frame.
pub open spec fn levelled(f: Calc, s: Seq<Single>, ch: int, gains: Seq<Single>) -> Seq<Single> {
    Seq::new(
        s.len(),
        |j: int|
            match gain_of(gains, ch, j) {
                Some(g) => prod(f, s[j], g),
                None => s[j],
            },
    )
}

/// A sample behind both passes: as they leave it, but with no smaller an
/// overall gain than an eighth and no larger than four.
pub open spec fn held(f: Calc, x: Single, a: Option<Single>, b: Option<Single>) -> Single {
    match (a, b) {
        (None, None) => x,
        (Some(g), None) => prod(f, x, clamped(g, Single(EIGHTH), Single(FOUR))),
        (None, Some(g)) => prod(f, x, clamped(g, Single(EIGHTH), Single(FOUR))),
        (Some(g), Some(h)) => {
            let overall = prod(f, g, h);
            if overall.below(Single(EIGHTH)) {
                prod(f, x, Single(EIGHTH))
            } else if Single(FOUR).below(overall) {
                prod(f, x, Single(FOUR))
            } else {
                prod(f, prod(f, x, g), h)
            }
        },
    }
}

/// `now` is the clip behind both passes, the second over what the first left.
pub open spec fn is_flattened(
    f: Calc,
    grow: spec_fn((u64, Single)) -> u64,
    mean: spec_fn((u64, u64)) -> Single,
    s: Seq<Single>,
    w: Windows,
    v: Windows,
    now: Seq<Single>,
) -> bool {
    let a = pass_gains(f, grow, mean, s, w, Single(EIGHTH), Single(FOUR));
    let mid = levelled(f, s, w.ch as int, a);
    let b = pass_gains(f, grow, mean, mid, v, Single(HALF), Single(DOUBLE));
    now == Seq::new(
        s.len(),
        |j: int| held(f, s[j], gain_of(a, w.ch as int, j), gain_of(b, v.ch as int, j)),
    )
}

/// No sample gets an overall gain below -18 dB or above +12 dB: it is left
/// alone, or multiplied once by a gain within the two, or twice by gains whose
/// product is.
pub proof fn the_overall_gain_is_bounded(f: Calc, x: Single, a: Option<Single>, b: Option<Single>)
    ensures
        ({
            let now = held(f, x, a, b);
            ||| now == x && a is None && b is None
            ||| exists|k: Single|
                is_bounded_gain(k) && now == #[trigger] prod(f, x, k)
            ||| a matches Some(g) && b matches Some(h) && is_bounded_gain(prod(f, g, h)) && now
                == prod(f, prod(f, x, g), h)
        }),
{
    lemma_bounds();
    match (a, b) {
        (None, None) => {},
        (Some(g), None) | (None, Some(g)) => {
            let k = clamped(g, Single(EIGHTH), Single(FOUR));
            assert(is_bounded_gain(k) && held(f, x, a, b) == prod(f, x, k));
        },
        (Some(g), Some(h)) => {
            let overall = prod(f, g, h);
            if overall.below(Single(EIGHTH)) {
                assert(is_bounded_gain(Single(EIGHTH)) && held(f, x, a, b) == prod(
                    f,
                    x,
                    Single(EIGHTH),
                ));
            } else if Single(FOUR).below(overall) {
                assert(is_bounded_gain(Single(FOUR)) && held(f, x, a, b) == prod(
                    f,
                    x,
                    Single(FOUR),
                ));
            }
        },
    }
}

/// Neither below an eighth nor above four.
pub open spec fn is_bounded_gain(k: Single) -> bool {
    !k.below(Single(EIGHTH)) && !Single(FOUR).below(k)
}

proof fn lemma_bounds()
    ensures
        Single(EIGHTH).num() < Single(FOUR).num(),
{
    lemma_grid_increases(EIGHTH as nat, FOUR as nat);
}

/// Measure every window.
fn profile_of<F: Fn(Op) -> Single, A: Fn((u64, Single)) -> u64, R, M: Fn((u64, u64)) -> Single>(
    f: &F,
    meter: &Meter<A, R, M>,
    s: &Vec<Single>,
    w: &Windows,
) -> (r: Vec<Single>)
    requires
        is_steady(*f),
        is_steady(meter.grow),
        is_steady(meter.mean),
        is_profiled(*w),
        w.hop > 0,
        w.ch > 0,
        w.hop * w.n_win <= w.frames,
        w.frames * w.ch <= s@.len(),
    ensures
        r@ == profile(answering(*f), answering(meter.grow), answering(meter.mean), s@, *w),
{
    let ghost g = answering(*f);
    let ghost ad = answering(meter.grow);
    let ghost me = answering(meter.mean);
    let ghost goal = profile(g, ad, me, s@, *w);
    let len: usize = s.len();
    let mut r: Vec<Single> = Vec::new();
    let mut start: usize = 0;
    let mut i: usize = 0;
    while i < w.n_win
        invariant
            i <= w.n_win,
            is_steady(*f),
            is_steady(meter.grow),
            is_steady(meter.mean),
            g == answering(*f),
            ad == answering(meter.grow),
            me == answering(meter.mean),
            goal == profile(g, ad, me, s@, *w),
            len == s@.len(),
            is_profiled(*w),
            w.hop > 0,
            w.ch > 0,
            w.hop * w.n_win <= w.frames,
            w.frames * w.ch <= len,
            start == i * w.hop,
            r@ == goal.take(i as int),
        decreases w.n_win - i,
    {
        proof {
            assert((i + 1) * w.hop == i * w.hop + w.hop) by (nonlinear_arith);
            assert((i + 1) * w.hop <= w.hop * w.n_win) by (nonlinear_arith)
                requires
                    i + 1 <= w.n_win,
            ;
        }
        let end: usize = if w.win < w.frames - start {
            start + w.win
        } else {
            w.frames
        };
        proof {
            assert(start * w.ch <= end * w.ch <= w.frames * w.ch) by (nonlinear_arith)
                requires
                    start <= end <= w.frames,
            ;
            assert((end - start) * w.ch == end * w.ch - start * w.ch) by (nonlinear_arith);
        }
        let from: usize = start * w.ch;
        let to: usize = end * w.ch;
        let mut e: u64 = 0;
        let mut k: usize = from;
        while k < to
            invariant
                from <= k <= to <= s@.len(),
                is_steady(meter.grow),
                ad == answering(meter.grow),
                e == energy(ad, s@, from as int, k as int),
            decreases to - k,
        {
            let next: u64 = (meter.grow)((e, s[k]));
            assert(answer(meter.grow, (e, s@[k as int])) == next);
            e = next;
            k = k + 1;
        }
        let n: u64 = (to - from) as u64;
        let count: u64 = if n < 1 {
            1
        } else {
            n
        };
        let m: Single = (meter.mean)((e, count));
        assert(answer(meter.mean, (e, count)) == m);
        let root: Single = ask(f, Op::Root(m));
        r.push(greater_of(root, Single(NOTHING)));
        assert(r@[i as int] == window_rms(g, ad, me, s@, *w, i as int));
        start = start + w.hop;
        i = i + 1;
        assert(r@ =~= goal.take(i as int));
    }
    assert(r@ =~= goal);
    r
}

fn gains_from<F: Fn(Op) -> Single>(
    f: &F,
    rms: &Vec<Single>,
    target: Single,
    g_min: Single,
    g_max: Single,
) -> (r: Vec<Single>)
    requires
        is_steady(*f),
    ensures
        r@ == gains_of(answering(*f), rms@, target, g_min, g_max),
{
    let ghost g = answering(*f);
    let ghost raws = Seq::new(rms@.len(), |i: int| raw_gain(g, rms@, target, g_min, g_max, i));
    let n: usize = rms.len();
    let mut raw: Vec<Single> = Vec::new();
    let mut i: usize = 0;
    while i < n
        invariant
            i <= n,
            n == rms@.len(),
            is_steady(*f),
            g == answering(*f),
            raws == Seq::new(rms@.len(), |i: int| raw_gain(g, rms@, target, g_min, g_max, i)),
            raw@ == raws.take(i as int),
        decreases n - i,
    {
        raw.push(clamp_to(over(f, target, rms[i]), g_min, g_max));
        i = i + 1;
        assert(raw@ =~= raws.take(i as int));
    }
    assert(raw@ =~= raws);
    let ghost goal = gains_of(g, rms@, target, g_min, g_max);
    let mut r: Vec<Single> = Vec::new();
    let mut i: usize = 0;
    while i < n
        invariant
            i <= n,
            n == rms@.len(),
            raw@.len() == n,
            is_steady(*f),
            g == answering(*f),
            raw@ == Seq::new(rms@.len(), |i: int| raw_gain(g, rms@, target, g_min, g_max, i)),
            goal == gains_of(g, rms@, target, g_min, g_max),
            r@ == goal.take(i as int),
        decreases n - i,
    {
        let prev: Single = raw[if i == 0 {
            n - 1
        } else {
            i - 1
        }];
        let next: Single = raw[if i == n - 1 {
            0
        } else {
            i + 1
        }];
        let a: Single = times(f, Single(QUARTER), prev);
        let b: Single = times(f, Single(HALF), raw[i]);
        let c: Single = times(f, Single(QUARTER), next);
        r.push(plus(f, plus(f, a, b), c));
        assert(r@[i as int] == smooth_gain(g, raw@, i as int));
        i = i + 1;
        assert(r@ =~= goal.take(i as int));
    }
    assert(r@ =~= goal);
    r
}

/// `v` in a loop of `n`.
fn wrap(v: i64, n: usize) -> (r: usize)
    requires
        n > 0,
    ensures
        r == v as int % n as int,
        r < n,
{
    let m: u64 = n as u64;
    if v >= 0 {
        ((v as u64) % m) as usize
    } else {
        let b: u64 = (-(v + 1)) as u64;
        let k: u64 = b % m;
        proof {
            let q = b as int / m as int;
            let vi = v as int;
            let mi = m as int;
            vstd::arithmetic::div_mod::lemma_fundamental_div_mod(b as int, mi);
            assert(vi == mi * (-q - 1) + (mi - 1 - k)) by (nonlinear_arith)
                requires
                    vi == -(b as int) - 1,
                    b as int == mi * q + k,
            ;
            vstd::arithmetic::div_mod::lemma_fundamental_div_mod_converse(
                vi,
                mi,
                -q - 1,
                mi - 1 - k,
            );
        }
        (m - 1 - k) as usize
    }
}

fn gain_at<F: Fn(Op) -> Single>(f: &F, gains: &Vec<Single>, hop: usize, frame: usize) -> (r: Single)
    requires
        is_steady(*f),
        gains@.len() > 0,
    ensures
        r == frame_gain(answering(*f), gains@, hop as nat, frame as nat),
{
    let x: Single = over(f, Single::from_usize(frame), Single::from_usize(hop));
    let pos: Single = minus(f, x, Single(HALF));
    let w0: Single = ask(f, Op::Floor(pos));
    let t: Single = minus(f, pos, w0);
    let i0: usize = wrap(w0.to_i64(), gains.len());
    let i1: usize = if i0 == gains.len() - 1 {
        0
    } else {
        i0 + 1
    };
    let a: Single = times(f, gains[i0], minus(f, Single(ONE), t));
    plus(f, a, times(f, gains[i1], t))
}

/// The windows of a clip of `len` samples.
fn windows_of<F: Fn(Op) -> Single>(
    f: &F,
    len: usize,
    channels: usize,
    sample_rate: Single,
    win_s: Single,
) -> (w: Windows)
    requires
        is_steady(*f),
    ensures
        is_windows(answering(*f), len as nat, channels as int, sample_rate, win_s, w),
{
    let ch: usize = if channels < 1 {
        1
    } else {
        channels
    };
    let frames: usize = len / ch;
    let win: usize = times(f, sample_rate, win_s).to_usize();
    let hop: usize = if win / 2 < 1 {
        1
    } else {
        win / 2
    };
    Windows { ch, frames, win, hop, n_win: frames / hop }
}

/// One pass: the gains that take every window to the median, gently.
fn flatten_pass<
    F: Fn(Op) -> Single,
    A: Fn((u64, Single)) -> u64,
    R,
    M: Fn((u64, u64)) -> Single,
>(
    f: &F,
    meter: &Meter<A, R, M>,
    samples: &Vec<Single>,
    w: &Windows,
    g_min: Single,
    g_max: Single,
) -> (r: Vec<Single>)
    requires
        is_steady(*f),
        is_steady(meter.grow),
        is_steady(meter.mean),
        w.ch > 0,
        w.frames == samples@.len() as int / w.ch as int,
        w.hop == (if w.win / 2 < 1 {
            1int
        } else {
            w.win as int / 2
        }),
        w.n_win == w.frames / w.hop,
    ensures
        r@ == pass_gains(
            answering(*f),
            answering(meter.grow),
            answering(meter.mean),
            samples@,
            *w,
            g_min,
            g_max,
        ),
{
    let ghost g = answering(*f);
    let mut r: Vec<Single> = Vec::new();
    if w.frames == 0 || w.frames / 3 < w.win {
        return r;
    }
    proof {
        let (fr, h, l, c) = (w.frames as int, w.hop as int, samples@.len() as int, w.ch as int);
        vstd::arithmetic::div_mod::lemma_fundamental_div_mod(fr, h);
        vstd::arithmetic::div_mod::lemma_fundamental_div_mod(l, c);
        assert(h * w.n_win <= fr);
        assert(fr * c <= l) by (nonlinear_arith)
            requires
                l == c * fr + l % c,
                l % c >= 0,
        ;
        assert(h <= fr);
        assert(w.n_win > 0) by (nonlinear_arith)
            requires
                fr == h * w.n_win + fr % h,
                fr % h < h,
                h <= fr,
                h > 0,
        ;
    }
    let rms: Vec<Single> = profile_of(f, meter, samples, w);
    let order: Vec<usize> = rising(rms.as_slice());
    let target: Single = rms[order[order.len() / 2]];
    let gains: Vec<Single> = gains_from(f, &rms, target, g_min, g_max);
    let mut i: usize = 0;
    while i < w.frames
        invariant
            i <= w.frames,
            is_steady(*f),
            g == answering(*f),
            gains@.len() > 0,
            r@ == Seq::new(i as nat, |k: int| frame_gain(g, gains@, w.hop as nat, k as nat)),
        decreases w.frames - i,
    {
        r.push(gain_at(f, &gains, w.hop, i));
        i = i + 1;
        assert(r@ =~= Seq::new(i as nat, |k: int| frame_gain(g, gains@, w.hop as nat, k as nat)));
    }
    r
}

fn hold<F: Fn(Op) -> Single>(f: &F, x: Single, a: Option<Single>, b: Option<Single>) -> (r: Single)
    requires
        is_steady(*f),
    ensures
        r == held(answering(*f), x, a, b),
{
    match (a, b) {
        (None, None) => x,
        (Some(g), None) => times(f, x, clamp_to(g, Single(EIGHTH), Single(FOUR))),
        (None, Some(g)) => times(f, x, clamp_to(g, Single(EIGHTH), Single(FOUR))),
        (Some(g), Some(h)) => {
            let overall: Single = times(f, g, h);
            if overall.lt(Single(EIGHTH)) {
                times(f, x, Single(EIGHTH))
            } else if Single(FOUR).lt(overall) {
                times(f, x, Single(FOUR))
            } else {
                times(f, times(f, x, g), h)
            }
        },
    }
}

fn gain_in(gains: &Vec<Single>, frame: usize) -> (r: Option<Single>)
    ensures
        r == (if frame < gains@.len() {
            Some(gains@[frame as int])
        } else {
            None
        }),
{
    if frame < gains.len() {
        Some(gains[frame])
    } else {
        None
    }
}

/// The next sample's frame and channel.
fn step(ch: usize, frame: usize, c: usize) -> (r: (usize, usize))
    requires
        c < ch,
        frame < usize::MAX,
    ensures
        r.1 < ch,
        r.0 * ch + r.1 == frame * ch + c + 1,
        r.0 <= frame + 1,
{
    if c + 1 < ch {
        (frame, c + 1)
    } else {
        assert((frame + 1) * ch == frame * ch + ch) by (nonlinear_arith);
        (frame + 1, 0)
    }
}

fn apply<F: Fn(Op) -> Single>(f: &F, s: &Vec<Single>, ch: usize, gains: &Vec<Single>) -> (r: Vec<
    Single,
>)
    requires
        is_steady(*f),
        ch > 0,
    ensures
        r@ == levelled(answering(*f), s@, ch as int, gains@),
{
    let ghost goal = levelled(answering(*f), s@, ch as int, gains@);
    let mut r: Vec<Single> = Vec::new();
    let mut at: (usize, usize) = (0, 0);
    let len: usize = s.len();
    assert(r@ =~= goal.take(0));
    assert(0 * ch == 0) by (nonlinear_arith);
    while r.len() < len
        invariant
            len == s@.len(),
            r@.len() <= len,
            is_steady(*f),
            ch > 0,
            goal == levelled(answering(*f), s@, ch as int, gains@),
            r@ == goal.take(r@.len() as int),
            at.1 < ch,
            at.0 * ch + at.1 == r@.len(),
            at.0 <= r@.len(),
        decreases len - r@.len(),
    {
        let ghost j = r@.len() as int;
        proof {
            vstd::arithmetic::div_mod::lemma_fundamental_div_mod_converse(
                j,
                ch as int,
                at.0 as int,
                at.1 as int,
            );
        }
        let x: Single = s[r.len()];
        let y: Single = match gain_in(gains, at.0) {
            Some(g) => times(f, x, g),
            None => x,
        };
        assert(goal[j] == y);
        r.push(y);
        at = step(ch, at.0, at.1);
        assert(r@ =~= goal.take(j + 1));
    }
    assert(r@ =~= goal);
    r
}

/// Make a bed of a loop: passages of seconds are levelled deeply, then shorter
/// bursts gently. No sample is changed by more than -18 or +12 dB.
pub fn flatten_slow_loudness<
    F: Fn(Op) -> Single,
    A: Fn((u64, Single)) -> u64,
    R,
    M: Fn((u64, u64)) -> Single,
>(
    f: &F,
    meter: &Meter<A, R, M>,
    samples: &mut Vec<Single>,
    channels: usize,
    sample_rate: Single,
)
    requires
        is_steady(*f),
        is_steady(meter.grow),
        is_steady(meter.mean),
    ensures
        final(samples)@.len() == old(samples)@.len(),
        exists|w: Windows, v: Windows|
            {
                &&& is_windows(
                    answering(*f),
                    old(samples)@.len(),
                    channels as int,
                    sample_rate,
                    Single(ONE),
                    w,
                )
                &&& is_windows(
                    answering(*f),
                    old(samples)@.len(),
                    channels as int,
                    sample_rate,
                    Single(SHORT_S),
                    v,
                )
                &&& #[trigger] is_flattened(
                    answering(*f),
                    answering(meter.grow),
                    answering(meter.mean),
                    old(samples)@,
                    w,
                    v,
                    final(samples)@,
                )
            },
{
    let ghost g = answering(*f);
    let ghost s0 = samples@;
    let len: usize = samples.len();
    let w: Windows = windows_of(f, len, channels, sample_rate, Single(ONE));
    let v: Windows = windows_of(f, len, channels, sample_rate, Single(SHORT_S));
    let ch: usize = w.ch;
    let a: Vec<Single> = flatten_pass(f, meter, samples, &w, Single(EIGHTH), Single(FOUR));
    let mid: Vec<Single> = apply(f, samples, ch, &a);
    let b: Vec<Single> = flatten_pass(f, meter, &mid, &v, Single(HALF), Single(DOUBLE));
    let ghost goal = Seq::new(
        s0.len(),
        |j: int| held(g, s0[j], gain_of(a@, ch as int, j), gain_of(b@, ch as int, j)),
    );
    let mut j: usize = 0;
    let mut at: (usize, usize) = (0, 0);
    assert(0 * ch == 0) by (nonlinear_arith);
    while j < len
        invariant
            j <= len,
            len == s0.len(),
            len == samples@.len(),
            is_steady(*f),
            g == answering(*f),
            ch > 0,
            goal == Seq::new(
                s0.len(),
                |j: int| held(g, s0[j], gain_of(a@, ch as int, j), gain_of(b@, ch as int, j)),
            ),
            at.1 < ch,
            at.0 * ch + at.1 == j,
            at.0 <= j,
            forall|k: int| 0 <= k < j ==> #[trigger] samples@[k] == goal[k],
            forall|k: int| j <= k < len ==> #[trigger] samples@[k] == s0[k],
        decreases len - j,
    {
        proof {
            vstd::arithmetic::div_mod::lemma_fundamental_div_mod_converse(
                j as int,
                ch as int,
                at.0 as int,
                at.1 as int,
            );
        }
        let x: Single = hold(f, samples[j], gain_in(&a, at.0), gain_in(&b, at.0));
        assert(goal[j as int] == x);
        samples.set(j, x);
        at = step(ch, at.0, at.1);
        j = j + 1;
    }
    assert(samples@ =~= goal);
    assert(is_flattened(
        g,
        answering(meter.grow),
        answering(meter.mean),
        s0,
        w,
        v,
        samples@,
    ));
}

} // verus!
