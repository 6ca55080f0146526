//! What bringing a clip in is for: full scale becomes one, channels are averaged, a
//! new rate reads the same curve, the peak comes to its level; and what is written out
//! is the sample in 32767ths.

use crate::arith::{diff, prod, quot, size, Calc, Op};
use crate::exact::{
    is_close, is_exact, is_exact_as, lemma_is, lemma_negated, lemma_one, lemma_order, lemma_size, lemma_whole, value,
    Reading,
};
use crate::import::{
    at_most_last, frame_end, frames, mono, peaked, read_at, resampled, resampled_len, run_sum, sample_16,
    scaled, P_0_6, P_1E_MINUS_6, P_32767_0,
};
use crate::level::{boosted, peak};
use crate::params::ONE;
use crate::rays::lemma_bin_cut;
use crate::single::{lemma_grid_increases, rounded, signed_rounded, Single};
use vstd::arithmetic::power2::{lemma2_to64, lemma_pow2_pos, pow2};
use vstd::prelude::*;

verus! {

/// In exact arithmetic a whole-number sample of `bits` bits becomes the share that it
/// is of full scale: times 2 to the `bits - 1` it is the number again.
pub proof fn full_scale_becomes_one(val: Reading, f: Calc, ints: Seq<i32>, bits: nat, i: int)
    requires
        1 <= bits <= 32,
        0 <= i < ints.len(),
        val(Single(ONE)) == value(Single(ONE)),
        val(rounded(pow2((bits - 1) as nat))) == pow2((bits - 1) as nat) as int as real,
        val(signed_rounded(ints[i] as int)) == ints[i] as real,
        is_exact_as(val, f, Op::Over(Single(ONE), rounded(pow2((bits - 1) as nat)))),
        is_exact_as(
            val,
            f,
            Op::Times(
                signed_rounded(ints[i] as int),
                quot(f, Single(ONE), rounded(pow2((bits - 1) as nat))),
            ),
        ),
    ensures
        scaled(f, ints, bits).len() == ints.len(),
        val(scaled(f, ints, bits)[i]) * (pow2((bits - 1) as nat) as int as real) == ints[i] as real,
{
    lemma_one();
    let full = pow2((bits - 1) as nat) as int as real;
    let k = val(quot(f, Single(ONE), rounded(pow2((bits - 1) as nat))));
    let x = ints[i] as real;
    assert((x * k) * full == x * (k * full)) by (nonlinear_arith);
    assert(x * 1real == x);
}

/// The sum of the samples from `from` up to `to`.
pub open spec fn total(val: Reading, s: Seq<Single>, from: int, to: int) -> real
    decreases to - from,
{
    if to <= from {
        0real
    } else {
        total(val, s, from, to - 1) + val(s[to - 1])
    }
}

proof fn lemma_run(val: Reading, f: Calc, s: Seq<Single>, from: int, to: int)
    requires
        from < to,
        forall|k: int|
            from < k < to ==> is_exact_as(val, f, Op::Plus(run_sum(f, s, from, k), #[trigger] s[k])),
    ensures
        val(run_sum(f, s, from, to)) == total(val, s, from, to),
    decreases to - from,
{
    if to <= from + 1 {
        assert(total(val, s, from, from) == 0real);
    } else {
        lemma_run(val, f, s, from, to - 1);
        assert(is_exact_as(val, f, Op::Plus(run_sum(f, s, from, to - 1), s[to - 1])));
    }
}

/// In exact arithmetic a frame of several channels becomes their average: times the
/// number of channels it is their sum.
pub proof fn channels_are_averaged(val: Reading, f: Calc, s: Seq<Single>, ch: nat, i: int)
    requires
        ch > 0,
        0 <= i < frames(s.len(), ch),
        i * ch < frame_end(s.len(), ch, i),
        val(rounded(ch)) == ch as int as real,
        forall|k: int|
            i * ch < k < frame_end(s.len(), ch, i) ==> is_exact_as(
                val,
                f,
                Op::Plus(run_sum(f, s, i * ch, k), #[trigger] s[k]),
            ),
        is_exact_as(
            val,
            f,
            Op::Over(run_sum(f, s, i * ch, frame_end(s.len(), ch, i)), rounded(ch)),
        ),
    ensures
        val(mono(f, s, ch)[i]) * (ch as int as real) == total(
            val,
            s,
            i * ch,
            frame_end(s.len(), ch, i),
        ),
{
    lemma_run(val, f, s, i * ch, frame_end(s.len(), ch, i));
}

/// In exact arithmetic sample `i` at a new rate is the curve through the old samples,
/// read `i` times the ratio of the rates along it.
pub proof fn a_new_rate_reads_the_same_curve(f: Calc, s: Seq<Single>, ratio: Single, i: nat, k: nat)
    requires
        i < resampled_len(f, s.len(), ratio),
        i <= 0x100_0000,
        k <= 0x100_0000,
        k + 1 < s.len(),
        ({
            let x = prod(f, rounded(i), ratio);
            let t = diff(f, x, rounded(k));
            let step = diff(f, s[k as int + 1], s[k as int]);
            &&& is_exact(f, Op::Times(rounded(i), ratio))
            &&& x.truncated(usize::MAX as nat) == k
            &&& is_exact(f, Op::Minus(x, rounded(k)))
            &&& is_exact(f, Op::Minus(s[k as int + 1], s[k as int]))
            &&& is_exact(f, Op::Times(t, step))
            &&& is_exact(f, Op::Plus(s[k as int], prod(f, t, step)))
        }),
    ensures
        ({
            let t = i as int as real * value(ratio) - k as int as real;
            &&& value(resampled(f, s, ratio)[i as int]) == (1real - t) * value(s[k as int]) + t * value(
                s[k as int + 1],
            )
            &&& i as int as real * value(ratio) >= 0real ==> 0real <= t < 1real
        }),
{
    lemma_whole(i as int);
    lemma_whole(k as int);
    assert(signed_rounded(i as int) == rounded(i));
    assert(signed_rounded(k as int) == rounded(k));
    let x = prod(f, rounded(i), ratio);
    if value(x) >= 0real {
        lemma_bin_cut(x, k, usize::MAX as nat);
    }
    let t = i as int as real * value(ratio) - k as int as real;
    let (a, b) = (value(s[k as int]), value(s[k as int + 1]));
    assert(resampled(f, s, ratio)[i as int] == read_at(f, s, ratio, i));
    assert(at_most_last(k as int, s.len() as int) == k);
    assert(at_most_last(k as int + 1, s.len() as int) == k + 1);
    assert(value(read_at(f, s, ratio, i)) == a + t * (b - a));
    assert(a + t * (b - a) == (1real - t) * a + t * b) by (nonlinear_arith);
}

/// A clip keeps its duration at a new rate: where the host is within `e`, as many
/// samples come out as fit in the old ones, each as wide as the ratio of the rates.
pub proof fn a_new_rate_keeps_the_duration(f: Calc, s: Seq<Single>, ratio: Single, e: real)
    requires
        0 < s.len() <= 0x100_0000,
        value(ratio) > 0real,
        e >= 0real,
        is_close(f, Op::Over(rounded(s.len()), ratio), e),
        value(quot(f, rounded(s.len()), ratio)) >= 0real,
        resampled_len(f, s.len(), ratio) < usize::MAX,
    ensures
        ({
            let n = resampled(f, s, ratio).len() as int as real;
            let len = s.len() as int as real;
            n * value(ratio) - e <= len <= (n + 1real) * value(ratio) + e
        }),
{
    lemma_whole(s.len() as int);
    assert(signed_rounded(s.len() as int) == rounded(s.len()));
    let q = quot(f, rounded(s.len()), ratio);
    let m = resampled_len(f, s.len(), ratio);
    lemma_bin_cut(q, m, usize::MAX as nat);
    let (n, x, r) = (m as int as real, value(q), value(ratio));
    assert(n * r <= x * r && x * r <= (n + 1real) * r) by (nonlinear_arith)
        requires
            n <= x,
            x <= n + 1real,
            r > 0real,
    ;
}

proof fn lemma_peak(s: Seq<Single>, n: int)
    requires
        0 <= n <= s.len(),
        forall|i: int| 0 <= i < n ==> (#[trigger] s[i]).is_finite(),
    ensures
        peak(s, n).is_finite(),
        value(peak(s, n)) >= 0real,
        forall|i: int| 0 <= i < n ==> value(size(#[trigger] s[i])) <= value(peak(s, n)),
        value(peak(s, n)) > 0real ==> exists|i: int|
            0 <= i < n && value(size(#[trigger] s[i])) == value(peak(s, n)),
    decreases n,
{
    lemma_one();
    if n > 0 {
        lemma_peak(s, n - 1);
        lemma_size(s[n - 1]);
        lemma_order(peak(s, n - 1), size(s[n - 1]));
        if value(peak(s, n)) > 0real {
            if peak(s, n - 1).below(size(s[n - 1])) {
                assert(value(size(s[n - 1])) == value(peak(s, n)));
            } else {
                let i = choose|i: int|
                    0 <= i < n - 1 && value(size(#[trigger] s[i])) == value(peak(s, n - 1));
                assert(value(size(s[i])) == value(peak(s, n)));
            }
        }
    }
}

/// In exact arithmetic a clip in which there is anything is turned to its level by one
/// gain for all of it: the loudest sample comes to 0.6, and all others keep their share
/// of that.
pub proof fn a_clip_peaks_at_its_level(val: Reading, f: Calc, s: Seq<Single>, i: int)
    requires
        0 <= i < s.len(),
        forall|k: int| 0 <= k < s.len() ==> (#[trigger] s[k]).is_finite(),
        ({
            let p = peak(s, s.len() as int);
            &&& Single(P_1E_MINUS_6).below(p)
            &&& is_exact_as(val, f, Op::Over(Single(P_0_6), p))
            &&& is_exact_as(val, f, Op::Times(s[i], quot(f, Single(P_0_6), p)))
        }),
    ensures
        ({
            let p = peak(s, s.len() as int);
            let r = peaked(f, s);
            &&& r.len() == s.len()
            &&& val(r[i]) * val(p) == val(Single(P_0_6)) * val(s[i])
            &&& s[i] == p ==> val(r[i]) == val(Single(P_0_6))
            &&& forall|k: int| 0 <= k < s.len() ==> value(size(#[trigger] s[k])) <= value(p)
            &&& exists|k: int| 0 <= k < s.len() && value(size(#[trigger] s[k])) == value(p)
        }),
{
    lemma_peak(s, s.len() as int);
    let p = peak(s, s.len() as int);
    lemma_one();
    lemma_grid_increases(0, P_1E_MINUS_6 as nat);
    assert(Single(0).num() == 0);
    lemma_order(Single(0), p);
    let k = quot(f, Single(P_0_6), p);
    assert(peaked(f, s) == boosted(f, s, k));
    let (x, g, q, c) = (val(s[i]), val(k), val(p), val(Single(P_0_6)));
    assert((x * g) * q == x * (g * q)) by (nonlinear_arith);
    assert(x * c == c * x) by (nonlinear_arith);
    if s[i] == p {
        assert(x * g == g * q) by (nonlinear_arith)
            requires
                x == q,
        ;
    }
}

/// In exact arithmetic a sample is written as what it is of 32767, cut towards zero:
/// never louder, and by less than one off. Beyond full scale the most is written.
pub proof fn a_sample_is_written_in_its_place(f: Calc, x: Single)
    requires
        is_exact(f, Op::Times(x, Single(P_32767_0))),
        -9000000000000000000real < value(x) * 32767real < 9000000000000000000real,
    ensures
        ({
            let v = value(x) * 32767real;
            let n = sample_16(f, x);
            &&& 0real <= v < 32768real ==> n as real <= v < n as real + 1real
            &&& -32769real < v <= 0real ==> n as real - 1real < v <= n as real
            &&& v >= 32767real ==> n == 32767
            &&& v <= -32768real ==> n == -32768
        }),
{
    lemma2_to64();
    lemma_is(P_32767_0, 141, 0x7F_FE00, 32767real);
    lemma_one();
    let p = prod(f, x, Single(P_32767_0));
    let v = value(p);
    lemma_negated(p);
    let m = Single(p.magnitude() as u32);
    assert(m == p || m == p.negated());
    lemma_size(p);
    assert(m == size(p));
    let k = m.truncated(u64::MAX as nat);
    lemma_below_most(m);
    lemma_bin_cut(m, k, u64::MAX as nat);
    assert(Single(0).num() == 0);
    lemma_order(p, Single(0));
    if p.is_negative() {
        assert(value(m) == -v);
    } else {
        assert(value(m) == v);
    }
}

/// What is far below the largest whole number is cut below it.
proof fn lemma_below_most(m: Single)
    requires
        m.is_finite(),
        0real <= value(m) < 9000000000000000000real,
    ensures
        m.truncated(u64::MAX as nat) < 0x7FFF_FFFF_FFFF_FFFF,
{
    lemma_pow2_pos(149);
    let u = pow2(149) as int;
    let (v, ur) = (value(m), u as real);
    let n = m.num();
    assert(v * ur == n as real) by (nonlinear_arith)
        requires
            v == n as real / ur,
            ur > 0real,
    ;
    assert((n as real) < 9000000000000000000real * ur) by (nonlinear_arith)
        requires
            v * ur == n as real,
            v < 9000000000000000000real,
            ur > 0real,
    ;
    assert(n < 9000000000000000000 * u);
    if !m.is_negative() {
        assert(n / u < 9000000000000000000) by (nonlinear_arith)
            requires
                n < 9000000000000000000 * u,
                u > 0,
                n >= 0,
        ;
    }
}

} // verus!
