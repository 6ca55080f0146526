//! What decoding is for: an ear hears the convolution with its response, a virtual
//! speaker hears most of what comes from its side, two cardioids face left and right,
//! and one response fades into the next.

use crate::ambi::{encoded, exact_plus_prod, is_reading, mixed, Frame, StereoDecoder};
use crate::arith::{diff, plus_prod, prod, sum, Calc, Op};
use crate::exact::{inner, is_exact_as, lemma_one, value, vector_as, Reading, Vector};
use crate::hrtf::{behind, blended, dot, lane, ring_product, tail, Conv, XFADE_S};
use crate::params::{HALF, ONE};
use crate::single::Single;
use vstd::prelude::*;

verus! {

/// The sum of the first `n` products of two sequences.
pub open spec fn products(val: Reading, h: Seq<Single>, k: Seq<Single>, n: int) -> real
    decreases n,
{
    if n <= 0 {
        0real
    } else {
        products(val, h, k, n - 1) + val(h[n - 1]) * val(k[n - 1])
    }
}

/// The sum of the products of one lane of four.
pub open spec fn lane_total(val: Reading, h: Seq<Single>, k: Seq<Single>, j: int, c: int) -> real
    decreases c,
{
    if c <= 0 {
        0real
    } else {
        lane_total(val, h, k, j, c - 1) + val(h[4 * (c - 1) + j]) * val(k[4 * (c - 1) + j])
    }
}

/// Every operation of an inner product is exact, as read.
pub open spec fn exact_dot(val: Reading, f: Calc, h: Seq<Single>, k: Seq<Single>) -> bool {
    let c = h.len() as int / 4;
    let (a, b) = (
        sum(f, lane(f, h, k, 0, c), lane(f, h, k, 1, c)),
        sum(f, lane(f, h, k, 2, c), lane(f, h, k, 3, c)),
    );
    let lanes = sum(f, a, b);
    &&& val(Single(0)) == value(Single(0))
    &&& forall|j: int, i: int|
        0 <= j < 4 && 0 <= i < c ==> exact_plus_prod(
            val,
            f,
            #[trigger] lane(f, h, k, j, i),
            h[4 * i + j],
            k[4 * i + j],
        )
    &&& is_exact_as(val, f, Op::Plus(lane(f, h, k, 0, c), lane(f, h, k, 1, c)))
    &&& is_exact_as(val, f, Op::Plus(lane(f, h, k, 2, c), lane(f, h, k, 3, c)))
    &&& is_exact_as(val, f, Op::Plus(a, b))
    &&& forall|i: int|
        4 * c <= i < h.len() ==> exact_plus_prod(
            val,
            f,
            #[trigger] tail(f, h, k, lanes, 4 * c, i),
            h[i],
            k[i],
        )
}

proof fn lemma_lane(val: Reading, f: Calc, h: Seq<Single>, k: Seq<Single>, j: int, c: int)
    requires
        exact_dot(val, f, h, k),
        0 <= j < 4,
        c <= h.len() as int / 4,
    ensures
        val(lane(f, h, k, j, c)) == lane_total(val, h, k, j, c),
    decreases c,
{
    lemma_one();
    if c > 0 {
        lemma_lane(val, f, h, k, j, c - 1);
        assert(exact_plus_prod(
            val,
            f,
            lane(f, h, k, j, c - 1),
            h[4 * (c - 1) + j],
            k[4 * (c - 1) + j],
        ));
    }
}

proof fn lemma_four_lanes(val: Reading, h: Seq<Single>, k: Seq<Single>, c: int)
    requires
        0 <= c,
    ensures
        (lane_total(val, h, k, 0, c) + lane_total(val, h, k, 1, c)) + (lane_total(val, h, k, 2, c)
            + lane_total(val, h, k, 3, c)) == products(val, h, k, 4 * c),
    decreases c,
{
    if c > 0 {
        lemma_four_lanes(val, h, k, c - 1);
        let n = 4 * (c - 1);
        assert(products(val, h, k, n + 1) == products(val, h, k, n) + val(h[n]) * val(k[n]));
        assert(products(val, h, k, n + 2) == products(val, h, k, n + 1) + val(h[n + 1]) * val(
            k[n + 1],
        ));
        assert(products(val, h, k, n + 3) == products(val, h, k, n + 2) + val(h[n + 2]) * val(
            k[n + 2],
        ));
        assert(products(val, h, k, n + 4) == products(val, h, k, n + 3) + val(h[n + 3]) * val(
            k[n + 3],
        ));
    }
}

proof fn lemma_tail(val: Reading, f: Calc, h: Seq<Single>, k: Seq<Single>, acc: Single, from: int, to: int)
    requires
        0 <= from <= to,
        forall|i: int|
            from <= i < to ==> exact_plus_prod(val, f, #[trigger] tail(f, h, k, acc, from, i), h[i], k[i]),
    ensures
        val(tail(f, h, k, acc, from, to)) == val(acc) + (products(val, h, k, to) - products(
            val,
            h,
            k,
            from,
        )),
    decreases to - from,
{
    if from < to {
        lemma_tail(val, f, h, k, acc, from, to - 1);
        assert(exact_plus_prod(val, f, tail(f, h, k, acc, from, to - 1), h[to - 1], k[to - 1]));
    }
}

/// In exact arithmetic an inner product, whatever the lanes it is taken in, is the sum
/// of the products.
pub proof fn the_lanes_add_up(val: Reading, f: Calc, h: Seq<Single>, k: Seq<Single>)
    requires
        exact_dot(val, f, h, k),
    ensures
        val(dot(f, h, k)) == products(val, h, k, h.len() as int),
{
    let c = h.len() as int / 4;
    lemma_lane(val, f, h, k, 0, c);
    lemma_lane(val, f, h, k, 1, c);
    lemma_lane(val, f, h, k, 2, c);
    lemma_lane(val, f, h, k, 3, c);
    lemma_four_lanes(val, h, k, c);
    let lanes = sum(
        f,
        sum(f, lane(f, h, k, 0, c), lane(f, h, k, 1, c)),
        sum(f, lane(f, h, k, 2, c), lane(f, h, k, 3, c)),
    );
    lemma_tail(val, f, h, k, lanes, 4 * c, h.len() as int);
}

/// The samples of the first `n` places of a ring, each with the response sample as old
/// as it is.
pub open spec fn convolved(val: Reading, hist: Seq<Single>, pos: int, kernel: Seq<Single>, n: int) -> real
    decreases n,
{
    if n <= 0 {
        0real
    } else {
        convolved(val, hist, pos, kernel, n - 1) + val(hist[n - 1]) * val(
            kernel[behind(hist.len() as int, pos, n - 1)],
        )
    }
}

proof fn lemma_newer(val: Reading, hist: Seq<Single>, pos: int, kernel: Seq<Single>, n: int)
    requires
        0 <= pos < hist.len(),
        kernel.len() == hist.len(),
        0 <= n <= pos + 1,
    ensures
        products(
            val,
            hist.subrange(0, pos + 1),
            kernel.reverse().subrange(hist.len() - 1 - pos, hist.len() as int),
            n,
        ) == convolved(val, hist, pos, kernel, n),
    decreases n,
{
    if n > 0 {
        lemma_newer(val, hist, pos, kernel, n - 1);
        crate::hrtf::every_sample_meets_its_tap(hist, pos, kernel, n - 1);
    }
}

proof fn lemma_older(val: Reading, hist: Seq<Single>, pos: int, kernel: Seq<Single>, n: int)
    requires
        0 <= pos < hist.len(),
        kernel.len() == hist.len(),
        0 <= n <= hist.len() - 1 - pos,
    ensures
        products(
            val,
            hist.subrange(pos + 1, hist.len() as int),
            kernel.reverse().subrange(0, hist.len() - 1 - pos),
            n,
        ) == convolved(val, hist, pos, kernel, pos + 1 + n) - convolved(val, hist, pos, kernel, pos + 1),
    decreases n,
{
    if n > 0 {
        lemma_older(val, hist, pos, kernel, n - 1);
        crate::hrtf::every_sample_meets_its_tap(hist, pos, kernel, pos + n);
    }
}

/// In exact arithmetic an ear hears the convolution: every sample of the past, times
/// the response sample as old as it is, all added up.
pub proof fn an_ear_hears_the_convolution(
    val: Reading,
    f: Calc,
    hist: Seq<Single>,
    pos: int,
    kernel: Seq<Single>,
)
    requires
        0 <= pos < hist.len(),
        kernel.len() == hist.len(),
        ({
            let n = hist.len() as int;
            let rev = kernel.reverse();
            let (a, b) = (hist.subrange(0, pos + 1), rev.subrange(n - 1 - pos, n));
            let (c, d) = (hist.subrange(pos + 1, n), rev.subrange(0, n - 1 - pos));
            &&& exact_dot(val, f, a, b)
            &&& exact_dot(val, f, c, d)
            &&& is_exact_as(val, f, Op::Plus(dot(f, a, b), dot(f, c, d)))
        }),
    ensures
        val(ring_product(f, hist, pos, kernel.reverse())) == convolved(
            val,
            hist,
            pos,
            kernel,
            hist.len() as int,
        ),
{
    let n = hist.len() as int;
    let rev = kernel.reverse();
    the_lanes_add_up(val, f, hist.subrange(0, pos + 1), rev.subrange(n - 1 - pos, n));
    the_lanes_add_up(val, f, hist.subrange(pos + 1, n), rev.subrange(0, n - 1 - pos));
    lemma_newer(val, hist, pos, kernel, pos + 1);
    lemma_older(val, hist, pos, kernel, n - 1 - pos);
}

/// In exact arithmetic what is put on the bus is added to it, channel by channel, as
/// strong as its direction's harmonic.
pub proof fn the_bus_gains_what_is_put_on_it(
    val: Reading,
    f: Calc,
    bus: Frame,
    y: Single,
    enc: Frame,
    k: int,
)
    requires
        0 <= k < 9,
        exact_plus_prod(val, f, bus@[k], y, enc@[k]),
    ensures
        val(mixed(f, bus, y, enc)@[k]) == val(bus@[k]) + val(y) * val(enc@[k]),
{
    assert(mixed(f, bus, y, enc)@[k] == plus_prod(f, bus@[k], y, enc@[k]));
}

/// In exact arithmetic the two ears without responses are cardioids that face left and
/// right of ahead: each hears a direction by half of one and the cosine of the angle to
/// where it faces.
pub proof fn cardioids_face_their_sides(
    val: Reading,
    f: Calc,
    pair: StereoDecoder,
    u: [Single; 3],
)
    requires
        is_reading(val),
        ({
            let sh = encoded(f, u);
            let front = plus_prod(f, sh@[0], sh@[3], pair.cos_l);
            let side = prod(f, sh@[1], pair.sin_l);
            &&& exact_plus_prod(val, f, sh@[0], sh@[3], pair.cos_l)
            &&& is_exact_as(val, f, Op::Times(sh@[1], pair.sin_l))
            &&& is_exact_as(val, f, Op::Plus(front, side))
            &&& is_exact_as(val, f, Op::Minus(front, side))
            &&& is_exact_as(val, f, Op::Times(Single(HALF), sum(f, front, side)))
            &&& is_exact_as(val, f, Op::Times(Single(HALF), diff(f, front, side)))
        }),
    ensures
        ({
            let (l, r) = pair.heard(f, encoded(f, u));
            let v = vector_as(val, u);
            let left: Vector = (val(pair.cos_l), val(pair.sin_l), 0real);
            let right: Vector = (val(pair.cos_l), -val(pair.sin_l), 0real);
            &&& 2real * val(l) == 1real + inner(v, left)
            &&& 2real * val(r) == 1real + inner(v, right)
        }),
{
    let v = vector_as(val, u);
    let (c, s) = (val(pair.cos_l), val(pair.sin_l));
    assert(v.2 * 0real == 0real);
    assert(v.1 * (-s) == -(v.1 * s)) by (nonlinear_arith);
    let h = val(Single(HALF));
    let front = 1real + v.0 * c;
    let side = v.1 * s;
    assert(2real * (h * (front + side)) == front + side) by (nonlinear_arith)
        requires
            2real * h == 1real,
    ;
    assert(2real * (h * (front - side)) == front - side) by (nonlinear_arith)
        requires
            2real * h == 1real,
    ;
}

/// In exact arithmetic a crossfade gives the share `xfade` of the previous response and
/// the rest of the current one; when it is over, the current one alone.
pub proof fn responses_fade_into_each_other(
    val: Reading,
    f: Calc,
    cur: Single,
    prev: Single,
    xfade: Single,
)
    requires
        is_exact_as(val, f, Op::Minus(prev, cur)),
        exact_plus_prod(val, f, cur, xfade, diff(f, prev, cur)),
    ensures
        Single(0).below(xfade) ==> val(blended(f, cur, prev, xfade)) == (1real - val(xfade)) * val(cur)
            + val(xfade) * val(prev),
        !Single(0).below(xfade) ==> blended(f, cur, prev, xfade) == cur,
{
    let (a, b, t) = (val(cur), val(prev), val(xfade));
    assert(a + t * (b - a) == (1real - t) * a + t * b) by (nonlinear_arith);
}

/// A convolver after `n` samples.
pub open spec fn played_on(f: Calc, c: Conv, xs: Seq<Single>) -> Conv
    decreases xs.len(),
{
    if xs.len() == 0 {
        c
    } else {
        played_on(f, c, xs.drop_last()).next(f, xs.last())
    }
}

/// In exact arithmetic a crossfade that has begun falls steadily, to nothing in ten
/// milliseconds: after `n` samples of it, `n` over the samples in that time is gone.
pub proof fn a_crossfade_lasts_its_time(val: Reading, f: Calc, rate: Single, c: Conv, xs: Seq<Single>)
    requires
        c.xstep == Conv::fresh(f, 1, rate).xstep,
        c.xfade == Single(ONE),
        val(Single(ONE)) == value(Single(ONE)),
        is_exact_as(val, f, Op::Times(Single(XFADE_S), rate)),
        is_exact_as(val, f, Op::Over(Single(ONE), prod(f, Single(XFADE_S), rate))),
        forall|i: int|
            0 <= i < xs.len() ==> {
                let at = #[trigger] played_on(f, c, xs.take(i));
                &&& Single(0).below(at.xfade)
                &&& is_exact_as(val, f, Op::Minus(at.xfade, at.xstep))
                &&& !diff(f, at.xfade, at.xstep).below(Single(0))
                &&& !diff(f, at.xfade, at.xstep).is_nan()
            },
    ensures
        played_on(f, c, xs).xstep == c.xstep,
        (1real - val(played_on(f, c, xs).xfade)) * (val(Single(XFADE_S)) * val(rate)) == xs.len() as int as real,
    decreases xs.len(),
{
    lemma_one();
    let t = val(Single(XFADE_S)) * val(rate);
    if xs.len() == 0 {
        assert(0real * t == 0real);
    } else {
        let rest = xs.drop_last();
        let n = xs.len() - 1;
        assert(xs.take(n) =~= rest);
        assert forall|i: int| 0 <= i < rest.len() implies ({
            let at = #[trigger] played_on(f, c, rest.take(i));
            &&& Single(0).below(at.xfade)
            &&& is_exact_as(val, f, Op::Minus(at.xfade, at.xstep))
            &&& !diff(f, at.xfade, at.xstep).below(Single(0))
            &&& !diff(f, at.xfade, at.xstep).is_nan()
        }) by {
            assert(rest.take(i) =~= xs.take(i));
            assert(Single(0).below(played_on(f, c, xs.take(i)).xfade));
        }
        a_crossfade_lasts_its_time(val, f, rate, c, rest);
        let at = played_on(f, c, rest);
        assert(at == played_on(f, c, xs.take(n)));
        assert(Single(0).below(played_on(f, c, xs.take(n)).xfade));
        let step = val(c.xstep);
        assert(step * t == 1real);
        let x = val(at.xfade);
        assert(val(played_on(f, c, xs).xfade) == x - step);
        assert((1real - (x - step)) * t == (1real - x) * t + step * t) by (nonlinear_arith);
    }
}

} // verus!
