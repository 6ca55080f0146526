//! When a path is heard: the delay that a slot heads for is the time its tap gives,
//! and what was fed in comes out that much later.

use crate::arith::{diff, prod, Calc, Op};
use crate::delay::{a_line_remembers, kept, pushed_all, read_of, MAX_LINE};
use crate::exact::{
    is_exact, is_exact_as, lemma_one, lemma_order, lemma_whole, value, Reading,
};
use crate::filter::{OnePoleLp, TapEq};
use crate::params::{ParamBlock, Tap, ONE};
use crate::pool::{
    a_tap_is_followed_unless_the_pool_is_full, placed, targets, without_key, Selection, TapState,
};
use crate::renderer::{all_measured, measured, tap_moved, through, toned, Renderer, Stage, Unit};
use crate::single::{rounded, signed_rounded, whole, Single};
use crate::smooth::{exact_tick, Smoothed};
use vstd::arithmetic::power2::{lemma_pow2_pos, pow2};
use vstd::prelude::*;

verus! {

/// A number from `k` up and below the next whole number is cut to `k`.
proof fn lemma_cut(d: Single, k: nat)
    requires
        d.is_finite(),
        k as int as real <= value(d) < (k + 1) as int as real,
        k <= usize::MAX,
    ensures
        d.truncated(usize::MAX as nat) == k,
{
    lemma_pow2_pos(149);
    let u = pow2(149) as int;
    let (n, ur, kr) = (d.num() as real, u as real, k as int as real);
    let v = value(d);
    assert(v * ur == n) by (nonlinear_arith)
        requires
            v == n / ur,
            ur > 0real,
    ;
    assert(kr * ur <= n && n < (kr + 1real) * ur) by (nonlinear_arith)
        requires
            v * ur == n,
            kr <= v < kr + 1real,
            ur > 0real,
    ;
    assert((k * u) as real == kr * ur) by (nonlinear_arith)
        requires
            kr == k as int as real,
            ur == u as real,
    ;
    assert(((k + 1) * u) as real == (kr + 1real) * ur) by (nonlinear_arith)
        requires
            kr == k as int as real,
            ur == u as real,
    ;
    assert(k * u <= d.num() && d.num() < (k + 1) * u);
    assert(k * u >= 0) by (nonlinear_arith)
        requires
            k >= 0,
            u > 0,
    ;
    if d.is_negative() {
        assert(d.num() == 0);
        assert(k == 0) by (nonlinear_arith)
            requires
                k * u <= 0,
                u > 0,
                k >= 0,
        ;
    } else {
        let m = d.num();
        assert(m / u == k as int) by (nonlinear_arith)
            requires
                k * u <= m < (k + 1) * u,
                u > 0,
        ;
    }
}

/// A delay inside a line is left as it is.
proof fn lemma_kept_inside(d: Single, len: nat)
    requires
        4 <= len <= MAX_LINE,
        d.is_finite(),
        1real <= value(d) <= (len - 2) as real,
    ensures
        kept(d, len) == d,
{
    let n = len - 2;
    lemma_one();
    lemma_whole(n);
    lemma_order(d, Single(ONE));
    let top = rounded(n as nat);
    assert(signed_rounded(n) == top);
    if top.below(d) {
        if top.is_finite() {
            lemma_order(top, d);
        } else {
            crate::single::small_integers_are_exact(n as nat);
            let e = choose|e: Single| e.is_finite() && !e.is_negative() && #[trigger] e.num()
                == whole(n);
            assert(e.is_nearest(whole(n)));
            crate::single::nearest_is_unique(top, e, whole(n));
        }
    }
}

/// What is read between two samples is worked out exactly.
pub open spec fn exact_read(f: Calc, h: Seq<Single>, d: Single, k: nat) -> bool {
    let t = diff(f, d, rounded(k));
    let step = diff(f, h[k as int + 1], h[k as int]);
    &&& is_exact(f, Op::Minus(d, rounded(k)))
    &&& is_exact(f, Op::Minus(h[k as int + 1], h[k as int]))
    &&& is_exact(f, Op::Times(t, step))
    &&& is_exact(f, Op::Plus(h[k as int], prod(f, t, step)))
}

/// In exact arithmetic a line gives back, `k` samples and a fraction behind the last
/// one, the point of that fraction between the two samples there; at a whole number,
/// the sample itself.
pub proof fn a_line_reads_between_its_samples(f: Calc, h: Seq<Single>, d: Single, k: nat)
    requires
        4 <= h.len() <= MAX_LINE,
        d.is_finite(),
        1real <= value(d) <= (h.len() - 2) as real,
        k as int as real <= value(d) < (k + 1) as int as real,
        exact_read(f, h, d, k),
    ensures
        ({
            let t = value(d) - k as int as real;
            &&& value(read_of(f, h, d)) == (1real - t) * value(h[k as int]) + t * value(h[k as int + 1])
            &&& t == 0real ==> value(read_of(f, h, d)) == value(h[k as int])
        }),
{
    assert(k < MAX_LINE);
    lemma_kept_inside(d, h.len());
    lemma_cut(d, k);
    lemma_whole(k as int);
    assert(signed_rounded(k as int) == rounded(k));
    let t = value(d) - k as int as real;
    let (a, b) = (value(h[k as int]), value(h[k as int + 1]));
    assert(value(read_of(f, h, d)) == a + t * (b - a));
    assert(a + t * (b - a) == (1real - t) * a + t * b) by (nonlinear_arith);
    if t == 0real {
        assert(0real * (b - a) == 0real);
    }
}

/// In exact arithmetic the delay of a tap in samples, over the sample rate, is the
/// tap's delay in seconds.
pub proof fn a_delay_in_samples_lasts_the_delay_in_seconds(val: Reading, f: Calc, t: Tap, rate: Single)
    requires
        is_exact_as(val, f, Op::Times(t.delay_s, rate)),
        val(rate) != 0real,
    ensures
        val(measured(f, t, rate).delay) / val(rate) == val(t.delay_s),
{
    let (x, r) = (val(t.delay_s), val(rate));
    assert((x * r) / r == x) by (nonlinear_arith)
        requires
            r != 0real,
    ;
}

/// A tap that was chosen is followed by a slot that heads for the delay that, over
/// the sample rate, is the tap's delay in seconds; where no slot follows it, none was
/// free.
pub proof fn a_slot_heads_for_the_delay_of_its_tap(
    val: Reading,
    f: Calc,
    player: Renderer,
    pb: ParamBlock,
    sel: Selection,
    n: int,
    slots: Seq<TapState>,
    first: bool,
)
    requires
        0 <= n < sel.incoming@.len(),
        ({
            let t = pb.taps@[sel.incoming@[n] as int];
            is_exact_as(val, f, Op::Times(t.delay_s, player.sample_rate))
        }),
        val(player.sample_rate) != 0real,
    ensures
        ({
            let t = pb.taps@[sel.incoming@[n] as int];
            let after = placed(slots, player.orders(f, pb, sel)[n], first);
            let left = without_key(slots, t.key);
            ||| exists|i: int|
                0 <= i < after.len() && (#[trigger] after[i]).key == Some(t.key) && val(
                    after[i].delay.target,
                ) / val(player.sample_rate) == val(t.delay_s)
            ||| forall|i: int| 0 <= i < left.len() ==> !(#[trigger] left[i]).is_free()
        }),
{
    let t = pb.taps@[sel.incoming@[n] as int];
    let o = player.orders(f, pb, sel)[n];
    let ms = all_measured(f, pb, sel, player.sample_rate);
    assert(ms[n] == measured(f, t, player.sample_rate));
    assert(o.targets == targets(t, ms[n]));
    assert(o.targets.delay == ms[n].delay);
    assert(o.key == t.key);
    a_delay_in_samples_lasts_the_delay_in_seconds(val, f, t, player.sample_rate);
    a_tap_is_followed_unless_the_pool_is_full(slots, o, first);
    let after = placed(slots, o, first);
    let left = without_key(slots, t.key);
    if exists|i: int| 0 <= i < left.len() && (#[trigger] left[i]).is_free() {
        let i = choose|i: int|
            0 <= i < after.len() && (#[trigger] after[i]).key == Some(o.key) && after[i].point
                == o.point && after[i].delay.target == o.targets.delay;
        assert(after[i].key == Some(t.key));
    }
}

/// One step of a smoother that is where it heads for leaves it there.
proof fn lemma_stays(f: Calc, s: Smoothed)
    requires
        exact_tick(f, s),
        s.cur == s.target,
    ensures
        value(s.ticked(f).cur) == value(s.target),
        s.ticked(f).cur.is_finite(),
{
    let d = value(s.cur) - value(s.target);
    let k = value(s.coef);
    assert(d * k == 0real) by (nonlinear_arith)
        requires
            d == 0real,
    ;
}

/// In exact arithmetic a slot that rests at the delay of its tap reads what was fed
/// in that many seconds ago: of a source whose last samples are `xs`, the one
/// `delay_s * sample_rate` samples before the last, and between two where that is no
/// whole number.
pub proof fn a_path_is_heard_after_its_delay(
    f: Calc,
    past: Seq<Single>,
    xs: Seq<Single>,
    slot: TapState,
    t: Tap,
    rate: Single,
    k: nat,
)
    requires
        4 <= past.len() <= MAX_LINE,
        k + 1 < xs.len(),
        slot.delay.target == measured(f, t, rate).delay,
        slot.delay.cur == slot.delay.target,
        is_exact(f, Op::Times(t.delay_s, rate)),
        exact_tick(f, slot.delay),
        1real <= value(t.delay_s) * value(rate) <= (past.len() - 2) as real,
        k as int as real <= value(t.delay_s) * value(rate) < (k + 1) as int as real,
        exact_read(f, pushed_all(past, xs), tap_moved(f, slot).delay.cur, k),
    ensures
        ({
            let r = value(read_of(f, pushed_all(past, xs), tap_moved(f, slot).delay.cur));
            let u = value(t.delay_s) * value(rate) - k as int as real;
            &&& r == (1real - u) * value(xs[xs.len() - 1 - k]) + u * value(xs[xs.len() - 2 - k])
            &&& u == 0real ==> r == value(xs[xs.len() - 1 - k])
        }),
{
    lemma_stays(f, slot.delay);
    let d = tap_moved(f, slot).delay.cur;
    assert(value(d) == value(t.delay_s) * value(rate));
    assert(k + 1 < past.len());
    a_line_remembers(past, xs, k as int);
    a_line_remembers(past, xs, k as int + 1);
    a_line_reads_between_its_samples(f, pushed_all(past, xs), d, k);
}

/// One step of a lowpass is exact.
pub open spec fn exact_next(f: Calc, lp: OnePoleLp, x: Single, coef: Single) -> bool {
    let d = diff(f, x, lp.state);
    &&& is_exact(f, Op::Minus(x, lp.state))
    &&& is_exact(f, Op::Times(coef, d))
    &&& is_exact(f, Op::Plus(lp.state, prod(f, coef, d)))
}

/// One sample through the shelves is exact.
pub open spec fn exact_shaped(
    f: Calc,
    eq: TapEq,
    x: Single,
    g_low: Single,
    g_high: Single,
    c_low: Single,
    c_high: Single,
) -> bool {
    let low = eq.lp_low.next(f, x, c_low).state;
    let y = eq.lowered(f, x, g_low, c_low);
    let high = diff(f, y, eq.lp_high.next(f, y, c_high).state);
    let (g, h) = (diff(f, g_low, Single(ONE)), diff(f, g_high, Single(ONE)));
    &&& is_exact(f, Op::Minus(g_low, Single(ONE)))
    &&& is_exact(f, Op::Minus(g_high, Single(ONE)))
    &&& is_exact(f, Op::Times(g, low))
    &&& is_exact(f, Op::Plus(x, prod(f, g, low)))
    &&& is_exact(f, Op::Minus(y, eq.lp_high.next(f, y, c_high).state))
    &&& is_exact(f, Op::Times(h, high))
    &&& is_exact(f, Op::Plus(y, prod(f, h, high)))
}

/// In exact arithmetic the shelves part a sample into what the low filter passes,
/// what the high filter stops of the rest, and what lies between: the first comes out
/// `g_low` times as strong, the second `g_high` times, the third as it is. So with
/// gains of one a sample comes out as it went in; a steady tone that both filters
/// have settled on comes out `g_low` times as strong; and what neither passes comes
/// out `g_high` times as strong.
pub proof fn shelves_weigh_the_bands(
    f: Calc,
    eq: TapEq,
    x: Single,
    g_low: Single,
    g_high: Single,
    c_low: Single,
    c_high: Single,
)
    requires
        exact_shaped(f, eq, x, g_low, g_high, c_low, c_high),
    ensures
        ({
            let out = value(eq.shaped(f, x, g_low, g_high, c_low, c_high));
            let low = value(eq.lp_low.next(f, x, c_low).state);
            let y = (value(x) - low) + value(g_low) * low;
            let kept = value(
                eq.lp_high.next(f, eq.lowered(f, x, g_low, c_low), c_high).state,
            );
            &&& out == kept + value(g_high) * (y - kept)
            &&& value(g_low) == 1real && value(g_high) == 1real ==> out == value(x)
            &&& low == value(x) && kept == value(g_low) * value(x) ==> out == value(g_low) * value(x)
            &&& low == 0real && kept == 0real ==> out == value(g_high) * value(x)
        }),
{
    lemma_one();
    let out = value(eq.shaped(f, x, g_low, g_high, c_low, c_high));
    let low = value(eq.lp_low.next(f, x, c_low).state);
    let kept = value(eq.lp_high.next(f, eq.lowered(f, x, g_low, c_low), c_high).state);
    let (v, g, h) = (value(x), value(g_low), value(g_high));
    let y = v + (g - 1real) * low;
    assert(value(eq.lowered(f, x, g_low, c_low)) == y);
    assert(out == y + (h - 1real) * (y - kept));
    assert(y == (v - low) + g * low) by (nonlinear_arith)
        requires
            y == v + (g - 1real) * low,
    ;
    assert(out == kept + h * (y - kept)) by (nonlinear_arith)
        requires
            out == y + (h - 1real) * (y - kept),
    ;
    if g == 1real && h == 1real {
        assert(1real * low == low);
        assert(1real * (y - kept) == y - kept);
    }
    if low == v && kept == g * v {
        assert(y == g * v);
        assert(h * 0real == 0real);
        assert(y - kept == 0real);
    }
    if low == 0real && kept == 0real {
        assert(g * 0real == 0real);
        assert(y == v);
    }
}

/// A path that nothing colours sounds as it was fed in, `delay_s * sample_rate`
/// samples later: with an open lowpass and shelves of one, in exact arithmetic, what
/// its slot puts on the bus, before the gains of its direction, is the sample that
/// was fed in that long ago.
pub proof fn a_plain_path_repeats_its_source(
    f: Calc,
    past: Seq<Single>,
    xs: Seq<Single>,
    st: Stage,
    slot: TapState,
    u: Unit,
    t: Tap,
    rate: Single,
    k: nat,
)
    requires
        st.line == pushed_all(past, xs),
        4 <= past.len() <= MAX_LINE,
        k + 1 < xs.len(),
        slot.delay.target == measured(f, t, rate).delay,
        slot.delay.cur == slot.delay.target,
        is_exact(f, Op::Times(t.delay_s, rate)),
        exact_tick(f, slot.delay),
        1real <= value(t.delay_s) * value(rate) <= (past.len() - 2) as real,
        value(t.delay_s) * value(rate) == k as int as real,
        exact_read(f, st.line, tap_moved(f, slot).delay.cur, k),
        value(slot.lp_coef.ticked(f).cur) == 1real,
        value(slot.g_low.ticked(f).cur) == 1real,
        value(slot.g_high.ticked(f).cur) == 1real,
        exact_next(
            f,
            u.lp,
            read_of(f, st.line, tap_moved(f, slot).delay.cur),
            slot.lp_coef.ticked(f).cur,
        ),
        exact_shaped(
            f,
            u.eq,
            through(f, st, slot, u).state,
            slot.g_low.ticked(f).cur,
            slot.g_high.ticked(f).cur,
            st.c_low,
            st.c_high,
        ),
    ensures
        value(toned(f, st, slot, u)) == value(xs[xs.len() - 1 - k]),
{
    a_path_is_heard_after_its_delay(f, past, xs, slot, t, rate, k);
    let x = read_of(f, st.line, tap_moved(f, slot).delay.cur);
    let y = through(f, st, slot, u).state;
    let (a, b) = (value(x), value(u.lp.state));
    assert(1real * (a - b) == a - b);
    assert(value(y) == value(x));
    shelves_weigh_the_bands(
        f,
        u.eq,
        y,
        slot.g_low.ticked(f).cur,
        slot.g_high.ticked(f).cur,
        st.c_low,
        st.c_high,
    );
}

} // verus!
