//! How the stages hang together, as numbers: bands add up to what was split, late lines
//! are poured over their directions, sends keep the bands of the room, a loop feeds
//! every route from a place of its own, and clocks keep time.

use crate::ambi::{exact_plus_prod, mixed, Frame};
use crate::ambience::{feed_frame, levels, PARTS, ROUTE_LEVEL};
use crate::arith::{plus_prod, prod, quot, Calc, Op};
use crate::arrival::{exact_shaped, shelves_weigh_the_bands};
use crate::bands::BandSplit;
use crate::drops::TAU;
use crate::exact::{is_exact, is_exact_as, lemma_is, lemma_whole, value, vector_as, Reading};
use crate::fdn::{len_ms, line_len, Lines, MILLI};
use crate::filter::OnePoleLp;
use crate::params::ParamBlock;
use crate::pool::{LateField, TapState, RINGING};
use crate::rays::lemma_bin_cut;
use crate::renderer::{
    late_measured, late_ticked, point_sample, poured, tap_moved, toned, Renderer, Stage, Unit,
    POINT_GAIN, RATIO_MAX,
};
use crate::settle::exact_next_as;
use crate::signal::{Orbit, P_1_5, P_2_2, P_8_0};
use crate::single::{rounded, signed_rounded, Single};
use crate::walk::{Act, Clock};
use vstd::arithmetic::power2::lemma2_to64;
use vstd::prelude::*;

verus! {

/// Splitting a sample, weighing its bands and adding them up is exact, as read.
pub open spec fn exact_split(val: Reading, f: Calc, s: BandSplit, x: Single, g: [Single; 3]) -> bool {
    let n = s.next(f, x);
    let b = n.bands(f, x);
    let low = prod(f, g@[0], b.0);
    &&& exact_next_as(val, f, OnePoleLp { state: s.lp_lo }, x, s.c_lo)
    &&& exact_next_as(val, f, OnePoleLp { state: s.lp_hi }, x, s.c_hi)
    &&& is_exact_as(val, f, Op::Minus(n.lp_hi, n.lp_lo))
    &&& is_exact_as(val, f, Op::Minus(x, n.lp_hi))
    &&& is_exact_as(val, f, Op::Times(g@[0], b.0))
    &&& exact_plus_prod(val, f, low, g@[1], b.1)
    &&& is_exact_as(val, f, Op::Times(g@[2], b.2))
    &&& is_exact_as(val, f, Op::Plus(plus_prod(f, low, g@[1], b.1), prod(f, g@[2], b.2)))
}

/// In exact arithmetic a sample is split into three bands that add up to it: what the
/// low crossover passes, what the high one passes beyond that, and the rest; and each
/// comes out as strong as its gain.
pub proof fn bands_add_up(val: Reading, f: Calc, s: BandSplit, x: Single, g: [Single; 3])
    requires
        exact_split(val, f, s, x, g),
    ensures
        ({
            let (l, m, h) = s.next(f, x).bands(f, x);
            let lo = OnePoleLp { state: s.lp_lo }.next(f, x, s.c_lo).state;
            let hi = OnePoleLp { state: s.lp_hi }.next(f, x, s.c_hi).state;
            &&& val(l) + val(m) + val(h) == val(x)
            &&& val(l) == val(lo)
            &&& val(l) + val(m) == val(hi)
            &&& val(s.shaped(f, x, g)) == val(g@[0]) * val(l) + val(g@[1]) * val(m) + val(g@[2]) * val(h)
        }),
{
}

/// What the first `n` lines put on channel `k` of the bus.
pub open spec fn all_poured(
    val: Reading,
    lines: Lines,
    level: Single,
    dirs: Seq<Frame>,
    k: int,
    n: int,
) -> real
    decreases n,
{
    if n <= 0 {
        0real
    } else {
        all_poured(val, lines, level, dirs, k, n - 1) + (val(lines@[n - 1]) * val(level)) * val(
            dirs[n - 1]@[k],
        )
    }
}

/// Adding line `i` to channel `k` is exact, as read.
pub open spec fn exact_pour(
    val: Reading,
    f: Calc,
    bus: Frame,
    lines: Lines,
    level: Single,
    dirs: Seq<Frame>,
    k: int,
    i: int,
) -> bool {
    &&& is_exact_as(val, f, Op::Times(lines@[i], level))
    &&& exact_plus_prod(
        val,
        f,
        poured(f, bus, lines, level, dirs, i)@[k],
        prod(f, lines@[i], level),
        dirs[i]@[k],
    )
}

/// In exact arithmetic every late line is added to the bus at its direction and at the
/// common level, whatever else is there.
pub proof fn late_lines_are_poured_over_their_directions(
    val: Reading,
    f: Calc,
    bus: Frame,
    lines: Lines,
    level: Single,
    dirs: Seq<Frame>,
    k: int,
    n: int,
)
    requires
        0 <= k < 9,
        0 <= n <= 8,
        forall|i: int| 0 <= i < n ==> #[trigger] exact_pour(val, f, bus, lines, level, dirs, k, i),
    ensures
        val(poured(f, bus, lines, level, dirs, n)@[k]) == val(bus@[k]) + all_poured(
            val,
            lines,
            level,
            dirs,
            k,
            n,
        ),
    decreases n,
{
    if n > 0 {
        late_lines_are_poured_over_their_directions(val, f, bus, lines, level, dirs, k, n - 1);
        let before = poured(f, bus, lines, level, dirs, n - 1);
        let x = prod(f, lines@[n - 1], level);
        assert(exact_pour(val, f, bus, lines, level, dirs, k, n - 1));
        assert(mixed(f, before, x, dirs[n - 1])@[k] == plus_prod(f, before@[k], x, dirs[n - 1]@[k]));
    }
}

/// In exact arithmetic a line of the network is as long as its time: its length in
/// samples, over the sample rate, is its milliseconds.
pub proof fn a_line_lasts_its_milliseconds(val: Reading, f: Calc, rate: Single, i: int)
    requires
        0 <= i < 8,
        val(rate) != 0real,
        is_exact_as(val, f, Op::Times(len_ms(i), Single(MILLI))),
        is_exact_as(val, f, Op::Times(prod(f, len_ms(i), Single(MILLI)), rate)),
    ensures
        val(line_len(f, rate, i)) / val(rate) == val(len_ms(i)) * val(Single(MILLI)),
{
    let (x, r) = (val(len_ms(i)) * val(Single(MILLI)), val(rate));
    assert((x * r) / r == x) by (nonlinear_arith)
        requires
            r != 0real,
    ;
}

/// In exact arithmetic what goes into the room's network is the source at the late
/// field's level, as long as its shelves are one.
pub proof fn the_network_is_fed_the_source_at_its_level(f: Calc, player: Renderer, x: Single)
    requires
        ({
            let l = late_ticked(f, player.pool.late);
            let y = prod(f, x, l.fdn_level.cur);
            &&& is_exact(f, Op::Times(x, l.fdn_level.cur))
            &&& value(l.send_low.cur) == 1real
            &&& value(l.send_high.cur) == 1real
            &&& exact_shaped(
                f,
                player.send_eq,
                y,
                l.send_low.cur,
                l.send_high.cur,
                player.c_low,
                player.c_high,
            )
        }),
    ensures
        value(player.wet_in(f, x)) == value(x) * value(late_ticked(f, player.pool.late).fdn_level.cur),
{
    let l = late_ticked(f, player.pool.late);
    shelves_weigh_the_bands(
        f,
        player.send_eq,
        prod(f, x, l.fdn_level.cur),
        l.send_low.cur,
        l.send_high.cur,
        player.c_low,
        player.c_high,
    );
}

/// In exact arithmetic a path with a response of its own is convolved with its sample at
/// the gain of the channel without direction, matched to the bus.
pub proof fn a_point_is_as_loud_as_its_path(
    val: Reading,
    f: Calc,
    st: Stage,
    tap: TapState,
    u: Unit,
)
    requires
        ({
            let s = toned(f, st, tap, u);
            let g = tap_moved(f, tap).g_sh@[0].cur;
            &&& is_exact_as(val, f, Op::Times(s, g))
            &&& is_exact_as(val, f, Op::Times(prod(f, s, g), Single(POINT_GAIN)))
        }),
    ensures
        val(point_sample(f, st, tap, u)) == (val(toned(f, st, tap, u)) * val(
            tap_moved(f, tap).g_sh@[0].cur,
        )) * val(Single(POINT_GAIN)),
{
}

/// In exact arithmetic the late field heads for the room's own bands: its level is the
/// mids', and its shelves make the lows and the highs of it, unless one is more than
/// four times the mids.
pub proof fn the_late_field_has_the_bands_of_the_room(
    val: Reading,
    f: Calc,
    late: LateField,
    pb: ParamBlock,
    rate: Single,
)
    requires
        Single(RINGING).below(pb.reverb.level@[1]),
        is_exact_as(val, f, Op::Over(pb.reverb.level@[0], pb.reverb.level@[1])),
        is_exact_as(val, f, Op::Over(pb.reverb.level@[2], pb.reverb.level@[1])),
        !quot(f, pb.reverb.level@[0], pb.reverb.level@[1]).below(Single(0)),
        !Single(RATIO_MAX).below(quot(f, pb.reverb.level@[0], pb.reverb.level@[1])),
        !quot(f, pb.reverb.level@[2], pb.reverb.level@[1]).below(Single(0)),
        !Single(RATIO_MAX).below(quot(f, pb.reverb.level@[2], pb.reverb.level@[1])),
    ensures
        ({
            let now = late.after(pb, late_measured(f, pb, rate));
            let mid = val(pb.reverb.level@[1]);
            &&& now.fdn_level.target == pb.reverb.level@[1]
            &&& val(now.send_low.target) * mid == val(pb.reverb.level@[0])
            &&& val(now.send_high.target) * mid == val(pb.reverb.level@[2])
        }),
{
}

/// In exact arithmetic a route is as loud, in a band, as its gain, the common level and
/// the fader, all together.
pub proof fn a_route_is_as_loud_as_its_gain(
    val: Reading,
    f: Calc,
    g: [Single; 3],
    user: Single,
    b: int,
)
    requires
        0 <= b < 3,
        is_exact_as(val, f, Op::Times(g@[b], Single(ROUTE_LEVEL))),
        is_exact_as(val, f, Op::Times(prod(f, g@[b], Single(ROUTE_LEVEL)), user)),
    ensures
        val(levels(f, g, user)@[b]) == val(g@[b]) * (val(Single(ROUTE_LEVEL)) * val(user)),
{
    let (x, k, u) = (val(g@[b]), val(Single(ROUTE_LEVEL)), val(user));
    assert((x * k) * u == x * (k * u)) by (nonlinear_arith);
}

/// No two feeds read a loop at the same place, as long as it has as many frames as there
/// are parts: what comes in here and there does not comb.
pub proof fn feeds_read_apart(pos: int, frames: int, j: int, k: int)
    requires
        0 <= j < k < PARTS - 1,
        0 <= pos < frames,
        PARTS <= frames,
    ensures
        0 <= feed_frame(pos, j, frames) < frames,
        feed_frame(pos, j, frames) != feed_frame(pos, k, frames),
        feed_frame(pos, j, frames) != pos,
{
    let (a, b) = ((j + 1) * frames, (k + 1) * frames);
    assert(frames <= a && a + frames <= b && b < 14 * frames) by (nonlinear_arith)
        requires
            a == (j + 1) * frames,
            b == (k + 1) * frames,
            0 <= j < k < 13,
            frames > 0,
    ;
    let (x, y) = (a / 14, b / 14);
    assert(1 <= x && x < y && y < frames) by (nonlinear_arith)
        requires
            x == a / 14,
            y == b / 14,
            frames >= 14,
            frames <= a,
            a + frames <= b,
            b < 14 * frames,
    ;
}

/// In exact arithmetic, and with a cosine and a sine whose squares add up to one, the
/// source of an orbit stays at its distance from the listener, at its height, and goes
/// round once in eight seconds.
pub proof fn an_orbit_keeps_its_distance(val: Reading, f: Calc, orbit: Orbit, t: Single)
    requires
        ({
            let ang = Orbit::angle(f, t);
            let (c, s) = (f(Op::Cos(ang)), f(Op::Sin(ang)));
            &&& val(Single(P_8_0)) == value(Single(P_8_0))
            &&& val(c) * val(c) + val(s) * val(s) == 1real
            &&& is_exact_as(val, f, Op::Times(Single(TAU), t))
            &&& is_exact_as(val, f, Op::Over(prod(f, Single(TAU), t), Single(P_8_0)))
            &&& exact_plus_prod(val, f, orbit.listener@[0], Single(P_2_2), c)
            &&& exact_plus_prod(val, f, orbit.listener@[1], Single(P_2_2), s)
        }),
    ensures
        ({
            let (p, l) = (vector_as(val, orbit.place(f, t)), vector_as(val, orbit.listener));
            let r = val(Single(P_2_2));
            &&& (p.0 - l.0) * (p.0 - l.0) + (p.1 - l.1) * (p.1 - l.1) == r * r
            &&& p.2 == val(Single(P_1_5))
            &&& val(Orbit::angle(f, t)) * 8real == val(Single(TAU)) * val(t)
        }),
{
    lemma2_to64();
    lemma_is(P_8_0, 130, 0, 8real);
    let ang = Orbit::angle(f, t);
    let (c, s) = (val(f(Op::Cos(ang))), val(f(Op::Sin(ang))));
    let r = val(Single(P_2_2));
    let rr = r * r;
    assert((r * c) * (r * c) == rr * (c * c)) by (nonlinear_arith)
        requires
            rr == r * r,
    ;
    assert((r * s) * (r * s) == rr * (s * s)) by (nonlinear_arith)
        requires
            rr == r * r,
    ;
    let (x, y) = (c * c, s * s);
    assert(rr * (x + y) == rr * x + rr * y) by (nonlinear_arith);
    assert(rr * 1real == rr);
    let (p, l) = (vector_as(val, orbit.place(f, t)), vector_as(val, orbit.listener));
    assert(p.0 - l.0 == r * c);
    assert(p.1 - l.1 == r * s);
    assert((p.0 - l.0) * (p.0 - l.0) == (r * c) * (r * c));
    assert((p.1 - l.1) * (p.1 - l.1) == (r * s) * (r * s));
}

/// In exact arithmetic a walk is simulated at the time of its next sample, and lasts as
/// many whole samples as fit in its seconds.
pub proof fn the_clock_keeps_time(f: Calc, c: Clock, secs: Single, fs: Single)
    requires
        c.n <= 0x100_0000,
        value(c.fs) != 0real,
        is_exact(f, Op::Over(rounded(c.n as nat), c.fs)),
        is_exact(f, Op::Times(secs, fs)),
        value(secs) * value(fs) >= 0real,
        prod(f, secs, fs).truncated(usize::MAX as nat) < usize::MAX,
    ensures
        c.next_act(f) matches Act::Simulate(t) ==> value(t) * value(c.fs) == c.n as real,
        ({
            let total = Clock::at_start(f, secs, fs).total as real;
            total <= value(secs) * value(fs) < total + 1real
        }),
{
    lemma_whole(c.n as int);
    assert(signed_rounded(c.n as int) == rounded(c.n as nat));
    lemma_bin_cut(prod(f, secs, fs), prod(f, secs, fs).truncated(usize::MAX as nat), usize::MAX as nat);
}

} // verus!
