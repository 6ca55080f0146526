//! Per-source renderer: one source delay line, a pool of spatialized early
//! paths, and two late fields, summed on the ambisonics bus; paths that get a
//! response of their own come out in stereo directly.

use crate::ambi::{
    encode_gains, encoded, mix, mixed, quiet, rotate_dir, rotate_z, yawed, yawed_dir, Frame,
};
use crate::arith::{
    ask, clamp_to, clamped, diff, minus, over, plus, prod, quot, size, size_of, sum, times, Calc,
    Op,
};
use crate::delay::{is_capacity, pushed, read_of, DelayLine, MAX_LINE};
use crate::exact::{is_about, is_close, value};
use crate::fdn::{is_rate, line_damping, line_gain, Fdn, Lines, MILLI};
use crate::filter::{lp_coef, OnePoleLp, TapEq};
use crate::hrtf::{closest, Conv, HrirGrid, PointConv};
use crate::params::{ParamBlock, Tap, HALF, ONE};
use crate::pool::{
    heard, orders_of, placed_all, placements, swept, LateField, LateMeasures, Placement,
    Selection, TapMeasures, TapOrder, TapPool, TapState, INAUDIBLE, MAX_TAPS, RESELECT_SAMPLES,
};
use crate::probe::{answering, is_steady};
use crate::single::Single;
use crate::smooth::{left_after, Smoothed};
use std::sync::Arc;
use vstd::prelude::*;

verus! {

/// The pattern of 0.8: the loudness match of point-rendered paths to the bus.
pub const POINT_GAIN: u32 = 0x3F4C_CCCD;

/// The pattern of 6.0: a delay that changes by more milliseconds is another
/// path.
pub const RETARGET_MS: u32 = 0x40C0_0000;

/// The pattern of 250.0.
pub const LOW_SHELF_HZ: u32 = 0x437A_0000;

/// The pattern of 2500.0.
pub const HIGH_SHELF_HZ: u32 = 0x451C_4000;

/// The pattern of 800.0: where the through-wall lowpass meets the mid gain.
pub const FIT_HZ: u32 = 0x4448_0000;

/// The pattern of 60.0: the lowest fitted cutoff.
pub const FIT_LO: u32 = 0x4270_0000;

/// The pattern of 2000.0: the highest fitted cutoff.
pub const FIT_HI: u32 = 0x44FA_0000;

/// The pattern of 4.0: the largest ratio to the mid band.
pub const RATIO_MAX: u32 = 0x4080_0000;

/// The pattern of 480.0: the delay of an unused slot.
pub const IDLE_DELAY: u32 = 0x43F0_0000;

/// The pattern of 0.7: the source line's length in seconds.
pub const LINE_S: u32 = 0x3F33_3333;

/// The pattern of 0.05: how fast a path moves, in seconds.
pub const TAP_TAU: u32 = 0x3D4C_CCCD;

/// The pattern of 0.1: how fast the remote field moves, in seconds.
pub const REMOTE_TAU: u32 = 0x3DCC_CCCD;

/// The pattern of 0.2: how fast late levels move, in seconds.
pub const LATE_TAU: u32 = 0x3E4C_CCCD;

/// The pattern of 0.03: how fast the head turns, in seconds.
pub const HEAD_TAU: u32 = 0x3CF5_C28F;

/// The pattern of 0.9: the level of the remote lines.
pub const REMOTE_LEVEL: u32 = 0x3F66_6666;

/// The pattern of 2.25: the squared length of a corner of the late field.
pub const CORNER: u32 = 0x4010_0000;

/// The pattern of -0.5.
pub const MINUS_HALF: u32 = 0xBF00_0000;

/// The patterns of the angles, in radians, at which the remote lines lie around
/// the doorway: -0.55, -0.38, -0.22, -0.08, 0.08, 0.22, 0.38, 0.55.
pub open spec fn spread_angle(i: int) -> Single {
    Single(
        if i == 0 {
            0xBF0C_CCCD
        } else if i == 1 {
            0xBEC2_8F5C
        } else if i == 2 {
            0xBE61_47AE
        } else if i == 3 {
            0xBDA3_D70A
        } else if i == 4 {
            0x3DA3_D70A
        } else if i == 5 {
            0x3E61_47AE
        } else if i == 6 {
            0x3EC2_8F5C
        } else {
            0x3F0C_CCCD
        },
    )
}

/// The cutoff fitted through the band gains: `800 / sqrt(r² - 1)`, within
/// limits.
pub open spec fn fitted(f: Calc, ratio: Single) -> Single {
    clamped(
        quot(f, Single(FIT_HZ), f(Op::Root(diff(f, prod(f, ratio, ratio), Single(ONE))))),
        Single(FIT_LO),
        Single(FIT_HI),
    )
}

fn fit<F: Fn(Op) -> Single>(f: &F, ratio: Single) -> (r: Single)
    requires
        is_steady(*f),
    ensures
        r == fitted(answering(*f), ratio),
{
    let x: Single = minus(f, times(f, ratio, ratio), Single(ONE));
    let root: Single = ask(f, Op::Root(x));
    clamp_to(over(f, Single(FIT_HZ), root), Single(FIT_LO), Single(FIT_HI))
}

/// A ratio kept within 0 and 4.
pub open spec fn ratio_of(f: Calc, a: Single, b: Single) -> Single {
    clamped(quot(f, a, b), Single(0), Single(RATIO_MAX))
}

/// A frame times a gain.
pub open spec fn louder(f: Calc, g: Single, enc: Frame) -> Frame {
    [
        prod(f, g, enc@[0]),
        prod(f, g, enc@[1]),
        prod(f, g, enc@[2]),
        prod(f, g, enc@[3]),
        prod(f, g, enc@[4]),
        prod(f, g, enc@[5]),
        prod(f, g, enc@[6]),
        prod(f, g, enc@[7]),
        prod(f, g, enc@[8]),
    ]
}

fn amplify<F: Fn(Op) -> Single>(f: &F, g: Single, enc: &Frame) -> (r: Frame)
    requires
        is_steady(*f),
    ensures
        r == louder(answering(*f), g, *enc),
{
    let r: Frame = [
        times(f, g, enc[0]),
        times(f, g, enc[1]),
        times(f, g, enc[2]),
        times(f, g, enc[3]),
        times(f, g, enc[4]),
        times(f, g, enc[5]),
        times(f, g, enc[6]),
        times(f, g, enc[7]),
        times(f, g, enc[8]),
    ];
    assert(r@ =~= louder(answering(*f), g, *enc)@);
    r
}

/// What the targets of a tap are chosen from.
pub open spec fn measured(f: Calc, t: Tap, sample_rate: Single) -> TapMeasures {
    let raw = quot(f, t.gains@[0], t.gains@[1]);
    let enc = encoded(f, t.dir);
    TapMeasures {
        delay: prod(f, t.delay_s, sample_rate),
        low_over_mid: raw,
        low_ratio: ratio_of(f, t.gains@[0], t.gains@[1]),
        high_ratio: ratio_of(f, t.gains@[2], t.gains@[1]),
        low_sh: louder(f, t.gains@[0], enc),
        mid_sh: louder(f, t.gains@[1], enc),
        lp_coef: lp_coef(f, fitted(f, raw), sample_rate),
    }
}

fn measure<F: Fn(Op) -> Single>(f: &F, t: &Tap, sample_rate: Single) -> (r: TapMeasures)
    requires
        is_steady(*f),
    ensures
        r == measured(answering(*f), *t, sample_rate),
{
    let raw: Single = over(f, t.gains[0], t.gains[1]);
    let enc: Frame = encode_gains(f, t.dir);
    let high: Single = over(f, t.gains[2], t.gains[1]);
    let fc: Single = fit(f, raw);
    TapMeasures {
        delay: times(f, t.delay_s, sample_rate),
        low_over_mid: raw,
        low_ratio: clamp_to(raw, Single(0), Single(RATIO_MAX)),
        high_ratio: clamp_to(high, Single(0), Single(RATIO_MAX)),
        low_sh: amplify(f, t.gains[0], &enc),
        mid_sh: amplify(f, t.gains[1], &enc),
        lp_coef: OnePoleLp::coef(f, fc, sample_rate),
    }
}

/// The remote sends of a block; all zero where it has none.
pub open spec fn sends(pb: ParamBlock) -> [Single; 3] {
    match pb.remote {
        Some(r) => r.send,
        None => [Single(0), Single(0), Single(0)],
    }
}

/// What the late field is retargeted from.
pub open spec fn late_measured(f: Calc, pb: ParamBlock, sample_rate: Single) -> LateMeasures {
    let lv = pb.reverb.level;
    let s = sends(pb);
    let raw = quot(f, s@[0], s@[1]);
    LateMeasures {
        send_low: ratio_of(f, lv@[0], lv@[1]),
        send_high: ratio_of(f, lv@[2], lv@[1]),
        remote_low_over_mid: raw,
        remote_low: ratio_of(f, s@[0], s@[1]),
        remote_high: ratio_of(f, s@[2], s@[1]),
        remote_lp_coef: lp_coef(f, fitted(f, raw), sample_rate),
    }
}

fn measure_late<F: Fn(Op) -> Single>(f: &F, pb: &ParamBlock, sample_rate: Single) -> (r:
    LateMeasures)
    requires
        is_steady(*f),
    ensures
        r == late_measured(answering(*f), *pb, sample_rate),
{
    let lv: [Single; 3] = pb.reverb.level;
    let s: [Single; 3] = match &pb.remote {
        Some(r) => r.send,
        None => [Single(0), Single(0), Single(0)],
    };
    assert(s@ =~= sends(*pb)@);
    assert(s == sends(*pb));
    let raw: Single = over(f, s[0], s[1]);
    let fc: Single = fit(f, raw);
    LateMeasures {
        send_low: clamp_to(over(f, lv[0], lv[1]), Single(0), Single(RATIO_MAX)),
        send_high: clamp_to(over(f, lv[2], lv[1]), Single(0), Single(RATIO_MAX)),
        remote_low_over_mid: raw,
        remote_low: clamp_to(raw, Single(0), Single(RATIO_MAX)),
        remote_high: clamp_to(over(f, s[2], s[1]), Single(0), Single(RATIO_MAX)),
        remote_lp_coef: OnePoleLp::coef(f, fc, sample_rate),
    }
}

/// The filters of one slot.
#[derive(Debug)]
pub struct TapUnit {
    pub lp: OnePoleLp,
    pub eq: TapEq,
    pub conv: PointConv,
}

/// What the filters of one slot hold.
#[verifier::ext_equal]
pub ghost struct Unit {
    pub lp: OnePoleLp,
    pub eq: TapEq,
    pub conv: Conv,
}

impl View for TapUnit {
    type V = Unit;

    open spec fn view(&self) -> Unit {
        Unit { lp: self.lp, eq: self.eq, conv: self.conv@ }
    }
}

/// What the filters of all slots hold.
pub open spec fn units_of(units: Seq<TapUnit>) -> Seq<Unit> {
    Seq::new(units.len(), |i: int| units[i]@)
}

#[derive(Debug)]
pub struct Renderer {
    pub grid: Option<Arc<HrirGrid>>,
    pub pool: TapPool,
    pub src_line: DelayLine,
    /// Slot by slot.
    pub units: Vec<TapUnit>,
    pub fdn: Fdn,
    pub send_eq: TapEq,
    /// The source room's reverb, heard through the doorway.
    pub remote_fdn: Fdn,
    pub remote_eq: TapEq,
    pub remote_lp: OnePoleLp,
    /// The remote lines are spread over the doorway: summed at one point they
    /// would comb.
    pub remote_spread: [Frame; 8],
    pub fdn_dirs: [Frame; 8],
    pub c_low: Single,
    pub c_high: Single,
    pub sample_rate: Single,
    pub retarget_thresh: Single,
}

/// A grid that paths can be played over.
pub open spec fn is_grid(grid: Option<Arc<HrirGrid>>) -> bool {
    grid matches Some(g) ==> g.wf() && 0 < g.taps && 0 < g.dirs@.len()
}

/// The filters of every slot can be played.
pub open spec fn are_units(grid: Option<Arc<HrirGrid>>, units: Seq<Unit>) -> bool {
    grid matches Some(g) ==> forall|i: int|
        0 <= i < units.len() ==> (#[trigger] units[i]).conv.fits(*g)
}

/// A sample rate at which every line can be held and read.
pub open spec fn is_playable(f: Calc, sample_rate: Single) -> bool {
    &&& is_rate(f, sample_rate)
    &&& 3 <= prod(f, sample_rate, Single(LINE_S)).truncated(usize::MAX as nat) <= MAX_LINE
}

/// A slot that was never used.
pub open spec fn idle_slot(f: Calc, sample_rate: Single) -> TapState {
    let k = left_after(f, Single(TAP_TAU), sample_rate);
    let g = Smoothed::at(Single(0), k);
    TapState {
        key: None,
        point: false,
        base_dir: [Single(ONE), Single(0), Single(0)],
        delay: Smoothed::at(Single(IDLE_DELAY), k),
        g_low: Smoothed::at(Single(ONE), k),
        g_high: Smoothed::at(Single(ONE), k),
        g_sh: [g, g, g, g, g, g, g, g, g],
        lp_coef: Smoothed::at(Single(ONE), k),
    }
}

/// The late field before the first block.
pub open spec fn idle_late(f: Calc, sample_rate: Single) -> LateField {
    let k = left_after(f, Single(LATE_TAU), sample_rate);
    let r = left_after(f, Single(REMOTE_TAU), sample_rate);
    let g = Smoothed::at(Single(0), r);
    LateField {
        fdn_level: Smoothed::at(Single(0), k),
        send_low: Smoothed::at(Single(ONE), k),
        send_high: Smoothed::at(Single(ONE), k),
        remote_level: Smoothed::at(Single(0), k),
        remote_low: Smoothed::at(Single(ONE), k),
        remote_high: Smoothed::at(Single(ONE), k),
        remote_lp_coef: Smoothed::at(Single(ONE), r),
        remote_sh: [g, g, g, g, g, g, g, g, g],
    }
}

/// Where line `i` of the late field comes from: a corner of a flat box.
pub open spec fn corner(f: Calc, i: int) -> [Single; 3] {
    let s = quot(f, Single(ONE), f(Op::Root(Single(CORNER))));
    [
        if i % 2 == 0 {
            s
        } else {
            s.negated()
        },
        if (i / 2) % 2 == 0 {
            s
        } else {
            s.negated()
        },
        if i / 4 == 0 {
            prod(f, Single(HALF), s)
        } else {
            prod(f, Single(MINUS_HALF), s)
        },
    ]
}

fn corner_of<F: Fn(Op) -> Single>(f: &F, i: usize) -> (r: [Single; 3])
    requires
        is_steady(*f),
        i < 8,
    ensures
        r == corner(answering(*f), i as int),
{
    let root: Single = ask(f, Op::Root(Single(CORNER)));
    let s: Single = over(f, Single(ONE), root);
    let x: Single = if i % 2 == 0 {
        s
    } else {
        s.neg()
    };
    let y: Single = if (i / 2) % 2 == 0 {
        s
    } else {
        s.neg()
    };
    let z: Single = if i / 4 == 0 {
        times(f, Single(HALF), s)
    } else {
        times(f, Single(MINUS_HALF), s)
    };
    let r: [Single; 3] = [x, y, z];
    assert(r@ =~= corner(answering(*f), i as int)@);
    r
}

/// How a slot is started: filters at rest, and where it is point-rendered the
/// response nearest to its direction under the head's yaw.
pub open spec fn unit_started(
    f: Calc,
    grid: Option<Arc<HrirGrid>>,
    yaw: Single,
    u: Unit,
    o: TapOrder,
) -> Unit {
    Unit {
        lp: OnePoleLp::still(),
        eq: TapEq::still(),
        conv: match grid {
            Some(g) => if o.point {
                u.conv.restarted(
                    closest(f, g.dirs@, yawed_dir(f, o.dir, yaw), g.dirs@.len() as int).0,
                )
            } else {
                u.conv
            },
            None => u.conv,
        },
    }
}

/// The filters after the first `n` taps were placed: those of a slot that took
/// a path up start afresh.
pub open spec fn units_placed(
    f: Calc,
    grid: Option<Arc<HrirGrid>>,
    yaw: Single,
    units: Seq<Unit>,
    orders: Seq<TapOrder>,
    where_to: Seq<Placement>,
    n: int,
) -> Seq<Unit>
    decreases n,
{
    if n <= 0 {
        units
    } else {
        let before = units_placed(f, grid, yaw, units, orders, where_to, n - 1);
        match where_to[n - 1] {
            Placement::Started(j) => before.update(
                j as int,
                unit_started(f, grid, yaw, before[j as int], orders[n - 1]),
            ),
            _ => before,
        }
    }
}

/// The delay of a tap is near the one last heard for its path.
pub open spec fn is_near(f: Calc, last: Option<Single>, delay: Single, thresh: Single) -> bool {
    last matches Some(h) && size(diff(f, h, delay)).below(thresh)
}

/// The network `now` heads for the decay of a room.
pub open spec fn decays(f: Calc, before: Fdn, now: Fdn, mid: Single, high: Single) -> bool {
    &&& now == (Fdn { gains: now.gains, damp_coef: now.damp_coef, ..before })
    &&& forall|i: int|
        0 <= i < 8 ==> #[trigger] now.gains@[i] == before.gains@[i].towards(
            line_gain(f, before.lens@[i], before.sample_rate, mid),
        )
    &&& forall|i: int|
        0 <= i < 8 ==> #[trigger] now.damp_coef@[i] == before.damp_coef@[i].towards(
            line_damping(f, before.lens@[i], before.sample_rate, mid, high),
        )
}

impl Renderer {
    pub open spec fn wf(self) -> bool {
        &&& self.pool.wf()
        &&& self.pool.has_grid == (self.grid is Some)
        &&& self.units@.len() == MAX_TAPS
        &&& is_grid(self.grid)
        &&& are_units(self.grid, units_of(self.units@))
        &&& self.src_line.wf()
        &&& 4 <= self.src_line@.len() <= MAX_LINE
        &&& self.fdn.wf()
        &&& self.remote_fdn.wf()
    }

    /// Nothing was heard yet.
    pub open spec fn is_fresh(self, f: Calc, sample_rate: Single) -> bool {
        &&& forall|i: int|
            0 <= i < MAX_TAPS ==> #[trigger] self.pool.taps@[i] == idle_slot(f, sample_rate)
        &&& self.pool.late == idle_late(f, sample_rate)
        &&& self.pool.head_yaw == Smoothed::at(
            Single(0),
            left_after(f, Single(HEAD_TAU), sample_rate),
        )
        &&& self.pool.point_budget == crate::pool::DEFAULT_POINT_TAPS
        &&& self.pool.reselect_countdown == 0
        &&& self.pool.version_seen == 0
        &&& self.pool.first_params
        &&& !self.pool.mute_taps && !self.pool.mute_own_fdn && !self.pool.mute_remote
        &&& forall|i: int|
            0 <= i < MAX_TAPS ==> (#[trigger] self.units@[i])@ == (Unit {
                lp: OnePoleLp::still(),
                eq: TapEq::still(),
                conv: Conv::fresh(
                    f,
                    match self.grid {
                        Some(g) => g.taps as nat,
                        None => 1,
                    },
                    sample_rate,
                ),
            })
        &&& is_capacity(
            self.src_line@.len(),
            prod(f, sample_rate, Single(LINE_S)).truncated(usize::MAX as nat),
        )
        &&& forall|i: int| 0 <= i < self.src_line@.len() ==> #[trigger] self.src_line@[i] == Single(0)
        &&& self.fdn.is_fresh(f, sample_rate)
        &&& self.remote_fdn.is_fresh(f, sample_rate)
        &&& self.send_eq == TapEq::still()
        &&& self.remote_eq == TapEq::still()
        &&& self.remote_lp == OnePoleLp::still()
        &&& forall|i: int| 0 <= i < 8 ==> #[trigger] self.remote_spread@[i] == quiet()
        &&& forall|i: int| 0 <= i < 8 ==> #[trigger] self.fdn_dirs@[i] == encoded(f, corner(f, i))
        &&& self.c_low == lp_coef(f, Single(LOW_SHELF_HZ), sample_rate)
        &&& self.c_high == lp_coef(f, Single(HIGH_SHELF_HZ), sample_rate)
        &&& self.sample_rate == sample_rate
        &&& self.retarget_thresh == prod(
            f,
            prod(f, Single(RETARGET_MS), Single(MILLI)),
            sample_rate,
        )
    }

    /// A renderer without point-rendered paths.
    pub fn new<F: Fn(Op) -> Single>(f: &F, sample_rate: Single) -> (r: Self)
        requires
            is_steady(*f),
            is_playable(answering(*f), sample_rate),
        ensures
            r.wf(),
            r.grid is None,
            r.is_fresh(answering(*f), sample_rate),
    {
        Self::with_grid(f, sample_rate, None)
    }

    pub fn with_grid<F: Fn(Op) -> Single>(
        f: &F,
        sample_rate: Single,
        grid: Option<Arc<HrirGrid>>,
    ) -> (r: Self)
        requires
            is_steady(*f),
            is_playable(answering(*f), sample_rate),
            is_grid(grid),
        ensures
            r.wf(),
            r.grid == grid,
            r.is_fresh(answering(*f), sample_rate),
    {
        let ghost g = answering(*f);
        let slot_g: Smoothed = Smoothed::new(f, Single(0), Single(TAP_TAU), sample_rate);
        let slot_one: Smoothed = Smoothed::new(f, Single(ONE), Single(TAP_TAU), sample_rate);
        let blank: TapState = TapState {
            key: None,
            point: false,
            base_dir: [Single(ONE), Single(0), Single(0)],
            delay: Smoothed::new(f, Single(IDLE_DELAY), Single(TAP_TAU), sample_rate),
            g_low: slot_one,
            g_high: slot_one,
            g_sh: [slot_g;9],
            lp_coef: slot_one,
        };
        proof {
            let goal = idle_slot(g, sample_rate);
            assert(blank.g_sh@ =~= goal.g_sh@);
            assert(blank.base_dir@ =~= goal.base_dir@);
            assert(blank.g_sh == goal.g_sh && blank.base_dir == goal.base_dir);
            assert(blank == goal);
        }
        let late_zero: Smoothed = Smoothed::new(f, Single(0), Single(LATE_TAU), sample_rate);
        let late_one: Smoothed = Smoothed::new(f, Single(ONE), Single(LATE_TAU), sample_rate);
        let sh: Smoothed = Smoothed::new(f, Single(0), Single(REMOTE_TAU), sample_rate);
        let late: LateField = LateField {
            fdn_level: late_zero,
            send_low: late_one,
            send_high: late_one,
            remote_level: late_zero,
            remote_low: late_one,
            remote_high: late_one,
            remote_lp_coef: Smoothed::new(f, Single(ONE), Single(REMOTE_TAU), sample_rate),
            remote_sh: [sh;9],
        };
        proof {
            let goal = idle_late(g, sample_rate);
            assert(late.remote_sh@ =~= goal.remote_sh@);
            assert(late.remote_sh == goal.remote_sh);
            assert(late == goal);
        }
        let head: Smoothed = Smoothed::new(f, Single(0), Single(HEAD_TAU), sample_rate);
        let has_grid: bool = grid.is_some();
        let conv_taps: usize = match &grid {
            Some(g) => g.taps,
            None => 1,
        };
        let mut units: Vec<TapUnit> = Vec::new();
        while units.len() < MAX_TAPS
            invariant
                is_steady(*f),
                g == answering(*f),
                units@.len() <= MAX_TAPS,
                forall|i: int|
                    0 <= i < units@.len() ==> (#[trigger] units@[i])@ == (Unit {
                        lp: OnePoleLp::still(),
                        eq: TapEq::still(),
                        conv: Conv::fresh(g, conv_taps as nat, sample_rate),
                    }),
            decreases MAX_TAPS - units@.len(),
        {
            units.push(
                TapUnit {
                    lp: OnePoleLp { state: Single(0) },
                    eq: TapEq {
                        lp_low: OnePoleLp { state: Single(0) },
                        lp_high: OnePoleLp { state: Single(0) },
                    },
                    conv: PointConv::new(f, conv_taps, sample_rate),
                },
            );
        }
        let none: Frame = [Single(0);9];
        assert(none@ =~= quiet()@);
        assert(none == quiet());
        let mut fdn_dirs: [Frame; 8] = [none;8];
        let mut i: usize = 0;
        while i < 8
            invariant
                i <= 8,
                is_steady(*f),
                g == answering(*f),
                fdn_dirs@.len() == 8,
                forall|j: int| 0 <= j < i ==> #[trigger] fdn_dirs@[j] == encoded(g, corner(g, j)),
            decreases 8 - i,
        {
            fdn_dirs[i] = encode_gains(f, corner_of(f, i));
            i = i + 1;
        }
        let len: Single = times(f, sample_rate, Single(LINE_S));
        let src_line: DelayLine = DelayLine::new(len.to_usize());
        proof {
            lemma_four(src_line@.len(), len.truncated(usize::MAX as nat));
        }
        let c_low: Single = OnePoleLp::coef(f, Single(LOW_SHELF_HZ), sample_rate);
        let c_high: Single = OnePoleLp::coef(f, Single(HIGH_SHELF_HZ), sample_rate);
        let ms: Single = times(f, Single(RETARGET_MS), Single(MILLI));
        let r: Renderer = Renderer {
            grid,
            pool: TapPool::with_grid(has_grid, blank, late, head),
            src_line,
            units,
            fdn: Fdn::new(f, sample_rate),
            send_eq: TapEq {
                lp_low: OnePoleLp { state: Single(0) },
                lp_high: OnePoleLp { state: Single(0) },
            },
            remote_fdn: Fdn::new(f, sample_rate),
            remote_eq: TapEq {
                lp_low: OnePoleLp { state: Single(0) },
                lp_high: OnePoleLp { state: Single(0) },
            },
            remote_lp: OnePoleLp { state: Single(0) },
            remote_spread: [none;8],
            fdn_dirs,
            c_low,
            c_high,
            sample_rate,
            retarget_thresh: times(f, ms, sample_rate),
        };
        r
    }

    /// The renderer with the head on its way to a yaw.
    pub open spec fn faced(self, yaw: Single) -> Renderer {
        Renderer {
            pool: TapPool { head_yaw: self.pool.head_yaw.towards(yaw), ..self.pool },
            ..self
        }
    }

    pub fn set_head_yaw(&mut self, yaw: Single)
        requires
            old(self).wf(),
        ensures
            final(self).wf(),
            *final(self) == old(self).faced(yaw),
    {
        self.pool.set_head_yaw(yaw);
    }

    /// The renderer with another budget of point-rendered paths.
    pub open spec fn budgeted(self, n: usize) -> Renderer {
        Renderer { pool: TapPool { point_budget: n, ..self.pool }, ..self }
    }

    /// Set how many of the strongest paths are point-rendered, from the next
    /// block on.
    pub fn set_point_budget(&mut self, n: usize)
        requires
            old(self).wf(),
        ensures
            final(self).wf(),
            *final(self) == old(self).budgeted(n),
    {
        self.pool.set_point_budget(n);
    }
}

/// What the targets of the selected taps are chosen from.
pub open spec fn all_measured(f: Calc, pb: ParamBlock, sel: Selection, sample_rate: Single) -> Seq<
    TapMeasures,
> {
    Seq::new(
        sel.incoming@.len(),
        |n: int| measured(f, pb.taps@[sel.incoming@[n] as int], sample_rate),
    )
}

impl Renderer {
    /// Which of the selected taps are near the delay last heard for their path.
    pub open spec fn nears(self, f: Calc, pb: ParamBlock, sel: Selection) -> Seq<bool> {
        let ms = all_measured(f, pb, sel, self.sample_rate);
        Seq::new(
            sel.incoming@.len(),
            |n: int|
                is_near(
                    f,
                    heard(
                        self.pool.taps@,
                        pb.taps@,
                        sel.incoming@,
                        ms,
                        pb.taps@[sel.incoming@[n] as int].key,
                        n,
                    ),
                    ms[n].delay,
                    self.retarget_thresh,
                ),
        )
    }

    /// The orders that a selection amounts to.
    pub open spec fn orders(self, f: Calc, pb: ParamBlock, sel: Selection) -> Seq<TapOrder> {
        orders_of(
            self.grid is Some,
            pb.taps@,
            sel,
            all_measured(f, pb, sel, self.sample_rate),
            self.nears(f, pb, sel),
        )
    }

    /// The pool, its filters and the late field took the selection over.
    pub open spec fn took(self, f: Calc, pb: ParamBlock, sel: Selection, now: Renderer) -> bool {
        let orders = self.orders(f, pb, sel);
        let pool = swept(self.pool.taps@, orders);
        let first = self.pool.first_params;
        let n = orders.len() as int;
        &&& self.pool.is_selection(pb, sel)
        &&& now.pool.taps@ == placed_all(pool, orders, first, n)
        &&& units_of(now.units@) == units_placed(
            f,
            self.grid,
            self.pool.head_yaw.target,
            units_of(self.units@),
            orders,
            placements(pool, orders, first),
            n,
        )
        &&& now.pool.late == self.pool.late.after(pb, late_measured(f, pb, self.sample_rate))
        &&& now.pool.version_seen == pb.version
        &&& !now.pool.first_params
    }

    /// What no block changes.
    pub open spec fn keeps(self, now: Renderer) -> bool {
        &&& now.grid == self.grid
        &&& now.pool.has_grid == self.pool.has_grid
        &&& now.pool.head_yaw == self.pool.head_yaw
        &&& now.pool.point_budget == self.pool.point_budget
        &&& now.pool.reselect_countdown == self.pool.reselect_countdown
        &&& now.pool.mute_taps == self.pool.mute_taps
        &&& now.pool.mute_own_fdn == self.pool.mute_own_fdn
        &&& now.pool.mute_remote == self.pool.mute_remote
        &&& now.src_line == self.src_line
        &&& now.send_eq == self.send_eq
        &&& now.remote_eq == self.remote_eq
        &&& now.remote_lp == self.remote_lp
        &&& now.remote_spread == self.remote_spread
        &&& now.fdn_dirs == self.fdn_dirs
        &&& now.c_low == self.c_low
        &&& now.c_high == self.c_high
        &&& now.sample_rate == self.sample_rate
        &&& now.retarget_thresh == self.retarget_thresh
    }

    /// Measure the selected taps, and which of them are near the delay last
    /// heard for their path.
    fn survey<F: Fn(Op) -> Single>(&self, f: &F, pb: &ParamBlock, sel: &Selection) -> (r: (
        Vec<TapMeasures>,
        Vec<bool>,
    ))
        requires
            is_steady(*f),
            self.pool.is_selection(*pb, *sel),
        ensures
            r.0@ == all_measured(answering(*f), *pb, *sel, self.sample_rate),
            r.1@ == self.nears(answering(*f), *pb, *sel),
    {
        let ghost g = answering(*f);
        let ghost goal = all_measured(g, *pb, *sel, self.sample_rate);
        let mut ms: Vec<TapMeasures> = Vec::new();
        let mut n: usize = 0;
        while n < sel.incoming.len()
            invariant
                n <= sel.incoming@.len(),
                is_steady(*f),
                g == answering(*f),
                goal == all_measured(g, *pb, *sel, self.sample_rate),
                forall|m: int|
                    0 <= m < sel.incoming@.len() ==> #[trigger] sel.incoming@[m] < pb.taps@.len(),
                ms@ == goal.take(n as int),
            decreases sel.incoming@.len() - n,
        {
            ms.push(measure(f, &pb.taps[sel.incoming[n]], self.sample_rate));
            n = n + 1;
            assert(ms@ =~= goal.take(n as int));
        }
        assert(ms@ =~= goal);
        let ghost want = self.nears(g, *pb, *sel);
        let mut near: Vec<bool> = Vec::new();
        let mut n: usize = 0;
        while n < sel.incoming.len()
            invariant
                n <= sel.incoming@.len(),
                is_steady(*f),
                g == answering(*f),
                self.pool.is_selection(*pb, *sel),
                ms@ == all_measured(g, *pb, *sel, self.sample_rate),
                want == self.nears(g, *pb, *sel),
                near@ == want.take(n as int),
            decreases sel.incoming@.len() - n,
        {
            let close: bool = match self.pool.heard_delay(pb, sel, &ms, n) {
                Some(h) => size_of(minus(f, h, ms[n].delay)).lt(self.retarget_thresh),
                None => false,
            };
            near.push(close);
            n = n + 1;
            assert(near@ =~= want.take(n as int));
        }
        assert(near@ =~= want);
        (ms, near)
    }

    /// `now` is the renderer after a block; one that was seen changes nothing.
    pub open spec fn retargeted(self, f: Calc, pb: ParamBlock, now: Renderer) -> bool {
        &&& self.keeps(now)
        &&& pb.version == self.pool.version_seen ==> now == self
        &&& pb.version != self.pool.version_seen ==> {
            &&& exists|sel: Selection| #[trigger] self.took(f, pb, sel, now)
            &&& decays(f, self.fdn, now.fdn, pb.reverb.rt60@[1], pb.reverb.rt60@[2])
            &&& match pb.remote {
                Some(r) => decays(f, self.remote_fdn, now.remote_fdn, r.rt60@[1], r.rt60@[2]),
                None => now.remote_fdn == self.remote_fdn,
            }
        }
    }

    /// Take a new block over.
    pub fn set_params<F: Fn(Op) -> Single>(&mut self, f: &F, pb: &ParamBlock)
        requires
            is_steady(*f),
            old(self).wf(),
        ensures
            final(self).wf(),
            old(self).retargeted(answering(*f), *pb, *final(self)),
    {
        let sel: Selection = match self.pool.select(pb) {
            Some(sel) => sel,
            None => {
                return;
            },
        };
        let ghost g = answering(*f);
        let ghost was = *self;
        let (ms, near) = self.survey(f, pb, &sel);
        let late: LateMeasures = measure_late(f, pb, self.sample_rate);
        let yaw: Single = self.pool.head_yaw.target_val();
        let where_to: Vec<Placement> = self.pool.set_params(pb, &sel, &ms, &near, &late);
        let ghost orders = was.orders(g, *pb, sel);
        let ghost u0 = units_of(was.units@);
        let ghost goal = units_placed(g, was.grid, yaw, u0, orders, where_to@, orders.len() as int);
        let ghost pool = self.pool;
        let mut n: usize = 0;
        while n < where_to.len()
            invariant
                n <= where_to@.len(),
                is_steady(*f),
                g == answering(*f),
                was.wf(),
                orders == was.orders(g, *pb, sel),
                orders.len() == where_to@.len(),
                orders.len() == sel.incoming@.len(),
                forall|m: int|
                    0 <= m < sel.incoming@.len() ==> #[trigger] sel.incoming@[m] < pb.taps@.len(),
                forall|m: int|
                    0 <= m < where_to@.len() ==> (#[trigger] where_to@[m] matches Placement::Started(j)
                        ==> j < MAX_TAPS),
                *self == (Renderer { pool: self.pool, units: self.units, ..was }),
                self.pool == pool,
                self.units@.len() == MAX_TAPS,
                u0 == units_of(was.units@),
                units_of(self.units@) == units_placed(g, was.grid, yaw, u0, orders, where_to@, n as int),
                are_units(self.grid, units_of(self.units@)),
            decreases where_to@.len() - n,
        {
            let ghost before = units_of(self.units@);
            match where_to[n] {
                Placement::Started(j) => {
                    assert(where_to@[n as int] matches Placement::Started(jj) ==> jj < MAX_TAPS);
                    assert(before[j as int] == self.units@[j as int]@);
                    self.units[j].lp = OnePoleLp { state: Single(0) };
                    self.units[j].eq = TapEq {
                        lp_low: OnePoleLp { state: Single(0) },
                        lp_high: OnePoleLp { state: Single(0) },
                    };
                    let t: Tap = pb.taps[sel.incoming[n]];
                    let wanted: bool = sel.is_point(t.key);
                    if wanted {
                        if let Some(grid) = &self.grid {
                            let idx: usize = grid.nearest(f, rotate_dir(f, t.dir, yaw));
                            self.units[j].conv.reset(idx);
                        }
                    }
                    let ghost u = unit_started(g, was.grid, yaw, before[j as int], orders[n as int]);
                    assert(self.units@[j as int]@ == u);
                    assert(units_of(self.units@) =~= before.update(j as int, u));
                },
                _ => {},
            }
            n = n + 1;
        }
        self.fdn.set_rt60(f, pb.reverb.rt60[1], pb.reverb.rt60[2]);
        if let Some(r) = &pb.remote {
            self.remote_fdn.set_rt60(f, r.rt60[1], r.rt60[2]);
        }
        assert(was.took(g, *pb, sel, *self));
    }
}

/// The smoothers one sample on.
pub open spec fn all_ticked(f: Calc, g: [Smoothed; 9]) -> [Smoothed; 9] {
    [
        g@[0].ticked(f),
        g@[1].ticked(f),
        g@[2].ticked(f),
        g@[3].ticked(f),
        g@[4].ticked(f),
        g@[5].ticked(f),
        g@[6].ticked(f),
        g@[7].ticked(f),
        g@[8].ticked(f),
    ]
}

/// Where the smoothers are now.
pub open spec fn all_current(g: [Smoothed; 9]) -> Frame {
    [
        g@[0].cur,
        g@[1].cur,
        g@[2].cur,
        g@[3].cur,
        g@[4].cur,
        g@[5].cur,
        g@[6].cur,
        g@[7].cur,
        g@[8].cur,
    ]
}

fn tick_all<F: Fn(Op) -> Single>(f: &F, g: &mut [Smoothed; 9]) -> (r: Frame)
    requires
        is_steady(*f),
    ensures
        *final(g) == all_ticked(answering(*f), *old(g)),
        r == all_current(*final(g)),
{
    let ghost g0 = *g;
    let mut k: usize = 0;
    while k < 9
        invariant
            k <= 9,
            is_steady(*f),
            g@.len() == 9,
            g0@.len() == 9,
            forall|j: int| 0 <= j < k ==> #[trigger] g@[j] == g0@[j].ticked(answering(*f)),
            forall|j: int| k <= j < 9 ==> #[trigger] g@[j] == g0@[j],
        decreases 9 - k,
    {
        let _ = g[k].tick(f);
        k = k + 1;
    }
    assert(g@ =~= all_ticked(answering(*f), g0)@);
    let r: Frame = [
        g[0].cur,
        g[1].cur,
        g[2].cur,
        g[3].cur,
        g[4].cur,
        g[5].cur,
        g[6].cur,
        g[7].cur,
        g[8].cur,
    ];
    assert(r@ =~= all_current(*g)@);
    r
}

/// What every slot is played with.
pub ghost struct Stage {
    /// The source's past, newest first.
    pub line: Seq<Single>,
    pub grid: Option<Arc<HrirGrid>>,
    pub c_low: Single,
    pub c_high: Single,
}

/// A slot whose gains and delay moved one sample on.
pub open spec fn tap_moved(f: Calc, tap: TapState) -> TapState {
    TapState {
        delay: tap.delay.ticked(f),
        g_low: tap.g_low.ticked(f),
        g_high: tap.g_high.ticked(f),
        g_sh: all_ticked(f, tap.g_sh),
        ..tap
    }
}

/// A slot adds something: it is in use and, moved on, not too quiet.
pub open spec fn is_audible(f: Calc, tap: TapState) -> bool {
    !tap.is_free() && !size(tap_moved(f, tap).g_sh@[0].cur).below(Single(INAUDIBLE))
}

/// A slot after one sample. One that is not in use stands still; the lowpass
/// of one too quiet to be heard stands still.
pub open spec fn tap_after(f: Calc, tap: TapState) -> TapState {
    if tap.is_free() {
        tap
    } else if is_audible(f, tap) {
        TapState { lp_coef: tap.lp_coef.ticked(f), ..tap_moved(f, tap) }
    } else {
        tap_moved(f, tap)
    }
}

/// The delayed sample of an audible slot, behind the wall.
pub open spec fn through(f: Calc, st: Stage, tap: TapState, u: Unit) -> OnePoleLp {
    u.lp.next(
        f,
        read_of(f, st.line, tap_moved(f, tap).delay.cur),
        tap.lp_coef.ticked(f).cur,
    )
}

/// The sample of an audible slot with its tone.
pub open spec fn toned(f: Calc, st: Stage, tap: TapState, u: Unit) -> Single {
    let m = tap_moved(f, tap);
    u.eq.shaped(
        f,
        through(f, st, tap, u).state,
        m.g_low.cur,
        m.g_high.cur,
        st.c_low,
        st.c_high,
    )
}

/// A slot is heard through a response of its own.
pub open spec fn is_point(st: Stage, tap: TapState) -> bool {
    tap.point && st.grid is Some
}

/// What a point-rendered slot is convolved with.
pub open spec fn point_sample(f: Calc, st: Stage, tap: TapState, u: Unit) -> Single {
    prod(
        f,
        prod(f, toned(f, st, tap, u), tap_moved(f, tap).g_sh@[0].cur),
        Single(POINT_GAIN),
    )
}

/// The filters of a slot after one sample.
pub open spec fn unit_after(f: Calc, st: Stage, tap: TapState, u: Unit) -> Unit {
    if is_audible(f, tap) {
        Unit {
            lp: through(f, st, tap, u),
            eq: u.eq.next(
                f,
                through(f, st, tap, u).state,
                tap_moved(f, tap).g_low.cur,
                st.c_low,
                st.c_high,
            ),
            conv: if is_point(st, tap) {
                u.conv.next(f, point_sample(f, st, tap, u))
            } else {
                u.conv
            },
        }
    } else {
        u
    }
}

/// What came out of the first slots.
#[verifier::ext_equal]
pub ghost struct Heard {
    pub bus: Frame,
    pub left: Single,
    pub right: Single,
}

impl Heard {
    /// With one more slot.
    pub open spec fn and(self, f: Calc, st: Stage, tap: TapState, u: Unit) -> Heard {
        if !is_audible(f, tap) {
            self
        } else if is_point(st, tap) {
            let s = point_sample(f, st, tap, u);
            Heard {
                left: sum(f, self.left, u.conv.left(f, *st.grid->0, s)),
                right: sum(f, self.right, u.conv.right(f, *st.grid->0, s)),
                ..self
            }
        } else {
            Heard {
                bus: mixed(f, self.bus, toned(f, st, tap, u), all_current(tap_moved(f, tap).g_sh)),
                ..self
            }
        }
    }
}

/// What comes out of the first `n` slots.
pub open spec fn heard_of(
    f: Calc,
    st: Stage,
    taps: Seq<TapState>,
    units: Seq<Unit>,
    start: Heard,
    n: int,
) -> Heard
    decreases n,
{
    if n <= 0 {
        start
    } else {
        heard_of(f, st, taps, units, start, n - 1).and(f, st, taps[n - 1], units[n - 1])
    }
}

/// The slots after one sample.
pub open spec fn taps_after(f: Calc, taps: Seq<TapState>) -> Seq<TapState> {
    Seq::new(taps.len(), |i: int| tap_after(f, taps[i]))
}

/// The filters after one sample.
pub open spec fn units_after(f: Calc, st: Stage, taps: Seq<TapState>, units: Seq<Unit>) -> Seq<Unit> {
    Seq::new(units.len(), |i: int| unit_after(f, st, taps[i], units[i]))
}

/// The filters after a new choice of responses under the head's yaw.
pub open spec fn units_turned(
    f: Calc,
    grid: Option<Arc<HrirGrid>>,
    psi: Single,
    taps: Seq<TapState>,
    units: Seq<Unit>,
) -> Seq<Unit> {
    match grid {
        Some(g) => Seq::new(
            units.len(),
            |i: int|
                if taps[i].point && taps[i].key is Some {
                    Unit {
                        conv: units[i].conv.turned(f, *g, yawed_dir(f, taps[i].base_dir, psi)),
                        ..units[i]
                    }
                } else {
                    units[i]
                },
        ),
        None => units,
    }
}

/// Lines added to the bus, each at its direction and at a common level.
pub open spec fn poured(
    f: Calc,
    bus: Frame,
    lines: Lines,
    level: Single,
    dirs: Seq<Frame>,
    n: int,
) -> Frame
    decreases n,
{
    if n <= 0 {
        bus
    } else {
        mixed(
            f,
            poured(f, bus, lines, level, dirs, n - 1),
            prod(f, lines@[n - 1], level),
            dirs[n - 1],
        )
    }
}

fn pour<F: Fn(Op) -> Single>(f: &F, bus: &mut Frame, lines: &Lines, level: Single, dirs: &[Frame; 8])
    requires
        is_steady(*f),
    ensures
        *final(bus) == poured(answering(*f), *old(bus), *lines, level, dirs@, 8),
{
    let mut i: usize = 0;
    while i < 8
        invariant
            i <= 8,
            is_steady(*f),
            dirs@.len() == 8,
            *bus == poured(answering(*f), *old(bus), *lines, level, dirs@, i as int),
        decreases 8 - i,
    {
        mix(f, bus, times(f, lines[i], level), &dirs[i]);
        i = i + 1;
    }
}

/// The late field's smoothers one sample on.
pub open spec fn late_ticked(f: Calc, l: LateField) -> LateField {
    LateField {
        fdn_level: l.fdn_level.ticked(f),
        send_low: l.send_low.ticked(f),
        send_high: l.send_high.ticked(f),
        remote_level: l.remote_level.ticked(f),
        remote_low: l.remote_low.ticked(f),
        remote_high: l.remote_high.ticked(f),
        remote_lp_coef: l.remote_lp_coef.ticked(f),
        remote_sh: all_ticked(f, l.remote_sh),
    }
}

impl Renderer {
    /// What every slot is played with once `x` was written.
    pub open spec fn stage(self, x: Single) -> Stage {
        Stage {
            line: pushed(self.src_line@, x),
            grid: self.grid,
            c_low: self.c_low,
            c_high: self.c_high,
        }
    }

    /// It is time to choose the responses anew.
    pub open spec fn is_due(self) -> bool {
        self.pool.reselect_countdown == 0
    }

    /// The head's yaw at this sample.
    pub open spec fn psi(self, f: Calc) -> Single {
        self.pool.head_yaw.ticked(f).cur
    }

    /// The filters that this sample is played with.
    pub open spec fn units_now(self, f: Calc) -> Seq<Unit> {
        if self.is_due() {
            units_turned(f, self.grid, self.psi(f), self.pool.taps@, units_of(self.units@))
        } else {
            units_of(self.units@)
        }
    }

    /// The directions of the remote lines at this sample.
    pub open spec fn spread_now(self, f: Calc) -> Seq<Frame> {
        Seq::new(
            8,
            |i: int|
                if self.is_due() {
                    yawed(f, all_current(self.pool.late.remote_sh), spread_angle(i))
                } else {
                    self.remote_spread@[i]
                },
        )
    }

    /// What comes out of the slots.
    pub open spec fn taps_heard(self, f: Calc, x: Single, bus: Frame) -> Heard {
        let start = Heard { bus, left: Single(0), right: Single(0) };
        if self.pool.mute_taps {
            start
        } else {
            heard_of(
                f,
                self.stage(x),
                self.pool.taps@,
                self.units_now(f),
                start,
                MAX_TAPS as int,
            )
        }
    }

    /// What goes into the room's own network.
    pub open spec fn wet_in(self, f: Calc, x: Single) -> Single {
        let l = late_ticked(f, self.pool.late);
        self.send_eq.shaped(
            f,
            prod(f, x, l.fdn_level.cur),
            l.send_low.cur,
            l.send_high.cur,
            self.c_low,
            self.c_high,
        )
    }

    /// The remote send behind its lowpass.
    pub open spec fn remote_pre(self, f: Calc, x: Single) -> OnePoleLp {
        let l = late_ticked(f, self.pool.late);
        self.remote_lp.next(f, prod(f, x, l.remote_level.cur), l.remote_lp_coef.cur)
    }

    /// What goes into the remote network.
    pub open spec fn remote_in(self, f: Calc, x: Single) -> Single {
        let l = late_ticked(f, self.pool.late);
        self.remote_eq.shaped(
            f,
            self.remote_pre(f, x).state,
            l.remote_low.cur,
            l.remote_high.cur,
            self.c_low,
            self.c_high,
        )
    }

    /// The bus with both late fields.
    pub open spec fn late_mixed(self, f: Calc, bus: Frame, spread: Seq<Frame>) -> Frame {
        poured(
            f,
            poured(f, bus, self.remote_fdn.outs(f), Single(REMOTE_LEVEL), spread, 8),
            self.fdn.outs(f),
            Single(HALF),
            self.fdn_dirs@,
            8,
        )
    }

    /// The slots and their filters moved on with this sample.
    pub open spec fn taps_stepped(self, f: Calc, x: Single, now: Renderer) -> bool {
        if self.pool.mute_taps {
            &&& now.pool.taps@ == self.pool.taps@
            &&& units_of(now.units@) == self.units_now(f)
        } else {
            &&& now.pool.taps@ == taps_after(f, self.pool.taps@)
            &&& units_of(now.units@) == units_after(
                f,
                self.stage(x),
                self.pool.taps@,
                self.units_now(f),
            )
        }
    }

    /// The late fields moved on with this sample.
    pub open spec fn late_stepped(self, f: Calc, x: Single, now: Renderer) -> bool {
        let l = late_ticked(f, self.pool.late);
        &&& now.pool.late == l
        &&& now.send_eq == self.send_eq.next(
            f,
            prod(f, x, l.fdn_level.cur),
            l.send_low.cur,
            self.c_low,
            self.c_high,
        )
        &&& now.remote_lp == self.remote_pre(f, x)
        &&& now.remote_eq == self.remote_eq.next(
            f,
            self.remote_pre(f, x).state,
            l.remote_low.cur,
            self.c_low,
            self.c_high,
        )
        &&& self.fdn.stepped(
            f,
            if self.pool.mute_own_fdn {
                Single(0)
            } else {
                self.wet_in(f, x)
            },
            now.fdn,
        )
        &&& self.remote_fdn.stepped(
            f,
            if self.pool.mute_remote {
                Single(0)
            } else {
                self.remote_in(f, x)
            },
            now.remote_fdn,
        )
    }

    /// What a sample leaves alone.
    pub open spec fn stays(self, now: Renderer) -> bool {
        &&& now.grid == self.grid
        &&& now.pool.has_grid == self.pool.has_grid
        &&& now.pool.point_budget == self.pool.point_budget
        &&& now.pool.version_seen == self.pool.version_seen
        &&& now.pool.first_params == self.pool.first_params
        &&& now.pool.mute_taps == self.pool.mute_taps
        &&& now.pool.mute_own_fdn == self.pool.mute_own_fdn
        &&& now.pool.mute_remote == self.pool.mute_remote
        &&& now.fdn_dirs == self.fdn_dirs
        &&& now.c_low == self.c_low
        &&& now.c_high == self.c_high
        &&& now.sample_rate == self.sample_rate
        &&& now.retarget_thresh == self.retarget_thresh
    }

    /// `now` is the renderer after the sample `x`.
    pub open spec fn stepped(self, f: Calc, x: Single, now: Renderer) -> bool {
        &&& self.stays(now)
        &&& now.src_line@ == pushed(self.src_line@, x)
        &&& now.pool.head_yaw == self.pool.head_yaw.ticked(f)
        &&& now.pool.reselect_countdown == (if self.is_due() {
            (RESELECT_SAMPLES - 1) as u32
        } else {
            (self.pool.reselect_countdown - 1) as u32
        })
        &&& now.remote_spread@ == self.spread_now(f)
        &&& self.taps_stepped(f, x, now)
        &&& self.late_stepped(f, x, now)
    }

    /// The bus after the sample `x`.
    pub open spec fn bus_after(self, f: Calc, x: Single, bus: Frame) -> Frame {
        self.late_mixed(f, self.taps_heard(f, x, bus).bus, self.spread_now(f))
    }

    /// Choose the responses of point-rendered paths anew.
    fn reselect<F: Fn(Op) -> Single>(&mut self, f: &F, psi: Single)
        requires
            is_steady(*f),
            old(self).wf(),
        ensures
            final(self).wf(),
            *final(self) == (Renderer { units: final(self).units, ..*old(self) }),
            units_of(final(self).units@) == units_turned(
                answering(*f),
                old(self).grid,
                psi,
                old(self).pool.taps@,
                units_of(old(self).units@),
            ),
    {
        let ghost g = answering(*f);
        let ghost was = *self;
        let ghost goal = units_turned(g, was.grid, psi, was.pool.taps@, units_of(was.units@));
        if let Some(grid) = &self.grid {
            let mut i: usize = 0;
            while i < self.units.len()
                invariant
                    i <= self.units@.len(),
                    is_steady(*f),
                    g == answering(*f),
                    was.wf(),
                    *self == (Renderer { units: self.units, ..was }),
                    self.grid == Some(*grid),
                    self.units@.len() == MAX_TAPS,
                    self.pool.taps@.len() == MAX_TAPS,
                    goal == units_turned(g, was.grid, psi, was.pool.taps@, units_of(was.units@)),
                    forall|j: int| 0 <= j < i ==> (#[trigger] self.units@[j])@ == goal[j],
                    forall|j: int| i <= j < MAX_TAPS ==> #[trigger] self.units@[j] == was.units@[j],
                    are_units(self.grid, units_of(self.units@)),
                decreases self.units@.len() - i,
            {
                let ghost before = units_of(self.units@);
                assert(before[i as int] == self.units@[i as int]@);
                assert(before[i as int].conv.fits(**grid));
                if self.pool.reselects(i) {
                    let dir: [Single; 3] = rotate_dir(f, self.pool.taps[i].base_dir, psi);
                    self.units[i].conv.set_dir(f, grid, dir);
                }
                assert(self.units@[i as int]@ == goal[i as int]);
                assert(units_of(self.units@) =~= before.update(i as int, goal[i as int]));
                i = i + 1;
            }
            assert(units_of(self.units@) =~= goal);
        }
    }

    /// Play every slot.
    fn play_taps<F: Fn(Op) -> Single>(&mut self, f: &F, bus: &mut Frame) -> (r: (Single, Single))
        requires
            is_steady(*f),
            old(self).wf(),
        ensures
            final(self).wf(),
            *final(self) == (Renderer {
                units: final(self).units,
                pool: TapPool { taps: final(self).pool.taps, ..old(self).pool },
                ..*old(self)
            }),
            ({
                let st = Stage {
                    line: old(self).src_line@,
                    grid: old(self).grid,
                    c_low: old(self).c_low,
                    c_high: old(self).c_high,
                };
                let taps = old(self).pool.taps@;
                let units = units_of(old(self).units@);
                let start = Heard { bus: *old(bus), left: Single(0), right: Single(0) };
                &&& final(self).pool.taps@ == taps_after(answering(*f), taps)
                &&& units_of(final(self).units@) == units_after(answering(*f), st, taps, units)
                &&& (Heard { bus: *final(bus), left: r.0, right: r.1 }) == heard_of(
                    answering(*f),
                    st,
                    taps,
                    units,
                    start,
                    MAX_TAPS as int,
                )
            }),
    {
        let ghost g = answering(*f);
        let ghost was = *self;
        let ghost st = Stage {
            line: self.src_line@,
            grid: self.grid,
            c_low: self.c_low,
            c_high: self.c_high,
        };
        let ghost taps0 = self.pool.taps@;
        let ghost units0 = units_of(self.units@);
        let ghost start = Heard { bus: *bus, left: Single(0), right: Single(0) };
        let mut pl: Single = Single(0);
        let mut pr: Single = Single(0);
        let mut i: usize = 0;
        while i < MAX_TAPS
            invariant
                i <= MAX_TAPS,
                is_steady(*f),
                g == answering(*f),
                was.wf(),
                was == *old(self),
                *self == (Renderer {
                    units: self.units,
                    pool: TapPool { taps: self.pool.taps, ..was.pool },
                    ..was
                }),
                st == (Stage {
                    line: was.src_line@,
                    grid: was.grid,
                    c_low: was.c_low,
                    c_high: was.c_high,
                }),
                taps0 == was.pool.taps@,
                units0 == units_of(was.units@),
                self.units@.len() == MAX_TAPS,
                self.pool.taps@.len() == MAX_TAPS,
                forall|j: int| 0 <= j < i ==> #[trigger] self.pool.taps@[j] == tap_after(g, taps0[j]),
                forall|j: int|
                    0 <= j < i ==> (#[trigger] self.units@[j])@ == unit_after(
                        g,
                        st,
                        taps0[j],
                        units0[j],
                    ),
                forall|j: int| i <= j < MAX_TAPS ==> #[trigger] self.pool.taps@[j] == taps0[j],
                forall|j: int| i <= j < MAX_TAPS ==> (#[trigger] self.units@[j])@ == units0[j],
                are_units(self.grid, units_of(self.units@)),
                (Heard { bus: *bus, left: pl, right: pr }) == heard_of(
                    g,
                    st,
                    taps0,
                    units0,
                    start,
                    i as int,
                ),
            decreases MAX_TAPS - i,
        {
            let ghost before = units_of(self.units@);
            let ghost tap = taps0[i as int];
            let ghost u = units0[i as int];
            assert(self.pool.taps@[i as int] == tap);
            assert(self.units@[i as int]@ == u);
            assert(before[i as int] == u);
            if !self.pool.taps[i].free() {
                let d: Single = self.pool.taps[i].delay.tick(f);
                let gl: Single = self.pool.taps[i].g_low.tick(f);
                let gh: Single = self.pool.taps[i].g_high.tick(f);
                let g_sh: Frame = tick_all(f, &mut self.pool.taps[i].g_sh);
                assert(self.pool.taps@[i as int] == tap_moved(g, tap));
                if !size_of(g_sh[0]).lt(Single(INAUDIBLE)) {
                    assert(is_audible(g, tap));
                    let s: Single = self.src_line.read(f, d);
                    let c: Single = self.pool.taps[i].lp_coef.tick(f);
                    let shaped: Single = self.units[i].lp.tick(f, s, c);
                    let tone: Single = self.units[i].eq.tick(
                        f,
                        shaped,
                        gl,
                        gh,
                        self.c_low,
                        self.c_high,
                    );
                    assert(tone == toned(g, st, tap, u));
                    let mut pointed: bool = false;
                    if self.pool.taps[i].point {
                        if let Some(grid) = &self.grid {
                            let x: Single = times(f, times(f, tone, g_sh[0]), Single(POINT_GAIN));
                            assert(before[i as int].conv.fits(**grid));
                            let (l, r) = self.units[i].conv.process(f, grid, x);
                            pl = plus(f, pl, l);
                            pr = plus(f, pr, r);
                            pointed = true;
                        }
                    }
                    if !pointed {
                        mix(f, bus, tone, &g_sh);
                    }
                }
            }
            assert(self.pool.taps@[i as int] == tap_after(g, tap));
            assert(self.units@[i as int]@ == unit_after(g, st, tap, u));
            assert(units_of(self.units@) =~= before.update(i as int, unit_after(g, st, tap, u)));
            i = i + 1;
        }
        assert(self.pool.taps@ =~= taps_after(g, taps0));
        assert(units_of(self.units@) =~= units_after(g, st, taps0, units0));
        proof {
            lemma_keys_stay(g, taps0);
        }
        (pl, pr)
    }

    /// Take the sample in and turn the head; every so often choose the
    /// responses and spread the doorway anew.
    fn begin<F: Fn(Op) -> Single>(&mut self, f: &F, x: Single)
        requires
            is_steady(*f),
            old(self).wf(),
        ensures
            final(self).wf(),
            *final(self) == (Renderer {
                src_line: final(self).src_line,
                units: final(self).units,
                remote_spread: final(self).remote_spread,
                pool: TapPool {
                    head_yaw: old(self).pool.head_yaw.ticked(answering(*f)),
                    reselect_countdown: if old(self).is_due() {
                        (RESELECT_SAMPLES - 1) as u32
                    } else {
                        (old(self).pool.reselect_countdown - 1) as u32
                    },
                    ..old(self).pool
                },
                ..*old(self)
            }),
            final(self).src_line@ == pushed(old(self).src_line@, x),
            units_of(final(self).units@) == old(self).units_now(answering(*f)),
            final(self).remote_spread@ == old(self).spread_now(answering(*f)),
    {
        let ghost was = *self;
        self.src_line.write(x);
        let psi: Single = self.pool.head_yaw.tick(f);
        if self.pool.count_sample() {
            self.reselect(f, psi);
            let center: Frame = [
                self.pool.late.remote_sh[0].cur,
                self.pool.late.remote_sh[1].cur,
                self.pool.late.remote_sh[2].cur,
                self.pool.late.remote_sh[3].cur,
                self.pool.late.remote_sh[4].cur,
                self.pool.late.remote_sh[5].cur,
                self.pool.late.remote_sh[6].cur,
                self.pool.late.remote_sh[7].cur,
                self.pool.late.remote_sh[8].cur,
            ];
            assert(center@ =~= all_current(was.pool.late.remote_sh)@);
            assert(center == all_current(was.pool.late.remote_sh));
            self.remote_spread = spread(f, &center);
        }
        assert(self.remote_spread@ =~= was.spread_now(answering(*f)));
    }

    /// Play both late fields.
    fn play_late<F: Fn(Op) -> Single>(&mut self, f: &F, x: Single, bus: &mut Frame)
        requires
            is_steady(*f),
            old(self).wf(),
        ensures
            final(self).wf(),
            *final(self) == (Renderer {
                pool: TapPool { late: final(self).pool.late, ..old(self).pool },
                send_eq: final(self).send_eq,
                fdn: final(self).fdn,
                remote_eq: final(self).remote_eq,
                remote_lp: final(self).remote_lp,
                remote_fdn: final(self).remote_fdn,
                ..*old(self)
            }),
            old(self).late_stepped(answering(*f), x, *final(self)),
            *final(bus) == old(self).late_mixed(
                answering(*f),
                *old(bus),
                old(self).remote_spread@,
            ),
    {
        let ghost was = *self;
        let lv: Single = self.pool.late.fdn_level.tick(f);
        let sl: Single = self.pool.late.send_low.tick(f);
        let sh: Single = self.pool.late.send_high.tick(f);
        let wet: Single = self.send_eq.tick(f, times(f, x, lv), sl, sh, self.c_low, self.c_high);
        let own: Single = if self.pool.mute_own_fdn {
            Single(0)
        } else {
            wet
        };
        let lines: Lines = self.fdn.process(f, own);
        let rl: Single = self.pool.late.remote_level.tick(f);
        let rc: Single = self.pool.late.remote_lp_coef.tick(f);
        let rpre: Single = self.remote_lp.tick(f, times(f, x, rl), rc);
        let rlow: Single = self.pool.late.remote_low.tick(f);
        let rhigh: Single = self.pool.late.remote_high.tick(f);
        let rin: Single = self.remote_eq.tick(f, rpre, rlow, rhigh, self.c_low, self.c_high);
        let remote: Single = if self.pool.mute_remote {
            Single(0)
        } else {
            rin
        };
        let rlines: Lines = self.remote_fdn.process(f, remote);
        let _ = tick_all(f, &mut self.pool.late.remote_sh);
        assert(self.pool.late == late_ticked(answering(*f), was.pool.late));
        pour(f, bus, &rlines, Single(REMOTE_LEVEL), &self.remote_spread);
        pour(f, bus, &lines, Single(HALF), &self.fdn_dirs);
    }

    /// One source sample in. Diffuse content is added to the bus; paths with a
    /// response of their own come back in stereo.
    pub fn process<F: Fn(Op) -> Single>(&mut self, f: &F, x: Single, bus: &mut Frame) -> (r: (
        Single,
        Single,
    ))
        requires
            is_steady(*f),
            old(self).wf(),
        ensures
            final(self).wf(),
            old(self).stepped(answering(*f), x, *final(self)),
            r.0 == old(self).taps_heard(answering(*f), x, *old(bus)).left,
            r.1 == old(self).taps_heard(answering(*f), x, *old(bus)).right,
            *final(bus) == old(self).bus_after(answering(*f), x, *old(bus)),
    {
        let ghost was = *self;
        self.begin(f, x);
        let ghost mid = *self;
        let mut pl: Single = Single(0);
        let mut pr: Single = Single(0);
        if !self.pool.mute_taps {
            let (l, r) = self.play_taps(f, bus);
            pl = l;
            pr = r;
        }
        let ghost played = *self;
        assert(*bus == was.taps_heard(answering(*f), x, *old(bus)).bus);
        self.play_late(f, x, bus);
        (pl, pr)
    }
}

/// The doorway's directions around a center.
fn spread<F: Fn(Op) -> Single>(f: &F, center: &Frame) -> (r: [Frame; 8])
    requires
        is_steady(*f),
    ensures
        forall|i: int|
            0 <= i < 8 ==> #[trigger] r@[i] == yawed(answering(*f), *center, spread_angle(i)),
{
    let angles: Lines = [
        Single(0xBF0C_CCCD),
        Single(0xBEC2_8F5C),
        Single(0xBE61_47AE),
        Single(0xBDA3_D70A),
        Single(0x3DA3_D70A),
        Single(0x3E61_47AE),
        Single(0x3EC2_8F5C),
        Single(0x3F0C_CCCD),
    ];
    let mut r: [Frame; 8] = [*center;8];
    let mut i: usize = 0;
    while i < 8
        invariant
            i <= 8,
            is_steady(*f),
            r@.len() == 8,
            angles@.len() == 8,
            forall|j: int| 0 <= j < 8 ==> #[trigger] angles@[j] == spread_angle(j),
            forall|j: int|
                0 <= j < i ==> #[trigger] r@[j] == yawed(answering(*f), *center, spread_angle(j)),
        decreases 8 - i,
    {
        let mut v: Frame = *center;
        rotate_z(f, &mut v, angles[i]);
        r[i] = v;
        i = i + 1;
    }
    r
}

/// A sample changes no slot's path.
proof fn lemma_keys_stay(f: Calc, taps: Seq<TapState>)
    requires
        crate::pool::keys_are_unique(taps),
    ensures
        crate::pool::keys_are_unique(taps_after(f, taps)),
{
    let now = taps_after(f, taps);
    assert forall|i: int, j: int|
        0 <= i < j < now.len() && (#[trigger] now[i]).key is Some implies now[i].key != (
    #[trigger] now[j]).key by {
        assert(now[i].key == taps[i].key);
        assert(now[j].key == taps[j].key);
    }
}

/// Three samples need a line of four.
proof fn lemma_four(len: nat, min_len: nat)
    requires
        is_capacity(len, min_len),
        min_len >= 3,
    ensures
        len >= 4,
{
    let k = choose|k: nat|
        len == #[trigger] vstd::arithmetic::power2::pow2(k) && (k == 0
            || vstd::arithmetic::power2::pow2((k - 1) as nat) < min_len);
    vstd::arithmetic::power2::lemma2_to64();
    if k > 2 {
        vstd::arithmetic::power2::lemma_pow2_strictly_increases(2, k);
    }
}

/// What the first `n` slots add to channel `k` of the bus.
pub open spec fn taps_added(
    f: Calc,
    st: Stage,
    taps: Seq<TapState>,
    units: Seq<Unit>,
    k: int,
    n: int,
) -> real
    decreases n,
{
    if n <= 0 {
        0real
    } else {
        let rest = taps_added(f, st, taps, units, k, n - 1);
        let (tap, u) = (taps[n - 1], units[n - 1]);
        if is_audible(f, tap) && !is_point(st, tap) {
            rest + value(
                prod(f, toned(f, st, tap, u), all_current(tap_moved(f, tap).g_sh)@[k]),
            )
        } else {
            rest
        }
    }
}

/// Each of the first `n` slots is added to channel `k` of the bus within `e`.
pub open spec fn adds_taps_closely(
    f: Calc,
    st: Stage,
    taps: Seq<TapState>,
    units: Seq<Unit>,
    start: Heard,
    k: int,
    n: int,
    e: real,
) -> bool
    decreases n,
{
    n <= 0 || {
        let (tap, u) = (taps[n - 1], units[n - 1]);
        let before = heard_of(f, st, taps, units, start, n - 1).bus@[k];
        let more = prod(f, toned(f, st, tap, u), all_current(tap_moved(f, tap).g_sh)@[k]);
        &&& adds_taps_closely(f, st, taps, units, start, k, n - 1, e)
        &&& is_audible(f, tap) && !is_point(st, tap) ==> is_close(f, Op::Plus(before, more), e)
    }
}

proof fn lemma_taps_add(
    f: Calc,
    st: Stage,
    taps: Seq<TapState>,
    units: Seq<Unit>,
    start: Heard,
    k: int,
    n: int,
    e: real,
)
    requires
        0 <= k < 9,
        0 <= n,
        e >= 0real,
        adds_taps_closely(f, st, taps, units, start, k, n, e),
    ensures
        is_about(
            value(heard_of(f, st, taps, units, start, n).bus@[k]),
            value(start.bus@[k]) + taps_added(f, st, taps, units, k, n),
            (n as real) * e,
        ),
    decreases n,
{
    if n > 0 {
        lemma_taps_add(f, st, taps, units, start, k, n - 1, e);
        let (x, y) = (n as real, (n - 1) as real);
        assert(x * e == y * e + e) by (nonlinear_arith)
            requires
                x == y + 1real,
        ;
    } else {
        assert(0real * e == 0real);
    }
}

/// What the first `n` lines of a late field add to channel `k`.
pub open spec fn late_added(
    f: Calc,
    outs: Lines,
    level: Single,
    dirs: Seq<Frame>,
    k: int,
    n: int,
) -> real
    decreases n,
{
    if n <= 0 {
        0real
    } else {
        late_added(f, outs, level, dirs, k, n - 1) + value(
            prod(f, prod(f, outs@[n - 1], level), dirs[n - 1]@[k]),
        )
    }
}

/// Each of the first `n` lines of a late field is added to channel `k` within `e`.
pub open spec fn pours_closely(
    f: Calc,
    bus: Frame,
    outs: Lines,
    level: Single,
    dirs: Seq<Frame>,
    k: int,
    n: int,
    e: real,
) -> bool
    decreases n,
{
    n <= 0 || {
        let before = poured(f, bus, outs, level, dirs, n - 1)@[k];
        let more = prod(f, prod(f, outs@[n - 1], level), dirs[n - 1]@[k]);
        &&& pours_closely(f, bus, outs, level, dirs, k, n - 1, e)
        &&& is_close(f, Op::Plus(before, more), e)
    }
}

proof fn lemma_late_adds(
    f: Calc,
    bus: Frame,
    outs: Lines,
    level: Single,
    dirs: Seq<Frame>,
    k: int,
    n: int,
    e: real,
)
    requires
        0 <= k < 9,
        0 <= n,
        e >= 0real,
        pours_closely(f, bus, outs, level, dirs, k, n, e),
    ensures
        is_about(
            value(poured(f, bus, outs, level, dirs, n)@[k]),
            value(bus@[k]) + late_added(f, outs, level, dirs, k, n),
            (n as real) * e,
        ),
    decreases n,
{
    if n > 0 {
        lemma_late_adds(f, bus, outs, level, dirs, k, n - 1, e);
        let (x, y) = (n as real, (n - 1) as real);
        assert(x * e == y * e + e) by (nonlinear_arith)
            requires
                x == y + 1real,
        ;
    } else {
        assert(0real * e == 0real);
    }
}

impl Renderer {
    /// What the sample `x` adds to channel `k` of the bus, whatever is on it.
    pub open spec fn added(self, f: Calc, x: Single, k: int) -> real {
        let taps = if self.pool.mute_taps {
            0real
        } else {
            taps_added(
                f,
                self.stage(x),
                self.pool.taps@,
                self.units_now(f),
                k,
                MAX_TAPS as int,
            )
        };
        taps + late_added(
            f,
            self.remote_fdn.outs(f),
            Single(REMOTE_LEVEL),
            self.spread_now(f),
            k,
            8,
        ) + late_added(f, self.fdn.outs(f), Single(HALF), self.fdn_dirs@, k, 8)
    }

    /// Everything is added to channel `k` within `e`.
    pub open spec fn adds_closely(self, f: Calc, x: Single, bus: Frame, k: int, e: real) -> bool {
        let start = Heard { bus, left: Single(0), right: Single(0) };
        let mid = self.taps_heard(f, x, bus).bus;
        let (far, spread) = (self.remote_fdn.outs(f), self.spread_now(f));
        let late = poured(f, mid, far, Single(REMOTE_LEVEL), spread, 8);
        &&& !self.pool.mute_taps ==> adds_taps_closely(
            f,
            self.stage(x),
            self.pool.taps@,
            self.units_now(f),
            start,
            k,
            MAX_TAPS as int,
            e,
        )
        &&& pours_closely(f, mid, far, Single(REMOTE_LEVEL), spread, k, 8, e)
        &&& pours_closely(f, late, self.fdn.outs(f), Single(HALF), self.fdn_dirs@, k, 8, e)
    }
}

/// A renderer only adds to the bus: what it adds to a channel does not depend on
/// what is there, up to rounding. Where each of the slots and of the sixteen lines
/// is added within `e`, all are within as often `e`.
pub proof fn a_renderer_only_adds_to_the_bus(
    r: Renderer,
    f: Calc,
    x: Single,
    bus: Frame,
    k: int,
    e: real,
)
    requires
        0 <= k < 9,
        e >= 0real,
        r.adds_closely(f, x, bus, k, e),
    ensures
        is_about(
            value(r.bus_after(f, x, bus)@[k]),
            value(bus@[k]) + r.added(f, x, k),
            ((MAX_TAPS + 16) as int as real) * e,
        ),
{
    let start = Heard { bus, left: Single(0), right: Single(0) };
    let mid = r.taps_heard(f, x, bus).bus;
    let (far, spread) = (r.remote_fdn.outs(f), r.spread_now(f));
    let late = poured(f, mid, far, Single(REMOTE_LEVEL), spread, 8);
    if !r.pool.mute_taps {
        lemma_taps_add(
            f,
            r.stage(x),
            r.pool.taps@,
            r.units_now(f),
            start,
            k,
            MAX_TAPS as int,
            e,
        );
    }
    lemma_late_adds(f, mid, far, Single(REMOTE_LEVEL), spread, k, 8, e);
    lemma_late_adds(f, late, r.fdn.outs(f), Single(HALF), r.fdn_dirs@, k, 8, e);
    let (a, b, c) = ((MAX_TAPS + 16) as int as real, MAX_TAPS as int as real, 8int as real);
    assert(a * e == b * e + c * e + c * e && b * e >= 0real) by (nonlinear_arith)
        requires
            a == b + c + c,
            b >= 0real,
            e >= 0real,
    ;
}

proof fn lemma_no_points(
    f: Calc,
    st: Stage,
    taps: Seq<TapState>,
    units: Seq<Unit>,
    start: Heard,
    n: int,
)
    requires
        st.grid is None,
    ensures
        heard_of(f, st, taps, units, start, n).left == start.left,
        heard_of(f, st, taps, units, start, n).right == start.right,
    decreases n,
{
    if n > 0 {
        lemma_no_points(f, st, taps, units, start, n - 1);
    }
}

/// Without measured responses nothing comes out beside the bus.
pub proof fn without_a_grid_all_goes_to_the_bus(r: Renderer, f: Calc, x: Single, bus: Frame)
    requires
        r.grid is None,
    ensures
        r.taps_heard(f, x, bus).left == Single(0),
        r.taps_heard(f, x, bus).right == Single(0),
{
    lemma_no_points(
        f,
        r.stage(x),
        r.pool.taps@,
        r.units_now(f),
        Heard { bus, left: Single(0), right: Single(0) },
        MAX_TAPS as int,
    );
}

} // verus!
