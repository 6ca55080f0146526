//! The outdoor loop, rendered through the environment's inlets: each route
//! plays its own part of the loop, shaped by the route's gains, at its
//! direction; what seeps through the shell plays as four diffuse feeds.

use crate::ambi::{encode_gains, encoded, mix, mixed, Frame};
use crate::arith::{clamp_to, clamped, prod, times, Calc, Op};
use crate::bands::BandSplit;
use crate::env::{
    encodings, retired_all, routed_all, three_current, three_ticked, tick_three, Environment,
    RouteSlot, RouteSlots,
};
use crate::hrtf::ring_next;
use crate::params::ONE;
use crate::probe::{answering, is_steady};
use crate::single::Single;
use crate::smooth::{left_after, Smoothed};
use vstd::prelude::*;

verus! {

/// The pattern of 0.047: the level of an inlet of gain one, and of the seep.
pub const ROUTE_LEVEL: u32 = 0x3D40_8312;

/// The pattern of 1e-7: gains up to this add nothing.
pub const FAINT: u32 = 0x33D6_BF95;

/// The pattern of 0.02: how fast the fader moves, in seconds.
pub const FADER_TAU: u32 = 0x3CA3_D70A;

/// The pattern of 0.25: how fast routes move, in seconds.
pub const ROUTE_TAU: u32 = 0x3E80_0000;

/// The pattern of 0.4: how fast the seep moves, in seconds.
pub const SEEP_TAU: u32 = 0x3ECC_CCCD;

/// The pattern of 8.0: the fader's top.
pub const FADER_TOP: u32 = 0x4100_0000;

/// The pattern of -1.0.
pub const MINUS_ONE: u32 = 0xBF80_0000;

/// The parts into which feeds divide the loop.
pub const PARTS: usize = 14;

#[derive(Debug)]
pub struct Ambience {
    pub data: Vec<Single>,
    /// The loop is interleaved stereo.
    pub stereo: bool,
    /// In frames.
    pub pos: usize,
    pub user: Smoothed,
    pub routes: RouteSlots,
    pub seep: [Smoothed; 3],
    pub seep_split: [BandSplit; 4],
    pub seep_enc: [Frame; 4],
}

/// The frames of a loop.
pub open spec fn frame_count(len: nat, stereo: bool) -> int {
    if stereo {
        len as int / 2
    } else {
        len as int
    }
}

/// A loop that can be played: none, or at least one frame.
pub open spec fn is_loop(len: nat, stereo: bool) -> bool {
    &&& len > 0 ==> frame_count(len, stereo) > 0
    &&& len * PARTS <= usize::MAX
}

/// Where feed `k` reads a loop of `frames` that stands at `pos`.
pub open spec fn feed_frame(pos: int, k: int, frames: int) -> int {
    let f = pos + (k + 1) * frames / PARTS as int;
    if f >= frames {
        f - frames
    } else {
        f
    }
}

/// What feed `k` reads; stereo material alternates its channels.
pub open spec fn feed(data: Seq<Single>, stereo: bool, pos: int, k: int) -> Single {
    let f = feed_frame(pos, k, frame_count(data.len(), stereo));
    if stereo {
        data[f * 2 + k % 2]
    } else {
        data[f]
    }
}

/// Current gains at a level, under the fader.
pub open spec fn levels(f: Calc, g: [Single; 3], user: Single) -> [Single; 3] {
    [
        prod(f, prod(f, g@[0], Single(ROUTE_LEVEL)), user),
        prod(f, prod(f, g@[1], Single(ROUTE_LEVEL)), user),
        prod(f, prod(f, g@[2], Single(ROUTE_LEVEL)), user),
    ]
}

/// Some band is loud enough to be played.
pub open spec fn is_played(g: [Single; 3]) -> bool {
    Single(FAINT).below(g@[0]) || Single(FAINT).below(g@[1]) || Single(FAINT).below(g@[2])
}

fn levels_of<F: Fn(Op) -> Single>(f: &F, g: &[Single; 3], user: Single) -> (r: [Single; 3])
    requires
        is_steady(*f),
    ensures
        r == levels(answering(*f), *g, user),
{
    let r: [Single; 3] = [
        times(f, times(f, g[0], Single(ROUTE_LEVEL)), user),
        times(f, times(f, g[1], Single(ROUTE_LEVEL)), user),
        times(f, times(f, g[2], Single(ROUTE_LEVEL)), user),
    ];
    assert(r@ =~= levels(answering(*f), *g, user)@);
    r
}

fn played(g: &[Single; 3]) -> (r: bool)
    ensures
        r == is_played(*g),
{
    Single(FAINT).lt(g[0]) || Single(FAINT).lt(g[1]) || Single(FAINT).lt(g[2])
}

/// A route's levels at this sample.
pub open spec fn route_levels(f: Calc, s: RouteSlot, user: Single) -> [Single; 3] {
    levels(f, three_current(three_ticked(f, s.gains)), user)
}

/// A route after this sample.
pub open spec fn route_after(f: Calc, s: RouteSlot, user: Single, x: Single) -> RouteSlot {
    if is_played(route_levels(f, s, user)) {
        RouteSlot { split: s.split.next(f, x), ..s.ticked(f) }
    } else {
        s.ticked(f)
    }
}

/// The bus with one route.
pub open spec fn route_mixed(f: Calc, bus: Frame, s: RouteSlot, user: Single, x: Single) -> Frame {
    let g = route_levels(f, s, user);
    if is_played(g) {
        mixed(f, bus, s.split.shaped(f, x, g), s.enc)
    } else {
        bus
    }
}

/// The bus with the first `n` routes, each with its own feed.
pub open spec fn routes_mixed(
    f: Calc,
    bus: Frame,
    slots: Seq<RouteSlot>,
    user: Single,
    feeds: spec_fn(int) -> Single,
    n: int,
) -> Frame
    decreases n,
{
    if n <= 0 {
        bus
    } else {
        route_mixed(
            f,
            routes_mixed(f, bus, slots, user, feeds, n - 1),
            slots[n - 1],
            user,
            feeds(n - 1),
        )
    }
}

/// The bus with the first `n` diffuse feeds.
pub open spec fn seeps_mixed(
    f: Calc,
    bus: Frame,
    splits: Seq<BandSplit>,
    encs: Seq<Frame>,
    g: [Single; 3],
    feeds: spec_fn(int) -> Single,
    n: int,
) -> Frame
    decreases n,
{
    if n <= 0 {
        bus
    } else {
        mixed(
            f,
            seeps_mixed(f, bus, splits, encs, g, feeds, n - 1),
            splits[n - 1].shaped(f, feeds(7 + n), g),
            encs[n - 1],
        )
    }
}

impl Ambience {
    pub open spec fn wf(self) -> bool {
        &&& is_loop(self.data@.len(), self.stereo)
        &&& self.data@.len() > 0 ==> self.pos < frame_count(self.data@.len(), self.stereo)
    }

    pub fn new<F: Fn(Op) -> Single>(f: &F, sample_rate: Single) -> (r: Self)
        requires
            is_steady(*f),
        ensures
            r.wf(),
            r.data@.len() == 0,
            !r.stereo,
            r.pos == 0,
            r.user == Smoothed::at(
                Single(ONE),
                left_after(answering(*f), Single(FADER_TAU), sample_rate),
            ),
            forall|i: int|
                0 <= i < 8 ==> #[trigger] r.routes.slots@[i] == RouteSlots::blank(
                    answering(*f),
                    sample_rate,
                    Single(ROUTE_TAU),
                ),
            forall|b: int|
                0 <= b < 3 ==> #[trigger] r.seep@[b] == Smoothed::at(
                    Single(0),
                    left_after(answering(*f), Single(SEEP_TAU), sample_rate),
                ),
            forall|d: int|
                0 <= d < 4 ==> #[trigger] r.seep_split@[d] == BandSplit::still(
                    answering(*f),
                    sample_rate,
                ),
            r.seep_enc@ == seq![
                encoded(answering(*f), [Single(0), Single(ONE), Single(0)]),
                encoded(answering(*f), [Single(ONE), Single(0), Single(0)]),
                encoded(answering(*f), [Single(0), Single(MINUS_ONE), Single(0)]),
                encoded(answering(*f), [Single(MINUS_ONE), Single(0), Single(0)]),
            ],
    {
        let ghost g = answering(*f);
        let s: Smoothed = Smoothed::new(f, Single(0), Single(SEEP_TAU), sample_rate);
        let split: BandSplit = BandSplit::new(f, sample_rate);
        let north: [Single; 3] = [Single(0), Single(ONE), Single(0)];
        let east: [Single; 3] = [Single(ONE), Single(0), Single(0)];
        let south: [Single; 3] = [Single(0), Single(MINUS_ONE), Single(0)];
        let west: [Single; 3] = [Single(MINUS_ONE), Single(0), Single(0)];
        let seep_enc: [Frame; 4] = [
            encode_gains(f, north),
            encode_gains(f, east),
            encode_gains(f, south),
            encode_gains(f, west),
        ];
        assert(seep_enc@ =~= seq![
            encoded(g, north),
            encoded(g, east),
            encoded(g, south),
            encoded(g, west),
        ]);
        Ambience {
            data: Vec::new(),
            stereo: false,
            pos: 0,
            user: Smoothed::new(f, Single(ONE), Single(FADER_TAU), sample_rate),
            routes: RouteSlots::new(f, sample_rate, Single(ROUTE_TAU)),
            seep: [s, s, s],
            seep_split: [split, split, split, split],
            seep_enc,
        }
    }

    /// Install the loop, mono or interleaved stereo.
    pub fn set_loop(&mut self, data: Vec<Single>, stereo: bool)
        requires
            is_loop(data@.len(), stereo),
        ensures
            final(self).wf(),
            *final(self) == (Ambience { data, stereo, pos: 0, ..*old(self) }),
    {
        self.data = data;
        self.stereo = stereo;
        self.pos = 0;
    }

    /// Set the fader.
    pub fn set_user(&mut self, g: Single)
        requires
            old(self).wf(),
        ensures
            final(self).wf(),
            *final(self) == (Ambience {
                user: old(self).user.towards(clamped(g, Single(0), Single(FADER_TOP))),
                ..*old(self)
            }),
    {
        self.user.set(clamp_to(g, Single(0), Single(FADER_TOP)));
    }

    /// Take a fresh environment over.
    pub fn set_environment<F: Fn(Op) -> Single>(&mut self, f: &F, env: &Environment)
        requires
            is_steady(*f),
            old(self).wf(),
        ensures
            final(self).wf(),
            *final(self) == (Ambience {
                routes: final(self).routes,
                seep: final(self).seep,
                ..*old(self)
            }),
            final(self).routes.slots@ == routed_all(
                retired_all(old(self).routes.slots@, env.routes@),
                env.routes@,
                encodings(answering(*f), env.routes@),
                env.routes@.len() as int,
            ),
            final(self).seep@ == seq![
                old(self).seep@[0].towards(env.seep@[0]),
                old(self).seep@[1].towards(env.seep@[1]),
                old(self).seep@[2].towards(env.seep@[2]),
            ],
    {
        self.routes.update(f, env);
        let ghost s = self.seep@;
        self.seep[0].set(env.seep[0]);
        self.seep[1].set(env.seep[1]);
        self.seep[2].set(env.seep[2]);
        assert(self.seep@ =~= seq![
            s[0].towards(env.seep@[0]),
            s[1].towards(env.seep@[1]),
            s[2].towards(env.seep@[2]),
        ]);
    }

    /// What feed `k` reads.
    fn read(&self, k: usize, frames: usize) -> (r: Single)
        requires
            self.wf(),
            self.data@.len() > 0,
            frames == frame_count(self.data@.len(), self.stereo),
            k < 12,
        ensures
            r == feed(self.data@, self.stereo, self.pos as int, k as int),
    {
        let ghost n = frames as int;
        assert((k + 1) * n <= 12 * n) by (nonlinear_arith)
            requires
                k + 1 <= 12,
                n >= 0,
        ;
        let off: usize = (k + 1) * frames / PARTS;
        let f: usize = if self.pos >= frames - off {
            self.pos - (frames - off)
        } else {
            self.pos + off
        };
        if self.stereo {
            self.data[f * 2 + k % 2]
        } else {
            self.data[f]
        }
    }

    /// Where the loop stands at this sample.
    pub open spec fn next_pos(self) -> int {
        ring_next(self.pos as int, frame_count(self.data@.len(), self.stereo))
    }

    /// What each feed reads at this sample.
    pub open spec fn feeds(self) -> spec_fn(int) -> Single {
        |k: int| feed(self.data@, self.stereo, self.next_pos(), k)
    }

    /// The seep's levels at this sample.
    pub open spec fn seep_levels(self, f: Calc) -> [Single; 3] {
        levels(f, three_current(three_ticked(f, self.seep)), self.user.ticked(f).cur)
    }

    /// The bus after this sample.
    pub open spec fn bus_after(self, f: Calc, bus: Frame) -> Frame {
        let b = routes_mixed(
            f,
            bus,
            self.routes.slots@,
            self.user.ticked(f).cur,
            self.feeds(),
            8,
        );
        if is_played(self.seep_levels(f)) {
            seeps_mixed(
                f,
                b,
                self.seep_split@,
                self.seep_enc@,
                self.seep_levels(f),
                self.feeds(),
                4,
            )
        } else {
            b
        }
    }

    /// The routes at this sample.
    fn play_routes<F: Fn(Op) -> Single>(&mut self, f: &F, user: Single, frames: usize, bus: &mut Frame)
        requires
            is_steady(*f),
            old(self).wf(),
            old(self).data@.len() > 0,
            frames == frame_count(old(self).data@.len(), old(self).stereo),
        ensures
            *final(self) == (Ambience { routes: final(self).routes, ..*old(self) }),
            ({
                let feeds = |k: int|
                    feed(old(self).data@, old(self).stereo, old(self).pos as int, k);
                &&& forall|i: int|
                    0 <= i < 8 ==> #[trigger] final(self).routes.slots@[i] == route_after(
                        answering(*f),
                        old(self).routes.slots@[i],
                        user,
                        feeds(i),
                    )
                &&& *final(bus) == routes_mixed(
                    answering(*f),
                    *old(bus),
                    old(self).routes.slots@,
                    user,
                    feeds,
                    8,
                )
            }),
    {
        let ghost was = *self;
        let ghost g = answering(*f);
        let ghost slots0 = self.routes.slots@;
        let ghost feeds = |k: int| feed(was.data@, was.stereo, was.pos as int, k);
        let mut i: usize = 0;
        while i < 8
            invariant
                i <= 8,
                is_steady(*f),
                g == answering(*f),
                was.wf(),
                was.data@.len() > 0,
                frames == frame_count(was.data@.len(), was.stereo),
                *self == (Ambience { routes: self.routes, ..was }),
                slots0 == was.routes.slots@,
                slots0.len() == 8,
                self.routes.slots@.len() == 8,
                feeds == (|k: int| feed(was.data@, was.stereo, was.pos as int, k)),
                forall|j: int|
                    0 <= j < i ==> #[trigger] self.routes.slots@[j] == route_after(
                        g,
                        slots0[j],
                        user,
                        feeds(j),
                    ),
                forall|j: int| i <= j < 8 ==> #[trigger] self.routes.slots@[j] == slots0[j],
                *bus == routes_mixed(g, *old(bus), slots0, user, feeds, i as int),
            decreases 8 - i,
        {
            let ghost s = slots0[i as int];
            assert(self.routes.slots@[i as int] == s);
            let cur: [Single; 3] = tick_three(f, &mut self.routes.slots[i].gains);
            let gains: [Single; 3] = levels_of(f, &cur, user);
            assert(gains == route_levels(g, s, user));
            if played(&gains) {
                let x: Single = self.read(i, frames);
                assert(x == feeds(i as int));
                let y: Single = self.routes.slots[i].split.process(f, x, &gains);
                mix(f, bus, y, &self.routes.slots[i].enc);
            }
            assert(self.routes.slots@[i as int] == route_after(g, s, user, feeds(i as int)));
            i = i + 1;
        }
    }

    /// The diffuse feeds at this sample.
    fn play_seep<F: Fn(Op) -> Single>(
        &mut self,
        f: &F,
        gains: &[Single; 3],
        frames: usize,
        bus: &mut Frame,
    )
        requires
            is_steady(*f),
            old(self).wf(),
            old(self).data@.len() > 0,
            frames == frame_count(old(self).data@.len(), old(self).stereo),
        ensures
            *final(self) == (Ambience { seep_split: final(self).seep_split, ..*old(self) }),
            ({
                let feeds = |k: int|
                    feed(old(self).data@, old(self).stereo, old(self).pos as int, k);
                &&& forall|d: int|
                    0 <= d < 4 ==> #[trigger] final(self).seep_split@[d]
                        == old(self).seep_split@[d].next(answering(*f), feeds(8 + d))
                &&& *final(bus) == seeps_mixed(
                    answering(*f),
                    *old(bus),
                    old(self).seep_split@,
                    old(self).seep_enc@,
                    *gains,
                    feeds,
                    4,
                )
            }),
    {
        let ghost was = *self;
        let ghost g = answering(*f);
        let ghost splits0 = self.seep_split@;
        let ghost feeds = |k: int| feed(was.data@, was.stereo, was.pos as int, k);
        let mut d: usize = 0;
        while d < 4
            invariant
                d <= 4,
                is_steady(*f),
                g == answering(*f),
                was.wf(),
                was.data@.len() > 0,
                frames == frame_count(was.data@.len(), was.stereo),
                *self == (Ambience { seep_split: self.seep_split, ..was }),
                splits0 == was.seep_split@,
                splits0.len() == 4,
                self.seep_split@.len() == 4,
                self.seep_enc@.len() == 4,
                feeds == (|k: int| feed(was.data@, was.stereo, was.pos as int, k)),
                forall|j: int|
                    0 <= j < d ==> #[trigger] self.seep_split@[j] == splits0[j].next(g, feeds(8 + j)),
                forall|j: int| d <= j < 4 ==> #[trigger] self.seep_split@[j] == splits0[j],
                *bus == seeps_mixed(g, *old(bus), splits0, was.seep_enc@, *gains, feeds, d as int),
            decreases 4 - d,
        {
            assert(self.seep_split@[d as int] == splits0[d as int]);
            let x: Single = self.read(8 + d, frames);
            assert(x == feeds(8 + d));
            let y: Single = self.seep_split[d].process(f, x, gains);
            mix(f, bus, y, &self.seep_enc[d]);
            d = d + 1;
        }
    }

    /// One sample onto the bus; without a loop, nothing.
    pub fn process<F: Fn(Op) -> Single>(&mut self, f: &F, bus: &mut Frame)
        requires
            is_steady(*f),
            old(self).wf(),
        ensures
            final(self).wf(),
            old(self).data@.len() == 0 ==> *final(self) == *old(self) && *final(bus) == *old(bus),
            old(self).data@.len() > 0 ==> {
                &&& *final(self) == (Ambience {
                    pos: old(self).next_pos() as usize,
                    user: old(self).user.ticked(answering(*f)),
                    routes: final(self).routes,
                    seep: three_ticked(answering(*f), old(self).seep),
                    seep_split: final(self).seep_split,
                    ..*old(self)
                })
                &&& forall|i: int|
                    0 <= i < 8 ==> #[trigger] final(self).routes.slots@[i] == route_after(
                        answering(*f),
                        old(self).routes.slots@[i],
                        old(self).user.ticked(answering(*f)).cur,
                        (old(self).feeds())(i),
                    )
                &&& forall|d: int|
                    0 <= d < 4 ==> #[trigger] final(self).seep_split@[d] == (if is_played(
                        old(self).seep_levels(answering(*f)),
                    ) {
                        old(self).seep_split@[d].next(answering(*f), (old(self).feeds())(8 + d))
                    } else {
                        old(self).seep_split@[d]
                    })
                &&& *final(bus) == old(self).bus_after(answering(*f), *old(bus))
            },
    {
        if self.data.len() == 0 {
            return;
        }
        let ghost was = *self;
        let ghost g = answering(*f);
        let frames: usize = if self.stereo {
            self.data.len() / 2
        } else {
            self.data.len()
        };
        self.pos = if self.pos == frames - 1 {
            0
        } else {
            self.pos + 1
        };
        let ghost feeds = |k: int| feed(self.data@, self.stereo, self.pos as int, k);
        assert(feeds =~= was.feeds());
        let user: Single = self.user.tick(f);
        self.play_routes(f, user, frames, bus);
        let ghost mid = *self;
        let cur: [Single; 3] = tick_three(f, &mut self.seep);
        let gains: [Single; 3] = levels_of(f, &cur, user);
        assert(gains == was.seep_levels(g));
        if played(&gains) {
            self.play_seep(f, &gains, frames, bus);
        }
        assert(*bus == was.bus_after(g, *old(bus)));
    }
}

/// Without an environment there is no sound: every route and the seep at zero
/// leave the bus as it is.
pub proof fn no_environment_is_silent(f: Calc, a: Ambience, bus: Frame)
    requires
        forall|i: int| 0 <= i < 8 ==> !is_played(
            route_levels(f, #[trigger] a.routes.slots@[i], a.user.ticked(f).cur),
        ),
        !is_played(a.seep_levels(f)),
    ensures
        a.bus_after(f, bus) == bus,
{
    lemma_silent_routes(f, a, bus, 8);
}

proof fn lemma_silent_routes(f: Calc, a: Ambience, bus: Frame, n: int)
    requires
        0 <= n <= 8,
        forall|i: int| 0 <= i < 8 ==> !is_played(
            route_levels(f, #[trigger] a.routes.slots@[i], a.user.ticked(f).cur),
        ),
    ensures
        routes_mixed(f, bus, a.routes.slots@, a.user.ticked(f).cur, a.feeds(), n) == bus,
    decreases n,
{
    if n > 0 {
        lemma_silent_routes(f, a, bus, n - 1);
        let s = a.routes.slots@[n - 1];
        assert(!is_played(route_levels(f, s, a.user.ticked(f).cur)));
    }
}

} // verus!
