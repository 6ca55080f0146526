//! How the outdoor sound field (ambience, rain) reaches the listener, its
//! flat form, and the bank of slots that carries its routes.

use crate::ambi::{encode_gains, encoded, quiet};
use crate::arith::{plus, sum, Calc, Op};
use crate::bands::BandSplit;
use crate::params::{counts, ONE};
use crate::probe::{answering, is_steady};
use crate::single::{exact_integers_round_trip, is_exact, small_integers_are_exact, Single};
use crate::smooth::{left_after, Smoothed};
use vstd::prelude::*;

verus! {

pub const MAX_ENV_ROUTES: usize = 8;

pub const MAX_ENV_WINDOWS: usize = 4;

/// id, direction, three gains, distance.
pub const ROUTE_STRIDE: usize = 8;

/// direction, gain.
pub const WINDOW_STRIDE: usize = 4;

/// Where the window count stands, behind the routes.
pub const WINDOW_BASE: usize = 70;

/// seep(3), enclosure, roof, route count, routes, window count, windows.
pub const ENV_FLAT_LEN: usize = 87;

/// The pattern of 1e-5: a route below this gain is silent.
pub const SILENT: u32 = 0x3727_C5AC;

/// One inlet for the outdoor field: an aperture of the listener's room or,
/// outdoors, a horizon sector of the open sky.
#[derive(Clone, Copy, Debug)]
pub struct EnvRoute {
    /// Stable identity across updates.
    pub id: u32,
    /// Unit direction the field arrives from.
    pub dir: [Single; 3],
    /// Per-band amplitude of the outdoor field through this inlet.
    pub gains: [Single; 3],
    /// Metres to the radiating point.
    pub dist: Single,
}

/// A glass pane of the listener's room.
#[derive(Clone, Copy, Debug)]
pub struct EnvWindow {
    pub dir: [Single; 3],
    pub gain: Single,
}

#[derive(Debug)]
pub struct Environment {
    /// Per-band level of the outdoor field inside the listener's room shell.
    pub seep: [Single; 3],
    /// 0 is open sky, 1 a sealed room.
    pub enclosure: Single,
    /// Sky-exposed share of the ceiling over the listener's head.
    pub roof_gain: Single,
    pub routes: Vec<EnvRoute>,
    pub windows: Vec<EnvWindow>,
}

impl Default for Environment {
    fn default() -> (r: Self)
        ensures
            r.seep == [Single(0), Single(0), Single(0)],
            r.enclosure == Single(0),
            r.roof_gain == Single(0),
            r.routes@.len() == 0,
            r.windows@.len() == 0,
    {
        Self {
            seep: [Single(0), Single(0), Single(0)],
            enclosure: Single(0),
            roof_gain: Single(0),
            routes: Vec::new(),
            windows: Vec::new(),
        }
    }
}

/// The smaller of the two.
pub open spec fn capped(n: nat, max: nat) -> nat {
    if n <= max {
        n
    } else {
        max
    }
}

/// The eight words of `flat` from `o` on are the flat form of `r`.
pub open spec fn is_flat_route(r: EnvRoute, flat: Seq<Single>, o: int) -> bool {
    &&& counts(flat[o], r.id as nat)
    &&& flat[o + 1] == r.dir@[0]
    &&& flat[o + 2] == r.dir@[1]
    &&& flat[o + 3] == r.dir@[2]
    &&& flat[o + 4] == r.gains@[0]
    &&& flat[o + 5] == r.gains@[1]
    &&& flat[o + 6] == r.gains@[2]
    &&& flat[o + 7] == r.dist
}

/// The four words of `flat` from `o` on are the flat form of `w`.
pub open spec fn is_flat_window(w: EnvWindow, flat: Seq<Single>, o: int) -> bool {
    &&& flat[o] == w.dir@[0]
    &&& flat[o + 1] == w.dir@[1]
    &&& flat[o + 2] == w.dir@[2]
    &&& flat[o + 3] == w.gain
}

/// `flat` starts with the flat form of `env`, of which only the first eight
/// routes and the first four windows have room.
pub open spec fn is_flat_env(env: Environment, flat: Seq<Single>) -> bool {
    let nr = capped(env.routes@.len(), MAX_ENV_ROUTES as nat) as int;
    let nw = capped(env.windows@.len(), MAX_ENV_WINDOWS as nat) as int;
    &&& flat.len() >= ENV_FLAT_LEN
    &&& flat[0] == env.seep@[0]
    &&& flat[1] == env.seep@[1]
    &&& flat[2] == env.seep@[2]
    &&& flat[3] == env.enclosure
    &&& flat[4] == env.roof_gain
    &&& counts(flat[5], nr as nat)
    &&& forall|i: int|
        0 <= i < nr ==> is_flat_route(#[trigger] env.routes@[i], flat, 6 + i * ROUTE_STRIDE)
    &&& forall|k: int| 6 + nr * ROUTE_STRIDE <= k < WINDOW_BASE ==> #[trigger] flat[k] == Single(0)
    &&& counts(flat[WINDOW_BASE as int], nw as nat)
    &&& forall|i: int|
        0 <= i < nw ==> is_flat_window(
            #[trigger] env.windows@[i],
            flat,
            WINDOW_BASE + 1 + i * WINDOW_STRIDE,
        )
    &&& forall|k: int|
        WINDOW_BASE + 1 + nw * WINDOW_STRIDE <= k < ENV_FLAT_LEN ==> #[trigger] flat[k] == Single(0)
}

/// The route that the words of `flat` from `o` on spell.
pub open spec fn route_at(flat: Seq<Single>, o: int) -> EnvRoute {
    EnvRoute {
        id: flat[o].truncated(u32::MAX as nat) as u32,
        dir: [flat[o + 1], flat[o + 2], flat[o + 3]],
        gains: [flat[o + 4], flat[o + 5], flat[o + 6]],
        dist: flat[o + 7],
    }
}

/// The window that the words of `flat` from `o` on spell.
pub open spec fn window_at(flat: Seq<Single>, o: int) -> EnvWindow {
    EnvWindow { dir: [flat[o], flat[o + 1], flat[o + 2]], gain: flat[o + 3] }
}

/// `env` is what the flat words spell.
pub open spec fn is_read_env(env: Environment, flat: Seq<Single>) -> bool {
    &&& env.seep == [flat[0], flat[1], flat[2]]
    &&& env.enclosure == flat[3]
    &&& env.roof_gain == flat[4]
    &&& env.routes@ == Seq::new(
        capped(flat[5].truncated(usize::MAX as nat), MAX_ENV_ROUTES as nat),
        |i: int| route_at(flat, 6 + i * ROUTE_STRIDE),
    )
    &&& env.windows@ == Seq::new(
        capped(flat[WINDOW_BASE as int].truncated(usize::MAX as nat), MAX_ENV_WINDOWS as nat),
        |i: int| window_at(flat, WINDOW_BASE + 1 + i * WINDOW_STRIDE),
    )
}

impl Environment {
    pub fn write_flat(&self, out: &mut [Single])
        requires
            old(out)@.len() >= ENV_FLAT_LEN,
        ensures
            final(out)@.len() == old(out)@.len(),
            is_flat_env(*self, final(out)@),
            forall|k: int|
                ENV_FLAT_LEN <= k < old(out)@.len() ==> #[trigger] final(out)@[k] == old(out)@[k],
    {
        let ghost out0 = out@;
        let mut k: usize = 0;
        while k < ENV_FLAT_LEN
            invariant
                k <= ENV_FLAT_LEN <= out@.len(),
                out@.len() == out0.len(),
                forall|j: int| 0 <= j < k ==> #[trigger] out@[j] == Single(0),
                forall|j: int| k <= j < out0.len() ==> #[trigger] out@[j] == out0[j],
            decreases ENV_FLAT_LEN - k,
        {
            out[k] = Single(0);
            k = k + 1;
        }
        out[0] = self.seep[0];
        out[1] = self.seep[1];
        out[2] = self.seep[2];
        out[3] = self.enclosure;
        out[4] = self.roof_gain;
        let nr: usize = if self.routes.len() <= MAX_ENV_ROUTES {
            self.routes.len()
        } else {
            MAX_ENV_ROUTES
        };
        out[5] = Single::from_u64(nr as u64);
        let ghost head = out@;
        let mut i: usize = 0;
        while i < nr
            invariant
                i <= nr <= MAX_ENV_ROUTES,
                nr <= self.routes@.len(),
                out@.len() == out0.len() == head.len() >= ENV_FLAT_LEN,
                forall|k: int| 0 <= k < 6 ==> #[trigger] out@[k] == head[k],
                forall|k: int| 6 + i * ROUTE_STRIDE <= k < out0.len() ==> #[trigger] out@[k] == head[k],
                forall|j: int|
                    0 <= j < i ==> is_flat_route(
                        #[trigger] self.routes@[j],
                        out@,
                        6 + j * ROUTE_STRIDE,
                    ),
            decreases nr - i,
        {
            let r: EnvRoute = self.routes[i];
            let o: usize = 6 + i * ROUTE_STRIDE;
            let ghost prior = out@;
            out[o] = Single::from_u64(r.id as u64);
            out[o + 1] = r.dir[0];
            out[o + 2] = r.dir[1];
            out[o + 3] = r.dir[2];
            out[o + 4] = r.gains[0];
            out[o + 5] = r.gains[1];
            out[o + 6] = r.gains[2];
            out[o + 7] = r.dist;
            proof {
                assert forall|j: int| 0 <= j < i implies is_flat_route(
                    #[trigger] self.routes@[j],
                    out@,
                    6 + j * ROUTE_STRIDE,
                ) by {
                    assert(is_flat_route(self.routes@[j], prior, 6 + j * ROUTE_STRIDE));
                }
            }
            i = i + 1;
        }
        let nw: usize = if self.windows.len() <= MAX_ENV_WINDOWS {
            self.windows.len()
        } else {
            MAX_ENV_WINDOWS
        };
        out[WINDOW_BASE] = Single::from_u64(nw as u64);
        let ghost mid = out@;
        proof {
            assert forall|j: int| 0 <= j < nr implies is_flat_route(
                #[trigger] self.routes@[j],
                mid,
                6 + j * ROUTE_STRIDE,
            ) by {}
        }
        let mut i: usize = 0;
        while i < nw
            invariant
                i <= nw <= MAX_ENV_WINDOWS,
                nw <= self.windows@.len(),
                out@.len() == out0.len() == mid.len() >= ENV_FLAT_LEN,
                forall|k: int| 0 <= k <= WINDOW_BASE ==> #[trigger] out@[k] == mid[k],
                forall|k: int|
                    WINDOW_BASE + 1 + i * WINDOW_STRIDE <= k < out0.len() ==> #[trigger] out@[k] == mid[k],
                forall|j: int|
                    0 <= j < i ==> is_flat_window(
                        #[trigger] self.windows@[j],
                        out@,
                        WINDOW_BASE + 1 + j * WINDOW_STRIDE,
                    ),
            decreases nw - i,
        {
            let w: EnvWindow = self.windows[i];
            let o: usize = WINDOW_BASE + 1 + i * WINDOW_STRIDE;
            let ghost prior = out@;
            out[o] = w.dir[0];
            out[o + 1] = w.dir[1];
            out[o + 2] = w.dir[2];
            out[o + 3] = w.gain;
            proof {
                assert forall|j: int| 0 <= j < i implies is_flat_window(
                    #[trigger] self.windows@[j],
                    out@,
                    WINDOW_BASE + 1 + j * WINDOW_STRIDE,
                ) by {
                    assert(is_flat_window(self.windows@[j], prior, WINDOW_BASE + 1 + j * WINDOW_STRIDE));
                }
            }
            i = i + 1;
        }
        proof {
            assert forall|j: int| 0 <= j < nr implies is_flat_route(
                #[trigger] self.routes@[j],
                out@,
                6 + j * ROUTE_STRIDE,
            ) by {
                assert(is_flat_route(self.routes@[j], mid, 6 + j * ROUTE_STRIDE));
            }
        }
    }

    pub fn read_flat(flat: &[Single]) -> (env: Self)
        requires
            flat@.len() >= ENV_FLAT_LEN,
        ensures
            is_read_env(env, flat@),
    {
        let said: usize = flat[5].to_usize();
        let nr: usize = if said <= MAX_ENV_ROUTES {
            said
        } else {
            MAX_ENV_ROUTES
        };
        let mut routes: Vec<EnvRoute> = Vec::new();
        let mut i: usize = 0;
        while i < nr
            invariant
                i <= nr <= MAX_ENV_ROUTES,
                flat@.len() >= ENV_FLAT_LEN,
                routes@ == Seq::new(i as nat, |j: int| route_at(flat@, 6 + j * ROUTE_STRIDE)),
            decreases nr - i,
        {
            let o: usize = 6 + i * ROUTE_STRIDE;
            routes.push(
                EnvRoute {
                    id: flat[o].to_u32(),
                    dir: [flat[o + 1], flat[o + 2], flat[o + 3]],
                    gains: [flat[o + 4], flat[o + 5], flat[o + 6]],
                    dist: flat[o + 7],
                },
            );
            i = i + 1;
            assert(routes@ =~= Seq::new(i as nat, |j: int| route_at(flat@, 6 + j * ROUTE_STRIDE)));
        }
        let said: usize = flat[WINDOW_BASE].to_usize();
        let nw: usize = if said <= MAX_ENV_WINDOWS {
            said
        } else {
            MAX_ENV_WINDOWS
        };
        let mut windows: Vec<EnvWindow> = Vec::new();
        let mut i: usize = 0;
        while i < nw
            invariant
                i <= nw <= MAX_ENV_WINDOWS,
                flat@.len() >= ENV_FLAT_LEN,
                windows@ == Seq::new(
                    i as nat,
                    |j: int| window_at(flat@, WINDOW_BASE + 1 + j * WINDOW_STRIDE),
                ),
            decreases nw - i,
        {
            let o: usize = WINDOW_BASE + 1 + i * WINDOW_STRIDE;
            windows.push(
                EnvWindow { dir: [flat[o], flat[o + 1], flat[o + 2]], gain: flat[o + 3] },
            );
            i = i + 1;
            assert(windows@ =~= Seq::new(
                i as nat,
                |j: int| window_at(flat@, WINDOW_BASE + 1 + j * WINDOW_STRIDE),
            ));
        }
        Self {
            seep: [flat[0], flat[1], flat[2]],
            enclosure: flat[3],
            roof_gain: flat[4],
            routes,
            windows,
        }
    }
}

/// The flat form is lossless for an environment whose routes and windows all
/// have room and whose route ids single precision holds exactly.
pub proof fn env_flat_round_trip_is_lossless(env: Environment, flat: Seq<Single>, back: Environment)
    requires
        is_flat_env(env, flat),
        is_read_env(back, flat),
        env.routes@.len() <= MAX_ENV_ROUTES,
        env.windows@.len() <= MAX_ENV_WINDOWS,
        forall|i: int| 0 <= i < env.routes@.len() ==> is_exact((#[trigger] env.routes@[i]).id as nat),
    ensures
        back.seep == env.seep,
        back.enclosure == env.enclosure,
        back.roof_gain == env.roof_gain,
        back.routes@ == env.routes@,
        back.windows@ == env.windows@,
{
    assert(back.seep@ =~= env.seep@);
    assert(back.seep == env.seep);
    small_integers_are_exact(env.routes@.len());
    small_integers_are_exact(env.windows@.len());
    exact_integers_round_trip(env.routes@.len(), flat[5], usize::MAX as nat);
    exact_integers_round_trip(env.windows@.len(), flat[WINDOW_BASE as int], usize::MAX as nat);
    assert forall|i: int| 0 <= i < env.routes@.len() implies back.routes@[i] == env.routes@[i] by {
        let o = 6 + i * ROUTE_STRIDE;
        let r = env.routes@[i];
        assert(is_flat_route(r, flat, o));
        exact_integers_round_trip(r.id as nat, flat[o], u32::MAX as nat);
        let q = route_at(flat, o);
        assert(q.dir@ =~= r.dir@);
        assert(q.gains@ =~= r.gains@);
        assert(q.dir == r.dir && q.gains == r.gains);
    }
    assert forall|i: int| 0 <= i < env.windows@.len() implies back.windows@[i] == env.windows@[i] by {
        let o = WINDOW_BASE + 1 + i * WINDOW_STRIDE;
        let w = env.windows@[i];
        assert(is_flat_window(w, flat, o));
        let q = window_at(flat, o);
        assert(q.dir@ =~= w.dir@);
        assert(q.dir == w.dir);
    }
}

/// Three smoothers one sample on.
pub open spec fn three_ticked(f: Calc, g: [Smoothed; 3]) -> [Smoothed; 3] {
    [g@[0].ticked(f), g@[1].ticked(f), g@[2].ticked(f)]
}

/// Where three smoothers are.
pub open spec fn three_current(g: [Smoothed; 3]) -> [Single; 3] {
    [g@[0].cur, g@[1].cur, g@[2].cur]
}

pub(crate) fn tick_three<F: Fn(Op) -> Single>(f: &F, g: &mut [Smoothed; 3]) -> (r: [Single; 3])
    requires
        is_steady(*f),
    ensures
        *final(g) == three_ticked(answering(*f), *old(g)),
        r == three_current(*final(g)),
{
    let ghost g0 = *g;
    let a: Single = g[0].tick(f);
    let b: Single = g[1].tick(f);
    let c: Single = g[2].tick(f);
    assert(g@ =~= three_ticked(answering(*f), g0)@);
    let r: [Single; 3] = [a, b, c];
    assert(r@ =~= three_current(*g)@);
    r
}

/// One place in the bank: a route's smoothed gains and the encoding of its
/// direction.
#[derive(Clone, Copy, Debug)]
pub struct RouteSlot {
    pub id: u32,
    pub enc: [Single; 9],
    pub gains: [Smoothed; 3],
    pub split: BandSplit,
    pub dist: Single,
}

/// The id of a slot that never carried a route.
pub const FREE: u32 = 0xFFFF_FFFF;

/// A fixed bank of slots keyed by the route's stable id. Routes that disappear
/// ramp to silence in place; new ones fade in from zero.
#[derive(Debug)]
pub struct RouteSlots {
    pub slots: [RouteSlot; 8],
}

impl RouteSlot {
    /// Every band is silent and stays so.
    pub open spec fn is_silent(self) -> bool {
        forall|b: int|
            0 <= b < 3 ==> (#[trigger] self.gains@[b]).cur.below(Single(SILENT))
                && self.gains@[b].target.below(Single(SILENT))
    }

    /// May take a new route up.
    pub open spec fn is_vacant(self) -> bool {
        self.id == FREE || self.is_silent()
    }

    /// On its way to silence.
    pub open spec fn retired(self) -> RouteSlot {
        RouteSlot {
            gains: [
                self.gains@[0].towards(Single(0)),
                self.gains@[1].towards(Single(0)),
                self.gains@[2].towards(Single(0)),
            ],
            ..self
        }
    }

    /// Cut to silence, under a new id.
    pub open spec fn taken(self, id: u32) -> RouteSlot {
        RouteSlot {
            id,
            gains: [
                self.gains@[0].resting(Single(0)),
                self.gains@[1].resting(Single(0)),
                self.gains@[2].resting(Single(0)),
            ],
            ..self
        }
    }

    /// The gains one sample on.
    pub open spec fn ticked(self, f: Calc) -> RouteSlot {
        RouteSlot { gains: three_ticked(f, self.gains), ..self }
    }

    /// Heading for the gains of `r`, at its direction and distance.
    pub open spec fn following(self, r: EnvRoute, enc: [Single; 9]) -> RouteSlot {
        RouteSlot {
            enc,
            dist: r.dist,
            gains: [
                self.gains@[0].towards(r.gains@[0]),
                self.gains@[1].towards(r.gains@[1]),
                self.gains@[2].towards(r.gains@[2]),
            ],
            ..self
        }
    }

    fn vacant(&self) -> (r: bool)
        ensures
            r == self.is_vacant(),
    {
        if self.id == FREE {
            return true;
        }
        let mut b: usize = 0;
        while b < 3
            invariant
                b <= 3,
                self.id != FREE,
                forall|j: int|
                    0 <= j < b ==> (#[trigger] self.gains@[j]).cur.below(Single(SILENT))
                        && self.gains@[j].target.below(Single(SILENT)),
            decreases 3 - b,
        {
            if !self.gains[b].current().lt(Single(SILENT)) || !self.gains[b].target_val().lt(
                Single(SILENT),
            ) {
                assert(!self.gains@[b as int].cur.below(Single(SILENT)) || !self.gains@[b as int].target.below(
                    Single(SILENT),
                ));
                return false;
            }
            b = b + 1;
        }
        true
    }

    fn retire(&mut self)
        ensures
            *final(self) == old(self).retired(),
    {
        self.gains[0].set(Single(0));
        self.gains[1].set(Single(0));
        self.gains[2].set(Single(0));
        assert(self.gains@ =~= old(self).retired().gains@);
        assert(self.gains == old(self).retired().gains);
    }

    fn take(&mut self, id: u32)
        ensures
            *final(self) == old(self).taken(id),
    {
        self.id = id;
        self.gains[0].snap(Single(0));
        self.gains[1].snap(Single(0));
        self.gains[2].snap(Single(0));
        assert(self.gains@ =~= old(self).taken(id).gains@);
        assert(self.gains == old(self).taken(id).gains);
    }

    fn follow(&mut self, r: &EnvRoute, enc: &[Single; 9])
        ensures
            *final(self) == old(self).following(*r, *enc),
    {
        self.enc = *enc;
        self.dist = r.dist;
        self.gains[0].set(r.gains[0]);
        self.gains[1].set(r.gains[1]);
        self.gains[2].set(r.gains[2]);
        assert(self.gains@ =~= old(self).following(*r, *enc).gains@);
        assert(self.gains == old(self).following(*r, *enc).gains);
    }
}

/// The first slot from `from` on with the id; the length of the bank where
/// there is none.
pub open spec fn first_with_id(slots: Seq<RouteSlot>, id: u32, from: int) -> int
    decreases slots.len() - from,
{
    if from < 0 || from >= slots.len() {
        slots.len() as int
    } else if slots[from].id == id {
        from
    } else {
        first_with_id(slots, id, from + 1)
    }
}

/// The first slot from `from` on that may take a route up; the length of the
/// bank where there is none.
pub open spec fn first_vacant(slots: Seq<RouteSlot>, from: int) -> int
    decreases slots.len() - from,
{
    if from < 0 || from >= slots.len() {
        slots.len() as int
    } else if slots[from].is_vacant() {
        from
    } else {
        first_vacant(slots, from + 1)
    }
}

/// `id` is among the routes.
pub open spec fn is_routed(routes: Seq<EnvRoute>, id: u32) -> bool {
    exists|n: int| 0 <= n < routes.len() && (#[trigger] routes[n]).id == id
}

/// The bank with every slot whose route is gone on its way to silence.
pub open spec fn retired_all(slots: Seq<RouteSlot>, routes: Seq<EnvRoute>) -> Seq<RouteSlot> {
    Seq::new(
        slots.len(),
        |i: int|
            if slots[i].id != FREE && !is_routed(routes, slots[i].id) {
                slots[i].retired()
            } else {
                slots[i]
            },
    )
}

/// The bank after one route was brought in: the slot with its id follows it,
/// else the first vacant slot takes it up; where the bank is full of live
/// routes it is left out.
pub open spec fn routed(slots: Seq<RouteSlot>, r: EnvRoute, enc: [Single; 9]) -> Seq<RouteSlot> {
    let i = first_with_id(slots, r.id, 0);
    let j = first_vacant(slots, 0);
    if i < slots.len() {
        slots.update(i, slots[i].following(r, enc))
    } else if j < slots.len() {
        slots.update(j, slots[j].taken(r.id).following(r, enc))
    } else {
        slots
    }
}

/// The bank after the first `n` routes were brought in.
pub open spec fn routed_all(
    slots: Seq<RouteSlot>,
    routes: Seq<EnvRoute>,
    encs: Seq<[Single; 9]>,
    n: int,
) -> Seq<RouteSlot>
    decreases n,
{
    if n <= 0 {
        slots
    } else {
        routed(routed_all(slots, routes, encs, n - 1), routes[n - 1], encs[n - 1])
    }
}

/// The encodings of the routes' directions.
pub open spec fn encodings(f: Calc, routes: Seq<EnvRoute>) -> Seq<[Single; 9]> {
    Seq::new(routes.len(), |i: int| encoded(f, routes[i].dir))
}

/// The sum of the current mid-band gains of the first `n` slots.
pub open spec fn mid_sum(f: Calc, slots: Seq<RouteSlot>, n: int) -> Single
    decreases n,
{
    if n <= 1 {
        slots[0].gains@[1].cur
    } else {
        sum(f, mid_sum(f, slots, n - 1), slots[n - 1].gains@[1].cur)
    }
}

impl RouteSlots {
    /// A slot of a silent bank.
    pub open spec fn blank(f: Calc, sample_rate: Single, tau_s: Single) -> RouteSlot {
        let g = Smoothed::at(Single(0), left_after(f, tau_s, sample_rate));
        RouteSlot {
            id: FREE,
            enc: quiet(),
            gains: [g, g, g],
            split: BandSplit::still(f, sample_rate),
            dist: Single(ONE),
        }
    }

    pub fn new<F: Fn(Op) -> Single>(f: &F, sample_rate: Single, tau_s: Single) -> (r: Self)
        requires
            is_steady(*f),
        ensures
            forall|i: int|
                0 <= i < 8 ==> #[trigger] r.slots@[i] == RouteSlots::blank(
                    answering(*f),
                    sample_rate,
                    tau_s,
                ),
    {
        let g: Smoothed = Smoothed::new(f, Single(0), tau_s, sample_rate);
        let blank: RouteSlot = RouteSlot {
            id: FREE,
            enc: [Single(0);9],
            gains: [g, g, g],
            split: BandSplit::new(f, sample_rate),
            dist: Single(ONE),
        };
        assert(blank.enc@ =~= quiet()@);
        let ghost goal = RouteSlots::blank(answering(*f), sample_rate, tau_s);
        assert(blank.gains@ =~= goal.gains@);
        assert(blank.enc == goal.enc && blank.gains == goal.gains);
        assert(blank == goal);
        Self { slots: [blank;8] }
    }

    /// Apply a fresh environment: update matching ids, retire missing ones
    /// toward zero, place new routes in silent slots.
    pub fn update<F: Fn(Op) -> Single>(&mut self, f: &F, env: &Environment)
        requires
            is_steady(*f),
        ensures
            final(self).slots@ == routed_all(
                retired_all(old(self).slots@, env.routes@),
                env.routes@,
                encodings(answering(*f), env.routes@),
                env.routes@.len() as int,
            ),
    {
        let mut encs: Vec<[Single; 9]> = Vec::new();
        let mut n: usize = 0;
        while n < env.routes.len()
            invariant
                n <= env.routes@.len(),
                is_steady(*f),
                encs@ == encodings(answering(*f), env.routes@).take(n as int),
            decreases env.routes@.len() - n,
        {
            encs.push(encode_gains(f, env.routes[n].dir));
            n = n + 1;
            assert(encs@ =~= encodings(answering(*f), env.routes@).take(n as int));
        }
        assert(encs@ =~= encodings(answering(*f), env.routes@));
        self.follow_all(env, &encs);
    }

    /// `encs` are the encodings of the routes' directions.
    fn follow_all(&mut self, env: &Environment, encs: &Vec<[Single; 9]>)
        requires
            encs@.len() == env.routes@.len(),
        ensures
            final(self).slots@ == routed_all(
                retired_all(old(self).slots@, env.routes@),
                env.routes@,
                encs@,
                env.routes@.len() as int,
            ),
    {
        let ghost slots0 = self.slots@;
        let ghost goal = retired_all(slots0, env.routes@);
        let mut i: usize = 0;
        while i < 8
            invariant
                i <= 8,
                slots0.len() == 8,
                self.slots@.len() == 8,
                goal == retired_all(slots0, env.routes@),
                forall|j: int| 0 <= j < i ==> #[trigger] self.slots@[j] == goal[j],
                forall|j: int| i <= j < 8 ==> #[trigger] self.slots@[j] == slots0[j],
            decreases 8 - i,
        {
            let id: u32 = self.slots[i].id;
            let mut found: bool = false;
            let mut n: usize = 0;
            while n < env.routes.len()
                invariant
                    n <= env.routes@.len(),
                    found == exists|m: int| 0 <= m < n && (#[trigger] env.routes@[m]).id == id,
                decreases env.routes@.len() - n,
            {
                if env.routes[n].id == id {
                    found = true;
                }
                n = n + 1;
            }
            assert(found == is_routed(env.routes@, id));
            if id != FREE && !found {
                self.slots[i].retire();
            }
            i = i + 1;
        }
        assert(self.slots@ =~= goal);
        let mut n: usize = 0;
        while n < env.routes.len()
            invariant
                n <= env.routes@.len(),
                encs@.len() == env.routes@.len(),
                self.slots@.len() == 8,
                self.slots@ == routed_all(goal, env.routes@, encs@, n as int),
            decreases env.routes@.len() - n,
        {
            let ghost before = self.slots@;
            let r: EnvRoute = env.routes[n];
            let i: usize = self.find_id(r.id);
            if i < 8 {
                self.slots[i].follow(&r, &encs[n]);
            } else {
                let j: usize = self.find_vacant();
                if j < 8 {
                    self.slots[j].take(r.id);
                    self.slots[j].follow(&r, &encs[n]);
                }
            }
            assert(self.slots@ =~= routed(before, r, encs@[n as int]));
            n = n + 1;
        }
    }

    fn find_id(&self, id: u32) -> (r: usize)
        ensures
            r == first_with_id(self.slots@, id, 0),
            r <= 8,
    {
        let mut i: usize = 0;
        while i < 8
            invariant
                i <= 8,
                self.slots@.len() == 8,
                first_with_id(self.slots@, id, 0) == first_with_id(self.slots@, id, i as int),
            decreases 8 - i,
        {
            if self.slots[i].id == id {
                return i;
            }
            i = i + 1;
        }
        i
    }

    fn find_vacant(&self) -> (r: usize)
        ensures
            r == first_vacant(self.slots@, 0),
            r <= 8,
    {
        let mut i: usize = 0;
        while i < 8
            invariant
                i <= 8,
                self.slots@.len() == 8,
                first_vacant(self.slots@, 0) == first_vacant(self.slots@, i as int),
            decreases 8 - i,
        {
            if self.slots[i].vacant() {
                return i;
            }
            i = i + 1;
        }
        i
    }

    /// The sum of the current mid-band gains: it weighs the spawning of drops.
    pub fn total_mid<F: Fn(Op) -> Single>(&self, f: &F) -> (r: Single)
        requires
            is_steady(*f),
        ensures
            r == mid_sum(answering(*f), self.slots@, 8),
    {
        let mut r: Single = self.slots[0].gains[1].current();
        let mut i: usize = 1;
        while i < 8
            invariant
                1 <= i <= 8,
                self.slots@.len() == 8,
                is_steady(*f),
                r == mid_sum(answering(*f), self.slots@, i as int),
            decreases 8 - i,
        {
            r = plus(f, r, self.slots[i].gains[1].current());
            i = i + 1;
        }
        r
    }
}

proof fn lemma_first_with_id(slots: Seq<RouteSlot>, id: u32, from: int)
    requires
        0 <= from <= slots.len(),
    ensures
        from <= first_with_id(slots, id, from) <= slots.len(),
        first_with_id(slots, id, from) < slots.len() ==> slots[first_with_id(slots, id, from)].id == id,
        forall|i: int| from <= i < first_with_id(slots, id, from) ==> (#[trigger] slots[i]).id != id,
    decreases slots.len() - from,
{
    if from < slots.len() && slots[from].id != id {
        lemma_first_with_id(slots, id, from + 1);
    }
}

proof fn lemma_first_vacant(slots: Seq<RouteSlot>, from: int)
    requires
        0 <= from <= slots.len(),
    ensures
        from <= first_vacant(slots, from) <= slots.len(),
        first_vacant(slots, from) < slots.len() ==> slots[first_vacant(slots, from)].is_vacant(),
    decreases slots.len() - from,
{
    if from < slots.len() && !slots[from].is_vacant() {
        lemma_first_vacant(slots, from + 1);
    }
}

/// Some band of the slot is neither silent nor about to be cut: its current
/// gain is at least 1e-5.
pub open spec fn is_heard(s: RouteSlot) -> bool {
    exists|b: int| 0 <= b < 3 && !(#[trigger] s.gains@[b]).cur.below(Single(SILENT))
}

/// The gains sound on: no current value moved.
pub open spec fn gains_sound_on(before: RouteSlot, after: RouteSlot) -> bool {
    forall|b: int| 0 <= b < 3 ==> (#[trigger] after.gains@[b]).cur == before.gains@[b].cur
}

/// No change of the set of routes ever clicks: an update leaves the current
/// gains of every slot that can be heard where they are, under the same id.
pub proof fn an_update_never_clicks(
    slots: Seq<RouteSlot>,
    routes: Seq<EnvRoute>,
    encs: Seq<[Single; 9]>,
    n: int,
    i: int,
)
    requires
        0 <= n <= routes.len(),
        encs.len() == routes.len(),
        0 <= i < slots.len(),
        slots[i].id != FREE,
        is_heard(slots[i]),
    ensures
        routed_all(retired_all(slots, routes), routes, encs, n).len() == slots.len(),
        routed_all(retired_all(slots, routes), routes, encs, n)[i].id == slots[i].id,
        gains_sound_on(slots[i], routed_all(retired_all(slots, routes), routes, encs, n)[i]),
    decreases n,
{
    let s = retired_all(slots, routes);
    if n <= 0 {
        assert(s[i] == slots[i] || s[i] == slots[i].retired());
        assert forall|b: int| 0 <= b < 3 implies (#[trigger] s[i].gains@[b]).cur
            == slots[i].gains@[b].cur by {}
    } else {
        an_update_never_clicks(slots, routes, encs, n - 1, i);
        let p = routed_all(s, routes, encs, n - 1);
        let r = routes[n - 1];
        let q = routed(p, r, encs[n - 1]);
        lemma_first_with_id(p, r.id, 0);
        lemma_first_vacant(p, 0);
        let b0 = choose|b: int|
            0 <= b < 3 && !(#[trigger] slots[i].gains@[b]).cur.below(Single(SILENT));
        assert(p[i].gains@[b0].cur == slots[i].gains@[b0].cur);
        assert(!p[i].is_vacant());
        if q[i] != p[i] {
            assert(q[i] == p[i].following(r, encs[n - 1]));
            assert forall|b: int| 0 <= b < 3 implies (#[trigger] q[i].gains@[b]).cur
                == slots[i].gains@[b].cur by {
                assert(p[i].gains@[b].cur == slots[i].gains@[b].cur);
            }
        }
    }
}

/// A slot whose route is gone heads for silence, unless another route was
/// given the slot.
pub proof fn a_vanished_route_ramps_to_silence(
    slots: Seq<RouteSlot>,
    routes: Seq<EnvRoute>,
    encs: Seq<[Single; 9]>,
    n: int,
    i: int,
)
    requires
        0 <= n <= routes.len(),
        encs.len() == routes.len(),
        0 <= i < slots.len(),
        slots[i].id != FREE,
        !is_routed(routes, slots[i].id),
    ensures
        routed_all(retired_all(slots, routes), routes, encs, n).len() == slots.len(),
        ({
            let after = routed_all(retired_all(slots, routes), routes, encs, n)[i];
            after.id == slots[i].id ==> after == slots[i].retired()
        }),
        ({
            let after = routed_all(retired_all(slots, routes), routes, encs, n)[i];
            after.id != slots[i].id ==> is_routed(routes, after.id)
        }),
    decreases n,
{
    let s = retired_all(slots, routes);
    if n > 0 {
        a_vanished_route_ramps_to_silence(slots, routes, encs, n - 1, i);
        let p = routed_all(s, routes, encs, n - 1);
        let r = routes[n - 1];
        lemma_first_with_id(p, r.id, 0);
        lemma_first_vacant(p, 0);
        assert(is_routed(routes, r.id));
    }
}

/// No route is in two slots.
pub open spec fn ids_are_distinct(slots: Seq<RouteSlot>) -> bool {
    forall|i: int, j: int|
        0 <= i < j < slots.len() && (#[trigger] slots[i]).id != FREE ==> slots[i].id != (
        #[trigger] slots[j]).id
}

/// An update never puts a route into two slots.
pub proof fn slot_ids_stay_distinct(
    slots: Seq<RouteSlot>,
    routes: Seq<EnvRoute>,
    encs: Seq<[Single; 9]>,
    n: int,
)
    requires
        0 <= n <= routes.len(),
        ids_are_distinct(slots),
    ensures
        routed_all(retired_all(slots, routes), routes, encs, n).len() == slots.len(),
        ids_are_distinct(routed_all(retired_all(slots, routes), routes, encs, n)),
    decreases n,
{
    let s = retired_all(slots, routes);
    if n <= 0 {
        assert forall|i: int, j: int| 0 <= i < j < s.len() && (#[trigger] s[i]).id != FREE implies s[i].id
            != (#[trigger] s[j]).id by {
            assert(s[i].id == slots[i].id && s[j].id == slots[j].id);
        }
    } else {
        slot_ids_stay_distinct(slots, routes, encs, n - 1);
        let p = routed_all(s, routes, encs, n - 1);
        let r = routes[n - 1];
        let q = routed(p, r, encs[n - 1]);
        lemma_first_with_id(p, r.id, 0);
        lemma_first_vacant(p, 0);
        assert forall|i: int, j: int| 0 <= i < j < q.len() && (#[trigger] q[i]).id != FREE implies q[i].id
            != (#[trigger] q[j]).id by {
            assert(p[i].id != FREE ==> p[i].id != p[j].id);
        }
    }
}

/// The bank holds a slot that heads for the gains of `r`, under its id.
pub open spec fn has_route(slots: Seq<RouteSlot>, r: EnvRoute) -> bool {
    exists|i: int| 0 <= i < slots.len() && is_following(#[trigger] slots[i], r)
}

/// The slot heads for the gains of `r`, under its id.
pub open spec fn is_following(s: RouteSlot, r: EnvRoute) -> bool {
    s.id == r.id && forall|b: int| 0 <= b < 3 ==> (#[trigger] s.gains@[b]).target == r.gains@[b]
}

/// A route is left out only when every slot is taken as its turn comes; one
/// that is taken in and can be heard stays to the end of the update, where no
/// two routes have one id.
pub proof fn a_route_is_left_out_only_when_the_bank_is_full(
    slots: Seq<RouteSlot>,
    routes: Seq<EnvRoute>,
    encs: Seq<[Single; 9]>,
    k: int,
    n: int,
)
    requires
        0 <= k < n <= routes.len(),
        routes[k].id != FREE,
        exists|b: int| 0 <= b < 3 && !(#[trigger] routes[k].gains@[b]).below(Single(SILENT)),
        forall|i: int, j: int|
            0 <= i < j < routes.len() ==> (#[trigger] routes[i]).id != (#[trigger] routes[j]).id,
    ensures
        ({
            let s = retired_all(slots, routes);
            let turn = routed_all(s, routes, encs, k);
            ||| forall|i: int| 0 <= i < turn.len() ==> !(#[trigger] turn[i]).is_vacant()
            ||| has_route(routed_all(s, routes, encs, n), routes[k])
        }),
    decreases n,
{
    let s = retired_all(slots, routes);
    let p = routed_all(s, routes, encs, n - 1);
    let r = routes[n - 1];
    let q = routed(p, r, encs[n - 1]);
    lemma_first_with_id(p, r.id, 0);
    lemma_first_vacant(p, 0);
    let b = choose|b: int| 0 <= b < 3 && !(#[trigger] routes[k].gains@[b]).below(Single(SILENT));
    if k == n - 1 {
        if first_with_id(p, r.id, 0) < p.len() {
            assert(is_following(q[first_with_id(p, r.id, 0)], r));
        } else if first_vacant(p, 0) < p.len() {
            assert(is_following(q[first_vacant(p, 0)], r));
        } else {
            lemma_none_vacant(p, 0);
        }
    } else {
        a_route_is_left_out_only_when_the_bank_is_full(slots, routes, encs, k, n - 1);
        if has_route(p, routes[k]) {
            let i = choose|i: int| 0 <= i < p.len() && is_following(#[trigger] p[i], routes[k]);
            assert(p[i].gains@[b].target == routes[k].gains@[b]);
            assert(!p[i].is_vacant());
            assert(routes[k].id != r.id);
            assert(q[i] == p[i]);
            assert(is_following(q[i], routes[k]));
        }
    }
}

proof fn lemma_none_vacant(slots: Seq<RouteSlot>, from: int)
    requires
        0 <= from <= slots.len(),
        first_vacant(slots, from) == slots.len(),
    ensures
        forall|i: int| from <= i < slots.len() ==> !(#[trigger] slots[i]).is_vacant(),
    decreases slots.len() - from,
{
    if from < slots.len() {
        if slots[from].is_vacant() {
        } else {
            lemma_none_vacant(slots, from + 1);
        }
    }
}

} // verus!
