//! Stochastic energy tracer: the walk of every ray, what the receiver hears of
//! it and in which bin, and the reading of the decay.

use crate::arith::{
    ask, clamp_to, clamped, diff, lesser, lesser_of, minus, over, plus, prod, quot, sum, times, Calc,
    Op,
};
use crate::exact::{
    inner, is_amplitude, is_exact, is_nonneg, is_orderly, is_share, lemma_one, lemma_share,
    lemma_square, square, value, vector, Vector,
};
use crate::geom::{
    along, distance, distance_of, dot, dot_of, go_along, mirrored, norm, norm_of, normalize,
    reflect_off, unit_of, vdiff, vminus, vplus, vsum,
};
use crate::material::SPEED_OF_SOUND;
use crate::mesh::Point;
use crate::params::{ReverbParams, HALF, ONE};
use crate::probe::{answer, answering, is_steady};
use crate::rng::{advanced, on_sphere, toss, Rng};
use crate::scene::{AcousticGeometry, GeomHit, FARTHEST};
use crate::single::{rounded, Single};
use vstd::prelude::*;

verus! {

/// The pattern of -60.0.
pub const P_MINUS_60_0: u32 = 0xC270_0000;

/// The pattern of 1e-7.
pub const P_1E_MINUS_7: u32 = 0x33D6_BF95;

/// Bins of the echogram: three seconds of ten milliseconds each.
pub const NBINS: usize = 300;

/// Most bounces of a ray.
pub const BOUNCES: usize = 64;

/// First bin of the late field, 80 ms in.
pub const LATE_START: usize = 8;

/// The pattern of 0.01: the width of a bin in seconds.
pub const BIN_DT: u32 = 0x3C23_D70A;

/// The pattern of 0.5: radius of the receiver.
pub const RECEIVER_RADIUS: u32 = 0x3F00_0000;

/// The pattern of 3.0: rays are followed this long, in seconds.
pub const MAX_TIME: u32 = 0x4040_0000;

/// The pattern of 1e-3: a diffuse direction flatter than this is replaced by
/// the normal, and a ray starts this far off a surface.
pub const SKIMMING: u32 = 0x3A83_126F;

/// The pattern of 1e-12: less energy than this has no direction.
pub const NOTHING: u32 = 0x2B8C_BCCC;

/// The pattern of 0.1: shortest decay time.
pub const MIN_RT60: u32 = 0x3DCC_CCCD;

/// The pattern of 5.0: longest decay time.
pub const MAX_RT60: u32 = 0x40A0_0000;

/// The pattern of 0.7: largest late level.
pub const MAX_LEVEL: u32 = 0x3F33_3333;

#[derive(Debug)]
pub struct Echogram {
    pub bins: Vec<[Single; 3]>,
    /// Energy-weighted arrival direction per bin.
    pub dirs: Vec<[Single; 3]>,
}

/// No energy.
pub open spec fn dark() -> [Single; 3] {
    [Single(0), Single(0), Single(0)]
}

/// What an echogram holds.
pub ghost struct Echo {
    pub bins: Seq<[Single; 3]>,
    pub dirs: Seq<[Single; 3]>,
}

impl View for Echogram {
    type V = Echo;

    open spec fn view(&self) -> Echo {
        Echo { bins: self.bins@, dirs: self.dirs@ }
    }
}

impl Echo {
    pub open spec fn wf(self) -> bool {
        self.bins.len() == NBINS && self.dirs.len() == NBINS
    }

    /// All bins empty.
    pub open spec fn silent() -> Echo {
        Echo {
            bins: Seq::new(NBINS as nat, |i: int| dark()),
            dirs: Seq::new(NBINS as nat, |i: int| dark()),
        }
    }
}

/// A number moved a share of the way to another.
pub open spec fn blended(f: Calc, a: Single, o: Single, alpha: Single) -> Single {
    sum(f, a, prod(f, alpha, diff(f, o, a)))
}

fn blend<F: Fn(Op) -> Single>(f: &F, a: Single, o: Single, alpha: Single) -> (r: Single)
    requires
        is_steady(*f),
    ensures
        r == blended(answering(*f), a, o, alpha),
{
    plus(f, a, times(f, alpha, minus(f, o, a)))
}

/// A triple moved a share of the way to another.
pub open spec fn all_blended(f: Calc, a: [Single; 3], o: [Single; 3], alpha: Single) -> [Single; 3] {
    [
        blended(f, a@[0], o@[0], alpha),
        blended(f, a@[1], o@[1], alpha),
        blended(f, a@[2], o@[2], alpha),
    ]
}

/// The first sequence with each entry moved towards its partner in the second,
/// as far as there is one.
pub open spec fn approached(
    f: Calc,
    a: Seq<[Single; 3]>,
    b: Seq<[Single; 3]>,
    alpha: Single,
) -> Seq<[Single; 3]> {
    Seq::new(
        a.len(),
        |i: int|
            if i < b.len() {
                all_blended(f, a[i], b[i], alpha)
            } else {
                a[i]
            },
    )
}

fn approach<F: Fn(Op) -> Single>(
    f: &F,
    a: &mut Vec<[Single; 3]>,
    b: &Vec<[Single; 3]>,
    alpha: Single,
)
    requires
        is_steady(*f),
    ensures
        final(a)@ == approached(answering(*f), old(a)@, b@, alpha),
{
    let ghost g = answering(*f);
    let ghost a0 = a@;
    let ghost goal = approached(g, a0, b@, alpha);
    let mut i: usize = 0;
    while i < a.len() && i < b.len()
        invariant
            is_steady(*f),
            g == answering(*f),
            a@.len() == a0.len(),
            i <= a@.len(),
            i <= b@.len(),
            goal == approached(g, a0, b@, alpha),
            forall|j: int| 0 <= j < i ==> #[trigger] a@[j] == goal[j],
            forall|j: int| i <= j < a@.len() ==> #[trigger] a@[j] == a0[j],
        decreases a@.len() - i,
    {
        let x: [Single; 3] = a[i];
        let y: [Single; 3] = b[i];
        let r: [Single; 3] = [
            blend(f, x[0], y[0], alpha),
            blend(f, x[1], y[1], alpha),
            blend(f, x[2], y[2], alpha),
        ];
        assert(r@ =~= all_blended(g, x, y, alpha)@);
        a.set(i, r);
        i = i + 1;
    }
    assert(a@ =~= goal);
}

impl Echogram {
    pub fn new() -> (r: Self)
        ensures
            r@ == Echo::silent(),
    {
        let mut bins: Vec<[Single; 3]> = Vec::new();
        let mut dirs: Vec<[Single; 3]> = Vec::new();
        while bins.len() < NBINS
            invariant
                bins@.len() == dirs@.len() <= NBINS,
                forall|i: int| 0 <= i < bins@.len() ==> #[trigger] bins@[i] == dark(),
                forall|i: int| 0 <= i < dirs@.len() ==> #[trigger] dirs@[i] == dark(),
            decreases NBINS - bins@.len(),
        {
            bins.push([Single(0), Single(0), Single(0)]);
            dirs.push([Single(0), Single(0), Single(0)]);
        }
        assert(bins@ =~= Echo::silent().bins);
        assert(dirs@ =~= Echo::silent().dirs);
        Self { bins, dirs }
    }

    pub fn clear(&mut self)
        requires
            old(self)@.wf(),
        ensures
            final(self)@ == Echo::silent(),
    {
        let mut i: usize = 0;
        while i < NBINS
            invariant
                i <= NBINS,
                self.bins@.len() == NBINS,
                self.dirs@.len() == NBINS,
                forall|j: int| 0 <= j < i ==> #[trigger] self.bins@[j] == dark(),
                forall|j: int| 0 <= j < i ==> #[trigger] self.dirs@[j] == dark(),
            decreases NBINS - i,
        {
            self.bins.set(i, [Single(0), Single(0), Single(0)]);
            self.dirs.set(i, [Single(0), Single(0), Single(0)]);
            i = i + 1;
        }
        assert(self.bins@ =~= Echo::silent().bins);
        assert(self.dirs@ =~= Echo::silent().dirs);
    }

    /// Move every entry towards its partner in `other`: temporal accumulation
    /// across simulation updates.
    pub fn ema<F: Fn(Op) -> Single>(&mut self, f: &F, other: &Echogram, alpha: Single)
        requires
            is_steady(*f),
        ensures
            final(self)@.bins == approached(answering(*f), old(self)@.bins, other@.bins, alpha),
            final(self)@.dirs == approached(answering(*f), old(self)@.dirs, other@.dirs, alpha),
    {
        approach(f, &mut self.bins, &other.bins, alpha);
        approach(f, &mut self.dirs, &other.dirs, alpha);
    }

    /// Aggregate direction of what arrives from `from_s` on: the unit
    /// direction and its anisotropy. Straight ahead and none where there is
    /// too little.
    pub fn late_direction<F: Fn(Op) -> Single>(&self, f: &F, from_s: Single) -> (r: (
        [Single; 3],
        Single,
    ))
        requires
            self@.wf(),
            is_steady(*f),
        ensures
            r == self@.late(answering(*f), from_s),
    {
        let ghost g = answering(*f);
        let at: usize = over(f, from_s, Single(BIN_DT)).to_usize();
        let start: usize = if at <= NBINS {
            at
        } else {
            NBINS
        };
        let mut v: [Single; 3] = [Single(0), Single(0), Single(0)];
        let mut e: Single = Single(0);
        let mut i: usize = start;
        while i < NBINS
            invariant
                start <= i <= NBINS,
                self@.wf(),
                is_steady(*f),
                g == answering(*f),
                v == sum_dirs(g, self@.dirs, start as int, i as int),
                e == sum_band(g, self@.bins, 1, start as int, i as int),
            decreases NBINS - i,
        {
            v = vplus(f, v, self.dirs[i]);
            e = plus(f, e, self.bins[i][1]);
            i = i + 1;
        }
        let len: Single = norm_of(f, v);
        if len.lt(Single(NOTHING)) || e.lt(Single(NOTHING)) {
            let ahead: [Single; 3] = [Single(ONE), Single(0), Single(0)];
            assert(ahead@ =~= self@.late(g, from_s).0@);
            (ahead, Single(0))
        } else {
            let unit: [Single; 3] = [over(f, v[0], len), over(f, v[1], len), over(f, v[2], len)];
            assert(unit@ =~= self@.late(g, from_s).0@);
            (unit, lesser_of(over(f, len, e), Single(ONE)))
        }
    }
}

impl Echo {
    /// The aggregate direction of what arrives from a time on, and its
    /// anisotropy.
    pub open spec fn late(self, f: Calc, from_s: Single) -> ([Single; 3], Single) {
        let start = capped_bin(quot(f, from_s, Single(BIN_DT)));
        let v = sum_dirs(f, self.dirs, start, NBINS as int);
        let e = sum_band(f, self.bins, 1, start, NBINS as int);
        let len = norm(f, v);
        if len.below(Single(NOTHING)) || e.below(Single(NOTHING)) {
            ([Single(ONE), Single(0), Single(0)], Single(0))
        } else {
            (
                [quot(f, v@[0], len), quot(f, v@[1], len), quot(f, v@[2], len)],
                lesser(quot(f, len, e), Single(ONE)),
            )
        }
    }
}

/// The bin number, at most the number of bins.
pub open spec fn capped_bin(from: Single) -> int {
    let at = from.truncated(usize::MAX as nat);
    if at <= NBINS {
        at as int
    } else {
        NBINS as int
    }
}

/// The sum of the directions from `s` to before `n`.
pub open spec fn sum_dirs(f: Calc, dirs: Seq<[Single; 3]>, s: int, n: int) -> [Single; 3]
    decreases n - s,
{
    if n <= s {
        dark()
    } else {
        vsum(f, sum_dirs(f, dirs, s, n - 1), dirs[n - 1])
    }
}

/// The sum of one band from `s` to before `n`.
pub open spec fn sum_band(f: Calc, bins: Seq<[Single; 3]>, band: int, s: int, n: int) -> Single
    decreases n - s,
{
    if n <= s {
        Single(0)
    } else {
        sum(f, sum_band(f, bins, band, s, n - 1), bins[n - 1]@[band])
    }
}

/// Where a ray stands, what it still carries, and how far it has come.
#[derive(Clone, Copy, Debug)]
pub struct Ray {
    pub pos: Point,
    pub dir: Point,
    pub energy: [Single; 3],
    pub dist: Single,
}

/// What tracing goes by: the arithmetic, what a ray meets, the listener, and
/// the energy below which a band is dead.
pub ghost struct Tracing {
    pub f: Calc,
    pub hit: spec_fn((Point, Point)) -> Option<GeomHit>,
    pub listener: Point,
    pub faint: Single,
}

/// Distance along a segment to where it is nearest to the listener.
pub open spec fn nearest_at(f: Calc, ray: Ray, listener: Point) -> Single {
    dot(f, vdiff(f, listener, ray.pos), ray.dir)
}

/// The receiver hears the segment: it is nearest ahead, before the next
/// surface, and near enough.
pub open spec fn is_heard(f: Calc, ray: Ray, listener: Point, reach: Single) -> bool {
    let s = nearest_at(f, ray, listener);
    &&& Single(0).below(s)
    &&& s.below(reach)
    &&& distance(f, along(f, ray.pos, ray.dir, s), listener).below(Single(RECEIVER_RADIUS))
}

/// The bin of an arrival `s` along the segment.
pub open spec fn bin_of(f: Calc, ray: Ray, s: Single) -> int {
    quot(
        f,
        quot(f, sum(f, ray.dist, s), Single(SPEED_OF_SOUND)),
        Single(BIN_DT),
    ).truncated(usize::MAX as nat) as int
}

/// A direction sum with an arrival: back along the ray, by its mid energy.
pub open spec fn against(f: Calc, d: [Single; 3], ray: Ray) -> [Single; 3] {
    [
        diff(f, d@[0], prod(f, ray.dir@[0], ray.energy@[1])),
        diff(f, d@[1], prod(f, ray.dir@[1], ray.energy@[1])),
        diff(f, d@[2], prod(f, ray.dir@[2], ray.energy@[1])),
    ]
}

/// The echogram with an arrival in its bin.
pub open spec fn with_arrival(f: Calc, echo: Echo, ray: Ray, s: Single) -> Echo {
    let bin = bin_of(f, ray, s);
    if bin < NBINS {
        Echo {
            bins: echo.bins.update(bin, vsum(f, echo.bins[bin], ray.energy)),
            dirs: echo.dirs.update(bin, against(f, echo.dirs[bin], ray)),
        }
    } else {
        echo
    }
}

/// A trace under way: the ray (none where it has ended), the generator and the
/// echogram.
pub ghost struct Scene {
    pub ray: Option<Ray>,
    pub rng: u64,
    pub echo: Echo,
}

/// What is left of an energy behind a surface.
pub open spec fn absorbed(f: Calc, e: [Single; 3], a: [Single; 3]) -> [Single; 3] {
    [
        prod(f, e@[0], diff(f, Single(ONE), a@[0])),
        prod(f, e@[1], diff(f, Single(ONE), a@[1])),
        prod(f, e@[2], diff(f, Single(ONE), a@[2])),
    ]
}

/// The diffuse direction off a surface: the normal and a point on the sphere;
/// the normal itself where that is too flat.
pub open spec fn scattered(f: Calc, normal: Point, u: Point) -> Point {
    let d = unit_of(f, vsum(f, normal, u));
    if dot(f, d, normal).below(Single(SKIMMING)) {
        normal
    } else {
        d
    }
}

/// The bounce off a surface: absorb, then scatter or reflect.
pub open spec fn off_surface(ray: Ray, h: GeomHit, rng: u64, t: Tracing) -> (Option<Ray>, u64) {
    let f = t.f;
    let dist = sum(f, ray.dist, h.t);
    let energy = absorbed(f, ray.energy, h.material.absorption);
    let pos = along(f, along(f, ray.pos, ray.dir, h.t), h.normal, Single(SKIMMING));
    if Single(MAX_TIME).below(quot(f, dist, Single(SPEED_OF_SOUND))) || !(t.faint.below(energy@[0])
        || t.faint.below(energy@[1]) || t.faint.below(energy@[2])) {
        (None, rng)
    } else if toss(advanced(rng, 1)).below(h.material.scattering) {
        let u = on_sphere(f, toss(advanced(rng, 2)), toss(advanced(rng, 3)));
        (Some(Ray { pos, dir: scattered(f, h.normal, u), energy, dist }), advanced(rng, 3))
    } else {
        (Some(Ray { pos, dir: mirrored(f, ray.dir, h.normal), energy, dist }), advanced(rng, 1))
    }
}

/// One segment of a ray: what the receiver hears of it, and the bounce at its
/// end. A ray that meets nothing is heard on its last segment and ends.
pub open spec fn segment(s: Scene, t: Tracing) -> Scene {
    match s.ray {
        None => s,
        Some(ray) => {
            let h = (t.hit)((ray.pos, ray.dir));
            let reach = match h {
                None => Single(FARTHEST),
                Some(h) => h.t,
            };
            let echo = if is_heard(t.f, ray, t.listener, reach) {
                with_arrival(t.f, s.echo, ray, nearest_at(t.f, ray, t.listener))
            } else {
                s.echo
            };
            match h {
                None => Scene { ray: None, rng: s.rng, echo },
                Some(h) => {
                    let (next, rng) = off_surface(ray, h, s.rng, t);
                    Scene { ray: next, rng, echo }
                },
            }
        },
    }
}

/// The trace of one ray over `n` segments.
pub open spec fn segments(s: Scene, t: Tracing, n: int) -> Scene
    decreases n,
{
    if n <= 0 {
        s
    } else {
        segment(segments(s, t, n - 1), t)
    }
}

/// A new ray from the source.
pub open spec fn launched(s: Scene, source: Point, share: [Single; 3], t: Tracing) -> Scene {
    Scene {
        ray: Some(
            Ray {
                pos: source,
                dir: on_sphere(t.f, toss(advanced(s.rng, 1)), toss(advanced(s.rng, 2))),
                energy: share,
                dist: Single(0),
            },
        ),
        rng: advanced(s.rng, 2),
        echo: s.echo,
    }
}

/// The trace of `n` rays, each with a share of the energy.
pub open spec fn traced(source: Point, share: [Single; 3], t: Tracing, rng: u64, n: int) -> Scene
    decreases n,
{
    if n <= 0 {
        Scene { ray: None, rng, echo: Echo::silent() }
    } else {
        segments(
            launched(traced(source, share, t, rng, n - 1), source, share, t),
            t,
            BOUNCES as int,
        )
    }
}

/// What one ray starts with.
pub open spec fn ray_share(f: Calc, n_rays: u32, energy: [Single; 3]) -> [Single; 3] {
    let k = quot(f, Single(ONE), rounded(n_rays as nat));
    [prod(f, k, energy@[0]), prod(f, k, energy@[1]), prod(f, k, energy@[2])]
}

/// What tracing `n_rays` rays in a geometry goes by: a band is dead below a
/// ten-millionth of a ray's share.
pub open spec fn tracing_in<G: AcousticGeometry>(
    f: Calc,
    room: G,
    listener: Point,
    n_rays: u32,
) -> Tracing {
    Tracing {
        f,
        hit: |q: (Point, Point)| room.hit_by(f, q.0, q.1),
        listener,
        faint: prod(f, Single(P_1E_MINUS_7), quot(f, Single(ONE), rounded(n_rays as nat))),
    }
}

/// Put an arrival into its bin.
fn record<F: Fn(Op) -> Single>(f: &F, echo: &mut Echogram, ray: &Ray, s: Single)
    requires
        is_steady(*f),
        old(echo)@.wf(),
    ensures
        final(echo)@ == with_arrival(answering(*f), old(echo)@, *ray, s),
        final(echo)@.wf(),
{
    let arrival: Single = over(f, plus(f, ray.dist, s), Single(SPEED_OF_SOUND));
    let bin: usize = over(f, arrival, Single(BIN_DT)).to_usize();
    if bin < NBINS {
        let b: [Single; 3] = vplus(f, echo.bins[bin], ray.energy);
        let d: [Single; 3] = echo.dirs[bin];
        let e: Single = ray.energy[1];
        let r: [Single; 3] = [
            minus(f, d[0], times(f, ray.dir[0], e)),
            minus(f, d[1], times(f, ray.dir[1], e)),
            minus(f, d[2], times(f, ray.dir[2], e)),
        ];
        assert(r@ =~= against(answering(*f), d, *ray)@);
        echo.bins.set(bin, b);
        echo.dirs.set(bin, r);
    }
}

/// Bounce a ray off a surface.
fn bounce<F: Fn(Op) -> Single>(
    f: &F,
    ray: &Ray,
    h: &GeomHit,
    rng: &mut Rng,
    faint: Single,
    Ghost(t): Ghost<Tracing>,
) -> (r: Option<Ray>)
    requires
        is_steady(*f),
        t.f == answering(*f),
        t.faint == faint,
    ensures
        (r, final(rng)@) == off_surface(*ray, *h, old(rng)@, t),
{
    let ghost g = answering(*f);
    let at: Point = go_along(f, ray.pos, ray.dir, h.t);
    let dist: Single = plus(f, ray.dist, h.t);
    if Single(MAX_TIME).lt(over(f, dist, Single(SPEED_OF_SOUND))) {
        return None;
    }
    let a: [Single; 3] = h.material.absorption;
    let energy: [Single; 3] = [
        times(f, ray.energy[0], minus(f, Single(ONE), a[0])),
        times(f, ray.energy[1], minus(f, Single(ONE), a[1])),
        times(f, ray.energy[2], minus(f, Single(ONE), a[2])),
    ];
    assert(energy@ =~= absorbed(g, ray.energy, a)@);
    if !(faint.lt(energy[0]) || faint.lt(energy[1]) || faint.lt(energy[2])) {
        return None;
    }
    let ghost start = rng@;
    proof {
        reveal_with_fuel(advanced, 4);
    }
    let x: Single = rng.next_f32();
    let dir: Point = if x.lt(h.material.scattering) {
        let u: Point = rng.unit_sphere(f);
        let d: Point = normalize(f, vplus(f, h.normal, u));
        if dot_of(f, d, h.normal).lt(Single(SKIMMING)) {
            h.normal
        } else {
            d
        }
    } else {
        reflect_off(f, ray.dir, h.normal)
    };
    let pos: Point = go_along(f, at, h.normal, Single(SKIMMING));
    Some(Ray { pos, dir, energy, dist })
}

/// Follow a ray over one segment.
fn step<F: Fn(Op) -> Single, G: AcousticGeometry>(
    f: &F,
    room: &G,
    listener: Point,
    ray: Ray,
    rng: &mut Rng,
    faint: Single,
    echo: &mut Echogram,
    Ghost(t): Ghost<Tracing>,
) -> (r: Option<Ray>)
    requires
        is_steady(*f),
        room.is_sound(),
        old(echo)@.wf(),
        t == (Tracing {
            f: answering(*f),
            hit: |q: (Point, Point)| room.hit_by(answering(*f), q.0, q.1),
            listener,
            faint,
        }),
    ensures
        final(echo)@.wf(),
        (Scene { ray: r, rng: final(rng)@, echo: final(echo)@ }) == segment(
            (Scene { ray: Some(ray), rng: old(rng)@, echo: old(echo)@ }),
            t,
        ),
{
    let h: Option<GeomHit> = room.raycast_hit(f, ray.pos, ray.dir);
    assert((t.hit)((ray.pos, ray.dir)) == h);
    let reach: Single = match h {
        None => Single(FARTHEST),
        Some(g) => g.t,
    };
    let s: Single = dot_of(f, vminus(f, listener, ray.pos), ray.dir);
    if Single(0).lt(s) && s.lt(reach) {
        let closest: Point = go_along(f, ray.pos, ray.dir, s);
        if distance_of(f, closest, listener).lt(Single(RECEIVER_RADIUS)) {
            record(f, echo, &ray, s);
        }
    }
    match h {
        None => None,
        Some(g) => bounce(f, &ray, &g, rng, faint, Ghost(t)),
    }
}

/// Trace `n_rays` rays from the source.
pub fn trace<F: Fn(Op) -> Single, G: AcousticGeometry>(
    f: &F,
    room: &G,
    source: Point,
    listener: Point,
    n_rays: u32,
    source_energy: [Single; 3],
    rng: &mut Rng,
    out: &mut Echogram,
)
    requires
        is_steady(*f),
        room.is_sound(),
        old(out)@.wf(),
    ensures
        final(out)@.wf(),
        ({
            let end = traced(
                source,
                ray_share(answering(*f), n_rays, source_energy),
                tracing_in(answering(*f), *room, listener, n_rays),
                old(rng)@,
                n_rays as int,
            );
            final(out)@ == end.echo && final(rng)@ == end.rng
        }),
{
    out.clear();
    let ghost g = answering(*f);
    let per_ray: Single = over(f, Single(ONE), Single::from_count(n_rays as u64));
    let share: [Single; 3] = [
        times(f, per_ray, source_energy[0]),
        times(f, per_ray, source_energy[1]),
        times(f, per_ray, source_energy[2]),
    ];
    assert(share@ =~= ray_share(g, n_rays, source_energy)@);
    assert(share == ray_share(g, n_rays, source_energy));
    let faint: Single = times(f, Single(P_1E_MINUS_7), per_ray);
    let ghost t = tracing_in(g, *room, listener, n_rays);
    let ghost rng0 = rng@;
    let mut i: u32 = 0;
    while i < n_rays
        invariant
            i <= n_rays,
            is_steady(*f),
            room.is_sound(),
            g == answering(*f),
            t == (Tracing {
                f: g,
                hit: |q: (Point, Point)| room.hit_by(g, q.0, q.1),
                listener,
                faint,
            }),
            out@.wf(),
            out@ == traced(source, share, t, rng0, i as int).echo,
            rng@ == traced(source, share, t, rng0, i as int).rng,
        decreases n_rays - i,
    {
        let ghost before = traced(source, share, t, rng0, i as int);
        let ghost start = launched(before, source, share, t);
        let dir: Point = rng.unit_sphere(f);
        let mut ray: Option<Ray> = Some(Ray { pos: source, dir, energy: share, dist: Single(0) });
        assert((Scene { ray, rng: rng@, echo: out@ }) == start);
        let mut k: usize = 0;
        while k < BOUNCES && ray.is_some()
            invariant
                k <= BOUNCES,
                is_steady(*f),
                room.is_sound(),
                g == answering(*f),
                t == (Tracing {
                    f: g,
                    hit: |q: (Point, Point)| room.hit_by(g, q.0, q.1),
                    listener,
                    faint,
                }),
                out@.wf(),
                (Scene { ray, rng: rng@, echo: out@ }) == segments(start, t, k as int),
            decreases BOUNCES - k,
        {
            if let Some(r) = ray {
                ray = step(f, room, listener, r, rng, faint, out, Ghost(t));
            }
            k = k + 1;
        }
        proof {
            if ray is None {
                lemma_segments_end(start, t, k as int, BOUNCES as int);
            }
        }
        i = i + 1;
    }
}

proof fn lemma_segments_end(s: Scene, t: Tracing, k: int, n: int)
    requires
        0 <= k <= n,
        segments(s, t, k).ray is None,
    ensures
        segments(s, t, n) == segments(s, t, k),
    decreases n - k,
{
    if k < n {
        lemma_segments_end(s, t, k, n - 1);
    }
}

/// The energy of a band in double precision, done by the host. A number is
/// held as its bit pattern; zero is the pattern 0.
pub struct DecayMeter<A, D, P> {
    /// A sum with one more number.
    pub grow: A,
    /// A share of a total in decibels, no lower than -120.
    pub level: D,
    /// The first level less the second, in single precision.
    pub apart: P,
}

/// The answers of a meter.
pub ghost struct Decay {
    pub grow: spec_fn((u64, Single)) -> u64,
    pub level: spec_fn((u64, u64)) -> u64,
    pub apart: spec_fn((u64, u64)) -> Single,
}

/// Where a double-precision pattern, not of NaN, stands among the numbers.
pub open spec fn double_rank(p: u64) -> int {
    if p >= 0x8000_0000_0000_0000 {
        0x8000_0000_0000_0000 - p
    } else {
        p as int
    }
}

/// The first double-precision number is no larger than the second.
pub open spec fn double_at_most(a: u64, b: u64) -> bool {
    &&& -0x7FF0_0000_0000_0000 <= double_rank(a) <= 0x7FF0_0000_0000_0000
    &&& -0x7FF0_0000_0000_0000 <= double_rank(b) <= 0x7FF0_0000_0000_0000
    &&& double_rank(a) <= double_rank(b)
}

fn rank_of(p: u64) -> (r: i64)
    ensures
        r == double_rank(p),
{
    if p >= 0x8000_0000_0000_0000 {
        -((p - 0x8000_0000_0000_0000) as i64)
    } else {
        p as i64
    }
}

fn double_le(a: u64, b: u64) -> (r: bool)
    ensures
        r == double_at_most(a, b),
{
    let (x, y) = (rank_of(a), rank_of(b));
    -0x7FF0_0000_0000_0000 <= x && x <= 0x7FF0_0000_0000_0000 && -0x7FF0_0000_0000_0000 <= y && y
        <= 0x7FF0_0000_0000_0000 && x <= y
}

/// The pattern of -5.0 in double precision.
pub const FALLEN_5: u64 = 0xC014_0000_0000_0000;

/// The pattern of -25.0 in double precision.
pub const FALLEN_25: u64 = 0xC039_0000_0000_0000;

/// The energy of a band from bin `i` on.
pub open spec fn left_from(d: Decay, bins: Seq<[Single; 3]>, b: int, i: int) -> u64
    decreases NBINS - i,
{
    if i >= NBINS {
        0
    } else {
        (d.grow)((left_from(d, bins, b, i + 1), bins[i]@[b]))
    }
}

/// How far a band has fallen at a bin, in decibels.
pub open spec fn level_at(d: Decay, bins: Seq<[Single; 3]>, b: int, i: int) -> u64 {
    (d.level)((left_from(d, bins, b, i), left_from(d, bins, b, 0)))
}

/// How far a band has fallen, bin by bin.
pub open spec fn falls(d: Decay, bins: Seq<[Single; 3]>, b: int) -> spec_fn(usize) -> Fall {
    |i: usize|
        Fall {
            past_5: double_at_most(level_at(d, bins, b, i as int), FALLEN_5),
            past_25: double_at_most(level_at(d, bins, b, i as int), FALLEN_25),
        }
}

/// How far the decay has fallen at a bin: the first drop of 5 dB, of 25 dB.
#[derive(Clone, Copy, Debug, PartialEq, Eq, Structural)]
pub struct Fall {
    pub past_5: bool,
    pub past_25: bool,
}

/// The first bin from `i` on with a fall of 5 dB, looked for no further than
/// the first with a fall of 25 dB; the number of bins where there is none.
pub open spec fn first_5(fall: spec_fn(usize) -> Fall, i: int) -> int
    decreases NBINS - i,
{
    if i >= NBINS {
        NBINS as int
    } else if fall(i as usize).past_5 {
        i
    } else if fall(i as usize).past_25 {
        NBINS as int
    } else {
        first_5(fall, i + 1)
    }
}

/// The first bin from `i` on with a fall of 25 dB.
pub open spec fn first_25(fall: spec_fn(usize) -> Fall, i: int) -> int
    decreases NBINS - i,
{
    if i >= NBINS {
        NBINS as int
    } else if fall(i as usize).past_25 {
        i
    } else {
        first_25(fall, i + 1)
    }
}

/// The stretch of bins over which the decay is read; nothing where it does not
/// fall far enough or falls within one bin.
pub open spec fn decay_window(fall: spec_fn(usize) -> Fall) -> Option<(usize, usize)> {
    let i5 = first_5(fall, 0);
    let i25 = first_25(fall, 0);
    if i5 < NBINS && i25 < NBINS && i5 < i25 {
        Some((i5 as usize, i25 as usize))
    } else {
        None
    }
}

/// The decay time over a stretch of bins: 60 dB at its slope, within limits.
pub open spec fn fitted(
    f: Calc,
    d: Decay,
    bins: Seq<[Single; 3]>,
    b: int,
    i5: int,
    i25: int,
) -> Single {
    let dt = prod(f, rounded((i25 - i5) as nat), Single(BIN_DT));
    let ddb = (d.apart)((level_at(d, bins, b, i25), level_at(d, bins, b, i5)));
    clamped(
        quot(f, prod(f, Single(P_MINUS_60_0), dt), ddb),
        Single(MIN_RT60),
        Single(MAX_RT60),
    )
}

/// The decay time of a band: one half where the band is silent or its decay
/// cannot be read.
pub open spec fn band_rt60(f: Calc, d: Decay, bins: Seq<[Single; 3]>, b: int) -> Single {
    if double_at_most(left_from(d, bins, b, 0), 0) {
        Single(HALF)
    } else {
        match decay_window(falls(d, bins, b)) {
            None => Single(HALF),
            Some(w) => fitted(f, d, bins, b, w.0 as int, w.1 as int),
        }
    }
}

/// The late level of a band: the root of its energy 80 ms on, within limits.
pub open spec fn band_level(f: Calc, bins: Seq<[Single; 3]>, b: int) -> Single {
    lesser(
        f(Op::Root(sum_band(f, bins, b, LATE_START as int, NBINS as int))),
        Single(MAX_LEVEL),
    )
}

/// Read decay times and late levels of an echogram: backward integration and
/// a fit between 5 and 25 dB down.
pub fn estimate_reverb<
    F: Fn(Op) -> Single,
    A: Fn((u64, Single)) -> u64,
    D: Fn((u64, u64)) -> u64,
    P: Fn((u64, u64)) -> Single,
>(f: &F, meter: &DecayMeter<A, D, P>, echo: &Echogram) -> (r: ReverbParams)
    requires
        echo@.wf(),
        is_steady(*f),
        is_steady(meter.grow),
        is_steady(meter.level),
        is_steady(meter.apart),
    ensures
        ({
            let d = Decay {
                grow: answering(meter.grow),
                level: answering(meter.level),
                apart: answering(meter.apart),
            };
            forall|b: int|
                0 <= b < 3 ==> #[trigger] r.rt60@[b] == band_rt60(answering(*f), d, echo@.bins, b)
        }),
        forall|b: int|
            0 <= b < 3 ==> #[trigger] r.level@[b] == band_level(answering(*f), echo@.bins, b),
{
    let ghost g = answering(*f);
    let ghost d = Decay {
        grow: answering(meter.grow),
        level: answering(meter.level),
        apart: answering(meter.apart),
    };
    let ghost bins = echo@.bins;
    let mut rt60: [Single; 3] = [Single(HALF), Single(HALF), Single(HALF)];
    let mut lev: [Single; 3] = [Single(0), Single(0), Single(0)];
    let mut b: usize = 0;
    while b < 3
        invariant
            b <= 3,
            echo@.wf(),
            bins == echo@.bins,
            is_steady(*f),
            is_steady(meter.grow),
            is_steady(meter.level),
            is_steady(meter.apart),
            g == answering(*f),
            d == (Decay {
                grow: answering(meter.grow),
                level: answering(meter.level),
                apart: answering(meter.apart),
            }),
            forall|j: int| 0 <= j < b ==> #[trigger] rt60@[j] == band_rt60(g, d, bins, j),
            forall|j: int| b <= j < 3 ==> #[trigger] rt60@[j] == Single(HALF),
            forall|j: int| 0 <= j < b ==> #[trigger] lev@[j] == band_level(g, bins, j),
        decreases 3 - b,
    {
        let levels: Option<Vec<u64>> = decay_curve(meter, echo, b);
        if let Some(curve) = levels {
            if let Some((i5, i25)) = find_window(&curve, Ghost(falls(d, bins, b as int))) {
                let dt: Single = times(f, Single::from_usize(i25 - i5), Single(BIN_DT));
                let ddb: Single = (meter.apart)((curve[i25], curve[i5]));
                assert(answer(meter.apart, (curve@[i25 as int], curve@[i5 as int])) == ddb);
                rt60[b] = clamp_to(
                    over(f, times(f, Single(P_MINUS_60_0), dt), ddb),
                    Single(MIN_RT60),
                    Single(MAX_RT60),
                );
            }
        }
        let mut e: Single = Single(0);
        let mut i: usize = LATE_START;
        while i < NBINS
            invariant
                LATE_START <= i <= NBINS,
                b < 3,
                echo@.wf(),
                bins == echo@.bins,
                is_steady(*f),
                g == answering(*f),
                e == sum_band(g, bins, b as int, LATE_START as int, i as int),
            decreases NBINS - i,
        {
            e = plus(f, e, echo.bins[i][b]);
            i = i + 1;
        }
        let root: Single = ask(f, Op::Root(e));
        lev[b] = lesser_of(root, Single(MAX_LEVEL));
        b = b + 1;
    }
    ReverbParams { rt60, level: lev }
}

/// The fall of a band, bin by bin; nothing where it is silent.
fn decay_curve<
    A: Fn((u64, Single)) -> u64,
    D: Fn((u64, u64)) -> u64,
    P: Fn((u64, u64)) -> Single,
>(meter: &DecayMeter<A, D, P>, echo: &Echogram, b: usize) -> (r: Option<Vec<u64>>)
    requires
        b < 3,
        echo@.wf(),
        is_steady(meter.grow),
        is_steady(meter.level),
    ensures
        ({
            let d = Decay {
                grow: answering(meter.grow),
                level: answering(meter.level),
                apart: answering(meter.apart),
            };
            &&& r is None <==> double_at_most(left_from(d, echo@.bins, b as int, 0), 0)
            &&& r matches Some(v) ==> v@ == Seq::new(
                NBINS as nat,
                |i: int| level_at(d, echo@.bins, b as int, i),
            )
        }),
{
    let ghost d = Decay {
        grow: answering(meter.grow),
        level: answering(meter.level),
        apart: answering(meter.apart),
    };
    let ghost bins = echo@.bins;
    let mut edc: Vec<u64> = Vec::new();
    let mut i: usize = NBINS;
    let mut total: u64 = 0;
    while i > 0
        invariant
            i <= NBINS,
            b < 3,
            echo@.wf(),
            bins == echo@.bins,
            is_steady(meter.grow),
            d.grow == answering(meter.grow),
            total == left_from(d, bins, b as int, i as int),
            edc@.len() == NBINS - i,
            forall|k: int|
                0 <= k < edc@.len() ==> #[trigger] edc@[k] == left_from(
                    d,
                    bins,
                    b as int,
                    NBINS - 1 - k,
                ),
        decreases i,
    {
        i = i - 1;
        let x: Single = echo.bins[i][b];
        let next: u64 = (meter.grow)((total, x));
        assert(answer(meter.grow, (total, x)) == next);
        total = next;
        edc.push(total);
    }
    if double_le(total, 0) {
        return None;
    }
    let ghost goal = Seq::new(NBINS as nat, |i: int| level_at(d, bins, b as int, i));
    let mut v: Vec<u64> = Vec::new();
    let mut k: usize = 0;
    while k < NBINS
        invariant
            k <= NBINS,
            edc@.len() == NBINS,
            is_steady(meter.level),
            d.level == answering(meter.level),
            total == left_from(d, bins, b as int, 0),
            forall|k: int|
                0 <= k < NBINS ==> #[trigger] edc@[k] == left_from(d, bins, b as int, NBINS - 1 - k),
            goal == Seq::new(NBINS as nat, |i: int| level_at(d, bins, b as int, i)),
            v@ == goal.take(k as int),
        decreases NBINS - k,
    {
        let e: u64 = edc[NBINS - 1 - k];
        let l: u64 = (meter.level)((e, total));
        assert(answer(meter.level, (e, total)) == l);
        v.push(l);
        k = k + 1;
        assert(v@ =~= goal.take(k as int));
    }
    assert(v@ =~= goal);
    Some(v)
}

fn find_window(curve: &Vec<u64>, Ghost(ff): Ghost<spec_fn(usize) -> Fall>) -> (r: Option<
    (usize, usize),
>)
    requires
        curve@.len() == NBINS,
        forall|i: usize|
            i < NBINS ==> #[trigger] ff(i) == (Fall {
                past_5: double_at_most(curve@[i as int], FALLEN_5),
                past_25: double_at_most(curve@[i as int], FALLEN_25),
            }),
    ensures
        r == decay_window(ff),
        r matches Some(w) ==> w.0 < w.1 < NBINS,
{
    let mut t5: Option<usize> = None;
    let mut t25: Option<usize> = None;
    let mut i: usize = 0;
    while i < NBINS && t25.is_none()
        invariant
            i <= NBINS,
            curve@.len() == NBINS,
            forall|i: usize|
                i < NBINS ==> #[trigger] ff(i) == (Fall {
                    past_5: double_at_most(curve@[i as int], FALLEN_5),
                    past_25: double_at_most(curve@[i as int], FALLEN_25),
                }),
            t25 is None ==> first_25(ff, 0) == first_25(ff, i as int),
            t25 matches Some(k) ==> k < NBINS && first_25(ff, 0) == k,
            t25 is None && t5 is None ==> first_5(ff, 0) == first_5(ff, i as int),
            t25 is Some && t5 is None ==> first_5(ff, 0) == NBINS,
            t5 matches Some(k) ==> k < NBINS && first_5(ff, 0) == k,
        decreases NBINS - i, (if t25 is None { 1int } else { 0int }),
    {
        let past_5: bool = double_le(curve[i], FALLEN_5);
        let past_25: bool = double_le(curve[i], FALLEN_25);
        assert(ff(i).past_5 == past_5 && ff(i).past_25 == past_25);
        if t5.is_none() && past_5 {
            t5 = Some(i);
        }
        if past_25 {
            t25 = Some(i);
        } else {
            i = i + 1;
        }
    }
    match (t5, t25) {
        (Some(x), Some(y)) => if x < y {
            Some((x, y))
        } else {
            None
        },
        _ => None,
    }
}

/// Tracing without rays hears nothing and draws nothing.
pub proof fn no_rays_no_echo(source: Point, share: [Single; 3], t: Tracing, rng: u64)
    ensures
        traced(source, share, t, rng, 0).echo == Echo::silent(),
        traced(source, share, t, rng, 0).rng == rng,
{
}

/// A ray that has ended changes nothing more: the remaining segments leave
/// echogram and generator alone.
pub proof fn an_ended_ray_stays_ended(s: Scene, t: Tracing, n: int)
    requires
        s.ray is None,
    ensures
        segments(s, t, n) == s,
    decreases n,
{
    if n > 0 {
        an_ended_ray_stays_ended(s, t, n - 1);
    }
}

/// No bin holds less than nothing.
pub open spec fn is_nowhere_negative(e: Echo) -> bool {
    forall|i: int, b: int|
        0 <= i < e.bins.len() && 0 <= b < 3 ==> is_nonneg(#[trigger] e.bins[i]@[b])
}

/// A share of every band is absorbed wherever a ray meets something.
pub open spec fn absorbs_shares(t: Tracing) -> bool {
    forall|q: (Point, Point)|
        #![trigger (t.hit)(q)]
        (t.hit)(q) matches Some(h) ==> forall|b: int|
            0 <= b < 3 ==> is_share(#[trigger] h.material.absorption@[b])
}

/// The energy of every band is an amplitude, as long as the ray goes on.
spec fn is_lit(s: Scene) -> bool {
    s.ray matches Some(r) ==> forall|b: int| 0 <= b < 3 ==> is_amplitude(#[trigger] r.energy@[b])
}

proof fn lemma_segment_nonneg(s: Scene, t: Tracing)
    requires
        is_orderly(t.f),
        absorbs_shares(t),
        is_lit(s),
        s.echo.wf(),
        is_nowhere_negative(s.echo),
    ensures
        is_lit(segment(s, t)),
        segment(s, t).echo.wf(),
        is_nowhere_negative(segment(s, t).echo),
{
    if let Some(ray) = s.ray {
        let now = segment(s, t);
        let at = nearest_at(t.f, ray, t.listener);
        let bin = bin_of(t.f, ray, at);
        assert(is_amplitude(ray.energy@[0]) && is_amplitude(ray.energy@[1]) && is_amplitude(
            ray.energy@[2],
        ));
        assert forall|i: int, b: int| 0 <= i < now.echo.bins.len() && 0 <= b < 3 implies is_nonneg(
            #[trigger] now.echo.bins[i]@[b],
        ) by {
            assert(is_nonneg(s.echo.bins[i]@[b]));
        }
        let h = (t.hit)((ray.pos, ray.dir));
        if let Some(h) = h {
            assert(is_share(h.material.absorption@[0]));
            assert(is_share(h.material.absorption@[1]));
            assert(is_share(h.material.absorption@[2]));
            lemma_share(t.f, ray.energy@[0], diff(t.f, Single(ONE), h.material.absorption@[0]));
            lemma_share(t.f, ray.energy@[1], diff(t.f, Single(ONE), h.material.absorption@[1]));
            lemma_share(t.f, ray.energy@[2], diff(t.f, Single(ONE), h.material.absorption@[2]));
        }
    }
}

proof fn lemma_segments_nonneg(s: Scene, t: Tracing, n: int)
    requires
        is_orderly(t.f),
        absorbs_shares(t),
        is_lit(s),
        s.echo.wf(),
        is_nowhere_negative(s.echo),
    ensures
        is_lit(segments(s, t, n)),
        segments(s, t, n).echo.wf(),
        is_nowhere_negative(segments(s, t, n).echo),
    decreases n,
{
    if n > 0 {
        lemma_segments_nonneg(s, t, n - 1);
        lemma_segment_nonneg(segments(s, t, n - 1), t);
    }
}

/// No bin of an echogram ever holds a negative energy, however many rays are
/// traced, where the source gives none and the surfaces absorb shares.
pub proof fn energies_are_never_negative(
    source: Point,
    share: [Single; 3],
    t: Tracing,
    rng: u64,
    n: int,
)
    requires
        is_orderly(t.f),
        absorbs_shares(t),
        forall|b: int| 0 <= b < 3 ==> is_amplitude(#[trigger] share@[b]),
    ensures
        traced(source, share, t, rng, n).echo.wf(),
        is_nowhere_negative(traced(source, share, t, rng, n).echo),
    decreases n,
{
    if n > 0 {
        energies_are_never_negative(source, share, t, rng, n - 1);
        lemma_segments_nonneg(
            launched(traced(source, share, t, rng, n - 1), source, share, t),
            t,
            BOUNCES as int,
        );
    } else {
        assert(Single(0).num() == 0);
    }
}

/// In every bin the sum of the directions is no longer than the mid energy that
/// they were weighed with.
pub open spec fn is_directed(e: Echo) -> bool {
    forall|i: int|
        0 <= i < e.bins.len() ==> value((#[trigger] e.bins[i])@[1]) >= 0real && inner(
            vector(e.dirs[i]),
            vector(e.dirs[i]),
        ) <= square(value(e.bins[i]@[1]))
}

/// What a segment adds to the echogram is added exactly, for a ray whose
/// direction is no longer than one and whose energy is not negative.
pub open spec fn is_exact_segment(s: Scene, t: Tracing) -> bool {
    s.ray matches Some(ray) ==> {
        let bin = bin_of(t.f, ray, nearest_at(t.f, ray, t.listener));
        let e = ray.energy@[1];
        &&& value(e) >= 0real
        &&& inner(vector(ray.dir), vector(ray.dir)) <= 1real
        &&& bin < NBINS ==> {
            &&& is_exact(t.f, Op::Plus(s.echo.bins[bin]@[1], e))
            &&& forall|k: int|
                0 <= k < 3 ==> {
                    &&& is_exact(t.f, Op::Times(#[trigger] ray.dir@[k], e))
                    &&& is_exact(
                        t.f,
                        Op::Minus(s.echo.dirs[bin]@[k], prod(t.f, ray.dir@[k], e)),
                    )
                }
        }
    }
}

/// One coordinate of the sum with an arrival, squared.
proof fn lemma_arrival_axis(x: real, p: real, b: real, e: real)
    ensures
        (x - p * e) * (x - p * e) == x * x - 2real * (e * (x * p)) + (e * e) * (p * p),
        x * x + 2real * (b * (x * p)) + (b * b) * (p * p) >= 0real,
{
    assert((x - p * e) * (x - p * e) == x * x - 2real * (e * (x * p)) + (e * e) * (p * p))
        by (nonlinear_arith);
    assert((x + b * p) * (x + b * p) == x * x + 2real * (b * (x * p)) + (b * b) * (p * p))
        by (nonlinear_arith);
    lemma_square(x + b * p);
}

proof fn lemma_spread(k: real, a: real, b: real, c: real)
    ensures
        k * (a + b + c) == k * a + k * b + k * c,
{
    assert(k * (a + b + c) == k * a + k * b + k * c) by (nonlinear_arith);
}

/// An arrival keeps the sum of the directions within the sum of the energies.
proof fn lemma_arrival(d: Vector, u: Vector, b: real, e: real)
    requires
        b >= 0real,
        e >= 0real,
        inner(d, d) <= b * b,
        inner(u, u) <= 1real,
    ensures
        ({
            let r = (d.0 - u.0 * e, d.1 - u.1 * e, d.2 - u.2 * e);
            inner(r, r) <= (b + e) * (b + e)
        }),
{
    let (x, y, z) = d;
    let (p, q, w) = u;
    let (dd, uu, du) = (inner(d, d), inner(u, u), inner(d, u));
    lemma_arrival_axis(x, p, b, e);
    lemma_arrival_axis(y, q, b, e);
    lemma_arrival_axis(z, w, b, e);
    lemma_spread(b, x * p, y * q, z * w);
    lemma_spread(b * b, p * p, q * q, w * w);
    lemma_spread(e, x * p, y * q, z * w);
    lemma_spread(e * e, p * p, q * q, w * w);
    lemma_square(b);
    lemma_square(e);
    lemma_square(x);
    lemma_square(y);
    lemma_square(z);
    let bb = b * b;
    let ee = e * e;
    assert(bb * uu <= bb) by (nonlinear_arith)
        requires
            bb >= 0real,
            uu <= 1real,
    ;
    assert(ee * uu <= ee) by (nonlinear_arith)
        requires
            ee >= 0real,
            uu <= 1real,
    ;
    assert(b * du >= -bb);
    if b > 0real {
        assert(du >= -b) by (nonlinear_arith)
            requires
                b * du >= -(b * b),
                b > 0real,
        ;
    } else {
        assert(0real * 0real == 0real);
        assert(x * x == 0real && y * y == 0real && z * z == 0real);
        assert(x == 0real) by (nonlinear_arith)
            requires
                x * x == 0real,
        ;
        assert(y == 0real) by (nonlinear_arith)
            requires
                y * y == 0real,
        ;
        assert(z == 0real) by (nonlinear_arith)
            requires
                z * z == 0real,
        ;
        assert(0real * p == 0real && 0real * q == 0real && 0real * w == 0real);
    }
    assert(e * du >= -(e * b)) by (nonlinear_arith)
        requires
            du >= -b,
            e >= 0real,
    ;
    assert((b + e) * (b + e) == bb + 2real * (e * b) + ee) by (nonlinear_arith)
        requires
            bb == b * b,
            ee == e * e,
    ;
}

proof fn lemma_segment_directed(s: Scene, t: Tracing)
    requires
        s.echo.wf(),
        is_exact_segment(s, t),
        is_directed(s.echo),
    ensures
        segment(s, t).echo.wf(),
        is_directed(segment(s, t).echo),
{
    if let Some(ray) = s.ray {
        let now = segment(s, t).echo;
        let bin = bin_of(t.f, ray, nearest_at(t.f, ray, t.listener));
        let e = ray.energy@[1];
        assert forall|i: int| 0 <= i < now.bins.len() implies value((#[trigger] now.bins[i])@[1])
            >= 0real && inner(vector(now.dirs[i]), vector(now.dirs[i])) <= square(
            value(now.bins[i]@[1]),
        ) by {
            assert(value(s.echo.bins[i]@[1]) >= 0real);
            if i == bin {
                lemma_arrival(
                    vector(s.echo.dirs[i]),
                    vector(ray.dir),
                    value(s.echo.bins[i]@[1]),
                    value(e),
                );
                assert(is_exact(t.f, Op::Times(ray.dir@[0], e)));
                assert(is_exact(t.f, Op::Times(ray.dir@[1], e)));
                assert(is_exact(t.f, Op::Times(ray.dir@[2], e)));
            }
        }
    }
}

proof fn lemma_segments_directed(s: Scene, t: Tracing, n: int)
    requires
        s.echo.wf(),
        is_directed(s.echo),
        forall|k: int| 0 <= k < n ==> is_exact_segment(#[trigger] segments(s, t, k), t),
    ensures
        segments(s, t, n).echo.wf(),
        is_directed(segments(s, t, n).echo),
    decreases n,
{
    if n > 0 {
        lemma_segments_directed(s, t, n - 1);
        assert(is_exact_segment(segments(s, t, n - 1), t));
        lemma_segment_directed(segments(s, t, n - 1), t);
    }
}

/// The trace of ray `m`, over `k` segments.
pub open spec fn ray_traced(
    source: Point,
    share: [Single; 3],
    t: Tracing,
    rng: u64,
    m: int,
    k: int,
) -> Scene {
    segments(launched(traced(source, share, t, rng, m), source, share, t), t, k)
}

/// In exact arithmetic the directions of a bin never add up to more than its
/// mid energy, however many rays are traced.
pub proof fn directions_stay_within_the_energy(
    source: Point,
    share: [Single; 3],
    t: Tracing,
    rng: u64,
    n: int,
)
    requires
        forall|m: int, k: int|
            0 <= m < n && 0 <= k < BOUNCES ==> is_exact_segment(
                #[trigger] ray_traced(source, share, t, rng, m, k),
                t,
            ),
    ensures
        traced(source, share, t, rng, n).echo.wf(),
        is_directed(traced(source, share, t, rng, n).echo),
    decreases n,
{
    if n > 0 {
        directions_stay_within_the_energy(source, share, t, rng, n - 1);
        let s = launched(traced(source, share, t, rng, n - 1), source, share, t);
        assert forall|k: int| 0 <= k < BOUNCES implies is_exact_segment(
            #[trigger] segments(s, t, k),
            t,
        ) by {
            assert(segments(s, t, k) == ray_traced(source, share, t, rng, n - 1, k));
        }
        lemma_segments_directed(s, t, BOUNCES as int);
    } else {
        lemma_one();
        assert(0real * 0real == 0real);
    }
}

} // verus!
