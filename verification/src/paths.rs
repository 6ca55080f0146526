//! Propagation paths on a raw triangle mesh: the direct segment and, where it
//! is blocked, the strongest bent paths over the diffraction edges.

use crate::arith::{
    ask, clamp_to, clamped, diff, greater, greater_of, minus, over, plus, prod, quot, sum, times,
    Calc, Op,
};
use crate::diffraction::{knife_edge_bands, knives};
use crate::geom::{
    along, dim, dimmed, distance, distance_of, dot, dot_of, go_along, norm, norm_of, prod_diff,
    times_minus, vdiff, vminus, vplus, vscale, vscaled, vsum,
};
use crate::material::Material;
use crate::mesh::{
    budget_edges, budgeted, edges_of, extract_edges, is_incidence, DiffractionEdge, EdgeUse, Mesh,
    Point, SegHit,
};
use crate::params::ONE;
use crate::probe::{answering, is_steady};
use crate::rank::{best, best_of, precedes, strongest, the_strongest_are_listed, top};
use crate::single::{rounded, Single};
use vstd::prelude::*;

verus! {

/// Per-query knobs.
#[derive(Clone, Copy, Debug)]
pub struct PathBudget {
    /// How many edges to try as single-bend candidates.
    pub edge_candidates: usize,
    /// How many edges near each end to pair for double bends.
    pub pair_edges: usize,
    /// How many bent paths to return, strongest first.
    pub max_paths: usize,
}

impl Default for PathBudget {
    fn default() -> (r: Self)
        ensures
            r.edge_candidates == 24,
            r.pair_edges == 8,
            r.max_paths == 4,
    {
        Self { edge_candidates: 24, pair_edges: 8, max_paths: 4 }
    }
}

/// One found propagation path from source to listener.
#[derive(Debug)]
pub struct FoundPath {
    /// Source, bend points, listener.
    pub points: Vec<Point>,
    /// Total length in metres.
    pub length: Single,
    /// Per-band amplitude of what the geometry did to it.
    pub gains: [Single; 3],
    /// Stable identity for renderer taps.
    pub key: u32,
}

/// What a found path says.
pub ghost struct PathModel {
    pub points: Seq<Point>,
    pub length: Single,
    pub gains: [Single; 3],
    pub key: u32,
}

impl View for FoundPath {
    type V = PathModel;

    open spec fn view(&self) -> PathModel {
        PathModel {
            points: self.points@,
            length: self.length,
            gains: self.gains,
            key: self.key,
        }
    }
}

/// Key of the direct path.
pub const DIRECT_KEY: u32 = 0;

/// Key of the path over the silhouette.
pub const SILHOUETTE_KEY: u32 = 90_000;

/// Where the keys of double bends start.
pub const PAIR_KEYS: u32 = 100_000;

/// Room for the second edge in a double-bend key.
pub const PAIR_STRIDE: usize = 4096;

/// Largest number of edges: every key fits its word.
pub const MAX_EDGES: usize = 1_048_000;

/// Denser graphs are first cut to this many edges near the corridor.
pub const PREFILTER: usize = 1024;

/// How many double bends are worth a query of the mesh.
pub const PAIR_QUERIES: usize = 64;

/// The pattern of 0.25: the mid band is audibly obstructed below it.
pub const OBSTRUCTED: u32 = 0x3E80_0000;

/// The pattern of 0.2: a bend nearer than this to its neighbours is no bend.
pub const TOO_NEAR: u32 = 0x3E4C_CCCD;

/// The pattern of 1e-4: legs that let less of the lows through carry nothing.
pub const CARRIES_NOTHING: u32 = 0x38D1_B717;

/// The pattern of 0.65: entry bends lie before this share of the corridor.
pub const SOURCE_SIDE: u32 = 0x3F26_6666;

/// The pattern of 0.35: exit bends lie behind this share of the corridor.
pub const LISTENER_SIDE: u32 = 0x3EB3_3333;

/// The pattern of 40.0: faces that meet at fewer degrees make no crease.
pub const MIN_DIHEDRAL: u32 = 0x4220_0000;

/// The pattern of -1.0.
pub const P_MINUS_1_0: u32 = 0xBF80_0000;

/// The pattern of 1e-6.
pub const P_1E_MINUS_6: u32 = 0x3586_37BD;

/// The pattern of 1e-4.
pub const P_1E_MINUS_4: u32 = 0x38D1_B717;

/// The pattern of 0.01.
pub const P_0_01: u32 = 0x3C23_D70A;

/// The pattern of 0.03.
pub const P_0_03: u32 = 0x3CF5_C28F;

/// The pattern of 0.05.
pub const P_0_05: u32 = 0x3D4C_CCCD;

/// The pattern of 0.1.
pub const P_0_1: u32 = 0x3DCC_CCCD;

/// The pattern of 0.5.
pub const P_0_5: u32 = 0x3F00_0000;

/// The pattern of 0.618034.
pub const P_0_618034: u32 = 0x3F1E_377A;

/// The pattern of 24.0.
pub const P_24_0: u32 = 0x41C0_0000;

/// The pattern of 60.0.
pub const P_60_0: u32 = 0x4270_0000;

/// Where an edge stands in the corridor from source to listener.
#[derive(Clone, Copy, Debug)]
pub struct Corridor {
    /// Share of the way.
    pub t: Single,
    /// Importance over distance to the corridor.
    pub score: Single,
}

/// A bend over one edge.
#[derive(Clone, Copy, Debug)]
pub struct SingleBend {
    pub point: Point,
    pub d1: Single,
    pub d2: Single,
    /// Mid-band amplitude of the bend alone.
    pub bound: Single,
}

/// A bend over two edges.
#[derive(Clone, Copy, Debug)]
pub struct PairBend {
    pub p1: Point,
    pub p2: Point,
    pub d1: Single,
    pub dm: Single,
    pub d2: Single,
    /// Mid-band amplitude of the two bends alone.
    pub bound: Single,
}

/// What a bent path carries through the mesh.
#[derive(Clone, Copy, Debug)]
pub struct Carried {
    /// Low-band amplitude of the legs alone.
    pub low: Single,
    pub gains: [Single; 3],
    pub length: Single,
}

/// The middle of an edge.
pub open spec fn edge_middle(f: Calc, e: DiffractionEdge) -> Point {
    vscaled(f, vsum(f, e.a, e.b), Single(P_0_5))
}

fn middle_of<F: Fn(Op) -> Single>(f: &F, e: DiffractionEdge) -> (r: Point)
    requires
        is_steady(*f),
    ensures
        r == edge_middle(answering(*f), e),
{
    vscale(f, vplus(f, e.a, e.b), Single(P_0_5))
}

/// Where the middle of an edge stands in the corridor.
pub open spec fn corridor_of(f: Calc, e: DiffractionEdge, src: Point, lis: Point) -> Corridor {
    let seg = vdiff(f, lis, src);
    let c = edge_middle(f, e);
    let t = clamped(
        quot(f, dot(f, vdiff(f, c, src), seg), greater(dot(f, seg, seg), Single(P_1E_MINUS_6))),
        Single(0),
        Single(ONE),
    );
    let off = vdiff(f, c, along(f, src, seg, t));
    Corridor { t, score: quot(f, e.importance, sum(f, dot(f, off, off), Single(P_0_5))) }
}

fn find_corridor<F: Fn(Op) -> Single>(f: &F, e: DiffractionEdge, src: Point, lis: Point) -> (r:
    Corridor)
    requires
        is_steady(*f),
    ensures
        r == corridor_of(answering(*f), e, src, lis),
{
    let seg: Point = vminus(f, lis, src);
    let c: Point = middle_of(f, e);
    let len2: Single = greater_of(dot_of(f, seg, seg), Single(P_1E_MINUS_6));
    let share: Single = over(f, dot_of(f, vminus(f, c, src), seg), len2);
    let t: Single = clamp_to(share, Single(0), Single(ONE));
    let off: Point = vminus(f, c, go_along(f, src, seg, t));
    let d2: Single = dot_of(f, off, off);
    Corridor { t, score: over(f, e.importance, plus(f, d2, Single(P_0_5))) }
}

/// Where each edge stands in the corridor.
pub open spec fn corridors(
    f: Calc,
    edges: Seq<DiffractionEdge>,
    src: Point,
    lis: Point,
) -> spec_fn(usize) -> Corridor {
    |i: usize| corridor_of(f, edges[i as int], src, lis)
}

/// The amplitudes that a bend by a detour lets around; a bend is never
/// priced below a tenth of a millimetre.
pub open spec fn knife_at(f: Calc, detour: Single) -> [Single; 3] {
    knives(f, greater(detour, Single(P_1E_MINUS_4)))
}

fn price_bend<F: Fn(Op) -> Single>(f: &F, detour: Single) -> (r: [Single; 3])
    requires
        is_steady(*f),
    ensures
        r == knife_at(answering(*f), detour),
{
    knife_edge_bands(f, greater_of(detour, Single(P_1E_MINUS_4)))
}

/// How much longer the way over two legs is than the straight one.
pub open spec fn detour(f: Calc, d1: Single, d2: Single, straight: Single) -> Single {
    diff(f, sum(f, d1, d2), straight)
}

fn find_detour<F: Fn(Op) -> Single>(f: &F, d1: Single, d2: Single, straight: Single) -> (r: Single)
    requires
        is_steady(*f),
    ensures
        r == detour(answering(*f), d1, d2, straight),
{
    minus(f, plus(f, d1, d2), straight)
}

/// The bend over one edge.
pub open spec fn single_bend(f: Calc, e: DiffractionEdge, src: Point, lis: Point) -> SingleBend {
    let point = bend(f, e.a, e.b, src, lis);
    let d1 = distance(f, point, src);
    let d2 = distance(f, lis, point);
    SingleBend {
        point,
        d1,
        d2,
        bound: knife_at(f, detour(f, d1, d2, distance(f, lis, src)))@[1],
    }
}

fn bend_over<F: Fn(Op) -> Single>(f: &F, e: DiffractionEdge, src: Point, lis: Point) -> (r:
    SingleBend)
    requires
        is_steady(*f),
    ensures
        r == single_bend(answering(*f), e, src, lis),
{
    let point: Point = bend_point(f, e.a, e.b, src, lis);
    let d1: Single = distance_of(f, point, src);
    let d2: Single = distance_of(f, lis, point);
    let straight: Single = distance_of(f, lis, src);
    let ke: [Single; 3] = price_bend(f, find_detour(f, d1, d2, straight));
    SingleBend { point, d1, d2, bound: ke[1] }
}

/// The bend over each edge.
pub open spec fn single_bends(
    f: Calc,
    edges: Seq<DiffractionEdge>,
    src: Point,
    lis: Point,
) -> spec_fn(usize) -> SingleBend {
    |i: usize| single_bend(f, edges[i as int], src, lis)
}

/// The bend points on two edges after `n` rounds: each is moved in turn to
/// where the way over it is shortest, the other held.
pub open spec fn pair_points(
    f: Calc,
    e1: DiffractionEdge,
    e2: DiffractionEdge,
    src: Point,
    lis: Point,
    n: int,
) -> (Point, Point)
    decreases n,
{
    let p2 = if n <= 0 {
        edge_middle(f, e2)
    } else {
        bend(f, e2.a, e2.b, pair_points(f, e1, e2, src, lis, n - 1).0, lis)
    };
    (bend(f, e1.a, e1.b, src, p2), p2)
}

/// Rounds of moving the two bend points.
pub const PAIR_ROUNDS: usize = 3;

/// The bend over two edges.
pub open spec fn pair_bend(
    f: Calc,
    e1: DiffractionEdge,
    e2: DiffractionEdge,
    src: Point,
    lis: Point,
) -> PairBend {
    let (p1, p2) = pair_points(f, e1, e2, src, lis, PAIR_ROUNDS as int);
    let d1 = distance(f, p1, src);
    let dm = distance(f, p2, p1);
    let d2 = distance(f, lis, p2);
    PairBend {
        p1,
        p2,
        d1,
        dm,
        d2,
        bound: prod(
            f,
            knife_at(f, detour(f, d1, dm, distance(f, p2, src)))@[1],
            knife_at(f, detour(f, dm, d2, distance(f, lis, p1)))@[1],
        ),
    }
}

fn bend_over_two<F: Fn(Op) -> Single>(
    f: &F,
    e1: DiffractionEdge,
    e2: DiffractionEdge,
    src: Point,
    lis: Point,
) -> (r: PairBend)
    requires
        is_steady(*f),
    ensures
        r == pair_bend(answering(*f), e1, e2, src, lis),
{
    let ghost g = answering(*f);
    let mut p2: Point = middle_of(f, e2);
    let mut p1: Point = bend_point(f, e1.a, e1.b, src, p2);
    let mut n: usize = 0;
    while n < PAIR_ROUNDS
        invariant
            n <= PAIR_ROUNDS,
            is_steady(*f),
            g == answering(*f),
            (p1, p2) == pair_points(g, e1, e2, src, lis, n as int),
        decreases PAIR_ROUNDS - n,
    {
        p2 = bend_point(f, e2.a, e2.b, p1, lis);
        p1 = bend_point(f, e1.a, e1.b, src, p2);
        n = n + 1;
    }
    let d1: Single = distance_of(f, p1, src);
    let dm: Single = distance_of(f, p2, p1);
    let d2: Single = distance_of(f, lis, p2);
    let to2: Single = distance_of(f, p2, src);
    let from1: Single = distance_of(f, lis, p1);
    let k1: [Single; 3] = price_bend(f, find_detour(f, d1, dm, to2));
    let k2: [Single; 3] = price_bend(f, find_detour(f, dm, d2, from1));
    PairBend { p1, p2, d1, dm, d2, bound: times(f, k1[1], k2[1]) }
}

/// The bend over each pair of edges.
pub open spec fn pair_bends(
    f: Calc,
    edges: Seq<DiffractionEdge>,
    src: Point,
    lis: Point,
) -> spec_fn((usize, usize)) -> PairBend {
    |e: (usize, usize)| pair_bend(f, edges[e.0 as int], edges[e.1 as int], src, lis)
}

/// The edges among the first `n` that stand between `lo` and `hi`.
pub open spec fn between(
    corridor: spec_fn(usize) -> Corridor,
    lo: Single,
    hi: Single,
    n: int,
) -> Seq<usize>
    decreases n,
{
    if n <= 0 {
        Seq::empty()
    } else {
        let rest = between(corridor, lo, hi, n - 1);
        let t = corridor((n - 1) as usize).t;
        if t.below(lo) || hi.below(t) {
            rest
        } else {
            rest.push((n - 1) as usize)
        }
    }
}

/// The scores of the edges.
pub open spec fn scores(corridor: spec_fn(usize) -> Corridor, ids: Seq<usize>) -> Seq<Single> {
    Seq::new(ids.len(), |i: int| corridor(ids[i]).score)
}

/// The `max` best of `n` edges between `lo` and `hi` of the corridor.
pub open spec fn near_corridor(
    corridor: spec_fn(usize) -> Corridor,
    n: int,
    lo: Single,
    hi: Single,
    max: nat,
) -> Seq<usize> {
    let ids = between(corridor, lo, hi, n);
    best_of(scores(corridor, ids), ids, max)
}

/// Rank the edges between `lo` and `hi` of the corridor.
pub fn rank_corridor<F: Fn(Op) -> Single>(
    f: &F,
    edges: &Vec<DiffractionEdge>,
    src: Point,
    lis: Point,
    lo: Single,
    hi: Single,
    max: usize,
) -> (r: Vec<usize>)
    requires
        is_steady(*f),
    ensures
        r@ == near_corridor(
            corridors(answering(*f), edges@, src, lis),
            edges@.len() as int,
            lo,
            hi,
            max as nat,
        ),
        forall|i: int| 0 <= i < r@.len() ==> #[trigger] r@[i] < edges@.len(),
{
    let ghost cf = corridors(answering(*f), edges@, src, lis);
    let mut ids: Vec<usize> = Vec::new();
    let mut keys: Vec<Single> = Vec::new();
    let mut i: usize = 0;
    while i < edges.len()
        invariant
            i <= edges@.len(),
            is_steady(*f),
            cf == corridors(answering(*f), edges@, src, lis),
            ids@ == between(cf, lo, hi, i as int),
            keys@ == scores(cf, ids@),
            forall|j: int| 0 <= j < ids@.len() ==> #[trigger] ids@[j] < edges@.len(),
        decreases edges@.len() - i,
    {
        let c: Corridor = find_corridor(f, edges[i], src, lis);
        assert(cf(i) == c);
        if !c.t.lt(lo) && !hi.lt(c.t) {
            ids.push(i);
            keys.push(c.score);
            assert(keys@ =~= scores(cf, ids@));
        }
        i = i + 1;
    }
    let r: Vec<usize> = best(keys.as_slice(), &ids, max);
    assert forall|i: int| 0 <= i < r@.len() implies #[trigger] r@[i] < edges@.len() by {
        assert(ids@.contains(r@[i]));
        let j = choose|j: int| 0 <= j < ids@.len() && ids@[j] == r@[i];
    }
    r
}

/// The bend is clear of its neighbours.
pub open spec fn is_clear(b: SingleBend) -> bool {
    !b.d1.below(Single(TOO_NEAR)) && !b.d2.below(Single(TOO_NEAR))
}

/// Both bends are clear of their neighbours.
pub open spec fn is_clear_pair(b: PairBend) -> bool {
    !b.d1.below(Single(TOO_NEAR)) && !b.dm.below(Single(TOO_NEAR)) && !b.d2.below(Single(TOO_NEAR))
}

/// The first `n` of the pool whose bend is clear.
pub open spec fn clear_ones(
    bend: spec_fn(usize) -> SingleBend,
    pool: Seq<usize>,
    n: int,
) -> Seq<usize>
    decreases n,
{
    if n <= 0 {
        Seq::empty()
    } else {
        let rest = clear_ones(bend, pool, n - 1);
        if is_clear(bend(pool[n - 1])) {
            rest.push(pool[n - 1])
        } else {
            rest
        }
    }
}

/// The mid-band bounds of the bends.
pub open spec fn bounds(bend: spec_fn(usize) -> SingleBend, ids: Seq<usize>) -> Seq<Single> {
    Seq::new(ids.len(), |i: int| bend(ids[i]).bound)
}

/// The edges worth pricing as single bends: all of them, or those nearest the
/// corridor where the graph is dense.
pub open spec fn edge_pool(corridor: spec_fn(usize) -> Corridor, n: int) -> Seq<usize> {
    if n > PREFILTER {
        near_corridor(corridor, n, Single(0), Single(ONE), PREFILTER as nat)
    } else {
        Seq::new(n as nat, |i: int| i as usize)
    }
}

/// The single bends to try, best bound first.
pub open spec fn single_candidates(
    corridor: spec_fn(usize) -> Corridor,
    bend: spec_fn(usize) -> SingleBend,
    n: int,
    max: nat,
) -> Seq<usize> {
    let pool = edge_pool(corridor, n);
    let ids = clear_ones(bend, pool, pool.len() as int);
    best_of(bounds(bend, ids), ids, max)
}

pub fn rank_singles<F: Fn(Op) -> Single>(
    f: &F,
    edges: &Vec<DiffractionEdge>,
    src: Point,
    lis: Point,
    max: usize,
) -> (r: Vec<usize>)
    requires
        is_steady(*f),
    ensures
        r@ == single_candidates(
            corridors(answering(*f), edges@, src, lis),
            single_bends(answering(*f), edges@, src, lis),
            edges@.len() as int,
            max as nat,
        ),
        forall|i: int| 0 <= i < r@.len() ==> #[trigger] r@[i] < edges@.len(),
{
    let ghost cf = corridors(answering(*f), edges@, src, lis);
    let ghost bf = single_bends(answering(*f), edges@, src, lis);
    let n: usize = edges.len();
    let mut pool: Vec<usize> = Vec::new();
    if n > PREFILTER {
        pool = rank_corridor(f, edges, src, lis, Single(0), Single(ONE), PREFILTER);
    } else {
        let mut i: usize = 0;
        while i < n
            invariant
                i <= n,
                pool@ == Seq::new(i as nat, |j: int| j as usize),
            decreases n - i,
        {
            pool.push(i);
            i = i + 1;
            assert(pool@ =~= Seq::new(i as nat, |j: int| j as usize));
        }
    }
    assert(pool@ == edge_pool(cf, n as int));
    let mut ids: Vec<usize> = Vec::new();
    let mut keys: Vec<Single> = Vec::new();
    let mut k: usize = 0;
    while k < pool.len()
        invariant
            k <= pool@.len(),
            is_steady(*f),
            n == edges@.len(),
            bf == single_bends(answering(*f), edges@, src, lis),
            forall|j: int| 0 <= j < pool@.len() ==> #[trigger] pool@[j] < n,
            ids@ == clear_ones(bf, pool@, k as int),
            keys@ == bounds(bf, ids@),
            forall|j: int| 0 <= j < ids@.len() ==> #[trigger] ids@[j] < n,
        decreases pool@.len() - k,
    {
        let b: SingleBend = bend_over(f, edges[pool[k]], src, lis);
        assert(bf(pool@[k as int]) == b);
        if !b.d1.lt(Single(TOO_NEAR)) && !b.d2.lt(Single(TOO_NEAR)) {
            ids.push(pool[k]);
            keys.push(b.bound);
            assert(keys@ =~= bounds(bf, ids@));
        }
        k = k + 1;
    }
    let r: Vec<usize> = best(keys.as_slice(), &ids, max);
    assert forall|i: int| 0 <= i < r@.len() implies #[trigger] r@[i] < n by {
        assert(ids@.contains(r@[i]));
        let j = choose|j: int| 0 <= j < ids@.len() && ids@[j] == r@[i];
    }
    r
}

/// Key of the path that bends over one edge.
pub open spec fn single_key(ei: usize) -> u32 {
    (1 + ei) as u32
}

/// Key of the path that bends over two edges.
pub open spec fn pair_key(ei: usize, ej: usize) -> u32 {
    (PAIR_KEYS + ei * PAIR_STRIDE + ej) as u32
}

/// The paths that the first `n` single candidates give.
pub open spec fn single_paths(
    src: Point,
    lis: Point,
    bend: spec_fn(usize) -> SingleBend,
    carry: spec_fn(usize) -> Carried,
    ids: Seq<usize>,
    n: int,
) -> Seq<PathModel>
    decreases n,
{
    if n <= 0 {
        Seq::empty()
    } else {
        let rest = single_paths(src, lis, bend, carry, ids, n - 1);
        let c = carry(ids[n - 1]);
        if c.low.below(Single(CARRIES_NOTHING)) {
            rest
        } else {
            rest.push(
                PathModel {
                    points: seq![src, bend(ids[n - 1]).point, lis],
                    length: c.length,
                    gains: c.gains,
                    key: single_key(ids[n - 1]),
                },
            )
        }
    }
}

/// The pairs of one edge near the source with the first `n` edges near the
/// listener whose bends are clear.
pub open spec fn pair_row(
    pair: spec_fn((usize, usize)) -> PairBend,
    ei: usize,
    near_lis: Seq<usize>,
    n: int,
) -> Seq<(usize, usize)>
    decreases n,
{
    if n <= 0 {
        Seq::empty()
    } else {
        let rest = pair_row(pair, ei, near_lis, n - 1);
        let ej = near_lis[n - 1];
        if ei != ej && is_clear_pair(pair((ei, ej))) {
            rest.push((ei, ej))
        } else {
            rest
        }
    }
}

/// The pairs of the first `m` edges near the source.
pub open spec fn pair_rows(
    pair: spec_fn((usize, usize)) -> PairBend,
    near_src: Seq<usize>,
    near_lis: Seq<usize>,
    m: int,
) -> Seq<(usize, usize)>
    decreases m,
{
    if m <= 0 {
        Seq::empty()
    } else {
        pair_rows(pair, near_src, near_lis, m - 1) + pair_row(
            pair,
            near_src[m - 1],
            near_lis,
            near_lis.len() as int,
        )
    }
}

/// The mid-band bounds of the pairs.
pub open spec fn pair_bounds(
    pair: spec_fn((usize, usize)) -> PairBend,
    pairs: Seq<(usize, usize)>,
) -> Seq<Single> {
    Seq::new(pairs.len(), |i: int| pair(pairs[i]).bound)
}

/// The double bends to try, best bound first.
pub open spec fn pair_candidates(
    corridor: spec_fn(usize) -> Corridor,
    pair: spec_fn((usize, usize)) -> PairBend,
    n: int,
    per_side: nat,
) -> Seq<(usize, usize)> {
    let near_src = near_corridor(corridor, n, Single(0), Single(SOURCE_SIDE), per_side);
    let near_lis = near_corridor(corridor, n, Single(LISTENER_SIDE), Single(ONE), per_side);
    let pairs = pair_rows(pair, near_src, near_lis, near_src.len() as int);
    let picks = top(pair_bounds(pair, pairs), PAIR_QUERIES as nat);
    Seq::new(picks.len(), |i: int| pairs[picks[i] as int])
}

pub fn rank_pairs<F: Fn(Op) -> Single>(
    f: &F,
    edges: &Vec<DiffractionEdge>,
    src: Point,
    lis: Point,
    per_side: usize,
) -> (r: Vec<(usize, usize)>)
    requires
        is_steady(*f),
    ensures
        r@ == pair_candidates(
            corridors(answering(*f), edges@, src, lis),
            pair_bends(answering(*f), edges@, src, lis),
            edges@.len() as int,
            per_side as nat,
        ),
        forall|i: int|
            0 <= i < r@.len() ==> (#[trigger] r@[i]).0 < edges@.len() && r@[i].1 < edges@.len(),
{
    let n: usize = edges.len();
    let near_src: Vec<usize> = rank_corridor(
        f,
        edges,
        src,
        lis,
        Single(0),
        Single(SOURCE_SIDE),
        per_side,
    );
    let near_lis: Vec<usize> = rank_corridor(
        f,
        edges,
        src,
        lis,
        Single(LISTENER_SIDE),
        Single(ONE),
        per_side,
    );
    let ghost pf = pair_bends(answering(*f), edges@, src, lis);
    let mut pairs: Vec<(usize, usize)> = Vec::new();
    let mut keys: Vec<Single> = Vec::new();
    let mut m: usize = 0;
    while m < near_src.len()
        invariant
            m <= near_src@.len(),
            is_steady(*f),
            n == edges@.len(),
            pf == pair_bends(answering(*f), edges@, src, lis),
            forall|j: int| 0 <= j < near_src@.len() ==> #[trigger] near_src@[j] < n,
            forall|j: int| 0 <= j < near_lis@.len() ==> #[trigger] near_lis@[j] < n,
            pairs@ == pair_rows(pf, near_src@, near_lis@, m as int),
            keys@ == pair_bounds(pf, pairs@),
            forall|j: int| 0 <= j < pairs@.len() ==> (#[trigger] pairs@[j]).0 < n && pairs@[j].1 < n,
        decreases near_src@.len() - m,
    {
        let ei: usize = near_src[m];
        let ghost base = pairs@;
        let mut k: usize = 0;
        while k < near_lis.len()
            invariant
                k <= near_lis@.len(),
                ei < n,
                is_steady(*f),
                n == edges@.len(),
                pf == pair_bends(answering(*f), edges@, src, lis),
                forall|j: int| 0 <= j < near_lis@.len() ==> #[trigger] near_lis@[j] < n,
                pairs@ == base + pair_row(pf, ei, near_lis@, k as int),
                keys@ == pair_bounds(pf, pairs@),
                forall|j: int|
                    0 <= j < pairs@.len() ==> (#[trigger] pairs@[j]).0 < n && pairs@[j].1 < n,
            decreases near_lis@.len() - k,
        {
            let ej: usize = near_lis[k];
            if ei != ej {
                let b: PairBend = bend_over_two(f, edges[ei], edges[ej], src, lis);
                assert(pf((ei, ej)) == b);
                if !b.d1.lt(Single(TOO_NEAR)) && !b.dm.lt(Single(TOO_NEAR)) && !b.d2.lt(
                    Single(TOO_NEAR),
                ) {
                    pairs.push((ei, ej));
                    keys.push(b.bound);
                    assert(keys@ =~= pair_bounds(pf, pairs@));
                }
            }
            assert(pairs@ =~= base + pair_row(pf, ei, near_lis@, k + 1));
            k = k + 1;
        }
        m = m + 1;
    }
    let picks: Vec<usize> = strongest(keys.as_slice(), PAIR_QUERIES);
    let mut r: Vec<(usize, usize)> = Vec::new();
    let mut i: usize = 0;
    while i < picks.len()
        invariant
            i <= picks@.len(),
            forall|j: int| 0 <= j < picks@.len() ==> #[trigger] picks@[j] < pairs@.len(),
            forall|j: int| 0 <= j < pairs@.len() ==> (#[trigger] pairs@[j]).0 < n && pairs@[j].1 < n,
            r@ == Seq::new(i as nat, |j: int| pairs@[picks@[j] as int]),
        decreases picks@.len() - i,
    {
        r.push(pairs[picks[i]]);
        i = i + 1;
        assert(r@ =~= Seq::new(i as nat, |j: int| pairs@[picks@[j] as int]));
    }
    r
}

/// The paths that the first `n` double bends give.
pub open spec fn pair_paths(
    src: Point,
    lis: Point,
    pair: spec_fn((usize, usize)) -> PairBend,
    carry: spec_fn((usize, usize)) -> Carried,
    pairs: Seq<(usize, usize)>,
    n: int,
) -> Seq<PathModel>
    decreases n,
{
    if n <= 0 {
        Seq::empty()
    } else {
        let rest = pair_paths(src, lis, pair, carry, pairs, n - 1);
        let e = pairs[n - 1];
        let c = carry(e);
        if c.low.below(Single(CARRIES_NOTHING)) {
            rest
        } else {
            rest.push(
                PathModel {
                    points: seq![src, pair(e).p1, pair(e).p2, lis],
                    length: c.length,
                    gains: c.gains,
                    key: pair_key(e.0, e.1),
                },
            )
        }
    }
}

/// The mid-band gains of the paths.
pub open spec fn path_gains(paths: Seq<PathModel>) -> Seq<Single> {
    Seq::new(paths.len(), |i: int| paths[i].gains@[1])
}

/// The `max` strongest paths, strongest first.
pub open spec fn strongest_paths(paths: Seq<PathModel>, max: nat) -> Seq<PathModel> {
    let picks = top(path_gains(paths), max);
    Seq::new(picks.len(), |i: int| paths[picks[i] as int])
}

/// What the paths say.
pub open spec fn models(paths: Seq<FoundPath>) -> Seq<PathModel> {
    Seq::new(paths.len(), |i: int| paths[i]@)
}

/// Keep the `max` strongest paths.
fn keep_strongest(paths: Vec<FoundPath>, max: usize, out: &mut Vec<FoundPath>)
    ensures
        models(final(out)@) == models(old(out)@) + strongest_paths(models(paths@), max as nat),
{
    let ghost all = models(paths@);
    let ghost base = models(out@);
    let mut keys: Vec<Single> = Vec::new();
    let mut i: usize = 0;
    while i < paths.len()
        invariant
            i <= paths@.len(),
            all == models(paths@),
            keys@ == path_gains(all.take(i as int)),
        decreases paths@.len() - i,
    {
        keys.push(paths[i].gains[1]);
        i = i + 1;
        assert(keys@ =~= path_gains(all.take(i as int)));
    }
    assert(all.take(i as int) =~= all);
    let picks: Vec<usize> = strongest(keys.as_slice(), max);
    let mut held: Vec<Option<FoundPath>> = Vec::new();
    let n: usize = paths.len();
    let mut paths: Vec<FoundPath> = paths;
    // Back to front, so that each path is moved once.
    while paths.len() > 0
        invariant
            paths@.len() + held@.len() == n == all.len(),
            models(paths@) == all.take(paths@.len() as int),
            forall|j: int|
                0 <= j < held@.len() ==> (#[trigger] held@[j] matches Some(p) && p@ == all[n - 1 - j]),
        decreases paths@.len(),
    {
        let ghost before = paths@;
        let p: Option<FoundPath> = paths.pop();
        proof {
            let last = before.len() - 1;
            assert(models(before)[last] == all.take(before.len() as int)[last]);
            assert(p == Some(before[last]));
            assert(before[last]@ == all[last]);
            assert(models(paths@) =~= all.take(paths@.len() as int)) by {
                assert forall|j: int| 0 <= j < paths@.len() implies models(paths@)[j] == all[j] by {
                    assert(models(before)[j] == all.take(before.len() as int)[j]);
                }
            }
        }
        held.push(p);
    }
    let ghost goal = strongest_paths(all, max as nat);
    let mut k: usize = 0;
    while k < picks.len()
        invariant
            k <= picks@.len(),
            n == all.len() == held@.len(),
            forall|j: int| 0 <= j < picks@.len() ==> #[trigger] picks@[j] < n,
            forall|i: int, j: int| 0 <= i < j < picks@.len() ==> #[trigger] picks@[i] != #[trigger] picks@[j],
            goal.len() == picks@.len(),
            forall|j: int| 0 <= j < picks@.len() ==> #[trigger] goal[j] == all[picks@[j] as int],
            forall|j: int|
                k <= j < picks@.len() ==> (held@[n - 1 - #[trigger] picks@[j]] matches Some(p) && p@
                    == all[picks@[j] as int]),
            models(out@) == base + goal.take(k as int),
        decreases picks@.len() - k,
    {
        let ghost before = out@;
        let at: usize = n - 1 - picks[k];
        assert(held@[n - 1 - picks@[k as int]] is Some);
        if let Some(p) = held[at].take() {
            assert(p@ == all[picks@[k as int] as int]);
            out.push(p);
            assert(models(out@) =~= models(before).push(goal[k as int]));
            assert(goal.take(k + 1) =~= goal.take(k as int).push(goal[k as int]));
            assert(models(out@) =~= base + goal.take(k + 1));
        }
        k = k + 1;
    }
    assert(goal.take(k as int) =~= goal);
}

/// The mid band of the direct segment is audibly obstructed.
pub open spec fn is_blocked(direct: [Single; 3]) -> bool {
    direct@[1].below(Single(OBSTRUCTED))
}

/// What the search weighs: where each edge stands, and what the bends over
/// one and over two edges cost and carry.
pub ghost struct Survey {
    pub corridor: spec_fn(usize) -> Corridor,
    pub bend: spec_fn(usize) -> SingleBend,
    pub carry: spec_fn(usize) -> Carried,
    pub pair: spec_fn((usize, usize)) -> PairBend,
    pub carry_pair: spec_fn((usize, usize)) -> Carried,
}

/// All bent paths, before the strongest are kept.
pub open spec fn bent_paths(
    n: int,
    src: Point,
    lis: Point,
    budget: PathBudget,
    s: Survey,
    over: Option<PathModel>,
) -> Seq<PathModel> {
    let ids = single_candidates(s.corridor, s.bend, n, budget.edge_candidates as nat);
    let pairs = pair_candidates(s.corridor, s.pair, n, budget.pair_edges as nat);
    let bent = single_paths(src, lis, s.bend, s.carry, ids, ids.len() as int) + pair_paths(
        src,
        lis,
        s.pair,
        s.carry_pair,
        pairs,
        pairs.len() as int,
    );
    match over {
        None => bent,
        Some(p) => bent.push(p),
    }
}

/// The direct path, and where it is blocked the strongest bent paths.
pub open spec fn found_paths(
    n: int,
    src: Point,
    lis: Point,
    direct: [Single; 3],
    distance: Single,
    budget: PathBudget,
    s: Survey,
    over: Option<PathModel>,
) -> Seq<PathModel> {
    let straight = seq![
        PathModel {
            points: seq![src, lis],
            length: distance,
            gains: direct,
            key: DIRECT_KEY,
        },
    ];
    if is_blocked(direct) {
        straight + strongest_paths(bent_paths(n, src, lis, budget, s, over), budget.max_paths as nat)
    } else {
        straight
    }
}

/// What the model of an optional path is.
pub open spec fn model_of(p: Option<FoundPath>) -> Option<PathModel> {
    match p {
        None => None,
        Some(p) => Some(p@),
    }
}

/// A path, by what it bends over.
pub enum PathName {
    Direct,
    Single(usize),
    Pair(usize, usize),
    Silhouette,
}

/// The key of a path.
pub open spec fn path_key(p: PathName) -> u32 {
    match p {
        PathName::Direct => DIRECT_KEY,
        PathName::Single(ei) => single_key(ei),
        PathName::Pair(ei, ej) => pair_key(ei, ej),
        PathName::Silhouette => SILHOUETTE_KEY,
    }
}

/// The path bends over edges of a graph of at most 4096.
pub open spec fn is_modest(p: PathName) -> bool {
    match p {
        PathName::Single(ei) => ei < PAIR_STRIDE,
        PathName::Pair(ei, ej) => ei < PAIR_STRIDE && ej < PAIR_STRIDE,
        _ => true,
    }
}

/// Keys name their paths: over at most 4096 edges, two paths with the same key
/// bend over the same edges.
pub proof fn keys_name_their_paths(p: PathName, q: PathName)
    requires
        is_modest(p),
        is_modest(q),
        path_key(p) == path_key(q),
    ensures
        p == q,
{
    if let PathName::Pair(a, b) = p {
        if let PathName::Pair(c, d) = q {
            assert(a * PAIR_STRIDE + b == c * PAIR_STRIDE + d);
        }
    }
}

/// Ids below `n`, none twice.
spec fn are_ids(ids: Seq<usize>, n: int) -> bool {
    &&& ids.no_duplicates()
    &&& ids.len() <= n
    &&& forall|i: int| 0 <= i < ids.len() ==> #[trigger] ids[i] < n
}

proof fn lemma_between(corridor: spec_fn(usize) -> Corridor, lo: Single, hi: Single, n: int)
    requires
        0 <= n <= usize::MAX,
    ensures
        are_ids(between(corridor, lo, hi, n), n),
    decreases n,
{
    if n > 0 {
        lemma_between(corridor, lo, hi, n - 1);
        let rest = between(corridor, lo, hi, n - 1);
        let ids = between(corridor, lo, hi, n);
        assert forall|i: int, j: int| 0 <= i < ids.len() && 0 <= j < ids.len() && i != j implies ids[i]
            != ids[j] by {
            if i < rest.len() {
                assert(rest[i] < n - 1);
            }
            if j < rest.len() {
                assert(rest[j] < n - 1);
            }
        }
    }
}

proof fn lemma_best_ids(keys: Seq<Single>, ids: Seq<usize>, max: nat, n: int)
    requires
        are_ids(ids, n),
        keys.len() == ids.len(),
        n <= usize::MAX,
    ensures
        are_ids(best_of(keys, ids, max), n),
{
    the_strongest_are_listed(keys, max);
    let picks = top(keys, max);
    let r = best_of(keys, ids, max);
    assert forall|i: int, j: int| 0 <= i < r.len() && 0 <= j < r.len() && i != j implies r[i] != r[j] by {
        if i < j {
            assert(precedes(keys, picks[i] as int, picks[j] as int));
        } else {
            assert(precedes(keys, picks[j] as int, picks[i] as int));
        }
        assert(picks[i] < keys.len() && picks[j] < keys.len());
    }
    assert forall|i: int| 0 <= i < r.len() implies #[trigger] r[i] < n by {
        assert(picks[i] < keys.len());
    }
}

proof fn lemma_clear_ids(bend: spec_fn(usize) -> SingleBend, pool: Seq<usize>, k: int, n: int)
    requires
        0 <= k <= pool.len(),
        are_ids(pool, n),
    ensures
        are_ids(clear_ones(bend, pool, k), n),
        clear_ones(bend, pool, k).len() <= k,
        forall|i: int|
            0 <= i < clear_ones(bend, pool, k).len() ==> pool.take(k).contains(
                #[trigger] clear_ones(bend, pool, k)[i],
            ),
    decreases k,
{
    if k > 0 {
        lemma_clear_ids(bend, pool, k - 1, n);
        let rest = clear_ones(bend, pool, k - 1);
        let ids = clear_ones(bend, pool, k);
        assert forall|i: int| 0 <= i < rest.len() implies #[trigger] rest[i] != pool[k - 1]
            && pool.take(k).contains(rest[i]) by {
            assert(pool.take(k - 1).contains(rest[i]));
            let head = pool.take(k - 1);
            let j = choose|j: int| 0 <= j < head.len() && head[j] == rest[i];
            assert(pool[j] != pool[k - 1]);
            assert(pool.take(k)[j] == rest[i]);
        }
        assert(pool.take(k)[k - 1] == pool[k - 1]);
        assert forall|i: int, j: int| 0 <= i < ids.len() && 0 <= j < ids.len() && i != j implies ids[i]
            != ids[j] by {
            if i < rest.len() {
                assert(rest[i] != pool[k - 1]);
            }
            if j < rest.len() {
                assert(rest[j] != pool[k - 1]);
            }
        }
    }
}

/// The paths have names of a kind, none twice.
spec fn are_named(paths: Seq<PathModel>, names: Seq<PathName>) -> bool {
    &&& paths.len() == names.len()
    &&& names.no_duplicates()
    &&& forall|i: int|
        0 <= i < paths.len() ==> is_modest(#[trigger] names[i]) && paths[i].key == path_key(names[i])
}

proof fn lemma_push_name(paths: Seq<PathModel>, names: Seq<PathName>, p: PathModel, name: PathName)
    requires
        are_named(paths, names),
        is_modest(name),
        p.key == path_key(name),
        !names.contains(name),
    ensures
        are_named(paths.push(p), names.push(name)),
{
    let r = names.push(name);
    assert forall|i: int, j: int| 0 <= i < r.len() && 0 <= j < r.len() && i != j implies r[i] != r[j] by {
        if i < names.len() {
            assert(names.contains(names[i]));
        }
        if j < names.len() {
            assert(names.contains(names[j]));
        }
    }
}

proof fn lemma_single_names(
    src: Point,
    lis: Point,
    bend: spec_fn(usize) -> SingleBend,
    carry: spec_fn(usize) -> Carried,
    ids: Seq<usize>,
    k: int,
) -> (names: Seq<PathName>)
    requires
        0 <= k <= ids.len(),
        are_ids(ids, PAIR_STRIDE as int),
    ensures
        are_named(single_paths(src, lis, bend, carry, ids, k), names),
        names.len() <= k,
        forall|i: int|
            0 <= i < names.len() ==> (#[trigger] names[i] matches PathName::Single(e) && ids.take(
                k,
            ).contains(e)),
    decreases k,
{
    if k <= 0 {
        Seq::empty()
    } else {
        let rest = lemma_single_names(src, lis, bend, carry, ids, k - 1);
        let name = PathName::Single(ids[k - 1]);
        let was = single_paths(src, lis, bend, carry, ids, k - 1);
        let now = single_paths(src, lis, bend, carry, ids, k);
        assert(ids.take(k)[k - 1] == ids[k - 1]);
        assert forall|e: usize| ids.take(k - 1).contains(e) implies e != ids[k - 1] && ids.take(
            k,
        ).contains(e) by {
            let head = ids.take(k - 1);
            let j = choose|j: int| 0 <= j < head.len() && head[j] == e;
            assert(ids[j] != ids[k - 1]);
            assert(ids.take(k)[j] == e);
        }
        if carry(ids[k - 1]).low.below(Single(CARRIES_NOTHING)) {
            rest
        } else {
            if rest.contains(name) {
                let i = choose|i: int| 0 <= i < rest.len() && rest[i] == name;
                assert(rest[i] == PathName::Single(ids[k - 1]));
            }
            lemma_push_name(was, rest, now.last(), name);
            assert(now =~= was.push(now.last()));
            rest.push(name)
        }
    }
}

/// Pairs of ids below `n`, none twice.
spec fn are_pairs(pairs: Seq<(usize, usize)>, n: int) -> bool {
    &&& pairs.no_duplicates()
    &&& forall|i: int| 0 <= i < pairs.len() ==> (#[trigger] pairs[i]).0 < n && pairs[i].1 < n
}

proof fn lemma_row_pairs(
    pair: spec_fn((usize, usize)) -> PairBend,
    ei: usize,
    near_lis: Seq<usize>,
    k: int,
    n: int,
)
    requires
        0 <= k <= near_lis.len(),
        are_ids(near_lis, n),
        ei < n,
    ensures
        are_pairs(pair_row(pair, ei, near_lis, k), n),
        pair_row(pair, ei, near_lis, k).len() <= k,
        forall|i: int|
            0 <= i < pair_row(pair, ei, near_lis, k).len() ==> (#[trigger] pair_row(
                pair,
                ei,
                near_lis,
                k,
            )[i]).0 == ei && near_lis.take(k).contains(pair_row(pair, ei, near_lis, k)[i].1),
    decreases k,
{
    if k > 0 {
        lemma_row_pairs(pair, ei, near_lis, k - 1, n);
        let rest = pair_row(pair, ei, near_lis, k - 1);
        let now = pair_row(pair, ei, near_lis, k);
        assert(near_lis.take(k)[k - 1] == near_lis[k - 1]);
        assert forall|i: int| 0 <= i < rest.len() implies (#[trigger] rest[i]).1 != near_lis[k - 1]
            && near_lis.take(k).contains(rest[i].1) by {
            assert(near_lis.take(k - 1).contains(rest[i].1));
            let head = near_lis.take(k - 1);
            let j = choose|j: int| 0 <= j < head.len() && head[j] == rest[i].1;
            assert(near_lis[j] != near_lis[k - 1]);
            assert(near_lis.take(k)[j] == rest[i].1);
        }
        assert forall|i: int, j: int| 0 <= i < now.len() && 0 <= j < now.len() && i != j implies now[i]
            != now[j] by {
            if i < rest.len() {
                assert(rest[i].1 != near_lis[k - 1]);
            }
            if j < rest.len() {
                assert(rest[j].1 != near_lis[k - 1]);
            }
        }
    }
}

proof fn lemma_all_pairs(
    pair: spec_fn((usize, usize)) -> PairBend,
    near_src: Seq<usize>,
    near_lis: Seq<usize>,
    m: int,
    n: int,
)
    requires
        0 <= m <= near_src.len(),
        are_ids(near_src, n),
        are_ids(near_lis, n),
    ensures
        are_pairs(pair_rows(pair, near_src, near_lis, m), n),
        pair_rows(pair, near_src, near_lis, m).len() <= m * n,
        forall|i: int|
            0 <= i < pair_rows(pair, near_src, near_lis, m).len() ==> near_src.take(m).contains(
                (#[trigger] pair_rows(pair, near_src, near_lis, m)[i]).0,
            ),
    decreases m,
{
    if m <= 0 {
        assert(0 * n == 0) by (nonlinear_arith);
    } else {
        lemma_all_pairs(pair, near_src, near_lis, m - 1, n);
        let len = near_lis.len() as int;
        let ei = near_src[m - 1];
        lemma_row_pairs(pair, ei, near_lis, len, n);
        let rest = pair_rows(pair, near_src, near_lis, m - 1);
        let row = pair_row(pair, ei, near_lis, len);
        let now = pair_rows(pair, near_src, near_lis, m);
        assert(near_src.take(m)[m - 1] == ei);
        assert(m * n == (m - 1) * n + n) by (nonlinear_arith);
        assert forall|i: int| 0 <= i < rest.len() implies (#[trigger] rest[i]).0 != ei
            && near_src.take(m).contains(rest[i].0) by {
            assert(near_src.take(m - 1).contains(rest[i].0));
            let head = near_src.take(m - 1);
            let j = choose|j: int| 0 <= j < head.len() && head[j] == rest[i].0;
            assert(near_src[j] != near_src[m - 1]);
            assert(near_src.take(m)[j] == rest[i].0);
        }
        assert forall|i: int, j: int| 0 <= i < now.len() && 0 <= j < now.len() && i != j implies now[i]
            != now[j] by {
            if i < rest.len() {
                assert(rest[i].0 != ei);
            } else {
                assert(row[i - rest.len()].0 == ei);
            }
            if j < rest.len() {
                assert(rest[j].0 != ei);
            } else {
                assert(row[j - rest.len()].0 == ei);
            }
        }
        assert forall|i: int| 0 <= i < now.len() implies (#[trigger] now[i]).0 < n && now[i].1 < n
            && near_src.take(m).contains(now[i].0) by {
            if i < rest.len() {
                assert(now[i] == rest[i]);
            } else {
                assert(now[i] == row[i - rest.len()]);
            }
        }
    }
}

proof fn lemma_pair_names(
    src: Point,
    lis: Point,
    pair: spec_fn((usize, usize)) -> PairBend,
    carry: spec_fn((usize, usize)) -> Carried,
    pairs: Seq<(usize, usize)>,
    k: int,
) -> (names: Seq<PathName>)
    requires
        0 <= k <= pairs.len(),
        are_pairs(pairs, PAIR_STRIDE as int),
    ensures
        are_named(pair_paths(src, lis, pair, carry, pairs, k), names),
        names.len() <= k,
        forall|i: int|
            0 <= i < names.len() ==> (#[trigger] names[i] matches PathName::Pair(a, b)
                && pairs.take(k).contains((a, b))),
    decreases k,
{
    if k <= 0 {
        Seq::empty()
    } else {
        let rest = lemma_pair_names(src, lis, pair, carry, pairs, k - 1);
        let e = pairs[k - 1];
        let name = PathName::Pair(e.0, e.1);
        let was = pair_paths(src, lis, pair, carry, pairs, k - 1);
        let now = pair_paths(src, lis, pair, carry, pairs, k);
        assert(pairs.take(k)[k - 1] == e);
        assert forall|d: (usize, usize)| pairs.take(k - 1).contains(d) implies d != e && pairs.take(
            k,
        ).contains(d) by {
            let head = pairs.take(k - 1);
            let j = choose|j: int| 0 <= j < head.len() && head[j] == d;
            assert(pairs[j] != pairs[k - 1]);
            assert(pairs.take(k)[j] == d);
        }
        if carry(e).low.below(Single(CARRIES_NOTHING)) {
            rest
        } else {
            if rest.contains(name) {
                let i = choose|i: int| 0 <= i < rest.len() && rest[i] == name;
                assert(rest[i] == PathName::Pair(e.0, e.1));
            }
            lemma_push_name(was, rest, now.last(), name);
            assert(now =~= was.push(now.last()));
            rest.push(name)
        }
    }
}

proof fn lemma_bent_names(
    n: int,
    src: Point,
    lis: Point,
    budget: PathBudget,
    s: Survey,
    over: Option<PathModel>,
) -> (names: Seq<PathName>)
    requires
        0 <= n <= PAIR_STRIDE,
        over matches Some(p) ==> p.key == SILHOUETTE_KEY,
    ensures
        are_named(bent_paths(n, src, lis, budget, s, over), names),
        !names.contains(PathName::Direct),
        names.len() <= n + n * n + 1,
{
    let c = s.corridor;
    lemma_between(c, Single(0), Single(ONE), n);
    let all = between(c, Single(0), Single(ONE), n);
    lemma_best_ids(scores(c, all), all, PREFILTER as nat, n);
    let pool = edge_pool(c, n);
    assert(are_ids(pool, n));
    lemma_clear_ids(s.bend, pool, pool.len() as int, n);
    let clear = clear_ones(s.bend, pool, pool.len() as int);
    lemma_best_ids(bounds(s.bend, clear), clear, budget.edge_candidates as nat, n);
    let ids = single_candidates(c, s.bend, n, budget.edge_candidates as nat);
    assert(are_ids(ids, n));
    let singles = lemma_single_names(src, lis, s.bend, s.carry, ids, ids.len() as int);
    let side = budget.pair_edges as nat;
    let from = between(c, Single(0), Single(SOURCE_SIDE), n);
    lemma_between(c, Single(0), Single(SOURCE_SIDE), n);
    lemma_best_ids(scores(c, from), from, side, n);
    let to = between(c, Single(LISTENER_SIDE), Single(ONE), n);
    lemma_between(c, Single(LISTENER_SIDE), Single(ONE), n);
    lemma_best_ids(scores(c, to), to, side, n);
    let near_src = near_corridor(c, n, Single(0), Single(SOURCE_SIDE), side);
    let near_lis = near_corridor(c, n, Single(LISTENER_SIDE), Single(ONE), side);
    let found = pair_rows(s.pair, near_src, near_lis, near_src.len() as int);
    lemma_all_pairs(s.pair, near_src, near_lis, near_src.len() as int, n);
    assert(near_src.len() * n <= n * n && n * n <= PAIR_STRIDE * PAIR_STRIDE) by (nonlinear_arith)
        requires
            near_src.len() <= n,
            0 <= n <= PAIR_STRIDE,
    ;
    let keys = pair_bounds(s.pair, found);
    the_strongest_are_listed(keys, PAIR_QUERIES as nat);
    let picks = top(keys, PAIR_QUERIES as nat);
    let pairs = pair_candidates(c, s.pair, n, side);
    assert forall|i: int, j: int| 0 <= i < pairs.len() && 0 <= j < pairs.len() && i != j implies pairs[i]
        != pairs[j] by {
        if i < j {
            assert(precedes(keys, picks[i] as int, picks[j] as int));
        } else {
            assert(precedes(keys, picks[j] as int, picks[i] as int));
        }
        assert(picks[i] < keys.len() && picks[j] < keys.len());
    }
    assert forall|i: int| 0 <= i < pairs.len() implies (#[trigger] pairs[i]).0 < PAIR_STRIDE
        && pairs[i].1 < PAIR_STRIDE by {
        assert(picks[i] < keys.len());
        assert(found[picks[i] as int].0 < n);
    }
    assert(are_pairs(pairs, PAIR_STRIDE as int));
    assert forall|i: int| 0 <= i < ids.len() implies #[trigger] ids[i] < PAIR_STRIDE by {}
    let doubles = lemma_pair_names(src, lis, s.pair, s.carry_pair, pairs, pairs.len() as int);
    let both = singles + doubles;
    let bent = single_paths(src, lis, s.bend, s.carry, ids, ids.len() as int) + pair_paths(
        src,
        lis,
        s.pair,
        s.carry_pair,
        pairs,
        pairs.len() as int,
    );
    assert forall|i: int, j: int| 0 <= i < both.len() && 0 <= j < both.len() && i != j implies both[i]
        != both[j] by {
        if i < singles.len() {
            assert(both[i] == singles[i] && singles[i] is Single);
        } else {
            assert(both[i] == doubles[i - singles.len()] && doubles[i - singles.len()] is Pair);
        }
        if j < singles.len() {
            assert(both[j] == singles[j] && singles[j] is Single);
        } else {
            assert(both[j] == doubles[j - singles.len()] && doubles[j - singles.len()] is Pair);
        }
    }
    assert forall|i: int| 0 <= i < both.len() implies (#[trigger] both[i] is Single || both[i] is Pair) by {
        if i < singles.len() {
            assert(both[i] == singles[i]);
        } else {
            assert(both[i] == doubles[i - singles.len()]);
        }
    }
    assert(are_named(bent, both)) by {
        assert forall|i: int| 0 <= i < bent.len() implies is_modest(#[trigger] both[i])
            && bent[i].key == path_key(both[i]) by {
            if i < singles.len() {
                assert(both[i] == singles[i]);
            } else {
                assert(both[i] == doubles[i - singles.len()]);
            }
        }
    }
    match over {
        None => both,
        Some(p) => {
            lemma_push_name(bent, both, p, PathName::Silhouette);
            both.push(PathName::Silhouette)
        },
    }
}

/// Over at most 4096 edges, no two paths of one result have the same key.
pub proof fn the_keys_of_one_result_are_distinct(
    n: int,
    src: Point,
    lis: Point,
    direct: [Single; 3],
    distance: Single,
    budget: PathBudget,
    s: Survey,
    over: Option<PathModel>,
    i: int,
    j: int,
)
    requires
        0 <= n <= PAIR_STRIDE,
        over matches Some(p) ==> p.key == SILHOUETTE_KEY,
        0 <= i < j < found_paths(n, src, lis, direct, distance, budget, s, over).len(),
    ensures
        ({
            let r = found_paths(n, src, lis, direct, distance, budget, s, over);
            r[i].key != r[j].key
        }),
{
    let r = found_paths(n, src, lis, direct, distance, budget, s, over);
    let names = lemma_bent_names(n, src, lis, budget, s, over);
    let bent = bent_paths(n, src, lis, budget, s, over);
    let keys = path_gains(bent);
    assert(n * n <= PAIR_STRIDE * PAIR_STRIDE) by (nonlinear_arith)
        requires
            0 <= n <= PAIR_STRIDE,
    ;
    the_strongest_are_listed(keys, budget.max_paths as nat);
    let picks = top(keys, budget.max_paths as nat);
    let q = picks[j - 1] as int;
    assert(picks[j - 1] < keys.len());
    assert(r[j] == bent[q]);
    if i == 0 {
        if r[j].key == DIRECT_KEY {
            keys_name_their_paths(PathName::Direct, names[q]);
            assert(names.contains(names[q]));
        }
    } else {
        let p = picks[i - 1] as int;
        assert(picks[i - 1] < keys.len());
        assert(r[i] == bent[p]);
        assert(precedes(keys, p, q));
        if r[i].key == r[j].key {
            keys_name_their_paths(names[p], names[q]);
        }
    }
}

/// The direct path always comes first, and a clear line gives it alone.
pub proof fn a_clear_line_returns_only_the_direct_path(
    n: int,
    src: Point,
    lis: Point,
    direct: [Single; 3],
    distance: Single,
    budget: PathBudget,
    s: Survey,
    over: Option<PathModel>,
)
    ensures
        ({
            let r = found_paths(n, src, lis, direct, distance, budget, s, over);
            &&& r.len() >= 1
            &&& r[0].key == DIRECT_KEY && r[0].gains == direct && r[0].points == seq![src, lis]
            &&& !is_blocked(direct) ==> r.len() == 1
        }),
{
}

/// Bent paths come strongest first and within the budget: behind the direct
/// path there are at most as many as asked for, and none is stronger in the
/// mid band than the one before it.
pub proof fn bent_paths_come_strongest_first(
    n: int,
    src: Point,
    lis: Point,
    direct: [Single; 3],
    distance: Single,
    budget: PathBudget,
    s: Survey,
    over: Option<PathModel>,
)
    requires
        bent_paths(n, src, lis, budget, s, over).len() <= usize::MAX,
    ensures
        ({
            let r = found_paths(n, src, lis, direct, distance, budget, s, over);
            &&& r.len() <= 1 + budget.max_paths
            &&& forall|i: int, j: int|
                1 <= i < j < r.len() ==> (#[trigger] r[j]).gains@[1].total_rank() <= (
                #[trigger] r[i]).gains@[1].total_rank()
        }),
{
    let r = found_paths(n, src, lis, direct, distance, budget, s, over);
    let bent = bent_paths(n, src, lis, budget, s, over);
    let keys = path_gains(bent);
    the_strongest_are_listed(keys, budget.max_paths as nat);
    let picks = top(keys, budget.max_paths as nat);
    let kept = strongest_paths(bent, budget.max_paths as nat);
    assert forall|i: int, j: int| 1 <= i < j < r.len() implies (
    #[trigger] r[j]).gains@[1].total_rank() <= (#[trigger] r[i]).gains@[1].total_rank() by {
        assert(r[i] == kept[i - 1] && r[j] == kept[j - 1]);
        assert(precedes(keys, picks[i - 1] as int, picks[j - 1] as int));
    }
}

/// One wall: the crossing where the segment enters it, and the one where it
/// leaves, where that is known.
#[derive(Clone, Copy, Debug)]
pub struct Wall {
    pub enter: usize,
    pub exit: Option<usize>,
}

/// The crossing behind `i` is the far side of the same wall.
pub open spec fn pairs_up(hits: Seq<SegHit>, i: int) -> bool {
    i + 1 < hits.len() && hits[i + 1].material == hits[i].material
}

/// The walls that the crossings from `i` on belong to: a crossing followed by
/// one of the same material enters and leaves a wall, any other is a thin
/// shell.
pub open spec fn walls_from(hits: Seq<SegHit>, i: int) -> Seq<Wall>
    decreases hits.len() - i,
{
    if i < 0 || i >= hits.len() {
        Seq::empty()
    } else if pairs_up(hits, i) {
        seq![Wall { enter: i as usize, exit: Some((i + 1) as usize) }] + walls_from(hits, i + 2)
    } else {
        seq![Wall { enter: i as usize, exit: None }] + walls_from(hits, i + 1)
    }
}

/// The walls that a segment passes through, in order.
pub fn pair_crossings(hits: &Vec<SegHit>) -> (walls: Vec<Wall>)
    ensures
        walls@ == walls_from(hits@, 0),
{
    let mut walls: Vec<Wall> = Vec::new();
    let mut i: usize = 0;
    while i < hits.len()
        invariant
            i <= hits@.len(),
            walls_from(hits@, 0) == walls@ + walls_from(hits@, i as int),
        decreases hits@.len() - i,
    {
        let ghost before = walls@;
        let ghost at = i as int;
        if i + 1 < hits.len() && hits[i + 1].material == hits[i].material {
            walls.push(Wall { enter: i, exit: Some(i + 1) });
            i = i + 2;
        } else {
            walls.push(Wall { enter: i, exit: None });
            i = i + 1;
        }
        assert(walls@ + walls_from(hits@, i as int) =~= before + walls_from(hits@, at));
    }
    assert(walls@ + walls_from(hits@, i as int) =~= walls@);
    walls
}

/// Every crossing from `i` on belongs to exactly one wall: the walls enter in
/// rising order, and each starts right behind the one before it.
pub proof fn every_crossing_belongs_to_one_wall(hits: Seq<SegHit>, i: int, k: int)
    requires
        0 <= i <= k < hits.len() <= usize::MAX,
    ensures
        exists|w: int|
            0 <= w < walls_from(hits, i).len() && is_in_wall(#[trigger] walls_from(hits, i)[w], k),
        forall|v: int, w: int|
            0 <= v < walls_from(hits, i).len() && 0 <= w < walls_from(hits, i).len() && is_in_wall(
                #[trigger] walls_from(hits, i)[v],
                k,
            ) && is_in_wall(#[trigger] walls_from(hits, i)[w], k) ==> v == w,
        forall|w: int|
            0 <= w < walls_from(hits, i).len() ==> (#[trigger] walls_from(hits, i)[w]).enter >= i && (
            walls_from(hits, i)[w].exit matches Some(x) ==> x == walls_from(hits, i)[w].enter + 1),
    decreases hits.len() - i,
{
    let ws = walls_from(hits, i);
    let step = if pairs_up(hits, i) { 2int } else { 1int };
    let rest = walls_from(hits, i + step);
    assert forall|w: int| 1 <= w < ws.len() implies ws[w] == rest[w - 1] by {}
    if i + step < hits.len() {
        if k >= i + step {
            every_crossing_belongs_to_one_wall(hits, i + step, k);
            let w = choose|w: int|
                0 <= w < rest.len() && is_in_wall(#[trigger] rest[w], k);
            assert(ws[w + 1] == rest[w]);
        } else {
            every_crossing_belongs_to_one_wall(hits, i + step, i + step);
            assert(is_in_wall(ws[0], k));
        }
        assert forall|w: int| 0 <= w < ws.len() implies (#[trigger] ws[w]).enter >= i && (
        ws[w].exit matches Some(x) ==> x == ws[w].enter + 1) by {
            if w > 0 {
                assert(rest[w - 1].enter >= i + step);
            }
        }
        assert forall|v: int, w: int|
            0 <= v < ws.len() && 0 <= w < ws.len() && is_in_wall(#[trigger] ws[v], k) && is_in_wall(
                #[trigger] ws[w],
                k,
            ) implies v == w by {
            if v > 0 {
                assert(ws[v] == rest[v - 1]);
                assert(rest[v - 1].enter >= i + step);
            }
            if w > 0 {
                assert(ws[w] == rest[w - 1]);
                assert(rest[w - 1].enter >= i + step);
            }
            if v > 0 && w > 0 && k >= i + step {
                assert(is_in_wall(rest[v - 1], k) && is_in_wall(rest[w - 1], k));
            }
        }
    } else {
        assert(rest.len() == 0);
        assert(is_in_wall(ws[0], k));
    }
}

/// The crossing enters or leaves the wall.
pub open spec fn is_in_wall(w: Wall, k: int) -> bool {
    w.enter == k || (w.exit matches Some(x) && x == k)
}

/// A wall as it is measured: its material, the share of the segment where it
/// is entered, and the one where it is left.
#[derive(Clone, Copy, Debug)]
pub struct WallSpan {
    pub material: u16,
    pub enter: Single,
    pub exit: Option<Single>,
}

pub open spec fn wall_span(hits: Seq<SegHit>, w: Wall) -> WallSpan {
    WallSpan {
        material: hits[w.enter as int].material,
        enter: hits[w.enter as int].t,
        exit: match w.exit {
            None => None,
            Some(x) => Some(hits[x as int].t),
        },
    }
}

/// How thick a wall is along a segment of a length: what lies between its two
/// sides, and a nominal ten centimetres where only one is crossed.
pub open spec fn thickness(f: Calc, span: WallSpan, len: Single) -> Single {
    match span.exit {
        Some(exit) => greater(prod(f, diff(f, exit, span.enter), len), Single(P_0_01)),
        None => Single(P_0_1),
    }
}

/// Per-band amplitude behind the first `n` walls.
pub open spec fn transmitted(
    f: Calc,
    materials: Seq<Material>,
    hits: Seq<SegHit>,
    walls: Seq<Wall>,
    len: Single,
    n: int,
) -> [Single; 3]
    decreases n,
{
    if n <= 0 {
        [Single(ONE), Single(ONE), Single(ONE)]
    } else {
        let span = wall_span(hits, walls[n - 1]);
        dimmed(
            f,
            transmitted(f, materials, hits, walls, len, n - 1),
            materials[span.material as int].passing(f, thickness(f, span, len)),
        )
    }
}

/// Per-band amplitude of the straight segment from `a` to `b` through a mesh.
pub open spec fn passed(f: Calc, mesh: Mesh, a: Point, b: Point) -> [Single; 3] {
    let hits = mesh.crossed(f, a, b);
    let walls = walls_from(hits, 0);
    transmitted(f, mesh.parts.materials@, hits, walls, distance(f, b, a), walls.len() as int)
}

/// What a bend over one edge carries.
pub open spec fn single_carried(f: Calc, mesh: Mesh, b: SingleBend, src: Point, lis: Point) -> Carried {
    let l1 = passed(f, mesh, src, b.point);
    let l2 = passed(f, mesh, b.point, lis);
    let ke = knife_at(f, detour(f, b.d1, b.d2, distance(f, lis, src)));
    Carried {
        low: prod(f, l1@[0], l2@[0]),
        gains: dimmed(f, dimmed(f, ke, l1), l2),
        length: sum(f, b.d1, b.d2),
    }
}

/// What a bend over two edges carries.
pub open spec fn pair_carried(f: Calc, mesh: Mesh, b: PairBend, src: Point, lis: Point) -> Carried {
    let l1 = passed(f, mesh, src, b.p1);
    let lm = passed(f, mesh, b.p1, b.p2);
    let l2 = passed(f, mesh, b.p2, lis);
    let k1 = knife_at(f, detour(f, b.d1, b.dm, distance(f, b.p2, src)));
    let k2 = knife_at(f, detour(f, b.dm, b.d2, distance(f, lis, b.p1)));
    Carried {
        low: prod(f, prod(f, l1@[0], lm@[0]), l2@[0]),
        gains: dimmed(f, dimmed(f, dimmed(f, dimmed(f, k1, k2), l1), lm), l2),
        length: sum(f, sum(f, b.d1, b.dm), b.d2),
    }
}

/// What the bend over each edge carries.
pub open spec fn carries(
    f: Calc,
    mesh: Mesh,
    edges: Seq<DiffractionEdge>,
    src: Point,
    lis: Point,
) -> spec_fn(usize) -> Carried {
    |i: usize| single_carried(f, mesh, single_bend(f, edges[i as int], src, lis), src, lis)
}

/// What the bend over each pair of edges carries.
pub open spec fn pair_carries(
    f: Calc,
    mesh: Mesh,
    edges: Seq<DiffractionEdge>,
    src: Point,
    lis: Point,
) -> spec_fn((usize, usize)) -> Carried {
    |e: (usize, usize)|
        pair_carried(
            f,
            mesh,
            pair_bend(f, edges[e.0 as int], edges[e.1 as int], src, lis),
            src,
            lis,
        )
}

/// What the search between two points weighs.
pub open spec fn survey(
    f: Calc,
    mesh: Mesh,
    edges: Seq<DiffractionEdge>,
    src: Point,
    lis: Point,
) -> Survey {
    Survey {
        corridor: corridors(f, edges, src, lis),
        bend: single_bends(f, edges, src, lis),
        carry: carries(f, mesh, edges, src, lis),
        pair: pair_bends(f, edges, src, lis),
        carry_pair: pair_carries(f, mesh, edges, src, lis),
    }
}

proof fn lemma_walls_in_range(hits: Seq<SegHit>, i: int, w: int)
    requires
        0 <= i <= hits.len() <= usize::MAX,
        0 <= w < walls_from(hits, i).len(),
    ensures
        walls_from(hits, i)[w].enter < hits.len(),
        walls_from(hits, i)[w].exit matches Some(x) ==> x < hits.len(),
    decreases hits.len() - i,
{
    let ws = walls_from(hits, i);
    let step = if pairs_up(hits, i) { 2int } else { 1int };
    if w > 0 {
        assert(ws[w] == walls_from(hits, i + step)[w - 1]);
        lemma_walls_in_range(hits, i + step, w - 1);
    }
}

/// The diffraction edges of a mesh, importance-ranked.
#[derive(Debug)]
pub struct AutoPaths {
    pub edges: Vec<DiffractionEdge>,
}

impl AutoPaths {
    /// Extract and budget the static edge graph.
    pub fn new<F: Fn(Op) -> Single>(f: &F, mesh: &Mesh, edge_budget: usize) -> (r: Self)
        requires
            is_steady(*f),
            mesh.wf(),
            mesh.parts.indices@.len() <= u32::MAX,
            3 * mesh.parts.indices@.len() <= usize::MAX,
        ensures
            exists|uses: Seq<EdgeUse>| #[trigger]
                is_incidence(
                    mesh.parts.indices@,
                    3 * mesh.parts.indices@.len() as int,
                    uses,
                ) && r.edges@ == budgeted(
                    edges_of(
                        answering(*f),
                        mesh.parts,
                        Single(MIN_DIHEDRAL),
                        uses,
                        uses.len() as int,
                    ),
                    edge_budget as nat,
                ),
    {
        let all: Vec<DiffractionEdge> = extract_edges(f, &mesh.parts, Single(MIN_DIHEDRAL));
        let edges: Vec<DiffractionEdge> = budget_edges(&all, edge_budget);
        Self { edges }
    }

    pub fn edge_count(&self) -> (r: usize)
        ensures
            r == self.edges@.len(),
    {
        self.edges.len()
    }

    /// Per-band amplitude of the straight segment from `a` to `b` through the
    /// mesh. Crossings are paired (entry, exit), so that wall thickness comes
    /// from the geometry.
    pub fn transmission<F: Fn(Op) -> Single>(&self, f: &F, mesh: &Mesh, a: Point, b: Point) -> (g: [
        Single; 3])
        requires
            is_steady(*f),
            mesh.wf(),
            mesh.parts.is_dressed(),
        ensures
            g == passed(answering(*f), *mesh, a, b),
    {
        pass_mesh(f, mesh, a, b)
    }
}

fn pass_mesh<F: Fn(Op) -> Single>(f: &F, mesh: &Mesh, a: Point, b: Point) -> (g: [Single; 3])
    requires
        is_steady(*f),
        mesh.wf(),
        mesh.parts.is_dressed(),
    ensures
        g == passed(answering(*f), *mesh, a, b),
{
    let mut hits: Vec<SegHit> = Vec::new();
    mesh.segment_hits(f, a, b, &mut hits);
    let len: Single = distance_of(f, b, a);
    let count: usize = hits.len();
    let walls: Vec<Wall> = pair_crossings(&hits);
    let one: Single = Single(ONE);
    let mut g: [Single; 3] = [one, one, one];
    assert(g@ =~= transmitted(
        answering(*f),
        mesh.parts.materials@,
        hits@,
        walls@,
        len,
        0,
    )@);
    let mut n: usize = 0;
    while n < walls.len()
        invariant
            n <= walls@.len(),
            count == hits@.len(),
            walls@ == walls_from(hits@, 0),
            is_steady(*f),
            mesh.wf(),
            mesh.parts.is_dressed(),
            forall|i: int|
                0 <= i < hits@.len() ==> (#[trigger] hits@[i]).tri < mesh.parts.indices@.len()
                    && hits@[i].material == mesh.parts.tri_material@[hits@[i].tri as int],
            g == transmitted(
                answering(*f),
                mesh.parts.materials@,
                hits@,
                walls@,
                len,
                n as int,
            ),
        decreases walls@.len() - n,
    {
        proof {
            lemma_walls_in_range(hits@, 0, n as int);
        }
        let w: Wall = walls[n];
        let enter: SegHit = hits[w.enter];
        assert(mesh.parts.tri_material@[enter.tri as int] < mesh.parts.materials@.len());
        let thick: Single = match w.exit {
            Some(x) => greater_of(times(f, minus(f, hits[x].t, enter.t), len), Single(P_0_01)),
            None => Single(P_0_1),
        };
        let tr: [Single; 3] = mesh.parts.materials[enter.material as usize].transmission_at(f, thick);
        g = dim(f, g, tr);
        n = n + 1;
    }
    g
}

fn carry_over<F: Fn(Op) -> Single>(
    f: &F,
    mesh: &Mesh,
    b: &SingleBend,
    src: Point,
    lis: Point,
) -> (r: Carried)
    requires
        is_steady(*f),
        mesh.wf(),
        mesh.parts.is_dressed(),
    ensures
        r == single_carried(answering(*f), *mesh, *b, src, lis),
{
    let l1: [Single; 3] = pass_mesh(f, mesh, src, b.point);
    let l2: [Single; 3] = pass_mesh(f, mesh, b.point, lis);
    let straight: Single = distance_of(f, lis, src);
    let ke: [Single; 3] = price_bend(f, find_detour(f, b.d1, b.d2, straight));
    Carried {
        low: times(f, l1[0], l2[0]),
        gains: dim(f, dim(f, ke, l1), l2),
        length: plus(f, b.d1, b.d2),
    }
}

fn carry_over_two<F: Fn(Op) -> Single>(
    f: &F,
    mesh: &Mesh,
    b: &PairBend,
    src: Point,
    lis: Point,
) -> (r: Carried)
    requires
        is_steady(*f),
        mesh.wf(),
        mesh.parts.is_dressed(),
    ensures
        r == pair_carried(answering(*f), *mesh, *b, src, lis),
{
    let l1: [Single; 3] = pass_mesh(f, mesh, src, b.p1);
    let lm: [Single; 3] = pass_mesh(f, mesh, b.p1, b.p2);
    let l2: [Single; 3] = pass_mesh(f, mesh, b.p2, lis);
    let to2: Single = distance_of(f, b.p2, src);
    let from1: Single = distance_of(f, lis, b.p1);
    let k1: [Single; 3] = price_bend(f, find_detour(f, b.d1, b.dm, to2));
    let k2: [Single; 3] = price_bend(f, find_detour(f, b.dm, b.d2, from1));
    Carried {
        low: times(f, times(f, l1[0], lm[0]), l2[0]),
        gains: dim(f, dim(f, dim(f, dim(f, k1, k2), l1), lm), l2),
        length: plus(f, plus(f, b.d1, b.dm), b.d2),
    }
}

/// The paths over single edges that carry anything.
fn gather_singles<F: Fn(Op) -> Single>(
    f: &F,
    mesh: &Mesh,
    edges: &Vec<DiffractionEdge>,
    src: Point,
    lis: Point,
    ids: &Vec<usize>,
) -> (bent: Vec<FoundPath>)
    requires
        is_steady(*f),
        mesh.wf(),
        mesh.parts.is_dressed(),
        edges@.len() <= MAX_EDGES,
        forall|i: int| 0 <= i < ids@.len() ==> #[trigger] ids@[i] < edges@.len(),
    ensures
        models(bent@) == single_paths(
            src,
            lis,
            single_bends(answering(*f), edges@, src, lis),
            carries(answering(*f), *mesh, edges@, src, lis),
            ids@,
            ids@.len() as int,
        ),
{
    let ghost bf = single_bends(answering(*f), edges@, src, lis);
    let ghost cf = carries(answering(*f), *mesh, edges@, src, lis);
    let mut bent: Vec<FoundPath> = Vec::new();
    let mut k: usize = 0;
    assert(models(bent@) =~= single_paths(src, lis, bf, cf, ids@, 0));
    while k < ids.len()
        invariant
            k <= ids@.len(),
            edges@.len() <= MAX_EDGES,
            is_steady(*f),
            mesh.wf(),
            mesh.parts.is_dressed(),
            bf == single_bends(answering(*f), edges@, src, lis),
            cf == carries(answering(*f), *mesh, edges@, src, lis),
            forall|i: int| 0 <= i < ids@.len() ==> #[trigger] ids@[i] < edges@.len(),
            models(bent@) == single_paths(src, lis, bf, cf, ids@, k as int),
        decreases ids@.len() - k,
    {
        let ei: usize = ids[k];
        let b: SingleBend = bend_over(f, edges[ei], src, lis);
        let c: Carried = carry_over(f, mesh, &b, src, lis);
        assert(bf(ei) == b && cf(ei) == c);
        if !c.low.lt(Single(CARRIES_NOTHING)) {
            let ghost before = bent@;
            let mut points: Vec<Point> = Vec::new();
            points.push(src);
            points.push(b.point);
            points.push(lis);
            assert(points@ =~= seq![src, b.point, lis]);
            bent.push(FoundPath { points, length: c.length, gains: c.gains, key: 1 + ei as u32 });
            assert(models(bent@) =~= models(before).push(bent@.last()@));
        }
        k = k + 1;
    }
    bent
}

/// The paths over pairs of edges that carry anything, behind those found
/// already.
fn gather_pairs<F: Fn(Op) -> Single>(
    f: &F,
    mesh: &Mesh,
    edges: &Vec<DiffractionEdge>,
    src: Point,
    lis: Point,
    pairs: &Vec<(usize, usize)>,
    bent: &mut Vec<FoundPath>,
)
    requires
        is_steady(*f),
        mesh.wf(),
        mesh.parts.is_dressed(),
        edges@.len() <= MAX_EDGES,
        forall|i: int|
            0 <= i < pairs@.len() ==> (#[trigger] pairs@[i]).0 < edges@.len() && pairs@[i].1
                < edges@.len(),
    ensures
        models(final(bent)@) == models(old(bent)@) + pair_paths(
            src,
            lis,
            pair_bends(answering(*f), edges@, src, lis),
            pair_carries(answering(*f), *mesh, edges@, src, lis),
            pairs@,
            pairs@.len() as int,
        ),
{
    let ghost pf = pair_bends(answering(*f), edges@, src, lis);
    let ghost uf = pair_carries(answering(*f), *mesh, edges@, src, lis);
    let ghost base = models(bent@);
    let mut k: usize = 0;
    assert(models(bent@) =~= base + pair_paths(src, lis, pf, uf, pairs@, 0));
    while k < pairs.len()
        invariant
            k <= pairs@.len(),
            edges@.len() <= MAX_EDGES,
            is_steady(*f),
            mesh.wf(),
            mesh.parts.is_dressed(),
            pf == pair_bends(answering(*f), edges@, src, lis),
            uf == pair_carries(answering(*f), *mesh, edges@, src, lis),
            forall|i: int|
                0 <= i < pairs@.len() ==> (#[trigger] pairs@[i]).0 < edges@.len() && pairs@[i].1
                    < edges@.len(),
            models(bent@) == base + pair_paths(src, lis, pf, uf, pairs@, k as int),
        decreases pairs@.len() - k,
    {
        let e: (usize, usize) = pairs[k];
        let b: PairBend = bend_over_two(f, edges[e.0], edges[e.1], src, lis);
        let c: Carried = carry_over_two(f, mesh, &b, src, lis);
        assert(pf(e) == b && uf(e) == c);
        let ghost before = bent@;
        let ghost done = pair_paths(src, lis, pf, uf, pairs@, k as int);
        if !c.low.lt(Single(CARRIES_NOTHING)) {
            let mut points: Vec<Point> = Vec::new();
            points.push(src);
            points.push(b.p1);
            points.push(b.p2);
            points.push(lis);
            assert(points@ =~= seq![src, b.p1, b.p2, lis]);
            bent.push(
                FoundPath {
                    points,
                    length: c.length,
                    gains: c.gains,
                    key: PAIR_KEYS + (e.0 * PAIR_STRIDE + e.1) as u32,
                },
            );
            let ghost last = bent@.last()@;
            assert(models(bent@) =~= models(before).push(last));
            assert(pair_paths(src, lis, pf, uf, pairs@, k + 1) == done.push(last));
            assert(models(bent@) =~= base + done.push(last));
        } else {
            assert(pair_paths(src, lis, pf, uf, pairs@, k + 1) == done);
        }
        k = k + 1;
    }
}

impl AutoPaths {
    /// Find propagation paths: the direct segment and, when it is meaningfully
    /// blocked, the strongest bent paths over the edges, capped by the budget.
    pub fn find<F: Fn(Op) -> Single>(
        &self,
        f: &F,
        mesh: &Mesh,
        src: Point,
        lis: Point,
        budget: PathBudget,
        out: &mut Vec<FoundPath>,
    )
        requires
            self.edges@.len() <= MAX_EDGES,
            is_steady(*f),
            mesh.wf(),
            mesh.parts.is_dressed(),
        ensures
            models(final(out)@) == found_paths(
                self.edges@.len() as int,
                src,
                lis,
                passed(answering(*f), *mesh, src, lis),
                distance(answering(*f), lis, src),
                budget,
                survey(answering(*f), *mesh, self.edges@, src, lis),
                over_skyline(answering(*f), *mesh, src, lis),
            ),
    {
        let ghost g = answering(*f);
        let ghost sv = survey(g, *mesh, self.edges@, src, lis);
        let direct: [Single; 3] = pass_mesh(f, mesh, src, lis);
        let straight: Single = distance_of(f, lis, src);
        out.clear();
        let ghost first = PathModel {
            points: seq![src, lis],
            length: straight,
            gains: direct,
            key: DIRECT_KEY,
        };
        let mut points: Vec<Point> = Vec::new();
        points.push(src);
        points.push(lis);
        assert(points@ =~= seq![src, lis]);
        out.push(FoundPath { points, length: straight, gains: direct, key: DIRECT_KEY });
        assert(models(out@) =~= seq![first]);
        if !direct[1].lt(Single(OBSTRUCTED)) {
            return;
        }
        let ids: Vec<usize> = rank_singles(f, &self.edges, src, lis, budget.edge_candidates);
        let mut bent: Vec<FoundPath> = gather_singles(f, mesh, &self.edges, src, lis, &ids);
        let pairs: Vec<(usize, usize)> = rank_pairs(f, &self.edges, src, lis, budget.pair_edges);
        gather_pairs(f, mesh, &self.edges, src, lis, &pairs, &mut bent);
        let ghost both = models(bent@);
        let last: Option<FoundPath> = over_silhouette(f, mesh, src, lis);
        let ghost top_path = model_of(last);
        if let Some(p) = last {
            bent.push(p);
            assert(models(bent@) =~= both.push(p@));
        }
        let ghost all = bent_paths(self.edges@.len() as int, src, lis, budget, sv, top_path);
        assert(models(bent@) == all);
        keep_strongest(bent, budget.max_paths, out);
        assert(models(out@) =~= seq![first] + strongest_paths(all, budget.max_paths as nat));
    }
}

/// A point of the height profile: distance along the run, and height.
pub type Rise = (Single, Single);

/// What is seen straight down at one station of the run.
#[derive(Clone, Copy, Debug)]
pub struct Station {
    /// Height of the geometry there.
    pub top: Single,
    /// The sight line plus five centimetres.
    pub bar: Single,
    /// The profile point that the geometry gives.
    pub rise: Rise,
}

/// Stations along the run.
pub const STATIONS: usize = 24;

/// The pattern of 1.0: a shorter run has no silhouette.
pub const SHORT_RUN: u32 = 0x3F80_0000;

/// The profile points of the stations before `n` where the geometry pokes
/// above the sight line, behind the source.
pub open spec fn profile(
    look: spec_fn(usize) -> Option<Station>,
    start: Rise,
    n: int,
) -> Seq<Rise>
    decreases n,
{
    if n <= 1 {
        seq![start]
    } else {
        let rest = profile(look, start, n - 1);
        match look((n - 1) as usize) {
            Some(st) if st.bar.below(st.top) => rest.push(st.rise),
            _ => rest,
        }
    }
}

/// The string over `hull` does not turn down at its last point on the way to
/// `p`.
pub open spec fn sags(turn: spec_fn((Rise, Rise, Rise)) -> Single, hull: Seq<Rise>, p: Rise) -> bool {
    hull.len() >= 2 && Single(0).at_most(turn((hull[hull.len() - 2], hull[hull.len() - 1], p)))
}

/// The hull without the points that the string to `p` passes above.
pub open spec fn tautened(
    turn: spec_fn((Rise, Rise, Rise)) -> Single,
    hull: Seq<Rise>,
    p: Rise,
) -> Seq<Rise>
    decreases hull.len(),
{
    if sags(turn, hull, p) {
        tautened(turn, hull.drop_last(), p)
    } else {
        hull
    }
}

/// The taut string over the first `n` points.
pub open spec fn upper_hull(
    turn: spec_fn((Rise, Rise, Rise)) -> Single,
    pts: Seq<Rise>,
    n: int,
) -> Seq<Rise>
    decreases n,
{
    if n <= 0 {
        Seq::empty()
    } else {
        tautened(turn, upper_hull(turn, pts, n - 1), pts[n - 1]).push(pts[n - 1])
    }
}

/// How the string turns at its second point: negative where it turns down.
pub open spec fn turn_of(f: Calc, a: Rise, b: Rise, p: Rise) -> Single {
    prod_diff(f, diff(f, b.0, a.0), diff(f, p.1, a.1), diff(f, b.1, a.1), diff(f, p.0, a.0))
}

/// The turns of a string.
pub open spec fn turns(f: Calc) -> spec_fn((Rise, Rise, Rise)) -> Single {
    |q: (Rise, Rise, Rise)| turn_of(f, q.0, q.1, q.2)
}

pub fn taut_string<F: Fn(Op) -> Single>(f: &F, pts: &Vec<Rise>) -> (hull: Vec<Rise>)
    requires
        is_steady(*f),
    ensures
        hull@ == upper_hull(turns(answering(*f)), pts@, pts@.len() as int),
{
    let ghost tf = turns(answering(*f));
    let mut hull: Vec<Rise> = Vec::new();
    let mut n: usize = 0;
    while n < pts.len()
        invariant
            n <= pts@.len(),
            is_steady(*f),
            tf == turns(answering(*f)),
            hull@ == upper_hull(tf, pts@, n as int),
        decreases pts@.len() - n,
    {
        let p: Rise = pts[n];
        let mut loose: bool = true;
        while loose
            invariant
                is_steady(*f),
                tf == turns(answering(*f)),
                p == pts@[n as int],
                tautened(tf, hull@, p) == tautened(tf, upper_hull(tf, pts@, n as int), p),
                !loose ==> !sags(tf, hull@, p),
            decreases hull@.len(), (if loose { 1int } else { 0int }),
        {
            if hull.len() >= 2 {
                let a: Rise = hull[hull.len() - 2];
                let b: Rise = hull[hull.len() - 1];
                let c: Single = times_minus(
                    f,
                    minus(f, b.0, a.0),
                    minus(f, p.1, a.1),
                    minus(f, b.1, a.1),
                    minus(f, p.0, a.0),
                );
                assert(tf((a, b, p)) == c);
                if Single(0).le(c) {
                    let ghost before = hull@;
                    let _ = hull.pop();
                    assert(hull@ =~= before.drop_last());
                } else {
                    loose = false;
                }
            } else {
                loose = false;
            }
        }
        hull.push(p);
        n = n + 1;
    }
    hull
}

proof fn lemma_tautened_is_prefix(
    turn: spec_fn((Rise, Rise, Rise)) -> Single,
    hull: Seq<Rise>,
    p: Rise,
)
    requires
        hull.len() > 0,
    ensures
        1 <= tautened(turn, hull, p).len() <= hull.len(),
        tautened(turn, hull, p) == hull.take(tautened(turn, hull, p).len() as int),
        !sags(turn, tautened(turn, hull, p), p),
    decreases hull.len(),
{
    if sags(turn, hull, p) {
        lemma_tautened_is_prefix(turn, hull.drop_last(), p);
        let k = tautened(turn, hull.drop_last(), p).len() as int;
        assert(hull.drop_last().take(k) =~= hull.take(k));
    } else {
        assert(hull.take(hull.len() as int) =~= hull);
    }
}

/// The string turns strictly down at its point `k`.
pub open spec fn bends_down(
    turn: spec_fn((Rise, Rise, Rise)) -> Single,
    hull: Seq<Rise>,
    k: int,
) -> bool {
    !Single(0).at_most(turn((hull[k - 1], hull[k], hull[k + 1])))
}

/// The string stays taut: it runs from the first point to the last, and at
/// every point between it turns strictly down.
pub proof fn the_string_is_taut(
    turn: spec_fn((Rise, Rise, Rise)) -> Single,
    pts: Seq<Rise>,
    n: int,
)
    requires
        1 <= n <= pts.len(),
    ensures
        upper_hull(turn, pts, n).len() >= 1,
        upper_hull(turn, pts, n)[0] == pts[0],
        upper_hull(turn, pts, n).last() == pts[n - 1],
        forall|k: int|
            1 <= k < upper_hull(turn, pts, n).len() - 1 ==> #[trigger] bends_down(
                turn,
                upper_hull(turn, pts, n),
                k,
            ),
    decreases n,
{
    if n > 1 {
        the_string_is_taut(turn, pts, n - 1);
        let before = upper_hull(turn, pts, n - 1);
        let p = pts[n - 1];
        lemma_tautened_is_prefix(turn, before, p);
        let kept = tautened(turn, before, p);
        let after = kept.push(p);
        assert(after == upper_hull(turn, pts, n));
        assert forall|k: int| 1 <= k < after.len() - 1 implies #[trigger] bends_down(turn, after, k) by {
            if k < kept.len() - 1 {
                assert(bends_down(turn, before, k));
            }
        }
    } else {
        assert(upper_hull(turn, pts, 0) =~= Seq::empty());
    }
}

/// How far two points of the profile are apart.
pub open spec fn rise_span(f: Calc, a: Rise, b: Rise) -> Single {
    let dx = diff(f, a.0, b.0);
    let dz = diff(f, a.1, b.1);
    f(Op::Root(sum(f, prod(f, dx, dx), prod(f, dz, dz))))
}

fn span_of<F: Fn(Op) -> Single>(f: &F, a: Rise, b: Rise) -> (r: Single)
    requires
        is_steady(*f),
    ensures
        r == rise_span(answering(*f), a, b),
{
    let dx: Single = minus(f, a.0, b.0);
    let dz: Single = minus(f, a.1, b.1);
    let s: Single = plus(f, times(f, dx, dx), times(f, dz, dz));
    ask(f, Op::Root(s))
}

/// Length of the string up to its point `n`.
pub open spec fn string_length(f: Calc, hull: Seq<Rise>, n: int) -> Single
    decreases n,
{
    if n <= 0 {
        Single(0)
    } else {
        sum(f, string_length(f, hull, n - 1), rise_span(f, hull[n - 1], hull[n]))
    }
}

/// The amplitudes that the bend of the string at `b` lets around.
pub open spec fn string_knife(f: Calc, a: Rise, b: Rise, c: Rise) -> [Single; 3] {
    knife_at(f, detour(f, rise_span(f, a, b), rise_span(f, b, c), rise_span(f, a, c)))
}

/// Per-band amplitude behind the first `n` bends of the string.
pub open spec fn string_gains(f: Calc, hull: Seq<Rise>, n: int) -> [Single; 3]
    decreases n,
{
    if n <= 0 {
        [Single(ONE), Single(ONE), Single(ONE)]
    } else {
        dimmed(
            f,
            string_gains(f, hull, n - 1),
            string_knife(f, hull[n - 1], hull[n], hull[n + 1]),
        )
    }
}

/// The run from source to listener, seen from above.
pub open spec fn flat_way(f: Calc, src: Point, lis: Point) -> Point {
    [diff(f, lis@[0], src@[0]), diff(f, lis@[1], src@[1]), Single(0)]
}

/// A station of the run: the geometry there, seen from sixty metres up.
pub open spec fn station(f: Calc, mesh: Mesh, src: Point, lis: Point, i: usize) -> Option<Station> {
    let flat = flat_way(f, src, lis);
    let t = quot(f, rounded(i as nat), Single(P_24_0));
    let eye: Point = [
        sum(f, src@[0], prod(f, flat@[0], t)),
        sum(f, src@[1], prod(f, flat@[1], t)),
        Single(P_60_0),
    ];
    let line = sum(f, src@[2], prod(f, diff(f, lis@[2], src@[2]), t));
    let down: Point = [Single(0), Single(0), Single(P_MINUS_1_0)];
    match mesh.cast(f, eye, down) {
        None => None,
        Some(h) => {
            let top = diff(f, Single(P_60_0), h.0);
            Some(
                Station {
                    top,
                    bar: sum(f, line, Single(P_0_05)),
                    rise: (prod(f, norm(f, flat), t), sum(f, top, Single(P_0_03))),
                },
            )
        },
    }
}

fn look_down<F: Fn(Op) -> Single>(f: &F, mesh: &Mesh, src: Point, lis: Point, i: usize) -> (r: Option<
    Station,
>)
    requires
        is_steady(*f),
        mesh.wf(),
    ensures
        r == station(answering(*f), *mesh, src, lis, i),
{
    let ghost g = answering(*f);
    let flat: Point = see_flat(f, src, lis);
    let t: Single = over(f, Single::from_usize(i), Single(P_24_0));
    let x: Single = plus(f, src[0], times(f, flat[0], t));
    let y: Single = plus(f, src[1], times(f, flat[1], t));
    let line: Single = plus(f, src[2], times(f, minus(f, lis[2], src[2]), t));
    let eye: Point = [x, y, Single(P_60_0)];
    let down: Point = [Single(0), Single(0), Single(P_MINUS_1_0)];
    proof {
        let e2: Point = [
            sum(g, src@[0], prod(g, flat@[0], t)),
            sum(g, src@[1], prod(g, flat@[1], t)),
            Single(P_60_0),
        ];
        let d2: Point = [Single(0), Single(0), Single(P_MINUS_1_0)];
        assert(eye@ =~= e2@);
        assert(eye == e2);
        assert(down@ =~= d2@);
        assert(down == d2);
    }
    match mesh.raycast(f, eye, down) {
        None => None,
        Some((th, _)) => {
            let top: Single = minus(f, Single(P_60_0), th);
            let run: Single = norm_of(f, flat);
            Some(
                Station {
                    top,
                    bar: plus(f, line, Single(P_0_05)),
                    rise: (times(f, run, t), plus(f, top, Single(P_0_03))),
                },
            )
        },
    }
}

fn see_flat<F: Fn(Op) -> Single>(f: &F, src: Point, lis: Point) -> (r: Point)
    requires
        is_steady(*f),
    ensures
        r == flat_way(answering(*f), src, lis),
{
    let r: Point = [minus(f, lis[0], src[0]), minus(f, lis[1], src[1]), Single(0)];
    assert(r@ =~= flat_way(answering(*f), src, lis)@);
    r
}

/// The stations of the run.
pub open spec fn stations(f: Calc, mesh: Mesh, src: Point, lis: Point) -> spec_fn(usize) -> Option<
    Station,
> {
    |i: usize| station(f, mesh, src, lis, i)
}

/// A point of the profile as a point in space.
pub open spec fn lifted(f: Calc, src: Point, lis: Point, p: Rise) -> Point {
    let flat = flat_way(f, src, lis);
    let t = quot(f, p.0, norm(f, flat));
    [sum(f, src@[0], prod(f, flat@[0], t)), sum(f, src@[1], prod(f, flat@[1], t)), p.1]
}

fn lift<F: Fn(Op) -> Single>(f: &F, src: Point, lis: Point, p: Rise) -> (r: Point)
    requires
        is_steady(*f),
    ensures
        r == lifted(answering(*f), src, lis, p),
{
    let flat: Point = see_flat(f, src, lis);
    let t: Single = over(f, p.0, norm_of(f, flat));
    let r: Point = [
        plus(f, src[0], times(f, flat[0], t)),
        plus(f, src[1], times(f, flat[1], t)),
        p.1,
    ];
    assert(r@ =~= lifted(answering(*f), src, lis, p)@);
    r
}

/// The path over everything that stands in the segment's vertical plane;
/// nothing where the run is short, nothing pokes above the sight line, or the
/// string is straight.
pub open spec fn over_skyline(f: Calc, mesh: Mesh, src: Point, lis: Point) -> Option<PathModel> {
    let run = norm(f, flat_way(f, src, lis));
    let seen = profile(stations(f, mesh, src, lis), (Single(0), src@[2]), STATIONS as int);
    let pts = seen.push((run, lis@[2]));
    let hull = upper_hull(turns(f), pts, pts.len() as int);
    if run.below(Single(SHORT_RUN)) || seen.len() == 1 || hull.len() < 3 {
        None
    } else {
        Some(
            PathModel {
                points: Seq::new(hull.len(), |i: int| lifted(f, src, lis, hull[i])),
                length: string_length(f, hull, hull.len() - 1),
                gains: string_gains(f, hull, hull.len() - 2),
                key: SILHOUETTE_KEY,
            },
        )
    }
}

/// Shortest path over the height profile between source and listener: the
/// taut string over the profile, with each of its bends priced as a knife
/// edge.
pub fn over_silhouette<F: Fn(Op) -> Single>(f: &F, mesh: &Mesh, src: Point, lis: Point) -> (r: Option<
    FoundPath,
>)
    requires
        is_steady(*f),
        mesh.wf(),
    ensures
        model_of(r) == over_skyline(answering(*f), *mesh, src, lis),
{
    let ghost g = answering(*f);
    let ghost sf = stations(g, *mesh, src, lis);
    let run: Single = norm_of(f, see_flat(f, src, lis));
    if run.lt(Single(SHORT_RUN)) {
        return None;
    }
    let start: Rise = (Single(0), src[2]);
    let mut pts: Vec<Rise> = Vec::new();
    pts.push(start);
    assert(pts@ =~= seq![start]);
    let mut i: usize = 1;
    while i < STATIONS
        invariant
            1 <= i <= STATIONS,
            is_steady(*f),
            g == answering(*f),
            mesh.wf(),
            sf == stations(g, *mesh, src, lis),
            pts@ == profile(sf, start, i as int),
        decreases STATIONS - i,
    {
        let st: Option<Station> = look_down(f, mesh, src, lis, i);
        assert(sf(i) == st);
        if let Some(s) = st {
            if s.bar.lt(s.top) {
                pts.push(s.rise);
            }
        }
        i = i + 1;
    }
    if pts.len() == 1 {
        return None;
    }
    pts.push((run, lis[2]));
    let hull: Vec<Rise> = taut_string(f, &pts);
    if hull.len() < 3 {
        return None;
    }
    let mut length: Single = Single(0);
    let mut k: usize = 0;
    while k < hull.len() - 1
        invariant
            k <= hull@.len() - 1,
            hull@.len() >= 3,
            is_steady(*f),
            g == answering(*f),
            length == string_length(g, hull@, k as int),
        decreases hull@.len() - k,
    {
        length = plus(f, length, span_of(f, hull[k], hull[k + 1]));
        k = k + 1;
    }
    let one: Single = Single(ONE);
    let mut gains: [Single; 3] = [one, one, one];
    assert(gains@ =~= string_gains(g, hull@, 0)@);
    let mut k: usize = 0;
    while k < hull.len() - 2
        invariant
            k <= hull@.len() - 2,
            hull@.len() >= 3,
            is_steady(*f),
            g == answering(*f),
            gains == string_gains(g, hull@, k as int),
        decreases hull@.len() - k,
    {
        let ab: Single = span_of(f, hull[k], hull[k + 1]);
        let bc: Single = span_of(f, hull[k + 1], hull[k + 2]);
        let ac: Single = span_of(f, hull[k], hull[k + 2]);
        let ke: [Single; 3] = price_bend(f, find_detour(f, ab, bc, ac));
        gains = dim(f, gains, ke);
        k = k + 1;
    }
    let mut points: Vec<Point> = Vec::new();
    let mut k: usize = 0;
    while k < hull.len()
        invariant
            k <= hull@.len(),
            is_steady(*f),
            g == answering(*f),
            points@ == Seq::new(k as nat, |i: int| lifted(g, src, lis, hull@[i])),
        decreases hull@.len() - k,
    {
        points.push(lift(f, src, lis, hull[k]));
        k = k + 1;
        assert(points@ =~= Seq::new(k as nat, |i: int| lifted(g, src, lis, hull@[i])));
    }
    assert(points@ =~= Seq::new(hull@.len(), |i: int| lifted(g, src, lis, hull@[i])));
    Some(FoundPath { points, length, gains, key: SILHOUETTE_KEY })
}

/// A golden-section search under way: the bracket, its two inner points and
/// their costs.
#[derive(Clone, Copy, Debug)]
pub struct Golden {
    pub lo: Single,
    pub hi: Single,
    pub m1: Single,
    pub m2: Single,
    pub c1: Single,
    pub c2: Single,
}

/// Rounds of the golden section.
pub const ROUNDS: usize = 24;

/// What the search for a bend point weighs: the inner points of a bracket and
/// the length of the way over a share of the edge.
pub ghost struct Ruler {
    pub near: spec_fn((Single, Single)) -> Single,
    pub far: spec_fn((Single, Single)) -> Single,
    pub cost: spec_fn(Single) -> Single,
}

impl Golden {
    /// The search over the whole edge.
    pub open spec fn start(r: Ruler) -> Golden {
        let lo = Single(0);
        let hi = Single(ONE);
        let m1 = (r.near)((lo, hi));
        let m2 = (r.far)((lo, hi));
        Golden { lo, hi, m1, m2, c1: (r.cost)(m1), c2: (r.cost)(m2) }
    }

    /// One round on: the side with the dearer inner point is cut off, and the
    /// other inner point is used again.
    pub open spec fn narrowed(self, r: Ruler) -> Golden {
        if self.c1.at_most(self.c2) {
            let m1 = (r.near)((self.lo, self.m2));
            Golden {
                lo: self.lo,
                hi: self.m2,
                m1,
                m2: self.m1,
                c1: (r.cost)(m1),
                c2: self.c1,
            }
        } else {
            let m2 = (r.far)((self.m1, self.hi));
            Golden {
                lo: self.m1,
                hi: self.hi,
                m1: self.m2,
                m2,
                c1: self.c2,
                c2: (r.cost)(m2),
            }
        }
    }

    /// The search after `n` rounds.
    pub open spec fn after(r: Ruler, n: int) -> Golden
        decreases n,
    {
        if n <= 0 {
            Golden::start(r)
        } else {
            Golden::after(r, n - 1).narrowed(r)
        }
    }
}

/// The inner point of a bracket that is nearer its start.
pub open spec fn near_point(f: Calc, lo: Single, hi: Single) -> Single {
    diff(f, hi, prod(f, Single(P_0_618034), diff(f, hi, lo)))
}

fn find_near<F: Fn(Op) -> Single>(f: &F, lo: Single, hi: Single) -> (r: Single)
    requires
        is_steady(*f),
    ensures
        r == near_point(answering(*f), lo, hi),
{
    minus(f, hi, times(f, Single(P_0_618034), minus(f, hi, lo)))
}

/// The inner point of a bracket that is nearer its end.
pub open spec fn far_point(f: Calc, lo: Single, hi: Single) -> Single {
    sum(f, lo, prod(f, Single(P_0_618034), diff(f, hi, lo)))
}

fn find_far<F: Fn(Op) -> Single>(f: &F, lo: Single, hi: Single) -> (r: Single)
    requires
        is_steady(*f),
    ensures
        r == far_point(answering(*f), lo, hi),
{
    plus(f, lo, times(f, Single(P_0_618034), minus(f, hi, lo)))
}

/// The length of the way over the point at a share of the edge.
pub open spec fn way_over(f: Calc, a: Point, b: Point, src: Point, lis: Point, t: Single) -> Single {
    let p = along(f, a, vdiff(f, b, a), t);
    sum(f, distance(f, p, src), distance(f, lis, p))
}

fn find_way<F: Fn(Op) -> Single>(f: &F, a: Point, b: Point, src: Point, lis: Point, t: Single) -> (r:
    Single)
    requires
        is_steady(*f),
    ensures
        r == way_over(answering(*f), a, b, src, lis, t),
{
    let p: Point = go_along(f, a, vminus(f, b, a), t);
    let d1: Single = distance_of(f, p, src);
    let d2: Single = distance_of(f, lis, p);
    plus(f, d1, d2)
}

/// What the search on one edge weighs.
pub open spec fn ruler(f: Calc, a: Point, b: Point, src: Point, lis: Point) -> Ruler {
    Ruler {
        near: |q: (Single, Single)| near_point(f, q.0, q.1),
        far: |q: (Single, Single)| far_point(f, q.0, q.1),
        cost: |t: Single| way_over(f, a, b, src, lis, t),
    }
}

/// The point of the edge from `a` to `b` in the middle of the last bracket.
pub open spec fn bend(f: Calc, a: Point, b: Point, src: Point, lis: Point) -> Point {
    let g = Golden::after(ruler(f, a, b, src, lis), ROUNDS as int);
    along(f, a, vdiff(f, b, a), prod(f, Single(P_0_5), sum(f, g.lo, g.hi)))
}

/// The point of the edge from `a` to `b` that makes the way over it shortest:
/// golden section on the share of the edge.
pub fn bend_point<F: Fn(Op) -> Single>(f: &F, a: Point, b: Point, src: Point, lis: Point) -> (r: Point)
    requires
        is_steady(*f),
    ensures
        r == bend(answering(*f), a, b, src, lis),
{
    let ghost rl = ruler(answering(*f), a, b, src, lis);
    let lo: Single = Single(0);
    let hi: Single = Single(ONE);
    let m1: Single = find_near(f, lo, hi);
    let m2: Single = find_far(f, lo, hi);
    let c1: Single = find_way(f, a, b, src, lis, m1);
    let c2: Single = find_way(f, a, b, src, lis, m2);
    assert((rl.near)((lo, hi)) == m1 && (rl.far)((lo, hi)) == m2);
    assert((rl.cost)(m1) == c1 && (rl.cost)(m2) == c2);
    let mut g: Golden = Golden { lo, hi, m1, m2, c1, c2 };
    let mut n: usize = 0;
    while n < ROUNDS
        invariant
            n <= ROUNDS,
            is_steady(*f),
            rl == ruler(answering(*f), a, b, src, lis),
            g == Golden::after(rl, n as int),
        decreases ROUNDS - n,
    {
        if g.c1.le(g.c2) {
            let m: Single = find_near(f, g.lo, g.m2);
            let c: Single = find_way(f, a, b, src, lis, m);
            assert((rl.near)((g.lo, g.m2)) == m && (rl.cost)(m) == c);
            g = Golden { lo: g.lo, hi: g.m2, m1: m, m2: g.m1, c1: c, c2: g.c1 };
        } else {
            let m: Single = find_far(f, g.m1, g.hi);
            let c: Single = find_way(f, a, b, src, lis, m);
            assert((rl.far)((g.m1, g.hi)) == m && (rl.cost)(m) == c);
            g = Golden { lo: g.m1, hi: g.hi, m1: g.m2, m2: m, c1: g.c2, c2: c };
        }
        n = n + 1;
    }
    go_along(f, a, vminus(f, b, a), times(f, Single(P_0_5), plus(f, g.lo, g.hi)))
}

} // verus!
