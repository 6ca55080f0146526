//! What bent paths cost: each bend is priced by how much longer the way over it is
//! than past it, and each leg by the walls it passes.

use crate::arith::{diff, greater, plus_prod, prod, quot, size, sum, Calc, Op};
use crate::bend::{is_length, way};
use crate::diffraction::{
    bent, depth, edge_ratio, fresnel, CENTER_HIGH, CENTER_LOW, CENTER_MID, CLEAR, GRAZING_DB,
    SPEED_OF_SOUND, TEN, TINY, TWENTY, TWO_PI,
};
use crate::exact::{
    exact_norm, exact_vdiff, is_exact, lemma_is, lemma_negated, lemma_one, lemma_order,
    lemma_same_pattern, lemma_size, lemma_two, square, value, vector,
};
use crate::geom::{distance, vdiff, TWO};
use crate::mesh::{DiffractionEdge, Mesh, Point};
use crate::params::ONE;
use crate::paths::{
    bent_paths, found_paths, over_skyline, pair_candidates, pair_paths, passed, path_gains,
    rise_span, single_bend, single_candidates, single_carried, single_paths, string_knife,
    strongest_paths, survey, PathBudget, PathModel, Rise, P_1E_MINUS_4, SILHOUETTE_KEY,
};
use crate::rank::{the_strongest_are_listed, top};
use crate::single::{lemma_grid_increases, Single};
use vstd::arithmetic::power2::lemma2_to64;
use vstd::prelude::*;

verus! {

/// The middle of a band, in Hz.
pub open spec fn center(b: int) -> Single {
    Single(if b == 0 {
        CENTER_LOW
    } else if b == 1 {
        CENTER_MID
    } else {
        CENTER_HIGH
    })
}

/// What is heard of a band around an edge by a detour, which counts as a tenth of a
/// millimetre at least.
pub open spec fn around(f: Calc, detour_m: Single, b: int) -> Single {
    bent(f, greater(detour_m, Single(P_1E_MINUS_4)), center(b))
}

/// A path over one point is priced by how much longer it is than the straight one,
/// and by what its two legs pass.
pub open spec fn is_priced_once(f: Calc, mesh: Mesh, straight: Single, p: PathModel) -> bool {
    &&& p.points.len() == 3
    &&& forall|b: int|
        0 <= b < 3 ==> #[trigger] p.gains@[b] == prod(
            f,
            prod(
                f,
                around(f, diff(f, p.length, straight), b),
                passed(f, mesh, p.points[0], p.points[1])@[b],
            ),
            passed(f, mesh, p.points[1], p.points[2])@[b],
        )
    &&& p.length == sum(
        f,
        distance(f, p.points[1], p.points[0]),
        distance(f, p.points[2], p.points[1]),
    )
}

/// What is heard of a band over a point, by how much longer the way over it is than
/// the straight one between its neighbours.
pub open spec fn over_point(f: Calc, a: Point, p: Point, c: Point, b: int) -> Single {
    around(
        f,
        diff(f, sum(f, distance(f, p, a), distance(f, c, p)), distance(f, c, a)),
        b,
    )
}

/// A path over two points is priced at each by how much longer the way over it is
/// than the straight one between its neighbours, and by what its three legs pass.
pub open spec fn is_priced_twice(f: Calc, mesh: Mesh, p: PathModel) -> bool {
    &&& p.points.len() == 4
    &&& forall|b: int|
        0 <= b < 3 ==> #[trigger] p.gains@[b] == prod(
            f,
            prod(
                f,
                prod(
                    f,
                    prod(
                        f,
                        over_point(f, p.points[0], p.points[1], p.points[2], b),
                        over_point(f, p.points[1], p.points[2], p.points[3], b),
                    ),
                    passed(f, mesh, p.points[0], p.points[1])@[b],
                ),
                passed(f, mesh, p.points[1], p.points[2])@[b],
            ),
            passed(f, mesh, p.points[2], p.points[3])@[b],
        )
    &&& p.length == sum(
        f,
        sum(
            f,
            distance(f, p.points[1], p.points[0]),
            distance(f, p.points[2], p.points[1]),
        ),
        distance(f, p.points[3], p.points[2]),
    )
}

/// The path leads from the source to the listener.
pub open spec fn leads(p: PathModel, src: Point, lis: Point) -> bool {
    p.points.len() >= 2 && p.points[0] == src && p.points[p.points.len() - 1] == lis
}

proof fn lemma_singles(
    f: Calc,
    mesh: Mesh,
    edges: Seq<DiffractionEdge>,
    src: Point,
    lis: Point,
    ids: Seq<usize>,
    n: int,
    i: int,
)
    requires
        ({
            let s = survey(f, mesh, edges, src, lis);
            0 <= i < single_paths(src, lis, s.bend, s.carry, ids, n).len()
        }),
    ensures
        ({
            let s = survey(f, mesh, edges, src, lis);
            let p = single_paths(src, lis, s.bend, s.carry, ids, n)[i];
            is_priced_once(f, mesh, distance(f, lis, src), p) && leads(p, src, lis)
        }),
    decreases n,
{
    let s = survey(f, mesh, edges, src, lis);
    let all = single_paths(src, lis, s.bend, s.carry, ids, n);
    let before = single_paths(src, lis, s.bend, s.carry, ids, n - 1);
    if i < before.len() {
        lemma_singles(f, mesh, edges, src, lis, ids, n - 1, i);
    } else {
        let b = single_bend(f, edges[ids[n - 1] as int], src, lis);
        assert(all[i].gains == single_carried(f, mesh, b, src, lis).gains);
    }
}

proof fn lemma_pairs(
    f: Calc,
    mesh: Mesh,
    edges: Seq<DiffractionEdge>,
    src: Point,
    lis: Point,
    pairs: Seq<(usize, usize)>,
    n: int,
    i: int,
)
    requires
        ({
            let s = survey(f, mesh, edges, src, lis);
            0 <= i < pair_paths(src, lis, s.pair, s.carry_pair, pairs, n).len()
        }),
    ensures
        ({
            let s = survey(f, mesh, edges, src, lis);
            let p = pair_paths(src, lis, s.pair, s.carry_pair, pairs, n)[i];
            is_priced_twice(f, mesh, p) && leads(p, src, lis)
        }),
    decreases n,
{
    let s = survey(f, mesh, edges, src, lis);
    let before = pair_paths(src, lis, s.pair, s.carry_pair, pairs, n - 1);
    if i < before.len() {
        lemma_pairs(f, mesh, edges, src, lis, pairs, n - 1, i);
    }
}

/// What a search finds between two points.
pub open spec fn all_found(
    f: Calc,
    mesh: Mesh,
    edges: Seq<DiffractionEdge>,
    src: Point,
    lis: Point,
    budget: PathBudget,
) -> Seq<PathModel> {
    found_paths(
        edges.len() as int,
        src,
        lis,
        passed(f, mesh, src, lis),
        distance(f, lis, src),
        budget,
        survey(f, mesh, edges, src, lis),
        over_skyline(f, mesh, src, lis),
    )
}

/// All bent paths that a search weighs.
pub open spec fn all_bent(
    f: Calc,
    mesh: Mesh,
    edges: Seq<DiffractionEdge>,
    src: Point,
    lis: Point,
    budget: PathBudget,
) -> Seq<PathModel> {
    bent_paths(
        edges.len() as int,
        src,
        lis,
        budget,
        survey(f, mesh, edges, src, lis),
        over_skyline(f, mesh, src, lis),
    )
}

/// Every found path is priced by its way: the direct one by what it passes; any other
/// leads from the source to the listener, and but for the one over the silhouette it
/// bends once, and is priced by how much longer it is than the direct one, or twice,
/// and is priced at each bend by how much longer the way over it is.
pub proof fn found_paths_are_priced_by_their_ways(
    f: Calc,
    mesh: Mesh,
    edges: Seq<DiffractionEdge>,
    src: Point,
    lis: Point,
    budget: PathBudget,
    i: int,
)
    requires
        all_bent(f, mesh, edges, src, lis, budget).len() <= usize::MAX,
        0 <= i < all_found(f, mesh, edges, src, lis, budget).len(),
    ensures
        ({
            let r = all_found(f, mesh, edges, src, lis, budget);
            &&& r[0].length == distance(f, lis, src)
            &&& r[0].points == seq![src, lis]
            &&& r[0].gains == passed(f, mesh, r[0].points[0], r[0].points[1])
            &&& i > 0 && r[i].key != SILHOUETTE_KEY ==> {
                &&& leads(r[i], src, lis)
                &&& is_priced_once(f, mesh, r[0].length, r[i]) || is_priced_twice(f, mesh, r[i])
            }
        }),
{
    if i > 0 {
        let s = survey(f, mesh, edges, src, lis);
        let n = edges.len() as int;
        let ids = single_candidates(s.corridor, s.bend, n, budget.edge_candidates as nat);
        let pairs = pair_candidates(s.corridor, s.pair, n, budget.pair_edges as nat);
        let ones = single_paths(src, lis, s.bend, s.carry, ids, ids.len() as int);
        let twos = pair_paths(src, lis, s.pair, s.carry_pair, pairs, pairs.len() as int);
        let all = all_bent(f, mesh, edges, src, lis, budget);
        let max = budget.max_paths as nat;
        the_strongest_are_listed(path_gains(all), max);
        let picks = top(path_gains(all), max);
        let k = picks[i - 1] as int;
        let r = all_found(f, mesh, edges, src, lis, budget);
        assert(r[i] == strongest_paths(all, max)[i - 1]);
        assert(picks[i - 1] < path_gains(all).len());
        assert(r[i] == all[k]);
        if k < ones.len() {
            assert(all[k] == ones[k]);
            lemma_singles(f, mesh, edges, src, lis, ids, ids.len() as int, k);
        } else if k < ones.len() + twos.len() {
            assert(all[k] == twos[k - ones.len()]);
            lemma_pairs(f, mesh, edges, src, lis, pairs, pairs.len() as int, k - ones.len());
        } else {
            assert(all[k] == over_skyline(f, mesh, src, lis)->0);
        }
    }
}

/// Nothing is lost on a leg, and multiplying by one changes nothing.
pub open spec fn is_clear_leg(f: Calc, mesh: Mesh, a: Point, b: Point) -> bool {
    passed(f, mesh, a, b)@ == seq![Single(ONE), Single(ONE), Single(ONE)]
}

/// A host that leaves a number alone when it multiplies it by one.
pub open spec fn leaves_alone(f: Calc) -> bool {
    forall|x: Single| #[trigger] f(Op::Times(x, Single(ONE))) == x
}

/// A bend over one edge whose legs are clear has exactly the amplitudes of how much
/// longer its way is than the straight line, in every band; in the middle one that
/// is what it was ranked by.
pub proof fn a_clear_bend_costs_its_detour(
    f: Calc,
    mesh: Mesh,
    e: DiffractionEdge,
    src: Point,
    lis: Point,
    b: int,
)
    requires
        0 <= b < 3,
        leaves_alone(f),
        is_clear_leg(f, mesh, src, single_bend(f, e, src, lis).point),
        is_clear_leg(f, mesh, single_bend(f, e, src, lis).point, lis),
    ensures
        ({
            let s = single_bend(f, e, src, lis);
            let c = single_carried(f, mesh, s, src, lis);
            &&& c.gains@[b] == over_point(f, src, s.point, lis, b)
            &&& c.gains@[1] == s.bound
        }),
{
    let s = single_bend(f, e, src, lis);
    let (x, y) = (passed(f, mesh, src, s.point), passed(f, mesh, s.point, lis));
    assert(x@[b] == Single(ONE) && y@[b] == Single(ONE));
    assert(x@[1] == Single(ONE) && y@[1] == Single(ONE));
}

/// Every operation behind how much longer the way over a point is, is exact.
pub open spec fn exact_detour(f: Calc, a: Point, p: Point, c: Point) -> bool {
    &&& exact_vdiff(f, p, a) && exact_norm(f, vdiff(f, p, a))
    &&& exact_vdiff(f, c, p) && exact_norm(f, vdiff(f, c, p))
    &&& exact_vdiff(f, c, a) && exact_norm(f, vdiff(f, c, a))
    &&& is_exact(f, Op::Plus(distance(f, p, a), distance(f, c, p)))
    &&& is_exact(
        f,
        Op::Minus(sum(f, distance(f, p, a), distance(f, c, p)), distance(f, c, a)),
    )
}

proof fn lemma_root(x: real, y: real)
    requires
        x * x == y * y,
        x >= 0real,
        y >= 0real,
    ensures
        x == y,
{
    if x < y {
        assert(x * x < y * y) by (nonlinear_arith)
            requires
                0real <= x < y,
        ;
    }
    if y < x {
        assert(y * y < x * x) by (nonlinear_arith)
            requires
                0real <= y < x,
        ;
    }
}

proof fn lemma_detour_pattern(detour: Single, d: Single, long: real)
    requires
        detour.is_finite(),
        value(detour) == long,
        d.is_finite(),
        value(d) == (if long >= value(Single(P_1E_MINUS_4)) {
            long
        } else {
            value(Single(P_1E_MINUS_4))
        }),
    ensures
        greater(detour, Single(P_1E_MINUS_4)) == d,
{
    lemma_one();
    lemma_grid_increases(0, P_1E_MINUS_4 as nat);
    lemma_order(Single(0), Single(P_1E_MINUS_4));
    lemma_order(detour, Single(P_1E_MINUS_4));
    lemma_same_pattern(greater(detour, Single(P_1E_MINUS_4)), d);
}

/// What is heard over a point depends on how much longer the way over it is, and on
/// nothing else: in exact arithmetic it is the amplitude around an edge by that
/// length, in metres, which counts as a tenth of a millimetre at least.
pub proof fn a_bend_is_priced_by_its_length(
    f: Calc,
    a: Point,
    p: Point,
    c: Point,
    there: real,
    on: real,
    straight: real,
    d: Single,
    b: int,
)
    requires
        0 <= b < 3,
        exact_detour(f, a, p, c),
        is_length(there, way(vector(a), vector(p))),
        is_length(on, way(vector(p), vector(c))),
        is_length(straight, way(vector(a), vector(c))),
        d.is_finite(),
        value(d) == (if there + on - straight >= value(Single(P_1E_MINUS_4)) {
            there + on - straight
        } else {
            value(Single(P_1E_MINUS_4))
        }),
    ensures
        over_point(f, a, p, c, b) == bent(f, d, center(b)),
{
    lemma_root(value(distance(f, p, a)), there);
    lemma_root(value(distance(f, c, p)), on);
    lemma_root(value(distance(f, c, a)), straight);
    lemma_detour_pattern(
        diff(f, sum(f, distance(f, p, a), distance(f, c, p)), distance(f, c, a)),
        d,
        there + on - straight,
    );
}

// --- the silhouette

/// How far two points of the profile are apart is exact.
pub open spec fn exact_span(f: Calc, a: Rise, b: Rise) -> bool {
    let (x, z) = (diff(f, a.0, b.0), diff(f, a.1, b.1));
    &&& is_exact(f, Op::Minus(a.0, b.0)) && is_exact(f, Op::Minus(a.1, b.1))
    &&& is_exact(f, Op::Times(x, x)) && is_exact(f, Op::Times(z, z))
    &&& is_exact(f, Op::Plus(prod(f, x, x), prod(f, z, z)))
    &&& is_exact(f, Op::Root(sum(f, prod(f, x, x), prod(f, z, z))))
}

/// A number is how far two points of the profile are apart.
pub open spec fn is_span(l: real, a: Rise, b: Rise) -> bool {
    l >= 0real && l * l == square(value(a.0) - value(b.0)) + square(value(a.1) - value(b.1))
}

/// A bend of the string over the silhouette is priced by how much longer the string
/// over it is than past it, in exact arithmetic.
pub proof fn a_string_is_priced_by_its_length(
    f: Calc,
    a: Rise,
    p: Rise,
    c: Rise,
    there: real,
    on: real,
    straight: real,
    d: Single,
    b: int,
)
    requires
        0 <= b < 3,
        exact_span(f, a, p) && exact_span(f, p, c) && exact_span(f, a, c),
        is_exact(f, Op::Plus(rise_span(f, a, p), rise_span(f, p, c))),
        is_exact(
            f,
            Op::Minus(sum(f, rise_span(f, a, p), rise_span(f, p, c)), rise_span(f, a, c)),
        ),
        is_span(there, a, p),
        is_span(on, p, c),
        is_span(straight, a, c),
        d.is_finite(),
        value(d) == (if there + on - straight >= value(Single(P_1E_MINUS_4)) {
            there + on - straight
        } else {
            value(Single(P_1E_MINUS_4))
        }),
    ensures
        string_knife(f, a, p, c)@[b] == bent(f, d, center(b)),
{
    lemma_root(value(rise_span(f, a, p)), there);
    lemma_root(value(rise_span(f, p, c)), on);
    lemma_root(value(rise_span(f, a, c)), straight);
    lemma_detour_pattern(
        diff(f, sum(f, rise_span(f, a, p), rise_span(f, p, c)), rise_span(f, a, c)),
        d,
        there + on - straight,
    );
}

// --- the edge itself

/// The real functions that a host's powers of ten, logarithms and tangents are.
pub ghost struct Curves {
    pub pow: spec_fn(real) -> real,
    pub log: spec_fn(real) -> real,
    pub tanh: spec_fn(real) -> real,
    pub tan: spec_fn(real) -> real,
}

impl Curves {
    /// Powers turn sums into products, and undo logarithms.
    pub open spec fn are_true(self) -> bool {
        &&& forall|u: real, v: real| #[trigger]
            (self.pow)(u + v) == (self.pow)(u) * (self.pow)(v)
        &&& forall|u: real| u > 0real ==> (self.pow)(#[trigger] (self.log)(u)) == u
    }
}

/// Every operation behind what is heard around an edge is exact, and answers with
/// the curves.
pub open spec fn exact_edge(f: Calc, c: Curves, detour_m: Single, freq_hz: Single) -> bool {
    let n = fresnel(f, detour_m, freq_hz);
    let x = depth(f, n);
    let r = edge_ratio(f, n);
    let l = f(Op::Log(r));
    let db = plus_prod(f, Single(GRAZING_DB), Single(TWENTY), l);
    let y = quot(f, db.negated(), Single(TWENTY));
    &&& is_exact(f, Op::Times(Single(TWO), detour_m))
    &&& is_exact(f, Op::Times(prod(f, Single(TWO), detour_m), freq_hz))
    &&& is_exact(
        f,
        Op::Over(prod(f, prod(f, Single(TWO), detour_m), freq_hz), Single(SPEED_OF_SOUND)),
    )
    &&& is_exact(f, Op::Times(Single(TWO_PI), size(n)))
    &&& is_exact(f, Op::Root(prod(f, Single(TWO_PI), size(n))))
    &&& value(f(Op::Tanh(x))) == (c.tanh)(value(x))
    &&& value(f(Op::Tan(x))) == (c.tan)(value(x))
    &&& is_exact(f, Op::Over(x, f(Op::Tanh(x))))
    &&& is_exact(f, Op::Over(x, f(Op::Tan(x))))
    &&& value(r) > 0real
    &&& value(l) == (c.log)(value(r))
    &&& is_exact(f, Op::Times(Single(TWENTY), l))
    &&& is_exact(f, Op::Plus(Single(GRAZING_DB), prod(f, Single(TWENTY), l)))
    &&& is_exact(f, Op::Over(db.negated(), Single(TWENTY)))
    &&& value(f(Op::Power(Single(TEN), y))) == (c.pow)(value(y))
}

proof fn lemma_power(c: Curves, l: real, r: real)
    requires
        c.are_true(),
        r > 0real,
        l == (c.log)(r),
    ensures
        (c.pow)(-1real / 4real - l) * r == (c.pow)(-1real / 4real),
{
    let q = -1real / 4real;
    assert((q - l) + l == q);
    assert((c.pow)((q - l) + l) == (c.pow)(q - l) * (c.pow)(l));
}

/// The edge obeys its formula: the Fresnel number times the speed of sound is twice
/// the detour times the frequency; and with `x` the root of a full turn times its
/// size, the amplitude times `x` is that of 5 dB times the hyperbolic tangent of `x`
/// in the shadow, and times its tangent on the lit side. Right at the edge 5 dB are
/// lost.
pub proof fn an_edge_obeys_its_formula(f: Calc, c: Curves, detour_m: Single, freq_hz: Single)
    requires
        c.are_true(),
        exact_edge(f, c, detour_m, freq_hz),
    ensures
        ({
            let n = value(fresnel(f, detour_m, freq_hz));
            let x = value(depth(f, fresnel(f, detour_m, freq_hz)));
            let amp = value(bent(f, detour_m, freq_hz));
            let grazing = (c.pow)(-1real / 4real);
            &&& n * value(Single(SPEED_OF_SOUND)) == (2real * value(detour_m)) * value(freq_hz)
            &&& x >= 0real && square(x) == value(Single(TWO_PI)) * (if n >= 0real {
                n
            } else {
                -n
            })
            &&& n <= value(Single(CLEAR)) ==> amp == 1real
            &&& n > value(Single(CLEAR)) && x < value(Single(TINY)) ==> amp == grazing
            &&& n >= 0real && x >= value(Single(TINY)) ==> amp * x == grazing * (c.tanh)(x)
            &&& value(Single(CLEAR)) < n < 0real && x >= value(Single(TINY)) ==> amp * x == grazing
                * (c.tan)(x)
        }),
{
    lemma_one();
    lemma_two();
    let fr = fresnel(f, detour_m, freq_hz);
    let (n, root) = (value(fr), depth(f, fr));
    let x = value(root);
    lemma_size(fr);
    lemma_grid_increases(0, Single(CLEAR).magnitude());
    lemma_order(Single(CLEAR), Single(0));
    lemma_order(fr, Single(CLEAR));
    lemma_order(Single(0), fr);
    lemma_order(root, Single(TINY));
    lemma_grid_increases(0, TINY as nat);
    lemma_order(Single(0), Single(TINY));
    let r = edge_ratio(f, fr);
    let lg = f(Op::Log(r));
    let db = plus_prod(f, Single(GRAZING_DB), Single(TWENTY), lg);
    lemma_negated(db);
    let (l, k, g, y) = (
        value(lg),
        value(Single(TWENTY)),
        value(Single(GRAZING_DB)),
        value(quot(f, db.negated(), Single(TWENTY))),
    );
    lemma_decibels();
    assert(y == -1real / 4real - l) by (nonlinear_arith)
        requires
            y * k == -(g + k * l),
            k == 20real,
            g == 5real,
    ;
    lemma_power(c, l, value(r));
    let amp = (c.pow)(y);
    let grazing = (c.pow)(-1real / 4real);
    assert(amp * value(r) == grazing);
    if x < value(Single(TINY)) {
        let q = value(r);
        assert(amp * q == amp) by (nonlinear_arith)
            requires
                q == 1real,
        ;
    } else {
        let t = if n >= 0real {
            (c.tanh)(x)
        } else {
            (c.tan)(x)
        };
        let q = value(r);
        assert(q * t == x);
        assert(amp * (q * t) == (amp * q) * t) by (nonlinear_arith);
    }
    assert(value(size(fr)) == (if n >= 0real {
        n
    } else {
        -n
    }));
    assert(square(x) == value(Single(TWO_PI)) * value(size(fr)));
    let heard = value(bent(f, detour_m, freq_hz));
    assert(n > value(Single(CLEAR)) ==> heard == amp);
    assert(n <= value(Single(CLEAR)) ==> heard == 1real);
    assert(n > value(Single(CLEAR)) && x < value(Single(TINY)) ==> heard == grazing);
    assert(n >= 0real && x >= value(Single(TINY)) ==> heard * x == grazing * (c.tanh)(x));
    assert(value(Single(CLEAR)) < n && n < 0real && x >= value(Single(TINY)) ==> heard * x == grazing
        * (c.tan)(x));
}

/// What five and twenty stand for.
proof fn lemma_decibels()
    ensures
        value(Single(GRAZING_DB)) == 5real,
        value(Single(TWENTY)) == 20real,
{
    lemma2_to64();
    lemma_is(GRAZING_DB, 129, 0x20_0000, 5real);
    lemma_is(TWENTY, 131, 0x20_0000, 20real);
}

} // verus!
