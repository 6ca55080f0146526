//! What the boxes of the hierarchy do to rays: a box over a triangle is entered
//! no later than the triangle is hit, so no hit is lost, as far as the arithmetic
//! behind the two is exact.

use crate::arith::{diff, greater, lesser, prod, quot, Calc, Op};
use crate::bvh::{
    crossed_at, crossing_at, end_of, entering, every_crossing_is_found, hitting, is_measured,
    is_nearest, is_tree, is_under, lemma_tree_is_subtree, measuring, meeting, sharing, start_of,
    the_nearest_hit_is_found, Bvh, BvhNode, Measuring, NodeMeasure, FAR_END, LARGEST,
};
use crate::exact::{
    exact_cross, exact_dot, exact_vdiff, inner, is_exact, lemma_one, lemma_order, outer, value,
    vector, Vector,
};
use crate::geom::{cross, dot, vdiff, vsum};
use crate::mesh::{Mesh, Point};
use crate::params::ONE;
use crate::single::{lemma_grid_increases, Single, INFINITY};
use crate::tri::{
    all_hi, all_lo, box_entry, clipped, is_measure, Line, PackedTri, P_1E_MINUS_5,
};
use vstd::prelude::*;

verus! {

/// A product of four numbers.
spec fn four(a: real, b: real, c: real, d: real) -> real {
    ((a * b) * c) * d
}

proof fn lemma_four(a: real, b: real, c: real, d: real)
    ensures
        four(a, b, c, d) == four(d, b, c, a),
        four(a, b, c, d) == four(c, a, d, b),
        four(a, b, c, d) == four(c, d, a, b),
{
    assert(((a * b) * c) * d == ((d * b) * c) * a) by (nonlinear_arith);
    assert(((a * b) * c) * d == ((c * a) * d) * b) by (nonlinear_arith);
    assert(((a * b) * c) * d == ((c * d) * a) * b) by (nonlinear_arith);
}

proof fn lemma_spread(a: real, b: real, c: real, d: real, e: real, x: real)
    ensures
        (a * (b * c - d * e)) * x == four(a, b, c, x) - four(a, d, e, x),
{
    let (p, q) = (b * c, d * e);
    assert(a * (p - q) == a * p - a * q) by (nonlinear_arith);
    assert(a * (b * c) == (a * b) * c) by (nonlinear_arith);
    assert(a * (d * e) == (a * d) * e) by (nonlinear_arith);
    let (y, z) = (a * p, a * q);
    assert((y - z) * x == y * x - z * x) by (nonlinear_arith);
}

/// A triple product times a number, spread out.
proof fn lemma_triple(a: Vector, b: Vector, c: Vector, x: real)
    ensures
        inner(a, outer(b, c)) * x == four(a.0, b.1, c.2, x) - four(a.0, b.2, c.1, x) + four(
            a.1,
            b.2,
            c.0,
            x,
        ) - four(a.1, b.0, c.2, x) + four(a.2, b.0, c.1, x) - four(a.2, b.1, c.0, x),
{
    lemma_spread(a.0, b.1, c.2, b.2, c.1, x);
    lemma_spread(a.1, b.2, c.0, b.0, c.2, x);
    lemma_spread(a.2, b.0, c.1, b.1, c.0, x);
    let o = outer(b, c);
    let (y, z, w) = (a.0 * o.0, a.1 * o.1, a.2 * o.2);
    assert((y + z + w) * x == y * x + z * x + w * x) by (nonlinear_arith);
}

/// Four vectors of space depend on each other; the first coordinate of how.
proof fn lemma_dependence(e: Vector, d: Vector, g: Vector, s: Vector)
    ensures
        inner(e, outer(d, g)) * s.0 + inner(g, outer(s, e)) * d.0 == inner(s, outer(d, g)) * e.0
            + inner(d, outer(s, e)) * g.0,
{
    lemma_triple(e, d, g, s.0);
    lemma_triple(s, d, g, e.0);
    lemma_triple(d, s, e, g.0);
    lemma_triple(g, s, e, d.0);
    lemma_four(s.0, d.1, g.2, e.0);
    lemma_four(s.0, d.2, g.1, e.0);
    lemma_four(s.1, d.2, g.0, e.0);
    lemma_four(s.1, d.0, g.2, e.0);
    lemma_four(s.2, d.0, g.1, e.0);
    lemma_four(s.2, d.1, g.0, e.0);
    lemma_four(d.0, s.1, e.2, g.0);
    lemma_four(d.0, s.2, e.1, g.0);
    lemma_four(d.1, s.2, e.0, g.0);
    lemma_four(d.1, s.0, e.2, g.0);
    lemma_four(d.2, s.0, e.1, g.0);
    lemma_four(d.2, s.1, e.0, g.0);
    lemma_four(g.0, s.1, e.2, d.0);
    lemma_four(g.0, s.2, e.1, d.0);
    lemma_four(g.1, s.2, e.0, d.0);
    lemma_four(g.1, s.0, e.2, d.0);
    lemma_four(g.2, s.0, e.1, d.0);
    lemma_four(g.2, s.1, e.0, d.0);
}

/// The coordinates, counted from the second on.
spec fn turned(v: Vector) -> Vector {
    (v.1, v.2, v.0)
}

/// Every operation behind a hit is exact.
pub open spec fn exact_hit(f: Calc, tri: PackedTri, l: Line) -> bool {
    let p = cross(f, l.d, tri.e2);
    let det = dot(f, tri.e1, p);
    let inv = quot(f, Single(ONE), det);
    let s = vdiff(f, l.o, tri.a);
    let q = cross(f, s, tri.e1);
    &&& exact_cross(f, l.d, tri.e2) && exact_dot(f, tri.e1, p)
    &&& is_exact(f, Op::Over(Single(ONE), det))
    &&& exact_vdiff(f, l.o, tri.a)
    &&& exact_dot(f, s, p) && is_exact(f, Op::Times(dot(f, s, p), inv))
    &&& exact_cross(f, s, tri.e1)
    &&& exact_dot(f, l.d, q) && is_exact(f, Op::Times(dot(f, l.d, q), inv))
    &&& exact_dot(f, tri.e2, q) && is_exact(f, Op::Times(dot(f, tri.e2, q), inv))
}

/// Where on a triangle a ray meets its plane: how far along either edge.
pub open spec fn met_at(f: Calc, tri: PackedTri, l: Line) -> (Single, Single) {
    let p = cross(f, l.d, tri.e2);
    let inv = quot(f, Single(ONE), dot(f, tri.e1, p));
    let s = vdiff(f, l.o, tri.a);
    (prod(f, dot(f, s, p), inv), prod(f, dot(f, l.d, cross(f, s, tri.e1)), inv))
}

/// The ray meets the plane within the triangle's edges.
pub open spec fn is_inside(f: Calc, tri: PackedTri, l: Line) -> bool {
    let (u, v) = met_at(f, tri, l);
    value(u) >= 0real && value(v) >= 0real && value(u) + value(v) <= 1real
}

proof fn lemma_ratio(x: real, det: real, inv: real)
    requires
        inv * det == 1real,
    ensures
        (x * inv) * det == x,
{
    assert((x * inv) * det == x * (inv * det)) by (nonlinear_arith);
}

proof fn lemma_solved(det: real, s: real, t: real, d: real, u: real, e: real, v: real, g: real)
    requires
        det != 0real,
        det * s + (t * det) * d == (u * det) * e + (v * det) * g,
    ensures
        s + t * d == u * e + v * g,
{
    assert((t * det) * d == det * (t * d)) by (nonlinear_arith);
    assert((u * det) * e == det * (u * e)) by (nonlinear_arith);
    assert((v * det) * g == det * (v * g)) by (nonlinear_arith);
    let (x, y, z) = (t * d, u * e, v * g);
    assert(s + x == y + z) by (nonlinear_arith)
        requires
            det != 0real,
            det * s + det * x == det * y + det * z,
    ;
}

/// A hit is where the ray meets the triangle: as far along the ray as along the
/// edges.
proof fn lemma_hit(f: Calc, tri: PackedTri, l: Line, t: Single)
    requires
        exact_hit(f, tri, l),
        tri.hit(f, l) == Some(t),
    ensures
        t.is_finite(),
        value(t) > 0real,
        ({
            let (u, v) = met_at(f, tri, l);
            let (o, d, a) = (vector(l.o), vector(l.d), vector(tri.a));
            let (e, g) = (vector(tri.e1), vector(tri.e2));
            &&& o.0 + value(t) * d.0 == a.0 + value(u) * e.0 + value(v) * g.0
            &&& o.1 + value(t) * d.1 == a.1 + value(u) * e.1 + value(v) * g.1
            &&& o.2 + value(t) * d.2 == a.2 + value(u) * e.2 + value(v) * g.2
        }),
{
    let (u, v) = met_at(f, tri, l);
    let (d, e, g) = (vector(l.d), vector(tri.e1), vector(tri.e2));
    let p = cross(f, l.d, tri.e2);
    let det = dot(f, tri.e1, p);
    let inv = quot(f, Single(ONE), det);
    let sp = vdiff(f, l.o, tri.a);
    let q = cross(f, sp, tri.e1);
    let s = vector(sp);
    lemma_one();
    lemma_grid_increases(0, P_1E_MINUS_5 as nat);
    lemma_order(Single(0), Single(P_1E_MINUS_5));
    lemma_order(Single(P_1E_MINUS_5), t);
    assert(vector(p) == outer(d, g));
    assert(vector(q) == outer(s, e));
    let (m, i) = (value(det), value(inv));
    assert(m == inner(e, outer(d, g)));
    lemma_ratio(inner(s, outer(d, g)), m, i);
    lemma_ratio(inner(d, outer(s, e)), m, i);
    lemma_ratio(inner(g, outer(s, e)), m, i);
    lemma_dependence(e, d, g, s);
    lemma_dependence(turned(e), turned(d), turned(g), turned(s));
    lemma_dependence(turned(turned(e)), turned(turned(d)), turned(turned(g)), turned(turned(s)));
    lemma_solved(m, s.0, value(t), d.0, value(u), e.0, value(v), g.0);
    lemma_solved(m, s.1, value(t), d.1, value(u), e.1, value(v), g.1);
    lemma_solved(m, s.2, value(t), d.2, value(u), e.2, value(v), g.2);
}

/// Clipping a ray to a box along one axis is exact; along an axis that the ray
/// does not move on, it leaves the whole ray.
pub open spec fn exact_clip(f: Calc, lo: Single, hi: Single, o: Single, d: Single) -> bool {
    let inv = quot(f, Single(ONE), d);
    let x = prod(f, diff(f, lo, o), inv);
    let y = prod(f, diff(f, hi, o), inv);
    let end = Single(INFINITY);
    &&& lo.is_finite() && hi.is_finite()
    &&& if value(d) != 0real {
        &&& is_exact(f, Op::Over(Single(ONE), d))
        &&& is_exact(f, Op::Minus(lo, o)) && is_exact(f, Op::Times(diff(f, lo, o), inv))
        &&& is_exact(f, Op::Minus(hi, o)) && is_exact(f, Op::Times(diff(f, hi, o), inv))
    } else {
        (x == end && y == end.negated()) || (x == end.negated() && y == end)
    }
}

/// Clipping a ray to a box is exact.
pub open spec fn exact_entry(f: Calc, lo: Point, hi: Point, l: Line) -> bool {
    &&& exact_clip(f, lo@[0], hi@[0], l.o@[0], l.d@[0])
    &&& exact_clip(f, lo@[1], hi@[1], l.o@[1], l.d@[1])
    &&& exact_clip(f, lo@[2], hi@[2], l.o@[2], l.d@[2])
}

proof fn lemma_ends(t: Single)
    requires
        t.is_finite(),
    ensures
        Single(INFINITY).negated().at_most(t),
        t.at_most(Single(INFINITY)),
        Single(INFINITY).negated().below(Single(INFINITY)),
{
    lemma_grid_increases(t.magnitude(), INFINITY as nat);
    lemma_grid_increases(0, INFINITY as nat);
}

proof fn lemma_clip(
    f: Calc,
    r: (Single, Single),
    lo: Single,
    hi: Single,
    o: Single,
    d: Single,
    t: Single,
)
    requires
        t.is_finite(),
        r.0.at_most(t),
        t.at_most(r.1),
        exact_clip(f, lo, hi, o, d),
        value(lo) <= value(o) + value(t) * value(d) <= value(hi),
    ensures
        clipped(f, r, lo, hi, o, quot(f, Single(ONE), d)) matches Some(c) && c.0.at_most(t)
            && t.at_most(c.1),
{
    let inv = quot(f, Single(ONE), d);
    let x = prod(f, diff(f, lo, o), inv);
    let y = prod(f, diff(f, hi, o), inv);
    lemma_ends(t);
    lemma_one();
    if value(d) != 0real {
        let (k, i, w) = (value(d), value(inv), value(t));
        lemma_order(x, t);
        lemma_order(y, t);
        lemma_order(t, x);
        lemma_order(t, y);
        lemma_order(y, x);
        let (a, b, m) = (value(lo) - value(o), value(hi) - value(o), w * k);
        lemma_ratio(w, i, k);
        assert((k > 0real ==> a * i <= m * i && m * i <= b * i) && (k < 0real ==> b * i <= m * i && m
            * i <= a * i)) by (nonlinear_arith)
            requires
                i * k == 1real,
                a <= m <= b,
        ;
    }
}

/// One box lies in another.
pub open spec fn is_box_within(lo: Point, hi: Point, outer_lo: Point, outer_hi: Point) -> bool {
    &&& forall|b: int| 0 <= b < 3 ==> value(outer_lo@[b]) <= value(#[trigger] lo@[b])
    &&& forall|b: int| 0 <= b < 3 ==> value(#[trigger] hi@[b]) <= value(outer_hi@[b])
}

/// The far corners of a triangle are exact.
pub open spec fn exact_corners(f: Calc, tri: PackedTri) -> bool {
    &&& tri.a@[0].is_finite() && tri.a@[1].is_finite() && tri.a@[2].is_finite()
    &&& forall|b: int| 0 <= b < 3 ==> is_exact(f, Op::Plus(#[trigger] tri.a@[b], tri.e1@[b]))
    &&& forall|b: int| 0 <= b < 3 ==> is_exact(f, Op::Plus(#[trigger] tri.a@[b], tri.e2@[b]))
}

proof fn lemma_least(a: Single, b: Single)
    requires
        a.is_finite(),
        b.is_finite(),
    ensures
        lesser(a, b).is_finite(),
        value(lesser(a, b)) <= value(a),
        value(lesser(a, b)) <= value(b),
        greater(a, b).is_finite(),
        value(greater(a, b)) >= value(a),
        value(greater(a, b)) >= value(b),
{
    lemma_order(a, b);
    lemma_order(b, a);
}

/// Along one axis a point within a triangle lies in the triangle's box.
proof fn lemma_in_box(f: Calc, tri: PackedTri, u: real, v: real, b: int)
    requires
        0 <= b < 3,
        exact_corners(f, tri),
        u >= 0real,
        v >= 0real,
        u + v <= 1real,
    ensures
        tri.lo(f)@[b].is_finite(),
        tri.hi(f)@[b].is_finite(),
        value(tri.lo(f)@[b]) <= value(tri.a@[b]) + u * value(tri.e1@[b]) + v * value(tri.e2@[b])
            <= value(tri.hi(f)@[b]),
{
    let p = tri.a@[b];
    let q = vsum(f, tri.a, tri.e1)@[b];
    let r = vsum(f, tri.a, tri.e2)@[b];
    assert(is_exact(f, Op::Plus(p, tri.e1@[b])));
    assert(is_exact(f, Op::Plus(p, tri.e2@[b])));
    lemma_least(p, q);
    lemma_least(lesser(p, q), r);
    lemma_least(greater(p, q), r);
    let (a, e, g) = (value(p), value(tri.e1@[b]), value(tri.e2@[b]));
    let (lo, hi) = (value(tri.lo(f)@[b]), value(tri.hi(f)@[b]));
    lemma_weighed(a - lo, a + e - lo, a + g - lo, u, v);
    lemma_weighed(hi - a, hi - a - e, hi - a - g, u, v);
    lemma_split(a - lo, e, g, u, v);
    lemma_split(hi - a, -e, -g, u, v);
    assert(u * (-e) == -(u * e) && v * (-g) == -(v * g)) by (nonlinear_arith);
}

proof fn lemma_weighed(x: real, y: real, z: real, u: real, v: real)
    requires
        x >= 0real,
        y >= 0real,
        z >= 0real,
        u >= 0real,
        v >= 0real,
        u + v <= 1real,
    ensures
        (1real - u - v) * x + u * y + v * z >= 0real,
{
    let w = 1real - u - v;
    assert(w * x >= 0real) by (nonlinear_arith)
        requires
            w >= 0real,
            x >= 0real,
    ;
    assert(u * y >= 0real && v * z >= 0real) by (nonlinear_arith)
        requires
            u >= 0real,
            y >= 0real,
            v >= 0real,
            z >= 0real,
    ;
}

proof fn lemma_split(x: real, e: real, g: real, u: real, v: real)
    ensures
        (1real - u - v) * x + u * (x + e) + v * (x + g) == x + u * e + v * g,
{
    assert((1real - u - v) * x == x - u * x - v * x) by (nonlinear_arith);
    assert(u * (x + e) == u * x + u * e) by (nonlinear_arith);
    assert(v * (x + g) == v * x + v * g) by (nonlinear_arith);
}

/// No box hides a hit: in exact arithmetic a box over a triangle that is hit
/// within its edges, nearer than the limit, is entered, and no later than the
/// triangle is hit.
pub proof fn no_box_hides_a_hit(
    f: Calc,
    lo: Point,
    hi: Point,
    tri: PackedTri,
    o: Point,
    d: Point,
    limit: Single,
    t: Single,
)
    requires
        tri.hit(f, Line::from(f, o, d)) == Some(t),
        t.below(limit),
        is_inside(f, tri, Line::from(f, o, d)),
        is_box_within(tri.lo(f), tri.hi(f), lo, hi),
        exact_hit(f, tri, Line::from(f, o, d)),
        exact_corners(f, tri),
        exact_entry(f, lo, hi, Line::from(f, o, d)),
    ensures
        box_entry(f, lo, hi, Line::from(f, o, d), limit) matches Some(e) && e.at_most(t),
{
    let l = Line::from(f, o, d);
    let (u, v) = met_at(f, tri, l);
    lemma_hit(f, tri, l, t);
    lemma_in_box(f, tri, value(u), value(v), 0);
    lemma_in_box(f, tri, value(u), value(v), 1);
    lemma_in_box(f, tri, value(u), value(v), 2);
    assert(value(lo@[0]) <= value(tri.lo(f)@[0]) && value(tri.hi(f)@[0]) <= value(hi@[0]));
    assert(value(lo@[1]) <= value(tri.lo(f)@[1]) && value(tri.hi(f)@[1]) <= value(hi@[1]));
    assert(value(lo@[2]) <= value(tri.lo(f)@[2]) && value(tri.hi(f)@[2]) <= value(hi@[2]));
    lemma_one();
    lemma_order(Single(0), t);
    lemma_clip(f, (Single(0), limit), lo@[0], hi@[0], o@[0], d@[0], t);
    let x = clipped(f, (Single(0), limit), lo@[0], hi@[0], o@[0], l.inv@[0])->0;
    lemma_clip(f, x, lo@[1], hi@[1], o@[1], d@[1], t);
    let y = clipped(f, x, lo@[1], hi@[1], o@[1], l.inv@[1])->0;
    lemma_clip(f, y, lo@[2], hi@[2], o@[2], d@[2], t);
}

/// A box over several triangles is no smaller than that of one of them.
proof fn lemma_all_boxes(f: Calc, prims: Seq<PackedTri>, v: Seq<usize>, n: int, k: int, b: int)
    requires
        n <= v.len(),
        0 <= b < 3,
    ensures
        !all_lo(f, prims, v, n)@[b].is_nan(),
        !all_hi(f, prims, v, n)@[b].is_nan(),
        0 <= k < n && !prims[v[k] as int].lo(f)@[b].is_nan() ==> all_lo(f, prims, v, n)@[b].at_most(
            prims[v[k] as int].lo(f)@[b],
        ),
        0 <= k < n && !prims[v[k] as int].hi(f)@[b].is_nan() ==> prims[v[k] as int].hi(
            f,
        )@[b].at_most(all_hi(f, prims, v, n)@[b]),
    decreases n,
{
    if n > 0 {
        lemma_all_boxes(f, prims, v, n - 1, k, b);
    }
}

/// Every node of a tree is the root of a tree over its own positions.
proof fn lemma_tree_under(
    m: Measuring,
    nodes: Seq<BvhNode>,
    order: Seq<usize>,
    r: int,
    s: int,
    e: int,
    i: int,
)
    requires
        is_tree(m, nodes, order, r, s, e),
        is_under(nodes, r, i),
    ensures
        is_tree(m, nodes, order, i, start_of(nodes, i), end_of(nodes, i)),
    decreases nodes.len() - r,
{
    lemma_tree_is_subtree(m, nodes, order, r, s, e);
    if i != r {
        let mid = end_of(nodes, nodes[r].a as int);
        if is_under(nodes, nodes[r].a as int, i) {
            lemma_tree_under(m, nodes, order, nodes[r].a as int, s, mid, i);
        } else {
            lemma_tree_under(m, nodes, order, nodes[r].b as int, mid, e, i);
        }
    }
}

/// The box of a node holds the triangles under it.
proof fn lemma_node_holds(f: Calc, prims: Seq<PackedTri>, bvh: Bvh, i: int, k: int)
    requires
        bvh.is_built(measuring(f, prims)),
        is_under(bvh.nodes@, 0, i),
        start_of(bvh.nodes@, i) <= k < end_of(bvh.nodes@, i),
        exact_corners(f, prims[bvh.order@[k] as int]),
        forall|b: int| 0 <= b < 3 ==> (#[trigger] bvh.nodes@[i].bmin@[b]).is_finite(),
        forall|b: int| 0 <= b < 3 ==> (#[trigger] bvh.nodes@[i].bmax@[b]).is_finite(),
    ensures
        is_box_within(
            prims[bvh.order@[k] as int].lo(f),
            prims[bvh.order@[k] as int].hi(f),
            bvh.nodes@[i].bmin,
            bvh.nodes@[i].bmax,
        ),
{
    let (nodes, order) = (bvh.nodes@, bvh.order@);
    let m = measuring(f, prims);
    let (s, e) = (start_of(nodes, i), end_of(nodes, i));
    lemma_tree_under(m, nodes, order, 0, 0, order.len() as int, i);
    let own = order.subrange(s, e);
    let measure = choose|q: NodeMeasure| #[trigger]
        is_measured(m, own, q) && nodes[i].bmin == q.bmin && nodes[i].bmax == q.bmax;
    let v = choose|v: Seq<usize>|
        v.to_multiset() == own.to_multiset() && #[trigger] m((v, measure));
    assert(is_measure(f, prims, v, measure));
    assert(own[k - s] == order[k]);
    assert(v.contains(order[k])) by {
        own.to_multiset_ensures();
        v.to_multiset_ensures();
        assert(own.contains(order[k]));
        assert(own.to_multiset().count(order[k]) > 0);
        assert(v.to_multiset().count(order[k]) > 0);
    }
    let j = choose|j: int| 0 <= j < v.len() && v[j] == order[k];
    let tri = prims[order[k] as int];
    assert forall|b: int| 0 <= b < 3 implies value(nodes[i].bmin@[b]) <= value(
        #[trigger] tri.lo(f)@[b],
    ) by {
        lemma_in_box(f, tri, 0real, 0real, b);
        lemma_all_boxes(f, prims, v, v.len() as int, j, b);
        lemma_order(nodes[i].bmin@[b], tri.lo(f)@[b]);
    }
    assert forall|b: int| 0 <= b < 3 implies value(#[trigger] tri.hi(f)@[b]) <= value(
        nodes[i].bmax@[b],
    ) by {
        lemma_in_box(f, tri, 0real, 0real, b);
        lemma_all_boxes(f, prims, v, v.len() as int, j, b);
        lemma_order(tri.hi(f)@[b], nodes[i].bmax@[b]);
    }
}

/// Every operation behind a ray's hits and the boxes it enters is exact, and the
/// triangles it hits are hit within their edges.
pub open spec fn is_cast_exactly(f: Calc, prims: Seq<PackedTri>, bvh: Bvh, l: Line) -> bool {
    &&& forall|k: int|
        0 <= k < bvh.order@.len() ==> (#[trigger] prims[bvh.order@[k] as int].hit(f, l) matches Some(t)
            ==> {
            &&& exact_hit(f, prims[bvh.order@[k] as int], l)
            &&& exact_corners(f, prims[bvh.order@[k] as int])
            &&& is_inside(f, prims[bvh.order@[k] as int], l)
        })
    &&& forall|i: int|
        0 <= i < bvh.nodes@.len() ==> exact_entry(
            f,
            (#[trigger] bvh.nodes@[i]).bmin,
            bvh.nodes@[i].bmax,
            l,
        )
}

/// Under a node, no hit nearer than a limit is hidden by the node's box.
proof fn lemma_node_is_entered(
    f: Calc,
    prims: Seq<PackedTri>,
    bvh: Bvh,
    o: Point,
    d: Point,
    i: int,
    k: int,
    limit: Single,
    t: Single,
)
    requires
        bvh.is_built(measuring(f, prims)),
        is_cast_exactly(f, prims, bvh, Line::from(f, o, d)),
        0 <= i < bvh.nodes@.len(),
        is_under(bvh.nodes@, 0, i),
        start_of(bvh.nodes@, i) <= k < end_of(bvh.nodes@, i),
        prims[bvh.order@[k] as int].hit(f, Line::from(f, o, d)) == Some(t),
        t.below(limit),
    ensures
        box_entry(f, bvh.nodes@[i].bmin, bvh.nodes@[i].bmax, Line::from(f, o, d), limit) matches Some(e)
            && e.at_most(t),
{
    let l = Line::from(f, o, d);
    lemma_tree_under(
        measuring(f, prims),
        bvh.nodes@,
        bvh.order@,
        0,
        0,
        bvh.order@.len() as int,
        i,
    );
    assert(exact_entry(f, bvh.nodes@[i].bmin, bvh.nodes@[i].bmax, l));
    lemma_node_holds(f, prims, bvh, i, k);
    no_box_hides_a_hit(
        f,
        bvh.nodes@[i].bmin,
        bvh.nodes@[i].bmax,
        prims[bvh.order@[k] as int],
        o,
        d,
        limit,
        t,
    );
}

/// The nearest hit of all is found: in exact arithmetic the walk through a built
/// tree loses no hit, but at the largest distance of all.
pub proof fn no_hit_is_lost(bvh: Bvh, f: Calc, prims: Seq<PackedTri>, o: Point, d: Point)
    requires
        bvh.is_built(measuring(f, prims)),
        bvh.is_walkable(),
        is_cast_exactly(f, prims, bvh, Line::from(f, o, d)),
        forall|k: int|
            0 <= k < bvh.order@.len() ==> (#[trigger] prims[bvh.order@[k] as int].hit(
                f,
                Line::from(f, o, d),
            ) != Some(Single(LARGEST))),
    ensures
        is_nearest(
            bvh.order@,
            hitting(f, prims, Line::from(f, o, d)),
            bvh.nearest(f, prims, Line::from(f, o, d)),
        ),
{
    let l = Line::from(f, o, d);
    let (nodes, order) = (bvh.nodes@, bvh.order@);
    let ef = entering(f, nodes, l);
    let hf = hitting(f, prims, l);
    assert forall|k: int| 0 <= k < order.len() implies (#[trigger] hf(order[k]) matches Some(t)
        ==> Single(0).at_most(t) && t.below(Single(LARGEST))) by {
        if let Some(t) = prims[order[k] as int].hit(f, l) {
            lemma_hit(f, prims[order[k] as int], l, t);
            lemma_one();
            lemma_order(Single(0), t);
            assert(Single(0).num() == 0);
            if t.0 < LARGEST {
                lemma_grid_increases(t.magnitude(), LARGEST as nat);
            } else {
                lemma_no_larger(t);
            }
        }
    }
    assert forall|i: u32, limit: Single, k: int|
        is_under(nodes, 0, i as int) && start_of(nodes, i as int) <= k < end_of(nodes, i as int) && (
        #[trigger] hf(order[k]) matches Some(t) && t.below(limit)) implies (#[trigger] ef((i, limit))
        matches Some(e) && e.at_most(hf(order[k])->0)) by {
        lemma_under_is_node(nodes, 0, i as int);
        lemma_node_is_entered(f, prims, bvh, o, d, i as int, k, limit, hf(order[k])->0);
    }
    the_nearest_hit_is_found(bvh, f, prims, l);
}

proof fn lemma_under_is_node(nodes: Seq<BvhNode>, r: int, i: int)
    requires
        is_under(nodes, r, i),
    ensures
        0 <= i < nodes.len(),
    decreases nodes.len() - r,
{
    if i != r {
        if is_under(nodes, nodes[r].a as int, i) {
            lemma_under_is_node(nodes, nodes[r].a as int, i);
        } else {
            lemma_under_is_node(nodes, nodes[r].b as int, i);
        }
    }
}

proof fn lemma_no_larger(t: Single)
    requires
        t.is_finite(),
        value(t) > 0real,
    ensures
        t.0 <= LARGEST,
{
    lemma_one();
    lemma_order(Single(0), t);
    assert(Single(0).num() == 0);
}

/// A ray meets the nearest of a mesh's patches: in exact arithmetic nothing that it
/// hits is nearer than what it is said to meet, and where it hits something, it
/// meets something.
pub proof fn a_ray_meets_the_nearest_patch(mesh: Mesh, f: Calc, o: Point, d: Point, p: usize)
    requires
        mesh.wf(),
        mesh.is_made(f),
        is_cast_exactly(f, mesh.prims@, mesh.bvh, Line::from(f, o, d)),
        forall|k: int|
            0 <= k < mesh.bvh.order@.len() ==> (#[trigger] mesh.prims@[mesh.bvh.order@[k] as int].hit(
                f,
                Line::from(f, o, d),
            ) != Some(Single(LARGEST))),
        p < mesh.prims@.len(),
    ensures
        mesh.prims@[p as int].hit(f, Line::from(f, o, d)) matches Some(t) ==> (mesh.cast(f, o, d)
            matches Some(h) && h.0.at_most(t)),
{
    no_hit_is_lost(mesh.bvh, f, mesh.prims@, o, d);
    let hf = hitting(f, mesh.prims@, Line::from(f, o, d));
    assert(mesh.bvh.order@.contains(p));
    let k = choose|k: int| 0 <= k < mesh.bvh.order@.len() && mesh.bvh.order@[k] == p;
    assert(hf(mesh.bvh.order@[k]) == mesh.prims@[p as int].hit(f, Line::from(f, o, d)));
}

/// Every crossing of a segment is found: in exact arithmetic the walk through a
/// built tree gives the crossings of all triangles, each as often as it is one.
pub proof fn no_crossing_is_lost(
    bvh: Bvh,
    f: Calc,
    prims: Seq<PackedTri>,
    o: Point,
    d: Point,
    len: Single,
)
    requires
        bvh.is_built(measuring(f, prims)),
        bvh.is_walkable(),
        bvh.nodes@.len() <= u32::MAX,
        is_cast_exactly(f, prims, bvh, Line::from(f, o, d)),
        len.is_finite(),
        value(len) > 0real,
        forall|k: int|
            0 <= k < bvh.order@.len() ==> (#[trigger] prims[bvh.order@[k] as int].hit(
                f,
                Line::from(f, o, d),
            ) matches Some(t) ==> is_exact(f, Op::Over(t, len))),
    ensures
        bvh.crossings_of(f, prims, Line::from(f, o, d), len).to_multiset() == crossed_at(
            bvh.order@,
            sharing(f, prims, Line::from(f, o, d), len),
            0,
            bvh.order@.len() as int,
        ).to_multiset(),
{
    let l = Line::from(f, o, d);
    let (nodes, order) = (bvh.nodes@, bvh.order@);
    let mf = meeting(f, nodes, l, len);
    let sf = sharing(f, prims, l, len);
    assert forall|i: u32, k: int|
        is_under(nodes, 0, i as int) && start_of(nodes, i as int) <= k < end_of(nodes, i as int) && (
        #[trigger] crossing_at(order, sf, k)) is Some implies #[trigger] mf(i) by {
        lemma_under_is_node(nodes, 0, i as int);
        lemma_tree_under(measuring(f, prims), nodes, order, 0, 0, order.len() as int, i as int);
        let tri = prims[order[k] as int];
        let t = tri.hit(f, l)->0;
        let share = quot(f, t, len);
        assert(sf(order[k]) == Some(share));
        lemma_hit(f, tri, l, t);
        lemma_one();
        lemma_grid_increases(FAR_END as nat, ONE as nat);
        lemma_order(Single(FAR_END), Single(ONE));
        lemma_order(share, Single(FAR_END));
        let (x, y, z) = (value(t), value(len), value(share));
        assert(x < y) by (nonlinear_arith)
            requires
                z * y == x,
                z < 1real,
                y > 0real,
        ;
        lemma_order(t, len);
        lemma_node_is_entered(f, prims, bvh, o, d, i as int, k, len, t);
    }
    every_crossing_is_found(bvh, f, prims, l, len);
}

} // verus!
