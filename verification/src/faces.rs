//! What faces and edges are measured by: a normal stands square on its face, a surface
//! holds its triangle, an edge counts by its length and how sharp it is, and the corridor
//! by how far it lies off the straight line.

use crate::arith::{prod, quot, sum, Calc, Op};
use crate::exact::{
    inner, is_exact_as, lemma_is, lemma_one, outer, value, vector_as, Reading, Vector,
};
use crate::geom::{along, cross, dot, norm, vdiff};
use crate::mesh::{
    angle_between, edge_of, face_normal, middle, DiffractionEdge, EdgeUse, MeshParts, Point, DEGREES,
    HALF_TURN,
};
use crate::params::{HALF, ONE};
use crate::paths::{corridor_of, edge_middle, P_0_5, P_1E_MINUS_6};
use crate::pt_mesh::spanned;
use crate::rays::{apart, exact_along, exact_inner, lemma_along, moved};
use crate::scene::MINUS_ONE;
use crate::single::Single;
use crate::through::height;
use vstd::arithmetic::power2::lemma2_to64;
use vstd::prelude::*;

verus! {

/// One vector less another is exact, as read.
pub open spec fn exact_apart(val: Reading, f: Calc, a: Point, b: Point) -> bool {
    forall|i: int| 0 <= i < 3 ==> is_exact_as(val, f, Op::Minus(#[trigger] a@[i], b@[i]))
}

proof fn lemma_apart(val: Reading, f: Calc, a: Point, b: Point)
    requires
        exact_apart(val, f, a, b),
    ensures
        vector_as(val, vdiff(f, a, b)) == apart(vector_as(val, a), vector_as(val, b)),
{
    assert(is_exact_as(val, f, Op::Minus(a@[0], b@[0])));
    assert(is_exact_as(val, f, Op::Minus(a@[1], b@[1])));
    assert(is_exact_as(val, f, Op::Minus(a@[2], b@[2])));
}

/// `a * b - c * d` is exact, as read.
pub open spec fn exact_pair_of(val: Reading, f: Calc, a: Single, b: Single, c: Single, d: Single) -> bool {
    &&& is_exact_as(val, f, Op::Times(a, b))
    &&& is_exact_as(val, f, Op::Times(c, d))
    &&& is_exact_as(val, f, Op::Minus(prod(f, a, b), prod(f, c, d)))
}

/// Every operation behind the normal of a triangle is exact, as read.
pub open spec fn exact_face(val: Reading, f: Calc, a: Point, b: Point, c: Point) -> bool {
    let (u, v) = (vdiff(f, b, a), vdiff(f, c, a));
    let n = cross(f, u, v);
    let k = quot(f, Single(ONE), norm(f, n));
    &&& val(Single(ONE)) == value(Single(ONE))
    &&& exact_apart(val, f, b, a)
    &&& exact_apart(val, f, c, a)
    &&& exact_pair_of(val, f, u@[1], v@[2], u@[2], v@[1])
    &&& exact_pair_of(val, f, u@[2], v@[0], u@[0], v@[2])
    &&& exact_pair_of(val, f, u@[0], v@[1], u@[1], v@[0])
    &&& exact_inner(val, f, n, n)
    &&& is_exact_as(val, f, Op::Root(dot(f, n, n)))
    &&& is_exact_as(val, f, Op::Over(Single(ONE), norm(f, n)))
    &&& forall|i: int| 0 <= i < 3 ==> is_exact_as(val, f, Op::Times(#[trigger] n@[i], k))
}

proof fn lemma_square_on(u: Vector, v: Vector)
    ensures
        inner(outer(u, v), u) == 0real,
        inner(outer(u, v), v) == 0real,
{
    let (a, b, c) = (u.0, u.1, u.2);
    let (x, y, z) = (v.0, v.1, v.2);
    lemma_less_times(b * z, c * y, a);
    lemma_less_times(c * x, a * z, b);
    lemma_less_times(a * y, b * x, c);
    lemma_swapped(b, z, a);
    lemma_swapped(c, y, a);
    lemma_swapped(c, x, b);
    lemma_less_times(b * z, c * y, x);
    lemma_less_times(c * x, a * z, y);
    lemma_less_times(a * y, b * x, z);
    lemma_last_swapped(b, z, x);
    lemma_last_swapped(c, y, x);
    lemma_last_swapped(a, z, y);
}

proof fn lemma_less_times(p: real, q: real, k: real)
    ensures
        (p - q) * k == p * k - q * k,
{
    assert((p - q) * k == p * k - q * k) by (nonlinear_arith);
}

proof fn lemma_turned_round(p: real, q: real)
    ensures
        p * q == q * p,
{
    assert(p * q == q * p) by (nonlinear_arith);
}

proof fn lemma_swapped(p: real, q: real, k: real)
    ensures
        (p * q) * k == (k * q) * p,
{
    assert((p * q) * k == (k * q) * p) by (nonlinear_arith);
}

proof fn lemma_last_swapped(p: real, q: real, k: real)
    ensures
        (p * q) * k == (p * k) * q,
{
    assert((p * q) * k == (p * k) * q) by (nonlinear_arith);
}

proof fn lemma_scaled_inner(n: Vector, u: Vector, k: real)
    ensures
        inner((n.0 * k, n.1 * k, n.2 * k), u) == k * inner(n, u),
{
    assert((n.0 * k) * u.0 == k * (n.0 * u.0)) by (nonlinear_arith);
    assert((n.1 * k) * u.1 == k * (n.1 * u.1)) by (nonlinear_arith);
    assert((n.2 * k) * u.2 == k * (n.2 * u.2)) by (nonlinear_arith);
    let (x, y, z) = (n.0 * u.0, n.1 * u.1, n.2 * u.2);
    assert(k * (x + y + z) == k * x + k * y + k * z) by (nonlinear_arith);
}

/// In exact arithmetic the normal of a triangle stands square on both its sides, has
/// length one, and points where the corners turn the way the right hand does.
pub proof fn a_normal_stands_square_on_its_face(val: Reading, f: Calc, a: Point, b: Point, c: Point)
    requires
        exact_face(val, f, a, b, c),
    ensures
        ({
            let n = vector_as(val, face_normal(f, a, b, c));
            let (p, q, r) = (vector_as(val, a), vector_as(val, b), vector_as(val, c));
            &&& inner(n, apart(q, p)) == 0real
            &&& inner(n, apart(r, p)) == 0real
            &&& inner(n, n) == 1real
            &&& inner(n, outer(apart(q, p), apart(r, p))) > 0real
        }),
{
    lemma_one();
    let (du, dv) = (vdiff(f, b, a), vdiff(f, c, a));
    lemma_apart(val, f, b, a);
    lemma_apart(val, f, c, a);
    let (u, v) = (vector_as(val, du), vector_as(val, dv));
    let x = cross(f, du, dv);
    let w = vector_as(val, x);
    assert(w == outer(u, v));
    let l = norm(f, x);
    let k = quot(f, Single(ONE), l);
    assert(is_exact_as(val, f, Op::Times(x@[0], k)));
    assert(is_exact_as(val, f, Op::Times(x@[1], k)));
    assert(is_exact_as(val, f, Op::Times(x@[2], k)));
    let (kv, lv) = (val(k), val(l));
    let n = vector_as(val, face_normal(f, a, b, c));
    assert(n == (w.0 * kv, w.1 * kv, w.2 * kv));
    lemma_square_on(u, v);
    lemma_scaled_inner(w, u, kv);
    lemma_scaled_inner(w, v, kv);
    assert(kv * 0real == 0real);
    lemma_scaled_inner(w, w, kv);
    lemma_scaled_inner(w, n, kv);
    assert(kv * lv == 1real && lv * lv == inner(w, w) && lv >= 0real);
    assert(inner(w, n) == inner(n, w)) by {
        lemma_turned_round(w.0, n.0);
        lemma_turned_round(w.1, n.1);
        lemma_turned_round(w.2, n.2);
    }
    assert(kv * (kv * (lv * lv)) == 1real) by (nonlinear_arith)
        requires
            kv * lv == 1real,
    {
        assert(kv * (kv * (lv * lv)) == (kv * lv) * (kv * lv)) by (nonlinear_arith);
    }
    assert(kv * (lv * lv) == lv) by (nonlinear_arith)
        requires
            kv * lv == 1real,
    {
        assert(kv * (lv * lv) == (kv * lv) * lv) by (nonlinear_arith);
    }
    assert(lv != 0real);
}

proof fn lemma_on_plane(n: Vector, p: Vector, q: Vector)
    requires
        inner(n, apart(q, p)) == 0real,
    ensures
        inner(n, q) == inner(n, p),
{
    assert(n.0 * (q.0 - p.0) == n.0 * q.0 - n.0 * p.0) by (nonlinear_arith);
    assert(n.1 * (q.1 - p.1) == n.1 * q.1 - n.1 * p.1) by (nonlinear_arith);
    assert(n.2 * (q.2 - p.2) == n.2 * q.2 - n.2 * p.2) by (nonlinear_arith);
}

/// In exact arithmetic the surface that a triangle spans holds all three of its corners,
/// and takes and passes what its material does.
pub proof fn a_surface_holds_its_triangle(val: Reading, f: Calc, parts: MeshParts, t: int)
    requires
        0 <= t <= u32::MAX,
        ({
            let i = parts.indices@[t];
            let a = parts.positions@[i@[0] as int];
            let b = parts.positions@[i@[1] as int];
            let c = parts.positions@[i@[2] as int];
            &&& exact_face(val, f, a, b, c)
            &&& exact_inner(val, f, face_normal(f, a, b, c), a)
        }),
    ensures
        ({
            let s = spanned(f, parts, t);
            let i = parts.indices@[t];
            let m = parts.materials@[parts.tri_material@[t] as int];
            &&& inner(vector_as(val, s.n), vector_as(val, s.n)) == 1real
            &&& forall|k: int|
                0 <= k < 3 ==> height(
                    val,
                    s,
                    vector_as(val, parts.positions@[#[trigger] i@[k] as int]),
                ) == 0real
            &&& s.refl == m.reflecting(f)
            &&& s.trans == m.transmission
        }),
{
    let i = parts.indices@[t];
    let a = parts.positions@[i@[0] as int];
    let b = parts.positions@[i@[1] as int];
    let c = parts.positions@[i@[2] as int];
    let s = spanned(f, parts, t);
    assert((t as u32) as int == t);
    assert(s.n == face_normal(f, a, b, c));
    a_normal_stands_square_on_its_face(val, f, a, b, c);
    let n = vector_as(val, s.n);
    lemma_on_plane(n, vector_as(val, a), vector_as(val, b));
    lemma_on_plane(n, vector_as(val, a), vector_as(val, c));
    assert(val(s.d) == inner(n, vector_as(val, a)));
    assert forall|k: int| 0 <= k < 3 implies height(
        val,
        s,
        vector_as(val, parts.positions@[#[trigger] i@[k] as int]),
    ) == 0real by {
        assert(k == 0 || k == 1 || k == 2);
    }
}

/// In exact arithmetic, and with an arc cosine that is one, the angle of a crease is that
/// between its faces' normals, and the edge counts by its length and what that angle is
/// of a half turn; an edge of one face counts by its length alone.
pub proof fn an_edge_counts_by_its_length_and_its_angle(
    val: Reading,
    f: Calc,
    cosine: spec_fn(real) -> real,
    parts: MeshParts,
    min_dihedral: Single,
    u: EdgeUse,
)
    requires
        val(Single(ONE)) == value(Single(ONE)),
        val(Single(HALF_TURN)) == value(Single(HALF_TURN)),
        val(Single(DEGREES)) != 0real,
        ({
            let len = norm(f, vdiff(f, parts.positions@[u.j as int], parts.positions@[u.i as int]));
            &&& is_exact_as(val, f, Op::Times(len, Single(ONE)))
            &&& u.tris@.len() == 2 ==> {
                let (n, m) = (parts.normal(f, u.tris@[0]), parts.normal(f, u.tris@[1]));
                let c = dot(f, n, m);
                let deg = angle_between(f, parts, u.tris@[0], u.tris@[1]);
                &&& exact_inner(val, f, n, m)
                &&& !c.below(Single(MINUS_ONE)) && !Single(ONE).below(c)
                &&& cosine(val(f(Op::Acos(c)))) == val(c)
                &&& is_exact_as(val, f, Op::Times(f(Op::Acos(c)), Single(DEGREES)))
                &&& is_exact_as(val, f, Op::Over(deg, Single(HALF_TURN)))
                &&& is_exact_as(val, f, Op::Times(len, quot(f, deg, Single(HALF_TURN))))
            }
        }),
    ensures
        edge_of(f, parts, min_dihedral, u) matches Some(e) ==> {
            let len = norm(f, vdiff(f, e.b, e.a));
            &&& e.a == parts.positions@[u.i as int] && e.b == parts.positions@[u.j as int]
            &&& u.tris@.len() == 1 ==> val(e.importance) == val(len)
            &&& u.tris@.len() == 2 ==> {
                let deg = val(angle_between(f, parts, u.tris@[0], u.tris@[1]));
                let (n, m) = (
                    vector_as(val, parts.normal(f, u.tris@[0])),
                    vector_as(val, parts.normal(f, u.tris@[1])),
                );
                &&& val(e.importance) * 180real == val(len) * deg
                &&& cosine(deg / val(Single(DEGREES))) == inner(n, m)
            }
        },
{
    lemma_one();
    lemma2_to64();
    lemma_is(HALF_TURN, 134, 0x34_0000, 180real);
    if edge_of(f, parts, min_dihedral, u) is Some {
        let e = edge_of(f, parts, min_dihedral, u)->0;
        let l = val(norm(f, vdiff(f, e.b, e.a)));
        assert(l * 1real == l);
        if u.tris@.len() == 2 {
            let deg = angle_between(f, parts, u.tris@[0], u.tris@[1]);
            let q = val(quot(f, deg, Single(HALF_TURN)));
            assert((l * q) * 180real == l * (q * 180real)) by (nonlinear_arith);
            let c = dot(f, parts.normal(f, u.tris@[0]), parts.normal(f, u.tris@[1]));
            let (x, k) = (val(f(Op::Acos(c))), val(Single(DEGREES)));
            assert((x * k) / k == x) by (nonlinear_arith)
                requires
                    k != 0real,
            ;
        }
    }
}

/// In exact arithmetic the middle of two points is as far from one as from the other, on
/// the line between them.
pub proof fn a_middle_lies_between(val: Reading, f: Calc, a: Point, b: Point, i: int)
    requires
        0 <= i < 3,
        val(Single(HALF)) * 2real == 1real,
        is_exact_as(val, f, Op::Plus(a@[i], b@[i])),
        is_exact_as(val, f, Op::Times(sum(f, a@[i], b@[i]), Single(HALF))),
    ensures
        val(middle(f, a, b)@[i]) - val(a@[i]) == val(b@[i]) - val(middle(f, a, b)@[i]),
{
    let (x, h) = (val(a@[i]) + val(b@[i]), val(Single(HALF)));
    assert(middle(f, a, b)@[i] == prod(f, sum(f, a@[i], b@[i]), Single(HALF)));
    assert(2real * (x * h) == x) by (nonlinear_arith)
        requires
            h * 2real == 1real,
    ;
}

/// In exact arithmetic an edge stands in the corridor where its middle comes nearest to
/// the straight line, and scores its importance over half and the square of how far it
/// lies off there.
pub proof fn an_edge_scores_by_how_near_the_line_it_lies(
    val: Reading,
    f: Calc,
    e: DiffractionEdge,
    src: Point,
    lis: Point,
)
    requires
        ({
            let seg = vdiff(f, lis, src);
            let c = edge_middle(f, e);
            let to = vdiff(f, c, src);
            let (top, len2) = (dot(f, to, seg), dot(f, seg, seg));
            let t = quot(f, top, len2);
            let at = along(f, src, seg, t);
            let off = vdiff(f, c, at);
            let d2 = dot(f, off, off);
            &&& exact_apart(val, f, lis, src)
            &&& exact_apart(val, f, c, src)
            &&& exact_inner(val, f, to, seg)
            &&& exact_inner(val, f, seg, seg)
            &&& !len2.below(Single(P_1E_MINUS_6)) && !len2.is_nan()
            &&& is_exact_as(val, f, Op::Over(top, len2))
            &&& !t.below(Single(0)) && !Single(ONE).below(t)
            &&& exact_along(val, f, src, seg, t)
            &&& exact_apart(val, f, c, at)
            &&& exact_inner(val, f, off, off)
            &&& is_exact_as(val, f, Op::Plus(d2, Single(P_0_5)))
            &&& is_exact_as(val, f, Op::Over(e.importance, sum(f, d2, Single(P_0_5))))
        }),
    ensures
        ({
            let c = vector_as(val, edge_middle(f, e));
            let (s, l) = (vector_as(val, src), vector_as(val, lis));
            let k = corridor_of(f, e, src, lis);
            let off = apart(c, moved(s, apart(l, s), val(k.t)));
            &&& inner(off, apart(l, s)) == 0real
            &&& val(k.score) * (inner(off, off) + val(Single(P_0_5))) == val(e.importance)
        }),
{
    let seg = vdiff(f, lis, src);
    let c = edge_middle(f, e);
    let to = vdiff(f, c, src);
    let (top, len2) = (dot(f, to, seg), dot(f, seg, seg));
    let t = quot(f, top, len2);
    let at = along(f, src, seg, t);
    let off = vdiff(f, c, at);
    lemma_apart(val, f, lis, src);
    lemma_apart(val, f, c, src);
    lemma_along(val, f, src, seg, t);
    lemma_apart(val, f, c, at);
    let k = corridor_of(f, e, src, lis);
    assert(k.t == t);
    let (w, g, o) = (vector_as(val, to), vector_as(val, seg), vector_as(val, off));
    let tv = val(t);
    assert(tv * inner(g, g) == inner(w, g));
    assert(o.0 == w.0 - g.0 * tv && o.1 == w.1 - g.1 * tv && o.2 == w.2 - g.2 * tv);
    assert((w.0 - g.0 * tv) * g.0 == w.0 * g.0 - tv * (g.0 * g.0)) by (nonlinear_arith);
    assert((w.1 - g.1 * tv) * g.1 == w.1 * g.1 - tv * (g.1 * g.1)) by (nonlinear_arith);
    assert((w.2 - g.2 * tv) * g.2 == w.2 * g.2 - tv * (g.2 * g.2)) by (nonlinear_arith);
    let (x, y, z) = (g.0 * g.0, g.1 * g.1, g.2 * g.2);
    assert(tv * (x + y + z) == tv * x + tv * y + tv * z) by (nonlinear_arith);
    assert(inner(o, g) == 0real);
    let d2 = dot(f, off, off);
    assert(val(d2) == inner(o, o));
}

} // verus!
