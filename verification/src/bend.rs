//! Where the way over an edge is shortest: the length of the way is convex in the
//! share of the edge, so the search loses none of it but the width of its last
//! bracket.

use crate::arith::{prod, sum, Calc, Op};
use crate::exact::{
    exact_vdiff, exact_vscaled, inner, is_exact, lemma_one, lemma_scale, value, vector,
    Vector,
};
use crate::geom::{vdiff, vscaled};
use crate::mesh::Point;
use crate::paths::{bend, ruler, Golden, Ruler, P_0_5, ROUNDS};
use crate::single::Single;
use vstd::prelude::*;

verus! {

/// The point at a share of the way from one point to another.
pub open spec fn on_edge(a: Vector, b: Vector, t: real) -> Vector {
    (a.0 + t * (b.0 - a.0), a.1 + t * (b.1 - a.1), a.2 + t * (b.2 - a.2))
}

/// The way from one point to another.
pub open spec fn way(a: Vector, b: Vector) -> Vector {
    (b.0 - a.0, b.1 - a.1, b.2 - a.2)
}

/// A number is the length of a vector.
pub open spec fn is_length(l: real, v: Vector) -> bool {
    l >= 0real && l * l == inner(v, v)
}

/// A function gives how far the points of an edge are from a place.
pub open spec fn is_distance(a: Vector, b: Vector, place: Vector, far: spec_fn(real) -> real) -> bool {
    forall|t: real| is_length(#[trigger] far(t), way(place, on_edge(a, b, t)))
}

proof fn lemma_two_squares(a: real, b: real, c: real, d: real)
    ensures
        2real * ((a * c) * (b * d)) <= (a * a) * (d * d) + (b * b) * (c * c),
{
    let (x, y) = (a * d, b * c);
    assert((x - y) * (x - y) >= 0real) by (nonlinear_arith);
    assert((x - y) * (x - y) == x * x - 2real * (x * y) + y * y) by (nonlinear_arith);
    assert((a * d) * (b * c) == (a * c) * (b * d)) by (nonlinear_arith);
    assert((a * d) * (a * d) == (a * a) * (d * d)) by (nonlinear_arith);
    assert((b * c) * (b * c) == (b * b) * (c * c)) by (nonlinear_arith);
}

proof fn lemma_three_squared(p: real, q: real, r: real)
    ensures
        (p + q + r) * (p + q + r) == p * p + q * q + r * r + 2real * (p * q) + 2real * (q * r)
            + 2real * (p * r),
{
    let w = q + r;
    assert((p + w) * (p + w) == p * p + 2real * (p * w) + w * w) by (nonlinear_arith);
    assert(p * (q + r) == p * q + p * r) by (nonlinear_arith);
    assert((q + r) * (q + r) == q * q + 2real * (q * r) + r * r) by (nonlinear_arith);
}

proof fn lemma_three_by_three(p: real, q: real, r: real, x: real, y: real, z: real)
    ensures
        (p + q + r) * (x + y + z) == p * x + p * y + p * z + q * x + q * y + q * z + r * x + r * y + r
            * z,
{
    let w = x + y + z;
    assert((p + q + r) * w == p * w + q * w + r * w) by (nonlinear_arith);
    assert(p * (x + y + z) == p * x + p * y + p * z) by (nonlinear_arith);
    assert(q * (x + y + z) == q * x + q * y + q * z) by (nonlinear_arith);
    assert(r * (x + y + z) == r * x + r * y + r * z) by (nonlinear_arith);
}

/// The inner product is no larger than the product of the lengths.
proof fn lemma_inner_is_bounded(a: Vector, b: Vector, l: real, m: real)
    requires
        is_length(l, a),
        is_length(m, b),
    ensures
        inner(a, b) <= l * m,
{
    lemma_two_squares(a.0, a.1, b.0, b.1);
    lemma_two_squares(a.1, a.2, b.1, b.2);
    lemma_two_squares(a.0, a.2, b.0, b.2);
    lemma_three_squared(a.0 * b.0, a.1 * b.1, a.2 * b.2);
    lemma_three_by_three(
        a.0 * a.0,
        a.1 * a.1,
        a.2 * a.2,
        b.0 * b.0,
        b.1 * b.1,
        b.2 * b.2,
    );
    lemma_square_of(a.0, b.0);
    lemma_square_of(a.1, b.1);
    lemma_square_of(a.2, b.2);
    let (x, y) = (inner(a, b), l * m);
    assert((l * m) * (l * m) == (l * l) * (m * m)) by (nonlinear_arith);
    lemma_no_sign(l, m);
    lemma_no_larger(x, y);
}

proof fn lemma_no_sign(x: real, y: real)
    requires
        x >= 0real,
        y >= 0real,
    ensures
        x * y >= 0real,
{
    assert(x * y >= 0real) by (nonlinear_arith)
        requires
            x >= 0real,
            y >= 0real,
    ;
}

/// Of two numbers, the one with the larger square is the larger, where it has no
/// sign.
proof fn lemma_no_larger(x: real, y: real)
    requires
        x * x <= y * y,
        y >= 0real,
    ensures
        x <= y,
{
    if x > y {
        assert(x * x > y * y) by (nonlinear_arith)
            requires
                x > y,
                y >= 0real,
        ;
    }
}

proof fn lemma_square_of(a: real, b: real)
    ensures
        (a * b) * (a * b) == (a * a) * (b * b),
{
    assert((a * b) * (a * b) == (a * a) * (b * b)) by (nonlinear_arith);
}

/// Two vectors, weighed and added up.
spec fn weighed(a: Vector, b: Vector, p: real, q: real) -> Vector {
    (p * a.0 + q * b.0, p * a.1 + q * b.1, p * a.2 + q * b.2)
}

proof fn lemma_weighed_square(x: real, y: real, p: real, q: real)
    ensures
        (p * x + q * y) * (p * x + q * y) == (p * p) * (x * x) + (2real * (p * q)) * (x * y) + (q * q)
            * (y * y),
{
    let (a, b) = (p * x, q * y);
    assert((a + b) * (a + b) == a * a + 2real * (a * b) + b * b) by (nonlinear_arith);
    assert((p * x) * (p * x) == (p * p) * (x * x)) by (nonlinear_arith);
    assert((q * y) * (q * y) == (q * q) * (y * y)) by (nonlinear_arith);
    assert(2real * ((p * x) * (q * y)) == (2real * (p * q)) * (x * y)) by (nonlinear_arith);
}

/// A weighed sum is no longer than the weighed sum of the lengths.
proof fn lemma_triangle(a: Vector, b: Vector, p: real, q: real, l: real, m: real, n: real)
    requires
        p >= 0real,
        q >= 0real,
        is_length(l, a),
        is_length(m, b),
        is_length(n, weighed(a, b, p, q)),
    ensures
        n <= p * l + q * m,
{
    lemma_inner_is_bounded(a, b, l, m);
    lemma_weighed_square(a.0, b.0, p, q);
    lemma_weighed_square(a.1, b.1, p, q);
    lemma_weighed_square(a.2, b.2, p, q);
    lemma_weighed_square(l, m, p, q);
    let (pp, qq, pq) = (p * p, q * q, 2real * (p * q));
    lemma_sum_times(pp, a.0 * a.0, a.1 * a.1, a.2 * a.2);
    lemma_sum_times(qq, b.0 * b.0, b.1 * b.1, b.2 * b.2);
    lemma_sum_times(pq, a.0 * b.0, a.1 * b.1, a.2 * b.2);
    let (x, y) = (inner(a, b), l * m);
    lemma_no_sign(p, q);
    lemma_no_sign(p, l);
    lemma_no_sign(q, m);
    assert(pq * x <= pq * y) by (nonlinear_arith)
        requires
            pq >= 0real,
            x <= y,
    ;
    lemma_no_larger(n, p * l + q * m);
}

proof fn lemma_sum_times(k: real, x: real, y: real, z: real)
    ensures
        k * x + k * y + k * z == k * (x + y + z),
{
    assert(k * x + k * y + k * z == k * (x + y + z)) by (nonlinear_arith);
}

proof fn lemma_one_axis(a: real, c: real, s: real, r: real, t: real, p: real, q: real)
    requires
        p + q == 1real,
        s == p * r + q * t,
    ensures
        (a + s * c) == p * (a + r * c) + q * (a + t * c),
{
    let (x, y) = (p * r, q * t);
    assert((x + y) * c == x * c + y * c) by (nonlinear_arith);
    assert((p * r) * c == p * (r * c)) by (nonlinear_arith);
    assert((q * t) * c == q * (t * c)) by (nonlinear_arith);
    let (u, v) = (r * c, t * c);
    assert(p * (a + u) == p * a + p * u) by (nonlinear_arith);
    assert(q * (a + v) == q * a + q * v) by (nonlinear_arith);
    assert((p + q) * a == p * a + q * a) by (nonlinear_arith);
}

/// The distance to a place is convex in the share of the edge.
proof fn lemma_convex(
    a: Vector,
    b: Vector,
    place: Vector,
    far: spec_fn(real) -> real,
    r: real,
    t: real,
    p: real,
    q: real,
)
    requires
        is_distance(a, b, place, far),
        p >= 0real,
        q >= 0real,
        p + q == 1real,
    ensures
        far(p * r + q * t) <= p * far(r) + q * far(t),
{
    let s = p * r + q * t;
    let c = way(a, b);
    lemma_one_axis(a.0 - place.0, c.0, s, r, t, p, q);
    lemma_one_axis(a.1 - place.1, c.1, s, r, t, p, q);
    lemma_one_axis(a.2 - place.2, c.2, s, r, t, p, q);
    let (u, v) = (way(place, on_edge(a, b, r)), way(place, on_edge(a, b, t)));
    assert(way(place, on_edge(a, b, s)) == weighed(u, v, p, q));
    assert(is_length(far(r), u) && is_length(far(t), v));
    assert(is_length(far(s), way(place, on_edge(a, b, s))));
    lemma_triangle(u, v, p, q, far(r), far(t), far(s));
}

/// The distance to a place changes by no more than what is gone along the edge.
proof fn lemma_gradual(
    a: Vector,
    b: Vector,
    place: Vector,
    far: spec_fn(real) -> real,
    span: real,
    s: real,
    t: real,
    step: real,
)
    requires
        is_distance(a, b, place, far),
        is_length(span, way(a, b)),
        step >= 0real,
        step == s - t || step == t - s,
    ensures
        far(s) <= far(t) + step * span,
{
    let c = way(a, b);
    let v = way(place, on_edge(a, b, t));
    let w = if step == s - t {
        c
    } else {
        (-c.0, -c.1, -c.2)
    };
    assert((-c.0) * (-c.0) == c.0 * c.0 && (-c.1) * (-c.1) == c.1 * c.1 && (-c.2) * (-c.2) == c.2
        * c.2) by (nonlinear_arith);
    assert(is_length(span, w));
    lemma_further(a.0 - place.0, c.0, s, t, step, w.0);
    lemma_further(a.1 - place.1, c.1, s, t, step, w.1);
    lemma_further(a.2 - place.2, c.2, s, t, step, w.2);
    assert(way(place, on_edge(a, b, s)) == weighed(v, w, 1real, step));
    assert(is_length(far(t), v));
    assert(is_length(far(s), way(place, on_edge(a, b, s))));
    lemma_triangle(v, w, 1real, step, far(t), span, far(s));
}

proof fn lemma_further(a: real, c: real, s: real, t: real, step: real, w: real)
    requires
        (step == s - t && w == c) || (step == t - s && w == -c),
    ensures
        a + s * c == 1real * (a + t * c) + step * w,
{
    assert((s - t) * c == s * c - t * c) by (nonlinear_arith);
    assert((t - s) * (-c) == s * c - t * c) by (nonlinear_arith);
}

/// The edge, the two ends of the way, and how far the points of the edge are from
/// them.
pub ghost struct Crossing {
    pub a: Vector,
    pub b: Vector,
    pub src: Vector,
    pub lis: Vector,
    pub to_src: spec_fn(real) -> real,
    pub to_lis: spec_fn(real) -> real,
}

impl Crossing {
    pub open spec fn is_true(self) -> bool {
        &&& is_distance(self.a, self.b, self.src, self.to_src)
        &&& is_distance(self.a, self.b, self.lis, self.to_lis)
    }

    /// How long the way over the point at a share of the edge is.
    pub open spec fn length(self, t: real) -> real {
        (self.to_src)(t) + (self.to_lis)(t)
    }
}

/// Behind a dearer point, away from a cheaper one, all points are dearer still.
proof fn lemma_cut(c: Crossing, x: real, y: real, z: real)
    requires
        c.is_true(),
        x < y < z,
    ensures
        c.length(x) <= c.length(y) ==> c.length(y) <= c.length(z),
        c.length(z) <= c.length(y) ==> c.length(y) <= c.length(x),
{
    let (g, h, w) = (z - y, y - x, z - x);
    let (p, q) = (g / w, h / w);
    lemma_share_of(g, w);
    lemma_share_of(h, w);
    assert(p + q == 1real) by (nonlinear_arith)
        requires
            p * w == g,
            q * w == h,
            g + h == w,
            w > 0real,
    ;
    assert(q * (z - x) == q * z - q * x) by (nonlinear_arith);
    assert((p + q) * x == p * x + q * x) by (nonlinear_arith);
    assert(p * x + q * z == y);
    lemma_convex(c.a, c.b, c.src, c.to_src, x, z, p, q);
    lemma_convex(c.a, c.b, c.lis, c.to_lis, x, z, p, q);
    let (i, j) = ((c.to_src)(x), (c.to_lis)(x));
    let (k, l) = ((c.to_src)(z), (c.to_lis)(z));
    assert(p * (i + j) == p * i + p * j) by (nonlinear_arith);
    assert(q * (k + l) == q * k + q * l) by (nonlinear_arith);
    lemma_weighs(c.length(x), c.length(y), c.length(z), p, q);
}

proof fn lemma_share_of(g: real, w: real)
    requires
        0real < g < w,
    ensures
        (g / w) * w == g,
        g / w > 0real,
{
    assert((g / w) * w == g) by (nonlinear_arith)
        requires
            w > 0real,
    ;
    let p = g / w;
    assert(p > 0real) by (nonlinear_arith)
        requires
            p * w == g,
            g > 0real,
            w > 0real,
    ;
}

proof fn lemma_weighs(x: real, y: real, z: real, p: real, q: real)
    requires
        p > 0real,
        q > 0real,
        p + q == 1real,
        y <= p * x + q * z,
    ensures
        x <= y ==> y <= z,
        z <= y ==> y <= x,
{
    assert((p + q) * y == p * y + q * y) by (nonlinear_arith);
    if x <= y {
        assert(p * x <= p * y) by (nonlinear_arith)
            requires
                p > 0real,
                x <= y,
        ;
        assert(y <= z) by (nonlinear_arith)
            requires
                q > 0real,
                q * y <= q * z,
        ;
    }
    if z <= y {
        assert(q * z <= q * y) by (nonlinear_arith)
            requires
                q > 0real,
                z <= y,
        ;
        assert(y <= x) by (nonlinear_arith)
            requires
                p > 0real,
                p * y <= p * x,
        ;
    }
}

/// A bracket is kept in order, and its two inner points are told apart rightly:
/// the one over which the way is shorter is the cheaper one.
pub open spec fn is_judged(c: Crossing, g: Golden) -> bool {
    &&& value(g.lo) <= value(g.m1) < value(g.m2) <= value(g.hi)
    &&& g.c1.at_most(g.c2) <==> c.length(value(g.m1)) <= c.length(value(g.m2))
}

/// For every point of the edge the bracket holds one that is no dearer.
proof fn lemma_bracket(c: Crossing, r: Ruler, n: int, t: real) -> (k: real)
    requires
        c.is_true(),
        0 <= n,
        forall|i: int| 0 <= i < n ==> is_judged(c, #[trigger] Golden::after(r, i)),
        0real <= t <= 1real,
    ensures
        value(Golden::after(r, n).lo) <= k <= value(Golden::after(r, n).hi),
        c.length(k) <= c.length(t),
    decreases n,
{
    lemma_one();
    if n == 0 {
        t
    } else {
        let j = lemma_bracket(c, r, n - 1, t);
        let g = Golden::after(r, n - 1);
        assert(is_judged(c, g));
        let (x, y) = (value(g.m1), value(g.m2));
        if g.c1.at_most(g.c2) {
            if j > y {
                lemma_cut(c, x, y, j);
                y
            } else {
                j
            }
        } else {
            if j < x {
                lemma_cut(c, j, x, y);
                x
            } else {
                j
            }
        }
    }
}

/// Taking the middle of the last bracket, and the point of the edge there, is
/// exact.
pub open spec fn exact_middle(f: Calc, a: Point, b: Point, g: Golden) -> bool {
    let both = sum(f, g.lo, g.hi);
    let t = prod(f, Single(P_0_5), both);
    let v = vscaled(f, vdiff(f, b, a), t);
    &&& is_exact(f, Op::Plus(g.lo, g.hi))
    &&& is_exact(f, Op::Times(Single(P_0_5), both))
    &&& exact_vdiff(f, b, a)
    &&& exact_vscaled(f, vdiff(f, b, a), t)
    &&& is_exact(f, Op::Plus(a@[0], v@[0]))
    &&& is_exact(f, Op::Plus(a@[1], v@[1]))
    &&& is_exact(f, Op::Plus(a@[2], v@[2]))
}

/// The way bends where it is shortest: where the host keeps every bracket in
/// order, tells its inner points apart rightly and takes the middle exactly, no
/// point of the edge gives a shorter way than the one returned, by more than the
/// length of the last bracket.
pub proof fn the_way_bends_where_it_is_shortest(
    f: Calc,
    a: Point,
    b: Point,
    src: Point,
    lis: Point,
    c: Crossing,
    span: real,
    t: real,
)
    requires
        c.a == vector(a),
        c.b == vector(b),
        c.src == vector(src),
        c.lis == vector(lis),
        c.is_true(),
        is_length(span, way(vector(a), vector(b))),
        forall|n: int|
            0 <= n < ROUNDS ==> is_judged(
                c,
                #[trigger] Golden::after(ruler(f, a, b, src, lis), n),
            ),
        exact_middle(f, a, b, Golden::after(ruler(f, a, b, src, lis), ROUNDS as int)),
        0real <= t <= 1real,
    ensures
        ({
            let g = Golden::after(ruler(f, a, b, src, lis), ROUNDS as int);
            let s = (value(g.lo) + value(g.hi)) / 2real;
            &&& vector(bend(f, a, b, src, lis)) == on_edge(vector(a), vector(b), s)
            &&& c.length(s) <= c.length(t) + (value(g.hi) - value(g.lo)) * span
        }),
{
    let r = ruler(f, a, b, src, lis);
    let g = Golden::after(r, ROUNDS as int);
    let (lo, hi) = (value(g.lo), value(g.hi));
    let s = (lo + hi) / 2real;
    lemma_scale(P_0_5, 126, 0);
    let h = value(Single(P_0_5));
    assert(h * (lo + hi) == s) by (nonlinear_arith)
        requires
            2real * h == 1real,
            s == (lo + hi) / 2real,
    ;
    let w = vector(vdiff(f, b, a));
    assert(w.0 * s == s * w.0 && w.1 * s == s * w.1 && w.2 * s == s * w.2) by (nonlinear_arith);
    let k = lemma_bracket(c, r, ROUNDS as int, t);
    let step = if k <= s {
        s - k
    } else {
        k - s
    };
    lemma_gradual(c.a, c.b, c.src, c.to_src, span, s, k, step);
    lemma_gradual(c.a, c.b, c.lis, c.to_lis, span, s, k, step);
    let wide = hi - lo;
    assert(2real * (step * span) <= wide * span) by (nonlinear_arith)
        requires
            2real * step <= wide,
            span >= 0real,
    ;
}

} // verus!
