//! How the straight line to an image folds into the room: in exact arithmetic
//! every image of up to two reflections is reached, through one of the chains
//! that discovery starts with.

use crate::arith::{diff, prod, quot, Calc, Op};
use crate::chains::{
    entry_record, exact_gains, exact_image, image_of_chain, no_path_is_invented,
    no_supported_path_is_missed,
};
use crate::exact::{
    exact_dot, exact_norm, exact_vdiff, exact_vscaled, inner, is_exact, lemma_minus_one, lemma_negated,
    lemma_one, lemma_order, lemma_same_pattern, lemma_scale, lemma_size, lemma_two, value, vector, Vector,
};
use crate::geom::{distance, dot, mirrored, norm, vdiff, vscaled, TWO};
use crate::ism::{exact_way, tap_of, Image};
use crate::material::SPEED_OF_SOUND;
use crate::mesh::Point;
use crate::params::ONE;
use crate::pt::{
    arrives, behind, discovered, exact_mirror, has_twin, image, in_wall, is_chain,
    lemma_seeds_are_chains, no_walls, one_wall, reaches, recorded, seeds, seeds_are_complete, solved,
    two_walls, unfolded, wall_axis, wall_normal, wall_plane, walls_of, way_to, Chain, Stand, AT_POINT,
    AWAY, CORNER_SLACK, PARALLEL, STRAIGHT_ON,
};
use crate::scene::{nearest_wall, wall_ahead, Shoebox, FARTHEST, FLAT};
use crate::single::{lemma_grid_increases, Single};
use vstd::prelude::*;

verus! {

/// One coordinate of a vector.
pub open spec fn part(v: Vector, axis: int) -> real {
    if axis == 0 {
        v.0
    } else if axis == 1 {
        v.1
    } else {
        v.2
    }
}

/// A number lies between nothing and the size of the room.
pub open spec fn is_between(x: real, size: Single) -> bool {
    0real <= x <= value(size)
}

/// The point lies in the room.
pub open spec fn is_within(p: Vector, size: Point) -> bool {
    &&& is_between(p.0, size@[0])
    &&& is_between(p.1, size@[1])
    &&& is_between(p.2, size@[2])
}

/// So far along a direction from a point.
pub open spec fn so_far(p: Vector, d: Vector, r: real) -> Vector {
    (p.0 + r * d.0, p.1 + r * d.1, p.2 + r * d.2)
}

/// Every operation behind the distance of the wall ahead along an axis is exact.
pub open spec fn exact_ahead(f: Calc, size: Point, p: Point, d: Point, axis: int) -> bool {
    let di = d@[axis];
    &&& di.is_finite()
    &&& Single(FLAT).below(di) ==> {
        &&& is_exact(f, Op::Minus(size@[axis], p@[axis]))
        &&& is_exact(f, Op::Over(diff(f, size@[axis], p@[axis]), di))
    }
    &&& di.below(Single(FLAT).negated()) ==> is_exact(f, Op::Over(p@[axis].negated(), di))
}

/// Every operation behind the nearest wall ahead is exact.
pub open spec fn exact_nearest(f: Calc, size: Point, p: Point, d: Point) -> bool {
    &&& exact_ahead(f, size, p, d, 0)
    &&& exact_ahead(f, size, p, d, 1)
    &&& exact_ahead(f, size, p, d, 2)
}

/// No wall along an axis stands before a point of the room.
proof fn lemma_ahead(f: Calc, size: Point, p: Point, d: Point, axis: int, r: real)
    requires
        0 <= axis < 3,
        exact_ahead(f, size, p, d, axis),
        is_between(value(p@[axis]) + r * value(d@[axis]), size@[axis]),
    ensures
        wall_ahead(f, size, p, d, axis) matches Some(h) ==> h.0.is_finite() && value(h.0) >= r,
{
    let di = d@[axis];
    lemma_one();
    lemma_grid_increases(0, FLAT as nat);
    lemma_order(Single(0), Single(FLAT));
    lemma_order(Single(FLAT), di);
    lemma_negated(Single(FLAT));
    lemma_negated(p@[axis]);
    lemma_order(di, Single(FLAT).negated());
    let x = value(di);
    if let Some(h) = wall_ahead(f, size, p, d, axis) {
        let t = value(h.0);
        if Single(FLAT).below(di) {
            assert(t >= r) by (nonlinear_arith)
                requires
                    x > 0real,
                    t * x >= r * x,
            ;
        } else {
            assert(t >= r) by (nonlinear_arith)
                requires
                    x < 0real,
                    t * x <= r * x,
            ;
        }
    }
}

/// No wall stands before a point of the room.
proof fn lemma_nearest(f: Calc, size: Point, p: Point, d: Point, r: real, x: Single, n: int)
    requires
        0 <= n <= 3,
        x.is_finite(),
        value(x) <= r,
        exact_nearest(f, size, p, d),
        is_within(so_far(vector(p), vector(d), r), size),
    ensures
        nearest_wall(f, size, p, d, n).0.is_finite(),
        value(nearest_wall(f, size, p, d, n).0) >= value(x),
    decreases n,
{
    if n == 0 {
        let top = Single(FARTHEST);
        if x.magnitude() < top.magnitude() {
            lemma_grid_increases(x.magnitude(), top.magnitude());
        }
        lemma_order(x, top);
    } else {
        lemma_nearest(f, size, p, d, r, x, n - 1);
        lemma_ahead(f, size, p, d, n - 1, r);
    }
}

/// Every operation of mirroring a direction at a wall is exact.
pub open spec fn exact_bounce(f: Calc, d: Point, w: u8) -> bool {
    let n = wall_normal(w);
    let k = prod(f, Single(TWO), dot(f, d, n));
    &&& exact_dot(f, d, n)
    &&& is_exact(f, Op::Times(Single(TWO), dot(f, d, n)))
    &&& exact_vscaled(f, n, k)
    &&& exact_vdiff(f, d, vscaled(f, n, k))
}

/// Going along a direction is exact.
pub open spec fn exact_along(f: Calc, p: Point, d: Point, k: Single) -> bool {
    let v = vscaled(f, d, k);
    &&& exact_vscaled(f, d, k)
    &&& is_exact(f, Op::Plus(p@[0], v@[0]))
    &&& is_exact(f, Op::Plus(p@[1], v@[1]))
    &&& is_exact(f, Op::Plus(p@[2], v@[2]))
}

/// A length less the slack of corners is no larger.
pub open spec fn is_shortened(f: Calc, length: Single) -> bool {
    let short = diff(f, length, Single(CORNER_SLACK));
    short.is_finite() && value(short) <= value(length)
}

/// Every operation of walking on to a wall and off it is exact, but for the slack
/// of corners.
pub open spec fn exact_step(f: Calc, at: Stand, w: u8, size: Point) -> bool {
    let a = wall_axis(w);
    let gap = diff(f, wall_plane(w, size), at.pos@[a]);
    let t = way_to(f, at, w, size);
    &&& is_exact(f, Op::Minus(wall_plane(w, size), at.pos@[a]))
    &&& is_exact(f, Op::Over(gap, at.d@[a]))
    &&& is_exact(f, Op::Times(gap, at.d@[a]))
    &&& is_shortened(f, t)
    &&& exact_nearest(f, size, at.pos, at.d)
    &&& exact_along(f, at.pos, at.d, t)
    &&& exact_bounce(f, at.d, w)
}

/// Where the plane of a wall is.
pub open spec fn plane(w: u8, size: Point) -> real {
    value(wall_plane(w, size))
}

/// A vector with another coordinate along one axis.
pub open spec fn with_part(v: Vector, axis: int, x: real) -> Vector {
    if axis == 0 {
        (x, v.1, v.2)
    } else if axis == 1 {
        (v.0, x, v.2)
    } else {
        (v.0, v.1, x)
    }
}

/// A place mirrored in a wall.
pub open spec fn in_mirror(e: Vector, w: u8, size: Point) -> Vector {
    let a = wall_axis(w);
    with_part(e, a, 2real * plane(w, size) - part(e, a))
}

/// The place does not lie before the plane of the wall.
pub open spec fn is_beyond(e: Vector, w: u8, size: Point) -> bool {
    let a = wall_axis(w);
    if w % 2 == 0 {
        part(e, a) <= 0real
    } else {
        part(e, a) >= value(size@[a])
    }
}

/// The direction is steep enough to be told from one along the wall.
pub open spec fn is_steep(x: real) -> bool {
    x >= value(Single(PARALLEL)) || -x >= value(Single(PARALLEL))
}

proof fn lemma_bounce(f: Calc, d: Point, w: u8)
    requires
        w < 6,
        exact_bounce(f, d, w),
    ensures
        vector(mirrored(f, d, wall_normal(w))) == with_part(
            vector(d),
            wall_axis(w),
            -part(vector(d), wall_axis(w)),
        ),
{
    lemma_one();
    lemma_two();
    lemma_minus_one();
    let (x, y, z) = vector(d);
    lemma_units(x);
    lemma_units(y);
    lemma_units(z);
    lemma_units(2real * x);
    lemma_units(2real * y);
    lemma_units(2real * z);
    lemma_units(2real * -x);
    lemma_units(2real * -y);
    lemma_units(2real * -z);
}

proof fn lemma_units(x: real)
    ensures
        x * 0real == 0real,
        0real * x == 0real,
        x * 1real == x,
        1real * x == x,
        x * -1real == -x,
        -1real * x == -x,
{
}

/// When the walk meets a plane.
pub open spec fn time_to(p: Vector, d: Vector, w: u8, size: Point) -> real {
    let a = wall_axis(w);
    (plane(w, size) - part(p, a)) / part(d, a)
}

/// A walk from within the room to a place beyond a wall meets it on the way.
proof fn lemma_time(p: Vector, d: Vector, w: u8, size: Point, r: real)
    requires
        w < 6,
        is_within(p, size),
        r >= 0real,
        is_beyond(so_far(p, d, r), w, size),
        part(d, wall_axis(w)) != 0real,
    ensures
        0real <= time_to(p, d, w, size) <= r,
        time_to(p, d, w, size) * part(d, wall_axis(w)) == plane(w, size) - part(p, wall_axis(w)),
{
    let a = wall_axis(w);
    let (pa, x, h) = (part(p, a), part(d, a), plane(w, size));
    let t = time_to(p, d, w, size);
    let gap = h - pa;
    lemma_one();
    assert((gap / x) * x == gap) by (nonlinear_arith)
        requires
            x != 0real,
    ;
    assert((x > 0real ==> r * x >= 0real) && (x < 0real ==> r * x <= 0real)) by (nonlinear_arith)
        requires
            r >= 0real,
    ;
    assert(part(so_far(p, d, r), a) == pa + r * x);
    if gap == 0real {
        assert(t == 0real) by (nonlinear_arith)
            requires
                t * x == 0real,
                x != 0real,
        ;
    } else {
        assert(0real <= t <= r) by (nonlinear_arith)
            requires
                t * x == gap,
                (x > 0real && gap >= 0real && r * x >= gap) || (x < 0real && gap <= 0real && r * x
                    <= gap),
        ;
    }
}

/// The walk towards a place beyond a wall reaches the wall, where no other wall
/// is in its way, and goes on towards the mirrored place.
proof fn lemma_step(f: Calc, at: Stand, w: u8, size: Point, e: Vector, r: real, t: real)
    requires
        w < 6,
        exact_step(f, at, w, size),
        is_within(vector(at.pos), size),
        so_far(vector(at.pos), vector(at.d), r) == e,
        0real <= t <= r,
        is_steep(part(vector(at.d), wall_axis(w))),
        t * part(vector(at.d), wall_axis(w)) == plane(w, size) - part(vector(at.pos), wall_axis(w)),
        is_within(so_far(vector(at.pos), vector(at.d), t), size),
    ensures
        reaches(f, at, w, size),
        vector(behind(f, at, w, size).pos) == so_far(vector(at.pos), vector(at.d), t),
        vector(behind(f, at, w, size).d) == with_part(
            vector(at.d),
            wall_axis(w),
            -part(vector(at.d), wall_axis(w)),
        ),
        so_far(vector(behind(f, at, w, size).pos), vector(behind(f, at, w, size).d), r - t)
            == in_mirror(e, w, size),
{
    let a = wall_axis(w);
    let (p, d) = (vector(at.pos), vector(at.d));
    let (pa, x) = (part(p, a), part(d, a));
    let h = plane(w, size);
    lemma_one();
    lemma_grid_increases(0, PARALLEL as nat);
    lemma_order(Single(0), Single(PARALLEL));
    assert(exact_ahead(f, size, at.pos, at.d, a));
    lemma_size(at.d@[a]);
    lemma_order(crate::arith::size(at.d@[a]), Single(PARALLEL));
    let gap = diff(f, wall_plane(w, size), at.pos@[a]);
    let q = quot(f, gap, at.d@[a]);
    let way = way_to(f, at, w, size);
    let v = value(q);
    assert(v == t) by (nonlinear_arith)
        requires
            v * x == t * x,
            x != 0real,
    ;
    lemma_order(q, Single(0));
    assert(value(way) == t && way.is_finite());
    lemma_grid_increases(0, 0x3586_37BD);
    lemma_negated(Single(0x3586_37BD));
    lemma_order(Single(0), Single(0x3586_37BD));
    assert(Single(0x3586_37BD).negated() == Single(AWAY));
    let push = prod(f, gap, at.d@[a]);
    lemma_order(push, Single(AWAY));
    assert((t * x) * x >= 0real) by (nonlinear_arith)
        requires
            t >= 0real,
    ;
    let short = diff(f, way, Single(CORNER_SLACK));
    lemma_nearest(f, size, at.pos, at.d, t, short, 3);
    lemma_order(nearest_wall(f, size, at.pos, at.d, 3).0, short);
    lemma_bounce(f, at.d, w);
    lemma_turns(pa, x, r, t);
    lemma_goes_on(p.0, d.0, r, t);
    lemma_goes_on(p.1, d.1, r, t);
    lemma_goes_on(p.2, d.2, r, t);
    lemma_swapped(d.0, t);
    lemma_swapped(d.1, t);
    lemma_swapped(d.2, t);
}

proof fn lemma_swapped(d: real, t: real)
    ensures
        d * t == t * d,
{
    assert(d * t == t * d) by (nonlinear_arith);
}

proof fn lemma_turns(p: real, x: real, r: real, t: real)
    ensures
        (p + t * x) + (r - t) * (-x) == 2real * (p + t * x) - (p + r * x),
{
    assert((r - t) * (-x) == t * x - r * x) by (nonlinear_arith);
}

proof fn lemma_goes_on(p: real, x: real, r: real, t: real)
    ensures
        (p + t * x) + (r - t) * x == p + r * x,
{
    assert((r - t) * x == r * x - t * x) by (nonlinear_arith);
}

/// The reciprocal of a length is taken as closely as the solver needs it: the
/// length at unit scale is nearly one, and less the slack of corners no more.
pub open spec fn is_reciprocal(f: Calc, length: Single) -> bool {
    let k = quot(f, Single(ONE), length);
    let short = diff(f, length, Single(CORNER_SLACK));
    &&& k.is_finite() && short.is_finite()
    &&& 4096real * (value(k) * value(length)) >= 4095real
    &&& value(k) * value(short) <= 1real
}

/// Every operation of the last leg is exact, but for the reciprocal of its length
/// and the slack of corners.
pub open spec fn exact_arrival(f: Calc, s: Stand, source: Point, size: Point) -> bool {
    let to = vdiff(f, source, s.pos);
    let leg = norm(f, to);
    let k = quot(f, Single(ONE), leg);
    let ld = vscaled(f, to, k);
    Single(AT_POINT).below(leg) ==> {
        &&& exact_vdiff(f, source, s.pos)
        &&& exact_norm(f, to)
        &&& is_reciprocal(f, leg)
        &&& exact_vscaled(f, to, k)
        &&& exact_dot(f, ld, s.d)
        &&& exact_nearest(f, size, s.pos, ld)
    }
}

proof fn lemma_unscaled(x: real, k: real)
    requires
        k > 0real,
    ensures
        (1real / k) * (x * k) == x,
        (1real / k) * k == 1real,
{
    assert((1real / k) * k == 1real) by (nonlinear_arith)
        requires
            k > 0real,
    ;
    let u = 1real / k;
    assert(u * (x * k) == x * (u * k)) by (nonlinear_arith);
}

/// A walk that heads for the source arrives there.
proof fn lemma_arrives(f: Calc, s: Stand, source: Point, size: Point, r: real, m: real)
    requires
        exact_arrival(f, s, source, size),
        is_within(vector(s.pos), size),
        is_within(vector(source), size),
        so_far(vector(s.pos), vector(s.d), r) == vector(source),
        r >= 0real,
        inner(vector(s.d), vector(s.d)) == m * m,
        4096real * m >= 4095real,
    ensures
        arrives(f, s, source, size),
{
    let to = vdiff(f, source, s.pos);
    let leg = norm(f, to);
    let k = quot(f, Single(ONE), leg);
    let ld = vscaled(f, to, k);
    if Single(AT_POINT).below(leg) {
        let (l, c) = (value(leg), value(k));
        let (v, d, p) = (vector(to), vector(s.d), vector(s.pos));
        lemma_one();
        lemma_grid_increases(0, AT_POINT as nat);
        lemma_order(Single(0), Single(AT_POINT));
        lemma_order(Single(AT_POINT), leg);
        assert(v == (r * d.0, r * d.1, r * d.2));
        lemma_squares(d.0, r);
        lemma_squares(d.1, r);
        lemma_squares(d.2, r);
        let (a, b, e) = (d.0 * d.0, d.1 * d.1, d.2 * d.2);
        assert(l * l == (r * r) * a + (r * r) * b + (r * r) * e);
        let rr = r * r;
        assert(rr * a + rr * b + rr * e == rr * (a + b + e)) by (nonlinear_arith);
        lemma_squares(m, r);
        assert(r * m >= 0real) by (nonlinear_arith)
            requires
                r >= 0real,
                m >= 0real,
        ;
        lemma_root(l, r * m);
        assert(c > 0real) by (nonlinear_arith)
            requires
                4096real * (c * l) >= 4095real,
                l > 0real,
        ;
        let u = 1real / c;
        lemma_unscaled(v.0, c);
        lemma_unscaled(v.1, c);
        lemma_unscaled(v.2, c);
        assert(so_far(p, vector(ld), u) == vector(source));
        let short = diff(f, leg, Single(CORNER_SLACK));
        let q = value(short);
        assert(q <= u) by (nonlinear_arith)
            requires
                c * q <= 1real,
                c > 0real,
                u * c == 1real,
        ;
        lemma_nearest(f, size, s.pos, ld, u, short, 3);
        lemma_order(nearest_wall(f, size, s.pos, ld, 3).0, short);
        lemma_parallel(d.0, r, c);
        lemma_parallel(d.1, r, c);
        lemma_parallel(d.2, r, c);
        let rc = r * c;
        assert(value(dot(f, ld, s.d)) == rc * a + rc * b + rc * e);
        assert(rc * a + rc * b + rc * e == rc * (a + b + e)) by (nonlinear_arith);
        assert(rc * (m * m) == (c * (r * m)) * m) by (nonlinear_arith)
            requires
                rc == r * c,
        ;
        let cl = c * l;
        assert(16777216real * (cl * m) >= 16769025real) by (nonlinear_arith)
            requires
                4096real * cl >= 4095real,
                4096real * m >= 4095real,
        ;
        lemma_scale(STRAIGHT_ON, 126, 0x7F_BE77);
        lemma_order(dot(f, ld, s.d), Single(STRAIGHT_ON));
        assert((0x80_0000 + 0x7F_BE77) as real == 16760439real);
        let z = 16760439real / 8388608real;
        assert(z * 8388608real == 16760439real);
    }
}

proof fn lemma_squares(x: real, r: real)
    ensures
        (r * x) * (r * x) == (r * r) * (x * x),
{
    assert((r * x) * (r * x) == (r * r) * (x * x)) by (nonlinear_arith);
}

proof fn lemma_parallel(x: real, r: real, c: real)
    ensures
        ((r * x) * c) * x == (r * c) * (x * x),
{
    assert(((r * x) * c) * x == (r * c) * (x * x)) by (nonlinear_arith);
}

proof fn lemma_root(x: real, y: real)
    requires
        x * x == y * y,
        x >= 0real,
        y >= 0real,
    ensures
        x == y,
{
    assert(x == y) by (nonlinear_arith)
        requires
            x * x == y * y,
            x >= 0real,
            y >= 0real,
    ;
}

/// Every operation of walking along a chain is exact, as far as the walk goes.
pub open spec fn exact_walk(f: Calc, at: Stand, chain: Seq<u8>, size: Point, n: int) -> bool
    decreases n,
{
    n <= 0 || {
        &&& exact_walk(f, at, chain, size, n - 1)
        &&& unfolded(f, at, chain, size, n - 1) matches Some(s) ==> exact_step(
            f,
            s,
            chain[n - 1],
            size,
        )
    }
}

/// The listener, heading for the image of a source in a chain.
pub open spec fn heading(f: Calc, size: Point, chain: Seq<u8>, source: Point, listener: Point) -> Stand {
    let to = vdiff(f, image(f, source, chain, size), listener);
    Stand { pos: listener, d: vscaled(f, to, quot(f, Single(ONE), norm(f, to))) }
}

/// Every operation of solving a chain is exact, but for the reciprocals of
/// lengths and the slack of corners, which are taken closely enough.
pub open spec fn exact_solving(
    f: Calc,
    size: Point,
    chain: Seq<u8>,
    source: Point,
    listener: Point,
) -> bool {
    let to = vdiff(f, image(f, source, chain, size), listener);
    let at = heading(f, size, chain, source, listener);
    &&& exact_image(f, source, chain, size)
    &&& exact_vdiff(f, image(f, source, chain, size), listener)
    &&& exact_norm(f, to)
    &&& is_reciprocal(f, norm(f, to))
    &&& exact_vscaled(f, to, quot(f, Single(ONE), norm(f, to)))
    &&& exact_walk(f, at, chain, size, chain.len() as int)
    &&& unfolded(f, at, chain, size, chain.len() as int) matches Some(s) ==> exact_arrival(
        f,
        s,
        source,
        size,
    )
}

/// The image is told apart from the listener, and its direction from those along
/// the walls of the chain.
pub open spec fn is_told_apart(
    f: Calc,
    size: Point,
    chain: Seq<u8>,
    source: Point,
    listener: Point,
) -> bool {
    &&& !norm(f, vdiff(f, image(f, source, chain, size), listener)).below(Single(AT_POINT))
    &&& forall|i: int|
        0 <= i < chain.len() ==> is_steep(
            part(
                vector(heading(f, size, chain, source, listener).d),
                wall_axis(#[trigger] chain[i]),
            ),
        )
}

proof fn lemma_in_wall(f: Calc, p: Point, w: u8, size: Point)
    requires
        w < 6,
        exact_mirror(f, p, w, size),
    ensures
        vector(in_wall(f, p, w, size)) == in_mirror(vector(p), w, size),
{
    lemma_one();
    lemma_two();
    lemma_negated(p@[wall_axis(w)]);
}

/// The number of lengths of its direction that the walk has to go.
pub open spec fn way_ahead(f: Calc, size: Point, chain: Seq<u8>, source: Point, listener: Point) -> real {
    let to = vdiff(f, image(f, source, chain, size), listener);
    1real / value(quot(f, Single(ONE), norm(f, to)))
}

/// How long the walk's direction is.
pub open spec fn stride(f: Calc, size: Point, chain: Seq<u8>, source: Point, listener: Point) -> real {
    let to = vdiff(f, image(f, source, chain, size), listener);
    value(quot(f, Single(ONE), norm(f, to))) * value(norm(f, to))
}

proof fn lemma_heading(f: Calc, size: Point, chain: Seq<u8>, source: Point, listener: Point)
    requires
        exact_solving(f, size, chain, source, listener),
        is_told_apart(f, size, chain, source, listener),
    ensures
        ({
            let d = vector(heading(f, size, chain, source, listener).d);
            let r = way_ahead(f, size, chain, source, listener);
            let m = stride(f, size, chain, source, listener);
            &&& r > 0real
            &&& so_far(vector(listener), d, r) == vector(image(f, source, chain, size))
            &&& inner(d, d) == m * m
            &&& 4096real * m >= 4095real
            &&& value(norm(f, vdiff(f, image(f, source, chain, size), listener))) > 0real
        }),
{
    let to = vdiff(f, image(f, source, chain, size), listener);
    let dist = norm(f, to);
    let k = quot(f, Single(ONE), dist);
    let (l, c, v) = (value(dist), value(k), vector(to));
    lemma_one();
    lemma_grid_increases(0, AT_POINT as nat);
    lemma_order(Single(0), Single(AT_POINT));
    lemma_order(dist, Single(AT_POINT));
    assert(c > 0real) by (nonlinear_arith)
        requires
            4096real * (c * l) >= 4095real,
            l > 0real,
    ;
    lemma_unscaled(v.0, c);
    lemma_unscaled(v.1, c);
    lemma_unscaled(v.2, c);
    let u = 1real / c;
    assert(u > 0real) by (nonlinear_arith)
        requires
            u * c == 1real,
            c > 0real,
    ;
    lemma_scaled_square(v.0, c);
    lemma_scaled_square(v.1, c);
    lemma_scaled_square(v.2, c);
    let (a, b, e) = (v.0 * v.0, v.1 * v.1, v.2 * v.2);
    let cc = c * c;
    assert(cc * a + cc * b + cc * e == cc * (a + b + e)) by (nonlinear_arith);
    lemma_squares(l, c);
}

proof fn lemma_scaled_square(x: real, c: real)
    ensures
        (x * c) * (x * c) == (c * c) * (x * x),
{
    assert((x * c) * (x * c) == (c * c) * (x * x)) by (nonlinear_arith);
}

proof fn lemma_between(p: real, x: real, r: real, t: real, size: Single)
    requires
        is_between(p, size),
        is_between(p + r * x, size),
        0real <= t <= r,
    ensures
        is_between(p + t * x, size),
{
    let l = value(size);
    assert(0real <= p + t * x <= l) by (nonlinear_arith)
        requires
            0real <= p <= l,
            0real <= p + r * x <= l,
            0real <= t <= r,
    ;
}

/// A step after which the walk heads for a place in the room, but along the
/// wall's axis, and along another axis if that wall comes no earlier.
proof fn lemma_clear(p: Vector, d: Vector, w: u8, v: u8, size: Point, r: real)
    requires
        w < 6,
        v < 6,
        is_within(p, size),
        r >= 0real,
        is_beyond(so_far(p, d, r), w, size),
        part(d, wall_axis(w)) != 0real,
        forall|b: int|
            0 <= b < 3 && b != wall_axis(w) && b != wall_axis(v) ==> is_between(
                #[trigger] part(so_far(p, d, r), b),
                size@[b],
            ),
        wall_axis(v) != wall_axis(w) ==> {
            &&& part(d, wall_axis(v)) != 0real
            &&& is_beyond(so_far(p, d, r), v, size)
            &&& time_to(p, d, w, size) <= time_to(p, d, v, size)
        },
    ensures
        is_within(so_far(p, d, time_to(p, d, w, size)), size),
{
    let t = time_to(p, d, w, size);
    lemma_one();
    lemma_time(p, d, w, size, r);
    if wall_axis(v) != wall_axis(w) {
        lemma_time(p, d, v, size, r);
        let b = wall_axis(v);
        lemma_between(part(p, b), part(d, b), time_to(p, d, v, size), t, size@[b]);
    }
    let e = so_far(p, d, r);
    if wall_axis(w) != 0 && wall_axis(v) != 0 {
        assert(is_between(part(e, 0), size@[0]));
        lemma_between(p.0, d.0, r, t, size@[0]);
    }
    if wall_axis(w) != 1 && wall_axis(v) != 1 {
        assert(is_between(part(e, 1), size@[1]));
        lemma_between(p.1, d.1, r, t, size@[1]);
    }
    if wall_axis(w) != 2 && wall_axis(v) != 2 {
        assert(is_between(part(e, 2), size@[2]));
        lemma_between(p.2, d.2, r, t, size@[2]);
    }
}

proof fn lemma_steep(x: real)
    requires
        is_steep(x),
    ensures
        x != 0real,
        is_steep(-x),
{
    lemma_one();
    lemma_grid_increases(0, PARALLEL as nat);
    lemma_order(Single(0), Single(PARALLEL));
}

proof fn lemma_reached_directly(f: Calc, size: Point, source: Point, listener: Point)
    requires
        is_within(vector(source), size),
        is_within(vector(listener), size),
        exact_solving(f, size, Seq::empty(), source, listener),
        is_told_apart(f, size, Seq::empty(), source, listener),
    ensures
        solved(f, size, Seq::empty(), source, listener) is Some,
{
    let c = Seq::<u8>::empty();
    lemma_heading(f, size, c, source, listener);
    lemma_arrives(
        f,
        heading(f, size, c, source, listener),
        source,
        size,
        way_ahead(f, size, c, source, listener),
        stride(f, size, c, source, listener),
    );
}

proof fn lemma_reached_by_one(f: Calc, size: Point, w: u8, source: Point, listener: Point)
    requires
        w < 6,
        is_within(vector(source), size),
        is_within(vector(listener), size),
        exact_solving(f, size, seq![w], source, listener),
        is_told_apart(f, size, seq![w], source, listener),
    ensures
        solved(f, size, seq![w], source, listener) is Some,
{
    let c = seq![w];
    let at = heading(f, size, c, source, listener);
    let (p, d) = (vector(at.pos), vector(at.d));
    let r = way_ahead(f, size, c, source, listener);
    let m = stride(f, size, c, source, listener);
    lemma_one();
    lemma_heading(f, size, c, source, listener);
    assert(c.drop_first() =~= Seq::empty());
    reveal_with_fuel(image, 2);
    reveal_with_fuel(exact_image, 2);
    reveal_with_fuel(exact_walk, 2);
    reveal_with_fuel(unfolded, 2);
    lemma_in_wall(f, source, w, size);
    assert(is_steep(part(d, wall_axis(c[0]))));
    assert(unfolded(f, at, c, size, 0) == Some(at));
    lemma_last_wall(f, size, at, w, vector(source), r);
    let s = behind(f, at, w, size);
    assert(unfolded(f, at, c, size, 1) == Some(s));
    lemma_arrives(f, s, source, size, r - time_to(p, d, w, size), m);
}

proof fn lemma_same_stride(d: Vector, axis: int)
    ensures
        inner(with_part(d, axis, -part(d, axis)), with_part(d, axis, -part(d, axis))) == inner(d, d),
{
    let (x, y, z) = d;
    assert((-x) * (-x) == x * x && (-y) * (-y) == y * y && (-z) * (-z) == z * z)
        by (nonlinear_arith);
}

/// Where a place of the room lies in the mirrors of two walls.
proof fn lemma_two_mirrors(e: Vector, w: u8, v: u8, size: Point)
    requires
        w < 6,
        v < 6,
        w != v,
        is_within(e, size),
    ensures
        ({
            let near = in_mirror(e, v, size);
            let far = in_mirror(near, w, size);
            &&& is_beyond(near, v, size)
            &&& is_beyond(far, w, size)
            &&& wall_axis(w) != wall_axis(v) ==> is_beyond(far, v, size)
            &&& in_mirror(far, w, size) == near
            &&& in_mirror(near, v, size) == e
            &&& forall|b: int|
                0 <= b < 3 && b != wall_axis(v) ==> is_between(#[trigger] part(near, b), size@[b])
            &&& forall|b: int|
                0 <= b < 3 && b != wall_axis(w) && b != wall_axis(v) ==> is_between(
                    #[trigger] part(far, b),
                    size@[b],
                )
        }),
{
    lemma_one();
}

/// The first of two walls is met, and the walk heads for the second.
proof fn lemma_first_of_two(
    f: Calc,
    size: Point,
    at: Stand,
    w: u8,
    v: u8,
    e: Vector,
    r: real,
)
    requires
        w < 6,
        v < 6,
        w != v,
        is_within(e, size),
        is_within(vector(at.pos), size),
        r >= 0real,
        so_far(vector(at.pos), vector(at.d), r) == in_mirror(in_mirror(e, v, size), w, size),
        is_steep(part(vector(at.d), wall_axis(w))),
        is_steep(part(vector(at.d), wall_axis(v))),
        wall_axis(w) != wall_axis(v) ==> time_to(vector(at.pos), vector(at.d), w, size) <= time_to(
            vector(at.pos),
            vector(at.d),
            v,
            size,
        ),
        exact_step(f, at, w, size),
    ensures
        ({
            let s = behind(f, at, w, size);
            let t = time_to(vector(at.pos), vector(at.d), w, size);
            &&& reaches(f, at, w, size)
            &&& r - t >= 0real
            &&& is_within(vector(s.pos), size)
            &&& so_far(vector(s.pos), vector(s.d), r - t) == in_mirror(e, v, size)
            &&& is_steep(part(vector(s.d), wall_axis(v)))
            &&& inner(vector(s.d), vector(s.d)) == inner(vector(at.d), vector(at.d))
        }),
{
    let (p, d) = (vector(at.pos), vector(at.d));
    let t = time_to(p, d, w, size);
    lemma_two_mirrors(e, w, v, size);
    lemma_steep(part(d, wall_axis(w)));
    lemma_steep(part(d, wall_axis(v)));
    lemma_time(p, d, w, size, r);
    lemma_clear(p, d, w, v, size, r);
    lemma_step(f, at, w, size, so_far(p, d, r), r, t);
    lemma_same_stride(d, wall_axis(w));
}

/// The last wall is met, and the walk heads for the source.
proof fn lemma_last_wall(f: Calc, size: Point, at: Stand, v: u8, e: Vector, r: real)
    requires
        v < 6,
        is_within(e, size),
        is_within(vector(at.pos), size),
        r >= 0real,
        so_far(vector(at.pos), vector(at.d), r) == in_mirror(e, v, size),
        is_steep(part(vector(at.d), wall_axis(v))),
        exact_step(f, at, v, size),
    ensures
        ({
            let s = behind(f, at, v, size);
            let t = time_to(vector(at.pos), vector(at.d), v, size);
            &&& reaches(f, at, v, size)
            &&& r - t >= 0real
            &&& is_within(vector(s.pos), size)
            &&& so_far(vector(s.pos), vector(s.d), r - t) == e
            &&& inner(vector(s.d), vector(s.d)) == inner(vector(at.d), vector(at.d))
        }),
{
    let (p, d) = (vector(at.pos), vector(at.d));
    let t = time_to(p, d, v, size);
    lemma_one();
    lemma_steep(part(d, wall_axis(v)));
    assert(is_beyond(in_mirror(e, v, size), v, size));
    lemma_time(p, d, v, size, r);
    lemma_clear(p, d, v, v, size, r);
    lemma_step(f, at, v, size, so_far(p, d, r), r, t);
    lemma_same_stride(d, wall_axis(v));
    assert(in_mirror(in_mirror(e, v, size), v, size) == e);
}

proof fn lemma_reached_by_two(f: Calc, size: Point, w: u8, v: u8, source: Point, listener: Point)
    requires
        w < 6,
        v < 6,
        w != v,
        is_within(vector(source), size),
        is_within(vector(listener), size),
        exact_solving(f, size, seq![w, v], source, listener),
        is_told_apart(f, size, seq![w, v], source, listener),
        wall_axis(w) != wall_axis(v) ==> {
            let d = vector(heading(f, size, seq![w, v], source, listener).d);
            time_to(vector(listener), d, w, size) <= time_to(vector(listener), d, v, size)
        },
    ensures
        solved(f, size, seq![w, v], source, listener) is Some,
{
    let c = seq![w, v];
    let at = heading(f, size, c, source, listener);
    let (p, d) = (vector(at.pos), vector(at.d));
    let r = way_ahead(f, size, c, source, listener);
    let m = stride(f, size, c, source, listener);
    lemma_heading(f, size, c, source, listener);
    assert(c.drop_first() =~= seq![v]);
    assert(seq![v].drop_first() =~= Seq::empty());
    reveal_with_fuel(image, 3);
    reveal_with_fuel(exact_image, 3);
    reveal_with_fuel(exact_walk, 3);
    reveal_with_fuel(unfolded, 3);
    lemma_in_wall(f, source, v, size);
    lemma_in_wall(f, in_wall(f, source, v, size), w, size);
    let e = vector(source);
    assert(is_steep(part(d, wall_axis(c[0]))));
    assert(is_steep(part(d, wall_axis(c[1]))));
    assert(unfolded(f, at, c, size, 0) == Some(at));
    lemma_first_of_two(f, size, at, w, v, e, r);
    let s = behind(f, at, w, size);
    assert(unfolded(f, at, c, size, 1) == Some(s));
    let r1 = r - time_to(p, d, w, size);
    lemma_last_wall(f, size, s, v, e, r1);
    let z = behind(f, s, v, size);
    assert(unfolded(f, at, c, size, 2) == Some(z));
    let r2 = r1 - time_to(vector(s.pos), vector(s.d), v, size);
    lemma_arrives(f, z, source, size, r2, m);
}

/// The two chains of two walls across different axes head the same way.
proof fn lemma_same_heading(f: Calc, size: Point, w: u8, v: u8, source: Point, listener: Point)
    requires
        w < 6,
        v < 6,
        wall_axis(w) != wall_axis(v),
        exact_solving(f, size, seq![w, v], source, listener),
        exact_solving(f, size, seq![v, w], source, listener),
        is_told_apart(f, size, seq![w, v], source, listener),
        is_told_apart(f, size, seq![v, w], source, listener),
    ensures
        vector(heading(f, size, seq![w, v], source, listener).d) == vector(
            heading(f, size, seq![v, w], source, listener).d,
        ),
{
    assert(seq![w, v].drop_first() =~= seq![v]);
    assert(seq![v, w].drop_first() =~= seq![w]);
    assert(seq![v].drop_first() =~= Seq::empty());
    assert(seq![w].drop_first() =~= Seq::empty());
    reveal_with_fuel(image, 3);
    reveal_with_fuel(exact_image, 3);
    lemma_in_wall(f, source, v, size);
    lemma_in_wall(f, source, w, size);
    lemma_in_wall(f, in_wall(f, source, v, size), w, size);
    lemma_in_wall(f, in_wall(f, source, w, size), v, size);
    let p = vdiff(f, image(f, source, seq![w, v], size), listener);
    let q = vdiff(f, image(f, source, seq![v, w], size), listener);
    assert(vector(p) == vector(q));
    lemma_heading(f, size, seq![w, v], source, listener);
    lemma_heading(f, size, seq![v, w], source, listener);
    lemma_root(value(norm(f, p)), value(norm(f, q)));
    lemma_same_pattern(norm(f, p), norm(f, q));
}

/// A chain of walls that shows the source in a given image of up to two
/// reflections.
pub open spec fn chain_for(g: Image) -> Seq<u8> {
    let (x, y, z) = (g.nx as u8, (2 + g.ny) as u8, (4 + g.nz) as u8);
    if g.px == 1 && g.py == 1 {
        seq![x, y]
    } else if g.px == 1 && g.pz == 1 {
        seq![x, z]
    } else if g.py == 1 && g.pz == 1 {
        seq![y, z]
    } else if g.px == 1 {
        seq![x]
    } else if g.py == 1 {
        seq![y]
    } else if g.pz == 1 {
        seq![z]
    } else if g.nx == 1 {
        seq![1u8, 0u8]
    } else if g.nx == -1 {
        seq![0u8, 1u8]
    } else if g.ny == 1 {
        seq![3u8, 2u8]
    } else if g.ny == -1 {
        seq![2u8, 3u8]
    } else if g.nz == 1 {
        seq![5u8, 4u8]
    } else if g.nz == -1 {
        seq![4u8, 5u8]
    } else {
        Seq::empty()
    }
}

proof fn lemma_chain_for(g: Image)
    requires
        g.is_image(),
        g.order() <= 2,
    ensures
        chain_for(g).len() == g.order(),
        forall|i: int| 0 <= i < chain_for(g).len() ==> #[trigger] chain_for(g)[i] < 6,
        chain_for(g).len() == 2 ==> chain_for(g)[0] != chain_for(g)[1],
        image_of_chain(chain_for(g)) == g,
        chain_for(g).len() == 2 && wall_axis(chain_for(g)[0]) != wall_axis(chain_for(g)[1])
            ==> image_of_chain(seq![chain_for(g)[1], chain_for(g)[0]]) == g,
{
    let c = chain_for(g);
    reveal_with_fuel(image_of_chain, 3);
    assert(g.px == 1 ==> 0 <= g.nx <= 1);
    assert(g.py == 1 ==> 0 <= g.ny <= 1);
    assert(g.pz == 1 ==> 0 <= g.nz <= 1);
    assert(g.px == 0 ==> -1 <= g.nx <= 1);
    assert(g.py == 0 ==> -1 <= g.ny <= 1);
    assert(g.pz == 0 ==> -1 <= g.nz <= 1);
    if c.len() == 2 {
        assert(c.drop_first() =~= seq![c[1]]);
        assert(seq![c[1]].drop_first() =~= Seq::empty());
        assert(seq![c[1], c[0]].drop_first() =~= seq![c[0]]);
        assert(seq![c[0]].drop_first() =~= Seq::empty());
    } else if c.len() == 1 {
        assert(c.drop_first() =~= Seq::empty());
    }
}

/// The direct path is always there: in exact arithmetic a room supports the
/// chain of no walls wherever the source and the listener stand in it apart from
/// each other, with the delay of their distance.
pub proof fn the_direct_path_is_always_there(
    f: Calc,
    room: Shoebox,
    source: u16,
    src_pos: Point,
    listener: Point,
)
    requires
        is_within(vector(src_pos), room.size),
        is_within(vector(listener), room.size),
        exact_solving(f, room.size, Seq::empty(), src_pos, listener),
        is_told_apart(f, room.size, Seq::empty(), src_pos, listener),
    ensures
        recorded(f, room, walls_of(no_walls()), source, src_pos, listener) matches Some(r) && r.order
            == 0 && r.delay_s == quot(f, distance(f, src_pos, listener), Single(SPEED_OF_SOUND)),
{
    lemma_reached_directly(f, room.size, src_pos, listener);
    assert(walls_of(no_walls()) =~= Seq::<u8>::empty());
}

/// Solving the chains of an image's own length is exact, but for the reciprocals
/// of lengths, and its image told apart.
pub open spec fn is_solved_exactly(
    f: Calc,
    size: Point,
    g: Image,
    source: Point,
    listener: Point,
) -> bool {
    forall|c: Seq<u8>|
        c.len() == g.order() && #[trigger] image_of_chain(c) == g ==> exact_solving(
            f,
            size,
            c,
            source,
            listener,
        ) && is_told_apart(f, size, c, source, listener)
}

/// No image of up to two reflections is out of reach: in exact arithmetic, from
/// anywhere in the room to anywhere in it, one of the seeds that show the image
/// has a record.
pub proof fn every_near_image_is_reached(
    f: Calc,
    room: Shoebox,
    source: u16,
    src_pos: Point,
    listener: Point,
    g: Image,
)
    requires
        g.is_image(),
        g.order() <= 2,
        is_within(vector(src_pos), room.size),
        is_within(vector(listener), room.size),
        is_solved_exactly(f, room.size, g, src_pos, listener),
    ensures
        exists|c: Chain| #[trigger]
            seeds(6).contains(c) && walls_of(c).len() == g.order() && image_of_chain(walls_of(c)) == g
                && recorded(f, room, walls_of(c), source, src_pos, listener) is Some,
{
    let size = room.size;
    let c = chain_for(g);
    lemma_chain_for(g);
    seeds_are_complete(6);
    assert(exact_solving(f, size, c, src_pos, listener));
    if c.len() == 0 {
        assert(c =~= Seq::empty());
        lemma_reached_directly(f, size, src_pos, listener);
        assert(walls_of(no_walls()) =~= c);
        assert(seeds(6).contains(no_walls()));
    } else if c.len() == 1 {
        let w = c[0];
        assert(c =~= seq![w]);
        lemma_reached_by_one(f, size, w, src_pos, listener);
        assert(walls_of(one_wall(w)) =~= c);
        assert(seeds(6).contains(one_wall(w)));
    } else {
        let (w, v) = (c[0], c[1]);
        let back = seq![v, w];
        assert(c =~= seq![w, v]);
        assert(walls_of(two_walls(w, v)) =~= c);
        assert(walls_of(two_walls(v, w)) =~= back);
        assert(seeds(6).contains(two_walls(w, v)) && seeds(6).contains(two_walls(v, w)));
        let l = vector(listener);
        let d = vector(heading(f, size, c, src_pos, listener).d);
        if wall_axis(w) == wall_axis(v) || time_to(l, d, w, size) <= time_to(l, d, v, size) {
            lemma_reached_by_two(f, size, w, v, src_pos, listener);
        } else {
            assert(image_of_chain(back) == g);
            lemma_same_heading(f, size, w, v, src_pos, listener);
            lemma_reached_by_two(f, size, v, w, src_pos, listener);
        }
    }
}

/// No image of up to two reflections is missed: in exact arithmetic, wherever the
/// sources and the listener stand in the room, discovery keeps a record of every
/// such image, or one of the same physical path, and the record has the delay of
/// the image's tap, its direction and its gains.
pub proof fn no_near_image_is_missed(
    f: Calc,
    room: Shoebox,
    chains: Seq<Chain>,
    sources: Seq<Point>,
    si: int,
    listener: Point,
    g: Image,
    key: u32,
)
    requires
        0 <= si < sources.len() <= u32::MAX,
        seeds(6).is_prefix_of(chains),
        g.is_image(),
        g.order() <= 2,
        is_within(vector(sources[si]), room.size),
        is_within(vector(listener), room.size),
        is_solved_exactly(f, room.size, g, sources[si], listener),
        exact_way(f, g, sources[si], listener, room.size),
    ensures
        ({
            let all = discovered(
                f,
                room,
                chains,
                sources,
                listener,
                (chains.len() * sources.len()) as int,
            );
            let t = tap_of(f, room, sources[si], listener, g, key);
            exists|c: Chain| #[trigger]
                seeds(6).contains(c) && {
                    let to = vdiff(f, image(f, sources[si], walls_of(c), room.size), listener);
                    let way = vdiff(f, g.place(f, sources[si], room.size), listener);
                    &&& image_of_chain(walls_of(c)) == g
                    &&& recorded(f, room, walls_of(c), si as u16, sources[si], listener) matches Some(r)
                    &&& all.contains(r) || has_twin(f, all, r)
                    &&& r.delay_s == t.delay_s
                    &&& exact_vscaled(f, way, quot(f, Single(ONE), norm(f, way))) ==> vector(r.dir)
                        == vector(t.dir)
                    &&& exact_gains(f, room, walls_of(c), norm(f, to)) ==> vector(r.gains) == vector(
                        t.gains,
                    )
                }
        }),
{
    let place = sources[si];
    every_near_image_is_reached(f, room, si as u16, place, listener, g);
    let c = choose|c: Chain| #[trigger]
        seeds(6).contains(c) && walls_of(c).len() == g.order() && image_of_chain(walls_of(c)) == g
            && recorded(f, room, walls_of(c), si as u16, place, listener) is Some;
    let i = choose|i: int| 0 <= i < seeds(6).len() && seeds(6)[i] == c;
    let n = sources.len() as int;
    let k = i * n + si;
    assert(k / n == i && k % n == si) by {
        vstd::arithmetic::div_mod::lemma_fundamental_div_mod_converse(k, n, i, si);
    }
    assert(0 <= k < chains.len() * sources.len()) by (nonlinear_arith)
        requires
            k == i * n + si,
            0 <= si < n,
            0 <= i < chains.len(),
            n == sources.len(),
    ;
    assert(chains[i] == c);
    assert(entry_record(f, room, chains, sources, listener, k) == recorded(
        f,
        room,
        walls_of(c),
        si as u16,
        place,
        listener,
    ));
    no_supported_path_is_missed(
        f,
        room,
        chains,
        sources,
        listener,
        (chains.len() * sources.len()) as int,
        k,
    );
    lemma_seeds_are_chains(6);
    assert(exact_solving(f, room.size, walls_of(c), place, listener));
    lemma_heading(f, room.size, walls_of(c), place, listener);
    assert(is_chain(seeds(6)[i]));
    no_path_is_invented(f, room, walls_of(c), si as u16, place, listener, key);
}

} // verus!
