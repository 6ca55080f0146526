//! Where rays and segments meet what stands in their way: a ray in a room meets the wall
//! that it reaches first, and a segment crosses a box where one of its points lies in it.

use crate::arith::{diff, quot, Calc, Op};
use crate::exact::{
    is_exact, lemma_negated, lemma_one, lemma_order, lemma_size, value,
};
use crate::geom::vdiff;
use crate::mesh::Point;
use crate::params::ONE;
use crate::pt_mesh::Aabb;
use crate::scene::{nearest_wall, slab_test, wall_ahead, GeomHit, Shoebox, Slab, FARTHEST, FLAT};
use crate::single::{lemma_grid_increases, Single};
use vstd::prelude::*;

verus! {

/// The way to the walls across one axis is worked out exactly, and a ray that hardly
/// moves along it does not move at all.
pub open spec fn exact_ahead(f: Calc, size: Point, p: Point, d: Point, axis: int) -> bool {
    let di = d@[axis];
    &&& di.is_finite()
    &&& p@[axis].is_finite()
    &&& size@[axis].is_finite()
    &&& Single(FLAT).below(di) ==> is_exact(f, Op::Minus(size@[axis], p@[axis])) && is_exact(
        f,
        Op::Over(diff(f, size@[axis], p@[axis]), di),
    )
    &&& di.below(Single(FLAT).negated()) ==> is_exact(f, Op::Over(p@[axis].negated(), di))
    &&& !Single(FLAT).below(di) && !di.below(Single(FLAT).negated()) ==> value(di) == 0real
}

/// Along one axis a ray that starts in the room is in the room as long as it has not
/// come to the wall ahead, and there it is at that wall.
proof fn lemma_ahead(f: Calc, room: Shoebox, p: Point, d: Point, axis: int, t: real)
    requires
        0 <= axis < 3,
        room.holds(p),
        exact_ahead(f, room.size, p, d, axis),
        t >= 0real,
    ensures
        wall_ahead(f, room.size, p, d, axis) matches Some(h) ==> {
            let at = value(p@[axis]) + t * value(d@[axis]);
            &&& h.0.is_finite()
            &&& h.1 as int / 2 == axis
            &&& t <= value(h.0) ==> 0real <= at <= value(room.size@[axis])
            &&& t == value(h.0) && h.1 % 2 == 0 ==> at == 0real
            &&& t == value(h.0) && h.1 % 2 == 1 ==> at == value(room.size@[axis])
        },
        wall_ahead(f, room.size, p, d, axis) is None ==> {
            let at = value(p@[axis]) + t * value(d@[axis]);
            0real <= at <= value(room.size@[axis])
        },
{
    let (x, di, s) = (p@[axis], d@[axis], room.size@[axis]);
    lemma_one();
    assert(Single(0).num() == 0);
    lemma_order(Single(0), x);
    lemma_order(x, s);
    lemma_grid_increases(0, FLAT as nat);
    lemma_order(Single(0), Single(FLAT));
    lemma_negated(Single(FLAT));
    lemma_negated(x);
    lemma_order(Single(FLAT), di);
    lemma_order(di, Single(FLAT).negated());
    let (xv, v, sv) = (value(x), value(di), value(s));
    if Single(FLAT).below(di) {
        let q = value(quot(f, diff(f, s, x), di));
        assert(q * v == sv - xv);
        assert(t * v >= 0real) by (nonlinear_arith)
            requires
                t >= 0real,
                v > 0real,
        ;
        if t <= q {
            assert(t * v <= q * v) by (nonlinear_arith)
                requires
                    t <= q,
                    v > 0real,
            ;
        }
    } else if di.below(Single(FLAT).negated()) {
        let q = value(quot(f, x.negated(), di));
        assert(q * v == -xv);
        assert(t * v <= 0real) by (nonlinear_arith)
            requires
                t >= 0real,
                v < 0real,
        ;
        if t <= q {
            assert(t * v >= q * v) by (nonlinear_arith)
                requires
                    t <= q,
                    v < 0real,
            ;
        }
    } else {
        assert(t * 0real == 0real);
    }
}

proof fn lemma_nearest_wall(f: Calc, room: Shoebox, p: Point, d: Point, n: int)
    requires
        0 <= n <= 3,
        room.holds(p),
        forall|a: int| 0 <= a < 3 ==> #[trigger] exact_ahead(f, room.size, p, d, a),
    ensures
        ({
            let (t, wall) = nearest_wall(f, room.size, p, d, n);
            &&& t.is_finite()
            &&& value(t) <= value(Single(FARTHEST))
            &&& value(t) < value(Single(FARTHEST)) ==> 0 <= wall as int / 2 < n && wall_ahead(
                f,
                room.size,
                p,
                d,
                wall as int / 2,
            ) == Some((t, wall))
            &&& forall|a: int|
                0 <= a < n ==> (#[trigger] wall_ahead(f, room.size, p, d, a) matches Some(h) ==> value(t)
                    <= value(h.0))
        }),
    decreases n,
{
    if n > 0 {
        lemma_nearest_wall(f, room, p, d, n - 1);
        let before = nearest_wall(f, room.size, p, d, n - 1);
        let here = wall_ahead(f, room.size, p, d, n - 1);
        assert(exact_ahead(f, room.size, p, d, n - 1));
        lemma_ahead(f, room, p, d, n - 1, 0real);
        if here is Some {
            let h = here->0;
            lemma_order(h.0, before.0);
        }
    }
}

/// In exact arithmetic a ray from inside a room meets the wall that it reaches first:
/// where it is then, it is on that wall and within the room, the material is that
/// wall's, and the normal points back inside.
pub proof fn a_ray_meets_the_wall_it_reaches_first(
    f: Calc,
    room: Shoebox,
    p: Point,
    d: Point,
    h: GeomHit,
)
    requires
        room.hit(f, p, d) == Some(h),
        value(h.t) < value(Single(FARTHEST)),
        forall|a: int| 0 <= a < 3 ==> #[trigger] exact_ahead(f, room.size, p, d, a),
    ensures
        ({
            let t = value(h.t);
            &&& t > 0real
            &&& forall|a: int|
                0 <= a < 3 ==> 0real <= value(#[trigger] p@[a]) + t * value(d@[a]) <= value(room.size@[a])
            &&& exists|wall: int|
                {
                    let a = wall / 2;
                    &&& 0 <= wall < 6
                    &&& h.material == #[trigger] room.walls@[wall]
                    &&& value(p@[a]) + t * value(d@[a]) == (if wall % 2 == 0 {
                        0real
                    } else {
                        value(room.size@[a])
                    })
                    &&& value(h.normal@[a]) == (if wall % 2 == 0 {
                        1real
                    } else {
                        -1real
                    })
                }
        }),
{
    lemma_one();
    crate::exact::lemma_minus_one();
    let (t, wall) = nearest_wall(f, room.size, p, d, 3);
    lemma_nearest_wall(f, room, p, d, 3);
    assert(Single(0).num() == 0);
    lemma_order(t, Single(0));
    let a = wall as int / 2;
    assert(exact_ahead(f, room.size, p, d, a));
    lemma_ahead(f, room, p, d, a, value(t));
    assert(h.material == room.walls@[wall as int]);
    assert forall|b: int| 0 <= b < 3 implies 0real <= value(#[trigger] p@[b]) + value(t) * value(d@[b])
        <= value(room.size@[b]) by {
        assert(exact_ahead(f, room.size, p, d, b));
        lemma_ahead(f, room, p, d, b, value(t));
        assert(wall_ahead(f, room.size, p, d, b) matches Some(g) ==> value(t) <= value(g.0));
    }
}

/// The way through a box along one axis is worked out exactly, and a segment that hardly
/// moves along it does not move at all.
pub open spec fn exact_slab(f: Calc, p: Point, d: Point, lo: Point, hi: Point, a: int) -> bool {
    &&& lo@[a].is_finite() && hi@[a].is_finite() && p@[a].is_finite() && d@[a].is_finite()
    &&& value(lo@[a]) <= value(hi@[a])
    &&& Single(d@[a].magnitude() as u32).below(Single(FLAT)) ==> value(d@[a]) == 0real
    &&& !Single(d@[a].magnitude() as u32).below(Single(FLAT)) ==> {
        &&& is_exact(f, Op::Minus(lo@[a], p@[a]))
        &&& is_exact(f, Op::Minus(hi@[a], p@[a]))
        &&& is_exact(f, Op::Over(diff(f, lo@[a], p@[a]), d@[a]))
        &&& is_exact(f, Op::Over(diff(f, hi@[a], p@[a]), d@[a]))
    }
}

/// Along one axis, the point a share `t` of the way lies between the sides.
pub open spec fn is_between(p: Point, d: Point, lo: Point, hi: Point, a: int, t: real) -> bool {
    value(lo@[a]) <= value(p@[a]) + t * value(d@[a]) <= value(hi@[a])
}

proof fn lemma_within_sides(l: real, h: real, p: real, d: real, x: real, y: real, t: real)
    requires
        l <= h,
        d != 0real,
        x * d == l - p,
        y * d == h - p,
    ensures
        d > 0real ==> x <= y && (l <= p + t * d <= h <==> x <= t <= y),
        d < 0real ==> y <= x && (l <= p + t * d <= h <==> y <= t <= x),
{
    if d > 0real {
        assert(x <= y) by (nonlinear_arith)
            requires
                x * d <= y * d,
                d > 0real,
        ;
        assert((x <= t <==> x * d <= t * d) && (t <= y <==> t * d <= y * d)) by (nonlinear_arith)
            requires
                d > 0real,
        ;
    } else {
        assert(y <= x) by (nonlinear_arith)
            requires
                x * d <= y * d,
                d < 0real,
        ;
        assert((t <= x <==> x * d <= t * d) && (y <= t <==> t * d <= y * d)) by (nonlinear_arith)
            requires
                d < 0real,
        ;
    }
}

proof fn lemma_across(f: Calc, p: Point, d: Point, lo: Point, hi: Point, a: int, s: Slab, t: real)
    requires
        0 <= a < 3,
        !s.missed,
        s.t0.is_finite(),
        s.t1.is_finite(),
        exact_slab(f, p, d, lo, hi, a),
    ensures
        ({
            let r = s.across(f, p, d, lo, hi, a);
            &&& !r.missed ==> r.t0.is_finite() && r.t1.is_finite()
            &&& (value(s.t0) <= t <= value(s.t1) && is_between(p, d, lo, hi, a, t)) <==> (!r.missed && value(
                r.t0,
            ) <= t <= value(r.t1))
            &&& !r.missed && value(s.t0) <= value(s.t1) ==> value(r.t0) <= value(r.t1)
        }),
{
    lemma_order(p@[a], lo@[a]);
    lemma_order(hi@[a], p@[a]);
    lemma_size(d@[a]);
    assert(t * 0real == 0real);
    if !Single(d@[a].magnitude() as u32).below(Single(FLAT)) {
        let x = quot(f, diff(f, lo@[a], p@[a]), d@[a]);
        let y = quot(f, diff(f, hi@[a], p@[a]), d@[a]);
        lemma_within_sides(
            value(lo@[a]),
            value(hi@[a]),
            value(p@[a]),
            value(d@[a]),
            value(x),
            value(y),
            t,
        );
        lemma_order(y, x);
        let ta = if y.below(x) {
            y
        } else {
            x
        };
        let tb = if y.below(x) {
            x
        } else {
            y
        };
        lemma_order(s.t0, ta);
        lemma_order(tb, s.t1);
        lemma_order(s.t1, tb);
        let t0 = if s.t0.below(ta) {
            ta
        } else {
            s.t0
        };
        let t1 = if tb.below(s.t1) {
            tb
        } else {
            s.t1
        };
        lemma_order(t1, t0);
    }
}

/// The point a share `t` of the way from `a` to `b` lies in the box.
pub open spec fn lies_in(f: Calc, x: Aabb, a: Point, b: Point, t: real) -> bool {
    let d = vdiff(f, b, a);
    &&& 0real <= t <= 1real
    &&& is_between(a, d, x.min, x.max, 0, t)
    &&& is_between(a, d, x.min, x.max, 1, t)
    &&& is_between(a, d, x.min, x.max, 2, t)
}

proof fn lemma_crossed(f: Calc, x: Aabb, a: Point, b: Point, t: real)
    requires
        forall|i: int| 0 <= i < 3 ==> #[trigger] exact_slab(f, a, vdiff(f, b, a), x.min, x.max, i),
    ensures
        lies_in(f, x, a, b, t) ==> x.is_crossed(f, a, b),
        ({
            let d = vdiff(f, b, a);
            let s = Slab { t0: Single(0), t1: Single(ONE), axis: 3, missed: false };
            let r = slab_test(f, a, d, x.min, x.max, s);
            &&& !r.missed ==> value(r.t0) <= value(r.t1)
            &&& !r.missed && t == value(r.t0) ==> lies_in(f, x, a, b, t)
        }),
{
    lemma_one();
    crate::exact::lemma_one_num();
    let d = vdiff(f, b, a);
    let s = Slab { t0: Single(0), t1: Single(ONE), axis: 3, missed: false };
    assert(exact_slab(f, a, d, x.min, x.max, 0));
    assert(exact_slab(f, a, d, x.min, x.max, 1));
    assert(exact_slab(f, a, d, x.min, x.max, 2));
    lemma_across(f, a, d, x.min, x.max, 0, s, t);
    let s0 = s.across(f, a, d, x.min, x.max, 0);
    if !s0.missed {
        lemma_across(f, a, d, x.min, x.max, 1, s0, t);
        let s1 = s0.across(f, a, d, x.min, x.max, 1);
        if !s1.missed {
            lemma_across(f, a, d, x.min, x.max, 2, s1, t);
        }
    }
}

/// In exact arithmetic a segment crosses a box exactly where some point of it lies in
/// the box.
pub proof fn a_segment_crosses_a_box_where_it_meets_it(f: Calc, x: Aabb, a: Point, b: Point)
    requires
        forall|i: int| 0 <= i < 3 ==> #[trigger] exact_slab(f, a, vdiff(f, b, a), x.min, x.max, i),
    ensures
        x.is_crossed(f, a, b) <==> exists|t: real| #[trigger] lies_in(f, x, a, b, t),
{
    let d = vdiff(f, b, a);
    let s = Slab { t0: Single(0), t1: Single(ONE), axis: 3, missed: false };
    let r = slab_test(f, a, d, x.min, x.max, s);
    lemma_crossed(f, x, a, b, value(r.t0));
    if x.is_crossed(f, a, b) {
        assert(lies_in(f, x, a, b, value(r.t0)));
    }
    if exists|t: real| #[trigger] lies_in(f, x, a, b, t) {
        let t = choose|t: real| #[trigger] lies_in(f, x, a, b, t);
        lemma_crossed(f, x, a, b, t);
    }
}

} // verus!
