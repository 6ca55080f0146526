//! What is left of sound behind walls and mirrors: every wall along a segment takes
//! its share by its depth there, and a path over mirrors comes from the image of its
//! source.

use crate::arith::{diff, prod, quot, Calc, Op};
use crate::exact::{
    inner, is_exact_as, lemma_is, lemma_one, lemma_two, value, vector_as, Reading, Vector,
};
use crate::geom::{along, dot, norm, vdiff, TWO};
use crate::material::{
    spread_over, thinned, Material, LEAKY, MIN_DIST, REF_THICKNESS_M, SPEED_OF_SOUND, THIN,
    THIN_GAIN,
};
use crate::mesh::{Point, SegHit};
use crate::losses::air_decay;
use crate::params::ONE;
use crate::pt::Stand;
use crate::paths::{thickness, transmitted, wall_span, Wall, WallSpan, P_0_01, P_0_1};
use crate::pt_mesh::{
    bounced, image_in, in_surface, is_mirror_itself, mesh_recorded, paid, past_crossings,
    past_extras, past_leg, arrived, full, sight, surf_leg, walked, Aabb, Leg, Surface, Way, World,
};
use crate::rays::{exact_along, exact_inner, moved};
use crate::single::Single;
use vstd::arithmetic::power2::lemma2_to64;
use vstd::prelude::*;

verus! {

/// How deep a wall is along a segment of a length: from where it is entered to where
/// it is left; ten centimetres where only one side is crossed.
pub open spec fn depth(val: Reading, span: WallSpan, len: Single) -> real {
    match span.exit {
        Some(exit) => (val(exit) - val(span.enter)) * val(len),
        None => val(Single(P_0_1)),
    }
}

/// A wall passes between the caps, and what it passes is worked out exactly, as read.
pub open spec fn exact_wall(val: Reading, f: Calc, m: Material, span: WallSpan, len: Single, b: int) -> bool {
    let t = thickness(f, span, len);
    let k = quot(f, Single(REF_THICKNESS_M), t);
    let p = prod(f, m.transmission@[b], k);
    &&& span.exit matches Some(exit) ==> {
        let share = diff(f, exit, span.enter);
        &&& is_exact_as(val, f, Op::Minus(exit, span.enter))
        &&& is_exact_as(val, f, Op::Times(share, len))
        &&& Single(P_0_01).at_most(prod(f, share, len))
    }
    &&& !t.below(Single(THIN)) && !t.is_nan()
    &&& is_exact_as(val, f, Op::Over(Single(REF_THICKNESS_M), t))
    &&& !Single(THIN_GAIN).below(k) && !k.is_nan()
    &&& is_exact_as(val, f, Op::Times(m.transmission@[b], k))
    &&& !Single(LEAKY).below(p) && !p.is_nan()
}

/// In exact arithmetic what a wall passes along a segment, times its depth there, is
/// what its material passes at the reference thickness, times that.
pub proof fn a_wall_passes_by_its_depth(
    val: Reading,
    f: Calc,
    m: Material,
    span: WallSpan,
    len: Single,
    b: int,
)
    requires
        0 <= b < 3,
        exact_wall(val, f, m, span, len, b),
    ensures
        val(m.passing(f, thickness(f, span, len))@[b]) * depth(val, span, len) == val(
            m.transmission@[b],
        ) * val(Single(REF_THICKNESS_M)),
{
    let t = thickness(f, span, len);
    let k = quot(f, Single(REF_THICKNESS_M), t);
    let p = prod(f, m.transmission@[b], k);
    assert(val(t) == depth(val, span, len));
    assert(thinned(f, m.transmission@[b], t) == p);
    assert(m.passing(f, t)@[b] == p);
    let (g, x, d) = (val(m.transmission@[b]), val(k), val(t));
    assert((g * x) * d == g * (x * d)) by (nonlinear_arith);
}

/// What the first `n` walls pass of a band, all together.
pub open spec fn all_pass(
    val: Reading,
    f: Calc,
    materials: Seq<Material>,
    hits: Seq<SegHit>,
    walls: Seq<Wall>,
    len: Single,
    b: int,
    n: int,
) -> real
    decreases n,
{
    if n <= 0 {
        1real
    } else {
        let span = wall_span(hits, walls[n - 1]);
        all_pass(val, f, materials, hits, walls, len, b, n - 1) * (val(
            materials[span.material as int].transmission@[b],
        ) * val(Single(REF_THICKNESS_M)) / depth(val, span, len))
    }
}

/// In exact arithmetic what gets along a segment is the product of what its walls
/// pass, each by its own depth: none is forgotten, and air between them takes nothing.
pub proof fn every_wall_takes_its_share(
    val: Reading,
    f: Calc,
    materials: Seq<Material>,
    hits: Seq<SegHit>,
    walls: Seq<Wall>,
    len: Single,
    b: int,
    n: int,
)
    requires
        0 <= b < 3,
        val(Single(ONE)) == value(Single(ONE)),
        forall|i: int|
            0 <= i < n ==> {
                let span = wall_span(hits, #[trigger] walls[i]);
                let m = materials[span.material as int];
                &&& exact_wall(val, f, m, span, len, b)
                &&& depth(val, span, len) != 0real
                &&& is_exact_as(
                    val,
                    f,
                    Op::Times(
                        transmitted(f, materials, hits, walls, len, i)@[b],
                        m.passing(f, thickness(f, span, len))@[b],
                    ),
                )
            },
    ensures
        val(transmitted(f, materials, hits, walls, len, n)@[b]) == all_pass(
            val,
            f,
            materials,
            hits,
            walls,
            len,
            b,
            n,
        ),
    decreases n,
{
    lemma_one();
    if n > 0 {
        every_wall_takes_its_share(val, f, materials, hits, walls, len, b, n - 1);
        let w = walls[n - 1];
        let span = wall_span(hits, w);
        let m = materials[span.material as int];
        a_wall_passes_by_its_depth(val, f, m, span, len, b);
        let p = val(m.passing(f, thickness(f, span, len))@[b]);
        let (d, q) = (
            depth(val, span, len),
            val(m.transmission@[b]) * val(Single(REF_THICKNESS_M)),
        );
        assert(p == q / d) by (nonlinear_arith)
            requires
                p * d == q,
                d != 0real,
        ;
    }
}

/// How far in front of a surface a point lies.
pub open spec fn height(val: Reading, s: Surface, p: Vector) -> real {
    inner(vector_as(val, s.n), p) - val(s.d)
}

proof fn lemma_height_moved(n: Vector, p: Vector, d: Vector, k: real)
    ensures
        inner(n, moved(p, d, k)) == inner(n, p) + k * inner(n, d),
{
    assert(n.0 * (p.0 + d.0 * k) == n.0 * p.0 + k * (n.0 * d.0)) by (nonlinear_arith);
    assert(n.1 * (p.1 + d.1 * k) == n.1 * p.1 + k * (n.1 * d.1)) by (nonlinear_arith);
    assert(n.2 * (p.2 + d.2 * k) == n.2 * p.2 + k * (n.2 * d.2)) by (nonlinear_arith);
    let (x, y, z) = (n.0 * d.0, n.1 * d.1, n.2 * d.2);
    assert(k * (x + y + z) == k * x + k * y + k * z) by (nonlinear_arith);
}

/// A point mirrored in a surface is worked out exactly, as read.
pub open spec fn exact_in_surface(val: Reading, f: Calc, p: Point, s: Surface) -> bool {
    let h = diff(f, dot(f, s.n, p), s.d);
    let k = prod(f, Single(TWO), h);
    &&& val(Single(TWO)) == value(Single(TWO))
    &&& exact_inner(val, f, s.n, p)
    &&& is_exact_as(val, f, Op::Minus(dot(f, s.n, p), s.d))
    &&& is_exact_as(val, f, Op::Times(Single(TWO), h))
    &&& forall|i: int|
        0 <= i < 3 ==> {
            &&& is_exact_as(val, f, Op::Times(#[trigger] s.n@[i], k))
            &&& is_exact_as(val, f, Op::Minus(p@[i], prod(f, s.n@[i], k)))
        }
}

/// In exact arithmetic a point and its image in a surface lie on one line across it,
/// equally far from it on either side.
pub proof fn an_image_lies_behind_its_mirror(val: Reading, f: Calc, p: Point, s: Surface)
    requires
        inner(vector_as(val, s.n), vector_as(val, s.n)) == 1real,
        exact_in_surface(val, f, p, s),
    ensures
        ({
            let (a, b, n) = (
                vector_as(val, p),
                vector_as(val, in_surface(f, p, s)),
                vector_as(val, s.n),
            );
            &&& height(val, s, b) == -height(val, s, a)
            &&& b == moved(a, n, -(2real * height(val, s, a)))
        }),
{
    lemma_two();
    let h = diff(f, dot(f, s.n, p), s.d);
    let k = prod(f, Single(TWO), h);
    let (a, b, n) = (vector_as(val, p), vector_as(val, in_surface(f, p, s)), vector_as(val, s.n));
    assert(is_exact_as(val, f, Op::Times(s.n@[0], k)));
    assert(is_exact_as(val, f, Op::Times(s.n@[1], k)));
    assert(is_exact_as(val, f, Op::Times(s.n@[2], k)));
    let q = 2real * height(val, s, a);
    assert(val(k) == q);
    assert(n.0 * (-q) == -(n.0 * q)) by (nonlinear_arith);
    assert(n.1 * (-q) == -(n.1 * q)) by (nonlinear_arith);
    assert(n.2 * (-q) == -(n.2 * q)) by (nonlinear_arith);
    assert(b == moved(a, n, -q));
    lemma_height_moved(n, a, n, -q);
}

/// The way to a surface is worked out exactly, as read.
pub open spec fn exact_surf_leg(val: Reading, f: Calc, at: Stand, s: Surface) -> bool {
    let top = diff(f, s.d, dot(f, s.n, at.pos));
    let leg = surf_leg(f, at, s);
    let k = prod(f, Single(TWO), leg.denom);
    &&& val(Single(TWO)) == value(Single(TWO))
    &&& exact_inner(val, f, s.n, at.d)
    &&& exact_inner(val, f, s.n, at.pos)
    &&& is_exact_as(val, f, Op::Minus(s.d, dot(f, s.n, at.pos)))
    &&& is_exact_as(val, f, Op::Over(top, leg.denom))
    &&& exact_along(val, f, at.pos, at.d, leg.t)
    &&& is_exact_as(val, f, Op::Times(Single(TWO), leg.denom))
    &&& forall|i: int|
        0 <= i < 3 ==> {
            &&& is_exact_as(val, f, Op::Times(#[trigger] s.n@[i], k))
            &&& is_exact_as(val, f, Op::Minus(at.d@[i], prod(f, s.n@[i], k)))
        }
}

proof fn lemma_turned(n: Vector, d: Vector, k: real)
    requires
        inner(n, n) == 1real,
        k == -(2real * inner(n, d)),
    ensures
        inner(n, moved(d, n, k)) == -inner(n, d),
        inner(moved(d, n, k), moved(d, n, k)) == inner(d, d),
{
    lemma_height_moved(n, d, n, k);
    let r = moved(d, n, k);
    let p = inner(n, d);
    let (a, b, c) = (n.0, n.1, n.2);
    let kk = k * k;
    assert((d.0 + a * k) * (d.0 + a * k) == d.0 * d.0 + (2real * k) * (a * d.0) + kk * (a * a))
        by (nonlinear_arith)
        requires
            kk == k * k,
    ;
    assert((d.1 + b * k) * (d.1 + b * k) == d.1 * d.1 + (2real * k) * (b * d.1) + kk * (b * b))
        by (nonlinear_arith)
        requires
            kk == k * k,
    ;
    assert((d.2 + c * k) * (d.2 + c * k) == d.2 * d.2 + (2real * k) * (c * d.2) + kk * (c * c))
        by (nonlinear_arith)
        requires
            kk == k * k,
    ;
    let (x, y, z) = (a * a, b * b, c * c);
    let (l, m, o) = (a * d.0, b * d.1, c * d.2);
    let kt = 2real * k;
    assert(kk * (x + y + z) == kk * x + kk * y + kk * z) by (nonlinear_arith);
    assert(kt * (l + m + o) == kt * l + kt * m + kt * o) by (nonlinear_arith);
    assert(kk * 1real == -(kt * p)) by (nonlinear_arith)
        requires
            kk == k * k,
            kt == 2real * k,
            k == -(2real * p),
    ;
}

/// In exact arithmetic a walk that meets a surface does so on its plane, straight
/// ahead, and goes on as a mirror has it: the other way across the plane, and as fast.
pub proof fn a_walk_turns_at_its_mirror(val: Reading, f: Calc, at: Stand, s: Surface)
    requires
        inner(vector_as(val, s.n), vector_as(val, s.n)) == 1real,
        exact_surf_leg(val, f, at, s),
    ensures
        ({
            let leg = surf_leg(f, at, s);
            let (n, d, r) = (
                vector_as(val, s.n),
                vector_as(val, at.d),
                vector_as(val, leg.turned),
            );
            let hit = vector_as(val, leg.hit);
            &&& height(val, s, hit) == 0real
            &&& hit == moved(vector_as(val, at.pos), d, val(leg.t))
            &&& inner(n, r) == -inner(n, d)
            &&& inner(r, r) == inner(d, d)
        }),
{
    lemma_two();
    let leg = surf_leg(f, at, s);
    let k = prod(f, Single(TWO), leg.denom);
    let (n, d, p) = (vector_as(val, s.n), vector_as(val, at.d), vector_as(val, at.pos));
    crate::rays::lemma_along(val, f, at.pos, at.d, leg.t);
    assert(val(leg.denom) == inner(n, d));
    assert(val(leg.t) * inner(n, d) == val(s.d) - inner(n, p));
    lemma_height_moved(n, p, d, val(leg.t));
    assert(is_exact_as(val, f, Op::Times(s.n@[0], k)));
    assert(is_exact_as(val, f, Op::Times(s.n@[1], k)));
    assert(is_exact_as(val, f, Op::Times(s.n@[2], k)));
    let q = 2real * inner(n, d);
    assert(n.0 * (-q) == -(n.0 * q)) by (nonlinear_arith);
    assert(n.1 * (-q) == -(n.1 * q)) by (nonlinear_arith);
    assert(n.2 * (-q) == -(n.2 * q)) by (nonlinear_arith);
    assert(vector_as(val, leg.turned) == moved(d, n, -q));
    lemma_turned(n, d, -q);
}

/// What a surface that is crossed leaves of a band: nothing is taken by the mirror at
/// the end of the leg itself.
pub open spec fn left_by_crossings(
    val: Reading,
    f: Calc,
    w: World,
    skip: Option<u16>,
    leg: Leg,
    hits: Seq<SegHit>,
    b: int,
    n: int,
) -> real
    decreases n,
{
    if n <= 0 {
        1real
    } else {
        left_by_crossings(val, f, w, skip, leg, hits, b, n - 1) * (if is_mirror_itself(
            f,
            w,
            skip,
            leg,
            hits[n - 1],
        ) {
            1real
        } else {
            val(w.mesh.parts.materials@[hits[n - 1].material as int].transmission@[b])
        })
    }
}

/// What the first `n` blockers leave of a band on a leg.
pub open spec fn left_by_extras(
    val: Reading,
    f: Calc,
    extras: Seq<Aabb>,
    leg: Leg,
    b: int,
    n: int,
) -> real
    decreases n,
{
    if n <= 0 {
        1real
    } else {
        left_by_extras(val, f, extras, leg, b, n - 1) * (if extras[n - 1].is_crossed(f, leg.a, leg.b) {
            val(extras[n - 1].transmission@[b])
        } else {
            1real
        })
    }
}

/// One band of what is left.
pub open spec fn band_of(g: Option<[Single; 3]>, b: int) -> Single {
    g->0@[b]
}

/// What a leg takes is worked out exactly, as read, in one band.
pub open spec fn exact_leg(
    val: Reading,
    f: Calc,
    w: World,
    skip: Option<u16>,
    leg: Leg,
    start: [Single; 3],
    b: int,
) -> bool {
    let hits = w.mesh.crossed(f, leg.a, leg.b);
    let met = past_crossings(f, w, skip, leg, hits, start, hits.len() as int);
    &&& forall|i: int|
        0 <= i < hits.len() ==> is_exact_as(
            val,
            f,
            Op::Times(
                band_of(past_crossings(f, w, skip, leg, hits, start, i), b),
                w.mesh.parts.materials@[(#[trigger] hits[i]).material as int].transmission@[b],
            ),
        )
    &&& forall|i: int|
        0 <= i < w.extras@.len() ==> is_exact_as(
            val,
            f,
            Op::Times(
                band_of(past_extras(f, w.extras@, leg, met, i), b),
                (#[trigger] w.extras@[i]).transmission@[b],
            ),
        )
}

proof fn lemma_crossings(
    val: Reading,
    f: Calc,
    w: World,
    skip: Option<u16>,
    leg: Leg,
    start: [Single; 3],
    b: int,
    n: int,
)
    requires
        0 <= b < 3,
        exact_leg(val, f, w, skip, leg, start, b),
        n <= w.mesh.crossed(f, leg.a, leg.b).len(),
    ensures
        ({
            let hits = w.mesh.crossed(f, leg.a, leg.b);
            let r = past_crossings(f, w, skip, leg, hits, start, n);
            r is Some ==> val(band_of(r, b)) == val(start@[b]) * left_by_crossings(
                val,
                f,
                w,
                skip,
                leg,
                hits,
                b,
                n,
            )
        }),
    decreases n,
{
    let hits = w.mesh.crossed(f, leg.a, leg.b);
    let s = val(start@[b]);
    if n <= 0 {
        assert(s * 1real == s);
    } else {
        lemma_crossings(val, f, w, skip, leg, start, b, n - 1);
        let before = past_crossings(f, w, skip, leg, hits, start, n - 1);
        let q = left_by_crossings(val, f, w, skip, leg, hits, b, n - 1);
        let tr = w.mesh.parts.materials@[hits[n - 1].material as int].transmission;
        assert(is_exact_as(val, f, Op::Times(band_of(before, b), tr@[b])));
        if is_mirror_itself(f, w, skip, leg, hits[n - 1]) {
            assert(q * 1real == q);
        } else if paid(f, before, tr) is Some {
            let t = val(tr@[b]);
            assert(band_of(paid(f, before, tr), b) == prod(f, band_of(before, b), tr@[b]));
            assert((s * q) * t == s * (q * t)) by (nonlinear_arith);
        }
    }
}

proof fn lemma_extras(
    val: Reading,
    f: Calc,
    w: World,
    skip: Option<u16>,
    leg: Leg,
    start: [Single; 3],
    b: int,
    n: int,
)
    requires
        0 <= b < 3,
        exact_leg(val, f, w, skip, leg, start, b),
        n <= w.extras@.len(),
    ensures
        ({
            let hits = w.mesh.crossed(f, leg.a, leg.b);
            let met = past_crossings(f, w, skip, leg, hits, start, hits.len() as int);
            let r = past_extras(f, w.extras@, leg, met, n);
            r is Some ==> met is Some && val(band_of(r, b)) == val(band_of(met, b)) * left_by_extras(
                val,
                f,
                w.extras@,
                leg,
                b,
                n,
            )
        }),
    decreases n,
{
    let hits = w.mesh.crossed(f, leg.a, leg.b);
    let met = past_crossings(f, w, skip, leg, hits, start, hits.len() as int);
    let s = val(band_of(met, b));
    if n <= 0 {
        assert(s * 1real == s);
    } else {
        lemma_extras(val, f, w, skip, leg, start, b, n - 1);
        let before = past_extras(f, w.extras@, leg, met, n - 1);
        let q = left_by_extras(val, f, w.extras@, leg, b, n - 1);
        let x = w.extras@[n - 1];
        assert(is_exact_as(val, f, Op::Times(band_of(before, b), x.transmission@[b])));
        if !x.is_crossed(f, leg.a, leg.b) {
            assert(q * 1real == q);
        } else if paid(f, before, x.transmission) is Some {
            let t = val(x.transmission@[b]);
            assert(band_of(paid(f, before, x.transmission), b) == prod(
                f,
                band_of(before, b),
                x.transmission@[b],
            ));
            assert((s * q) * t == s * (q * t)) by (nonlinear_arith);
        }
    }
}

/// In exact arithmetic what is left behind a leg is what was there, times what every
/// surface that it crosses and every blocker that it passes through lets through.
pub proof fn a_leg_pays_for_all_it_crosses(
    val: Reading,
    f: Calc,
    w: World,
    skip: Option<u16>,
    leg: Leg,
    start: [Single; 3],
    b: int,
)
    requires
        0 <= b < 3,
        exact_leg(val, f, w, skip, leg, start, b),
    ensures
        past_leg(f, w, skip, leg, start) matches Some(g) ==> {
            let hits = w.mesh.crossed(f, leg.a, leg.b);
            val(g@[b]) == (val(start@[b]) * left_by_crossings(
                val,
                f,
                w,
                skip,
                leg,
                hits,
                b,
                hits.len() as int,
            )) * left_by_extras(val, f, w.extras@, leg, b, w.extras@.len() as int)
        },
{
    let hits = w.mesh.crossed(f, leg.a, leg.b);
    lemma_crossings(val, f, w, skip, leg, start, b, hits.len() as int);
    lemma_extras(val, f, w, skip, leg, start, b, w.extras@.len() as int);
}

/// In exact arithmetic a bounce leaves of a band what the leg to the mirror left, as
/// far as the mirror reflects it.
pub proof fn a_mirror_takes_its_share(val: Reading, f: Calc, w: World, way: Way, sid: u16, b: int)
    requires
        0 <= b < 3,
        ({
            let s = w.table.surfaces@[sid as int];
            let hit = surf_leg(f, way.at, s).hit;
            let g = past_leg(f, w, Some(sid), Leg { a: way.at.pos, b: hit }, way.g);
            is_exact_as(val, f, Op::Times(band_of(g, b), s.refl@[b]))
        }),
    ensures
        bounced(f, w, way, sid) matches Some(next) ==> {
            let s = w.table.surfaces@[sid as int];
            let leg = Leg { a: way.at.pos, b: surf_leg(f, way.at, s).hit };
            &&& past_leg(f, w, Some(sid), leg, way.g) is Some
            &&& val(next.g@[b]) == val(band_of(past_leg(f, w, Some(sid), leg, way.g), b)) * val(
                s.refl@[b],
            )
        },
{
}

/// A record comes from the image of its source: in exact arithmetic its delay, times
/// the speed of sound, is how far the image lies from the listener, its direction is
/// of length one, and that far along it lies the image.
pub proof fn a_record_comes_from_its_image(
    val: Reading,
    f: Calc,
    w: World,
    chain: Seq<u16>,
    source: u16,
    src_pos: Point,
    listener: Point,
)
    requires
        val(Single(ONE)) == value(Single(ONE)),
        val(Single(SPEED_OF_SOUND)) == value(Single(SPEED_OF_SOUND)),
        image_in(f, w.table.surfaces@, src_pos, chain) matches Some(img) ==> {
            let to = vdiff(f, img, listener);
            let dist = norm(f, to);
            let k = quot(f, Single(ONE), dist);
            &&& forall|i: int| 0 <= i < 3 ==> is_exact_as(val, f, Op::Minus(#[trigger] img@[i], listener@[i]))
            &&& exact_inner(val, f, to, to)
            &&& is_exact_as(val, f, Op::Root(dot(f, to, to)))
            &&& is_exact_as(val, f, Op::Over(Single(ONE), dist))
            &&& forall|i: int| 0 <= i < 3 ==> is_exact_as(val, f, Op::Times(#[trigger] to@[i], k))
            &&& is_exact_as(val, f, Op::Over(dist, Single(SPEED_OF_SOUND)))
        },
    ensures
        mesh_recorded(f, w, chain, source, src_pos, listener) matches Some(r) ==> {
            let img = image_in(f, w.table.surfaces@, src_pos, chain)->0;
            let d = val(r.delay_s) * 343real;
            let u = vector_as(val, r.dir);
            &&& d >= 0real
            &&& inner(u, u) == 1real
            &&& vector_as(val, img) == moved(vector_as(val, listener), u, d)
            &&& r.order == chain.len() as u8
            &&& r.source == source
        },
{
    lemma_one();
    lemma2_to64();
    lemma_is(SPEED_OF_SOUND, 135, 0x2B_8000, 343real);
    if mesh_recorded(f, w, chain, source, src_pos, listener) is Some {
        let r = mesh_recorded(f, w, chain, source, src_pos, listener)->0;
        let img = image_in(f, w.table.surfaces@, src_pos, chain)->0;
        let to = vdiff(f, img, listener);
        let dist = norm(f, to);
        let k = quot(f, Single(ONE), dist);
        assert(is_exact_as(val, f, Op::Minus(img@[0], listener@[0])));
        assert(is_exact_as(val, f, Op::Minus(img@[1], listener@[1])));
        assert(is_exact_as(val, f, Op::Minus(img@[2], listener@[2])));
        assert(is_exact_as(val, f, Op::Times(to@[0], k)));
        assert(is_exact_as(val, f, Op::Times(to@[1], k)));
        assert(is_exact_as(val, f, Op::Times(to@[2], k)));
        assert(r.dir == sight(f, img, listener).1);
        let (u, t) = (vector_as(val, r.dir), vector_as(val, to));
        let (d, q) = (val(dist), val(k));
        assert(q * d == 1real);
        assert(val(r.delay_s) * 343real == d);
        assert(d * d == inner(t, t));
        assert((t.0 * q) * d == t.0 * (q * d)) by (nonlinear_arith);
        assert((t.1 * q) * d == t.1 * (q * d)) by (nonlinear_arith);
        assert((t.2 * q) * d == t.2 * (q * d)) by (nonlinear_arith);
        assert(t.0 * 1real == t.0 && t.1 * 1real == t.1 && t.2 * 1real == t.2);
        let qq = q * q;
        assert((t.0 * q) * (t.0 * q) == qq * (t.0 * t.0)) by (nonlinear_arith)
            requires
                qq == q * q,
        ;
        assert((t.1 * q) * (t.1 * q) == qq * (t.1 * t.1)) by (nonlinear_arith)
            requires
                qq == q * q,
        ;
        assert((t.2 * q) * (t.2 * q) == qq * (t.2 * t.2)) by (nonlinear_arith)
            requires
                qq == q * q,
        ;
        let (x, y, z) = (t.0 * t.0, t.1 * t.1, t.2 * t.2);
        assert(qq * (x + y + z) == qq * x + qq * y + qq * z) by (nonlinear_arith);
        let dd = d * d;
        assert(qq * dd == 1real) by (nonlinear_arith)
            requires
                qq == q * q,
                dd == d * d,
                q * d == 1real,
        {
            assert((q * q) * (d * d) == (q * d) * (q * d)) by (nonlinear_arith);
        }
        assert(inner(u, u) == 1real);
        assert(u.0 * d == t.0 && u.1 * d == t.1 && u.2 * d == t.2);
        let (a, l) = (vector_as(val, img), vector_as(val, listener));
        assert(a == moved(l, u, d));
    }
}

/// A record is as loud as its way lets it be: in exact arithmetic, with whatever
/// function the host's exponential is, its amplitude in a band, times its distance, is
/// what air leaves over that distance, times what the walk over its mirrors left.
pub proof fn a_record_is_as_loud_as_its_way_lets_it_be(
    val: Reading,
    f: Calc,
    exp: spec_fn(real) -> real,
    w: World,
    chain: Seq<u16>,
    source: u16,
    src_pos: Point,
    listener: Point,
    b: int,
)
    requires
        0 <= b < 3,
        image_in(f, w.table.surfaces@, src_pos, chain) matches Some(img) ==> {
            let (dist, dir) = sight(f, img, listener);
            let decay = prod(f, air_decay(b), dist);
            let start = Way { at: Stand { pos: listener, d: dir }, g: full() };
            &&& !dist.below(Single(MIN_DIST)) && !dist.is_nan()
            &&& is_exact_as(val, f, Op::Times(air_decay(b), dist))
            &&& val(f(Op::Exp(decay))) == exp(val(decay))
            &&& is_exact_as(val, f, Op::Over(f(Op::Exp(decay)), dist))
            &&& walked(f, w, start, chain, chain.len() as int) matches Some(way) ==> is_exact_as(
                val,
                f,
                Op::Times(
                    quot(f, f(Op::Exp(decay)), dist),
                    band_of(arrived(f, w, way, chain, src_pos), b),
                ),
            )
        },
    ensures
        mesh_recorded(f, w, chain, source, src_pos, listener) matches Some(r) ==> {
            let img = image_in(f, w.table.surfaces@, src_pos, chain)->0;
            let (dist, dir) = sight(f, img, listener);
            let start = Way { at: Stand { pos: listener, d: dir }, g: full() };
            let way = walked(f, w, start, chain, chain.len() as int)->0;
            val(r.gains@[b]) * val(dist) == exp(val(air_decay(b)) * val(dist)) * val(
                band_of(arrived(f, w, way, chain, src_pos), b),
            )
        },
{
    if mesh_recorded(f, w, chain, source, src_pos, listener) is Some {
        let r = mesh_recorded(f, w, chain, source, src_pos, listener)->0;
        let img = image_in(f, w.table.surfaces@, src_pos, chain)->0;
        let (dist, dir) = sight(f, img, listener);
        let start = Way { at: Stand { pos: listener, d: dir }, g: full() };
        let way = walked(f, w, start, chain, chain.len() as int)->0;
        let g = arrived(f, w, way, chain, src_pos);
        let decay = prod(f, air_decay(b), dist);
        let air = quot(f, f(Op::Exp(decay)), dist);
        assert(spread_over(f, dist)@[b] == air);
        assert(r.gains@[b] == prod(f, air, band_of(g, b)));
        let (x, y, d) = (val(air), val(band_of(g, b)), val(dist));
        assert((x * y) * d == (x * d) * y) by (nonlinear_arith);
    }
}

} // verus!
