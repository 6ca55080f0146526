//! What the taps of image sources say of the room: where a reflection comes from,
//! when, and how loud.

use crate::arith::{greater, prod, quot, Calc, Op};
use crate::bend::{is_length, way};
use crate::chains::{exact_after_wall, exact_after_walls, lemma_shifted, place_of_image, to_the};
use crate::exact::{exact_vscaled, is_exact, lemma_one, lemma_order, square, value, vector, Vector};
use crate::geom::{norm, vdiff};
use crate::ism::{after_wall, after_walls, exact_way, tap_of, Image};
use crate::losses::{
    a_wall_reflects_what_it_does_not_absorb, air_decay, sound_thins_out_with_distance,
};
use crate::material::{spread_over, Material, MIN_DIST, SPEED_OF_SOUND};
use crate::mesh::Point;
use crate::params::ONE;
use crate::scene::Shoebox;
use crate::single::Single;
use vstd::prelude::*;

verus! {

/// A vector times a number.
pub open spec fn stretched(v: Vector, k: real) -> Vector {
    (v.0 * k, v.1 * k, v.2 * k)
}

/// What a material does not absorb of a band, as a share of the energy.
pub open spec fn kept_by(m: Material, b: int) -> real {
    1real - value(m.absorption@[b])
}

/// What the first `w` walls of a room leave of a band's energy, each as often as an
/// image is reflected off it.
pub open spec fn kept_by_walls(room: Shoebox, image: Image, b: int, w: int) -> real
    decreases w,
{
    if w <= 0 {
        1real
    } else {
        kept_by_walls(room, image, b, w - 1) * to_the(
            kept_by(room.walls@[w - 1], b),
            image.hits(w - 1),
        )
    }
}

/// What a material reflects of a band is exact, and its absorption a share.
pub open spec fn exact_reflection(f: Calc, m: Material, b: int) -> bool {
    let a = m.absorption@[b];
    &&& 0real <= value(a) <= 1real
    &&& is_exact(f, Op::Minus(Single(ONE), a))
    &&& is_exact(f, Op::Root(crate::arith::diff(f, Single(ONE), a)))
}

proof fn lemma_reflection(f: Calc, m: Material, b: int)
    requires
        0 <= b < 3,
        exact_reflection(f, m, b),
    ensures
        square(value(m.reflecting(f)@[b])) == kept_by(m, b),
{
    lemma_one();
    a_wall_reflects_what_it_does_not_absorb(f, m, b, 0real);
}

proof fn lemma_squared(x: real, y: real)
    ensures
        square(x * y) == square(x) * square(y),
{
    assert((x * y) * (x * y) == (x * x) * (y * y)) by (nonlinear_arith);
}

proof fn lemma_regrouped(x: real, y: real, z: real)
    ensures
        (x * y) * z == x * (y * z),
{
    assert((x * y) * z == x * (y * z)) by (nonlinear_arith);
}

proof fn lemma_wall_keeps(f: Calc, g: [Single; 3], m: Material, n: nat, b: int)
    requires
        0 <= b < 3,
        exact_reflection(f, m, b),
        exact_after_wall(f, g, m.reflecting(f), n as int),
    ensures
        square(value(after_wall(f, g, m.reflecting(f), n as int)@[b])) == square(value(g@[b]))
            * to_the(kept_by(m, b), n),
    decreases n,
{
    if n > 0 {
        lemma_wall_keeps(f, g, m, (n - 1) as nat, b);
        let before = after_wall(f, g, m.reflecting(f), n - 1);
        assert(is_exact(f, Op::Times(before@[b], m.reflecting(f)@[b])));
        lemma_squared(value(before@[b]), value(m.reflecting(f)@[b]));
        lemma_reflection(f, m, b);
        lemma_regrouped(
            square(value(g@[b])),
            to_the(kept_by(m, b), (n - 1) as nat),
            kept_by(m, b),
        );
    }
}

proof fn lemma_walls_keep(f: Calc, g: [Single; 3], room: Shoebox, image: Image, w: int, b: int)
    requires
        0 <= w <= 6,
        0 <= b < 3,
        forall|v: int| 0 <= v < 6 ==> exact_reflection(f, #[trigger] room.walls@[v], b),
        exact_after_walls(f, g, room, image, w),
    ensures
        square(value(after_walls(f, g, room, image, w)@[b])) == square(value(g@[b])) * kept_by_walls(
            room,
            image,
            b,
            w,
        ),
    decreases w,
{
    if w > 0 {
        lemma_walls_keep(f, g, room, image, w - 1, b);
        let before = after_walls(f, g, room, image, w - 1);
        assert(exact_reflection(f, room.walls@[w - 1], b));
        lemma_wall_keeps(f, before, room.walls@[w - 1], image.hits(w - 1), b);
        lemma_regrouped(
            square(value(g@[b])),
            kept_by_walls(room, image, b, w - 1),
            to_the(kept_by(room.walls@[w - 1], b), image.hits(w - 1)),
        );
    }
}

/// Turning a way into a direction of length one is exact.
pub open spec fn exact_unit(f: Calc, to: Point) -> bool {
    &&& is_exact(f, Op::Over(Single(ONE), norm(f, to)))
    &&& exact_vscaled(f, to, quot(f, Single(ONE), norm(f, to)))
}

/// A tap comes from its image: in exact arithmetic its delay, times the speed of
/// sound, is how far the mirrored source lies from the listener, and its direction,
/// times that, is the way there.
pub proof fn a_tap_comes_from_its_image(
    f: Calc,
    room: Shoebox,
    source: Point,
    listener: Point,
    g: Image,
    key: u32,
)
    requires
        g.is_image(),
        -100 <= g.nx <= 100 && -100 <= g.ny <= 100 && -100 <= g.nz <= 100,
        exact_way(f, g, source, listener, room.size),
        is_exact(
            f,
            Op::Over(
                norm(f, vdiff(f, g.place(f, source, room.size), listener)),
                Single(SPEED_OF_SOUND),
            ),
        ),
    ensures
        ({
            let t = tap_of(f, room, source, listener, g, key);
            let there = way(vector(listener), place_of_image(g, source, room.size));
            let d = value(t.delay_s) * value(Single(SPEED_OF_SOUND));
            &&& t.key == key
            &&& is_length(d, there)
            &&& exact_unit(f, vdiff(f, g.place(f, source, room.size), listener)) ==> stretched(
                vector(t.dir),
                d,
            ) == there
        }),
{
    lemma_one();
    lemma_shifted(f, g.px, g.nx, source@[0], room.size@[0]);
    lemma_shifted(f, g.py, g.ny, source@[1], room.size@[1]);
    lemma_shifted(f, g.pz, g.nz, source@[2], room.size@[2]);
    let to = vdiff(f, g.place(f, source, room.size), listener);
    let there = way(vector(listener), place_of_image(g, source, room.size));
    assert(vector(to) == there);
    let t = tap_of(f, room, source, listener, g, key);
    assert(value(t.delay_s) * value(Single(SPEED_OF_SOUND)) == value(norm(f, to)));
    assert(is_length(value(norm(f, to)), there));
    if exact_unit(f, to) {
        let k = value(quot(f, Single(ONE), norm(f, to)));
        let d = value(norm(f, to));
        lemma_regrouped(there.0, k, d);
        lemma_regrouped(there.1, k, d);
        lemma_regrouped(there.2, k, d);
        assert(k * d == 1real);
        assert(vector(t.dir) == stretched(there, k));
    }
}

/// A reflection is as loud as its way lets it be: in exact arithmetic, with
/// whatever function the host's exponential is, the energy of a tap in a band,
/// times the square of its distance, is the energy that air leaves over that
/// distance, times what every wall does not absorb, as often as it is met.
pub proof fn a_tap_is_as_loud_as_its_way_lets_it_be(
    f: Calc,
    exp: spec_fn(real) -> real,
    room: Shoebox,
    source: Point,
    listener: Point,
    g: Image,
    key: u32,
    b: int,
)
    requires
        0 <= b < 3,
        ({
            let far = norm(f, vdiff(f, g.place(f, source, room.size), listener));
            let k = prod(f, air_decay(b), far);
            &&& far.is_finite()
            &&& value(far) >= value(Single(MIN_DIST))
            &&& is_exact(f, Op::Times(air_decay(b), far))
            &&& value(f(Op::Exp(k))) == exp(value(k))
            &&& is_exact(f, Op::Over(f(Op::Exp(k)), far))
            &&& exact_after_walls(f, spread_over(f, far), room, g, 6)
        }),
        forall|v: int| 0 <= v < 6 ==> exact_reflection(f, #[trigger] room.walls@[v], b),
    ensures
        ({
            let d = value(norm(f, vdiff(f, g.place(f, source, room.size), listener)));
            square(value(tap_of(f, room, source, listener, g, key).gains@[b]) * d) == square(
                exp(value(air_decay(b)) * d),
            ) * kept_by_walls(room, g, b, 6)
        }),
{
    let far = norm(f, vdiff(f, g.place(f, source, room.size), listener));
    crate::single::lemma_grid_increases(0, MIN_DIST as nat);
    lemma_order(far, Single(MIN_DIST));
    assert(greater(far, Single(MIN_DIST)) == far);
    sound_thins_out_with_distance(f, exp, far, b);
    lemma_walls_keep(f, spread_over(f, far), room, g, 6, b);
    let t = value(tap_of(f, room, source, listener, g, key).gains@[b]);
    let (s, d, k) = (value(spread_over(f, far)@[b]), value(far), kept_by_walls(room, g, b, 6));
    lemma_squared(t, d);
    lemma_squared(s, d);
    let (x, y) = (square(s), square(d));
    assert((x * k) * y == (x * y) * k) by (nonlinear_arith);
}

} // verus!
