//! What tracing is for: a ray carries on what a surface does not absorb, leaves as a
//! mirror or the normal has it, is heard when its way is that long, and the decay and
//! the direction that are read come from what was heard.

use crate::arith::{diff, prod, quot, sum, Calc, Op};
use crate::exact::{
    inner, is_about, is_close, is_exact_as, lemma_is, lemma_negated, lemma_one, lemma_two,
    lemma_whole, square, value, vector_as, Reading, Vector,
};
use crate::geom::{along, dot, mirrored, norm, vdiff, vsum, TWO};
use crate::material::SPEED_OF_SOUND;
use crate::mesh::Point;
use crate::params::ONE;
use crate::rng::{advanced, toss};
use crate::scene::GeomHit;
use crate::single::{rounded, signed_rounded, Single};
use crate::tracer::{
    absorbed, against, band_level, band_rt60, bin_of, blended, capped_bin, decay_window,
    double_at_most, falls, first_25, first_5, fitted, left_from, level_at, nearest_at, off_surface,
    ray_share, sum_band, sum_dirs, with_arrival, Decay, Echo, Fall, Ray, Tracing, BIN_DT,
    LATE_START, MAX_LEVEL, MAX_RT60, MIN_RT60, NBINS, NOTHING, P_MINUS_60_0, SKIMMING,
};
use vstd::arithmetic::power2::{lemma2_to64, lemma_pow2_pos, pow2};
use vstd::prelude::*;

verus! {

/// A vector from another by a multiple of a third.
pub open spec fn moved(a: Vector, b: Vector, k: real) -> Vector {
    (a.0 + b.0 * k, a.1 + b.1 * k, a.2 + b.2 * k)
}

/// One vector less another.
pub open spec fn apart(a: Vector, b: Vector) -> Vector {
    (a.0 - b.0, a.1 - b.1, a.2 - b.2)
}

/// A point on a line is worked out exactly, as read.
pub open spec fn exact_along(val: Reading, f: Calc, a: Point, b: Point, k: Single) -> bool {
    forall|i: int|
        0 <= i < 3 ==> {
            &&& is_exact_as(val, f, Op::Times(#[trigger] b@[i], k))
            &&& is_exact_as(val, f, Op::Plus(a@[i], prod(f, b@[i], k)))
        }
}

pub(crate) proof fn lemma_along(val: Reading, f: Calc, a: Point, b: Point, k: Single)
    requires
        exact_along(val, f, a, b, k),
    ensures
        vector_as(val, along(f, a, b, k)) == moved(vector_as(val, a), vector_as(val, b), val(k)),
{
    assert(is_exact_as(val, f, Op::Times(b@[0], k)));
    assert(is_exact_as(val, f, Op::Times(b@[1], k)));
    assert(is_exact_as(val, f, Op::Times(b@[2], k)));
}

/// An inner product is worked out exactly, as read.
pub open spec fn exact_inner(val: Reading, f: Calc, a: Point, b: Point) -> bool {
    let x = prod(f, a@[0], b@[0]);
    let y = prod(f, a@[1], b@[1]);
    let z = prod(f, a@[2], b@[2]);
    &&& is_exact_as(val, f, Op::Times(a@[0], b@[0]))
    &&& is_exact_as(val, f, Op::Times(a@[1], b@[1]))
    &&& is_exact_as(val, f, Op::Times(a@[2], b@[2]))
    &&& is_exact_as(val, f, Op::Plus(x, y))
    &&& is_exact_as(val, f, Op::Plus(sum(f, x, y), z))
}

/// A direction mirrored at a plane is worked out exactly, as read.
pub open spec fn exact_mirror(val: Reading, f: Calc, d: Point, n: Point) -> bool {
    let k = prod(f, Single(TWO), dot(f, d, n));
    &&& val(Single(TWO)) == value(Single(TWO))
    &&& exact_inner(val, f, d, n)
    &&& is_exact_as(val, f, Op::Times(Single(TWO), dot(f, d, n)))
    &&& forall|i: int|
        0 <= i < 3 ==> {
            &&& is_exact_as(val, f, Op::Times(#[trigger] n@[i], k))
            &&& is_exact_as(val, f, Op::Minus(d@[i], prod(f, n@[i], k)))
        }
}

proof fn lemma_mirror(d: Vector, n: Vector, r: Vector)
    requires
        inner(n, n) == 1real,
        r == moved(d, n, -(2real * inner(d, n))),
    ensures
        inner(r, n) == -inner(d, n),
        inner(r, r) == inner(d, d),
{
    let k = 2real * inner(d, n);
    let p = inner(d, n);
    assert(inner(r, n) == p - k * inner(n, n)) by {
        let (a, b, c) = (n.0, n.1, n.2);
        assert((d.0 + a * (-k)) * a == d.0 * a - k * (a * a)) by (nonlinear_arith);
        assert((d.1 + b * (-k)) * b == d.1 * b - k * (b * b)) by (nonlinear_arith);
        assert((d.2 + c * (-k)) * c == d.2 * c - k * (c * c)) by (nonlinear_arith);
        let (x, y, z) = (a * a, b * b, c * c);
        assert(k * (x + y + z) == k * x + k * y + k * z) by (nonlinear_arith);
    }
    assert(inner(r, r) == inner(d, d) - (2real * k) * p + (k * k) * inner(n, n)) by {
        let (a, b, c) = (n.0, n.1, n.2);
        let kk = k * k;
        let (u, v, w) = (d.0, d.1, d.2);
        assert((u + a * (-k)) * (u + a * (-k)) == u * u - (2real * k) * (u * a) + kk * (a * a))
            by (nonlinear_arith)
            requires
                kk == k * k,
        ;
        assert((v + b * (-k)) * (v + b * (-k)) == v * v - (2real * k) * (v * b) + kk * (b * b))
            by (nonlinear_arith)
            requires
                kk == k * k,
        ;
        assert((w + c * (-k)) * (w + c * (-k)) == w * w - (2real * k) * (w * c) + kk * (c * c))
            by (nonlinear_arith)
            requires
                kk == k * k,
        ;
        let (x, y, z) = (a * a, b * b, c * c);
        let (l, m, o) = (u * a, v * b, w * c);
        let kt = 2real * k;
        assert(kk * (x + y + z) == kk * x + kk * y + kk * z) by (nonlinear_arith);
        assert(kt * (l + m + o) == kt * l + kt * m + kt * o) by (nonlinear_arith);
    }
    assert(p - k * 1real == -p);
    assert((k * k) * 1real == (2real * k) * p) by (nonlinear_arith)
        requires
            k == 2real * p,
    ;
}

/// What a bounce is worked out from, as read.
pub open spec fn exact_bounce(val: Reading, t: Tracing, ray: Ray, h: GeomHit) -> bool {
    let f = t.f;
    &&& val(Single(ONE)) == value(Single(ONE))
    &&& is_exact_as(val, f, Op::Plus(ray.dist, h.t))
    &&& forall|b: int|
        0 <= b < 3 ==> {
            let left = diff(f, Single(ONE), #[trigger] h.material.absorption@[b]);
            &&& is_exact_as(val, f, Op::Minus(Single(ONE), h.material.absorption@[b]))
            &&& is_exact_as(val, f, Op::Times(ray.energy@[b], left))
        }
    &&& exact_along(val, f, ray.pos, ray.dir, h.t)
    &&& exact_along(val, f, along(f, ray.pos, ray.dir, h.t), h.normal, Single(SKIMMING))
}

/// In exact arithmetic a ray that a surface sends on carries, in every band, what it
/// carried less what the surface absorbed of it. It has come further by the way to
/// the surface, and starts again from where it met it, a little off along the normal.
pub proof fn a_bounce_keeps_what_is_not_absorbed(
    val: Reading,
    t: Tracing,
    ray: Ray,
    h: GeomHit,
    rng: u64,
)
    requires
        exact_bounce(val, t, ray, h),
    ensures
        off_surface(ray, h, rng, t).0 matches Some(next) ==> {
            &&& forall|b: int|
                0 <= b < 3 ==> val(#[trigger] next.energy@[b]) + val(h.material.absorption@[b]) * val(
                    ray.energy@[b],
                ) == val(ray.energy@[b])
            &&& val(next.dist) == val(ray.dist) + val(h.t)
            &&& vector_as(val, next.pos) == moved(
                moved(vector_as(val, ray.pos), vector_as(val, ray.dir), val(h.t)),
                vector_as(val, h.normal),
                val(Single(SKIMMING)),
            )
        },
{
    lemma_one();
    let f = t.f;
    lemma_along(val, f, ray.pos, ray.dir, h.t);
    lemma_along(val, f, along(f, ray.pos, ray.dir, h.t), h.normal, Single(SKIMMING));
    let energy = absorbed(f, ray.energy, h.material.absorption);
    assert forall|b: int| 0 <= b < 3 implies val(#[trigger] energy@[b]) + val(
        h.material.absorption@[b],
    ) * val(ray.energy@[b]) == val(ray.energy@[b]) by {
        let a = h.material.absorption@[b];
        let left = diff(f, Single(ONE), a);
        assert(is_exact_as(val, f, Op::Minus(Single(ONE), a)));
        let (e, x) = (val(ray.energy@[b]), val(a));
        assert(energy@[b] == prod(f, ray.energy@[b], left));
        assert(e * (1real - x) + x * e == e) by (nonlinear_arith);
    }
}

/// In exact arithmetic a ray that is not scattered leaves a surface as a mirror has
/// it: as fast along the normal as it came, the other way, and as fast in all.
pub proof fn a_ray_that_is_not_scattered_is_mirrored(
    val: Reading,
    t: Tracing,
    ray: Ray,
    h: GeomHit,
    rng: u64,
)
    requires
        !toss(advanced(rng, 1)).below(h.material.scattering),
        inner(vector_as(val, h.normal), vector_as(val, h.normal)) == 1real,
        exact_mirror(val, t.f, ray.dir, h.normal),
    ensures
        off_surface(ray, h, rng, t).0 matches Some(next) ==> {
            let (d, n, r) = (
                vector_as(val, ray.dir),
                vector_as(val, h.normal),
                vector_as(val, next.dir),
            );
            &&& inner(r, n) == -inner(d, n)
            &&& inner(r, r) == inner(d, d)
            &&& exists|k: real| r == #[trigger] moved(d, n, k)
        },
{
    lemma_two();
    let f = t.f;
    let (d, n) = (ray.dir, h.normal);
    let k = prod(f, Single(TWO), dot(f, d, n));
    let r = vector_as(val, mirrored(f, d, n));
    let (x, y) = (vector_as(val, d), vector_as(val, n));
    assert(is_exact_as(val, f, Op::Times(n@[0], k)));
    assert(is_exact_as(val, f, Op::Times(n@[1], k)));
    assert(is_exact_as(val, f, Op::Times(n@[2], k)));
    let q = 2real * inner(x, y);
    assert(val(k) == q);
    assert(y.0 * (-q) == -(y.0 * q)) by (nonlinear_arith);
    assert(y.1 * (-q) == -(y.1 * q)) by (nonlinear_arith);
    assert(y.2 * (-q) == -(y.2 * q)) by (nonlinear_arith);
    assert(r == moved(x, y, -q));
    lemma_mirror(x, y, r);
}

/// In exact arithmetic the place where a segment is heard is where its line comes
/// nearest to the listener: what is left of the way from there stands square on it.
pub proof fn a_ray_is_heard_where_it_comes_nearest(val: Reading, f: Calc, ray: Ray, listener: Point)
    requires
        inner(vector_as(val, ray.dir), vector_as(val, ray.dir)) == 1real,
        forall|i: int| 0 <= i < 3 ==> is_exact_as(val, f, Op::Minus(#[trigger] listener@[i], ray.pos@[i])),
        exact_inner(val, f, vdiff(f, listener, ray.pos), ray.dir),
    ensures
        ({
            let (p, d) = (vector_as(val, ray.pos), vector_as(val, ray.dir));
            let at = moved(p, d, val(nearest_at(f, ray, listener)));
            inner(apart(vector_as(val, listener), at), d) == 0real
        }),
{
    let (p, d, l) = (vector_as(val, ray.pos), vector_as(val, ray.dir), vector_as(val, listener));
    assert(is_exact_as(val, f, Op::Minus(listener@[0], ray.pos@[0])));
    assert(is_exact_as(val, f, Op::Minus(listener@[1], ray.pos@[1])));
    assert(is_exact_as(val, f, Op::Minus(listener@[2], ray.pos@[2])));
    let s = val(nearest_at(f, ray, listener));
    let (a, b, c) = (l.0 - p.0, l.1 - p.1, l.2 - p.2);
    assert(s == a * d.0 + b * d.1 + c * d.2);
    assert((l.0 - (p.0 + d.0 * s)) * d.0 == a * d.0 - s * (d.0 * d.0)) by (nonlinear_arith)
        requires
            a == l.0 - p.0,
    ;
    assert((l.1 - (p.1 + d.1 * s)) * d.1 == b * d.1 - s * (d.1 * d.1)) by (nonlinear_arith)
        requires
            b == l.1 - p.1,
    ;
    assert((l.2 - (p.2 + d.2 * s)) * d.2 == c * d.2 - s * (d.2 * d.2)) by (nonlinear_arith)
        requires
            c == l.2 - p.2,
    ;
    let (x, y, z) = (d.0 * d.0, d.1 * d.1, d.2 * d.2);
    assert(s * (x + y + z) == s * x + s * y + s * z) by (nonlinear_arith);
}

/// What the width of a bin stands for: ten milliseconds, as near as a pattern can.
proof fn lemma_bin()
    ensures
        Single(BIN_DT).is_finite(),
        value(Single(BIN_DT)) * 1073741824real == 10737418real,
        value(Single(BIN_DT)) > 0real,
{
    lemma2_to64();
    crate::exact::lemma_bits(BIN_DT, 120, 0x23_D70A);
    let v = value(Single(BIN_DT));
    assert(v > 0real) by (nonlinear_arith)
        requires
            v * 1073741824real == 10737418real,
    ;
}

/// A number that is cut to `k` lies between `k` and the next whole number.
pub(crate) proof fn lemma_bin_cut(q: Single, k: nat, max: nat)
    requires
        q.truncated(max) == k,
        k < max,
        q.is_finite(),
        value(q) >= 0real,
    ensures
        k as int as real <= value(q) < (k + 1) as int as real,
{
    lemma_pow2_pos(149);
    let u = pow2(149) as int;
    let (v, ur) = (value(q), u as real);
    let n = q.num();
    assert(v * ur == n as real) by (nonlinear_arith)
        requires
            v == n as real / ur,
            ur > 0real,
    ;
    assert(n as real >= 0real) by (nonlinear_arith)
        requires
            v * ur == n as real,
            v >= 0real,
            ur > 0real,
    ;
    if q.is_negative() {
        assert(n == 0);
        assert(v == 0real) by (nonlinear_arith)
            requires
                v * ur == 0real,
                ur > 0real,
        ;
    } else {
        assert(n / u == k as int);
        assert(k * u <= n && n < (k + 1) * u) by (nonlinear_arith)
            requires
                n / u == k as int,
                u > 0,
        ;
        let kr = k as int as real;
        assert((k * u) as real == kr * ur) by (nonlinear_arith)
            requires
                kr == k as int as real,
                ur == u as real,
        ;
        assert(((k + 1) * u) as real == (kr + 1real) * ur) by (nonlinear_arith)
            requires
                kr == k as int as real,
                ur == u as real,
        ;
        assert(kr <= v && v < kr + 1real) by (nonlinear_arith)
            requires
                v * ur == n as real,
                kr * ur <= n as real,
                (n as real) < (kr + 1real) * ur,
                ur > 0real,
        ;
    }
}

/// What is heard of a ray is booked at the time that sound takes for its whole way.
/// Where the host is within `e`, the way to the place where it is heard is, within
/// little more, as long as sound comes from the start of its bin to its end; and the
/// bin gains the energy that the ray carries, in every band.
pub proof fn an_arrival_is_booked_when_it_is_heard(
    f: Calc,
    echo: Echo,
    ray: Ray,
    s: Single,
    e: real,
)
    requires
        echo.wf(),
        0real <= e,
        bin_of(f, ray, s) < NBINS,
        ({
            let way = sum(f, ray.dist, s);
            let time = quot(f, way, Single(SPEED_OF_SOUND));
            &&& is_close(f, Op::Plus(ray.dist, s), e)
            &&& is_close(f, Op::Over(way, Single(SPEED_OF_SOUND)), e)
            &&& is_close(f, Op::Over(time, Single(BIN_DT)), e)
            &&& value(quot(f, time, Single(BIN_DT))) >= 0real
        }),
        forall|b: int|
            0 <= b < 3 ==> is_close(
                f,
                Op::Plus(echo.bins[bin_of(f, ray, s)]@[b], #[trigger] ray.energy@[b]),
                e,
            ),
    ensures
        ({
            let k = bin_of(f, ray, s) as real;
            let way = value(ray.dist) + value(s);
            let after = with_arrival(f, echo, ray, s);
            let dt = value(Single(BIN_DT));
            let bin = bin_of(f, ray, s);
            &&& (k * dt) * 343real - 345real * e <= way <= ((k + 1real) * dt) * 343real + 345real * e
            &&& forall|b: int|
                0 <= b < 3 ==> is_about(
                    value(#[trigger] after.bins[bin]@[b]),
                    value(echo.bins[bin]@[b]) + value(ray.energy@[b]),
                    e,
                )
            &&& forall|i: int|
                0 <= i < NBINS && i != bin ==> #[trigger] after.bins[i] == echo.bins[i]
            &&& dt * 1073741824real == 10737418real
        }),
{
    lemma2_to64();
    lemma_is(SPEED_OF_SOUND, 135, 0x2B_8000, 343real);
    lemma_bin();
    let way = sum(f, ray.dist, s);
    let time = quot(f, way, Single(SPEED_OF_SOUND));
    let q = quot(f, time, Single(BIN_DT));
    let bin = bin_of(f, ray, s);
    lemma_bin_cut(q, bin as nat, usize::MAX as nat);
    let (k, w, tm, x, dt) = (bin as real, value(way), value(time), value(q), value(Single(BIN_DT)));
    assert(k * dt <= x * dt && x * dt <= (k + 1real) * dt) by (nonlinear_arith)
        requires
            k <= x,
            x <= k + 1real,
            dt > 0real,
    ;
    assert((k * dt) - e <= tm && tm <= (k + 1real) * dt + e);
    assert(tm * 343real - e <= w && w <= tm * 343real + e);
    let after = with_arrival(f, echo, ray, s);
    assert(after.bins[bin] == vsum(f, echo.bins[bin], ray.energy));
    assert forall|b: int| 0 <= b < 3 implies is_about(
        value(#[trigger] after.bins[bin]@[b]),
        value(echo.bins[bin]@[b]) + value(ray.energy@[b]),
        e,
    ) by {
        assert(is_close(f, Op::Plus(echo.bins[bin]@[b], ray.energy@[b]), e));
    }
}

/// In exact arithmetic a bin's direction gains the arrival's: back along the ray,
/// towards where the sound came from, as far as the mid energy it carries.
pub proof fn an_arrival_points_back_along_its_ray(val: Reading, f: Calc, d: [Single; 3], ray: Ray)
    requires
        forall|i: int|
            0 <= i < 3 ==> {
                &&& is_exact_as(val, f, Op::Times(#[trigger] ray.dir@[i], ray.energy@[1]))
                &&& is_exact_as(val, f, Op::Minus(d@[i], prod(f, ray.dir@[i], ray.energy@[1])))
            },
    ensures
        vector_as(val, against(f, d, ray)) == moved(
            vector_as(val, d),
            vector_as(val, ray.dir),
            -val(ray.energy@[1]),
        ),
{
    let e = val(ray.energy@[1]);
    let r = vector_as(val, ray.dir);
    assert(is_exact_as(val, f, Op::Times(ray.dir@[0], ray.energy@[1])));
    assert(is_exact_as(val, f, Op::Times(ray.dir@[1], ray.energy@[1])));
    assert(is_exact_as(val, f, Op::Times(ray.dir@[2], ray.energy@[1])));
    assert(r.0 * (-e) == -(r.0 * e)) by (nonlinear_arith);
    assert(r.1 * (-e) == -(r.1 * e)) by (nonlinear_arith);
    assert(r.2 * (-e) == -(r.2 * e)) by (nonlinear_arith);
}

/// In exact arithmetic all rays together carry the energy of the source.
pub proof fn the_rays_share_the_energy(val: Reading, f: Calc, n_rays: u32, energy: [Single; 3], b: int)
    requires
        0 <= b < 3,
        val(Single(ONE)) == value(Single(ONE)),
        val(rounded(n_rays as nat)) == n_rays as real,
        is_exact_as(val, f, Op::Over(Single(ONE), rounded(n_rays as nat))),
        is_exact_as(
            val,
            f,
            Op::Times(quot(f, Single(ONE), rounded(n_rays as nat)), energy@[b]),
        ),
    ensures
        n_rays as real * val(ray_share(f, n_rays, energy)@[b]) == val(energy@[b]),
{
    lemma_one();
    let k = val(quot(f, Single(ONE), rounded(n_rays as nat)));
    let (n, e) = (n_rays as real, val(energy@[b]));
    assert(ray_share(f, n_rays, energy)@[b] == prod(
        f,
        quot(f, Single(ONE), rounded(n_rays as nat)),
        energy@[b],
    ));
    assert(n * (k * e) == e) by (nonlinear_arith)
        requires
            k * n == 1real,
    {
        assert(n * (k * e) == (k * n) * e) by (nonlinear_arith);
    }
}

/// In exact arithmetic an echogram is moved the share `alpha` of the way to another:
/// what it holds after is `1 - alpha` of what it held and `alpha` of the other.
pub proof fn a_blend_keeps_its_shares(val: Reading, f: Calc, a: Single, o: Single, alpha: Single)
    requires
        is_exact_as(val, f, Op::Minus(o, a)),
        is_exact_as(val, f, Op::Times(alpha, diff(f, o, a))),
        is_exact_as(val, f, Op::Plus(a, prod(f, alpha, diff(f, o, a)))),
    ensures
        val(blended(f, a, o, alpha)) == (1real - val(alpha)) * val(a) + val(alpha) * val(o),
{
    let (x, y, k) = (val(a), val(o), val(alpha));
    assert(x + k * (y - x) == (1real - k) * x + k * y) by (nonlinear_arith);
}

/// The sum of a band from bin `s` to before bin `n`.
pub open spec fn band_total(val: Reading, bins: Seq<[Single; 3]>, b: int, s: int, n: int) -> real
    decreases n - s,
{
    if n <= s {
        0real
    } else {
        band_total(val, bins, b, s, n - 1) + val(bins[n - 1]@[b])
    }
}

/// The sums over a band are exact, as read.
pub open spec fn exact_band(val: Reading, f: Calc, bins: Seq<[Single; 3]>, b: int, s: int) -> bool {
    &&& val(Single(0)) == value(Single(0))
    &&& forall|i: int|
        s <= i < NBINS ==> is_exact_as(
            val,
            f,
            Op::Plus(sum_band(f, bins, b, s, i), #[trigger] bins[i]@[b]),
        )
}

proof fn lemma_band(val: Reading, f: Calc, bins: Seq<[Single; 3]>, b: int, s: int, n: int)
    requires
        exact_band(val, f, bins, b, s),
        n <= NBINS,
    ensures
        val(sum_band(f, bins, b, s, n)) == band_total(val, bins, b, s, n),
    decreases n - s,
{
    lemma_one();
    if n > s {
        lemma_band(val, f, bins, b, s, n - 1);
        assert(is_exact_as(val, f, Op::Plus(sum_band(f, bins, b, s, n - 1), bins[n - 1]@[b])));
    }
}

/// In exact arithmetic the late level of a band, squared, is the energy that arrives
/// from 80 ms on, unless that is too much.
pub proof fn the_late_level_is_the_root_of_the_late_energy(
    val: Reading,
    f: Calc,
    bins: Seq<[Single; 3]>,
    b: int,
)
    requires
        exact_band(val, f, bins, b, LATE_START as int),
        is_exact_as(val, f, Op::Root(sum_band(f, bins, b, LATE_START as int, NBINS as int))),
        !f(Op::Root(sum_band(f, bins, b, LATE_START as int, NBINS as int))).is_nan(),
        !Single(MAX_LEVEL).below(
            f(Op::Root(sum_band(f, bins, b, LATE_START as int, NBINS as int))),
        ),
    ensures
        val(band_level(f, bins, b)) >= 0real,
        square(val(band_level(f, bins, b))) == band_total(val, bins, b, 8, 300),
{
    lemma_band(val, f, bins, b, LATE_START as int, NBINS as int);
}

/// What number each double-precision pattern stands for, to the host's meter.
pub type DoubleReading = spec_fn(u64) -> real;

/// What the meter adds up is added exactly, for one band.
pub open spec fn exact_meter(dv: DoubleReading, d: Decay, bins: Seq<[Single; 3]>, b: int) -> bool {
    &&& dv(0) == 0real
    &&& forall|i: int|
        0 <= i < NBINS ==> dv(
            (d.grow)((left_from(d, bins, b, i + 1), #[trigger] bins[i]@[b])),
        ) == dv(left_from(d, bins, b, i + 1)) + value(bins[i]@[b])
}

/// The energy of a band from bin `i` on.
pub open spec fn still_to_come(bins: Seq<[Single; 3]>, b: int, i: int) -> real
    decreases NBINS - i,
{
    if i >= NBINS {
        0real
    } else {
        value(bins[i]@[b]) + still_to_come(bins, b, i + 1)
    }
}

/// The decay is read off the energy still to come: at every bin, all that the band
/// brings from there on.
pub proof fn the_decay_is_integrated_backwards(
    dv: DoubleReading,
    d: Decay,
    bins: Seq<[Single; 3]>,
    b: int,
    i: int,
)
    requires
        exact_meter(dv, d, bins, b),
        0 <= i <= NBINS,
    ensures
        dv(left_from(d, bins, b, i)) == still_to_come(bins, b, i),
    decreases NBINS - i,
{
    if i < NBINS {
        the_decay_is_integrated_backwards(dv, d, bins, b, i + 1);
        assert(dv((d.grow)((left_from(d, bins, b, i + 1), bins[i]@[b]))) == dv(
            left_from(d, bins, b, i + 1),
        ) + value(bins[i]@[b]));
    }
}

proof fn lemma_first_5(fall: spec_fn(usize) -> Fall, i: int)
    requires
        0 <= i <= NBINS,
        forall|k: usize| k < NBINS && (#[trigger] fall(k)).past_25 ==> fall(k).past_5,
    ensures
        i <= first_5(fall, i) <= NBINS,
        first_5(fall, i) < NBINS ==> fall(first_5(fall, i) as usize).past_5,
        forall|k: int| i <= k < first_5(fall, i) ==> !(#[trigger] fall(k as usize)).past_5,
    decreases NBINS - i,
{
    if i < NBINS && !fall(i as usize).past_5 {
        assert(!fall(i as usize).past_25);
        lemma_first_5(fall, i + 1);
    }
}

proof fn lemma_first_25(fall: spec_fn(usize) -> Fall, i: int)
    requires
        0 <= i <= NBINS,
    ensures
        i <= first_25(fall, i) <= NBINS,
        first_25(fall, i) < NBINS ==> fall(first_25(fall, i) as usize).past_25,
        forall|k: int| i <= k < first_25(fall, i) ==> !(#[trigger] fall(k as usize)).past_25,
    decreases NBINS - i,
{
    if i < NBINS && !fall(i as usize).past_25 {
        lemma_first_25(fall, i + 1);
    }
}

/// The decay is read from the first bin that is 5 dB down to the first that is 25 dB
/// down, wherever both come and the first before the second.
pub proof fn the_decay_is_read_between_five_and_twenty_five_decibels(
    fall: spec_fn(usize) -> Fall,
    i: usize,
    j: usize,
)
    requires
        forall|k: usize| k < NBINS && (#[trigger] fall(k)).past_25 ==> fall(k).past_5,
        i < j < NBINS,
        fall(i).past_5,
        forall|k: usize| k < i ==> !(#[trigger] fall(k)).past_5,
        fall(j).past_25,
        forall|k: usize| k < j ==> !(#[trigger] fall(k)).past_25,
    ensures
        decay_window(fall) == Some((i, j)),
{
    lemma_first_5(fall, 0);
    lemma_first_25(fall, 0);
    let (a, b) = (first_5(fall, 0), first_25(fall, 0));
    if a < i {
        assert(fall(a as usize).past_5);
    }
    if i < a {
        assert(!fall(i as int as usize).past_5);
    }
    if b < j {
        assert(fall(b as usize).past_25);
    }
    if j < b {
        assert(!fall(j as int as usize).past_25);
    }
}

/// A band that falls steadily, by 60 dB in `decay` seconds, is found to decay in that
/// time, in exact arithmetic and unless it is out of range: whatever its level, and
/// wherever its fall is read.
pub proof fn a_steady_fall_gives_its_decay_time(
    val: Reading,
    dv: DoubleReading,
    f: Calc,
    d: Decay,
    bins: Seq<[Single; 3]>,
    b: int,
    i: usize,
    j: usize,
    start: real,
    decay: real,
)
    requires
        !double_at_most(left_from(d, bins, b, 0), 0),
        decay_window(falls(d, bins, b)) == Some((i, j)),
        i < j < NBINS,
        decay > 0real,
        dv(level_at(d, bins, b, i as int)) * decay == (start - (i as real * val(Single(BIN_DT)))) * 60real,
        dv(level_at(d, bins, b, j as int)) * decay == (start - (j as real * val(Single(BIN_DT)))) * 60real,
        val(Single(BIN_DT)) > 0real,
        val(Single(P_MINUS_60_0)) == value(Single(P_MINUS_60_0)),
        val(rounded((j - i) as nat)) == value(rounded((j - i) as nat)),
        ({
            let levels = (level_at(d, bins, b, j as int), level_at(d, bins, b, i as int));
            let dt = prod(f, rounded((j - i) as nat), Single(BIN_DT));
            let top = prod(f, Single(P_MINUS_60_0), dt);
            let r = quot(f, top, (d.apart)(levels));
            &&& val((d.apart)(levels)) == dv(levels.0) - dv(levels.1)
            &&& is_exact_as(val, f, Op::Times(rounded((j - i) as nat), Single(BIN_DT)))
            &&& is_exact_as(val, f, Op::Times(Single(P_MINUS_60_0), dt))
            &&& is_exact_as(val, f, Op::Over(top, (d.apart)(levels)))
            &&& !r.below(Single(MIN_RT60)) && !Single(MAX_RT60).below(r)
        }),
    ensures
        val(band_rt60(f, d, bins, b)) == decay,
{
    lemma2_to64();
    lemma_is(0x4270_0000, 132, 0x70_0000, 60real);
    lemma_negated(Single(0x4270_0000));
    assert(Single(0x4270_0000).negated() == Single(P_MINUS_60_0));
    lemma_whole(j - i);
    assert(signed_rounded(j - i) == rounded((j - i) as nat));
    let levels = (level_at(d, bins, b, j as int), level_at(d, bins, b, i as int));
    let dt = prod(f, rounded((j - i) as nat), Single(BIN_DT));
    let top = prod(f, Single(P_MINUS_60_0), dt);
    let r = quot(f, top, (d.apart)(levels));
    assert(fitted(f, d, bins, b, i as int, j as int) == r);
    let (x, a, c, w) = (val(r), dv(levels.0), dv(levels.1), val(Single(BIN_DT)));
    let (ir, jr) = (i as real, j as real);
    assert((j - i) as real == jr - ir);
    let n = jr - ir;
    assert(x * (a - c) == -60real * (n * w));
    assert((a - c) * decay == -60real * (n * w)) by (nonlinear_arith)
        requires
            a * decay == (start - (jr * w)) * 60real,
            c * decay == (start - (ir * w)) * 60real,
            n == jr - ir,
    {
        assert((a - c) * decay == a * decay - c * decay) by (nonlinear_arith);
        assert((jr - ir) * w == jr * w - ir * w) by (nonlinear_arith);
    }
    assert(n * w > 0real) by (nonlinear_arith)
        requires
            n >= 1real,
            w > 0real,
    ;
    let g = a - c;
    assert(g != 0real) by (nonlinear_arith)
        requires
            g * decay == -60real * (n * w),
            n * w > 0real,
    ;
    assert(x == decay) by (nonlinear_arith)
        requires
            x * g == g * decay,
            g != 0real,
    ;
}

/// The sum of the directions from bin `s` to before bin `n`.
pub open spec fn total_dirs(val: Reading, dirs: Seq<[Single; 3]>, s: int, n: int) -> Vector
    decreases n - s,
{
    if n <= s {
        (0real, 0real, 0real)
    } else {
        moved(total_dirs(val, dirs, s, n - 1), vector_as(val, dirs[n - 1]), 1real)
    }
}

/// The sums over the directions are exact, as read.
pub open spec fn exact_dirs(val: Reading, f: Calc, dirs: Seq<[Single; 3]>, s: int) -> bool {
    &&& val(Single(0)) == value(Single(0))
    &&& forall|i: int, k: int|
        s <= i < NBINS && 0 <= k < 3 ==> is_exact_as(
            val,
            f,
            Op::Plus(sum_dirs(f, dirs, s, i)@[k], #[trigger] dirs[i]@[k]),
        )
}

proof fn lemma_dirs(val: Reading, f: Calc, dirs: Seq<[Single; 3]>, s: int, n: int)
    requires
        exact_dirs(val, f, dirs, s),
        n <= NBINS,
    ensures
        vector_as(val, sum_dirs(f, dirs, s, n)) == total_dirs(val, dirs, s, n),
    decreases n - s,
{
    lemma_one();
    if n > s {
        lemma_dirs(val, f, dirs, s, n - 1);
        assert(is_exact_as(val, f, Op::Plus(sum_dirs(f, dirs, s, n - 1)@[0], dirs[n - 1]@[0])));
        assert(is_exact_as(val, f, Op::Plus(sum_dirs(f, dirs, s, n - 1)@[1], dirs[n - 1]@[1])));
        assert(is_exact_as(val, f, Op::Plus(sum_dirs(f, dirs, s, n - 1)@[2], dirs[n - 1]@[2])));
    }
}

/// In exact arithmetic the late direction has length one and points where the sum of
/// the late directions does; the anisotropy is that sum's length as a share of the
/// late energy.
pub proof fn the_late_direction_is_that_of_the_late_arrivals(
    val: Reading,
    f: Calc,
    echo: Echo,
    from_s: Single,
)
    requires
        ({
            let start = capped_bin(quot(f, from_s, Single(BIN_DT)));
            let v = sum_dirs(f, echo.dirs, start, NBINS as int);
            let e = sum_band(f, echo.bins, 1, start, NBINS as int);
            let len = norm(f, v);
            &&& !len.below(Single(NOTHING)) && !e.below(Single(NOTHING))
            &&& exact_dirs(val, f, echo.dirs, start)
            &&& exact_band(val, f, echo.bins, 1, start)
            &&& exact_inner(val, f, v, v)
            &&& is_exact_as(val, f, Op::Root(dot(f, v, v)))
            &&& forall|k: int| 0 <= k < 3 ==> is_exact_as(val, f, Op::Over(#[trigger] v@[k], len))
            &&& is_exact_as(val, f, Op::Over(len, e))
            &&& !quot(f, len, e).is_nan() && !Single(ONE).below(quot(f, len, e))
        }),
    ensures
        ({
            let start = capped_bin(quot(f, from_s, Single(BIN_DT)));
            let (dir, share) = echo.late(f, from_s);
            let v = total_dirs(val, echo.dirs, start, 300);
            let u = vector_as(val, dir);
            let energy = band_total(val, echo.bins, 1, start, 300);
            &&& inner(u, u) == 1real
            &&& val(share) * energy >= 0real
            &&& v == moved((0real, 0real, 0real), u, val(share) * energy)
        }),
{
    let start = capped_bin(quot(f, from_s, Single(BIN_DT)));
    let v = sum_dirs(f, echo.dirs, start, NBINS as int);
    let e = sum_band(f, echo.bins, 1, start, NBINS as int);
    let len = norm(f, v);
    lemma_dirs(val, f, echo.dirs, start, NBINS as int);
    lemma_band(val, f, echo.bins, 1, start, NBINS as int);
    assert(is_exact_as(val, f, Op::Over(v@[0], len)));
    assert(is_exact_as(val, f, Op::Over(v@[1], len)));
    assert(is_exact_as(val, f, Op::Over(v@[2], len)));
    let (dir, share) = echo.late(f, from_s);
    let (u, l) = (vector_as(val, dir), val(len));
    let t = vector_as(val, v);
    assert(val(share) * val(e) == l);
    assert(u.0 * l == t.0 && u.1 * l == t.1 && u.2 * l == t.2);
    assert(l * l == inner(t, t));
    let (x, y, z) = (u.0 * u.0, u.1 * u.1, u.2 * u.2);
    let ll = l * l;
    assert(t.0 * t.0 == x * ll) by (nonlinear_arith)
        requires
            t.0 == u.0 * l,
            x == u.0 * u.0,
            ll == l * l,
    ;
    assert(t.1 * t.1 == y * ll) by (nonlinear_arith)
        requires
            t.1 == u.1 * l,
            y == u.1 * u.1,
            ll == l * l,
    ;
    assert(t.2 * t.2 == z * ll) by (nonlinear_arith)
        requires
            t.2 == u.2 * l,
            z == u.2 * u.2,
            ll == l * l,
    ;
    let s = x + y + z;
    assert(s * ll == x * ll + y * ll + z * ll) by (nonlinear_arith)
        requires
            s == x + y + z,
    ;
    assert(l != 0real);
    assert(ll != 0real) by (nonlinear_arith)
        requires
            ll == l * l,
            l != 0real,
    ;
    assert(s == 1real) by (nonlinear_arith)
        requires
            s * ll == ll,
            ll != 0real,
    ;
}

} // verus!
