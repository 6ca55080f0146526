//! How a virtual speaker is fed: by the angle between its own direction and that of
//! what is on the bus.

use crate::ambi::{encoded, exact_encoded, exact_plus_prod, is_reading, Frame, SQRT3, THREE};
use crate::arith::{prod, quot, Calc, Op};
use crate::exact::{inner, is_exact_as, lemma_is, value, vector_as, Reading, Vector};
use crate::hrtf::{feed, feeds, played, FIVE, MASTER, MAXRE_1, MAXRE_2};
use crate::params::{HALF, ONE};
use crate::single::Single;
use vstd::arithmetic::power2::lemma2_to64;
use vstd::prelude::*;

verus! {

/// A feed is worked out exactly, as read.
pub open spec fn exact_feed(
    val: Reading,
    f: Calc,
    many: Single,
    share: Single,
    weight: Single,
    e: Single,
) -> bool {
    let q = quot(f, share, many);
    let w = prod(f, q, weight);
    &&& is_exact_as(val, f, Op::Over(share, many))
    &&& is_exact_as(val, f, Op::Times(q, weight))
    &&& is_exact_as(val, f, Op::Times(w, e))
    &&& is_exact_as(val, f, Op::Times(prod(f, w, e), Single(MASTER)))
}

proof fn lemma_feed(val: Reading, f: Calc, many: Single, share: Single, weight: Single, e: Single, y: real)
    requires
        exact_feed(val, f, many, share, weight, e),
    ensures
        (val(feed(f, many, share, weight, e)) * y) * val(many) == ((val(share) * val(weight)) * val(
            Single(MASTER),
        )) * (val(e) * y),
{
    let (n, w, m, x) = (val(many), val(weight), val(Single(MASTER)), val(e));
    let q = val(quot(f, share, many));
    let (a, z) = (q * w, x * y);
    assert(((a * x) * m) * y == (a * m) * (x * y)) by (nonlinear_arith);
    assert(((a * m) * z) * n == ((a * n) * m) * z) by (nonlinear_arith);
    assert((q * w) * n == (q * n) * w) by (nonlinear_arith);
}

/// The harmonics of a direction, as numbers.
#[verifier::opaque]
pub open spec fn harmonics(k: real, u: Vector) -> Seq<real> {
    seq![
        1real,
        u.1,
        u.2,
        u.0,
        (k * u.0) * u.1,
        (k * u.1) * u.2,
        (3real * (u.2 * u.2) - 1real) / 2real,
        (k * u.0) * u.2,
        k * (u.0 * u.0 - u.1 * u.1) / 2real,
    ]
}

proof fn lemma_encoded(val: Reading, f: Calc, d: [Single; 3])
    requires
        is_reading(val),
        exact_encoded(val, f, d),
    ensures
        forall|i: int|
            0 <= i < 9 ==> val(#[trigger] encoded(f, d)@[i]) == harmonics(
                val(Single(SQRT3)),
                vector_as(val, d),
            )[i],
{
    reveal(harmonics);
    let (x, y, z) = (val(d@[0]), val(d@[1]), val(d@[2]));
    let k = val(Single(SQRT3));
    let e = encoded(f, d);
    let h = val(Single(HALF));
    assert(h == 1real / 2real);
    assert((3real * z) * z == 3real * (z * z)) by (nonlinear_arith);
    let p = z * z;
    assert(h * (3real * p - 1real) == (3real * p - 1real) / 2real);
    let q = x * x - y * y;
    assert((h * k) * q == k * q / 2real) by (nonlinear_arith)
        requires
            h == 1real / 2real,
    ;
    assert forall|i: int| 0 <= i < 9 implies val(#[trigger] e@[i]) == harmonics(
        k,
        vector_as(val, d),
    )[i] by {
        if i == 6 {
            assert(val(e@[6]) == h * ((3real * z) * z - 1real));
        } else if i == 8 {
            assert(val(e@[8]) == (h * k) * q);
        }
    }
}

proof fn lemma_cross(k: real, a: real, b: real, c: real, d: real)
    requires
        k * k == 3real,
    ensures
        ((k * a) * b) * ((k * c) * d) == 3real * ((a * c) * (b * d)),
{
    assert((k * a) * b == k * (a * b)) by (nonlinear_arith);
    assert((k * c) * d == k * (c * d)) by (nonlinear_arith);
    let (p, q) = (a * b, c * d);
    assert((k * p) * (k * q) == (k * k) * (p * q)) by (nonlinear_arith);
    assert((a * b) * (c * d) == (a * c) * (b * d)) by (nonlinear_arith);
}

/// The second-degree harmonics of two directions of length one, multiplied and added
/// up, depend on the angle between them alone.
proof fn lemma_addition(k: real, u: Vector, v: Vector)
    requires
        k * k == 3real,
        inner(u, u) == 1real,
        inner(v, v) == 1real,
    ensures
        ({
            let (a, b) = (harmonics(k, u), harmonics(k, v));
            let c = inner(u, v);
            2real * (a[4] * b[4] + a[5] * b[5] + a[6] * b[6] + a[7] * b[7] + a[8] * b[8]) == 3real * (c
                * c) - 1real
        }),
{
    reveal(harmonics);
    let (a, b) = (harmonics(k, u), harmonics(k, v));
    let (x, y, z) = (u.0 * v.0, u.1 * v.1, u.2 * v.2);
    let c = inner(u, v);
    lemma_cross(k, u.0, u.1, v.0, v.1);
    lemma_cross(k, u.1, u.2, v.1, v.2);
    lemma_cross(k, u.0, u.2, v.0, v.2);
    assert(a[4] * b[4] == 3real * (x * y));
    assert(a[5] * b[5] == 3real * (y * z));
    assert(a[7] * b[7] == 3real * (x * z));
    let (ux, uy, uz) = (u.0 * u.0, u.1 * u.1, u.2 * u.2);
    let (vx, vy, vz) = (v.0 * v.0, v.1 * v.1, v.2 * v.2);
    let (xx, yy, zz) = (ux * vx, uy * vy, uz * vz);
    lemma_square_of_product(u.0, v.0);
    lemma_square_of_product(u.1, v.1);
    lemma_square_of_product(u.2, v.2);
    assert((x + y + z) * (x + y + z) == x * x + y * y + z * z + 2real * (x * y) + 2real * (y * z)
        + 2real * (x * z)) by (nonlinear_arith);
    lemma_halves(3real * uz - 1real, 3real * vz - 1real);
    assert((3real * uz - 1real) * (3real * vz - 1real) == 9real * (uz * vz) - 3real * uz - 3real * vz
        + 1real) by (nonlinear_arith);
    assert(4real * (a[6] * b[6]) == 9real * zz - 3real * uz - 3real * vz + 1real);
    let (p, q) = (ux - uy, vx - vy);
    lemma_halves(k * p, k * q);
    assert((k * p) * (k * q) == (k * k) * (p * q)) by (nonlinear_arith);
    assert(4real * (a[8] * b[8]) == 3real * (p * q));
    let (g, h) = (ux * vy, uy * vx);
    assert((ux - uy) * (vx - vy) == ux * vx - ux * vy - uy * vx + uy * vy) by (nonlinear_arith);
    assert((ux + uy) * (vx + vy) == ux * vx + ux * vy + uy * vx + uy * vy) by (nonlinear_arith);
    assert((1real - uz) * (1real - vz) == 1real - uz - vz + uz * vz) by (nonlinear_arith);
    assert(ux + uy == 1real - uz && vx + vy == 1real - vz);
    assert(p * q == xx - g - h + yy);
    assert(xx + g + h + yy == 1real - uz - vz + zz);
}

proof fn lemma_square_of_product(a: real, b: real)
    ensures
        (a * b) * (a * b) == (a * a) * (b * b),
{
    assert((a * b) * (a * b) == (a * a) * (b * b)) by (nonlinear_arith);
}

proof fn lemma_halves(a: real, b: real)
    ensures
        4real * ((a / 2real) * (b / 2real)) == a * b,
{
    assert(4real * ((a / 2real) * (b / 2real)) == a * b) by (nonlinear_arith);
}

/// What a speaker plays is worked out exactly, as read.
pub open spec fn exact_played(val: Reading, f: Calc, matrix: Frame, sh: Frame) -> bool {
    forall|n: int|
        0 <= n < 9 ==> exact_plus_prod(
            val,
            f,
            #[trigger] played(f, matrix, sh, n),
            matrix@[n],
            sh@[n],
        )
}

/// What each channel of a speaker's feed is: its degree's share and weight.
pub open spec fn share_of(n: int) -> Single {
    Single(if n == 0 {
        ONE
    } else if n < 4 {
        THREE
    } else {
        FIVE
    })
}

pub open spec fn weight_of(n: int) -> Single {
    Single(if n == 0 {
        ONE
    } else if n < 4 {
        MAXRE_1
    } else {
        MAXRE_2
    })
}

/// In exact arithmetic a virtual speaker plays what comes from a direction by the angle
/// between that and its own alone, and most of what comes from its own: of `many`
/// speakers each plays its part of the whole, the first degree weighing three times
/// that angle's cosine and the second five times its Legendre polynomial, damped.
pub proof fn a_speaker_plays_what_comes_from_its_side(
    val: Reading,
    f: Calc,
    many: Single,
    d: [Single; 3],
    u: [Single; 3],
)
    requires
        is_reading(val),
        val(Single(FIVE)) == value(Single(FIVE)),
        val(Single(SQRT3)) * val(Single(SQRT3)) == 3real,
        inner(vector_as(val, d), vector_as(val, d)) == 1real,
        inner(vector_as(val, u), vector_as(val, u)) == 1real,
        exact_encoded(val, f, d),
        exact_encoded(val, f, u),
        forall|n: int|
            0 <= n < 9 ==> exact_feed(
                val,
                f,
                many,
                share_of(n),
                weight_of(n),
                #[trigger] encoded(f, d)@[n],
            ),
        exact_played(val, f, feeds(f, many, d), encoded(f, u)),
    ensures
        ({
            let c = inner(vector_as(val, d), vector_as(val, u));
            let (w1, w2) = (val(Single(MAXRE_1)), val(Single(MAXRE_2)));
            2real * (val(played(f, feeds(f, many, d), encoded(f, u), 9)) * val(many)) == val(
                Single(MASTER),
            ) * (2real + 6real * (w1 * c) + 5real * (w2 * (3real * (c * c) - 1real)))
        }),
{
    lemma2_to64();
    lemma_is(FIVE, 129, 0x20_0000, 5real);
    let k = val(Single(SQRT3));
    let (p, q) = (vector_as(val, d), vector_as(val, u));
    lemma_encoded(val, f, d);
    lemma_encoded(val, f, u);
    let m = feeds(f, many, d);
    let (ed, eu) = (encoded(f, d), encoded(f, u));
    let (a, b) = (harmonics(k, p), harmonics(k, q));
    let w = val(Single(MASTER));
    let (w1, w2) = (val(Single(MAXRE_1)), val(Single(MAXRE_2)));
    assert forall|i: int| 0 <= i < 9 implies (val(#[trigger] m@[i]) * val(eu@[i])) * val(many) == ((val(
        share_of(i),
    ) * val(weight_of(i))) * w) * (a[i] * b[i]) by {
        assert(exact_feed(val, f, many, share_of(i), weight_of(i), ed@[i]));
        assert(m@[i] == feed(f, many, share_of(i), weight_of(i), ed@[i]));
        lemma_feed(val, f, many, share_of(i), weight_of(i), ed@[i], val(eu@[i]));
    }
    lemma_first_degree(k, p, q);
    lemma_played(val, f, m, eu, 9);
    lemma_channels(val, m, eu, a, b, val(many), w, w1, w2);
    lemma_addition(k, p, q);
    let c = inner(p, q);
    let l = a[4] * b[4] + a[5] * b[5] + a[6] * b[6] + a[7] * b[7] + a[8] * b[8];
    lemma_pattern(w, w1, w2, c, l);
    assert(2real * l == 3real * (c * c) - 1real);
}

proof fn lemma_first_degree(k: real, u: Vector, v: Vector)
    ensures
        ({
            let (a, b) = (harmonics(k, u), harmonics(k, v));
            &&& a[0] == 1real && b[0] == 1real
            &&& a[1] * b[1] + a[2] * b[2] + a[3] * b[3] == inner(u, v)
        }),
{
    reveal(harmonics);
}

proof fn lemma_pattern(w: real, w1: real, w2: real, c: real, l: real)
    ensures
        2real * (w + ((3real * w1) * w) * c + ((5real * w2) * w) * l) == w * (2real + 6real * (w1 * c)
            + 5real * (w2 * (2real * l))),
{
    assert(((3real * w1) * w) * c == 3real * (w * (w1 * c))) by (nonlinear_arith);
    assert(((5real * w2) * w) * l == 5real * (w * (w2 * l))) by (nonlinear_arith);
    let (x, y) = (w1 * c, w2 * l);
    assert(w2 * (2real * l) == 2real * (w2 * l)) by (nonlinear_arith);
    assert(w * (2real + 6real * x + 10real * y) == 2real * w + 6real * (w * x) + 10real * (w * y))
        by (nonlinear_arith);
}

/// The channels of a speaker, each by its degree's share and weight.
proof fn lemma_channels(
    val: Reading,
    m: Frame,
    e: Frame,
    a: Seq<real>,
    b: Seq<real>,
    n: real,
    w: real,
    w1: real,
    w2: real,
)
    requires
        a[0] == 1real && b[0] == 1real,
        val(Single(ONE)) == 1real && val(Single(THREE)) == 3real && val(Single(FIVE)) == 5real,
        w1 == val(Single(MAXRE_1)) && w2 == val(Single(MAXRE_2)),
        forall|i: int|
            0 <= i < 9 ==> (val(#[trigger] m@[i]) * val(e@[i])) * n == ((val(share_of(i)) * val(
                weight_of(i),
            )) * w) * (a[i] * b[i]),
    ensures
        channel_sum(val, m, e, 9) * n == w + ((3real * w1) * w) * (a[1] * b[1] + a[2] * b[2] + a[3]
            * b[3]) + ((5real * w2) * w) * (a[4] * b[4] + a[5] * b[5] + a[6] * b[6] + a[7] * b[7] + a[8]
            * b[8]),
{
    let (t0, t1, t2) = (val(m@[0]) * val(e@[0]), val(m@[1]) * val(e@[1]), val(m@[2]) * val(e@[2]));
    let (t3, t4, t5) = (val(m@[3]) * val(e@[3]), val(m@[4]) * val(e@[4]), val(m@[5]) * val(e@[5]));
    let (t6, t7, t8) = (val(m@[6]) * val(e@[6]), val(m@[7]) * val(e@[7]), val(m@[8]) * val(e@[8]));
    assert(channel_sum(val, m, e, 9) == (t0 + t1 + t2) + (t3 + t4 + t5) + (t6 + t7 + t8)) by {
        reveal_with_fuel(channel_sum, 10);
    }
    lemma_spread3(t0, t1, t2, n);
    lemma_spread3(t3, t4, t5, n);
    lemma_spread3(t6, t7, t8, n);
    lemma_spread3(t0 + t1 + t2, t3 + t4 + t5, t6 + t7 + t8, n);
    let (g1, g2) = ((3real * w1) * w, (5real * w2) * w);
    let (c1, c2, c3) = (a[1] * b[1], a[2] * b[2], a[3] * b[3]);
    let (c4, c5, c6) = (a[4] * b[4], a[5] * b[5], a[6] * b[6]);
    let (c7, c8) = (a[7] * b[7], a[8] * b[8]);
    assert((1real * 1real) * w == w);
    assert(t0 * n == ((1real * 1real) * w) * (1real * 1real));
    assert(w * 1real == w);
    assert(t1 * n == g1 * c1 && t2 * n == g1 * c2 && t3 * n == g1 * c3);
    assert(t4 * n == g2 * c4 && t5 * n == g2 * c5 && t6 * n == g2 * c6);
    assert(t7 * n == g2 * c7 && t8 * n == g2 * c8);
    assert(g1 * (c1 + c2 + c3) == g1 * c1 + g1 * c2 + g1 * c3) by (nonlinear_arith);
    let s = c4 + c5 + c6;
    assert(g2 * (c4 + c5 + c6) == g2 * c4 + g2 * c5 + g2 * c6) by (nonlinear_arith);
    assert(g2 * (s + c7 + c8) == g2 * s + g2 * c7 + g2 * c8) by (nonlinear_arith);
}

proof fn lemma_spread3(a: real, b: real, c: real, n: real)
    ensures
        (a + b + c) * n == a * n + b * n + c * n,
        (a + b + c) * n == n * a + n * b + n * c,
{
    assert((a + b + c) * n == a * n + b * n + c * n) by (nonlinear_arith);
    assert(a * n == n * a && b * n == n * b && c * n == n * c) by (nonlinear_arith);
}

/// The sum over the first `n` channels.
spec fn channel_sum(val: Reading, matrix: Frame, sh: Frame, n: int) -> real
    decreases n,
{
    if n <= 0 {
        0real
    } else {
        channel_sum(val, matrix, sh, n - 1) + val(matrix@[n - 1]) * val(sh@[n - 1])
    }
}

proof fn lemma_played(val: Reading, f: Calc, matrix: Frame, sh: Frame, n: int)
    requires
        exact_played(val, f, matrix, sh),
        val(Single(0)) == 0real,
        n <= 9,
    ensures
        val(played(f, matrix, sh, n)) == channel_sum(val, matrix, sh, n),
    decreases n,
{
    if n > 0 {
        lemma_played(val, f, matrix, sh, n - 1);
        assert(exact_plus_prod(val, f, played(f, matrix, sh, n - 1), matrix@[n - 1], sh@[n - 1]));
    }
}

} // verus!
