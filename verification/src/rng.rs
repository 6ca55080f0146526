//! xorshift64*: a small deterministic generator.

use crate::arith::{ask, diff, greater, greater_of, minus, prod, times, Calc, Op};
use crate::exact::{
    inner, is_close, is_exact, is_about, lemma_one, lemma_one_num, lemma_order, lemma_two, square, value,
    vector,
};
use crate::geom::TWO;
use crate::mesh::Point;
use crate::output::TAU;
use crate::params::ONE;
use crate::probe::{answering, is_steady};
use crate::single::{fractions_are_unique, unit, whole, Single};
use vstd::arithmetic::power2::*;
use vstd::prelude::*;

verus! {

/// The multiplier that scrambles the state into an output.
pub const SCRAMBLE: u64 = 0x2545_F491_4F6C_DD1D;

/// One step of the xorshift state.
pub open spec fn advance(s: u64) -> u64 {
    let a = s ^ (s >> 12);
    let b = a ^ (a << 25);
    b ^ (b >> 27)
}

/// The output that a state gives.
pub open spec fn emit(s: u64) -> u64 {
    s.wrapping_mul(SCRAMBLE)
}

/// The 24-bit draw that a state gives: the top bits of its output.
pub open spec fn draw(s: u64) -> u32 {
    (emit(s) >> 40) as u32
}

/// The state after `n` steps.
pub open spec fn advanced(s: u64, n: nat) -> u64
    decreases n,
{
    if n == 0 {
        s
    } else {
        advance(advanced(s, (n - 1) as nat))
    }
}

/// The number in [0, 1) that a state gives.
pub open spec fn toss(s: u64) -> Single {
    unit(draw(s) as nat)
}

#[derive(Debug)]
pub struct Rng(u64);

impl View for Rng {
    type V = u64;

    closed spec fn view(&self) -> u64 {
        self.0
    }
}

/// The direction that two numbers in [0, 1) give: one for the height, one for
/// the azimuth.
pub open spec fn on_sphere(f: Calc, u: Single, v: Single) -> Point {
    let z = diff(f, Single(ONE), prod(f, Single(TWO), u));
    around(f, z, prod(f, Single(TAU), v))
}

/// The unit vector at a height and an azimuth.
pub open spec fn around(f: Calc, z: Single, phi: Single) -> Point {
    let r = f(Op::Root(greater(diff(f, Single(ONE), prod(f, z, z)), Single(0))));
    [prod(f, r, f(Op::Cos(phi))), prod(f, r, f(Op::Sin(phi))), z]
}

pub fn direction_at<F: Fn(Op) -> Single>(f: &F, z: Single, phi: Single) -> (p: Point)
    requires
        is_steady(*f),
    ensures
        p == around(answering(*f), z, phi),
{
    let x: Single = greater_of(minus(f, Single(ONE), times(f, z, z)), Single(0));
    let r: Single = ask(f, Op::Root(x));
    let c: Single = ask(f, Op::Cos(phi));
    let s: Single = ask(f, Op::Sin(phi));
    let p: Point = [times(f, r, c), times(f, r, s), z];
    assert(p@ =~= around(answering(*f), z, phi)@);
    p
}

impl Rng {
    pub fn new(seed: u64) -> (r: Self)
        ensures
            r@ == (if seed == 0 { 1 } else { seed }),
            r@ != 0,
    {
        Rng(if seed == 0 { 1 } else { seed })
    }

    pub fn next_u64(&mut self) -> (r: u64)
        ensures
            final(self)@ == advance(old(self)@),
            r == emit(final(self)@),
    {
        let mut x: u64 = self.0;
        x = x ^ (x >> 12);
        x = x ^ (x << 25);
        x = x ^ (x >> 27);
        self.0 = x;
        x.wrapping_mul(SCRAMBLE)
    }

    /// The top 24 bits of the next output.
    pub fn next_draw(&mut self) -> (r: u32)
        ensures
            final(self)@ == advance(old(self)@),
            r == draw(final(self)@),
            r < 0x100_0000,
    {
        let x: u64 = self.next_u64();
        assert((x >> 40) < 0x100_0000) by (bit_vector);
        (x >> 40) as u32
    }

    /// Uniform in [0, 1).
    pub fn next_f32(&mut self) -> (r: Single)
        ensures
            final(self)@ == advance(old(self)@),
            r.is_fraction(draw(final(self)@) as nat),
            r == toss(final(self)@),
    {
        let k: u32 = self.next_draw();
        let r: Single = Single::from_draw(k);
        proof {
            fractions_are_unique(r, k as nat);
        }
        r
    }

    /// Uniform direction on the unit sphere: one draw for the height, one for
    /// the azimuth.
    pub fn unit_sphere<F: Fn(Op) -> Single>(&mut self, f: &F) -> (r: Point)
        requires
            is_steady(*f),
        ensures
            final(self)@ == advanced(old(self)@, 2),
            r == on_sphere(
                answering(*f),
                toss(advanced(old(self)@, 1)),
                toss(advanced(old(self)@, 2)),
            ),
    {
        proof {
            reveal_with_fuel(advanced, 3);
        }
        let u: Single = self.next_f32();
        let z: Single = minus(f, Single(ONE), times(f, Single(TWO), u));
        let v: Single = self.next_f32();
        let phi: Single = times(f, Single(TAU), v);
        direction_at(f, z, phi)
    }
}

/// The generator never falls into the all-zero state, from which it could not
/// leave.
pub proof fn state_stays_nonzero(s: u64, n: nat)
    requires
        s != 0,
    ensures
        advanced(s, n) != 0,
    decreases n,
{
    if n > 0 {
        state_stays_nonzero(s, (n - 1) as nat);
        lemma_advance_nonzero(advanced(s, (n - 1) as nat));
    }
}

proof fn lemma_advance_nonzero(s: u64)
    by (bit_vector)
    requires
        s != 0,
    ensures
        ({
            let a = s ^ (s >> 12);
            let b = a ^ (a << 25);
            b ^ (b >> 27)
        }) != 0,
{
}

/// No two states step to the same state: the stream cannot merge with
/// another.
pub proof fn states_never_merge(s: u64, t: u64)
    requires
        advance(s) == advance(t),
    ensures
        s == t,
{
    let (a, c) = (s ^ (s >> 12), t ^ (t >> 12));
    let (b, d) = (a ^ (a << 25), c ^ (c << 25));
    assert(b == d) by (bit_vector)
        requires
            b ^ (b >> 27) == d ^ (d >> 27),
    ;
    assert(a == c) by (bit_vector)
        requires
            a ^ (a << 25) == c ^ (c << 25),
    ;
    assert(s == t) by (bit_vector)
        requires
            s ^ (s >> 12) == t ^ (t >> 12),
    ;
}

/// No two states give the same output.
pub proof fn outputs_never_collide(s: u64, t: u64)
    requires
        emit(s) == emit(t),
    ensures
        s == t,
{
    let m = 0x1_0000_0000_0000_0000int;
    let k = SCRAMBLE as int;
    let (x, y) = (s as int, t as int);
    let (p, q) = ((x * k) / m, (y * k) / m);
    vstd::arithmetic::div_mod::lemma_fundamental_div_mod(x * k, m);
    vstd::arithmetic::div_mod::lemma_fundamental_div_mod(y * k, m);
    assert((x * k) % m == (y * k) % m);
    let d = x - y;
    let c = p - q;
    assert(d * k == m * c) by (nonlinear_arith)
        requires
            x * k == m * p + (x * k) % m,
            y * k == m * q + (y * k) % m,
            (x * k) % m == (y * k) % m,
            d == x - y,
            c == p - q,
    ;
    // what the scrambler is undone by, modulo 2^64
    let u = 0x5907_1D96_D81E_CD35int;
    let over = 934034299265436267int;
    assert(k * u == 1 + over * m);
    let n = c * u - d * over;
    assert(d == m * n) by (nonlinear_arith)
        requires
            d * k == m * c,
            k * u == 1 + over * m,
            n == c * u - d * over,
    ;
    assert(n == 0) by (nonlinear_arith)
        requires
            d == m * n,
            -m < d < m,
            m > 0,
    ;
}

/// An output is never zero.
pub proof fn outputs_are_nonzero(s: u64)
    requires
        s != 0,
    ensures
        emit(s) != 0,
{
    if emit(s) == 0 {
        assert(0 * SCRAMBLE as int == 0);
        assert(emit(0) == 0);
        outputs_never_collide(s, 0);
    }
}

/// Every operation behind the vector at a height and an azimuth is close, and so
/// are the sine and the cosine: their squares add up to one, nearly.
pub open spec fn is_around_closely(f: Calc, z: Single, phi: Single, e: real) -> bool {
    let zz = prod(f, z, z);
    let x = greater(diff(f, Single(ONE), zz), Single(0));
    let r = f(Op::Root(x));
    &&& is_close(f, Op::Times(z, z), e)
    &&& is_close(f, Op::Minus(Single(ONE), zz), e)
    &&& is_close(f, Op::Root(x), e)
    &&& is_close(f, Op::Times(r, f(Op::Cos(phi))), e)
    &&& is_close(f, Op::Times(r, f(Op::Sin(phi))), e)
    &&& is_about(
        square(value(f(Op::Cos(phi)))) + square(value(f(Op::Sin(phi)))),
        1real,
        e,
    )
}

/// The vector at a height within the sphere has length one, up to rounding: where
/// every answer is within `e`, its square is within twenty times that.
pub proof fn directions_have_length_one(f: Calc, z: Single, phi: Single, e: real)
    requires
        0real <= 100real * e <= 1real,
        is_around_closely(f, z, phi, e),
        -1real <= value(z) <= 1real,
    ensures
        is_about(
            inner(vector(around(f, z, phi)), vector(around(f, z, phi))),
            1real,
            20real * e,
        ),
{
    lemma_one();
    let h = value(z);
    let zz = prod(f, z, z);
    let y = diff(f, Single(ONE), zz);
    let x = greater(y, Single(0));
    let root = f(Op::Root(x));
    let r = value(root);
    let (c, s) = (value(f(Op::Cos(phi))), value(f(Op::Sin(phi))));
    assert(0real <= h * h <= 1real) by (nonlinear_arith)
        requires
            -1real <= h <= 1real,
    ;
    lemma_order(y, Single(0));
    assert(is_about(value(x), 1real - h * h, 2real * e));
    let rr = r * r;
    assert(is_about(rr, 1real - h * h, 3real * e));
    let t = c * c + s * s;
    assert(c * c >= 0real && s * s >= 0real && r * r >= 0real) by (nonlinear_arith);
    let (p, q) = (value(prod(f, root, f(Op::Cos(phi)))), value(prod(f, root, f(Op::Sin(phi)))));
    lemma_near_square(p, r * c, e);
    lemma_near_square(q, r * s, e);
    assert((r * c) * (r * c) == (r * r) * (c * c)) by (nonlinear_arith);
    assert((r * s) * (r * s) == (r * r) * (s * s)) by (nonlinear_arith);
    let (cc, ss) = (c * c, s * s);
    assert(rr * cc + rr * ss == rr * (cc + ss)) by (nonlinear_arith);
    assert(-2real * e <= rr * t - rr <= 2real * e) by (nonlinear_arith)
        requires
            0real <= rr <= 2real,
            1real - e <= t <= 1real + e,
    ;
    lemma_product_bound(r, c, rr, cc);
    lemma_product_bound(r, s, rr, ss);
}

/// The square of a product is at most that of its factors.
proof fn lemma_product_bound(r: real, c: real, rr: real, cc: real)
    requires
        rr == r * r,
        cc == c * c,
        0real <= rr <= 2real,
        0real <= cc <= 2real,
    ensures
        -2real <= r * c <= 2real,
{
    let x = r * c;
    assert((r * c) * (r * c) == (r * r) * (c * c)) by (nonlinear_arith);
    assert(rr * cc <= 4real) by (nonlinear_arith)
        requires
            0real <= rr <= 2real,
            0real <= cc <= 2real,
    ;
    lemma_at_most(x, 2real);
}

proof fn lemma_at_most(x: real, b: real)
    requires
        x * x <= b * b,
        b >= 0real,
    ensures
        -b <= x <= b,
{
    if x > b {
        assert(x * x > b * b) by (nonlinear_arith)
            requires
                x > b,
                b >= 0real,
        ;
    }
    if x < -b {
        assert(x * x > b * b) by (nonlinear_arith)
            requires
                x < -b,
                b >= 0real,
        ;
    }
}

/// A number near one of at most two has nearly its square.
proof fn lemma_near_square(p: real, x: real, e: real)
    requires
        is_about(p, x, e),
        0real <= 100real * e <= 1real,
    ensures
        -2real <= x <= 2real ==> is_about(p * p, x * x, 5real * e),
{
    if -2real <= x <= 2real {
        let d = p - x;
        assert(p * p == x * x + 2real * (x * d) + d * d) by (nonlinear_arith)
            requires
                p == x + d,
        ;
        assert(-2real * e <= x * d <= 2real * e) by (nonlinear_arith)
            requires
                -2real <= x <= 2real,
                -e <= d <= e,
        ;
        assert(0real <= d * d <= e) by (nonlinear_arith)
            requires
                -e <= d <= e,
                0real <= e <= 1real,
        ;
    }
}

/// A uniform direction has length one up to rounding, whatever was drawn.
pub proof fn uniform_directions_have_length_one(f: Calc, u: Single, v: Single, k: nat, e: real)
    requires
        u.is_fraction(k),
        k < 0x100_0000,
        is_exact(f, Op::Times(Single(TWO), u)),
        is_exact(f, Op::Minus(Single(ONE), prod(f, Single(TWO), u))),
        0real <= 100real * e <= 1real,
        is_around_closely(
            f,
            diff(f, Single(ONE), prod(f, Single(TWO), u)),
            prod(f, Single(TAU), v),
            e,
        ),
    ensures
        is_about(inner(vector(on_sphere(f, u, v)), vector(on_sphere(f, u, v))), 1real, 20real * e),
{
    lemma_one();
    lemma_two();
    fractions_lie_in_unit_interval(u, k);
    assert(Single(0).num() == 0);
    lemma_order(Single(0), u);
    lemma_order(u, Single(ONE));
    lemma_one_num();
    directions_have_length_one(
        f,
        diff(f, Single(ONE), prod(f, Single(TWO), u)),
        prod(f, Single(TAU), v),
        e,
    );
}

/// A uniform draw is at least 0 and below 1.
pub proof fn fractions_lie_in_unit_interval(r: Single, k: nat)
    requires
        r.is_fraction(k),
        k < 0x100_0000,
    ensures
        0 <= r.num() < whole(1),
{
    lemma2_to64();
    lemma_pow2_pos(149);
    let (p, big) = (pow2(24) as int, pow2(149) as int);
    assert(0 <= r.num() < big) by (nonlinear_arith)
        requires
            r.num() * p == k * big,
            p == 0x100_0000,
            0 <= k < 0x100_0000,
            big > 0,
    ;
}

} // verus!
