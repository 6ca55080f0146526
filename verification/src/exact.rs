//! What the host's arithmetic is measured by: the numbers that patterns stand
//! for, and answers that are exact. Laws of geometry hold of the numbers, and of
//! the patterns as far as the operations behind them are exact.

use crate::arith::{prod, size, sum, Calc, Op};
use crate::geom::{dot, TWO};
use crate::mesh::Point;
use crate::params::ONE;
use crate::scene::MINUS_ONE;
use crate::single::{
    lemma_grid_increases, nearest_is_unique, rounded, signed_rounded, small_integers_are_exact, whole,
    Single,
};
use vstd::arithmetic::power2::{lemma2_to64, lemma_pow2_adds, lemma_pow2_pos, lemma_pow2_unfold, pow2};
use vstd::prelude::*;

verus! {

/// A vector of numbers.
pub type Vector = (real, real, real);

/// The number that a pattern stands for.
pub open spec fn value(s: Single) -> real {
    s.num() as real / (pow2(149) as int as real)
}

/// The vector that a point stands for.
pub open spec fn vector(p: Point) -> Vector {
    (value(p@[0]), value(p@[1]), value(p@[2]))
}

/// What number each pattern stands for, to a host that reads them its own way:
/// one that keeps more digits than fit can read them so that it is exact where
/// the machine rounds.
pub type Reading = spec_fn(Single) -> real;

/// The vector that a point stands for, as read.
pub open spec fn vector_as(val: Reading, p: Point) -> Vector {
    (val(p@[0]), val(p@[1]), val(p@[2]))
}

/// The answer to an operation is the result, as read.
pub open spec fn is_exact_as(val: Reading, f: Calc, op: Op) -> bool {
    let r = val(f(op));
    match op {
        Op::Plus(a, b) => r == val(a) + val(b),
        Op::Minus(a, b) => r == val(a) - val(b),
        Op::Times(a, b) => r == val(a) * val(b),
        Op::Over(a, b) => val(b) != 0real && r * val(b) == val(a),
        Op::Root(a) => r >= 0real && r * r == val(a),
        _ => true,
    }
}

/// The answer to an operation is a number, and no other than the result.
pub open spec fn is_exact(f: Calc, op: Op) -> bool {
    let r = value(f(op));
    &&& f(op).is_finite()
    &&& match op {
        Op::Plus(a, b) => r == value(a) + value(b),
        Op::Minus(a, b) => r == value(a) - value(b),
        Op::Times(a, b) => r == value(a) * value(b),
        Op::Over(a, b) => value(b) != 0real && r * value(b) == value(a),
        Op::Root(a) => r >= 0real && r * r == value(a),
        _ => true,
    }
}

/// Two numbers are no further apart than `e`.
pub open spec fn is_about(x: real, y: real, e: real) -> bool {
    y - e <= x <= y + e
}

/// The answer to an operation is a number within `e` of the result; of a root, its
/// square is, and of a quotient, what gives the dividend back. Within nothing it is
/// exact.
pub open spec fn is_close(f: Calc, op: Op, e: real) -> bool {
    let r = value(f(op));
    &&& f(op).is_finite()
    &&& match op {
        Op::Plus(a, b) => is_about(r, value(a) + value(b), e),
        Op::Minus(a, b) => is_about(r, value(a) - value(b), e),
        Op::Times(a, b) => is_about(r, value(a) * value(b), e),
        Op::Over(a, b) => value(b) != 0real && is_about(r * value(b), value(a), e),
        Op::Root(a) => r >= 0real && is_about(r * r, value(a), e),
        _ => true,
    }
}

/// The difference of two points is exact.
pub open spec fn exact_vdiff(f: Calc, a: Point, b: Point) -> bool {
    &&& is_exact(f, Op::Minus(a@[0], b@[0]))
    &&& is_exact(f, Op::Minus(a@[1], b@[1]))
    &&& is_exact(f, Op::Minus(a@[2], b@[2]))
}

/// A vector times a number is exact.
pub open spec fn exact_vscaled(f: Calc, a: Point, k: Single) -> bool {
    &&& is_exact(f, Op::Times(a@[0], k))
    &&& is_exact(f, Op::Times(a@[1], k))
    &&& is_exact(f, Op::Times(a@[2], k))
}

/// The inner product is exact.
pub open spec fn exact_dot(f: Calc, a: Point, b: Point) -> bool {
    let x = prod(f, a@[0], b@[0]);
    let y = prod(f, a@[1], b@[1]);
    let z = prod(f, a@[2], b@[2]);
    &&& is_exact(f, Op::Times(a@[0], b@[0]))
    &&& is_exact(f, Op::Times(a@[1], b@[1]))
    &&& is_exact(f, Op::Times(a@[2], b@[2]))
    &&& is_exact(f, Op::Plus(x, y))
    &&& is_exact(f, Op::Plus(sum(f, x, y), z))
}

/// `a * b - c * d` is exact.
pub open spec fn exact_prod_diff(f: Calc, a: Single, b: Single, c: Single, d: Single) -> bool {
    &&& is_exact(f, Op::Times(a, b))
    &&& is_exact(f, Op::Times(c, d))
    &&& is_exact(f, Op::Minus(prod(f, a, b), prod(f, c, d)))
}

/// The outer product is exact.
pub open spec fn exact_cross(f: Calc, a: Point, b: Point) -> bool {
    &&& exact_prod_diff(f, a@[1], b@[2], a@[2], b@[1])
    &&& exact_prod_diff(f, a@[2], b@[0], a@[0], b@[2])
    &&& exact_prod_diff(f, a@[0], b@[1], a@[1], b@[0])
}

/// The length of a vector is exact.
pub open spec fn exact_norm(f: Calc, a: Point) -> bool {
    exact_dot(f, a, a) && is_exact(f, Op::Root(dot(f, a, a)))
}

pub open spec fn inner(a: Vector, b: Vector) -> real {
    a.0 * b.0 + a.1 * b.1 + a.2 * b.2
}

pub open spec fn outer(a: Vector, b: Vector) -> Vector {
    (a.1 * b.2 - a.2 * b.1, a.2 * b.0 - a.0 * b.2, a.0 * b.1 - a.1 * b.0)
}

pub open spec fn square(x: real) -> real {
    x * x
}

pub proof fn lemma_one_num()
    ensures
        Single(ONE).num() == pow2(149),
        Single(ONE).is_finite(),
{
    lemma2_to64();
    lemma_pow2_adds(23, 126);
    assert((0x80_0000 + 0) * pow2(126) == pow2(149)) by (nonlinear_arith)
        requires
            pow2(23) * pow2(126) == pow2(149),
            pow2(23) == 0x80_0000,
    ;
}

/// What one and zero stand for.
pub proof fn lemma_one()
    ensures
        value(Single(ONE)) == 1real,
        value(Single(0)) == 0real,
{
    lemma_pow2_pos(149);
    lemma_one_num();
    let u = pow2(149) as int as real;
    assert(u / u == 1real) by (nonlinear_arith)
        requires
            u != 0real,
    ;
    assert(0real / u == 0real) by (nonlinear_arith)
        requires
            u != 0real,
    ;
}

/// What two stands for.
pub proof fn lemma_two()
    ensures
        value(Single(TWO)) == 2real,
{
    lemma2_to64();
    lemma_pow2_adds(23, 127);
    lemma_pow2_adds(1, 149);
    assert((0x80_0000 + 0) * pow2(127) == pow2(150)) by (nonlinear_arith)
        requires
            pow2(23) * pow2(127) == pow2(150),
            pow2(23) == 0x80_0000,
    ;
    lemma_pow2_pos(149);
    let u = pow2(149) as int as real;
    assert(Single(TWO).num() == 2 * pow2(149));
    assert((2real * u) / u == 2real) by (nonlinear_arith)
        requires
            u != 0real,
    ;
    assert(Single(TWO).num() as real == 2real * u);
}

/// Values are ordered as the patterns are.
pub proof fn lemma_order(a: Single, b: Single)
    requires
        a.is_finite(),
        b.is_finite(),
    ensures
        a.below(b) <==> value(a) < value(b),
        a.at_most(b) <==> value(a) <= value(b),
        a.num() == b.num() <==> value(a) == value(b),
{
    lemma_pow2_pos(149);
    let u = pow2(149) as int as real;
    let (x, y) = (a.num() as real, b.num() as real);
    assert(x < y <==> x / u < y / u) by (nonlinear_arith)
        requires
            u > 0real,
    ;
    assert(x == y <==> x / u == y / u) by (nonlinear_arith)
        requires
            u > 0real,
    ;
}

/// What the magnitude of a number stands for.
pub proof fn lemma_size(a: Single)
    requires
        a.is_finite(),
    ensures
        size(a).is_finite(),
        value(size(a)) >= 0real,
        value(size(a)) == value(a) || value(size(a)) == -value(a),
{
    lemma_one();
    lemma_negated(a);
    if a.magnitude() > 0 {
        lemma_grid_increases(0, a.magnitude());
    }
    assert(Single(0).num() == 0);
    lemma_order(Single(0), size(a));
    assert(size(a) == a || size(a) == a.negated());
}

/// The other sign stands for the opposite number.
pub proof fn lemma_negated_num(a: Single)
    ensures
        a.negated().num() == -a.num(),
        a.negated().is_nan() == a.is_nan(),
{
    if a.magnitude() > 0 {
        lemma_grid_increases(0, a.magnitude());
    }
}

/// The other sign stands for the opposite number.
pub proof fn lemma_negated(a: Single)
    ensures
        value(a.negated()) == -value(a),
        a.negated().negated() == a,
        a.negated().is_finite() == a.is_finite(),
{
    lemma_pow2_pos(149);
    let u = pow2(149) as int as real;
    let x = a.num() as real;
    if a.magnitude() > 0 {
        lemma_grid_increases(0, a.magnitude());
    }
    assert(a.negated().num() == -a.num());
    assert((-x) / u == -(x / u)) by (nonlinear_arith)
        requires
            u > 0real,
    ;
}

/// A number other than zero has one pattern.
pub proof fn lemma_same_num(a: Single, b: Single)
    requires
        a.num() == b.num(),
        a.num() != 0,
    ensures
        a == b,
{
    let (x, y) = (a.magnitude(), b.magnitude());
    if x < y {
        lemma_grid_increases(x, y);
    }
    if y < x {
        lemma_grid_increases(y, x);
    }
}

/// A number other than zero has one pattern.
pub proof fn lemma_same_pattern(a: Single, b: Single)
    requires
        a.is_finite(),
        b.is_finite(),
        value(a) == value(b),
        value(a) != 0real,
    ensures
        a == b,
{
    lemma_order(a, b);
    lemma_one();
    lemma_order(a, Single(0));
    assert(Single(0).num() == 0);
    lemma_same_num(a, b);
}

/// What stands for zero is a number.
pub proof fn lemma_nothing(a: Single)
    requires
        a.num() == 0,
    ensures
        a.is_finite(),
        value(a) == 0real,
{
    if a.magnitude() > 0 {
        lemma_grid_increases(0, a.magnitude());
    }
    lemma_one();
    assert(Single(0).num() == 0);
    lemma_order(a, Single(0));
}

/// What is not a number lies within no bounds.
pub proof fn lemma_within(x: Single, hi: Single)
    requires
        !x.is_nan(),
        hi.is_finite(),
        0 <= x.num() <= hi.num(),
    ensures
        x.is_finite(),
{
    if !x.is_finite() {
        lemma_grid_increases(0, x.magnitude());
        if hi.magnitude() < x.magnitude() {
            lemma_grid_increases(hi.magnitude(), x.magnitude());
        }
    }
}

/// The whole number nothing has the pattern nothing.
pub proof fn lemma_rounded_zero()
    ensures
        rounded(0) == Single(0),
{
    assert(whole(0) == 0);
    assert(Single(0).num() == 0);
    assert(Single(0).is_nearest(whole(0)));
    nearest_is_unique(rounded(0), Single(0), whole(0));
}

/// Opposite whole numbers have opposite patterns.
pub proof fn lemma_opposite(n: int)
    ensures
        value(signed_rounded(-n)) == -value(signed_rounded(n)),
{
    lemma_rounded_zero();
    lemma_one();
    lemma_negated(rounded(n as nat));
    lemma_negated(rounded((-n) as nat));
}

/// What minus one stands for.
pub proof fn lemma_minus_one()
    ensures
        value(Single(MINUS_ONE)) == -1real,
{
    lemma_one();
    lemma_negated(Single(ONE));
    assert(Single(ONE).negated() == Single(MINUS_ONE));
}

/// A number from zero up.
pub open spec fn is_nonneg(a: Single) -> bool {
    Single(0).at_most(a)
}

/// Rounding keeps order: a larger number gives no smaller product with a number
/// above zero, no smaller quotient, sum or root, and signs follow their rule. So
/// it is wherever results are rounded to the nearest number.
pub open spec fn is_orderly(f: Calc) -> bool {
    &&& forall|a: Single, b: Single, k: Single|
        #![trigger f(Op::Times(a, k)), f(Op::Times(b, k))]
        a.at_most(b) && Single(0).below(k) && k.is_finite() ==> f(Op::Times(a, k)).at_most(
            f(Op::Times(b, k)),
        )
    &&& forall|a: Single, b: Single, k: Single|
        #![trigger f(Op::Times(k, a)), f(Op::Times(k, b))]
        a.at_most(b) && Single(0).below(k) && k.is_finite() ==> f(Op::Times(k, a)).at_most(
            f(Op::Times(k, b)),
        )
    &&& forall|a: Single, b: Single, k: Single|
        #![trigger f(Op::Times(a, k)), f(Op::Times(b, k))]
        a.at_most(b) && a.is_finite() && b.is_finite() && is_nonneg(k) && k.is_finite() ==> f(
            Op::Times(a, k),
        ).at_most(f(Op::Times(b, k)))
    &&& forall|a: Single, b: Single, k: Single|
        #![trigger f(Op::Times(k, a)), f(Op::Times(k, b))]
        a.at_most(b) && a.is_finite() && b.is_finite() && is_nonneg(k) && k.is_finite() ==> f(
            Op::Times(k, a),
        ).at_most(f(Op::Times(k, b)))
    &&& forall|a: Single| a.is_finite() ==> (#[trigger] f(Op::Times(a, Single(ONE)))).num() == a.num()
    &&& forall|a: Single| is_share(a) ==> is_share(#[trigger] f(Op::Minus(Single(ONE), a)))
    &&& forall|a: Single, b: Single, k: Single|
        #![trigger f(Op::Over(a, k)), f(Op::Over(b, k))]
        a.at_most(b) && Single(0).below(k) && k.is_finite() ==> f(Op::Over(a, k)).at_most(
            f(Op::Over(b, k)),
        )
    &&& forall|a: Single, b: Single, k: Single|
        #![trigger f(Op::Plus(k, a)), f(Op::Plus(k, b))]
        a.at_most(b) && k.is_finite() ==> f(Op::Plus(k, a)).at_most(f(Op::Plus(k, b)))
    &&& forall|a: Single, b: Single|
        #![trigger f(Op::Root(a)), f(Op::Root(b))]
        is_nonneg(a) && a.at_most(b) ==> f(Op::Root(a)).at_most(f(Op::Root(b)))
    &&& forall|a: Single| is_nonneg(a) ==> is_nonneg(#[trigger] f(Op::Root(a)))
    &&& forall|a: Single, b: Single|
        is_nonneg(a) && is_nonneg(b) && a.is_finite() && b.is_finite() ==> is_nonneg(
            #[trigger] f(Op::Times(a, b)),
        )
    &&& forall|a: Single, b: Single|
        is_nonneg(a) && is_nonneg(b) ==> is_nonneg(#[trigger] f(Op::Plus(a, b)))
    &&& forall|a: Single, k: Single|
        #![trigger f(Op::Times(k, a))]
        Single(0).below(k) && k.is_finite() ==> {
            &&& is_nonneg(a) ==> is_nonneg(f(Op::Times(k, a)))
            &&& a.at_most(Single(0)) ==> f(Op::Times(k, a)).at_most(Single(0))
        }
    &&& forall|a: Single, k: Single|
        #![trigger f(Op::Over(a, k))]
        Single(0).below(k) && k.is_finite() ==> {
            &&& is_nonneg(a) ==> is_nonneg(f(Op::Over(a, k)))
            &&& a.at_most(Single(0)) ==> f(Op::Over(a, k)).at_most(Single(0))
        }
}

/// A number from zero up that is no infinity.
pub open spec fn is_amplitude(a: Single) -> bool {
    is_nonneg(a) && a.is_finite()
}

/// A number from zero to one.
pub open spec fn is_share(a: Single) -> bool {
    is_nonneg(a) && a.at_most(Single(ONE))
}

/// A share of an amplitude is an amplitude, and no larger.
pub proof fn lemma_share(f: Calc, a: Single, t: Single)
    requires
        is_orderly(f),
        is_amplitude(a),
        is_share(t),
    ensures
        is_amplitude(f(Op::Times(a, t))),
        f(Op::Times(a, t)).at_most(a),
        t.is_finite(),
{
    assert(Single(0).num() == 0);
    lemma_one_num();
    lemma_within(t, Single(ONE));
    assert(f(Op::Times(a, t)).at_most(f(Op::Times(a, Single(ONE)))));
    lemma_within(f(Op::Times(a, t)), a);
}

pub proof fn lemma_square(a: real)
    ensures
        a * a >= 0real,
{
    assert(a * a >= 0real) by (nonlinear_arith);
}

/// What the pattern of a number between an eighth and eight stands for: its
/// fraction, in 2^23rds, times a power of two. The power 127 leaves it as it is.
pub proof fn lemma_scale(bits: u32, e: nat, m: nat)
    requires
        126 <= e <= 128,
        m < 0x80_0000,
        bits == e * 0x80_0000 + m,
    ensures
        Single(bits).is_finite(),
        e == 126 ==> value(Single(bits)) * 2real == (0x80_0000 + m) as real / 0x80_0000 as real,
        e == 127 ==> value(Single(bits)) == (0x80_0000 + m) as real / 0x80_0000 as real,
        e == 128 ==> value(Single(bits)) == 2real * ((0x80_0000 + m) as real / 0x80_0000 as real),
{
    let b = 0x80_0000nat;
    assert(bits as nat / b == e && bits as nat % b == m) by (nonlinear_arith)
        requires
            bits as nat == e * b + m,
            m < b,
            b == 0x80_0000,
    ;
    let p = pow2((e - 1) as nat) as int;
    let u = pow2(149) as int;
    lemma2_to64();
    lemma_pow2_pos(149);
    lemma_pow2_adds(23, 126);
    assert(u == 0x80_0000 * pow2(126)) by (nonlinear_arith)
        requires
            u == pow2(23) * pow2(126),
            pow2(23) == 0x80_0000,
    ;
    lemma_pow2_unfold(127);
    lemma_pow2_unfold(126);
    let k = (0x80_0000 + m) as int;
    assert(Single(bits).num() == k * p);
    let (kr, t, ur) = (k as real, pow2(126) as int as real, u as real);
    assert(ur == 0x80_0000 as real * t);
    assert(t > 0real);
    assert((k * p) as real == (k as real) * (p as real)) by (nonlinear_arith);
    assert((kr * t) / (0x80_0000 as real * t) == kr / 0x80_0000 as real) by (nonlinear_arith)
        requires
            t > 0real,
    ;
    if e == 128 {
        assert(p as real == 2real * t);
        assert((kr * (2real * t)) / (0x80_0000 as real * t) == 2real * (kr / 0x80_0000 as real))
            by (nonlinear_arith)
            requires
                t > 0real,
        ;
    } else if e == 126 {
        assert(2real * (p as real) == t);
        let q = p as real;
        assert((kr * q) / (0x80_0000 as real * t) * 2real == kr / 0x80_0000 as real)
            by (nonlinear_arith)
            requires
                t > 0real,
                2real * q == t,
        ;
    }
}

/// A small whole number is what its pattern stands for.
pub proof fn lemma_whole(n: int)
    requires
        -0x100_0000 <= n <= 0x100_0000,
    ensures
        value(signed_rounded(n)) == n as real,
{
    let k = (if n < 0 {
        -n
    } else {
        n
    }) as nat;
    small_integers_are_exact(k);
    let e = choose|e: Single| e.is_finite() && !e.is_negative() && #[trigger] e.num() == whole(
        k as int,
    );
    assert(e.is_nearest(whole(k as int)));
    nearest_is_unique(rounded(k), e, whole(k as int));
    lemma_pow2_pos(149);
    let u = pow2(149) as int;
    assert((k * u) as real == (k as int as real) * (u as real)) by (nonlinear_arith);
    let (x, y) = (k as int as real, u as real);
    assert((x * y) / y == x) by (nonlinear_arith)
        requires
            y > 0real,
    ;
    lemma_negated(e);
}

/// Rounding keeps the opposite order of what is taken away and of what is divided
/// by. So it is wherever results are rounded to the nearest number.
pub open spec fn is_reversing(f: Calc) -> bool {
    &&& forall|a: Single, b: Single, k: Single|
        #![trigger f(Op::Minus(k, a)), f(Op::Minus(k, b))]
        a.at_most(b) && k.is_finite() ==> f(Op::Minus(k, b)).at_most(f(Op::Minus(k, a)))
    &&& forall|a: Single, b: Single, k: Single|
        #![trigger f(Op::Over(k, a)), f(Op::Over(k, b))]
        a.at_most(b) && Single(0).below(a) && is_nonneg(k) && k.is_finite() ==> f(
            Op::Over(k, b),
        ).at_most(f(Op::Over(k, a)))
}

/// The sum of two numbers, each within its bound.
pub proof fn lemma_about(x: real, y: real, z: real, d: real, e: real)
    requires
        is_about(x, y, d),
        is_about(y, z, e),
    ensures
        is_about(x, z, d + e),
{
}

/// A product with one factor off.
pub proof fn lemma_about_times(x: real, y: real, k: real, e: real)
    requires
        is_about(x, y, e),
        k >= 0real,
    ensures
        is_about(x * k, y * k, e * k),
        is_about(k * x, k * y, e * k),
{
    assert((y - e) * k <= x * k && x * k <= (y + e) * k) by (nonlinear_arith)
        requires
            y - e <= x <= y + e,
            k >= 0real,
    ;
    assert((y - e) * k == y * k - e * k && (y + e) * k == y * k + e * k) by (nonlinear_arith);
    assert(k * x == x * k && k * y == y * k) by (nonlinear_arith);
}

/// What the pattern of a number below 2^24 stands for: its fraction, in 2^23rds, by
/// a power of two.
pub proof fn lemma_bits(bits: u32, e: nat, m: nat)
    requires
        86 <= e <= 150,
        m < 0x80_0000,
        bits == e * 0x80_0000 + m,
    ensures
        Single(bits).is_finite(),
        value(Single(bits)) * (pow2((150 - e) as nat) as int as real) == (0x80_0000 + m) as real,
{
    let b = 0x80_0000nat;
    assert(bits as nat / b == e && bits as nat % b == m) by (nonlinear_arith)
        requires
            bits as nat == e * b + m,
            m < b,
            b == 0x80_0000,
    ;
    let p = pow2((e - 1) as nat) as int;
    let q = pow2((150 - e) as nat) as int;
    let u = pow2(149) as int;
    lemma_pow2_pos(149);
    lemma_pow2_adds((e - 1) as nat, (150 - e) as nat);
    let k = (0x80_0000 + m) as int;
    assert(Single(bits).num() == k * p);
    let (kr, pr, qr, ur) = (k as real, p as real, q as real, u as real);
    assert(u == p * q);
    assert((p * q) as real == (p as real) * (q as real)) by (nonlinear_arith);
    assert((k * p) as real == (k as real) * (p as real)) by (nonlinear_arith);
    let v = (kr * pr) / ur;
    assert(v * ur == kr * pr) by (nonlinear_arith)
        requires
            v == (kr * pr) / ur,
            ur > 0real,
    ;
    lemma_pow2_pos((e - 1) as nat);
    assert(v * qr == kr) by (nonlinear_arith)
        requires
            v * (pr * qr) == kr * pr,
            pr > 0real,
    ;
}

/// A pattern stands for a number that its fraction says.
pub proof fn lemma_is(bits: u32, e: nat, m: nat, x: real)
    requires
        86 <= e <= 150,
        m < 0x80_0000,
        bits == e * 0x80_0000 + m,
        x * (pow2((150 - e) as nat) as int as real) == (0x80_0000 + m) as real,
    ensures
        Single(bits).is_finite(),
        value(Single(bits)) == x,
{
    lemma_bits(bits, e, m);
    lemma_pow2_pos((150 - e) as nat);
    let (v, q) = (value(Single(bits)), pow2((150 - e) as nat) as int as real);
    assert(v == x) by (nonlinear_arith)
        requires
            v * q == x * q,
            q > 0real,
    ;
}

} // verus!
