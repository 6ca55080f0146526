//! Single-precision arithmetic, done by the host: each operation is a question
//! with one answer. What is computed from which numbers, and in which order,
//! is stated over those answers; comparisons need no host.

use crate::probe::{answer, answering, is_steady};
use crate::single::Single;
use vstd::prelude::*;

verus! {

/// One arithmetic operation.
#[derive(Clone, Copy, Debug, PartialEq, Eq, Structural)]
pub enum Op {
    /// The sum.
    Plus(Single, Single),
    /// The difference.
    Minus(Single, Single),
    /// The product.
    Times(Single, Single),
    /// The quotient.
    Over(Single, Single),
    /// The remainder of the quotient, with the sign of the first.
    Rest(Single, Single),
    /// The first to the power of the second.
    Power(Single, Single),
    /// The natural exponential.
    Exp(Single),
    /// The natural logarithm.
    Ln(Single),
    /// The decimal logarithm.
    Log(Single),
    /// The square root.
    Root(Single),
    Sin(Single),
    Cos(Single),
    Tan(Single),
    Tanh(Single),
    /// The angle, in radians, that has this cosine.
    Acos(Single),
    /// The largest integer that is no larger.
    Floor(Single),
    /// The nearest integer; a half goes away from zero.
    Round(Single),
}

/// The answers to all operations.
pub type Calc = spec_fn(Op) -> Single;

pub open spec fn sum(f: Calc, a: Single, b: Single) -> Single {
    f(Op::Plus(a, b))
}

pub fn plus<F: Fn(Op) -> Single>(f: &F, a: Single, b: Single) -> (r: Single)
    requires
        is_steady(*f),
    ensures
        r == sum(answering(*f), a, b),
{
    let r: Single = f(Op::Plus(a, b));
    assert(answer(*f, Op::Plus(a, b)) == r);
    r
}

pub open spec fn diff(f: Calc, a: Single, b: Single) -> Single {
    f(Op::Minus(a, b))
}

pub fn minus<F: Fn(Op) -> Single>(f: &F, a: Single, b: Single) -> (r: Single)
    requires
        is_steady(*f),
    ensures
        r == diff(answering(*f), a, b),
{
    let r: Single = f(Op::Minus(a, b));
    assert(answer(*f, Op::Minus(a, b)) == r);
    r
}

pub open spec fn prod(f: Calc, a: Single, b: Single) -> Single {
    f(Op::Times(a, b))
}

pub fn times<F: Fn(Op) -> Single>(f: &F, a: Single, b: Single) -> (r: Single)
    requires
        is_steady(*f),
    ensures
        r == prod(answering(*f), a, b),
{
    let r: Single = f(Op::Times(a, b));
    assert(answer(*f, Op::Times(a, b)) == r);
    r
}

pub open spec fn quot(f: Calc, a: Single, b: Single) -> Single {
    f(Op::Over(a, b))
}

pub fn over<F: Fn(Op) -> Single>(f: &F, a: Single, b: Single) -> (r: Single)
    requires
        is_steady(*f),
    ensures
        r == quot(answering(*f), a, b),
{
    let r: Single = f(Op::Over(a, b));
    assert(answer(*f, Op::Over(a, b)) == r);
    r
}

pub open spec fn rest(f: Calc, a: Single, b: Single) -> Single {
    f(Op::Rest(a, b))
}

pub fn rest_of<F: Fn(Op) -> Single>(f: &F, a: Single, b: Single) -> (r: Single)
    requires
        is_steady(*f),
    ensures
        r == rest(answering(*f), a, b),
{
    let r: Single = f(Op::Rest(a, b));
    assert(answer(*f, Op::Rest(a, b)) == r);
    r
}

pub open spec fn power(f: Calc, a: Single, b: Single) -> Single {
    f(Op::Power(a, b))
}

pub fn raise<F: Fn(Op) -> Single>(f: &F, a: Single, b: Single) -> (r: Single)
    requires
        is_steady(*f),
    ensures
        r == power(answering(*f), a, b),
{
    let r: Single = f(Op::Power(a, b));
    assert(answer(*f, Op::Power(a, b)) == r);
    r
}

/// The answer to an operation on one number, or to any other.
pub fn ask<F: Fn(Op) -> Single>(f: &F, op: Op) -> (r: Single)
    requires
        is_steady(*f),
    ensures
        r == answering(*f)(op),
{
    let r: Single = f(op);
    assert(answer(*f, op) == r);
    r
}

/// `a + b * c`.
pub open spec fn plus_prod(f: Calc, a: Single, b: Single, c: Single) -> Single {
    sum(f, a, prod(f, b, c))
}

pub fn add_times<F: Fn(Op) -> Single>(f: &F, a: Single, b: Single, c: Single) -> (r: Single)
    requires
        is_steady(*f),
    ensures
        r == plus_prod(answering(*f), a, b, c),
{
    plus(f, a, times(f, b, c))
}

/// The smaller of two numbers; what is not a number does not count.
pub open spec fn lesser(a: Single, b: Single) -> Single {
    if b.is_nan() {
        a
    } else if a.is_nan() || b.below(a) {
        b
    } else {
        a
    }
}

pub fn lesser_of(a: Single, b: Single) -> (r: Single)
    ensures
        r == lesser(a, b),
{
    if b.is_not_a_number() {
        a
    } else if a.is_not_a_number() || b.lt(a) {
        b
    } else {
        a
    }
}

/// The number, kept within two bounds.
pub open spec fn clamped(x: Single, lo: Single, hi: Single) -> Single {
    if x.below(lo) {
        lo
    } else if hi.below(x) {
        hi
    } else {
        x
    }
}

pub fn clamp_to(x: Single, lo: Single, hi: Single) -> (r: Single)
    ensures
        r == clamped(x, lo, hi),
{
    if x.lt(lo) {
        lo
    } else if hi.lt(x) {
        hi
    } else {
        x
    }
}

/// The larger of two numbers; what is not a number does not count.
pub open spec fn greater(a: Single, b: Single) -> Single {
    if b.is_nan() {
        a
    } else if a.is_nan() || a.below(b) {
        b
    } else {
        a
    }
}

pub fn greater_of(a: Single, b: Single) -> (r: Single)
    ensures
        r == greater(a, b),
{
    if b.is_not_a_number() {
        a
    } else if a.is_not_a_number() || a.lt(b) {
        b
    } else {
        a
    }
}

/// The number without its sign.
pub open spec fn size(a: Single) -> Single {
    Single(a.magnitude() as u32)
}

pub fn size_of(a: Single) -> (r: Single)
    ensures
        r == size(a),
{
    a.abs()
}

} // verus!
