//! Points and directions in space.

use crate::arith::{
    ask, diff, greater, greater_of, lesser, lesser_of, minus, over, plus, prod, quot, sum, times,
    Calc, Op,
};
use crate::mesh::Point;
use crate::params::ONE;
use crate::probe::{answering, is_steady};
use crate::single::Single;
use vstd::prelude::*;

verus! {

/// The sum of two vectors.
pub open spec fn vsum(f: Calc, a: Point, b: Point) -> Point {
    [sum(f, a@[0], b@[0]), sum(f, a@[1], b@[1]), sum(f, a@[2], b@[2])]
}

pub fn vplus<F: Fn(Op) -> Single>(f: &F, a: Point, b: Point) -> (r: Point)
    requires
        is_steady(*f),
    ensures
        r == vsum(answering(*f), a, b),
{
    let r: Point = [plus(f, a[0], b[0]), plus(f, a[1], b[1]), plus(f, a[2], b[2])];
    assert(r@ =~= vsum(answering(*f), a, b)@);
    r
}

/// The way from `b` to `a`.
pub open spec fn vdiff(f: Calc, a: Point, b: Point) -> Point {
    [diff(f, a@[0], b@[0]), diff(f, a@[1], b@[1]), diff(f, a@[2], b@[2])]
}

pub fn vminus<F: Fn(Op) -> Single>(f: &F, a: Point, b: Point) -> (r: Point)
    requires
        is_steady(*f),
    ensures
        r == vdiff(answering(*f), a, b),
{
    let r: Point = [minus(f, a[0], b[0]), minus(f, a[1], b[1]), minus(f, a[2], b[2])];
    assert(r@ =~= vdiff(answering(*f), a, b)@);
    r
}

/// A vector times a number.
pub open spec fn vscaled(f: Calc, a: Point, k: Single) -> Point {
    [prod(f, a@[0], k), prod(f, a@[1], k), prod(f, a@[2], k)]
}

pub fn vscale<F: Fn(Op) -> Single>(f: &F, a: Point, k: Single) -> (r: Point)
    requires
        is_steady(*f),
    ensures
        r == vscaled(answering(*f), a, k),
{
    let r: Point = [times(f, a[0], k), times(f, a[1], k), times(f, a[2], k)];
    assert(r@ =~= vscaled(answering(*f), a, k)@);
    r
}

/// `a + b * k`.
pub open spec fn along(f: Calc, a: Point, b: Point, k: Single) -> Point {
    vsum(f, a, vscaled(f, b, k))
}

pub fn go_along<F: Fn(Op) -> Single>(f: &F, a: Point, b: Point, k: Single) -> (r: Point)
    requires
        is_steady(*f),
    ensures
        r == along(answering(*f), a, b, k),
{
    vplus(f, a, vscale(f, b, k))
}

/// The inner product.
pub open spec fn dot(f: Calc, a: Point, b: Point) -> Single {
    sum(f, sum(f, prod(f, a@[0], b@[0]), prod(f, a@[1], b@[1])), prod(f, a@[2], b@[2]))
}

pub fn dot_of<F: Fn(Op) -> Single>(f: &F, a: Point, b: Point) -> (r: Single)
    requires
        is_steady(*f),
    ensures
        r == dot(answering(*f), a, b),
{
    let xy: Single = plus(f, times(f, a[0], b[0]), times(f, a[1], b[1]));
    plus(f, xy, times(f, a[2], b[2]))
}

/// `a * b - c * d`.
pub open spec fn prod_diff(f: Calc, a: Single, b: Single, c: Single, d: Single) -> Single {
    diff(f, prod(f, a, b), prod(f, c, d))
}

pub fn times_minus<F: Fn(Op) -> Single>(f: &F, a: Single, b: Single, c: Single, d: Single) -> (r:
    Single)
    requires
        is_steady(*f),
    ensures
        r == prod_diff(answering(*f), a, b, c, d),
{
    minus(f, times(f, a, b), times(f, c, d))
}

/// The outer product.
pub open spec fn cross(f: Calc, a: Point, b: Point) -> Point {
    [
        prod_diff(f, a@[1], b@[2], a@[2], b@[1]),
        prod_diff(f, a@[2], b@[0], a@[0], b@[2]),
        prod_diff(f, a@[0], b@[1], a@[1], b@[0]),
    ]
}

pub fn cross_of<F: Fn(Op) -> Single>(f: &F, a: Point, b: Point) -> (r: Point)
    requires
        is_steady(*f),
    ensures
        r == cross(answering(*f), a, b),
{
    let r: Point = [
        times_minus(f, a[1], b[2], a[2], b[1]),
        times_minus(f, a[2], b[0], a[0], b[2]),
        times_minus(f, a[0], b[1], a[1], b[0]),
    ];
    assert(r@ =~= cross(answering(*f), a, b)@);
    r
}

/// The length of a vector.
pub open spec fn norm(f: Calc, a: Point) -> Single {
    f(Op::Root(dot(f, a, a)))
}

pub fn norm_of<F: Fn(Op) -> Single>(f: &F, a: Point) -> (r: Single)
    requires
        is_steady(*f),
    ensures
        r == norm(answering(*f), a),
{
    let d: Single = dot_of(f, a, a);
    ask(f, Op::Root(d))
}

/// How far two points are apart.
pub open spec fn distance(f: Calc, a: Point, b: Point) -> Single {
    norm(f, vdiff(f, a, b))
}

pub fn distance_of<F: Fn(Op) -> Single>(f: &F, a: Point, b: Point) -> (r: Single)
    requires
        is_steady(*f),
    ensures
        r == distance(answering(*f), a, b),
{
    norm_of(f, vminus(f, a, b))
}

/// The vector at unit length.
pub open spec fn unit_of(f: Calc, a: Point) -> Point {
    vscaled(f, a, quot(f, Single(ONE), norm(f, a)))
}

pub fn normalize<F: Fn(Op) -> Single>(f: &F, a: Point) -> (r: Point)
    requires
        is_steady(*f),
    ensures
        r == unit_of(answering(*f), a),
{
    let len: Single = norm_of(f, a);
    vscale(f, a, over(f, Single(ONE), len))
}

/// The smaller of two vectors, axis by axis.
pub open spec fn vlesser(a: Point, b: Point) -> Point {
    [lesser(a@[0], b@[0]), lesser(a@[1], b@[1]), lesser(a@[2], b@[2])]
}

pub fn vmin(a: Point, b: Point) -> (r: Point)
    ensures
        r == vlesser(a, b),
{
    let r: Point = [lesser_of(a[0], b[0]), lesser_of(a[1], b[1]), lesser_of(a[2], b[2])];
    assert(r@ =~= vlesser(a, b)@);
    r
}

/// The larger of two vectors, axis by axis.
pub open spec fn vgreater(a: Point, b: Point) -> Point {
    [greater(a@[0], b@[0]), greater(a@[1], b@[1]), greater(a@[2], b@[2])]
}

pub fn vmax(a: Point, b: Point) -> (r: Point)
    ensures
        r == vgreater(a, b),
{
    let r: Point = [greater_of(a[0], b[0]), greater_of(a[1], b[1]), greater_of(a[2], b[2])];
    assert(r@ =~= vgreater(a, b)@);
    r
}

/// A direction mirrored at a plane: `d - n * (2 * (d . n))`.
pub open spec fn mirrored(f: Calc, d: Point, n: Point) -> Point {
    vdiff(f, d, vscaled(f, n, prod(f, Single(TWO), dot(f, d, n))))
}

pub fn reflect_off<F: Fn(Op) -> Single>(f: &F, d: Point, n: Point) -> (r: Point)
    requires
        is_steady(*f),
    ensures
        r == mirrored(answering(*f), d, n),
{
    let k: Single = times(f, Single(TWO), dot_of(f, d, n));
    vminus(f, d, vscale(f, n, k))
}

/// One band, or axis, at a time: the product.
pub open spec fn dimmed(f: Calc, g: [Single; 3], tr: [Single; 3]) -> [Single; 3] {
    [prod(f, g@[0], tr@[0]), prod(f, g@[1], tr@[1]), prod(f, g@[2], tr@[2])]
}

pub fn dim<F: Fn(Op) -> Single>(f: &F, g: [Single; 3], tr: [Single; 3]) -> (r: [Single; 3])
    requires
        is_steady(*f),
    ensures
        r == dimmed(answering(*f), g, tr),
{
    let r: [Single; 3] = [times(f, g[0], tr[0]), times(f, g[1], tr[1]), times(f, g[2], tr[2])];
    assert(r@ =~= dimmed(answering(*f), g, tr)@);
    r
}

/// A number in the slot of one axis.
pub open spec fn with_axis(p: Point, axis: int, v: Single) -> Point {
    if axis == 0 {
        [v, p@[1], p@[2]]
    } else if axis == 1 {
        [p@[0], v, p@[2]]
    } else {
        [p@[0], p@[1], v]
    }
}

pub fn set_axis(p: Point, axis: usize, v: Single) -> (r: Point)
    ensures
        r == with_axis(p, axis as int, v),
{
    let r: Point = if axis == 0 {
        [v, p[1], p[2]]
    } else if axis == 1 {
        [p[0], v, p[2]]
    } else {
        [p[0], p[1], v]
    };
    assert(r@ =~= with_axis(p, axis as int, v)@);
    r
}

/// The pattern of 2.0.
pub const TWO: u32 = 0x4000_0000;

} // verus!
