//! The order-2 ambisonics bus: ACN channel order, SN3D normalization; +x
//! forward, +y left, +z up. All spatialized signals sum into this bus, and one
//! decode stage of fixed cost stands at the end. Head rotation turns the bus
//! the other way before it is decoded.

use crate::arith::{
    add_times, ask, diff, minus, over, plus, plus_prod, prod, quot, sum, times, Calc, Op,
};
use crate::exact::{
    inner, is_exact_as, lemma_negated, lemma_one, lemma_order, lemma_scale, value, vector_as, Reading,
    Vector,
};
use crate::params::{HALF, ONE};
use crate::probe::{answering, is_steady};
use crate::single::{lemma_grid_increases, Single};
use vstd::prelude::*;

verus! {

/// Channels of the order-2 bus.
pub const NCH: usize = 9;

/// The pattern of the square root of 3.
pub const SQRT3: u32 = 0x3FDD_B3D7;

/// The pattern of 3.0.
pub const THREE: u32 = 0x4040_0000;

/// The pattern of 2.0.
pub const TWO: u32 = 0x4000_0000;

/// The pattern of 1.5.
pub const ONE_AND_HALF: u32 = 0x3FC0_0000;

/// The pattern of two thirds.
pub const TWO_THIRDS: u32 = 0x3F2A_AAAB;

/// The pattern of 60.0: the virtual microphones' angle, in degrees.
pub const MIC_DEGREES: u32 = 0x4270_0000;

/// The pattern of one degree in radians.
pub const DEGREE: u32 = 0x3C8E_FA35;

/// One sample of every channel.
pub type Frame = [Single; 9];

/// Nothing on any channel.
pub open spec fn quiet() -> Frame {
    [
        Single(0),
        Single(0),
        Single(0),
        Single(0),
        Single(0),
        Single(0),
        Single(0),
        Single(0),
        Single(0),
    ]
}

/// `a * b * c`, from the left.
pub open spec fn prod3(f: Calc, a: Single, b: Single, c: Single) -> Single {
    prod(f, prod(f, a, b), c)
}

pub(crate) fn times3<F: Fn(Op) -> Single>(f: &F, a: Single, b: Single, c: Single) -> (r: Single)
    requires
        is_steady(*f),
    ensures
        r == prod3(answering(*f), a, b, c),
{
    times(f, times(f, a, b), c)
}

/// The real spherical harmonics up to degree 2 of a unit direction: W, Y, Z, X,
/// V, T, R, S, U.
pub open spec fn encoded(f: Calc, dir: [Single; 3]) -> Frame {
    let (x, y, z) = (dir@[0], dir@[1], dir@[2]);
    let k = Single(SQRT3);
    [
        Single(ONE),
        y,
        z,
        x,
        prod3(f, k, x, y),
        prod3(f, k, y, z),
        prod(f, Single(HALF), diff(f, prod3(f, Single(THREE), z, z), Single(ONE))),
        prod3(f, k, x, z),
        prod3(f, Single(HALF), k, diff(f, prod(f, x, x), prod(f, y, y))),
    ]
}

pub fn encode_gains<F: Fn(Op) -> Single>(f: &F, dir: [Single; 3]) -> (r: Frame)
    requires
        is_steady(*f),
    ensures
        r == encoded(answering(*f), dir),
{
    let (x, y, z) = (dir[0], dir[1], dir[2]);
    let k: Single = Single(SQRT3);
    let v: Single = times3(f, k, x, y);
    let t: Single = times3(f, k, y, z);
    let zz: Single = times3(f, Single(THREE), z, z);
    let r: Single = times(f, Single(HALF), minus(f, zz, Single(ONE)));
    let s: Single = times3(f, k, x, z);
    let xx_yy: Single = minus(f, times(f, x, x), times(f, y, y));
    let u: Single = times3(f, Single(HALF), k, xx_yy);
    let e: Frame = [Single(ONE), y, z, x, v, t, r, s, u];
    assert(e@ =~= encoded(answering(*f), dir)@);
    e
}

/// `c * a + s * b`: the first of two turned components.
pub open spec fn turned_first(f: Calc, c: Single, s: Single, a: Single, b: Single) -> Single {
    plus_prod(f, prod(f, c, a), s, b)
}

/// `-s * a + c * b`: the second of two turned components.
pub open spec fn turned_second(f: Calc, c: Single, s: Single, a: Single, b: Single) -> Single {
    plus_prod(f, prod(f, s.negated(), a), c, b)
}

fn turn<F: Fn(Op) -> Single>(f: &F, c: Single, s: Single, a: Single, b: Single) -> (r: (
    Single,
    Single,
))
    requires
        is_steady(*f),
    ensures
        r.0 == turned_first(answering(*f), c, s, a, b),
        r.1 == turned_second(answering(*f), c, s, a, b),
{
    let first: Single = add_times(f, times(f, c, a), s, b);
    let second: Single = add_times(f, times(f, s.neg(), a), c, b);
    (first, second)
}

/// The field turned about z by the head's yaw: W, Z and R stay; X with Y and S
/// with T turn by the angle; U with V by twice the angle.
pub open spec fn yawed(f: Calc, sh: Frame, psi: Single) -> Frame {
    let twice = prod(f, Single(TWO), psi);
    let (s, c) = (f(Op::Sin(psi)), f(Op::Cos(psi)));
    let (s2, c2) = (f(Op::Sin(twice)), f(Op::Cos(twice)));
    [
        sh@[0],
        turned_second(f, c, s, sh@[3], sh@[1]),
        sh@[2],
        turned_first(f, c, s, sh@[3], sh@[1]),
        turned_second(f, c2, s2, sh@[8], sh@[4]),
        turned_second(f, c, s, sh@[7], sh@[5]),
        sh@[6],
        turned_first(f, c, s, sh@[7], sh@[5]),
        turned_first(f, c2, s2, sh@[8], sh@[4]),
    ]
}

/// Turn the field about z by head yaw `psi`, positive where the head turns
/// left.
pub fn rotate_z<F: Fn(Op) -> Single>(f: &F, sh: &mut Frame, psi: Single)
    requires
        is_steady(*f),
    ensures
        *final(sh) == yawed(answering(*f), *old(sh), psi),
{
    let s: Single = ask(f, Op::Sin(psi));
    let c: Single = ask(f, Op::Cos(psi));
    let twice: Single = times(f, Single(TWO), psi);
    let s2: Single = ask(f, Op::Sin(twice));
    let c2: Single = ask(f, Op::Cos(twice));
    let (x, y) = turn(f, c, s, sh[3], sh[1]);
    let (sx, t) = turn(f, c, s, sh[7], sh[5]);
    let (u, v) = turn(f, c2, s2, sh[8], sh[4]);
    let r: Frame = [sh[0], y, sh[2], x, v, t, sh[6], sx, u];
    assert(r@ =~= yawed(answering(*f), *sh, psi)@);
    *sh = r;
}

/// A direction turned about z by head yaw `psi`.
pub open spec fn yawed_dir(f: Calc, d: [Single; 3], psi: Single) -> [Single; 3] {
    let (s, c) = (f(Op::Sin(psi)), f(Op::Cos(psi)));
    [turned_first(f, c, s, d@[0], d@[1]), turned_second(f, c, s, d@[0], d@[1]), d@[2]]
}

pub fn rotate_dir<F: Fn(Op) -> Single>(f: &F, d: [Single; 3], psi: Single) -> (r: [Single; 3])
    requires
        is_steady(*f),
    ensures
        r == yawed_dir(answering(*f), d, psi),
{
    let s: Single = ask(f, Op::Sin(psi));
    let c: Single = ask(f, Op::Cos(psi));
    let (x, y) = turn(f, c, s, d[0], d[1]);
    let r: [Single; 3] = [x, y, d[2]];
    assert(r@ =~= yawed_dir(answering(*f), d, psi)@);
    r
}

/// A quadratic form over x², y², z², xy, yz, xz.
pub type Quad = [Single; 6];

/// The product of two linear forms.
pub open spec fn quad(f: Calc, a: [Single; 3], b: [Single; 3]) -> Quad {
    [
        prod(f, a@[0], b@[0]),
        prod(f, a@[1], b@[1]),
        prod(f, a@[2], b@[2]),
        plus_prod(f, prod(f, a@[0], b@[1]), a@[1], b@[0]),
        plus_prod(f, prod(f, a@[1], b@[2]), a@[2], b@[1]),
        plus_prod(f, prod(f, a@[0], b@[2]), a@[2], b@[0]),
    ]
}

fn quad_of<F: Fn(Op) -> Single>(f: &F, a: [Single; 3], b: [Single; 3]) -> (r: Quad)
    requires
        is_steady(*f),
    ensures
        r == quad(answering(*f), a, b),
{
    let r: Quad = [
        times(f, a[0], b[0]),
        times(f, a[1], b[1]),
        times(f, a[2], b[2]),
        add_times(f, times(f, a[0], b[1]), a[1], b[0]),
        add_times(f, times(f, a[1], b[2]), a[2], b[1]),
        add_times(f, times(f, a[0], b[2]), a[2], b[0]),
    ];
    assert(r@ =~= quad(answering(*f), a, b)@);
    r
}

/// A form times a number.
pub open spec fn scaled(f: Calc, a: Quad, s: Single) -> Quad {
    [
        prod(f, a@[0], s),
        prod(f, a@[1], s),
        prod(f, a@[2], s),
        prod(f, a@[3], s),
        prod(f, a@[4], s),
        prod(f, a@[5], s),
    ]
}

fn scale<F: Fn(Op) -> Single>(f: &F, a: Quad, s: Single) -> (r: Quad)
    requires
        is_steady(*f),
    ensures
        r == scaled(answering(*f), a, s),
{
    let r: Quad = [
        times(f, a[0], s),
        times(f, a[1], s),
        times(f, a[2], s),
        times(f, a[3], s),
        times(f, a[4], s),
        times(f, a[5], s),
    ];
    assert(r@ =~= scaled(answering(*f), a, s)@);
    r
}

/// The difference of two forms.
pub open spec fn lessened(f: Calc, a: Quad, b: Quad) -> Quad {
    [
        diff(f, a@[0], b@[0]),
        diff(f, a@[1], b@[1]),
        diff(f, a@[2], b@[2]),
        diff(f, a@[3], b@[3]),
        diff(f, a@[4], b@[4]),
        diff(f, a@[5], b@[5]),
    ]
}

fn lessen<F: Fn(Op) -> Single>(f: &F, a: Quad, b: Quad) -> (r: Quad)
    requires
        is_steady(*f),
    ensures
        r == lessened(answering(*f), a, b),
{
    let r: Quad = [
        minus(f, a[0], b[0]),
        minus(f, a[1], b[1]),
        minus(f, a[2], b[2]),
        minus(f, a[3], b[3]),
        minus(f, a[4], b[4]),
        minus(f, a[5], b[5]),
    ];
    assert(r@ =~= lessened(answering(*f), a, b)@);
    r
}

/// A form of trace zero, read in the degree-2 harmonics V, T, R, S, U.
pub open spec fn row(f: Calc, a: Quad) -> [Single; 5] {
    let k = Single(SQRT3);
    [
        quot(f, a@[3], k),
        quot(f, a@[4], k),
        prod(
            f,
            diff(f, a@[2], prod(f, Single(HALF), sum(f, a@[0], a@[1]))),
            Single(TWO_THIRDS),
        ),
        quot(f, a@[5], k),
        quot(f, diff(f, a@[0], a@[1]), k),
    ]
}

fn row_of<F: Fn(Op) -> Single>(f: &F, a: Quad) -> (r: [Single; 5])
    requires
        is_steady(*f),
    ensures
        r == row(answering(*f), a),
{
    let k: Single = Single(SQRT3);
    let mean: Single = times(f, Single(HALF), plus(f, a[0], a[1]));
    let r: [Single; 5] = [
        over(f, a[3], k),
        over(f, a[4], k),
        times(f, minus(f, a[2], mean), Single(TWO_THIRDS)),
        over(f, a[5], k),
        over(f, minus(f, a[0], a[1]), k),
    ];
    assert(r@ =~= row(answering(*f), a)@);
    r
}

/// A head rotation, for the bus and for directions. Yaw turns the head left,
/// pitch looks up, roll tilts it right. The matrices are the inverse: the
/// field turns the other way.
#[derive(Clone, Copy, Debug)]
pub struct HeadRotation {
    pub m: [[Single; 3]; 3],
    pub m2: [[Single; 5]; 5],
}

/// The matrix of directions.
pub open spec fn head_matrix(f: Calc, yaw: Single, pitch: Single, roll: Single) -> [[Single; 3]; 3] {
    let (sy, cy) = (f(Op::Sin(yaw)), f(Op::Cos(yaw)));
    let (sp, cp) = (f(Op::Sin(pitch)), f(Op::Cos(pitch)));
    let (sr, cr) = (f(Op::Sin(roll)), f(Op::Cos(roll)));
    [
        [prod(f, cp, cy), prod(f, cp, sy), sp],
        [
            diff(f, prod(f, cr.negated(), sy), prod3(f, sr, sp, cy)),
            diff(f, prod(f, cr, cy), prod3(f, sr, sp, sy)),
            prod(f, sr, cp),
        ],
        [
            diff(f, prod(f, sr, sy), prod3(f, cr, sp, cy)),
            diff(f, prod(f, sr.negated(), cy), prod3(f, cr, sp, sy)),
            prod(f, cr, cp),
        ],
    ]
}

/// One, one, one in the squares: the squared length.
pub open spec fn squared_length() -> Quad {
    [Single(ONE), Single(ONE), Single(ONE), Single(0), Single(0), Single(0)]
}

/// The degree-2 block of a rotation: each harmonic of the turned direction,
/// read back in the harmonics.
pub open spec fn second_block(f: Calc, m: [[Single; 3]; 3]) -> [[Single; 5]; 5] {
    let k = Single(SQRT3);
    let xx = quad(f, m@[0], m@[0]);
    let yy = quad(f, m@[1], m@[1]);
    let zz = quad(f, m@[2], m@[2]);
    [
        row(f, scaled(f, quad(f, m@[0], m@[1]), k)),
        row(f, scaled(f, quad(f, m@[1], m@[2]), k)),
        row(
            f,
            lessened(
                f,
                scaled(f, zz, Single(ONE_AND_HALF)),
                scaled(f, squared_length(), Single(HALF)),
            ),
        ),
        row(f, scaled(f, quad(f, m@[0], m@[2]), k)),
        row(f, scaled(f, lessened(f, xx, yy), prod(f, Single(HALF), k))),
    ]
}

/// The inner product of a row and five channels.
pub open spec fn row_product(f: Calc, a: [Single; 5], c: [Single; 5]) -> Single {
    plus_prod(
        f,
        plus_prod(
            f,
            plus_prod(
                f,
                plus_prod(f, prod(f, a@[0], c@[0]), a@[1], c@[1]),
                a@[2],
                c@[2],
            ),
            a@[3],
            c@[3],
        ),
        a@[4],
        c@[4],
    )
}

fn row_times<F: Fn(Op) -> Single>(f: &F, a: &[Single; 5], c: &[Single; 5]) -> (r: Single)
    requires
        is_steady(*f),
    ensures
        r == row_product(answering(*f), *a, *c),
{
    let s0: Single = times(f, a[0], c[0]);
    let s1: Single = add_times(f, s0, a[1], c[1]);
    let s2: Single = add_times(f, s1, a[2], c[2]);
    let s3: Single = add_times(f, s2, a[3], c[3]);
    add_times(f, s3, a[4], c[4])
}

/// `a0 * d0 + a1 * d1 + a2 * d2`.
pub open spec fn dot3(f: Calc, a: [Single; 3], d: [Single; 3]) -> Single {
    plus_prod(f, plus_prod(f, prod(f, a@[0], d@[0]), a@[1], d@[1]), a@[2], d@[2])
}

pub(crate) fn dot_of<F: Fn(Op) -> Single>(f: &F, a: &[Single; 3], d: &[Single; 3]) -> (r: Single)
    requires
        is_steady(*f),
    ensures
        r == dot3(answering(*f), *a, *d),
{
    let s: Single = times(f, a[0], d[0]);
    let s: Single = add_times(f, s, a[1], d[1]);
    add_times(f, s, a[2], d[2])
}

impl HeadRotation {
    /// The direction in the head's frame.
    pub open spec fn seen(self, f: Calc, d: [Single; 3]) -> [Single; 3] {
        [dot3(f, self.m@[0], d), dot3(f, self.m@[1], d), dot3(f, self.m@[2], d)]
    }

    /// The field in the head's frame. Y, Z, X are the components of a
    /// direction.
    pub open spec fn applied(self, f: Calc, sh: Frame) -> Frame {
        let v: [Single; 3] = [sh@[3], sh@[1], sh@[2]];
        let c: [Single; 5] = [sh@[4], sh@[5], sh@[6], sh@[7], sh@[8]];
        let r = self.seen(f, v);
        [
            sh@[0],
            r@[1],
            r@[2],
            r@[0],
            row_product(f, self.m2@[0], c),
            row_product(f, self.m2@[1], c),
            row_product(f, self.m2@[2], c),
            row_product(f, self.m2@[3], c),
            row_product(f, self.m2@[4], c),
        ]
    }

    pub fn new<F: Fn(Op) -> Single>(f: &F, yaw: Single, pitch: Single, roll: Single) -> (r: Self)
        requires
            is_steady(*f),
        ensures
            r.m == head_matrix(answering(*f), yaw, pitch, roll),
            r.m2 == second_block(answering(*f), r.m),
    {
        let sy: Single = ask(f, Op::Sin(yaw));
        let cy: Single = ask(f, Op::Cos(yaw));
        let sp: Single = ask(f, Op::Sin(pitch));
        let cp: Single = ask(f, Op::Cos(pitch));
        let sr: Single = ask(f, Op::Sin(roll));
        let cr: Single = ask(f, Op::Cos(roll));
        let m0: [Single; 3] = [times(f, cp, cy), times(f, cp, sy), sp];
        let m1: [Single; 3] = [
            minus(f, times(f, cr.neg(), sy), times3(f, sr, sp, cy)),
            minus(f, times(f, cr, cy), times3(f, sr, sp, sy)),
            times(f, sr, cp),
        ];
        let m2: [Single; 3] = [
            minus(f, times(f, sr, sy), times3(f, cr, sp, cy)),
            minus(f, times(f, sr.neg(), cy), times3(f, cr, sp, sy)),
            times(f, cr, cp),
        ];
        let m: [[Single; 3]; 3] = [m0, m1, m2];
        let ghost g = answering(*f);
        proof {
            let h = head_matrix(g, yaw, pitch, roll);
            assert(m0@ =~= h@[0]@);
            assert(m1@ =~= h@[1]@);
            assert(m2@ =~= h@[2]@);
            assert(m@ =~= h@);
        }
        let k: Single = Single(SQRT3);
        let xx: Quad = quad_of(f, m0, m0);
        let yy: Quad = quad_of(f, m1, m1);
        let zz: Quad = quad_of(f, m2, m2);
        let unit: Quad = [Single(ONE), Single(ONE), Single(ONE), Single(0), Single(0), Single(0)];
        assert(unit@ =~= squared_length()@);
        let v: [Single; 5] = row_of(f, scale(f, quad_of(f, m0, m1), k));
        let t: [Single; 5] = row_of(f, scale(f, quad_of(f, m1, m2), k));
        let half_unit: Quad = scale(f, unit, Single(HALF));
        let r: [Single; 5] = row_of(f, lessen(f, scale(f, zz, Single(ONE_AND_HALF)), half_unit));
        let s: [Single; 5] = row_of(f, scale(f, quad_of(f, m0, m2), k));
        let half_k: Single = times(f, Single(HALF), k);
        let u: [Single; 5] = row_of(f, scale(f, lessen(f, xx, yy), half_k));
        let block: [[Single; 5]; 5] = [v, t, r, s, u];
        assert(block@ =~= second_block(g, m)@);
        HeadRotation { m, m2: block }
    }

    /// A world direction in the head's frame.
    pub fn rotate_dir<F: Fn(Op) -> Single>(&self, f: &F, d: [Single; 3]) -> (r: [Single; 3])
        requires
            is_steady(*f),
        ensures
            r == self.seen(answering(*f), d),
    {
        let r: [Single; 3] = [
            dot_of(f, &self.m[0], &d),
            dot_of(f, &self.m[1], &d),
            dot_of(f, &self.m[2], &d),
        ];
        assert(r@ =~= self.seen(answering(*f), d)@);
        r
    }

    /// Turn the field into the head's frame.
    pub fn apply<F: Fn(Op) -> Single>(&self, f: &F, sh: &mut Frame)
        requires
            is_steady(*f),
        ensures
            *final(sh) == self.applied(answering(*f), *old(sh)),
    {
        let v: [Single; 3] = [sh[3], sh[1], sh[2]];
        let c: [Single; 5] = [sh[4], sh[5], sh[6], sh[7], sh[8]];
        let r: [Single; 3] = self.rotate_dir(f, v);
        let out: Frame = [
            sh[0],
            r[1],
            r[2],
            r[0],
            row_times(f, &self.m2[0], &c),
            row_times(f, &self.m2[1], &c),
            row_times(f, &self.m2[2], &c),
            row_times(f, &self.m2[3], &c),
            row_times(f, &self.m2[4], &c),
        ];
        assert(out@ =~= self.applied(answering(*f), *sh)@);
        *sh = out;
    }
}

/// Two virtual cardioids on the degree-0 and degree-1 channels: the stereo
/// decode where no measured responses are at hand.
#[derive(Clone, Copy, Debug, PartialEq, Eq, Structural)]
pub struct StereoDecoder {
    pub cos_l: Single,
    pub sin_l: Single,
}

impl StereoDecoder {
    pub open spec fn made(f: Calc) -> StereoDecoder {
        let th = prod(f, Single(MIC_DEGREES), Single(DEGREE));
        StereoDecoder { cos_l: f(Op::Cos(th)), sin_l: f(Op::Sin(th)) }
    }

    /// What the two cardioids hear.
    pub open spec fn heard(self, f: Calc, sh: Frame) -> (Single, Single) {
        let front = plus_prod(f, sh@[0], sh@[3], self.cos_l);
        let side = prod(f, sh@[1], self.sin_l);
        (prod(f, Single(HALF), sum(f, front, side)), prod(f, Single(HALF), diff(f, front, side)))
    }

    pub fn new<F: Fn(Op) -> Single>(f: &F) -> (r: Self)
        requires
            is_steady(*f),
        ensures
            r == StereoDecoder::made(answering(*f)),
    {
        let th: Single = times(f, Single(MIC_DEGREES), Single(DEGREE));
        StereoDecoder { cos_l: ask(f, Op::Cos(th)), sin_l: ask(f, Op::Sin(th)) }
    }

    pub fn decode<F: Fn(Op) -> Single>(&self, f: &F, sh: &Frame) -> (r: (Single, Single))
        requires
            is_steady(*f),
        ensures
            r == self.heard(answering(*f), *sh),
    {
        let front: Single = add_times(f, sh[0], sh[3], self.cos_l);
        let side: Single = times(f, sh[1], self.sin_l);
        (times(f, Single(HALF), plus(f, front, side)), times(f, Single(HALF), minus(f, front, side)))
    }
}

/// A signal added to the bus at an encoded direction.
pub open spec fn mixed(f: Calc, bus: Frame, y: Single, enc: Frame) -> Frame {
    [
        plus_prod(f, bus@[0], y, enc@[0]),
        plus_prod(f, bus@[1], y, enc@[1]),
        plus_prod(f, bus@[2], y, enc@[2]),
        plus_prod(f, bus@[3], y, enc@[3]),
        plus_prod(f, bus@[4], y, enc@[4]),
        plus_prod(f, bus@[5], y, enc@[5]),
        plus_prod(f, bus@[6], y, enc@[6]),
        plus_prod(f, bus@[7], y, enc@[7]),
        plus_prod(f, bus@[8], y, enc@[8]),
    ]
}

pub(crate) fn mix<F: Fn(Op) -> Single>(f: &F, bus: &mut Frame, y: Single, enc: &Frame)
    requires
        is_steady(*f),
    ensures
        *final(bus) == mixed(answering(*f), *old(bus), y, *enc),
{
    let r: Frame = [
        add_times(f, bus[0], y, enc[0]),
        add_times(f, bus[1], y, enc[1]),
        add_times(f, bus[2], y, enc[2]),
        add_times(f, bus[3], y, enc[3]),
        add_times(f, bus[4], y, enc[4]),
        add_times(f, bus[5], y, enc[5]),
        add_times(f, bus[6], y, enc[6]),
        add_times(f, bus[7], y, enc[7]),
        add_times(f, bus[8], y, enc[8]),
    ];
    assert(r@ =~= mixed(answering(*f), *bus, y, *enc)@);
    *bus = r;
}

/// `a * b * c` is exact.
pub open spec fn exact_prod3(val: Reading, f: Calc, a: Single, b: Single, c: Single) -> bool {
    is_exact_as(val, f, Op::Times(a, b)) && is_exact_as(val, f, Op::Times(prod(f, a, b), c))
}

/// `a + b * c` is exact.
pub open spec fn exact_plus_prod(val: Reading, f: Calc, a: Single, b: Single, c: Single) -> bool {
    is_exact_as(val, f, Op::Times(b, c)) && is_exact_as(val, f, Op::Plus(a, prod(f, b, c)))
}

/// The harmonics of a direction are exact.
pub open spec fn exact_encoded(val: Reading, f: Calc, d: [Single; 3]) -> bool {
    let (x, y, z) = (d@[0], d@[1], d@[2]);
    let k = Single(SQRT3);
    let up = diff(f, prod3(f, Single(THREE), z, z), Single(ONE));
    let side = diff(f, prod(f, x, x), prod(f, y, y));
    &&& exact_prod3(val, f, k, x, y) && exact_prod3(val, f, k, y, z) && exact_prod3(val, f, k, x, z)
    &&& exact_prod3(val, f, Single(THREE), z, z)
    &&& is_exact_as(val, f, Op::Minus(prod3(f, Single(THREE), z, z), Single(ONE)))
    &&& is_exact_as(val, f, Op::Times(Single(HALF), up))
    &&& is_exact_as(val, f, Op::Times(x, x)) && is_exact_as(val, f, Op::Times(y, y))
    &&& is_exact_as(val, f, Op::Minus(prod(f, x, x), prod(f, y, y)))
    &&& exact_prod3(val, f, Single(HALF), k, side)
}

/// The inner product of three is exact.
pub open spec fn exact_dot3(val: Reading, f: Calc, a: [Single; 3], d: [Single; 3]) -> bool {
    let p = prod(f, a@[0], d@[0]);
    &&& is_exact_as(val, f, Op::Times(a@[0], d@[0]))
    &&& exact_plus_prod(val, f, p, a@[1], d@[1])
    &&& exact_plus_prod(val, f, plus_prod(f, p, a@[1], d@[1]), a@[2], d@[2])
}

/// The product of two linear forms is exact.
pub open spec fn exact_quad(val: Reading, f: Calc, a: [Single; 3], b: [Single; 3]) -> bool {
    &&& is_exact_as(val, f, Op::Times(a@[0], b@[0]))
    &&& is_exact_as(val, f, Op::Times(a@[1], b@[1]))
    &&& is_exact_as(val, f, Op::Times(a@[2], b@[2]))
    &&& is_exact_as(val, f, Op::Times(a@[0], b@[1]))
    &&& is_exact_as(val, f, Op::Times(a@[1], b@[2]))
    &&& is_exact_as(val, f, Op::Times(a@[0], b@[2]))
    &&& exact_plus_prod(val, f, prod(f, a@[0], b@[1]), a@[1], b@[0])
    &&& exact_plus_prod(val, f, prod(f, a@[1], b@[2]), a@[2], b@[1])
    &&& exact_plus_prod(val, f, prod(f, a@[0], b@[2]), a@[2], b@[0])
}

/// A form times a number is exact.
pub open spec fn exact_scaled(val: Reading, f: Calc, a: Quad, s: Single) -> bool {
    forall|i: int| 0 <= i < 6 ==> is_exact_as(val, f, Op::Times(#[trigger] a@[i], s))
}

/// The difference of two forms is exact.
pub open spec fn exact_lessened(val: Reading, f: Calc, a: Quad, b: Quad) -> bool {
    forall|i: int| 0 <= i < 6 ==> is_exact_as(val, f, Op::Minus(#[trigger] a@[i], b@[i]))
}

/// Reading a form in the harmonics is exact, and two thirds are taken exactly.
pub open spec fn exact_row(val: Reading, f: Calc, a: Quad) -> bool {
    let k = Single(SQRT3);
    let both = sum(f, a@[0], a@[1]);
    let up = diff(f, a@[2], prod(f, Single(HALF), both));
    &&& is_exact_as(val, f, Op::Over(a@[3], k)) && is_exact_as(val, f, Op::Over(a@[4], k))
    &&& is_exact_as(val, f, Op::Over(a@[5], k))
    &&& is_exact_as(val, f, Op::Plus(a@[0], a@[1]))
    &&& is_exact_as(val, f, Op::Times(Single(HALF), both))
    &&& is_exact_as(val, f, Op::Minus(a@[2], prod(f, Single(HALF), both)))
    &&& 3real * val(prod(f, up, Single(TWO_THIRDS))) == 2real * val(up)
    &&& is_exact_as(val, f, Op::Minus(a@[0], a@[1]))
    &&& is_exact_as(val, f, Op::Over(diff(f, a@[0], a@[1]), k))
}

/// The inner product of a row and five channels is exact.
pub open spec fn exact_row_product(val: Reading, f: Calc, a: [Single; 5], c: [Single; 5]) -> bool {
    let s0 = prod(f, a@[0], c@[0]);
    let s1 = plus_prod(f, s0, a@[1], c@[1]);
    let s2 = plus_prod(f, s1, a@[2], c@[2]);
    let s3 = plus_prod(f, s2, a@[3], c@[3]);
    &&& is_exact_as(val, f, Op::Times(a@[0], c@[0]))
    &&& exact_plus_prod(val, f, s0, a@[1], c@[1])
    &&& exact_plus_prod(val, f, s1, a@[2], c@[2])
    &&& exact_plus_prod(val, f, s2, a@[3], c@[3])
    &&& exact_plus_prod(val, f, s3, a@[4], c@[4])
}

/// The numbers of a form.
pub open spec fn form(val: Reading, a: Quad) -> (real, real, real, real, real, real) {
    (val(a@[0]), val(a@[1]), val(a@[2]), val(a@[3]), val(a@[4]), val(a@[5]))
}

/// What a form is at a direction.
pub open spec fn form_at(q: (real, real, real, real, real, real), u: Vector) -> real {
    q.0 * (u.0 * u.0) + q.1 * (u.1 * u.1) + q.2 * (u.2 * u.2) + q.3 * (u.0 * u.1) + q.4 * (u.1 * u.2)
        + q.5 * (u.0 * u.2)
}

/// The degree-2 channels of an encoded direction.
pub open spec fn second_channels(e: Frame) -> [Single; 5] {
    [e@[4], e@[5], e@[6], e@[7], e@[8]]
}

/// The constants stand for what they say, and the other sign for the opposite
/// number.
pub open spec fn is_reading(val: Reading) -> bool {
    &&& 2real * val(Single(HALF)) == 1real
    &&& val(Single(THREE)) == 3real
    &&& 2real * val(Single(ONE_AND_HALF)) == 3real
    &&& val(Single(SQRT3)) > 0real
    &&& val(Single(ONE)) == 1real
    &&& val(Single(0)) == 0real
    &&& forall|s: Single| val(#[trigger] s.negated()) == -val(s)
}

/// The machine's numbers are such a reading.
pub proof fn values_are_a_reading()
    ensures
        is_reading(|s: Single| value(s)),
{
    lemma_one();
    lemma_scale(HALF, 126, 0);
    lemma_scale(THREE, 128, 0x40_0000);
    lemma_scale(ONE_AND_HALF, 127, 0x40_0000);
    lemma_grid_increases(0, SQRT3 as nat);
    assert(Single(0).num() == 0);
    lemma_order(Single(0), Single(SQRT3));
    assert forall|s: Single| value(#[trigger] s.negated()) == -value(s) by {
        lemma_negated(s);
    }
}

proof fn lemma_pull(k: real, w: real, a: real, b: real)
    requires
        w * k == a,
    ensures
        w * (k * b) == a * b,
{
    assert(w * (k * b) == (w * k) * b) by (nonlinear_arith);
}

/// A form of trace zero, read in the harmonics and weighed with those of a unit
/// direction, is the form at the direction.
proof fn lemma_read_back(
    q: (real, real, real, real, real, real),
    u: Vector,
    k: real,
    h: real,
    w: (real, real, real, real, real),
    c: (real, real, real, real, real),
)
    requires
        q.0 + q.1 + q.2 == 0real,
        inner(u, u) == 1real,
        2real * h == 1real,
        w.0 * k == q.3,
        w.1 * k == q.4,
        3real * w.2 == 2real * (q.2 - h * (q.0 + q.1)),
        w.3 * k == q.5,
        w.4 * k == q.0 - q.1,
        c.0 == k * (u.0 * u.1),
        c.1 == k * (u.1 * u.2),
        c.2 == h * (3real * (u.2 * u.2) - 1real),
        c.3 == k * (u.0 * u.2),
        c.4 == k * (h * (u.0 * u.0 - u.1 * u.1)),
    ensures
        w.0 * c.0 + w.1 * c.1 + w.2 * c.2 + w.3 * c.3 + w.4 * c.4 == form_at(q, u),
{
    let (a, b, d) = (u.0 * u.0, u.1 * u.1, u.2 * u.2);
    lemma_pull(k, w.0, q.3, u.0 * u.1);
    lemma_pull(k, w.1, q.4, u.1 * u.2);
    lemma_pull(k, w.3, q.5, u.0 * u.2);
    lemma_pull(k, w.4, q.0 - q.1, h * (a - b));
    let (p, r, t) = (q.0, q.1, q.2);
    lemma_halved(h, p + r);
    assert(w.2 == t);
    let (g, e) = (3real * d - 1real, a - b);
    lemma_halved(h, g);
    lemma_halved(h, e);
    let (hg, he) = (h * g, h * e);
    assert(2real * (t * hg) == t * g) by (nonlinear_arith)
        requires
            2real * hg == g,
    ;
    let n = p - r;
    assert(2real * (n * he) == n * e) by (nonlinear_arith)
        requires
            2real * he == e,
    ;
    assert(t * (3real * d - 1real) == 3real * (t * d) - t) by (nonlinear_arith);
    assert((p - r) * (a - b) == p * a - p * b - r * a + r * b) by (nonlinear_arith);
    assert((p + r) * (a + b) == p * a + p * b + r * a + r * b) by (nonlinear_arith);
    let (u, v) = (p + r, a + b);
    assert(u * v == t * d - t) by (nonlinear_arith)
        requires
            u == -t,
            v == 1real - d,
    ;
}

proof fn lemma_halved(h: real, x: real)
    requires
        2real * h == 1real,
    ensures
        2real * (h * x) == x,
{
    assert(2real * (h * x) == (2real * h) * x) by (nonlinear_arith);
}

/// The product of two linear forms, as numbers.
pub open spec fn form_of(a: Vector, b: Vector) -> (real, real, real, real, real, real) {
    (
        a.0 * b.0,
        a.1 * b.1,
        a.2 * b.2,
        a.0 * b.1 + a.1 * b.0,
        a.1 * b.2 + a.2 * b.1,
        a.0 * b.2 + a.2 * b.0,
    )
}

proof fn lemma_swap(a: real, u: real, b: real, v: real)
    ensures
        (a * u) * (b * v) == (a * b) * (u * v),
        (a * u) * (b * v) == (a * b) * (v * u),
{
    assert((a * u) * (b * v) == (a * b) * (u * v)) by (nonlinear_arith);
    assert(u * v == v * u) by (nonlinear_arith);
}

proof fn lemma_cross_term(a: real, b: real, c: real, d: real, w: real)
    ensures
        (a * b) * w + (c * d) * w == (a * b + c * d) * w,
{
    let (p, q) = (a * b, c * d);
    assert(p * w + q * w == (p + q) * w) by (nonlinear_arith);
}

/// The product of two linear forms, at a direction.
proof fn lemma_form_of(a: Vector, b: Vector, u: Vector)
    ensures
        form_at(form_of(a, b), u) == inner(a, u) * inner(b, u),
{
    let (x, y, z) = (a.0 * u.0, a.1 * u.1, a.2 * u.2);
    let (p, q, r) = (b.0 * u.0, b.1 * u.1, b.2 * u.2);
    assert((x + y + z) * (p + q + r) == x * (p + q + r) + y * (p + q + r) + z * (p + q + r))
        by (nonlinear_arith);
    assert(x * (p + q + r) == x * p + x * q + x * r) by (nonlinear_arith);
    assert(y * (p + q + r) == y * p + y * q + y * r) by (nonlinear_arith);
    assert(z * (p + q + r) == z * p + z * q + z * r) by (nonlinear_arith);
    lemma_swap(a.0, u.0, b.0, u.0);
    lemma_swap(a.1, u.1, b.1, u.1);
    lemma_swap(a.2, u.2, b.2, u.2);
    lemma_swap(a.0, u.0, b.1, u.1);
    lemma_swap(a.1, u.1, b.0, u.0);
    lemma_swap(a.1, u.1, b.2, u.2);
    lemma_swap(a.2, u.2, b.1, u.1);
    lemma_swap(a.0, u.0, b.2, u.2);
    lemma_swap(a.2, u.2, b.0, u.0);
    lemma_cross_term(a.0, b.1, a.1, b.0, u.0 * u.1);
    lemma_cross_term(a.1, b.2, a.2, b.1, u.1 * u.2);
    lemma_cross_term(a.0, b.2, a.2, b.0, u.0 * u.2);
}

/// A form times a number, as numbers.
pub open spec fn form_times(q: (real, real, real, real, real, real), k: real) -> (
    real,
    real,
    real,
    real,
    real,
    real,
) {
    (q.0 * k, q.1 * k, q.2 * k, q.3 * k, q.4 * k, q.5 * k)
}

/// The difference of two forms, as numbers.
pub open spec fn form_less(
    q: (real, real, real, real, real, real),
    r: (real, real, real, real, real, real),
) -> (real, real, real, real, real, real) {
    (q.0 - r.0, q.1 - r.1, q.2 - r.2, q.3 - r.3, q.4 - r.4, q.5 - r.5)
}

proof fn lemma_out(q: real, k: real, m: real)
    ensures
        (q * k) * m == k * (q * m),
{
    assert((q * k) * m == k * (q * m)) by (nonlinear_arith);
}

proof fn lemma_form_times(q: (real, real, real, real, real, real), k: real, u: Vector)
    ensures
        form_at(form_times(q, k), u) == k * form_at(q, u),
{
    lemma_out(q.0, k, u.0 * u.0);
    lemma_out(q.1, k, u.1 * u.1);
    lemma_out(q.2, k, u.2 * u.2);
    lemma_out(q.3, k, u.0 * u.1);
    lemma_out(q.4, k, u.1 * u.2);
    lemma_out(q.5, k, u.0 * u.2);
    let (a, b, c) = (q.0 * (u.0 * u.0), q.1 * (u.1 * u.1), q.2 * (u.2 * u.2));
    let (d, e, g) = (q.3 * (u.0 * u.1), q.4 * (u.1 * u.2), q.5 * (u.0 * u.2));
    assert(k * (a + b + c + d + e + g) == k * a + k * b + k * c + k * d + k * e + k * g)
        by (nonlinear_arith);
}

proof fn lemma_less(q: real, r: real, m: real)
    ensures
        (q - r) * m == q * m - r * m,
{
    assert((q - r) * m == q * m - r * m) by (nonlinear_arith);
}

proof fn lemma_form_less(
    q: (real, real, real, real, real, real),
    r: (real, real, real, real, real, real),
    u: Vector,
)
    ensures
        form_at(form_less(q, r), u) == form_at(q, u) - form_at(r, u),
{
    lemma_less(q.0, r.0, u.0 * u.0);
    lemma_less(q.1, r.1, u.1 * u.1);
    lemma_less(q.2, r.2, u.2 * u.2);
    lemma_less(q.3, r.3, u.0 * u.1);
    lemma_less(q.4, r.4, u.1 * u.2);
    lemma_less(q.5, r.5, u.0 * u.2);
}

/// The rows are of length one and at right angles.
pub open spec fn is_orthonormal(val: Reading, m: [[Single; 3]; 3]) -> bool {
    let (a, b, c) = (vector_as(val, m@[0]), vector_as(val, m@[1]), vector_as(val, m@[2]));
    &&& inner(a, a) == 1real && inner(b, b) == 1real && inner(c, c) == 1real
    &&& inner(a, b) == 0real && inner(b, c) == 0real && inner(a, c) == 0real
}

/// Every operation behind the degree-2 block of a rotation is exact.
pub open spec fn exact_block(val: Reading, f: Calc, m: [[Single; 3]; 3]) -> bool {
    let k = Single(SQRT3);
    let (xy, yz, xz) = (quad(f, m@[0], m@[1]), quad(f, m@[1], m@[2]), quad(f, m@[0], m@[2]));
    let (xx, yy, zz) = (quad(f, m@[0], m@[0]), quad(f, m@[1], m@[1]), quad(f, m@[2], m@[2]));
    let (up, one) = (scaled(f, zz, Single(ONE_AND_HALF)), scaled(f, squared_length(), Single(HALF)));
    let hk = prod(f, Single(HALF), k);
    &&& exact_quad(val, f, m@[0], m@[1]) && exact_quad(val, f, m@[1], m@[2]) && exact_quad(val, f, m@[0], m@[2])
    &&& exact_quad(val, f, m@[0], m@[0]) && exact_quad(val, f, m@[1], m@[1]) && exact_quad(val, f, m@[2], m@[2])
    &&& exact_scaled(val, f, xy, k) && exact_scaled(val, f, yz, k) && exact_scaled(val, f, xz, k)
    &&& exact_scaled(val, f, zz, Single(ONE_AND_HALF)) && exact_scaled(val, f, squared_length(), Single(HALF))
    &&& exact_lessened(val, f, up, one)
    &&& exact_lessened(val, f, xx, yy)
    &&& is_exact_as(val, f, Op::Times(Single(HALF), k))
    &&& exact_scaled(val, f, lessened(f, xx, yy), hk)
    &&& exact_row(val, f, scaled(f, xy, k)) && exact_row(val, f, scaled(f, yz, k)) && exact_row(
        val,
        f,
        scaled(f, xz, k),
    )
    &&& exact_row(val, f, lessened(f, up, one)) && exact_row(val, f, scaled(f, lessened(f, xx, yy), hk))
}

proof fn lemma_quad(val: Reading, f: Calc, a: [Single; 3], b: [Single; 3])
    requires
        is_reading(val),
        exact_quad(val, f, a, b),
    ensures
        form(val, quad(f, a, b)) == form_of(vector_as(val, a), vector_as(val, b)),
{
}

proof fn lemma_scaled(val: Reading, f: Calc, a: Quad, s: Single)
    requires
        is_reading(val),
        exact_scaled(val, f, a, s),
    ensures
        form(val, scaled(f, a, s)) == form_times(form(val, a), val(s)),
{
    assert(is_exact_as(val, f, Op::Times(a@[0], s)) && is_exact_as(val, f, Op::Times(a@[1], s)));
    assert(is_exact_as(val, f, Op::Times(a@[2], s)) && is_exact_as(val, f, Op::Times(a@[3], s)));
    assert(is_exact_as(val, f, Op::Times(a@[4], s)) && is_exact_as(val, f, Op::Times(a@[5], s)));
}

proof fn lemma_lessened(val: Reading, f: Calc, a: Quad, b: Quad)
    requires
        is_reading(val),
        exact_lessened(val, f, a, b),
    ensures
        form(val, lessened(f, a, b)) == form_less(form(val, a), form(val, b)),
{
    assert(is_exact_as(val, f, Op::Minus(a@[0], b@[0])) && is_exact_as(val, f, Op::Minus(a@[1], b@[1])));
    assert(is_exact_as(val, f, Op::Minus(a@[2], b@[2])) && is_exact_as(val, f, Op::Minus(a@[3], b@[3])));
    assert(is_exact_as(val, f, Op::Minus(a@[4], b@[4])) && is_exact_as(val, f, Op::Minus(a@[5], b@[5])));
}

/// A row of the block, weighed with the harmonics of a direction, is its form at
/// the direction.
proof fn lemma_row_reads(val: Reading, f: Calc, a: Quad, d: [Single; 3])
    requires
        is_reading(val),
        exact_row(val, f, a),
        exact_encoded(val, f, d),
        exact_row_product(val, f, row(f, a), second_channels(encoded(f, d))),
        inner(vector_as(val, d), vector_as(val, d)) == 1real,
        val(a@[0]) + val(a@[1]) + val(a@[2]) == 0real,
    ensures
        val(row_product(f, row(f, a), second_channels(encoded(f, d)))) == form_at(
            form(val, a),
            vector_as(val, d),
        ),
{
    let r = row(f, a);
    let c = second_channels(encoded(f, d));
    let (x, y, z) = vector_as(val, d);
    let (k, h) = (val(Single(SQRT3)), val(Single(HALF)));
    assert((k * x) * y == k * (x * y)) by (nonlinear_arith);
    assert((k * y) * z == k * (y * z)) by (nonlinear_arith);
    assert((k * x) * z == k * (x * z)) by (nonlinear_arith);
    assert((3real * z) * z == 3real * (z * z)) by (nonlinear_arith);
    let side = x * x - y * y;
    assert((h * k) * side == k * (h * side)) by (nonlinear_arith);
    lemma_read_back(
        form(val, a),
        vector_as(val, d),
        k,
        h,
        (val(r@[0]), val(r@[1]), val(r@[2]), val(r@[3]), val(r@[4])),
        (val(c@[0]), val(c@[1]), val(c@[2]), val(c@[3]), val(c@[4])),
    );
}

proof fn lemma_trace(q: (real, real, real, real, real, real), k: real)
    ensures
        form_times(q, k).0 + form_times(q, k).1 + form_times(q, k).2 == (q.0 + q.1 + q.2) * k,
{
    let (a, b, c) = (q.0, q.1, q.2);
    assert(a * k + b * k + c * k == (a + b + c) * k) by (nonlinear_arith);
}

/// A row for the product of two turned coordinates.
proof fn lemma_mixed_row(val: Reading, f: Calc, a: [Single; 3], b: [Single; 3], d: [Single; 3])
    requires
        is_reading(val),
        exact_quad(val, f, a, b),
        exact_scaled(val, f, quad(f, a, b), Single(SQRT3)),
        exact_row(val, f, scaled(f, quad(f, a, b), Single(SQRT3))),
        exact_encoded(val, f, d),
        exact_row_product(
            val,
            f,
            row(f, scaled(f, quad(f, a, b), Single(SQRT3))),
            second_channels(encoded(f, d)),
        ),
        inner(vector_as(val, d), vector_as(val, d)) == 1real,
        inner(vector_as(val, a), vector_as(val, b)) == 0real,
    ensures
        val(
            row_product(
                f,
                row(f, scaled(f, quad(f, a, b), Single(SQRT3))),
                second_channels(encoded(f, d)),
            ),
        ) == val(Single(SQRT3)) * (inner(vector_as(val, a), vector_as(val, d)) * inner(vector_as(val, b), vector_as(val, d))),
{
    let k = val(Single(SQRT3));
    let q = form_of(vector_as(val, a), vector_as(val, b));
    lemma_quad(val, f, a, b);
    lemma_scaled(val, f, quad(f, a, b), Single(SQRT3));
    lemma_trace(q, k);
    assert(0real * k == 0real);
    lemma_row_reads(val, f, scaled(f, quad(f, a, b), Single(SQRT3)), d);
    lemma_form_times(q, k, vector_as(val, d));
    lemma_form_of(vector_as(val, a), vector_as(val, b), vector_as(val, d));
}

/// Every operation of turning the harmonics of a direction, and of taking those
/// of the turned direction, is exact.
pub open spec fn exact_turn(val: Reading, f: Calc, rot: HeadRotation, d: [Single; 3]) -> bool {
    let c = second_channels(encoded(f, d));
    &&& exact_block(val, f, rot.m)
    &&& exact_encoded(val, f, d)
    &&& exact_encoded(val, f, rot.seen(f, d))
    &&& exact_dot3(val, f, rot.m@[0], d) && exact_dot3(val, f, rot.m@[1], d) && exact_dot3(val, f, rot.m@[2], d)
    &&& exact_row_product(val, f, rot.m2@[0], c) && exact_row_product(val, f, rot.m2@[1], c)
    &&& exact_row_product(val, f, rot.m2@[2], c) && exact_row_product(val, f, rot.m2@[3], c)
    &&& exact_row_product(val, f, rot.m2@[4], c)
}

/// Turning the field is turning the directions: in exact arithmetic, whatever
/// numbers the patterns are read as, the harmonics of a unit direction, turned,
/// are those of the turned direction.
pub proof fn turned_harmonics_are_those_of_the_turned_direction(
    val: Reading,
    f: Calc,
    rot: HeadRotation,
    d: [Single; 3],
    n: int,
)
    requires
        is_reading(val),
        rot.m2 == second_block(f, rot.m),
        is_orthonormal(val, rot.m),
        inner(vector_as(val, d), vector_as(val, d)) == 1real,
        exact_turn(val, f, rot, d),
        0 <= n < 9,
    ensures
        val(rot.applied(f, encoded(f, d))@[n]) == val(encoded(f, rot.seen(f, d))@[n]),
{
    let e = encoded(f, d);
    let v: [Single; 3] = [e@[3], e@[1], e@[2]];
    assert(v@ =~= d@);
    assert(v == d);
    let m = rot.m;
    let (x, y, z) = (
        inner(vector_as(val, m@[0]), vector_as(val, d)),
        inner(vector_as(val, m@[1]), vector_as(val, d)),
        inner(vector_as(val, m@[2]), vector_as(val, d)),
    );
    assert(vector_as(val, rot.seen(f, d)) == (x, y, z));
    let (k, h) = (val(Single(SQRT3)), val(Single(HALF)));
    if n == 4 {
        lemma_mixed_row(val, f, m@[0], m@[1], d);
        assert((k * x) * y == k * (x * y)) by (nonlinear_arith);
    } else if n == 5 {
        lemma_mixed_row(val, f, m@[1], m@[2], d);
        assert((k * y) * z == k * (y * z)) by (nonlinear_arith);
    } else if n == 7 {
        lemma_mixed_row(val, f, m@[0], m@[2], d);
        assert((k * x) * z == k * (x * z)) by (nonlinear_arith);
    } else if n == 6 {
        lemma_up_row(val, f, m@[2], d);
        assert((3real * z) * z == 3real * (z * z)) by (nonlinear_arith);
    } else if n == 8 {
        lemma_side_row(val, f, m@[0], m@[1], d);
    }
}

/// The row for the height of a turned direction.
proof fn lemma_up_row(val: Reading, f: Calc, c: [Single; 3], d: [Single; 3])
    requires
        is_reading(val),
        ({
            let zz = quad(f, c, c);
            let up = scaled(f, zz, Single(ONE_AND_HALF));
            let one = scaled(f, squared_length(), Single(HALF));
            &&& exact_quad(val, f, c, c)
            &&& exact_scaled(val, f, zz, Single(ONE_AND_HALF))
            &&& exact_scaled(val, f, squared_length(), Single(HALF))
            &&& exact_lessened(val, f, up, one)
            &&& exact_row(val, f, lessened(f, up, one))
            &&& exact_row_product(
                val,
                f,
                row(f, lessened(f, up, one)),
                second_channels(encoded(f, d)),
            )
        }),
        exact_encoded(val, f, d),
        inner(vector_as(val, d), vector_as(val, d)) == 1real,
        inner(vector_as(val, c), vector_as(val, c)) == 1real,
    ensures
        ({
            let up = scaled(f, quad(f, c, c), Single(ONE_AND_HALF));
            let one = scaled(f, squared_length(), Single(HALF));
            let z = inner(vector_as(val, c), vector_as(val, d));
            val(
                row_product(
                    f,
                    row(f, lessened(f, up, one)),
                    second_channels(encoded(f, d)),
                ),
            ) == val(Single(HALF)) * (3real * (z * z) - 1real)
        }),
{
    let (h, t) = (val(Single(HALF)), val(Single(ONE_AND_HALF)));
    let zz = quad(f, c, c);
    let up = scaled(f, zz, Single(ONE_AND_HALF));
    let one = scaled(f, squared_length(), Single(HALF));
    let q = form_of(vector_as(val, c), vector_as(val, c));
    let unit = (1real, 1real, 1real, 0real, 0real, 0real);
    lemma_quad(val, f, c, c);
    lemma_scaled(val, f, zz, Single(ONE_AND_HALF));
    lemma_scaled(val, f, squared_length(), Single(HALF));
    assert(form(val, squared_length()) == unit);
    lemma_lessened(val, f, up, one);
    lemma_trace(q, t);
    lemma_trace(unit, h);
    lemma_row_reads(val, f, lessened(f, up, one), d);
    let u = vector_as(val, d);
    lemma_form_less(form_times(q, t), form_times(unit, h), u);
    lemma_form_times(q, t, u);
    lemma_form_times(unit, h, u);
    lemma_form_of(vector_as(val, c), vector_as(val, c), u);
    assert(form_at(unit, u) == 1real) by {
        assert(1real * (u.0 * u.0) == u.0 * u.0 && 1real * (u.1 * u.1) == u.1 * u.1 && 1real * (u.2
            * u.2) == u.2 * u.2);
        assert(0real * (u.0 * u.1) == 0real && 0real * (u.1 * u.2) == 0real && 0real * (u.0 * u.2)
            == 0real);
    }
    let z2 = inner(vector_as(val, c), u) * inner(vector_as(val, c), u);
    assert(t * z2 - h * 1real == h * (3real * z2 - 1real)) by (nonlinear_arith)
        requires
            2real * h == 1real,
            2real * t == 3real,
    ;
}

/// The row for the difference of two squared turned coordinates.
proof fn lemma_side_row(val: Reading, f: Calc, a: [Single; 3], b: [Single; 3], d: [Single; 3])
    requires
        is_reading(val),
        ({
            let k = Single(SQRT3);
            let less = lessened(f, quad(f, a, a), quad(f, b, b));
            let hk = prod(f, Single(HALF), k);
            &&& exact_quad(val, f, a, a) && exact_quad(val, f, b, b)
            &&& exact_lessened(val, f, quad(f, a, a), quad(f, b, b))
            &&& is_exact_as(val, f, Op::Times(Single(HALF), k))
            &&& exact_scaled(val, f, less, hk)
            &&& exact_row(val, f, scaled(f, less, hk))
            &&& exact_row_product(
                val,
                f,
                row(f, scaled(f, less, hk)),
                second_channels(encoded(f, d)),
            )
        }),
        exact_encoded(val, f, d),
        inner(vector_as(val, d), vector_as(val, d)) == 1real,
        inner(vector_as(val, a), vector_as(val, a)) == 1real,
        inner(vector_as(val, b), vector_as(val, b)) == 1real,
    ensures
        ({
            let less = lessened(f, quad(f, a, a), quad(f, b, b));
            let hk = prod(f, Single(HALF), Single(SQRT3));
            let (x, y) = (inner(vector_as(val, a), vector_as(val, d)), inner(vector_as(val, b), vector_as(val, d)));
            val(
                row_product(
                    f,
                    row(f, scaled(f, less, hk)),
                    second_channels(encoded(f, d)),
                ),
            ) == (val(Single(HALF)) * val(Single(SQRT3))) * (x * x - y * y)
        }),
{
    let (xx, yy) = (quad(f, a, a), quad(f, b, b));
    let less = lessened(f, xx, yy);
    let hk = prod(f, Single(HALF), Single(SQRT3));
    let (p, q) = (form_of(vector_as(val, a), vector_as(val, a)), form_of(vector_as(val, b), vector_as(val, b)));
    lemma_quad(val, f, a, a);
    lemma_quad(val, f, b, b);
    lemma_lessened(val, f, xx, yy);
    lemma_scaled(val, f, less, hk);
    lemma_trace(form_less(p, q), val(hk));
    assert(0real * val(hk) == 0real);
    lemma_row_reads(val, f, scaled(f, less, hk), d);
    let u = vector_as(val, d);
    lemma_form_times(form_less(p, q), val(hk), u);
    lemma_form_less(p, q, u);
    lemma_form_of(vector_as(val, a), vector_as(val, a), u);
    lemma_form_of(vector_as(val, b), vector_as(val, b), u);
}

/// The squares of an angle's sine and cosine add up to one.
pub open spec fn is_on_circle(val: Reading, f: Calc, angle: Single) -> bool {
    let (s, c) = (val(f(Op::Sin(angle))), val(f(Op::Cos(angle))));
    s * s + c * c == 1real
}

/// Every operation behind the matrix of a head rotation is exact.
pub open spec fn exact_head(val: Reading, f: Calc, yaw: Single, pitch: Single, roll: Single) -> bool {
    let (sy, cy) = (f(Op::Sin(yaw)), f(Op::Cos(yaw)));
    let (sp, cp) = (f(Op::Sin(pitch)), f(Op::Cos(pitch)));
    let (sr, cr) = (f(Op::Sin(roll)), f(Op::Cos(roll)));
    &&& is_on_circle(val, f, yaw) && is_on_circle(val, f, pitch) && is_on_circle(val, f, roll)
    &&& is_exact_as(val, f, Op::Times(cp, cy)) && is_exact_as(val, f, Op::Times(cp, sy))
    &&& is_exact_as(val, f, Op::Times(sr, cp)) && is_exact_as(val, f, Op::Times(cr, cp))
    &&& is_exact_as(val, f, Op::Times(cr.negated(), sy)) && is_exact_as(val, f, Op::Times(cr, cy))
    &&& is_exact_as(val, f, Op::Times(sr, sy)) && is_exact_as(val, f, Op::Times(sr.negated(), cy))
    &&& exact_prod3(val, f, sr, sp, cy) && exact_prod3(val, f, sr, sp, sy)
    &&& exact_prod3(val, f, cr, sp, cy) && exact_prod3(val, f, cr, sp, sy)
    &&& is_exact_as(val, f, Op::Minus(prod(f, cr.negated(), sy), prod3(f, sr, sp, cy)))
    &&& is_exact_as(val, f, Op::Minus(prod(f, cr, cy), prod3(f, sr, sp, sy)))
    &&& is_exact_as(val, f, Op::Minus(prod(f, sr, sy), prod3(f, cr, sp, cy)))
    &&& is_exact_as(val, f, Op::Minus(prod(f, sr.negated(), cy), prod3(f, cr, sp, sy)))
}

/// Two vectors of the plane, given in a turned frame, have the inner product
/// that their coordinates have.
proof fn lemma_frame(c: real, s: real, p: real, q: real, r: real, t: real)
    requires
        s * s + c * c == 1real,
    ensures
        (-(p * s) - q * c) * (-(r * s) - t * c) + (p * c - q * s) * (r * c - t * s) == p * r + q * t,
{
    let (ps, qc, rs, tc) = (p * s, q * c, r * s, t * c);
    let (pc, qs, rc, ts) = (p * c, q * s, r * c, t * s);
    assert((-ps - qc) * (-rs - tc) == ps * rs + ps * tc + qc * rs + qc * tc) by (nonlinear_arith);
    assert((pc - qs) * (rc - ts) == pc * rc - pc * ts - qs * rc + qs * ts) by (nonlinear_arith);
    lemma_swap(p, s, r, s);
    lemma_swap(p, c, r, c);
    lemma_swap(q, c, t, c);
    lemma_swap(q, s, t, s);
    lemma_swap(p, s, t, c);
    lemma_swap(p, c, t, s);
    lemma_swap(q, c, r, s);
    lemma_swap(q, s, r, c);
    let (pr, qt, ss, cc) = (p * r, q * t, s * s, c * c);
    assert(pr * ss + pr * cc == pr) by (nonlinear_arith)
        requires
            ss + cc == 1real,
    ;
    assert(qt * ss + qt * cc == qt) by (nonlinear_arith)
        requires
            ss + cc == 1real,
    ;
}

/// A row along the first axis of the turned frame, against another.
proof fn lemma_frame_first(c: real, s: real, k: real, p: real, q: real)
    requires
        s * s + c * c == 1real,
    ensures
        (k * c) * (-(p * s) - q * c) + (k * s) * (p * c - q * s) == -(k * q),
        (k * c) * (k * c) + (k * s) * (k * s) == k * k,
{
    assert(-(0real * s) - (-k) * c == k * c && 0real * c - (-k) * s == k * s) by (nonlinear_arith);
    lemma_frame(c, s, 0real, -k, p, q);
    assert(0real * p + (-k) * q == -(k * q)) by (nonlinear_arith);
    lemma_frame(c, s, 0real, -k, 0real, -k);
    assert(0real * 0real + (-k) * (-k) == k * k) by (nonlinear_arith);
}

/// In exact arithmetic, whatever numbers the patterns are read as, a head rotation
/// keeps lengths and angles: the rows of its matrix have length one and stand at
/// right angles.
pub proof fn head_rotations_keep_lengths(
    val: Reading,
    f: Calc,
    yaw: Single,
    pitch: Single,
    roll: Single,
)
    requires
        is_reading(val),
        exact_head(val, f, yaw, pitch, roll),
    ensures
        is_orthonormal(val, head_matrix(f, yaw, pitch, roll)),
{
    let (sy, cy) = (val(f(Op::Sin(yaw))), val(f(Op::Cos(yaw))));
    let (sp, cp) = (val(f(Op::Sin(pitch))), val(f(Op::Cos(pitch))));
    let (sr, cr) = (val(f(Op::Sin(roll))), val(f(Op::Cos(roll))));
    let (p, q) = (cr, sr * sp);
    let (r, t) = (-sr, cr * sp);
    assert((-cr) * sy == -(cr * sy) && (-sr) * cy == -(sr * cy) && (-sr) * sy == -(sr * sy))
        by (nonlinear_arith);
    let m = head_matrix(f, yaw, pitch, roll);
    assert(vector_as(val, m@[0]) == (cp * cy, cp * sy, sp));
    assert(vector_as(val, m@[1]) == (-(p * sy) - q * cy, p * cy - q * sy, sr * cp));
    assert(vector_as(val, m@[2]) == (-(r * sy) - t * cy, r * cy - t * sy, cr * cp));
    lemma_frame_first(cy, sy, cp, p, q);
    lemma_frame_first(cy, sy, cp, r, t);
    lemma_frame(cy, sy, p, q, p, q);
    lemma_frame(cy, sy, r, t, r, t);
    lemma_frame(cy, sy, p, q, r, t);
    let (s2, c2) = (sp * sp, cp * cp);
    lemma_swap(sr, sp, sr, sp);
    lemma_swap(sr, cp, sr, cp);
    lemma_swap(cr, sp, cr, sp);
    lemma_swap(cr, cp, cr, cp);
    lemma_swap(sr, sp, cr, sp);
    lemma_swap(sr, cp, cr, cp);
    let (rr, qq, rq) = (sr * sr, cr * cr, sr * cr);
    assert(rr * s2 + rr * c2 == rr && qq * s2 + qq * c2 == qq && rq * s2 + rq * c2 == rq)
        by (nonlinear_arith)
        requires
            s2 + c2 == 1real,
    ;
    assert((-sr) * (-sr) == rr && cr * (-sr) == -rq) by (nonlinear_arith)
        requires
            rr == sr * sr,
            rq == sr * cr,
    ;
    assert(cp * (sr * sp) == sp * (sr * cp) && cp * (cr * sp) == sp * (cr * cp)) by (nonlinear_arith);
}

/// The angle is level: its sine is nothing and its cosine one.
pub open spec fn is_level(val: Reading, f: Calc, angle: Single) -> bool {
    val(f(Op::Sin(angle))) == 0real && val(f(Op::Cos(angle))) == 1real
}

/// The doubled angle has the sine and the cosine that doubling gives.
pub open spec fn is_doubled(val: Reading, f: Calc, angle: Single) -> bool {
    let twice = prod(f, Single(TWO), angle);
    let (s, c) = (val(f(Op::Sin(angle))), val(f(Op::Cos(angle))));
    &&& val(f(Op::Sin(twice))) == 2real * (c * s)
    &&& val(f(Op::Cos(twice))) == c * c - s * s
}

/// Turning two components is exact.
pub open spec fn exact_turned(val: Reading, f: Calc, c: Single, s: Single, a: Single, b: Single) -> bool {
    &&& is_exact_as(val, f, Op::Times(c, a)) && exact_plus_prod(val, f, prod(f, c, a), s, b)
    &&& is_exact_as(val, f, Op::Times(s.negated(), a)) && exact_plus_prod(val, f, prod(f, s.negated(), a), c, b)
}

/// Every operation of turning a field about z, as a yaw and as a head rotation,
/// is exact.
pub open spec fn exact_yaw(val: Reading, f: Calc, rot: HeadRotation, sh: Frame, yaw: Single) -> bool {
    let twice = prod(f, Single(TWO), yaw);
    let (s, c) = (f(Op::Sin(yaw)), f(Op::Cos(yaw)));
    let (s2, c2) = (f(Op::Sin(twice)), f(Op::Cos(twice)));
    let v: [Single; 3] = [sh@[3], sh@[1], sh@[2]];
    let e = second_channels(sh);
    &&& exact_turned(val, f, c, s, sh@[3], sh@[1])
    &&& exact_turned(val, f, c, s, sh@[7], sh@[5])
    &&& exact_turned(val, f, c2, s2, sh@[8], sh@[4])
    &&& exact_block(val, f, rot.m)
    &&& exact_dot3(val, f, rot.m@[0], v) && exact_dot3(val, f, rot.m@[1], v) && exact_dot3(val, f, rot.m@[2], v)
    &&& exact_row_product(val, f, rot.m2@[0], e) && exact_row_product(val, f, rot.m2@[1], e)
    &&& exact_row_product(val, f, rot.m2@[2], e) && exact_row_product(val, f, rot.m2@[3], e)
    &&& exact_row_product(val, f, rot.m2@[4], e)
}

proof fn lemma_yaw_matrix(val: Reading, f: Calc, yaw: Single, pitch: Single, roll: Single)
    requires
        is_reading(val),
        exact_head(val, f, yaw, pitch, roll),
        is_level(val, f, pitch),
        is_level(val, f, roll),
    ensures
        ({
            let m = head_matrix(f, yaw, pitch, roll);
            let (s, c) = (val(f(Op::Sin(yaw))), val(f(Op::Cos(yaw))));
            &&& vector_as(val, m@[0]) == (c, s, 0real)
            &&& vector_as(val, m@[1]) == (-s, c, 0real)
            &&& vector_as(val, m@[2]) == (0real, 0real, 1real)
        }),
{
    let (s, c) = (val(f(Op::Sin(yaw))), val(f(Op::Cos(yaw))));
    let (sp, cp) = (val(f(Op::Sin(pitch))), val(f(Op::Cos(pitch))));
    let (sr, cr) = (val(f(Op::Sin(roll))), val(f(Op::Cos(roll))));
    assert(cp * c == c && cp * s == s && sr * cp == 0real && cr * cp == 1real) by (nonlinear_arith)
        requires
            cp == 1real,
            sr == 0real,
            cr == 1real,
    ;
    assert((-cr) * s == -s && cr * c == c && sr * s == 0real && (-sr) * c == 0real)
        by (nonlinear_arith)
        requires
            sr == 0real,
            cr == 1real,
    ;
    assert((sr * sp) * c == 0real && (sr * sp) * s == 0real && (cr * sp) * c == 0real && (cr * sp)
        * s == 0real) by (nonlinear_arith)
        requires
            sp == 0real,
    ;
}

/// A form of which some multiple was taken, read in the harmonics.
proof fn lemma_row_values(val: Reading, f: Calc, a: Quad, q: (real, real, real, real, real, real))
    requires
        is_reading(val),
        exact_row(val, f, a),
        form(val, a) == form_times(q, val(Single(SQRT3))),
        q.0 + q.1 == 0real,
        q.2 == 0real,
    ensures
        val(row(f, a)@[0]) == q.3,
        val(row(f, a)@[1]) == q.4,
        val(row(f, a)@[2]) == 0real,
        val(row(f, a)@[3]) == q.5,
        val(row(f, a)@[4]) == q.0 - q.1,
{
    let k = val(Single(SQRT3));
    let r = row(f, a);
    lemma_cancel(val(r@[0]), q.3, k);
    lemma_cancel(val(r@[1]), q.4, k);
    lemma_cancel(val(r@[3]), q.5, k);
    lemma_less(q.0, q.1, k);
    lemma_cancel(val(r@[4]), q.0 - q.1, k);
    let (x, y, h) = (q.0, q.1, val(Single(HALF)));
    assert(h * (x * k + y * k) == 0real) by (nonlinear_arith)
        requires
            x + y == 0real,
    ;
    assert(0real * k == 0real);
}

proof fn lemma_cancel(x: real, y: real, k: real)
    requires
        k > 0real,
        x * k == y * k,
    ensures
        x == y,
{
    assert(x == y) by (nonlinear_arith)
        requires
            k > 0real,
            x * k == y * k,
    ;
}

proof fn lemma_nulls(a: real, b: real, c: real, d: real)
    ensures
        0real * a == 0real,
        0real * b == 0real,
        0real * c == 0real,
        0real * d == 0real,
        a * 0real == 0real,
        1real * a == a,
        a * 1real == a,
{
}

/// The rows of the block of a yaw.
proof fn lemma_yaw_block(val: Reading, f: Calc, m: [[Single; 3]; 3], s: real, c: real)
    requires
        is_reading(val),
        exact_block(val, f, m),
        vector_as(val, m@[0]) == (c, s, 0real),
        vector_as(val, m@[1]) == (-s, c, 0real),
        vector_as(val, m@[2]) == (0real, 0real, 1real),
    ensures
        ({
            let b = second_block(f, m);
            let (c2, s2) = (c * c - s * s, 2real * (c * s));
            &&& val(b@[0]@[0]) == c2 && val(b@[0]@[4]) == -s2
            &&& val(b@[0]@[1]) == 0real && val(b@[0]@[2]) == 0real && val(b@[0]@[3]) == 0real
            &&& val(b@[1]@[1]) == c && val(b@[1]@[3]) == -s
            &&& val(b@[1]@[0]) == 0real && val(b@[1]@[2]) == 0real && val(b@[1]@[4]) == 0real
            &&& val(b@[2]@[2]) == 1real && val(b@[2]@[0]) == 0real && val(b@[2]@[1]) == 0real
            &&& val(b@[2]@[3]) == 0real && val(b@[2]@[4]) == 0real
            &&& val(b@[3]@[1]) == s && val(b@[3]@[3]) == c
            &&& val(b@[3]@[0]) == 0real && val(b@[3]@[2]) == 0real && val(b@[3]@[4]) == 0real
            &&& val(b@[4]@[0]) == s2 && val(b@[4]@[4]) == c2
            &&& val(b@[4]@[1]) == 0real && val(b@[4]@[2]) == 0real && val(b@[4]@[3]) == 0real
        }),
{
    let k = Single(SQRT3);
    let kr = val(k);
    let (xy, yz, xz) = (quad(f, m@[0], m@[1]), quad(f, m@[1], m@[2]), quad(f, m@[0], m@[2]));
    let (xx, yy, zz) = (quad(f, m@[0], m@[0]), quad(f, m@[1], m@[1]), quad(f, m@[2], m@[2]));
    let (x, y, z) = (vector_as(val, m@[0]), vector_as(val, m@[1]), vector_as(val, m@[2]));
    assert(c * (-s) == -(c * s) && s * c == c * s && (-s) * c == -(c * s) && (-s) * (-s) == s * s
        && s * (-s) == -(s * s)) by (nonlinear_arith);
    lemma_nulls(c, s, -s, 0real);
    lemma_nulls(s, c, 1real, 0real);
    lemma_nulls(-s, c, 1real, 0real);
    lemma_quad(val, f, m@[0], m@[1]);
    lemma_scaled(val, f, xy, k);
    lemma_row_values(val, f, scaled(f, xy, k), form_of(x, y));
    lemma_quad(val, f, m@[1], m@[2]);
    lemma_scaled(val, f, yz, k);
    lemma_row_values(val, f, scaled(f, yz, k), form_of(y, z));
    lemma_quad(val, f, m@[0], m@[2]);
    lemma_scaled(val, f, xz, k);
    lemma_row_values(val, f, scaled(f, xz, k), form_of(x, z));
    lemma_quad(val, f, m@[0], m@[0]);
    lemma_quad(val, f, m@[1], m@[1]);
    lemma_quad(val, f, m@[2], m@[2]);
    let less = lessened(f, xx, yy);
    let hk = prod(f, Single(HALF), k);
    let h = val(Single(HALF));
    lemma_lessened(val, f, xx, yy);
    lemma_scaled(val, f, less, hk);
    let q = form_less(form_of(x, x), form_of(y, y));
    let w = form_times(q, h);
    lemma_regroup(q.0, h, kr);
    lemma_regroup(q.1, h, kr);
    lemma_regroup(q.2, h, kr);
    lemma_regroup(q.3, h, kr);
    lemma_regroup(q.4, h, kr);
    lemma_regroup(q.5, h, kr);
    assert(form(val, scaled(f, less, hk)) == form_times(w, kr));
    let d = c * c - s * s;
    assert(d * h + (-d) * h == 0real && d * h - (-d) * h == d && (4real * (c * s)) * h == 2real * (c
        * s)) by (nonlinear_arith)
        requires
            2real * h == 1real,
    ;
    lemma_nulls(h, kr, 0real, 0real);
    lemma_row_values(val, f, scaled(f, less, hk), w);
    lemma_yaw_up(val, f, m@[2]);
}

proof fn lemma_regroup(q: real, h: real, k: real)
    ensures
        q * (h * k) == (q * h) * k,
{
    assert(q * (h * k) == (q * h) * k) by (nonlinear_arith);
}

/// The row for the height of a direction that a yaw leaves where it is.
proof fn lemma_yaw_up(val: Reading, f: Calc, c: [Single; 3])
    requires
        is_reading(val),
        vector_as(val, c) == (0real, 0real, 1real),
        ({
            let zz = quad(f, c, c);
            let up = scaled(f, zz, Single(ONE_AND_HALF));
            let one = scaled(f, squared_length(), Single(HALF));
            &&& exact_quad(val, f, c, c)
            &&& exact_scaled(val, f, zz, Single(ONE_AND_HALF))
            &&& exact_scaled(val, f, squared_length(), Single(HALF))
            &&& exact_lessened(val, f, up, one)
            &&& exact_row(val, f, lessened(f, up, one))
        }),
    ensures
        ({
            let up = scaled(f, quad(f, c, c), Single(ONE_AND_HALF));
            let r = row(f, lessened(f, up, scaled(f, squared_length(), Single(HALF))));
            &&& val(r@[2]) == 1real
            &&& val(r@[0]) == 0real && val(r@[1]) == 0real && val(r@[3]) == 0real && val(
                r@[4],
            ) == 0real
        }),
{
    let zz = quad(f, c, c);
    let up = scaled(f, zz, Single(ONE_AND_HALF));
    let one = scaled(f, squared_length(), Single(HALF));
    let all = lessened(f, up, one);
    lemma_quad(val, f, c, c);
    lemma_scaled(val, f, zz, Single(ONE_AND_HALF));
    lemma_scaled(val, f, squared_length(), Single(HALF));
    lemma_lessened(val, f, up, one);
    let (h, t, k) = (val(Single(HALF)), val(Single(ONE_AND_HALF)), val(Single(SQRT3)));
    lemma_nulls(h, t, k, 1real);
    lemma_nulls(t, h, k, 1real);
    assert(form(val, all) == (-h, -h, t - h, 0real, 0real, 0real));
    assert(h * ((-h) + (-h)) == -h) by (nonlinear_arith)
        requires
            2real * h == 1real,
    ;
    let r = row(f, all);
    lemma_nulls(k, k, k, k);
    lemma_cancel(val(r@[0]), 0real, k);
    lemma_cancel(val(r@[1]), 0real, k);
    lemma_cancel(val(r@[3]), 0real, k);
    lemma_cancel(val(r@[4]), 0real, k);
}

/// A head that only yaws turns the field about z: in exact arithmetic, whatever
/// numbers the patterns are read as, with pitch and roll level every channel of any
/// field is what the yaw gives.
pub proof fn a_head_that_only_yaws_turns_about_z(
    val: Reading,
    f: Calc,
    rot: HeadRotation,
    yaw: Single,
    pitch: Single,
    roll: Single,
    sh: Frame,
    n: int,
)
    requires
        is_reading(val),
        rot.m == head_matrix(f, yaw, pitch, roll),
        rot.m2 == second_block(f, rot.m),
        is_level(val, f, pitch),
        is_level(val, f, roll),
        is_doubled(val, f, yaw),
        exact_head(val, f, yaw, pitch, roll),
        exact_yaw(val, f, rot, sh, yaw),
        0 <= n < 9,
    ensures
        val(rot.applied(f, sh)@[n]) == val(yawed(f, sh, yaw)@[n]),
{
    let (sn, cs) = (f(Op::Sin(yaw)), f(Op::Cos(yaw)));
    let (s, c) = (val(sn), val(cs));
    let twice = prod(f, Single(TWO), yaw);
    lemma_yaw_matrix(val, f, yaw, pitch, roll);
    let (x, y, z) = (val(sh@[3]), val(sh@[1]), val(sh@[2]));
    lemma_nulls(x, y, z, 0real);
    lemma_nulls(z, x, y, 0real);
    if n >= 4 {
        lemma_yaw_block(val, f, rot.m, s, c);
        let (v, t, r) = (val(sh@[4]), val(sh@[5]), val(sh@[6]));
        let (q, u) = (val(sh@[7]), val(sh@[8]));
        lemma_nulls(v, t, r, q);
        lemma_nulls(r, t, u, q);
        lemma_nulls(u, t, r, q);
    }
}

} // verus!
