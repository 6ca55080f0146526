//! Triangles and boxes under a ray, and what a hierarchy is built from: boxes,
//! centroids, bins and the cost of cutting behind a bin.

use crate::arith::{
    diff, greater, greater_of, lesser, lesser_of, minus, over, plus, prod, quot, size, size_of, sum,
    times, Calc, Op,
};
use crate::bvh::{widest, widest_axis, NodeMeasure, LARGEST, LEAF_SIZE, NARROW, NBIN};
use crate::geom::{
    along, cross, cross_of, dot, dot_of, go_along, vdiff, vgreater, vlesser, vmax, vmin, vminus,
    vplus, vsum, TWO,
};
use crate::mesh::Point;
use crate::params::ONE;
use crate::probe::{answering, is_steady};
use crate::single::{rounded, Single};
use vstd::prelude::*;

verus! {

/// The pattern of -1e-6.
pub const P_MINUS_1EMINUS_6: u32 = 0xB586_37BD;

/// The pattern of 1e-9.
pub const P_1E_MINUS_9: u32 = 0x3089_705F;

/// The pattern of 1e-5.
pub const P_1E_MINUS_5: u32 = 0x3727_C5AC;

/// The pattern of 0.3333333333333333.
pub const P_0_3333333333333333: u32 = 0x3EAA_AAAB;

/// The pattern of 15.0.
pub const P_15_0: u32 = 0x4170_0000;

/// The pattern of 16.0.
pub const P_16_0: u32 = 0x4180_0000;

/// The pattern of the lowest finite number.
pub const LOWEST: u32 = 0xFF7F_FFFF;

/// The pattern of 1 + 1e-6.
pub const OUTSIDE: u32 = 0x3F80_0008;

/// A ray: origin, direction, and one over each of the direction's coordinates.
#[derive(Clone, Copy, Debug)]
pub struct Line {
    pub o: Point,
    pub d: Point,
    pub inv: Point,
}

impl Line {
    pub open spec fn from(f: Calc, o: Point, d: Point) -> Line {
        Line {
            o,
            d,
            inv: [
                quot(f, Single(ONE), d@[0]),
                quot(f, Single(ONE), d@[1]),
                quot(f, Single(ONE), d@[2]),
            ],
        }
    }

    pub fn new<F: Fn(Op) -> Single>(f: &F, o: Point, d: Point) -> (r: Self)
        requires
            is_steady(*f),
        ensures
            r == Line::from(answering(*f), o, d),
    {
        let inv: Point = [
            over(f, Single(ONE), d[0]),
            over(f, Single(ONE), d[1]),
            over(f, Single(ONE), d[2]),
        ];
        assert(inv@ =~= Line::from(answering(*f), o, d).inv@);
        Line { o, d, inv }
    }
}

/// The stretch of a ray within a box, one axis on; nothing where it is empty.
pub open spec fn clipped(f: Calc, t: (Single, Single), lo: Single, hi: Single, o: Single, inv: Single) -> Option<
    (Single, Single),
> {
    let x = prod(f, diff(f, lo, o), inv);
    let y = prod(f, diff(f, hi, o), inv);
    let (ta, tb) = if y.below(x) {
        (y, x)
    } else {
        (x, y)
    };
    let t0 = greater(t.0, ta);
    let t1 = lesser(t.1, tb);
    if t1.below(t0) {
        None
    } else {
        Some((t0, t1))
    }
}

fn clip<F: Fn(Op) -> Single>(f: &F, t: (Single, Single), lo: Single, hi: Single, o: Single, inv: Single) -> (r:
    Option<(Single, Single)>)
    requires
        is_steady(*f),
    ensures
        r == clipped(answering(*f), t, lo, hi, o, inv),
{
    let x: Single = times(f, minus(f, lo, o), inv);
    let y: Single = times(f, minus(f, hi, o), inv);
    let (ta, tb) = if y.lt(x) {
        (y, x)
    } else {
        (x, y)
    };
    let t0: Single = greater_of(t.0, ta);
    let t1: Single = lesser_of(t.1, tb);
    if t1.lt(t0) {
        None
    } else {
        Some((t0, t1))
    }
}

/// Where a ray enters a box within a limit; 0 where it starts inside.
pub open spec fn box_entry(f: Calc, lo: Point, hi: Point, l: Line, limit: Single) -> Option<Single> {
    match clipped(f, (Single(0), limit), lo@[0], hi@[0], l.o@[0], l.inv@[0]) {
        None => None,
        Some(x) => match clipped(f, x, lo@[1], hi@[1], l.o@[1], l.inv@[1]) {
            None => None,
            Some(y) => match clipped(f, y, lo@[2], hi@[2], l.o@[2], l.inv@[2]) {
                None => None,
                Some(z) => Some(z.0),
            },
        },
    }
}

pub fn ray_aabb<F: Fn(Op) -> Single>(f: &F, lo: Point, hi: Point, l: &Line, limit: Single) -> (r:
    Option<Single>)
    requires
        is_steady(*f),
    ensures
        r == box_entry(answering(*f), lo, hi, *l, limit),
{
    match clip(f, (Single(0), limit), lo[0], hi[0], l.o[0], l.inv[0]) {
        None => None,
        Some(x) => match clip(f, x, lo[1], hi[1], l.o[1], l.inv[1]) {
            None => None,
            Some(y) => match clip(f, y, lo[2], hi[2], l.o[2], l.inv[2]) {
                None => None,
                Some(z) => Some(z.0),
            },
        },
    }
}

/// A triangle as a corner and the two edges from there, with the triangle of
/// the mesh that it belongs to.
#[derive(Clone, Copy, Debug)]
pub struct PackedTri {
    pub a: Point,
    pub e1: Point,
    pub e2: Point,
    pub tri: u32,
}

/// How far along a ray a triangle is hit, from either side.
pub open spec fn tri_hit(f: Calc, a: Point, e1: Point, e2: Point, o: Point, d: Point) -> Option<Single> {
    let p = cross(f, d, e2);
    let det = dot(f, e1, p);
    let inv = quot(f, Single(ONE), det);
    let s = vdiff(f, o, a);
    let u = prod(f, dot(f, s, p), inv);
    let q = cross(f, s, e1);
    let v = prod(f, dot(f, d, q), inv);
    let t = prod(f, dot(f, e2, q), inv);
    if size(det).below(Single(P_1E_MINUS_9)) || !(Single(P_MINUS_1EMINUS_6).at_most(u) && u.at_most(Single(OUTSIDE))) || v.below(
        Single(P_MINUS_1EMINUS_6),
    ) || Single(OUTSIDE).below(sum(f, u, v)) || !Single(P_1E_MINUS_5).below(t) {
        None
    } else {
        Some(t)
    }
}

pub fn ray_tri_packed<F: Fn(Op) -> Single>(
    f: &F,
    a: Point,
    e1: Point,
    e2: Point,
    o: Point,
    d: Point,
) -> (r: Option<Single>)
    requires
        is_steady(*f),
    ensures
        r == tri_hit(answering(*f), a, e1, e2, o, d),
{
    let p: Point = cross_of(f, d, e2);
    let det: Single = dot_of(f, e1, p);
    if size_of(det).lt(Single(P_1E_MINUS_9)) {
        return None;
    }
    let inv: Single = over(f, Single(ONE), det);
    let s: Point = vminus(f, o, a);
    let u: Single = times(f, dot_of(f, s, p), inv);
    if !(Single(P_MINUS_1EMINUS_6).le(u) && u.le(Single(OUTSIDE))) {
        return None;
    }
    let q: Point = cross_of(f, s, e1);
    let v: Single = times(f, dot_of(f, d, q), inv);
    if v.lt(Single(P_MINUS_1EMINUS_6)) || Single(OUTSIDE).lt(plus(f, u, v)) {
        return None;
    }
    let t: Single = times(f, dot_of(f, e2, q), inv);
    if Single(P_1E_MINUS_5).lt(t) {
        Some(t)
    } else {
        None
    }
}

impl PackedTri {
    /// How far along the ray the triangle is hit.
    pub open spec fn hit(self, f: Calc, l: Line) -> Option<Single> {
        tri_hit(f, self.a, self.e1, self.e2, l.o, l.d)
    }

    /// The low corner of the triangle's box.
    pub open spec fn lo(self, f: Calc) -> Point {
        vlesser(vlesser(self.a, vsum(f, self.a, self.e1)), vsum(f, self.a, self.e2))
    }

    /// The high corner of the triangle's box.
    pub open spec fn hi(self, f: Calc) -> Point {
        vgreater(vgreater(self.a, vsum(f, self.a, self.e1)), vsum(f, self.a, self.e2))
    }

    pub open spec fn centroid(self, f: Calc) -> Point {
        along(f, self.a, vsum(f, self.e1, self.e2), Single(P_0_3333333333333333))
    }

    fn bounds<F: Fn(Op) -> Single>(&self, f: &F) -> (r: (Point, Point))
        requires
            is_steady(*f),
        ensures
            r.0 == self.lo(answering(*f)),
            r.1 == self.hi(answering(*f)),
    {
        let b: Point = vplus(f, self.a, self.e1);
        let c: Point = vplus(f, self.a, self.e2);
        (vmin(vmin(self.a, b), c), vmax(vmax(self.a, b), c))
    }

    fn center<F: Fn(Op) -> Single>(&self, f: &F) -> (r: Point)
        requires
            is_steady(*f),
        ensures
            r == self.centroid(answering(*f)),
    {
        go_along(f, self.a, vplus(f, self.e1, self.e2), Single(P_0_3333333333333333))
    }
}

/// What no box lies above.
pub open spec fn no_lo() -> Point {
    [Single(LARGEST), Single(LARGEST), Single(LARGEST)]
}

/// What no box lies below.
pub open spec fn no_hi() -> Point {
    [Single(LOWEST), Single(LOWEST), Single(LOWEST)]
}

/// Half the surface of a box, twice.
pub open spec fn area(f: Calc, lo: Point, hi: Point) -> Single {
    let e = vgreater(vdiff(f, hi, lo), [Single(0), Single(0), Single(0)]);
    prod(
        f,
        Single(TWO),
        sum(
            f,
            sum(f, prod(f, e@[0], e@[1]), prod(f, e@[1], e@[2])),
            prod(f, e@[2], e@[0]),
        ),
    )
}

fn area_of<F: Fn(Op) -> Single>(f: &F, lo: Point, hi: Point) -> (r: Single)
    requires
        is_steady(*f),
    ensures
        r == area(answering(*f), lo, hi),
{
    let zero: Point = [Single(0), Single(0), Single(0)];
    let e: Point = vmax(vminus(f, hi, lo), zero);
    let xy: Single = times(f, e[0], e[1]);
    let yz: Single = times(f, e[1], e[2]);
    let zx: Single = times(f, e[2], e[0]);
    times(f, Single(TWO), plus(f, plus(f, xy, yz), zx))
}

/// The low corner over the first `n` of the listed triangles.
pub open spec fn all_lo(f: Calc, prims: Seq<PackedTri>, v: Seq<usize>, n: int) -> Point
    decreases n,
{
    if n <= 0 {
        no_lo()
    } else {
        vlesser(all_lo(f, prims, v, n - 1), prims[v[n - 1] as int].lo(f))
    }
}

/// The high corner over the first `n` of the listed triangles.
pub open spec fn all_hi(f: Calc, prims: Seq<PackedTri>, v: Seq<usize>, n: int) -> Point
    decreases n,
{
    if n <= 0 {
        no_hi()
    } else {
        vgreater(all_hi(f, prims, v, n - 1), prims[v[n - 1] as int].hi(f))
    }
}

/// The lowest centroid coordinates of the first `n`.
pub open spec fn mid_lo(f: Calc, prims: Seq<PackedTri>, v: Seq<usize>, n: int) -> Point
    decreases n,
{
    if n <= 0 {
        no_lo()
    } else {
        vlesser(mid_lo(f, prims, v, n - 1), prims[v[n - 1] as int].centroid(f))
    }
}

/// The highest centroid coordinates of the first `n`.
pub open spec fn mid_hi(f: Calc, prims: Seq<PackedTri>, v: Seq<usize>, n: int) -> Point
    decreases n,
{
    if n <= 0 {
        no_hi()
    } else {
        vgreater(mid_hi(f, prims, v, n - 1), prims[v[n - 1] as int].centroid(f))
    }
}

/// How far the centroids are spread.
pub open spec fn spread(f: Calc, prims: Seq<PackedTri>, v: Seq<usize>) -> Point {
    vdiff(f, mid_hi(f, prims, v, v.len() as int), mid_lo(f, prims, v, v.len() as int))
}

/// The bin of a triangle along the widest axis of the listed ones.
pub open spec fn bin_for(f: Calc, prims: Seq<PackedTri>, v: Seq<usize>, p: usize) -> usize {
    let ext = spread(f, prims, v);
    let axis = widest(ext);
    let x = diff(
        f,
        prims[p as int].centroid(f)@[axis],
        mid_lo(f, prims, v, v.len() as int)@[axis],
    );
    lesser(
        prod(f, quot(f, x, ext@[axis]), Single(P_16_0)),
        Single(P_15_0),
    ).truncated(usize::MAX as nat) as usize
}

/// The bins of the listed triangles.
pub open spec fn bins_of(f: Calc, prims: Seq<PackedTri>, v: Seq<usize>) -> Seq<usize> {
    Seq::new(v.len(), |i: int| bin_for(f, prims, v, v[i]))
}

/// The low corner over those of the first `n` that lie in bin `k`.
pub open spec fn bin_lo(f: Calc, prims: Seq<PackedTri>, v: Seq<usize>, bins: Seq<usize>, k: int, n: int) -> Point
    decreases n,
{
    if n <= 0 {
        no_lo()
    } else if crate::bvh::bin(bins, n - 1) == k {
        vlesser(bin_lo(f, prims, v, bins, k, n - 1), prims[v[n - 1] as int].lo(f))
    } else {
        bin_lo(f, prims, v, bins, k, n - 1)
    }
}

/// The high corner over those of the first `n` that lie in bin `k`.
pub open spec fn bin_hi(f: Calc, prims: Seq<PackedTri>, v: Seq<usize>, bins: Seq<usize>, k: int, n: int) -> Point
    decreases n,
{
    if n <= 0 {
        no_hi()
    } else if crate::bvh::bin(bins, n - 1) == k {
        vgreater(bin_hi(f, prims, v, bins, k, n - 1), prims[v[n - 1] as int].hi(f))
    } else {
        bin_hi(f, prims, v, bins, k, n - 1)
    }
}

/// How many of the first `n` lie in bin `k`.
pub open spec fn bin_count(bins: Seq<usize>, k: int, n: int) -> nat
    decreases n,
{
    if n <= 0 {
        0
    } else {
        bin_count(bins, k, n - 1) + if crate::bvh::bin(bins, n - 1) == k {
            1nat
        } else {
            0
        }
    }
}

/// What the triangles of one bin, or of several, amount to: their box and
/// their number.
#[derive(Clone, Copy, Debug)]
pub struct Heap {
    pub lo: Point,
    pub hi: Point,
    pub n: u32,
}

impl Heap {
    pub open spec fn none() -> Heap {
        Heap { lo: no_lo(), hi: no_hi(), n: 0 }
    }

    pub open spec fn and(self, o: Heap) -> Heap {
        Heap { lo: vlesser(self.lo, o.lo), hi: vgreater(self.hi, o.hi), n: (self.n + o.n) as u32 }
    }

    /// The cost of visiting them.
    pub open spec fn cost(self, f: Calc) -> Single {
        prod(f, area(f, self.lo, self.hi), rounded(self.n as nat))
    }

    fn new() -> (r: Self)
        ensures
            r == Heap::none(),
    {
        let lo: Point = [Single(LARGEST), Single(LARGEST), Single(LARGEST)];
        let hi: Point = [Single(LOWEST), Single(LOWEST), Single(LOWEST)];
        Heap { lo, hi, n: 0 }
    }

    fn join(&self, o: &Heap) -> (r: Self)
        requires
            self.n + o.n <= u32::MAX,
        ensures
            r == self.and(*o),
    {
        Heap { lo: vmin(self.lo, o.lo), hi: vmax(self.hi, o.hi), n: self.n + o.n }
    }

    fn price<F: Fn(Op) -> Single>(&self, f: &F) -> (r: Single)
        requires
            is_steady(*f),
        ensures
            r == self.cost(answering(*f)),
    {
        let a: Single = area_of(f, self.lo, self.hi);
        times(f, a, Single::from_count(self.n as u64))
    }
}

/// The triangles in bin `k`.
pub open spec fn heap_of(f: Calc, prims: Seq<PackedTri>, v: Seq<usize>, bins: Seq<usize>, k: int, n: int) -> Heap {
    Heap {
        lo: bin_lo(f, prims, v, bins, k, n),
        hi: bin_hi(f, prims, v, bins, k, n),
        n: bin_count(bins, k, n) as u32,
    }
}

/// Bins 0 to `k`, joined from the first on.
pub open spec fn left_heap(heaps: Seq<Heap>, k: int) -> Heap
    decreases k + 1,
{
    if k < 0 {
        Heap::none()
    } else {
        left_heap(heaps, k - 1).and(heaps[k])
    }
}

/// Bins `k` to 15, joined from the last on.
pub open spec fn right_heap(heaps: Seq<Heap>, k: int) -> Heap
    decreases NBIN - k,
{
    if k >= NBIN {
        Heap::none()
    } else {
        right_heap(heaps, k + 1).and(heaps[k])
    }
}

/// The cost of a cut behind bin `k`.
pub open spec fn cut_cost(f: Calc, heaps: Seq<Heap>, k: int) -> Single {
    let r = right_heap(heaps, k + 1);
    sum(
        f,
        left_heap(heaps, k).cost(f),
        if r.n > 0 {
            r.cost(f)
        } else {
            Single(0)
        },
    )
}

/// The bins' heaps.
pub open spec fn heaps_of(f: Calc, prims: Seq<PackedTri>, v: Seq<usize>, bins: Seq<usize>) -> Seq<Heap> {
    Seq::new(NBIN as nat, |k: int| heap_of(f, prims, v, bins, k, v.len() as int))
}

/// `m` is measured of the listed triangles: their box, how far their centroids
/// are spread, and, where they are to be cut, their bins and what cuts cost.
pub open spec fn is_measure(f: Calc, prims: Seq<PackedTri>, v: Seq<usize>, m: NodeMeasure) -> bool {
    &&& m.bmin == all_lo(f, prims, v, v.len() as int)
    &&& m.bmax == all_hi(f, prims, v, v.len() as int)
    &&& m.extent == spread(f, prims, v)
    &&& v.len() > LEAF_SIZE && !m.extent@[widest(m.extent)].below(Single(NARROW)) ==> {
        let bins = bins_of(f, prims, v);
        &&& m.bins@ == bins
        &&& forall|k: int|
            0 <= k < NBIN - 1 ==> #[trigger] m.costs@[k] == cut_cost(
                f,
                heaps_of(f, prims, v, bins),
                k,
            )
    }
}

proof fn lemma_bin_count(bins: Seq<usize>, k: int, n: int)
    ensures
        bin_count(bins, k, n) <= (if n > 0 { n } else { 0 }),
    decreases n,
{
    if n > 0 {
        lemma_bin_count(bins, k, n - 1);
    }
}

/// Numbers of several bins together are no more than there are.
spec fn counts_upto(bins: Seq<usize>, k: int, n: int) -> nat
    decreases k + 1,
{
    if k < 0 {
        0
    } else {
        counts_upto(bins, k - 1, n) + bin_count(bins, k, n)
    }
}

spec fn counts_from(bins: Seq<usize>, k: int, n: int) -> nat
    decreases NBIN - k,
{
    if k >= NBIN {
        0
    } else {
        counts_from(bins, k + 1, n) + bin_count(bins, k, n)
    }
}

proof fn lemma_counts(bins: Seq<usize>, k: int, n: int)
    requires
        n >= 0,
        -1 <= k,
    ensures
        counts_upto(bins, k, n) <= n,
        n > 0 ==> counts_upto(bins, k, n) == counts_upto(bins, k, n - 1) + (if crate::bvh::bin(
            bins,
            n - 1,
        ) <= k {
            1nat
        } else {
            0
        }),
    decreases n, k + 1,
{
    if k >= 0 {
        lemma_counts(bins, k - 1, n);
        if n > 0 {
            lemma_counts(bins, k, n - 1);
        } else {
            lemma_zero_counts(bins, k);
        }
    } else if n > 0 {
        lemma_counts(bins, k, n - 1);
    }
}

proof fn lemma_zero_counts(bins: Seq<usize>, k: int)
    requires
        -1 <= k,
    ensures
        counts_upto(bins, k, 0) == 0,
    decreases k + 1,
{
    if k >= 0 {
        lemma_zero_counts(bins, k - 1);
    }
}

proof fn lemma_counts_split(bins: Seq<usize>, k: int, n: int)
    requires
        0 <= k <= NBIN,
    ensures
        counts_upto(bins, k - 1, n) + counts_from(bins, k, n) == counts_upto(bins, NBIN - 1, n),
    decreases NBIN - k,
{
    if k < NBIN {
        lemma_counts_split(bins, k + 1, n);
    }
}

/// Heap the triangles up by bin.
fn heap_up<F: Fn(Op) -> Single>(f: &F, prims: &Vec<PackedTri>, v: &Vec<usize>, bins: &Vec<usize>) -> (r: [Heap;
    16])
    requires
        is_steady(*f),
        v@.len() <= u32::MAX,
        bins@.len() == v@.len(),
        forall|i: int| 0 <= i < v@.len() ==> #[trigger] v@[i] < prims@.len(),
    ensures
        r@ == heaps_of(answering(*f), prims@, v@, bins@),
{
    let ghost g = answering(*f);
    let none: Heap = Heap::new();
    let mut r: [Heap; 16] = [none;16];
    let mut n: usize = 0;
    let len: usize = v.len();
    while n < len
        invariant
            n <= len,
            len == v@.len(),
            len <= u32::MAX,
            bins@.len() == len,
            is_steady(*f),
            g == answering(*f),
            forall|i: int| 0 <= i < v@.len() ==> #[trigger] v@[i] < prims@.len(),
            forall|k: int|
                0 <= k < NBIN ==> #[trigger] r@[k] == heap_of(g, prims@, v@, bins@, k, n as int),
        decreases len - n,
    {
        let k: usize = if bins[n] < NBIN {
            bins[n]
        } else {
            NBIN - 1
        };
        assert(k == crate::bvh::bin(bins@, n as int));
        let p: usize = v[n];
        let (lo, hi) = prims[p].bounds(f);
        proof {
            lemma_bin_count(bins@, k as int, n as int);
        }
        let h: Heap = r[k];
        assert(r@[k as int] == heap_of(g, prims@, v@, bins@, k as int, n as int));
        r[k] = Heap { lo: vmin(h.lo, lo), hi: vmax(h.hi, hi), n: h.n + 1 };
        n = n + 1;
        proof {
            assert forall|j: int| 0 <= j < NBIN implies #[trigger] r@[j] == heap_of(
                g,
                prims@,
                v@,
                bins@,
                j,
                n as int,
            ) by {
                lemma_bin_count(bins@, j, n as int);
            }
        }
    }
    assert(r@ =~= heaps_of(g, prims@, v@, bins@));
    r
}

/// The costs of all cuts.
fn price_cuts<F: Fn(Op) -> Single>(f: &F, heaps: &[Heap; 16], Ghost(bins): Ghost<Seq<usize>>, Ghost(
    n,
): Ghost<int>) -> (r: [Single; 15])
    requires
        is_steady(*f),
        0 <= n <= u32::MAX,
        forall|k: int| 0 <= k < NBIN ==> (#[trigger] heaps@[k]).n == bin_count(bins, k, n),
    ensures
        forall|k: int|
            0 <= k < NBIN - 1 ==> #[trigger] r@[k] == cut_cost(answering(*f), heaps@, k),
{
    let ghost g = answering(*f);
    let mut right: [Single; 16] = [Single(0);16];
    let mut acc: Heap = Heap::new();
    let mut k: usize = NBIN;
    proof {
        lemma_counts(bins, NBIN - 1, n);
        lemma_counts_split(bins, NBIN as int, n);
    }
    while k > 1
        invariant
            1 <= k <= NBIN,
            is_steady(*f),
            g == answering(*f),
            0 <= n <= u32::MAX,
            heaps@.len() == NBIN,
            counts_upto(bins, NBIN - 1, n) <= n,
            forall|k: int| 0 <= k < NBIN ==> (#[trigger] heaps@[k]).n == bin_count(bins, k, n),
            acc == right_heap(heaps@, k as int),
            acc.n == counts_from(bins, k as int, n),
            forall|j: int|
                k <= j < NBIN ==> #[trigger] right@[j] == (if right_heap(heaps@, j).n > 0 {
                    right_heap(heaps@, j).cost(g)
                } else {
                    Single(0)
                }),
        decreases k,
    {
        k = k - 1;
        proof {
            lemma_counts_split(bins, k as int, n);
        }
        assert(heaps@[k as int].n == bin_count(bins, k as int, n));
        acc = acc.join(&heaps[k]);
        right[k] = if acc.n > 0 {
            acc.price(f)
        } else {
            Single(0)
        };
    }
    let mut r: [Single; 15] = [Single(0);15];
    let mut acc: Heap = Heap::new();
    let mut k: usize = 0;
    while k < NBIN - 1
        invariant
            k <= NBIN - 1,
            is_steady(*f),
            g == answering(*f),
            0 <= n <= u32::MAX,
            heaps@.len() == NBIN,
            forall|k: int| 0 <= k < NBIN ==> (#[trigger] heaps@[k]).n == bin_count(bins, k, n),
            acc == left_heap(heaps@, k - 1),
            acc.n == counts_upto(bins, k - 1, n),
            forall|j: int|
                1 <= j < NBIN ==> #[trigger] right@[j] == (if right_heap(heaps@, j).n > 0 {
                    right_heap(heaps@, j).cost(g)
                } else {
                    Single(0)
                }),
            forall|j: int| 0 <= j < k ==> #[trigger] r@[j] == cut_cost(g, heaps@, j),
        decreases NBIN - k,
    {
        proof {
            lemma_counts(bins, k as int, n);
        }
        assert(heaps@[k as int].n == bin_count(bins, k as int, n));
        acc = acc.join(&heaps[k]);
        let left: Single = acc.price(f);
        r[k] = plus(f, left, right[k + 1]);
        k = k + 1;
    }
    r
}

/// Measure the listed triangles.
pub fn measure<F: Fn(Op) -> Single>(f: &F, prims: &Vec<PackedTri>, v: &Vec<usize>) -> (m:
    NodeMeasure)
    requires
        is_steady(*f),
        v@.len() <= u32::MAX,
        forall|i: int| 0 <= i < v@.len() ==> #[trigger] v@[i] < prims@.len(),
    ensures
        is_measure(answering(*f), prims@, v@, m),
{
    let ghost g = answering(*f);
    let none: Heap = Heap::new();
    let (mut bmin, mut bmax) = (none.lo, none.hi);
    let (mut cmin, mut cmax) = (none.lo, none.hi);
    let len: usize = v.len();
    let mut n: usize = 0;
    while n < len
        invariant
            n <= len,
            len == v@.len(),
            is_steady(*f),
            g == answering(*f),
            forall|i: int| 0 <= i < v@.len() ==> #[trigger] v@[i] < prims@.len(),
            bmin == all_lo(g, prims@, v@, n as int),
            bmax == all_hi(g, prims@, v@, n as int),
            cmin == mid_lo(g, prims@, v@, n as int),
            cmax == mid_hi(g, prims@, v@, n as int),
        decreases len - n,
    {
        let p: usize = v[n];
        let (lo, hi) = prims[p].bounds(f);
        bmin = vmin(bmin, lo);
        bmax = vmax(bmax, hi);
        let c: Point = prims[p].center(f);
        cmin = vmin(cmin, c);
        cmax = vmax(cmax, c);
        n = n + 1;
    }
    let extent: Point = vminus(f, cmax, cmin);
    let axis: usize = widest_axis(&extent);
    let width: Single = extent[axis];
    if len <= LEAF_SIZE || width.lt(Single(NARROW)) {
        return NodeMeasure { bmin, bmax, extent, bins: Vec::new(), costs: [Single(0);15] };
    }
    let ghost goal = bins_of(g, prims@, v@);
    let mut bins: Vec<usize> = Vec::new();
    let mut n: usize = 0;
    while n < len
        invariant
            n <= len,
            len == v@.len(),
            is_steady(*f),
            g == answering(*f),
            forall|i: int| 0 <= i < v@.len() ==> #[trigger] v@[i] < prims@.len(),
            axis == widest(extent),
            axis < 3,
            extent == spread(g, prims@, v@),
            width == extent@[axis as int],
            cmin == mid_lo(g, prims@, v@, len as int),
            goal == bins_of(g, prims@, v@),
            bins@ == goal.take(n as int),
        decreases len - n,
    {
        let c: Point = prims[v[n]].center(f);
        let x: Single = minus(f, c[axis], cmin[axis]);
        let at: Single = lesser_of(times(f, over(f, x, width), Single(P_16_0)), Single(P_15_0));
        bins.push(at.to_usize());
        n = n + 1;
        assert(bins@ =~= goal.take(n as int));
    }
    assert(bins@ =~= goal);
    let heaps: [Heap; 16] = heap_up(f, prims, v, &bins);
    proof {
        assert forall|k: int| 0 <= k < NBIN implies (#[trigger] heaps@[k]).n == bin_count(
            bins@,
            k,
            len as int,
        ) by {
            lemma_bin_count(bins@, k, len as int);
        }
    }
    let costs: [Single; 15] = price_cuts(f, &heaps, Ghost(bins@), Ghost(len as int));
    NodeMeasure { bmin, bmax, extent, bins, costs }
}

} // verus!
