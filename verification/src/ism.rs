//! Image sources of a shoebox room: which images of the lattice are within a
//! reflection order, in which order they are listed, how often each wall
//! reflects them, and when, from where and how loud they arrive.

use crate::arith::{greater, greater_of, over, plus, prod, quot, sum, times, Calc, Op};
use crate::exact::{
    exact_norm, exact_vdiff, is_exact, lemma_minus_one, lemma_one, lemma_opposite,
    lemma_same_pattern, lemma_two, square, value,
};
use crate::geom::{dim, dimmed, norm, norm_of, normalize, unit_of, vdiff, vminus, TWO};
use crate::material::{spread_over, spreading, MIN_DIST, SPEED_OF_SOUND};
use crate::mesh::Point;
use crate::params::{Tap, ONE};
use crate::probe::{answering, is_steady};
use crate::scene::{Shoebox, MINUS_ONE};
use crate::single::{signed_rounded, Single};
use vstd::prelude::*;

verus! {

/// One image of the lattice: mirrored (1) or not (0) along each axis, shifted
/// by whole room lengths.
#[derive(Clone, Copy, Debug, PartialEq, Eq, Structural)]
pub struct Image {
    pub px: i32,
    pub py: i32,
    pub pz: i32,
    pub nx: i32,
    pub ny: i32,
    pub nz: i32,
}

/// A distance on the number line.
pub open spec fn apart(a: int, b: int) -> nat {
    if a >= b {
        (a - b) as nat
    } else {
        (b - a) as nat
    }
}

impl Image {
    /// How often wall `w` reflects the image: the wall at 0 of an axis as often
    /// as shift and mirror differ, the wall at its end as often as the shift.
    pub open spec fn hits(self, w: int) -> nat {
        if w == 0 {
            apart(self.nx as int, self.px as int)
        } else if w == 1 {
            apart(self.nx as int, 0)
        } else if w == 2 {
            apart(self.ny as int, self.py as int)
        } else if w == 3 {
            apart(self.ny as int, 0)
        } else if w == 4 {
            apart(self.nz as int, self.pz as int)
        } else {
            apart(self.nz as int, 0)
        }
    }

    /// Reflections in all.
    pub open spec fn order(self) -> nat {
        self.hits(0) + self.hits(1) + self.hits(2) + self.hits(3) + self.hits(4) + self.hits(5)
    }

    pub open spec fn is_image(self) -> bool {
        0 <= self.px <= 1 && 0 <= self.py <= 1 && 0 <= self.pz <= 1
    }
}

/// The largest shift that the given order needs, and one more.
pub open spec fn reach(max_order: u32) -> int {
    (max_order + 1) / 2 + 1
}

/// Shifts along one axis.
pub open spec fn width(max_order: u32) -> int {
    2 * reach(max_order) + 1
}

/// How many images of the lattice are looked at.
pub open spec fn lattice(max_order: u32) -> int {
    8 * (width(max_order) * width(max_order) * width(max_order))
}

/// Image `i` of the lattice: shifts along z run fastest, the mirrors along x
/// slowest.
pub open spec fn image_at(max_order: u32, i: int) -> Image {
    let m = width(max_order);
    let r = reach(max_order);
    let q = i / m / m / m;
    Image {
        px: (q / 4) as i32,
        py: (q / 2 % 2) as i32,
        pz: (q % 2) as i32,
        nx: (i / m / m % m - r) as i32,
        ny: (i / m % m - r) as i32,
        nz: (i % m - r) as i32,
    }
}

/// The images among the first `n` of the lattice that are within the order.
pub open spec fn images(max_order: u32, n: int) -> Seq<Image>
    decreases n,
{
    if n <= 0 {
        Seq::empty()
    } else if image_at(max_order, n - 1).order() <= max_order {
        images(max_order, n - 1).push(image_at(max_order, n - 1))
    } else {
        images(max_order, n - 1)
    }
}

/// One coordinate of an image: the source's own or mirrored one, shifted by
/// twice the room's size as often as the image is.
pub open spec fn shifted(f: Calc, p: i32, n: i32, at: Single, size: Single) -> Single {
    sum(
        f,
        prod(
            f,
            if p == 0 {
                Single(ONE)
            } else {
                Single(MINUS_ONE)
            },
            at,
        ),
        prod(f, prod(f, Single(TWO), signed_rounded(n as int)), size),
    )
}

fn shift<F: Fn(Op) -> Single>(f: &F, p: i32, n: i32, at: Single, size: Single) -> (r: Single)
    requires
        is_steady(*f),
    ensures
        r == shifted(answering(*f), p, n, at, size),
{
    let flip: Single = if p == 0 {
        Single(ONE)
    } else {
        Single(MINUS_ONE)
    };
    let own: Single = times(f, flip, at);
    let twice: Single = times(f, Single(TWO), Single::from_signed(n));
    plus(f, own, times(f, twice, size))
}

impl Image {
    /// Where the image lies.
    pub open spec fn place(self, f: Calc, source: Point, size: Point) -> Point {
        [
            shifted(f, self.px, self.nx, source@[0], size@[0]),
            shifted(f, self.py, self.ny, source@[1], size@[1]),
            shifted(f, self.pz, self.nz, source@[2], size@[2]),
        ]
    }

    fn place_of<F: Fn(Op) -> Single>(&self, f: &F, source: Point, size: Point) -> (r: Point)
        requires
            is_steady(*f),
        ensures
            r == self.place(answering(*f), source, size),
    {
        let r: Point = [
            shift(f, self.px, self.nx, source[0], size[0]),
            shift(f, self.py, self.ny, source[1], size[1]),
            shift(f, self.pz, self.nz, source[2], size[2]),
        ];
        assert(r@ =~= self.place(answering(*f), source, size)@);
        r
    }
}

/// The gains behind `n` reflections off one wall.
pub open spec fn after_wall(f: Calc, g: [Single; 3], refl: [Single; 3], n: int) -> [Single; 3]
    decreases n,
{
    if n <= 0 {
        g
    } else {
        dimmed(f, after_wall(f, g, refl, n - 1), refl)
    }
}

/// The gains behind the reflections off the first `w` walls.
pub open spec fn after_walls(f: Calc, g: [Single; 3], room: Shoebox, image: Image, w: int) -> [Single;
    3]
    decreases w,
{
    if w <= 0 {
        g
    } else {
        after_wall(
            f,
            after_walls(f, g, room, image, w - 1),
            room.walls@[w - 1].reflecting(f),
            image.hits(w - 1) as int,
        )
    }
}

/// The tap of an image: the delay of its distance, and the loss of its distance
/// kept from falling to nothing.
pub open spec fn tap_of(
    f: Calc,
    room: Shoebox,
    source: Point,
    listener: Point,
    image: Image,
    key: u32,
) -> Tap {
    let to = vdiff(f, image.place(f, source, room.size), listener);
    let near = greater(norm(f, to), Single(MIN_DIST));
    Tap {
        key,
        delay_s: quot(f, norm(f, to), Single(SPEED_OF_SOUND)),
        dir: unit_of(f, to),
        gains: after_walls(f, spread_over(f, near), room, image, 6),
    }
}

/// The taps of the images, numbered in their order.
pub open spec fn taps_of(
    f: Calc,
    room: Shoebox,
    source: Point,
    listener: Point,
    images: Seq<Image>,
) -> Seq<Tap> {
    Seq::new(images.len(), |i: int| tap_of(f, room, source, listener, images[i], i as u32))
}

fn reflect_gains<F: Fn(Op) -> Single>(
    f: &F,
    g: [Single; 3],
    room: &Shoebox,
    refl: &[[Single; 3]; 6],
    image: &Image,
    hits: &[u32; 6],
) -> (r: [Single; 3])
    requires
        is_steady(*f),
        forall|w: int|
            0 <= w < 6 ==> #[trigger] refl@[w] == room.walls@[w].reflecting(answering(*f)),
        *hits == hit_counts(*image),
        image.order() <= u32::MAX,
    ensures
        r == after_walls(answering(*f), g, *room, *image, 6),
{
    let ghost c = answering(*f);
    let mut r: [Single; 3] = g;
    let mut w: usize = 0;
    while w < 6
        invariant
            w <= 6,
            is_steady(*f),
            c == answering(*f),
            forall|w: int| 0 <= w < 6 ==> #[trigger] refl@[w] == room.walls@[w].reflecting(c),
            *hits == hit_counts(*image),
            image.order() <= u32::MAX,
            r == after_walls(c, g, *room, *image, w as int),
        decreases 6 - w,
    {
        let ghost before = r;
        let mut n: u32 = 0;
        while n < hits[w]
            invariant
                w < 6,
                n <= hits@[w as int],
                is_steady(*f),
                c == answering(*f),
                r == after_wall(c, before, refl@[w as int], n as int),
            decreases hits@[w as int] - n,
        {
            r = dim(f, r, refl[w]);
            n = n + 1;
        }
        assert(hits@[w as int] == image.hits(w as int));
        w = w + 1;
    }
    r
}

/// The reflections of each wall.
pub open spec fn hit_counts(g: Image) -> [u32; 6] {
    [
        g.hits(0) as u32,
        g.hits(1) as u32,
        g.hits(2) as u32,
        g.hits(3) as u32,
        g.hits(4) as u32,
        g.hits(5) as u32,
    ]
}

/// Largest order: every index of the lattice fits its word.
pub const MAX_ORDER: u32 = 1_000_000;

fn apart_of(a: i32, b: i32) -> (r: u32)
    requires
        -600_000 <= a <= 600_000,
        -600_000 <= b <= 600_000,
    ensures
        r == apart(a as int, b as int),
{
    if a >= b {
        (a - b) as u32
    } else {
        (b - a) as u32
    }
}

proof fn lemma_quotients(i: int, m: int)
    requires
        m > 0,
        0 <= i < 8 * (m * m * m),
    ensures
        0 <= i % m < m,
        0 <= i / m % m < m,
        0 <= i / m / m % m < m,
        0 <= i / m / m / m < 8,
{
    vstd::arithmetic::div_mod::lemma_div_denominator(i, m, m);
    vstd::arithmetic::div_mod::lemma_div_denominator(i, m * m, m);
    assert(m * m > 0) by (nonlinear_arith)
        requires
            m > 0,
    ;
    assert(m * m * m > 0) by (nonlinear_arith)
        requires
            m > 0,
            m * m > 0,
    ;
    let c = m * m * m;
    assert(i / m / m / m == i / c);
    assert(0 <= i / c < 8) by (nonlinear_arith)
        requires
            c > 0,
            0 <= i < 8 * c,
    ;
    vstd::arithmetic::div_mod::lemma_mod_bound(i, m);
    vstd::arithmetic::div_mod::lemma_mod_bound(i / m, m);
    vstd::arithmetic::div_mod::lemma_mod_bound(i / m / m, m);
}

fn place(max_order: u32, m: u64, r: i32, i: u64) -> (g: Image)
    requires
        max_order <= MAX_ORDER,
        r == reach(max_order),
        m == width(max_order),
        i < lattice(max_order),
    ensures
        g == image_at(max_order, i as int),
        g.is_image(),
        is_near(max_order, g),
{
    proof {
        lemma_quotients(i as int, m as int);
    }
    let q: u64 = i / m / m / m;
    let x: u64 = i / m / m % m;
    let y: u64 = i / m % m;
    let z: u64 = i % m;
    Image {
        px: (q / 4) as i32,
        py: (q / 2 % 2) as i32,
        pz: (q % 2) as i32,
        nx: x as i32 - r,
        ny: y as i32 - r,
        nz: z as i32 - r,
    }
}

fn count_hits(g: &Image) -> (hits: [u32; 6])
    requires
        g.is_image(),
        is_near(MAX_ORDER, *g),
    ensures
        hits == hit_counts(*g),
        hits@[0] + hits@[1] + hits@[2] + hits@[3] + hits@[4] + hits@[5] == g.order(),
        g.order() <= 6_000_000,
{
    [
        apart_of(g.nx, g.px),
        apart_of(g.nx, 0),
        apart_of(g.ny, g.py),
        apart_of(g.ny, 0),
        apart_of(g.nz, g.pz),
        apart_of(g.nz, 0),
    ]
}

/// The taps of every image within `max_order` reflections.
pub fn image_source_taps<F: Fn(Op) -> Single>(
    f: &F,
    room: &Shoebox,
    source: Point,
    listener: Point,
    max_order: u32,
    out: &mut Vec<Tap>,
)
    requires
        max_order <= MAX_ORDER,
        is_steady(*f),
    ensures
        final(out)@ == taps_of(
            answering(*f),
            *room,
            source,
            listener,
            images(max_order, lattice(max_order)),
        ),
{
    out.clear();
    let ghost c = answering(*f);
    let none: [Single; 3] = [Single(0);3];
    let mut refl: [[Single; 3]; 6] = [none;6];
    let mut w: usize = 0;
    while w < 6
        invariant
            w <= 6,
            is_steady(*f),
            c == answering(*f),
            refl@.len() == 6,
            forall|v: int| 0 <= v < w ==> #[trigger] refl@[v] == room.walls@[v].reflecting(c),
        decreases 6 - w,
    {
        refl[w] = room.walls[w].reflection_amplitude(f);
        w = w + 1;
    }
    let r: i32 = (max_order as i32 + 1) / 2 + 1;
    let m: u64 = (2 * r + 1) as u64;
    proof {
        assert(m == width(max_order) && m <= 1_000_005);
        assert(m * m <= 1_000_005 * 1_000_005) by (nonlinear_arith)
            requires
                m <= 1_000_005,
        ;
        assert(m * m * m <= 1_000_005 * 1_000_005 * 1_000_005) by (nonlinear_arith)
            requires
                m <= 1_000_005,
                m * m <= 1_000_005 * 1_000_005,
        ;
    }
    let total: u64 = 8 * (m * m * m);
    let mut i: u64 = 0;
    assert(out@ =~= taps_of(c, *room, source, listener, images(max_order, 0)));
    while i < total
        invariant
            i <= total,
            total == lattice(max_order),
            total <= 8 * (1_000_005 * 1_000_005 * 1_000_005),
            max_order <= MAX_ORDER,
            r == reach(max_order),
            m == width(max_order),
            1 <= m <= 1_000_005,
            is_steady(*f),
            c == answering(*f),
            forall|v: int| 0 <= v < 6 ==> #[trigger] refl@[v] == room.walls@[v].reflecting(c),
            out@ == taps_of(c, *room, source, listener, images(max_order, i as int)),
            images(max_order, i as int).len() <= i,
        decreases total - i,
    {
        let g: Image = place(max_order, m, r, i);
        let hits: [u32; 6] = count_hits(&g);
        let order: u32 = hits[0] + hits[1] + hits[2] + hits[3] + hits[4] + hits[5];
        if order <= max_order {
            let to: Point = vminus(f, g.place_of(f, source, room.size), listener);
            let dist: Single = norm_of(f, to);
            let near: Single = greater_of(dist, Single(MIN_DIST));
            let dir: Point = normalize(f, to);
            let gains: [Single; 3] = reflect_gains(f, spreading(f, near), room, &refl, &g, &hits);
            let key: u32 = out.len() as u32;
            out.push(Tap { key, delay_s: over(f, dist, Single(SPEED_OF_SOUND)), dir, gains });
            assert(out@ =~= taps_of(c, *room, source, listener, images(max_order, i + 1)));
        }
        i = i + 1;
    }
}

/// The index of an image in the lattice.
pub open spec fn index_of(max_order: u32, g: Image) -> int {
    let m = width(max_order);
    let r = reach(max_order);
    let q = g.px * 4 + g.py * 2 + g.pz;
    ((q * m + (g.nx + r)) * m + (g.ny + r)) * m + (g.nz + r)
}

/// The image's shifts are within reach.
pub open spec fn is_near(max_order: u32, g: Image) -> bool {
    let r = reach(max_order);
    &&& -r <= g.nx <= r
    &&& -r <= g.ny <= r
    &&& -r <= g.nz <= r
}

proof fn lemma_index(max_order: u32, g: Image)
    requires
        max_order <= MAX_ORDER,
        g.is_image(),
        is_near(max_order, g),
    ensures
        0 <= index_of(max_order, g) < lattice(max_order),
        image_at(max_order, index_of(max_order, g)) == g,
{
    let m = width(max_order);
    let r = reach(max_order);
    let q = g.px * 4 + g.py * 2 + g.pz;
    let a = q * m + (g.nx + r);
    let b = a * m + (g.ny + r);
    let c = b * m + (g.nz + r);
    assert(c == index_of(max_order, g));
    vstd::arithmetic::div_mod::lemma_fundamental_div_mod_converse(c, m, b, g.nz + r);
    vstd::arithmetic::div_mod::lemma_fundamental_div_mod_converse(b, m, a, g.ny + r);
    vstd::arithmetic::div_mod::lemma_fundamental_div_mod_converse(a, m, q, g.nx + r);
    assert(0 <= q <= 7);
    assert(0 <= a < 8 * m) by (nonlinear_arith)
        requires
            0 <= q <= 7,
            0 <= g.nx + r < m,
            a == q * m + (g.nx + r),
    ;
    assert(0 <= b < 8 * (m * m)) by (nonlinear_arith)
        requires
            0 <= a <= 8 * m - 1,
            0 <= g.ny + r < m,
            b == a * m + (g.ny + r),
    ;
    assert(0 <= c < 8 * (m * m * m)) by (nonlinear_arith)
        requires
            0 <= b <= 8 * (m * m) - 1,
            0 <= g.nz + r < m,
            c == b * m + (g.nz + r),
    ;
}

proof fn lemma_listed(max_order: u32, n: int, i: int)
    requires
        0 <= i < n,
        image_at(max_order, i).order() <= max_order,
    ensures
        images(max_order, n).contains(image_at(max_order, i)),
    decreases n,
{
    let last = image_at(max_order, n - 1);
    let before = images(max_order, n - 1);
    if i == n - 1 {
        assert(images(max_order, n)[before.len() as int] == last);
    } else {
        lemma_listed(max_order, n - 1, i);
        let k = choose|k: int| 0 <= k < before.len() && before[k] == image_at(max_order, i);
        assert(images(max_order, n)[k] == before[k]);
    }
}

/// Every specular path within the order is listed: the reach of the lattice
/// covers all of them.
pub proof fn every_image_is_listed(max_order: u32, g: Image)
    requires
        max_order <= MAX_ORDER,
        g.is_image(),
        g.order() <= max_order,
    ensures
        images(max_order, lattice(max_order)).contains(g),
{
    assert(is_near(max_order, g));
    lemma_index(max_order, g);
    lemma_listed(max_order, lattice(max_order), index_of(max_order, g));
}

proof fn lemma_listed_from(max_order: u32, n: int, k: int)
    requires
        0 <= k < images(max_order, n).len(),
    ensures
        exists|i: int|
            0 <= i < n && #[trigger] image_at(max_order, i) == images(max_order, n)[k]
                && image_at(max_order, i).order() <= max_order,
    decreases n,
{
    if n > 0 {
        let before = images(max_order, n - 1);
        if k < before.len() {
            lemma_listed_from(max_order, n - 1, k);
        } else {
            assert(image_at(max_order, n - 1) == images(max_order, n)[k]);
        }
    }
}

proof fn lemma_image_index(max_order: u32, i: int)
    requires
        max_order <= MAX_ORDER,
        0 <= i < lattice(max_order),
    ensures
        index_of(max_order, image_at(max_order, i)) == i,
{
    let m = width(max_order);
    lemma_quotients(i, m);
    vstd::arithmetic::div_mod::lemma_fundamental_div_mod(i, m);
    vstd::arithmetic::div_mod::lemma_fundamental_div_mod(i / m, m);
    vstd::arithmetic::div_mod::lemma_fundamental_div_mod(i / m / m, m);
    let q = i / m / m / m;
    assert(q == (q / 4) * 4 + (q / 2 % 2) * 2 + q % 2);
    assert(q * m == m * q) by (nonlinear_arith);
    assert((i / m / m) * m == m * (i / m / m)) by (nonlinear_arith);
    assert((i / m) * m == m * (i / m)) by (nonlinear_arith);
}

/// No path is listed twice, and none beyond the order.
pub proof fn no_image_is_listed_twice(max_order: u32, n: int)
    requires
        max_order <= MAX_ORDER,
        0 <= n <= lattice(max_order),
    ensures
        images(max_order, n).no_duplicates(),
        forall|k: int|
            0 <= k < images(max_order, n).len() ==> (#[trigger] images(max_order, n)[k]).order()
                <= max_order,
    decreases n,
{
    if n > 0 {
        no_image_is_listed_twice(max_order, n - 1);
        let before = images(max_order, n - 1);
        let after = images(max_order, n);
        let last = image_at(max_order, n - 1);
        assert forall|k: int| 0 <= k < before.len() implies before[k] != last by {
            lemma_listed_from(max_order, n - 1, k);
            let i = choose|i: int|
                0 <= i < n - 1 && #[trigger] image_at(max_order, i) == before[k]
                    && image_at(max_order, i).order() <= max_order;
            lemma_image_index(max_order, i);
            lemma_image_index(max_order, n - 1);
        }
        assert forall|j: int, k: int| 0 <= j < k < after.len() implies after[j] != after[k] by {
            if k < before.len() {
                assert(before[j] != before[k]);
            } else {
                assert(after[j] == before[j]);
            }
        }
    }
}

/// Every operation behind one coordinate of an image is exact.
pub open spec fn exact_shift(f: Calc, p: i32, n: i32, at: Single, size: Single) -> bool {
    let flip = if p == 0 {
        Single(ONE)
    } else {
        Single(MINUS_ONE)
    };
    let twice = prod(f, Single(TWO), signed_rounded(n as int));
    &&& is_exact(f, Op::Times(flip, at))
    &&& is_exact(f, Op::Times(Single(TWO), signed_rounded(n as int)))
    &&& is_exact(f, Op::Times(twice, size))
    &&& is_exact(f, Op::Plus(prod(f, flip, at), prod(f, twice, size)))
}

/// Every operation behind the way from a listener to an image, and its length,
/// is exact.
pub open spec fn exact_way(f: Calc, g: Image, source: Point, listener: Point, size: Point) -> bool {
    &&& exact_shift(f, g.px, g.nx, source@[0], size@[0])
    &&& exact_shift(f, g.py, g.ny, source@[1], size@[1])
    &&& exact_shift(f, g.pz, g.nz, source@[2], size@[2])
    &&& exact_vdiff(f, g.place(f, source, size), listener)
    &&& exact_norm(f, vdiff(f, g.place(f, source, size), listener))
}

/// The image that takes the same way back: shifted the other way, where it is
/// not mirrored.
pub open spec fn reversed(g: Image) -> Image {
    Image {
        nx: if g.px == 0 {
            (-g.nx) as i32
        } else {
            g.nx
        },
        ny: if g.py == 0 {
            (-g.ny) as i32
        } else {
            g.ny
        },
        nz: if g.pz == 0 {
            (-g.nz) as i32
        } else {
            g.nz
        },
        ..g
    }
}

/// The shifts of an image fit their words both ways.
pub open spec fn is_reversible(g: Image) -> bool {
    g.is_image() && g.nx > i32::MIN && g.ny > i32::MIN && g.nz > i32::MIN
}

/// The reflections of an image are those of the image that takes the way back,
/// and the two are each other's.
pub proof fn reversed_images_are_listed_together(g: Image)
    requires
        is_reversible(g),
    ensures
        is_reversible(reversed(g)),
        reversed(reversed(g)) == g,
        reversed(g).order() == g.order(),
        forall|w: int| 0 <= w < 6 ==> #[trigger] reversed(g).hits(w) == g.hits(w),
{
}

proof fn lemma_way_back(f: Calc, p: i32, n: i32, s: Single, l: Single, size: Single)
    requires
        0 <= p <= 1,
        n > i32::MIN,
        exact_shift(f, p, n, s, size),
        exact_shift(f, p, (if p == 0 { -n } else { n as int }) as i32, l, size),
    ensures
        ({
            let there = value(shifted(f, p, n, s, size)) - value(l);
            let back = value(shifted(f, p, (if p == 0 { -n } else { n as int }) as i32, l, size)) - value(
                s,
            );
            square(there) == square(back)
        }),
{
    lemma_one();
    lemma_two();
    lemma_minus_one();
    lemma_opposite(n as int);
    let k = value(signed_rounded(n as int));
    let (x, y, z) = (value(s), value(l), value(size));
    assert(1real * x == x && 1real * y == y);
    assert((-1real) * x == -x && (-1real) * y == -y);
    if p == 0 {
        let there = x + (2real * k) * z - y;
        let back = y + (2real * (-k)) * z - x;
        assert(back == -there) by (nonlinear_arith)
            requires
                there == x + (2real * k) * z - y,
                back == y + (2real * (-k)) * z - x,
        ;
        assert((-there) * (-there) == there * there) by (nonlinear_arith);
    }
}

proof fn lemma_same_walls(f: Calc, g: [Single; 3], room: Shoebox, a: Image, b: Image, w: int)
    requires
        0 <= w <= 6,
        forall|v: int| 0 <= v < 6 ==> #[trigger] a.hits(v) == b.hits(v),
    ensures
        after_walls(f, g, room, a, w) == after_walls(f, g, room, b, w),
    decreases w,
{
    if w > 0 {
        lemma_same_walls(f, g, room, a, b, w - 1);
        assert(a.hits(w - 1) == b.hits(w - 1));
    }
}

/// Reflections are reciprocal: in exact arithmetic the tap of an image, heard
/// where the source stands from where the listener stands, has the delay and
/// the gains that it has the other way round, as the tap of the image that takes
/// the way back.
pub proof fn taps_are_reciprocal(
    f: Calc,
    room: Shoebox,
    source: Point,
    listener: Point,
    g: Image,
    key: u32,
    back: u32,
)
    requires
        is_reversible(g),
        exact_way(f, g, source, listener, room.size),
        exact_way(f, reversed(g), listener, source, room.size),
        value(norm(f, vdiff(f, g.place(f, source, room.size), listener))) != 0real,
    ensures
        ({
            let there = tap_of(f, room, source, listener, g, key);
            let here = tap_of(f, room, listener, source, reversed(g), back);
            here.delay_s == there.delay_s && here.gains == there.gains
        }),
{
    let h = reversed(g);
    let p = vdiff(f, g.place(f, source, room.size), listener);
    let q = vdiff(f, h.place(f, listener, room.size), source);
    lemma_way_back(f, g.px, g.nx, source@[0], listener@[0], room.size@[0]);
    lemma_way_back(f, g.py, g.ny, source@[1], listener@[1], room.size@[1]);
    lemma_way_back(f, g.pz, g.nz, source@[2], listener@[2], room.size@[2]);
    let (m, n) = (norm(f, p), norm(f, q));
    let (x, y) = (value(m), value(n));
    assert(x * x == y * y);
    assert(x == y) by (nonlinear_arith)
        requires
            x * x == y * y,
            x >= 0real,
            y >= 0real,
            x != 0real,
    ;
    lemma_same_pattern(m, n);
    reversed_images_are_listed_together(g);
    lemma_same_walls(f, spread_over(f, greater(m, Single(MIN_DIST))), room, h, g, 6);
}

} // verus!
