//! What chains of walls and image sources have to do with each other: which
//! paths discovery keeps, and that they are the images' paths, as far as the
//! arithmetic behind them is exact.

use crate::arith::{greater, quot, Calc, Op};
use crate::exact::{
    exact_norm, exact_vdiff, exact_vscaled, is_exact, lemma_minus_one, lemma_negated, lemma_one,
    lemma_same_pattern, lemma_two, lemma_whole, value, vector, Vector,
};
use crate::geom::{norm, vdiff};
use crate::ism::{
    after_wall, after_walls, every_image_is_listed, exact_shift, exact_way, images, lattice,
    shifted, tap_of, Image,
};
use crate::material::{spread_over, MIN_DIST};
use crate::mesh::Point;
use crate::params::ONE;
use crate::pt::{
    chain_gains, discovered, entry_source, entry_walls, exact_mirror, has_twin, image, in_wall,
    is_repeat, is_twin, recorded, wall_axis, Chain, PathRecord, PT_MAX_ORDER,
};
use crate::scene::Shoebox;
use crate::single::Single;
use vstd::prelude::*;

verus! {

/// The record of entry `k`.
pub open spec fn entry_record(
    f: Calc,
    room: Shoebox,
    chains: Seq<Chain>,
    sources: Seq<Point>,
    listener: Point,
    k: int,
) -> Option<PathRecord> {
    let si = entry_source(sources.len(), k);
    recorded(
        f,
        room,
        entry_walls(chains, sources.len(), k),
        si as u16,
        sources[si as int],
        listener,
    )
}

/// Nothing but solved chains is recorded: every record is that of some pair of
/// chain and source.
pub proof fn every_record_is_solved(
    f: Calc,
    room: Shoebox,
    chains: Seq<Chain>,
    sources: Seq<Point>,
    listener: Point,
    n: int,
    i: int,
)
    requires
        0 <= i < discovered(f, room, chains, sources, listener, n).len(),
    ensures
        exists|k: int|
            0 <= k < n && #[trigger] entry_record(f, room, chains, sources, listener, k) == Some(
                discovered(f, room, chains, sources, listener, n)[i],
            ),
    decreases n,
{
    let before = discovered(f, room, chains, sources, listener, n - 1);
    if i < before.len() {
        every_record_is_solved(f, room, chains, sources, listener, n - 1, i);
    } else {
        assert(entry_record(f, room, chains, sources, listener, n - 1) is Some);
    }
}

/// No path that the room supports is missed: where a pair of chain and source
/// has a record, that record is kept, or one that is the same physical path.
pub proof fn no_supported_path_is_missed(
    f: Calc,
    room: Shoebox,
    chains: Seq<Chain>,
    sources: Seq<Point>,
    listener: Point,
    n: int,
    k: int,
)
    requires
        0 <= k < n,
        entry_record(f, room, chains, sources, listener, k) is Some,
    ensures
        ({
            let all = discovered(f, room, chains, sources, listener, n);
            let r = entry_record(f, room, chains, sources, listener, k)->0;
            all.contains(r) || has_twin(f, all, r)
        }),
    decreases n, k,
{
    let all = discovered(f, room, chains, sources, listener, n);
    let before = discovered(f, room, chains, sources, listener, n - 1);
    let r = entry_record(f, room, chains, sources, listener, k)->0;
    assert(before.len() <= all.len());
    assert forall|i: int| 0 <= i < before.len() implies all[i] == before[i] by {}
    if k < n - 1 {
        no_supported_path_is_missed(f, room, chains, sources, listener, n - 1, k);
    } else if is_repeat(chains, sources.len(), k) {
        let j = choose|j: int|
            0 <= j < k && #[trigger] entry_walls(chains, sources.len(), j) == entry_walls(
                chains,
                sources.len(),
                k,
            ) && entry_source(sources.len(), j) == entry_source(sources.len(), k);
        assert(entry_record(f, room, chains, sources, listener, j) == Some(r));
        no_supported_path_is_missed(f, room, chains, sources, listener, n - 1, j);
    }
    if before.contains(r) {
        let i = choose|i: int| 0 <= i < before.len() && before[i] == r;
        assert(all[i] == r);
    } else if has_twin(f, before, r) {
        let i = choose|i: int| 0 <= i < before.len() && is_twin(f, #[trigger] before[i], r);
        assert(is_twin(f, all[i], r));
    } else {
        assert(all.last() == r);
    }
}

/// One coordinate of an image: the source's own or mirrored one, shifted by twice
/// the room's size.
pub open spec fn coordinate(p: i32, n: i32, at: real, size: real) -> real {
    (if p == 0 {
        at
    } else {
        -at
    }) + (2real * n as int as real) * size
}

/// The image mirrored once more: shifted to the other side, by one more where
/// the wall is the far one.
pub open spec fn mirrored_image(g: Image, w: u8) -> Image {
    let far = if w == 0 || w == 2 || w == 4 {
        0int
    } else {
        1int
    };
    if w < 2 {
        Image { px: (1 - g.px) as i32, nx: (far - g.nx) as i32, ..g }
    } else if w < 4 {
        Image { py: (1 - g.py) as i32, ny: (far - g.ny) as i32, ..g }
    } else {
        Image { pz: (1 - g.pz) as i32, nz: (far - g.nz) as i32, ..g }
    }
}

/// The image in which a chain of walls shows the source.
pub open spec fn image_of_chain(chain: Seq<u8>) -> Image
    decreases chain.len(),
{
    if chain.len() == 0 {
        Image { px: 0, py: 0, pz: 0, nx: 0, ny: 0, nz: 0 }
    } else {
        mirrored_image(image_of_chain(chain.drop_first()), chain[0])
    }
}

/// Every mirroring of a source in the walls of a chain is exact.
pub open spec fn exact_image(f: Calc, source: Point, chain: Seq<u8>, size: Point) -> bool
    decreases chain.len(),
{
    chain.len() == 0 || {
        &&& exact_image(f, source, chain.drop_first(), size)
        &&& exact_mirror(f, image(f, source, chain.drop_first(), size), chain[0], size)
    }
}

/// The place of an image, as numbers.
pub open spec fn place_of_image(g: Image, source: Point, size: Point) -> Vector {
    (
        coordinate(g.px, g.nx, value(source@[0]), value(size@[0])),
        coordinate(g.py, g.ny, value(source@[1]), value(size@[1])),
        coordinate(g.pz, g.nz, value(source@[2]), value(size@[2])),
    )
}

/// The image lies within `k` shifts.
spec fn is_close(g: Image, k: int) -> bool {
    &&& g.is_image()
    &&& -k <= g.nx <= k && -k <= g.ny <= k && -k <= g.nz <= k
}

proof fn lemma_mirrored_coordinate(p: i32, n: i32, at: real, size: real)
    requires
        0 <= p <= 1,
        -100 <= n <= 100,
    ensures
        -coordinate(p, n, at, size) == coordinate((1 - p) as i32, (0 - n) as i32, at, size),
        2real * size - coordinate(p, n, at, size) == coordinate(
            (1 - p) as i32,
            (1 - n) as i32,
            at,
            size,
        ),
{
    let k = n as int as real;
    let (m, j) = ((0 - n) as i32 as int as real, (1 - n) as i32 as int as real);
    assert(m == -k && j == 1real - k);
    assert((2real * m) * size == -((2real * k) * size)) by (nonlinear_arith)
        requires
            m == -k,
    ;
    assert((2real * j) * size == 2real * size - (2real * k) * size) by (nonlinear_arith)
        requires
            j == 1real - k,
    ;
}

proof fn lemma_mirrored_order(g: Image, w: u8, k: int)
    requires
        w < 6,
        0 <= k <= 90,
        is_close(g, k),
    ensures
        is_close(mirrored_image(g, w), k + 1),
        mirrored_image(g, w).order() <= g.order() + 1,
{
    let h = mirrored_image(g, w);
    if w < 2 {
        assert(h.hits(0) + h.hits(1) <= g.hits(0) + g.hits(1) + 1);
    } else if w < 4 {
        assert(h.hits(2) + h.hits(3) <= g.hits(2) + g.hits(3) + 1);
    } else {
        assert(h.hits(4) + h.hits(5) <= g.hits(4) + g.hits(5) + 1);
    }
}

proof fn lemma_mirrored_place(f: Calc, p: Point, g: Image, source: Point, w: u8, size: Point)
    requires
        w < 6,
        is_close(g, 90),
        exact_mirror(f, p, w, size),
        vector(p) == place_of_image(g, source, size),
    ensures
        vector(in_wall(f, p, w, size)) == place_of_image(mirrored_image(g, w), source, size),
{
    lemma_two();
    let a = wall_axis(w);
    lemma_negated(p@[a]);
    let q = in_wall(f, p, w, size);
    let l = value(size@[a]);
    let x = value(p@[a]);
    assert(value(q@[a]) == (if w == 0 || w == 2 || w == 4 {
        -x
    } else {
        2real * l - x
    }));
    if w < 2 {
        lemma_mirrored_coordinate(g.px, g.nx, value(source@[0]), l);
    } else if w < 4 {
        lemma_mirrored_coordinate(g.py, g.ny, value(source@[1]), l);
    } else {
        lemma_mirrored_coordinate(g.pz, g.nz, value(source@[2]), l);
    }
}

proof fn lemma_chain_image(f: Calc, source: Point, chain: Seq<u8>, size: Point)
    requires
        chain.len() <= 90,
        forall|i: int| 0 <= i < chain.len() ==> #[trigger] chain[i] < 6,
        exact_image(f, source, chain, size),
    ensures
        is_close(image_of_chain(chain), chain.len() as int),
        image_of_chain(chain).order() <= chain.len(),
        vector(image(f, source, chain, size)) == place_of_image(
            image_of_chain(chain),
            source,
            size,
        ),
    decreases chain.len(),
{
    if chain.len() == 0 {
        let (x, y, z) = (value(size@[0]), value(size@[1]), value(size@[2]));
        assert((2real * 0real) * x == 0real && (2real * 0real) * y == 0real && (2real * 0real) * z
            == 0real) by (nonlinear_arith);
    } else {
        let rest = chain.drop_first();
        assert forall|i: int| 0 <= i < rest.len() implies #[trigger] rest[i] < 6 by {
            assert(rest[i] == chain[i + 1]);
        }
        lemma_chain_image(f, source, rest, size);
        let g = image_of_chain(rest);
        lemma_mirrored_order(g, chain[0], rest.len() as int);
        lemma_mirrored_place(f, image(f, source, rest, size), g, source, chain[0], size);
    }
}

pub(crate) proof fn lemma_shifted(f: Calc, p: i32, n: i32, at: Single, size: Single)
    requires
        0 <= p <= 1,
        -100 <= n <= 100,
        exact_shift(f, p, n, at, size),
    ensures
        value(shifted(f, p, n, at, size)) == coordinate(p, n, value(at), value(size)),
{
    lemma_one();
    lemma_two();
    lemma_minus_one();
    lemma_whole(n as int);
    let x = value(at);
    assert(1real * x == x && (-1real) * x == -x);
}

/// How often a wall occurs in a chain.
pub open spec fn times_met(chain: Seq<u8>, w: int) -> nat
    decreases chain.len(),
{
    if chain.len() == 0 {
        0
    } else {
        times_met(chain.drop_first(), w) + if chain[0] == w {
            1nat
        } else {
            0nat
        }
    }
}

proof fn lemma_met_once_more(chain: Seq<u8>, c: u8, w: int)
    ensures
        times_met(chain.push(c), w) == times_met(chain, w) + if c == w {
            1nat
        } else {
            0nat
        },
    decreases chain.len(),
{
    if chain.len() == 0 {
        assert(chain.push(c).drop_first() =~= chain);
    } else {
        assert(chain.push(c).drop_first() =~= chain.drop_first().push(c));
        lemma_met_once_more(chain.drop_first(), c, w);
    }
}

/// Mirroring once more changes the reflections off that wall alone, by one.
proof fn lemma_mirrored_hits(g: Image, w: u8, k: int, v: int)
    requires
        w < 6,
        0 <= v < 6,
        0 <= k <= 90,
        is_close(g, k),
    ensures
        v != w ==> mirrored_image(g, w).hits(v) == g.hits(v),
        mirrored_image(g, w).hits(w as int) == g.hits(w as int) + 1 || mirrored_image(g, w).hits(
            w as int,
        ) + 1 == g.hits(w as int),
{
}

/// An image of as many reflections as the chain has walls is reflected off each
/// wall as often as the chain meets it.
proof fn lemma_hits_are_met(chain: Seq<u8>, v: int)
    requires
        chain.len() <= 90,
        forall|i: int| 0 <= i < chain.len() ==> #[trigger] chain[i] < 6,
        image_of_chain(chain).order() == chain.len(),
        0 <= v < 6,
    ensures
        image_of_chain(chain).hits(v) == times_met(chain, v),
    decreases chain.len(),
{
    if chain.len() > 0 {
        let rest = chain.drop_first();
        assert forall|i: int| 0 <= i < rest.len() implies #[trigger] rest[i] < 6 by {
            assert(rest[i] == chain[i + 1]);
        }
        lemma_chain_order(rest);
        let g = image_of_chain(rest);
        let w = chain[0];
        lemma_mirrored_order(g, w, rest.len() as int);
        lemma_mirrored_hits(g, w, rest.len() as int, 0);
        lemma_mirrored_hits(g, w, rest.len() as int, 1);
        lemma_mirrored_hits(g, w, rest.len() as int, 2);
        lemma_mirrored_hits(g, w, rest.len() as int, 3);
        lemma_mirrored_hits(g, w, rest.len() as int, 4);
        lemma_mirrored_hits(g, w, rest.len() as int, 5);
        lemma_hits_are_met(rest, v);
    }
}

proof fn lemma_chain_order(chain: Seq<u8>)
    requires
        chain.len() <= 90,
        forall|i: int| 0 <= i < chain.len() ==> #[trigger] chain[i] < 6,
    ensures
        is_close(image_of_chain(chain), chain.len() as int),
        image_of_chain(chain).order() <= chain.len(),
    decreases chain.len(),
{
    if chain.len() > 0 {
        let rest = chain.drop_first();
        assert forall|i: int| 0 <= i < rest.len() implies #[trigger] rest[i] < 6 by {
            assert(rest[i] == chain[i + 1]);
        }
        lemma_chain_order(rest);
        lemma_mirrored_order(image_of_chain(rest), chain[0], rest.len() as int);
    }
}

/// Multiplying two triples of gains is exact.
pub open spec fn exact_dimmed(f: Calc, g: [Single; 3], r: [Single; 3]) -> bool {
    forall|b: int| 0 <= b < 3 ==> is_exact(f, Op::Times(#[trigger] g@[b], r@[b]))
}

/// Every operation behind a chain's gains is exact.
pub open spec fn exact_chain_gains(
    f: Calc,
    base: [Single; 3],
    chain: Seq<u8>,
    room: Shoebox,
    n: int,
) -> bool
    decreases n,
{
    n <= 0 || {
        &&& exact_chain_gains(f, base, chain, room, n - 1)
        &&& exact_dimmed(
            f,
            chain_gains(f, base, chain, room, n - 1),
            room.walls@[chain[n - 1] as int].reflecting(f),
        )
    }
}

/// Every operation behind the gains of `n` reflections off one wall is exact.
pub open spec fn exact_after_wall(f: Calc, g: [Single; 3], r: [Single; 3], n: int) -> bool
    decreases n,
{
    n <= 0 || {
        &&& exact_after_wall(f, g, r, n - 1)
        &&& exact_dimmed(f, after_wall(f, g, r, n - 1), r)
    }
}

/// Every operation behind an image's gains is exact.
pub open spec fn exact_after_walls(f: Calc, g: [Single; 3], room: Shoebox, image: Image, w: int) -> bool
    decreases w,
{
    w <= 0 || {
        &&& exact_after_walls(f, g, room, image, w - 1)
        &&& exact_after_wall(
            f,
            after_walls(f, g, room, image, w - 1),
            room.walls@[w - 1].reflecting(f),
            image.hits(w - 1) as int,
        )
    }
}

/// What a wall leaves of a band.
pub open spec fn left_by(f: Calc, room: Shoebox, w: int, b: int) -> real {
    value(room.walls@[w].reflecting(f)@[b])
}

/// A number times itself.
pub open spec fn to_the(x: real, n: nat) -> real
    decreases n,
{
    if n == 0 {
        1real
    } else {
        to_the(x, (n - 1) as nat) * x
    }
}

/// What the first `n` walls leave of a band, as often as the chain meets them.
pub open spec fn left_by_all(f: Calc, room: Shoebox, chain: Seq<u8>, b: int, n: int) -> real
    decreases n,
{
    if n <= 0 {
        1real
    } else {
        left_by_all(f, room, chain, b, n - 1) * to_the(
            left_by(f, room, n - 1, b),
            times_met(chain, n - 1),
        )
    }
}

proof fn lemma_left_once_more(f: Calc, room: Shoebox, chain: Seq<u8>, c: u8, b: int, n: int)
    requires
        n <= 6,
    ensures
        left_by_all(f, room, chain.push(c), b, n) == left_by_all(f, room, chain, b, n) * (if c < n {
            left_by(f, room, c as int, b)
        } else {
            1real
        }),
    decreases n,
{
    if n > 0 {
        lemma_left_once_more(f, room, chain, c, b, n - 1);
        lemma_met_once_more(chain, c, n - 1);
        let x = left_by_all(f, room, chain, b, n - 1);
        let y = to_the(left_by(f, room, n - 1, b), times_met(chain, n - 1));
        let z = left_by(f, room, c as int, b);
        assert((x * z) * y == (x * y) * z) by (nonlinear_arith);
        assert(x * (y * z) == (x * y) * z) by (nonlinear_arith);
    }
}

proof fn lemma_chain_gains(
    f: Calc,
    base: [Single; 3],
    chain: Seq<u8>,
    room: Shoebox,
    n: int,
    b: int,
)
    requires
        0 <= n <= chain.len(),
        0 <= b < 3,
        forall|i: int| 0 <= i < chain.len() ==> #[trigger] chain[i] < 6,
        exact_chain_gains(f, base, chain, room, n),
    ensures
        value(chain_gains(f, base, chain, room, n)@[b]) == value(base@[b]) * left_by_all(
            f,
            room,
            chain.take(n),
            b,
            6,
        ),
    decreases n,
{
    if n == 0 {
        lemma_nothing_met(f, room, chain.take(0), b, 6);
    } else {
        lemma_chain_gains(f, base, chain, room, n - 1, b);
        let c = chain[n - 1];
        assert(chain.take(n) =~= chain.take(n - 1).push(c));
        lemma_left_once_more(f, room, chain.take(n - 1), c, b, 6);
        let before = chain_gains(f, base, chain, room, n - 1);
        let r = room.walls@[c as int].reflecting(f);
        assert(is_exact(f, Op::Times(before@[b], r@[b])));
        let (x, y, z) = (
            value(base@[b]),
            left_by_all(f, room, chain.take(n - 1), b, 6),
            left_by(f, room, c as int, b),
        );
        assert((x * y) * z == x * (y * z)) by (nonlinear_arith);
    }
}

proof fn lemma_nothing_met(f: Calc, room: Shoebox, chain: Seq<u8>, b: int, n: int)
    requires
        chain.len() == 0,
    ensures
        left_by_all(f, room, chain, b, n) == 1real,
    decreases n,
{
    if n > 0 {
        lemma_nothing_met(f, room, chain, b, n - 1);
        assert(times_met(chain, n - 1) == 0);
    }
}

proof fn lemma_after_wall(f: Calc, g: [Single; 3], r: [Single; 3], n: nat, b: int)
    requires
        0 <= b < 3,
        exact_after_wall(f, g, r, n as int),
    ensures
        value(after_wall(f, g, r, n as int)@[b]) == value(g@[b]) * to_the(value(r@[b]), n),
    decreases n,
{
    if n > 0 {
        lemma_after_wall(f, g, r, (n - 1) as nat, b);
        assert(is_exact(f, Op::Times(after_wall(f, g, r, n - 1)@[b], r@[b])));
        let (x, y, z) = (value(g@[b]), to_the(value(r@[b]), (n - 1) as nat), value(r@[b]));
        assert((x * y) * z == x * (y * z)) by (nonlinear_arith);
    }
}

proof fn lemma_after_walls(
    f: Calc,
    g: [Single; 3],
    room: Shoebox,
    chain: Seq<u8>,
    w: int,
    b: int,
)
    requires
        0 <= w <= 6,
        0 <= b < 3,
        exact_after_walls(f, g, room, image_of_chain(chain), w),
        forall|v: int|
            0 <= v < 6 ==> #[trigger] image_of_chain(chain).hits(v) == times_met(chain, v),
    ensures
        value(after_walls(f, g, room, image_of_chain(chain), w)@[b]) == value(g@[b])
            * left_by_all(f, room, chain, b, w),
    decreases w,
{
    if w > 0 {
        lemma_after_walls(f, g, room, chain, w - 1, b);
        let before = after_walls(f, g, room, image_of_chain(chain), w - 1);
        lemma_after_wall(
            f,
            before,
            room.walls@[w - 1].reflecting(f),
            image_of_chain(chain).hits(w - 1),
            b,
        );
        let (x, y) = (value(g@[b]), left_by_all(f, room, chain, b, w - 1));
        let z = to_the(left_by(f, room, w - 1, b), times_met(chain, w - 1));
        assert((x * y) * z == x * (y * z)) by (nonlinear_arith);
    }
}

/// Every operation behind the gains of a path of the given length is exact, as a
/// chain and as an image.
pub open spec fn exact_gains(f: Calc, room: Shoebox, chain: Seq<u8>, length: Single) -> bool {
    let base = spread_over(f, greater(length, Single(MIN_DIST)));
    &&& exact_chain_gains(f, base, chain, room, chain.len() as int)
    &&& exact_after_walls(f, base, room, image_of_chain(chain), 6)
}

/// No path is invented: in exact arithmetic a record that a chain of walls gives
/// has the delay of an image source of at most as many reflections, which the
/// image sources of that order list, and comes from where that image lies. Where
/// the image has as many reflections as the chain has walls, the record's gains
/// are those of the tap.
pub proof fn no_path_is_invented(
    f: Calc,
    room: Shoebox,
    chain: Seq<u8>,
    source: u16,
    src_pos: Point,
    listener: Point,
    key: u32,
)
    requires
        chain.len() <= PT_MAX_ORDER,
        forall|i: int| 0 <= i < chain.len() ==> #[trigger] chain[i] < 6,
        exact_image(f, src_pos, chain, room.size),
        exact_vdiff(f, image(f, src_pos, chain, room.size), listener),
        exact_norm(f, vdiff(f, image(f, src_pos, chain, room.size), listener)),
        value(norm(f, vdiff(f, image(f, src_pos, chain, room.size), listener))) != 0real,
        exact_way(f, image_of_chain(chain), src_pos, listener, room.size),
    ensures
        ({
            let g = image_of_chain(chain);
            let n = chain.len() as u32;
            let t = tap_of(f, room, src_pos, listener, g, key);
            let p = vdiff(f, image(f, src_pos, chain, room.size), listener);
            let q = vdiff(f, g.place(f, src_pos, room.size), listener);
            &&& g.order() <= chain.len()
            &&& images(n, lattice(n)).contains(g)
            &&& vector(image(f, src_pos, chain, room.size)) == vector(
                g.place(f, src_pos, room.size),
            )
            &&& recorded(f, room, chain, source, src_pos, listener) matches Some(r) ==> {
                &&& r.delay_s == t.delay_s
                &&& exact_vscaled(f, p, quot(f, Single(ONE), norm(f, p))) && exact_vscaled(
                    f,
                    q,
                    quot(f, Single(ONE), norm(f, q)),
                ) ==> vector(r.dir) == vector(t.dir)
                &&& g.order() == chain.len() && exact_gains(f, room, chain, norm(f, p)) ==> vector(
                    r.gains,
                ) == vector(t.gains)
            }
        }),
{
    let g = image_of_chain(chain);
    lemma_chain_image(f, src_pos, chain, room.size);
    lemma_shifted(f, g.px, g.nx, src_pos@[0], room.size@[0]);
    lemma_shifted(f, g.py, g.ny, src_pos@[1], room.size@[1]);
    lemma_shifted(f, g.pz, g.nz, src_pos@[2], room.size@[2]);
    every_image_is_listed(chain.len() as u32, g);
    let p = vdiff(f, image(f, src_pos, chain, room.size), listener);
    let q = vdiff(f, g.place(f, src_pos, room.size), listener);
    assert(vector(p) == vector(q));
    let (x, y) = (value(norm(f, p)), value(norm(f, q)));
    assert(x * x == y * y);
    assert(x == y) by (nonlinear_arith)
        requires
            x * x == y * y,
            x >= 0real,
            y >= 0real,
            x != 0real,
    ;
    lemma_same_pattern(norm(f, p), norm(f, q));
    if g.order() == chain.len() && exact_gains(f, room, chain, norm(f, p)) {
        let base = spread_over(f, greater(norm(f, p), Single(MIN_DIST)));
        assert forall|v: int| 0 <= v < 6 implies #[trigger] g.hits(v) == times_met(chain, v) by {
            lemma_hits_are_met(chain, v);
        }
        assert(chain.take(chain.len() as int) =~= chain);
        lemma_chain_gains(f, base, chain, room, chain.len() as int, 0);
        lemma_chain_gains(f, base, chain, room, chain.len() as int, 1);
        lemma_chain_gains(f, base, chain, room, chain.len() as int, 2);
        lemma_after_walls(f, base, room, chain, 6, 0);
        lemma_after_walls(f, base, room, chain, 6, 1);
        lemma_after_walls(f, base, room, chain, 6, 2);
    }
}

} // verus!
