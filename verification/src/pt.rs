//! Early reflections in a shoebox room: which ordered wall chains carry
//! sound, how each is solved by mirror reconstruction, and how the exact
//! paths are named and kept apart.

use crate::arith::{
    ask, diff, greater, greater_of, minus, over, plus, plus_prod, prod, quot, sum, times, Calc,
    Op, add_times,
};
use crate::exact::{is_close, is_exact, is_about, lemma_negated, lemma_two, value};
use crate::geom::{
    along, dim, dimmed, distance, dot, dot_of, go_along, mirrored, norm, norm_of, reflect_off,
    set_axis, vdiff, vminus, vscale, vscaled, with_axis, TWO,
};
use crate::material::{spread_over, spreading, MIN_DIST, SPEED_OF_SOUND};
use crate::mesh::Point;
use crate::output::TAU;
use crate::params::{HALF, ONE};
use crate::probe::{answering, is_steady};
use crate::rng::{advanced, around, direction_at, toss, Rng};
use crate::scene::{along_axis, nearest_wall, on_axis, Shoebox, MINUS_ONE};
use crate::single::{rounded, Single, INFINITY};
use std::collections::HashSet;
use vstd::prelude::*;

verus! {

broadcast use vstd::std_specs::hash::group_hash_axioms;

/// Longest chain.
pub const PT_MAX_ORDER: usize = 3;

/// Empty chain slot.
pub const NO_WALL: u8 = 0xFF;

/// The pattern of 1e-4: an image or a last leg nearer than this is none.
pub const AT_POINT: u32 = 0x38D1_B717;

/// The pattern of 1e-9: a direction this flat never meets the plane.
pub const PARALLEL: u32 = 0x3089_705F;

/// The pattern of -1e-6: a product below it moves away from the plane.
pub const AWAY: u32 = 0xB586_37BD;

/// The pattern of 0.999: the last leg must continue the reflection.
pub const STRAIGHT_ON: u32 = 0x3F7F_BE77;

/// The pattern of 1e-3: how far a wall may stand before a leg's end at a
/// corner.
pub const CORNER_SLACK: u32 = 0x3A83_126F;

/// The pattern of 1e-5: a ray stuck in a wall goes no further.
pub const STUCK: u32 = 0x3727_C5AC;

/// The pattern of 2e-5: delays closer than this are one.
pub const SAME_DELAY: u32 = 0x37A7_C5AC;

/// The pattern of 0.99999: directions closer than this are one.
pub const SAME_DIR: u32 = 0x3F7F_FF58;

/// A candidate chain: walls in listener-first order, and how many.
pub type Chain = ([u8; 3], u8);

/// One exact early path: `chain` is the ordered walls hit walking the path
/// from the listener.
#[derive(Clone, Copy, Debug)]
pub struct PathRecord {
    pub source: u16,
    pub chain: [u8; 3],
    pub order: u8,
    pub delay_s: Single,
    pub dir: [Single; 3],
    pub gains: [Single; 3],
}

/// The base-7 digit of a chain slot: walls 0 to 5, 6 for none.
pub open spec fn digit(w: u8) -> nat {
    if w == NO_WALL {
        6
    } else {
        w as nat
    }
}

/// Every slot holds a wall of the room or none.
pub open spec fn is_walled(chain: [u8; 3]) -> bool {
    forall|i: int| 0 <= i < 3 ==> (#[trigger] chain@[i]) < 6 || chain@[i] == NO_WALL
}

impl PathRecord {
    /// The source and the digits of the chain, in base 7.
    pub open spec fn name(self) -> nat {
        ((self.source as nat * 7 + digit(self.chain@[0])) * 7 + digit(self.chain@[1])) * 7 + digit(
            self.chain@[2],
        )
    }

    /// Stable identity: source and packed chain.
    pub fn key(&self) -> (k: u32)
        ensures
            k == self.name(),
    {
        let mut k: u32 = self.source as u32;
        let mut i: usize = 0;
        while i < PT_MAX_ORDER
            invariant
                i <= 3,
                i == 0 ==> k == self.source,
                i == 1 ==> k == self.source * 7 + digit(self.chain@[0]),
                i == 2 ==> k == (self.source * 7 + digit(self.chain@[0])) * 7 + digit(
                    self.chain@[1],
                ),
                i == 3 ==> k == self.name(),
            decreases 3 - i,
        {
            let d: u32 = if self.chain[i] == NO_WALL {
                6
            } else {
                self.chain[i] as u32
            };
            k = k * 7 + d;
            i = i + 1;
        }
        k
    }
}

/// Keys keep distinct chains and sources apart.
pub proof fn record_keys_are_unique(a: PathRecord, b: PathRecord)
    requires
        is_walled(a.chain),
        is_walled(b.chain),
        a.name() == b.name(),
    ensures
        a.source == b.source,
        a.chain == b.chain,
{
    assert(a.chain@[0] < 6 || a.chain@[0] == NO_WALL);
    assert(a.chain@[1] < 6 || a.chain@[1] == NO_WALL);
    assert(a.chain@[2] < 6 || a.chain@[2] == NO_WALL);
    assert(b.chain@[0] < 6 || b.chain@[0] == NO_WALL);
    assert(b.chain@[1] < 6 || b.chain@[1] == NO_WALL);
    assert(b.chain@[2] < 6 || b.chain@[2] == NO_WALL);
    assert(a.chain@ =~= b.chain@);
}

/// The axis across which a wall lies.
pub open spec fn wall_axis(w: u8) -> int {
    if w < 2 {
        0
    } else if w < 4 {
        1
    } else {
        2
    }
}

/// The mirror image of a coordinate in the far wall: twice the size less the
/// coordinate.
pub open spec fn beyond(f: Calc, size: Single, x: Single) -> Single {
    diff(f, prod(f, Single(TWO), size), x)
}

/// A point mirrored across a wall plane: even walls lie at 0, odd ones at the
/// far side of the room.
pub open spec fn in_wall(f: Calc, p: Point, w: u8, size: Point) -> Point {
    let a = wall_axis(w);
    with_axis(
        p,
        a,
        if w == 0 || w == 2 || w == 4 {
            p@[a].negated()
        } else {
            beyond(f, size@[a], p@[a])
        },
    )
}

/// Mirror a point across wall plane `w` of the box.
pub fn mirror<F: Fn(Op) -> Single>(f: &F, p: Point, w: u8, size: Point) -> (r: Point)
    requires
        is_steady(*f),
    ensures
        r == in_wall(answering(*f), p, w, size),
{
    let a: usize = if w < 2 {
        0
    } else if w < 4 {
        1
    } else {
        2
    };
    let v: Single = if w == 0 || w == 2 || w == 4 {
        p[a].neg()
    } else {
        minus(f, times(f, Single(TWO), size[a]), p[a])
    };
    set_axis(p, a, v)
}

/// The coordinate of a wall's plane along its axis.
pub open spec fn plane_of(w: u8, size: Point) -> real {
    if w == 0 || w == 2 || w == 4 {
        0real
    } else {
        value(size@[wall_axis(w)])
    }
}

/// Every operation of mirroring a point across a wall plane is exact.
pub open spec fn exact_mirror(f: Calc, p: Point, w: u8, size: Point) -> bool {
    let a = wall_axis(w);
    w == 1 || w == 3 || w == 5 ==> {
        &&& is_exact(f, Op::Times(Single(TWO), size@[a]))
        &&& is_exact(f, Op::Minus(prod(f, Single(TWO), size@[a]), p@[a]))
    }
}

/// Every operation of mirroring a point across a wall plane is close.
pub open spec fn is_mirrored_closely(f: Calc, p: Point, w: u8, size: Point, e: real) -> bool {
    let a = wall_axis(w);
    w == 1 || w == 3 || w == 5 ==> {
        &&& is_close(f, Op::Times(Single(TWO), size@[a]), e)
        &&& is_close(f, Op::Minus(prod(f, Single(TWO), size@[a]), p@[a]), e)
    }
}

/// A mirrored point differs along the wall's axis alone, where it lies as far
/// behind the plane as the point before it; mirrored again, it is the point. Up to
/// rounding: where every answer is within `e`, both are within twice that.
pub proof fn mirroring_twice_gives_the_point_back(f: Calc, p: Point, w: u8, size: Point, e: real)
    requires
        w <= 5,
        e >= 0real,
        is_mirrored_closely(f, p, w, size, e),
        is_mirrored_closely(f, in_wall(f, p, w, size), w, size, e),
    ensures
        ({
            let a = wall_axis(w);
            let m = in_wall(f, p, w, size);
            let back = in_wall(f, m, w, size);
            &&& forall|k: int| 0 <= k < 3 && k != a ==> #[trigger] m@[k] == p@[k]
            &&& forall|k: int| 0 <= k < 3 && k != a ==> #[trigger] back@[k] == p@[k]
            &&& is_about(value(p@[a]) + value(m@[a]), 2real * plane_of(w, size), 2real * e)
            &&& is_about(value(back@[a]), value(p@[a]), 2real * e)
        }),
{
    let a = wall_axis(w);
    let m = in_wall(f, p, w, size);
    lemma_two();
    lemma_negated(p@[a]);
    lemma_negated(m@[a]);
}

/// The image of a source in the walls of the chain, of which the last is
/// applied first: the chain starts at the listener.
pub open spec fn image(f: Calc, source: Point, chain: Seq<u8>, size: Point) -> Point
    decreases chain.len(),
{
    if chain.len() == 0 {
        source
    } else {
        in_wall(f, image(f, source, chain.drop_first(), size), chain[0], size)
    }
}

/// Where the walk stands: a point and a direction.
#[derive(Clone, Copy, Debug)]
pub struct Stand {
    pub pos: Point,
    pub d: Point,
}

/// The plane of a wall.
pub open spec fn wall_plane(w: u8, size: Point) -> Single {
    if w % 2 == 0 {
        Single(0)
    } else {
        size@[wall_axis(w)]
    }
}

/// The way to the plane of a wall along the direction, at least 0.
pub open spec fn way_to(f: Calc, at: Stand, w: u8, size: Point) -> Single {
    let a = wall_axis(w);
    greater(
        quot(f, diff(f, wall_plane(w, size), at.pos@[a]), at.d@[a]),
        Single(0),
    )
}

/// The walk reaches the wall: it is not parallel to it, does not move away
/// from it, and no other wall stands strictly before it.
pub open spec fn reaches(f: Calc, at: Stand, w: u8, size: Point) -> bool {
    let a = wall_axis(w);
    let t = way_to(f, at, w, size);
    &&& !Single(at.d@[a].magnitude() as u32).below(Single(PARALLEL))
    &&& t.is_finite()
    &&& !prod(f, diff(f, wall_plane(w, size), at.pos@[a]), at.d@[a]).below(Single(AWAY))
    &&& !nearest_wall(f, size, at.pos, at.d, 3).0.below(diff(f, t, Single(CORNER_SLACK)))
}

/// The unit normal of a wall, into the room.
pub open spec fn wall_normal(w: u8) -> Point {
    along_axis(
        wall_axis(w),
        if w % 2 == 0 {
            Single(ONE)
        } else {
            Single(MINUS_ONE)
        },
    )
}

/// The stand behind the reflection, with the coordinate across the wall
/// exactly on it.
pub open spec fn behind(f: Calc, at: Stand, w: u8, size: Point) -> Stand {
    Stand {
        pos: with_axis(
            along(f, at.pos, at.d, way_to(f, at, w, size)),
            wall_axis(w),
            wall_plane(w, size),
        ),
        d: mirrored(f, at.d, wall_normal(w)),
    }
}

/// The walk over the first `n` walls of the chain; nothing where it fails.
pub open spec fn unfolded(f: Calc, at: Stand, chain: Seq<u8>, size: Point, n: int) -> Option<Stand>
    decreases n,
{
    if n <= 0 {
        Some(at)
    } else {
        match unfolded(f, at, chain, size, n - 1) {
            None => None,
            Some(s) => if reaches(f, s, chain[n - 1], size) {
                Some(behind(f, s, chain[n - 1], size))
            } else {
                None
            },
        }
    }
}

/// The last leg reaches the source before any wall, straight on.
pub open spec fn arrives(f: Calc, s: Stand, source: Point, size: Point) -> bool {
    let to = vdiff(f, source, s.pos);
    let leg = norm(f, to);
    let ld = vscaled(f, to, quot(f, Single(ONE), leg));
    Single(AT_POINT).below(leg) ==> {
        &&& !nearest_wall(f, size, s.pos, ld, 3).0.below(diff(f, leg, Single(CORNER_SLACK)))
        &&& !dot(f, ld, s.d).below(Single(STRAIGHT_ON))
    }
}

/// The exact path through a chain: the distance to the image, the direction
/// towards it, and the length of the last leg; nothing where the room does not
/// support the chain.
pub open spec fn solved(f: Calc, size: Point, chain: Seq<u8>, source: Point, listener: Point) -> Option<
    (Single, Point, Single),
> {
    let to = vdiff(f, image(f, source, chain, size), listener);
    let dist = norm(f, to);
    let dir = vscaled(f, to, quot(f, Single(ONE), dist));
    if dist.below(Single(AT_POINT)) {
        None
    } else {
        match unfolded(f, Stand { pos: listener, d: dir }, chain, size, chain.len() as int) {
            None => None,
            Some(s) => if arrives(f, s, source, size) {
                Some((dist, dir, distance(f, source, s.pos)))
            } else {
                None
            },
        }
    }
}

proof fn lemma_image_step(f: Calc, source: Point, chain: Seq<u8>, size: Point, k: int)
    requires
        0 <= k < chain.len(),
    ensures
        image(f, source, chain.skip(k), size) == in_wall(
            f,
            image(f, source, chain.skip(k + 1), size),
            chain[k],
            size,
        ),
{
    assert(chain.skip(k).drop_first() =~= chain.skip(k + 1));
    assert(chain.skip(k)[0] == chain[k]);
}

/// One wall of the walk; nothing where it is not reached.
fn unfold<F: Fn(Op) -> Single>(f: &F, room: &Shoebox, s: Stand, w: u8) -> (r: Option<Stand>)
    requires
        is_steady(*f),
        w < 6,
    ensures
        r == (if reaches(answering(*f), s, w, room.size) {
            Some(behind(answering(*f), s, w, room.size))
        } else {
            None
        }),
{
    let axis: usize = if w < 2 {
        0
    } else if w < 4 {
        1
    } else {
        2
    };
    let plane: Single = if w % 2 == 0 {
        Single(0)
    } else {
        room.size[axis]
    };
    let di: Single = s.d[axis];
    if di.abs().lt(Single(PARALLEL)) {
        return None;
    }
    let gap: Single = minus(f, plane, s.pos[axis]);
    let t: Single = greater_of(over(f, gap, di), Single(0));
    if t.abs().0 >= INFINITY {
        return None;
    }
    if times(f, gap, di).lt(Single(AWAY)) {
        return None;
    }
    let (first, _) = room.raycast(f, s.pos, s.d);
    if first.lt(minus(f, t, Single(CORNER_SLACK))) {
        return None;
    }
    let pos: Point = set_axis(go_along(f, s.pos, s.d, t), axis, plane);
    let v: Single = if w % 2 == 0 {
        Single(ONE)
    } else {
        Single(MINUS_ONE)
    };
    let d: Point = reflect_off(f, s.d, on_axis(axis, v));
    Some(Stand { pos, d })
}

/// Solve a chain exactly: the image of the source seen by the listener through
/// the ordered reflections, and whether the straight line to the image
/// unfolds into this chain inside the box.
pub fn solve_chain<F: Fn(Op) -> Single>(
    f: &F,
    room: &Shoebox,
    chain: &[u8],
    source: Point,
    listener: Point,
) -> (r: Option<(Single, Point, Single)>)
    requires
        is_steady(*f),
        forall|i: int| 0 <= i < chain@.len() ==> #[trigger] chain@[i] < 6,
    ensures
        r == solved(answering(*f), room.size, chain@, source, listener),
{
    let ghost g = answering(*f);
    let ghost size = room.size;
    let mut img: Point = source;
    let mut k: usize = chain.len();
    assert(chain@.skip(k as int) =~= Seq::empty());
    while k > 0
        invariant
            k <= chain@.len(),
            is_steady(*f),
            g == answering(*f),
            size == room.size,
            img == image(g, source, chain@.skip(k as int), size),
        decreases k,
    {
        k = k - 1;
        proof {
            lemma_image_step(g, source, chain@, size, k as int);
        }
        img = mirror(f, img, chain[k], room.size);
    }
    assert(chain@.skip(0) =~= chain@);
    let to: Point = vminus(f, img, listener);
    let dist: Single = norm_of(f, to);
    if dist.lt(Single(AT_POINT)) {
        return None;
    }
    let dir: Point = vscale(f, to, over(f, Single(ONE), dist));
    let ghost at = Stand { pos: listener, d: dir };
    let mut s: Stand = Stand { pos: listener, d: dir };
    let mut n: usize = 0;
    while n < chain.len()
        invariant
            n <= chain@.len(),
            is_steady(*f),
            g == answering(*f),
            size == room.size,
            at == (Stand { pos: listener, d: dir }),
            to == vdiff(g, image(g, source, chain@, size), listener),
            dist == norm(g, to),
            dir == vscaled(g, to, quot(g, Single(ONE), dist)),
            !dist.below(Single(AT_POINT)),
            forall|i: int| 0 <= i < chain@.len() ==> #[trigger] chain@[i] < 6,
            Some(s) == unfolded(g, at, chain@, size, n as int),
        decreases chain@.len() - n,
    {
        match unfold(f, room, s, chain[n]) {
            Some(next) => {
                s = next;
            },
            None => {
                proof {
                    lemma_unfold_fails(g, at, chain@, size, n + 1, chain@.len() as int);
                }
                return None;
            },
        }
        n = n + 1;
    }
    let to_src: Point = vminus(f, source, s.pos);
    let leg: Single = norm_of(f, to_src);
    if Single(AT_POINT).lt(leg) {
        let ld: Point = vscale(f, to_src, over(f, Single(ONE), leg));
        let (t, _) = room.raycast(f, s.pos, ld);
        if t.lt(minus(f, leg, Single(CORNER_SLACK))) {
            return None;
        }
        if dot_of(f, ld, s.d).lt(Single(STRAIGHT_ON)) {
            return None;
        }
    }
    Some((dist, dir, leg))
}

/// A walk that failed stays failed.
proof fn lemma_unfold_fails(f: Calc, at: Stand, chain: Seq<u8>, size: Point, n: int, m: int)
    requires
        n <= m,
        unfolded(f, at, chain, size, n) is None,
    ensures
        unfolded(f, at, chain, size, m) is None,
    decreases m - n,
{
    if n < m {
        lemma_unfold_fails(f, at, chain, size, n, m - 1);
    }
}

/// Per-band gains behind the first `n` walls of the chain.
pub open spec fn chain_gains(
    f: Calc,
    base: [Single; 3],
    chain: Seq<u8>,
    room: Shoebox,
    n: int,
) -> [Single; 3]
    decreases n,
{
    if n <= 0 {
        base
    } else {
        dimmed(
            f,
            chain_gains(f, base, chain, room, n - 1),
            room.walls@[chain[n - 1] as int].reflecting(f),
        )
    }
}

/// The chain in three slots.
pub open spec fn slots(chain: Seq<u8>) -> [u8; 3] {
    [
        if chain.len() > 0 { chain[0] } else { NO_WALL },
        if chain.len() > 1 { chain[1] } else { NO_WALL },
        if chain.len() > 2 { chain[2] } else { NO_WALL },
    ]
}

/// The record of a chain; nothing where the room does not support it.
pub open spec fn recorded(
    f: Calc,
    room: Shoebox,
    chain: Seq<u8>,
    source: u16,
    src_pos: Point,
    listener: Point,
) -> Option<PathRecord> {
    match solved(f, room.size, chain, src_pos, listener) {
        None => None,
        Some(s) => Some(
            PathRecord {
                source,
                chain: slots(chain),
                order: chain.len() as u8,
                delay_s: quot(f, s.0, Single(SPEED_OF_SOUND)),
                dir: s.1,
                gains: chain_gains(
                    f,
                    spread_over(f, greater(s.0, Single(MIN_DIST))),
                    chain,
                    room,
                    chain.len() as int,
                ),
            },
        ),
    }
}

/// The exact record of a chain.
pub fn record_for<F: Fn(Op) -> Single>(
    f: &F,
    room: &Shoebox,
    chain: &[u8],
    source: u16,
    src_pos: Point,
    listener: Point,
) -> (r: Option<PathRecord>)
    requires
        is_steady(*f),
        chain@.len() <= PT_MAX_ORDER,
        forall|i: int| 0 <= i < chain@.len() ==> #[trigger] chain@[i] < 6,
    ensures
        r == recorded(answering(*f), *room, chain@, source, src_pos, listener),
{
    let ghost g = answering(*f);
    match solve_chain(f, room, chain, src_pos, listener) {
        None => None,
        Some((dist, dir, _leg)) => {
            let base: [Single; 3] = spreading(f, greater_of(dist, Single(MIN_DIST)));
            let mut gains: [Single; 3] = base;
            let mut n: usize = 0;
            while n < chain.len()
                invariant
                    n <= chain@.len(),
                    is_steady(*f),
                    g == answering(*f),
                    forall|i: int| 0 <= i < chain@.len() ==> #[trigger] chain@[i] < 6,
                    gains == chain_gains(g, base, chain@, *room, n as int),
                decreases chain@.len() - n,
            {
                let w: u8 = chain[n];
                assert(chain@[n as int] < 6);
                let a: [Single; 3] = room.walls[w as usize].reflection_amplitude(f);
                gains = dim(f, gains, a);
                n = n + 1;
            }
            let c: [u8; 3] = [
                if chain.len() > 0 { chain[0] } else { NO_WALL },
                if chain.len() > 1 { chain[1] } else { NO_WALL },
                if chain.len() > 2 { chain[2] } else { NO_WALL },
            ];
            assert(c@ =~= slots(chain@)@);
            Some(
                PathRecord {
                    source,
                    chain: c,
                    order: chain.len() as u8,
                    delay_s: over(f, dist, Single(SPEED_OF_SOUND)),
                    dir,
                    gains,
                },
            )
        },
    }
}

/// The chain of the direct path.
pub open spec fn no_walls() -> Chain {
    ([NO_WALL, NO_WALL, NO_WALL], 0u8)
}

/// The chain of one wall.
pub open spec fn one_wall(w: u8) -> Chain {
    ([w, NO_WALL, NO_WALL], 1u8)
}

/// The chain of two walls.
pub open spec fn two_walls(w1: u8, w2: u8) -> Chain {
    ([w1, w2, NO_WALL], 2u8)
}

/// The seeds over one first wall: the wall alone, and with each other wall
/// below `m` behind it.
pub open spec fn seed_row(w1: u8, m: int) -> Seq<Chain>
    decreases m,
{
    if m <= 0 {
        seq![one_wall(w1)]
    } else if m - 1 == w1 {
        seed_row(w1, m - 1)
    } else {
        seed_row(w1, m - 1).push(two_walls(w1, (m - 1) as u8))
    }
}

/// The seeds over the first walls below `n`, behind the direct path.
pub open spec fn seeds(n: int) -> Seq<Chain>
    decreases n,
{
    if n <= 0 {
        seq![no_walls()]
    } else {
        seeds(n - 1) + seed_row((n - 1) as u8, 6)
    }
}

/// Seed set: the direct path and every chain of up to two walls.
pub fn seed_chains(out: &mut Vec<Chain>)
    ensures
        final(out)@ == old(out)@ + seeds(6),
{
    let ghost base = out@;
    out.push(([NO_WALL, NO_WALL, NO_WALL], 0));
    assert(out@ =~= base + seeds(0));
    let mut w1: u8 = 0;
    while w1 < 6
        invariant
            w1 <= 6,
            out@ == base + seeds(w1 as int),
        decreases 6 - w1,
    {
        let ghost before = out@;
        out.push(([w1, NO_WALL, NO_WALL], 1));
        assert(out@ =~= before + seed_row(w1, 0));
        let mut w2: u8 = 0;
        while w2 < 6
            invariant
                w1 < 6,
                w2 <= 6,
                out@ == before + seed_row(w1, w2 as int),
            decreases 6 - w2,
        {
            if w2 != w1 {
                out.push(([w1, w2, NO_WALL], 2));
            }
            w2 = w2 + 1;
            assert(out@ =~= before + seed_row(w1, w2 as int));
        }
        w1 = w1 + 1;
        assert(out@ =~= base + seeds(w1 as int));
    }
}

proof fn lemma_seed_row(w1: u8, m: int)
    requires
        w1 < 6,
        0 <= m <= 6,
    ensures
        seed_row(w1, m).len() == 1 + m - (if w1 < m { 1int } else { 0int }),
        seed_row(w1, m).contains(one_wall(w1)),
        forall|w2: u8|
            w2 < m && w2 != w1 ==> #[trigger] seed_row(w1, m).contains(two_walls(w1, w2)),
    decreases m,
{
    if m <= 0 {
        assert(seed_row(w1, m)[0] == one_wall(w1));
    } else {
        lemma_seed_row(w1, m - 1);
        let before = seed_row(w1, m - 1);
        let after = seed_row(w1, m);
        if m - 1 != w1 {
            assert(after[before.len() as int] == two_walls(w1, (m - 1) as u8));
        }
        assert forall|c: Chain| before.contains(c) implies after.contains(c) by {
            let j = choose|j: int| 0 <= j < before.len() && before[j] == c;
            assert(after[j] == c);
        }
        assert forall|w2: u8| w2 < m && w2 != w1 implies #[trigger] after.contains(
            two_walls(w1, w2),
        ) by {
            if w2 < m - 1 {
                assert(before.contains(two_walls(w1, w2)));
            }
        }
    }
}

/// The seeds are complete to order two: 37 chains, among them the direct
/// path, every wall, and every pair of different walls.
pub proof fn seeds_are_complete(n: int)
    requires
        0 <= n <= 6,
    ensures
        seeds(n).len() == 1 + 6 * n,
        seeds(n).contains(no_walls()),
        forall|w1: u8| w1 < n ==> #[trigger] seeds(n).contains(one_wall(w1)),
        forall|w1: u8, w2: u8|
            w1 < n && w2 < 6 && w1 != w2 ==> #[trigger] seeds(n).contains(
                two_walls(w1, w2),
            ),
    decreases n,
{
    if n <= 0 {
        assert(seeds(n)[0] == no_walls());
    } else {
        seeds_are_complete(n - 1);
        let w = (n - 1) as u8;
        lemma_seed_row(w, 6);
        let before = seeds(n - 1);
        let row = seed_row(w, 6);
        let after = seeds(n);
        assert forall|c: Chain| before.contains(c) || row.contains(c) implies after.contains(c) by {
            if before.contains(c) {
                let j = choose|j: int| 0 <= j < before.len() && before[j] == c;
                assert(after[j] == c);
            } else {
                let j = choose|j: int| 0 <= j < row.len() && row[j] == c;
                assert(after[before.len() + j] == c);
            }
        }
        assert forall|w1: u8| w1 < n implies #[trigger] after.contains(
            one_wall(w1),
        ) by {
            if w1 < n - 1 {
                assert(before.contains(one_wall(w1)));
            }
        }
        assert forall|w1: u8, w2: u8| w1 < n && w2 < 6 && w1 != w2 implies #[trigger] after.contains(
            two_walls(w1, w2),
        ) by {
            if w1 < n - 1 {
                assert(before.contains(two_walls(w1, w2)));
            } else {
                assert(row.contains(two_walls(w1, w2)));
            }
        }
    }
}

/// Seed `i`: the direct path, then for each wall the wall alone and the wall
/// with each other.
pub open spec fn seed_at(i: int) -> Chain {
    if i <= 0 {
        no_walls()
    } else {
        row_at(((i - 1) / 6) as u8, (i - 1) % 6)
    }
}

/// Seed `j` of those that start at wall `w`.
pub open spec fn row_at(w: u8, j: int) -> Chain {
    if j <= 0 {
        one_wall(w)
    } else if j - 1 < w {
        two_walls(w, (j - 1) as u8)
    } else {
        two_walls(w, j as u8)
    }
}

proof fn lemma_row_at(w: u8, m: int)
    requires
        w < 6,
        0 <= m <= 6,
    ensures
        forall|j: int| 0 <= j < seed_row(w, m).len() ==> #[trigger] seed_row(w, m)[j] == row_at(w, j),
    decreases m,
{
    lemma_seed_row(w, m);
    if m > 0 {
        lemma_row_at(w, m - 1);
        lemma_seed_row(w, m - 1);
        let before = seed_row(w, m - 1);
        let after = seed_row(w, m);
        assert forall|j: int| 0 <= j < after.len() implies #[trigger] after[j] == row_at(w, j) by {
            if j < before.len() {
                assert(after[j] == before[j]);
            }
        }
    }
}

proof fn lemma_seed_at(n: int)
    requires
        0 <= n <= 6,
    ensures
        forall|i: int| 0 <= i < seeds(n).len() ==> #[trigger] seeds(n)[i] == seed_at(i),
    decreases n,
{
    seeds_are_complete(n);
    if n > 0 {
        lemma_seed_at(n - 1);
        seeds_are_complete(n - 1);
        let w = (n - 1) as u8;
        lemma_row_at(w, 6);
        lemma_seed_row(w, 6);
        let before = seeds(n - 1);
        let row = seed_row(w, 6);
        let after = seeds(n);
        assert forall|i: int| 0 <= i < after.len() implies #[trigger] after[i] == seed_at(i) by {
            if i < before.len() {
                assert(after[i] == before[i]);
            } else {
                let j = i - before.len();
                assert(after[i] == row[j]);
                assert((i - 1) / 6 == n - 1 && (i - 1) % 6 == j);
            }
        }
    }
}

/// A seed: no walls, one wall of the room, or two different ones.
pub open spec fn is_seed(c: Chain) -> bool {
    ||| c == no_walls()
    ||| exists|w: u8| w < 6 && c == #[trigger] one_wall(w)
    ||| exists|w: u8, v: u8| w < 6 && v < 6 && w != v && c == #[trigger] two_walls(w, v)
}

/// Nothing but seeds is listed, and no seed twice.
pub proof fn no_seed_is_listed_twice(i: int, j: int)
    requires
        0 <= i < j < seeds(6).len(),
    ensures
        is_seed(seeds(6)[i]),
        is_seed(seeds(6)[j]),
        seeds(6)[i] != seeds(6)[j],
{
    seeds_are_complete(6);
    lemma_seed_at(6);
    lemma_is_seed(i);
    lemma_is_seed(j);
    if i > 0 {
        lemma_rows_differ(
            ((i - 1) / 6) as u8,
            (i - 1) % 6,
            ((j - 1) / 6) as u8,
            (j - 1) % 6,
        );
    } else {
        assert(seed_at(i).1 == 0);
    }
}

proof fn lemma_is_seed(i: int)
    requires
        0 <= i < 37,
    ensures
        is_seed(seed_at(i)),
        i > 0 ==> seed_at(i).1 > 0,
{
    if i > 0 {
        let w = ((i - 1) / 6) as u8;
        let k = (i - 1) % 6;
        if k > 0 {
            let v = if k - 1 < w {
                (k - 1) as u8
            } else {
                k as u8
            };
            assert(seed_at(i) == two_walls(w, v));
        } else {
            assert(seed_at(i) == one_wall(w));
        }
    }
}

proof fn lemma_rows_differ(w: u8, a: int, v: u8, b: int)
    requires
        w < 6,
        v < 6,
        0 <= a < 6,
        0 <= b < 6,
        w != v || a != b,
    ensures
        row_at(w, a) != row_at(v, b),
{
    let (p, q) = (row_at(w, a), row_at(v, b));
    assert(p.0@[0] == w && q.0@[0] == v);
    if w == v {
        assert(p.1 == (if a <= 0 { 1u8 } else { 2u8 }));
        assert(q.1 == (if b <= 0 { 1u8 } else { 2u8 }));
        if a > 0 && b > 0 {
            assert(p.0@[1] != q.0@[1]);
        }
    }
}

/// The walls of a chain in one number: base 8 behind a leading 1, with digits
/// from 1 on, so that no wall is taken for an empty slot.
pub open spec fn packed(walls: Seq<u8>) -> nat
    decreases walls.len(),
{
    if walls.len() == 0 {
        1
    } else {
        packed(walls.drop_last()) * 8 + walls.last() as nat + 1
    }
}

/// Every entry is a wall of the room.
pub open spec fn are_walls(walls: Seq<u8>) -> bool {
    forall|i: int| 0 <= i < walls.len() ==> #[trigger] walls[i] < 6
}

/// Packed chains are told apart.
pub proof fn packed_chains_are_unique(a: Seq<u8>, b: Seq<u8>)
    requires
        are_walls(a),
        are_walls(b),
        packed(a) == packed(b),
    ensures
        a == b,
    decreases a.len(),
{
    lemma_packed_positive(a);
    lemma_packed_positive(b);
    if a.len() > 0 && b.len() > 0 {
        assert(a.last() < 6 && b.last() < 6);
        lemma_packed_positive(a.drop_last());
        lemma_packed_positive(b.drop_last());
        assert(are_walls(a.drop_last())) by {
            assert forall|i: int| 0 <= i < a.len() - 1 implies #[trigger] a.drop_last()[i] < 6 by {
                assert(a[i] < 6);
            }
        }
        assert(are_walls(b.drop_last())) by {
            assert forall|i: int| 0 <= i < b.len() - 1 implies #[trigger] b.drop_last()[i] < 6 by {
                assert(b[i] < 6);
            }
        }
        packed_chains_are_unique(a.drop_last(), b.drop_last());
        assert(a =~= a.drop_last().push(a.last()));
        assert(b =~= b.drop_last().push(b.last()));
    } else {
        assert(a =~= b);
    }
}

proof fn lemma_packed_positive(a: Seq<u8>)
    ensures
        packed(a) >= 1,
        a.len() > 0 ==> packed(a) >= 9,
    decreases a.len(),
{
    if a.len() > 0 {
        lemma_packed_positive(a.drop_last());
    }
}

/// The walls, in chain slots.
pub open spec fn chain_of(walls: Seq<u8>) -> Chain {
    (slots(walls), walls.len() as u8)
}

/// Each entry where it first occurs among the first `n`.
pub open spec fn firsts<T>(s: Seq<Seq<T>>, n: int) -> Seq<Seq<T>>
    decreases n,
{
    if n <= 0 {
        Seq::empty()
    } else if s.take(n - 1).contains(s[n - 1]) {
        firsts(s, n - 1)
    } else {
        firsts(s, n - 1).push(s[n - 1])
    }
}

/// The chains of wall sequences.
pub open spec fn chains_of(s: Seq<Seq<u8>>) -> Seq<Chain> {
    Seq::new(s.len(), |i: int| chain_of(s[i]))
}

/// The walls that a ray meets within `k` bounces.
pub open spec fn ray_walls(
    cast: spec_fn(Stand) -> (Single, u8),
    bounce: spec_fn((Stand, Single, u8)) -> Stand,
    at: Stand,
    k: int,
) -> Seq<u8>
    decreases k,
{
    if k <= 0 {
        Seq::empty()
    } else {
        let (t, w) = cast(at);
        if !t.is_finite() || t.at_most(Single(STUCK)) {
            Seq::empty()
        } else {
            seq![w] + ray_walls(cast, bounce, bounce((at, t, w)), k - 1)
        }
    }
}

/// The nonempty beginnings of the first `k` entries.
pub open spec fn beginnings<T>(walls: Seq<T>, k: int) -> Seq<Seq<T>>
    decreases k,
{
    if k <= 0 {
        Seq::empty()
    } else {
        beginnings(walls, k - 1).push(walls.take(k))
    }
}

/// What ray discovery asks of the host.
pub ghost struct RayFan {
    /// Direction of a ray, from its number and its jitter.
    pub launch: spec_fn((u32, Single)) -> Point,
    pub cast: spec_fn(Stand) -> (Single, u8),
    pub bounce: spec_fn((Stand, Single, u8)) -> Stand,
}

/// The walls that ray `i` of the fan meets.
pub open spec fn fan_walls(f: RayFan, listener: Point, seed: u64, i: int) -> Seq<u8> {
    let d = (f.launch)((i as u32, toss(advanced(seed, (i + 1) as nat))));
    ray_walls(f.cast, f.bounce, Stand { pos: listener, d }, PT_MAX_ORDER as int)
}

/// The beginnings of what the first `n` rays meet.
pub open spec fn fan_chains(f: RayFan, listener: Point, seed: u64, n: int) -> Seq<Seq<u8>>
    decreases n,
{
    if n <= 0 {
        Seq::empty()
    } else {
        let walls = fan_walls(f, listener, seed, n - 1);
        fan_chains(f, listener, seed, n - 1) + beginnings(walls, walls.len() as int)
    }
}

/// The seed of the jitter for one rotation of the fan.
pub open spec fn fan_seed(rot: u32) -> u64 {
    (0x9E37u64 ^ rot as u64) | 1u64
}

/// `seen` holds the packed form of what was met so far.
spec fn is_tally(seen: Set<u64>, met: Seq<Seq<u8>>) -> bool {
    &&& forall|j: int| 0 <= j < met.len() ==> are_walls(#[trigger] met[j]) && met[j].len() <= 3
    &&& forall|k: u64|
        seen.contains(k) <==> exists|j: int| 0 <= j < met.len() && packed(#[trigger] met[j]) == k
}

proof fn lemma_tally_new(seen: Set<u64>, met: Seq<Seq<u8>>, walls: Seq<u8>, key: u64)
    requires
        is_tally(seen, met),
        are_walls(walls),
        walls.len() <= 3,
        key == packed(walls),
    ensures
        seen.contains(key) == met.contains(walls),
        is_tally(seen.insert(key), met.push(walls)),
{
    if seen.contains(key) {
        let j = choose|j: int| 0 <= j < met.len() && packed(#[trigger] met[j]) == key;
        packed_chains_are_unique(met[j], walls);
        assert(met[j] == walls);
    }
    if met.contains(walls) {
        let j = choose|j: int| 0 <= j < met.len() && met[j] == walls;
        assert(packed(met[j]) == key);
    }
    let after = met.push(walls);
    assert forall|k: u64| seen.insert(key).contains(k) <==> exists|j: int|
        0 <= j < after.len() && packed(#[trigger] after[j]) == k by {
        if seen.insert(key).contains(k) {
            if k == key {
                assert(packed(after[met.len() as int]) == k);
            } else {
                let j = choose|j: int| 0 <= j < met.len() && packed(#[trigger] met[j]) == k;
                assert(packed(after[j]) == k);
            }
        }
        if exists|j: int| 0 <= j < after.len() && packed(#[trigger] after[j]) == k {
            let j = choose|j: int| 0 <= j < after.len() && packed(#[trigger] after[j]) == k;
            if j < met.len() {
                assert(packed(met[j]) == k);
            }
        }
    }
}

pub(crate) proof fn lemma_firsts_push<T>(met: Seq<Seq<T>>, walls: Seq<T>)
    ensures
        firsts(met.push(walls), met.len() as int + 1) == (if met.contains(walls) {
            firsts(met, met.len() as int)
        } else {
            firsts(met, met.len() as int).push(walls)
        }),
{
    lemma_firsts_prefix(met, met.push(walls), met.len() as int);
    assert(met.push(walls).take(met.len() as int) =~= met);
}

proof fn lemma_firsts_prefix<T>(a: Seq<Seq<T>>, b: Seq<Seq<T>>, n: int)
    requires
        n <= a.len() <= b.len(),
        forall|i: int| 0 <= i < n ==> a[i] == b[i],
    ensures
        firsts(a, n) == firsts(b, n),
    decreases n,
{
    if n > 0 {
        lemma_firsts_prefix(a, b, n - 1);
        assert(a.take(n - 1) =~= b.take(n - 1));
    }
}

/// Direction `i` of a fan of `n` rays: a golden spiral, turned by `rot`, and
/// jittered a little so that not always the same chains are met.
pub open spec fn fan_dir(f: Calc, n: u32, rot: u32, i: u32, jitter: Single) -> Point {
    let ga = prod(f, Single(PI), diff(f, Single(THREE), f(Op::Root(Single(FIVE)))));
    let z = diff(
        f,
        Single(ONE),
        quot(
            f,
            prod(f, Single(TWO), sum(f, rounded(i as nat), Single(HALF))),
            rounded(n as nat),
        ),
    );
    let turned = prod(f, prod(f, rounded(rot as nat), Single(GOLDEN)), Single(TAU));
    let phi = plus_prod(
        f,
        sum(f, prod(f, ga, rounded(i as nat)), turned),
        jitter,
        Single(JITTER),
    );
    around(f, z, phi)
}

pub(crate) fn fan_ray<F: Fn(Op) -> Single>(f: &F, n: u32, rot: u32, i: u32, jitter: Single) -> (r:
    Point)
    requires
        is_steady(*f),
    ensures
        r == fan_dir(answering(*f), n, rot, i, jitter),
{
    let root: Single = ask(f, Op::Root(Single(FIVE)));
    let ga: Single = times(f, Single(PI), minus(f, Single(THREE), root));
    let at: Single = Single::from_count(i as u64);
    let top: Single = times(f, Single(TWO), plus(f, at, Single(HALF)));
    let z: Single = minus(f, Single(ONE), over(f, top, Single::from_count(n as u64)));
    let turned: Single = times(
        f,
        times(f, Single::from_count(rot as u64), Single(GOLDEN)),
        Single(TAU),
    );
    let phi: Single = add_times(f, plus(f, times(f, ga, at), turned), jitter, Single(JITTER));
    direction_at(f, z, phi)
}

/// The pattern of pi.
pub const PI: u32 = 0x4049_0FDB;

/// The pattern of 3.0.
pub const THREE: u32 = 0x4040_0000;

/// The pattern of 5.0.
pub const FIVE: u32 = 0x40A0_0000;

/// The pattern of 0.61803398875.
pub const GOLDEN: u32 = 0x3F1E_377A;

/// The pattern of 0.02.
pub const JITTER: u32 = 0x3CA3_D70A;

/// The stand behind a bounce off a wall of the room, a little off it.
pub open spec fn bounced(f: Calc, at: Stand, t: Single, w: u8) -> Stand {
    let n = along_axis(
        w as int / 2,
        if w % 2 == 0 {
            Single(ONE)
        } else {
            Single(MINUS_ONE)
        },
    );
    Stand {
        pos: along(f, along(f, at.pos, at.d, t), n, Single(STUCK)),
        d: mirrored(f, at.d, n),
    }
}

fn bounce_off<F: Fn(Op) -> Single>(f: &F, at: Stand, t: Single, w: u8) -> (r: Stand)
    requires
        is_steady(*f),
    ensures
        r == bounced(answering(*f), at, t, w),
{
    let v: Single = if w % 2 == 0 {
        Single(ONE)
    } else {
        Single(MINUS_ONE)
    };
    let n: Point = on_axis(w as usize / 2, v);
    let hit: Point = go_along(f, at.pos, at.d, t);
    Stand { pos: go_along(f, hit, n, Single(STUCK)), d: reflect_off(f, at.d, n) }
}

/// A fan of `n` rays in a room.
pub open spec fn room_fan(f: Calc, size: Point, n: u32, rot: u32) -> RayFan {
    RayFan {
        launch: |q: (u32, Single)| fan_dir(f, n, rot, q.0, q.1),
        cast: |at: Stand| nearest_wall(f, size, at.pos, at.d, 3),
        bounce: |q: (Stand, Single, u8)| bounced(f, q.0, q.1, q.2),
    }
}

proof fn lemma_cast_is_wall(f: Calc, size: Point, p: Point, d: Point, n: int)
    requires
        0 <= n <= 3,
    ensures
        nearest_wall(f, size, p, d, n).1 < 6,
    decreases n,
{
    if n > 0 {
        lemma_cast_is_wall(f, size, p, d, n - 1);
    }
}

/// Follow one ray and report the chains it meets that are new.
fn follow_ray<F: Fn(Op) -> Single>(
    f: &F,
    room: &Shoebox,
    start: Stand,
    seen: &mut HashSet<u64>,
    out: &mut Vec<Chain>,
    Ghost(fan): Ghost<RayFan>,
    Ghost(met): Ghost<Seq<Seq<u8>>>,
    Ghost(base): Ghost<Seq<Chain>>,
)
    requires
        is_steady(*f),
        exists|n: u32, rot: u32| fan == #[trigger] room_fan(answering(*f), room.size, n, rot),
        is_tally(old(seen)@, met),
        old(out)@ == base + chains_of(firsts(met, met.len() as int)),
    ensures
        ({
            let walls = ray_walls(fan.cast, fan.bounce, start, PT_MAX_ORDER as int);
            let all = met + beginnings(walls, walls.len() as int);
            &&& is_tally(final(seen)@, all)
            &&& final(out)@ == base + chains_of(firsts(all, all.len() as int))
        }),
{
    let ghost g = answering(*f);
    let ghost cf = fan.cast;
    let ghost bf = fan.bounce;
    let ghost walls = ray_walls(cf, bf, start, PT_MAX_ORDER as int);
    let mut s: Stand = start;
    let mut chain: [u8; 3] = [NO_WALL, NO_WALL, NO_WALL];
    let ghost mut so_far: Seq<u8> = Seq::empty();
    let mut key: u64 = 1;
    let mut k: usize = 0;
    let mut going: bool = true;
    assert(met + beginnings(walls, 0) =~= met);
    assert(chain@ =~= slots(so_far)@);
    while going && k < PT_MAX_ORDER
        invariant
            k <= 3,
            is_steady(*f),
            g == answering(*f),
            cf == (|at: Stand| nearest_wall(g, room.size, at.pos, at.d, 3)),
            bf == (|q: (Stand, Single, u8)| bounced(g, q.0, q.1, q.2)),
            so_far.len() == k,
            are_walls(so_far),
            walls == so_far + (if going {
                ray_walls(cf, bf, s, 3 - k)
            } else {
                Seq::<u8>::empty()
            }),
            chain == slots(so_far),
            key == packed(so_far),
            k == 0 ==> key <= 1,
            k == 1 ==> key <= 14,
            k == 2 ==> key <= 118,
            is_tally(seen@, met + beginnings(walls, k as int)),
            out@ == base + chains_of(
                firsts(met + beginnings(walls, k as int), (met + beginnings(walls, k as int)).len() as int),
            ),
        decreases 3 - k, (if going { 1int } else { 0int }),
    {
        let hit: (Single, u8) = room.raycast(f, s.pos, s.d);
        assert(cf(s) == hit);
        let (t, w): (Single, u8) = hit;
        if t.abs().0 >= INFINITY || t.le(Single(STUCK)) {
            going = false;
            assert(so_far + Seq::<u8>::empty() =~= so_far);
            assert(so_far + ray_walls(cf, bf, s, 3 - k) =~= so_far);
        } else {
            let ghost before = so_far;
            let ghost met_k = met + beginnings(walls, k as int);
            chain[k] = w;
            key = key * 8 + (w as u64 + 1);
            proof {
                so_far = before.push(w);
                assert(so_far.drop_last() =~= before);
                assert(chain@ =~= slots(so_far)@);
                assert(walls =~= so_far + ray_walls(cf, bf, bf((s, t, w)), 3 - k - 1));
                assert(walls.take(k + 1) =~= so_far);
                assert(met + beginnings(walls, k + 1) =~= met_k.push(so_far));
                lemma_tally_new(seen@, met_k, so_far, key);
                lemma_firsts_push(met_k, so_far);
            }
            let ghost fresh = firsts(met_k, met_k.len() as int);
            if seen.insert(key) {
                out.push((chain, (k + 1) as u8));
                assert(chain_of(so_far) == (chain, (k + 1) as u8));
                assert(out@ =~= base + chains_of(fresh.push(so_far)));
            }
            let next: Stand = bounce_off(f, s, t, w);
            assert(bf((s, t, w)) == next);
            s = next;
            k = k + 1;
        }
    }
    assert(so_far + ray_walls(cf, bf, s, 0) =~= so_far);
    assert(walls =~= so_far);
}

/// Ray discovery: a fan of rays from the listener, bounced specularly. Every
/// beginning of every ray's wall sequence is a candidate chain; each is
/// reported once.
pub fn pt_chains<F: Fn(Op) -> Single>(
    f: &F,
    room: &Shoebox,
    listener: Point,
    n_rays: u32,
    rot: u32,
    out: &mut Vec<Chain>,
)
    requires
        is_steady(*f),
    ensures
        ({
            let met = fan_chains(
                room_fan(answering(*f), room.size, n_rays, rot),
                listener,
                fan_seed(rot),
                n_rays as int,
            );
            final(out)@ == old(out)@ + chains_of(firsts(met, met.len() as int))
        }),
{
    let ghost base = out@;
    let ghost fan = room_fan(answering(*f), room.size, n_rays, rot);
    let mut seen: HashSet<u64> = HashSet::new();
    let seed: u64 = (0x9E37u64 ^ rot as u64) | 1u64;
    assert(seed != 0) by (bit_vector)
        requires
            seed == (0x9E37u64 ^ rot as u64) | 1u64,
    ;
    let mut jitter: Rng = Rng::new(seed);
    let mut i: u32 = 0;
    assert(out@ =~= base + chains_of(firsts(Seq::<Seq<u8>>::empty(), 0)));
    while i < n_rays
        invariant
            i <= n_rays,
            is_steady(*f),
            fan == room_fan(answering(*f), room.size, n_rays, rot),
            jitter@ == advanced(seed, i as nat),
            is_tally(seen@, fan_chains(fan, listener, seed, i as int)),
            out@ == base + chains_of(
                firsts(
                    fan_chains(fan, listener, seed, i as int),
                    fan_chains(fan, listener, seed, i as int).len() as int,
                ),
            ),
        decreases n_rays - i,
    {
        let j: Single = jitter.next_f32();
        assert(jitter@ == advanced(seed, (i + 1) as nat));
        let d: Point = fan_ray(f, n_rays, rot, i, j);
        assert((fan.launch)((i, j)) == d);
        follow_ray(
            f,
            room,
            Stand { pos: listener, d },
            &mut seen,
            out,
            Ghost(fan),
            Ghost(fan_chains(fan, listener, seed, i as int)),
            Ghost(base),
        );
        i = i + 1;
    }
}

/// Discovery reports every chain it meets, and none twice.
pub proof fn each_chain_is_reported_once<T>(s: Seq<Seq<T>>, n: int)
    requires
        0 <= n <= s.len(),
    ensures
        firsts(s, n).no_duplicates(),
        forall|w: Seq<T>| #[trigger] s.take(n).contains(w) <==> firsts(s, n).contains(w),
    decreases n,
{
    if n > 0 {
        each_chain_is_reported_once(s, n - 1);
        let before = firsts(s, n - 1);
        let after = firsts(s, n);
        let w0 = s[n - 1];
        assert(s.take(n) =~= s.take(n - 1).push(w0));
        assert forall|w: Seq<T>| #[trigger] s.take(n).contains(w) <==> after.contains(w) by {
            if s.take(n).contains(w) {
                let all = s.take(n);
                let j = choose|j: int| 0 <= j < all.len() && all[j] == w;
                if j < n - 1 {
                    assert(s.take(n - 1)[j] == w);
                    assert(s.take(n - 1).contains(w));
                    let k = choose|k: int| 0 <= k < before.len() && before[k] == w;
                    assert(after[k] == w);
                } else if s.take(n - 1).contains(w0) {
                    let k = choose|k: int| 0 <= k < before.len() && before[k] == w;
                    assert(after[k] == w);
                } else {
                    assert(after[before.len() as int] == w);
                }
            }
            if after.contains(w) {
                let k = choose|k: int| 0 <= k < after.len() && after[k] == w;
                if k < before.len() {
                    assert(before[k] == w);
                    assert(before.contains(w));
                    assert(s.take(n - 1).contains(w));
                    let past = s.take(n - 1);
                    let j = choose|j: int| 0 <= j < past.len() && past[j] == w;
                    assert(s.take(n)[j] == w);
                } else {
                    assert(s.take(n)[n - 1] == w);
                }
            }
        }
        if !s.take(n - 1).contains(w0) {
            assert forall|i: int, j: int| 0 <= i < j < after.len() implies after[i] != after[j] by {
                if j == before.len() {
                    assert(before.contains(before[i]));
                }
            }
        }
    }
}

/// The walls of a chain.
pub open spec fn walls_of(c: Chain) -> Seq<u8> {
    c.0@.take(c.1 as int)
}

/// A chain as discovery makes them.
pub open spec fn is_chain(c: Chain) -> bool {
    c.1 <= PT_MAX_ORDER && are_walls(walls_of(c))
}

/// A source and the walls of a chain in one number.
pub open spec fn packed_for(si: usize, walls: Seq<u8>) -> nat
    decreases walls.len(),
{
    if walls.len() == 0 {
        (si * 4096 + 1) as nat
    } else {
        packed_for(si, walls.drop_last()) * 8 + walls.last() as nat + 1
    }
}

/// The packed number parts into the source and the chain alone.
proof fn lemma_packed_for(si: usize, walls: Seq<u8>)
    requires
        are_walls(walls),
        walls.len() <= 3,
    ensures
        packed_for(si, walls) == si * 4096 * pow8(walls.len()) + packed(walls),
        packed(walls) < 4096,
        packed(walls) < 2 * pow8(walls.len()),
        pow8(walls.len()) <= packed(walls),
    decreases walls.len(),
{
    if walls.len() > 0 {
        let w = walls.drop_last();
        assert(walls.last() < 6);
        assert(are_walls(w)) by {
            assert forall|i: int| 0 <= i < w.len() implies #[trigger] w[i] < 6 by {
                assert(walls[i] < 6);
            }
        }
        lemma_packed_for(si, w);
        assert(si * 4096 * pow8(walls.len()) == si * 4096 * pow8(w.len()) * 8) by (nonlinear_arith)
            requires
                pow8(walls.len()) == pow8(w.len()) * 8,
        ;
        assert(pow8(walls.len()) <= 512) by {
            reveal_with_fuel(pow8, 4);
        }
    } else {
        assert(si * 4096 * pow8(0) == si * 4096) by (nonlinear_arith)
            requires
                pow8(0) == 1,
        ;
    }
}

/// A power of 8.
pub open spec fn pow8(n: nat) -> nat
    decreases n,
{
    if n == 0 {
        1
    } else {
        pow8((n - 1) as nat) * 8
    }
}

/// Packed numbers tell sources and chains apart.
pub proof fn packed_pairs_are_unique(si: usize, a: Seq<u8>, sj: usize, b: Seq<u8>)
    requires
        are_walls(a),
        are_walls(b),
        a.len() <= 3,
        b.len() <= 3,
        packed_for(si, a) == packed_for(sj, b),
    ensures
        si == sj,
        a == b,
{
    lemma_packed_for(si, a);
    lemma_packed_for(sj, b);
    reveal_with_fuel(pow8, 4);
    let p = pow8(a.len()) as int;
    let q = pow8(b.len()) as int;
    let x = si * p;
    let y = sj * q;
    assert(si * 4096 * p == 4096 * x) by (nonlinear_arith)
        requires
            x == si * p,
    ;
    assert(sj * 4096 * q == 4096 * y) by (nonlinear_arith)
        requires
            y == sj * q,
    ;
    assert(4096 * x + packed(a) == 4096 * y + packed(b));
    assert(packed(a) == packed(b) && x == y);
    packed_chains_are_unique(a, b);
    assert(p == q && p >= 1);
    assert(si == sj) by (nonlinear_arith)
        requires
            si * p == sj * p,
            p >= 1,
    ;
}

/// The two records are one physical path: at an exact corner both orders of
/// the two walls hold, and counting both would double its energy.
pub open spec fn is_twin(f: Calc, a: PathRecord, b: PathRecord) -> bool {
    &&& a.source == b.source
    &&& Single(diff(f, a.delay_s, b.delay_s).magnitude() as u32).below(Single(SAME_DELAY))
    &&& Single(SAME_DIR).below(dot(f, a.dir, b.dir))
}

/// Some record is the same physical path.
pub open spec fn has_twin(f: Calc, records: Seq<PathRecord>, r: PathRecord) -> bool {
    exists|i: int| 0 <= i < records.len() && is_twin(f, #[trigger] records[i], r)
}

/// The chain of entry `k` of the product of chains and sources.
pub open spec fn entry_walls(chains: Seq<Chain>, sources: nat, k: int) -> Seq<u8> {
    walls_of(chains[k / (sources as int)])
}

/// The source of entry `k`.
pub open spec fn entry_source(sources: nat, k: int) -> usize {
    (k % (sources as int)) as usize
}

/// Entry `k` repeats an earlier one.
pub open spec fn is_repeat(chains: Seq<Chain>, sources: nat, k: int) -> bool {
    exists|j: int|
        0 <= j < k && #[trigger] entry_walls(chains, sources, j) == entry_walls(chains, sources, k)
            && entry_source(sources, j) == entry_source(sources, k)
}

/// The records that the first `n` pairs of chain and source give.
pub open spec fn discovered(
    f: Calc,
    room: Shoebox,
    chains: Seq<Chain>,
    sources: Seq<Point>,
    listener: Point,
    n: int,
) -> Seq<PathRecord>
    decreases n,
{
    if n <= 0 {
        Seq::empty()
    } else {
        let before = discovered(f, room, chains, sources, listener, n - 1);
        let si = entry_source(sources.len(), n - 1);
        if is_repeat(chains, sources.len(), n - 1) {
            before
        } else {
            match recorded(
                f,
                room,
                entry_walls(chains, sources.len(), n - 1),
                si as u16,
                sources[si as int],
                listener,
            ) {
                None => before,
                Some(r) => if has_twin(f, before, r) {
                    before
                } else {
                    before.push(r)
                },
            }
        }
    }
}

/// `seen` holds the packed form of the first `n` pairs.
spec fn is_pair_tally(seen: Set<u64>, chains: Seq<Chain>, sources: nat, n: int) -> bool {
    forall|k: u64|
        seen.contains(k) <==> exists|j: int|
            0 <= j < n && packed_for(
                entry_source(sources, j),
                #[trigger] entry_walls(chains, sources, j),
            ) == k
}

proof fn lemma_pair_tally(seen: Set<u64>, chains: Seq<Chain>, sources: nat, n: int, key: u64)
    requires
        sources > 0,
        0 <= n < chains.len() * sources,
        forall|i: int| 0 <= i < chains.len() ==> is_chain(#[trigger] chains[i]),
        is_pair_tally(seen, chains, sources, n),
        key == packed_for(entry_source(sources, n), entry_walls(chains, sources, n)),
    ensures
        seen.contains(key) == is_repeat(chains, sources, n),
        is_pair_tally(seen.insert(key), chains, sources, n + 1),
{
    if seen.contains(key) {
        let j = choose|j: int|
            0 <= j < n && packed_for(
                entry_source(sources, j),
                #[trigger] entry_walls(chains, sources, j),
            ) == key;
        lemma_quotient_in_range(j, chains.len() as int, sources as int);
        lemma_quotient_in_range(n, chains.len() as int, sources as int);
        assert(is_chain(chains[j / (sources as int)]));
        assert(is_chain(chains[n / (sources as int)]));
        packed_pairs_are_unique(
            entry_source(sources, j),
            entry_walls(chains, sources, j),
            entry_source(sources, n),
            entry_walls(chains, sources, n),
        );
    }
    assert forall|k: u64| seen.insert(key).contains(k) <==> exists|j: int|
        0 <= j < n + 1 && packed_for(
            entry_source(sources, j),
            #[trigger] entry_walls(chains, sources, j),
        ) == k by {
        if seen.insert(key).contains(k) && k == key {
            assert(packed_for(entry_source(sources, n), entry_walls(chains, sources, n)) == k);
        }
    }
}

proof fn lemma_quotient_in_range(j: int, a: int, b: int)
    requires
        b > 0,
        0 <= j < a * b,
    ensures
        0 <= j / b < a,
{
    assert(0 <= j / b < a) by (nonlinear_arith)
        requires
            b > 0,
            0 <= j < a * b,
    ;
}

/// Solve every chain for every source, each pair once, and keep one record of
/// each physical path.
pub fn solve_chains<F: Fn(Op) -> Single>(
    f: &F,
    room: &Shoebox,
    chains: &Vec<Chain>,
    sources: &Vec<Point>,
    listener: Point,
    out: &mut Vec<PathRecord>,
)
    requires
        is_steady(*f),
        sources@.len() <= u32::MAX,
        forall|i: int| 0 <= i < chains@.len() ==> is_chain(#[trigger] chains@[i]),
    ensures
        final(out)@ == discovered(
            answering(*f),
            *room,
            chains@,
            sources@,
            listener,
            (chains@.len() * sources@.len()) as int,
        ),
{
    out.clear();
    let ghost g = answering(*f);
    let count: usize = sources.len();
    let ghost ns = sources@.len();
    let mut seen: HashSet<u64> = HashSet::new();
    let mut c: usize = 0;
    assert(0 * count == 0) by (nonlinear_arith);
    while c < chains.len()
        invariant
            c <= chains@.len(),
            ns == count,
            ns == sources@.len(),
            count <= u32::MAX,
            is_steady(*f),
            g == answering(*f),
            forall|i: int| 0 <= i < chains@.len() ==> is_chain(#[trigger] chains@[i]),
            is_pair_tally(seen@, chains@, ns, c * count),
            out@ == discovered(g, *room, chains@, sources@, listener, c * count),
        decreases chains@.len() - c,
    {
        let chain: Chain = chains[c];
        assert(is_chain(chains@[c as int]));
        let mut si: usize = 0;
        while si < count
            invariant
                si <= count,
                c < chains@.len(),
                chain == chains@[c as int],
                is_chain(chain),
                ns == count,
                ns == sources@.len(),
                count <= u32::MAX,
                is_steady(*f),
                g == answering(*f),
                forall|i: int| 0 <= i < chains@.len() ==> is_chain(#[trigger] chains@[i]),
                is_pair_tally(seen@, chains@, ns, c * count + si),
                out@ == discovered(g, *room, chains@, sources@, listener, c * count + si),
            decreases count - si,
        {
            let ghost at = c * count + si;
            proof {
                lemma_entry(c as int, si as int, count as int, chains@.len() as int);
            }
            let key: u64 = pack_pair(si, &chain);
            proof {
                lemma_pair_tally(seen@, chains@, ns, at, key);
            }
            if seen.insert(key) {
                let ghost walls = walls_of(chain);
                let order: usize = chain.1 as usize;
                let part: &[u8] = vstd::slice::slice_subrange(chain.0.as_slice(), 0, order);
                assert(part@ =~= walls);
                let r: Option<PathRecord> = record_for(
                    f,
                    room,
                    part,
                    si as u16,
                    sources[si],
                    listener,
                );
                if let Some(rec) = r {
                    if !twin_in(f, out, &rec) {
                        out.push(rec);
                    }
                }
            }
            si = si + 1;
        }
        assert(c * count + count == (c + 1) * count) by (nonlinear_arith);
        c = c + 1;
    }
}

proof fn lemma_entry(c: int, si: int, sources: int, chains: int)
    requires
        0 <= c < chains,
        0 <= si < sources,
    ensures
        (c * sources + si) / sources == c,
        (c * sources + si) % sources == si,
        0 <= c * sources + si < chains * sources,
{
    vstd::arithmetic::div_mod::lemma_fundamental_div_mod_converse(
        c * sources + si,
        sources,
        c,
        si,
    );
    assert(c * sources + si < chains * sources) by (nonlinear_arith)
        requires
            0 <= c < chains,
            0 <= si < sources,
    ;
    assert(0 <= c * sources) by (nonlinear_arith)
        requires
            0 <= c,
            0 < sources,
    ;
}

fn pack_pair(si: usize, chain: &Chain) -> (key: u64)
    requires
        is_chain(*chain),
        si < u32::MAX,
    ensures
        key == packed_for(si, walls_of(*chain)),
{
    let ghost walls = walls_of(*chain);
    let mut key: u64 = si as u64 * 4096 + 1;
    let mut k: usize = 0;
    while k < chain.1 as usize
        invariant
            k <= chain.1 <= 3,
            walls == walls_of(*chain),
            are_walls(walls),
            walls.len() == chain.1,
            si < u32::MAX,
            key == packed_for(si, walls.take(k as int)),
            k == 0 ==> key < 0x1000_0000_0000,
            k == 1 ==> key < 0x1_0000_0000_0000,
            k == 2 ==> key < 0x10_0000_0000_0000,
        decreases 3 - k,
    {
        let w: u8 = chain.0[k];
        assert(walls[k as int] == w);
        assert(walls.take(k + 1).drop_last() =~= walls.take(k as int));
        key = key * 8 + (w as u64 + 1);
        k = k + 1;
    }
    assert(walls.take(k as int) =~= walls);
    key
}

fn twin_in<F: Fn(Op) -> Single>(f: &F, records: &Vec<PathRecord>, r: &PathRecord) -> (found: bool)
    requires
        is_steady(*f),
    ensures
        found == has_twin(answering(*f), records@, *r),
{
    let mut i: usize = 0;
    while i < records.len()
        invariant
            i <= records@.len(),
            is_steady(*f),
            forall|j: int| 0 <= j < i ==> !is_twin(answering(*f), #[trigger] records@[j], *r),
        decreases records@.len() - i,
    {
        let q: PathRecord = records[i];
        if q.source == r.source {
            let gap: Single = minus(f, q.delay_s, r.delay_s);
            let straight: Single = dot_of(f, q.dir, r.dir);
            if gap.abs().lt(Single(SAME_DELAY)) && Single(SAME_DIR).lt(straight) {
                assert(is_twin(answering(*f), records@[i as int], *r));
                return true;
            }
        }
        i = i + 1;
    }
    false
}

pub(crate) proof fn lemma_seeds_are_chains(n: int)
    requires
        0 <= n <= 6,
    ensures
        forall|i: int| 0 <= i < seeds(n).len() ==> is_chain(#[trigger] seeds(n)[i]),
    decreases n,
{
    if n > 0 {
        lemma_seeds_are_chains(n - 1);
        lemma_seed_row_chains((n - 1) as u8, 6);
        let before = seeds(n - 1);
        let row = seed_row((n - 1) as u8, 6);
        assert forall|i: int| 0 <= i < seeds(n).len() implies is_chain(#[trigger] seeds(n)[i]) by {
            if i < before.len() {
                assert(seeds(n)[i] == before[i]);
            } else {
                assert(seeds(n)[i] == row[i - before.len()]);
            }
        }
    } else {
        assert(walls_of(no_walls()) =~= Seq::empty());
    }
}

proof fn lemma_seed_row_chains(w1: u8, m: int)
    requires
        w1 < 6,
        0 <= m <= 6,
    ensures
        forall|i: int| 0 <= i < seed_row(w1, m).len() ==> is_chain(#[trigger] seed_row(w1, m)[i]),
    decreases m,
{
    if m <= 0 {
        assert(walls_of(one_wall(w1)) =~= seq![w1]);
    } else {
        lemma_seed_row_chains(w1, m - 1);
        let w2 = (m - 1) as u8;
        assert(walls_of(two_walls(w1, w2)) =~= seq![w1, w2]);
        let before = seed_row(w1, m - 1);
        let after = seed_row(w1, m);
        assert forall|i: int| 0 <= i < after.len() implies is_chain(#[trigger] after[i]) by {
            if i < before.len() {
                assert(after[i] == before[i]);
            } else {
                assert(after[i] == two_walls(w1, w2));
            }
        }
    }
}

/// Chains of walls within the longest order are chains as discovery makes
/// them, and their walls come back.
proof fn lemma_chain_of_walls(walls: Seq<u8>)
    requires
        are_walls(walls),
        walls.len() <= 3,
    ensures
        is_chain(chain_of(walls)),
        walls_of(chain_of(walls)) == walls,
{
    assert(walls_of(chain_of(walls)) =~= walls);
}

proof fn lemma_fan_walls(
    cast: spec_fn(Stand) -> (Single, u8),
    bounce: spec_fn((Stand, Single, u8)) -> Stand,
    at: Stand,
    k: int,
)
    requires
        forall|at: Stand| (#[trigger] cast(at)).1 < 6,
        k >= 0,
    ensures
        are_walls(ray_walls(cast, bounce, at, k)),
        ray_walls(cast, bounce, at, k).len() <= k,
    decreases k,
{
    if k > 0 {
        let (t, w) = cast(at);
        lemma_fan_walls(cast, bounce, bounce((at, t, w)), k - 1);
    }
}

proof fn lemma_beginnings(walls: Seq<u8>, k: int)
    requires
        are_walls(walls),
        0 <= k <= walls.len() <= 3,
    ensures
        forall|i: int|
            0 <= i < beginnings(walls, k).len() ==> are_walls(#[trigger] beginnings(walls, k)[i])
                && beginnings(walls, k)[i].len() <= 3,
    decreases k,
{
    if k > 0 {
        lemma_beginnings(walls, k - 1);
        assert(are_walls(walls.take(k))) by {
            assert forall|i: int| 0 <= i < k implies #[trigger] walls.take(k)[i] < 6 by {
                assert(walls[i] < 6);
            }
        }
        let before = beginnings(walls, k - 1);
        let after = beginnings(walls, k);
        assert forall|i: int| 0 <= i < after.len() implies are_walls(#[trigger] after[i])
            && after[i].len() <= 3 by {
            if i < before.len() {
                assert(after[i] == before[i]);
            } else {
                assert(after[i] == walls.take(k));
            }
        }
    }
}

proof fn lemma_fan_chains(f: RayFan, listener: Point, seed: u64, n: int)
    requires
        forall|at: Stand| (#[trigger] (f.cast)(at)).1 < 6,
    ensures
        forall|i: int|
            0 <= i < fan_chains(f, listener, seed, n).len() ==> are_walls(
                #[trigger] fan_chains(f, listener, seed, n)[i],
            ) && fan_chains(f, listener, seed, n)[i].len() <= 3,
    decreases n,
{
    if n > 0 {
        lemma_fan_chains(f, listener, seed, n - 1);
        let d = (f.launch)(((n - 1) as u32, toss(advanced(seed, n as nat))));
        lemma_fan_walls(f.cast, f.bounce, Stand { pos: listener, d }, PT_MAX_ORDER as int);
        let walls = fan_walls(f, listener, seed, n - 1);
        lemma_beginnings(walls, walls.len() as int);
        let before = fan_chains(f, listener, seed, n - 1);
        let more = beginnings(walls, walls.len() as int);
        let after = fan_chains(f, listener, seed, n);
        assert forall|i: int| 0 <= i < after.len() implies are_walls(#[trigger] after[i])
            && after[i].len() <= 3 by {
            if i < before.len() {
                assert(after[i] == before[i]);
            } else {
                assert(after[i] == more[i - before.len()]);
            }
        }
    }
}

/// Discovery, seeding and exact solving in one call.
pub fn pt_discover<F: Fn(Op) -> Single>(
    f: &F,
    room: &Shoebox,
    sources: &Vec<Point>,
    listener: Point,
    n_rays: u32,
    rot: u32,
    out: &mut Vec<PathRecord>,
)
    requires
        is_steady(*f),
        sources@.len() <= u32::MAX,
    ensures
        ({
            let met = fan_chains(
                room_fan(answering(*f), room.size, n_rays, rot),
                listener,
                fan_seed(rot),
                n_rays as int,
            );
            let chains = seeds(6) + chains_of(firsts(met, met.len() as int));
            final(out)@ == discovered(
                answering(*f),
                *room,
                chains,
                sources@,
                listener,
                (chains.len() * sources@.len()) as int,
            )
        }),
{
    let mut chains: Vec<Chain> = Vec::new();
    seed_chains(&mut chains);
    pt_chains(f, room, listener, n_rays, rot, &mut chains);
    proof {
        let g = answering(*f);
        let fan = room_fan(g, room.size, n_rays, rot);
        let met = fan_chains(fan, listener, fan_seed(rot), n_rays as int);
        let fresh = firsts(met, met.len() as int);
        assert(chains@ =~= seeds(6) + chains_of(fresh));
        lemma_seeds_are_chains(6);
        assert forall|at: Stand| (#[trigger] (fan.cast)(at)).1 < 6 by {
            lemma_cast_is_wall(g, room.size, at.pos, at.d, 3);
        }
        lemma_fan_chains(fan, listener, fan_seed(rot), n_rays as int);
        each_chain_is_reported_once(met, met.len() as int);
        assert(met.take(met.len() as int) =~= met);
        assert forall|i: int| 0 <= i < chains@.len() implies is_chain(#[trigger] chains@[i]) by {
            let k = i - seeds(6).len();
            if k < 0 {
                assert(chains@[i] == seeds(6)[i]);
            } else {
                assert(chains@[i] == chain_of(fresh[k]));
                assert(fresh.contains(fresh[k]));
                assert(met.contains(fresh[k]));
                let j = choose|j: int| 0 <= j < met.len() && met[j] == fresh[k];
                assert(are_walls(met[j]));
                lemma_chain_of_walls(fresh[k]);
            }
        }
    }
    solve_chains(f, room, &chains, sources, listener, out);
}

} // verus!
