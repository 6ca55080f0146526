//! Rooms the tracer can bounce rays around in: the analytic shoebox, and
//! transient boxes (door leaves, glass panes) laid over any geometry.

use crate::arith::{diff, lesser, lesser_of, minus, over, quot, Calc, Op};
use crate::material::Material;
use crate::mesh::Point;
use crate::params::ONE;
use crate::probe::{answering, is_steady};
use crate::single::{Single, INFINITY};
use vstd::prelude::*;

verus! {

/// The pattern of 1e-9: a direction this flat never meets the plane.
pub const FLAT: u32 = 0x3089_705F;

/// The pattern of the largest finite number.
pub const FARTHEST: u32 = 0x7F7F_FFFF;

/// The pattern of 1e-4: a box entered nearer than this is not hit.
pub const AT_BOX: u32 = 0x38D1_B717;

/// The pattern of -1.0.
pub const MINUS_ONE: u32 = 0xBF80_0000;

/// A surface hit inside acoustic geometry.
#[derive(Clone, Copy, Debug)]
pub struct GeomHit {
    pub t: Single,
    /// Unit normal at the hit, oriented against the incoming ray.
    pub normal: Point,
    pub material: Material,
}

/// Anything that rays can bounce around in.
pub trait AcousticGeometry {
    /// The geometry can be asked.
    spec fn is_sound(&self) -> bool;

    /// The nearest surface from `p` along the unit direction `d`.
    spec fn hit_by(&self, f: Calc, p: Point, d: Point) -> Option<GeomHit>;

    fn raycast_hit<F: Fn(Op) -> Single>(&self, f: &F, p: Point, d: Point) -> (r: Option<GeomHit>)
        requires
            is_steady(*f),
            self.is_sound(),
        ensures
            r == self.hit_by(answering(*f), p, d),
    ;
}

/// A room from the origin to `size`. Walls: 0 and 1 lie across x, 2 and 3
/// across y, 4 (floor) and 5 (ceiling) across z; even ones at 0.
#[derive(Clone, Copy, Debug)]
pub struct Shoebox {
    pub size: Point,
    pub walls: [Material; 6],
}

/// The wall ahead along one axis, with its distance.
pub open spec fn wall_ahead(f: Calc, size: Point, p: Point, d: Point, axis: int) -> Option<
    (Single, u8),
> {
    let di = d@[axis];
    if Single(FLAT).below(di) {
        Some((quot(f, diff(f, size@[axis], p@[axis]), di), (2 * axis + 1) as u8))
    } else if di.below(Single(FLAT).negated()) {
        Some((quot(f, p@[axis].negated(), di), (2 * axis) as u8))
    } else {
        None
    }
}

/// The nearest wall ahead along the first `n` axes; the first of equally near
/// ones.
pub open spec fn nearest_wall(f: Calc, size: Point, p: Point, d: Point, n: int) -> (Single, u8)
    decreases n,
{
    if n <= 0 {
        (Single(FARTHEST), 0u8)
    } else {
        let before = nearest_wall(f, size, p, d, n - 1);
        match wall_ahead(f, size, p, d, n - 1) {
            Some(h) if h.0.below(before.0) => h,
            _ => before,
        }
    }
}

/// The number in the slot of one axis, zero in the others.
pub open spec fn along_axis(axis: int, v: Single) -> Point {
    if axis == 0 {
        [v, Single(0), Single(0)]
    } else if axis == 1 {
        [Single(0), v, Single(0)]
    } else {
        [Single(0), Single(0), v]
    }
}

pub(crate) fn on_axis(axis: usize, v: Single) -> (r: Point)
    ensures
        r == along_axis(axis as int, v),
{
    if axis == 0 {
        [v, Single(0), Single(0)]
    } else if axis == 1 {
        [Single(0), v, Single(0)]
    } else {
        [Single(0), Single(0), v]
    }
}

impl Shoebox {
    pub fn new(size: Point, walls: [Material; 6]) -> (r: Self)
        ensures
            r == (Shoebox { size, walls }),
    {
        Self { size, walls }
    }

    /// The point lies strictly inside the room.
    pub open spec fn holds(self, p: Point) -> bool {
        forall|a: int|
            0 <= a < 3 ==> Single(0).below(#[trigger] p@[a]) && p@[a].below(self.size@[a])
    }

    pub fn contains(&self, p: Point) -> (r: bool)
        ensures
            r == self.holds(p),
    {
        let r: bool = Single(0).lt(p[0]) && p[0].lt(self.size[0]) && Single(0).lt(p[1]) && p[1].lt(
            self.size[1],
        ) && Single(0).lt(p[2]) && p[2].lt(self.size[2]);
        proof {
            if r {
                assert forall|a: int| 0 <= a < 3 implies Single(0).below(#[trigger] p@[a])
                    && p@[a].below(self.size@[a]) by {}
            } else {
                assert(!(Single(0).below(p@[0]) && p@[0].below(self.size@[0]) && Single(0).below(p@[1])
                    && p@[1].below(self.size@[1]) && Single(0).below(p@[2]) && p@[2].below(
                    self.size@[2],
                )));
            }
        }
        r
    }

    /// Nearest wall for a ray starting inside the box: distance and wall.
    pub fn raycast<F: Fn(Op) -> Single>(&self, f: &F, p: Point, d: Point) -> (r: (Single, u8))
        requires
            is_steady(*f),
        ensures
            r == nearest_wall(answering(*f), self.size, p, d, 3),
            r.1 < 6,
    {
        let ghost g = answering(*f);
        let mut best: (Single, u8) = (Single(FARTHEST), 0);
        let mut axis: usize = 0;
        while axis < 3
            invariant
                axis <= 3,
                is_steady(*f),
                g == answering(*f),
                best == nearest_wall(g, self.size, p, d, axis as int),
                best.1 < 6,
            decreases 3 - axis,
        {
            let di: Single = d[axis];
            if Single(FLAT).lt(di) {
                let t: Single = over(f, minus(f, self.size[axis], p[axis]), di);
                if t.lt(best.0) {
                    best = (t, 2 * axis as u8 + 1);
                }
            } else if di.lt(Single(FLAT).neg()) {
                let t: Single = over(f, p[axis].neg(), di);
                if t.lt(best.0) {
                    best = (t, 2 * axis as u8);
                }
            }
            axis = axis + 1;
        }
        best
    }

    /// The hit that a ray from inside meets; outside is void.
    pub open spec fn hit(self, f: Calc, p: Point, d: Point) -> Option<GeomHit> {
        let (t, wall) = nearest_wall(f, self.size, p, d, 3);
        if !self.holds(p) || !t.is_finite() || t.at_most(Single(0)) {
            None
        } else {
            Some(
                GeomHit {
                    t,
                    normal: along_axis(
                        wall as int / 2,
                        if wall % 2 == 0 {
                            Single(ONE)
                        } else {
                            Single(MINUS_ONE)
                        },
                    ),
                    material: self.walls@[wall as int],
                },
            )
        }
    }

}

impl AcousticGeometry for Shoebox {
    open spec fn is_sound(&self) -> bool {
        true
    }

    open spec fn hit_by(&self, f: Calc, p: Point, d: Point) -> Option<GeomHit> {
        self.hit(f, p, d)
    }

    fn raycast_hit<F: Fn(Op) -> Single>(&self, f: &F, p: Point, d: Point) -> (r: Option<GeomHit>) {
        if !self.contains(p) {
            return None;
        }
        let (t, wall): (Single, u8) = self.raycast(f, p, d);
        if t.abs().0 >= INFINITY || t.le(Single(0)) {
            return None;
        }
        let v: Single = if wall % 2 == 0 {
            Single(ONE)
        } else {
            Single(MINUS_ONE)
        };
        Some(
            GeomHit {
                t,
                normal: on_axis(wall as usize / 2, v),
                material: self.walls[wall as usize],
            },
        )
    }
}

/// No wall ahead is nearer than the one found.
pub proof fn the_nearest_wall_is_found(f: Calc, size: Point, p: Point, d: Point, n: int, axis: int)
    requires
        0 <= axis < n <= 3,
    ensures
        wall_ahead(f, size, p, d, axis) matches Some(h) ==> !h.0.below(
            nearest_wall(f, size, p, d, n).0,
        ),
        !nearest_wall(f, size, p, d, n).0.is_nan(),
    decreases n,
{
    lemma_nearest_is_number(f, size, p, d, n);
    lemma_nearest_is_number(f, size, p, d, n - 1);
    if axis < n - 1 {
        the_nearest_wall_is_found(f, size, p, d, n - 1, axis);
    }
}

proof fn lemma_nearest_is_number(f: Calc, size: Point, p: Point, d: Point, n: int)
    requires
        n >= 0,
    ensures
        !nearest_wall(f, size, p, d, n).0.is_nan(),
    decreases n,
{
    if n > 0 {
        lemma_nearest_is_number(f, size, p, d, n - 1);
    }
}

/// A slab test under way: where the box is entered and left so far, through
/// which axis it is entered (3 for none yet), and whether it is missed.
#[derive(Clone, Copy, Debug)]
pub struct Slab {
    pub t0: Single,
    pub t1: Single,
    pub axis: usize,
    pub missed: bool,
}

impl Slab {
    /// The test one axis on.
    pub open spec fn across(
        self,
        f: Calc,
        p: Point,
        d: Point,
        lo: Point,
        hi: Point,
        a: int,
    ) -> Slab {
        if self.missed {
            self
        } else if Single(d@[a].magnitude() as u32).below(Single(FLAT)) {
            if p@[a].below(lo@[a]) || hi@[a].below(p@[a]) {
                Slab { t0: Single(FARTHEST), missed: true, ..self }
            } else {
                self
            }
        } else {
            let x = quot(f, diff(f, lo@[a], p@[a]), d@[a]);
            let y = quot(f, diff(f, hi@[a], p@[a]), d@[a]);
            let ta = if y.below(x) { y } else { x };
            let tb = if y.below(x) { x } else { y };
            let enters = self.t0.below(ta);
            let s = Slab {
                t0: if enters { ta } else { self.t0 },
                axis: if enters { a as usize } else { self.axis },
                t1: lesser(self.t1, tb),
                ..self
            };
            if s.t1.below(s.t0) {
                Slab { t0: Single(FARTHEST), missed: true, ..s }
            } else {
                s
            }
        }
    }
}

/// The slab test of a box over all three axes, from `start`.
pub open spec fn slab_test(f: Calc, p: Point, d: Point, lo: Point, hi: Point, start: Slab) -> Slab {
    start.across(f, p, d, lo, hi, 0).across(f, p, d, lo, hi, 1).across(f, p, d, lo, hi, 2)
}

/// Run the slab test of a box.
pub fn test_slab<F: Fn(Op) -> Single>(
    f: &F,
    p: Point,
    d: Point,
    lo: Point,
    hi: Point,
    start: Slab,
) -> (r: Slab)
    requires
        is_steady(*f),
        start.axis <= 3,
    ensures
        r == slab_test(answering(*f), p, d, lo, hi, start),
        r.axis <= 3,
{
    let ghost g = answering(*f);
    let mut s: Slab = start;
    let mut a: usize = 0;
    while a < 3
        invariant
            a <= 3,
            s.axis <= 3,
            is_steady(*f),
            g == answering(*f),
            a == 0 ==> s == start,
            a == 1 ==> s == start.across(g, p, d, lo, hi, 0),
            a == 2 ==> s == start.across(g, p, d, lo, hi, 0).across(g, p, d, lo, hi, 1),
            a == 3 ==> s == slab_test(g, p, d, lo, hi, start),
        decreases 3 - a,
    {
        let ghost before = s;
        if !s.missed {
            if d[a].abs().lt(Single(FLAT)) {
                if p[a].lt(lo[a]) || hi[a].lt(p[a]) {
                    s = Slab { t0: Single(FARTHEST), missed: true, ..s };
                }
            } else {
                let x: Single = over(f, minus(f, lo[a], p[a]), d[a]);
                let y: Single = over(f, minus(f, hi[a], p[a]), d[a]);
                let swap: bool = y.lt(x);
                let ta: Single = if swap { y } else { x };
                let tb: Single = if swap { x } else { y };
                if s.t0.lt(ta) {
                    s.t0 = ta;
                    s.axis = a;
                }
                s.t1 = lesser_of(s.t1, tb);
                if s.t1.lt(s.t0) {
                    s.t0 = Single(FARTHEST);
                    s.missed = true;
                }
            }
        }
        assert(s == before.across(g, p, d, lo, hi, a as int));
        a = a + 1;
    }
    s
}

/// A transient box with its own material.
#[derive(Clone, Copy, Debug)]
pub struct Panel {
    pub lo: Point,
    pub hi: Point,
    pub material: Material,
}

/// The nearest of a hit and a panel.
pub open spec fn nearer_panel(
    f: Calc,
    p: Point,
    d: Point,
    best: Option<GeomHit>,
    panel: Panel,
) -> Option<GeomHit> {
    let start = Slab { t0: Single(0), t1: Single(FARTHEST), axis: 3, missed: false };
    let s = slab_test(f, p, d, panel.lo, panel.hi, start);
    if Single(AT_BOX).below(s.t0) && s.t0.below(Single(FARTHEST)) && s.axis < 3 && (best matches Some(
        h,
    ) ==> s.t0.below(h.t)) {
        Some(
            GeomHit {
                t: s.t0,
                normal: along_axis(
                    s.axis as int,
                    if Single(0).below(d@[s.axis as int]) {
                        Single(MINUS_ONE)
                    } else {
                        Single(ONE)
                    },
                ),
                material: panel.material,
            },
        )
    } else {
        best
    }
}

/// The nearest of a hit and the first `n` panels.
pub open spec fn nearest_panel(
    f: Calc,
    p: Point,
    d: Point,
    base: Option<GeomHit>,
    panels: Seq<Panel>,
    n: int,
) -> Option<GeomHit>
    decreases n,
{
    if n <= 0 {
        base
    } else {
        nearer_panel(f, p, d, nearest_panel(f, p, d, base, panels, n - 1), panels[n - 1])
    }
}

/// Transient panels laid over a geometry: what fills a doorway is world state,
/// not authored mesh. Rays hit the nearest of base and boxes.
#[derive(Debug)]
pub struct WithPanels<'a, G> {
    pub base: &'a G,
    pub panels: &'a Vec<Panel>,
}

impl<G: AcousticGeometry> AcousticGeometry for WithPanels<'_, G> {
    open spec fn is_sound(&self) -> bool {
        self.base.is_sound()
    }

    open spec fn hit_by(&self, f: Calc, p: Point, d: Point) -> Option<GeomHit> {
        nearest_panel(
            f,
            p,
            d,
            self.base.hit_by(f, p, d),
            self.panels@,
            self.panels@.len() as int,
        )
    }

    fn raycast_hit<F: Fn(Op) -> Single>(&self, f: &F, p: Point, d: Point) -> (r: Option<GeomHit>) {
        let base: Option<GeomHit> = self.base.raycast_hit(f, p, d);
        let mut best: Option<GeomHit> = base;
        let mut n: usize = 0;
        while n < self.panels.len()
            invariant
                n <= self.panels@.len(),
                is_steady(*f),
                best == nearest_panel(answering(*f), p, d, base, self.panels@, n as int),
            decreases self.panels@.len() - n,
        {
            let panel: Panel = self.panels[n];
            let s: Slab = test_slab(
                f,
                p,
                d,
                panel.lo,
                panel.hi,
                Slab { t0: Single(0), t1: Single(FARTHEST), axis: 3, missed: false },
            );
            let nearer: bool = match best {
                None => true,
                Some(h) => s.t0.lt(h.t),
            };
            if Single(AT_BOX).lt(s.t0) && s.t0.lt(Single(FARTHEST)) && s.axis < 3 && nearer {
                let v: Single = if Single(0).lt(d[s.axis]) {
                    Single(MINUS_ONE)
                } else {
                    Single(ONE)
                };
                best = Some(
                    GeomHit { t: s.t0, normal: on_axis(s.axis, v), material: panel.material },
                );
            }
            n = n + 1;
        }
        best
    }
}

/// A panel never hides a nearer hit: what is found is at least as near as the
/// base hit, and is the base hit where no panel is nearer.
pub proof fn panels_only_bring_hits_nearer(
    f: Calc,
    p: Point,
    d: Point,
    base: Option<GeomHit>,
    panels: Seq<Panel>,
    n: int,
)
    ensures
        base matches Some(h) ==> (nearest_panel(f, p, d, base, panels, n) matches Some(b) && (b
            == h || b.t.below(h.t))),
    decreases n,
{
    if n > 0 {
        panels_only_bring_hits_nearer(f, p, d, base, panels, n - 1);
    }
}

} // verus!
