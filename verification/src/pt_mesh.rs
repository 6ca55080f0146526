//! Early reflections over the world mesh: chains of authored surfaces. A chain
//! is solved by mirroring the source in the surfaces' planes, and its unfolded
//! path is held to the mesh: reflection points must stand on real surface,
//! and every leg pays for what it crosses.

use crate::arith::{diff, greater, greater_of, minus, over, plus, prod, quot, size, sum, times, Calc, Op};
use crate::exact::{is_amplitude, is_orderly, is_share, lemma_one_num, lemma_share};
use crate::geom::{
    along, dim, dimmed, distance, distance_of, dot, dot_of, go_along, mirrored, norm, norm_of,
    reflect_off, vdiff, vminus, vscale, vscaled, TWO,
};
use crate::material::{spread_over, spreading, Material, MIN_DIST, SPEED_OF_SOUND};
use crate::mesh::{Mesh, MeshParts, Point, SegHit};
use crate::params::ONE;
use crate::probe::{answering, is_steady};
use crate::pt::{beginnings, fan_dir, fan_ray, firsts, lemma_firsts_push, Stand};
use crate::rng::{advanced, toss, Rng};
use crate::scene::{along_axis, on_axis, slab_test, test_slab, Slab, FARTHEST, MINUS_ONE};
use crate::single::Single;
use std::collections::HashSet;
use vstd::prelude::*;

verus! {

broadcast use vstd::std_specs::hash::group_hash_axioms;

/// Longest chain.
pub const M_MAX_ORDER: usize = 3;

/// Empty chain slot.
pub const NO_SURF: u16 = 0xFFFF;

/// The pattern of 2e-5: a record with no band above it is dropped.
pub const AUDIBLE_FLOOR: u32 = 0x37A7_C5AC;

/// The pattern of 1e-6: what lets less through in every band is opaque.
pub const OPAQUE: u32 = 0x3586_37BD;

/// The pattern of 1e-4: what lets less through in every band stops a ray on
/// its way to a surface; and the least distance between two stands.
pub const SLIGHT: u32 = 0x38D1_B717;

/// The pattern of 1e-9: a direction this flat never meets the plane.
pub const GRAZING: u32 = 0x3089_705F;

/// The pattern of 2e-2: how far off the plane a mesh hit may be.
pub const ON_SURFACE: u32 = 0x3CA3_D70A;

/// The pattern of 0.1: how far off the bounce point a crossing may be.
pub const AT_BOUNCE: u32 = 0x3DCC_CCCD;

/// The pattern of 0.05: a crossing this near the far end is the reflecting
/// surface itself.
pub const AT_END: u32 = 0x3D4C_CCCD;

/// The pattern of 0.995: the last leg must continue the reflection.
pub const CONTINUES: u32 = 0x3F7E_B852;

/// The pattern of 200.0: rays go no further.
pub const TOO_FAR: u32 = 0x4348_0000;

/// The pattern of -1e-4.
pub const P_MINUS_1EMINUS_4: u32 = 0xB8D1_B717;

/// The pattern of 1e-3.
pub const P_1E_MINUS_3: u32 = 0x3A83_126F;

/// A chain: surfaces in listener-first order, and how many.
pub type MChain = ([u16; 3], u8);

/// One authored plane of the world.
#[derive(Clone, Copy, Debug)]
pub struct Surface {
    pub n: Point,
    pub d: Single,
    pub refl: [Single; 3],
    pub trans: [Single; 3],
    /// The face of an overlay box, which has no triangles of its own.
    pub rect: Option<(Point, Point)>,
}

/// Per-surface plane and material table.
#[derive(Debug)]
pub struct SurfaceTable {
    pub surfaces: Vec<Surface>,
    /// First overlay face; everything before it is authored mesh.
    pub base_overlay: u16,
}

/// A surface that no triangle has filled in yet.
pub open spec fn blank() -> Surface {
    Surface {
        n: [Single(0), Single(0), Single(ONE)],
        d: Single(FARTHEST),
        refl: [Single(0), Single(0), Single(0)],
        trans: [Single(0), Single(0), Single(0)],
        rect: None,
    }
}

fn blank_surface() -> (r: Surface)
    ensures
        r == blank(),
{
    Surface {
        n: [Single(0), Single(0), Single(ONE)],
        d: Single(FARTHEST),
        refl: [Single(0), Single(0), Single(0)],
        trans: [Single(0), Single(0), Single(0)],
        rect: None,
    }
}

/// The table grown to hold surface `sid`.
pub open spec fn grown(s: Seq<Surface>, sid: int) -> Seq<Surface> {
    if sid >= s.len() {
        s + Seq::new((sid + 1 - s.len()) as nat, |i: int| blank())
    } else {
        s
    }
}

/// The surface that a triangle spans.
pub open spec fn spanned(f: Calc, parts: MeshParts, t: int) -> Surface {
    let n = parts.normal(f, t as u32);
    let m = parts.materials@[parts.tri_material@[t] as int];
    Surface {
        n,
        d: dot(f, n, parts.positions@[parts.indices@[t]@[0] as int]),
        refl: m.reflecting(f),
        trans: m.transmission,
        rect: None,
    }
}

/// The table after the first `n` triangles: each fills its surface in where
/// that is still blank.
pub open spec fn table_of(f: Calc, parts: MeshParts, tri_surface: Seq<u16>, n: int) -> Seq<Surface>
    decreases n,
{
    if n <= 0 {
        Seq::empty()
    } else {
        let sid = tri_surface[n - 1] as int;
        let s = grown(table_of(f, parts, tri_surface, n - 1), sid);
        if s[sid].d == Single(FARTHEST) {
            s.update(sid, spanned(f, parts, n - 1))
        } else {
            s
        }
    }
}

/// The six faces of a box, in the order x low, x high, y low, and so on.
pub open spec fn box_face(f: Calc, lo: Point, hi: Point, m: Material, face: int) -> Surface {
    let axis = face / 2;
    let low = face % 2 == 0;
    let v = if low { Single(MINUS_ONE) } else { Single(ONE) };
    let n = along_axis(axis, v);
    let plane = if low { lo@[axis] } else { hi@[axis] };
    Surface {
        n,
        d: dot(f, n, if low { lo } else { hi }),
        refl: m.reflecting(f),
        trans: m.transmission,
        rect: Some((at_plane(lo, axis, plane), at_plane(hi, axis, plane))),
    }
}

/// The point moved onto a plane across one axis.
pub open spec fn at_plane(p: Point, axis: int, plane: Single) -> Point {
    if axis == 0 {
        [plane, p@[1], p@[2]]
    } else if axis == 1 {
        [p@[0], plane, p@[2]]
    } else {
        [p@[0], p@[1], plane]
    }
}

fn move_to_plane(p: Point, axis: usize, plane: Single) -> (r: Point)
    ensures
        r == at_plane(p, axis as int, plane),
{
    if axis == 0 {
        [plane, p[1], p[2]]
    } else if axis == 1 {
        [p[0], plane, p[2]]
    } else {
        [p[0], p[1], plane]
    }
}

impl SurfaceTable {
    /// The table of a mesh whose triangles belong to the surfaces
    /// `tri_surface`.
    pub fn build<F: Fn(Op) -> Single>(f: &F, mesh: &Mesh, tri_surface: &Vec<u16>) -> (r: Self)
        requires
            is_steady(*f),
            mesh.parts.is_sound(),
            mesh.parts.is_dressed(),
            tri_surface@.len() == mesh.parts.indices@.len(),
            tri_surface@.len() <= u32::MAX,
        ensures
            r.surfaces@ == table_of(
                answering(*f),
                mesh.parts,
                tri_surface@,
                tri_surface@.len() as int,
            ),
            r.base_overlay == r.surfaces@.len() % 0x1_0000,
    {
        let ghost g = answering(*f);
        let parts: &MeshParts = &mesh.parts;
        let mut surfaces: Vec<Surface> = Vec::new();
        let mut t: usize = 0;
        while t < tri_surface.len()
            invariant
                t <= tri_surface@.len() <= u32::MAX,
                is_steady(*f),
                g == answering(*f),
                parts.is_sound(),
                parts.is_dressed(),
                tri_surface@.len() == parts.indices@.len(),
                surfaces@ == table_of(g, *parts, tri_surface@, t as int),
            decreases tri_surface@.len() - t,
        {
            let ghost before = surfaces@;
            let sid: usize = tri_surface[t] as usize;
            while surfaces.len() <= sid
                invariant
                    before.len() <= surfaces@.len(),
                    surfaces@.len() > before.len() ==> surfaces@.len() <= sid + 1,
                    forall|i: int| 0 <= i < before.len() ==> #[trigger] surfaces@[i] == before[i],
                    forall|i: int| before.len() <= i < surfaces@.len() ==> #[trigger] surfaces@[i] == blank(),
                decreases sid + 1 - surfaces@.len(),
            {
                surfaces.push(blank_surface());
            }
            assert(surfaces@ =~= grown(before, sid as int));
            if surfaces[sid].d == Single(FARTHEST) {
                let n: Point = parts.tri_normal(f, t as u32);
                assert(parts.indices@[t as int]@[0] < parts.positions@.len());
                let p: Point = parts.positions[parts.indices[t][0] as usize];
                assert(parts.tri_material@[t as int] < parts.materials@.len());
                let m: Material = parts.materials[parts.tri_material[t] as usize];
                let s: Surface = Surface {
                    n,
                    d: dot_of(f, n, p),
                    refl: m.reflection_amplitude(f),
                    trans: m.transmission,
                    rect: None,
                };
                assert(s == spanned(g, *parts, t as int));
                surfaces.set(sid, s);
            }
            t = t + 1;
        }
        let n: usize = surfaces.len();
        assert((n as u16) == n % 0x1_0000) by (bit_vector);
        Self { surfaces, base_overlay: n as u16 }
    }

    /// Append the six faces of an overlay box as rect-bounded surfaces of the
    /// box's material.
    pub fn append_box<F: Fn(Op) -> Single>(&mut self, f: &F, lo: Point, hi: Point, m: &Material)
        requires
            is_steady(*f),
        ensures
            final(self).base_overlay == old(self).base_overlay,
            final(self).surfaces@ == old(self).surfaces@ + Seq::new(
                6,
                |face: int| box_face(answering(*f), lo, hi, *m, face),
            ),
    {
        let ghost g = answering(*f);
        let ghost base = self.surfaces@;
        let mut face: usize = 0;
        while face < 6
            invariant
                face <= 6,
                is_steady(*f),
                g == answering(*f),
                self.base_overlay == old(self).base_overlay,
                self.surfaces@ == base + Seq::new(
                    face as nat,
                    |i: int| box_face(g, lo, hi, *m, i),
                ),
            decreases 6 - face,
        {
            let axis: usize = face / 2;
            let low: bool = face % 2 == 0;
            let v: Single = if low { Single(MINUS_ONE) } else { Single(ONE) };
            let n: Point = on_axis(axis, v);
            let plane: Single = if low { lo[axis] } else { hi[axis] };
            let at: Point = if low { lo } else { hi };
            let s: Surface = Surface {
                n,
                d: dot_of(f, n, at),
                refl: m.reflection_amplitude(f),
                trans: m.transmission,
                rect: Some((move_to_plane(lo, axis, plane), move_to_plane(hi, axis, plane))),
            };
            assert(s == box_face(g, lo, hi, *m, face as int));
            self.surfaces.push(s);
            face = face + 1;
            assert(self.surfaces@ =~= base + Seq::new(
                face as nat,
                |i: int| box_face(g, lo, hi, *m, i),
            ));
        }
        assert(self.surfaces@ =~= base + Seq::new(
            6,
            |face: int| box_face(answering(*f), lo, hi, *m, face),
        ));
    }
}

/// A solved world path.
#[derive(Clone, Copy, Debug)]
pub struct MeshRecord {
    pub source: u16,
    pub chain: [u16; 3],
    pub order: u8,
    pub delay_s: Single,
    pub dir: [Single; 3],
    pub gains: [Single; 3],
}

/// The hash prime.
pub const HASH_PRIME: u32 = 16_777_619;

/// The hash of a source and the first `n` surfaces of a chain.
pub open spec fn hashed(source: u16, chain: Seq<u16>, n: int) -> u32
    decreases n,
{
    if n <= 0 {
        0x811C_9DC5u32 ^ source as u32
    } else {
        (hashed(source, chain, n - 1) ^ chain[n - 1] as u32).wrapping_mul(HASH_PRIME)
    }
}

impl MeshRecord {
    /// Stable identity: a hash over source and surfaces.
    pub fn key(&self) -> (h: u32)
        requires
            self.order <= M_MAX_ORDER,
        ensures
            h == (hashed(self.source, self.chain@, self.order as int) ^ 0xA5u32).wrapping_mul(
                HASH_PRIME,
            ),
    {
        let mut h: u32 = 0x811C_9DC5u32 ^ self.source as u32;
        let mut i: usize = 0;
        while i < self.order as usize
            invariant
                i <= self.order <= 3,
                h == hashed(self.source, self.chain@, i as int),
            decreases 3 - i,
        {
            h = (h ^ self.chain[i] as u32).wrapping_mul(HASH_PRIME);
            i = i + 1;
        }
        (h ^ 0xA5u32).wrapping_mul(HASH_PRIME)
    }
}

/// No band reaches `floor`.
pub open spec fn all_below(g: [Single; 3], floor: Single) -> bool {
    g@[0].below(floor) && g@[1].below(floor) && g@[2].below(floor)
}

fn are_below(g: &[Single; 3], floor: Single) -> (r: bool)
    ensures
        r == all_below(*g, floor),
{
    g[0].lt(floor) && g[1].lt(floor) && g[2].lt(floor)
}

/// A transient blocker that the mesh does not carry: a box and what it lets
/// through, band by band.
#[derive(Clone, Copy, Debug)]
pub struct Aabb {
    pub min: Point,
    pub max: Point,
    pub transmission: [Single; 3],
}

impl Aabb {
    /// The segment from `a` to `b` passes through the box.
    pub open spec fn is_crossed(self, f: Calc, a: Point, b: Point) -> bool {
        !slab_test(
            f,
            a,
            vdiff(f, b, a),
            self.min,
            self.max,
            Slab { t0: Single(0), t1: Single(ONE), axis: 3, missed: false },
        ).missed
    }

    /// Whether the segment from `a` to `b` passes through the box.
    pub fn clip<F: Fn(Op) -> Single>(&self, f: &F, a: Point, b: Point) -> (r: bool)
        requires
            is_steady(*f),
        ensures
            r == self.is_crossed(answering(*f), a, b),
    {
        let s: Slab = test_slab(
            f,
            a,
            vminus(f, b, a),
            self.min,
            self.max,
            Slab { t0: Single(0), t1: Single(ONE), axis: 3, missed: false },
        );
        !s.missed
    }
}

/// One leg of a path.
#[derive(Clone, Copy, Debug)]
pub struct Leg {
    pub a: Point,
    pub b: Point,
}

/// The world as a chain is held to it: the mesh, the surface that each of its
/// triangles belongs to, the table of surfaces, and the blockers.
#[derive(Debug)]
pub struct World<'a> {
    pub mesh: &'a Mesh,
    pub tri_surface: &'a Vec<u16>,
    pub table: &'a SurfaceTable,
    pub extras: &'a Vec<Aabb>,
}

impl<'a> World<'a> {
    pub open spec fn wf(self) -> bool {
        &&& self.mesh.wf()
        &&& self.mesh.parts.is_dressed()
        &&& self.tri_surface@.len() == self.mesh.parts.indices@.len()
    }

    /// What the triangle's material lets through.
    pub open spec fn passes(self, tri: u32) -> [Single; 3] {
        self.mesh.parts.materials@[self.mesh.parts.tri_material@[tri as int] as int].transmission
    }

    fn let_through(&self, tri: u32) -> (r: [Single; 3])
        requires
            self.wf(),
            tri < self.tri_surface@.len(),
        ensures
            r == self.passes(tri),
    {
        let m: u16 = self.mesh.parts.tri_material[tri as usize];
        assert(self.mesh.parts.tri_material@[tri as int] < self.mesh.parts.materials@.len());
        self.mesh.parts.materials[m as usize].transmission
    }
}

/// The amplitudes dimmed; nothing where too little is left in every band.
pub open spec fn paid(f: Calc, g: Option<[Single; 3]>, tr: [Single; 3]) -> Option<[Single; 3]> {
    match g {
        None => None,
        Some(g) => {
            let r = dimmed(f, g, tr);
            if all_below(r, Single(OPAQUE)) {
                None
            } else {
                Some(r)
            }
        },
    }
}

/// How far a share of a leg is from its far end.
pub open spec fn from_end(f: Calc, leg: Leg, t: Single) -> Single {
    prod(f, size(diff(f, t, Single(ONE))), greater(distance(f, leg.b, leg.a), Single(OPAQUE)))
}

/// The crossing is the reflecting surface itself, at the end of the leg.
pub open spec fn is_mirror_itself(f: Calc, w: World, skip: Option<u16>, leg: Leg, h: SegHit) -> bool {
    skip matches Some(sid) && w.tri_surface@[h.tri as int] == sid && from_end(f, leg, h.t).below(
        Single(AT_END),
    )
}

/// What is left behind the first `n` crossings.
pub open spec fn past_crossings(
    f: Calc,
    w: World,
    skip: Option<u16>,
    leg: Leg,
    hits: Seq<SegHit>,
    start: [Single; 3],
    n: int,
) -> Option<[Single; 3]>
    decreases n,
{
    if n <= 0 {
        Some(start)
    } else {
        let before = past_crossings(f, w, skip, leg, hits, start, n - 1);
        if is_mirror_itself(f, w, skip, leg, hits[n - 1]) {
            before
        } else {
            paid(f, before, w.mesh.parts.materials@[hits[n - 1].material as int].transmission)
        }
    }
}

/// What is left behind the first `n` blockers.
pub open spec fn past_extras(
    f: Calc,
    extras: Seq<Aabb>,
    leg: Leg,
    start: Option<[Single; 3]>,
    n: int,
) -> Option<[Single; 3]>
    decreases n,
{
    if n <= 0 {
        start
    } else {
        let before = past_extras(f, extras, leg, start, n - 1);
        if extras[n - 1].is_crossed(f, leg.a, leg.b) {
            paid(f, before, extras[n - 1].transmission)
        } else {
            before
        }
    }
}

/// What is left behind a leg: every surface it crosses and every blocker it
/// passes through takes its share, but for the reflecting surface at its end.
pub open spec fn past_leg(f: Calc, w: World, skip: Option<u16>, leg: Leg, start: [Single; 3]) -> Option<
    [Single; 3],
> {
    let hits = w.mesh.crossed(f, leg.a, leg.b);
    past_extras(
        f,
        w.extras@,
        leg,
        past_crossings(f, w, skip, leg, hits, start, hits.len() as int),
        w.extras@.len() as int,
    )
}

/// The crossings are of triangles and materials of the mesh.
pub open spec fn are_of_mesh(mesh: Mesh, hits: Seq<SegHit>) -> bool {
    forall|i: int|
        0 <= i < hits.len() ==> (#[trigger] hits[i]).tri < mesh.parts.indices@.len()
            && hits[i].material < mesh.parts.materials@.len()
}

fn cross_mesh<F: Fn(Op) -> Single>(f: &F, mesh: &Mesh, a: Point, b: Point) -> (hits: Vec<SegHit>)
    requires
        is_steady(*f),
        mesh.wf(),
        mesh.parts.is_dressed(),
    ensures
        hits@ == mesh.crossed(answering(*f), a, b),
        are_of_mesh(*mesh, hits@),
{
    let mut hits: Vec<SegHit> = Vec::new();
    mesh.segment_hits(f, a, b, &mut hits);
    assert forall|i: int| 0 <= i < hits@.len() implies (#[trigger] hits@[i]).tri
        < mesh.parts.indices@.len() && hits@[i].material < mesh.parts.materials@.len() by {
        assert(mesh.parts.tri_material@[hits@[i].tri as int] < mesh.parts.materials@.len());
    }
    hits
}

proof fn lemma_crossings_stay_none(
    f: Calc,
    w: World,
    skip: Option<u16>,
    leg: Leg,
    hits: Seq<SegHit>,
    start: [Single; 3],
    n: int,
    m: int,
)
    requires
        n <= m,
        past_crossings(f, w, skip, leg, hits, start, n) is None,
    ensures
        past_crossings(f, w, skip, leg, hits, start, m) is None,
    decreases m - n,
{
    if n < m {
        lemma_crossings_stay_none(f, w, skip, leg, hits, start, n, m - 1);
    }
}

proof fn lemma_extras_stay_none(
    f: Calc,
    extras: Seq<Aabb>,
    leg: Leg,
    start: Option<[Single; 3]>,
    n: int,
    m: int,
)
    requires
        n <= m,
        past_extras(f, extras, leg, start, n) is None,
    ensures
        past_extras(f, extras, leg, start, m) is None,
    decreases m - n,
{
    if n < m {
        lemma_extras_stay_none(f, extras, leg, start, n, m - 1);
    }
}

/// Pay for a leg: what is left of the amplitudes at its far end. Crossings of
/// the surface `skip` at the far end are free.
#[verifier::loop_isolation(false)]
pub fn leg_transmission<F: Fn(Op) -> Single>(
    f: &F,
    w: &World,
    skip: Option<u16>,
    leg: Leg,
    start: [Single; 3],
) -> (r: Option<[Single; 3]>)
    requires
        is_steady(*f),
        w.wf(),
    ensures
        r == past_leg(answering(*f), *w, skip, leg, start),
{
    let ghost c = answering(*f);
    let hits: Vec<SegHit> = cross_mesh(f, w.mesh, leg.a, leg.b);
    let len: Single = greater_of(distance_of(f, leg.b, leg.a), Single(OPAQUE));
    let mut g: [Single; 3] = start;
    let mut n: usize = 0;
    while n < hits.len()
        invariant
            n <= hits@.len(),
            Some(g) == past_crossings(c, *w, skip, leg, hits@, start, n as int),
        decreases hits@.len() - n,
    {
        let h: SegHit = hits[n];
        assert(hits@[n as int].tri < w.tri_surface@.len());
        let same: bool = match skip {
            None => false,
            Some(sid) => {
                let e: Single = times(f, minus(f, h.t, Single(ONE)).abs(), len);
                w.tri_surface[h.tri as usize] == sid && e.lt(Single(AT_END))
            },
        };
        assert(same == is_mirror_itself(c, *w, skip, leg, h));
        if !same {
            g = dim(f, g, w.mesh.parts.materials[h.material as usize].transmission);
            if are_below(&g, Single(OPAQUE)) {
                proof {
                    lemma_crossings_stay_none(
                        c,
                        *w,
                        skip,
                        leg,
                        hits@,
                        start,
                        n + 1,
                        hits@.len() as int,
                    );
                    lemma_extras_stay_none(c, w.extras@, leg, None, 0, w.extras@.len() as int);
                }
                return None;
            }
        }
        n = n + 1;
    }
    let ghost left = Some(g);
    let mut n: usize = 0;
    while n < w.extras.len()
        invariant
            n <= w.extras@.len(),
            Some(g) == past_extras(c, w.extras@, leg, left, n as int),
        decreases w.extras@.len() - n,
    {
        if w.extras[n].clip(f, leg.a, leg.b) {
            g = dim(f, g, w.extras[n].transmission);
            if are_below(&g, Single(OPAQUE)) {
                proof {
                    lemma_extras_stay_none(
                        c,
                        w.extras@,
                        leg,
                        left,
                        n + 1,
                        w.extras@.len() as int,
                    );
                }
                return None;
            }
        }
        n = n + 1;
    }
    Some(g)
}

/// The way to a surface plane.
#[derive(Clone, Copy, Debug)]
pub struct SurfLeg {
    /// The direction's share across the plane.
    pub denom: Single,
    /// Distance along the direction.
    pub t: Single,
    /// The distance less a millimetre.
    pub shy: Single,
    /// The point on the plane.
    pub hit: Point,
    /// A point a little behind it.
    pub onward: Point,
    /// The direction behind the reflection.
    pub turned: Point,
    /// Where the path goes on behind the reflection, a little off the plane.
    pub off: Point,
}

pub open spec fn surf_leg(f: Calc, at: Stand, s: Surface) -> SurfLeg {
    let denom = dot(f, s.n, at.d);
    let t = quot(f, diff(f, s.d, dot(f, s.n, at.pos)), denom);
    let hit = along(f, at.pos, at.d, t);
    let side = if denom.below(Single(0)) { Single(SLIGHT) } else { Single(P_MINUS_1EMINUS_4) };
    SurfLeg {
        denom,
        t,
        shy: diff(f, t, Single(P_1E_MINUS_3)),
        hit,
        onward: along(f, hit, at.d, Single(AT_END)),
        turned: vdiff(f, at.d, vscaled(f, s.n, prod(f, Single(TWO), denom))),
        off: along(f, hit, s.n, side),
    }
}

fn find_surf_leg<F: Fn(Op) -> Single>(f: &F, at: &Stand, s: &Surface) -> (r: SurfLeg)
    requires
        is_steady(*f),
    ensures
        r == surf_leg(answering(*f), *at, *s),
{
    let denom: Single = dot_of(f, s.n, at.d);
    let t: Single = over(f, minus(f, s.d, dot_of(f, s.n, at.pos)), denom);
    let hit: Point = go_along(f, at.pos, at.d, t);
    let side: Single = if denom.lt(Single(0)) { Single(SLIGHT) } else { Single(P_MINUS_1EMINUS_4) };
    SurfLeg {
        denom,
        t,
        shy: minus(f, t, Single(P_1E_MINUS_3)),
        hit,
        onward: go_along(f, hit, at.d, Single(AT_END)),
        turned: vminus(f, at.d, vscale(f, s.n, times(f, Single(TWO), denom))),
        off: go_along(f, hit, s.n, side),
    }
}

/// A point mirrored in a surface.
pub open spec fn in_surface(f: Calc, p: Point, s: Surface) -> Point {
    vdiff(f, p, vscaled(f, s.n, prod(f, Single(TWO), diff(f, dot(f, s.n, p), s.d))))
}

fn mirror_in<F: Fn(Op) -> Single>(f: &F, p: Point, s: &Surface) -> (r: Point)
    requires
        is_steady(*f),
    ensures
        r == in_surface(answering(*f), p, *s),
{
    let k: Single = times(f, Single(TWO), minus(f, dot_of(f, s.n, p), s.d));
    vminus(f, p, vscale(f, s.n, k))
}

/// The nearest mesh hit a little ahead of a stand.
pub open spec fn ahead(f: Calc, w: World, at: Stand) -> Option<(Single, u32)> {
    w.mesh.cast(f, along(f, at.pos, at.d, Single(SLIGHT)), at.d)
}

/// The rectangle of an overlay face, a millimetre wider.
pub open spec fn widened(f: Calc, rect: (Point, Point)) -> (Point, Point) {
    (
        [
            diff(f, rect.0@[0], Single(P_1E_MINUS_3)),
            diff(f, rect.0@[1], Single(P_1E_MINUS_3)),
            diff(f, rect.0@[2], Single(P_1E_MINUS_3)),
        ],
        [
            sum(f, rect.1@[0], Single(P_1E_MINUS_3)),
            sum(f, rect.1@[1], Single(P_1E_MINUS_3)),
            sum(f, rect.1@[2], Single(P_1E_MINUS_3)),
        ],
    )
}

fn widen<F: Fn(Op) -> Single>(f: &F, rect: (Point, Point)) -> (r: (Point, Point))
    requires
        is_steady(*f),
    ensures
        r == widened(answering(*f), rect),
{
    let lo: Point = [
        minus(f, rect.0[0], Single(P_1E_MINUS_3)),
        minus(f, rect.0[1], Single(P_1E_MINUS_3)),
        minus(f, rect.0[2], Single(P_1E_MINUS_3)),
    ];
    let hi: Point = [
        plus(f, rect.1[0], Single(P_1E_MINUS_3)),
        plus(f, rect.1[1], Single(P_1E_MINUS_3)),
        plus(f, rect.1[2], Single(P_1E_MINUS_3)),
    ];
    assert(lo@ =~= widened(answering(*f), rect).0@);
    assert(hi@ =~= widened(answering(*f), rect).1@);
    (lo, hi)
}

/// The point lies in the rectangle.
pub open spec fn in_rect(p: Point, rect: (Point, Point)) -> bool {
    forall|a: int|
        0 <= a < 3 ==> !(#[trigger] p@[a]).below(rect.0@[a]) && !rect.1@[a].below(p@[a])
}

fn is_in_rect(p: &Point, lo: &Point, hi: &Point) -> (r: bool)
    ensures
        r == in_rect(*p, (*lo, *hi)),
{
    let mut a: usize = 0;
    while a < 3
        invariant
            a <= 3,
            forall|j: int|
                0 <= j < a ==> !(#[trigger] p@[j]).below(lo@[j]) && !hi@[j].below(p@[j]),
        decreases 3 - a,
    {
        if p[a].lt(lo[a]) || hi[a].lt(p[a]) {
            assert(p@[a as int].below(lo@[a as int]) || hi@[a as int].below(p@[a as int]));
            return false;
        }
        a = a + 1;
    }
    true
}

/// A crossing of the surface stands at the bounce point: `t` of a crossing is
/// its share of the way to a little behind the plane.
pub open spec fn is_at_bounce(f: Calc, w: World, h: SegHit, sid: u16, t: Single) -> bool {
    w.tri_surface@[h.tri as int] == sid && size(
        diff(f, prod(f, h.t, sum(f, t, Single(AT_END))), t),
    ).below(Single(AT_BOUNCE))
}

/// Some crossing of the surface stands at the bounce point.
pub open spec fn stands_there(f: Calc, w: World, hits: Seq<SegHit>, sid: u16, t: Single) -> bool {
    exists|i: int| 0 <= i < hits.len() && is_at_bounce(f, w, #[trigger] hits[i], sid, t)
}

/// The reflection point stands on real surface: inside an overlay face that no
/// opaque mesh hides, or on mesh of this surface, which may stand behind
/// something that lets sound through but must exist at the bounce point.
pub open spec fn reflects(f: Calc, w: World, at: Stand, sid: u16, leg: SurfLeg) -> bool {
    match w.table.surfaces@[sid as int].rect {
        Some(rect) => {
            &&& in_rect(leg.hit, widened(f, rect))
            &&& ahead(f, w, at) matches Some(h) ==> !(h.0.below(leg.shy) && all_below(
                w.passes(h.1),
                Single(OPAQUE),
            ))
        },
        None => match ahead(f, w, at) {
            None => false,
            Some(h) => {
                ||| w.tri_surface@[h.1 as int] == sid && size(diff(f, h.0, leg.t)).below(
                    Single(ON_SURFACE),
                )
                ||| {
                    &&& h.0.below(leg.shy)
                    &&& !all_below(w.passes(h.1), Single(SLIGHT))
                    &&& stands_there(f, w, w.mesh.crossed(f, at.pos, leg.onward), sid, leg.t)
                }
            },
        },
    }
}

/// A walk under way: where it stands and what is left of the amplitudes.
#[derive(Clone, Copy, Debug)]
pub struct Way {
    pub at: Stand,
    pub g: [Single; 3],
}

/// The walk over one more surface; nothing where it fails.
pub open spec fn bounced(f: Calc, w: World, way: Way, sid: u16) -> Option<Way> {
    let leg = surf_leg(f, way.at, w.table.surfaces@[sid as int]);
    if sid >= w.table.surfaces@.len() || size(leg.denom).below(Single(GRAZING)) || leg.t.at_most(
        Single(SLIGHT),
    ) || !reflects(f, w, way.at, sid, leg) {
        None
    } else {
        match past_leg(f, w, Some(sid), Leg { a: way.at.pos, b: leg.hit }, way.g) {
            None => None,
            Some(g) => Some(
                Way {
                    at: Stand { pos: leg.off, d: leg.turned },
                    g: dimmed(f, g, w.table.surfaces@[sid as int].refl),
                },
            ),
        }
    }
}

/// The walk over the first `n` surfaces of the chain.
pub open spec fn walked(f: Calc, w: World, start: Way, chain: Seq<u16>, n: int) -> Option<Way>
    decreases n,
{
    if n <= 0 {
        Some(start)
    } else {
        match walked(f, w, start, chain, n - 1) {
            None => None,
            Some(way) => bounced(f, w, way, chain[n - 1]),
        }
    }
}

proof fn lemma_walk_fails(f: Calc, w: World, start: Way, chain: Seq<u16>, n: int, m: int)
    requires
        n <= m,
        walked(f, w, start, chain, n) is None,
    ensures
        walked(f, w, start, chain, m) is None,
    decreases m - n,
{
    if n < m {
        lemma_walk_fails(f, w, start, chain, n, m - 1);
    }
}

/// The image of the source in the surfaces from the listener's on, the last
/// applied first; nothing where a surface is unknown.
pub open spec fn image_in(f: Calc, surfaces: Seq<Surface>, source: Point, chain: Seq<u16>) -> Option<
    Point,
>
    decreases chain.len(),
{
    if chain.len() == 0 {
        Some(source)
    } else {
        match image_in(f, surfaces, source, chain.drop_first()) {
            None => None,
            Some(p) => if chain[0] < surfaces.len() {
                Some(in_surface(f, p, surfaces[chain[0] as int]))
            } else {
                None
            },
        }
    }
}

#[verifier::loop_isolation(false)]
fn find_image<F: Fn(Op) -> Single>(f: &F, surfaces: &Vec<Surface>, source: Point, chain: &[u16]) -> (r:
    Option<Point>)
    requires
        is_steady(*f),
    ensures
        r == image_in(answering(*f), surfaces@, source, chain@),
{
    let ghost g = answering(*f);
    let mut img: Point = source;
    let mut k: usize = chain.len();
    assert(chain@.skip(k as int) =~= Seq::empty());
    while k > 0
        invariant
            k <= chain@.len(),
            Some(img) == image_in(g, surfaces@, source, chain@.skip(k as int)),
        decreases k,
    {
        k = k - 1;
        assert(chain@.skip(k as int).drop_first() =~= chain@.skip(k + 1));
        assert(chain@.skip(k as int)[0] == chain@[k as int]);
        let sid: u16 = chain[k];
        if sid as usize >= surfaces.len() {
            proof {
                lemma_image_fails(g, surfaces@, source, chain@, k as int);
            }
            return None;
        }
        img = mirror_in(f, img, &surfaces[sid as usize]);
    }
    assert(chain@.skip(0) =~= chain@);
    Some(img)
}

/// The way from the listener to the image: its length, and its direction.
pub open spec fn sight(f: Calc, img: Point, listener: Point) -> (Single, Point) {
    let to = vdiff(f, img, listener);
    let dist = norm(f, to);
    (dist, vscaled(f, to, quot(f, Single(ONE), dist)))
}

fn see<F: Fn(Op) -> Single>(f: &F, img: Point, listener: Point) -> (r: (Single, Point))
    requires
        is_steady(*f),
    ensures
        r == sight(answering(*f), img, listener),
{
    let to: Point = vminus(f, img, listener);
    let dist: Single = norm_of(f, to);
    (dist, vscale(f, to, over(f, Single(ONE), dist)))
}

/// The chain in three slots.
pub open spec fn surf_slots(chain: Seq<u16>) -> [u16; 3] {
    [
        if chain.len() > 0 { chain[0] } else { NO_SURF },
        if chain.len() > 1 { chain[1] } else { NO_SURF },
        if chain.len() > 2 { chain[2] } else { NO_SURF },
    ]
}

/// Full amplitude in every band.
pub open spec fn full() -> [Single; 3] {
    [Single(ONE), Single(ONE), Single(ONE)]
}

/// The product of the distances of two points to a surface, each negative
/// behind it.
pub open spec fn sides(f: Calc, s: Surface, p: Point, q: Point) -> Single {
    prod(f, diff(f, dot(f, s.n, p), s.d), diff(f, dot(f, s.n, q), s.d))
}

/// What is left where the walk meets the source: it must lie on the reflected
/// side of the last mirror, the last leg is paid for, and it must continue the
/// reflection.
pub open spec fn arrived(f: Calc, w: World, way: Way, chain: Seq<u16>, source: Point) -> Option<
    [Single; 3],
> {
    let (leg, dir) = sight(f, source, way.at.pos);
    if chain.len() > 0 && sides(
        f,
        w.table.surfaces@[chain.last() as int],
        way.at.pos,
        source,
    ).below(Single(0)) {
        None
    } else if chain.len() > 0 && Single(SLIGHT).below(leg) && dot(f, dir, way.at.d).below(
        Single(CONTINUES),
    ) {
        None
    } else {
        past_leg(f, w, None, Leg { a: way.at.pos, b: source }, way.g)
    }
}

/// The record of a chain over the mesh; nothing where the world does not
/// support it or nothing audible is left.
pub open spec fn mesh_recorded(
    f: Calc,
    w: World,
    chain: Seq<u16>,
    source: u16,
    src_pos: Point,
    listener: Point,
) -> Option<MeshRecord> {
    match image_in(f, w.table.surfaces@, src_pos, chain) {
        None => None,
        Some(img) => {
            let (dist, dir) = sight(f, img, listener);
            let start = Way { at: Stand { pos: listener, d: dir }, g: full() };
            if dist.below(Single(SLIGHT)) {
                None
            } else {
                match walked(f, w, start, chain, chain.len() as int) {
                    None => None,
                    Some(way) => match arrived(f, w, way, chain, src_pos) {
                        None => None,
                        Some(g) => {
                            let gains = dimmed(f, spread_over(f, greater(dist, Single(MIN_DIST))), g);
                            if all_below(gains, Single(AUDIBLE_FLOOR)) {
                                None
                            } else {
                                Some(
                                    MeshRecord {
                                        source,
                                        chain: surf_slots(chain),
                                        order: chain.len() as u8,
                                        delay_s: quot(f, dist, Single(SPEED_OF_SOUND)),
                                        dir,
                                        gains,
                                    },
                                )
                            }
                        },
                    },
                }
            }
        },
    }
}

fn holds_there<F: Fn(Op) -> Single>(f: &F, w: &World, hits: &Vec<SegHit>, sid: u16, t: Single) -> (r:
    bool)
    requires
        is_steady(*f),
        w.wf(),
        are_of_mesh(*w.mesh, hits@),
    ensures
        r == stands_there(answering(*f), *w, hits@, sid, t),
{
    let ghost g = answering(*f);
    let reach: Single = plus(f, t, Single(AT_END));
    let mut i: usize = 0;
    while i < hits.len()
        invariant
            i <= hits@.len(),
            is_steady(*f),
            g == answering(*f),
            w.wf(),
            reach == sum(g, t, Single(AT_END)),
            are_of_mesh(*w.mesh, hits@),
            forall|j: int| 0 <= j < i ==> !is_at_bounce(g, *w, #[trigger] hits@[j], sid, t),
        decreases hits@.len() - i,
    {
        let h: SegHit = hits[i];
        assert(hits@[i as int].tri < w.tri_surface@.len());
        let off: Single = minus(f, times(f, h.t, reach), t);
        if w.tri_surface[h.tri as usize] == sid && off.abs().lt(Single(AT_BOUNCE)) {
            assert(is_at_bounce(g, *w, hits@[i as int], sid, t));
            return true;
        }
        i = i + 1;
    }
    false
}

fn can_reflect<F: Fn(Op) -> Single>(f: &F, w: &World, at: &Stand, sid: u16, leg: &SurfLeg) -> (r: bool)
    requires
        is_steady(*f),
        w.wf(),
        sid < w.table.surfaces@.len(),
    ensures
        r == reflects(answering(*f), *w, *at, sid, *leg),
{
    let ray: Option<(Single, u32)> = w.mesh.raycast(
        f,
        go_along(f, at.pos, at.d, Single(SLIGHT)),
        at.d,
    );
    match w.table.surfaces[sid as usize].rect {
        Some(rect) => {
            let wide: (Point, Point) = widen(f, rect);
            if !is_in_rect(&leg.hit, &wide.0, &wide.1) {
                return false;
            }
            match ray {
                None => true,
                Some((rt, tri)) => {
                    let tr: [Single; 3] = w.let_through(tri);
                    !(rt.lt(leg.shy) && are_below(&tr, Single(OPAQUE)))
                },
            }
        },
        None => match ray {
            None => false,
            Some((rt, tri)) => {
                let off: Single = minus(f, rt, leg.t);
                if w.tri_surface[tri as usize] == sid && off.abs().lt(Single(ON_SURFACE)) {
                    return true;
                }
                if !rt.lt(leg.shy) {
                    return false;
                }
                let tr: [Single; 3] = w.let_through(tri);
                if are_below(&tr, Single(SLIGHT)) {
                    return false;
                }
                let hits: Vec<SegHit> = cross_mesh(f, w.mesh, at.pos, leg.onward);
                holds_there(f, w, &hits, sid, leg.t)
            },
        },
    }
}

fn bounce_on<F: Fn(Op) -> Single>(f: &F, w: &World, way: Way, sid: u16) -> (r: Option<Way>)
    requires
        is_steady(*f),
        w.wf(),
    ensures
        r == bounced(answering(*f), *w, way, sid),
{
    if sid as usize >= w.table.surfaces.len() {
        return None;
    }
    let leg: SurfLeg = find_surf_leg(f, &way.at, &w.table.surfaces[sid as usize]);
    if leg.denom.abs().lt(Single(GRAZING)) || leg.t.le(Single(SLIGHT)) {
        return None;
    }
    if !can_reflect(f, w, &way.at, sid, &leg) {
        return None;
    }
    match leg_transmission(f, w, Some(sid), Leg { a: way.at.pos, b: leg.hit }, way.g) {
        None => None,
        Some(g) => {
            let g: [Single; 3] = dim(f, g, w.table.surfaces[sid as usize].refl);
            Some(Way { at: Stand { pos: leg.off, d: leg.turned }, g })
        },
    }
}

#[verifier::loop_isolation(false)]
fn walk_chain<F: Fn(Op) -> Single>(f: &F, w: &World, start: Way, chain: &[u16]) -> (r: Option<Way>)
    requires
        is_steady(*f),
        w.wf(),
    ensures
        r == walked(answering(*f), *w, start, chain@, chain@.len() as int),
{
    let ghost c = answering(*f);
    let mut way: Way = start;
    let mut n: usize = 0;
    while n < chain.len()
        invariant
            n <= chain@.len(),
            Some(way) == walked(c, *w, start, chain@, n as int),
        decreases chain@.len() - n,
    {
        match bounce_on(f, w, way, chain[n]) {
            None => {
                proof {
                    lemma_walk_fails(c, *w, start, chain@, n + 1, chain@.len() as int);
                }
                return None;
            },
            Some(next) => {
                way = next;
            },
        }
        n = n + 1;
    }
    Some(way)
}

fn arrive<F: Fn(Op) -> Single>(f: &F, w: &World, way: &Way, chain: &[u16], source: Point) -> (r: Option<
    [Single; 3],
>)
    requires
        is_steady(*f),
        w.wf(),
        chain@.len() > 0 ==> chain@.last() < w.table.surfaces@.len(),
    ensures
        r == arrived(answering(*f), *w, *way, chain@, source),
{
    if chain.len() > 0 {
        let last: u16 = chain[chain.len() - 1];
        let s: Surface = w.table.surfaces[last as usize];
        let here: Single = minus(f, dot_of(f, s.n, way.at.pos), s.d);
        let there: Single = minus(f, dot_of(f, s.n, source), s.d);
        if times(f, here, there).lt(Single(0)) {
            return None;
        }
        let (leg, to): (Single, Point) = see(f, source, way.at.pos);
        if Single(SLIGHT).lt(leg) && dot_of(f, to, way.at.d).lt(Single(CONTINUES)) {
            return None;
        }
    }
    leg_transmission(f, w, None, Leg { a: way.at.pos, b: source }, way.g)
}

/// Exact solve, validation and transmission of a surface chain between
/// source and listener.
pub fn mesh_record<F: Fn(Op) -> Single>(
    f: &F,
    w: &World,
    chain: &[u16],
    source: u16,
    src_pos: Point,
    listener: Point,
) -> (r: Option<MeshRecord>)
    requires
        is_steady(*f),
        w.wf(),
        chain@.len() <= M_MAX_ORDER,
    ensures
        r == mesh_recorded(answering(*f), *w, chain@, source, src_pos, listener),
{
    let ghost c = answering(*f);
    let img: Point = match find_image(f, &w.table.surfaces, src_pos, chain) {
        None => {
            return None;
        },
        Some(p) => p,
    };
    proof {
        if chain@.len() > 0 && chain@.last() >= w.table.surfaces@.len() {
            lemma_image_fails(c, w.table.surfaces@, src_pos, chain@, chain@.len() - 1);
        }
    }
    let (dist, dir): (Single, Point) = see(f, img, listener);
    if dist.lt(Single(SLIGHT)) {
        return None;
    }
    let one: Single = Single(ONE);
    let start: Way = Way { at: Stand { pos: listener, d: dir }, g: [one, one, one] };
    assert(start.g@ =~= full()@);
    let way: Way = match walk_chain(f, w, start, chain) {
        None => {
            return None;
        },
        Some(way) => way,
    };
    match arrive(f, w, &way, chain, src_pos) {
        None => None,
        Some(g) => {
            let base: [Single; 3] = spreading(f, greater_of(dist, Single(MIN_DIST)));
            let gains: [Single; 3] = dim(f, base, g);
            if are_below(&gains, Single(AUDIBLE_FLOOR)) {
                return None;
            }
            let slots: [u16; 3] = [
                if chain.len() > 0 { chain[0] } else { NO_SURF },
                if chain.len() > 1 { chain[1] } else { NO_SURF },
                if chain.len() > 2 { chain[2] } else { NO_SURF },
            ];
            assert(slots@ =~= surf_slots(chain@)@);
            Some(
                MeshRecord {
                    source,
                    chain: slots,
                    order: chain.len() as u8,
                    delay_s: over(f, dist, Single(SPEED_OF_SOUND)),
                    dir,
                    gains,
                },
            )
        },
    }
}

/// An image with an unknown surface in the chain is none.
proof fn lemma_image_fails(f: Calc, surfaces: Seq<Surface>, source: Point, chain: Seq<u16>, k: int)
    requires
        0 <= k < chain.len(),
        chain[k] >= surfaces.len(),
    ensures
        image_in(f, surfaces, source, chain) is None,
    decreases chain.len(),
{
    if k > 0 {
        assert(chain.drop_first()[k - 1] == chain[k]);
        lemma_image_fails(f, surfaces, source, chain.drop_first(), k - 1);
    }
}

/// A recorded path reflects off surfaces of the world only.
pub proof fn a_record_reflects_off_known_surfaces(
    f: Calc,
    w: World,
    chain: Seq<u16>,
    source: u16,
    src_pos: Point,
    listener: Point,
    k: int,
)
    requires
        mesh_recorded(f, w, chain, source, src_pos, listener) is Some,
        0 <= k < chain.len(),
    ensures
        chain[k] < w.table.surfaces@.len(),
{
    if chain[k] >= w.table.surfaces@.len() {
        lemma_image_fails(f, w.table.surfaces@, src_pos, chain, k);
    }
}

/// The points of a chain behind its first `n` surfaces, and the stand there;
/// nothing where it fails.
pub open spec fn traced(
    f: Calc,
    surfaces: Seq<Surface>,
    start: Stand,
    chain: Seq<u16>,
    n: int,
) -> Option<(Seq<Point>, Stand)>
    decreases n,
{
    if n <= 0 {
        Some((seq![start.pos], start))
    } else {
        match traced(f, surfaces, start, chain, n - 1) {
            None => None,
            Some(s) => {
                let sid = chain[n - 1];
                let l = surf_leg(f, s.1, surfaces[sid as int]);
                if sid >= surfaces.len() || size(l.denom).below(Single(GRAZING)) || l.t.at_most(
                    Single(SLIGHT),
                ) {
                    None
                } else {
                    Some((s.0.push(l.hit), Stand { pos: l.hit, d: l.turned }))
                }
            },
        }
    }
}

/// The polyline of a chain (listener, hit points, source): plain geometry,
/// without validation. Gives back whether there is one.
#[verifier::loop_isolation(false)]
pub fn mesh_vertices<F: Fn(Op) -> Single>(
    f: &F,
    table: &SurfaceTable,
    chain: &[u16],
    src_pos: Point,
    listener: Point,
    out: &mut Vec<Point>,
) -> (r: bool)
    requires
        is_steady(*f),
    ensures
        ({
            let img = image_in(answering(*f), table.surfaces@, src_pos, chain@);
            let seen = sight(answering(*f), img->0, listener);
            let way = traced(
                answering(*f),
                table.surfaces@,
                Stand { pos: listener, d: seen.1 },
                chain@,
                chain@.len() as int,
            );
            &&& r == (img is Some && !seen.0.below(Single(SLIGHT)) && way is Some)
            &&& r ==> final(out)@ == (way->0).0.push(src_pos)
        }),
{
    out.clear();
    let ghost c = answering(*f);
    let ghost ss = table.surfaces@;
    let img: Point = match find_image(f, &table.surfaces, src_pos, chain) {
        None => {
            return false;
        },
        Some(p) => p,
    };
    let seen: (Single, Point) = see(f, img, listener);
    if seen.0.lt(Single(SLIGHT)) {
        return false;
    }
    let start: Stand = Stand { pos: listener, d: seen.1 };
    let mut s: Stand = start;
    out.push(listener);
    assert(out@ =~= seq![listener]);
    let mut n: usize = 0;
    while n < chain.len()
        invariant
            n <= chain@.len(),
            Some((out@, s)) == traced(c, ss, start, chain@, n as int),
        decreases chain@.len() - n,
    {
        let sid: u16 = chain[n];
        if sid as usize >= table.surfaces.len() {
            proof {
                lemma_trace_fails(c, ss, start, chain@, n + 1, chain@.len() as int);
            }
            return false;
        }
        let l: SurfLeg = find_surf_leg(f, &s, &table.surfaces[sid as usize]);
        if l.denom.abs().lt(Single(GRAZING)) || l.t.le(Single(SLIGHT)) {
            proof {
                lemma_trace_fails(c, ss, start, chain@, n + 1, chain@.len() as int);
            }
            return false;
        }
        out.push(l.hit);
        s = Stand { pos: l.hit, d: l.turned };
        n = n + 1;
    }
    out.push(src_pos);
    true
}

proof fn lemma_trace_fails(
    f: Calc,
    surfaces: Seq<Surface>,
    start: Stand,
    chain: Seq<u16>,
    n: int,
    m: int,
)
    requires
        n <= m,
        traced(f, surfaces, start, chain, n) is None,
    ensures
        traced(f, surfaces, start, chain, m) is None,
    decreases m - n,
{
    if n < m {
        lemma_trace_fails(f, surfaces, start, chain, n, m - 1);
    }
}

/// What a ray meets: distance, surface, and the normal there.
#[derive(Clone, Copy, Debug)]
pub struct SurfHit {
    pub t: Single,
    pub sid: Option<u16>,
    pub normal: Point,
}

/// Nothing met yet.
pub open spec fn no_hit() -> SurfHit {
    SurfHit {
        t: Single(FARTHEST),
        sid: None,
        normal: [Single(0), Single(0), Single(ONE)],
    }
}

/// An overlay box.
#[derive(Clone, Copy, Debug)]
pub struct Overlay {
    pub lo: Point,
    pub hi: Point,
}

/// The nearest of a hit and box `bi`; its faces are numbered from `base` on,
/// six to a box.
pub open spec fn nearer_box(
    f: Calc,
    at: Stand,
    best: SurfHit,
    b: Overlay,
    base: u16,
    bi: int,
) -> SurfHit {
    let s = slab_test(
        f,
        at.pos,
        at.d,
        b.lo,
        b.hi,
        Slab { t0: Single(SLIGHT), t1: best.t, axis: 3, missed: false },
    );
    if s.t0.below(best.t) && s.axis < 3 {
        let ahead = Single(0).below(at.d@[s.axis as int]);
        SurfHit {
            t: s.t0,
            sid: Some((base + bi * 6 + s.axis * 2 + (if ahead { 0int } else { 1int })) as u16),
            normal: along_axis(
                s.axis as int,
                if ahead { Single(MINUS_ONE) } else { Single(ONE) },
            ),
        }
    } else {
        best
    }
}

/// The nearest of a mesh hit and the first `n` boxes.
pub open spec fn nearest_of(
    f: Calc,
    at: Stand,
    mesh: SurfHit,
    boxes: Seq<Overlay>,
    base: u16,
    n: int,
) -> SurfHit
    decreases n,
{
    if n <= 0 {
        mesh
    } else {
        nearer_box(
            f,
            at,
            nearest_of(f, at, mesh, boxes, base, n - 1),
            boxes[n - 1],
            base,
            n - 1,
        )
    }
}

/// Lay the overlay boxes over what the ray meets in the mesh.
pub fn overlay_hit<F: Fn(Op) -> Single>(
    f: &F,
    at: Stand,
    mesh: SurfHit,
    boxes: &Vec<Overlay>,
    base: u16,
) -> (r: SurfHit)
    requires
        is_steady(*f),
        base + boxes@.len() * 6 <= u16::MAX + 1,
    ensures
        r == nearest_of(answering(*f), at, mesh, boxes@, base, boxes@.len() as int),
{
    let mut best: SurfHit = mesh;
    let mut n: usize = 0;
    while n < boxes.len()
        invariant
            n <= boxes@.len(),
            is_steady(*f),
            base + boxes@.len() * 6 <= u16::MAX + 1,
            best == nearest_of(answering(*f), at, mesh, boxes@, base, n as int),
        decreases boxes@.len() - n,
    {
        let b: Overlay = boxes[n];
        let s: Slab = test_slab(
            f,
            at.pos,
            at.d,
            b.lo,
            b.hi,
            Slab { t0: Single(SLIGHT), t1: best.t, axis: 3, missed: false },
        );
        if s.t0.lt(best.t) && s.axis < 3 {
            let ahead: bool = Single(0).lt(at.d[s.axis]);
            let face: usize = s.axis * 2 + if ahead { 0usize } else { 1usize };
            let v: Single = if ahead { Single(MINUS_ONE) } else { Single(ONE) };
            best = SurfHit {
                t: s.t0,
                sid: Some((base as usize + n * 6 + face) as u16),
                normal: on_axis(s.axis, v),
            };
        }
        n = n + 1;
    }
    best
}

/// The surfaces of a chain in one number: base 65536 behind a leading 1, with
/// digits from 1 on.
pub open spec fn packed_surfs(chain: Seq<u16>) -> nat
    decreases chain.len(),
{
    if chain.len() == 0 {
        1
    } else {
        packed_surfs(chain.drop_last()) * 65536 + chain.last() as nat + 1
    }
}

proof fn lemma_packed_bounds(a: Seq<u16>)
    requires
        a.len() <= 3,
    ensures
        packed_surfs(a) >= 1,
        a.len() == 0 ==> packed_surfs(a) == 1,
        a.len() == 1 ==> 65537 <= packed_surfs(a) <= 131072,
        a.len() == 2 ==> 4295032833 <= packed_surfs(a) <= 8590000128,
        a.len() == 3 ==> 281479271743489 <= packed_surfs(a) <= 562954248454144,
    decreases a.len(),
{
    if a.len() > 0 {
        lemma_packed_bounds(a.drop_last());
    }
}

/// Packed chains are told apart.
pub proof fn packed_surfs_are_unique(a: Seq<u16>, b: Seq<u16>)
    requires
        a.len() <= 3,
        b.len() <= 3,
        packed_surfs(a) == packed_surfs(b),
    ensures
        a == b,
    decreases a.len(),
{
    lemma_packed_bounds(a);
    lemma_packed_bounds(b);
    if a.len() > 0 {
        let x = packed_surfs(a.drop_last()) as int;
        let y = packed_surfs(b.drop_last()) as int;
        assert(x * 65536 + a.last() == y * 65536 + b.last());
        assert(x == y && a.last() == b.last());
        packed_surfs_are_unique(a.drop_last(), b.drop_last());
        assert(a =~= a.drop_last().push(a.last()));
        assert(b =~= b.drop_last().push(b.last()));
    } else {
        assert(a =~= b);
    }
}

/// The surfaces that a ray meets within `k` bounces: it ends where it meets
/// none, is stuck, or has gone too far.
pub open spec fn ray_surfs(
    meet: spec_fn(Stand) -> SurfHit,
    bounce: spec_fn((Stand, SurfHit)) -> Stand,
    at: Stand,
    k: int,
) -> Seq<u16>
    decreases k,
{
    if k <= 0 {
        Seq::empty()
    } else {
        let h = meet(at);
        match h.sid {
            Some(sid) if !h.t.at_most(Single(SLIGHT)) && !Single(TOO_FAR).below(h.t) => seq![sid]
                + ray_surfs(meet, bounce, bounce((at, h)), k - 1),
            _ => Seq::empty(),
        }
    }
}

/// The chains, in slots.
pub open spec fn mchains_of(s: Seq<Seq<u16>>) -> Seq<MChain> {
    Seq::new(s.len(), |i: int| (surf_slots(s[i]), s[i].len() as u8))
}

/// What a ray meets in the mesh.
pub open spec fn mesh_met(f: Calc, mesh: Mesh, tri_surface: Seq<u16>, at: Stand) -> SurfHit {
    match mesh.cast(f, at.pos, at.d) {
        None => no_hit(),
        Some(h) => SurfHit {
            t: h.0,
            sid: Some(tri_surface[h.1 as int]),
            normal: mesh.parts.normal(f, h.1),
        },
    }
}

fn meet_mesh<F: Fn(Op) -> Single>(f: &F, mesh: &Mesh, tri_surface: &Vec<u16>, at: &Stand) -> (r: SurfHit)
    requires
        is_steady(*f),
        mesh.wf(),
        tri_surface@.len() == mesh.parts.indices@.len(),
    ensures
        r == mesh_met(answering(*f), *mesh, tri_surface@, *at),
{
    match mesh.raycast(f, at.pos, at.d) {
        None => {
            let up: Point = [Single(0), Single(0), Single(ONE)];
            assert(up@ =~= no_hit().normal@);
            SurfHit { t: Single(FARTHEST), sid: None, normal: up }
        },
        Some((t, tri)) => SurfHit {
            t,
            sid: Some(tri_surface[tri as usize]),
            normal: mesh.parts.tri_normal(f, tri),
        },
    }
}

/// The stand behind a bounce, a little off the surface.
pub open spec fn turned_off(f: Calc, at: Stand, h: SurfHit) -> Stand {
    let n = if Single(0).below(dot(f, h.normal, at.d)) {
        vscaled(f, h.normal, Single(MINUS_ONE))
    } else {
        h.normal
    };
    Stand {
        pos: along(f, along(f, at.pos, at.d, h.t), n, Single(SLIGHT)),
        d: mirrored(f, at.d, n),
    }
}

fn turn_off<F: Fn(Op) -> Single>(f: &F, at: &Stand, h: &SurfHit) -> (r: Stand)
    requires
        is_steady(*f),
    ensures
        r == turned_off(answering(*f), *at, *h),
{
    let n: Point = if Single(0).lt(dot_of(f, h.normal, at.d)) {
        vscale(f, h.normal, Single(MINUS_ONE))
    } else {
        h.normal
    };
    let hit: Point = go_along(f, at.pos, at.d, h.t);
    Stand { pos: go_along(f, hit, n, Single(SLIGHT)), d: reflect_off(f, at.d, n) }
}

/// What discovery over the mesh goes by.
pub ghost struct SurfFan {
    /// Direction of a ray, from its number and its jitter.
    pub launch: spec_fn((u32, Single)) -> Point,
    /// What a ray meets, mesh and overlay boxes alike.
    pub meet: spec_fn(Stand) -> SurfHit,
    pub bounce: spec_fn((Stand, SurfHit)) -> Stand,
}

/// What a ray meets, mesh and overlay boxes alike.
pub open spec fn meeting(
    f: Calc,
    mesh: Mesh,
    tri_surface: Seq<u16>,
    boxes: Seq<Overlay>,
    base: u16,
) -> spec_fn(Stand) -> SurfHit {
    |s: Stand|
        nearest_of(f, s, mesh_met(f, mesh, tri_surface, s), boxes, base, boxes.len() as int)
}

/// The bounces off surfaces.
pub open spec fn bouncing(f: Calc) -> spec_fn((Stand, SurfHit)) -> Stand {
    |q: (Stand, SurfHit)| turned_off(f, q.0, q.1)
}

/// The fan of `n` rays over a mesh.
pub open spec fn mesh_fan(
    f: Calc,
    mesh: Mesh,
    tri_surface: Seq<u16>,
    boxes: Seq<Overlay>,
    base: u16,
    n: u32,
    rot: u32,
) -> SurfFan {
    SurfFan {
        launch: |q: (u32, Single)| fan_dir(f, n, rot, q.0, q.1),
        meet: meeting(f, mesh, tri_surface, boxes, base),
        bounce: bouncing(f),
    }
}

/// The beginnings of what the first `n` rays meet.
pub open spec fn fan_surfs(f: SurfFan, listener: Point, seed: u64, n: int) -> Seq<Seq<u16>>
    decreases n,
{
    if n <= 0 {
        Seq::empty()
    } else {
        let d = (f.launch)(((n - 1) as u32, toss(advanced(seed, n as nat))));
        let met = ray_surfs(f.meet, f.bounce, Stand { pos: listener, d }, M_MAX_ORDER as int);
        fan_surfs(f, listener, seed, n - 1) + beginnings(met, met.len() as int)
    }
}

/// The seed of the jitter for one rotation of the fan.
pub open spec fn surf_fan_seed(rot: u32) -> u64 {
    (0xC6Bu64 ^ rot as u64) | 1u64
}

/// `seen` holds the packed form of what was met so far.
spec fn is_surf_tally(seen: Set<u64>, met: Seq<Seq<u16>>) -> bool {
    &&& forall|j: int| 0 <= j < met.len() ==> (#[trigger] met[j]).len() <= 3
    &&& forall|k: u64|
        seen.contains(k) <==> exists|j: int|
            0 <= j < met.len() && packed_surfs(#[trigger] met[j]) == k
}

proof fn lemma_surf_tally(seen: Set<u64>, met: Seq<Seq<u16>>, chain: Seq<u16>, key: u64)
    requires
        is_surf_tally(seen, met),
        chain.len() <= 3,
        key == packed_surfs(chain),
    ensures
        seen.contains(key) == met.contains(chain),
        is_surf_tally(seen.insert(key), met.push(chain)),
{
    if seen.contains(key) {
        let j = choose|j: int| 0 <= j < met.len() && packed_surfs(#[trigger] met[j]) == key;
        packed_surfs_are_unique(met[j], chain);
        assert(met[j] == chain);
    }
    if met.contains(chain) {
        let j = choose|j: int| 0 <= j < met.len() && met[j] == chain;
        assert(packed_surfs(met[j]) == key);
    }
    let after = met.push(chain);
    assert forall|k: u64| seen.insert(key).contains(k) <==> exists|j: int|
        0 <= j < after.len() && packed_surfs(#[trigger] after[j]) == k by {
        if seen.insert(key).contains(k) {
            if k == key {
                assert(packed_surfs(after[met.len() as int]) == k);
            } else {
                let j = choose|j: int| 0 <= j < met.len() && packed_surfs(#[trigger] met[j]) == k;
                assert(packed_surfs(after[j]) == k);
            }
        }
        if exists|j: int| 0 <= j < after.len() && packed_surfs(#[trigger] after[j]) == k {
            let j = choose|j: int| 0 <= j < after.len() && packed_surfs(#[trigger] after[j]) == k;
            if j < met.len() {
                assert(packed_surfs(met[j]) == k);
            }
        }
    }
}

/// Follow one ray and report the chains it meets that are new.
fn follow_surfs<F: Fn(Op) -> Single>(
    f: &F,
    mesh: &Mesh,
    tri_surface: &Vec<u16>,
    start: Stand,
    boxes: &Vec<Overlay>,
    first_face: u16,
    seen: &mut HashSet<u64>,
    out: &mut Vec<MChain>,
    Ghost(met): Ghost<Seq<Seq<u16>>>,
    Ghost(base): Ghost<Seq<MChain>>,
)
    requires
        is_steady(*f),
        mesh.wf(),
        tri_surface@.len() == mesh.parts.indices@.len(),
        first_face + boxes@.len() * 6 <= u16::MAX + 1,
        is_surf_tally(old(seen)@, met),
        old(out)@ == base + mchains_of(firsts(met, met.len() as int)),
    ensures
        ({
            let chain = ray_surfs(
                meeting(answering(*f), *mesh, tri_surface@, boxes@, first_face),
                bouncing(answering(*f)),
                start,
                M_MAX_ORDER as int,
            );
            let all = met + beginnings(chain, chain.len() as int);
            &&& is_surf_tally(final(seen)@, all)
            &&& final(out)@ == base + mchains_of(firsts(all, all.len() as int))
        }),
{
    let ghost mf = meeting(answering(*f), *mesh, tri_surface@, boxes@, first_face);
    let ghost bf = bouncing(answering(*f));
    let ghost walls = ray_surfs(mf, bf, start, M_MAX_ORDER as int);
    let mut s: Stand = start;
    let mut chain: [u16; 3] = [NO_SURF, NO_SURF, NO_SURF];
    let ghost mut so_far: Seq<u16> = Seq::empty();
    let mut key: u64 = 1;
    let mut k: usize = 0;
    let mut going: bool = true;
    assert(met + beginnings(walls, 0) =~= met);
    assert(chain@ =~= surf_slots(so_far)@);
    while going && k < M_MAX_ORDER
        invariant
            k <= 3,
            is_steady(*f),
            mesh.wf(),
            tri_surface@.len() == mesh.parts.indices@.len(),
            first_face + boxes@.len() * 6 <= u16::MAX + 1,
            mf == meeting(answering(*f), *mesh, tri_surface@, boxes@, first_face),
            bf == bouncing(answering(*f)),
            so_far.len() == k,
            walls == so_far + (if going {
                ray_surfs(mf, bf, s, 3 - k)
            } else {
                Seq::<u16>::empty()
            }),
            chain == surf_slots(so_far),
            key == packed_surfs(so_far),
            is_surf_tally(seen@, met + beginnings(walls, k as int)),
            out@ == base + mchains_of(
                firsts(
                    met + beginnings(walls, k as int),
                    (met + beginnings(walls, k as int)).len() as int,
                ),
            ),
        decreases 3 - k, (if going { 1int } else { 0int }),
    {
        let m: SurfHit = meet_mesh(f, mesh, tri_surface, &s);
        let h: SurfHit = overlay_hit(f, s, m, boxes, first_face);
        assert(mf(s) == h);
        let met_one: Option<u16> = if h.t.le(Single(SLIGHT)) || Single(TOO_FAR).lt(h.t) {
            None
        } else {
            h.sid
        };
        match met_one {
            None => {
                going = false;
                assert(so_far + Seq::<u16>::empty() =~= so_far);
                assert(so_far + ray_surfs(mf, bf, s, 3 - k) =~= so_far);
            },
            Some(sid) => {
                let ghost before = so_far;
                let ghost met_k = met + beginnings(walls, k as int);
                proof {
                    lemma_packed_bounds(before);
                }
                chain[k] = sid;
                key = key * 65536 + (sid as u64 + 1);
                proof {
                    so_far = before.push(sid);
                    assert(so_far.drop_last() =~= before);
                    assert(chain@ =~= surf_slots(so_far)@);
                    assert(walls =~= so_far + ray_surfs(mf, bf, bf((s, h)), 3 - k - 1));
                    assert(walls.take(k + 1) =~= so_far);
                    assert(met + beginnings(walls, k + 1) =~= met_k.push(so_far));
                    lemma_surf_tally(seen@, met_k, so_far, key);
                    lemma_firsts_push(met_k, so_far);
                }
                let ghost fresh = firsts(met_k, met_k.len() as int);
                if seen.insert(key) {
                    out.push((chain, (k + 1) as u8));
                    assert(chain == surf_slots(so_far));
                    assert(out@ =~= base + mchains_of(fresh.push(so_far)));
                }
                let next: Stand = turn_off(f, &s, &h);
                assert(bf((s, h)) == next);
                s = next;
                k = k + 1;
            },
        }
    }
    assert(so_far + ray_surfs(mf, bf, s, 0) =~= so_far);
    assert(walls =~= so_far);
}

/// Discovery over the mesh: a fan of rays from the listener with specular
/// bounces, giving chains of surfaces; each is reported once. The faces of the
/// overlay boxes count as surfaces from `base` on, six to a box.
pub fn mesh_chains<F: Fn(Op) -> Single>(
    f: &F,
    mesh: &Mesh,
    tri_surface: &Vec<u16>,
    boxes: &Vec<Overlay>,
    base: u16,
    listener: Point,
    n_rays: u32,
    rot: u32,
    out: &mut Vec<MChain>,
)
    requires
        is_steady(*f),
        mesh.wf(),
        tri_surface@.len() == mesh.parts.indices@.len(),
        base + boxes@.len() * 6 <= u16::MAX + 1,
    ensures
        ({
            let met = fan_surfs(
                mesh_fan(answering(*f), *mesh, tri_surface@, boxes@, base, n_rays, rot),
                listener,
                surf_fan_seed(rot),
                n_rays as int,
            );
            final(out)@ == old(out)@ + mchains_of(firsts(met, met.len() as int))
        }),
{
    let ghost before = out@;
    let ghost fan = mesh_fan(answering(*f), *mesh, tri_surface@, boxes@, base, n_rays, rot);
    let mut seen: HashSet<u64> = HashSet::new();
    let seed: u64 = (0xC6Bu64 ^ rot as u64) | 1u64;
    assert(seed != 0) by (bit_vector)
        requires
            seed == (0xC6Bu64 ^ rot as u64) | 1u64,
    ;
    let mut jitter: Rng = Rng::new(seed);
    let mut i: u32 = 0;
    assert(out@ =~= before + mchains_of(firsts(Seq::<Seq<u16>>::empty(), 0)));
    while i < n_rays
        invariant
            i <= n_rays,
            is_steady(*f),
            mesh.wf(),
            tri_surface@.len() == mesh.parts.indices@.len(),
            base + boxes@.len() * 6 <= u16::MAX + 1,
            fan == mesh_fan(answering(*f), *mesh, tri_surface@, boxes@, base, n_rays, rot),
            jitter@ == advanced(seed, i as nat),
            is_surf_tally(seen@, fan_surfs(fan, listener, seed, i as int)),
            out@ == before + mchains_of(
                firsts(
                    fan_surfs(fan, listener, seed, i as int),
                    fan_surfs(fan, listener, seed, i as int).len() as int,
                ),
            ),
        decreases n_rays - i,
    {
        let j: Single = jitter.next_f32();
        assert(jitter@ == advanced(seed, (i + 1) as nat));
        let d: Point = fan_ray(f, n_rays, rot, i, j);
        assert((fan.launch)((i, j)) == d);
        follow_surfs(
            f,
            mesh,
            tri_surface,
            Stand { pos: listener, d },
            boxes,
            base,
            &mut seen,
            out,
            Ghost(fan_surfs(fan, listener, seed, i as int)),
            Ghost(before),
        );
        i = i + 1;
    }
}

/// Amplitudes in every band.
pub open spec fn are_amplitudes(g: [Single; 3]) -> bool {
    is_amplitude(g@[0]) && is_amplitude(g@[1]) && is_amplitude(g@[2])
}

/// Shares in every band.
pub open spec fn are_shares(g: [Single; 3]) -> bool {
    is_share(g@[0]) && is_share(g@[1]) && is_share(g@[2])
}

/// In no band louder.
pub open spec fn is_no_louder(g: [Single; 3], h: [Single; 3]) -> bool {
    g@[0].at_most(h@[0]) && g@[1].at_most(h@[1]) && g@[2].at_most(h@[2])
}

/// Where anything is left of the first, so it is of the second, and no less.
spec fn is_quieter(a: Option<[Single; 3]>, b: Option<[Single; 3]>) -> bool {
    a matches Some(g) ==> b matches Some(h) && are_amplitudes(g) && are_amplitudes(h)
        && is_no_louder(g, h)
}

proof fn lemma_dimmed_quieter(f: Calc, g: [Single; 3], h: [Single; 3], tr: [Single; 3])
    requires
        is_orderly(f),
        are_amplitudes(g),
        are_amplitudes(h),
        is_no_louder(g, h),
        are_shares(tr),
    ensures
        are_amplitudes(dimmed(f, g, tr)),
        are_amplitudes(dimmed(f, h, tr)),
        is_no_louder(dimmed(f, g, tr), dimmed(f, h, tr)),
        is_no_louder(dimmed(f, g, tr), g),
{
    lemma_share(f, g@[0], tr@[0]);
    lemma_share(f, g@[1], tr@[1]);
    lemma_share(f, g@[2], tr@[2]);
    lemma_share(f, h@[0], tr@[0]);
    lemma_share(f, h@[1], tr@[1]);
    lemma_share(f, h@[2], tr@[2]);
}

proof fn lemma_paid_quieter(
    f: Calc,
    a: Option<[Single; 3]>,
    b: Option<[Single; 3]>,
    tr: [Single; 3],
)
    requires
        is_orderly(f),
        is_quieter(a, b),
        are_shares(tr),
    ensures
        is_quieter(paid(f, a, tr), paid(f, b, tr)),
        is_quieter(paid(f, a, tr), b),
{
    if let Some(g) = a {
        lemma_dimmed_quieter(f, g, b->0, tr);
    }
}

proof fn lemma_crossings_quieter(
    f: Calc,
    v: World,
    w: World,
    skip: Option<u16>,
    leg: Leg,
    hits: Seq<SegHit>,
    g: [Single; 3],
    h: [Single; 3],
    n: int,
)
    requires
        is_orderly(f),
        0 <= n <= hits.len(),
        v.mesh == w.mesh,
        v.tri_surface == w.tri_surface,
        are_of_mesh(*w.mesh, hits),
        lets_shares_through(w),
        are_amplitudes(g),
        are_amplitudes(h),
        is_no_louder(g, h),
    ensures
        is_quieter(
            past_crossings(f, v, skip, leg, hits, g, n),
            past_crossings(f, w, skip, leg, hits, h, n),
        ),
    decreases n,
{
    if n > 0 {
        lemma_crossings_quieter(f, v, w, skip, leg, hits, g, h, n - 1);
        assert(hits[n - 1].material < w.mesh.parts.materials@.len());
        lemma_paid_quieter(
            f,
            past_crossings(f, v, skip, leg, hits, g, n - 1),
            past_crossings(f, w, skip, leg, hits, h, n - 1),
            w.mesh.parts.materials@[hits[n - 1].material as int].transmission,
        );
    }
}

/// Every material and every blocker lets a share of the sound through, and every
/// surface reflects one.
pub open spec fn lets_shares_through(w: World) -> bool {
    &&& forall|m: int|
        0 <= m < w.mesh.parts.materials@.len() ==> are_shares(
            (#[trigger] w.mesh.parts.materials@[m]).transmission,
        )
    &&& forall|i: int|
        0 <= i < w.extras@.len() ==> are_shares((#[trigger] w.extras@[i]).transmission)
    &&& forall|k: int|
        0 <= k < w.table.surfaces@.len() ==> are_shares((#[trigger] w.table.surfaces@[k]).refl)
}

/// `v` is the world `w` with one more blocker.
pub open spec fn has_one_more(v: World, w: World, k: int, more: Aabb) -> bool {
    &&& v.mesh == w.mesh
    &&& v.tri_surface == w.tri_surface
    &&& v.table == w.table
    &&& 0 <= k <= w.extras@.len()
    &&& v.extras@ == w.extras@.insert(k, more)
}

proof fn lemma_extras_quieter(
    f: Calc,
    v: World,
    w: World,
    k: int,
    more: Aabb,
    leg: Leg,
    a: Option<[Single; 3]>,
    b: Option<[Single; 3]>,
    n: int,
)
    requires
        is_orderly(f),
        has_one_more(v, w, k, more),
        lets_shares_through(v),
        is_quieter(a, b),
        0 <= n <= v.extras@.len(),
    ensures
        n <= k ==> is_quieter(
            past_extras(f, v.extras@, leg, a, n),
            past_extras(f, w.extras@, leg, b, n),
        ),
        n > k ==> is_quieter(
            past_extras(f, v.extras@, leg, a, n),
            past_extras(f, w.extras@, leg, b, n - 1),
        ),
    decreases n,
{
    if n > 0 {
        lemma_extras_quieter(f, v, w, k, more, leg, a, b, n - 1);
        let x = v.extras@[n - 1];
        assert(are_shares(x.transmission));
        let m = if n - 1 <= k {
            n - 1
        } else {
            n - 2
        };
        lemma_paid_quieter(
            f,
            past_extras(f, v.extras@, leg, a, n - 1),
            past_extras(f, w.extras@, leg, b, m),
            x.transmission,
        );
        if n - 1 < k {
            assert(w.extras@[n - 1] == x);
        } else if n - 1 > k {
            assert(w.extras@[n - 2] == x);
        }
    }
}

proof fn lemma_leg_quieter(
    f: Calc,
    v: World,
    w: World,
    k: int,
    more: Aabb,
    skip: Option<u16>,
    leg: Leg,
    g: [Single; 3],
    h: [Single; 3],
)
    requires
        is_orderly(f),
        has_one_more(v, w, k, more),
        lets_shares_through(v),
        are_of_mesh(*w.mesh, w.mesh.crossed(f, leg.a, leg.b)),
        are_amplitudes(g),
        are_amplitudes(h),
        is_no_louder(g, h),
    ensures
        is_quieter(past_leg(f, v, skip, leg, g), past_leg(f, w, skip, leg, h)),
{
    let hits = w.mesh.crossed(f, leg.a, leg.b);
    let n = hits.len() as int;
    assert(lets_shares_through(w)) by {
        assert forall|i: int| 0 <= i < w.extras@.len() implies are_shares(
            (#[trigger] w.extras@[i]).transmission,
        ) by {
            if i < k {
                assert(v.extras@[i] == w.extras@[i]);
            } else {
                assert(v.extras@[i + 1] == w.extras@[i]);
            }
        }
    }
    lemma_crossings_quieter(f, v, w, skip, leg, hits, g, h, n);
    lemma_extras_quieter(
        f,
        v,
        w,
        k,
        more,
        leg,
        past_crossings(f, v, skip, leg, hits, g, n),
        past_crossings(f, w, skip, leg, hits, h, n),
        v.extras@.len() as int,
    );
}

/// The crossings of every segment are of triangles and materials of the mesh.
pub open spec fn crosses_itself(f: Calc, mesh: Mesh) -> bool {
    forall|a: Point, b: Point| are_of_mesh(mesh, #[trigger] mesh.crossed(f, a, b))
}

proof fn lemma_walk_quieter(
    f: Calc,
    v: World,
    w: World,
    k: int,
    more: Aabb,
    start: Way,
    chain: Seq<u16>,
    n: int,
)
    requires
        is_orderly(f),
        has_one_more(v, w, k, more),
        lets_shares_through(v),
        crosses_itself(f, *w.mesh),
        are_amplitudes(start.g),
        0 <= n <= chain.len(),
    ensures
        walked(f, v, start, chain, n) matches Some(a) ==> walked(f, w, start, chain, n) matches Some(b)
            && a.at == b.at && are_amplitudes(a.g) && are_amplitudes(b.g) && is_no_louder(a.g, b.g),
    decreases n,
{
    if n > 0 {
        lemma_walk_quieter(f, v, w, k, more, start, chain, n - 1);
        if walked(f, v, start, chain, n) is Some {
            let a = walked(f, v, start, chain, n - 1)->0;
            let b = walked(f, w, start, chain, n - 1)->0;
            let sid = chain[n - 1];
            let surface = w.table.surfaces@[sid as int];
            let leg = surf_leg(f, a.at, surface);
            lemma_leg_quieter(
                f,
                v,
                w,
                k,
                more,
                Some(sid),
                Leg { a: a.at.pos, b: leg.hit },
                a.g,
                b.g,
            );
            assert(reflects(f, v, a.at, sid, leg) == reflects(f, w, a.at, sid, leg));
            let g = past_leg(f, v, Some(sid), Leg { a: a.at.pos, b: leg.hit }, a.g)->0;
            let h = past_leg(f, w, Some(sid), Leg { a: a.at.pos, b: leg.hit }, b.g)->0;
            assert(are_shares(v.table.surfaces@[sid as int].refl));
            lemma_dimmed_quieter(f, g, h, surface.refl);
        }
    } else {
        assert(Single(0).num() == 0);
    }
}

/// One more blocker never adds sound and never moves a path: a record that holds
/// with it holds without it, by the same way and no quieter in any band.
pub proof fn a_blocker_never_adds_sound(
    f: Calc,
    v: World,
    w: World,
    k: int,
    more: Aabb,
    chain: Seq<u16>,
    source: u16,
    src_pos: Point,
    listener: Point,
)
    requires
        is_orderly(f),
        has_one_more(v, w, k, more),
        lets_shares_through(v),
        crosses_itself(f, *w.mesh),
        image_in(f, w.table.surfaces@, src_pos, chain) matches Some(img) ==> are_amplitudes(
            spread_over(f, greater(sight(f, img, listener).0, Single(MIN_DIST))),
        ),
    ensures
        mesh_recorded(f, v, chain, source, src_pos, listener) matches Some(r) ==> {
            &&& mesh_recorded(f, w, chain, source, src_pos, listener) matches Some(q)
            &&& q.source == r.source && q.chain == r.chain && q.order == r.order
            &&& q.delay_s == r.delay_s && q.dir == r.dir
            &&& is_no_louder(r.gains, q.gains)
        },
{
    if mesh_recorded(f, v, chain, source, src_pos, listener) is Some {
        let img = image_in(f, w.table.surfaces@, src_pos, chain)->0;
        let (dist, dir) = sight(f, img, listener);
        let start = Way { at: Stand { pos: listener, d: dir }, g: full() };
        lemma_one_num();
        assert(Single(0).num() == 0);
        lemma_walk_quieter(f, v, w, k, more, start, chain, chain.len() as int);
        let a = walked(f, v, start, chain, chain.len() as int)->0;
        let b = walked(f, w, start, chain, chain.len() as int)->0;
        lemma_leg_quieter(f, v, w, k, more, None, Leg { a: a.at.pos, b: src_pos }, a.g, b.g);
        let g = arrived(f, v, a, chain, src_pos)->0;
        let h = arrived(f, w, b, chain, src_pos)->0;
        let s = spread_over(f, greater(dist, Single(MIN_DIST)));
        assert(are_amplitudes(s));
        assert(is_no_louder(dimmed(f, s, g), dimmed(f, s, h)));
    }
}

} // verus!
