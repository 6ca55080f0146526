//! Triangle geometry for the acoustic simulation: an indexed mesh with
//! per-triangle materials, its patches and bounding volumes, the surfaces a
//! segment crosses, and diffraction edges under an importance budget.

use crate::arith::{
    ask, clamp_to, clamped, diff, greater, greater_of, minus, over, prod, quot, size, size_of,
    times, Calc, Op,
};
use crate::bvh::{measuring, the_nearest_hit_is_found, Bvh, MAX_PRIMS};
use crate::exact::{
    exact_cross, exact_norm, exact_vdiff, exact_vscaled, is_exact, lemma_one, outer, value, vector,
    Vector,
};
use crate::geom::{
    cross, cross_of, distance, distance_of, dot, dot_of, norm, norm_of, normalize, unit_of, vdiff,
    vminus, vplus, vscale, vscaled, vsum,
};
use crate::material::Material;
use crate::params::{HALF, ONE};
use crate::probe::{answering, is_steady};
use crate::rank::{
    is_rising, precedes, risen, rising, strongest, the_strongest_are_listed,
    the_weakest_come_first, top,
};
use crate::scene::{AcousticGeometry, GeomHit, MINUS_ONE};
use crate::single::Single;
use crate::tri::{Line, PackedTri};
use std::collections::HashMap;
use vstd::prelude::*;

verus! {

broadcast use vstd::std_specs::hash::group_hash_axioms;

/// A point in space.
pub type Point = [Single; 3];

/// The cell of a quantized point: 0.1 mm along each axis.
pub type Cell = [i64; 3];

/// The pattern of 10000.0: cells along a metre.
pub const CELLS: u32 = 0x461C_4000;

/// The cell of a point.
pub open spec fn cell_of(f: Calc, p: Point) -> Cell {
    [
        f(Op::Round(prod(f, p@[0], Single(CELLS)))).cut() as i64,
        f(Op::Round(prod(f, p@[1], Single(CELLS)))).cut() as i64,
        f(Op::Round(prod(f, p@[2], Single(CELLS)))).cut() as i64,
    ]
}

/// The cells of points.
pub open spec fn celling(f: Calc) -> spec_fn(Point) -> Cell {
    |p: Point| cell_of(f, p)
}

fn quantize<F: Fn(Op) -> Single>(f: &F, p: Point) -> (c: Cell)
    requires
        is_steady(*f),
    ensures
        c == cell_of(answering(*f), p),
        c == celling(answering(*f))(p),
{
    let x: Single = times(f, p[0], Single(CELLS));
    let y: Single = times(f, p[1], Single(CELLS));
    let z: Single = times(f, p[2], Single(CELLS));
    let c: Cell = [
        ask(f, Op::Round(x)).to_i64(),
        ask(f, Op::Round(y)).to_i64(),
        ask(f, Op::Round(z)).to_i64(),
    ];
    assert(c@ =~= cell_of(answering(*f), p)@);
    c
}

/// Incremental mesh assembly; vertices in the same cell are one.
#[derive(Debug)]
pub struct MeshBuilder {
    positions: Vec<Point>,
    cells: Vec<Cell>,
    indices: Vec<[u32; 3]>,
    tri_material: Vec<u16>,
    materials: Vec<Material>,
    lookup: HashMap<u64, Vec<u32>>,
}

/// What a builder holds.
pub ghost struct Parts {
    pub positions: Seq<Point>,
    pub cells: Seq<Cell>,
    pub indices: Seq<[u32; 3]>,
    pub tri_material: Seq<u16>,
    pub materials: Seq<Material>,
}

/// The first vertex from `from` on in the cell; the number of vertices where
/// there is none.
pub open spec fn first_in_cell(cells: Seq<Cell>, c: Cell, from: int) -> int
    decreases cells.len() - from,
{
    if from < 0 || from >= cells.len() {
        cells.len() as int
    } else if cells[from] == c {
        from
    } else {
        first_in_cell(cells, c, from + 1)
    }
}

impl Parts {
    /// The vertex that stands for a point.
    pub open spec fn vertex_id(self, c: Cell) -> u32 {
        first_in_cell(self.cells, c, 0) as u32
    }

    /// With a vertex for the point, which is new where its cell is.
    pub open spec fn with_vertex(self, p: Point, c: Cell) -> Parts {
        if first_in_cell(self.cells, c, 0) < self.cells.len() {
            self
        } else {
            Parts { positions: self.positions.push(p), cells: self.cells.push(c), ..self }
        }
    }

    /// With one more triangle.
    pub open spec fn with_tri(
        self,
        cell: spec_fn(Point) -> Cell,
        a: Point,
        b: Point,
        c: Point,
        material: u16,
    ) -> Parts {
        let pa = self.with_vertex(a, cell(a));
        let pb = pa.with_vertex(b, cell(b));
        let pc = pb.with_vertex(c, cell(c));
        Parts {
            indices: pc.indices.push(
                [self.vertex_id(cell(a)), pa.vertex_id(cell(b)), pb.vertex_id(cell(c))],
            ),
            tri_material: pc.tri_material.push(material),
            ..pc
        }
    }

    /// With the quad a-b-c-d as two triangles.
    #[verifier::opaque]
    pub open spec fn with_quad(
        self,
        cell: spec_fn(Point) -> Cell,
        a: Point,
        b: Point,
        c: Point,
        d: Point,
        material: u16,
    ) -> Parts {
        self.with_tri(cell, a, b, c, material).with_tri(cell, a, c, d, material)
    }

    /// With the six faces of an axis-aligned box, wound outward.
    pub open spec fn with_box(
        self,
        cell: spec_fn(Point) -> Cell,
        lo: Point,
        hi: Point,
        material: u16,
    ) -> Parts {
        self.with_face(cell, lo, hi, 0, material).with_face(cell, lo, hi, 1, material).with_face(
            cell,
            lo,
            hi,
            2,
            material,
        ).with_face(cell, lo, hi, 3, material).with_face(cell, lo, hi, 4, material).with_face(
            cell,
            lo,
            hi,
            5,
            material,
        )
    }

    /// With one face of a box.
    pub open spec fn with_face(
        self,
        cell: spec_fn(Point) -> Cell,
        lo: Point,
        hi: Point,
        face: int,
        material: u16,
    ) -> Parts {
        let q = box_face(lo, hi, face);
        self.with_quad(cell, q.0, q.1, q.2, q.3, material)
    }

    /// No two vertices share a cell, and triangles are made of vertices.
    pub open spec fn is_sound(self) -> bool {
        &&& self.positions.len() == self.cells.len()
        &&& self.indices.len() == self.tri_material.len()
        &&& forall|i: int, j: int|
            0 <= i < j < self.cells.len() ==> #[trigger] self.cells[i] != #[trigger] self.cells[j]
        &&& forall|t: int, k: int|
            0 <= t < self.indices.len() && 0 <= k < 3 ==> (#[trigger] self.indices[t]@[k])
                < self.positions.len()
    }
}

/// The corners of one face of the box, in the order that winds it outward: the
/// faces at the low and the high end of each axis in turn.
pub open spec fn box_face(lo: Point, hi: Point, face: int) -> (Point, Point, Point, Point) {
    let v = |x: bool, y: bool, z: bool| corner(lo, hi, x, y, z);
    if face == 0 {
        (
            v(false, false, false),
            v(false, false, true),
            v(false, true, true),
            v(false, true, false),
        )
    } else if face == 1 {
        (
            v(true, false, false),
            v(true, true, false),
            v(true, true, true),
            v(true, false, true),
        )
    } else if face == 2 {
        (
            v(false, false, false),
            v(true, false, false),
            v(true, false, true),
            v(false, false, true),
        )
    } else if face == 3 {
        (
            v(false, true, false),
            v(false, true, true),
            v(true, true, true),
            v(true, true, false),
        )
    } else if face == 4 {
        (
            v(false, false, false),
            v(false, true, false),
            v(true, true, false),
            v(true, false, false),
        )
    } else {
        (
            v(false, false, true),
            v(true, false, true),
            v(true, true, true),
            v(false, true, true),
        )
    }
}

/// A corner of the box between `lo` and `hi`.
pub open spec fn corner(lo: Point, hi: Point, x: bool, y: bool, z: bool) -> Point {
    [
        if x { hi@[0] } else { lo@[0] },
        if y { hi@[1] } else { lo@[1] },
        if z { hi@[2] } else { lo@[2] },
    ]
}

fn corner_of(lo: &Point, hi: &Point, x: bool, y: bool, z: bool) -> (r: Point)
    ensures
        r == corner(*lo, *hi, x, y, z),
{
    [
        if x { hi[0] } else { lo[0] },
        if y { hi[1] } else { lo[1] },
        if z { hi[2] } else { lo[2] },
    ]
}

/// The bucket in which a cell's vertices are looked up.
spec fn bucket(c: Cell) -> u64 {
    (c@[0] as u64) ^ ((c@[1] as u64) << 21) ^ ((c@[2] as u64) << 42)
}

fn bucket_of(c: &Cell) -> (r: u64)
    ensures
        r == bucket(*c),
{
    (c[0] as u64) ^ ((c[1] as u64) << 21) ^ ((c[2] as u64) << 42)
}

fn same_cell(a: &Cell, b: &Cell) -> (r: bool)
    ensures
        r == (*a == *b),
{
    let r: bool = a[0] == b[0] && a[1] == b[1] && a[2] == b[2];
    proof {
        if r {
            assert(a@ =~= b@);
            assert(*a == *b);
        }
    }
    r
}

proof fn lemma_first_in_cell(cells: Seq<Cell>, c: Cell, from: int)
    requires
        0 <= from <= cells.len(),
    ensures
        from <= first_in_cell(cells, c, from) <= cells.len(),
        first_in_cell(cells, c, from) < cells.len() ==> cells[first_in_cell(cells, c, from)] == c,
        forall|i: int| from <= i < first_in_cell(cells, c, from) ==> #[trigger] cells[i] != c,
    decreases cells.len() - from,
{
    if from < cells.len() && cells[from] != c {
        lemma_first_in_cell(cells, c, from + 1);
    }
}

/// A new triangle keeps the mesh sound.
proof fn lemma_vertex_sound(m: Parts, p: Point, c: Cell)
    requires
        m.is_sound(),
        m.positions.len() < u32::MAX,
    ensures
        m.with_vertex(p, c).is_sound(),
        m.vertex_id(c) < m.with_vertex(p, c).positions.len(),
        m.positions.len() <= m.with_vertex(p, c).positions.len() <= m.positions.len() + 1,
        m.with_vertex(p, c).indices == m.indices,
        m.with_vertex(p, c).tri_material == m.tri_material,
{
    lemma_first_in_cell(m.cells, c, 0);
    let r = m.with_vertex(p, c);
    assert forall|i: int, j: int| 0 <= i < j < r.cells.len() implies #[trigger] r.cells[i]
        != #[trigger] r.cells[j] by {
        if j < m.cells.len() {
            assert(m.cells[i] != m.cells[j]);
        } else {
            assert(m.cells[i] != c);
        }
    }
}

impl MeshBuilder {
    pub closed spec fn wf(self) -> bool {
        &&& self@.is_sound()
        &&& forall|id: int|
            0 <= id < self.cells@.len() ==> self.lookup@.contains_key(bucket(#[trigger] self.cells@[id]))
                && self.lookup@[bucket(self.cells@[id])]@.contains(id as u32)
        &&& forall|h: u64, k: int|
            self.lookup@.contains_key(h) && 0 <= k < self.lookup@[h]@.len() ==> (#[trigger] self.lookup@[h]@[k])
                < self.cells@.len()
        &&& self.cells@.len() <= u32::MAX
    }

    pub fn new() -> (r: Self)
        ensures
            r.wf(),
            r@ == (Parts {
                positions: Seq::empty(),
                cells: Seq::empty(),
                indices: Seq::empty(),
                tri_material: Seq::empty(),
                materials: Seq::empty(),
            }),
    {
        let r: MeshBuilder = Self {
            positions: Vec::new(),
            cells: Vec::new(),
            indices: Vec::new(),
            tri_material: Vec::new(),
            materials: Vec::new(),
            lookup: HashMap::new(),
        };
        r
    }

    /// Add a material; gives back its number.
    pub fn material(&mut self, m: Material) -> (r: u16)
        requires
            old(self).wf(),
        ensures
            final(self).wf(),
            final(self)@ == (Parts { materials: old(self)@.materials.push(m), ..old(self)@ }),
            r == old(self)@.materials.len() % 0x1_0000,
    {
        self.materials.push(m);
        let n: usize = self.materials.len() - 1;
        assert((n as u16) == n % 0x1_0000) by (bit_vector);
        n as u16
    }

    /// The vertex for a point.
    pub fn vertex<F: Fn(Op) -> Single>(&mut self, f: &F, p: Point) -> (id: u32)
        requires
            is_steady(*f),
            old(self).wf(),
            old(self)@.positions.len() < u32::MAX,
        ensures
            final(self).wf(),
            id == old(self)@.vertex_id(cell_of(answering(*f), p)),
            final(self)@ == old(self)@.with_vertex(p, cell_of(answering(*f), p)),
    {
        let c: Cell = quantize(f, p);
        self.vertex_in(p, c)
    }

    /// The vertex for a point whose cell is `c`.
    fn vertex_in(&mut self, p: Point, c: Cell) -> (id: u32)
        requires
            old(self).wf(),
            old(self)@.positions.len() < u32::MAX,
        ensures
            final(self).wf(),
            id == old(self)@.vertex_id(c),
            final(self)@ == old(self)@.with_vertex(p, c),
    {
        let h: u64 = bucket_of(&c);
        proof {
            lemma_first_in_cell(self.cells@, c, 0);
            lemma_vertex_sound(self@, p, c);
        }
        if let Some(ids) = self.lookup.get(&h) {
            let mut k: usize = 0;
            while k < ids.len()
                invariant
                    k <= ids@.len(),
                    self.wf(),
                    self.lookup@.contains_key(h),
                    ids@ == self.lookup@[h]@,
                    h == bucket(c),
                    forall|j: int| 0 <= j < k ==> self.cells@[(#[trigger] ids@[j]) as int] != c,
                    *self == *old(self),
                decreases ids@.len() - k,
            {
                assert(self.lookup@[h]@[k as int] < self.cells@.len());
                if same_cell(&self.cells[ids[k] as usize], &c) {
                    proof {
                        lemma_first_in_cell(self.cells@, c, 0);
                        let f = first_in_cell(self.cells@, c, 0);
                        if f < ids@[k as int] {
                            assert(self@.cells[f] != self@.cells[ids@[k as int] as int]);
                        }
                    }
                    return ids[k];
                }
                k = k + 1;
            }
        }
        proof {
            let f = first_in_cell(self.cells@, c, 0);
            if f < self.cells@.len() {
                assert(self.lookup@[bucket(self.cells@[f])]@.contains(f as u32));
                assert(false);
            }
        }
        let ghost before = *self;
        let id: u32 = self.positions.len() as u32;
        let mut ids: Vec<u32> = match self.lookup.remove(&h) {
            Some(v) => v,
            None => Vec::new(),
        };
        let ghost ids0 = ids@;
        ids.push(id);
        self.lookup.insert(h, ids);
        self.positions.push(p);
        self.cells.push(c);
        proof {
            assert forall|i: int| 0 <= i < self.cells@.len() implies self.lookup@.contains_key(
                bucket(#[trigger] self.cells@[i]),
            ) && self.lookup@[bucket(self.cells@[i])]@.contains(i as u32) by {
                if i < before.cells@.len() {
                    assert(self.cells@[i] == before.cells@[i]);
                    assert(before.lookup@[bucket(before.cells@[i])]@.contains(i as u32));
                    if bucket(self.cells@[i]) == h {
                        let k = choose|k: int| 0 <= k < ids0.len() && ids0[k] == i as u32;
                        assert(self.lookup@[h]@[k] == i as u32);
                    }
                } else {
                    assert(self.lookup@[h]@[ids0.len() as int] == id);
                }
            }
            assert forall|g: u64, k: int|
                self.lookup@.contains_key(g) && 0 <= k < self.lookup@[g]@.len() implies (
            #[trigger] self.lookup@[g]@[k]) < self.cells@.len() by {
                if g == h {
                    if k < ids0.len() {
                        assert(before.lookup@[h]@[k] < before.cells@.len());
                    }
                } else {
                    assert(before.lookup@[g]@[k] < before.cells@.len());
                }
            }
        }
        id
    }

    /// Add a triangle. `cell` quantizes points.
    pub fn tri<F: Fn(Op) -> Single>(&mut self, f: &F, a: Point, b: Point, c: Point, material: u16)
        requires
            old(self).wf(),
            old(self)@.positions.len() + 3 <= u32::MAX,
            is_steady(*f),
        ensures
            final(self).wf(),
            final(self)@ == old(self)@.with_tri(celling(answering(*f)), a, b, c, material),
            final(self)@.positions.len() <= old(self)@.positions.len() + 3,
    {
        let ghost m0 = self@;
        let ca: Cell = quantize(f, a);
        let cb: Cell = quantize(f, b);
        let cc: Cell = quantize(f, c);
        proof {
            lemma_vertex_sound(m0, a, ca);
            lemma_vertex_sound(m0.with_vertex(a, ca), b, cb);
            lemma_vertex_sound(m0.with_vertex(a, ca).with_vertex(b, cb), c, cc);
        }
        let ia: u32 = self.vertex_in(a, ca);
        let ib: u32 = self.vertex_in(b, cb);
        let ic: u32 = self.vertex_in(c, cc);
        let ghost before = *self;
        self.indices.push([ia, ib, ic]);
        self.tri_material.push(material);
        proof {
            let last = before.indices@.len() as int;
            assert forall|t: int, k: int|
                0 <= t < self@.indices.len() && 0 <= k < 3 implies (#[trigger] self@.indices[t]@[k])
                < self@.positions.len() by {
                if t < last {
                    assert(self@.indices[t] == before@.indices[t]);
                    assert(before@.indices[t]@[k] < before@.positions.len());
                } else {
                    assert(self@.indices[t]@ =~= seq![ia, ib, ic]);
                }
            }
            assert(self@.is_sound());
        }
    }
}

impl View for MeshBuilder {
    type V = Parts;

    closed spec fn view(&self) -> Parts {
        Parts {
            positions: self.positions@,
            cells: self.cells@,
            indices: self.indices@,
            tri_material: self.tri_material@,
            materials: self.materials@,
        }
    }
}

impl MeshBuilder {
    /// Quad a-b-c-d (planar, in winding order) as two triangles.
    pub fn quad<F: Fn(Op) -> Single>(
        &mut self,
        f: &F,
        a: Point,
        b: Point,
        c: Point,
        d: Point,
        material: u16,
    )
        requires
            old(self).wf(),
            old(self)@.positions.len() + 6 <= u32::MAX,
            is_steady(*f),
        ensures
            final(self).wf(),
            final(self)@ == old(self)@.with_quad(celling(answering(*f)), a, b, c, d, material),
            final(self)@.positions.len() <= old(self)@.positions.len() + 6,
    {
        self.tri(f, a, b, c, material);
        self.tri(f, a, c, d, material);
        reveal(Parts::with_quad);
    }

    /// Axis-aligned box, all faces one material, wound outward.
    pub fn abox<F: Fn(Op) -> Single>(&mut self, f: &F, lo: Point, hi: Point, material: u16)
        requires
            old(self).wf(),
            old(self)@.positions.len() + 36 <= u32::MAX,
            is_steady(*f),
        ensures
            final(self).wf(),
            final(self)@ == old(self)@.with_box(celling(answering(*f)), lo, hi, material),
    {
        let v000: Point = corner_of(&lo, &hi, false, false, false);
        let v001: Point = corner_of(&lo, &hi, false, false, true);
        let v010: Point = corner_of(&lo, &hi, false, true, false);
        let v011: Point = corner_of(&lo, &hi, false, true, true);
        let v100: Point = corner_of(&lo, &hi, true, false, false);
        let v101: Point = corner_of(&lo, &hi, true, false, true);
        let v110: Point = corner_of(&lo, &hi, true, true, false);
        let v111: Point = corner_of(&lo, &hi, true, true, true);
        self.quad(f, v000, v001, v011, v010, material);
        self.quad(f, v100, v110, v111, v101, material);
        self.quad(f, v000, v100, v101, v001, material);
        self.quad(f, v010, v011, v111, v110, material);
        self.quad(f, v000, v010, v110, v100, material);
        self.quad(f, v001, v101, v111, v011, material);
    }

    /// Put the mesh into a hierarchy; nothing where it falls into too many
    /// patches.
    pub fn build<F: Fn(Op) -> Single>(self, f: &F) -> (r: Option<Mesh>)
        requires
            is_steady(*f),
            self.wf(),
            self@.indices.len() <= u32::MAX,
        ensures
            r is Some <==> patches_of(answering(*f), self@.first_patches()) is Some,
            r matches Some(m) ==> {
                &&& m.wf()
                &&& m.parts.positions@ == self@.positions
                &&& m.parts.indices@ == self@.indices
                &&& m.parts.tri_material@ == self@.tri_material
                &&& m.parts.materials@ == self@.materials
                &&& m.is_made(answering(*f))
            },
    {
        let parts: MeshParts = self.finish();
        assert(parts@.first_patches() =~= self@.first_patches());
        Mesh::new(f, parts)
    }

    /// Hand the finished parts over.
    pub fn finish(self) -> (r: MeshParts)
        requires
            self.wf(),
        ensures
            r.positions@ == self@.positions,
            r.indices@ == self@.indices,
            r.tri_material@ == self@.tri_material,
            r.materials@ == self@.materials,
            r.is_sound(),
    {
        proof {
            assert(self@.is_sound());
            assert forall|t: int, k: int|
                0 <= t < self.indices@.len() && 0 <= k < 3 implies (#[trigger] self.indices@[t]@[k])
                < self.positions@.len() by {
                assert(self@.indices[t]@[k] < self@.positions.len());
            }
        }
        MeshParts {
            positions: self.positions,
            indices: self.indices,
            tri_material: self.tri_material,
            materials: self.materials,
        }
    }
}

proof fn lemma_quad_is_two_triangles(
    m: Parts,
    cell: spec_fn(Point) -> Cell,
    a: Point,
    b: Point,
    c: Point,
    d: Point,
    material: u16,
)
    ensures
        m.with_quad(cell, a, b, c, d, material).indices.len() == m.indices.len() + 2,
        m.with_quad(cell, a, b, c, d, material).tri_material == m.tri_material.push(material).push(
            material,
        ),
        forall|t: int|
            0 <= t < m.indices.len() ==> #[trigger] m.with_quad(cell, a, b, c, d, material).indices[t]
                == m.indices[t],
{
    reveal(Parts::with_quad);
}

/// The unit normal of a triangle.
pub open spec fn face_normal(f: Calc, a: Point, b: Point, c: Point) -> Point {
    unit_of(f, cross(f, vdiff(f, b, a), vdiff(f, c, a)))
}

/// Every operation behind the normal of a triangle is exact.
pub open spec fn exact_normal(f: Calc, a: Point, b: Point, c: Point) -> bool {
    let n = cross(f, vdiff(f, b, a), vdiff(f, c, a));
    &&& exact_vdiff(f, b, a)
    &&& exact_vdiff(f, c, a)
    &&& exact_cross(f, vdiff(f, b, a), vdiff(f, c, a))
    &&& exact_norm(f, n)
    &&& is_exact(f, Op::Over(Single(ONE), norm(f, n)))
    &&& exact_vscaled(f, n, quot(f, Single(ONE), norm(f, n)))
}

/// One of the two triangles of a face of the box.
pub open spec fn face_triangle(lo: Point, hi: Point, face: int, second: bool) -> (
    Point,
    Point,
    Point,
) {
    let q = box_face(lo, hi, face);
    if second {
        (q.0, q.2, q.3)
    } else {
        (q.0, q.1, q.2)
    }
}

/// The direction in which a face of a box looks, away from the box's centre.
pub open spec fn outward(face: int) -> Vector {
    if face == 0 {
        (-1real, 0real, 0real)
    } else if face == 1 {
        (1real, 0real, 0real)
    } else if face == 2 {
        (0real, -1real, 0real)
    } else if face == 3 {
        (0real, 1real, 0real)
    } else if face == 4 {
        (0real, 0real, -1real)
    } else {
        (0real, 0real, 1real)
    }
}

proof fn lemma_unit_axis(w: real, l: real, k: real)
    requires
        l >= 0real,
        l * l == w * w,
        k * l == 1real,
    ensures
        w < 0real ==> w * k == -1real,
        w > 0real ==> w * k == 1real,
        0real * k == 0real,
{
    assert(l == w || l == -w) by (nonlinear_arith)
        requires
            l * l == w * w,
    ;
    assert((-w) * k == -(w * k)) by (nonlinear_arith);
    assert(k * w == w * k && k * (-w) == (-w) * k) by (nonlinear_arith);
}

/// The outer product of the sides of a face's triangle.
proof fn lemma_face_product(
    face: int,
    second: bool,
    dx: real,
    dy: real,
    dz: real,
    e1: Vector,
    e2: Vector,
)
    requires
        0 <= face < 6,
        e1 == face_sides(face, second, dx, dy, dz).0,
        e2 == face_sides(face, second, dx, dy, dz).1,
    ensures
        outer(e1, e2) == (if face == 0 {
            (-(dy * dz), 0real, 0real)
        } else if face == 1 {
            (dy * dz, 0real, 0real)
        } else if face == 2 {
            (0real, -(dx * dz), 0real)
        } else if face == 3 {
            (0real, dx * dz, 0real)
        } else if face == 4 {
            (0real, 0real, -(dx * dy))
        } else {
            (0real, 0real, dx * dy)
        }),
{
    let (x1, y1, z1) = e1;
    let (x2, y2, z2) = e2;
    if face == 0 && !second {
        assert(y1 * z2 - z1 * y2 == -(dy * dz) && z1 * x2 - x1 * z2 == 0real && x1 * y2 - y1 * x2 == 0real)
            by (nonlinear_arith)
            requires
                x1 == 0real,
                x2 == 0real,
                y1 == 0real,
                y2 == dy,
                z1 == dz,
                z2 == dz,
        ;
    } else if face == 0 && second {
        assert(y1 * z2 - z1 * y2 == -(dy * dz) && z1 * x2 - x1 * z2 == 0real && x1 * y2 - y1 * x2 == 0real)
            by (nonlinear_arith)
            requires
                x1 == 0real,
                x2 == 0real,
                y1 == dy,
                y2 == dy,
                z1 == dz,
                z2 == 0real,
        ;
    } else if face == 1 && !second {
        assert(y1 * z2 - z1 * y2 == (dy * dz) && z1 * x2 - x1 * z2 == 0real && x1 * y2 - y1 * x2 == 0real)
            by (nonlinear_arith)
            requires
                x1 == 0real,
                x2 == 0real,
                y1 == dy,
                y2 == dy,
                z1 == 0real,
                z2 == dz,
        ;
    } else if face == 1 && second {
        assert(y1 * z2 - z1 * y2 == (dy * dz) && z1 * x2 - x1 * z2 == 0real && x1 * y2 - y1 * x2 == 0real)
            by (nonlinear_arith)
            requires
                x1 == 0real,
                x2 == 0real,
                y1 == dy,
                y2 == 0real,
                z1 == dz,
                z2 == dz,
        ;
    } else if face == 2 && !second {
        assert(y1 * z2 - z1 * y2 == 0real && z1 * x2 - x1 * z2 == -(dx * dz) && x1 * y2 - y1 * x2 == 0real)
            by (nonlinear_arith)
            requires
                x1 == dx,
                x2 == dx,
                y1 == 0real,
                y2 == 0real,
                z1 == 0real,
                z2 == dz,
        ;
    } else if face == 2 && second {
        assert(y1 * z2 - z1 * y2 == 0real && z1 * x2 - x1 * z2 == -(dx * dz) && x1 * y2 - y1 * x2 == 0real)
            by (nonlinear_arith)
            requires
                x1 == dx,
                x2 == 0real,
                y1 == 0real,
                y2 == 0real,
                z1 == dz,
                z2 == dz,
        ;
    } else if face == 3 && !second {
        assert(y1 * z2 - z1 * y2 == 0real && z1 * x2 - x1 * z2 == (dx * dz) && x1 * y2 - y1 * x2 == 0real)
            by (nonlinear_arith)
            requires
                x1 == 0real,
                x2 == dx,
                y1 == 0real,
                y2 == 0real,
                z1 == dz,
                z2 == dz,
        ;
    } else if face == 3 && second {
        assert(y1 * z2 - z1 * y2 == 0real && z1 * x2 - x1 * z2 == (dx * dz) && x1 * y2 - y1 * x2 == 0real)
            by (nonlinear_arith)
            requires
                x1 == dx,
                x2 == dx,
                y1 == 0real,
                y2 == 0real,
                z1 == dz,
                z2 == 0real,
        ;
    } else if face == 4 && !second {
        assert(y1 * z2 - z1 * y2 == 0real && z1 * x2 - x1 * z2 == 0real && x1 * y2 - y1 * x2 == -(dx * dy))
            by (nonlinear_arith)
            requires
                x1 == 0real,
                x2 == dx,
                y1 == dy,
                y2 == dy,
                z1 == 0real,
                z2 == 0real,
        ;
    } else if face == 4 && second {
        assert(y1 * z2 - z1 * y2 == 0real && z1 * x2 - x1 * z2 == 0real && x1 * y2 - y1 * x2 == -(dx * dy))
            by (nonlinear_arith)
            requires
                x1 == dx,
                x2 == dx,
                y1 == dy,
                y2 == 0real,
                z1 == 0real,
                z2 == 0real,
        ;
    } else if face == 5 && !second {
        assert(y1 * z2 - z1 * y2 == 0real && z1 * x2 - x1 * z2 == 0real && x1 * y2 - y1 * x2 == (dx * dy))
            by (nonlinear_arith)
            requires
                x1 == dx,
                x2 == dx,
                y1 == 0real,
                y2 == dy,
                z1 == 0real,
                z2 == 0real,
        ;
    } else if face == 5 && second {
        assert(y1 * z2 - z1 * y2 == 0real && z1 * x2 - x1 * z2 == 0real && x1 * y2 - y1 * x2 == (dx * dy))
            by (nonlinear_arith)
            requires
                x1 == dx,
                x2 == 0real,
                y1 == dy,
                y2 == dy,
                z1 == 0real,
                z2 == 0real,
        ;
    }
}

/// The two sides, from its first corner, of a triangle of a face.
spec fn face_sides(face: int, second: bool, dx: real, dy: real, dz: real) -> (Vector, Vector) {
    if face == 0 && !second {
        ((0real, 0real, dz), (0real, dy, dz))
    } else if face == 0 && second {
        ((0real, dy, dz), (0real, dy, 0real))
    } else if face == 1 && !second {
        ((0real, dy, 0real), (0real, dy, dz))
    } else if face == 1 && second {
        ((0real, dy, dz), (0real, 0real, dz))
    } else if face == 2 && !second {
        ((dx, 0real, 0real), (dx, 0real, dz))
    } else if face == 2 && second {
        ((dx, 0real, dz), (0real, 0real, dz))
    } else if face == 3 && !second {
        ((0real, 0real, dz), (dx, 0real, dz))
    } else if face == 3 && second {
        ((dx, 0real, dz), (dx, 0real, 0real))
    } else if face == 4 && !second {
        ((0real, dy, 0real), (dx, dy, 0real))
    } else if face == 4 && second {
        ((dx, dy, 0real), (dx, 0real, 0real))
    } else if face == 5 && !second {
        ((dx, 0real, 0real), (dx, dy, 0real))
    } else {
        ((dx, dy, 0real), (0real, dy, 0real))
    }
}

/// In exact arithmetic every face of a box looks outward: the normals of both
/// of its triangles point away from the centre.
pub proof fn boxes_are_wound_outward(f: Calc, lo: Point, hi: Point, face: int, second: bool)
    requires
        0 <= face < 6,
        forall|k: int| 0 <= k < 3 ==> value(#[trigger] lo@[k]) < value(hi@[k]),
        ({
            let t = face_triangle(lo, hi, face, second);
            exact_normal(f, t.0, t.1, t.2)
        }),
    ensures
        ({
            let t = face_triangle(lo, hi, face, second);
            vector(face_normal(f, t.0, t.1, t.2)) == outward(face)
        }),
{
    let (a, b, c) = face_triangle(lo, hi, face, second);
    let (p, q) = (vdiff(f, b, a), vdiff(f, c, a));
    let n = cross(f, p, q);
    let (dx, dy, dz) = (
        value(hi@[0]) - value(lo@[0]),
        value(hi@[1]) - value(lo@[1]),
        value(hi@[2]) - value(lo@[2]),
    );
    assert(dx > 0real && dy > 0real && dz > 0real);
    assert(vector(p) == face_sides(face, second, dx, dy, dz).0);
    assert(vector(q) == face_sides(face, second, dx, dy, dz).1);
    lemma_face_product(face, second, dx, dy, dz, vector(p), vector(q));
    assert(vector(n) == outer(vector(p), vector(q)));
    assert(dy * dz > 0real && dx * dz > 0real && dx * dy > 0real) by (nonlinear_arith)
        requires
            dx > 0real,
            dy > 0real,
            dz > 0real,
    ;
    let l = value(norm(f, n));
    let k = value(quot(f, Single(ONE), norm(f, n)));
    lemma_one();
    let v = vector(n);
    assert(l * l == v.0 * v.0 + v.1 * v.1 + v.2 * v.2);
    assert(0real * 0real == 0real);
    let w = if face < 2 {
        v.0
    } else if face < 4 {
        v.1
    } else {
        v.2
    };
    assert(l * l == w * w);
    lemma_unit_axis(w, l, k);
}

/// The corners of triangle `t`.
pub open spec fn tri_points(m: Parts, t: int) -> (Point, Point, Point) {
    (
        m.positions[m.indices[t]@[0] as int],
        m.positions[m.indices[t]@[1] as int],
        m.positions[m.indices[t]@[2] as int],
    )
}

/// A vertex that stands for `p` lies at `p`.
pub open spec fn is_true_to(m: Parts, cell: spec_fn(Point) -> Cell, p: Point) -> bool {
    forall|i: int| 0 <= i < m.cells.len() && #[trigger] m.cells[i] == cell(p) ==> m.positions[i] == p
}

/// The points of a set are told apart, from each other and from what is there.
pub open spec fn are_true(
    m: Parts,
    cell: spec_fn(Point) -> Cell,
    set: spec_fn(Point) -> bool,
) -> bool {
    &&& forall|p: Point| #[trigger] set(p) ==> is_true_to(m, cell, p)
    &&& forall|p: Point, q: Point| #[trigger]
        set(p) && #[trigger] set(q) && cell(p) == cell(q) ==> p == q
}

proof fn lemma_vertex_point(
    m: Parts,
    cell: spec_fn(Point) -> Cell,
    set: spec_fn(Point) -> bool,
    p: Point,
)
    requires
        m.is_sound(),
        m.positions.len() < u32::MAX,
        are_true(m, cell, set),
        set(p),
    ensures
        ({
            let r = m.with_vertex(p, cell(p));
            &&& r.is_sound()
            &&& r.positions.len() <= m.positions.len() + 1
            &&& m.positions.len() <= r.positions.len()
            &&& r.indices == m.indices
            &&& m.vertex_id(cell(p)) < r.positions.len()
            &&& r.positions[m.vertex_id(cell(p)) as int] == p
            &&& are_true(r, cell, set)
            &&& forall|i: int|
                0 <= i < m.positions.len() ==> #[trigger] r.positions[i] == m.positions[i]
        }),
{
    lemma_vertex_sound(m, p, cell(p));
    lemma_first_in_cell(m.cells, cell(p), 0);
    let r = m.with_vertex(p, cell(p));
    assert(is_true_to(m, cell, p));
    assert forall|q: Point| #[trigger] set(q) implies is_true_to(r, cell, q) by {
        assert(is_true_to(m, cell, q));
        assert forall|i: int| 0 <= i < r.cells.len() && #[trigger] r.cells[i] == cell(q) implies
            r.positions[i] == q by {
            if i < m.cells.len() {
                assert(m.cells[i] == cell(q));
            } else {
                assert(set(p) && set(q));
            }
        }
    }
}

proof fn lemma_tri_points(
    m: Parts,
    cell: spec_fn(Point) -> Cell,
    set: spec_fn(Point) -> bool,
    a: Point,
    b: Point,
    c: Point,
    material: u16,
)
    requires
        m.is_sound(),
        m.positions.len() + 3 <= u32::MAX,
        are_true(m, cell, set),
        set(a) && set(b) && set(c),
    ensures
        ({
            let r = m.with_tri(cell, a, b, c, material);
            &&& r.is_sound()
            &&& r.positions.len() <= m.positions.len() + 3
            &&& are_true(r, cell, set)
            &&& r.indices.len() == m.indices.len() + 1
            &&& tri_points(r, m.indices.len() as int) == (a, b, c)
            &&& forall|t: int|
                0 <= t < m.indices.len() ==> #[trigger] tri_points(r, t) == tri_points(m, t)
        }),
{
    let pa = m.with_vertex(a, cell(a));
    let pb = pa.with_vertex(b, cell(b));
    let pc = pb.with_vertex(c, cell(c));
    let r = m.with_tri(cell, a, b, c, material);
    lemma_vertex_point(m, cell, set, a);
    lemma_vertex_point(pa, cell, set, b);
    lemma_vertex_point(pb, cell, set, c);
    let (i, j, k) = (m.vertex_id(cell(a)), pa.vertex_id(cell(b)), pb.vertex_id(cell(c)));
    assert(r.indices == m.indices.push([i, j, k]));
    assert(pb.positions[i as int] == a && pc.positions[i as int] == a);
    assert(pc.positions[j as int] == b);
    assert forall|p: Point| #[trigger] set(p) implies is_true_to(r, cell, p) by {
        assert(is_true_to(pc, cell, p));
    }
    assert forall|t: int, n: int| 0 <= t < r.indices.len() && 0 <= n < 3 implies (
    #[trigger] r.indices[t]@[n]) < r.positions.len() by {
        if t < m.indices.len() {
            assert(m.indices[t]@[n] < m.positions.len());
        }
    }
    assert forall|t: int| 0 <= t < m.indices.len() implies #[trigger] tri_points(r, t) == tri_points(
        m,
        t,
    ) by {
        assert(m.indices[t]@[0] < m.positions.len());
        assert(m.indices[t]@[1] < m.positions.len());
        assert(m.indices[t]@[2] < m.positions.len());
        let x = m.indices[t]@[0] as int;
        let y = m.indices[t]@[1] as int;
        let z = m.indices[t]@[2] as int;
        assert(pa.positions[x] == m.positions[x] && pb.positions[x] == pa.positions[x]);
        assert(pa.positions[y] == m.positions[y] && pb.positions[y] == pa.positions[y]);
        assert(pa.positions[z] == m.positions[z] && pb.positions[z] == pa.positions[z]);
    }
}

/// A corner of the box.
pub open spec fn is_corner(lo: Point, hi: Point, p: Point) -> bool {
    exists|x: bool, y: bool, z: bool| p == #[trigger] corner(lo, hi, x, y, z)
}

/// The mesh before face `n` of a box.
spec fn before_face(
    m: Parts,
    cell: spec_fn(Point) -> Cell,
    lo: Point,
    hi: Point,
    material: u16,
    n: int,
) -> Parts
    decreases n,
{
    if n <= 0 {
        m
    } else {
        before_face(m, cell, lo, hi, material, n - 1).with_face(cell, lo, hi, n - 1, material)
    }
}

proof fn lemma_face_points(
    m: Parts,
    cell: spec_fn(Point) -> Cell,
    lo: Point,
    hi: Point,
    material: u16,
    n: int,
)
    requires
        0 <= n <= 6,
        m.is_sound(),
        m.positions.len() + 36 <= u32::MAX,
        are_true(m, cell, |p: Point| is_corner(lo, hi, p)),
    ensures
        ({
            let r = before_face(m, cell, lo, hi, material, n);
            &&& r.is_sound()
            &&& r.positions.len() <= m.positions.len() + 6 * n
            &&& are_true(r, cell, |p: Point| is_corner(lo, hi, p))
            &&& r.indices.len() == m.indices.len() + 2 * n
            &&& forall|t: int|
                0 <= t < m.indices.len() ==> #[trigger] tri_points(r, t) == tri_points(m, t)
            &&& forall|t: int|
                0 <= t < 2 * n ==> #[trigger] tri_points(r, m.indices.len() + t) == face_triangle(
                    lo,
                    hi,
                    t / 2,
                    t % 2 == 1,
                )
        }),
    decreases n,
{
    if n > 0 {
        lemma_face_points(m, cell, lo, hi, material, n - 1);
        let set = |p: Point| is_corner(lo, hi, p);
        let was = before_face(m, cell, lo, hi, material, n - 1);
        let (a, b, c, d) = box_face(lo, hi, n - 1);
        assert(set(a) && set(b) && set(c) && set(d));
        let mid = was.with_tri(cell, a, b, c, material);
        lemma_tri_points(was, cell, set, a, b, c, material);
        lemma_tri_points(mid, cell, set, a, c, d, material);
        let r = before_face(m, cell, lo, hi, material, n);
        reveal(Parts::with_quad);
        assert(r == mid.with_tri(cell, a, c, d, material));
        let l = m.indices.len() as int;
        assert forall|t: int| 0 <= t < 2 * n implies #[trigger] tri_points(r, l + t)
            == face_triangle(lo, hi, t / 2, t % 2 == 1) by {
            if t < 2 * (n - 1) {
                assert(tri_points(was, l + t) == face_triangle(lo, hi, t / 2, t % 2 == 1));
                assert(tri_points(mid, l + t) == tri_points(was, l + t));
            } else if t == 2 * n - 2 {
                assert(tri_points(mid, l + t) == (a, b, c));
            }
        }
        assert forall|t: int| 0 <= t < l implies #[trigger] tri_points(r, t) == tri_points(m, t) by {
            assert(tri_points(was, t) == tri_points(m, t));
            assert(tri_points(mid, t) == tri_points(was, t));
        }
    }
}

/// The triangles of a box are those of its faces, in order, where its corners
/// are far enough apart to be vertices of their own.
pub proof fn box_triangles_are_its_faces(
    m: Parts,
    cell: spec_fn(Point) -> Cell,
    lo: Point,
    hi: Point,
    material: u16,
    t: int,
)
    requires
        m.is_sound(),
        m.positions.len() + 36 <= u32::MAX,
        are_true(m, cell, |p: Point| is_corner(lo, hi, p)),
        0 <= t < 12,
    ensures
        tri_points(m.with_box(cell, lo, hi, material), m.indices.len() + t) == face_triangle(
            lo,
            hi,
            t / 2,
            t % 2 == 1,
        ),
{
    lemma_face_points(m, cell, lo, hi, material, 6);
    reveal_with_fuel(before_face, 7);
    assert(before_face(m, cell, lo, hi, material, 6) == m.with_box(cell, lo, hi, material));
}

/// A box adds twelve triangles, all of its material, and leaves those that
/// were there alone.
pub proof fn a_box_is_twelve_triangles(
    m: Parts,
    cell: spec_fn(Point) -> Cell,
    lo: Point,
    hi: Point,
    material: u16,
)
    ensures
        m.with_box(cell, lo, hi, material).indices.len() == m.indices.len() + 12,
        m.with_box(cell, lo, hi, material).tri_material == m.tri_material + Seq::new(
            12,
            |i: int| material,
        ),
        forall|t: int|
            0 <= t < m.indices.len() ==> #[trigger] m.with_box(cell, lo, hi, material).indices[t]
                == m.indices[t],
{
    let v = |x: bool, y: bool, z: bool| corner(lo, hi, x, y, z);
    let v000 = v(false, false, false);
    let v001 = v(false, false, true);
    let v010 = v(false, true, false);
    let v011 = v(false, true, true);
    let v100 = v(true, false, false);
    let v101 = v(true, false, true);
    let v110 = v(true, true, false);
    let v111 = v(true, true, true);
    let q1 = m.with_quad(cell, v000, v001, v011, v010, material);
    let q2 = q1.with_quad(cell, v100, v110, v111, v101, material);
    let q3 = q2.with_quad(cell, v000, v100, v101, v001, material);
    let q4 = q3.with_quad(cell, v010, v011, v111, v110, material);
    let q5 = q4.with_quad(cell, v000, v010, v110, v100, material);
    lemma_quad_is_two_triangles(m, cell, v000, v001, v011, v010, material);
    lemma_quad_is_two_triangles(q1, cell, v100, v110, v111, v101, material);
    lemma_quad_is_two_triangles(q2, cell, v000, v100, v101, v001, material);
    lemma_quad_is_two_triangles(q3, cell, v010, v011, v111, v110, material);
    lemma_quad_is_two_triangles(q4, cell, v000, v010, v110, v100, material);
    lemma_quad_is_two_triangles(q5, cell, v001, v101, v111, v011, material);
    let r = m.with_box(cell, lo, hi, material);
    assert(r == q5.with_quad(cell, v001, v101, v111, v011, material));
    assert(r.tri_material =~= m.tri_material + Seq::new(12, |i: int| material));
    assert forall|t: int| 0 <= t < m.indices.len() implies #[trigger] r.indices[t] == m.indices[t] by {
        assert(q5.indices[t] == q4.indices[t]);
        assert(q4.indices[t] == q3.indices[t]);
        assert(q3.indices[t] == q2.indices[t]);
        assert(q2.indices[t] == q1.indices[t]);
    }
}

/// An indexed mesh with per-triangle materials.
#[derive(Debug)]
pub struct MeshParts {
    pub positions: Vec<Point>,
    pub indices: Vec<[u32; 3]>,
    /// Per-triangle index into `materials`.
    pub tri_material: Vec<u16>,
    pub materials: Vec<Material>,
}

impl View for MeshParts {
    type V = Parts;

    open spec fn view(&self) -> Parts {
        Parts {
            positions: self.positions@,
            cells: Seq::empty(),
            indices: self.indices@,
            tri_material: self.tri_material@,
            materials: self.materials@,
        }
    }
}

impl Parts {
    /// The triangles as patches.
    pub open spec fn first_patches(self) -> Seq<Patch> {
        Seq::new(
            self.indices.len(),
            |t: int|
                Patch {
                    a: self.positions[self.indices[t]@[0] as int],
                    b: self.positions[self.indices[t]@[1] as int],
                    c: self.positions[self.indices[t]@[2] as int],
                    tri: t as u32,
                },
        )
    }
}

impl MeshParts {
    /// The unit normal of a triangle.
    pub open spec fn normal(self, f: Calc, tri: u32) -> Point {
        let i = self.indices@[tri as int];
        let a = self.positions@[i@[0] as int];
        let b = self.positions@[i@[1] as int];
        let c = self.positions@[i@[2] as int];
        face_normal(f, a, b, c)
    }

    pub fn tri_normal<F: Fn(Op) -> Single>(&self, f: &F, tri: u32) -> (r: Point)
        requires
            is_steady(*f),
            self.is_sound(),
            tri < self.indices@.len(),
        ensures
            r == self.normal(answering(*f), tri),
    {
        let (a, b, c) = self.tri_verts(tri);
        normalize(f, cross_of(f, vminus(f, b, a), vminus(f, c, a)))
    }

    /// Every triangle's material is one of the list.
    pub open spec fn is_dressed(self) -> bool {
        forall|t: int|
            0 <= t < self.tri_material@.len() ==> #[trigger] self.tri_material@[t]
                < self.materials@.len()
    }

    pub open spec fn is_sound(self) -> bool {
        &&& self.indices@.len() == self.tri_material@.len()
        &&& forall|t: int, k: int|
            0 <= t < self.indices@.len() && 0 <= k < 3 ==> (#[trigger] self.indices@[t]@[k])
                < self.positions@.len()
    }

    pub fn tri_count(&self) -> (r: usize)
        ensures
            r == self.indices@.len(),
    {
        self.indices.len()
    }

    /// The three corners of a triangle.
    pub fn tri_verts(&self, tri: u32) -> (r: (Point, Point, Point))
        requires
            self.is_sound(),
            tri < self.indices@.len(),
        ensures
            r.0 == self.positions@[self.indices@[tri as int]@[0] as int],
            r.1 == self.positions@[self.indices@[tri as int]@[1] as int],
            r.2 == self.positions@[self.indices@[tri as int]@[2] as int],
    {
        let i: [u32; 3] = self.indices[tri as usize];
        assert(self.indices@[tri as int]@[0] < self.positions@.len());
        assert(self.indices@[tri as int]@[1] < self.positions@.len());
        assert(self.indices@[tri as int]@[2] < self.positions@.len());
        (
            self.positions[i[0] as usize],
            self.positions[i[1] as usize],
            self.positions[i[2] as usize],
        )
    }
}

/// The pattern of 4.0: patches with a longer edge are split.
pub const MAX_PRIM_EDGE: u32 = 0x4080_0000;

/// The pattern of 1e-6: a shorter segment crosses nothing.
pub const POINT_LIKE: u32 = 0x3586_37BD;

/// A piece of a triangle, with the triangle it belongs to.
#[derive(Clone, Copy, Debug)]
pub struct Patch {
    pub a: Point,
    pub b: Point,
    pub c: Point,
    pub tri: u32,
}

/// Which edge of a patch is split.
#[derive(Clone, Copy, Debug, PartialEq, Eq, Structural)]
pub enum Split {
    Keep,
    Ab,
    Bc,
    Ca,
}

/// A patch with an edge over four metres is split at its longest edge.
pub open spec fn split(ab: Single, bc: Single, ca: Single) -> Split {
    let limit = Single(MAX_PRIM_EDGE);
    if !limit.below(ab) && !limit.below(bc) && !limit.below(ca) {
        Split::Keep
    } else if bc.at_most(ab) && ca.at_most(ab) {
        Split::Ab
    } else if ca.at_most(bc) {
        Split::Bc
    } else {
        Split::Ca
    }
}

pub fn split_of(ab: Single, bc: Single, ca: Single) -> (r: Split)
    ensures
        r == split(ab, bc, ca),
{
    let limit: Single = Single(MAX_PRIM_EDGE);
    if !limit.lt(ab) && !limit.lt(bc) && !limit.lt(ca) {
        Split::Keep
    } else if bc.le(ab) && ca.le(ab) {
        Split::Ab
    } else if ca.le(bc) {
        Split::Bc
    } else {
        Split::Ca
    }
}

/// The middle between two points.
pub open spec fn middle(f: Calc, a: Point, b: Point) -> Point {
    vscaled(f, vsum(f, a, b), Single(HALF))
}

fn middle_of<F: Fn(Op) -> Single>(f: &F, a: Point, b: Point) -> (r: Point)
    requires
        is_steady(*f),
    ensures
        r == middle(answering(*f), a, b),
{
    vscale(f, vplus(f, a, b), Single(HALF))
}

impl Patch {
    /// How the patch is to be split.
    pub open spec fn split(self, f: Calc) -> Split {
        split(
            distance(f, self.b, self.a),
            distance(f, self.c, self.b),
            distance(f, self.a, self.c),
        )
    }

    /// The two halves of the patch.
    pub open spec fn halves(self, f: Calc, s: Split) -> Seq<Patch> {
        match s {
            Split::Keep => Seq::empty(),
            Split::Ab => {
                let m = middle(f, self.a, self.b);
                seq![Patch { b: m, ..self }, Patch { a: m, ..self }]
            },
            Split::Bc => {
                let m = middle(f, self.b, self.c);
                seq![Patch { c: m, ..self }, Patch { b: m, ..self }]
            },
            Split::Ca => {
                let m = middle(f, self.c, self.a);
                seq![Patch { c: m, ..self }, Patch { a: m, ..self }]
            },
        }
    }

    /// The patch as a corner and two edges.
    pub open spec fn packed(self, f: Calc) -> PackedTri {
        PackedTri {
            a: self.a,
            e1: vdiff(f, self.b, self.a),
            e2: vdiff(f, self.c, self.a),
            tri: self.tri,
        }
    }
}

/// What becomes of the patches within `k` steps, each of which takes the last
/// one off the work and keeps it or splits it at its longest edge; nothing
/// where there is work left.
pub open spec fn settled(f: Calc, work: Seq<Patch>, done: Seq<Patch>, k: nat) -> Option<Seq<Patch>>
    decreases k,
{
    if work.len() == 0 {
        Some(done)
    } else if k == 0 {
        None
    } else {
        let p = work.last();
        let s = p.split(f);
        settled(
            f,
            work.drop_last() + p.halves(f, s),
            if s is Keep {
                done.push(p)
            } else {
                done
            },
            (k - 1) as nat,
        )
    }
}

/// Most steps: more would leave more patches than there may be.
pub const MAX_STEPS: u64 = 0x8000_0000;

/// The patches of a mesh; nothing where there are too many.
pub open spec fn patches_of(f: Calc, work: Seq<Patch>) -> Option<Seq<Patch>> {
    match settled(f, work, Seq::empty(), MAX_STEPS as nat) {
        Some(p) if p.len() <= MAX_PRIMS => Some(p),
        _ => None,
    }
}

pub open spec fn all_packed(f: Calc, patches: Seq<Patch>) -> Seq<PackedTri> {
    Seq::new(patches.len(), |i: int| patches[i].packed(f))
}

spec fn belong(patches: Seq<Patch>, n: int) -> bool {
    forall|i: int| 0 <= i < patches.len() ==> (#[trigger] patches[i]).tri < n
}

/// Cut oversized triangles into patches of the same triangle, so that none
/// inflates every bounding box.
fn tessellate<F: Fn(Op) -> Single>(f: &F, parts: &MeshParts) -> (r: Option<Vec<Patch>>)
    requires
        is_steady(*f),
        parts.is_sound(),
        parts.indices@.len() <= u32::MAX,
    ensures
        match r {
            Some(p) => patches_of(answering(*f), parts@.first_patches()) == Some(p@),
            None => patches_of(answering(*f), parts@.first_patches()) is None,
        },
        r matches Some(p) ==> belong(p@, parts.indices@.len() as int) && p@.len() <= MAX_PRIMS,
{
    let ghost g = answering(*f);
    let ghost n = parts.indices@.len() as int;
    let ghost first = parts@.first_patches();
    let mut work: Vec<Patch> = Vec::new();
    let mut t: usize = 0;
    while t < parts.indices.len()
        invariant
            t <= parts.indices@.len() <= u32::MAX,
            parts.is_sound(),
            first == parts@.first_patches(),
            work@ == first.take(t as int),
        decreases parts.indices@.len() - t,
    {
        let v: (Point, Point, Point) = parts.tri_verts(t as u32);
        work.push(Patch { a: v.0, b: v.1, c: v.2, tri: t as u32 });
        t = t + 1;
        assert(work@ =~= first.take(t as int));
    }
    assert(work@ =~= first);
    let mut done: Vec<Patch> = Vec::new();
    let mut left: u64 = MAX_STEPS;
    while work.len() > 0 && left > 0
        invariant
            left <= MAX_STEPS,
            is_steady(*f),
            g == answering(*f),
            belong(work@, n),
            belong(done@, n),
            settled(g, work@, done@, left as nat) == settled(
                g,
                first,
                Seq::empty(),
                MAX_STEPS as nat,
            ),
        decreases left,
    {
        let ghost work0 = work@;
        let p: Patch = work[work.len() - 1];
        assert(p == work0.last());
        assert(p.tri < n);
        let _ = work.pop();
        let ab: Single = distance_of(f, p.b, p.a);
        let bc: Single = distance_of(f, p.c, p.b);
        let ca: Single = distance_of(f, p.a, p.c);
        let s: Split = split_of(ab, bc, ca);
        match s {
            Split::Keep => {
                done.push(p);
            },
            Split::Ab => {
                let m: Point = middle_of(f, p.a, p.b);
                work.push(Patch { b: m, ..p });
                work.push(Patch { a: m, ..p });
            },
            Split::Bc => {
                let m: Point = middle_of(f, p.b, p.c);
                work.push(Patch { c: m, ..p });
                work.push(Patch { b: m, ..p });
            },
            Split::Ca => {
                let m: Point = middle_of(f, p.c, p.a);
                work.push(Patch { c: m, ..p });
                work.push(Patch { a: m, ..p });
            },
        }
        assert(work@ =~= work0.drop_last() + p.halves(g, s));
        assert(belong(work@, n)) by {
            assert forall|i: int| 0 <= i < work@.len() implies (#[trigger] work@[i]).tri < n by {
                if i < work0.len() - 1 {
                    assert(work@[i] == work0[i]);
                }
            }
        }
        left = left - 1;
    }
    if work.len() > 0 || done.len() > MAX_PRIMS {
        None
    } else {
        Some(done)
    }
}

/// Splitting keeps a patch within its triangle: every half has the triangle's
/// number, and two of the patch's own corners.
pub proof fn halves_belong_to_the_same_triangle(
    f: Calc,
    p: Patch,
    s: Split,
    k: int,
)
    requires
        0 <= k < p.halves(f, s).len(),
    ensures
        p.halves(f, s)[k].tri == p.tri,
        ({
            let h = p.halves(f, s)[k];
            ||| h.a == p.a && h.b == p.b
            ||| h.b == p.b && h.c == p.c
            ||| h.a == p.a && h.c == p.c
        }),
{
}

/// One crossing of a segment through the mesh.
#[derive(Clone, Copy, Debug)]
pub struct SegHit {
    /// Share of the segment, 0 to 1.
    pub t: Single,
    pub tri: u32,
    pub material: u16,
}

/// A mesh with the patches of its triangles in a bounding-volume hierarchy.
#[derive(Debug)]
pub struct Mesh {
    pub parts: MeshParts,
    pub prims: Vec<PackedTri>,
    pub bvh: Bvh,
}

/// `next` is the same crossing as the last one kept.
pub open spec fn repeats(
    kept: Seq<SegHit>,
    next: SegHit,
    close: spec_fn((Single, Single)) -> bool,
) -> bool {
    kept.len() > 0 && close((next.t, kept.last().t))
}

/// The first `n` hits without those that repeat the last one kept: a crossing
/// on the shared edge of two patches is one surface, not two.
pub open spec fn deduped(
    hits: Seq<SegHit>,
    close: spec_fn((Single, Single)) -> bool,
    n: int,
) -> Seq<SegHit>
    decreases n,
{
    if n <= 0 {
        Seq::empty()
    } else {
        let kept = deduped(hits, close, n - 1);
        if repeats(kept, hits[n - 1], close) {
            kept
        } else {
            kept.push(hits[n - 1])
        }
    }
}

/// The hits that the crossings amount to, in the order of `picks`.
pub open spec fn hits_of(
    mesh: Mesh,
    found: Seq<(Single, usize)>,
    picks: Seq<usize>,
) -> Seq<SegHit> {
    Seq::new(
        picks.len(),
        |i: int|
            {
                let f = found[picks[i] as int];
                let tri = mesh.prims@[f.1 as int].tri;
                SegHit { t: f.0, tri, material: mesh.parts.tri_material@[tri as int] }
            },
    )
}

/// The shares of the segment at which the crossings lie.
pub open spec fn shares(found: Seq<(Single, usize)>) -> Seq<Single> {
    Seq::new(found.len(), |i: int| found[i].0)
}

/// Two shares of a segment of a length are one crossing.
pub open spec fn closeness(f: Calc, len: Single) -> spec_fn((Single, Single)) -> bool {
    |q: (Single, Single)|
        size(diff(f, q.0, q.1)).below(quot(f, Single(SAME_SHARE), greater(len, Single(ONE))))
}

/// The pattern of 1e-4: crossings nearer to each other than this share of a
/// metre are one.
pub const SAME_SHARE: u32 = 0x38D1_B717;

impl Mesh {
    pub open spec fn wf(self) -> bool {
        &&& self.parts.is_sound()
        &&& self.bvh.is_walkable()
        &&& self.bvh.order@.len() == self.prims@.len()
        &&& forall|k: int|
            0 <= k < self.bvh.order@.len() ==> #[trigger] self.bvh.order@[k] < self.prims@.len()
        &&& forall|p: usize| p < self.prims@.len() ==> #[trigger] self.bvh.order@.contains(p)
        &&& forall|k: int|
            0 <= k < self.prims@.len() ==> (#[trigger] self.prims@[k]).tri < self.parts.indices@.len()
    }

    /// The mesh is made of its parts: their patches, in a tree over them.
    pub open spec fn is_made(self, f: Calc) -> bool {
        &&& patches_of(f, self.parts@.first_patches()) matches Some(p) && self.prims@ == all_packed(
            f,
            p,
        )
        &&& self.bvh.is_built(measuring(f, self.prims@))
    }

    /// Put a mesh into a hierarchy; nothing where it falls into too many
    /// patches.
    pub fn new<F: Fn(Op) -> Single>(f: &F, parts: MeshParts) -> (r: Option<Self>)
        requires
            is_steady(*f),
            parts.is_sound(),
            parts.indices@.len() <= u32::MAX,
        ensures
            r is Some <==> patches_of(answering(*f), parts@.first_patches()) is Some,
            r matches Some(m) ==> m.wf() && m.parts == parts && m.is_made(answering(*f)),
    {
        let ghost g = answering(*f);
        let patches: Vec<Patch> = match tessellate(f, &parts) {
            Some(p) => p,
            None => {
                return None;
            },
        };
        let ghost goal = all_packed(g, patches@);
        let mut prims: Vec<PackedTri> = Vec::new();
        let mut k: usize = 0;
        while k < patches.len()
            invariant
                k <= patches@.len(),
                is_steady(*f),
                g == answering(*f),
                goal == all_packed(g, patches@),
                prims@ == goal.take(k as int),
            decreases patches@.len() - k,
        {
            let p: Patch = patches[k];
            prims.push(
                PackedTri {
                    a: p.a,
                    e1: vminus(f, p.b, p.a),
                    e2: vminus(f, p.c, p.a),
                    tri: p.tri,
                },
            );
            k = k + 1;
            assert(prims@ =~= goal.take(k as int));
        }
        assert(prims@ =~= goal);
        assert forall|k: int| 0 <= k < prims@.len() implies (#[trigger] prims@[k]).tri
            < parts.indices@.len() by {
            assert(patches@[k].tri < parts.indices@.len());
        }
        let bvh: Bvh = Bvh::build(f, &prims);
        proof {
            broadcast use vstd::seq_lib::group_to_multiset_ensures;

            let all = Seq::new(prims@.len(), |i: int| i as usize);
            assert forall|k: int| 0 <= k < bvh.order@.len() implies #[trigger] bvh.order@[k]
                < prims@.len() by {
                assert(bvh.order@.contains(bvh.order@[k]));
                assert(bvh.order@.to_multiset().count(bvh.order@[k]) > 0);
                assert(all.contains(bvh.order@[k]));
            }
            assert forall|p: usize| p < prims@.len() implies #[trigger] bvh.order@.contains(p) by {
                assert(all[p as int] == p);
                assert(all.contains(p));
                assert(all.to_multiset().count(p) > 0);
                assert(bvh.order@.to_multiset().count(p) > 0);
            }
        }
        Some(Self { parts, prims, bvh })
    }

    pub fn tri_count(&self) -> (r: usize)
        ensures
            r == self.parts.indices@.len(),
    {
        self.parts.tri_count()
    }

    /// The nearest hit along a ray: the distance and the triangle.
    pub open spec fn cast(self, f: Calc, o: Point, d: Point) -> Option<(Single, u32)> {
        match self.bvh.nearest(f, self.prims@, Line::from(f, o, d)) {
            None => None,
            Some(b) => Some((b.0, self.prims@[b.1 as int].tri)),
        }
    }

    pub fn raycast<F: Fn(Op) -> Single>(&self, f: &F, o: Point, d: Point) -> (r: Option<
        (Single, u32),
    >)
        requires
            is_steady(*f),
            self.wf(),
        ensures
            r == self.cast(answering(*f), o, d),
            r matches Some(h) ==> h.1 < self.parts.indices@.len(),
    {
        let l: Line = Line::new(f, o, d);
        let best: Option<(Single, usize)> = self.bvh.raycast(f, &self.prims, &l);
        proof {
            the_nearest_hit_is_found(self.bvh, answering(*f), self.prims@, l);
            if let Some(b) = best {
                let k = choose|k: int| 0 <= k < self.bvh.order@.len() && self.bvh.order@[k] == b.1;
                assert(self.bvh.order@[k] < self.prims@.len());
            }
        }
        match best {
            None => None,
            Some(b) => Some((b.0, self.prims[b.1].tri)),
        }
    }

    /// The surfaces that the segment from `a` to `b` crosses strictly between
    /// its ends, by rising share and without repetition.
    pub open spec fn crossed(self, f: Calc, a: Point, b: Point) -> Seq<SegHit> {
        let d = vdiff(f, b, a);
        let len = norm(f, d);
        let dn = vscaled(f, d, quot(f, Single(ONE), len));
        let found = self.bvh.crossings_of(f, self.prims@, Line::from(f, a, dn), len);
        if self.bvh.nodes@.len() == 0 || len.below(Single(POINT_LIKE)) {
            Seq::empty()
        } else {
            deduped(
                hits_of(self, found, risen(shares(found))),
                closeness(f, len),
                found.len() as int,
            )
        }
    }

    /// Every crossing of a segment strictly between its ends, by rising share:
    /// each is a surface the sound must pass through.
    pub fn segment_hits<F: Fn(Op) -> Single>(
        &self,
        f: &F,
        a: Point,
        b: Point,
        out: &mut Vec<SegHit>,
    )
        requires
            is_steady(*f),
            self.wf(),
        ensures
            final(out)@ == self.crossed(answering(*f), a, b),
            forall|i: int|
                0 <= i < final(out)@.len() ==> (#[trigger] final(out)@[i]).tri
                    < self.parts.indices@.len() && final(out)@[i].material
                    == self.parts.tri_material@[final(out)@[i].tri as int],
    {
        out.clear();
        let ghost g = answering(*f);
        let d: Point = vminus(f, b, a);
        let len: Single = norm_of(f, d);
        if self.bvh.nodes.len() == 0 || len.lt(Single(POINT_LIKE)) {
            return;
        }
        let dn: Point = vscale(f, d, over(f, Single(ONE), len));
        let l: Line = Line::new(f, a, dn);
        let found: Vec<(Single, usize)> = self.bvh.crossings(f, &self.prims, &l, len);
        proof {
            lemma_crossings_in_range(*self, g, l, len);
        }
        let mut keys: Vec<Single> = Vec::new();
        let mut i: usize = 0;
        while i < found.len()
            invariant
                i <= found@.len(),
                keys@ == shares(found@.take(i as int)),
            decreases found@.len() - i,
        {
            keys.push(found[i].0);
            i = i + 1;
            assert(keys@ =~= shares(found@.take(i as int)));
        }
        assert(found@.take(i as int) =~= found@);
        let picks: Vec<usize> = rising(keys.as_slice());
        let ghost all = hits_of(*self, found@, picks@);
        let wide: Single = greater_of(len, Single(ONE));
        let near: Single = over(f, Single(SAME_SHARE), wide);
        let ghost close = closeness(g, len);
        let mut n: usize = 0;
        while n < picks.len()
            invariant
                n <= picks@.len(),
                self.wf(),
                is_steady(*f),
                g == answering(*f),
                near == quot(g, Single(SAME_SHARE), greater(len, Single(ONE))),
                close == closeness(g, len),
                keys@.len() == found@.len(),
                is_rising(keys@, picks@),
                forall|j: int|
                    0 <= j < found@.len() ==> (#[trigger] found@[j]).1 < self.prims@.len(),
                all == hits_of(*self, found@, picks@),
                out@ == deduped(all, close, n as int),
                forall|i: int|
                    0 <= i < out@.len() ==> (#[trigger] out@[i]).tri < self.parts.indices@.len()
                        && out@[i].material == self.parts.tri_material@[out@[i].tri as int],
            decreases picks@.len() - n,
        {
            let x: (Single, usize) = found[picks[n]];
            assert(found@[picks@[n as int] as int].1 < self.prims@.len());
            let tri: u32 = self.prims[x.1].tri;
            let next: SegHit = SegHit { t: x.0, tri, material: self.parts.tri_material[tri as usize] };
            assert(all[n as int] == next);
            let same: bool = if out.len() > 0 {
                let last: Single = out[out.len() - 1].t;
                let c: bool = size_of(minus(f, next.t, last)).lt(near);
                assert(close((next.t, last)) == c);
                c
            } else {
                false
            };
            if !same {
                out.push(next);
            }
            n = n + 1;
        }
    }
}

proof fn lemma_crossed_at_in_range(
    order: Seq<usize>,
    hits: spec_fn(usize) -> Option<Single>,
    first: int,
    n: int,
    max: int,
)
    requires
        0 <= first,
        first + n <= order.len(),
        forall|k: int| 0 <= k < order.len() ==> #[trigger] order[k] < max,
    ensures
        forall|j: int|
            0 <= j < crate::bvh::crossed_at(order, hits, first, n).len() ==> (
            #[trigger] crate::bvh::crossed_at(order, hits, first, n)[j]).1 < max,
    decreases n,
{
    if n > 0 {
        lemma_crossed_at_in_range(order, hits, first, n - 1, max);
        let before = crate::bvh::crossed_at(order, hits, first, n - 1);
        let after = crate::bvh::crossed_at(order, hits, first, n);
        assert forall|j: int| 0 <= j < after.len() implies (#[trigger] after[j]).1 < max by {
            if j < before.len() {
                assert(after[j] == before[j]);
            } else {
                assert(order[first + n - 1] < max);
            }
        }
    }
}

proof fn lemma_crossed_in_range(
    nodes: Seq<crate::bvh::BvhNode>,
    order: Seq<usize>,
    meets: spec_fn(u32) -> bool,
    hits: spec_fn(usize) -> Option<Single>,
    i: int,
    max: int,
)
    requires
        crate::bvh::is_subtree(nodes, order.len() as int, i),
        forall|k: int| 0 <= k < order.len() ==> #[trigger] order[k] < max,
    ensures
        forall|j: int|
            0 <= j < crate::bvh::crossed(nodes, order, meets, hits, i).len() ==> (
            #[trigger] crate::bvh::crossed(nodes, order, meets, hits, i)[j]).1 < max,
    decreases nodes.len() - i,
{
    let all = crate::bvh::crossed(nodes, order, meets, hits, i);
    if !meets(i as u32) {
    } else if nodes[i].is_leaf() {
        lemma_crossed_at_in_range(order, hits, nodes[i].first(), nodes[i].b as int, max);
    } else {
        let (a, b) = (nodes[i].a as int, nodes[i].b as int);
        lemma_crossed_in_range(nodes, order, meets, hits, a, max);
        lemma_crossed_in_range(nodes, order, meets, hits, b, max);
        let right = crate::bvh::crossed(nodes, order, meets, hits, b);
        let left = crate::bvh::crossed(nodes, order, meets, hits, a);
        assert forall|j: int| 0 <= j < all.len() implies (#[trigger] all[j]).1 < max by {
            if j < right.len() {
                assert(all[j] == right[j]);
            } else {
                assert(all[j] == left[j - right.len()]);
            }
        }
    }
}

proof fn lemma_crossings_in_range(mesh: Mesh, f: Calc, l: Line, len: Single)
    requires
        mesh.wf(),
    ensures
        forall|j: int|
            0 <= j < mesh.bvh.crossings_of(f, mesh.prims@, l, len).len() ==> (
            #[trigger] mesh.bvh.crossings_of(f, mesh.prims@, l, len)[j]).1 < mesh.prims@.len(),
{
    if mesh.bvh.nodes@.len() > 0 {
        lemma_crossed_in_range(
            mesh.bvh.nodes@,
            mesh.bvh.order@,
            crate::bvh::meeting(f, mesh.bvh.nodes@, l, len),
            crate::bvh::sharing(f, mesh.prims@, l, len),
            0,
            mesh.prims@.len() as int,
        );
    }
}

impl Mesh {
    /// What a ray meets: the nearest triangle, its normal against the ray.
    pub open spec fn met(self, f: Calc, p: Point, d: Point) -> Option<GeomHit> {
        match self.cast(f, p, d) {
            None => None,
            Some(h) => {
                let n = self.parts.normal(f, h.1);
                Some(
                    GeomHit {
                        t: h.0,
                        normal: if Single(0).below(dot(f, n, d)) {
                            vscaled(f, n, Single(MINUS_ONE))
                        } else {
                            n
                        },
                        material: self.parts.materials@[self.parts.tri_material@[h.1 as int] as int],
                    },
                )
            },
        }
    }
}

impl AcousticGeometry for Mesh {
    open spec fn is_sound(&self) -> bool {
        self.wf() && self.parts.is_dressed()
    }

    open spec fn hit_by(&self, f: Calc, p: Point, d: Point) -> Option<GeomHit> {
        self.met(f, p, d)
    }

    fn raycast_hit<F: Fn(Op) -> Single>(&self, f: &F, p: Point, d: Point) -> (r: Option<GeomHit>) {
        match self.raycast(f, p, d) {
            None => None,
            Some((t, tri)) => {
                let n: Point = self.parts.tri_normal(f, tri);
                let normal: Point = if Single(0).lt(dot_of(f, n, d)) {
                    vscale(f, n, Single(MINUS_ONE))
                } else {
                    n
                };
                let m: u16 = self.parts.tri_material[tri as usize];
                assert(self.parts.tri_material@[tri as int] < self.parts.materials@.len());
                Some(GeomHit { t, normal, material: self.parts.materials[m as usize] })
            },
        }
    }
}

/// The pattern of 1e-4: a shorter edge does not diffract.
pub const SHORT_EDGE: u32 = 0x38D1_B717;

/// A candidate diffraction edge (sharp crease or boundary).
#[derive(Clone, Copy, Debug)]
pub struct DiffractionEdge {
    pub a: Point,
    pub b: Point,
    /// Length times how sharp the crease is.
    pub importance: Single,
}

/// An edge of the mesh, as a pair of vertices in rising order, with the
/// triangles on it.
#[derive(Debug)]
pub struct EdgeUse {
    pub i: u32,
    pub j: u32,
    pub tris: Vec<u32>,
}

/// Side `s` of the mesh (three per triangle), as a pair of vertices in rising
/// order.
pub open spec fn side(indices: Seq<[u32; 3]>, s: int) -> (u32, u32) {
    let t = indices[s / 3];
    let i = t@[s % 3];
    let j = t@[(s % 3 + 1) % 3];
    if i <= j {
        (i, j)
    } else {
        (j, i)
    }
}

/// The triangles that have the edge among the first `n` sides, in order.
pub open spec fn tris_on(indices: Seq<[u32; 3]>, edge: (u32, u32), n: int) -> Seq<u32>
    decreases n,
{
    if n <= 0 {
        Seq::empty()
    } else if side(indices, n - 1) == edge {
        tris_on(indices, edge, n - 1).push(((n - 1) / 3) as u32)
    } else {
        tris_on(indices, edge, n - 1)
    }
}

/// `uses` lists every edge among the first `n` sides once, each with its
/// triangles.
pub open spec fn is_incidence(indices: Seq<[u32; 3]>, n: int, uses: Seq<EdgeUse>) -> bool {
    &&& forall|u: int|
        0 <= u < uses.len() ==> (#[trigger] uses[u]).tris@ == tris_on(
            indices,
            (uses[u].i, uses[u].j),
            n,
        ) && uses[u].tris@.len() > 0
    &&& forall|u: int, v: int|
        0 <= u < v < uses.len() ==> ((#[trigger] uses[u]).i, uses[u].j) != (
        (#[trigger] uses[v]).i, uses[v].j)
    &&& forall|s: int| 0 <= s < n ==> is_listed(uses, #[trigger] side(indices, s))
}

/// The edge is among the uses.
pub open spec fn is_listed(uses: Seq<EdgeUse>, edge: (u32, u32)) -> bool {
    exists|u: int| 0 <= u < uses.len() && ((#[trigger] uses[u]).i, uses[u].j) == edge
}

/// Name of an edge in one number.
spec fn edge_name(e: (u32, u32)) -> u64 {
    (e.0 as u64 * 0x1_0000_0000u64 + e.1 as u64) as u64
}

proof fn lemma_edge_names(e: (u32, u32), g: (u32, u32))
    ensures
        edge_name(e) == edge_name(g) <==> e == g,
        edge_name(e) == e.0 as int * 0x1_0000_0000 + e.1,
{
}

/// Every edge of the mesh with its triangles, in the order in which the edges
/// are first met.
pub fn edge_uses(indices: &Vec<[u32; 3]>) -> (uses: Vec<EdgeUse>)
    requires
        indices@.len() <= u32::MAX,
        3 * indices@.len() <= usize::MAX,
    ensures
        is_incidence(indices@, 3 * indices@.len() as int, uses@),
{
    let total: usize = 3 * indices.len();
    let mut uses: Vec<EdgeUse> = Vec::new();
    let mut index: HashMap<u64, usize> = HashMap::new();
    let mut s: usize = 0;
    while s < total
        invariant
            s <= total,
            total == 3 * indices@.len(),
            indices@.len() <= u32::MAX,
            is_incidence(indices@, s as int, uses@),
            forall|k: u64|
                index@.contains_key(k) ==> (#[trigger] index@[k]) < uses@.len() && k == edge_name(
                    (uses@[index@[k] as int].i, uses@[index@[k] as int].j),
                ),
            forall|u: int|
                0 <= u < uses@.len() ==> index@.contains_key(
                    edge_name(((#[trigger] uses@[u]).i, uses@[u].j)),
                ),
        decreases total - s,
    {
        let t: usize = s / 3;
        let k: usize = s % 3;
        let idx: [u32; 3] = indices[t];
        let p: u32 = idx[k];
        let q: u32 = idx[(k + 1) % 3];
        let (i, j): (u32, u32) = if p <= q {
            (p, q)
        } else {
            (q, p)
        };
        let ghost edge = side(indices@, s as int);
        assert(edge == (i, j));
        assert(i as u64 * 0x1_0000_0000u64 + j as u64 <= u64::MAX) by (nonlinear_arith)
            requires
                i <= 0xFFFF_FFFF,
                j <= 0xFFFF_FFFF,
        ;
        let name: u64 = i as u64 * 0x1_0000_0000u64 + j as u64;
        let ghost uses0 = uses@;
        let known: Option<usize> = match index.get(&name) {
            Some(u) => Some(*u),
            None => None,
        };
        match known {
            Some(u) => {
                proof {
                    lemma_edge_names((uses@[u as int].i, uses@[u as int].j), edge);
                }
                uses[u].tris.push(t as u32);
                proof {
                    assert forall|v: int| 0 <= v < uses@.len() implies (#[trigger] uses@[v]).i
                        == uses0[v].i && uses@[v].j == uses0[v].j by {}
                    assert forall|v: int| 0 <= v < uses@.len() implies (#[trigger] uses@[v]).tris@
                        == tris_on(indices@, (uses@[v].i, uses@[v].j), s + 1) && uses@[v].tris@.len()
                        > 0 by {
                        assert(uses0[v].tris@ == tris_on(
                            indices@,
                            (uses0[v].i, uses0[v].j),
                            s as int,
                        ));
                        if v != u {
                            assert((uses0[v].i, uses0[v].j) != edge) by {
                                if v < u {
                                    assert((uses0[v].i, uses0[v].j) != (uses0[u as int].i, uses0[u as int].j));
                                } else {
                                    assert((uses0[u as int].i, uses0[u as int].j) != (uses0[v].i, uses0[v].j));
                                }
                            }
                        }
                    }
                    assert forall|x: int| 0 <= x < s + 1 implies is_listed(
                        uses@,
                        #[trigger] side(indices@, x),
                    ) by {
                        if x == s {
                            assert((uses@[u as int].i, uses@[u as int].j) == edge);
                        } else {
                            let v = choose|v: int|
                                0 <= v < uses0.len() && ((#[trigger] uses0[v]).i, uses0[v].j) == side(
                                    indices@,
                                    x,
                                );
                            assert((uses@[v].i, uses@[v].j) == side(indices@, x));
                        }
                    }
                }
            },
            None => {
                let mut tris: Vec<u32> = Vec::new();
                tris.push(t as u32);
                index.insert(name, uses.len());
                uses.push(EdgeUse { i, j, tris });
                proof {
                    assert forall|v: int| 0 <= v < uses0.len() implies ((#[trigger] uses0[v]).i, uses0[v].j)
                        != edge by {
                        lemma_edge_names((uses0[v].i, uses0[v].j), edge);
                    }
                    lemma_absent(indices@, edge, s as int, uses0);
                    assert forall|v: int| 0 <= v < uses@.len() implies (#[trigger] uses@[v]).tris@
                        == tris_on(indices@, (uses@[v].i, uses@[v].j), s + 1) && uses@[v].tris@.len()
                        > 0 by {
                        if v < uses0.len() {
                            assert(uses@[v] == uses0[v]);
                            assert((uses0[v].i, uses0[v].j) != edge);
                        } else {
                            assert(uses@[v].tris@ =~= Seq::<u32>::empty().push((s as int / 3) as u32));
                        }
                    }
                    assert forall|x: int| 0 <= x < s + 1 implies is_listed(
                        uses@,
                        #[trigger] side(indices@, x),
                    ) by {
                        if x == s {
                            assert((uses@[uses0.len() as int].i, uses@[uses0.len() as int].j) == edge);
                        } else {
                            let v = choose|v: int|
                                0 <= v < uses0.len() && ((#[trigger] uses0[v]).i, uses0[v].j) == side(
                                    indices@,
                                    x,
                                );
                            assert(uses@[v] == uses0[v]);
                        }
                    }
                    assert forall|k: u64| index@.contains_key(k) implies (#[trigger] index@[k])
                        < uses@.len() && k == edge_name(
                        (uses@[index@[k] as int].i, uses@[index@[k] as int].j),
                    ) by {
                        if k != name {
                            assert(uses@[index@[k] as int] == uses0[index@[k] as int]);
                        }
                    }
                    assert forall|u: int| 0 <= u < uses@.len() implies index@.contains_key(
                        edge_name(((#[trigger] uses@[u]).i, uses@[u].j)),
                    ) by {
                        if u < uses0.len() {
                            assert(uses@[u] == uses0[u]);
                        }
                    }
                }
            },
        }
        s = s + 1;
    }
    uses
}

/// An edge that is not listed has no triangles yet.
proof fn lemma_absent(indices: Seq<[u32; 3]>, edge: (u32, u32), n: int, uses: Seq<EdgeUse>)
    requires
        n >= 0,
        forall|s: int| 0 <= s < n ==> is_listed(uses, #[trigger] side(indices, s)),
        forall|u: int| 0 <= u < uses.len() ==> ((#[trigger] uses[u]).i, uses[u].j) != edge,
    ensures
        tris_on(indices, edge, n) == Seq::<u32>::empty(),
    decreases n,
{
    if n > 0 {
        lemma_absent(indices, edge, n - 1, uses);
        let u = choose|u: int|
            0 <= u < uses.len() && ((#[trigger] uses[u]).i, uses[u].j) == side(indices, n - 1);
        assert((uses[u].i, uses[u].j) != edge);
    }
}

/// The pattern of 180 over pi.
pub const DEGREES: u32 = 0x4265_2EE1;

/// The pattern of 180.0.
pub const HALF_TURN: u32 = 0x4334_0000;

/// The angle in degrees between the faces of two triangles.
pub open spec fn angle_between(f: Calc, parts: MeshParts, t0: u32, t1: u32) -> Single {
    let c = clamped(
        dot(f, parts.normal(f, t0), parts.normal(f, t1)),
        Single(MINUS_ONE),
        Single(ONE),
    );
    prod(f, f(Op::Acos(c)), Single(DEGREES))
}

/// The diffraction edge that a mesh edge amounts to: its importance is its
/// length times how sharp the crease is. A boundary edge is maximally exposed;
/// a crease flatter than the angle is none, nor is a junction of more than two
/// faces.
pub open spec fn edge_of(f: Calc, parts: MeshParts, min_dihedral: Single, u: EdgeUse) -> Option<
    DiffractionEdge,
> {
    let a = parts.positions@[u.i as int];
    let b = parts.positions@[u.j as int];
    let len = distance(f, b, a);
    if len.below(Single(SHORT_EDGE)) {
        None
    } else if u.tris@.len() == 1 {
        Some(DiffractionEdge { a, b, importance: prod(f, len, Single(ONE)) })
    } else if u.tris@.len() == 2 {
        let deg = angle_between(f, parts, u.tris@[0], u.tris@[1]);
        if deg.below(min_dihedral) {
            None
        } else {
            Some(
                DiffractionEdge {
                    a,
                    b,
                    importance: prod(f, len, quot(f, deg, Single(HALF_TURN))),
                },
            )
        }
    } else {
        None
    }
}

/// The edges that the first `n` uses give, in their order.
pub open spec fn edges_of(
    f: Calc,
    parts: MeshParts,
    min_dihedral: Single,
    uses: Seq<EdgeUse>,
    n: int,
) -> Seq<DiffractionEdge>
    decreases n,
{
    if n <= 0 {
        Seq::empty()
    } else {
        let before = edges_of(f, parts, min_dihedral, uses, n - 1);
        match edge_of(f, parts, min_dihedral, uses[n - 1]) {
            None => before,
            Some(e) => before.push(e),
        }
    }
}

proof fn lemma_tris_in_range(indices: Seq<[u32; 3]>, e: (u32, u32), n: int)
    requires
        n <= 3 * indices.len(),
        indices.len() <= u32::MAX,
    ensures
        forall|k: int|
            0 <= k < tris_on(indices, e, n).len() ==> #[trigger] tris_on(indices, e, n)[k]
                < indices.len(),
    decreases n,
{
    if n > 0 {
        lemma_tris_in_range(indices, e, n - 1);
        let before = tris_on(indices, e, n - 1);
        let after = tris_on(indices, e, n);
        assert forall|k: int| 0 <= k < after.len() implies #[trigger] after[k] < indices.len() by {
            if k < before.len() {
                assert(after[k] == before[k]);
            }
        }
    }
}

proof fn lemma_uses_in_range(parts: MeshParts, n: int, uses: Seq<EdgeUse>, u: int)
    requires
        parts.is_sound(),
        n == 3 * parts.indices@.len(),
        is_incidence(parts.indices@, n, uses),
        0 <= u < uses.len(),
    ensures
        uses[u].i < parts.positions@.len(),
        uses[u].j < parts.positions@.len(),
{
    let e = (uses[u].i, uses[u].j);
    assert(tris_on(parts.indices@, e, n).len() > 0);
    lemma_listed_side(parts.indices@, e, n);
    let s = choose|s: int| 0 <= s < n && #[trigger] side(parts.indices@, s) == e;
    let t = s / 3;
    let k = s % 3;
    assert(0 <= t < parts.indices@.len());
    assert(parts.indices@[t]@[k] < parts.positions@.len());
    assert(parts.indices@[t]@[(k + 1) % 3] < parts.positions@.len());
}

proof fn lemma_listed_side(indices: Seq<[u32; 3]>, e: (u32, u32), n: int)
    requires
        tris_on(indices, e, n).len() > 0,
    ensures
        exists|s: int| 0 <= s < n && #[trigger] side(indices, s) == e,
    decreases n,
{
    if n > 0 {
        if side(indices, n - 1) != e {
            lemma_listed_side(indices, e, n - 1);
        }
    }
}

/// Diffraction edges: every mesh edge whose two faces meet at an angle of at
/// least `min_dihedral` degrees, and every boundary edge. Junctions of more
/// than two faces are left out.
pub fn extract_edges<F: Fn(Op) -> Single>(f: &F, parts: &MeshParts, min_dihedral: Single) -> (edges:
    Vec<DiffractionEdge>)
    requires
        is_steady(*f),
        parts.is_sound(),
        parts.indices@.len() <= u32::MAX,
        3 * parts.indices@.len() <= usize::MAX,
    ensures
        exists|uses: Seq<EdgeUse>| #[trigger]
            is_incidence(parts.indices@, 3 * parts.indices@.len() as int, uses) && edges@ == edges_of(
                answering(*f),
                *parts,
                min_dihedral,
                uses,
                uses.len() as int,
            ),
{
    let ghost g = answering(*f);
    let uses: Vec<EdgeUse> = edge_uses(&parts.indices);
    let mut edges: Vec<DiffractionEdge> = Vec::new();
    let mut n: usize = 0;
    while n < uses.len()
        invariant
            n <= uses@.len(),
            is_steady(*f),
            g == answering(*f),
            parts.is_sound(),
            parts.indices@.len() <= u32::MAX,
            is_incidence(parts.indices@, 3 * parts.indices@.len() as int, uses@),
            edges@ == edges_of(g, *parts, min_dihedral, uses@, n as int),
        decreases uses@.len() - n,
    {
        proof {
            let total = 3 * parts.indices@.len() as int;
            lemma_uses_in_range(*parts, total, uses@, n as int);
            lemma_tris_in_range(
                parts.indices@,
                (uses@[n as int].i, uses@[n as int].j),
                total,
            );
        }
        let a: Point = parts.positions[uses[n].i as usize];
        let b: Point = parts.positions[uses[n].j as usize];
        let len: Single = distance_of(f, b, a);
        if !len.lt(Single(SHORT_EDGE)) {
            if uses[n].tris.len() == 1 {
                edges.push(DiffractionEdge { a, b, importance: times(f, len, Single(ONE)) });
            } else if uses[n].tris.len() == 2 {
                let t0: u32 = uses[n].tris[0];
                let t1: u32 = uses[n].tris[1];
                assert(tris_on(
                    parts.indices@,
                    (uses@[n as int].i, uses@[n as int].j),
                    3 * parts.indices@.len() as int,
                )[0] == t0);
                let n0: Point = parts.tri_normal(f, t0);
                let n1: Point = parts.tri_normal(f, t1);
                let c: Single = clamp_to(dot_of(f, n0, n1), Single(MINUS_ONE), Single(ONE));
                let rad: Single = ask(f, Op::Acos(c));
                let deg: Single = times(f, rad, Single(DEGREES));
                if !deg.lt(min_dihedral) {
                    let sharp: Single = over(f, deg, Single(HALF_TURN));
                    edges.push(DiffractionEdge { a, b, importance: times(f, len, sharp) });
                }
            }
        }
        n = n + 1;
    }
    edges
}

/// The importances of the edges.
pub open spec fn importances(edges: Seq<DiffractionEdge>) -> Seq<Single> {
    Seq::new(edges.len(), |i: int| edges[i].importance)
}

/// The `max` most important edges, most important first.
pub open spec fn budgeted(edges: Seq<DiffractionEdge>, max: nat) -> Seq<DiffractionEdge> {
    let picks = top(importances(edges), max);
    Seq::new(picks.len(), |i: int| edges[picks[i] as int])
}

/// Keep the `max` most important edges, most important first. Dense meshes
/// degrade by dropping short and shallow creases first.
pub fn budget_edges(edges: &Vec<DiffractionEdge>, max: usize) -> (r: Vec<DiffractionEdge>)
    ensures
        r@ == budgeted(edges@, max as nat),
{
    let mut keys: Vec<Single> = Vec::new();
    let mut i: usize = 0;
    while i < edges.len()
        invariant
            i <= edges@.len(),
            keys@ == importances(edges@.take(i as int)),
        decreases edges@.len() - i,
    {
        keys.push(edges[i].importance);
        i = i + 1;
        assert(keys@ =~= importances(edges@.take(i as int)));
    }
    assert(edges@.take(i as int) =~= edges@);
    let picks: Vec<usize> = strongest(keys.as_slice(), max);
    let mut r: Vec<DiffractionEdge> = Vec::new();
    let mut n: usize = 0;
    while n < picks.len()
        invariant
            n <= picks@.len(),
            forall|j: int| 0 <= j < picks@.len() ==> #[trigger] picks@[j] < edges@.len(),
            r@ == Seq::new(n as nat, |j: int| edges@[picks@[j] as int]),
        decreases picks@.len() - n,
    {
        r.push(edges[picks[n]]);
        n = n + 1;
        assert(r@ =~= Seq::new(n as nat, |j: int| edges@[picks@[j] as int]));
    }
    r
}

/// The budget keeps the most important edges and drops the others: no more
/// than the budget are kept, each after the first is at most as important as
/// the one before it, and an edge that is not kept is at most as important as
/// any that is.
pub proof fn the_budget_keeps_the_most_important(edges: Seq<DiffractionEdge>, max: nat)
    requires
        edges.len() <= usize::MAX,
    ensures
        budgeted(edges, max).len() == (if edges.len() <= max { edges.len() } else { max }),
        forall|i: int, j: int|
            0 <= i < j < budgeted(edges, max).len() ==> (#[trigger] budgeted(
                edges,
                max,
            )[j]).importance.total_rank() <= (#[trigger] budgeted(
                edges,
                max,
            )[i]).importance.total_rank(),
        forall|i: int, k: int|
            0 <= i < budgeted(edges, max).len() && 0 <= k < edges.len() && !budgeted(
                edges,
                max,
            ).contains(#[trigger] edges[k]) ==> edges[k].importance.total_rank()
                <= (#[trigger] budgeted(edges, max)[i]).importance.total_rank(),
{
    let keys = importances(edges);
    the_strongest_are_listed(keys, max);
    let picks = top(keys, max);
    let kept = budgeted(edges, max);
    assert forall|i: int, j: int| 0 <= i < j < kept.len() implies (
    #[trigger] kept[j]).importance.total_rank() <= (#[trigger] kept[i]).importance.total_rank() by {
        assert(precedes(keys, picks[i] as int, picks[j] as int));
    }
    assert forall|i: int, k: int|
        0 <= i < kept.len() && 0 <= k < edges.len() && !kept.contains(#[trigger] edges[k]) implies
        edges[k].importance.total_rank() <= (#[trigger] kept[i]).importance.total_rank() by {
        if picks.contains(k as usize) {
            let j = choose|j: int| 0 <= j < picks.len() && picks[j] == k as usize;
            assert(kept[j] == edges[k]);
        }
        assert(precedes(keys, picks[i] as int, k));
    }
}

/// The hits lie one behind the other.
pub open spec fn is_in_order(hits: Seq<SegHit>) -> bool {
    forall|i: int, j: int|
        0 <= i < j < hits.len() ==> (#[trigger] hits[i]).t.total_rank() <= (
        #[trigger] hits[j]).t.total_rank()
}

/// Hit `i` is another crossing than the one before it.
pub open spec fn is_apart(hits: Seq<SegHit>, close: spec_fn((Single, Single)) -> bool, i: int) -> bool {
    !close((hits[i].t, hits[i - 1].t))
}

proof fn lemma_deduped(hits: Seq<SegHit>, close: spec_fn((Single, Single)) -> bool, n: int)
    requires
        0 <= n <= hits.len(),
        is_in_order(hits),
    ensures
        is_in_order(deduped(hits, close, n)),
        forall|i: int|
            0 <= i < deduped(hits, close, n).len() ==> (#[trigger] deduped(
                hits,
                close,
                n,
            )[i]).t.total_rank() <= hits[n - 1].t.total_rank(),
        forall|i: int|
            1 <= i < deduped(hits, close, n).len() ==> #[trigger] is_apart(
                deduped(hits, close, n),
                close,
                i,
            ),
    decreases n,
{
    if n > 0 {
        lemma_deduped(hits, close, n - 1);
        let kept = deduped(hits, close, n - 1);
        let now = deduped(hits, close, n);
        assert forall|i: int| 0 <= i < now.len() implies (#[trigger] now[i]).t.total_rank()
            <= hits[n - 1].t.total_rank() by {
            if i < kept.len() {
                assert(now[i] == kept[i]);
                assert(n - 1 > 0);
            }
        }
        assert forall|i: int| 1 <= i < now.len() implies #[trigger] is_apart(now, close, i) by {
            if i < kept.len() {
                assert(is_apart(kept, close, i));
            }
        }
    }
}

/// The crossings of a segment come by rising share, and no two in a row are
/// the same surface crossed twice.
pub proof fn crossings_come_in_order(mesh: Mesh, f: Calc, a: Point, b: Point)
    requires
        mesh.bvh.crossings_of(
            f,
            mesh.prims@,
            Line::from(
                f,
                a,
                vscaled(f, vdiff(f, b, a), quot(f, Single(ONE), norm(f, vdiff(f, b, a)))),
            ),
            norm(f, vdiff(f, b, a)),
        ).len() <= usize::MAX,
    ensures
        is_in_order(mesh.crossed(f, a, b)),
        forall|i: int|
            1 <= i < mesh.crossed(f, a, b).len() ==> #[trigger] is_apart(
                mesh.crossed(f, a, b),
                closeness(f, norm(f, vdiff(f, b, a))),
                i,
            ),
{
    let d = vdiff(f, b, a);
    let len = norm(f, d);
    let dn = vscaled(f, d, quot(f, Single(ONE), len));
    let found = mesh.bvh.crossings_of(f, mesh.prims@, Line::from(f, a, dn), len);
    the_weakest_come_first(shares(found));
    let picks = risen(shares(found));
    let hits = hits_of(mesh, found, picks);
    assert forall|i: int, j: int| 0 <= i < j < hits.len() implies (
    #[trigger] hits[i]).t.total_rank() <= (#[trigger] hits[j]).t.total_rank() by {
        let (x, y) = (picks[i], picks[j]);
        assert(shares(found)[x as int] == hits[i].t && shares(found)[y as int] == hits[j].t);
    }
    lemma_deduped(hits, closeness(f, len), found.len() as int);
}

} // verus!
