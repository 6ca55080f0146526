//! Buffer layouts of the trace kernels, word by word, and the decoding of what
//! they give back. Every buffer is a sequence of 32-bit words; numbers cross
//! as their bit patterns.

use crate::bvh::BvhNode;
use crate::material::Material;
use crate::mesh::{Mesh, Point};
use crate::tri::PackedTri;
use crate::scene::{Panel, Shoebox};
use crate::single::Single;
use crate::tracer::{Echogram, NBINS};
use vstd::prelude::*;

verus! {

/// To be raised with any change of the layouts below.
pub const LAYOUT_VERSION: u32 = 1;

/// To be raised with any change of the mesh-kernel layouts.
pub const MESH_LAYOUT_VERSION: u32 = 2;

/// Words of the energy buffer.
pub const BINS_LEN: usize = 900;

/// Words of the direction buffer.
pub const DIRS_LEN: usize = 900;

/// Energies are fixed-point numbers over 2^30.
pub const ENERGY_BITS: u32 = 30;

/// Direction sums are signed fixed-point numbers over 2^28.
pub const DIR_BITS: u32 = 28;

/// Panel slots in the panels buffer.
pub const MAX_PANELS: usize = 64;

/// One face's acoustics: absorption at word 0, scattering at word 3.
#[derive(Clone, Copy, Debug)]
pub struct GpuFace {
    pub absorption: [Single; 3],
    pub scattering: Single,
}

/// The trace job: size at word 0, ray count 3, source 4, seed 7, listener 8,
/// spare 11, energy 12, spare 15, six faces of four words from 16 on.
#[derive(Clone, Copy, Debug)]
pub struct GpuTraceJob {
    pub size: [Single; 3],
    pub n_rays: u32,
    pub source: [Single; 3],
    pub seed: u32,
    pub listener: [Single; 3],
    pub energy: [Single; 3],
    pub faces: [GpuFace; 6],
}

/// A node: lower corner at word 0, `a` at 3, upper corner at 4, `b` at 7.
#[derive(Clone, Copy, Debug)]
pub struct GpuBvhNode {
    pub bmin: [Single; 3],
    pub a: u32,
    pub bmax: [Single; 3],
    pub b: u32,
}

/// A primitive: corner at word 0, material 3, first edge 4, surface 7, second
/// edge 8, spare 11.
#[derive(Clone, Copy, Debug)]
pub struct GpuPrim {
    pub a: [Single; 3],
    pub mat: u32,
    pub e1: [Single; 3],
    pub surf: u32,
    pub e2: [Single; 3],
}

/// A panel: lower corner at word 0, scattering 3, upper corner 4, spare 7,
/// absorption 8, spare 11.
#[derive(Clone, Copy, Debug)]
pub struct GpuPanel {
    pub pmin: [Single; 3],
    pub scattering: Single,
    pub pmax: [Single; 3],
    pub absorption: [Single; 3],
}

/// The mesh trace job: ray count at word 0, seed 1, panel count 2, spare 3,
/// source 4, spare 7, listener 8, spare 11, energy 12, spare 15.
#[derive(Clone, Copy, Debug)]
pub struct GpuMeshJob {
    pub n_rays: u32,
    pub seed: u32,
    pub n_panels: u32,
    pub source: [Single; 3],
    pub listener: [Single; 3],
    pub energy: [Single; 3],
}

/// A value that takes a fixed place in a kernel's buffer.
pub trait Packed {
    /// Its words.
    spec fn image(&self) -> Seq<u32>;

    /// Append its words.
    fn write(&self, out: &mut Vec<u32>)
        ensures
            final(out)@ == old(out)@ + self.image(),
    ;
}

/// The words of the first `n` values, one after another.
pub open spec fn packed<T: Packed>(items: Seq<T>, n: int) -> Seq<u32>
    decreases n,
{
    if n <= 0 {
        Seq::empty()
    } else {
        packed(items, n - 1) + items[n - 1].image()
    }
}

/// The words of a whole buffer.
pub fn pack<T: Packed>(items: &[T]) -> (r: Vec<u32>)
    ensures
        r@ == packed(items@, items@.len() as int),
{
    let mut r: Vec<u32> = Vec::new();
    let mut i: usize = 0;
    while i < items.len()
        invariant
            i <= items@.len(),
            r@ == packed(items@, i as int),
        decreases items@.len() - i,
    {
        items[i].write(&mut r);
        i = i + 1;
    }
    r
}

/// The words of a triple.
pub open spec fn triple(v: [Single; 3]) -> Seq<u32> {
    seq![v@[0].0, v@[1].0, v@[2].0]
}

pub(crate) fn push_triple(out: &mut Vec<u32>, v: &[Single; 3])
    ensures
        final(out)@ == old(out)@ + triple(*v),
{
    out.push(v[0].0);
    out.push(v[1].0);
    out.push(v[2].0);
    assert(out@ =~= old(out)@ + triple(*v));
}

pub(crate) fn push_with(out: &mut Vec<u32>, v: &[Single; 3], w: u32)
    ensures
        final(out)@ == old(out)@ + triple(*v) + seq![w],
{
    push_triple(out, v);
    out.push(w);
    assert(out@ =~= old(out)@ + triple(*v) + seq![w]);
}

impl Packed for GpuFace {
    open spec fn image(&self) -> Seq<u32> {
        triple(self.absorption) + seq![self.scattering.0]
    }

    fn write(&self, out: &mut Vec<u32>) {
        push_with(out, &self.absorption, self.scattering.0);
        assert(out@ =~= old(out)@ + self.image());
    }
}

impl GpuFace {
    /// The face of a material.
    pub open spec fn of(m: Material) -> GpuFace {
        GpuFace { absorption: m.absorption, scattering: m.scattering }
    }
}

impl GpuTraceJob {
    pub fn new(
        room: &Shoebox,
        source: Point,
        listener: Point,
        n_rays: u32,
        energy: [Single; 3],
        seed: u32,
    ) -> (r: Self)
        ensures
            r.size == room.size,
            r.n_rays == n_rays,
            r.source == source,
            r.seed == seed,
            r.listener == listener,
            r.energy == energy,
            forall|w: int| 0 <= w < 6 ==> #[trigger] r.faces@[w] == GpuFace::of(room.walls@[w]),
    {
        let f: GpuFace = GpuFace {
            absorption: room.walls[0].absorption,
            scattering: room.walls[0].scattering,
        };
        let mut faces: [GpuFace; 6] = [f, f, f, f, f, f];
        let mut w: usize = 0;
        while w < 6
            invariant
                w <= 6,
                faces@.len() == 6,
                forall|k: int| 0 <= k < w ==> #[trigger] faces@[k] == GpuFace::of(room.walls@[k]),
            decreases 6 - w,
        {
            faces[w] = GpuFace {
                absorption: room.walls[w].absorption,
                scattering: room.walls[w].scattering,
            };
            w = w + 1;
        }
        Self { size: room.size, n_rays, source, seed, listener, energy, faces }
    }

}

impl Packed for GpuTraceJob {
    open spec fn image(&self) -> Seq<u32> {
        triple(self.size) + seq![self.n_rays] + triple(self.source) + seq![self.seed] + triple(
            self.listener,
        ) + seq![0u32] + triple(self.energy) + seq![0u32] + packed(self.faces@, 6)
    }

    fn write(&self, out: &mut Vec<u32>) {
        push_with(out, &self.size, self.n_rays);
        push_with(out, &self.source, self.seed);
        push_with(out, &self.listener, 0);
        push_with(out, &self.energy, 0);
        let ghost head = out@;
        let mut w: usize = 0;
        assert(out@ =~= head + packed(self.faces@, 0));
        while w < 6
            invariant
                w <= 6,
                self.faces@.len() == 6,
                out@ == head + packed(self.faces@, w as int),
            decreases 6 - w,
        {
            self.faces[w].write(out);
            w = w + 1;
            assert(out@ =~= head + packed(self.faces@, w as int));
        }
        assert(out@ =~= old(out)@ + self.image());
    }
}

impl Packed for GpuBvhNode {
    open spec fn image(&self) -> Seq<u32> {
        triple(self.bmin) + seq![self.a] + triple(self.bmax) + seq![self.b]
    }

    fn write(&self, out: &mut Vec<u32>) {
        push_with(out, &self.bmin, self.a);
        push_with(out, &self.bmax, self.b);
        assert(out@ =~= old(out)@ + self.image());
    }
}

impl Packed for GpuPrim {
    open spec fn image(&self) -> Seq<u32> {
        triple(self.a) + seq![self.mat] + triple(self.e1) + seq![self.surf] + triple(self.e2)
            + seq![0u32]
    }

    fn write(&self, out: &mut Vec<u32>) {
        push_with(out, &self.a, self.mat);
        push_with(out, &self.e1, self.surf);
        push_with(out, &self.e2, 0);
        assert(out@ =~= old(out)@ + self.image());
    }
}

impl Packed for GpuPanel {
    open spec fn image(&self) -> Seq<u32> {
        triple(self.pmin) + seq![self.scattering.0] + triple(self.pmax) + seq![0u32] + triple(
            self.absorption,
        ) + seq![0u32]
    }

    fn write(&self, out: &mut Vec<u32>) {
        push_with(out, &self.pmin, self.scattering.0);
        push_with(out, &self.pmax, 0);
        push_with(out, &self.absorption, 0);
        assert(out@ =~= old(out)@ + self.image());
    }
}

impl GpuPanel {
    /// The panel slot of a transient box.
    pub open spec fn of(p: Panel) -> GpuPanel {
        GpuPanel {
            pmin: p.lo,
            scattering: p.material.scattering,
            pmax: p.hi,
            absorption: p.material.absorption,
        }
    }
}

impl Packed for GpuMeshJob {
    open spec fn image(&self) -> Seq<u32> {
        seq![self.n_rays, self.seed, self.n_panels, 0u32] + triple(self.source) + seq![0u32]
            + triple(self.listener) + seq![0u32] + triple(self.energy) + seq![0u32]
    }

    fn write(&self, out: &mut Vec<u32>) {
        out.push(self.n_rays);
        out.push(self.seed);
        out.push(self.n_panels);
        out.push(0);
        push_with(out, &self.source, 0);
        push_with(out, &self.listener, 0);
        push_with(out, &self.energy, 0);
        assert(out@ =~= old(out)@ + self.image());
    }
}

/// The sizes of the kernel's structures, in words.
pub proof fn layout_sizes_are_fixed(
    face: GpuFace,
    job: GpuTraceJob,
    node: GpuBvhNode,
    prim: GpuPrim,
    panel: GpuPanel,
    mesh_job: GpuMeshJob,
)
    ensures
        face.image().len() == 4,
        job.image().len() == 40,
        node.image().len() == 8,
        prim.image().len() == 12,
        panel.image().len() == 12,
        mesh_job.image().len() == 16,
{
    reveal_with_fuel(packed, 7);
}

/// The kernel's form of a node.
pub open spec fn gpu_node(n: BvhNode) -> GpuBvhNode {
    GpuBvhNode { bmin: n.bmin, a: n.a, bmax: n.bmax, b: n.b }
}

/// The kernel's form of a patch of the mesh.
pub open spec fn gpu_prim(mesh: Mesh, tri_surface: Seq<u16>, p: PackedTri) -> GpuPrim {
    GpuPrim {
        a: p.a,
        mat: mesh.parts.tri_material@[p.tri as int] as u32,
        e1: p.e1,
        surf: tri_surface[p.tri as int] as u32,
        e2: p.e2,
    }
}

/// Flatten a mesh's hierarchy, its patches in leaf order, and its materials
/// into the kernel's buffers.
pub fn flatten_mesh(mesh: &Mesh, tri_surface: &Vec<u16>) -> (r: (Vec<GpuBvhNode>, Vec<GpuPrim>, Vec<GpuFace>))
    requires
        mesh.wf(),
        tri_surface@.len() == mesh.parts.indices@.len(),
    ensures
        r.0@ == Seq::new(mesh.bvh.nodes@.len(), |i: int| gpu_node(mesh.bvh.nodes@[i])),
        r.1@ == Seq::new(
            mesh.bvh.order@.len(),
            |k: int| gpu_prim(*mesh, tri_surface@, mesh.prims@[mesh.bvh.order@[k] as int]),
        ),
        r.2@ == Seq::new(
            mesh.parts.materials@.len(),
            |i: int| GpuFace::of(mesh.parts.materials@[i]),
        ),
{
    let mut nodes: Vec<GpuBvhNode> = Vec::new();
    let mut i: usize = 0;
    while i < mesh.bvh.nodes.len()
        invariant
            i <= mesh.bvh.nodes@.len(),
            nodes@ == Seq::new(i as nat, |j: int| gpu_node(mesh.bvh.nodes@[j])),
        decreases mesh.bvh.nodes@.len() - i,
    {
        let n: BvhNode = mesh.bvh.nodes[i];
        nodes.push(GpuBvhNode { bmin: n.bmin, a: n.a, bmax: n.bmax, b: n.b });
        i = i + 1;
        assert(nodes@ =~= Seq::new(i as nat, |j: int| gpu_node(mesh.bvh.nodes@[j])));
    }
    let mut prims: Vec<GpuPrim> = Vec::new();
    let mut k: usize = 0;
    while k < mesh.bvh.order.len()
        invariant
            k <= mesh.bvh.order@.len(),
            mesh.wf(),
            tri_surface@.len() == mesh.parts.indices@.len(),
                        prims@ == Seq::new(
                k as nat,
                |j: int|
                    gpu_prim(*mesh, tri_surface@, mesh.prims@[mesh.bvh.order@[j] as int]),
            ),
        decreases mesh.bvh.order@.len() - k,
    {
        assert(mesh.bvh.order@[k as int] < mesh.prims@.len());
        let p: PackedTri = mesh.prims[mesh.bvh.order[k]];
        assert(mesh.prims@[mesh.bvh.order@[k as int] as int].tri < mesh.parts.indices@.len());
        prims.push(
            GpuPrim {
                a: p.a,
                mat: mesh.parts.tri_material[p.tri as usize] as u32,
                e1: p.e1,
                surf: tri_surface[p.tri as usize] as u32,
                e2: p.e2,
            },
        );
        k = k + 1;
        assert(prims@ =~= Seq::new(
            k as nat,
            |j: int| gpu_prim(*mesh, tri_surface@, mesh.prims@[mesh.bvh.order@[j] as int]),
        ));
    }
    let mut mats: Vec<GpuFace> = Vec::new();
    let mut i: usize = 0;
    while i < mesh.parts.materials.len()
        invariant
            i <= mesh.parts.materials@.len(),
            mats@ == Seq::new(i as nat, |j: int| GpuFace::of(mesh.parts.materials@[j])),
        decreases mesh.parts.materials@.len() - i,
    {
        let m: Material = mesh.parts.materials[i];
        mats.push(GpuFace { absorption: m.absorption, scattering: m.scattering });
        i = i + 1;
        assert(mats@ =~= Seq::new(i as nat, |j: int| GpuFace::of(mesh.parts.materials@[j])));
    }
    (nodes, prims, mats)
}

/// Decode the kernel's fixed-point output buffers into an echogram.
pub fn decode_echogram(bins: &[u32], dirs: &[i32], out: &mut Echogram)
    requires
        bins@.len() >= BINS_LEN,
        dirs@.len() >= DIRS_LEN,
        old(out)@.wf(),
    ensures
        final(out)@.wf(),
        forall|i: int, b: int|
            0 <= i < NBINS && 0 <= b < 3 ==> (#[trigger] final(out)@.bins[i]@[b]).is_fixed(
                bins@[i * 3 + b] as nat,
                ENERGY_BITS as nat,
            ),
        forall|i: int, k: int|
            0 <= i < NBINS && 0 <= k < 3 ==> (#[trigger] final(out)@.dirs[i]@[k]).is_signed_fixed(
                dirs@[i * 3 + k] as int,
                DIR_BITS as nat,
            ),
{
    out.clear();
    let mut i: usize = 0;
    while i < NBINS
        invariant
            i <= NBINS,
            bins@.len() >= BINS_LEN,
            dirs@.len() >= DIRS_LEN,
            out@.wf(),
            forall|j: int, b: int|
                0 <= j < i && 0 <= b < 3 ==> (#[trigger] out@.bins[j]@[b]).is_fixed(
                    bins@[j * 3 + b] as nat,
                    ENERGY_BITS as nat,
                ),
            forall|j: int, k: int|
                0 <= j < i && 0 <= k < 3 ==> (#[trigger] out@.dirs[j]@[k]).is_signed_fixed(
                    dirs@[j * 3 + k] as int,
                    DIR_BITS as nat,
                ),
        decreases NBINS - i,
    {
        let o: usize = i * 3;
        let ghost before = out@;
        let b: [Single; 3] = [
            Single::from_fixed(bins[o] as u64, ENERGY_BITS),
            Single::from_fixed(bins[o + 1] as u64, ENERGY_BITS),
            Single::from_fixed(bins[o + 2] as u64, ENERGY_BITS),
        ];
        let d: [Single; 3] = [
            Single::from_signed_fixed(dirs[o], DIR_BITS),
            Single::from_signed_fixed(dirs[o + 1], DIR_BITS),
            Single::from_signed_fixed(dirs[o + 2], DIR_BITS),
        ];
        out.bins.set(i, b);
        out.dirs.set(i, d);
        proof {
            assert forall|j: int, k: int| 0 <= j < i + 1 && 0 <= k < 3 implies (
            #[trigger] out@.bins[j]@[k]).is_fixed(bins@[j * 3 + k] as nat, ENERGY_BITS as nat) by {
                if j < i {
                    assert(out@.bins[j] == before.bins[j]);
                    assert(before.bins[j]@[k].is_fixed(bins@[j * 3 + k] as nat, ENERGY_BITS as nat));
                }
            }
            assert forall|j: int, k: int| 0 <= j < i + 1 && 0 <= k < 3 implies (
            #[trigger] out@.dirs[j]@[k]).is_signed_fixed(
                dirs@[j * 3 + k] as int,
                DIR_BITS as nat,
            ) by {
                if j < i {
                    assert(out@.dirs[j] == before.dirs[j]);
                    assert(before.dirs[j]@[k].is_signed_fixed(
                        dirs@[j * 3 + k] as int,
                        DIR_BITS as nat,
                    ));
                }
            }
        }
        i = i + 1;
    }
}

} // verus!
