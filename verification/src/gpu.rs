//! What is sent to the trace kernels and what is made of their replies. The
//! host owns the device and moves the bytes; which bytes go out, how many
//! groups are launched, when a batch is refused and what a reply means are
//! decided here.

use crate::layout::{
    decode_echogram, flatten_mesh, gpu_node, gpu_prim, pack, packed, push_with, triple,
    GpuBvhNode, GpuFace, GpuMeshJob, GpuPanel, GpuPrim, GpuTraceJob, Packed, BINS_LEN, DIRS_LEN,
    DIR_BITS, ENERGY_BITS, MAX_PANELS,
};
use crate::mesh::{Mesh, Point};
use crate::params::ONE;
use crate::pt::{Chain, NO_WALL};
use crate::pt_mesh::{Aabb, MChain, MeshRecord, Surface, SurfaceTable};
use crate::scene::{Panel, Shoebox};
use crate::single::Single;
use crate::tracer::{Echo, Echogram, NBINS};
use vstd::prelude::*;

verus! {

/// Chain slots in the discovery buffer.
pub const DISC_CAP: usize = 16384;

/// Rays of one discovery fan over the mesh.
pub const DISC_RAYS: u32 = 4096;

/// Rays of one discovery fan in a room.
pub const PT_RAYS: u32 = 4096;

/// Rays of a world trace for each ray asked for.
pub const WORLD_RAY_MULT: u32 = 8;

/// The most rays of one world trace.
pub const WORLD_RAY_CAP: u32 = 8192;

/// Invocations in one group of every kernel.
pub const GROUP: u32 = 64;

/// The first seed of the world's traces.
pub const WORLD_SEED: u32 = 0x5EED_C6D1;

/// The first seed of a room's traces.
pub const ROOM_SEED: u32 = 0x0D15_EA5E;

/// The word that four bytes make, the lowest first.
pub open spec fn little(b: Seq<u8>, i: int) -> int {
    b[4 * i] + 256 * b[4 * i + 1] + 65536 * b[4 * i + 2] + 16777216 * b[4 * i + 3]
}

/// The word that four bytes make, the highest first.
pub open spec fn big(b: Seq<u8>, i: int) -> int {
    b[4 * i + 3] + 256 * b[4 * i + 2] + 65536 * b[4 * i + 1] + 16777216 * b[4 * i]
}

/// `bytes` are the bytes of `words`, each word in the same byte order: one of
/// the two that machines have.
pub open spec fn is_memory_of(bytes: Seq<u8>, words: Seq<u32>) -> bool {
    &&& bytes.len() == 4 * words.len()
    &&& {
        ||| forall|i: int| 0 <= i < words.len() ==> #[trigger] words[i] == little(bytes, i)
        ||| forall|i: int| 0 <= i < words.len() ==> #[trigger] words[i] == big(bytes, i)
    }
}

/// `bytemuck::cast_slice` from words to bytes: the bytes of the words as they
/// lie in memory. In which of the two orders a word's bytes lie is the
/// machine's, so it is left open.
#[verifier::external_body]
fn bytes_of(words: &Vec<u32>) -> (r: Vec<u8>)
    ensures
        is_memory_of(r@, words@),
{
    bytemuck::cast_slice::<u32, u8>(words).to_vec()
}

/// `bytemuck::pod_collect_to_vec` from bytes to words: the words whose bytes
/// lie so in memory. In which of the two orders a word's bytes lie is the
/// machine's, so it is left open.
#[verifier::external_body]
fn words_of(bytes: &[u8]) -> (r: Vec<u32>)
    requires
        bytes@.len() % 4 == 0,
    ensures
        is_memory_of(bytes@, r@),
{
    bytemuck::pod_collect_to_vec::<u8, u32>(bytes)
}

/// The groups that cover `n` invocations.
pub open spec fn groups_for(n: int) -> int {
    (n + 63) / 64
}

fn groups(n: u32) -> (r: u32)
    ensures
        r == groups_for(n as int),
{
    if n % GROUP == 0 {
        n / GROUP
    } else {
        n / GROUP + 1
    }
}

/// The seed after this one.
pub open spec fn next_seed(seed: u32) -> u32 {
    seed.wrapping_mul(747796405u32).wrapping_add(2891336453u32)
}

/// One upload: the job's bytes, and how many groups to launch.
#[derive(Debug)]
pub struct Launch {
    pub job: Vec<u8>,
    pub groups: u32,
}

/// The launch of a trace in a room.
pub fn trace_launch(
    room: &Shoebox,
    source: Point,
    listener: Point,
    n_rays: u32,
    energy: [Single; 3],
    seed: u32,
) -> (r: Launch)
    ensures
        exists|job: GpuTraceJob|
            {
                &&& job.size == room.size
                &&& job.n_rays == n_rays
                &&& job.source == source
                &&& job.seed == seed
                &&& job.listener == listener
                &&& job.energy == energy
                &&& forall|w: int|
                    0 <= w < 6 ==> #[trigger] job.faces@[w] == GpuFace::of(room.walls@[w])
                &&& is_memory_of(r.job@, #[trigger] job.image())
            },
        r.groups == groups_for(n_rays as int),
{
    let job: GpuTraceJob = GpuTraceJob::new(room, source, listener, n_rays, energy, seed);
    let mut words: Vec<u32> = Vec::new();
    job.write(&mut words);
    assert(words@ =~= job.image());
    Launch { job: bytes_of(&words), groups: groups(n_rays) }
}

/// The echogram that the words of a reply stand for.
pub open spec fn is_decoded(bins: Seq<u32>, dirs: Seq<u32>, e: Echo) -> bool {
    &&& e.wf()
    &&& forall|i: int, b: int|
        0 <= i < NBINS && 0 <= b < 3 ==> (#[trigger] e.bins[i]@[b]).is_fixed(
            bins[i * 3 + b] as nat,
            ENERGY_BITS as nat,
        )
    &&& forall|i: int, k: int|
        0 <= i < NBINS && 0 <= k < 3 ==> (#[trigger] e.dirs[i]@[k]).is_signed_fixed(
            (dirs[i * 3 + k] as i32) as int,
            DIR_BITS as nat,
        )
}

/// Take in the reply to a trace: the energy and direction buffers, whose words
/// lie in memory in one and the same order.
pub fn trace_reply(bins: &[u8], dirs: &[u8], out: &mut Echogram)
    requires
        bins@.len() == 4 * BINS_LEN,
        dirs@.len() == 4 * DIRS_LEN,
        old(out)@.wf(),
    ensures
        exists|words: Seq<u32>| #[trigger]
            is_memory_of(bins@ + dirs@, words) && is_decoded(
                words.subrange(0, BINS_LEN as int),
                words.subrange(BINS_LEN as int, BINS_LEN + DIRS_LEN),
                final(out)@,
            ),
{
    let mut bytes: Vec<u8> = Vec::new();
    append(&mut bytes, bins);
    append(&mut bytes, dirs);
    assert(bytes@ =~= bins@ + dirs@);
    let words: Vec<u32> = words_of(bytes.as_slice());
    let mut signed: Vec<i32> = Vec::new();
    let mut i: usize = BINS_LEN;
    while i < BINS_LEN + DIRS_LEN
        invariant
            BINS_LEN <= i <= BINS_LEN + DIRS_LEN,
            words@.len() == BINS_LEN + DIRS_LEN,
            signed@.len() == i - BINS_LEN,
            forall|j: int| 0 <= j < signed@.len() ==> #[trigger] signed@[j] == words@[BINS_LEN + j] as i32,
        decreases BINS_LEN + DIRS_LEN - i,
    {
        signed.push(
            #[verifier::truncate]
            (words[i] as i32),
        );
        i = i + 1;
    }
    let energies: &[u32] = vstd::slice::slice_subrange(words.as_slice(), 0, BINS_LEN);
    decode_echogram(energies, signed.as_slice(), out);
    assert(is_decoded(
        words@.subrange(0, BINS_LEN as int),
        words@.subrange(BINS_LEN as int, BINS_LEN + DIRS_LEN),
        out@,
    ));
}

fn append(to: &mut Vec<u8>, from: &[u8])
    ensures
        final(to)@ == old(to)@ + from@,
{
    let ghost start = to@;
    let mut i: usize = 0;
    assert(to@ =~= start + from@.take(0));
    while i < from.len()
        invariant
            i <= from@.len(),
            to@ == start + from@.take(i as int),
        decreases from@.len() - i,
    {
        to.push(from[i]);
        i = i + 1;
        assert(to@ =~= start + from@.take(i as int));
    }
    assert(from@.take(i as int) =~= from@);
}

/// The launch of a world trace.
#[derive(Debug)]
pub struct MeshLaunch {
    pub job: Vec<u8>,
    /// The panels to upload; empty where there are none.
    pub panels: Vec<u8>,
    pub groups: u32,
}

/// How many of the panels are sent.
pub open spec fn sent(n: nat) -> nat {
    if n < MAX_PANELS {
        n
    } else {
        MAX_PANELS as nat
    }
}

/// The panels' slots.
pub open spec fn slots(panels: Seq<Panel>) -> Seq<GpuPanel> {
    Seq::new(sent(panels.len()), |i: int| GpuPanel::of(panels[i]))
}

/// The job of a world trace.
pub open spec fn mesh_job(
    source: Point,
    listener: Point,
    n_rays: u32,
    energy: [Single; 3],
    seed: u32,
    n_panels: nat,
) -> GpuMeshJob {
    GpuMeshJob { n_rays, seed, n_panels: n_panels as u32, source, listener, energy }
}

/// The launch of a world trace: the first panels are sent, as many as there
/// are slots.
pub fn mesh_launch(
    source: Point,
    listener: Point,
    n_rays: u32,
    energy: [Single; 3],
    seed: u32,
    panels: &[Panel],
) -> (r: MeshLaunch)
    ensures
        is_memory_of(
            r.job@,
            mesh_job(source, listener, n_rays, energy, seed, sent(panels@.len())).image(),
        ),
        is_memory_of(r.panels@, packed(slots(panels@), sent(panels@.len()) as int)),
        r.groups == groups_for(n_rays as int),
{
    let n: usize = if panels.len() < MAX_PANELS {
        panels.len()
    } else {
        MAX_PANELS
    };
    let mut gp: Vec<GpuPanel> = Vec::new();
    let mut i: usize = 0;
    while i < n
        invariant
            i <= n <= panels@.len(),
            n == sent(panels@.len()),
            gp@ == Seq::new(i as nat, |j: int| GpuPanel::of(panels@[j])),
        decreases n - i,
    {
        let p: Panel = panels[i];
        gp.push(
            GpuPanel {
                pmin: p.lo,
                scattering: p.material.scattering,
                pmax: p.hi,
                absorption: p.material.absorption,
            },
        );
        i = i + 1;
        assert(gp@ =~= Seq::new(i as nat, |j: int| GpuPanel::of(panels@[j])));
    }
    assert(gp@ =~= slots(panels@));
    let job: GpuMeshJob = GpuMeshJob { n_rays, seed, n_panels: n as u32, source, listener, energy };
    let mut words: Vec<u32> = Vec::new();
    job.write(&mut words);
    assert(words@ =~= job.image());
    let pw: Vec<u32> = pack(gp.as_slice());
    MeshLaunch { job: bytes_of(&words), panels: bytes_of(&pw), groups: groups(n_rays) }
}

/// The late field of one room on the device: a fresh stream for each trace.
#[derive(Debug)]
pub struct GpuLateBackend {
    pub seed: u32,
}

impl GpuLateBackend {
    pub fn new() -> (r: Self)
        ensures
            r.seed == ROOM_SEED,
    {
        GpuLateBackend { seed: ROOM_SEED }
    }

    /// Step the seed and launch a trace with it.
    pub fn trace(
        &mut self,
        room: &Shoebox,
        source: Point,
        listener: Point,
        n_rays: u32,
        energy: [Single; 3],
    ) -> (r: Launch)
        ensures
            final(self).seed == next_seed(old(self).seed),
            exists|job: GpuTraceJob|
                {
                    &&& job.size == room.size
                    &&& job.n_rays == n_rays
                    &&& job.source == source
                    &&& job.seed == final(self).seed
                    &&& job.listener == listener
                    &&& job.energy == energy
                    &&& forall|w: int|
                        0 <= w < 6 ==> #[trigger] job.faces@[w] == GpuFace::of(room.walls@[w])
                    &&& is_memory_of(r.job@, #[trigger] job.image())
                },
            r.groups == groups_for(n_rays as int),
    {
        self.seed = self.seed.wrapping_mul(747796405).wrapping_add(2891336453);
        trace_launch(room, source, listener, n_rays, energy, self.seed)
    }
}

/// The late field of the world on the device.
#[derive(Debug)]
pub struct GpuWorldLateBackend {
    pub seed: u32,
}

/// Full energy in every band.
pub open spec fn full_energy() -> [Single; 3] {
    [Single(ONE), Single(ONE), Single(ONE)]
}

/// The rays of a world trace where `rays` are asked for.
pub open spec fn world_rays(rays: int) -> int {
    if rays * WORLD_RAY_MULT < WORLD_RAY_CAP {
        rays * WORLD_RAY_MULT
    } else {
        WORLD_RAY_CAP as int
    }
}

impl GpuWorldLateBackend {
    pub fn new() -> (r: Self)
        ensures
            r.seed == WORLD_SEED,
    {
        GpuWorldLateBackend { seed: WORLD_SEED }
    }

    /// Step the seed and launch a trace with it.
    pub fn trace_world(
        &mut self,
        source: Point,
        listener: Point,
        rays: u32,
        panels: &[Panel],
    ) -> (r: MeshLaunch)
        requires
            rays * WORLD_RAY_MULT <= u32::MAX,
        ensures
            final(self).seed == next_seed(old(self).seed),
            is_memory_of(
                r.job@,
                mesh_job(
                    source,
                    listener,
                    world_rays(rays as int) as u32,
                    full_energy(),
                    final(self).seed,
                    sent(panels@.len()),
                ).image(),
            ),
            is_memory_of(r.panels@, packed(slots(panels@), sent(panels@.len()) as int)),
            r.groups == groups_for(world_rays(rays as int)),
    {
        self.seed = self.seed.wrapping_mul(747796405).wrapping_add(2891336453);
        let n: u32 = if rays * WORLD_RAY_MULT < WORLD_RAY_CAP {
            rays * WORLD_RAY_MULT
        } else {
            WORLD_RAY_CAP
        };
        mesh_launch(
            source,
            listener,
            n,
            [Single(ONE), Single(ONE), Single(ONE)],
            self.seed,
            panels,
        )
    }
}

/// A box that the discovery rays may meet: lower corner at word 0, upper
/// corner at word 4.
#[derive(Clone, Copy, Debug)]
pub struct Obox {
    pub lo: Point,
    pub hi: Point,
}

impl Packed for Obox {
    open spec fn image(&self) -> Seq<u32> {
        triple(self.lo) + seq![0u32] + triple(self.hi) + seq![0u32]
    }

    fn write(&self, out: &mut Vec<u32>) {
        push_with(out, &self.lo, 0);
        push_with(out, &self.hi, 0);
        assert(out@ =~= old(out)@ + self.image());
    }
}

/// The buffers that the world kernels keep: nodes, primitives, materials, and
/// the discovery boxes.
#[derive(Debug)]
pub struct MeshBuffers {
    pub nodes: Vec<u8>,
    pub prims: Vec<u8>,
    pub mats: Vec<u8>,
    pub oboxes: Vec<u8>,
    pub n_boxes: u32,
}

/// The nodes of a mesh in the kernel's form.
pub open spec fn gpu_nodes(mesh: Mesh) -> Seq<GpuBvhNode> {
    Seq::new(mesh.bvh.nodes@.len(), |i: int| gpu_node(mesh.bvh.nodes@[i]))
}

/// The primitives of a mesh in the kernel's form, in leaf order.
pub open spec fn gpu_prims(mesh: Mesh, tri_surface: Seq<u16>) -> Seq<GpuPrim> {
    Seq::new(
        mesh.bvh.order@.len(),
        |k: int| gpu_prim(mesh, tri_surface, mesh.prims@[mesh.bvh.order@[k] as int]),
    )
}

/// The materials of a mesh in the kernel's form.
pub open spec fn gpu_mats(mesh: Mesh) -> Seq<GpuFace> {
    Seq::new(mesh.parts.materials@.len(), |i: int| GpuFace::of(mesh.parts.materials@[i]))
}

/// The words of the discovery boxes: eight spare ones where there are none.
pub open spec fn obox_words(boxes: Seq<Obox>) -> Seq<u32> {
    if boxes.len() == 0 {
        seq![0u32, 0u32, 0u32, 0u32, 0u32, 0u32, 0u32, 0u32]
    } else {
        packed(boxes, boxes.len() as int)
    }
}

impl MeshBuffers {
    /// Flatten a world for the kernels. An empty hierarchy cannot be sent.
    pub fn prepare(mesh: &Mesh, tri_surface: &Vec<u16>, boxes: &Vec<Obox>) -> (r: Option<Self>)
        requires
            mesh.wf(),
            tri_surface@.len() == mesh.parts.indices@.len(),
            boxes@.len() <= u32::MAX,
        ensures
            r is None <==> mesh.bvh.nodes@.len() == 0 || mesh.bvh.order@.len() == 0,
            r matches Some(b) ==> {
                &&& is_memory_of(
                    b.nodes@,
                    packed(gpu_nodes(*mesh), mesh.bvh.nodes@.len() as int),
                )
                &&& is_memory_of(
                    b.prims@,
                    packed(
                        gpu_prims(*mesh, tri_surface@),
                        mesh.bvh.order@.len() as int,
                    ),
                )
                &&& is_memory_of(
                    b.mats@,
                    packed(gpu_mats(*mesh), mesh.parts.materials@.len() as int),
                )
                &&& is_memory_of(b.oboxes@, obox_words(boxes@))
                &&& b.n_boxes == boxes@.len()
            },
    {
        let (nodes, prims, mats) = flatten_mesh(mesh, tri_surface);
        assert(nodes@ =~= gpu_nodes(*mesh));
        assert(prims@ =~= gpu_prims(*mesh, tri_surface@));
        assert(mats@ =~= gpu_mats(*mesh));
        if nodes.len() == 0 || prims.len() == 0 {
            return None;
        }
        let nw: Vec<u32> = pack(nodes.as_slice());
        let pw: Vec<u32> = pack(prims.as_slice());
        let mw: Vec<u32> = pack(mats.as_slice());
        let ow: Vec<u32> = if boxes.len() == 0 {
            let z: Vec<u32> = vec![0, 0, 0, 0, 0, 0, 0, 0];
            assert(z@ =~= obox_words(boxes@));
            z
        } else {
            pack(boxes.as_slice())
        };
        Some(
            MeshBuffers {
                nodes: bytes_of(&nw),
                prims: bytes_of(&pw),
                mats: bytes_of(&mw),
                oboxes: bytes_of(&ow),
                n_boxes: boxes.len() as u32,
            },
        )
    }
}

/// Discovery over the world: `base` is the number of authored surfaces.
#[derive(Debug)]
pub struct GpuWorldDiscovery {
    pub base: u16,
    pub n_boxes: u32,
}

/// The words of a discovery job.
pub open spec fn discovery_words(
    n_rays: u32,
    rot: u32,
    n_boxes: u32,
    base: u16,
    listener: Point,
) -> Seq<u32> {
    seq![n_rays, rot, n_boxes, base as u32] + triple(listener) + seq![0u32]
}

/// The surface chain of two words.
pub open spec fn unpacked(w0: u32, w1: u32) -> MChain {
    let order = ((w1 / 65536) % 256) as u8;
    (
        [(w0 % 65536) as u16, (w0 / 65536) as u16, (w1 % 65536) as u16],
        if order < 1 {
            1
        } else if order > 3 {
            3
        } else {
            order
        },
    )
}

/// The two words of a surface chain.
pub open spec fn packed_chain(c: MChain) -> Seq<u32> {
    seq![
        (c.0@[0] + c.0@[1] * 65536) as u32,
        (c.0@[2] + c.1 * 65536) as u32,
    ]
}

/// A chain that was packed comes back as it was.
pub proof fn a_packed_chain_comes_back(c: MChain)
    requires
        1 <= c.1 <= 3,
    ensures
        unpacked(packed_chain(c)[0], packed_chain(c)[1]) == c,
{
    let w = packed_chain(c);
    let c0 = c.0@[0] as int;
    let c1 = c.0@[1] as int;
    assert(w[0] == c0 + c1 * 65536);
    assert((c0 + c1 * 65536) % 65536 == c0);
    assert((c0 + c1 * 65536) / 65536 == c1);
    let u = unpacked(w[0], w[1]);
    assert(u.0@ =~= c.0@);
    assert(u.0 == c.0);
}

/// The chains in a discovery reply.
pub open spec fn discovered(words: Seq<u32>) -> Seq<MChain> {
    let n: nat = if words[0] < DISC_CAP {
        words[0] as nat
    } else {
        DISC_CAP as nat
    };
    Seq::new(n, |i: int| unpacked(words[1 + i * 2], words[2 + i * 2]))
}

impl GpuWorldDiscovery {
    /// The launch of one listener fan; without furniture no box is met.
    pub fn discover(&self, listener: Point, rot: u32, n_rays: u32, furniture_on: bool) -> (r: Launch)
        ensures
            is_memory_of(
                r.job@,
                discovery_words(
                    n_rays,
                    rot,
                    if furniture_on {
                        self.n_boxes
                    } else {
                        0
                    },
                    self.base,
                    listener,
                ),
            ),
            r.groups == groups_for(n_rays as int),
    {
        let mut w: Vec<u32> = Vec::new();
        w.push(n_rays);
        w.push(rot);
        w.push(
            if furniture_on {
                self.n_boxes
            } else {
                0
            },
        );
        w.push(self.base as u32);
        push_with(&mut w, &listener, 0);
        assert(w@ =~= discovery_words(
            n_rays,
            rot,
            if furniture_on {
                self.n_boxes
            } else {
                0
            },
            self.base,
            listener,
        ));
        Launch { job: bytes_of(&w), groups: groups(n_rays) }
    }

    /// Take in the reply: a count, then the chains, repeats included.
    pub fn reply(&self, bytes: &[u8], out: &mut Vec<MChain>)
        requires
            bytes@.len() == 4 + 8 * DISC_CAP,
        ensures
            exists|words: Seq<u32>| #[trigger]
                is_memory_of(bytes@, words) && final(out)@ == old(out)@ + discovered(words),
    {
        let words: Vec<u32> = words_of(bytes);
        let n: usize = if (words[0] as usize) < DISC_CAP {
            words[0] as usize
        } else {
            DISC_CAP
        };
        let mut i: usize = 0;
        assert(out@ =~= old(out)@ + discovered(words@).take(0));
        while i < n
            invariant
                i <= n <= DISC_CAP,
                words@.len() == 1 + 2 * DISC_CAP,
                n == discovered(words@).len(),
                out@ == old(out)@ + discovered(words@).take(i as int),
            decreases n - i,
        {
            let w0: u32 = words[1 + i * 2];
            let w1: u32 = words[2 + i * 2];
            let chain: [u16; 3] = [(w0 % 65536) as u16, (w0 / 65536) as u16, (w1 % 65536) as u16];
            let o: u8 = ((w1 / 65536) % 256) as u8;
            let order: u8 = if o < 1 {
                1
            } else if o > 3 {
                3
            } else {
                o
            };
            out.push((chain, order));
            assert(chain == unpacked(w0, w1).0);
            assert(discovered(words@)[i as int] == (chain, order));
            assert(discovered(words@).take(i + 1) =~= discovered(words@).take(i as int).push(
                (chain, order),
            ));
            i = i + 1;
            assert(out@ =~= old(out)@ + discovered(words@).take(i as int));
        }
        assert(discovered(words@).take(n as int) =~= discovered(words@));
    }
}

/// What one batch may hold.
#[derive(Clone, Copy, Debug)]
pub struct SolveCaps {
    pub sources: usize,
    pub chains: usize,
    pub extras: usize,
}

/// A source of a batch: its place and its name.
#[derive(Clone, Copy, Debug)]
pub struct SolveSource {
    pub id: u16,
    pub pos: Point,
}

impl Packed for SolveSource {
    open spec fn image(&self) -> Seq<u32> {
        triple(self.pos) + seq![self.id as u32]
    }

    fn write(&self, out: &mut Vec<u32>) {
        push_with(out, &self.pos, self.id as u32);
        assert(out@ =~= old(out)@ + self.image());
    }
}

impl Packed for Aabb {
    open spec fn image(&self) -> Seq<u32> {
        triple(self.min) + seq![0u32] + triple(self.max) + seq![0u32] + triple(self.transmission)
            + seq![0u32]
    }

    fn write(&self, out: &mut Vec<u32>) {
        push_with(out, &self.min, 0);
        push_with(out, &self.max, 0);
        push_with(out, &self.transmission, 0);
        assert(out@ =~= old(out)@ + self.image());
    }
}

/// The plane and what is reflected, whether the face has a rectangle of its own,
/// what is let through, and the rectangle.
impl Packed for Surface {
    open spec fn image(&self) -> Seq<u32> {
        let (lo, hi) = match self.rect {
            Some(r) => r,
            None => (nowhere(), nowhere()),
        };
        triple(self.n) + seq![self.d.0] + triple(self.refl) + seq![
            if self.rect is Some {
                1u32
            } else {
                0u32
            },
        ] + triple(self.trans) + seq![0u32] + triple(lo) + seq![0u32] + triple(hi) + seq![0u32]
    }

    fn write(&self, out: &mut Vec<u32>) {
        push_with(out, &self.n, self.d.0);
        match self.rect {
            Some((lo, hi)) => {
                push_with(out, &self.refl, 1);
                push_with(out, &self.trans, 0);
                push_with(out, &lo, 0);
                push_with(out, &hi, 0);
            },
            None => {
                let none: Point = [Single(0), Single(0), Single(0)];
                assert(none@ =~= nowhere()@);
                push_with(out, &self.refl, 0);
                push_with(out, &self.trans, 0);
                push_with(out, &none, 0);
                push_with(out, &none, 0);
            },
        }
        assert(out@ =~= old(out)@ + self.image());
    }
}

/// The point of zeros.
pub open spec fn nowhere() -> Point {
    [Single(0), Single(0), Single(0)]
}

/// The surface table as the solve kernel reads it.
pub fn surface_buffer(table: &SurfaceTable) -> (r: Vec<u8>)
    ensures
        is_memory_of(r@, packed(table.surfaces@, table.surfaces@.len() as int)),
{
    let w: Vec<u32> = pack(table.surfaces.as_slice());
    bytes_of(&w)
}

/// What the kernel found for one pair; `valid` is zero where nothing.
#[derive(Clone, Copy, Debug)]
pub struct SolveRec {
    pub valid: u32,
    pub delay: Single,
    pub dir: [Single; 3],
    pub gains: [Single; 3],
}

/// The launch of a batch.
#[derive(Debug)]
pub struct SolveLaunch {
    pub job: Vec<u8>,
    pub chains: Vec<u8>,
    pub sources: Vec<u8>,
    /// Empty where there are none.
    pub extras: Vec<u8>,
    pub groups: u32,
    pub n_pairs: usize,
}

/// Sources in one batch of the kernel.
pub const MAX_SOLVE_SOURCES: usize = 128;

/// Chains in one batch of the kernel.
pub const MAX_SOLVE_CHAINS: usize = 2048;

/// Blockers in one batch of the kernel.
pub const MAX_SOLVE_EXTRAS: usize = 256;

/// The words of a batch's job.
pub open spec fn solve_words(n_sources: nat, n_chains: nat, n_extras: nat, listener: Point) -> Seq<u32> {
    seq![n_sources as u32, n_chains as u32, n_extras as u32, 0u32] + triple(listener) + seq![0u32]
}

/// The words of the first `n` chains.
pub open spec fn chain_words(chains: Seq<MChain>, n: int) -> Seq<u32>
    decreases n,
{
    if n <= 0 {
        Seq::empty()
    } else {
        chain_words(chains, n - 1) + packed_chain(chains[n - 1])
    }
}

/// A batch that the kernel can take whole. One that would have to be clamped
/// is refused: dropped chains or blockers would change what is heard.
pub open spec fn fits(caps: SolveCaps, sources: nat, chains: nat, extras: nat) -> bool {
    0 < sources <= caps.sources && 0 < chains <= caps.chains && extras <= caps.extras
}

/// The launch of every source against every chain.
pub fn solve_launch(
    caps: SolveCaps,
    sources: &Vec<SolveSource>,
    chains: &Vec<MChain>,
    listener: Point,
    extras: &Vec<Aabb>,
) -> (r: Option<SolveLaunch>)
    requires
        caps.sources * caps.chains <= u32::MAX,
        caps.sources <= u32::MAX,
        caps.chains <= u32::MAX,
        caps.extras <= u32::MAX,
    ensures
        r is Some <==> fits(caps, sources@.len(), chains@.len(), extras@.len()),
        r matches Some(l) ==> {
            &&& is_memory_of(
                l.job@,
                solve_words(sources@.len(), chains@.len(), extras@.len(), listener),
            )
            &&& is_memory_of(l.chains@, chain_words(chains@, chains@.len() as int))
            &&& is_memory_of(l.sources@, packed(sources@, sources@.len() as int))
            &&& is_memory_of(l.extras@, packed(extras@, extras@.len() as int))
            &&& l.n_pairs == sources@.len() * chains@.len()
            &&& l.groups == groups_for(l.n_pairs as int)
        },
{
    if sources.len() == 0 || sources.len() > caps.sources || chains.len() == 0 || chains.len()
        > caps.chains || extras.len() > caps.extras {
        return None;
    }
    let mut w: Vec<u32> = Vec::new();
    w.push(sources.len() as u32);
    w.push(chains.len() as u32);
    w.push(extras.len() as u32);
    w.push(0);
    push_with(&mut w, &listener, 0);
    assert(w@ =~= solve_words(sources@.len(), chains@.len(), extras@.len(), listener));
    let mut cw: Vec<u32> = Vec::new();
    let mut i: usize = 0;
    while i < chains.len()
        invariant
            i <= chains@.len(),
            cw@ == chain_words(chains@, i as int),
        decreases chains@.len() - i,
    {
        let c: MChain = chains[i];
        cw.push((c.0[0] as u32) + (c.0[1] as u32) * 65536);
        cw.push((c.0[2] as u32) + (c.1 as u32) * 65536);
        i = i + 1;
        assert(cw@ =~= chain_words(chains@, i as int));
    }
    let sw: Vec<u32> = pack(sources.as_slice());
    let xw: Vec<u32> = pack(extras.as_slice());
    assert(sources@.len() * chains@.len() <= caps.sources * caps.chains) by (nonlinear_arith)
        requires
            sources@.len() <= caps.sources,
            chains@.len() <= caps.chains,
    ;
    let n_pairs: usize = sources.len() * chains.len();
    Some(
        SolveLaunch {
            job: bytes_of(&w),
            chains: bytes_of(&cw),
            sources: bytes_of(&sw),
            extras: bytes_of(&xw),
            groups: groups(n_pairs as u32),
            n_pairs,
        },
    )
}

/// Words of one record in the reply to a batch.
pub const REC_WORDS: usize = 12;

/// The record that starts at word `o` of the reply: whether it holds, its delay,
/// two words of filler, the direction and one, the gains and one.
pub open spec fn rec_at(words: Seq<u32>, o: int) -> SolveRec {
    SolveRec {
        valid: words[o],
        delay: Single(words[o + 1]),
        dir: [Single(words[o + 4]), Single(words[o + 5]), Single(words[o + 6])],
        gains: [Single(words[o + 8]), Single(words[o + 9]), Single(words[o + 10])],
    }
}

/// The record of one pair.
pub open spec fn solved(id: u16, c: MChain, r: SolveRec) -> Option<MeshRecord> {
    if r.valid != 0 {
        Some(
            MeshRecord {
                source: id,
                chain: c.0,
                order: c.1,
                delay_s: r.delay,
                dir: r.dir,
                gains: r.gains,
            },
        )
    } else {
        None
    }
}

/// The pair of a place in the batch: sources outermost.
spec fn pair_of(
    sources: Seq<SolveSource>,
    chains: Seq<MChain>,
    words: Seq<u32>,
    k: int,
) -> Option<MeshRecord> {
    solved(
        sources[k / chains.len() as int].id,
        chains[k % chains.len() as int],
        rec_at(words, 12 * k),
    )
}

/// Take in the reply to a batch: a record for each pair, sources outermost.
pub fn solve_reply(
    sources: &Vec<SolveSource>,
    chains: &Vec<MChain>,
    bytes: &[u8],
    out: &mut Vec<Option<MeshRecord>>,
)
    requires
        bytes@.len() == 48 * sources@.len() * chains@.len(),
    ensures
        exists|words: Seq<u32>| #[trigger]
            is_memory_of(bytes@, words) && final(out)@ == Seq::new(
                sources@.len() * chains@.len(),
                |k: int|
                    solved(
                        sources@[k / chains@.len() as int].id,
                        chains@[k % chains@.len() as int],
                        rec_at(words, 12 * k),
                    ),
            ),
{
    out.clear();
    let ghost nc = chains@.len() as int;
    proof {
        let ns = sources@.len() as int;
        assert(48 * ns * nc == 4 * (12 * (ns * nc))) by (nonlinear_arith);
    }
    let words: Vec<u32> = words_of(bytes);
    let mut si: usize = 0;
    while si < sources.len()
        invariant
            si <= sources@.len(),
            nc == chains@.len(),
            words@.len() == 12 * (sources@.len() * nc),
            out@.len() == si * nc,
            out@ == Seq::new((si * nc) as nat, |k: int| pair_of(sources@, chains@, words@, k)),
        decreases sources@.len() - si,
    {
        let mut ci: usize = 0;
        while ci < chains.len()
            invariant
                si < sources@.len(),
                ci <= chains@.len(),
                nc == chains@.len(),
                words@.len() == 12 * (sources@.len() * nc),
                out@.len() == si * nc + ci,
                out@ == Seq::new(
                    (si * nc + ci) as nat,
                    |k: int| pair_of(sources@, chains@, words@, k),
                ),
            decreases chains@.len() - ci,
        {
            proof {
                assert((si + 1) * nc == si * nc + nc) by (nonlinear_arith);
                assert((si + 1) * nc <= sources@.len() * nc) by (nonlinear_arith)
                    requires
                        si + 1 <= sources@.len(),
                        nc >= 0,
                ;
                assert(0 <= si * nc) by (nonlinear_arith)
                    requires
                        nc >= 0,
                ;
                let k = si * nc + ci;
                assert(k / nc == si && k % nc == ci) by (nonlinear_arith)
                    requires
                        k == si * nc + ci,
                        0 <= ci < nc,
                ;
            }
            let total: usize = words.len();
            assert(12 * (si * nc + ci) + 12 <= total);
            let o: usize = REC_WORDS * out.len();
            let c: MChain = chains[ci];
            let rec: Option<MeshRecord> = if words[o] != 0 {
                Some(
                    MeshRecord {
                        source: sources[si].id,
                        chain: c.0,
                        order: c.1,
                        delay_s: Single(words[o + 1]),
                        dir: [Single(words[o + 4]), Single(words[o + 5]), Single(words[o + 6])],
                        gains: [Single(words[o + 8]), Single(words[o + 9]), Single(words[o + 10])],
                    },
                )
            } else {
                None
            };
            assert(rec == pair_of(sources@, chains@, words@, si * nc + ci));
            out.push(rec);
            ci = ci + 1;
            assert(out@ =~= Seq::new(
                (si * nc + ci) as nat,
                |k: int| pair_of(sources@, chains@, words@, k),
            ));
        }
        assert((si + 1) * nc == si * nc + nc) by (nonlinear_arith);
        si = si + 1;
    }
    assert(out@ =~= Seq::new(
        sources@.len() * chains@.len(),
        |k: int|
            solved(
                sources@[k / chains@.len() as int].id,
                chains@[k % chains@.len() as int],
                rec_at(words@, 12 * k),
            ),
    ));
}

/// Chain discovery in a room on the device.
#[derive(Debug)]
pub struct GpuEarlyDiscovery {}

/// The words of a room's discovery job.
pub open spec fn fan_words(size: Point, listener: Point, rot: u32) -> Seq<u32> {
    triple(size) + seq![PT_RAYS] + triple(listener) + seq![rot]
}

impl GpuEarlyDiscovery {
    /// The launch of one listener fan.
    pub fn bitmap_for(&self, size: Point, listener: Point, rot: u32) -> (r: Launch)
        ensures
            is_memory_of(r.job@, fan_words(size, listener, rot)),
            r.groups == PT_RAYS / 64,
    {
        let mut w: Vec<u32> = Vec::new();
        push_with(&mut w, &size, PT_RAYS);
        push_with(&mut w, &listener, rot);
        assert(w@ =~= fan_words(size, listener, rot));
        Launch { job: bytes_of(&w), groups: groups(PT_RAYS) }
    }

    /// Take in the reply: the chains whose bits are set.
    pub fn discover(&self, bytes: &[u8], out: &mut Vec<Chain>)
        requires
            bytes@.len() == 36,
        ensures
            exists|words: Seq<u32>| #[trigger]
                is_memory_of(bytes@, words) && final(out)@ == old(out)@ + marked(words, CHAINS as int),
    {
        let w: Vec<u32> = words_of(bytes);
        let words: [u32; 9] = [w[0], w[1], w[2], w[3], w[4], w[5], w[6], w[7], w[8]];
        assert(words@ =~= w@);
        decode_chain_bitmap(&words, out);
    }
}

/// How many chains a room has: of one, two and three walls.
pub const CHAINS: usize = 258;

/// Bit `i` of the bitmap.
pub open spec fn is_set(words: Seq<u32>, i: int) -> bool {
    (words[i / 32] >> ((i % 32) as u32)) & 1u32 == 1u32
}

/// Chain `k` of a room. Each first wall has 43 chains in a row: itself, then
/// for each second wall the pair and its six triples.
pub open spec fn nth_chain(k: int) -> Chain {
    let w1 = (k / 43) as u8;
    let w2 = ((k % 43 - 1) / 7) as u8;
    let w3 = ((k % 43 - 1) % 7 - 1) as u8;
    if k % 43 == 0 {
        ([w1, NO_WALL, NO_WALL], 1)
    } else if (k % 43 - 1) % 7 == 0 {
        ([w1, w2, NO_WALL], 2)
    } else {
        ([w1, w2, w3], 3)
    }
}

/// The bit of chain `k`: single walls come first, then pairs, then triples.
pub open spec fn nth_bit(k: int) -> int {
    let w1 = k / 43;
    let w2 = (k % 43 - 1) / 7;
    let w3 = (k % 43 - 1) % 7 - 1;
    if k % 43 == 0 {
        w1
    } else if (k % 43 - 1) % 7 == 0 {
        6 + w1 * 6 + w2
    } else {
        42 + w1 * 36 + w2 * 6 + w3
    }
}

/// Those of the first `n` chains whose bits are set.
pub open spec fn marked(words: Seq<u32>, n: int) -> Seq<Chain>
    decreases n,
{
    if n <= 0 {
        Seq::empty()
    } else if is_set(words, nth_bit(n - 1)) {
        marked(words, n - 1).push(nth_chain(n - 1))
    } else {
        marked(words, n - 1)
    }
}

fn bit(words: &[u32; 9], i: usize) -> (r: bool)
    requires
        i < 288,
    ensures
        r == is_set(words@, i as int),
{
    let sh: u32 = (i % 32) as u32;
    (words[i / 32] >> sh) & 1 == 1
}

/// Decode the bitmap of a room's chains.
pub fn decode_chain_bitmap(words: &[u32; 9], out: &mut Vec<Chain>)
    ensures
        final(out)@ == old(out)@ + marked(words@, CHAINS as int),
{
    assert(out@ =~= old(out)@ + marked(words@, 0));
    let mut w1: usize = 0;
    while w1 < 6
        invariant
            w1 <= 6,
            out@ == old(out)@ + marked(words@, 43 * w1),
        decreases 6 - w1,
    {
        let ghost k1 = 43 * w1;
        assert(k1 / 43 == w1 && k1 % 43 == 0);
        if bit(words, w1) {
            let c: [u8; 3] = [w1 as u8, NO_WALL, NO_WALL];
            assert(c == nth_chain(k1).0);
            out.push((c, 1));
        }
        assert(out@ =~= old(out)@ + marked(words@, k1 + 1));
        let mut w2: usize = 0;
        while w2 < 6
            invariant
                w1 < 6,
                w2 <= 6,
                k1 == 43 * w1,
                out@ == old(out)@ + marked(words@, k1 + 1 + 7 * w2),
            decreases 6 - w2,
        {
            let ghost k2 = k1 + 1 + 7 * w2;
            assert(k2 / 43 == w1 && k2 % 43 == 1 + 7 * w2);
            if bit(words, 6 + w1 * 6 + w2) {
                let c: [u8; 3] = [w1 as u8, w2 as u8, NO_WALL];
                assert(c == nth_chain(k2).0);
                out.push((c, 2));
            }
            assert(out@ =~= old(out)@ + marked(words@, k2 + 1));
            let mut w3: usize = 0;
            while w3 < 6
                invariant
                    w1 < 6,
                    w2 < 6,
                    w3 <= 6,
                    k2 == 43 * w1 + 1 + 7 * w2,
                    out@ == old(out)@ + marked(words@, k2 + 1 + w3),
                decreases 6 - w3,
            {
                let ghost k3 = k2 + 1 + w3;
                assert(k3 / 43 == w1 && k3 % 43 == 2 + 7 * w2 + w3);
                assert((1 + 7 * w2 + w3) / 7 == w2 && (1 + 7 * w2 + w3) % 7 == 1 + w3);
                if bit(words, 42 + w1 * 36 + w2 * 6 + w3) {
                    let c: [u8; 3] = [w1 as u8, w2 as u8, w3 as u8];
                    assert(c == nth_chain(k3).0);
                    out.push((c, 3));
                }
                assert(out@ =~= old(out)@ + marked(words@, k3 + 1));
                w3 = w3 + 1;
            }
            w2 = w2 + 1;
        }
        w1 = w1 + 1;
    }
}

/// The chain has from one to three walls of the room, and none after them.
pub open spec fn is_chain(c: Chain) -> bool {
    &&& 1 <= c.1 <= 3
    &&& forall|i: int| 0 <= i < c.1 ==> #[trigger] c.0@[i] < 6
    &&& forall|i: int| c.1 <= i < 3 ==> #[trigger] c.0@[i] == NO_WALL
}

/// The bit of a chain.
pub open spec fn bit_of(c: Chain) -> int {
    if c.1 == 1 {
        c.0@[0] as int
    } else if c.1 == 2 {
        6 + c.0@[0] * 6 + c.0@[1]
    } else {
        42 + c.0@[0] * 36 + c.0@[1] * 6 + c.0@[2]
    }
}

/// The place of a chain among all of them.
pub open spec fn rank_of(c: Chain) -> int {
    43 * c.0@[0] + (if c.1 == 1 {
        0
    } else if c.1 == 2 {
        1 + 7 * c.0@[1]
    } else {
        2 + 7 * c.0@[1] + c.0@[2]
    })
}

proof fn lemma_nth(c: Chain)
    requires
        is_chain(c),
    ensures
        0 <= rank_of(c) < CHAINS,
        nth_chain(rank_of(c)) == c,
        nth_bit(rank_of(c)) == bit_of(c),
{
    let k = rank_of(c);
    assert(c.0@[0] < 6);
    if c.1 >= 2 {
        assert(c.0@[1] < 6);
    } else {
        assert(c.0@[1] == NO_WALL);
    }
    if c.1 >= 3 {
        assert(c.0@[2] < 6);
    } else {
        assert(c.0@[2] == NO_WALL);
    }
    assert(k / 43 == c.0@[0]);
    assert(nth_chain(k).0@ =~= c.0@);
    assert(nth_chain(k).0 == c.0);
}

proof fn lemma_ranks(k: int)
    requires
        0 <= k < CHAINS,
    ensures
        is_chain(nth_chain(k)),
        rank_of(nth_chain(k)) == k,
{
    let c = nth_chain(k);
    assert(0 <= k / 43 < 6);
    assert(c.0@[0] == k / 43);
}

proof fn lemma_marked(words: Seq<u32>, n: int, c: Chain)
    requires
        0 <= n <= CHAINS,
        is_chain(c),
    ensures
        marked(words, n).contains(c) <==> rank_of(c) < n && is_set(words, bit_of(c)),
    decreases n,
{
    if n > 0 {
        lemma_marked(words, n - 1, c);
        lemma_nth(c);
        lemma_ranks(n - 1);
        let before = marked(words, n - 1);
        if is_set(words, nth_bit(n - 1)) {
            let now = before.push(nth_chain(n - 1));
            assert(marked(words, n) == now);
            assert(now[before.len() as int] == nth_chain(n - 1));
            if before.contains(c) {
                let i = choose|i: int| 0 <= i < before.len() && before[i] == c;
                assert(now[i] == c);
            }
            if now.contains(c) {
                let i = choose|i: int| 0 <= i < now.len() && now[i] == c;
                if i < before.len() {
                    assert(before[i] == c);
                }
            }
        }
    }
}

/// A chain is decoded exactly where its bit is set.
pub proof fn a_chain_is_decoded_by_its_bit(words: Seq<u32>, c: Chain)
    requires
        is_chain(c),
    ensures
        marked(words, CHAINS as int).contains(c) <==> is_set(words, bit_of(c)),
{
    lemma_nth(c);
    lemma_marked(words, CHAINS as int, c);
}

/// Every one is a chain, and their places rise below `n`.
spec fn is_ranked(s: Seq<Chain>, n: int) -> bool {
    &&& forall|i: int| 0 <= i < s.len() ==> is_chain(#[trigger] s[i]) && rank_of(s[i]) < n
    &&& forall|i: int, j: int|
        0 <= i < j < s.len() ==> rank_of(#[trigger] s[i]) < rank_of(#[trigger] s[j])
}

proof fn lemma_ranked(words: Seq<u32>, n: int)
    requires
        0 <= n <= CHAINS,
    ensures
        is_ranked(marked(words, n), n),
    decreases n,
{
    if n > 0 {
        lemma_ranked(words, n - 1);
        lemma_ranks(n - 1);
        let before = marked(words, n - 1);
        let now = marked(words, n);
        assert forall|i: int| 0 <= i < now.len() implies is_chain(#[trigger] now[i]) && rank_of(
            now[i],
        ) < n by {
            if i < before.len() {
                assert(now[i] == before[i]);
            }
        }
        assert forall|i: int, j: int| 0 <= i < j < now.len() implies rank_of(#[trigger] now[i])
            < rank_of(#[trigger] now[j]) by {
            assert(now[i] == before[i]);
            if j < before.len() {
                assert(now[j] == before[j]);
            }
        }
    }
}

/// Only chains of the room are decoded.
pub proof fn decoded_chains_are_sane(words: Seq<u32>, i: int)
    requires
        0 <= i < marked(words, CHAINS as int).len(),
    ensures
        is_chain(marked(words, CHAINS as int)[i]),
{
    lemma_ranked(words, CHAINS as int);
}

/// No chain is decoded twice.
pub proof fn decoded_chains_are_distinct(words: Seq<u32>, i: int, j: int)
    requires
        0 <= i < j < marked(words, CHAINS as int).len(),
    ensures
        marked(words, CHAINS as int)[i] != marked(words, CHAINS as int)[j],
{
    lemma_ranked(words, CHAINS as int);
}

} // verus!
