use omg_audio::arith::Op;
use omg_audio::gpu::{
    mesh_launch, solve_launch, solve_reply, trace_launch, trace_reply, GpuEarlyDiscovery,
    GpuLateBackend, GpuWorldDiscovery, GpuWorldLateBackend, MeshBuffers, Obox, SolveCaps,
    SolveSource, DISC_CAP,
};
use omg_audio::layout::{
    pack, GpuBvhNode, GpuFace, GpuMeshJob, GpuPanel, GpuPrim, GpuTraceJob, BINS_LEN, DIRS_LEN,
};
use omg_audio::material::Material;
use omg_audio::mesh::{MeshBuilder, Point};
use omg_audio::pt_mesh::Aabb;
use omg_audio::scene::{Panel, Shoebox};
use omg_audio::single::Single;
use omg_audio::tracer::{Echogram, NBINS};

fn s(x: f32) -> Single {
    Single(x.to_bits())
}

fn v(x: Single) -> f32 {
    f32::from_bits(x.0)
}

fn calc(op: Op) -> Single {
    s(match op {
        Op::Plus(a, b) => v(a) + v(b),
        Op::Minus(a, b) => v(a) - v(b),
        Op::Times(a, b) => v(a) * v(b),
        Op::Over(a, b) => v(a) / v(b),
        Op::Rest(a, b) => v(a) % v(b),
        Op::Power(a, b) => v(a).powf(v(b)),
        Op::Exp(a) => v(a).exp(),
        Op::Ln(a) => v(a).ln(),
        Op::Log(a) => v(a).log10(),
        Op::Root(a) => v(a).sqrt(),
        Op::Sin(a) => v(a).sin(),
        Op::Cos(a) => v(a).cos(),
        Op::Tan(a) => v(a).tan(),
        Op::Tanh(a) => v(a).tanh(),
        Op::Acos(a) => v(a).acos(),
        Op::Floor(a) => v(a).floor(),
        Op::Round(a) => v(a).round(),
    })
}

fn p(x: f32, y: f32, z: f32) -> Point {
    [s(x), s(y), s(z)]
}

/// A triple that is found again by its first number.
fn mark(x: f32) -> [Single; 3] {
    [s(x), s(x + 0.25), s(x + 0.5)]
}

/// The byte at which a word lies.
fn offset(words: &[u32], word: u32) -> usize {
    4 * words.iter().position(|w| *w == word).unwrap()
}

fn face() -> GpuFace {
    GpuFace { absorption: mark(90.0), scattering: s(91.0) }
}

#[test]
fn layout_sizes() {
    assert_eq!(4 * pack(&[face()]).len(), 16);
    let job = GpuTraceJob {
        size: mark(10.0),
        n_rays: 7,
        source: mark(20.0),
        seed: 8,
        listener: mark(30.0),
        energy: mark(40.0),
        faces: [face(); 6],
    };
    let words = pack(&[job]);
    assert_eq!(4 * words.len(), 160);
    assert_eq!(offset(&words, 7), 12);
    assert_eq!(offset(&words, s(20.0).0), 16);
    assert_eq!(offset(&words, 8), 28);
    assert_eq!(offset(&words, s(30.0).0), 32);
    assert_eq!(offset(&words, s(40.0).0), 48);
    assert_eq!(offset(&words, s(90.0).0), 64);
    assert_eq!(NBINS, 300);
}

#[test]
fn mesh_layout_sizes() {
    let node = pack(&[GpuBvhNode { bmin: mark(10.0), a: 7, bmax: mark(20.0), b: 8 }]);
    assert_eq!(4 * node.len(), 32);
    assert_eq!(offset(&node, 7), 12);
    assert_eq!(offset(&node, s(20.0).0), 16);
    let prim = pack(&[GpuPrim { a: mark(10.0), mat: 7, e1: mark(20.0), surf: 8, e2: mark(30.0) }]);
    assert_eq!(4 * prim.len(), 48);
    assert_eq!(offset(&prim, s(20.0).0), 16);
    assert_eq!(offset(&prim, 8), 28);
    assert_eq!(offset(&prim, s(30.0).0), 32);
    let panel = pack(&[GpuPanel {
        pmin: mark(10.0),
        scattering: s(9.0),
        pmax: mark(20.0),
        absorption: mark(30.0),
    }]);
    assert_eq!(4 * panel.len(), 48);
    assert_eq!(offset(&panel, s(30.0).0), 32);
    let job = pack(&[GpuMeshJob {
        n_rays: 7,
        seed: 8,
        n_panels: 9,
        source: mark(10.0),
        listener: mark(20.0),
        energy: mark(30.0),
    }]);
    assert_eq!(4 * job.len(), 64);
    assert_eq!(offset(&job, s(10.0).0), 16);
    assert_eq!(offset(&job, s(20.0).0), 32);
    assert_eq!(offset(&job, s(30.0).0), 48);
}

fn words(bytes: &[u8]) -> Vec<u32> {
    assert_eq!(bytes.len() % 4, 0);
    bytes.chunks(4).map(|c| u32::from_ne_bytes([c[0], c[1], c[2], c[3]])).collect()
}

fn bytes(words: &[u32]) -> Vec<u8> {
    words.iter().flat_map(|w| w.to_ne_bytes()).collect()
}

#[test]
fn a_trace_is_launched_with_its_job() {
    let room = Shoebox::new(p(8.0, 6.0, 3.0), [Material::drywall(); 6]);
    let l = trace_launch(&room, mark(1.0), mark(2.0), 130, [s(1.0); 3], 77);
    assert_eq!(l.groups, 3);
    let w = words(&l.job);
    assert_eq!(w.len(), 40);
    assert_eq!(w[0], s(8.0).0);
    assert_eq!(w[3], 130);
    assert_eq!(w[7], 77);
    assert_eq!(w[16], Material::drywall().absorption[0].0);
}

#[test]
fn a_reply_is_read_as_fixed_point() {
    let mut bins = vec![0u32; BINS_LEN];
    let mut dirs = vec![0u32; DIRS_LEN];
    bins[3] = 1 << 29;
    dirs[4] = (-(1i32 << 27)) as u32;
    let mut echo = Echogram::new();
    trace_reply(&bytes(&bins), &bytes(&dirs), &mut echo);
    assert_eq!(v(echo.bins[1][0]), 0.5);
    assert_eq!(v(echo.bins[1][1]), 0.0);
    assert_eq!(v(echo.dirs[1][1]), -0.5);
    assert_eq!(v(echo.dirs[0][0]), 0.0);
}

#[test]
fn every_trace_has_a_seed_of_its_own() {
    let room = Shoebox::new(p(8.0, 6.0, 3.0), [Material::drywall(); 6]);
    let mut late = GpuLateBackend::new();
    let a = words(&late.trace(&room, mark(1.0), mark(2.0), 64, [s(1.0); 3]).job)[7];
    let b = words(&late.trace(&room, mark(1.0), mark(2.0), 64, [s(1.0); 3]).job)[7];
    assert_eq!(a, 0x0D15_EA5Eu32.wrapping_mul(747796405).wrapping_add(2891336453));
    assert_eq!(b, a.wrapping_mul(747796405).wrapping_add(2891336453));
}

#[test]
fn a_world_trace_multiplies_its_rays_up_to_a_cap() {
    let mut world = GpuWorldLateBackend::new();
    let l = world.trace_world(mark(1.0), mark(2.0), 100, &[]);
    assert_eq!(words(&l.job)[0], 800);
    assert!(l.panels.is_empty());
    let l = world.trace_world(mark(1.0), mark(2.0), 5000, &[]);
    assert_eq!(words(&l.job)[0], 8192);
    assert_eq!(l.groups, 128);
}

#[test]
fn no_more_panels_are_sent_than_there_are_slots() {
    let panel = Panel { lo: mark(1.0), hi: mark(2.0), material: Material::concrete() };
    let l = mesh_launch(mark(3.0), mark(4.0), 64, [s(1.0); 3], 5, &vec![panel; 70]);
    assert_eq!(words(&l.job)[2], 64);
    assert_eq!(words(&l.panels).len(), 64 * 12);
    let l = mesh_launch(mark(3.0), mark(4.0), 64, [s(1.0); 3], 5, &[panel]);
    assert_eq!(words(&l.job)[2], 1);
    assert_eq!(words(&l.panels)[3], Material::concrete().scattering.0);
}

#[test]
fn an_empty_world_cannot_be_sent() {
    let mesh = MeshBuilder::new().build(&calc).unwrap();
    assert!(MeshBuffers::prepare(&mesh, &Vec::new(), &Vec::new()).is_none());
    let mut mb = MeshBuilder::new();
    let m = mb.material(Material::concrete());
    mb.abox(&calc, p(0.0, 0.0, 0.0), p(2.0, 2.0, 2.0), m);
    let mesh = mb.build(&calc).unwrap();
    let surfaces: Vec<u16> = (0..12).map(|t| t / 2).collect();
    let b = MeshBuffers::prepare(&mesh, &surfaces, &Vec::new()).unwrap();
    assert_eq!(b.nodes.len() % 32, 0);
    assert_eq!(b.prims.len(), 12 * 48);
    assert_eq!(b.mats.len(), 16);
    assert_eq!(b.oboxes, vec![0u8; 32]);
    let boxes = vec![Obox { lo: mark(1.0), hi: mark(2.0) }];
    let b = MeshBuffers::prepare(&mesh, &surfaces, &boxes).unwrap();
    assert_eq!((b.n_boxes, words(&b.oboxes)[4]), (1, s(2.0).0));
}

#[test]
fn world_chains_come_back_from_their_words() {
    let disc = GpuWorldDiscovery { base: 20, n_boxes: 3 };
    let l = disc.discover(mark(5.0), 9, 128, true);
    assert_eq!(words(&l.job), vec![128, 9, 3, 20, s(5.0).0, s(5.25).0, s(5.5).0, 0]);
    assert_eq!(l.groups, 2);
    assert_eq!(words(&disc.discover(mark(5.0), 9, 128, false).job)[2], 0);

    let mut reply = vec![0u32; 1 + 2 * DISC_CAP];
    reply[0] = 2;
    reply[1] = 7 | (8 << 16);
    reply[2] = 9 | (3 << 16);
    reply[3] = 4 | (0xFFFF << 16);
    reply[4] = 0xFFFF | (1 << 16);
    let mut chains = Vec::new();
    disc.reply(&bytes(&reply), &mut chains);
    assert_eq!(chains, vec![([7, 8, 9], 3), ([4, 0xFFFF, 0xFFFF], 1)]);
}

#[test]
fn a_batch_that_does_not_fit_is_refused() {
    let caps = SolveCaps { sources: 2, chains: 2, extras: 1 };
    let src = SolveSource { id: 6, pos: mark(1.0) };
    let chain = ([1u16, 2, 3], 3u8);
    let extra = Aabb { min: mark(1.0), max: mark(2.0), transmission: mark(3.0) };
    let none = Vec::new();
    assert!(solve_launch(caps, &vec![], &vec![chain], mark(4.0), &none).is_none());
    assert!(solve_launch(caps, &vec![src], &vec![], mark(4.0), &none).is_none());
    assert!(solve_launch(caps, &vec![src; 3], &vec![chain], mark(4.0), &none).is_none());
    assert!(solve_launch(caps, &vec![src], &vec![chain; 3], mark(4.0), &none).is_none());
    assert!(solve_launch(caps, &vec![src], &vec![chain], mark(4.0), &vec![extra; 2]).is_none());
    let l = solve_launch(caps, &vec![src; 2], &vec![chain; 2], mark(4.0), &vec![extra]).unwrap();
    assert_eq!((l.n_pairs, l.groups), (4, 1));
    assert_eq!(words(&l.job)[..4], [2, 2, 1, 0]);
    assert_eq!(words(&l.chains)[..2], [1 | (2 << 16), 3 | (3 << 16)]);
    assert_eq!(words(&l.sources)[3], 6);
    assert_eq!(words(&l.extras).len(), 12);
}

#[test]
fn a_batch_is_answered_pair_by_pair() {
    let sources = vec![
        SolveSource { id: 6, pos: mark(1.0) },
        SolveSource { id: 7, pos: mark(2.0) },
    ];
    let chains = vec![([1u16, 0xFFFF, 0xFFFF], 1u8), ([2, 0xFFFF, 0xFFFF], 1)];
    let rec = |valid: u32, delay: f32| {
        let n = |x: f32| x.to_bits();
        [valid, n(delay), 9, 9, n(1.0), n(2.0), n(3.0), 9, n(4.0), n(5.0), n(6.0), 9]
    };
    let reply = [rec(1, 0.1), rec(0, 0.2), rec(1, 0.3), rec(1, 0.4)].concat();
    let mut out = Vec::new();
    solve_reply(&sources, &chains, &bytes(&reply), &mut out);
    assert_eq!(out.len(), 4);
    assert!(out[1].is_none());
    let last = out[3].unwrap();
    assert_eq!((last.source, last.chain[0], v(last.delay_s)), (7, 2, 0.4));
    assert_eq!(last.dir.map(v), [1.0, 2.0, 3.0]);
    assert_eq!(last.gains.map(v), [4.0, 5.0, 6.0]);
}

#[test]
fn room_chains_come_back_from_their_bits() {
    let disc = GpuEarlyDiscovery {};
    let l = disc.bitmap_for(mark(1.0), mark(2.0), 3);
    assert_eq!(l.groups, 64);
    assert_eq!(words(&l.job)[3], 4096);
    assert_eq!(words(&l.job)[7], 3);
    let mut bits = [0u32; 9];
    for b in [5usize, 6 + 6 * 2 + 4, 42 + 36 + 6 * 2 + 3] {
        bits[b / 32] |= 1 << (b % 32);
    }
    let mut chains = Vec::new();
    disc.discover(&bytes(&bits), &mut chains);
    chains.sort();
    assert_eq!(chains, vec![([1, 2, 3], 3), ([2, 4, 255], 2), ([5, 255, 255], 1)]);
}
