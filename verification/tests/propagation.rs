use omg_audio::arith::Op;
use omg_audio::ism::image_source_taps;
use omg_audio::material::{Material, SPEED_OF_SOUND};
use omg_audio::mesh::{MeshBuilder, Point};
use omg_audio::params::{ReverbParams, Tap};
use omg_audio::pt::{mirror, pt_discover, record_for, seed_chains, solve_chain, PathRecord};
use omg_audio::rng::Rng;
use omg_audio::scene::{Panel, Shoebox, WithPanels};
use omg_audio::single::Single;
use omg_audio::tracer::{estimate_reverb, trace, DecayMeter, Echogram};

fn s(x: f32) -> Single {
    Single(x.to_bits())
}

fn v(x: Single) -> f32 {
    f32::from_bits(x.0)
}

fn calc(op: Op) -> Single {
    s(match op {
        Op::Plus(a, b) => v(a) + v(b),
        Op::Minus(a, b) => v(a) - v(b),
        Op::Times(a, b) => v(a) * v(b),
        Op::Over(a, b) => v(a) / v(b),
        Op::Rest(a, b) => v(a) % v(b),
        Op::Power(a, b) => v(a).powf(v(b)),
        Op::Exp(a) => v(a).exp(),
        Op::Ln(a) => v(a).ln(),
        Op::Log(a) => v(a).log10(),
        Op::Root(a) => v(a).sqrt(),
        Op::Sin(a) => v(a).sin(),
        Op::Cos(a) => v(a).cos(),
        Op::Tan(a) => v(a).tan(),
        Op::Tanh(a) => v(a).tanh(),
        Op::Acos(a) => v(a).acos(),
        Op::Floor(a) => v(a).floor(),
        Op::Round(a) => v(a).round(),
    })
}

fn p(x: f32, y: f32, z: f32) -> Point {
    [s(x), s(y), s(z)]
}

fn far(a: Point, b: Point) -> f32 {
    let d = [v(a[0]) - v(b[0]), v(a[1]) - v(b[1]), v(a[2]) - v(b[2])];
    (d[0] * d[0] + d[1] * d[1] + d[2] * d[2]).sqrt()
}

fn grown(q: (u64, Single)) -> u64 {
    (f64::from_bits(q.0) + v(q.1) as f64).to_bits()
}

fn leveled(q: (u64, u64)) -> u64 {
    (10.0 * (f64::from_bits(q.0) / f64::from_bits(q.1)).max(1e-12).log10()).to_bits()
}

fn parted(q: (u64, u64)) -> Single {
    s((f64::from_bits(q.0) - f64::from_bits(q.1)) as f32)
}

fn reverb_of(echo: &Echogram) -> ReverbParams {
    let meter = DecayMeter { grow: grown, level: leveled, apart: parted };
    estimate_reverb(&calc, &meter, echo)
}

const NBANDS: usize = 3;

fn one() -> [Single; 3] {
    [s(1.0); 3]
}

fn room() -> Shoebox {
    Shoebox::new(p(8.0, 6.0, 3.0), [Material::drywall(); 6])
}

#[test]
fn ism_order3_shoebox_has_63_images() {
    let mut taps = Vec::new();
    image_source_taps(&calc, &room(), p(2.0, 2.0, 1.5), p(5.0, 4.0, 1.5), 3, &mut taps);
    // Known closed-form count for a shoebox: 1 + 6 + 18 + 38.
    assert_eq!(taps.len(), 63);
}

#[test]
fn ism_direct_path_delay_matches_distance() {
    let src = p(2.0, 2.0, 1.5);
    let lis = p(5.0, 4.0, 1.5);
    let mut taps = Vec::new();
    image_source_taps(&calc, &room(), src, lis, 0, &mut taps);
    assert_eq!(taps.len(), 1);
    let expect = far(src, lis) / f32::from_bits(SPEED_OF_SOUND);
    assert!((v(taps[0].delay_s) - expect).abs() < 1e-6);
}

#[test]
fn rt60_tracks_absorption() {
    // Same room, dead vs. live materials: RT60 must order correctly.
    let mut rng = Rng::new(7);
    let src = p(2.0, 2.0, 1.5);
    let lis = p(5.0, 4.0, 1.5);

    let mut rt = |mat: Material| {
        let r = Shoebox::new(p(8.0, 6.0, 3.0), [mat; 6]);
        let mut e = Echogram::new();
        trace(&calc, &r, src, lis, 20_000, one(), &mut rng, &mut e);
        v(reverb_of(&e).rt60[1])
    };

    let live = rt(Material::concrete());
    let dead = rt(Material::acoustic_tile());
    assert!(live > 2.0 * dead, "concrete {live} vs tile {dead}");

    // Sabine for all-drywall: about 1.6 s.
    let drywall = rt(Material::drywall());
    assert!(drywall > 0.8 && drywall < 3.0, "drywall rt60 {drywall}");
}

#[test]
fn late_level_is_distance_independent() {
    // The diffuse field does not get louder as you approach the source.
    let mut rng = Rng::new(11);
    let r = Shoebox::new(p(10.0, 8.0, 4.0), [Material::drywall(); 6]);
    let src = p(2.0, 4.0, 1.5);

    let mut level_at = |lis: Point| {
        let mut e = Echogram::new();
        trace(&calc, &r, src, lis, 40_000, one(), &mut rng, &mut e);
        v(reverb_of(&e).level[1])
    };

    let near = level_at(p(3.0, 4.0, 1.5)); // 1 m
    let away = level_at(p(8.0, 4.0, 1.5)); // 6 m
    let ratio = near / away.max(1e-6);
    assert!(
        (0.5..2.0).contains(&ratio),
        "late level should be ~distance-independent, near/far = {ratio}"
    );
}

fn shell_with_a_doorway() -> omg_audio::mesh::Mesh {
    let mut mb = MeshBuilder::new();
    let m = mb.material(Material::concrete());
    let f = &calc;
    // room shell [0,8] x [0,6] x [0,3]: five solid faces...
    mb.quad(f, p(0.0, 0.0, 0.0), p(0.0, 6.0, 0.0), p(0.0, 6.0, 3.0), p(0.0, 0.0, 3.0), m);
    mb.quad(f, p(0.0, 0.0, 0.0), p(8.0, 0.0, 0.0), p(8.0, 0.0, 3.0), p(0.0, 0.0, 3.0), m);
    mb.quad(f, p(0.0, 6.0, 0.0), p(8.0, 6.0, 0.0), p(8.0, 6.0, 3.0), p(0.0, 6.0, 3.0), m);
    mb.quad(f, p(0.0, 0.0, 0.0), p(8.0, 0.0, 0.0), p(8.0, 6.0, 0.0), p(0.0, 6.0, 0.0), m);
    mb.quad(f, p(0.0, 0.0, 3.0), p(8.0, 0.0, 3.0), p(8.0, 6.0, 3.0), p(0.0, 6.0, 3.0), m);
    // ...and the x=8 wall with a doorway hole
    mb.quad(f, p(8.0, 0.0, 0.0), p(8.0, 2.5, 0.0), p(8.0, 2.5, 3.0), p(8.0, 0.0, 3.0), m);
    mb.quad(f, p(8.0, 3.5, 0.0), p(8.0, 6.0, 0.0), p(8.0, 6.0, 3.0), p(8.0, 3.5, 3.0), m);
    mb.quad(f, p(8.0, 2.5, 2.1), p(8.0, 3.5, 2.1), p(8.0, 3.5, 3.0), p(8.0, 2.5, 3.0), m);
    mb.build(f).unwrap()
}

#[test]
fn reverb_through_a_hole_reports_the_hole_direction() {
    let mesh = shell_with_a_doorway();
    let src = p(2.0, 3.0, 1.5);
    let lis = p(12.0, 3.0, 1.6);
    let mut rng = Rng::new(21);
    let mut echo = Echogram::new();
    trace(&calc, &mesh, src, lis, 16_384, one(), &mut rng, &mut echo);

    let (dir, aniso) = echo.late_direction(&calc, s(0.05));
    // doorway center (8, 3, 1.05) seen from (12, 3, 1.6)
    let hole = p(8.0, 3.0, 1.05);
    let len = far(hole, lis);
    let dot: f32 = (0..3).map(|k| v(dir[k]) * (v(hole[k]) - v(lis[k])) / len).sum();
    assert!(dot > 0.85, "late field should point at the doorway: dir {dir:?} dot {dot}");
    assert!(v(aniso) > 0.5, "through-a-hole field should be anisotropic: {}", v(aniso));
}

#[test]
fn a_leaf_over_the_hole_keeps_the_late_field_in() {
    let mesh = shell_with_a_doorway();
    let src = p(2.0, 3.0, 1.5);
    let lis = p(12.0, 3.0, 1.6);
    let leaf = vec![Panel {
        lo: p(7.95, 2.5, 0.0),
        hi: p(8.05, 3.5, 2.1),
        material: Material::wood_panel(),
    }];
    let heard = |panels: &Vec<Panel>| {
        let mut rng = Rng::new(21);
        let mut echo = Echogram::new();
        let world = WithPanels { base: &mesh, panels };
        trace(&calc, &world, src, lis, 4096, one(), &mut rng, &mut echo);
        v(reverb_of(&echo).level[1])
    };
    let open = heard(&Vec::new());
    let closed = heard(&leaf);
    assert!(open > 0.0);
    assert!(closed < 0.05 * open, "open {open} closed {closed}");
}

#[test]
fn closed_room_late_field_is_diffuse() {
    let room = Shoebox::new(p(8.0, 6.0, 3.0), [Material::drywall(); 6]);
    let mut rng = Rng::new(5);
    let mut echo = Echogram::new();
    trace(&calc, &room, p(2.0, 3.0, 1.5), p(6.0, 2.0, 1.6), 16_384, one(), &mut rng, &mut echo);
    let (_, aniso) = echo.late_direction(&calc, s(0.15));
    assert!(v(aniso) < 0.35, "closed-room tail should be diffuse: {}", v(aniso));
}

#[test]
fn no_rays_leave_no_echo() {
    let mut rng = Rng::new(5);
    let mut echo = Echogram::new();
    trace(&calc, &room(), p(2.0, 3.0, 1.5), p(6.0, 2.0, 1.6), 0, one(), &mut rng, &mut echo);
    let (dir, aniso) = echo.late_direction(&calc, s(0.0));
    assert_eq!(v(aniso), 0.0);
    assert_eq!(dir, [s(1.0), s(0.0), s(0.0)]);
    for b in 0..NBANDS {
        assert_eq!(v(reverb_of(&echo).level[b]), 0.0);
    }
}

const GOLDEN_RAYS: u32 = 4096;
const GOLDEN_AVG: u64 = 4;
const GOLDEN_SEED: u64 = 0xC0FFEE;
const GOLDEN_LATE_S: f32 = 0.05;
const RT60_REL_TOL: f32 = 0.12;
const LEVEL_DB_TOL: f32 = 1.0;
const ANISO_TOL: f32 = 0.06;
const ANISO_LEVEL_FLOOR_DB: f32 = -40.0;

struct GoldenConfig {
    name: &'static str,
    room: Shoebox,
    src: Point,
    lis: Point,
    /// Expected rt60 low/mid/high, level in dB low/mid/high, anisotropy.
    expect: [f32; 7],
}

fn golden_configs() -> Vec<GoldenConfig> {
    let concrete = Material::concrete();
    let tile = Material::acoustic_tile();
    let drywall = Material::drywall();
    let wood = Material::wood_panel();
    vec![
        GoldenConfig {
            name: "live-room",
            room: Shoebox::new(
                p(6.0, 4.0, 3.0),
                [concrete, concrete, concrete, concrete, wood, concrete],
            ),
            src: p(1.5, 1.0, 1.5),
            lis: p(4.5, 3.0, 1.6),
            expect: [1.10, 0.98, 1.03, -4.9, -3.4, -4.8, 0.015],
        },
        GoldenConfig {
            name: "dead-room",
            room: Shoebox::new(
                p(12.0, 9.0, 4.0),
                [tile, tile, tile, tile, Material::carpet(), tile],
            ),
            src: p(3.0, 2.0, 1.5),
            lis: p(9.0, 7.0, 1.6),
            expect: [0.69, 0.21, 0.17, -21.7, -41.4, -50.4, 0.123],
        },
        GoldenConfig {
            name: "hall",
            room: Shoebox::new(
                p(16.0, 3.5, 3.0),
                [drywall, drywall, drywall, drywall, wood, concrete],
            ),
            src: p(1.5, 1.75, 1.5),
            lis: p(14.0, 1.75, 1.6),
            expect: [0.96, 1.36, 1.46, -17.3, -10.2, -8.4, 0.015],
        },
    ]
}

fn metrics_of(echo: &Echogram) -> [f32; 7] {
    let rv = reverb_of(echo);
    let mut m = [0.0f32; 7];
    for b in 0..NBANDS {
        m[b] = v(rv.rt60[b]);
        m[3 + b] = 20.0 * v(rv.level[b]).max(1e-9).log10();
    }
    let (_, aniso) = echo.late_direction(&calc, s(GOLDEN_LATE_S));
    m[6] = v(aniso);
    m
}

fn run_cpu(cfg: &GoldenConfig, seed: u64) -> [f32; 7] {
    let mut avg = Echogram::new();
    let mut echo = Echogram::new();
    for k in 0..GOLDEN_AVG {
        let mut rng = Rng::new(seed.wrapping_add(k.wrapping_mul(0x9E3779B97F4A7C15)));
        trace(&calc, &cfg.room, cfg.src, cfg.lis, GOLDEN_RAYS, one(), &mut rng, &mut echo);
        // running mean over the k traces
        avg.ema(&calc, &echo, s(1.0 / (k + 1) as f32));
    }
    metrics_of(&avg)
}

fn assert_golden(name: &str, got: &[f32; 7], expect: &[f32; 7]) {
    for b in 0..NBANDS {
        let rel = (got[b] - expect[b]).abs() / expect[b];
        assert!(
            rel <= RT60_REL_TOL,
            "{name}: rt60[{b}] {} vs golden {} ({:.1}% > {:.0}%)",
            got[b],
            expect[b],
            rel * 100.0,
            RT60_REL_TOL * 100.0
        );
        let ddb = (got[3 + b] - expect[3 + b]).abs();
        // a band whose late tail sits below the audibility floor may wobble
        // more in absolute dB while staying inaudible
        let tol = if expect[3 + b] < ANISO_LEVEL_FLOOR_DB { 2.5 } else { LEVEL_DB_TOL };
        assert!(
            ddb <= tol,
            "{name}: level[{b}] {:.2} dB vs golden {:.2} dB ({ddb:.2} > {tol})",
            got[3 + b],
            expect[3 + b]
        );
    }
    if expect[4] > ANISO_LEVEL_FLOOR_DB {
        assert!(
            (got[6] - expect[6]).abs() <= ANISO_TOL,
            "{name}: anisotropy {:.3} vs golden {:.3}",
            got[6],
            expect[6]
        );
    }
}

#[test]
fn cpu_tracer_within_goldens() {
    for cfg in golden_configs() {
        let m = run_cpu(&cfg, GOLDEN_SEED);
        assert_golden(cfg.name, &m, &cfg.expect);
        let m2 = run_cpu(&cfg, 0x5EED_5EED);
        assert_golden(cfg.name, &m2, &cfg.expect);
    }
}

fn db(a: Single) -> f32 {
    20.0 * v(a).max(1e-9).log10()
}

fn agrees(r: &PathRecord, tap: &Tap) -> bool {
    let dot: f32 = (0..3).map(|k| v(r.dir[k]) * v(tap.dir[k])).sum();
    (v(r.delay_s) - v(tap.delay_s)).abs() * 1000.0 <= 0.5
        && dot > 0.995
        && (0..NBANDS).all(|b| (db(r.gains[b]) - db(tap.gains[b])).abs() <= 1.0)
}

#[test]
fn pt_matches_ism_in_empty_shoeboxes() {
    for cfg in golden_configs() {
        let mut ism = Vec::new();
        image_source_taps(&calc, &cfg.room, cfg.src, cfg.lis, 3, &mut ism);
        let mut ism2 = Vec::new();
        image_source_taps(&calc, &cfg.room, cfg.src, cfg.lis, 2, &mut ism2);

        // accumulate discovery over rotations, like the cache does
        let mut records: Vec<PathRecord> = Vec::new();
        let mut tick = Vec::new();
        for rot in 0..12u32 {
            pt_discover(&calc, &cfg.room, &vec![cfg.src], cfg.lis, 4096, rot, &mut tick);
            for r in &tick {
                if !records.iter().any(|q| q.key() == r.key()) {
                    records.push(*r);
                }
            }
        }

        // completeness at order <= 2
        let missed = ism2.iter().filter(|tap| !records.iter().any(|r| agrees(r, tap))).count();
        assert_eq!(missed, 0, "{}: {missed}/{} paths undiscovered", cfg.name, ism2.len());

        // soundness at order <= 3
        for r in &records {
            assert!(
                ism.iter().any(|tap| agrees(r, tap)),
                "{}: invented a path: chain {:?} delay {:.2} ms",
                cfg.name,
                &r.chain[..r.order as usize],
                v(r.delay_s) * 1000.0
            );
        }

        // the direct path is there and exact
        let direct = records.iter().find(|r| r.order == 0).expect("direct path");
        let true_delay = far(cfg.src, cfg.lis) / f32::from_bits(SPEED_OF_SOUND);
        assert!((v(direct.delay_s) - true_delay).abs() < 1e-5);
    }
}

#[test]
fn pt_solver_rejects_impossible_chains() {
    let cfg = &golden_configs()[0];
    // a chain that repeats the same wall twice in a row is geometrically
    // impossible off a plane
    assert!(solve_chain(&calc, &cfg.room, &[0, 0], cfg.src, cfg.lis).is_none());
}

#[test]
fn a_single_bounce_has_the_image_distance() {
    let cfg = &golden_configs()[0];
    // floor: the source mirrored to z = -1.5
    let (dist, dir, _) = solve_chain(&calc, &cfg.room, &[4], cfg.src, cfg.lis).unwrap();
    let image = p(1.5, 1.0, -1.5);
    assert!((v(dist) - far(image, cfg.lis)).abs() < 1e-5);
    assert!(v(dir[2]) < 0.0);
}

#[test]
fn near_paths_are_delayed_by_their_distance() {
    let room = Shoebox::new(p(8.0, 6.0, 3.0), [Material::drywall(); 6]);
    let mut out = Vec::new();
    image_source_taps(&calc, &room, p(2.0, 2.0, 1.5), p(2.1, 2.0, 1.5), 0, &mut out);
    assert_eq!(out.len(), 1);
    assert!((v(out[0].delay_s) - 0.1 / 343.0).abs() < 1e-6);
    // the loss of distance is that of 0.3 m
    assert!((v(out[0].gains[0]) - 1.0 / 0.3).abs() < 0.01, "{}", v(out[0].gains[0]));
}

#[test]
fn images_are_reciprocal() {
    let room = Shoebox::new(p(8.0, 6.0, 4.0), [Material::brick(); 6]);
    let (a, b) = (p(2.0, 1.0, 1.0), p(5.0, 4.0, 2.0));
    let (mut there, mut back) = (Vec::new(), Vec::new());
    image_source_taps(&calc, &room, a, b, 2, &mut there);
    image_source_taps(&calc, &room, b, a, 2, &mut back);
    let listed = |taps: &Vec<Tap>| {
        let mut r: Vec<(u32, [u32; 3])> =
            taps.iter().map(|t| (t.delay_s.0, t.gains.map(|g| g.0))).collect();
        r.sort();
        r
    };
    assert_eq!(listed(&there), listed(&back));
}

#[test]
fn draws_are_nonzero_and_directions_have_length_one() {
    let mut rng = Rng::new(5);
    for _ in 0..1000 {
        assert_ne!(rng.next_u64(), 0);
        let d = rng.unit_sphere(&calc).map(v);
        assert!((d[0] * d[0] + d[1] * d[1] + d[2] * d[2] - 1.0).abs() < 1e-5);
    }
}

#[test]
fn energies_are_nonnegative_and_directions_within_them() {
    let room = Shoebox::new(p(6.0, 4.0, 3.0), [Material::brick(); 6]);
    let mut rng = Rng::new(5);
    let mut e = Echogram::new();
    trace(&calc, &room, p(1.5, 1.0, 1.5), p(4.5, 3.0, 1.6), 256, [s(1.0); 3], &mut rng, &mut e);
    for (bin, dir) in e.bins.iter().zip(&e.dirs) {
        assert!(bin.iter().all(|x| v(*x) >= 0.0));
        let len = dir.iter().map(|x| v(*x) * v(*x)).sum::<f32>().sqrt();
        assert!(len <= v(bin[1]) * 1.0001 + 1e-9);
    }
}

#[test]
fn no_seed_is_listed_twice() {
    let mut seeds = Vec::new();
    seed_chains(&mut seeds);
    // nothing, each wall, each wall after another one
    assert_eq!(seeds.len(), 1 + 6 + 6 * 5);
    let listed = seeds.len();
    seeds.sort();
    seeds.dedup();
    assert_eq!(seeds.len(), listed);
}

#[test]
fn mirroring_twice_gives_the_point_back() {
    let size = p(5.0, 4.0, 3.0);
    let at = p(1.5, 2.25, 0.75);
    for w in 0..6u8 {
        let there = mirror(&calc, at, w, size);
        assert_ne!(there, at);
        assert_eq!(mirror(&calc, there, w, size), at);
    }
    assert_eq!(mirror(&calc, at, 1, size).map(v), [8.5, 2.25, 0.75]);
}

#[test]
fn a_chain_is_heard_from_its_image() {
    let room = room();
    let (src, lis) = (p(1.5, 2.25, 0.75), p(3.5, 1.25, 1.75));
    let mut taps = Vec::new();
    image_source_taps(&calc, &room, src, lis, 2, &mut taps);
    let mut seeds = Vec::new();
    seed_chains(&mut seeds);
    let mut heard = 0;
    for (walls, n) in seeds {
        let chain: Vec<u8> = walls[..n as usize].to_vec();
        if let Some(r) = record_for(&calc, &room, &chain, 0, src, lis) {
            heard += 1;
            assert!(taps.iter().any(|t| t.delay_s == r.delay_s), "{chain:?}");
        }
    }
    assert!(heard >= 7);
}
