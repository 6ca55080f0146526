use omg_audio::arith::Op;
use omg_audio::diffraction::{knife_edge_amp, knife_edge_bands};
use omg_audio::material::Material;
use omg_audio::mesh::{budget_edges, extract_edges, Mesh, MeshBuilder, Point};
use omg_audio::params::ReverbParams;
use omg_audio::paths::{bend_point, over_silhouette, taut_string, AutoPaths, PathBudget};
use omg_audio::pt_mesh::{
    mesh_chains, mesh_record, mesh_vertices, Aabb, Overlay, SurfaceTable, World,
};
use omg_audio::rng::Rng;
use omg_audio::scene::Shoebox;
use omg_audio::single::Single;
use omg_audio::tracer::{estimate_reverb, trace, DecayMeter, Echogram};
use omg_audio::tri::ray_tri_packed;

fn s(x: f32) -> Single {
    Single(x.to_bits())
}

fn v(x: Single) -> f32 {
    f32::from_bits(x.0)
}

fn calc(op: Op) -> Single {
    s(match op {
        Op::Plus(a, b) => v(a) + v(b),
        Op::Minus(a, b) => v(a) - v(b),
        Op::Times(a, b) => v(a) * v(b),
        Op::Over(a, b) => v(a) / v(b),
        Op::Rest(a, b) => v(a) % v(b),
        Op::Power(a, b) => v(a).powf(v(b)),
        Op::Exp(a) => v(a).exp(),
        Op::Ln(a) => v(a).ln(),
        Op::Log(a) => v(a).log10(),
        Op::Root(a) => v(a).sqrt(),
        Op::Sin(a) => v(a).sin(),
        Op::Cos(a) => v(a).cos(),
        Op::Tan(a) => v(a).tan(),
        Op::Tanh(a) => v(a).tanh(),
        Op::Acos(a) => v(a).acos(),
        Op::Floor(a) => v(a).floor(),
        Op::Round(a) => v(a).round(),
    })
}

fn p(x: f32, y: f32, z: f32) -> Point {
    [s(x), s(y), s(z)]
}

fn far(a: Point, b: Point) -> f32 {
    let d = [v(a[0]) - v(b[0]), v(a[1]) - v(b[1]), v(a[2]) - v(b[2])];
    (d[0] * d[0] + d[1] * d[1] + d[2] * d[2]).sqrt()
}

fn grown(q: (u64, Single)) -> u64 {
    (f64::from_bits(q.0) + v(q.1) as f64).to_bits()
}

fn leveled(q: (u64, u64)) -> u64 {
    (10.0 * (f64::from_bits(q.0) / f64::from_bits(q.1)).max(1e-12).log10()).to_bits()
}

fn parted(q: (u64, u64)) -> Single {
    s((f64::from_bits(q.0) - f64::from_bits(q.1)) as f32)
}

fn reverb_of(echo: &Echogram) -> ReverbParams {
    let meter = DecayMeter { grow: grown, level: leveled, apart: parted };
    estimate_reverb(&calc, &meter, echo)
}

const NBANDS: usize = 3;

fn minus(a: Point, b: Point) -> Point {
    p(v(a[0]) - v(b[0]), v(a[1]) - v(b[1]), v(a[2]) - v(b[2]))
}

fn amp(detour: f32, freq: f32) -> f32 {
    v(knife_edge_amp(&calc, s(detour), s(freq)))
}

#[test]
fn grazing_edge_is_5db() {
    let a = amp(1e-9, 1000.0);
    assert!((20.0 * a.log10() + 5.0).abs() < 0.1, "grazing is -5 dB, got {}", 20.0 * a.log10());
}

#[test]
fn lows_bend_more_than_highs() {
    let bands = knife_edge_bands(&calc, s(0.5)).map(v);
    assert!(bands[0] > bands[1] && bands[1] > bands[2]);
    // half-meter detour: bass survives, treble strongly shadowed
    assert!(20.0 * bands[0].log10() > -12.0);
    assert!(20.0 * bands[2].log10() < -20.0);
}

#[test]
fn monotonic_in_detour() {
    let mut prev = 1.0;
    for i in 1..40 {
        let a = amp(i as f32 * 0.1, 790.0);
        assert!(a < prev);
        prev = a;
    }
}

#[test]
fn illuminated_side_recovers_to_unity() {
    // far into the lit zone: no loss
    assert!((amp(-0.05, 790.0) - 1.0).abs() < 1e-6);
    // inside the transition: partial, between clear and the -5 dB boundary
    let mid = amp(-0.02, 790.0);
    assert!(mid < 1.0 && mid > 0.56, "transition value {mid}");
    // monotonic through the shadow boundary into the shadow zone
    let mut prev = amp(-0.04, 790.0);
    for i in 0..20 {
        let a = amp(-0.04 + i as f32 * 0.005, 790.0);
        assert!(a <= prev + 1e-6, "not monotonic at step {i}");
        prev = a;
    }
}

fn box_mesh(size: Point) -> Mesh {
    let mut mb = MeshBuilder::new();
    let m = mb.material(Material::concrete());
    mb.abox(&calc, p(0.0, 0.0, 0.0), size, m);
    mb.build(&calc).unwrap()
}

fn anywhere(rng: &mut Rng) -> Point {
    p(v(rng.next_f32()) * 20.0, v(rng.next_f32()) * 20.0, v(rng.next_f32()) * 20.0)
}

fn off(a: Point, d: Point, k: f32) -> Point {
    p(v(a[0]) + v(d[0]) * k, v(a[1]) + v(d[1]) * k, v(a[2]) + v(d[2]) * k)
}

#[test]
fn bvh_raycast_matches_brute_force() {
    // random triangle soup
    let mut rng = Rng::new(7);
    let mut mb = MeshBuilder::new();
    let m = mb.material(Material::concrete());
    for _ in 0..200 {
        let base = anywhere(&mut rng);
        let b = off(base, rng.unit_sphere(&calc), 2.0);
        let c = off(base, rng.unit_sphere(&calc), 2.0);
        mb.tri(&calc, base, b, c, m);
    }
    let mesh = mb.build(&calc).unwrap();
    for _ in 0..500 {
        let o = anywhere(&mut rng);
        let d = rng.unit_sphere(&calc);
        let bvh = mesh.raycast(&calc, o, d);
        let brute = (0..mesh.tri_count() as u32)
            .filter_map(|t| {
                let (a, b, c) = mesh.parts.tri_verts(t);
                ray_tri_packed(&calc, a, minus(b, a), minus(c, a), o, d).map(|tt| (v(tt), t))
            })
            .min_by(|x, y| x.0.total_cmp(&y.0));
        match (bvh, brute) {
            (Some((tb, _)), Some((tr, _))) => {
                assert!((v(tb) - tr).abs() < 1e-4, "bvh {} vs brute {tr}", v(tb))
            }
            (None, None) => {}
            other => panic!("bvh/brute disagree: {other:?}"),
        }
    }
}

#[test]
fn box_mesh_traces_like_shoebox() {
    let size = p(8.0, 6.0, 3.0);
    let sbox = Shoebox::new(size, [Material::concrete(); 6]);
    let mesh = box_mesh(size);
    let src = p(2.0, 3.0, 1.5);
    let lis = p(6.0, 2.0, 1.6);

    let mut rng = Rng::new(42);
    let mut e_box = Echogram::new();
    trace(&calc, &sbox, src, lis, 8192, [s(1.0); 3], &mut rng, &mut e_box);
    let mut rng = Rng::new(42);
    let mut e_mesh = Echogram::new();
    trace(&calc, &mesh, src, lis, 8192, [s(1.0); 3], &mut rng, &mut e_mesh);

    let rb = reverb_of(&e_box);
    let rm = reverb_of(&e_mesh);
    for b in 0..3 {
        let ratio = v(rm.rt60[b]) / v(rb.rt60[b]);
        assert!(
            (0.8..1.25).contains(&ratio),
            "band {b}: mesh rt60 {} vs shoebox {}",
            v(rm.rt60[b]),
            v(rb.rt60[b])
        );
        let lr = v(rm.level[b]) / v(rb.level[b]).max(1e-9);
        assert!((0.7..1.4).contains(&lr), "band {b}: level ratio {lr}");
    }
}

#[test]
fn segment_hits_counts_wall_crossings() {
    let mesh = box_mesh(p(4.0, 4.0, 3.0));
    let mut hits = Vec::new();
    // through the whole box: enter + exit
    mesh.segment_hits(&calc, p(-2.0, 2.0, 1.5), p(6.0, 2.0, 1.5), &mut hits);
    assert_eq!(hits.len(), 2, "expected enter+exit");
    assert!(v(hits[0].t) < v(hits[1].t));
    // endpoint inside: only the entry wall
    mesh.segment_hits(&calc, p(-2.0, 2.0, 1.5), p(2.0, 2.0, 1.5), &mut hits);
    assert_eq!(hits.len(), 1);
    // fully inside: nothing
    mesh.segment_hits(&calc, p(1.0, 2.0, 1.5), p(3.0, 2.0, 1.5), &mut hits);
    assert_eq!(hits.len(), 0);
}

#[test]
fn box_has_twelve_sharp_edges_and_budget_ranks() {
    let mesh = box_mesh(p(8.0, 6.0, 3.0));
    let edges = extract_edges(&calc, &mesh.parts, s(40.0));
    assert_eq!(edges.len(), 12, "a box has 12 creases");
    let top = budget_edges(&edges, 4);
    assert_eq!(top.len(), 4);
    // the 4 most important edges of an 8x6x3 box are the 8 m ones
    for e in &top {
        assert!(far(e.b, e.a) > 5.9, "budget kept a short edge");
        assert!((v(e.importance) - 4.0).abs() < 1e-4, "8 m at a right angle weighs 4");
    }
}

/// A hollow-walled building: outer shell minus inner cavity.
fn building(mb: &mut MeshBuilder, lo: Point, hi: Point, t: f32, m: u16) {
    mb.abox(&calc, lo, hi, m);
    mb.abox(
        &calc,
        p(v(lo[0]) + t, v(lo[1]) + t, v(lo[2]) + t),
        p(v(hi[0]) - t, v(hi[1]) - t, v(hi[2]) - t),
        m,
    );
}

#[test]
fn wall_thickness_is_emergent() {
    let mut mb = MeshBuilder::new();
    let brick = mb.material(Material::brick());
    building(&mut mb, p(0.0, 0.0, 0.0), p(8.0, 6.0, 3.0), 0.24, brick);
    let mesh = mb.build(&calc).unwrap();
    let ap = AutoPaths::new(&calc, &mesh, 64);

    // through one 0.24 m wall: matches the authored-thickness mass law
    let got = ap.transmission(&calc, &mesh, p(-2.0, 3.0, 1.5), p(2.0, 3.0, 1.5)).map(v);
    let want = Material::brick().transmission_at(&calc, s(0.24)).map(v);
    for b in 0..NBANDS {
        assert!(
            (got[b] - want[b]).abs() < 0.02,
            "band {b}: emergent {} vs authored {}",
            got[b],
            want[b]
        );
    }
    // through the whole building (two walls): squared
    let got2 = ap.transmission(&calc, &mesh, p(-2.0, 3.0, 1.5), p(10.0, 3.0, 1.5)).map(v);
    for b in 0..NBANDS {
        assert!(
            (got2[b] - want[b] * want[b]).abs() < 0.02,
            "band {b}: two walls {} vs {}",
            got2[b],
            want[b] * want[b]
        );
    }
}

#[test]
fn bent_paths_found_behind_a_building_no_authoring() {
    let mut mb = MeshBuilder::new();
    let brick = mb.material(Material::brick());
    // solid obstacle 10x8x4 between source and listener, on the ground
    mb.abox(&calc, p(10.0, -4.0, 0.0), p(20.0, 4.0, 4.0), brick);
    mb.abox(&calc, p(-40.0, -40.0, -0.5), p(60.0, 40.0, 0.0), brick);
    let mesh = mb.build(&calc).unwrap();
    let ap = AutoPaths::new(&calc, &mesh, 64);

    let src = p(5.0, 0.0, 1.5);
    let lis = p(25.0, 0.0, 1.6);
    let mut paths = Vec::new();
    let budget = PathBudget { max_paths: 6, ..Default::default() };
    ap.find(&calc, &mesh, src, lis, budget, &mut paths);

    // direct is heavily blocked (thick brick), bent paths exist
    assert!(v(paths[0].gains[1]) < 0.1, "direct should be blocked: {:?}", paths[0].gains);
    assert!(paths.len() > 1, "no bent paths found");
    let best = &paths[1];
    assert!(v(best.gains[0]) > 2.0 * v(best.gains[2]), "bends must favor lows: {:?}", best.gains);
    // some path must go over the top (bend point near the roof plane)
    assert!(
        paths[1..].iter().any(|q| v(q.points[1][2]) > 3.5),
        "expected an over-the-roof path among {:?}",
        paths[1..].iter().map(|q| q.points[1].map(v)).collect::<Vec<_>>()
    );
    // and some path around the side (bend near a vertical edge)
    assert!(
        paths[1..].iter().any(|q| v(q.points[1][1]).abs() > 3.5 && v(q.points[1][2]) < 3.5),
        "expected an around-the-side path"
    );
    // bent paths are longer than the straight line
    assert!(v(best.length) > far(lis, src) + 0.1);
    // strongest first, within the budget
    assert!(paths.len() <= 7);
    assert!(paths[1..].windows(2).all(|w| v(w[0].gains[1]) >= v(w[1].gains[1])));
}

#[test]
fn clear_line_returns_only_direct() {
    let mut mb = MeshBuilder::new();
    let m = mb.material(Material::brick());
    mb.abox(&calc, p(0.0, 10.0, 0.0), p(4.0, 12.0, 3.0), m); // off to the side
    let mesh = mb.build(&calc).unwrap();
    let ap = AutoPaths::new(&calc, &mesh, 64);
    let mut paths = Vec::new();
    ap.find(
        &calc,
        &mesh,
        p(0.0, 0.0, 1.5),
        p(10.0, 0.0, 1.5),
        PathBudget::default(),
        &mut paths,
    );
    assert_eq!(paths.len(), 1);
    assert!((v(paths[0].gains[1]) - 1.0).abs() < 1e-6);
    assert_eq!(paths[0].key, 0);
}

#[test]
fn the_bend_point_is_where_the_way_is_shortest() {
    // mirror symmetry: the middle
    let b = bend_point(&calc, p(0.0, -5.0, 3.0), p(0.0, 5.0, 3.0), p(-4.0, 0.0, 0.0), p(4.0, 0.0, 0.0));
    assert!(far(b, p(0.0, 0.0, 3.0)) < 1e-2);
    // beyond its end: the end
    let b = bend_point(&calc, p(0.0, 5.0, 3.0), p(0.0, 9.0, 3.0), p(-4.0, 0.0, 0.0), p(4.0, 0.0, 0.0));
    assert!(far(b, p(0.0, 5.0, 3.0)) < 1e-2);
}

#[test]
fn the_string_over_a_tent_bends_once() {
    let pts: Vec<(Single, Single)> =
        [(0.0, 0.0), (1.0, 0.2), (2.0, 2.0), (3.0, 0.5), (4.0, 0.0)].map(|q: (f32, f32)| (s(q.0), s(q.1))).to_vec();
    let hull = taut_string(&calc, &pts);
    let flat: Vec<(f32, f32)> = hull.iter().map(|q| (v(q.0), v(q.1))).collect();
    assert_eq!(flat, vec![(0.0, 0.0), (2.0, 2.0), (4.0, 0.0)]);
}

#[test]
fn the_silhouette_goes_over_a_wall() {
    let mut mb = MeshBuilder::new();
    let m = mb.material(Material::brick());
    mb.abox(&calc, p(9.0, -4.0, 0.0), p(11.0, 4.0, 4.0), m);
    let mesh = mb.build(&calc).unwrap();
    let over = over_silhouette(&calc, &mesh, p(0.0, 0.0, 1.5), p(20.0, 0.0, 1.5)).unwrap();
    assert_eq!(over.key, 90_000);
    assert!(over.points.len() >= 3);
    assert!(v(over.points[1][2]) > 4.0);
    assert!(v(over.length) > 20.0);
    assert!(v(over.gains[0]) > v(over.gains[2]));
    // nothing in the way, or hardly any run: nothing
    assert!(over_silhouette(&calc, &mesh, p(0.0, 20.0, 1.5), p(20.0, 20.0, 1.5)).is_none());
    assert!(over_silhouette(&calc, &mesh, p(0.0, 0.0, 1.5), p(0.5, 0.0, 1.5)).is_none());
}

/// Every face of a box mesh is a surface of its own, two triangles each.
fn faces() -> Vec<u16> {
    (0..12u16).map(|t| t / 2).collect()
}

#[test]
fn a_mesh_room_reflects_like_its_walls() {
    let mesh = box_mesh(p(8.0, 6.0, 3.0));
    let tri_surface = faces();
    let table = SurfaceTable::build(&calc, &mesh, &tri_surface);
    assert_eq!(table.surfaces.len(), 6);
    assert_eq!(table.base_overlay, 6);
    let extras = Vec::new();
    let world = World { mesh: &mesh, tri_surface: &tri_surface, table: &table, extras: &extras };
    let src = p(2.0, 3.0, 1.5);
    let lis = p(6.0, 2.0, 1.6);
    let direct = mesh_record(&calc, &world, &[], 4, src, lis).unwrap();
    assert_eq!((direct.source, direct.order), (4, 0));
    assert!((v(direct.delay_s) - far(src, lis) / 343.0).abs() < 1e-6);

    let mut chains = Vec::new();
    mesh_chains(&calc, &mesh, &tri_surface, &Vec::new(), 6, lis, 512, 0, &mut chains);
    // all six walls are met by some ray
    for w in 0..6u16 {
        assert!(chains.contains(&([w, 0xFFFF, 0xFFFF], 1)), "wall {w}");
        let r = mesh_record(&calc, &world, &[w], 0, src, lis).unwrap();
        assert!(v(r.delay_s) > v(direct.delay_s));
        assert!(v(r.gains[1]) < v(direct.gains[1]));
        let mut line = Vec::new();
        assert!(mesh_vertices(&calc, &table, &[w], src, lis, &mut line));
        assert_eq!(line.len(), 3);
        let total = far(line[0], line[1]) + far(line[1], line[2]);
        assert!((total - v(r.delay_s) * 343.0).abs() < 1e-3);
    }
    // an unknown surface has no image
    assert!(mesh_record(&calc, &world, &[9], 0, src, lis).is_none());
    let mut line = Vec::new();
    assert!(!mesh_vertices(&calc, &table, &[9], src, lis, &mut line));
    // the keys of different chains differ
    let a = mesh_record(&calc, &world, &[0], 0, src, lis).unwrap().key();
    let b = mesh_record(&calc, &world, &[1], 0, src, lis).unwrap().key();
    assert!(a != b && a != direct.key());
}

#[test]
fn a_blocker_dims_the_legs_through_it() {
    let mesh = box_mesh(p(8.0, 6.0, 3.0));
    let tri_surface = faces();
    let table = SurfaceTable::build(&calc, &mesh, &tri_surface);
    let src = p(2.0, 3.0, 1.5);
    let lis = p(6.0, 3.0, 1.5);
    let heard = |transmission: f32| {
        let extras = vec![Aabb {
            min: p(3.5, 2.0, 0.0),
            max: p(4.5, 4.0, 2.0),
            transmission: [s(transmission); 3],
        }];
        let w = World { mesh: &mesh, tri_surface: &tri_surface, table: &table, extras: &extras };
        mesh_record(&calc, &w, &[], 0, src, lis).map(|r| v(r.gains[1]))
    };
    let open = heard(1.0).unwrap();
    assert!((heard(0.25).unwrap() / open - 0.25).abs() < 1e-5);
    assert!(heard(0.0).is_none());
}

#[test]
fn an_overlay_box_reflects_on_its_faces() {
    let mesh = box_mesh(p(8.0, 6.0, 3.0));
    let tri_surface = faces();
    let mut table = SurfaceTable::build(&calc, &mesh, &tri_surface);
    let lo = p(3.0, 2.0, 0.0);
    let hi = p(5.0, 4.0, 0.8);
    table.append_box(&calc, lo, hi, &Material::wood_panel());
    assert_eq!(table.surfaces.len(), 12);
    assert_eq!(table.base_overlay, 6);
    let extras = Vec::new();
    let w = World { mesh: &mesh, tri_surface: &tri_surface, table: &table, extras: &extras };
    // the table top (last face) lies between the two
    let src = p(3.0, 3.0, 1.8);
    let lis = p(5.0, 3.0, 1.8);
    assert!(mesh_record(&calc, &w, &[11], 0, src, lis).is_some());
    // off the face: nothing to reflect from
    assert!(mesh_record(&calc, &w, &[11], 0, p(6.0, 3.0, 1.8), p(7.5, 3.0, 1.8)).is_none());
    // discovery meets the top
    let mut chains = Vec::new();
    let boxes = vec![Overlay { lo, hi }];
    mesh_chains(&calc, &mesh, &tri_surface, &boxes, 6, p(4.0, 3.0, 1.8), 512, 3, &mut chains);
    assert!(chains.contains(&([11, 0xFFFF, 0xFFFF], 1)));
}

#[test]
fn boxes_are_wound_outward() {
    let mut mb = MeshBuilder::new();
    let m = mb.material(Material::brick());
    mb.abox(&calc, p(0.0, 0.0, 0.0), p(1.0, 1.0, 1.0), m);
    let mesh = mb.build(&calc).unwrap();
    assert_eq!(mesh.tri_count(), 12);
    assert_eq!(mesh.parts.positions.len(), 8);
    let out = [
        [-1.0, 0.0, 0.0],
        [1.0, 0.0, 0.0],
        [0.0, -1.0, 0.0],
        [0.0, 1.0, 0.0],
        [0.0, 0.0, -1.0],
        [0.0, 0.0, 1.0],
    ];
    for t in 0..12 {
        assert_eq!(mesh.parts.tri_normal(&calc, t).map(v), out[t as usize / 2], "triangle {t}");
    }
}

#[test]
fn a_box_more_never_adds_sound() {
    let mut mb = MeshBuilder::new();
    let m = mb.material(Material::brick());
    mb.abox(&calc, p(-5.0, -5.0, -0.5), p(15.0, 5.0, 0.0), m);
    let mesh = mb.build(&calc).unwrap();
    let tri_surface: Vec<u16> = (0..mesh.tri_count()).map(|t| (t / 2) as u16).collect();
    let table = SurfaceTable::build(&calc, &mesh, &tri_surface);
    let (src, lis) = (p(0.0, 0.0, 1.5), p(10.0, 0.0, 1.5));
    let pane = Aabb { min: p(4.0, -1.0, 0.0), max: p(4.1, 1.0, 3.0), transmission: [s(0.5); 3] };
    let heard = |extras: &Vec<Aabb>| {
        let w = World { mesh: &mesh, tri_surface: &tri_surface, table: &table, extras };
        mesh_record(&calc, &w, &[], 0, src, lis)
    };
    let open = heard(&vec![]).expect("a clear path");
    let behind = heard(&vec![pane]).expect("a path through a pane");
    assert_eq!(open.delay_s, behind.delay_s);
    for b in 0..3 {
        assert!((v(behind.gains[b]) - 0.5 * v(open.gains[b])).abs() < 1e-6);
    }
}

#[test]
fn longer_detours_and_higher_tones_pass_less() {
    let amp = |d: f32, hz: f32| v(knife_edge_amp(&calc, s(d), s(hz)));
    let mut last = amp(0.0, 790.0);
    for i in 1..100 {
        let now = amp(0.05 * i as f32, 790.0);
        assert!(now <= last + 1e-6);
        assert!(amp(0.05 * i as f32, 5600.0) <= now + 1e-6);
        last = now;
    }
    assert_eq!(amp(-0.05, 790.0), 1.0);
}

#[test]
fn the_keys_of_one_result_are_distinct() {
    let mut mb = MeshBuilder::new();
    let brick = mb.material(Material::brick());
    mb.abox(&calc, p(10.0, -4.0, 0.0), p(20.0, 4.0, 4.0), brick);
    let mesh = mb.build(&calc).unwrap();
    let ap = AutoPaths::new(&calc, &mesh, 64);
    let mut paths = Vec::new();
    let budget = PathBudget { max_paths: 6, ..Default::default() };
    ap.find(&calc, &mesh, p(5.0, 0.0, 1.5), p(25.0, 0.0, 1.6), budget, &mut paths);
    let mut keys: Vec<u32> = paths.iter().map(|q| q.key).collect();
    assert!(keys.len() > 2);
    keys.sort();
    keys.dedup();
    assert_eq!(keys.len(), paths.len());
}

#[test]
fn no_point_of_the_edge_is_shorter() {
    let (a, b) = (p(0.0, -3.0, 2.0), p(0.0, 5.0, 2.0));
    let (src, lis) = (p(-2.0, 0.5, 0.0), p(3.0, 1.5, 1.0));
    let at = bend_point(&calc, a, b, src, lis);
    let over = |q: Point| far(q, src) + far(lis, q);
    for k in 0..=1000 {
        let q = p(0.0, -3.0 + 8.0 * k as f32 / 1000.0, 2.0);
        assert!(over(at) <= over(q) + 1e-4);
    }
}
