use omg_audio::ambi::{encode_gains, rotate_z, HeadRotation, NCH};
use omg_audio::ambience::Ambience;
use omg_audio::arith::Op;
use omg_audio::bands::BandSplit;
use omg_audio::env::{EnvRoute, EnvWindow, Environment, RouteSlots, ENV_FLAT_LEN, FREE};
use omg_audio::hrtf::convolve_ring;
use omg_audio::level::{flatten_slow_loudness, normalize_rms, Meter, REF_CLIP_RMS};
use omg_audio::output::OutputStage;
use omg_audio::rng::Rng;
use omg_audio::single::Single;

fn s(x: f32) -> Single {
    Single(x.to_bits())
}

fn v(x: Single) -> f32 {
    f32::from_bits(x.0)
}

fn calc(op: Op) -> Single {
    s(match op {
        Op::Plus(a, b) => v(a) + v(b),
        Op::Minus(a, b) => v(a) - v(b),
        Op::Times(a, b) => v(a) * v(b),
        Op::Over(a, b) => v(a) / v(b),
        Op::Rest(a, b) => v(a) % v(b),
        Op::Power(a, b) => v(a).powf(v(b)),
        Op::Exp(a) => v(a).exp(),
        Op::Ln(a) => v(a).ln(),
        Op::Log(a) => v(a).log10(),
        Op::Root(a) => v(a).sqrt(),
        Op::Sin(a) => v(a).sin(),
        Op::Cos(a) => v(a).cos(),
        Op::Tan(a) => v(a).tan(),
        Op::Tanh(a) => v(a).tanh(),
        Op::Acos(a) => v(a).acos(),
        Op::Floor(a) => v(a).floor(),
        Op::Round(a) => v(a).round(),
    })
}

fn silence() -> [Single; NCH] {
    [s(0.0); NCH]
}

fn next_signed(rng: &mut Rng) -> f32 {
    v(rng.next_f32()) * 2.0 - 1.0
}

#[test]
fn head_rotation_matches_encoded_directions() {
    let mut rng = Rng::new(11);
    for _ in 0..200 {
        let yaw = next_signed(&mut rng) * 3.1;
        let pitch = next_signed(&mut rng) * 1.5;
        let roll = next_signed(&mut rng) * 1.5;
        let w = [next_signed(&mut rng), next_signed(&mut rng), next_signed(&mut rng)];
        let n = (w[0] * w[0] + w[1] * w[1] + w[2] * w[2]).sqrt().max(1e-3);
        let d = [s(w[0] / n), s(w[1] / n), s(w[2] / n)];
        let rot = HeadRotation::new(&calc, s(yaw), s(pitch), s(roll));
        let mut sh = encode_gains(&calc, d);
        rot.apply(&calc, &mut sh);
        let want = encode_gains(&calc, rot.rotate_dir(&calc, d));
        for k in 0..NCH {
            assert!(
                (v(sh[k]) - v(want[k])).abs() < 1e-4,
                "ch {k}: {} vs {} at yaw {yaw} pitch {pitch} roll {roll}",
                v(sh[k]),
                v(want[k])
            );
        }
    }
}

#[test]
fn yaw_only_matches_rotate_z() {
    let mut rng = Rng::new(5);
    for _ in 0..50 {
        let psi = s(next_signed(&mut rng) * 3.1);
        let d = [s(0.6), s(-0.64), s(0.48)];
        let mut a = encode_gains(&calc, d);
        rotate_z(&calc, &mut a, psi);
        let mut b = encode_gains(&calc, d);
        HeadRotation::new(&calc, psi, s(0.0), s(0.0)).apply(&calc, &mut b);
        for k in 0..NCH {
            assert!((v(a[k]) - v(b[k])).abs() < 1e-5, "ch {k}: {} vs {}", v(a[k]), v(b[k]));
        }
    }
}

#[test]
fn pitch_and_roll_point_the_right_way() {
    let up = HeadRotation::new(&calc, s(0.0), s(0.5), s(0.0))
        .rotate_dir(&calc, [s(0.0), s(0.0), s(1.0)])
        .map(v);
    assert!(up[0] > 0.4 && up[2] > 0.0, "overhead should move frontward: {up:?}");
    let left = HeadRotation::new(&calc, s(0.0), s(0.0), s(0.5))
        .rotate_dir(&calc, [s(0.0), s(1.0), s(0.0)])
        .map(v);
    assert!(left[2] < -0.4, "tilting right lowers world-left in head frame: {left:?}");
}

#[test]
fn the_first_channel_is_omnidirectional() {
    let sh = encode_gains(&calc, [s(0.0), s(1.0), s(0.0)]).map(v);
    assert_eq!(sh[0], 1.0);
    assert_eq!(sh[1], 1.0);
    assert_eq!(sh[2], 0.0);
    assert_eq!(sh[3], 0.0);
}

fn noise_loop(n: usize) -> Vec<Single> {
    let mut rng = Rng::new(7);
    (0..n).map(|_| s(next_signed(&mut rng))).collect()
}

fn energy(a: &mut Ambience, n: usize) -> f32 {
    let mut e = 0.0f64;
    for _ in 0..n {
        let mut bus = silence();
        a.process(&calc, &mut bus);
        e += (v(bus[0]) * v(bus[0])) as f64;
    }
    (e / n as f64) as f32
}

fn env_with(routes: Vec<EnvRoute>, seep: [f32; 3]) -> Environment {
    Environment {
        seep: seep.map(s),
        enclosure: s(0.0),
        roof_gain: s(0.0),
        routes,
        windows: vec![],
    }
}

fn ambience() -> Ambience {
    let mut a = Ambience::new(&calc, s(48_000.0));
    a.set_loop(noise_loop(48_000), false);
    a
}

#[test]
fn no_environment_is_silent() {
    let mut a = ambience();
    assert_eq!(energy(&mut a, 4800), 0.0);
}

#[test]
fn route_swaps_never_click() {
    let mut a = ambience();
    let r = |id| EnvRoute {
        id,
        dir: [s(1.0), s(0.0), s(0.0)],
        gains: [s(1.0); 3],
        dist: s(2.0),
    };
    a.set_environment(&calc, &env_with(vec![r(0)], [0.0; 3]));
    for _ in 0..48_000 {
        let mut bus = silence();
        a.process(&calc, &mut bus);
    }
    // swap to a disjoint id set
    a.set_environment(&calc, &env_with(vec![r(5)], [0.0; 3]));
    let mut prev = 0.0f32;
    let mut max_step = 0.0f32;
    for i in 0..24_000 {
        let mut bus = silence();
        a.process(&calc, &mut bus);
        if i > 0 {
            max_step = max_step.max((v(bus[0]) - prev).abs());
        }
        prev = v(bus[0]);
    }
    assert!(max_step < 0.35, "route swap clicked: step {max_step}");
    // and the new route must be audible after the fade
    assert!(energy(&mut a, 24_000) > 1e-5);
}

#[test]
fn seep_spectrum_follows_the_bands() {
    let hf_ratio = |seep: [f32; 3]| -> f32 {
        let mut a = ambience();
        a.set_environment(&calc, &env_with(vec![], seep));
        for _ in 0..48_000 {
            let mut bus = silence();
            a.process(&calc, &mut bus);
        }
        let (mut e, mut hf) = (0.0f64, 0.0f64);
        let mut prev = 0.0f32;
        for _ in 0..48_000 {
            let mut bus = silence();
            a.process(&calc, &mut bus);
            let x = v(bus[0]);
            e += (x * x) as f64;
            hf += ((x - prev) * (x - prev)) as f64;
            prev = x;
        }
        (hf / e.max(1e-12)) as f32
    };
    assert!(hf_ratio([1.0, 0.3, 0.05]) < 0.5 * hf_ratio([1.0, 1.0, 1.0]));
}

#[test]
fn unity_gains_are_transparent() {
    let mut split = BandSplit::new(&calc, s(48_000.0));
    let mut x = 0.7f32;
    for _ in 0..1000 {
        let y = v(split.process(&calc, s(x), &[s(1.0); 3]));
        assert!((y - x).abs() < 1e-6);
        x = -x * 0.99;
    }
}

#[test]
fn band_gains_shape_the_spectrum() {
    // low-band-only must pass a 100 Hz tone and kill an 8 kHz tone
    let energy = |freq: f32, gains: [f32; 3]| -> f32 {
        let mut split = BandSplit::new(&calc, s(48_000.0));
        let mut e = 0.0f32;
        for k in 0..48_000 {
            let x = (core::f32::consts::TAU * freq * k as f32 / 48_000.0).sin();
            let y = v(split.process(&calc, s(x), &gains.map(s)));
            if k > 4800 {
                e += y * y;
            }
        }
        e
    };
    let lo_only = [1.0, 0.0, 0.0];
    assert!(energy(100.0, lo_only) > 50.0 * energy(8000.0, lo_only));
    let hi_only = [0.0, 0.0, 1.0];
    assert!(energy(8000.0, hi_only) > 50.0 * energy(100.0, hi_only));
}

#[test]
fn flat_round_trip_is_lossless() {
    let env = Environment {
        seep: [0.2, 0.1, 0.05].map(s),
        enclosure: s(0.87),
        roof_gain: s(0.5),
        routes: vec![
            EnvRoute {
                id: 3,
                dir: [0.6, -0.8, 0.0].map(s),
                gains: [0.5, 0.25, 0.125].map(s),
                dist: s(4.5),
            },
            EnvRoute {
                id: 101,
                dir: [0.0, 1.0, 0.0].map(s),
                gains: [1.0, 0.9, 0.8].map(s),
                dist: s(35.0),
            },
        ],
        windows: vec![EnvWindow { dir: [0.0, 0.0, 1.0].map(s), gain: s(0.4) }],
    };
    let mut flat = [s(0.0); ENV_FLAT_LEN];
    env.write_flat(&mut flat);
    assert_eq!(format!("{:?}", Environment::read_flat(&flat)), format!("{env:?}"));
}

#[test]
fn convolve_ring_matches_naive() {
    let n = 128;
    let mut rng = 0x2545F4914F6CDD1Du64;
    let mut next = move || {
        rng ^= rng << 13;
        rng ^= rng >> 7;
        rng ^= rng << 17;
        (rng >> 40) as f32 / (1u64 << 24) as f32 - 0.5
    };
    let hist: Vec<f32> = (0..n).map(|_| next()).collect();
    let kl: Vec<f32> = (0..n).map(|_| next()).collect();
    let kr: Vec<f32> = (0..n).map(|_| next()).collect();
    let held: Vec<Single> = hist.iter().map(|x| s(*x)).collect();
    let kl_rev: Vec<Single> = kl.iter().rev().map(|x| s(*x)).collect();
    let kr_rev: Vec<Single> = kr.iter().rev().map(|x| s(*x)).collect();

    for pos in 0..n {
        let (mut nl, mut nr) = (0.0f32, 0.0f32);
        for i in 0..n {
            let h = hist[(pos + n - i) % n];
            nl += h * kl[i];
            nr += h * kr[i];
        }
        let (sl, sr) = convolve_ring(&calc, &held, pos, &kl_rev, &kr_rev);
        let (sl, sr) = (v(sl), v(sr));
        assert!(
            (sl - nl).abs() < 1e-4 && (sr - nr).abs() < 1e-4,
            "pos {pos}: ({sl}, {sr}) vs naive ({nl}, {nr})"
        );
    }
}

fn squared(q: (u64, Single)) -> u64 {
    (f64::from_bits(q.0) + (v(q.1) as f64) * (v(q.1) as f64)).to_bits()
}

fn rooted(q: (u64, u64)) -> Single {
    s((f64::from_bits(q.0) / q.1 as f64).sqrt() as f32)
}

fn averaged(q: (u64, u64)) -> Single {
    s((f64::from_bits(q.0) / q.1 as f64) as f32)
}

fn normalize(samples: &mut Vec<f32>) {
    let meter = Meter { grow: squared, rms: rooted, mean: averaged };
    let mut held: Vec<Single> = samples.iter().map(|x| s(*x)).collect();
    normalize_rms(&calc, &meter, &mut held, Single(REF_CLIP_RMS));
    *samples = held.into_iter().map(v).collect();
}

fn flatten(samples: &mut Vec<f32>, rate: f32) {
    let meter = Meter { grow: squared, rms: rooted, mean: averaged };
    let mut held: Vec<Single> = samples.iter().map(|x| s(*x)).collect();
    flatten_slow_loudness(&calc, &meter, &mut held, 1, s(rate));
    *samples = held.into_iter().map(v).collect();
}

fn gated_rms(x: &[f32]) -> f32 {
    let peak = x.iter().fold(0.0f32, |m, x| m.max(x.abs()));
    let least = peak * 0.0316;
    let (mut e, mut n) = (0.0f64, 0u64);
    for x in x {
        if x.abs() > least {
            e += (*x as f64) * (*x as f64);
            n += 1;
        }
    }
    (e / n.max(1) as f64).sqrt() as f32
}

#[test]
fn recording_level_stops_mattering() {
    let make = |amp: f32| -> Vec<f32> {
        (0..48_000)
            .map(|k| {
                // "speech": bursts with pauses
                let t = k as f32 / 48_000.0;
                if (t * 3.0).fract() < 0.6 {
                    amp * (core::f32::consts::TAU * 220.0 * t).sin()
                } else {
                    0.0
                }
            })
            .collect()
    };
    let mut quiet = make(0.02);
    let mut loud = make(0.9);
    normalize(&mut quiet);
    normalize(&mut loud);
    let (rq, rl) = (gated_rms(&quiet), gated_rms(&loud));
    assert!(
        (rq / rl - 1.0).abs() < 0.02,
        "both takes should land at the same loudness: {rq} vs {rl}"
    );
    assert!((rq / f32::from_bits(REF_CLIP_RMS) - 1.0).abs() < 0.05, "at the reference: {rq}");
}

#[test]
fn silence_padding_changes_nothing() {
    let tone: Vec<f32> = (0..24_000).map(|k| 0.3 * (0.03 * k as f32).sin()).collect();
    let mut padded = vec![0.0f32; 48_000];
    padded[..24_000].copy_from_slice(&tone);
    let mut bare = tone.clone();
    normalize(&mut padded);
    normalize(&mut bare);
    let ratio = gated_rms(&padded[..24_000]) / gated_rms(&bare);
    assert!((ratio - 1.0).abs() < 0.02, "padding changed loudness: {ratio}");
}

#[test]
fn hot_passages_are_flattened() {
    let sr = 48_000usize;
    let mut rng = 1u64;
    let mut noise = || {
        rng = rng.wrapping_mul(6364136223846793005).wrapping_add(1);
        ((rng >> 33) as f32 / 2147483648.0) - 1.0
    };
    let n = sr * 20;
    let mut x: Vec<f32> = (0..n)
        .map(|i| {
            let hot = i >= sr * 8 && i < sr * 11; // 3 loud seconds
            noise() * if hot { 0.8 } else { 0.1 }
        })
        .collect();
    flatten(&mut x, sr as f32);
    let rms = |a: usize, b: usize| -> f32 {
        (x[a..b].iter().map(|v| (v * v) as f64).sum::<f64>() / (b - a) as f64).sqrt() as f32
    };
    let quiet = rms(2 * sr, 5 * sr);
    let was_hot = rms(sr * 9, sr * 10); // center of the hot region
    let ratio = was_hot / quiet;
    assert!(ratio < 1.6, "hot passage must flatten into the bed: ratio {ratio}");
    // and a stationary signal passes through nearly untouched
    let mut flat: Vec<f32> = (0..n).map(|_| noise() * 0.1).collect();
    let before = flat.clone();
    flatten(&mut flat, sr as f32);
    let drift =
        flat.iter().zip(before.iter()).map(|(a, b)| (a - b).abs()).fold(0.0f32, f32::max);
    assert!(drift < 0.03, "stationary input must be ~transparent: {drift}");
}

#[test]
fn near_silence_is_not_amplified_into_noise() {
    let mut hiss: Vec<f32> =
        (0..4800).map(|k| 1e-4 * ((k * 7919) % 97) as f32 / 97.0).collect();
    normalize(&mut hiss);
    let peak = hiss.iter().fold(0.0f32, |m, x| m.max(x.abs()));
    assert!(peak < 0.01, "boost should be capped: peak {peak}");
}

#[test]
fn nothing_stays_nothing() {
    let mut none: Vec<f32> = vec![0.0; 100];
    normalize(&mut none);
    assert_eq!(none, vec![0.0; 100]);
}

fn stage() -> OutputStage {
    OutputStage::from_speaker_bytes(&calc, None, s(48_000.0))
}

fn play(out: &mut OutputStage, x: f32) -> f32 {
    let (l, _) = out.process(&calc, &silence(), s(x), s(x));
    v(l)
}

/// Ratio of a 6 kHz probe to a 200 Hz probe through the stage: the gain
/// control scales both equally, so this isolates the muffle filter.
fn hf_lf_ratio(out: &mut OutputStage) -> f32 {
    let mut peak = |freq: f32| -> f32 {
        let mut p = 0.0f32;
        for k in 0..4800 {
            let x = 0.02 * (core::f32::consts::TAU * freq * k as f32 / 48_000.0).sin();
            let l = play(out, x);
            if k > 960 {
                p = p.max(l.abs());
            }
        }
        p
    };
    peak(6000.0) / peak(200.0).max(1e-9)
}

#[test]
fn loud_exposure_muffles_highs_then_recovers() {
    let mut out = stage();
    assert!(!out.is_binaural());
    let fresh = hf_lf_ratio(&mut out);

    // 10 s of club-at-the-PA level
    for k in 0..48_000 * 10 {
        let x = 2.1 * (core::f32::consts::TAU * 700.0 * k as f32 / 48_000.0).sin();
        play(&mut out, x);
    }
    assert!(v(out.ear_fatigue()) > 0.5, "fatigue {}", v(out.ear_fatigue()));
    let dulled = hf_lf_ratio(&mut out);
    assert!(
        dulled < 0.6 * fresh,
        "highs should dull after exposure: {dulled} vs fresh {fresh}"
    );

    // ~25 s of near-silence: hearing comes back
    for _ in 0..48_000 * 25 {
        play(&mut out, 0.0);
    }
    let later = hf_lf_ratio(&mut out);
    assert!(later > 0.85 * fresh, "should recover: {later} vs fresh {fresh}");
}

#[test]
fn blast_rings_then_fades() {
    let mut out = stage();
    for k in 0..4800 {
        let x = 4.5 * (core::f32::consts::TAU * 90.0 * k as f32 / 48_000.0).sin();
        play(&mut out, x);
    }
    assert!(v(out.tinnitus()) > 0.05, "blast should excite: {}", v(out.tinnitus()));
    // in silence right after: the ring is audible (nonzero output)
    let mut e = 0.0f64;
    for _ in 0..4800 {
        let l = play(&mut out, 0.0);
        e += (l * l) as f64;
    }
    assert!(e > 1e-9, "ring should be audible in silence: {e}");
    // and it lets go over ~20 s
    for _ in 0..48_000 * 20 {
        play(&mut out, 0.0);
    }
    assert!(v(out.tinnitus()) < 0.01, "ring should fade: {}", v(out.tinnitus()));
}

#[test]
fn normal_levels_never_muffle() {
    let mut out = stage();
    for k in 0..48_000 * 10 {
        let x = 0.3 * (core::f32::consts::TAU * 500.0 * k as f32 / 48_000.0).sin();
        play(&mut out, x);
    }
    let (fatigue, ring) = (v(out.ear_fatigue()), v(out.tinnitus()));
    assert!(fatigue < 1e-3, "fatigue at normal level: {fatigue}");
    assert!(ring < 1e-6, "tinnitus at normal level: {ring}");
}

#[test]
fn overall_gains_stay_within_their_bounds() {
    let rate = 1000;
    let loud = |i: usize| match i % (12 * rate) / rate {
        0..=6 => 1.0,
        7 | 8 => 0.001,
        _ => 40.0,
    };
    let before: Vec<f32> =
        (0..24 * rate).map(|i| loud(i) * (0.37 * i as f32).sin() + 1e-4).collect();
    let mut after = before.clone();
    flatten(&mut after, rate as f32);
    let mut widest: f32 = 1.0;
    for (a, b) in before.iter().zip(&after) {
        let g = b / a;
        assert!((0.125 * 0.999..=4.0 * 1.001).contains(&g), "gain {g}");
        widest = widest.max(g.max(1.0 / g));
    }
    assert!(widest > 2.0, "{widest}");
}

#[test]
fn clips_too_short_to_level_are_left_alone() {
    let mut short = vec![0.5, -0.25, 0.1];
    flatten(&mut short, 1000.0);
    assert_eq!(short, vec![0.5, -0.25, 0.1]);
    let meter = Meter { grow: squared, rms: rooted, mean: averaged };
    let mut none: Vec<Single> = vec![];
    flatten_slow_loudness(&calc, &meter, &mut none, 2, s(48_000.0));
    assert!(none.is_empty());
    let mut one = vec![s(0.5)];
    flatten_slow_loudness(&calc, &meter, &mut one, 2, s(0.5));
    assert_eq!(one, vec![s(0.5)]);
}

#[test]
fn quiet_is_never_boosted() {
    let mut out = OutputStage::from_speaker_bytes(&calc, None, s(48_000.0));
    for _ in 0..480_000 {
        out.process(&calc, &[s(0.0); 9], s(0.0), s(0.0));
    }
    assert_eq!(v(out.agc_gain()), 1.0);
    assert_eq!((v(out.ear_fatigue()), v(out.tinnitus())), (0.0, 0.0));
    let (l, _) = out.process(&calc, &[s(0.0); 9], s(0.01), s(0.01));
    assert!((v(l) - 0.01f32.tanh()).abs() < 1e-7);
}

#[test]
fn routes_take_slots_of_their_own() {
    let r = |id| EnvRoute { id, dir: [s(1.0), s(0.0), s(0.0)], gains: [s(1.0); 3], dist: s(2.0) };
    let ids = |b: &RouteSlots| {
        let mut x: Vec<u32> = b.slots.iter().map(|q| q.id).filter(|i| *i != FREE).collect();
        x.sort();
        x
    };
    let mut bank = RouteSlots::new(&calc, s(48_000.0), s(0.05));
    assert_eq!(ids(&bank), vec![]);
    bank.update(&calc, &env_with((0..5).map(r).collect(), [0.0; 3]));
    assert_eq!(ids(&bank), vec![0, 1, 2, 3, 4]);
    // what stays keeps its slot, what is new takes a free one
    bank.update(&calc, &env_with((3..8).map(r).collect(), [0.0; 3]));
    let kept = ids(&bank);
    assert!((3..8).all(|i| kept.contains(&i)));
    assert!(kept.windows(2).all(|w| w[0] < w[1]));
    // a route that finds the bank full is left out
    let mut full = RouteSlots::new(&calc, s(48_000.0), s(0.05));
    full.update(&calc, &env_with((0..8).map(r).collect(), [0.0; 3]));
    full.update(&calc, &env_with((0..9).map(r).collect(), [0.0; 3]));
    assert_eq!(ids(&full), (0..8).collect::<Vec<u32>>());
}

#[test]
fn a_clip_comes_to_its_loudness() {
    let mut clip: Vec<f32> = (0..1000).map(|k| if k % 2 == 0 { 0.5 } else { -0.5 }).collect();
    clip.extend(vec![0.001; 500]);
    normalize(&mut clip);
    let target = f32::from_bits(REF_CLIP_RMS);
    assert!((gated_rms(&clip) - target).abs() < 1e-6);
    assert!((clip[0] - target).abs() < 1e-6 && (clip[1] + target).abs() < 1e-6);
    // four times as loud a take comes out the same
    let mut loud: Vec<f32> = (0..1000).map(|k| if k % 2 == 0 { 2.0 } else { -2.0 }).collect();
    loud.extend(vec![0.004; 500]);
    normalize(&mut loud);
    assert!(clip.iter().zip(&loud).all(|(a, b)| (a - b).abs() < 1e-6));
}
