use omg_audio::arith::Op;
use omg_audio::ambi::NCH;
use omg_audio::drops::{glass, metal, stone, ModeTable, BANK_SLOT};
use omg_audio::env::{EnvRoute, EnvWindow, Environment};
use omg_audio::rain::Rain;
use omg_audio::rng::Rng;
use omg_audio::single::Single;

fn s(x: f32) -> Single {
    Single(x.to_bits())
}

fn v(x: Single) -> f32 {
    f32::from_bits(x.0)
}

fn calc(op: Op) -> Single {
    s(match op {
        Op::Plus(a, b) => v(a) + v(b),
        Op::Minus(a, b) => v(a) - v(b),
        Op::Times(a, b) => v(a) * v(b),
        Op::Over(a, b) => v(a) / v(b),
        Op::Rest(a, b) => v(a) % v(b),
        Op::Power(a, b) => v(a).powf(v(b)),
        Op::Exp(a) => v(a).exp(),
        Op::Ln(a) => v(a).ln(),
        Op::Log(a) => v(a).log10(),
        Op::Root(a) => v(a).sqrt(),
        Op::Sin(a) => v(a).sin(),
        Op::Cos(a) => v(a).cos(),
        Op::Tan(a) => v(a).tan(),
        Op::Tanh(a) => v(a).tanh(),
        Op::Acos(a) => v(a).acos(),
        Op::Floor(a) => v(a).floor(),
        Op::Round(a) => v(a).round(),
    })
}

fn outdoor_env() -> Environment {
    let dirs = [[0.0f32, 1.0, 0.0], [1.0, 0.0, 0.0], [0.0, -1.0, 0.0], [-1.0, 0.0, 0.0]];
    Environment {
        seep: [s(0.0); 3],
        enclosure: s(0.0),
        roof_gain: s(0.0),
        routes: dirs
            .iter()
            .enumerate()
            .map(|(k, d)| EnvRoute {
                id: 100 + k as u32,
                dir: d.map(s),
                gains: [s(1.0); 3],
                dist: s(35.0),
            })
            .collect(),
        windows: vec![],
    }
}

fn indoor_env() -> Environment {
    Environment {
        seep: [0.18, 0.09, 0.03].map(s),
        enclosure: s(0.9),
        roof_gain: s(1.0),
        routes: vec![],
        windows: vec![EnvWindow { dir: [1.0, 0.0, 0.0].map(s), gain: s(0.5) }],
    }
}

fn rain_over(env: &Environment, intensity: f32) -> Rain {
    let mut r = Rain::new(&calc, s(48_000.0));
    r.set_environment(&calc, env);
    r.set_intensity(s(intensity));
    r
}

fn step(r: &mut Rain) -> [f32; NCH] {
    let mut bus = [s(0.0); NCH];
    r.process(&calc, &mut bus);
    bus.map(v)
}

fn energy_over(r: &mut Rain, n: usize) -> f32 {
    let mut e = 0.0f64;
    for _ in 0..n {
        let x = step(r)[0];
        e += (x * x) as f64;
    }
    (e / n as f64) as f32
}

fn settle(r: &mut Rain, n: usize) {
    for _ in 0..n {
        step(r);
    }
}

#[test]
fn materials_have_distinct_signatures() {
    let render = |table: &ModeTable| -> Vec<f32> {
        let sr = 48_000.0;
        // same recurrence as the modal path
        let mut modes = [[0.0f32; 4]; 4];
        let mut gains = [0.0f32; 4];
        for (m, mode) in table.iter().enumerate() {
            let (f, tau, amp) = (v(mode.freq), v(mode.tau), v(mode.amp));
            let r = (-1.0 / (tau * sr)).exp();
            let th = core::f32::consts::TAU * f / sr;
            modes[m] = [2.0 * r * th.cos(), -r * r, 0.0, 0.0];
            gains[m] = amp * (1.0 - r) * 0.05;
        }
        let mut exc = 1.0f32;
        let mut lp = 0.0f32;
        let mut rng = Rng::new(9);
        (0..9600)
            .map(|_| {
                let x = if exc > 1e-3 {
                    let w = v(rng.next_f32()) * 2.0 - 1.0;
                    exc *= 0.982;
                    lp += 0.3 * (w * exc - lp);
                    lp
                } else {
                    0.0
                };
                let mut out = 0.0;
                for (m, st) in modes.iter_mut().enumerate() {
                    let y = st[0] * st[2] + st[1] * st[3] + gains[m] * x;
                    st[3] = st[2];
                    st[2] = y;
                    out += y;
                }
                out
            })
            .collect()
    };
    let zcr = |x: &[f32]| -> usize {
        x.windows(2).filter(|w| w[0].signum() != w[1].signum()).count()
    };
    let late_e = |x: &[f32]| -> f32 {
        x[2880..].iter().map(|v| v * v).sum() // after 60 ms
    };
    let (g, m, st) = (render(&glass()), render(&metal()), render(&stone()));
    assert!(
        zcr(&g) > 2 * zcr(&st),
        "glass must ring brighter than stone: {} vs {}",
        zcr(&g),
        zcr(&st)
    );
    assert!(late_e(&m) > 4.0 * late_e(&g), "metal must ring longer than glass");
    assert!(late_e(&st) < 0.05 * late_e(&m), "stone must be dead by 60 ms");
}

#[test]
fn dry_is_silent_and_free() {
    let mut r = Rain::new(&calc, s(48_000.0));
    r.set_environment(&calc, &outdoor_env());
    assert_eq!(energy_over(&mut r, 48_000), 0.0);
}

#[test]
fn rain_ramps_in_and_back_out() {
    let mut r = rain_over(&outdoor_env(), 1.0);
    let early = energy_over(&mut r, 24_000); // first 0.5 s of ramp
    settle(&mut r, 48_000 * 12);
    let full = energy_over(&mut r, 48_000);
    assert!(full > 4.0 * early, "should swell in: early {early} full {full}");
    r.set_intensity(s(0.0));
    settle(&mut r, 48_000 * 30);
    let after = energy_over(&mut r, 48_000);
    assert!(after < full * 1e-3, "should die away: {after} vs {full}");
}

#[test]
fn indoors_is_tappier() {
    let crest = |env: &Environment| -> f32 {
        let mut r = rain_over(env, 0.5); // moderate rain: events stay discrete
        settle(&mut r, 48_000 * 12);
        let (mut peak, mut e) = (0.0f32, 0.0f64);
        for _ in 0..48_000 * 2 {
            let x = step(&mut r)[0];
            peak = peak.max(x.abs());
            e += (x * x) as f64;
        }
        peak / ((e / (48_000.0 * 2.0)) as f32).sqrt().max(1e-9)
    };
    let (out_c, in_c) = (crest(&outdoor_env()), crest(&indoor_env()));
    assert!(in_c > 1.3 * out_c, "indoor rain should be tappier: crest {in_c} vs {out_c}");
}

#[test]
fn drizzle_is_sparse_taps_not_hiss() {
    let mut r = rain_over(&outdoor_env(), 0.3);
    settle(&mut r, 48_000 * 12);
    let mut peak = 0.0f32;
    let mut e = 0.0f64;
    let mut quiet = 0u32;
    const N: usize = 48_000 * 2;
    for _ in 0..N {
        let x = step(&mut r)[0];
        peak = peak.max(x.abs());
        e += (x * x) as f64;
        if x.abs() < 1e-4 {
            quiet += 1;
        }
    }
    let crest = peak / ((e / N as f64) as f32).sqrt().max(1e-9);
    assert!(crest > 6.0, "drizzle should be spiky events: crest {crest}");
    assert!(
        quiet as f32 / N as f32 > 0.4,
        "drizzle needs real gaps between taps: quiet fraction {}",
        quiet as f32 / N as f32
    );
}

#[test]
fn indoors_is_quieter_and_darker() {
    let probe = |env: &Environment| -> (f32, f32) {
        let mut r = rain_over(env, 1.0);
        settle(&mut r, 48_000 * 12);
        // total energy + crude HF-ness (first difference energy)
        let (mut e, mut hf) = (0.0f64, 0.0f64);
        let mut prev = 0.0f32;
        for _ in 0..48_000 {
            let x = step(&mut r)[0];
            e += (x * x) as f64;
            hf += ((x - prev) * (x - prev)) as f64;
            prev = x;
        }
        (e as f32, (hf / e.max(1e-12)) as f32)
    };
    let (out_e, out_hf) = probe(&outdoor_env());
    let mut env = indoor_env();
    env.windows.clear();
    env.enclosure = s(1.0); // fully under the shell
    let (in_e, in_hf) = probe(&env);
    assert!(in_e < 0.6 * out_e, "indoors should be quieter: {in_e} vs {out_e}");
    assert!(in_hf < 0.8 * out_hf, "indoors should be darker: {in_hf} vs {out_hf}");
}

#[test]
fn no_sky_overhead_no_drumming() {
    let up_energy = |roof: f32| -> f32 {
        let mut env = indoor_env();
        env.roof_gain = s(roof);
        env.windows.clear(); // isolate the overhead layer
        env.enclosure = s(1.0); // fully under the shell: no ring leak
        let mut r = rain_over(&env, 0.45); // drop-dominated: below the hiss knee
        settle(&mut r, 48_000 * 12);
        let mut e = 0.0f64;
        for _ in 0..48_000 * 4 {
            let x = step(&mut r)[2]; // channel 2 is up
            e += (x * x) as f64;
        }
        e as f32
    };
    let (roofed, storeyed) = (up_energy(1.0), up_energy(0.0));
    assert!(
        roofed > 2.0 * storeyed,
        "sky overhead must put the rain over your head: {roofed} vs {storeyed}"
    );
}

#[test]
fn drops_that_rang_out_need_no_bank() {
    let mut r = rain_over(&outdoor_env(), 1.0);
    r.set_bank(&calc, vec![s(0.5); 2 * BANK_SLOT]);
    settle(&mut r, 48_000);
    assert!(r.drops.iter().any(|d| d.bank_off.is_some()));
    // everything rang out, but the slots still name their hits
    for d in r.drops.iter_mut() {
        d.env = s(0.0);
    }
    r.set_bank(&calc, vec![]);
    assert!(r.bank.is_empty());
    assert!(energy_over(&mut r, 48_000) > 0.0);
}
