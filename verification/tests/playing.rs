use omg_audio::arith::Op;
use omg_audio::cli::{arg_value, has_word};
use omg_audio::delay::DelayLine;
use omg_audio::engine::{Mailbox, SpatialEngine, NSRC};
use omg_audio::fdn::Fdn;
use omg_audio::filter::OnePoleLp;
use omg_audio::hrtf::{holds_bank, parse_bin, BinauralDecoder, HrirGrid, PointConv};
use omg_audio::import::{normalize_peak, resample, scale_ints, to_clip, to_mono, WavLevels};
use omg_audio::json::{add_entry, write_document, DoorText, RoomText, SourceText, TickText};
use omg_audio::level::Meter;
use omg_audio::output::OutputStage;
use omg_audio::params::{holds_block, ParamBlock, RemoteReverb, ReverbParams, Tap};
use omg_audio::renderer::Renderer;
use omg_audio::rng::Rng;
use omg_audio::signal::{Clip, Exciter, Orbit, Source};
use omg_audio::single::Single;
use omg_audio::smooth::Smoothed;
use omg_audio::walk::{channel_sample, Act, Clock, Demo, Walk, NOWHERE};
use std::sync::Arc;

fn s(x: f32) -> Single {
    Single(x.to_bits())
}

fn v(x: Single) -> f32 {
    f32::from_bits(x.0)
}

fn calc(op: Op) -> Single {
    s(match op {
        Op::Plus(a, b) => v(a) + v(b),
        Op::Minus(a, b) => v(a) - v(b),
        Op::Times(a, b) => v(a) * v(b),
        Op::Over(a, b) => v(a) / v(b),
        Op::Rest(a, b) => v(a) % v(b),
        Op::Power(a, b) => v(a).powf(v(b)),
        Op::Exp(a) => v(a).exp(),
        Op::Ln(a) => v(a).ln(),
        Op::Log(a) => v(a).log10(),
        Op::Root(a) => v(a).sqrt(),
        Op::Sin(a) => v(a).sin(),
        Op::Cos(a) => v(a).cos(),
        Op::Tan(a) => v(a).tan(),
        Op::Tanh(a) => v(a).tanh(),
        Op::Acos(a) => v(a).acos(),
        Op::Floor(a) => v(a).floor(),
        Op::Round(a) => v(a).round(),
    })
}

fn singles(x: &[f32]) -> Vec<Single> {
    x.iter().map(|x| s(*x)).collect()
}

fn floats(x: &[Single]) -> Vec<f32> {
    x.iter().map(|x| v(*x)).collect()
}

#[test]
fn words_are_found_by_what_stands_before_them() {
    let args: Vec<String> =
        ["omg", "--secs", "12", "--live", "--out"].iter().map(|w| w.to_string()).collect();
    assert_eq!(arg_value(&args, "--secs"), Some("12".to_string()));
    assert_eq!(arg_value(&args, "--out"), None);
    assert_eq!(arg_value(&args, "--grid"), None);
    assert!(has_word(&args, "--live"));
    assert!(!has_word(&args, "--dry"));
}

#[test]
fn numbers_draw_like_the_generator() {
    let mut rng = Rng::new(7);
    let mut x = 7u64;
    for _ in 0..100 {
        x ^= x >> 12;
        x ^= x << 25;
        x ^= x >> 27;
        assert_eq!(rng.next_u64(), x.wrapping_mul(0x2545F4914F6CDD1D));
    }
    assert_eq!(Rng::new(0).next_u64(), Rng::new(1).next_u64());
    for _ in 0..1000 {
        let d = rng.unit_sphere(&calc).map(v);
        assert!((d.iter().map(|x| x * x).sum::<f32>() - 1.0).abs() < 1e-5);
        assert!((0.0..1.0).contains(&v(rng.next_f32())));
    }
}

#[test]
fn a_smoother_closes_in_on_its_target() {
    let mut g = Smoothed::new(&calc, s(0.0), s(0.01), s(1000.0));
    g.set(s(1.0));
    let mut last = 0.0;
    for _ in 0..100 {
        let y = v(g.tick(&calc));
        assert!(y > last && y <= 1.0);
        last = y;
    }
    assert!(last > 0.99);
    g.snap(s(0.25));
    assert_eq!((v(g.current()), v(g.target_val())), (0.25, 0.25));
    assert_eq!(v(g.tick(&calc)), 0.25);
}

#[test]
fn a_low_pass_settles_on_its_input() {
    let mut lp = OnePoleLp::default();
    let c = OnePoleLp::coef(&calc, s(1000.0), s(48_000.0));
    assert!(v(c) > 0.0 && v(c) < 1.0);
    let mut y = 0.0;
    for _ in 0..1000 {
        y = v(lp.tick(&calc, s(1.0), c));
    }
    assert!((y - 1.0).abs() < 1e-4);
}

#[test]
fn a_line_gives_back_what_was_written() {
    let mut line = DelayLine::new(100);
    for k in 0..300 {
        line.write(s(k as f32));
    }
    assert_eq!(v(line.read(&calc, s(10.0))), 289.0);
    assert!((v(line.read(&calc, s(10.5))) - 288.5).abs() < 1e-4);
}

#[test]
fn the_tail_of_the_network_dies_away() {
    let mut net = Fdn::new(&calc, s(48_000.0));
    net.set_rt60(&calc, s(0.4), s(0.2));
    let mut energy = |n: usize, x: f32| -> f32 {
        let mut e = 0.0;
        for k in 0..n {
            let y = net.process(&calc, s(if k == 0 { x } else { 0.0 }));
            e += y.iter().map(|y| v(*y) * v(*y)).sum::<f32>();
        }
        e
    };
    let early = energy(9600, 1.0);
    energy(38_400, 0.0);
    let late = energy(9600, 0.0);
    assert!(early > 0.0);
    assert!(late < 1e-3 * early, "early {early} late {late}");
}

/// A bank with a response at the ear that each direction lies nearer to.
fn bank(dirs: &[[f32; 3]], taps: usize) -> Vec<u8> {
    let mut b = Vec::new();
    b.extend((dirs.len() as u32).to_le_bytes());
    b.extend((taps as u32).to_le_bytes());
    for d in dirs {
        for x in d {
            b.extend(x.to_le_bytes());
        }
        for ear in 0..2 {
            for t in 0..taps {
                let loud = if (d[1] >= 0.0) == (ear == 0) { 1.0f32 } else { 0.25 };
                b.extend((if t == 0 { loud } else { 0.0 }).to_le_bytes());
            }
        }
    }
    b
}

const SIDES: [[f32; 3]; 4] =
    [[1.0, 0.0, 0.0], [0.0, 1.0, 0.0], [-1.0, 0.0, 0.0], [0.0, -1.0, 0.0]];

#[test]
fn a_bank_is_read_record_by_record() {
    let b = bank(&SIDES, 8);
    assert!(holds_bank(&b));
    assert!(!holds_bank(&b[..b.len() - 1]));
    assert!(!holds_bank(&b[..7]));
    let (taps, records) = parse_bin(&b);
    assert_eq!((taps, records.len()), (8, 4));
    assert_eq!(floats(&records[3].dir), vec![0.0, -1.0, 0.0]);
    assert_eq!(v(records[3].left[0]), 0.25);
    assert_eq!(v(records[3].right[0]), 1.0);
}

#[test]
fn the_grid_answers_with_the_nearest_direction() {
    let grid = HrirGrid::from_bytes(&bank(&SIDES, 8));
    assert_eq!(grid.len(), 4);
    assert!(!grid.is_empty());
    assert_eq!(grid.nearest(&calc, [s(0.9), s(0.3), s(0.1)]), 0);
    assert_eq!(grid.nearest(&calc, [s(0.3), s(-0.9), s(0.1)]), 3);
    let mut conv = PointConv::new(&calc, 8, s(48_000.0));
    conv.reset(3);
    let (l, r) = conv.process(&calc, &grid, s(1.0));
    assert_eq!((v(l), v(r)), (0.25, 1.0));
}

#[test]
fn the_decoder_hears_left_on_the_left() {
    let mut dec = BinauralDecoder::from_bytes(&calc, &bank(&SIDES, 8));
    assert_eq!(dec.speaker_count(), 4);
    let sh = omg_audio::ambi::encode_gains(&calc, [s(0.0), s(1.0), s(0.0)]);
    let (l, r) = dec.process(&calc, &sh);
    assert!(v(l) > v(r));
}

fn tap(key: u32, delay: f32, dir: [f32; 3], gain: f32) -> Tap {
    Tap { key, delay_s: s(delay), dir: dir.map(s), gains: [s(gain); 3] }
}

fn block(taps: Vec<Tap>) -> ParamBlock {
    ParamBlock {
        taps,
        reverb: ReverbParams { rt60: [s(0.5); 3], level: [s(0.0); 3] },
        remote: None,
        version: 3,
    }
}

fn newer(version: u64, taps: Vec<Tap>) -> ParamBlock {
    ParamBlock { version, ..block(taps) }
}

#[test]
fn blocks_cross_flat_memory_unchanged() {
    let mut pb = block(vec![tap(9, 0.01, [1.0, 0.0, 0.0], 0.5), tap(70_001, 0.02, SIDES[1], 0.25)]);
    pb.remote = Some(RemoteReverb { rt60: [s(0.7); 3], send: [s(0.1); 3], sh: [s(0.2); 9] });
    let mut flat = Vec::new();
    pb.write_flat(&mut flat);
    assert_eq!(flat.len(), pb.flat_len());
    assert_eq!(flat.len(), 24 + 2 * 9);
    assert_eq!(format!("{:?}", ParamBlock::read_flat(&flat)), format!("{pb:?}"));
}

fn rms_of(r: &mut Renderer, n: usize) -> f32 {
    let mut rng = Rng::new(3);
    let mut e = 0.0;
    for _ in 0..n {
        let mut bus = [s(0.0); 9];
        r.process(&calc, s(v(rng.next_f32()) - 0.5), &mut bus);
        e += v(bus[0]) * v(bus[0]);
    }
    (e / n as f32).sqrt()
}

#[test]
fn a_renderer_without_taps_is_silent_and_with_one_is_not() {
    let mut r = Renderer::new(&calc, s(48_000.0));
    r.set_params(&calc, &block(vec![]));
    assert_eq!(rms_of(&mut r, 2000), 0.0);
    // the same version again is not looked at
    r.set_params(&calc, &block(vec![tap(0, 0.005, SIDES[0], 0.5)]));
    assert_eq!(rms_of(&mut r, 2000), 0.0);
    r.set_params(&calc, &newer(4, vec![tap(0, 0.005, SIDES[0], 0.5)]));
    rms_of(&mut r, 20_000);
    let loud = rms_of(&mut r, 4000);
    assert!(loud > 0.01, "{loud}");
    // a path that is gone fades to nothing
    r.set_params(&calc, &newer(5, vec![]));
    rms_of(&mut r, 48_000);
    assert!(rms_of(&mut r, 4000) < 1e-4 * loud);
}

#[test]
fn a_point_rendered_tap_is_heard_at_its_side() {
    let grid = Arc::new(HrirGrid::from_bytes(&bank(&SIDES, 8)));
    let mut r = Renderer::with_grid(&calc, s(48_000.0), Some(grid));
    r.set_params(&calc, &block(vec![tap(0, 0.005, SIDES[1], 0.5)]));
    let (mut left, mut right) = (0.0f32, 0.0f32);
    let mut rng = Rng::new(3);
    for _ in 0..20_000 {
        let mut bus = [s(0.0); 9];
        let (l, rr) = r.process(&calc, s(v(rng.next_f32()) - 0.5), &mut bus);
        left += v(l) * v(l);
        right += v(rr) * v(rr);
    }
    assert!(left > 2.0 * right && right > 0.0, "left {left} right {right}");
}

#[test]
fn the_strongest_paths_get_responses_of_their_own() {
    let grid = Arc::new(HrirGrid::from_bytes(&bank(&SIDES, 8)));
    let mut r = Renderer::with_grid(&calc, s(48_000.0), Some(grid));
    r.set_point_budget(2);
    let gains = [0.1f32, 0.5, 0.2, 0.4];
    let taps = (0..4).map(|i| tap(10 + i as u32, 0.005, SIDES[0], gains[i])).collect();
    let sel = r.pool.select(&block(taps)).expect("a new block");
    assert_eq!(sel.incoming, vec![0, 1, 2, 3]);
    assert_eq!(sel.point_keys, vec![11, 13]);
}

#[test]
fn the_weakest_paths_are_dropped() {
    let r = Renderer::new(&calc, s(48_000.0));
    let taps = (0..200).map(|i| tap(i, 0.005, SIDES[0], 0.001 * (i + 1) as f32)).collect();
    let sel = r.pool.select(&block(taps)).expect("a new block");
    assert_eq!(sel.incoming, (40..200).rev().collect::<Vec<usize>>());
    assert!(sel.point_keys.is_empty());
}

#[test]
fn flat_words_are_tested_before_they_are_read() {
    let pb = block(vec![tap(9, 0.01, SIDES[0], 0.5)]);
    let mut flat = Vec::new();
    pb.write_flat(&mut flat);
    assert!(holds_block(&flat));
    // the last word of a tap is a filler
    assert!(holds_block(&flat[..32]));
    assert!(!holds_block(&flat[..31]));
    assert!(!holds_block(&flat[..8]));
}

fn squared(q: (u64, Single)) -> u64 {
    (f64::from_bits(q.0) + (v(q.1) as f64) * (v(q.1) as f64)).to_bits()
}

fn rooted(q: (u64, u64)) -> Single {
    s((f64::from_bits(q.0) / q.1 as f64).sqrt() as f32)
}

fn averaged(q: (u64, u64)) -> Single {
    s((f64::from_bits(q.0) / q.1 as f64) as f32)
}

#[test]
fn the_engine_plays_what_the_mailbox_brings() {
    let b = bank(&SIDES, 8);
    let mut e = SpatialEngine::new(&calc, s(48_000.0), HrirGrid::from_bytes(&b), &b, 4);
    let meter = Meter { grow: squared, rms: rooted, mean: averaged };
    let tone: Vec<Single> = (0..4800).map(|k| s(0.3 * (k as f32 * 0.1).sin())).collect();
    e.set_source_samples(&calc, &meter, 0, tone);
    e.set_listener(s(1.0), s(2.0), s(0.5));
    e.set_dynamic(1, s(3.0), s(4.0), s(1.5), true);
    e.set_dynamic(99, s(3.0), s(4.0), s(1.5), true); // no such slot
    e.set_head(s(0.1), s(0.0), s(0.0));
    e.set_head_yaw(s(0.2));
    e.set_point_budget(4);
    assert_eq!((v(e.pose.x), v(e.pose.y), v(e.pose.yaw)), (1.0, 2.0, 0.5));
    assert_eq!(e.pose.dynamics.len(), 4);
    assert!(e.pose.dynamics[1].active && !e.pose.dynamics[0].active);
    assert!(v(e.agc_gain()) > 0.0);

    let mut mail = Mailbox { blocks: None, room: 2, rt60_mid: s(0.8) };
    let mut out = Vec::new();
    e.render(&calc, &mut mail, 1000, &mut out);
    assert_eq!(out.len(), 1000);
    assert!(out.iter().all(|q| v(q.0) == 0.0 && v(q.1) == 0.0));

    let blocks: Vec<ParamBlock> =
        (0..NSRC).map(|_| block(vec![tap(0, 0.004, SIDES[0], 0.5)])).collect();
    mail.blocks = Some(blocks);
    e.render(&calc, &mut mail, 20_000, &mut out);
    assert!(mail.blocks.is_none());
    assert_eq!(e.room, 2);
    assert!(out.iter().any(|q| v(q.0).abs() > 1e-3));
}

#[test]
fn the_clock_ticks_twenty_times_a_second() {
    let mut c = Clock::new(&calc, s(1.0), s(48_000.0));
    let (mut ticks, mut samples) = (Vec::new(), 0);
    loop {
        match c.act(&calc) {
            Act::Simulate(t) => ticks.push(v(t)),
            Act::Play => samples += 1,
            Act::Finish => break,
        }
    }
    assert_eq!(samples, 48_000);
    assert_eq!(ticks.len(), 20);
    assert_eq!(ticks[0], 0.0);
    assert!((ticks[19] - 0.95).abs() < 1e-6);
    assert_eq!(c.act(&calc), Act::Finish);
}

#[test]
fn only_the_first_two_channels_sound() {
    let (l, r) = (s(0.25), s(0.5));
    assert_eq!(v(channel_sample(l, r, 0)), 0.25);
    assert_eq!(v(channel_sample(l, r, 1)), 0.5);
    assert_eq!(v(channel_sample(l, r, 5)), 0.0);
}

#[test]
fn a_clip_repeats_and_a_clapper_pauses() {
    let mut clip = Clip::new(singles(&[0.1, 0.2, 0.3]));
    let heard: Vec<f32> = (0..7).map(|_| v(clip.tick())).collect();
    assert_eq!(heard, vec![0.1, 0.2, 0.3, 0.1, 0.2, 0.3, 0.1]);
    let mut claps = Exciter::new(s(48_000.0));
    let burst: Vec<f32> = (0..28_800).map(|_| v(claps.tick(&calc))).collect();
    assert!(burst[..1000].iter().any(|x| x.abs() > 0.1));
    assert!(burst[1440..].iter().all(|x| *x == 0.0));
}

#[test]
fn the_orbit_circles_the_listener() {
    let o = Orbit::new();
    assert_eq!(o.source_at(&calc, s(0.0)).map(v), [6.2, 3.0, 1.5]);
    let q = o.source_at(&calc, s(2.0)).map(v);
    assert!((q[0] - 4.0).abs() < 1e-5 && (q[1] - 5.2).abs() < 1e-5);
}

#[test]
fn a_demo_is_heard() {
    let mut demo = Demo {
        source: Source::Clapper(Exciter::new(s(48_000.0))),
        renderer: Renderer::new(&calc, s(48_000.0)),
        out: OutputStage::from_speaker_bytes(&calc, None, s(48_000.0)),
    };
    demo.renderer.set_params(&calc, &block(vec![tap(0, 0.004, SIDES[1], 0.8)]));
    let heard: Vec<(f32, f32)> = (0..48_000)
        .map(|_| {
            let (l, r) = demo.play(&calc);
            (v(l), v(r))
        })
        .collect();
    let left: f32 = heard.iter().map(|q| q.0 * q.0).sum();
    let right: f32 = heard.iter().map(|q| q.1 * q.1).sum();
    assert!(left > right && right >= 0.0, "left {left} right {right}");
}

#[test]
fn integers_are_scaled_by_their_width() {
    let got = floats(&scale_ints(&calc, &vec![0, 16384, -32768], 16));
    assert_eq!(got, vec![0.0, 0.5, -1.0]);
    let got = floats(&scale_ints(&calc, &vec![1 << 22], 24));
    assert_eq!(got, vec![0.5]);
}

#[test]
fn channels_are_averaged() {
    let got = floats(&to_mono(&calc, &singles(&[0.2, 0.4, 1.0, 0.0]), 2));
    assert!((got[0] - 0.3).abs() < 1e-6 && (got[1] - 0.5).abs() < 1e-6 && got.len() == 2);
}

#[test]
fn resampling_reads_between_samples() {
    let got = floats(&resample(&calc, &singles(&[0.0, 1.0, 2.0, 3.0]), s(0.5)));
    assert_eq!(got, vec![0.0, 0.5, 1.0, 1.5, 2.0, 2.5, 3.0, 3.0]);
    assert!(resample(&calc, &Vec::new(), s(0.5)).is_empty());
}

#[test]
fn a_clip_peaks_at_six_tenths() {
    let mut x = singles(&[0.1, -0.3]);
    normalize_peak(&calc, &mut x);
    let x = floats(&x);
    assert!((x[0] - 0.2).abs() < 1e-6 && (x[1] + 0.6).abs() < 1e-6);
    let clip = floats(&to_clip(&calc, &singles(&[0.1, 0.1, -0.3, -0.3]), 2, 48_000, s(48_000.0)));
    assert_eq!(clip.len(), 2);
    assert!((clip[1] + 0.6).abs() < 1e-6);
    let mut none = singles(&[0.0, 0.0]);
    normalize_peak(&calc, &mut none);
    assert_eq!(floats(&none), vec![0.0, 0.0]);
}

fn half_added(q: (u64, Single)) -> u64 {
    (f64::from_bits(q.0) + v(q.1) as f64 * 0.5).to_bits()
}

#[test]
fn frames_are_written_in_sixteen_bits() {
    let mut w = WavLevels::new();
    assert_eq!(w.write(&calc, &half_added, s(0.5), s(-1.0)), (16383, -32767));
    assert_eq!(w.write(&calc, &half_added, s(2.0), s(-2.0)), (32767, -32768));
    assert_eq!((v(w.peak), w.n), (2.0, 2));
    assert_eq!(f64::from_bits(w.sum_sq), 0.5 * (0.25 + 1.0) + 0.5 * 8.0);
}

fn tick(room: usize) -> TickText {
    TickText {
        t: "0.05".to_string(),
        pos: ("1.00".to_string(), "2.00".to_string()),
        yaw: "0.500".to_string(),
        room,
        rt60: "0.80".to_string(),
        routes: vec![
            vec![("1".to_string(), "2".to_string()), ("3".to_string(), "4".to_string())],
            vec![],
        ],
    }
}

#[test]
fn ticks_are_written_out() {
    assert_eq!(
        tick(12).write(),
        "{\"t\":0.05,\"pos\":[1.00,2.00],\"yaw\":0.500,\"room\":12,\"rt60\":0.80,\"routes\":[[[1,2],[3,4]],[]]}"
    );
    let mut all = String::new();
    add_entry(&mut all, &"a".to_string());
    add_entry(&mut all, &"b".to_string());
    assert_eq!(all, "a,b");
}

#[test]
fn the_document_names_the_world() {
    let at = |x: &str, y: &str| (x.to_string(), y.to_string());
    let doc = write_document(
        &"3.0".to_string(),
        &vec![RoomText { name: "hall".to_string(), min: at("0", "0"), max: at("8", "6") }],
        &vec![DoorText { pos: at("8", "3"), axis: 1 }],
        &vec![SourceText { name: "radio".to_string(), pos: at("2", "3"), room: 0 }],
        &"{}".to_string(),
    );
    assert_eq!(
        doc,
        "{\"duration\":3.0,\"rooms\":[{\"name\":\"hall\",\"min\":[0,0],\"max\":[8,6]}],\"doors\":[{\"pos\":[8,3],\"axis\":1}],\"sources\":[{\"name\":\"radio\",\"pos\":[2,3],\"room\":0}],\"ticks\":[{}]}"
    );
}

#[test]
fn a_walk_tells_when_a_room_is_entered() {
    let mut renderer = Renderer::new(&calc, s(48_000.0));
    renderer.set_point_budget(0);
    let clip = Clip::new(singles(&[0.5, -0.5]));
    let out = OutputStage::from_speaker_bytes(&calc, None, s(48_000.0));
    let mut w = Walk::new(vec![renderer], vec![clip], out);
    let blocks = vec![block(vec![tap(0, 0.004, SIDES[1], 0.8)])];
    assert_eq!(w.last_room, NOWHERE);
    assert!(!w.take_tick(&calc, &blocks, &tick(NOWHERE)));
    assert!(w.take_tick(&calc, &blocks, &tick(0)));
    assert!(!w.take_tick(&calc, &blocks, &tick(0)));
    assert!(w.take_tick(&calc, &blocks, &tick(1)));
    assert_eq!(w.n_ticks, 4);
    assert_eq!(w.ticks_json.matches("\"t\"").count(), 4);
    let heard: Vec<(i16, i16)> = (0..9600).map(|_| w.play(&calc, &half_added)).collect();
    assert!(heard.iter().any(|q| q.0 != 0));
    assert_eq!(w.levels.n, 9600);
}

#[test]
fn a_renderer_only_adds_to_the_bus() {
    let make = || {
        let mut r = Renderer::new(&calc, s(48_000.0));
        r.set_params(&calc, &block(vec![tap(0, 0.005, SIDES[1], 0.5)]));
        r
    };
    let (mut alone, mut among) = (make(), make());
    let mut rng = Rng::new(5);
    let mut heard = 0.0f32;
    for _ in 0..4000 {
        let x = s(v(rng.next_f32()) - 0.5);
        let mut empty = [s(0.0); 9];
        let mut busy = [s(0.25); 9];
        // without a grid nothing bypasses the bus
        assert_eq!(alone.process(&calc, x, &mut empty), (s(0.0), s(0.0)));
        among.process(&calc, x, &mut busy);
        for k in 0..9 {
            assert!((v(busy[k]) - 0.25 - v(empty[k])).abs() < 1e-5);
            heard = heard.max(v(empty[k]).abs());
        }
    }
    assert!(heard > 0.01);
}
