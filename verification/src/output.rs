//! The one decode stage of all sources: turns the bus with the head, decodes
//! it, adds the point-rendered stereo, and adapts like an ear: the gain rides
//! down fast and up slowly, loud hours dull the highs, and blasts ring.

use crate::ambi::{Frame, HeadRotation, StereoDecoder, head_matrix, second_block};
use crate::arith::{
    add_times, ask, clamp_to, clamped, diff, greater, greater_of, lesser, lesser_of, minus, over,
    plus, plus_prod, power, prod, quot, raise, rest, rest_of, size, size_of, sum, times, Calc, Op,
};
use crate::exact::{
    is_exact, lemma_nothing, lemma_one, lemma_order, lemma_same_num, lemma_within, value,
};
use crate::filter::{lp_coef, OnePoleLp};
use crate::hrtf::{bank_count, bank_taps, is_bank, is_speaker, left_sum, right_sum, ring_next, BinauralDecoder};
use crate::params::ONE;
use crate::probe::{answering, is_steady};
use crate::single::{lemma_grid_increases, Single};
use crate::smooth::{left_after, Smoothed};
use vstd::prelude::*;

verus! {

/// The pattern of 0.35: the loudness that the gain rides towards.
pub const AGC_TARGET: u32 = 0x3EB3_3333;

/// The pattern of 1.0: quiet is never boosted.
pub const AGC_MAX_BOOST: u32 = 0x3F80_0000;

/// The pattern of 0.06.
pub const AGC_MAX_CUT: u32 = 0x3D75_C28F;

/// The pattern of 0.35 * 3.2: the demand from which fatigue builds.
pub const TTS_LOUD: u32 = 0x3F8F_5C29;

/// The pattern of 18000.0: the muffle's cutoff for fresh ears, in Hz.
pub const TTS_FC_HI: u32 = 0x468C_A000;

/// The pattern of 1400.0: the muffle's cutoff for tired ears, in Hz.
pub const TTS_FC_LO: u32 = 0x44AF_0000;

/// The pattern of 2.2: the demand from which ears start to ring.
pub const TIN_THRESH: u32 = 0x400C_CCCD;

/// The pattern of 5400.0: the ring's pitch, in Hz.
pub const TIN_HZ: u32 = 0x45A8_C000;

/// The pattern of 0.006: the ring's loudest level.
pub const TIN_LEVEL: u32 = 0x3BC4_9BA6;

/// The pattern of 0.03.
pub const HEAD_TAU: u32 = 0x3CF5_C28F;

/// The pattern of 0.008.
pub const ATTACK_S: u32 = 0x3C03_126F;

/// The pattern of 1.0.
pub const RELEASE_S: u32 = 0x3F80_0000;

/// The pattern of 0.05.
pub const DOWN_S: u32 = 0x3D4C_CCCD;

/// The pattern of 4.0.
pub const UP_FAST_S: u32 = 0x4080_0000;

/// The pattern of 45.0.
pub const UP_SLOW_S: u32 = 0x4234_0000;

/// The pattern of 4.0.
pub const TIRE_S: u32 = 0x4080_0000;

/// The pattern of 6.0.
pub const REST_S: u32 = 0x40C0_0000;

/// The pattern of 2.5.
pub const FADE_S: u32 = 0x4020_0000;

/// The pattern of 0.0001.
pub const ENV_FLOOR: u32 = 0x38D1_B717;

/// The pattern of 1e-06.
pub const GAIN_FLOOR: u32 = 0x3586_37BD;

/// The pattern of 0.0002.
pub const RING_FEED: u32 = 0x3951_B717;

/// The pattern of 0.0001.
pub const RING_FLOOR: u32 = 0x38D1_B717;

/// The pattern of 0.08: how much sharper a strong ring is.
pub const SHARP: u32 = 0x3DA3_D70A;

/// The pattern of a full turn in radians.
pub const TAU: u32 = 0x40C9_0FDB;

/// Samples between two settings of the muffle.
pub const TTS_REFRESH: u32 = 64;

/// How the bus becomes stereo.
#[derive(Debug)]
pub enum Decode {
    Hrtf(BinauralDecoder),
    Cardioid(StereoDecoder),
}

/// An adapting pair of ears.
#[derive(Clone, Copy, Debug, PartialEq, Eq, Structural)]
pub struct Ears {
    pub env: Single,
    pub agc_gain: Single,
    pub env_att: Single,
    pub env_rel: Single,
    pub gain_down: Single,
    pub gain_up_fast: Single,
    pub gain_up_slow: Single,
    /// Fatigue, from 0 to 1.
    pub tts: Single,
    pub tts_up: Single,
    pub tts_down: Single,
    pub tts_lp_l: Single,
    pub tts_lp_r: Single,
    pub tts_coef: Single,
    pub tts_refresh: u32,
    /// Ringing, from 0 to 1.
    pub tin: Single,
    pub tin_phase: Single,
    pub tin_step: Single,
    pub tin_decay: Single,
    pub sample_rate: Single,
}

/// The share of the way that is gone in one sample.
pub open spec fn gone(f: Calc, tau_s: Single, sample_rate: Single) -> Single {
    diff(f, Single(ONE), left_after(f, tau_s, sample_rate))
}

fn share_of<F: Fn(Op) -> Single>(f: &F, tau_s: Single, sample_rate: Single) -> (r: Single)
    requires
        is_steady(*f),
    ensures
        r == gone(answering(*f), tau_s, sample_rate),
{
    let left: Smoothed = Smoothed::new(f, Single(0), tau_s, sample_rate);
    minus(f, Single(ONE), left.coef)
}

impl Ears {
    /// Fresh ears.
    pub open spec fn fresh(f: Calc, sample_rate: Single) -> Ears {
        Ears {
            env: Single(AGC_TARGET),
            agc_gain: Single(ONE),
            env_att: gone(f, Single(ATTACK_S), sample_rate),
            env_rel: gone(f, Single(RELEASE_S), sample_rate),
            gain_down: gone(f, Single(DOWN_S), sample_rate),
            gain_up_fast: gone(f, Single(UP_FAST_S), sample_rate),
            gain_up_slow: gone(f, Single(UP_SLOW_S), sample_rate),
            tts: Single(0),
            tts_up: gone(f, Single(TIRE_S), sample_rate),
            tts_down: gone(f, Single(REST_S), sample_rate),
            tts_lp_l: Single(0),
            tts_lp_r: Single(0),
            tts_coef: Single(ONE),
            tts_refresh: 0,
            tin: Single(0),
            tin_phase: Single(0),
            tin_step: quot(f, prod(f, Single(TAU), Single(TIN_HZ)), sample_rate),
            tin_decay: left_after(f, Single(FADE_S), sample_rate),
            sample_rate,
        }
    }

    pub fn new<F: Fn(Op) -> Single>(f: &F, sample_rate: Single) -> (r: Self)
        requires
            is_steady(*f),
        ensures
            r == Ears::fresh(answering(*f), sample_rate),
    {
        let decay: Smoothed = Smoothed::new(f, Single(0), Single(FADE_S), sample_rate);
        Ears {
            env: Single(AGC_TARGET),
            agc_gain: Single(ONE),
            env_att: share_of(f, Single(ATTACK_S), sample_rate),
            env_rel: share_of(f, Single(RELEASE_S), sample_rate),
            gain_down: share_of(f, Single(DOWN_S), sample_rate),
            gain_up_fast: share_of(f, Single(UP_FAST_S), sample_rate),
            gain_up_slow: share_of(f, Single(UP_SLOW_S), sample_rate),
            tts: Single(0),
            tts_up: share_of(f, Single(TIRE_S), sample_rate),
            tts_down: share_of(f, Single(REST_S), sample_rate),
            tts_lp_l: Single(0),
            tts_lp_r: Single(0),
            tts_coef: Single(ONE),
            tts_refresh: 0,
            tin: Single(0),
            tin_phase: Single(0),
            tin_step: over(f, times(f, Single(TAU), Single(TIN_HZ)), sample_rate),
            tin_decay: decay.coef,
            sample_rate,
        }
    }

    /// The envelope after a demand of `m`.
    pub open spec fn env_after(self, f: Calc, m: Single) -> Single {
        let coef = if self.env.below(m) {
            self.env_att
        } else {
            self.env_rel
        };
        plus_prod(f, self.env, coef, diff(f, m, self.env))
    }

    /// The gain that an envelope asks for, within limits.
    pub open spec fn desired(f: Calc, env: Single) -> Single {
        clamped(
            quot(f, Single(AGC_TARGET), greater(env, Single(ENV_FLOOR))),
            Single(AGC_MAX_CUT),
            Single(AGC_MAX_BOOST),
        )
    }

    /// How fast the gain moves: down fast; up fast while far below, slower as
    /// it closes in.
    pub open spec fn gain_coef(self, f: Calc, desired: Single) -> Single {
        if desired.below(self.agc_gain) {
            self.gain_down
        } else {
            let r = clamped(
                quot(f, self.agc_gain, greater(desired, Single(GAIN_FLOOR))),
                Single(0),
                Single(ONE),
            );
            sum(
                f,
                self.gain_up_fast,
                prod(f, prod(f, diff(f, self.gain_up_slow, self.gain_up_fast), r), r),
            )
        }
    }

    /// The gain after a demand of `m`.
    pub open spec fn gain_after(self, f: Calc, m: Single) -> Single {
        let d = Ears::desired(f, self.env_after(f, m));
        plus_prod(f, self.agc_gain, self.gain_coef(f, d), diff(f, d, self.agc_gain))
    }

    /// How far an envelope lies above what ears can take, from 0 to 1.
    pub open spec fn excess(f: Calc, env: Single) -> Single {
        clamped(diff(f, quot(f, env, Single(TTS_LOUD)), Single(ONE)), Single(0), Single(ONE))
    }

    /// The fatigue after a demand of `m`.
    pub open spec fn fatigue_after(self, f: Calc, m: Single) -> Single {
        let x = Ears::excess(f, self.env_after(f, m));
        let coef = if self.tts.below(x) {
            self.tts_up
        } else {
            self.tts_down
        };
        plus_prod(f, self.tts, coef, diff(f, x, self.tts))
    }

    /// The muffle's coefficient at a fatigue.
    pub open spec fn muffle(f: Calc, tts: Single, sample_rate: Single) -> Single {
        lp_coef(
            f,
            prod(
                f,
                Single(TTS_FC_HI),
                power(f, quot(f, Single(TTS_FC_LO), Single(TTS_FC_HI)), tts),
            ),
            sample_rate,
        )
    }

    /// The ringing after a demand of `m`.
    pub open spec fn ringing_after(self, f: Calc, m: Single) -> Single {
        prod(
            f,
            lesser(
                plus_prod(
                    f,
                    self.tin,
                    greater(diff(f, m, Single(TIN_THRESH)), Single(0)),
                    Single(RING_FEED),
                ),
                Single(ONE),
            ),
            self.tin_decay,
        )
    }

    /// The ring's phase after a demand of `m`.
    pub open spec fn phase_after(self, f: Calc, m: Single) -> Single {
        let tin = self.ringing_after(f, m);
        if Single(RING_FLOOR).below(tin) {
            rest(
                f,
                plus_prod(
                    f,
                    self.tin_phase,
                    self.tin_step,
                    plus_prod(f, Single(ONE), Single(SHARP), tin),
                ),
                Single(TAU),
            )
        } else {
            self.tin_phase
        }
    }

    /// The ring that is heard after a demand of `m`.
    pub open spec fn ring(self, f: Calc, m: Single) -> Single {
        let tin = self.ringing_after(f, m);
        if Single(RING_FLOOR).below(tin) {
            prod(f, prod(f, f(Op::Sin(self.phase_after(f, m))), tin), Single(TIN_LEVEL))
        } else {
            Single(0)
        }
    }

    /// The demand of two ears.
    pub open spec fn demand(l: Single, r: Single) -> Single {
        greater(size(l), size(r))
    }

    /// The ears after a sample.
    pub open spec fn next(self, f: Calc, l: Single, r: Single) -> Ears {
        let m = Ears::demand(l, r);
        let gain = self.gain_after(f, m);
        let tts = self.fatigue_after(f, m);
        let due = self.tts_refresh == 0;
        let coef = if due {
            Ears::muffle(f, tts, self.sample_rate)
        } else {
            self.tts_coef
        };
        Ears {
            env: self.env_after(f, m),
            agc_gain: gain,
            tts,
            tts_coef: coef,
            tts_refresh: if due {
                (TTS_REFRESH - 1) as u32
            } else {
                (self.tts_refresh - 1) as u32
            },
            tin: self.ringing_after(f, m),
            tin_phase: self.phase_after(f, m),
            tts_lp_l: plus_prod(f, self.tts_lp_l, coef, diff(f, prod(f, l, gain), self.tts_lp_l)),
            tts_lp_r: plus_prod(f, self.tts_lp_r, coef, diff(f, prod(f, r, gain), self.tts_lp_r)),
            ..self
        }
    }

    /// One ear's output: the adapted sample, dulled by fatigue, with the ring,
    /// softly limited.
    pub open spec fn out(f: Calc, x: Single, now: Ears, lp: Single, ring: Single) -> Single {
        let g = prod(f, x, now.agc_gain);
        f(Op::Tanh(sum(f, plus_prod(f, g, now.tts, diff(f, lp, g)), ring)))
    }

    /// What the ears make of a sample.
    pub open spec fn heard(self, f: Calc, l: Single, r: Single) -> (Single, Single) {
        let now = self.next(f, l, r);
        let ring = self.ring(f, Ears::demand(l, r));
        (Ears::out(f, l, now, now.tts_lp_l, ring), Ears::out(f, r, now, now.tts_lp_r, ring))
    }

    /// Follow the demand: envelope, gain, fatigue and muffle.
    fn adapt<F: Fn(Op) -> Single>(&mut self, f: &F, m: Single)
        requires
            is_steady(*f),
            old(self).tts_refresh <= TTS_REFRESH,
        ensures
            *final(self) == (Ears {
                env: old(self).env_after(answering(*f), m),
                agc_gain: old(self).gain_after(answering(*f), m),
                tts: old(self).fatigue_after(answering(*f), m),
                tts_coef: if old(self).tts_refresh == 0 {
                    Ears::muffle(
                        answering(*f),
                        old(self).fatigue_after(answering(*f), m),
                        old(self).sample_rate,
                    )
                } else {
                    old(self).tts_coef
                },
                tts_refresh: if old(self).tts_refresh == 0 {
                    (TTS_REFRESH - 1) as u32
                } else {
                    (old(self).tts_refresh - 1) as u32
                },
                ..*old(self)
            }),
    {
        let coef: Single = if self.env.lt(m) {
            self.env_att
        } else {
            self.env_rel
        };
        self.env = add_times(f, self.env, coef, minus(f, m, self.env));
        let want: Single = over(f, Single(AGC_TARGET), greater_of(self.env, Single(ENV_FLOOR)));
        let desired: Single = clamp_to(want, Single(AGC_MAX_CUT), Single(AGC_MAX_BOOST));
        let gcoef: Single = if desired.lt(self.agc_gain) {
            self.gain_down
        } else {
            let near: Single = over(f, self.agc_gain, greater_of(desired, Single(GAIN_FLOOR)));
            let r: Single = clamp_to(near, Single(0), Single(ONE));
            let span: Single = minus(f, self.gain_up_slow, self.gain_up_fast);
            plus(f, self.gain_up_fast, times(f, times(f, span, r), r))
        };
        self.agc_gain = add_times(f, self.agc_gain, gcoef, minus(f, desired, self.agc_gain));
        let over_loud: Single = minus(f, over(f, self.env, Single(TTS_LOUD)), Single(ONE));
        let excess: Single = clamp_to(over_loud, Single(0), Single(ONE));
        let tcoef: Single = if self.tts.lt(excess) {
            self.tts_up
        } else {
            self.tts_down
        };
        self.tts = add_times(f, self.tts, tcoef, minus(f, excess, self.tts));
        if self.tts_refresh == 0 {
            self.tts_refresh = TTS_REFRESH;
            let base: Single = over(f, Single(TTS_FC_LO), Single(TTS_FC_HI));
            let fc: Single = times(f, Single(TTS_FC_HI), raise(f, base, self.tts));
            self.tts_coef = OnePoleLp::coef(f, fc, self.sample_rate);
        }
        self.tts_refresh = self.tts_refresh - 1;
    }

    /// Feed the ring with the demand.
    fn ring_on<F: Fn(Op) -> Single>(&mut self, f: &F, m: Single) -> (r: Single)
        requires
            is_steady(*f),
        ensures
            *final(self) == (Ears {
                tin: old(self).ringing_after(answering(*f), m),
                tin_phase: old(self).phase_after(answering(*f), m),
                ..*old(self)
            }),
            r == old(self).ring(answering(*f), m),
    {
        let blast: Single = greater_of(minus(f, m, Single(TIN_THRESH)), Single(0));
        let fed: Single = add_times(f, self.tin, blast, Single(RING_FEED));
        self.tin = times(f, lesser_of(fed, Single(ONE)), self.tin_decay);
        if Single(RING_FLOOR).lt(self.tin) {
            let sharp: Single = add_times(f, Single(ONE), Single(SHARP), self.tin);
            let phase: Single = add_times(f, self.tin_phase, self.tin_step, sharp);
            self.tin_phase = rest_of(f, phase, Single(TAU));
            let s: Single = ask(f, Op::Sin(self.tin_phase));
            times(f, times(f, s, self.tin), Single(TIN_LEVEL))
        } else {
            Single(0)
        }
    }

    /// One sample for both ears.
    pub fn process<F: Fn(Op) -> Single>(&mut self, f: &F, l: Single, r: Single) -> (o: (
        Single,
        Single,
    ))
        requires
            is_steady(*f),
            old(self).tts_refresh <= TTS_REFRESH,
        ensures
            *final(self) == old(self).next(answering(*f), l, r),
            final(self).tts_refresh <= TTS_REFRESH,
            o == old(self).heard(answering(*f), l, r),
    {
        let ghost was = *self;
        let m: Single = greater_of(size_of(l), size_of(r));
        self.adapt(f, m);
        let ghost mid = *self;
        let ring: Single = self.ring_on(f, m);
        assert(mid.ringing_after(answering(*f), m) == was.ringing_after(answering(*f), m));
        assert(mid.phase_after(answering(*f), m) == was.phase_after(answering(*f), m));
        assert(mid.ring(answering(*f), m) == was.ring(answering(*f), m));
        let gl: Single = times(f, l, self.agc_gain);
        let gr: Single = times(f, r, self.agc_gain);
        self.tts_lp_l = add_times(f, self.tts_lp_l, self.tts_coef, minus(f, gl, self.tts_lp_l));
        self.tts_lp_r = add_times(f, self.tts_lp_r, self.tts_coef, minus(f, gr, self.tts_lp_r));
        assert(*self == was.next(answering(*f), l, r));
        let dl: Single = add_times(f, gl, self.tts, minus(f, self.tts_lp_l, gl));
        let dr: Single = add_times(f, gr, self.tts, minus(f, self.tts_lp_r, gr));
        let ol: Single = ask(f, Op::Tanh(plus(f, dl, ring)));
        let or: Single = ask(f, Op::Tanh(plus(f, dr, ring)));
        (ol, or)
    }
}

impl Ears {
    /// The ears after the samples.
    pub open spec fn after(self, f: Calc, s: Seq<(Single, Single)>) -> Ears
        decreases s.len(),
    {
        if s.len() == 0 {
            self
        } else {
            self.after(f, s.drop_last()).next(f, s.last().0, s.last().1)
        }
    }

    /// Nothing is adapted: the gain is one, nothing muffles, nothing rings.
    pub open spec fn is_rested(self) -> bool {
        &&& value(self.agc_gain) == 1real
        &&& self.tts.num() == 0
        &&& self.tin.num() == 0
    }

    /// The gain moves exactly after a demand of `m`.
    pub open spec fn exact_gain(self, f: Calc, m: Single) -> bool {
        let d = Ears::desired(f, self.env_after(f, m));
        let way = diff(f, d, self.agc_gain);
        let step = prod(f, self.gain_coef(f, d), way);
        &&& is_exact(f, Op::Minus(d, self.agc_gain))
        &&& is_exact(f, Op::Times(self.gain_coef(f, d), way))
        &&& is_exact(f, Op::Plus(self.agc_gain, step))
    }

    /// Fatigue moves exactly after a demand of `m`.
    pub open spec fn exact_fatigue(self, f: Calc, m: Single) -> bool {
        let x = Ears::excess(f, self.env_after(f, m));
        let coef = if self.tts.below(x) {
            self.tts_up
        } else {
            self.tts_down
        };
        let way = diff(f, x, self.tts);
        &&& is_exact(f, Op::Minus(x, self.tts))
        &&& is_exact(f, Op::Times(coef, way))
        &&& is_exact(f, Op::Plus(self.tts, prod(f, coef, way)))
    }

    /// Ringing moves exactly after a demand of `m`.
    pub open spec fn exact_ringing(self, f: Calc, m: Single) -> bool {
        let blast = greater(diff(f, m, Single(TIN_THRESH)), Single(0));
        let fed = plus_prod(f, self.tin, blast, Single(RING_FEED));
        &&& is_exact(f, Op::Times(blast, Single(RING_FEED)))
        &&& is_exact(f, Op::Plus(self.tin, prod(f, blast, Single(RING_FEED))))
        &&& is_exact(f, Op::Times(lesser(fed, Single(ONE)), self.tin_decay))
    }

    /// A demand at a normal level: the envelope asks for no cut and lies below
    /// what tires, the demand below what makes ears ring.
    pub open spec fn is_normal(self, f: Calc, m: Single) -> bool {
        let env = self.env_after(f, m);
        let wanted = quot(f, Single(AGC_TARGET), greater(env, Single(ENV_FLOOR)));
        &&& Single(ONE).at_most(wanted)
        &&& diff(f, quot(f, env, Single(TTS_LOUD)), Single(ONE)).at_most(Single(0))
        &&& diff(f, m, Single(TIN_THRESH)).at_most(Single(0))
    }

    /// A demand at a normal level, on exact arithmetic.
    pub open spec fn is_gentle(self, f: Calc, m: Single) -> bool {
        self.is_normal(f, m) && self.exact_gain(f, m) && self.exact_fatigue(f, m)
            && self.exact_ringing(f, m)
    }
}

/// Quiet is never boosted: the gain that is headed for is at most one whatever
/// the envelope, and in exact arithmetic a gain of at most one stays so.
pub proof fn quiet_is_never_boosted(f: Calc, ears: Ears, m: Single)
    requires
        ears.exact_gain(f, m),
        ears.agc_gain.is_finite(),
        value(ears.agc_gain) <= 1real,
        !quot(f, Single(AGC_TARGET), greater(ears.env_after(f, m), Single(ENV_FLOOR))).is_nan(),
        ({
            let k = value(ears.gain_coef(f, Ears::desired(f, ears.env_after(f, m))));
            0real <= k <= 1real
        }),
    ensures
        Ears::desired(f, ears.env_after(f, m)).at_most(Single(ONE)),
        value(ears.gain_after(f, m)) <= 1real,
{
    let q = quot(f, Single(AGC_TARGET), greater(ears.env_after(f, m), Single(ENV_FLOOR)));
    let d = Ears::desired(f, ears.env_after(f, m));
    lemma_one();
    lemma_grid_increases(0, AGC_MAX_CUT as nat);
    lemma_grid_increases(AGC_MAX_CUT as nat, ONE as nat);
    lemma_within(d, Single(ONE));
    lemma_order(d, Single(ONE));
    let (x, g) = (value(d), value(ears.agc_gain));
    let k = value(ears.gain_coef(f, d));
    assert(g + k * (x - g) <= 1real) by (nonlinear_arith)
        requires
            0real <= k <= 1real,
            x <= 1real,
            g <= 1real,
    ;
}

proof fn lemma_rest_stays(f: Calc, ears: Ears, m: Single)
    requires
        ears.is_rested(),
        ears.is_gentle(f, m),
    ensures
        value(ears.gain_after(f, m)) == 1real,
        ears.fatigue_after(f, m).num() == 0,
        ears.ringing_after(f, m).num() == 0,
        ears.ring(f, m) == Single(0),
{
    let env = ears.env_after(f, m);
    lemma_one();
    assert(Single(0).num() == 0);
    lemma_grid_increases(0, ONE as nat);
    lemma_grid_increases(0, RING_FLOOR as nat);
    lemma_grid_increases(AGC_MAX_CUT as nat, ONE as nat);
    let q = quot(f, Single(AGC_TARGET), greater(env, Single(ENV_FLOOR)));
    let d = Ears::desired(f, env);
    if !Single(ONE).below(q) {
        lemma_same_num(q, Single(ONE));
    }
    assert(d == Single(ONE));
    let k = value(ears.gain_coef(f, d));
    assert(k * 0real == 0real);
    let x = Ears::excess(f, env);
    assert(x.num() == 0);
    lemma_nothing(x);
    lemma_nothing(ears.tts);
    let c = if ears.tts.below(x) {
        ears.tts_up
    } else {
        ears.tts_down
    };
    assert(value(c) * 0real == 0real);
    let t = ears.fatigue_after(f, m);
    lemma_order(t, Single(0));
    let blast = greater(diff(f, m, Single(TIN_THRESH)), Single(0));
    assert(blast.num() == 0);
    lemma_nothing(blast);
    lemma_nothing(ears.tin);
    assert(0real * value(Single(RING_FEED)) == 0real);
    let fed = plus_prod(f, ears.tin, blast, Single(RING_FEED));
    lemma_order(fed, Single(0));
    assert(lesser(fed, Single(ONE)) == fed);
    assert(0real * value(ears.tin_decay) == 0real);
    lemma_order(ears.ringing_after(f, m), Single(0));
}

/// Protection does nothing at normal levels: over any number of samples the
/// gain stays at one, nothing muffles and nothing rings.
pub proof fn normal_levels_are_left_alone(f: Calc, ears: Ears, s: Seq<(Single, Single)>)
    requires
        ears.is_rested(),
        forall|i: int|
            0 <= i < s.len() ==> (#[trigger] ears.after(f, s.take(i))).is_gentle(
                f,
                Ears::demand(s[i].0, s[i].1),
            ),
    ensures
        ears.after(f, s).is_rested(),
    decreases s.len(),
{
    if s.len() > 0 {
        let n = s.len() - 1;
        let rest = s.drop_last();
        assert(s.take(n) =~= rest);
        assert forall|i: int| 0 <= i < rest.len() implies (#[trigger] ears.after(
            f,
            rest.take(i),
        )).is_gentle(f, Ears::demand(rest[i].0, rest[i].1)) by {
            assert(rest.take(i) =~= s.take(i));
        }
        normal_levels_are_left_alone(f, ears, rest);
        assert(ears.after(f, s.take(n)).is_gentle(f, Ears::demand(s[n].0, s[n].1)));
        lemma_rest_stays(f, ears.after(f, rest), Ears::demand(s.last().0, s.last().1));
    }
}

/// Every operation of one ear's output, but for the limiter, is exact.
pub open spec fn exact_out(f: Calc, x: Single, now: Ears, lp: Single, ring: Single) -> bool {
    let g = prod(f, x, now.agc_gain);
    let way = diff(f, lp, g);
    let dulled = plus_prod(f, g, now.tts, way);
    &&& is_exact(f, Op::Times(x, now.agc_gain))
    &&& is_exact(f, Op::Times(now.tts, way))
    &&& is_exact(f, Op::Plus(g, prod(f, now.tts, way)))
    &&& is_exact(f, Op::Plus(dulled, ring))
}

/// Rested ears are transparent, whatever the muffle holds: what goes into the
/// limiter is the sample.
pub proof fn rested_ears_are_transparent(f: Calc, x: Single, now: Ears, lp: Single) -> (u: Single)
    requires
        now.is_rested(),
        exact_out(f, x, now, lp, Single(0)),
    ensures
        value(u) == value(x),
        Ears::out(f, x, now, lp, Single(0)) == f(Op::Tanh(u)),
{
    lemma_one();
    lemma_nothing(now.tts);
    let g = prod(f, x, now.agc_gain);
    let way = diff(f, lp, g);
    assert(value(x) * 1real == value(x));
    assert(0real * value(way) == 0real);
    sum(f, plus_prod(f, g, now.tts, way), Single(0))
}

#[derive(Debug)]
pub struct OutputStage {
    pub decode: Decode,
    /// Yaw, pitch, roll.
    pub head: [Smoothed; 3],
    pub ears: Ears,
}

impl OutputStage {
    pub open spec fn wf(self) -> bool {
        &&& self.ears.tts_refresh <= TTS_REFRESH
        &&& self.decode matches Decode::Hrtf(d) ==> d.wf()
    }

    /// Nothing was heard yet: fresh ears, the head straight, and the responses
    /// of the bank, or two cardioids where there is none.
    pub open spec fn is_fresh(self, f: Calc, bank: Option<Seq<u8>>, sample_rate: Single) -> bool {
        &&& self.ears == Ears::fresh(f, sample_rate)
        &&& forall|i: int|
            0 <= i < 3 ==> #[trigger] self.head@[i] == Smoothed::at(
                Single(0),
                left_after(f, Single(HEAD_TAU), sample_rate),
            )
        &&& match bank {
            Some(b) => {
                &&& self.decode is Hrtf
                &&& self.decode->Hrtf_0.taps == bank_taps(b)
                &&& self.decode->Hrtf_0.pos == 0
                &&& self.decode->Hrtf_0.speakers@.len() == bank_count(b)
                &&& forall|k: int|
                    0 <= k < bank_count(b) ==> is_speaker(
                        f,
                        b,
                        k,
                        #[trigger] self.decode->Hrtf_0.speakers@[k],
                    )
            },
            None => self.decode == Decode::Cardioid(StereoDecoder::made(f)),
        }
    }

    /// A stage on measured responses where there are any, else on two
    /// cardioids.
    pub fn from_speaker_bytes<F: Fn(Op) -> Single>(
        f: &F,
        bytes: Option<&[u8]>,
        sample_rate: Single,
    ) -> (r: Self)
        requires
            is_steady(*f),
            bytes matches Some(b) ==> is_bank(b@) && bank_taps(b@) > 0,
        ensures
            r.wf(),
            r.is_fresh(
                answering(*f),
                match bytes {
                    Some(b) => Some(b@),
                    None => None,
                },
                sample_rate,
            ),
    {
        let decode: Decode = match bytes {
            Some(b) => Decode::Hrtf(BinauralDecoder::from_bytes(f, b)),
            None => Decode::Cardioid(StereoDecoder::new(f)),
        };
        let h: Smoothed = Smoothed::new(f, Single(0), Single(HEAD_TAU), sample_rate);
        OutputStage { decode, head: [h, h, h], ears: Ears::new(f, sample_rate) }
    }

    pub fn is_binaural(&self) -> (r: bool)
        ensures
            r == (self.decode is Hrtf),
    {
        match &self.decode {
            Decode::Hrtf(_) => true,
            Decode::Cardioid(_) => false,
        }
    }

    pub fn speaker_count(&self) -> (r: usize)
        ensures
            r == (match self.decode {
                Decode::Hrtf(d) => d.speakers@.len(),
                Decode::Cardioid(_) => 2,
            }),
    {
        match &self.decode {
            Decode::Hrtf(d) => d.speaker_count(),
            Decode::Cardioid(_) => 2,
        }
    }

    /// Turn the head.
    pub fn set_head(&mut self, yaw: Single, pitch: Single, roll: Single)
        requires
            old(self).wf(),
        ensures
            final(self).wf(),
            *final(self) == (OutputStage { head: final(self).head, ..*old(self) }),
            final(self).head@ == seq![
                old(self).head@[0].towards(yaw),
                old(self).head@[1].towards(pitch),
                old(self).head@[2].towards(roll),
            ],
    {
        let ghost h = self.head@;
        self.head[0].set(yaw);
        self.head[1].set(pitch);
        self.head[2].set(roll);
        assert(self.head@ =~= seq![h[0].towards(yaw), h[1].towards(pitch), h[2].towards(roll)]);
    }

    pub fn agc_gain(&self) -> (r: Single)
        ensures
            r == self.ears.agc_gain,
    {
        self.ears.agc_gain
    }

    /// Fatigue, from 0 (fresh) to 1 (fully dulled).
    pub fn ear_fatigue(&self) -> (r: Single)
        ensures
            r == self.ears.tts,
    {
        self.ears.tts
    }

    /// Ringing, from 0 to 1.
    pub fn tinnitus(&self) -> (r: Single)
        ensures
            r == self.ears.tin,
    {
        self.ears.tin
    }

    /// The head's rotation at this sample.
    pub open spec fn turn(self, f: Calc) -> HeadRotation {
        let m = head_matrix(
            f,
            self.head@[0].ticked(f).cur,
            self.head@[1].ticked(f).cur,
            self.head@[2].ticked(f).cur,
        );
        HeadRotation { m, m2: second_block(f, m) }
    }

    /// What the turned bus decodes to.
    pub open spec fn decoded(self, f: Calc, sh: Frame) -> (Single, Single) {
        let t = self.turn(f).applied(f, sh);
        match self.decode {
            Decode::Hrtf(d) => {
                let p = ring_next(d.pos as int, d.taps as int);
                let n = d.speakers@.len() as int;
                (left_sum(f, d.speakers@, t, p, n), right_sum(f, d.speakers@, t, p, n))
            },
            Decode::Cardioid(d) => d.heard(f, t),
        }
    }

    /// `now` decodes on from here.
    pub open spec fn decode_stepped(self, f: Calc, sh: Frame, now: Decode) -> bool {
        let t = self.turn(f).applied(f, sh);
        match self.decode {
            Decode::Hrtf(d) => {
                &&& now is Hrtf
                &&& now->Hrtf_0.taps == d.taps
                &&& now->Hrtf_0.pos == ring_next(d.pos as int, d.taps as int)
                &&& now->Hrtf_0.speakers@.len() == d.speakers@.len()
                &&& forall|i: int|
                    0 <= i < d.speakers@.len() ==> {
                        let s = d.speakers@[i];
                        let u = #[trigger] now->Hrtf_0.speakers@[i];
                        &&& u.matrix == s.matrix
                        &&& u.hrir_l == s.hrir_l
                        &&& u.hrir_r == s.hrir_r
                        &&& u.hist@ == s.heard(f, t, now->Hrtf_0.pos as int)
                    }
            },
            Decode::Cardioid(d) => now == self.decode,
        }
    }

    /// The stereo that the ears get: the decoded bus and the point-rendered
    /// paths.
    pub open spec fn stereo(self, f: Calc, sh: Frame, pl: Single, pr: Single) -> (Single, Single) {
        let d = self.decoded(f, sh);
        (sum(f, d.0, pl), sum(f, d.1, pr))
    }

    /// What comes out.
    pub open spec fn heard(self, f: Calc, sh: Frame, pl: Single, pr: Single) -> (Single, Single) {
        let s = self.stereo(f, sh, pl, pr);
        self.ears.heard(f, s.0, s.1)
    }

    /// `now` is the stage after this sample.
    pub open spec fn stepped(
        self,
        f: Calc,
        sh: Frame,
        pl: Single,
        pr: Single,
        now: OutputStage,
    ) -> bool {
        let s = self.stereo(f, sh, pl, pr);
        &&& forall|i: int| 0 <= i < 3 ==> #[trigger] now.head@[i] == self.head@[i].ticked(f)
        &&& self.decode_stepped(f, sh, now.decode)
        &&& now.ears == self.ears.next(f, s.0, s.1)
    }

    /// Turn and decode the bus, add the point-rendered stereo, and adapt.
    pub fn process<F: Fn(Op) -> Single>(&mut self, f: &F, sh: &Frame, pl: Single, pr: Single) -> (o: (
        Single,
        Single,
    ))
        requires
            is_steady(*f),
            old(self).wf(),
        ensures
            final(self).wf(),
            old(self).stepped(answering(*f), *sh, pl, pr, *final(self)),
            o == old(self).heard(answering(*f), *sh, pl, pr),
    {
        let ghost was = *self;
        let ghost g = answering(*f);
        let yaw: Single = self.head[0].tick(f);
        let pitch: Single = self.head[1].tick(f);
        let roll: Single = self.head[2].tick(f);
        let turn: HeadRotation = HeadRotation::new(f, yaw, pitch, roll);
        assert(turn == was.turn(g));
        let mut turned: Frame = *sh;
        turn.apply(f, &mut turned);
        let (dl, dr) = match &mut self.decode {
            Decode::Hrtf(d) => d.process(f, &turned),
            Decode::Cardioid(d) => d.decode(f, &turned),
        };
        assert((dl, dr) == was.decoded(g, *sh));
        let l: Single = plus(f, dl, pl);
        let r: Single = plus(f, dr, pr);
        self.ears.process(f, l, r)
    }
}

} // verus!
