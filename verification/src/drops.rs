//! Single raindrops: where one lands decides how it sounds. A surface is a
//! small set of resonant modes that a soft noise burst drives; an airborne
//! drop is a short ping; a recorded hit plays from a bank.

use crate::ambi::Frame;
use crate::arith::{
    add_times, ask, diff, greater, greater_of, minus, over, plus, plus_prod, prod, quot, sum, times,
    Calc, Op,
};
use crate::filter::{lp_coef, OnePoleLp};
use crate::params::ONE;
use crate::probe::{answering, is_steady};
use crate::rng::{advance, advanced, toss, Rng};
use crate::single::{rounded, Single};
use crate::smooth::{left_after, Smoothed};
use vstd::prelude::*;

verus! {

/// The pattern of 1e-6.
pub const P_1E_MINUS_6: u32 = 0x3586_37BD;

/// The pattern of 1e-3.
pub const P_1E_MINUS_3: u32 = 0x3A83_126F;

/// The pattern of 0.004.
pub const P_0_004: u32 = 0x3B83_126F;

/// The pattern of 0.006.
pub const P_0_006: u32 = 0x3BC4_9BA6;

/// The pattern of 0.008.
pub const P_0_008: u32 = 0x3C03_126F;

/// The pattern of 0.010.
pub const P_0_010: u32 = 0x3C23_D70A;

/// The pattern of 0.011.
pub const P_0_011: u32 = 0x3C34_3958;

/// The pattern of 0.018.
pub const P_0_018: u32 = 0x3C93_74BC;

/// The pattern of 0.026.
pub const P_0_026: u32 = 0x3CD4_FDF4;

/// The pattern of 0.030.
pub const P_0_030: u32 = 0x3CF5_C28F;

/// The pattern of 0.050.
pub const P_0_050: u32 = 0x3D4C_CCCD;

/// The pattern of 0.06.
pub const P_0_06: u32 = 0x3D75_C28F;

/// The pattern of 0.080.
pub const P_0_080: u32 = 0x3DA3_D70A;

/// The pattern of 0.090.
pub const P_0_090: u32 = 0x3DB8_51EC;

/// The pattern of 0.120.
pub const P_0_120: u32 = 0x3DF5_C28F;

/// The pattern of 0.25.
pub const P_0_25: u32 = 0x3E80_0000;

/// The pattern of 0.4.
pub const P_0_4: u32 = 0x3ECC_CCCD;

/// The pattern of 0.5.
pub const P_0_5: u32 = 0x3F00_0000;

/// The pattern of 0.55.
pub const P_0_55: u32 = 0x3F0C_CCCD;

/// The pattern of 0.7.
pub const P_0_7: u32 = 0x3F33_3333;

/// The pattern of 0.8.
pub const P_0_8: u32 = 0x3F4C_CCCD;

/// The pattern of 0.9.
pub const P_0_9: u32 = 0x3F66_6666;

/// The pattern of 0.97.
pub const P_0_97: u32 = 0x3F78_51EC;

/// The pattern of 0.982.
pub const P_0_982: u32 = 0x3F7B_645A;

/// The pattern of 1.0.
pub const P_1_0: u32 = 0x3F80_0000;

/// The pattern of 2.0.
pub const P_2_0: u32 = 0x4000_0000;

/// The pattern of 380.0.
pub const P_380_0: u32 = 0x43BE_0000;

/// The pattern of 650.0.
pub const P_650_0: u32 = 0x4422_8000;

/// The pattern of 820.0.
pub const P_820_0: u32 = 0x444D_0000;

/// The pattern of 900.0.
pub const P_900_0: u32 = 0x4461_0000;

/// The pattern of 1200.0.
pub const P_1200_0: u32 = 0x4496_0000;

/// The pattern of 1550.0.
pub const P_1550_0: u32 = 0x44C1_C000;

/// The pattern of 1750.0.
pub const P_1750_0: u32 = 0x44DA_C000;

/// The pattern of 2200.0.
pub const P_2200_0: u32 = 0x4509_8000;

/// The pattern of 2400.0.
pub const P_2400_0: u32 = 0x4516_0000;

/// The pattern of 3050.0.
pub const P_3050_0: u32 = 0x453E_A000;

/// The pattern of 3200.0.
pub const P_3200_0: u32 = 0x4548_0000;

/// The pattern of 3600.0.
pub const P_3600_0: u32 = 0x4561_0000;

/// The pattern of 4700.0.
pub const P_4700_0: u32 = 0x4592_E000;

/// The pattern of 5400.0.
pub const P_5400_0: u32 = 0x45A8_C000;

/// The pattern of a full turn in radians.
pub const TAU: u32 = 0x40C9_0FDB;

/// The length of one recorded hit in the bank: 150 ms at 48 kHz.
pub const BANK_SLOT: usize = 7200;

/// One resonant mode: its pitch in Hz, its decay in seconds and its strength.
#[derive(Clone, Copy, Debug, PartialEq, Eq, Structural)]
pub struct Mode {
    pub freq: Single,
    pub tau: Single,
    pub amp: Single,
}

/// A material as its modes.
pub type ModeTable = [Mode; 4];

pub open spec fn glass_modes() -> ModeTable {
    [
        Mode { freq: Single(P_650_0), tau: Single(P_0_030), amp: Single(P_0_5) },
        Mode { freq: Single(P_1750_0), tau: Single(P_0_026), amp: Single(P_0_9) },
        Mode { freq: Single(P_3050_0), tau: Single(P_0_018), amp: Single(P_1_0) },
        Mode { freq: Single(P_4700_0), tau: Single(P_0_010), amp: Single(P_0_5) },
    ]
}

pub open spec fn metal_modes() -> ModeTable {
    [
        Mode { freq: Single(P_820_0), tau: Single(P_0_090), amp: Single(P_0_7) },
        Mode { freq: Single(P_2200_0), tau: Single(P_0_120), amp: Single(P_1_0) },
        Mode { freq: Single(P_3600_0), tau: Single(P_0_080), amp: Single(P_0_8) },
        Mode { freq: Single(P_5400_0), tau: Single(P_0_050), amp: Single(P_0_4) },
    ]
}

pub open spec fn stone_modes() -> ModeTable {
    [
        Mode { freq: Single(P_380_0), tau: Single(P_0_011), amp: Single(P_1_0) },
        Mode { freq: Single(P_900_0), tau: Single(P_0_008), amp: Single(P_0_8) },
        Mode { freq: Single(P_1550_0), tau: Single(P_0_006), amp: Single(P_0_5) },
        Mode { freq: Single(P_2400_0), tau: Single(P_0_004), amp: Single(P_0_25) },
    ]
}

/// Glass rings bright.
pub fn glass() -> (r: ModeTable)
    ensures
        r == glass_modes(),
{
    let r: ModeTable = [
        Mode { freq: Single(P_650_0), tau: Single(P_0_030), amp: Single(P_0_5) },
        Mode { freq: Single(P_1750_0), tau: Single(P_0_026), amp: Single(P_0_9) },
        Mode { freq: Single(P_3050_0), tau: Single(P_0_018), amp: Single(P_1_0) },
        Mode { freq: Single(P_4700_0), tau: Single(P_0_010), amp: Single(P_0_5) },
    ];
    assert(r@ =~= glass_modes()@);
    r
}

/// Metal rings long.
pub fn metal() -> (r: ModeTable)
    ensures
        r == metal_modes(),
{
    let r: ModeTable = [
        Mode { freq: Single(P_820_0), tau: Single(P_0_090), amp: Single(P_0_7) },
        Mode { freq: Single(P_2200_0), tau: Single(P_0_120), amp: Single(P_1_0) },
        Mode { freq: Single(P_3600_0), tau: Single(P_0_080), amp: Single(P_0_8) },
        Mode { freq: Single(P_5400_0), tau: Single(P_0_050), amp: Single(P_0_4) },
    ];
    assert(r@ =~= metal_modes()@);
    r
}

/// Stone is dull and dead.
pub fn stone() -> (r: ModeTable)
    ensures
        r == stone_modes(),
{
    let r: ModeTable = [
        Mode { freq: Single(P_380_0), tau: Single(P_0_011), amp: Single(P_1_0) },
        Mode { freq: Single(P_900_0), tau: Single(P_0_008), amp: Single(P_0_8) },
        Mode { freq: Single(P_1550_0), tau: Single(P_0_006), amp: Single(P_0_5) },
        Mode { freq: Single(P_2400_0), tau: Single(P_0_004), amp: Single(P_0_25) },
    ];
    assert(r@ =~= stone_modes()@);
    r
}

/// A resonator: two coefficients and the last two outputs.
pub type Resonator = [Single; 4];

#[derive(Clone, Copy, Debug)]
pub struct Raindrop {
    pub phase: Single,
    /// Radians for each sample.
    pub step: Single,
    pub env: Single,
    /// What is left of the amplitude after each sample.
    pub decay: Single,
    /// The tap: a very short noise burst.
    pub click: Single,
    /// Heard through the structure at full level, not damped by the shell.
    pub surface: bool,
    /// Where a recorded hit starts in the bank; none for a synthetic drop.
    pub bank_off: Option<usize>,
    pub bank_pos: Single,
    pub bank_rate: Single,
    /// The modes sound.
    pub modal: bool,
    pub modes: [Resonator; 4],
    pub mode_gain: [Single; 4],
    pub exc: Single,
    pub exc_lp: Single,
    pub exc_coef: Single,
    pub enc: Frame,
}

/// A mode's pitch, detuned by a toss.
pub open spec fn detuned(f: Calc, freq: Single, u: Single) -> Single {
    prod(f, freq, plus_prod(f, Single(P_0_97), Single(P_0_06), u))
}

/// The resonator of a mode.
pub open spec fn resonator(f: Calc, m: Mode, u: Single, sample_rate: Single) -> Resonator {
    let r = left_after(f, m.tau, sample_rate);
    let th = quot(f, prod(f, Single(TAU), detuned(f, m.freq, u)), sample_rate);
    [prod(f, prod(f, Single(P_2_0), r), f(Op::Cos(th))), prod(f, r.negated(), r), Single(0), Single(0)]
}

/// How a mode is driven: its peak stays at the drive's level.
pub open spec fn drive(f: Calc, m: Mode, level: Single, u: Single, sample_rate: Single) -> Single {
    let r = left_after(f, m.tau, sample_rate);
    prod(
        f,
        prod(f, prod(f, m.amp, diff(f, Single(ONE), r)), level),
        plus_prod(f, Single(P_0_8), Single(P_0_4), u),
    )
}

/// The slowest decay of four modes.
pub open spec fn slowest(f: Calc, t: ModeTable, sample_rate: Single) -> Single {
    greater(
        greater(
            greater(
                greater(Single(0), left_after(f, t@[0].tau, sample_rate)),
                left_after(f, t@[1].tau, sample_rate),
            ),
            left_after(f, t@[2].tau, sample_rate),
        ),
        left_after(f, t@[3].tau, sample_rate),
    )
}

/// Toss `n` of the dice.
pub open spec fn nth(s: u64, n: nat) -> Single {
    toss(advanced(s, n))
}

/// How hard the impactor strikes: small drops excite brighter.
pub open spec fn impact(f: Calc, fc_mul: Single, u: Single, sample_rate: Single) -> Single {
    lp_coef(f, prod(f, plus_prod(f, Single(P_1200_0), Single(P_3200_0), u), fc_mul), sample_rate)
}

/// A drop that strikes a material, with nine tosses of the dice.
pub open spec fn struck(
    f: Calc,
    d: Raindrop,
    t: ModeTable,
    level: Single,
    fc_mul: Single,
    s: u64,
    sample_rate: Single,
) -> Raindrop {
    Raindrop {
        modal: true,
        bank_off: None,
        env: Single(ONE),
        decay: slowest(f, t, sample_rate),
        click: Single(0),
        modes: [
            resonator(f, t@[0], nth(s, 1), sample_rate),
            resonator(f, t@[1], nth(s, 3), sample_rate),
            resonator(f, t@[2], nth(s, 5), sample_rate),
            resonator(f, t@[3], nth(s, 7), sample_rate),
        ],
        mode_gain: [
            drive(f, t@[0], level, nth(s, 2), sample_rate),
            drive(f, t@[1], level, nth(s, 4), sample_rate),
            drive(f, t@[2], level, nth(s, 6), sample_rate),
            drive(f, t@[3], level, nth(s, 8), sample_rate),
        ],
        exc: Single(ONE),
        exc_lp: Single(0),
        exc_coef: impact(f, fc_mul, nth(s, 9), sample_rate),
        ..d
    }
}

/// One mode: its resonator, its drive, and how it decays.
fn tune<F: Fn(Op) -> Single>(f: &F, m: Mode, level: Single, rng: &mut Rng, sample_rate: Single) -> (r: (
    Resonator,
    Single,
    Single,
))
    requires
        is_steady(*f),
    ensures
        final(rng)@ == advanced(old(rng)@, 2),
        r.0 == resonator(answering(*f), m, nth(old(rng)@, 1), sample_rate),
        r.1 == drive(answering(*f), m, level, nth(old(rng)@, 2), sample_rate),
        r.2 == left_after(answering(*f), m.tau, sample_rate),
{
    let ghost s = rng@;
    proof {
        reveal_with_fuel(advanced, 3);
    }
    let u: Single = rng.next_f32();
    let freq: Single = times(f, m.freq, add_times(f, Single(P_0_97), Single(P_0_06), u));
    let decay: Smoothed = Smoothed::new(f, Single(0), m.tau, sample_rate);
    let r: Single = decay.coef;
    let th: Single = over(f, times(f, Single(TAU), freq), sample_rate);
    let c: Single = ask(f, Op::Cos(th));
    let res: Resonator = [
        times(f, times(f, Single(P_2_0), r), c),
        times(f, r.neg(), r),
        Single(0),
        Single(0),
    ];
    assert(res@ =~= resonator(answering(*f), m, nth(s, 1), sample_rate)@);
    let v: Single = rng.next_f32();
    let a: Single = times(f, times(f, m.amp, minus(f, Single(ONE), r)), level);
    let gain: Single = times(f, a, add_times(f, Single(P_0_8), Single(P_0_4), v));
    (res, gain, r)
}

proof fn lemma_advanced_adds(s: u64, a: nat, b: nat)
    ensures
        advanced(advanced(s, a), b) == advanced(s, a + b),
    decreases b,
{
    if b > 0 {
        lemma_advanced_adds(s, a, (b - 1) as nat);
    }
}

impl Raindrop {
    /// Strike a material. `fc_mul` scales the impactor's brightness: one for
    /// what radiates straight at the listener, less for what comes through the
    /// structure.
    pub fn setup_modal<F: Fn(Op) -> Single>(
        &mut self,
        f: &F,
        table: &ModeTable,
        level: Single,
        fc_mul: Single,
        rng: &mut Rng,
        sample_rate: Single,
    )
        requires
            is_steady(*f),
        ensures
            *final(self) == struck(
                answering(*f),
                *old(self),
                *table,
                level,
                fc_mul,
                old(rng)@,
                sample_rate,
            ),
            final(rng)@ == advanced(old(rng)@, 9),
    {
        let ghost s = rng@;
        let ghost g = answering(*f);
        let ghost d0 = *self;
        proof {
            lemma_advanced_adds(s, 2, 1);
            lemma_advanced_adds(s, 2, 2);
            lemma_advanced_adds(s, 4, 1);
            lemma_advanced_adds(s, 4, 2);
            lemma_advanced_adds(s, 6, 1);
            lemma_advanced_adds(s, 6, 2);
            lemma_advanced_adds(s, 8, 1);
            reveal_with_fuel(advanced, 2);
        }
        let (r0, g0, k0) = tune(f, table[0], level, rng, sample_rate);
        let (r1, g1, k1) = tune(f, table[1], level, rng, sample_rate);
        let (r2, g2, k2) = tune(f, table[2], level, rng, sample_rate);
        let (r3, g3, k3) = tune(f, table[3], level, rng, sample_rate);
        let slow: Single = greater_of(
            greater_of(greater_of(greater_of(Single(0), k0), k1), k2),
            k3,
        );
        let u: Single = rng.next_f32();
        let fc: Single = times(f, add_times(f, Single(P_1200_0), Single(P_3200_0), u), fc_mul);
        self.modal = true;
        self.bank_off = None;
        self.env = Single(ONE);
        self.decay = slow;
        self.click = Single(0);
        self.modes = [r0, r1, r2, r3];
        self.mode_gain = [g0, g1, g2, g3];
        self.exc = Single(ONE);
        self.exc_lp = Single(0);
        self.exc_coef = OnePoleLp::coef(f, fc, sample_rate);
        proof {
            let goal = struck(g, d0, *table, level, fc_mul, s, sample_rate);
            assert(self.modes@ =~= goal.modes@);
            assert(self.mode_gain@ =~= goal.mode_gain@);
            assert(self.modes == goal.modes);
            assert(self.mode_gain == goal.mode_gain);
            assert(*self == goal);
        }
    }
}

/// A toss in [-1, 1).
pub open spec fn noise(f: Calc, s: u64) -> Single {
    diff(f, prod(f, toss(s), Single(P_2_0)), Single(ONE))
}

pub(crate) fn hiss<F: Fn(Op) -> Single>(f: &F, rng: &mut Rng) -> (r: Single)
    requires
        is_steady(*f),
    ensures
        final(rng)@ == advance(old(rng)@),
        r == noise(answering(*f), final(rng)@),
{
    let u: Single = rng.next_f32();
    minus(f, times(f, u, Single(P_2_0)), Single(ONE))
}

/// What a resonator gives for a drive: `c1 * y1 + c2 * y2 + gain * x`.
pub open spec fn rung(f: Calc, r: Resonator, gain: Single, x: Single) -> Single {
    sum(f, sum(f, prod(f, r@[0], r@[2]), prod(f, r@[1], r@[3])), prod(f, gain, x))
}

/// A resonator one sample on.
pub open spec fn rung_on(f: Calc, r: Resonator, gain: Single, x: Single) -> Resonator {
    [r@[0], r@[1], rung(f, r, gain, x), r@[2]]
}

fn ring<F: Fn(Op) -> Single>(f: &F, r: &mut Resonator, gain: Single, x: Single) -> (y: Single)
    requires
        is_steady(*f),
    ensures
        y == rung(answering(*f), *old(r), gain, x),
        *final(r) == rung_on(answering(*f), *old(r), gain, x),
{
    let ghost r0 = *r;
    let a: Single = plus(f, times(f, r[0], r[2]), times(f, r[1], r[3]));
    let y: Single = plus(f, a, times(f, gain, x));
    let now: Resonator = [r[0], r[1], y, r[2]];
    assert(now@ =~= rung_on(answering(*f), r0, gain, x)@);
    *r = now;
    y
}

/// What a drop made of one sample: the drop after it, the dice, and the sample
/// where it sounds.
pub ghost struct Sounded {
    pub d: Raindrop,
    pub s: u64,
    pub y: Option<Single>,
}

impl Raindrop {
    /// It rang out.
    pub open spec fn is_over(self) -> bool {
        self.env.below(Single(P_1E_MINUS_6))
    }

    /// Its tap still sounds.
    pub open spec fn taps(self) -> bool {
        Single(P_1E_MINUS_6).below(self.click)
    }

    /// The tap of this sample.
    pub open spec fn tap(self, f: Calc, s: u64) -> Single {
        if self.taps() {
            prod(f, noise(f, advance(s)), self.click)
        } else {
            Single(0)
        }
    }

    /// After the tap, with the dice.
    pub open spec fn tapped(self, f: Calc, s: u64) -> (Raindrop, u64) {
        if self.taps() {
            (Raindrop { click: prod(f, self.click, Single(P_0_55)), ..self }, advance(s))
        } else {
            (self, s)
        }
    }

    /// The modes are still driven.
    pub open spec fn is_driven(self) -> bool {
        Single(P_1E_MINUS_3).below(self.exc)
    }

    /// After one more sample of the drive.
    pub open spec fn driven(self, f: Calc, s: u64) -> (Raindrop, u64) {
        if self.is_driven() {
            let exc = prod(f, self.exc, Single(P_0_982));
            let w = noise(f, advance(s));
            (
                Raindrop {
                    exc,
                    exc_lp: plus_prod(
                        f,
                        self.exc_lp,
                        self.exc_coef,
                        diff(f, prod(f, w, exc), self.exc_lp),
                    ),
                    ..self
                },
                advance(s),
            )
        } else {
            (self, s)
        }
    }

    /// What the modes are driven with.
    pub open spec fn drive_in(self, f: Calc, s: u64) -> Single {
        if self.is_driven() {
            self.driven(f, s).0.exc_lp
        } else {
            Single(0)
        }
    }

    /// The modes' sum.
    pub open spec fn ringing(self, f: Calc, x: Single) -> Single {
        let y = |m: int| rung(f, self.modes@[m], self.mode_gain@[m], x);
        sum(f, sum(f, sum(f, sum(f, Single(0), y(0)), y(1)), y(2)), y(3))
    }

    /// The modes one sample on.
    pub open spec fn modes_on(self, f: Calc, x: Single) -> [Resonator; 4] {
        [
            rung_on(f, self.modes@[0], self.mode_gain@[0], x),
            rung_on(f, self.modes@[1], self.mode_gain@[1], x),
            rung_on(f, self.modes@[2], self.mode_gain@[2], x),
            rung_on(f, self.modes@[3], self.mode_gain@[3], x),
        ]
    }

    /// One sample of a modal drop.
    pub open spec fn modal_sound(self, f: Calc, s: u64) -> Sounded {
        let x = self.drive_in(f, s);
        let d = self.driven(f, s);
        Sounded {
            d: Raindrop { modes: self.modes_on(f, x), env: prod(f, self.env, self.decay), ..d.0 },
            s: d.1,
            y: Some(self.ringing(f, x)),
        }
    }

    /// One sample of a recorded hit that starts at `off`; past its end the
    /// drop is over.
    pub open spec fn bank_sound(self, f: Calc, bank: Seq<Single>, off: int, s: u64, tick: Single) -> Sounded {
        let i = self.bank_pos.truncated(usize::MAX as nat) as int;
        if i + 1 >= BANK_SLOT {
            Sounded { d: Raindrop { env: Single(0), ..self }, s, y: None }
        } else {
            let fr = diff(f, self.bank_pos, rounded(i as nat));
            let a = bank[off + i];
            let b = bank[off + i + 1];
            Sounded {
                d: Raindrop { bank_pos: sum(f, self.bank_pos, self.bank_rate), ..self },
                s,
                y: Some(sum(f, prod(f, plus_prod(f, a, fr, diff(f, b, a)), self.env), tick)),
            }
        }
    }

    /// One sample of a ping.
    pub open spec fn ping_sound(self, f: Calc, s: u64, tick: Single) -> Sounded {
        Sounded {
            d: Raindrop {
                phase: sum(f, self.phase, self.step),
                env: prod(f, self.env, self.decay),
                ..self
            },
            s,
            y: Some(sum(f, prod(f, f(Op::Sin(self.phase)), self.env), tick)),
        }
    }

    /// What the drop makes of one sample.
    pub open spec fn sounded(self, f: Calc, bank: Seq<Single>, s: u64) -> Sounded {
        if self.is_over() {
            Sounded { d: self, s, y: None }
        } else {
            let tick = self.tap(f, s);
            let (d, s1) = self.tapped(f, s);
            if d.modal {
                d.modal_sound(f, s1)
            } else {
                match d.bank_off {
                    Some(off) => d.bank_sound(f, bank, off as int, s1, tick),
                    None => d.ping_sound(f, s1, tick),
                }
            }
        }
    }

    /// Its recorded hit lies in the bank, where it still sounds of one.
    pub open spec fn fits(self, bank_len: nat) -> bool {
        self.is_over() || self.modal || (self.bank_off matches Some(off) ==> off + BANK_SLOT
            <= bank_len)
    }

    fn sound_modal<F: Fn(Op) -> Single>(&mut self, f: &F, rng: &mut Rng) -> (y: Single)
        requires
            is_steady(*f),
        ensures
            old(self).modal_sound(answering(*f), old(rng)@) == (Sounded {
                d: *final(self),
                s: final(rng)@,
                y: Some(y),
            }),
    {
        let ghost g = answering(*f);
        let ghost d0 = *self;
        let ghost s0 = rng@;
        let x: Single = if Single(P_1E_MINUS_3).lt(self.exc) {
            let w: Single = hiss(f, rng);
            self.exc = times(f, self.exc, Single(P_0_982));
            let push: Single = minus(f, times(f, w, self.exc), self.exc_lp);
            self.exc_lp = add_times(f, self.exc_lp, self.exc_coef, push);
            self.exc_lp
        } else {
            Single(0)
        };
        assert(x == d0.drive_in(g, s0));
        assert(*self == d0.driven(g, s0).0);
        let y0: Single = ring(f, &mut self.modes[0], self.mode_gain[0], x);
        let y1: Single = ring(f, &mut self.modes[1], self.mode_gain[1], x);
        let y2: Single = ring(f, &mut self.modes[2], self.mode_gain[2], x);
        let y3: Single = ring(f, &mut self.modes[3], self.mode_gain[3], x);
        assert(self.modes@ =~= d0.modes_on(g, x)@);
        assert(self.modes == d0.modes_on(g, x));
        self.env = times(f, self.env, self.decay);
        let y: Single = plus(f, plus(f, plus(f, plus(f, Single(0), y0), y1), y2), y3);
        assert(y == d0.ringing(g, x));
        assert(*self == d0.modal_sound(g, s0).d);
        y
    }

    /// One sample of the drop; none where it does not sound.
    pub fn sound<F: Fn(Op) -> Single>(&mut self, f: &F, bank: &Vec<Single>, rng: &mut Rng) -> (y:
        Option<Single>)
        requires
            is_steady(*f),
            old(self).fits(bank@.len()),
        ensures
            final(self).fits(bank@.len()),
            old(self).sounded(answering(*f), bank@, old(rng)@) == (Sounded {
                d: *final(self),
                s: final(rng)@,
                y,
            }),
    {
        if self.env.lt(Single(P_1E_MINUS_6)) {
            return None;
        }
        let len: usize = bank.len();
        let ghost g = answering(*f);
        let ghost d0 = *self;
        let ghost s0 = rng@;
        let tick: Single = if Single(P_1E_MINUS_6).lt(self.click) {
            let w: Single = hiss(f, rng);
            let c: Single = times(f, w, self.click);
            self.click = times(f, self.click, Single(P_0_55));
            c
        } else {
            Single(0)
        };
        assert((*self, rng@) == d0.tapped(g, s0));
        if self.modal {
            return Some(self.sound_modal(f, rng));
        }
        match self.bank_off {
            Some(off) => {
                let i: usize = self.bank_pos.to_usize();
                if i >= BANK_SLOT - 1 {
                    self.env = Single(0);
                    return None;
                }
                assert(off + BANK_SLOT <= len);
                let fr: Single = minus(f, self.bank_pos, Single::from_usize(i));
                let a: Single = bank[off + i];
                let b: Single = bank[off + i + 1];
                self.bank_pos = plus(f, self.bank_pos, self.bank_rate);
                let v: Single = add_times(f, a, fr, minus(f, b, a));
                Some(plus(f, times(f, v, self.env), tick))
            },
            None => {
                let w: Single = ask(f, Op::Sin(self.phase));
                let v: Single = plus(f, times(f, w, self.env), tick);
                self.phase = plus(f, self.phase, self.step);
                self.env = times(f, self.env, self.decay);
                Some(v)
            },
        }
    }
}

/// A drop that is over stays over and adds nothing.
pub proof fn a_drop_that_is_over_is_silent(f: Calc, d: Raindrop, bank: Seq<Single>, s: u64)
    requires
        d.is_over(),
    ensures
        d.sounded(f, bank, s).y is None,
        d.sounded(f, bank, s).d == d,
        d.sounded(f, bank, s).s == s,
{
}

} // verus!
