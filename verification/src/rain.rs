//! Rain from its statistics: drops that can be told apart are rendered one by
//! one, where they land decides their sound, and what they fuse into is a
//! noise that comes from the surfaces that collect the rain.

use crate::ambi::{encode_gains, encoded, mix, mixed, quiet, Frame};
use crate::ambience::{FADER_TAU, FADER_TOP, ROUTE_TAU, SEEP_TAU};
use crate::arith::{
    add_times, ask, clamp_to, clamped, diff, greater, greater_of, lesser, lesser_of, minus, over,
    plus, plus_prod, power, prod, quot, raise, size, size_of, sum, times, Calc, Op,
};
use crate::bands::BandSplit;
use crate::drops::{
    glass, glass_modes, hiss, metal, metal_modes, noise, stone, stone_modes, struck, Raindrop,
    BANK_SLOT, TAU,
};
use crate::env::{
    encodings, mid_sum, retired_all, routed_all, three_current, three_ticked, tick_three,
    Environment, RouteSlot, RouteSlots,
};
use crate::filter::{lp_coef, OnePoleLp};
use crate::params::{HALF, ONE};
use crate::probe::{answering, is_steady};
use crate::rng::{advance, advanced, emit, toss, Rng};
use crate::single::{lemma_grid_increases, Single};
use crate::smooth::{left_after, Smoothed};
use vstd::prelude::*;

verus! {

/// The pattern of -1.0.
pub const P_MINUS_1_0: u32 = 0xBF80_0000;

/// The pattern of -0.4.
pub const P_MINUS_0_4: u32 = 0xBECC_CCCD;

/// The pattern of -0.25.
pub const P_MINUS_0_25: u32 = 0xBE80_0000;

/// The pattern of -0.15.
pub const P_MINUS_0_15: u32 = 0xBE19_999A;

/// The pattern of -0.1.
pub const P_MINUS_0_1: u32 = 0xBDCC_CCCD;

/// The pattern of 1e-9.
pub const P_1E_MINUS_9: u32 = 0x3089_705F;

/// The pattern of 1e-6.
pub const P_1E_MINUS_6: u32 = 0x3586_37BD;

/// The pattern of 1e-4.
pub const P_1E_MINUS_4: u32 = 0x38D1_B717;

/// The pattern of 0.004.
pub const P_0_004: u32 = 0x3B83_126F;

/// The pattern of 0.01.
pub const P_0_01: u32 = 0x3C23_D70A;

/// The pattern of 0.012.
pub const P_0_012: u32 = 0x3C44_9BA6;

/// The pattern of 0.014.
pub const P_0_014: u32 = 0x3C65_6042;

/// The pattern of 0.02.
pub const P_0_02: u32 = 0x3CA3_D70A;

/// The pattern of 0.025.
pub const P_0_025: u32 = 0x3CCC_CCCD;

/// The pattern of 0.03.
pub const P_0_03: u32 = 0x3CF5_C28F;

/// The pattern of 0.04.
pub const P_0_04: u32 = 0x3D23_D70A;

/// The pattern of 0.045.
pub const P_0_045: u32 = 0x3D38_51EC;

/// The pattern of 0.05.
pub const P_0_05: u32 = 0x3D4C_CCCD;

/// The pattern of 0.15.
pub const P_0_15: u32 = 0x3E19_999A;

/// The pattern of 0.2.
pub const P_0_2: u32 = 0x3E4C_CCCD;

/// The pattern of 0.22.
pub const P_0_22: u32 = 0x3E61_47AE;

/// The pattern of 0.24.
pub const P_0_24: u32 = 0x3E75_C28F;

/// The pattern of 0.25.
pub const P_0_25: u32 = 0x3E80_0000;

/// The pattern of 0.28.
pub const P_0_28: u32 = 0x3E8F_5C29;

/// The pattern of 0.3.
pub const P_0_3: u32 = 0x3E99_999A;

/// The pattern of 0.35.
pub const P_0_35: u32 = 0x3EB3_3333;

/// The pattern of 0.4.
pub const P_0_4: u32 = 0x3ECC_CCCD;

/// The pattern of 0.45.
pub const P_0_45: u32 = 0x3EE6_6666;

/// The pattern of 0.5.
pub const P_0_5: u32 = 0x3F00_0000;

/// The pattern of 0.55.
pub const P_0_55: u32 = 0x3F0C_CCCD;

/// The pattern of 0.6.
pub const P_0_6: u32 = 0x3F19_999A;

/// The pattern of 0.72.
pub const P_0_72: u32 = 0x3F38_51EC;

/// The pattern of 0.8.
pub const P_0_8: u32 = 0x3F4C_CCCD;

/// The pattern of 0.85.
pub const P_0_85: u32 = 0x3F59_999A;

/// The pattern of 0.9.
pub const P_0_9: u32 = 0x3F66_6666;

/// The pattern of 1.2.
pub const P_1_2: u32 = 0x3F99_999A;

/// The pattern of 1.5.
pub const P_1_5: u32 = 0x3FC0_0000;

/// The pattern of 1.6.
pub const P_1_6: u32 = 0x3FCC_CCCD;

/// The pattern of 2.5.
pub const P_2_5: u32 = 0x4020_0000;

/// The pattern of 6.0.
pub const P_6_0: u32 = 0x40C0_0000;

/// The pattern of 260.0.
pub const P_260_0: u32 = 0x4382_0000;

/// The pattern of 1400.0.
pub const P_1400_0: u32 = 0x44AF_0000;

/// The pattern of 3000.0.
pub const P_3000_0: u32 = 0x453B_8000;

/// The pattern of 4200.0.
pub const P_4200_0: u32 = 0x4583_4000;

/// The pattern of 5200.0.
pub const P_5200_0: u32 = 0x45A2_8000;

/// How many drops sound at once.
pub const MAX_DROPS: usize = 32;

/// The first state of the dice.
pub const SEED: u64 = 0x5EED_5EED;

/// A pane of the listener's room: its direction, encoded, and its level.
#[derive(Clone, Copy, Debug)]
pub struct Pane {
    pub enc: Frame,
    pub gain: Single,
}

#[derive(Debug)]
pub struct Rain {
    pub intensity: Smoothed,
    /// The fader.
    pub gain: Smoothed,
    pub rng: Rng,
    pub drops: Vec<Raindrop>,
    pub next: usize,
    /// Time to the next drop, at a rate of one.
    pub spawn_in: Single,
    pub hiss_lo: Single,
    pub hiss_hi: Single,
    pub seep_lo: Single,
    pub seep_hi: Single,
    pub drum_lp: Single,
    /// Recorded hits, each of one slot.
    pub bank: Vec<Single>,
    pub routes: RouteSlots,
    pub windows: [Pane; 4],
    pub n_windows: usize,
    /// 0 is open sky, 1 a sealed room.
    pub enclosure: Smoothed,
    /// The share of sky right overhead.
    pub roof: Smoothed,
    pub seep: [Smoothed; 3],
    pub seep_split: BandSplit,
    pub sample_rate: Single,
    pub up_enc: Frame,
    /// The wet ground around the listener.
    pub ground_enc: Frame,
}

/// The square of a toss.
pub open spec fn sq(f: Calc, u: Single) -> Single {
    prod(f, u, u)
}

/// The cube of a toss.
pub open spec fn cube(f: Calc, u: Single) -> Single {
    prod(f, prod(f, u, u), u)
}

/// The direction at an azimuth and an elevation, encoded.
pub open spec fn aimed(f: Calc, az: Single, el: Single) -> Frame {
    let ce = f(Op::Cos(el));
    encoded(f, [prod(f, f(Op::Cos(az)), ce), prod(f, f(Op::Sin(az)), ce), f(Op::Sin(el))])
}

fn aim<F: Fn(Op) -> Single>(f: &F, az: Single, el: Single) -> (r: Frame)
    requires
        is_steady(*f),
    ensures
        r == aimed(answering(*f), az, el),
{
    let se: Single = ask(f, Op::Sin(el));
    let ce: Single = ask(f, Op::Cos(el));
    let ca: Single = ask(f, Op::Cos(az));
    let sa: Single = ask(f, Op::Sin(az));
    let d: [Single; 3] = [times(f, ca, ce), times(f, sa, ce), se];
    let ghost g = answering(*f);
    let ghost goal: [Single; 3] = [
        prod(g, g(Op::Cos(az)), g(Op::Cos(el))),
        prod(g, g(Op::Sin(az)), g(Op::Cos(el))),
        g(Op::Sin(el)),
    ];
    assert(d@ =~= goal@);
    assert(d == goal);
    encode_gains(f, d)
}

/// The recorded hit that an output of the dice picks from `n`.
pub open spec fn hit_at(x: u64, n: nat) -> usize {
    (((x as usize) as int % n as int) * BANK_SLOT) as usize
}

/// A drop about to land, and the dice.
pub ghost struct Landing {
    pub d: Raindrop,
    pub s: u64,
}

/// A ping: its pitch up to `1400 + span`, its loudness, and its tap.
pub open spec fn pinged(
    f: Calc,
    d: Raindrop,
    pitch: Single,
    span: Single,
    env: Single,
    tap: Single,
    tau: Single,
    sample_rate: Single,
) -> Raindrop {
    Raindrop {
        bank_off: None,
        modal: false,
        step: quot(
            f,
            prod(f, Single(TAU), plus_prod(f, Single(P_1400_0), sq(f, pitch), span)),
            sample_rate,
        ),
        env,
        click: prod(f, env, tap),
        decay: left_after(f, tau, sample_rate),
        ..d
    }
}

fn ping<F: Fn(Op) -> Single>(
    f: &F,
    d: &mut Raindrop,
    pitch: Single,
    span: Single,
    env: Single,
    tap: Single,
    tau: Single,
    sample_rate: Single,
)
    requires
        is_steady(*f),
    ensures
        *final(d) == pinged(answering(*f), *old(d), pitch, span, env, tap, tau, sample_rate),
{
    let freq: Single = add_times(f, Single(P_1400_0), times(f, pitch, pitch), span);
    d.bank_off = None;
    d.modal = false;
    d.step = over(f, times(f, Single(TAU), freq), sample_rate);
    d.env = env;
    d.click = times(f, env, tap);
    let decay: Smoothed = Smoothed::new(f, Single(0), tau, sample_rate);
    d.decay = decay.coef;
}

/// The first slot at which the running sum of mid gains reaches `pick`, from
/// slot `i` on; 8 where none does.
pub open spec fn route_at(f: Calc, slots: Seq<RouteSlot>, pick: Single, i: int, acc: Single) -> int
    decreases 8 - i,
{
    if i < 0 || i >= 8 {
        8
    } else {
        let now = sum(f, acc, slots[i].gains@[1].cur);
        if pick.at_most(now) {
            i
        } else {
            route_at(f, slots, pick, i + 1, now)
        }
    }
}

/// The first pane of `n` at which the running sum of levels reaches `pick`,
/// from pane `i` on; the first pane where none does.
pub open spec fn pane_at(f: Calc, panes: Seq<Pane>, n: int, pick: Single, i: int, acc: Single) -> int
    decreases n - i,
{
    if i < 0 || i >= n {
        0
    } else {
        let now = sum(f, acc, panes[i].gain);
        if pick.at_most(now) {
            i
        } else {
            pane_at(f, panes, n, pick, i + 1, now)
        }
    }
}

/// The sum of the first `n` panes' levels.
pub open spec fn pane_sum(f: Calc, panes: Seq<Pane>, n: int) -> Single
    decreases n,
{
    if n <= 0 {
        Single(0)
    } else if n == 1 {
        panes[0].gain
    } else {
        sum(f, pane_sum(f, panes, n - 1), panes[n - 1].gain)
    }
}

impl Rain {
    pub open spec fn wf(self) -> bool {
        &&& self.drops@.len() == MAX_DROPS
        &&& self.next < MAX_DROPS
        &&& self.n_windows <= 4
        &&& forall|i: int|
            0 <= i < MAX_DROPS ==> (#[trigger] self.drops@[i]).fits(self.bank@.len())
    }

    /// How many recorded hits there are.
    pub open spec fn hits(self) -> nat {
        self.bank@.len() / BANK_SLOT as nat
    }

    // --- a drop through an opening

    /// A drop through an opening of gain `g`, synthetic.
    pub open spec fn opening_ping(self, f: Calc, d: Raindrop, g: Single, enc: Frame, s: u64) -> Landing {
        let env = prod(
            f,
            plus_prod(f, Single(P_0_012), Single(P_0_03), sq(f, toss(advanced(s, 2)))),
            lesser(g, Single(P_1_2)),
        );
        let p = pinged(
            f,
            d,
            toss(advanced(s, 1)),
            Single(P_4200_0),
            env,
            Single(P_0_4),
            plus_prod(f, Single(P_0_004), Single(P_0_012), toss(advanced(s, 3))),
            self.sample_rate,
        );
        Landing { d: Raindrop { enc, ..p }, s: advanced(s, 3) }
    }

    /// A drop through an opening of gain `g`, recorded.
    pub open spec fn opening_hit(self, f: Calc, d: Raindrop, g: Single, enc: Frame, s: u64) -> Landing {
        Landing {
            d: Raindrop {
                bank_off: Some(hit_at(emit(advanced(s, 1)), self.hits())),
                bank_pos: Single(0),
                bank_rate: plus_prod(f, Single(P_0_85), toss(advanced(s, 2)), Single(P_0_3)),
                env: prod(
                    f,
                    plus_prod(f, Single(P_0_012), Single(P_0_03), toss(advanced(s, 3))),
                    lesser(g, Single(P_1_2)),
                ),
                decay: Single(ONE),
                click: Single(0),
                enc,
                ..d
            },
            s: advanced(s, 3),
        }
    }

    /// A drop through an opening.
    pub open spec fn through_opening(self, f: Calc, d: Raindrop, route_w: Single, s: u64) -> Landing {
        let pick = prod(f, toss(advance(s)), route_w);
        let i = route_at(f, self.routes.slots@, pick, 0, Single(0));
        let enc = if i < 8 {
            self.routes.slots@[i].enc
        } else {
            self.routes.slots@[0].enc
        };
        let g = if i < 8 {
            self.routes.slots@[i].gains@[1].cur
        } else {
            Single(0)
        };
        let e = Raindrop { surface: true, ..d };
        let s1 = advance(s);
        if self.hits() > 0 {
            if toss(advance(s1)).below(Single(P_0_4)) {
                self.opening_hit(f, e, g, enc, advance(s1))
            } else {
                self.opening_ping(f, e, g, enc, advance(s1))
            }
        } else {
            self.opening_ping(f, e, g, enc, s1)
        }
    }

    // --- a drop on the structure

    /// A recorded hit on pane `wi`.
    pub open spec fn pane_hit(self, f: Calc, d: Raindrop, p: Pane, lg: Single, s: u64) -> Landing {
        let env = prod(f, plus_prod(f, Single(P_0_025), Single(P_0_05), sq(f, toss(advanced(s, 3)))), lg);
        Landing {
            d: Raindrop {
                bank_off: Some(hit_at(emit(advanced(s, 1)), self.hits())),
                bank_pos: Single(0),
                bank_rate: plus_prod(f, Single(P_0_8), toss(advanced(s, 2)), Single(P_0_3)),
                env,
                decay: Single(ONE),
                click: prod(f, env, Single(P_0_25)),
                modal: false,
                enc: p.enc,
                ..d
            },
            s: advanced(s, 3),
        }
    }

    /// A tick on a pane.
    pub open spec fn pane_tick(self, f: Calc, d: Raindrop, p: Pane, lg: Single, s: u64) -> Landing {
        let level = prod(f, plus_prod(f, Single(P_0_02), Single(P_0_045), sq(f, toss(advance(s)))), lg);
        let m = struck(f, d, glass_modes(), level, Single(ONE), advance(s), self.sample_rate);
        Landing { d: Raindrop { enc: p.enc, ..m }, s: advanced(advance(s), 9) }
    }

    /// A drop on a pane; distant panes are quieter.
    pub open spec fn on_pane(self, f: Calc, d: Raindrop, pick: Single, s: u64) -> Landing {
        let wi = pane_at(f, self.windows@, self.n_windows as int, pick, 0, Single(0));
        let p = self.windows@[wi];
        let lg = prod(f, lesser(prod(f, Single(P_1_6), p.gain), Single(ONE)), Single(P_0_24));
        if self.hits() > 0 {
            if toss(advance(s)).below(Single(P_0_3)) {
                self.pane_hit(f, d, p, lg, advance(s))
            } else {
                self.pane_tick(f, d, p, lg, advance(s))
            }
        } else {
            self.pane_tick(f, d, p, lg, s)
        }
    }

    /// A drop on the roof: stone, or now and then a metal ledge.
    pub open spec fn on_roof(self, f: Calc, d: Raindrop, az: Single, s: u64) -> Landing {
        let u = toss(advanced(s, 2));
        let is_metal = toss(advanced(s, 1)).below(Single(P_0_15));
        let level = if is_metal {
            plus_prod(f, Single(P_0_012), Single(P_0_03), sq(f, u))
        } else {
            plus_prod(f, Single(P_0_025), Single(P_0_05), sq(f, u))
        };
        let t = if is_metal {
            metal_modes()
        } else {
            stone_modes()
        };
        let s2 = advanced(s, 2);
        let m = struck(f, d, t, prod(f, level, Single(P_0_24)), Single(P_0_35), s2, self.sample_rate);
        let s3 = advance(advanced(s2, 9));
        let el = lesser(plus_prod(f, Single(ONE), Single(P_0_4), toss(s3)), Single(P_1_5));
        Landing { d: Raindrop { enc: aimed(f, az, el), ..m }, s: s3 }
    }

    /// A knock on the walls around.
    pub open spec fn on_shell(self, f: Calc, d: Raindrop, az: Single, s: u64) -> Landing {
        let s1 = advance(s);
        let level = prod(f, plus_prod(f, Single(P_0_012), Single(P_0_025), sq(f, toss(s1))), Single(P_0_24));
        let m = struck(f, d, stone_modes(), level, Single(P_0_35), s1, self.sample_rate);
        let s2 = advance(advanced(s1, 9));
        let el = plus_prod(f, Single(P_MINUS_0_1), Single(P_0_5), toss(s2));
        Landing { d: Raindrop { enc: aimed(f, az, el), ..m }, s: s2 }
    }

    /// What the panes weigh.
    pub open spec fn pane_weight(self, f: Calc) -> Single {
        prod(f, Single(P_0_35), pane_sum(f, self.windows@, self.n_windows as int))
    }

    /// A drop on the structure: on a pane, the roof or the shell, or fused into
    /// the noise without a sound of its own.
    pub open spec fn on_structure(self, f: Calc, d: Raindrop, roof: Single, az: Single, s: u64) -> Landing {
        let w = self.pane_weight(f);
        let wr = sum(f, w, roof);
        let knocks = sum(f, wr, Single(P_0_15));
        let pick = prod(f, toss(advance(s)), sum(f, knocks, Single(P_0_45)));
        let e = Raindrop { surface: true, ..d };
        let s1 = advance(s);
        if knocks.at_most(pick) {
            Landing { d: Raindrop { env: Single(0), ..e }, s: s1 }
        } else if pick.below(w) {
            self.on_pane(f, e, pick, s1)
        } else if pick.below(wr) {
            self.on_roof(f, e, az, s1)
        } else {
            self.on_shell(f, e, az, s1)
        }
    }

    // --- a drop in the open

    /// A recorded splat on the ground.
    pub open spec fn ground_hit(self, f: Calc, d: Raindrop, az: Single, s: u64) -> Landing {
        Landing {
            d: Raindrop {
                bank_off: Some(hit_at(emit(advanced(s, 1)), self.hits())),
                bank_pos: Single(0),
                bank_rate: plus_prod(f, Single(P_0_85), toss(advanced(s, 2)), Single(P_0_3)),
                env: plus_prod(f, Single(P_0_01), Single(P_0_02), sq(f, toss(advanced(s, 3)))),
                decay: Single(ONE),
                click: Single(0),
                modal: false,
                enc: aimed(f, az, plus_prod(f, Single(P_MINUS_0_25), Single(P_0_3), toss(advanced(s, 4)))),
                ..d
            },
            s: advanced(s, 4),
        }
    }

    /// A ping around the listener.
    pub open spec fn air_ping(self, f: Calc, d: Raindrop, az: Single, s: u64) -> Landing {
        let p = pinged(
            f,
            d,
            toss(advanced(s, 1)),
            Single(P_5200_0),
            plus_prod(f, Single(P_0_01), Single(P_0_03), cube(f, toss(advanced(s, 2)))),
            Single(P_0_35),
            plus_prod(f, Single(P_0_004), Single(P_0_014), toss(advanced(s, 3))),
            self.sample_rate,
        );
        let el = plus_prod(f, Single(P_MINUS_0_15), Single(P_0_6), toss(advanced(s, 4)));
        Landing { d: Raindrop { enc: aimed(f, az, el), ..p }, s: advanced(s, 4) }
    }

    /// A drop in the open.
    pub open spec fn in_the_open(self, f: Calc, d: Raindrop, az: Single, s: u64) -> Landing {
        let e = Raindrop { surface: false, ..d };
        if self.hits() > 0 {
            if toss(advance(s)).below(Single(P_0_2)) {
                self.ground_hit(f, e, az, advance(s))
            } else {
                self.air_ping(f, e, az, advance(s))
            }
        } else {
            self.air_ping(f, e, az, s)
        }
    }

    /// A drop that comes through an opening rather than onto something: how
    /// likely it is.
    pub open spec fn opening_share(f: Calc, route_w: Single) -> Single {
        lesser(prod(f, route_w, Single(P_0_25)), Single(P_0_25))
    }

    /// Where the next drop lands.
    pub open spec fn landed(self, f: Calc, enclosure: Single, roof: Single) -> Landing {
        let d = Raindrop { phase: Single(0), ..self.drops@[self.next as int] };
        let s = advance(self.rng@);
        let az = prod(f, toss(s), Single(TAU));
        let route_w = mid_sum(f, self.routes.slots@, 8);
        let inside = Single(P_0_3).below(enclosure);
        if inside && toss(advance(s)).below(Rain::opening_share(f, route_w)) {
            self.through_opening(f, d, route_w, advance(s))
        } else {
            let s1 = if inside {
                advance(s)
            } else {
                s
            };
            if toss(advance(s1)).below(prod(f, enclosure, Single(P_0_9))) {
                self.on_structure(f, d, roof, az, advance(s1))
            } else {
                self.in_the_open(f, d, az, advance(s1))
            }
        }
    }
}

/// A recorded hit lies in the bank.
proof fn lemma_hit(x: u64, len: nat)
    requires
        len / BANK_SLOT as nat > 0,
        len <= usize::MAX,
    ensures
        hit_at(x, len / BANK_SLOT as nat) == ((x as usize) as int % (len / BANK_SLOT as nat) as int)
            * BANK_SLOT,
        hit_at(x, len / BANK_SLOT as nat) + BANK_SLOT <= len,
{
    let n = (len / BANK_SLOT as nat) as int;
    let m = (x as usize) as int % n;
    assert(0 <= m < n);
    assert(m * BANK_SLOT + BANK_SLOT <= n * BANK_SLOT);
    assert(n * BANK_SLOT <= len);
}

impl Rain {
    /// Which recorded hit to play.
    fn pick_hit(&mut self) -> (r: usize)
        requires
            old(self).hits() > 0,
        ensures
            *final(self) == (Rain { rng: final(self).rng, ..*old(self) }),
            final(self).rng@ == advance(old(self).rng@),
            r == hit_at(emit(final(self).rng@), old(self).hits()),
            r + BANK_SLOT <= old(self).bank@.len(),
    {
        let len: usize = self.bank.len();
        let n: usize = len / BANK_SLOT;
        let x: u64 = self.rng.next_u64();
        proof {
            lemma_hit(x, len as nat);
        }
        let m: usize = #[verifier::truncate]
        (x as usize) % n;
        m * BANK_SLOT
    }

    /// The next toss.
    fn roll(&mut self) -> (r: Single)
        ensures
            *final(self) == (Rain { rng: final(self).rng, ..*old(self) }),
            final(self).rng@ == advance(old(self).rng@),
            r == toss(final(self).rng@),
    {
        self.rng.next_f32()
    }

    fn land_opening_ping<F: Fn(Op) -> Single>(
        &mut self,
        f: &F,
        d: &mut Raindrop,
        g: Single,
        enc: Frame,
    )
        requires
            is_steady(*f),
        ensures
            *final(self) == (Rain { rng: final(self).rng, ..*old(self) }),
            final(d).bank_off is None,
            old(self).opening_ping(answering(*f), *old(d), g, enc, old(self).rng@) == (Landing {
                d: *final(d),
                s: final(self).rng@,
            }),
    {
        proof {
            reveal_with_fuel(advanced, 4);
        }
        let pitch: Single = self.roll();
        let u: Single = self.roll();
        let loud: Single = add_times(f, Single(P_0_012), Single(P_0_03), times(f, u, u));
        let env: Single = times(f, loud, lesser_of(g, Single(P_1_2)));
        let v: Single = self.roll();
        let tau: Single = add_times(f, Single(P_0_004), Single(P_0_012), v);
        ping(f, d, pitch, Single(P_4200_0), env, Single(P_0_4), tau, self.sample_rate);
        d.enc = enc;
    }

    fn land_opening<F: Fn(Op) -> Single>(&mut self, f: &F, d: &mut Raindrop, route_w: Single)
        requires
            is_steady(*f),
            old(d).fits(old(self).bank@.len()),
        ensures
            *final(self) == (Rain { rng: final(self).rng, ..*old(self) }),
            final(d).fits(old(self).bank@.len()),
            old(self).through_opening(answering(*f), *old(d), route_w, old(self).rng@) == (
            Landing { d: *final(d), s: final(self).rng@ }),
    {
        let ghost gf = answering(*f);
        let u: Single = self.roll();
        let pick: Single = times(f, u, route_w);
        let mut i: usize = 0;
        let mut acc: Single = Single(0);
        let mut found: bool = false;
        while i < 8 && !found
            invariant
                i <= 8,
                is_steady(*f),
                gf == answering(*f),
                self.routes.slots@.len() == 8,
                found ==> i < 8 && i == route_at(gf, self.routes.slots@, pick, 0, Single(0)),
                !found ==> route_at(gf, self.routes.slots@, pick, 0, Single(0)) == route_at(
                    gf,
                    self.routes.slots@,
                    pick,
                    i as int,
                    acc,
                ),
            decreases 8 - i, (if found {
                0int
            } else {
                1int
            }),
        {
            acc = plus(f, acc, self.routes.slots[i].gains[1].current());
            if pick.le(acc) {
                found = true;
            } else {
                i = i + 1;
            }
        }
        let enc: Frame = if found {
            self.routes.slots[i].enc
        } else {
            self.routes.slots[0].enc
        };
        let g: Single = if found {
            self.routes.slots[i].gains[1].current()
        } else {
            Single(0)
        };
        d.surface = true;
        if self.bank.len() / BANK_SLOT > 0 {
            let w: Single = self.roll();
            if w.lt(Single(P_0_4)) {
                proof {
                    reveal_with_fuel(advanced, 4);
                }
                let off: usize = self.pick_hit();
                let r: Single = self.roll();
                let v: Single = self.roll();
                d.bank_off = Some(off);
                d.bank_pos = Single(0);
                d.bank_rate = add_times(f, Single(P_0_85), r, Single(P_0_3));
                let loud: Single = add_times(f, Single(P_0_012), Single(P_0_03), v);
                d.env = times(f, loud, lesser_of(g, Single(P_1_2)));
                d.decay = Single(ONE);
                d.click = Single(0);
                d.enc = enc;
                return;
            }
        }
        self.land_opening_ping(f, d, g, enc);
    }

    fn land_pane_tick<F: Fn(Op) -> Single>(&mut self, f: &F, d: &mut Raindrop, p: Pane, lg: Single)
        requires
            is_steady(*f),
        ensures
            *final(self) == (Rain { rng: final(self).rng, ..*old(self) }),
            final(d).bank_off is None,
            old(self).pane_tick(answering(*f), *old(d), p, lg, old(self).rng@) == (Landing {
                d: *final(d),
                s: final(self).rng@,
            }),
    {
        let u: Single = self.roll();
        let level: Single = times(f, add_times(f, Single(P_0_02), Single(P_0_045), times(f, u, u)), lg);
        let table: [crate::drops::Mode; 4] = glass();
        d.setup_modal(f, &table, level, Single(ONE), &mut self.rng, self.sample_rate);
        d.enc = p.enc;
    }

    fn land_pane<F: Fn(Op) -> Single>(&mut self, f: &F, d: &mut Raindrop, pick: Single)
        requires
            is_steady(*f),
            old(self).n_windows <= 4,
            old(d).fits(old(self).bank@.len()),
        ensures
            *final(self) == (Rain { rng: final(self).rng, ..*old(self) }),
            final(d).fits(old(self).bank@.len()),
            old(self).on_pane(answering(*f), *old(d), pick, old(self).rng@) == (Landing {
                d: *final(d),
                s: final(self).rng@,
            }),
    {
        let ghost gf = answering(*f);
        let ghost n = self.n_windows as int;
        let mut i: usize = 0;
        let mut acc: Single = Single(0);
        let mut found: bool = false;
        while i < self.n_windows && !found
            invariant
                i <= self.n_windows <= 4,
                n == self.n_windows,
                is_steady(*f),
                gf == answering(*f),
                self.windows@.len() == 4,
                found ==> i < n && i == pane_at(gf, self.windows@, n, pick, 0, Single(0)),
                !found ==> pane_at(gf, self.windows@, n, pick, 0, Single(0)) == pane_at(
                    gf,
                    self.windows@,
                    n,
                    pick,
                    i as int,
                    acc,
                ),
            decreases self.n_windows - i, (if found {
                0int
            } else {
                1int
            }),
        {
            acc = plus(f, acc, self.windows[i].gain);
            if pick.le(acc) {
                found = true;
            } else {
                i = i + 1;
            }
        }
        let wi: usize = if found {
            i
        } else {
            0
        };
        let p: Pane = self.windows[wi];
        let near: Single = lesser_of(times(f, Single(P_1_6), p.gain), Single(ONE));
        let lg: Single = times(f, near, Single(P_0_24));
        if self.bank.len() / BANK_SLOT > 0 {
            let w: Single = self.roll();
            if w.lt(Single(P_0_3)) {
                proof {
                    reveal_with_fuel(advanced, 4);
                }
                let off: usize = self.pick_hit();
                let r: Single = self.roll();
                let v: Single = self.roll();
                d.bank_off = Some(off);
                d.bank_pos = Single(0);
                d.bank_rate = add_times(f, Single(P_0_8), r, Single(P_0_3));
                d.env = times(f, add_times(f, Single(P_0_025), Single(P_0_05), times(f, v, v)), lg);
                d.decay = Single(ONE);
                d.click = times(f, d.env, Single(P_0_25));
                d.modal = false;
                d.enc = p.enc;
                return;
            }
        }
        self.land_pane_tick(f, d, p, lg);
    }

    fn land_roof<F: Fn(Op) -> Single>(&mut self, f: &F, d: &mut Raindrop, az: Single)
        requires
            is_steady(*f),
        ensures
            *final(self) == (Rain { rng: final(self).rng, ..*old(self) }),
            final(d).bank_off is None,
            old(self).on_roof(answering(*f), *old(d), az, old(self).rng@) == (Landing {
                d: *final(d),
                s: final(self).rng@,
            }),
    {
        proof {
            reveal_with_fuel(advanced, 3);
        }
        let w: Single = self.roll();
        let is_metal: bool = w.lt(Single(P_0_15));
        let u: Single = self.roll();
        let uu: Single = times(f, u, u);
        let level: Single = if is_metal {
            add_times(f, Single(P_0_012), Single(P_0_03), uu)
        } else {
            add_times(f, Single(P_0_025), Single(P_0_05), uu)
        };
        let table: [crate::drops::Mode; 4] = if is_metal {
            metal()
        } else {
            stone()
        };
        let knock: Single = times(f, level, Single(P_0_24));
        d.setup_modal(f, &table, knock, Single(P_0_35), &mut self.rng, self.sample_rate);
        let v: Single = self.roll();
        let el: Single = lesser_of(add_times(f, Single(ONE), Single(P_0_4), v), Single(P_1_5));
        d.enc = aim(f, az, el);
    }

    fn land_shell<F: Fn(Op) -> Single>(&mut self, f: &F, d: &mut Raindrop, az: Single)
        requires
            is_steady(*f),
        ensures
            *final(self) == (Rain { rng: final(self).rng, ..*old(self) }),
            final(d).bank_off is None,
            old(self).on_shell(answering(*f), *old(d), az, old(self).rng@) == (Landing {
                d: *final(d),
                s: final(self).rng@,
            }),
    {
        let u: Single = self.roll();
        let level: Single = times(f, add_times(f, Single(P_0_012), Single(P_0_025), times(f, u, u)), Single(P_0_24));
        let table: [crate::drops::Mode; 4] = stone();
        d.setup_modal(f, &table, level, Single(P_0_35), &mut self.rng, self.sample_rate);
        let v: Single = self.roll();
        let el: Single = add_times(f, Single(P_MINUS_0_1), Single(P_0_5), v);
        d.enc = aim(f, az, el);
    }

    /// What the panes weigh.
    fn weigh_panes<F: Fn(Op) -> Single>(&self, f: &F) -> (r: Single)
        requires
            is_steady(*f),
            self.n_windows <= 4,
        ensures
            r == self.pane_weight(answering(*f)),
    {
        let ghost g = answering(*f);
        let mut acc: Single = if self.n_windows == 0 {
            Single(0)
        } else {
            self.windows[0].gain
        };
        let mut i: usize = 1;
        while i < self.n_windows
            invariant
                1 <= i,
                self.n_windows <= 4,
                self.windows@.len() == 4,
                i <= self.n_windows || self.n_windows == 0,
                is_steady(*f),
                g == answering(*f),
                self.n_windows > 0 ==> acc == pane_sum(g, self.windows@, i as int),
                self.n_windows == 0 ==> acc == Single(0),
            decreases self.n_windows - i,
        {
            acc = plus(f, acc, self.windows[i].gain);
            i = i + 1;
        }
        times(f, Single(P_0_35), acc)
    }

    fn land_structure<F: Fn(Op) -> Single>(
        &mut self,
        f: &F,
        d: &mut Raindrop,
        roof: Single,
        az: Single,
    )
        requires
            is_steady(*f),
            old(self).n_windows <= 4,
            old(d).fits(old(self).bank@.len()),
        ensures
            *final(self) == (Rain { rng: final(self).rng, ..*old(self) }),
            final(d).fits(old(self).bank@.len()),
            old(self).on_structure(answering(*f), *old(d), roof, az, old(self).rng@) == (Landing {
                d: *final(d),
                s: final(self).rng@,
            }),
    {
        let w: Single = self.weigh_panes(f);
        let wr: Single = plus(f, w, roof);
        let knocks: Single = plus(f, wr, Single(P_0_15));
        let total: Single = plus(f, knocks, Single(P_0_45));
        d.surface = true;
        let u: Single = self.roll();
        let pick: Single = times(f, u, total);
        if knocks.le(pick) {
            d.env = Single(0);
            proof {
                lemma_grid_increases(0, P_1E_MINUS_6 as nat);
                assert(d.is_over());
            }
        } else if pick.lt(w) {
            self.land_pane(f, d, pick);
        } else if pick.lt(wr) {
            self.land_roof(f, d, az);
        } else {
            self.land_shell(f, d, az);
        }
    }

    fn land_open<F: Fn(Op) -> Single>(&mut self, f: &F, d: &mut Raindrop, az: Single)
        requires
            is_steady(*f),
            old(d).fits(old(self).bank@.len()),
        ensures
            *final(self) == (Rain { rng: final(self).rng, ..*old(self) }),
            final(d).fits(old(self).bank@.len()),
            old(self).in_the_open(answering(*f), *old(d), az, old(self).rng@) == (Landing {
                d: *final(d),
                s: final(self).rng@,
            }),
    {
        proof {
            reveal_with_fuel(advanced, 5);
        }
        d.surface = false;
        if self.bank.len() / BANK_SLOT > 0 {
            let w: Single = self.roll();
            if w.lt(Single(P_0_2)) {
                let off: usize = self.pick_hit();
                let r: Single = self.roll();
                let v: Single = self.roll();
                let e: Single = self.roll();
                d.bank_off = Some(off);
                d.bank_pos = Single(0);
                d.bank_rate = add_times(f, Single(P_0_85), r, Single(P_0_3));
                d.env = add_times(f, Single(P_0_01), Single(P_0_02), times(f, v, v));
                d.decay = Single(ONE);
                d.click = Single(0);
                d.modal = false;
                let el: Single = add_times(f, Single(P_MINUS_0_25), Single(P_0_3), e);
                d.enc = aim(f, az, el);
                return;
            }
        }
        let pitch: Single = self.roll();
        let u: Single = self.roll();
        let env: Single = add_times(f, Single(P_0_01), Single(P_0_03), times(f, times(f, u, u), u));
        let v: Single = self.roll();
        let tau: Single = add_times(f, Single(P_0_004), Single(P_0_014), v);
        ping(f, d, pitch, Single(P_5200_0), env, Single(P_0_35), tau, self.sample_rate);
        let e: Single = self.roll();
        let el: Single = add_times(f, Single(P_MINUS_0_15), Single(P_0_6), e);
        d.enc = aim(f, az, el);
    }

    /// Let the next drop fall.
    pub fn spawn_drop<F: Fn(Op) -> Single>(&mut self, f: &F, enclosure: Single, roof: Single)
        requires
            is_steady(*f),
            old(self).wf(),
        ensures
            final(self).wf(),
            *final(self) == (Rain {
                rng: final(self).rng,
                drops: final(self).drops,
                next: final(self).next,
                ..*old(self)
            }),
            final(self).next == (if old(self).next + 1 == MAX_DROPS {
                0
            } else {
                old(self).next + 1
            }),
            ({
                let l = old(self).landed(answering(*f), enclosure, roof);
                &&& final(self).drops@ == old(self).drops@.update(old(self).next as int, l.d)
                &&& final(self).rng@ == l.s
            }),
    {
        let ghost was = *self;
        let at: usize = self.next;
        assert(self.drops@[at as int].fits(self.bank@.len()));
        let mut d: Raindrop = self.drops[at];
        d.phase = Single(0);
        let turn: Single = self.roll();
        let az: Single = times(f, turn, Single(TAU));
        let route_w: Single = self.routes.total_mid(f);
        let inside: bool = Single(P_0_3).lt(enclosure);
        let mut opening: bool = false;
        if inside {
            let share: Single = lesser_of(times(f, route_w, Single(P_0_25)), Single(P_0_25));
            let u: Single = self.roll();
            opening = u.lt(share);
        }
        if opening {
            self.land_opening(f, &mut d, route_w);
        } else {
            let u: Single = self.roll();
            if u.lt(times(f, enclosure, Single(P_0_9))) {
                self.land_structure(f, &mut d, roof, az);
            } else {
                self.land_open(f, &mut d, az);
            }
        }
        assert(was.landed(answering(*f), enclosure, roof) == (Landing { d, s: self.rng@ }));
        self.drops.set(at, d);
        self.next = if at == MAX_DROPS - 1 {
            0
        } else {
            at + 1
        };
    }
}

/// A drop that never fell.
pub open spec fn no_drop() -> Raindrop {
    let z = Single(0);
    Raindrop {
        phase: z,
        step: z,
        env: z,
        decay: z,
        click: z,
        surface: false,
        bank_off: None,
        bank_pos: z,
        bank_rate: Single(ONE),
        modal: false,
        modes: [[z, z, z, z], [z, z, z, z], [z, z, z, z], [z, z, z, z]],
        mode_gain: [z, z, z, z],
        exc: z,
        exc_lp: z,
        exc_coef: Single(P_0_3),
        enc: quiet(),
    }
}

fn dry_drop() -> (r: Raindrop)
    ensures
        r == no_drop(),
{
    let z: Single = Single(0);
    let m: [Single; 4] = [z, z, z, z];
    let r: Raindrop = Raindrop {
        phase: z,
        step: z,
        env: z,
        decay: z,
        click: z,
        surface: false,
        bank_off: None,
        bank_pos: z,
        bank_rate: Single(ONE),
        modal: false,
        modes: [m, m, m, m],
        mode_gain: m,
        exc: z,
        exc_lp: z,
        exc_coef: Single(P_0_3),
        enc: [z, z, z, z, z, z, z, z, z],
    };
    proof {
        let goal = no_drop();
        assert(m@ =~= goal.mode_gain@);
        assert(goal.modes@[0]@ =~= m@);
        assert(goal.modes@[1]@ =~= m@);
        assert(goal.modes@[2]@ =~= m@);
        assert(goal.modes@[3]@ =~= m@);
        assert(r.modes@ =~= goal.modes@);
        assert(r.enc@ =~= goal.enc@);
        assert(r.modes == goal.modes && r.mode_gain == goal.mode_gain && r.enc == goal.enc);
    }
    r
}

/// Sample `i` of a bank as it is kept: dulled by a lowpass that starts afresh
/// with each hit.
pub open spec fn dulled(f: Calc, coef: Single, s: Seq<Single>, i: int) -> Single
    decreases i,
{
    let prev = if i <= 0 || i % BANK_SLOT as int == 0 {
        Single(0)
    } else {
        dulled(f, coef, s, i - 1)
    };
    plus_prod(f, prev, coef, diff(f, s[i], prev))
}

impl Rain {
    /// Dry and fresh.
    pub open spec fn is_fresh(self, f: Calc, sample_rate: Single) -> bool {
        &&& self.intensity == Smoothed::at(Single(0), left_after(f, Single(P_6_0), sample_rate))
        &&& self.gain == Smoothed::at(Single(ONE), left_after(f, Single(FADER_TAU), sample_rate))
        &&& self.rng@ == SEED
        &&& forall|i: int| 0 <= i < MAX_DROPS ==> #[trigger] self.drops@[i] == no_drop()
        &&& self.next == 0
        &&& self.spawn_in == Single(0)
        &&& self.hiss_lo == Single(0)
        &&& self.hiss_hi == Single(0)
        &&& self.seep_lo == Single(0)
        &&& self.seep_hi == Single(0)
        &&& self.drum_lp == Single(0)
        &&& self.bank@.len() == 0
        &&& forall|i: int|
            0 <= i < 8 ==> #[trigger] self.routes.slots@[i] == RouteSlots::blank(
                f,
                sample_rate,
                Single(ROUTE_TAU),
            )
        &&& forall|i: int|
            0 <= i < 4 ==> #[trigger] self.windows@[i] == (Pane { enc: quiet(), gain: Single(0) })
        &&& self.n_windows == 0
        &&& self.enclosure == Smoothed::at(Single(0), left_after(f, Single(HALF), sample_rate))
        &&& self.roof == Smoothed::at(Single(0), left_after(f, Single(HALF), sample_rate))
        &&& forall|b: int|
            0 <= b < 3 ==> #[trigger] self.seep@[b] == Smoothed::at(
                Single(0),
                left_after(f, Single(SEEP_TAU), sample_rate),
            )
        &&& self.seep_split == BandSplit::still(f, sample_rate)
        &&& self.sample_rate == sample_rate
        &&& self.up_enc == encoded(f, [Single(0), Single(0), Single(ONE)])
        &&& self.ground_enc == encoded(f, [Single(0), Single(0), Single(P_MINUS_0_4)])
    }

    pub fn new<F: Fn(Op) -> Single>(f: &F, sample_rate: Single) -> (r: Self)
        requires
            is_steady(*f),
        ensures
            r.wf(),
            r.is_fresh(answering(*f), sample_rate),
    {
        let mut drops: Vec<Raindrop> = Vec::new();
        while drops.len() < MAX_DROPS
            invariant
                drops@.len() <= MAX_DROPS,
                forall|i: int| 0 <= i < drops@.len() ==> #[trigger] drops@[i] == no_drop(),
            decreases MAX_DROPS - drops@.len(),
        {
            drops.push(dry_drop());
        }
        let none: Frame = [Single(0);9];
        assert(none@ =~= quiet()@);
        assert(none == quiet());
        let pane: Pane = Pane { enc: none, gain: Single(0) };
        let s: Smoothed = Smoothed::new(f, Single(0), Single(SEEP_TAU), sample_rate);
        let half: Smoothed = Smoothed::new(f, Single(0), Single(HALF), sample_rate);
        let up: [Single; 3] = [Single(0), Single(0), Single(ONE)];
        let down: [Single; 3] = [Single(0), Single(0), Single(P_MINUS_0_4)];
        Rain {
            intensity: Smoothed::new(f, Single(0), Single(P_6_0), sample_rate),
            gain: Smoothed::new(f, Single(ONE), Single(FADER_TAU), sample_rate),
            rng: Rng::new(SEED),
            drops,
            next: 0,
            spawn_in: Single(0),
            hiss_lo: Single(0),
            hiss_hi: Single(0),
            seep_lo: Single(0),
            seep_hi: Single(0),
            drum_lp: Single(0),
            bank: Vec::new(),
            routes: RouteSlots::new(f, sample_rate, Single(ROUTE_TAU)),
            windows: [pane, pane, pane, pane],
            n_windows: 0,
            enclosure: half,
            roof: half,
            seep: [s, s, s],
            seep_split: BandSplit::new(f, sample_rate),
            sample_rate,
            up_enc: encode_gains(f, up),
            ground_enc: encode_gains(f, down),
        }
    }

    /// From 0, dry, to 1, a downpour; it gets there slowly.
    pub fn set_intensity(&mut self, v: Single)
        requires
            old(self).wf(),
        ensures
            final(self).wf(),
            *final(self) == (Rain {
                intensity: old(self).intensity.towards(clamped(v, Single(0), Single(ONE))),
                ..*old(self)
            }),
    {
        self.intensity.set(clamp_to(v, Single(0), Single(ONE)));
    }

    pub fn intensity(&self) -> (r: Single)
        ensures
            r == self.intensity.cur,
    {
        self.intensity.current()
    }

    /// Set the fader.
    pub fn set_gain(&mut self, g: Single)
        requires
            old(self).wf(),
        ensures
            final(self).wf(),
            *final(self) == (Rain {
                gain: old(self).gain.towards(clamped(g, Single(0), Single(FADER_TOP))),
                ..*old(self)
            }),
    {
        self.gain.set(clamp_to(g, Single(0), Single(FADER_TOP)));
    }

    /// Load recorded hits. They are dulled: raw drips are plinks, rain against
    /// a building is duller. Hits that still sound must lie in the new bank.
    pub fn set_bank<F: Fn(Op) -> Single>(&mut self, f: &F, samples: Vec<Single>)
        requires
            is_steady(*f),
            old(self).wf(),
            forall|i: int|
                0 <= i < MAX_DROPS ==> (#[trigger] old(self).drops@[i]).fits(samples@.len()),
        ensures
            final(self).wf(),
            *final(self) == (Rain { bank: final(self).bank, ..*old(self) }),
            final(self).bank@ == Seq::new(
                samples@.len(),
                |i: int|
                    dulled(
                        answering(*f),
                        lp_coef(answering(*f), Single(P_3000_0), old(self).sample_rate),
                        samples@,
                        i,
                    ),
            ),
    {
        let ghost g = answering(*f);
        let coef: Single = OnePoleLp::coef(f, Single(P_3000_0), self.sample_rate);
        let ghost goal = Seq::new(samples@.len(), |i: int| dulled(g, coef, samples@, i));
        let mut bank: Vec<Single> = Vec::new();
        let mut lp: Single = Single(0);
        let mut i: usize = 0;
        while i < samples.len()
            invariant
                i <= samples@.len(),
                is_steady(*f),
                g == answering(*f),
                goal == Seq::new(samples@.len(), |i: int| dulled(g, coef, samples@, i)),
                bank@ == goal.take(i as int),
                i > 0 ==> lp == dulled(g, coef, samples@, i - 1),
            decreases samples@.len() - i,
        {
            if i % BANK_SLOT == 0 {
                lp = Single(0);
            }
            lp = add_times(f, lp, coef, minus(f, samples[i], lp));
            assert(lp == dulled(g, coef, samples@, i as int));
            bank.push(lp);
            i = i + 1;
            assert(bank@ =~= goal.take(i as int));
        }
        assert(bank@ =~= goal);
        self.bank = bank;
    }

    /// Take a fresh environment over: where the sky is, which panes face the
    /// listener, what pours through which opening.
    pub fn set_environment<F: Fn(Op) -> Single>(&mut self, f: &F, env: &Environment)
        requires
            is_steady(*f),
            old(self).wf(),
        ensures
            final(self).wf(),
            *final(self) == (Rain {
                routes: final(self).routes,
                windows: final(self).windows,
                n_windows: final(self).n_windows,
                enclosure: old(self).enclosure.towards(env.enclosure),
                roof: old(self).roof.towards(env.roof_gain),
                seep: final(self).seep,
                ..*old(self)
            }),
            final(self).routes.slots@ == routed_all(
                retired_all(old(self).routes.slots@, env.routes@),
                env.routes@,
                encodings(answering(*f), env.routes@),
                env.routes@.len() as int,
            ),
            final(self).n_windows == (if env.windows@.len() < 4 {
                env.windows@.len()
            } else {
                4
            }),
            forall|i: int|
                0 <= i < 4 ==> #[trigger] final(self).windows@[i] == (if i < env.windows@.len() {
                    Pane {
                        enc: encoded(answering(*f), env.windows@[i].dir),
                        gain: env.windows@[i].gain,
                    }
                } else {
                    old(self).windows@[i]
                }),
            final(self).seep@ == seq![
                old(self).seep@[0].towards(env.seep@[0]),
                old(self).seep@[1].towards(env.seep@[1]),
                old(self).seep@[2].towards(env.seep@[2]),
            ],
    {
        let ghost was = *self;
        let ghost g = answering(*f);
        self.routes.update(f, env);
        let n: usize = if env.windows.len() < 4 {
            env.windows.len()
        } else {
            4
        };
        self.n_windows = n;
        let ghost mid = *self;
        let mut i: usize = 0;
        while i < n
            invariant
                i <= n <= 4,
                n <= env.windows@.len(),
                is_steady(*f),
                g == answering(*f),
                *self == (Rain { windows: self.windows, ..mid }),
                self.windows@.len() == 4,
                was.windows@.len() == 4,
                was.windows == mid.windows,
                forall|j: int|
                    0 <= j < i ==> #[trigger] self.windows@[j] == (Pane {
                        enc: encoded(g, env.windows@[j].dir),
                        gain: env.windows@[j].gain,
                    }),
                forall|j: int| i <= j < 4 ==> #[trigger] self.windows@[j] == was.windows@[j],
            decreases n - i,
        {
            self.windows[i] = Pane {
                enc: encode_gains(f, env.windows[i].dir),
                gain: env.windows[i].gain,
            };
            i = i + 1;
        }
        self.enclosure.set(env.enclosure);
        self.roof.set(env.roof_gain);
        let ghost s = self.seep@;
        self.seep[0].set(env.seep[0]);
        self.seep[1].set(env.seep[1]);
        self.seep[2].set(env.seep[2]);
        assert(self.seep@ =~= seq![
            s[0].towards(env.seep@[0]),
            s[1].towards(env.seep@[1]),
            s[2].towards(env.seep@[2]),
        ]);
    }
}

// --- one sample of rain

/// What the first drops made of a sample.
#[verifier::ext_equal]
pub ghost struct Shower {
    pub drops: Seq<Raindrop>,
    pub s: u64,
    pub bus: Frame,
    pub drum: Single,
}

/// What the first `n` drops make of a sample: those in the air are damped by
/// the shell, those on the structure are not.
pub open spec fn showered(
    f: Calc,
    bank: Seq<Single>,
    drops: Seq<Raindrop>,
    direct: Single,
    user: Single,
    s: u64,
    bus: Frame,
    n: int,
) -> Shower
    decreases n,
{
    if n <= 0 {
        Shower { drops: Seq::empty(), s, bus, drum: Single(0) }
    } else {
        let before = showered(f, bank, drops, direct, user, s, bus, n - 1);
        let d = drops[n - 1];
        let out = d.sounded(f, bank, before.s);
        match out.y {
            Some(y) => Shower {
                drops: before.drops.push(out.d),
                s: out.s,
                bus: mixed(
                    f,
                    before.bus,
                    prod(
                        f,
                        prod(
                            f,
                            prod(
                                f,
                                y,
                                if d.surface {
                                    Single(ONE)
                                } else {
                                    direct
                                },
                            ),
                            Single(P_0_22),
                        ),
                        user,
                    ),
                    d.enc,
                ),
                drum: sum(f, before.drum, y),
            },
            None => Shower { drops: before.drops.push(out.d), s: out.s, ..before },
        }
    }
}

/// How often drops fall: few in a drizzle, and more under a roof.
pub open spec fn drop_rate(f: Calc, inten: Single, enclosure: Single) -> Single {
    prod(
        f,
        plus_prod(
            f,
            prod(f, Single(P_260_0), power(f, inten, Single(P_2_5))),
            Single(P_6_0),
            inten,
        ),
        plus_prod(f, Single(ONE), Single(P_0_8), enclosure),
    )
}

/// How much of the rain has fused into noise: none in a drizzle.
pub open spec fn fused(f: Calc, inten: Single) -> Single {
    power(
        f,
        clamped(quot(f, diff(f, inten, Single(P_0_28)), Single(P_0_72)), Single(0), Single(ONE)),
        Single(P_1_6),
    )
}

/// The noise's two poles one sample on.
pub open spec fn pole_hi(f: Calc, hi: Single, w: Single) -> Single {
    plus_prod(f, hi, Single(P_0_55), diff(f, w, hi))
}

pub open spec fn pole_lo(f: Calc, lo: Single, hi: Single) -> Single {
    plus_prod(f, lo, Single(P_0_05), diff(f, hi, lo))
}

/// Three gains at a level.
pub open spec fn hissing(f: Calc, g: [Single; 3], base: Single, enclosure: Single) -> [Single; 3] {
    [
        prod(f, prod(f, prod(f, g@[0], base), Single(P_0_3)), enclosure),
        prod(f, prod(f, prod(f, g@[1], base), Single(P_0_3)), enclosure),
        prod(f, prod(f, prod(f, g@[2], base), Single(P_0_3)), enclosure),
    ]
}

fn hiss_levels<F: Fn(Op) -> Single>(f: &F, g: &[Single; 3], base: Single, enclosure: Single) -> (r: [
    Single; 3])
    requires
        is_steady(*f),
    ensures
        r == hissing(answering(*f), *g, base, enclosure),
{
    let r: [Single; 3] = [
        times(f, times(f, times(f, g[0], base), Single(P_0_3)), enclosure),
        times(f, times(f, times(f, g[1], base), Single(P_0_3)), enclosure),
        times(f, times(f, times(f, g[2], base), Single(P_0_3)), enclosure),
    ];
    assert(r@ =~= hissing(answering(*f), *g, base, enclosure)@);
    r
}

/// `g0 + g1 + g2`.
pub open spec fn total(f: Calc, g: [Single; 3]) -> Single {
    sum(f, sum(f, g@[0], g@[1]), g@[2])
}

/// An inlet passes noise.
pub open spec fn is_inlet(f: Calc, s: RouteSlot) -> bool {
    !total(f, three_current(s.gains)).below(Single(P_1E_MINUS_6))
}

/// What inlet `i` passes: each opening passes another slice of the field, so
/// neighbours have opposite signs.
pub open spec fn inlet_in(f: Calc, raw: Single, i: int) -> Single {
    prod(
        f,
        raw,
        if i % 2 == 0 {
            Single(ONE)
        } else {
            Single(P_MINUS_1_0)
        },
    )
}

/// The bus with the first `n` inlets.
pub open spec fn inlets_mixed(
    f: Calc,
    bus: Frame,
    slots: Seq<RouteSlot>,
    raw: Single,
    base: Single,
    enclosure: Single,
    n: int,
) -> Frame
    decreases n,
{
    if n <= 0 {
        bus
    } else {
        let before = inlets_mixed(f, bus, slots, raw, base, enclosure, n - 1);
        let s = slots[n - 1];
        if is_inlet(f, s) {
            mixed(
                f,
                before,
                s.split.shaped(
                    f,
                    inlet_in(f, raw, n - 1),
                    hissing(f, three_current(s.gains), base, enclosure),
                ),
                s.enc,
            )
        } else {
            before
        }
    }
}

/// The inlets after a sample.
pub open spec fn inlet_after(f: Calc, s: RouteSlot, raw: Single, i: int) -> RouteSlot {
    if is_inlet(f, s) {
        RouteSlot { split: s.split.next(f, inlet_in(f, raw, i)), ..s }
    } else {
        s
    }
}

impl Rain {
    /// Dry, and everything rang out.
    pub open spec fn is_settled(self, f: Calc) -> bool {
        &&& self.intensity.ticked(f).cur.below(Single(P_1E_MINUS_4))
        &&& size(self.hiss_lo).below(Single(P_1E_MINUS_9))
        &&& forall|i: int| 0 <= i < MAX_DROPS ==> (#[trigger] self.drops@[i]).env.below(Single(P_1E_MINUS_6))
    }

    fn settled(&self, inten: Single) -> (r: bool)
        requires
            self.wf(),
        ensures
            r == (inten.below(Single(P_1E_MINUS_4)) && size(self.hiss_lo).below(Single(P_1E_MINUS_9)) && forall|i: int|
                0 <= i < MAX_DROPS ==> (#[trigger] self.drops@[i]).env.below(Single(P_1E_MINUS_6))),
    {
        if !inten.lt(Single(P_1E_MINUS_4)) || !size_of(self.hiss_lo).lt(Single(P_1E_MINUS_9)) {
            return false;
        }
        let mut i: usize = 0;
        while i < MAX_DROPS
            invariant
                i <= MAX_DROPS,
                self.drops@.len() == MAX_DROPS,
                forall|j: int| 0 <= j < i ==> (#[trigger] self.drops@[j]).env.below(Single(P_1E_MINUS_6)),
            decreases MAX_DROPS - i,
        {
            if !self.drops[i].env.lt(Single(P_1E_MINUS_6)) {
                assert(!self.drops@[i as int].env.below(Single(P_1E_MINUS_6)));
                return false;
            }
            i = i + 1;
        }
        true
    }
}

/// The bus with a signal from nowhere in particular.
pub open spec fn spread_mixed(f: Calc, bus: Frame, x: Single) -> Frame {
    [
        sum(f, bus@[0], x),
        bus@[1],
        bus@[2],
        bus@[3],
        bus@[4],
        bus@[5],
        bus@[6],
        bus@[7],
        bus@[8],
    ]
}

impl Rain {
    /// Every smoother one sample on.
    pub open spec fn moved(self, f: Calc, now: Rain) -> bool {
        &&& now == (Rain {
            intensity: self.intensity.ticked(f),
            gain: self.gain.ticked(f),
            enclosure: self.enclosure.ticked(f),
            roof: self.roof.ticked(f),
            routes: now.routes,
            seep: three_ticked(f, self.seep),
            ..self
        })
        &&& forall|i: int|
            0 <= i < 8 ==> #[trigger] now.routes.slots@[i] == self.routes.slots@[i].ticked(f)
    }

    /// Time went on to the next drop, at the current rate; when it is due it
    /// falls, and the next waiting time is tossed.
    pub open spec fn scheduled(self, f: Calc, now: Rain) -> bool {
        let rate = drop_rate(f, self.intensity.cur, self.enclosure.cur);
        let left = diff(f, self.spawn_in, quot(f, rate, self.sample_rate));
        if !Single(P_0_01).below(rate) {
            now == self
        } else if !left.at_most(Single(0)) {
            now == (Rain { spawn_in: left, ..self })
        } else {
            let l = self.landed(f, self.enclosure.cur, self.roof.cur);
            let u = greater(toss(advance(l.s)), Single(P_1E_MINUS_6));
            &&& now == (Rain {
                rng: now.rng,
                drops: now.drops,
                next: now.next,
                spawn_in: f(Op::Ln(u)).negated(),
                ..self
            })
            &&& now.rng@ == advance(l.s)
            &&& now.drops@ == self.drops@.update(self.next as int, l.d)
            &&& now.next == (if self.next + 1 == MAX_DROPS {
                0
            } else {
                self.next + 1
            })
        }
    }

    /// What reaches the listener of drops in the air.
    pub open spec fn direct(self, f: Calc) -> Single {
        diff(f, Single(ONE), prod(f, Single(P_0_85), self.enclosure.cur))
    }

    /// What the drops make of this sample.
    pub open spec fn shower(self, f: Calc, bus: Frame) -> Shower {
        showered(
            f,
            self.bank@,
            self.drops@,
            self.direct(f),
            self.gain.cur,
            self.rng@,
            bus,
            MAX_DROPS as int,
        )
    }

    /// The drops played.
    pub open spec fn played(self, f: Calc, bus: Frame, now: Rain) -> bool {
        let sh = self.shower(f, bus);
        &&& now == (Rain {
            rng: now.rng,
            drops: now.drops,
            drum_lp: plus_prod(f, self.drum_lp, Single(P_0_04), diff(f, sh.drum, self.drum_lp)),
            ..self
        })
        &&& now.rng@ == sh.s
        &&& now.drops@ == sh.drops
    }

    /// The bus with the drops and the drumming of the roof.
    pub open spec fn drummed(self, f: Calc, bus: Frame) -> Frame {
        let sh = self.shower(f, bus);
        let lp = plus_prod(f, self.drum_lp, Single(P_0_04), diff(f, sh.drum, self.drum_lp));
        let g = prod(f, prod(f, lp, self.roof.cur), self.enclosure.cur);
        mixed(
            f,
            sh.bus,
            prod(f, prod(f, prod(f, g, Single(P_1_2)), Single(P_0_22)), self.gain.cur),
            self.up_enc,
        )
    }

    /// The band-passed noise of this sample.
    pub open spec fn raw(self, f: Calc) -> Single {
        let hi = pole_hi(f, self.hiss_hi, noise(f, advance(self.rng@)));
        diff(f, hi, pole_lo(f, self.hiss_lo, hi))
    }

    /// The noise's level.
    pub open spec fn base(self, f: Calc) -> Single {
        prod(f, prod(f, fused(f, self.intensity.cur), Single(P_0_22)), self.gain.cur)
    }

    /// The noise of the wet ground around.
    pub open spec fn ground_level(self, f: Calc) -> Single {
        prod(
            f,
            prod(f, prod(f, self.raw(f), self.base(f)), Single(HALF)),
            diff(f, Single(ONE), self.enclosure.cur),
        )
    }

    /// There is noise at all.
    pub open spec fn hisses(self, f: Calc) -> bool {
        Single(0).below(fused(f, self.intensity.cur))
    }

    /// The noise comes in from outside.
    pub open spec fn is_inside(self, f: Calc) -> bool {
        self.hisses(f) && Single(P_0_05).below(self.enclosure.cur)
    }

    /// The shell lets noise through.
    pub open spec fn seeps(self, f: Calc) -> bool {
        self.is_inside(f) && Single(P_1E_MINUS_6).below(total(f, three_current(self.seep)))
    }

    /// The poles of the noise behind the shell: high, then low.
    pub open spec fn seep_poles(self, f: Calc) -> (Single, Single) {
        let hi = pole_hi(f, self.seep_hi, noise(f, advance(advance(self.rng@))));
        (hi, pole_lo(f, self.seep_lo, hi))
    }

    /// The bus with the noise of this sample.
    pub open spec fn hissed_bus(self, f: Calc, bus: Frame) -> Frame {
        let a = if self.hisses(f) && Single(P_1E_MINUS_9).below(size(self.ground_level(f))) {
            mixed(f, bus, self.ground_level(f), self.ground_enc)
        } else {
            bus
        };
        let b = if self.is_inside(f) {
            inlets_mixed(
                f,
                a,
                self.routes.slots@,
                self.raw(f),
                self.base(f),
                self.enclosure.cur,
                8,
            )
        } else {
            a
        };
        if self.seeps(f) {
            let p = self.seep_poles(f);
            spread_mixed(
                f,
                b,
                self.seep_split.shaped(
                    f,
                    diff(f, p.0, p.1),
                    hissing(f, three_current(self.seep), self.base(f), self.enclosure.cur),
                ),
            )
        } else {
            b
        }
    }

    /// The noise moved on.
    pub open spec fn hissed(self, f: Calc, now: Rain) -> bool {
        let s1 = advance(self.rng@);
        let hi = pole_hi(f, self.hiss_hi, noise(f, s1));
        let p = self.seep_poles(f);
        &&& now == (Rain {
            rng: now.rng,
            hiss_hi: hi,
            hiss_lo: pole_lo(f, self.hiss_lo, hi),
            routes: now.routes,
            seep_hi: if self.seeps(f) {
                p.0
            } else {
                self.seep_hi
            },
            seep_lo: if self.seeps(f) {
                p.1
            } else {
                self.seep_lo
            },
            seep_split: if self.seeps(f) {
                self.seep_split.next(f, diff(f, p.0, p.1))
            } else {
                self.seep_split
            },
            ..self
        })
        &&& now.rng@ == (if self.seeps(f) {
            advance(s1)
        } else {
            s1
        })
        &&& forall|i: int|
            0 <= i < 8 ==> #[trigger] now.routes.slots@[i] == (if self.is_inside(f) {
                inlet_after(f, self.routes.slots@[i], self.raw(f), i)
            } else {
                self.routes.slots@[i]
            })
    }

    /// `now` and `out` are the rain and the bus after a sample: smoothers, then
    /// the schedule, then the drops and the roof, then the noise.
    pub open spec fn rained(self, f: Calc, bus: Frame, now: Rain, out: Frame) -> bool {
        exists|a: Rain, b: Rain, c: Rain|
            {
                &&& #[trigger] self.moved(f, a)
                &&& #[trigger] a.scheduled(f, b)
                &&& #[trigger] b.played(f, bus, c)
                &&& c.hissed(f, now)
                &&& out == c.hissed_bus(f, b.drummed(f, bus))
            }
    }

    fn move_on<F: Fn(Op) -> Single>(&mut self, f: &F)
        requires
            is_steady(*f),
            old(self).wf(),
        ensures
            final(self).wf(),
            *final(self) == (Rain {
                enclosure: old(self).enclosure.ticked(answering(*f)),
                roof: old(self).roof.ticked(answering(*f)),
                routes: final(self).routes,
                seep: three_ticked(answering(*f), old(self).seep),
                ..*old(self)
            }),
            forall|i: int|
                0 <= i < 8 ==> #[trigger] final(self).routes.slots@[i]
                    == old(self).routes.slots@[i].ticked(answering(*f)),
    {
        let ghost g = answering(*f);
        let _ = self.enclosure.tick(f);
        let _ = self.roof.tick(f);
        let ghost slots0 = self.routes.slots@;
        let ghost mid = *self;
        let mut i: usize = 0;
        while i < 8
            invariant
                i <= 8,
                is_steady(*f),
                g == answering(*f),
                *self == (Rain { routes: self.routes, ..mid }),
                slots0.len() == 8,
                self.routes.slots@.len() == 8,
                forall|j: int|
                    0 <= j < i ==> #[trigger] self.routes.slots@[j] == slots0[j].ticked(g),
                forall|j: int| i <= j < 8 ==> #[trigger] self.routes.slots@[j] == slots0[j],
            decreases 8 - i,
        {
            assert(self.routes.slots@[i as int] == slots0[i as int]);
            let _ = tick_three(f, &mut self.routes.slots[i].gains);
            i = i + 1;
        }
        let _ = tick_three(f, &mut self.seep);
    }

    fn schedule<F: Fn(Op) -> Single>(&mut self, f: &F)
        requires
            is_steady(*f),
            old(self).wf(),
        ensures
            final(self).wf(),
            old(self).scheduled(answering(*f), *final(self)),
    {
        let inten: Single = self.intensity.current();
        let enclosure: Single = self.enclosure.current();
        let heavy: Single = times(f, Single(P_260_0), raise(f, inten, Single(P_2_5)));
        let light: Single = add_times(f, heavy, Single(P_6_0), inten);
        let rate: Single = times(f, light, add_times(f, Single(ONE), Single(P_0_8), enclosure));
        if Single(P_0_01).lt(rate) {
            let left: Single = minus(f, self.spawn_in, over(f, rate, self.sample_rate));
            if left.le(Single(0)) {
                self.spawn_drop(f, enclosure, self.roof.current());
                let u: Single = greater_of(self.roll(), Single(P_1E_MINUS_6));
                let ln: Single = ask(f, Op::Ln(u));
                self.spawn_in = ln.neg();
            } else {
                self.spawn_in = left;
            }
        }
    }

    fn play_drops<F: Fn(Op) -> Single>(&mut self, f: &F, bus: &mut Frame)
        requires
            is_steady(*f),
            old(self).wf(),
        ensures
            final(self).wf(),
            old(self).played(answering(*f), *old(bus), *final(self)),
            *final(bus) == old(self).drummed(answering(*f), *old(bus)),
    {
        let ghost g = answering(*f);
        let ghost was = *self;
        let enclosure: Single = self.enclosure.current();
        let user: Single = self.gain.current();
        let direct: Single = minus(f, Single(ONE), times(f, Single(P_0_85), enclosure));
        let mut drum: Single = Single(0);
        let mut i: usize = 0;
        let ghost drops0 = self.drops@;
        while i < MAX_DROPS
            invariant
                i <= MAX_DROPS,
                is_steady(*f),
                g == answering(*f),
                was.wf(),
                was == *old(self),
                drops0 == was.drops@,
                direct == was.direct(g),
                user == was.gain.cur,
                *self == (Rain { rng: self.rng, drops: self.drops, ..was }),
                self.drops@.len() == MAX_DROPS,
                ({
                    let sh = showered(
                        g,
                        was.bank@,
                        drops0,
                        direct,
                        user,
                        was.rng@,
                        *old(bus),
                        i as int,
                    );
                    &&& self.rng@ == sh.s
                    &&& *bus == sh.bus
                    &&& drum == sh.drum
                    &&& sh.drops.len() == i
                    &&& forall|j: int| 0 <= j < i ==> #[trigger] self.drops@[j] == sh.drops[j]
                }),
                forall|j: int| i <= j < MAX_DROPS ==> #[trigger] self.drops@[j] == drops0[j],
                forall|j: int|
                    0 <= j < MAX_DROPS ==> (#[trigger] self.drops@[j]).fits(self.bank@.len()),
            decreases MAX_DROPS - i,
        {
            let ghost d0 = drops0[i as int];
            assert(self.drops@[i as int] == d0);
            let mut d: Raindrop = self.drops[i];
            let surface: bool = d.surface;
            let enc: Frame = d.enc;
            let y: Option<Single> = d.sound(f, &self.bank, &mut self.rng);
            self.drops.set(i, d);
            if let Some(v) = y {
                drum = plus(f, drum, v);
                let share: Single = if surface {
                    Single(ONE)
                } else {
                    direct
                };
                let a: Single = times(f, times(f, v, share), Single(P_0_22));
                mix(f, bus, times(f, a, user), &enc);
            }
            i = i + 1;
        }
        proof {
            let sh = was.shower(g, *old(bus));
            assert(self.drops@ =~= sh.drops);
        }
        self.drum_lp = add_times(f, self.drum_lp, Single(P_0_04), minus(f, drum, self.drum_lp));
        let a: Single = times(f, times(f, self.drum_lp, self.roof.current()), enclosure);
        let b: Single = times(f, times(f, times(f, a, Single(P_1_2)), Single(P_0_22)), user);
        mix(f, bus, b, &self.up_enc);
    }

    fn play_inlets<F: Fn(Op) -> Single>(
        &mut self,
        f: &F,
        raw: Single,
        base: Single,
        enclosure: Single,
        bus: &mut Frame,
    )
        requires
            is_steady(*f),
        ensures
            *final(self) == (Rain { routes: final(self).routes, ..*old(self) }),
            forall|i: int|
                0 <= i < 8 ==> #[trigger] final(self).routes.slots@[i] == inlet_after(
                    answering(*f),
                    old(self).routes.slots@[i],
                    raw,
                    i,
                ),
            *final(bus) == inlets_mixed(
                answering(*f),
                *old(bus),
                old(self).routes.slots@,
                raw,
                base,
                enclosure,
                8,
            ),
    {
        let ghost g = answering(*f);
        let ghost was = *self;
        let ghost slots0 = self.routes.slots@;
        let mut i: usize = 0;
        while i < 8
            invariant
                i <= 8,
                is_steady(*f),
                g == answering(*f),
                *self == (Rain { routes: self.routes, ..was }),
                slots0 == was.routes.slots@,
                slots0.len() == 8,
                self.routes.slots@.len() == 8,
                forall|j: int|
                    0 <= j < i ==> #[trigger] self.routes.slots@[j] == inlet_after(
                        g,
                        slots0[j],
                        raw,
                        j,
                    ),
                forall|j: int| i <= j < 8 ==> #[trigger] self.routes.slots@[j] == slots0[j],
                *bus == inlets_mixed(g, *old(bus), slots0, raw, base, enclosure, i as int),
            decreases 8 - i,
        {
            let ghost s = slots0[i as int];
            assert(self.routes.slots@[i as int] == s);
            let cur: [Single; 3] = [
                self.routes.slots[i].gains[0].current(),
                self.routes.slots[i].gains[1].current(),
                self.routes.slots[i].gains[2].current(),
            ];
            assert(cur@ =~= three_current(s.gains)@);
            assert(cur == three_current(s.gains));
            let all: Single = plus(f, plus(f, cur[0], cur[1]), cur[2]);
            if !all.lt(Single(P_1E_MINUS_6)) {
                let sign: Single = if i % 2 == 0 {
                    Single(ONE)
                } else {
                    Single(P_MINUS_1_0)
                };
                let x: Single = times(f, raw, sign);
                let gains: [Single; 3] = hiss_levels(f, &cur, base, enclosure);
                let y: Single = self.routes.slots[i].split.process(f, x, &gains);
                mix(f, bus, y, &self.routes.slots[i].enc);
            }
            assert(self.routes.slots@[i as int] == inlet_after(g, s, raw, i as int));
            i = i + 1;
        }
    }

    fn play_hiss<F: Fn(Op) -> Single>(&mut self, f: &F, bus: &mut Frame)
        requires
            is_steady(*f),
            old(self).wf(),
        ensures
            final(self).wf(),
            old(self).hissed(answering(*f), *final(self)),
            *final(bus) == old(self).hissed_bus(answering(*f), *old(bus)),
    {
        let ghost g = answering(*f);
        let ghost was = *self;
        let enclosure: Single = self.enclosure.current();
        let w: Single = hiss(f, &mut self.rng);
        self.hiss_hi = add_times(f, self.hiss_hi, Single(P_0_55), minus(f, w, self.hiss_hi));
        self.hiss_lo = add_times(f, self.hiss_lo, Single(P_0_05), minus(f, self.hiss_hi, self.hiss_lo));
        let raw: Single = minus(f, self.hiss_hi, self.hiss_lo);
        assert(raw == was.raw(g));
        let dry: Single = over(f, minus(f, self.intensity.current(), Single(P_0_28)), Single(P_0_72));
        let amt: Single = raise(f, clamp_to(dry, Single(0), Single(ONE)), Single(P_1_6));
        if !Single(0).lt(amt) {
            return;
        }
        let base: Single = times(f, times(f, amt, Single(P_0_22)), self.gain.current());
        assert(base == was.base(g));
        let half: Single = times(f, times(f, raw, base), Single(HALF));
        let open: Single = times(f, half, minus(f, Single(ONE), enclosure));
        if Single(P_1E_MINUS_9).lt(size_of(open)) {
            mix(f, bus, open, &self.ground_enc);
        }
        if !Single(P_0_05).lt(enclosure) {
            return;
        }
        self.play_inlets(f, raw, base, enclosure, bus);
        let cur: [Single; 3] = [
            self.seep[0].current(),
            self.seep[1].current(),
            self.seep[2].current(),
        ];
        assert(cur@ =~= three_current(was.seep)@);
        assert(cur == three_current(was.seep));
        let all: Single = plus(f, plus(f, cur[0], cur[1]), cur[2]);
        if Single(P_1E_MINUS_6).lt(all) {
            let w2: Single = hiss(f, &mut self.rng);
            self.seep_hi = add_times(f, self.seep_hi, Single(P_0_55), minus(f, w2, self.seep_hi));
            self.seep_lo = add_times(f, self.seep_lo, Single(P_0_05), minus(f, self.seep_hi, self.seep_lo));
            let x: Single = minus(f, self.seep_hi, self.seep_lo);
            let gains: [Single; 3] = hiss_levels(f, &cur, base, enclosure);
            let y: Single = self.seep_split.process(f, x, &gains);
            let ghost b = *bus;
            bus[0] = plus(f, bus[0], y);
            assert(bus@ =~= spread_mixed(g, b, y)@);
        }
    }

    /// One sample of rain onto the bus. Dry and rung out, it costs nothing.
    pub fn process<F: Fn(Op) -> Single>(&mut self, f: &F, bus: &mut Frame)
        requires
            is_steady(*f),
            old(self).wf(),
        ensures
            final(self).wf(),
            old(self).is_settled(answering(*f)) ==> *final(bus) == *old(bus) && *final(self) == (Rain {
                intensity: old(self).intensity.ticked(answering(*f)),
                gain: old(self).gain.ticked(answering(*f)),
                ..*old(self)
            }),
            !old(self).is_settled(answering(*f)) ==> old(self).rained(
                answering(*f),
                *old(bus),
                *final(self),
                *final(bus),
            ),
    {
        let ghost g = answering(*f);
        let ghost was = *self;
        let inten: Single = self.intensity.tick(f);
        let _ = self.gain.tick(f);
        if self.settled(inten) {
            return;
        }
        self.move_on(f);
        let ghost a = *self;
        assert(was.moved(g, a));
        self.schedule(f);
        let ghost b = *self;
        assert(a.scheduled(g, b));
        let ghost bus0 = *bus;
        self.play_drops(f, bus);
        let ghost c = *self;
        assert(b.played(g, bus0, c));
        self.play_hiss(f, bus);
    }
}

/// Dry rain is silent and free: once everything rang out, no sample changes the
/// bus or a drop.
pub proof fn dry_is_silent(f: Calc, r: Rain, now: Rain)
    requires
        r.is_settled(f),
        now == (Rain { intensity: r.intensity.ticked(f), gain: r.gain.ticked(f), ..r }),
        now.intensity.ticked(f).cur.below(Single(P_1E_MINUS_4)),
    ensures
        now.is_settled(f),
{
}

} // verus!
