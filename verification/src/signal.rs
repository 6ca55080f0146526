//! Demo signals and the orbit scene: a clapper, a looped clip, and a source
//! that circles the listener.

use crate::arith::{add_times, ask, over, plus_prod, prod, quot, times, Calc, Op};
use crate::drops::{hiss, noise, TAU};
use crate::material::{bands, Material};
use crate::mesh::Point;
use crate::probe::{answering, is_steady};
use crate::rng::{advance, Rng};
use crate::scene::Shoebox;
use crate::single::{rounded, Single};
use vstd::prelude::*;

verus! {

/// The pattern of 0.006.
pub const P_0_006: u32 = 0x3BC4_9BA6;

/// The pattern of 0.03.
pub const P_0_03: u32 = 0x3CF5_C28F;

/// The pattern of 0.6.
pub const P_0_6: u32 = 0x3F19_999A;

/// The pattern of 0.9.
pub const P_0_9: u32 = 0x3F66_6666;

/// The pattern of 1.5.
pub const P_1_5: u32 = 0x3FC0_0000;

/// The pattern of 2.2.
pub const P_2_2: u32 = 0x400C_CCCD;

/// The pattern of 3.0.
pub const P_3_0: u32 = 0x4040_0000;

/// The pattern of 4.0.
pub const P_4_0: u32 = 0x4080_0000;

/// The pattern of 6.0.
pub const P_6_0: u32 = 0x40C0_0000;

/// The pattern of 8.0.
pub const P_8_0: u32 = 0x4100_0000;

/// The clapper's first state of the dice.
pub const CLAP_SEED: u64 = 0xBAD_A55;

/// Percussive noise bursts: transients make reflections and tails audible.
#[derive(Debug)]
pub struct Exciter {
    pub rng: Rng,
    pub counter: u64,
    pub sample_rate: Single,
}

impl Exciter {
    /// Samples between two bursts.
    pub open spec fn period(self, f: Calc) -> nat {
        prod(f, self.sample_rate, Single(P_0_6)).truncated(u64::MAX as nat)
    }

    /// Samples of one burst.
    pub open spec fn burst(self, f: Calc) -> nat {
        prod(f, self.sample_rate, Single(P_0_03)).truncated(u64::MAX as nat)
    }

    /// Where in its period the clapper is.
    pub open spec fn phase(self, f: Calc) -> nat {
        self.counter as nat % self.period(f)
    }

    /// The sample at this moment: noise that fades over the burst, then nothing.
    pub open spec fn sample(self, f: Calc) -> Single {
        if self.phase(f) < self.burst(f) {
            let env = f(
                Op::Exp(
                    quot(
                        f,
                        rounded(self.phase(f)).negated(),
                        prod(f, self.sample_rate, Single(P_0_006)),
                    ),
                ),
            );
            prod(f, prod(f, noise(f, advance(self.rng@)), env), Single(P_0_9))
        } else {
            Single(0)
        }
    }

    pub fn new(sample_rate: Single) -> (r: Self)
        ensures
            r.rng@ == CLAP_SEED,
            r.counter == 0,
            r.sample_rate == sample_rate,
    {
        Exciter { rng: Rng::new(CLAP_SEED), counter: 0, sample_rate }
    }

    pub fn tick<F: Fn(Op) -> Single>(&mut self, f: &F) -> (r: Single)
        requires
            is_steady(*f),
            old(self).period(answering(*f)) > 0,
            old(self).counter < u64::MAX,
        ensures
            r == old(self).sample(answering(*f)),
            final(self).counter == old(self).counter + 1,
            final(self).sample_rate == old(self).sample_rate,
            final(self).rng@ == (if old(self).phase(answering(*f)) < old(self).burst(answering(*f)) {
                advance(old(self).rng@)
            } else {
                old(self).rng@
            }),
    {
        let period: u64 = times(f, self.sample_rate, Single(P_0_6)).to_u64();
        let phase: u64 = self.counter % period;
        self.counter = self.counter + 1;
        let burst: u64 = times(f, self.sample_rate, Single(P_0_03)).to_u64();
        if phase < burst {
            let p: Single = Single::from_count(phase);
            let x: Single = over(f, p.neg(), times(f, self.sample_rate, Single(P_0_006)));
            let env: Single = ask(f, Op::Exp(x));
            let w: Single = hiss(f, &mut self.rng);
            times(f, times(f, w, env), Single(P_0_9))
        } else {
            Single(0)
        }
    }
}

/// A clip that plays in a loop.
#[derive(Debug)]
pub struct Clip {
    pub data: Vec<Single>,
    pub pos: usize,
}

/// The place after `pos` in a loop of `n`.
pub open spec fn looped(pos: int, n: int) -> int {
    if pos + 1 == n {
        0
    } else {
        pos + 1
    }
}

impl Clip {
    pub open spec fn wf(self) -> bool {
        self.data@.len() > 0 ==> self.pos < self.data@.len()
    }

    /// The sample that plays now; nothing where the clip is empty.
    pub open spec fn now(self) -> Single {
        if self.data@.len() == 0 {
            Single(0)
        } else {
            self.data@[self.pos as int]
        }
    }

    /// The clip one sample on.
    pub open spec fn next(self) -> Clip {
        if self.data@.len() == 0 {
            self
        } else {
            Clip { pos: looped(self.pos as int, self.data@.len() as int) as usize, ..self }
        }
    }

    pub fn new(data: Vec<Single>) -> (r: Self)
        ensures
            r.wf(),
            r.data == data,
            r.pos == 0,
    {
        Clip { data, pos: 0 }
    }

    pub fn tick(&mut self) -> (r: Single)
        requires
            old(self).wf(),
        ensures
            final(self).wf(),
            *final(self) == old(self).next(),
            r == old(self).now(),
    {
        if self.data.len() == 0 {
            return Single(0);
        }
        let s: Single = self.data[self.pos];
        self.pos = if self.pos == self.data.len() - 1 {
            0
        } else {
            self.pos + 1
        };
        s
    }
}

/// A clip of `n` samples repeats: after `n` ticks it stands where it stood.
pub proof fn a_clip_repeats(pos: int, n: int, k: nat)
    requires
        0 <= pos < n,
    ensures
        looped_on(pos, n, k) == (pos + k) % n,
        looped_on(pos, n, n as nat) == pos,
{
    lemma_looped(pos, n, k);
    lemma_looped(pos, n, n as nat);
    vstd::arithmetic::div_mod::lemma_mod_add_multiples_vanish(pos, n);
    vstd::arithmetic::div_mod::lemma_small_mod(pos as nat, n as nat);
    assert(pos + n == n + pos);
}

/// A place in a loop after `k` steps.
pub open spec fn looped_on(pos: int, n: int, k: nat) -> int
    decreases k,
{
    if k == 0 {
        pos
    } else {
        looped(looped_on(pos, n, (k - 1) as nat), n)
    }
}

proof fn lemma_looped(pos: int, n: int, k: nat)
    requires
        0 <= pos < n,
    ensures
        looped_on(pos, n, k) == (pos + k) % n,
        0 <= looped_on(pos, n, k) < n,
    decreases k,
{
    if k == 0 {
        vstd::arithmetic::div_mod::lemma_small_mod(pos as nat, n as nat);
    } else {
        lemma_looped(pos, n, (k - 1) as nat);
        let p = looped_on(pos, n, (k - 1) as nat);
        let q = (pos + (k - 1)) / n;
        vstd::arithmetic::div_mod::lemma_fundamental_div_mod(pos + (k - 1), n);
        assert(n * (q + 1) == n * q + n) by (nonlinear_arith);
        if p + 1 == n {
            vstd::arithmetic::div_mod::lemma_fundamental_div_mod_converse(pos + k, n, q + 1, 0);
        } else {
            vstd::arithmetic::div_mod::lemma_fundamental_div_mod_converse(pos + k, n, q, p + 1);
        }
    }
}

/// What a demo plays.
#[derive(Debug)]
pub enum Source {
    Clapper(Exciter),
    File(Clip),
}

impl Source {
    pub open spec fn wf(self, f: Calc) -> bool {
        match self {
            Source::Clapper(e) => e.period(f) > 0 && e.counter < u64::MAX,
            Source::File(c) => c.wf() && c.data@.len() > 0,
        }
    }

    /// The sample that plays now.
    pub open spec fn now(self, f: Calc) -> Single {
        match self {
            Source::Clapper(e) => e.sample(f),
            Source::File(c) => c.now(),
        }
    }

    /// `next` is the source one sample on: the clapper rolls the dice only in
    /// a burst.
    pub open spec fn ticked(self, f: Calc, next: Source) -> bool {
        match self {
            Source::Clapper(e) => {
                &&& next is Clapper
                &&& next->Clapper_0.counter == e.counter + 1
                &&& next->Clapper_0.sample_rate == e.sample_rate
                &&& next->Clapper_0.rng@ == (if e.phase(f) < e.burst(f) {
                    advance(e.rng@)
                } else {
                    e.rng@
                })
            },
            Source::File(c) => next == Source::File(c.next()),
        }
    }

    pub fn tick<F: Fn(Op) -> Single>(&mut self, f: &F) -> (r: Single)
        requires
            is_steady(*f),
            old(self).wf(answering(*f)),
        ensures
            r == old(self).now(answering(*f)),
            old(self).ticked(answering(*f), *final(self)),
    {
        match self {
            Source::Clapper(e) => e.tick(f),
            Source::File(c) => c.tick(),
        }
    }
}

/// A room with a listener in its middle.
#[derive(Debug)]
pub struct Orbit {
    pub room: Shoebox,
    pub listener: Point,
}

impl Orbit {
    pub fn new() -> (r: Self)
        ensures
            r.room.size@ == bands(P_8_0, P_6_0, P_3_0)@,
            r.listener@ == bands(P_4_0, P_3_0, P_1_5)@,
            r.room.walls@[0].is_drywall(),
            r.room.walls@[1].is_wood_panel(),
            r.room.walls@[2].is_drywall(),
            r.room.walls@[3].is_concrete(),
            r.room.walls@[4].is_carpet(),
            r.room.walls@[5].is_acoustic_tile(),
    {
        let size: Point = [Single(P_8_0), Single(P_6_0), Single(P_3_0)];
        let room: Shoebox = Shoebox::new(
            size,
            [
                Material::drywall(),
                Material::wood_panel(),
                Material::drywall(),
                Material::concrete(),
                Material::carpet(),
                Material::acoustic_tile(),
            ],
        );
        Orbit { room, listener: [Single(P_4_0), Single(P_3_0), Single(P_1_5)] }
    }

    /// The angle at a time: one turn in eight seconds.
    pub open spec fn angle(f: Calc, t: Single) -> Single {
        quot(f, prod(f, Single(TAU), t), Single(P_8_0))
    }

    /// Where the source is at a time: on a circle around the listener.
    pub open spec fn place(self, f: Calc, t: Single) -> Point {
        [
            plus_prod(f, self.listener@[0], Single(P_2_2), f(Op::Cos(Orbit::angle(f, t)))),
            plus_prod(f, self.listener@[1], Single(P_2_2), f(Op::Sin(Orbit::angle(f, t)))),
            Single(P_1_5),
        ]
    }

    /// Where the source is at time `t`: on a circle around the listener.
    pub fn source_at<F: Fn(Op) -> Single>(&self, f: &F, t: Single) -> (r: Point)
        requires
            is_steady(*f),
        ensures
            r@ == seq![
                plus_prod(
                    answering(*f),
                    self.listener@[0],
                    Single(P_2_2),
                    answering(*f)(Op::Cos(Orbit::angle(answering(*f), t))),
                ),
                plus_prod(
                    answering(*f),
                    self.listener@[1],
                    Single(P_2_2),
                    answering(*f)(Op::Sin(Orbit::angle(answering(*f), t))),
                ),
                Single(P_1_5),
            ],
            r == self.place(answering(*f), t),
    {
        let ang: Single = over(f, times(f, Single(TAU), t), Single(P_8_0));
        let c: Single = ask(f, Op::Cos(ang));
        let s: Single = ask(f, Op::Sin(ang));
        let r: Point = [
            add_times(f, self.listener[0], Single(P_2_2), c),
            add_times(f, self.listener[1], Single(P_2_2), s),
            Single(P_1_5),
        ];
        let ghost g = answering(*f);
        assert(r@ =~= seq![
            plus_prod(g, self.listener@[0], Single(P_2_2), g(Op::Cos(Orbit::angle(g, t)))),
            plus_prod(g, self.listener@[1], Single(P_2_2), g(Op::Sin(Orbit::angle(g, t)))),
            Single(P_1_5),
        ]);
        assert(r@ =~= self.place(g, t)@);
        r
    }
}

} // verus!
