//! Offline and live playing: when the simulation ticks, what a sample is made
//! of, and what is written down.

use crate::ambi::{quiet, Frame};
use crate::arith::{over, quot, times, Calc, Op, prod};
use crate::engine::{are_retargeted, can_loop, can_render, mix_voices, take_blocks, Playing};
use crate::import::{sample_16, WavLevels};
use crate::json::{add_entry, with_entry, TickText};
use crate::output::OutputStage;
use crate::params::ParamBlock;
use crate::probe::{answering, is_steady};
use crate::renderer::Renderer;
use crate::signal::{Clip, Source};
use crate::single::{rounded, Single};
use vstd::prelude::*;

verus! {

/// The pattern of 20.0.
pub const P_20_0: u32 = 0x41A0_0000;

/// What is next.
#[derive(Clone, Copy, Debug, PartialEq, Eq, Structural)]
pub enum Act {
    /// Let the simulation tick, for this time in seconds.
    Simulate(Single),
    /// Play one sample.
    Play,
    Finish,
}

/// The two clocks of an offline render: the simulation ticks 20 times a second
/// of sound, the rest is samples.
#[derive(Clone, Copy, Debug, PartialEq, Eq, Structural)]
pub struct Clock {
    pub fs: Single,
    pub total: usize,
    pub interval: usize,
    /// Samples played.
    pub n: usize,
    /// The tick that is due before sample `n` was given.
    pub ticked: bool,
}

impl Clock {
    /// The clocks before the first sample.
    pub open spec fn at_start(f: Calc, secs: Single, fs: Single) -> Clock {
        Clock {
            fs,
            total: prod(f, secs, fs).truncated(usize::MAX as nat) as usize,
            interval: quot(f, fs, Single(P_20_0)).truncated(usize::MAX as nat) as usize,
            n: 0,
            ticked: false,
        }
    }

    /// A tick is due before the next sample.
    pub open spec fn is_due(self) -> bool {
        !self.ticked && self.n as int % self.interval as int == 0
    }

    /// What is next.
    pub open spec fn next_act(self, f: Calc) -> Act {
        if self.n >= self.total {
            Act::Finish
        } else if self.is_due() {
            Act::Simulate(quot(f, rounded(self.n as nat), self.fs))
        } else {
            Act::Play
        }
    }

    /// The clocks after that.
    pub open spec fn next(self, f: Calc) -> Clock {
        match self.next_act(f) {
            Act::Finish => self,
            Act::Simulate(_) => Clock { ticked: true, ..self },
            Act::Play => Clock { n: (self.n + 1) as usize, ticked: false, ..self },
        }
    }

    pub fn new<F: Fn(Op) -> Single>(f: &F, secs: Single, fs: Single) -> (r: Self)
        requires
            is_steady(*f),
        ensures
            r == Clock::at_start(answering(*f), secs, fs),
    {
        let total: usize = times(f, secs, fs).to_usize();
        let interval: usize = over(f, fs, Single(P_20_0)).to_usize();
        Clock { fs, total, interval, n: 0, ticked: false }
    }

    pub fn act<F: Fn(Op) -> Single>(&mut self, f: &F) -> (r: Act)
        requires
            is_steady(*f),
            old(self).interval > 0,
        ensures
            r == old(self).next_act(answering(*f)),
            *final(self) == old(self).next(answering(*f)),
    {
        if self.n >= self.total {
            Act::Finish
        } else if !self.ticked && self.n % self.interval == 0 {
            self.ticked = true;
            Act::Simulate(over(f, Single::from_usize(self.n), self.fs))
        } else {
            self.ticked = false;
            self.n = self.n + 1;
            Act::Play
        }
    }
}

/// The clocks after `k` acts.
pub open spec fn acted(f: Calc, c: Clock, k: nat) -> Clock
    decreases k,
{
    if k == 0 {
        c
    } else {
        acted(f, c, (k - 1) as nat).next(f)
    }
}

/// How many of the first `k` acts were ticks.
pub open spec fn ticks_of(f: Calc, c: Clock, k: nat) -> nat
    decreases k,
{
    if k == 0 {
        0
    } else {
        ticks_of(f, c, (k - 1) as nat) + if acted(f, c, (k - 1) as nat).next_act(f) is Simulate {
            1nat
        } else {
            0
        }
    }
}

/// How many ticks belong to the first `n` samples: one at the start of every
/// interval.
pub open spec fn ticks_due(n: nat, interval: nat) -> nat {
    ((n + interval - 1) / (interval as int)) as nat
}

/// The simulation ticks once at the start of every interval and at no other
/// time: however long the clocks run, the ticks given are those due for the
/// samples played, and the one that is out.
pub proof fn every_interval_has_one_tick(f: Calc, secs: Single, fs: Single, k: nat)
    requires
        Clock::at_start(f, secs, fs).interval > 0,
    ensures
        ({
            let c = Clock::at_start(f, secs, fs);
            let now = acted(f, c, k);
            ticks_of(f, c, k) == ticks_due(now.n as nat, now.interval as nat) + if now.ticked {
                1nat
            } else {
                0
            }
        }),
{
    lemma_ticks(f, Clock::at_start(f, secs, fs), k);
}

proof fn lemma_due(n: nat, d: nat)
    requires
        d > 0,
    ensures
        ticks_due(0, d) == 0,
        ticks_due(n + 1, d) == ticks_due(n, d) + if n as int % d as int == 0 {
            1nat
        } else {
            0
        },
{
    let (ni, di) = (n as int, d as int);
    vstd::arithmetic::div_mod::lemma_basic_div(di - 1, di);
    vstd::arithmetic::div_mod::lemma_fundamental_div_mod(ni, di);
    let q = ni / di;
    let r = ni % di;
    assert(di * (q + 1) == di * q + di) by (nonlinear_arith);
    vstd::arithmetic::div_mod::lemma_fundamental_div_mod_converse(ni + di, di, q + 1, r);
    if r == 0 {
        vstd::arithmetic::div_mod::lemma_fundamental_div_mod_converse(ni + di - 1, di, q, di - 1);
    } else {
        vstd::arithmetic::div_mod::lemma_fundamental_div_mod_converse(
            ni + di - 1,
            di,
            q + 1,
            r - 1,
        );
    }
}

proof fn lemma_ticks(f: Calc, c: Clock, k: nat)
    requires
        c.interval > 0,
        c.n == 0,
        !c.ticked,
    ensures
        ({
            let now = acted(f, c, k);
            &&& now.interval == c.interval
            &&& now.ticked ==> now.n as int % now.interval as int == 0
            &&& ticks_of(f, c, k) == ticks_due(now.n as nat, now.interval as nat) + if now.ticked {
                1nat
            } else {
                0
            }
        }),
    decreases k,
{
    lemma_due(0, c.interval as nat);
    if k > 0 {
        lemma_ticks(f, c, (k - 1) as nat);
        let before = acted(f, c, (k - 1) as nat);
        lemma_due(before.n as nat, c.interval as nat);
    }
}

/// What one channel of a device gets: left, right, and silence for the rest.
pub fn channel_sample(l: Single, r: Single, channel: usize) -> (s: Single)
    ensures
        s == (if channel == 0 {
            l
        } else if channel == 1 {
            r
        } else {
            Single(0)
        }),
{
    match channel {
        0 => l,
        1 => r,
        _ => Single(0),
    }
}

/// One source in one room.
#[derive(Debug)]
pub struct Demo {
    pub source: Source,
    pub renderer: Renderer,
    pub out: OutputStage,
}

impl Demo {
    pub open spec fn wf(self, f: Calc) -> bool {
        self.source.wf(f) && self.renderer.wf() && self.out.wf()
    }

    /// Play one sample.
    pub fn play<F: Fn(Op) -> Single>(&mut self, f: &F) -> (o: (Single, Single))
        requires
            is_steady(*f),
            old(self).wf(answering(*f)),
        ensures
            final(self).renderer.wf(),
            final(self).out.wf(),
            old(self).source.ticked(answering(*f), final(self).source),
            ({
                let g = answering(*f);
                let x = old(self).source.now(g);
                let h = old(self).renderer.taps_heard(g, x, quiet());
                let bus = old(self).renderer.bus_after(g, x, quiet());
                &&& old(self).renderer.stepped(g, x, final(self).renderer)
                &&& old(self).out.stepped(g, bus, h.left, h.right, final(self).out)
                &&& o == old(self).out.heard(g, bus, h.left, h.right)
            }),
    {
        let mut bus: Frame = [Single(0);9];
        assert(bus@ =~= quiet()@);
        assert(bus == quiet());
        let x: Single = self.source.tick(f);
        let (pl, pr) = self.renderer.process(f, x, &mut bus);
        self.out.process(f, &bus, pl, pr)
    }
}

/// The number of no room: a walk starts there.
pub const NOWHERE: usize = usize::MAX;

/// A walk through a world: a clip and a renderer per source, and what is
/// written down.
#[derive(Debug)]
pub struct Walk {
    pub renderers: Vec<Renderer>,
    pub clips: Vec<Clip>,
    pub out: OutputStage,
    pub levels: WavLevels,
    pub ticks_json: String,
    /// The room last entered; `NOWHERE` before the first.
    pub last_room: usize,
    pub n_ticks: u32,
}

impl Walk {
    /// What plays.
    pub open spec fn playing(self) -> Playing {
        Playing { renderers: self.renderers@, clips: self.clips@, out: self.out }
    }

    pub fn new(renderers: Vec<Renderer>, clips: Vec<Clip>, out: OutputStage) -> (r: Self)
        requires
            can_render(renderers@),
            can_loop(clips@),
            out.wf(),
        ensures
            r.playing() == (Playing { renderers: renderers@, clips: clips@, out }),
            r.playing().wf(),
            r.levels == (WavLevels { peak: Single(0), sum_sq: 0, n: 0 }),
            r.ticks_json@.len() == 0,
            r.last_room == NOWHERE,
            r.n_ticks == 0,
    {
        Walk {
            renderers,
            clips,
            out,
            levels: WavLevels::new(),
            ticks_json: String::new(),
            last_room: NOWHERE,
            n_ticks: 0,
        }
    }

    /// Take a tick: the blocks go to the renderers, an entry is written. Tells
    /// whether another room was entered.
    pub fn take_tick<F: Fn(Op) -> Single>(
        &mut self,
        f: &F,
        blocks: &Vec<ParamBlock>,
        info: &TickText,
    ) -> (entered: bool)
        requires
            is_steady(*f),
            old(self).playing().wf(),
            old(self).n_ticks < u32::MAX,
        ensures
            final(self).playing().wf(),
            are_retargeted(
                answering(*f),
                old(self).renderers@,
                blocks@,
                final(self).renderers@,
            ),
            final(self).clips == old(self).clips,
            final(self).out == old(self).out,
            final(self).levels == old(self).levels,
            final(self).n_ticks == old(self).n_ticks + 1,
            final(self).ticks_json@ == with_entry(old(self).ticks_json@, info.text()),
            entered == (old(self).last_room != info.room),
            final(self).last_room == info.room,
    {
        take_blocks(f, &mut self.renderers, blocks);
        self.n_ticks = self.n_ticks + 1;
        let entered: bool = self.last_room != info.room;
        self.last_room = info.room;
        let entry: String = info.write();
        add_entry(&mut self.ticks_json, &entry);
        entered
    }

    /// Play one sample of every source and write it down; its two channels in
    /// 16 bits.
    pub fn play<F: Fn(Op) -> Single, A: Fn((u64, Single)) -> u64>(
        &mut self,
        f: &F,
        grow: &A,
    ) -> (o: (i16, i16))
        requires
            is_steady(*f),
            is_steady(*grow),
            old(self).playing().wf(),
            old(self).levels.n < usize::MAX,
        ensures
            final(self).playing().wf(),
            old(self).playing().stepped(answering(*f), final(self).playing()),
            final(self).ticks_json == old(self).ticks_json,
            final(self).last_room == old(self).last_room,
            final(self).n_ticks == old(self).n_ticks,
            ({
                let s = old(self).playing().sample(answering(*f));
                &&& final(self).levels == old(self).levels.with(
                    answering(*f),
                    answering(*grow),
                    s.0,
                    s.1,
                )
                &&& o.0 == sample_16(answering(*f), s.0)
                &&& o.1 == sample_16(answering(*f), s.1)
            }),
    {
        let (l, r) = mix_voices(f, &mut self.renderers, &mut self.clips, &mut self.out);
        self.levels.write(f, grow, l, r)
    }
}

} // verus!
