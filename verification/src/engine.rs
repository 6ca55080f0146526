//! Everything that plays at once: per-source renderers and clips on one bus
//! into one output stage. The simulation side writes parameter blocks to a
//! mailbox and reads the listener's pose; the audio side only takes what is in
//! the mailbox and plays on.

use crate::ambi::{quiet, Frame};
use crate::arith::{plus, sum, Calc, Op};
use crate::hrtf::{bank_taps, is_bank, HrirGrid};
use crate::level::{boosted, clip_gain, normalize_rms, Meter, REF_CLIP_RMS};
use crate::output::OutputStage;
use crate::params::ParamBlock;
use crate::probe::{answering, is_steady};
use crate::renderer::{is_grid, is_playable, Heard, Renderer};
use crate::signal::Clip;
use crate::single::Single;
use std::sync::Arc;
use vstd::prelude::*;

verus! {

/// Source slots: three of the scene, three dynamic.
pub const NSRC: usize = 6;

/// One dynamic source: a place, and whether it sounds.
#[derive(Clone, Copy, Debug, PartialEq, Eq, Structural)]
pub struct DynamicSource {
    pub x: Single,
    pub y: Single,
    pub z: Single,
    pub active: bool,
}

/// Where the listener is and which way they walk, with the dynamic sources.
#[derive(Debug)]
pub struct Pose {
    pub x: Single,
    pub y: Single,
    pub yaw: Single,
    pub dynamics: Vec<DynamicSource>,
}

/// What the simulation last wrote.
#[derive(Debug)]
pub struct Mailbox {
    pub blocks: Option<Vec<ParamBlock>>,
    pub room: usize,
    pub rt60_mid: Single,
}

/// How many voices sound: each needs a renderer and a clip.
pub open spec fn voices(renderers: nat, clips: nat) -> nat {
    if renderers <= clips {
        renderers
    } else {
        clips
    }
}

/// What the first `n` voices put on an empty bus, one after the other.
pub open spec fn mixed_voices(f: Calc, rs: Seq<Renderer>, clips: Seq<Clip>, n: int) -> Heard
    decreases n,
{
    if n <= 0 {
        Heard { bus: quiet(), left: Single(0), right: Single(0) }
    } else {
        let before = mixed_voices(f, rs, clips, n - 1);
        let x = clips[n - 1].now();
        let h = rs[n - 1].taps_heard(f, x, before.bus);
        Heard {
            bus: rs[n - 1].bus_after(f, x, before.bus),
            left: sum(f, before.left, h.left),
            right: sum(f, before.right, h.right),
        }
    }
}

pub open spec fn can_render(rs: Seq<Renderer>) -> bool {
    forall|i: int| 0 <= i < rs.len() ==> (#[trigger] rs[i]).wf()
}

pub open spec fn can_loop(clips: Seq<Clip>) -> bool {
    forall|i: int| 0 <= i < clips.len() ==> (#[trigger] clips[i]).wf()
}

/// Renderers, clips and the output stage between two samples.
#[verifier::ext_equal]
pub ghost struct Playing {
    pub renderers: Seq<Renderer>,
    pub clips: Seq<Clip>,
    pub out: OutputStage,
}

impl Playing {
    pub open spec fn wf(self) -> bool {
        &&& can_render(self.renderers)
        &&& can_loop(self.clips)
        &&& self.out.wf()
    }

    pub open spec fn voices(self) -> int {
        voices(self.renderers.len(), self.clips.len()) as int
    }

    /// What all voices put on the bus.
    pub open spec fn mix(self, f: Calc) -> Heard {
        mixed_voices(f, self.renderers, self.clips, self.voices())
    }

    /// The sample that is heard.
    pub open spec fn sample(self, f: Calc) -> (Single, Single) {
        let m = self.mix(f);
        self.out.heard(f, m.bus, m.left, m.right)
    }

    /// `now` is one sample on.
    pub open spec fn stepped(self, f: Calc, now: Playing) -> bool {
        let n = self.voices();
        let m = self.mix(f);
        &&& now.renderers.len() == self.renderers.len()
        &&& now.clips.len() == self.clips.len()
        &&& forall|i: int|
            0 <= i < n ==> self.renderers[i].stepped(
                f,
                self.clips[i].now(),
                #[trigger] now.renderers[i],
            )
        &&& forall|i: int|
            n <= i < self.renderers.len() ==> #[trigger] now.renderers[i] == self.renderers[i]
        &&& forall|i: int| 0 <= i < n ==> #[trigger] now.clips[i] == self.clips[i].next()
        &&& forall|i: int| n <= i < self.clips.len() ==> #[trigger] now.clips[i] == self.clips[i]
        &&& self.out.stepped(f, m.bus, m.left, m.right, now.out)
    }
}

/// `trace` leads sample by sample from its first state on, and `heard` is what
/// came out.
pub open spec fn is_run(f: Calc, trace: Seq<Playing>, heard: Seq<(Single, Single)>) -> bool {
    &&& trace.len() == heard.len() + 1
    &&& forall|k: int|
        0 <= k < heard.len() ==> {
            &&& (#[trigger] trace[k]).stepped(f, trace[k + 1])
            &&& heard[k] == trace[k].sample(f)
        }
}

/// Play one sample of every voice.
pub fn mix_voices<F: Fn(Op) -> Single>(
    f: &F,
    renderers: &mut Vec<Renderer>,
    clips: &mut Vec<Clip>,
    out: &mut OutputStage,
) -> (o: (Single, Single))
    requires
        is_steady(*f),
        (Playing { renderers: old(renderers)@, clips: old(clips)@, out: *old(out) }).wf(),
    ensures
        (Playing { renderers: final(renderers)@, clips: final(clips)@, out: *final(out) }).wf(),
        (Playing { renderers: old(renderers)@, clips: old(clips)@, out: *old(out) }).stepped(
            answering(*f),
            Playing { renderers: final(renderers)@, clips: final(clips)@, out: *final(out) },
        ),
        o == (Playing { renderers: old(renderers)@, clips: old(clips)@, out: *old(out) }).sample(
            answering(*f),
        ),
{
    let ghost g = answering(*f);
    let ghost was = Playing { renderers: renderers@, clips: clips@, out: *out };
    let mut bus: Frame = [Single(0);9];
    assert(bus@ =~= quiet()@);
    let mut pl: Single = Single(0);
    let mut pr: Single = Single(0);
    let n: usize = if renderers.len() <= clips.len() {
        renderers.len()
    } else {
        clips.len()
    };
    let mut i: usize = 0;
    while i < n
        invariant
            i <= n,
            n == was.voices(),
            is_steady(*f),
            g == answering(*f),
            was.wf(),
            renderers@.len() == was.renderers.len(),
            clips@.len() == was.clips.len(),
            n <= renderers@.len(),
            n <= clips@.len(),
            (Heard { bus, left: pl, right: pr }) == mixed_voices(
                g,
                was.renderers,
                was.clips,
                i as int,
            ),
            forall|j: int|
                0 <= j < i ==> was.renderers[j].stepped(
                    g,
                    was.clips[j].now(),
                    #[trigger] renderers@[j],
                ),
            can_render(renderers@),
            forall|j: int|
                i <= j < renderers@.len() ==> #[trigger] renderers@[j] == was.renderers[j],
            forall|j: int| 0 <= j < i ==> #[trigger] clips@[j] == was.clips[j].next(),
            can_loop(clips@),
            forall|j: int| i <= j < clips@.len() ==> #[trigger] clips@[j] == was.clips[j],
        decreases n - i,
    {
        let x: Single = clips[i].tick();
        let (a, b) = renderers[i].process(f, x, &mut bus);
        pl = plus(f, pl, a);
        pr = plus(f, pr, b);
        i = i + 1;
    }
    out.process(f, &bus, pl, pr)
}

/// Blocks are handed to the renderers one for one; what has no counterpart is
/// left alone.
pub open spec fn are_retargeted(
    f: Calc,
    before: Seq<Renderer>,
    blocks: Seq<ParamBlock>,
    now: Seq<Renderer>,
) -> bool {
    &&& now.len() == before.len()
    &&& forall|i: int|
        0 <= i < before.len() ==> if i < blocks.len() {
            before[i].retargeted(f, blocks[i], #[trigger] now[i])
        } else {
            now[i] == before[i]
        }
}

/// Hand a tick's blocks to the renderers.
pub fn take_blocks<F: Fn(Op) -> Single>(
    f: &F,
    renderers: &mut Vec<Renderer>,
    blocks: &Vec<ParamBlock>,
)
    requires
        is_steady(*f),
        can_render(old(renderers)@),
    ensures
        can_render(final(renderers)@),
        are_retargeted(answering(*f), old(renderers)@, blocks@, final(renderers)@),
{
    let ghost was = renderers@;
    let mut i: usize = 0;
    while i < renderers.len() && i < blocks.len()
        invariant
            i <= renderers@.len(),
            i <= blocks@.len(),
            is_steady(*f),
            renderers@.len() == was.len(),
            can_render(renderers@),
            forall|j: int|
                0 <= j < i ==> was[j].retargeted(answering(*f), blocks@[j], #[trigger] renderers@[j]),
            forall|j: int| i <= j < was.len() ==> #[trigger] renderers@[j] == was[j],
        decreases renderers@.len() - i,
    {
        renderers[i].set_params(f, &blocks[i]);
        i = i + 1;
    }
}

#[derive(Debug)]
pub struct SpatialEngine {
    pub renderers: Vec<Renderer>,
    pub sources: Vec<Clip>,
    pub out: OutputStage,
    pub pose: Pose,
    pub room: usize,
    pub rt60_mid: Single,
}

impl SpatialEngine {
    /// What plays.
    pub open spec fn playing(self) -> Playing {
        Playing { renderers: self.renderers@, clips: self.sources@, out: self.out }
    }

    pub open spec fn wf(self) -> bool {
        &&& self.renderers@.len() == NSRC
        &&& self.sources@.len() == NSRC
        &&& can_render(self.renderers@)
        &&& can_loop(self.sources@)
        &&& self.out.wf()
    }

    /// A silent engine over measured responses: a grid for point-rendered
    /// paths and a bank for the bus; `slots` dynamic sources, none active.
    pub fn new<F: Fn(Op) -> Single>(
        f: &F,
        sample_rate: Single,
        grid: HrirGrid,
        speakers: &[u8],
        slots: usize,
    ) -> (r: Self)
        requires
            is_steady(*f),
            is_playable(answering(*f), sample_rate),
            grid.wf(),
            0 < grid.taps,
            0 < grid.dirs@.len(),
            is_bank(speakers@),
            bank_taps(speakers@) > 0,
        ensures
            r.wf(),
            forall|i: int|
                0 <= i < NSRC ==> {
                    &&& (#[trigger] r.renderers@[i]).is_fresh(answering(*f), sample_rate)
                    &&& r.renderers@[i].grid matches Some(g) && *g == grid
                },
            forall|i: int|
                0 <= i < NSRC ==> (#[trigger] r.sources@[i]).data@.len() == 0 && r.sources@[i].pos
                    == 0,
            r.out.decode is Hrtf,
            r.out.is_fresh(answering(*f), Some(speakers@), sample_rate),
            r.pose.x == Single(0) && r.pose.y == Single(0) && r.pose.yaw == Single(0),
            r.pose.dynamics@.len() == slots,
            forall|i: int|
                0 <= i < slots ==> #[trigger] r.pose.dynamics@[i] == (DynamicSource {
                    x: Single(0),
                    y: Single(0),
                    z: Single(0),
                    active: false,
                }),
            r.room == 0,
            r.rt60_mid == Single(0),
    {
        let ghost g = answering(*f);
        let shared: Arc<HrirGrid> = Arc::new(grid);
        let mut renderers: Vec<Renderer> = Vec::new();
        let mut sources: Vec<Clip> = Vec::new();
        while renderers.len() < NSRC
            invariant
                renderers@.len() <= NSRC,
                sources@.len() == renderers@.len(),
                is_steady(*f),
                g == answering(*f),
                is_playable(g, sample_rate),
                *shared == grid,
                is_grid(Some(shared)),
                forall|i: int|
                    0 <= i < renderers@.len() ==> {
                        &&& (#[trigger] renderers@[i]).wf()
                        &&& renderers@[i].is_fresh(g, sample_rate)
                        &&& renderers@[i].grid == Some(shared)
                    },
                forall|i: int|
                    0 <= i < sources@.len() ==> (#[trigger] sources@[i]).data@.len() == 0
                        && sources@[i].pos == 0,
            decreases NSRC - renderers@.len(),
        {
            renderers.push(Renderer::with_grid(f, sample_rate, Some(Arc::clone(&shared))));
            sources.push(Clip::new(Vec::new()));
        }
        let mut dynamics: Vec<DynamicSource> = Vec::new();
        while dynamics.len() < slots
            invariant
                dynamics@.len() <= slots,
                forall|i: int|
                    0 <= i < dynamics@.len() ==> #[trigger] dynamics@[i] == (DynamicSource {
                        x: Single(0),
                        y: Single(0),
                        z: Single(0),
                        active: false,
                    }),
            decreases slots - dynamics@.len(),
        {
            dynamics.push(
                DynamicSource { x: Single(0), y: Single(0), z: Single(0), active: false },
            );
        }
        SpatialEngine {
            renderers,
            sources,
            out: OutputStage::from_speaker_bytes(f, Some(speakers), sample_rate),
            pose: Pose { x: Single(0), y: Single(0), yaw: Single(0), dynamics },
            room: 0,
            rt60_mid: Single(0),
        }
    }

    /// Loop a clip on source `i`, brought to the reference loudness. A source
    /// that there is not is ignored.
    pub fn set_source_samples<
        F: Fn(Op) -> Single,
        A: Fn((u64, Single)) -> u64,
        R: Fn((u64, u64)) -> Single,
        M,
    >(&mut self, f: &F, meter: &Meter<A, R, M>, i: usize, samples: Vec<Single>)
        requires
            is_steady(*f),
            is_steady(meter.grow),
            is_steady(meter.rms),
            old(self).wf(),
        ensures
            final(self).wf(),
            *final(self) == (SpatialEngine { sources: final(self).sources, ..*old(self) }),
            forall|j: int|
                0 <= j < NSRC && j != i ==> #[trigger] final(self).sources@[j]
                    == old(self).sources@[j],
            i < NSRC ==> {
                &&& final(self).sources@[i as int].pos == 0
                &&& final(self).sources@[i as int].data@ == (match clip_gain(
                    answering(*f),
                    answering(meter.grow),
                    answering(meter.rms),
                    samples@,
                    Single(REF_CLIP_RMS),
                ) {
                    Some(g) => boosted(answering(*f), samples@, g),
                    None => samples@,
                })
            },
    {
        let mut samples: Vec<Single> = samples;
        normalize_rms(f, meter, &mut samples, Single(REF_CLIP_RMS));
        if i < self.sources.len() {
            self.sources.set(i, Clip::new(samples));
        }
    }

    pub fn set_listener(&mut self, x: Single, y: Single, yaw: Single)
        requires
            old(self).wf(),
        ensures
            final(self).wf(),
            *final(self) == (SpatialEngine {
                pose: Pose { x, y, yaw, ..old(self).pose },
                ..*old(self)
            }),
    {
        self.pose.x = x;
        self.pose.y = y;
        self.pose.yaw = yaw;
    }

    /// Move a dynamic source. A slot that there is not is ignored.
    pub fn set_dynamic(&mut self, slot: usize, x: Single, y: Single, z: Single, active: bool)
        requires
            old(self).wf(),
        ensures
            final(self).wf(),
            *final(self) == (SpatialEngine {
                pose: Pose { dynamics: final(self).pose.dynamics, ..old(self).pose },
                ..*old(self)
            }),
            final(self).pose.dynamics@ == (if slot < old(self).pose.dynamics@.len() {
                old(self).pose.dynamics@.update(slot as int, DynamicSource { x, y, z, active })
            } else {
                old(self).pose.dynamics@
            }),
    {
        if slot < self.pose.dynamics.len() {
            self.pose.dynamics.set(slot, DynamicSource { x, y, z, active });
        }
    }

    /// Turn the head, without waiting for a simulation tick.
    pub fn set_head(&mut self, yaw: Single, pitch: Single, roll: Single)
        requires
            old(self).wf(),
        ensures
            final(self).wf(),
            *final(self) == (SpatialEngine {
                renderers: final(self).renderers,
                out: final(self).out,
                ..*old(self)
            }),
            forall|i: int|
                0 <= i < NSRC ==> #[trigger] final(self).renderers@[i] == old(
                    self,
                ).renderers@[i].faced(yaw),
            final(self).out == (OutputStage { head: final(self).out.head, ..old(self).out }),
            final(self).out.head@ == seq![
                old(self).out.head@[0].towards(yaw),
                old(self).out.head@[1].towards(pitch),
                old(self).out.head@[2].towards(roll),
            ],
    {
        let ghost was = *self;
        let mut i: usize = 0;
        while i < self.renderers.len()
            invariant
                i <= self.renderers@.len(),
                self.renderers@.len() == NSRC,
                was.wf(),
                *self == (SpatialEngine { renderers: self.renderers, ..was }),
                can_render(self.renderers@),
                forall|j: int|
                    0 <= j < i ==> #[trigger] self.renderers@[j] == was.renderers@[j].faced(yaw),
                forall|j: int| i <= j < NSRC ==> #[trigger] self.renderers@[j] == was.renderers@[j],
            decreases self.renderers@.len() - i,
        {
            self.renderers[i].set_head_yaw(yaw);
            i = i + 1;
        }
        self.out.set_head(yaw, pitch, roll);
    }

    /// Turn the head to a yaw; pitch and roll stay what they head for.
    pub fn set_head_yaw(&mut self, yaw: Single)
        requires
            old(self).wf(),
        ensures
            final(self).wf(),
            *final(self) == (SpatialEngine {
                renderers: final(self).renderers,
                out: final(self).out,
                ..*old(self)
            }),
            forall|i: int|
                0 <= i < NSRC ==> #[trigger] final(self).renderers@[i] == old(
                    self,
                ).renderers@[i].faced(yaw),
            final(self).out == (OutputStage { head: final(self).out.head, ..old(self).out }),
            final(self).out.head@ == old(self).out.head@.update(
                0,
                old(self).out.head@[0].towards(yaw),
            ),
    {
        let ghost h = self.out.head@;
        let pitch: Single = self.out.head[1].target_val();
        let roll: Single = self.out.head[2].target_val();
        self.set_head(yaw, pitch, roll);
        assert(self.out.head@ =~= h.update(0, h[0].towards(yaw)));
    }

    /// Set how many paths of every source are point-rendered.
    pub fn set_point_budget(&mut self, n: usize)
        requires
            old(self).wf(),
        ensures
            final(self).wf(),
            *final(self) == (SpatialEngine { renderers: final(self).renderers, ..*old(self) }),
            forall|i: int|
                0 <= i < NSRC ==> #[trigger] final(self).renderers@[i] == old(
                    self,
                ).renderers@[i].budgeted(n),
    {
        let ghost was = *self;
        let mut i: usize = 0;
        while i < self.renderers.len()
            invariant
                i <= self.renderers@.len(),
                self.renderers@.len() == NSRC,
                was.wf(),
                *self == (SpatialEngine { renderers: self.renderers, ..was }),
                can_render(self.renderers@),
                forall|j: int|
                    0 <= j < i ==> #[trigger] self.renderers@[j] == was.renderers@[j].budgeted(n),
                forall|j: int| i <= j < NSRC ==> #[trigger] self.renderers@[j] == was.renderers@[j],
            decreases self.renderers@.len() - i,
        {
            self.renderers[i].set_point_budget(n);
            i = i + 1;
        }
    }

    pub fn agc_gain(&self) -> (r: Single)
        ensures
            r == self.out.ears.agc_gain,
    {
        self.out.agc_gain()
    }

    /// Take what is in the mailbox, and render `frames` stereo samples into
    /// `out`.
    pub fn render<F: Fn(Op) -> Single>(
        &mut self,
        f: &F,
        mail: &mut Mailbox,
        frames: usize,
        out: &mut Vec<(Single, Single)>,
    )
        requires
            is_steady(*f),
            old(self).wf(),
        ensures
            final(self).wf(),
            final(self).pose == old(self).pose,
            final(self).room == old(mail).room,
            final(self).rt60_mid == old(mail).rt60_mid,
            *final(mail) == (Mailbox { blocks: None, ..*old(mail) }),
            final(out)@.len() == frames,
            exists|trace: Seq<Playing>|
                {
                    &&& #[trigger] is_run(answering(*f), trace, final(out)@)
                    &&& are_retargeted(
                        answering(*f),
                        old(self).renderers@,
                        match old(mail).blocks {
                            Some(b) => b@,
                            None => Seq::empty(),
                        },
                        trace[0].renderers,
                    )
                    &&& trace[0].clips == old(self).sources@
                    &&& trace[0].out == old(self).out
                    &&& trace.last() == final(self).playing()
                },
    {
        let ghost g = answering(*f);
        let ghost was = *self;
        self.room = mail.room;
        self.rt60_mid = mail.rt60_mid;
        let mut blocks: Option<Vec<ParamBlock>> = None;
        std::mem::swap(&mut blocks, &mut mail.blocks);
        if let Some(b) = &blocks {
            take_blocks(f, &mut self.renderers, b);
        }
        let ghost first = self.playing();
        let ghost mut trace: Seq<Playing> = seq![first];
        out.clear();
        let mut k: usize = 0;
        while k < frames
            invariant
                k <= frames,
                is_steady(*f),
                g == answering(*f),
                self.wf(),
                self.pose == was.pose,
                self.room == mail.room,
                self.rt60_mid == mail.rt60_mid,
                out@.len() == k,
                is_run(g, trace, out@),
                trace[0] == first,
                trace.last() == self.playing(),
            decreases frames - k,
        {
            let ghost before = trace;
            let ghost heard = out@;
            let o: (Single, Single) = mix_voices(
                f,
                &mut self.renderers,
                &mut self.sources,
                &mut self.out,
            );
            out.push(o);
            proof {
                let now = self.playing();
                trace = before.push(now);
                assert forall|j: int| 0 <= j < out@.len() implies {
                    &&& (#[trigger] trace[j]).stepped(g, trace[j + 1])
                    &&& out@[j] == trace[j].sample(g)
                } by {
                    if j < heard.len() {
                        assert(before[j].stepped(g, before[j + 1]));
                        assert(trace[j] == before[j] && trace[j + 1] == before[j + 1]);
                    } else {
                        assert(trace[j] == before.last());
                    }
                }
            }
            k = k + 1;
        }
        assert(is_run(g, trace, out@));
    }
}

} // verus!
