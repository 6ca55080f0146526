//! Per-source tap pool: which slot renders which propagation path.
//!
//! Incoming taps carry a stable key that names their path. Same key: the slot
//! glides (delay motion is Doppler). New key: a free slot fades in from
//! silence at the final delay. Vanished key: the slot fades out and is
//! recycled. Delay is never slid between two different paths: that would be a
//! pitch chirp.

use crate::params::{ParamBlock, Tap, ONE};
use crate::rank::{is_top, precedes, strongest};
use crate::single::Single;
use crate::smooth::Smoothed;
use vstd::prelude::*;

verus! {

/// Pool size, about twice the largest expected tap count, so that fading
/// ghosts of a previous acoustic state can coexist with the new one.
pub const MAX_TAPS: usize = 448;

/// At most this many of the strongest incoming taps are rendered.
pub const MAX_INCOMING: usize = 160;

/// How many of the strongest taps are point-rendered unless told otherwise.
pub const DEFAULT_POINT_TAPS: usize = 24;

/// Samples between two selections of point-tap responses.
pub const RESELECT_SAMPLES: u32 = 128;

/// The pattern of 1e-6: a slot at or above this W gain still rings.
pub const RINGING: u32 = 0x3586_37BD;

/// The pattern of 1e-7: a slot below this W gain adds nothing.
pub const INAUDIBLE: u32 = 0x33D6_BF95;

/// The pattern of 1e-9: a band gain at or below this carries no ratio.
pub const NO_GAIN: u32 = 0x3089_705F;

/// The pattern of 2.0: low bands this far above the mids are heard through a
/// wall.
pub const TRANSMITTED: u32 = 0x4000_0000;

#[derive(Clone, Copy, Debug)]
pub struct TapState {
    pub key: Option<u32>,
    /// Point-rendered: a response of its own instead of the shared bus. A
    /// slot never changes mode while it is live.
    pub point: bool,
    /// Arrival direction before head rotation.
    pub base_dir: [Single; 3],
    /// In samples.
    pub delay: Smoothed,
    /// Low over mid amplitude.
    pub g_low: Smoothed,
    /// High over mid amplitude.
    pub g_high: Smoothed,
    /// Anchor gain times encoding, per channel.
    pub g_sh: [Smoothed; 9],
    /// Through-wall lowpass; 1.0 is bypass.
    pub lp_coef: Smoothed,
}

/// What a slot is told to head for.
#[derive(Clone, Copy, Debug)]
pub struct TapTargets {
    pub delay: Single,
    pub g_low: Single,
    pub g_high: Single,
    pub g_sh: [Single; 9],
    pub lp_coef: Single,
}

/// What the host works out from one tap before its targets are chosen.
#[derive(Clone, Copy, Debug)]
pub struct TapMeasures {
    /// Delay in samples.
    pub delay: Single,
    /// Low gain over mid gain, as it is.
    pub low_over_mid: Single,
    /// Low gain over mid gain, kept within 0 and 4.
    pub low_ratio: Single,
    /// High gain over mid gain, kept within 0 and 4.
    pub high_ratio: Single,
    /// Low gain times encoding, per channel.
    pub low_sh: [Single; 9],
    /// Mid gain times encoding, per channel.
    pub mid_sh: [Single; 9],
    /// Coefficient of the lowpass fitted through the band gains.
    pub lp_coef: Single,
}

/// A tap is heard through a wall: its lows are more than twice its mids.
pub open spec fn is_transmitted(t: Tap, m: TapMeasures) -> bool {
    &&& Single(NO_GAIN).below(t.gains@[1])
    &&& Single(TRANSMITTED).below(m.low_over_mid)
    &&& Single(NO_GAIN).below(t.gains@[0])
}

/// The targets of a tap: anchored at the low band behind a lowpass where it is
/// heard through a wall, at the mid band with two shelves elsewhere.
pub open spec fn targets(t: Tap, m: TapMeasures) -> TapTargets {
    if is_transmitted(t, m) {
        TapTargets {
            delay: m.delay,
            g_low: Single(ONE),
            g_high: Single(ONE),
            g_sh: m.low_sh,
            lp_coef: m.lp_coef,
        }
    } else {
        let shaped = Single(NO_GAIN).below(t.gains@[1]);
        TapTargets {
            delay: m.delay,
            g_low: if shaped { m.low_ratio } else { Single(ONE) },
            g_high: if shaped { m.high_ratio } else { Single(ONE) },
            g_sh: m.mid_sh,
            lp_coef: Single(ONE),
        }
    }
}

pub fn targets_of(t: &Tap, m: &TapMeasures) -> (r: TapTargets)
    ensures
        r == targets(*t, *m),
{
    let shaped: bool = Single(NO_GAIN).lt(t.gains[1]);
    let through: bool = shaped && Single(TRANSMITTED).lt(m.low_over_mid) && Single(NO_GAIN).lt(
        t.gains[0],
    );
    if through {
        TapTargets {
            delay: m.delay,
            g_low: Single(ONE),
            g_high: Single(ONE),
            g_sh: m.low_sh,
            lp_coef: m.lp_coef,
        }
    } else {
        TapTargets {
            delay: m.delay,
            g_low: if shaped { m.low_ratio } else { Single(ONE) },
            g_high: if shaped { m.high_ratio } else { Single(ONE) },
            g_sh: m.mid_sh,
            lp_coef: Single(ONE),
        }
    }
}

/// The smoothers `g`, all heading for zero.
pub open spec fn fading(g: [Smoothed; 9]) -> [Smoothed; 9] {
    [
        g@[0].towards(Single(0)),
        g@[1].towards(Single(0)),
        g@[2].towards(Single(0)),
        g@[3].towards(Single(0)),
        g@[4].towards(Single(0)),
        g@[5].towards(Single(0)),
        g@[6].towards(Single(0)),
        g@[7].towards(Single(0)),
        g@[8].towards(Single(0)),
    ]
}

/// The smoothers `g`, each heading for its value in `t`.
pub open spec fn heading(g: [Smoothed; 9], t: [Single; 9]) -> [Smoothed; 9] {
    [
        g@[0].towards(t@[0]),
        g@[1].towards(t@[1]),
        g@[2].towards(t@[2]),
        g@[3].towards(t@[3]),
        g@[4].towards(t@[4]),
        g@[5].towards(t@[5]),
        g@[6].towards(t@[6]),
        g@[7].towards(t@[7]),
        g@[8].towards(t@[8]),
    ]
}

/// The smoothers `g`, each at rest at its value in `t`.
pub open spec fn settled(g: [Smoothed; 9], t: [Single; 9]) -> [Smoothed; 9] {
    [
        g@[0].resting(t@[0]),
        g@[1].resting(t@[1]),
        g@[2].resting(t@[2]),
        g@[3].resting(t@[3]),
        g@[4].resting(t@[4]),
        g@[5].resting(t@[5]),
        g@[6].resting(t@[6]),
        g@[7].resting(t@[7]),
        g@[8].resting(t@[8]),
    ]
}

/// The smoothers `g`, each set to silence and heading for its value in `t`.
pub open spec fn rising(g: [Smoothed; 9], t: [Single; 9]) -> [Smoothed; 9] {
    [
        g@[0].resting(Single(0)).towards(t@[0]),
        g@[1].resting(Single(0)).towards(t@[1]),
        g@[2].resting(Single(0)).towards(t@[2]),
        g@[3].resting(Single(0)).towards(t@[3]),
        g@[4].resting(Single(0)).towards(t@[4]),
        g@[5].resting(Single(0)).towards(t@[5]),
        g@[6].resting(Single(0)).towards(t@[6]),
        g@[7].resting(Single(0)).towards(t@[7]),
        g@[8].resting(Single(0)).towards(t@[8]),
    ]
}

fn fade_all(g: &mut [Smoothed; 9])
    ensures
        *final(g) == fading(*old(g)),
{
    let ghost g0 = *g;
    let mut k: usize = 0;
    while k < 9
        invariant
            k <= 9,
            g@.len() == 9,
            g0@.len() == 9,
            forall|j: int| 0 <= j < k ==> #[trigger] g@[j] == g0@[j].towards(Single(0)),
            forall|j: int| k <= j < 9 ==> #[trigger] g@[j] == g0@[j],
        decreases 9 - k,
    {
        g[k].set(Single(0));
        k = k + 1;
    }
    assert(g@ =~= fading(g0)@);
}

fn head_all(g: &mut [Smoothed; 9], t: &[Single; 9])
    ensures
        *final(g) == heading(*old(g), *t),
{
    let ghost g0 = *g;
    let mut k: usize = 0;
    while k < 9
        invariant
            k <= 9,
            g@.len() == 9,
            g0@.len() == 9,
            forall|j: int| 0 <= j < k ==> #[trigger] g@[j] == g0@[j].towards(t@[j]),
            forall|j: int| k <= j < 9 ==> #[trigger] g@[j] == g0@[j],
        decreases 9 - k,
    {
        g[k].set(t[k]);
        k = k + 1;
    }
    assert(g@ =~= heading(g0, *t)@);
}

fn settle_all(g: &mut [Smoothed; 9], t: &[Single; 9])
    ensures
        *final(g) == settled(*old(g), *t),
{
    let ghost g0 = *g;
    let mut k: usize = 0;
    while k < 9
        invariant
            k <= 9,
            g@.len() == 9,
            g0@.len() == 9,
            forall|j: int| 0 <= j < k ==> #[trigger] g@[j] == g0@[j].resting(t@[j]),
            forall|j: int| k <= j < 9 ==> #[trigger] g@[j] == g0@[j],
        decreases 9 - k,
    {
        g[k].snap(t[k]);
        k = k + 1;
    }
    assert(g@ =~= settled(g0, *t)@);
}

fn raise_all(g: &mut [Smoothed; 9], t: &[Single; 9])
    ensures
        *final(g) == rising(*old(g), *t),
{
    let ghost g0 = *g;
    let mut k: usize = 0;
    while k < 9
        invariant
            k <= 9,
            g@.len() == 9,
            g0@.len() == 9,
            forall|j: int| 0 <= j < k ==> #[trigger] g@[j] == g0@[j].resting(Single(0)).towards(t@[j]),
            forall|j: int| k <= j < 9 ==> #[trigger] g@[j] == g0@[j],
        decreases 9 - k,
    {
        g[k].snap(Single(0));
        g[k].set(t[k]);
        k = k + 1;
    }
    assert(g@ =~= rising(g0, *t)@);
}

/// One tap to be placed in the pool.
#[derive(Clone, Copy, Debug)]
pub struct TapOrder {
    pub key: u32,
    pub dir: [Single; 3],
    pub targets: TapTargets,
    pub point: bool,
    /// The delay is within the retarget threshold of the delay that the
    /// pool last heard for this key.
    pub near: bool,
}

impl TapState {
    /// The current W gain is loud enough to be heard ringing.
    pub open spec fn rings(self) -> bool {
        !Single(self.g_sh@[0].cur.magnitude() as u32).below(Single(RINGING))
    }

    /// Without a path, heading for silence and already silent.
    pub open spec fn is_free(self) -> bool {
        &&& self.key is None
        &&& self.g_sh@[0].target.magnitude() == 0
        &&& !self.rings()
    }

    /// Fading out, without a path.
    pub open spec fn released(self) -> TapState {
        TapState { key: None, g_sh: fading(self.g_sh), ..self }
    }

    /// Following the same path to new values.
    pub open spec fn gliding(self, o: TapOrder) -> TapState {
        TapState {
            base_dir: o.dir,
            delay: self.delay.towards(o.targets.delay),
            g_low: self.g_low.towards(o.targets.g_low),
            g_high: self.g_high.towards(o.targets.g_high),
            lp_coef: self.lp_coef.towards(o.targets.lp_coef),
            g_sh: heading(self.g_sh, o.targets.g_sh),
            ..self
        }
    }

    /// On the same path, at new values at once.
    pub open spec fn jumped(self, o: TapOrder) -> TapState {
        TapState {
            base_dir: o.dir,
            delay: self.delay.resting(o.targets.delay),
            g_low: self.g_low.resting(o.targets.g_low),
            g_high: self.g_high.resting(o.targets.g_high),
            lp_coef: self.lp_coef.resting(o.targets.lp_coef),
            g_sh: settled(self.g_sh, o.targets.g_sh),
            ..self
        }
    }

    /// On a new path: at its final delay and tone, rising from silence.
    pub open spec fn started(self, o: TapOrder) -> TapState {
        TapState {
            key: Some(o.key),
            point: o.point,
            base_dir: o.dir,
            delay: self.delay.resting(o.targets.delay),
            g_low: self.g_low.resting(o.targets.g_low),
            g_high: self.g_high.resting(o.targets.g_high),
            lp_coef: self.lp_coef.resting(o.targets.lp_coef),
            g_sh: rising(self.g_sh, o.targets.g_sh),
        }
    }

    pub fn free(&self) -> (r: bool)
        ensures
            r == self.is_free(),
    {
        self.key.is_none() && self.g_sh[0].target_val().abs().0 == 0
            && self.g_sh[0].current().abs().lt(Single(RINGING))
    }

    pub fn release(&mut self)
        ensures
            *final(self) == old(self).released(),
    {
        self.key = None;
        fade_all(&mut self.g_sh);
    }

    fn glide(&mut self, o: &TapOrder)
        ensures
            *final(self) == old(self).gliding(*o),
    {
        self.base_dir = o.dir;
        self.delay.set(o.targets.delay);
        self.g_low.set(o.targets.g_low);
        self.g_high.set(o.targets.g_high);
        self.lp_coef.set(o.targets.lp_coef);
        head_all(&mut self.g_sh, &o.targets.g_sh);
    }

    fn jump(&mut self, o: &TapOrder)
        ensures
            *final(self) == old(self).jumped(*o),
    {
        self.base_dir = o.dir;
        self.delay.snap(o.targets.delay);
        self.g_low.snap(o.targets.g_low);
        self.g_high.snap(o.targets.g_high);
        self.lp_coef.snap(o.targets.lp_coef);
        settle_all(&mut self.g_sh, &o.targets.g_sh);
    }

    fn start(&mut self, o: &TapOrder)
        ensures
            *final(self) == old(self).started(*o),
    {
        self.key = Some(o.key);
        self.point = o.point;
        self.base_dir = o.dir;
        self.delay.snap(o.targets.delay);
        self.g_low.snap(o.targets.g_low);
        self.g_high.snap(o.targets.g_high);
        self.lp_coef.snap(o.targets.lp_coef);
        raise_all(&mut self.g_sh, &o.targets.g_sh);
    }
}

/// The first slot from `from` on that follows the path `key`; the length of
/// the pool where there is none.
pub open spec fn first_with_key(taps: Seq<TapState>, key: u32, from: int) -> int
    decreases taps.len() - from,
{
    if from < 0 || from >= taps.len() {
        taps.len() as int
    } else if taps[from].key == Some(key) {
        from
    } else {
        first_with_key(taps, key, from + 1)
    }
}

/// The first free slot from `from` on; the length of the pool where there is
/// none.
pub open spec fn first_free(taps: Seq<TapState>, from: int) -> int
    decreases taps.len() - from,
{
    if from < 0 || from >= taps.len() {
        taps.len() as int
    } else if taps[from].is_free() {
        from
    } else {
        first_free(taps, from + 1)
    }
}

/// What became of a tap.
#[derive(Clone, Copy, Debug, PartialEq, Eq, Structural)]
pub enum Placement {
    /// This slot follows the path on.
    Glided(usize),
    /// This slot took the path up: its filters start afresh.
    Started(usize),
    /// No slot was free.
    Dropped,
}

/// The slot that follows `o`'s path may carry it on: same rendering mode and
/// a delay that motion explains (any delay on the very first block).
pub open spec fn carries(taps: Seq<TapState>, o: TapOrder, first: bool) -> bool {
    let i = first_with_key(taps, o.key, 0);
    i < taps.len() && taps[i].point == o.point && (first || o.near)
}

/// The pool with the slot that followed `key` fading out.
pub open spec fn without_key(taps: Seq<TapState>, key: u32) -> Seq<TapState> {
    let i = first_with_key(taps, key, 0);
    if i < taps.len() {
        taps.update(i, taps[i].released())
    } else {
        taps
    }
}

/// The pool after one tap was placed: its slot glides, or fades out while the
/// first free slot takes the path up.
pub open spec fn placed(taps: Seq<TapState>, o: TapOrder, first: bool) -> Seq<TapState> {
    let i = first_with_key(taps, o.key, 0);
    if carries(taps, o, first) {
        taps.update(
            i,
            if first {
                taps[i].jumped(o)
            } else {
                taps[i].gliding(o)
            },
        )
    } else {
        let left = without_key(taps, o.key);
        let j = first_free(left, 0);
        if j < left.len() {
            left.update(j, left[j].started(o))
        } else {
            left
        }
    }
}

/// Where `placed` puts the tap.
pub open spec fn placement(taps: Seq<TapState>, o: TapOrder, first: bool) -> Placement {
    if carries(taps, o, first) {
        Placement::Glided(first_with_key(taps, o.key, 0) as usize)
    } else {
        let left = without_key(taps, o.key);
        let j = first_free(left, 0);
        if j < left.len() {
            Placement::Started(j as usize)
        } else {
            Placement::Dropped
        }
    }
}

/// The pool after the first `n` taps were placed.
pub open spec fn placed_all(taps: Seq<TapState>, orders: Seq<TapOrder>, first: bool, n: int) -> Seq<
    TapState,
>
    decreases n,
{
    if n <= 0 {
        taps
    } else {
        placed(placed_all(taps, orders, first, n - 1), orders[n - 1], first)
    }
}

/// `key` is among the paths that `orders` ask for.
pub open spec fn is_ordered(orders: Seq<TapOrder>, key: u32) -> bool {
    exists|n: int| 0 <= n < orders.len() && (#[trigger] orders[n]).key == key
}

/// The pool after every slot whose path is not asked for began to fade.
pub open spec fn swept(taps: Seq<TapState>, orders: Seq<TapOrder>) -> Seq<TapState> {
    Seq::new(
        taps.len(),
        |i: int|
            match taps[i].key {
                Some(k) if !is_ordered(orders, k) => taps[i].released(),
                _ => taps[i],
            },
    )
}

proof fn lemma_first_with_key(taps: Seq<TapState>, key: u32, from: int)
    requires
        0 <= from <= taps.len(),
    ensures
        from <= first_with_key(taps, key, from) <= taps.len(),
        first_with_key(taps, key, from) < taps.len() ==> taps[first_with_key(taps, key, from)].key
            == Some(key),
        forall|i: int|
            from <= i < first_with_key(taps, key, from) ==> (#[trigger] taps[i]).key != Some(key),
    decreases taps.len() - from,
{
    if from < taps.len() && taps[from].key != Some(key) {
        lemma_first_with_key(taps, key, from + 1);
    }
}

proof fn lemma_first_free(taps: Seq<TapState>, from: int)
    requires
        0 <= from <= taps.len(),
    ensures
        from <= first_free(taps, from) <= taps.len(),
        first_free(taps, from) < taps.len() ==> taps[first_free(taps, from)].is_free(),
        forall|i: int| from <= i < first_free(taps, from) ==> !(#[trigger] taps[i]).is_free(),
    decreases taps.len() - from,
{
    if from < taps.len() && !taps[from].is_free() {
        lemma_first_free(taps, from + 1);
    }
}

fn find_key(taps: &Vec<TapState>, key: u32) -> (r: usize)
    ensures
        r == first_with_key(taps@, key, 0),
        r <= taps@.len(),
{
    let mut i: usize = 0;
    while i < taps.len()
        invariant
            i <= taps@.len(),
            first_with_key(taps@, key, 0) == first_with_key(taps@, key, i as int),
        decreases taps@.len() - i,
    {
        if let Some(k) = taps[i].key {
            if k == key {
                return i;
            }
        }
        i = i + 1;
    }
    i
}

fn find_free(taps: &Vec<TapState>) -> (r: usize)
    ensures
        r == first_free(taps@, 0),
        r <= taps@.len(),
{
    let mut i: usize = 0;
    while i < taps.len()
        invariant
            i <= taps@.len(),
            first_free(taps@, 0) == first_free(taps@, i as int),
        decreases taps@.len() - i,
    {
        if taps[i].free() {
            return i;
        }
        i = i + 1;
    }
    i
}

/// Place one tap.
fn place_tap(taps: &mut Vec<TapState>, o: &TapOrder, first: bool) -> (r: Placement)
    ensures
        final(taps)@ == placed(old(taps)@, *o, first),
        r == placement(old(taps)@, *o, first),
        final(taps)@.len() == old(taps)@.len(),
        r matches Placement::Started(j) ==> j < old(taps)@.len(),
{
    let i: usize = find_key(taps, o.key);
    if i < taps.len() && taps[i].point == o.point && (first || o.near) {
        if first {
            taps[i].jump(o);
        } else {
            taps[i].glide(o);
        }
        return Placement::Glided(i);
    }
    if i < taps.len() {
        taps[i].release();
    }
    assert(taps@ == without_key(old(taps)@, o.key));
    let j: usize = find_free(taps);
    if j < taps.len() {
        taps[j].start(o);
        Placement::Started(j)
    } else {
        Placement::Dropped
    }
}

/// Fade out every slot whose path is not asked for.
fn sweep(taps: &mut Vec<TapState>, orders: &Vec<TapOrder>)
    ensures
        final(taps)@ == swept(old(taps)@, orders@),
{
    let ghost taps0 = taps@;
    let ghost goal = swept(taps0, orders@);
    let mut i: usize = 0;
    while i < taps.len()
        invariant
            i <= taps@.len(),
            taps@.len() == taps0.len(),
            goal == swept(taps0, orders@),
            forall|j: int| 0 <= j < i ==> #[trigger] taps@[j] == goal[j],
            forall|j: int| i <= j < taps@.len() ==> #[trigger] taps@[j] == taps0[j],
        decreases taps@.len() - i,
    {
        if let Some(k) = taps[i].key {
            let mut found: bool = false;
            let mut n: usize = 0;
            while n < orders.len()
                invariant
                    n <= orders@.len(),
                    found == exists|m: int| 0 <= m < n && (#[trigger] orders@[m]).key == k,
                decreases orders@.len() - n,
            {
                if orders[n].key == k {
                    found = true;
                }
                n = n + 1;
            }
            assert(found == is_ordered(orders@, k));
            if !found {
                taps[i].release();
            }
        }
        i = i + 1;
    }
    assert(taps@ =~= goal);
}

/// Late-field smoothers: the room's own reverb and the reverb heard from the
/// source's room through the doorway.
#[derive(Clone, Copy, Debug)]
pub struct LateField {
    pub fdn_level: Smoothed,
    pub send_low: Smoothed,
    pub send_high: Smoothed,
    pub remote_level: Smoothed,
    pub remote_low: Smoothed,
    pub remote_high: Smoothed,
    pub remote_lp_coef: Smoothed,
    pub remote_sh: [Smoothed; 9],
}

/// What the host works out from a block before the late field is retargeted.
#[derive(Clone, Copy, Debug)]
pub struct LateMeasures {
    /// Low and high over mid level, kept within 0 and 4.
    pub send_low: Single,
    pub send_high: Single,
    /// Remote low over mid send, as it is.
    pub remote_low_over_mid: Single,
    /// Remote low and high over mid send, kept within 0 and 4.
    pub remote_low: Single,
    pub remote_high: Single,
    /// Coefficient of the lowpass fitted through the remote band sends.
    pub remote_lp_coef: Single,
}

/// A ratio to `mid`, which counts only where `mid` is more than 1e-6.
pub open spec fn guarded(mid: Single, ratio: Single) -> Single {
    if Single(RINGING).below(mid) {
        ratio
    } else {
        Single(ONE)
    }
}

fn guard(mid: Single, ratio: Single) -> (r: Single)
    ensures
        r == guarded(mid, ratio),
{
    if Single(RINGING).lt(mid) {
        ratio
    } else {
        Single(ONE)
    }
}

impl LateField {
    /// The late field retargeted to a block.
    pub open spec fn after(self, pb: ParamBlock, m: LateMeasures) -> LateField {
        let mid = pb.reverb.level@[1];
        let own = LateField {
            fdn_level: self.fdn_level.towards(mid),
            send_low: self.send_low.towards(guarded(mid, m.send_low)),
            send_high: self.send_high.towards(guarded(mid, m.send_high)),
            ..self
        };
        match pb.remote {
            // The source came into our room: its remote tail rings out
            // through the last doorway direction.
            None => LateField { remote_level: own.remote_level.towards(Single(0)), ..own },
            Some(r) => {
                let leaked = Single(NO_GAIN).below(r.send@[1]) && Single(TRANSMITTED).below(
                    m.remote_low_over_mid,
                );
                LateField {
                    remote_level: own.remote_level.towards(
                        if leaked {
                            r.send@[0]
                        } else {
                            r.send@[1]
                        },
                    ),
                    remote_low: own.remote_low.towards(
                        if leaked {
                            Single(ONE)
                        } else {
                            guarded(r.send@[1], m.remote_low)
                        },
                    ),
                    remote_high: own.remote_high.towards(
                        if leaked {
                            Single(ONE)
                        } else {
                            guarded(r.send@[1], m.remote_high)
                        },
                    ),
                    remote_lp_coef: own.remote_lp_coef.towards(
                        if leaked {
                            m.remote_lp_coef
                        } else {
                            Single(ONE)
                        },
                    ),
                    remote_sh: heading(own.remote_sh, r.sh),
                    ..own
                }
            },
        }
    }

    fn retarget(&mut self, pb: &ParamBlock, m: &LateMeasures)
        ensures
            *final(self) == old(self).after(*pb, *m),
    {
        let mid: Single = pb.reverb.level[1];
        self.fdn_level.set(mid);
        self.send_low.set(guard(mid, m.send_low));
        self.send_high.set(guard(mid, m.send_high));
        match &pb.remote {
            Some(r) => {
                if Single(NO_GAIN).lt(r.send[1]) && Single(TRANSMITTED).lt(m.remote_low_over_mid) {
                    self.remote_level.set(r.send[0]);
                    self.remote_low.set(Single(ONE));
                    self.remote_high.set(Single(ONE));
                    self.remote_lp_coef.set(m.remote_lp_coef);
                } else {
                    self.remote_level.set(r.send[1]);
                    self.remote_low.set(guard(r.send[1], m.remote_low));
                    self.remote_high.set(guard(r.send[1], m.remote_high));
                    self.remote_lp_coef.set(Single(ONE));
                }
                head_all(&mut self.remote_sh, &r.sh);
            },
            None => {
                self.remote_level.set(Single(0));
            },
        }
    }
}

/// Which taps of a block are rendered, and which of them sharply.
#[derive(Debug)]
pub struct Selection {
    /// Positions in the block, in the order in which the taps are placed.
    pub incoming: Vec<usize>,
    /// Keys of the taps that get a response of their own.
    pub point_keys: Vec<u32>,
}

impl Selection {
    /// The path gets a response of its own.
    pub fn is_point(&self, key: u32) -> (r: bool)
        ensures
            r == self.point_keys@.contains(key),
    {
        let mut m: usize = 0;
        while m < self.point_keys.len()
            invariant
                m <= self.point_keys@.len(),
                forall|j: int| 0 <= j < m ==> #[trigger] self.point_keys@[j] != key,
            decreases self.point_keys@.len() - m,
        {
            if self.point_keys[m] == key {
                return true;
            }
            m = m + 1;
        }
        false
    }
}

/// The mid gains of the taps.
pub open spec fn mid_gains(taps: Seq<Tap>) -> Seq<Single> {
    Seq::new(taps.len(), |i: int| taps[i].gains@[1])
}

/// The taps at the listed positions.
pub open spec fn picked(taps: Seq<Tap>, incoming: Seq<usize>) -> Seq<Tap> {
    Seq::new(incoming.len(), |n: int| taps[incoming[n] as int])
}

/// `incoming` lists all taps in their order, or only the strongest where the
/// block has more than the renderer takes.
pub open spec fn is_incoming(taps: Seq<Tap>, incoming: Seq<usize>) -> bool {
    if taps.len() > MAX_INCOMING {
        is_top(mid_gains(taps), MAX_INCOMING as nat, incoming)
    } else {
        incoming == Seq::new(taps.len(), |i: int| i as usize)
    }
}

/// `keys` are those of the `budget` strongest taps.
pub open spec fn is_point_keys(taps: Seq<Tap>, budget: nat, keys: Seq<u32>) -> bool {
    exists|top: Seq<usize>| #[trigger]
        is_top(mid_gains(taps), budget, top) && keys == Seq::new(
            top.len(),
            |i: int| taps[top[i] as int].key,
        )
}

/// The orders that a selection of a block amounts to.
pub open spec fn orders_of(
    has_grid: bool,
    taps: Seq<Tap>,
    sel: Selection,
    measures: Seq<TapMeasures>,
    near: Seq<bool>,
) -> Seq<TapOrder> {
    Seq::new(
        sel.incoming@.len(),
        |n: int|
            {
                let t = taps[sel.incoming@[n] as int];
                TapOrder {
                    key: t.key,
                    dir: t.dir,
                    targets: targets(t, measures[n]),
                    point: has_grid && sel.point_keys@.contains(t.key),
                    near: near[n],
                }
            },
    )
}

#[derive(Debug)]
pub struct TapPool {
    /// A dense response grid is at hand.
    pub has_grid: bool,
    pub taps: Vec<TapState>,
    pub late: LateField,
    pub head_yaw: Smoothed,
    /// How many of the strongest taps are point-rendered.
    pub point_budget: usize,
    pub reselect_countdown: u32,
    pub version_seen: u64,
    pub first_params: bool,
    pub mute_taps: bool,
    pub mute_own_fdn: bool,
    pub mute_remote: bool,
}

/// No path is followed by two slots.
pub open spec fn keys_are_unique(taps: Seq<TapState>) -> bool {
    forall|i: int, j: int|
        0 <= i < j < taps.len() && (#[trigger] taps[i]).key is Some ==> taps[i].key != (
        #[trigger] taps[j]).key
}

impl TapPool {
    pub open spec fn wf(self) -> bool {
        &&& self.taps@.len() == MAX_TAPS
        &&& keys_are_unique(self.taps@)
        &&& self.reselect_countdown <= RESELECT_SAMPLES
    }

    /// `sel` is what the renderer takes of the block.
    pub open spec fn is_selection(self, pb: ParamBlock, sel: Selection) -> bool {
        &&& is_incoming(pb.taps@, sel.incoming@)
        &&& if self.has_grid {
            is_point_keys(
                picked(pb.taps@, sel.incoming@),
                self.point_budget as nat,
                sel.point_keys@,
            )
        } else {
            sel.point_keys@.len() == 0
        }
    }

    /// A silent pool of which every slot is `blank`, with the late field at
    /// `late`.
    pub fn with_grid(has_grid: bool, blank: TapState, late: LateField, head_yaw: Smoothed) -> (r:
        Self)
        requires
            blank.key is None,
        ensures
            r.wf(),
            r.has_grid == has_grid,
            forall|i: int| 0 <= i < MAX_TAPS ==> #[trigger] r.taps@[i] == blank,
            r.late == late,
            r.head_yaw == head_yaw,
            r.point_budget == DEFAULT_POINT_TAPS,
            r.reselect_countdown == 0,
            r.version_seen == 0,
            r.first_params,
            !r.mute_taps && !r.mute_own_fdn && !r.mute_remote,
    {
        let mut taps: Vec<TapState> = Vec::new();
        while taps.len() < MAX_TAPS
            invariant
                taps@.len() <= MAX_TAPS,
                forall|i: int| 0 <= i < taps@.len() ==> #[trigger] taps@[i] == blank,
            decreases MAX_TAPS - taps@.len(),
        {
            taps.push(blank);
        }
        Self {
            has_grid,
            taps,
            late,
            head_yaw,
            point_budget: DEFAULT_POINT_TAPS,
            reselect_countdown: 0,
            version_seen: 0,
            first_params: true,
            mute_taps: false,
            mute_own_fdn: false,
            mute_remote: false,
        }
    }

    pub fn set_head_yaw(&mut self, yaw: Single)
        ensures
            *final(self) == (TapPool { head_yaw: old(self).head_yaw.towards(yaw), ..*old(self) }),
    {
        self.head_yaw.set(yaw);
    }

    /// Set how many of the strongest taps are point-rendered. Takes effect on
    /// the next block; taps whose mode changes move to another slot with a
    /// crossfade.
    pub fn set_point_budget(&mut self, n: usize)
        ensures
            *final(self) == (TapPool { point_budget: n, ..*old(self) }),
    {
        self.point_budget = n;
    }

    /// What to render of a block; nothing to do where its version was seen.
    pub fn select(&self, pb: &ParamBlock) -> (r: Option<Selection>)
        ensures
            r is None <==> pb.version == self.version_seen,
            r matches Some(sel) ==> self.is_selection(*pb, sel),
    {
        if pb.version == self.version_seen {
            return None;
        }
        let mut incoming: Vec<usize> = Vec::new();
        let mut gains: Vec<Single> = Vec::new();
        let mut i: usize = 0;
        while i < pb.taps.len()
            invariant
                i <= pb.taps@.len(),
                incoming@ == Seq::new(i as nat, |j: int| j as usize),
                gains@ == mid_gains(pb.taps@.take(i as int)),
            decreases pb.taps@.len() - i,
        {
            incoming.push(i);
            gains.push(pb.taps[i].gains[1]);
            i = i + 1;
            assert(incoming@ =~= Seq::new(i as nat, |j: int| j as usize));
            assert(gains@ =~= mid_gains(pb.taps@.take(i as int)));
        }
        assert(pb.taps@.take(i as int) =~= pb.taps@);
        if incoming.len() > MAX_INCOMING {
            incoming = strongest(gains.as_slice(), MAX_INCOMING);
        }
        assert(is_incoming(pb.taps@, incoming@));
        let mut point_keys: Vec<u32> = Vec::new();
        if self.has_grid {
            let ghost taken = picked(pb.taps@, incoming@);
            let mut strengths: Vec<Single> = Vec::new();
            let mut n: usize = 0;
            while n < incoming.len()
                invariant
                    n <= incoming@.len(),
                    taken == picked(pb.taps@, incoming@),
                    forall|m: int| 0 <= m < incoming@.len() ==> #[trigger] incoming@[m] < pb.taps@.len(),
                    strengths@ == mid_gains(taken.take(n as int)),
                decreases incoming@.len() - n,
            {
                strengths.push(pb.taps[incoming[n]].gains[1]);
                n = n + 1;
                assert(strengths@ =~= mid_gains(taken.take(n as int)));
            }
            assert(taken.take(n as int) =~= taken);
            let top: Vec<usize> = strongest(strengths.as_slice(), self.point_budget);
            let mut n: usize = 0;
            while n < top.len()
                invariant
                    n <= top@.len(),
                    taken == picked(pb.taps@, incoming@),
                    forall|m: int| 0 <= m < incoming@.len() ==> #[trigger] incoming@[m] < pb.taps@.len(),
                    forall|m: int| 0 <= m < top@.len() ==> #[trigger] top@[m] < incoming@.len(),
                    point_keys@ == Seq::new(n as nat, |i: int| taken[top@[i] as int].key),
                decreases top@.len() - n,
            {
                point_keys.push(pb.taps[incoming[top[n]]].key);
                n = n + 1;
                assert(point_keys@ =~= Seq::new(n as nat, |i: int| taken[top@[i] as int].key));
            }
            assert(is_point_keys(taken, self.point_budget as nat, point_keys@));
        }
        Some(Selection { incoming, point_keys })
    }
}

/// Where each of the taps was put.
pub open spec fn placements(taps: Seq<TapState>, orders: Seq<TapOrder>, first: bool) -> Seq<
    Placement,
> {
    Seq::new(
        orders.len(),
        |n: int| placement(placed_all(taps, orders, first, n), orders[n], first),
    )
}

/// The delay that the pool last heard for `key` when it comes to place the
/// tap in position `m`: that of the last earlier tap on the same path, or
/// else that of the slot that follows it.
pub open spec fn heard(
    pool: Seq<TapState>,
    taps: Seq<Tap>,
    incoming: Seq<usize>,
    measures: Seq<TapMeasures>,
    key: u32,
    m: int,
) -> Option<Single>
    decreases m,
{
    if m <= 0 {
        let i = first_with_key(pool, key, 0);
        if i < pool.len() {
            Some(pool[i].delay.target)
        } else {
            None
        }
    } else if taps[incoming[m - 1] as int].key == key {
        Some(measures[m - 1].delay)
    } else {
        heard(pool, taps, incoming, measures, key, m - 1)
    }
}

/// With unique keys a slot that follows a path is the first that does.
proof fn lemma_only_slot(taps: Seq<TapState>, key: u32, i: int)
    requires
        keys_are_unique(taps),
        0 <= i < taps.len(),
        taps[i].key == Some(key),
    ensures
        first_with_key(taps, key, 0) == i,
{
    lemma_first_with_key(taps, key, 0);
    let f = first_with_key(taps, key, 0);
    if f < i {
        assert(taps[f].key != taps[i].key);
    }
}

/// What one placement does to the keys of the pool.
proof fn lemma_placed_keys(taps: Seq<TapState>, o: TapOrder, first: bool)
    requires
        keys_are_unique(taps),
    ensures
        placed(taps, o, first).len() == taps.len(),
        keys_are_unique(placed(taps, o, first)),
        forall|i: int|
            0 <= i < taps.len() ==> (#[trigger] placed(taps, o, first)[i].key == Some(o.key) ||
            placed(taps, o, first)[i].key is None || placed(taps, o, first)[i].key == taps[i].key),
        forall|i: int|
            0 <= i < taps.len() && (#[trigger] taps[i]).key is Some && taps[i].key != Some(o.key)
                ==> placed(taps, o, first)[i] == taps[i],
{
    lemma_first_with_key(taps, o.key, 0);
    let left = without_key(taps, o.key);
    lemma_first_free(left, 0);
    let f = first_with_key(taps, o.key, 0);
    assert forall|i: int| 0 <= i < taps.len() && i != f implies (#[trigger] left[i]).key != Some(
        o.key,
    ) by {
        if taps[i].key == Some(o.key) {
            lemma_only_slot(taps, o.key, i);
        }
    }
}

proof fn lemma_swept_keys(taps: Seq<TapState>, orders: Seq<TapOrder>)
    requires
        keys_are_unique(taps),
    ensures
        swept(taps, orders).len() == taps.len(),
        keys_are_unique(swept(taps, orders)),
        forall|i: int|
            0 <= i < taps.len() ==> (#[trigger] swept(taps, orders)[i].key is None
                || is_ordered(orders, swept(taps, orders)[i].key->0)),
{
    let s = swept(taps, orders);
    assert forall|i: int, j: int|
        0 <= i < j < s.len() && (#[trigger] s[i]).key is Some implies s[i].key != (
    #[trigger] s[j]).key by {
        assert(taps[i].key is Some ==> taps[i].key != taps[j].key);
    }
}

/// Where every path has a key of its own, a path that gets a response of its
/// own is never weaker than one that does not, and as many get one as the
/// budget allows.
pub proof fn the_strongest_paths_are_points(taps: Seq<Tap>, budget: nat, keys: Seq<u32>)
    requires
        is_point_keys(taps, budget, keys),
        taps.len() <= usize::MAX,
        forall|i: int, j: int|
            0 <= i < j < taps.len() ==> (#[trigger] taps[i]).key != (#[trigger] taps[j]).key,
    ensures
        keys.len() == if taps.len() <= budget {
            taps.len()
        } else {
            budget
        },
        forall|a: int, b: int|
            0 <= a < taps.len() && 0 <= b < taps.len() && keys.contains((#[trigger] taps[a]).key)
                && !keys.contains((#[trigger] taps[b]).key) ==> taps[a].gains@[1].total_rank()
                >= taps[b].gains@[1].total_rank(),
{
    let mids = mid_gains(taps);
    let top = choose|top: Seq<usize>| #[trigger]
        is_top(mids, budget, top) && keys == Seq::new(
            top.len(),
            |i: int| taps[top[i] as int].key,
        );
    assert forall|a: int, b: int|
        0 <= a < taps.len() && 0 <= b < taps.len() && keys.contains((#[trigger] taps[a]).key)
            && !keys.contains((#[trigger] taps[b]).key) implies taps[a].gains@[1].total_rank()
        >= taps[b].gains@[1].total_rank() by {
        let i = choose|i: int| 0 <= i < keys.len() && keys[i] == taps[a].key;
        assert(taps[top[i] as int].key == taps[a].key);
        assert(top[i] == a);
        let k = b as usize;
        if top.contains(k) {
            let j = choose|j: int| 0 <= j < top.len() && top[j] == k;
            assert(keys[j] == taps[b].key);
        }
        assert(precedes(mids, top[i] as int, k as int));
    }
}

/// Where a block has more paths than are rendered, none that is left out is
/// stronger than one that is rendered.
pub proof fn only_the_weakest_are_dropped(taps: Seq<Tap>, incoming: Seq<usize>, i: int, k: usize)
    requires
        is_incoming(taps, incoming),
        taps.len() <= usize::MAX,
        0 <= i < incoming.len(),
        k < taps.len(),
        !incoming.contains(k),
    ensures
        taps.len() > MAX_INCOMING,
        incoming.len() == MAX_INCOMING,
        taps[incoming[i] as int].gains@[1].total_rank() >= taps[k as int].gains@[1].total_rank(),
{
    let mids = mid_gains(taps);
    if taps.len() <= MAX_INCOMING {
        assert(incoming[k as int] == k);
    } else {
        assert(precedes(mids, incoming[i] as int, k as int));
    }
}

/// After an update every slot that follows a path follows one that the block
/// asked for, and no path is followed twice.
pub proof fn every_slot_follows_an_incoming_path(
    taps: Seq<TapState>,
    orders: Seq<TapOrder>,
    first: bool,
    n: int,
)
    requires
        keys_are_unique(taps),
        0 <= n <= orders.len(),
    ensures
        placed_all(swept(taps, orders), orders, first, n).len() == taps.len(),
        keys_are_unique(placed_all(swept(taps, orders), orders, first, n)),
        forall|i: int|
            0 <= i < taps.len() && (#[trigger] placed_all(
                swept(taps, orders),
                orders,
                first,
                n,
            )[i]).key is Some ==> is_ordered(
                orders,
                placed_all(swept(taps, orders), orders, first, n)[i].key->0,
            ),
    decreases n,
{
    let s = swept(taps, orders);
    lemma_swept_keys(taps, orders);
    if n > 0 {
        every_slot_follows_an_incoming_path(taps, orders, first, n - 1);
        let p = placed_all(s, orders, first, n - 1);
        let o = orders[n - 1];
        lemma_placed_keys(p, o, first);
        assert forall|i: int|
            0 <= i < taps.len() && (#[trigger] placed(p, o, first)[i]).key is Some implies is_ordered(
            orders,
            placed(p, o, first)[i].key->0,
        ) by {
            assert(placed(p, o, first)[i].key == Some(o.key) || placed(p, o, first)[i].key
                == p[i].key);
        }
    }
}

/// A tap that was placed is followed by a slot, in the mode asked for and
/// heading for its delay; where no slot follows it, none was free.
pub proof fn a_tap_is_followed_unless_the_pool_is_full(
    taps: Seq<TapState>,
    o: TapOrder,
    first: bool,
)
    ensures
        ({
            let after = placed(taps, o, first);
            let left = without_key(taps, o.key);
            ||| exists|i: int|
                0 <= i < after.len() && (#[trigger] after[i]).key == Some(o.key) && after[i].point
                    == o.point && after[i].delay.target == o.targets.delay
            ||| forall|i: int| 0 <= i < left.len() ==> !(#[trigger] left[i]).is_free()
        }),
{
    lemma_first_with_key(taps, o.key, 0);
    let left = without_key(taps, o.key);
    lemma_first_free(left, 0);
    let after = placed(taps, o, first);
    if carries(taps, o, first) {
        let i = first_with_key(taps, o.key, 0);
        assert(after[i].key == Some(o.key));
    } else if first_free(left, 0) < left.len() {
        let j = first_free(left, 0);
        assert(after[j].key == Some(o.key));
    }
}

/// `after` sounds on from `before`: no current value moved and the mode is
/// the same; where the slot was given other values to head for, it is because
/// it fades out or follows the same path on.
pub open spec fn sounds_on(before: TapState, after: TapState) -> bool {
    &&& after.point == before.point
    &&& after.delay.cur == before.delay.cur
    &&& after.g_low.cur == before.g_low.cur
    &&& after.g_high.cur == before.g_high.cur
    &&& after.lp_coef.cur == before.lp_coef.cur
    &&& forall|k: int| 0 <= k < 9 ==> (#[trigger] after.g_sh@[k]).cur == before.g_sh@[k].cur
    &&& after.key is None || after.key == before.key
    &&& after.delay.target != before.delay.target ==> before.key is Some
}

proof fn lemma_sounds_on_step(before: TapState, taps: Seq<TapState>, o: TapOrder, i: int)
    requires
        0 <= i < taps.len(),
        before.rings(),
        sounds_on(before, taps[i]),
    ensures
        sounds_on(before, placed(taps, o, false)[i]),
{
    let left = without_key(taps, o.key);
    lemma_first_with_key(taps, o.key, 0);
    lemma_first_free(left, 0);
    let f = first_with_key(taps, o.key, 0);
    assert(taps[i].g_sh@[0].cur == before.g_sh@[0].cur);
    assert(taps[i].rings());
    assert(left[i].g_sh@[0].cur == taps[i].g_sh@[0].cur);
    assert(left[i].rings());
    assert(!left[i].is_free());
    let after = placed(taps, o, false)[i];
    if carries(taps, o, false) && f == i {
        assert(after == taps[i].gliding(o));
        assert forall|k: int| 0 <= k < 9 implies (#[trigger] after.g_sh@[k]).cur
            == before.g_sh@[k].cur by {
            assert(taps[i].g_sh@[k].cur == before.g_sh@[k].cur);
        }
    } else if !carries(taps, o, false) && f == i {
        assert(after == taps[i].released());
        assert forall|k: int| 0 <= k < 9 implies (#[trigger] after.g_sh@[k]).cur
            == before.g_sh@[k].cur by {
            assert(taps[i].g_sh@[k].cur == before.g_sh@[k].cur);
        }
    } else {
        assert(after == taps[i]);
    }
}

/// No update after the first ever jumps a slot that can be heard, nor moves
/// it to another path, nor changes its mode: delay is never slid between two
/// different paths.
pub proof fn a_sounding_slot_never_jumps(
    taps: Seq<TapState>,
    orders: Seq<TapOrder>,
    n: int,
    i: int,
)
    requires
        0 <= n <= orders.len(),
        0 <= i < taps.len(),
        taps[i].rings(),
        keys_are_unique(taps),
    ensures
        sounds_on(taps[i], placed_all(swept(taps, orders), orders, false, n)[i]),
    decreases n,
{
    let s = swept(taps, orders);
    if n <= 0 {
        assert(s[i] == taps[i] || s[i] == taps[i].released());
    } else {
        a_sounding_slot_never_jumps(taps, orders, n - 1, i);
        every_slot_follows_an_incoming_path(taps, orders, false, n - 1);
        lemma_sounds_on_step(taps[i], placed_all(s, orders, false, n - 1), orders[n - 1], i);
    }
}

/// A slot that takes a path up starts at its final delay, from silence on
/// every channel.
pub proof fn a_started_slot_rises_from_silence(taps: Seq<TapState>, o: TapOrder, first: bool)
    requires
        taps.len() <= usize::MAX,
    ensures
        placement(taps, o, first) matches Placement::Started(j) ==> {
            let slot = placed(taps, o, first)[j as int];
            &&& slot.key == Some(o.key)
            &&& slot.delay.cur == o.targets.delay
            &&& slot.delay.target == o.targets.delay
            &&& forall|k: int|
                0 <= k < 9 ==> (#[trigger] slot.g_sh@[k]).cur == Single(0) && slot.g_sh@[k].target
                    == o.targets.g_sh@[k]
        },
{
    let left = without_key(taps, o.key);
    lemma_first_with_key(taps, o.key, 0);
    lemma_first_free(left, 0);
    if placement(taps, o, first) is Started {
        let j = first_free(left, 0);
        let slot = placed(taps, o, first)[j];
        assert(slot == left[j].started(o));
        assert forall|k: int| 0 <= k < 9 implies (#[trigger] slot.g_sh@[k]).cur == Single(0)
            && slot.g_sh@[k].target == o.targets.g_sh@[k] by {}
    }
}

proof fn lemma_heard_step(
    p: Seq<TapState>,
    o: TapOrder,
    first: bool,
    key: u32,
    before: Option<Single>,
)
    requires
        keys_are_unique(p),
        first_with_key(p, key, 0) < p.len() ==> before == Some(
            p[first_with_key(p, key, 0)].delay.target,
        ),
    ensures
        ({
            let q = placed(p, o, first);
            let i = first_with_key(q, key, 0);
            i < q.len() ==> (if o.key == key {
                Some(o.targets.delay)
            } else {
                before
            }) == Some(q[i].delay.target)
        }),
{
    let q = placed(p, o, first);
    let i = first_with_key(q, key, 0);
    lemma_placed_keys(p, o, first);
    lemma_first_with_key(q, key, 0);
    if i < q.len() {
        if o.key == key {
            lemma_first_with_key(p, key, 0);
            let left = without_key(p, key);
            lemma_first_free(left, 0);
            let f = first_with_key(p, key, 0);
            if carries(p, o, first) {
                lemma_only_slot(q, key, f);
            } else if first_free(left, 0) < left.len() {
                lemma_only_slot(q, key, first_free(left, 0));
            } else {
                if f < p.len() {
                    assert(left[i].key == Some(key));
                    assert(i != f);
                    lemma_only_slot(p, key, i);
                } else {
                    assert(p[i].key == Some(key));
                }
            }
        } else {
            assert(q[i].key == p[i].key);
            lemma_only_slot(p, key, i);
        }
    }
}

/// The delay against which a tap's nearness is measured is the one that the
/// slot of its path heads for at the moment the tap is placed.
pub proof fn nearness_is_measured_at_the_slot(
    r: TapPool,
    pb: ParamBlock,
    sel: Selection,
    measures: Seq<TapMeasures>,
    near: Seq<bool>,
    key: u32,
    m: int,
)
    requires
        r.wf(),
        measures.len() == sel.incoming@.len(),
        near.len() == sel.incoming@.len(),
        0 <= m <= sel.incoming@.len(),
        is_ordered(orders_of(r.has_grid, pb.taps@, sel, measures, near), key),
    ensures
        ({
            let orders = orders_of(r.has_grid, pb.taps@, sel, measures, near);
            let pool = placed_all(swept(r.taps@, orders), orders, r.first_params, m);
            let i = first_with_key(pool, key, 0);
            i < pool.len() ==> heard(r.taps@, pb.taps@, sel.incoming@, measures, key, m) == Some(
                pool[i].delay.target,
            )
        }),
    decreases m,
{
    let orders = orders_of(r.has_grid, pb.taps@, sel, measures, near);
    let s = swept(r.taps@, orders);
    if m <= 0 {
        lemma_swept_keys(r.taps@, orders);
        lemma_first_with_key(s, key, 0);
        let i = first_with_key(s, key, 0);
        if i < s.len() {
            assert(r.taps@[i].key == Some(key));
            lemma_only_slot(r.taps@, key, i);
        }
    } else {
        nearness_is_measured_at_the_slot(r, pb, sel, measures, near, key, m - 1);
        every_slot_follows_an_incoming_path(r.taps@, orders, r.first_params, m - 1);
        let p = placed_all(s, orders, r.first_params, m - 1);
        lemma_heard_step(
            p,
            orders[m - 1],
            r.first_params,
            key,
            heard(r.taps@, pb.taps@, sel.incoming@, measures, key, m - 1),
        );
    }
}

impl TapPool {
    /// The delay against which the nearness of the tap in position `n` of a
    /// selection is to be measured; nothing where its path is new.
    pub fn heard_delay(
        &self,
        pb: &ParamBlock,
        sel: &Selection,
        measures: &Vec<TapMeasures>,
        n: usize,
    ) -> (r: Option<Single>)
        requires
            self.is_selection(*pb, *sel),
            n < sel.incoming@.len(),
            measures@.len() == sel.incoming@.len(),
        ensures
            r == heard(
                self.taps@,
                pb.taps@,
                sel.incoming@,
                measures@,
                pb.taps@[sel.incoming@[n as int] as int].key,
                n as int,
            ),
    {
        let key: u32 = pb.taps[sel.incoming[n]].key;
        let mut m: usize = n;
        while m > 0
            invariant
                m <= n < sel.incoming@.len(),
                key == pb.taps@[sel.incoming@[n as int] as int].key,
                measures@.len() == sel.incoming@.len(),
                forall|j: int| 0 <= j < sel.incoming@.len() ==> #[trigger] sel.incoming@[j] < pb.taps@.len(),
                heard(self.taps@, pb.taps@, sel.incoming@, measures@, key, n as int) == heard(
                    self.taps@,
                    pb.taps@,
                    sel.incoming@,
                    measures@,
                    key,
                    m as int,
                ),
            decreases m,
        {
            m = m - 1;
            if pb.taps[sel.incoming[m]].key == key {
                return Some(measures[m].delay);
            }
        }
        let i: usize = find_key(&self.taps, key);
        if i < self.taps.len() {
            Some(self.taps[i].delay.target_val())
        } else {
            None
        }
    }

    /// Take a new block over. `measures` and `near` go with the selected taps,
    /// in their order. Gives back what became of each of them.
    pub fn set_params(
        &mut self,
        pb: &ParamBlock,
        sel: &Selection,
        measures: &Vec<TapMeasures>,
        near: &Vec<bool>,
        late: &LateMeasures,
    ) -> (r: Vec<Placement>)
        requires
            old(self).wf(),
            old(self).is_selection(*pb, *sel),
            measures@.len() == sel.incoming@.len(),
            near@.len() == sel.incoming@.len(),
        ensures
            final(self).wf(),
            forall|m: int|
                0 <= m < r@.len() ==> (#[trigger] r@[m] matches Placement::Started(j) ==> j < MAX_TAPS),
            pb.version == old(self).version_seen ==> *final(self) == *old(self) && r@.len() == 0,
            pb.version != old(self).version_seen ==> ({
                let orders = orders_of(old(self).has_grid, pb.taps@, *sel, measures@, near@);
                let pool = swept(old(self).taps@, orders);
                let first = old(self).first_params;
                &&& final(self).taps@ == placed_all(pool, orders, first, orders.len() as int)
                &&& r@ == placements(pool, orders, first)
                &&& final(self).late == old(self).late.after(*pb, *late)
                &&& final(self).version_seen == pb.version
                &&& !final(self).first_params
            }),
            final(self).has_grid == old(self).has_grid,
            final(self).head_yaw == old(self).head_yaw,
            final(self).point_budget == old(self).point_budget,
            final(self).reselect_countdown == old(self).reselect_countdown,
            final(self).mute_taps == old(self).mute_taps,
            final(self).mute_own_fdn == old(self).mute_own_fdn,
            final(self).mute_remote == old(self).mute_remote,
    {
        if pb.version == self.version_seen {
            return Vec::new();
        }
        let ghost goal = orders_of(self.has_grid, pb.taps@, *sel, measures@, near@);
        let ghost taps0 = self.taps@;
        let has_grid: bool = self.has_grid;
        self.version_seen = pb.version;
        let mut orders: Vec<TapOrder> = Vec::new();
        let mut n: usize = 0;
        while n < sel.incoming.len()
            invariant
                n <= sel.incoming@.len(),
                measures@.len() == sel.incoming@.len(),
                near@.len() == sel.incoming@.len(),
                forall|j: int| 0 <= j < sel.incoming@.len() ==> #[trigger] sel.incoming@[j] < pb.taps@.len(),
                goal == orders_of(has_grid, pb.taps@, *sel, measures@, near@),
                orders@ == goal.take(n as int),
            decreases sel.incoming@.len() - n,
        {
            let t: Tap = pb.taps[sel.incoming[n]];
            let wanted: bool = sel.is_point(t.key);
            orders.push(
                TapOrder {
                    key: t.key,
                    dir: t.dir,
                    targets: targets_of(&t, &measures[n]),
                    point: has_grid && wanted,
                    near: near[n],
                },
            );
            n = n + 1;
            assert(orders@ =~= goal.take(n as int));
        }
        assert(orders@ =~= goal);
        sweep(&mut self.taps, &orders);
        let ghost pool = self.taps@;
        let first: bool = self.first_params;
        let mut r: Vec<Placement> = Vec::new();
        let mut n: usize = 0;
        let ghost rest = *self;
        while n < orders.len()
            invariant
                n <= orders@.len(),
                self.taps@ == placed_all(pool, orders@, first, n as int),
                self.taps@.len() == MAX_TAPS,
                r@ == placements(pool, orders@, first).take(n as int),
                forall|m: int|
                    0 <= m < n ==> (#[trigger] r@[m] matches Placement::Started(j) ==> j < MAX_TAPS),
                *self == (TapPool { taps: self.taps, ..rest }),
            decreases orders@.len() - n,
        {
            let p: Placement = place_tap(&mut self.taps, &orders[n], first);
            r.push(p);
            n = n + 1;
            assert(r@ =~= placements(pool, orders@, first).take(n as int));
        }
        proof {
            every_slot_follows_an_incoming_path(taps0, orders@, first, orders@.len() as int);
            assert(r@ =~= placements(pool, orders@, first));
        }
        self.late.retarget(pb, late);
        self.first_params = false;
        r
    }

    /// Count one sample: it is time to choose the point-tap responses anew
    /// every 128 samples, with the first sample first.
    pub fn count_sample(&mut self) -> (due: bool)
        requires
            old(self).wf(),
        ensures
            final(self).wf(),
            due == (old(self).reselect_countdown == 0),
            *final(self) == (TapPool {
                reselect_countdown: if due {
                    (RESELECT_SAMPLES - 1) as u32
                } else {
                    (old(self).reselect_countdown - 1) as u32
                },
                ..*old(self)
            }),
    {
        let due: bool = self.reselect_countdown == 0;
        if due {
            self.reselect_countdown = RESELECT_SAMPLES;
        }
        self.reselect_countdown = self.reselect_countdown - 1;
        due
    }

    /// The slot in position `i` takes part in a new choice of responses.
    pub fn reselects(&self, i: usize) -> (r: bool)
        requires
            i < self.taps@.len(),
        ensures
            r == (self.has_grid && self.taps@[i as int].point && self.taps@[i as int].key is Some),
    {
        self.has_grid && self.taps[i].point && self.taps[i].key.is_some()
    }
}

} // verus!
