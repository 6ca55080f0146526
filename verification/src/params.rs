//! The simulation-to-renderer contract and its flat form.

use crate::single::{exact_integers_round_trip, is_exact, lemma_grid_increases, whole, Single};
use vstd::prelude::*;

verus! {

/// Frequency bands used for all acoustic quantities.
pub const NBANDS: usize = 3;

/// One discrete arrival at the listener: the direct path or an early specular
/// reflection.
#[derive(Clone, Copy, Debug)]
pub struct Tap {
    /// Stable identity of the propagation path this tap represents. Same key
    /// across updates: same path, so the renderer may glide its delay. A new
    /// or vanished key: the renderer crossfades.
    pub key: u32,
    pub delay_s: Single,
    pub dir: [Single; 3],
    pub gains: [Single; 3],
}

#[derive(Clone, Copy, Debug)]
pub struct ReverbParams {
    /// Per-band decay time of the late field, seconds.
    pub rt60: [Single; 3],
    /// Per-band amplitude of the late field at the listener.
    pub level: [Single; 3],
}

/// Coupled-room reverb: the reverberant field of the source's room, heard
/// through the doorway into the listener's room.
#[derive(Clone, Copy, Debug)]
pub struct RemoteReverb {
    pub rt60: [Single; 3],
    pub send: [Single; 3],
    /// Order-2 encoding gains of the arrival direction.
    pub sh: [Single; 9],
}

/// The complete simulation-to-renderer contract.
#[derive(Debug)]
pub struct ParamBlock {
    pub taps: Vec<Tap>,
    pub reverb: ReverbParams,
    /// Present when the source is in another room.
    pub remote: Option<RemoteReverb>,
    pub version: u64,
}

/// Flat layout of a block, one number per word:
///   [0] version  [1] tap count
///   [2..8]   reverb rt60[3], level[3]
///   [8]      remote flag (0/1)
///   [9..24]  remote rt60[3], send[3], sh[9]
///   then 9 words per tap: key, delay, dir[3], gains[3], one spare
pub const FLAT_HEADER: usize = 24;

pub const FLAT_PER_TAP: usize = 9;

/// The pattern of 1.0.
pub const ONE: u32 = 0x3F80_0000;

/// The pattern of 0.5.
pub const HALF: u32 = 0x3F00_0000;

/// The pattern of 0.05, the late level a block starts with.
pub const DEFAULT_LEVEL: u32 = 0x3D4C_CCCD;

impl Default for ReverbParams {
    fn default() -> (r: Self)
        ensures
            r == ReverbParams::initial(),
    {
        Self { rt60: [Single(HALF), Single(HALF), Single(HALF)], level: [Single(DEFAULT_LEVEL), Single(DEFAULT_LEVEL), Single(DEFAULT_LEVEL)] }
    }
}

impl ReverbParams {
    pub open spec fn initial() -> ReverbParams {
        ReverbParams {
            rt60: [Single(HALF), Single(HALF), Single(HALF)],
            level: [Single(DEFAULT_LEVEL), Single(DEFAULT_LEVEL), Single(DEFAULT_LEVEL)],
        }
    }
}

/// `r` stands for the whole number `n` in a flat block.
pub open spec fn counts(r: Single, n: nat) -> bool {
    r.is_nearest(whole(n as int))
}

/// The words `flat` are the flat form of `pb`.
pub open spec fn is_flat(pb: ParamBlock, flat: Seq<Single>) -> bool {
    &&& flat.len() == FLAT_HEADER + pb.taps@.len() * FLAT_PER_TAP
    &&& counts(flat[0], pb.version as nat)
    &&& counts(flat[1], pb.taps@.len())
    &&& forall|b: int| 0 <= b < 3 ==> flat[2 + b] == #[trigger] pb.reverb.rt60@[b]
    &&& forall|b: int| 0 <= b < 3 ==> flat[5 + b] == #[trigger] pb.reverb.level@[b]
    &&& match pb.remote {
        None => forall|k: int| 8 <= k < 24 ==> #[trigger] flat[k] == Single(0),
        Some(r) => {
            &&& flat[8] == Single(ONE)
            &&& forall|b: int| 0 <= b < 3 ==> flat[9 + b] == #[trigger] r.rt60@[b]
            &&& forall|b: int| 0 <= b < 3 ==> flat[12 + b] == #[trigger] r.send@[b]
            &&& forall|k: int| 0 <= k < 9 ==> flat[15 + k] == #[trigger] r.sh@[k]
        },
    }
    &&& forall|i: int|
        0 <= i < pb.taps@.len() ==> is_flat_tap(
            #[trigger] pb.taps@[i],
            flat,
            FLAT_HEADER + i * FLAT_PER_TAP,
        )
}

/// The nine words of `flat` from `o` on are the flat form of `t`.
pub open spec fn is_flat_tap(t: Tap, flat: Seq<Single>, o: int) -> bool {
    &&& counts(flat[o], t.key as nat)
    &&& flat[o + 1] == t.delay_s
    &&& forall|k: int| 0 <= k < 3 ==> flat[o + 2 + k] == #[trigger] t.dir@[k]
    &&& forall|k: int| 0 <= k < 3 ==> flat[o + 5 + k] == #[trigger] t.gains@[k]
    &&& flat[o + 8] == Single(0)
}

/// How many taps the flat words announce.
pub open spec fn announced(data: Seq<Single>) -> nat {
    data[1].truncated(usize::MAX as nat)
}

/// The flat words announce a remote reverb.
pub open spec fn announces_remote(data: Seq<Single>) -> bool {
    Single(HALF).below(data[8])
}

/// The flat words hold everything they announce.
pub open spec fn is_readable(data: Seq<Single>) -> bool {
    &&& data.len() >= 9
    &&& announces_remote(data) ==> data.len() >= FLAT_HEADER
    &&& announced(data) > 0 ==> data.len() >= FLAT_HEADER + (announced(data) - 1) * FLAT_PER_TAP + 8
}

/// The tap that the words of `data` from `o` on spell.
pub open spec fn tap_at(data: Seq<Single>, o: int) -> Tap {
    Tap {
        key: data[o].truncated(u32::MAX as nat) as u32,
        delay_s: data[o + 1],
        dir: [data[o + 2], data[o + 3], data[o + 4]],
        gains: [data[o + 5], data[o + 6], data[o + 7]],
    }
}

/// The remote reverb that the words of `data` spell.
pub open spec fn remote_at(data: Seq<Single>) -> RemoteReverb {
    RemoteReverb {
        rt60: [data[9], data[10], data[11]],
        send: [data[12], data[13], data[14]],
        sh: [
            data[15],
            data[16],
            data[17],
            data[18],
            data[19],
            data[20],
            data[21],
            data[22],
            data[23],
        ],
    }
}

/// `pb` is the block that the flat words `data` spell.
pub open spec fn is_read(pb: ParamBlock, data: Seq<Single>) -> bool {
    &&& pb.version == data[0].truncated(u64::MAX as nat)
    &&& pb.reverb.rt60@ == data.subrange(2, 5)
    &&& pb.reverb.level@ == data.subrange(5, 8)
    &&& pb.remote == if announces_remote(data) {
        Some(remote_at(data))
    } else {
        None
    }
    &&& pb.taps@ == Seq::new(announced(data), |i: int| tap_at(data, FLAT_HEADER + i * FLAT_PER_TAP))
}

/// The flat form is lossless: what is read back from the flat form of a block
/// is that block, provided that its version, its tap count and its tap keys
/// are whole numbers that single precision holds exactly.
pub proof fn flat_round_trip_is_lossless(pb: ParamBlock, flat: Seq<Single>, back: ParamBlock)
    requires
        is_flat(pb, flat),
        is_read(back, flat),
        is_exact(pb.version as nat),
        is_exact(pb.taps@.len()),
        pb.taps@.len() <= usize::MAX,
        forall|i: int| 0 <= i < pb.taps@.len() ==> is_exact((#[trigger] pb.taps@[i]).key as nat),
    ensures
        is_readable(flat),
        back.version == pb.version,
        back.reverb == pb.reverb,
        back.remote == pb.remote,
        back.taps@ == pb.taps@,
{
    exact_integers_round_trip(pb.version as nat, flat[0], u64::MAX as nat);
    exact_integers_round_trip(pb.taps@.len(), flat[1], usize::MAX as nat);
    lemma_grid_increases(HALF as nat, ONE as nat);
    assert(!announces_remote(flat) || pb.remote is Some) by {
        if pb.remote is None {
            assert(flat[8] == Single(0));
        }
    }
    assert(back.reverb.rt60@ =~= pb.reverb.rt60@) by {
        assert(flat[2] == pb.reverb.rt60@[0] && flat[3] == pb.reverb.rt60@[1] && flat[4]
            == pb.reverb.rt60@[2]);
    }
    assert(back.reverb.level@ =~= pb.reverb.level@) by {
        assert(flat[5] == pb.reverb.level@[0] && flat[6] == pb.reverb.level@[1] && flat[7]
            == pb.reverb.level@[2]);
    }
    assert(back.reverb.rt60 == pb.reverb.rt60);
    assert(back.reverb.level == pb.reverb.level);
    if let Some(r) = pb.remote {
        let q = remote_at(flat);
        assert(q.rt60@ =~= r.rt60@ && q.send@ =~= r.send@ && q.sh@ =~= r.sh@) by {
            assert forall|k: int| 0 <= k < 3 implies q.rt60@[k] == r.rt60@[k] by {}
            assert forall|k: int| 0 <= k < 3 implies q.send@[k] == r.send@[k] by {}
            assert forall|k: int| 0 <= k < 9 implies q.sh@[k] == r.sh@[k] by {}
        }
        assert(q.rt60 == r.rt60 && q.send == r.send && q.sh == r.sh);
    }
    assert forall|i: int| 0 <= i < pb.taps@.len() implies back.taps@[i] == pb.taps@[i] by {
        let o = FLAT_HEADER + i * FLAT_PER_TAP;
        let t = pb.taps@[i];
        let q = tap_at(flat, o);
        assert(is_flat_tap(t, flat, o));
        exact_integers_round_trip(t.key as nat, flat[o], u32::MAX as nat);
        assert(q.dir@ =~= t.dir@) by {
            assert forall|k: int| 0 <= k < 3 implies q.dir@[k] == t.dir@[k] by {}
        }
        assert(q.gains@ =~= t.gains@) by {
            assert forall|k: int| 0 <= k < 3 implies q.gains@[k] == t.gains@[k] by {}
        }
        assert(q.dir == t.dir && q.gains == t.gains);
    }
}

fn push_three(out: &mut Vec<Single>, v: &[Single; 3])
    ensures
        final(out)@ == old(out)@ + v@,
{
    out.push(v[0]);
    out.push(v[1]);
    out.push(v[2]);
    assert(out@ =~= old(out)@ + v@);
}

/// The flat words hold everything they announce.
pub fn holds_block(data: &[Single]) -> (r: bool)
    ensures
        r == is_readable(data@),
{
    if data.len() < 9 {
        return false;
    }
    if Single(HALF).lt(data[8]) && data.len() < FLAT_HEADER {
        return false;
    }
    let n_taps: usize = data[1].to_usize();
    n_taps == 0 || (data.len() >= FLAT_HEADER + 8 && n_taps - 1 <= (data.len() - FLAT_HEADER - 8)
        / FLAT_PER_TAP)
}

impl ParamBlock {
    pub fn flat_len(&self) -> (r: usize)
        requires
            FLAT_HEADER + self.taps@.len() * FLAT_PER_TAP <= usize::MAX,
        ensures
            r == FLAT_HEADER + self.taps@.len() * FLAT_PER_TAP,
    {
        FLAT_HEADER + self.taps.len() * FLAT_PER_TAP
    }

    pub fn write_flat(&self, out: &mut Vec<Single>)
        ensures
            is_flat(*self, final(out)@),
    {
        out.clear();
        out.push(Single::from_u64(self.version));
        out.push(Single::from_u64(self.taps.len() as u64));
        push_three(out, &self.reverb.rt60);
        push_three(out, &self.reverb.level);
        match &self.remote {
            Some(r) => {
                out.push(Single(ONE));
                push_three(out, &r.rt60);
                push_three(out, &r.send);
                let mut k: usize = 0;
                while k < 9
                    invariant
                        k <= 9,
                        out@.len() == 15 + k,
                        counts(out@[0], self.version as nat),
                        counts(out@[1], self.taps@.len()),
                        forall|b: int| 0 <= b < 3 ==> out@[2 + b] == #[trigger] self.reverb.rt60@[b],
                        forall|b: int| 0 <= b < 3 ==> out@[5 + b] == #[trigger] self.reverb.level@[b],
                        out@[8] == Single(ONE),
                        forall|b: int| 0 <= b < 3 ==> out@[9 + b] == #[trigger] r.rt60@[b],
                        forall|b: int| 0 <= b < 3 ==> out@[12 + b] == #[trigger] r.send@[b],
                        forall|j: int| 0 <= j < k ==> out@[15 + j] == #[trigger] r.sh@[j],
                    decreases 9 - k,
                {
                    out.push(r.sh[k]);
                    k = k + 1;
                }
            },
            None => {
                let mut k: usize = 8;
                while k < FLAT_HEADER
                    invariant
                        8 <= k <= 24,
                        out@.len() == k,
                        counts(out@[0], self.version as nat),
                        counts(out@[1], self.taps@.len()),
                        forall|b: int| 0 <= b < 3 ==> out@[2 + b] == #[trigger] self.reverb.rt60@[b],
                        forall|b: int| 0 <= b < 3 ==> out@[5 + b] == #[trigger] self.reverb.level@[b],
                        forall|j: int| 8 <= j < k ==> #[trigger] out@[j] == Single(0),
                    decreases 24 - k,
                {
                    out.push(Single(0));
                    k = k + 1;
                }
            },
        }
        let ghost header = out@;
        let mut i: usize = 0;
        while i < self.taps.len()
            invariant
                header.len() == FLAT_HEADER,
                i <= self.taps@.len(),
                out@.len() == FLAT_HEADER + i * FLAT_PER_TAP,
                forall|k: int| 0 <= k < 24 ==> out@[k] == header[k],
                forall|j: int|
                    0 <= j < i ==> is_flat_tap(
                        #[trigger] self.taps@[j],
                        out@,
                        FLAT_HEADER + j * FLAT_PER_TAP,
                    ),
            decreases self.taps@.len() - i,
        {
            let t: Tap = self.taps[i];
            let ghost o = out@.len() as int;
            let ghost prior = out@;
            out.push(Single::from_u64(t.key as u64));
            out.push(t.delay_s);
            push_three(out, &t.dir);
            push_three(out, &t.gains);
            out.push(Single(0));
            proof {
                assert forall|j: int| 0 <= j < i implies is_flat_tap(
                    #[trigger] self.taps@[j],
                    out@,
                    FLAT_HEADER + j * FLAT_PER_TAP,
                ) by {
                    assert(is_flat_tap(self.taps@[j], prior, FLAT_HEADER + j * FLAT_PER_TAP));
                }
                assert(is_flat_tap(t, out@, o));
            }
            i = i + 1;
        }
        proof {
            assert(forall|b: int| 0 <= b < 3 ==> header[2 + b] == #[trigger] self.reverb.rt60@[b]);
            assert(forall|b: int| 0 <= b < 3 ==> header[5 + b] == #[trigger] self.reverb.level@[b]);
            assert(self.remote is None ==> forall|k: int|
                8 <= k < 24 ==> #[trigger] header[k] == Single(0));
            assert(self.remote is None ==> forall|k: int|
                8 <= k < 24 ==> #[trigger] out@[k] == header[k]);
            assert forall|b: int| 0 <= b < 3 implies out@[2 + b] == #[trigger] self.reverb.rt60@[b] by {
                assert(out@[2 + b] == header[2 + b]);
            }
            assert forall|b: int| 0 <= b < 3 implies out@[5 + b] == #[trigger] self.reverb.level@[b] by {
                assert(out@[5 + b] == header[5 + b]);
            }
        }
    }

    pub fn read_flat(data: &[Single]) -> (pb: Self)
        requires
            is_readable(data@),
        ensures
            is_read(pb, data@),
    {
        let len: usize = data.len();
        let n_taps: usize = data[1].to_usize();
        let reverb: ReverbParams = ReverbParams {
            rt60: [data[2], data[3], data[4]],
            level: [data[5], data[6], data[7]],
        };
        let remote: Option<RemoteReverb> = if Single(HALF).lt(data[8]) {
            Some(
                RemoteReverb {
                    rt60: [data[9], data[10], data[11]],
                    send: [data[12], data[13], data[14]],
                    sh: [
                        data[15],
                        data[16],
                        data[17],
                        data[18],
                        data[19],
                        data[20],
                        data[21],
                        data[22],
                        data[23],
                    ],
                },
            )
        } else {
            None
        };
        let mut taps: Vec<Tap> = Vec::new();
        let mut i: usize = 0;
        while i < n_taps
            invariant
                i <= n_taps,
                n_taps == announced(data@),
                is_readable(data@),
                len == data@.len(),
                taps@ == Seq::new(
                    i as nat,
                    |j: int| tap_at(data@, FLAT_HEADER + j * FLAT_PER_TAP),
                ),
            decreases n_taps - i,
        {
            assert(i * 9 <= (n_taps - 1) * 9);
            let o: usize = FLAT_HEADER + i * FLAT_PER_TAP;
            taps.push(
                Tap {
                    key: data[o].to_u32(),
                    delay_s: data[o + 1],
                    dir: [data[o + 2], data[o + 3], data[o + 4]],
                    gains: [data[o + 5], data[o + 6], data[o + 7]],
                },
            );
            i = i + 1;
            assert(taps@ =~= Seq::new(
                i as nat,
                |j: int| tap_at(data@, FLAT_HEADER + j * FLAT_PER_TAP),
            ));
        }
        assert(reverb.rt60@ =~= data@.subrange(2, 5));
        assert(reverb.level@ =~= data@.subrange(5, 8));
        Self { taps, reverb, remote, version: data[0].to_u64() }
    }
}

} // verus!
