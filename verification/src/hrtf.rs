//! Binaural rendering in two tiers. The bus decoder feeds virtual speakers,
//! each with a measured response per ear, at a fixed cost: right for
//! reflections and reverb. The dense grid gives a path its own nearest
//! response, at full sharpness: right for direct paths.

use crate::ambi::{dot3, dot_of, encode_gains, encoded, Frame, THREE};
use crate::arith::{
    add_times, diff, greater, greater_of, minus, over, plus, plus_prod, prod, quot, sum, times, Calc,
    Op,
};
use crate::params::ONE;
use crate::probe::{answering, is_steady};
use crate::single::{rounded, Single};
use vstd::prelude::*;

verus! {

/// The pattern of 5.0.
pub const FIVE: u32 = 0x40A0_0000;

/// The pattern of 0.775: the weight of degree 1.
pub const MAXRE_1: u32 = 0x3F46_6666;

/// The pattern of 0.4: the weight of degree 2.
pub const MAXRE_2: u32 = 0x3ECC_CCCD;

/// The pattern of 1.4: the loudness match to the cardioid decoder.
pub const MASTER: u32 = 0x3FB3_3333;

/// The pattern of the lowest finite number.
pub const LOWEST: u32 = 0xFF7F_FFFF;

/// The pattern of 0.010: a crossfade's length in seconds.
pub const XFADE_S: u32 = 0x3C23_D70A;

/// The little-endian word at byte `o`.
pub open spec fn word_at(b: Seq<u8>, o: int) -> u32 {
    (b[o] + 256 * b[o + 1] + 65536 * b[o + 2] + 16777216 * b[o + 3]) as u32
}

fn read_word(b: &[u8], o: usize) -> (r: u32)
    requires
        o + 4 <= b@.len(),
    ensures
        r == word_at(b@, o as int),
{
    (b[o] as u32) + 256 * (b[o + 1] as u32) + 65536 * (b[o + 2] as u32) + 16777216 * (b[o + 3] as
    u32)
}

/// How many records a bank says it has.
pub open spec fn bank_count(b: Seq<u8>) -> int {
    word_at(b, 0) as int
}

/// How many samples each response has.
pub open spec fn bank_taps(b: Seq<u8>) -> int {
    word_at(b, 4) as int
}

/// The bytes of one record: a direction and two responses.
pub open spec fn record_bytes(taps: int) -> int {
    12 + 8 * taps
}

/// The bytes hold as many records as they say.
pub open spec fn is_bank(b: Seq<u8>) -> bool {
    &&& b.len() >= 8
    &&& bank_count(b) * record_bytes(bank_taps(b)) <= b.len() - 8
}

/// `n` numbers from byte `o` on.
pub open spec fn numbers(b: Seq<u8>, o: int, n: nat) -> Seq<Single> {
    Seq::new(n, |i: int| Single(word_at(b, o + 4 * i)))
}

/// One measured direction: the responses of the left and the right ear.
#[derive(Debug)]
pub struct Record {
    pub dir: [Single; 3],
    pub left: Vec<Single>,
    pub right: Vec<Single>,
}

/// Where record `r` starts.
pub open spec fn record_start(taps: int, r: int) -> int {
    8 + r * record_bytes(taps)
}

/// `rec` is record `r` of the bank.
pub open spec fn is_record(b: Seq<u8>, r: int, rec: Record) -> bool {
    let taps = bank_taps(b);
    let o = record_start(taps, r);
    &&& rec.dir@ == numbers(b, o, 3)
    &&& rec.left@ == numbers(b, o + 12, taps as nat)
    &&& rec.right@ == numbers(b, o + 12 + 4 * taps, taps as nat)
}

/// The bytes are a whole bank.
pub fn holds_bank(bytes: &[u8]) -> (r: bool)
    ensures
        r == is_bank(bytes@),
{
    if bytes.len() < 8 {
        return false;
    }
    let count: u128 = read_word(bytes, 0) as u128;
    let taps: u128 = read_word(bytes, 4) as u128;
    assert(0 <= count * (12 + 8 * taps) <= 0x1_0000_0000 * 0x10_0000_0000) by (nonlinear_arith)
        requires
            0 <= count < 0x1_0000_0000,
            0 <= taps < 0x1_0000_0000,
    ;
    count * (12 + 8 * taps) <= (bytes.len() - 8) as u128
}

fn read_numbers(b: &[u8], o: usize, n: usize) -> (r: Vec<Single>)
    requires
        o + 4 * n <= b@.len(),
    ensures
        r@ == numbers(b@, o as int, n as nat),
{
    let mut r: Vec<Single> = Vec::new();
    let mut i: usize = 0;
    let len: usize = b.len();
    while i < n
        invariant
            i <= n,
            o + 4 * n <= len,
            len == b@.len(),
            r@ == numbers(b@, o as int, i as nat),
        decreases n - i,
    {
        r.push(Single(read_word(b, o + 4 * i)));
        i = i + 1;
        assert(r@ =~= numbers(b@, o as int, i as nat));
    }
    r
}

/// Read a bank: the length of its responses, and its records.
pub fn parse_bin(bytes: &[u8]) -> (r: (usize, Vec<Record>))
    requires
        is_bank(bytes@),
    ensures
        r.0 == bank_taps(bytes@),
        r.1@.len() == bank_count(bytes@),
        forall|k: int| 0 <= k < r.1@.len() ==> is_record(bytes@, k, #[trigger] r.1@[k]),
{
    let count: usize = read_word(bytes, 0) as usize;
    let taps: usize = read_word(bytes, 4) as usize;
    let ghost one = record_bytes(taps as int);
    let mut records: Vec<Record> = Vec::new();
    let mut off: usize = 8;
    let mut k: usize = 0;
    let len: usize = bytes.len();
    assert(0 * one == 0);
    while k < count
        invariant
            k <= count,
            len == bytes@.len(),
            is_bank(bytes@),
            count == bank_count(bytes@),
            taps == bank_taps(bytes@),
            one == record_bytes(taps as int),
            off == 8 + k * one,
            records@.len() == k,
            forall|j: int| 0 <= j < k ==> is_record(bytes@, j, #[trigger] records@[j]),
        decreases count - k,
    {
        proof {
            assert((k + 1) * one == k * one + one) by (nonlinear_arith);
            assert((k + 1) * one <= count * one) by (nonlinear_arith)
                requires
                    k + 1 <= count,
                    one >= 0,
            ;
        }
        let d: Vec<Single> = read_numbers(bytes, off, 3);
        let left: Vec<Single> = read_numbers(bytes, off + 12, taps);
        let right: Vec<Single> = read_numbers(bytes, off + 12 + 4 * taps, taps);
        let rec: Record = Record { dir: [d[0], d[1], d[2]], left, right };
        assert(rec.dir@ =~= numbers(bytes@, off as int, 3));
        records.push(rec);
        off = off + 12 + 8 * taps;
        k = k + 1;
    }
    (taps, records)
}

// --- ring convolution

/// One of four lanes over the first `c` groups of four.
pub open spec fn lane(f: Calc, h: Seq<Single>, k: Seq<Single>, j: int, c: int) -> Single
    decreases c,
{
    if c <= 0 {
        Single(0)
    } else {
        plus_prod(f, lane(f, h, k, j, c - 1), h[4 * (c - 1) + j], k[4 * (c - 1) + j])
    }
}

/// `acc` plus the products from `from` to `to`.
pub open spec fn tail(
    f: Calc,
    h: Seq<Single>,
    k: Seq<Single>,
    acc: Single,
    from: int,
    to: int,
) -> Single
    decreases to - from,
{
    if to <= from {
        acc
    } else {
        plus_prod(f, tail(f, h, k, acc, from, to - 1), h[to - 1], k[to - 1])
    }
}

/// The inner product in four lanes, what is left over added one by one.
pub open spec fn dot(f: Calc, h: Seq<Single>, k: Seq<Single>) -> Single {
    let c = h.len() as int / 4;
    let lanes = sum(
        f,
        sum(f, lane(f, h, k, 0, c), lane(f, h, k, 1, c)),
        sum(f, lane(f, h, k, 2, c), lane(f, h, k, 3, c)),
    );
    tail(f, h, k, lanes, 4 * c, h.len() as int)
}

/// The inner product of `n` samples of `hist` from `h0` on with `n` of a
/// kernel from `k0` on.
fn dot_range<F: Fn(Op) -> Single>(
    f: &F,
    hist: &Vec<Single>,
    h0: usize,
    k: &Vec<Single>,
    k0: usize,
    n: usize,
) -> (r: Single)
    requires
        is_steady(*f),
        h0 + n <= hist@.len(),
        k0 + n <= k@.len(),
    ensures
        r == dot(
            answering(*f),
            hist@.subrange(h0 as int, h0 + n),
            k@.subrange(k0 as int, k0 + n),
        ),
{
    let ghost g = answering(*f);
    let ghost hs = hist@.subrange(h0 as int, h0 + n);
    let ghost ks = k@.subrange(k0 as int, k0 + n);
    let groups: usize = n / 4;
    let mut a: [Single; 4] = [Single(0), Single(0), Single(0), Single(0)];
    let mut c: usize = 0;
    let hn: usize = hist.len();
    let kn: usize = k.len();
    while c < groups
        invariant
            c <= groups,
            4 * groups <= n,
            is_steady(*f),
            g == answering(*f),
            hn == hist@.len(),
            kn == k@.len(),
            h0 + n <= hn,
            k0 + n <= kn,
            hs == hist@.subrange(h0 as int, h0 + n),
            ks == k@.subrange(k0 as int, k0 + n),
            forall|j: int| 0 <= j < 4 ==> #[trigger] a@[j] == lane(g, hs, ks, j, c as int),
        decreases groups - c,
    {
        let o: usize = 4 * c;
        let b: [Single; 4] = [
            add_times(f, a[0], hist[h0 + o], k[k0 + o]),
            add_times(f, a[1], hist[h0 + o + 1], k[k0 + o + 1]),
            add_times(f, a[2], hist[h0 + o + 2], k[k0 + o + 2]),
            add_times(f, a[3], hist[h0 + o + 3], k[k0 + o + 3]),
        ];
        assert(a@[0] == lane(g, hs, ks, 0, c as int));
        assert(a@[1] == lane(g, hs, ks, 1, c as int));
        assert(a@[2] == lane(g, hs, ks, 2, c as int));
        assert(a@[3] == lane(g, hs, ks, 3, c as int));
        a = b;
        c = c + 1;
    }
    assert(a@[0] == lane(g, hs, ks, 0, c as int));
    assert(a@[1] == lane(g, hs, ks, 1, c as int));
    assert(a@[2] == lane(g, hs, ks, 2, c as int));
    assert(a@[3] == lane(g, hs, ks, 3, c as int));
    let lanes: Single = plus(f, plus(f, a[0], a[1]), plus(f, a[2], a[3]));
    let mut s: Single = lanes;
    let mut i: usize = 4 * groups;
    while i < n
        invariant
            4 * groups <= i <= n,
            is_steady(*f),
            g == answering(*f),
            hn == hist@.len(),
            kn == k@.len(),
            h0 + n <= hn,
            k0 + n <= kn,
            hs == hist@.subrange(h0 as int, h0 + n),
            ks == k@.subrange(k0 as int, k0 + n),
            s == tail(g, hs, ks, lanes, 4 * groups, i as int),
        decreases n - i,
    {
        s = add_times(f, s, hist[h0 + i], k[k0 + i]);
        i = i + 1;
    }
    s
}

/// What a ring, newest sample at `pos`, gives with a reversed kernel: the part
/// up to `pos`, then the part behind it.
pub open spec fn ring_product(f: Calc, hist: Seq<Single>, pos: int, rev: Seq<Single>) -> Single {
    let n = hist.len() as int;
    let s = n - 1 - pos;
    sum(
        f,
        dot(f, hist.subrange(0, pos + 1), rev.subrange(s, n)),
        dot(f, hist.subrange(pos + 1, n), rev.subrange(0, s)),
    )
}

/// Convolve a ring with a pair of reversed kernels.
pub fn convolve_ring<F: Fn(Op) -> Single>(
    f: &F,
    hist: &Vec<Single>,
    pos: usize,
    hl_rev: &Vec<Single>,
    hr_rev: &Vec<Single>,
) -> (r: (Single, Single))
    requires
        is_steady(*f),
        pos < hist@.len(),
        hl_rev@.len() == hist@.len(),
        hr_rev@.len() == hist@.len(),
    ensures
        r.0 == ring_product(answering(*f), hist@, pos as int, hl_rev@),
        r.1 == ring_product(answering(*f), hist@, pos as int, hr_rev@),
{
    let s: usize = hist.len() - 1 - pos;
    let l1: Single = dot_range(f, hist, 0, hl_rev, s, pos + 1);
    let r1: Single = dot_range(f, hist, 0, hr_rev, s, pos + 1);
    let l2: Single = dot_range(f, hist, pos + 1, hl_rev, 0, s);
    let r2: Single = dot_range(f, hist, pos + 1, hr_rev, 0, s);
    (plus(f, l1, l2), plus(f, r1, r2))
}

/// How many samples place `j` of a ring of `n` lies behind `pos`.
pub open spec fn behind(n: int, pos: int, j: int) -> int {
    if j <= pos {
        pos - j
    } else {
        pos - j + n
    }
}

/// Which place of the reversed kernel place `j` of the ring is multiplied
/// with.
pub open spec fn partner(n: int, pos: int, j: int) -> int {
    if j <= pos {
        n - 1 - pos + j
    } else {
        j - pos - 1
    }
}

/// The ring product multiplies the sample `i` behind the newest with response
/// sample `i`, for every place of the ring: it is the convolution with the
/// response that was reversed.
pub proof fn every_sample_meets_its_tap(
    hist: Seq<Single>,
    pos: int,
    kernel: Seq<Single>,
    j: int,
)
    requires
        0 <= pos < hist.len(),
        kernel.len() == hist.len(),
        0 <= j < hist.len(),
    ensures
        kernel.reverse()[partner(hist.len() as int, pos, j)] == kernel[behind(
            hist.len() as int,
            pos,
            j,
        )],
        j <= pos ==> hist.subrange(0, pos + 1)[j] == hist[j] && kernel.reverse().subrange(
            hist.len() - 1 - pos,
            hist.len() as int,
        )[j] == kernel.reverse()[partner(hist.len() as int, pos, j)],
        j > pos ==> hist.subrange(pos + 1, hist.len() as int)[j - pos - 1] == hist[j]
            && kernel.reverse().subrange(0, hist.len() - 1 - pos)[j - pos - 1]
            == kernel.reverse()[partner(hist.len() as int, pos, j)],
{
}

// --- the bus decoder

/// The numbers in the opposite order.
fn reversed(v: &Vec<Single>) -> (r: Vec<Single>)
    ensures
        r@ == v@.reverse(),
{
    let mut r: Vec<Single> = Vec::new();
    let n: usize = v.len();
    let mut i: usize = 0;
    while i < n
        invariant
            i <= n,
            n == v@.len(),
            r@.len() == i,
            forall|j: int| 0 <= j < i ==> #[trigger] r@[j] == v@[n - 1 - j],
        decreases n - i,
    {
        r.push(v[n - 1 - i]);
        i = i + 1;
    }
    assert(r@ =~= v@.reverse());
    r
}

/// `n` zeros.
fn silence(n: usize) -> (r: Vec<Single>)
    ensures
        r@ == silent(n as nat),
{
    let mut r: Vec<Single> = Vec::new();
    let mut i: usize = 0;
    while i < n
        invariant
            i <= n,
            r@ == silent(i as nat),
        decreases n - i,
    {
        r.push(Single(0));
        i = i + 1;
        assert(r@ =~= silent(i as nat));
    }
    r
}

/// `n` zeros.
pub open spec fn silent(n: nat) -> Seq<Single> {
    Seq::new(n, |i: int| Single(0))
}

/// A virtual speaker: how it is fed from the bus, its responses reversed, and
/// what it played last.
#[derive(Debug)]
pub struct Speaker {
    pub matrix: Frame,
    pub hrir_l: Vec<Single>,
    pub hrir_r: Vec<Single>,
    pub hist: Vec<Single>,
}

#[derive(Debug)]
pub struct BinauralDecoder {
    pub speakers: Vec<Speaker>,
    pub taps: usize,
    pub pos: usize,
}

/// The feed of channel `n` with encoding gain `e`: its degree's share, weighted.
pub open spec fn feed(f: Calc, many: Single, share: Single, weight: Single, e: Single) -> Single {
    prod(f, prod(f, prod(f, quot(f, share, many), weight), e), Single(MASTER))
}

fn feed_of<F: Fn(Op) -> Single>(f: &F, many: Single, share: Single, weight: Single, e: Single) -> (r:
    Single)
    requires
        is_steady(*f),
    ensures
        r == feed(answering(*f), many, share, weight, e),
{
    let part: Single = times(f, over(f, share, many), weight);
    times(f, times(f, part, e), Single(MASTER))
}

/// How a speaker at `dir`, one of `many`, is fed.
pub open spec fn feeds(f: Calc, many: Single, dir: [Single; 3]) -> Frame {
    let e = encoded(f, dir);
    let (w0, w1, w2) = (Single(ONE), Single(MAXRE_1), Single(MAXRE_2));
    let (s0, s1, s2) = (Single(ONE), Single(THREE), Single(FIVE));
    [
        feed(f, many, s0, w0, e@[0]),
        feed(f, many, s1, w1, e@[1]),
        feed(f, many, s1, w1, e@[2]),
        feed(f, many, s1, w1, e@[3]),
        feed(f, many, s2, w2, e@[4]),
        feed(f, many, s2, w2, e@[5]),
        feed(f, many, s2, w2, e@[6]),
        feed(f, many, s2, w2, e@[7]),
        feed(f, many, s2, w2, e@[8]),
    ]
}

fn feeds_of<F: Fn(Op) -> Single>(f: &F, many: Single, dir: [Single; 3]) -> (r: Frame)
    requires
        is_steady(*f),
    ensures
        r == feeds(answering(*f), many, dir),
{
    let e: Frame = encode_gains(f, dir);
    let (w0, w1, w2) = (Single(ONE), Single(MAXRE_1), Single(MAXRE_2));
    let (s0, s1, s2) = (Single(ONE), Single(THREE), Single(FIVE));
    let r: Frame = [
        feed_of(f, many, s0, w0, e[0]),
        feed_of(f, many, s1, w1, e[1]),
        feed_of(f, many, s1, w1, e[2]),
        feed_of(f, many, s1, w1, e[3]),
        feed_of(f, many, s2, w2, e[4]),
        feed_of(f, many, s2, w2, e[5]),
        feed_of(f, many, s2, w2, e[6]),
        feed_of(f, many, s2, w2, e[7]),
        feed_of(f, many, s2, w2, e[8]),
    ];
    assert(r@ =~= feeds(answering(*f), many, dir)@);
    r
}

/// What a speaker plays of the first `n` channels.
pub open spec fn played(f: Calc, matrix: Frame, sh: Frame, n: int) -> Single
    decreases n,
{
    if n <= 0 {
        Single(0)
    } else {
        plus_prod(f, played(f, matrix, sh, n - 1), matrix@[n - 1], sh@[n - 1])
    }
}

/// `s` is the speaker of record `r` at rest.
pub open spec fn is_speaker(f: Calc, b: Seq<u8>, r: int, s: Speaker) -> bool {
    let taps = bank_taps(b);
    let o = record_start(taps, r);
    exists|dir: [Single; 3]|
        {
            &&& dir@ == numbers(b, o, 3)
            &&& s.matrix == #[trigger] feeds(f, rounded(bank_count(b) as nat), dir)
            &&& s.hrir_l@ == numbers(b, o + 12, taps as nat).reverse()
            &&& s.hrir_r@ == numbers(b, o + 12 + 4 * taps, taps as nat).reverse()
            &&& s.hist@ == silent(taps as nat)
        }
}

impl Speaker {
    pub open spec fn wf(self, taps: nat) -> bool {
        &&& self.hrir_l@.len() == taps
        &&& self.hrir_r@.len() == taps
        &&& self.hist@.len() == taps
    }

    /// What it played, with this frame at `pos`.
    pub open spec fn heard(self, f: Calc, sh: Frame, pos: int) -> Seq<Single> {
        self.hist@.update(pos, played(f, self.matrix, sh, 9))
    }
}

/// The left ear's sum over the first `n` speakers.
pub open spec fn left_sum(f: Calc, s: Seq<Speaker>, sh: Frame, pos: int, n: int) -> Single
    decreases n,
{
    if n <= 0 {
        Single(0)
    } else {
        sum(
            f,
            left_sum(f, s, sh, pos, n - 1),
            ring_product(f, s[n - 1].heard(f, sh, pos), pos, s[n - 1].hrir_l@),
        )
    }
}

/// The right ear's sum over the first `n` speakers.
pub open spec fn right_sum(f: Calc, s: Seq<Speaker>, sh: Frame, pos: int, n: int) -> Single
    decreases n,
{
    if n <= 0 {
        Single(0)
    } else {
        sum(
            f,
            right_sum(f, s, sh, pos, n - 1),
            ring_product(f, s[n - 1].heard(f, sh, pos), pos, s[n - 1].hrir_r@),
        )
    }
}

/// The place after `pos` in a ring of `n`.
pub open spec fn ring_next(pos: int, n: int) -> int {
    if pos + 1 == n {
        0
    } else {
        pos + 1
    }
}

impl BinauralDecoder {
    pub open spec fn wf(self) -> bool {
        &&& 0 < self.taps
        &&& self.pos < self.taps
        &&& forall|i: int|
            0 <= i < self.speakers@.len() ==> (#[trigger] self.speakers@[i]).wf(self.taps as nat)
    }

    pub fn from_bytes<F: Fn(Op) -> Single>(f: &F, bytes: &[u8]) -> (r: Self)
        requires
            is_steady(*f),
            is_bank(bytes@),
        ensures
            r.taps == bank_taps(bytes@),
            r.pos == 0,
            r.speakers@.len() == bank_count(bytes@),
            forall|k: int|
                0 <= k < r.speakers@.len() ==> is_speaker(
                    answering(*f),
                    bytes@,
                    k,
                    #[trigger] r.speakers@[k],
                ),
            0 < r.taps ==> r.wf(),
    {
        let (taps, records) = parse_bin(bytes);
        let many: Single = Single::from_usize(records.len());
        let mut speakers: Vec<Speaker> = Vec::new();
        let mut k: usize = 0;
        while k < records.len()
            invariant
                k <= records@.len(),
                is_steady(*f),
                taps == bank_taps(bytes@),
                records@.len() == bank_count(bytes@),
                many == rounded(records@.len()),
                forall|j: int|
                    0 <= j < records@.len() ==> is_record(bytes@, j, #[trigger] records@[j]),
                speakers@.len() == k,
                forall|j: int|
                    0 <= j < k ==> is_speaker(answering(*f), bytes@, j, #[trigger] speakers@[j]),
            decreases records@.len() - k,
        {
            assert(is_record(bytes@, k as int, records@[k as int]));
            let s: Speaker = Speaker {
                matrix: feeds_of(f, many, records[k].dir),
                hrir_l: reversed(&records[k].left),
                hrir_r: reversed(&records[k].right),
                hist: silence(taps),
            };
            assert(s.matrix == feeds(
                answering(*f),
                rounded(bank_count(bytes@) as nat),
                records@[k as int].dir,
            ));
            speakers.push(s);
            k = k + 1;
        }
        BinauralDecoder { speakers, taps, pos: 0 }
    }

    pub fn speaker_count(&self) -> (r: usize)
        ensures
            r == self.speakers@.len(),
    {
        self.speakers.len()
    }

    /// One frame of the bus in, both ears out.
    pub fn process<F: Fn(Op) -> Single>(&mut self, f: &F, sh: &Frame) -> (r: (Single, Single))
        requires
            old(self).wf(),
            is_steady(*f),
        ensures
            final(self).wf(),
            final(self).taps == old(self).taps,
            final(self).pos == ring_next(old(self).pos as int, old(self).taps as int),
            final(self).speakers@.len() == old(self).speakers@.len(),
            forall|i: int|
                0 <= i < old(self).speakers@.len() ==> {
                    let s = old(self).speakers@[i];
                    let t = #[trigger] final(self).speakers@[i];
                    &&& t.matrix == s.matrix
                    &&& t.hrir_l == s.hrir_l
                    &&& t.hrir_r == s.hrir_r
                    &&& t.hist@ == s.heard(answering(*f), *sh, final(self).pos as int)
                },
            r.0 == left_sum(
                answering(*f),
                old(self).speakers@,
                *sh,
                final(self).pos as int,
                old(self).speakers@.len() as int,
            ),
            r.1 == right_sum(
                answering(*f),
                old(self).speakers@,
                *sh,
                final(self).pos as int,
                old(self).speakers@.len() as int,
            ),
    {
        let ghost g = answering(*f);
        let ghost s0 = self.speakers@;
        self.pos = if self.pos == self.taps - 1 {
            0
        } else {
            self.pos + 1
        };
        let pos: usize = self.pos;
        let mut l: Single = Single(0);
        let mut r: Single = Single(0);
        let mut i: usize = 0;
        while i < self.speakers.len()
            invariant
                i <= self.speakers@.len(),
                is_steady(*f),
                g == answering(*f),
                self.wf(),
                self.taps == old(self).taps,
                self.pos == pos,
                pos == ring_next(old(self).pos as int, old(self).taps as int),
                self.speakers@.len() == s0.len(),
                s0 == old(self).speakers@,
                forall|j: int| i <= j < s0.len() ==> #[trigger] self.speakers@[j] == s0[j],
                forall|j: int|
                    0 <= j < i ==> {
                        let s = s0[j];
                        let t = #[trigger] self.speakers@[j];
                        &&& t.matrix == s.matrix
                        &&& t.hrir_l == s.hrir_l
                        &&& t.hrir_r == s.hrir_r
                        &&& t.hist@ == s.heard(g, *sh, pos as int)
                    },
                l == left_sum(g, s0, *sh, pos as int, i as int),
                r == right_sum(g, s0, *sh, pos as int, i as int),
            decreases self.speakers@.len() - i,
        {
            assert(self.speakers@[i as int] == s0[i as int]);
            assert(self.speakers@[i as int].wf(self.taps as nat));
            let mut s: Single = Single(0);
            let mut n: usize = 0;
            while n < 9
                invariant
                    n <= 9,
                    i < self.speakers@.len(),
                    is_steady(*f),
                    g == answering(*f),
                    s == played(g, self.speakers@[i as int].matrix, *sh, n as int),
                decreases 9 - n,
            {
                s = add_times(f, s, self.speakers[i].matrix[n], sh[n]);
                n = n + 1;
            }
            self.speakers[i].hist.set(pos, s);
            assert(self.speakers@[i as int].hist@ == s0[i as int].heard(g, *sh, pos as int));
            let (al, ar) = convolve_ring(
                f,
                &self.speakers[i].hist,
                pos,
                &self.speakers[i].hrir_l,
                &self.speakers[i].hrir_r,
            );
            l = plus(f, l, al);
            r = plus(f, r, ar);
            i = i + 1;
        }
        (l, r)
    }
}

// --- the dense grid

#[derive(Debug)]
pub struct HrirGrid {
    pub dirs: Vec<[Single; 3]>,
    /// Reversed.
    pub hrir_l: Vec<Vec<Single>>,
    /// Reversed.
    pub hrir_r: Vec<Vec<Single>>,
    pub taps: usize,
}

/// The nearest of the first `n` directions and how near it is: the first of
/// those with the largest inner product.
pub open spec fn closest(f: Calc, dirs: Seq<[Single; 3]>, dir: [Single; 3], n: int) -> (int, Single)
    decreases n,
{
    if n <= 0 {
        (0, Single(LOWEST))
    } else {
        let best = closest(f, dirs, dir, n - 1);
        let d = dot3(f, dirs[n - 1], dir);
        if best.1.below(d) {
            (n - 1, d)
        } else {
            best
        }
    }
}

/// No direction is nearer than the one that is found.
pub proof fn the_nearest_direction_is_found(
    f: Calc,
    dirs: Seq<[Single; 3]>,
    dir: [Single; 3],
    n: int,
    i: int,
)
    requires
        0 <= i < n <= dirs.len(),
    ensures
        !closest(f, dirs, dir, n).1.below(dot3(f, dirs[i], dir)),
        !closest(f, dirs, dir, n).1.is_nan(),
        0 <= closest(f, dirs, dir, n).0 < n,
    decreases n,
{
    reveal_with_fuel(closest, 2);
    if n - 1 > 0 {
        the_nearest_direction_is_found(f, dirs, dir, n - 1, if i < n - 1 { i } else { 0 });
    }
}

impl HrirGrid {
    pub open spec fn wf(self) -> bool {
        &&& self.hrir_l@.len() == self.dirs@.len()
        &&& self.hrir_r@.len() == self.dirs@.len()
        &&& forall|i: int|
            0 <= i < self.dirs@.len() ==> (#[trigger] self.hrir_l@[i])@.len() == self.taps
        &&& forall|i: int|
            0 <= i < self.dirs@.len() ==> (#[trigger] self.hrir_r@[i])@.len() == self.taps
    }

    pub fn from_bytes(bytes: &[u8]) -> (r: Self)
        requires
            is_bank(bytes@),
        ensures
            r.wf(),
            r.taps == bank_taps(bytes@),
            r.dirs@.len() == bank_count(bytes@),
            forall|k: int|
                0 <= k < r.dirs@.len() ==> (#[trigger] r.dirs@[k])@ == numbers(
                    bytes@,
                    record_start(bank_taps(bytes@), k),
                    3,
                ),
            forall|k: int|
                0 <= k < r.dirs@.len() ==> (#[trigger] r.hrir_l@[k])@ == numbers(
                    bytes@,
                    record_start(bank_taps(bytes@), k) + 12,
                    bank_taps(bytes@) as nat,
                ).reverse(),
            forall|k: int|
                0 <= k < r.dirs@.len() ==> (#[trigger] r.hrir_r@[k])@ == numbers(
                    bytes@,
                    record_start(bank_taps(bytes@), k) + 12 + 4 * bank_taps(bytes@),
                    bank_taps(bytes@) as nat,
                ).reverse(),
    {
        let (taps, records) = parse_bin(bytes);
        let mut g: HrirGrid = HrirGrid {
            dirs: Vec::new(),
            hrir_l: Vec::new(),
            hrir_r: Vec::new(),
            taps,
        };
        let mut i: usize = 0;
        while i < records.len()
            invariant
                i <= records@.len(),
                taps == bank_taps(bytes@),
                g.taps == taps,
                records@.len() == bank_count(bytes@),
                forall|j: int|
                    0 <= j < records@.len() ==> is_record(bytes@, j, #[trigger] records@[j]),
                g.dirs@.len() == i,
                g.hrir_l@.len() == i,
                g.hrir_r@.len() == i,
                forall|k: int|
                    0 <= k < i ==> (#[trigger] g.dirs@[k])@ == numbers(
                        bytes@,
                        record_start(taps as int, k),
                        3,
                    ),
                forall|k: int|
                    0 <= k < i ==> (#[trigger] g.hrir_l@[k])@ == numbers(
                        bytes@,
                        record_start(taps as int, k) + 12,
                        taps as nat,
                    ).reverse(),
                forall|k: int|
                    0 <= k < i ==> (#[trigger] g.hrir_r@[k])@ == numbers(
                        bytes@,
                        record_start(taps as int, k) + 12 + 4 * taps,
                        taps as nat,
                    ).reverse(),
            decreases records@.len() - i,
        {
            assert(is_record(bytes@, i as int, records@[i as int]));
            g.dirs.push(records[i].dir);
            g.hrir_l.push(reversed(&records[i].left));
            g.hrir_r.push(reversed(&records[i].right));
            i = i + 1;
        }
        g
    }

    pub fn len(&self) -> (r: usize)
        ensures
            r == self.dirs@.len(),
    {
        self.dirs.len()
    }

    pub fn is_empty(&self) -> (r: bool)
        ensures
            r == (self.dirs@.len() == 0),
    {
        self.dirs.len() == 0
    }

    pub fn nearest<F: Fn(Op) -> Single>(&self, f: &F, dir: [Single; 3]) -> (r: usize)
        requires
            is_steady(*f),
        ensures
            r == closest(answering(*f), self.dirs@, dir, self.dirs@.len() as int).0,
            self.dirs@.len() > 0 ==> r < self.dirs@.len(),
    {
        let mut best: usize = 0;
        let mut best_dot: Single = Single(LOWEST);
        let mut i: usize = 0;
        while i < self.dirs.len()
            invariant
                i <= self.dirs@.len(),
                is_steady(*f),
                (best as int, best_dot) == closest(answering(*f), self.dirs@, dir, i as int),
                i > 0 ==> best < i,
                i == 0 ==> best == 0,
            decreases self.dirs@.len() - i,
        {
            let d: Single = dot_of(f, &self.dirs[i], &dir);
            if best_dot.lt(d) {
                best_dot = d;
                best = i;
            }
            i = i + 1;
        }
        best
    }
}

/// The convolver of one path: its nearest response, with a crossfade where it
/// changes.
#[derive(Debug)]
pub struct PointConv {
    pub ring: Vec<Single>,
    pub pos: usize,
    pub cur: usize,
    pub prev: usize,
    /// From 1 down to 0: the share of the previous response.
    pub xfade: Single,
    pub xstep: Single,
}

/// What a convolver gives one ear: the current response, blended from the
/// previous one while the crossfade lasts.
pub open spec fn blended(f: Calc, cur: Single, prev: Single, xfade: Single) -> Single {
    if Single(0).below(xfade) {
        plus_prod(f, cur, xfade, diff(f, prev, cur))
    } else {
        cur
    }
}

/// What a convolver holds.
#[verifier::ext_equal]
pub ghost struct Conv {
    pub ring: Seq<Single>,
    pub pos: int,
    pub cur: int,
    pub prev: int,
    pub xfade: Single,
    pub xstep: Single,
}

impl View for PointConv {
    type V = Conv;

    open spec fn view(&self) -> Conv {
        Conv {
            ring: self.ring@,
            pos: self.pos as int,
            cur: self.cur as int,
            prev: self.prev as int,
            xfade: self.xfade,
            xstep: self.xstep,
        }
    }
}

impl Conv {
    /// It can be played.
    pub open spec fn wf(self) -> bool {
        0 <= self.pos < self.ring.len()
    }

    /// It can be played over the grid.
    pub open spec fn fits(self, grid: HrirGrid) -> bool {
        &&& self.wf()
        &&& self.ring.len() == grid.taps
        &&& 0 <= self.cur < grid.dirs@.len()
        &&& 0 <= self.prev < grid.dirs@.len()
    }

    /// Silent, with response 0.
    pub open spec fn fresh(f: Calc, taps: nat, sample_rate: Single) -> Conv {
        Conv {
            ring: silent(taps),
            pos: 0,
            cur: 0,
            prev: 0,
            xfade: Single(0),
            xstep: quot(f, Single(ONE), prod(f, Single(XFADE_S), sample_rate)),
        }
    }

    /// The past forgotten, with response `idx`.
    pub open spec fn restarted(self, idx: int) -> Conv {
        Conv { ring: silent(self.ring.len()), cur: idx, prev: idx, xfade: Single(0), ..self }
    }

    /// Turned to the response nearest to `dir`; a change starts a crossfade.
    pub open spec fn turned(self, f: Calc, grid: HrirGrid, dir: [Single; 3]) -> Conv {
        let idx = closest(f, grid.dirs@, dir, grid.dirs@.len() as int).0;
        if idx == self.cur {
            self
        } else {
            Conv { prev: self.cur, cur: idx, xfade: Single(ONE), ..self }
        }
    }

    /// Where the next sample goes.
    pub open spec fn next_pos(self) -> int {
        ring_next(self.pos, self.ring.len() as int)
    }

    /// The ring with one more sample.
    pub open spec fn fed(self, s: Single) -> Seq<Single> {
        self.ring.update(self.next_pos(), s)
    }

    /// What the left ear hears of this sample.
    pub open spec fn left(self, f: Calc, grid: HrirGrid, s: Single) -> Single {
        blended(
            f,
            ring_product(f, self.fed(s), self.next_pos(), grid.hrir_l@[self.cur]@),
            ring_product(f, self.fed(s), self.next_pos(), grid.hrir_l@[self.prev]@),
            self.xfade,
        )
    }

    /// What the right ear hears of this sample.
    pub open spec fn right(self, f: Calc, grid: HrirGrid, s: Single) -> Single {
        blended(
            f,
            ring_product(f, self.fed(s), self.next_pos(), grid.hrir_r@[self.cur]@),
            ring_product(f, self.fed(s), self.next_pos(), grid.hrir_r@[self.prev]@),
            self.xfade,
        )
    }

    /// One sample on.
    pub open spec fn next(self, f: Calc, s: Single) -> Conv {
        Conv {
            ring: self.fed(s),
            pos: self.next_pos(),
            xfade: if Single(0).below(self.xfade) {
                greater(diff(f, self.xfade, self.xstep), Single(0))
            } else {
                self.xfade
            },
            ..self
        }
    }
}

impl PointConv {
    pub fn new<F: Fn(Op) -> Single>(f: &F, taps: usize, sample_rate: Single) -> (r: Self)
        requires
            is_steady(*f),
        ensures
            r@ == Conv::fresh(answering(*f), taps as nat, sample_rate),
    {
        let len: Single = times(f, Single(XFADE_S), sample_rate);
        PointConv {
            ring: silence(taps),
            pos: 0,
            cur: 0,
            prev: 0,
            xfade: Single(0),
            xstep: over(f, Single(ONE), len),
        }
    }

    /// Forget the past and play response `idx`.
    pub fn reset(&mut self, idx: usize)
        ensures
            final(self)@ == old(self)@.restarted(idx as int),
    {
        self.ring = silence(self.ring.len());
        self.cur = idx;
        self.prev = idx;
        self.xfade = Single(0);
    }

    /// Turn to the response nearest to `dir`; a change starts a crossfade.
    pub fn set_dir<F: Fn(Op) -> Single>(&mut self, f: &F, grid: &HrirGrid, dir: [Single; 3])
        requires
            is_steady(*f),
        ensures
            final(self)@ == old(self)@.turned(answering(*f), *grid, dir),
            old(self)@.fits(*grid) ==> final(self)@.fits(*grid),
    {
        let idx: usize = grid.nearest(f, dir);
        if idx != self.cur {
            self.prev = self.cur;
            self.cur = idx;
            self.xfade = Single(ONE);
        }
    }

    pub fn process<F: Fn(Op) -> Single>(&mut self, f: &F, grid: &HrirGrid, s: Single) -> (r: (
        Single,
        Single,
    ))
        requires
            is_steady(*f),
            grid.wf(),
            old(self)@.fits(*grid),
        ensures
            final(self)@ == old(self)@.next(answering(*f), s),
            final(self)@.fits(*grid),
            r.0 == old(self)@.left(answering(*f), *grid, s),
            r.1 == old(self)@.right(answering(*f), *grid, s),
    {
        let n: usize = self.ring.len();
        self.pos = if self.pos == n - 1 {
            0
        } else {
            self.pos + 1
        };
        self.ring.set(self.pos, s);
        assert(self.ring@ == old(self)@.fed(s));
        assert(grid.hrir_l@[self.cur as int]@.len() == grid.taps);
        assert(grid.hrir_r@[self.cur as int]@.len() == grid.taps);
        assert(grid.hrir_l@[self.prev as int]@.len() == grid.taps);
        assert(grid.hrir_r@[self.prev as int]@.len() == grid.taps);
        let (cl, cr) = convolve_ring(
            f,
            &self.ring,
            self.pos,
            &grid.hrir_l[self.cur],
            &grid.hrir_r[self.cur],
        );
        if Single(0).lt(self.xfade) {
            let (pl, pr) = convolve_ring(
                f,
                &self.ring,
                self.pos,
                &grid.hrir_l[self.prev],
                &grid.hrir_r[self.prev],
            );
            let x: Single = self.xfade;
            self.xfade = greater_of(minus(f, self.xfade, self.xstep), Single(0));
            (add_times(f, cl, x, minus(f, pl, cl)), add_times(f, cr, x, minus(f, pr, cr)))
        } else {
            (cl, cr)
        }
    }
}

} // verus!
