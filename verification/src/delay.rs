//! A circular buffer with linearly interpolated fractional reads. A delay that
//! varies in time is what shifts the pitch of a moving source.

use crate::arith::{add_times, clamp_to, clamped, diff, minus, plus_prod, Calc, Op};
use crate::params::ONE;
use crate::probe::{answering, is_steady};
use crate::single::{
    exact_integers_round_trip, grid, rounded, small_integers_are_exact, truncation_keeps_order, whole,
    Single,
};
use vstd::arithmetic::power2::*;
use vstd::prelude::*;

verus! {

/// The longest line whose every place has a number of its own.
pub const MAX_LINE: usize = 0x100_0000;

#[derive(Debug)]
pub struct DelayLine {
    pub buf: Vec<Single>,
    pub write: usize,
}

/// `len` is the smallest power of two that is no less than `min_len`.
pub open spec fn is_capacity(len: nat, min_len: nat) -> bool {
    &&& min_len <= len
    &&& exists|k: nat| len == #[trigger] pow2(k) && (k == 0 || pow2((k - 1) as nat) < min_len)
}

/// The sample between two of a line, `frac` of the way from the newer one.
pub open spec fn between(f: Calc, a: Single, b: Single, frac: Single) -> Single {
    plus_prod(f, a, frac, diff(f, b, a))
}

/// A delay kept inside a line of `len` samples.
pub open spec fn kept(delay: Single, len: nat) -> Single {
    clamped(delay, Single(ONE), rounded((len - 2) as nat))
}

/// What a line whose past is `h`, newest first, gives back `delay` samples
/// behind the last one.
pub open spec fn read_of(f: Calc, h: Seq<Single>, delay: Single) -> Single {
    let d = kept(delay, h.len());
    let i = d.truncated(usize::MAX as nat);
    between(f, h[i as int], h[i as int + 1], diff(f, d, rounded(i)))
}

impl View for DelayLine {
    type V = Seq<Single>;

    /// The past, newest first.
    open spec fn view(&self) -> Seq<Single> {
        Seq::new(
            self.buf@.len(),
            |i: int|
                if i <= self.write {
                    self.buf@[self.write - i]
                } else {
                    self.buf@[self.write + self.buf@.len() - i]
                },
        )
    }
}

/// A past with one more sample in front; the oldest is forgotten.
pub open spec fn pushed(h: Seq<Single>, x: Single) -> Seq<Single> {
    seq![x] + h.drop_last()
}

proof fn lemma_kept(delay: Single, len: nat)
    requires
        4 <= len <= MAX_LINE,
    ensures
        kept(delay, len).truncated(usize::MAX as nat) <= len - 2,
{
    let n = (len - 2) as nat;
    small_integers_are_exact(n);
    let e = choose|e: Single|
        e.is_finite() && !e.is_negative() && #[trigger] e.num() == whole(n as int);
    assert(e.is_nearest(whole(n as int)));
    let top = rounded(n);
    exact_integers_round_trip(n, top, usize::MAX as nat);
    let d = kept(delay, len);
    if d.is_nan() {
    } else if delay.below(Single(ONE)) {
        lemma_one();
    } else if top.below(delay) {
    } else {
        truncation_keeps_order(d, top, usize::MAX as nat);
    }
}

/// The pattern of one stands for one.
proof fn lemma_one()
    ensures
        Single(ONE).truncated(usize::MAX as nat) == 1,
{
    lemma2_to64();
    lemma_pow2_adds(23, 126);
    lemma_pow2_pos(149);
    assert(0x3F80_0000nat % 0x80_0000nat == 0 && 0x3F80_0000nat / 0x80_0000nat == 127);
    assert(grid(0x3F80_0000) == 0x80_0000nat * pow2(126));
    vstd::arithmetic::div_mod::lemma_div_by_self(pow2(149) as int);
}

impl DelayLine {
    pub open spec fn wf(self) -> bool {
        &&& 0 < self.buf@.len()
        &&& self.write < self.buf@.len()
    }

    /// A silent line of at least `min_len` samples.
    pub fn new(min_len: usize) -> (r: Self)
        requires
            min_len <= MAX_LINE,
        ensures
            r.wf(),
            is_capacity(r@.len(), min_len as nat),
            r@.len() <= MAX_LINE,
            forall|i: int| 0 <= i < r@.len() ==> #[trigger] r@[i] == Single(0),
    {
        let mut len: usize = 1;
        let ghost mut k: nat = 0;
        proof {
            lemma2_to64();
        }
        while len < min_len
            invariant
                min_len <= MAX_LINE,
                len == pow2(k),
                1 <= len <= MAX_LINE,
                k <= 24,
                pow2(24) == MAX_LINE,
                k == 0 || pow2((k - 1) as nat) < min_len,
            decreases MAX_LINE - len,
        {
            proof {
                if k >= 24 {
                    assert(len == MAX_LINE);
                }
                lemma_pow2_unfold(k + 1);
                if k + 1 < 24 {
                    lemma_pow2_strictly_increases(k + 1, 24);
                }
                k = k + 1;
            }
            len = len * 2;
        }
        let mut buf: Vec<Single> = Vec::new();
        let mut i: usize = 0;
        while i < len
            invariant
                i <= len,
                buf@.len() == i,
                forall|j: int| 0 <= j < i ==> #[trigger] buf@[j] == Single(0),
            decreases len - i,
        {
            buf.push(Single(0));
            i = i + 1;
        }
        DelayLine { buf, write: 0 }
    }

    pub fn write(&mut self, x: Single)
        requires
            old(self).wf(),
        ensures
            final(self).wf(),
            final(self)@ == pushed(old(self)@, x),
    {
        let ghost before = *self;
        let next: usize = if self.write == self.buf.len() - 1 {
            0
        } else {
            self.write + 1
        };
        self.write = next;
        self.buf.set(next, x);
        proof {
            let h = pushed(before@, x);
            assert forall|i: int| 0 <= i < h.len() implies #[trigger] self@[i] == h[i] by {
                if i > 0 {
                    assert(h[i] == before@[i - 1]);
                }
            }
            assert(self@ =~= h);
        }
    }

    /// Read `delay` samples behind the last write, between two samples where
    /// it is fractional.
    pub fn read<F: Fn(Op) -> Single>(&self, f: &F, delay: Single) -> (r: Single)
        requires
            self.wf(),
            4 <= self@.len() <= MAX_LINE,
            is_steady(*f),
        ensures
            r == read_of(answering(*f), self@, delay),
    {
        let len: usize = self.buf.len();
        let d: Single = clamp_to(delay, Single(ONE), Single::from_usize(len - 2));
        proof {
            lemma_kept(delay, len as nat);
        }
        let i: usize = d.to_usize();
        let frac: Single = minus(f, d, Single::from_usize(i));
        let a: Single = if i <= self.write {
            self.buf[self.write - i]
        } else {
            self.buf[self.write + (len - i)]
        };
        let b: Single = if i + 1 <= self.write {
            self.buf[self.write - (i + 1)]
        } else {
            self.buf[self.write + (len - (i + 1))]
        };
        assert(a == self@[i as int]);
        assert(b == self@[i + 1]);
        add_times(f, a, frac, minus(f, b, a))
    }
}

/// A past after all of `xs`, the last of them newest.
pub open spec fn pushed_all(h: Seq<Single>, xs: Seq<Single>) -> Seq<Single>
    decreases xs.len(),
{
    if xs.len() == 0 {
        h
    } else {
        pushed(pushed_all(h, xs.drop_last()), xs.last())
    }
}

/// A line gives back what was written: the sample `i` behind the last write is
/// the `i`-th last one written.
pub proof fn a_line_remembers(h: Seq<Single>, xs: Seq<Single>, i: int)
    requires
        0 <= i < xs.len(),
        i < h.len(),
    ensures
        pushed_all(h, xs).len() == h.len(),
        pushed_all(h, xs)[i] == xs[xs.len() - 1 - i],
    decreases xs.len(),
{
    lemma_pushed_len(h, xs.drop_last());
    if i > 0 {
        a_line_remembers(h, xs.drop_last(), i - 1);
    }
}

proof fn lemma_pushed_len(h: Seq<Single>, xs: Seq<Single>)
    requires
        h.len() > 0,
    ensures
        pushed_all(h, xs).len() == h.len(),
    decreases xs.len(),
{
    if xs.len() > 0 {
        lemma_pushed_len(h, xs.drop_last());
    }
}

} // verus!
