//! Three-band splitter: two one-pole crossovers at the edges between the
//! bands. The three bands add up to the input.

use crate::arith::{add_times, diff, minus, plus, plus_prod, prod, sum, times, Calc, Op};
use crate::exact::{is_exact, lemma_one, value};
use crate::filter::{lp_coef, OnePoleLp};
use crate::params::ONE;
use crate::probe::{answering, is_steady};
use crate::single::Single;
use vstd::prelude::*;

verus! {

/// The pattern of 314.0: the edge between lows and mids, in Hz.
pub const XOVER_LO_HZ: u32 = 0x439D_0000;

/// The pattern of 2100.0: the edge between mids and highs, in Hz.
pub const XOVER_HI_HZ: u32 = 0x4503_4000;

#[derive(Clone, Copy, Debug, PartialEq, Eq, Structural)]
pub struct BandSplit {
    pub c_lo: Single,
    pub c_hi: Single,
    pub lp_lo: Single,
    pub lp_hi: Single,
}

impl BandSplit {
    /// At rest, at a sample rate.
    pub open spec fn still(f: Calc, sample_rate: Single) -> BandSplit {
        BandSplit {
            c_lo: lp_coef(f, Single(XOVER_LO_HZ), sample_rate),
            c_hi: lp_coef(f, Single(XOVER_HI_HZ), sample_rate),
            lp_lo: Single(0),
            lp_hi: Single(0),
        }
    }

    /// The crossovers one sample on.
    pub open spec fn next(self, f: Calc, x: Single) -> BandSplit {
        BandSplit {
            lp_lo: plus_prod(f, self.lp_lo, self.c_lo, diff(f, x, self.lp_lo)),
            lp_hi: plus_prod(f, self.lp_hi, self.c_hi, diff(f, x, self.lp_hi)),
            ..self
        }
    }

    /// The bands of `x` after the crossovers moved on: lows, mids, highs.
    pub open spec fn bands(self, f: Calc, x: Single) -> (Single, Single, Single) {
        (self.lp_lo, diff(f, self.lp_hi, self.lp_lo), diff(f, x, self.lp_hi))
    }

    /// The bands, each with its gain, added up.
    pub open spec fn shaped(self, f: Calc, x: Single, gains: [Single; 3]) -> Single {
        let b = self.next(f, x).bands(f, x);
        sum(f, plus_prod(f, prod(f, gains@[0], b.0), gains@[1], b.1), prod(f, gains@[2], b.2))
    }

    pub fn new<F: Fn(Op) -> Single>(f: &F, sample_rate: Single) -> (r: Self)
        requires
            is_steady(*f),
        ensures
            r == BandSplit::still(answering(*f), sample_rate),
    {
        BandSplit {
            c_lo: OnePoleLp::coef(f, Single(XOVER_LO_HZ), sample_rate),
            c_hi: OnePoleLp::coef(f, Single(XOVER_HI_HZ), sample_rate),
            lp_lo: Single(0),
            lp_hi: Single(0),
        }
    }

    /// One sample through the bands' gains.
    pub fn process<F: Fn(Op) -> Single>(&mut self, f: &F, x: Single, gains: &[Single; 3]) -> (r:
        Single)
        requires
            is_steady(*f),
        ensures
            *final(self) == old(self).next(answering(*f), x),
            r == old(self).shaped(answering(*f), x, *gains),
    {
        self.lp_lo = add_times(f, self.lp_lo, self.c_lo, minus(f, x, self.lp_lo));
        self.lp_hi = add_times(f, self.lp_hi, self.c_hi, minus(f, x, self.lp_hi));
        let low: Single = times(f, gains[0], self.lp_lo);
        let mid: Single = add_times(f, low, gains[1], minus(f, self.lp_hi, self.lp_lo));
        plus(f, mid, times(f, gains[2], minus(f, x, self.lp_hi)))
    }
}

/// Every operation that splits a sample, weighs its bands and adds them up is
/// exact.
pub open spec fn exact_shaping(f: Calc, s: BandSplit, x: Single, gains: [Single; 3]) -> bool {
    let n = s.next(f, x);
    let b = n.bands(f, x);
    let low = prod(f, gains@[0], b.0);
    let mid = prod(f, gains@[1], b.1);
    &&& is_exact(f, Op::Minus(n.lp_hi, n.lp_lo))
    &&& is_exact(f, Op::Minus(x, n.lp_hi))
    &&& is_exact(f, Op::Times(gains@[0], b.0))
    &&& is_exact(f, Op::Times(gains@[1], b.1))
    &&& is_exact(f, Op::Times(gains@[2], b.2))
    &&& is_exact(f, Op::Plus(low, mid))
    &&& is_exact(f, Op::Plus(sum(f, low, mid), prod(f, gains@[2], b.2)))
}

/// In exact arithmetic, gains of one give the input back.
pub proof fn unity_gains_are_transparent(f: Calc, s: BandSplit, x: Single, gains: [Single; 3])
    requires
        exact_shaping(f, s, x, gains),
        gains@ == seq![Single(ONE), Single(ONE), Single(ONE)],
    ensures
        value(s.shaped(f, x, gains)) == value(x),
{
    lemma_one();
    let b = s.next(f, x).bands(f, x);
    assert(1real * value(b.0) == value(b.0) && 1real * value(b.1) == value(b.1) && 1real * value(b.2)
        == value(b.2));
}

} // verus!
