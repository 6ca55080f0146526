//! First-order filters: the building block of shelves and damping.

use crate::arith::{add_times, ask, diff, minus, over, plus_prod, prod, quot, times, Calc, Op};
use crate::params::ONE;
use crate::probe::{answering, is_steady};
use crate::single::Single;
use vstd::prelude::*;

verus! {

/// The pattern of minus one full turn in radians.
pub const MINUS_TAU: u32 = 0xC0C9_0FDB;

#[derive(Clone, Copy, Debug, PartialEq, Eq, Structural)]
pub struct OnePoleLp {
    pub state: Single,
}

/// `1 - exp(-tau * cutoff / rate)`.
pub open spec fn lp_coef(f: Calc, cutoff_hz: Single, sample_rate: Single) -> Single {
    diff(
        f,
        Single(ONE),
        f(Op::Exp(quot(f, prod(f, Single(MINUS_TAU), cutoff_hz), sample_rate))),
    )
}

impl OnePoleLp {
    /// At rest.
    pub open spec fn still() -> OnePoleLp {
        OnePoleLp { state: Single(0) }
    }

    /// The state one sample on: a share of the way to the input.
    pub open spec fn next(self, f: Calc, x: Single, coef: Single) -> OnePoleLp {
        OnePoleLp { state: plus_prod(f, self.state, coef, diff(f, x, self.state)) }
    }

    pub fn coef<F: Fn(Op) -> Single>(f: &F, cutoff_hz: Single, sample_rate: Single) -> (r: Single)
        requires
            is_steady(*f),
        ensures
            r == lp_coef(answering(*f), cutoff_hz, sample_rate),
    {
        let x: Single = over(f, times(f, Single(MINUS_TAU), cutoff_hz), sample_rate);
        let e: Single = ask(f, Op::Exp(x));
        minus(f, Single(ONE), e)
    }

    pub fn tick<F: Fn(Op) -> Single>(&mut self, f: &F, x: Single, coef: Single) -> (r: Single)
        requires
            is_steady(*f),
        ensures
            *final(self) == old(self).next(answering(*f), x, coef),
            r == final(self).state,
    {
        self.state = add_times(f, self.state, coef, minus(f, x, self.state));
        self.state
    }
}

impl Default for OnePoleLp {
    fn default() -> (r: Self)
        ensures
            r == OnePoleLp::still(),
    {
        OnePoleLp { state: Single(0) }
    }
}

/// Tone shaping of one path: gains of the low and the high band relative to
/// the mids, by two first-order shelves.
#[derive(Clone, Copy, Debug, PartialEq, Eq, Structural)]
pub struct TapEq {
    pub lp_low: OnePoleLp,
    pub lp_high: OnePoleLp,
}

impl TapEq {
    /// At rest.
    pub open spec fn still() -> TapEq {
        TapEq { lp_low: OnePoleLp::still(), lp_high: OnePoleLp::still() }
    }

    /// The input with its low shelf.
    pub open spec fn lowered(self, f: Calc, x: Single, g_low: Single, c_low: Single) -> Single {
        plus_prod(f, x, diff(f, g_low, Single(ONE)), self.lp_low.next(f, x, c_low).state)
    }

    /// The shelves one sample on.
    pub open spec fn next(
        self,
        f: Calc,
        x: Single,
        g_low: Single,
        c_low: Single,
        c_high: Single,
    ) -> TapEq {
        TapEq {
            lp_low: self.lp_low.next(f, x, c_low),
            lp_high: self.lp_high.next(f, self.lowered(f, x, g_low, c_low), c_high),
        }
    }

    /// The shaped sample.
    pub open spec fn shaped(
        self,
        f: Calc,
        x: Single,
        g_low: Single,
        g_high: Single,
        c_low: Single,
        c_high: Single,
    ) -> Single {
        let y = self.lowered(f, x, g_low, c_low);
        plus_prod(
            f,
            y,
            diff(f, g_high, Single(ONE)),
            diff(f, y, self.next(f, x, g_low, c_low, c_high).lp_high.state),
        )
    }

    /// `g_low` and `g_high` are amplitude ratios to the mid band.
    pub fn tick<F: Fn(Op) -> Single>(
        &mut self,
        f: &F,
        x: Single,
        g_low: Single,
        g_high: Single,
        c_low: Single,
        c_high: Single,
    ) -> (r: Single)
        requires
            is_steady(*f),
        ensures
            *final(self) == old(self).next(answering(*f), x, g_low, c_low, c_high),
            r == old(self).shaped(answering(*f), x, g_low, g_high, c_low, c_high),
    {
        let low: Single = self.lp_low.tick(f, x, c_low);
        let y: Single = add_times(f, x, minus(f, g_low, Single(ONE)), low);
        let high: Single = minus(f, y, self.lp_high.tick(f, y, c_high));
        add_times(f, y, minus(f, g_high, Single(ONE)), high)
    }
}

impl Default for TapEq {
    fn default() -> (r: Self)
        ensures
            r == TapEq::still(),
    {
        TapEq { lp_low: OnePoleLp { state: Single(0) }, lp_high: OnePoleLp { state: Single(0) } }
    }
}

} // verus!
