//! One-pole parameter smoothers: every value the simulation supplies goes
//! through one of these before it touches audio.

use crate::arith::{add_times, ask, diff, minus, over, plus_prod, prod, quot, times, Calc, Op};
use crate::exact::{is_exact, value};
use crate::probe::{answering, is_steady};
use crate::single::Single;
use vstd::prelude::*;

verus! {

/// The pattern of -1.0.
pub const MINUS_ONE: u32 = 0xBF80_0000;

/// `exp(-1 / (tau * rate))`: what is left of a distance after one sample.
pub open spec fn left_after(f: Calc, tau_s: Single, sample_rate: Single) -> Single {
    f(Op::Exp(quot(f, Single(MINUS_ONE), prod(f, tau_s, sample_rate))))
}

#[derive(Clone, Copy, Debug, PartialEq, Eq, Structural)]
pub struct Smoothed {
    pub cur: Single,
    pub target: Single,
    /// Share of the distance to the target that is left after one sample.
    pub coef: Single,
}

impl Smoothed {
    pub open spec fn at(initial: Single, coef: Single) -> Smoothed {
        Smoothed { cur: initial, target: initial, coef }
    }

    /// Heading for `target`, from wherever it is now.
    pub open spec fn towards(self, target: Single) -> Smoothed {
        Smoothed { target, ..self }
    }

    /// Resting at `v`.
    pub open spec fn resting(self, v: Single) -> Smoothed {
        Smoothed { cur: v, target: v, ..self }
    }

    /// One sample on.
    pub open spec fn ticked(self, f: Calc) -> Smoothed {
        Smoothed { cur: plus_prod(f, self.target, diff(f, self.cur, self.target), self.coef), ..self }
    }

    pub fn new<F: Fn(Op) -> Single>(
        f: &F,
        initial: Single,
        tau_s: Single,
        sample_rate: Single,
    ) -> (r: Self)
        requires
            is_steady(*f),
        ensures
            r == Smoothed::at(initial, left_after(answering(*f), tau_s, sample_rate)),
    {
        let samples: Single = times(f, tau_s, sample_rate);
        let coef: Single = ask(f, Op::Exp(over(f, Single(MINUS_ONE), samples)));
        Self { cur: initial, target: initial, coef }
    }

    /// At rest at `initial`, with a coefficient.
    pub fn with_coef(initial: Single, coef: Single) -> (r: Self)
        ensures
            r == Smoothed::at(initial, coef),
    {
        Self { cur: initial, target: initial, coef }
    }

    pub fn set(&mut self, target: Single)
        ensures
            *final(self) == old(self).towards(target),
    {
        self.target = target;
    }

    /// Jump immediately (init / reset only, not during playback).
    pub fn snap(&mut self, v: Single)
        ensures
            *final(self) == old(self).resting(v),
    {
        self.cur = v;
        self.target = v;
    }

    pub fn current(&self) -> (r: Single)
        ensures
            r == self.cur,
    {
        self.cur
    }

    pub fn target_val(&self) -> (r: Single)
        ensures
            r == self.target,
    {
        self.target
    }

    /// Move one sample on.
    pub fn tick<F: Fn(Op) -> Single>(&mut self, f: &F) -> (r: Single)
        requires
            is_steady(*f),
        ensures
            *final(self) == old(self).ticked(answering(*f)),
            r == final(self).cur,
    {
        self.cur = add_times(f, self.target, minus(f, self.cur, self.target), self.coef);
        self.cur
    }
}

/// Every operation of one tick is exact.
pub open spec fn exact_tick(f: Calc, s: Smoothed) -> bool {
    let d = diff(f, s.cur, s.target);
    &&& is_exact(f, Op::Minus(s.cur, s.target))
    &&& is_exact(f, Op::Times(d, s.coef))
    &&& is_exact(f, Op::Plus(s.target, prod(f, d, s.coef)))
}

/// In exact arithmetic a smoother keeps the share `coef` of its way to the
/// target: it neither jumps nor overshoots, and at rest it stays.
pub proof fn a_smoother_never_overshoots(f: Calc, s: Smoothed)
    requires
        exact_tick(f, s),
        0real <= value(s.coef) <= 1real,
    ensures
        value(s.ticked(f).cur) - value(s.target) == (value(s.cur) - value(s.target)) * value(s.coef),
        value(s.cur) <= value(s.target) ==> value(s.cur) <= value(s.ticked(f).cur) <= value(s.target),
        value(s.cur) >= value(s.target) ==> value(s.cur) >= value(s.ticked(f).cur) >= value(s.target),
{
    let (d, k) = (value(s.cur) - value(s.target), value(s.coef));
    assert(d <= 0real ==> d <= d * k <= 0real) by (nonlinear_arith)
        requires
            0real <= k <= 1real,
    ;
    assert(d >= 0real ==> 0real <= d * k <= d) by (nonlinear_arith)
        requires
            0real <= k <= 1real,
    ;
}

} // verus!
