//! How fast things move: a smoother closes in on its target, and a lowpass on its
//! input, as an exponential of the time that passed; and the lowpass of a wall is
//! fitted to the bands it passes.

use crate::ambi::encoded;
use crate::arith::{diff, prod, quot, Calc, Op};
use crate::chains::to_the;
use crate::exact::{
    is_exact_as, lemma_bits, lemma_is, lemma_minus_one, lemma_negated, lemma_one, square, value, Reading,
};
use crate::filter::{lp_coef, OnePoleLp, MINUS_TAU};
use crate::params::{Tap, ONE};
use crate::pool::{is_transmitted, targets, NO_GAIN};
use crate::renderer::{fitted, measured, FIT_HI, FIT_HZ, FIT_LO, RATIO_MAX};
use crate::single::Single;
use crate::smooth::{left_after, Smoothed, MINUS_ONE};
use vstd::arithmetic::power2::lemma2_to64;
use vstd::prelude::*;

verus! {

/// `e` is an exponential.
pub open spec fn is_exponential(e: spec_fn(real) -> real) -> bool {
    &&& e(0real) == 1real
    &&& forall|a: real, b: real| #[trigger] e(a + b) == e(a) * e(b)
}

/// The power of an exponential.
pub(crate) proof fn lemma_exponential(e: spec_fn(real) -> real, x: real, n: nat)
    requires
        is_exponential(e),
    ensures
        to_the(e(x), n) == e(n as int as real * x),
    decreases n,
{
    if n == 0 {
        assert(0real * x == 0real);
    } else {
        lemma_exponential(e, x, (n - 1) as nat);
        let k = (n - 1) as int as real;
        assert((k + 1real) * x == k * x + x) by (nonlinear_arith);
        assert(n as int as real == k + 1real);
        assert(e(k * x + x) == e(k * x) * e(x));
    }
}

/// A smoother `n` samples on.
pub open spec fn ticked_on(f: Calc, s: Smoothed, n: nat) -> Smoothed
    decreases n,
{
    if n == 0 {
        s
    } else {
        ticked_on(f, s, (n - 1) as nat).ticked(f)
    }
}

/// One tick is exact, as read.
pub open spec fn exact_tick_as(val: Reading, f: Calc, s: Smoothed) -> bool {
    let d = diff(f, s.cur, s.target);
    &&& is_exact_as(val, f, Op::Minus(s.cur, s.target))
    &&& is_exact_as(val, f, Op::Times(d, s.coef))
    &&& is_exact_as(val, f, Op::Plus(s.target, prod(f, d, s.coef)))
}

proof fn lemma_ticked_on(val: Reading, f: Calc, s: Smoothed, n: nat)
    requires
        forall|i: nat| i < n ==> exact_tick_as(val, f, #[trigger] ticked_on(f, s, i)),
    ensures
        ticked_on(f, s, n).target == s.target,
        ticked_on(f, s, n).coef == s.coef,
        val(ticked_on(f, s, n).cur) - val(s.target) == (val(s.cur) - val(s.target)) * to_the(
            val(s.coef),
            n,
        ),
    decreases n,
{
    let d = val(s.cur) - val(s.target);
    if n == 0 {
        assert(d * 1real == d);
    } else {
        lemma_ticked_on(val, f, s, (n - 1) as nat);
        let p = ticked_on(f, s, (n - 1) as nat);
        assert(exact_tick_as(val, f, p));
        let (k, q) = (val(s.coef), to_the(val(s.coef), (n - 1) as nat));
        assert((d * q) * k == d * (q * k)) by (nonlinear_arith);
    }
}

/// The share that one sample leaves is worked out exactly, as read, and the host's
/// exponential is one.
pub open spec fn exact_left(
    val: Reading,
    f: Calc,
    e: spec_fn(real) -> real,
    tau_s: Single,
    rate: Single,
) -> bool {
    let samples = prod(f, tau_s, rate);
    let x = quot(f, Single(MINUS_ONE), samples);
    &&& val(Single(MINUS_ONE)) == value(Single(MINUS_ONE))
    &&& is_exact_as(val, f, Op::Times(tau_s, rate))
    &&& is_exact_as(val, f, Op::Over(Single(MINUS_ONE), samples))
    &&& val(f(Op::Exp(x))) == e(val(x))
}

/// In exact arithmetic, and with an exponential that is one, a smoother of time
/// constant `tau` is, `s` seconds on, still `e(-s / tau)` of the way it was from its
/// target.
pub proof fn a_smoother_closes_in_by_its_time_constant(
    val: Reading,
    f: Calc,
    e: spec_fn(real) -> real,
    tau_s: Single,
    rate: Single,
    start: Smoothed,
    n: nat,
    s: real,
)
    requires
        is_exponential(e),
        exact_left(val, f, e, tau_s, rate),
        start.coef == left_after(f, tau_s, rate),
        val(tau_s) != 0real,
        val(rate) != 0real,
        s * val(rate) == n as int as real,
        forall|i: nat| i < n ==> exact_tick_as(val, f, #[trigger] ticked_on(f, start, i)),
    ensures
        val(ticked_on(f, start, n).cur) - val(start.target) == (val(start.cur) - val(start.target))
            * e(-(s / val(tau_s))),
{
    lemma_ticked_on(val, f, start, n);
    assert(Single(MINUS_ONE) == Single(crate::scene::MINUS_ONE));
    lemma_minus_one();
    let samples = prod(f, tau_s, rate);
    let x = val(quot(f, Single(MINUS_ONE), samples));
    lemma_exponential(e, x, n);
    let (k, t, r) = (n as int as real, val(tau_s), val(rate));
    assert(x * (t * r) == -1real);
    assert(k * x == -(s / t)) by (nonlinear_arith)
        requires
            x * (t * r) == -1real,
            s * r == k,
            t != 0real,
            r != 0real,
    {
        let q = s / t;
        assert(q * t == s) by (nonlinear_arith)
            requires
                q == s / t,
                t != 0real,
        ;
        assert((k * x) * t == -s) by (nonlinear_arith)
            requires
                x * (t * r) == -1real,
                s * r == k,
        {
            assert(((s * r) * x) * t == s * (x * (t * r))) by (nonlinear_arith);
        }
        assert((-q) * t == -(q * t)) by (nonlinear_arith);
        assert(k * x == -q) by (nonlinear_arith)
            requires
                (k * x) * t == (-q) * t,
                t != 0real,
        ;
    }
}

/// A lowpass after `n` samples of the same input.
pub open spec fn fed(f: Calc, lp: OnePoleLp, x: Single, coef: Single, n: nat) -> OnePoleLp
    decreases n,
{
    if n == 0 {
        lp
    } else {
        fed(f, lp, x, coef, (n - 1) as nat).next(f, x, coef)
    }
}

/// One step of a lowpass is exact, as read.
pub open spec fn exact_next_as(val: Reading, f: Calc, lp: OnePoleLp, x: Single, coef: Single) -> bool {
    let d = diff(f, x, lp.state);
    &&& is_exact_as(val, f, Op::Minus(x, lp.state))
    &&& is_exact_as(val, f, Op::Times(coef, d))
    &&& is_exact_as(val, f, Op::Plus(lp.state, prod(f, coef, d)))
}

proof fn lemma_fed(val: Reading, f: Calc, lp: OnePoleLp, x: Single, coef: Single, n: nat)
    requires
        forall|i: nat| i < n ==> exact_next_as(val, f, #[trigger] fed(f, lp, x, coef, i), x, coef),
    ensures
        val(x) - val(fed(f, lp, x, coef, n).state) == (val(x) - val(lp.state)) * to_the(
            1real - val(coef),
            n,
        ),
    decreases n,
{
    let d = val(x) - val(lp.state);
    if n == 0 {
        assert(d * 1real == d);
    } else {
        lemma_fed(val, f, lp, x, coef, (n - 1) as nat);
        let p = fed(f, lp, x, coef, (n - 1) as nat);
        assert(exact_next_as(val, f, p, x, coef));
        let c = val(coef);
        let q = to_the(1real - c, (n - 1) as nat);
        let g = val(x) - val(p.state);
        assert(g - c * g == g * (1real - c)) by (nonlinear_arith);
        let k = 1real - c;
        assert((d * q) * k == d * (q * k)) by (nonlinear_arith);
    }
}

/// The coefficient of a lowpass is worked out exactly, as read, and the host's
/// exponential is one.
pub open spec fn exact_coef(
    val: Reading,
    f: Calc,
    e: spec_fn(real) -> real,
    cutoff_hz: Single,
    rate: Single,
) -> bool {
    let top = prod(f, Single(MINUS_TAU), cutoff_hz);
    let x = quot(f, top, rate);
    &&& val(Single(ONE)) == value(Single(ONE))
    &&& val(Single(MINUS_TAU)) == value(Single(MINUS_TAU))
    &&& is_exact_as(val, f, Op::Times(Single(MINUS_TAU), cutoff_hz))
    &&& is_exact_as(val, f, Op::Over(top, rate))
    &&& val(f(Op::Exp(x))) == e(val(x))
    &&& is_exact_as(val, f, Op::Minus(Single(ONE), f(Op::Exp(x))))
}

/// A full turn in radians, as near as a pattern can say it.
pub open spec fn turn() -> real {
    13176795real / 2097152real
}

/// In exact arithmetic, and with an exponential that is one, a lowpass with a cutoff
/// of `cutoff_hz` is, after `s` seconds of the same input, still
/// `e(-2 pi cutoff s)` of the way it was from it.
pub proof fn a_lowpass_closes_in_by_its_cutoff(
    val: Reading,
    f: Calc,
    e: spec_fn(real) -> real,
    cutoff_hz: Single,
    rate: Single,
    lp: OnePoleLp,
    x: Single,
    n: nat,
    s: real,
)
    requires
        is_exponential(e),
        exact_coef(val, f, e, cutoff_hz, rate),
        s * val(rate) == n as int as real,
        forall|i: nat|
            i < n ==> exact_next_as(
                val,
                f,
                #[trigger] fed(f, lp, x, lp_coef(f, cutoff_hz, rate), i),
                x,
                lp_coef(f, cutoff_hz, rate),
            ),
    ensures
        val(x) - val(fed(f, lp, x, lp_coef(f, cutoff_hz, rate), n).state) == (val(x) - val(lp.state))
            * e(-((turn() * val(cutoff_hz)) * s)),
{
    lemma_one();
    lemma2_to64();
    lemma_bits(0x40C9_0FDB, 129, 0x49_0FDB);
    lemma_negated(Single(0x40C9_0FDB));
    assert(Single(0x40C9_0FDB).negated() == Single(MINUS_TAU));
    let tt = value(Single(0x40C9_0FDB));
    assert(tt * 2097152real == 13176795real);
    assert(tt == 13176795real / 2097152real) by (nonlinear_arith)
        requires
            tt * 2097152real == 13176795real,
    ;
    let coef = lp_coef(f, cutoff_hz, rate);
    lemma_fed(val, f, lp, x, coef, n);
    let top = prod(f, Single(MINUS_TAU), cutoff_hz);
    let y = val(quot(f, top, rate));
    lemma_exponential(e, y, n);
    assert(1real - val(coef) == e(y));
    let (k, c, r) = (n as int as real, val(cutoff_hz), val(rate));
    let tc = tt * c;
    assert((-tt) * c == -(tt * c)) by (nonlinear_arith);
    assert(y * r == -tc);
    assert(k * y == -(tc * s)) by (nonlinear_arith)
        requires
            y * r == -tc,
            s * r == k,
    {
        assert((s * r) * y == s * (y * r)) by (nonlinear_arith);
        assert(s * (-tc) == -(tc * s)) by (nonlinear_arith);
    }
}

/// The lowpass of a wall is fitted at 800 Hz: in exact arithmetic what a first-order
/// lowpass with the fitted cutoff passes there is, in power, to what it is fed as the
/// mids are to the lows. So it is between the lowest cutoff and the highest.
pub proof fn a_wall_is_fitted_at_its_mids(val: Reading, f: Calc, ratio: Single)
    requires
        val(Single(ONE)) == value(Single(ONE)),
        val(Single(FIT_HZ)) == value(Single(FIT_HZ)),
        ({
            let sq = prod(f, ratio, ratio);
            let rest = diff(f, sq, Single(ONE));
            let fc = quot(f, Single(FIT_HZ), f(Op::Root(rest)));
            &&& is_exact_as(val, f, Op::Times(ratio, ratio))
            &&& is_exact_as(val, f, Op::Minus(sq, Single(ONE)))
            &&& is_exact_as(val, f, Op::Root(rest))
            &&& is_exact_as(val, f, Op::Over(Single(FIT_HZ), f(Op::Root(rest))))
            &&& !fc.below(Single(FIT_LO)) && !Single(FIT_HI).below(fc)
        }),
    ensures
        ({
            let fc = val(fitted(f, ratio));
            square(val(ratio)) * square(fc) == square(fc) + square(800real)
        }),
{
    lemma_one();
    lemma2_to64();
    lemma_is(0x4448_0000, 136, 0x48_0000, 800real);
    let rest = diff(f, prod(f, ratio, ratio), Single(ONE));
    let (q, c, r) = (val(f(Op::Root(rest))), val(fitted(f, ratio)), val(ratio));
    assert(fitted(f, ratio) == quot(f, Single(FIT_HZ), f(Op::Root(rest))));
    assert(c * q == 800real);
    let (cc, rr) = (c * c, r * r);
    assert(q * q == rr - 1real);
    assert(cc * (q * q) == (c * q) * (c * q)) by (nonlinear_arith)
        requires
            cc == c * c,
    ;
    assert(cc * (rr - 1real) == rr * cc - cc) by (nonlinear_arith);
}

/// What a tap is played with, in exact arithmetic: the gain that is heard in the mids
/// is the tap's mid gain, and the shelves make of it the tap's low and high gain,
/// unless one is more than four times the mids. Behind a wall the anchor is the low
/// gain, and the lowpass is fitted to what the mids are of it.
pub proof fn a_tap_sounds_in_its_bands(val: Reading, f: Calc, t: Tap, rate: Single)
    requires
        Single(NO_GAIN).below(t.gains@[1]),
        is_exact_as(val, f, Op::Over(t.gains@[0], t.gains@[1])),
        is_exact_as(val, f, Op::Over(t.gains@[2], t.gains@[1])),
        !quot(f, t.gains@[0], t.gains@[1]).below(Single(0)),
        !Single(RATIO_MAX).below(quot(f, t.gains@[0], t.gains@[1])),
        !quot(f, t.gains@[2], t.gains@[1]).below(Single(0)),
        !Single(RATIO_MAX).below(quot(f, t.gains@[2], t.gains@[1])),
        forall|k: int|
            0 <= k < 9 ==> {
                &&& is_exact_as(val, f, Op::Times(t.gains@[0], #[trigger] encoded(f, t.dir)@[k]))
                &&& is_exact_as(val, f, Op::Times(t.gains@[1], encoded(f, t.dir)@[k]))
            },
    ensures
        ({
            let m = measured(f, t, rate);
            let r = targets(t, m);
            let enc = encoded(f, t.dir);
            let low = val(t.gains@[0]);
            let mid = val(t.gains@[1]);
            &&& forall|k: int|
                0 <= k < 9 ==> val(#[trigger] r.g_sh@[k]) == (if is_transmitted(t, m) {
                    low
                } else {
                    mid
                }) * val(enc@[k])
            &&& !is_transmitted(t, m) ==> val(r.g_low) * mid == low
            &&& !is_transmitted(t, m) ==> val(r.g_high) * mid == val(t.gains@[2])
            &&& !is_transmitted(t, m) ==> r.lp_coef == Single(ONE)
            &&& is_transmitted(t, m) ==> r.g_low == Single(ONE) && r.g_high == Single(ONE)
            &&& is_transmitted(t, m) ==> exists|ratio: Single|
                r.lp_coef == #[trigger] lp_coef(f, fitted(f, ratio), rate) && val(ratio) * mid == low
        }),
{
    let m = measured(f, t, rate);
    let r = targets(t, m);
    let enc = encoded(f, t.dir);
    let raw = quot(f, t.gains@[0], t.gains@[1]);
    assert forall|k: int| 0 <= k < 9 implies val(#[trigger] r.g_sh@[k]) == (if is_transmitted(t, m) {
        val(t.gains@[0])
    } else {
        val(t.gains@[1])
    }) * val(enc@[k]) by {
        assert(is_exact_as(val, f, Op::Times(t.gains@[0], enc@[k])));
        assert(m.low_sh@[k] == prod(f, t.gains@[0], enc@[k]));
        assert(m.mid_sh@[k] == prod(f, t.gains@[1], enc@[k]));
    }
    assert(m.lp_coef == lp_coef(f, fitted(f, raw), rate));
}

} // verus!
