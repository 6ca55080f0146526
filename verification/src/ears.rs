//! What the ears at the output are for: loud sound is brought down to one level, at the
//! pace of an ear; hours of it dull the highs; a blast rings on; and what leaves is the
//! adapted sample, dulled as far as the ears are tired.

use crate::arith::{diff, plus_prod, power, prod, quot, sum, Calc, Op};
use crate::exact::{is_exact_as, lemma_is, lemma_one, value, Reading};
use crate::filter::lp_coef;
use crate::output::{
    gone, Ears, AGC_MAX_BOOST, AGC_MAX_CUT, AGC_TARGET, ATTACK_S, DOWN_S, ENV_FLOOR, FADE_S,
    GAIN_FLOOR, RELEASE_S, REST_S, RING_FEED, TIN_THRESH, TIRE_S, TTS_FC_HI, TTS_FC_LO, TTS_LOUD,
    UP_FAST_S, UP_SLOW_S,
};
use crate::params::ONE;
use crate::single::Single;
use crate::smooth::left_after;
use vstd::arithmetic::power2::lemma2_to64;
use vstd::prelude::*;

verus! {

/// A step of the share `coef` towards `goal` is worked out exactly, as read.
pub open spec fn exact_step(val: Reading, f: Calc, at: Single, coef: Single, goal: Single) -> bool {
    let way = diff(f, goal, at);
    &&& is_exact_as(val, f, Op::Minus(goal, at))
    &&& is_exact_as(val, f, Op::Times(coef, way))
    &&& is_exact_as(val, f, Op::Plus(at, prod(f, coef, way)))
}

/// A share that is gone in one sample is worked out exactly, as read.
pub open spec fn exact_gone(val: Reading, f: Calc, tau_s: Single, rate: Single) -> bool {
    &&& val(Single(ONE)) == value(Single(ONE))
    &&& is_exact_as(val, f, Op::Minus(Single(ONE), left_after(f, tau_s, rate)))
}

proof fn lemma_step(val: Reading, f: Calc, at: Single, tau_s: Single, rate: Single, goal: Single)
    requires
        exact_gone(val, f, tau_s, rate),
        exact_step(val, f, at, gone(f, tau_s, rate), goal),
    ensures
        val(goal) - val(plus_prod(f, at, gone(f, tau_s, rate), diff(f, goal, at))) == (val(goal) - val(
            at,
        )) * val(left_after(f, tau_s, rate)),
{
    lemma_one();
    let k = val(left_after(f, tau_s, rate));
    let d = val(goal) - val(at);
    assert(d - (1real - k) * d == d * k) by (nonlinear_arith);
}

/// In exact arithmetic the envelope of fresh ears follows the demand as a smoother
/// does: fast where it rises, slowly where it falls.
pub proof fn the_envelope_follows_the_demand(
    val: Reading,
    f: Calc,
    rate: Single,
    ears: Ears,
    m: Single,
)
    requires
        ears.env_att == Ears::fresh(f, rate).env_att,
        ears.env_rel == Ears::fresh(f, rate).env_rel,
        exact_gone(val, f, Single(ATTACK_S), rate),
        exact_gone(val, f, Single(RELEASE_S), rate),
        exact_step(
            val,
            f,
            ears.env,
            if ears.env.below(m) {
                ears.env_att
            } else {
                ears.env_rel
            },
            m,
        ),
    ensures
        val(m) - val(ears.env_after(f, m)) == (val(m) - val(ears.env)) * val(
            left_after(
                f,
                if ears.env.below(m) {
                    Single(ATTACK_S)
                } else {
                    Single(RELEASE_S)
                },
                rate,
            ),
        ),
{
    if ears.env.below(m) {
        lemma_step(val, f, ears.env, Single(ATTACK_S), rate, m);
    } else {
        lemma_step(val, f, ears.env, Single(RELEASE_S), rate, m);
    }
}

/// In exact arithmetic the gain that the ears head for brings the envelope to its
/// target, unless that is more than they cut or boost.
pub proof fn the_gain_brings_the_envelope_to_its_target(val: Reading, f: Calc, env: Single)
    requires
        !env.below(Single(ENV_FLOOR)) && !env.is_nan(),
        is_exact_as(val, f, Op::Over(Single(AGC_TARGET), env)),
        !quot(f, Single(AGC_TARGET), env).below(Single(AGC_MAX_CUT)),
        !Single(AGC_MAX_BOOST).below(quot(f, Single(AGC_TARGET), env)),
    ensures
        val(Ears::desired(f, env)) * val(env) == val(Single(AGC_TARGET)),
{
}

/// In exact arithmetic the gain of fresh ears closes in on what it heads for as a
/// smoother does: fast where it falls; where it rises, by the fast share from silence
/// and the slow one when it is there, and between by the square of the share `r` of the
/// way that it has come.
pub proof fn the_gain_falls_fast_and_rises_slowly(
    val: Reading,
    f: Calc,
    rate: Single,
    ears: Ears,
    m: Single,
    r: real,
)
    requires
        r * val(Ears::desired(f, ears.env_after(f, m))) == val(ears.agc_gain),
        ears.gain_down == Ears::fresh(f, rate).gain_down,
        ears.gain_up_fast == Ears::fresh(f, rate).gain_up_fast,
        ears.gain_up_slow == Ears::fresh(f, rate).gain_up_slow,
        exact_gone(val, f, Single(DOWN_S), rate),
        exact_gone(val, f, Single(UP_FAST_S), rate),
        exact_gone(val, f, Single(UP_SLOW_S), rate),
        ({
            let d = Ears::desired(f, ears.env_after(f, m));
            let q = quot(f, ears.agc_gain, d);
            let span = diff(f, ears.gain_up_slow, ears.gain_up_fast);
            let part = prod(f, prod(f, span, q), q);
            &&& exact_step(val, f, ears.agc_gain, ears.gain_coef(f, d), d)
            &&& !d.below(ears.agc_gain) ==> {
                &&& !d.below(Single(GAIN_FLOOR)) && !d.is_nan()
                &&& !q.below(Single(0)) && !Single(ONE).below(q)
                &&& is_exact_as(val, f, Op::Over(ears.agc_gain, d))
                &&& is_exact_as(val, f, Op::Minus(ears.gain_up_slow, ears.gain_up_fast))
                &&& is_exact_as(val, f, Op::Times(span, q))
                &&& is_exact_as(val, f, Op::Times(prod(f, span, q), q))
                &&& is_exact_as(val, f, Op::Plus(ears.gain_up_fast, part))
            }
        }),
    ensures
        ({
            let d = Ears::desired(f, ears.env_after(f, m));
            let left = val(d) - val(ears.gain_after(f, m));
            let way = val(d) - val(ears.agc_gain);
            let fast = val(left_after(f, Single(UP_FAST_S), rate));
            let slow = val(left_after(f, Single(UP_SLOW_S), rate));
            &&& d.below(ears.agc_gain) ==> left == way * val(left_after(f, Single(DOWN_S), rate))
            &&& !d.below(ears.agc_gain) ==> left == way * ((1real - r * r) * fast + (r * r) * slow)
        }),
{
    lemma_one();
    let d = Ears::desired(f, ears.env_after(f, m));
    if d.below(ears.agc_gain) {
        lemma_step(val, f, ears.agc_gain, Single(DOWN_S), rate, d);
    } else {
        let q = quot(f, ears.agc_gain, d);
        let dv = val(d);
        let qv = val(q);
        assert(qv == r) by (nonlinear_arith)
            requires
                qv * dv == r * dv,
                dv != 0real,
        ;
        let fast = val(left_after(f, Single(UP_FAST_S), rate));
        let slow = val(left_after(f, Single(UP_SLOW_S), rate));
        let k = val(ears.gain_coef(f, d));
        let way = val(d) - val(ears.agc_gain);
        let left = val(d) - val(ears.gain_after(f, m));
        let s = (1real - slow) - (1real - fast);
        assert(k == (1real - fast) + (s * r) * r);
        let rr = r * r;
        assert((s * r) * r == s * rr) by (nonlinear_arith)
            requires
                rr == r * r,
        ;
        assert(s == fast - slow);
        assert(1real - k == (1real - rr) * fast + rr * slow) by (nonlinear_arith)
            requires
                k == (1real - fast) + s * rr,
                s == fast - slow,
        ;
        assert(left == way - k * way);
        let c = 1real - k;
        assert(way - k * way == way * c) by (nonlinear_arith)
            requires
                c == 1real - k,
        ;
        assert(left == way * ((1real - r * r) * fast + (r * r) * slow));
    }
}

/// In exact arithmetic the ears tire by how far the envelope lies above what they can
/// take, as a share of that: fast where it is more than they feel, slowly where less.
pub proof fn ears_tire_of_what_is_too_loud(
    val: Reading,
    f: Calc,
    rate: Single,
    ears: Ears,
    m: Single,
)
    requires
        val(Single(ONE)) == value(Single(ONE)),
        ears.tts_up == Ears::fresh(f, rate).tts_up,
        ears.tts_down == Ears::fresh(f, rate).tts_down,
        exact_gone(val, f, Single(TIRE_S), rate),
        exact_gone(val, f, Single(REST_S), rate),
        ({
            let env = ears.env_after(f, m);
            let q = quot(f, env, Single(TTS_LOUD));
            let x = diff(f, q, Single(ONE));
            &&& is_exact_as(val, f, Op::Over(env, Single(TTS_LOUD)))
            &&& is_exact_as(val, f, Op::Minus(q, Single(ONE)))
            &&& !x.below(Single(0)) && !Single(ONE).below(x)
            &&& exact_step(
                val,
                f,
                ears.tts,
                if ears.tts.below(x) {
                    ears.tts_up
                } else {
                    ears.tts_down
                },
                x,
            )
        }),
    ensures
        ({
            let env = ears.env_after(f, m);
            let x = Ears::excess(f, env);
            &&& (val(x) + 1real) * val(Single(TTS_LOUD)) == val(env)
            &&& val(x) - val(ears.fatigue_after(f, m)) == (val(x) - val(ears.tts)) * val(
                left_after(
                    f,
                    if ears.tts.below(x) {
                        Single(TIRE_S)
                    } else {
                        Single(REST_S)
                    },
                    rate,
                ),
            )
        }),
{
    lemma_one();
    let x = Ears::excess(f, ears.env_after(f, m));
    if ears.tts.below(x) {
        lemma_step(val, f, ears.tts, Single(TIRE_S), rate, x);
    } else {
        lemma_step(val, f, ears.tts, Single(REST_S), rate, x);
    }
}

/// In exact arithmetic, and with a power that is one, the muffle of rested ears is open
/// to 18 kHz, that of spent ears to 1.4 kHz, and between the two it closes by the same
/// factor for the same fatigue more.
pub proof fn the_muffle_closes_with_fatigue(
    val: Reading,
    f: Calc,
    p: spec_fn(real) -> real,
    tts: Single,
    rate: Single,
) -> (fc: Single)
    requires
        val(Single(TTS_FC_HI)) == value(Single(TTS_FC_HI)),
        val(Single(TTS_FC_LO)) == value(Single(TTS_FC_LO)),
        forall|a: real, b: real| #[trigger] p(a + b) == p(a) * p(b),
        ({
            let base = quot(f, Single(TTS_FC_LO), Single(TTS_FC_HI));
            &&& is_exact_as(val, f, Op::Over(Single(TTS_FC_LO), Single(TTS_FC_HI)))
            &&& p(1real) == val(base)
            &&& val(f(Op::Power(base, tts))) == p(val(tts))
            &&& is_exact_as(val, f, Op::Times(Single(TTS_FC_HI), power(f, base, tts)))
        }),
    ensures
        Ears::muffle(f, tts, rate) == lp_coef(f, fc, rate),
        val(tts) == 0real ==> val(fc) == 18000real,
        val(tts) == 1real ==> val(fc) == 1400real,
        forall|more: real| val(fc) * #[trigger] p(more) == 18000real * p(val(tts) + more),
{
    lemma2_to64();
    lemma_is(TTS_FC_HI, 141, 0x0C_A000, 18000real);
    lemma_is(TTS_FC_LO, 137, 0x2F_0000, 1400real);
    let base = quot(f, Single(TTS_FC_LO), Single(TTS_FC_HI));
    let fc = prod(f, Single(TTS_FC_HI), power(f, base, tts));
    let (k, x) = (p(1real), p(val(tts)));
    assert(k * 18000real == 1400real);
    assert(p(0real + 1real) == p(0real) * p(1real));
    let z = p(0real);
    assert(z == 1real) by (nonlinear_arith)
        requires
            k * 18000real == 1400real,
            k == z * k,
    {
        assert(k != 0real);
        assert((1real - z) * k == 0real) by (nonlinear_arith)
            requires
                k == z * k,
        ;
        assert(1real - z == 0real) by (nonlinear_arith)
            requires
                (1real - z) * k == 0real,
                k != 0real,
        ;
    }
    assert(val(fc) == 18000real * x);
    assert forall|more: real| val(fc) * #[trigger] p(more) == 18000real * p(val(tts) + more) by {
        let y = p(more);
        assert(p(val(tts) + more) == x * y);
        assert((18000real * x) * y == 18000real * (x * y)) by (nonlinear_arith);
    }
    fc
}

/// In exact arithmetic what goes into the limiter is the adapted sample: the sample
/// times the gain, as far as the ears are fresh, its dulled copy, as far as they are
/// tired, and the ring.
pub proof fn tired_ears_hear_a_duller_copy(
    val: Reading,
    f: Calc,
    x: Single,
    now: Ears,
    lp: Single,
    ring: Single,
) -> (u: Single)
    requires
        ({
            let g = prod(f, x, now.agc_gain);
            let way = diff(f, lp, g);
            let dulled = plus_prod(f, g, now.tts, way);
            &&& is_exact_as(val, f, Op::Times(x, now.agc_gain))
            &&& is_exact_as(val, f, Op::Minus(lp, g))
            &&& is_exact_as(val, f, Op::Times(now.tts, way))
            &&& is_exact_as(val, f, Op::Plus(g, prod(f, now.tts, way)))
            &&& is_exact_as(val, f, Op::Plus(dulled, ring))
        }),
    ensures
        Ears::out(f, x, now, lp, ring) == f(Op::Tanh(u)),
        val(u) == ((1real - val(now.tts)) * (val(x) * val(now.agc_gain)) + val(now.tts) * val(lp)) + val(
            ring,
        ),
{
    let g = prod(f, x, now.agc_gain);
    let way = diff(f, lp, g);
    let (a, t, b) = (val(g), val(now.tts), val(lp));
    assert(a + t * (b - a) == (1real - t) * a + t * b) by (nonlinear_arith);
    sum(f, plus_prod(f, g, now.tts, way), ring)
}

/// In exact arithmetic a blast feeds the ring by how far it lies above the threshold,
/// and the ring fades by its time constant; below the threshold it only fades.
pub proof fn a_blast_rings_and_fades(val: Reading, f: Calc, rate: Single, ears: Ears, m: Single)
    requires
        ears.tin_decay == Ears::fresh(f, rate).tin_decay,
        val(Single(0)) == value(Single(0)),
        ({
            let over = diff(f, m, Single(TIN_THRESH));
            let blast = if over.is_nan() || over.below(Single(0)) {
                Single(0)
            } else {
                over
            };
            let fed = plus_prod(f, ears.tin, blast, Single(RING_FEED));
            &&& is_exact_as(val, f, Op::Minus(m, Single(TIN_THRESH)))
            &&& !over.is_nan()
            &&& is_exact_as(val, f, Op::Times(blast, Single(RING_FEED)))
            &&& is_exact_as(val, f, Op::Plus(ears.tin, prod(f, blast, Single(RING_FEED))))
            &&& !Single(ONE).below(fed) && !fed.is_nan()
            &&& is_exact_as(val, f, Op::Times(fed, ears.tin_decay))
        }),
    ensures
        ({
            let left = val(left_after(f, Single(FADE_S), rate));
            let over = val(m) - val(Single(TIN_THRESH));
            let quiet = diff(f, m, Single(TIN_THRESH)).below(Single(0));
            &&& quiet ==> val(ears.ringing_after(f, m)) == val(ears.tin) * left
            &&& !quiet ==> val(ears.ringing_after(f, m)) == (val(ears.tin) + over * val(
                Single(RING_FEED),
            )) * left
        }),
{
    lemma_one();
    assert(0real * val(Single(RING_FEED)) == 0real);
}

} // verus!
