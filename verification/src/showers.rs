//! What rain is for: a struck surface rings at its pitch and dies away by its time
//! constant, openings and panes are hit by how much they let in, and the shell takes
//! from the drops outside what it adds to the noise within.

use crate::ambi::exact_plus_prod;
use crate::arith::{diff, plus_prod, prod, quot, sum, Calc, Op};
use crate::drops::{
    detuned, noise, resonator, rung, Mode, Raindrop, Resonator, BANK_SLOT, P_0_06, P_0_97, P_2_0,
    TAU,
};
use crate::env::RouteSlot;
use crate::exact::{is_exact, is_exact_as, lemma_one, lemma_whole, value, Reading};
use crate::params::ONE;
use crate::rain::{
    drop_rate, fused, hissing, inlet_in, pinged, route_at, Rain, P_0_28, P_0_3, P_0_72, P_0_8,
    P_0_85, P_1400_0, P_1_6, P_260_0, P_2_5, P_6_0, P_MINUS_1_0,
};
use crate::rays::lemma_bin_cut;
use crate::rng::toss;
use crate::single::{rounded, signed_rounded, Single};
use crate::smooth::left_after;
use vstd::prelude::*;

verus! {

/// `c` is a cosine, by its addition rule.
pub open spec fn is_cosine(c: spec_fn(real) -> real) -> bool {
    forall|a: real, b: real| #[trigger] c(a + b) + c(a - b) == 2real * (c(a) * c(b))
}

/// The resonator of a mode is worked out exactly, as read, and the host's cosine is one.
pub open spec fn exact_resonator(
    val: Reading,
    f: Calc,
    c: spec_fn(real) -> real,
    m: Mode,
    u: Single,
    rate: Single,
) -> bool {
    let r = left_after(f, m.tau, rate);
    let pitch = detuned(f, m.freq, u);
    let top = prod(f, Single(TAU), pitch);
    let th = quot(f, top, rate);
    let two_r = prod(f, Single(P_2_0), r);
    &&& val(Single(P_2_0)) == 2real
    &&& val(r.negated()) == -val(r)
    &&& is_exact_as(val, f, Op::Times(Single(TAU), pitch))
    &&& is_exact_as(val, f, Op::Over(top, rate))
    &&& val(f(Op::Cos(th))) == c(val(th))
    &&& is_exact_as(val, f, Op::Times(Single(P_2_0), r))
    &&& is_exact_as(val, f, Op::Times(two_r, f(Op::Cos(th))))
    &&& is_exact_as(val, f, Op::Times(r.negated(), r))
}

/// One sample of a resonator is worked out exactly, as read.
pub open spec fn exact_rung(val: Reading, f: Calc, r: Resonator, gain: Single, x: Single) -> bool {
    let (a, b) = (prod(f, r@[0], r@[2]), prod(f, r@[1], r@[3]));
    &&& is_exact_as(val, f, Op::Times(r@[0], r@[2]))
    &&& is_exact_as(val, f, Op::Times(r@[1], r@[3]))
    &&& is_exact_as(val, f, Op::Times(gain, x))
    &&& is_exact_as(val, f, Op::Plus(a, b))
    &&& is_exact_as(val, f, Op::Plus(sum(f, a, b), prod(f, gain, x)))
}

/// In exact arithmetic, and with a cosine that is one, a resonator that nothing drives
/// rings at its mode's pitch and dies away by its time constant: where its last two
/// samples lie on such a swing, the next does.
pub proof fn a_mode_rings_at_its_pitch(
    val: Reading,
    f: Calc,
    c: spec_fn(real) -> real,
    m: Mode,
    u: Single,
    rate: Single,
    now: Resonator,
    gain: Single,
    x: Single,
    amp: real,
    phase: real,
    step: real,
)
    requires
        is_cosine(c),
        exact_resonator(val, f, c, m, u, rate),
        step * val(rate) == val(Single(TAU)) * val(detuned(f, m.freq, u)),
        now@[0] == resonator(f, m, u, rate)@[0],
        now@[1] == resonator(f, m, u, rate)@[1],
        exact_rung(val, f, now, gain, x),
        val(gain) * val(x) == 0real,
        val(now@[2]) == amp * c(phase),
        val(now@[3]) * val(left_after(f, m.tau, rate)) == amp * c(phase - step),
    ensures
        val(rung(f, now, gain, x)) == (amp * val(left_after(f, m.tau, rate))) * c(phase + step),
{
    let r = val(left_after(f, m.tau, rate));
    let th = quot(f, prod(f, Single(TAU), detuned(f, m.freq, u)), rate);
    let (t, rt) = (val(th), val(rate));
    assert(t == step) by (nonlinear_arith)
        requires
            t * rt == step * rt,
            rt != 0real,
    ;
    let k = c(step);
    let (y1, y2) = (val(now@[2]), val(now@[3]));
    let (p, q, n) = (c(phase), c(phase - step), c(phase + step));
    assert(n + q == 2real * (p * k));
    assert(val(now@[0]) == (2real * r) * k);
    assert(val(now@[1]) == (-r) * r);
    assert(val(rung(f, now, gain, x)) == ((2real * r) * k) * y1 + ((-r) * r) * y2);
    assert(((-r) * r) * y2 == -(r * (y2 * r))) by (nonlinear_arith);
    assert(((2real * r) * k) * (amp * p) == (amp * r) * (2real * (p * k))) by (nonlinear_arith);
    let ar = amp * r;
    assert(r * (amp * q) == ar * q) by (nonlinear_arith)
        requires
            ar == amp * r,
    ;
    assert(ar * (n + q) == ar * n + ar * q) by (nonlinear_arith);
}

/// In exact arithmetic a mode is detuned by three per cent at most, either way, and by
/// none where the dice show the middle.
pub proof fn a_mode_is_detuned_a_little(val: Reading, f: Calc, freq: Single, u: Single)
    requires
        exact_plus_prod(val, f, Single(P_0_97), Single(P_0_06), u),
        is_exact_as(val, f, Op::Times(freq, plus_prod(f, Single(P_0_97), Single(P_0_06), u))),
    ensures
        val(detuned(f, freq, u)) == val(freq) * (val(Single(P_0_97)) + val(Single(P_0_06)) * val(u)),
{
}

/// In exact arithmetic noise is spread evenly around nothing: the dice from nothing to
/// one give it from minus one to one.
pub proof fn noise_is_even(val: Reading, f: Calc, s: u64)
    requires
        val(Single(P_2_0)) == 2real,
        val(Single(ONE)) == 1real,
        is_exact_as(val, f, Op::Times(toss(s), Single(P_2_0))),
        is_exact_as(val, f, Op::Minus(prod(f, toss(s), Single(P_2_0)), Single(ONE))),
    ensures
        val(noise(f, s)) == 2real * val(toss(s)) - 1real,
        0real <= val(toss(s)) <= 1real ==> -1real <= val(noise(f, s)) <= 1real,
{
}

/// In exact arithmetic a ping's phase moves on, in a second, by as many turns as its
/// pitch says; and it dies away by its time constant.
pub proof fn a_ping_sounds_at_its_pitch(
    val: Reading,
    f: Calc,
    d: Raindrop,
    pitch: Single,
    span: Single,
    env: Single,
    tap: Single,
    tau: Single,
    rate: Single,
)
    requires
        ({
            let sq = prod(f, pitch, pitch);
            let freq = plus_prod(f, Single(P_1400_0), sq, span);
            let top = prod(f, Single(TAU), freq);
            &&& is_exact_as(val, f, Op::Times(pitch, pitch))
            &&& exact_plus_prod(val, f, Single(P_1400_0), sq, span)
            &&& is_exact_as(val, f, Op::Times(Single(TAU), freq))
            &&& is_exact_as(val, f, Op::Over(top, rate))
        }),
    ensures
        ({
            let p = pinged(f, d, pitch, span, env, tap, tau, rate);
            &&& val(p.step) * val(rate) == val(Single(TAU)) * (val(Single(P_1400_0)) + (val(
                pitch,
            ) * val(pitch)) * val(span))
            &&& p.decay == left_after(f, tau, rate)
            &&& p.env == env
        }),
{
}

/// In exact arithmetic a recorded hit is read between its samples, at the place that it
/// has come to, as loud as the drop.
pub proof fn a_hit_is_read_between_its_samples(
    f: Calc,
    d: Raindrop,
    bank: Seq<Single>,
    off: int,
    s: u64,
    tick: Single,
    k: nat,
)
    requires
        k + 1 < BANK_SLOT,
        k <= 0x100_0000,
        d.bank_pos.is_finite(),
        value(d.bank_pos) >= 0real,
        d.bank_pos.truncated(usize::MAX as nat) == k,
        ({
            let (a, b) = (bank[off + k], bank[off + k + 1]);
            let t = diff(f, d.bank_pos, rounded(k));
            let step = diff(f, b, a);
            let x = plus_prod(f, a, t, step);
            &&& is_exact(f, Op::Minus(d.bank_pos, rounded(k)))
            &&& is_exact(f, Op::Minus(b, a))
            &&& is_exact(f, Op::Times(t, step))
            &&& is_exact(f, Op::Plus(a, prod(f, t, step)))
            &&& is_exact(f, Op::Times(x, d.env))
            &&& is_exact(f, Op::Plus(prod(f, x, d.env), tick))
        }),
    ensures
        ({
            let t = value(d.bank_pos) - k as int as real;
            let y = d.bank_sound(f, bank, off, s, tick).y;
            &&& 0real <= t < 1real
            &&& y is Some
            &&& value(y->0) == ((1real - t) * value(bank[off + k]) + t * value(bank[off + k + 1])) * value(
                d.env,
            ) + value(tick)
        }),
{
    lemma_whole(k as int);
    assert(signed_rounded(k as int) == rounded(k));
    lemma_bin_cut(d.bank_pos, k, usize::MAX as nat);
    let t = value(d.bank_pos) - k as int as real;
    let (a, b) = (value(bank[off + k]), value(bank[off + k + 1]));
    assert(a + t * (b - a) == (1real - t) * a + t * b) by (nonlinear_arith);
}

/// The sum of what the first `n` openings let in.
pub open spec fn let_in(val: Reading, slots: Seq<RouteSlot>, n: int) -> real
    decreases n,
{
    if n <= 0 {
        0real
    } else {
        let_in(val, slots, n - 1) + val(slots[n - 1].gains@[1].cur)
    }
}

/// The running sum over the first `n` openings.
pub open spec fn running(f: Calc, slots: Seq<RouteSlot>, n: int) -> Single
    decreases n,
{
    if n <= 0 {
        Single(0)
    } else {
        sum(f, running(f, slots, n - 1), slots[n - 1].gains@[1].cur)
    }
}

/// In exact arithmetic a drop comes through the opening in whose part of the whole the
/// dice fall: behind all that come before it, and no further than its own.
pub proof fn an_opening_is_hit_by_what_it_lets_in(
    f: Calc,
    slots: Seq<RouteSlot>,
    pick: Single,
    i: int,
    acc: Single,
)
    requires
        0 <= i <= 8,
        pick.is_finite(),
        acc.is_finite(),
        acc == running(f, slots, i),
        value(acc) == let_in(|s: Single| value(s), slots, i),
        value(acc) < value(pick) || i == 0,
        forall|k: int|
            i <= k < 8 ==> is_exact(
                f,
                Op::Plus(#[trigger] running(f, slots, k), slots[k].gains@[1].cur),
            ),
    ensures
        ({
            let val = |s: Single| value(s);
            let r = route_at(f, slots, pick, i, acc);
            &&& i <= r <= 8
            &&& r < 8 ==> value(pick) <= let_in(val, slots, r + 1)
            &&& r < 8 && r > 0 ==> let_in(val, slots, r) < value(pick)
            &&& r == 8 ==> i == 8 || let_in(val, slots, 8) < value(pick)
        }),
    decreases 8 - i,
{
    let val = |s: Single| value(s);
    if i < 8 {
        let g = slots[i].gains@[1].cur;
        let now = sum(f, acc, g);
        assert(is_exact(f, Op::Plus(running(f, slots, i), g)));
        assert(now == running(f, slots, i + 1));
        assert(let_in(val, slots, i + 1) == let_in(val, slots, i) + value(g));
        crate::exact::lemma_order(pick, now);
        if !pick.at_most(now) {
            an_opening_is_hit_by_what_it_lets_in(f, slots, pick, i + 1, now);
        }
    }
}

/// In exact arithmetic more drops fall under a roof than in the open, at the same
/// intensity, by eight tenths of how closed it is.
pub proof fn a_roof_gathers_drops(val: Reading, f: Calc, inten: Single, enclosure: Single, open: Single)
    requires
        val(Single(ONE)) == 1real,
        val(open) == 0real,
        ({
            let p = f(Op::Power(inten, Single(P_2_5)));
            let big = prod(f, Single(P_260_0), p);
            let fall = plus_prod(f, big, Single(P_6_0), inten);
            &&& exact_plus_prod(val, f, Single(ONE), Single(P_0_8), enclosure)
            &&& exact_plus_prod(val, f, Single(ONE), Single(P_0_8), open)
            &&& is_exact_as(val, f, Op::Times(fall, plus_prod(f, Single(ONE), Single(P_0_8), enclosure)))
            &&& is_exact_as(val, f, Op::Times(fall, plus_prod(f, Single(ONE), Single(P_0_8), open)))
            &&& is_exact_as(val, f, Op::Times(Single(P_260_0), p))
            &&& exact_plus_prod(val, f, big, Single(P_6_0), inten)
        }),
    ensures
        val(drop_rate(f, inten, open)) == val(Single(P_260_0)) * val(f(Op::Power(inten, Single(P_2_5))))
            + val(Single(P_6_0)) * val(inten),
        val(drop_rate(f, inten, enclosure)) == val(drop_rate(f, inten, open)) * (1real + val(
            Single(P_0_8),
        ) * val(enclosure)),
{
    let k = val(Single(P_0_8));
    assert(k * 0real == 0real);
    let big = prod(f, Single(P_260_0), f(Op::Power(inten, Single(P_2_5))));
    let x = val(plus_prod(f, big, Single(P_6_0), inten));
    assert(x * 1real == x);
}

/// In exact arithmetic, and whatever the host's power does between, a drizzle has not
/// fused at all and the strongest rain has fused whole.
pub proof fn a_drizzle_is_drops_and_a_downpour_is_noise(val: Reading, f: Calc, inten: Single)
    requires
        val(Single(0)) == 0real,
        val(Single(ONE)) == 1real,
        val(f(Op::Power(Single(0), Single(P_1_6)))) == 0real,
        val(f(Op::Power(Single(ONE), Single(P_1_6)))) == 1real,
        !quot(f, diff(f, inten, Single(P_0_28)), Single(P_0_72)).is_nan(),
    ensures
        quot(f, diff(f, inten, Single(P_0_28)), Single(P_0_72)).below(Single(0)) ==> val(fused(f, inten))
            == 0real,
        Single(ONE).below(quot(f, diff(f, inten, Single(P_0_28)), Single(P_0_72))) ==> val(
            fused(f, inten),
        ) == 1real,
{
    lemma_one();
    crate::exact::lemma_one_num();
    vstd::arithmetic::power2::lemma_pow2_pos(149);
    assert(Single(0).num() == 0);
}

/// In exact arithmetic the shell takes from the drops in the air 85 per cent of how
/// closed it is.
pub proof fn the_shell_keeps_drops_out(val: Reading, f: Calc, rain: Rain)
    requires
        val(Single(ONE)) == 1real,
        is_exact_as(val, f, Op::Times(Single(P_0_85), rain.enclosure.cur)),
        is_exact_as(
            val,
            f,
            Op::Minus(Single(ONE), prod(f, Single(P_0_85), rain.enclosure.cur)),
        ),
    ensures
        val(rain.direct(f)) + val(Single(P_0_85)) * val(rain.enclosure.cur) == 1real,
{
}

/// In exact arithmetic neighbouring openings pass the noise with opposite signs, so
/// that two alike do not add up to one.
pub proof fn neighbouring_openings_are_opposed(val: Reading, f: Calc, raw: Single, i: int)
    requires
        val(Single(ONE)) == 1real,
        val(Single(P_MINUS_1_0)) == -1real,
        is_exact_as(val, f, Op::Times(raw, Single(ONE))),
        is_exact_as(val, f, Op::Times(raw, Single(P_MINUS_1_0))),
    ensures
        val(inlet_in(f, raw, i)) + val(inlet_in(f, raw, i + 1)) == 0real,
        i % 2 == 0 ==> val(inlet_in(f, raw, i)) == val(raw),
{
    let x = val(raw);
    assert(x * 1real == x);
    assert(x * (-1real) == -x);
}

/// In exact arithmetic the noise within is as strong, in a band, as the opening's gain,
/// the noise's level and how closed the place is, all together: nothing in the open.
pub proof fn noise_comes_in_by_the_opening(
    val: Reading,
    f: Calc,
    g: [Single; 3],
    base: Single,
    enclosure: Single,
    b: int,
)
    requires
        0 <= b < 3,
        is_exact_as(val, f, Op::Times(g@[b], base)),
        is_exact_as(val, f, Op::Times(prod(f, g@[b], base), Single(P_0_3))),
        is_exact_as(
            val,
            f,
            Op::Times(prod(f, prod(f, g@[b], base), Single(P_0_3)), enclosure),
        ),
    ensures
        val(hissing(f, g, base, enclosure)@[b]) == (val(g@[b]) * val(base)) * (val(Single(P_0_3)) * val(
            enclosure,
        )),
        val(enclosure) == 0real ==> val(hissing(f, g, base, enclosure)@[b]) == 0real,
{
    let (x, k, e) = (val(g@[b]) * val(base), val(Single(P_0_3)), val(enclosure));
    assert((x * k) * e == x * (k * e)) by (nonlinear_arith);
    if e == 0real {
        assert(k * 0real == 0real);
        assert(x * 0real == 0real);
    }
}

} // verus!
