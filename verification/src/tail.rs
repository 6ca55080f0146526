//! What the late field is for: its tail falls by 60 dB in the decay time it was
//! set to, its highs by their own, and the feedback between its lines neither adds
//! nor takes energy.

use crate::arith::{diff, prod, quot, Calc, Op};
use crate::chains::to_the;
use crate::exact::{is_exact_as, lemma_is, lemma_negated, lemma_one, square, value, Reading};
use crate::fdn::{
    butterfly_1, butterfly_2, butterfly_4, damp_cutoff, hadamard, line_gain, round_gain, Fdn, Lines,
    DAMP_HZ, DULL_HZ, EIGHT, EVEN, FEED, LEAST, MINUS_THREE, MOST, OPEN_HZ, TEN,
};
use crate::params::ONE;
use crate::single::Single;
use vstd::arithmetic::power2::lemma2_to64;
use vstd::prelude::*;

verus! {

/// `p` raises ten to a power.
pub open spec fn is_power_of_ten(p: spec_fn(real) -> real) -> bool {
    &&& p(1real) == 10real
    &&& forall|a: real, b: real| #[trigger] p(a + b) == p(a) * p(b)
}

/// The power of a power.
proof fn lemma_power(p: spec_fn(real) -> real, x: real, n: nat)
    requires
        is_power_of_ten(p),
    ensures
        to_the(p(x), n) == p(n as int as real * x),
    decreases n,
{
    if n == 0 {
        assert(p(0real + 1real) == p(0real) * p(1real));
        let z = p(0real);
        assert(z == 1real) by (nonlinear_arith)
            requires
                z * 10real == 10real,
        ;
        assert(0real * x == 0real);
    } else {
        lemma_power(p, x, (n - 1) as nat);
        let k = (n - 1) as int as real;
        assert((k + 1real) * x == k * x + x) by (nonlinear_arith);
        assert(n as int as real == k + 1real);
        assert(p(k * x + x) == p(k * x) * p(x));
    }
}

/// A thousandth.
proof fn lemma_thousandth(p: spec_fn(real) -> real)
    requires
        is_power_of_ten(p),
    ensures
        p(-3real) * 1000real == 1real,
{
    assert(p(1real + 1real) == p(1real) * p(1real));
    assert(p(2real + 1real) == p(2real) * p(1real));
    assert(p(3real) == 1000real);
    assert(p(0real + 1real) == p(0real) * p(1real));
    assert(p(-3real + 3real) == p(-3real) * p(3real));
}

/// What minus three stands for.
proof fn lemma_minus_three()
    ensures
        value(Single(MINUS_THREE)) == -3real,
{
    lemma2_to64();
    lemma_is(0x4040_0000, 128, 0x40_0000, 3real);
    lemma_negated(Single(0x4040_0000));
    assert(Single(0x4040_0000).negated() == Single(MINUS_THREE));
}

/// What the gain of one round is worked out from.
pub open spec fn exact_round(
    val: Reading,
    f: Calc,
    p: spec_fn(real) -> real,
    len_s: Single,
    rt60: Single,
) -> bool {
    let top = prod(f, Single(MINUS_THREE), len_s);
    let e = quot(f, top, rt60);
    &&& val(Single(MINUS_THREE)) == value(Single(MINUS_THREE))
    &&& is_exact_as(val, f, Op::Times(Single(MINUS_THREE), len_s))
    &&& is_exact_as(val, f, Op::Over(top, rt60))
    &&& val(f(Op::Power(Single(TEN), e))) == p(val(e))
}

proof fn lemma_round(
    val: Reading,
    f: Calc,
    p: spec_fn(real) -> real,
    len_s: Single,
    rt60: Single,
    n: nat,
)
    requires
        is_power_of_ten(p),
        Single(LEAST).at_most(rt60),
        exact_round(val, f, p, len_s, rt60),
    ensures
        to_the(val(round_gain(f, len_s, rt60)), n) == p(
            -3real * ((n as int as real * val(len_s)) / val(rt60)),
        ),
{
    lemma_minus_three();
    let top = prod(f, Single(MINUS_THREE), len_s);
    let e = quot(f, top, rt60);
    assert(round_gain(f, len_s, rt60) == f(Op::Power(Single(TEN), e)));
    lemma_power(p, val(e), n);
    let (k, x, l, t) = (n as int as real, val(e), val(len_s), val(rt60));
    assert(x * t == -3real * l);
    assert(k * x == -3real * ((k * l) / t)) by (nonlinear_arith)
        requires
            x * t == -3real * l,
            t != 0real,
    {
        let q = (k * l) / t;
        assert(q * t == k * l) by (nonlinear_arith)
            requires
                q == (k * l) / t,
                t != 0real,
        ;
        assert((k * x) * t == k * (x * t)) by (nonlinear_arith);
        assert(k * (-3real * l) == -3real * (k * l)) by (nonlinear_arith);
        assert((-3real * q) * t == -3real * (q * t)) by (nonlinear_arith);
        assert(k * x == -3real * q) by (nonlinear_arith)
            requires
                (k * x) * t == (-3real * q) * t,
                t != 0real,
        ;
    }
}

/// A line is heard again after each round of its length, its gain once more
/// weaker. In exact arithmetic, and with a power that is one, it has fallen after
/// `s` seconds of such rounds to ten to the minus three times `s` over the decay
/// time: after the decay time it is a thousandth, 60 dB down. So it is for every line
/// whose gain the cap leaves alone, and every decay time that is not too short.
pub proof fn the_tail_falls_by_sixty_decibels_in_its_decay_time(
    val: Reading,
    f: Calc,
    p: spec_fn(real) -> real,
    len: Single,
    rate: Single,
    rt60: Single,
    n: nat,
    s: real,
)
    requires
        is_power_of_ten(p),
        Single(LEAST).at_most(rt60),
        !Single(MOST).below(round_gain(f, quot(f, len, rate), rt60)),
        !round_gain(f, quot(f, len, rate), rt60).is_nan(),
        is_exact_as(val, f, Op::Over(len, rate)),
        exact_round(val, f, p, quot(f, len, rate), rt60),
        s * val(rate) == n as int as real * val(len),
    ensures
        to_the(val(line_gain(f, len, rate, rt60)), n) == p(-3real * (s / val(rt60))),
        s == val(rt60) ==> to_the(val(line_gain(f, len, rate, rt60)), n) * 1000real == 1real,
        value(Single(TEN)) == 10real,
{
    lemma2_to64();
    lemma_is(0x4120_0000, 130, 0x20_0000, 10real);
    let len_s = quot(f, len, rate);
    lemma_round(val, f, p, len_s, rt60, n);
    assert(line_gain(f, len, rate, rt60) == round_gain(f, len_s, rt60));
    let (k, l, m, r) = (n as int as real, val(len_s), val(len), val(rate));
    assert(k * l == s) by (nonlinear_arith)
        requires
            l * r == m,
            s * r == k * m,
            r != 0real,
    {
        assert((k * l) * r == k * (l * r)) by (nonlinear_arith);
        assert(k * l == s) by (nonlinear_arith)
            requires
                (k * l) * r == s * r,
                r != 0real,
        ;
    }
    let t = val(rt60);
    assert(t != 0real);
    assert(t / t == 1real) by (nonlinear_arith)
        requires
            t != 0real,
    ;
    lemma_thousandth(p);
}

/// The damping of a line is fitted at 6 kHz: in exact arithmetic a first-order
/// lowpass with this cutoff passes, there, the power `ratio` squared of what it is
/// fed. So it is between the lowest cutoff and the highest.
pub proof fn damping_is_fitted_at_six_kilohertz(val: Reading, f: Calc, ratio: Single)
    requires
        !Single(EVEN).at_most(ratio),
        val(Single(ONE)) == value(Single(ONE)),
        val(Single(DAMP_HZ)) == value(Single(DAMP_HZ)),
        ({
            let sq = prod(f, ratio, ratio);
            let rest = diff(f, Single(ONE), sq);
            let top = prod(f, Single(DAMP_HZ), ratio);
            let fc = quot(f, top, f(Op::Root(rest)));
            &&& is_exact_as(val, f, Op::Times(ratio, ratio))
            &&& is_exact_as(val, f, Op::Minus(Single(ONE), sq))
            &&& is_exact_as(val, f, Op::Root(rest))
            &&& is_exact_as(val, f, Op::Times(Single(DAMP_HZ), ratio))
            &&& is_exact_as(val, f, Op::Over(top, f(Op::Root(rest))))
            &&& !fc.below(Single(DULL_HZ)) && !Single(OPEN_HZ).below(fc)
        }),
    ensures
        ({
            let fc = val(damp_cutoff(f, ratio));
            square(val(ratio)) * (square(fc) + square(6000real)) == square(fc)
        }),
{
    lemma_one();
    lemma2_to64();
    lemma_is(0x45BB_8000, 139, 0x3B_8000, 6000real);
    let rest = diff(f, Single(ONE), prod(f, ratio, ratio));
    let top = prod(f, Single(DAMP_HZ), ratio);
    let (r, q) = (val(ratio), val(f(Op::Root(rest))));
    let c = val(damp_cutoff(f, ratio));
    assert(damp_cutoff(f, ratio) == quot(f, top, f(Op::Root(rest))));
    assert(c * q == 6000real * r);
    let (rr, cc) = (r * r, c * c);
    assert(q * q == 1real - rr);
    assert(cc * (q * q) == (c * q) * (c * q)) by (nonlinear_arith)
        requires
            cc == c * c,
    ;
    assert((6000real * r) * (6000real * r) == (6000real * 6000real) * rr) by (nonlinear_arith)
        requires
            rr == r * r,
    ;
    assert(cc * (1real - rr) == cc - cc * rr) by (nonlinear_arith);
    assert(rr * (cc + 36000000real) == cc * rr + 36000000real * rr) by (nonlinear_arith);
}

/// The sign with which line `j` enters line `i`: minus where the two have an odd
/// number of binary digits in common.
pub open spec fn sign(i: int, j: int) -> real {
    let shared = (i % 2) * (j % 2) + ((i / 2) % 2) * ((j / 2) % 2) + (i / 4) * (j / 4);
    if shared % 2 == 0 {
        1real
    } else {
        -1real
    }
}

/// The sum and the difference of two lines are exact, as read.
pub open spec fn exact_pair_as(val: Reading, f: Calc, v: Lines, i: int, j: int) -> bool {
    is_exact_as(val, f, Op::Plus(v@[i], v@[j])) && is_exact_as(val, f, Op::Minus(v@[i], v@[j]))
}

/// Every sum and difference on the way through the matrix is exact, as read.
pub open spec fn exact_mixing(val: Reading, f: Calc, v: Lines) -> bool {
    let a = butterfly_1(f, v);
    let b = butterfly_2(f, a);
    &&& exact_pair_as(val, f, v, 0, 1) && exact_pair_as(val, f, v, 2, 3)
    &&& exact_pair_as(val, f, v, 4, 5) && exact_pair_as(val, f, v, 6, 7)
    &&& exact_pair_as(val, f, a, 0, 2) && exact_pair_as(val, f, a, 1, 3)
    &&& exact_pair_as(val, f, a, 4, 6) && exact_pair_as(val, f, a, 5, 7)
    &&& exact_pair_as(val, f, b, 0, 4) && exact_pair_as(val, f, b, 1, 5)
    &&& exact_pair_as(val, f, b, 2, 6) && exact_pair_as(val, f, b, 3, 7)
}

/// What line `i` gets of all lines, each whole and with its sign.
pub open spec fn blend(val: Reading, v: Lines, i: int) -> real {
    sign(i, 0) * val(v@[0]) + sign(i, 1) * val(v@[1]) + sign(i, 2) * val(v@[2]) + sign(i, 3) * val(
        v@[3],
    ) + sign(i, 4) * val(v@[4]) + sign(i, 5) * val(v@[5]) + sign(i, 6) * val(v@[6]) + sign(i, 7)
        * val(v@[7])
}

/// In exact arithmetic every line comes out of the matrix as the sum of all lines,
/// each with its sign: nothing that one line holds stays with it, and no two lines
/// come out alike.
pub proof fn every_line_feeds_every_line(val: Reading, f: Calc, v: Lines, i: int)
    requires
        exact_mixing(val, f, v),
        0 <= i < 8,
    ensures
        val(hadamard(f, v)@[i]) == blend(val, v, i),
{
    let a = butterfly_1(f, v);
    let b = butterfly_2(f, a);
    let c = butterfly_4(f, b);
    assert(c == hadamard(f, v));
    if i == 0 {
        assert(val(c@[0]) == blend(val, v, 0));
    } else if i == 1 {
        assert(val(c@[1]) == blend(val, v, 1));
    } else if i == 2 {
        assert(val(c@[2]) == blend(val, v, 2));
    } else if i == 3 {
        assert(val(c@[3]) == blend(val, v, 3));
    } else if i == 4 {
        assert(val(c@[4]) == blend(val, v, 4));
    } else if i == 5 {
        assert(val(c@[5]) == blend(val, v, 5));
    } else if i == 6 {
        assert(val(c@[6]) == blend(val, v, 6));
    } else {
        assert(val(c@[7]) == blend(val, v, 7));
    }
}

/// The sum of the squares, as read.
pub open spec fn energy_as(val: Reading, v: Lines) -> real {
    square(val(v@[0])) + square(val(v@[1])) + square(val(v@[2])) + square(val(v@[3])) + square(
        val(v@[4]),
    ) + square(val(v@[5])) + square(val(v@[6])) + square(val(v@[7]))
}

proof fn lemma_pair_as(a: real, b: real)
    ensures
        square(a + b) + square(a - b) == 2real * (square(a) + square(b)),
{
    assert((a + b) * (a + b) + (a - b) * (a - b) == 2real * (a * a + b * b)) by (nonlinear_arith);
}

proof fn lemma_mixed_energy(val: Reading, f: Calc, v: Lines)
    requires
        exact_mixing(val, f, v),
    ensures
        energy_as(val, hadamard(f, v)) == 8real * energy_as(val, v),
{
    let a = butterfly_1(f, v);
    let b = butterfly_2(f, a);
    let c = butterfly_4(f, b);
    assert(c == hadamard(f, v));
    lemma_pair_as(val(v@[0]), val(v@[1]));
    lemma_pair_as(val(v@[2]), val(v@[3]));
    lemma_pair_as(val(v@[4]), val(v@[5]));
    lemma_pair_as(val(v@[6]), val(v@[7]));
    assert(energy_as(val, a) == 2real * energy_as(val, v));
    lemma_pair_as(val(a@[0]), val(a@[2]));
    lemma_pair_as(val(a@[1]), val(a@[3]));
    lemma_pair_as(val(a@[4]), val(a@[6]));
    lemma_pair_as(val(a@[5]), val(a@[7]));
    assert(energy_as(val, b) == 2real * energy_as(val, a));
    lemma_pair_as(val(b@[0]), val(b@[4]));
    lemma_pair_as(val(b@[1]), val(b@[5]));
    lemma_pair_as(val(b@[2]), val(b@[6]));
    lemma_pair_as(val(b@[3]), val(b@[7]));
    assert(energy_as(val, c) == 2real * energy_as(val, b));
}

/// All that is written into the lines.
pub open spec fn written(net: Fdn, f: Calc, input: Single) -> Lines {
    [
        net.line_in(f, input, 0),
        net.line_in(f, input, 1),
        net.line_in(f, input, 2),
        net.line_in(f, input, 3),
        net.line_in(f, input, 4),
        net.line_in(f, input, 5),
        net.line_in(f, input, 6),
        net.line_in(f, input, 7),
    ]
}

/// What is written into line `i` is worked out exactly, as read.
pub open spec fn exact_line_in(val: Reading, f: Calc, net: Fdn, input: Single, i: int) -> bool {
    let x = hadamard(f, net.outs(f))@[i];
    let norm = quot(f, Single(ONE), f(Op::Root(Single(EIGHT))));
    &&& is_exact_as(val, f, Op::Times(x, norm))
    &&& is_exact_as(val, f, Op::Plus(prod(f, input, Single(FEED)), prod(f, x, norm)))
}

proof fn lemma_scaled_square(x: real, k: real, w: real)
    requires
        w == x * k,
        k * k * 8real == 1real,
    ensures
        square(w) * 8real == square(x),
{
    let kk = k * k;
    assert((x * k) * (x * k) == (x * x) * kk) by (nonlinear_arith)
        requires
            kk == k * k,
    ;
    let xx = x * x;
    assert((xx * kk) * 8real == xx * (kk * 8real)) by (nonlinear_arith);
}

/// Without input, and in exact arithmetic, what is written into the lines has the
/// energy that came out of them: only the gains and the damping make the tail decay,
/// and it never grows.
pub proof fn feedback_keeps_the_energy(val: Reading, f: Calc, net: Fdn, input: Single)
    requires
        val(Single(ONE)) == value(Single(ONE)),
        val(Single(EIGHT)) == value(Single(EIGHT)),
        val(prod(f, input, Single(FEED))) == 0real,
        exact_mixing(val, f, net.outs(f)),
        is_exact_as(val, f, Op::Root(Single(EIGHT))),
        is_exact_as(val, f, Op::Over(Single(ONE), f(Op::Root(Single(EIGHT))))),
        forall|i: int| 0 <= i < 8 ==> #[trigger] exact_line_in(val, f, net, input, i),
    ensures
        energy_as(val, written(net, f, input)) == energy_as(val, net.outs(f)),
{
    lemma_one();
    lemma2_to64();
    lemma_is(0x4100_0000, 130, 0, 8real);
    let root = f(Op::Root(Single(EIGHT)));
    let norm = quot(f, Single(ONE), root);
    let (k, q) = (val(norm), val(root));
    let kk = k * k;
    assert(kk * 8real == 1real) by (nonlinear_arith)
        requires
            kk == k * k,
            k * q == 1real,
            q * q == 8real,
    {
        assert((k * k) * (q * q) == (k * q) * (k * q)) by (nonlinear_arith);
    }
    let h = hadamard(f, net.outs(f));
    let w = written(net, f, input);
    lemma_mixed_energy(val, f, net.outs(f));
    assert forall|i: int| 0 <= i < 8 implies square(val(w@[i])) * 8real == square(
        val(#[trigger] h@[i]),
    ) by {
        assert(exact_line_in(val, f, net, input, i));
        assert(w@[i] == net.line_in(f, input, i));
        lemma_scaled_square(val(h@[i]), k, val(w@[i]));
    }
    assert(square(val(w@[0])) * 8real == square(val(h@[0])));
    assert(square(val(w@[1])) * 8real == square(val(h@[1])));
    assert(square(val(w@[2])) * 8real == square(val(h@[2])));
    assert(square(val(w@[3])) * 8real == square(val(h@[3])));
    assert(square(val(w@[4])) * 8real == square(val(h@[4])));
    assert(square(val(w@[5])) * 8real == square(val(h@[5])));
    assert(square(val(w@[6])) * 8real == square(val(h@[6])));
    assert(square(val(w@[7])) * 8real == square(val(h@[7])));
}

} // verus!
