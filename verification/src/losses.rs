//! What walls and air take from sound, as numbers: energy is conserved at a wall,
//! a wall passes by its mass, sound thins out with distance.

use crate::arith::{diff, greater, lesser, prod, quot, Calc, Op};
use crate::exact::{
    is_about, is_amplitude, is_close, is_exact, is_nonneg, is_orderly, is_reversing, is_share,
    lemma_about, lemma_about_times, lemma_one, lemma_one_num, lemma_order, lemma_within, square, value,
};
use crate::material::{
    spread_over, through_air, Material, AIR_HIGH, AIR_LOW, AIR_MID, LEAKY, REF_THICKNESS_M, THIN,
    THIN_GAIN,
};
use crate::params::ONE;
use crate::single::{lemma_grid_increases, Single};
use vstd::prelude::*;

verus! {

/// A wall reflects what it does not absorb: the energy of the reflected amplitude
/// and the absorbed share add up to one, in every band, up to the rounding of the
/// two operations.
pub proof fn a_wall_reflects_what_it_does_not_absorb(f: Calc, m: Material, b: int, e: real)
    requires
        0 <= b < 3,
        e >= 0real,
        0real <= value(m.absorption@[b]) <= 1real,
        is_close(f, Op::Minus(Single(ONE), m.absorption@[b]), e),
        value(diff(f, Single(ONE), m.absorption@[b])) >= 0real,
        is_close(f, Op::Root(diff(f, Single(ONE), m.absorption@[b])), e),
    ensures
        value(m.reflecting(f)@[b]) >= 0real,
        is_about(
            square(value(m.reflecting(f)@[b])) + value(m.absorption@[b]),
            1real,
            2real * e,
        ),
{
    lemma_one();
    lemma_order(diff(f, Single(ONE), m.absorption@[b]), Single(0));
}

/// Of two materials the one that absorbs more reflects no more, in every band,
/// where rounding keeps order.
pub proof fn what_absorbs_more_reflects_no_more(f: Calc, m: Material, n: Material, b: int)
    requires
        0 <= b < 3,
        is_orderly(f),
        is_reversing(f),
        is_share(m.absorption@[b]),
        is_share(n.absorption@[b]),
        m.absorption@[b].at_most(n.absorption@[b]),
    ensures
        n.reflecting(f)@[b].at_most(m.reflecting(f)@[b]),
{
    lemma_one_num();
    let (x, y) = (
        diff(f, Single(ONE), n.absorption@[b]),
        diff(f, Single(ONE), m.absorption@[b]),
    );
    assert(x.at_most(y));
    assert(is_share(x) && is_share(y));
}

proof fn lemma_walls()
    ensures
        Single(0).num() == 0,
        Single(0).below(Single(THIN)) && Single(THIN).is_finite(),
        Single(0).below(Single(REF_THICKNESS_M)) && Single(REF_THICKNESS_M).is_finite(),
        Single(0).below(Single(THIN_GAIN)) && Single(THIN_GAIN).is_finite(),
        Single(0).below(Single(LEAKY)) && Single(LEAKY).is_finite(),
{
    lemma_grid_increases(0, THIN as nat);
    lemma_grid_increases(0, REF_THICKNESS_M as nat);
    lemma_grid_increases(0, THIN_GAIN as nat);
    lemma_grid_increases(0, LEAKY as nat);
}

/// A thicker wall of a material passes no more than a thinner one, in any band,
/// where rounding keeps order; and none passes more than nine tenths.
pub proof fn a_thicker_wall_passes_no_more(f: Calc, m: Material, thin: Single, thick: Single, b: int)
    requires
        0 <= b < 3,
        is_orderly(f),
        is_reversing(f),
        is_amplitude(m.transmission@[b]),
        thin.at_most(thick),
        thick.is_finite(),
        thin.is_finite(),
    ensures
        m.passing(f, thick)@[b].at_most(m.passing(f, thin)@[b]),
        m.passing(f, thin)@[b].at_most(Single(LEAKY)),
        is_nonneg(m.passing(f, thick)@[b]),
{
    lemma_walls();
    let (s, t) = (greater(thin, Single(THIN)), greater(thick, Single(THIN)));
    assert(s.at_most(t) && Single(0).below(s));
    let (x, y) = (
        quot(f, Single(REF_THICKNESS_M), t),
        quot(f, Single(REF_THICKNESS_M), s),
    );
    assert(x.at_most(y));
    assert(is_nonneg(x) && is_nonneg(y));
    let (j, k) = (lesser(x, Single(THIN_GAIN)), lesser(y, Single(THIN_GAIN)));
    assert(j.at_most(k) && is_nonneg(j));
    lemma_within(j, Single(THIN_GAIN));
    lemma_within(k, Single(THIN_GAIN));
    assert(prod(f, m.transmission@[b], j).at_most(prod(f, m.transmission@[b], k)));
    assert(is_nonneg(prod(f, m.transmission@[b], j)));
}

/// A wall passes by its mass: between the two caps, what passes times the
/// thickness is what passes the reference thickness times that, in every band, up
/// to the rounding of the two operations. Every doubling costs 6 dB.
pub proof fn a_wall_passes_by_its_mass(f: Calc, m: Material, thickness_m: Single, b: int, e: real)
    requires
        0 <= b < 3,
        e >= 0real,
        thickness_m.is_finite(),
        value(thickness_m) >= value(Single(THIN)),
        value(m.transmission@[b]) >= 0real,
        is_close(f, Op::Over(Single(REF_THICKNESS_M), thickness_m), e),
        value(quot(f, Single(REF_THICKNESS_M), thickness_m)) <= value(Single(THIN_GAIN)),
        is_close(
            f,
            Op::Times(m.transmission@[b], quot(f, Single(REF_THICKNESS_M), thickness_m)),
            e,
        ),
        value(
            prod(f, m.transmission@[b], quot(f, Single(REF_THICKNESS_M), thickness_m)),
        ) <= value(Single(LEAKY)),
    ensures
        is_about(
            value(m.passing(f, thickness_m)@[b]) * value(thickness_m),
            value(m.transmission@[b]) * value(Single(REF_THICKNESS_M)),
            e * value(thickness_m) + e * value(m.transmission@[b]),
        ),
{
    lemma_walls();
    lemma_one();
    lemma_order(Single(0), Single(THIN));
    lemma_order(thickness_m, Single(THIN));
    let k = quot(f, Single(REF_THICKNESS_M), thickness_m);
    lemma_order(Single(THIN_GAIN), k);
    let p = prod(f, m.transmission@[b], k);
    lemma_order(Single(LEAKY), p);
    let (t, g, x) = (value(thickness_m), value(m.transmission@[b]), value(k));
    lemma_about_times(value(p), g * x, t, e);
    assert((g * x) * t == g * (x * t)) by (nonlinear_arith);
    lemma_about_times(x * t, value(Single(REF_THICKNESS_M)), g, e);
    lemma_about(value(p) * t, (g * x) * t, g * value(Single(REF_THICKNESS_M)), e * t, e * g);
}

/// A wall thinner than half the reference passes twice what that does, as far as it
/// is not more than nine tenths.
pub proof fn a_thin_wall_passes_twice(f: Calc, m: Material, thickness_m: Single, b: int, e: real)
    requires
        0 <= b < 3,
        thickness_m.is_finite(),
        value(quot(f, Single(REF_THICKNESS_M), greater(thickness_m, Single(THIN)))) >= 2real,
        quot(f, Single(REF_THICKNESS_M), greater(thickness_m, Single(THIN))).is_finite(),
        is_close(f, Op::Times(m.transmission@[b], Single(THIN_GAIN)), e),
    ensures
        value(prod(f, m.transmission@[b], Single(THIN_GAIN))) <= value(Single(LEAKY)) ==> is_about(
            value(m.passing(f, thickness_m)@[b]),
            2real * value(m.transmission@[b]),
            e,
        ),
        value(prod(f, m.transmission@[b], Single(THIN_GAIN))) > value(Single(LEAKY)) ==> m.passing(
            f,
            thickness_m,
        )@[b] == Single(LEAKY),
{
    lemma_walls();
    crate::exact::lemma_two();
    let k = quot(f, Single(REF_THICKNESS_M), greater(thickness_m, Single(THIN)));
    lemma_order(Single(THIN_GAIN), k);
    let p = prod(f, m.transmission@[b], Single(THIN_GAIN));
    lemma_order(Single(LEAKY), p);
    if k.num() == Single(THIN_GAIN).num() {
        crate::exact::lemma_one();
        crate::exact::lemma_same_pattern(k, Single(THIN_GAIN));
    }
}

/// What air takes from a band, per metre.
pub open spec fn air_decay(b: int) -> Single {
    Single(if b == 0 {
        AIR_LOW
    } else if b == 1 {
        AIR_MID
    } else {
        AIR_HIGH
    })
}

/// Sound thins out with distance: in exact arithmetic, with whatever function the
/// host's exponential is, the amplitude at a distance, times the distance, is the
/// exponential of the air's decay over that distance, in every band.
pub proof fn sound_thins_out_with_distance(
    f: Calc,
    exp: spec_fn(real) -> real,
    dist: Single,
    b: int,
)
    requires
        0 <= b < 3,
        is_exact(f, Op::Times(air_decay(b), dist)),
        value(f(Op::Exp(prod(f, air_decay(b), dist)))) == exp(
            value(prod(f, air_decay(b), dist)),
        ),
        is_exact(f, Op::Over(f(Op::Exp(prod(f, air_decay(b), dist))), dist)),
    ensures
        value(through_air(f, dist)@[b]) == exp(value(air_decay(b)) * value(dist)),
        value(spread_over(f, dist)@[b]) * value(dist) == exp(value(air_decay(b)) * value(dist)),
{
}

} // verus!
