//! Sound bending around an edge: insertion loss from the Fresnel number, with
//! both branches of the Kurze-Anderson formula.

use crate::ambi::TWO;
use crate::arith::{
    ask, over, plus_prod, power, prod, quot, raise, size, size_of, times, add_times, Calc, Op,
};
use crate::exact::{is_nonneg, is_orderly, lemma_negated_num};
use crate::params::ONE;
use crate::probe::{answering, is_steady};
use crate::single::{lemma_grid_increases, Single};
use vstd::prelude::*;

verus! {

/// The pattern of -0.1916: from here on down the line of sight is clear.
pub const CLEAR: u32 = 0xBE44_32CA;

/// The pattern of 0.001: a smaller root counts as none.
pub const TINY: u32 = 0x3A83_126F;

/// The pattern of 5.0: the loss at the edge of the shadow, in dB.
pub const GRAZING_DB: u32 = 0x40A0_0000;

/// The pattern of 20.0.
pub const TWENTY: u32 = 0x41A0_0000;

/// The pattern of 10.0.
pub const TEN: u32 = 0x4120_0000;

/// The pattern of 343.0: meters per second.
pub const SPEED_OF_SOUND: u32 = 0x43AB_8000;

/// The pattern of a full turn in radians.
pub const TWO_PI: u32 = 0x40C9_0FDB;

/// The pattern of 125.0: the center of the low band, in Hz.
pub const CENTER_LOW: u32 = 0x42FA_0000;

/// The pattern of 790.0: the center of the mid band, in Hz.
pub const CENTER_MID: u32 = 0x4445_8000;

/// The pattern of 5600.0: the center of the high band, in Hz.
pub const CENTER_HIGH: u32 = 0x45AF_0000;

/// The Fresnel number of a detour: `2 * detour * freq / speed`.
pub open spec fn fresnel(f: Calc, detour_m: Single, freq_hz: Single) -> Single {
    quot(f, prod(f, prod(f, Single(TWO), detour_m), freq_hz), Single(SPEED_OF_SOUND))
}

/// The root of `2 * pi * |n|`.
pub open spec fn depth(f: Calc, n: Single) -> Single {
    f(Op::Root(prod(f, Single(TWO_PI), size(n))))
}

/// The root over its hyperbolic tangent in the shadow, over its tangent on the
/// lit side; one at the edge.
pub open spec fn edge_ratio(f: Calc, n: Single) -> Single {
    let x = depth(f, n);
    if x.below(Single(TINY)) {
        Single(ONE)
    } else if Single(0).at_most(n) {
        quot(f, x, f(Op::Tanh(x)))
    } else {
        quot(f, x, f(Op::Tan(x)))
    }
}

/// The amplitude that bends around an edge: nothing is lost where the line of
/// sight is clear.
pub open spec fn bent(f: Calc, detour_m: Single, freq_hz: Single) -> Single {
    let n = fresnel(f, detour_m, freq_hz);
    if n.at_most(Single(CLEAR)) {
        Single(ONE)
    } else {
        let db = plus_prod(f, Single(GRAZING_DB), Single(TWENTY), f(Op::Log(edge_ratio(f, n))));
        power(f, Single(TEN), quot(f, db.negated(), Single(TWENTY)))
    }
}

/// The amplitude that one edge lets around for a signed detour: positive in
/// the shadow, negative where there is a line of sight.
pub fn knife_edge_amp<F: Fn(Op) -> Single>(f: &F, detour_m: Single, freq_hz: Single) -> (r: Single)
    requires
        is_steady(*f),
    ensures
        r == bent(answering(*f), detour_m, freq_hz),
{
    let twice: Single = times(f, times(f, Single(TWO), detour_m), freq_hz);
    let n: Single = over(f, twice, Single(SPEED_OF_SOUND));
    if n.le(Single(CLEAR)) {
        return Single(ONE);
    }
    let x: Single = ask(f, Op::Root(times(f, Single(TWO_PI), size_of(n))));
    let ratio: Single = if x.lt(Single(TINY)) {
        Single(ONE)
    } else if Single(0).le(n) {
        over(f, x, ask(f, Op::Tanh(x)))
    } else {
        over(f, x, ask(f, Op::Tan(x)))
    };
    let log: Single = ask(f, Op::Log(ratio));
    let db: Single = add_times(f, Single(GRAZING_DB), Single(TWENTY), log);
    raise(f, Single(TEN), over(f, db.neg(), Single(TWENTY)))
}

/// The amplitudes that one edge lets around, band by band.
pub open spec fn knives(f: Calc, detour_m: Single) -> [Single; 3] {
    [
        bent(f, detour_m, Single(CENTER_LOW)),
        bent(f, detour_m, Single(CENTER_MID)),
        bent(f, detour_m, Single(CENTER_HIGH)),
    ]
}

pub fn knife_edge_bands<F: Fn(Op) -> Single>(f: &F, detour_m: Single) -> (r: [Single; 3])
    requires
        is_steady(*f),
    ensures
        r == knives(answering(*f), detour_m),
{
    let r: [Single; 3] = [
        knife_edge_amp(f, detour_m, Single(CENTER_LOW)),
        knife_edge_amp(f, detour_m, Single(CENTER_MID)),
        knife_edge_amp(f, detour_m, Single(CENTER_HIGH)),
    ];
    assert(r@ =~= knives(answering(*f), detour_m)@);
    r
}

/// Logarithms and powers keep order, `x / tanh x` rises from one with `x`, and
/// `x / tan x` falls from one as far as the line of sight is not clear.
pub open spec fn is_smooth(f: Calc) -> bool {
    &&& forall|a: Single, b: Single|
        #![trigger f(Op::Log(a)), f(Op::Log(b))]
        Single(0).below(a) && a.at_most(b) ==> f(Op::Log(a)).at_most(f(Op::Log(b)))
    &&& forall|a: Single, b: Single|
        #![trigger f(Op::Power(Single(TEN), a)), f(Op::Power(Single(TEN), b))]
        a.at_most(b) ==> f(Op::Power(Single(TEN), a)).at_most(f(Op::Power(Single(TEN), b)))
    &&& forall|a: Single, b: Single|
        #![trigger quot(f, a, f(Op::Tanh(a))), quot(f, b, f(Op::Tanh(b)))]
        Single(TINY).at_most(a) && a.at_most(b) ==> Single(ONE).at_most(quot(f, a, f(Op::Tanh(a))))
            && quot(f, a, f(Op::Tanh(a))).at_most(quot(f, b, f(Op::Tanh(b))))
    &&& forall|a: Single, b: Single|
        #![trigger quot(f, a, f(Op::Tan(a))), quot(f, b, f(Op::Tan(b)))]
        Single(TINY).at_most(a) && a.at_most(b) && b.at_most(depth(f, Single(CLEAR))) ==> {
            &&& quot(f, a, f(Op::Tan(a))).at_most(Single(ONE))
            &&& quot(f, b, f(Op::Tan(b))).at_most(quot(f, a, f(Op::Tan(a))))
            &&& Single(0).below(quot(f, b, f(Op::Tan(b))))
        }
}

proof fn lemma_constants()
    ensures
        Single(0).num() == 0,
        Single(0).below(Single(TWO)) && Single(TWO).is_finite(),
        Single(0).below(Single(SPEED_OF_SOUND)) && Single(SPEED_OF_SOUND).is_finite(),
        Single(0).below(Single(TWO_PI)) && Single(TWO_PI).is_finite(),
        Single(0).below(Single(TWENTY)) && Single(TWENTY).is_finite(),
        Single(0).below(Single(TINY)) && Single(TINY).below(Single(ONE)),
        Single(0).below(Single(ONE)),
        Single(GRAZING_DB).is_finite(),
        Single(CLEAR).below(Single(0)),
        size(Single(CLEAR)).num() == -Single(CLEAR).num(),
{
    lemma_grid_increases(0, TWO as nat);
    lemma_grid_increases(0, SPEED_OF_SOUND as nat);
    lemma_grid_increases(0, TWO_PI as nat);
    lemma_grid_increases(0, TWENTY as nat);
    lemma_grid_increases(0, TINY as nat);
    lemma_grid_increases(0, ONE as nat);
    lemma_grid_increases(TINY as nat, ONE as nat);
    lemma_grid_increases(0, Single(CLEAR).magnitude());
}

proof fn lemma_size(n: Single)
    requires
        !n.is_nan(),
    ensures
        is_nonneg(size(n)),
        size(n).num() == (if n.num() < 0 {
            -n.num()
        } else {
            n.num()
        }),
{
    if n.magnitude() > 0 {
        lemma_grid_increases(0, n.magnitude());
    }
    assert(Single(0).num() == 0);
}

proof fn lemma_depth(f: Calc, a: Single, b: Single)
    requires
        is_orderly(f),
        is_nonneg(size(a)),
        size(a).at_most(size(b)),
    ensures
        depth(f, a).at_most(depth(f, b)),
        is_nonneg(depth(f, a)),
{
    lemma_constants();
    let (x, y) = (prod(f, Single(TWO_PI), size(a)), prod(f, Single(TWO_PI), size(b)));
    assert(x.at_most(y) && is_nonneg(x));
}

/// The ratio rises with the Fresnel number.
proof fn lemma_edge_ratio(f: Calc, m: Single, n: Single)
    requires
        is_orderly(f),
        is_smooth(f),
        m.at_most(n),
        !m.at_most(Single(CLEAR)),
    ensures
        edge_ratio(f, m).at_most(edge_ratio(f, n)),
        Single(0).below(edge_ratio(f, m)),
{
    lemma_constants();
    lemma_size(m);
    lemma_size(n);
    let (x, y) = (depth(f, m), depth(f, n));
    lemma_depth(f, m, m);
    lemma_depth(f, n, n);
    let one = Single(ONE);
    if is_nonneg(m) {
        lemma_depth(f, m, n);
    } else {
        lemma_depth(f, m, Single(CLEAR));
        if !is_nonneg(n) {
            lemma_depth(f, n, m);
            lemma_depth(f, n, Single(CLEAR));
        }
    }
}

/// The deeper the shadow, the less bends around the edge: over a longer detour
/// no more passes than over a shorter one, short of where the line of sight is
/// clear.
pub proof fn a_longer_detour_passes_no_more(f: Calc, d1: Single, d2: Single, freq_hz: Single)
    requires
        is_orderly(f),
        is_smooth(f),
        d1.at_most(d2),
        Single(0).below(freq_hz),
        freq_hz.is_finite(),
        !fresnel(f, d1, freq_hz).at_most(Single(CLEAR)),
    ensures
        bent(f, d2, freq_hz).at_most(bent(f, d1, freq_hz)),
{
    lemma_constants();
    let (p, q) = (prod(f, Single(TWO), d1), prod(f, Single(TWO), d2));
    assert(p.at_most(q));
    assert(prod(f, p, freq_hz).at_most(prod(f, q, freq_hz)));
    lemma_bent(f, fresnel(f, d1, freq_hz), fresnel(f, d2, freq_hz));
}

/// In the shadow a higher frequency passes no more than a lower one.
pub proof fn a_higher_frequency_passes_no_more(f: Calc, d: Single, low: Single, high: Single)
    requires
        is_orderly(f),
        is_smooth(f),
        is_nonneg(d),
        prod(f, Single(TWO), d).is_finite(),
        is_nonneg(low),
        low.at_most(high),
        high.is_finite(),
        low.is_finite(),
    ensures
        bent(f, d, high).at_most(bent(f, d, low)),
{
    lemma_constants();
    let p = prod(f, Single(TWO), d);
    assert(is_nonneg(p));
    assert(is_nonneg(prod(f, p, low)));
    assert(prod(f, p, low).at_most(prod(f, p, high)));
    assert(is_nonneg(fresnel(f, d, low)));
    lemma_bent(f, fresnel(f, d, low), fresnel(f, d, high));
}

/// The amplitude at a Fresnel number that is not clear.
spec fn past_edge(f: Calc, n: Single) -> Single {
    let db = plus_prod(f, Single(GRAZING_DB), Single(TWENTY), f(Op::Log(edge_ratio(f, n))));
    power(f, Single(TEN), quot(f, db.negated(), Single(TWENTY)))
}

proof fn lemma_bent(f: Calc, m: Single, n: Single)
    requires
        is_orderly(f),
        is_smooth(f),
        m.at_most(n),
        !m.at_most(Single(CLEAR)),
    ensures
        past_edge(f, n).at_most(past_edge(f, m)),
        !n.at_most(Single(CLEAR)),
{
    lemma_constants();
    lemma_edge_ratio(f, m, n);
    let (a, b) = (f(Op::Log(edge_ratio(f, m))), f(Op::Log(edge_ratio(f, n))));
    assert(a.at_most(b));
    let (x, y) = (
        plus_prod(f, Single(GRAZING_DB), Single(TWENTY), a),
        plus_prod(f, Single(GRAZING_DB), Single(TWENTY), b),
    );
    assert(prod(f, Single(TWENTY), a).at_most(prod(f, Single(TWENTY), b)));
    assert(x.at_most(y));
    lemma_negated_num(x);
    lemma_negated_num(y);
    assert(y.negated().at_most(x.negated()));
    assert(quot(f, y.negated(), Single(TWENTY)).at_most(quot(f, x.negated(), Single(TWENTY))));
}

/// In the shadow no more than everything passes.
pub proof fn a_shadow_never_amplifies(f: Calc, d: Single, freq_hz: Single)
    requires
        is_orderly(f),
        is_smooth(f),
        is_nonneg(fresnel(f, d, freq_hz)),
        is_nonneg(f(Op::Log(Single(ONE)))),
        f(Op::Power(Single(TEN), Single(0))) == Single(ONE),
        forall|a: Single| !a.is_nan() ==> is_nonneg(#[trigger] f(Op::Power(Single(TEN), a))),
    ensures
        is_nonneg(bent(f, d, freq_hz)),
        bent(f, d, freq_hz).at_most(Single(ONE)),
{
    lemma_constants();
    let n = fresnel(f, d, freq_hz);
    lemma_edge_ratio(f, n, n);
    lemma_size(n);
    lemma_depth(f, n, n);
    let r = edge_ratio(f, n);
    let x = depth(f, n);
    assert(quot(f, x, f(Op::Tanh(x))) == quot(f, x, f(Op::Tanh(x))));
    assert(Single(ONE).at_most(r));
    let a = f(Op::Log(r));
    assert(f(Op::Log(Single(ONE))).at_most(a));
    let db = plus_prod(f, Single(GRAZING_DB), Single(TWENTY), a);
    assert(is_nonneg(prod(f, Single(TWENTY), a)));
    lemma_grid_increases(0, GRAZING_DB as nat);
    assert(is_nonneg(db));
    lemma_negated_num(db);
    assert(db.negated().at_most(Single(0)));
}

/// Nothing is lost where the line of sight is clear.
pub proof fn a_clear_line_loses_nothing(f: Calc, d: Single, freq_hz: Single)
    requires
        fresnel(f, d, freq_hz).at_most(Single(CLEAR)),
    ensures
        bent(f, d, freq_hz) == Single(ONE),
{
}

} // verus!
