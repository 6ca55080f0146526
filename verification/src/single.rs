//! IEEE-754 single-precision numbers held as their bit patterns.
//!
//! The host does the arithmetic; this crate orders, stores, moves and
//! classifies the numbers it is handed. A pattern stands for a number on one
//! common grid, the multiples of 2^-149, so that every statement about
//! comparison, rounding and truncation is a statement about integers.

use vstd::arithmetic::power2::*;
use vstd::prelude::*;

verus! {

/// One single-precision number, as the bits `f32::to_bits` gives.
#[derive(Clone, Copy, Debug, PartialEq, Eq, Structural)]
pub struct Single(pub u32);

/// The number of patterns in one binade.
pub const BINADE: u32 = 0x80_0000;

/// The sign bit.
pub const SIGN: u32 = 0x8000_0000;

/// The pattern of positive infinity; larger magnitudes are not numbers.
pub const INFINITY: u32 = 0x7F80_0000;

/// The number that a magnitude (a pattern without its sign) stands for, in
/// units of 2^-149. The magnitude of infinity gives the first number past the
/// finite range.
pub open spec fn grid(mag: nat) -> nat {
    if mag < BINADE {
        mag
    } else {
        (BINADE + mag % (BINADE as nat)) as nat * pow2((mag / (BINADE as nat) - 1) as nat)
    }
}

/// The whole number `n` in units of 2^-149.
pub open spec fn whole(n: int) -> int {
    n * pow2(149)
}

/// How far apart two numbers are.
pub open spec fn gap(a: int, b: int) -> int {
    if a <= b {
        b - a
    } else {
        a - b
    }
}

impl Single {
    /// Positive zero.
    pub open spec fn zero() -> Single {
        Single(0)
    }

    pub open spec fn is_negative(self) -> bool {
        self.0 >= SIGN
    }

    /// The pattern without its sign bit.
    pub open spec fn magnitude(self) -> nat {
        if self.0 >= SIGN {
            (self.0 - SIGN) as nat
        } else {
            self.0 as nat
        }
    }

    pub open spec fn is_nan(self) -> bool {
        self.magnitude() > INFINITY
    }

    pub open spec fn is_finite(self) -> bool {
        self.magnitude() < INFINITY
    }

    /// The number in units of 2^-149; both zeros are 0.
    pub open spec fn num(self) -> int {
        if self.is_negative() {
            -(grid(self.magnitude()) as int)
        } else {
            grid(self.magnitude()) as int
        }
    }

    /// `self < other` as floating-point comparison has it: false as soon as
    /// one side is not a number.
    pub open spec fn below(self, other: Single) -> bool {
        !self.is_nan() && !other.is_nan() && self.num() < other.num()
    }

    /// `self <= other` as floating-point comparison has it.
    pub open spec fn at_most(self, other: Single) -> bool {
        !self.is_nan() && !other.is_nan() && self.num() <= other.num()
    }

    /// Position in the total order of patterns: negative numbers by falling
    /// magnitude, then -0, +0, and positive numbers by rising magnitude, with
    /// the patterns that are not numbers at both ends.
    pub open spec fn total_rank(self) -> int {
        if self.is_negative() {
            -(self.magnitude() as int) - 1
        } else {
            self.magnitude() as int
        }
    }

    /// `self` rounds the number `x` (in units of 2^-149) to nearest, ties to
    /// the even pattern.
    pub open spec fn is_nearest(self, x: int) -> bool {
        &&& !self.is_negative()
        &&& self.is_finite()
        &&& forall|q: Single| q.is_finite() ==> gap(self.num(), x) <= #[trigger] gap(q.num(), x)
        &&& forall|q: Single|
            q.is_finite() && q.num() != self.num() && gap(self.num(), x) == #[trigger] gap(q.num(), x)
                ==> self.0 % 2 == 0
    }

    /// What conversion to an unsigned integer with the largest value `max`
    /// gives: the number cut towards zero, kept inside 0..=max; 0 for what is
    /// not a number.
    pub open spec fn truncated(self, max: nat) -> nat {
        if self.is_nan() || self.is_negative() {
            0
        } else if grid(self.magnitude()) / pow2(149) > max {
            max
        } else {
            grid(self.magnitude()) / pow2(149)
        }
    }
}

/// Neighbouring magnitudes differ by one step of their binade.
proof fn lemma_grid_step(mag: nat)
    ensures
        mag < BINADE ==> grid(mag + 1) == grid(mag) + 1,
        mag >= BINADE ==> grid(mag + 1) == grid(mag) + pow2(
            (mag / (BINADE as nat) - 1) as nat,
        ),
{
    let b = BINADE as nat;
    lemma2_to64();
    if mag + 1 < b {
    } else if mag + 1 == b {
        assert(b % b == 0 && b / b == 1) by (nonlinear_arith)
            requires
                b > 0,
        ;
        assert(b * pow2(0) == b) by (nonlinear_arith)
            requires
                pow2(0) == 1,
        ;
    } else {
        let e = mag / b;
        let m = mag % b;
        let p = pow2((e - 1) as nat);
        assert(mag == e * b + m && 0 <= m < b && e >= 1) by (nonlinear_arith)
            requires
                mag >= b,
                b == 0x80_0000nat,
                e == mag / b,
                m == mag % b,
        ;
        if m + 1 < b {
            assert((mag + 1) / b == e && (mag + 1) % b == m + 1) by (nonlinear_arith)
                requires
                    mag == e * b + m,
                    0 <= m,
                    m + 1 < b,
            ;
            assert((b + (m + 1)) * p == (b + m) * p + p) by (nonlinear_arith);
        } else {
            assert((mag + 1) / b == e + 1 && (mag + 1) % b == 0) by (nonlinear_arith)
                requires
                    mag == e * b + m,
                    m + 1 == b,
                    b > 0,
            ;
            lemma_pow2_unfold(e);
            assert(pow2(e) == 2 * p);
            assert((b + 0) * (2 * p) == (b + m) * p + p) by (nonlinear_arith)
                requires
                    m + 1 == b,
            ;
        }
    }
}

/// A larger magnitude stands for a larger number.
pub proof fn lemma_grid_increases(a: nat, b: nat)
    requires
        a < b,
    ensures
        grid(a) < grid(b),
    decreases b - a,
{
    let c = (b - 1) as nat;
    lemma_grid_step(c);
    if c >= BINADE {
        lemma_pow2_pos((c / (BINADE as nat) - 1) as nat);
    }
    if a < c {
        lemma_grid_increases(a, c);
    }
}

/// Two patterns that are numbers compare as their signed magnitudes do.
proof fn lemma_num_order(a: Single, b: Single)
    ensures
        a.num() < b.num() <==> signed_magnitude(a) < signed_magnitude(b),
        a.num() == b.num() <==> signed_magnitude(a) == signed_magnitude(b),
{
    let (ma, mb) = (a.magnitude(), b.magnitude());
    if ma < mb {
        lemma_grid_increases(ma, mb);
    }
    if mb < ma {
        lemma_grid_increases(mb, ma);
    }
    if 0 < ma {
        lemma_grid_increases(0, ma);
    }
    if 0 < mb {
        lemma_grid_increases(0, mb);
    }
}

spec fn signed_magnitude(a: Single) -> int {
    if a.is_negative() {
        -(a.magnitude() as int)
    } else {
        a.magnitude() as int
    }
}

fn signed(a: Single) -> (r: i64)
    ensures
        r == signed_magnitude(a),
{
    if a.0 >= SIGN {
        -((a.0 - SIGN) as i64)
    } else {
        a.0 as i64
    }
}

impl Single {
    pub fn is_not_a_number(self) -> (r: bool)
        ensures
            r == self.is_nan(),
    {
        if self.0 >= SIGN {
            self.0 - SIGN > INFINITY
        } else {
            self.0 > INFINITY
        }
    }

    /// `self < other`.
    pub fn lt(self, other: Single) -> (r: bool)
        ensures
            r == self.below(other),
    {
        proof {
            lemma_num_order(self, other);
        }
        !self.is_not_a_number() && !other.is_not_a_number() && signed(self) < signed(other)
    }

    /// `self <= other`.
    pub fn le(self, other: Single) -> (r: bool)
        ensures
            r == self.at_most(other),
    {
        proof {
            lemma_num_order(self, other);
        }
        !self.is_not_a_number() && !other.is_not_a_number() && signed(self) <= signed(other)
    }

    /// Strictly earlier in the total order of patterns.
    pub fn total_lt(self, other: Single) -> (r: bool)
        ensures
            r == (self.total_rank() < other.total_rank()),
    {
        let a: i64 = if self.0 >= SIGN {
            -((self.0 - SIGN) as i64) - 1
        } else {
            self.0 as i64
        };
        let b: i64 = if other.0 >= SIGN {
            -((other.0 - SIGN) as i64) - 1
        } else {
            other.0 as i64
        };
        a < b
    }

    /// The opposite number: the other sign.
    pub open spec fn negated(self) -> Single {
        if self.0 >= SIGN {
            Single((self.0 - SIGN) as u32)
        } else {
            Single((self.0 + SIGN) as u32)
        }
    }

    pub fn neg(self) -> (r: Single)
        ensures
            r == self.negated(),
    {
        if self.0 >= SIGN {
            Single(self.0 - SIGN)
        } else {
            Single(self.0 + SIGN)
        }
    }

    /// The number without its sign.
    pub fn abs(self) -> (r: Single)
        ensures
            r.0 == self.magnitude(),
    {
        if self.0 >= SIGN {
            Single(self.0 - SIGN)
        } else {
            self
        }
    }
}

/// A normal pattern's number, from its exponent field and its significand.
proof fn lemma_normal(e: nat, m: nat)
    requires
        e >= 1,
        BINADE <= m < 2 * BINADE,
    ensures
        grid((e * BINADE + m - BINADE) as nat) == m * pow2((e - 1) as nat),
{
    let b = BINADE as nat;
    let mag = (e * b + m - b) as nat;
    assert(mag / b == e && mag % b == m - b) by (nonlinear_arith)
        requires
            mag == e * b + (m - b),
            b <= m < 2 * b,
            b > 0,
    ;
    assert(mag >= b) by (nonlinear_arith)
        requires
            mag == e * b + (m - b),
            b <= m,
            e >= 1,
    ;
}

/// Which of two neighbouring patterns a number between them rounds to.
proof fn lemma_nearest(lo: Single, x: int)
    requires
        lo.0 + 1 < INFINITY,
        lo.num() <= x <= Single((lo.0 + 1) as u32).num(),
    ensures
        ({
            let hi = Single((lo.0 + 1) as u32);
            let (d, u) = (x - lo.num(), hi.num() - x);
            &&& d < u || (d == u && lo.0 % 2 == 0) ==> lo.is_nearest(x)
            &&& u < d || (d == u && lo.0 % 2 == 1) ==> hi.is_nearest(x)
        }),
{
    let hi = Single((lo.0 + 1) as u32);
    assert forall|q: Single| q.is_finite() implies q.num() <= lo.num() || q.num() >= hi.num() by {
        lemma_num_order(q, lo);
        lemma_num_order(hi, q);
    }
    lemma_num_order(lo, hi);
}

/// A number that has a pattern of its own rounds to it.
pub proof fn lemma_nearest_exact(r: Single, x: int, w: Single)
    requires
        r.is_nearest(x),
        w.num() == x,
        w.is_finite(),
        !w.is_negative(),
    ensures
        r == w,
{
    assert(gap(w.num(), x) == 0);
    lemma_num_order(r, w);
}

/// At most one pattern is the rounding of a number.
pub proof fn nearest_is_unique(a: Single, b: Single, x: int)
    requires
        a.is_nearest(x),
        b.is_nearest(x),
    ensures
        a == b,
{
    assert(gap(a.num(), x) == gap(b.num(), x));
    lemma_num_order(a, b);
    if a != b {
        // both are even and equally far from x, on either side of it
        assert(a.0 % 2 == 0 && b.0 % 2 == 0);
        let (lo, hi) = if a.0 < b.0 { (a, b) } else { (b, a) };
        let mid = Single((lo.0 + 1) as u32);
        lemma_num_order(lo, mid);
        lemma_num_order(mid, hi);
        assert(gap(mid.num(), x) < gap(a.num(), x));
    }
}

impl Single {
    /// The nearest single-precision number to `n`, ties to even.
    pub fn from_u64(n: u64) -> (r: Single)
        ensures
            r.is_nearest(whole(n as int)),
    {
        if n == 0 {
            assert(0int * pow2(149) == 0) by (nonlinear_arith);
            return Single(0);
        }
        if n < 0x100_0000 {
            let mut m: u64 = n;
            let mut t: u32 = 0;
            proof {
                lemma2_to64();
            }
            while m < 0x80_0000
                invariant
                    0 < n,
                    t <= 23,
                    m < 0x100_0000,
                    m == n * pow2(t as nat),
                    m >= pow2(t as nat),
                    pow2(23) == 0x80_0000,
                decreases 24 - t,
            {
                proof {
                    lemma_pow2_unfold((t + 1) as nat);
                    let (p, p1) = (pow2(t as nat), pow2((t + 1) as nat));
                    assert(n * p1 == 2 * (n * p)) by (nonlinear_arith)
                        requires
                            p1 == 2 * p,
                    ;
                    if t == 23 {
                        assert(m >= 0x80_0000);
                    }
                }
                m = m * 2;
                t = t + 1;
            }
            let bits: u32 = (150 - t) * 0x80_0000 + (m as u32 - 0x80_0000);
            let r: Single = Single(bits);
            proof {
                lemma_normal((150 - t) as nat, m as nat);
                lemma_pow2_adds(t as nat, (149 - t) as nat);
                let (a, b) = (pow2(t as nat), pow2((149 - t) as nat));
                assert((n * a) * b == n * (a * b)) by (nonlinear_arith);
                assert(r.num() == whole(n as int));
                assert forall|q: Single| q.is_finite() implies 0 <= gap(q.num(), whole(n as int)) by {
                }
                assert(gap(r.num(), whole(n as int)) == 0);
                assert forall|q: Single|
                    q.is_finite() && q.num() != r.num() implies gap(q.num(), whole(n as int)) > 0 by {
                }
            }
            return r;
        }
        let mut p: u64 = 1;
        let mut s: u32 = 0;
        proof {
            lemma2_to64();
            lemma2_to64_rest();
        }
        while n / p >= 0x100_0000
            invariant
                n >= 0x100_0000,
                s <= 40,
                p == pow2(s as nat),
                1 <= p <= 0x100_0000_0000,
                n / p >= 0x80_0000,
                pow2(40) == 0x100_0000_0000,
            decreases 40 - s,
        {
            proof {
                lemma_pow2_unfold((s + 1) as nat);
                assert(p < 0x100_0000_0000) by (nonlinear_arith)
                    requires
                        n / p >= 0x100_0000,
                        p > 0,
                        n <= 0xFFFF_FFFF_FFFF_FFFF,
                ;
                if s + 1 < 40 {
                    lemma_pow2_strictly_increases((s + 1) as nat, 40);
                }
                assert(n / ((2 * p) as u64) >= 0x80_0000) by (nonlinear_arith)
                    requires
                        n / p >= 0x100_0000,
                        0 < p < 0x100_0000_0000,
                ;
            }
            p = p * 2;
            s = s + 1;
        }
        let q: u64 = n / p;
        let rem: u64 = n % p;
        let lo: u32 = (150 + s) * 0x80_0000 + (q as u32 - 0x80_0000);
        proof {
            let e = (150 + s) as nat;
            lemma_normal(e, q as nat);
            lemma_grid_step(lo as nat);
            let b = BINADE as nat;
            assert(lo as nat / b == e) by (nonlinear_arith)
                requires
                    lo as nat == e * b + (q - b),
                    b <= q < 2 * b,
                    b > 0,
            ;
            lemma_pow2_adds(s as nat, 149);
            let big = pow2(149);
            lemma_pow2_pos(149);
            assert(p * big == pow2((s + 149) as nat));
            assert(n == q * p + rem && rem < p) by (nonlinear_arith)
                requires
                    q == n / p,
                    rem == n % p,
                    p > 0,
            ;
            assert(n * big == q * (p * big) + rem * big) by (nonlinear_arith)
                requires
                    n == q * p + rem,
            ;
            let x = whole(n as int);
            let l = Single(lo);
            assert(l.num() == q * (p * big));
            assert(x - l.num() == rem * big);
            assert(Single((lo + 1) as u32).num() == l.num() + p * big);
            assert(rem * big <= p * big) by (nonlinear_arith)
                requires
                    rem < p,
                    big > 0,
            ;
            lemma_nearest(l, x);
            assert(2 * rem < p ==> rem * big < p * big - rem * big) by (nonlinear_arith)
                requires
                    big > 0,
            ;
            assert(2 * rem > p ==> rem * big > p * big - rem * big) by (nonlinear_arith)
                requires
                    big > 0,
            ;
            assert(2 * rem == p ==> rem * big == p * big - rem * big) by (nonlinear_arith);
        }
        if rem < p - rem || (rem == p - rem && lo % 2 == 0) {
            Single(lo)
        } else {
            Single(lo + 1)
        }
    }
}

/// Lowering the exponent field by `k` divides a normal number by 2^k.
proof fn lemma_lower_exponent(mag: nat, k: nat)
    requires
        mag >= (k + 1) * BINADE,
    ensures
        mag >= k * BINADE,
        grid((mag - k * BINADE) as nat) * pow2(k) == grid(mag),
{
    let b = BINADE as nat;
    let (e, m) = (mag / b, mag % b);
    let low = (mag - k * b) as nat;
    assert(low / b == e - k && low % b == m && e >= k + 1 && low >= b) by (nonlinear_arith)
        requires
            low == mag - k * b,
            mag >= (k + 1) * b,
            e == mag / b,
            m == mag % b,
            b > 0,
    ;
    assert(mag >= b) by (nonlinear_arith)
        requires
            mag >= (k + 1) * b,
    ;
    lemma_pow2_adds((e - k - 1) as nat, k);
    let (x, y) = (pow2((e - k - 1) as nat), pow2(k));
    assert(((b + m) * x) * y == (b + m) * (x * y)) by (nonlinear_arith);
}

/// Every positive whole number rounds to a pattern no smaller than that of 1.
proof fn lemma_nearest_at_least_one(r: Single, n: nat)
    requires
        r.is_nearest(whole(n as int)),
        n >= 1,
    ensures
        r.0 >= 127 * BINADE,
{
    let one = Single(0x3F80_0000);
    lemma2_to64();
    lemma_normal(127, BINADE as nat);
    lemma_pow2_adds(23, 126);
    assert(one.num() == whole(1));
    assert(whole(n as int) >= whole(1)) by (nonlinear_arith)
        requires
            n >= 1,
    ;
    lemma_num_order(r, one);
    if r.0 < one.0 {
        assert(gap(one.num(), whole(n as int)) < gap(r.num(), whole(n as int)));
    }
}

impl Single {
    /// `self` is `n` rounded to single precision and then divided by 2^k.
    pub open spec fn is_fixed(self, n: nat, k: nat) -> bool {
        &&& !self.is_negative()
        &&& self.is_finite()
        &&& exists|w: Single| #[trigger]
            w.is_nearest(whole(n as int)) && self.num() * pow2(k) == w.num()
    }

    /// The fixed-point number `n / 2^k`.
    pub fn from_fixed(n: u64, k: u32) -> (r: Single)
        requires
            k < 127,
        ensures
            r.is_fixed(n as nat, k as nat),
    {
        let w: Single = Single::from_u64(n);
        if n == 0 {
            proof {
                assert(0int * pow2(149) == 0) by (nonlinear_arith);
                lemma_nearest_exact(w, 0, Single(0));
                assert(0 * pow2(k as nat) == 0);
            }
            return w;
        }
        proof {
            lemma_nearest_at_least_one(w, n as nat);
            lemma_lower_exponent(w.0 as nat, k as nat);
        }
        Single(w.0 - k * 0x80_0000)
    }

    /// `self` is the signed fixed-point number `n / 2^k`, rounded as
    /// `is_fixed` has it.
    pub open spec fn is_signed_fixed(self, n: int, k: nat) -> bool {
        if n < 0 {
            self.negated().is_fixed((-n) as nat, k)
        } else {
            self.is_fixed(n as nat, k)
        }
    }

    /// The signed fixed-point number `n / 2^k`.
    pub fn from_signed_fixed(n: i32, k: u32) -> (r: Single)
        requires
            k < 127,
        ensures
            r.is_signed_fixed(n as int, k as nat),
    {
        if n < 0 {
            let m: i64 = -(n as i64);
            let r: Single = Single::from_fixed(m as u64, k).neg();
            r
        } else {
            Single::from_fixed(n as u64, k)
        }
    }

    /// The 24-bit draw `k` as the fraction `k / 2^24`, which is exact.
    pub fn from_draw(k: u32) -> (r: Single)
        requires
            k < 0x100_0000,
        ensures
            r.is_fraction(k as nat),
    {
        let r: Single = Single::from_fixed(k as u64, 24);
        proof {
            let w = choose|w: Single| #[trigger]
                w.is_nearest(whole(k as int)) && r.num() * pow2(24) == w.num();
            small_integers_are_exact(k as nat);
            let e = choose|e: Single| e.is_finite() && !e.is_negative() && #[trigger] e.num() == whole(k as int);
            lemma_nearest_exact(w, whole(k as int), e);
        }
        r
    }

    /// `self` is exactly `k / 2^24`.
    pub open spec fn is_fraction(self, k: nat) -> bool {
        &&& !self.is_negative()
        &&& self.is_finite()
        &&& self.num() * pow2(24) == whole(k as int)
    }
}

/// The fraction `k / 2^24`.
pub open spec fn unit(k: nat) -> Single {
    choose|s: Single| s.is_fraction(k)
}

/// A fraction has one pattern.
pub proof fn fractions_are_unique(a: Single, k: nat)
    requires
        a.is_fraction(k),
    ensures
        a == unit(k),
{
    let b = unit(k);
    lemma_pow2_pos(24);
    let p = pow2(24) as int;
    assert(a.num() == b.num()) by (nonlinear_arith)
        requires
            a.num() * p == b.num() * p,
            p > 0,
    ;
    lemma_num_order(a, b);
}

/// `n` has a single-precision pattern of its own.
pub open spec fn is_exact(n: nat) -> bool {
    exists|e: Single| e.is_finite() && !e.is_negative() && #[trigger] e.num() == whole(n as int)
}

/// Every whole number of at most 24 bits is exact.
pub proof fn small_integers_are_exact(n: nat)
    requires
        n <= 0x100_0000,
    ensures
        is_exact(n),
{
    lemma2_to64();
    if n == 0 {
        assert(Single(0).num() == whole(0));
    } else if n == 0x100_0000 {
        let e = Single(0x4B80_0000);
        lemma_normal(151, BINADE as nat);
        lemma_pow2_unfold(150);
        assert(e.num() == whole(n as int));
    } else {
        lemma_exact_below(n, 0);
    }
}

/// Doubling a 24-bit number until its top bit is set finds its pattern.
proof fn lemma_exact_below(n: nat, t: nat)
    requires
        0 < n,
        t <= 23,
        n * pow2(t) < 2 * BINADE,
    ensures
        is_exact(n),
    decreases 24 - t,
{
    let m = n * pow2(t);
    lemma2_to64();
    if m >= BINADE {
        let e = Single(((150 - t) * BINADE + m - BINADE) as u32);
        lemma_normal((150 - t) as nat, m);
        lemma_pow2_adds(t, (149 - t) as nat);
        let (a, b) = (pow2(t), pow2((149 - t) as nat));
        assert((n * a) * b == n * (a * b)) by (nonlinear_arith);
        assert(e.num() == whole(n as int));
    } else {
        lemma_pow2_unfold(t + 1);
        let (p, p1) = (pow2(t), pow2(t + 1));
        assert(n * p1 == 2 * (n * p)) by (nonlinear_arith)
            requires
                p1 == 2 * p,
        ;
        assert(n * p >= p) by (nonlinear_arith)
            requires
                n > 0,
        ;
        lemma_exact_below(n, t + 1);
    }
}

/// An exact whole number survives the trip through single precision.
pub proof fn exact_integers_round_trip(n: nat, r: Single, max: nat)
    requires
        is_exact(n),
        r.is_nearest(whole(n as int)),
        n <= max,
    ensures
        r.truncated(max) == n,
{
    let e = choose|e: Single| e.is_finite() && !e.is_negative() && #[trigger] e.num() == whole(n as int);
    lemma_nearest_exact(r, whole(n as int), e);
    lemma_pow2_pos(149);
    vstd::arithmetic::div_mod::lemma_div_by_multiple(n as int, pow2(149) as int);
}

/// The nearest single-precision number to `n`, ties to even.
pub open spec fn rounded(n: nat) -> Single {
    choose|s: Single| s.is_nearest(whole(n as int))
}

/// The single-precision number nearest to a signed whole number.
pub open spec fn signed_rounded(n: int) -> Single {
    if n < 0 {
        rounded((-n) as nat).negated()
    } else {
        rounded(n as nat)
    }
}

/// A larger number is not cut to a smaller one.
pub proof fn truncation_keeps_order(a: Single, b: Single, max: nat)
    requires
        a.at_most(b),
    ensures
        a.truncated(max) <= b.truncated(max),
{
    let big = pow2(149) as int;
    lemma_pow2_pos(149);
    if !a.is_negative() {
        let x = grid(a.magnitude()) as int;
        if b.is_negative() {
            vstd::arithmetic::div_mod::lemma_basic_div(0, big);
        } else {
            vstd::arithmetic::div_mod::lemma_div_is_ordered(
                x,
                grid(b.magnitude()) as int,
                big,
            );
        }
    }
}

impl Single {
    /// The nearest single-precision number to a count.
    pub fn from_count(n: u64) -> (r: Single)
        ensures
            r == rounded(n as nat),
    {
        let r: Single = Single::from_u64(n);
        proof {
            nearest_is_unique(r, rounded(n as nat), whole(n as int));
        }
        r
    }

    /// The nearest single-precision number to a length.
    pub fn from_signed(n: i32) -> (r: Single)
        ensures
            r == signed_rounded(n as int),
    {
        if n < 0 {
            let m: i64 = -(n as i64);
            Single::from_count(m as u64).neg()
        } else {
            Single::from_count(n as u64)
        }
    }

    pub fn from_usize(n: usize) -> (r: Single)
        ensures
            r == rounded(n as nat),
            r.is_nearest(whole(n as int)),
    {
        let r: Single = Single::from_u64(n as u64);
        proof {
            let c = rounded(n as nat);
            nearest_is_unique(r, c, whole(n as int));
        }
        r
    }
}

impl Single {
    /// Conversion to a 64-bit unsigned integer: cut towards zero, saturating.
    pub fn to_u64(self) -> (r: u64)
        ensures
            r == self.truncated(u64::MAX as nat),
    {
        if self.is_not_a_number() || self.0 >= SIGN {
            return 0;
        }
        let e: u32 = self.0 / 0x80_0000;
        let m: u32 = self.0 % 0x80_0000;
        let ghost big = pow2(149);
        proof {
            lemma_pow2_pos(149);
            lemma2_to64();
            lemma2_to64_rest();
        }
        if e < 127 {
            proof {
                if self.0 > 0 {
                    lemma_grid_increases(self.0 as nat, 127 * BINADE as nat);
                } else {
                    lemma_grid_increases(0, 127 * BINADE as nat);
                }
                lemma_normal(127, BINADE as nat);
                lemma_pow2_adds(23, 126);
                assert(grid(self.magnitude()) < big);
                vstd::arithmetic::div_mod::lemma_basic_div(grid(self.magnitude()) as int, big as int);
            }
            return 0;
        }
        let full: u64 = 0x80_0000 + m as u64;
        if e <= 150 {
            let mut p: u64 = 1;
            let mut k: u32 = e;
            while k < 150
                invariant
                    127 <= e <= k <= 150,
                    p == pow2((k - e) as nat),
                    p <= 0x80_0000,
                    pow2(23) == 0x80_0000,
                decreases 150 - k,
            {
                proof {
                    lemma_pow2_unfold((k + 1 - e) as nat);
                    if k + 1 - e < 23 {
                        lemma_pow2_strictly_increases((k + 1 - e) as nat, 23);
                    }
                }
                p = p * 2;
                k = k + 1;
            }
            proof {
                let x = pow2((e - 1) as nat);
                lemma_pow2_adds((e - 1) as nat, (150 - e) as nat);
                lemma_pow2_pos((e - 1) as nat);
                assert(big == p * x) by (nonlinear_arith)
                    requires
                        x * p == big,
                ;
                assert(grid(self.magnitude()) == full * x);
                assert((full * x) / (p * x) == full as int / (p as int)) by {
                    vstd::arithmetic::div_mod::lemma_div_denominator((full * x) as int, x as int, p as int);
                    vstd::arithmetic::div_mod::lemma_div_by_multiple(full as int, x as int);
                    assert(x * p == p * x) by (nonlinear_arith);
                }
            }
            return full / p;
        }
        if e > 190 {
            proof {
                lemma_grid_large(self.0 as nat);
                vstd::arithmetic::div_mod::lemma_div_is_ordered(
                    whole(0x1_0000_0000_0000_0000),
                    grid(self.magnitude()) as int,
                    big as int,
                );
                vstd::arithmetic::div_mod::lemma_div_by_multiple(0x1_0000_0000_0000_0000, big as int);
            }
            return u64::MAX;
        }
        let mut v: u64 = full;
        let mut k: u32 = 150;
        proof {
            assert(full * pow2(0) == full) by (nonlinear_arith)
                requires
                    pow2(0) == 1,
            ;
        }
        while k < e
            invariant
                150 <= k <= e <= 190,
                full < 0x100_0000,
                v == full * pow2((k - 150) as nat),
                pow2(40) == 0x100_0000_0000,
            decreases e - k,
        {
            proof {
                let (p, p1) = (pow2((k - 150) as nat), pow2((k + 1 - 150) as nat));
                lemma_pow2_unfold((k + 1 - 150) as nat);
                lemma_pow2_pos((k + 1 - 150) as nat);
                if k + 1 - 150 < 40 {
                    lemma_pow2_strictly_increases((k + 1 - 150) as nat, 40);
                }
                assert(full * p1 == 2 * (full * p)) by (nonlinear_arith)
                    requires
                        p1 == 2 * p,
                ;
                assert(full * p1 < 0x1_0000_0000_0000_0000) by (nonlinear_arith)
                    requires
                        full < 0x100_0000,
                        0 < p1 <= 0x100_0000_0000,
                ;
            }
            v = v * 2;
            k = k + 1;
        }
        proof {
            let p = pow2((e - 150) as nat);
            lemma_pow2_adds((e - 150) as nat, 149);
            assert(full * (p * big) == (full * p) * big) by (nonlinear_arith);
            vstd::arithmetic::div_mod::lemma_div_by_multiple(v as int, big as int);
        }
        v
    }

    /// Conversion to a 32-bit unsigned integer: cut towards zero, saturating.
    pub fn to_u32(self) -> (r: u32)
        ensures
            r == self.truncated(u32::MAX as nat),
    {
        let v: u64 = self.to_u64();
        if v > u32::MAX as u64 {
            u32::MAX
        } else {
            v as u32
        }
    }

    /// Conversion to a machine-sized unsigned integer: cut towards zero,
    /// saturating.
    pub fn to_usize(self) -> (r: usize)
        ensures
            r == self.truncated(usize::MAX as nat),
    {
        let v: u64 = self.to_u64();
        if v > usize::MAX as u64 {
            usize::MAX
        } else {
            v as usize
        }
    }
}

impl Single {
    /// What conversion to a 64-bit signed integer gives: the number cut towards
    /// zero, kept inside the type; 0 for what is not a number.
    pub open spec fn cut(self) -> int {
        let m = Single(self.magnitude() as u32).truncated(u64::MAX as nat) as int;
        if self.is_negative() {
            if m > 0x8000_0000_0000_0000 {
                -0x8000_0000_0000_0000
            } else {
                -m
            }
        } else if m > 0x7FFF_FFFF_FFFF_FFFF {
            0x7FFF_FFFF_FFFF_FFFF
        } else {
            m
        }
    }

    /// Conversion to a 64-bit signed integer: cut towards zero, saturating.
    pub fn to_i64(self) -> (r: i64)
        ensures
            r == self.cut(),
    {
        let m: u64 = self.abs().to_u64();
        if self.0 >= SIGN {
            if m >= 0x8000_0000_0000_0000 {
                i64::MIN
            } else {
                -(m as i64)
            }
        } else if m > 0x7FFF_FFFF_FFFF_FFFF {
            i64::MAX
        } else {
            m as i64
        }
    }
}

/// Patterns from 2^64 on.
proof fn lemma_grid_large(mag: nat)
    requires
        mag >= 191 * BINADE,
    ensures
        grid(mag) >= whole(0x1_0000_0000_0000_0000),
{
    let base = 191 * BINADE as nat;
    lemma2_to64();
    lemma_normal(191, BINADE as nat);
    lemma_pow2_adds(23, 190);
    lemma_pow2_adds(64, 149);
    if base < mag {
        lemma_grid_increases(base, mag);
    }
}

/// The total order tells every two patterns apart.
pub proof fn total_order_is_strict(a: Single, b: Single)
    ensures
        a.total_rank() == b.total_rank() <==> a == b,
{
}

/// On numbers that are not both zero, the total order is the numeric order.
pub proof fn total_order_extends_numeric(a: Single, b: Single)
    requires
        !a.is_nan(),
        !b.is_nan(),
        a.num() != b.num(),
    ensures
        a.below(b) <==> a.total_rank() < b.total_rank(),
{
    lemma_num_order(a, b);
}

} // verus!
