//! What a double-precision number is, as mathematics.
//!
//! Every finite double is a whole multiple of 2^-1074, so its exact value is an
//! integer once it is counted in that unit.  Magnitudes are held as bit patterns
//! without the sign; consecutive patterns are consecutive doubles, and the pattern
//! of infinity continues the scale with 2^1024.

use vstd::prelude::*;
use vstd::arithmetic::power2::{lemma2_to64, lemma_pow2_pos, lemma_pow2_unfold, pow2};

verus! {

/// The bit that carries the sign.
pub const SIGN_BIT: u64 = 0x8000_0000_0000_0000;

/// 2^52: how many doubles share one exponent.
pub const BINADE: u64 = 0x0010_0000_0000_0000;

/// The bit pattern of positive infinity.
pub const INFINITY: u64 = 0x7FF0_0000_0000_0000;

/// The bit pattern of the quiet NaN that every invalid operation returns.
pub const QUIET_NAN: u64 = 0x7FF8_0000_0000_0000;

/// The exponent of the unit: one is 2^1074 units.
pub const UNIT_EXPONENT: u32 = 1074;

/// An IEEE 754 double, held as its bit pattern.
///
/// `==` compares patterns, so it tells the two zeros apart and finds a NaN equal to
/// itself; [`Binary64::equal`](crate::binary64) compares numbers.
#[derive(Clone, Copy, Debug, PartialEq, Eq, Structural)]
pub struct Binary64 {
    pub bits: u64,
}

impl Binary64 {
    /// Whether the sign bit is set.
    pub open spec fn negative(self) -> bool {
        self.bits >= SIGN_BIT
    }

    /// The bit pattern without the sign.
    pub open spec fn magnitude(self) -> nat {
        if self.negative() {
            (self.bits - SIGN_BIT) as nat
        } else {
            self.bits as nat
        }
    }

    /// No number.
    pub open spec fn is_nan_spec(self) -> bool {
        self.magnitude() > INFINITY
    }

    /// One of the two infinities.
    pub open spec fn infinite(self) -> bool {
        self.magnitude() == INFINITY
    }

    /// A number that is no infinity.
    pub open spec fn finite(self) -> bool {
        self.magnitude() < INFINITY
    }

    /// One of the two zeros.
    pub open spec fn is_zero(self) -> bool {
        self.magnitude() == 0
    }

    /// The place of a number in the order of all doubles; both zeros have place 0.
    pub open spec fn rank(self) -> int {
        if self.negative() {
            -(self.magnitude() as int)
        } else {
            self.magnitude() as int
        }
    }

    /// The exact value of a finite double, in units of 2^-1074.
    pub open spec fn units(self) -> int {
        if self.negative() {
            -(size(self.magnitude()) as int)
        } else {
            size(self.magnitude()) as int
        }
    }
}

/// The double with a given sign and magnitude pattern.
pub open spec fn signed(negative: bool, m: nat) -> Binary64 {
    Binary64 { bits: (if negative { m + SIGN_BIT } else { m as int }) as u64 }
}

/// How often the significand of a magnitude pattern is doubled.
pub open spec fn exponent(m: nat) -> nat {
    if m < BINADE {
        0
    } else {
        (m / BINADE as nat - 1) as nat
    }
}

/// The significand of a magnitude pattern, the hidden bit included.
pub open spec fn significand(m: nat) -> nat {
    if m < BINADE {
        m
    } else {
        BINADE as nat + m % BINADE as nat
    }
}

/// The exact value of a magnitude pattern, in units of 2^-1074.
pub open spec fn size(m: nat) -> nat {
    significand(m) * pow2(exponent(m))
}

/// `p` is the magnitude nearest to `n / d` units; of two that are equally near, the
/// one with the even pattern; infinity from half-way past the largest finite double.
pub open spec fn rounds_to(n: nat, d: nat, p: nat) -> bool {
    &&& p <= INFINITY
    &&& p > 0 ==> above_middle(n, d, (p - 1) as nat) || (on_middle(n, d, (p - 1) as nat) && p % 2 == 0)
    &&& p < INFINITY ==> below_middle(n, d, p) || (on_middle(n, d, p) && p % 2 == 0)
}

/// `n / d` lies above the middle between the magnitudes `p` and `p + 1`.
pub open spec fn above_middle(n: nat, d: nat, p: nat) -> bool {
    2 * n > (size(p) + size(p + 1)) * d
}

/// `n / d` is the middle between the magnitudes `p` and `p + 1`.
pub open spec fn on_middle(n: nat, d: nat, p: nat) -> bool {
    2 * n == (size(p) + size(p + 1)) * d
}

/// `n / d` lies below the middle between the magnitudes `p` and `p + 1`.
pub open spec fn below_middle(n: nat, d: nat, p: nat) -> bool {
    2 * n < (size(p) + size(p + 1)) * d
}

/// The magnitude to which `n / d` units is rounded.
pub open spec fn nearest(n: nat, d: nat) -> nat {
    choose|p: nat| rounds_to(n, d, p)
}

/// A pattern is its exponent and its significand written in base 2^52.
pub proof fn lemma_parts(m: nat)
    ensures
        m == exponent(m) * BINADE + significand(m),
        significand(m) < 2 * BINADE,
        exponent(m) > 0 ==> significand(m) >= BINADE,
{
}

/// The value of the pattern made of exponent `t` and significand `s`.
pub proof fn lemma_size_of(t: nat, s: nat)
    requires
        s <= 2 * BINADE,
        t > 0 ==> s >= BINADE,
    ensures
        size(t * BINADE as nat + s) == s * pow2(t),
{
    let m = t * BINADE as nat + s;
    if s == 2 * BINADE {
        assert(m == (t + 2) * BINADE);
        assert(exponent(m) == t + 1);
        assert(significand(m) == BINADE);
        lemma_pow2_unfold(t + 1);
        assert(BINADE * (2 * pow2(t)) == 2 * BINADE * pow2(t)) by (nonlinear_arith);
    } else if m >= BINADE {
        if s < BINADE {
            assert(t == 0);
        }
        assert(m / BINADE as nat == t + 1 && m % BINADE as nat == s - BINADE);
        assert(exponent(m) == t && significand(m) == s);
    } else {
        assert(t == 0);
    }
}

/// The smallest patterns count units.
pub proof fn lemma_size_small()
    ensures
        size(0) == 0,
        size(1) == 1,
{
    lemma2_to64();
    assert(size(0) == 0 && size(1) == 1) by (nonlinear_arith)
        requires
            size(0) == 0 * pow2(0),
            size(1) == 1 * pow2(0),
            pow2(0) == 1,
    ;
}

/// The next pattern is larger by the weight of one significand step.
pub proof fn lemma_size_next(m: nat)
    ensures
        size(m + 1) == size(m) + pow2(exponent(m)),
        size(m) < size(m + 1),
{
    let t = exponent(m);
    let s = significand(m);
    lemma_parts(m);
    lemma_size_of(t, s + 1);
    lemma_pow2_pos(t);
    assert((s + 1) * pow2(t) == s * pow2(t) + pow2(t)) by (nonlinear_arith);
}

/// Larger patterns are larger numbers.
pub proof fn lemma_size_grows(a: nat, b: nat)
    requires
        a < b,
    ensures
        size(a) < size(b),
    decreases b,
{
    lemma_size_next((b - 1) as nat);
    if a < b - 1 {
        lemma_size_grows(a, (b - 1) as nat);
    }
}

/// The order of patterns is the order of values.
pub proof fn lemma_size_order(a: nat, b: nat)
    ensures
        size(a) < size(b) <==> a < b,
        size(a) == size(b) <==> a == b,
{
    if a < b {
        lemma_size_grows(a, b);
    } else if b < a {
        lemma_size_grows(b, a);
    }
}

/// A number is rounded to one magnitude only.
pub proof fn lemma_rounds_once(n: nat, d: nat, p: nat, q: nat)
    requires
        d > 0,
        rounds_to(n, d, p),
        rounds_to(n, d, q),
    ensures
        p == q,
{
    if p < q {
        lemma_rounds_apart(n, d, p, q);
    } else if q < p {
        lemma_rounds_apart(n, d, q, p);
    }
}

proof fn lemma_rounds_apart(n: nat, d: nat, p: nat, q: nat)
    requires
        d > 0,
        p < q,
        rounds_to(n, d, p),
    ensures
        !rounds_to(n, d, q),
{
    let r = (q - 1) as nat;
    let low = size(p) + size(p + 1);
    let high = size(r) + size(r + 1);
    if p < r {
        lemma_size_grows(p, r);
        lemma_size_grows(p + 1, r + 1);
        assert(low * d < high * d) by (nonlinear_arith)
            requires
                low < high,
                d > 0,
        ;
    }
}

/// Whatever is found to be the rounding of `n / d` is what `nearest` names.
pub proof fn lemma_nearest_is(n: nat, d: nat, p: nat)
    requires
        d > 0,
        rounds_to(n, d, p),
    ensures
        nearest(n, d) == p,
{
    lemma_rounds_once(n, d, p, nearest(n, d));
}

/// A number between two neighbours is rounded to one of them, by the side of the
/// middle on which it lies.
pub proof fn lemma_between(n: nat, d: nat, q: nat)
    requires
        d > 0,
        q < INFINITY,
        size(q) * d <= n < size(q + 1) * d,
    ensures
        below_middle(n, d, q) || (on_middle(n, d, q) && q % 2 == 0) ==> rounds_to(n, d, q),
        above_middle(n, d, q) || (on_middle(n, d, q) && q % 2 == 1) ==> rounds_to(n, d, q + 1),
{
    lemma_size_next(q);
    lemma_size_next(q + 1);
    if q > 0 {
        lemma_size_next((q - 1) as nat);
        assert((size((q - 1) as nat) + size(q)) * d < 2 * (size(q) * d)) by (nonlinear_arith)
            requires
                size((q - 1) as nat) < size(q),
                d > 0,
        ;
    }
    assert(2 * (size(q + 1) * d) < (size(q + 1) + size(q + 2)) * d) by (nonlinear_arith)
        requires
            size(q + 1) < size(q + 2),
            d > 0,
    ;
}

/// From the pattern of infinity on, a number is rounded to infinity.
pub proof fn lemma_beyond(n: nat, d: nat)
    requires
        d > 0,
        n >= size(INFINITY as nat) * d,
    ensures
        rounds_to(n, d, INFINITY as nat),
{
    let q = (INFINITY - 1) as nat;
    lemma_size_next(q);
    assert((size(q) + size(q + 1)) * d < 2 * (size(q + 1) * d)) by (nonlinear_arith)
        requires
            size(q) < size(q + 1),
            d > 0,
    ;
}

/// Every number is rounded to something.
pub proof fn lemma_nearest_exists(n: nat, d: nat)
    requires
        d > 0,
    ensures
        rounds_to(n, d, nearest(n, d)),
{
    lemma_size_small();
    lemma_nearest_from(n, d, 0);
}

proof fn lemma_nearest_from(n: nat, d: nat, q: nat)
    requires
        d > 0,
        q <= INFINITY,
        size(q) * d <= n,
    ensures
        rounds_to(n, d, nearest(n, d)),
    decreases INFINITY - q,
{
    if q == INFINITY {
        lemma_beyond(n, d);
    } else if n < size(q + 1) * d {
        lemma_between(n, d, q);
    } else {
        lemma_nearest_from(n, d, q + 1);
    }
}

} // verus!
