//! Comparison and the operations that only select or change a sign.

use vstd::prelude::*;
use crate::binary64::arithmetic::quiet_nan;
use crate::binary64::model::{lemma_size_order, signed, Binary64, INFINITY};

verus! {

/// The bit pattern of 1.
pub const ONE: u64 = 0x3FF0_0000_0000_0000;

/// `a < b`: false where either is a NaN, and between the two zeros.
pub open spec fn less(a: Binary64, b: Binary64) -> bool {
    !a.is_nan_spec() && !b.is_nan_spec() && a.rank() < b.rank()
}

/// `a == b` as numbers: false where either is a NaN, true between the two zeros.
pub open spec fn same(a: Binary64, b: Binary64) -> bool {
    !a.is_nan_spec() && !b.is_nan_spec() && a.rank() == b.rank()
}

/// `a` without its sign.
pub open spec fn absolute(a: Binary64) -> Binary64 {
    signed(false, a.magnitude())
}

/// The smaller of two numbers; where one is a NaN, the other.
pub open spec fn least(a: Binary64, b: Binary64) -> Binary64 {
    if a.is_nan_spec() || less(b, a) {
        b
    } else {
        a
    }
}

/// The larger of two numbers; where one is a NaN, the other.
pub open spec fn greatest(a: Binary64, b: Binary64) -> Binary64 {
    if a.is_nan_spec() || less(a, b) {
        b
    } else {
        a
    }
}

/// `a`, moved into `low ..= high`; a NaN stays what it is.
pub open spec fn clamped(a: Binary64, low: Binary64, high: Binary64) -> Binary64 {
    if less(a, low) {
        low
    } else if less(high, a) {
        high
    } else {
        a
    }
}

/// 1 with the sign of `a`; a NaN for a NaN.
pub open spec fn sign_of(a: Binary64) -> Binary64 {
    if a.is_nan_spec() {
        quiet_nan()
    } else {
        signed(a.negative(), ONE as nat)
    }
}

/// On finite doubles the order is that of the exact values.
pub proof fn law_order_is_exact(a: Binary64, b: Binary64)
    requires
        a.finite(),
        b.finite(),
    ensures
        less(a, b) <==> a.units() < b.units(),
        same(a, b) <==> a.units() == b.units(),
{
    lemma_size_order(a.magnitude(), b.magnitude());
    lemma_size_order(0, a.magnitude());
    lemma_size_order(0, b.magnitude());
    crate::binary64::model::lemma_size_small();
}

impl Binary64 {
    /// Whether this is no number.
    pub fn is_nan(self) -> (r: bool)
        ensures
            r == self.is_nan_spec(),
    {
        self.pattern() > INFINITY
    }

    /// `self < other`.
    pub fn lt(self, other: Binary64) -> (r: bool)
        ensures
            r == less(self, other),
    {
        let ma: u64 = self.pattern();
        let mb: u64 = other.pattern();
        if ma > INFINITY || mb > INFINITY {
            return false;
        }
        match (self.is_negative(), other.is_negative()) {
            (false, false) => ma < mb,
            (true, true) => mb < ma,
            (true, false) => ma > 0 || mb > 0,
            (false, true) => false,
        }
    }

    /// `self > other`.
    pub fn gt(self, other: Binary64) -> (r: bool)
        ensures
            r == less(other, self),
    {
        other.lt(self)
    }

    /// `self == other`, as numbers.
    pub fn equal(self, other: Binary64) -> (r: bool)
        ensures
            r == same(self, other),
    {
        let ma: u64 = self.pattern();
        let mb: u64 = other.pattern();
        if ma > INFINITY || mb > INFINITY {
            return false;
        }
        ma == mb && (ma == 0 || self.is_negative() == other.is_negative())
    }

    /// `self` without its sign.
    pub fn abs(self) -> (r: Binary64)
        ensures
            r == absolute(self),
    {
        Self::with_sign(false, self.pattern())
    }

    /// The smaller of two numbers; where one is a NaN, the other.
    pub fn min(self, other: Binary64) -> (r: Binary64)
        ensures
            r == least(self, other),
    {
        if self.is_nan() || other.lt(self) { other } else { self }
    }

    /// The larger of two numbers; where one is a NaN, the other.
    pub fn max(self, other: Binary64) -> (r: Binary64)
        ensures
            r == greatest(self, other),
    {
        if self.is_nan() || self.lt(other) { other } else { self }
    }

    /// `self`, moved into `low ..= high`.
    pub fn clamp(self, low: Binary64, high: Binary64) -> (r: Binary64)
        requires
            less(low, high) || same(low, high),
        ensures
            r == clamped(self, low, high),
    {
        if self.lt(low) {
            low
        } else if high.lt(self) {
            high
        } else {
            self
        }
    }

    /// 1 with the sign of `self`.
    pub fn signum(self) -> (r: Binary64)
        ensures
            r == sign_of(self),
    {
        if self.is_nan() { Self::nan() } else { Self::with_sign(self.is_negative(), ONE) }
    }
}

/// The smaller and the larger of two numbers are one of them each, and nothing lies beyond;
/// where one is a NaN, the other is taken.
pub proof fn law_smaller_and_larger(a: Binary64, b: Binary64)
    ensures
        a.is_nan_spec() ==> least(a, b) == b && greatest(a, b) == b,
        b.is_nan_spec() && !a.is_nan_spec() ==> least(a, b) == a && greatest(a, b) == a,
        !a.is_nan_spec() && !b.is_nan_spec() ==> {
            &&& least(a, b) == a || least(a, b) == b
            &&& greatest(a, b) == a || greatest(a, b) == b
            &&& least(a, b).rank() <= a.rank() && least(a, b).rank() <= b.rank()
            &&& greatest(a, b).rank() >= a.rank() && greatest(a, b).rank() >= b.rank()
        },
{
}

/// A number that is held within limits stays what it is within them and is the nearer limit
/// beyond; a NaN stays a NaN.
pub proof fn law_held_within(a: Binary64, low: Binary64, high: Binary64)
    requires
        !low.is_nan_spec() && !high.is_nan_spec() && low.rank() <= high.rank(),
    ensures
        a.is_nan_spec() ==> clamped(a, low, high) == a,
        !a.is_nan_spec() && low.rank() <= a.rank() <= high.rank() ==> clamped(a, low, high) == a,
        !a.is_nan_spec() && a.rank() < low.rank() ==> clamped(a, low, high) == low,
        !a.is_nan_spec() && a.rank() > high.rank() ==> clamped(a, low, high) == high,
{
}

/// Without its sign a number keeps its size; its sign alone has the size of one.
pub proof fn law_size_and_sign(a: Binary64)
    requires
        !a.is_nan_spec(),
    ensures
        absolute(a).magnitude() == a.magnitude() && !absolute(a).negative(),
        sign_of(a).magnitude() == ONE && sign_of(a).negative() == a.negative(),
{
}

} // verus!
