//! Conversions between doubles and other numbers, and the part after the point.

use vstd::prelude::*;
use vstd::arithmetic::power2::{lemma2_to64, lemma_pow2_adds, lemma_pow2_pos, lemma_pow2_strictly_increases, pow2};
use crate::binary64::arithmetic::{lemma_nearest_zero, quiet_nan, rounded, unpack};
use crate::binary64::model::{signed, size, Binary64, BINADE, INFINITY, UNIT_EXPONENT};
use crate::binary64::rounding::{approximates, lemma_binades, power, round, BIAS};

verus! {

/// 1, in units.
pub open spec fn one_in_units() -> nat {
    pow2(UNIT_EXPONENT as nat)
}

/// The double nearest to a whole number.
pub open spec fn from_whole(n: nat) -> Binary64 {
    rounded(false, n * one_in_units(), 1)
}

/// The double with the value of the single-precision number that has the given bit
/// pattern.
pub open spec fn from_single(bits: u32) -> Binary64 {
    let negative = bits >= 0x8000_0000;
    let m: nat = if negative { (bits - 0x8000_0000) as nat } else { bits as nat };
    if m > 0x7F80_0000 {
        quiet_nan()
    } else if m == 0x7F80_0000 {
        signed(negative, INFINITY as nat)
    } else {
        rounded(negative, single_size(m) * pow2(925), 1)
    }
}

/// The exact value of a single-precision magnitude pattern, in units of 2^-149.
pub open spec fn single_size(m: nat) -> nat {
    if m < 0x80_0000 {
        m
    } else {
        (0x80_0000 + m % 0x80_0000) * pow2((m / 0x80_0000 - 1) as nat)
    }
}

/// The whole number below a double: 0 for a NaN and below zero, and at most
/// `u64::MAX`.
pub open spec fn truncated(a: Binary64) -> nat {
    if a.is_nan_spec() || a.negative() {
        0
    } else if a.infinite() || size(a.magnitude()) / one_in_units() > u64::MAX {
        u64::MAX as nat
    } else {
        size(a.magnitude()) / one_in_units()
    }
}

/// `a % 1.0`: the part after the point, with the sign of `a`.
pub open spec fn fraction(a: Binary64) -> Binary64 {
    if a.finite() {
        rounded(a.negative(), size(a.magnitude()) % one_in_units(), 1)
    } else {
        quiet_nan()
    }
}

impl Binary64 {
    /// The double nearest to `n`.
    pub fn from_u64(n: u64) -> (r: Binary64)
        ensures
            r == from_whole(n as nat),
    {
        let ghost v = n as nat * one_in_units();
        if n == 0 {
            proof {
                assert(v == 0);
                lemma_nearest_zero(1);
            }
            return Self::with_sign(false, 0);
        }
        let k: u32 = UNIT_EXPONENT + BIAS;
        let p: u64 = round(n as u128, k, false);
        proof {
            lemma_pow2_adds(UNIT_EXPONENT as nat, BIAS as nat);
            let w = pow2(BIAS as nat);
            assert(v * w == n as nat * (pow2(k as nat) * 1)) by (nonlinear_arith)
                requires
                    v == n as nat * one_in_units(),
                    pow2(k as nat) == one_in_units() * w,
            ;
            assert(approximates(n as u128 as nat, k as nat, false, v, 1));
        }
        Self::with_sign(false, p)
    }

    /// The double with the value of a single-precision bit pattern.
    pub fn from_single_bits(bits: u32) -> (r: Binary64)
        ensures
            r == from_single(bits),
    {
        let negative: bool = bits >= 0x8000_0000;
        let m: u32 = if negative { bits - 0x8000_0000 } else { bits };
        if m > 0x7F80_0000 {
            return Self::nan();
        }
        if m == 0x7F80_0000 {
            return Self::with_sign(negative, INFINITY);
        }
        let ghost v = single_size(m as nat) * pow2(925);
        if m == 0 {
            proof {
                assert(v == 0) by (nonlinear_arith)
                    requires
                        v == 0 * pow2(925),
                ;
                lemma_nearest_zero(1);
            }
            return Self::with_sign(negative, 0);
        }
        let (s, t): (u32, u32) = if m < 0x80_0000 {
            (m, 0)
        } else {
            (0x80_0000 + m % 0x80_0000, m / 0x80_0000 - 1)
        };
        let k: u32 = t + 925 + BIAS;
        let p: u64 = round(s as u128, k, false);
        proof {
            let w = pow2(BIAS as nat);
            lemma2_to64();
            lemma_pow2_adds(t as nat, 925);
            lemma_pow2_adds((t + 925) as nat, BIAS as nat);
            assert(single_size(m as nat) == s as nat * pow2(t as nat));
            assert(v * w == s as nat * (pow2(k as nat) * 1)) by (nonlinear_arith)
                requires
                    v == (s as nat * pow2(t as nat)) * pow2(925),
                    pow2(k as nat) == (pow2(t as nat) * pow2(925)) * w,
            ;
            assert(approximates(s as u128 as nat, k as nat, false, v, 1));
        }
        Self::with_sign(negative, p)
    }

    /// The whole number below a double, held within `u64`.
    pub fn to_u64(self) -> (r: u64)
        ensures
            r == truncated(self),
    {
        let ma: u64 = self.pattern();
        if ma > INFINITY || self.is_negative() {
            return 0;
        }
        if ma == INFINITY {
            return u64::MAX;
        }
        let (s, t) = unpack(ma);
        let ghost one = one_in_units();
        proof {
            lemma_pow2_pos(UNIT_EXPONENT as nat);
            lemma_pow2_pos(t as nat);
            lemma2_to64();
            lemma_binades();
        }
        if t >= UNIT_EXPONENT {
            let g: u32 = t - UNIT_EXPONENT;
            proof {
                lemma_pow2_adds(g as nat, UNIT_EXPONENT as nat);
                let f = pow2(g as nat);
                assert(size(ma as nat) == (s as nat * f) * one) by (nonlinear_arith)
                    requires
                        size(ma as nat) == s as nat * pow2(t as nat),
                        pow2(t as nat) == f * one,
                ;
                vstd::arithmetic::div_mod::lemma_div_by_multiple((s as nat * f) as int, one as int);
            }
            if g >= 12 {
                proof {
                    let f = pow2(g as nat);
                    if g > 12 {
                        lemma_pow2_strictly_increases(12, g as nat);
                    }
                    assert(s as nat * f >= 0x1_0000_0000_0000_0000) by (nonlinear_arith)
                        requires
                            s >= BINADE,
                            f >= 4096,
                    ;
                }
                return u64::MAX;
            }
            let f: u128 = power(g);
            proof {
                if g < 12 {
                    lemma_pow2_strictly_increases(g as nat, 12);
                }
                assert(s * f < 0x2_0000_0000_0000_0000) by (nonlinear_arith)
                    requires
                        s < 2 * BINADE,
                        f <= 4096,
                ;
            }
            let r: u128 = s as u128 * f;
            if r > u64::MAX as u128 {
                return u64::MAX;
            }
            return r as u64;
        }
        let g: u32 = UNIT_EXPONENT - t;
        proof {
            lemma_pow2_adds(g as nat, t as nat);
            lemma_pow2_pos(g as nat);
            let e = pow2(t as nat);
            let f = pow2(g as nat);
            assert(f * e == e * f) by (nonlinear_arith);
            vstd::arithmetic::mul::lemma_mul_is_commutative(s as int, e as int);
            vstd::arithmetic::div_mod::lemma_div_denominator(size(ma as nat) as int, e as int, f as int);
            vstd::arithmetic::div_mod::lemma_div_by_multiple(s as int, e as int);
        }
        if g >= 53 {
            proof {
                if g > 53 {
                    lemma_pow2_strictly_increases(53, g as nat);
                }
                vstd::arithmetic::div_mod::lemma_basic_div(s as int, pow2(g as nat) as int);
            }
            return 0;
        }
        let f: u128 = power(g);
        let r: u128 = s as u128 / f;
        proof {
            vstd::arithmetic::div_mod::lemma_div_is_ordered_by_denominator(s as int, 1, f as int);
        }
        r as u64
    }

    /// `self % 1.0`.
    pub fn fract(self) -> (r: Binary64)
        ensures
            r == fraction(self),
    {
        let ma: u64 = self.pattern();
        if ma >= INFINITY {
            return Self::nan();
        }
        let negative: bool = self.is_negative();
        let (s, t) = unpack(ma);
        let ghost one = one_in_units();
        let ghost n = size(ma as nat) % one;
        proof {
            lemma_pow2_pos(UNIT_EXPONENT as nat);
            lemma_pow2_pos(t as nat);
            lemma_binades();
            lemma_nearest_zero(1);
        }
        if t >= UNIT_EXPONENT {
            proof {
                let g = (t - UNIT_EXPONENT) as nat;
                lemma_pow2_adds(g, UNIT_EXPONENT as nat);
                let f = pow2(g);
                assert(size(ma as nat) == (s as nat * f) * one) by (nonlinear_arith)
                    requires
                        size(ma as nat) == s as nat * pow2(t as nat),
                        pow2(t as nat) == f * one,
                ;
                vstd::arithmetic::div_mod::lemma_mod_multiples_basic((s as nat * f) as int, one as int);
            }
            return Self::with_sign(negative, 0);
        }
        let g: u32 = UNIT_EXPONENT - t;
        proof {
            lemma_pow2_adds(t as nat, g as nat);
            lemma_pow2_pos(g as nat);
        }
        let ghost low: nat = s as nat % pow2(g as nat);
        proof {
            let e = pow2(t as nat);
            let f = pow2(g as nat);
            vstd::arithmetic::mul::lemma_mul_is_commutative(s as int, e as int);
            vstd::arithmetic::div_mod::lemma_truncate_middle(s as int, e as int, f as int);
            assert(n == e * low);
        }
        let m: u128 = if g >= 53 {
            proof {
                if g > 53 {
                    lemma_pow2_strictly_increases(53, g as nat);
                }
                vstd::arithmetic::div_mod::lemma_small_mod(s as nat, pow2(g as nat));
            }
            s as u128
        } else {
            s as u128 % power(g)
        };
        if m == 0 {
            proof {
                assert(n == 0) by (nonlinear_arith)
                    requires
                        n == pow2(t as nat) * low,
                        low == 0,
                ;
            }
            return Self::with_sign(negative, 0);
        }
        let k: u32 = t + BIAS;
        let p: u64 = round(m, k, false);
        proof {
            let w = pow2(BIAS as nat);
            lemma_pow2_adds(t as nat, BIAS as nat);
            assert(n * w == m as nat * (pow2(k as nat) * 1)) by (nonlinear_arith)
                requires
                    n == pow2(t as nat) * low,
                    m as nat == low,
                    pow2(k as nat) == pow2(t as nat) * w,
            ;
            assert(approximates(m as nat, k as nat, false, n, 1));
        }
        Self::with_sign(negative, p)
    }
}

} // verus!
