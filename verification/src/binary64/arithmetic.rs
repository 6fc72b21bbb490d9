//! Sum, difference, product and quotient: the exact result, rounded once.

use vstd::prelude::*;
use vstd::arithmetic::power2::{lemma_pow2_adds, lemma_pow2_pos, lemma_pow2_strictly_increases, pow2};
use crate::binary64::model::{
    below_middle, exponent, lemma_nearest_is, lemma_parts, lemma_size_order, lemma_size_small, nearest, rounds_to,
    signed, significand, size, Binary64, BINADE, INFINITY, QUIET_NAN, SIGN_BIT, UNIT_EXPONENT,
};
use crate::binary64::rounding::{approximates, bit_length, lemma_binades, power, round, BIAS};

verus! {

/// The quiet NaN.
pub open spec fn quiet_nan() -> Binary64 {
    Binary64 { bits: QUIET_NAN }
}

/// `n / d` units, rounded, with a given sign.
pub open spec fn rounded(negative: bool, n: nat, d: nat) -> Binary64 {
    signed(negative, nearest(n, d))
}

/// A number without its sign.
pub open spec fn distance_from_zero(v: int) -> nat {
    if v < 0 {
        (-v) as nat
    } else {
        v as nat
    }
}

/// `a + b`.
pub open spec fn sum(a: Binary64, b: Binary64) -> Binary64 {
    if a.is_nan_spec() || b.is_nan_spec() {
        quiet_nan()
    } else if a.infinite() && b.infinite() && a.negative() != b.negative() {
        quiet_nan()
    } else if a.infinite() {
        a
    } else if b.infinite() {
        b
    } else {
        let v = a.units() + b.units();
        if v == 0 {
            signed(a.negative() && b.negative(), 0)
        } else {
            rounded(v < 0, distance_from_zero(v), 1)
        }
    }
}

/// `-a`.
pub open spec fn opposite(a: Binary64) -> Binary64 {
    Binary64 { bits: if a.negative() { (a.bits - SIGN_BIT) as u64 } else { (a.bits + SIGN_BIT) as u64 } }
}

/// `a - b`.
pub open spec fn difference(a: Binary64, b: Binary64) -> Binary64 {
    sum(a, opposite(b))
}

/// `a * b`.
pub open spec fn product(a: Binary64, b: Binary64) -> Binary64 {
    let negative = a.negative() != b.negative();
    if a.is_nan_spec() || b.is_nan_spec() {
        quiet_nan()
    } else if (a.infinite() && b.is_zero()) || (a.is_zero() && b.infinite()) {
        quiet_nan()
    } else if a.infinite() || b.infinite() {
        signed(negative, INFINITY as nat)
    } else {
        rounded(negative, size(a.magnitude()) * size(b.magnitude()), pow2(UNIT_EXPONENT as nat))
    }
}

/// `a / b`.
pub open spec fn quotient(a: Binary64, b: Binary64) -> Binary64 {
    let negative = a.negative() != b.negative();
    if a.is_nan_spec() || b.is_nan_spec() {
        quiet_nan()
    } else if (a.infinite() && b.infinite()) || (a.is_zero() && b.is_zero()) {
        quiet_nan()
    } else if a.infinite() || b.is_zero() {
        signed(negative, INFINITY as nat)
    } else if b.infinite() {
        signed(negative, 0)
    } else {
        rounded(negative, size(a.magnitude()) * pow2(UNIT_EXPONENT as nat), size(b.magnitude()))
    }
}

/// Zero is rounded to zero.
pub proof fn lemma_nearest_zero(d: nat)
    requires
        d > 0,
    ensures
        rounds_to(0, d, 0),
        nearest(0, d) == 0,
{
    lemma_size_small();
    assert((size(0) + size(1)) * d == d) by (nonlinear_arith)
        requires
            size(0) + size(1) == 1,
    ;
    assert(below_middle(0, d, 0));
    lemma_nearest_is(0, d, 0);
}

/// A pattern stands for a positive number unless it is zero.
pub proof fn lemma_size_positive(m: nat)
    ensures
        m > 0 <==> size(m) > 0,
{
    lemma_size_small();
    lemma_size_order(0, m);
}

impl Binary64 {
    /// The double with the given bit pattern.
    pub fn from_bits(bits: u64) -> (r: Binary64)
        ensures
            r.bits == bits,
    {
        Binary64 { bits }
    }

    /// Whether the sign bit is set.
    pub fn is_negative(self) -> (r: bool)
        ensures
            r == self.negative(),
    {
        self.bits >= SIGN_BIT
    }

    /// The bit pattern without the sign.
    pub(crate) fn pattern(self) -> (r: u64)
        ensures
            r == self.magnitude(),
            r < SIGN_BIT,
    {
        if self.bits >= SIGN_BIT { self.bits - SIGN_BIT } else { self.bits }
    }

    /// The double with a given sign and magnitude pattern.
    pub(crate) fn with_sign(negative: bool, m: u64) -> (r: Binary64)
        requires
            m < SIGN_BIT,
        ensures
            r == signed(negative, m as nat),
            r.negative() == negative,
            r.magnitude() == m,
    {
        Binary64 { bits: if negative { m + SIGN_BIT } else { m } }
    }

    /// The quiet NaN.
    pub(crate) fn nan() -> (r: Binary64)
        ensures
            r == quiet_nan(),
    {
        Binary64 { bits: QUIET_NAN }
    }

    /// `-self`.
    pub fn negated(self) -> (r: Binary64)
        ensures
            r == opposite(self),
    {
        Binary64 { bits: if self.bits >= SIGN_BIT { self.bits - SIGN_BIT } else { self.bits + SIGN_BIT } }
    }

    /// `self + other`.
    pub fn plus(self, other: Binary64) -> (r: Binary64)
        ensures
            r == sum(self, other),
    {
        let ma: u64 = self.pattern();
        let mb: u64 = other.pattern();
        let na: bool = self.is_negative();
        let nb: bool = other.is_negative();
        if ma > INFINITY || mb > INFINITY {
            return Self::nan();
        }
        if ma == INFINITY && mb == INFINITY && na != nb {
            return Self::nan();
        }
        if ma == INFINITY {
            return self;
        }
        if mb == INFINITY {
            return other;
        }
        proof {
            lemma_size_order(ma as nat, mb as nat);
            lemma_size_positive(ma as nat);
            lemma_size_positive(mb as nat);
        }
        if ma == mb && (na != nb || ma == 0) {
            return Self::with_sign(na && nb, 0);
        }
        let subtract: bool = na != nb;
        if ma >= mb {
            Self::with_sign(na, combine(ma, mb, subtract))
        } else {
            Self::with_sign(nb, combine(mb, ma, subtract))
        }
    }

    /// `self - other`.
    pub fn minus(self, other: Binary64) -> (r: Binary64)
        ensures
            r == difference(self, other),
    {
        self.plus(other.negated())
    }

    /// `self * other`.
    pub fn times(self, other: Binary64) -> (r: Binary64)
        ensures
            r == product(self, other),
    {
        let ma: u64 = self.pattern();
        let mb: u64 = other.pattern();
        let negative: bool = self.is_negative() != other.is_negative();
        if ma > INFINITY || mb > INFINITY {
            return Self::nan();
        }
        if ma == INFINITY || mb == INFINITY {
            if ma == 0 || mb == 0 {
                return Self::nan();
            }
            return Self::with_sign(negative, INFINITY);
        }
        let ghost n = size(ma as nat) * size(mb as nat);
        let ghost d = pow2(UNIT_EXPONENT as nat);
        proof {
            lemma_pow2_pos(UNIT_EXPONENT as nat);
        }
        if ma == 0 || mb == 0 {
            proof {
                lemma_size_positive(0);
                assert(n == 0) by (nonlinear_arith)
                    requires
                        n == size(ma as nat) * size(mb as nat),
                        size(ma as nat) == 0 || size(mb as nat) == 0,
                ;
                lemma_nearest_zero(d);
            }
            return Self::with_sign(negative, 0);
        }
        let (sa, ta) = unpack(ma);
        let (sb, tb) = unpack(mb);
        proof {
            assert(sa * sb > 0 && sa * sb < 0x1_0000_0000_0000_0000_0000_0000_0000) by (nonlinear_arith)
                requires
                    0 < sa < 2 * BINADE,
                    0 < sb < 2 * BINADE,
            ;
        }
        let m: u128 = sa as u128 * sb as u128;
        let k: u32 = ta + tb + (BIAS - UNIT_EXPONENT);
        proof {
            let e = pow2(ta as nat);
            let f = pow2(tb as nat);
            let w = pow2(BIAS as nat);
            lemma_pow2_adds(ta as nat, tb as nat);
            lemma_pow2_adds((ta + tb) as nat, BIAS as nat);
            lemma_pow2_adds(k as nat, UNIT_EXPONENT as nat);
            assert(n * w == m * (pow2(k as nat) * d)) by (nonlinear_arith)
                requires
                    n == (sa * e) * (sb * f),
                    m == sa * sb,
                    pow2(k as nat) * d == (e * f) * w,
            ;
        }
        let p: u64 = round(m, k, false);
        assert(approximates(m as nat, k as nat, false, n, d));
        Self::with_sign(negative, p)
    }

    /// `self / other`.
    pub fn over(self, other: Binary64) -> (r: Binary64)
        ensures
            r == quotient(self, other),
    {
        let ma: u64 = self.pattern();
        let mb: u64 = other.pattern();
        let negative: bool = self.is_negative() != other.is_negative();
        if ma > INFINITY || mb > INFINITY {
            return Self::nan();
        }
        if (ma == INFINITY && mb == INFINITY) || (ma == 0 && mb == 0) {
            return Self::nan();
        }
        if ma == INFINITY || mb == 0 {
            return Self::with_sign(negative, INFINITY);
        }
        if mb == INFINITY {
            return Self::with_sign(negative, 0);
        }
        let ghost one = pow2(UNIT_EXPONENT as nat);
        let ghost n = size(ma as nat) * one;
        let ghost d = size(mb as nat);
        proof {
            lemma_size_positive(mb as nat);
        }
        if ma == 0 {
            proof {
                lemma_size_positive(0);
                assert(n == 0) by (nonlinear_arith)
                    requires
                        n == size(ma as nat) * one,
                        size(ma as nat) == 0,
                ;
                lemma_nearest_zero(d);
            }
            return Self::with_sign(negative, 0);
        }
        let (sa, ta) = unpack(ma);
        let (sb, tb) = unpack(mb);
        let l: u32 = bit_length(sa as u128);
        proof {
            lemma_binades();
            if l > 53 {
                if l > 54 {
                    lemma_pow2_strictly_increases(53, (l - 1) as nat);
                }
            }
            lemma_lengthened(sa as nat, l as nat);
        }
        let x: u32 = 127 - l;
        let top: u128 = sa as u128 * power(x);
        let m: u128 = top / sb as u128;
        let rest: u128 = top % sb as u128;
        let k: u32 = ta + (BIAS + UNIT_EXPONENT) - tb - x;
        proof {
            let w = pow2(BIAS as nat);
            let e = pow2(ta as nat);
            let f = pow2(tb as nat);
            let g = pow2((k + tb) as nat);
            vstd::arithmetic::div_mod::lemma_fundamental_div_mod(top as int, sb as int);
            assert(top == m * sb + rest) by (nonlinear_arith)
                requires
                    top == sb * m + rest,
            ;
            assert(m >= 4 * BINADE) by (nonlinear_arith)
                requires
                    top == m * sb + rest,
                    rest < sb,
                    0 < sb < 2 * BINADE,
                    top >= 0x4000_0000_0000_0000_0000_0000_0000_0000,
            ;
            lemma_pow2_adds(k as nat, tb as nat);
            lemma_pow2_adds(ta as nat, UNIT_EXPONENT as nat);
            lemma_pow2_adds((ta + UNIT_EXPONENT) as nat, BIAS as nat);
            lemma_pow2_adds((k + tb) as nat, x as nat);
            lemma_pow2_pos((k + tb) as nat);
            assert(n * w == top * g) by (nonlinear_arith)
                requires
                    n == (sa * e) * one,
                    top == sa * pow2(x as nat),
                    (e * one) * w == g * pow2(x as nat),
            ;
            assert(m * (pow2(k as nat) * d) == (m * sb) * g && (m + 1) * (pow2(k as nat) * d) == (m * sb + sb) * g)
                by (nonlinear_arith)
                requires
                    d == sb * f,
                    g == pow2(k as nat) * f,
            ;
            assert((m * sb) * g + rest * g == top * g && (rest > 0 ==> rest * g > 0) && rest * g < sb * g && (m * sb
                + sb) * g == (m * sb) * g + sb * g && (rest == 0 ==> rest * g == 0)) by (nonlinear_arith)
                requires
                    top == m * sb + rest,
                    rest < sb,
                    g > 0,
            ;
        }
        let p: u64 = round(m, k, rest != 0);
        assert(approximates(m as nat, k as nat, rest != 0, n, d));
        Self::with_sign(negative, p)
    }
}

/// The rounded sum or difference of two magnitudes, the larger one first.
fn combine(a: u64, b: u64, subtract: bool) -> (p: u64)
    requires
        b <= a < INFINITY,
        subtract ==> b < a,
        a > 0,
    ensures
        p <= INFINITY,
        p == nearest(
            if subtract { (size(a as nat) - size(b as nat)) as nat } else { size(a as nat) + size(b as nat) },
            1,
        ),
{
    let (sa, ta) = unpack(a);
    let (sb, tb) = unpack(b);
    let ghost n: nat = if subtract { (size(a as nat) - size(b as nat)) as nat } else { size(a as nat) + size(b as nat) };
    proof {
        lemma_size_order(b as nat, a as nat);
        lemma_parts(a as nat);
        lemma_parts(b as nat);
        if ta < tb {
            assert(exponent(a as nat) * BINADE + 2 * BINADE <= exponent(b as nat) * BINADE + BINADE);
        }
    }
    let gap: u32 = ta - tb;
    if gap <= 64 {
        let wide: u128 = power(gap);
        proof {
            lemma_aligned(sa as nat, ta as nat, sb as nat, tb as nat);
            if subtract {
                lemma_size_positive(a as nat);
            }
        }
        let m: u128 = if subtract { sa as u128 * wide - sb as u128 } else { sa as u128 * wide + sb as u128 };
        let k: u32 = tb + BIAS;
        proof {
            let w = pow2(BIAS as nat);
            let e = pow2(tb as nat);
            lemma_pow2_adds(tb as nat, BIAS as nat);
            lemma_pow2_adds(tb as nat, gap as nat);
            assert(n == m * e) by (nonlinear_arith)
                requires
                    n == if subtract { sa * pow2(ta as nat) - sb * e } else { sa * pow2(ta as nat) + sb * e },
                    m == if subtract { sa * wide - sb } else { sa * wide + sb },
                    pow2(ta as nat) == e * wide,
            ;
            assert(n * w == m * (pow2(k as nat) * 1)) by (nonlinear_arith)
                requires
                    n == m * e,
                    pow2(k as nat) == e * w,
            ;
        }
        assert(approximates(m as nat, k as nat, false, n, 1));
        round(m, k, false)
    } else {
        let low: u128 = sa as u128 * 1024;
        let cut: bool = sb != 0;
        let m: u128 = if subtract && cut { low - 1 } else { low };
        let k: u32 = ta - 10 + BIAS;
        proof {
            lemma_far_apart(sa as nat, ta as nat, sb as nat, tb as nat, subtract, n);
        }
        round(m, k, cut)
    }
}

proof fn lemma_aligned(sa: nat, ta: nat, sb: nat, tb: nat)
    requires
        0 < sa < 2 * BINADE,
        sb < 2 * BINADE,
        tb <= ta <= tb + 64,
    ensures
        sa <= sa * pow2((ta - tb) as nat) < 0x20_0000_0000_0000_0000_0000_0000_0000,
        sa * pow2(ta) > sb * pow2(tb) ==> sa * pow2((ta - tb) as nat) > sb,
        sa * pow2(ta) == (sa * pow2((ta - tb) as nat)) * pow2(tb),
{
    let g = (ta - tb) as nat;
    lemma_binades();
    vstd::arithmetic::power2::lemma2_to64();
    lemma_pow2_pos(g);
    lemma_pow2_pos(tb);
    if g < 64 {
        lemma_pow2_strictly_increases(g, 64);
    }
    assert(sa <= sa * pow2(g) < 0x20_0000_0000_0000_0000_0000_0000_0000) by (nonlinear_arith)
        requires
            0 < sa < 2 * BINADE,
            0 < pow2(g) <= 0x1_0000_0000_0000_0000,
    ;
    lemma_pow2_adds(g, tb);
    assert(sa * pow2(ta) == (sa * pow2(g)) * pow2(tb)) by (nonlinear_arith)
        requires
            pow2(ta) == pow2(g) * pow2(tb),
    ;
    if sa * pow2(g) <= sb {
        assert((sa * pow2(g)) * pow2(tb) <= sb * pow2(tb)) by (nonlinear_arith)
            requires
                sa * pow2(g) <= sb,
        ;
    }
}

/// A number far below another only decides on which side of it their sum lies.
proof fn lemma_far_apart(sa: nat, ta: nat, sb: nat, tb: nat, subtract: bool, n: nat)
    requires
        BINADE <= sa < 2 * BINADE,
        sb < 2 * BINADE,
        tb + 64 < ta,
        n == if subtract { sa * pow2(ta) - sb * pow2(tb) } else { sa * pow2(ta) as int + sb * pow2(tb) },
    ensures
        approximates(
            if subtract && sb != 0 { (sa * 1024 - 1) as nat } else { sa * 1024 },
            (ta - 10 + BIAS) as nat,
            sb != 0,
            n,
            1,
        ),
{
    let w = pow2(BIAS as nat);
    let step = pow2((ta - 10) as nat);
    let e = pow2(tb);
    lemma_binades();
    vstd::arithmetic::power2::lemma2_to64();
    lemma_pow2_pos(BIAS as nat);
    lemma_pow2_pos(tb);
    lemma_pow2_adds((ta - 10) as nat, 10);
    lemma_pow2_adds(tb, 53);
    lemma_pow2_adds((ta - 10) as nat, BIAS as nat);
    lemma_pow2_strictly_increases(tb + 53, (ta - 10) as nat);
    let low = sb * e;
    assert(low < step && (sb > 0 ==> low > 0) && (sb == 0 ==> low == 0)) by (nonlinear_arith)
        requires
            low == sb * e,
            sb < 2 * BINADE,
            e > 0,
            e * (2 * BINADE) < step,
    ;
    let base = sa * 1024;
    assert(sa * pow2(ta) == base * step) by (nonlinear_arith)
        requires
            pow2(ta) == step * 1024,
            base == sa * 1024,
    ;
    let unit = pow2((ta - 10 + BIAS) as nat) * 1;
    assert(unit == step * w);
    let m: nat = if subtract && sb != 0 { (base - 1) as nat } else { base };
    assert(m * step + step == (m + 1) * step) by (nonlinear_arith);
    if subtract && sb != 0 {
        assert(n == m * step + (step - low));
    } else {
        assert(n == m * step + low || (subtract && n == m * step));
    }
    assert(m * (step * w) == (m * step) * w && (m + 1) * (step * w) == ((m + 1) * step) * w) by (nonlinear_arith);
    if sb != 0 {
        assert((m * step) * w < n * w < ((m + 1) * step) * w) by (nonlinear_arith)
            requires
                m * step < n < (m + 1) * step,
                w > 0,
        ;
    }
}

/// A significand moved up to bit 126.
proof fn lemma_lengthened(s: nat, l: nat)
    requires
        1 <= l <= 54,
        pow2((l - 1) as nat) <= s < pow2(l),
    ensures
        0x4000_0000_0000_0000_0000_0000_0000_0000 <= s * pow2((127 - l) as nat) < 0x8000_0000_0000_0000_0000_0000_0000_0000,
{
    let x = (127 - l) as nat;
    lemma_pow2_adds((l - 1) as nat, x);
    lemma_pow2_adds(l, x);
    lemma_pow2_pos(x);
    lemma_binades();
    lemma_pow2_adds(63, 63);
    lemma_pow2_adds(126, 1);
    vstd::arithmetic::power2::lemma2_to64_rest();
    assert(pow2((l - 1) as nat) * pow2(x) <= s * pow2(x) < pow2(l) * pow2(x)) by (nonlinear_arith)
        requires
            pow2((l - 1) as nat) <= s < pow2(l),
            pow2(x) > 0,
    ;
}

/// The significand and the exponent of a magnitude pattern.
pub(crate) fn unpack(m: u64) -> (r: (u64, u32))
    requires
        m <= INFINITY,
    ensures
        r.0 == significand(m as nat),
        r.1 == exponent(m as nat),
        r.1 <= 2046,
        m < INFINITY ==> r.1 < 2046,
        r.0 < 2 * BINADE,
        m > 0 ==> r.0 > 0,
        r.1 > 0 ==> r.0 >= BINADE,
{
    if m < BINADE {
        (m, 0)
    } else {
        (BINADE + m % BINADE, (m / BINADE - 1) as u32)
    }
}

} // verus!
