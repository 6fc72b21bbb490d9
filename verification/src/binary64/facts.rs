//! What holds of rounded results in general: rounding keeps the order, and keeps what
//! needs no rounding.

use vstd::prelude::*;
use vstd::arithmetic::power2::{lemma_pow2_adds, lemma_pow2_pos, lemma_pow2_strictly_increases, lemma_pow2_unfold, pow2};
use crate::binary64::arithmetic::{
    distance_from_zero, lemma_nearest_zero, lemma_size_positive, opposite, product, quotient, sum,
};
use crate::binary64::convert::{fraction, from_whole, one_in_units, truncated};
use crate::binary64::model::{
    exponent, lemma_between, lemma_beyond, lemma_nearest_exists, lemma_nearest_is, lemma_parts, lemma_size_grows,
    lemma_size_next, lemma_size_of, lemma_size_order, lemma_size_small, nearest, signed, significand, size, Binary64,
    BINADE, INFINITY, UNIT_EXPONENT,
};
use crate::binary64::order::ONE;
use crate::binary64::rounding::lemma_binades;

verus! {

/// `a <= b`, both of them numbers.
pub open spec fn at_most(a: Binary64, b: Binary64) -> bool {
    !a.is_nan_spec() && !b.is_nan_spec() && a.rank() <= b.rank()
}

/// `low <= a <= high`.
pub open spec fn within(a: Binary64, low: Binary64, high: Binary64) -> bool {
    at_most(low, a) && at_most(a, high)
}

/// Rounding keeps the order.
pub proof fn lemma_nearest_keeps_order(n: nat, d: nat, m: nat, e: nat)
    requires
        d > 0,
        e > 0,
        n * e <= m * d,
    ensures
        nearest(n, d) <= nearest(m, e),
        nearest(m, e) <= INFINITY,
{
    lemma_nearest_exists(n, d);
    lemma_nearest_exists(m, e);
    let p = nearest(n, d);
    let q = nearest(m, e);
    if q < p {
        let r = (p - 1) as nat;
        let low = size(q) + size(q + 1);
        let high = size(r) + size(r + 1);
        if q < r {
            lemma_size_grows(q, r);
            lemma_size_grows(q + 1, r + 1);
        }
        assert(2 * n >= high * d && 2 * m <= low * e);
        assert((2 * n) * e >= (high * d) * e && (2 * m) * d <= (low * e) * d) by (nonlinear_arith)
            requires
                2 * n >= high * d,
                2 * m <= low * e,
        ;
        assert((2 * n) * e == 2 * (n * e) && (2 * m) * d == 2 * (m * d)) by (nonlinear_arith);
        let de = d * e;
        assert((high * d) * e == high * de && (low * e) * d == low * de && de > 0) by (nonlinear_arith)
            requires
                de == d * e,
                d > 0,
                e > 0,
        ;
        assert(high <= low) by (nonlinear_arith)
            requires
                high * de <= low * de,
                de > 0,
        ;
        assert(q == r);
        // both lie on the same middle, between an even and an odd pattern
        assert((2 * n) * e == (high * d) * e);
        assert(2 * n == high * d) by (nonlinear_arith)
            requires
                (2 * n) * e == (high * d) * e,
                e > 0,
        ;
        assert((2 * m) * d == (low * e) * d);
        assert(2 * m == low * e) by (nonlinear_arith)
            requires
                (2 * m) * d == (low * e) * d,
                d > 0,
        ;
        assert(p % 2 == 0 && q % 2 == 0);
    }
}

/// What is a double already is not changed by rounding.
pub proof fn lemma_nearest_keeps(p: nat, d: nat)
    requires
        d > 0,
        p <= INFINITY,
    ensures
        nearest(size(p) * d, d) == p,
{
    if p == INFINITY {
        lemma_beyond(size(p) * d, d);
    } else {
        lemma_size_next(p);
        assert(size(p) * d < size(p + 1) * d && 2 * (size(p) * d) < (size(p) + size(p + 1)) * d) by (nonlinear_arith)
            requires
                size(p) < size(p + 1),
                d > 0,
        ;
        lemma_between(size(p) * d, d, p);
    }
    lemma_nearest_is(size(p) * d, d, p);
}

/// The parts of a double that was put together from them.
pub proof fn lemma_signed(negative: bool, m: nat)
    requires
        m <= INFINITY,
    ensures
        signed(negative, m).negative() == negative,
        signed(negative, m).magnitude() == m,
        !signed(negative, m).is_nan_spec(),
        signed(negative, m).rank() == if negative { -(m as int) } else { m as int },
{
}

/// A double is put together from its sign and magnitude.
pub proof fn lemma_from_parts(a: Binary64)
    ensures
        signed(a.negative(), a.magnitude()) == a,
{
}

/// The place in the order of doubles to which a whole number of units is rounded.
pub open spec fn rank_of_units(v: int) -> int {
    if v < 0 {
        -(nearest((-v) as nat, 1) as int)
    } else {
        nearest(v as nat, 1) as int
    }
}

/// Rounding whole numbers of units keeps their order.
pub proof fn lemma_rank_keeps_order(v: int, w: int)
    requires
        v <= w,
    ensures
        rank_of_units(v) <= rank_of_units(w),
{
    if v < 0 && w < 0 {
        lemma_nearest_keeps_order((-w) as nat, 1, (-v) as nat, 1);
    } else if v >= 0 {
        lemma_nearest_keeps_order(v as nat, 1, w as nat, 1);
    }
}

/// The value of a finite double has that double's place.
pub proof fn lemma_rank_of_double(a: Binary64)
    requires
        a.finite(),
    ensures
        rank_of_units(a.units()) == a.rank(),
{
    lemma_nearest_keeps(a.magnitude(), 1);
    assert(size(a.magnitude()) * 1 == size(a.magnitude()));
    lemma_size_positive(a.magnitude());
}

/// A sum of finite doubles is the rounded sum of their values.
pub proof fn lemma_sum(a: Binary64, b: Binary64)
    requires
        a.finite(),
        b.finite(),
    ensures
        !sum(a, b).is_nan_spec(),
        sum(a, b).rank() == rank_of_units(a.units() + b.units()),
{
    let v = a.units() + b.units();
    lemma_nearest_exists(distance_from_zero(v), 1);
    lemma_nearest_zero(1);
    if v != 0 {
        lemma_signed(v < 0, nearest(distance_from_zero(v), 1));
    } else {
        lemma_signed(a.negative() && b.negative(), 0);
    }
}

/// A sum grows with its first term.
pub proof fn lemma_sum_grows(a: Binary64, b: Binary64, c: Binary64)
    requires
        a.finite(),
        b.finite(),
        c.finite(),
        a.rank() <= b.rank(),
    ensures
        at_most(sum(a, c), sum(b, c)),
        at_most(sum(c, a), sum(c, b)),
{
    lemma_sum(a, c);
    lemma_sum(b, c);
    lemma_sum(c, a);
    lemma_sum(c, b);
    lemma_units_order(a, b);
    lemma_rank_keeps_order(a.units() + c.units(), b.units() + c.units());
}

/// Adding zero changes no number.
pub proof fn lemma_sum_with_zero(a: Binary64, z: Binary64)
    requires
        a.finite(),
        z.is_zero(),
    ensures
        sum(a, z).rank() == a.rank(),
        sum(z, a).rank() == a.rank(),
        !sum(a, z).is_nan_spec(),
        !sum(z, a).is_nan_spec(),
{
    lemma_sum(a, z);
    lemma_sum(z, a);
    lemma_size_small();
    lemma_rank_of_double(a);
}

/// A sum is no larger than what the sizes of its terms add up to.
pub proof fn lemma_sum_below(a: Binary64, b: Binary64, x: nat, y: nat, z: nat)
    requires
        a.magnitude() <= x < INFINITY,
        b.magnitude() <= y < INFINITY,
        z < INFINITY,
        size(x) + size(y) <= size(z),
    ensures
        sum(a, b).magnitude() <= z,
        !sum(a, b).is_nan_spec(),
{
    let top = Binary64 { bits: z as u64 };
    let bottom = opposite(top);
    lemma_opposite(top);
    lemma_size_order(x, a.magnitude());
    lemma_size_order(y, b.magnitude());
    lemma_sum(a, b);
    lemma_rank_keeps_order(a.units() + b.units(), top.units());
    lemma_rank_keeps_order(bottom.units(), a.units() + b.units());
    lemma_rank_of_double(top);
    lemma_rank_of_double(bottom);
}

/// The order of finite doubles is the order of their values.
pub proof fn lemma_units_order(a: Binary64, b: Binary64)
    requires
        a.finite(),
        b.finite(),
    ensures
        a.rank() <= b.rank() <==> a.units() <= b.units(),
        a.rank() < b.rank() <==> a.units() < b.units(),
{
    lemma_size_order(a.magnitude(), b.magnitude());
    lemma_size_order(0, a.magnitude());
    lemma_size_order(0, b.magnitude());
    lemma_size_small();
}

/// The opposite of a double has the opposite place.
pub proof fn lemma_opposite(a: Binary64)
    ensures
        opposite(a).rank() == -a.rank(),
        opposite(a).magnitude() == a.magnitude(),
        opposite(a).negative() == !a.negative(),
        opposite(opposite(a)) == a,
{
}

/// 1 is 2^1074 units.
pub proof fn lemma_size_of_one()
    ensures
        size(ONE as nat) == one_in_units(),
        one_in_units() > 0,
{
    lemma_binades();
    lemma_size_of(1022, BINADE as nat);
    lemma_pow2_adds(52, 1022);
    lemma_pow2_pos(UNIT_EXPONENT as nat);
}

/// The size of a pattern, over a smaller power of two.
pub proof fn lemma_size_over(t: nat, s: nat, e: nat, c: nat, m: nat)
    requires
        e <= t,
        s <= 2 * BINADE,
        t > 0 ==> s >= BINADE,
        pow2((t - e) as nat) == c,
        m == s * c,
    ensures
        size(t * BINADE as nat + s) == m * pow2(e),
{
    lemma_size_of(t, s);
    lemma_pow2_adds((t - e) as nat, e);
    assert(s * pow2(t) == m * pow2(e)) by (nonlinear_arith)
        requires
            pow2(t) == c * pow2(e),
            m == s * c,
    ;
}

/// A product of finite doubles is the rounded product of their values.
pub proof fn lemma_product(a: Binary64, b: Binary64)
    requires
        a.finite(),
        b.finite(),
    ensures
        !product(a, b).is_nan_spec(),
        product(a, b).magnitude() == nearest(size(a.magnitude()) * size(b.magnitude()), one_in_units()),
        product(a, b).negative() == (a.negative() != b.negative()),
{
    lemma_size_of_one();
    lemma_nearest_exists(size(a.magnitude()) * size(b.magnitude()), one_in_units());
    lemma_signed(
        a.negative() != b.negative(),
        nearest(size(a.magnitude()) * size(b.magnitude()), one_in_units()),
    );
}

/// The order of factors does not matter.
pub proof fn lemma_product_commutes(a: Binary64, b: Binary64)
    ensures
        product(a, b) == product(b, a),
{
    vstd::arithmetic::mul::lemma_mul_is_commutative(size(a.magnitude()) as int, size(b.magnitude()) as int);
}

/// The order of terms does not matter.
pub proof fn law_sum_commutes(a: Binary64, b: Binary64)
    ensures
        sum(a, b) == sum(b, a),
{
}

/// The size of a product grows with the size of its factors.
pub proof fn lemma_product_grows(a: Binary64, b: Binary64, c: Binary64)
    requires
        a.finite(),
        b.finite(),
        c.finite(),
        a.magnitude() <= b.magnitude(),
    ensures
        product(a, c).magnitude() <= product(b, c).magnitude() <= INFINITY,
        product(c, a).magnitude() <= product(c, b).magnitude() <= INFINITY,
{
    let x = size(a.magnitude());
    let y = size(b.magnitude());
    let z = size(c.magnitude());
    let one = one_in_units();
    lemma_product(a, c);
    lemma_product(b, c);
    lemma_product_commutes(a, c);
    lemma_product_commutes(b, c);
    lemma_size_of_one();
    lemma_size_order(a.magnitude(), b.magnitude());
    assert((x * z) * one <= (y * z) * one) by (nonlinear_arith)
        requires
            x <= y,
    ;
    lemma_nearest_keeps_order(x * z, one, y * z, one);
}

/// A factor of zero gives zero.
pub proof fn lemma_zero_product(a: Binary64, b: Binary64)
    requires
        a.finite(),
        b.finite(),
        a.is_zero() || b.is_zero(),
    ensures
        product(a, b).is_zero(),
{
    let x = size(a.magnitude());
    let y = size(b.magnitude());
    lemma_size_small();
    lemma_size_of_one();
    lemma_product(a, b);
    assert(x * y == 0) by (nonlinear_arith)
        requires
            x == 0 || y == 0,
    ;
    lemma_nearest_zero(one_in_units());
}

/// A factor of 1 changes nothing.
pub proof fn lemma_product_with_one(a: Binary64)
    requires
        a.finite(),
    ensures
        product(a, Binary64 { bits: ONE }) == a,
        product(Binary64 { bits: ONE }, a) == a,
{
    lemma_size_of_one();
    lemma_nearest_keeps(a.magnitude(), one_in_units());
    lemma_product_commutes(a, Binary64 { bits: ONE });
    lemma_from_parts(a);
}

/// A quotient of finite doubles is the rounded quotient of their values.
pub proof fn lemma_quotient(a: Binary64, b: Binary64)
    requires
        a.finite(),
        b.finite(),
        !b.is_zero(),
    ensures
        !quotient(a, b).is_nan_spec(),
        quotient(a, b).magnitude() == nearest(size(a.magnitude()) * one_in_units(), size(b.magnitude())),
        quotient(a, b).negative() == (a.negative() != b.negative()),
{
    lemma_size_positive(b.magnitude());
    lemma_nearest_exists(size(a.magnitude()) * one_in_units(), size(b.magnitude()));
    lemma_signed(
        a.negative() != b.negative(),
        nearest(size(a.magnitude()) * one_in_units(), size(b.magnitude())),
    );
}

/// Zero divided by a number is zero.
pub proof fn lemma_zero_quotient(a: Binary64, b: Binary64)
    requires
        a.is_zero(),
        b.finite(),
        !b.is_zero(),
    ensures
        quotient(a, b).is_zero(),
{
    let n = size(a.magnitude()) * one_in_units();
    lemma_size_small();
    lemma_size_positive(b.magnitude());
    lemma_quotient(a, b);
    assert(n == 0) by (nonlinear_arith)
        requires
            n == 0 * one_in_units(),
    ;
    lemma_nearest_zero(size(b.magnitude()));
}

/// The size of a quotient grows with the size of the dividend.
pub proof fn lemma_quotient_grows(a: Binary64, b: Binary64, c: Binary64)
    requires
        a.finite(),
        b.finite(),
        c.finite(),
        !c.is_zero(),
        a.magnitude() <= b.magnitude(),
    ensures
        quotient(a, c).magnitude() <= quotient(b, c).magnitude() <= INFINITY,
{
    let x = size(a.magnitude());
    let y = size(b.magnitude());
    let z = size(c.magnitude());
    let one = one_in_units();
    lemma_quotient(a, c);
    lemma_quotient(b, c);
    lemma_size_positive(c.magnitude());
    lemma_size_order(a.magnitude(), b.magnitude());
    assert((x * one) * z <= (y * one) * z) by (nonlinear_arith)
        requires
            x <= y,
    ;
    lemma_nearest_keeps_order(x * one, z, y * one, z);
}

/// A number divided by itself is 1.
pub proof fn lemma_quotient_of_itself(a: Binary64)
    requires
        a.finite(),
        !a.is_zero(),
    ensures
        quotient(a, a) == (Binary64 { bits: ONE }),
{
    lemma_size_of_one();
    lemma_size_positive(a.magnitude());
    lemma_nearest_keeps(ONE as nat, size(a.magnitude()));
    vstd::arithmetic::mul::lemma_mul_is_commutative(size(a.magnitude()) as int, one_in_units() as int);
}

/// Whole numbers keep their order when they become doubles.
pub proof fn lemma_whole_keeps_order(m: nat, n: nat)
    requires
        m <= n,
    ensures
        at_most(from_whole(m), from_whole(n)),
        !from_whole(n).negative(),
        from_whole(n).magnitude() <= INFINITY,
{
    let one = one_in_units();
    assert((m * one) * 1 <= (n * one) * 1) by (nonlinear_arith)
        requires
            m <= n,
    ;
    lemma_nearest_keeps_order(m * one, 1, n * one, 1);
    lemma_signed(false, nearest(m * one, 1));
    lemma_signed(false, nearest(n * one, 1));
}

/// How many bits a positive number takes.
proof fn lemma_bits_of(k: nat) -> (l: nat)
    requires
        0 < k,
    ensures
        l > 0,
        pow2((l - 1) as nat) <= k < pow2(l),
    decreases k,
{
    lemma_binades();
    if k == 1 {
        1
    } else {
        let l = lemma_bits_of(k / 2);
        lemma_pow2_unfold(l);
        lemma_pow2_unfold(l + 1);
        l + 1
    }
}

/// A number of at most 53 bits, followed by zeros, needs no rounding.
pub proof fn lemma_short_is_exact(k: nat, t: nat) -> (p: nat)
    requires
        k < 2 * BINADE,
    ensures
        size(p) == k * pow2(t),
{
    lemma_binades();
    if k == 0 {
        lemma_size_small();
        0
    } else {
        let l = lemma_bits_of(k);
        if l > 54 {
            lemma_pow2_strictly_increases(53, (l - 1) as nat);
        }
        assert(l <= 53);
        let z = (53 - l) as nat;
        if t < z {
            let s = k * pow2(t);
            lemma_pow2_adds(l, t);
            lemma_pow2_pos(t);
            if l + t < 53 {
                lemma_pow2_strictly_increases(l + t, 53);
            }
            assert(s <= 2 * BINADE) by (nonlinear_arith)
                requires
                    s == k * pow2(t),
                    k < pow2(l),
                    pow2(l) * pow2(t) <= 2 * BINADE,
                    pow2(t) > 0,
            ;
            lemma_size_of(0, s);
            s
        } else {
            let e = (t - z) as nat;
            let s = k * pow2(z);
            lemma_pow2_adds((l - 1) as nat, z);
            lemma_pow2_adds(l, z);
            lemma_pow2_adds(z, e);
            lemma_pow2_pos(z);
            assert(BINADE <= s < 2 * BINADE) by (nonlinear_arith)
                requires
                    s == k * pow2(z),
                    pow2((l - 1) as nat) <= k < pow2(l),
                    pow2((l - 1) as nat) * pow2(z) == BINADE,
                    pow2(l) * pow2(z) == 2 * BINADE,
                    pow2(z) > 0,
            ;
            lemma_size_of(e, s);
            assert(s * pow2(e) == k * pow2(t)) by (nonlinear_arith)
                requires
                    s == k * pow2(z),
                    pow2(z) * pow2(e) == pow2(t),
            ;
            e * BINADE as nat + s
        }
    }
}

/// A whole number below 2^53 is a double.
pub proof fn lemma_whole_is_exact(k: nat)
    requires
        k < 2 * BINADE,
    ensures
        from_whole(k).finite(),
        !from_whole(k).negative(),
        size(from_whole(k).magnitude()) == k * one_in_units(),
        from_whole(k).units() == k * one_in_units(),
{
    let n = k * one_in_units();
    let p = lemma_short_is_exact(k, UNIT_EXPONENT as nat);
    lemma_binades();
    // 2^53 lies below infinity
    lemma_size_of(1075, BINADE as nat);
    lemma_pow2_adds(1, UNIT_EXPONENT as nat);
    lemma_size_of_one();
    let beyond = 1076 * BINADE as nat;
    assert(n < size(beyond)) by (nonlinear_arith)
        requires
            n == k * one_in_units(),
            k < 2 * BINADE,
            size(beyond) == BINADE * pow2(1075),
            pow2(1075) == 2 * one_in_units(),
            one_in_units() > 0,
    ;
    lemma_size_order(p, beyond);
    lemma_nearest_keeps(p, 1);
    lemma_signed(false, p);
}

/// The part after the point needs no rounding.
pub proof fn lemma_fraction(a: Binary64)
    requires
        a.finite(),
    ensures
        !fraction(a).is_nan_spec(),
        fraction(a).negative() == a.negative(),
        size(fraction(a).magnitude()) == size(a.magnitude()) % one_in_units(),
        fraction(a).magnitude() < ONE,
{
    let one = one_in_units();
    let n = size(a.magnitude());
    let s = significand(a.magnitude());
    let t = exponent(a.magnitude());
    let rest = n % one;
    lemma_parts(a.magnitude());
    lemma_size_of_one();
    let p: nat = if t >= UNIT_EXPONENT {
        let g = (t - UNIT_EXPONENT) as nat;
        lemma_pow2_adds(g, UNIT_EXPONENT as nat);
        assert(n == (s * pow2(g)) * one) by (nonlinear_arith)
            requires
                n == s * pow2(t),
                pow2(t) == pow2(g) * one,
        ;
        vstd::arithmetic::div_mod::lemma_mod_multiples_basic((s * pow2(g)) as int, one as int);
        lemma_size_small();
        0
    } else {
        let g = (UNIT_EXPONENT - t) as nat;
        let e = pow2(t);
        let f = pow2(g);
        lemma_pow2_adds(t, g);
        lemma_pow2_pos(t);
        lemma_pow2_pos(g);
        vstd::arithmetic::mul::lemma_mul_is_commutative(s as int, e as int);
        vstd::arithmetic::div_mod::lemma_truncate_middle(s as int, e as int, f as int);
        vstd::arithmetic::div_mod::lemma_mod_decreases(s, f);
        vstd::arithmetic::mul::lemma_mul_is_commutative((s % f) as int, e as int);
        lemma_short_is_exact(s % f, t)
    };
    assert(size(p) == rest);
    lemma_size_order(p, ONE as nat);
    lemma_nearest_keeps(p, 1);
    lemma_signed(a.negative(), p);
}

/// A product is at most `c` where the exact one is.
pub proof fn lemma_product_at_most(a: Binary64, b: Binary64, c: nat)
    requires
        a.finite(),
        b.finite(),
        c <= INFINITY,
        size(a.magnitude()) * size(b.magnitude()) <= size(c) * one_in_units(),
    ensures
        product(a, b).magnitude() <= c,
        !product(a, b).is_nan_spec(),
        product(a, b).negative() == (a.negative() != b.negative()),
{
    let m = size(a.magnitude()) * size(b.magnitude());
    let one = one_in_units();
    lemma_product(a, b);
    lemma_size_of_one();
    assert(m * one <= (size(c) * one) * one) by (nonlinear_arith)
        requires
            m <= size(c) * one,
    ;
    lemma_nearest_keeps_order(m, one, size(c) * one, one);
    lemma_nearest_keeps(c, one);
}

/// A product is at least `c` where the exact one is.
pub proof fn lemma_product_at_least(a: Binary64, b: Binary64, c: nat)
    requires
        a.finite(),
        b.finite(),
        c <= INFINITY,
        size(a.magnitude()) * size(b.magnitude()) >= size(c) * one_in_units(),
    ensures
        product(a, b).magnitude() >= c,
        !product(a, b).is_nan_spec(),
        product(a, b).negative() == (a.negative() != b.negative()),
{
    let m = size(a.magnitude()) * size(b.magnitude());
    let one = one_in_units();
    lemma_product(a, b);
    lemma_size_of_one();
    assert((size(c) * one) * one <= m * one) by (nonlinear_arith)
        requires
            m >= size(c) * one,
    ;
    lemma_nearest_keeps_order(size(c) * one, one, m, one);
    lemma_nearest_keeps(c, one);
}

/// What lies below the middle to the next pattern is rounded down.
pub proof fn lemma_rounds_down(n: nat, d: nat, p: nat)
    requires
        d > 0,
        p < INFINITY,
        size(p) * d <= n,
        2 * n < (size(p) + size(p + 1)) * d,
    ensures
        nearest(n, d) == p,
{
    lemma_size_next(p);
    assert((size(p) + size(p + 1)) * d <= 2 * (size(p + 1) * d)) by (nonlinear_arith)
        requires
            size(p) < size(p + 1),
            d > 0,
    ;
    lemma_between(n, d, p);
    lemma_nearest_is(n, d, p);
}

/// Adding whole numbers is exact below 2^53.
pub proof fn lemma_whole_sum(a: nat, b: nat)
    requires
        a + b < 2 * BINADE,
    ensures
        sum(from_whole(a), from_whole(b)) == from_whole(a + b),
{
    let one = one_in_units();
    lemma_whole_is_exact(a);
    lemma_whole_is_exact(b);
    lemma_size_of_one();
    assert((a + b) * one == a * one + b * one && a * one >= 0 && b * one >= 0) by (nonlinear_arith)
        requires
            one > 0,
            a >= 0,
            b >= 0,
    ;
    if (a + b) * one == 0 {
        lemma_nearest_zero(1);
    }
}

/// Rounding changes a number by at most one part in 2^53, if it is not too small.
pub proof fn lemma_relative_error(n: nat, d: nat)
    requires
        d > 0,
        BINADE * d <= n,
        n < size(INFINITY as nat) * d,
    ensures
        (2 * BINADE) * (size(nearest(n, d)) * d) <= (2 * BINADE) * n + n,
        (2 * BINADE) * n <= (2 * BINADE) * (size(nearest(n, d)) * d) + n,
{
    let p = nearest(n, d);
    lemma_nearest_exists(n, d);
    lemma_binades();
    if size(p) * d <= n {
        if p == INFINITY {
            assert(false);
        }
        lemma_size_next(p);
        lemma_spacing(p, n, d);
        let e = pow2(exponent(p));
        assert((size(p) + size(p + 1)) * d == 2 * (size(p) * d) + e * d) by (nonlinear_arith)
            requires
                size(p + 1) == size(p) + e,
        ;
    } else {
        assert(p > 0) by {
            if p == 0 {
                lemma_size_small();
                assert(size(p) * d == 0) by (nonlinear_arith)
                    requires
                        size(p) == 0,
                ;
            }
        }
        let q = (p - 1) as nat;
        lemma_size_next(q);
        let e = pow2(exponent(q));
        assert((size(q) + size(p)) * d == 2 * (size(p) * d) - e * d && 2 * (size(q) * d) + e * d == 2 * (size(p) * d) - e
            * d) by (nonlinear_arith)
            requires
                size(p) == size(q) + e,
        ;
        lemma_pow2_pos(exponent(q));
        assert(e * d >= 0) by (nonlinear_arith)
            requires
                e > 0,
                d > 0,
        ;
        lemma_spacing(q, n, d);
    }
}

/// Neighbours are at most 2^-52 of a number apart that is no smaller than them.
proof fn lemma_spacing(q: nat, n: nat, d: nat)
    requires
        d > 0,
        BINADE * d <= n,
        size(q) * d <= n,
    ensures
        BINADE * (pow2(exponent(q)) * d) <= n,
{
    let e = pow2(exponent(q));
    let s = significand(q);
    lemma_parts(q);
    lemma_pow2_pos(exponent(q));
    lemma_binades();
    if exponent(q) > 0 {
        assert(BINADE * (e * d) <= n) by (nonlinear_arith)
            requires
                s >= BINADE,
                (s * e) * d <= n,
                e > 0,
                d > 0,
        {
            assert(BINADE * e <= s * e);
            assert((BINADE * e) * d <= (s * e) * d);
        }
    } else {
        assert(e * d == d) by (nonlinear_arith)
            requires
                e == 1,
        ;
    }
}

/// Rounding changes a number by at most one part in 2^53, and one unit.
pub proof fn lemma_rounding_error(n: nat, d: nat)
    requires
        d > 0,
        n < size(INFINITY as nat) * d,
    ensures
        (2 * BINADE) * (size(nearest(n, d)) * d) <= (2 * BINADE) * n + n + (2 * BINADE) * d,
        (2 * BINADE) * n <= (2 * BINADE) * (size(nearest(n, d)) * d) + n + (2 * BINADE) * d,
{
    if BINADE * d <= n {
        lemma_relative_error(n, d);
    } else {
        let q = n / d;
        vstd::arithmetic::div_mod::lemma_fundamental_div_mod(n as int, d as int);
        vstd::arithmetic::mul::lemma_mul_is_commutative(d as int, q as int);
        assert(q < BINADE) by (nonlinear_arith)
            requires
                q * d <= n,
                n < BINADE * d,
                d > 0,
        ;
        lemma_binades();
        lemma_size_of(0, q);
        lemma_size_of(0, q + 1);
        assert((q + 1) * d == q * d + d) by (nonlinear_arith);
        lemma_nearest_keeps(q, d);
        lemma_nearest_keeps(q + 1, d);
        assert((q * d) * d <= n * d && n * d <= ((q + 1) * d) * d) by (nonlinear_arith)
            requires
                q * d <= n,
                n <= (q + 1) * d,
                d > 0,
        ;
        lemma_nearest_keeps_order(q * d, d, n, d);
        lemma_nearest_keeps_order(n, d, (q + 1) * d, d);
        let p = nearest(n, d);
        assert(p == q || p == q + 1);
    }
}

/// A sum is rounded by at most one part in 2^53, and one unit.
pub proof fn lemma_sum_error(a: Binary64, b: Binary64)
    requires
        a.finite(),
        b.finite(),
        -(size(INFINITY as nat) as int) < a.units() + b.units() < size(INFINITY as nat),
    ensures
        ({
            let v = a.units() + b.units();
            let error = sum(a, b).units() - v;
            let limit = distance_from_zero(v) + 2 * BINADE;
            -limit <= (2 * BINADE) * error <= limit
        }),
{
    let v = a.units() + b.units();
    let n = distance_from_zero(v);
    assert(size(INFINITY as nat) * 1 == size(INFINITY as nat));
    lemma_rounding_error(n, 1);
    lemma_nearest_exists(n, 1);
    lemma_size_small();
    assert(size(nearest(n, 1)) * 1 == size(nearest(n, 1)));
    let u = 2 * BINADE as int;
    let p = size(nearest(n, 1)) as int;
    assert(-(n + u) <= u * (p - n) && u * (p - n) <= n + u) by (nonlinear_arith)
        requires
            u * p <= u * n + n + u,
            u * n <= u * p + n + u,
    ;
    if v == 0 {
        lemma_signed(a.negative() && b.negative(), 0);
        assert(sum(a, b).units() == 0);
        assert(u * 0 == 0);
    } else {
        lemma_signed(v < 0, nearest(n, 1));
        if v < 0 {
            assert(sum(a, b).units() - v == -(p - n));
            assert(u * (-(p - n)) == -(u * (p - n))) by (nonlinear_arith);
        } else {
            assert(sum(a, b).units() - v == p - n);
        }
    }
}

/// A quotient is rounded by at most one part in 2^53, and one unit.
pub proof fn lemma_quotient_error(a: Binary64, b: Binary64)
    requires
        a.finite(),
        b.finite(),
        !b.is_zero(),
        size(a.magnitude()) * one_in_units() < size(INFINITY as nat) * size(b.magnitude()),
    ensures
        ({
            let n = size(a.magnitude()) * one_in_units();
            let d = size(b.magnitude());
            let q = size(quotient(a, b).magnitude());
            &&& (2 * BINADE) * (q * d) <= (2 * BINADE) * n + n + (2 * BINADE) * d
            &&& (2 * BINADE) * n <= (2 * BINADE) * (q * d) + n + (2 * BINADE) * d
        }),
{
    lemma_size_positive(b.magnitude());
    lemma_quotient(a, b);
    lemma_rounding_error(size(a.magnitude()) * one_in_units(), size(b.magnitude()));
}

/// A product is rounded by at most one part in 2^53, and one unit.
pub proof fn lemma_product_error(a: Binary64, b: Binary64)
    requires
        a.finite(),
        b.finite(),
        size(a.magnitude()) * size(b.magnitude()) < size(INFINITY as nat) * one_in_units(),
    ensures
        ({
            let n = size(a.magnitude()) * size(b.magnitude());
            let d = one_in_units();
            let p = size(product(a, b).magnitude());
            &&& (2 * BINADE) * (p * d) <= (2 * BINADE) * n + n + (2 * BINADE) * d
            &&& (2 * BINADE) * n <= (2 * BINADE) * (p * d) + n + (2 * BINADE) * d
        }),
{
    lemma_size_of_one();
    lemma_product(a, b);
    lemma_rounding_error(size(a.magnitude()) * size(b.magnitude()), one_in_units());
}

/// A product is its factors' values multiplied, up to one part in 2^53 and one unit.
pub proof fn lemma_product_units(a: Binary64, b: Binary64)
    requires
        a.finite(),
        b.finite(),
        size(a.magnitude()) * size(b.magnitude()) < size(INFINITY as nat) * one_in_units(),
    ensures
        ({
            let error = product(a, b).units() * one_in_units() - a.units() * b.units();
            let limit = size(a.magnitude()) * size(b.magnitude()) + (2 * BINADE) * one_in_units();
            -limit <= (2 * BINADE) * error <= limit
        }),
{
    let x = size(a.magnitude()) as int;
    let y = size(b.magnitude()) as int;
    let n = x * y;
    let one = one_in_units() as int;
    let u = 2 * BINADE as int;
    let p = size(product(a, b).magnitude()) as int;
    lemma_product(a, b);
    lemma_product_error(a, b);
    assert(-(n + u * one) <= u * (p * one - n) && u * (p * one - n) <= n + u * one) by (nonlinear_arith)
        requires
            u * (p * one) <= u * n + n + u * one,
            u * n <= u * (p * one) + n + u * one,
    ;
    assert((-x) * y == -n && x * (-y) == -n && (-x) * (-y) == n) by (nonlinear_arith)
        requires
            n == x * y,
    ;
    assert((-p) * one == -(p * one)) by (nonlinear_arith);
    assert(u * (-(p * one - n)) == -(u * (p * one - n))) by (nonlinear_arith);
    assert(-(p * one) - (-n) == -(p * one - n));
}

/// Twice a double is a double.
pub proof fn lemma_twice_is_exact(p: nat) -> (q: nat)
    ensures
        size(q) == 2 * size(p),
{
    let s = significand(p);
    let t = exponent(p);
    lemma_parts(p);
    lemma_binades();
    if p < BINADE {
        lemma_size_of(0, p);
        lemma_size_of(0, 2 * p);
        2 * p
    } else {
        lemma_size_of(t, s);
        lemma_size_of(t + 1, s);
        lemma_pow2_unfold(t + 1);
        assert(s * (2 * pow2(t)) == 2 * (s * pow2(t))) by (nonlinear_arith);
        (t + 1) * BINADE as nat + s
    }
}

/// What is no number stays none, in every operation.
pub proof fn law_nan_stays_nan(a: Binary64, b: Binary64)
    requires
        a.is_nan_spec() || b.is_nan_spec(),
    ensures
        sum(a, b).is_nan_spec(),
        product(a, b).is_nan_spec(),
        quotient(a, b).is_nan_spec(),
{
}

/// Infinities add up to themselves, and to nothing where they cancel; they multiply and divide
/// with the sign of both.
pub proof fn law_infinities(a: Binary64, b: Binary64)
    requires
        a.infinite(),
        !b.is_nan_spec(),
    ensures
        b.infinite() && a.negative() != b.negative() ==> sum(a, b).is_nan_spec() && sum(b, a).is_nan_spec(),
        b.finite() || a.negative() == b.negative() ==> sum(a, b) == a && sum(b, a) == a,
        b.is_zero() ==> product(a, b).is_nan_spec() && product(b, a).is_nan_spec(),
        !b.is_zero() ==> {
            &&& product(a, b).infinite() && product(a, b).negative() == (a.negative() != b.negative())
            &&& product(b, a).infinite() && product(b, a).negative() == (a.negative() != b.negative())
        },
        b.infinite() ==> quotient(a, b).is_nan_spec(),
        b.finite() ==> {
            &&& quotient(a, b).infinite() && quotient(a, b).negative() == (a.negative() != b.negative())
            &&& quotient(b, a).is_zero() && quotient(b, a).negative() == (a.negative() != b.negative())
        },
{
    lemma_signed(a.negative() != b.negative(), INFINITY as nat);
    lemma_signed(a.negative() != b.negative(), 0);
    if b.infinite() && a.negative() == b.negative() {
        lemma_from_parts(a);
        lemma_from_parts(b);
    }
}

/// Dividing by zero gives an infinity, but zero by zero nothing.
pub proof fn law_division_by_zero(a: Binary64, b: Binary64)
    requires
        a.finite(),
        b.is_zero(),
    ensures
        a.is_zero() ==> quotient(a, b).is_nan_spec(),
        !a.is_zero() ==> quotient(a, b).infinite() && quotient(a, b).negative() == (a.negative() != b.negative()),
{
    lemma_signed(a.negative() != b.negative(), INFINITY as nat);
}

/// The whole number below a number is no larger than it, and the next one is; below zero, and
/// for a NaN, it is zero.
pub proof fn law_whole_number_below(a: Binary64)
    ensures
        a.is_nan_spec() || a.negative() ==> truncated(a) == 0,
        a.finite() && !a.negative() && size(a.magnitude()) < 0x1_0000_0000 * one_in_units() ==> truncated(a)
            * one_in_units() <= size(a.magnitude()) < (truncated(a) + 1) * one_in_units(),
{
    let n = size(a.magnitude()) as int;
    let one = one_in_units() as int;
    lemma_size_of_one();
    vstd::arithmetic::div_mod::lemma_fundamental_div_mod(n, one);
    vstd::arithmetic::div_mod::lemma_mod_bound(n, one);
    let q = n / one;
    assert(n < 0x1_0000_0000 * one ==> q < 0x1_0000_0000) by (nonlinear_arith)
        requires
            n == one * q + n % one,
            0 <= n % one,
            one > 0,
    ;
    assert(q * one <= n && n < (q + 1) * one) by (nonlinear_arith)
        requires
            n == one * q + n % one,
            0 <= n % one < one,
    ;
}

} // verus!
