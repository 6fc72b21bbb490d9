//! How far rounding moves numbers of moderate size.

use vstd::prelude::*;
use vstd::arithmetic::power2::{lemma2_to64, lemma2_to64_rest, lemma_pow2_adds, lemma_pow2_pos, pow2};
use crate::binary64::arithmetic::{lemma_size_positive, opposite, product, quotient, sum};
use crate::binary64::convert::one_in_units;
use crate::binary64::facts::{
    lemma_nearest_keeps, lemma_nearest_keeps_order, lemma_opposite, lemma_product, lemma_product_at_most,
    lemma_product_grows, lemma_product_units, lemma_product_with_one, lemma_quotient, lemma_quotient_error,
    lemma_quotient_grows, lemma_quotient_of_itself, lemma_rank_keeps_order, lemma_rank_of_double, lemma_size_of_one,
    lemma_size_over, lemma_sum, lemma_sum_error, lemma_twice_is_exact, lemma_units_order,
};
use crate::binary64::model::{lemma_size_of, lemma_size_order, size, Binary64, BINADE, INFINITY};
use crate::binary64::order::ONE;

verus! {

/// 2^-53, in units: how far rounding moves a number up to one.
pub open spec fn grain() -> nat {
    pow2(1021)
}

/// Whether two numbers are at most `limit` apart.
pub open spec fn close(x: int, y: int, limit: int) -> bool {
    -limit <= x - y <= limit
}

/// Whether a number is finite and at most `k` either way.
pub open spec fn moderate(a: Binary64, k: nat) -> bool {
    a.finite() && close(a.units(), 0, (k * one_in_units()) as int)
}

/// One is 2^53 grains.
pub proof fn lemma_grain()
    ensures
        one_in_units() == (2 * BINADE) * grain(),
        one_in_units() > 0,
        grain() >= 0x1_0000_0000,
        size(ONE as nat) == one_in_units(),
        size(0x3FE0_0000_0000_0000) == BINADE * grain(),
{
    lemma2_to64();
    lemma2_to64_rest();
    lemma_size_of_one();
    lemma_pow2_adds(53, 1021);
    lemma_pow2_adds(32, 989);
    lemma_pow2_pos(989);
    lemma_size_of(1021, 0x10_0000_0000_0000);
}

/// A product is no larger than its factors allow.
pub proof fn lemma_times_bound(a: int, b: int, x: int, y: int)
    requires
        close(a, 0, x),
        close(b, 0, y),
    ensures
        close(a * b, 0, x * y),
{
    assert(a * b <= x * y && -(x * y) <= a * b) by (nonlinear_arith)
        requires
            -x <= a <= x,
            -y <= b <= y,
    {
        assert((x - a) * (y + b) >= 0 && (x + a) * (y - b) >= 0);
        assert((x - a) * (y - b) >= 0 && (x + a) * (y + b) >= 0);
    }
}

/// A common factor does not matter.
pub proof fn lemma_cancel(a: int, limit: int, f: int)
    requires
        f > 0,
        close(a * f, 0, limit * f),
    ensures
        close(a, 0, limit),
{
    assert(-limit <= a <= limit) by (nonlinear_arith)
        requires
            -(limit * f) <= a * f <= limit * f,
            f > 0,
    {
        assert((-limit) * f <= a * f);
    }
}

/// A product of numbers up to one, if it is at most one half, is rounded by at most one
/// grain.
pub proof fn lemma_small_product(a: Binary64, b: Binary64)
    requires
        a.magnitude() <= ONE,
        b.magnitude() <= ONE,
        2 * (size(a.magnitude()) * size(b.magnitude())) <= one_in_units() * one_in_units(),
    ensures
        product(a, b).magnitude() <= ONE,
        product(a, b).negative() == (a.negative() != b.negative()),
        close(product(a, b).units() * one_in_units(), a.units() * b.units(), (grain() * one_in_units()) as int),
{
    let one = Binary64 { bits: ONE };
    let z = one_in_units() as int;
    let u = 2 * BINADE as int;
    let g = grain() as int;
    let n = size(a.magnitude()) * size(b.magnitude());
    lemma_grain();
    lemma_size_order(ONE as nat, INFINITY as nat);
    lemma_product(a, b);
    lemma_product_grows(a, one, b);
    lemma_product_with_one(b);
    assert(n < size(INFINITY as nat) * z) by (nonlinear_arith)
        requires
            2 * n <= z * z,
            0 < z < size(INFINITY as nat),
            n >= 0,
    {
        assert(z * z < size(INFINITY as nat) * z);
    }
    lemma_product_units(a, b);
    let e = product(a, b).units() * z - a.units() * b.units();
    assert(-(g * z) <= e <= g * z) by (nonlinear_arith)
        requires
            -(n + u * z) <= u * e <= n + u * z,
            2 * n <= z * z,
            z == u * g,
            u == 0x20_0000_0000_0000,
            g >= 0x1_0000_0000,
    {
        assert(z * z == u * (g * z));
        assert(2 * (u * e) <= u * (g * z) + 2 * (u * z));
        assert(u * (2 * e) <= u * (g * z + 2 * z));
        assert(2 * e <= g * z + 2 * z);
        assert(u * (2 * e) >= -(u * (g * z + 2 * z)));
        assert(2 * e >= -(g * z + 2 * z));
        assert(2 * z <= g * z);
    }
}

/// A sum that is at most one half is rounded by at most one grain.
pub proof fn lemma_small_sum(a: Binary64, b: Binary64)
    requires
        a.finite(),
        b.finite(),
        close(2 * (a.units() + b.units()), 0, one_in_units() as int),
    ensures
        sum(a, b).finite(),
        close(sum(a, b).units(), a.units() + b.units(), grain() as int),
        close(2 * sum(a, b).units(), 0, one_in_units() as int),
{
    let half = Binary64 { bits: 0x3FE0_0000_0000_0000 };
    let v = a.units() + b.units();
    let u = 2 * BINADE as int;
    let g = grain() as int;
    let z = one_in_units() as int;
    lemma_grain();
    lemma_size_order(ONE as nat, INFINITY as nat);
    assert(2 * half.units() == z) by (nonlinear_arith)
        requires
            half.units() == BINADE * g,
            z == (2 * BINADE) * g,
    ;
    lemma_opposite(half);
    lemma_sum(a, b);
    lemma_rank_keeps_order(v, half.units());
    lemma_rank_keeps_order(opposite(half).units(), v);
    lemma_rank_of_double(half);
    lemma_rank_of_double(opposite(half));
    lemma_units_order(sum(a, b), half);
    lemma_units_order(opposite(half), sum(a, b));
    lemma_sum_error(a, b);
    let e = sum(a, b).units() - v;
    assert(-g <= e <= g) by (nonlinear_arith)
        requires
            -(z + 2 * u) <= 2 * (u * e) <= z + 2 * u,
            z == u * g,
            u == 0x20_0000_0000_0000,
            g >= 0x1_0000_0000,
    {
        assert(u * (2 * e) <= u * (g + 2));
        assert(u * (2 * e) >= -(u * (g + 2)));
    }
}

/// A quotient of a number by one that is no smaller, times the latter, is off by at most two
/// grains of it.
pub proof fn lemma_small_quotient(a: Binary64, b: Binary64)
    requires
        a.finite(),
        b.finite(),
        !b.is_zero(),
        !b.negative(),
        a.magnitude() <= b.magnitude(),
    ensures
        quotient(a, b).magnitude() <= ONE,
        close(quotient(a, b).units() * b.units(), a.units() * one_in_units(), (2 * grain()) * b.units()),
{
    let z = one_in_units() as int;
    let u = 2 * BINADE as int;
    let g = grain() as int;
    let x = size(a.magnitude()) as int;
    let d = size(b.magnitude()) as int;
    lemma_grain();
    lemma_size_positive(b.magnitude());
    lemma_size_order(ONE as nat, INFINITY as nat);
    lemma_size_order(b.magnitude(), a.magnitude());
    lemma_quotient(a, b);
    lemma_quotient_grows(a, b, b);
    lemma_quotient_of_itself(b);
    assert(x * z < size(INFINITY as nat) * d) by (nonlinear_arith)
        requires
            0 <= x <= d,
            d > 0,
            0 < z < size(INFINITY as nat),
    {
        assert(x * z <= d * z);
        assert(d * z < d * size(INFINITY as nat));
    }
    lemma_quotient_error(a, b);
    let q = size(quotient(a, b).magnitude()) as int;
    let e = q * d - x * z;
    assert(-((2 * g) * d) <= e <= (2 * g) * d) by (nonlinear_arith)
        requires
            u * (q * d) <= u * (x * z) + x * z + u * d,
            u * (x * z) <= u * (q * d) + x * z + u * d,
            e == q * d - x * z,
            0 <= x <= d,
            z == u * g,
            u == 0x20_0000_0000_0000,
            g >= 0x1_0000_0000,
    {
        assert(x * z <= d * z);
        assert(d * z == u * (g * d));
        assert(u * e == u * (q * d) - u * (x * z));
        assert(u * e <= u * (g * d + d));
        assert(u * e >= -(u * (g * d + d)));
        assert(e <= g * d + d);
        assert(e >= -(g * d + d));
        assert(d <= g * d);
    }
    assert((-q) * d == -(q * d) && (-x) * z == -(x * z)) by (nonlinear_arith);
}

/// Doubling a number up to one half is exact.
pub proof fn lemma_twice(a: Binary64)
    requires
        a.finite(),
        !a.negative(),
        2 * size(a.magnitude()) <= one_in_units(),
    ensures
        product(Binary64 { bits: 0x4000_0000_0000_0000 }, a).magnitude() <= ONE,
        product(Binary64 { bits: 0x4000_0000_0000_0000 }, a).units() == 2 * a.units(),
        !product(Binary64 { bits: 0x4000_0000_0000_0000 }, a).negative(),
{
    let two = Binary64 { bits: 0x4000_0000_0000_0000 };
    let z = one_in_units();
    let x = size(a.magnitude());
    let g = grain();
    let q = lemma_twice_is_exact(a.magnitude());
    lemma_grain();
    lemma2_to64();
    lemma_size_over(1023, 0x10_0000_0000_0000, 1021, 4, 0x40_0000_0000_0000);
    lemma_size_order(ONE as nat, q);
    lemma_product(two, a);
    assert(size(0x4000_0000_0000_0000) * x == size(q) * z) by (nonlinear_arith)
        requires
            size(0x4000_0000_0000_0000) == 0x40_0000_0000_0000 * g,
            z == 0x20_0000_0000_0000 * g,
            size(q) == 2 * x,
    ;
    lemma_nearest_keeps(q, z);
}

/// `k` ones lie below the largest double, for every moderate `k`.
proof fn lemma_moderate(k: nat)
    requires
        k <= 0x10_0000,
    ensures
        (k + 1) * one_in_units() < size(INFINITY as nat),
        2 * (k * one_in_units()) <= size(INFINITY as nat),
{
    let g = grain();
    lemma_grain();
    lemma2_to64();
    lemma2_to64_rest();
    lemma_size_over(1063, 0x10_0000_0000_0000, 1021, 0x400_0000_0000, 0x4000_0000_0000_0000_0000_0000);
    lemma_size_order(0x4280_0000_0000_0000, INFINITY as nat);
    assert((k + 1) * one_in_units() < 0x4000_0000_0000_0000_0000_0000 * g && 2 * (k * one_in_units())
        < 0x4000_0000_0000_0000_0000_0000 * g) by (nonlinear_arith)
        requires
            0 <= k <= 0x10_0000,
            one_in_units() == 0x20_0000_0000_0000 * g,
            g > 0,
    {
        assert((k + 1) * one_in_units() <= 0x10_0001 * one_in_units());
    }
}

/// A product of at most `k` is rounded by at most `k + 1` grains.
pub proof fn lemma_bounded_product(a: Binary64, b: Binary64, k: nat)
    requires
        a.finite(),
        b.finite(),
        k <= 0x10_0000,
        size(a.magnitude()) * size(b.magnitude()) <= k * (one_in_units() * one_in_units()),
    ensures
        product(a, b).finite(),
        product(a, b).negative() == (a.negative() != b.negative()),
        close(product(a, b).units() * one_in_units(), a.units() * b.units(), (((k + 1) * grain()) * one_in_units()) as int),
{
    let z = one_in_units() as int;
    let u = 2 * BINADE as int;
    let g = grain() as int;
    let n = size(a.magnitude()) * size(b.magnitude());
    let top = size(INFINITY as nat) as int;
    lemma_grain();
    lemma_moderate(k);
    lemma_product(a, b);
    assert(n < top * z && n <= (k * one_in_units()) * z) by (nonlinear_arith)
        requires
            n <= k * (z * z),
            (k + 1) * z < top,
            z > 0,
            z == one_in_units(),
    {
        assert(k * (z * z) == (k * z) * z);
        assert((k * z) * z < top * z);
    }
    lemma_product_units(a, b);
    // below the largest double
    let large: nat = 0x7FE0_0000_0000_0000;
    lemma_half_of_the_largest();
    assert(n <= size(large) * one_in_units()) by (nonlinear_arith)
        requires
            n <= (k * one_in_units()) * z,
            2 * (k * one_in_units()) <= top,
            2 * size(large) == top,
            z == one_in_units(),
            z > 0,
    {
        assert((k * one_in_units()) * z <= size(large) * z);
    }
    lemma_product_at_most(a, b, large);
    let e = product(a, b).units() * z - a.units() * b.units();
    let m = k as int;
    assert(-(((m + 1) * g) * z) <= e <= ((m + 1) * g) * z) by (nonlinear_arith)
        requires
            -(n + u * z) <= u * e <= n + u * z,
            n <= (m * z) * z,
            z == u * g,
            u == 0x20_0000_0000_0000,
            g >= 0x1_0000_0000,
            m >= 0,
    {
        assert((m * z) * z == u * ((m * g) * z));
        assert(u * e <= u * ((m * g) * z + z));
        assert(u * e >= -(u * ((m * g) * z + z)));
        assert(e <= (m * g) * z + z);
        assert(e >= -((m * g) * z + z));
        assert(z <= g * z);
        assert(((m + 1) * g) * z == (m * g) * z + g * z);
    }
}

/// Half of what a double can hold.
proof fn lemma_half_of_the_largest()
    ensures
        2 * size(0x7FE0_0000_0000_0000) == size(INFINITY as nat),
{
    let e = pow2(2045);
    lemma2_to64();
    lemma_size_over(2045, 0x10_0000_0000_0000, 2045, 1, 0x10_0000_0000_0000);
    lemma_size_over(2046, 0x10_0000_0000_0000, 2045, 2, 0x20_0000_0000_0000);
    assert(2 * (0x10_0000_0000_0000 * e) == 0x20_0000_0000_0000 * e) by (nonlinear_arith);
}

/// A sum of at most `k` is rounded by at most `k + 1` grains.
pub proof fn lemma_bounded_sum(a: Binary64, b: Binary64, k: nat)
    requires
        a.finite(),
        b.finite(),
        k <= 0x10_0000,
        close(a.units() + b.units(), 0, (k * one_in_units()) as int),
    ensures
        sum(a, b).finite(),
        close(sum(a, b).units(), a.units() + b.units(), ((k + 1) * grain()) as int),
{
    let v = a.units() + b.units();
    let z = one_in_units() as int;
    let u = 2 * BINADE as int;
    let g = grain() as int;
    let large = Binary64 { bits: 0x7FE0_0000_0000_0000 };
    lemma_grain();
    lemma_moderate(k);
    lemma_half_of_the_largest();
    lemma_opposite(large);
    lemma_sum(a, b);
    lemma_rank_keeps_order(v, large.units());
    lemma_rank_keeps_order(opposite(large).units(), v);
    lemma_rank_of_double(large);
    lemma_rank_of_double(opposite(large));
    assert(k * one_in_units() < (k + 1) * one_in_units()) by (nonlinear_arith)
        requires
            one_in_units() > 0,
    ;
    lemma_sum_error(a, b);
    let e = sum(a, b).units() - v;
    let m = k as int;
    assert(-((m + 1) * g) <= e <= (m + 1) * g) by (nonlinear_arith)
        requires
            -(m * z + u) <= u * e <= m * z + u,
            z == u * g,
            u == 0x20_0000_0000_0000,
            g >= 0x1_0000_0000,
            m >= 0,
    {
        assert(m * z == u * (m * g));
        assert(u * e <= u * (m * g + 1));
        assert(u * e >= -(u * (m * g + 1)));
        assert(e <= m * g + 1);
        assert(e >= -(m * g + 1));
        assert((m + 1) * g == m * g + g);
    }
}

/// A quotient of at most `k`, times the divisor, is off by at most `k + 1` grains of it.
pub proof fn lemma_bounded_quotient(a: Binary64, b: Binary64, k: nat)
    requires
        a.finite(),
        b.finite(),
        !b.is_zero(),
        !b.negative(),
        k <= 0x10_0000,
        size(a.magnitude()) <= k * size(b.magnitude()),
    ensures
        quotient(a, b).finite(),
        quotient(a, b).negative() == a.negative(),
        close(quotient(a, b).units() * b.units(), a.units() * one_in_units(), ((k + 1) * grain()) * b.units()),
{
    let z = one_in_units() as int;
    let u = 2 * BINADE as int;
    let g = grain() as int;
    let x = size(a.magnitude()) as int;
    let d = size(b.magnitude()) as int;
    let m = k as int;
    let top = size(INFINITY as nat) as int;
    let large: nat = 0x7FE0_0000_0000_0000;
    lemma_grain();
    lemma_moderate(k);
    lemma_half_of_the_largest();
    lemma_size_positive(b.magnitude());
    lemma_quotient(a, b);
    assert(x * z < top * d && x * z <= size(large) * d && x * z <= (m * z) * d) by (nonlinear_arith)
        requires
            0 <= x <= m * d,
            d > 0,
            z > 0,
            (m + 1) * z < top,
            2 * (m * z) <= top,
            2 * size(large) == top,
            m >= 0,
    {
        assert(x * z <= (m * d) * z);
        assert((m * d) * z == (m * z) * d);
        assert((m * z) * d <= size(large) * d);
        assert(m * z < top);
        assert((m * z) * d < top * d);
    }
    lemma_quotient_error(a, b);
    let n = (x * z) as nat;
    assert(n * (d as nat) <= (size(large) * (d as nat)) * (d as nat)) by (nonlinear_arith)
        requires
            0 <= n <= size(large) * d,
            d > 0,
    ;
    lemma_nearest_keeps_order(n, d as nat, size(large) * d as nat, d as nat);
    lemma_nearest_keeps(large, d as nat);
    let q = size(quotient(a, b).magnitude()) as int;
    let e = q * d - x * z;
    assert(-(((m + 1) * g) * d) <= e <= ((m + 1) * g) * d) by (nonlinear_arith)
        requires
            u * (q * d) <= u * (x * z) + x * z + u * d,
            u * (x * z) <= u * (q * d) + x * z + u * d,
            e == q * d - x * z,
            x * z <= (m * z) * d,
            z == u * g,
            u == 0x20_0000_0000_0000,
            g >= 0x1_0000_0000,
            m >= 0,
            d > 0,
    {
        assert((m * z) * d == u * ((m * g) * d));
        assert(u * e == u * (q * d) - u * (x * z));
        assert(u * e <= u * ((m * g) * d + d));
        assert(u * e >= -(u * ((m * g) * d + d)));
        assert(e <= (m * g) * d + d);
        assert(e >= -((m * g) * d + d));
        assert(d <= g * d);
        assert(((m + 1) * g) * d == (m * g) * d + g * d);
    }
    assert((-q) * d == -(q * d) && (-x) * z == -(x * z)) by (nonlinear_arith);
}

} // verus!
