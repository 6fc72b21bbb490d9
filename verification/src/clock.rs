//! Times are nanoseconds on a monotonic clock.

use vstd::prelude::*;
use crate::decimals::{is_decimal, lemma_decimal_value};
use crate::binary64::nearness::{close, grain, lemma_bounded_quotient, lemma_bounded_sum, lemma_grain};
use vstd::arithmetic::power2::{lemma2_to64, lemma_pow2_adds, lemma_pow2_pos, lemma_pow2_strictly_increases, pow2};
use crate::binary64::arithmetic::{lemma_nearest_zero, lemma_size_positive, quotient, sum};
use crate::binary64::convert::{from_whole, one_in_units};
use crate::binary64::facts::{
    at_most, lemma_nearest_keeps, lemma_nearest_keeps_order, lemma_quotient, lemma_quotient_grows,
    lemma_rank_keeps_order, lemma_rank_of_double, lemma_size_of_one, lemma_sum, lemma_sum_with_zero, lemma_units_order,
    lemma_whole_is_exact, lemma_whole_keeps_order, rank_of_units,
};
use crate::binary64::model::{
    exponent, lemma_nearest_exists, lemma_parts, lemma_size_next, lemma_size_of, lemma_size_order, nearest, significand,
    size, Binary64, BINADE,
};
use crate::binary64::order::less;
use crate::binary64::rounding::lemma_binades;

verus! {

/// Nanoseconds in a second.
pub const NANOS_PER_SECOND: u64 = 1_000_000_000;

/// The nanoseconds from `earlier` to `now`; none where `earlier` lies ahead.
pub open spec fn since(now: u64, earlier: u64) -> nat {
    if now < earlier {
        0
    } else {
        (now - earlier) as nat
    }
}

/// A number of nanoseconds as a double that counts seconds.
pub open spec fn seconds(nanos: nat) -> Binary64 {
    sum(
        from_whole(nanos / NANOS_PER_SECOND as nat),
        quotient(from_whole(nanos % NANOS_PER_SECOND as nat), from_whole(NANOS_PER_SECOND as nat)),
    )
}

/// The nanoseconds from `earlier` to `now`.
pub fn elapsed(now: u64, earlier: u64) -> (r: u64)
    ensures
        r == since(now, earlier),
{
    if now < earlier { 0 } else { now - earlier }
}

/// A number of nanoseconds in seconds.
pub fn as_seconds(nanos: u64) -> (r: Binary64)
    ensures
        r == seconds(nanos as nat),
{
    let whole: Binary64 = Binary64::from_u64(nanos / NANOS_PER_SECOND);
    let part: Binary64 = Binary64::from_u64(nanos % NANOS_PER_SECOND);
    whole.plus(part.over(Binary64::from_u64(NANOS_PER_SECOND)))
}

/// The part of a second that `r` nanoseconds are.
proof fn lemma_part_of_second(r: nat)
    requires
        r < NANOS_PER_SECOND,
    ensures
        ({
            let q = quotient(from_whole(r), from_whole(NANOS_PER_SECOND as nat));
            &&& q.finite()
            &&& !q.negative()
            &&& q.units() <= one_in_units() - pow2(1044)
            &&& r == 0 ==> q.is_zero()
            &&& r > 0 ==> q.units() >= pow2(1044)
        }),
{
    let d = NANOS_PER_SECOND as nat;
    let one = one_in_units();
    let q = quotient(from_whole(r), from_whole(d));
    lemma_whole_is_exact(r);
    lemma_whole_is_exact(d);
    lemma_size_of_one();
    let x = r * one;
    let z = d * one;
    assert(z > 0) by (nonlinear_arith)
        requires
            z == d * one,
            d == 1_000_000_000,
            one > 0,
    ;
    lemma_size_positive(from_whole(d).magnitude());
    lemma_quotient(from_whole(r), from_whole(d));
    assert(q.magnitude() == nearest(x * one, z));
    lemma_binades();
    lemma2_to64();
    lemma_pow2_adds(1044, 30);
    lemma_pow2_pos(1044);
    // no more than 1 - 2^-30
    let high: nat = 0x3FEF_FFFF_FF80_0000;
    let top: nat = 0x1F_FFFF_FF80_0000;
    lemma_size_of(1021, top);
    lemma_pow2_adds(23, 1021);
    assert(size(high) == one - pow2(1044)) by (nonlinear_arith)
        requires
            size(high) == top * pow2(1021),
            top == 0x3FFF_FFFF * 0x80_0000,
            pow2(1044) == 0x80_0000 * pow2(1021),
            one == pow2(1044) * 0x4000_0000,
    ;
    lemma_nearest_keeps(high, z);
    assert((x * one) * z <= (size(high) * z) * z) by (nonlinear_arith)
        requires
            x == r * one,
            z == d * one,
            r <= d - 1,
            d == 1_000_000_000,
            one == pow2(1044) * 0x4000_0000,
            size(high) == one - pow2(1044),
            pow2(1044) > 0,
    {
        assert(d * pow2(1044) <= one);
        assert(r * one <= (d - 1) * one);
        assert((d - 1) * one == d * one - one);
        assert(d * size(high) == d * one - d * pow2(1044));
        assert(r * one <= d * size(high));
        assert(x * one <= (d * size(high)) * one);
        assert((d * size(high)) * one == size(high) * z);
        assert((x * one) * z <= (size(high) * z) * z);
    }
    lemma_nearest_keeps_order(x * one, z, size(high) * z, z);
    lemma_size_order(q.magnitude(), high);
    if r == 0 {
        assert(x * one == 0) by (nonlinear_arith)
            requires
                x == r * one,
                r == 0,
        ;
        lemma_nearest_zero(z);
    } else {
        // no less than 2^-30
        let low: nat = 0x3E10_0000_0000_0000;
        lemma_size_of(992, BINADE as nat);
        lemma_pow2_adds(52, 992);
        assert(size(low) == pow2(1044));
        lemma_nearest_keeps(low, z);
        assert((pow2(1044) * z) * z <= (x * one) * z) by (nonlinear_arith)
            requires
                x == r * one,
                z == d * one,
                one == pow2(1044) * 0x4000_0000,
                d == 1_000_000_000,
                r >= 1,
        {
            assert(pow2(1044) * d <= one);
            assert(one <= r * one);
            assert(pow2(1044) * z == (pow2(1044) * d) * one);
            assert((pow2(1044) * d) * one <= one * one);
            assert(one * one <= (r * one) * one);
            assert((pow2(1044) * z) * z <= (x * one) * z);
        }
        lemma_nearest_keeps_order(pow2(1044) * z, z, x * one, z);
        lemma_size_order(low, q.magnitude());
    }
}

/// A time in seconds exceeds a whole number of seconds, as a double, exactly where the
/// time in nanoseconds does.  (From 2^23 seconds on, a nanosecond can be lost.)
pub proof fn law_seconds_keep_order(nanos: nat, k: nat)
    requires
        nanos <= u64::MAX,
        k < 0x80_0000,
    ensures
        less(from_whole(k), seconds(nanos)) <==> nanos > k * NANOS_PER_SECOND,
        less(seconds(nanos), from_whole(k)) <==> nanos < k * NANOS_PER_SECOND,
{
    let d = NANOS_PER_SECOND as nat;
    let one = one_in_units();
    let w = nanos / d;
    let r = nanos % d;
    let whole = from_whole(w);
    let part = quotient(from_whole(r), from_whole(d));
    let limit = from_whole(k);
    lemma_part_of_second(r);
    lemma_whole_is_exact(w);
    lemma_whole_is_exact(k);
    lemma_whole_is_exact(k + 1);
    lemma_size_of_one();
    lemma_sum(whole, part);
    lemma_rank_of_double(limit);
    let v = whole.units() + part.units();
    let total = seconds(nanos);
    assert(total.rank() == rank_of_units(v));
    assert(!limit.is_nan_spec());
    if nanos < k * d {
        assert(w + 1 <= k);
    } else if nanos == k * d {
        assert(w == k && r == 0);
        lemma_sum_with_zero(whole, part);
    } else if w > k {
        assert((k + 1) * one <= w * one && k * one < (k + 1) * one) by (nonlinear_arith)
            requires
                k + 1 <= w,
                one > 0,
        ;
        lemma_rank_keeps_order(from_whole(k + 1).units(), v);
        lemma_rank_of_double(from_whole(k + 1));
        lemma_units_order(limit, from_whole(k + 1));
    } else {
        assert(w == k && r > 0);
        lemma_just_above(k, v);
    }
    if nanos < k * d {
        lemma_just_below(k, w, r, v);
    }
}

/// A time is a finite number of seconds, and not a negative one.
pub proof fn law_seconds_are_finite(nanos: nat)
    requires
        nanos <= u64::MAX,
    ensures
        seconds(nanos).finite(),
        at_most(from_whole(0), seconds(nanos)),
{
    let d = NANOS_PER_SECOND as nat;
    let one = one_in_units();
    let w = nanos / d;
    let whole = from_whole(w);
    let part = quotient(from_whole(nanos % d), from_whole(d));
    lemma_part_of_second(nanos % d);
    lemma_whole_is_exact(w);
    lemma_whole_is_exact(w + 1);
    lemma_whole_is_exact(0);
    lemma_pow2_pos(1044);
    lemma_sum(whole, part);
    assert((w + 1) * one == w * one + one && 0 * one == 0 && w * one >= 0) by (nonlinear_arith)
        requires
            w >= 0,
            one >= 0,
    ;
    lemma_rank_keeps_order(whole.units() + part.units(), from_whole(w + 1).units());
    lemma_rank_of_double(from_whole(w + 1));
    lemma_rank_keeps_order(from_whole(0).units(), whole.units() + part.units());
    lemma_rank_of_double(from_whole(0));
}

/// A longer time is no fewer seconds.
pub proof fn law_seconds_grow(shorter: nat, longer: nat)
    requires
        shorter <= longer <= u64::MAX,
    ensures
        at_most(seconds(shorter), seconds(longer)),
{
    let d = NANOS_PER_SECOND as nat;
    let one = one_in_units();
    let v = shorter / d;
    let w = longer / d;
    let less_part = quotient(from_whole(shorter % d), from_whole(d));
    let more_part = quotient(from_whole(longer % d), from_whole(d));
    lemma_part_of_second(shorter % d);
    lemma_part_of_second(longer % d);
    lemma_whole_is_exact(v);
    lemma_whole_is_exact(w);
    lemma_sum(from_whole(v), less_part);
    lemma_sum(from_whole(w), more_part);
    lemma_pow2_pos(1044);
    if v < w {
        assert(v * one + one <= w * one) by (nonlinear_arith)
            requires
                v + 1 <= w,
                one >= 0,
        ;
    } else {
        assert(v == w && shorter % d <= longer % d);
        lemma_whole_is_exact(shorter % d);
        lemma_whole_is_exact(longer % d);
        lemma_whole_is_exact(d);
        lemma_whole_keeps_order(shorter % d, longer % d);
        lemma_size_positive(from_whole(d).magnitude());
        lemma_size_of_one();
        assert(d * one > 0) by (nonlinear_arith)
            requires
                d == 1_000_000_000,
                one > 0,
        ;
        lemma_quotient_grows(from_whole(shorter % d), from_whole(longer % d), from_whole(d));
        lemma_units_order(less_part, more_part);
    }
    lemma_rank_keeps_order(from_whole(v).units() + less_part.units(), from_whole(w).units() + more_part.units());
}

/// A number that exceeds `k` by at least 2^-30 is rounded to more than `k`.
proof fn lemma_just_above(k: nat, v: int)
    requires
        k < 0x80_0000,
        v >= k * one_in_units() + pow2(1044),
    ensures
        rank_of_units(v) > from_whole(k).rank(),
{
    let p = from_whole(k).magnitude();
    lemma_whole_is_exact(k);
    lemma_size_next(p);
    lemma_pow2_pos(1044);
    lemma_step(k, p);
    lemma_nearest_exists(v as nat, 1);
    let q = nearest(v as nat, 1);
    lemma_nearest_keeps(p, 1);
    lemma_nearest_keeps_order(size(p) * 1, 1, v as nat, 1);
    if q == p {
        assert((size(p) + size(p + 1)) * 1 == size(p) + size(p + 1));
        assert(2 * v >= 2 * size(p) + 2 * pow2(1044));
    }
}

/// A number of whole seconds and a part, below `k`, is rounded to less than `k`.
proof fn lemma_just_below(k: nat, w: nat, r: nat, v: int)
    requires
        k < 0x80_0000,
        w + 1 <= k,
        r < NANOS_PER_SECOND,
        v == w * one_in_units() + quotient(from_whole(r), from_whole(NANOS_PER_SECOND as nat)).units(),
    ensures
        rank_of_units(v) < from_whole(k).rank(),
{
    let one = one_in_units();
    let p = from_whole(k).magnitude();
    lemma_whole_is_exact(k);
    lemma_part_of_second(r);
    lemma_size_of_one();
    lemma_size_positive(p);
    assert(k * one >= (w + 1) * one && (w + 1) * one == w * one + one && k * one > 0) by (nonlinear_arith)
        requires
            w + 1 <= k,
            one > 0,
    ;
    let before = (p - 1) as nat;
    lemma_step(k, before);
    lemma_size_next(before);
    assert(0 <= w * one) by (nonlinear_arith);
    lemma_nearest_keeps(before, 1);
    lemma_nearest_keeps_order(v as nat, 1, size(before) * 1, 1);
}

/// Doubles up to `k` are at most 2^-30 apart.
proof fn lemma_step(k: nat, p: nat)
    requires
        k < 0x80_0000,
        p <= from_whole(k).magnitude(),
    ensures
        pow2(exponent(p)) <= pow2(1044),
{
    let one = one_in_units();
    let t = exponent(p);
    lemma_whole_is_exact(k);
    lemma_size_order(from_whole(k).magnitude(), p);
    lemma_size_of_one();
    lemma_parts(p);
    lemma_pow2_pos(t);
    lemma2_to64();
    lemma_binades();
    if t > 1044 {
        lemma_pow2_adds(23, 1074);
        lemma_pow2_adds(52, 1045);
        if t > 1045 {
            lemma_pow2_strictly_increases(1045, t);
        }
        assert(k * one < 0x80_0000 * one) by (nonlinear_arith)
            requires
                k < 0x80_0000,
                one > 0,
        ;
        assert(significand(p) * pow2(t) >= BINADE * pow2(1045)) by (nonlinear_arith)
            requires
                significand(p) >= BINADE,
                pow2(t) >= pow2(1045),
        ;
    } else if t < 1044 {
        lemma_pow2_strictly_increases(t, 1044);
    }
}

/// Up to 4096 seconds, a time in seconds is its nanoseconds over a billion, up to 5000 parts
/// in 2^53 of a second; below one second, up to four.
pub proof fn law_seconds_are_accurate(nanos: nat)
    requires
        nanos <= 4096 * NANOS_PER_SECOND,
    ensures
        seconds(nanos).finite(),
        close(
            NANOS_PER_SECOND * seconds(nanos).units(),
            (nanos * one_in_units()) as int,
            (5_000_000_000_000 * grain()) as int,
        ),
        nanos < NANOS_PER_SECOND ==> close(
            NANOS_PER_SECOND * seconds(nanos).units(),
            (nanos * one_in_units()) as int,
            (4_000_000_000 * grain()) as int,
        ),
{
    let d = NANOS_PER_SECOND as nat;
    let one = one_in_units() as int;
    let g = grain() as int;
    let w = nanos / d;
    let r = nanos % d;
    let whole = from_whole(w);
    let part = quotient(from_whole(r), from_whole(d));
    lemma_grain();
    lemma_whole_is_exact(w);
    lemma_whole_is_exact(r);
    lemma_whole_is_exact(d);
    assert(r * one <= 1 * (d * one) && d * one > 0) by (nonlinear_arith)
        requires
            0 <= r <= d,
            one > 0,
            d > 0,
    ;
    lemma_size_positive(from_whole(d).magnitude());
    lemma_bounded_quotient(from_whole(r), from_whole(d), 1);
    let p = part.units();
    let e = d as int;
    assert((e * p - r * one) * one == p * (e * one) - (r * one) * one && ((1 + 1) * g) * (e * one) == (2 * (e * g)) * one)
        by (nonlinear_arith);
    crate::binary64::nearness::lemma_cancel(e * p - r * one, 2 * (e * g), one);
    assert(p <= 2 * one) by (nonlinear_arith)
        requires
            e * p <= r * one + 2 * (e * g),
            r <= e,
            e > 0,
            one >= 2 * g,
            one > 0,
    {
        assert(r * one <= e * one);
        assert(2 * (e * g) <= e * one);
        assert(e * p <= e * (2 * one));
    }
    assert(one >= 2 * g && one >= 1000000 * g) by (nonlinear_arith)
        requires
            one == 0x20_0000_0000_0000 * g,
            g > 0,
    ;
    assert(0 <= w * one <= 4096 * one) by (nonlinear_arith)
        requires
            0 <= w <= 4096,
            one > 0,
    ;
    lemma_part_of_second(r);
    assert(4098 * one_in_units() >= 0);
    lemma_bounded_sum(whole, part, 4098);
    let t = seconds(nanos).units();
    assert((4098 + 1) * grain() == 4099 * grain()) by (nonlinear_arith);
    assert(nanos * one == e * (w * one) + r * one) by (nonlinear_arith)
        requires
            nanos == e * w + r,
    ;
    assert(e * (t - (w * one + p)) == e * t - e * (w * one) - e * p) by (nonlinear_arith);
    crate::binary64::nearness::lemma_times_bound(e, t - (w * one + p), e, 4099 * g);
    if nanos < d {
        assert(w == 0);
        lemma_bounded_sum(whole, part, 1);
        assert((1 + 1) * grain() == 2 * grain()) by (nonlinear_arith);
        crate::binary64::nearness::lemma_times_bound(e, t - (w * one + p), e, 2 * g);
    }
}

/// Fifty milliseconds are 0.05 s, and one nanosecond more is more.
pub proof fn law_fifty_milliseconds(nanos: nat, limit: Binary64)
    requires
        nanos <= u64::MAX,
        is_decimal(limit.bits, 5, 100),
    ensures
        less(limit, seconds(nanos)) <==> nanos > 50_000_000,
{
    let n: nat = 50_000_000;
    let d = NANOS_PER_SECOND as nat;
    let one = one_in_units();
    let g = grain() as int;
    lemma_grain();
    lemma_decimal_value(limit.bits, 5, 100);
    lemma_whole_is_exact(0);
    lemma_whole_is_exact(n);
    lemma_whole_is_exact(d);
    let part = quotient(from_whole(n), from_whole(d));
    assert(d * one > 0) by (nonlinear_arith)
        requires
            d == 1_000_000_000,
            one > 0,
    ;
    lemma_size_positive(from_whole(d).magnitude());
    lemma_quotient(from_whole(n), from_whole(d));
    assert((5 * one) * (d * one) == ((n * one) * one) * 100) by (nonlinear_arith)
        requires
            n == 50_000_000,
            d == 1_000_000_000,
    ;
    lemma_nearest_keeps_order(5 * one, 100, (n * one) * one, d * one);
    lemma_nearest_keeps_order((n * one) * one, d * one, 5 * one, 100);
    crate::binary64::model::lemma_nearest_is(5 * one, 100, limit.bits as nat);
    assert(part.magnitude() == limit.bits);
    crate::binary64::facts::lemma_whole_keeps_order(0, 0);
    lemma_nearest_zero(1);
    assert(0 * one == 0) by (nonlinear_arith);
    assert(from_whole(0).is_zero());
    lemma_sum_with_zero(part, from_whole(0));
    vstd::arithmetic::div_mod::lemma_small_mod(n, d);
    assert(seconds(n).rank() == limit.rank());
    if nanos <= n {
        law_seconds_grow(nanos, n);
    } else {
        let more = n + 1;
        law_seconds_grow(more, nanos);
        law_seconds_are_accurate(more);
        law_seconds_are_finite(more);
        law_seconds_are_finite(nanos);
        assert(1000000000 * limit.units() < 1000000000 * seconds(more).units()) by (nonlinear_arith)
            requires
                100 * limit.units() <= 5 * one + 6 * g,
                1000000000 * seconds(more).units() >= 50_000_001 * one - 4_000_000_000 * g,
                one == 0x20_0000_0000_0000 * g,
                g > 0,
        ;
        lemma_units_order(limit, seconds(more));
    }
}

/// Time passes from earlier to later, and none passes the other way.
pub proof fn law_since(now: u64, earlier: u64)
    ensures
        now >= earlier ==> since(now, earlier) == now - earlier,
        now <= earlier ==> since(now, earlier) == 0,
{
}

} // verus!
