//! How far a foot moves along the ground when its place in the cycle moves a little.

use vstd::prelude::*;
use vstd::arithmetic::power2::{lemma2_to64, lemma_pow2_adds, lemma_pow2_pos, pow2};
use crate::binary64::arithmetic::{
    difference, distance_from_zero, lemma_size_positive, opposite, product, quotient, sum,
};
use crate::binary64::convert::one_in_units;
use crate::binary64::facts::{
    lemma_nearest_keeps, lemma_opposite, lemma_product, lemma_product_grows, lemma_product_units,
    lemma_product_with_one, lemma_quotient, lemma_rank_keeps_order, lemma_rank_of_double, lemma_short_is_exact,
    lemma_size_over, lemma_sum, lemma_sum_error, lemma_twice_is_exact,
};
use crate::binary64::model::{
    exponent, lemma_parts, lemma_size_of, lemma_size_order, lemma_size_small, significand, size, Binary64, BINADE,
    INFINITY,
};
use crate::binary64::nearness::{close, grain, lemma_cancel, lemma_grain, lemma_times_bound};
use crate::gait::{
    foot_ahead, in_stance, lateral_sign, stance_progress, steps, swing_progress, Gait, Leg, DUTY_CYCLE, HALF,
    MOVING_THRESHOLD, TRAVEL, TURN_TRAVEL, UNITY,
};
use crate::gait::cycle::{is_place, lemma_place_units, near};
use crate::gait::workspace::{lemma_off_middle, lemma_stance_progress, lemma_swing_progress};

verus! {

/// How far a foot is from the middle of its travel, as a share of it: one half at the
/// start of a stance, as much on the other side at its end, and back during the swing.
pub open spec fn off_middle(place: Binary64) -> Binary64 {
    if in_stance(place) {
        difference(Binary64 { bits: HALF }, stance_progress(place))
    } else {
        difference(swing_progress(place), Binary64 { bits: HALF })
    }
}

/// Dividing by one half doubles.
proof fn lemma_over_half(a: Binary64)
    requires
        a.finite(),
        size(a.magnitude()) <= one_in_units(),
    ensures
        quotient(a, Binary64 { bits: HALF }).finite(),
        quotient(a, Binary64 { bits: HALF }).units() == 2 * a.units(),
{
    let half = Binary64 { bits: HALF };
    let one = one_in_units();
    let x = size(a.magnitude());
    let h = size(HALF as nat);
    let q = lemma_twice_is_exact(a.magnitude());
    lemma_grain();
    lemma2_to64();
    lemma_size_over(1023, 0x10_0000_0000_0000, 1021, 4, 0x40_0000_0000_0000);
    assert(2 * one == size(0x4000_0000_0000_0000)) by (nonlinear_arith)
        requires
            one == 0x20_0000_0000_0000 * grain(),
            size(0x4000_0000_0000_0000) == 0x40_0000_0000_0000 * grain(),
    ;
    lemma_size_order(0x4000_0000_0000_0000, q);
    lemma_size_positive(HALF as nat);
    lemma_quotient(a, half);
    assert(x * one == size(q) * h) by (nonlinear_arith)
        requires
            size(q) == 2 * x,
            one == 0x20_0000_0000_0000 * grain(),
            h == 0x10_0000_0000_0000 * grain(),
    ;
    lemma_nearest_keeps(q, h);
}

/// What is left of a place in the swing once the stance is taken off.
proof fn lemma_past_stance(place: Binary64)
    requires
        is_place(place),
        !in_stance(place),
    ensures
        ({
            let past = difference(place, Binary64 { bits: DUTY_CYCLE });
            &&& past.finite()
            &&& past.units() == place.units() - BINADE * grain()
            &&& 0 <= past.units() < BINADE * grain()
        }),
{
    let half = Binary64 { bits: HALF };
    let s = significand(place.magnitude());
    let g = grain();
    lemma_place_units(place);
    lemma_grain();
    lemma_parts(place.magnitude());
    lemma_opposite(half);
    assert(exponent(place.magnitude()) == 1021);
    let r = (s - BINADE) as nat;
    let p = lemma_short_is_exact(r, 1021);
    assert(s * g - BINADE * g == r * g && r * g < BINADE * g) by (nonlinear_arith)
        requires
            r == s - BINADE,
            r < BINADE,
            g > 0,
    ;
    lemma_size_order(HALF as nat, p);
    let past = Binary64 { bits: p as u64 };
    lemma_sum(place, opposite(half));
    lemma_rank_of_double(past);
    let there = sum(place, opposite(half));
    assert(there.rank() == past.rank());
    lemma_size_small();
}

/// One less one half is one half.
proof fn lemma_rest_of_cycle()
    ensures
        difference(Binary64 { bits: UNITY }, Binary64 { bits: DUTY_CYCLE }) == (Binary64 { bits: HALF }),
{
    let one = Binary64 { bits: UNITY };
    let half = Binary64 { bits: HALF };
    let g = grain();
    lemma_grain();
    lemma_opposite(half);
    lemma_sum(one, opposite(half));
    lemma_rank_of_double(half);
    assert(0x20_0000_0000_0000 * g - 0x10_0000_0000_0000 * g == 0x10_0000_0000_0000 * g) by (nonlinear_arith);
}

/// The progress of a stance or a swing is exact.
pub(crate) proof fn lemma_progress(place: Binary64)
    requires
        is_place(place),
    ensures
        in_stance(place) ==> {
            &&& stance_progress(place).finite()
            &&& stance_progress(place).units() == 2 * place.units()
        },
        !in_stance(place) ==> {
            &&& swing_progress(place).finite()
            &&& swing_progress(place).units() == 2 * (place.units() - BINADE * grain())
        },
{
    lemma_grain();
    lemma_place_units(place);
    if in_stance(place) {
        lemma_over_half(place);
    } else {
        lemma_past_stance(place);
        lemma_rest_of_cycle();
        let past = difference(place, Binary64 { bits: DUTY_CYCLE });
        assert(size(past.magnitude()) <= one_in_units()) by (nonlinear_arith)
            requires
                size(past.magnitude()) <= BINADE * grain(),
                one_in_units() == (2 * BINADE) * grain(),
        ;
        lemma_over_half(past);
    }
}

/// Where a foot is in its travel, without rounding.
pub open spec fn wave(x: int) -> int {
    let half = BINADE * grain() as int;
    if x < half {
        half - 2 * x
    } else {
        2 * x - 3 * half
    }
}

/// The distance from the middle is rounded by at most one grain.
pub(crate) proof fn lemma_wave(place: Binary64)
    requires
        is_place(place),
    ensures
        off_middle(place).finite(),
        off_middle(place).magnitude() <= HALF,
        close(off_middle(place).units(), wave(place.units()), grain() as int),
        in_stance(place) <==> place.units() < BINADE * grain(),
{
    let half = Binary64 { bits: HALF };
    let g = grain() as int;
    let h = BINADE * g;
    let v = wave(place.units());
    lemma_grain();
    lemma_place_units(place);
    lemma_size_order(place.magnitude(), HALF as nat);
    lemma_size_order(HALF as nat, INFINITY as nat);
    lemma_progress(place);
    lemma_opposite(half);
    lemma_size_small();
    assert(one_in_units() == 2 * h) by (nonlinear_arith)
        requires
            one_in_units() == (2 * BINADE) * g,
            h == BINADE * g,
    ;
    if in_stance(place) {
        lemma_stance_progress(place);
        lemma_off_middle(stance_progress(place));
        lemma_opposite(stance_progress(place));
        lemma_sum_error(half, opposite(stance_progress(place)));
    } else {
        lemma_swing_progress(place);
        lemma_off_middle(swing_progress(place));
        lemma_sum_error(swing_progress(place), opposite(half));
    }
    let e = off_middle(place).units() - v;
    let u = 2 * BINADE as int;
    assert(-g <= e <= g) by (nonlinear_arith)
        requires
            -(h + u) <= u * e <= h + u,
            h == 0x10_0000_0000_0000 * g,
            u == 0x20_0000_0000_0000,
            g >= 0x1_0000_0000,
    {
        assert(h + u <= u * g);
    }
}

/// Places that are near each other in the cycle are near each other in the travel.
pub(crate) proof fn lemma_near_in_travel(a: Binary64, b: Binary64, grains: nat)
    requires
        is_place(a),
        is_place(b),
        grains <= 64,
        near(a, b, grains),
    ensures
        close(off_middle(a).units(), off_middle(b).units(), ((2 * grains + 2) * grain()) as int),
{
    let g = grain() as int;
    let h = BINADE * g;
    let m = grains * g;
    lemma_grain();
    lemma_place_units(a);
    lemma_place_units(b);
    lemma_wave(a);
    lemma_wave(b);
    assert(one_in_units() == 2 * h && 0 <= m < h && (2 * grains + 2) * g == 2 * m + 2 * g) by (nonlinear_arith)
        requires
            one_in_units() == (2 * 0x10_0000_0000_0000) * g,
            h == 0x10_0000_0000_0000 * g,
            m == grains * g,
            0 <= grains <= 64,
            g > 0,
    ;
    assert(close(wave(a.units()), wave(b.units()), 2 * m));
}

/// `a` times something up to one half: near factors have near products.
proof fn lemma_scaled(a: Binary64, d: Binary64, e: Binary64, n: nat)
    requires
        a.finite(),
        d.magnitude() <= HALF,
        e.magnitude() <= HALF,
        close(d.units(), e.units(), (n * grain()) as int),
    ensures
        ({
            let p = product(a, d);
            let r = product(a, e);
            let u = 2 * BINADE as int;
            let x = size(a.magnitude()) as int;
            &&& p.finite() && r.finite()
            &&& close(u * p.units(), u * r.units(), x * (n + 1) + 2 * u)
            &&& close(2 * (u * p.units()), 0, (u + 1) * x + 2 * u)
            &&& close(2 * (u * r.units()), 0, (u + 1) * x + 2 * u)
        }),
{
    let one = one_in_units();
    lemma_grain();
    lemma_half_factor(a, d);
    lemma_half_factor(a, e);
    lemma_scaled_numbers(
        size(a.magnitude()) as int,
        a.units(),
        d.units(),
        e.units(),
        product(a, d).units(),
        product(a, e).units(),
        n as int,
        grain() as int,
        one as int,
    );
}

/// A product with something up to one half.
pub(crate) proof fn lemma_half_factor(a: Binary64, d: Binary64)
    requires
        a.finite(),
        d.magnitude() <= HALF,
    ensures
        ({
            let u = 2 * BINADE as int;
            let one = one_in_units() as int;
            let x = size(a.magnitude()) as int;
            &&& product(a, d).finite()
            &&& product(a, d).magnitude() <= a.magnitude()
            &&& close(u * (product(a, d).units() * one - a.units() * d.units()), 0, x * (BINADE * grain()) + u * one)
            &&& close(d.units(), 0, BINADE * grain() as int)
            &&& close(a.units(), 0, x)
        }),
{
    let one = Binary64 { bits: UNITY };
    let x = size(a.magnitude());
    let y = size(d.magnitude());
    let h = size(HALF as nat);
    let top = size(INFINITY as nat);
    lemma_grain();
    lemma_size_order(HALF as nat, d.magnitude());
    lemma_size_order(a.magnitude(), INFINITY as nat);
    lemma_product(a, d);
    lemma_product_grows(d, one, a);
    lemma_product_with_one(a);
    assert(h < one_in_units()) by (nonlinear_arith)
        requires
            h == BINADE * grain(),
            one_in_units() == (2 * BINADE) * grain(),
            grain() > 0,
            BINADE == 0x10_0000_0000_0000,
    ;
    assert(x * y < top * one_in_units() && x * y <= x * h) by (nonlinear_arith)
        requires
            0 <= x < top,
            0 <= y <= h,
            h < one_in_units(),
    {
        assert(x * y <= x * h);
        assert(x * h <= top * h);
        assert(top * h < top * one_in_units());
    }
    lemma_product_units(a, d);
}

/// The same on whole numbers.
proof fn lemma_scaled_numbers(x: int, a: int, d: int, e: int, p: int, r: int, n: int, g: int, one: int)
    requires
        g > 0,
        n >= 0,
        one == 0x20_0000_0000_0000 * g,
        close(a, 0, x),
        close(d, 0, 0x10_0000_0000_0000 * g),
        close(e, 0, 0x10_0000_0000_0000 * g),
        close(d, e, n * g),
        close(0x20_0000_0000_0000 * (p * one - a * d), 0, x * (0x10_0000_0000_0000 * g) + 0x20_0000_0000_0000 * one),
        close(0x20_0000_0000_0000 * (r * one - a * e), 0, x * (0x10_0000_0000_0000 * g) + 0x20_0000_0000_0000 * one),
    ensures
        close(0x20_0000_0000_0000 * p, 0x20_0000_0000_0000 * r, x * (n + 1) + 2 * 0x20_0000_0000_0000),
        close(
            2 * (0x20_0000_0000_0000 * p),
            0,
            (0x20_0000_0000_0000 + 1) * x + 2 * 0x20_0000_0000_0000,
        ),
        close(
            2 * (0x20_0000_0000_0000 * r),
            0,
            (0x20_0000_0000_0000 + 1) * x + 2 * 0x20_0000_0000_0000,
        ),
{
    let u = 0x20_0000_0000_0000int;
    let h = 0x10_0000_0000_0000 * g;
    let i = x * h;
    lemma_times_bound(a, d, x, h);
    lemma_times_bound(a, e, x, h);
    lemma_times_bound(a, d - e, x, n * g);
    assert(a * (d - e) == a * d - a * e) by (nonlinear_arith);
    assert(u * (p * one - a * d) == u * (p * one) - u * (a * d) && u * (r * one - a * e) == u * (r * one) - u * (a * e))
        by (nonlinear_arith);
    // in multiples of one
    let k = p * one;
    let l = r * one;
    assert(2 * i == x * one && u * (x * (n * g)) == (x * n) * one && 2 * (u * i) == (u * x) * one) by (nonlinear_arith)
        requires
            i == x * h,
            2 * h == one,
            one == u * g,
    ;
    assert(u * (k - l) <= (x * n + x + 2 * u) * one && u * (k - l) >= -((x * n + x + 2 * u) * one)) by (nonlinear_arith)
        requires
            -(i + u * one) <= u * k - u * (a * d) <= i + u * one,
            -(i + u * one) <= u * l - u * (a * e) <= i + u * one,
            -(x * (n * g)) <= a * d - a * e <= x * (n * g),
            2 * i == x * one,
            u * (x * (n * g)) == (x * n) * one,
            u == 0x20_0000_0000_0000,
    {
        assert(u * (a * d - a * e) == u * (a * d) - u * (a * e));
        assert((x * n + x + 2 * u) * one == (x * n) * one + x * one + 2 * (u * one));
    }
    assert(u * (k - l) == (u * p - u * r) * one && u * k == (u * p) * one && u * l == (u * r) * one) by (nonlinear_arith)
        requires
            k == p * one,
            l == r * one,
    ;
    lemma_cancel(u * p - u * r, x * n + x + 2 * u, one);
    assert(x * (n + 1) == x * n + x) by (nonlinear_arith);
    assert(((u + 1) * x + 2 * u) * one == (u * x) * one + x * one + 2 * (u * one)) by (nonlinear_arith);
    assert((2 * (u * p)) * one == 2 * (u * k) && (2 * (u * r)) * one == 2 * (u * l)) by (nonlinear_arith)
        requires
            u * k == (u * p) * one,
            u * l == (u * r) * one,
    ;
    lemma_cancel(2 * (u * p), (u + 1) * x + 2 * u, one);
    lemma_cancel(2 * (u * r), (u + 1) * x + 2 * u, one);
}

/// Something times a factor up to one eighth: near numbers have nearer products.
pub(crate) proof fn lemma_shrunk(p: Binary64, r: Binary64, c: Binary64, apart: int, most: int)
    requires
        p.finite(),
        r.finite(),
        c.finite(),
        !c.negative(),
        8 * size(c.magnitude()) <= one_in_units(),
        close(p.units(), r.units(), apart),
        close(p.units(), 0, most),
        close(r.units(), 0, most),
    ensures
        ({
            let a = product(p, c);
            let b = product(r, c);
            let u = 2 * BINADE as int;
            &&& a.finite() && b.finite()
            &&& close(8 * (u * a.units()), 8 * (u * b.units()), u * apart + 2 * most + 16 * u)
            &&& close(8 * (u * a.units()), 0, (u + 1) * most + 8 * u)
            &&& close(8 * (u * b.units()), 0, (u + 1) * most + 8 * u)
        }),
{
    let one = one_in_units() as int;
    let u = 2 * BINADE as int;
    let f = c.units();
    let a = product(p, c).units();
    let b = product(r, c).units();
    lemma_grain();
    lemma_small_factor(p, c);
    lemma_small_factor(r, c);
    let x = size(p.magnitude()) as int;
    let y = size(r.magnitude()) as int;
    assert(x * f <= most * f && y * f <= most * f) by (nonlinear_arith)
        requires
            x <= most,
            y <= most,
            f >= 0,
    ;
    lemma_shrunk_numbers(p.units(), r.units(), f, a, b, apart, most, one, u);
}

/// A product with something up to one eighth.
proof fn lemma_small_factor(p: Binary64, c: Binary64)
    requires
        p.finite(),
        c.finite(),
        !c.negative(),
        8 * size(c.magnitude()) <= one_in_units(),
    ensures
        ({
            let u = 2 * BINADE as int;
            let one = one_in_units() as int;
            let n = size(p.magnitude()) * size(c.magnitude());
            &&& product(p, c).finite()
            &&& close(u * (product(p, c).units() * one - p.units() * c.units()), 0, n + u * one)
        }),
{
    let one = Binary64 { bits: UNITY };
    let x = size(p.magnitude());
    let y = size(c.magnitude());
    let top = size(INFINITY as nat);
    lemma_grain();
    lemma_size_order(c.magnitude(), UNITY as nat);
    lemma_size_order(p.magnitude(), INFINITY as nat);
    lemma_product(p, c);
    lemma_product_grows(c, one, p);
    lemma_product_with_one(p);
    assert(x * y < top * one_in_units()) by (nonlinear_arith)
        requires
            0 <= x < top,
            0 <= 8 * y <= one_in_units(),
            one_in_units() > 0,
    {
        assert(x * y <= x * one_in_units());
        assert(x * one_in_units() < top * one_in_units());
    }
    lemma_product_units(p, c);
}

/// The same on whole numbers.
proof fn lemma_shrunk_numbers(p: int, r: int, f: int, a: int, b: int, apart: int, most: int, one: int, u: int)
    requires
        u >= 0,
        f >= 0,
        8 * f <= one,
        one > 0,
        close(p, r, apart),
        close(p, 0, most),
        close(r, 0, most),
        close(u * (a * one - p * f), 0, most * f + u * one),
        close(u * (b * one - r * f), 0, most * f + u * one),
    ensures
        close(8 * (u * a), 8 * (u * b), u * apart + 2 * most + 16 * u),
        close(8 * (u * a), 0, (u + 1) * most + 8 * u),
        close(8 * (u * b), 0, (u + 1) * most + 8 * u),
{
    let k = u * (a * one);
    let l = u * (b * one);
    assert(u * (a * one - p * f) == k - u * (p * f) && u * (b * one - r * f) == l - u * (r * f)) by (nonlinear_arith)
        requires
            k == u * (a * one),
            l == u * (b * one),
    ;
    assert(k == (u * a) * one && l == (u * b) * one) by (nonlinear_arith)
        requires
            k == u * (a * one),
            l == u * (b * one),
    ;
    lemma_times_bound(p - r, f, apart, f);
    lemma_times_bound(p, f, most, f);
    lemma_times_bound(r, f, most, f);
    assert((p - r) * f == p * f - r * f) by (nonlinear_arith);
    let s = u * (apart * f);
    let t = u * (most * f);
    lemma_times_bound(u, p * f - r * f, u, apart * f);
    lemma_times_bound(u, p * f, u, most * f);
    lemma_times_bound(u, r * f, u, most * f);
    assert(u * (p * f - r * f) == u * (p * f) - u * (r * f)) by (nonlinear_arith);
    assert(8 * s <= (u * apart) * one && 8 * (most * f) <= most * one && 8 * t <= (u * most) * one) by (nonlinear_arith)
        requires
            s == u * (apart * f),
            t == u * (most * f),
            8 * f <= one,
            f >= 0,
            u >= 0,
            apart >= 0,
            most >= 0,
    {
        assert(8 * (apart * f) <= apart * one);
        assert(8 * (most * f) <= most * one);
        assert(u * (8 * (apart * f)) <= u * (apart * one));
        assert(u * (8 * (most * f)) <= u * (most * one));
    }
    assert((u * apart + 2 * most + 16 * u) * one == (u * apart) * one + 2 * (most * one) + 16 * (u * one)) by (nonlinear_arith);
    assert(((u + 1) * most + 8 * u) * one == (u * most) * one + most * one + 8 * (u * one)) by (nonlinear_arith);
    assert((8 * (u * a) - 8 * (u * b)) * one == 8 * k - 8 * l && (8 * (u * a)) * one == 8 * k && (8 * (u * b)) * one == 8
        * l) by (nonlinear_arith)
        requires
            k == (u * a) * one,
            l == (u * b) * one,
    ;
    lemma_cancel(8 * (u * a) - 8 * (u * b), u * apart + 2 * most + 16 * u, one);
    lemma_cancel(8 * (u * a), (u + 1) * most + 8 * u, one);
    lemma_cancel(8 * (u * b), (u + 1) * most + 8 * u, one);
}

/// The turn rate with the sign of a side.
pub(crate) proof fn lemma_turn(leg: Leg, ang_z: Binary64)
    requires
        ang_z.finite(),
    ensures
        product(lateral_sign(leg), ang_z).magnitude() == ang_z.magnitude(),
{
    let one = Binary64 { bits: UNITY };
    lemma_opposite(one);
    lemma_product_with_one(ang_z);
    lemma_product(one, ang_z);
    lemma_product(opposite(one), ang_z);
}

/// The factors of the travel are at most one eighth.
proof fn lemma_travel_factors()
    ensures
        8 * size(TRAVEL as nat) <= one_in_units(),
        8 * size(TURN_TRAVEL as nat) <= one_in_units(),
{
    lemma_grain();
    lemma2_to64();
    let e = pow2(1018);
    lemma_size_over(1019, 0x10_0000_0000_0000, 1018, 2, 0x20_0000_0000_0000);
    lemma_size_over(1021, 0x10_0000_0000_0000, 1018, 8, 0x80_0000_0000_0000);
    lemma_size_order(0x3FC0_0000_0000_0000, TRAVEL as nat);
    lemma_size_order(0x3FC0_0000_0000_0000, TURN_TRAVEL as nat);
    assert(8 * (0x20_0000_0000_0000 * e) == 2 * (0x80_0000_0000_0000 * e)) by (nonlinear_arith);
    assert(one_in_units() == 2 * size(HALF as nat)) by (nonlinear_arith)
        requires
            one_in_units() == (2 * BINADE) * grain(),
            size(HALF as nat) == BINADE * grain(),
    ;
}

/// Forward velocity and turn rate together, without their signs, in units.
pub open spec fn speed(g: Gait) -> nat {
    size(g.vel_x.magnitude()) + size(g.ang_z.magnitude())
}

/// A robot that steps is not slow.
proof fn lemma_speed_is_large(g: Gait)
    requires
        g.vel_x.finite(),
        g.ang_z.finite(),
        steps(g.vel_x, g.ang_z),
    ensures
        speed(g) >= 128 * BINADE,
{
    let e = pow2(1015);
    lemma2_to64();
    lemma_pow2_adds(12, 1003);
    lemma_pow2_pos(1003);
    lemma_size_of(1015, 0x14_7AE1_47AE_147B);
    assert(0x14_7AE1_47AE_147B * e >= 128 * 0x10_0000_0000_0000) by (nonlinear_arith)
        requires
            e >= 0x1000,
    ;
    lemma_size_order(MOVING_THRESHOLD as nat, g.vel_x.magnitude());
    lemma_size_order(MOVING_THRESHOLD as nat, g.ang_z.magnitude());
}

/// A sum is finite if it is at most half of what a double can hold.
pub(crate) proof fn lemma_finite_sum(a: Binary64, b: Binary64)
    requires
        a.finite(),
        b.finite(),
        close(2 * (a.units() + b.units()), 0, size(INFINITY as nat) as int),
    ensures
        sum(a, b).finite(),
{
    let large = Binary64 { bits: 0x7FE0_0000_0000_0000 };
    let e = pow2(2045);
    lemma2_to64();
    lemma_pow2_adds(1, 2045);
    lemma_size_over(2045, 0x10_0000_0000_0000, 2045, 1, 0x10_0000_0000_0000);
    lemma_size_over(2046, 0x10_0000_0000_0000, 2045, 2, 0x20_0000_0000_0000);
    assert(2 * (0x10_0000_0000_0000 * e) == 0x20_0000_0000_0000 * e) by (nonlinear_arith);
    assert(2 * size(0x7FE0_0000_0000_0000) == size(INFINITY as nat));
    lemma_opposite(large);
    lemma_sum(a, b);
    lemma_rank_keeps_order(a.units() + b.units(), large.units());
    lemma_rank_keeps_order(opposite(large).units(), a.units() + b.units());
    lemma_rank_of_double(large);
    lemma_rank_of_double(opposite(large));
}

/// A bound without the rounding in it.
proof fn lemma_part_size(m: int, v: int, c: int, u: int)
    requires
        u >= 16,
        v >= 0,
        c >= 0,
        c * (u * m) <= (u + 1) * v + c * u,
    ensures
        16 * (c * m) <= 17 * v + 16 * c,
{
    assert(16 * (c * m) <= 17 * v + 16 * c) by (nonlinear_arith)
        requires
            u >= 16,
            v >= 0,
            c * (u * m) <= (u + 1) * v + c * u,
    {
        assert(u * (16 * (c * m)) == 16 * (c * (u * m)));
        assert(16 * ((u + 1) * v) <= u * (17 * v));
        assert(16 * (c * u) == u * (16 * c));
        assert(u * (16 * (c * m)) <= u * (17 * v + 16 * c));
    }
}

/// How far a foot moves, in numbers: `a` and `b` are its ways forward, `y` and `z` those of
/// the turn, `e` and `f` the roundings of their sums.
proof fn lemma_ahead_numbers(
    uapart: int,
    most: int,
    a: int,
    b: int,
    ua: int,
    ub: int,
    x: int,
    y: int,
    z: int,
    uy: int,
    uz: int,
    e: int,
    f: int,
    v: int,
    w: int,
    k: int,
    kv: int,
    kw: int,
    kx: int,
    u: int,
)
    requires
        u >= 1000,
        v >= 0,
        w >= 0,
        v + w >= 64 * u,
        0 <= k <= 16,
        0 <= kw <= 16 * w,
        128 * kx <= 17 * kw + 128 * k,
        uapart <= 2 * kv + 3 * v + 2 * u,
        32 * most <= 17 * v + 32,
        128 * x <= 17 * w + 128,
        close(128 * a, 0, 17 * most + 128),
        close(128 * b, 0, 17 * most + 128),
        close(32 * y, 0, 17 * x + 32),
        close(32 * z, 0, 17 * x + 32),
        close(8 * ua, 8 * ub, uapart + 2 * most + 16 * u),
        close(uy, uz, 2 * kx + 3 * x + 2 * u),
        close(e, 0, distance_from_zero(a - y) as int + u),
        close(f, 0, distance_from_zero(b - z) as int + u),
    ensures
        close(4 * (e + ua - uy), 4 * (f + ub - uz), kv + kw + 4 * v + 4 * w),
{
    let i = distance_from_zero(a - y) as int;
    let j = distance_from_zero(b - z) as int;
    assert(128 * i <= 17 * most + 128 + 68 * x + 128);
    assert(128 * j <= 17 * most + 128 + 68 * x + 128);
    assert(8 * (ua - ub) <= 2 * kv + 3 * v + 2 * u + 2 * most + 16 * u);
    assert(8 * (ub - ua) <= 2 * kv + 3 * v + 2 * u + 2 * most + 16 * u);
}

/// The sizes of the parts of a foot's way.
proof fn lemma_size_bounds(
    p: Binary64,
    r: Binary64,
    s: Binary64,
    a: Binary64,
    b: Binary64,
    y: Binary64,
    z: Binary64,
    most: int,
    x: int,
    v: int,
    w: int,
)
    requires
        v >= 0,
        w >= 0,
        most == size(p.magnitude()) || most == size(r.magnitude()),
        x == size(s.magnitude()),
        ({
            let u = 2 * BINADE as int;
            &&& close(2 * (u * p.units()), 0, (u + 1) * v + 2 * u)
            &&& close(2 * (u * r.units()), 0, (u + 1) * v + 2 * u)
            &&& close(8 * (u * a.units()), 0, (u + 1) * most + 8 * u)
            &&& close(8 * (u * b.units()), 0, (u + 1) * most + 8 * u)
            &&& close(8 * (u * s.units()), 0, (u + 1) * w + 8 * u)
            &&& close(2 * (u * y.units()), 0, (u + 1) * x + 2 * u)
            &&& close(2 * (u * z.units()), 0, (u + 1) * x + 2 * u)
        }),
    ensures
        32 * most <= 17 * v + 32,
        128 * x <= 17 * w + 128,
        close(128 * a.units(), 0, 17 * most + 128),
        close(128 * b.units(), 0, 17 * most + 128),
        close(32 * y.units(), 0, 17 * x + 32),
        close(32 * z.units(), 0, 17 * x + 32),
{
    let u = 2 * BINADE as int;
    lemma_signed_size(p, v, 2);
    lemma_signed_size(r, v, 2);
    lemma_signed_size(a, most, 8);
    lemma_signed_size(b, most, 8);
    lemma_signed_size(s, w, 8);
    lemma_signed_size(y, x, 2);
    lemma_signed_size(z, x, 2);
}

/// A bound without the rounding in it, whatever the sign.
proof fn lemma_signed_size(a: Binary64, v: int, c: int)
    requires
        v >= 0,
        c == 2 || c == 8,
        close(c * ((2 * BINADE) * a.units()), 0, (2 * BINADE + 1) * v + c * (2 * BINADE)),
    ensures
        16 * c * size(a.magnitude()) <= 17 * v + 16 * c,
        close(16 * c * a.units(), 0, 17 * v + 16 * c),
{
    let u = 2 * BINADE as int;
    let m = size(a.magnitude()) as int;
    assert(u * (-m) == -(u * m) && c * (-(u * m)) == -(c * (u * m))) by (nonlinear_arith);
    lemma_part_size(m, v, c, u);
    assert(16 * c * m == 16 * (c * m)) by (nonlinear_arith);
    assert(16 * c * (-m) == -(16 * c * m)) by (nonlinear_arith);
}

/// Feet that are near each other in their travel are near each other on the ground.
pub(crate) proof fn lemma_ahead_moves(g: Gait, leg: Leg, d: Binary64, e: Binary64, grains: nat)
    requires
        g.vel_x.finite(),
        g.ang_z.finite(),
        steps(g.vel_x, g.ang_z),
        d.magnitude() <= HALF,
        e.magnitude() <= HALF,
        grains <= 16,
        close(d.units(), e.units(), ((2 * grains + 2) * grain()) as int),
    ensures
        foot_ahead(g, leg, d).finite(),
        foot_ahead(g, leg, e).finite(),
        close(
            (8 * BINADE) * foot_ahead(g, leg, d).units(),
            (8 * BINADE) * foot_ahead(g, leg, e).units(),
            ((grains + 4) * speed(g)) as int,
        ),
{
    let u = 2 * BINADE as int;
    let travel = Binary64 { bits: TRAVEL };
    let turn_travel = Binary64 { bits: TURN_TRAVEL };
    let n = 2 * grains + 2;
    let v = size(g.vel_x.magnitude()) as int;
    let w = size(g.ang_z.magnitude()) as int;
    lemma_grain();
    lemma_travel_factors();
    // the way forward
    let p = product(g.vel_x, d);
    let r = product(g.vel_x, e);
    lemma_scaled(g.vel_x, d, e, n);
    let apart = distance_from_zero(p.units() - r.units()) as int;
    let most = if size(p.magnitude()) < size(r.magnitude()) { size(r.magnitude()) as int } else { size(p.magnitude()) as int };
    lemma_shrunk(p, r, travel, apart, most);
    // the way of the turn
    let t = product(lateral_sign(leg), g.ang_z);
    lemma_turn(leg, g.ang_z);
    lemma_shrunk(t, t, turn_travel, 0, w);
    let s = product(t, turn_travel);
    lemma_scaled(s, d, e, n);
    let x = size(s.magnitude()) as int;
    // both
    let a = product(p, travel);
    let b = product(r, travel);
    let y = product(s, d);
    let z = product(s, e);
    lemma_opposite(y);
    lemma_opposite(z);
    lemma_speed_is_large(g);
    lemma_size_order(g.vel_x.magnitude(), INFINITY as nat);
    lemma_size_order(g.ang_z.magnitude(), INFINITY as nat);
    lemma_size_bounds(p, r, s, a, b, y, z, most, x, v, w);
    lemma_sum_error(a, opposite(y));
    lemma_sum_error(b, opposite(z));
    lemma_finite_sum(a, opposite(y));
    lemma_finite_sum(b, opposite(z));
    let f = foot_ahead(g, leg, d);
    let h = foot_ahead(g, leg, e);
    let kv = grains * v;
    let kw = grains * w;
    let kx = grains * x;
    assert(v * (n + 1) == 2 * kv + 3 * v && x * (n + 1) == 2 * kx + 3 * x && (grains + 4) * speed(g) == kv + kw + 4 * v + 4
        * w) by (nonlinear_arith)
        requires
            n == 2 * grains + 2,
            speed(g) == v + w,
            kv == grains * v,
            kw == grains * w,
            kx == grains * x,
    ;
    assert(128 * kx <= 17 * kw + 128 * grains && 0 <= kw <= 16 * w && kv >= 0) by (nonlinear_arith)
        requires
            128 * x <= 17 * w + 128,
            0 <= grains <= 16,
            v >= 0,
            w >= 0,
            kv == grains * v,
            kw == grains * w,
            kx == grains * x,
    {
        assert(grains * (128 * x) <= grains * (17 * w + 128));
    }
    let c = f.units();
    let i = h.units();
    let j = p.units() - r.units();
    assert(u * apart <= 2 * kv + 3 * v + 2 * u) by {
        assert(u * j == u * p.units() - u * r.units()) by (nonlinear_arith)
            requires
                j == p.units() - r.units(),
        ;
        assert(u * (-j) == -(u * j)) by (nonlinear_arith);
    }
    assert(u * (c - (a.units() - y.units())) + u * a.units() - u * y.units() == u * c) by (nonlinear_arith);
    assert(u * (i - (b.units() - z.units())) + u * b.units() - u * z.units() == u * i) by (nonlinear_arith);
    assert((8 * BINADE) * c == 4 * (u * c) && (8 * BINADE) * i == 4 * (u * i)) by (nonlinear_arith)
        requires
            u == 2 * BINADE,
    ;
    lemma_ahead_numbers(
        u * apart,
        most,
        a.units(),
        b.units(),
        u * a.units(),
        u * b.units(),
        x,
        y.units(),
        z.units(),
        u * y.units(),
        u * z.units(),
        u * (f.units() - (a.units() - y.units())),
        u * (h.units() - (b.units() - z.units())),
        v,
        w,
        grains as int,
        kv,
        kw,
        kx,
        u,
    );
}

} // verus!
