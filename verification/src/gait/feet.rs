//! How far the feet move when their places in the cycle move a little: half a cycle later
//! the diagonals have swapped their feet.

use vstd::prelude::*;
use vstd::arithmetic::power2::{lemma2_to64, pow2};
use crate::binary64::arithmetic::{difference, opposite, product};
use crate::binary64::convert::one_in_units;
use crate::binary64::facts::{
    lemma_opposite, lemma_product, lemma_product_commutes, lemma_product_grows, lemma_product_units,
    lemma_product_with_one, lemma_size_over, lemma_sum_error, lemma_sum_with_zero, lemma_units_order,
    lemma_zero_product, within,
};
use crate::binary64::model::{lemma_size_order, lemma_size_small, size, Binary64, BINADE, INFINITY};
use crate::binary64::nearness::{close, grain, lemma_cancel, lemma_grain, lemma_times_bound};
use crate::gait::{
    foot_ahead, foot_aside, in_stance, lateral_sign, leg_phase, phase_after, phase_offset, places_foot, stance_target,
    steps, swing_angle, swing_progress, swing_target, FootTarget, Gait, Leg, HALF, MAX_FREQUENCY, MIN_FREQUENCY,
    NOMINAL_HEIGHT, PI, STEP_HEIGHT, UNITY,
};
use crate::gait::cycle::{
    half_cycle, is_place, law_a_cycle_returns, law_half_a_cycle_swaps_the_diagonals, lemma_leg_place, lemma_place_units,
    near,
};
use crate::gait::symmetry::lemma_ahead_without_turning;
use crate::gait::travel::{
    lemma_ahead_moves, lemma_finite_sum, lemma_near_in_travel, lemma_progress, lemma_shrunk, lemma_wave, off_middle,
    speed,
};
use crate::gait::workspace::lemma_swing_progress;
use crate::geometry::zero;
use crate::platform::is_like_a_sine;

verus! {

/// Whether `s` is the sine that lifts the foot at a place: none during the stance.
pub open spec fn lifts_at<S: Fn(Binary64) -> Binary64>(sin: S, place: Binary64, s: Binary64) -> bool {
    if in_stance(place) {
        s == zero()
    } else {
        call_ensures(sin, (swing_angle(place),), s)
    }
}

/// The foot position at a place.
pub open spec fn foot_at(g: Gait, leg: Leg, place: Binary64, sine: Binary64) -> FootTarget {
    if in_stance(place) {
        stance_target(g, leg, place)
    } else {
        swing_target(g, leg, place, sine)
    }
}

/// The angle of a swing is its progress times pi, rounded by at most four grains.
pub(crate) proof fn lemma_angle(place: Binary64)
    requires
        is_place(place),
        !in_stance(place),
    ensures
        ({
            let angle = swing_angle(place);
            let pi = Binary64 { bits: PI };
            let t = swing_progress(place).units();
            &&& within(angle, zero(), pi)
            &&& close(angle.units() * one_in_units(), pi.units() * t, ((4 * grain()) * one_in_units()) as int)
        }),
{
    let pi = Binary64 { bits: PI };
    let one = Binary64 { bits: UNITY };
    let t = swing_progress(place);
    let u = 2 * BINADE as int;
    let g = grain() as int;
    lemma_grain();
    lemma_pi();
    lemma_progress(place);
    lemma_swing_progress(place);
    lemma_size_small();
    lemma_size_order(UNITY as nat, t.magnitude());
    lemma_size_order(PI as nat, INFINITY as nat);
    let x = size(PI as nat);
    let y = size(t.magnitude());
    let z = one_in_units();
    lemma_product(pi, t);
    lemma_product_grows(t, one, pi);
    lemma_product_with_one(pi);
    if t.negative() {
        lemma_zero_product(pi, t);
    }
    assert(x * y < size(INFINITY as nat) * z && 2 * (x * y) <= (7 * z) * z) by (nonlinear_arith)
        requires
            0 <= y <= z,
            2 * x <= 7 * z,
            0 <= x < size(INFINITY as nat),
            z > 0,
    {
        assert(x * y <= x * z);
        assert(x * z < size(INFINITY as nat) * z);
        assert((2 * x) * z <= (7 * z) * z);
    }
    lemma_product_units(pi, t);
    let e = swing_angle(place).units() * z - pi.units() * t.units();
    assert(-((4 * g) * z) <= e <= (4 * g) * z) by (nonlinear_arith)
        requires
            -(x * y + u * z) <= u * e <= x * y + u * z,
            2 * (x * y) <= (7 * z) * z,
            z == u * g,
            u == 0x20_0000_0000_0000,
            g >= 0x1_0000_0000,
    {
        assert((7 * z) * z == u * ((7 * g) * z));
        assert(2 * (u * e) <= u * ((7 * g) * z) + 2 * (u * z));
        assert(2 * e <= (7 * g) * z + 2 * z);
        assert(2 * (u * e) >= -(u * ((7 * g) * z) + 2 * (u * z)));
        assert(2 * e >= -((7 * g) * z + 2 * z));
        assert(2 * z <= g * z);
        assert((7 * g) * z + g * z == 2 * ((4 * g) * z));
    }
}

/// Pi is less than 3.5.
proof fn lemma_pi()
    ensures
        2 * size(PI as nat) <= 7 * one_in_units(),
        size(PI as nat) == (Binary64 { bits: PI }).units(),
{
    let e = grain();
    lemma_grain();
    lemma2_to64();
    lemma_size_over(1023, 0x1C_0000_0000_0000, 1021, 4, 0x70_0000_0000_0000);
    lemma_size_order(0x400C_0000_0000_0000, PI as nat);
    assert(2 * (0x70_0000_0000_0000 * e) == 7 * (0x20_0000_0000_0000 * e)) by (nonlinear_arith);
}

/// Near places are lifted by near sines.
pub(crate) proof fn lemma_near_sines<S: Fn(Binary64) -> Binary64>(
    sin: S,
    error: nat,
    a: Binary64,
    b: Binary64,
    s: Binary64,
    t: Binary64,
    grains: nat,
)
    requires
        is_like_a_sine(sin, error),
        is_place(a),
        is_place(b),
        grains <= 16,
        near(a, b, grains),
        lifts_at(sin, a, s),
        lifts_at(sin, b, t),
    ensures
        within(s, zero(), Binary64 { bits: UNITY }),
        within(t, zero(), Binary64 { bits: UNITY }),
        close(s.units(), t.units(), (7 * grains + 8) * grain() + error as int),
{
    reveal(is_like_a_sine);
    let g = grain() as int;
    let one = one_in_units() as int;
    let x = size(PI as nat) as int;
    let h = BINADE * g;
    lemma_grain();
    lemma_pi();
    lemma_place_units(a);
    lemma_place_units(b);
    lemma_wave(a);
    lemma_wave(b);
    lemma_size_small();
    assert(one == 2 * h && 0 <= grains * g < h) by (nonlinear_arith)
        requires
            one == (2 * 0x10_0000_0000_0000) * g,
            h == 0x10_0000_0000_0000 * g,
            0 <= grains <= 16,
            g > 0,
    ;
    let va = swing_angle(a).units();
    let vb = swing_angle(b).units();
    let ta = swing_progress(a).units();
    let tb = swing_progress(b).units();
    let limit = (7 * grains + 8) * g;
    if !in_stance(a) {
        lemma_angle(a);
        lemma_progress(a);
        assert(call_ensures(sin, (swing_angle(a),), s));
    }
    if !in_stance(b) {
        lemma_angle(b);
        lemma_progress(b);
        assert(call_ensures(sin, (swing_angle(b),), t));
    }
    assert(0 <= limit) by (nonlinear_arith)
        requires
            limit == (7 * grains + 8) * g,
            g > 0,
            grains >= 0,
    ;
    if !in_stance(a) && !in_stance(b) {
        assert(x * ta - x * tb == x * (ta - tb)) by (nonlinear_arith);
        lemma_angle_moves(va, vb, x * ta, x * tb, x, ta - tb, grains as int, g, one);
    } else if !in_stance(a) {
        lemma_angle_at_ends(va, x, ta, grains as int, g, one);
    } else if !in_stance(b) {
        lemma_angle_at_ends(vb, x, tb, grains as int, g, one);
    }
}

/// How far an angle moves, in numbers.
proof fn lemma_angle_moves(va: int, vb: int, pa: int, pb: int, x: int, d: int, k: int, g: int, one: int)
    requires
        one > 0,
        g > 0,
        k >= 0,
        0 <= x,
        2 * x <= 7 * one,
        pa - pb == x * d,
        close(d, 0, 2 * (k * g)),
        close(va * one, pa, (4 * g) * one),
        close(vb * one, pb, (4 * g) * one),
    ensures
        close(va, vb, (7 * k + 8) * g),
{
    lemma_times_bound(x, d, x, 2 * (k * g));
    assert(x * (2 * (k * g)) <= (7 * (k * g)) * one) by (nonlinear_arith)
        requires
            2 * x <= 7 * one,
            k * g >= 0,
    ;
    assert(k * g >= 0) by (nonlinear_arith)
        requires
            k >= 0,
            g > 0,
    ;
    assert((va - vb) * one == va * one - vb * one) by (nonlinear_arith);
    assert(((7 * k + 8) * g) * one == (7 * (k * g)) * one + 2 * ((4 * g) * one)) by (nonlinear_arith);
    lemma_cancel(va - vb, (7 * k + 8) * g, one);
}

/// How far an angle is from the nearer end of the swing, in numbers.
proof fn lemma_angle_at_ends(v: int, x: int, t: int, k: int, g: int, one: int)
    requires
        one > 0,
        g > 0,
        k >= 0,
        0 <= x,
        2 * x <= 7 * one,
        close(v * one, x * t, (4 * g) * one),
        0 <= t <= one,
    ensures
        t <= 2 * (k * g) ==> v <= (7 * k + 8) * g,
        t >= one - 2 * (k * g) ==> x - v <= (7 * k + 8) * g,
{
    assert(0 * one == 0 && x * one - x * t == x * (one - t)) by (nonlinear_arith);
    if t <= 2 * (k * g) {
        lemma_angle_moves(v, 0, x * t, 0, x, t, k, g, one);
    }
    if t >= one - 2 * (k * g) {
        lemma_angle_moves(x, v, x * one, x * t, x, one - t, k, g, one);
    }
}

/// Near sines lift the foot to near heights.
proof fn lemma_down_moves(s: Binary64, t: Binary64, apart: nat)
    requires
        within(s, zero(), Binary64 { bits: UNITY }),
        within(t, zero(), Binary64 { bits: UNITY }),
        close(s.units(), t.units(), apart as int),
    ensures
        ({
            let x = difference(Binary64 { bits: NOMINAL_HEIGHT }, product(Binary64 { bits: STEP_HEIGHT }, s));
            let y = difference(Binary64 { bits: NOMINAL_HEIGHT }, product(Binary64 { bits: STEP_HEIGHT }, t));
            &&& x.finite() && y.finite()
            &&& close(8 * x.units(), 8 * y.units(), apart + 16 * grain() as int)
        }),
{
    let nominal = Binary64 { bits: NOMINAL_HEIGHT };
    let step = Binary64 { bits: STEP_HEIGHT };
    let one = one_in_units() as int;
    let u = 2 * BINADE as int;
    let g = grain() as int;
    lemma_grain();
    lemma_heights();
    lemma_size_small();
    lemma_size_order(UNITY as nat, s.magnitude());
    lemma_size_order(UNITY as nat, t.magnitude());
    lemma_shrunk(s, t, step, apart as int, one);
    lemma_product_commutes(step, s);
    lemma_product_commutes(step, t);
    let a = product(step, s);
    let b = product(step, t);
    lemma_lowered(s);
    lemma_lowered(t);
    let x = difference(nominal, a).units();
    let y = difference(nominal, b).units();
    let n = nominal.units();
    lemma_down_numbers(
        u * (x - (n - a.units())),
        u * (y - (n - b.units())),
        u * a.units(),
        u * b.units(),
        u * apart,
        g,
        u,
        one,
    );
    let d = x - y;
    assert(u * (x - (n - a.units())) - u * a.units() - (u * (y - (n - b.units())) - u * b.units()) == u * d)
        by (nonlinear_arith)
        requires
            d == x - y,
    ;
    assert(-(apart + 16 * g) <= 8 * d <= apart + 16 * g) by (nonlinear_arith)
        requires
            -(u * apart + 16 * (u * g)) <= 8 * (u * d) <= u * apart + 16 * (u * g),
            u > 0,
    {
        assert(u * (8 * d) <= u * (apart + 16 * g));
        assert(u * (8 * d) >= u * (-(apart + 16 * g)));
    }
}

/// How far a foot is lowered or raised, in numbers.
proof fn lemma_down_numbers(e: int, f: int, ua: int, ub: int, uapart: int, g: int, u: int, one: int)
    requires
        u == 0x20_0000_0000_0000,
        one == u * g,
        g >= 0x1_0000_0000,
        close(2 * e, 0, one + 2 * u),
        close(2 * f, 0, one + 2 * u),
        close(8 * ua, 8 * ub, uapart + 2 * one + 16 * u),
    ensures
        close(8 * (e - ua), 8 * (f - ub), uapart + 16 * (u * g)),
{
    assert(one >= 0x1_0000_0000 * u) by (nonlinear_arith)
        requires
            one == u * g,
            g >= 0x1_0000_0000,
            u > 0,
    ;
}

/// The height of the body is less than one half, and a step less than one eighth and less
/// than that.
proof fn lemma_heights()
    ensures
        2 * size(NOMINAL_HEIGHT as nat) <= one_in_units(),
        8 * size(STEP_HEIGHT as nat) <= one_in_units(),
        size(STEP_HEIGHT as nat) < size(NOMINAL_HEIGHT as nat),
        one_in_units() < size(INFINITY as nat),
{
    let e = pow2(1019);
    lemma_grain();
    lemma2_to64();
    lemma_size_over(1019, 0x10_0000_0000_0000, 1019, 1, 0x10_0000_0000_0000);
    lemma_size_over(1021, 0x10_0000_0000_0000, 1019, 4, 0x40_0000_0000_0000);
    lemma_size_order(0x3FC0_0000_0000_0000, STEP_HEIGHT as nat);
    lemma_size_order(STEP_HEIGHT as nat, NOMINAL_HEIGHT as nat);
    lemma_size_order(UNITY as nat, INFINITY as nat);
    lemma_size_order(HALF as nat, NOMINAL_HEIGHT as nat);
    assert(8 * (0x10_0000_0000_0000 * e) == 2 * (0x40_0000_0000_0000 * e)) by (nonlinear_arith);
    assert(one_in_units() == 2 * size(HALF as nat)) by (nonlinear_arith)
        requires
            one_in_units() == (2 * BINADE) * grain(),
            size(HALF as nat) == BINADE * grain(),
    ;
}

/// The rounding of a lifted foot's height.
proof fn lemma_lowered(s: Binary64)
    requires
        within(s, zero(), Binary64 { bits: UNITY }),
    ensures
        ({
            let nominal = Binary64 { bits: NOMINAL_HEIGHT };
            let a = product(Binary64 { bits: STEP_HEIGHT }, s);
            let x = difference(nominal, a);
            let u = 2 * BINADE as int;
            &&& x.finite()
            &&& close(2 * (u * (x.units() - (nominal.units() - a.units()))), 0, one_in_units() + 2 * u)
        }),
{
    let one = Binary64 { bits: UNITY };
    let nominal = Binary64 { bits: NOMINAL_HEIGHT };
    let step = Binary64 { bits: STEP_HEIGHT };
    let a = product(step, s);
    lemma_heights();
    lemma_size_small();
    lemma_product(step, s);
    lemma_product_grows(s, one, step);
    lemma_product_with_one(step);
    if s.negative() {
        lemma_zero_product(step, s);
    }
    lemma_size_order(STEP_HEIGHT as nat, a.magnitude());
    lemma_opposite(a);
    lemma_sum_error(nominal, opposite(a));
    lemma_finite_sum(nominal, opposite(a));
}

/// Whether two feet are as near each other as places in the cycle that are some grains
/// apart leave them, given a sine that is exact up to `error` units: per grain 1/4 of
/// 2^-53 of the speed along the ground and 2^-53 m in height, beside the rounding.
pub open spec fn near_feet(g: Gait, x: FootTarget, y: FootTarget, grains: nat, error: nat) -> bool {
    &&& x.forward.finite() && y.forward.finite() && x.down.finite() && y.down.finite()
    &&& close((8 * BINADE) * x.forward.units(), (8 * BINADE) * y.forward.units(), ((grains + 4) * speed(g)) as int)
    &&& close(8 * x.down.units(), 8 * y.down.units(), (8 * (grains + 3)) * grain() + error as int)
}

/// Feet at near places in the cycle are near each other: two feet of one side of the body,
/// or, without turning, any two.
pub proof fn law_near_places_have_near_feet<S: Fn(Binary64) -> Binary64>(
    sin: S,
    error: nat,
    g: Gait,
    leg: Leg,
    other: Leg,
    a: Binary64,
    b: Binary64,
    s: Binary64,
    t: Binary64,
    grains: nat,
)
    requires
        is_like_a_sine(sin, error),
        g.vel_x.finite(),
        g.ang_z.finite(),
        steps(g.vel_x, g.ang_z),
        lateral_sign(leg) == lateral_sign(other) || g.ang_z.is_zero(),
        is_place(a),
        is_place(b),
        grains <= 16,
        near(a, b, grains),
        lifts_at(sin, a, s),
        lifts_at(sin, b, t),
    ensures
        near_feet(g, foot_at(g, leg, a, s), foot_at(g, other, b, t), grains, error),
{
    let nominal = Binary64 { bits: NOMINAL_HEIGHT };
    let step = Binary64 { bits: STEP_HEIGHT };
    let d = off_middle(a);
    let e = off_middle(b);
    lemma_wave(a);
    lemma_wave(b);
    lemma_near_in_travel(a, b, grains);
    lemma_ahead_moves(g, leg, d, e, grains);
    if lateral_sign(leg) == lateral_sign(other) {
        assert(foot_ahead(g, other, e) == foot_ahead(g, leg, e));
    } else {
        lemma_ahead_without_turning(g, leg, e);
        lemma_ahead_without_turning(g, other, e);
        lemma_units_order(foot_ahead(g, leg, e), foot_ahead(g, other, e));
        lemma_units_order(foot_ahead(g, other, e), foot_ahead(g, leg, e));
    }
    lemma_near_sines(sin, error, a, b, s, t, grains);
    let apart = (7 * grains + 8) * grain() + error;
    lemma_down_moves(s, t, apart);
    assert(apart + 16 * grain() <= (8 * (grains + 3)) * grain() + error) by (nonlinear_arith)
        requires
            apart == (7 * grains + 8) * grain() + error,
            grains >= 0,
            grain() >= 0,
    ;
    lemma_no_lift();
}

/// Without a lift the foot stays on the ground.
proof fn lemma_no_lift()
    ensures
        difference(Binary64 { bits: NOMINAL_HEIGHT }, product(Binary64 { bits: STEP_HEIGHT }, zero())) == (Binary64 {
            bits: NOMINAL_HEIGHT,
        }),
{
    let nominal = Binary64 { bits: NOMINAL_HEIGHT };
    let step = Binary64 { bits: STEP_HEIGHT };
    let none = product(step, zero());
    lemma_zero_product(step, zero());
    lemma_opposite(none);
    lemma_sum_with_zero(nominal, opposite(none));
}

/// A stepping leg's foot is at its place.
pub(crate) proof fn lemma_foot_at_place<S: Fn(Binary64) -> Binary64>(sin: S, g: Gait, leg: Leg, target: FootTarget) -> (s: Binary64)
    requires
        steps(g.vel_x, g.ang_z),
        places_foot(sin, g, leg, target),
    ensures
        lifts_at(sin, leg_phase(g.phase, leg), s),
        target == foot_at(g, leg, leg_phase(g.phase, leg), s),
{
    let place = leg_phase(g.phase, leg);
    if in_stance(place) {
        zero()
    } else {
        choose|s: Binary64| #[trigger]
            call_ensures(sin, (swing_angle(place),), s) && target == swing_target(g, leg, place, s)
    }
}

/// Half a cycle later each foot is where the other foot of its side of the body was, and,
/// without turning, where each foot of the other diagonal was, seen from its own hip.
pub proof fn law_half_a_cycle_swaps_the_feet<S: Fn(Binary64) -> Binary64>(
    sin: S,
    error: nat,
    g: Gait,
    leg: Leg,
    other: Leg,
    later: FootTarget,
    before: FootTarget,
)
    requires
        is_like_a_sine(sin, error),
        g.vel_x.finite(),
        g.ang_z.finite(),
        steps(g.vel_x, g.ang_z),
        within(g.freq, Binary64 { bits: MIN_FREQUENCY }, Binary64 { bits: MAX_FREQUENCY }),
        is_place(g.phase),
        phase_offset(leg) != phase_offset(other),
        lateral_sign(leg) == lateral_sign(other) || g.ang_z.is_zero(),
        places_foot(sin, Gait { phase: phase_after(g, half_cycle(g.freq)), ..g }, leg, later),
        places_foot(sin, g, other, before),
    ensures
        near_feet(g, later, before, 8, error),
        later.lateral == foot_aside(leg),
        before.lateral == foot_aside(other),
{
    let half = Gait { phase: phase_after(g, half_cycle(g.freq)), ..g };
    law_half_a_cycle_swaps_the_diagonals(g);
    lemma_leg_place(half.phase, leg);
    lemma_leg_place(g.phase, other);
    let s = lemma_foot_at_place(sin, half, leg, later);
    let t = lemma_foot_at_place(sin, g, other, before);
    let a = leg_phase(half.phase, leg);
    let b = leg_phase(g.phase, other);
    assert(foot_at(half, leg, a, s) == foot_at(g, leg, a, s));
    law_near_places_have_near_feet(sin, error, g, leg, other, a, b, s, t, 8);
}

/// Two half cycles bring every foot back to where it was.
pub proof fn law_a_cycle_returns_the_feet<S: Fn(Binary64) -> Binary64>(
    sin: S,
    error: nat,
    g: Gait,
    leg: Leg,
    later: FootTarget,
    before: FootTarget,
)
    requires
        is_like_a_sine(sin, error),
        g.vel_x.finite(),
        g.ang_z.finite(),
        steps(g.vel_x, g.ang_z),
        within(g.freq, Binary64 { bits: MIN_FREQUENCY }, Binary64 { bits: MAX_FREQUENCY }),
        is_place(g.phase),
        ({
            let half = Gait { phase: phase_after(g, half_cycle(g.freq)), ..g };
            places_foot(sin, Gait { phase: phase_after(half, half_cycle(g.freq)), ..g }, leg, later)
        }),
        places_foot(sin, g, leg, before),
    ensures
        near_feet(g, later, before, 16, error),
        later.lateral == before.lateral,
{
    let half = Gait { phase: phase_after(g, half_cycle(g.freq)), ..g };
    let full = Gait { phase: phase_after(half, half_cycle(g.freq)), ..g };
    law_a_cycle_returns(g);
    let a = leg_phase(full.phase, leg);
    let b = leg_phase(g.phase, leg);
    assert(near(a, b, 16));
    lemma_leg_place(full.phase, leg);
    lemma_leg_place(g.phase, leg);
    let s = lemma_foot_at_place(sin, full, leg, later);
    let t = lemma_foot_at_place(sin, g, leg, before);
    assert(foot_at(full, leg, a, s) == foot_at(g, leg, a, s));
    law_near_places_have_near_feet(sin, error, g, leg, leg, a, b, s, t, 16);
}

} // verus!
