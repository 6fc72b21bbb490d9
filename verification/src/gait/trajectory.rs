//! Where the feet are to be, up to rounding.

use vstd::prelude::*;
use crate::behavior::conduct::lemma_absolute_order;
use crate::binary64::arithmetic::{difference, opposite, product};
use crate::binary64::convert::one_in_units;
use crate::binary64::facts::{lemma_opposite, lemma_product, lemma_product_with_one, lemma_units_order};
use crate::binary64::model::{lemma_size_order, size, Binary64, BINADE};
use crate::binary64::nearness::{
    close, grain, lemma_bounded_product, lemma_bounded_sum, lemma_cancel, lemma_grain, lemma_times_bound, moderate,
};
use crate::binary64::order::less;
use crate::decimals::{is_decimal, law_gait_decimals, lemma_decimal_value, lemma_times_decimal};
use crate::gait::cycle::is_place;
use crate::gait::feet::lemma_angle;
use crate::gait::laws::law_feet_are_mirrored;
use crate::gait::travel::{lemma_half_factor, lemma_progress, lemma_turn, lemma_wave, off_middle, wave};
use crate::gait::{
    foot_ahead, foot_aside, in_stance, lateral_sign, leg_phase, places_foot, steps, swing_angle, swing_target,
    FootTarget, Gait, Leg, MOVING_THRESHOLD, NOMINAL_HEIGHT, PI, STEP_HEIGHT, TRAVEL, TURN_TRAVEL, UNITY,
};

use crate::platform::is_function;

verus! {

/// How far down a swinging foot is depends on the sine only: not on the velocity, the leg or
/// the place in the cycle.
pub proof fn law_lift_depends_on_the_sine(
    g: Gait,
    other: Gait,
    leg: Leg,
    other_leg: Leg,
    place: Binary64,
    other_place: Binary64,
    sine: Binary64,
)
    ensures
        swing_target(g, leg, place, sine).down == swing_target(other, other_leg, other_place, sine).down,
{
}

/// A swinging foot is lifted from 0.3 m below the hip by 0.06 m times the sine, up to
/// rounding.
pub proof fn law_lift_is_in_proportion(g: Gait, leg: Leg, place: Binary64, sine: Binary64)
    requires
        moderate(sine, 1),
    ensures
        ({
            let down = swing_target(g, leg, place, sine).down;
            let ground = Binary64 { bits: NOMINAL_HEIGHT };
            &&& down.finite()
            &&& close(100 * down.units(), 30 * one_in_units() - 6 * sine.units(), 2000 * grain() as int)
            &&& 0x100_0000_0000 * sine.units() >= one_in_units() ==> less(down, ground)
            &&& is_decimal(NOMINAL_HEIGHT, 3, 10)
        }),
{
    let ground = Binary64 { bits: NOMINAL_HEIGHT };
    let g1 = grain();
    lemma_grain();
    law_gait_decimals();
    lemma_decimal_value(NOMINAL_HEIGHT, 3, 10);
    lemma_times_decimal(sine, STEP_HEIGHT, 6, 100, 1);
    let lift = product(Binary64 { bits: STEP_HEIGHT }, sine);
    assert(((100 + 1) * (1 * (6 + 1) + 1)) * g1 == 808 * g1 && (1 + 1) * g1 == 2 * g1) by (nonlinear_arith);
    assert(one_in_units() >= 0x1_0000_0000_0000 * g1) by (nonlinear_arith)
        requires
            one_in_units() == 0x20_0000_0000_0000 * g1,
    ;
    lemma_opposite(lift);
    assert(close(10 * ground.units(), 3 * one_in_units() as int, 4 * g1 as int));
    lemma_bounded_sum(ground, opposite(lift), 1);
    let down = swing_target(g, leg, place, sine).down;
    assert(down == difference(ground, lift));
    lemma_units_order(down, ground);
}

/// A robot that steps keeps its standing feet on the ground, 0.3 m below the hip, and lifts
/// its swinging feet by 0.06 m times the sine of pi times the progress of the swing, whichever
/// way and however fast it goes and turns.
pub proof fn law_every_swing_lifts<S: Fn(Binary64) -> Binary64>(sin: S, g: Gait, leg: Leg, target: FootTarget)
    requires
        steps(g.vel_x, g.ang_z),
        is_place(leg_phase(g.phase, leg)),
        places_foot(sin, g, leg, target),
    ensures
        ({
            let place = leg_phase(g.phase, leg);
            let half = BINADE * grain();
            &&& place.units() < half ==> target.down == (Binary64 { bits: NOMINAL_HEIGHT })
            &&& place.units() >= half ==> exists|angle: Binary64, s: Binary64|
                {
                    let progress = 2 * (place.units() - half);
                    let pi = (Binary64 { bits: PI }).units();
                    &&& #[trigger] call_ensures(sin, (angle,), s)
                    &&& close(angle.units() * one_in_units(), pi * progress, ((4 * grain()) * one_in_units()) as int)
                    &&& moderate(s, 1) ==> close(
                        100 * target.down.units(),
                        30 * one_in_units() - 6 * s.units(),
                        2000 * grain() as int,
                    )
                }
            &&& target.lateral == foot_aside(leg)
        }),
{
    let place = leg_phase(g.phase, leg);
    lemma_wave(place);
    if !in_stance(place) {
        lemma_angle(place);
        lemma_progress(place);
        let s = choose|s: Binary64| #[trigger]
            call_ensures(sin, (swing_angle(place),), s) && target == swing_target(g, leg, place, s);
        assert(call_ensures(sin, (swing_angle(place),), s));
        if moderate(s, 1) {
            law_lift_is_in_proportion(g, leg, place, s);
        }
    }
}

/// Two robots that step and are at the same place in the cycle lift the foot of a leg alike,
/// whatever their velocities, if the sine is a function.
pub proof fn law_lift_does_not_depend_on_the_velocity<S: Fn(Binary64) -> Binary64>(
    sin: S,
    g: Gait,
    other: Gait,
    leg: Leg,
    target: FootTarget,
    other_target: FootTarget,
)
    requires
        is_function(sin),
        steps(g.vel_x, g.ang_z),
        steps(other.vel_x, other.ang_z),
        g.phase == other.phase,
        places_foot(sin, g, leg, target),
        places_foot(sin, other, leg, other_target),
    ensures
        target.down == other_target.down,
        target.lateral == other_target.lateral,
{
    let place = leg_phase(g.phase, leg);
    if !in_stance(place) {
        let s = choose|s: Binary64| #[trigger]
            call_ensures(sin, (swing_angle(place),), s) && target == swing_target(g, leg, place, s);
        let t = choose|s: Binary64| #[trigger]
            call_ensures(sin, (swing_angle(place),), s) && other_target == swing_target(other, leg, place, s);
        assert(s == t);
        law_lift_depends_on_the_sine(g, other, leg, leg, place, place, s);
    }
}

/// A robot that stands keeps every foot straight down at 0.3 m.
pub proof fn law_standing_feet<S: Fn(Binary64) -> Binary64>(sin: S, g: Gait, leg: Leg, target: FootTarget)
    requires
        !steps(g.vel_x, g.ang_z),
        places_foot(sin, g, leg, target),
    ensures
        target.forward.bits == 0,
        target.down == (Binary64 { bits: NOMINAL_HEIGHT }),
        target.lateral == foot_aside(leg),
{
}

/// The feet of the left legs are 0.08 m to the left, those of the right legs as far to the
/// right.
pub proof fn law_feet_are_aside(leg: Leg)
    ensures
        is_decimal(foot_aside(Leg::FL).bits, 8, 100),
        foot_aside(Leg::RL) == foot_aside(Leg::FL),
        foot_aside(Leg::FR) == opposite(foot_aside(Leg::FL)) && foot_aside(Leg::RR) == opposite(foot_aside(Leg::FL)),
{
    law_gait_decimals();
    law_feet_are_mirrored();
}

/// A robot steps exactly where it is to go or to turn at more than 0.01, either way.
pub proof fn law_when_the_robot_steps(vel_x: Binary64, ang_z: Binary64)
    requires
        vel_x.finite(),
        ang_z.finite(),
    ensures
        ({
            let l = (Binary64 { bits: MOVING_THRESHOLD }).units();
            &&& is_decimal(MOVING_THRESHOLD, 1, 100)
            &&& steps(vel_x, ang_z) <==> vel_x.units() > l || vel_x.units() < -l || ang_z.units() > l || ang_z.units() < -l
        }),
{
    law_gait_decimals();
    lemma_absolute_order(vel_x, Binary64 { bits: MOVING_THRESHOLD });
    lemma_absolute_order(ang_z, Binary64 { bits: MOVING_THRESHOLD });
}

/// 1 for a left leg, -1 for a right one.
pub open spec fn side(leg: Leg) -> int {
    match leg {
        Leg::FL | Leg::RL => 1,
        Leg::FR | Leg::RR => -1,
    }
}

/// How far a foot is ahead: 0.1 of the forward velocity, less 0.05 of the turn rate on the left
/// and more as much on the right, times how far it is from the middle of its travel.  That
/// falls from one half to minus one half during the stance and rises back during the swing.
pub proof fn law_travel<S: Fn(Binary64) -> Binary64>(sin: S, g: Gait, leg: Leg, target: FootTarget)
    requires
        steps(g.vel_x, g.ang_z),
        moderate(g.vel_x, 8),
        moderate(g.ang_z, 8),
        is_place(leg_phase(g.phase, leg)),
        places_foot(sin, g, leg, target),
    ensures
        target.forward.finite(),
        close(
            20 * (target.forward.units() * one_in_units()),
            (2 * g.vel_x.units() - side(leg) * g.ang_z.units()) * wave(leg_phase(g.phase, leg).units()),
            (1200 * (grain() * one_in_units())) as int,
        ),
{
    let place = leg_phase(g.phase, leg);
    lemma_wave(place);
    let d = off_middle(place);
    assert(target.forward == foot_ahead(g, leg, d));
    lemma_travel(g, leg, d, wave(place.units()));
}

/// The same of a distance from the middle.
proof fn lemma_travel(g: Gait, leg: Leg, d: Binary64, x: int)
    requires
        moderate(g.vel_x, 8),
        moderate(g.ang_z, 8),
        d.finite(),
        d.magnitude() <= crate::gait::HALF,
        close(d.units(), x, grain() as int),
    ensures
        foot_ahead(g, leg, d).finite(),
        close(
            20 * (foot_ahead(g, leg, d).units() * one_in_units()),
            (2 * g.vel_x.units() - side(leg) * g.ang_z.units()) * x,
            (1200 * (grain() * one_in_units())) as int,
        ),
{
    let g1 = grain() as int;
    let one = one_in_units() as int;
    let travel = Binary64 { bits: TRAVEL };
    let turn_travel = Binary64 { bits: TURN_TRAVEL };
    let v = g.vel_x;
    let w = g.ang_z;
    lemma_grain();
    law_gait_decimals();
    assert(one >= 1000000 * g1) by (nonlinear_arith)
        requires
            one == 0x20_0000_0000_0000 * g1,
            g1 > 0,
    ;
    lemma_half_factor(v, d);
    assert(2 * (BINADE * grain()) == one) by (nonlinear_arith)
        requires
            one == (2 * BINADE) * grain(),
    ;
    lemma_size_order(crate::gait::HALF as nat, d.magnitude());
    let y = size(d.magnitude()) as int;
    lemma_factor_sizes(size(v.magnitude()) as int, y, one, 8);
    lemma_bounded_product(v, d, 4);
    let p = product(v, d);
    lemma_times_bound(v.units(), d.units(), 8 * one, one);
    lemma_product_size(p.units(), v.units(), d.units(), g1, one);
    lemma_times_decimal(p, TRAVEL, 1, 10, 5);
    assert(((10 + 1) * (5 * (1 + 1) + 1)) * grain() == 121 * grain()) by (nonlinear_arith);
    let a = product(p, travel);
    // the turn
    let t = product(lateral_sign(leg), w);
    let s = product(t, turn_travel);
    let b = product(s, d);
    lemma_turn_travel(leg, w, d);
    lemma_opposite(b);
    assert(close(10 * a.units(), p.units(), 121 * g1));
    assert(close(a.units() + opposite(b).units(), 0, 3 * one));
    lemma_bounded_sum(a, opposite(b), 3);
    assert((3 + 1) * grain() == 4 * grain()) by (nonlinear_arith);
    let f = foot_ahead(g, leg, d);
    lemma_travel_number(
        f.units(),
        a.units(),
        p.units(),
        b.units(),
        s.units(),
        t.units(),
        v.units(),
        w.units(),
        d.units(),
        x,
        side(leg),
        g1,
        one,
    );
}

/// The way of a foot that is due to the turn.
proof fn lemma_turn_travel(leg: Leg, w: Binary64, d: Binary64)
    requires
        moderate(w, 8),
        d.finite(),
        d.magnitude() <= crate::gait::HALF,
    ensures
        ({
            let t = product(lateral_sign(leg), w);
            let s = product(t, Binary64 { bits: TURN_TRAVEL });
            let b = product(s, d);
            let g1 = grain() as int;
            let one = one_in_units() as int;
            &&& t.finite() && s.finite() && b.finite()
            &&& t.units() == side(leg) * w.units()
            &&& close(100 * s.units(), 5 * t.units(), 4949 * g1)
            &&& close(b.units() * one, s.units() * d.units(), ((1 + 1) * g1) * one)
            &&& close(b.units(), 0, 2 * one)
        }),
{
    let g1 = grain() as int;
    let one = one_in_units() as int;
    let t = product(lateral_sign(leg), w);
    let s = product(t, Binary64 { bits: TURN_TRAVEL });
    let y = size(d.magnitude()) as int;
    lemma_grain();
    law_gait_decimals();
    assert(one >= 1000000 * g1 && 2 * (BINADE * g1) == one) by (nonlinear_arith)
        requires
            one == (2 * BINADE) * g1,
            BINADE == 0x10_0000_0000_0000,
            g1 > 0,
    ;
    lemma_size_order(crate::gait::HALF as nat, d.magnitude());
    lemma_signed_turn(leg, w);
    assert(1 * w.units() == w.units() && (-1) * w.units() == -w.units()) by (nonlinear_arith);
    assert(close(t.units(), 0, 8 * one));
    lemma_times_decimal(t, TURN_TRAVEL, 5, 100, 8);
    assert(((100 + 1) * (8 * (5 + 1) + 1)) * grain() == 4949 * grain()) by (nonlinear_arith);
    assert(close(100 * s.units(), 5 * t.units(), 4949 * g1));
    assert(close(s.units(), 0, 2 * one));
    lemma_factor_sizes(size(s.magnitude()) as int, y, one, 2);
    lemma_bounded_product(s, d, 1);
    lemma_product_size_small(product(s, d).units(), s.units(), d.units(), g1, one);
}

/// The turn rate with the sign of a side.
proof fn lemma_signed_turn(leg: Leg, w: Binary64)
    requires
        w.finite(),
    ensures
        product(lateral_sign(leg), w).finite(),
        product(lateral_sign(leg), w).units() == side(leg) * w.units(),
{
    let one = Binary64 { bits: UNITY };
    lemma_turn(leg, w);
    lemma_opposite(one);
    lemma_product_with_one(w);
    lemma_product(one, w);
    lemma_product(opposite(one), w);
    assert((-1) * w.units() == -w.units() && 1 * w.units() == w.units()) by (nonlinear_arith);
}

/// A product with something up to one half.
proof fn lemma_factor_sizes(x: int, y: int, one: int, k: int)
    requires
        0 <= x <= k * one,
        0 <= 2 * y <= one,
        k == 8 || k == 2,
    ensures
        2 * (x * y) <= k * (one * one),
{
    assert(2 * (x * y) <= k * (one * one)) by (nonlinear_arith)
        requires
            0 <= x <= k * one,
            0 <= 2 * y <= one,
    {
        assert(x * (2 * y) <= (k * one) * one);
    }
}

/// The size of a product of up to four.
proof fn lemma_product_size(p: int, v: int, d: int, g: int, one: int)
    requires
        g > 0,
        one >= 1000000 * g,
        close(v, 0, 8 * one),
        close(2 * d, 0, one),
        close(p * one, v * d, ((4 + 1) * g) * one),
    ensures
        close(p, 0, 5 * one),
{
    lemma_times_bound(v, 2 * d, 8 * one, one);
    assert(v * (2 * d) == 2 * (v * d) && (8 * one) * one == 8 * (one * one) && ((4 + 1) * g) * one == 5 * (g * one) && (5
        * one) * one == 5 * (one * one)) by (nonlinear_arith);
    assert(5 * (g * one) <= one * one) by (nonlinear_arith)
        requires
            one >= 1000000 * g,
            g > 0,
    {
        assert((one - 5 * g) * one >= 0);
    }
    lemma_cancel(p, 5 * one, one);
}

/// The size of a product of up to one.
proof fn lemma_product_size_small(p: int, v: int, d: int, g: int, one: int)
    requires
        g > 0,
        one >= 1000000 * g,
        close(v, 0, 2 * one),
        close(2 * d, 0, one),
        close(p * one, v * d, ((1 + 1) * g) * one),
    ensures
        close(p, 0, 2 * one),
{
    lemma_times_bound(v, 2 * d, 2 * one, one);
    assert(v * (2 * d) == 2 * (v * d) && (2 * one) * one == 2 * (one * one) && ((1 + 1) * g) * one == 2 * (g * one))
        by (nonlinear_arith);
    assert(2 * (g * one) <= one * one) by (nonlinear_arith)
        requires
            one >= 1000000 * g,
            g > 0,
    {
        assert((one - 2 * g) * one >= 0);
    }
    lemma_cancel(p, 2 * one, one);
}

/// How far a foot is ahead, in numbers.
proof fn lemma_travel_number(
    f: int,
    a: int,
    p: int,
    b: int,
    s: int,
    t: int,
    v: int,
    w: int,
    d: int,
    x: int,
    side: int,
    g: int,
    one: int,
)
    requires
        g > 0,
        one >= 1000000 * g,
        side == 1 || side == -1,
        t == side * w,
        close(v, 0, 8 * one),
        close(w, 0, 8 * one),
        close(2 * d, 0, one),
        close(d, x, g),
        close(p * one, v * d, ((4 + 1) * g) * one),
        close(10 * a, p, 121 * g),
        close(100 * s, 5 * t, 4949 * g),
        close(b * one, s * d, ((1 + 1) * g) * one),
        close(f, a - b, 4 * g),
    ensures
        close(20 * (f * one), (2 * v - side * w) * x, 1200 * (g * one)),
{
    let z = g * one;
    assert(((4 + 1) * g) * one == 5 * z && ((1 + 1) * g) * one == 2 * z && z > 0) by (nonlinear_arith)
        requires
            z == g * one,
            g > 0,
            one > 0,
    ;
    assert(1 * w == w && (-1) * w == -w) by (nonlinear_arith);
    // f one is a one - b one
    lemma_times_bound(f - (a - b), one, 4 * g, one);
    lemma_times_bound(10 * a - p, one, 121 * g, one);
    lemma_times_bound(20 * s - t, 2 * d, 990 * g, one);
    lemma_times_bound(2 * v - t, d - x, 24 * one, g);
    assert((f - (a - b)) * one == f * one - a * one + b * one && (4 * g) * one == 4 * z && (10 * a - p) * one == 10 * (a * one)
        - p * one && (121 * g) * one == 121 * z && (990 * g) * one == 990 * z && (24 * one) * g == 24 * z) by (nonlinear_arith)
        requires
            z == g * one,
    ;
    assert((20 * s - t) * (2 * d) == 40 * (s * d) - 2 * (t * d)) by (nonlinear_arith);
    assert((2 * v - t) * (d - x) == 2 * (v * d) - t * d - (2 * v - t) * x) by (nonlinear_arith);
}

} // verus!
