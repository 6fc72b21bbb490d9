//! How fast and how sharply a pursuit goes, up to rounding.

use vstd::prelude::*;
use crate::behavior::conduct::{lemma_absolute_order, lemma_halved};
use crate::behavior::laws::{law_pursuit_is_gentle, lemma_whole_decimal};
use crate::behavior::pursuit::{bearing_factor, pursuit};
use crate::behavior::{
    IntruderState, BEARING_SLOWDOWN, PURSUIT_MAX_SPEED, PURSUIT_MIN_SPEED, PURSUIT_SLOW_DISTANCE,
    PURSUIT_STEERING_LIMIT, TURN_IN_PLACE_BEARING, UNITY,
};
use crate::binary64::arithmetic::{lemma_size_positive, opposite, product, quotient};
use crate::binary64::convert::{from_whole, one_in_units};
use crate::binary64::facts::{
    lemma_opposite, lemma_product, lemma_quotient_grows, lemma_quotient_of_itself, lemma_signed, lemma_units_order,
    lemma_whole_is_exact,
};
use crate::binary64::model::{lemma_size_order, lemma_size_small, size, Binary64};
use crate::binary64::nearness::{
    close, grain, lemma_bounded_product, lemma_bounded_quotient, lemma_bounded_sum, lemma_cancel, lemma_grain,
    lemma_times_bound,
};
use crate::binary64::order::{absolute, least, less, ONE};
use crate::decimals::{is_decimal, law_behavior_decimals, lemma_decimal_value, lemma_times_decimal};

verus! {

/// Whether a bearing is small enough to drive toward it.
pub open spec fn nearly_ahead(bearing: Binary64) -> bool {
    !bearing.is_nan_spec() && !less(Binary64 { bits: TURN_IN_PLACE_BEARING }, absolute(bearing))
}

/// An intruder on the other side is followed at the same speed with the opposite turn.
pub proof fn law_pursuit_mirrors(intruder: IntruderState)
    requires
        !intruder.bearing.is_nan_spec(),
    ensures
        ({
            let other = IntruderState { bearing: opposite(intruder.bearing), ..intruder };
            &&& pursuit(other).linear == pursuit(intruder).linear
            &&& pursuit(other).angular.z == opposite(pursuit(intruder).angular.z)
        }),
{
    let b = intruder.bearing;
    let other = IntruderState { bearing: opposite(b), ..intruder };
    lemma_opposite(b);
    law_pursuit_is_gentle(intruder);
    law_pursuit_is_gentle(other);
    assert(absolute(opposite(b)) == absolute(b));
    if less(Binary64 { bits: TURN_IN_PLACE_BEARING }, absolute(b)) {
        lemma_signed(b.negative(), crate::behavior::TURN_IN_PLACE_RATE as nat);
        lemma_signed(!b.negative(), crate::behavior::TURN_IN_PLACE_RATE as nat);
    } else {
        lemma_signed(false, b.magnitude());
        lemma_steering(b);
        lemma_steering(opposite(b));
        let half = Binary64 { bits: 0x3FE0_0000_0000_0000 };
        lemma_product(b, half);
        lemma_product(opposite(b), half);
        lemma_opposite(product(b, half));
        crate::binary64::facts::lemma_from_parts(product(opposite(b), half));
        crate::binary64::facts::lemma_from_parts(opposite(product(b, half)));
    }
}

/// The limit of driving toward an intruder is 0.44 rad.
proof fn lemma_turn_limit(bearing: Binary64)
    requires
        nearly_ahead(bearing),
    ensures
        bearing.finite(),
        close(bearing.units(), 0, (Binary64 { bits: TURN_IN_PLACE_BEARING }).units()),
        absolute(bearing).finite() && !absolute(bearing).negative(),
        absolute(bearing).units() == size(bearing.magnitude()),
        size(bearing.magnitude()) <= (Binary64 { bits: TURN_IN_PLACE_BEARING }).units(),
        close(100 * (Binary64 { bits: TURN_IN_PLACE_BEARING }).units(), 44 * one_in_units() as int, 45 * grain() as int),
{
    law_behavior_decimals();
    lemma_decimal_value(TURN_IN_PLACE_BEARING, 44, 100);
    lemma_signed(false, bearing.magnitude());
    lemma_absolute_order(bearing, Binary64 { bits: TURN_IN_PLACE_BEARING });
}

/// The turn rate at a small bearing is half of it, which is never too much.
proof fn lemma_steering(bearing: Binary64)
    requires
        nearly_ahead(bearing),
    ensures
        crate::behavior::pursuit::pursuit_steering(bearing) == product(bearing, Binary64 { bits: 0x3FE0_0000_0000_0000 }),
        close(2 * crate::behavior::pursuit::pursuit_steering(bearing).units(), bearing.units(), 1),
        crate::behavior::pursuit::pursuit_steering(bearing).negative() == bearing.negative(),
{
    let limit = Binary64 { bits: PURSUIT_STEERING_LIMIT };
    let half = product(bearing, Binary64 { bits: 0x3FE0_0000_0000_0000 });
    lemma_grain();
    lemma_turn_limit(bearing);
    lemma_halved(bearing);
    law_behavior_decimals();
    lemma_decimal_value(PURSUIT_STEERING_LIMIT, 3, 10);
    lemma_opposite(limit);
    let g = grain() as int;
    assert(one_in_units() >= 1000000 * g) by (nonlinear_arith)
        requires
            one_in_units() == 0x20_0000_0000_0000 * g,
            g > 0,
    ;
    assert(close(10 * limit.units(), 3 * one_in_units() as int, 4 * g));
    assert(half.units() < limit.units());
    assert(opposite(limit).units() == -limit.units());
    assert(opposite(limit).units() < half.units());
    lemma_units_order(half, limit);
    lemma_units_order(opposite(limit), half);
}

/// Toward an intruder that is nearly ahead the robot turns at half the bearing, to its side.
pub proof fn law_pursuit_turns_by_half(intruder: IntruderState)
    requires
        nearly_ahead(intruder.bearing),
    ensures
        close(2 * pursuit(intruder).angular.z.units(), intruder.bearing.units(), 1),
        pursuit(intruder).angular.z.negative() == intruder.bearing.negative(),
{
    lemma_steering(intruder.bearing);
    lemma_turn_limit(intruder.bearing);
}

/// Beyond three meters the distance does not matter.
pub proof fn law_far_is_far(intruder: IntruderState, distance: Binary64)
    requires
        less(from_whole(3), intruder.distance),
        less(from_whole(3), distance),
    ensures
        pursuit(IntruderState { distance, ..intruder }) == pursuit(intruder),
{
    law_behavior_decimals();
    lemma_whole_decimal(PURSUIT_SLOW_DISTANCE, 3);
}

/// The share of the speed that is kept falls from 1 straight ahead to 0.4 at 0.44 rad.
proof fn lemma_kept_share(bearing: Binary64)
    requires
        nearly_ahead(bearing),
    ensures
        ({
            let f = bearing_factor(bearing);
            let b = size(bearing.magnitude());
            &&& f.finite() && !f.negative()
            &&& 0 <= f.units() <= one_in_units() + 2 * grain()
            &&& close(11 * f.units(), 11 * one_in_units() - 15 * b, 140 * grain() as int)
        }),
{
    let turn = Binary64 { bits: TURN_IN_PLACE_BEARING };
    let one = Binary64 { bits: UNITY };
    let z = one_in_units() as int;
    let g = grain() as int;
    let a = absolute(bearing);
    let b = size(bearing.magnitude()) as int;
    let t = turn.units();
    lemma_grain();
    lemma_turn_limit(bearing);
    assert(z >= 1000000 * g) by (nonlinear_arith)
        requires
            z == 0x20_0000_0000_0000 * g,
            g > 0,
    ;
    lemma_size_positive(TURN_IN_PLACE_BEARING as nat);
    lemma_bounded_quotient(a, turn, 1);
    lemma_size_order(TURN_IN_PLACE_BEARING as nat, a.magnitude());
    lemma_quotient_grows(a, turn, turn);
    lemma_quotient_of_itself(turn);
    let ratio = quotient(a, turn);
    lemma_size_order(ONE as nat, ratio.magnitude());
    let off = least(ratio, one);
    assert(off == ratio);
    let q = ratio.units();
    // 44 q is 100 b
    lemma_times_bound(q, 100 * t - 44 * z, z, 45 * g);
    assert(q * (100 * t - 44 * z) == 100 * (q * t) - 44 * (q * z) && z * (45 * g) == 45 * (g * z) && (2 * g) * t == 2 * (g
        * t) && (44 * q - 100 * b) * z == 44 * (q * z) - 100 * (b * z) && (140 * g) * z == 140 * (g * z)) by (nonlinear_arith);
    assert(100 * (g * t) <= 45 * (g * z)) by (nonlinear_arith)
        requires
            100 * t <= 45 * z,
            g > 0,
    {
        assert((45 * z - 100 * t) * g >= 0);
    }
    assert(close((44 * q - 100 * b) * z, 0, (140 * g) * z));
    lemma_cancel(44 * q - 100 * b, 140 * g, z);
    // what it costs
    law_behavior_decimals();
    lemma_times_decimal(ratio, BEARING_SLOWDOWN, 6, 10, 1);
    let cost = product(ratio, Binary64 { bits: BEARING_SLOWDOWN });
    assert(((10 + 1) * (1 * (6 + 1) + 1)) * grain() == 88 * grain()) by (nonlinear_arith);
    lemma_opposite(cost);
    lemma_size_small();
    assert(one.units() == z);
    lemma_bounded_sum(one, opposite(cost), 1);
    let f = bearing_factor(bearing);
    assert((1 + 1) * grain() == 2 * grain()) by (nonlinear_arith);
    assert(close(f.units(), z - cost.units(), 2 * g));
    lemma_units_order(crate::geometry::zero(), f);
}

/// At a distance of more than three meters the speed is 0.15 m/s, less the share that the
/// bearing costs: 15/11 of it for each radian.
pub proof fn law_far_speed(intruder: IntruderState)
    requires
        nearly_ahead(intruder.bearing),
        less(from_whole(3), intruder.distance),
    ensures
        close(
            220 * pursuit(intruder).linear.x.units(),
            3 * (11 * one_in_units() - 15 * size(intruder.bearing.magnitude())),
            8000 * grain() as int,
        ),
        intruder.bearing.is_zero() ==> pursuit(intruder).linear.x == (Binary64 { bits: PURSUIT_MAX_SPEED }),
        is_decimal(PURSUIT_MAX_SPEED, 15, 100),
{
    let f = bearing_factor(intruder.bearing);
    let fastest = Binary64 { bits: PURSUIT_MAX_SPEED };
    let g = grain();
    law_behavior_decimals();
    lemma_whole_decimal(PURSUIT_SLOW_DISTANCE, 3);
    lemma_kept_share(intruder.bearing);
    lemma_grain();
    assert(2 * g <= one_in_units()) by (nonlinear_arith)
        requires
            one_in_units() == 0x20_0000_0000_0000 * g,
    ;
    lemma_times_decimal(f, PURSUIT_MAX_SPEED, 15, 100, 2);
    assert(((100 + 1) * (2 * (15 + 1) + 1)) * g == 3333 * g) by (nonlinear_arith);
    if intruder.bearing.is_zero() {
        lemma_straight_ahead(intruder.bearing);
        crate::binary64::facts::lemma_product_with_one(fastest);
    }
}

/// Straight ahead no speed is lost.
proof fn lemma_straight_ahead(bearing: Binary64)
    requires
        bearing.is_zero(),
    ensures
        bearing_factor(bearing) == (Binary64 { bits: UNITY }),
{
    let one = Binary64 { bits: UNITY };
    let turn = Binary64 { bits: TURN_IN_PLACE_BEARING };
    lemma_signed(false, 0);
    crate::binary64::facts::lemma_zero_quotient(absolute(bearing), turn);
    let ratio = quotient(absolute(bearing), turn);
    crate::binary64::facts::lemma_zero_product(ratio, Binary64 { bits: BEARING_SLOWDOWN });
    let cost = product(ratio, Binary64 { bits: BEARING_SLOWDOWN });
    lemma_opposite(cost);
    crate::binary64::facts::lemma_sum_with_zero(one, opposite(cost));
}

/// Within three meters the speed is in proportion to the distance, 0.05 m/s for each meter,
/// less the share that the bearing costs; but no less than 0.05 m/s.
pub proof fn law_near_speed(intruder: IntruderState)
    requires
        nearly_ahead(intruder.bearing),
        intruder.distance.finite(),
        !less(from_whole(3), intruder.distance),
        !less(intruder.distance, crate::geometry::zero()),
    ensures
        ({
            let one = one_in_units() as int;
            let g = grain() as int;
            let v = pursuit(intruder).linear.x;
            let wanted = intruder.distance.units() * (11 * one - 15 * size(intruder.bearing.magnitude()));
            let error = 12000 * (g * one);
            &&& wanted >= 11 * (one * one) + error ==> close(220 * (v.units() * one), wanted, error)
            &&& wanted <= 11 * (one * one) - error ==> v == (Binary64 { bits: PURSUIT_MIN_SPEED })
            &&& is_decimal(PURSUIT_MIN_SPEED, 5, 100)
        }),
{
    let f = bearing_factor(intruder.bearing);
    let fastest = Binary64 { bits: PURSUIT_MAX_SPEED };
    let slow = Binary64 { bits: PURSUIT_SLOW_DISTANCE };
    let least_speed = Binary64 { bits: PURSUIT_MIN_SPEED };
    let d = intruder.distance;
    let g = grain() as int;
    let one = one_in_units() as int;
    law_behavior_decimals();
    lemma_whole_decimal(PURSUIT_SLOW_DISTANCE, 3);
    lemma_whole_is_exact(3);
    lemma_size_small();
    lemma_kept_share(intruder.bearing);
    lemma_grain();
    assert(one >= 1000000 * g) by (nonlinear_arith)
        requires
            one == 0x20_0000_0000_0000 * g,
            g > 0,
    ;
    lemma_units_order(crate::geometry::zero(), d);
    lemma_units_order(d, slow);
    lemma_size_positive(PURSUIT_SLOW_DISTANCE as nat);
    lemma_bounded_quotient(d, slow, 1);
    let ratio = quotient(d, slow);
    let q = ratio.units();
    let x = d.units();
    // three times the ratio is the distance
    assert((3 * q - x) * one == q * (3 * one) - x * one && ((1 + 1) * g) * (3 * one) == (6 * g) * one) by (nonlinear_arith);
    lemma_cancel(3 * q - x, 6 * g, one);
    lemma_times_decimal(ratio, PURSUIT_MAX_SPEED, 15, 100, 2);
    assert(((100 + 1) * (2 * (15 + 1) + 1)) * grain() == 3333 * grain()) by (nonlinear_arith);
    let speed = product(ratio, fastest);
    let v = speed.units();
    assert(close(20 * v, x, 700 * g));
    assert(size(speed.magnitude()) * size(f.magnitude()) <= 1 * (one * one)) by (nonlinear_arith)
        requires
            0 <= 2 * size(speed.magnitude()) <= one,
            0 <= size(f.magnitude()) <= 2 * one,
    ;
    lemma_bounded_product(speed, f, 1);
    let w = product(speed, f);
    lemma_near_number(w.units(), v, f.units(), x, size(intruder.bearing.magnitude()) as int, g, one);
    lemma_decimal_value(PURSUIT_MIN_SPEED, 5, 100);
    lemma_units_order(w, least_speed);
    lemma_wanted_number(
        w.units(),
        least_speed.units(),
        x * (11 * one - 15 * size(intruder.bearing.magnitude())),
        g,
        one,
    );
}

/// The same in numbers.
proof fn lemma_near_number(w: int, v: int, f: int, x: int, b: int, g: int, one: int)
    requires
        g > 0,
        one >= 1000000 * g,
        0 <= x <= 3 * one,
        0 <= f <= one + 2 * g,
        close(20 * v, x, 700 * g),
        close(11 * f, 11 * one - 15 * b, 140 * g),
        close(w * one, v * f, ((1 + 1) * g) * one),
    ensures
        close(220 * (w * one), x * (11 * one - 15 * b), 9300 * (g * one)),
{
    let y = 11 * one - 15 * b;
    lemma_times_bound(20 * v - x, 11 * f, 700 * g, 12 * one);
    lemma_times_bound(x, 11 * f - y, 3 * one, 140 * g);
    assert((20 * v - x) * (11 * f) == 220 * (v * f) - x * (11 * f) && x * (11 * f - y) == x * (11 * f) - x * y) by (nonlinear_arith);
    assert((700 * g) * (12 * one) == 8400 * (g * one) && (3 * one) * (140 * g) == 420 * (g * one) && ((1 + 1) * g) * one == 2
        * (g * one) && g * one >= 0) by (nonlinear_arith)
        requires
            g > 0,
            one > 0,
    ;
    assert(close(220 * (w * one), 220 * (v * f), 440 * (g * one)));
}

/// The lowest speed and the wanted one, in numbers.
proof fn lemma_wanted_number(w: int, low: int, wanted: int, g: int, one: int)
    requires
        g > 0,
        one > 0,
        close(100 * low, 5 * one, 6 * g),
        close(220 * (w * one), wanted, 9300 * (g * one)),
    ensures
        wanted >= 11 * (one * one) + 12000 * (g * one) ==> w > low,
        wanted <= 11 * (one * one) - 12000 * (g * one) ==> w < low,
{
    let wo = w * one;
    let lo = low * one;
    let gg = g * one;
    assert(close(100 * lo, 5 * (one * one), 6 * gg) && gg > 0) by (nonlinear_arith)
        requires
            -(6 * g) <= 100 * low - 5 * one <= 6 * g,
            one > 0,
            g > 0,
            lo == low * one,
            gg == g * one,
    {
        assert((100 * low - 5 * one + 6 * g) * one >= 0);
        assert((5 * one + 6 * g - 100 * low) * one >= 0);
    }
    if wanted >= 11 * (one * one) + 12000 * gg {
        assert(wo > lo);
        assert(w > low) by (nonlinear_arith)
            requires
                wo == w * one,
                lo == low * one,
                wo > lo,
                one > 0,
        ;
    }
    if wanted <= 11 * (one * one) - 12000 * gg {
        assert(wo < lo);
        assert(w < low) by (nonlinear_arith)
            requires
                wo == w * one,
                lo == low * one,
                wo < lo,
                one > 0,
        ;
    }
}

/// At a distance that is no number, or less than none, the speed is the lowest.
pub proof fn law_unknown_distance(intruder: IntruderState)
    requires
        nearly_ahead(intruder.bearing),
        intruder.distance.is_nan_spec() || less(intruder.distance, crate::geometry::zero()),
    ensures
        pursuit(intruder).linear.x == (Binary64 { bits: PURSUIT_MIN_SPEED }),
{
    law_behavior_decimals();
    lemma_whole_decimal(PURSUIT_SLOW_DISTANCE, 3);
    lemma_whole_is_exact(3);
    lemma_kept_share(intruder.bearing);
    crate::behavior::laws::lemma_factor(intruder.bearing);
    if !intruder.distance.is_nan_spec() {
        crate::behavior::laws::lemma_backward_is_negative(
            intruder.distance,
            Binary64 { bits: PURSUIT_SLOW_DISTANCE },
            Binary64 { bits: PURSUIT_MAX_SPEED },
            bearing_factor(intruder.bearing),
        );
    } else {
        crate::binary64::facts::law_nan_stays_nan(intruder.distance, Binary64 { bits: PURSUIT_SLOW_DISTANCE });
        let q = quotient(intruder.distance, Binary64 { bits: PURSUIT_SLOW_DISTANCE });
        crate::binary64::facts::law_nan_stays_nan(q, Binary64 { bits: PURSUIT_MAX_SPEED });
    }
}

} // verus!
