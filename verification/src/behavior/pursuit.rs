//! Steering toward an intruder.

use vstd::prelude::*;
use crate::behavior::{
    IntruderState, BEARING_SLOWDOWN, PURSUIT_MAX_SPEED, PURSUIT_MIN_SPEED, PURSUIT_SLOW_DISTANCE, PURSUIT_STEERING_GAIN,
    PURSUIT_STEERING_LIMIT, TURN_IN_PLACE_BEARING, TURN_IN_PLACE_RATE, UNITY,
};
use crate::binary64::arithmetic::{difference, opposite, product, quotient};
use crate::binary64::model::Binary64;
use crate::binary64::order::{absolute, clamped, greatest, least, less, sign_of};
use crate::geometry::{make_twist, planar, zero, Twist};

verus! {

/// The share of the speed that is kept at a bearing: 1 straight ahead, less off centre.
pub open spec fn bearing_factor(bearing: Binary64) -> Binary64 {
    let one = Binary64 { bits: UNITY };
    let off_centre = least(quotient(absolute(bearing), Binary64 { bits: TURN_IN_PLACE_BEARING }), one);
    difference(one, product(off_centre, Binary64 { bits: BEARING_SLOWDOWN }))
}

/// The speed of a pursuit, lower when near and when the bearing is off centre.
pub open spec fn pursuit_speed(distance: Binary64, bearing: Binary64) -> Binary64 {
    let slow = Binary64 { bits: PURSUIT_SLOW_DISTANCE };
    let fastest = Binary64 { bits: PURSUIT_MAX_SPEED };
    if less(slow, distance) {
        product(fastest, bearing_factor(bearing))
    } else {
        greatest(
            product(product(quotient(distance, slow), fastest), bearing_factor(bearing)),
            Binary64 { bits: PURSUIT_MIN_SPEED },
        )
    }
}

/// The turn rate of a pursuit, in proportion to the bearing.
pub open spec fn pursuit_steering(bearing: Binary64) -> Binary64 {
    let limit = Binary64 { bits: PURSUIT_STEERING_LIMIT };
    clamped(product(bearing, Binary64 { bits: PURSUIT_STEERING_GAIN }), opposite(limit), limit)
}

/// The command that follows an intruder: a turn in place toward a large bearing, else
/// driving and steering.
pub open spec fn pursuit(intruder: IntruderState) -> Twist {
    if less(Binary64 { bits: TURN_IN_PLACE_BEARING }, absolute(intruder.bearing)) {
        planar(zero(), product(sign_of(intruder.bearing), Binary64 { bits: TURN_IN_PLACE_RATE }))
    } else {
        planar(pursuit_speed(intruder.distance, intruder.bearing), pursuit_steering(intruder.bearing))
    }
}

/// The command that follows an intruder.
pub fn compute_pursuit_twist(intruder: &IntruderState) -> (r: Twist)
    ensures
        r == pursuit(*intruder),
{
    let turn_first: Binary64 = Binary64::from_bits(TURN_IN_PLACE_BEARING);
    let bearing_abs: Binary64 = intruder.bearing.abs();
    if bearing_abs.gt(turn_first) {
        let steer: Binary64 = intruder.bearing.signum().times(Binary64::from_bits(TURN_IN_PLACE_RATE));
        return make_twist(Binary64::from_bits(0), steer);
    }
    let one: Binary64 = Binary64::from_bits(UNITY);
    let off_centre: Binary64 = bearing_abs.over(turn_first).min(one);
    let factor: Binary64 = one.minus(off_centre.times(Binary64::from_bits(BEARING_SLOWDOWN)));
    let slow: Binary64 = Binary64::from_bits(PURSUIT_SLOW_DISTANCE);
    let fastest: Binary64 = Binary64::from_bits(PURSUIT_MAX_SPEED);
    let speed: Binary64 = if intruder.distance.gt(slow) {
        fastest.times(factor)
    } else {
        intruder.distance.over(slow).times(fastest).times(factor).max(Binary64::from_bits(PURSUIT_MIN_SPEED))
    };
    let limit: Binary64 = Binary64::from_bits(PURSUIT_STEERING_LIMIT);
    let steer: Binary64 = intruder.bearing.times(Binary64::from_bits(PURSUIT_STEERING_GAIN)).clamp(
        limit.negated(),
        limit,
    );
    make_twist(speed, steer)
}

} // verus!
