//! The sides of the robot mirror each other, and what depends on the same arguments is
//! the same.

use vstd::prelude::*;
use vstd::arithmetic::power2::{lemma2_to64, pow2};
use crate::binary64::arithmetic::{difference, distance_from_zero, lemma_size_positive, opposite, product, sum};
use crate::binary64::facts::{
    at_most, lemma_opposite, lemma_product, lemma_product_grows, lemma_product_with_one, lemma_signed, lemma_size_over,
    lemma_sum_error, lemma_sum_grows, lemma_sum_with_zero, lemma_zero_product, within,
};
use crate::binary64::model::{lemma_size_order, size, Binary64, BINADE, INFINITY};
use crate::binary64::order::{less, same};
use crate::gait::{
    foot_ahead, foot_aside, ik_terms_of, in_stance, lateral_sign, leg_phase, out_of_reach, phase_after, places_foot,
    pose_of, poses_leg, reach, rest_target, solves_ik, stance_progress, stance_target, steps, swing_angle,
    swing_progress, swing_target, FootTarget, Gait, IkTerms, Leg, HALF, HIP_Y_OFFSET, NOMINAL_HEIGHT, TRAVEL,
    TURN_TRAVEL, UNITY,
};
use crate::gait::laws::law_feet_are_mirrored;
use crate::gait::workspace::{
    law_standing_is_within_reach, law_walking_is_within_reach, lemma_off_middle, lemma_stance_progress,
    lemma_swing_progress,
};
use crate::geometry::zero;
use crate::platform::{grows_with_the_slope, is_function, is_function_of_two, is_odd};

verus! {

/// More than any angle in radians that an arc function gives: 8.
pub const FULL_TURN: u64 = 0x4020_0000_0000_0000;

/// A foot position on the other side of its hip.
pub open spec fn sideways(target: FootTarget) -> FootTarget {
    FootTarget { lateral: opposite(target.lateral), ..target }
}

/// A foot position behind the hip instead of ahead of it, or the other way round.
pub open spec fn backward(target: FootTarget) -> FootTarget {
    FootTarget { forward: opposite(target.forward), ..target }
}

/// The square of a number does not depend on its sign.
proof fn lemma_square_of_opposite(a: Binary64)
    ensures
        product(opposite(a), opposite(a)) == product(a, a),
{
    lemma_opposite(a);
}

/// Mirroring a foot sideways changes the sign of one argument of the hip's arc tangent and
/// nothing else; mirroring it front to back does so with the arc tangent ahead.
pub proof fn law_mirrored_feet_have_mirrored_terms(target: FootTarget)
    requires
        !out_of_reach(target),
    ensures
        !out_of_reach(sideways(target)),
        !out_of_reach(backward(target)),
        ({
            let terms = ik_terms_of(target);
            &&& ik_terms_of(sideways(target)) == (IkTerms { hip: (opposite(terms.hip.0), terms.hip.1), ..terms })
            &&& ik_terms_of(backward(target)) == (IkTerms { ahead: (opposite(terms.ahead.0), terms.ahead.1), ..terms })
        }),
{
    lemma_square_of_opposite(target.forward);
}

/// A foot that is mirrored sideways has the opposite hip angle and the same thigh and calf
/// angles, if the arc functions are functions and the arc tangent is odd.
pub proof fn law_left_mirrors_right<A: Fn(Binary64, Binary64) -> Binary64, C: Fn(Binary64) -> Binary64>(
    atan2: A,
    acos: C,
    target: FootTarget,
    pose: (Binary64, Binary64, Binary64),
    mirrored: (Binary64, Binary64, Binary64),
)
    requires
        !out_of_reach(target),
        is_function_of_two(atan2),
        is_odd(atan2),
        is_function(acos),
        solves_ik(atan2, acos, target, pose),
        solves_ik(atan2, acos, sideways(target), mirrored),
    ensures
        mirrored == (opposite(pose.0), pose.1, pose.2),
{
    law_mirrored_feet_have_mirrored_terms(target);
}

/// A foot that is mirrored front to back has the same hip and calf angles, and its thigh
/// lies as far on the other side of the middle, if the arc functions are functions and the
/// arc tangent is odd.
pub proof fn law_front_mirrors_back<A: Fn(Binary64, Binary64) -> Binary64, C: Fn(Binary64) -> Binary64>(
    atan2: A,
    acos: C,
    target: FootTarget,
    pose: (Binary64, Binary64, Binary64),
    mirrored: (Binary64, Binary64, Binary64),
)
    requires
        !out_of_reach(target),
        is_function_of_two(atan2),
        is_odd(atan2),
        is_function(acos),
        solves_ik(atan2, acos, target, pose),
        solves_ik(atan2, acos, backward(target), mirrored),
    ensures
        mirrored.0 == pose.0,
        mirrored.2 == pose.2,
        exists|ahead: Binary64, thigh: Binary64|
            {
                &&& #[trigger] call_ensures(atan2, ik_terms_of(target).ahead, ahead)
                &&& #[trigger] call_ensures(acos, (ik_terms_of(target).thigh,), thigh)
                &&& pose.1 == sum(opposite(ahead), thigh)
                &&& mirrored.1 == sum(ahead, thigh)
            },
{
    law_mirrored_feet_have_mirrored_terms(target);
    let terms = ik_terms_of(target);
    let (hip, ahead, knee, thigh) = choose|hip: Binary64, ahead: Binary64, knee: Binary64, thigh: Binary64|
        {
            &&& #[trigger] call_ensures(atan2, terms.hip, hip)
            &&& #[trigger] call_ensures(atan2, terms.ahead, ahead)
            &&& #[trigger] call_ensures(acos, (terms.knee,), knee)
            &&& #[trigger] call_ensures(acos, (terms.thigh,), thigh)
            &&& pose == pose_of(hip, ahead, knee, thigh)
        };
    lemma_opposite(ahead);
    assert(call_ensures(atan2, terms.ahead, ahead) && call_ensures(acos, (terms.thigh,), thigh));
}

/// The thigh angles of a foot and of its mirror image front to back add up to twice the
/// angle between the thigh and the line to the foot, up to one part in 2^53 of each.
pub proof fn law_mirrored_thighs_add_up(ahead: Binary64, thigh: Binary64)
    requires
        ahead.magnitude() <= FULL_TURN,
        thigh.magnitude() <= FULL_TURN,
    ensures
        ({
            let near = sum(opposite(ahead), thigh);
            let far = sum(ahead, thigh);
            let error = near.units() + far.units() - 2 * thigh.units();
            let limit = distance_from_zero(thigh.units() - ahead.units()) + distance_from_zero(
                thigh.units() + ahead.units(),
            ) + 4 * BINADE;
            -limit <= (2 * BINADE) * error <= limit
        }),
{
    let turn = size(FULL_TURN as nat);
    lemma_opposite(ahead);
    lemma_size_order(FULL_TURN as nat, ahead.magnitude());
    lemma_size_order(FULL_TURN as nat, thigh.magnitude());
    lemma2_to64();
    lemma_size_over(1025, 0x10_0000_0000_0000, 1025, 1, 0x10_0000_0000_0000);
    lemma_size_over(1026, 0x10_0000_0000_0000, 1025, 2, 0x20_0000_0000_0000);
    lemma_size_order(0x4030_0000_0000_0000, INFINITY as nat);
    let unit = pow2(1025);
    assert(2 * (0x10_0000_0000_0000 * unit) == 0x20_0000_0000_0000 * unit) by (nonlinear_arith);
    assert(2 * turn < size(INFINITY as nat));
    lemma_sum_error(opposite(ahead), thigh);
    lemma_sum_error(ahead, thigh);
    let u = 2 * BINADE as int;
    let v = thigh.units() - ahead.units();
    let w = thigh.units() + ahead.units();
    assert(opposite(ahead).units() + thigh.units() == v && ahead.units() + thigh.units() == w);
    let e = sum(opposite(ahead), thigh).units() - v;
    let f = sum(ahead, thigh).units() - w;
    assert(u * (e + f) == u * e + u * f) by (nonlinear_arith);
}

/// Feet at the same reach have the same calf angle, and of them the one at the larger angle
/// ahead has the smaller thigh angle, if the arc functions are functions.
pub proof fn law_same_reach_bends_the_knee_alike<
    A: Fn(Binary64, Binary64) -> Binary64,
    C: Fn(Binary64) -> Binary64,
>(
    atan2: A,
    acos: C,
    target: FootTarget,
    other: FootTarget,
    pose: (Binary64, Binary64, Binary64),
    other_pose: (Binary64, Binary64, Binary64),
)
    requires
        reach(target) == reach(other),
        !out_of_reach(target),
        is_function_of_two(atan2),
        is_function(acos),
        solves_ik(atan2, acos, target, pose),
        solves_ik(atan2, acos, other, other_pose),
    ensures
        other_pose.2 == pose.2,
        forall|ahead: Binary64, other_ahead: Binary64, thigh: Binary64|
            {
                &&& #[trigger] call_ensures(atan2, ik_terms_of(target).ahead, ahead)
                &&& #[trigger] call_ensures(atan2, ik_terms_of(other).ahead, other_ahead)
                &&& #[trigger] call_ensures(acos, (ik_terms_of(target).thigh,), thigh)
                &&& ahead.finite() && other_ahead.finite() && thigh.finite()
                &&& at_most(ahead, other_ahead)
            } ==> at_most(other_pose.1, pose.1),
{
    assert(ik_terms_of(target).knee == ik_terms_of(other).knee);
    assert(ik_terms_of(target).thigh == ik_terms_of(other).thigh);
    assert forall|ahead: Binary64, other_ahead: Binary64, thigh: Binary64|
        {
            &&& #[trigger] call_ensures(atan2, ik_terms_of(target).ahead, ahead)
            &&& #[trigger] call_ensures(atan2, ik_terms_of(other).ahead, other_ahead)
            &&& #[trigger] call_ensures(acos, (ik_terms_of(target).thigh,), thigh)
            &&& ahead.finite() && other_ahead.finite() && thigh.finite()
            &&& at_most(ahead, other_ahead)
        } implies at_most(other_pose.1, pose.1) by {
        lemma_opposite(ahead);
        lemma_opposite(other_ahead);
        lemma_sum_grows(opposite(other_ahead), opposite(ahead), thigh);
    }
}

/// Of two feet at the same reach, the one that is farther ahead of its hip for its height has
/// the smaller thigh angle and the same calf angle, if the arc functions are functions, the
/// arc tangent grows with the slope and the arc cosine is finite.
pub proof fn law_farther_ahead_lowers_the_thigh<
    A: Fn(Binary64, Binary64) -> Binary64,
    C: Fn(Binary64) -> Binary64,
>(
    atan2: A,
    acos: C,
    target: FootTarget,
    other: FootTarget,
    pose: (Binary64, Binary64, Binary64),
    other_pose: (Binary64, Binary64, Binary64),
)
    requires
        reach(target) == reach(other),
        !out_of_reach(target),
        target.forward.finite() && target.down.finite() && other.forward.finite() && other.down.finite(),
        ({
            let (ahead, height) = ik_terms_of(target).ahead;
            let (other_ahead, other_height) = ik_terms_of(other).ahead;
            ahead.units() * other_height.units() <= other_ahead.units() * height.units()
        }),
        is_function_of_two(atan2),
        grows_with_the_slope(atan2),
        is_function(acos),
        forall|thigh: Binary64| #[trigger] call_ensures(acos, (ik_terms_of(target).thigh,), thigh) ==> thigh.finite(),
        solves_ik(atan2, acos, target, pose),
        solves_ik(atan2, acos, other, other_pose),
    ensures
        other_pose.2 == pose.2,
        at_most(other_pose.1, pose.1),
{
    law_same_reach_bends_the_knee_alike(atan2, acos, target, other, pose, other_pose);
    let terms = ik_terms_of(target);
    let other_terms = ik_terms_of(other);
    lemma_height_is_positive(target);
    lemma_height_is_positive(other);
    let (hip, ahead, knee, thigh) = choose|hip: Binary64, ahead: Binary64, knee: Binary64, thigh: Binary64|
        {
            &&& #[trigger] call_ensures(atan2, terms.hip, hip)
            &&& #[trigger] call_ensures(atan2, terms.ahead, ahead)
            &&& #[trigger] call_ensures(acos, (terms.knee,), knee)
            &&& #[trigger] call_ensures(acos, (terms.thigh,), thigh)
            &&& pose == pose_of(hip, ahead, knee, thigh)
        };
    let (other_hip, other_ahead, other_knee, other_thigh) = choose|
        hip: Binary64,
        ahead: Binary64,
        knee: Binary64,
        thigh: Binary64,
    |
        {
            &&& #[trigger] call_ensures(atan2, other_terms.hip, hip)
            &&& #[trigger] call_ensures(atan2, other_terms.ahead, ahead)
            &&& #[trigger] call_ensures(acos, (other_terms.knee,), knee)
            &&& #[trigger] call_ensures(acos, (other_terms.thigh,), thigh)
            &&& other_pose == pose_of(hip, ahead, knee, thigh)
        };
    assert(call_ensures(atan2, terms.ahead, ahead) && call_ensures(atan2, other_terms.ahead, other_ahead));
    assert(call_ensures(acos, (terms.thigh,), thigh));
    assert(ahead.finite() && other_ahead.finite() && at_most(ahead, other_ahead));
}

/// The arc tangents are taken over a height of more than zero.
proof fn lemma_height_is_positive(target: FootTarget)
    requires
        !out_of_reach(target),
        target.down.finite(),
    ensures
        ik_terms_of(target).ahead.0 == target.forward,
        ik_terms_of(target).ahead.1.finite(),
        ik_terms_of(target).ahead.1.units() > 0,
{
    lemma_signed(false, target.down.magnitude());
    lemma_size_positive(ik_terms_of(target).ahead.1.magnitude());
}

/// A robot without a command stands, whatever its place in the cycle and its frequency: it
/// starts its cycle anew, each foot is straight down from its hip and to its side, and its
/// angles are those that the inverse kinematics gives for that position, as they are for a
/// new gait.
pub proof fn law_standing_pose<
    S: Fn(Binary64) -> Binary64,
    A: Fn(Binary64, Binary64) -> Binary64,
    C: Fn(Binary64) -> Binary64,
>(sin: S, atan2: A, acos: C, g: Gait, fresh: Gait, dt: Binary64, leg: Leg, pose: (Binary64, Binary64, Binary64))
    requires
        !steps(g.vel_x, g.ang_z),
        fresh.vel_x == zero(),
        fresh.ang_z == zero(),
    ensures
        phase_after(g, dt) == zero(),
        ({
            let side = Binary64 { bits: HIP_Y_OFFSET };
            let lateral = if leg == Leg::FL || leg == Leg::RL { side } else { opposite(side) };
            let target = FootTarget { lateral, forward: zero(), down: Binary64 { bits: NOMINAL_HEIGHT } };
            poses_leg(sin, atan2, acos, g, leg, pose) <==> solves_ik(atan2, acos, target, pose)
        }),
        poses_leg(sin, atan2, acos, g, leg, pose) <==> poses_leg(sin, atan2, acos, fresh, leg, pose),
{
    law_feet_are_mirrored();
    assert(!steps(fresh.vel_x, fresh.ang_z));
    assert(places_foot(sin, g, leg, rest_target(leg)));
    assert(places_foot(sin, fresh, leg, rest_target(leg)));
}

/// Every standing robot starts its cycle anew and has the same angles, whatever it did
/// before, if the arc functions are functions: those of a foot straight down from its hip
/// and to its side.
pub proof fn law_standing_robots_are_alike<
    S: Fn(Binary64) -> Binary64,
    A: Fn(Binary64, Binary64) -> Binary64,
    C: Fn(Binary64) -> Binary64,
>(
    sin: S,
    atan2: A,
    acos: C,
    g: Gait,
    other: Gait,
    dt: Binary64,
    leg: Leg,
    pose: (Binary64, Binary64, Binary64),
    other_pose: (Binary64, Binary64, Binary64),
)
    requires
        !steps(g.vel_x, g.ang_z),
        !steps(other.vel_x, other.ang_z),
        is_function_of_two(atan2),
        is_function(acos),
        poses_leg(sin, atan2, acos, g, leg, pose),
        poses_leg(sin, atan2, acos, other, leg, other_pose),
    ensures
        phase_after(g, dt) == zero(),
        solves_ik(atan2, acos, rest_target(leg), pose),
        pose == other_pose,
{
    assert(solves_ik(atan2, acos, rest_target(leg), pose));
    assert(solves_ik(atan2, acos, rest_target(leg), other_pose));
}

/// The right legs of a standing robot mirror the left ones, if the arc functions are
/// functions and the arc tangent is odd.
pub proof fn law_standing_robot_is_symmetric<
    S: Fn(Binary64) -> Binary64,
    A: Fn(Binary64, Binary64) -> Binary64,
    C: Fn(Binary64) -> Binary64,
>(
    sin: S,
    atan2: A,
    acos: C,
    g: Gait,
    left: (Binary64, Binary64, Binary64),
    right: (Binary64, Binary64, Binary64),
)
    requires
        !steps(g.vel_x, g.ang_z),
        is_function_of_two(atan2),
        is_odd(atan2),
        is_function(acos),
        poses_leg(sin, atan2, acos, g, Leg::FL, left),
        poses_leg(sin, atan2, acos, g, Leg::FR, right),
    ensures
        right == (opposite(left.0), left.1, left.2),
{
    law_feet_are_mirrored();
    law_standing_is_within_reach(Leg::FL);
    assert(rest_target(Leg::FR) == sideways(rest_target(Leg::FL)));
    law_left_mirrors_right(atan2, acos, rest_target(Leg::FL), left, right);
}

/// Without turning, how far a foot is ahead does not depend on its leg.
pub(crate) proof fn lemma_ahead_without_turning(g: Gait, leg: Leg, d: Binary64)
    requires
        g.ang_z.is_zero(),
        g.vel_x.finite(),
        d.magnitude() <= HALF,
    ensures
        same(
            foot_ahead(g, leg, d),
            product(product(g.vel_x, d), Binary64 { bits: TRAVEL }),
        ),
{
    let one = Binary64 { bits: UNITY };
    let half = Binary64 { bits: HALF };
    let travel = Binary64 { bits: TRAVEL };
    let turn_travel = Binary64 { bits: TURN_TRAVEL };
    let sign = lateral_sign(leg);
    lemma_opposite(one);
    lemma_zero_product(sign, g.ang_z);
    let turn = product(sign, g.ang_z);
    lemma_zero_product(turn, turn_travel);
    lemma_zero_product(product(turn, turn_travel), d);
    let none = product(product(turn, turn_travel), d);
    lemma_opposite(none);
    // no more than the velocity itself
    let stride = product(g.vel_x, d);
    lemma_product(g.vel_x, d);
    lemma_product_grows(d, one, g.vel_x);
    lemma_product_with_one(g.vel_x);
    lemma_product(stride, travel);
    lemma_product_grows(travel, one, stride);
    lemma_product_with_one(stride);
    lemma_sum_with_zero(product(stride, travel), opposite(none));
}

/// Without turning, two legs at the same place in their cycles have their feet equally far
/// ahead and equally far down.
pub proof fn law_feet_at_one_place_step_alike(g: Gait, leg: Leg, other: Leg, place: Binary64, sine: Binary64)
    requires
        g.ang_z.is_zero(),
        g.vel_x.finite(),
        at_most(zero(), place),
        less(place, Binary64 { bits: UNITY }),
    ensures
        in_stance(place) ==> {
            &&& same(stance_target(g, leg, place).forward, stance_target(g, other, place).forward)
            &&& stance_target(g, leg, place).down == stance_target(g, other, place).down
        },
        !in_stance(place) ==> {
            &&& same(swing_target(g, leg, place, sine).forward, swing_target(g, other, place, sine).forward)
            &&& swing_target(g, leg, place, sine).down == swing_target(g, other, place, sine).down
        },
{
    let half = Binary64 { bits: HALF };
    if in_stance(place) {
        lemma_stance_progress(place);
        lemma_off_middle(stance_progress(place));
        let d = difference(half, stance_progress(place));
        lemma_ahead_without_turning(g, leg, d);
        lemma_ahead_without_turning(g, other, d);
    } else {
        lemma_swing_progress(place);
        lemma_off_middle(swing_progress(place));
        let d = difference(swing_progress(place), half);
        lemma_ahead_without_turning(g, leg, d);
        lemma_ahead_without_turning(g, other, d);
    }
}

/// Two swinging feet at one place.
proof fn lemma_swing_alike<S: Fn(Binary64) -> Binary64>(
    sin: S,
    g: Gait,
    leg: Leg,
    other: Leg,
    place: Binary64,
    target: FootTarget,
    other_target: FootTarget,
)
    requires
        g.ang_z.is_zero(),
        g.vel_x.finite(),
        is_function(sin),
        steps(g.vel_x, g.ang_z),
        place == leg_phase(g.phase, leg),
        place == leg_phase(g.phase, other),
        at_most(zero(), place),
        less(place, Binary64 { bits: UNITY }),
        !in_stance(place),
        places_foot(sin, g, leg, target),
        places_foot(sin, g, other, other_target),
    ensures
        same(target.forward, other_target.forward),
        target.down == other_target.down,
        target.lateral == foot_aside(leg),
        other_target.lateral == foot_aside(other),
{
    let sine = choose|sine: Binary64| #[trigger]
        call_ensures(sin, (swing_angle(place),), sine) && target == swing_target(g, leg, place, sine);
    let other_sine = choose|sine: Binary64| #[trigger]
        call_ensures(sin, (swing_angle(place),), sine) && other_target == swing_target(g, other, place, sine);
    assert(sine == other_sine);
    law_feet_at_one_place_step_alike(g, leg, other, place, sine);
}

/// Without turning, the two feet of a diagonal are equally far ahead and equally far down,
/// on opposite sides, if the sine is a function.
pub proof fn law_diagonal_feet_step_alike<S: Fn(Binary64) -> Binary64>(
    sin: S,
    g: Gait,
    front_left: FootTarget,
    rear_right: FootTarget,
    front_right: FootTarget,
    rear_left: FootTarget,
)
    requires
        g.ang_z.is_zero(),
        g.vel_x.finite(),
        is_function(sin),
        at_most(zero(), leg_phase(g.phase, Leg::FL)),
        less(leg_phase(g.phase, Leg::FL), Binary64 { bits: UNITY }),
        at_most(zero(), leg_phase(g.phase, Leg::FR)),
        less(leg_phase(g.phase, Leg::FR), Binary64 { bits: UNITY }),
        places_foot(sin, g, Leg::FL, front_left),
        places_foot(sin, g, Leg::RR, rear_right),
        places_foot(sin, g, Leg::FR, front_right),
        places_foot(sin, g, Leg::RL, rear_left),
    ensures
        same(front_left.forward, rear_right.forward),
        front_left.down == rear_right.down,
        front_left.lateral == opposite(rear_right.lateral),
        same(front_right.forward, rear_left.forward),
        front_right.down == rear_left.down,
        front_right.lateral == opposite(rear_left.lateral),
{
    law_feet_are_mirrored();
    lemma_opposite(foot_aside(Leg::FL));
    let a = leg_phase(g.phase, Leg::FL);
    let b = leg_phase(g.phase, Leg::FR);
    if steps(g.vel_x, g.ang_z) {
        if in_stance(a) {
            law_feet_at_one_place_step_alike(g, Leg::FL, Leg::RR, a, zero());
        } else {
            lemma_swing_alike(sin, g, Leg::FL, Leg::RR, a, front_left, rear_right);
        }
        if in_stance(b) {
            law_feet_at_one_place_step_alike(g, Leg::FR, Leg::RL, b, zero());
        } else {
            lemma_swing_alike(sin, g, Leg::FR, Leg::RL, b, front_right, rear_left);
        }
    }
}

/// Numbers that are the same and not zero have the same pattern.
proof fn lemma_same_is_equal(a: Binary64, b: Binary64)
    requires
        same(a, b),
        !a.is_zero(),
    ensures
        a == b,
{
}

/// Without turning, a left and a right leg that are at the same place in their cycles have
/// mirrored poses: opposite hip angles, and the same thigh and calf angles.  So two legs
/// that have swapped their places have swapped their angles.  (A foot exactly below its
/// hip is left out: zero has two signs.)
pub proof fn law_legs_at_one_place_mirror_each_other<
    S: Fn(Binary64) -> Binary64,
    A: Fn(Binary64, Binary64) -> Binary64,
    C: Fn(Binary64) -> Binary64,
>(
    sin: S,
    atan2: A,
    acos: C,
    g: Gait,
    other: Gait,
    leg: Leg,
    other_leg: Leg,
    pose: (Binary64, Binary64, Binary64),
    other_pose: (Binary64, Binary64, Binary64),
)
    requires
        other.vel_x == g.vel_x && other.ang_z == g.ang_z,
        g.ang_z.is_zero(),
        g.vel_x.magnitude() <= UNITY,
        steps(g.vel_x, g.ang_z),
        leg == Leg::FL || leg == Leg::RL,
        other_leg == Leg::FR || other_leg == Leg::RR,
        leg_phase(g.phase, leg) == leg_phase(other.phase, other_leg),
        at_most(zero(), leg_phase(g.phase, leg)),
        less(leg_phase(g.phase, leg), Binary64 { bits: UNITY }),
        is_function(sin),
        forall|sine: Binary64|
            call_ensures(sin, (swing_angle(leg_phase(g.phase, leg)),), sine) ==> within(
                sine,
                zero(),
                Binary64 { bits: UNITY },
            ),
        is_function_of_two(atan2),
        is_odd(atan2),
        is_function(acos),
        forall|target: FootTarget| #[trigger] places_foot(sin, g, leg, target) ==> !target.forward.is_zero(),
        poses_leg(sin, atan2, acos, g, leg, pose),
        poses_leg(sin, atan2, acos, other, other_leg, other_pose),
    ensures
        other_pose == (opposite(pose.0), pose.1, pose.2),
{
    let place = leg_phase(g.phase, leg);
    let target = choose|target: FootTarget| #[trigger]
        places_foot(sin, g, leg, target) && solves_ik(atan2, acos, target, pose);
    let other_target = choose|target: FootTarget| #[trigger]
        places_foot(sin, other, other_leg, target) && solves_ik(atan2, acos, target, other_pose);
    law_feet_are_mirrored();
    if in_stance(place) {
        law_feet_at_one_place_step_alike(g, leg, other_leg, place, zero());
        assert(stance_target(other, other_leg, place) == stance_target(g, other_leg, place));
        law_walking_is_within_reach(g, leg, place, zero());
    } else {
        let sine = choose|sine: Binary64| #[trigger]
            call_ensures(sin, (swing_angle(place),), sine) && target == swing_target(g, leg, place, sine);
        let other_sine = choose|sine: Binary64| #[trigger]
            call_ensures(sin, (swing_angle(place),), sine) && other_target == swing_target(other, other_leg, place, sine);
        assert(sine == other_sine);
        law_feet_at_one_place_step_alike(g, leg, other_leg, place, sine);
        assert(swing_target(other, other_leg, place, sine) == swing_target(g, other_leg, place, sine));
        law_walking_is_within_reach(g, leg, place, sine);
    }
    assert(!target.forward.is_zero());
    lemma_same_is_equal(target.forward, other_target.forward);
    assert(other_target == sideways(target));
    law_left_mirrors_right(atan2, acos, target, pose, other_pose);
}

} // verus!
