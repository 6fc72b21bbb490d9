//! What holds of the behavior machine as a whole.

use vstd::prelude::*;
use vstd::arithmetic::power2::{lemma2_to64, lemma2_to64_rest, lemma_pow2_adds, lemma_pow2_pos, pow2};
use crate::behavior::machine::{after_command, after_tick, commanded, default_waypoints, initial, ordered, Machine};
use crate::behavior::pursuit::{bearing_factor, pursuit};
use crate::behavior::{
    aged, cornered, leaning, lost, moving, upright, IntruderState, Mode, SensorState, BEARING_SLOWDOWN, DWELL, LOST_TIMEOUT_SECS,
    PURSUIT_MAX_SPEED, PURSUIT_MIN_SPEED, PURSUIT_SLOW_DISTANCE, PURSUIT_STEERING_GAIN, PURSUIT_STEERING_LIMIT,
    SETTLING, STALE_SECS, TROT_SPEED, TURN_IN_PLACE_BEARING, TURN_IN_PLACE_RATE, UNITY,
};
use crate::binary64::arithmetic::{opposite, product, quotient, sum};
use crate::binary64::convert::{from_whole, one_in_units};
use crate::binary64::facts::{
    at_most, lemma_from_parts, lemma_opposite, lemma_product, lemma_product_at_least, lemma_product_grows,
    lemma_product_with_one, lemma_quotient, lemma_quotient_grows, lemma_quotient_of_itself, lemma_rank_keeps_order,
    lemma_rank_of_double, lemma_signed, lemma_size_over, lemma_sum, lemma_sum_grows, lemma_sum_with_zero, within,
};
use crate::binary64::model::{lemma_nearest_is, lemma_size_of, signed, size, Binary64, INFINITY};
use crate::binary64::order::{absolute, least, less, sign_of, ONE};
use crate::clock::{law_seconds_keep_order, seconds, since, NANOS_PER_SECOND};
use crate::decimals::{is_decimal, law_behavior_decimals};
use crate::geometry::{no_motion, planar, zero, Twist};
use crate::text::trimmed;

verus! {

/// What holds of a machine at every moment: the siren sounds exactly during an arrest, a
/// patrol is at one of its waypoints, and trot and patrol are as built in.
pub open spec fn consistent(m: Machine) -> bool {
    &&& m.wf()
    &&& m.siren_on == (m.mode is Apprehend)
    &&& m.trot == initial(0).trot
    &&& m.waypoints == default_waypoints()
}

/// A machine starts consistent, and no command, tick or manual velocity ends that.
pub proof fn law_always_consistent(
    m: Machine,
    cmd: Seq<char>,
    sensors: SensorState,
    intruder: IntruderState,
    manual: Twist,
    now: u64,
)
    ensures
        consistent(initial(now)),
        consistent(m) ==> consistent(after_command(m, cmd, now)),
        consistent(m) ==> consistent(after_tick(m, sensors, intruder, now)),
        consistent(m) ==> consistent(Machine { manual, ..m }),
{
}

/// The words of the operator are all different.
pub(crate) proof fn lemma_words_differ()
    ensures
        "stand"@ != "estop"@,
        "trot"@ != "estop"@,
        "patrol"@ != "estop"@,
        "manual"@ != "estop"@,
        "idle"@ != "estop"@,
        "stand"@ != "clear"@,
        "trot"@ != "clear"@,
        "patrol"@ != "clear"@,
        "manual"@ != "clear"@,
        "idle"@ != "clear"@,
        "estop"@ != "clear"@,
{
    reveal_strlit("stand");
    reveal_strlit("trot");
    reveal_strlit("patrol");
    reveal_strlit("manual");
    reveal_strlit("idle");
    reveal_strlit("estop");
    reveal_strlit("clear");
    assert("stand"@[0] == 's' && "estop"@[0] == 'e' && "clear"@[0] == 'c');
}

/// The operator's emergency stop works from every state, silences the siren, and no
/// velocity is commanded at the next tick.
pub proof fn law_emergency_stop_works_anywhere(
    m: Machine,
    cmd: Seq<char>,
    sensors: SensorState,
    intruder: IntruderState,
    now: u64,
    later: u64,
)
    requires
        trimmed(cmd) == "estop"@,
    ensures
        after_command(m, cmd, now).mode == (Mode::EmergencyStop { reason: "operator command"@ }),
        !after_command(m, cmd, now).siren_on,
        commanded(after_command(m, cmd, now), sensors, intruder, later) == no_motion(),
{
    lemma_words_differ();
}

/// A stopped robot is commanded no motion, whatever is seen.
pub proof fn law_stopped_robot_holds_still(m: Machine, sensors: SensorState, intruder: IntruderState, now: u64)
    requires
        m.mode is EmergencyStop,
    ensures
        commanded(m, sensors, intruder, now) == no_motion(),
        !after_tick(m, sensors, intruder, now).siren_on,
{
}

/// By itself an emergency stop ends only in idleness, and exactly where the robot is
/// upright and the stop has lasted for more than three seconds.
pub proof fn law_emergency_stop_ends_upright(m: Machine, sensors: SensorState, intruder: IntruderState, now: u64)
    requires
        m.mode is EmergencyStop,
    ensures
        ({
            let after = after_tick(m, sensors, intruder, now);
            let over = upright(sensors.roll, sensors.pitch) && since(now, m.entered_at) > DWELL;
            &&& over ==> after.mode is Idle
            &&& !over ==> after.mode == m.mode && after.entered_at == m.entered_at
        }),
{
}

/// The word "clear" ends an emergency stop in idleness and an arrest in a patrol, and
/// does nothing else.
pub proof fn law_clear(m: Machine, cmd: Seq<char>, now: u64)
    requires
        trimmed(cmd) == "clear"@,
    ensures
        m.mode is EmergencyStop ==> after_command(m, cmd, now).mode is Idle,
        m.mode is Apprehend ==> after_command(m, cmd, now).mode == (Mode::Patrol { waypoint_index: 0 }),
        !(m.mode is EmergencyStop) && !(m.mode is Apprehend) ==> after_command(m, cmd, now) == m,
{
    lemma_words_differ();
}

/// A text that is no command changes nothing.
pub proof fn law_unknown_commands_are_ignored(m: Machine, cmd: Seq<char>, now: u64)
    requires
        ({
            let word = trimmed(cmd);
            &&& word != "stand"@ && word != "trot"@ && word != "patrol"@ && word != "manual"@
            &&& word != "idle"@ && word != "estop"@ && word != "clear"@
        }),
    ensures
        after_command(m, cmd, now) == m,
{
}

/// A command that is carried out starts the new state's time and silences the siren.
pub proof fn law_commands_silence_the_siren(m: Machine, cmd: Seq<char>, now: u64)
    requires
        ordered(trimmed(cmd), m.mode) is Some,
    ensures
        !after_command(m, cmd, now).siren_on,
        after_command(m, cmd, now).entered_at == now,
        !(after_command(m, cmd, now).mode is Apprehend),
{
}

/// A robot that tilts too far while it stands up or trots is stopped, whatever it sees:
/// no motion is commanded and the siren is silent.
pub proof fn law_tilt_aborts(m: Machine, sensors: SensorState, intruder: IntruderState, now: u64)
    requires
        m.mode is StandUp || m.mode is Trot,
        !upright(sensors.roll, sensors.pitch),
    ensures
        after_tick(m, sensors, intruder, now).mode == (Mode::EmergencyStop { reason: "tilt"@ }),
        !after_tick(m, sensors, intruder, now).siren_on,
        commanded(m, sensors, intruder, now) == no_motion(),
{
}

/// A robot that stands up goes on to trot once it is stable, unless it tilts or sees an
/// intruder; until then it goes on standing up, and it does not move.
pub proof fn law_stable_robot_trots(m: Machine, sensors: SensorState, intruder: IntruderState, now: u64)
    requires
        m.mode is StandUp,
        upright(sensors.roll, sensors.pitch),
        !intruder.detected,
    ensures
        sensors.is_stable ==> after_tick(m, sensors, intruder, now).mode is Trot,
        !sensors.is_stable ==> after_tick(m, sensors, intruder, now).mode is StandUp,
        commanded(m, sensors, intruder, now) == no_motion(),
{
}

/// An orientation reading makes the robot stable exactly where it is upright, so that a
/// robot that stands up is stopped or trots at the first tick after it, if it sees no
/// intruder.
pub proof fn law_reading_ends_standing_up(
    m: Machine,
    sensors: SensorState,
    roll: Binary64,
    pitch: Binary64,
    intruder: IntruderState,
    now: u64,
)
    requires
        m.mode is StandUp,
        !intruder.detected,
    ensures
        ({
            let after = after_tick(m, leaning(sensors, roll, pitch), intruder, now);
            &&& upright(roll, pitch) ==> after.mode is Trot
            &&& !upright(roll, pitch) ==> after.mode is EmergencyStop
        }),
{
}

/// An intruder that is seen from an idle, standing, trotting or patrolling robot is
/// pursued at once, unless a tilt comes first; one that is not seen starts no pursuit.
pub proof fn law_seen_intruder_is_pursued(m: Machine, sensors: SensorState, intruder: IntruderState, now: u64)
    requires
        m.mode is Idle || m.mode is StandUp || m.mode is Trot || m.mode is Patrol,
        m.mode is StandUp || m.mode is Trot ==> upright(sensors.roll, sensors.pitch),
    ensures
        after_tick(m, sensors, intruder, now).mode is Pursue <==> intruder.detected,
        intruder.detected ==> commanded(m, sensors, intruder, now) == pursuit(intruder),
{
}

/// An arrest begins only out of a pursuit, where the intruder is seen close by and
/// stopped; the robot then stops too and the siren sounds.
pub proof fn law_arrest_needs_a_cornered_intruder(
    m: Machine,
    sensors: SensorState,
    intruder: IntruderState,
    now: u64,
)
    requires
        !(m.mode is Apprehend),
    ensures
        after_tick(m, sensors, intruder, now).mode is Apprehend <==> m.mode is Pursue && intruder.detected && cornered(
            intruder,
        ),
        after_tick(m, sensors, intruder, now).mode is Apprehend ==> {
            &&& commanded(m, sensors, intruder, now) == no_motion()
            &&& after_tick(m, sensors, intruder, now).siren_on
        },
{
}

/// For its first three seconds an arrest of an intruder in sight goes on, however the
/// intruder seems to move; after them it ends exactly where the intruder moves.
pub proof fn law_arrest_dwells(m: Machine, sensors: SensorState, intruder: IntruderState, now: u64)
    requires
        m.mode is Apprehend,
        intruder.detected,
    ensures
        ({
            let after = after_tick(m, sensors, intruder, now);
            let resumes = since(now, m.entered_at) > DWELL && moving(intruder);
            &&& resumes ==> after.mode is Pursue && !after.siren_on
            &&& !resumes ==> after.mode is Apprehend && after.siren_on
        }),
{
}

/// During an arrest the robot holds its position; it only turns, and only toward an
/// intruder in sight.
pub proof fn law_arrest_holds_position(m: Machine, sensors: SensorState, intruder: IntruderState, now: u64)
    requires
        m.mode is Apprehend,
        after_tick(m, sensors, intruder, now).mode is Apprehend,
    ensures
        commanded(m, sensors, intruder, now).linear == no_motion().linear,
        !intruder.detected ==> commanded(m, sensors, intruder, now) == no_motion(),
{
}

/// A pursuit or an arrest whose intruder has been out of sight for too long becomes a
/// patrol from its first waypoint; before that it goes on.
pub proof fn law_lost_intruder_ends_the_chase(m: Machine, sensors: SensorState, intruder: IntruderState, now: u64)
    requires
        m.mode is Pursue || m.mode is Apprehend,
        !intruder.detected,
    ensures
        lost(intruder) ==> after_tick(m, sensors, intruder, now).mode == (Mode::Patrol { waypoint_index: 0 }),
        !lost(intruder) ==> after_tick(m, sensors, intruder, now).mode == m.mode,
{
}

/// While nothing is seen, a patrol goes from waypoint to waypoint in a circle, leaving
/// each exactly once its time is over.
pub proof fn law_patrol_goes_round(
    m: Machine,
    sensors: SensorState,
    intruder: IntruderState,
    now: u64,
    waypoint: nat,
)
    requires
        m.wf(),
        m.mode == (Mode::Patrol { waypoint_index: waypoint }),
        !intruder.detected,
    ensures
        ({
            let after = after_tick(m, sensors, intruder, now);
            let over = since(now, m.entered_at) > m.waypoints[waypoint as int].duration;
            let next: nat = if waypoint + 1 == m.waypoints.len() { 0 } else { waypoint + 1 };
            &&& over ==> after.mode == (Mode::Patrol { waypoint_index: next })
            &&& !over ==> after.mode == m.mode
        }),
{
    if waypoint + 1 == m.waypoints.len() {
        vstd::arithmetic::div_mod::lemma_mod_self_0(m.waypoints.len() as int);
    } else {
        vstd::arithmetic::div_mod::lemma_small_mod(waypoint + 1, m.waypoints.len());
    }
}

/// Manual driving passes the manual velocity through, and neither a sighting nor time
/// ends it.
pub proof fn law_manual_driving_passes_through(
    m: Machine,
    manual: Twist,
    sensors: SensorState,
    intruder: IntruderState,
    now: u64,
)
    requires
        m.mode is Manual,
    ensures
        commanded(Machine { manual, ..m }, sensors, intruder, now) == manual,
        after_tick(m, sensors, intruder, now).mode is Manual,
{
}

/// Unless driven by hand, the robot is only ever told to drive forward or back and to
/// turn.
pub proof fn law_motion_is_planar(m: Machine, sensors: SensorState, intruder: IntruderState, now: u64)
    requires
        consistent(m),
        !(m.mode is Manual),
    ensures
        ({
            let t = commanded(m, sensors, intruder, now);
            t == planar(t.linear.x, t.angular.z)
        }),
{
}

/// The double nearest to a decimal that is a whole number.
pub(crate) proof fn lemma_whole_decimal(bits: u64, k: nat)
    requires
        is_decimal(bits, k, 1),
    ensures
        from_whole(k) == (Binary64 { bits }),
{
    lemma_nearest_is(k * one_in_units(), 1, bits as nat);
}

/// A detection counts for one second after the intruder was last seen, to the
/// nanosecond.
pub proof fn law_detection_goes_stale(intruder: IntruderState, now: u64)
    ensures
        aged(intruder, now).detected <==> intruder.detected && since(now, intruder.last_seen) <= NANOS_PER_SECOND,
{
    law_behavior_decimals();
    lemma_whole_decimal(STALE_SECS, 1);
    law_seconds_keep_order(since(now, intruder.last_seen), 1);
}

/// An intruder that is reported right now counts as detected and not as lost.
pub proof fn law_fresh_detection_counts(intruder: IntruderState, now: u64)
    ensures
        ({
            let fresh = IntruderState { detected: true, last_seen: now, time_since_lost: zero(), ..intruder };
            aged(fresh, now).detected && !lost(aged(fresh, now))
        }),
{
    let fresh = IntruderState { detected: true, last_seen: now, time_since_lost: zero(), ..intruder };
    law_detection_goes_stale(fresh, now);
    law_intruder_is_lost_after_five_seconds(fresh, now);
}

/// An intruder counts as lost once it was last seen more than five seconds ago, to the
/// nanosecond.
pub proof fn law_intruder_is_lost_after_five_seconds(intruder: IntruderState, now: u64)
    ensures
        lost(aged(intruder, now)) <==> since(now, intruder.last_seen) > 5 * NANOS_PER_SECOND,
{
    law_behavior_decimals();
    lemma_whole_decimal(LOST_TIMEOUT_SECS, 5);
    law_seconds_keep_order(since(now, intruder.last_seen), 5);
}

/// 0.375, which lies below every share of the speed that a pursuit keeps.
pub(crate) const SMALLEST_FACTOR: u64 = 0x3FD8_0000_0000_0000;

/// Even the largest slowdown leaves more than 0.375 of the speed.
proof fn lemma_slowest_factor()
    ensures
        at_most(
            Binary64 { bits: SMALLEST_FACTOR },
            sum(Binary64 { bits: UNITY }, opposite(Binary64 { bits: BEARING_SLOWDOWN })),
        ),
{
    let one = Binary64 { bits: UNITY };
    let cost = opposite(Binary64 { bits: BEARING_SLOWDOWN });
    let low = Binary64 { bits: SMALLEST_FACTOR };
    lemma_opposite(Binary64 { bits: BEARING_SLOWDOWN });
    lemma2_to64();
    lemma_size_over(1022, 0x10_0000_0000_0000, 1020, 4, 0x40_0000_0000_0000);
    lemma_size_over(1021, 0x13_3333_3333_3333, 1020, 2, 0x26_6666_6666_6666);
    lemma_size_over(1020, 0x18_0000_0000_0000, 1020, 1, 0x18_0000_0000_0000);
    lemma_pow2_pos(1020);
    assert(low.units() <= one.units() + cost.units());
    lemma_sum(one, cost);
    lemma_rank_keeps_order(low.units(), one.units() + cost.units());
    lemma_rank_of_double(low);
}

/// That share of the highest speed is still no less than the lowest one.
proof fn lemma_slowest_speed()
    ensures
        PURSUIT_MIN_SPEED <= product(
            Binary64 { bits: PURSUIT_MAX_SPEED },
            Binary64 { bits: SMALLEST_FACTOR },
        ).magnitude(),
{
    let fastest = Binary64 { bits: PURSUIT_MAX_SPEED };
    let low = Binary64 { bits: SMALLEST_FACTOR };
    let x = size(PURSUIT_MIN_SPEED as nat);
    let one = one_in_units();
    lemma2_to64();
    lemma2_to64_rest();
    lemma_size_of(1019, 0x13_3333_3333_3333);
    lemma_size_of(1020, 0x18_0000_0000_0000);
    lemma_size_of(1017, 0x19_9999_9999_999A);
    lemma_pow2_adds(1019, 1020);
    lemma_pow2_adds(1017, 1074);
    lemma_pow2_adds(52, 2039);
    lemma_pow2_pos(2039);
    lemma_pow2_pos(1074);
    let e = pow2(2039);
    assert(x * one == 0x19_9999_9999_999A * (0x10_0000_0000_0000 * e)) by (nonlinear_arith)
        requires
            x == 0x19_9999_9999_999A * pow2(1017),
            pow2(1017) * one == 0x10_0000_0000_0000 * e,
    ;
    let m = size(fastest.magnitude()) * size(low.magnitude());
    assert(m == (0x13_3333_3333_3333 * 0x18_0000_0000_0000) * e) by (nonlinear_arith)
        requires
            m == (0x13_3333_3333_3333 * pow2(1019)) * (0x18_0000_0000_0000 * pow2(1020)),
            pow2(1019) * pow2(1020) == e,
    ;
    assert(x * one <= m) by (nonlinear_arith)
        requires
            x * one == 0x19_9999_9999_999A * (0x10_0000_0000_0000 * e),
            m == (0x13_3333_3333_3333 * 0x18_0000_0000_0000) * e,
    ;
    lemma_product_at_least(fastest, low, PURSUIT_MIN_SPEED as nat);
}

/// The share of the speed that is kept lies between 0.375 and 1.
pub(crate) proof fn lemma_factor(bearing: Binary64)
    requires
        !less(Binary64 { bits: TURN_IN_PLACE_BEARING }, absolute(bearing)),
        !bearing.is_nan_spec(),
    ensures
        within(bearing_factor(bearing), Binary64 { bits: SMALLEST_FACTOR }, Binary64 { bits: UNITY }),
{
    let one = Binary64 { bits: UNITY };
    let limit = Binary64 { bits: TURN_IN_PLACE_BEARING };
    let slowdown = Binary64 { bits: BEARING_SLOWDOWN };
    let ratio = quotient(absolute(bearing), limit);
    lemma_signed(false, bearing.magnitude());
    lemma_quotient(absolute(bearing), limit);
    lemma_quotient_grows(absolute(bearing), limit, limit);
    lemma_quotient_of_itself(limit);
    let off_centre = least(ratio, one);
    assert(off_centre.magnitude() <= UNITY && !off_centre.negative());
    let cost = product(off_centre, slowdown);
    lemma_product(off_centre, slowdown);
    lemma_product_grows(off_centre, one, slowdown);
    lemma_product_with_one(slowdown);
    lemma_opposite(cost);
    lemma_opposite(slowdown);
    lemma_sum_grows(opposite(slowdown), opposite(cost), one);
    lemma_sum_grows(opposite(cost), zero(), one);
    lemma_sum_with_zero(one, zero());
    lemma_slowest_factor();
}

/// A negative number stays negative when it is divided and multiplied by positive ones.
pub(crate) proof fn lemma_backward_is_negative(a: Binary64, b: Binary64, c: Binary64, d: Binary64)
    requires
        !a.is_nan_spec(),
        a.negative(),
        at_most(Binary64 { bits: SMALLEST_FACTOR }, b) && b.finite(),
        at_most(Binary64 { bits: PURSUIT_MIN_SPEED }, c) && c.finite(),
        at_most(Binary64 { bits: SMALLEST_FACTOR }, d) && d.finite(),
    ensures
        product(product(quotient(a, b), c), d).negative(),
        !product(product(quotient(a, b), c), d).is_nan_spec(),
{
    let q = quotient(a, b);
    if a.finite() {
        lemma_quotient(a, b);
    } else {
        lemma_signed(true, INFINITY as nat);
    }
    let p = product(q, c);
    lemma_signed(true, INFINITY as nat);
    if q.finite() {
        lemma_product(q, c);
    }
    if p.finite() {
        lemma_product(p, d);
    }
}

/// A pursuit turns in place, at 0.25 rad/s and toward the intruder, where the bearing is
/// large.  Else it drives at 0.05 to 0.15 m/s, turning at no more than 0.3 rad/s.
pub proof fn law_pursuit_is_gentle(intruder: IntruderState)
    requires
        !intruder.bearing.is_nan_spec(),
    ensures
        less(Binary64 { bits: TURN_IN_PLACE_BEARING }, absolute(intruder.bearing)) ==> pursuit(intruder) == planar(
            zero(),
            signed(intruder.bearing.negative(), TURN_IN_PLACE_RATE as nat),
        ),
        !less(Binary64 { bits: TURN_IN_PLACE_BEARING }, absolute(intruder.bearing)) ==> {
            let t = pursuit(intruder);
            &&& within(t.linear.x, Binary64 { bits: PURSUIT_MIN_SPEED }, Binary64 { bits: PURSUIT_MAX_SPEED })
            &&& within(
                t.angular.z,
                opposite(Binary64 { bits: PURSUIT_STEERING_LIMIT }),
                Binary64 { bits: PURSUIT_STEERING_LIMIT },
            )
        },
{
    let one = Binary64 { bits: UNITY };
    let bearing = intruder.bearing;
    if less(Binary64 { bits: TURN_IN_PLACE_BEARING }, absolute(bearing)) {
        let rate = Binary64 { bits: TURN_IN_PLACE_RATE };
        lemma_product_with_one(rate);
        lemma_product(one, rate);
        lemma_product(sign_of(bearing), rate);
        lemma_signed(bearing.negative(), ONE as nat);
        lemma_signed(bearing.negative(), TURN_IN_PLACE_RATE as nat);
        lemma_from_parts(product(sign_of(bearing), rate));
    } else {
        let factor = bearing_factor(bearing);
        let slow = Binary64 { bits: PURSUIT_SLOW_DISTANCE };
        let fastest = Binary64 { bits: PURSUIT_MAX_SPEED };
        let low = Binary64 { bits: SMALLEST_FACTOR };
        let distance = intruder.distance;
        lemma_signed(false, bearing.magnitude());
        lemma_factor(bearing);
        lemma_product(fastest, factor);
        lemma_product_grows(low, factor, fastest);
        lemma_product_grows(factor, one, fastest);
        lemma_product_with_one(fastest);
        lemma_slowest_speed();
        if !less(slow, distance) && !distance.is_nan_spec() && !distance.negative() {
            let ratio = quotient(distance, slow);
            lemma_quotient(distance, slow);
            lemma_quotient_grows(distance, slow, slow);
            lemma_quotient_of_itself(slow);
            let speed = product(ratio, fastest);
            lemma_product(ratio, fastest);
            lemma_product_grows(ratio, one, fastest);
            lemma_product(speed, factor);
            lemma_product_grows(factor, one, speed);
            lemma_product_with_one(speed);
        } else if !less(slow, distance) && !distance.is_nan_spec() {
            lemma_backward_is_negative(distance, slow, fastest, factor);
        }
        let gain = Binary64 { bits: PURSUIT_STEERING_GAIN };
        lemma_product(bearing, gain);
        lemma_opposite(Binary64 { bits: PURSUIT_STEERING_LIMIT });
    }
}

/// Unless driven by hand, the robot never drives backward, nor faster than at 0.3 m/s.
pub proof fn law_speed_is_limited(m: Machine, sensors: SensorState, intruder: IntruderState, now: u64)
    requires
        consistent(m),
        !(m.mode is Manual),
        !intruder.bearing.is_nan_spec(),
    ensures
        within(commanded(m, sensors, intruder, now).linear.x, zero(), Binary64 { bits: TROT_SPEED }),
{
    law_pursuit_is_gentle(intruder);
}

/// The machine's limits in nanoseconds are those in seconds: five of them for settling,
/// three for a stop or an arrest, and three and two for the legs of a patrol.
pub proof fn law_limits_are_seconds(from: u64, now: u64)
    ensures
        ({
            let t = since(now, from);
            &&& t < SETTLING <==> less(seconds(t), from_whole(5))
            &&& t > DWELL <==> less(from_whole(3), seconds(t))
            &&& t > default_waypoints()[0].duration <==> less(from_whole(3), seconds(t))
            &&& t > default_waypoints()[1].duration <==> less(from_whole(2), seconds(t))
            &&& t > default_waypoints()[2].duration <==> less(from_whole(3), seconds(t))
            &&& t > default_waypoints()[3].duration <==> less(from_whole(2), seconds(t))
        }),
{
    let t = since(now, from);
    law_seconds_keep_order(t, 5);
    law_seconds_keep_order(t, 3);
    law_seconds_keep_order(t, 2);
}

} // verus!
