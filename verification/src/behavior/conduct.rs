//! What the robot is told, mode by mode.

use vstd::prelude::*;
use crate::behavior::laws::{lemma_whole_decimal, lemma_words_differ};
use crate::behavior::machine::{after_command, after_tick, commanded, initial, Machine};
use crate::behavior::pursuit::pursuit;
use crate::behavior::{
    aged, cornered, label_of, leaning, leans_beyond, lost, moving, upright, IntruderState, Mode, SensorState,
    APPREHEND_DISTANCE, HOLD_BEARING, INTRUDER_STOPPED_THRESHOLD, LOST_TIMEOUT_SECS, PATROL_YAW_GAIN, TILT_LIMIT,
};
use crate::binary64::arithmetic::{opposite, product};
use crate::binary64::convert::{from_whole, one_in_units};
use crate::binary64::facts::{
    lemma_nearest_keeps, lemma_nearest_keeps_order, lemma_product, lemma_product_commutes, lemma_signed,
    lemma_size_over, lemma_units_order, lemma_whole_is_exact,
};
use crate::binary64::model::{
    exponent, lemma_parts, lemma_size_of, lemma_size_order, significand, size, Binary64, BINADE, INFINITY,
};
use crate::binary64::nearness::{close, grain, lemma_grain};
use crate::binary64::order::{absolute, less};
use crate::clock::{seconds, since};
use crate::decimals::{is_decimal, law_behavior_decimals, lemma_decimal_value, lemma_times_decimal};
use crate::geometry::{rests, zero, Twist};
use crate::text::trimmed;

verus! {

/// Whether a command drives forward at a speed that is a decimal and does not turn.
pub open spec fn drives_straight(t: Twist, num: nat, den: nat) -> bool {
    &&& is_decimal(t.linear.x.bits, num, den)
    &&& rests(Twist { linear: crate::geometry::Vector3 { x: zero(), ..t.linear }, ..t })
}

/// Whether a command only turns.
pub open spec fn only_turns(t: Twist) -> bool {
    rests(Twist { angular: crate::geometry::Vector3 { z: zero(), ..t.angular }, ..t })
}

/// An idle robot that sees no intruder holds still and stays idle, however long it has been
/// idle and however it lies.
pub proof fn law_idle_robot_holds_still(m: Machine, sensors: SensorState, intruder: IntruderState, now: u64)
    requires
        m.mode is Idle,
        !intruder.detected,
    ensures
        rests(commanded(m, sensors, intruder, now)),
        after_tick(m, sensors, intruder, now) == (Machine { siren_on: false, ..m }),
{
}

/// A robot that stands up does not move by itself, and only an intruder makes it.
pub proof fn law_standing_up_holds_still(m: Machine, sensors: SensorState, intruder: IntruderState, now: u64)
    requires
        m.mode is StandUp,
        !intruder.detected || !upright(sensors.roll, sensors.pitch),
    ensures
        rests(commanded(m, sensors, intruder, now)),
{
}

/// An upright robot that trots and sees no intruder keeps its velocity and goes on; nothing
/// else changes.
pub proof fn law_trot_goes_on(m: Machine, sensors: SensorState, intruder: IntruderState, now: u64)
    requires
        m.mode is Trot,
        upright(sensors.roll, sensors.pitch),
        !intruder.detected,
    ensures
        commanded(m, sensors, intruder, now) == m.trot,
        after_tick(m, sensors, intruder, now) == m,
{
}

/// A machine starts idle and silent, at rest when driven by hand, with a trot straight ahead
/// at 0.3 m/s and a patrol of four legs of 3, 2, 3 and 2 seconds.  Their yaws are none, a
/// quarter turn, a half turn and a quarter turn back.
pub proof fn law_start(now: u64)
    ensures
        ({
            let m = initial(now);
            let quarter = m.waypoints[1].yaw.units();
            &&& m.mode is Idle && !m.siren_on && m.entered_at == now
            &&& rests(m.manual)
            &&& drives_straight(m.trot, 3, 10)
            &&& m.waypoints.len() == 4
            &&& m.waypoints[0].duration == 3_000_000_000 && m.waypoints[1].duration == 2_000_000_000
            &&& m.waypoints[2].duration == 3_000_000_000 && m.waypoints[3].duration == 2_000_000_000
            &&& m.waypoints[0].yaw.bits == 0
            &&& 1570796 * one_in_units() <= 1000000 * quarter <= 1570797 * one_in_units()
            &&& m.waypoints[2].yaw.units() == 2 * quarter
            &&& m.waypoints[3].yaw == opposite(m.waypoints[1].yaw)
        }),
{
    let e = grain();
    law_behavior_decimals();
    lemma_grain();
    vstd::arithmetic::power2::lemma2_to64();
    lemma_size_over(1022, 0x19_21FB_5444_2D18, 1021, 2, 0x32_43F6_A888_5A30);
    lemma_size_over(1023, 0x19_21FB_5444_2D18, 1021, 4, 0x64_87ED_5110_B460);
    assert(2 * (0x32_43F6_A888_5A30 * e) == 0x64_87ED_5110_B460 * e) by (nonlinear_arith);
    assert(1570796 * (0x20_0000_0000_0000 * e) <= 1000000 * (0x32_43F6_A888_5A30 * e) && 1000000 * (0x32_43F6_A888_5A30 * e)
        <= 1570797 * (0x20_0000_0000_0000 * e)) by (nonlinear_arith)
        requires
            e > 0,
    ;
}

/// A patrol that sees no intruder drives at 0.2 m/s and turns at 0.3 of its waypoint's yaw,
/// whatever the time and the sensors; it starts the time of a waypoint when it reaches it.
pub proof fn law_patrol_drives(
    m: Machine,
    sensors: SensorState,
    intruder: IntruderState,
    now: u64,
    waypoint: nat,
)
    requires
        m.wf(),
        m.mode == (Mode::Patrol { waypoint_index: waypoint }),
        !intruder.detected,
        m.waypoints[waypoint as int].yaw.finite(),
        close(m.waypoints[waypoint as int].yaw.units(), 0, 8 * one_in_units() as int),
    ensures
        ({
            let t = commanded(m, sensors, intruder, now);
            let yaw = m.waypoints[waypoint as int].yaw;
            let after = after_tick(m, sensors, intruder, now);
            &&& is_decimal(t.linear.x.bits, 2, 10)
            &&& t.angular.z.negative() == yaw.negative()
            &&& close(10 * t.angular.z.units(), 3 * yaw.units(), 400 * grain() as int)
            &&& t.linear.y.bits == 0 && t.linear.z.bits == 0 && t.angular.x.bits == 0 && t.angular.y.bits == 0
            &&& after.siren_on == m.siren_on
            &&& after.entered_at == if since(now, m.entered_at) > m.waypoints[waypoint as int].duration {
                now
            } else {
                m.entered_at
            }
        }),
{
    law_behavior_decimals();
    lemma_times_decimal(m.waypoints[waypoint as int].yaw, PATROL_YAW_GAIN, 3, 10, 8);
    let g = grain();
    assert(((10 + 1) * (8 * (3 + 1) + 1)) * g <= 400 * g) by (nonlinear_arith);
}

/// A pursuit that has lost sight of the intruder drives straight on at 0.1 m/s for as long as
/// the intruder does not count as lost, and then turns on the spot at 0.3 rad/s to search.
pub proof fn law_pursuit_out_of_sight(m: Machine, sensors: SensorState, intruder: IntruderState, now: u64)
    requires
        m.mode is Pursue,
        !intruder.detected,
    ensures
        ({
            let t = commanded(m, sensors, intruder, now);
            let after = after_tick(m, sensors, intruder, now);
            &&& !lost(intruder) ==> drives_straight(t, 1, 10) && after == m
            &&& lost(intruder) ==> {
                &&& only_turns(t) && is_decimal(t.angular.z.bits, 3, 10)
                &&& after == (Machine { mode: Mode::Patrol { waypoint_index: 0 }, entered_at: now, ..m })
            }
        }),
{
    law_behavior_decimals();
}

/// A pursuit of an intruder in sight steers toward it until it is cornered, and then stops
/// and sounds the siren.
pub proof fn law_pursuit_in_sight(m: Machine, sensors: SensorState, intruder: IntruderState, now: u64)
    requires
        m.mode is Pursue,
        intruder.detected,
    ensures
        ({
            let t = commanded(m, sensors, intruder, now);
            let after = after_tick(m, sensors, intruder, now);
            &&& !cornered(intruder) ==> t == pursuit(intruder) && after == m
            &&& cornered(intruder) ==> {
                &&& rests(t)
                &&& after == (Machine { mode: Mode::Apprehend, entered_at: now, siren_on: true, ..m })
            }
        }),
{
}

/// An intruder that is seen by an idle, standing, trotting or patrolling robot is pursued at
/// that very tick, in the same way from each of these modes; nothing but mode and time
/// changes, save that an idle robot's siren is silent.
pub proof fn law_pursuit_begins(m: Machine, sensors: SensorState, intruder: IntruderState, now: u64)
    requires
        m.mode is Idle || m.mode is StandUp || m.mode is Trot || m.mode is Patrol,
        m.mode is StandUp || m.mode is Trot ==> upright(sensors.roll, sensors.pitch),
        intruder.detected,
    ensures
        commanded(m, sensors, intruder, now) == pursuit(intruder),
        after_tick(m, sensors, intruder, now) == (Machine {
            mode: Mode::Pursue,
            entered_at: now,
            siren_on: m.siren_on && !(m.mode is Idle),
            ..m
        }),
{
}

/// During an arrest the robot turns toward an intruder in sight that is more than 0.1 rad off
/// its front, at half the bearing, and holds still else; it never drives.
pub proof fn law_arrest_faces_the_intruder(m: Machine, sensors: SensorState, intruder: IntruderState, now: u64)
    requires
        m.mode is Apprehend,
        intruder.bearing.finite(),
        !(intruder.detected && moving(intruder) && since(now, m.entered_at) > 3_000_000_000),
    ensures
        ({
            let t = commanded(m, sensors, intruder, now);
            let b = intruder.bearing.units();
            let off = 10 * b > one_in_units() + 2 * grain() || 10 * b < -(one_in_units() + 2 * grain());
            let ahead = close(10 * b, 0, one_in_units() - 2 * grain());
            &&& only_turns(t)
            &&& !intruder.detected || ahead ==> rests(t)
            &&& intruder.detected && off ==> {
                &&& t.angular.z.negative() == intruder.bearing.negative()
                &&& close(2 * t.angular.z.units(), b, 1)
            }
        }),
{
    let limit = Binary64 { bits: HOLD_BEARING };
    lemma_grain();
    law_behavior_decimals();
    lemma_decimal_value(HOLD_BEARING, 1, 10);
    lemma_absolute_order(intruder.bearing, limit);
    lemma_halved(intruder.bearing);
}

/// An arrest that goes on keeps its time and sounds the siren; one that ends starts anew in
/// silence: as a pursuit where the intruder moves again after more than three seconds, as a
/// patrol where it is lost.
pub proof fn law_arrest_ends(m: Machine, sensors: SensorState, intruder: IntruderState, now: u64)
    requires
        m.mode is Apprehend,
    ensures
        ({
            let t = commanded(m, sensors, intruder, now);
            let after = after_tick(m, sensors, intruder, now);
            let moves = intruder.detected && moving(intruder) && since(now, m.entered_at) > 3_000_000_000;
            let gone = !intruder.detected && lost(intruder);
            &&& moves ==> {
                &&& t == pursuit(intruder)
                &&& after == (Machine { mode: Mode::Pursue, entered_at: now, siren_on: false, ..m })
            }
            &&& gone ==> {
                &&& rests(t)
                &&& after == (Machine {
                    mode: Mode::Patrol { waypoint_index: 0 },
                    entered_at: now,
                    siren_on: false,
                    ..m
                })
            }
            &&& !moves && !gone ==> after == (Machine { siren_on: true, ..m })
        }),
{
}

/// A stopped robot is told nothing but to hold still; its stop ends in idleness exactly where
/// it is upright and more than three seconds have passed.
pub proof fn law_stop_ends(m: Machine, sensors: SensorState, intruder: IntruderState, now: u64)
    requires
        m.mode is EmergencyStop,
    ensures
        rests(commanded(m, sensors, intruder, now)),
        after_tick(m, sensors, intruder, now) == if upright(sensors.roll, sensors.pitch) && since(now, m.entered_at)
            > 3_000_000_000 {
            Machine { mode: Mode::Idle, entered_at: now, siren_on: false, ..m }
        } else {
            Machine { siren_on: false, ..m }
        },
{
}

/// A robot that is driven by hand does what it is told, in silence, and nothing ends that but
/// a command.
pub proof fn law_driving_by_hand(m: Machine, sensors: SensorState, intruder: IntruderState, now: u64)
    requires
        m.mode is Manual,
    ensures
        commanded(m, sensors, intruder, now) == m.manual,
        after_tick(m, sensors, intruder, now) == (Machine { siren_on: false, ..m }),
{
}

/// A robot that tilts while it stands up or trots is stopped at once, and one that stands up
/// stably trots; nothing else about the machine changes.
pub proof fn law_standing_up_ends(m: Machine, sensors: SensorState, intruder: IntruderState, now: u64)
    requires
        m.mode is StandUp || m.mode is Trot,
    ensures
        ({
            let after = after_tick(m, sensors, intruder, now);
            let tilted = !upright(sensors.roll, sensors.pitch);
            &&& tilted ==> {
                &&& rests(commanded(m, sensors, intruder, now))
                &&& after == (Machine {
                    mode: Mode::EmergencyStop { reason: "tilt"@ },
                    entered_at: now,
                    siren_on: false,
                    ..m
                })
            }
            &&& !tilted && !intruder.detected && m.mode is StandUp ==> after == if sensors.is_stable {
                Machine { mode: Mode::Trot, entered_at: now, ..m }
            } else {
                m
            }
        }),
{
}

/// Only how long a mode has lasted matters, not when it began: moved in time, the machine
/// does the same.
pub proof fn law_time_is_relative(
    m: Machine,
    sensors: SensorState,
    intruder: IntruderState,
    now: u64,
    later: u64,
    entered_later: u64,
)
    requires
        since(later, entered_later) == since(now, m.entered_at),
    ensures
        ({
            let moved = Machine { entered_at: entered_later, ..m };
            &&& commanded(moved, sensors, intruder, later) == commanded(m, sensors, intruder, now)
            &&& after_tick(moved, sensors, intruder, later).mode == after_tick(m, sensors, intruder, now).mode
            &&& after_tick(moved, sensors, intruder, later).siren_on == after_tick(m, sensors, intruder, now).siren_on
        }),
{
}

/// Of the sensors only tilt and stability matter to the machine, and of the intruder nothing
/// that is measured where none is detected, but for how long it has been lost.
pub proof fn law_what_matters(
    m: Machine,
    sensors: SensorState,
    other_sensors: SensorState,
    intruder: IntruderState,
    other: IntruderState,
    now: u64,
)
    requires
        upright(sensors.roll, sensors.pitch) == upright(other_sensors.roll, other_sensors.pitch),
        sensors.is_stable == other_sensors.is_stable,
        !intruder.detected && !other.detected && intruder.time_since_lost == other.time_since_lost || intruder.detected
            && other.detected && intruder.distance == other.distance && intruder.bearing == other.bearing
            && intruder.velocity == other.velocity,
    ensures
        commanded(m, sensors, intruder, now) == commanded(m, other_sensors, other, now),
        after_tick(m, sensors, intruder, now) == after_tick(m, other_sensors, other, now),
{
}

/// The words of the operator: each of them but "clear" works from every mode, silences the
/// siren, starts the time of the new mode and changes nothing else.
pub proof fn law_words(m: Machine, now: u64)
    ensures
        ({
            let quiet = Machine { entered_at: now, siren_on: false, ..m };
            &&& forall|cmd: Seq<char>| #[trigger] trimmed(cmd) == "stand"@ ==> after_command(m, cmd, now) == (Machine {
                mode: Mode::StandUp,
                ..quiet
            })
            &&& forall|cmd: Seq<char>| #[trigger] trimmed(cmd) == "trot"@ ==> after_command(m, cmd, now) == (Machine {
                mode: Mode::Trot,
                ..quiet
            })
            &&& forall|cmd: Seq<char>| #[trigger] trimmed(cmd) == "patrol"@ ==> after_command(m, cmd, now) == (Machine {
                mode: Mode::Patrol { waypoint_index: 0 },
                ..quiet
            })
            &&& forall|cmd: Seq<char>| #[trigger] trimmed(cmd) == "manual"@ ==> after_command(m, cmd, now) == (Machine {
                mode: Mode::Manual,
                ..quiet
            })
            &&& forall|cmd: Seq<char>| #[trigger] trimmed(cmd) == "idle"@ ==> after_command(m, cmd, now) == (Machine {
                mode: Mode::Idle,
                ..quiet
            })
            &&& forall|cmd: Seq<char>| #[trigger] trimmed(cmd) == "estop"@ ==> after_command(m, cmd, now) == (Machine {
                mode: Mode::EmergencyStop { reason: "operator command"@ },
                ..quiet
            })
            &&& forall|cmd: Seq<char>| #[trigger] trimmed(cmd) == "clear"@ && m.mode is EmergencyStop ==> after_command(
                m,
                cmd,
                now,
            ) == (Machine { mode: Mode::Idle, ..quiet })
            &&& forall|cmd: Seq<char>| #[trigger] trimmed(cmd) == "clear"@ && m.mode is Apprehend ==> after_command(
                m,
                cmd,
                now,
            ) == (Machine { mode: Mode::Patrol { waypoint_index: 0 }, ..quiet })
        }),
{
    lemma_words_differ();
    crate::teleop::laws::lemma_commands_differ();
}

/// The published names of the modes are their own, and all different.
pub proof fn law_labels(a: Mode, b: Mode)
    ensures
        label_of(Mode::Idle) == "Idle"@ && label_of(Mode::StandUp) == "StandUp"@ && label_of(Mode::Trot) == "Trot"@,
        label_of(Mode::Manual) == "Manual"@ && label_of(Mode::Pursue) == "Pursue"@ && label_of(Mode::Apprehend)
            == "Apprehend"@,
        a is Patrol ==> label_of(a) == "Patrol"@,
        a is EmergencyStop ==> label_of(a) == "EmergencyStop"@,
{
}

/// How the size of a finite number compares with a positive one.
pub(crate) proof fn lemma_absolute_order(a: Binary64, limit: Binary64)
    requires
        a.finite(),
        limit.finite(),
        !limit.negative(),
    ensures
        less(absolute(a), limit) <==> -limit.units() < a.units() < limit.units(),
        less(limit, absolute(a)) <==> a.units() > limit.units() || a.units() < -limit.units(),
{
    lemma_signed(false, a.magnitude());
    lemma_size_order(a.magnitude(), limit.magnitude());
    lemma_size_order(limit.magnitude(), a.magnitude());
}

/// Half of a number, up to one unit.
pub(crate) proof fn lemma_halved(a: Binary64)
    requires
        a.finite(),
    ensures
        ({
            let h = product(a, Binary64 { bits: 0x3FE0_0000_0000_0000 });
            &&& h.finite()
            &&& h.negative() == a.negative()
            &&& close(2 * h.units(), a.units(), 1)
            &&& h == product(Binary64 { bits: 0x3FE0_0000_0000_0000 }, a)
        }),
{
    let half = Binary64 { bits: 0x3FE0_0000_0000_0000 };
    let one = one_in_units();
    let x = size(a.magnitude());
    let g = grain();
    lemma_grain();
    lemma_product_commutes(a, half);
    lemma_product(a, half);
    let h = size(0x3FE0_0000_0000_0000);
    assert(2 * h == one) by (nonlinear_arith)
        requires
            h == 0x10_0000_0000_0000 * g,
            one == 0x20_0000_0000_0000 * g,
    ;
    let p = a.magnitude();
    let q = product(a, half).magnitude();
    lemma_parts(p);
    let s = significand(p);
    let t = exponent(p);
    if t > 0 {
        // the same significand, one power of two less
        lemma_size_of(t, s);
        lemma_size_of((t - 1) as nat, s);
        vstd::arithmetic::power2::lemma_pow2_unfold(t);
        let r = ((t - 1) as nat) * BINADE as nat + s;
        assert(2 * size(r) == x) by (nonlinear_arith)
            requires
                size(r) == s * vstd::arithmetic::power2::pow2((t - 1) as nat),
                x == s * vstd::arithmetic::power2::pow2(t),
                vstd::arithmetic::power2::pow2(t) == 2 * vstd::arithmetic::power2::pow2((t - 1) as nat),
        ;
        assert(x * h == size(r) * one) by (nonlinear_arith)
            requires
                2 * size(r) == x,
                2 * h == one,
        ;
        assert(r <= p) by (nonlinear_arith)
            requires
                r == (t - 1) * BINADE + s,
                p == t * BINADE + s,
        ;
        lemma_nearest_keeps(r, one);
    } else {
        // the smallest numbers count units
        vstd::arithmetic::power2::lemma2_to64();
        lemma_size_of(0, s);
        let low = s / 2;
        let high = low + 1;
        lemma_size_of(0, low);
        lemma_size_of(0, high);
        lemma_nearest_keeps(low, one);
        lemma_nearest_keeps(high, one);
        assert((low * one) * one <= (x * h) * one && (x * h) * one <= (high * one) * one) by (nonlinear_arith)
            requires
                x == s,
                2 * low <= s,
                s <= 2 * high,
                2 * h == one,
                one > 0,
        {
            assert(2 * (x * h) == s * one);
            assert((2 * low) * one <= s * one);
            assert(s * one <= (2 * high) * one);
        }
        lemma_nearest_keeps_order(low * one, one, x * h, one);
        lemma_nearest_keeps_order(x * h, one, high * one, one);
        assert(q == low || q == high);
        if s == 2 * low {
            assert(x * h == low * one) by (nonlinear_arith)
                requires
                    x == 2 * low,
                    2 * h == one,
            ;
        }
    }
}

/// Upright is less than 0.78 rad from the vertical in roll and in pitch, either way; what is
/// no number is not upright.
pub proof fn law_upright(roll: Binary64, pitch: Binary64)
    ensures
        upright(roll, pitch) ==> roll.finite() && pitch.finite(),
        roll.finite() && pitch.finite() ==> {
            let l = (Binary64 { bits: TILT_LIMIT }).units();
            &&& close(100 * l, 78 * one_in_units() as int, 79 * grain() as int)
            &&& upright(roll, pitch) <==> -l < roll.units() < l && -l < pitch.units() < l
        },
{
    let limit = Binary64 { bits: TILT_LIMIT };
    law_behavior_decimals();
    lemma_decimal_value(TILT_LIMIT, 78, 100);
    if roll.finite() {
        lemma_absolute_order(roll, limit);
    }
    if pitch.finite() {
        lemma_absolute_order(pitch, limit);
    }
}

/// A reading of roll and pitch is taken in as it is; the robot then counts as stable exactly
/// where it is upright, and its velocity is not touched.
pub proof fn law_reading(s: SensorState, roll: Binary64, pitch: Binary64)
    ensures
        ({
            let after = leaning(s, roll, pitch);
            &&& after.roll == roll && after.pitch == pitch
            &&& after.is_stable == upright(roll, pitch)
            &&& after.lin_vel_x == s.lin_vel_x && after.lin_vel_y == s.lin_vel_y
        }),
{
}

/// Leaning beyond a limit is symmetric, and either angle suffices.
pub proof fn law_leaning(roll: Binary64, pitch: Binary64, limit: u64)
    requires
        roll.finite(),
        pitch.finite(),
        limit < INFINITY,
    ensures
        ({
            let l = (Binary64 { bits: limit }).units();
            leans_beyond(roll, pitch, limit) <==> roll.units() > l || roll.units() < -l || pitch.units() > l
                || pitch.units() < -l
        }),
{
    lemma_absolute_order(roll, Binary64 { bits: limit });
    lemma_absolute_order(pitch, Binary64 { bits: limit });
}

/// An intruder is cornered at less than 3 m and less than 0.5 m/s, moves at more than 0.5 m/s
/// either way, and is lost after more than 5 s.
pub proof fn law_what_the_intruder_does(intruder: IntruderState)
    requires
        intruder.distance.finite(),
        intruder.velocity.finite(),
        intruder.time_since_lost.finite(),
    ensures
        ({
            let one = one_in_units();
            let v = intruder.velocity.units();
            &&& cornered(intruder) <==> intruder.distance.units() < 3 * one && -one < 2 * v && 2 * v < one
            &&& moving(intruder) <==> 2 * v > one || 2 * v < -one
            &&& lost(intruder) <==> intruder.time_since_lost.units() > 5 * one
        }),
{
    law_behavior_decimals();
    lemma_whole_decimal(APPREHEND_DISTANCE, 3);
    lemma_whole_decimal(LOST_TIMEOUT_SECS, 5);
    lemma_whole_is_exact(3);
    lemma_whole_is_exact(5);
    lemma_grain();
    let half = Binary64 { bits: INTRUDER_STOPPED_THRESHOLD };
    assert(2 * half.units() == one_in_units()) by (nonlinear_arith)
        requires
            half.units() == BINADE * grain(),
            one_in_units() == (2 * BINADE) * grain(),
    ;
    lemma_absolute_order(intruder.velocity, half);
    lemma_units_order(intruder.distance, from_whole(3));
    lemma_units_order(from_whole(5), intruder.time_since_lost);
}

/// What is known of an intruder is kept as time goes on, but for the detection and the time
/// since it was seen.
pub proof fn law_knowledge_is_kept(intruder: IntruderState, now: u64)
    ensures
        ({
            let known = aged(intruder, now);
            &&& known.distance == intruder.distance && known.bearing == intruder.bearing
            &&& known.velocity == intruder.velocity && known.last_seen == intruder.last_seen
            &&& known.time_since_lost == seconds(since(now, intruder.last_seen))
        }),
{
}

/// An intruder of which distance or velocity is no number is not cornered, and one of unknown
/// velocity does not move.
pub proof fn law_unknown_intruder(intruder: IntruderState)
    ensures
        intruder.distance.is_nan_spec() || intruder.velocity.is_nan_spec() ==> !cornered(intruder),
        intruder.velocity.is_nan_spec() ==> !moving(intruder),
        intruder.time_since_lost.is_nan_spec() ==> !lost(intruder),
{
}

} // verus!
