use crazydog::behavior::machine::{control_step, BehaviorFsm};
use crazydog::behavior::pursuit::compute_pursuit_twist;
use crazydog::behavior::{BehaviorState, IntruderState, Quaternion, SensorState, TiltLevel};
use crazydog::behavior::{
    APPREHEND_DISTANCE, BEARING_SLOWDOWN, FLIPPED, HALF_PI, HOLD_BEARING, INTRUDER_STOPPED_THRESHOLD, LARGEST,
    LOST_SPEED, LOST_TIMEOUT_SECS, PATROL_SPEED, PATROL_YAW_GAIN, PI, PURSUIT_MAX_SPEED, PURSUIT_MIN_SPEED,
    PURSUIT_SLOW_DISTANCE, PURSUIT_STEERING_GAIN, PURSUIT_STEERING_LIMIT, SEARCH_RATE, STALE_SECS, TILT_LIMIT,
    TILT_WARNING, TROT_SPEED, TURN_IN_PLACE_BEARING, TURN_IN_PLACE_RATE,
};
use crazydog::binary64::model::Binary64;
use crazydog::clock::{as_seconds, elapsed};
use crazydog::geometry::{make_twist, zero_twist, Twist, Vector3};

const SECOND: u64 = 1_000_000_000;
const MILLI: u64 = 1_000_000;

fn double(x: f64) -> Binary64 {
    Binary64::from_bits(x.to_bits())
}

fn native(x: Binary64) -> f64 {
    f64::from_bits(x.bits)
}

fn velocity(t: Twist) -> (f64, f64) {
    for rest in [t.linear.y, t.linear.z, t.angular.x, t.angular.y] {
        assert_eq!(rest.bits, 0);
    }
    (native(t.linear.x), native(t.angular.z))
}

/// An intruder that is seen right now.
fn seen(distance: f64, bearing: f64, speed: f64) -> IntruderState {
    let mut intruder = IntruderState::new(0);
    intruder.observe(Vector3 { x: double(distance), y: double(bearing), z: double(speed) }, 0);
    intruder.set_detected(true, 0);
    intruder
}

/// An intruder that was last seen some seconds ago.
fn gone(seconds: f64) -> IntruderState {
    let mut intruder = seen(2.0, 0.0, 0.0);
    intruder.set_detected(false, 0);
    intruder.time_since_lost = double(seconds);
    intruder
}

fn machine(commands: &[&str]) -> BehaviorFsm {
    let mut fsm = BehaviorFsm::new(0);
    for command in commands {
        fsm.transition(command, 0);
    }
    fsm
}

/// A machine that pursues since time 0.
fn pursuing() -> BehaviorFsm {
    let mut fsm = machine(&[]);
    fsm.tick(&SensorState::default(), &seen(10.0, 0.0, 1.0), 0);
    assert_eq!(*fsm.state(), BehaviorState::Pursue);
    fsm
}

/// A machine that holds an intruder since time 0.
fn arresting() -> BehaviorFsm {
    let mut fsm = pursuing();
    let twist = fsm.tick(&SensorState::default(), &seen(2.0, 0.3, 0.1), 0);
    assert_eq!(velocity(twist), (0.0, 0.0));
    assert_eq!(*fsm.state(), BehaviorState::Apprehend);
    assert!(fsm.siren_on());
    fsm
}

fn expected_pursuit(distance: f64, bearing: f64) -> (f64, f64) {
    let bearing_abs = bearing.abs();
    if bearing_abs > 0.44 {
        return (0.0, bearing.signum() * 0.25);
    }
    let factor = 1.0 - (bearing_abs / 0.44).min(1.0) * 0.6;
    let speed = if distance > 3.0 { 0.15 * factor } else { (distance / 3.0 * 0.15 * factor).max(0.05) };
    (speed, (bearing * 0.5).clamp(-0.3, 0.3))
}

#[test]
fn behavior_parameters_are_the_documented_decimals() {
    for (bits, value) in [
        (TILT_LIMIT, 0.78),
        (TILT_WARNING, 0.52),
        (FLIPPED, 1.57),
        (APPREHEND_DISTANCE, 3.0),
        (INTRUDER_STOPPED_THRESHOLD, 0.5),
        (LOST_TIMEOUT_SECS, 5.0),
        (STALE_SECS, 1.0),
        (PURSUIT_MAX_SPEED, 0.15),
        (PURSUIT_MIN_SPEED, 0.05),
        (PURSUIT_SLOW_DISTANCE, 3.0),
        (PURSUIT_STEERING_GAIN, 0.5),
        (PURSUIT_STEERING_LIMIT, 0.3),
        (TURN_IN_PLACE_BEARING, 0.44),
        (TURN_IN_PLACE_RATE, 0.25),
        (BEARING_SLOWDOWN, 0.6),
        (HOLD_BEARING, 0.1),
        (LOST_SPEED, 0.1),
        (SEARCH_RATE, 0.3),
        (PATROL_SPEED, 0.2),
        (PATROL_YAW_GAIN, 0.3),
        (TROT_SPEED, 0.3),
        (PI, std::f64::consts::PI),
        (HALF_PI, std::f64::consts::PI / 2.0),
        (LARGEST, f64::MAX),
    ] {
        assert_eq!(bits, value.to_bits());
    }
}

#[test]
fn states_have_their_names() {
    let mut fsm = machine(&[]);
    assert_eq!(fsm.state().label(), "Idle");
    for (command, label) in [
        ("stand", "StandUp"),
        ("trot", "Trot"),
        ("patrol", "Patrol"),
        ("estop", "EmergencyStop"),
        ("manual", "Manual"),
        ("idle", "Idle"),
    ] {
        fsm.transition(command, 0);
        assert_eq!(fsm.state().label(), label);
    }
    assert_eq!(pursuing().state().label(), "Pursue");
    assert_eq!(arresting().state().label(), "Apprehend");
}

#[test]
fn commands_lead_to_their_states_from_everywhere() {
    let modes = ["stand", "trot", "patrol", "manual", "idle", "estop"];
    for from in modes {
        for to in modes {
            let fsm = machine(&[from, to]);
            let expected = match to {
                "stand" => BehaviorState::StandUp,
                "trot" => BehaviorState::Trot,
                "patrol" => BehaviorState::Patrol { waypoint_index: 0 },
                "manual" => BehaviorState::Manual,
                "idle" => BehaviorState::Idle,
                _ => BehaviorState::EmergencyStop { reason: "operator command".to_string() },
            };
            assert_eq!(*fsm.state(), expected);
            assert!(!fsm.siren_on());
        }
    }
}

#[test]
fn white_space_around_a_command_does_not_count() {
    for text in ["  trot", "trot\n", "\t trot \r\n", "\u{3000}trot\u{A0}"] {
        assert_eq!(*machine(&[text]).state(), BehaviorState::Trot);
    }
}

#[test]
fn unknown_commands_are_ignored() {
    for text in ["", "Trot", "tr ot", "stop", "trott", "clear"] {
        assert_eq!(*machine(&["stand", text]).state(), BehaviorState::StandUp);
    }
}

#[test]
fn ignored_command_does_not_restart_the_state() {
    let mut fsm = machine(&["patrol"]);
    fsm.transition("nonsense", 2 * SECOND);
    fsm.tick(&SensorState::default(), &gone(0.0), 3 * SECOND + 1);
    assert_eq!(*fsm.state(), BehaviorState::Patrol { waypoint_index: 1 });
}

#[test]
fn clear_ends_a_stop_and_an_arrest() {
    assert_eq!(*machine(&["estop", "clear"]).state(), BehaviorState::Idle);
    let mut fsm = arresting();
    fsm.transition("clear", SECOND);
    assert_eq!(*fsm.state(), BehaviorState::Patrol { waypoint_index: 0 });
    assert!(!fsm.siren_on());
    for command in ["idle", "stand", "trot", "manual"] {
        let mut fsm = machine(&[command]);
        let before = fsm.state().clone();
        fsm.transition("clear", 0);
        assert_eq!(*fsm.state(), before);
    }
}

#[test]
fn emergency_stop_silences_the_siren_and_stops() {
    let mut fsm = arresting();
    fsm.transition("estop", SECOND);
    assert!(!fsm.siren_on());
    let twist = fsm.tick(&SensorState::default(), &seen(2.0, 0.5, 0.0), SECOND);
    assert_eq!(velocity(twist), (0.0, 0.0));
}

#[test]
fn emergency_stop_ends_upright_after_three_seconds() {
    let mut fsm = machine(&["estop"]);
    let upright = SensorState::default();
    let mut tilted = SensorState::default();
    tilted.set_tilt(double(0.1), double(-0.8));
    for (sensors, now, idle) in [
        (&upright, 3 * SECOND, false),
        (&tilted, 10 * SECOND, false),
        (&upright, 10 * SECOND, true),
    ] {
        assert_eq!(velocity(fsm.tick(sensors, &seen(1.0, 0.0, 0.0), now)), (0.0, 0.0));
        assert_eq!(*fsm.state() == BehaviorState::Idle, idle);
    }
    let mut fsm = machine(&["estop"]);
    fsm.tick(&upright, &gone(0.0), 3 * SECOND + 1);
    assert_eq!(*fsm.state(), BehaviorState::Idle);
}

#[test]
fn resting_states_hold_still() {
    for command in ["idle", "stand"] {
        let mut fsm = machine(&[command]);
        assert_eq!(velocity(fsm.tick(&SensorState::default(), &gone(99.0), SECOND)), (0.0, 0.0));
    }
}

#[test]
fn stable_robot_goes_on_to_trot() {
    let mut fsm = machine(&["stand"]);
    let mut sensors = SensorState::default();
    // no orientation was read yet
    assert_eq!(velocity(fsm.tick(&sensors, &gone(99.0), SECOND)), (0.0, 0.0));
    assert_eq!(*fsm.state(), BehaviorState::StandUp);
    sensors.set_tilt(double(0.1), double(-0.2));
    assert_eq!(velocity(fsm.tick(&sensors, &gone(99.0), 2 * SECOND)), (0.0, 0.0));
    assert_eq!(*fsm.state(), BehaviorState::Trot);
    assert_eq!(fsm.time_in_state(2 * SECOND), 0);
    assert_eq!(velocity(fsm.tick(&sensors, &gone(99.0), 3 * SECOND)), (0.3, 0.0));
    // an intruder comes first
    let mut fsm = machine(&["stand"]);
    fsm.tick(&sensors, &seen(5.0, 0.0, 1.0), SECOND);
    assert_eq!(*fsm.state(), BehaviorState::Pursue);
}

#[test]
fn tilt_stops_a_robot_that_stands_up_or_trots() {
    for command in ["stand", "trot"] {
        for (roll, pitch) in [(0.78, 0.0), (0.0, -0.9), (3.0, 3.0), (f64::NAN, 0.0)] {
            for intruder in [gone(99.0), seen(2.0, 0.3, 0.0)] {
                let mut fsm = machine(&[command]);
                let mut sensors = SensorState::default();
                sensors.set_tilt(double(roll), double(pitch));
                assert_eq!(velocity(fsm.tick(&sensors, &intruder, SECOND)), (0.0, 0.0));
                assert_eq!(*fsm.state(), BehaviorState::EmergencyStop { reason: "tilt".to_string() });
                assert!(!fsm.siren_on());
                // it recovers like any other stop
                sensors.set_tilt(double(0.0), double(0.0));
                fsm.tick(&sensors, &intruder, 4 * SECOND);
                assert_eq!(fsm.state().label(), "EmergencyStop");
                fsm.tick(&sensors, &intruder, 4 * SECOND + 1);
                assert_eq!(*fsm.state(), BehaviorState::Idle);
            }
        }
    }
}

#[test]
fn tilt_alone_stops_nothing_else() {
    let mut sensors = SensorState::default();
    sensors.set_tilt(double(1.0), double(0.0));
    for command in ["idle", "patrol", "manual"] {
        let mut fsm = machine(&[command]);
        let before = fsm.state().clone();
        fsm.tick(&sensors, &gone(99.0), SECOND);
        assert_eq!(*fsm.state(), before);
    }
}

#[test]
fn trot_goes_straight_ahead() {
    let mut fsm = machine(&["trot"]);
    assert_eq!(velocity(fsm.tick(&SensorState::default(), &gone(99.0), SECOND)), (0.3, 0.0));
    assert_eq!(*fsm.state(), BehaviorState::Trot);
}

#[test]
fn patrol_goes_round_its_waypoints() {
    let pi = std::f64::consts::PI;
    let legs = [(0.0, 3.0), (pi / 2.0, 2.0), (pi, 3.0), (-pi / 2.0, 2.0)];
    let mut fsm = machine(&["patrol"]);
    let mut entered = 0u64;
    let mut index = 0usize;
    for tick in 0..1200u64 {
        let now = tick * 20 * MILLI;
        let twist = fsm.tick(&SensorState::default(), &gone(99.0), now);
        let (yaw, duration) = legs[index];
        assert_eq!(velocity(twist), (0.2, yaw * 0.3));
        if std::time::Duration::from_nanos(now - entered).as_secs_f64() > duration {
            index = (index + 1) % 4;
            entered = now;
        }
        assert_eq!(*fsm.state(), BehaviorState::Patrol { waypoint_index: index });
    }
}

#[test]
fn manual_driving_passes_through() {
    let mut fsm = machine(&["manual"]);
    let given = Twist {
        linear: Vector3 { x: double(0.1), y: double(0.2), z: double(0.3) },
        angular: Vector3 { x: double(0.4), y: double(0.5), z: double(0.6) },
    };
    fsm.set_manual_velocity(given);
    assert!(fsm.tick(&SensorState::default(), &seen(1.0, 0.0, 0.0), SECOND) == given);
    assert_eq!(*fsm.state(), BehaviorState::Manual);
}

#[test]
fn seen_intruder_is_pursued_at_once() {
    for command in ["idle", "stand", "trot", "patrol"] {
        let mut fsm = machine(&[command]);
        let twist = fsm.tick(&SensorState::default(), &seen(5.0, 0.2, 0.0), SECOND);
        assert_eq!(velocity(twist), expected_pursuit(5.0, 0.2));
        assert_eq!(*fsm.state(), BehaviorState::Pursue);
        assert!(!fsm.siren_on());
    }
}

#[test]
fn pursuit_steers_toward_the_intruder() {
    for distance in [-1.0, 0.0, 0.4, 1.0, 2.5, 3.0, 3.5, 20.0, f64::INFINITY, f64::NEG_INFINITY, f64::NAN] {
        for bearing in [0.0, -0.0, 0.1, -0.2, 0.44, -0.44, 0.45, -0.7, 3.0, f64::INFINITY] {
            let (speed, steer) = velocity(compute_pursuit_twist(&seen(distance, bearing, 0.0)));
            let (expected_speed, expected_steer) = expected_pursuit(distance, bearing);
            assert_eq!(speed.to_bits(), expected_speed.to_bits());
            assert_eq!(steer.to_bits(), expected_steer.to_bits());
            assert!(speed == 0.0 || (speed >= 0.05 && speed <= 0.15));
            assert!(steer.abs() <= 0.3);
        }
    }
}

#[test]
fn pursuit_of_an_unknown_bearing_is_unknown() {
    let (speed, steer) = velocity(compute_pursuit_twist(&seen(5.0, f64::NAN, 0.0)));
    let (expected_speed, expected_steer) = expected_pursuit(5.0, f64::NAN);
    assert_eq!(speed, expected_speed);
    assert!(steer.is_nan() && expected_steer.is_nan());
}

#[test]
fn pursuit_follows_while_the_intruder_moves() {
    for intruder in [seen(2.0, 0.1, 0.5), seen(3.0, 0.1, 0.0), seen(2.9, 0.1, -0.6)] {
        let mut fsm = pursuing();
        let twist = fsm.tick(&SensorState::default(), &intruder, SECOND);
        assert_eq!(velocity(twist), expected_pursuit(native(intruder.distance), 0.1));
        assert_eq!(*fsm.state(), BehaviorState::Pursue);
    }
}

#[test]
fn pursuit_goes_on_for_five_seconds_out_of_sight() {
    let mut fsm = pursuing();
    assert_eq!(velocity(fsm.tick(&SensorState::default(), &gone(5.0), SECOND)), (0.1, 0.0));
    assert_eq!(*fsm.state(), BehaviorState::Pursue);
    assert_eq!(velocity(fsm.tick(&SensorState::default(), &gone(5.01), SECOND)), (0.0, 0.3));
    assert_eq!(*fsm.state(), BehaviorState::Patrol { waypoint_index: 0 });
}

#[test]
fn cornered_intruder_is_held_with_the_siren_on() {
    let mut fsm = arresting();
    for (bearing, turn) in [(0.3, 0.15), (-0.2, -0.1), (0.1, 0.0), (0.05, 0.0)] {
        assert_eq!(velocity(fsm.tick(&SensorState::default(), &seen(2.0, bearing, 0.0), SECOND)), (0.0, turn));
        assert_eq!(*fsm.state(), BehaviorState::Apprehend);
        assert!(fsm.siren_on());
    }
}

#[test]
fn arrest_lasts_three_seconds_at_least() {
    let mut fsm = arresting();
    fsm.tick(&SensorState::default(), &seen(2.0, 0.0, 0.9), 3 * SECOND);
    assert_eq!(*fsm.state(), BehaviorState::Apprehend);
    fsm.tick(&SensorState::default(), &seen(2.0, 0.0, 0.5), 4 * SECOND);
    assert_eq!(*fsm.state(), BehaviorState::Apprehend);
    let twist = fsm.tick(&SensorState::default(), &seen(2.0, 0.2, -0.9), 4 * SECOND);
    assert_eq!(velocity(twist), expected_pursuit(2.0, 0.2));
    assert_eq!(*fsm.state(), BehaviorState::Pursue);
    assert!(!fsm.siren_on());
}

#[test]
fn arrest_ends_when_the_intruder_is_lost() {
    let mut fsm = arresting();
    assert_eq!(velocity(fsm.tick(&SensorState::default(), &gone(5.0), SECOND)), (0.0, 0.0));
    assert!(fsm.siren_on());
    assert_eq!(velocity(fsm.tick(&SensorState::default(), &gone(6.0), SECOND)), (0.0, 0.0));
    assert_eq!(*fsm.state(), BehaviorState::Patrol { waypoint_index: 0 });
    assert!(!fsm.siren_on());
}

#[test]
fn commands_end_an_arrest_and_its_siren() {
    for command in ["stand", "trot", "patrol", "manual", "idle", "estop"] {
        let mut fsm = arresting();
        fsm.transition(command, SECOND);
        assert!(!fsm.siren_on());
    }
}

#[test]
fn robot_settles_for_five_seconds() {
    let mut fsm = machine(&["trot"]);
    let sensors = SensorState::default();
    let intruder = seen(2.0, 0.0, 0.0);
    let out = control_step(&mut fsm, &sensors, &intruder, 0, 5 * SECOND - 1);
    assert_eq!(velocity(out.twist), (0.0, 0.0));
    assert_eq!(out.report, None);
    assert_eq!(*fsm.state(), BehaviorState::Trot);
    let out = control_step(&mut fsm, &sensors, &intruder, 0, 5 * SECOND);
    assert_eq!(velocity(out.twist), (0.3, 0.0));
    assert_eq!(out.report, Some(("Trot", false)));
}

#[test]
fn control_loop_reports_state_and_siren() {
    let mut fsm = machine(&[]);
    let sensors = SensorState::default();
    let mut intruder = seen(2.0, 0.0, 0.0);
    let at = 10 * SECOND;
    intruder.set_detected(true, at);
    assert_eq!(control_step(&mut fsm, &sensors, &intruder, 0, at).report, Some(("Pursue", false)));
    assert_eq!(control_step(&mut fsm, &sensors, &intruder, 0, at + MILLI).report, Some(("Apprehend", true)));
}

#[test]
fn detection_is_stale_after_a_second() {
    let mut intruder = IntruderState::new(0);
    assert!(!intruder.detected);
    assert_eq!(native(intruder.time_since_lost), f64::MAX);
    intruder.set_detected(true, 7);
    assert!(intruder.snapshot(7 + SECOND).detected);
    assert!(!intruder.snapshot(8 + SECOND).detected);
    assert_eq!(native(intruder.snapshot(7 + SECOND + SECOND / 2).time_since_lost), 1.5);
    // a measurement alone refreshes the time, not the detection
    intruder.observe(Vector3 { x: double(4.0), y: double(0.5), z: double(-1.0) }, 9 * SECOND);
    assert!(intruder.snapshot(9 * SECOND).detected);
    intruder.set_detected(false, 9 * SECOND);
    let later = intruder.snapshot(9 * SECOND);
    assert!(!later.detected);
    assert_eq!((native(later.distance), native(later.bearing), native(later.velocity)), (4.0, 0.5, -1.0));
}

#[test]
fn lost_intruder_is_given_up_after_five_seconds() {
    let sensors = SensorState::default();
    let mut intruder = seen(10.0, 0.0, 1.0);
    intruder.set_detected(true, 10 * SECOND);
    for (now, label) in [
        (10 * SECOND, "Pursue"),
        (11 * SECOND, "Pursue"),
        (15 * SECOND, "Pursue"),
        (15 * SECOND + 1, "Patrol"),
    ] {
        let mut fsm = pursuing();
        assert_eq!(control_step(&mut fsm, &sensors, &intruder, 0, now).report, Some((label, false)));
    }
}

#[test]
fn orientation_is_turned_into_roll_and_pitch() {
    let atan2 = |y: Binary64, x: Binary64| double(native(y).atan2(native(x)));
    let asin = |v: Binary64| double(native(v).asin());
    for (x, y, z, w) in [
        (0.0, 0.0, 0.0, 1.0),
        (0.3, 0.1, -0.2, 0.9),
        (0.7071067811865476, 0.0, 0.0, 0.7071067811865476),
        (0.0, 0.8, 0.0, 0.7),
        (0.0, -0.8, 0.0, 0.7),
        (0.5, 0.5, 0.5, 0.5),
    ] {
        let mut sensors = SensorState::default();
        assert!(!sensors.is_stable);
        let q = Quaternion { x: double(x), y: double(y), z: double(z), w: double(w) };
        sensors.update_orientation(q, atan2, asin);
        let roll = (2.0 * (w * x + y * z) as f64).atan2(1.0 - 2.0 * (x * x + y * y));
        let pitch = (2.0 * (w * y - z * x) as f64).clamp(-1.0, 1.0).asin();
        assert_eq!(native(sensors.roll), roll);
        assert_eq!(native(sensors.pitch), pitch);
        assert_eq!(sensors.is_stable, roll.abs() < 0.78 && pitch.abs() < 0.78);
        assert_eq!(sensors.check_tilt(), sensors.is_stable);
    }
}

#[test]
fn tilt_is_graded() {
    for (roll, pitch, upright, level) in [
        (0.0, 0.0, true, TiltLevel::Level),
        (0.52, -0.52, true, TiltLevel::Level),
        (0.53, 0.0, true, TiltLevel::Tilting),
        (0.0, -0.78, false, TiltLevel::Tilting),
        (1.57, 0.0, false, TiltLevel::Tilting),
        (0.0, 1.58, false, TiltLevel::Flipped),
        (-3.0, 0.0, false, TiltLevel::Flipped),
        (f64::NAN, 0.0, false, TiltLevel::Level),
    ] {
        let mut sensors = SensorState::default();
        sensors.set_tilt(double(roll), double(pitch));
        assert_eq!(sensors.check_tilt(), upright);
        assert_eq!(sensors.is_stable, upright);
        assert_eq!(sensors.tilt_level(), level);
    }
}

#[test]
fn velocity_readings_are_kept() {
    let mut sensors = SensorState::default();
    sensors.set_velocity(double(0.4), double(-0.1));
    assert_eq!((native(sensors.lin_vel_x), native(sensors.lin_vel_y)), (0.4, -0.1));
}

#[test]
fn twists_hold_what_they_are_made_of() {
    assert_eq!(velocity(zero_twist()), (0.0, 0.0));
    assert_eq!(velocity(make_twist(double(0.5), double(-0.25))), (0.5, -0.25));
}

#[test]
fn times_in_seconds_are_the_standard_ones() {
    let mut nanos = 1u64;
    for _ in 0..4000 {
        nanos = nanos.wrapping_mul(6364136223846793005).wrapping_add(1442695040888963407);
        for shift in [0, 20, 33, 40] {
            let t = nanos >> shift;
            assert_eq!(native(as_seconds(t)), std::time::Duration::from_nanos(t).as_secs_f64());
        }
    }
    assert_eq!(elapsed(5, 3), 2);
    assert_eq!(elapsed(3, 5), 0);
}

#[test]
fn longer_times_are_no_fewer_seconds() {
    let mut earlier = 0.0;
    for nanos in [0, 1, 2, 999_999_999, SECOND, SECOND + 1, 7 * SECOND - 1, 7 * SECOND, 1 << 60, u64::MAX] {
        let t = native(as_seconds(nanos));
        assert!(t >= earlier && t.is_finite());
        earlier = t;
    }
}

#[test]
fn fresh_detection_counts() {
    let mut intruder = IntruderState::new(0);
    intruder.set_detected(true, 99 * SECOND);
    let now = intruder.snapshot(99 * SECOND);
    assert!(now.detected);
    assert_eq!(native(now.time_since_lost), 0.0);
}

#[test]
fn states_know_how_long_they_last() {
    let mut fsm = machine(&["trot"]);
    assert_eq!(fsm.time_in_state(2 * SECOND), 2 * SECOND);
    fsm.transition("nonsense", 3 * SECOND);
    assert_eq!(fsm.time_in_state(3 * SECOND), 3 * SECOND);
    fsm.transition("stand", 4 * SECOND);
    assert_eq!(fsm.time_in_state(4 * SECOND), 0);
}

#[test]
fn robot_on_its_own_never_drives_backward_or_too_fast() {
    let sensors = SensorState::default();
    for command in ["idle", "stand", "trot", "patrol", "estop"] {
        for intruder in [gone(1.0), gone(9.0), seen(0.5, 0.3, 2.0), seen(15.0, -0.1, 0.0), seen(2.0, 2.0, 0.0)] {
            let mut fsm = machine(&[command]);
            for tick in 0..400u64 {
                let (speed, _) = velocity(fsm.tick(&sensors, &intruder, tick * 20 * MILLI));
                assert!(speed >= 0.0 && speed <= 0.3);
                assert_eq!(fsm.siren_on(), *fsm.state() == BehaviorState::Apprehend);
            }
        }
    }
}

#[test]
fn limits_in_seconds_are_exact_to_the_nanosecond() {
    for k in [1u64, 2, 3, 5] {
        let limit = k as f64;
        assert!(native(as_seconds(k * SECOND - 1)) < limit);
        assert_eq!(native(as_seconds(k * SECOND)), limit);
        assert!(native(as_seconds(k * SECOND + 1)) > limit);
    }
}
