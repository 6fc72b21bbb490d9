use crazydog::binary64::model::Binary64;
use crazydog::teleop::{KeyAction, TeleopState, ANG_MAX, ANG_STEP, VEL_MAX, VEL_STEP};

fn native(x: Binary64) -> f64 {
    f64::from_bits(x.bits)
}

#[test]
fn keyboard_parameters_are_the_documented_decimals() {
    assert_eq!(VEL_STEP, 0.05f64.to_bits());
    assert_eq!(ANG_STEP, 0.1f64.to_bits());
    assert_eq!(VEL_MAX, 0.6f64.to_bits());
    assert_eq!(ANG_MAX, 1.5f64.to_bits());
}

#[test]
fn velocity_keys_add_up() {
    let mut state = TeleopState::default();
    assert_eq!((native(state.lin_x), native(state.ang_z)), (0.0, 0.0));
    let mut lin_x = 0.0f64;
    let mut ang_z = 0.0f64;
    for key in b"wwwsaadddwwawsssssssssssssssssssswwwwaaaaaaaaaaaaaaaaaaaaaddddddddddddddddddddddddddddddddddddddd" {
        assert_eq!(state.apply_key(*key), None);
        match key {
            b'w' => lin_x = (lin_x + 0.05).min(0.6),
            b's' => lin_x = (lin_x - 0.05).max(-0.6),
            b'a' => ang_z = (ang_z + 0.1).min(1.5),
            _ => ang_z = (ang_z - 0.1).max(-1.5),
        }
        assert_eq!(native(state.lin_x).to_bits(), lin_x.to_bits());
        assert_eq!(native(state.ang_z).to_bits(), ang_z.to_bits());
        assert!(lin_x.abs() <= 0.6 && ang_z.abs() <= 1.5);
    }
}

#[test]
fn velocity_keys_stop_at_the_limits() {
    let mut state = TeleopState::default();
    for _ in 0..40 {
        state.apply_key(b'w');
        state.apply_key(b'd');
    }
    assert_eq!((native(state.lin_x), native(state.ang_z)), (0.6, -1.5));
    for _ in 0..80 {
        state.apply_key(b's');
        state.apply_key(b'a');
    }
    assert_eq!((native(state.lin_x), native(state.ang_z)), (-0.6, 1.5));
}

#[test]
fn space_stops_the_robot() {
    let mut state = TeleopState::default();
    state.apply_key(b'w');
    state.apply_key(b'a');
    assert_eq!(state.apply_key(b' '), None);
    let twist = state.as_twist();
    assert_eq!((native(twist.linear.x), native(twist.angular.z)), (0.0, 0.0));
}

#[test]
fn mode_keys_name_their_behavior() {
    let mut state = TeleopState::default();
    state.apply_key(b'w');
    let before = state;
    for (key, command) in [
        (b'1', "stand"),
        (b'2', "trot"),
        (b'3', "patrol"),
        (b'0', "idle"),
        (b'm', "manual"),
        (b'e', "estop"),
        (b'c', "clear"),
    ] {
        assert_eq!(state.apply_key(key), Some(command));
        assert!(state == before);
    }
}

#[test]
fn other_keys_do_nothing() {
    let mut state = TeleopState::default();
    state.apply_key(b'w');
    let before = state;
    for key in 0..=255u8 {
        if !b"wsad 1230mec".contains(&key) {
            assert_eq!(state.apply_key(key), None);
            assert!(state == before);
        }
    }
}

#[test]
fn twist_holds_speed_and_turn_rate_only() {
    let mut state = TeleopState::default();
    state.apply_key(b'w');
    state.apply_key(b'd');
    let twist = state.as_twist();
    assert_eq!(native(twist.linear.x), 0.05);
    assert_eq!(native(twist.angular.z), -0.1);
    for zero in [twist.linear.y, twist.linear.z, twist.angular.x, twist.angular.y] {
        assert_eq!(native(zero).to_bits(), 0);
    }
}

#[test]
fn every_key_but_quit_publishes() {
    let mut state = TeleopState::default();
    for key in 0..=255u8 {
        let action = state.press(key);
        if key == b'q' || key == 27 {
            assert!(matches!(action, KeyAction::Quit));
        } else {
            match action {
                KeyAction::Publish { command, twist } => {
                    assert!(twist == state.as_twist());
                    assert_eq!(command.is_some(), b"1230mec".contains(&key));
                },
                KeyAction::Quit => panic!("key {} quits", key),
            }
        }
    }
}
