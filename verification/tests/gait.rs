use crazydog::binary64::model::Binary64;
use crazydog::gait::{ik_terms, leg_pose, solve_ik, FootTarget, GaitController, IkTerms, Leg};
use crazydog::gait::{
    DUTY_CYCLE, FREQUENCY_GAIN, HIP_Y_OFFSET, L1, L2, MAX_FREQUENCY, MIN_FREQUENCY, MOVING_THRESHOLD, NOMINAL_HEIGHT,
    PI, START_FREQUENCY, STEP_HEIGHT, TINY, TRAVEL, TURN_TRAVEL, TURN_WEIGHT, WORKSPACE_MARGIN,
};

fn double(x: f64) -> Binary64 {
    Binary64::from_bits(x.to_bits())
}

fn native(x: Binary64) -> f64 {
    f64::from_bits(x.bits)
}

fn sin(v: Binary64) -> Binary64 {
    double(native(v).sin())
}

fn atan2(y: Binary64, x: Binary64) -> Binary64 {
    double(native(y).atan2(native(x)))
}

fn acos(v: Binary64) -> Binary64 {
    double(native(v).acos())
}

fn ik(lateral: f64, forward: f64, down: f64) -> (f64, f64, f64) {
    let (hip, thigh, calf) = solve_ik(double(lateral), double(forward), double(down), &atan2, &acos);
    (native(hip), native(thigh), native(calf))
}

fn step(gait: &mut GaitController, dt: f64) -> Vec<f64> {
    let joints = gait.step(double(dt), &sin, &atan2, &acos);
    joints.iter().map(|j| native(*j)).collect()
}

const THIGH: f64 = 0.213;
const CALF: f64 = 0.213;
const HEIGHT: f64 = 0.30;

/// The angles for a foot within reach.
fn expected_ik(lateral: f64, forward: f64, down: f64) -> (f64, f64, f64) {
    let hip = lateral.atan2(down.abs().max(1e-6));
    let r = (forward * forward + down * down).sqrt();
    let cos_calf = (r * r - THIGH * THIGH - CALF * CALF) / (2.0 * THIGH * CALF);
    let calf = -(cos_calf.clamp(-1.0, 1.0).acos());
    let alpha = forward.atan2(down.abs().max(1e-6));
    let beta_cos = (r * r + THIGH * THIGH - CALF * CALF) / (2.0 * r * THIGH);
    let thigh = -alpha + beta_cos.clamp(-1.0, 1.0).acos();
    (hip, thigh, calf)
}

/// The joints of a robot at a place in the cycle.
fn expected_joints(phase: f64, vel_x: f64, ang_z: f64) -> Vec<f64> {
    let moving = vel_x.abs() > 0.01 || ang_z.abs() > 0.01;
    let offsets = [0.0, 0.5, 0.5, 0.0];
    let signs = [1.0, -1.0, 1.0, -1.0];
    let mut joints = Vec::new();
    for leg in 0..4 {
        let place = (phase + offsets[leg]) % 1.0;
        let (forward, down) = if !moving {
            (0.0, HEIGHT)
        } else if place < 0.5 {
            let t = place / 0.5;
            (vel_x * (0.5 - t) * 0.1 - signs[leg] * ang_z * 0.05 * (0.5 - t), HEIGHT)
        } else {
            let t = (place - 0.5) / (1.0 - 0.5);
            let forward = vel_x * (t - 0.5) * 0.1 - signs[leg] * ang_z * 0.05 * (t - 0.5);
            (forward, HEIGHT - 0.06 * (std::f64::consts::PI * t).sin())
        };
        let (hip, thigh, calf) = expected_ik(signs[leg] * 0.08, forward, down);
        joints.extend([hip, thigh, calf]);
    }
    joints
}

#[test]
fn test_ik_nominal_stance() {
    // At the default stance position the foot should be directly below
    // the hip at NOMINAL_HEIGHT with no lateral offset.
    let (hip, thigh, calf) = ik(0.0, 0.0, HEIGHT);
    // Hip should be ~0 when no lateral offset
    assert!(hip.abs() < 0.01, "hip={}", hip);
    // Knee must be negative (bending)
    assert!(calf < 0.0, "calf={}", calf);
    // Verify round-trip: reconstructed foot position
    let y = THIGH * thigh.sin() + CALF * (thigh + calf).sin();
    let z = THIGH * thigh.cos() + CALF * (thigh + calf).cos();
    assert!((z - HEIGHT).abs() < 0.005, "z={}", z);
    assert!(y.abs() < 0.01, "y={}", y);
}

#[test]
fn test_gait_produces_12_joints() {
    let mut g = GaitController::new();
    g.update_command(double(0.3), double(0.0));
    let joints = g.step(double(0.002), &sin, &atan2, &acos);
    assert_eq!(joints.len(), 12);
}

#[test]
fn test_ik_lateral_offset() {
    // A lateral offset should produce a non-zero hip angle
    let (hip, _, _) = ik(0.05, 0.0, HEIGHT);
    assert!(hip.abs() > 0.01, "hip should reflect lateral offset");
}

#[test]
fn gait_parameters_are_the_documented_decimals() {
    assert_eq!(L1, 0.213f64.to_bits());
    assert_eq!(L2, 0.213f64.to_bits());
    assert_eq!(HIP_Y_OFFSET, 0.08f64.to_bits());
    assert_eq!(NOMINAL_HEIGHT, 0.30f64.to_bits());
    assert_eq!(STEP_HEIGHT, 0.06f64.to_bits());
    assert_eq!(DUTY_CYCLE, 0.5f64.to_bits());
    assert_eq!(WORKSPACE_MARGIN, 0.01f64.to_bits());
    assert_eq!(TINY, 1e-6f64.to_bits());
    assert_eq!(MOVING_THRESHOLD, 0.01f64.to_bits());
    assert_eq!(TURN_WEIGHT, 0.2f64.to_bits());
    assert_eq!(MIN_FREQUENCY, 1.0f64.to_bits());
    assert_eq!(MAX_FREQUENCY, 4.0f64.to_bits());
    assert_eq!(START_FREQUENCY, 2.0f64.to_bits());
    assert_eq!(FREQUENCY_GAIN, 5.0f64.to_bits());
    assert_eq!(TRAVEL, 0.1f64.to_bits());
    assert_eq!(TURN_TRAVEL, 0.05f64.to_bits());
    assert_eq!(PI, std::f64::consts::PI.to_bits());
}

#[test]
fn reachable_feet_follow_the_law_of_cosines() {
    for lateral in [-0.08, 0.0, 0.05, 0.08] {
        for forward in [-0.2, -0.05, 0.0, 0.1, 0.25] {
            for down in [0.1, 0.24, 0.3, 0.31] {
                assert_eq!(ik(lateral, forward, down), expected_ik(lateral, forward, down));
            }
        }
    }
}

#[test]
fn reachable_feet_come_back_from_their_angles() {
    for forward in [-0.1, 0.0, 0.07] {
        let (_, thigh, calf) = ik(0.0, forward, 0.28);
        let x = -(THIGH * thigh.sin() + CALF * (thigh + calf).sin());
        let z = THIGH * thigh.cos() + CALF * (thigh + calf).cos();
        assert!((x - forward).abs() < 1e-9, "x={}", x);
        assert!((z - 0.28).abs() < 1e-9, "z={}", z);
    }
}

#[test]
fn unreachable_feet_give_the_stand_pose() {
    let stand = expected_ik(0.0, 0.0, HEIGHT);
    assert_eq!(ik(0.05, 1.0, 1.0), stand);
    assert_eq!(ik(0.05, 0.0, 0.005), stand);
    assert_eq!(ik(0.0, 0.0, 0.0), stand);
    assert_eq!(ik(0.05, f64::INFINITY, 0.3), stand);
    // just within and just beyond the longest reach
    assert_eq!(ik(0.05, 0.0, 0.415), expected_ik(0.05, 0.0, 0.415));
    assert_eq!(ik(0.05, 0.0, 0.417), stand);
}

#[test]
fn feet_that_are_no_numbers_have_no_angles() {
    let (_, thigh, calf) = ik(0.0, f64::NAN, 0.3);
    assert!(thigh.is_nan() && calf.is_nan());
}

#[test]
fn angles_are_put_together_from_the_arc_functions() {
    let target = FootTarget { lateral: double(0.08), forward: double(0.05), down: double(0.29) };
    let terms: IkTerms = ik_terms(target);
    assert_eq!(native(terms.hip.0), 0.08);
    assert_eq!(native(terms.hip.1), 0.29);
    assert_eq!(native(terms.ahead.0), 0.05);
    let pose = leg_pose(double(0.25), double(0.5), double(1.25), double(0.75));
    assert_eq!((native(pose.0), native(pose.1), native(pose.2)), (0.25, 0.25, -1.25));
}

#[test]
fn frequency_follows_the_speed() {
    let mut g = GaitController::new();
    assert_eq!(native(g.frequency()), 2.0);
    for (vel_x, ang_z, freq) in [
        (0.0, 0.0, 1.0),
        (0.6, 0.0, 4.0),
        (-0.6, 0.0, 4.0),
        (5.0, 0.0, 4.0),
        (f64::INFINITY, 0.0, 4.0),
        (0.3, 0.0, 1.0 + 0.3 * 5.0),
        (0.1, -1.0, 1.0 + (1.0 * 0.2) * 5.0),
        (f64::NAN, 0.5, 1.0 + (0.5 * 0.2) * 5.0),
    ] {
        g.update_command(double(vel_x), double(ang_z));
        assert_eq!(native(g.frequency()), freq);
    }
}

#[test]
fn standing_robot_rests_at_the_start_of_its_cycle() {
    let mut g = GaitController::new();
    g.update_command(double(0.3), double(0.0));
    step(&mut g, 0.1);
    assert!(native(g.phase()) > 0.0);
    g.update_command(double(0.01), double(-0.01));
    assert_eq!(step(&mut g, 0.1), expected_joints(0.0, 0.01, -0.01));
    assert_eq!(native(g.phase()), 0.0);
}

#[test]
fn walking_robot_follows_the_trajectory() {
    for (vel_x, ang_z) in [(0.3, 0.0), (-0.2, 0.4), (0.0, 1.5), (0.6, -1.5), (0.05, 0.02)] {
        let mut g = GaitController::new();
        g.update_command(double(vel_x), double(ang_z));
        let freq = native(g.frequency());
        let mut phase = 0.0f64;
        for _ in 0..700 {
            phase = (phase + freq * 0.002) % 1.0;
            assert_eq!(step(&mut g, 0.002), expected_joints(phase, vel_x, ang_z));
            assert_eq!(native(g.phase()), phase);
            assert!(phase >= 0.0 && phase < 1.0);
        }
    }
}

#[test]
fn negative_time_steps_run_the_cycle_backward() {
    let mut g = GaitController::new();
    g.update_command(double(0.2), double(0.0));
    step(&mut g, -0.1);
    assert_eq!(native(g.phase()), (0.0 + 2.0 * -0.1) % 1.0);
}

#[test]
fn diagonals_swing_together_and_in_turn() {
    let mut g = GaitController::new();
    g.update_command(double(0.3), double(0.0));
    for _ in 0..1000 {
        step(&mut g, 0.002);
        let heights: Vec<f64> =
            [Leg::FL, Leg::FR, Leg::RL, Leg::RR].iter().map(|leg| native(g.foot_target(*leg, &sin).down)).collect();
        assert_eq!(heights[0], heights[3]);
        assert_eq!(heights[1], heights[2]);
        // at least one diagonal stands, and nobody digs into the ground
        assert!(heights[0] == HEIGHT || heights[1] == HEIGHT);
        assert!(heights.iter().all(|h| *h <= HEIGHT && *h >= HEIGHT - 0.06));
    }
}

#[test]
fn rounding_lets_both_diagonals_stand() {
    // at the last double below one half, adding half a cycle reaches the next one
    let phase = f64::from_bits(0x3FDF_FFFF_FFFF_FFFF);
    assert_eq!((phase + 0.5) % 1.0, 0.0);
    let last = f64::from_bits(0x3FEF_FFFF_FFFF_FFFF);
    assert_eq!((last + 0.5) % 1.0, 0.5);
}

#[test]
fn turning_moves_the_sides_against_each_other() {
    let mut g = GaitController::new();
    g.update_command(double(0.0), double(1.0));
    step(&mut g, 0.01);
    let left = native(g.foot_target(Leg::FL, &sin).forward);
    let right = native(g.foot_target(Leg::RR, &sin).forward);
    assert_eq!(left, -right);
    assert!(left < 0.0);
    assert_eq!(native(g.foot_target(Leg::FL, &sin).lateral), 0.08);
    assert_eq!(native(g.foot_target(Leg::FR, &sin).lateral), -0.08);
}

#[test]
fn legs_know_their_side_and_diagonal() {
    for (leg, offset, sign) in [(Leg::FL, 0.0, 1.0), (Leg::FR, 0.5, -1.0), (Leg::RL, 0.5, 1.0), (Leg::RR, 0.0, -1.0)] {
        assert_eq!(native(leg.phase_offset()), offset);
        assert_eq!(native(leg.lateral_sign()), sign);
    }
}

#[test]
fn mirrored_feet_have_mirrored_angles() {
    for (lateral, forward, down) in [(0.08, 0.05, 0.3), (0.03, -0.1, 0.25), (-0.05, 0.2, 0.31)] {
        let (hip, thigh, calf) = ik(lateral, forward, down);
        assert_eq!(ik(-lateral, forward, down), (-hip, thigh, calf));
        let (back_hip, back_thigh, back_calf) = ik(lateral, -forward, down);
        assert_eq!((back_hip, back_calf), (hip, calf));
        assert!((thigh + back_thigh + calf).abs() < 1e-12);
    }
}

#[test]
fn feet_at_one_reach_bend_the_knee_alike() {
    let (_, straight, calf) = ik(0.0, 0.0, 0.25);
    let (_, ahead, other_calf) = ik(0.0, 0.15, 0.2);
    assert!((calf - other_calf).abs() < 1e-12);
    assert!(ahead < straight);
}

#[test]
fn standing_robots_are_alike() {
    let expected = step(&mut GaitController::new(), 0.002);
    let mut g = GaitController::new();
    g.update_command(double(0.4), double(0.7));
    step(&mut g, 0.123);
    g.update_command(double(-0.01), double(0.005));
    assert_eq!(step(&mut g, 7.0), expected);
    assert_eq!(expected[..3], [expected[6], expected[7], expected[8]]);
    assert_eq!(expected[0], -expected[3]);
    assert_eq!(expected[1..3], expected[4..6]);
    assert!((expected[0] - 0.2606).abs() < 1e-4 && (expected[1] - 0.7895).abs() < 1e-4);
    assert!((expected[2] + 1.5789).abs() < 1e-4);
}

#[test]
fn half_a_cycle_swaps_the_diagonals() {
    for vel_x in [0.05, 0.3, -0.45, 0.6] {
        let mut g = GaitController::new();
        g.update_command(double(vel_x), double(0.0));
        let half = 1.0 / (2.0 * native(g.frequency()));
        let a = step(&mut g, 0.0613);
        let before = native(g.phase());
        let b = step(&mut g, half);
        let c = step(&mut g, half);
        for (left, right) in [(0, 3), (3, 0), (6, 9), (9, 6)] {
            assert!((b[left] + a[right]).abs() < 1e-12);
            assert!((b[left + 1] - a[right + 1]).abs() < 1e-12);
            assert!((b[left + 2] - a[right + 2]).abs() < 1e-12);
        }
        assert!((native(g.phase()) - before).abs() < 16.0 * f64::powi(2.0, -53));
        assert!(a.iter().zip(&c).all(|(x, y)| (x - y).abs() < 1e-12));
    }
}

#[test]
fn diagonal_feet_step_alike_without_turning() {
    let mut g = GaitController::new();
    g.update_command(double(0.35), double(0.0));
    for _ in 0..300 {
        step(&mut g, 0.002);
        for (front, rear) in [(Leg::FL, Leg::RR), (Leg::FR, Leg::RL)] {
            let a = g.foot_target(front, &sin);
            let b = g.foot_target(rear, &sin);
            assert_eq!(native(a.forward), native(b.forward));
            assert_eq!(native(a.down), native(b.down));
            assert_eq!(native(a.lateral), -native(b.lateral));
        }
    }
}

const GRAIN: f64 = 1.0 / 9007199254740992.0;

#[test]
fn half_a_cycle_swaps_the_feet() {
    for (vel_x, ang_z) in [(0.3, 0.0), (-0.9, 0.0), (0.5, 0.8), (0.0, -1.9)] {
        for start in [0.0, 0.0613, 0.11, 0.2437] {
            let mut g = GaitController::new();
            g.update_command(double(vel_x), double(ang_z));
            let half = 1.0 / (2.0 * native(g.frequency()));
            step(&mut g, start);
            let legs = [Leg::FL, Leg::FR, Leg::RL, Leg::RR];
            let before: Vec<FootTarget> = legs.iter().map(|leg| g.foot_target(*leg, &sin)).collect();
            step(&mut g, half);
            let later: Vec<FootTarget> = legs.iter().map(|leg| g.foot_target(*leg, &sin)).collect();
            step(&mut g, half);
            let again: Vec<FootTarget> = legs.iter().map(|leg| g.foot_target(*leg, &sin)).collect();
            let speed = f64::abs(vel_x) + f64::abs(ang_z);
            let near = |x: &FootTarget, y: &FootTarget, grains: f64| {
                let ahead = (native(x.forward) - native(y.forward)).abs();
                let down = (native(x.down) - native(y.down)).abs();
                ahead <= (grains + 4.0) / 4.0 * speed * GRAIN && down <= (grains + 4.0) * GRAIN
            };
            // the two feet of a side swap
            for (leg, other) in [(0, 2), (2, 0), (1, 3), (3, 1)] {
                assert!(near(&later[leg], &before[other], 8.0));
                assert_eq!(later[leg].lateral, before[other].lateral);
            }
            if ang_z == 0.0 {
                for (leg, other) in [(0, 1), (1, 0), (2, 3), (3, 2)] {
                    assert!(near(&later[leg], &before[other], 8.0));
                }
            }
            for leg in 0..4 {
                assert!(near(&again[leg], &before[leg], 16.0));
            }
        }
    }
}

#[test]
fn half_a_cycle_swaps_the_angles_of_a_side() {
    for (vel_x, ang_z) in [(0.3, 0.4), (-0.6, 1.5), (0.9, -0.2)] {
        let mut g = GaitController::new();
        g.update_command(double(vel_x), double(ang_z));
        let half = 1.0 / (2.0 * native(g.frequency()));
        let a = step(&mut g, 0.0371);
        let b = step(&mut g, half);
        let c = step(&mut g, half);
        for joint in 0..6 {
            assert!((b[joint] - a[joint + 6]).abs() <= 12288.0 * GRAIN);
            assert!((b[joint + 6] - a[joint]).abs() <= 12288.0 * GRAIN);
        }
        assert!(a.iter().zip(&c).all(|(x, y)| (x - y).abs() <= 16384.0 * GRAIN));
    }
}

#[test]
fn knee_bends_twice_as_far_as_the_thigh_leans() {
    for i in 0..400 {
        let r = 0.0101 + 0.4058 * i as f64 / 399.0;
        let turn = 0.9 - 1.8 * (i % 7) as f64 / 6.0;
        let (forward, down) = (r * f64::sin(turn), r * f64::cos(turn));
        let terms: IkTerms =
            ik_terms(FootTarget { lateral: double(0.08), forward: double(forward), down: double(down) });
        let (knee, thigh) = (native(terms.knee), native(terms.thigh));
        assert!((2.0 * thigh * thigh - 1.0 - knee).abs() <= 356.0 * GRAIN);
        let (_, ahead, calf) = ik(0.08, forward, down);
        let (_, behind, other_calf) = ik(0.08, -forward, down);
        assert_eq!(calf, other_calf);
        assert!((ahead + behind + calf).abs() <= 12296.0 * GRAIN);
    }
}

#[test]
fn platform_functions_move_as_the_laws_ask() {
    let at = |i: u32| i as f64 / 500.0;
    let pi = std::f64::consts::PI;
    for i in 0..=500 {
        let (v, s) = (pi * at(i), f64::sin(pi * at(i)));
        assert!((0.0..=1.0).contains(&s) && s <= v + 4.0 * GRAIN && s <= pi - v + 4.0 * GRAIN);
        for j in [i / 2, i.saturating_sub(1), 500 - i] {
            let (w, t) = (pi * at(j), f64::sin(pi * at(j)));
            assert!((s - t).abs() <= (v - w).abs() + 4.0 * GRAIN);
            let (c, d) = (1.9375 * at(i) - 0.96875, 1.9375 * at(j) - 0.96875);
            assert!((c.acos() - d.acos()).abs() <= 8.0 * (c - d).abs() + 16.0 * GRAIN);
            let (x, y) = (0.125 + at(i), 0.125 + at(j));
            let (p, q) = (at(j) - 0.5, at(i) - 0.5);
            assert!((p.atan2(x) - q.atan2(y)).abs() <= 8.0 * ((p - q).abs() + (x - y).abs()) + 16.0 * GRAIN);
            assert_eq!(f64::atan2(-p, x), -f64::atan2(p, x));
        }
        let w = 1.0 / 64.0 + (1023.0 / 1024.0 - 1.0 / 64.0) * at(i);
        let v = 2.0 * w * w - 1.0;
        assert!((v.acos() - 2.0 * w.acos()).abs() <= 128.0 * GRAIN);
    }
}
