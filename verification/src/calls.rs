//! What the calls of the library give back, in terms of their arguments.

use vstd::prelude::*;
use crate::binary64::facts::lemma_opposite;
use crate::behavior::conduct::{law_knowledge_is_kept, lemma_absolute_order};
use crate::behavior::laws::law_detection_goes_stale;
use crate::behavior::machine::{after_command, after_tick, commanded, control_step, initial, BehaviorFsm, ControlOutput, Machine};
use crate::behavior::pursuit::{compute_pursuit_twist, pursuit};
use crate::behavior::{
    label_of, pitch_sine, roll_direction, upright, BehaviorState, IntruderState, Quaternion, SensorState, TiltLevel,
    FLIPPED, TILT_LIMIT, TILT_WARNING,
};
use crate::binary64::arithmetic::{difference, opposite, product, quotient, sum};
use crate::binary64::convert::{fraction, from_whole, truncated};

use crate::binary64::model::Binary64;
use crate::binary64::order::{absolute, clamped, greatest, least, less, same, sign_of};
use crate::binary64::root::square_root;
use crate::camera::pixels::{law_every_red_pixel_counts, red_places};
use crate::camera::{process_camera, red_detection, Image};
use crate::clock::{as_seconds, elapsed, seconds, since, NANOS_PER_SECOND};
use crate::decimals::{is_decimal, law_behavior_decimals, law_gait_decimals};
use crate::fusion::{fused, DetectionState, FusionOutput};
use crate::gait::{
    frequency, ik_terms, ik_terms_of, leg_pose, phase_after, places_foot, pose_of, poses_leg, solve_ik, solves_ik,
    FootTarget, GaitController, IkTerms, Leg,
};
use crate::geometry::{make_twist, rests, zero_twist, Twist, Vector3};
use crate::lidar::{
    best_cluster, detection, of_interest, person_points, process_lidar, range_of, scans_to, sector_index, sector_of, Point,
    PointCloud,
};

use crate::siren::{
    after_siren_tick, after_switch, marker_change, marker_color, marker_request, marker_text, visual_of, Color, Marker,
    SirenOutput, SirenState,
};
use crate::teleop::{after_key, key_command, KeyAction, TeleopState};
use crate::text::{same_text, trim, trimmed};

verus! {

/// A tick of the machine commands and leads to what its mode, the sensors and the intruder
/// call for, and a command to what its word calls for.
pub proof fn law_machine_calls(
    fsm: &mut BehaviorFsm,
    sensors: SensorState,
    intruder: IntruderState,
    cmd: &str,
    manual: Twist,
    now: u64,
    r: Twist,
    nothing: (),
)
    ensures
        call_ensures(BehaviorFsm::tick, (fsm, &sensors, &intruder, now), r) ==> {
            &&& r == commanded(old(fsm)@, sensors, intruder, now)
            &&& final(fsm)@ == after_tick(old(fsm)@, sensors, intruder, now)
            &&& old(fsm)@.mode is Idle && !intruder.detected ==> rests(r) && final(fsm)@.mode is Idle
            &&& old(fsm)@.mode is EmergencyStop ==> rests(r)
            &&& old(fsm)@.mode is Manual ==> r == old(fsm)@.manual
        },
        call_ensures(BehaviorFsm::transition, (fsm, cmd, now), nothing) ==> {
            &&& final(fsm)@ == after_command(old(fsm)@, cmd@, now)
            &&& trimmed(cmd@) == "estop"@ ==> final(fsm)@.mode is EmergencyStop && !final(fsm)@.siren_on
        },
        call_ensures(BehaviorFsm::set_manual_velocity, (fsm, manual), nothing) ==> final(fsm)@ == (Machine {
            manual,
            ..old(fsm)@
        }),
{
    crate::behavior::laws::lemma_words_differ();
}

/// What a machine tells of itself.
pub proof fn law_machine_reports(fsm: BehaviorFsm, now: u64, fresh: BehaviorFsm, siren_on: bool, lasted: u64)
    ensures
        call_ensures(BehaviorFsm::new, (now,), fresh) ==> fresh@ == initial(now) && fresh@.mode is Idle && !fresh@.siren_on,
        call_ensures(BehaviorFsm::siren_on, (&fsm,), siren_on) ==> siren_on == fsm@.siren_on,
        call_ensures(BehaviorFsm::time_in_state, (&fsm, now), lasted) ==> lasted == since(now, fsm@.entered_at),
{
}

/// For its first five seconds a robot holds still and reports nothing, whatever it was told or
/// sees.  From then on each turn of the control loop is a tick with what is known of the
/// intruder by then; its report is the mode and the siren after the tick.
pub proof fn law_control_loop(
    fsm: &mut BehaviorFsm,
    sensors: SensorState,
    intruder: IntruderState,
    started_at: u64,
    now: u64,
    r: ControlOutput,
)
    requires
        call_ensures(control_step, (fsm, &sensors, &intruder, started_at, now), r),
    ensures
        since(now, started_at) < 5 * NANOS_PER_SECOND ==> rests(r.twist) && r.report is None && final(fsm)@ == old(fsm)@,
        since(now, started_at) >= 5 * NANOS_PER_SECOND ==> exists|known: IntruderState|
            {
                &&& known.distance == intruder.distance && known.bearing == intruder.bearing && known.velocity
                    == intruder.velocity
                &&& known.time_since_lost == seconds(since(now, intruder.last_seen))
                &&& known.detected <==> intruder.detected && since(now, intruder.last_seen) <= NANOS_PER_SECOND
                &&& r.twist == #[trigger] commanded(old(fsm)@, sensors, known, now)
                &&& final(fsm)@ == after_tick(old(fsm)@, sensors, known, now)
                &&& r.report matches Some((label, siren_on))
                &&& label@ == label_of(final(fsm)@.mode)
                &&& siren_on == final(fsm)@.siren_on
            },
{
    let known = crate::behavior::aged(intruder, now);
    law_detection_goes_stale(intruder, now);
    law_knowledge_is_kept(intruder, now);
    assert(since(now, started_at) >= 5 * NANOS_PER_SECOND ==> r.twist == commanded(old(fsm)@, sensors, known, now));
}

/// What is taken in of the sensors: a tilt sets roll, pitch and stability, a velocity nothing
/// but itself; a rotation sets the tilt that the arc functions give for it.
pub proof fn law_sensor_calls<A: Fn(Binary64, Binary64) -> Binary64, S: Fn(Binary64) -> Binary64>(
    s: &mut SensorState,
    roll: Binary64,
    pitch: Binary64,
    q: Quaternion,
    atan2: A,
    asin: S,
    nothing: (),
)
    ensures
        call_ensures(SensorState::set_tilt, (s, roll, pitch), nothing) ==> *final(s) == (SensorState {
            roll,
            pitch,
            is_stable: upright(roll, pitch),
            ..*old(s)
        }),
        call_ensures(SensorState::set_velocity, (s, roll, pitch), nothing) ==> *final(s) == (SensorState {
            lin_vel_x: roll,
            lin_vel_y: pitch,
            ..*old(s)
        }),
        call_ensures(SensorState::update_orientation::<A, S>, (s, q, atan2, asin), nothing) ==> {
            &&& call_ensures(atan2, roll_direction(q), final(s).roll)
            &&& call_ensures(asin, (pitch_sine(q),), final(s).pitch)
            &&& final(s).is_stable == upright(final(s).roll, final(s).pitch)
            &&& final(s).lin_vel_x == old(s).lin_vel_x && final(s).lin_vel_y == old(s).lin_vel_y
        },
{
}

/// A robot counts as flipped beyond 1.57 rad of roll or pitch, as tilting beyond 0.52 rad, and
/// as level else; it is upright below 0.78 rad of both.
pub proof fn law_tilt_calls(s: SensorState, level: TiltLevel, is_upright: bool)
    requires
        s.roll.finite(),
        s.pitch.finite(),
    ensures
        ({
            let (roll, pitch) = (s.roll.units(), s.pitch.units());
            let flipped = (Binary64 { bits: FLIPPED }).units();
            let warning = (Binary64 { bits: TILT_WARNING }).units();
            let limit = (Binary64 { bits: TILT_LIMIT }).units();
            let lies = roll > flipped || roll < -flipped || pitch > flipped || pitch < -flipped;
            let leans = roll > warning || roll < -warning || pitch > warning || pitch < -warning;
            &&& call_ensures(SensorState::tilt_level, (&s,), level) ==> {
                &&& level is Flipped <==> lies
                &&& level is Tilting <==> leans && !lies
                &&& level is Level <==> !leans && !lies
            }
            &&& call_ensures(SensorState::check_tilt, (&s,), is_upright) ==> (is_upright <==> -limit < roll < limit && -limit
                < pitch < limit)
            &&& is_decimal(FLIPPED, 157, 100) && is_decimal(TILT_WARNING, 52, 100) && is_decimal(TILT_LIMIT, 78, 100)
        }),
{
    law_behavior_decimals();
    lemma_absolute_order(s.roll, Binary64 { bits: FLIPPED });
    lemma_absolute_order(s.pitch, Binary64 { bits: FLIPPED });
    lemma_absolute_order(s.roll, Binary64 { bits: TILT_WARNING });
    lemma_absolute_order(s.pitch, Binary64 { bits: TILT_WARNING });
    lemma_absolute_order(s.roll, Binary64 { bits: TILT_LIMIT });
    lemma_absolute_order(s.pitch, Binary64 { bits: TILT_LIMIT });
}

/// What is taken in of the intruder: a measurement sets distance, bearing, velocity and the
/// time it was seen; a detection sets that time and that it is not lost; no detection changes
/// nothing else.
pub proof fn law_intruder_calls(
    s: &mut IntruderState,
    measured: Vector3,
    detected: bool,
    now: u64,
    fresh: IntruderState,
    known: IntruderState,
    twist: Twist,
    nothing: (),
)
    ensures
        call_ensures(IntruderState::new, (now,), fresh) ==> {
            &&& !fresh.detected && fresh.distance.bits == 0 && fresh.bearing.bits == 0 && fresh.velocity.bits == 0
            &&& fresh.last_seen == now && fresh.time_since_lost.bits == 0x7FEF_FFFF_FFFF_FFFF
        },
        call_ensures(IntruderState::observe, (s, measured, now), nothing) ==> {
            &&& final(s).distance == measured.x && final(s).bearing == measured.y && final(s).velocity == measured.z
            &&& final(s).last_seen == now
            &&& final(s).detected == old(s).detected && final(s).time_since_lost == old(s).time_since_lost
        },
        call_ensures(IntruderState::set_detected, (s, detected, now), nothing) ==> {
            &&& final(s).detected == detected
            &&& final(s).distance == old(s).distance && final(s).bearing == old(s).bearing && final(s).velocity == old(
                s,
            ).velocity
            &&& detected ==> final(s).last_seen == now && final(s).time_since_lost.bits == 0
            &&& !detected ==> final(s).last_seen == old(s).last_seen && final(s).time_since_lost == old(s).time_since_lost
        },
        call_ensures(IntruderState::snapshot, (&fresh, now), known) ==> {
            &&& known.detected <==> fresh.detected && since(now, fresh.last_seen) <= NANOS_PER_SECOND
            &&& known.distance == fresh.distance && known.bearing == fresh.bearing && known.velocity == fresh.velocity
            &&& known.last_seen == fresh.last_seen && known.time_since_lost == seconds(since(now, fresh.last_seen))
        },
        call_ensures(compute_pursuit_twist, (&fresh,), twist) ==> twist == pursuit(fresh),
{
    law_detection_goes_stale(fresh, now);
    law_knowledge_is_kept(fresh, now);
}

/// A cloud in which something was found sets distance and bearing, one in which nothing was
/// found only that; each is counted, with its points.  What the camera saw and the estimate
/// are not touched.
pub proof fn law_cloud_is_taken_in(
    s: &mut DetectionState,
    total: usize,
    filtered: usize,
    found: Option<(Binary64, Binary64)>,
    nothing: (),
)
    requires
        old(s).lidar_msg_count < u64::MAX,
        call_ensures(DetectionState::observe_lidar, (s, total, filtered, found), nothing),
    ensures
        final(s).lidar_detected == found is Some,
        found matches Some((distance, bearing)) ==> final(s).lidar_distance == distance && final(s).lidar_bearing == bearing,
        found is None ==> final(s).lidar_distance == old(s).lidar_distance && final(s).lidar_bearing == old(s).lidar_bearing,
        final(s).lidar_total_points == total && final(s).lidar_filtered_points == filtered,
        final(s).lidar_msg_count == old(s).lidar_msg_count + 1,
        *final(s) == (DetectionState {
            lidar_detected: final(s).lidar_detected,
            lidar_distance: final(s).lidar_distance,
            lidar_bearing: final(s).lidar_bearing,
            lidar_total_points: total,
            lidar_filtered_points: filtered,
            lidar_msg_count: final(s).lidar_msg_count,
            ..*old(s)
        }),
{
}

/// An image in which red was found sets bearing, share and the number of red pixels that the
/// share makes of the image's size; one in which none was found only that.  Each is counted.
/// What the point cloud showed and the estimate are not touched.
pub proof fn law_image_is_taken_in(
    s: &mut DetectionState,
    found: Option<(Binary64, Binary64)>,
    width: u32,
    height: u32,
    nothing: (),
)
    requires
        old(s).camera_msg_count < u64::MAX,
        call_ensures(DetectionState::observe_camera, (s, found, width, height), nothing),
    ensures
        final(s).camera_detected == found is Some,
        found matches Some((bearing, share)) ==> {
            &&& final(s).camera_bearing == bearing && final(s).camera_red_ratio == share
            &&& final(s).camera_red_count == truncated(
                product(share, product(from_whole(width as nat), from_whole(height as nat))),
            )
        },
        found is None ==> {
            &&& final(s).camera_bearing == old(s).camera_bearing && final(s).camera_red_ratio == old(s).camera_red_ratio
            &&& final(s).camera_red_count == 0
        },
        final(s).camera_msg_count == old(s).camera_msg_count + 1,
        *final(s) == (DetectionState {
            camera_detected: final(s).camera_detected,
            camera_bearing: final(s).camera_bearing,
            camera_red_ratio: final(s).camera_red_ratio,
            camera_red_count: final(s).camera_red_count,
            camera_msg_count: final(s).camera_msg_count,
            ..*old(s)
        }),
{
}

/// A turn of the fusion detects an intruder exactly where a sensor does, and then reports the
/// new estimate; with the camera alone detecting and no estimate yet, the reported bearing is
/// the camera's.
pub proof fn law_fusion_call(s: &mut DetectionState, now: u64, r: FusionOutput)
    requires
        call_ensures(DetectionState::fuse, (s, now), r),
    ensures
        *final(s) == fused(*old(s), now),
        r.detected <==> old(s).lidar_detected || old(s).camera_detected,
        r.measured is Some <==> r.detected,
        r.measured matches Some(v) ==> {
            &&& v.x == final(s).smoothed_distance && v.y == final(s).smoothed_bearing && v.z == final(s).smoothed_velocity
            &&& old(s).smoothed_distance.is_zero() && old(s).smoothed_bearing.is_zero() && !old(s).lidar_detected ==> v.y
                == old(s).camera_bearing
        },
{
    if old(s).smoothed_distance.is_zero() && old(s).smoothed_bearing.is_zero() {
        crate::fusion::estimate::law_first_measurement(*old(s), now);
    }
}

/// An image is searched pixel by pixel: red is found exactly where at least twenty pixels are
/// red.
pub proof fn law_camera_call(msg: Image, r: Option<(Binary64, Binary64)>)
    requires
        call_ensures(process_camera, (&msg,), r),
    ensures
        r == red_detection(msg),
        msg.data@.len() > 0 ==> (r is Some <==> red_places(msg).len() >= 20),
{
    law_every_red_pixel_counts(msg);
}

/// A cloud is scanned point by point: the reports of a call, and its parts.
pub proof fn law_lidar_calls<A: Fn(Binary64, Binary64) -> Binary64>(
    atan2: A,
    msg: PointCloud,
    r: (usize, usize, Option<(Binary64, Binary64)>),
    points: Vec<Point>,
    bearings: Vec<Binary64>,
    found: Option<(Binary64, Binary64)>,
    point: Point,
    range: Binary64,
    counts: bool,
    sector: u64,
)
    ensures
        call_ensures(process_lidar::<A>, (&msg, atan2), r) ==> scans_to(atan2, msg, r),
        call_ensures(person_points, (&msg,), points) ==> points@ == msg.points_of_interest(msg.total()),
        call_ensures(best_cluster, (&points, &bearings), found) ==> found == detection(points@, bearings@),
        call_ensures(Point::range, (&point,), range) ==> range == range_of(point),
        call_ensures(Point::is_of_interest, (&point,), counts) ==> counts == of_interest(point),
        call_ensures(sector_index, (range,), sector) ==> sector == sector_of(range),
        call_ensures(PointCloud::is_readable, (&msg,), counts) ==> (counts <==> !msg.holds_points() || msg.readable()),
{
}

/// A command sets velocity and frequency of a gait and leaves its place in the cycle; a step
/// moves on in the cycle and leaves the rest.  The twelve angles are those of front left,
/// front right, rear left and rear right, three each.
pub proof fn law_gait_calls<
    S: Fn(Binary64) -> Binary64,
    A: Fn(Binary64, Binary64) -> Binary64,
    C: Fn(Binary64) -> Binary64,
>(
    g: &mut GaitController,
    vel_x: Binary64,
    ang_z: Binary64,
    dt: Binary64,
    sin: S,
    atan2: A,
    acos: C,
    r: [Binary64; 12],
    nothing: (),
)
    ensures
        call_ensures(GaitController::update_command, (g, vel_x, ang_z), nothing) ==> {
            &&& final(g)@.vel_x == vel_x && final(g)@.ang_z == ang_z && final(g)@.phase == old(g)@.phase
            &&& final(g)@.freq == frequency(vel_x, ang_z)
        },
        call_ensures(GaitController::step::<S, A, C>, (g, dt, &sin, &atan2, &acos), r) ==> {
            &&& final(g)@.phase == phase_after(old(g)@, dt)
            &&& final(g)@.vel_x == old(g)@.vel_x && final(g)@.ang_z == old(g)@.ang_z && final(g)@.freq == old(g)@.freq
            &&& poses_leg(sin, atan2, acos, final(g)@, Leg::FL, (r@[0], r@[1], r@[2]))
            &&& poses_leg(sin, atan2, acos, final(g)@, Leg::FR, (r@[3], r@[4], r@[5]))
            &&& poses_leg(sin, atan2, acos, final(g)@, Leg::RL, (r@[6], r@[7], r@[8]))
            &&& poses_leg(sin, atan2, acos, final(g)@, Leg::RR, (r@[9], r@[10], r@[11]))
        },
{
}

/// A new gait stands at the start of its cycle at 2 Hz; a foot and a leg are where the gait and
/// the inverse kinematics put them.
pub proof fn law_leg_calls<
    S: Fn(Binary64) -> Binary64,
    A: Fn(Binary64, Binary64) -> Binary64,
    C: Fn(Binary64) -> Binary64,
>(
    g: GaitController,
    leg: Leg,
    sin: S,
    atan2: A,
    acos: C,
    target: FootTarget,
    pose: (Binary64, Binary64, Binary64),
)
    ensures
        call_ensures(GaitController::new, (), g) ==> {
            &&& g@.phase.bits == 0 && g@.vel_x.bits == 0 && g@.ang_z.bits == 0
            &&& is_decimal(g@.freq.bits, 2, 1)
        },
        call_ensures(GaitController::foot_target::<S>, (&g, leg, &sin), target) ==> places_foot(sin, g@, leg, target),
        call_ensures(solve_ik::<A, C>, (target.lateral, target.forward, target.down, &atan2, &acos), pose) ==> solves_ik(
            atan2,
            acos,
            target,
            pose,
        ),
{
    law_gait_decimals();
    assert(FootTarget { lateral: target.lateral, forward: target.forward, down: target.down } == target);
}

/// A key sets the velocity and gives the word that it stands for; a key that quits does
/// neither.  What is published is the velocity after the key.
pub proof fn law_key_calls(
    s: &mut TeleopState,
    key: u8,
    word: Option<&'static str>,
    action: KeyAction,
    twist: Twist,
)
    ensures
        call_ensures(TeleopState::apply_key, (s, key), word) ==> {
            &&& *final(s) == after_key(*old(s), key)
            &&& word is Some <==> key_command(key) is Some
            &&& word matches Some(text) ==> key_command(key) == Some(text@)
        },
        call_ensures(TeleopState::press, (s, key), action) ==> {
            &&& action is Quit <==> key == 0x71 || key == 0x1B
            &&& action is Quit ==> *final(s) == *old(s)
            &&& action matches KeyAction::Publish { command, twist } ==> {
                &&& *final(s) == after_key(*old(s), key)
                &&& twist.linear.x == final(s).lin_x && twist.angular.z == final(s).ang_z
                &&& command is Some <==> key_command(key) is Some
                &&& command matches Some(text) ==> key_command(key) == Some(text@)
            }
        },
{
}

/// The siren switches, flashes and publishes as it is told; a request names the color that it
/// is given.
pub proof fn law_siren_calls(
    s: &mut SirenState,
    on: bool,
    r: SirenOutput,
    marker: Marker,
    color: Color<'static>,
    text: String,
    visible: bool,
    nothing: (),
)
    ensures
        call_ensures(SirenState::switch, (s, on), nothing) ==> *final(s) == after_switch(*old(s), on),
        call_ensures(SirenState::tick, (s,), r) ==> {
            &&& *final(s) == after_siren_tick(*old(s))
            &&& r.marker == marker_change(*old(s)) && r.visual@ == visual_of(*old(s)) && r.enabled == old(s).enabled
        },
        call_ensures(Marker::color, (marker,), color) ==> (color.r@, color.g@, color.b@) == marker_color(marker),
        call_ensures(Marker::is_visible, (marker,), visible) ==> (visible <==> marker is Red || marker is Blue),
        call_ensures(marker_request, (color, visible), text) ==> text@ == marker_text(
            (color.r@, color.g@, color.b@),
            visible,
        ),
{
}

/// The operations on doubles give the rounded sum, difference, product, quotient and root, and
/// the comparisons compare.
pub proof fn law_double_calls(a: Binary64, b: Binary64, c: Binary64, r: Binary64, yes: bool, n: u64)
    ensures
        call_ensures(Binary64::plus, (a, b), r) ==> r == sum(a, b),
        call_ensures(Binary64::minus, (a, b), r) ==> r == difference(a, b),
        call_ensures(Binary64::times, (a, b), r) ==> r == product(a, b),
        call_ensures(Binary64::over, (a, b), r) ==> r == quotient(a, b),
        call_ensures(Binary64::sqrt, (a,), r) ==> r == square_root(a),
        call_ensures(Binary64::negated, (a,), r) ==> r == opposite(a),
        call_ensures(Binary64::fract, (a,), r) ==> r == fraction(a),
        call_ensures(Binary64::abs, (a,), r) ==> r == absolute(a),
        call_ensures(Binary64::min, (a, b), r) ==> r == least(a, b),
        call_ensures(Binary64::max, (a, b), r) ==> r == greatest(a, b),
        call_ensures(Binary64::clamp, (a, b, c), r) ==> r == clamped(a, b, c),
        call_ensures(Binary64::signum, (a,), r) ==> r == sign_of(a),
        call_ensures(Binary64::lt, (a, b), yes) ==> yes == less(a, b),
        call_ensures(Binary64::gt, (a, b), yes) ==> yes == less(b, a),
        call_ensures(Binary64::equal, (a, b), yes) ==> yes == same(a, b),
        call_ensures(Binary64::from_u64, (n,), r) ==> r == from_whole(n as nat),
        call_ensures(Binary64::to_u64, (a,), n) ==> n == truncated(a),
{
}

/// Times and texts.
pub proof fn law_small_calls(now: u64, earlier: u64, lasted: u64, r: Binary64, text: &str, other: &str, yes: bool)
    ensures
        call_ensures(elapsed, (now, earlier), lasted) ==> lasted == since(now, earlier),
        call_ensures(as_seconds, (now,), r) ==> r == seconds(now as nat),
        call_ensures(trim, (text,), other) ==> other@ == trimmed(text@),
        call_ensures(same_text, (text, other), yes) ==> (yes <==> text@ == other@),
{
}

/// Everything starts at rest and with nothing seen.
pub proof fn law_defaults(sensors: SensorState, seen: DetectionState, keys: TeleopState, siren: SirenState)
    ensures
        call_ensures(<SensorState as Default>::default, (), sensors) ==> {
            &&& sensors.roll.bits == 0 && sensors.pitch.bits == 0 && !sensors.is_stable
            &&& sensors.lin_vel_x.bits == 0 && sensors.lin_vel_y.bits == 0
        },
        call_ensures(<DetectionState as Default>::default, (), seen) ==> {
            &&& !seen.lidar_detected && !seen.camera_detected && seen.prev_time is None
            &&& seen.lidar_distance.bits == 0 && seen.lidar_bearing.bits == 0 && seen.camera_bearing.bits == 0
            &&& seen.smoothed_distance.bits == 0 && seen.smoothed_bearing.bits == 0 && seen.smoothed_velocity.bits == 0
            &&& seen.prev_distance.bits == 0 && seen.camera_red_ratio.bits == 0
            &&& seen.lidar_total_points == 0 && seen.lidar_filtered_points == 0 && seen.camera_red_count == 0
            &&& seen.lidar_msg_count == 0 && seen.camera_msg_count == 0
        },
        call_ensures(<TeleopState as Default>::default, (), keys) ==> keys.lin_x.bits == 0 && keys.ang_z.bits == 0,
        call_ensures(<SirenState as Default>::default, (), siren) ==> {
            &&& !siren.enabled && !siren.flash_on && !siren.prev_enabled && !siren.prev_flash_on
            &&& siren.flash_counter == 0
        },
{
}

/// The smaller parts: commands, names, legs and rotations.
pub proof fn law_part_calls(
    x: Binary64,
    z: Binary64,
    twist: Twist,
    keys: TeleopState,
    state: BehaviorState,
    label: &'static str,
    leg: Leg,
    r: Binary64,
    g: GaitController,
    q: Quaternion,
    direction: (Binary64, Binary64),
    target: FootTarget,
    terms: IkTerms,
    arcs: (Binary64, Binary64, Binary64, Binary64),
    pose: (Binary64, Binary64, Binary64),
)
    ensures
        call_ensures(make_twist, (x, z), twist) ==> {
            &&& twist.linear.x == x && twist.angular.z == z
            &&& twist.linear.y.bits == 0 && twist.linear.z.bits == 0 && twist.angular.x.bits == 0 && twist.angular.y.bits == 0
        },
        call_ensures(zero_twist, (), twist) ==> rests(twist),
        call_ensures(TeleopState::as_twist, (&keys,), twist) ==> twist.linear.x == keys.lin_x && twist.angular.z == keys.ang_z,
        call_ensures(BehaviorState::label, (&state,), label) ==> label@ == label_of(state@),
        call_ensures(Leg::phase_offset, (leg,), r) ==> {
            &&& leg is FL || leg is RR ==> r.bits == 0
            &&& leg is FR || leg is RL ==> is_decimal(r.bits, 5, 10)
        },
        call_ensures(Leg::lateral_sign, (leg,), r) ==> {
            &&& leg is FL || leg is RL ==> is_decimal(r.bits, 1, 1)
            &&& leg is FR || leg is RR ==> is_decimal(opposite(r).bits, 1, 1)
        },
        call_ensures(GaitController::phase, (&g,), r) ==> r == g@.phase,
        call_ensures(GaitController::frequency, (&g,), r) ==> r == g@.freq,
        call_ensures(Quaternion::roll_direction, (q,), direction) ==> direction == roll_direction(q),
        call_ensures(Quaternion::pitch_sine, (q,), r) ==> r == pitch_sine(q),
        call_ensures(ik_terms, (target,), terms) ==> terms == ik_terms_of(target),
        call_ensures(leg_pose, (arcs.0, arcs.1, arcs.2, arcs.3), pose) ==> pose == pose_of(
            arcs.0,
            arcs.1,
            arcs.2,
            arcs.3,
        ),
{
    law_gait_decimals();
    lemma_opposite(Binary64 { bits: crate::gait::UNITY });
}

} // verus!
