//! The high-level behavior machine.
//!
//! An operator chooses what the robot does (stand, trot, patrol, manual driving, idle,
//! emergency stop).  A robot that stands up goes on to trot once it is stable, and one that
//! tilts too far meanwhile is stopped.  An intruder that is seen is pursued, and
//! apprehended with the siren on once it is close and has stopped.

use vstd::prelude::*;
use crate::binary64::arithmetic::{difference, opposite, product, sum};
use crate::binary64::model::Binary64;
use crate::binary64::order::{absolute, clamped, less};
use crate::clock::{as_seconds, elapsed, seconds, since};
use crate::geometry::{zero, Vector3};

pub mod machine;
pub mod pursuit;
pub mod laws;
pub mod conduct;
pub mod steering;
pub mod orientation;

verus! {

/// Roll or pitch (rad) from which the robot no longer counts as upright: 0.78.
pub const TILT_LIMIT: u64 = 0x3FE8_F5C2_8F5C_28F6;

/// Roll or pitch (rad) beyond which the robot is tilting: 0.52.
pub const TILT_WARNING: u64 = 0x3FE0_A3D7_0A3D_70A4;

/// Roll or pitch (rad) beyond which the robot lies on its side or back: 1.57.
pub const FLIPPED: u64 = 0x3FF9_1EB8_51EB_851F;

/// Distance (m) at which an intruder counts as cornered: 3.
pub const APPREHEND_DISTANCE: u64 = 0x4008_0000_0000_0000;

/// Speed (m/s) below which an intruder counts as stopped: 0.5.
pub const INTRUDER_STOPPED_THRESHOLD: u64 = 0x3FE0_0000_0000_0000;

/// Seconds without a detection before the patrol resumes: 5.
pub const LOST_TIMEOUT_SECS: u64 = 0x4014_0000_0000_0000;

/// Seconds after which a detection is stale: 1.
pub const STALE_SECS: u64 = 0x3FF0_0000_0000_0000;

/// Highest pursuit speed (m/s): 0.15.
pub const PURSUIT_MAX_SPEED: u64 = 0x3FC3_3333_3333_3333;

/// Lowest pursuit speed (m/s): 0.05.
pub const PURSUIT_MIN_SPEED: u64 = 0x3FA9_9999_9999_999A;

/// Distance (m) within which a pursuit slows down: 3.
pub const PURSUIT_SLOW_DISTANCE: u64 = 0x4008_0000_0000_0000;

/// Turn rate per bearing: 0.5.
pub const PURSUIT_STEERING_GAIN: u64 = 0x3FE0_0000_0000_0000;

/// Highest turn rate (rad/s) while driving: 0.3.
pub const PURSUIT_STEERING_LIMIT: u64 = 0x3FD3_3333_3333_3333;

/// Bearing (rad) beyond which the robot turns in place first: 0.44.
pub const TURN_IN_PLACE_BEARING: u64 = 0x3FDC_28F5_C28F_5C29;

/// Turn rate (rad/s) in place: 0.25.
pub const TURN_IN_PLACE_RATE: u64 = 0x3FD0_0000_0000_0000;

/// Share of the speed that an off-centre bearing costs: 0.6.
pub const BEARING_SLOWDOWN: u64 = 0x3FE3_3333_3333_3333;

/// Bearing (rad) up to which a held intruder is not turned to: 0.1.
pub const HOLD_BEARING: u64 = 0x3FB9_9999_9999_999A;

/// Speed (m/s) while an intruder is out of sight: 0.1.
pub const LOST_SPEED: u64 = 0x3FB9_9999_9999_999A;

/// Turn rate (rad/s) of the search that follows a lost pursuit: 0.3.
pub const SEARCH_RATE: u64 = 0x3FD3_3333_3333_3333;

/// Speed (m/s) of a patrol: 0.2.
pub const PATROL_SPEED: u64 = 0x3FC9_9999_9999_999A;

/// Turn rate per waypoint yaw: 0.3.
pub const PATROL_YAW_GAIN: u64 = 0x3FD3_3333_3333_3333;

/// Speed (m/s) of the trot: 0.3.
pub const TROT_SPEED: u64 = 0x3FD3_3333_3333_3333;

/// One half.
pub const HALF: u64 = 0x3FE0_0000_0000_0000;

/// One.
pub const UNITY: u64 = 0x3FF0_0000_0000_0000;

/// Two.
pub const TWO: u64 = 0x4000_0000_0000_0000;

/// The double nearest to pi.
pub const PI: u64 = 0x4009_21FB_5444_2D18;

/// The double nearest to half of pi.
pub const HALF_PI: u64 = 0x3FF9_21FB_5444_2D18;

/// The largest finite double.
pub const LARGEST: u64 = 0x7FEF_FFFF_FFFF_FFFF;

/// How long (ns) an emergency stop or an arrest lasts before it may end by itself.
pub const DWELL: u64 = 3_000_000_000;

/// How long (ns) the robot holds still after the start.
pub const SETTLING: u64 = 5_000_000_000;

/// What the robot is doing.
#[derive(Clone, Debug, PartialEq)]
pub enum BehaviorState {
    /// Motors relaxed, robot sitting or lying.
    Idle,
    /// Robot is rising to a standing pose.
    StandUp,
    /// Robot is trotting at a set velocity.
    Trot,
    /// Executing a pre-defined patrol waypoint sequence.
    Patrol { waypoint_index: usize },
    /// Safety halt: no motion.
    EmergencyStop { reason: String },
    /// Pass-through mode for manual driving.
    Manual,
    /// An intruder was detected and is pursued.
    Pursue,
    /// The intruder is cornered: siren on, holding position.
    Apprehend,
}

/// A [`BehaviorState`] as a mathematical value.
pub enum Mode {
    Idle,
    StandUp,
    Trot,
    Patrol { waypoint_index: nat },
    EmergencyStop { reason: Seq<char> },
    Manual,
    Pursue,
    Apprehend,
}

impl View for BehaviorState {
    type V = Mode;

    open spec fn view(&self) -> Mode {
        match self {
            BehaviorState::Idle => Mode::Idle,
            BehaviorState::StandUp => Mode::StandUp,
            BehaviorState::Trot => Mode::Trot,
            BehaviorState::Patrol { waypoint_index } => Mode::Patrol { waypoint_index: *waypoint_index as nat },
            BehaviorState::EmergencyStop { reason } => Mode::EmergencyStop { reason: reason@ },
            BehaviorState::Manual => Mode::Manual,
            BehaviorState::Pursue => Mode::Pursue,
            BehaviorState::Apprehend => Mode::Apprehend,
        }
    }
}

/// The published name of a mode.
pub open spec fn label_of(mode: Mode) -> Seq<char> {
    match mode {
        Mode::Idle => "Idle"@,
        Mode::StandUp => "StandUp"@,
        Mode::Trot => "Trot"@,
        Mode::Patrol { .. } => "Patrol"@,
        Mode::EmergencyStop { .. } => "EmergencyStop"@,
        Mode::Manual => "Manual"@,
        Mode::Pursue => "Pursue"@,
        Mode::Apprehend => "Apprehend"@,
    }
}

impl BehaviorState {
    /// The published name of the state.
    pub fn label(&self) -> (r: &'static str)
        ensures
            r@ == label_of(self@),
    {
        match self {
            BehaviorState::Idle => "Idle",
            BehaviorState::StandUp => "StandUp",
            BehaviorState::Trot => "Trot",
            BehaviorState::Patrol { .. } => "Patrol",
            BehaviorState::EmergencyStop { .. } => "EmergencyStop",
            BehaviorState::Manual => "Manual",
            BehaviorState::Pursue => "Pursue",
            BehaviorState::Apprehend => "Apprehend",
        }
    }
}

/// The latest sensor readings.
#[derive(Clone, Copy, Debug, PartialEq, Eq, Structural)]
pub struct SensorState {
    /// Roll angle (rad).
    pub roll: Binary64,
    /// Pitch angle (rad).
    pub pitch: Binary64,
    /// Forward velocity (m/s).
    pub lin_vel_x: Binary64,
    /// Sideways velocity (m/s).
    pub lin_vel_y: Binary64,
    /// Whether the robot was upright at the last orientation reading.
    pub is_stable: bool,
}

/// How far the robot leans.
#[derive(Clone, Copy, Debug, PartialEq, Eq, Structural)]
pub enum TiltLevel {
    Level,
    Tilting,
    Flipped,
}

/// Whether roll and pitch are both within the limit.
pub open spec fn upright(roll: Binary64, pitch: Binary64) -> bool {
    less(absolute(roll), Binary64 { bits: TILT_LIMIT }) && less(absolute(pitch), Binary64 { bits: TILT_LIMIT })
}

/// The readings after roll and pitch were measured.
pub open spec fn leaning(s: SensorState, roll: Binary64, pitch: Binary64) -> SensorState {
    SensorState { roll, pitch, is_stable: upright(roll, pitch), ..s }
}

/// Whether roll or pitch is beyond `limit`.
pub open spec fn leans_beyond(roll: Binary64, pitch: Binary64, limit: u64) -> bool {
    less(Binary64 { bits: limit }, absolute(roll)) || less(Binary64 { bits: limit }, absolute(pitch))
}

impl Default for SensorState {
    /// All readings zero, and not known to be upright.
    fn default() -> (r: Self)
        ensures
            r == (SensorState {
                roll: zero(),
                pitch: zero(),
                lin_vel_x: zero(),
                lin_vel_y: zero(),
                is_stable: false,
            }),
    {
        let zero: Binary64 = Binary64::from_bits(0);
        SensorState { roll: zero, pitch: zero, lin_vel_x: zero, lin_vel_y: zero, is_stable: false }
    }
}

/// A rotation.
#[derive(Clone, Copy, Debug, PartialEq, Eq, Structural)]
pub struct Quaternion {
    pub x: Binary64,
    pub y: Binary64,
    pub z: Binary64,
    pub w: Binary64,
}

/// The sine and cosine, up to a common factor, of the roll of a rotation.
pub open spec fn roll_direction(q: Quaternion) -> (Binary64, Binary64) {
    let two = Binary64 { bits: TWO };
    (
        product(two, sum(product(q.w, q.x), product(q.y, q.z))),
        difference(Binary64 { bits: UNITY }, product(two, sum(product(q.x, q.x), product(q.y, q.y)))),
    )
}

/// The sine of the pitch of a rotation.
pub open spec fn pitch_sine(q: Quaternion) -> Binary64 {
    let one = Binary64 { bits: UNITY };
    clamped(
        product(Binary64 { bits: TWO }, difference(product(q.w, q.y), product(q.z, q.x))),
        opposite(one),
        one,
    )
}

impl Quaternion {
    /// The two arguments of the arc tangent that is the roll.
    pub fn roll_direction(self) -> (r: (Binary64, Binary64))
        ensures
            r == roll_direction(self),
    {
        let two: Binary64 = Binary64::from_bits(TWO);
        let one: Binary64 = Binary64::from_bits(UNITY);
        let sine: Binary64 = two.times(self.w.times(self.x).plus(self.y.times(self.z)));
        let cosine: Binary64 = one.minus(two.times(self.x.times(self.x).plus(self.y.times(self.y))));
        (sine, cosine)
    }

    /// The argument of the arc sine that is the pitch.
    pub fn pitch_sine(self) -> (r: Binary64)
        ensures
            r == pitch_sine(self),
    {
        let one: Binary64 = Binary64::from_bits(UNITY);
        let sine: Binary64 = Binary64::from_bits(TWO).times(self.w.times(self.y).minus(self.z.times(self.x)));
        sine.clamp(one.negated(), one)
    }
}

impl SensorState {
    /// Takes in an orientation reading.  `atan2` and `asin` are the arc functions of the
    /// platform's mathematics library.
    pub fn update_orientation<A: Fn(Binary64, Binary64) -> Binary64, S: Fn(Binary64) -> Binary64>(
        &mut self,
        q: Quaternion,
        atan2: A,
        asin: S,
    )
        requires
            forall|y: Binary64, x: Binary64| call_requires(atan2, (y, x)),
            forall|v: Binary64| call_requires(asin, (v,)),
        ensures
            exists|roll: Binary64, pitch: Binary64|
                {
                    &&& #[trigger] call_ensures(atan2, roll_direction(q), roll)
                    &&& #[trigger] call_ensures(asin, (pitch_sine(q),), pitch)
                    &&& *final(self) == leaning(*old(self), roll, pitch)
                },
    {
        let (sine, cosine) = q.roll_direction();
        let roll: Binary64 = atan2(sine, cosine);
        let pitch: Binary64 = asin(q.pitch_sine());
        self.set_tilt(roll, pitch);
    }

    /// Takes in roll and pitch, and whether they are within the limit.
    pub fn set_tilt(&mut self, roll: Binary64, pitch: Binary64)
        ensures
            *final(self) == leaning(*old(self), roll, pitch),
    {
        self.roll = roll;
        self.pitch = pitch;
        self.is_stable = self.check_tilt();
    }

    /// Takes in a velocity reading.
    pub fn set_velocity(&mut self, x: Binary64, y: Binary64)
        ensures
            *final(self) == (SensorState { lin_vel_x: x, lin_vel_y: y, ..*old(self) }),
    {
        self.lin_vel_x = x;
        self.lin_vel_y = y;
    }

    /// Whether the robot is upright.
    pub fn check_tilt(&self) -> (r: bool)
        ensures
            r == upright(self.roll, self.pitch),
    {
        self.roll.abs().lt(Binary64::from_bits(TILT_LIMIT)) && self.pitch.abs().lt(Binary64::from_bits(TILT_LIMIT))
    }

    /// How far the robot leans.
    pub fn tilt_level(&self) -> (r: TiltLevel)
        ensures
            r == (if leans_beyond(self.roll, self.pitch, FLIPPED) {
                TiltLevel::Flipped
            } else if leans_beyond(self.roll, self.pitch, TILT_WARNING) {
                TiltLevel::Tilting
            } else {
                TiltLevel::Level
            }),
    {
        let roll: Binary64 = self.roll.abs();
        let pitch: Binary64 = self.pitch.abs();
        let flipped: Binary64 = Binary64::from_bits(FLIPPED);
        let warning: Binary64 = Binary64::from_bits(TILT_WARNING);
        if roll.gt(flipped) || pitch.gt(flipped) {
            TiltLevel::Flipped
        } else if roll.gt(warning) || pitch.gt(warning) {
            TiltLevel::Tilting
        } else {
            TiltLevel::Level
        }
    }
}

/// The latest knowledge of the intruder.
#[derive(Clone, Copy, Debug, PartialEq, Eq, Structural)]
pub struct IntruderState {
    /// Whether an intruder is currently detected.
    pub detected: bool,
    /// Distance (m).
    pub distance: Binary64,
    /// Bearing (rad, 0 = forward, + = left).
    pub bearing: Binary64,
    /// Estimated velocity (m/s, negative = approaching).
    pub velocity: Binary64,
    /// When the intruder was last seen (ns).
    pub last_seen: u64,
    /// Seconds since the intruder was last seen.
    pub time_since_lost: Binary64,
}

/// Where the intruder has been out of sight for too long.
pub open spec fn lost(intruder: IntruderState) -> bool {
    less(Binary64 { bits: LOST_TIMEOUT_SECS }, intruder.time_since_lost)
}

/// Where the intruder is close and has stopped.
pub open spec fn cornered(intruder: IntruderState) -> bool {
    &&& less(intruder.distance, Binary64 { bits: APPREHEND_DISTANCE })
    &&& less(absolute(intruder.velocity), Binary64 { bits: INTRUDER_STOPPED_THRESHOLD })
}

/// Where the intruder moves.
pub open spec fn moving(intruder: IntruderState) -> bool {
    less(Binary64 { bits: INTRUDER_STOPPED_THRESHOLD }, absolute(intruder.velocity))
}

/// The knowledge of the intruder as it stands at time `now`.
pub open spec fn aged(intruder: IntruderState, now: u64) -> IntruderState {
    let lost_for = seconds(since(now, intruder.last_seen));
    IntruderState {
        detected: intruder.detected && !less(Binary64 { bits: STALE_SECS }, lost_for),
        time_since_lost: lost_for,
        ..intruder
    }
}

impl IntruderState {
    /// Nothing seen yet.
    pub fn new(now: u64) -> (r: Self)
        ensures
            r == (IntruderState {
                detected: false,
                distance: zero(),
                bearing: zero(),
                velocity: zero(),
                last_seen: now,
                time_since_lost: Binary64 { bits: LARGEST },
            }),
    {
        let zero: Binary64 = Binary64::from_bits(0);
        IntruderState {
            detected: false,
            distance: zero,
            bearing: zero,
            velocity: zero,
            last_seen: now,
            time_since_lost: Binary64::from_bits(LARGEST),
        }
    }

    /// Takes in a measured distance (x), bearing (y) and velocity (z).
    pub fn observe(&mut self, measured: Vector3, now: u64)
        ensures
            *final(self) == (IntruderState {
                distance: measured.x,
                bearing: measured.y,
                velocity: measured.z,
                last_seen: now,
                ..*old(self)
            }),
    {
        self.distance = measured.x;
        self.bearing = measured.y;
        self.velocity = measured.z;
        self.last_seen = now;
    }

    /// Takes in whether an intruder is detected.
    pub fn set_detected(&mut self, detected: bool, now: u64)
        ensures
            *final(self) == (if detected {
                IntruderState { detected: true, last_seen: now, time_since_lost: zero(), ..*old(self) }
            } else {
                IntruderState { detected: false, ..*old(self) }
            }),
    {
        self.detected = detected;
        if detected {
            self.last_seen = now;
            self.time_since_lost = Binary64::from_bits(0);
        }
    }

    /// The knowledge as it stands at time `now`: a detection goes stale after a second.
    pub fn snapshot(&self, now: u64) -> (r: IntruderState)
        ensures
            r == aged(*self, now),
    {
        let lost_for: Binary64 = as_seconds(elapsed(now, self.last_seen));
        let stale: bool = lost_for.gt(Binary64::from_bits(STALE_SECS));
        IntruderState {
            detected: self.detected && !stale,
            distance: self.distance,
            bearing: self.bearing,
            velocity: self.velocity,
            last_seen: self.last_seen,
            time_since_lost: lost_for,
        }
    }
}

} // verus!
