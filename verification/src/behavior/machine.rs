//! The machine: operator commands, the control tick and the control loop.

use vstd::prelude::*;
use crate::behavior::pursuit::{compute_pursuit_twist, pursuit};
use crate::behavior::{
    aged, cornered, label_of, lost, moving, upright, BehaviorState, IntruderState, Mode, SensorState,
    APPREHEND_DISTANCE, DWELL, HALF, HALF_PI, HOLD_BEARING, INTRUDER_STOPPED_THRESHOLD, LOST_SPEED, LOST_TIMEOUT_SECS,
    PATROL_SPEED, PATROL_YAW_GAIN, PI, SEARCH_RATE, SETTLING, TROT_SPEED,
};
use crate::binary64::arithmetic::{opposite, product};
use crate::binary64::model::Binary64;
use crate::binary64::order::{absolute, less};
use crate::clock::{elapsed, since};
use crate::geometry::{make_twist, no_motion, planar, zero, zero_twist, Twist};
use crate::text::{same_text, trim, trimmed};

verus! {

/// One leg of a patrol.
#[derive(Clone, Copy, Debug, PartialEq, Eq, Structural)]
pub struct Waypoint {
    /// The yaw (rad) to turn toward.
    pub yaw: Binary64,
    /// How long (ns) the leg lasts.
    pub duration: u64,
}

/// The behavior machine.
pub struct BehaviorFsm {
    state: BehaviorState,
    /// When the current state was entered (ns).
    state_entered_at: u64,
    /// Forward velocity (m/s) while trotting.
    target_vel_x: Binary64,
    /// Angular velocity (rad/s) while trotting.
    target_ang_z: Binary64,
    patrol_waypoints: Vec<Waypoint>,
    /// The latest manual velocity.
    manual_vel: Twist,
    /// Whether the siren is to sound.
    siren_on: bool,
}

/// A [`BehaviorFsm`] as a mathematical value.
pub struct Machine {
    pub mode: Mode,
    pub entered_at: u64,
    pub trot: Twist,
    pub waypoints: Seq<Waypoint>,
    pub manual: Twist,
    pub siren_on: bool,
}

impl Machine {
    /// A patrol is always at one of its waypoints.
    pub open spec fn wf(self) -> bool {
        &&& self.waypoints.len() > 0
        &&& self.mode matches Mode::Patrol { waypoint_index } ==> waypoint_index < self.waypoints.len()
    }

    /// The machine after it entered a mode.
    pub open spec fn entering(self, mode: Mode, now: u64) -> Machine {
        Machine { mode, entered_at: now, ..self }
    }
}

/// The waypoints of the built-in patrol.
pub open spec fn default_waypoints() -> Seq<Waypoint> {
    seq![
        Waypoint { yaw: zero(), duration: 3_000_000_000 },
        Waypoint { yaw: Binary64 { bits: HALF_PI }, duration: 2_000_000_000 },
        Waypoint { yaw: Binary64 { bits: PI }, duration: 3_000_000_000 },
        Waypoint { yaw: opposite(Binary64 { bits: HALF_PI }), duration: 2_000_000_000 },
    ]
}

/// The machine as it starts.
pub open spec fn initial(now: u64) -> Machine {
    Machine {
        mode: Mode::Idle,
        entered_at: now,
        trot: planar(Binary64 { bits: TROT_SPEED }, zero()),
        waypoints: default_waypoints(),
        manual: no_motion(),
        siren_on: false,
    }
}

/// The mode that an operator command leads to, or none where it is ignored.
pub open spec fn ordered(cmd: Seq<char>, mode: Mode) -> Option<Mode> {
    if cmd == "stand"@ {
        Some(Mode::StandUp)
    } else if cmd == "trot"@ {
        Some(Mode::Trot)
    } else if cmd == "patrol"@ {
        Some(Mode::Patrol { waypoint_index: 0 })
    } else if cmd == "manual"@ {
        Some(Mode::Manual)
    } else if cmd == "idle"@ {
        Some(Mode::Idle)
    } else if cmd == "estop"@ {
        Some(Mode::EmergencyStop { reason: "operator command"@ })
    } else if cmd == "clear"@ && mode is EmergencyStop {
        Some(Mode::Idle)
    } else if cmd == "clear"@ && mode is Apprehend {
        Some(Mode::Patrol { waypoint_index: 0 })
    } else {
        None
    }
}

/// The machine after an operator command; white space around the command does not count.
pub open spec fn after_command(m: Machine, cmd: Seq<char>, now: u64) -> Machine {
    match ordered(trimmed(cmd), m.mode) {
        Some(mode) => Machine { siren_on: false, ..m.entering(mode, now) },
        None => m,
    }
}

/// Whether the robot tilts so far that standing up and trotting are aborted.
pub open spec fn tilts(sensors: SensorState) -> bool {
    !upright(sensors.roll, sensors.pitch)
}

/// The mode that a control tick leads to, or none where the mode lasts.
pub open spec fn next_mode(m: Machine, sensors: SensorState, intruder: IntruderState, now: u64) -> Option<Mode> {
    let age = since(now, m.entered_at);
    match m.mode {
        Mode::Idle => if intruder.detected {
            Some(Mode::Pursue)
        } else {
            None
        },
        Mode::StandUp => if tilts(sensors) {
            Some(Mode::EmergencyStop { reason: "tilt"@ })
        } else if intruder.detected {
            Some(Mode::Pursue)
        } else if sensors.is_stable {
            Some(Mode::Trot)
        } else {
            None
        },
        Mode::Trot => if tilts(sensors) {
            Some(Mode::EmergencyStop { reason: "tilt"@ })
        } else if intruder.detected {
            Some(Mode::Pursue)
        } else {
            None
        },
        Mode::Patrol { waypoint_index } => if intruder.detected {
            Some(Mode::Pursue)
        } else if age > m.waypoints[waypoint_index as int].duration {
            Some(Mode::Patrol { waypoint_index: (waypoint_index + 1) % m.waypoints.len() })
        } else {
            None
        },
        Mode::Pursue => if !intruder.detected && lost(intruder) {
            Some(Mode::Patrol { waypoint_index: 0 })
        } else if intruder.detected && cornered(intruder) {
            Some(Mode::Apprehend)
        } else {
            None
        },
        Mode::Apprehend => if age > DWELL && intruder.detected && moving(intruder) {
            Some(Mode::Pursue)
        } else if !intruder.detected && lost(intruder) {
            Some(Mode::Patrol { waypoint_index: 0 })
        } else {
            None
        },
        Mode::EmergencyStop { .. } => if upright(sensors.roll, sensors.pitch) && age > DWELL {
            Some(Mode::Idle)
        } else {
            None
        },
        Mode::Manual => None,
    }
}

/// The velocity that a control tick commands.
pub open spec fn commanded(m: Machine, sensors: SensorState, intruder: IntruderState, now: u64) -> Twist {
    let next = next_mode(m, sensors, intruder, now);
    match m.mode {
        Mode::Idle => if intruder.detected {
            pursuit(intruder)
        } else {
            no_motion()
        },
        Mode::StandUp => if intruder.detected && !tilts(sensors) {
            pursuit(intruder)
        } else {
            no_motion()
        },
        Mode::Trot => if tilts(sensors) {
            no_motion()
        } else if intruder.detected {
            pursuit(intruder)
        } else {
            m.trot
        },
        Mode::Patrol { waypoint_index } => if intruder.detected {
            pursuit(intruder)
        } else {
            planar(
                Binary64 { bits: PATROL_SPEED },
                product(m.waypoints[waypoint_index as int].yaw, Binary64 { bits: PATROL_YAW_GAIN }),
            )
        },
        Mode::Pursue => if !intruder.detected {
            if next is Some {
                planar(zero(), Binary64 { bits: SEARCH_RATE })
            } else {
                planar(Binary64 { bits: LOST_SPEED }, zero())
            }
        } else if next is Some {
            no_motion()
        } else {
            pursuit(intruder)
        },
        Mode::Apprehend => if next == Some(Mode::Pursue) {
            pursuit(intruder)
        } else if intruder.detected && less(Binary64 { bits: HOLD_BEARING }, absolute(intruder.bearing)) {
            planar(zero(), product(intruder.bearing, Binary64 { bits: HALF }))
        } else {
            no_motion()
        },
        Mode::EmergencyStop { .. } => no_motion(),
        Mode::Manual => m.manual,
    }
}

/// Whether the siren sounds after a control tick.
pub open spec fn siren_after(m: Machine, sensors: SensorState, intruder: IntruderState, now: u64) -> bool {
    let next = next_mode(m, sensors, intruder, now);
    match m.mode {
        Mode::Idle | Mode::EmergencyStop { .. } | Mode::Manual => false,
        Mode::StandUp | Mode::Trot => m.siren_on && !tilts(sensors),
        Mode::Patrol { .. } => m.siren_on,
        Mode::Pursue => m.siren_on || next == Some(Mode::Apprehend),
        Mode::Apprehend => next is None,
    }
}

/// The machine after a control tick.
pub open spec fn after_tick(m: Machine, sensors: SensorState, intruder: IntruderState, now: u64) -> Machine {
    let siren_on = siren_after(m, sensors, intruder, now);
    match next_mode(m, sensors, intruder, now) {
        Some(mode) => Machine { siren_on, ..m.entering(mode, now) },
        None => Machine { siren_on, ..m },
    }
}

impl BehaviorFsm {
    /// The machine as a mathematical value.
    pub closed spec fn view(&self) -> Machine {
        Machine {
            mode: self.state@,
            entered_at: self.state_entered_at,
            trot: planar(self.target_vel_x, self.target_ang_z),
            waypoints: self.patrol_waypoints@,
            manual: self.manual_vel,
            siren_on: self.siren_on,
        }
    }

    /// An idle machine.
    pub fn new(now: u64) -> (r: Self)
        ensures
            r@ == initial(now),
            r@.wf(),
    {
        let zero: Binary64 = Binary64::from_bits(0);
        let quarter: Binary64 = Binary64::from_bits(HALF_PI);
        let mut waypoints: Vec<Waypoint> = Vec::new();
        waypoints.push(Waypoint { yaw: zero, duration: 3_000_000_000 });
        waypoints.push(Waypoint { yaw: quarter, duration: 2_000_000_000 });
        waypoints.push(Waypoint { yaw: Binary64::from_bits(PI), duration: 3_000_000_000 });
        waypoints.push(Waypoint { yaw: quarter.negated(), duration: 2_000_000_000 });
        assert(waypoints@ =~= default_waypoints());
        BehaviorFsm {
            state: BehaviorState::Idle,
            state_entered_at: now,
            target_vel_x: Binary64::from_bits(TROT_SPEED),
            target_ang_z: zero,
            patrol_waypoints: waypoints,
            manual_vel: zero_twist(),
            siren_on: false,
        }
    }

    /// What the robot is doing.
    pub fn state(&self) -> (r: &BehaviorState)
        ensures
            r@ == self@.mode,
    {
        &self.state
    }

    /// Whether the siren is to sound.
    pub fn siren_on(&self) -> (r: bool)
        ensures
            r == self@.siren_on,
    {
        self.siren_on
    }

    /// How long (ns) the current state has lasted.
    pub fn time_in_state(&self, now: u64) -> (r: u64)
        ensures
            r == since(now, self@.entered_at),
    {
        elapsed(now, self.state_entered_at)
    }

    /// Takes in a manual velocity.
    pub fn set_manual_velocity(&mut self, manual: Twist)
        ensures
            final(self)@ == (Machine { manual, ..old(self)@ }),
    {
        self.manual_vel = manual;
    }

    fn enter(&mut self, state: BehaviorState, now: u64)
        ensures
            final(self)@ == old(self)@.entering(state@, now),
    {
        self.state = state;
        self.state_entered_at = now;
    }

    /// Stops a robot that tilts too far.  Returns the velocity to command.
    fn abort(&mut self, now: u64) -> (r: Twist)
        ensures
            r == no_motion(),
            final(self)@ == (Machine {
                siren_on: false,
                ..old(self)@.entering(Mode::EmergencyStop { reason: "tilt"@ }, now)
            }),
    {
        self.siren_on = false;
        self.enter(BehaviorState::EmergencyStop { reason: "tilt".to_owned() }, now);
        zero_twist()
    }

    /// Carries out an operator command; one that does not apply is ignored.
    pub fn transition(&mut self, cmd: &str, now: u64)
        requires
            old(self)@.wf(),
        ensures
            final(self)@ == after_command(old(self)@, cmd@, now),
            final(self)@.wf(),
    {
        let word: &str = trim(cmd);
        let next: Option<BehaviorState> = if same_text(word, "stand") {
            Some(BehaviorState::StandUp)
        } else if same_text(word, "trot") {
            Some(BehaviorState::Trot)
        } else if same_text(word, "patrol") {
            Some(BehaviorState::Patrol { waypoint_index: 0 })
        } else if same_text(word, "manual") {
            Some(BehaviorState::Manual)
        } else if same_text(word, "idle") {
            Some(BehaviorState::Idle)
        } else if same_text(word, "estop") {
            Some(BehaviorState::EmergencyStop { reason: "operator command".to_owned() })
        } else if same_text(word, "clear") {
            match &self.state {
                BehaviorState::EmergencyStop { .. } => Some(BehaviorState::Idle),
                BehaviorState::Apprehend => Some(BehaviorState::Patrol { waypoint_index: 0 }),
                _ => None,
            }
        } else {
            None
        };
        if let Some(state) = next {
            self.siren_on = false;
            self.enter(state, now);
        }
    }

    /// Called every control tick.  Returns the velocity to command.
    pub fn tick(&mut self, sensors: &SensorState, intruder: &IntruderState, now: u64) -> (r: Twist)
        requires
            old(self)@.wf(),
        ensures
            r == commanded(old(self)@, *sensors, *intruder, now),
            final(self)@ == after_tick(old(self)@, *sensors, *intruder, now),
            final(self)@.wf(),
    {
        let age: u64 = elapsed(now, self.state_entered_at);
        let half: Binary64 = Binary64::from_bits(INTRUDER_STOPPED_THRESHOLD);
        match &self.state {
            BehaviorState::Idle => {
                self.siren_on = false;
                if intruder.detected {
                    self.enter(BehaviorState::Pursue, now);
                    return compute_pursuit_twist(intruder);
                }
                zero_twist()
            },
            BehaviorState::StandUp => {
                if !sensors.check_tilt() {
                    return self.abort(now);
                }
                if intruder.detected {
                    self.enter(BehaviorState::Pursue, now);
                    return compute_pursuit_twist(intruder);
                }
                if sensors.is_stable {
                    self.enter(BehaviorState::Trot, now);
                }
                zero_twist()
            },
            BehaviorState::Trot => {
                if !sensors.check_tilt() {
                    return self.abort(now);
                }
                if intruder.detected {
                    self.enter(BehaviorState::Pursue, now);
                    return compute_pursuit_twist(intruder);
                }
                make_twist(self.target_vel_x, self.target_ang_z)
            },
            BehaviorState::Patrol { waypoint_index } => {
                let index: usize = *waypoint_index;
                if intruder.detected {
                    self.enter(BehaviorState::Pursue, now);
                    return compute_pursuit_twist(intruder);
                }
                let waypoint: Waypoint = self.patrol_waypoints[index];
                if age > waypoint.duration {
                    let count: usize = self.patrol_waypoints.len();
                    let following: usize = (index + 1) % count;
                    self.enter(BehaviorState::Patrol { waypoint_index: following }, now);
                }
                make_twist(
                    Binary64::from_bits(PATROL_SPEED),
                    waypoint.yaw.times(Binary64::from_bits(PATROL_YAW_GAIN)),
                )
            },
            BehaviorState::Pursue => {
                if !intruder.detected {
                    if intruder.time_since_lost.gt(Binary64::from_bits(LOST_TIMEOUT_SECS)) {
                        self.enter(BehaviorState::Patrol { waypoint_index: 0 }, now);
                        return make_twist(Binary64::from_bits(0), Binary64::from_bits(SEARCH_RATE));
                    }
                    return make_twist(Binary64::from_bits(LOST_SPEED), Binary64::from_bits(0));
                }
                let stopped: bool = intruder.velocity.abs().lt(half);
                if intruder.distance.lt(Binary64::from_bits(APPREHEND_DISTANCE)) && stopped {
                    self.enter(BehaviorState::Apprehend, now);
                    self.siren_on = true;
                    return zero_twist();
                }
                compute_pursuit_twist(intruder)
            },
            BehaviorState::Apprehend => {
                self.siren_on = true;
                if age > DWELL && intruder.detected && intruder.velocity.abs().gt(half) {
                    self.siren_on = false;
                    self.enter(BehaviorState::Pursue, now);
                    return compute_pursuit_twist(intruder);
                }
                if !intruder.detected && intruder.time_since_lost.gt(Binary64::from_bits(LOST_TIMEOUT_SECS)) {
                    self.siren_on = false;
                    self.enter(BehaviorState::Patrol { waypoint_index: 0 }, now);
                    return zero_twist();
                }
                if intruder.detected && intruder.bearing.abs().gt(Binary64::from_bits(HOLD_BEARING)) {
                    make_twist(Binary64::from_bits(0), intruder.bearing.times(Binary64::from_bits(HALF)))
                } else {
                    zero_twist()
                }
            },
            BehaviorState::EmergencyStop { .. } => {
                self.siren_on = false;
                if sensors.check_tilt() && age > DWELL {
                    self.enter(BehaviorState::Idle, now);
                }
                zero_twist()
            },
            BehaviorState::Manual => {
                self.siren_on = false;
                self.manual_vel
            },
        }
    }
}

/// What one turn of the control loop publishes.
pub struct ControlOutput {
    /// The velocity command.
    pub twist: Twist,
    /// The name of the state and the siren command; none while the robot settles.
    pub report: Option<(&'static str, bool)>,
}

/// One turn of the control loop.  For the first seconds after the start the robot holds
/// still, whatever it was told or sees.
pub fn control_step(
    fsm: &mut BehaviorFsm,
    sensors: &SensorState,
    intruder: &IntruderState,
    started_at: u64,
    now: u64,
) -> (r: ControlOutput)
    requires
        old(fsm)@.wf(),
    ensures
        final(fsm)@.wf(),
        since(now, started_at) < SETTLING ==> {
            &&& final(fsm)@ == old(fsm)@
            &&& r.twist == no_motion()
            &&& r.report is None
        },
        since(now, started_at) >= SETTLING ==> {
            &&& final(fsm)@ == after_tick(old(fsm)@, *sensors, aged(*intruder, now), now)
            &&& r.twist == commanded(old(fsm)@, *sensors, aged(*intruder, now), now)
            &&& r.report matches Some((label, siren_on))
            &&& label@ == label_of(final(fsm)@.mode)
            &&& siren_on == final(fsm)@.siren_on
        },
{
    if elapsed(now, started_at) < SETTLING {
        return ControlOutput { twist: zero_twist(), report: None };
    }
    let snapshot: IntruderState = intruder.snapshot(now);
    let twist: Twist = fsm.tick(sensors, &snapshot, now);
    ControlOutput { twist, report: Some((fsm.state().label(), fsm.siren_on())) }
}

} // verus!
