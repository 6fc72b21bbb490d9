//! The trot: a gait scheduler and the inverse kinematics of a leg.
//!
//! Joint order: hip, thigh and calf of the front left, front right, rear left and rear
//! right leg.  Front left and rear right swing together, and so do the other two.

use vstd::prelude::*;
use crate::binary64::arithmetic::{difference, opposite, product, quotient, sum};
use crate::binary64::convert::fraction;
use crate::binary64::model::Binary64;
use crate::binary64::order::{absolute, clamped, greatest, less};
use crate::binary64::root::square_root;
use crate::geometry::zero;

pub mod laws;
pub mod workspace;
pub mod symmetry;
pub mod cycle;
pub mod travel;
pub mod feet;
pub mod angles;
pub mod knee;
pub mod trajectory;
pub mod rhythm;
pub mod cosines;

verus! {

/// Length (m) of the thigh: 0.213.
pub const L1: u64 = 0x3FCB_4395_8106_24DD;

/// Length (m) of the calf: 0.213.
pub const L2: u64 = 0x3FCB_4395_8106_24DD;

/// Distance (m) of a foot from the line below its hip: 0.08.
pub const HIP_Y_OFFSET: u64 = 0x3FB4_7AE1_47AE_147B;

/// Height (m) of the body over the ground: 0.3.
pub const NOMINAL_HEIGHT: u64 = 0x3FD3_3333_3333_3333;

/// Height (m) of a step: 0.06.
pub const STEP_HEIGHT: u64 = 0x3FAE_B851_EB85_1EB8;

/// Share of a cycle that a foot stands: 0.5.
pub const DUTY_CYCLE: u64 = 0x3FE0_0000_0000_0000;

/// Distance (m) to the edge of the workspace that is not used: 0.01.
pub const WORKSPACE_MARGIN: u64 = 0x3F84_7AE1_47AE_147B;

/// The least height (m) that an arc tangent is taken over: 0.000001.
pub const TINY: u64 = 0x3EB0_C6F7_A0B5_ED8D;

/// The velocity beyond which the robot counts as moving: 0.01.
pub const MOVING_THRESHOLD: u64 = 0x3F84_7AE1_47AE_147B;

/// Weight of the turn rate in the speed: 0.2.
pub const TURN_WEIGHT: u64 = 0x3FC9_9999_9999_999A;

/// Lowest cycle frequency (Hz): 1.
pub const MIN_FREQUENCY: u64 = 0x3FF0_0000_0000_0000;

/// Highest cycle frequency (Hz): 4.
pub const MAX_FREQUENCY: u64 = 0x4010_0000_0000_0000;

/// Cycle frequency (Hz) before the first command: 2.
pub const START_FREQUENCY: u64 = 0x4000_0000_0000_0000;

/// Cycle frequency (Hz) per speed: 5.
pub const FREQUENCY_GAIN: u64 = 0x4014_0000_0000_0000;

/// Foot travel (m) per forward velocity: 0.1.
pub const TRAVEL: u64 = 0x3FB9_9999_9999_999A;

/// Foot travel (m) per turn rate: 0.05.
pub const TURN_TRAVEL: u64 = 0x3FA9_9999_9999_999A;

/// One half.
pub const HALF: u64 = 0x3FE0_0000_0000_0000;

/// One.
pub const UNITY: u64 = 0x3FF0_0000_0000_0000;

/// Two.
pub const TWO: u64 = 0x4000_0000_0000_0000;

/// The double nearest to pi.
pub const PI: u64 = 0x4009_21FB_5444_2D18;

/// A leg: front or rear, left or right.
#[derive(Clone, Copy, Debug, PartialEq, Eq, Structural)]
pub enum Leg {
    FL,
    FR,
    RL,
    RR,
}

/// A foot position (m) seen from the hip.
#[derive(Clone, Copy, Debug, PartialEq, Eq, Structural)]
pub struct FootTarget {
    /// Outward.
    pub lateral: Binary64,
    pub forward: Binary64,
    /// Downward.
    pub down: Binary64,
}

/// The arguments of the arc functions that give the angles of a leg.
#[derive(Clone, Copy, Debug)]
pub struct IkTerms {
    /// Opposite and adjacent side of the hip angle.
    pub hip: (Binary64, Binary64),
    /// Opposite and adjacent side of the angle at which the foot lies ahead.
    pub ahead: (Binary64, Binary64),
    /// Cosine of the knee's bend.
    pub knee: Binary64,
    /// Cosine of the angle between the thigh and the line to the foot.
    pub thigh: Binary64,
}

/// A foot straight below the hip at the nominal height.
pub open spec fn stand_target() -> FootTarget {
    FootTarget { lateral: zero(), forward: zero(), down: Binary64 { bits: NOMINAL_HEIGHT } }
}

/// The distance from the hip to the foot, seen from the side.
pub open spec fn reach(target: FootTarget) -> Binary64 {
    square_root(sum(product(target.forward, target.forward), product(target.down, target.down)))
}

/// The longest usable reach.
pub open spec fn max_reach() -> Binary64 {
    difference(sum(Binary64 { bits: L1 }, Binary64 { bits: L2 }), Binary64 { bits: WORKSPACE_MARGIN })
}

/// Whether a foot position lies outside the workspace.
pub open spec fn out_of_reach(target: FootTarget) -> bool {
    less(reach(target), Binary64 { bits: WORKSPACE_MARGIN }) || less(max_reach(), reach(target))
}

/// `a`, held within -1 and 1.
pub open spec fn cosine(a: Binary64) -> Binary64 {
    let one = Binary64 { bits: UNITY };
    clamped(a, opposite(one), one)
}

/// The arguments of the arc functions for a foot position, by the law of cosines.
pub open spec fn ik_terms_for(target: FootTarget) -> IkTerms {
    let l1 = Binary64 { bits: L1 };
    let l2 = Binary64 { bits: L2 };
    let two = Binary64 { bits: TWO };
    let r = reach(target);
    let height = greatest(absolute(target.down), Binary64 { bits: TINY });
    IkTerms {
        hip: (target.lateral, height),
        ahead: (target.forward, height),
        knee: cosine(
            quotient(
                difference(difference(product(r, r), product(l1, l1)), product(l2, l2)),
                product(product(two, l1), l2),
            ),
        ),
        thigh: cosine(
            quotient(
                difference(sum(product(r, r), product(l1, l1)), product(l2, l2)),
                product(product(two, r), l1),
            ),
        ),
    }
}

/// The arguments of the arc functions: those of the stand pose where the foot position
/// cannot be reached.
pub open spec fn ik_terms_of(target: FootTarget) -> IkTerms {
    if out_of_reach(target) {
        ik_terms_for(stand_target())
    } else {
        ik_terms_for(target)
    }
}

/// Hip, thigh and calf angle, put together from the results of the arc functions.
pub open spec fn pose_of(hip: Binary64, ahead: Binary64, knee: Binary64, thigh: Binary64) -> (
    Binary64,
    Binary64,
    Binary64,
) {
    (hip, sum(opposite(ahead), thigh), opposite(knee))
}

/// Whether `pose` is what the arc functions give for a foot position.
pub open spec fn solves_ik<A: Fn(Binary64, Binary64) -> Binary64, C: Fn(Binary64) -> Binary64>(
    atan2: A,
    acos: C,
    target: FootTarget,
    pose: (Binary64, Binary64, Binary64),
) -> bool {
    let terms = ik_terms_of(target);
    exists|hip: Binary64, ahead: Binary64, knee: Binary64, thigh: Binary64|
        {
            &&& #[trigger] call_ensures(atan2, terms.hip, hip)
            &&& #[trigger] call_ensures(atan2, terms.ahead, ahead)
            &&& #[trigger] call_ensures(acos, (terms.knee,), knee)
            &&& #[trigger] call_ensures(acos, (terms.thigh,), thigh)
            &&& pose == pose_of(hip, ahead, knee, thigh)
        }
}

/// The arguments of the arc functions for a foot position.
pub fn ik_terms(target: FootTarget) -> (r: IkTerms)
    ensures
        r == ik_terms_of(target),
{
    let l1: Binary64 = Binary64::from_bits(L1);
    let l2: Binary64 = Binary64::from_bits(L2);
    let two: Binary64 = Binary64::from_bits(TWO);
    let one: Binary64 = Binary64::from_bits(UNITY);
    let margin: Binary64 = Binary64::from_bits(WORKSPACE_MARGIN);
    let length: Binary64 = foot_distance(target);
    let longest: Binary64 = l1.plus(l2).minus(margin);
    let target: FootTarget = if length.lt(margin) || length.gt(longest) {
        FootTarget {
            lateral: Binary64::from_bits(0),
            forward: Binary64::from_bits(0),
            down: Binary64::from_bits(NOMINAL_HEIGHT),
        }
    } else {
        target
    };
    let r: Binary64 = foot_distance(target);
    let height: Binary64 = target.down.abs().max(Binary64::from_bits(TINY));
    let knee: Binary64 = r.times(r).minus(l1.times(l1)).minus(l2.times(l2)).over(two.times(l1).times(l2));
    let thigh: Binary64 = r.times(r).plus(l1.times(l1)).minus(l2.times(l2)).over(two.times(r).times(l1));
    IkTerms {
        hip: (target.lateral, height),
        ahead: (target.forward, height),
        knee: knee.clamp(one.negated(), one),
        thigh: thigh.clamp(one.negated(), one),
    }
}

fn foot_distance(target: FootTarget) -> (r: Binary64)
    ensures
        r == reach(target),
{
    target.forward.times(target.forward).plus(target.down.times(target.down)).sqrt()
}

/// Hip, thigh and calf angle, put together from the results of the arc functions.
pub fn leg_pose(hip: Binary64, ahead: Binary64, knee: Binary64, thigh: Binary64) -> (r: (Binary64, Binary64, Binary64))
    ensures
        r == pose_of(hip, ahead, knee, thigh),
{
    (hip, ahead.negated().plus(thigh), knee.negated())
}

/// Hip, thigh and calf angle (rad) of a leg whose foot is at the given position; the
/// stand pose where that cannot be reached.  `atan2` and `acos` are the arc functions of
/// the platform's mathematics library.
pub fn solve_ik<A: Fn(Binary64, Binary64) -> Binary64, C: Fn(Binary64) -> Binary64>(
    lateral: Binary64,
    forward: Binary64,
    down: Binary64,
    atan2: &A,
    acos: &C,
) -> (r: (Binary64, Binary64, Binary64))
    requires
        forall|y: Binary64, x: Binary64| call_requires(*atan2, (y, x)),
        forall|v: Binary64| call_requires(*acos, (v,)),
    ensures
        solves_ik(*atan2, *acos, FootTarget { lateral, forward, down }, r),
{
    let terms: IkTerms = ik_terms(FootTarget { lateral, forward, down });
    let hip: Binary64 = (*atan2)(terms.hip.0, terms.hip.1);
    let knee: Binary64 = (*acos)(terms.knee);
    let ahead: Binary64 = (*atan2)(terms.ahead.0, terms.ahead.1);
    let thigh: Binary64 = (*acos)(terms.thigh);
    leg_pose(hip, ahead, knee, thigh)
}

/// The state of the gait as a mathematical value.
pub struct Gait {
    /// Place in the cycle, 0 to 1.
    pub phase: Binary64,
    /// Cycles per second.
    pub freq: Binary64,
    /// Forward velocity (m/s).
    pub vel_x: Binary64,
    /// Turn rate (rad/s).
    pub ang_z: Binary64,
}

/// Whether the commanded velocity is large enough to step.
pub open spec fn steps(vel_x: Binary64, ang_z: Binary64) -> bool {
    let threshold = Binary64 { bits: MOVING_THRESHOLD };
    less(threshold, absolute(vel_x)) || less(threshold, absolute(ang_z))
}

/// The cycle frequency for a commanded velocity.
pub open spec fn frequency(vel_x: Binary64, ang_z: Binary64) -> Binary64 {
    let speed = greatest(absolute(vel_x), product(absolute(ang_z), Binary64 { bits: TURN_WEIGHT }));
    clamped(
        sum(Binary64 { bits: UNITY }, product(speed, Binary64 { bits: FREQUENCY_GAIN })),
        Binary64 { bits: MIN_FREQUENCY },
        Binary64 { bits: MAX_FREQUENCY },
    )
}

/// The place in the cycle `dt` seconds later; the start of the cycle for a robot that
/// stands.
pub open spec fn phase_after(g: Gait, dt: Binary64) -> Binary64 {
    if steps(g.vel_x, g.ang_z) {
        fraction(sum(g.phase, product(g.freq, dt)))
    } else {
        zero()
    }
}

/// How far a leg is ahead in the cycle.
pub open spec fn phase_offset(leg: Leg) -> Binary64 {
    match leg {
        Leg::FL | Leg::RR => zero(),
        Leg::FR | Leg::RL => Binary64 { bits: HALF },
    }
}

/// 1 for a left leg, -1 for a right one.
pub open spec fn lateral_sign(leg: Leg) -> Binary64 {
    match leg {
        Leg::FL | Leg::RL => Binary64 { bits: UNITY },
        Leg::FR | Leg::RR => opposite(Binary64 { bits: UNITY }),
    }
}

/// The place of a leg in its own cycle.
pub open spec fn leg_phase(phase: Binary64, leg: Leg) -> Binary64 {
    fraction(sum(phase, phase_offset(leg)))
}

/// Whether a leg stands at a place in its cycle.
pub open spec fn in_stance(place: Binary64) -> bool {
    less(place, Binary64 { bits: DUTY_CYCLE })
}

/// How far a stance has come, 0 to 1.
pub open spec fn stance_progress(place: Binary64) -> Binary64 {
    quotient(place, Binary64 { bits: DUTY_CYCLE })
}

/// How far a swing has come, 0 to 1.
pub open spec fn swing_progress(place: Binary64) -> Binary64 {
    quotient(
        difference(place, Binary64 { bits: DUTY_CYCLE }),
        difference(Binary64 { bits: UNITY }, Binary64 { bits: DUTY_CYCLE }),
    )
}

/// How far ahead a foot is at a distance `d` from the middle of its travel; the two
/// sides of the body turn against each other.
pub open spec fn foot_ahead(g: Gait, leg: Leg, d: Binary64) -> Binary64 {
    difference(
        product(product(g.vel_x, d), Binary64 { bits: TRAVEL }),
        product(product(product(lateral_sign(leg), g.ang_z), Binary64 { bits: TURN_TRAVEL }), d),
    )
}

/// How far a foot is to the side.
pub open spec fn foot_aside(leg: Leg) -> Binary64 {
    product(lateral_sign(leg), Binary64 { bits: HIP_Y_OFFSET })
}

/// The foot position of a leg of a standing robot.
pub open spec fn rest_target(leg: Leg) -> FootTarget {
    FootTarget { lateral: foot_aside(leg), forward: zero(), down: Binary64 { bits: NOMINAL_HEIGHT } }
}

/// The foot position during a stance: on the ground, sweeping back.
pub open spec fn stance_target(g: Gait, leg: Leg, place: Binary64) -> FootTarget {
    let d = difference(Binary64 { bits: HALF }, stance_progress(place));
    FootTarget { lateral: foot_aside(leg), forward: foot_ahead(g, leg, d), down: Binary64 { bits: NOMINAL_HEIGHT } }
}

/// The angle whose sine lifts the foot during a swing.
pub open spec fn swing_angle(place: Binary64) -> Binary64 {
    product(Binary64 { bits: PI }, swing_progress(place))
}

/// The foot position during a swing, lifted in proportion to a sine and moving forward.
pub open spec fn swing_target(g: Gait, leg: Leg, place: Binary64, sine: Binary64) -> FootTarget {
    let d = difference(swing_progress(place), Binary64 { bits: HALF });
    FootTarget {
        lateral: foot_aside(leg),
        forward: foot_ahead(g, leg, d),
        down: difference(Binary64 { bits: NOMINAL_HEIGHT }, product(Binary64 { bits: STEP_HEIGHT }, sine)),
    }
}

/// Whether `target` is the foot position of a leg, given what `sin` yields.
pub open spec fn places_foot<S: Fn(Binary64) -> Binary64>(sin: S, g: Gait, leg: Leg, target: FootTarget) -> bool {
    let place = leg_phase(g.phase, leg);
    if !steps(g.vel_x, g.ang_z) {
        target == rest_target(leg)
    } else if in_stance(place) {
        target == stance_target(g, leg, place)
    } else {
        exists|sine: Binary64| #[trigger]
            call_ensures(sin, (swing_angle(place),), sine) && target == swing_target(g, leg, place, sine)
    }
}

/// Whether `pose` is the pose of a leg, given what the platform's functions yield.
pub open spec fn poses_leg<
    S: Fn(Binary64) -> Binary64,
    A: Fn(Binary64, Binary64) -> Binary64,
    C: Fn(Binary64) -> Binary64,
>(sin: S, atan2: A, acos: C, g: Gait, leg: Leg, pose: (Binary64, Binary64, Binary64)) -> bool {
    exists|target: FootTarget| #[trigger] places_foot(sin, g, leg, target) && solves_ik(atan2, acos, target, pose)
}

impl Leg {
    /// How far the leg is ahead in the cycle.
    pub fn phase_offset(self) -> (r: Binary64)
        ensures
            r == phase_offset(self),
    {
        match self {
            Leg::FL | Leg::RR => Binary64::from_bits(0),
            Leg::FR | Leg::RL => Binary64::from_bits(HALF),
        }
    }

    /// 1 for a left leg, -1 for a right one.
    pub fn lateral_sign(self) -> (r: Binary64)
        ensures
            r == lateral_sign(self),
    {
        match self {
            Leg::FL | Leg::RL => Binary64::from_bits(UNITY),
            Leg::FR | Leg::RR => Binary64::from_bits(UNITY).negated(),
        }
    }
}

/// The trot gait.
pub struct GaitController {
    phase: Binary64,
    freq: Binary64,
    vel_x: Binary64,
    ang_z: Binary64,
}

impl GaitController {
    /// The gait as a mathematical value.
    pub closed spec fn view(&self) -> Gait {
        Gait { phase: self.phase, freq: self.freq, vel_x: self.vel_x, ang_z: self.ang_z }
    }

    /// A gait at the start of its cycle, without a command.
    pub fn new() -> (r: Self)
        ensures
            r@ == (Gait {
                phase: zero(),
                freq: Binary64 { bits: START_FREQUENCY },
                vel_x: zero(),
                ang_z: zero(),
            }),
    {
        GaitController {
            phase: Binary64::from_bits(0),
            freq: Binary64::from_bits(START_FREQUENCY),
            vel_x: Binary64::from_bits(0),
            ang_z: Binary64::from_bits(0),
        }
    }

    /// The place in the cycle.
    pub fn phase(&self) -> (r: Binary64)
        ensures
            r == self@.phase,
    {
        self.phase
    }

    /// The cycle frequency.
    pub fn frequency(&self) -> (r: Binary64)
        ensures
            r == self@.freq,
    {
        self.freq
    }

    /// Takes in a commanded velocity; the faster, the quicker the steps.
    pub fn update_command(&mut self, vel_x: Binary64, ang_z: Binary64)
        ensures
            final(self)@ == (Gait { vel_x, ang_z, freq: frequency(vel_x, ang_z), ..old(self)@ }),
    {
        self.vel_x = vel_x;
        self.ang_z = ang_z;
        let speed: Binary64 = vel_x.abs().max(ang_z.abs().times(Binary64::from_bits(TURN_WEIGHT)));
        self.freq = Binary64::from_bits(UNITY).plus(speed.times(Binary64::from_bits(FREQUENCY_GAIN))).clamp(
            Binary64::from_bits(MIN_FREQUENCY),
            Binary64::from_bits(MAX_FREQUENCY),
        );
    }

    fn is_moving(&self) -> (r: bool)
        ensures
            r == steps(self@.vel_x, self@.ang_z),
    {
        let threshold: Binary64 = Binary64::from_bits(MOVING_THRESHOLD);
        self.vel_x.abs().gt(threshold) || self.ang_z.abs().gt(threshold)
    }

    fn ahead(&self, leg: Leg, d: Binary64) -> (r: Binary64)
        ensures
            r == foot_ahead(self@, leg, d),
    {
        let turn: Binary64 = leg.lateral_sign().times(self.ang_z).times(Binary64::from_bits(TURN_TRAVEL)).times(d);
        self.vel_x.times(d).times(Binary64::from_bits(TRAVEL)).minus(turn)
    }

    /// The foot position of a leg.  `sin` is the sine of the platform's mathematics
    /// library.
    pub fn foot_target<S: Fn(Binary64) -> Binary64>(&self, leg: Leg, sin: &S) -> (r: FootTarget)
        requires
            forall|v: Binary64| call_requires(*sin, (v,)),
        ensures
            places_foot(*sin, self@, leg, r),
    {
        let one: Binary64 = Binary64::from_bits(UNITY);
        let half: Binary64 = Binary64::from_bits(HALF);
        let duty: Binary64 = Binary64::from_bits(DUTY_CYCLE);
        let nominal: Binary64 = Binary64::from_bits(NOMINAL_HEIGHT);
        let place: Binary64 = self.phase.plus(leg.phase_offset()).fract();
        let lateral: Binary64 = leg.lateral_sign().times(Binary64::from_bits(HIP_Y_OFFSET));
        if !self.is_moving() {
            return FootTarget { lateral, forward: Binary64::from_bits(0), down: nominal };
        }
        if place.lt(duty) {
            let t: Binary64 = place.over(duty);
            return FootTarget { lateral, forward: self.ahead(leg, half.minus(t)), down: nominal };
        }
        let t: Binary64 = place.minus(duty).over(one.minus(duty));
        let sine: Binary64 = (*sin)(Binary64::from_bits(PI).times(t));
        assert(call_ensures(*sin, (swing_angle(place),), sine));
        let down: Binary64 = nominal.minus(Binary64::from_bits(STEP_HEIGHT).times(sine));
        FootTarget { lateral, forward: self.ahead(leg, t.minus(half)), down }
    }

    fn pose<S: Fn(Binary64) -> Binary64, A: Fn(Binary64, Binary64) -> Binary64, C: Fn(Binary64) -> Binary64>(
        &self,
        leg: Leg,
        sin: &S,
        atan2: &A,
        acos: &C,
    ) -> (r: (Binary64, Binary64, Binary64))
        requires
            forall|v: Binary64| call_requires(*sin, (v,)),
            forall|y: Binary64, x: Binary64| call_requires(*atan2, (y, x)),
            forall|v: Binary64| call_requires(*acos, (v,)),
        ensures
            poses_leg(*sin, *atan2, *acos, self@, leg, r),
    {
        let target: FootTarget = self.foot_target(leg, sin);
        solve_ik(target.lateral, target.forward, target.down, atan2, acos)
    }

    /// Advances the gait by `dt` seconds and computes the twelve joint angles.  `sin`,
    /// `atan2` and `acos` are functions of the platform's mathematics library.
    pub fn step<S: Fn(Binary64) -> Binary64, A: Fn(Binary64, Binary64) -> Binary64, C: Fn(Binary64) -> Binary64>(
        &mut self,
        dt: Binary64,
        sin: &S,
        atan2: &A,
        acos: &C,
    ) -> (r: [Binary64; 12])
        requires
            forall|v: Binary64| call_requires(*sin, (v,)),
            forall|y: Binary64, x: Binary64| call_requires(*atan2, (y, x)),
            forall|v: Binary64| call_requires(*acos, (v,)),
        ensures
            final(self)@ == (Gait { phase: phase_after(old(self)@, dt), ..old(self)@ }),
            poses_leg(*sin, *atan2, *acos, final(self)@, Leg::FL, (r@[0], r@[1], r@[2])),
            poses_leg(*sin, *atan2, *acos, final(self)@, Leg::FR, (r@[3], r@[4], r@[5])),
            poses_leg(*sin, *atan2, *acos, final(self)@, Leg::RL, (r@[6], r@[7], r@[8])),
            poses_leg(*sin, *atan2, *acos, final(self)@, Leg::RR, (r@[9], r@[10], r@[11])),
    {
        if self.is_moving() {
            self.phase = self.phase.plus(self.freq.times(dt)).fract();
        } else {
            self.phase = Binary64::from_bits(0);
        }
        let fl: (Binary64, Binary64, Binary64) = self.pose(Leg::FL, sin, atan2, acos);
        let fr: (Binary64, Binary64, Binary64) = self.pose(Leg::FR, sin, atan2, acos);
        let rl: (Binary64, Binary64, Binary64) = self.pose(Leg::RL, sin, atan2, acos);
        let rr: (Binary64, Binary64, Binary64) = self.pose(Leg::RR, sin, atan2, acos);
        [fl.0, fl.1, fl.2, fr.0, fr.1, fr.2, rl.0, rl.1, rl.2, rr.0, rr.1, rr.2]
    }
}

} // verus!
