//! Velocity commands.

use vstd::prelude::*;
use crate::binary64::model::Binary64;

verus! {

/// Three coordinates.
#[derive(Clone, Copy, Debug, PartialEq, Eq, Structural)]
pub struct Vector3 {
    pub x: Binary64,
    pub y: Binary64,
    pub z: Binary64,
}

/// A linear and an angular velocity, in the frame of the body.
#[derive(Clone, Copy, Debug, PartialEq, Eq, Structural)]
pub struct Twist {
    pub linear: Vector3,
    pub angular: Vector3,
}

/// Positive zero.
pub open spec fn zero() -> Binary64 {
    Binary64 { bits: 0 }
}

/// The command that stops the body.
pub open spec fn no_motion() -> Twist {
    planar(zero(), zero())
}

/// The command that moves the body forward and turns it about its vertical axis.
pub open spec fn planar(lin_x: Binary64, ang_z: Binary64) -> Twist {
    Twist {
        linear: Vector3 { x: lin_x, y: zero(), z: zero() },
        angular: Vector3 { x: zero(), y: zero(), z: ang_z },
    }
}

/// The command that stops the body.
pub fn zero_twist() -> (r: Twist)
    ensures
        r == no_motion(),
{
    make_twist(Binary64::from_bits(0), Binary64::from_bits(0))
}

/// The command that moves the body forward and turns it about its vertical axis.
pub fn make_twist(lin_x: Binary64, ang_z: Binary64) -> (r: Twist)
    ensures
        r == planar(lin_x, ang_z),
{
    let zero: Binary64 = Binary64::from_bits(0);
    Twist {
        linear: Vector3 { x: lin_x, y: zero, z: zero },
        angular: Vector3 { x: zero, y: zero, z: ang_z },
    }
}

/// Whether every one of three coordinates is positive zero.
pub open spec fn all_zero(v: Vector3) -> bool {
    v.x.bits == 0 && v.y.bits == 0 && v.z.bits == 0
}

/// Whether a command tells the body to stay where it is.
pub open spec fn rests(t: Twist) -> bool {
    all_zero(t.linear) && all_zero(t.angular)
}

/// A command of no motion, and only that, is zero in all its coordinates; a planar command
/// is zero in all but forward speed and turn rate.
pub proof fn law_planar_commands(lin_x: Binary64, ang_z: Binary64, t: Twist)
    ensures
        t == no_motion() <==> rests(t),
        planar(lin_x, ang_z).linear.x == lin_x,
        planar(lin_x, ang_z).linear.y.bits == 0 && planar(lin_x, ang_z).linear.z.bits == 0,
        planar(lin_x, ang_z).angular.x.bits == 0 && planar(lin_x, ang_z).angular.y.bits == 0,
        planar(lin_x, ang_z).angular.z == ang_z,
{
}

} // verus!
