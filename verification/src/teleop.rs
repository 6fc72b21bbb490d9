//! Driving by keyboard.

use vstd::prelude::*;
use crate::binary64::arithmetic::{difference, opposite, sum};
use crate::binary64::model::Binary64;
use crate::binary64::order::{greatest, least};
use crate::geometry::{make_twist, planar, zero, Twist};

pub mod laws;

verus! {

/// Forward velocity (m/s) per key press: 0.05.
pub const VEL_STEP: u64 = 0x3FA9_9999_9999_999A;

/// Turn rate (rad/s) per key press: 0.1.
pub const ANG_STEP: u64 = 0x3FB9_9999_9999_999A;

/// Highest forward velocity (m/s): 0.6.
pub const VEL_MAX: u64 = 0x3FE3_3333_3333_3333;

/// Highest turn rate (rad/s): 1.5.
pub const ANG_MAX: u64 = 0x3FF8_0000_0000_0000;

/// The key w.
pub const KEY_FORWARD: u8 = 0x77;

/// The key s.
pub const KEY_BACKWARD: u8 = 0x73;

/// The key a.
pub const KEY_LEFT: u8 = 0x61;

/// The key d.
pub const KEY_RIGHT: u8 = 0x64;

/// The key space.
pub const KEY_STOP: u8 = 0x20;

/// The key 1.
pub const KEY_STAND: u8 = 0x31;

/// The key 2.
pub const KEY_TROT: u8 = 0x32;

/// The key 3.
pub const KEY_PATROL: u8 = 0x33;

/// The key 0.
pub const KEY_IDLE: u8 = 0x30;

/// The key m.
pub const KEY_MANUAL: u8 = 0x6D;

/// The key e.
pub const KEY_ESTOP: u8 = 0x65;

/// The key c.
pub const KEY_CLEAR: u8 = 0x63;

/// The key q.
pub const KEY_QUIT: u8 = 0x71;

/// The escape key.
pub const KEY_ESCAPE: u8 = 0x1B;

/// The velocity that the keys have set.
#[derive(Clone, Copy, Debug, PartialEq, Eq, Structural)]
pub struct TeleopState {
    /// Forward velocity (m/s).
    pub lin_x: Binary64,
    /// Turn rate (rad/s).
    pub ang_z: Binary64,
}

/// What a key press leads to.
#[derive(Clone, Copy, Debug)]
pub enum KeyAction {
    /// Stop reading keys.
    Quit,
    /// Publish a velocity and, for a mode key, a behavior command.
    Publish { command: Option<&'static str>, twist: Twist },
}

/// The behavior command of a mode key.
pub open spec fn key_command(key: u8) -> Option<Seq<char>> {
    if key == KEY_STAND {
        Some("stand"@)
    } else if key == KEY_TROT {
        Some("trot"@)
    } else if key == KEY_PATROL {
        Some("patrol"@)
    } else if key == KEY_IDLE {
        Some("idle"@)
    } else if key == KEY_MANUAL {
        Some("manual"@)
    } else if key == KEY_ESTOP {
        Some("estop"@)
    } else if key == KEY_CLEAR {
        Some("clear"@)
    } else {
        None
    }
}

/// `a`, a step more, but no more than `most`.
pub open spec fn raised(a: Binary64, step: u64, most: u64) -> Binary64 {
    least(sum(a, Binary64 { bits: step }), Binary64 { bits: most })
}

/// `a`, a step less, but no less than the opposite of `most`.
pub open spec fn lowered(a: Binary64, step: u64, most: u64) -> Binary64 {
    greatest(difference(a, Binary64 { bits: step }), opposite(Binary64 { bits: most }))
}

/// The velocity after a key: w and s change the speed, a and d the turn rate, space
/// stops.
pub open spec fn after_key(s: TeleopState, key: u8) -> TeleopState {
    if key == KEY_FORWARD {
        TeleopState { lin_x: raised(s.lin_x, VEL_STEP, VEL_MAX), ..s }
    } else if key == KEY_BACKWARD {
        TeleopState { lin_x: lowered(s.lin_x, VEL_STEP, VEL_MAX), ..s }
    } else if key == KEY_LEFT {
        TeleopState { ang_z: raised(s.ang_z, ANG_STEP, ANG_MAX), ..s }
    } else if key == KEY_RIGHT {
        TeleopState { ang_z: lowered(s.ang_z, ANG_STEP, ANG_MAX), ..s }
    } else if key == KEY_STOP {
        TeleopState { lin_x: zero(), ang_z: zero() }
    } else {
        s
    }
}

/// Whether a key ends the session: q or escape.
pub open spec fn quits(key: u8) -> bool {
    key == KEY_QUIT || key == KEY_ESCAPE
}

/// Whether an executable command is the one named, or both are absent.
pub open spec fn same_command(r: Option<&'static str>, command: Option<Seq<char>>) -> bool {
    match r {
        Some(text) => command == Some(text@),
        None => command is None,
    }
}

impl Default for TeleopState {
    /// At rest.
    fn default() -> (r: Self)
        ensures
            r == (TeleopState { lin_x: zero(), ang_z: zero() }),
    {
        TeleopState { lin_x: Binary64::from_bits(0), ang_z: Binary64::from_bits(0) }
    }
}

impl TeleopState {
    /// Applies a key; returns the behavior command of a mode key.
    pub fn apply_key(&mut self, key: u8) -> (r: Option<&'static str>)
        ensures
            *final(self) == after_key(*old(self), key),
            same_command(r, key_command(key)),
    {
        let vel_step: Binary64 = Binary64::from_bits(VEL_STEP);
        let ang_step: Binary64 = Binary64::from_bits(ANG_STEP);
        let vel_max: Binary64 = Binary64::from_bits(VEL_MAX);
        let ang_max: Binary64 = Binary64::from_bits(ANG_MAX);
        if key == KEY_FORWARD {
            self.lin_x = self.lin_x.plus(vel_step).min(vel_max);
            None
        } else if key == KEY_BACKWARD {
            self.lin_x = self.lin_x.minus(vel_step).max(vel_max.negated());
            None
        } else if key == KEY_LEFT {
            self.ang_z = self.ang_z.plus(ang_step).min(ang_max);
            None
        } else if key == KEY_RIGHT {
            self.ang_z = self.ang_z.minus(ang_step).max(ang_max.negated());
            None
        } else if key == KEY_STOP {
            self.lin_x = Binary64::from_bits(0);
            self.ang_z = Binary64::from_bits(0);
            None
        } else if key == KEY_STAND {
            Some("stand")
        } else if key == KEY_TROT {
            Some("trot")
        } else if key == KEY_PATROL {
            Some("patrol")
        } else if key == KEY_IDLE {
            Some("idle")
        } else if key == KEY_MANUAL {
            Some("manual")
        } else if key == KEY_ESTOP {
            Some("estop")
        } else if key == KEY_CLEAR {
            Some("clear")
        } else {
            None
        }
    }

    /// The velocity command.
    pub fn as_twist(&self) -> (r: Twist)
        ensures
            r == planar(self.lin_x, self.ang_z),
    {
        make_twist(self.lin_x, self.ang_z)
    }

    /// Takes in a key press.
    pub fn press(&mut self, key: u8) -> (r: KeyAction)
        ensures
            quits(key) ==> *final(self) == *old(self) && r is Quit,
            !quits(key) ==> {
                &&& *final(self) == after_key(*old(self), key)
                &&& r matches KeyAction::Publish { command, twist }
                &&& same_command(command, key_command(key))
                &&& twist == planar(final(self).lin_x, final(self).ang_z)
            },
    {
        if key == KEY_QUIT || key == KEY_ESCAPE {
            return KeyAction::Quit;
        }
        let command: Option<&'static str> = self.apply_key(key);
        KeyAction::Publish { command, twist: self.as_twist() }
    }
}

} // verus!
