//! What holds of driving by keyboard as a whole.

use vstd::prelude::*;
use crate::decimals::{is_decimal, law_teleop_decimals, lemma_decimal_value};
use crate::binary64::nearness::{close, grain, lemma_bounded_sum, lemma_grain};
use crate::binary64::convert::one_in_units;
use crate::behavior::machine::{after_command, Machine};
use crate::behavior::Mode;
use crate::binary64::arithmetic::{difference, opposite, sum};
use crate::binary64::facts::{lemma_opposite, lemma_sum_grows, lemma_sum_with_zero, lemma_units_order, within};
use crate::binary64::model::Binary64;
use crate::geometry::{no_motion, planar, zero};
use crate::teleop::{
    after_key, key_command, lowered, quits, raised, TeleopState, ANG_MAX, ANG_STEP, KEY_CLEAR, KEY_ESTOP, KEY_IDLE,
    KEY_MANUAL, KEY_PATROL, KEY_STAND, KEY_STOP, KEY_TROT, VEL_MAX, VEL_STEP,
};
use crate::text::trimmed;

verus! {

/// A velocity of at most 0.6 m/s and 1.5 rad/s.
pub open spec fn limited(s: TeleopState) -> bool {
    &&& within(s.lin_x, opposite(Binary64 { bits: VEL_MAX }), Binary64 { bits: VEL_MAX })
    &&& within(s.ang_z, opposite(Binary64 { bits: ANG_MAX }), Binary64 { bits: ANG_MAX })
}

/// A step up or down moves a number that way.
proof fn lemma_step(a: Binary64, step: u64, most: u64)
    requires
        step == VEL_STEP && most == VEL_MAX || step == ANG_STEP && most == ANG_MAX,
        within(a, opposite(Binary64 { bits: most }), Binary64 { bits: most }),
    ensures
        within(
            raised(a, step, most),
            opposite(Binary64 { bits: most }),
            Binary64 { bits: most },
        ),
        within(
            lowered(a, step, most),
            opposite(Binary64 { bits: most }),
            Binary64 { bits: most },
        ),
        a.rank() <= raised(a, step, most).rank(),
        lowered(a, step, most).rank() <= a.rank(),
{
    let s = Binary64 { bits: step };
    lemma_opposite(Binary64 { bits: most });
    lemma_opposite(s);
    lemma_sum_grows(zero(), s, a);
    lemma_sum_grows(opposite(s), zero(), a);
    lemma_sum_with_zero(a, zero());
}

/// The keys start at rest and never command more than 0.6 m/s or 1.5 rad/s.
pub proof fn law_keys_keep_the_limits(s: TeleopState, key: u8)
    ensures
        limited(TeleopState { lin_x: zero(), ang_z: zero() }),
        limited(s) ==> limited(after_key(s, key)),
{
    lemma_opposite(Binary64 { bits: VEL_MAX });
    lemma_opposite(Binary64 { bits: ANG_MAX });
    if limited(s) {
        lemma_step(s.lin_x, VEL_STEP, VEL_MAX);
        lemma_step(s.ang_z, ANG_STEP, ANG_MAX);
    }
}

/// The space bar stops the robot.
pub proof fn law_space_stops(s: TeleopState)
    ensures
        planar(after_key(s, KEY_STOP).lin_x, after_key(s, KEY_STOP).ang_z) == no_motion(),
{
}

/// A mode key does not touch the velocity, and a quit key is neither.
pub proof fn law_mode_keys_keep_the_velocity(s: TeleopState, key: u8)
    ensures
        key_command(key) is Some ==> after_key(s, key) == s,
        quits(key) ==> key_command(key) is None && after_key(s, key) == s,
{
}

/// The commands hold no white space.
proof fn lemma_commands_are_bare()
    ensures
        trimmed("stand"@) == "stand"@,
        trimmed("trot"@) == "trot"@,
        trimmed("patrol"@) == "patrol"@,
        trimmed("idle"@) == "idle"@,
        trimmed("manual"@) == "manual"@,
        trimmed("estop"@) == "estop"@,
        trimmed("clear"@) == "clear"@,
{
    reveal_strlit("stand");
    reveal_strlit("trot");
    reveal_strlit("patrol");
    reveal_strlit("idle");
    reveal_strlit("manual");
    reveal_strlit("estop");
    reveal_strlit("clear");
}

/// The commands are all different.
pub(crate) proof fn lemma_commands_differ()
    ensures
        "trot"@ != "stand"@,
        "patrol"@ != "stand"@ && "patrol"@ != "trot"@,
        "manual"@ != "stand"@ && "manual"@ != "trot"@ && "manual"@ != "patrol"@,
        "idle"@ != "stand"@ && "idle"@ != "trot"@ && "idle"@ != "patrol"@ && "idle"@ != "manual"@,
        "estop"@ != "stand"@ && "estop"@ != "trot"@ && "estop"@ != "patrol"@ && "estop"@ != "manual"@ && "estop"@
            != "idle"@,
{
    reveal_strlit("stand");
    reveal_strlit("trot");
    reveal_strlit("patrol");
    reveal_strlit("idle");
    reveal_strlit("manual");
    reveal_strlit("estop");
    assert("stand"@[0] == 's' && "trot"@[0] == 't' && "patrol"@[0] == 'p');
    assert("idle"@[0] == 'i' && "manual"@[0] == 'm' && "estop"@[0] == 'e');
}

/// Each mode key takes the behavior machine, whatever it is doing, to the mode that the
/// key stands for.
pub proof fn law_mode_keys_choose_the_mode(m: Machine, now: u64)
    ensures
        after_command(m, key_command(KEY_STAND).unwrap(), now).mode is StandUp,
        after_command(m, key_command(KEY_TROT).unwrap(), now).mode is Trot,
        after_command(m, key_command(KEY_PATROL).unwrap(), now).mode == (Mode::Patrol { waypoint_index: 0 }),
        after_command(m, key_command(KEY_IDLE).unwrap(), now).mode is Idle,
        after_command(m, key_command(KEY_MANUAL).unwrap(), now).mode is Manual,
        after_command(m, key_command(KEY_ESTOP).unwrap(), now).mode is EmergencyStop,
        m.mode is EmergencyStop ==> after_command(m, key_command(KEY_CLEAR).unwrap(), now).mode is Idle,
{
    lemma_commands_are_bare();
    lemma_commands_differ();
    crate::behavior::laws::law_clear(m, "clear"@, now);
}

/// One step up or down, in numbers: the step is one in `n`, the limit `m` steps.
proof fn lemma_step_size(a: Binary64, step: u64, most: u64, n: nat, m: nat)
    requires
        n == 20 && m == 12 && step == VEL_STEP && most == VEL_MAX || n == 10 && m == 15 && step == ANG_STEP && most
            == ANG_MAX,
        within(a, opposite(Binary64 { bits: most }), Binary64 { bits: most }),
    ensures
        ({
            let one = one_in_units() as int;
            let up = n * a.units() + one;
            let down = n * a.units() - one;
            let limit = m * one;
            let error = 200 * grain() as int;
            let raised_to = raised(a, step, most);
            let lowered_to = lowered(a, step, most);
            &&& up <= limit - error ==> close(n * raised_to.units(), up, error)
            &&& up >= limit + error ==> raised_to == (Binary64 { bits: most })
            &&& down >= -(limit - error) ==> close(n * lowered_to.units(), down, error)
            &&& down <= -(limit + error) ==> lowered_to == opposite(Binary64 { bits: most })
        }),
{
    let s = Binary64 { bits: step };
    let top = Binary64 { bits: most };
    let g = grain() as int;
    let one = one_in_units() as int;
    lemma_grain();
    law_teleop_decimals();
    lemma_opposite(top);
    lemma_opposite(s);
    lemma_units_order(opposite(top), a);
    lemma_units_order(a, top);
    assert(one >= 1000000 * g) by (nonlinear_arith)
        requires
            one == 0x20_0000_0000_0000 * g,
            g > 0,
    ;
    if n == 20 {
        lemma_decimal_value(VEL_STEP, 5, 100);
        lemma_decimal_value(VEL_MAX, 6, 10);
        assert(close(100 * s.units(), 5 * one, 6 * g));
        assert(close(10 * top.units(), 6 * one, 7 * g));
    } else {
        lemma_decimal_value(ANG_STEP, 1, 10);
        lemma_decimal_value(ANG_MAX, 15, 10);
        assert(close(10 * s.units(), one, 2 * g));
        assert(close(10 * top.units(), 15 * one, 16 * g));
    }
    lemma_bounded_sum(a, s, 2);
    lemma_bounded_sum(a, opposite(s), 2);
    assert((2 + 1) * grain() == 3 * grain()) by (nonlinear_arith);
    lemma_units_order(top, sum(a, s));
    lemma_units_order(difference(a, s), opposite(top));
}

/// The keys w and s make the robot faster or slower by 0.05 m/s, up to 0.6 m/s either way; a
/// and d turn it more to the left or to the right by 0.1 rad/s, up to 1.5 rad/s.  Neither pair
/// touches what the other sets.
pub proof fn law_driving_keys(s: TeleopState)
    requires
        limited(s),
    ensures
        ({
            let one = one_in_units() as int;
            let error = 200 * grain() as int;
            let v = 20 * s.lin_x.units();
            let w = 10 * s.ang_z.units();
            let (faster, slower) = (after_key(s, 0x77), after_key(s, 0x73));
            let (left, right) = (after_key(s, 0x61), after_key(s, 0x64));
            &&& faster.ang_z == s.ang_z && slower.ang_z == s.ang_z && left.lin_x == s.lin_x && right.lin_x == s.lin_x
            &&& v + one <= 12 * one - error ==> close(20 * faster.lin_x.units(), v + one, error)
            &&& v + one >= 12 * one + error ==> is_decimal(faster.lin_x.bits, 6, 10)
            &&& v - one >= -(12 * one - error) ==> close(20 * slower.lin_x.units(), v - one, error)
            &&& v - one <= -(12 * one + error) ==> is_decimal(opposite(slower.lin_x).bits, 6, 10)
            &&& w + one <= 15 * one - error ==> close(10 * left.ang_z.units(), w + one, error)
            &&& w + one >= 15 * one + error ==> is_decimal(left.ang_z.bits, 15, 10)
            &&& w - one >= -(15 * one - error) ==> close(10 * right.ang_z.units(), w - one, error)
            &&& w - one <= -(15 * one + error) ==> is_decimal(opposite(right.ang_z).bits, 15, 10)
        }),
{
    law_teleop_decimals();
    lemma_step_size(s.lin_x, VEL_STEP, VEL_MAX, 20, 12);
    lemma_step_size(s.ang_z, ANG_STEP, ANG_MAX, 10, 15);
    lemma_opposite(Binary64 { bits: VEL_MAX });
    lemma_opposite(Binary64 { bits: ANG_MAX });
}

/// The space bar sets both velocities to zero; every key but it and w, s, a and d leaves them
/// alone.
pub proof fn law_other_keys(s: TeleopState, key: u8)
    ensures
        after_key(s, 0x20).lin_x.bits == 0 && after_key(s, 0x20).ang_z.bits == 0,
        key != 0x77 && key != 0x73 && key != 0x61 && key != 0x64 && key != 0x20 ==> after_key(s, key) == s,
{
}

/// The keys 1, 2, 3, 0, m, e and c stand for the words of the operator, no other key for any;
/// q and escape end the session, and nothing else does.
pub proof fn law_mode_keys(key: u8)
    ensures
        key_command(0x31) == Some("stand"@) && key_command(0x32) == Some("trot"@) && key_command(0x33) == Some("patrol"@),
        key_command(0x30) == Some("idle"@) && key_command(0x6D) == Some("manual"@),
        key_command(0x65) == Some("estop"@) && key_command(0x63) == Some("clear"@),
        key_command(key) is Some <==> key == 0x31 || key == 0x32 || key == 0x33 || key == 0x30 || key == 0x6D || key == 0x65
            || key == 0x63,
        quits(key) <==> key == 0x71 || key == 0x1B,
{
}

} // verus!
