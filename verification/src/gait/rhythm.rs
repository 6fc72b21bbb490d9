//! How quickly the robot steps, up to rounding.

use vstd::prelude::*;
use crate::binary64::arithmetic::{opposite, product, sum};
use crate::binary64::convert::one_in_units;
use crate::binary64::facts::{at_most, lemma_opposite, lemma_signed, lemma_units_order};
use crate::binary64::model::{lemma_size_small, size, Binary64, BINADE};
use crate::binary64::nearness::{close, grain, lemma_bounded_product, lemma_bounded_sum, lemma_grain, moderate};
use crate::binary64::order::{absolute, greatest};
use crate::decimals::{is_decimal, law_gait_decimals, lemma_times_decimal};
use crate::gait::cycle::{is_place, lemma_half_ahead, lemma_no_offset, lemma_place_sum, lemma_place_units, lemma_wrapped};
use crate::gait::{
    frequency, leg_phase, phase_after, steps, Gait, Leg, FREQUENCY_GAIN, MAX_FREQUENCY, TURN_WEIGHT, UNITY,
};
use crate::geometry::zero;

verus! {

/// The frequency depends on how fast the robot goes and turns, not on the direction.
pub proof fn law_frequency_is_symmetric(vel_x: Binary64, ang_z: Binary64)
    ensures
        frequency(opposite(vel_x), ang_z) == frequency(vel_x, ang_z),
        frequency(vel_x, opposite(ang_z)) == frequency(vel_x, ang_z),
{
    lemma_opposite(vel_x);
    lemma_opposite(ang_z);
    assert(absolute(opposite(vel_x)) == absolute(vel_x));
    assert(absolute(opposite(ang_z)) == absolute(ang_z));
}

/// The larger of two numbers.
pub open spec fn larger(a: int, b: int) -> int {
    if a < b {
        b
    } else {
        a
    }
}

/// The frequency is 1 Hz, and 5 Hz more for each m/s or 1 Hz more for each rad/s, whichever is
/// more; but no more than 4 Hz.
pub proof fn law_frequency_is_in_proportion(vel_x: Binary64, ang_z: Binary64)
    requires
        moderate(vel_x, 8),
        moderate(ang_z, 8),
    ensures
        ({
            let one = one_in_units() as int;
            let f = frequency(vel_x, ang_z);
            let wanted = one + larger(5 * size(vel_x.magnitude()) as int, size(ang_z.magnitude()) as int);
            let error = 1000 * grain() as int;
            &&& f.finite()
            &&& wanted <= 4 * one - error ==> close(f.units(), wanted, error)
            &&& wanted >= 4 * one + error ==> f == (Binary64 { bits: MAX_FREQUENCY })
            &&& is_decimal(MAX_FREQUENCY, 4, 1)
        }),
{
    let one = one_in_units() as int;
    let g = grain() as int;
    let x = absolute(vel_x);
    let z = absolute(ang_z);
    let unit = Binary64 { bits: UNITY };
    let four = Binary64 { bits: MAX_FREQUENCY };
    lemma_grain();
    law_gait_decimals();
    lemma_signed(false, vel_x.magnitude());
    lemma_signed(false, ang_z.magnitude());
    lemma_times_decimal(z, TURN_WEIGHT, 2, 10, 8);
    assert(((10 + 1) * (8 * (2 + 1) + 1)) * grain() == 275 * grain()) by (nonlinear_arith);
    let turn = product(z, Binary64 { bits: TURN_WEIGHT });
    assert(one >= 1000000 * g) by (nonlinear_arith)
        requires
            one == 0x20_0000_0000_0000 * g,
            g > 0,
    ;
    let speed = greatest(x, turn);
    lemma_units_order(x, turn);
    assert(speed.units() == larger(x.units(), turn.units()));
    assert(moderate(speed, 9));
    lemma_times_decimal(speed, FREQUENCY_GAIN, 5, 1, 9);
    assert(((1 + 1) * (9 * (5 + 1) + 1)) * grain() == 110 * grain()) by (nonlinear_arith);
    let gain = product(speed, Binary64 { bits: FREQUENCY_GAIN });
    assert(unit.units() == one);
    lemma_bounded_sum(unit, gain, 60);
    assert((60 + 1) * grain() == 61 * grain()) by (nonlinear_arith);
    let total = sum(unit, gain);
    crate::behavior::laws::lemma_whole_decimal(MAX_FREQUENCY, 4);
    crate::binary64::facts::lemma_whole_is_exact(4);
    lemma_units_order(four, total);
    lemma_units_order(total, unit);
    assert(close(10 * turn.units(), 2 * z.units(), 275 * g));
    assert(close(gain.units(), 5 * speed.units(), 110 * g));
}

/// A leg of the first diagonal is where the cycle is; one of the second is half a cycle ahead,
/// up to two grains of 2^-53.
pub proof fn law_leg_places(phase: Binary64)
    requires
        is_place(phase),
    ensures
        leg_phase(phase, Leg::FL).units() == phase.units(),
        leg_phase(phase, Leg::RR).units() == phase.units(),
        ({
            let ahead = leg_phase(phase, Leg::FR).units();
            let half = phase.units() + BINADE * grain();
            ||| close(ahead, half, 2 * grain() as int)
            ||| close(ahead + one_in_units(), half, 2 * grain() as int)
        }),
        leg_phase(phase, Leg::RL) == leg_phase(phase, Leg::FR),
{
    lemma_no_offset(phase);
    lemma_half_ahead(phase);
}

/// A robot that steps moves on in its cycle by frequency times time, round and round, up to
/// four grains; one that stands goes back to the start.
pub proof fn law_phase_advances(g: Gait, dt: Binary64)
    requires
        is_place(g.phase),
        g.freq.finite() && dt.finite(),
        at_most(zero(), g.freq) && at_most(zero(), dt),
        !g.freq.negative() && !dt.negative(),
        2 * (g.freq.units() * dt.units()) <= one_in_units() * one_in_units(),
    ensures
        !steps(g.vel_x, g.ang_z) ==> phase_after(g, dt).bits == 0,
        steps(g.vel_x, g.ang_z) ==> {
            let one = one_in_units() as int;
            let after = phase_after(g, dt);
            let wanted = g.phase.units() * one + g.freq.units() * dt.units();
            &&& is_place(after)
            &&& close(after.units() * one, wanted, 4 * (grain() * one)) || close(
                (after.units() + one) * one,
                wanted,
                4 * (grain() * one),
            )
        },
{
    if steps(g.vel_x, g.ang_z) {
        let one = one_in_units() as int;
        let q = grain() as int;
        let x = g.freq.units();
        let y = dt.units();
        lemma_grain();
        lemma_size_small();
        assert(x * y <= 1 * (one * one)) by (nonlinear_arith)
            requires
                2 * (x * y) <= one * one,
                x >= 0,
                y >= 0,
        ;
        lemma_bounded_product(g.freq, dt, 1);
        let advance = product(g.freq, dt);
        let a = advance.units();
        assert(((1 + 1) * q) * one == 2 * (q * one)) by (nonlinear_arith);
        assert(2 * a <= one + 4 * q) by (nonlinear_arith)
            requires
                a * one <= x * y + 2 * (q * one),
                2 * (x * y) <= one * one,
                one > 0,
        {
            assert((2 * a) * one <= (one + 4 * q) * one);
        }
        lemma_place_units(g.phase);
        assert(g.phase.units() + a < 0x38_0000_0000_0000 * q && g.phase.units() + a + 2 * q < 2 * one) by (nonlinear_arith)
            requires
                g.phase.units() < one,
                2 * a <= one + 4 * q,
                one == 0x20_0000_0000_0000 * q,
                q > 0,
        ;
        lemma_place_sum(g.phase, advance);
        let moved = sum(g.phase, advance);
        lemma_wrapped(moved);
        let m = moved.units();
        let p = g.phase.units();
        assert(close(m * one, p * one + x * y, 4 * (q * one))) by (nonlinear_arith)
            requires
                -(2 * q) <= m - (p + a) <= 2 * q,
                -(2 * (q * one)) <= a * one - x * y <= 2 * (q * one),
                one > 0,
        {
            assert((m - (p + a) + 2 * q) * one >= 0);
            assert((2 * q - (m - (p + a))) * one >= 0);
        }
        let after = phase_after(g, dt).units();
        assert((after + one) * one == after * one + one * one && (m - one) * one == m * one - one * one) by (nonlinear_arith);
    }
}

/// However long a step takes, the place in the cycle is what is left of the sum of place and
/// advance once whole cycles are taken off.
pub proof fn law_phase_wraps(g: Gait, dt: Binary64)
    requires
        steps(g.vel_x, g.ang_z),
        sum(g.phase, product(g.freq, dt)).finite(),
    ensures
        ({
            let moved = sum(g.phase, product(g.freq, dt));
            let after = phase_after(g, dt);
            &&& after.finite()
            &&& after.negative() == moved.negative()
            &&& size(after.magnitude()) == size(moved.magnitude()) % one_in_units()
        }),
{
    crate::binary64::facts::lemma_fraction(sum(g.phase, product(g.freq, dt)));
}

} // verus!
