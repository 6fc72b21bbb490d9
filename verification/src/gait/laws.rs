//! What holds of the gait as a whole.

use vstd::prelude::*;
use vstd::arithmetic::power2::{lemma2_to64, lemma2_to64_rest, lemma_pow2_adds, lemma_pow2_pos, pow2};
use crate::binary64::arithmetic::{opposite, product, sum};
use crate::binary64::convert::{fraction, one_in_units};
use crate::binary64::facts::{
    at_most, lemma_fraction, lemma_from_parts, lemma_opposite, lemma_product, lemma_product_grows,
    lemma_product_with_one, lemma_rank_of_double, lemma_signed, lemma_size_of_one, lemma_size_over, lemma_sum,
    lemma_sum_grows, lemma_sum_with_zero, lemma_zero_product, within,
};
use crate::binary64::model::{
    lemma_between, lemma_nearest_is, lemma_size_of, lemma_size_order, size, Binary64, INFINITY,
};
use crate::binary64::order::{absolute, greatest, less, ONE};
use crate::gait::{
    foot_aside, frequency, in_stance, leg_phase, phase_after, Gait, Leg, FREQUENCY_GAIN, HALF, HIP_Y_OFFSET,
    MAX_FREQUENCY, MIN_FREQUENCY, TURN_WEIGHT, UNITY,
};
use crate::geometry::zero;

verus! {

/// The forward velocity (m/s) from which the frequency is highest: 0.6.
pub const TOP_SPEED: u64 = 0x3FE3_3333_3333_3333;

/// 3.
const THREE: u64 = 0x4008_0000_0000_0000;

/// The larger of the two speeds that set the frequency is a number unless neither is one.
proof fn lemma_speed(vel_x: Binary64, ang_z: Binary64)
    requires
        !vel_x.is_nan_spec() || !ang_z.is_nan_spec(),
    ensures
        ({
            let speed = greatest(absolute(vel_x), product(absolute(ang_z), Binary64 { bits: TURN_WEIGHT }));
            !speed.is_nan_spec() && !speed.negative()
        }),
{
    let weight = Binary64 { bits: TURN_WEIGHT };
    if !ang_z.is_nan_spec() {
        lemma_signed(false, ang_z.magnitude());
        lemma_signed(false, INFINITY as nat);
        if ang_z.finite() {
            lemma_product(absolute(ang_z), weight);
        }
    }
    if !vel_x.is_nan_spec() {
        lemma_signed(false, vel_x.magnitude());
    }
}

/// The cycle frequency lies between 1 and 4 Hz, unless both commanded velocities are no
/// numbers.
pub proof fn law_frequency_is_bounded(vel_x: Binary64, ang_z: Binary64)
    requires
        !vel_x.is_nan_spec() || !ang_z.is_nan_spec(),
    ensures
        within(frequency(vel_x, ang_z), Binary64 { bits: MIN_FREQUENCY }, Binary64 { bits: MAX_FREQUENCY }),
{
    let speed = greatest(absolute(vel_x), product(absolute(ang_z), Binary64 { bits: TURN_WEIGHT }));
    let gain = Binary64 { bits: FREQUENCY_GAIN };
    let one = Binary64 { bits: UNITY };
    lemma_speed(vel_x, ang_z);
    lemma_signed(false, INFINITY as nat);
    if speed.finite() {
        lemma_product(speed, gain);
    }
    let term = product(speed, gain);
    if term.finite() {
        lemma_sum(one, term);
    }
}

/// The place in the cycle stays within 0 and 1, 1 itself left out, as time goes on.  (A
/// time step so long that the sum overflows leaves no place at all.)
pub proof fn law_phase_stays_in_cycle(g: Gait, dt: Binary64)
    requires
        at_most(zero(), g.phase),
        at_most(zero(), g.freq),
        at_most(zero(), dt),
        sum(g.phase, product(g.freq, dt)).finite(),
    ensures
        at_most(zero(), phase_after(g, dt)),
        less(phase_after(g, dt), Binary64 { bits: UNITY }),
{
    let term = product(g.freq, dt);
    let place = sum(g.phase, term);
    lemma_signed(false, INFINITY as nat);
    lemma_signed(true, INFINITY as nat);
    assert(g.phase.finite() && term.finite());
    assert(g.freq.finite() && dt.finite());
    lemma_product(g.freq, dt);
    if !(g.freq.negative() == dt.negative()) {
        lemma_zero_product(g.freq, dt);
    }
    lemma_sum_grows(zero(), term, g.phase);
    lemma_sum_with_zero(g.phase, zero());
    lemma_fraction(place);
    if place.negative() {
        lemma_size_order(0, place.magnitude());
        lemma_zero_fraction(place);
    }
}

/// Nothing comes after the point of zero.
proof fn lemma_zero_fraction(a: Binary64)
    requires
        a.is_zero(),
    ensures
        fraction(a).is_zero(),
{
    crate::binary64::model::lemma_size_small();
    lemma_size_of_one();
    lemma_fraction(a);
    vstd::arithmetic::div_mod::lemma_small_mod(0, one_in_units());
    lemma_size_order(fraction(a).magnitude(), 0);
}

/// The two legs of a diagonal are always at the same place in their cycles.
pub proof fn law_diagonals_move_together(phase: Binary64)
    ensures
        leg_phase(phase, Leg::FL) == leg_phase(phase, Leg::RR),
        leg_phase(phase, Leg::FR) == leg_phase(phase, Leg::RL),
{
}

/// What lies below 1 has nothing before its point.
pub(crate) proof fn lemma_fraction_below_one(a: Binary64)
    requires
        a.finite(),
        a.magnitude() < ONE,
    ensures
        fraction(a).rank() == a.rank(),
        !fraction(a).is_nan_spec(),
{
    lemma_size_of_one();
    lemma_size_order(a.magnitude(), ONE as nat);
    lemma_fraction(a);
    vstd::arithmetic::div_mod::lemma_small_mod(size(a.magnitude()), one_in_units());
    lemma_size_order(a.magnitude(), fraction(a).magnitude());
}

/// Half a cycle after a place in the first half, the second half is not over.
proof fn lemma_half_later(phase: Binary64)
    requires
        at_most(zero(), phase),
        phase.rank() <= 0x3FDF_FFFF_FFFF_FFFE,
    ensures
        HALF <= sum(phase, Binary64 { bits: HALF }).rank() < ONE,
        !sum(phase, Binary64 { bits: HALF }).is_nan_spec(),
{
    let half = Binary64 { bits: HALF };
    let last = Binary64 { bits: 0x3FDF_FFFF_FFFF_FFFE };
    let end = Binary64 { bits: 0x3FEF_FFFF_FFFF_FFFF };
    lemma_sum_grows(zero(), phase, half);
    lemma_sum_with_zero(half, zero());
    lemma_sum_grows(phase, last, half);
    lemma2_to64();
    lemma_size_over(1020, 0x1F_FFFF_FFFF_FFFE, 1020, 1, 0x1F_FFFF_FFFF_FFFE);
    lemma_size_over(1021, 0x10_0000_0000_0000, 1020, 2, 0x20_0000_0000_0000);
    lemma_size_over(1021, 0x1F_FFFF_FFFF_FFFF, 1020, 2, 0x3F_FFFF_FFFF_FFFE);
    let e = pow2(1020);
    assert(0x1F_FFFF_FFFF_FFFE * e + 0x20_0000_0000_0000 * e == 0x3F_FFFF_FFFF_FFFE * e) by (nonlinear_arith);
    lemma_sum(last, half);
    lemma_rank_of_double(end);
}

/// Half a cycle after a place in the second half, the next first half is not over.
proof fn lemma_half_earlier(phase: Binary64)
    requires
        !phase.is_nan_spec(),
        HALF <= phase.rank() <= 0x3FEF_FFFF_FFFF_FFFE,
    ensures
        ONE <= sum(phase, Binary64 { bits: HALF }).rank() <= 0x3FF7_FFFF_FFFF_FFFF,
        !sum(phase, Binary64 { bits: HALF }).is_nan_spec(),
{
    let one = Binary64 { bits: ONE };
    let half = Binary64 { bits: HALF };
    let last = Binary64 { bits: 0x3FEF_FFFF_FFFF_FFFE };
    let end = Binary64 { bits: 0x3FF7_FFFF_FFFF_FFFF };
    lemma_sum_grows(half, phase, half);
    lemma_sum_grows(phase, last, half);
    lemma2_to64();
    lemma_size_over(1021, 0x10_0000_0000_0000, 1021, 1, 0x10_0000_0000_0000);
    lemma_size_over(1022, 0x10_0000_0000_0000, 1021, 2, 0x20_0000_0000_0000);
    lemma_size_over(1021, 0x1F_FFFF_FFFF_FFFE, 1021, 1, 0x1F_FFFF_FFFF_FFFE);
    lemma_size_over(1022, 0x17_FFFF_FFFF_FFFF, 1021, 2, 0x2F_FFFF_FFFF_FFFE);
    let e = pow2(1021);
    assert(0x1F_FFFF_FFFF_FFFE * e + 0x10_0000_0000_0000 * e == 0x2F_FFFF_FFFF_FFFE * e) by (nonlinear_arith);
    lemma_sum(last, half);
    lemma_rank_of_double(end);
    assert(half.units() + half.units() == one.units());
    lemma_sum(half, half);
    lemma_rank_of_double(one);
}

/// At every place in the cycle one diagonal stands while the other swings.  (At the last
/// double below one half and at the last below 1 the half cycle between the diagonals is
/// rounded away, and both do the same.)
pub proof fn law_one_diagonal_stands(phase: Binary64)
    requires
        at_most(zero(), phase),
        less(phase, Binary64 { bits: UNITY }),
        phase.bits != 0x3FDF_FFFF_FFFF_FFFF,
        phase.bits != 0x3FEF_FFFF_FFFF_FFFF,
    ensures
        in_stance(leg_phase(phase, Leg::FL)) <==> !in_stance(leg_phase(phase, Leg::FR)),
{
    let half = Binary64 { bits: HALF };
    let now = sum(phase, zero());
    lemma_sum_with_zero(phase, zero());
    lemma_fraction_below_one(now);
    let later = sum(phase, half);
    if phase.rank() < HALF {
        lemma_half_later(phase);
        lemma_fraction_below_one(later);
    } else {
        lemma_half_earlier(phase);
        let rest = (size(later.magnitude()) - one_in_units()) as nat;
        lemma2_to64();
        lemma_pow2_pos(1021);
        lemma_size_of_one();
        lemma_size_over(1021, 0x10_0000_0000_0000, 1021, 1, 0x10_0000_0000_0000);
        lemma_size_over(1022, 0x10_0000_0000_0000, 1021, 2, 0x20_0000_0000_0000);
        lemma_size_over(1022, 0x17_FFFF_FFFF_FFFF, 1021, 2, 0x2F_FFFF_FFFF_FFFE);
        lemma_size_order(ONE as nat, later.magnitude());
        lemma_size_order(later.magnitude(), 0x3FF7_FFFF_FFFF_FFFF);
        let e = pow2(1021);
        assert(one_in_units() == 0x20_0000_0000_0000 * e);
        assert(0x2F_FFFF_FFFF_FFFE * e - 0x20_0000_0000_0000 * e < 0x10_0000_0000_0000 * e < 0x20_0000_0000_0000 * e)
            by (nonlinear_arith)
            requires
                e > 0,
        ;
        lemma_fraction(later);
        vstd::arithmetic::div_mod::lemma_small_mod(rest, one_in_units());
        vstd::arithmetic::div_mod::lemma_mod_add_multiples_vanish(rest as int, one_in_units() as int);
        lemma_size_order(fraction(later).magnitude(), HALF as nat);
    }
}

/// The faster the robot is to go and turn, the quicker it steps.
pub proof fn law_faster_means_quicker(vel_x: Binary64, ang_z: Binary64, faster_x: Binary64, faster_z: Binary64)
    requires
        at_most(absolute(vel_x), absolute(faster_x)),
        at_most(absolute(ang_z), absolute(faster_z)),
    ensures
        at_most(frequency(vel_x, ang_z), frequency(faster_x, faster_z)),
{
    let weight = Binary64 { bits: TURN_WEIGHT };
    let gain = Binary64 { bits: FREQUENCY_GAIN };
    let one = Binary64 { bits: UNITY };
    let turn = product(absolute(ang_z), weight);
    let faster_turn = product(absolute(faster_z), weight);
    let speed = greatest(absolute(vel_x), turn);
    let faster = greatest(absolute(faster_x), faster_turn);
    law_frequency_is_bounded(vel_x, ang_z);
    law_frequency_is_bounded(faster_x, faster_z);
    lemma_speed(vel_x, ang_z);
    lemma_speed(faster_x, faster_z);
    lemma_signed(false, INFINITY as nat);
    if faster.finite() {
        lemma_signed(false, ang_z.magnitude());
        lemma_signed(false, faster_z.magnitude());
        lemma_signed(false, vel_x.magnitude());
        lemma_signed(false, faster_x.magnitude());
        lemma_product(absolute(ang_z), weight);
        lemma_product(absolute(faster_z), weight);
        lemma_product_grows(absolute(ang_z), absolute(faster_z), weight);
        lemma_product(speed, gain);
        lemma_product(faster, gain);
        lemma_product_grows(speed, faster, gain);
        if product(faster, gain).finite() {
            lemma_sum_grows(product(speed, gain), product(faster, gain), one);
        }
    }
}

/// 0.6 m/s, five times, is 3.
proof fn lemma_top_gain()
    ensures
        product(Binary64 { bits: TOP_SPEED }, Binary64 { bits: FREQUENCY_GAIN }).magnitude() == THREE,
{
    let a = Binary64 { bits: TOP_SPEED };
    let b = Binary64 { bits: FREQUENCY_GAIN };
    let one = one_in_units();
    let n = size(a.magnitude()) * size(b.magnitude());
    let e = pow2(2045);
    let p = (THREE - 1) as nat;
    lemma2_to64();
    lemma2_to64_rest();
    lemma_size_of_one();
    lemma_size_of(1021, 0x13_3333_3333_3333);
    lemma_size_of(1024, 0x14_0000_0000_0000);
    lemma_size_of(1023, 0x17_FFFF_FFFF_FFFF);
    lemma_size_of(1023, 0x18_0000_0000_0000);
    lemma_pow2_adds(1021, 1024);
    lemma_pow2_adds(1023, 1074);
    lemma_pow2_adds(52, 2045);
    lemma_pow2_pos(2045);
    assert(n == (0x13_3333_3333_3333 * 0x14_0000_0000_0000) * e) by (nonlinear_arith)
        requires
            n == (0x13_3333_3333_3333 * pow2(1021)) * (0x14_0000_0000_0000 * pow2(1024)),
            pow2(1021) * pow2(1024) == e,
    ;
    let low = size(p) * one;
    let high = size(p + 1) * one;
    assert(low == (0x17_FFFF_FFFF_FFFF * 0x10_0000_0000_0000) * e && high == (0x18_0000_0000_0000
        * 0x10_0000_0000_0000) * e) by (nonlinear_arith)
        requires
            low == (0x17_FFFF_FFFF_FFFF * pow2(1023)) * one,
            high == (0x18_0000_0000_0000 * pow2(1023)) * one,
            pow2(1023) * one == 0x10_0000_0000_0000 * e,
    ;
    assert(low <= n && n < high && 2 * n > low + high) by (nonlinear_arith)
        requires
            n == (0x13_3333_3333_3333 * 0x14_0000_0000_0000) * e,
            low == (0x17_FFFF_FFFF_FFFF * 0x10_0000_0000_0000) * e,
            high == (0x18_0000_0000_0000 * 0x10_0000_0000_0000) * e,
            e > 0,
    ;
    assert((size(p) + size(p + 1)) * one == low + high) by (nonlinear_arith)
        requires
            low == size(p) * one,
            high == size(p + 1) * one,
    ;
    lemma_product(a, b);
    lemma_between(n, one, p);
    lemma_nearest_is(n, one, THREE as nat);
}

/// A robot at rest has the lowest frequency, 1 Hz, and one at 0.6 m/s or more the
/// highest, 4 Hz.
pub proof fn law_frequency_at_the_ends(vel_x: Binary64, ang_z: Binary64)
    ensures
        frequency(zero(), zero()) == (Binary64 { bits: MIN_FREQUENCY }),
        at_most(Binary64 { bits: TOP_SPEED }, absolute(vel_x)) ==> frequency(vel_x, ang_z) == (Binary64 {
            bits: MAX_FREQUENCY,
        }),
{
    let one = Binary64 { bits: UNITY };
    let top = Binary64 { bits: TOP_SPEED };
    let weight = Binary64 { bits: TURN_WEIGHT };
    let gain = Binary64 { bits: FREQUENCY_GAIN };
    lemma_zero_product(zero(), weight);
    lemma_product(zero(), weight);
    lemma_zero_product(zero(), gain);
    lemma_product(zero(), gain);
    let still = product(zero(), gain);
    assert(absolute(zero()) == zero());
    assert(product(zero(), weight).rank() == 0);
    assert(greatest(zero(), product(zero(), weight)) == zero());
    lemma_sum_with_zero(one, still);
    // at the top speed
    lemma_top_gain();
    lemma_product(top, gain);
    let three = product(top, gain);
    let four = Binary64 { bits: MAX_FREQUENCY };
    lemma2_to64();
    lemma_size_over(1022, 0x10_0000_0000_0000, 1022, 1, 0x10_0000_0000_0000);
    lemma_size_over(1023, 0x18_0000_0000_0000, 1022, 2, 0x30_0000_0000_0000);
    lemma_size_over(1024, 0x10_0000_0000_0000, 1022, 4, 0x40_0000_0000_0000);
    let e = pow2(1022);
    assert(0x10_0000_0000_0000 * e + 0x30_0000_0000_0000 * e == 0x40_0000_0000_0000 * e) by (nonlinear_arith);
    lemma_sum(one, three);
    lemma_rank_of_double(four);
    assert(absolute(top) == top);
    assert(greatest(top, product(zero(), weight)) == top);
    assert(frequency(top, zero()) == four);
    if at_most(top, absolute(vel_x)) {
        if ang_z.is_nan_spec() {
            law_faster_means_quicker(top, zero(), vel_x, zero());
            law_frequency_is_bounded(vel_x, zero());
            assert(frequency(vel_x, ang_z) == frequency(vel_x, zero()));
        } else {
            lemma_signed(false, ang_z.magnitude());
            law_faster_means_quicker(top, zero(), vel_x, ang_z);
            law_frequency_is_bounded(vel_x, ang_z);
        }
    }
}

/// The feet of the left and the right legs are held equally far to their sides.
pub proof fn law_feet_are_mirrored()
    ensures
        foot_aside(Leg::FL) == (Binary64 { bits: HIP_Y_OFFSET }),
        foot_aside(Leg::RL) == (Binary64 { bits: HIP_Y_OFFSET }),
        foot_aside(Leg::FR) == opposite(foot_aside(Leg::FL)),
        foot_aside(Leg::RR) == opposite(foot_aside(Leg::RL)),
{
    let one = Binary64 { bits: UNITY };
    let offset = Binary64 { bits: HIP_Y_OFFSET };
    lemma_product_with_one(offset);
    lemma_product(one, offset);
    lemma_opposite(one);
    lemma_opposite(offset);
    lemma_product(opposite(one), offset);
    lemma_from_parts(product(opposite(one), offset));
    lemma_from_parts(opposite(offset));
}

} // verus!
