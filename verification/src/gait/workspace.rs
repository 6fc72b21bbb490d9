//! The feet of a walking robot stay within reach, and the law of cosines always yields
//! cosines.

use vstd::prelude::*;
use vstd::arithmetic::power2::{lemma2_to64, lemma2_to64_rest, lemma_pow2_adds, lemma_pow2_pos, pow2};
use crate::binary64::arithmetic::{difference, opposite, product, sum};
use crate::binary64::convert::one_in_units;
use crate::binary64::facts::{
    at_most, lemma_opposite, lemma_product, lemma_product_at_least, lemma_product_at_most, lemma_product_grows,
    lemma_product_with_one, lemma_quotient, lemma_quotient_grows, lemma_quotient_of_itself, lemma_rank_keeps_order,
    lemma_rank_of_double, lemma_size_over, lemma_sum, lemma_sum_below, lemma_sum_grows, lemma_sum_with_zero,
    lemma_zero_product, lemma_zero_quotient, within,
};
use crate::binary64::model::{lemma_size_of, lemma_size_order, size, Binary64, BINADE};
use crate::binary64::order::less;
use crate::binary64::root::{lemma_root_at_least, lemma_root_at_most, square_root};
use crate::gait::{
    foot_ahead, ik_terms_for, ik_terms_of, in_stance, lateral_sign, max_reach, out_of_reach, reach, rest_target,
    stance_progress, stance_target, stand_target, swing_progress, swing_target, FootTarget, Gait, Leg, DUTY_CYCLE, HALF,
    L1, L2, NOMINAL_HEIGHT, STEP_HEIGHT, TRAVEL, TURN_TRAVEL, TWO, UNITY, WORKSPACE_MARGIN,
};
use crate::geometry::zero;

verus! {

/// The pattern of the power of two whose size is 2^(t + 52) units.
pub(crate) open spec fn binade(t: nat) -> nat {
    (t + 1) * BINADE as nat
}

proof fn lemma_binade(t: nat)
    ensures
        size(binade(t)) == pow2(t + 52),
{
    lemma2_to64();
    lemma2_to64_rest();
    lemma_size_of(t, BINADE as nat);
    lemma_pow2_adds(52, t);
    assert(binade(t) == t * BINADE as nat + BINADE as nat) by (nonlinear_arith)
        requires
            binade(t) == (t + 1) * BINADE as nat,
    ;
}

/// A product of numbers up to two powers of two is up to their product.
proof fn lemma_product_below(a: Binary64, b: Binary64, s: nat, t: nat)
    requires
        a.magnitude() <= binade(s),
        b.magnitude() <= binade(t),
        s < 2000,
        t < 2000,
        1022 <= s + t < 3000,
    ensures
        product(a, b).magnitude() <= binade((s + t - 1022) as nat),
        !product(a, b).is_nan_spec(),
        product(a, b).negative() == (a.negative() != b.negative()),
{
    let u = (s + t - 1022) as nat;
    let x = size(a.magnitude());
    let y = size(b.magnitude());
    lemma_binade(s);
    lemma_binade(t);
    lemma_binade(u);
    lemma_size_order(binade(s), a.magnitude());
    lemma_size_order(binade(t), b.magnitude());
    lemma_pow2_adds(s + 52, t + 52);
    lemma_pow2_adds(u + 52, 1074);
    assert(x * y <= size(binade(u)) * one_in_units()) by (nonlinear_arith)
        requires
            0 <= x <= pow2(s + 52),
            0 <= y <= pow2(t + 52),
            pow2(s + 52) * pow2(t + 52) == size(binade(u)) * one_in_units(),
    ;
    lemma_product_at_most(a, b, binade(u));
}

/// A product of numbers from two powers of two on is at least their product.
proof fn lemma_product_above(a: Binary64, b: Binary64, s: nat, t: nat)
    requires
        a.finite(),
        b.finite(),
        binade(s) <= a.magnitude(),
        binade(t) <= b.magnitude(),
        1022 <= s + t < 3000,
    ensures
        product(a, b).magnitude() >= binade((s + t - 1022) as nat),
{
    let u = (s + t - 1022) as nat;
    let x = size(a.magnitude());
    let y = size(b.magnitude());
    lemma_binade(s);
    lemma_binade(t);
    lemma_binade(u);
    lemma_size_order(a.magnitude(), binade(s));
    lemma_size_order(b.magnitude(), binade(t));
    lemma_pow2_adds(s + 52, t + 52);
    lemma_pow2_adds(u + 52, 1074);
    assert(x * y >= size(binade(u)) * one_in_units()) by (nonlinear_arith)
        requires
            x >= pow2(s + 52) >= 0,
            y >= pow2(t + 52) >= 0,
            pow2(s + 52) * pow2(t + 52) == size(binade(u)) * one_in_units(),
    ;
    lemma_product_at_least(a, b, binade(u));
}

/// 0.375, above every height of the body over a foot.
pub const HIGHEST: u64 = 0x3FD8_0000_0000_0000;

/// 0.40625, below the longest reach.
pub(crate) const FARTHEST: u64 = 0x3FDA_0000_0000_0000;

/// The square of a height up to 0.375 is up to 0.140625.
proof fn lemma_height_squared(down: Binary64)
    requires
        down.magnitude() <= HIGHEST,
    ensures
        product(down, down).magnitude() <= 0x3FC2_0000_0000_0000,
        !product(down, down).is_nan_spec(),
        !product(down, down).negative(),
{
    let x = size(down.magnitude());
    let y = size(HIGHEST as nat);
    let z = size(0x3FC2_0000_0000_0000);
    let one = one_in_units();
    lemma2_to64();
    lemma2_to64_rest();
    lemma_size_order(HIGHEST as nat, down.magnitude());
    lemma_size_of(1020, 0x18_0000_0000_0000);
    lemma_size_of(1019, 0x12_0000_0000_0000);
    lemma_pow2_adds(1020, 1020);
    lemma_pow2_adds(1019, 1074);
    lemma_pow2_adds(53, 2040);
    assert(x * x <= y * y) by (nonlinear_arith)
        requires
            0 <= x <= y,
    ;
    let e = pow2(2040);
    assert(y * y == (0x18_0000_0000_0000 * 0x18_0000_0000_0000) * e) by (nonlinear_arith)
        requires
            y == 0x18_0000_0000_0000 * pow2(1020),
            pow2(1020) * pow2(1020) == e,
    ;
    assert(z * one == (0x12_0000_0000_0000 * 0x20_0000_0000_0000) * e) by (nonlinear_arith)
        requires
            z == 0x12_0000_0000_0000 * pow2(1019),
            pow2(1019) * one == 0x20_0000_0000_0000 * e,
    ;
    lemma_product_at_most(down, down, 0x3FC2_0000_0000_0000);
}

/// The root of a number up to 0.15625 is up to 0.40625.
proof fn lemma_far_root(a: Binary64)
    requires
        a.magnitude() <= 0x3FC4_0000_0000_0000,
        !a.negative(),
    ensures
        square_root(a).magnitude() <= FARTHEST,
{
    let x = size(a.magnitude());
    let y = size(0x3FC4_0000_0000_0000);
    let z = size(FARTHEST as nat);
    let one = one_in_units();
    lemma2_to64();
    lemma2_to64_rest();
    lemma_size_order(0x3FC4_0000_0000_0000, a.magnitude());
    lemma_size_of(1019, 0x14_0000_0000_0000);
    lemma_size_of(1020, 0x1A_0000_0000_0000);
    lemma_pow2_adds(1020, 1020);
    lemma_pow2_adds(1019, 1074);
    lemma_pow2_adds(53, 2040);
    lemma_pow2_pos(2040);
    let e = pow2(2040);
    assert(x * one <= (0x14_0000_0000_0000 * 0x20_0000_0000_0000) * e) by (nonlinear_arith)
        requires
            0 <= x <= 0x14_0000_0000_0000 * pow2(1019),
            pow2(1019) * one == 0x20_0000_0000_0000 * e,
            one >= 0,
    ;
    assert(z * z == (0x1A_0000_0000_0000 * 0x1A_0000_0000_0000) * e) by (nonlinear_arith)
        requires
            z == 0x1A_0000_0000_0000 * pow2(1020),
            pow2(1020) * pow2(1020) == e,
    ;
    assert((0x14_0000_0000_0000 * 0x20_0000_0000_0000) * e <= (0x1A_0000_0000_0000 * 0x1A_0000_0000_0000) * e)
        by (nonlinear_arith)
        requires
            e > 0,
    ;
    lemma_root_at_most(a, FARTHEST as nat);
}

/// A foot at most 0.125 ahead and 0.125 to 0.375 below is 0.125 to 0.40625 away.
pub(crate) proof fn lemma_reach(target: FootTarget)
    requires
        target.forward.magnitude() <= binade(1019),
        binade(1019) <= target.down.magnitude() <= HIGHEST,
    ensures
        !reach(target).is_nan_spec(),
        binade(1019) <= reach(target).rank() <= FARTHEST,
{
    let ff = product(target.forward, target.forward);
    let dd = product(target.down, target.down);
    let squares = sum(ff, dd);
    lemma_product_below(target.forward, target.forward, 1019, 1019);
    lemma_product_above(target.down, target.down, 1019, 1019);
    lemma_height_squared(target.down);
    lemma2_to64();
    lemma_size_over(1016, 0x10_0000_0000_0000, 1016, 1, 0x10_0000_0000_0000);
    lemma_size_over(1019, 0x12_0000_0000_0000, 1016, 8, 0x90_0000_0000_0000);
    lemma_size_over(1019, 0x14_0000_0000_0000, 1016, 8, 0xA0_0000_0000_0000);
    lemma_sum_below(ff, dd, binade(1016), 0x3FC2_0000_0000_0000, 0x3FC4_0000_0000_0000);
    lemma_sum_grows(zero(), ff, dd);
    lemma_sum_with_zero(dd, zero());
    lemma_far_root(squares);
    lemma_binade(1016);
    lemma_binade(1019);
    lemma_pow2_adds(1068, 1074);
    lemma_pow2_adds(1071, 1071);
    lemma_size_order(squares.magnitude(), binade(1016));
    assert(size(squares.magnitude()) * one_in_units() >= pow2(1068) * one_in_units()) by (nonlinear_arith)
        requires
            size(squares.magnitude()) >= pow2(1068),
            one_in_units() >= 0,
    ;
    lemma_root_at_least(squares, binade(1019));
}

/// The longest reach lies between 0.40625 and 0.5.
proof fn lemma_max_reach()
    ensures
        !max_reach().is_nan_spec(),
        FARTHEST <= max_reach().rank() <= HALF,
{
    let l1 = Binary64 { bits: L1 };
    let l2 = Binary64 { bits: L2 };
    let both = Binary64 { bits: 0x3FDB_4395_8106_24DD };
    let margin = Binary64 { bits: WORKSPACE_MARGIN };
    let far = Binary64 { bits: FARTHEST };
    let half = Binary64 { bits: HALF };
    lemma2_to64();
    lemma_pow2_pos(1015);
    lemma_size_over(1019, 0x1B_4395_8106_24DD, 1015, 16, 0x1B4_3958_1062_4DD0);
    lemma_size_over(1020, 0x1B_4395_8106_24DD, 1015, 32, 0x368_72B0_20C4_9BA0);
    lemma_size_over(1015, 0x14_7AE1_47AE_147B, 1015, 1, 0x14_7AE1_47AE_147B);
    lemma_size_over(1020, 0x1A_0000_0000_0000, 1015, 32, 0x340_0000_0000_0000);
    lemma_size_over(1021, 0x10_0000_0000_0000, 1015, 64, 0x400_0000_0000_0000);
    let e = pow2(1015);
    lemma_opposite(margin);
    assert(both.units() == 0x368_72B0_20C4_9BA0 * e && l1.units() == 0x1B4_3958_1062_4DD0 * e);
    assert(opposite(margin).units() == -(0x14_7AE1_47AE_147B * e));
    assert(far.units() == 0x340_0000_0000_0000 * e && half.units() == 0x400_0000_0000_0000 * e);
    assert(0x1B4_3958_1062_4DD0 * e + 0x1B4_3958_1062_4DD0 * e == 0x368_72B0_20C4_9BA0 * e) by (nonlinear_arith);
    assert(0x340_0000_0000_0000 * e <= 0x368_72B0_20C4_9BA0 * e - 0x14_7AE1_47AE_147B * e <= 0x400_0000_0000_0000 * e) by (nonlinear_arith)
        requires
            e > 0,
    ;
    lemma_sum(l1, l2);
    lemma_rank_of_double(both);
    assert(sum(l1, l2) == both);
    let v = both.units() + opposite(margin).units();
    lemma_sum(both, opposite(margin));
    lemma_rank_keeps_order(far.units(), v);
    lemma_rank_of_double(far);
    lemma_rank_keeps_order(v, half.units());
    lemma_rank_of_double(half);
}

/// Such a foot is within reach.
pub(crate) proof fn lemma_in_reach(target: FootTarget)
    requires
        target.forward.magnitude() <= binade(1019),
        binade(1019) <= target.down.magnitude() <= HIGHEST,
    ensures
        !out_of_reach(target),
{
    lemma_reach(target);
    lemma_max_reach();
}

/// The stand pose, and the pose of a standing robot, are within reach.
pub proof fn law_standing_is_within_reach(leg: Leg)
    ensures
        !out_of_reach(stand_target()),
        !out_of_reach(rest_target(leg)),
{
    lemma_in_reach(stand_target());
    lemma_in_reach(rest_target(leg));
}

/// A distance from one half, of something between 0 and 1, is at most one half.
pub(crate) proof fn lemma_off_middle(t: Binary64)
    requires
        within(t, zero(), Binary64 { bits: UNITY }),
    ensures
        difference(Binary64 { bits: HALF }, t).magnitude() <= HALF,
        difference(t, Binary64 { bits: HALF }).magnitude() <= HALF,
{
    let one = Binary64 { bits: UNITY };
    let half = Binary64 { bits: HALF };
    lemma_opposite(t);
    lemma_opposite(one);
    lemma_opposite(half);
    lemma_sum_grows(opposite(one), opposite(t), half);
    lemma_sum_grows(opposite(t), zero(), half);
    lemma_sum_with_zero(half, zero());
    lemma_sum_grows(zero(), t, opposite(half));
    lemma_sum_with_zero(opposite(half), zero());
    lemma_sum_grows(t, one, opposite(half));
    lemma2_to64();
    lemma_size_over(1022, 0x10_0000_0000_0000, 1021, 2, 0x20_0000_0000_0000);
    lemma_size_over(1021, 0x10_0000_0000_0000, 1021, 1, 0x10_0000_0000_0000);
    assert(half.units() + opposite(one).units() == opposite(half).units());
    assert(one.units() + opposite(half).units() == half.units());
    lemma_sum(half, opposite(one));
    lemma_sum(one, opposite(half));
    lemma_rank_of_double(half);
    lemma_rank_of_double(opposite(half));
}

/// A stance has come between 0 and all of its way.
pub(crate) proof fn lemma_stance_progress(place: Binary64)
    requires
        at_most(zero(), place),
        in_stance(place),
    ensures
        within(stance_progress(place), zero(), Binary64 { bits: UNITY }),
{
    let duty = Binary64 { bits: DUTY_CYCLE };
    lemma_quotient(place, duty);
    lemma_quotient_grows(place, duty, duty);
    lemma_quotient_of_itself(duty);
    if place.negative() {
        lemma_zero_quotient(place, duty);
    }
}

/// A swing has come between 0 and all of its way.
pub(crate) proof fn lemma_swing_progress(place: Binary64)
    requires
        less(place, Binary64 { bits: UNITY }),
        !in_stance(place),
    ensures
        within(swing_progress(place), zero(), Binary64 { bits: UNITY }),
{
    let one = Binary64 { bits: UNITY };
    let duty = Binary64 { bits: DUTY_CYCLE };
    let rest = opposite(duty);
    let passed = sum(place, rest);
    lemma_opposite(duty);
    lemma2_to64();
    lemma_size_over(1022, 0x10_0000_0000_0000, 1021, 2, 0x20_0000_0000_0000);
    lemma_size_over(1021, 0x10_0000_0000_0000, 1021, 1, 0x10_0000_0000_0000);
    lemma_sum(one, rest);
    lemma_rank_of_double(duty);
    assert(sum(one, rest) == duty);
    lemma_sum_grows(place, one, rest);
    lemma_sum_grows(duty, place, rest);
    assert(sum(duty, rest).is_zero());
    lemma_quotient(passed, duty);
    lemma_quotient_grows(passed, duty, duty);
    lemma_quotient_of_itself(duty);
    if passed.negative() {
        lemma_zero_quotient(passed, duty);
    }
}

/// At up to 1 m/s and 2 rad/s a foot is at most 0.125 m ahead or behind.
pub(crate) proof fn lemma_stride(g: Gait, leg: Leg, d: Binary64)
    requires
        g.vel_x.magnitude() <= UNITY,
        g.ang_z.magnitude() <= TWO,
        d.magnitude() <= HALF,
    ensures
        foot_ahead(g, leg, d).magnitude() <= binade(1019),
{
    let travel = Binary64 { bits: TRAVEL };
    let turn_travel = Binary64 { bits: TURN_TRAVEL };
    let sign = lateral_sign(leg);
    lemma_opposite(Binary64 { bits: UNITY });
    lemma_product_below(g.vel_x, d, 1022, 1021);
    lemma_product_below(product(g.vel_x, d), travel, 1021, 1019);
    lemma_product_below(sign, g.ang_z, 1022, 1023);
    lemma_product_below(product(sign, g.ang_z), turn_travel, 1023, 1018);
    lemma_product_below(product(product(sign, g.ang_z), turn_travel), d, 1019, 1021);
    let forward = product(product(g.vel_x, d), travel);
    let turn = product(product(product(sign, g.ang_z), turn_travel), d);
    lemma_opposite(turn);
    lemma_binade(1018);
    lemma_binade(1019);
    lemma2_to64();
    lemma_pow2_adds(1, 1070);
    lemma_sum_below(forward, opposite(turn), binade(1018), binade(1018), binade(1019));
}

/// A swinging foot is lifted by no more than the height of a step, and never pushed into
/// the ground.
pub proof fn law_swing_lifts_the_foot(g: Gait, leg: Leg, place: Binary64, sine: Binary64)
    requires
        within(sine, zero(), Binary64 { bits: UNITY }),
    ensures
        within(
            swing_target(g, leg, place, sine).down,
            difference(Binary64 { bits: NOMINAL_HEIGHT }, Binary64 { bits: STEP_HEIGHT }),
            Binary64 { bits: NOMINAL_HEIGHT },
        ),
{
    let one = Binary64 { bits: UNITY };
    let nominal = Binary64 { bits: NOMINAL_HEIGHT };
    let step = Binary64 { bits: STEP_HEIGHT };
    let lift = product(step, sine);
    lemma_product(step, sine);
    lemma_product_grows(sine, one, step);
    lemma_product_with_one(step);
    if sine.negative() {
        lemma_product_grows(sine, zero(), step);
        lemma_zero_product(step, zero());
    }
    lemma_opposite(lift);
    lemma_opposite(step);
    lemma_sum_grows(opposite(step), opposite(lift), nominal);
    lemma_sum_grows(opposite(lift), zero(), nominal);
    lemma_sum_with_zero(nominal, zero());
}

/// A lifted foot is still 0.125 m or more below the hip.
pub(crate) proof fn lemma_lifted()
    ensures
        binade(1019) <= difference(Binary64 { bits: NOMINAL_HEIGHT }, Binary64 { bits: STEP_HEIGHT }).rank(),
{
    let nominal = Binary64 { bits: NOMINAL_HEIGHT };
    let step = Binary64 { bits: STEP_HEIGHT };
    let low = Binary64 { bits: 0x3FC0_0000_0000_0000 };
    lemma_opposite(step);
    lemma2_to64();
    lemma_pow2_pos(1017);
    lemma_size_over(1020, 0x13_3333_3333_3333, 1017, 8, 0x99_9999_9999_9998);
    lemma_size_over(1017, 0x1E_B851_EB85_1EB8, 1017, 1, 0x1E_B851_EB85_1EB8);
    lemma_size_over(1019, 0x10_0000_0000_0000, 1017, 4, 0x40_0000_0000_0000);
    lemma_sum(nominal, opposite(step));
    lemma_rank_keeps_order(low.units(), nominal.units() + opposite(step).units());
    lemma_rank_of_double(low);
}

/// At up to 1 m/s and 2 rad/s every foot position of the gait is within reach, so the
/// inverse kinematics never has to give up on one.
pub proof fn law_walking_is_within_reach(g: Gait, leg: Leg, place: Binary64, sine: Binary64)
    requires
        g.vel_x.magnitude() <= UNITY,
        g.ang_z.magnitude() <= TWO,
        at_most(zero(), place),
        less(place, Binary64 { bits: UNITY }),
        within(sine, zero(), Binary64 { bits: UNITY }),
    ensures
        in_stance(place) ==> !out_of_reach(stance_target(g, leg, place)),
        !in_stance(place) ==> !out_of_reach(swing_target(g, leg, place, sine)),
{
    let half = Binary64 { bits: HALF };
    if in_stance(place) {
        lemma_stance_progress(place);
        lemma_off_middle(stance_progress(place));
        lemma_stride(g, leg, difference(half, stance_progress(place)));
        lemma_in_reach(stance_target(g, leg, place));
    } else {
        lemma_swing_progress(place);
        lemma_off_middle(swing_progress(place));
        lemma_stride(g, leg, difference(swing_progress(place), half));
        law_swing_lifts_the_foot(g, leg, place, sine);
        lemma_lifted();
        lemma_in_reach(swing_target(g, leg, place, sine));
    }
}

/// The cosines that the law of cosines yields lie within -1 and 1, so that there are
/// angles to them, unless the foot position is no number.
pub proof fn law_cosines_have_angles(target: FootTarget)
    requires
        !reach(target).is_nan_spec(),
    ensures
        within(ik_terms_of(target).knee, opposite(Binary64 { bits: UNITY }), Binary64 { bits: UNITY }),
        within(ik_terms_of(target).thigh, opposite(Binary64 { bits: UNITY }), Binary64 { bits: UNITY }),
{
    if out_of_reach(target) {
        law_standing_is_within_reach(Leg::FL);
        lemma_reach(stand_target());
        lemma_cosines(stand_target());
    } else {
        lemma_cosines(target);
    }
}

proof fn lemma_cosines(target: FootTarget)
    requires
        !reach(target).is_nan_spec(),
        !out_of_reach(target),
    ensures
        within(ik_terms_for(target).knee, opposite(Binary64 { bits: UNITY }), Binary64 { bits: UNITY }),
        within(ik_terms_for(target).thigh, opposite(Binary64 { bits: UNITY }), Binary64 { bits: UNITY }),
{
    let l1 = Binary64 { bits: L1 };
    let l2 = Binary64 { bits: L2 };
    let two = Binary64 { bits: TWO };
    let r = reach(target);
    lemma_max_reach();
    lemma_opposite(Binary64 { bits: UNITY });
    let rr = product(r, r);
    let ll = product(l1, l1);
    lemma_product_below(r, r, 1021, 1021);
    lemma_product_below(l1, l1, 1020, 1020);
    lemma_opposite(ll);
    lemma2_to64();
    lemma_binade(1018);
    lemma_binade(1020);
    lemma_binade(1021);
    lemma_pow2_adds(2, 1070);
    lemma_pow2_adds(3, 1070);
    lemma_binade(1022);
    lemma_pow2_adds(4, 1070);
    lemma_sum_below(rr, opposite(ll), binade(1020), binade(1018), binade(1021));
    lemma_sum_below(rr, ll, binade(1020), binade(1018), binade(1021));
    lemma_sum_below(difference(rr, ll), opposite(ll), binade(1021), binade(1018), binade(1022));
    lemma_sum_below(sum(rr, ll), opposite(ll), binade(1021), binade(1018), binade(1022));
    let knee_side = product(product(two, l1), l2);
    lemma_product_below(two, l1, 1023, 1020);
    lemma_product_below(product(two, l1), l2, 1021, 1020);
    lemma_product_above(two, l1, 1023, 1019);
    lemma_product_above(product(two, l1), l2, 1020, 1019);
    let thigh_side = product(product(two, r), l1);
    lemma_product_below(two, r, 1023, 1021);
    lemma_product_below(product(two, r), l1, 1022, 1020);
    lemma_product_above(two, r, 1023, 1015);
    lemma_product_above(product(two, r), l1, 1016, 1019);
    lemma_quotient(difference(difference(rr, ll), ll), knee_side);
    lemma_quotient(difference(sum(rr, ll), ll), thigh_side);
}

} // verus!
