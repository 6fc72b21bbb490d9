//! What holds of the fusion as a whole.

use vstd::prelude::*;
use vstd::arithmetic::power2::{lemma2_to64, lemma2_to64_rest, lemma_pow2_adds, lemma_pow2_pos, pow2};
use crate::binary64::arithmetic::{difference, opposite, product};
use crate::binary64::convert::one_in_units;
use crate::binary64::facts::{
    lemma_opposite, lemma_product, lemma_product_grows, lemma_quotient, lemma_rounds_down, lemma_signed,
    lemma_size_of_one, lemma_size_over, lemma_sum, lemma_sum_below, within,
};
use crate::binary64::model::{lemma_between, lemma_nearest_is, lemma_size_of, size, Binary64, INFINITY};
use crate::binary64::order::{absolute, less};
use crate::clock::{law_seconds_are_finite, seconds, since};
use crate::fusion::{
    accepted_bearing, blended, fused, raw_velocity, DetectionState, MAX_JUMP, MAX_SPEED, MIN_INTERVAL, SMOOTHING, UNITY,
};

verus! {

/// 0.9, the weight of the smoothed value.
pub(crate) const REST: u64 = 0x3FEC_CCCC_CCCC_CCCD;

/// 0.5.
const HALF: u64 = 0x3FE0_0000_0000_0000;

/// 4.5.
const MOST_OF_IT: u64 = 0x4012_0000_0000_0000;

/// The two weights of the moving average are 0.1 and 0.9.
pub(crate) proof fn lemma_rest_weight()
    ensures
        difference(Binary64 { bits: UNITY }, Binary64 { bits: SMOOTHING }) == (Binary64 { bits: REST }),
{
    let one = Binary64 { bits: UNITY };
    let weight = Binary64 { bits: SMOOTHING };
    let e = pow2(1018);
    lemma_opposite(weight);
    lemma2_to64();
    lemma_pow2_pos(1018);
    lemma_size_over(1022, 0x10_0000_0000_0000, 1018, 16, 0x100_0000_0000_0000);
    lemma_size_over(1018, 0x19_9999_9999_999A, 1018, 1, 0x19_9999_9999_999A);
    lemma_size_over(1021, 0x1C_CCCC_CCCC_CCCC, 1018, 8, 0xE6_6666_6666_6660);
    lemma_size_over(1021, 0x1C_CCCC_CCCC_CCCD, 1018, 8, 0xE6_6666_6666_6668);
    let v = one.units() + opposite(weight).units();
    let p = (REST - 1) as nat;
    assert(one.units() == 0x100_0000_0000_0000 * e && weight.units() == 0x19_9999_9999_999A * e);
    assert(size(p) == 0xE6_6666_6666_6660 * e && size(p + 1) == 0xE6_6666_6666_6668 * e);
    assert(0x100_0000_0000_0000 * e - 0x19_9999_9999_999A * e == 0xE6_6666_6666_6666 * e) by (nonlinear_arith);
    let n = v as nat;
    assert(n == 0xE6_6666_6666_6666 * e);
    lemma_between(n, 1, p);
    lemma_nearest_is(n, 1, REST as nat);
}

/// The weight of the smoothed value is the double nearest to 0.9.
pub(crate) proof fn lemma_rest_decimal()
    ensures
        crate::decimals::is_decimal(REST, 9, 10),
{
    lemma2_to64();
    lemma2_to64_rest();
    crate::decimals::lemma_nearest(REST, 9, 10, 53);
}

/// A tenth of the highest speed.
proof fn lemma_new_share()
    ensures
        product(Binary64 { bits: SMOOTHING }, Binary64 { bits: MAX_SPEED }).magnitude() == HALF,
{
    let weight = Binary64 { bits: SMOOTHING };
    let fastest = Binary64 { bits: MAX_SPEED };
    let one = one_in_units();
    let e = pow2(2042);
    let n = size(weight.magnitude()) * size(fastest.magnitude());
    lemma2_to64();
    lemma2_to64_rest();
    lemma_size_of_one();
    lemma_size_of(1018, 0x19_9999_9999_999A);
    lemma_size_of(1024, 0x14_0000_0000_0000);
    lemma_size_of(1021, 0x10_0000_0000_0000);
    lemma_size_of(1021, 0x10_0000_0000_0001);
    lemma_pow2_adds(1018, 1024);
    lemma_pow2_adds(1021, 1074);
    lemma_pow2_adds(53, 2042);
    lemma_pow2_pos(2042);
    assert(n == (0x19_9999_9999_999A * 0x14_0000_0000_0000) * e) by (nonlinear_arith)
        requires
            n == (0x19_9999_9999_999A * pow2(1018)) * (0x14_0000_0000_0000 * pow2(1024)),
            pow2(1018) * pow2(1024) == e,
    ;
    let p = HALF as nat;
    assert(size(p) * one == (0x10_0000_0000_0000 * 0x20_0000_0000_0000) * e) by (nonlinear_arith)
        requires
            size(p) == 0x10_0000_0000_0000 * pow2(1021),
            pow2(1021) * one == 0x20_0000_0000_0000 * e,
    ;
    assert((size(p) + size(p + 1)) * one == (0x20_0000_0000_0001 * 0x20_0000_0000_0000) * e) by (nonlinear_arith)
        requires
            size(p) == 0x10_0000_0000_0000 * pow2(1021),
            size(p + 1) == 0x10_0000_0000_0001 * pow2(1021),
            pow2(1021) * one == 0x20_0000_0000_0000 * e,
    ;
    assert((0x10_0000_0000_0000 * 0x20_0000_0000_0000) * e <= n && 2 * n < (0x20_0000_0000_0001
        * 0x20_0000_0000_0000) * e) by (nonlinear_arith)
        requires
            n == (0x19_9999_9999_999A * 0x14_0000_0000_0000) * e,
            e > 0,
    ;
    lemma_product(weight, fastest);
    lemma_rounds_down(n, one, p);
}

/// Nine tenths of the highest speed.
proof fn lemma_old_share()
    ensures
        product(Binary64 { bits: REST }, Binary64 { bits: MAX_SPEED }).magnitude() == MOST_OF_IT,
{
    let weight = Binary64 { bits: REST };
    let fastest = Binary64 { bits: MAX_SPEED };
    let one = one_in_units();
    let e = pow2(2045);
    let n = size(weight.magnitude()) * size(fastest.magnitude());
    lemma2_to64();
    lemma2_to64_rest();
    lemma_size_of_one();
    lemma_size_of(1021, 0x1C_CCCC_CCCC_CCCD);
    lemma_size_of(1024, 0x14_0000_0000_0000);
    lemma_size_of(1024, 0x12_0000_0000_0000);
    lemma_size_of(1024, 0x12_0000_0000_0001);
    lemma_pow2_adds(1021, 1024);
    lemma_pow2_adds(1024, 1074);
    lemma_pow2_adds(53, 2045);
    lemma_pow2_pos(2045);
    assert(n == (0x1C_CCCC_CCCC_CCCD * 0x14_0000_0000_0000) * e) by (nonlinear_arith)
        requires
            n == (0x1C_CCCC_CCCC_CCCD * pow2(1021)) * (0x14_0000_0000_0000 * pow2(1024)),
            pow2(1021) * pow2(1024) == e,
    ;
    let p = MOST_OF_IT as nat;
    assert(size(p) * one == (0x12_0000_0000_0000 * 0x20_0000_0000_0000) * e) by (nonlinear_arith)
        requires
            size(p) == 0x12_0000_0000_0000 * pow2(1024),
            pow2(1024) * one == 0x20_0000_0000_0000 * e,
    ;
    assert((size(p) + size(p + 1)) * one == (0x24_0000_0000_0001 * 0x20_0000_0000_0000) * e) by (nonlinear_arith)
        requires
            size(p) == 0x12_0000_0000_0000 * pow2(1024),
            size(p + 1) == 0x12_0000_0000_0001 * pow2(1024),
            pow2(1024) * one == 0x20_0000_0000_0000 * e,
    ;
    assert((0x12_0000_0000_0000 * 0x20_0000_0000_0000) * e <= n && 2 * n < (0x24_0000_0000_0001
        * 0x20_0000_0000_0000) * e) by (nonlinear_arith)
        requires
            n == (0x1C_CCCC_CCCC_CCCD * 0x14_0000_0000_0000) * e,
            e > 0,
    ;
    lemma_product(weight, fastest);
    lemma_rounds_down(n, one, p);
}

/// The moving average of two speeds up to 5 m/s is one.
proof fn lemma_blended_speed(new: Binary64, smoothed: Binary64)
    requires
        new.magnitude() <= MAX_SPEED,
        smoothed.magnitude() <= MAX_SPEED,
    ensures
        blended(new, smoothed).magnitude() <= MAX_SPEED,
        !blended(new, smoothed).is_nan_spec(),
{
    let weight = Binary64 { bits: SMOOTHING };
    let rest = Binary64 { bits: REST };
    let fastest = Binary64 { bits: MAX_SPEED };
    lemma_rest_weight();
    lemma_new_share();
    lemma_old_share();
    lemma_product_grows(new, fastest, weight);
    lemma_product_grows(smoothed, fastest, rest);
    lemma2_to64();
    lemma_size_over(1021, 0x10_0000_0000_0000, 1021, 1, 0x10_0000_0000_0000);
    lemma_size_over(1024, 0x12_0000_0000_0000, 1021, 8, 0x90_0000_0000_0000);
    lemma_size_over(1024, 0x14_0000_0000_0000, 1021, 8, 0xA0_0000_0000_0000);
    let e = pow2(1021);
    assert(size(HALF as nat) == 0x10_0000_0000_0000 * e);
    assert(size(MOST_OF_IT as nat) == 0x90_0000_0000_0000 * e && size(MAX_SPEED as nat) == 0xA0_0000_0000_0000 * e);
    assert(0x10_0000_0000_0000 * e + 0x90_0000_0000_0000 * e == 0xA0_0000_0000_0000 * e) by (nonlinear_arith);
    lemma_sum_below(
        product(weight, new),
        product(rest, smoothed),
        HALF as nat,
        MOST_OF_IT as nat,
        MAX_SPEED as nat,
    );
}

/// A speed of at most 5 m/s either way.
pub open spec fn plausible(velocity: Binary64) -> bool {
    within(velocity, opposite(Binary64 { bits: MAX_SPEED }), Binary64 { bits: MAX_SPEED })
}

/// The estimated velocity is always plausible, and so is its moving average, unless a
/// distance is no finite number.
pub proof fn law_velocity_stays_plausible(s: DetectionState, now: u64)
    requires
        s.lidar_distance.finite(),
        s.prev_distance.finite(),
        plausible(s.smoothed_velocity),
    ensures
        plausible(raw_velocity(s, now)),
        plausible(fused(s, now).smoothed_velocity),
{
    lemma_opposite(Binary64 { bits: MAX_SPEED });
    lemma_opposite(s.prev_distance);
    lemma_sum(s.lidar_distance, opposite(s.prev_distance));
    let change = difference(s.lidar_distance, s.prev_distance);
    if let Some(earlier) = s.prev_time {
        let dt = seconds(since(now, earlier));
        law_seconds_are_finite(since(now, earlier));
        lemma_signed(true, INFINITY as nat);
        lemma_signed(false, INFINITY as nat);
        if change.finite() && less(Binary64 { bits: MIN_INTERVAL }, dt) {
            lemma_quotient(change, dt);
        }
    }
    lemma_blended_speed(raw_velocity(s, now), s.smoothed_velocity);
}

/// A bearing that is taken in never lies more than 1.05 rad from the smoothed one, once
/// there is one.
pub proof fn law_bearing_does_not_jump(s: DetectionState)
    requires
        s.smoothed_bearing.finite(),
        !s.smoothed_bearing.is_zero(),
    ensures
        !less(Binary64 { bits: MAX_JUMP }, absolute(difference(accepted_bearing(s), s.smoothed_bearing))),
{
    let b = s.smoothed_bearing;
    lemma_opposite(b);
    lemma_signed(false, 0);
    lemma_signed(true, 0);
}

/// While neither sensor detects anything the last bearing is taken in again.
pub proof fn law_bearing_is_held(s: DetectionState)
    requires
        !s.lidar_detected,
        !s.camera_detected,
    ensures
        accepted_bearing(s) == s.smoothed_bearing,
{
}

} // verus!
