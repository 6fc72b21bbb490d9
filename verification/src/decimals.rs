//! The parameters of the library are held as bit patterns.  Each is the double nearest to
//! the decimal that it is meant to be.

use vstd::prelude::*;
use crate::binary64::nearness::{close, grain, lemma_bounded_product, lemma_cancel, lemma_grain, lemma_times_bound};
use crate::binary64::arithmetic::product;
use vstd::arithmetic::power2::{lemma2_to64, lemma2_to64_rest, lemma_pow2_adds, lemma_pow2_pos, pow2};
use crate::{behavior, camera, fusion, gait, lidar, teleop};
use crate::binary64::convert::{from_whole, one_in_units};
use crate::binary64::facts::{
    lemma_nearest_keeps, lemma_nearest_keeps_order, lemma_product_commutes, lemma_rounding_error, lemma_whole_is_exact,
};
use crate::binary64::model::{
    exponent, lemma_nearest_exists, lemma_nearest_is, lemma_parts, lemma_size_of, lemma_size_order, rounds_to,
    significand, size, Binary64, BINADE, INFINITY,
};

verus! {

/// `bits` is the double nearest to `num / den`.
pub open spec fn is_decimal(bits: u64, num: nat, den: nat) -> bool {
    rounds_to(num * one_in_units(), den, bits as nat)
}

proof fn lemma_powers()
    ensures
        pow2(72) == 0x1_00_0000_0000_0000_0000,
        pow2(48) == 0x1_0000_0000_0000,
        pow2(50) == 0x4_0000_0000_0000,
        pow2(51) == 0x8_0000_0000_0000,
        pow2(52) == 0x10_0000_0000_0000,
        pow2(53) == 0x20_0000_0000_0000,
        pow2(54) == 0x40_0000_0000_0000,
        pow2(55) == 0x80_0000_0000_0000,
        pow2(56) == 0x100_0000_0000_0000,
        pow2(57) == 0x200_0000_0000_0000,
        pow2(58) == 0x400_0000_0000_0000,
        pow2(59) == 0x800_0000_0000_0000,
        pow2(60) == 0x1000_0000_0000_0000,
{
    lemma2_to64();
    lemma2_to64_rest();
    lemma_pow2_adds(64, 8);
}

/// A pattern whose value is exactly `num / den`; `g` is how far its last bit lies below 1.
proof fn lemma_exact(bits: u64, num: nat, den: nat, g: nat)
    requires
        den > 0,
        bits < INFINITY,
        exponent(bits as nat) + g == 1074,
        num * pow2(g) == significand(bits as nat) * den,
    ensures
        is_decimal(bits, num, den),
{
    let p = bits as nat;
    let t = pow2(exponent(p));
    lemma_pow2_adds(exponent(p), g);
    assert(num * one_in_units() == size(p) * den) by (nonlinear_arith)
        requires
            one_in_units() == t * pow2(g),
            size(p) == significand(p) * t,
            num * pow2(g) == significand(p) * den,
    ;
    lemma_nearest_exists(size(p) * den, den);
    lemma_nearest_keeps(p, den);
}

/// A pattern whose neighbours are farther from `num / den` than it is.
pub(crate) proof fn lemma_nearest(bits: u64, num: nat, den: nat, g: nat)
    requires
        den > 0,
        0 < bits < INFINITY,
        exponent(bits as nat) + g == 1074,
        significand(bits as nat) > BINADE,
        (2 * significand(bits as nat) - 1) * den < 2 * (num * pow2(g)) < (2 * significand(bits as nat) + 1) * den,
    ensures
        is_decimal(bits, num, den),
{
    let p = bits as nat;
    let s = significand(p);
    let e = exponent(p);
    let t = pow2(e);
    let n = num * one_in_units();
    lemma_pow2_adds(e, g);
    lemma_pow2_pos(e);
    lemma_parts(p);
    lemma_size_of(e, (s - 1) as nat);
    lemma_size_of(e, s + 1);
    assert(n == (num * pow2(g)) * t) by (nonlinear_arith)
        requires
            n == num * one_in_units(),
            one_in_units() == t * pow2(g),
    ;
    let x = num * pow2(g);
    assert((size((p - 1) as nat) + size(p)) * den == ((2 * s - 1) * den) * t && (size(p) + size(p + 1)) * den == ((2 * s
        + 1) * den) * t) by (nonlinear_arith)
        requires
            size((p - 1) as nat) == (s - 1) * t,
            size(p) == s * t,
            size(p + 1) == (s + 1) * t,
    ;
    assert(((2 * s - 1) * den) * t < (2 * x) * t < ((2 * s + 1) * den) * t) by (nonlinear_arith)
        requires
            (2 * s - 1) * den < 2 * x < (2 * s + 1) * den,
            t > 0,
    ;
    assert((2 * x) * t == 2 * n) by (nonlinear_arith)
        requires
            n == x * t,
    ;
}

/// The double nearest to a decimal is that decimal, up to a few grains.
pub proof fn lemma_decimal_value(bits: u64, num: nat, den: nat)
    requires
        is_decimal(bits, num, den),
        0 < den <= 0x1000,
        num <= 0x1000,
    ensures
        bits < INFINITY,
        close((den * size(bits as nat)) as int, (num * one_in_units()) as int, ((num + 1) * grain()) as int),
{
    let n = num * one_in_units();
    let p = bits as nat;
    let one = one_in_units();
    let g = grain() as int;
    let u = 2 * BINADE as int;
    lemma_grain();
    lemma_nearest_is(n, den, p);
    lemma_whole_is_exact(num);
    lemma_size_order(from_whole(num).magnitude(), INFINITY as nat);
    assert(n < size(INFINITY as nat) * den) by (nonlinear_arith)
        requires
            n < size(INFINITY as nat),
            den >= 1,
    ;
    // not beyond the largest whole number of that size
    let q = from_whole(num).magnitude();
    lemma_nearest_keeps(q, den);
    assert(n * den <= (size(q) * den) * den) by (nonlinear_arith)
        requires
            n == size(q),
            den >= 1,
    ;
    lemma_nearest_keeps_order(n, den, size(q) * den, den);
    lemma_rounding_error(n, den);
    let e = den * size(p) - n;
    let m = num as int;
    let d = den as int;
    assert(size(p) * den == den * size(p)) by (nonlinear_arith);
    assert(-((m + 1) * g) <= e <= (m + 1) * g) by (nonlinear_arith)
        requires
            u * (n + e) <= u * n + n + u * d,
            u * n <= u * (n + e) + n + u * d,
            n == m * one,
            one == u * g,
            u == 0x20_0000_0000_0000,
            g >= 0x1_0000_0000,
            0 < d <= 0x1000,
            m >= 0,
    {
        assert(n == u * (m * g));
        assert(u * (n + e) == u * n + u * e);
        assert(u * e <= u * (m * g + d));
        assert(u * e >= -(u * (m * g + d)));
        assert(e <= m * g + d);
        assert(e >= -(m * g + d));
        assert((m + 1) * g == m * g + g);
    }
}

/// A number of at most `k` times a decimal, up to some grains.
pub proof fn lemma_times_decimal(a: Binary64, bits: u64, num: nat, den: nat, k: nat)
    requires
        a.finite(),
        close(a.units(), 0, (k * one_in_units()) as int),
        is_decimal(bits, num, den),
        0 < den <= 0x1000,
        num <= 0x100,
        k <= 0x100,
    ensures
        product(a, Binary64 { bits }).finite(),
        product(a, Binary64 { bits }).negative() == a.negative(),
        close(
            den * product(a, Binary64 { bits }).units(),
            num * a.units(),
            (((den + 1) * (k * (num + 1) + 1)) * grain()) as int,
        ),
        product(a, Binary64 { bits }) == product(Binary64 { bits }, a),
{
    let c = Binary64 { bits };
    let one = one_in_units() as int;
    let g = grain() as int;
    let x = size(a.magnitude()) as int;
    let y = size(bits as nat) as int;
    let (n, d, m) = (num as int, den as int, k as int);
    lemma_grain();
    lemma_decimal_value(bits, num, den);
    lemma_product_commutes(a, c);
    assert(y <= (n + 1) * one) by (nonlinear_arith)
        requires
            d * y <= n * one + (n + 1) * g,
            d >= 1,
            y >= 0,
            one == 0x20_0000_0000_0000 * g,
            g > 0,
            0 <= n <= 0x100,
    {
        assert(y <= d * y);
        assert((n + 1) * g <= one);
    }
    assert(x * y <= (m * (n + 1)) * (one * one)) by (nonlinear_arith)
        requires
            0 <= x <= m * one,
            0 <= y <= (n + 1) * one,
    {
        assert(x * y <= (m * one) * ((n + 1) * one));
    }
    let b = m * (n + 1);
    assert(0 <= b <= 0x100 * 0x101) by (nonlinear_arith)
        requires
            b == m * (n + 1),
            0 <= m <= 0x100,
            0 <= n <= 0x100,
    ;
    lemma_bounded_product(a, c, (k * (num + 1)));
    let p = product(a, c).units();
    let v = a.units();
    lemma_times_bound(v, d * y - n * one, m * one, (n + 1) * g);
    let limit = ((d + 1) * (b + 1)) * g;
    let e = d * p - n * v;
    let f = p * one - v * y;
    let h = (b + 1) * (g * one);
    assert(((b + 1) * g) * one == h) by (nonlinear_arith)
        requires
            h == (b + 1) * (g * one),
    ;
    assert(e * one == d * (p * one) - n * (v * one)) by (nonlinear_arith)
        requires
            e == d * p - n * v,
    ;
    assert(d * f == d * (p * one) - d * (v * y)) by (nonlinear_arith)
        requires
            f == p * one - v * y,
    ;
    assert(v * (d * y - n * one) == d * (v * y) - n * (v * one)) by (nonlinear_arith);
    lemma_times_bound(d, f, d, h);
    assert((m * one) * ((n + 1) * g) == b * (g * one)) by (nonlinear_arith)
        requires
            b == m * (n + 1),
    ;
    assert(h == b * (g * one) + g * one && g * one >= 0) by (nonlinear_arith)
        requires
            h == (b + 1) * (g * one),
            g > 0,
            one > 0,
    ;
    assert(limit * one == d * h + h) by (nonlinear_arith)
        requires
            limit == ((d + 1) * (b + 1)) * g,
            h == (b + 1) * (g * one),
    ;
    lemma_cancel(e, limit, one);
}

/// The parameters of the behavior machine are the decimals that their descriptions give.
pub proof fn law_behavior_decimals()
    ensures
        is_decimal(behavior::TILT_LIMIT, 78, 100),
        is_decimal(behavior::TILT_WARNING, 52, 100),
        is_decimal(behavior::FLIPPED, 157, 100),
        is_decimal(behavior::APPREHEND_DISTANCE, 3, 1),
        is_decimal(behavior::INTRUDER_STOPPED_THRESHOLD, 5, 10),
        is_decimal(behavior::LOST_TIMEOUT_SECS, 5, 1),
        is_decimal(behavior::STALE_SECS, 1, 1),
        is_decimal(behavior::PURSUIT_MAX_SPEED, 15, 100),
        is_decimal(behavior::PURSUIT_MIN_SPEED, 5, 100),
        is_decimal(behavior::PURSUIT_SLOW_DISTANCE, 3, 1),
        is_decimal(behavior::PURSUIT_STEERING_GAIN, 5, 10),
        is_decimal(behavior::PURSUIT_STEERING_LIMIT, 3, 10),
        is_decimal(behavior::TURN_IN_PLACE_BEARING, 44, 100),
        is_decimal(behavior::TURN_IN_PLACE_RATE, 25, 100),
        is_decimal(behavior::BEARING_SLOWDOWN, 6, 10),
        is_decimal(behavior::HOLD_BEARING, 1, 10),
        is_decimal(behavior::LOST_SPEED, 1, 10),
        is_decimal(behavior::SEARCH_RATE, 3, 10),
        is_decimal(behavior::PATROL_SPEED, 2, 10),
        is_decimal(behavior::PATROL_YAW_GAIN, 3, 10),
        is_decimal(behavior::TROT_SPEED, 3, 10),
        is_decimal(behavior::HALF, 5, 10),
        is_decimal(behavior::UNITY, 1, 1),
        is_decimal(behavior::TWO, 2, 1),
{
    lemma_powers();
    lemma_nearest(behavior::TILT_LIMIT, 78, 100, 53);
    lemma_nearest(behavior::TILT_WARNING, 52, 100, 53);
    lemma_nearest(behavior::FLIPPED, 157, 100, 52);
    lemma_exact(behavior::APPREHEND_DISTANCE, 3, 1, 51);
    lemma_exact(behavior::INTRUDER_STOPPED_THRESHOLD, 5, 10, 53);
    lemma_exact(behavior::LOST_TIMEOUT_SECS, 5, 1, 50);
    lemma_exact(behavior::STALE_SECS, 1, 1, 52);
    lemma_nearest(behavior::PURSUIT_MAX_SPEED, 15, 100, 55);
    lemma_nearest(behavior::PURSUIT_MIN_SPEED, 5, 100, 57);
    lemma_exact(behavior::PURSUIT_SLOW_DISTANCE, 3, 1, 51);
    lemma_exact(behavior::PURSUIT_STEERING_GAIN, 5, 10, 53);
    lemma_nearest(behavior::PURSUIT_STEERING_LIMIT, 3, 10, 54);
    lemma_nearest(behavior::TURN_IN_PLACE_BEARING, 44, 100, 54);
    lemma_exact(behavior::TURN_IN_PLACE_RATE, 25, 100, 54);
    lemma_nearest(behavior::BEARING_SLOWDOWN, 6, 10, 53);
    lemma_nearest(behavior::HOLD_BEARING, 1, 10, 56);
    lemma_nearest(behavior::LOST_SPEED, 1, 10, 56);
    lemma_nearest(behavior::SEARCH_RATE, 3, 10, 54);
    lemma_nearest(behavior::PATROL_SPEED, 2, 10, 55);
    lemma_nearest(behavior::PATROL_YAW_GAIN, 3, 10, 54);
    lemma_nearest(behavior::TROT_SPEED, 3, 10, 54);
    lemma_exact(behavior::HALF, 5, 10, 53);
    lemma_exact(behavior::UNITY, 1, 1, 52);
    lemma_exact(behavior::TWO, 2, 1, 51);
}

/// The parameters of the point cloud search are the decimals that their descriptions give.
pub proof fn law_lidar_decimals()
    ensures
        is_decimal(lidar::MAX_RANGE, 20, 1),
        is_decimal(lidar::MIN_RANGE, 8, 10),
        is_decimal(lidar::GROUND, 15, 100),
        is_decimal(lidar::BAND_BOTTOM, 3, 10),
        is_decimal(lidar::BAND_TOP, 2, 1),
        is_decimal(lidar::MIN_WIDTH, 3, 10),
        is_decimal(lidar::MAX_WIDTH, 8, 10),
        is_decimal(lidar::MIN_HEIGHT, 5, 10),
        is_decimal(lidar::MAX_HEIGHT, 2, 1),
{
    lemma_powers();
    lemma_exact(lidar::MAX_RANGE, 20, 1, 48);
    lemma_nearest(lidar::MIN_RANGE, 8, 10, 53);
    lemma_nearest(lidar::GROUND, 15, 100, 55);
    lemma_nearest(lidar::BAND_BOTTOM, 3, 10, 54);
    lemma_exact(lidar::BAND_TOP, 2, 1, 51);
    lemma_nearest(lidar::MIN_WIDTH, 3, 10, 54);
    lemma_nearest(lidar::MAX_WIDTH, 8, 10, 53);
    lemma_exact(lidar::MIN_HEIGHT, 5, 10, 53);
    lemma_exact(lidar::MAX_HEIGHT, 2, 1, 51);
}

/// The parameters of the image search are the decimals that their descriptions give.
pub proof fn law_camera_decimals()
    ensures
        is_decimal(camera::FIELD_OF_VIEW, 15, 10),
        is_decimal(camera::TWO, 2, 1),
{
    lemma_powers();
    lemma_exact(camera::FIELD_OF_VIEW, 15, 10, 52);
    lemma_exact(camera::TWO, 2, 1, 51);
}

/// The parameters of the sensor fusion are the decimals that their descriptions give.
pub proof fn law_fusion_decimals()
    ensures
        is_decimal(fusion::MIN_INTERVAL, 5, 100),
        is_decimal(fusion::MAX_SPEED, 5, 1),
        is_decimal(fusion::LIDAR_WEIGHT, 3, 10),
        is_decimal(fusion::CAMERA_WEIGHT, 7, 10),
        is_decimal(fusion::MAX_JUMP, 105, 100),
        is_decimal(fusion::SMOOTHING, 1, 10),
        is_decimal(fusion::UNITY, 1, 1),
{
    lemma_powers();
    lemma_nearest(fusion::MIN_INTERVAL, 5, 100, 57);
    lemma_exact(fusion::MAX_SPEED, 5, 1, 50);
    lemma_nearest(fusion::LIDAR_WEIGHT, 3, 10, 54);
    lemma_nearest(fusion::CAMERA_WEIGHT, 7, 10, 53);
    lemma_nearest(fusion::MAX_JUMP, 105, 100, 52);
    lemma_nearest(fusion::SMOOTHING, 1, 10, 56);
    lemma_exact(fusion::UNITY, 1, 1, 52);
}

/// The parameters of the gait are the decimals that their descriptions give.
pub proof fn law_gait_decimals()
    ensures
        is_decimal(gait::L1, 213, 1000),
        is_decimal(gait::L2, 213, 1000),
        is_decimal(gait::HIP_Y_OFFSET, 8, 100),
        is_decimal(gait::NOMINAL_HEIGHT, 3, 10),
        is_decimal(gait::STEP_HEIGHT, 6, 100),
        is_decimal(gait::DUTY_CYCLE, 5, 10),
        is_decimal(gait::WORKSPACE_MARGIN, 1, 100),
        is_decimal(gait::TINY, 1, 1000000),
        is_decimal(gait::MOVING_THRESHOLD, 1, 100),
        is_decimal(gait::TURN_WEIGHT, 2, 10),
        is_decimal(gait::MIN_FREQUENCY, 1, 1),
        is_decimal(gait::MAX_FREQUENCY, 4, 1),
        is_decimal(gait::START_FREQUENCY, 2, 1),
        is_decimal(gait::FREQUENCY_GAIN, 5, 1),
        is_decimal(gait::TRAVEL, 1, 10),
        is_decimal(gait::TURN_TRAVEL, 5, 100),
        is_decimal(gait::HALF, 5, 10),
        is_decimal(gait::UNITY, 1, 1),
        is_decimal(gait::TWO, 2, 1),
{
    lemma_powers();
    lemma_nearest(gait::L1, 213, 1000, 55);
    lemma_nearest(gait::L2, 213, 1000, 55);
    lemma_nearest(gait::HIP_Y_OFFSET, 8, 100, 56);
    lemma_nearest(gait::NOMINAL_HEIGHT, 3, 10, 54);
    lemma_nearest(gait::STEP_HEIGHT, 6, 100, 57);
    lemma_exact(gait::DUTY_CYCLE, 5, 10, 53);
    lemma_nearest(gait::WORKSPACE_MARGIN, 1, 100, 59);
    lemma_nearest(gait::TINY, 1, 1000000, 72);
    lemma_nearest(gait::MOVING_THRESHOLD, 1, 100, 59);
    lemma_nearest(gait::TURN_WEIGHT, 2, 10, 55);
    lemma_exact(gait::MIN_FREQUENCY, 1, 1, 52);
    lemma_exact(gait::MAX_FREQUENCY, 4, 1, 50);
    lemma_exact(gait::START_FREQUENCY, 2, 1, 51);
    lemma_exact(gait::FREQUENCY_GAIN, 5, 1, 50);
    lemma_nearest(gait::TRAVEL, 1, 10, 56);
    lemma_nearest(gait::TURN_TRAVEL, 5, 100, 57);
    lemma_exact(gait::HALF, 5, 10, 53);
    lemma_exact(gait::UNITY, 1, 1, 52);
    lemma_exact(gait::TWO, 2, 1, 51);
}

/// The parameters of the keyboard are the decimals that their descriptions give.
pub proof fn law_teleop_decimals()
    ensures
        is_decimal(teleop::VEL_STEP, 5, 100),
        is_decimal(teleop::ANG_STEP, 1, 10),
        is_decimal(teleop::VEL_MAX, 6, 10),
        is_decimal(teleop::ANG_MAX, 15, 10),
{
    lemma_powers();
    lemma_nearest(teleop::VEL_STEP, 5, 100, 57);
    lemma_nearest(teleop::ANG_STEP, 1, 10, 56);
    lemma_nearest(teleop::VEL_MAX, 6, 10, 53);
    lemma_exact(teleop::ANG_MAX, 15, 10, 52);
}

} // verus!
