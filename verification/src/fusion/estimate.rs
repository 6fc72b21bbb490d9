//! What the fusion makes of its measurements, up to rounding.

use vstd::prelude::*;
use crate::clock::{law_fifty_milliseconds, law_seconds_are_accurate, seconds, since, NANOS_PER_SECOND};
use crate::binary64::arithmetic::{difference, opposite, product, quotient};
use crate::binary64::convert::one_in_units;
use crate::binary64::facts::{lemma_opposite, lemma_units_order, lemma_whole_is_exact};
use crate::binary64::model::{lemma_size_small, size, Binary64};
use crate::binary64::nearness::{
    close, grain, lemma_bounded_quotient, lemma_bounded_sum, lemma_cancel, lemma_grain, lemma_times_bound, moderate,
};

use crate::decimals::{law_fusion_decimals, lemma_decimal_value, lemma_times_decimal};
use crate::fusion::laws::{lemma_rest_weight, REST};
use crate::fusion::{
    accepted_bearing, blended, fused, raw_bearing, raw_velocity, DetectionState, CAMERA_WEIGHT, LIDAR_WEIGHT, MAX_JUMP,
    MAX_SPEED, MIN_INTERVAL, SMOOTHING,
};

verus! {

/// A turn of the fusion keeps what the sensors saw, and remembers the distance and the time
/// of a detection in the point cloud, and only of such a one.
pub proof fn law_readings_are_kept(s: DetectionState, now: u64)
    ensures
        ({
            let after = fused(s, now);
            &&& after.lidar_detected == s.lidar_detected && after.camera_detected == s.camera_detected
            &&& after.lidar_distance == s.lidar_distance && after.lidar_bearing == s.lidar_bearing
            &&& after.camera_bearing == s.camera_bearing && after.camera_red_ratio == s.camera_red_ratio
            &&& after.lidar_total_points == s.lidar_total_points
            &&& after.lidar_filtered_points == s.lidar_filtered_points
            &&& after.lidar_msg_count == s.lidar_msg_count && after.camera_msg_count == s.camera_msg_count
            &&& after.camera_red_count == s.camera_red_count
            &&& s.lidar_detected ==> after.prev_distance == s.lidar_distance && after.prev_time == Some(now)
            &&& !s.lidar_detected ==> after.prev_distance == s.prev_distance && after.prev_time == s.prev_time
        }),
{
}

/// A first measurement is taken as it is: while there is no smoothed distance, distance and
/// bearing are those that the sensors give, and there is no velocity yet.
pub proof fn law_first_measurement(s: DetectionState, now: u64)
    requires
        s.smoothed_distance.is_zero(),
        s.smoothed_bearing.is_zero(),
    ensures
        ({
            let after = fused(s, now);
            &&& after.smoothed_distance == s.lidar_distance
            &&& after.smoothed_velocity.bits == 0
            &&& s.camera_detected && !s.lidar_detected ==> after.smoothed_bearing == s.camera_bearing
            &&& s.lidar_detected && !s.camera_detected ==> after.smoothed_bearing == s.lidar_bearing
            &&& !s.lidar_detected && !s.camera_detected ==> after.smoothed_bearing == s.smoothed_bearing
            &&& s.lidar_detected && s.camera_detected && moderate(s.lidar_bearing, 8) && moderate(s.camera_bearing, 8)
                ==> moderate(after.smoothed_bearing, 9) && close(
                10 * after.smoothed_bearing.units(),
                3 * s.lidar_bearing.units() + 7 * s.camera_bearing.units(),
                1400 * grain() as int,
            )
        }),
{
    if s.lidar_detected && s.camera_detected && moderate(s.lidar_bearing, 8) && moderate(s.camera_bearing, 8) {
        lemma_both(s);
    }
}

/// While there is no smoothed distance, every bearing that is accepted is taken as it is,
/// whichever sensor gave it, and so is the distance.
pub proof fn law_nothing_to_average_with(s: DetectionState, now: u64)
    requires
        s.smoothed_distance.is_zero(),
    ensures
        fused(s, now).smoothed_bearing == accepted_bearing(s),
        fused(s, now).smoothed_distance == s.lidar_distance,
        fused(s, now).smoothed_velocity.bits == 0,
{
}

/// Where both sensors detect, the bearing is three parts of the point cloud's and seven of the
/// camera's; where one detects, it is that one's; where none does, it is the last one.
pub proof fn law_bearing_of_the_sensors(s: DetectionState)
    ensures
        s.camera_detected && !s.lidar_detected ==> raw_bearing(s) == s.camera_bearing,
        s.lidar_detected && !s.camera_detected ==> raw_bearing(s) == s.lidar_bearing,
        !s.lidar_detected && !s.camera_detected ==> raw_bearing(s) == s.smoothed_bearing,
        s.lidar_detected && s.camera_detected && moderate(s.lidar_bearing, 8) && moderate(s.camera_bearing, 8) ==> {
            &&& moderate(raw_bearing(s), 9)
            &&& close(
                10 * raw_bearing(s).units(),
                3 * s.lidar_bearing.units() + 7 * s.camera_bearing.units(),
                1400 * grain() as int,
            )
        },
{
    if s.lidar_detected && s.camera_detected && moderate(s.lidar_bearing, 8) && moderate(s.camera_bearing, 8) {
        lemma_both(s);
    }
}

/// The weighted bearing.
proof fn lemma_both(s: DetectionState)
    requires
        s.lidar_detected,
        s.camera_detected,
        moderate(s.lidar_bearing, 8),
        moderate(s.camera_bearing, 8),
    ensures
        moderate(raw_bearing(s), 9),
        close(
            10 * raw_bearing(s).units(),
            3 * s.lidar_bearing.units() + 7 * s.camera_bearing.units(),
            1400 * grain() as int,
        ),
{
    let g = grain();
    lemma_grain();
    law_fusion_decimals();
    lemma_times_decimal(s.lidar_bearing, LIDAR_WEIGHT, 3, 10, 8);
    lemma_times_decimal(s.camera_bearing, CAMERA_WEIGHT, 7, 10, 8);
    assert(((10 + 1) * (8 * (3 + 1) + 1)) * g == 363 * g && ((10 + 1) * (8 * (7 + 1) + 1)) * g == 715 * g && (9 + 1) * g == 10
        * g) by (nonlinear_arith);
    assert(one_in_units() >= 1000000 * g) by (nonlinear_arith)
        requires
            one_in_units() == 0x20_0000_0000_0000 * g,
    ;
    lemma_bounded_sum(
        product(Binary64 { bits: LIDAR_WEIGHT }, s.lidar_bearing),
        product(Binary64 { bits: CAMERA_WEIGHT }, s.camera_bearing),
        9,
    );
}

/// A bearing is taken in where it lies within 1.05 rad of the smoothed one, and the smoothed
/// one again where it lies farther off; the first bearing is taken in wherever it lies.
pub proof fn law_outliers_are_left_out(s: DetectionState)
    requires
        moderate(raw_bearing(s), 16),
        moderate(s.smoothed_bearing, 16),
    ensures
        s.smoothed_bearing.is_zero() ==> accepted_bearing(s) == raw_bearing(s),
        !s.smoothed_bearing.is_zero() ==> {
            let apart = 100 * (raw_bearing(s).units() - s.smoothed_bearing.units());
            let limit = 105 * one_in_units() as int;
            let error = 4000 * grain() as int;
            &&& -(limit - error) <= apart <= limit - error ==> accepted_bearing(s) == raw_bearing(s)
            &&& apart >= limit + error || apart <= -(limit + error) ==> accepted_bearing(s) == s.smoothed_bearing
        },
{
    let raw = raw_bearing(s);
    let old = s.smoothed_bearing;
    let jump = Binary64 { bits: MAX_JUMP };
    let g = grain();
    lemma_grain();
    law_fusion_decimals();
    lemma_decimal_value(MAX_JUMP, 105, 100);
    lemma_opposite(old);
    lemma_bounded_sum(raw, opposite(old), 32);
    assert((32 + 1) * g == 33 * g && (105 + 1) * g == 106 * g) by (nonlinear_arith);
    crate::behavior::conduct::lemma_absolute_order(difference(raw, old), jump);
    assert(close(difference(raw, old).units(), raw.units() - old.units(), 33 * g as int));
    assert(close(100 * jump.units(), 105 * one_in_units() as int, 106 * g as int));
}

/// The moving average is one part of the new value and nine of the smoothed one.
pub proof fn law_average(new: Binary64, smoothed: Binary64)
    requires
        moderate(new, 64),
        moderate(smoothed, 64),
    ensures
        moderate(blended(new, smoothed), 65),
        close(10 * blended(new, smoothed).units(), new.units() + 9 * smoothed.units(), 10000 * grain() as int),
{
    let g = grain();
    let weight = Binary64 { bits: SMOOTHING };
    let rest = Binary64 { bits: REST };
    lemma_grain();
    law_fusion_decimals();
    lemma_rest_weight();
    crate::fusion::laws::lemma_rest_decimal();
    lemma_times_decimal(new, SMOOTHING, 1, 10, 64);
    lemma_times_decimal(smoothed, REST, 9, 10, 64);
    assert(((10 + 1) * (64 * (1 + 1) + 1)) * g == 1419 * g && ((10 + 1) * (64 * (9 + 1) + 1)) * g == 7051 * g && (65 + 1) * g
        == 66 * g) by (nonlinear_arith);
    assert(one_in_units() >= 1000000 * g) by (nonlinear_arith)
        requires
            one_in_units() == 0x20_0000_0000_0000 * g,
    ;
    lemma_bounded_sum(product(weight, new), product(rest, smoothed), 65);
}

/// Once there is a smoothed distance, every turn moves distance, bearing and velocity a tenth
/// of the way to what was measured.
pub proof fn law_estimate_follows(s: DetectionState, now: u64)
    requires
        !s.smoothed_distance.is_zero(),
        moderate(s.smoothed_distance, 64),
        moderate(s.lidar_distance, 64),
        moderate(s.smoothed_bearing, 64),
        moderate(accepted_bearing(s), 64),
        moderate(s.smoothed_velocity, 64),
        moderate(raw_velocity(s, now), 64),
    ensures
        ({
            let after = fused(s, now);
            let error = 10000 * grain() as int;
            &&& close(
                10 * after.smoothed_distance.units(),
                s.lidar_distance.units() + 9 * s.smoothed_distance.units(),
                error,
            )
            &&& close(
                10 * after.smoothed_bearing.units(),
                accepted_bearing(s).units() + 9 * s.smoothed_bearing.units(),
                error,
            )
            &&& close(
                10 * after.smoothed_velocity.units(),
                raw_velocity(s, now).units() + 9 * s.smoothed_velocity.units(),
                error,
            )
        }),
{
    law_average(s.lidar_distance, s.smoothed_distance);
    law_average(accepted_bearing(s), s.smoothed_bearing);
    law_average(raw_velocity(s, now), s.smoothed_velocity);
}

/// There is a velocity only between two detections in the point cloud that are more than
/// fifty milliseconds apart.
pub proof fn law_velocity_needs_two_detections(s: DetectionState, now: u64)
    ensures
        !s.lidar_detected || s.prev_time is None ==> raw_velocity(s, now).bits == 0,
        s.prev_time matches Some(earlier) ==> since(now, earlier) <= 50_000_000 ==> raw_velocity(s, now).bits == 0,
{
    law_fusion_decimals();
    if let Some(earlier) = s.prev_time {
        law_fifty_milliseconds(since(now, earlier), Binary64 { bits: MIN_INTERVAL });
    }
}

/// The velocity is the change of the distance over the time between the two detections, held
/// within 5 m/s either way; it is negative where the intruder comes nearer.
pub proof fn law_velocity_is_change_over_time(s: DetectionState, now: u64, earlier: u64)
    requires
        s.lidar_detected,
        s.prev_time == Some(earlier),
        50_000_000 < since(now, earlier) <= 4096 * NANOS_PER_SECOND,
        moderate(s.lidar_distance, 32),
        moderate(s.prev_distance, 32),
    ensures
        ({
            let n = since(now, earlier);
            let v = raw_velocity(s, now);
            let change = NANOS_PER_SECOND * (s.lidar_distance.units() - s.prev_distance.units());
            let limit = 5 * (n * one_in_units());
            let error = 20_000_000_000_000_000 * grain();
            &&& v.finite()
            &&& change >= limit + error ==> v.units() == 5 * one_in_units()
            &&& change <= -(limit + error) ==> v.units() == -(5 * one_in_units())
            &&& -(limit - error) <= change <= limit - error ==> close(v.units() * n, change, error as int)
        }),
{
    let n = since(now, earlier);
    let dt = seconds(n);
    let g = grain() as int;
    let one = one_in_units() as int;
    let d = s.lidar_distance;
    let p = s.prev_distance;
    let fastest = Binary64 { bits: MAX_SPEED };
    law_fusion_decimals();
    law_fifty_milliseconds(n, Binary64 { bits: MIN_INTERVAL });
    law_seconds_are_accurate(n);
    lemma_grain();
    assert(one >= 1000000000000 * g) by (nonlinear_arith)
        requires
            one == 0x20_0000_0000_0000 * g,
            g > 0,
    ;
    lemma_decimal_value(MIN_INTERVAL, 5, 100);
    lemma_units_order(Binary64 { bits: MIN_INTERVAL }, dt);
    let shortest = Binary64 { bits: MIN_INTERVAL };
    assert(close(100 * shortest.units(), 5 * one, 6 * g));
    assert(shortest.units() < dt.units());
    assert(one <= 21 * dt.units());
    lemma_opposite(p);
    lemma_bounded_sum(d, opposite(p), 64);
    let change = difference(d, p);
    assert((64 + 1) * grain() == 65 * grain()) by (nonlinear_arith);
    lemma_size_small();
    assert(close(change.units(), 0, 65 * one));
    assert(size(change.magnitude()) <= 1400 * size(dt.magnitude()));
    lemma_bounded_quotient(change, dt, 1400);
    let q = quotient(change, dt);
    crate::behavior::laws::lemma_whole_decimal(MAX_SPEED, 5);
    lemma_whole_is_exact(5);
    lemma_opposite(fastest);
    lemma_units_order(q, opposite(fastest));
    lemma_units_order(fastest, q);
    lemma_velocity_number(q.units(), dt.units(), change.units(), d.units() - p.units(), n as int, g, one);
}

/// The same in numbers.
proof fn lemma_velocity_number(q: int, t: int, c: int, x: int, n: int, g: int, one: int)
    requires
        g > 0,
        one >= 1000000000000 * g,
        one <= 21 * t,
        50_000_000 < n <= 4096 * 1_000_000_000,
        close(x, 0, 64 * one),
        close(c, x, 65 * g),
        close(1_000_000_000 * t, n * one, 5_000_000_000_000 * g),
        close(q * t, c * one, ((1400 + 1) * g) * t),
    ensures
        ({
            let change = 1_000_000_000 * x;
            let limit = 5 * (n * one);
            let error = 20_000_000_000_000_000 * g;
            &&& change >= limit + error ==> q > 5 * one
            &&& change <= -(limit + error) ==> q < -(5 * one)
            &&& -(limit - error) <= change <= limit - error ==> -(5 * one) <= q <= 5 * one && close(q * n, change, error)
        }),
{
    let k = 1_000_000_000int;
    let no = n * one;
    // q is at most 1500
    assert(close(q, 0, 1500 * one)) by {
        let b = 1401 * g;
        assert(close(c, 0, 65 * one));
        lemma_times_bound(c, one, 65 * one, one);
        assert(close(q * t, 0, (1500 * one) * t)) by (nonlinear_arith)
            requires
                -((65 * one) * one) <= c * one <= (65 * one) * one,
                -(((1400 + 1) * g) * t) <= q * t - c * one <= ((1400 + 1) * g) * t,
                one <= 21 * t,
                one >= 1000000000000 * g,
                g > 0,
        {
            assert((65 * one) * one <= (65 * one) * (21 * t));
            assert(((1400 + 1) * g) * t <= one * t);
        }
        lemma_cancel(q, 1500 * one, t);
    }
    // q n one is k q t, which is k c one, nearly
    let e = k * t - no;
    lemma_times_bound(q, e, 1500 * one, 5_000_000_000_000 * g);
    assert(q * e == k * (q * t) - q * no) by (nonlinear_arith)
        requires
            e == k * t - no,
    ;
    assert(q * no == (q * n) * one && (1500 * one) * (5_000_000_000_000 * g) == (7_500_000_000_000_000 * g) * one) by (nonlinear_arith)
        requires
            no == n * one,
    ;
    let f = q * t - c * one;
    assert(t <= 4097 * one) by (nonlinear_arith)
        requires
            k * t <= no + 5_000_000_000_000 * g,
            no == n * one,
            n <= 4096 * k,
            one >= 1000000000000 * g,
            k == 1_000_000_000,
            g > 0,
    {
        assert(no <= (4096 * k) * one);
        assert(5_000_000_000_000 * g <= k * one);
        assert(k * t <= k * (4097 * one));
    }
    lemma_velocity_rest(q, t, c, x, n, g, one, f, e);
}

/// The end of it.
proof fn lemma_velocity_rest(q: int, t: int, c: int, x: int, n: int, g: int, one: int, f: int, e: int)
    requires
        g > 0,
        one >= 1000000000000 * g,
        n > 50_000_000,
        one <= 21 * t,
        t <= 4097 * one,
        close(c, x, 65 * g),
        e == 1_000_000_000 * t - n * one,
        close(e, 0, 5_000_000_000_000 * g),
        f == q * t - c * one,
        close(f, 0, ((1400 + 1) * g) * t),
        close(q * e, 0, (7_500_000_000_000_000 * g) * one),
        q * e == 1_000_000_000 * (q * t) - (q * n) * one,
    ensures
        ({
            let change = 1_000_000_000 * x;
            let limit = 5 * (n * one);
            let error = 20_000_000_000_000_000 * g;
            &&& change >= limit + error ==> q > 5 * one
            &&& change <= -(limit + error) ==> q < -(5 * one)
            &&& -(limit - error) <= change <= limit - error ==> -(5 * one) <= q <= 5 * one && close(q * n, change, error)
        }),
{
    let k = 1_000_000_000int;
    let gg = g * one;
    assert(close(f, 0, 5_740_000 * gg) && gg > 0) by (nonlinear_arith)
        requires
            -(((1400 + 1) * g) * t) <= f <= ((1400 + 1) * g) * t,
            t <= 4097 * one,
            g > 0,
            one > 0,
            gg == g * one,
    {
        assert((1401 * g) * t <= (1401 * g) * (4097 * one));
        assert((1401 * g) * (4097 * one) == 5739897 * gg);
    }
    assert((c - x) * one == c * one - x * one && (65 * g) * one == 65 * gg && (7_500_000_000_000_000 * g) * one
        == 7_500_000_000_000_000 * gg && (q * n - k * x) * one == (q * n) * one - k * (x * one)) by (nonlinear_arith)
        requires
            gg == g * one,
    ;
    lemma_times_bound(c - x, one, 65 * g, one);
    let h = 14_000_000_000_000_000int * g;
    assert(h * one == 14_000_000_000_000_000 * gg) by (nonlinear_arith)
        requires
            h == 14_000_000_000_000_000 * g,
            gg == g * one,
    ;
    lemma_wide(f, k, gg);
    assert(close((q * n - k * x) * one, 0, h * one));
    lemma_cancel(q * n - k * x, h, one);
    let change = k * x;
    let limit = 5 * (n * one);
    if change >= limit + 20_000_000_000_000_000 * g {
        assert(q > 5 * one) by (nonlinear_arith)
            requires
                q * n > 5 * (n * one),
                n > 0,
        {
            assert((q - 5 * one) * n > 0);
        }
    }
    if change <= -(limit + 20_000_000_000_000_000 * g) {
        assert(q < -(5 * one)) by (nonlinear_arith)
            requires
                q * n < -(5 * (n * one)),
                n > 0,
        {
            assert((q + 5 * one) * n < 0);
        }
    }
    if -(limit - 20_000_000_000_000_000 * g) <= change <= limit - 20_000_000_000_000_000 * g {
        assert(-(5 * one) <= q <= 5 * one) by (nonlinear_arith)
            requires
                -(5 * (n * one)) <= q * n <= 5 * (n * one),
                n > 0,
        {
            assert((5 * one - q) * n >= 0);
            assert((q + 5 * one) * n >= 0);
        }
    }
}

/// A bound, multiplied.
proof fn lemma_wide(f: int, k: int, gg: int)
    requires
        k == 1_000_000_000,
        gg > 0,
        close(f, 0, 5_740_000 * gg),
    ensures
        close(k * f, 0, 5_740_000_000_000_000 * gg),
{
}

} // verus!
