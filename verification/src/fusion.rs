//! Fusing what the two sensors see.

use vstd::prelude::*;
use crate::binary64::arithmetic::{difference, opposite, product, quotient, sum};
use crate::binary64::convert::{from_whole, truncated};
use crate::binary64::model::Binary64;
use crate::binary64::order::{absolute, clamped, less, same};
use crate::clock::{as_seconds, elapsed, seconds, since};
use crate::geometry::{zero, Vector3};

pub mod laws;
pub mod estimate;

verus! {

/// Shortest time (s) over which a velocity is estimated: 0.05.
pub const MIN_INTERVAL: u64 = 0x3FA9_9999_9999_999A;

/// Highest plausible speed (m/s): 5.
pub const MAX_SPEED: u64 = 0x4014_0000_0000_0000;

/// Weight of the point cloud's bearing where both sensors detect: 0.3.
pub const LIDAR_WEIGHT: u64 = 0x3FD3_3333_3333_3333;

/// Weight of the camera's bearing where both sensors detect: 0.7.
pub const CAMERA_WEIGHT: u64 = 0x3FE6_6666_6666_6666;

/// Bearing jump (rad) beyond which a measurement is an outlier: 1.05.
pub const MAX_JUMP: u64 = 0x3FF0_CCCC_CCCC_CCCD;

/// Weight of a new measurement: 0.1.
pub const SMOOTHING: u64 = 0x3FB9_9999_9999_999A;

/// One.
pub const UNITY: u64 = 0x3FF0_0000_0000_0000;

/// What both sensors saw last, and the smoothed estimate made of it.
#[derive(Clone, Copy, Debug, PartialEq, Eq, Structural)]
pub struct DetectionState {
    /// Whether the point cloud shows a person-sized cluster.
    pub lidar_detected: bool,
    /// Distance (m) of the cluster.
    pub lidar_distance: Binary64,
    /// Bearing (rad) of the cluster.
    pub lidar_bearing: Binary64,
    /// Points in the last cloud.
    pub lidar_total_points: usize,
    /// Points of interest in the last cloud.
    pub lidar_filtered_points: usize,
    /// Clouds received.
    pub lidar_msg_count: u64,
    /// Whether the camera shows red.
    pub camera_detected: bool,
    /// Bearing (rad) of the red.
    pub camera_bearing: Binary64,
    /// Share of the image that is red.
    pub camera_red_ratio: Binary64,
    /// Red pixels in the last image.
    pub camera_red_count: u64,
    /// Images received.
    pub camera_msg_count: u64,
    /// The distance from which the velocity is estimated.
    pub prev_distance: Binary64,
    /// When that distance was measured (ns).
    pub prev_time: Option<u64>,
    /// Smoothed distance (m).
    pub smoothed_distance: Binary64,
    /// Smoothed bearing (rad).
    pub smoothed_bearing: Binary64,
    /// Smoothed velocity (m/s).
    pub smoothed_velocity: Binary64,
}

/// What one turn of the fusion publishes.
#[derive(Clone, Copy, Debug, PartialEq, Eq, Structural)]
pub struct FusionOutput {
    /// Whether either sensor detects an intruder.
    pub detected: bool,
    /// Distance (x), bearing (y) and velocity (z) of a detected intruder.
    pub measured: Option<Vector3>,
}

/// The velocity between the last two distances, held within the plausible range; zero
/// where there are no two.
pub open spec fn raw_velocity(s: DetectionState, now: u64) -> Binary64 {
    let fastest = Binary64 { bits: MAX_SPEED };
    match s.prev_time {
        Some(earlier) => {
            let dt = seconds(since(now, earlier));
            if s.lidar_detected && less(Binary64 { bits: MIN_INTERVAL }, dt) {
                clamped(quotient(difference(s.lidar_distance, s.prev_distance), dt), opposite(fastest), fastest)
            } else {
                zero()
            }
        },
        None => zero(),
    }
}

/// The bearing that the sensors give together; the smoothed one where neither detects.
pub open spec fn raw_bearing(s: DetectionState) -> Binary64 {
    if s.lidar_detected && s.camera_detected {
        sum(
            product(Binary64 { bits: LIDAR_WEIGHT }, s.lidar_bearing),
            product(Binary64 { bits: CAMERA_WEIGHT }, s.camera_bearing),
        )
    } else if s.camera_detected {
        s.camera_bearing
    } else if s.lidar_detected {
        s.lidar_bearing
    } else {
        s.smoothed_bearing
    }
}

/// The bearing to take in: the smoothed one again where the raw one jumps too far.
pub open spec fn accepted_bearing(s: DetectionState) -> Binary64 {
    let raw = raw_bearing(s);
    if !same(s.smoothed_bearing, zero()) && less(
        Binary64 { bits: MAX_JUMP },
        absolute(difference(raw, s.smoothed_bearing)),
    ) {
        s.smoothed_bearing
    } else {
        raw
    }
}

/// The moving average of a new and a smoothed value.
pub open spec fn blended(new: Binary64, smoothed: Binary64) -> Binary64 {
    let weight = Binary64 { bits: SMOOTHING };
    sum(product(weight, new), product(difference(Binary64 { bits: UNITY }, weight), smoothed))
}

/// The state after one turn of the fusion.
pub open spec fn fused(s: DetectionState, now: u64) -> DetectionState {
    let first = same(s.smoothed_distance, zero());
    DetectionState {
        prev_distance: if s.lidar_detected { s.lidar_distance } else { s.prev_distance },
        prev_time: if s.lidar_detected { Some(now) } else { s.prev_time },
        smoothed_distance: if first { s.lidar_distance } else { blended(s.lidar_distance, s.smoothed_distance) },
        smoothed_bearing: if first { accepted_bearing(s) } else { blended(accepted_bearing(s), s.smoothed_bearing) },
        smoothed_velocity: if first { zero() } else { blended(raw_velocity(s, now), s.smoothed_velocity) },
        ..s
    }
}

/// The moving average of a new and a smoothed value.
fn blend(new: Binary64, smoothed: Binary64) -> (r: Binary64)
    ensures
        r == blended(new, smoothed),
{
    let weight: Binary64 = Binary64::from_bits(SMOOTHING);
    weight.times(new).plus(Binary64::from_bits(UNITY).minus(weight).times(smoothed))
}

impl Default for DetectionState {
    /// Nothing seen.
    fn default() -> (r: Self)
        ensures
            r == (DetectionState {
                lidar_detected: false,
                lidar_distance: zero(),
                lidar_bearing: zero(),
                lidar_total_points: 0,
                lidar_filtered_points: 0,
                lidar_msg_count: 0,
                camera_detected: false,
                camera_bearing: zero(),
                camera_red_ratio: zero(),
                camera_red_count: 0,
                camera_msg_count: 0,
                prev_distance: zero(),
                prev_time: None,
                smoothed_distance: zero(),
                smoothed_bearing: zero(),
                smoothed_velocity: zero(),
            }),
    {
        let zero: Binary64 = Binary64::from_bits(0);
        DetectionState {
            lidar_detected: false,
            lidar_distance: zero,
            lidar_bearing: zero,
            lidar_total_points: 0,
            lidar_filtered_points: 0,
            lidar_msg_count: 0,
            camera_detected: false,
            camera_bearing: zero,
            camera_red_ratio: zero,
            camera_red_count: 0,
            camera_msg_count: 0,
            prev_distance: zero,
            prev_time: None,
            smoothed_distance: zero,
            smoothed_bearing: zero,
            smoothed_velocity: zero,
        }
    }
}

impl DetectionState {
    /// Takes in what was found in a point cloud: the number of points, of points of
    /// interest, and the distance and bearing of a cluster.
    pub fn observe_lidar(&mut self, total: usize, filtered: usize, found: Option<(Binary64, Binary64)>)
        requires
            old(self).lidar_msg_count < u64::MAX,
        ensures
            *final(self) == (DetectionState {
                lidar_total_points: total,
                lidar_filtered_points: filtered,
                lidar_msg_count: (old(self).lidar_msg_count + 1) as u64,
                lidar_detected: found is Some,
                lidar_distance: match found {
                    Some((distance, _)) => distance,
                    None => old(self).lidar_distance,
                },
                lidar_bearing: match found {
                    Some((_, bearing)) => bearing,
                    None => old(self).lidar_bearing,
                },
                ..*old(self)
            }),
    {
        self.lidar_total_points = total;
        self.lidar_filtered_points = filtered;
        self.lidar_msg_count = self.lidar_msg_count + 1;
        match found {
            Some((distance, bearing)) => {
                self.lidar_detected = true;
                self.lidar_distance = distance;
                self.lidar_bearing = bearing;
            },
            None => {
                self.lidar_detected = false;
            },
        }
    }

    /// Takes in what was found in an image of the given size: the bearing and the share
    /// of red.
    pub fn observe_camera(&mut self, found: Option<(Binary64, Binary64)>, width: u32, height: u32)
        requires
            old(self).camera_msg_count < u64::MAX,
        ensures
            *final(self) == (DetectionState {
                camera_msg_count: (old(self).camera_msg_count + 1) as u64,
                camera_detected: found is Some,
                camera_bearing: match found {
                    Some((bearing, _)) => bearing,
                    None => old(self).camera_bearing,
                },
                camera_red_ratio: match found {
                    Some((_, ratio)) => ratio,
                    None => old(self).camera_red_ratio,
                },
                camera_red_count: match found {
                    Some((_, ratio)) => truncated(
                        product(ratio, product(from_whole(width as nat), from_whole(height as nat))),
                    ) as u64,
                    None => 0,
                },
                ..*old(self)
            }),
    {
        self.camera_msg_count = self.camera_msg_count + 1;
        match found {
            Some((bearing, ratio)) => {
                let pixels: Binary64 = Binary64::from_u64(width as u64).times(Binary64::from_u64(height as u64));
                self.camera_detected = true;
                self.camera_bearing = bearing;
                self.camera_red_ratio = ratio;
                self.camera_red_count = ratio.times(pixels).to_u64();
            },
            None => {
                self.camera_detected = false;
                self.camera_red_count = 0;
            },
        }
    }

    /// One turn of the fusion.
    pub fn fuse(&mut self, now: u64) -> (r: FusionOutput)
        ensures
            *final(self) == fused(*old(self), now),
            r == (FusionOutput {
                detected: old(self).lidar_detected || old(self).camera_detected,
                measured: if old(self).lidar_detected || old(self).camera_detected {
                    Some(
                        Vector3 {
                            x: final(self).smoothed_distance,
                            y: final(self).smoothed_bearing,
                            z: final(self).smoothed_velocity,
                        },
                    )
                } else {
                    None
                },
            }),
    {
        let zero: Binary64 = Binary64::from_bits(0);
        let detected: bool = self.lidar_detected || self.camera_detected;
        let fastest: Binary64 = Binary64::from_bits(MAX_SPEED);
        let mut velocity: Binary64 = zero;
        if let Some(earlier) = self.prev_time {
            let dt: Binary64 = as_seconds(elapsed(now, earlier));
            if dt.gt(Binary64::from_bits(MIN_INTERVAL)) && self.lidar_detected {
                velocity = self.lidar_distance.minus(self.prev_distance).over(dt).clamp(fastest.negated(), fastest);
            }
        }
        if self.lidar_detected {
            self.prev_distance = self.lidar_distance;
            self.prev_time = Some(now);
        }
        let raw: Binary64 = if self.lidar_detected && self.camera_detected {
            Binary64::from_bits(LIDAR_WEIGHT).times(self.lidar_bearing).plus(
                Binary64::from_bits(CAMERA_WEIGHT).times(self.camera_bearing),
            )
        } else if self.camera_detected {
            self.camera_bearing
        } else if self.lidar_detected {
            self.lidar_bearing
        } else {
            self.smoothed_bearing
        };
        let jumps: bool = raw.minus(self.smoothed_bearing).abs().gt(Binary64::from_bits(MAX_JUMP));
        let bearing: Binary64 = if !self.smoothed_bearing.equal(zero) && jumps { self.smoothed_bearing } else { raw };
        if self.smoothed_distance.equal(zero) {
            self.smoothed_distance = self.lidar_distance;
            self.smoothed_bearing = bearing;
            self.smoothed_velocity = zero;
        } else {
            self.smoothed_distance = blend(self.lidar_distance, self.smoothed_distance);
            self.smoothed_bearing = blend(bearing, self.smoothed_bearing);
            self.smoothed_velocity = blend(velocity, self.smoothed_velocity);
        }
        let measured: Option<Vector3> = if detected {
            Some(Vector3 { x: self.smoothed_distance, y: self.smoothed_bearing, z: self.smoothed_velocity })
        } else {
            None
        };
        FusionOutput { detected, measured }
    }
}

} // verus!
