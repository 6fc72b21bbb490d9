//! The decisions of a quadruped guard robot.
//!
//! The nodes around this library exchange messages; here stands what they compute.
//! Doubles are held as bit patterns, so that every result is fixed to the last bit.

pub mod binary64;
pub mod text;
pub mod geometry;
pub mod platform;
pub mod clock;
pub mod behavior;
pub mod lidar;
pub mod camera;
pub mod fusion;
pub mod gait;
pub mod teleop;
pub mod siren;
pub mod decimals;
pub mod calls;
