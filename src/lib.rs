//! Noise synthesis and spectrum binning over fixed-point samples.
//!
//! A sample value `v` stands for the real number `v / FULL_SCALE`.

pub mod fixed;
pub mod noise;
pub mod spectrum;
