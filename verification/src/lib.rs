//! Verified core of a differential-drive robot simulation: a unicycle
//! kinematic model with clamped controls, goal sampling, and the
//! shaped episodic reward used as a fitness signal by an external
//! policy-search optimizer.
//!
//! Every real-valued quantity is a fixed-point `i64` count of
//! micro-units (see `fixed`); the executable code is pinned to exact
//! mathematical specifications over `int`.

pub mod fixed;
pub mod goal;
pub mod model;
pub mod policy;
pub mod reward;
pub mod rng;
pub mod sin_fit;
pub mod trail;
