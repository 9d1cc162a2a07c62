//! A flocking ("boids") simulation core on fixed-point coordinates.
//!
//! Positions are measured in thousandths of a pixel and velocities in
//! thousandths of a pixel per second, so every steering rule is exact
//! integer arithmetic with a stated rounding.
//!
//! - `arith`: division toward zero and integer square roots.
//! - `boid`: one agent, the five steering rules, movement and spawning.
//! - `session`: the Setup / Play / Pause phases and the per-tick controller
//!   that steers every agent against a snapshot of the flock.

pub mod arith;
pub mod boid;
pub mod session;
