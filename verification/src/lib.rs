//! A flock of boids on a wrapping plane, in fixed-point arithmetic.
//!
//! Every quantity is a whole number of millionths of a world unit, so that
//! each step of the simulation is exact and the same on every machine.

pub mod behaviour;
pub mod boid;
pub mod flock;
pub mod scalar;
pub mod vec2;
