//! A particle-life simulation on a toroidal plane, in fixed-point arithmetic.
//!
//! Lengths are counted in steps of `1 / UNIT` of a length unit, so that every
//! position, delta, force and velocity is an exact integer.

pub mod geometry;
pub mod region;
pub mod interaction;
pub mod sim;
pub mod world;
