//! A 2D flocking ("boids") simulation with verified fixed-point arithmetic.
//!
//! All coordinates, velocities and forces are signed fixed-point numbers
//! with three decimal places: the stored integer is the real value times
//! 1000. Every operation of the engine is specified exactly over the
//! mathematical integers and proved against that specification.

pub mod boids;
pub mod linalg;
