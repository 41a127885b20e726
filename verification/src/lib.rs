//! A point quadtree over a bounded planar region, and a flocking ("boids")
//! simulation that uses it for neighbour queries.
//!
//! Coordinates are fixed-point: positions, velocities and distances are plain
//! `i64` values, and a caller chooses the unit (for example thousandths).
//! Steering factors are given in thousandths (a factor of `1000` multiplies
//! by one); see [`vec2::SCALE`].
#![verifier::loop_isolation(false)]

pub mod sums;
pub mod vec2;
pub mod quadtree;
pub mod world;
