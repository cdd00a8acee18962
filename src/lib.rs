//! Fixed-point boids: a neighbour-limited flocking rule, batched evaluation
//! over the whole population, and the integration step that applies it.
//!
//! Positions and velocities are integer vectors in fixed-point units; the
//! weights of the rules are integer ratios, so every result is exact.
use vstd::prelude::*;

pub mod geometry;
pub mod flock;
pub mod batch;
pub mod integrate;
pub mod spawn;

verus! {

} // verus!
