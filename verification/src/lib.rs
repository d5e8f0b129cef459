//! Verified core of a circle-collision simulation: a uniform spatial grid
//! for broad-phase collision detection, the bookkeeping that turns
//! narrow-phase results into per-circle flags, and the random choices made
//! when circles are spawned.

pub mod engine;
pub mod rng;
pub mod collision;
pub mod palette;
