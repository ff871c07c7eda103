//! Particles: the slot pool, its generator, the effects it is asked for, and how each one moves.

pub mod course;
pub mod draw;
pub mod motion;
pub mod presets;
pub mod rng;
pub mod system;
