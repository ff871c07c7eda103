//! Sound: how one is synthesised, what a rendered one is stored as, and when one is asked for.

pub mod bank;
pub mod play;
pub mod sample;
pub mod range;
pub mod shape;
pub mod synth;
