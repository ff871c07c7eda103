//! The baked sprite: one strip of pixels per drawable thing, and the tables that pick a tile of it.

pub mod bake;
pub mod baked;
pub mod content;
pub mod drawn;
pub mod error;
pub mod frames;
pub mod ids;
pub mod pose;
pub mod table;
