//! The host half of the game's drawing: what is drawn, where, and in which order.

pub mod arith;
pub mod fixed;
pub mod mobs;
pub mod number;
pub mod order;
pub mod particles;
pub mod pin;
pub mod player;
pub mod rounding;
pub mod scenes;
pub mod settings;
pub mod shear;
pub mod sky;
pub mod sound;
pub mod sprite;
pub mod text;
pub mod whole;
