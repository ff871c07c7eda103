//! The backdrop: its grid, its colours, its stars and hills, and the mesh it is drawn into.

pub mod backdrop;
pub mod colour;
pub mod fading;
pub mod mesh;
pub mod model;
pub mod painting;
pub mod placing;
pub mod ridges;
pub mod stars;
pub mod tints;
