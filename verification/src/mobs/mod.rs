//! The creatures: their art, the light they give off, and what of the two shot pools and the glow
//! reaches the screen.

pub mod art;
pub mod draw;
pub mod figure;
pub mod light;
pub mod pool;
