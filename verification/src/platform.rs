//! Handing a frame to a display that has no window system over it.

pub mod gl;
pub mod watched;
