//! What a frame uploads, and where to.

pub mod orders;
pub mod tables;
