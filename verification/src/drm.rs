//! What a graphics card says about its displays and its buffers.

pub mod connector;
pub mod sync;
