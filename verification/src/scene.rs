//! What a frame is drawn from: its content, its effects and what of it hides the rest.

pub mod backdrop;
pub mod content;
pub mod opaque;
pub mod shadow;

use vstd::prelude::*;

verus! {

/// A chain of clips.
#[derive(Clone, Copy, Debug, PartialEq, Eq, Structural)]
pub struct ClipId(pub u32);

/// The chain that clips nothing.
pub const ROOT: u32 = 0;

/// The slot of the coordinate system of the whole surface.
pub const VIEWPORT: u32 = 0;

} // verus!
