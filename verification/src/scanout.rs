//! Copying between the buffers a display scans out of, on the device that owns them.
//!
//! A program that presents through a rotating set of buffers owes each one the damage it missed
//! while it was not the one being written. Those pixels are already correct in whichever buffer was
//! presented last, so they need not be produced again — and where the renderer is on a *different*
//! device from the display, producing them again means sending them across the link a second time.
//! They are copied where they already are.
//!
//! # Who waits
//!
//! [`copier::Signalled`] is the answer, and the tiers are the point rather than an implementation
//! detail. A copy that hands back a descriptor lets the **kernel** wait for it, so the commit that
//! follows carries the wait and this program carries none. A copy that cannot is already finished
//! by the time it answers, because the wait had to happen here.

pub mod buffer;
pub mod copier;
pub mod copying;
pub mod egl;
pub mod error;
