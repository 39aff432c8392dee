//! The verified core of a retained-mode renderer for a bare Linux console.
//!
//! What a frame touches, what it is planned as, how it is recorded, how its pixels come back and
//! how they reach a display: each is a function over plain values with a contract, and the calls
//! that need a device are made around it.

pub mod atlas;
pub mod boxtree;
pub mod buffer;
pub mod damage_set;
pub mod drm;
pub mod filter;
pub mod frame;
pub mod gbm;
pub mod geom;
pub mod layout;
pub mod paint;
pub mod platform;
pub mod present;
pub mod profile;
pub mod raster;
pub mod readback;
pub mod scanout;
pub mod scene;
pub mod text;
pub mod transform;
