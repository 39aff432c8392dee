//! What a frame cost, in numbers.

pub mod census;
