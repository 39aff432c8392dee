//! What painting a frame reads, and what that damages.

pub mod accumulate;
pub mod ink;
