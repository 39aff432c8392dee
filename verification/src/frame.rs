//! One frame: what it is planned as, what it touches and how it is recorded.

pub mod damage;
pub mod pass;
pub mod planning;
pub mod segment;
pub mod target;
