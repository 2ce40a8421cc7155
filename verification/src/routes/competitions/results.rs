//! The competition result listings' query shapes.

pub mod flat;
pub mod nested;
