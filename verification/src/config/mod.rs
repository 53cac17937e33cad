//! The configuration of a node, its validation, and how environment variables
//! overlay it.
//!
//! Durations are in nanoseconds. Ratios are held as the bits of an IEEE 754
//! double, which order like the numbers as long as the sign is clear.

pub mod env;
pub mod laws;
pub mod node;
pub mod sections;
pub mod size;
