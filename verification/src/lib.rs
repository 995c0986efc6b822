//! Chunked summation of `i32` data and the trial statistics used to compare
//! summation strategies.

pub mod harness;
pub mod partition;
pub mod reduce;
pub mod stats;
pub mod sum;
