//! Exact integer combinatorics and elementary number theory.
pub mod binomial;
pub mod counting;
pub mod mmath;
pub mod stirling;
