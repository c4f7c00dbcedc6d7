//! Single-precision arithmetic on bit patterns.
pub mod arith;
pub mod constants;
pub mod laws;
pub mod near;
pub mod order;
pub mod pack;
pub mod rounding;
pub mod single;
