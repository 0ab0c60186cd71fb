//! Binary floating-point numbers, held as their bits and computed on with integers.

pub mod error;
pub mod laws;
pub mod round;
pub mod single;
