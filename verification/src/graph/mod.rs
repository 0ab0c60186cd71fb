//! The graph of a forward pass, its builder, and the scalar interpreter.

pub mod builder;
pub mod dots;
pub mod error;
pub mod interp;
pub mod ir;
pub mod length;
pub mod mean;
pub mod numbers;
pub mod ops;
pub mod running;
pub mod softmax;
pub mod split;
pub mod start;
pub mod tolerance;
pub mod turn;
pub mod wiring;
