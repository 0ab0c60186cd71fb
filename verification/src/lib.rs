//! Verified core of a CPU inference engine for LLaMA-family models.

pub mod bytes;
pub mod cli;
pub mod codegen;
pub mod engine;
pub mod float;
pub mod formats;
pub mod graph;
pub mod text;
pub mod written;
