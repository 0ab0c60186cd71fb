//! From a plan to the code of a model: steps, profiler slots, kernel calls, the
//! emitted functions and what stands beside them on disk.

pub mod attn;
pub mod attn_meaning;
pub mod calls;
pub mod code;
pub mod emit;
pub mod kernels;
pub mod loopir;
pub mod lower;
pub mod meaning;
pub mod plan;
pub mod profile;
pub mod profiled;
pub mod program;
pub mod prompt;
pub mod tokens;
pub mod vars;
pub mod whole;
