//! Parser limits on untrusted input. Sized generously above real models, but far
//! below anything that could exhaust memory from a header alone.

use vstd::prelude::*;

verus! {

pub const MAX_TENSORS: u64 = 65_536;

pub const MAX_KV_PAIRS: u64 = 65_536;

pub const MAX_STRING_BYTES: u64 = 16_777_216;

pub const MAX_ARRAY_ELEMS: u64 = 10_000_000;

pub const MAX_DIMS: u32 = 8;

pub const MAX_ARRAY_DEPTH: u32 = 4;

/// The safetensors format caps its JSON header at 100 MB.
pub const MAX_ST_HEADER_BYTES: u64 = 104_857_600;

} // verus!
