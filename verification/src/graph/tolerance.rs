//! The numbers that comparisons are held to, as single-precision bits.

use vstd::prelude::*;

use crate::formats::desc::{DType, DTypeV};

verus! {

/// Up to which error packing and decoding gives a value back, relative to the
/// largest value of the block.
pub open spec fn roundtrip_tolerance(d: DTypeV) -> u32 {
    match d {
        DTypeV::F32 => 0,
        DTypeV::F16 => 0x3A83_126F,
        DTypeV::BF16 => 0x3C03_126F,
        DTypeV::Q8_0 => 0x3C03_126F,
        DTypeV::Q4_K => 0x3DE1_47AE,
        DTypeV::Unsupported(_) => 0,
    }
}

/// Up to which error packing and decoding gives a value back: 0 for what is stored
/// as it is, one in a thousand for half precision, eight in a thousand for brain
/// floats and eight-bit blocks, eleven in a hundred for four-bit blocks.
pub fn roundtrip_rel_tol(dtype: &DType) -> (r: u32)
    ensures
        r == roundtrip_tolerance(dtype@),
{
    match dtype {
        DType::F32 => 0,
        DType::F16 => 0x3A83_126F,
        DType::BF16 => 0x3C03_126F,
        DType::Q8_0 => 0x3C03_126F,
        DType::Q4_K => 0x3DE1_47AE,
        DType::Unsupported(_) => 0,
    }
}

/// How far the logits of two implementations may lie apart when the widest weights
/// have this type: one in a hundred for quantized weights, else one in ten thousand.
pub fn logits_abs_tol(dtype: &DType) -> (r: u32)
    ensures
        r == (if dtype@ is Q8_0 || dtype@ is Q4_K {
            0x3C23_D70Au32
        } else {
            0x38D1_B717u32
        }),
{
    match dtype {
        DType::Q8_0 | DType::Q4_K => 0x3C23_D70A,
        _ => 0x38D1_B717,
    }
}

/// Below this gap between the two largest logits, which of them wins is a tie: one
/// in twenty.
pub const LOGIT_TIE_EPSILON: u32 = 0x3D4C_CCCD;

} // verus!
