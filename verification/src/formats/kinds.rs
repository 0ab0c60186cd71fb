//! What the numbers and names in a header stand for, and what messages say.

use vstd::prelude::*;

use crate::formats::desc::{architecture_of, block_layout, ArchitectureV, DTypeV};
use crate::formats::error::{error_text, FormatError};
use crate::formats::gguf::ggml_dtype;
use crate::formats::gguf::value::{array_len, as_f32, as_text, as_u64, ValueV};
use crate::formats::image::dtype_id;
use crate::formats::quant::dtype_name;
use crate::formats::safetensors::st_dtype;
use crate::text::dec;

verus! {

/// The numbers and the names of element types stand for the types that they are written for, and
/// for no other.
pub proof fn law_types_by_number_and_name(d: DTypeV, id: u32, name: Seq<char>)
    ensures
        ggml_dtype(id) is F32 <==> id == 0,
        ggml_dtype(id) is F16 <==> id == 1,
        ggml_dtype(id) is Q8_0 <==> id == 8,
        ggml_dtype(id) is Q4_K <==> id == 12,
        ggml_dtype(id) is BF16 <==> id == 30,
        d !is Unsupported ==> ggml_dtype(dtype_id(d) as u32) == d,
        st_dtype(name) !is Unsupported ==> dtype_name(st_dtype(name)) == name,
        st_dtype(name) matches DTypeV::Unsupported(s) ==> s == name,
        st_dtype(name) !is Unsupported <==> (name == "F32"@ || name == "F16"@ || name == "BF16"@),
{
}

/// How many bytes hold how many elements: a plain element takes its width, a block of 32 its scale
/// and a byte each, a block of 256 its two scales, twelve bytes and half a byte each.
pub proof fn law_block_sizes(d: DTypeV)
    ensures
        block_layout(d) is None <==> d is Unsupported,
        d is F32 ==> block_layout(d) == Some((4nat, 1nat)),
        d is F16 || d is BF16 ==> block_layout(d) == Some((2nat, 1nat)),
        d is Q8_0 ==> block_layout(d) == Some((2 + 32nat, 32nat)),
        d is Q4_K ==> block_layout(d) == Some((2 + 2 + 12 + 256nat / 2, 256nat)),
{
}

/// An architecture is known by its name.
pub proof fn law_architectures_by_name(id: Seq<char>)
    ensures
        architecture_of(id) matches ArchitectureV::Unknown(s) ==> s == id,
        architecture_of(id) is Unknown <==> !(id == "llama"@ || id == "qwen2"@ || id == "qwen3"@
            || id == "mistral"@),
        architecture_of(id) is Llama <==> id == "llama"@,
        architecture_of(id) is Mistral <==> id == "mistral"@,
        architecture_of(id) is Qwen2 <==> id == "qwen2"@,
        architecture_of(id) is Qwen3 <==> id == "qwen3"@,
{
    reveal_strlit("llama");
    reveal_strlit("qwen2");
    reveal_strlit("qwen3");
    reveal_strlit("mistral");
    assert("llama"@[0] == 'l' && "mistral"@[0] == 'm' && "qwen2"@[0] == 'q' && "qwen3"@[0] == 'q');
    assert("qwen2"@[4] == '2' && "qwen3"@[4] == '3');
}

/// A value counts as a number without a sign if and only if it is an integer of any width that is
/// not below zero, and then it counts as itself.
pub proof fn law_values_as_numbers(v: ValueV)
    ensures
        v matches ValueV::U8(x) ==> as_u64(v) == Some(x as u64),
        v matches ValueV::U16(x) ==> as_u64(v) == Some(x as u64),
        v matches ValueV::U32(x) ==> as_u64(v) == Some(x as u64),
        v matches ValueV::U64(x) ==> as_u64(v) == Some(x),
        v matches ValueV::I8(x) ==> (as_u64(v) is Some <==> x >= 0) && (x >= 0 ==> as_u64(v)->0
            == x),
        v matches ValueV::I16(x) ==> (as_u64(v) is Some <==> x >= 0) && (x >= 0 ==> as_u64(v)->0
            == x),
        v matches ValueV::I32(x) ==> (as_u64(v) is Some <==> x >= 0) && (x >= 0 ==> as_u64(v)->0
            == x),
        v matches ValueV::I64(x) ==> (as_u64(v) is Some <==> x >= 0) && (x >= 0 ==> as_u64(v)->0
            == x),
        v is F32 || v is F64 || v is Bool || v is String || v is Array ==> as_u64(v) is None,
        as_f32(v) is Some <==> v is F32 || v is F64,
        v matches ValueV::F32(x) ==> as_f32(v) == Some(x),
        as_text(v) is Some <==> v is String,
        v matches ValueV::String(s) ==> as_text(v) == Some(s),
        array_len(v) is Some <==> v is Array,
        v matches ValueV::Array(s) ==> array_len(v) == Some(s.len()),
{
}

/// What a message says: what went wrong comes first, and the detail last; of a limit it says what
/// was found before what is allowed.
pub proof fn law_messages_of_errors(e: FormatError)
    ensures
        ({
            let t = error_text(e);
            match e {
                FormatError::Io(s) => "i/o error: "@.is_prefix_of(t) && s@.is_suffix_of(t),
                FormatError::UnknownFormat(s) => "not a recognized model file: "@.is_prefix_of(t)
                    && s@.is_suffix_of(t),
                FormatError::BadMagic { expected } => ("bad magic bytes (expected "@
                    + expected@).is_prefix_of(t),
                FormatError::UnsupportedVersion(v) => ("unsupported gguf version "@ + dec(
                    v as nat,
                )).is_prefix_of(t),
                FormatError::Malformed { context, detail } => ("malformed "@
                    + context@).is_prefix_of(t) && (": "@ + detail@).is_suffix_of(t),
                FormatError::LimitExceeded { what, got, limit } => (what@ + " ("@ + dec(
                    got as nat,
                )).is_prefix_of(t) && ("exceeds limit ("@ + dec(limit as nat)
                    + ")"@).is_suffix_of(t),
                FormatError::MissingKey(k) => "missing required metadata: "@.is_prefix_of(t)
                    && k@.is_suffix_of(t),
                FormatError::Json(s) => "invalid json: "@.is_prefix_of(t) && s@.is_suffix_of(t),
            }
        }),
{
    let t = error_text(e);
    match e {
        FormatError::LimitExceeded { what, got, limit } => {
            reveal_strlit(") exceeds limit (");
            reveal_strlit("exceeds limit (");
            assert(") exceeds limit ("@ =~= seq![')', ' '] + "exceeds limit ("@);
            assert(t =~= (what@ + " ("@ + dec(got as nat) + seq![')', ' ']) + ("exceeds limit ("@
                + dec(limit as nat) + ")"@));
        },
        FormatError::Malformed { context, detail } => {
            assert(t =~= ("malformed "@ + context@) + (": "@ + detail@));
        },
        _ => {},
    }
}

} // verus!
