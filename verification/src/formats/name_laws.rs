//! What the tensors of each format are called, name by name.

use vstd::prelude::*;

use crate::formats::error::Fault;
use crate::formats::gguf::parsed;
use crate::formats::limits::{
    MAX_ARRAY_DEPTH, MAX_ARRAY_ELEMS, MAX_DIMS, MAX_KV_PAIRS, MAX_STRING_BYTES, MAX_ST_HEADER_BYTES,
    MAX_TENSORS,
};
use crate::formats::load::{file_model, source_of, Source};
use crate::formats::names::{
    gguf_name, hf_name, law_layer_names_agree, law_role_names_agree, LayerPart, Role,
};
use crate::text::dec;

verus! {

/// The name of a tensor of layer `idx`, behind what its format starts such names with.
pub open spec fn in_layer(start: Seq<char>, idx: u64, what: Seq<char>, param: Seq<char>) -> Seq<char> {
    start + dec(idx as nat) + "."@ + what + "."@ + param
}

/// Whether a part of a layer is called so in both formats and here.
pub open spec fn called(gguf: Seq<char>, hf: Seq<char>, here: Seq<char>, idx: u64, param: Seq<char>) -> bool {
    &&& gguf_name(in_layer("blk."@, idx, gguf, param)) == Some(
        in_layer("layers."@, idx, here, param),
    )
    &&& hf_name(in_layer("model.layers."@, idx, hf, param)) == Some(
        in_layer("layers."@, idx, here, param),
    )
}

/// What the parts of every layer are called.
pub proof fn law_layer_tensors_by_name(idx: u64, param: Seq<char>)
    requires
        param == "weight"@ || param == "bias"@,
    ensures
        called("attn_norm"@, "input_layernorm"@, "attn_norm"@, idx, param),
        called("attn_q_norm"@, "self_attn.q_norm"@, "attn.q_norm"@, idx, param),
        called("attn_k_norm"@, "self_attn.k_norm"@, "attn.k_norm"@, idx, param),
        called("attn_q"@, "self_attn.q_proj"@, "attn.q_proj"@, idx, param),
        called("attn_k"@, "self_attn.k_proj"@, "attn.k_proj"@, idx, param),
        called("attn_v"@, "self_attn.v_proj"@, "attn.v_proj"@, idx, param),
        called("attn_output"@, "self_attn.o_proj"@, "attn.o_proj"@, idx, param),
        called("ffn_norm"@, "post_attention_layernorm"@, "ffn_norm"@, idx, param),
        called("ffn_gate"@, "mlp.gate_proj"@, "ffn.gate_proj"@, idx, param),
        called("ffn_up"@, "mlp.up_proj"@, "ffn.up_proj"@, idx, param),
        called("ffn_down"@, "mlp.down_proj"@, "ffn.down_proj"@, idx, param),
{
    law_layer_names_agree(idx, LayerPart::AttnNorm, param);
    law_layer_names_agree(idx, LayerPart::QNorm, param);
    law_layer_names_agree(idx, LayerPart::KNorm, param);
    law_layer_names_agree(idx, LayerPart::QProj, param);
    law_layer_names_agree(idx, LayerPart::KProj, param);
    law_layer_names_agree(idx, LayerPart::VProj, param);
    law_layer_names_agree(idx, LayerPart::OProj, param);
    law_layer_names_agree(idx, LayerPart::FfnNorm, param);
    law_layer_names_agree(idx, LayerPart::Gate, param);
    law_layer_names_agree(idx, LayerPart::Up, param);
    law_layer_names_agree(idx, LayerPart::Down, param);
}

/// What the tensors outside the layers are called.
pub proof fn law_outer_tensors_by_name(param: Seq<char>)
    requires
        param == "weight"@ || param == "bias"@,
    ensures
        gguf_name("token_embd"@ + "."@ + param) == Some("token_embed"@ + "."@ + param),
        gguf_name("output_norm"@ + "."@ + param) == Some("output_norm"@ + "."@ + param),
        gguf_name("output"@ + "."@ + param) == Some("lm_head"@ + "."@ + param),
        hf_name("model.embed_tokens"@ + "."@ + param) == Some("token_embed"@ + "."@ + param),
        hf_name("model.norm"@ + "."@ + param) == Some("output_norm"@ + "."@ + param),
        hf_name("lm_head"@ + "."@ + param) == Some("lm_head"@ + "."@ + param),
{
    law_role_names_agree(Role::Embedding, param);
    law_role_names_agree(Role::FinalNorm, param);
    law_role_names_agree(Role::Output, param);
}

/// What does not end in `.weight` or `.bias` has no other name.
pub proof fn law_only_parameters_are_renamed(raw: Seq<char>)
    requires
        !".weight"@.is_suffix_of(raw),
        !".bias"@.is_suffix_of(raw),
    ensures
        gguf_name(raw) is None,
        hf_name(raw) is None,
{
}

/// The model in a single file is what its header describes, and the file itself holds its
/// weights; a file that starts otherwise is of no known format.
pub proof fn law_single_files(path: Seq<char>, data: Seq<u8>)
    ensures
        ({
            let r = file_model(path, data);
            &&& data.len() < 4 ==> r is Err && r->Err_0 is Io
            &&& data.len() >= 4 && !(data[0] == 0x47 && data[1] == 0x47 && data[2] == 0x55
                && data[3] == 0x46) ==> r is Err && r->Err_0 == Fault::UnknownFormat(path)
            &&& r is Ok ==> {
                let m = r->Ok_0;
                let p = parsed(data)->Ok_0;
                &&& parsed(data) is Ok
                &&& m.weight_files.len() == 1 && m.weight_files[0] == path
                &&& m.hyperparams == p.hyperparams
                &&& m.tensors == p.tensors
                &&& m.architecture == p.architecture
                &&& m.name == p.name
                &&& m.tokenizer == p.tokenizer
                &&& m.data_section_offsets == p.data_section_offsets
            }
        }),
{
    if data.len() >= 4 && !(data[0] == 0x47 && data[1] == 0x47 && data[2] == 0x55 && data[3] == 0x46) {
        let t = data.take(4);
        assert(t[0] == data[0] && t[1] == data[1] && t[2] == data[2] && t[3] == data[3]);
        let g = crate::formats::gguf::magic();
        assert(g[0] == 0x47 && g[1] == 0x47 && g[2] == 0x55 && g[3] == 0x46);
        assert(t != g);
    }
}

/// What a path leads to: a directory to the model in it, a safetensors file to the model in
/// the directory that it stands in, any other file to itself.
pub proof fn law_paths_lead_to_models(extension: Seq<char>)
    ensures
        source_of(true, extension) == Source::Directory,
        source_of(false, "safetensors"@) == Source::BesideShard,
        extension != "safetensors"@ ==> source_of(false, extension) == Source::SingleFile,
{
}

/// How much the parsers take from a header.
pub proof fn law_limits()
    ensures
        MAX_TENSORS == 65_536,
        MAX_KV_PAIRS == 65_536,
        MAX_STRING_BYTES == 16 * 1024 * 1024,
        MAX_ARRAY_ELEMS == 10_000_000,
        MAX_DIMS == 8,
        MAX_ARRAY_DEPTH == 4,
        MAX_ST_HEADER_BYTES == 100 * 1024 * 1024,
{
}

} // verus!
