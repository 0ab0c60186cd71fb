//! Canonical tensor names. The parsers map the names of each file format to one
//! scheme, so that nothing downstream can tell which format a model came from.
//! Names that are not mapped pass through as they are.

use vstd::prelude::*;
use vstd::string::StringExecFns;

use crate::text::{
    dec, dec_text, ends_with, find, find_char, is_digit, law_decimal_round_trip, lemma_dec_digits,
    lemma_find_is, parse_u64, parse_u64_text, starts_with, text_eq,
};

verus! {

/// The parts of a transformer layer that hold weights.
#[derive(Debug, Clone, Copy, PartialEq, Eq, Structural)]
pub enum LayerPart {
    AttnNorm,
    QNorm,
    KNorm,
    QProj,
    KProj,
    VProj,
    OProj,
    FfnNorm,
    Gate,
    Up,
    Down,
}

/// The name of a part in GGUF files, after `blk.{i}.`.
pub open spec fn gguf_stem(p: LayerPart) -> Seq<char> {
    match p {
        LayerPart::AttnNorm => "attn_norm"@,
        LayerPart::QNorm => "attn_q_norm"@,
        LayerPart::KNorm => "attn_k_norm"@,
        LayerPart::QProj => "attn_q"@,
        LayerPart::KProj => "attn_k"@,
        LayerPart::VProj => "attn_v"@,
        LayerPart::OProj => "attn_output"@,
        LayerPart::FfnNorm => "ffn_norm"@,
        LayerPart::Gate => "ffn_gate"@,
        LayerPart::Up => "ffn_up"@,
        LayerPart::Down => "ffn_down"@,
    }
}

/// The name of a part in HF files, after `model.layers.{i}.`.
pub open spec fn hf_stem(p: LayerPart) -> Seq<char> {
    match p {
        LayerPart::AttnNorm => "input_layernorm"@,
        LayerPart::QNorm => "self_attn.q_norm"@,
        LayerPart::KNorm => "self_attn.k_norm"@,
        LayerPart::QProj => "self_attn.q_proj"@,
        LayerPart::KProj => "self_attn.k_proj"@,
        LayerPart::VProj => "self_attn.v_proj"@,
        LayerPart::OProj => "self_attn.o_proj"@,
        LayerPart::FfnNorm => "post_attention_layernorm"@,
        LayerPart::Gate => "mlp.gate_proj"@,
        LayerPart::Up => "mlp.up_proj"@,
        LayerPart::Down => "mlp.down_proj"@,
    }
}

/// The canonical name of a part, after `layers.{i}.`.
pub open spec fn canonical_stem(p: LayerPart) -> Seq<char> {
    match p {
        LayerPart::AttnNorm => "attn_norm"@,
        LayerPart::QNorm => "attn.q_norm"@,
        LayerPart::KNorm => "attn.k_norm"@,
        LayerPart::QProj => "attn.q_proj"@,
        LayerPart::KProj => "attn.k_proj"@,
        LayerPart::VProj => "attn.v_proj"@,
        LayerPart::OProj => "attn.o_proj"@,
        LayerPart::FfnNorm => "ffn_norm"@,
        LayerPart::Gate => "ffn.gate_proj"@,
        LayerPart::Up => "ffn.up_proj"@,
        LayerPart::Down => "ffn.down_proj"@,
    }
}

/// The part that a GGUF stem names.
pub open spec fn gguf_part(stem: Seq<char>) -> Option<LayerPart> {
    if stem == "attn_norm"@ {
        Some(LayerPart::AttnNorm)
    } else if stem == "attn_q_norm"@ {
        Some(LayerPart::QNorm)
    } else if stem == "attn_k_norm"@ {
        Some(LayerPart::KNorm)
    } else if stem == "attn_q"@ {
        Some(LayerPart::QProj)
    } else if stem == "attn_k"@ {
        Some(LayerPart::KProj)
    } else if stem == "attn_v"@ {
        Some(LayerPart::VProj)
    } else if stem == "attn_output"@ {
        Some(LayerPart::OProj)
    } else if stem == "ffn_norm"@ {
        Some(LayerPart::FfnNorm)
    } else if stem == "ffn_gate"@ {
        Some(LayerPart::Gate)
    } else if stem == "ffn_up"@ {
        Some(LayerPart::Up)
    } else if stem == "ffn_down"@ {
        Some(LayerPart::Down)
    } else {
        None
    }
}

/// The part that an HF stem names.
pub open spec fn hf_part(stem: Seq<char>) -> Option<LayerPart> {
    if stem == "input_layernorm"@ {
        Some(LayerPart::AttnNorm)
    } else if stem == "self_attn.q_norm"@ {
        Some(LayerPart::QNorm)
    } else if stem == "self_attn.k_norm"@ {
        Some(LayerPart::KNorm)
    } else if stem == "self_attn.q_proj"@ {
        Some(LayerPart::QProj)
    } else if stem == "self_attn.k_proj"@ {
        Some(LayerPart::KProj)
    } else if stem == "self_attn.v_proj"@ {
        Some(LayerPart::VProj)
    } else if stem == "self_attn.o_proj"@ {
        Some(LayerPart::OProj)
    } else if stem == "post_attention_layernorm"@ {
        Some(LayerPart::FfnNorm)
    } else if stem == "mlp.gate_proj"@ {
        Some(LayerPart::Gate)
    } else if stem == "mlp.up_proj"@ {
        Some(LayerPart::Up)
    } else if stem == "mlp.down_proj"@ {
        Some(LayerPart::Down)
    } else {
        None
    }
}

/// The part that a GGUF stem names.
pub fn map_gguf_layer(stem: &str) -> (r: Option<LayerPart>)
    ensures
        r == gguf_part(stem@),
{
    if text_eq(stem, "attn_norm") {
        Some(LayerPart::AttnNorm)
    } else if text_eq(stem, "attn_q_norm") {
        Some(LayerPart::QNorm)
    } else if text_eq(stem, "attn_k_norm") {
        Some(LayerPart::KNorm)
    } else if text_eq(stem, "attn_q") {
        Some(LayerPart::QProj)
    } else if text_eq(stem, "attn_k") {
        Some(LayerPart::KProj)
    } else if text_eq(stem, "attn_v") {
        Some(LayerPart::VProj)
    } else if text_eq(stem, "attn_output") {
        Some(LayerPart::OProj)
    } else if text_eq(stem, "ffn_norm") {
        Some(LayerPart::FfnNorm)
    } else if text_eq(stem, "ffn_gate") {
        Some(LayerPart::Gate)
    } else if text_eq(stem, "ffn_up") {
        Some(LayerPart::Up)
    } else if text_eq(stem, "ffn_down") {
        Some(LayerPart::Down)
    } else {
        None
    }
}

/// The part that an HF stem names.
pub fn map_hf_layer(stem: &str) -> (r: Option<LayerPart>)
    ensures
        r == hf_part(stem@),
{
    if text_eq(stem, "input_layernorm") {
        Some(LayerPart::AttnNorm)
    } else if text_eq(stem, "self_attn.q_norm") {
        Some(LayerPart::QNorm)
    } else if text_eq(stem, "self_attn.k_norm") {
        Some(LayerPart::KNorm)
    } else if text_eq(stem, "self_attn.q_proj") {
        Some(LayerPart::QProj)
    } else if text_eq(stem, "self_attn.k_proj") {
        Some(LayerPart::KProj)
    } else if text_eq(stem, "self_attn.v_proj") {
        Some(LayerPart::VProj)
    } else if text_eq(stem, "self_attn.o_proj") {
        Some(LayerPart::OProj)
    } else if text_eq(stem, "post_attention_layernorm") {
        Some(LayerPart::FfnNorm)
    } else if text_eq(stem, "mlp.gate_proj") {
        Some(LayerPart::Gate)
    } else if text_eq(stem, "mlp.up_proj") {
        Some(LayerPart::Up)
    } else if text_eq(stem, "mlp.down_proj") {
        Some(LayerPart::Down)
    } else {
        None
    }
}

/// The canonical name of a part.
pub fn canonical_part(p: LayerPart) -> (r: &'static str)
    ensures
        r@ == canonical_stem(p),
{
    match p {
        LayerPart::AttnNorm => "attn_norm",
        LayerPart::QNorm => "attn.q_norm",
        LayerPart::KNorm => "attn.k_norm",
        LayerPart::QProj => "attn.q_proj",
        LayerPart::KProj => "attn.k_proj",
        LayerPart::VProj => "attn.v_proj",
        LayerPart::OProj => "attn.o_proj",
        LayerPart::FfnNorm => "ffn_norm",
        LayerPart::Gate => "ffn.gate_proj",
        LayerPart::Up => "ffn.up_proj",
        LayerPart::Down => "ffn.down_proj",
    }
}

/// Splits `name.weight` or `name.bias` into the name and the parameter.
pub open spec fn param_split(raw: Seq<char>) -> Option<(Seq<char>, Seq<char>)> {
    if ".weight"@.is_suffix_of(raw) {
        Some((raw.take(raw.len() - ".weight"@.len()), "weight"@))
    } else if ".bias"@.is_suffix_of(raw) {
        Some((raw.take(raw.len() - ".bias"@.len()), "bias"@))
    } else {
        None
    }
}

/// Splits `name.weight` or `name.bias` into the name and the parameter.
pub fn split_param(raw: &str) -> (r: Option<(&str, &'static str)>)
    ensures
        match r {
            Some((stem, param)) => param_split(raw@) == Some((stem@, param@)),
            None => param_split(raw@) is None,
        },
{
    let n: usize = raw.unicode_len();
    proof {
        reveal_strlit(".weight");
        reveal_strlit(".bias");
    }
    if ends_with(raw, ".weight") {
        let stem = raw.substring_char(0, n - 7);
        assert(stem@ =~= raw@.take(n - 7));
        Some((stem, "weight"))
    } else if ends_with(raw, ".bias") {
        let stem = raw.substring_char(0, n - 5);
        assert(stem@ =~= raw@.take(n - 5));
        Some((stem, "bias"))
    } else {
        None
    }
}

/// What stands after `prefix` in `stem`, split at its first dot into a layer index
/// and the rest.
pub open spec fn layer_split(stem: Seq<char>, prefix: Seq<char>) -> Option<(u64, Seq<char>)> {
    if !prefix.is_prefix_of(stem) {
        None
    } else {
        let rest = stem.skip(prefix.len() as int);
        let dot = find(rest, '.');
        if dot == rest.len() {
            None
        } else {
            match parse_u64(rest.take(dot)) {
                Some(idx) => Some((idx, rest.skip(dot + 1))),
                None => None,
            }
        }
    }
}

/// What stands after `prefix` in `stem`, split at its first dot into a layer index
/// and the rest.
fn split_layer<'a>(stem: &'a str, prefix: &str) -> (r: Option<(u64, &'a str)>)
    ensures
        match r {
            Some((idx, part)) => layer_split(stem@, prefix@) == Some((idx, part@)),
            None => layer_split(stem@, prefix@) is None,
        },
{
    if !starts_with(stem, prefix) {
        return None;
    }
    let n: usize = stem.unicode_len();
    let rest = stem.substring_char(prefix.unicode_len(), n);
    assert(rest@ =~= stem@.skip(prefix@.len() as int));
    let dot: usize = match find_char(rest, '.') {
        Some(d) => d,
        None => return None,
    };
    let head = rest.substring_char(0, dot);
    assert(head@ =~= rest@.take(dot as int));
    let idx: u64 = match parse_u64_text(head) {
        Some(i) => i,
        None => return None,
    };
    let part = rest.substring_char(dot + 1, rest.unicode_len());
    assert(part@ =~= rest@.skip(dot + 1));
    Some((idx, part))
}

/// `layers.{idx}.{part}.{param}`.
pub open spec fn layer_name(idx: u64, part: LayerPart, param: Seq<char>) -> Seq<char> {
    "layers."@ + dec(idx as nat) + "."@ + canonical_stem(part) + "."@ + param
}

fn layer_text(idx: u64, part: LayerPart, param: &str) -> (s: String)
    ensures
        s@ == layer_name(idx, part, param@),
{
    let mut s = "layers.".to_owned();
    s.append(dec_text(idx).as_str());
    s.append(".");
    s.append(canonical_part(part));
    s.append(".");
    s.append(param);
    s
}

fn with_param(stem: &str, param: &str) -> (s: String)
    ensures
        s@ == stem@ + "."@ + param@,
{
    let mut s = stem.to_owned();
    s.append(".");
    s.append(param);
    s
}

/// The canonical name of a GGUF tensor.
pub open spec fn gguf_name(raw: Seq<char>) -> Option<Seq<char>> {
    match param_split(raw) {
        None => None,
        Some((stem, param)) => if stem == "token_embd"@ {
            Some("token_embed"@ + "."@ + param)
        } else if stem == "output"@ {
            Some("lm_head"@ + "."@ + param)
        } else if stem == "output_norm"@ {
            Some("output_norm"@ + "."@ + param)
        } else {
            match layer_split(stem, "blk."@) {
                None => None,
                Some((idx, suffix)) => match gguf_part(suffix) {
                    None => None,
                    Some(part) => Some(layer_name(idx, part, param)),
                },
            }
        },
    }
}

/// The canonical name of an HF tensor.
pub open spec fn hf_name(raw: Seq<char>) -> Option<Seq<char>> {
    match param_split(raw) {
        None => None,
        Some((stem, param)) => if stem == "model.embed_tokens"@ {
            Some("token_embed"@ + "."@ + param)
        } else if stem == "model.norm"@ {
            Some("output_norm"@ + "."@ + param)
        } else if stem == "lm_head"@ {
            Some("lm_head"@ + "."@ + param)
        } else {
            match layer_split(stem, "model.layers."@) {
                None => None,
                Some((idx, suffix)) => match hf_part(suffix) {
                    None => None,
                    Some(part) => Some(layer_name(idx, part, param)),
                },
            }
        },
    }
}

/// The canonical name of a GGUF tensor, if it has one.
pub fn canonical_gguf(raw: &str) -> (r: Option<String>)
    ensures
        match r {
            Some(s) => gguf_name(raw@) == Some(s@),
            None => gguf_name(raw@) is None,
        },
{
    let (stem, param) = match split_param(raw) {
        Some(p) => p,
        None => return None,
    };
    if text_eq(stem, "token_embd") {
        return Some(with_param("token_embed", param));
    }
    if text_eq(stem, "output") {
        return Some(with_param("lm_head", param));
    }
    if text_eq(stem, "output_norm") {
        return Some(with_param("output_norm", param));
    }
    let (idx, suffix) = match split_layer(stem, "blk.") {
        Some(p) => p,
        None => return None,
    };
    match map_gguf_layer(suffix) {
        Some(part) => Some(layer_text(idx, part, param)),
        None => None,
    }
}

/// The canonical name of an HF tensor, if it has one.
pub fn canonical_hf(raw: &str) -> (r: Option<String>)
    ensures
        match r {
            Some(s) => hf_name(raw@) == Some(s@),
            None => hf_name(raw@) is None,
        },
{
    let (stem, param) = match split_param(raw) {
        Some(p) => p,
        None => return None,
    };
    if text_eq(stem, "model.embed_tokens") {
        return Some(with_param("token_embed", param));
    }
    if text_eq(stem, "model.norm") {
        return Some(with_param("output_norm", param));
    }
    if text_eq(stem, "lm_head") {
        return Some(with_param("lm_head", param));
    }
    let (idx, suffix) = match split_layer(stem, "model.layers.") {
        Some(p) => p,
        None => return None,
    };
    match map_hf_layer(suffix) {
        Some(part) => Some(layer_text(idx, part, param)),
        None => None,
    }
}

/// A name, or the canonical one that stands for it.
pub open spec fn name_or(raw: Seq<char>, mapped: Option<Seq<char>>) -> Seq<char> {
    match mapped {
        Some(s) => s,
        None => raw,
    }
}

/// Every part has its own GGUF stem.
proof fn lemma_gguf_part(p: LayerPart)
    ensures
        gguf_part(gguf_stem(p)) == Some(p),
{
    reveal_strlit("attn_norm");
    reveal_strlit("attn_q_norm");
    reveal_strlit("attn_k_norm");
    reveal_strlit("attn_q");
    reveal_strlit("attn_k");
    reveal_strlit("attn_v");
    reveal_strlit("attn_output");
    reveal_strlit("ffn_norm");
    reveal_strlit("ffn_gate");
    reveal_strlit("ffn_up");
    reveal_strlit("ffn_down");
    match p {
        LayerPart::AttnNorm => {
        },
        LayerPart::QNorm => {
            assert("attn_q_norm"@.len() != "attn_norm"@.len());
        },
        LayerPart::KNorm => {
            assert("attn_k_norm"@.len() != "attn_norm"@.len());
            assert("attn_k_norm"@[5] != "attn_q_norm"@[5]);
        },
        LayerPart::QProj => {
            assert("attn_q"@.len() != "attn_norm"@.len());
            assert("attn_q"@.len() != "attn_q_norm"@.len());
            assert("attn_q"@.len() != "attn_k_norm"@.len());
        },
        LayerPart::KProj => {
            assert("attn_k"@.len() != "attn_norm"@.len());
            assert("attn_k"@.len() != "attn_q_norm"@.len());
            assert("attn_k"@.len() != "attn_k_norm"@.len());
            assert("attn_k"@[5] != "attn_q"@[5]);
        },
        LayerPart::VProj => {
            assert("attn_v"@.len() != "attn_norm"@.len());
            assert("attn_v"@.len() != "attn_q_norm"@.len());
            assert("attn_v"@.len() != "attn_k_norm"@.len());
            assert("attn_v"@[5] != "attn_q"@[5]);
            assert("attn_v"@[5] != "attn_k"@[5]);
        },
        LayerPart::OProj => {
            assert("attn_output"@.len() != "attn_norm"@.len());
            assert("attn_output"@[5] != "attn_q_norm"@[5]);
            assert("attn_output"@[5] != "attn_k_norm"@[5]);
            assert("attn_output"@.len() != "attn_q"@.len());
            assert("attn_output"@.len() != "attn_k"@.len());
            assert("attn_output"@.len() != "attn_v"@.len());
        },
        LayerPart::FfnNorm => {
            assert("ffn_norm"@.len() != "attn_norm"@.len());
            assert("ffn_norm"@.len() != "attn_q_norm"@.len());
            assert("ffn_norm"@.len() != "attn_k_norm"@.len());
            assert("ffn_norm"@.len() != "attn_q"@.len());
            assert("ffn_norm"@.len() != "attn_k"@.len());
            assert("ffn_norm"@.len() != "attn_v"@.len());
            assert("ffn_norm"@.len() != "attn_output"@.len());
        },
        LayerPart::Gate => {
            assert("ffn_gate"@.len() != "attn_norm"@.len());
            assert("ffn_gate"@.len() != "attn_q_norm"@.len());
            assert("ffn_gate"@.len() != "attn_k_norm"@.len());
            assert("ffn_gate"@.len() != "attn_q"@.len());
            assert("ffn_gate"@.len() != "attn_k"@.len());
            assert("ffn_gate"@.len() != "attn_v"@.len());
            assert("ffn_gate"@.len() != "attn_output"@.len());
            assert("ffn_gate"@[4] != "ffn_norm"@[4]);
        },
        LayerPart::Up => {
            assert("ffn_up"@.len() != "attn_norm"@.len());
            assert("ffn_up"@.len() != "attn_q_norm"@.len());
            assert("ffn_up"@.len() != "attn_k_norm"@.len());
            assert("ffn_up"@[0] != "attn_q"@[0]);
            assert("ffn_up"@[0] != "attn_k"@[0]);
            assert("ffn_up"@[0] != "attn_v"@[0]);
            assert("ffn_up"@.len() != "attn_output"@.len());
            assert("ffn_up"@.len() != "ffn_norm"@.len());
            assert("ffn_up"@.len() != "ffn_gate"@.len());
        },
        LayerPart::Down => {
            assert("ffn_down"@.len() != "attn_norm"@.len());
            assert("ffn_down"@.len() != "attn_q_norm"@.len());
            assert("ffn_down"@.len() != "attn_k_norm"@.len());
            assert("ffn_down"@.len() != "attn_q"@.len());
            assert("ffn_down"@.len() != "attn_k"@.len());
            assert("ffn_down"@.len() != "attn_v"@.len());
            assert("ffn_down"@.len() != "attn_output"@.len());
            assert("ffn_down"@[4] != "ffn_norm"@[4]);
            assert("ffn_down"@[4] != "ffn_gate"@[4]);
            assert("ffn_down"@.len() != "ffn_up"@.len());
        },
    }
}

/// Every part has its own HF stem.
proof fn lemma_hf_part(p: LayerPart)
    ensures
        hf_part(hf_stem(p)) == Some(p),
{
    reveal_strlit("input_layernorm");
    reveal_strlit("self_attn.q_norm");
    reveal_strlit("self_attn.k_norm");
    reveal_strlit("self_attn.q_proj");
    reveal_strlit("self_attn.k_proj");
    reveal_strlit("self_attn.v_proj");
    reveal_strlit("self_attn.o_proj");
    reveal_strlit("post_attention_layernorm");
    reveal_strlit("mlp.gate_proj");
    reveal_strlit("mlp.up_proj");
    reveal_strlit("mlp.down_proj");
    match p {
        LayerPart::AttnNorm => {
        },
        LayerPart::QNorm => {
            assert("self_attn.q_norm"@.len() != "input_layernorm"@.len());
        },
        LayerPart::KNorm => {
            assert("self_attn.k_norm"@.len() != "input_layernorm"@.len());
            assert("self_attn.k_norm"@[10] != "self_attn.q_norm"@[10]);
        },
        LayerPart::QProj => {
            assert("self_attn.q_proj"@.len() != "input_layernorm"@.len());
            assert("self_attn.q_proj"@[12] != "self_attn.q_norm"@[12]);
            assert("self_attn.q_proj"@[10] != "self_attn.k_norm"@[10]);
        },
        LayerPart::KProj => {
            assert("self_attn.k_proj"@.len() != "input_layernorm"@.len());
            assert("self_attn.k_proj"@[10] != "self_attn.q_norm"@[10]);
            assert("self_attn.k_proj"@[12] != "self_attn.k_norm"@[12]);
            assert("self_attn.k_proj"@[10] != "self_attn.q_proj"@[10]);
        },
        LayerPart::VProj => {
            assert("self_attn.v_proj"@.len() != "input_layernorm"@.len());
            assert("self_attn.v_proj"@[10] != "self_attn.q_norm"@[10]);
            assert("self_attn.v_proj"@[10] != "self_attn.k_norm"@[10]);
            assert("self_attn.v_proj"@[10] != "self_attn.q_proj"@[10]);
            assert("self_attn.v_proj"@[10] != "self_attn.k_proj"@[10]);
        },
        LayerPart::OProj => {
            assert("self_attn.o_proj"@.len() != "input_layernorm"@.len());
            assert("self_attn.o_proj"@[10] != "self_attn.q_norm"@[10]);
            assert("self_attn.o_proj"@[10] != "self_attn.k_norm"@[10]);
            assert("self_attn.o_proj"@[10] != "self_attn.q_proj"@[10]);
            assert("self_attn.o_proj"@[10] != "self_attn.k_proj"@[10]);
            assert("self_attn.o_proj"@[10] != "self_attn.v_proj"@[10]);
        },
        LayerPart::FfnNorm => {
            assert("post_attention_layernorm"@.len() != "input_layernorm"@.len());
            assert("post_attention_layernorm"@.len() != "self_attn.q_norm"@.len());
            assert("post_attention_layernorm"@.len() != "self_attn.k_norm"@.len());
            assert("post_attention_layernorm"@.len() != "self_attn.q_proj"@.len());
            assert("post_attention_layernorm"@.len() != "self_attn.k_proj"@.len());
            assert("post_attention_layernorm"@.len() != "self_attn.v_proj"@.len());
            assert("post_attention_layernorm"@.len() != "self_attn.o_proj"@.len());
        },
        LayerPart::Gate => {
            assert("mlp.gate_proj"@.len() != "input_layernorm"@.len());
            assert("mlp.gate_proj"@.len() != "self_attn.q_norm"@.len());
            assert("mlp.gate_proj"@.len() != "self_attn.k_norm"@.len());
            assert("mlp.gate_proj"@.len() != "self_attn.q_proj"@.len());
            assert("mlp.gate_proj"@.len() != "self_attn.k_proj"@.len());
            assert("mlp.gate_proj"@.len() != "self_attn.v_proj"@.len());
            assert("mlp.gate_proj"@.len() != "self_attn.o_proj"@.len());
            assert("mlp.gate_proj"@.len() != "post_attention_layernorm"@.len());
        },
        LayerPart::Up => {
            assert("mlp.up_proj"@.len() != "input_layernorm"@.len());
            assert("mlp.up_proj"@.len() != "self_attn.q_norm"@.len());
            assert("mlp.up_proj"@.len() != "self_attn.k_norm"@.len());
            assert("mlp.up_proj"@.len() != "self_attn.q_proj"@.len());
            assert("mlp.up_proj"@.len() != "self_attn.k_proj"@.len());
            assert("mlp.up_proj"@.len() != "self_attn.v_proj"@.len());
            assert("mlp.up_proj"@.len() != "self_attn.o_proj"@.len());
            assert("mlp.up_proj"@.len() != "post_attention_layernorm"@.len());
            assert("mlp.up_proj"@.len() != "mlp.gate_proj"@.len());
        },
        LayerPart::Down => {
            assert("mlp.down_proj"@.len() != "input_layernorm"@.len());
            assert("mlp.down_proj"@.len() != "self_attn.q_norm"@.len());
            assert("mlp.down_proj"@.len() != "self_attn.k_norm"@.len());
            assert("mlp.down_proj"@.len() != "self_attn.q_proj"@.len());
            assert("mlp.down_proj"@.len() != "self_attn.k_proj"@.len());
            assert("mlp.down_proj"@.len() != "self_attn.v_proj"@.len());
            assert("mlp.down_proj"@.len() != "self_attn.o_proj"@.len());
            assert("mlp.down_proj"@.len() != "post_attention_layernorm"@.len());
            assert("mlp.down_proj"@[4] != "mlp.gate_proj"@[4]);
            assert("mlp.down_proj"@.len() != "mlp.up_proj"@.len());
        },
    }
}

/// A name made of a stem and a parameter splits into them.
proof fn lemma_param_split(stem: Seq<char>, param: Seq<char>)
    requires
        param == "weight"@ || param == "bias"@,
    ensures
        param_split(stem + "."@ + param) == Some((stem, param)),
{
    reveal_strlit(".weight");
    reveal_strlit(".bias");
    reveal_strlit("weight");
    reveal_strlit("bias");
    reveal_strlit(".");
    let raw = stem + "."@ + param;
    if param == "weight"@ {
        assert(raw.subrange(raw.len() - 7, raw.len() as int) =~= ".weight"@);
        assert(raw.take(raw.len() - 7) =~= stem);
    } else {
        assert(raw.subrange(raw.len() - 5, raw.len() as int) =~= ".bias"@);
        assert(raw.take(raw.len() - 5) =~= stem);
        // The last letter tells the two apart.
        assert(raw[raw.len() - 1] == 's');
        if ".weight"@.is_suffix_of(raw) {
            let tail = raw.subrange(raw.len() - 7, raw.len() as int);
            assert(tail == ".weight"@);
            assert(tail[6] == raw[raw.len() - 1]);
            assert(".weight"@[6] == 't');
        }
    }
}

/// A stem made of a prefix, an index and a rest splits into them.
proof fn lemma_layer_split(prefix: Seq<char>, idx: u64, rest: Seq<char>)
    ensures
        layer_split(prefix + dec(idx as nat) + "."@ + rest, prefix) == Some((idx, rest)),
{
    reveal_strlit(".");
    let stem = prefix + dec(idx as nat) + "."@ + rest;
    let d = dec(idx as nat);
    assert(stem.subrange(0, prefix.len() as int) =~= prefix);
    let tail = stem.skip(prefix.len() as int);
    assert(tail =~= d + "."@ + rest);
    lemma_dec_digits(idx as nat);
    assert forall|i: int| 0 <= i < d.len() implies tail[i] != '.' by {
        assert(is_digit(d[i]));
    }
    assert(tail[d.len() as int] == '.');
    lemma_find_is(tail, '.', d.len() as int);
    assert(tail.take(d.len() as int) =~= d);
    assert(tail.skip(d.len() as int + 1) =~= rest);
    law_decimal_round_trip(idx);
}

/// The formats agree: the weights and biases of a part of a layer have one
/// canonical name, whichever format they come from.
pub proof fn law_layer_names_agree(idx: u64, part: LayerPart, param: Seq<char>)
    requires
        param == "weight"@ || param == "bias"@,
    ensures
        gguf_name("blk."@ + dec(idx as nat) + "."@ + gguf_stem(part) + "."@ + param) == Some(
            layer_name(idx, part, param),
        ),
        hf_name("model.layers."@ + dec(idx as nat) + "."@ + hf_stem(part) + "."@ + param) == Some(
            layer_name(idx, part, param),
        ),
{
    let g = "blk."@ + dec(idx as nat) + "."@ + gguf_stem(part);
    let h = "model.layers."@ + dec(idx as nat) + "."@ + hf_stem(part);
    lemma_param_split(g, param);
    lemma_param_split(h, param);
    lemma_layer_split("blk."@, idx, gguf_stem(part));
    lemma_layer_split("model.layers."@, idx, hf_stem(part));
    lemma_gguf_part(part);
    lemma_hf_part(part);
    reveal_strlit("blk.");
    reveal_strlit("token_embd");
    reveal_strlit("output");
    reveal_strlit("output_norm");
    reveal_strlit("model.layers.");
    reveal_strlit("model.embed_tokens");
    reveal_strlit("model.norm");
    reveal_strlit("lm_head");
    assert(g[0] == 'b');
    assert(h[6] == 'l');
    assert("model.embed_tokens"@[6] == 'e');
    assert("model.norm"@[6] == 'n');
    assert(h[0] == 'm');
    assert("lm_head"@[0] == 'l');
}

/// The formats agree on the tensors outside the layers too.
pub proof fn law_global_names_agree(param: Seq<char>)
    requires
        param == "weight"@ || param == "bias"@,
    ensures
        gguf_name("token_embd"@ + "."@ + param) == hf_name("model.embed_tokens"@ + "."@ + param),
        gguf_name("output_norm"@ + "."@ + param) == hf_name("model.norm"@ + "."@ + param),
        gguf_name("output"@ + "."@ + param) == hf_name("lm_head"@ + "."@ + param),
        gguf_name("token_embd"@ + "."@ + param) is Some,
        gguf_name("output_norm"@ + "."@ + param) is Some,
        gguf_name("output"@ + "."@ + param) is Some,
{
    lemma_param_split("token_embd"@, param);
    lemma_param_split("output_norm"@, param);
    lemma_param_split("output"@, param);
    lemma_param_split("model.embed_tokens"@, param);
    lemma_param_split("model.norm"@, param);
    lemma_param_split("lm_head"@, param);
    reveal_strlit("token_embd");
    reveal_strlit("output");
    reveal_strlit("output_norm");
    reveal_strlit("model.embed_tokens");
    reveal_strlit("model.norm");
    reveal_strlit("lm_head");
}

/// Canonical names are fixed: mapping one again, by either format's rules, leaves
/// it as it is.
pub proof fn law_canonical_names_are_fixed(idx: u64, part: LayerPart, param: Seq<char>)
    requires
        param == "weight"@ || param == "bias"@,
    ensures
        name_or(layer_name(idx, part, param), gguf_name(layer_name(idx, part, param)))
            == layer_name(idx, part, param),
        name_or(layer_name(idx, part, param), hf_name(layer_name(idx, part, param)))
            == layer_name(idx, part, param),
{
    let stem = "layers."@ + dec(idx as nat) + "."@ + canonical_stem(part);
    assert(layer_name(idx, part, param) == stem + "."@ + param);
    lemma_param_split(stem, param);
    reveal_strlit("layers.");
    reveal_strlit("blk.");
    reveal_strlit("token_embd");
    reveal_strlit("output");
    reveal_strlit("output_norm");
    reveal_strlit("model.layers.");
    reveal_strlit("model.embed_tokens");
    reveal_strlit("model.norm");
    reveal_strlit("lm_head");
    assert(stem[0] == 'l' && stem[1] == 'a');
    assert("lm_head"@[1] == 'm');
    if "blk."@.is_prefix_of(stem) {
        assert(stem.subrange(0, 4)[0] == stem[0]);
        assert("blk."@[0] == 'b');
    }
    if "model.layers."@.is_prefix_of(stem) {
        assert(stem.subrange(0, 13)[0] == stem[0]);
        assert("model.layers."@[0] == 'm');
    }
}

/// What a tensor is for: one of those outside the layers, or a part of a layer.
#[verifier::ext_equal]
pub enum Role {
    Embedding,
    FinalNorm,
    Output,
    Layer { idx: u64, part: LayerPart },
}

/// The stem of a role's tensors in GGUF files.
pub open spec fn gguf_role(r: Role) -> Seq<char> {
    match r {
        Role::Embedding => "token_embd"@,
        Role::FinalNorm => "output_norm"@,
        Role::Output => "output"@,
        Role::Layer { idx, part } => "blk."@ + dec(idx as nat) + "."@ + gguf_stem(part),
    }
}

/// The stem of a role's tensors in HF files.
pub open spec fn hf_role(r: Role) -> Seq<char> {
    match r {
        Role::Embedding => "model.embed_tokens"@,
        Role::FinalNorm => "model.norm"@,
        Role::Output => "lm_head"@,
        Role::Layer { idx, part } => "model.layers."@ + dec(idx as nat) + "."@ + hf_stem(part),
    }
}

/// The canonical stem of a role's tensors.
pub open spec fn canonical_role(r: Role) -> Seq<char> {
    match r {
        Role::Embedding => "token_embed"@,
        Role::FinalNorm => "output_norm"@,
        Role::Output => "lm_head"@,
        Role::Layer { idx, part } => "layers."@ + dec(idx as nat) + "."@ + canonical_stem(part),
    }
}

/// The canonical name of a role's weights or biases.
pub open spec fn role_name(r: Role, param: Seq<char>) -> Seq<char> {
    canonical_role(r) + "."@ + param
}

/// Whatever a tensor is for, both formats' names of it have one canonical name.
pub proof fn law_role_names_agree(r: Role, param: Seq<char>)
    requires
        param == "weight"@ || param == "bias"@,
    ensures
        gguf_name(gguf_role(r) + "."@ + param) == Some(role_name(r, param)),
        hf_name(hf_role(r) + "."@ + param) == Some(role_name(r, param)),
{
    match r {
        Role::Layer { idx, part } => {
            law_layer_names_agree(idx, part, param);
        },
        _ => {
            law_global_names_agree(param);
            lemma_param_split("token_embd"@, param);
            lemma_param_split("output_norm"@, param);
            lemma_param_split("output"@, param);
            reveal_strlit("token_embd");
            reveal_strlit("output");
            reveal_strlit("output_norm");
        },
    }
}

/// The canonical names of different parts differ.
proof fn lemma_canonical_stems_differ(a: LayerPart, b: LayerPart)
    requires
        canonical_stem(a) == canonical_stem(b),
    ensures
        a == b,
{
    reveal_strlit("attn_norm");
    reveal_strlit("attn.q_norm");
    reveal_strlit("attn.k_norm");
    reveal_strlit("attn.q_proj");
    reveal_strlit("attn.k_proj");
    reveal_strlit("attn.v_proj");
    reveal_strlit("attn.o_proj");
    reveal_strlit("ffn_norm");
    reveal_strlit("ffn.gate_proj");
    reveal_strlit("ffn.up_proj");
    reveal_strlit("ffn.down_proj");
    let tag = |s: Seq<char>| (s.len(), s[4], s[5], s[7]);
    assert(tag("attn_norm"@) == (9nat, '_', 'n', 'r'));
    assert(tag("attn.q_norm"@) == (11nat, '.', 'q', 'n'));
    assert(tag("attn.k_norm"@) == (11nat, '.', 'k', 'n'));
    assert(tag("attn.q_proj"@) == (11nat, '.', 'q', 'p'));
    assert(tag("attn.k_proj"@) == (11nat, '.', 'k', 'p'));
    assert(tag("attn.v_proj"@) == (11nat, '.', 'v', 'p'));
    assert(tag("attn.o_proj"@) == (11nat, '.', 'o', 'p'));
    assert("ffn_norm"@.len() == 8);
    assert(tag("ffn.gate_proj"@) == (13nat, 'g', 'a', 'e'));
    assert(tag("ffn.up_proj"@) == (11nat, 'u', 'p', 'p'));
    assert(tag("ffn.down_proj"@) == (13nat, 'd', 'o', 'n'));
    assert(tag(canonical_stem(a)) == tag(canonical_stem(b)));
}

/// A canonical name tells what a tensor is for: no two roles, layers or parameters
/// share one.
pub proof fn law_canonical_names_differ(r: Role, p: Seq<char>, s: Role, q: Seq<char>)
    requires
        p == "weight"@ || p == "bias"@,
        q == "weight"@ || q == "bias"@,
        role_name(r, p) == role_name(s, q),
    ensures
        r == s,
        p == q,
{
    let a = canonical_role(r);
    let b = canonical_role(s);
    lemma_param_split(a, p);
    lemma_param_split(b, q);
    assert(role_name(r, p) == a + "."@ + p);
    assert(role_name(s, q) == b + "."@ + q);
    assert(a == b);
    reveal_strlit("token_embed");
    reveal_strlit("output_norm");
    reveal_strlit("lm_head");
    reveal_strlit("layers.");
    assert("token_embed"@[0] == 't' && "output_norm"@[0] == 'o');
    assert("lm_head"@[0] == 'l' && "lm_head"@[1] == 'm' && "layers."@[1] == 'a');
    if let Role::Layer { idx, part } = r {
        lemma_layer_split("layers."@, idx, canonical_stem(part));
        assert(a[0] == 'l' && a[1] == 'a');
        if let Role::Layer { idx: idx2, part: part2 } = s {
            lemma_layer_split("layers."@, idx2, canonical_stem(part2));
            lemma_canonical_stems_differ(part, part2);
        }
    } else if let Role::Layer { idx, part } = s {
        assert(b[0] == 'l' && b[1] == 'a');
    }
}

} // verus!
