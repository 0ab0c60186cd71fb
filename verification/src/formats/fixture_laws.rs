//! What holds of the tiny models: both formats hold the same weights, and the file with
//! biases differs from the plain one by these alone.

use vstd::prelude::*;
use vstd::utf8::encode_utf8;

use crate::float::single::{is_nan, of_int, product, quotient, sum};
use crate::formats::desc::{byte_len, checked_product, DTypeV, HyperParams, TensorV};
use crate::formats::error::Fault;
use crate::formats::fixture_files::{
    bias_image, biases, layer_biases, lemma_offset_bound, tiny_entries, tiny_image, token_types,
    vocab_merges, vocab_tokens,
};
use crate::formats::fixtures::{
    effective, gguf_fixture, gguf_weights, global_rows, hf_dtype, hf_fixture, layer_rows,
    layers_rows, lemma_product1, lemma_rows_ok, permuted, row_ok, row_weights, seed_of, source_in_head, source_row, stream_state,
    tiny_gguf_fixtures, tiny_hf_fixtures, tiny_hp, tiny_rows, weight_of, weights, RowV,
};
use crate::formats::half::{
    law_bfloat_round_trip, law_half_round_trip, law_narrowed_bfloat_is_nearest,
    law_narrowed_half_is_nearest, narrow_bfloat, narrow_half,
};
use crate::formats::gguf::{
    alignment_of, all_renamed, arch_key, hyperparams_of, lookup, parsed, text_at, EntryV,
};
use crate::formats::image::{
    entries_bytes, image, law_image_parses_back, lemma_all_aligned, offset_of, read_back,
    read_back_all, short_text, storable, storable_entry, storable_tensor, stored_value,
    tensors_read_back, FixtureV,
};
use crate::formats::names::{
    gguf_name, gguf_role, gguf_stem, hf_name, hf_role, hf_stem, law_role_names_agree, role_name,
    LayerPart, Role,
};
use crate::formats::quant::{decoded, law_decode_of_pack, law_packed_len, packed};
use crate::text::dec;

verus! {

/// The numbers that a tensor's data stands for.
pub open spec fn values_of(t: FixtureV) -> Seq<u32> {
    Seq::new(checked_product(t.shape)->0, |i: int| decoded(t.dtype, t.data, i))
}

/// Which part of a layer row `j` of its table is.
pub open spec fn part_at(j: int) -> LayerPart {
    match j as u8 {
        0u8 => LayerPart::AttnNorm,
        1u8 => LayerPart::QProj,
        2u8 => LayerPart::KProj,
        3u8 => LayerPart::VProj,
        4u8 => LayerPart::OProj,
        5u8 => LayerPart::FfnNorm,
        6u8 => LayerPart::Gate,
        7u8 => LayerPart::Up,
        _ => LayerPart::Down,
    }
}

/// What tensor `k` of the tiny model is for.
pub open spec fn role_at(k: int) -> Role {
    if k == 0 {
        Role::Embedding
    } else if k == 1 {
        Role::FinalNorm
    } else {
        Role::Layer { idx: ((k - 2) / 9) as u64, part: part_at((k - 2) % 9) }
    }
}

/// Row `k` of the table: two rows outside the layers, then nine for each.
proof fn lemma_row_at(k: int)
    requires
        0 <= k < 20,
    ensures
        tiny_rows().len() == 20,
        k < 2 ==> tiny_rows()[k] == global_rows()[k],
        k >= 2 ==> tiny_rows()[k] == layer_rows(((k - 2) / 9) as nat)[(k - 2) % 9],
        row_ok(tiny_rows()[k]),
{
    reveal_with_fuel(layers_rows, 3);
    lemma_rows_ok(0);
    lemma_rows_ok(1);
    let all = tiny_rows();
    if k >= 11 {
        assert((k - 2) / 9 == 1 && (k - 2) % 9 == k - 11);
        assert(all[k] == layer_rows(1)[k - 11]);
    } else if k >= 2 {
        assert((k - 2) / 9 == 0 && (k - 2) % 9 == k - 2);
        assert(all[k] == layer_rows(0)[k - 2]);
    } else {
        assert(all[k] == global_rows()[k]);
    }
}

proof fn lemma_gguf_literals()
    ensures
        "token_embd.weight"@ == "token_embd"@ + "."@ + "weight"@,
        "output_norm.weight"@ == "output_norm"@ + "."@ + "weight"@,
        "attn_norm.weight"@ == "attn_norm"@ + "."@ + "weight"@,
        "attn_q.weight"@ == "attn_q"@ + "."@ + "weight"@,
        "attn_k.weight"@ == "attn_k"@ + "."@ + "weight"@,
        "attn_v.weight"@ == "attn_v"@ + "."@ + "weight"@,
        "attn_output.weight"@ == "attn_output"@ + "."@ + "weight"@,
        "ffn_norm.weight"@ == "ffn_norm"@ + "."@ + "weight"@,
        "ffn_gate.weight"@ == "ffn_gate"@ + "."@ + "weight"@,
        "ffn_up.weight"@ == "ffn_up"@ + "."@ + "weight"@,
        "ffn_down.weight"@ == "ffn_down"@ + "."@ + "weight"@,
{
    reveal_strlit(".");
    reveal_strlit("weight");
    reveal_strlit("token_embd");
    reveal_strlit("token_embd.weight");
    assert("token_embd.weight"@ =~= "token_embd"@ + "."@ + "weight"@);
    reveal_strlit("output_norm");
    reveal_strlit("output_norm.weight");
    assert("output_norm.weight"@ =~= "output_norm"@ + "."@ + "weight"@);
    reveal_strlit("attn_norm");
    reveal_strlit("attn_norm.weight");
    assert("attn_norm.weight"@ =~= "attn_norm"@ + "."@ + "weight"@);
    reveal_strlit("attn_q");
    reveal_strlit("attn_q.weight");
    assert("attn_q.weight"@ =~= "attn_q"@ + "."@ + "weight"@);
    reveal_strlit("attn_k");
    reveal_strlit("attn_k.weight");
    assert("attn_k.weight"@ =~= "attn_k"@ + "."@ + "weight"@);
    reveal_strlit("attn_v");
    reveal_strlit("attn_v.weight");
    assert("attn_v.weight"@ =~= "attn_v"@ + "."@ + "weight"@);
    reveal_strlit("attn_output");
    reveal_strlit("attn_output.weight");
    assert("attn_output.weight"@ =~= "attn_output"@ + "."@ + "weight"@);
    reveal_strlit("ffn_norm");
    reveal_strlit("ffn_norm.weight");
    assert("ffn_norm.weight"@ =~= "ffn_norm"@ + "."@ + "weight"@);
    reveal_strlit("ffn_gate");
    reveal_strlit("ffn_gate.weight");
    assert("ffn_gate.weight"@ =~= "ffn_gate"@ + "."@ + "weight"@);
    reveal_strlit("ffn_up");
    reveal_strlit("ffn_up.weight");
    assert("ffn_up.weight"@ =~= "ffn_up"@ + "."@ + "weight"@);
    reveal_strlit("ffn_down");
    reveal_strlit("ffn_down.weight");
    assert("ffn_down.weight"@ =~= "ffn_down"@ + "."@ + "weight"@);
}

proof fn lemma_hf_literals()
    ensures
        "model.embed_tokens.weight"@ == "model.embed_tokens"@ + "."@ + "weight"@,
        "model.norm.weight"@ == "model.norm"@ + "."@ + "weight"@,
        "input_layernorm.weight"@ == "input_layernorm"@ + "."@ + "weight"@,
        "self_attn.q_proj.weight"@ == "self_attn.q_proj"@ + "."@ + "weight"@,
        "self_attn.k_proj.weight"@ == "self_attn.k_proj"@ + "."@ + "weight"@,
        "self_attn.v_proj.weight"@ == "self_attn.v_proj"@ + "."@ + "weight"@,
        "self_attn.o_proj.weight"@ == "self_attn.o_proj"@ + "."@ + "weight"@,
        "post_attention_layernorm.weight"@ == "post_attention_layernorm"@ + "."@ + "weight"@,
        "mlp.gate_proj.weight"@ == "mlp.gate_proj"@ + "."@ + "weight"@,
        "mlp.up_proj.weight"@ == "mlp.up_proj"@ + "."@ + "weight"@,
        "mlp.down_proj.weight"@ == "mlp.down_proj"@ + "."@ + "weight"@,
{
    reveal_strlit(".");
    reveal_strlit("weight");
    reveal_strlit("model.embed_tokens");
    reveal_strlit("model.embed_tokens.weight");
    assert("model.embed_tokens.weight"@ =~= "model.embed_tokens"@ + "."@ + "weight"@);
    reveal_strlit("model.norm");
    reveal_strlit("model.norm.weight");
    assert("model.norm.weight"@ =~= "model.norm"@ + "."@ + "weight"@);
    reveal_strlit("input_layernorm");
    reveal_strlit("input_layernorm.weight");
    assert("input_layernorm.weight"@ =~= "input_layernorm"@ + "."@ + "weight"@);
    reveal_strlit("self_attn.q_proj");
    reveal_strlit("self_attn.q_proj.weight");
    assert("self_attn.q_proj.weight"@ =~= "self_attn.q_proj"@ + "."@ + "weight"@);
    reveal_strlit("self_attn.k_proj");
    reveal_strlit("self_attn.k_proj.weight");
    assert("self_attn.k_proj.weight"@ =~= "self_attn.k_proj"@ + "."@ + "weight"@);
    reveal_strlit("self_attn.v_proj");
    reveal_strlit("self_attn.v_proj.weight");
    assert("self_attn.v_proj.weight"@ =~= "self_attn.v_proj"@ + "."@ + "weight"@);
    reveal_strlit("self_attn.o_proj");
    reveal_strlit("self_attn.o_proj.weight");
    assert("self_attn.o_proj.weight"@ =~= "self_attn.o_proj"@ + "."@ + "weight"@);
    reveal_strlit("post_attention_layernorm");
    reveal_strlit("post_attention_layernorm.weight");
    assert("post_attention_layernorm.weight"@ =~= "post_attention_layernorm"@ + "."@ + "weight"@);
    reveal_strlit("mlp.gate_proj");
    reveal_strlit("mlp.gate_proj.weight");
    assert("mlp.gate_proj.weight"@ =~= "mlp.gate_proj"@ + "."@ + "weight"@);
    reveal_strlit("mlp.up_proj");
    reveal_strlit("mlp.up_proj.weight");
    assert("mlp.up_proj.weight"@ =~= "mlp.up_proj"@ + "."@ + "weight"@);
    reveal_strlit("mlp.down_proj");
    reveal_strlit("mlp.down_proj.weight");
    assert("mlp.down_proj.weight"@ =~= "mlp.down_proj"@ + "."@ + "weight"@);
}

/// A stem and a parameter behind what stands before them.
proof fn lemma_regroup(a: Seq<char>, b: Seq<char>, c: Seq<char>, d: Seq<char>)
    ensures
        a + (b + c + d) == a + b + c + d,
{
    assert(a + (b + c + d) =~= a + b + c + d);
}

/// The names of row `j` of layer `i` are those of its part.
proof fn lemma_layer_row_names(i: nat, j: int)
    requires
        0 <= j < 9,
    ensures
        layer_rows(i)[j].gguf == "blk."@ + dec(i) + "."@ + gguf_stem(part_at(j)) + "."@ + "weight"@,
        layer_rows(i)[j].hf == "model.layers."@ + dec(i) + "."@ + hf_stem(part_at(j)) + "."@
            + "weight"@,
{
    lemma_gguf_literals();
    lemma_hf_literals();
    let p = part_at(j);
    let r = layer_rows(i)[j];
    let g = "blk."@ + dec(i) + "."@;
    let h = "model.layers."@ + dec(i) + "."@;
    assert(r.gguf == g + (gguf_stem(p) + "."@ + "weight"@));
    assert(r.hf == h + (hf_stem(p) + "."@ + "weight"@));
    lemma_regroup(g, gguf_stem(p), "."@, "weight"@);
    lemma_regroup(h, hf_stem(p), "."@, "weight"@);
}

/// The names of tensor `k` are those of what it is for.
proof fn lemma_row_names(k: int)
    requires
        0 <= k < 20,
    ensures
        tiny_rows()[k].gguf == gguf_role(role_at(k)) + "."@ + "weight"@,
        tiny_rows()[k].hf == hf_role(role_at(k)) + "."@ + "weight"@,
{
    lemma_row_at(k);
    if k < 2 {
        lemma_gguf_literals();
        lemma_hf_literals();
    } else {
        lemma_layer_row_names(((k - 2) / 9) as nat, (k - 2) % 9);
    }
}

/// A weight of the stream is a number.
proof fn lemma_weight_is_a_number(s: u64)
    ensures
        !is_nan(weight_of(s)),
{
    reveal(of_int);
    reveal(quotient);
    reveal(sum);
    reveal(product);
}

/// What was narrowed and widened once stays as it is.
proof fn lemma_settled(d: DTypeV, w: Seq<u32>, i: int)
    requires
        d is F16 || d is BF16 || d is F32,
        byte_len(d, w.len()) is Some,
        0 <= i < w.len(),
        forall|j: int| 0 <= j < w.len() ==> !is_nan(#[trigger] w[j]),
    ensures
        ({
            let once = Seq::new(w.len(), |j: int| decoded(d, packed(d, w), j));
            decoded(d, packed(d, once), i) == once[i]
        }),
{
    let once = Seq::new(w.len(), |j: int| decoded(d, packed(d, w), j));
    law_decode_of_pack(d, w, i);
    law_decode_of_pack(d, once, i);
    let x = w[i];
    if d is F16 {
        law_narrowed_half_is_nearest(x);
        law_half_round_trip(narrow_half(x));
    } else if d is BF16 {
        law_narrowed_bfloat_is_nearest(x);
        law_bfloat_round_trip(narrow_bfloat(x));
    }
}

/// The safetensors file holds the effective weights.
proof fn lemma_hf_values(r: RowV, k: int)
    requires
        row_ok(r),
    ensures
        values_of(hf_fixture(r, k)) == effective(r, k),
{
    let w = row_weights(r, k);
    let e = effective(r, k);
    let n = w.len();
    assert(n / 1 == n);
    assert(n / 1 * 4 == 4 * n);
    assert forall|j: int| 0 <= j < n implies !is_nan(#[trigger] w[j]) by {
        lemma_weight_is_a_number(stream_state(seed_of(k), (j + 1) as nat));
    }
    assert forall|i: int| 0 <= i < n implies values_of(hf_fixture(r, k))[i] == #[trigger] e[i] by {
        let d = hf_dtype(r.dtype);
        if r.dtype is F16 || r.dtype is BF16 {
            lemma_settled(r.dtype, w, i);
        } else {
            assert(byte_len(d, n) == Some(4 * n));
            law_decode_of_pack(d, e, i);
        }
    }
    assert(values_of(hf_fixture(r, k)) =~= e);
}

/// The row that a permuted row comes from is one of the rows.
proof fn lemma_source_row(row: int, head: int, heads: int)
    requires
        head > 0,
        head % 2 == 0,
        0 <= row < heads * head,
    ensures
        0 <= source_row(row, head) < heads * head,
{
    let h = row / head;
    let s = source_in_head(row % head, head);
    vstd::arithmetic::div_mod::lemma_fundamental_div_mod(row, head);
    vstd::arithmetic::div_mod::lemma_mod_bound(row, head);
    assert(0 <= h < heads) by (nonlinear_arith)
        requires
            0 <= row < heads * head,
            row == head * h + row % head,
            0 <= row % head < head,
    ;
    assert(0 <= h * head && h * head + s < heads * head) by (nonlinear_arith)
        requires
            0 <= h < heads,
            0 <= s < head,
    ;
}

/// Where the rows of blocks are permuted, so are their decoded numbers: a block moves as
/// a whole.
proof fn lemma_blocks_move(w: Seq<u32>, cols: int, head: int, heads: int, i: int)
    requires
        cols == 64,
        head > 0,
        head % 2 == 0,
        heads > 0,
        w.len() == heads * head * cols,
        byte_len(DTypeV::Q8_0, w.len()) is Some,
        0 <= i < w.len(),
    ensures
        ({
            let j = source_row(i / cols, head) * cols + i % cols;
            &&& 0 <= j < w.len()
            &&& decoded(DTypeV::Q8_0, packed(DTypeV::Q8_0, permuted(w, cols, head)), i)
                == decoded(DTypeV::Q8_0, packed(DTypeV::Q8_0, w), j)
        }),
{
    let g = permuted(w, cols, head);
    let rows = heads * head;
    let row = i / cols;
    assert(rows * cols == w.len());
    assert(0 <= row < rows);
    lemma_source_row(row, head, heads);
    let s = source_row(row, head);
    let j = s * cols + i % cols;
    assert(0 <= j < w.len());
    assert(j % 32 == i % 32);
    let a = i / 32 * 32;
    let b = j / 32 * 32;
    assert(b - a == j - i);
    let x = g.subrange(a, a + 32);
    let y = w.subrange(b, b + 32);
    assert forall|l: int| 0 <= l < 32 implies #[trigger] x[l] == y[l] by {
        assert((a + l) / cols == row);
        assert((a + l) % cols == i % cols - i % 32 + l);
    }
    assert(x =~= y);
    law_decode_of_pack(DTypeV::Q8_0, g, i);
    law_decode_of_pack(DTypeV::Q8_0, w, j);
}

/// The GGUF file holds the effective weights, with the rows of the query and key
/// projections permuted.
proof fn lemma_gguf_values(r: RowV, k: int)
    requires
        row_ok(r),
        r.heads > 0 ==> r.dtype is Q8_0 && r.shape.last() == 64,
    ensures
        ({
            let e = effective(r, k);
            let cols = r.shape.last() as nat;
            values_of(gguf_fixture(r, k)) == if r.heads > 0 {
                permuted(e, cols as int, (e.len() / cols / r.heads) as int)
            } else {
                e
            }
        }),
{
    let e = effective(r, k);
    let w = row_weights(r, k);
    let n = w.len();
    let t = gguf_fixture(r, k);
    if r.heads > 0 {
        let cols = r.shape.last() as nat;
        let rows = n / cols;
        let head = rows / r.heads;
        vstd::arithmetic::div_mod::lemma_fundamental_div_mod(rows as int, r.heads as int);
        assert(head > 0) by (nonlinear_arith)
            requires
                rows == r.heads * head,
                rows > 0,
        ;
        let p = permuted(e, cols as int, head as int);
        assert forall|i: int| 0 <= i < n implies values_of(t)[i] == #[trigger] p[i] by {
            lemma_blocks_move(w, cols as int, head as int, r.heads as int, i);
        }
        assert(values_of(t) =~= p);
    } else {
        assert(values_of(t) =~= e);
    }
}

/// The tiny model's two files hold the same weights: twenty tensors each, in the same
/// order, of the same shapes and under the same canonical names, without blocks in the
/// safetensors file. Their numbers are the same, but that the GGUF file has the rows of
/// each head of the query and key projections permuted.
pub proof fn law_both_files_hold_the_same_weights(k: int)
    requires
        0 <= k < 20,
    ensures
        tiny_gguf_fixtures().len() == 20,
        tiny_hf_fixtures().len() == 20,
        ({
            let g = tiny_gguf_fixtures()[k];
            let h = tiny_hf_fixtures()[k];
            let heads: nat = match role_at(k) {
                Role::Layer { part: LayerPart::QProj, .. } => 2,
                Role::Layer { part: LayerPart::KProj, .. } => 1,
                _ => 0,
            };
            let cols = g.shape.last() as nat;
            let v = values_of(h);
            &&& g.shape == h.shape
            &&& gguf_name(g.name) == Some(role_name(role_at(k), "weight"@))
            &&& hf_name(h.name) == Some(role_name(role_at(k), "weight"@))
            &&& h.dtype is F32 || h.dtype is F16 || h.dtype is BF16
            &&& values_of(g) == if heads > 0 {
                permuted(v, cols as int, (v.len() / cols / heads) as int)
            } else {
                v
            }
        }),
{
    lemma_row_at(k);
    lemma_row_names(k);
    law_role_names_agree(role_at(k), "weight"@);
    let r = tiny_rows()[k];
    lemma_hf_values(r, k);
    lemma_gguf_values(r, k);
}

/// A text of at most a thousand characters is short enough to be read back.
proof fn lemma_short(s: Seq<char>)
    requires
        s.len() <= 1000,
    ensures
        short_text(s),
{
    lemma_encoded_len(s);
}

/// A character takes at most four bytes.
pub proof fn lemma_encoded_len(s: Seq<char>)
    ensures
        encode_utf8(s).len() <= 4 * s.len(),
    decreases s.len(),
{
    if s.len() > 0 {
        lemma_encoded_len(s.drop_first());
    }
}

/// Which entry of the tiny model's metadata a key belongs to: its length and at most
/// two letters tell.
spec fn place(s: Seq<char>) -> int {
    let n = s.len();
    if n == 20 {
        if s[0] == 'g' {
            0
        } else if s[0] == 't' {
            10
        } else if s[6] == 'c' {
            8
        } else {
            18
        }
    } else if n == 12 {
        1
    } else if n == 17 {
        if s[0] == 'g' {
            2
        } else {
            3
        }
    } else if n == 22 {
        4
    } else if n == 26 {
        5
    } else if n == 29 {
        6
    } else if n == 25 {
        if s[0] == 'l' {
            7
        } else {
            14
        }
    } else if n == 38 {
        9
    } else if n == 18 {
        11
    } else if n == 21 {
        if s[15] == 't' {
            12
        } else {
            13
        }
    } else if n == 27 {
        if s[15] == 'b' {
            15
        } else {
            16
        }
    } else if n == 28 {
        17
    } else {
        19
    }
}

/// Every key of the tiny model's metadata has a place of its own, and is short.
proof fn lemma_places()
    ensures
        tiny_entries().len() == 18,
        forall|i: int|
            0 <= i < 18 ==> place((#[trigger] tiny_entries()[i]).key) == i
                && tiny_entries()[i].key.len() <= 100,
{
    reveal_strlit("general.architecture");
    reveal_strlit("general.name");
    reveal_strlit("general.alignment");
    reveal_strlit("llama.block_count");
    reveal_strlit("llama.embedding_length");
    reveal_strlit("llama.attention.head_count");
    reveal_strlit("llama.attention.head_count_kv");
    reveal_strlit("llama.feed_forward_length");
    reveal_strlit("llama.context_length");
    reveal_strlit("llama.attention.layer_norm_rms_epsilon");
    reveal_strlit("tokenizer.ggml.model");
    reveal_strlit("tokenizer.ggml.pre");
    reveal_strlit("tokenizer.ggml.tokens");
    reveal_strlit("tokenizer.ggml.merges");
    reveal_strlit("tokenizer.ggml.token_type");
    reveal_strlit("tokenizer.ggml.bos_token_id");
    reveal_strlit("tokenizer.ggml.eos_token_id");
    reveal_strlit("tokenizer.ggml.add_bos_token");
    assert(place("general.architecture"@) == 0);
    assert(place("general.name"@) == 1);
    assert(place("general.alignment"@) == 2);
    assert(place("llama.block_count"@) == 3);
    assert(place("llama.embedding_length"@) == 4);
    assert(place("llama.attention.head_count"@) == 5);
    assert(place("llama.attention.head_count_kv"@) == 6);
    assert(place("llama.feed_forward_length"@) == 7);
    assert(place("llama.context_length"@) == 8);
    assert(place("llama.attention.layer_norm_rms_epsilon"@) == 9);
    assert(place("tokenizer.ggml.model"@) == 10);
    assert(place("tokenizer.ggml.pre"@) == 11);
    assert(place("tokenizer.ggml.tokens"@) == 12);
    assert(place("tokenizer.ggml.merges"@) == 13);
    assert(place("tokenizer.ggml.token_type"@) == 14);
    assert(place("tokenizer.ggml.bos_token_id"@) == 15);
    assert(place("tokenizer.ggml.eos_token_id"@) == 16);
    assert(place("tokenizer.ggml.add_bos_token"@) == 17);
    let es = tiny_entries();
    assert forall|i: int| 0 <= i < 18 implies place((#[trigger] es[i]).key) == i
        && es[i].key.len() <= 100 by {
        if i == 0 {
        } else if i == 1 {
        } else if i == 2 {
        } else if i == 3 {
        } else if i == 4 {
        } else if i == 5 {
        } else if i == 6 {
        } else if i == 7 {
        } else if i == 8 {
        } else if i == 9 {
        } else if i == 10 {
        } else if i == 11 {
        } else if i == 12 {
        } else if i == 13 {
        } else if i == 14 {
        } else if i == 15 {
        } else if i == 16 {
        } else if i == 17 {
        }
    }
}

/// The keys of an architecture's entries.
proof fn lemma_arch_keys()
    ensures
        arch_key("llama"@, "block_count"@) == "llama.block_count"@,
        arch_key("llama"@, "embedding_length"@) == "llama.embedding_length"@,
        arch_key("llama"@, "attention.head_count"@) == "llama.attention.head_count"@,
        arch_key("llama"@, "attention.head_count_kv"@) == "llama.attention.head_count_kv"@,
        arch_key("llama"@, "feed_forward_length"@) == "llama.feed_forward_length"@,
        arch_key("llama"@, "context_length"@) == "llama.context_length"@,
        arch_key("llama"@, "attention.layer_norm_rms_epsilon"@) == "llama.attention.layer_norm_rms_epsilon"@,
        arch_key("llama"@, "vocab_size"@) == "llama.vocab_size"@,
        arch_key("llama"@, "rope.freq_base"@) == "llama.rope.freq_base"@,
        place("llama.vocab_size"@) == 19,
        place("llama.rope.freq_base"@) == 18,
{
    reveal_strlit("llama");
    reveal_strlit(".");
    reveal_strlit("block_count");
    reveal_strlit("llama.block_count");
    assert(arch_key("llama"@, "block_count"@) =~= "llama.block_count"@);
    reveal_strlit("embedding_length");
    reveal_strlit("llama.embedding_length");
    assert(arch_key("llama"@, "embedding_length"@) =~= "llama.embedding_length"@);
    reveal_strlit("attention.head_count");
    reveal_strlit("llama.attention.head_count");
    assert(arch_key("llama"@, "attention.head_count"@) =~= "llama.attention.head_count"@);
    reveal_strlit("attention.head_count_kv");
    reveal_strlit("llama.attention.head_count_kv");
    assert(arch_key("llama"@, "attention.head_count_kv"@) =~= "llama.attention.head_count_kv"@);
    reveal_strlit("feed_forward_length");
    reveal_strlit("llama.feed_forward_length");
    assert(arch_key("llama"@, "feed_forward_length"@) =~= "llama.feed_forward_length"@);
    reveal_strlit("context_length");
    reveal_strlit("llama.context_length");
    assert(arch_key("llama"@, "context_length"@) =~= "llama.context_length"@);
    reveal_strlit("attention.layer_norm_rms_epsilon");
    reveal_strlit("llama.attention.layer_norm_rms_epsilon");
    assert(arch_key("llama"@, "attention.layer_norm_rms_epsilon"@) =~= "llama.attention.layer_norm_rms_epsilon"@);
    reveal_strlit("vocab_size");
    reveal_strlit("llama.vocab_size");
    assert(arch_key("llama"@, "vocab_size"@) =~= "llama.vocab_size"@);
    reveal_strlit("rope.freq_base");
    reveal_strlit("llama.rope.freq_base");
    assert(arch_key("llama"@, "rope.freq_base"@) =~= "llama.rope.freq_base"@);
}

/// The last entry with a key counts.
proof fn lemma_lookup(meta: Seq<EntryV>, key: Seq<char>, j: int, n: nat)
    requires
        0 <= j < n <= meta.len(),
        meta[j].key == key,
        forall|i: int| j < i < n ==> (#[trigger] meta[i]).key != key,
    ensures
        lookup(meta.take(n as int), key) == Some(meta[j].value),
    decreases n,
{
    let m = meta.take(n as int);
    assert(m.drop_last() =~= meta.take(n - 1));
    assert(m.last() == meta[n - 1]);
    if j < n - 1 {
        lemma_lookup(meta, key, j, (n - 1) as nat);
    }
}

/// A key that no entry has is not there.
proof fn lemma_no_lookup(meta: Seq<EntryV>, key: Seq<char>, n: nat)
    requires
        n <= meta.len(),
        forall|i: int| 0 <= i < n ==> (#[trigger] meta[i]).key != key,
    ensures
        lookup(meta.take(n as int), key) is None,
    decreases n,
{
    if n > 0 {
        let m = meta.take(n as int);
        assert(m.drop_last() =~= meta.take(n - 1));
        assert(m.last() == meta[n - 1]);
        lemma_no_lookup(meta, key, (n - 1) as nat);
    }
}

/// What the tiny model's metadata gives under the key of its entry `j`.
proof fn lemma_tiny_lookup(j: int)
    requires
        0 <= j < 18,
    ensures
        lookup(read_back_all(tiny_entries()), tiny_entries()[j].key) == Some(
            stored_value(tiny_entries()[j].value),
        ),
{
    let es = tiny_entries();
    let meta = read_back_all(es);
    lemma_places();
    let key = es[j].key;
    assert(meta[j] == read_back(es[j]));
    assert forall|i: int| j < i < 18 implies (#[trigger] meta[i]).key != key by {
        assert(meta[i] == read_back(es[i]));
        assert(place(es[i].key) == i && place(es[j].key) == j);
    }
    lemma_lookup(meta, key, j, 18);
    assert(meta.take(18) =~= meta);
}

/// A key with a place of its own that no entry has is not there.
proof fn lemma_tiny_absent(key: Seq<char>)
    requires
        place(key) >= 18,
    ensures
        lookup(read_back_all(tiny_entries()), key) is None,
{
    let es = tiny_entries();
    let meta = read_back_all(es);
    lemma_places();
    assert forall|i: int| 0 <= i < 18 implies (#[trigger] meta[i]).key != key by {
        assert(meta[i] == read_back(es[i]));
        assert(place(es[i].key) == i);
    }
    lemma_no_lookup(meta, key, 18);
    assert(meta.take(18) =~= meta);
}

/// What the tiny model's metadata says, whatever its tensors are.
proof fn lemma_tiny_meta(ts: Seq<TensorV>)
    ensures
        alignment_of(read_back_all(tiny_entries())) == 32,
        text_at(read_back_all(tiny_entries()), "general.architecture"@) == Some("llama"@),
        hyperparams_of(read_back_all(tiny_entries()), ts, "llama"@) == Ok::<HyperParams, Fault>(
            tiny_hp(),
        ),
{
    lemma_arch_keys();
    lemma_tiny_lookup(0);
    lemma_tiny_lookup(2);
    lemma_tiny_lookup(3);
    lemma_tiny_lookup(4);
    lemma_tiny_lookup(5);
    lemma_tiny_lookup(6);
    lemma_tiny_lookup(7);
    lemma_tiny_lookup(8);
    lemma_tiny_lookup(9);
    lemma_tiny_lookup(12);
    lemma_tiny_absent("llama.vocab_size"@);
    lemma_tiny_absent("llama.rope.freq_base"@);
    assert(vocab_tokens().len() == 260);
}

/// The tiny model's metadata is within the limits of the parser.
proof fn lemma_tiny_storable()
    ensures
        forall|i: int| 0 <= i < tiny_entries().len() ==> storable_entry(#[trigger] tiny_entries()[i]),
{
    let es = tiny_entries();
    lemma_places();
    reveal_strlit("llama");
    reveal_strlit("tiny-llama-test");
    reveal_strlit("gpt2");
    reveal_strlit("default");
    reveal_strlit("<|bos|>");
    reveal_strlit("<|eos|>");
    reveal_strlit("th");
    reveal_strlit("the");
    reveal_strlit("t h");
    reveal_strlit("th e");
    lemma_short("llama"@);
    lemma_short("tiny-llama-test"@);
    lemma_short("gpt2"@);
    lemma_short("default"@);
    let tokens = vocab_tokens();
    assert forall|i: int| 0 <= i < tokens.len() implies short_text(#[trigger] tokens[i]) by {
        lemma_short(tokens[i]);
    }
    let merges = vocab_merges();
    assert forall|i: int| 0 <= i < merges.len() implies short_text(#[trigger] merges[i]) by {
        lemma_short(merges[i]);
    }
    assert(tokens.len() == 260 && merges.len() == 2 && token_types().len() == 260);
    assert forall|i: int| 0 <= i < es.len() implies storable_entry(#[trigger] es[i]) by {
        lemma_short(es[i].key);
        assert(storable(es[i].value)) by {
            if i == 0 {
                } else if i == 1 {
                } else if i == 2 {
                } else if i == 3 {
                } else if i == 4 {
                } else if i == 5 {
                } else if i == 6 {
                } else if i == 7 {
                } else if i == 8 {
                } else if i == 9 {
                } else if i == 10 {
                } else if i == 11 {
                } else if i == 12 {
                } else if i == 13 {
                } else if i == 14 {
                } else if i == 15 {
                } else if i == 16 {
                } else if i == 17 {
                }
        }
    }
}

/// The names of the tiny model's tensors are short.
proof fn lemma_name_is_short(r: Role, param: Seq<char>)
    requires
        param == "weight"@ || param == "bias"@,
        r matches Role::Layer { idx, .. } ==> idx < 10,
    ensures
        short_text(gguf_role(r) + "."@ + param),
{
    reveal_strlit("attn_norm");
    reveal_strlit("attn_q_norm");
    reveal_strlit("attn_k_norm");
    reveal_strlit("attn_q");
    reveal_strlit("attn_k");
    reveal_strlit("attn_v");
    reveal_strlit("attn_output");
    reveal_strlit("ffn_norm");
    reveal_strlit("ffn_gate");
    reveal_strlit("ffn_up");
    reveal_strlit("ffn_down");
    reveal_strlit("token_embd");
    reveal_strlit("output_norm");
    reveal_strlit("output");
    reveal_strlit("blk.");
    reveal_strlit(".");
    reveal_strlit("weight");
    reveal_strlit("bias");
    if let Role::Layer { idx, part } = r {
        assert(dec(idx as nat).len() == 1);
        assert(gguf_stem(part).len() <= 11);
    }
    lemma_short(gguf_role(r) + "."@ + param);
}

/// What bias `i` is for.
pub open spec fn bias_role(i: int) -> Role {
    Role::Layer {
        idx: (i / 3) as u64,
        part: if i % 3 == 0 {
            LayerPart::QProj
        } else if i % 3 == 1 {
            LayerPart::KProj
        } else {
            LayerPart::VProj
        },
    }
}

/// Bias `i`: its name, its shape and its element type.
proof fn lemma_bias_at(i: int)
    requires
        0 <= i < 6,
    ensures
        biases(2).len() == 6,
        biases(2)[i].name == gguf_role(bias_role(i)) + "."@ + "bias"@,
        biases(2)[i].shape == seq![if i % 3 == 0 {
            64u64
        } else {
            32u64
        }],
        biases(2)[i].dtype is F32,
{
    reveal_with_fuel(biases, 3);
    reveal_strlit("attn_q");
    reveal_strlit("attn_k");
    reveal_strlit("attn_v");
    reveal_strlit("attn_q.bias");
    reveal_strlit("attn_k.bias");
    reveal_strlit("attn_v.bias");
    reveal_strlit(".");
    reveal_strlit("bias");
    assert("attn_q.bias"@ =~= "attn_q"@ + "."@ + "bias"@);
    assert("attn_k.bias"@ =~= "attn_k"@ + "."@ + "bias"@);
    assert("attn_v.bias"@ =~= "attn_v"@ + "."@ + "bias"@);
    let l = (i / 3) as nat;
    let g = "blk."@ + dec(l) + "."@;
    lemma_regroup(g, "attn_q"@, "."@, "bias"@);
    lemma_regroup(g, "attn_k"@, "."@, "bias"@);
    lemma_regroup(g, "attn_v"@, "."@, "bias"@);
    let all = biases(2);
    assert(all =~= layer_biases(0) + layer_biases(1));
    assert(all[i] == layer_biases(l)[i % 3]);
}

/// The tensors of both GGUF files are within the limits of the parser.
proof fn lemma_tensors_storable()
    ensures
        tiny_gguf_fixtures().len() == 20,
        biases(2).len() == 6,
        forall|k: int| 0 <= k < 20 ==> storable_tensor(#[trigger] tiny_gguf_fixtures()[k]),
        forall|i: int| 0 <= i < 6 ==> storable_tensor(#[trigger] biases(2)[i]),
{
    lemma_row_at(0);
    lemma_bias_at(0);
    assert forall|k: int| 0 <= k < 20 implies storable_tensor(#[trigger] tiny_gguf_fixtures()[k]) by {
        lemma_row_at(k);
        lemma_row_names(k);
        lemma_name_is_short(role_at(k), "weight"@);
    }
    assert forall|i: int| 0 <= i < 6 implies storable_tensor(#[trigger] biases(2)[i]) by {
        lemma_bias_at(i);
        lemma_name_is_short(bias_role(i), "bias"@);
        lemma_product1(64);
        lemma_product1(32);
    }
}

/// The place of a tensor does not depend on those behind it.
proof fn lemma_offset_of_more(a: Seq<FixtureV>, b: Seq<FixtureV>, k: nat)
    requires
        k <= a.len(),
    ensures
        offset_of(a + b, k) == offset_of(a, k),
    decreases k,
{
    if k > 0 {
        lemma_offset_of_more(a, b, (k - 1) as nat);
        assert((a + b)[k - 1] == a[k - 1]);
    }
}

/// What tensors behind the tiny model's metadata are parsed to.
proof fn lemma_parses(ts: Seq<FixtureV>)
    requires
        ts.len() <= 100,
        forall|i: int| 0 <= i < ts.len() ==> storable_tensor(#[trigger] ts[i]),
        offset_of(ts, ts.len()) <= u64::MAX,
    ensures
        ({
            let r = parsed(image(ts, entries_bytes(tiny_entries())));
            &&& r is Ok
            &&& r->Ok_0.hyperparams == tiny_hp()
            &&& r->Ok_0.tensors == all_renamed(tensors_read_back(ts))
        }),
{
    lemma_places();
    lemma_tiny_storable();
    law_image_parses_back(ts, tiny_entries());
    lemma_tiny_meta(tensors_read_back(ts));
    lemma_all_aligned(ts);
}

/// The tensors of both GGUF files have room.
proof fn lemma_rooms()
    ensures
        offset_of(tiny_gguf_fixtures(), 20) <= u64::MAX,
        offset_of(tiny_gguf_fixtures() + biases(2), 26) <= u64::MAX,
{
    let a = tiny_gguf_fixtures();
    let all = a + biases(2);
    lemma_row_at(0);
    lemma_bias_at(0);
    reveal_with_fuel(biases, 3);
    assert forall|k: int| 0 <= k < 26 implies (#[trigger] all[k]).data.len() <= 100_000 by {
        if k < 20 {
            lemma_row_at(k);
            let r = tiny_rows()[k];
            assert(all[k] == gguf_fixture(r, k));
            law_packed_len(r.dtype, gguf_weights(r, k));
        } else {
            let i = k - 20;
            lemma_bias_at(i);
            assert(all[k] == biases(2)[i]);
            let l = (i / 3) as nat;
            assert(biases(2) =~= layer_biases(0) + layer_biases(1));
            assert(biases(2)[i] == layer_biases(l)[i % 3]);
            assert(64nat / 1 * 4 == 256 && 32nat / 1 * 4 == 128);
            law_packed_len(DTypeV::F32, weights((0xB1A5 + l) as u64, 64));
            law_packed_len(DTypeV::F32, weights((0xB1A6 + l) as u64, 32));
            law_packed_len(DTypeV::F32, weights((0xB1A7 + l) as u64, 32));
        }
    }
    assert forall|k: int| 0 <= k < 20 implies (#[trigger] a[k]).data.len() <= 100_000 by {
        assert(all[k] == a[k]);
    }
    lemma_offset_bound(a, 20, 100_000);
    lemma_offset_bound(all, 26, 100_000);
}

/// The file with biases is the plain one with six more tensors: the hyperparameters are
/// the same, the first twenty tensors are those of the plain file, and behind them stand,
/// layer by layer, the biases of the query, key and value projections in single precision,
/// as long as what they are added to.
pub proof fn law_biases_are_added()
    ensures
        ({
            let plain = parsed(tiny_image());
            let biased = parsed(bias_image());
            &&& plain is Ok
            &&& biased is Ok
            &&& plain->Ok_0.hyperparams == tiny_hp()
            &&& biased->Ok_0.hyperparams == tiny_hp()
            &&& plain->Ok_0.tensors.len() == 20
            &&& biased->Ok_0.tensors.len() == 26
            &&& biased->Ok_0.tensors.take(20) == plain->Ok_0.tensors
            &&& forall|i: int|
                20 <= i < 26 ==> {
                    let t = #[trigger] biased->Ok_0.tensors[i];
                    &&& t.name == role_name(bias_role(i - 20), "bias"@)
                    &&& t.dtype is F32
                    &&& t.shape == seq![if (i - 20) % 3 == 0 {
                        64u64
                    } else {
                        32u64
                    }]
                }
        }),
{
    let a = tiny_gguf_fixtures();
    let b = biases(2);
    let all = a + b;
    lemma_tensors_storable();
    lemma_rooms();
    assert forall|i: int| 0 <= i < all.len() implies storable_tensor(#[trigger] all[i]) by {
        if i < 20 {
            assert(all[i] == a[i]);
        } else {
            assert(all[i] == b[i - 20]);
        }
    }
    lemma_parses(a);
    lemma_parses(all);
    let x = all_renamed(tensors_read_back(a));
    let y = all_renamed(tensors_read_back(all));
    assert forall|i: int| 0 <= i < 20 implies x[i] == #[trigger] y[i] by {
        lemma_offset_of_more(a, b, i as nat);
        assert(all[i] == a[i]);
    }
    assert(y.take(20) =~= x);
    assert forall|i: int| 20 <= i < 26 implies {
        let t = #[trigger] y[i];
        &&& t.name == role_name(bias_role(i - 20), "bias"@)
        &&& t.dtype is F32
        &&& t.shape == seq![if (i - 20) % 3 == 0 {
            64u64
        } else {
            32u64
        }]
    } by {
        lemma_bias_at(i - 20);
        law_role_names_agree(bias_role(i - 20), "bias"@);
        assert(all[i] == b[i - 20]);
    }
}

/// The dimensions of the tiny model's tensors.
proof fn lemma_row_shape(k: int)
    requires
        0 <= k < 20,
    ensures
        tiny_rows()[k].shape.len() <= 2,
        forall|i: int| 0 <= i < tiny_rows()[k].shape.len() ==> #[trigger] tiny_rows()[k].shape[i] < 1000,
{
    lemma_row_at(k);
    assert((64u64 / 2u64 * 1u64) as u64 == 32u64);
    if k >= 2 {
        let j = (k - 2) % 9;
        if j == 0 {
        } else if j == 1 {
        } else if j == 2 {
        } else if j == 3 {
        } else if j == 4 {
        } else if j == 5 {
        } else if j == 6 {
        } else if j == 7 {
        } else if j == 8 {
        }
    }
}

/// Tensor `k` of the safetensors file: its sizes.
pub proof fn lemma_hf_sizes(k: int)
    requires
        0 <= k < 20,
    ensures
        ({
            let ts = tiny_hf_fixtures();
            let t = ts[k];
            &&& ts.len() == 20
            &&& t.dtype is F32 || t.dtype is F16 || t.dtype is BF16
            &&& checked_product(t.shape) is Some
            &&& byte_len(t.dtype, checked_product(t.shape)->0) == Some(t.data.len())
            &&& t.data.len() <= 500_000
            &&& t.shape.len() <= 2
            &&& forall|i: int| 0 <= i < t.shape.len() ==> #[trigger] t.shape[i] < 1000
        }),
{
    lemma_row_at(k);
    lemma_row_shape(k);
    let r = tiny_rows()[k];
    let t = hf_fixture(r, k);
    assert(tiny_hf_fixtures()[k] == t);
    let n = checked_product(r.shape)->0;
    let e = effective(r, k);
    assert(e.len() == n);
    assert(n / 1 == n && n / 1 * 4 == 4 * n && n / 1 * 2 == 2 * n);
    law_packed_len(t.dtype, e);
}

/// Tensor `k` of the safetensors file: its names.
pub proof fn lemma_hf_names(k: int)
    requires
        0 <= k < 20,
    ensures
        ({
            let t = tiny_hf_fixtures()[k];
            &&& t.name.len() <= 100
            &&& t.name != "__metadata__"@
            &&& hf_name(t.name) == Some(role_name(role_at(k), "weight"@))
        }),
{
    lemma_row_at(k);
    lemma_row_names(k);
    law_role_names_agree(role_at(k), "weight"@);
    assert(tiny_hf_fixtures()[k] == hf_fixture(tiny_rows()[k], k));
    lemma_hf_name_len(role_at(k));
}

/// The HF names of the tiny model's tensors.
proof fn lemma_hf_name_len(r: Role)
    requires
        r matches Role::Layer { idx, .. } ==> idx < 10,
        !(r is Output),
    ensures
        (hf_role(r) + "."@ + "weight"@).len() <= 100,
        hf_role(r) + "."@ + "weight"@ != "__metadata__"@,
{
    reveal_strlit("input_layernorm");
    reveal_strlit("self_attn.q_norm");
    reveal_strlit("self_attn.k_norm");
    reveal_strlit("self_attn.q_proj");
    reveal_strlit("self_attn.k_proj");
    reveal_strlit("self_attn.v_proj");
    reveal_strlit("self_attn.o_proj");
    reveal_strlit("post_attention_layernorm");
    reveal_strlit("mlp.gate_proj");
    reveal_strlit("mlp.up_proj");
    reveal_strlit("mlp.down_proj");
    reveal_strlit("model.embed_tokens");
    reveal_strlit("model.norm");
    reveal_strlit("model.layers.");
    reveal_strlit(".");
    reveal_strlit("weight");
    reveal_strlit("__metadata__");
    let s = hf_role(r) + "."@ + "weight"@;
    if let Role::Layer { idx, part } = r {
        assert(dec(idx as nat).len() == 1);
        assert(hf_stem(part).len() <= 24);
    }
    assert(s[0] == 'm');
    assert("__metadata__"@[0] == '_');
}

} // verus!
