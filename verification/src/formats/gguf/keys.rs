//! What a model has from each key of its metadata, and from the bytes of its file.

use vstd::arithmetic::power2::is_pow2;
use vstd::prelude::*;
use vstd::utf8::{decode_utf8, valid_utf8};

use crate::bytes::{le_value, lemma_pow256_values};
use crate::float::single::single_of_double;
use crate::formats::desc::{ArchitectureV, ModelV, RopeStyle, TensorV, TokenizerV};
use crate::formats::error::Fault;
use crate::formats::gguf::value::{next_items, next_value, ValueV};
use crate::formats::gguf::{
    alignment_of, arch_key, described, first_misaligned, hyperparams_of, lookup, next_dims,
    next_entries, next_tensor, parsed, rows_of, text_at, EntryV,
};
use crate::formats::image::{
    entries_bytes, image, law_image_parses_back, offset_of, read_back_all, storable_entry,
    storable_tensor, FixtureV, Stored, StoredEntry,
};
use crate::formats::limits::{MAX_KV_PAIRS, MAX_TENSORS};
use crate::formats::names::gguf_name;
use crate::formats::read::{next_string, next_u32};

verus! {

/// Whether metadata holds `v` under `key`: where several entries have the key, the last.
pub open spec fn held(meta: Seq<EntryV>, key: Seq<char>, v: ValueV) -> bool {
    exists|j: int|
        0 <= j < meta.len() && #[trigger] meta[j] == (EntryV { key, value: v }) && forall|i: int|
            j < i < meta.len() ==> (#[trigger] meta[i]).key != key
}

/// Whether metadata holds nothing under `key`.
pub open spec fn unheld(meta: Seq<EntryV>, key: Seq<char>) -> bool {
    forall|i: int| 0 <= i < meta.len() ==> (#[trigger] meta[i]).key != key
}

/// Whether a value is the integer `n`, of whatever width.
pub open spec fn whole(v: ValueV, n: int) -> bool {
    ||| v matches ValueV::U8(x) && x == n
    ||| v matches ValueV::U16(x) && x == n
    ||| v matches ValueV::U32(x) && x == n
    ||| v matches ValueV::U64(x) && x == n
    ||| v matches ValueV::I8(x) && x == n
    ||| v matches ValueV::I16(x) && x == n
    ||| v matches ValueV::I32(x) && x == n
    ||| v matches ValueV::I64(x) && x == n
}

/// Whether metadata holds the integer `n` under `key`.
pub open spec fn counts(meta: Seq<EntryV>, key: Seq<char>, n: u64) -> bool {
    exists|v: ValueV| #[trigger] held(meta, key, v) && whole(v, n as int)
}

/// Whether metadata holds an integer that is not negative under `key`.
pub open spec fn counted(meta: Seq<EntryV>, key: Seq<char>) -> bool {
    exists|n: u64| counts(meta, key, n)
}

/// Whether `x` is the number that metadata holds under `key`, or `default` where it holds
/// none.
pub open spec fn measured(meta: Seq<EntryV>, key: Seq<char>, x: u32, default: u32) -> bool {
    ||| held(meta, key, ValueV::F32(x))
    ||| exists|y: u64| #[trigger] held(meta, key, ValueV::F64(y)) && x == single_of_double(y)
    ||| x == default && forall|v: ValueV| #[trigger]
        held(meta, key, v) ==> !(v is F32) && !(v is F64)
}

/// The entry that counts is the last of its key.
proof fn lemma_lookup(meta: Seq<EntryV>, key: Seq<char>)
    ensures
        match lookup(meta, key) {
            Some(v) => held(meta, key, v) && !unheld(meta, key),
            None => unheld(meta, key),
        },
    decreases meta.len(),
{
    if meta.len() > 0 {
        let w = meta.drop_last();
        lemma_lookup(w, key);
        if meta.last().key == key {
            let j = meta.len() - 1;
            assert(meta[j] == EntryV { key, value: meta.last().value });
        } else {
            if lookup(w, key) is Some {
                let v = lookup(w, key)->0;
                let j = choose|j: int|
                    0 <= j < w.len() && #[trigger] w[j] == (EntryV { key, value: v }) && forall|
                        i: int,
                    |
                        j < i < w.len() ==> (#[trigger] w[i]).key != key;
                assert(meta[j] == w[j]);
                assert forall|i: int| j < i < meta.len() implies (#[trigger] meta[i]).key != key by {
                    if i < w.len() {
                        assert(w[i].key != key);
                    }
                }
                assert(held(meta, key, v));
                assert(meta[j].key == key);
            } else {
                assert forall|i: int| 0 <= i < meta.len() implies (#[trigger] meta[i]).key != key by {
                    if i < w.len() {
                        assert(w[i].key != key);
                    }
                }
            }
        }
    }
}

/// Metadata holds at most one value under a key, and it is the one that is looked up.
proof fn lemma_held(meta: Seq<EntryV>, key: Seq<char>)
    ensures
        forall|v: ValueV| #[trigger] held(meta, key, v) <==> lookup(meta, key) == Some(v),
{
    lemma_lookup(meta, key);
    assert forall|v: ValueV| #[trigger] held(meta, key, v) implies lookup(meta, key) == Some(v) by {
        let j = choose|j: int|
            0 <= j < meta.len() && #[trigger] meta[j] == (EntryV { key, value: v }) && forall|
                i: int,
            |
                j < i < meta.len() ==> (#[trigger] meta[i]).key != key;
        assert(meta[j].key == key);
        assert(!unheld(meta, key));
        let w = lookup(meta, key)->0;
        let k = choose|k: int|
            0 <= k < meta.len() && #[trigger] meta[k] == (EntryV { key, value: w }) && forall|
                i: int,
            |
                k < i < meta.len() ==> (#[trigger] meta[i]).key != key;
        assert(meta[k].key == key);
        assert(j == k);
    }
}

/// An integer under a key, as it is looked up.
proof fn lemma_counts(meta: Seq<EntryV>, key: Seq<char>)
    ensures
        match crate::formats::gguf::required_u64(meta, key) {
            Ok(n) => counts(meta, key, n) && counted(meta, key),
            Err(e) => !counted(meta, key) && e == Fault::MissingKey(key),
        },
        forall|n: u64| #[trigger]
            counts(meta, key, n) ==> crate::formats::gguf::required_u64(meta, key) == Ok::<u64, Fault>(n),
{
    lemma_held(meta, key);
    match lookup(meta, key) {
        Some(v) => {
            assert(held(meta, key, v));
            match crate::formats::gguf::required_u64(meta, key) {
                Ok(n) => {
                    assert(whole(v, n as int));
                    assert(counts(meta, key, n));
                },
                Err(_) => {},
            }
        },
        None => {},
    }
}

/// A number under a key, as it is looked up.
proof fn lemma_measured(meta: Seq<EntryV>, key: Seq<char>, default: u32)
    ensures
        measured(meta, key, crate::formats::gguf::f32_or(meta, key, default), default),
{
    lemma_held(meta, key);
    if lookup(meta, key) is Some {
        assert(held(meta, key, lookup(meta, key)->0));
    }
}

/// The keys of an architecture, as they are written.
proof fn lemma_keys(arch: Seq<char>)
    ensures
        arch_key(arch, "attention.head_count"@) == arch + ".attention.head_count"@,
        arch_key(arch, "attention.head_count_kv"@) == arch + ".attention.head_count_kv"@,
        arch_key(arch, "vocab_size"@) == arch + ".vocab_size"@,
        arch_key(arch, "embedding_length"@) == arch + ".embedding_length"@,
        arch_key(arch, "block_count"@) == arch + ".block_count"@,
        arch_key(arch, "feed_forward_length"@) == arch + ".feed_forward_length"@,
        arch_key(arch, "context_length"@) == arch + ".context_length"@,
        arch_key(arch, "rope.freq_base"@) == arch + ".rope.freq_base"@,
        arch_key(arch, "attention.layer_norm_rms_epsilon"@) == arch
            + ".attention.layer_norm_rms_epsilon"@,
{
    reveal_strlit(".");
    reveal_strlit("attention.head_count");
    reveal_strlit(".attention.head_count");
    reveal_strlit("attention.head_count_kv");
    reveal_strlit(".attention.head_count_kv");
    reveal_strlit("vocab_size");
    reveal_strlit(".vocab_size");
    reveal_strlit("embedding_length");
    reveal_strlit(".embedding_length");
    reveal_strlit("block_count");
    reveal_strlit(".block_count");
    reveal_strlit("feed_forward_length");
    reveal_strlit(".feed_forward_length");
    reveal_strlit("context_length");
    reveal_strlit(".context_length");
    reveal_strlit("rope.freq_base");
    reveal_strlit(".rope.freq_base");
    reveal_strlit("attention.layer_norm_rms_epsilon");
    reveal_strlit(".attention.layer_norm_rms_epsilon");
    assert(arch_key(arch, "attention.head_count"@) =~= arch + ".attention.head_count"@);
    assert(arch_key(arch, "attention.head_count_kv"@) =~= arch + ".attention.head_count_kv"@);
    assert(arch_key(arch, "vocab_size"@) =~= arch + ".vocab_size"@);
    assert(arch_key(arch, "embedding_length"@) =~= arch + ".embedding_length"@);
    assert(arch_key(arch, "block_count"@) =~= arch + ".block_count"@);
    assert(arch_key(arch, "feed_forward_length"@) =~= arch + ".feed_forward_length"@);
    assert(arch_key(arch, "context_length"@) =~= arch + ".context_length"@);
    assert(arch_key(arch, "rope.freq_base"@) =~= arch + ".rope.freq_base"@);
    assert(arch_key(arch, "attention.layer_norm_rms_epsilon"@) =~= arch
        + ".attention.layer_norm_rms_epsilon"@);
}

/// Every hyperparameter is what the metadata holds under its key. What it need not hold: as
/// many key heads as query heads, a base of ten thousand, an epsilon of a
/// hundred-thousandth, and no known context stand for it.
pub proof fn law_hyperparameters_by_key(
    meta: Seq<EntryV>,
    ts: Seq<TensorV>,
    pos: int,
    arch: Seq<char>,
)
    requires
        held(meta, "general.architecture"@, ValueV::String(arch)),
        described(meta, ts, pos) is Ok,
    ensures
        ({
            let hp = described(meta, ts, pos)->Ok_0.hyperparams;
            &&& counts(meta, arch + ".attention.head_count"@, hp.n_heads)
            &&& counts(meta, arch + ".embedding_length"@, hp.hidden_size)
            &&& counts(meta, arch + ".block_count"@, hp.n_layers)
            &&& counts(meta, arch + ".feed_forward_length"@, hp.ffn_hidden_size)
            &&& counted(meta, arch + ".attention.head_count_kv"@) ==> counts(
                meta,
                arch + ".attention.head_count_kv"@,
                hp.n_kv_heads,
            )
            &&& !counted(meta, arch + ".attention.head_count_kv"@) ==> hp.n_kv_heads == hp.n_heads
            &&& counted(meta, arch + ".context_length"@) ==> counts(
                meta,
                arch + ".context_length"@,
                hp.context_length,
            )
            &&& !counted(meta, arch + ".context_length"@) ==> hp.context_length == 0
            &&& measured(meta, arch + ".rope.freq_base"@, hp.rope_theta, 0x461C_4000)
            &&& measured(
                meta,
                arch + ".attention.layer_norm_rms_epsilon"@,
                hp.norm_eps,
                0x3727_C5AC,
            )
            &&& hp.rope_style == RopeStyle::Interleaved
        }),
{
    lemma_keys(arch);
    lemma_held(meta, "general.architecture"@);
    lemma_counts(meta, arch + ".attention.head_count"@);
    lemma_counts(meta, arch + ".embedding_length"@);
    lemma_counts(meta, arch + ".block_count"@);
    lemma_counts(meta, arch + ".feed_forward_length"@);
    lemma_counts(meta, arch + ".attention.head_count_kv"@);
    lemma_counts(meta, arch + ".context_length"@);
    lemma_measured(meta, arch + ".rope.freq_base"@, 0x461C_4000);
    lemma_measured(meta, arch + ".attention.layer_norm_rms_epsilon"@, 0x3727_C5AC);
}

/// The base of rotary embedding is the number that the metadata holds for it.
pub proof fn law_rope_base_is_kept(
    meta: Seq<EntryV>,
    ts: Seq<TensorV>,
    pos: int,
    arch: Seq<char>,
    x: u32,
)
    requires
        held(meta, "general.architecture"@, ValueV::String(arch)),
        held(meta, arch + ".rope.freq_base"@, ValueV::F32(x)),
        described(meta, ts, pos) is Ok,
    ensures
        described(meta, ts, pos)->Ok_0.hyperparams.rope_theta == x,
{
    law_hyperparameters_by_key(meta, ts, pos, arch);
    lemma_held(meta, arch + ".rope.freq_base"@);
}

/// The epsilon of the norms is the number that the metadata holds for it.
pub proof fn law_epsilon_is_kept(
    meta: Seq<EntryV>,
    ts: Seq<TensorV>,
    pos: int,
    arch: Seq<char>,
    x: u32,
)
    requires
        held(meta, "general.architecture"@, ValueV::String(arch)),
        held(meta, arch + ".attention.layer_norm_rms_epsilon"@, ValueV::F32(x)),
        described(meta, ts, pos) is Ok,
    ensures
        described(meta, ts, pos)->Ok_0.hyperparams.norm_eps == x,
{
    law_hyperparameters_by_key(meta, ts, pos, arch);
    lemma_held(meta, arch + ".attention.layer_norm_rms_epsilon"@);
}

/// The size of the vocabulary is what the metadata holds for it, else the number of tokens
/// that it lists, else the rows of the first tensor that embeds tokens.
pub proof fn law_vocabulary_size(meta: Seq<EntryV>, ts: Seq<TensorV>, pos: int, arch: Seq<char>)
    requires
        held(meta, "general.architecture"@, ValueV::String(arch)),
        described(meta, ts, pos) is Ok,
    ensures
        ({
            let n = described(meta, ts, pos)->Ok_0.hyperparams.vocab_size;
            &&& counted(meta, arch + ".vocab_size"@) ==> counts(meta, arch + ".vocab_size"@, n)
            &&& forall|tokens: Seq<ValueV>|
                !counted(meta, arch + ".vocab_size"@) && #[trigger] held(
                    meta,
                    "tokenizer.ggml.tokens"@,
                    ValueV::Array(tokens),
                ) && tokens.len() <= u64::MAX ==> n == tokens.len()
            &&& !counted(meta, arch + ".vocab_size"@) && (forall|v: ValueV| #[trigger]
                held(meta, "tokenizer.ggml.tokens"@, v) ==> !(v is Array)) ==> exists|i: int|
                0 <= i < ts.len() && (#[trigger] ts[i]).name == "token_embd.weight"@
                    && ts[i].shape.len() > 0 && ts[i].shape[0] == n && forall|j: int|
                    0 <= j < i ==> (#[trigger] ts[j]).name != "token_embd.weight"@
        }),
{
    lemma_keys(arch);
    lemma_held(meta, "general.architecture"@);
    lemma_held(meta, "tokenizer.ggml.tokens"@);
    lemma_counts(meta, arch + ".vocab_size"@);
    lemma_rows(ts, "token_embd.weight"@);
    if lookup(meta, "tokenizer.ggml.tokens"@) is Some {
        assert(held(meta, "tokenizer.ggml.tokens"@, lookup(meta, "tokenizer.ggml.tokens"@)->0));
    }
}

/// The rows of the first tensor of a name.
proof fn lemma_rows(ts: Seq<TensorV>, name: Seq<char>)
    ensures
        rows_of(ts, name) matches Some(n) ==> exists|i: int|
            0 <= i < ts.len() && (#[trigger] ts[i]).name == name && ts[i].shape.len() > 0
                && ts[i].shape[0] == n && forall|j: int|
                0 <= j < i ==> (#[trigger] ts[j]).name != name,
    decreases ts.len(),
{
    if ts.len() > 0 && ts[0].name != name {
        let w = ts.skip(1);
        lemma_rows(w, name);
        if rows_of(ts, name) is Some {
            let n = rows_of(ts, name)->0;
            let i = choose|i: int|
                0 <= i < w.len() && (#[trigger] w[i]).name == name && w[i].shape.len() > 0
                    && w[i].shape[0] == n && forall|j: int|
                    0 <= j < i ==> (#[trigger] w[j]).name != name;
            assert(ts[i + 1] == w[i]);
            assert forall|j: int| 0 <= j < i + 1 implies (#[trigger] ts[j]).name != name by {
                if j > 0 {
                    assert(w[j - 1].name != name);
                }
            }
        }
    } else if ts.len() > 0 {
        assert(ts[0].name == name);
    }
}

/// What else a model has from its metadata: its architecture and its name, whether it brings
/// its tokens along, and where its data begins, the first place behind the header that the
/// alignment allows.
pub proof fn law_description_by_key(meta: Seq<EntryV>, ts: Seq<TensorV>, pos: int)
    requires
        described(meta, ts, pos) is Ok,
        0 <= pos <= 0x7FFF_FFFF_FFFF_FFFF,
    ensures
        ({
            let m = described(meta, ts, pos)->Ok_0;
            let a = alignment_of(meta);
            &&& match m.architecture {
                ArchitectureV::Llama => held(
                    meta,
                    "general.architecture"@,
                    ValueV::String("llama"@),
                ),
                ArchitectureV::Qwen2 => held(
                    meta,
                    "general.architecture"@,
                    ValueV::String("qwen2"@),
                ),
                ArchitectureV::Qwen3 => held(
                    meta,
                    "general.architecture"@,
                    ValueV::String("qwen3"@),
                ),
                ArchitectureV::Mistral => held(
                    meta,
                    "general.architecture"@,
                    ValueV::String("mistral"@),
                ),
                ArchitectureV::Unknown(id) => held(
                    meta,
                    "general.architecture"@,
                    ValueV::String(id),
                ) && id != "llama"@ && id != "qwen2"@ && id != "qwen3"@ && id != "mistral"@,
            }
            &&& m.name matches Some(s) ==> held(meta, "general.name"@, ValueV::String(s))
            &&& m.name is None ==> forall|v: ValueV| #[trigger]
                held(meta, "general.name"@, v) ==> !(v is String)
            &&& m.tokenizer == Some(TokenizerV::Embedded) <==> exists|t: Seq<ValueV>|
                held(meta, "tokenizer.ggml.tokens"@, ValueV::Array(t))
            &&& m.tokenizer != Some(TokenizerV::Embedded) ==> m.tokenizer is None
            &&& m.weight_files.len() == 0
            &&& counted(meta, "general.alignment"@) ==> counts(meta, "general.alignment"@, a)
            &&& !counted(meta, "general.alignment"@) ==> a == 32
            &&& is_pow2(a as int)
            &&& m.data_section_offsets.len() == 1
            &&& m.data_section_offsets[0] % a == 0
            &&& pos <= m.data_section_offsets[0] < pos + a
        }),
{
    let a = alignment_of(meta);
    lemma_held(meta, "general.architecture"@);
    lemma_held(meta, "general.name"@);
    lemma_held(meta, "tokenizer.ggml.tokens"@);
    lemma_counts(meta, "general.alignment"@);
    if lookup(meta, "general.name"@) is Some {
        assert(held(meta, "general.name"@, lookup(meta, "general.name"@)->0));
    }
    let arch = text_at(meta, "general.architecture"@)->0;
    assert(held(meta, "general.architecture"@, ValueV::String(arch)));
    let m = described(meta, ts, pos)->Ok_0;
    if m.tokenizer == Some(TokenizerV::Embedded) {
        let t = lookup(meta, "tokenizer.ggml.tokens"@)->0->Array_0;
        assert(held(meta, "tokenizer.ggml.tokens"@, ValueV::Array(t)));
    }
    reveal(is_pow2);
    assert(a > 0);
    crate::formats::gguf::lemma_pow2_u64(a);
    let x = pos + a - 1;
    let q = x / (a as int);
    vstd::arithmetic::div_mod::lemma_fundamental_div_mod(x, a as int);
    vstd::arithmetic::mul::lemma_mul_is_commutative(q, a as int);
    vstd::arithmetic::div_mod::lemma_mod_multiples_basic(q, a as int);
}

/// Every tensor of a model is the tensor of the file at the same place, under its canonical
/// name where it has one.
pub proof fn law_tensors_keep_their_places(meta: Seq<EntryV>, ts: Seq<TensorV>, pos: int)
    requires
        described(meta, ts, pos) is Ok,
    ensures
        ({
            let m = described(meta, ts, pos)->Ok_0;
            &&& m.tensors.len() == ts.len()
            &&& forall|i: int|
                0 <= i < ts.len() ==> (#[trigger] m.tensors[i]).shape == ts[i].shape
                    && m.tensors[i].dtype == ts[i].dtype && m.tensors[i].data_offset
                    == ts[i].data_offset && m.tensors[i].data_len == ts[i].data_len
                    && m.tensors[i].file_index == ts[i].file_index && match gguf_name(ts[i].name) {
                    Some(n) => m.tensors[i].name == n,
                    None => m.tensors[i].name == ts[i].name,
                }
        }),
{
}

/// Which metadata describes a model, and which key is missing where it describes none.
pub proof fn law_missing_keys(meta: Seq<EntryV>, ts: Seq<TensorV>, pos: int)
    requires
        is_pow2(alignment_of(meta) as int),
        forall|i: int| 0 <= i < ts.len() ==> (#[trigger] ts[i]).data_offset % alignment_of(meta) == 0,
    ensures
        (forall|arch: Seq<char>|
            !#[trigger] held(meta, "general.architecture"@, ValueV::String(arch))) ==> described(
            meta,
            ts,
            pos,
        ) == Err::<ModelV, Fault>(Fault::MissingKey("general.architecture"@)),
        forall|arch: Seq<char>| #[trigger]
            held(meta, "general.architecture"@, ValueV::String(arch)) ==> ({
                let d = described(meta, ts, pos);
                if !counted(meta, arch + ".attention.head_count"@) {
                    d == Err::<ModelV, Fault>(Fault::MissingKey(arch + ".attention.head_count"@))
                } else if !counted(meta, arch + ".vocab_size"@) && (forall|v: ValueV| #[trigger]
                    held(meta, "tokenizer.ggml.tokens"@, v) ==> !(v is Array)) && (forall|i: int|
                    0 <= i < ts.len() ==> (#[trigger] ts[i]).name != "token_embd.weight"@) {
                    d == Err::<ModelV, Fault>(Fault::MissingKey(arch + ".vocab_size"@))
                } else if (forall|i: int|
                    0 <= i < ts.len() ==> (#[trigger] ts[i]).shape.len() > 0) {
                    if !counted(meta, arch + ".embedding_length"@) {
                        d == Err::<ModelV, Fault>(Fault::MissingKey(arch + ".embedding_length"@))
                    } else if !counted(meta, arch + ".block_count"@) {
                        d == Err::<ModelV, Fault>(Fault::MissingKey(arch + ".block_count"@))
                    } else if !counted(meta, arch + ".feed_forward_length"@) {
                        d == Err::<ModelV, Fault>(Fault::MissingKey(arch + ".feed_forward_length"@))
                    } else {
                        d is Ok
                    }
                } else {
                    true
                }
            }),
{
    lemma_aligned(ts, alignment_of(meta));
    lemma_held(meta, "general.architecture"@);
    lemma_held(meta, "tokenizer.ggml.tokens"@);
    assert(text_at(meta, "general.architecture"@) matches Some(arch) ==> held(
        meta,
        "general.architecture"@,
        ValueV::String(arch),
    ));
    assert forall|arch: Seq<char>| #[trigger]
        held(meta, "general.architecture"@, ValueV::String(arch)) implies ({
        let d = described(meta, ts, pos);
        if !counted(meta, arch + ".attention.head_count"@) {
            d == Err::<ModelV, Fault>(Fault::MissingKey(arch + ".attention.head_count"@))
        } else if !counted(meta, arch + ".vocab_size"@) && (forall|v: ValueV| #[trigger]
            held(meta, "tokenizer.ggml.tokens"@, v) ==> !(v is Array)) && (forall|i: int|
            0 <= i < ts.len() ==> (#[trigger] ts[i]).name != "token_embd.weight"@) {
            d == Err::<ModelV, Fault>(Fault::MissingKey(arch + ".vocab_size"@))
        } else if (forall|i: int| 0 <= i < ts.len() ==> (#[trigger] ts[i]).shape.len() > 0) {
            if !counted(meta, arch + ".embedding_length"@) {
                d == Err::<ModelV, Fault>(Fault::MissingKey(arch + ".embedding_length"@))
            } else if !counted(meta, arch + ".block_count"@) {
                d == Err::<ModelV, Fault>(Fault::MissingKey(arch + ".block_count"@))
            } else if !counted(meta, arch + ".feed_forward_length"@) {
                d == Err::<ModelV, Fault>(Fault::MissingKey(arch + ".feed_forward_length"@))
            } else {
                d is Ok
            }
        } else {
            true
        }
    }) by {
        lemma_keys(arch);
        lemma_counts(meta, arch + ".attention.head_count"@);
        lemma_counts(meta, arch + ".vocab_size"@);
        lemma_counts(meta, arch + ".embedding_length"@);
        lemma_counts(meta, arch + ".block_count"@);
        lemma_counts(meta, arch + ".feed_forward_length"@);
        lemma_rows(ts, "token_embd.weight"@);
        lemma_rows_there(ts, "token_embd.weight"@);
        if lookup(meta, "tokenizer.ggml.tokens"@) is Some {
            assert(held(
                meta,
                "tokenizer.ggml.tokens"@,
                lookup(meta, "tokenizer.ggml.tokens"@)->0,
            ));
        }
        assert(described(meta, ts, pos) is Ok == hyperparams_of(meta, ts, arch) is Ok);
    }
}

/// A tensor of a name with dimensions has rows.
proof fn lemma_rows_there(ts: Seq<TensorV>, name: Seq<char>)
    ensures
        (exists|i: int| 0 <= i < ts.len() && (#[trigger] ts[i]).name == name) && (forall|i: int|
            0 <= i < ts.len() ==> (#[trigger] ts[i]).shape.len() > 0) ==> rows_of(ts, name) is Some,
    decreases ts.len(),
{
    if ts.len() > 0 && ts[0].name != name {
        let w = ts.skip(1);
        lemma_rows_there(w, name);
        if (exists|i: int| 0 <= i < ts.len() && (#[trigger] ts[i]).name == name) && (forall|i: int|
            0 <= i < ts.len() ==> (#[trigger] ts[i]).shape.len() > 0) {
            let i = choose|i: int| 0 <= i < ts.len() && (#[trigger] ts[i]).name == name;
            assert(w[i - 1] == ts[i]);
            assert forall|j: int| 0 <= j < w.len() implies (#[trigger] w[j]).shape.len() > 0 by {
                assert(w[j] == ts[j + 1]);
            }
        }
    }
}

/// Offsets that are multiples are aligned.
proof fn lemma_aligned(ts: Seq<TensorV>, a: u64)
    requires
        forall|i: int| 0 <= i < ts.len() ==> (#[trigger] ts[i]).data_offset % a == 0,
    ensures
        first_misaligned(ts, a) is None,
    decreases ts.len(),
{
    if ts.len() > 0 {
        let w = ts.drop_last();
        assert forall|i: int| 0 <= i < w.len() implies (#[trigger] w[i]).data_offset % a == 0 by {
            assert(w[i] == ts[i]);
        }
        lemma_aligned(w, a);
        assert(ts[ts.len() - 1].data_offset % a == 0);
    }
}

/// The hyperparameters of an image, from the entries that it was made of: the last under
/// each key.
pub proof fn law_image_keeps_numbers(
    ts: Seq<FixtureV>,
    es: Seq<StoredEntry>,
    arch: Seq<char>,
    i: int,
    j: int,
    x: u32,
)
    requires
        ts.len() <= MAX_TENSORS,
        es.len() <= MAX_KV_PAIRS,
        forall|i: int| 0 <= i < ts.len() ==> storable_tensor(#[trigger] ts[i]),
        forall|i: int| 0 <= i < es.len() ==> storable_entry(#[trigger] es[i]),
        offset_of(ts, ts.len()) <= u64::MAX,
        parsed(image(ts, entries_bytes(es))) is Ok,
        0 <= i < es.len(),
        es[i] == (StoredEntry { key: "general.architecture"@, value: Stored::Text(arch) }),
        forall|k: int| i < k < es.len() ==> (#[trigger] es[k]).key != es[i].key,
        0 <= j < es.len(),
        forall|k: int| j < k < es.len() ==> (#[trigger] es[k]).key != es[j].key,
    ensures
        ({
            let hp = parsed(image(ts, entries_bytes(es)))->Ok_0.hyperparams;
            let key = es[j].key;
            &&& es[j].value == Stored::F32(x) ==> {
                &&& key == arch + ".rope.freq_base"@ ==> hp.rope_theta == x
                &&& key == arch + ".attention.layer_norm_rms_epsilon"@ ==> hp.norm_eps == x
            }
            &&& es[j].value == Stored::U32(x) ==> {
                &&& key == arch + ".attention.head_count"@ ==> hp.n_heads == x
                &&& key == arch + ".attention.head_count_kv"@ ==> hp.n_kv_heads == x
                &&& key == arch + ".vocab_size"@ ==> hp.vocab_size == x
                &&& key == arch + ".embedding_length"@ ==> hp.hidden_size == x
                &&& key == arch + ".block_count"@ ==> hp.n_layers == x
                &&& key == arch + ".feed_forward_length"@ ==> hp.ffn_hidden_size == x
                &&& key == arch + ".context_length"@ ==> hp.context_length == x
            }
        }),
{
    law_image_parses_back(ts, es);
    let meta = read_back_all(es);
    let kts = crate::formats::image::tensors_read_back(ts);
    let pos = crate::formats::image::header_bytes(ts, entries_bytes(es)).len() as int;
    assert(meta[i] == EntryV { key: "general.architecture"@, value: ValueV::String(arch) });
    assert forall|k: int| i < k < meta.len() implies (#[trigger] meta[k]).key
        != "general.architecture"@ by {
        assert(es[k].key != es[i].key);
    }
    assert(held(meta, "general.architecture"@, ValueV::String(arch)));
    let key = es[j].key;
    let v = meta[j].value;
    assert forall|k: int| j < k < meta.len() implies (#[trigger] meta[k]).key != key by {
        assert(es[k].key != es[j].key);
    }
    assert(meta[j] == EntryV { key, value: v });
    assert(held(meta, key, v));
    if es[j].value == Stored::F32(x) {
        assert(v == ValueV::F32(x));
        if key == arch + ".rope.freq_base"@ {
            law_rope_base_is_kept(meta, kts, pos, arch, x);
        }
        if key == arch + ".attention.layer_norm_rms_epsilon"@ {
            law_epsilon_is_kept(meta, kts, pos, arch, x);
        }
    }
    if es[j].value == Stored::U32(x) {
        assert(v == ValueV::U32(x));
        assert(whole(v, x as int));
        assert(counts(meta, key, x as u64));
        assert(counted(meta, key));
        lemma_counts(meta, key);
        law_hyperparameters_by_key(meta, kts, pos, arch);
        law_vocabulary_size(meta, kts, pos, arch);
    }
}

/// A byte, two, four and eight bytes from `p` on, least significant first.
pub open spec fn u16_at(data: Seq<u8>, p: int) -> int {
    data[p] + 0x100 * data[p + 1]
}

/// See [`u16_at`].
pub open spec fn u32_at(data: Seq<u8>, p: int) -> int {
    u16_at(data, p) + 0x1_0000 * u16_at(data, p + 2)
}

/// See [`u16_at`].
pub open spec fn u64_at(data: Seq<u8>, p: int) -> int {
    u32_at(data, p) + 0x1_0000_0000 * u32_at(data, p + 4)
}

/// A number in two's complement.
pub open spec fn minus(v: int, all: int) -> int {
    if 2 * v < all {
        v
    } else {
        v - all
    }
}

/// Bytes from `p` on, as they are read.
proof fn lemma_at(data: Seq<u8>, p: int)
    requires
        0 <= p,
    ensures
        p + 1 <= data.len() ==> le_value(data.subrange(p, p + 1)) == data[p],
        p + 2 <= data.len() ==> le_value(data.subrange(p, p + 2)) == u16_at(data, p),
        p + 4 <= data.len() ==> le_value(data.subrange(p, p + 4)) == u32_at(data, p),
        p + 8 <= data.len() ==> le_value(data.subrange(p, p + 8)) == u64_at(data, p),
        p + 8 <= data.len() ==> 0 <= u64_at(data, p) <= u64::MAX,
        p + 4 <= data.len() ==> 0 <= u32_at(data, p) <= u32::MAX,
{
    lemma_pow256_values();
    lemma_le_step(data, p, 1);
    lemma_le_step(data, p, 2);
    lemma_le_step(data, p + 1, 1);
    lemma_le_step(data, p, 4);
    lemma_le_step(data, p + 1, 3);
    lemma_le_step(data, p + 2, 2);
    lemma_le_step(data, p + 3, 1);
    lemma_le_step(data, p, 8);
    lemma_le_step(data, p + 1, 7);
    lemma_le_step(data, p + 2, 6);
    lemma_le_step(data, p + 3, 5);
    lemma_le_step(data, p + 4, 4);
    lemma_le_step(data, p + 5, 3);
    lemma_le_step(data, p + 6, 2);
    lemma_le_step(data, p + 7, 1);
}

proof fn lemma_le_step(data: Seq<u8>, p: int, n: int)
    requires
        0 <= p,
        0 < n,
    ensures
        p + n <= data.len() ==> le_value(data.subrange(p, p + n)) == data[p] + 256 * le_value(
            data.subrange(p + 1, p + n),
        ),
        p + 1 <= data.len() ==> le_value(data.subrange(p + 1, p + 1)) == 0,
{
    if p + n <= data.len() {
        let s = data.subrange(p, p + n);
        assert(s.skip(1) =~= data.subrange(p + 1, p + n));
    }
}

/// What a metadata value of a plain type is, from its bytes and its type's number.
pub proof fn law_values_by_type(data: Seq<u8>, p: int, id: u32)
    requires
        0 <= p,
        next_value(data, p, id, 0) is Ok,
    ensures
        ({
            let (v, q) = next_value(data, p, id, 0)->Ok_0;
            &&& id == 0 ==> q == p + 1 && v is U8 && v->U8_0 == data[p]
            &&& id == 1 ==> q == p + 1 && v is I8 && v->I8_0 == minus(data[p] as int, 0x100)
            &&& id == 2 ==> q == p + 2 && v is U16 && v->U16_0 == u16_at(data, p)
            &&& id == 3 ==> q == p + 2 && v is I16 && v->I16_0 == minus(u16_at(data, p), 0x1_0000)
            &&& id == 4 ==> q == p + 4 && v is U32 && v->U32_0 == u32_at(data, p)
            &&& id == 5 ==> q == p + 4 && v is I32 && v->I32_0 == minus(
                u32_at(data, p),
                0x1_0000_0000,
            )
            &&& id == 6 ==> q == p + 4 && v is F32 && v->F32_0 == u32_at(data, p)
            &&& id == 7 ==> q == p + 1 && v is Bool && data[p] == (if v->Bool_0 {
                1u8
            } else {
                0u8
            })
            &&& id == 8 ==> q == p + 8 + u64_at(data, p) && v is String && v->String_0
                == decode_utf8(data.subrange(p + 8, q)) && valid_utf8(data.subrange(p + 8, q))
            &&& id == 9 ==> v is Array && v->Array_0.len() == u64_at(data, p + 4)
            &&& id == 10 ==> q == p + 8 && v is U64 && v->U64_0 == u64_at(data, p)
            &&& id == 11 ==> q == p + 8 && v is I64 && v->I64_0 == minus(
                u64_at(data, p),
                0x1_0000_0000_0000_0000,
            )
            &&& id == 12 ==> q == p + 8 && v is F64 && v->F64_0 == u64_at(data, p)
            &&& id <= 12
        }),
{
    lemma_at(data, p);
    lemma_at(data, p + 4);
    if id == 9 {
        let elem = next_u32(data, p)->Ok_0.0;
        let count = crate::formats::read::next_u64(data, p + 4)->Ok_0.0;
        lemma_items_len(data, p + 12, elem, 1, count as nat);
    }
}

proof fn lemma_items_len(data: Seq<u8>, p: int, id: u32, depth: nat, n: nat)
    ensures
        next_items(data, p, id, depth, n) matches Ok((s, _))
            ==> s.len() == n,
    decreases n,
{
    if n > 0 {
        lemma_items_len(data, p, id, depth, (n - 1) as nat);
    }
}

/// Dimensions, as they stand in the file.
proof fn lemma_dims_at(data: Seq<u8>, p: int, n: nat)
    requires
        0 <= p,
    ensures
        next_dims(data, p, n) matches Ok((d, q)) ==> d.len() == n && q == p + 8 * n && (n > 0 ==> q
            <= data.len()) && forall|i: int| 0 <= i < n ==> #[trigger] d[i] == u64_at(data, p + 8 * i),
    decreases n,
{
    if n > 0 {
        lemma_dims_at(data, p, (n - 1) as nat);
        lemma_at(data, p + 8 * (n - 1));
    }
}

/// What a tensor is, from its bytes: its name, then its rank, its dimensions from the last
/// to the first, its type's number, and its offset.
pub proof fn law_tensor_info_by_place(data: Seq<u8>, p: int)
    requires
        0 <= p,
        next_tensor(data, p) is Ok,
    ensures
        ({
            let (t, q) = next_tensor(data, p)->Ok_0;
            let a = p + 8 + u64_at(data, p);
            let n = u32_at(data, a);
            let b = a + 4 + 8 * n;
            let id = u32_at(data, b);
            &&& t.name == decode_utf8(data.subrange(p + 8, a))
            &&& t.shape.len() == n
            &&& forall|i: int|
                0 <= i < n ==> #[trigger] t.shape[i] == u64_at(data, a + 4 + 8 * (n - 1 - i))
            &&& t.dtype is F32 <==> id == 0
            &&& t.dtype is F16 <==> id == 1
            &&& t.dtype is Q8_0 <==> id == 8
            &&& t.dtype is Q4_K <==> id == 12
            &&& t.dtype is BF16 <==> id == 30
            &&& t.data_offset == u64_at(data, b + 4)
            &&& t.file_index == 0
            &&& q == b + 12
        }),
{
    lemma_at(data, p);
    let a = p + 8 + u64_at(data, p);
    lemma_at(data, a);
    let n = u32_at(data, a);
    lemma_dims_at(data, a + 4, n as nat);
    let b = a + 4 + 8 * n;
    lemma_at(data, b);
    lemma_at(data, b + 4);
    let t = next_tensor(data, p)->Ok_0.0;
    let dims = next_dims(data, a + 4, n as nat)->Ok_0.0;
    assert forall|i: int| 0 <= i < n implies #[trigger] t.shape[i] == u64_at(
        data,
        a + 4 + 8 * (n - 1 - i),
    ) by {
        assert(t.shape[i] == dims[n - 1 - i]);
    }
}

/// What a file must start with: four letters, a version of two or three, and counts of tensors
/// and of metadata within the limits; the first that is wrong is named.
pub proof fn law_header_checks(data: Seq<u8>)
    ensures
        ({
            let r = parsed(data);
            let gguf = data.len() >= 4 && data[0] == 0x47 && data[1] == 0x47 && data[2] == 0x55
                && data[3] == 0x46;
            let known = data.len() >= 8 && 2 <= u32_at(data, 4) <= 3;
            let few = data.len() >= 16 && u64_at(data, 8) <= 65_536;
            &&& !gguf ==> r == Err::<ModelV, Fault>(Fault::BadMagic("GGUF"@))
            &&& gguf && data.len() >= 8 && !known ==> r == Err::<ModelV, Fault>(
                Fault::UnsupportedVersion(u32_at(data, 4) as u32),
            )
            &&& gguf && known && data.len() >= 16 && !few ==> r == Err::<ModelV, Fault>(
                Fault::LimitExceeded {
                    what: "tensor count"@,
                    got: u64_at(data, 8) as nat,
                    limit: 65_536,
                },
            )
            &&& gguf && known && few && data.len() >= 24 && u64_at(data, 16) > 65_536 ==> r == Err::<
                ModelV,
                Fault,
            >(
                Fault::LimitExceeded {
                    what: "metadata kv count"@,
                    got: u64_at(data, 16) as nat,
                    limit: 65_536,
                },
            )
            &&& data.len() < 24 ==> r is Err
            &&& r is Ok ==> gguf && known && few && u64_at(data, 16) <= 65_536
        }),
{
    lemma_at(data, 4);
    lemma_at(data, 8);
    lemma_at(data, 16);
    let g = crate::formats::gguf::magic();
    assert(g[0] == 0x47 && g[1] == 0x47 && g[2] == 0x55 && g[3] == 0x46);
    if data.len() >= 4 {
        let t = data.take(4);
        assert(t[0] == data[0] && t[1] == data[1] && t[2] == data[2] && t[3] == data[3]);
        if data[0] == 0x47 && data[1] == 0x47 && data[2] == 0x55 && data[3] == 0x46 {
            assert(t =~= g);
        }
    }
}

/// A text is its length in eight bytes and as many bytes, which must be there, be valid, and be
/// no more than the limit.
pub proof fn law_texts_are_read(data: Seq<u8>, p: int)
    requires
        0 <= p,
    ensures
        ({
            let n = u64_at(data, p);
            let r = next_string(data, p);
            let s = data.subrange(p + 8, p + 8 + n);
            &&& p + 8 > data.len() ==> r is Err
            &&& p + 8 <= data.len() ==> {
                &&& r is Ok <==> n <= 16_777_216 && p + 8 + n <= data.len() && valid_utf8(s)
                &&& r is Ok ==> r->Ok_0 == (decode_utf8(s), p + 8 + n)
                &&& n > 16_777_216 ==> r == Err::<(Seq<char>, int), Fault>(
                    Fault::LimitExceeded {
                        what: "string length"@,
                        got: n as nat,
                        limit: 16_777_216,
                    },
                )
            }
        }),
{
    lemma_at(data, p);
}

/// The entries of metadata follow one another: a key, the number of a type, and a value of that
/// type.
pub proof fn law_entries_follow(data: Seq<u8>, p: int, n: nat)
    ensures
        next_entries(data, p, n + 1) matches Ok((es, q)) ==> {
            &&& next_entries(data, p, n) is Ok
            &&& ({
                let (before, at) = next_entries(data, p, n)->Ok_0;
                let key = next_string(data, at)->Ok_0;
                let id = next_u32(data, key.1)->Ok_0;
                let v = next_value(data, id.1, id.0, 0)->Ok_0;
                &&& es.len() == before.len() + 1
                &&& es.drop_last() == before
                &&& es.last().key == key.0
                &&& es.last().value == v.0
                &&& q == v.1
            })
        },
        next_entries(data, p, 0) == Ok::<(Seq<EntryV>, int), Fault>((Seq::empty(), p)),
{
    if next_entries(data, p, n + 1) is Ok {
        let es = next_entries(data, p, n + 1)->Ok_0.0;
        let before = next_entries(data, p, n)->Ok_0.0;
        assert(es.drop_last() =~= before);
    }
}

/// The items of an array follow one another, each of the array's type.
pub proof fn law_items_follow(data: Seq<u8>, p: int, id: u32, depth: nat, n: nat)
    ensures
        next_items(data, p, id, depth, n + 1) matches Ok((s, q)) ==> {
            &&& next_items(data, p, id, depth, n) is Ok
            &&& ({
                let (before, at) = next_items(data, p, id, depth, n)->Ok_0;
                &&& s.len() == before.len() + 1
                &&& s.drop_last() == before
                &&& next_value(data, at, id, depth) == Ok::<(ValueV, int), Fault>((s.last(), q))
            })
        },
{
    if next_items(data, p, id, depth, n + 1) is Ok {
        let s = next_items(data, p, id, depth, n + 1)->Ok_0.0;
        let before = next_items(data, p, id, depth, n)->Ok_0.0;
        assert(s.drop_last() =~= before);
    }
}

} // verus!
