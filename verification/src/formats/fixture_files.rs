//! The files of the tiny models: vocabulary, metadata, images and JSON texts.

use vstd::prelude::*;
use vstd::string::StringExecFns;
use vstd::utf8::encode_utf8;

use crate::bytes::{le_bytes, put_bytes, put_le};
use crate::formats::desc::{byte_len, texts_view, DType, DTypeV};
use crate::formats::fixtures::{
    tiny_gguf_fixtures, tiny_hf_fixtures, tiny_hp, tiny_hyperparams, tiny_tensors_gguf,
    tiny_tensors_hf, weight_stream, weights,
};
use crate::formats::gguf::DEFAULT_NORM_EPS;
use crate::formats::image::{
    assemble_gguf, byte_strings, entries_bytes, fixtures_view, image, kv_bytes, offset_of,
    put_kv_bool, put_kv_f32, put_kv_i32_array, put_kv_str, put_kv_str_array, put_kv_u32, writable,
    FixtureTensor, FixtureV, Stored, StoredEntry,
};
use crate::formats::quant::{law_packed_len, pack, packed};
use crate::text::{chars_of, dec, dec_text, join, join_texts};

verus! {

/// std's `char::from_u32`: the character with a code, where the code is a Unicode
/// scalar value, and none otherwise.
pub assume_specification[ char::from_u32 ](i: u32) -> (r: Option<char>)
    ensures
        r is Some <==> (i < 0xD800 || 0xE000 <= i <= 0x10FFFF),
        r is Some ==> r->0 == i as char,
;

/// Whether a byte stands for itself in the byte alphabet.
pub open spec fn printable(b: u8) -> bool {
    33 <= b <= 126 || 161 <= b <= 172 || b >= 174
}

/// How many bytes below `b` do not stand for themselves.
pub open spec fn unprintable_below(b: nat) -> nat
    decreases b,
{
    if b == 0 {
        0
    } else {
        unprintable_below((b - 1) as nat) + if printable((b - 1) as u8) {
            0nat
        } else {
            1nat
        }
    }
}

/// The character that stands for a byte: itself, or for the others the next free
/// one from 256 on.
pub open spec fn byte_char(b: u8) -> char {
    if printable(b) {
        b as char
    } else {
        (256 + unprintable_below(b as nat)) as char
    }
}

proof fn lemma_unprintable_bound(b: nat)
    ensures
        unprintable_below(b) <= b,
    decreases b,
{
    if b > 0 {
        lemma_unprintable_bound((b - 1) as nat);
    }
}

/// A larger byte has no fewer unprintable ones below it.
proof fn lemma_unprintable_grows(a: nat, b: nat)
    requires
        a <= b,
    ensures
        unprintable_below(a) <= unprintable_below(b),
    decreases b - a,
{
    if a < b {
        lemma_unprintable_grows(a, (b - 1) as nat);
    }
}

/// Different bytes have different characters, so a text over the byte alphabet
/// determines its bytes.
pub proof fn law_byte_alphabet_is_injective(a: u8, b: u8)
    requires
        byte_char(a) == byte_char(b),
    ensures
        a == b,
{
    lemma_unprintable_bound(a as nat);
    lemma_unprintable_bound(b as nat);
    if !printable(a) && !printable(b) {
        assert((256 + unprintable_below(a as nat)) as char as int == 256 + unprintable_below(
            a as nat,
        ));
        assert((256 + unprintable_below(b as nat)) as char as int == 256 + unprintable_below(
            b as nat,
        ));
        if a < b {
            lemma_unprintable_grows(a as nat + 1, b as nat);
        } else if b < a {
            lemma_unprintable_grows(b as nat + 1, a as nat);
        }
    }
}

/// The character that stands for a byte.
pub fn byte_unicode(b: u8) -> (c: char)
    ensures
        c == byte_char(b),
{
    if (33 <= b && b <= 126) || (161 <= b && b <= 172) || b >= 174 {
        return b as char;
    }
    let mut n: u32 = 0;
    let mut x: u8 = 0;
    while x < b
        invariant
            x <= b,
            n <= x,
            n == unprintable_below(x as nat),
        decreases b - x,
    {
        let p: bool = (33 <= x && x <= 126) || (161 <= x && x <= 172) || x >= 174;
        if !p {
            n += 1;
        }
        x += 1;
    }
    match char::from_u32(256 + n) {
        Some(c) => c,
        None => ' ',
    }
}

/// The tokens of the tiny vocabulary: the bytes, two control tokens, and two
/// merged ones.
pub open spec fn vocab_tokens() -> Seq<Seq<char>> {
    Seq::new(256, |b: int| seq![byte_char(b as u8)]) + seq!["<|bos|>"@, "<|eos|>"@, "th"@, "the"@]
}

/// The merges of the tiny vocabulary.
pub open spec fn vocab_merges() -> Seq<Seq<char>> {
    seq!["t h"@, "th e"@]
}

/// The tokens and merges of the tiny vocabulary.
pub fn tiny_vocab() -> (r: (Vec<String>, Vec<String>))
    ensures
        texts_view(r.0@) == vocab_tokens(),
        texts_view(r.1@) == vocab_merges(),
{
    let mut tokens: Vec<String> = Vec::new();
    let ghost bytes = Seq::new(256, |b: int| seq![byte_char(b as u8)]);
    let mut b: u16 = 0;
    proof {
        assert(texts_view(tokens@) =~= bytes.take(0));
    }
    while b < 256
        invariant
            b <= 256,
            bytes == Seq::new(256, |k: int| seq![byte_char(k as u8)]),
            texts_view(tokens@) == bytes.take(b as int),
        decreases 256 - b,
    {
        let ghost before = texts_view(tokens@);
        let mut s = String::new();
        s.push(byte_unicode(b as u8));
        proof {
            assert(s@ =~= seq![byte_char(b as u8)]);
        }
        tokens.push(s);
        b += 1;
        proof {
            assert(texts_view(tokens@) =~= before.push(s@));
            assert(bytes.take(b as int) =~= bytes.take(b - 1).push(bytes[b - 1]));
        }
    }
    proof {
        assert(bytes.take(256) =~= bytes);
    }
    tokens.push("<|bos|>".to_owned());
    tokens.push("<|eos|>".to_owned());
    tokens.push("th".to_owned());
    tokens.push("the".to_owned());
    let mut merges: Vec<String> = Vec::new();
    merges.push("t h".to_owned());
    merges.push("th e".to_owned());
    proof {
        assert(texts_view(tokens@) =~= vocab_tokens());
        assert(texts_view(merges@) =~= vocab_merges());
    }
    (tokens, merges)
}

/// The token types: the two control tokens are marked.
pub open spec fn token_types() -> Seq<i32> {
    Seq::new(256, |i: int| 1i32) + seq![3i32, 3i32, 1i32, 1i32]
}

fn make_token_types() -> (r: Vec<i32>)
    ensures
        r@ == token_types(),
{
    let mut v: Vec<i32> = Vec::new();
    let mut i: usize = 0;
    while i < 256
        invariant
            i <= 256,
            v@ == Seq::new(i as nat, |k: int| 1i32),
        decreases 256 - i,
    {
        v.push(1);
        i += 1;
        proof {
            assert(v@ =~= Seq::new(i as nat, |k: int| 1i32));
        }
    }
    v.push(3);
    v.push(3);
    v.push(1);
    v.push(1);
    proof {
        assert(v@ =~= token_types());
    }
    v
}

/// Appends entry `k` of a list.
fn push_entry(
    kvs: &mut Vec<Vec<u8>>,
    b: Vec<u8>,
    Ghost(all): Ghost<Seq<StoredEntry>>,
    Ghost(k): Ghost<int>,
)
    requires
        0 <= k < all.len(),
        byte_strings(old(kvs)@) == entries_bytes(all).take(k),
        b@ == kv_bytes(all[k].key, all[k].value),
    ensures
        byte_strings(final(kvs)@) == entries_bytes(all).take(k + 1),
{
    let ghost before = byte_strings(kvs@);
    kvs.push(b);
    proof {
        assert(byte_strings(kvs@) =~= before.push(b@));
        assert(entries_bytes(all).take(k + 1) =~= entries_bytes(all).take(k).push(
            entries_bytes(all)[k],
        ));
    }
}

/// The metadata of the tiny model.
pub open spec fn tiny_entries() -> Seq<StoredEntry> {
    seq![
        StoredEntry { key: "general.architecture"@, value: Stored::Text("llama"@) },
        StoredEntry { key: "general.name"@, value: Stored::Text("tiny-llama-test"@) },
        StoredEntry { key: "general.alignment"@, value: Stored::U32(32) },
        StoredEntry { key: "llama.block_count"@, value: Stored::U32(2) },
        StoredEntry { key: "llama.embedding_length"@, value: Stored::U32(64) },
        StoredEntry { key: "llama.attention.head_count"@, value: Stored::U32(2) },
        StoredEntry { key: "llama.attention.head_count_kv"@, value: Stored::U32(1) },
        StoredEntry { key: "llama.feed_forward_length"@, value: Stored::U32(256) },
        StoredEntry { key: "llama.context_length"@, value: Stored::U32(128) },
        StoredEntry { key: "llama.attention.layer_norm_rms_epsilon"@, value: Stored::F32(DEFAULT_NORM_EPS) },
        StoredEntry { key: "tokenizer.ggml.model"@, value: Stored::Text("gpt2"@) },
        StoredEntry { key: "tokenizer.ggml.pre"@, value: Stored::Text("default"@) },
        StoredEntry { key: "tokenizer.ggml.tokens"@, value: Stored::Texts(vocab_tokens()) },
        StoredEntry { key: "tokenizer.ggml.merges"@, value: Stored::Texts(vocab_merges()) },
        StoredEntry { key: "tokenizer.ggml.token_type"@, value: Stored::I32s(token_types()) },
        StoredEntry { key: "tokenizer.ggml.bos_token_id"@, value: Stored::U32(256) },
        StoredEntry { key: "tokenizer.ggml.eos_token_id"@, value: Stored::U32(257) },
        StoredEntry { key: "tokenizer.ggml.add_bos_token"@, value: Stored::Bool(false) },
    ]
}

/// The metadata of the tiny model, one serialized entry each.
pub fn tiny_kvs() -> (r: Vec<Vec<u8>>)
    ensures
        byte_strings(r@) == entries_bytes(tiny_entries()),
{
    let ghost all = tiny_entries();
    let (tokens, merges) = tiny_vocab();
    let types = make_token_types();
    let mut kvs: Vec<Vec<u8>> = Vec::new();
    proof {
        assert(byte_strings(kvs@) =~= entries_bytes(all).take(0));
        lemma_empty_prefix();
    }
    let mut b: Vec<u8> = Vec::new();
    put_kv_str(&mut b, "general.architecture", "llama");
    push_entry(&mut kvs, b, Ghost(all), Ghost(0));
    let mut b: Vec<u8> = Vec::new();
    put_kv_str(&mut b, "general.name", "tiny-llama-test");
    push_entry(&mut kvs, b, Ghost(all), Ghost(1));
    let mut b: Vec<u8> = Vec::new();
    put_kv_u32(&mut b, "general.alignment", 32);
    push_entry(&mut kvs, b, Ghost(all), Ghost(2));
    let mut b: Vec<u8> = Vec::new();
    put_kv_u32(&mut b, "llama.block_count", 2);
    push_entry(&mut kvs, b, Ghost(all), Ghost(3));
    let mut b: Vec<u8> = Vec::new();
    put_kv_u32(&mut b, "llama.embedding_length", 64);
    push_entry(&mut kvs, b, Ghost(all), Ghost(4));
    let mut b: Vec<u8> = Vec::new();
    put_kv_u32(&mut b, "llama.attention.head_count", 2);
    push_entry(&mut kvs, b, Ghost(all), Ghost(5));
    let mut b: Vec<u8> = Vec::new();
    put_kv_u32(&mut b, "llama.attention.head_count_kv", 1);
    push_entry(&mut kvs, b, Ghost(all), Ghost(6));
    let mut b: Vec<u8> = Vec::new();
    put_kv_u32(&mut b, "llama.feed_forward_length", 256);
    push_entry(&mut kvs, b, Ghost(all), Ghost(7));
    let mut b: Vec<u8> = Vec::new();
    put_kv_u32(&mut b, "llama.context_length", 128);
    push_entry(&mut kvs, b, Ghost(all), Ghost(8));
    let mut b: Vec<u8> = Vec::new();
    put_kv_f32(&mut b, "llama.attention.layer_norm_rms_epsilon", DEFAULT_NORM_EPS);
    push_entry(&mut kvs, b, Ghost(all), Ghost(9));
    let mut b: Vec<u8> = Vec::new();
    put_kv_str(&mut b, "tokenizer.ggml.model", "gpt2");
    push_entry(&mut kvs, b, Ghost(all), Ghost(10));
    let mut b: Vec<u8> = Vec::new();
    put_kv_str(&mut b, "tokenizer.ggml.pre", "default");
    push_entry(&mut kvs, b, Ghost(all), Ghost(11));
    let mut b: Vec<u8> = Vec::new();
    put_kv_str_array(&mut b, "tokenizer.ggml.tokens", &tokens);
    push_entry(&mut kvs, b, Ghost(all), Ghost(12));
    let mut b: Vec<u8> = Vec::new();
    put_kv_str_array(&mut b, "tokenizer.ggml.merges", &merges);
    push_entry(&mut kvs, b, Ghost(all), Ghost(13));
    let mut b: Vec<u8> = Vec::new();
    put_kv_i32_array(&mut b, "tokenizer.ggml.token_type", &types);
    push_entry(&mut kvs, b, Ghost(all), Ghost(14));
    let mut b: Vec<u8> = Vec::new();
    put_kv_u32(&mut b, "tokenizer.ggml.bos_token_id", 256);
    push_entry(&mut kvs, b, Ghost(all), Ghost(15));
    let mut b: Vec<u8> = Vec::new();
    put_kv_u32(&mut b, "tokenizer.ggml.eos_token_id", 257);
    push_entry(&mut kvs, b, Ghost(all), Ghost(16));
    let mut b: Vec<u8> = Vec::new();
    put_kv_bool(&mut b, "tokenizer.ggml.add_bos_token", false);
    push_entry(&mut kvs, b, Ghost(all), Ghost(17));
    proof {
        assert(entries_bytes(all).take(18) =~= entries_bytes(all));
    }
    kvs
}

/// Nothing in front changes nothing.
proof fn lemma_empty_prefix()
    ensures
        forall|s: Seq<u8>| #[trigger] (Seq::<u8>::empty() + s) == s,
{
    assert forall|s: Seq<u8>| #[trigger] (Seq::<u8>::empty() + s) == s by {
        assert(Seq::<u8>::empty() + s =~= s);
    }
}

/// Tensors of at most `max` bytes take at most `max + 32` each.
pub proof fn lemma_offset_bound(ts: Seq<FixtureV>, k: nat, max: nat)
    requires
        k <= ts.len(),
        forall|i: int| 0 <= i < ts.len() ==> (#[trigger] ts[i]).data.len() <= max,
    ensures
        offset_of(ts, k) <= k * (max + 32),
    decreases k,
{
    if k > 0 {
        lemma_offset_bound(ts, (k - 1) as nat, max);
        assert(ts[k - 1].data.len() <= max);
        assert((k - 1) * (max + 32) + max + 32 == k * (max + 32)) by (nonlinear_arith);
    } else {
        assert(0 * (max + 32) == 0);
    }
}

/// The tiny model's GGUF file.
pub open spec fn tiny_image() -> Seq<u8> {
    image(tiny_gguf_fixtures(), entries_bytes(tiny_entries()))
}

/// The tiny model's GGUF file.
pub fn tiny_llama_gguf() -> (r: Vec<u8>)
    ensures
        r@ == tiny_image(),
{
    let tensors = tiny_tensors_gguf();
    let kvs = tiny_kvs();
    proof {
        lemma_fixture_limits(tensors@, 100_000);
    }
    assemble_gguf(&tensors, &kvs)
}

/// Tensors of the fixtures can be written.
proof fn lemma_fixture_limits(ts: Seq<FixtureTensor>, max: nat)
    requires
        ts.len() <= 100,
        max <= 1_000_000,
        forall|i: int| 0 <= i < ts.len() ==> #[trigger] ts[i].data@.len() <= max,
    ensures
        offset_of(fixtures_view(ts), ts.len()) <= u64::MAX,
{
    let v = fixtures_view(ts);
    assert forall|i: int| 0 <= i < v.len() implies (#[trigger] v[i]).data.len() <= max by {
        assert(v[i].data == ts[i].data@);
    }
    lemma_offset_bound(v, ts.len(), max);
    let n = ts.len();
    assert(n * (max + 32) <= 100 * 1_000_032) by (nonlinear_arith)
        requires
            n <= 100,
            max <= 1_000_000,
    ;
}

/// A plain tensor of one dimension, filled from the stream that starts at `seed`.
pub open spec fn plain1(name: Seq<char>, rows: u64, seed: u64) -> FixtureV {
    FixtureV {
        name,
        shape: seq![rows],
        dtype: DTypeV::F32,
        data: packed(DTypeV::F32, weights(seed, rows as nat)),
    }
}

/// A plain tensor of two dimensions, filled from the stream that starts at `seed`.
pub open spec fn plain2(name: Seq<char>, rows: u64, cols: u64, seed: u64) -> FixtureV {
    FixtureV {
        name,
        shape: seq![rows, cols],
        dtype: DTypeV::F32,
        data: packed(DTypeV::F32, weights(seed, (rows * cols) as nat)),
    }
}

fn plain_data(seed: u64, n: usize) -> (data: Vec<u8>)
    requires
        n <= 10_000,
    ensures
        data@ == packed(DTypeV::F32, weights(seed, n as nat)),
        data@.len() <= 40_000,
{
    let w = weight_stream(seed, n);
    proof {
        assert(n as nat / 1 * 4 == 4 * n);
        assert(byte_len(DTypeV::F32, n as nat) == Some((4 * n) as nat));
        law_packed_len(DTypeV::F32, w@);
    }
    match pack(&DType::F32, w.as_slice()) {
        Ok(d) => d,
        Err(_) => Vec::new(),
    }
}

fn make_plain1(name: String, rows: u64, seed: u64) -> (t: FixtureTensor)
    requires
        rows <= 10_000,
    ensures
        t@ == plain1(name@, rows, seed),
        t.data@.len() <= 40_000,
{
    let mut shape: Vec<u64> = Vec::new();
    shape.push(rows);
    assert(shape@ =~= seq![rows]);
    FixtureTensor { name, shape, dtype: DType::F32, data: plain_data(seed, rows as usize) }
}

fn make_plain2(name: String, rows: u64, cols: u64, seed: u64) -> (t: FixtureTensor)
    requires
        rows <= 100,
        cols <= 100,
    ensures
        t@ == plain2(name@, rows, cols, seed),
        t.data@.len() <= 40_000,
{
    let mut shape: Vec<u64> = Vec::new();
    shape.push(rows);
    shape.push(cols);
    assert(shape@ =~= seq![rows, cols]);
    assert(rows * cols <= 10_000) by (nonlinear_arith)
        requires
            rows <= 100,
            cols <= 100,
    ;
    FixtureTensor {
        name,
        shape,
        dtype: DType::F32,
        data: plain_data(seed, (rows * cols) as usize),
    }
}

/// `blk.{i}.{s}`.
pub open spec fn blk(i: nat, s: Seq<char>) -> Seq<char> {
    "blk."@ + dec(i) + "."@ + s
}

fn blk_text(i: u64, s: &str) -> (r: String)
    ensures
        r@ == blk(i as nat, s@),
{
    let mut r = "blk.".to_owned();
    r.append(dec_text(i).as_str());
    r.append(".");
    r.append(s);
    r
}

/// The biases of layer `i`: over all heads for the queries, over the heads of keys
/// and values for those.
pub open spec fn layer_biases(i: nat) -> Seq<FixtureV> {
    seq![
        plain1(blk(i, "attn_q.bias"@), 64, (0xB1A5 + i) as u64),
        plain1(blk(i, "attn_k.bias"@), 32, (0xB1A6 + i) as u64),
        plain1(blk(i, "attn_v.bias"@), 32, (0xB1A7 + i) as u64),
    ]
}

/// The biases of the first `k` layers.
pub open spec fn biases(k: nat) -> Seq<FixtureV>
    decreases k,
{
    if k == 0 {
        Seq::empty()
    } else {
        biases((k - 1) as nat) + layer_biases((k - 1) as nat)
    }
}

/// The tiny model's GGUF file with a bias on every query, key and value projection.
pub open spec fn bias_image() -> Seq<u8> {
    image(tiny_gguf_fixtures() + biases(2), entries_bytes(tiny_entries()))
}

/// The tiny model's GGUF file with a bias on every query, key and value projection.
pub fn tiny_bias_llama_gguf() -> (r: Vec<u8>)
    ensures
        r@ == bias_image(),
{
    let mut tensors = tiny_tensors_gguf();
    let mut i: u64 = 0;
    proof {
        assert(fixtures_view(tensors@) =~= tiny_gguf_fixtures() + biases(0));
        assert(tensors@.len() == fixtures_view(tensors@).len());
        lemma_table_len();
    }
    while i < 2
        invariant
            i <= 2,
            fixtures_view(tensors@) == tiny_gguf_fixtures() + biases(i as nat),
            tensors@.len() == 20 + 3 * i,
            forall|k: int| 0 <= k < tensors@.len() ==> #[trigger] tensors@[k].data@.len()
                <= 100_000,
            forall|k: int| 0 <= k < tensors@.len() ==> writable(#[trigger] tensors@[k]@),
        decreases 2 - i,
    {
        let ghost before = fixtures_view(tensors@);
        let q = make_plain1(blk_text(i, "attn_q.bias"), 64, 0xB1A5 + i);
        let k = make_plain1(blk_text(i, "attn_k.bias"), 32, 0xB1A6 + i);
        let v = make_plain1(blk_text(i, "attn_v.bias"), 32, 0xB1A7 + i);
        let ghost three = seq![q@, k@, v@];
        tensors.push(q);
        tensors.push(k);
        tensors.push(v);
        proof {
            assert(three =~= layer_biases(i as nat));
            assert(fixtures_view(tensors@) =~= before + three);
        }
        i += 1;
        proof {
            assert(fixtures_view(tensors@) =~= tiny_gguf_fixtures() + biases(i as nat));
        }
    }
    let kvs = tiny_kvs();
    proof {
        lemma_fixture_limits(tensors@, 100_000);
    }
    assemble_gguf(&tensors, &kvs)
}

proof fn lemma_table_len()
    ensures
        tiny_gguf_fixtures().len() == 20,
{
    reveal_with_fuel(crate::formats::fixtures::layers_rows, 3);
}

/// The tensors of the model with a single token.
pub open spec fn hostile_tensors() -> Seq<FixtureV> {
    seq![
        plain2("token_embd.weight"@, 1, 2, 1),
        plain1("output_norm.weight"@, 2, 2),
        plain1(blk(0, "attn_norm.weight"@), 2, 10),
        plain2(blk(0, "attn_q.weight"@), 2, 2, 11),
        plain2(blk(0, "attn_k.weight"@), 2, 2, 12),
        plain2(blk(0, "attn_v.weight"@), 2, 2, 13),
        plain2(blk(0, "attn_output.weight"@), 2, 2, 14),
        plain1(blk(0, "ffn_norm.weight"@), 2, 15),
        plain2(blk(0, "ffn_gate.weight"@), 2, 2, 16),
        plain2(blk(0, "ffn_up.weight"@), 2, 2, 17),
        plain2(blk(0, "ffn_down.weight"@), 2, 2, 18),
    ]
}

/// The metadata of the model with a single token.
pub open spec fn hostile_entries() -> Seq<StoredEntry> {
    seq![
        StoredEntry { key: "general.architecture"@, value: Stored::Text("llama"@) },
        StoredEntry { key: "general.name"@, value: Stored::Text("hostile-vocab1-test"@) },
        StoredEntry { key: "general.alignment"@, value: Stored::U32(32) },
        StoredEntry { key: "llama.block_count"@, value: Stored::U32(1) },
        StoredEntry { key: "llama.embedding_length"@, value: Stored::U32(2) },
        StoredEntry { key: "llama.attention.head_count"@, value: Stored::U32(1) },
        StoredEntry { key: "llama.attention.head_count_kv"@, value: Stored::U32(1) },
        StoredEntry { key: "llama.feed_forward_length"@, value: Stored::U32(2) },
        StoredEntry { key: "llama.context_length"@, value: Stored::U32(8) },
        StoredEntry { key: "llama.attention.layer_norm_rms_epsilon"@, value: Stored::F32(DEFAULT_NORM_EPS) },
        StoredEntry { key: "tokenizer.ggml.model"@, value: Stored::Text("gpt2"@) },
        StoredEntry { key: "tokenizer.ggml.pre"@, value: Stored::Text("default"@) },
        StoredEntry { key: "tokenizer.ggml.tokens"@, value: Stored::Texts(seq!["a"@]) },
        StoredEntry { key: "tokenizer.ggml.merges"@, value: Stored::Texts(Seq::empty()) },
        StoredEntry { key: "tokenizer.ggml.token_type"@, value: Stored::I32s(seq![1i32]) },
        StoredEntry { key: "tokenizer.ggml.add_bos_token"@, value: Stored::Bool(false) },
    ]
}

fn hostile_kvs() -> (r: Vec<Vec<u8>>)
    ensures
        byte_strings(r@) == entries_bytes(hostile_entries()),
{
    let ghost all = hostile_entries();
    let mut tokens: Vec<String> = Vec::new();
    tokens.push("a".to_owned());
    let merges: Vec<String> = Vec::new();
    let mut types: Vec<i32> = Vec::new();
    types.push(1);
    let mut kvs: Vec<Vec<u8>> = Vec::new();
    proof {
        assert(texts_view(tokens@) =~= seq!["a"@]);
        assert(texts_view(merges@) =~= Seq::<Seq<char>>::empty());
        assert(types@ =~= seq![1i32]);
        assert(byte_strings(kvs@) =~= entries_bytes(all).take(0));
        lemma_empty_prefix();
    }
    let mut b: Vec<u8> = Vec::new();
    put_kv_str(&mut b, "general.architecture", "llama");
    push_entry(&mut kvs, b, Ghost(all), Ghost(0));
    let mut b: Vec<u8> = Vec::new();
    put_kv_str(&mut b, "general.name", "hostile-vocab1-test");
    push_entry(&mut kvs, b, Ghost(all), Ghost(1));
    let mut b: Vec<u8> = Vec::new();
    put_kv_u32(&mut b, "general.alignment", 32);
    push_entry(&mut kvs, b, Ghost(all), Ghost(2));
    let mut b: Vec<u8> = Vec::new();
    put_kv_u32(&mut b, "llama.block_count", 1);
    push_entry(&mut kvs, b, Ghost(all), Ghost(3));
    let mut b: Vec<u8> = Vec::new();
    put_kv_u32(&mut b, "llama.embedding_length", 2);
    push_entry(&mut kvs, b, Ghost(all), Ghost(4));
    let mut b: Vec<u8> = Vec::new();
    put_kv_u32(&mut b, "llama.attention.head_count", 1);
    push_entry(&mut kvs, b, Ghost(all), Ghost(5));
    let mut b: Vec<u8> = Vec::new();
    put_kv_u32(&mut b, "llama.attention.head_count_kv", 1);
    push_entry(&mut kvs, b, Ghost(all), Ghost(6));
    let mut b: Vec<u8> = Vec::new();
    put_kv_u32(&mut b, "llama.feed_forward_length", 2);
    push_entry(&mut kvs, b, Ghost(all), Ghost(7));
    let mut b: Vec<u8> = Vec::new();
    put_kv_u32(&mut b, "llama.context_length", 8);
    push_entry(&mut kvs, b, Ghost(all), Ghost(8));
    let mut b: Vec<u8> = Vec::new();
    put_kv_f32(&mut b, "llama.attention.layer_norm_rms_epsilon", DEFAULT_NORM_EPS);
    push_entry(&mut kvs, b, Ghost(all), Ghost(9));
    let mut b: Vec<u8> = Vec::new();
    put_kv_str(&mut b, "tokenizer.ggml.model", "gpt2");
    push_entry(&mut kvs, b, Ghost(all), Ghost(10));
    let mut b: Vec<u8> = Vec::new();
    put_kv_str(&mut b, "tokenizer.ggml.pre", "default");
    push_entry(&mut kvs, b, Ghost(all), Ghost(11));
    let mut b: Vec<u8> = Vec::new();
    put_kv_str_array(&mut b, "tokenizer.ggml.tokens", &tokens);
    push_entry(&mut kvs, b, Ghost(all), Ghost(12));
    let mut b: Vec<u8> = Vec::new();
    put_kv_str_array(&mut b, "tokenizer.ggml.merges", &merges);
    push_entry(&mut kvs, b, Ghost(all), Ghost(13));
    let mut b: Vec<u8> = Vec::new();
    put_kv_i32_array(&mut b, "tokenizer.ggml.token_type", &types);
    push_entry(&mut kvs, b, Ghost(all), Ghost(14));
    let mut b: Vec<u8> = Vec::new();
    put_kv_bool(&mut b, "tokenizer.ggml.add_bos_token", false);
    push_entry(&mut kvs, b, Ghost(all), Ghost(15));
    proof {
        assert(entries_bytes(all).take(16) =~= entries_bytes(all));
    }
    kvs
}

/// A model that is well-formed but hostile: a vocabulary of one token.
pub fn hostile_vocab1_gguf() -> (r: Vec<u8>)
    ensures
        r@ == image(hostile_tensors(), entries_bytes(hostile_entries())),
{
    let mut ts: Vec<FixtureTensor> = Vec::new();
    let t0 = make_plain2("token_embd.weight".to_owned(), 1, 2, 1);
    let t1 = make_plain1("output_norm.weight".to_owned(), 2, 2);
    let t2 = make_plain1(blk_text(0, "attn_norm.weight"), 2, 10);
    let t3 = make_plain2(blk_text(0, "attn_q.weight"), 2, 2, 11);
    let t4 = make_plain2(blk_text(0, "attn_k.weight"), 2, 2, 12);
    let t5 = make_plain2(blk_text(0, "attn_v.weight"), 2, 2, 13);
    let t6 = make_plain2(blk_text(0, "attn_output.weight"), 2, 2, 14);
    let t7 = make_plain1(blk_text(0, "ffn_norm.weight"), 2, 15);
    let t8 = make_plain2(blk_text(0, "ffn_gate.weight"), 2, 2, 16);
    let t9 = make_plain2(blk_text(0, "ffn_up.weight"), 2, 2, 17);
    let t10 = make_plain2(blk_text(0, "ffn_down.weight"), 2, 2, 18);
    let ghost views = seq![t0@, t1@, t2@, t3@, t4@, t5@, t6@, t7@, t8@, t9@, t10@];
    proof {
        assert(views =~= hostile_tensors());
    }
    ts.push(t0);
    ts.push(t1);
    ts.push(t2);
    ts.push(t3);
    ts.push(t4);
    ts.push(t5);
    ts.push(t6);
    ts.push(t7);
    ts.push(t8);
    ts.push(t9);
    ts.push(t10);
    proof {
        assert(fixtures_view(ts@) =~= views);
        lemma_fixture_limits(ts@, 40_000);
    }
    let kvs = hostile_kvs();
    assemble_gguf(&ts, &kvs)
}

/// The safetensors name of a plain element type.
pub open spec fn st_dtype_name(d: DTypeV) -> Seq<char> {
    match d {
        DTypeV::F16 => "F16"@,
        DTypeV::BF16 => "BF16"@,
        _ => "F32"@,
    }
}

/// The decimal texts of a list of numbers.
pub open spec fn decs(v: Seq<u64>) -> Seq<Seq<char>> {
    v.map_values(|x: u64| dec(x as nat))
}

/// Where the data of tensor `k` begins in a safetensors file.
pub open spec fn plain_offset(ts: Seq<FixtureV>, k: nat) -> nat
    decreases k,
{
    if k == 0 {
        0
    } else {
        plain_offset(ts, (k - 1) as nat) + ts[k - 1].data.len()
    }
}

/// The entry of a tensor in the JSON table.
pub open spec fn st_entry(t: FixtureV, start: nat) -> Seq<char> {
    "\""@ + t.name + "\": {\"dtype\":\""@ + st_dtype_name(t.dtype) + "\",\"shape\":["@ + join(
        decs(t.shape),
        ","@,
        t.shape.len(),
    ) + "],\"data_offsets\":["@ + dec(start) + ","@ + dec(start + t.data.len()) + "]}"@
}

/// The entries of all tensors.
pub open spec fn st_entries(ts: Seq<FixtureV>) -> Seq<Seq<char>> {
    Seq::new(ts.len(), |k: int| st_entry(ts[k], plain_offset(ts, k as nat)))
}

/// The JSON table of all tensors.
pub open spec fn st_json(ts: Seq<FixtureV>) -> Seq<char> {
    "{"@ + join(st_entries(ts), ","@, ts.len()) + "}"@
}

/// The data of the first `k` tensors, one after the other.
pub open spec fn plain_data_of(ts: Seq<FixtureV>, k: nat) -> Seq<u8>
    decreases k,
{
    if k == 0 {
        Seq::empty()
    } else {
        plain_data_of(ts, (k - 1) as nat) + ts[k - 1].data
    }
}

/// A safetensors file: the length of the JSON table, the table, the data.
pub open spec fn st_file(ts: Seq<FixtureV>) -> Seq<u8> {
    let json = encode_utf8(st_json(ts));
    le_bytes(json.len(), 8) + json + plain_data_of(ts, ts.len())
}

fn dims_text(shape: &Vec<u64>) -> (r: String)
    ensures
        r@ == join(decs(shape@), ","@, shape@.len()),
{
    let mut parts: Vec<String> = Vec::new();
    let mut i: usize = 0;
    proof {
        assert(texts_view(parts@) =~= decs(shape@).take(0));
    }
    while i < shape.len()
        invariant
            i <= shape@.len(),
            texts_view(parts@) == decs(shape@).take(i as int),
        decreases shape.len() - i,
    {
        let ghost before = texts_view(parts@);
        let s = dec_text(shape[i]);
        parts.push(s);
        i += 1;
        proof {
            assert(texts_view(parts@) =~= before.push(s@));
            assert(decs(shape@).take(i as int) =~= decs(shape@).take(i - 1).push(s@));
        }
    }
    proof {
        assert(texts_view(parts@) =~= decs(shape@));
        assert(parts@.len() == texts_view(parts@).len());
        assert(parts@.map_values(|t: String| t@) =~= decs(shape@));
    }
    join_texts(&parts, ",")
}

fn entry_text(t: &FixtureTensor, start: u64) -> (s: String)
    requires
        start + t.data@.len() <= u64::MAX,
    ensures
        s@ == st_entry(t@, start as nat),
{
    let dtype = match t.dtype {
        DType::F16 => "F16",
        DType::BF16 => "BF16",
        _ => "F32",
    };
    let mut s = "\"".to_owned();
    s.append(t.name.as_str());
    s.append("\": {\"dtype\":\"");
    s.append(dtype);
    s.append("\",\"shape\":[");
    s.append(dims_text(&t.shape).as_str());
    s.append("],\"data_offsets\":[");
    s.append(dec_text(start).as_str());
    s.append(",");
    s.append(dec_text(start + t.data.len() as u64).as_str());
    s.append("]}");
    s
}

/// Serializes plain tensors as a safetensors file.
pub fn assemble_safetensors(tensors: &Vec<FixtureTensor>) -> (out: Vec<u8>)
    requires
        tensors@.len() <= 1000,
        forall|i: int| 0 <= i < tensors@.len() ==> #[trigger] tensors@[i].data@.len() <= 500_000,
    ensures
        out@ == st_file(fixtures_view(tensors@)),
{
    let ghost ts = fixtures_view(tensors@);
    let mut entries: Vec<String> = Vec::new();
    let mut offset: u64 = 0;
    let mut k: usize = 0;
    proof {
        assert(texts_view(entries@) =~= st_entries(ts).take(0));
    }
    while k < tensors.len()
        invariant
            k <= tensors@.len() <= 1000,
            ts == fixtures_view(tensors@),
            forall|i: int| 0 <= i < tensors@.len() ==> #[trigger] tensors@[i].data@.len()
                <= 500_000,
            offset == plain_offset(ts, k as nat),
            offset <= k * 500_000,
            texts_view(entries@) == st_entries(ts).take(k as int),
        decreases tensors.len() - k,
    {
        assert(tensors@[k as int].data@.len() <= 500_000);
        let ghost before = texts_view(entries@);
        let s = entry_text(&tensors[k], offset);
        entries.push(s);
        offset = offset + tensors[k].data.len() as u64;
        k += 1;
        proof {
            assert(ts[k - 1] == tensors@[k - 1]@);
            assert(texts_view(entries@) =~= before.push(s@));
            assert(st_entries(ts).take(k as int) =~= st_entries(ts).take(k - 1).push(s@));
        }
    }
    proof {
        assert(st_entries(ts).take(k as int) =~= st_entries(ts));
        assert(entries@.len() == texts_view(entries@).len());
        assert(entries@.map_values(|t: String| t@) =~= st_entries(ts));
    }
    let mut json = "{".to_owned();
    json.append(join_texts(&entries, ",").as_str());
    json.append("}");
    let bytes = json.as_str().as_bytes();
    let mut out: Vec<u8> = Vec::new();
    put_le(&mut out, bytes.len() as u64, 8);
    put_bytes(&mut out, bytes);
    let ghost head = out@;
    proof {
        let e = encode_utf8(st_json(ts));
        assert(head =~= le_bytes(e.len(), 8) + e);
        assert(head + plain_data_of(ts, 0) =~= head);
    }
    let mut t: usize = 0;
    while t < tensors.len()
        invariant
            t <= tensors@.len(),
            ts == fixtures_view(tensors@),
            out@ == head + plain_data_of(ts, t as nat),
        decreases tensors.len() - t,
    {
        put_bytes(&mut out, tensors[t].data.as_slice());
        t += 1;
        proof {
            assert(out@ =~= head + plain_data_of(ts, t as nat));
        }
    }
    out
}

/// The tiny model as a single safetensors file: the effective weights of the GGUF
/// file, under HF names, not permuted, with tied embeddings.
pub fn tiny_llama_safetensors() -> (r: Vec<u8>)
    ensures
        r@ == st_file(tiny_hf_fixtures()),
{
    let tensors = tiny_tensors_hf();
    assemble_safetensors(&tensors)
}

/// The configuration that goes with the safetensors file.
pub open spec fn config_text() -> Seq<char> {
    let hp = tiny_hp();
    "{\n  \"model_type\": \"llama\",\n  \"hidden_size\": "@ + dec(hp.hidden_size as nat)
        + ",\n  \"num_hidden_layers\": "@ + dec(hp.n_layers as nat)
        + ",\n  \"num_attention_heads\": "@ + dec(hp.n_heads as nat)
        + ",\n  \"num_key_value_heads\": "@ + dec(hp.n_kv_heads as nat)
        + ",\n  \"intermediate_size\": "@ + dec(hp.ffn_hidden_size as nat)
        + ",\n  \"vocab_size\": "@ + dec(hp.vocab_size as nat)
        + ",\n  \"rope_theta\": 10000,\n  \"rms_norm_eps\": 0.00001,\n  \"max_position_embeddings\": "@ + dec(hp.context_length as nat)
        + "\n}"@
}

/// The configuration that goes with the safetensors file.
pub fn tiny_llama_config_json() -> (s: String)
    ensures
        s@ == config_text(),
{
    let hp = tiny_hyperparams();
    let mut s = String::new();
    s.append("{\n  \"model_type\": \"llama\",\n  \"hidden_size\": ");
    s.append(dec_text(hp.hidden_size).as_str());
    s.append(",\n  \"num_hidden_layers\": ");
    s.append(dec_text(hp.n_layers).as_str());
    s.append(",\n  \"num_attention_heads\": ");
    s.append(dec_text(hp.n_heads).as_str());
    s.append(",\n  \"num_key_value_heads\": ");
    s.append(dec_text(hp.n_kv_heads).as_str());
    s.append(",\n  \"intermediate_size\": ");
    s.append(dec_text(hp.ffn_hidden_size).as_str());
    s.append(",\n  \"vocab_size\": ");
    s.append(dec_text(hp.vocab_size).as_str());
    s.append(",\n  \"rope_theta\": 10000,\n  \"rms_norm_eps\": 0.00001,\n  \"max_position_embeddings\": ");
    s.append(dec_text(hp.context_length).as_str());
    s.append("\n}");
    proof {
        assert(s@ =~= config_text());
    }
    s
}

/// A character inside a JSON string.
pub open spec fn escaped_char(c: char) -> Seq<char> {
    if c == '\\' || c == '"' {
        seq!['\\', c]
    } else {
        seq![c]
    }
}

/// The first `k` characters of a text, inside a JSON string.
pub open spec fn escaped(s: Seq<char>, k: nat) -> Seq<char>
    decreases k,
{
    if k == 0 {
        Seq::empty()
    } else {
        escaped(s, (k - 1) as nat) + escaped_char(s[k - 1])
    }
}

/// A text inside a JSON string: backslashes and quotes are escaped.
pub fn escape(s: &str) -> (r: String)
    ensures
        r@ == escaped(s@, s@.len()),
{
    let v = chars_of(s);
    let mut r = String::new();
    let mut i: usize = 0;
    while i < v.len()
        invariant
            i <= v@.len(),
            v@ == s@,
            r@ == escaped(s@, i as nat),
        decreases v.len() - i,
    {
        let c: char = v[i];
        let ghost before = r@;
        if c == '\\' || c == '"' {
            r.push('\\');
        }
        r.push(c);
        i += 1;
        proof {
            assert(r@ =~= before + escaped_char(c));
        }
    }
    r
}

/// The entry of token `i` in the vocabulary table.
pub open spec fn vocab_entry(t: Seq<char>, i: nat) -> Seq<char> {
    "\""@ + escaped(t, t.len()) + "\": "@ + dec(i)
}

/// The entries of all tokens.
pub open spec fn vocab_entries(tokens: Seq<Seq<char>>) -> Seq<Seq<char>> {
    Seq::new(tokens.len(), |i: int| vocab_entry(tokens[i], i as nat))
}

/// Texts in quotes.
pub open spec fn in_quotes(s: Seq<Seq<char>>) -> Seq<Seq<char>> {
    s.map_values(|t: Seq<char>| "\""@ + t + "\""@)
}

/// The tokenizer file that goes with the vocabulary.
pub open spec fn tokenizer_text() -> Seq<char> {
    "{\n  \"version\": \"1.0\",\n  \"added_tokens\": [\n    {\"id\": 256, \"content\": \"<|bos|>\", \"single_word\": false, \"lstrip\": false,\n      \"rstrip\": false, \"normalized\": false, \"special\": true},\n    {\"id\": 257, \"content\": \"<|eos|>\", \"single_word\": false, \"lstrip\": false,\n      \"rstrip\": false, \"normalized\": false, \"special\": true}\n  ],\n  \"normalizer\": null,\n  \"pre_tokenizer\": {\"type\": \"ByteLevel\", \"add_prefix_space\": false, \"trim_offsets\": true, \"use_regex\": true},\n  \"post_processor\": null,\n  \"decoder\": {\"type\": \"ByteLevel\", \"add_prefix_space\": false, \"trim_offsets\": true, \"use_regex\": true},\n  \"model\": {\n    \"type\": \"BPE\",\n    \"dropout\": null, \"unk_token\": null, \"continuing_subword_prefix\": null,\n    \"end_of_word_suffix\": null, \"fuse_unk\": false, \"byte_fallback\": false,\n    \"vocab\": {"@
        + join(vocab_entries(vocab_tokens()), ", "@, vocab_tokens().len())
        + "},\n    \"merges\": ["@
        + join(in_quotes(vocab_merges()), ", "@, vocab_merges().len())
        + "]\n  }\n}"@
}

/// The tokenizer file that goes with the vocabulary.
pub fn tiny_tokenizer_json() -> (s: String)
    ensures
        s@ == tokenizer_text(),
{
    let (tokens, merges) = tiny_vocab();
    let ghost ts = vocab_tokens();
    let ghost ms = vocab_merges();
    let mut entries: Vec<String> = Vec::new();
    let mut i: usize = 0;
    proof {
        assert(texts_view(entries@) =~= vocab_entries(ts).take(0));
        assert(tokens@.len() == texts_view(tokens@).len());
        assert(merges@.len() == texts_view(merges@).len());
    }
    while i < tokens.len()
        invariant
            i <= tokens@.len(),
            texts_view(tokens@) == ts,
            tokens@.len() == ts.len(),
            texts_view(entries@) == vocab_entries(ts).take(i as int),
        decreases tokens.len() - i,
    {
        let ghost before = texts_view(entries@);
        proof {
            assert(ts[i as int] == tokens@[i as int]@);
        }
        let mut e = "\"".to_owned();
        e.append(escape(tokens[i].as_str()).as_str());
        e.append("\": ");
        e.append(dec_text(i as u64).as_str());
        entries.push(e);
        i += 1;
        proof {
            assert(texts_view(entries@) =~= before.push(e@));
            assert(vocab_entries(ts).take(i as int) =~= vocab_entries(ts).take(i - 1).push(e@));
        }
    }
    let mut quoted: Vec<String> = Vec::new();
    let mut k: usize = 0;
    proof {
        assert(texts_view(quoted@) =~= in_quotes(ms).take(0));
    }
    while k < merges.len()
        invariant
            k <= merges@.len(),
            texts_view(merges@) == ms,
            merges@.len() == ms.len(),
            texts_view(quoted@) == in_quotes(ms).take(k as int),
        decreases merges.len() - k,
    {
        let ghost before = texts_view(quoted@);
        proof {
            assert(ms[k as int] == merges@[k as int]@);
        }
        let mut q = "\"".to_owned();
        q.append(merges[k].as_str());
        q.append("\"");
        quoted.push(q);
        k += 1;
        proof {
            assert(texts_view(quoted@) =~= before.push(q@));
            assert(in_quotes(ms).take(k as int) =~= in_quotes(ms).take(k - 1).push(q@));
        }
    }
    proof {
        assert(vocab_entries(ts).take(i as int) =~= vocab_entries(ts));
        assert(in_quotes(ms).take(k as int) =~= in_quotes(ms));
        assert(entries@.len() == texts_view(entries@).len());
        assert(quoted@.len() == texts_view(quoted@).len());
        assert(entries@.map_values(|t: String| t@) =~= vocab_entries(ts));
        assert(quoted@.map_values(|t: String| t@) =~= in_quotes(ms));
    }
    let mut s = "{\n  \"version\": \"1.0\",\n  \"added_tokens\": [\n    {\"id\": 256, \"content\": \"<|bos|>\", \"single_word\": false, \"lstrip\": false,\n      \"rstrip\": false, \"normalized\": false, \"special\": true},\n    {\"id\": 257, \"content\": \"<|eos|>\", \"single_word\": false, \"lstrip\": false,\n      \"rstrip\": false, \"normalized\": false, \"special\": true}\n  ],\n  \"normalizer\": null,\n  \"pre_tokenizer\": {\"type\": \"ByteLevel\", \"add_prefix_space\": false, \"trim_offsets\": true, \"use_regex\": true},\n  \"post_processor\": null,\n  \"decoder\": {\"type\": \"ByteLevel\", \"add_prefix_space\": false, \"trim_offsets\": true, \"use_regex\": true},\n  \"model\": {\n    \"type\": \"BPE\",\n    \"dropout\": null, \"unk_token\": null, \"continuing_subword_prefix\": null,\n    \"end_of_word_suffix\": null, \"fuse_unk\": false, \"byte_fallback\": false,\n    \"vocab\": {".to_owned();
    s.append(join_texts(&entries, ", ").as_str());
    s.append("},\n    \"merges\": [");
    s.append(join_texts(&quoted, ", ").as_str());
    s.append("]\n  }\n}");
    s
}

} // verus!
