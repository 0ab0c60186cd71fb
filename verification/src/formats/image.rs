//! GGUF images: writing the metadata, the tensor infos and the data of a model,
//! and that parsing an image gives them back.

use vstd::arithmetic::power2::{is_pow2, is_pow2_equiv, lemma2_to64, lemma_pow2};
use vstd::prelude::*;
use vstd::utf8::encode_utf8;

use crate::bytes::{
    le_bytes, le_value, lemma_le_bytes_len, lemma_le_round_trip, lemma_pow256_values, put_bytes,
    put_le, signed,
};
use crate::formats::desc::{byte_len, checked_product, texts_view, DType, DTypeV, TensorV};
use crate::formats::error::Fault;
use crate::formats::gguf::value::{next_items, next_value, ValueV};
use crate::formats::gguf::{
    alignment_fault, alignment_of, all_renamed, described, first_misaligned, hyperparams_of, known_len, magic, next_dims,
    next_entries, next_entry, next_tensor, next_tensors, parsed, round_up, text_at, EntryV,
};
use crate::formats::limits::{
    MAX_ARRAY_ELEMS, MAX_DIMS, MAX_KV_PAIRS, MAX_STRING_BYTES, MAX_TENSORS,
};
use crate::formats::read::{next_le, next_string, next_u32, next_u64};

verus! {

/// A text: its length in bytes as a `u64`, then its bytes in UTF-8.
pub open spec fn str_bytes(s: Seq<char>) -> Seq<u8> {
    le_bytes(encode_utf8(s).len(), 8) + encode_utf8(s)
}

/// Appends a text.
pub fn put_str(out: &mut Vec<u8>, s: &str)
    ensures
        final(out)@ == old(out)@ + str_bytes(s@),
{
    let ghost start = out@;
    let bytes = s.as_bytes();
    put_le(out, bytes.len() as u64, 8);
    put_bytes(out, bytes);
    proof {
        assert(out@ =~= start + str_bytes(s@));
    }
}

/// The values that the writers store.
#[verifier::ext_equal]
pub enum Stored {
    U32(u32),
    F32(u32),
    Text(Seq<char>),
    Texts(Seq<Seq<char>>),
    I32s(Seq<i32>),
    Bool(bool),
}

/// An `i32` in two's complement.
pub open spec fn i32_bits(v: i32) -> nat {
    if v < 0 {
        (v + 0x1_0000_0000) as nat
    } else {
        v as nat
    }
}

/// The first `k` texts, one after the other.
pub open spec fn texts_bytes(s: Seq<Seq<char>>, k: nat) -> Seq<u8>
    decreases k,
{
    if k == 0 {
        Seq::empty()
    } else {
        texts_bytes(s, (k - 1) as nat) + str_bytes(s[k - 1])
    }
}

/// The first `k` integers, one after the other.
pub open spec fn i32s_bytes(s: Seq<i32>, k: nat) -> Seq<u8>
    decreases k,
{
    if k == 0 {
        Seq::empty()
    } else {
        i32s_bytes(s, (k - 1) as nat) + le_bytes(i32_bits(s[k - 1]), 4)
    }
}

/// The type id of a stored value.
pub open spec fn stored_type(v: Stored) -> nat {
    match v {
        Stored::U32(_) => 4,
        Stored::F32(_) => 6,
        Stored::Text(_) => 8,
        Stored::Texts(_) => 9,
        Stored::I32s(_) => 9,
        Stored::Bool(_) => 7,
    }
}

/// The bytes of a stored value.
pub open spec fn stored_bytes(v: Stored) -> Seq<u8> {
    match v {
        Stored::U32(x) => le_bytes(x as nat, 4),
        Stored::F32(x) => le_bytes(x as nat, 4),
        Stored::Text(s) => str_bytes(s),
        Stored::Texts(s) => le_bytes(8, 4) + le_bytes(s.len(), 8) + texts_bytes(s, s.len()),
        Stored::I32s(s) => le_bytes(5, 4) + le_bytes(s.len(), 8) + i32s_bytes(s, s.len()),
        Stored::Bool(b) => seq![if b {
            1u8
        } else {
            0u8
        }],
    }
}

/// A metadata entry: its key, the type of its value, its value.
pub open spec fn kv_bytes(key: Seq<char>, v: Stored) -> Seq<u8> {
    str_bytes(key) + le_bytes(stored_type(v), 4) + stored_bytes(v)
}

/// Appends an entry with a `u32`.
pub fn put_kv_u32(out: &mut Vec<u8>, key: &str, v: u32)
    ensures
        final(out)@ == old(out)@ + kv_bytes(key@, Stored::U32(v)),
{
    let ghost start = out@;
    put_str(out, key);
    put_le(out, 4, 4);
    put_le(out, v as u64, 4);
    proof {
        assert(out@ =~= start + kv_bytes(key@, Stored::U32(v)));
    }
}

/// Appends an entry with a single-precision number, given as its bits.
pub fn put_kv_f32(out: &mut Vec<u8>, key: &str, v: u32)
    ensures
        final(out)@ == old(out)@ + kv_bytes(key@, Stored::F32(v)),
{
    let ghost start = out@;
    put_str(out, key);
    put_le(out, 6, 4);
    put_le(out, v as u64, 4);
    proof {
        assert(out@ =~= start + kv_bytes(key@, Stored::F32(v)));
    }
}

/// Appends an entry with a text.
pub fn put_kv_str(out: &mut Vec<u8>, key: &str, v: &str)
    ensures
        final(out)@ == old(out)@ + kv_bytes(key@, Stored::Text(v@)),
{
    let ghost start = out@;
    put_str(out, key);
    put_le(out, 8, 4);
    put_str(out, v);
    proof {
        assert(out@ =~= start + kv_bytes(key@, Stored::Text(v@)));
    }
}

/// Appends an entry with an array of texts.
pub fn put_kv_str_array(out: &mut Vec<u8>, key: &str, items: &Vec<String>)
    ensures
        final(out)@ == old(out)@ + kv_bytes(key@, Stored::Texts(texts_view(items@))),
{
    let ghost start = out@;
    let ghost all = texts_view(items@);
    put_str(out, key);
    put_le(out, 9, 4);
    put_le(out, 8, 4);
    put_le(out, items.len() as u64, 8);
    let ghost head = out@;
    let mut i: usize = 0;
    proof {
        assert(head + texts_bytes(all, 0) =~= head);
    }
    while i < items.len()
        invariant
            i <= items@.len(),
            all == texts_view(items@),
            out@ == head + texts_bytes(all, i as nat),
        decreases items.len() - i,
    {
        put_str(out, items[i].as_str());
        i += 1;
        proof {
            assert(out@ =~= head + texts_bytes(all, i as nat));
        }
    }
    proof {
        assert(out@ =~= start + kv_bytes(key@, Stored::Texts(all)));
    }
}

/// Appends an entry with an array of integers.
pub fn put_kv_i32_array(out: &mut Vec<u8>, key: &str, items: &Vec<i32>)
    ensures
        final(out)@ == old(out)@ + kv_bytes(key@, Stored::I32s(items@)),
{
    let ghost start = out@;
    put_str(out, key);
    put_le(out, 9, 4);
    put_le(out, 5, 4);
    put_le(out, items.len() as u64, 8);
    let ghost head = out@;
    let mut i: usize = 0;
    proof {
        assert(head + i32s_bytes(items@, 0) =~= head);
    }
    while i < items.len()
        invariant
            i <= items@.len(),
            out@ == head + i32s_bytes(items@, i as nat),
        decreases items.len() - i,
    {
        let x: i64 = items[i] as i64;
        let bits: u64 = if x < 0 {
            (x + 0x1_0000_0000) as u64
        } else {
            x as u64
        };
        put_le(out, bits, 4);
        i += 1;
        proof {
            assert(out@ =~= head + i32s_bytes(items@, i as nat));
        }
    }
    proof {
        assert(out@ =~= start + kv_bytes(key@, Stored::I32s(items@)));
    }
}

/// Appends an entry with a truth value.
pub fn put_kv_bool(out: &mut Vec<u8>, key: &str, v: bool)
    ensures
        final(out)@ == old(out)@ + kv_bytes(key@, Stored::Bool(v)),
{
    let ghost start = out@;
    put_str(out, key);
    put_le(out, 7, 4);
    out.push(
        if v {
            1
        } else {
            0
        },
    );
    proof {
        assert(out@ =~= start + kv_bytes(key@, Stored::Bool(v)));
    }
}

/// A tensor with its data.
#[derive(Debug)]
pub struct FixtureTensor {
    pub name: String,
    pub shape: Vec<u64>,
    pub dtype: DType,
    pub data: Vec<u8>,
}

/// The model of a [`FixtureTensor`].
#[verifier::ext_equal]
pub struct FixtureV {
    pub name: Seq<char>,
    pub shape: Seq<u64>,
    pub dtype: DTypeV,
    pub data: Seq<u8>,
}

impl View for FixtureTensor {
    type V = FixtureV;

    open spec fn view(&self) -> FixtureV {
        FixtureV {
            name: self.name@,
            shape: self.shape@,
            dtype: self.dtype@,
            data: self.data@,
        }
    }
}

/// The models of a list of tensors with their data.
pub open spec fn fixtures_view(s: Seq<FixtureTensor>) -> Seq<FixtureV> {
    s.map_values(|t: FixtureTensor| t@)
}

/// Whether a tensor can be written: its rank fits and its element type has an id.
pub open spec fn writable(t: FixtureV) -> bool {
    t.shape.len() <= u32::MAX && !(t.dtype is Unsupported)
}

/// The ggml type id of a supported element type.
pub open spec fn dtype_id(d: DTypeV) -> nat {
    match d {
        DTypeV::F32 => 0,
        DTypeV::F16 => 1,
        DTypeV::Q8_0 => 8,
        DTypeV::Q4_K => 12,
        DTypeV::BF16 => 30,
        DTypeV::Unsupported(_) => arbitrary(),
    }
}

/// The ggml type id of a supported element type.
pub fn ggml_dtype_id(d: &DType) -> (id: u32)
    requires
        !(d@ is Unsupported),
    ensures
        id == dtype_id(d@),
{
    match d {
        DType::F32 => 0,
        DType::F16 => 1,
        DType::Q8_0 => 8,
        DType::Q4_K => 12,
        DType::BF16 => 30,
        DType::Unsupported(_) => 0,
    }
}

/// Bytes of data, rounded up to the alignment of the data section.
pub open spec fn padded_len(n: nat) -> nat {
    round_up(n as int, 32) as nat
}

/// Where the data of tensor `k` begins, from the start of the data section.
pub open spec fn offset_of(ts: Seq<FixtureV>, k: nat) -> nat
    decreases k,
{
    if k == 0 {
        0
    } else {
        offset_of(ts, (k - 1) as nat) + padded_len(ts[k - 1].data.len())
    }
}

/// The last `k` dimensions of a shape, from the last on.
pub open spec fn dims_bytes(shape: Seq<u64>, k: nat) -> Seq<u8>
    decreases k,
{
    if k == 0 {
        Seq::empty()
    } else {
        dims_bytes(shape, (k - 1) as nat) + le_bytes(shape[shape.len() - k] as nat, 8)
    }
}

/// The info of a tensor whose data begins at `offset`.
pub open spec fn info_bytes(t: FixtureV, offset: nat) -> Seq<u8> {
    str_bytes(t.name) + le_bytes(t.shape.len(), 4) + dims_bytes(t.shape, t.shape.len()) + le_bytes(
        dtype_id(t.dtype),
        4,
    ) + le_bytes(offset, 8)
}

/// The infos of the first `k` tensors.
pub open spec fn infos_bytes(ts: Seq<FixtureV>, k: nat) -> Seq<u8>
    decreases k,
{
    if k == 0 {
        Seq::empty()
    } else {
        infos_bytes(ts, (k - 1) as nat) + info_bytes(ts[k - 1], offset_of(ts, (k - 1) as nat))
    }
}

/// The first `k` byte strings, one after the other.
pub open spec fn joined(s: Seq<Seq<u8>>, k: nat) -> Seq<u8>
    decreases k,
{
    if k == 0 {
        Seq::empty()
    } else {
        joined(s, (k - 1) as nat) + s[k - 1]
    }
}

/// `s`, filled with zeros up to a multiple of 32 bytes.
pub open spec fn padded(s: Seq<u8>) -> Seq<u8> {
    s + Seq::new((padded_len(s.len()) - s.len()) as nat, |i: int| 0u8)
}

/// The data of the first `k` tensors, each filled up to a multiple of 32 bytes.
pub open spec fn data_bytes(ts: Seq<FixtureV>, k: nat) -> Seq<u8>
    decreases k,
{
    if k == 0 {
        Seq::empty()
    } else {
        data_bytes(ts, (k - 1) as nat) + padded(ts[k - 1].data)
    }
}

/// The header of an image: magic, version 3, counts, metadata, tensor infos.
pub open spec fn header_bytes(ts: Seq<FixtureV>, kvs: Seq<Seq<u8>>) -> Seq<u8> {
    magic() + le_bytes(3, 4) + le_bytes(ts.len(), 8) + le_bytes(kvs.len(), 8) + joined(
        kvs,
        kvs.len(),
    ) + infos_bytes(ts, ts.len())
}

/// An image: the header, filled up to a multiple of 32 bytes, then the data.
pub open spec fn image(ts: Seq<FixtureV>, kvs: Seq<Seq<u8>>) -> Seq<u8> {
    padded(header_bytes(ts, kvs)) + data_bytes(ts, ts.len())
}

/// Fills up to a multiple of 32 bytes.
fn pad(out: &mut Vec<u8>)
    ensures
        final(out)@ == padded(old(out)@),
{
    let ghost start = out@;
    let ghost full = padded_len(start.len());
    proof {
        lemma_padded_len(start.len());
        assert(start + Seq::new(0, |i: int| 0u8) =~= start);
    }
    while out.len() % 32 != 0
        invariant
            start.len() <= out@.len() <= full,
            full == padded_len(start.len()),
            full % 32 == 0,
            full < start.len() + 32,
            out@ == start + Seq::new((out@.len() - start.len()) as nat, |i: int| 0u8),
        decreases full - out@.len(),
    {
        out.push(0);
        proof {
            let n = (out@.len() - start.len()) as nat;
            assert(start + Seq::new(n, |i: int| 0u8) =~= (start + Seq::new(
                (n - 1) as nat,
                |i: int| 0u8,
            )).push(0));
        }
    }
    proof {
        assert(out@.len() == full);
        assert(out@ =~= padded(start));
    }
}

/// Rounding up to a multiple of 32 adds less than 32.
proof fn lemma_padded_len(n: nat)
    ensures
        padded_len(n) % 32 == 0,
        n <= padded_len(n) < n + 32,
        padded_len(n) == (n + 31) / 32 * 32,
{
}

/// The models of a list of byte strings.
pub open spec fn byte_strings(s: Seq<Vec<u8>>) -> Seq<Seq<u8>> {
    s.map_values(|v: Vec<u8>| v@)
}

/// Appends the info of a tensor whose data begins at `offset`.
fn put_info(out: &mut Vec<u8>, t: &FixtureTensor, offset: u64)
    requires
        t.shape@.len() <= u32::MAX,
        !(t.dtype@ is Unsupported),
    ensures
        final(out)@ == old(out)@ + info_bytes(t@, offset as nat),
{
    let ghost start = out@;
    put_str(out, t.name.as_str());
    put_le(out, t.shape.len() as u64, 4);
    let ghost head = out@;
    let n: usize = t.shape.len();
    let mut k: usize = 0;
    proof {
        assert(head + dims_bytes(t.shape@, 0) =~= head);
    }
    while k < n
        invariant
            k <= n,
            n == t.shape@.len(),
            out@ == head + dims_bytes(t.shape@, k as nat),
        decreases n - k,
    {
        k += 1;
        put_le(out, t.shape[n - k], 8);
        proof {
            assert(out@ =~= head + dims_bytes(t.shape@, k as nat));
        }
    }
    put_le(out, ggml_dtype_id(&t.dtype) as u64, 4);
    put_le(out, offset, 8);
    proof {
        assert(out@ =~= start + info_bytes(t@, offset as nat));
    }
}

/// Offsets grow from tensor to tensor.
proof fn lemma_offsets_grow(ts: Seq<FixtureV>, j: nat, k: nat)
    requires
        j <= k,
    ensures
        offset_of(ts, j) <= offset_of(ts, k),
    decreases k - j,
{
    if j < k {
        lemma_offsets_grow(ts, j, (k - 1) as nat);
    }
}

/// Serializes tensors behind ready-made metadata entries. Each info's offset is
/// relative to the data section, which begins at a multiple of 32 bytes.
pub fn assemble_gguf(tensors: &Vec<FixtureTensor>, kvs: &Vec<Vec<u8>>) -> (out: Vec<u8>)
    requires
        forall|i: int| 0 <= i < tensors@.len() ==> writable(#[trigger] tensors@[i]@),
        offset_of(fixtures_view(tensors@), tensors@.len()) <= u64::MAX,
    ensures
        out@ == image(fixtures_view(tensors@), byte_strings(kvs@)),
{
    let ghost ts = fixtures_view(tensors@);
    let ghost ks = byte_strings(kvs@);
    let mut out: Vec<u8> = Vec::new();
    out.push(0x47);
    out.push(0x47);
    out.push(0x55);
    out.push(0x46);
    proof {
        assert(out@ =~= magic());
    }
    put_le(&mut out, 3, 4);
    put_le(&mut out, tensors.len() as u64, 8);
    put_le(&mut out, kvs.len() as u64, 8);
    let ghost head = out@;
    let mut i: usize = 0;
    proof {
        assert(head + joined(ks, 0) =~= head);
    }
    while i < kvs.len()
        invariant
            i <= kvs@.len(),
            ks == byte_strings(kvs@),
            out@ == head + joined(ks, i as nat),
        decreases kvs.len() - i,
    {
        put_bytes(&mut out, kvs[i].as_slice());
        i += 1;
        proof {
            assert(out@ =~= head + joined(ks, i as nat));
        }
    }
    let ghost before_infos = out@;
    let mut offset: u64 = 0;
    let mut k: usize = 0;
    proof {
        assert(before_infos + infos_bytes(ts, 0) =~= before_infos);
    }
    while k < tensors.len()
        invariant
            k <= tensors@.len(),
            ts == fixtures_view(tensors@),
            forall|j: int| 0 <= j < tensors@.len() ==> writable(#[trigger] tensors@[j]@),
            offset_of(ts, tensors@.len()) <= u64::MAX,
            offset == offset_of(ts, k as nat),
            out@ == before_infos + infos_bytes(ts, k as nat),
        decreases tensors.len() - k,
    {
        assert(writable(tensors@[k as int]@));
        put_info(&mut out, &tensors[k], offset);
        let n: usize = tensors[k].data.len();
        proof {
            lemma_offsets_grow(ts, k as nat + 1, tensors@.len());
            lemma_padded_len(n as nat);
            assert(ts[k as int].data.len() == n);
        }
        let rest: usize = n % 32;
        let len: u64 = if rest == 0 {
            n as u64
        } else {
            n as u64 - rest as u64 + 32
        };
        offset = offset + len;
        k += 1;
        proof {
            assert(out@ =~= before_infos + infos_bytes(ts, k as nat));
        }
    }
    proof {
        assert(out@ =~= header_bytes(ts, ks));
    }
    pad(&mut out);
    let ghost full_head = out@;
    let mut t: usize = 0;
    proof {
        lemma_padded_len(header_bytes(ts, ks).len());
        assert(full_head + data_bytes(ts, 0) =~= full_head);
    }
    while t < tensors.len()
        invariant
            t <= tensors@.len(),
            ts == fixtures_view(tensors@),
            full_head.len() % 32 == 0,
            out@ == full_head + data_bytes(ts, t as nat),
            out@.len() % 32 == 0,
        decreases tensors.len() - t,
    {
        let ghost before = out@;
        put_bytes(&mut out, tensors[t].data.as_slice());
        let ghost data = tensors@[t as int].data@;
        pad(&mut out);
        t += 1;
        proof {
            lemma_padded_len(data.len());
            lemma_padded_len((before + data).len());
            assert(padded(before + data) =~= before + padded(data));
            assert(out@ =~= full_head + data_bytes(ts, t as nat));
        }
    }
    out
}

/// Whether `s` stands in `data` from `pos` on.
pub open spec fn holds_at(data: Seq<u8>, pos: int, s: Seq<u8>) -> bool {
    0 <= pos && pos + s.len() <= data.len() && data.subrange(pos, pos + s.len()) == s
}

/// Where one byte string after another stands, each stands.
proof fn lemma_holds_split(data: Seq<u8>, pos: int, a: Seq<u8>, b: Seq<u8>)
    requires
        holds_at(data, pos, a + b),
    ensures
        holds_at(data, pos, a),
        holds_at(data, pos + a.len(), b),
{
    let w = data.subrange(pos, pos + (a + b).len());
    assert(data.subrange(pos, pos + a.len()) =~= w.subrange(0, a.len() as int));
    assert(w.subrange(0, a.len() as int) =~= a);
    assert(data.subrange(pos + a.len(), pos + a.len() + b.len()) =~= w.subrange(
        a.len() as int,
        (a + b).len() as int,
    ));
    assert(w.subrange(a.len() as int, (a + b).len() as int) =~= b);
}

/// A number that was written is read back.
proof fn lemma_read_le(data: Seq<u8>, pos: int, v: nat, n: nat, context: Seq<char>)
    requires
        holds_at(data, pos, le_bytes(v, n)),
        v < crate::bytes::pow256(n),
    ensures
        le_bytes(v, n).len() == n,
        next_le(data, pos, n as int, context) == Ok::<(nat, int), Fault>((v, pos + n)),
{
    lemma_le_bytes_len(v, n);
    lemma_le_round_trip(v, n);
}

/// A text that was written is read back.
proof fn lemma_read_str(data: Seq<u8>, pos: int, s: Seq<char>)
    requires
        holds_at(data, pos, str_bytes(s)),
        encode_utf8(s).len() <= MAX_STRING_BYTES,
    ensures
        next_string(data, pos) == Ok::<(Seq<char>, int), Fault>((s, pos + str_bytes(s).len())),
{
    let u = encode_utf8(s);
    lemma_pow256_values();
    lemma_le_bytes_len(u.len(), 8);
    lemma_holds_split(data, pos, le_bytes(u.len(), 8), u);
    lemma_read_le(data, pos, u.len(), 8, "u64"@);
    vstd::utf8::encode_utf8_valid_utf8(s);
    vstd::utf8::encode_utf8_decode_utf8(s);
}

/// The metadata value that a stored value is read as.
pub open spec fn stored_value(v: Stored) -> ValueV {
    match v {
        Stored::U32(x) => ValueV::U32(x),
        Stored::F32(x) => ValueV::F32(x),
        Stored::Text(s) => ValueV::String(s),
        Stored::Texts(s) => ValueV::Array(s.map_values(|t: Seq<char>| ValueV::String(t))),
        Stored::I32s(s) => ValueV::Array(s.map_values(|x: i32| ValueV::I32(x))),
        Stored::Bool(b) => ValueV::Bool(b),
    }
}

/// Whether a text is short enough to be read back.
pub open spec fn short_text(s: Seq<char>) -> bool {
    encode_utf8(s).len() <= MAX_STRING_BYTES
}

/// Whether a stored value is within the limits of the parser.
pub open spec fn storable(v: Stored) -> bool {
    match v {
        Stored::Text(s) => short_text(s),
        Stored::Texts(s) => s.len() <= MAX_ARRAY_ELEMS && forall|i: int|
            0 <= i < s.len() ==> short_text(#[trigger] s[i]),
        Stored::I32s(s) => s.len() <= MAX_ARRAY_ELEMS,
        _ => true,
    }
}

/// Texts that were written are read back.
proof fn lemma_read_texts(data: Seq<u8>, pos: int, s: Seq<Seq<char>>, k: nat)
    requires
        k <= s.len(),
        holds_at(data, pos, texts_bytes(s, k)),
        forall|i: int| 0 <= i < s.len() ==> short_text(#[trigger] s[i]),
    ensures
        next_items(data, pos, 8, 1, k) == Ok::<(Seq<ValueV>, int), Fault>(
            (
                s.map_values(|t: Seq<char>| ValueV::String(t)).take(k as int),
                pos + texts_bytes(s, k).len(),
            ),
        ),
    decreases k,
{
    let all = s.map_values(|t: Seq<char>| ValueV::String(t));
    if k == 0 {
        assert(all.take(0) =~= Seq::<ValueV>::empty());
    } else {
        let prev = texts_bytes(s, (k - 1) as nat);
        lemma_holds_split(data, pos, prev, str_bytes(s[k - 1]));
        lemma_read_texts(data, pos, s, (k - 1) as nat);
        assert(short_text(s[k - 1]));
        lemma_read_str(data, pos + prev.len(), s[k - 1]);
        assert(next_value(data, pos + prev.len(), 8, 1) == Ok::<(ValueV, int), Fault>(
            (ValueV::String(s[k - 1]), pos + prev.len() + str_bytes(s[k - 1]).len()),
        ));
        assert(all.take(k as int) =~= all.take(k - 1).push(ValueV::String(s[k - 1])));
    }
}

/// Integers that were written are read back.
proof fn lemma_read_i32s(data: Seq<u8>, pos: int, s: Seq<i32>, k: nat)
    requires
        k <= s.len(),
        holds_at(data, pos, i32s_bytes(s, k)),
    ensures
        next_items(data, pos, 5, 1, k) == Ok::<(Seq<ValueV>, int), Fault>(
            (
                s.map_values(|x: i32| ValueV::I32(x)).take(k as int),
                pos + i32s_bytes(s, k).len(),
            ),
        ),
    decreases k,
{
    let all = s.map_values(|x: i32| ValueV::I32(x));
    if k == 0 {
        assert(all.take(0) =~= Seq::<ValueV>::empty());
    } else {
        let prev = i32s_bytes(s, (k - 1) as nat);
        let x = s[k - 1];
        lemma_holds_split(data, pos, prev, le_bytes(i32_bits(x), 4));
        lemma_read_i32s(data, pos, s, (k - 1) as nat);
        lemma_pow256_values();
        lemma_read_le(data, pos + prev.len(), i32_bits(x), 4, "i32"@);
        assert(signed(i32_bits(x), 0x8000_0000) == x);
        assert(next_value(data, pos + prev.len(), 5, 1) == Ok::<(ValueV, int), Fault>(
            (ValueV::I32(x), pos + prev.len() + 4),
        ));
        assert(all.take(k as int) =~= all.take(k - 1).push(ValueV::I32(x)));
    }
}

/// A value that was written is read back.
proof fn lemma_read_value(data: Seq<u8>, pos: int, v: Stored)
    requires
        holds_at(data, pos, stored_bytes(v)),
        storable(v),
    ensures
        next_value(data, pos, stored_type(v) as u32, 0) == Ok::<(ValueV, int), Fault>(
            (stored_value(v), pos + stored_bytes(v).len()),
        ),
{
    lemma_pow256_values();
    match v {
        Stored::U32(x) => {
            lemma_read_le(data, pos, x as nat, 4, "u32"@);
        },
        Stored::F32(x) => {
            lemma_read_le(data, pos, x as nat, 4, "f32"@);
        },
        Stored::Text(s) => {
            lemma_read_str(data, pos, s);
        },
        Stored::Texts(s) => {
            let head = le_bytes(8, 4) + le_bytes(s.len(), 8);
            lemma_holds_split(data, pos, head, texts_bytes(s, s.len()));
            lemma_holds_split(data, pos, le_bytes(8, 4), le_bytes(s.len(), 8));
            lemma_read_le(data, pos, 8, 4, "u32"@);
            lemma_read_le(data, pos + 4, s.len(), 8, "u64"@);
            lemma_read_texts(data, pos + 12, s, s.len());
            let all = s.map_values(|t: Seq<char>| ValueV::String(t));
            assert(all.take(s.len() as int) =~= all);
        },
        Stored::I32s(s) => {
            let head = le_bytes(5, 4) + le_bytes(s.len(), 8);
            lemma_holds_split(data, pos, head, i32s_bytes(s, s.len()));
            lemma_holds_split(data, pos, le_bytes(5, 4), le_bytes(s.len(), 8));
            lemma_read_le(data, pos, 5, 4, "u32"@);
            lemma_read_le(data, pos + 4, s.len(), 8, "u64"@);
            lemma_read_i32s(data, pos + 12, s, s.len());
            let all = s.map_values(|x: i32| ValueV::I32(x));
            assert(all.take(s.len() as int) =~= all);
        },
        Stored::Bool(b) => {
            let byte = if b {
                1u8
            } else {
                0u8
            };
            let w = data.subrange(pos, pos + 1);
            assert(w[0] == byte);
            assert(w.skip(1) =~= Seq::<u8>::empty());
            assert(le_value(w.skip(1)) == 0);
            assert(le_value(w) == byte);
        },
    }
}

/// A metadata entry to be written.
#[verifier::ext_equal]
pub struct StoredEntry {
    pub key: Seq<char>,
    pub value: Stored,
}

/// The entry that a stored entry is read as.
pub open spec fn read_back(e: StoredEntry) -> EntryV {
    EntryV { key: e.key, value: stored_value(e.value) }
}

/// The entries that stored entries are read as.
pub open spec fn read_back_all(es: Seq<StoredEntry>) -> Seq<EntryV> {
    es.map_values(|e: StoredEntry| read_back(e))
}

/// The bytes of stored entries.
pub open spec fn entries_bytes(es: Seq<StoredEntry>) -> Seq<Seq<u8>> {
    es.map_values(|e: StoredEntry| kv_bytes(e.key, e.value))
}

/// Whether an entry is within the limits of the parser.
pub open spec fn storable_entry(e: StoredEntry) -> bool {
    short_text(e.key) && storable(e.value)
}

/// An entry that was written is read back.
proof fn lemma_read_entry(data: Seq<u8>, pos: int, e: StoredEntry)
    requires
        holds_at(data, pos, kv_bytes(e.key, e.value)),
        storable_entry(e),
    ensures
        next_entry(data, pos) == Ok::<(EntryV, int), Fault>(
            (read_back(e), pos + kv_bytes(e.key, e.value).len()),
        ),
{
    let k = str_bytes(e.key);
    let t = le_bytes(stored_type(e.value), 4);
    let b = stored_bytes(e.value);
    lemma_pow256_values();
    lemma_holds_split(data, pos, k + t, b);
    lemma_holds_split(data, pos, k, t);
    lemma_read_str(data, pos, e.key);
    lemma_read_le(data, pos + k.len(), stored_type(e.value), 4, "u32"@);
    lemma_read_value(data, pos + k.len() + 4, e.value);
}

/// Entries that were written are read back.
proof fn lemma_read_entries(data: Seq<u8>, pos: int, es: Seq<StoredEntry>, k: nat)
    requires
        k <= es.len(),
        holds_at(data, pos, joined(entries_bytes(es), k)),
        forall|i: int| 0 <= i < es.len() ==> storable_entry(#[trigger] es[i]),
    ensures
        next_entries(data, pos, k) == Ok::<(Seq<EntryV>, int), Fault>(
            (read_back_all(es).take(k as int), pos + joined(entries_bytes(es), k).len()),
        ),
    decreases k,
{
    let bytes = entries_bytes(es);
    if k == 0 {
        assert(read_back_all(es).take(0) =~= Seq::<EntryV>::empty());
    } else {
        let prev = joined(bytes, (k - 1) as nat);
        let e = es[k - 1];
        assert(bytes[k - 1] == kv_bytes(e.key, e.value));
        lemma_holds_split(data, pos, prev, bytes[k - 1]);
        lemma_read_entries(data, pos, es, (k - 1) as nat);
        assert(storable_entry(e));
        lemma_read_entry(data, pos + prev.len(), e);
        assert(read_back_all(es).take(k as int) =~= read_back_all(es).take(k - 1).push(
            read_back(e),
        ));
    }
}

/// Dimensions that were written are read back.
proof fn lemma_read_dims(data: Seq<u8>, pos: int, shape: Seq<u64>, k: nat)
    requires
        k <= shape.len(),
        holds_at(data, pos, dims_bytes(shape, k)),
    ensures
        next_dims(data, pos, k) == Ok::<(Seq<u64>, int), Fault>(
            (shape.reverse().take(k as int), pos + dims_bytes(shape, k).len()),
        ),
    decreases k,
{
    if k == 0 {
        assert(shape.reverse().take(0) =~= Seq::<u64>::empty());
    } else {
        let prev = dims_bytes(shape, (k - 1) as nat);
        let d = shape[shape.len() - k];
        lemma_holds_split(data, pos, prev, le_bytes(d as nat, 8));
        lemma_read_dims(data, pos, shape, (k - 1) as nat);
        lemma_pow256_values();
        lemma_read_le(data, pos + prev.len(), d as nat, 8, "u64"@);
        assert(shape.reverse().take(k as int) =~= shape.reverse().take(k - 1).push(d));
    }
}

/// The tensor that a written tensor is read as, under the name that it was written with.
pub open spec fn tensor_read_back(t: FixtureV, offset: nat) -> TensorV {
    TensorV {
        name: t.name,
        shape: t.shape,
        dtype: t.dtype,
        file_index: 0,
        data_offset: offset as u64,
        data_len: known_len(t.dtype, checked_product(t.shape)->0),
    }
}

/// The tensors that written tensors are read as.
pub open spec fn tensors_read_back(ts: Seq<FixtureV>) -> Seq<TensorV> {
    Seq::new(ts.len(), |i: int| tensor_read_back(ts[i], offset_of(ts, i as nat)))
}

/// Whether a tensor is within the limits of the parser.
pub open spec fn storable_tensor(t: FixtureV) -> bool {
    &&& short_text(t.name)
    &&& t.shape.len() <= MAX_DIMS
    &&& !(t.dtype is Unsupported)
    &&& checked_product(t.shape) is Some
}

/// A tensor info that was written is read back.
proof fn lemma_read_tensor(data: Seq<u8>, pos: int, t: FixtureV, offset: nat)
    requires
        holds_at(data, pos, info_bytes(t, offset)),
        storable_tensor(t),
        offset <= u64::MAX,
    ensures
        next_tensor(data, pos) == Ok::<(TensorV, int), Fault>(
            (tensor_read_back(t, offset), pos + info_bytes(t, offset).len()),
        ),
{
    let a = str_bytes(t.name);
    let b = le_bytes(t.shape.len(), 4);
    let c = dims_bytes(t.shape, t.shape.len());
    let d = le_bytes(dtype_id(t.dtype), 4);
    let e = le_bytes(offset, 8);
    lemma_pow256_values();
    lemma_holds_split(data, pos, a + b + c + d, e);
    lemma_holds_split(data, pos, a + b + c, d);
    lemma_holds_split(data, pos, a + b, c);
    lemma_holds_split(data, pos, a, b);
    lemma_read_str(data, pos, t.name);
    lemma_read_le(data, pos + a.len(), t.shape.len(), 4, "u32"@);
    lemma_read_dims(data, pos + a.len() + 4, t.shape, t.shape.len());
    lemma_read_le(data, pos + a.len() + 4 + c.len(), dtype_id(t.dtype), 4, "u32"@);
    lemma_read_le(data, pos + a.len() + 8 + c.len(), offset, 8, "u64"@);
    let dims = t.shape.reverse();
    assert(dims.take(t.shape.len() as int) =~= dims);
    assert(dims.reverse() =~= t.shape);
}

/// Tensor infos that were written are read back.
proof fn lemma_read_tensors(data: Seq<u8>, pos: int, ts: Seq<FixtureV>, k: nat)
    requires
        k <= ts.len(),
        holds_at(data, pos, infos_bytes(ts, k)),
        forall|i: int| 0 <= i < ts.len() ==> storable_tensor(#[trigger] ts[i]),
        offset_of(ts, ts.len()) <= u64::MAX,
    ensures
        next_tensors(data, pos, k) == Ok::<(Seq<TensorV>, int), Fault>(
            (tensors_read_back(ts).take(k as int), pos + infos_bytes(ts, k).len()),
        ),
    decreases k,
{
    let all = tensors_read_back(ts);
    if k == 0 {
        assert(all.take(0) =~= Seq::<TensorV>::empty());
    } else {
        let prev = infos_bytes(ts, (k - 1) as nat);
        let off = offset_of(ts, (k - 1) as nat);
        let t = ts[k - 1];
        lemma_holds_split(data, pos, prev, info_bytes(t, off));
        lemma_read_tensors(data, pos, ts, (k - 1) as nat);
        assert(storable_tensor(t));
        lemma_offsets_grow(ts, (k - 1) as nat, ts.len());
        lemma_read_tensor(data, pos + prev.len(), t, off);
        assert(all.take(k as int) =~= all.take(k - 1).push(tensor_read_back(t, off)));
    }
}

/// The parts of an image's header stand one after the other.
proof fn lemma_header_parts(ts: Seq<FixtureV>, kvs: Seq<Seq<u8>>)
    ensures
        ({
            let data = image(ts, kvs);
            let kv = joined(kvs, kvs.len());
            let info = infos_bytes(ts, ts.len());
            &&& data.len() >= 4
            &&& data.take(4) == magic()
            &&& holds_at(data, 4, le_bytes(3, 4))
            &&& holds_at(data, 8, le_bytes(ts.len(), 8))
            &&& holds_at(data, 16, le_bytes(kvs.len(), 8))
            &&& holds_at(data, 24, kv)
            &&& holds_at(data, 24 + kv.len() as int, info)
            &&& header_bytes(ts, kvs).len() == 24 + kv.len() + info.len()
        }),
{
    let data = image(ts, kvs);
    let h = header_bytes(ts, kvs);
    let v = le_bytes(3, 4);
    let nt = le_bytes(ts.len(), 8);
    let nk = le_bytes(kvs.len(), 8);
    let kv = joined(kvs, kvs.len());
    let info = infos_bytes(ts, ts.len());
    lemma_padded_len(h.len());
    lemma_le_bytes_len(3, 4);
    lemma_le_bytes_len(ts.len(), 8);
    lemma_le_bytes_len(kvs.len(), 8);
    assert(data.subrange(0, h.len() as int) =~= h);
    lemma_holds_split(data, 0, magic() + v + nt + nk + kv, info);
    lemma_holds_split(data, 0, magic() + v + nt + nk, kv);
    lemma_holds_split(data, 0, magic() + v + nt, nk);
    lemma_holds_split(data, 0, magic() + v, nt);
    lemma_holds_split(data, 0, magic(), v);
    assert(data.take(4) =~= data.subrange(0, 4));
}

/// Parsing an image gives back what was written: the metadata entries, and the
/// tensors with their names, shapes, element types and places.
pub proof fn law_image_parses_back(ts: Seq<FixtureV>, es: Seq<StoredEntry>)
    requires
        ts.len() <= MAX_TENSORS,
        es.len() <= MAX_KV_PAIRS,
        forall|i: int| 0 <= i < ts.len() ==> storable_tensor(#[trigger] ts[i]),
        forall|i: int| 0 <= i < es.len() ==> storable_entry(#[trigger] es[i]),
        offset_of(ts, ts.len()) <= u64::MAX,
    ensures
        parsed(image(ts, entries_bytes(es))) == described(
            read_back_all(es),
            tensors_read_back(ts),
            header_bytes(ts, entries_bytes(es)).len() as int,
        ),
{
    let kvs = entries_bytes(es);
    let data = image(ts, kvs);
    let kv = joined(kvs, kvs.len());
    lemma_pow256_values();
    lemma_header_parts(ts, kvs);
    lemma_read_le(data, 4, 3, 4, "u32"@);
    lemma_read_le(data, 8, ts.len(), 8, "u64"@);
    lemma_read_le(data, 16, kvs.len(), 8, "u64"@);
    lemma_read_entries(data, 24, es, es.len());
    lemma_read_tensors(data, 24 + kv.len() as int, ts, ts.len());
    assert(read_back_all(es).take(es.len() as int) =~= read_back_all(es));
    assert(tensors_read_back(ts).take(ts.len() as int) =~= tensors_read_back(ts));
    assert(next_u32(data, 4) == Ok::<(u32, int), Fault>((3, 8)));
    assert(next_u64(data, 8) == Ok::<(u64, int), Fault>((ts.len() as u64, 16)));
    assert(next_u64(data, 16) == Ok::<(u64, int), Fault>((kvs.len() as u64, 24)));
}

/// The data of the first `k` tensors takes as much room as their offsets say.
proof fn lemma_data_len(ts: Seq<FixtureV>, k: nat)
    ensures
        data_bytes(ts, k).len() == offset_of(ts, k),
    decreases k,
{
    if k > 0 {
        lemma_data_len(ts, (k - 1) as nat);
        lemma_padded_len(ts[k - 1].data.len());
    }
}

/// The data of tensor `i` stands where its offset says.
proof fn lemma_data_at(ts: Seq<FixtureV>, k: nat, i: nat)
    requires
        i < k <= ts.len(),
    ensures
        holds_at(data_bytes(ts, k), offset_of(ts, i) as int, ts[i as int].data),
    decreases k,
{
    let prev = data_bytes(ts, (k - 1) as nat);
    let block = padded(ts[k - 1].data);
    lemma_data_len(ts, (k - 1) as nat);
    lemma_data_len(ts, i);
    lemma_padded_len(ts[k - 1].data.len());
    let off = offset_of(ts, i) as int;
    let d = ts[i as int].data;
    let all = data_bytes(ts, k);
    if i == k - 1 {
        assert(all.subrange(off, off + d.len()) =~= d);
    } else {
        lemma_data_at(ts, (k - 1) as nat, i);
        assert(all.subrange(off, off + d.len()) =~= prev.subrange(off, off + d.len()));
    }
}

/// The data of every tensor of an image stands in its data section, at the offset
/// that its info gives.
pub proof fn law_image_holds_the_data(ts: Seq<FixtureV>, kvs: Seq<Seq<u8>>, i: int)
    requires
        0 <= i < ts.len(),
    ensures
        holds_at(
            image(ts, kvs),
            round_up(header_bytes(ts, kvs).len() as int, 32) + offset_of(ts, i as nat),
            ts[i].data,
        ),
{
    let h = header_bytes(ts, kvs);
    let head = padded(h);
    let all = data_bytes(ts, ts.len());
    lemma_padded_len(h.len());
    lemma_data_at(ts, ts.len(), i as nat);
    let off = offset_of(ts, i as nat) as int;
    let d = ts[i].data;
    let at = round_up(h.len() as int, 32) + off;
    assert(head.len() == round_up(h.len() as int, 32));
    assert(image(ts, kvs).subrange(at, at + d.len()) =~= all.subrange(off, off + d.len()));
}

/// Every tensor's data begins at a multiple of 32 bytes.
pub proof fn law_offsets_are_aligned(ts: Seq<FixtureV>, k: nat)
    ensures
        offset_of(ts, k) % 32 == 0,
    decreases k,
{
    if k > 0 {
        law_offsets_are_aligned(ts, (k - 1) as nat);
        lemma_padded_len(ts[k - 1].data.len());
    }
}

/// An entry that a writer puts into an empty buffer reads back, whatever stands behind
/// it: first its key, then the type of its value, then the value, and the reader is left
/// at what stands behind.
pub proof fn law_written_entry_reads_back(key: Seq<char>, v: Stored, tail: Seq<u8>)
    requires
        short_text(key),
        storable(v),
    ensures
        ({
            let entry = kv_bytes(key, v);
            let data = entry + tail;
            let p = str_bytes(key).len() as int;
            let t = stored_type(v) as u32;
            &&& next_string(data, 0) == Ok::<(Seq<char>, int), Fault>((key, p))
            &&& next_u32(data, p) == Ok::<(u32, int), Fault>((t, p + 4))
            &&& next_value(data, p + 4, t, 0) == Ok::<(ValueV, int), Fault>(
                (stored_value(v), entry.len() as int),
            )
            &&& next_entry(data, 0) == Ok::<(EntryV, int), Fault>(
                (EntryV { key, value: stored_value(v) }, entry.len() as int),
            )
        }),
{
    let k = str_bytes(key);
    let t = le_bytes(stored_type(v), 4);
    let b = stored_bytes(v);
    let data = kv_bytes(key, v) + tail;
    lemma_pow256_values();
    assert(data.subrange(0, kv_bytes(key, v).len() as int) =~= kv_bytes(key, v));
    lemma_holds_split(data, 0, k + t, b);
    lemma_holds_split(data, 0, k, t);
    lemma_read_str(data, 0, key);
    lemma_read_le(data, k.len() as int, stored_type(v), 4, "u32"@);
    lemma_read_value(data, k.len() as int + 4, v);
}

/// The length of an image is a multiple of 32 bytes.
pub proof fn law_image_is_whole_blocks(ts: Seq<FixtureV>, kvs: Seq<Seq<u8>>)
    ensures
        image(ts, kvs).len() == padded_len(header_bytes(ts, kvs).len()) + offset_of(ts, ts.len()),
        image(ts, kvs).len() % 32 == 0,
{
    lemma_padded_len(header_bytes(ts, kvs).len());
    lemma_data_len(ts, ts.len());
    law_offsets_are_aligned(ts, ts.len());
}

/// The data of a tensor ends before that of the next begins.
pub proof fn law_data_does_not_overlap(ts: Seq<FixtureV>, i: int, j: int)
    requires
        0 <= i < j < ts.len(),
    ensures
        offset_of(ts, i as nat) + ts[i].data.len() <= offset_of(ts, j as nat),
{
    lemma_offsets_grow(ts, (i + 1) as nat, j as nat);
    lemma_padded_len(ts[i].data.len());
}

/// Where every tensor stands at a multiple of 32, none is the first that does not.
proof fn lemma_none_misaligned(ts: Seq<FixtureV>, k: nat)
    requires
        k <= ts.len(),
        offset_of(ts, ts.len()) <= u64::MAX,
    ensures
        first_misaligned(tensors_read_back(ts).take(k as int), 32) is None,
    decreases k,
{
    let all = tensors_read_back(ts);
    if k > 0 {
        lemma_none_misaligned(ts, (k - 1) as nat);
        assert(all.take(k as int).drop_last() =~= all.take(k - 1));
        law_offsets_are_aligned(ts, (k - 1) as nat);
        lemma_offsets_grow(ts, (k - 1) as nat, ts.len());
    }
}

/// Tensors of an image are aligned to 32 bytes.
pub proof fn lemma_all_aligned(ts: Seq<FixtureV>)
    requires
        offset_of(ts, ts.len()) <= u64::MAX,
    ensures
        alignment_fault(tensors_read_back(ts), 32) is None,
{
    let all = tensors_read_back(ts);
    assert(all.take(ts.len() as int) =~= all);
    lemma_none_misaligned(ts, ts.len());
    assert(is_pow2(32)) by {
        lemma2_to64();
        lemma_pow2(5);
        is_pow2_equiv(32);
    }
}

/// An image of tensors with metadata that gives the hyperparameters is a model with
/// those tensors, under their canonical names. Each one's data stands where the model says, aligned, as long as the
/// model says, and apart from that of the others.
pub proof fn law_image_is_a_model(ts: Seq<FixtureV>, es: Seq<StoredEntry>)
    requires
        ts.len() <= MAX_TENSORS,
        es.len() <= MAX_KV_PAIRS,
        forall|i: int| 0 <= i < ts.len() ==> storable_tensor(#[trigger] ts[i]),
        forall|i: int| 0 <= i < es.len() ==> storable_entry(#[trigger] es[i]),
        forall|i: int|
            0 <= i < ts.len() ==> byte_len(
                (#[trigger] ts[i]).dtype,
                checked_product(ts[i].shape)->0,
            ) == Some(ts[i].data.len()),
        image(ts, entries_bytes(es)).len() <= u64::MAX,
        alignment_of(read_back_all(es)) == 32,
        text_at(read_back_all(es), "general.architecture"@) is Some,
        hyperparams_of(
            read_back_all(es),
            tensors_read_back(ts),
            text_at(read_back_all(es), "general.architecture"@)->0,
        ) is Ok,
    ensures
        ({
            let data = image(ts, entries_bytes(es));
            let m = parsed(data)->Ok_0;
            let base = m.data_section_offsets[0] as int;
            &&& data.len() % 32 == 0
            &&& parsed(data) is Ok
            &&& m.tensors == all_renamed(tensors_read_back(ts))
            &&& m.data_section_offsets.len() == 1
            &&& base % 32 == 0
            &&& forall|i: int|
                0 <= i < ts.len() ==> {
                    let t = #[trigger] m.tensors[i];
                    &&& t.shape == ts[i].shape && t.dtype == ts[i].dtype
                    &&& t.data_offset % 32 == 0
                    &&& t.data_len == Some(ts[i].data.len() as u64)
                    &&& holds_at(data, base + t.data_offset, ts[i].data)
                }
            &&& forall|i: int, j: int|
                0 <= i < j < ts.len() ==> (#[trigger] m.tensors[i]).data_offset + ts[i].data.len()
                    <= (#[trigger] m.tensors[j]).data_offset
        }),
{
    let kvs = entries_bytes(es);
    let data = image(ts, kvs);
    let h = header_bytes(ts, kvs);
    let meta = read_back_all(es);
    let all = tensors_read_back(ts);
    law_image_is_whole_blocks(ts, kvs);
    law_image_parses_back(ts, es);
    lemma_padded_len(h.len());
    lemma_all_aligned(ts);
    assert(parsed(data) == described(meta, all, h.len() as int));
    let m = parsed(data)->Ok_0;
    let base = m.data_section_offsets[0] as int;
    assert(base == padded_len(h.len()));
    assert forall|i: int| 0 <= i < ts.len() implies {
        let t = #[trigger] m.tensors[i];
        &&& t.shape == ts[i].shape && t.dtype == ts[i].dtype
        &&& t.data_offset % 32 == 0
        &&& t.data_len == Some(ts[i].data.len() as u64)
        &&& holds_at(data, base + t.data_offset, ts[i].data)
    } by {
        law_offsets_are_aligned(ts, i as nat);
        lemma_offsets_grow(ts, i as nat, ts.len());
        law_image_holds_the_data(ts, kvs, i);
        assert(storable_tensor(ts[i]));
    }
    assert forall|i: int, j: int| 0 <= i < j < ts.len() implies (
    #[trigger] m.tensors[i]).data_offset + ts[i].data.len() <= (
    #[trigger] m.tensors[j]).data_offset by {
        law_data_does_not_overlap(ts, i, j);
        lemma_offsets_grow(ts, i as nat, ts.len());
        lemma_offsets_grow(ts, j as nat, ts.len());
    }
}

} // verus!
