//! A safetensors file that was written reads back, where its JSON table does.

use vstd::prelude::*;
use vstd::utf8::encode_utf8;

use crate::bytes::lemma_le_bytes_len;
use crate::formats::desc::{byte_len, checked_product, TensorV};
use crate::formats::error::Fault;
use crate::formats::fixture_files::{
    decs, plain_data_of, plain_offset, st_dtype_name, st_entries, st_entry, st_file, st_json,
};
use crate::formats::fixture_laws::{lemma_encoded_len, lemma_hf_names, lemma_hf_sizes, role_at};
use crate::formats::fixtures::tiny_hf_fixtures;
use crate::formats::image::{holds_at, FixtureV};
use crate::formats::json::json_object;
use crate::formats::limits::MAX_ST_HEADER_BYTES;
use crate::formats::names::{hf_name, law_canonical_names_differ, name_or, role_name, Role};
use crate::formats::safetensors::{
    entry_described, entry_of_json, law_header_is_framed, parsed, st_dtype, table_tensors,
    StEntryV,
};
use crate::text::{dec, join};

verus! {

/// The entry that is written for tensor `k`.
pub open spec fn written_entry(ts: Seq<FixtureV>, k: int) -> StEntryV {
    StEntryV {
        dtype: st_dtype_name(ts[k].dtype),
        shape: ts[k].shape,
        start: plain_offset(ts, k as nat) as u64,
        end: plain_offset(ts, (k + 1) as nat) as u64,
    }
}

/// Whether the JSON table of a file reads back as it was written: it has an entry for
/// every tensor, in the order `order`.
pub open spec fn table_reads_back(ts: Seq<FixtureV>, order: Seq<int>) -> bool {
    &&& order.len() == ts.len()
    &&& forall|i: int| 0 <= i < order.len() ==> 0 <= #[trigger] order[i] < ts.len()
    &&& forall|k: int| 0 <= k < ts.len() ==> #[trigger] order.contains(k)
    &&& json_object(encode_utf8(st_json(ts))) matches Ok(table) && {
        &&& table.len() == ts.len()
        &&& forall|i: int|
            0 <= i < table.len() ==> (#[trigger] table[i]).0 == ts[order[i]].name
                && entry_of_json(table[i].1) == Ok::<StEntryV, Seq<char>>(
                written_entry(ts, order[i]),
            )
    }
}

/// Whether a tensor can be written to a safetensors file and read back.
pub open spec fn plain_tensor(t: FixtureV) -> bool {
    &&& t.dtype is F32 || t.dtype is F16 || t.dtype is BF16
    &&& checked_product(t.shape) is Some
    &&& byte_len(t.dtype, checked_product(t.shape)->0) == Some(t.data.len())
    &&& t.name != "__metadata__"@
}

/// The tensor that tensor `k` is read as.
pub open spec fn st_read_back(ts: Seq<FixtureV>, k: int, file_index: u32) -> TensorV {
    TensorV {
        name: name_or(ts[k].name, hf_name(ts[k].name)),
        shape: ts[k].shape,
        dtype: ts[k].dtype,
        file_index,
        data_offset: plain_offset(ts, k as nat) as u64,
        data_len: Some(ts[k].data.len() as u64),
    }
}

/// Where the data of a file begins.
pub open spec fn data_start(ts: Seq<FixtureV>) -> nat {
    8 + encode_utf8(st_json(ts)).len()
}

proof fn lemma_offsets(ts: Seq<FixtureV>, j: nat, k: nat)
    requires
        j <= k,
    ensures
        plain_offset(ts, j) <= plain_offset(ts, k),
    decreases k - j,
{
    if j < k {
        lemma_offsets(ts, j, (k - 1) as nat);
    }
}

proof fn lemma_data_len(ts: Seq<FixtureV>, k: nat)
    ensures
        plain_data_of(ts, k).len() == plain_offset(ts, k),
    decreases k,
{
    if k > 0 {
        lemma_data_len(ts, (k - 1) as nat);
    }
}

/// The data of tensor `i` stands where its offset says.
proof fn lemma_data_at(ts: Seq<FixtureV>, k: nat, i: nat)
    requires
        i < k <= ts.len(),
    ensures
        holds_at(plain_data_of(ts, k), plain_offset(ts, i) as int, ts[i as int].data),
    decreases k,
{
    let all = plain_data_of(ts, k);
    let prev = plain_data_of(ts, (k - 1) as nat);
    let at = plain_offset(ts, i) as int;
    let d = ts[i as int].data;
    lemma_data_len(ts, k);
    lemma_data_len(ts, (k - 1) as nat);
    if i == k - 1 {
        assert(all.subrange(at, at + d.len()) =~= d);
    } else {
        lemma_data_at(ts, (k - 1) as nat, i);
        assert(all.subrange(at, at + d.len()) =~= prev.subrange(at, at + d.len()));
    }
}

/// A written entry describes its tensor.
proof fn lemma_entry(ts: Seq<FixtureV>, k: int, file_index: u32)
    requires
        0 <= k < ts.len(),
        plain_tensor(ts[k]),
        plain_offset(ts, ts.len()) <= u64::MAX,
    ensures
        entry_described(ts[k].name, written_entry(ts, k), file_index) == Ok::<TensorV, Fault>(
            st_read_back(ts, k, file_index),
        ),
{
    lemma_offsets(ts, (k + 1) as nat, ts.len());
    reveal_strlit("F32");
    reveal_strlit("F16");
    reveal_strlit("BF16");
    assert("F16"@[1] == '1' && "F32"@[1] == '3');
    assert("BF16"@.len() == 4 && "F16"@.len() == 3 && "F32"@.len() == 3);
    assert(st_dtype(st_dtype_name(ts[k].dtype)) == ts[k].dtype);
}

/// The first `k` entries of the table give their tensors.
proof fn lemma_table(
    ts: Seq<FixtureV>,
    order: Seq<int>,
    table: Seq<(Seq<char>, Seq<char>)>,
    file_index: u32,
    k: nat,
)
    requires
        k <= table.len(),
        table.len() == ts.len() == order.len(),
        forall|i: int| 0 <= i < order.len() ==> 0 <= #[trigger] order[i] < ts.len(),
        forall|i: int| 0 <= i < ts.len() ==> plain_tensor(#[trigger] ts[i]),
        plain_offset(ts, ts.len()) <= u64::MAX,
        forall|i: int|
            0 <= i < table.len() ==> (#[trigger] table[i]).0 == ts[order[i]].name && entry_of_json(
                table[i].1,
            ) == Ok::<StEntryV, Seq<char>>(written_entry(ts, order[i])),
    ensures
        table_tensors(table, file_index, k) == Ok::<Seq<TensorV>, Fault>(
            Seq::new(k, |i: int| st_read_back(ts, order[i], file_index)),
        ),
    decreases k,
{
    let want = Seq::new(k, |i: int| st_read_back(ts, order[i], file_index));
    if k == 0 {
        assert(want =~= Seq::<TensorV>::empty());
    } else {
        let j = (k - 1) as nat;
        lemma_table(ts, order, table, file_index, j);
        let t = order[j as int];
        assert(plain_tensor(ts[t]));
        assert(table[j as int].0 == ts[t].name);
        lemma_entry(ts, t, file_index);
        let before = Seq::new(j, |i: int| st_read_back(ts, order[i], file_index));
        assert(want =~= before.push(st_read_back(ts, t, file_index)));
    }
}

/// Where the JSON table of a safetensors file reads back as it was written, so does the
/// file: parsing gives the written tensors, under their canonical names, with their shapes,
/// element types and spans. The spans tile the data: the first begins where the data does,
/// each ends where the next begins, and the last ends with the file. Each span holds its
/// tensor's data.
pub proof fn law_safetensors_file_reads_back(ts: Seq<FixtureV>, order: Seq<int>, file_index: u32)
    requires
        forall|i: int| 0 <= i < ts.len() ==> plain_tensor(#[trigger] ts[i]),
        plain_offset(ts, ts.len()) <= u64::MAX,
        encode_utf8(st_json(ts)).len() <= MAX_ST_HEADER_BYTES,
        table_reads_back(ts, order),
    ensures
        parsed(st_file(ts), file_index) == Ok::<(Seq<TensorV>, u64), Fault>(
            (
                Seq::new(ts.len(), |i: int| st_read_back(ts, order[i], file_index)),
                data_start(ts) as u64,
            ),
        ),
        plain_offset(ts, 0) == 0,
        forall|k: int|
            0 <= k < ts.len() ==> {
                &&& #[trigger] plain_offset(ts, k as nat) <= u64::MAX
                &&& plain_offset(ts, k as nat) + ts[k].data.len() == plain_offset(
                    ts,
                    (k + 1) as nat,
                )
                &&& holds_at(
                    st_file(ts),
                    data_start(ts) + plain_offset(ts, k as nat) as int,
                    ts[k].data,
                )
            },
        st_file(ts).len() == data_start(ts) + plain_offset(ts, ts.len()),
{
    let json = encode_utf8(st_json(ts));
    let data = plain_data_of(ts, ts.len());
    let file = st_file(ts);
    let table = json_object(json)->Ok_0;
    law_header_is_framed(json, data);
    lemma_table(ts, order, table, file_index, table.len());
    lemma_le_bytes_len(json.len(), 8);
    lemma_data_len(ts, ts.len());
    assert forall|k: int| 0 <= k < ts.len() implies {
        &&& #[trigger] plain_offset(ts, k as nat) <= u64::MAX
        &&& plain_offset(ts, k as nat) + ts[k].data.len() == plain_offset(ts, (k + 1) as nat)
        &&& holds_at(file, (data_start(ts) + plain_offset(ts, k as nat)) as int, ts[k].data)
    } by {
        lemma_offsets(ts, k as nat, ts.len());
        lemma_data_at(ts, ts.len(), k as nat);
        let at = plain_offset(ts, k as nat) as int;
        let d = ts[k].data;
        let from = data_start(ts) + at;
        assert(file.subrange(from, from + d.len()) =~= data.subrange(at, at + d.len()));
    }
}

/// Ten to the power `k`.
spec fn ten(k: nat) -> nat
    decreases k,
{
    if k == 0 {
        1
    } else {
        10 * ten((k - 1) as nat)
    }
}

proof fn lemma_dec_len(n: nat, k: nat)
    requires
        k > 0,
        n < ten(k),
    ensures
        dec(n).len() <= k,
    decreases k,
{
    if n >= 10 {
        if k == 1 {
            assert(ten(1) == 10) by {
                reveal_with_fuel(ten, 2);
            }
        }
        lemma_dec_len(n / 10, (k - 1) as nat);
    }
}

proof fn lemma_join_len(parts: Seq<Seq<char>>, sep: Seq<char>, k: nat, most: nat)
    requires
        k <= parts.len(),
        sep.len() == 1,
        forall|i: int| 0 <= i < parts.len() ==> (#[trigger] parts[i]).len() <= most,
    ensures
        join(parts, sep, k).len() <= k * (most + 1),
    decreases k,
{
    if k > 0 {
        lemma_join_len(parts, sep, (k - 1) as nat, most);
        assert(parts[k - 1].len() <= most);
        assert((k - 1) * (most + 1) + (most + 1) == k * (most + 1)) by (nonlinear_arith);
    } else {
        assert(0 * (most + 1) == 0);
    }
}

/// An entry of the tiny model's table is short.
proof fn lemma_entry_len(t: FixtureV, start: nat)
    requires
        t.name.len() <= 100,
        t.shape.len() <= 2,
        start + t.data.len() < 100_000_000,
        forall|i: int| 0 <= i < t.shape.len() ==> #[trigger] t.shape[i] < 1000,
    ensures
        st_entry(t, start).len() <= 300,
{
    reveal_strlit("\"");
    reveal_strlit("\": {\"dtype\":\"");
    reveal_strlit("\",\"shape\":[");
    reveal_strlit("],\"data_offsets\":[");
    reveal_strlit(",");
    reveal_strlit("]}");
    reveal_strlit("F32");
    reveal_strlit("F16");
    reveal_strlit("BF16");
    assert(ten(8) == 100_000_000 && ten(3) == 1000) by {
        reveal_with_fuel(ten, 9);
    }
    lemma_dec_len(start, 8);
    lemma_dec_len(start + t.data.len(), 8);
    let parts = decs(t.shape);
    assert forall|i: int| 0 <= i < parts.len() implies (#[trigger] parts[i]).len() <= 3 by {
        assert(t.shape[i] < 1000);
        lemma_dec_len(t.shape[i] as nat, 3);
    }
    lemma_join_len(parts, ","@, t.shape.len(), 3);
    let n = t.shape.len();
    assert(n * (3 + 1) <= 8) by (nonlinear_arith)
        requires
            n <= 2,
    ;
    assert(st_dtype_name(t.dtype).len() <= 4);
    assert("\""@.len() == 1 && "\": {\"dtype\":\""@.len() == 13);
    assert("\",\"shape\":["@.len() == 11 && "],\"data_offsets\":["@.len() == 18);
    assert(","@.len() == 1 && "]}"@.len() == 2);
}

proof fn lemma_offset_most(ts: Seq<FixtureV>, k: nat)
    requires
        k <= ts.len(),
        forall|i: int| 0 <= i < ts.len() ==> (#[trigger] ts[i]).data.len() <= 500_000,
    ensures
        plain_offset(ts, k) <= k * 500_000,
    decreases k,
{
    if k > 0 {
        lemma_offset_most(ts, (k - 1) as nat);
        assert(ts[k - 1].data.len() <= 500_000);
    }
}

/// No tensor of the tiny model projects to the vocabulary.
proof fn lemma_no_projection(k: int)
    ensures
        role_name(role_at(k), "weight"@) != "lm_head.weight"@,
{
    reveal_strlit("lm_head");
    reveal_strlit(".");
    reveal_strlit("weight");
    reveal_strlit("lm_head.weight");
    assert(role_name(Role::Output, "weight"@) =~= "lm_head.weight"@);
    if role_name(role_at(k), "weight"@) == "lm_head.weight"@ {
        law_canonical_names_differ(role_at(k), "weight"@, Role::Output, "weight"@);
    }
}

/// The tiny model's tensors and its table are within the limits of the parser.
proof fn lemma_tiny_table_fits()
    ensures
        tiny_hf_fixtures().len() == 20,
        forall|i: int| 0 <= i < 20 ==> plain_tensor(#[trigger] tiny_hf_fixtures()[i]),
        plain_offset(tiny_hf_fixtures(), 20) <= 10_000_000,
        encode_utf8(st_json(tiny_hf_fixtures())).len() <= MAX_ST_HEADER_BYTES,
{
    let ts = tiny_hf_fixtures();
    lemma_hf_sizes(0);
    assert forall|i: int| 0 <= i < 20 implies plain_tensor(#[trigger] ts[i]) by {
        lemma_hf_sizes(i);
        lemma_hf_names(i);
    }
    assert forall|i: int| 0 <= i < ts.len() implies (#[trigger] ts[i]).data.len() <= 500_000 by {
        lemma_hf_sizes(i);
    }
    lemma_offset_most(ts, 20);
    let parts = st_entries(ts);
    assert forall|i: int| 0 <= i < parts.len() implies (#[trigger] parts[i]).len() <= 300 by {
        lemma_hf_sizes(i);
        lemma_hf_names(i);
        lemma_offset_most(ts, i as nat);
        lemma_entry_len(ts[i], plain_offset(ts, i as nat));
    }
    reveal_strlit(",");
    reveal_strlit("{");
    reveal_strlit("}");
    lemma_join_len(parts, ","@, 20, 300);
    lemma_encoded_len(st_json(ts));
}

/// The tiny model's safetensors file reads back, where its JSON table does: twenty
/// tensors, among them no projection for the vocabulary, each under its canonical name,
/// with its shape, its element type and its data.
pub proof fn law_tiny_safetensors_reads_back(order: Seq<int>, file_index: u32)
    requires
        table_reads_back(tiny_hf_fixtures(), order),
    ensures
        ({
            let ts = tiny_hf_fixtures();
            let file = st_file(ts);
            let read = parsed(file, file_index);
            &&& ts.len() == 20
            &&& read is Ok
            &&& read->Ok_0.0.len() == 20
            &&& read->Ok_0.1 == data_start(ts)
            &&& file.len() == data_start(ts) + plain_offset(ts, 20)
            &&& forall|i: int|
                0 <= i < 20 ==> {
                    let t = #[trigger] read->Ok_0.0[i];
                    let k = order[i];
                    &&& 0 <= k < 20
                    &&& t == st_read_back(ts, k, file_index)
                    &&& t.name == role_name(role_at(k), "weight"@)
                    &&& t.name != "lm_head.weight"@
                    &&& holds_at(file, read->Ok_0.1 + t.data_offset, ts[k].data)
                    &&& t.data_len == Some(ts[k].data.len() as u64)
                }
        }),
{
    let ts = tiny_hf_fixtures();
    lemma_tiny_table_fits();
    law_safetensors_file_reads_back(ts, order, file_index);
    let read = parsed(st_file(ts), file_index);
    assert forall|i: int| 0 <= i < 20 implies {
        let t = #[trigger] read->Ok_0.0[i];
        let k = order[i];
        &&& 0 <= k < 20
        &&& t == st_read_back(ts, k, file_index)
        &&& t.name == role_name(role_at(k), "weight"@)
        &&& t.name != "lm_head.weight"@
        &&& holds_at(st_file(ts), read->Ok_0.1 + t.data_offset, ts[k].data)
        &&& t.data_len == Some(ts[k].data.len() as u64)
    } by {
        let k = order[i];
        lemma_hf_names(k);
        assert(plain_offset(ts, k as nat) <= u64::MAX);
        lemma_no_projection(k);
    }
}

} // verus!
