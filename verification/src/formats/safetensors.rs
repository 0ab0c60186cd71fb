//! safetensors headers: the header length as a `u64`, then a JSON table of
//! tensors. Tensor data is never read.

use vstd::prelude::*;
use vstd::string::StringExecFns;

use crate::bytes::{
    copy_range, le_bytes, lemma_le_bytes_len, lemma_le_round_trip, lemma_pow256_values,
};
use crate::formats::desc::{
    byte_len, checked_product, element_count, tensors_view, DType, DTypeV, TensorDesc, TensorV,
};
use crate::formats::error::{Fault, FormatError};
use crate::formats::json::{
    by_name, items_of, items_view, json_object, members_of, members_view, numbers_of,
    object_members, pair_of, string_of, value_array, value_numbers, value_object, value_pair,
    value_string,
};
use crate::formats::limits::MAX_ST_HEADER_BYTES;
use crate::formats::names::{canonical_hf, hf_name, name_or};
use crate::formats::read::{next_u64, read_u64, ByteReader};
use crate::text::{dec, dec_text, ends_with, text_eq};

verus! {

/// An entry of the tensor table.
#[derive(Debug, PartialEq, Eq)]
pub struct StEntry {
    pub dtype: String,
    pub shape: Vec<u64>,
    pub start: u64,
    pub end: u64,
}

/// The model of an [`StEntry`].
#[verifier::ext_equal]
pub struct StEntryV {
    pub dtype: Seq<char>,
    pub shape: Seq<u64>,
    pub start: u64,
    pub end: u64,
}

impl View for StEntry {
    type V = StEntryV;

    open spec fn view(&self) -> StEntryV {
        StEntryV {
            dtype: self.dtype@,
            shape: self.shape@,
            start: self.start,
            end: self.end,
        }
    }
}

/// The element type that a safetensors name stands for.
pub open spec fn st_dtype(s: Seq<char>) -> DTypeV {
    if s == "F32"@ {
        DTypeV::F32
    } else if s == "F16"@ {
        DTypeV::F16
    } else if s == "BF16"@ {
        DTypeV::BF16
    } else {
        DTypeV::Unsupported(s)
    }
}

/// The element type that a safetensors name stands for.
pub fn dtype_from_st(s: &str) -> (d: DType)
    ensures
        d@ == st_dtype(s@),
{
    if text_eq(s, "F32") {
        DType::F32
    } else if text_eq(s, "F16") {
        DType::F16
    } else if text_eq(s, "BF16") {
        DType::BF16
    } else {
        DType::Unsupported(s.to_owned())
    }
}

/// The tensor that an entry called `name` describes, or what is wrong with it.
pub open spec fn entry_described(name: Seq<char>, e: StEntryV, file_index: u32) -> Result<
    TensorV,
    Fault,
> {
    if e.end < e.start {
        Err(
            Fault::Malformed {
                context: "safetensors data_offsets"@,
                detail: name + ": end "@ + dec(e.end as nat) + " < start "@ + dec(e.start as nat),
            },
        )
    } else {
        let span = (e.end - e.start) as u64;
        let dtype = st_dtype(e.dtype);
        match checked_product(e.shape) {
            None => Err(
                Fault::Malformed {
                    context: "safetensors shape"@,
                    detail: name + ": element count overflows u64"@,
                },
            ),
            Some(n) => if byte_len(dtype, n) is Some && byte_len(dtype, n)->0 != span {
                Err(
                    Fault::Malformed {
                        context: "safetensors data_offsets"@,
                        detail: name + ": span "@ + dec(span as nat) + " != dtype size "@ + dec(
                            byte_len(dtype, n)->0,
                        ),
                    },
                )
            } else {
                Ok(
                    TensorV {
                        name: name_or(name, hf_name(name)),
                        shape: e.shape,
                        dtype,
                        file_index,
                        data_offset: e.start,
                        data_len: Some(span),
                    },
                )
            },
        }
    }
}

/// The tensor that an entry called `name` describes, or what is wrong with it.
pub fn entry_tensor(name: &str, e: StEntry, file_index: u32) -> (r: Result<TensorDesc, FormatError>)
    ensures
        match r {
            Ok(t) => entry_described(name@, e@, file_index) == Ok::<TensorV, Fault>(t@),
            Err(err) => entry_described(name@, e@, file_index) == Err::<TensorV, Fault>(err@),
        },
{
    if e.end < e.start {
        let mut detail = name.to_owned();
        detail.append(": end ");
        detail.append(dec_text(e.end).as_str());
        detail.append(" < start ");
        detail.append(dec_text(e.start).as_str());
        return Err(FormatError::Malformed { context: "safetensors data_offsets", detail });
    }
    let span: u64 = e.end - e.start;
    let dtype = dtype_from_st(e.dtype.as_str());
    let n_elems: u64 = match element_count(&e.shape) {
        Some(n) => n,
        None => {
            let mut detail = name.to_owned();
            detail.append(": element count overflows u64");
            return Err(FormatError::Malformed { context: "safetensors shape", detail });
        },
    };
    if let Some(expect) = dtype.byte_len(n_elems) {
        if expect != span {
            let mut detail = name.to_owned();
            detail.append(": span ");
            detail.append(dec_text(span).as_str());
            detail.append(" != dtype size ");
            detail.append(dec_text(expect).as_str());
            return Err(FormatError::Malformed { context: "safetensors data_offsets", detail });
        }
    }
    let name = match canonical_hf(name) {
        Some(s) => s,
        None => name.to_owned(),
    };
    Ok(
        TensorDesc {
            name,
            shape: e.shape,
            dtype,
            file_index,
            data_offset: e.start,
            data_len: Some(span),
        },
    )
}

/// The value of the member called `key`: of several with one name the last counts.
pub open spec fn member(m: Seq<(Seq<char>, Seq<char>)>, key: Seq<char>) -> Option<Seq<char>>
    decreases m.len(),
{
    if m.len() == 0 {
        None
    } else if m.last().0 == key {
        Some(m.last().1)
    } else {
        member(m.drop_last(), key)
    }
}

fn find_member<'a>(m: &'a Vec<(String, String)>, key: &str) -> (r: Option<&'a str>)
    ensures
        match r {
            Some(s) => member(members_view(m@), key@) == Some(s@),
            None => member(members_view(m@), key@) is None,
        },
{
    let ghost all = members_view(m@);
    let mut i: usize = m.len();
    proof {
        assert(all.take(i as int) =~= all);
    }
    while i > 0
        invariant
            i <= m@.len(),
            all == members_view(m@),
            member(all, key@) == member(all.take(i as int), key@),
        decreases i,
    {
        i -= 1;
        proof {
            assert(all.take(i + 1).drop_last() =~= all.take(i as int));
            assert(all.take(i + 1).last() == (m@[i as int].0@, m@[i as int].1@));
        }
        if text_eq(m[i].0.as_str(), key) {
            return Some(m[i].1.as_str());
        }
    }
    None
}

/// Why a value that is no tensor entry is none, from why it is no object.
pub open spec fn no_entry(why: Seq<char>) -> Seq<char> {
    if "a map"@.is_suffix_of(why) {
        why.take(why.len() - "a map"@.len()) + "struct StEntry"@
    } else {
        why
    }
}

fn no_entry_text(why: String) -> (s: String)
    ensures
        s@ == no_entry(why@),
{
    if !ends_with(why.as_str(), "a map") {
        return why;
    }
    let n: usize = why.as_str().unicode_len();
    let mut s = why.as_str().substring_char(0, n - "a map".unicode_len()).to_owned();
    s.append("struct StEntry");
    s
}

/// Why an array of `n` items, too few, is no tensor entry.
pub open spec fn too_short(n: nat) -> Seq<char> {
    "invalid length "@ + dec(n) + ", expected struct StEntry with 3 elements"@
}

fn too_short_text(n: usize) -> (s: String)
    ensures
        s@ == too_short(n as nat),
{
    let mut s = "invalid length ".to_owned();
    s.append(dec_text(n as u64).as_str());
    s.append(", expected struct StEntry with 3 elements");
    s
}

/// Why an array of `n` items, too many, is no tensor entry.
pub open spec fn too_long(n: nat) -> Seq<char> {
    "invalid length "@ + dec(n) + ", expected fewer elements in array"@
}

fn too_long_text(n: usize) -> (s: String)
    ensures
        s@ == too_long(n as nat),
{
    let mut s = "invalid length ".to_owned();
    s.append(dec_text(n as u64).as_str());
    s.append(", expected fewer elements in array");
    s
}

/// The entry that the members of an object make, or why they make none. Members are
/// read in the order of their names; then it is seen which are missing. Others than the
/// three do not count.
pub open spec fn entry_of_members(m: Seq<(Seq<char>, Seq<char>)>) -> Result<StEntryV, Seq<char>> {
    let offsets = match member(m, "data_offsets"@) {
        Some(v) => Some(value_pair(v)),
        None => None,
    };
    let dtype = match member(m, "dtype"@) {
        Some(v) => Some(value_string(v)),
        None => None,
    };
    let shape = match member(m, "shape"@) {
        Some(v) => Some(value_numbers(v)),
        None => None,
    };
    match (offsets, dtype, shape) {
        (Some(Err(e)), _, _) => Err(e),
        (_, Some(Err(e)), _) => Err(e),
        (_, _, Some(Err(e))) => Err(e),
        (_, None, _) => Err("missing field `dtype`"@),
        (_, _, None) => Err("missing field `shape`"@),
        (None, _, _) => Err("missing field `data_offsets`"@),
        (Some(Ok((start, end))), Some(Ok(dtype)), Some(Ok(shape))) => Ok(
            StEntryV { dtype, shape, start, end },
        ),
    }
}

fn read_members(m: &Vec<(String, String)>) -> (r: Result<StEntry, String>)
    ensures
        match r {
            Ok(e) => entry_of_members(members_view(m@)) == Ok::<StEntryV, Seq<char>>(e@),
            Err(e) => entry_of_members(members_view(m@)) == Err::<StEntryV, Seq<char>>(e@),
        },
{
    let offsets = match find_member(m, "data_offsets") {
        Some(v) => match pair_of(v) {
            Ok(p) => Some(p),
            Err(e) => return Err(e),
        },
        None => None,
    };
    let dtype = match find_member(m, "dtype") {
        Some(v) => match string_of(v) {
            Ok(s) => Some(s),
            Err(e) => return Err(e),
        },
        None => None,
    };
    let shape = match find_member(m, "shape") {
        Some(v) => match numbers_of(v) {
            Ok(s) => Some(s),
            Err(e) => return Err(e),
        },
        None => None,
    };
    let dtype = match dtype {
        Some(d) => d,
        None => return Err("missing field `dtype`".to_owned()),
    };
    let shape = match shape {
        Some(s) => s,
        None => return Err("missing field `shape`".to_owned()),
    };
    match offsets {
        Some((start, end)) => Ok(StEntry { dtype, shape, start, end }),
        None => Err("missing field `data_offsets`".to_owned()),
    }
}

/// The entry that the items of an array make, or why they make none: they are its three
/// fields in turn.
pub open spec fn entry_of_items(a: Seq<Seq<char>>) -> Result<StEntryV, Seq<char>> {
    if a.len() < 1 {
        Err(too_short(0))
    } else {
        match value_string(a[0]) {
            Err(e) => Err(e),
            Ok(dtype) => if a.len() < 2 {
                Err(too_short(1))
            } else {
                match value_numbers(a[1]) {
                    Err(e) => Err(e),
                    Ok(shape) => if a.len() < 3 {
                        Err(too_short(2))
                    } else {
                        match value_pair(a[2]) {
                            Err(e) => Err(e),
                            Ok((start, end)) => if a.len() > 3 {
                                Err(too_long(a.len()))
                            } else {
                                Ok(StEntryV { dtype, shape, start, end })
                            },
                        }
                    },
                }
            },
        }
    }
}

fn read_items(a: &Vec<String>) -> (r: Result<StEntry, String>)
    ensures
        match r {
            Ok(e) => entry_of_items(items_view(a@)) == Ok::<StEntryV, Seq<char>>(e@),
            Err(e) => entry_of_items(items_view(a@)) == Err::<StEntryV, Seq<char>>(e@),
        },
{
    if a.len() < 1 {
        return Err(too_short_text(0));
    }
    let dtype = match string_of(a[0].as_str()) {
        Ok(d) => d,
        Err(e) => return Err(e),
    };
    if a.len() < 2 {
        return Err(too_short_text(1));
    }
    let shape = match numbers_of(a[1].as_str()) {
        Ok(s) => s,
        Err(e) => return Err(e),
    };
    if a.len() < 3 {
        return Err(too_short_text(2));
    }
    let (start, end) = match pair_of(a[2].as_str()) {
        Ok(o) => o,
        Err(e) => return Err(e),
    };
    if a.len() > 3 {
        return Err(too_long_text(a.len()));
    }
    Ok(StEntry { dtype, shape, start, end })
}

/// The entry that a JSON text holds, or why it holds none: an object with the three
/// fields, or an array of the three.
pub open spec fn entry_of_json(json: Seq<char>) -> Result<StEntryV, Seq<char>> {
    match value_object(json) {
        Ok(m) => entry_of_members(m),
        Err(why) => match value_array(json) {
            Ok(a) => entry_of_items(a),
            Err(_) => Err(no_entry(why)),
        },
    }
}

fn read_json_entry(json: &str) -> (r: Result<StEntry, String>)
    ensures
        match r {
            Ok(e) => entry_of_json(json@) == Ok::<StEntryV, Seq<char>>(e@),
            Err(e) => entry_of_json(json@) == Err::<StEntryV, Seq<char>>(e@),
        },
{
    match members_of(json) {
        Ok(m) => read_members(&m),
        Err(why) => match items_of(json) {
            Ok(a) => read_items(&a),
            Err(_) => Err(no_entry_text(why)),
        },
    }
}

/// The tensors that the first `k` members of the table describe.
pub open spec fn table_tensors(table: Seq<(Seq<char>, Seq<char>)>, file_index: u32, k: nat) -> Result<
    Seq<TensorV>,
    Fault,
>
    decreases k,
{
    if k == 0 {
        Ok(Seq::empty())
    } else {
        match table_tensors(table, file_index, (k - 1) as nat) {
            Err(e) => Err(e),
            Ok(ts) => {
                let (name, json) = table[k - 1];
                if name == "__metadata__"@ {
                    Ok(ts)
                } else {
                    match entry_of_json(json) {
                        Err(why) => Err(Fault::Json(why)),
                        Ok(e) => match entry_described(name, e, file_index) {
                            Err(f) => Err(f),
                            Ok(t) => Ok(ts.push(t)),
                        },
                    }
                }
            },
        }
    }
}

/// A fault among the first `k` members is the fault of the whole.
proof fn lemma_table_fault(table: Seq<(Seq<char>, Seq<char>)>, file_index: u32, k: nat, n: nat)
    requires
        k <= n,
        table_tensors(table, file_index, k) is Err,
    ensures
        table_tensors(table, file_index, n) == table_tensors(table, file_index, k),
    decreases n - k,
{
    if k < n {
        lemma_table_fault(table, file_index, k, (n - 1) as nat);
    }
}

/// The tensors that a table describes. The member called `__metadata__` is none.
pub fn read_table(table: &Vec<(String, String)>, file_index: u32) -> (r: Result<
    Vec<TensorDesc>,
    FormatError,
>)
    ensures
        match r {
            Ok(ts) => table_tensors(members_view(table@), file_index, table@.len()) == Ok::<
                Seq<TensorV>,
                Fault,
            >(tensors_view(ts@)),
            Err(e) => table_tensors(members_view(table@), file_index, table@.len()) == Err::<
                Seq<TensorV>,
                Fault,
            >(e@),
        },
{
    let ghost all = members_view(table@);
    let mut ts: Vec<TensorDesc> = Vec::new();
    let mut i: usize = 0;
    proof {
        assert(tensors_view(ts@) =~= Seq::<TensorV>::empty());
    }
    while i < table.len()
        invariant
            i <= table@.len(),
            all == members_view(table@),
            table_tensors(all, file_index, i as nat) == Ok::<Seq<TensorV>, Fault>(
                tensors_view(ts@),
            ),
        decreases table.len() - i,
    {
        let ghost before = tensors_view(ts@);
        let name = table[i].0.as_str();
        proof {
            assert(all[i as int] == (table@[i as int].0@, table@[i as int].1@));
        }
        if !text_eq(name, "__metadata__") {
            let entry = match read_json_entry(table[i].1.as_str()) {
                Ok(e) => e,
                Err(why) => {
                    proof {
                        lemma_table_fault(all, file_index, i as nat + 1, all.len());
                    }
                    return Err(FormatError::Json(why));
                },
            };
            match entry_tensor(name, entry, file_index) {
                Ok(t) => {
                    ts.push(t);
                    proof {
                        assert(tensors_view(ts@) =~= before.push(t@));
                    }
                },
                Err(e) => {
                    proof {
                        lemma_table_fault(all, file_index, i as nat + 1, all.len());
                    }
                    return Err(e);
                },
            }
        }
        i += 1;
    }
    Ok(ts)
}

/// The JSON header of a file and where the data begins.
pub open spec fn header(data: Seq<u8>) -> Result<(Seq<u8>, u64), Fault> {
    match next_u64(data, 0) {
        Err(e) => Err(e),
        Ok((len, p)) => if len > MAX_ST_HEADER_BYTES {
            Err(
                Fault::LimitExceeded {
                    what: "safetensors header length"@,
                    got: len as nat,
                    limit: MAX_ST_HEADER_BYTES as nat,
                },
            )
        } else if p + len > data.len() {
            Err(
                Fault::Malformed {
                    context: "safetensors header"@,
                    detail: "truncated before header end"@,
                },
            )
        } else {
            Ok((data.subrange(p, p + len), (8 + len) as u64))
        },
    }
}

/// The JSON header of a file and where the data begins.
pub fn read_header(data: &[u8]) -> (r: Result<(Vec<u8>, u64), FormatError>)
    ensures
        match r {
            Ok((json, at)) => header(data@) == Ok::<(Seq<u8>, u64), Fault>((json@, at)),
            Err(e) => header(data@) == Err::<(Seq<u8>, u64), Fault>(e@),
        },
{
    let mut r = ByteReader::new(data);
    let len: u64 = match read_u64(&mut r) {
        Ok(n) => n,
        Err(e) => return Err(e),
    };
    if len > MAX_ST_HEADER_BYTES {
        return Err(
            FormatError::LimitExceeded {
                what: "safetensors header length",
                got: len,
                limit: MAX_ST_HEADER_BYTES,
            },
        );
    }
    let n: usize = len as usize;
    if n > data.len() - r.pos {
        return Err(
            FormatError::Malformed {
                context: "safetensors header",
                detail: "truncated before header end".to_owned(),
            },
        );
    }
    Ok((copy_range(data, r.pos, n), 8 + len))
}

/// The tensors that a safetensors file describes and where its data begins.
pub open spec fn parsed(data: Seq<u8>, file_index: u32) -> Result<(Seq<TensorV>, u64), Fault> {
    match header(data) {
        Err(e) => Err(e),
        Ok((json, at)) => match json_object(json) {
            Err(why) => Err(Fault::Json(why)),
            Ok(table) => match table_tensors(table, file_index, table.len()) {
                Err(e) => Err(e),
                Ok(ts) => Ok((ts, at)),
            },
        },
    }
}

/// Parses a safetensors header: its tensors, in the order of the names in its table,
/// and where its data begins.
pub fn parse(data: &[u8], file_index: u32) -> (r: Result<(Vec<TensorDesc>, u64), FormatError>)
    ensures
        match r {
            Ok((ts, at)) => parsed(data@, file_index) == Ok::<(Seq<TensorV>, u64), Fault>(
                (tensors_view(ts@), at),
            ) && by_name(json_object(header(data@)->Ok_0.0)->Ok_0),
            Err(e) => parsed(data@, file_index) == Err::<(Seq<TensorV>, u64), Fault>(e@),
        },
{
    let (json, at) = match read_header(data) {
        Ok(h) => h,
        Err(e) => return Err(e),
    };
    let table = match object_members(json.as_slice()) {
        Ok(t) => t,
        Err(why) => return Err(FormatError::Json(why)),
    };
    match read_table(&table, file_index) {
        Ok(ts) => Ok((ts, at)),
        Err(e) => Err(e),
    }
}

/// A file made of a JSON header's length, the header and data gives the header
/// back, and the place of the data.
pub proof fn law_header_is_framed(json: Seq<u8>, data: Seq<u8>)
    requires
        json.len() <= MAX_ST_HEADER_BYTES,
    ensures
        header(le_bytes(json.len(), 8) + json + data) == Ok::<(Seq<u8>, u64), Fault>(
            (json, (8 + json.len()) as u64),
        ),
{
    let file = le_bytes(json.len(), 8) + json + data;
    lemma_pow256_values();
    lemma_le_bytes_len(json.len(), 8);
    lemma_le_round_trip(json.len(), 8);
    assert(file.subrange(0, 8) =~= le_bytes(json.len(), 8));
    assert(file.subrange(8, 8 + json.len() as int) =~= json);
}

} // verus!
