//! GGUF headers (versions 2 and 3): magic, metadata, tensor infos. Tensor data is
//! never read here.

pub mod keys;
pub mod prefix;
pub mod value;

use vstd::arithmetic::power2::is_pow2;
use vstd::prelude::*;
use vstd::string::StringExecFns;

use crate::formats::desc::{
    architecture_of, byte_len, checked_product, element_count, tensors_view, texts_view,
    Architecture, DType, DTypeV, HyperParams, ModelDesc, ModelV, RopeStyle, TensorDesc, TensorV,
    TokenizerSpec, TokenizerV,
};
use crate::formats::error::{Fault, FormatError};
use crate::formats::gguf::value::{
    array_len, as_f32, as_text, as_u64, next_value, GgufValue, ValueV,
};
use crate::formats::limits::{MAX_DIMS, MAX_KV_PAIRS, MAX_TENSORS};
use crate::formats::names::{canonical_gguf, gguf_name, name_or};
use crate::formats::read::{
    next_string, next_u32, next_u64, read_string, read_u32, read_u64, ByteReader,
};
use crate::text::{dec, dec_text, text_eq};

verus! {

/// A metadata entry: a key and its value.
pub struct Entry {
    pub key: String,
    pub value: GgufValue,
}

/// The model of an [`Entry`].
#[verifier::ext_equal]
pub struct EntryV {
    pub key: Seq<char>,
    pub value: ValueV,
}

impl View for Entry {
    type V = EntryV;

    open spec fn view(&self) -> EntryV {
        EntryV { key: self.key@, value: self.value@ }
    }
}

/// The models of a list of entries.
pub open spec fn entries_view(s: Seq<Entry>) -> Seq<EntryV> {
    s.map_values(|e: Entry| e@)
}

/// The value of `key`: of several entries with one key the last counts.
pub open spec fn lookup(meta: Seq<EntryV>, key: Seq<char>) -> Option<ValueV>
    decreases meta.len(),
{
    if meta.len() == 0 {
        None
    } else if meta.last().key == key {
        Some(meta.last().value)
    } else {
        lookup(meta.drop_last(), key)
    }
}

/// The value of `key`: of several entries with one key the last counts.
fn get<'a>(meta: &'a Vec<Entry>, key: &str) -> (r: Option<&'a GgufValue>)
    ensures
        match r {
            Some(v) => lookup(entries_view(meta@), key@) == Some(v@),
            None => lookup(entries_view(meta@), key@) is None,
        },
{
    let ghost all = entries_view(meta@);
    let mut i: usize = meta.len();
    proof {
        assert(all.take(i as int) =~= all);
    }
    while i > 0
        invariant
            i <= meta@.len(),
            all == entries_view(meta@),
            lookup(all, key@) == lookup(all.take(i as int), key@),
        decreases i,
    {
        i -= 1;
        proof {
            assert(all.take(i + 1).drop_last() =~= all.take(i as int));
            assert(all.take(i + 1).last() == meta@[i as int]@);
        }
        if text_eq(meta[i].key.as_str(), key) {
            return Some(&meta[i].value);
        }
    }
    None
}

/// The element type that a ggml type id names.
pub open spec fn ggml_dtype(id: u32) -> DTypeV {
    match id {
        0 => DTypeV::F32,
        1 => DTypeV::F16,
        8 => DTypeV::Q8_0,
        12 => DTypeV::Q4_K,
        30 => DTypeV::BF16,
        _ => DTypeV::Unsupported("ggml:"@ + dec(id as nat)),
    }
}

/// The element type that a ggml type id names.
pub fn dtype_from_ggml(type_id: u32) -> (d: DType)
    ensures
        d@ == ggml_dtype(type_id),
{
    match type_id {
        0 => DType::F32,
        1 => DType::F16,
        8 => DType::Q8_0,
        12 => DType::Q4_K,
        30 => DType::BF16,
        _ => {
            let mut s = "ggml:".to_owned();
            s.append(dec_text(type_id as u64).as_str());
            DType::Unsupported(s)
        },
    }
}

/// The next metadata entry.
pub open spec fn next_entry(data: Seq<u8>, pos: int) -> Result<(EntryV, int), Fault> {
    match next_string(data, pos) {
        Err(e) => Err(e),
        Ok((key, p)) => match next_u32(data, p) {
            Err(e) => Err(e),
            Ok((type_id, q)) => match next_value(data, q, type_id, 0) {
                Err(e) => Err(e),
                Ok((value, z)) => Ok((EntryV { key, value }, z)),
            },
        },
    }
}

/// The next `count` metadata entries.
pub open spec fn next_entries(data: Seq<u8>, pos: int, count: nat) -> Result<
    (Seq<EntryV>, int),
    Fault,
>
    decreases count,
{
    if count == 0 {
        Ok((Seq::empty(), pos))
    } else {
        match next_entries(data, pos, (count - 1) as nat) {
            Err(e) => Err(e),
            Ok((entries, p)) => match next_entry(data, p) {
                Err(e) => Err(e),
                Ok((entry, q)) => Ok((entries.push(entry), q)),
            },
        }
    }
}

/// A fault among the first `k` entries is the fault of the whole.
proof fn lemma_entries_fault(data: Seq<u8>, pos: int, k: nat, count: nat)
    requires
        k <= count,
        next_entries(data, pos, k) is Err,
    ensures
        next_entries(data, pos, count) == next_entries(data, pos, k),
    decreases count - k,
{
    if k < count {
        lemma_entries_fault(data, pos, k, (count - 1) as nat);
    }
}

/// Reads one metadata entry.
fn read_entry(r: &mut ByteReader) -> (v: Result<Entry, FormatError>)
    requires
        old(r).wf(),
    ensures
        final(r).wf(),
        final(r).data == old(r).data,
        match v {
            Ok(e) => next_entry(old(r).data@, old(r).pos as int) == Ok::<(EntryV, int), Fault>(
                (e@, final(r).pos as int),
            ),
            Err(e) => next_entry(old(r).data@, old(r).pos as int) == Err::<(EntryV, int), Fault>(e@),
        },
{
    let key = match read_string(r) {
        Ok(k) => k,
        Err(e) => return Err(e),
    };
    let type_id: u32 = match read_u32(r) {
        Ok(t) => t,
        Err(e) => return Err(e),
    };
    match GgufValue::parse(r, type_id, 0) {
        Ok(value) => Ok(Entry { key, value }),
        Err(e) => Err(e),
    }
}

/// Reads `count` metadata entries.
fn read_entries(r: &mut ByteReader, count: u64) -> (v: Result<Vec<Entry>, FormatError>)
    requires
        old(r).wf(),
    ensures
        final(r).wf(),
        final(r).data == old(r).data,
        match v {
            Ok(es) => next_entries(old(r).data@, old(r).pos as int, count as nat) == Ok::<
                (Seq<EntryV>, int),
                Fault,
            >((entries_view(es@), final(r).pos as int)),
            Err(e) => next_entries(old(r).data@, old(r).pos as int, count as nat) == Err::<
                (Seq<EntryV>, int),
                Fault,
            >(e@),
        },
{
    let ghost data = r.data@;
    let ghost start = r.pos as int;
    let mut entries: Vec<Entry> = Vec::new();
    let mut i: u64 = 0;
    proof {
        assert(entries_view(entries@) =~= Seq::<EntryV>::empty());
    }
    while i < count
        invariant
            i <= count,
            r.wf(),
            r.data == old(r).data,
            data == old(r).data@,
            start == old(r).pos,
            next_entries(data, start, i as nat) == Ok::<(Seq<EntryV>, int), Fault>(
                (entries_view(entries@), r.pos as int),
            ),
        decreases count - i,
    {
        let ghost before = entries_view(entries@);
        match read_entry(r) {
            Ok(e) => {
                entries.push(e);
                proof {
                    assert(entries_view(entries@) =~= before.push(e@));
                }
            },
            Err(e) => {
                proof {
                    lemma_entries_fault(data, start, i as nat + 1, count as nat);
                }
                return Err(e);
            },
        }
        i += 1;
    }
    Ok(entries)
}

/// The next `count` dimensions.
pub open spec fn next_dims(data: Seq<u8>, pos: int, count: nat) -> Result<(Seq<u64>, int), Fault>
    decreases count,
{
    if count == 0 {
        Ok((Seq::empty(), pos))
    } else {
        match next_dims(data, pos, (count - 1) as nat) {
            Err(e) => Err(e),
            Ok((dims, p)) => match next_u64(data, p) {
                Err(e) => Err(e),
                Ok((d, q)) => Ok((dims.push(d), q)),
            },
        }
    }
}

/// A fault among the first `k` dimensions is the fault of the whole.
proof fn lemma_dims_fault(data: Seq<u8>, pos: int, k: nat, count: nat)
    requires
        k <= count,
        next_dims(data, pos, k) is Err,
    ensures
        next_dims(data, pos, count) == next_dims(data, pos, k),
    decreases count - k,
{
    if k < count {
        lemma_dims_fault(data, pos, k, (count - 1) as nat);
    }
}

/// Reads `count` dimensions.
fn read_dims(r: &mut ByteReader, count: u32) -> (v: Result<Vec<u64>, FormatError>)
    requires
        old(r).wf(),
    ensures
        final(r).wf(),
        final(r).data == old(r).data,
        match v {
            Ok(dims) => next_dims(old(r).data@, old(r).pos as int, count as nat) == Ok::<
                (Seq<u64>, int),
                Fault,
            >((dims@, final(r).pos as int)),
            Err(e) => next_dims(old(r).data@, old(r).pos as int, count as nat) == Err::<
                (Seq<u64>, int),
                Fault,
            >(e@),
        },
{
    let ghost data = r.data@;
    let ghost start = r.pos as int;
    let mut dims: Vec<u64> = Vec::new();
    let mut i: u32 = 0;
    while i < count
        invariant
            i <= count,
            r.wf(),
            r.data == old(r).data,
            data == old(r).data@,
            start == old(r).pos,
            next_dims(data, start, i as nat) == Ok::<(Seq<u64>, int), Fault>(
                (dims@, r.pos as int),
            ),
        decreases count - i,
    {
        match read_u64(r) {
            Ok(d) => dims.push(d),
            Err(e) => {
                proof {
                    lemma_dims_fault(data, start, i as nat + 1, count as nat);
                }
                return Err(e);
            },
        }
        i += 1;
    }
    Ok(dims)
}

/// `dims` the other way round.
fn reversed(dims: &Vec<u64>) -> (r: Vec<u64>)
    ensures
        r@ == dims@.reverse(),
{
    let mut r: Vec<u64> = Vec::new();
    let mut i: usize = dims.len();
    while i > 0
        invariant
            i <= dims@.len(),
            r@ == dims@.reverse().take(dims@.len() - i),
        decreases i,
    {
        i -= 1;
        r.push(dims[i]);
        proof {
            let n = dims@.len() - i;
            assert(dims@.reverse().take(n) =~= dims@.reverse().take(n - 1).push(dims@[i as int]));
        }
    }
    proof {
        assert(dims@.reverse().take(dims@.len() as int) =~= dims@.reverse());
    }
    r
}

/// The byte length of a tensor, as far as it is known.
pub open spec fn known_len(d: DTypeV, n: nat) -> Option<u64> {
    match byte_len(d, n) {
        Some(l) => Some(l as u64),
        None => None,
    }
}

/// The next tensor info. Dimensions stand fastest-varying first in the file.
pub open spec fn next_tensor(data: Seq<u8>, pos: int) -> Result<(TensorV, int), Fault> {
    match next_string(data, pos) {
        Err(e) => Err(e),
        Ok((name, p1)) => match next_u32(data, p1) {
            Err(e) => Err(e),
            Ok((n_dims, p2)) => if n_dims > MAX_DIMS {
                Err(
                    Fault::LimitExceeded {
                        what: "tensor rank"@,
                        got: n_dims as nat,
                        limit: MAX_DIMS as nat,
                    },
                )
            } else {
                match next_dims(data, p2, n_dims as nat) {
                    Err(e) => Err(e),
                    Ok((dims, p3)) => match next_u32(data, p3) {
                        Err(e) => Err(e),
                        Ok((type_id, p4)) => match next_u64(data, p4) {
                            Err(e) => Err(e),
                            Ok((offset, p5)) => match checked_product(dims.reverse()) {
                                None => Err(
                                    Fault::Malformed {
                                        context: "tensor shape"@,
                                        detail: name + ": element count overflows u64"@,
                                    },
                                ),
                                Some(n) => Ok(
                                    (
                                        TensorV {
                                            name,
                                            shape: dims.reverse(),
                                            dtype: ggml_dtype(type_id),
                                            file_index: 0,
                                            data_offset: offset,
                                            data_len: known_len(ggml_dtype(type_id), n),
                                        },
                                        p5,
                                    ),
                                ),
                            },
                        },
                    },
                }
            },
        },
    }
}

/// Reads one tensor info.
fn read_tensor(r: &mut ByteReader) -> (v: Result<TensorDesc, FormatError>)
    requires
        old(r).wf(),
    ensures
        final(r).wf(),
        final(r).data == old(r).data,
        match v {
            Ok(t) => next_tensor(old(r).data@, old(r).pos as int) == Ok::<(TensorV, int), Fault>(
                (t@, final(r).pos as int),
            ),
            Err(e) => next_tensor(old(r).data@, old(r).pos as int) == Err::<(TensorV, int), Fault>(
                e@,
            ),
        },
{
    let name = match read_string(r) {
        Ok(s) => s,
        Err(e) => return Err(e),
    };
    let n_dims: u32 = match read_u32(r) {
        Ok(n) => n,
        Err(e) => return Err(e),
    };
    if n_dims > MAX_DIMS {
        return Err(
            FormatError::LimitExceeded {
                what: "tensor rank",
                got: n_dims as u64,
                limit: MAX_DIMS as u64,
            },
        );
    }
    let dims = match read_dims(r, n_dims) {
        Ok(d) => d,
        Err(e) => return Err(e),
    };
    let shape = reversed(&dims);
    let dtype = match read_u32(r) {
        Ok(t) => dtype_from_ggml(t),
        Err(e) => return Err(e),
    };
    let data_offset: u64 = match read_u64(r) {
        Ok(o) => o,
        Err(e) => return Err(e),
    };
    let n_elems: u64 = match element_count(&shape) {
        Some(n) => n,
        None => {
            let mut detail = name;
            detail.append(": element count overflows u64");
            return Err(FormatError::Malformed { context: "tensor shape", detail });
        },
    };
    let data_len = dtype.byte_len(n_elems);
    Ok(TensorDesc { name, shape, dtype, file_index: 0, data_offset, data_len })
}

/// The next `count` tensor infos.
pub open spec fn next_tensors(data: Seq<u8>, pos: int, count: nat) -> Result<
    (Seq<TensorV>, int),
    Fault,
>
    decreases count,
{
    if count == 0 {
        Ok((Seq::empty(), pos))
    } else {
        match next_tensors(data, pos, (count - 1) as nat) {
            Err(e) => Err(e),
            Ok((ts, p)) => match next_tensor(data, p) {
                Err(e) => Err(e),
                Ok((t, q)) => Ok((ts.push(t), q)),
            },
        }
    }
}

/// A fault among the first `k` tensor infos is the fault of the whole.
proof fn lemma_tensors_fault(data: Seq<u8>, pos: int, k: nat, count: nat)
    requires
        k <= count,
        next_tensors(data, pos, k) is Err,
    ensures
        next_tensors(data, pos, count) == next_tensors(data, pos, k),
    decreases count - k,
{
    if k < count {
        lemma_tensors_fault(data, pos, k, (count - 1) as nat);
    }
}

/// Reads `count` tensor infos.
fn read_tensors(r: &mut ByteReader, count: u64) -> (v: Result<Vec<TensorDesc>, FormatError>)
    requires
        old(r).wf(),
    ensures
        final(r).wf(),
        final(r).data == old(r).data,
        match v {
            Ok(ts) => next_tensors(old(r).data@, old(r).pos as int, count as nat) == Ok::<
                (Seq<TensorV>, int),
                Fault,
            >((tensors_view(ts@), final(r).pos as int)),
            Err(e) => next_tensors(old(r).data@, old(r).pos as int, count as nat) == Err::<
                (Seq<TensorV>, int),
                Fault,
            >(e@),
        },
{
    let ghost data = r.data@;
    let ghost start = r.pos as int;
    let mut ts: Vec<TensorDesc> = Vec::new();
    let mut i: u64 = 0;
    proof {
        assert(tensors_view(ts@) =~= Seq::<TensorV>::empty());
    }
    while i < count
        invariant
            i <= count,
            r.wf(),
            r.data == old(r).data,
            data == old(r).data@,
            start == old(r).pos,
            next_tensors(data, start, i as nat) == Ok::<(Seq<TensorV>, int), Fault>(
                (tensors_view(ts@), r.pos as int),
            ),
        decreases count - i,
    {
        let ghost before = tensors_view(ts@);
        match read_tensor(r) {
            Ok(t) => {
                ts.push(t);
                proof {
                    assert(tensors_view(ts@) =~= before.push(t@));
                }
            },
            Err(e) => {
                proof {
                    lemma_tensors_fault(data, start, i as nat + 1, count as nat);
                }
                return Err(e);
            },
        }
        i += 1;
    }
    Ok(ts)
}

/// The alignment of the data section, 32 where the metadata does not say.
pub open spec fn alignment_of(meta: Seq<EntryV>) -> u64 {
    match lookup(meta, "general.alignment"@) {
        Some(v) => match as_u64(v) {
            Some(a) => a,
            None => 32,
        },
        None => 32,
    }
}

/// The first tensor whose data does not stand at a multiple of `a`.
pub open spec fn first_misaligned(ts: Seq<TensorV>, a: u64) -> Option<TensorV>
    decreases ts.len(),
{
    if ts.len() == 0 {
        None
    } else {
        match first_misaligned(ts.drop_last(), a) {
            Some(t) => Some(t),
            None => if ts.last().data_offset % a != 0 {
                Some(ts.last())
            } else {
                None
            },
        }
    }
}

/// The fault of a data section that is not aligned.
pub open spec fn alignment_fault(ts: Seq<TensorV>, a: u64) -> Option<Fault> {
    if !is_pow2(a as int) {
        Some(
            Fault::Malformed {
                context: "general.alignment"@,
                detail: dec(a as nat) + " is not a power of two"@,
            },
        )
    } else {
        match first_misaligned(ts, a) {
            Some(t) => Some(
                Fault::Malformed {
                    context: "tensor offset"@,
                    detail: t.name + ": offset "@ + dec(t.data_offset as nat) + " not "@ + dec(
                        a as nat,
                    ) + "-aligned"@,
                },
            ),
            None => None,
        }
    }
}

/// Whether `a` is a power of two.
pub fn is_power_of_two(a: u64) -> (r: bool)
    ensures
        r == is_pow2(a as int),
{
    proof {
        reveal(is_pow2);
    }
    if a == 0 {
        return false;
    }
    let mut x: u64 = a;
    while x % 2 == 0
        invariant
            x > 0,
            is_pow2(a as int) == is_pow2(x as int),
        decreases x,
    {
        proof {
            reveal(is_pow2);
        }
        x = x / 2;
    }
    proof {
        reveal(is_pow2);
    }
    x == 1
}

/// Checks the alignment of the data section.
fn check_alignment(ts: &Vec<TensorDesc>, a: u64) -> (r: Option<FormatError>)
    ensures
        match r {
            Some(e) => alignment_fault(tensors_view(ts@), a) == Some(e@),
            None => alignment_fault(tensors_view(ts@), a) is None,
        },
{
    if !is_power_of_two(a) {
        let mut detail = dec_text(a);
        detail.append(" is not a power of two");
        return Some(FormatError::Malformed { context: "general.alignment", detail });
    }
    proof {
        reveal(is_pow2);
    }
    let ghost all = tensors_view(ts@);
    let mut i: usize = 0;
    while i < ts.len()
        invariant
            i <= ts@.len(),
            a > 0,
            is_pow2(a as int),
            all == tensors_view(ts@),
            first_misaligned(all.take(i as int), a) is None,
        decreases ts.len() - i,
    {
        proof {
            assert(all.take(i + 1).drop_last() =~= all.take(i as int));
            assert(all.take(i + 1).last() == ts@[i as int]@);
        }
        if ts[i].data_offset % a != 0 {
            proof {
                lemma_misaligned_stays(all, a, i + 1);
            }
            let mut detail = ts[i].name.clone();
            detail.append(": offset ");
            detail.append(dec_text(ts[i].data_offset).as_str());
            detail.append(" not ");
            detail.append(dec_text(a).as_str());
            detail.append("-aligned");
            return Some(FormatError::Malformed { context: "tensor offset", detail });
        }
        i += 1;
    }
    proof {
        assert(all.take(i as int) =~= all);
    }
    None
}

/// The first misaligned tensor of a prefix is that of the whole.
proof fn lemma_misaligned_stays(ts: Seq<TensorV>, a: u64, k: int)
    requires
        0 <= k <= ts.len(),
        first_misaligned(ts.take(k), a) is Some,
    ensures
        first_misaligned(ts, a) == first_misaligned(ts.take(k), a),
    decreases ts.len() - k,
{
    if k == ts.len() {
        assert(ts.take(k) =~= ts);
    } else {
        assert(ts.take(k + 1).drop_last() =~= ts.take(k));
        lemma_misaligned_stays(ts, a, k + 1);
    }
}

/// The smallest multiple of `a` that is not below `x`.
pub open spec fn round_up(x: int, a: int) -> int {
    (x + a - 1) / a * a
}

/// The smallest multiple of `a` that is not below `x`.
pub fn next_multiple(x: u64, a: u64) -> (r: u64)
    requires
        a > 0,
        x <= 0x7FFF_FFFF_FFFF_FFFF,
        a <= 0x8000_0000_0000_0000,
    ensures
        r == round_up(x as int, a as int),
{
    let rem: u64 = x % a;
    proof {
        let q = (x / a) as int;
        vstd::arithmetic::div_mod::lemma_fundamental_div_mod(x as int, a as int);
        if rem == 0 {
            assert(x + a - 1 == q * a + (a - 1)) by (nonlinear_arith)
                requires
                    x == a * q,
            ;
            vstd::arithmetic::div_mod::lemma_fundamental_div_mod_converse(
                x + a - 1,
                a as int,
                q,
                a - 1,
            );
            assert(q * a == x) by (nonlinear_arith)
                requires
                    x == a * q,
            ;
        } else {
            assert(x + a - 1 == (q + 1) * a + (rem - 1)) by (nonlinear_arith)
                requires
                    x == a * q + rem,
            ;
            vstd::arithmetic::div_mod::lemma_fundamental_div_mod_converse(
                x + a - 1,
                a as int,
                q + 1,
                rem - 1,
            );
            assert((q + 1) * a == x - rem + a) by (nonlinear_arith)
                requires
                    x == a * q + rem,
            ;
        }
    }
    if rem == 0 {
        x
    } else {
        x - rem + a
    }
}

/// The integer under `key`, or the fault of its absence.
pub open spec fn required_u64(meta: Seq<EntryV>, key: Seq<char>) -> Result<u64, Fault> {
    match lookup(meta, key) {
        Some(v) => match as_u64(v) {
            Some(n) => Ok(n),
            None => Err(Fault::MissingKey(key)),
        },
        None => Err(Fault::MissingKey(key)),
    }
}

/// The integer under `key`, or the error of its absence.
fn get_u64(meta: &Vec<Entry>, key: &str) -> (r: Result<u64, FormatError>)
    ensures
        match r {
            Ok(n) => required_u64(entries_view(meta@), key@) == Ok::<u64, Fault>(n),
            Err(e) => required_u64(entries_view(meta@), key@) == Err::<u64, Fault>(e@),
        },
{
    match get(meta, key) {
        Some(v) => match v.as_u64() {
            Some(n) => Ok(n),
            None => Err(FormatError::MissingKey(key.to_owned())),
        },
        None => Err(FormatError::MissingKey(key.to_owned())),
    }
}

/// The number under `key`, or `default`.
pub open spec fn f32_or(meta: Seq<EntryV>, key: Seq<char>, default: u32) -> u32 {
    match lookup(meta, key) {
        Some(v) => match as_f32(v) {
            Some(x) => x,
            None => default,
        },
        None => default,
    }
}

fn get_f32_or(meta: &Vec<Entry>, key: &str, default: u32) -> (r: u32)
    ensures
        r == f32_or(entries_view(meta@), key@, default),
{
    match get(meta, key) {
        Some(v) => match v.as_f32() {
            Some(x) => x,
            None => default,
        },
        None => default,
    }
}

/// The text under `key`.
pub open spec fn text_at(meta: Seq<EntryV>, key: Seq<char>) -> Option<Seq<char>> {
    match lookup(meta, key) {
        Some(v) => as_text(v),
        None => None,
    }
}

fn get_text<'a>(meta: &'a Vec<Entry>, key: &str) -> (r: Option<&'a str>)
    ensures
        match r {
            Some(s) => text_at(entries_view(meta@), key@) == Some(s@),
            None => text_at(entries_view(meta@), key@) is None,
        },
{
    match get(meta, key) {
        Some(v) => v.as_str(),
        None => None,
    }
}

/// The number of tokens that the metadata lists.
pub open spec fn token_count(meta: Seq<EntryV>) -> Option<nat> {
    match lookup(meta, "tokenizer.ggml.tokens"@) {
        Some(v) => array_len(v),
        None => None,
    }
}

fn get_token_count(meta: &Vec<Entry>) -> (r: Option<u64>)
    ensures
        match r {
            Some(n) => token_count(entries_view(meta@)) == Some(n as nat),
            None => token_count(entries_view(meta@)) is None,
        },
{
    match get(meta, "tokenizer.ggml.tokens") {
        Some(v) => v.array_len(),
        None => None,
    }
}

/// The first dimension of the first tensor called `name`.
pub open spec fn rows_of(ts: Seq<TensorV>, name: Seq<char>) -> Option<u64>
    decreases ts.len(),
{
    if ts.len() == 0 {
        None
    } else if ts[0].name == name {
        if ts[0].shape.len() > 0 {
            Some(ts[0].shape[0])
        } else {
            None
        }
    } else {
        rows_of(ts.skip(1), name)
    }
}

fn find_rows(ts: &Vec<TensorDesc>, name: &str) -> (r: Option<u64>)
    ensures
        r == rows_of(tensors_view(ts@), name@),
{
    let ghost all = tensors_view(ts@);
    let mut i: usize = 0;
    proof {
        assert(all.skip(0) =~= all);
    }
    while i < ts.len()
        invariant
            i <= ts@.len(),
            all == tensors_view(ts@),
            rows_of(all, name@) == rows_of(all.skip(i as int), name@),
        decreases ts.len() - i,
    {
        proof {
            assert(all.skip(i as int)[0] == ts@[i as int]@);
            assert(all.skip(i as int).skip(1) =~= all.skip(i + 1));
        }
        if text_eq(ts[i].name.as_str(), name) {
            return if ts[i].shape.len() > 0 {
                Some(ts[i].shape[0])
            } else {
                None
            };
        }
        i += 1;
    }
    None
}

/// `{arch}.{suffix}`.
pub open spec fn arch_key(arch: Seq<char>, suffix: Seq<char>) -> Seq<char> {
    arch + "."@ + suffix
}

fn key_text(arch: &str, suffix: &str) -> (s: String)
    ensures
        s@ == arch_key(arch@, suffix@),
{
    let mut s = arch.to_owned();
    s.append(".");
    s.append(suffix);
    s
}

/// The size of the vocabulary: what the metadata says, else the number of tokens
/// that it lists, else the rows of the token embedding.
pub open spec fn vocab_of(meta: Seq<EntryV>, ts: Seq<TensorV>, arch: Seq<char>) -> Result<
    u64,
    Fault,
> {
    match required_u64(meta, arch_key(arch, "vocab_size"@)) {
        Ok(v) => Ok(v),
        Err(e) => match token_count(meta) {
            Some(n) => Ok(n as u64),
            None => match rows_of(ts, "token_embd.weight"@) {
                Some(n) => Ok(n),
                None => Err(e),
            },
        },
    }
}

/// 10000 in single precision, the default base of rotary embedding.
pub const DEFAULT_ROPE_THETA: u32 = 0x461C_4000;

/// 1e-5 in single precision, the default epsilon of the norms.
pub const DEFAULT_NORM_EPS: u32 = 0x3727_C5AC;

/// The hyperparameters that the metadata gives, for the architecture id `arch`.
pub open spec fn hyperparams_of(meta: Seq<EntryV>, ts: Seq<TensorV>, arch: Seq<char>) -> Result<
    HyperParams,
    Fault,
> {
    match required_u64(meta, arch_key(arch, "attention.head_count"@)) {
        Err(e) => Err(e),
        Ok(n_heads) => match vocab_of(meta, ts, arch) {
            Err(e) => Err(e),
            Ok(vocab_size) => match required_u64(meta, arch_key(arch, "embedding_length"@)) {
                Err(e) => Err(e),
                Ok(hidden_size) => match required_u64(meta, arch_key(arch, "block_count"@)) {
                    Err(e) => Err(e),
                    Ok(n_layers) => match required_u64(
                        meta,
                        arch_key(arch, "feed_forward_length"@),
                    ) {
                        Err(e) => Err(e),
                        Ok(ffn_hidden_size) => Ok(
                            HyperParams {
                                vocab_size,
                                hidden_size,
                                n_layers,
                                n_heads,
                                n_kv_heads: match required_u64(
                                    meta,
                                    arch_key(arch, "attention.head_count_kv"@),
                                ) {
                                    Ok(n) => n,
                                    Err(_) => n_heads,
                                },
                                ffn_hidden_size,
                                rope_theta: f32_or(
                                    meta,
                                    arch_key(arch, "rope.freq_base"@),
                                    DEFAULT_ROPE_THETA,
                                ),
                                norm_eps: f32_or(
                                    meta,
                                    arch_key(arch, "attention.layer_norm_rms_epsilon"@),
                                    DEFAULT_NORM_EPS,
                                ),
                                context_length: match required_u64(
                                    meta,
                                    arch_key(arch, "context_length"@),
                                ) {
                                    Ok(n) => n,
                                    Err(_) => 0,
                                },
                                rope_style: RopeStyle::Interleaved,
                            },
                        ),
                    },
                },
            },
        },
    }
}

fn get_vocab(meta: &Vec<Entry>, ts: &Vec<TensorDesc>, arch: &str) -> (r: Result<u64, FormatError>)
    ensures
        match r {
            Ok(v) => vocab_of(entries_view(meta@), tensors_view(ts@), arch@) == Ok::<u64, Fault>(v),
            Err(e) => vocab_of(entries_view(meta@), tensors_view(ts@), arch@) == Err::<u64, Fault>(
                e@,
            ),
        },
{
    match get_u64(meta, key_text(arch, "vocab_size").as_str()) {
        Ok(v) => Ok(v),
        Err(e) => match get_token_count(meta) {
            Some(n) => Ok(n),
            None => match find_rows(ts, "token_embd.weight") {
                Some(n) => Ok(n),
                None => Err(e),
            },
        },
    }
}

/// The hyperparameters that the metadata gives, for the architecture id `arch`.
fn extract_hyperparams(meta: &Vec<Entry>, ts: &Vec<TensorDesc>, arch: &str) -> (r: Result<
    HyperParams,
    FormatError,
>)
    ensures
        match r {
            Ok(h) => hyperparams_of(entries_view(meta@), tensors_view(ts@), arch@) == Ok::<
                HyperParams,
                Fault,
            >(h),
            Err(e) => hyperparams_of(entries_view(meta@), tensors_view(ts@), arch@) == Err::<
                HyperParams,
                Fault,
            >(e@),
        },
{
    let n_heads: u64 = match get_u64(meta, key_text(arch, "attention.head_count").as_str()) {
        Ok(n) => n,
        Err(e) => return Err(e),
    };
    let vocab_size: u64 = match get_vocab(meta, ts, arch) {
        Ok(n) => n,
        Err(e) => return Err(e),
    };
    let hidden_size: u64 = match get_u64(meta, key_text(arch, "embedding_length").as_str()) {
        Ok(n) => n,
        Err(e) => return Err(e),
    };
    let n_layers: u64 = match get_u64(meta, key_text(arch, "block_count").as_str()) {
        Ok(n) => n,
        Err(e) => return Err(e),
    };
    let ffn_hidden_size: u64 = match get_u64(meta, key_text(arch, "feed_forward_length").as_str()) {
        Ok(n) => n,
        Err(e) => return Err(e),
    };
    let n_kv_heads: u64 = match get_u64(meta, key_text(arch, "attention.head_count_kv").as_str()) {
        Ok(n) => n,
        Err(_) => n_heads,
    };
    let context_length: u64 = match get_u64(meta, key_text(arch, "context_length").as_str()) {
        Ok(n) => n,
        Err(_) => 0,
    };
    let rope_theta: u32 = get_f32_or(
        meta,
        key_text(arch, "rope.freq_base").as_str(),
        DEFAULT_ROPE_THETA,
    );
    let norm_eps: u32 = get_f32_or(
        meta,
        key_text(arch, "attention.layer_norm_rms_epsilon").as_str(),
        DEFAULT_NORM_EPS,
    );
    Ok(
        HyperParams {
            vocab_size,
            hidden_size,
            n_layers,
            n_heads,
            n_kv_heads,
            ffn_hidden_size,
            rope_theta,
            norm_eps,
            context_length,
            rope_style: RopeStyle::Interleaved,
        },
    )
}

/// A tensor under its canonical name, where it has one.
pub open spec fn renamed(t: TensorV) -> TensorV {
    TensorV { name: name_or(t.name, gguf_name(t.name)), ..t }
}

/// Tensors under their canonical names.
pub open spec fn all_renamed(ts: Seq<TensorV>) -> Seq<TensorV> {
    Seq::new(ts.len(), |i: int| renamed(ts[i]))
}

/// Puts tensors under their canonical names.
fn rename_all(tensors: Vec<TensorDesc>) -> (r: Vec<TensorDesc>)
    ensures
        tensors_view(r@) == all_renamed(tensors_view(tensors@)),
{
    let ghost before = tensors@;
    let mut ts = tensors;
    let n: usize = ts.len();
    let mut i: usize = 0;
    while i < n
        invariant
            i <= n,
            n == before.len(),
            ts@.len() == n,
            forall|k: int| 0 <= k < i ==> (#[trigger] ts@[k])@ == renamed(before[k]@),
            forall|k: int| i <= k < n ==> #[trigger] ts@[k] == before[k],
        decreases n - i,
    {
        if let Some(s) = canonical_gguf(ts[i].name.as_str()) {
            ts[i].name = s;
        }
        i += 1;
    }
    proof {
        assert(tensors_view(ts@) =~= all_renamed(tensors_view(before)));
    }
    ts
}

/// The model that metadata and tensor infos describe, where the header ends at
/// `pos`. Faults name tensors as the file does; the model has their canonical names.
pub open spec fn described(meta: Seq<EntryV>, ts: Seq<TensorV>, pos: int) -> Result<ModelV, Fault> {
    let a = alignment_of(meta);
    match alignment_fault(ts, a) {
        Some(e) => Err(e),
        None => match text_at(meta, "general.architecture"@) {
            None => Err(Fault::MissingKey("general.architecture"@)),
            Some(arch) => match hyperparams_of(meta, ts, arch) {
                Err(e) => Err(e),
                Ok(hyperparams) => Ok(
                    ModelV {
                        architecture: architecture_of(arch),
                        name: text_at(meta, "general.name"@),
                        hyperparams,
                        tensors: all_renamed(ts),
                        weight_files: Seq::empty(),
                        data_section_offsets: seq![round_up(pos, a as int) as u64],
                        tokenizer: match token_count(meta) {
                            Some(_) => Some(TokenizerV::Embedded),
                            None => None,
                        },
                    },
                ),
            },
        },
    }
}

/// What a parse returned.
pub open spec fn model_outcome(r: Result<ModelDesc, FormatError>) -> Result<ModelV, Fault> {
    match r {
        Ok(m) => Ok(m@),
        Err(e) => Err(e@),
    }
}

/// The model that metadata and tensor infos describe, where the header ends at
/// `pos`.
fn describe(meta: &Vec<Entry>, tensors: Vec<TensorDesc>, pos: usize) -> (r: Result<
    ModelDesc,
    FormatError,
>)
    requires
        pos <= 0x7FFF_FFFF_FFFF_FFFF,
    ensures
        model_outcome(r) == described(entries_view(meta@), tensors_view(tensors@), pos as int),
{
    let alignment: u64 = match get(meta, "general.alignment") {
        Some(v) => match v.as_u64() {
            Some(a) => a,
            None => 32,
        },
        None => 32,
    };
    if let Some(e) = check_alignment(&tensors, alignment) {
        return Err(e);
    }
    proof {
        reveal(is_pow2);
        lemma_pow2_u64(alignment);
    }
    let data_section: u64 = next_multiple(pos as u64, alignment);
    let arch = match get_text(meta, "general.architecture") {
        Some(s) => s,
        None => return Err(FormatError::MissingKey("general.architecture".to_owned())),
    };
    let hyperparams = match extract_hyperparams(meta, &tensors, arch) {
        Ok(h) => h,
        Err(e) => return Err(e),
    };
    let name = match get_text(meta, "general.name") {
        Some(s) => Some(s.to_owned()),
        None => None,
    };
    let tokenizer = match get_token_count(meta) {
        Some(_) => Some(TokenizerSpec::Embedded),
        None => None,
    };
    let mut offsets: Vec<u64> = Vec::new();
    offsets.push(data_section);
    let weight_files: Vec<String> = Vec::new();
    proof {
        assert(texts_view(weight_files@) =~= Seq::<Seq<char>>::empty());
        assert(offsets@ =~= seq![data_section]);
    }
    Ok(
        ModelDesc {
            architecture: Architecture::from_id(arch),
            name,
            hyperparams,
            tensors: rename_all(tensors),
            weight_files,
            data_section_offsets: offsets,
            tokenizer,
        },
    )
}

/// A 64-bit power of two is at most `2^63`.
pub proof fn lemma_pow2_u64(a: u64)
    requires
        is_pow2(a as int),
    ensures
        a <= 0x8000_0000_0000_0000,
{
    vstd::arithmetic::power2::is_pow2_equiv(a as int);
    let e = choose|e: nat| vstd::arithmetic::power::pow(2, e) == a as int;
    vstd::arithmetic::power2::lemma_pow2_pos(e);
    vstd::arithmetic::power2::lemma2_to64();
    vstd::arithmetic::power2::lemma2_to64_rest();
    if e > 63 {
        if e > 64 {
            vstd::arithmetic::power2::lemma_pow2_strictly_increases(64, e);
        }
    } else if e < 63 {
        vstd::arithmetic::power2::lemma_pow2_strictly_increases(e, 63);
    }
}

/// The four bytes that a GGUF file starts with.
pub open spec fn magic() -> Seq<u8> {
    seq![0x47u8, 0x47u8, 0x55u8, 0x46u8]
}

/// The model that a GGUF header describes, or what is wrong with it.
pub open spec fn parsed(data: Seq<u8>) -> Result<ModelV, Fault> {
    if data.len() < 4 || data.take(4) != magic() {
        Err(Fault::BadMagic("GGUF"@))
    } else {
        match next_u32(data, 4) {
            Err(e) => Err(e),
            Ok((version, p1)) => if version < 2 || version > 3 {
                Err(Fault::UnsupportedVersion(version))
            } else {
                match next_u64(data, p1) {
                    Err(e) => Err(e),
                    Ok((tensor_count, p2)) => if tensor_count > MAX_TENSORS {
                        Err(
                            Fault::LimitExceeded {
                                what: "tensor count"@,
                                got: tensor_count as nat,
                                limit: MAX_TENSORS as nat,
                            },
                        )
                    } else {
                        match next_u64(data, p2) {
                            Err(e) => Err(e),
                            Ok((kv_count, p3)) => if kv_count > MAX_KV_PAIRS {
                                Err(
                                    Fault::LimitExceeded {
                                        what: "metadata kv count"@,
                                        got: kv_count as nat,
                                        limit: MAX_KV_PAIRS as nat,
                                    },
                                )
                            } else {
                                match next_entries(data, p3, kv_count as nat) {
                                    Err(e) => Err(e),
                                    Ok((meta, p4)) => match next_tensors(
                                        data,
                                        p4,
                                        tensor_count as nat,
                                    ) {
                                        Err(e) => Err(e),
                                        Ok((ts, p5)) => described(meta, ts, p5),
                                    },
                                }
                            },
                        }
                    },
                }
            },
        }
    }
}

/// Parses a GGUF header at the start of `data`. No slice is longer than
/// `isize::MAX` bytes.
pub fn parse(data: &[u8]) -> (r: Result<ModelDesc, FormatError>)
    requires
        data@.len() <= 0x7FFF_FFFF_FFFF_FFFF,
    ensures
        model_outcome(r) == parsed(data@),
{
    if data.len() < 4 {
        return Err(FormatError::BadMagic { expected: "GGUF" });
    }
    let is_magic: bool = data[0] == 0x47 && data[1] == 0x47 && data[2] == 0x55 && data[3] == 0x46;
    proof {
        if is_magic {
            assert(data@.take(4) =~= magic());
        } else {
            assert(data@.take(4)[0] == data@[0] && data@.take(4)[1] == data@[1]);
            assert(data@.take(4)[2] == data@[2] && data@.take(4)[3] == data@[3]);
        }
    }
    if !is_magic {
        return Err(FormatError::BadMagic { expected: "GGUF" });
    }
    let mut r = ByteReader { data, pos: 4 };
    let version: u32 = match read_u32(&mut r) {
        Ok(v) => v,
        Err(e) => return Err(e),
    };
    if version < 2 || version > 3 {
        return Err(FormatError::UnsupportedVersion(version));
    }
    let tensor_count: u64 = match read_u64(&mut r) {
        Ok(n) => n,
        Err(e) => return Err(e),
    };
    if tensor_count > MAX_TENSORS {
        return Err(
            FormatError::LimitExceeded {
                what: "tensor count",
                got: tensor_count,
                limit: MAX_TENSORS,
            },
        );
    }
    let kv_count: u64 = match read_u64(&mut r) {
        Ok(n) => n,
        Err(e) => return Err(e),
    };
    if kv_count > MAX_KV_PAIRS {
        return Err(
            FormatError::LimitExceeded {
                what: "metadata kv count",
                got: kv_count,
                limit: MAX_KV_PAIRS,
            },
        );
    }
    let meta = match read_entries(&mut r, kv_count) {
        Ok(m) => m,
        Err(e) => return Err(e),
    };
    let tensors = match read_tensors(&mut r, tensor_count) {
        Ok(t) => t,
        Err(e) => return Err(e),
    };
    describe(&meta, tensors, r.pos)
}

} // verus!
