//! A GGUF header says all by itself: what stands behind it does not count, and no
//! beginning of it is a header.

use vstd::prelude::*;

use crate::formats::error::Fault;
use crate::formats::gguf::value::{depth_left, next_items, next_value};
use crate::formats::gguf::{next_dims, next_entries, next_entry, next_tensor, next_tensors, parsed};
use crate::formats::read::{next_le, next_string, next_u32, next_u64};

verus! {

/// Whether `b` holds, as far as it reaches, the first `p` bytes of `a`.
pub open spec fn agree(a: Seq<u8>, b: Seq<u8>, p: int) -> bool {
    forall|i: int| 0 <= i < p && i < b.len() ==> a[i] == #[trigger] b[i]
}

/// Whether a read of `b` fares as one of `a` that went well and ended at `p`, where `b`
/// reaches that far, and fails where it does not.
pub open spec fn follows<T>(
    a: Result<(T, int), Fault>,
    b: Result<(T, int), Fault>,
    len: nat,
) -> bool {
    if a->Ok_0.1 <= len {
        b == a
    } else {
        b is Err
    }
}

proof fn lemma_le(a: Seq<u8>, b: Seq<u8>, pos: int, n: int, context: Seq<char>)
    requires
        0 <= pos <= a.len(),
        pos <= b.len(),
        0 <= n,
        next_le(a, pos, n, context) is Ok,
        agree(a, b, pos + n),
    ensures
        pos <= next_le(a, pos, n, context)->Ok_0.1 <= a.len(),
        follows(next_le(a, pos, n, context), next_le(b, pos, n, context), b.len()),
{
    if pos + n <= b.len() {
        assert(a.subrange(pos, pos + n) =~= b.subrange(pos, pos + n));
    }
}

proof fn lemma_string(a: Seq<u8>, b: Seq<u8>, pos: int)
    requires
        0 <= pos <= a.len(),
        pos <= b.len(),
        next_string(a, pos) is Ok,
        agree(a, b, next_string(a, pos)->Ok_0.1),
    ensures
        pos <= next_string(a, pos)->Ok_0.1 <= a.len(),
        follows(next_string(a, pos), next_string(b, pos), b.len()),
{
    lemma_le(a, b, pos, 8, "u64"@);
    let (len, p) = next_u64(a, pos)->Ok_0;
    if p + len <= b.len() {
        assert(a.subrange(p, p + len) =~= b.subrange(p, p + len));
    }
}

/// A read goes forward, and not beyond the end.
proof fn lemma_value_goes_on(a: Seq<u8>, pos: int, type_id: u32, depth: nat)
    requires
        0 <= pos <= a.len(),
        next_value(a, pos, type_id, depth) is Ok,
    ensures
        pos <= next_value(a, pos, type_id, depth)->Ok_0.1 <= a.len(),
    decreases depth_left(depth), 0nat,
{
    if type_id == 9 {
        let (elem_type, p) = next_u32(a, pos)->Ok_0;
        let (count, q) = next_u64(a, p)->Ok_0;
        lemma_items_go_on(a, q, elem_type, depth + 1, count as nat);
    }
}

proof fn lemma_items_go_on(a: Seq<u8>, pos: int, elem_type: u32, depth: nat, count: nat)
    requires
        0 <= pos <= a.len(),
        next_items(a, pos, elem_type, depth, count) is Ok,
    ensures
        pos <= next_items(a, pos, elem_type, depth, count)->Ok_0.1 <= a.len(),
    decreases depth_left(depth), count + 1,
{
    if count > 0 {
        lemma_items_go_on(a, pos, elem_type, depth, (count - 1) as nat);
        let (_, p) = next_items(a, pos, elem_type, depth, (count - 1) as nat)->Ok_0;
        lemma_value_goes_on(a, p, elem_type, depth);
    }
}

proof fn lemma_value(a: Seq<u8>, b: Seq<u8>, pos: int, type_id: u32, depth: nat)
    requires
        0 <= pos <= a.len(),
        pos <= b.len(),
        next_value(a, pos, type_id, depth) is Ok,
        agree(a, b, next_value(a, pos, type_id, depth)->Ok_0.1),
    ensures
        follows(next_value(a, pos, type_id, depth), next_value(b, pos, type_id, depth), b.len()),
    decreases depth_left(depth), 0nat,
{
    match type_id {
        0 => lemma_le(a, b, pos, 1, "u8"@),
        1 => lemma_le(a, b, pos, 1, "i8"@),
        2 => lemma_le(a, b, pos, 2, "u16"@),
        3 => lemma_le(a, b, pos, 2, "i16"@),
        4 => lemma_le(a, b, pos, 4, "u32"@),
        5 => lemma_le(a, b, pos, 4, "i32"@),
        6 => lemma_le(a, b, pos, 4, "f32"@),
        7 => lemma_le(a, b, pos, 1, "u8"@),
        8 => lemma_string(a, b, pos),
        9 => {
            let (elem_type, p) = next_u32(a, pos)->Ok_0;
            let (count, q) = next_u64(a, p)->Ok_0;
            lemma_items_go_on(a, q, elem_type, depth + 1, count as nat);
            lemma_le(a, b, pos, 4, "u32"@);
            if p <= b.len() {
                lemma_le(a, b, p, 8, "u64"@);
                if q <= b.len() {
                    lemma_items(a, b, q, elem_type, depth + 1, count as nat);
                }
            }
        },
        10 => lemma_le(a, b, pos, 8, "u64"@),
        11 => lemma_le(a, b, pos, 8, "i64"@),
        _ => lemma_le(a, b, pos, 8, "f64"@),
    }
}

proof fn lemma_items(a: Seq<u8>, b: Seq<u8>, pos: int, elem_type: u32, depth: nat, count: nat)
    requires
        0 <= pos <= a.len(),
        pos <= b.len(),
        next_items(a, pos, elem_type, depth, count) is Ok,
        agree(a, b, next_items(a, pos, elem_type, depth, count)->Ok_0.1),
    ensures
        follows(
            next_items(a, pos, elem_type, depth, count),
            next_items(b, pos, elem_type, depth, count),
            b.len(),
        ),
    decreases depth_left(depth), count + 1,
{
    if count > 0 {
        let k = (count - 1) as nat;
        let (_, p) = next_items(a, pos, elem_type, depth, k)->Ok_0;
        lemma_items_go_on(a, pos, elem_type, depth, k);
        lemma_value_goes_on(a, p, elem_type, depth);
        lemma_items(a, b, pos, elem_type, depth, k);
        if p <= b.len() {
            lemma_value(a, b, p, elem_type, depth);
        }
    }
}

proof fn lemma_entry(a: Seq<u8>, b: Seq<u8>, pos: int)
    requires
        0 <= pos <= a.len(),
        pos <= b.len(),
        next_entry(a, pos) is Ok,
        agree(a, b, next_entry(a, pos)->Ok_0.1),
    ensures
        pos <= next_entry(a, pos)->Ok_0.1 <= a.len(),
        follows(next_entry(a, pos), next_entry(b, pos), b.len()),
{
    let (_, p) = next_string(a, pos)->Ok_0;
    let (type_id, q) = next_u32(a, p)->Ok_0;
    lemma_value_goes_on(a, q, type_id, 0);
    lemma_string(a, b, pos);
    if p <= b.len() {
        lemma_le(a, b, p, 4, "u32"@);
        if q <= b.len() {
            lemma_value(a, b, q, type_id, 0);
        }
    }
}

proof fn lemma_entries_go_on(a: Seq<u8>, pos: int, count: nat)
    requires
        0 <= pos <= a.len(),
        next_entries(a, pos, count) is Ok,
    ensures
        pos <= next_entries(a, pos, count)->Ok_0.1 <= a.len(),
    decreases count,
{
    if count > 0 {
        lemma_entries_go_on(a, pos, (count - 1) as nat);
        lemma_entry(a, a, next_entries(a, pos, (count - 1) as nat)->Ok_0.1);
    }
}

proof fn lemma_entries(a: Seq<u8>, b: Seq<u8>, pos: int, count: nat)
    requires
        0 <= pos <= a.len(),
        pos <= b.len(),
        next_entries(a, pos, count) is Ok,
        agree(a, b, next_entries(a, pos, count)->Ok_0.1),
    ensures
        follows(next_entries(a, pos, count), next_entries(b, pos, count), b.len()),
    decreases count,
{
    if count > 0 {
        let k = (count - 1) as nat;
        let (_, p) = next_entries(a, pos, k)->Ok_0;
        lemma_entries_go_on(a, pos, k);
        lemma_entry(a, a, p);
        lemma_entries(a, b, pos, k);
        if p <= b.len() {
            lemma_entry(a, b, p);
        }
    }
}

proof fn lemma_dims(a: Seq<u8>, b: Seq<u8>, pos: int, count: nat)
    requires
        0 <= pos <= a.len(),
        pos <= b.len(),
        next_dims(a, pos, count) is Ok,
        agree(a, b, next_dims(a, pos, count)->Ok_0.1),
    ensures
        pos <= next_dims(a, pos, count)->Ok_0.1 <= a.len(),
        follows(next_dims(a, pos, count), next_dims(b, pos, count), b.len()),
    decreases count,
{
    if count > 0 {
        let k = (count - 1) as nat;
        let (_, p) = next_dims(a, pos, k)->Ok_0;
        lemma_dims(a, b, pos, k);
        if p <= b.len() {
            lemma_le(a, b, p, 8, "u64"@);
        }
    }
}

proof fn lemma_tensor(a: Seq<u8>, b: Seq<u8>, pos: int)
    requires
        0 <= pos <= a.len(),
        pos <= b.len(),
        next_tensor(a, pos) is Ok,
        agree(a, b, next_tensor(a, pos)->Ok_0.1),
    ensures
        pos <= next_tensor(a, pos)->Ok_0.1 <= a.len(),
        follows(next_tensor(a, pos), next_tensor(b, pos), b.len()),
{
    let (_, p1) = next_string(a, pos)->Ok_0;
    let (n_dims, p2) = next_u32(a, p1)->Ok_0;
    let (_, p3) = next_dims(a, p2, n_dims as nat)->Ok_0;
    let (_, p4) = next_u32(a, p3)->Ok_0;
    lemma_dims(a, a, p2, n_dims as nat);
    lemma_string(a, b, pos);
    if p1 <= b.len() {
        lemma_le(a, b, p1, 4, "u32"@);
        if p2 <= b.len() {
            lemma_dims(a, b, p2, n_dims as nat);
            if p3 <= b.len() {
                lemma_le(a, b, p3, 4, "u32"@);
                if p4 <= b.len() {
                    lemma_le(a, b, p4, 8, "u64"@);
                }
            }
        }
    }
}

proof fn lemma_tensors_go_on(a: Seq<u8>, pos: int, count: nat)
    requires
        0 <= pos <= a.len(),
        next_tensors(a, pos, count) is Ok,
    ensures
        pos <= next_tensors(a, pos, count)->Ok_0.1 <= a.len(),
    decreases count,
{
    if count > 0 {
        lemma_tensors_go_on(a, pos, (count - 1) as nat);
        lemma_tensor(a, a, next_tensors(a, pos, (count - 1) as nat)->Ok_0.1);
    }
}

proof fn lemma_tensors(a: Seq<u8>, b: Seq<u8>, pos: int, count: nat)
    requires
        0 <= pos <= a.len(),
        pos <= b.len(),
        next_tensors(a, pos, count) is Ok,
        agree(a, b, next_tensors(a, pos, count)->Ok_0.1),
    ensures
        follows(next_tensors(a, pos, count), next_tensors(b, pos, count), b.len()),
    decreases count,
{
    if count > 0 {
        let k = (count - 1) as nat;
        let (_, p) = next_tensors(a, pos, k)->Ok_0;
        lemma_tensors_go_on(a, pos, k);
        lemma_tensor(a, a, p);
        lemma_tensors(a, b, pos, k);
        if p <= b.len() {
            lemma_tensor(a, b, p);
        }
    }
}

/// Where the header of a file that can be parsed ends: behind the magic, the version,
/// the two counts, the metadata and the tensor infos.
pub open spec fn header_end(data: Seq<u8>) -> int {
    let tensor_count = next_u64(data, 8)->Ok_0.0;
    let kv_count = next_u64(data, 16)->Ok_0.0;
    let p = next_entries(data, 24, kv_count as nat)->Ok_0.1;
    next_tensors(data, p, tensor_count as nat)->Ok_0.1
}

proof fn lemma_header(a: Seq<u8>, b: Seq<u8>)
    requires
        parsed(a) is Ok,
        agree(a, b, header_end(a)),
    ensures
        24 <= header_end(a) <= a.len(),
        header_end(a) <= b.len() ==> parsed(b) == parsed(a) && header_end(b) == header_end(a),
        header_end(a) > b.len() ==> parsed(b) is Err,
{
    let tensor_count = next_u64(a, 8)->Ok_0.0 as nat;
    let kv_count = next_u64(a, 16)->Ok_0.0 as nat;
    let p = next_entries(a, 24, kv_count)->Ok_0.1;
    lemma_entries_go_on(a, 24, kv_count);
    lemma_tensors_go_on(a, p, tensor_count);
    if b.len() >= 4 {
        assert(a.take(4) =~= b.take(4));
        lemma_le(a, b, 4, 4, "u32"@);
        if b.len() >= 8 {
            lemma_le(a, b, 8, 8, "u64"@);
            if b.len() >= 16 {
                lemma_le(a, b, 16, 8, "u64"@);
                if b.len() >= 24 {
                    lemma_entries(a, b, 24, kv_count);
                    if b.len() >= p {
                        lemma_tensors(a, b, p, tensor_count);
                    }
                }
            }
        }
    }
}

/// The header of a file lies in the file. The file without what stands behind its
/// header, or with anything else there, is the same model: tensor data does not count.
pub proof fn law_only_the_header_counts(data: Seq<u8>, other: Seq<u8>)
    requires
        parsed(data) is Ok,
    ensures
        24 <= header_end(data) <= data.len(),
        parsed(data.take(header_end(data)) + other) == parsed(data),
{
    lemma_header(data, data);
    let b = data.take(header_end(data)) + other;
    lemma_header(data, b);
}

/// A file that ends inside its header is rejected, wherever it ends.
pub proof fn law_a_cut_header_is_rejected(data: Seq<u8>, k: int)
    requires
        parsed(data) is Ok,
        0 <= k < header_end(data),
    ensures
        parsed(data.take(k)) is Err,
{
    lemma_header(data, data);
    lemma_header(data, data.take(k));
}

} // verus!
