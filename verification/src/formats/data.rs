//! Where the bytes of a tensor stand. Offsets and lengths come from an untrusted
//! header, so every one is checked against the real file length.

use vstd::prelude::*;
use vstd::string::StringExecFns;

use crate::bytes::copy_range;
use crate::formats::desc::{ModelDesc, ModelV, TensorDesc, TensorV};
use crate::formats::error::{Fault, FormatError};
use crate::text::{dec, dec_text};

verus! {

/// The fault of tensor data that is not where the header says.
pub open spec fn bad_span(detail: Seq<char>) -> Fault {
    Fault::Malformed { context: "tensor data"@, detail }
}

/// The first and the last-but-one byte of a tensor in its weight file.
pub open spec fn span_of(m: ModelV, t: TensorV) -> Result<(u64, u64), Fault> {
    let idx = t.file_index as int;
    if idx >= m.weight_files.len() || idx >= m.data_section_offsets.len() {
        Err(bad_span(t.name + ": file index "@ + dec(t.file_index as nat) + " out of range"@))
    } else {
        match t.data_len {
            None => Err(bad_span(t.name + ": unknown data length"@)),
            Some(len) => {
                let start = m.data_section_offsets[idx] + t.data_offset;
                if start > u64::MAX {
                    Err(bad_span(t.name + ": offset overflow"@))
                } else if start + len > u64::MAX {
                    Err(bad_span(t.name + ": length overflow"@))
                } else {
                    Ok((start as u64, (start + len) as u64))
                }
            },
        }
    }
}

/// Where a tensor stands in its weight file: from the first byte up to the second,
/// which is not part of it.
pub fn tensor_span(desc: &ModelDesc, tensor: &TensorDesc) -> (r: Result<(u64, u64), FormatError>)
    ensures
        match r {
            Ok(s) => span_of(desc@, tensor@) == Ok::<(u64, u64), Fault>(s),
            Err(e) => span_of(desc@, tensor@) == Err::<(u64, u64), Fault>(e@),
        },
{
    let idx: usize = tensor.file_index as usize;
    if idx >= desc.weight_files.len() || idx >= desc.data_section_offsets.len() {
        let mut detail = tensor.name.clone();
        detail.append(": file index ");
        detail.append(dec_text(tensor.file_index as u64).as_str());
        detail.append(" out of range");
        return Err(FormatError::Malformed { context: "tensor data", detail });
    }
    let len: u64 = match tensor.data_len {
        Some(n) => n,
        None => {
            let mut detail = tensor.name.clone();
            detail.append(": unknown data length");
            return Err(FormatError::Malformed { context: "tensor data", detail });
        },
    };
    let start: u64 = match desc.data_section_offsets[idx].checked_add(tensor.data_offset) {
        Some(s) => s,
        None => {
            let mut detail = tensor.name.clone();
            detail.append(": offset overflow");
            return Err(FormatError::Malformed { context: "tensor data", detail });
        },
    };
    match start.checked_add(len) {
        Some(end) => Ok((start, end)),
        None => {
            let mut detail = tensor.name.clone();
            detail.append(": length overflow");
            Err(FormatError::Malformed { context: "tensor data", detail })
        },
    }
}

/// Where a tensor stands in a weight file of `file_len` bytes.
pub open spec fn span_within(m: ModelV, t: TensorV, file_len: nat) -> Result<(u64, u64), Fault> {
    match span_of(m, t) {
        Err(e) => Err(e),
        Ok((start, end)) => if end > file_len {
            Err(
                bad_span(
                    t.name + ": span "@ + dec(start as nat) + ".."@ + dec(end as nat)
                        + " exceeds file length "@ + dec(file_len),
                ),
            )
        } else {
            Ok((start, end))
        },
    }
}

/// Where a tensor stands in a weight file of `file_len` bytes.
pub fn tensor_span_within(desc: &ModelDesc, tensor: &TensorDesc, file_len: u64) -> (r: Result<
    (u64, u64),
    FormatError,
>)
    ensures
        match r {
            Ok(s) => span_within(desc@, tensor@, file_len as nat) == Ok::<(u64, u64), Fault>(s),
            Err(e) => span_within(desc@, tensor@, file_len as nat) == Err::<(u64, u64), Fault>(e@),
        },
{
    match tensor_span(desc, tensor) {
        Err(e) => Err(e),
        Ok((start, end)) => if end > file_len {
            let mut detail = tensor.name.clone();
            detail.append(": span ");
            detail.append(dec_text(start).as_str());
            detail.append("..");
            detail.append(dec_text(end).as_str());
            detail.append(" exceeds file length ");
            detail.append(dec_text(file_len).as_str());
            Err(FormatError::Malformed { context: "tensor data", detail })
        } else {
            Ok((start, end))
        },
    }
}

/// The bytes of a tensor, out of the contents of its weight file.
pub fn read_tensor_bytes(desc: &ModelDesc, tensor: &TensorDesc, file: &[u8]) -> (r: Result<
    Vec<u8>,
    FormatError,
>)
    ensures
        match r {
            Ok(b) => span_within(desc@, tensor@, file@.len()) matches Ok((start, end)) && b@
                == file@.subrange(start as int, end as int),
            Err(e) => span_within(desc@, tensor@, file@.len()) == Err::<(u64, u64), Fault>(e@),
        },
{
    match tensor_span_within(desc, tensor, file.len() as u64) {
        Err(e) => Err(e),
        Ok((start, end)) => Ok(copy_range(file, start as usize, (end - start) as usize)),
    }
}

/// What is read of a tensor is as long as the header says.
pub proof fn law_span_has_the_stated_length(m: ModelV, t: TensorV, file_len: nat)
    requires
        span_within(m, t, file_len) is Ok,
    ensures
        ({
            let (start, end) = span_within(m, t, file_len)->Ok_0;
            t.data_len == Some((end - start) as u64) && start <= end <= file_len
        }),
{
}

/// A tensor lies where its own file's data begins, and its own distance behind that; it can be
/// found if and only if its file is known, its length is known, and the sums fit.
pub proof fn law_where_tensors_lie(m: ModelV, t: TensorV)
    ensures
        ({
            let f = t.file_index as int;
            let first = m.data_section_offsets[f] + t.data_offset;
            let r = span_of(m, t);
            &&& r is Ok <==> f < m.weight_files.len() && f < m.data_section_offsets.len()
                && t.data_len is Some && first + t.data_len->0 <= u64::MAX
            &&& r matches Ok((start, end)) ==> start == first && end - start == t.data_len->0
            &&& r matches Err(e) ==> e is Malformed && t.name.is_prefix_of(e->Malformed_detail)
        }),
{
}

} // verus!
