//! Bounded little-endian readers over a byte slice. Input that ends early is
//! rejected; texts are limited in length.

use vstd::prelude::*;
use vstd::string::StringExecFns;
use vstd::utf8::{decode_utf8, valid_utf8};

use crate::bytes::{copy_range, get_le, le_value, lemma_pow256_values, pow256, signed};
use crate::formats::error::{Fault, FormatError};
use crate::formats::limits::MAX_STRING_BYTES;
use crate::text::{dec, dec_text};

verus! {

/// A position in a byte slice.
pub struct ByteReader<'a> {
    pub data: &'a [u8],
    pub pos: usize,
}

impl<'a> ByteReader<'a> {
    /// The position lies in the slice or at its end.
    pub open spec fn wf(&self) -> bool {
        self.pos <= self.data@.len()
    }

    /// A reader at the start of `data`.
    pub fn new(data: &'a [u8]) -> (r: Self)
        ensures
            r.wf(),
            r.data@ == data@,
            r.pos == 0,
    {
        ByteReader { data, pos: 0 }
    }
}

/// The fault of an input that ends inside `context`.
pub open spec fn eof(context: Seq<char>) -> Fault {
    Fault::Malformed { context, detail: "unexpected end of input"@ }
}

/// The next `n` bytes as a number, and the position behind them.
pub open spec fn next_le(data: Seq<u8>, pos: int, n: int, context: Seq<char>) -> Result<
    (nat, int),
    Fault,
> {
    if pos + n <= data.len() {
        Ok((le_value(data.subrange(pos, pos + n)), pos + n))
    } else {
        Err(eof(context))
    }
}

/// Where a read of the next `n` bytes leaves the reader: behind them, or at the end
/// of an input that holds fewer.
pub open spec fn reach(data: Seq<u8>, pos: int, n: int) -> int {
    if pos + n <= data.len() {
        pos + n
    } else {
        data.len() as int
    }
}

/// What a read returned, with the position that it left.
pub open spec fn outcome<T>(r: Result<T, FormatError>, pos: usize) -> Result<(T, int), Fault> {
    match r {
        Ok(v) => Ok((v, pos as int)),
        Err(e) => Err(e@),
    }
}

/// Reads the next `n` bytes as a number.
pub fn fill(r: &mut ByteReader, n: usize, context: &'static str) -> (v: Result<u64, FormatError>)
    requires
        old(r).wf(),
        n <= 8,
    ensures
        final(r).wf(),
        final(r).data == old(r).data,
        final(r).pos == reach(old(r).data@, old(r).pos as int, n as int),
        match v {
            Ok(x) => next_le(old(r).data@, old(r).pos as int, n as int, context@) == Ok::<
                (nat, int),
                Fault,
            >((x as nat, final(r).pos as int)) && x < pow256(n as nat),
            Err(e) => next_le(old(r).data@, old(r).pos as int, n as int, context@) == Err::<
                (nat, int),
                Fault,
            >(e@),
        },
{
    if n > r.data.len() - r.pos {
        r.pos = r.data.len();
        return Err(
            FormatError::Malformed { context, detail: "unexpected end of input".to_owned() },
        );
    }
    let v: u64 = get_le(r.data, r.pos, n);
    r.pos = r.pos + n;
    Ok(v)
}

/// The next `u8`.
pub open spec fn next_u8(data: Seq<u8>, pos: int) -> Result<(u8, int), Fault> {
    match next_le(data, pos, 1, "u8"@) {
        Ok((v, p)) => Ok((v as u8, p)),
        Err(e) => Err(e),
    }
}

/// Reads a `u8`.
pub fn read_u8(r: &mut ByteReader) -> (v: Result<u8, FormatError>)
    requires
        old(r).wf(),
    ensures
        final(r).wf(),
        final(r).data == old(r).data,
        final(r).pos == reach(old(r).data@, old(r).pos as int, 1),
        outcome(v, final(r).pos) == next_u8(old(r).data@, old(r).pos as int),
{
    proof {
        lemma_pow256_values();
    }
    match fill(r, 1, "u8") {
        Ok(v) => Ok(v as u8),
        Err(e) => Err(e),
    }
}

/// The next `u16`.
pub open spec fn next_u16(data: Seq<u8>, pos: int) -> Result<(u16, int), Fault> {
    match next_le(data, pos, 2, "u16"@) {
        Ok((v, p)) => Ok((v as u16, p)),
        Err(e) => Err(e),
    }
}

/// Reads a `u16`.
pub fn read_u16(r: &mut ByteReader) -> (v: Result<u16, FormatError>)
    requires
        old(r).wf(),
    ensures
        final(r).wf(),
        final(r).data == old(r).data,
        final(r).pos == reach(old(r).data@, old(r).pos as int, 2),
        outcome(v, final(r).pos) == next_u16(old(r).data@, old(r).pos as int),
{
    proof {
        lemma_pow256_values();
    }
    match fill(r, 2, "u16") {
        Ok(v) => Ok(v as u16),
        Err(e) => Err(e),
    }
}

/// The next `u32`.
pub open spec fn next_u32(data: Seq<u8>, pos: int) -> Result<(u32, int), Fault> {
    match next_le(data, pos, 4, "u32"@) {
        Ok((v, p)) => Ok((v as u32, p)),
        Err(e) => Err(e),
    }
}

/// Reads a `u32`.
pub fn read_u32(r: &mut ByteReader) -> (v: Result<u32, FormatError>)
    requires
        old(r).wf(),
    ensures
        final(r).wf(),
        final(r).data == old(r).data,
        final(r).pos == reach(old(r).data@, old(r).pos as int, 4),
        outcome(v, final(r).pos) == next_u32(old(r).data@, old(r).pos as int),
{
    proof {
        lemma_pow256_values();
    }
    match fill(r, 4, "u32") {
        Ok(v) => Ok(v as u32),
        Err(e) => Err(e),
    }
}

/// The next `u64`.
pub open spec fn next_u64(data: Seq<u8>, pos: int) -> Result<(u64, int), Fault> {
    match next_le(data, pos, 8, "u64"@) {
        Ok((v, p)) => Ok((v as u64, p)),
        Err(e) => Err(e),
    }
}

/// Reads a `u64`.
pub fn read_u64(r: &mut ByteReader) -> (v: Result<u64, FormatError>)
    requires
        old(r).wf(),
    ensures
        final(r).wf(),
        final(r).data == old(r).data,
        final(r).pos == reach(old(r).data@, old(r).pos as int, 8),
        outcome(v, final(r).pos) == next_u64(old(r).data@, old(r).pos as int),
{
    proof {
        lemma_pow256_values();
    }
    match fill(r, 8, "u64") {
        Ok(v) => Ok(v),
        Err(e) => Err(e),
    }
}

/// The next `i8`.
pub open spec fn next_i8(data: Seq<u8>, pos: int) -> Result<(i8, int), Fault> {
    match next_le(data, pos, 1, "i8"@) {
        Ok((v, p)) => Ok((signed(v, 0x80) as i8, p)),
        Err(e) => Err(e),
    }
}

/// Reads an `i8`.
pub fn read_i8(r: &mut ByteReader) -> (v: Result<i8, FormatError>)
    requires
        old(r).wf(),
    ensures
        final(r).wf(),
        final(r).data == old(r).data,
        final(r).pos == reach(old(r).data@, old(r).pos as int, 1),
        outcome(v, final(r).pos) == next_i8(old(r).data@, old(r).pos as int),
{
    proof {
        lemma_pow256_values();
    }
    match fill(r, 1, "i8") {
        Ok(v) => if v < 0x80 {
            Ok(v as i8)
        } else {
            Ok((v as i64 - 0x100) as i8)
        },
        Err(e) => Err(e),
    }
}

/// The next `i16`.
pub open spec fn next_i16(data: Seq<u8>, pos: int) -> Result<(i16, int), Fault> {
    match next_le(data, pos, 2, "i16"@) {
        Ok((v, p)) => Ok((signed(v, 0x8000) as i16, p)),
        Err(e) => Err(e),
    }
}

/// Reads an `i16`.
pub fn read_i16(r: &mut ByteReader) -> (v: Result<i16, FormatError>)
    requires
        old(r).wf(),
    ensures
        final(r).wf(),
        final(r).data == old(r).data,
        final(r).pos == reach(old(r).data@, old(r).pos as int, 2),
        outcome(v, final(r).pos) == next_i16(old(r).data@, old(r).pos as int),
{
    proof {
        lemma_pow256_values();
    }
    match fill(r, 2, "i16") {
        Ok(v) => if v < 0x8000 {
            Ok(v as i16)
        } else {
            Ok((v as i64 - 0x10000) as i16)
        },
        Err(e) => Err(e),
    }
}

/// The next `i32`.
pub open spec fn next_i32(data: Seq<u8>, pos: int) -> Result<(i32, int), Fault> {
    match next_le(data, pos, 4, "i32"@) {
        Ok((v, p)) => Ok((signed(v, 0x8000_0000) as i32, p)),
        Err(e) => Err(e),
    }
}

/// Reads an `i32`.
pub fn read_i32(r: &mut ByteReader) -> (v: Result<i32, FormatError>)
    requires
        old(r).wf(),
    ensures
        final(r).wf(),
        final(r).data == old(r).data,
        final(r).pos == reach(old(r).data@, old(r).pos as int, 4),
        outcome(v, final(r).pos) == next_i32(old(r).data@, old(r).pos as int),
{
    proof {
        lemma_pow256_values();
    }
    match fill(r, 4, "i32") {
        Ok(v) => if v < 0x8000_0000 {
            Ok(v as i32)
        } else {
            Ok((v as i64 - 0x100000000) as i32)
        },
        Err(e) => Err(e),
    }
}

/// The next `i64`.
pub open spec fn next_i64(data: Seq<u8>, pos: int) -> Result<(i64, int), Fault> {
    match next_le(data, pos, 8, "i64"@) {
        Ok((v, p)) => Ok((signed(v, 0x8000_0000_0000_0000) as i64, p)),
        Err(e) => Err(e),
    }
}

/// Reads an `i64`.
pub fn read_i64(r: &mut ByteReader) -> (v: Result<i64, FormatError>)
    requires
        old(r).wf(),
    ensures
        final(r).wf(),
        final(r).data == old(r).data,
        final(r).pos == reach(old(r).data@, old(r).pos as int, 8),
        outcome(v, final(r).pos) == next_i64(old(r).data@, old(r).pos as int),
{
    proof {
        lemma_pow256_values();
    }
    match fill(r, 8, "i64") {
        Ok(v) => if v < 0x8000_0000_0000_0000 {
            Ok(v as i64)
        } else {
            Ok((v as i128 - 0x1_0000_0000_0000_0000) as i64)
        },
        Err(e) => Err(e),
    }
}

/// The bits of the next single-precision number.
pub open spec fn next_f32(data: Seq<u8>, pos: int) -> Result<(u32, int), Fault> {
    match next_le(data, pos, 4, "f32"@) {
        Ok((v, p)) => Ok((v as u32, p)),
        Err(e) => Err(e),
    }
}

/// Reads the bits of a single-precision number.
pub fn read_f32(r: &mut ByteReader) -> (v: Result<u32, FormatError>)
    requires
        old(r).wf(),
    ensures
        final(r).wf(),
        final(r).data == old(r).data,
        final(r).pos == reach(old(r).data@, old(r).pos as int, 4),
        outcome(v, final(r).pos) == next_f32(old(r).data@, old(r).pos as int),
{
    proof {
        lemma_pow256_values();
    }
    match fill(r, 4, "f32") {
        Ok(v) => Ok(v as u32),
        Err(e) => Err(e),
    }
}

/// The bits of the next double-precision number.
pub open spec fn next_f64(data: Seq<u8>, pos: int) -> Result<(u64, int), Fault> {
    match next_le(data, pos, 8, "f64"@) {
        Ok((v, p)) => Ok((v as u64, p)),
        Err(e) => Err(e),
    }
}

/// Reads the bits of a double-precision number.
pub fn read_f64(r: &mut ByteReader) -> (v: Result<u64, FormatError>)
    requires
        old(r).wf(),
    ensures
        final(r).wf(),
        final(r).data == old(r).data,
        final(r).pos == reach(old(r).data@, old(r).pos as int, 8),
        outcome(v, final(r).pos) == next_f64(old(r).data@, old(r).pos as int),
{
    proof {
        lemma_pow256_values();
    }
    match fill(r, 8, "f64") {
        Ok(v) => Ok(v),
        Err(e) => Err(e),
    }
}

/// The next truth value: a byte that is 0 or 1.
pub open spec fn next_bool(data: Seq<u8>, pos: int) -> Result<(bool, int), Fault> {
    match next_u8(data, pos) {
        Ok((0, p)) => Ok((false, p)),
        Ok((1, p)) => Ok((true, p)),
        Ok((b, _)) => Err(
            Fault::Malformed { context: "bool"@, detail: "expected 0 or 1, got "@ + dec(b as nat) },
        ),
        Err(e) => Err(e),
    }
}

/// Reads a truth value.
pub fn read_bool(r: &mut ByteReader) -> (v: Result<bool, FormatError>)
    requires
        old(r).wf(),
    ensures
        final(r).wf(),
        final(r).data == old(r).data,
        final(r).pos == reach(old(r).data@, old(r).pos as int, 1),
        outcome(v, final(r).pos) == next_bool(old(r).data@, old(r).pos as int),
{
    match read_u8(r) {
        Ok(0) => Ok(false),
        Ok(1) => Ok(true),
        Ok(b) => {
            let mut detail = "expected 0 or 1, got ".to_owned();
            detail.append(dec_text(b as u64).as_str());
            Err(FormatError::Malformed { context: "bool", detail })
        },
        Err(e) => Err(e),
    }
}

/// std's `String::from_utf8`: the text that bytes encode, where they are valid
/// UTF-8, and none otherwise.
#[verifier::external_body]
pub(crate) fn text_of_utf8(bytes: Vec<u8>) -> (r: Option<String>)
    ensures
        r is Some <==> valid_utf8(bytes@),
        r is Some ==> r->0@ == decode_utf8(bytes@),
{
    String::from_utf8(bytes).ok()
}

/// The next text: its length in bytes as a `u64`, then its bytes in UTF-8.
pub open spec fn next_string(data: Seq<u8>, pos: int) -> Result<(Seq<char>, int), Fault> {
    match next_u64(data, pos) {
        Ok((len, p)) => if len > MAX_STRING_BYTES {
            Err(
                Fault::LimitExceeded {
                    what: "string length"@,
                    got: len as nat,
                    limit: MAX_STRING_BYTES as nat,
                },
            )
        } else if p + len > data.len() {
            Err(eof("string payload"@))
        } else {
            let payload = data.subrange(p, p + len);
            if valid_utf8(payload) {
                Ok((decode_utf8(payload), p + len))
            } else {
                Err(
                    Fault::Malformed {
                        context: "string payload"@,
                        detail: "invalid utf-8"@,
                    },
                )
            }
        },
        Err(e) => Err(e),
    }
}

/// Where a read of a text leaves the reader: behind the text, or behind a length
/// beyond the limit, or at the end of an input that ends early.
pub open spec fn string_reach(data: Seq<u8>, pos: int) -> int {
    match next_u64(data, pos) {
        Ok((len, p)) => if len > MAX_STRING_BYTES {
            p
        } else {
            reach(data, p, len as int)
        },
        Err(_) => reach(data, pos, 8),
    }
}

/// What a read of a text returned, with the position that it left.
pub open spec fn text_outcome(r: Result<String, FormatError>, pos: usize) -> Result<
    (Seq<char>, int),
    Fault,
> {
    match r {
        Ok(v) => Ok((v@, pos as int)),
        Err(e) => Err(e@),
    }
}

/// Reads a text: its length in bytes as a `u64`, then its bytes in UTF-8.
pub fn read_string(r: &mut ByteReader) -> (v: Result<String, FormatError>)
    requires
        old(r).wf(),
    ensures
        final(r).wf(),
        final(r).data == old(r).data,
        final(r).pos == string_reach(old(r).data@, old(r).pos as int),
        text_outcome(v, final(r).pos) == next_string(old(r).data@, old(r).pos as int),
{
    let len: u64 = match read_u64(r) {
        Ok(n) => n,
        Err(e) => return Err(e),
    };
    if len > MAX_STRING_BYTES {
        return Err(
            FormatError::LimitExceeded {
                what: "string length",
                got: len,
                limit: MAX_STRING_BYTES,
            },
        );
    }
    let n: usize = len as usize;
    if n > r.data.len() - r.pos {
        r.pos = r.data.len();
        return Err(
            FormatError::Malformed {
                context: "string payload",
                detail: "unexpected end of input".to_owned(),
            },
        );
    }
    let payload = copy_range(r.data, r.pos, n);
    r.pos = r.pos + n;
    match text_of_utf8(payload) {
        Some(s) => Ok(s),
        None => Err(
            FormatError::Malformed {
                context: "string payload",
                detail: "invalid utf-8".to_owned(),
            },
        ),
    }
}

} // verus!
