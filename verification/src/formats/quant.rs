//! Scalar codecs of the element types, on the bits of single-precision numbers.
//! Decoding follows the ggml block layouts exactly; encoding is a simple min/max
//! quantizer.

pub use crate::formats::half::{bf16_to_f32, f16_to_f32, f32_to_bf16, f32_to_f16};

use vstd::prelude::*;
use vstd::string::StringExecFns;

use crate::bytes::{
    get_le, le_bytes, le_value, lemma_le_bytes_len, lemma_le_round_trip, lemma_pow256_values, put_le,
    signed,
};
use crate::float::single::{
    f32_add, f32_div, f32_is_positive, f32_max, f32_min, f32_mul, f32_neg, f32_of_int, f32_to_int,
    larger, negated, of_int, positive, product, quotient, smaller, sum, to_int, INF, SIGN,
};
use crate::formats::desc::{block_layout, byte_len, DType, DTypeV};
use crate::formats::error::{Fault, FormatError};
use crate::formats::half::{narrow_bfloat, narrow_half, widen_bfloat, widen_half};
use crate::text::{dec, dec_text};

verus! {

/// The 6-bit scale and minimum of sub-block `j`, out of the 12 bytes that hold
/// eight of each.
pub open spec fn scale_min(j: int, s: Seq<u8>) -> (u8, u8) {
    if j < 4 {
        (s[j] % 64, s[j + 4] % 64)
    } else {
        (
            (s[j + 4] % 16 + s[j - 4] / 64 * 16) as u8,
            (s[j + 4] / 16 + s[j] / 64 * 16) as u8,
        )
    }
}

/// The 6-bit scale and minimum of sub-block `j`, out of the 12 bytes that hold
/// eight of each.
pub fn get_scale_min_k4(j: usize, s: &[u8]) -> (r: (u8, u8))
    requires
        j < 8,
        s@.len() >= 12,
    ensures
        r == scale_min(j as int, s@),
{
    if j < 4 {
        (s[j] % 64, s[j + 4] % 64)
    } else {
        (s[j + 4] % 16 + s[j - 4] / 64 * 16, s[j + 4] / 16 + s[j] / 64 * 16)
    }
}

/// The 12 bytes that hold eight 6-bit scales and eight 6-bit minimums.
pub open spec fn scale_bytes(sc: Seq<u8>, m: Seq<u8>) -> Seq<u8> {
    Seq::new(
        12,
        |i: int|
            if i < 4 {
                (sc[i] + sc[i + 4] / 16 * 64) as u8
            } else if i < 8 {
                (m[i - 4] + m[i] / 16 * 64) as u8
            } else {
                (sc[i - 4] % 16 + m[i - 4] % 16 * 16) as u8
            },
    )
}

/// Reading a sub-block's scale and minimum gives back what was stored.
pub proof fn law_scales_round_trip(sc: Seq<u8>, m: Seq<u8>, j: int)
    requires
        sc.len() == 8,
        m.len() == 8,
        forall|i: int| 0 <= i < 8 ==> sc[i] < 64 && m[i] < 64,
        0 <= j < 8,
    ensures
        scale_min(j, scale_bytes(sc, m)) == (sc[j], m[j]),
{
    let s = scale_bytes(sc, m);
    assert(sc[j] < 64 && m[j] < 64);
    if j < 4 {
        assert(sc[j + 4] < 64 && m[j + 4] < 64);
        lemma_six_bits(sc[j], sc[j + 4]);
        lemma_six_bits(m[j], m[j + 4]);
    } else {
        assert(sc[j - 4] < 64 && m[j - 4] < 64);
        lemma_six_bits(sc[j - 4], sc[j]);
        lemma_six_bits(m[j - 4], m[j]);
        lemma_four_bits(sc[j] % 16, m[j] % 16);
    }
}

/// A 6-bit value with the top bits of another above it.
proof fn lemma_six_bits(a: u8, b: u8)
    requires
        a < 64,
        b < 64,
    ensures
        a + b / 16 * 64 <= 255,
        ((a + b / 16 * 64) as u8) % 64 == a,
        ((a + b / 16 * 64) as u8) / 64 == b / 16,
        b % 16 + b / 16 * 16 == b,
{
}

/// Two 4-bit values in one byte.
proof fn lemma_four_bits(a: u8, b: u8)
    requires
        a < 16,
        b < 16,
    ensures
        a + b * 16 <= 255,
        ((a + b * 16) as u8) % 16 == a,
        ((a + b * 16) as u8) / 16 == b,
{
}

/// What a known length says of the number of elements.
proof fn lemma_layout(d: DTypeV, n: nat, len: nat)
    requires
        byte_len(d, n) == Some(len),
    ensures
        match d {
            DTypeV::F32 => len == 4 * n,
            DTypeV::F16 => len == 2 * n,
            DTypeV::BF16 => len == 2 * n,
            DTypeV::Q8_0 => n % 32 == 0 && len == n / 32 * 34,
            DTypeV::Q4_K => n % 256 == 0 && len == n / 256 * 144,
            DTypeV::Unsupported(_) => false,
        },
{
    assert(n / 1 == n);
    match d {
        DTypeV::F32 => {
            assert(n / 1 * 4 == 4 * n);
        },
        DTypeV::F16 => {
            assert(n / 1 * 2 == 2 * n);
        },
        DTypeV::BF16 => {
            assert(n / 1 * 2 == 2 * n);
        },
        DTypeV::Q8_0 => {
            assert(byte_len(d, n) == Some(n / 32 * 34));
        },
        DTypeV::Q4_K => {
            assert(byte_len(d, n) == Some(n / 256 * 144));
        },
        DTypeV::Unsupported(_) => {},
    }
}

/// The quantized value of element `l` of sub-block `j` of a block of 256: sub-blocks
/// share bytes in pairs, the even one in the low half.
pub open spec fn nibble(bytes: Seq<u8>, at: int, j: int, l: int) -> u8 {
    let b = bytes[at + 16 + j / 2 * 32 + l];
    if j % 2 == 0 {
        b % 16
    } else {
        b / 16
    }
}

/// `d * sc * q - dmin * m`.
pub open spec fn q4k_value(d: u32, dmin: u32, sc: u8, m: u8, q: u8) -> u32 {
    sum(
        product(product(d, of_int(sc as int)), of_int(q as int)),
        negated(product(dmin, of_int(m as int))),
    )
}

/// Element `i` of packed data.
pub open spec fn decoded(d: DTypeV, bytes: Seq<u8>, i: int) -> u32 {
    match d {
        DTypeV::F32 => le_value(bytes.subrange(4 * i, 4 * i + 4)) as u32,
        DTypeV::F16 => widen_half(le_value(bytes.subrange(2 * i, 2 * i + 2)) as u16),
        DTypeV::BF16 => widen_bfloat(le_value(bytes.subrange(2 * i, 2 * i + 2)) as u16),
        DTypeV::Q8_0 => {
            let at = i / 32 * 34;
            product(
                widen_half(le_value(bytes.subrange(at, at + 2)) as u16),
                of_int(signed(bytes[at + 2 + i % 32] as nat, 0x80)),
            )
        },
        DTypeV::Q4_K => {
            let at = i / 256 * 144;
            let j = i % 256 / 32;
            let (sc, m) = scale_min(j, bytes.subrange(at + 4, at + 16));
            q4k_value(
                widen_half(le_value(bytes.subrange(at, at + 2)) as u16),
                widen_half(le_value(bytes.subrange(at + 2, at + 4)) as u16),
                sc,
                m,
                nibble(bytes, at, j, i % 32),
            )
        },
        DTypeV::Unsupported(_) => arbitrary(),
    }
}

/// std's `Debug` form of a text: quoted, with escapes.
pub uninterp spec fn quoted(s: Seq<char>) -> Seq<char>;

/// `format!("{:?}")` of a text, which is std's `Debug` for `str`: a quoted form
/// that depends on the text alone.
#[verifier::external_body]
fn quoted_text(s: &str) -> (r: String)
    ensures
        r@ == quoted(s@),
{
    format!("{s:?}")
}

/// The name of an element type in messages.
pub open spec fn dtype_name(d: DTypeV) -> Seq<char> {
    match d {
        DTypeV::F32 => "F32"@,
        DTypeV::F16 => "F16"@,
        DTypeV::BF16 => "BF16"@,
        DTypeV::Q8_0 => "Q8_0"@,
        DTypeV::Q4_K => "Q4_K"@,
        DTypeV::Unsupported(s) => "Unsupported("@ + quoted(s) + ")"@,
    }
}

/// The name of an element type in messages.
pub fn dtype_text(d: &DType) -> (r: String)
    ensures
        r@ == dtype_name(d@),
{
    match d {
        DType::F32 => "F32".to_owned(),
        DType::F16 => "F16".to_owned(),
        DType::BF16 => "BF16".to_owned(),
        DType::Q8_0 => "Q8_0".to_owned(),
        DType::Q4_K => "Q4_K".to_owned(),
        DType::Unsupported(s) => {
            let mut r = "Unsupported(".to_owned();
            r.append(quoted_text(s.as_str()).as_str());
            r.append(")");
            r
        },
    }
}

/// The fault of data that the codecs refuse.
pub open spec fn bad(detail: Seq<char>) -> Fault {
    Fault::Malformed { context: "quant data"@, detail }
}

/// The fault that `dequant` owes, if any.
pub open spec fn dequant_fault(d: DTypeV, len: nat, n: nat) -> Option<Fault> {
    match byte_len(d, n) {
        None => Some(bad(dtype_name(d) + ": "@ + dec(n) + " elements not representable"@)),
        Some(expected) => if len != expected {
            Some(
                bad(
                    dtype_name(d) + ": got "@ + dec(len) + " bytes, expected "@ + dec(expected)
                        + " for "@ + dec(n) + " elements"@,
                ),
            )
        } else {
            None
        },
    }
}

/// Decodes `n_elems` packed elements.
pub fn dequant(dtype: &DType, bytes: &[u8], n_elems: usize) -> (r: Result<Vec<u32>, FormatError>)
    ensures
        match r {
            Ok(v) => {
                &&& dequant_fault(dtype@, bytes@.len(), n_elems as nat) is None
                &&& v@ == Seq::new(n_elems as nat, |i: int| decoded(dtype@, bytes@, i))
            },
            Err(e) => dequant_fault(dtype@, bytes@.len(), n_elems as nat) == Some(e@),
        },
{
    let expected: u64 = match dtype.byte_len(n_elems as u64) {
        Some(n) => n,
        None => {
            let mut detail = dtype_text(dtype);
            detail.append(": ");
            detail.append(dec_text(n_elems as u64).as_str());
            detail.append(" elements not representable");
            return Err(FormatError::Malformed { context: "quant data", detail });
        },
    };
    if bytes.len() as u64 != expected {
        let mut detail = dtype_text(dtype);
        detail.append(": got ");
        detail.append(dec_text(bytes.len() as u64).as_str());
        detail.append(" bytes, expected ");
        detail.append(dec_text(expected).as_str());
        detail.append(" for ");
        detail.append(dec_text(n_elems as u64).as_str());
        detail.append(" elements");
        return Err(FormatError::Malformed { context: "quant data", detail });
    }
    let len: usize = bytes.len();
    let mut out: Vec<u32> = Vec::new();
    let mut i: usize = 0;
    while i < n_elems
        invariant
            i <= n_elems,
            len == bytes@.len(),
            byte_len(dtype@, n_elems as nat) == Some(len as nat),
            out@ == Seq::new(i as nat, |k: int| decoded(dtype@, bytes@, k)),
        decreases n_elems - i,
    {
        let x: u32 = decode_one(dtype, bytes, n_elems, i);
        out.push(x);
        i += 1;
    }
    Ok(out)
}

/// Decodes element `i` of blocks of 32.
fn decode_q8(bytes: &[u8], i: usize) -> (x: u32)
    requires
        i / 32 * 34 + 34 <= bytes@.len(),
    ensures
        x == decoded(DTypeV::Q8_0, bytes@, i as int),
{
    let len: usize = bytes.len();
    proof {
        lemma_pow256_values();
    }
    let at: usize = i / 32 * 34;
    let d: u32 = f16_to_f32(get_le(bytes, at, 2) as u16);
    let b: u8 = bytes[at + 2 + i % 32];
    let q: i64 = if b < 0x80 {
        b as i64
    } else {
        b as i64 - 0x100
    };
    f32_mul(d, f32_of_int(q))
}

/// Decodes element `i` of blocks of 256.
fn decode_q4k(bytes: &[u8], i: usize) -> (x: u32)
    requires
        i / 256 * 144 + 144 <= bytes@.len(),
    ensures
        x == decoded(DTypeV::Q4_K, bytes@, i as int),
{
    let len: usize = bytes.len();
    proof {
        lemma_pow256_values();
    }
    let at: usize = i / 256 * 144;
    let j: usize = i % 256 / 32;
    let d: u32 = f16_to_f32(get_le(bytes, at, 2) as u16);
    let dmin: u32 = f16_to_f32(get_le(bytes, at + 2, 2) as u16);
    let (sc, m) = get_scale_min_k4(j, vstd::slice::slice_subrange(bytes, at + 4, at + 16));
    let b: u8 = bytes[at + 16 + j / 2 * 32 + i % 32];
    let q: u8 = if j % 2 == 0 {
        b % 16
    } else {
        b / 16
    };
    let scaled: u32 = f32_mul(f32_mul(d, f32_of_int(sc as i64)), f32_of_int(q as i64));
    f32_add(scaled, f32_neg(f32_mul(dmin, f32_of_int(m as i64))))
}

/// Decodes element `i`.
fn decode_one(dtype: &DType, bytes: &[u8], n_elems: usize, i: usize) -> (x: u32)
    requires
        i < n_elems,
        byte_len(dtype@, n_elems as nat) == Some(bytes@.len()),
    ensures
        x == decoded(dtype@, bytes@, i as int),
{
    let len: usize = bytes.len();
    proof {
        lemma_pow256_values();
        lemma_layout(dtype@, n_elems as nat, len as nat);
    }
    match dtype {
        DType::F32 => get_le(bytes, 4 * i, 4) as u32,
        DType::F16 => f16_to_f32(get_le(bytes, 2 * i, 2) as u16),
        DType::BF16 => bf16_to_f32(get_le(bytes, 2 * i, 2) as u16),
        DType::Q8_0 => decode_q8(bytes, i),
        DType::Q4_K => decode_q4k(bytes, i),
        DType::Unsupported(_) => 0,
    }
}

/// 1 in single precision.
pub const ONE: u32 = 0x3F80_0000;

/// 15 in single precision.
pub const FIFTEEN: u32 = 0x4170_0000;

/// 63 in single precision.
pub const SIXTY_THREE: u32 = 0x427C_0000;

/// 127 in single precision.
pub const ONE_TWENTY_SEVEN: u32 = 0x42FE_0000;

/// Negative infinity in single precision.
pub const NEG_INF: u32 = 0xFF80_0000;

/// The largest of `start` and the numbers of `v`.
pub open spec fn fold_larger(start: u32, v: Seq<u32>) -> u32
    decreases v.len(),
{
    if v.len() == 0 {
        start
    } else {
        larger(fold_larger(start, v.drop_last()), v.last())
    }
}

/// The smallest of `start` and the numbers of `v`.
pub open spec fn fold_smaller(start: u32, v: Seq<u32>) -> u32
    decreases v.len(),
{
    if v.len() == 0 {
        start
    } else {
        smaller(fold_smaller(start, v.drop_last()), v.last())
    }
}

/// The numbers of `v` without their signs.
pub open spec fn absolutes(v: Seq<u32>) -> Seq<u32> {
    v.map_values(|x: u32| x % SIGN)
}

/// The largest of `start` and the numbers from `lo` to `hi`.
fn largest(start: u32, v: &[u32], lo: usize, hi: usize) -> (r: u32)
    requires
        lo <= hi <= v@.len(),
    ensures
        r == fold_larger(start, v@.subrange(lo as int, hi as int)),
{
    let mut r: u32 = start;
    let mut i: usize = lo;
    while i < hi
        invariant
            lo <= i <= hi <= v@.len(),
            r == fold_larger(start, v@.subrange(lo as int, i as int)),
        decreases hi - i,
    {
        r = f32_max(r, v[i]);
        i += 1;
        proof {
            assert(v@.subrange(lo as int, i as int).drop_last() =~= v@.subrange(lo as int, i - 1));
        }
    }
    r
}

/// The smallest of `start` and the numbers from `lo` to `hi`.
fn smallest(start: u32, v: &[u32], lo: usize, hi: usize) -> (r: u32)
    requires
        lo <= hi <= v@.len(),
    ensures
        r == fold_smaller(start, v@.subrange(lo as int, hi as int)),
{
    let mut r: u32 = start;
    let mut i: usize = lo;
    while i < hi
        invariant
            lo <= i <= hi <= v@.len(),
            r == fold_smaller(start, v@.subrange(lo as int, i as int)),
        decreases hi - i,
    {
        r = f32_min(r, v[i]);
        i += 1;
        proof {
            assert(v@.subrange(lo as int, i as int).drop_last() =~= v@.subrange(lo as int, i - 1));
        }
    }
    r
}

/// The stored scale of a block of 32: the largest magnitude over 127.
pub open spec fn q8_scale(v: Seq<u32>) -> u16 {
    narrow_half(quotient(fold_larger(0, absolutes(v)), ONE_TWENTY_SEVEN))
}

/// What the numbers of a block are multiplied by, against the stored scale.
pub open spec fn q8_inverse(v: Seq<u32>) -> u32 {
    let d = widen_half(q8_scale(v));
    if positive(d) {
        quotient(ONE, d)
    } else {
        0
    }
}

/// The quantized value of a number of a block.
pub open spec fn q8_quant(v: Seq<u32>, l: int) -> int {
    to_int(product(v[l], q8_inverse(v)), -127, 127)
}

/// The low byte of an integer in two's complement.
pub open spec fn low_byte(n: int) -> u8 {
    (n % 256) as u8
}

/// A packed block of 32: the scale, then a byte for each number.
pub open spec fn q8_block(v: Seq<u32>) -> Seq<u8> {
    le_bytes(q8_scale(v) as nat, 2) + Seq::new(32, |l: int| low_byte(q8_quant(v, l)))
}

/// Appends a packed block of 32.
fn put_q8(out: &mut Vec<u8>, values: &[u32], at: usize)
    requires
        at + 32 <= values@.len(),
    ensures
        final(out)@ == old(out)@ + q8_block(values@.subrange(at as int, at + 32)),
{
    let len: usize = values.len();
    let ghost v = values@.subrange(at as int, at + 32);
    let ghost start = out@;
    let mut amax: u32 = 0;
    let mut i: usize = 0;
    proof {
        assert(absolutes(v).take(0) =~= Seq::<u32>::empty());
    }
    while i < 32
        invariant
            i <= 32,
            at + 32 <= len == values@.len(),
            v == values@.subrange(at as int, at + 32),
            amax == fold_larger(0, absolutes(v).take(i as int)),
        decreases 32 - i,
    {
        amax = f32_max(amax, values[at + i] % SIGN);
        i += 1;
        proof {
            assert(absolutes(v).take(i as int).drop_last() =~= absolutes(v).take(i - 1));
        }
    }
    proof {
        assert(absolutes(v).take(32) =~= absolutes(v));
    }
    let dh: u16 = f32_to_f16(f32_div(amax, ONE_TWENTY_SEVEN));
    put_le(out, dh as u64, 2);
    let d: u32 = f16_to_f32(dh);
    let inv: u32 = if f32_is_positive(d) {
        f32_div(ONE, d)
    } else {
        0
    };
    let ghost head = out@;
    let mut l: usize = 0;
    while l < 32
        invariant
            l <= 32,
            at + 32 <= len == values@.len(),
            v == values@.subrange(at as int, at + 32),
            inv == q8_inverse(v),
            out@ == head + Seq::new(l as nat, |k: int| low_byte(q8_quant(v, k))),
        decreases 32 - l,
    {
        let q: i64 = f32_to_int(f32_mul(values[at + l], inv), -127, 127);
        let ghost before = Seq::new(l as nat, |k: int| low_byte(q8_quant(v, k)));
        let b: u8 = if q < 0 {
            (q + 256) as u8
        } else {
            q as u8
        };
        out.push(b);
        proof {
            assert(b == low_byte(q8_quant(v, l as int)));
            assert(Seq::new(l as nat + 1, |k: int| low_byte(q8_quant(v, k))) =~= before.push(b));
            assert(head + before.push(b) =~= (head + before).push(b));
        }
        l += 1;
    }
    proof {
        assert(out@ =~= start + q8_block(v));
    }
}

/// Sub-block `j` of a block of 256.
pub open spec fn sub_block(v: Seq<u32>, j: int) -> Seq<u32> {
    v.subrange(32 * j, 32 * j + 32)
}

/// By how much a sub-block reaches below zero.
pub open spec fn sub_min(v: Seq<u32>, j: int) -> u32 {
    larger(negated(fold_smaller(INF, sub_block(v, j))), 0)
}

/// The step of a sub-block: its reach over 15.
pub open spec fn sub_step(v: Seq<u32>, j: int) -> u32 {
    quotient(larger(sum(fold_larger(NEG_INF, sub_block(v, j)), sub_min(v, j)), 0), FIFTEEN)
}

/// The steps of the eight sub-blocks.
pub open spec fn sub_steps(v: Seq<u32>) -> Seq<u32> {
    Seq::new(8, |j: int| sub_step(v, j))
}

/// The minimums of the eight sub-blocks.
pub open spec fn sub_mins(v: Seq<u32>) -> Seq<u32> {
    Seq::new(8, |j: int| sub_min(v, j))
}

/// The stored scale of the steps.
pub open spec fn q4k_scale(v: Seq<u32>) -> u16 {
    narrow_half(quotient(fold_larger(0, sub_steps(v)), SIXTY_THREE))
}

/// The stored scale of the minimums.
pub open spec fn q4k_min_scale(v: Seq<u32>) -> u16 {
    narrow_half(quotient(fold_larger(0, sub_mins(v)), SIXTY_THREE))
}

/// `x` over `s`, in 6 bits.
pub open spec fn six_bits(x: u32, s: u32) -> u8 {
    if positive(s) {
        to_int(quotient(x, s), 0, 63) as u8
    } else {
        0
    }
}

/// The 6-bit scales of the sub-blocks.
pub open spec fn q4k_scales(v: Seq<u32>) -> Seq<u8> {
    Seq::new(8, |j: int| six_bits(sub_step(v, j), widen_half(q4k_scale(v))))
}

/// The 6-bit minimums of the sub-blocks.
pub open spec fn q4k_mins(v: Seq<u32>) -> Seq<u8> {
    Seq::new(8, |j: int| six_bits(sub_min(v, j), widen_half(q4k_min_scale(v))))
}

/// The 4-bit value of element `l` of sub-block `j`.
#[verifier::opaque]
pub open spec fn q4k_quant(v: Seq<u32>, j: int, l: int) -> u8 {
    let sc = product(widen_half(q4k_scale(v)), of_int(q4k_scales(v)[j] as int));
    let m = product(widen_half(q4k_min_scale(v)), of_int(q4k_mins(v)[j] as int));
    if positive(sc) {
        to_int(quotient(sum(v[32 * j + l], m), sc), 0, 15) as u8
    } else {
        0
    }
}

/// Byte `t` of the quantized values: two sub-blocks share it.
pub open spec fn q4k_byte(v: Seq<u32>, t: int) -> u8 {
    (q4k_quant(v, t / 32 * 2, t % 32) + q4k_quant(v, t / 32 * 2 + 1, t % 32) * 16) as u8
}

/// A packed block of 256: both scales, the 6-bit scales and minimums, then a
/// nibble for each number.
pub open spec fn q4k_block(v: Seq<u32>) -> Seq<u8> {
    le_bytes(q4k_scale(v) as nat, 2) + le_bytes(q4k_min_scale(v) as nat, 2) + scale_bytes(
        q4k_scales(v),
        q4k_mins(v),
    ) + Seq::new(128, |t: int| q4k_byte(v, t))
}

fn six_bits_of(x: u32, s: u32) -> (r: u8)
    ensures
        r == six_bits(x, s),
        r < 64,
{
    if f32_is_positive(s) {
        f32_to_int(f32_div(x, s), 0, 63) as u8
    } else {
        0
    }
}

/// The 4-bit value of `x`, with step `sc` and minimum `m`.
fn four_bits_of(x: u32, sc: u32, m: u32) -> (r: u8)
    ensures
        r == (if positive(sc) {
            to_int(quotient(sum(x, m), sc), 0, 15) as u8
        } else {
            0
        }),
        r < 16,
{
    if f32_is_positive(sc) {
        f32_to_int(f32_div(f32_add(x, m), sc), 0, 15) as u8
    } else {
        0
    }
}

/// Appends the 12 bytes that hold eight 6-bit scales and eight 6-bit minimums.
fn put_scales(out: &mut Vec<u8>, sc: &Vec<u8>, m: &Vec<u8>)
    requires
        sc@.len() == 8,
        m@.len() == 8,
        forall|i: int| 0 <= i < 8 ==> sc@[i] < 64 && m@[i] < 64,
    ensures
        final(out)@ == old(out)@ + scale_bytes(sc@, m@),
{
    let ghost start = out@;
    let ghost want = scale_bytes(sc@, m@);
    let mut i: usize = 0;
    while i < 12
        invariant
            i <= 12,
            sc@.len() == 8,
            m@.len() == 8,
            forall|k: int| 0 <= k < 8 ==> sc@[k] < 64 && m@[k] < 64,
            want == scale_bytes(sc@, m@),
            out@ == start + want.take(i as int),
        decreases 12 - i,
    {
        let b: u8 = if i < 4 {
            proof {
                assert(sc@[i as int] < 64 && sc@[i + 4] < 64);
            }
            sc[i] + sc[i + 4] / 16 * 64
        } else if i < 8 {
            proof {
                assert(m@[i - 4] < 64 && m@[i as int] < 64);
            }
            m[i - 4] + m[i] / 16 * 64
        } else {
            proof {
                assert(sc@[i - 4] < 64 && m@[i - 4] < 64);
            }
            sc[i - 4] % 16 + m[i - 4] % 16 * 16
        };
        out.push(b);
        i += 1;
        proof {
            assert(want.take(i as int) =~= want.take(i - 1).push(b));
            assert(start + want.take(i - 1).push(b) =~= (start + want.take(i - 1)).push(b));
        }
    }
    proof {
        assert(want.take(12) =~= want);
    }
}

/// Appends a packed block of 256.
fn put_q4k(out: &mut Vec<u8>, values: &[u32], at: usize)
    requires
        at + 256 <= values@.len(),
    ensures
        final(out)@ == old(out)@ + q4k_block(values@.subrange(at as int, at + 256)),
{
    let len: usize = values.len();
    let ghost v = values@.subrange(at as int, at + 256);
    let ghost start = out@;
    let mut steps: Vec<u32> = Vec::new();
    let mut mins: Vec<u32> = Vec::new();
    let mut j: usize = 0;
    while j < 8
        invariant
            j <= 8,
            at + 256 <= len == values@.len(),
            v == values@.subrange(at as int, at + 256),
            steps@ == sub_steps(v).take(j as int),
            mins@ == sub_mins(v).take(j as int),
        decreases 8 - j,
    {
        let lo: usize = at + 32 * j;
        proof {
            assert(values@.subrange(lo as int, lo + 32) =~= sub_block(v, j as int));
        }
        let mn: u32 = smallest(INF, values, lo, lo + 32);
        let mx: u32 = largest(NEG_INF, values, lo, lo + 32);
        let m: u32 = f32_max(f32_neg(mn), 0);
        let step: u32 = f32_div(f32_max(f32_add(mx, m), 0), FIFTEEN);
        mins.push(m);
        steps.push(step);
        j += 1;
        proof {
            assert(sub_steps(v).take(j as int) =~= sub_steps(v).take(j - 1).push(step));
            assert(sub_mins(v).take(j as int) =~= sub_mins(v).take(j - 1).push(m));
        }
    }
    proof {
        assert(sub_steps(v).take(8) =~= sub_steps(v));
        assert(sub_mins(v).take(8) =~= sub_mins(v));
        assert(steps@.subrange(0, 8) =~= steps@);
        assert(mins@.subrange(0, 8) =~= mins@);
    }
    let dh: u16 = f32_to_f16(f32_div(largest(0, steps.as_slice(), 0, 8), SIXTY_THREE));
    let mh: u16 = f32_to_f16(f32_div(largest(0, mins.as_slice(), 0, 8), SIXTY_THREE));
    put_le(out, dh as u64, 2);
    put_le(out, mh as u64, 2);
    let d: u32 = f16_to_f32(dh);
    let dm: u32 = f16_to_f32(mh);
    let mut sc: Vec<u8> = Vec::new();
    let mut m: Vec<u8> = Vec::new();
    let mut k: usize = 0;
    while k < 8
        invariant
            k <= 8,
            steps@ == sub_steps(v),
            mins@ == sub_mins(v),
            d == widen_half(q4k_scale(v)),
            dm == widen_half(q4k_min_scale(v)),
            sc@ == q4k_scales(v).take(k as int),
            m@ == q4k_mins(v).take(k as int),
            forall|i: int| 0 <= i < k ==> sc@[i] < 64 && m@[i] < 64,
        decreases 8 - k,
    {
        let a: u8 = six_bits_of(steps[k], d);
        let b: u8 = six_bits_of(mins[k], dm);
        sc.push(a);
        m.push(b);
        k += 1;
        proof {
            assert(q4k_scales(v).take(k as int) =~= q4k_scales(v).take(k - 1).push(a));
            assert(q4k_mins(v).take(k as int) =~= q4k_mins(v).take(k - 1).push(b));
        }
    }
    proof {
        assert(q4k_scales(v).take(8) =~= q4k_scales(v));
        assert(q4k_mins(v).take(8) =~= q4k_mins(v));
    }
    put_scales(out, &sc, &m);
    let ghost head = out@;
    let mut t: usize = 0;
    while t < 128
        invariant
            t <= 128,
            at + 256 <= len == values@.len(),
            v == values@.subrange(at as int, at + 256),
            d == widen_half(q4k_scale(v)),
            dm == widen_half(q4k_min_scale(v)),
            sc@ == q4k_scales(v),
            m@ == q4k_mins(v),
            out@ == head + Seq::new(t as nat, |x: int| q4k_byte(v, x)),
        decreases 128 - t,
    {
        let j1: usize = t / 32 * 2;
        let l: usize = t % 32;
        let s1: u32 = f32_mul(d, f32_of_int(sc[j1] as i64));
        let m1: u32 = f32_mul(dm, f32_of_int(m[j1] as i64));
        let s2: u32 = f32_mul(d, f32_of_int(sc[j1 + 1] as i64));
        let m2: u32 = f32_mul(dm, f32_of_int(m[j1 + 1] as i64));
        let lo: u8 = four_bits_of(values[at + 32 * j1 + l], s1, m1);
        let hi: u8 = four_bits_of(values[at + 32 * (j1 + 1) + l], s2, m2);
        let ghost before = Seq::new(t as nat, |x: int| q4k_byte(v, x));
        let b: u8 = lo + hi * 16;
        out.push(b);
        proof {
            assert(v[32 * j1 + l] == values@[at + 32 * j1 + l]);
            assert(v[32 * (j1 + 1) + l] == values@[at + 32 * (j1 + 1) + l]);
            reveal(q4k_quant);
            assert(b == q4k_byte(v, t as int));
            assert(Seq::new(t as nat + 1, |x: int| q4k_byte(v, x)) =~= before.push(b));
            assert(head + before.push(b) =~= (head + before).push(b));
        }
        t += 1;
    }
    proof {
        assert(out@ =~= start + q4k_block(v));
    }
}

/// The bytes of one block.
pub open spec fn block_bytes(d: DTypeV, v: Seq<u32>) -> Seq<u8> {
    match d {
        DTypeV::F32 => le_bytes(v[0] as nat, 4),
        DTypeV::F16 => le_bytes(narrow_half(v[0]) as nat, 2),
        DTypeV::BF16 => le_bytes(narrow_bfloat(v[0]) as nat, 2),
        DTypeV::Q8_0 => q8_block(v),
        DTypeV::Q4_K => q4k_block(v),
        DTypeV::Unsupported(_) => Seq::empty(),
    }
}

/// Elements of one block, or 1 where the layout is unknown.
pub open spec fn block_elems(d: DTypeV) -> nat {
    match block_layout(d) {
        Some((_, elems)) => elems,
        None => 1,
    }
}

/// The first `k` blocks of `v`, packed one after the other.
pub open spec fn encoded(d: DTypeV, v: Seq<u32>, k: nat) -> Seq<u8>
    decreases k,
{
    if k == 0 {
        Seq::empty()
    } else {
        encoded(d, v, (k - 1) as nat) + block_bytes(
            d,
            v.subrange((k - 1) * block_elems(d), (k * block_elems(d)) as int),
        )
    }
}

/// All of `v`, packed.
pub open spec fn packed(d: DTypeV, v: Seq<u32>) -> Seq<u8> {
    encoded(d, v, v.len() / block_elems(d))
}

/// Packs numbers into the blocks of an element type.
pub fn pack(dtype: &DType, values: &[u32]) -> (r: Result<Vec<u8>, FormatError>)
    ensures
        match r {
            Ok(b) => byte_len(dtype@, values@.len()) is Some && b@ == packed(dtype@, values@),
            Err(e) => byte_len(dtype@, values@.len()) is None && e@ == bad(
                dtype_name(dtype@) + ": "@ + dec(values@.len()) + " elements not packable"@,
            ),
        },
{
    let n: usize = values.len();
    if dtype.byte_len(n as u64).is_none() {
        let mut detail = dtype_text(dtype);
        detail.append(": ");
        detail.append(dec_text(n as u64).as_str());
        detail.append(" elements not packable");
        return Err(FormatError::Malformed { context: "quant data", detail });
    }
    proof {
        lemma_layout(dtype@, n as nat, byte_len(dtype@, n as nat)->0);
        assert(n / 1 == n);
    }
    let (_, elems) = match dtype.block_layout() {
        Some(l) => l,
        None => (0, 1),
    };
    let step: usize = elems as usize;
    let count: usize = n / step;
    let mut out: Vec<u8> = Vec::new();
    let mut k: usize = 0;
    let mut at: usize = 0;
    proof {
        assert(0 * step == 0);
    }
    while k < count
        invariant
            k <= count,
            n == values@.len(),
            step == block_elems(dtype@),
            step == 1 || step == 32 || step == 256,
            count == n / step,
            at == k * step,
            at <= n,
            out@ == encoded(dtype@, values@, k as nat),
        decreases count - k,
    {
        proof {
            assert(at + step <= n) by (nonlinear_arith)
                requires
                    at == k * step,
                    k + 1 <= count,
                    count == n / step,
                    step > 0,
            ;
            assert((k + 1) * step == at + step) by (nonlinear_arith)
                requires
                    at == k * step,
            ;
        }
        let ghost blk = values@.subrange(k * step, (k + 1) * step);
        match dtype {
            DType::F32 => put_le(&mut out, values[at] as u64, 4),
            DType::F16 => put_le(&mut out, f32_to_f16(values[at]) as u64, 2),
            DType::BF16 => put_le(&mut out, f32_to_bf16(values[at]) as u64, 2),
            DType::Q8_0 => put_q8(&mut out, values, at),
            DType::Q4_K => put_q4k(&mut out, values, at),
            DType::Unsupported(_) => {},
        }
        proof {
            assert(out@ =~= encoded(dtype@, values@, k as nat) + block_bytes(dtype@, blk));
        }
        k += 1;
        at = at + step;
    }
    Ok(out)
}

/// Bytes of one block, or none where the layout is unknown.
pub open spec fn block_size(d: DTypeV) -> nat {
    match block_layout(d) {
        Some((bytes, _)) => bytes,
        None => 0,
    }
}

proof fn lemma_block_len(d: DTypeV, v: Seq<u32>)
    ensures
        block_bytes(d, v).len() == block_size(d),
{
    match d {
        DTypeV::F32 => {
            lemma_le_bytes_len(v[0] as nat, 4);
        },
        DTypeV::F16 => {
            lemma_le_bytes_len(narrow_half(v[0]) as nat, 2);
        },
        DTypeV::BF16 => {
            lemma_le_bytes_len(narrow_bfloat(v[0]) as nat, 2);
        },
        DTypeV::Q8_0 => {
            lemma_le_bytes_len(q8_scale(v) as nat, 2);
        },
        DTypeV::Q4_K => {
            lemma_le_bytes_len(q4k_scale(v) as nat, 2);
            lemma_le_bytes_len(q4k_min_scale(v) as nat, 2);
        },
        DTypeV::Unsupported(_) => {},
    }
}

proof fn lemma_encoded_len(d: DTypeV, v: Seq<u32>, k: nat)
    ensures
        encoded(d, v, k).len() == k * block_size(d),
    decreases k,
{
    let z = block_size(d);
    if k > 0 {
        let blk = v.subrange((k - 1) * block_elems(d), (k * block_elems(d)) as int);
        lemma_block_len(d, blk);
        lemma_encoded_len(d, v, (k - 1) as nat);
        assert((k - 1) * z + z == k * z) by (nonlinear_arith);
    } else {
        assert(0 * z == 0);
    }
}

/// Block `b` stands where it belongs.
proof fn lemma_encoded_block(d: DTypeV, v: Seq<u32>, k: nat, b: nat)
    requires
        b < k,
    ensures
        b * block_size(d) + block_size(d) <= encoded(d, v, k).len(),
        encoded(d, v, k).subrange(
            (b * block_size(d)) as int,
            (b * block_size(d) + block_size(d)) as int,
        ) == block_bytes(d, v.subrange((b * block_elems(d)) as int, ((b + 1) * block_elems(d)) as int)),
    decreases k,
{
    let z = block_size(d);
    let prev = encoded(d, v, (k - 1) as nat);
    let blk = v.subrange((k - 1) * block_elems(d), (k * block_elems(d)) as int);
    lemma_encoded_len(d, v, (k - 1) as nat);
    lemma_encoded_len(d, v, k);
    lemma_block_len(d, blk);
    if b == k - 1 {
        assert(encoded(d, v, k).subrange((b * z) as int, (b * z + z) as int) =~= block_bytes(
            d,
            blk,
        ));
    } else {
        lemma_encoded_block(d, v, (k - 1) as nat, b);
        assert(encoded(d, v, k).subrange((b * z) as int, (b * z + z) as int) =~= prev.subrange(
            (b * z) as int,
            (b * z + z) as int,
        ));
    }
}

/// Packed data is as long as its element type says.
pub proof fn law_packed_len(d: DTypeV, v: Seq<u32>)
    requires
        byte_len(d, v.len()) is Some,
    ensures
        byte_len(d, v.len()) == Some(packed(d, v).len()),
{
    lemma_layout(d, v.len(), byte_len(d, v.len())->0);
    lemma_encoded_len(d, v, v.len() / block_elems(d));
}

proof fn lemma_to_int_bounds(x: u32, lo: int, hi: int)
    requires
        lo <= 0 <= hi,
    ensures
        lo <= to_int(x, lo, hi) <= hi,
{
    reveal(to_int);
}

/// Decoding packed data gives, for each element: the number itself (F32), the
/// number rounded to the narrower format (F16, BF16), or the stored scales
/// applied to the number's quantized value (Q8_0, Q4_K).
pub proof fn law_decode_of_pack(d: DTypeV, v: Seq<u32>, i: int)
    requires
        byte_len(d, v.len()) is Some,
        0 <= i < v.len(),
    ensures
        match d {
            DTypeV::F32 => decoded(d, packed(d, v), i) == v[i],
            DTypeV::F16 => decoded(d, packed(d, v), i) == widen_half(narrow_half(v[i])),
            DTypeV::BF16 => decoded(d, packed(d, v), i) == widen_bfloat(narrow_bfloat(v[i])),
            DTypeV::Q8_0 => {
                let blk = v.subrange(i / 32 * 32, i / 32 * 32 + 32);
                decoded(d, packed(d, v), i) == product(
                    widen_half(q8_scale(blk)),
                    of_int(q8_quant(blk, i % 32)),
                )
            },
            DTypeV::Q4_K => {
                let blk = v.subrange(i / 256 * 256, i / 256 * 256 + 256);
                let j = i % 256 / 32;
                decoded(d, packed(d, v), i) == q4k_value(
                    widen_half(q4k_scale(blk)),
                    widen_half(q4k_min_scale(blk)),
                    q4k_scales(blk)[j],
                    q4k_mins(blk)[j],
                    q4k_quant(blk, j, i % 32),
                )
            },
            DTypeV::Unsupported(_) => false,
        },
{
    match d {
        DTypeV::Q8_0 => {
            lemma_decode_packed_q8(v, i);
        },
        DTypeV::Q4_K => {
            lemma_decode_packed_q4k(v, i);
        },
        _ => {
            lemma_decode_packed_plain(d, v, i);
        },
    }
}

/// Decoding the element types without blocks.
proof fn lemma_decode_packed_plain(d: DTypeV, v: Seq<u32>, i: int)
    requires
        byte_len(d, v.len()) is Some,
        0 <= i < v.len(),
        !(d is Q8_0),
        !(d is Q4_K),
    ensures
        match d {
            DTypeV::F32 => decoded(d, packed(d, v), i) == v[i],
            DTypeV::F16 => decoded(d, packed(d, v), i) == widen_half(narrow_half(v[i])),
            DTypeV::BF16 => decoded(d, packed(d, v), i) == widen_bfloat(narrow_bfloat(v[i])),
            _ => false,
        },
{
    lemma_layout(d, v.len(), byte_len(d, v.len())->0);
    assert(v.len() / 1 == v.len());
    lemma_encoded_block(d, v, v.len(), i as nat);
    lemma_pow256_values();
    let blk = v.subrange((i as nat * 1) as int, ((i as nat + 1) * 1) as int);
    assert(blk[0] == v[i]);
    match d {
        DTypeV::F32 => {
            lemma_le_round_trip(v[i] as nat, 4);
            assert((i as nat * 4) as int == 4 * i);
            let data = packed(d, v);
            assert(data == encoded(d, v, v.len()));
            assert(data.subrange(4 * i, 4 * i + 4) == block_bytes(d, blk));
        },
        DTypeV::F16 => {
            lemma_le_round_trip(narrow_half(v[i]) as nat, 2);
            assert((i as nat * 2) as int == 2 * i);
            let data = packed(d, v);
            assert(data == encoded(d, v, v.len()));
            assert(data.subrange(2 * i, 2 * i + 2) == block_bytes(d, blk));
        },
        DTypeV::BF16 => {
            lemma_le_round_trip(narrow_bfloat(v[i]) as nat, 2);
            assert((i as nat * 2) as int == 2 * i);
            let data = packed(d, v);
            assert(data == encoded(d, v, v.len()));
            assert(data.subrange(2 * i, 2 * i + 2) == block_bytes(d, blk));
        },
        _ => {},
    }
}

/// Decoding blocks of 32.
proof fn lemma_decode_packed_q8(v: Seq<u32>, i: int)
    requires
        byte_len(DTypeV::Q8_0, v.len()) is Some,
        0 <= i < v.len(),
    ensures
        ({
            let blk = v.subrange(i / 32 * 32, i / 32 * 32 + 32);
            decoded(DTypeV::Q8_0, packed(DTypeV::Q8_0, v), i) == product(
                widen_half(q8_scale(blk)),
                of_int(q8_quant(blk, i % 32)),
            )
        }),
{
    let d = DTypeV::Q8_0;
    lemma_layout(d, v.len(), byte_len(d, v.len())->0);
    let b = (i / 32) as nat;
    lemma_encoded_block(d, v, v.len() / 32, b);
    let blk = v.subrange(i / 32 * 32, i / 32 * 32 + 32);
    assert(v.subrange((b * 32) as int, ((b + 1) * 32) as int) =~= blk);
    lemma_decode_q8(packed(d, v), (b * 34) as int, blk, i % 32);
}

/// Decoding blocks of 256.
proof fn lemma_decode_packed_q4k(v: Seq<u32>, i: int)
    requires
        byte_len(DTypeV::Q4_K, v.len()) is Some,
        0 <= i < v.len(),
    ensures
        ({
            let blk = v.subrange(i / 256 * 256, i / 256 * 256 + 256);
            let j = i % 256 / 32;
            decoded(DTypeV::Q4_K, packed(DTypeV::Q4_K, v), i) == q4k_value(
                widen_half(q4k_scale(blk)),
                widen_half(q4k_min_scale(blk)),
                q4k_scales(blk)[j],
                q4k_mins(blk)[j],
                q4k_quant(blk, j, i % 32),
            )
        }),
{
    let d = DTypeV::Q4_K;
    lemma_layout(d, v.len(), byte_len(d, v.len())->0);
    let b = (i / 256) as nat;
    lemma_encoded_block(d, v, v.len() / 256, b);
    let blk = v.subrange(i / 256 * 256, i / 256 * 256 + 256);
    assert(v.subrange((b * 256) as int, ((b + 1) * 256) as int) =~= blk);
    lemma_decode_q4k_scales(packed(d, v), (b * 144) as int, blk, i % 256 / 32);
    lemma_decode_q4k_nibble(packed(d, v), (b * 144) as int, blk, i % 256 / 32, i % 32);
}

/// What a block of 32 holds.
proof fn lemma_decode_q8(data: Seq<u8>, at: int, v: Seq<u32>, l: int)
    requires
        0 <= at,
        at + 34 <= data.len(),
        data.subrange(at, at + 34) == q8_block(v),
        0 <= l < 32,
    ensures
        le_value(data.subrange(at, at + 2)) == q8_scale(v),
        signed(data[at + 2 + l] as nat, 0x80) == q8_quant(v, l),
{
    let blk = q8_block(v);
    lemma_pow256_values();
    lemma_le_bytes_len(q8_scale(v) as nat, 2);
    lemma_le_round_trip(q8_scale(v) as nat, 2);
    assert(data.subrange(at, at + 2) =~= blk.subrange(0, 2));
    assert(blk.subrange(0, 2) =~= le_bytes(q8_scale(v) as nat, 2));
    assert(data[at + 2 + l] == blk[2 + l]);
    assert(blk[2 + l] == low_byte(q8_quant(v, l)));
    lemma_to_int_bounds(product(v[l], q8_inverse(v)), -127, 127);
}

/// The scales that a block of 256 holds.
proof fn lemma_decode_q4k_scales(data: Seq<u8>, at: int, v: Seq<u32>, j: int)
    requires
        0 <= at,
        at + 144 <= data.len(),
        data.subrange(at, at + 144) == q4k_block(v),
        0 <= j < 8,
    ensures
        le_value(data.subrange(at, at + 2)) == q4k_scale(v),
        le_value(data.subrange(at + 2, at + 4)) == q4k_min_scale(v),
        scale_min(j, data.subrange(at + 4, at + 16)) == (q4k_scales(v)[j], q4k_mins(v)[j]),
{
    let blk = q4k_block(v);
    let d = q4k_scale(v) as nat;
    let dm = q4k_min_scale(v) as nat;
    let sc = q4k_scales(v);
    let m = q4k_mins(v);
    lemma_pow256_values();
    lemma_le_bytes_len(d, 2);
    lemma_le_bytes_len(dm, 2);
    lemma_le_round_trip(d, 2);
    lemma_le_round_trip(dm, 2);
    assert(data.subrange(at, at + 2) =~= blk.subrange(0, 2));
    assert(blk.subrange(0, 2) =~= le_bytes(d, 2));
    assert(data.subrange(at + 2, at + 4) =~= blk.subrange(2, 4));
    assert(blk.subrange(2, 4) =~= le_bytes(dm, 2));
    assert(data.subrange(at + 4, at + 16) =~= blk.subrange(4, 16));
    assert(blk.subrange(4, 16) =~= scale_bytes(sc, m));
    assert forall|i: int| 0 <= i < 8 implies sc[i] < 64 && m[i] < 64 by {
        lemma_to_int_bounds(quotient(sub_step(v, i), widen_half(q4k_scale(v))), 0, 63);
        lemma_to_int_bounds(quotient(sub_min(v, i), widen_half(q4k_min_scale(v))), 0, 63);
    }
    law_scales_round_trip(sc, m, j);
}

/// The quantized values that a block of 256 holds.
proof fn lemma_decode_q4k_nibble(data: Seq<u8>, at: int, v: Seq<u32>, j: int, l: int)
    requires
        0 <= at,
        at + 144 <= data.len(),
        data.subrange(at, at + 144) == q4k_block(v),
        0 <= j < 8,
        0 <= l < 32,
    ensures
        nibble(data, at, j, l) == q4k_quant(v, j, l),
{
    let blk = q4k_block(v);
    lemma_le_bytes_len(q4k_scale(v) as nat, 2);
    lemma_le_bytes_len(q4k_min_scale(v) as nat, 2);
    let t = j / 2 * 32 + l;
    assert(t / 32 == j / 2 && t % 32 == l);
    assert(data[at + 16 + t] == blk[16 + t]);
    assert(blk[16 + t] == q4k_byte(v, t));
    let lo = q4k_quant(v, j / 2 * 2, l);
    let hi = q4k_quant(v, j / 2 * 2 + 1, l);
    lemma_q4k_quant_bound(v, j / 2 * 2, l);
    lemma_q4k_quant_bound(v, j / 2 * 2 + 1, l);
    lemma_four_bits(lo, hi);
    assert(q4k_byte(v, t) == (lo + hi * 16) as u8);
}

proof fn lemma_q4k_quant_bound(v: Seq<u32>, j: int, l: int)
    ensures
        q4k_quant(v, j, l) < 16,
{
    reveal(q4k_quant);
    let sc = product(widen_half(q4k_scale(v)), of_int(q4k_scales(v)[j] as int));
    let m = product(widen_half(q4k_min_scale(v)), of_int(q4k_mins(v)[j] as int));
    lemma_to_int_bounds(quotient(sum(v[32 * j + l], m), sc), 0, 15);
}

} // verus!
