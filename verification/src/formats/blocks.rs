//! What the elements of stored data are, from its bytes.

use vstd::arithmetic::power2::{lemma2_to64, lemma_pow2_adds, lemma_pow2_pos, pow2};
use vstd::prelude::*;

use crate::bytes::{le_value, signed};
use crate::float::error::{lemma_int_near, lemma_product_value, lemma_sum_near};
use crate::float::round::gap;
use crate::float::single::{code, magnitude, negated, of_int, product, sum, value, INF};
use crate::formats::desc::{byte_len, DTypeV};
use crate::formats::half::widen_half;
use crate::formats::quant::{decoded, dequant_fault, nibble, q4k_value, scale_min};

verus! {

/// Two bytes from `p` on as a number, least significant first.
pub open spec fn pair_at(b: Seq<u8>, p: int) -> int {
    b[p] + 0x100 * b[p + 1]
}

/// Plain elements stand one after the other, least significant byte first. A bfloat holds the
/// upper half of a number.
pub proof fn law_plain_elements(bytes: Seq<u8>, i: int)
    requires
        0 <= i,
    ensures
        4 * i + 4 <= bytes.len() ==> decoded(DTypeV::F32, bytes, i) == pair_at(bytes, 4 * i)
            + 0x1_0000 * pair_at(bytes, 4 * i + 2),
        2 * i + 2 <= bytes.len() ==> decoded(DTypeV::BF16, bytes, i) == 0x1_0000 * pair_at(
            bytes,
            2 * i,
        ),
        2 * i + 2 <= bytes.len() ==> decoded(DTypeV::F16, bytes, i) == widen_half(
            pair_at(bytes, 2 * i) as u16,
        ),
{
    if 4 * i + 4 <= bytes.len() {
        lemma_two_bytes(bytes, 4 * i + 2);
        let s = bytes.subrange(4 * i, 4 * i + 4);
        assert(s.skip(1).skip(1) =~= bytes.subrange(4 * i + 2, 4 * i + 4));
        reveal_with_fuel(le_value, 3);
    }
    if 2 * i + 2 <= bytes.len() {
        lemma_two_bytes(bytes, 2 * i);
    }
}

/// Two bytes, as they are read.
proof fn lemma_two_bytes(b: Seq<u8>, p: int)
    requires
        0 <= p,
        p + 2 <= b.len(),
    ensures
        le_value(b.subrange(p, p + 2)) == pair_at(b, p),
        0 <= pair_at(b, p) <= u16::MAX,
{
    let s = b.subrange(p, p + 2);
    reveal_with_fuel(le_value, 3);
    assert(s.skip(1).skip(1).len() == 0);
    assert(s.skip(1)[0] == b[p + 1]);
}

/// A number times a small integer, over whole numbers: `v` is the integer `n` as a number,
/// `y` the rounded product with `w`.
proof fn lemma_scaled(u: int, n: int, v: int, w: int, y: int)
    requires
        u > 0,
        gap(n * u, v) * 0x100_0000 <= gap(n, 0) * u,
        0x200_0000 * gap(w * v, y * u) <= 2 * gap(w * v, 0) + 0x100_0000 * u,
    ensures
        0x40_0000 * gap(y, w * n) <= gap(w * n, 0) + 0x40_0000,
{
    let (nu, wv, yu) = (n * u, w * v, y * u);
    let (an, aw) = (gap(n, 0), gap(w, 0));
    let anu = an * u;
    let g = gap(nu, v);
    let (gw, nuw) = (g * aw, anu * aw);
    assert(0x100_0000 * gw <= nuw) by (nonlinear_arith)
        requires
            g * 0x100_0000 <= anu,
            gw == g * aw,
            nuw == anu * aw,
            aw >= 0,
    ;
    let x = w * nu;
    assert(gap(x, wv) == gw) by (nonlinear_arith)
        requires
            x == w * nu,
            wv == w * v,
            gw == g * aw,
            g == gap(nu, v),
            aw == gap(w, 0),
    ;
    let wn = w * n;
    let k = gap(wn, 0);
    assert(nuw == k * u && x == wn * u) by (nonlinear_arith)
        requires
            nuw == (an * u) * aw,
            an == gap(n, 0),
            aw == gap(w, 0),
            wn == w * n,
            k == gap(wn, 0),
            x == w * (n * u),
    ;
    assert(gap(x, 0) == k * u) by (nonlinear_arith)
        requires
            x == wn * u,
            k == gap(wn, 0),
            u > 0,
    ;
    let d = gap(y, wn);
    assert(gap(yu, wn * u) == d * u) by (nonlinear_arith)
        requires
            yu == y * u,
            d == gap(y, wn),
            u > 0,
    ;
    assert(0x40_0000 * (d * u) <= k * u + 0x40_0000 * u);
    assert(0x40_0000 * d <= k + 0x40_0000) by (nonlinear_arith)
        requires
            0x40_0000 * (d * u) <= k * u + 0x40_0000 * u,
            u > 0,
    ;
}

/// A number times a small integer.
proof fn lemma_times_int(x: u32, n: int)
    requires
        code(x) < INF,
        magnitude(x) <= pow2(240),
        -0x1_0000 <= n <= 0x1_0000,
    ensures
        code(product(x, of_int(n))) < INF,
        0x40_0000 * gap(value(product(x, of_int(n))), value(x) * n) <= gap(value(x) * n, 0)
            + 0x40_0000,
{
    let u = pow2(149) as int;
    lemma_pow2_pos(149);
    lemma_pow2_pos(240);
    lemma2_to64();
    lemma_int_near(n);
    let k = magnitude(of_int(n)) as int;
    let an = gap(n, 0);
    assert(an * u <= 0x1_0000 * u) by (nonlinear_arith)
        requires
            an <= 0x1_0000,
            u > 0,
    ;
    lemma_pow2_adds(240, 36);
    lemma_pow2_adds(32, 4);
    assert(magnitude(x) * k <= pow2(276) * u) by (nonlinear_arith)
        requires
            magnitude(x) <= pow2(240),
            0 <= k <= 0x2_0000 * u,
            pow2(276) == pow2(240) * pow2(36),
            pow2(36) == pow2(32) * pow2(4),
            pow2(32) == 0x1_0000_0000,
            pow2(4) == 16,
            u > 0,
    ;
    lemma_product_value(x, of_int(n));
    let v = value(of_int(n));
    assert((-n) * u == -(n * u)) by (nonlinear_arith);
    assert(gap(n * u, v) * 0x100_0000 <= an * u);
    lemma_scaled(u, n, v, value(x), value(product(x, of_int(n))));
}

/// The element `i` of blocks of 32: two bytes of scale, then a signed byte for each.
pub proof fn law_blocks_of_32(bytes: Seq<u8>, i: int)
    requires
        0 <= i,
        34 * (i / 32) + 34 <= bytes.len(),
        ({
            let d = widen_half(pair_at(bytes, 34 * (i / 32)) as u16);
            code(d) < INF && magnitude(d) <= pow2(240)
        }),
    ensures
        ({
            let at = 34 * (i / 32);
            let b = bytes[at + 2 + i % 32] as int;
            let q = if b < 128 {
                b
            } else {
                b - 256
            };
            let d = value(widen_half(pair_at(bytes, at) as u16));
            let y = decoded(DTypeV::Q8_0, bytes, i);
            code(y) < INF && 0x40_0000 * gap(value(y), d * q) <= gap(d * q, 0) + 0x40_0000
        }),
{
    let at = i / 32 * 34;
    lemma_two_bytes(bytes, at);
    let d = widen_half(pair_at(bytes, at) as u16);
    lemma_times_int(d, signed(bytes[at + 2 + i % 32] as nat, 0x80));
}

/// The element `i` of blocks of 256: two bytes of scale and two of the scale of minimums, 12
/// bytes with a six-bit scale and a six-bit minimum for each run of 32, and half a byte for
/// each element, where two runs share 32 bytes, the first in the lower halves.
pub proof fn law_blocks_of_256(bytes: Seq<u8>, i: int)
    requires
        0 <= i,
        144 * (i / 256) + 144 <= bytes.len(),
        ({
            let at = 144 * (i / 256);
            let d = widen_half(pair_at(bytes, at) as u16);
            let e = widen_half(pair_at(bytes, at + 2) as u16);
            code(d) < INF && magnitude(d) <= pow2(200) && code(e) < INF && magnitude(e) <= pow2(200)
        }),
    ensures
        ({
            let at = 144 * (i / 256);
            let run = i % 256 / 32;
            let s = |j: int| bytes[at + 4 + j] as int;
            let (sc, mn) = if run < 4 {
                (s(run) % 64, s(run + 4) % 64)
            } else {
                (s(run + 4) % 16 + 16 * (s(run - 4) / 64), s(run + 4) / 16 + 16 * (s(run) / 64))
            };
            let b = bytes[at + 16 + 32 * (run / 2) + i % 32] as int;
            let q = if run % 2 == 0 {
                b % 16
            } else {
                b / 16
            };
            let d = value(widen_half(pair_at(bytes, at) as u16));
            let e = value(widen_half(pair_at(bytes, at + 2) as u16));
            let y = decoded(DTypeV::Q4_K, bytes, i);
            &&& code(y) < INF
            &&& 0x10_0000 * gap(value(y), d * sc * q - e * mn) <= gap(d * sc * q, 0) + gap(e * mn, 0)
                + 0x200_0000
        }),
{
    let at = i / 256 * 144;
    let run = i % 256 / 32;
    lemma_two_bytes(bytes, at);
    lemma_two_bytes(bytes, at + 2);
    let t = bytes.subrange(at + 4, at + 16);
    let (sc, mn) = scale_min(run, t);
    let q = nibble(bytes, at, run, i % 32);
    assert(0 <= run < 8);
    assert(forall|j: int| 0 <= j < 12 ==> #[trigger] t[j] == bytes[at + 4 + j]);
    assert(i % 256 % 32 == i % 32);
    lemma_q4k_near(
        widen_half(pair_at(bytes, at) as u16),
        widen_half(pair_at(bytes, at + 2) as u16),
        sc,
        mn,
        q,
    );
}

/// A value of a block of 256.
proof fn lemma_q4k_near(d: u32, e: u32, sc: u8, mn: u8, q: u8)
    requires
        code(d) < INF,
        magnitude(d) <= pow2(200),
        code(e) < INF,
        magnitude(e) <= pow2(200),
        q < 16,
    ensures
        ({
            let y = q4k_value(d, e, sc, mn, q);
            let (a, b) = (value(d) * sc * q, value(e) * mn);
            &&& code(y) < INF
            &&& 0x10_0000 * gap(value(y), a - b) <= gap(a, 0) + gap(b, 0) + 0x200_0000
        }),
{
    lemma2_to64();
    lemma_pow2_pos(200);
    lemma_pow2_pos(240);
    lemma_pow2_adds(200, 40);
    lemma_pow2_adds(32, 8);
    lemma_pow2_adds(240, 36);
    lemma_pow2_adds(32, 4);
    let big = pow2(200) as int;
    assert(pow2(240) >= 0x1_0000_0000 * big && pow2(276) >= pow2(240)) by (nonlinear_arith)
        requires
            pow2(240) == pow2(200) * pow2(40),
            pow2(40) == pow2(32) * pow2(8),
            pow2(32) == 0x1_0000_0000,
            pow2(8) == 256,
            pow2(276) == pow2(240) * pow2(36),
            pow2(36) == pow2(32) * pow2(4),
            pow2(4) == 16,
            big == pow2(200),
            pow2(200) > 0,
    ;
    lemma_times_int(d, sc as int);
    let p = product(d, of_int(sc as int));
    let (dv, ev) = (value(d), value(e));
    let ds = dv * sc;
    assert(gap(ds, 0) <= 256 * big) by (nonlinear_arith)
        requires
            ds == dv * sc,
            gap(dv, 0) <= big,
            0 <= sc <= 255,
    ;
    assert(magnitude(p) == gap(value(p), 0));
    assert(magnitude(p) <= 512 * big + 2);
    lemma_times_int(p, q as int);
    let r = product(p, of_int(q as int));
    let pq = value(p) * q;
    let a = ds * q;
    let f = gap(value(p), ds);
    assert(gap(pq, a) == f * q) by (nonlinear_arith)
        requires
            pq == value(p) * q,
            a == ds * q,
            f == gap(value(p), ds),
            q >= 0,
    ;
    let h = gap(ds, 0);
    assert(gap(a, 0) == h * q) by (nonlinear_arith)
        requires
            a == ds * q,
            h == gap(ds, 0),
            q >= 0,
    ;
    assert(0x40_0000 * (f * q) <= h * q + 0x40_0000 * 16) by (nonlinear_arith)
        requires
            0x40_0000 * f <= h + 0x40_0000,
            0 <= q < 16,
            f >= 0,
    ;
    lemma_times_int(e, mn as int);
    let t = product(e, of_int(mn as int));
    let b = ev * mn;
    assert(gap(b, 0) <= 256 * big) by (nonlinear_arith)
        requires
            b == ev * mn,
            gap(ev, 0) <= big,
            0 <= mn <= 255,
    ;
    assert(h * q <= 16 * h) by (nonlinear_arith)
        requires
            0 <= h,
            0 <= q < 16,
    ;
    assert(gap(a, 0) <= 4096 * big);
    let n = negated(t);
    assert(code(n) == code(t) && value(n) == -value(t));
    lemma_not_large(a, b, pq, value(r), value(t), big);
    lemma_sum_near(r, n);
    lemma_less(a, b, pq, value(r), value(t), value(sum(r, n)));
}

/// What is subtracted is not large.
proof fn lemma_not_large(a: int, b: int, p: int, r: int, t: int, big: int)
    requires
        big > 0,
        gap(a, 0) <= 4096 * big,
        gap(b, 0) <= 256 * big,
        0x40_0000 * gap(p, a) <= gap(a, 0) + 0x400_0000,
        0x40_0000 * gap(r, p) <= gap(p, 0) + 0x40_0000,
        0x40_0000 * gap(t, b) <= gap(b, 0) + 0x40_0000,
    ensures
        gap(r - t, 0) <= 0x1_0000 * big,
{
}

/// The difference of two products, over whole numbers.
proof fn lemma_less(a: int, b: int, p: int, r: int, t: int, y: int)
    requires
        0x40_0000 * gap(p, a) <= gap(a, 0) + 0x400_0000,
        0x40_0000 * gap(r, p) <= gap(p, 0) + 0x40_0000,
        0x40_0000 * gap(t, b) <= gap(b, 0) + 0x40_0000,
        gap(r - t, y) * 0x100_0000 <= gap(r - t, 0),
    ensures
        0x10_0000 * gap(y, a - b) <= gap(a, 0) + gap(b, 0) + 0x200_0000,
{
}

/// Data of a type is refused if and only if its length is not that of whole blocks: four bytes
/// an element, two, two, 34 for 32, or 144 for 256.
pub proof fn law_lengths_by_type(d: DTypeV, len: nat, n: nat)
    requires
        n <= 0x1000_0000_0000,
    ensures
        d is F32 ==> (dequant_fault(d, len, n) is None <==> len == 4 * n),
        d is F16 ==> (dequant_fault(d, len, n) is None <==> len == 2 * n),
        d is BF16 ==> (dequant_fault(d, len, n) is None <==> len == 2 * n),
        d is Q8_0 ==> (dequant_fault(d, len, n) is None <==> n % 32 == 0 && 32 * len == 34 * n),
        d is Q4_K ==> (dequant_fault(d, len, n) is None <==> n % 256 == 0 && 256 * len == 144 * n),
        d is Unsupported ==> dequant_fault(d, len, n) is Some,
{
    assert(n / 1 == n && n % 1 == 0);
    assert(n / 1 * 4 == 4 * n && n / 1 * 2 == 2 * n);
    match d {
        DTypeV::F32 => {
            assert(byte_len(d, n) == Some(4 * n));
        },
        DTypeV::F16 => {
            assert(byte_len(d, n) == Some(2 * n));
        },
        DTypeV::BF16 => {
            assert(byte_len(d, n) == Some(2 * n));
        },
        DTypeV::Q8_0 => {
            if n % 32 == 0 {
                assert(byte_len(d, n) == Some(n / 32 * 34));
            } else {
                assert(byte_len(d, n) is None);
            }
        },
        DTypeV::Q4_K => {
            if n % 256 == 0 {
                assert(byte_len(d, n) == Some(n / 256 * 144));
            } else {
                assert(byte_len(d, n) is None);
            }
        },
        DTypeV::Unsupported(_) => {},
    }
}

} // verus!
