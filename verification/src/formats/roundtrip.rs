//! How far a number lies from what its packed form decodes to, against the tolerances.

use vstd::arithmetic::power2::{lemma2_to64, lemma_pow2_adds, lemma_pow2_pos, pow2};
use vstd::prelude::*;

use crate::float::error::{
    lemma_int_near, lemma_product_near, lemma_quotient_near, lemma_rounded_at_most,
    lemma_to_int_near, near,
};
use crate::float::round::{
    gap, lemma_mag_at, lemma_mag_grows, lemma_rounded, lemma_rounded_exact, lemma_rounding_error,
    mag,
};
use crate::float::single::{
    code, is_nan, magnitude, negative, of_int, positive, product, quotient, to_int, value, INF, SIGN,
};
use crate::formats::desc::{byte_len, DTypeV};
use crate::formats::half::{
    law_narrowed_bfloat_is_nearest, law_narrowed_half_is_nearest, law_widen_half_is_exact,
    lemma_bfloat_mag, narrow_bfloat, narrow_half, widen_bfloat, widen_half,
};
use crate::formats::quant::{
    absolutes, block_elems, decoded, fold_larger, law_decode_of_pack, law_packed_len, packed,
    q8_inverse, q8_quant, q8_scale, ONE, ONE_TWENTY_SEVEN,
};
use crate::formats::roundtrip_q4k::{
    law_q4k_error, law_q4k_zeros, lemma_largest_whole, lemma_q4k_in_reach, lemma_scale_of, q4k_fits,
    whole,
};
use crate::graph::tolerance::roundtrip_tolerance;

verus! {

/// Whether two numbers lie apart by at most the tolerance of an element type times the
/// magnitude `top`.
pub open spec fn within(d: DTypeV, x: u32, y: u32, top: nat) -> bool {
    gap(value(x), value(y)) * pow2(149) <= magnitude(roundtrip_tolerance(d)) * top
}

/// The tolerances are at least these fractions: `2^-10`, `2^-7`, `2^-7`.
proof fn lemma_tolerances()
    ensures
        magnitude(roundtrip_tolerance(DTypeV::F16)) >= pow2(139),
        magnitude(roundtrip_tolerance(DTypeV::BF16)) >= pow2(142),
        magnitude(roundtrip_tolerance(DTypeV::Q8_0)) >= pow2(142),
{
    lemma2_to64();
    lemma_mag_at(116, 0x80_0000, 23);
    lemma_pow2_adds(23, 116);
    lemma_mag_grows((116 * 0x80_0000 + 0x80_0000) as nat, 0x3A83_126F, 23);
    lemma_mag_at(119, 0x80_0000, 23);
    lemma_pow2_adds(23, 119);
    lemma_mag_grows((119 * 0x80_0000 + 0x80_0000) as nat, 0x3C03_126F, 23);
}

/// An error of one part in `2^k` is within a tolerance of at least that.
proof fn lemma_within(d: DTypeV, x: u32, y: u32, top: nat, k: nat)
    requires
        k <= 149,
        gap(value(x), value(y)) * pow2(k) <= top,
        magnitude(roundtrip_tolerance(d)) >= pow2((149 - k) as nat),
    ensures
        within(d, x, y, top),
{
    let e = gap(value(x), value(y));
    let t = magnitude(roundtrip_tolerance(d));
    let a = pow2(k);
    let b = pow2((149 - k) as nat);
    lemma_pow2_adds(k, (149 - k) as nat);
    assert(e * pow2(149) <= t * top) by (nonlinear_arith)
        requires
            e >= 0,
            e * a <= top,
            t >= b,
            a * b == pow2(149),
    ;
}

/// A number that does not overflow half precision comes back up to the tolerance of half
/// precision, relative to a magnitude that it does not exceed and that half precision
/// holds with a full significand. A zero comes back.
pub proof fn law_half_error(x: u32, a: nat)
    requires
        code(x) < INF,
        magnitude(x) <= a,
        magnitude(x) <= 65504 * pow2(149),
        magnitude(x) == 0 || pow2(135) <= a,
    ensures
        within(DTypeV::F16, x, widen_half(narrow_half(x)), a),
{
    let h = narrow_half(x);
    let y = widen_half(h);
    let m = magnitude(x);
    lemma2_to64();
    lemma_tolerances();
    lemma_pow2_pos(149);
    lemma_pow2_pos(125);
    law_narrowed_half_is_nearest(x);
    assert(65504 * pow2(149) < 65520 * pow2(149)) by (nonlinear_arith)
        requires
            pow2(149) > 0,
    ;
    law_widen_half_is_exact(h);
    let c = (h % 0x8000) as nat;
    lemma_rounded(m, pow2(125), c, 10);
    lemma_rounding_error(m, pow2(125), 10);
    lemma_pow2_adds(10, 125);
    let e = gap(m as int, magnitude(y) as int);
    assert(2 * pow2(10) == 2048);
    assert(mag(0, 10) == 0 && 0 * pow2(125) == 0);
    if m == 0 {
        lemma_rounded_exact(0, pow2(125), 0, 10);
        assert(e == 0);
    }
    assert(e * 1024 <= a);
    assert(gap(value(x), value(y)) == e);
    assert(e * pow2(10) <= a);
    lemma_within(DTypeV::F16, x, y, a, 10);
}

/// A number whose upper half is finite comes back up to the tolerance of brain floats,
/// relative to a magnitude that it does not exceed and that has a full significand. A zero
/// comes back.
pub proof fn law_bfloat_error(x: u32, a: nat)
    requires
        code(x) < INF,
        magnitude(x) <= a,
        magnitude(x) <= magnitude(0x7F7F_0000),
        magnitude(x) == 0 || pow2(23) <= a,
    ensures
        within(DTypeV::BF16, x, widen_bfloat(narrow_bfloat(x)), a),
{
    let b = narrow_bfloat(x);
    let y = widen_bfloat(b);
    let m = magnitude(x);
    lemma2_to64();
    lemma_tolerances();
    law_narrowed_bfloat_is_nearest(x);
    let c = (b % 0x8000) as nat;
    lemma_rounded(m, pow2(16), c, 7);
    lemma_rounding_error(m, pow2(16), 7);
    lemma_bfloat_mag(0x7F7F);
    lemma_bfloat_mag(c);
    assert(mag(0, 7) == 0 && 0 * pow2(16) == 0 && 2 * pow2(7) == 256);
    if m == 0 {
        lemma_rounded_exact(0, pow2(16), 0, 7);
    } else {
        lemma_rounded_at_most(m, pow2(16), 0x7F7F, 7);
    }
    assert(code(y) == c * 0x1_0000);
    let e = gap(m as int, magnitude(y) as int);
    if m == 0 {
        assert(e == 0);
    }
    assert(e * 128 <= a);
    assert(negative(y) == negative(x));
    assert(gap(value(x), value(y)) == e);
    assert(e * pow2(7) <= a);
    lemma_within(DTypeV::BF16, x, y, a, 7);
}

/// A block whose numbers are finite.
pub open spec fn finite(v: Seq<u32>) -> bool {
    forall|i: int| 0 <= i < v.len() ==> code(#[trigger] v[i]) < INF
}

/// The largest magnitude of a block, as a number.
pub open spec fn top_of(v: Seq<u32>) -> u32 {
    fold_larger(0, absolutes(v))
}

/// The largest of finite numbers that are not negative is finite, not negative, and no
/// smaller than any of them.
proof fn lemma_fold_larger(v: Seq<u32>)
    requires
        forall|i: int| 0 <= i < v.len() ==> #[trigger] v[i] < INF,
    ensures
        fold_larger(0, v) < INF,
        forall|i: int| 0 <= i < v.len() ==> #[trigger] v[i] <= fold_larger(0, v),
    decreases v.len(),
{
    if v.len() > 0 {
        let w = v.drop_last();
        assert forall|i: int| 0 <= i < w.len() implies #[trigger] w[i] < INF by {
            assert(w[i] == v[i]);
        }
        lemma_fold_larger(w);
        assert(v.last() == v[v.len() - 1]);
        assert forall|i: int| 0 <= i < v.len() implies #[trigger] v[i] <= fold_larger(0, v) by {
            if i < v.len() - 1 {
                assert(w[i] == v[i]);
            }
        }
    }
}

/// The largest magnitude of a block is finite and no smaller than any other.
pub proof fn lemma_top(v: Seq<u32>)
    requires
        finite(v),
    ensures
        code(top_of(v)) < INF,
        !negative(top_of(v)),
        forall|i: int| 0 <= i < v.len() ==> magnitude(#[trigger] v[i]) <= magnitude(top_of(v)),
{
    let a = absolutes(v);
    assert forall|i: int| 0 <= i < a.len() implies #[trigger] a[i] < INF by {
        assert(code(v[i]) < INF);
    }
    lemma_fold_larger(a);
    assert forall|i: int| 0 <= i < v.len() implies magnitude(#[trigger] v[i]) <= magnitude(
        top_of(v),
    ) by {
        assert(a[i] <= top_of(v));
        lemma_mag_grows(code(v[i]), code(top_of(v)), 23);
    }
}

/// Gaps are scaled with what lies apart.
pub proof fn lemma_gap_scales(a: int, b: int, u: nat)
    ensures
        gap(a * u, b * u) == gap(a, b) * u,
{
    if a < b {
        assert(a * u <= b * u && b * u - a * u == (b - a) * u) by (nonlinear_arith)
            requires
                a < b,
        ;
    } else {
        assert(a * u >= b * u && a * u - b * u == (a - b) * u) by (nonlinear_arith)
            requires
                a >= b,
        ;
    }
}

/// What packing a block of 32 relies on, against a magnitude `a` that its numbers do not
/// exceed: half precision tells a part in 127 of that magnitude from zero well enough, or
/// the block has zeros alone; and the scale does not overflow half precision.
pub open spec fn q8_fits(v: Seq<u32>, a: nat) -> bool {
    &&& magnitude(top_of(v)) <= a
    &&& magnitude(top_of(v)) <= 127 * (65504 * pow2(149))
    &&& magnitude(top_of(v)) == 0 || 127 * pow2(135) <= a
}

/// The magnitudes of 127 and of one.
proof fn lemma_constants()
    ensures
        magnitude(ONE_TWENTY_SEVEN) == 127 * pow2(149),
        magnitude(ONE) == pow2(149),
        code(ONE) == ONE,
        code(ONE_TWENTY_SEVEN) == ONE_TWENTY_SEVEN,
{
    lemma2_to64();
    lemma_mag_at(132, 127 * 0x2_0000, 23);
    lemma_pow2_adds(17, 132);
    assert(132 * 0x80_0000 + 127 * 0x2_0000 == ONE_TWENTY_SEVEN as int);
    assert((127 * 0x2_0000) * pow2(132) == 127 * (0x2_0000 * pow2(132))) by (nonlinear_arith);
    lemma_mag_at(126, 0x80_0000, 23);
    lemma_pow2_adds(23, 126);
}

/// How the scale of a block and its inverse relate to the largest magnitude.
proof fn lemma_q8_scale(v: Seq<u32>)
    requires
        finite(v),
        magnitude(top_of(v)) <= 127 * (65504 * pow2(149)),
    ensures
        ({
            let u = pow2(149);
            let z = magnitude(top_of(v));
            let s = magnitude(quotient(top_of(v), ONE_TWENTY_SEVEN));
            let scale = widen_half(q8_scale(v));
            let d = magnitude(scale);
            let i = magnitude(q8_inverse(v));
            &&& code(scale) < INF && !negative(scale)
            &&& code(q8_inverse(v)) < INF && !negative(q8_inverse(v))
            &&& d <= 0x2_0000 * u
            &&& 0x200_0000 * gap(z as int, (127 * s) as int) <= 2 * z + 0x100_0000 * 127
            &&& 2048 * gap(s as int, d as int) <= s + pow2(135)
            &&& z == 0 ==> d == 0
            &&& d == 0 ==> q8_inverse(v) == 0
            &&& d > 0 ==> d >= pow2(125)
            &&& d > 0 ==> gap((u * u) as int, (i * d) as int) * 0x100_0000 <= u * u
        }),
{
    let u = pow2(149);
    let top = top_of(v);
    lemma2_to64();
    lemma_constants();
    lemma_top(v);
    lemma_scale_of(top, ONE_TWENTY_SEVEN, 127);
    let s = magnitude(quotient(top, ONE_TWENTY_SEVEN));
    let scale = widen_half(q8_scale(v));
    let d = magnitude(scale);
    lemma_pow2_pos(149);
    lemma_pow2_pos(135);
    lemma_pow2_pos(125);
    lemma_pow2_adds(14, 135);
    lemma_pow2_adds(24, 125);
    lemma_pow2_adds(127, 149);
    lemma_pow2_adds(64, 63);
    lemma_pow2_pos(63);
    lemma_pow2_adds(64, 85);
    lemma_pow2_pos(85);
    assert(d <= 0x2_0000 * u);
    lemma_pow2_pos(23);
    assert(mag(0, 23) == 0);
    if d == 0 {
        if code(scale) > 0 {
            lemma_mag_grows(0, code(scale), 23);
        }
        assert(!positive(scale));
    } else {
        assert(code(scale) > 0);
        assert(positive(scale));
        assert(u * u <= pow2(276) * d) by (nonlinear_arith)
            requires
                u == 0x100_0000 * pow2(125),
                d >= pow2(125),
                pow2(276) == pow2(127) * u,
                pow2(127) >= 0x100_0000,
                u > 0,
        ;
        assert(u * u >= 0x80_0000 * d) by (nonlinear_arith)
            requires
                d <= 0x2_0000 * u,
                u >= 0x1_0000_0000_0000_0000,
        ;
        lemma_quotient_near(ONE, scale);
    }
}

/// The scale is at most one part in 126 of the magnitude that a block is held against, and
/// a scale of zero means that its numbers are small against that.
proof fn lemma_q8_small(a: nat, z: nat, s: nat, d: nat, b: nat)
    requires
        b >= 0x100_0000,
        z <= a,
        127 * b <= a,
        0x200_0000 * gap(z as int, (127 * s) as int) <= 2 * z + 0x100_0000 * 127,
        2048 * gap(s as int, d as int) <= s + b,
    ensures
        126 * d <= a,
        d == 0 ==> 128 * z <= a,
{
}

/// How far a number lies from its decoded value, over whole numbers.
proof fn lemma_q8_arithmetic(
    u: nat,
    a: nat,
    d: nat,
    i: nat,
    x: nat,
    p: nat,
    n: nat,
    q: nat,
    y: nat,
)
    requires
        u >= 0x100_0000,
        a >= 0x100_0000,
        126 * d <= a,
        gap((u * u) as int, (i * d) as int) * 0x100_0000 <= u * u,
        x <= a,
        near(x * i, u, p),
        2 * gap((n * u) as int, p as int) <= u,
        n <= 127,
        gap((n * u) as int, q as int) * 0x100_0000 <= n * u,
        near(d * q, u, y),
    ensures
        gap(x as int, y as int) * 128 <= a,
{
    let big: int = 0x100_0000;
    let uu = u * u;
    let id = i * d;
    let w = x * i;
    let pu = p * u;
    let du = d * u;
    let xu = x * u;
    let yu = y * u;
    let au = a * u;
    let dp = d * p;
    let dn = d * (n * u);
    let dq = d * q;
    assert(126 * du <= au) by (nonlinear_arith)
        requires
            126 * d <= a,
            du == d * u,
            au == a * u,
    ;
    assert(xu <= au) by (nonlinear_arith)
        requires
            x <= a,
            xu == x * u,
            au == a * u,
    ;
    // From the number to what is rounded.
    let e1 = gap(w as int, pu as int);
    assert(big * e1 <= w + big * u);
    let e2 = gap(uu as int, id as int);
    assert(big * e2 <= uu);
    let dw = d * w;
    assert(dw == x * id) by (nonlinear_arith)
        requires
            dw == d * w,
            w == x * i,
            id == i * d,
    ;
    let xuu = x * uu;
    let dpu = d * pu;
    lemma_gap_scales(uu as int, id as int, x);
    assert(gap(xuu as int, dw as int) == e2 * x) by {
        assert(uu * x == xuu && id * x == dw) by (nonlinear_arith)
            requires
                xuu == x * uu,
                dw == x * id,
        ;
    }
    lemma_gap_scales(w as int, pu as int, d);
    assert(gap(dw as int, dpu as int) == e1 * d) by {
        assert(w * d == dw && pu * d == dpu) by (nonlinear_arith)
            requires
                dw == d * w,
                dpu == d * pu,
        ;
    }
    assert(big * (e2 * x) <= xuu) by (nonlinear_arith)
        requires
            big * e2 <= uu,
            xuu == x * uu,
            x >= 0,
    ;
    assert(big * (e1 * d) <= dw + big * du) by (nonlinear_arith)
        requires
            big * e1 <= w + big * u,
            dw == d * w,
            du == d * u,
            d >= 0,
    ;
    let e3 = gap(xuu as int, dpu as int);
    assert(big * e3 <= 3 * xuu + big * du);
    assert(xuu == xu * u && dpu == dp * u) by (nonlinear_arith)
        requires
            xuu == x * (u * u),
            xu == x * u,
            dpu == d * (p * u),
            dp == d * p,
    ;
    lemma_gap_scales(xu as int, dp as int, u);
    let e4 = gap(xu as int, dp as int);
    assert(big * e4 <= 3 * xu + big * d) by (nonlinear_arith)
        requires
            big * (e4 * u) <= 3 * (xu * u) + big * (d * u),
            u > 0,
    ;
    // To the rounded integer, to that as a number, and to the product with the scale.
    lemma_gap_scales((n * u) as int, p as int, d);
    let e5 = gap(dn as int, dp as int);
    assert(e5 == gap((n * u) as int, p as int) * d) by {
        assert((n * u) * d == dn && p * d == dp) by (nonlinear_arith)
            requires
                dn == d * (n * u),
                dp == d * p,
        ;
    }
    let g5 = gap((n * u) as int, p as int);
    assert(2 * e5 <= du) by (nonlinear_arith)
        requires
            2 * g5 <= u,
            e5 == g5 * d,
            du == d * u,
            d >= 0,
    ;
    lemma_gap_scales((n * u) as int, q as int, d);
    let g6 = gap((n * u) as int, q as int);
    let e6 = gap(dn as int, dq as int);
    assert(e6 == g6 * d) by {
        assert((n * u) * d == dn && q * d == dq) by (nonlinear_arith)
            requires
                dn == d * (n * u),
                dq == d * q,
        ;
    }
    assert(big * e6 <= dn) by (nonlinear_arith)
        requires
            g6 * big <= n * u,
            e6 == g6 * d,
            dn == d * (n * u),
            d >= 0,
    ;
    assert(dn <= 127 * du) by (nonlinear_arith)
        requires
            dn == d * (n * u),
            du == d * u,
            n <= 127,
    ;
    let e7 = gap(dq as int, yu as int);
    assert(big * e7 <= dq + big * u);
    assert(dq <= 128 * du);
    // Together.
    let e = gap(xu as int, yu as int);
    assert(e <= e4 + e5 + e6 + e7);
    assert(1000 * u <= au) by (nonlinear_arith)
        requires
            au == a * u,
            a >= 1000,
    ;
    assert(1000 * d <= du) by (nonlinear_arith)
        requires
            du == d * u,
            u >= 1000,
    ;
    assert(128 * e <= au);
    lemma_gap_scales(x as int, y as int, u);
    let g = gap(x as int, y as int);
    assert(128 * g <= a) by (nonlinear_arith)
        requires
            128 * (g * u) <= a * u,
            u > 0,
    ;
}

/// The case where a number is held to the largest eight-bit value.
proof fn lemma_q8_capped(
    u: nat,
    a: nat,
    z: nat,
    s: nat,
    d: nat,
    i: nat,
    x: nat,
    p: nat,
    q: nat,
    y: nat,
    b: nat,
)
    requires
        u >= 0x100_0000,
        b >= 0x100_0000,
        x <= z <= a,
        127 * b <= a,
        0x200_0000 * gap(z as int, (127 * s) as int) <= 2 * z + 0x100_0000 * 127,
        2048 * gap(s as int, d as int) <= s + b,
        gap((u * u) as int, (i * d) as int) * 0x100_0000 <= u * u,
        near(x * i, u, p),
        2 * p >= 255 * u,
        gap((127 * u) as int, q as int) * 0x100_0000 <= 127 * u,
        near(d * q, u, y),
    ensures
        gap(x as int, y as int) * 128 <= a,
{
    let big: int = 0x100_0000;
    let uu = u * u;
    let id = i * d;
    let w = x * i;
    let pu = p * u;
    let du = d * u;
    let dq = d * q;
    let yu = y * u;
    lemma_q8_small(a, z, s, d, b);
    assert(2 * pu >= 255 * uu) by (nonlinear_arith)
        requires
            2 * p >= 255 * u,
            pu == p * u,
            uu == u * u,
    ;
    assert(1000 * u <= uu) by (nonlinear_arith)
        requires
            uu == u * u,
            u >= 1000,
    ;
    let e1 = gap(w as int, pu as int);
    assert(big * e1 <= w + big * u);
    assert(1000 * w >= 127_400 * uu);
    // The number is no smaller than 127 scales.
    let dw = d * w;
    let duu = d * uu;
    let xuu = x * uu;
    assert(1000 * dw >= 127_400 * duu) by (nonlinear_arith)
        requires
            1000 * w >= 127_400 * uu,
            dw == d * w,
            duu == d * uu,
    ;
    assert(dw == x * id) by (nonlinear_arith)
        requires
            dw == d * w,
            w == x * i,
            id == i * d,
    ;
    assert(big * id <= (big + 1) * uu);
    assert(big * dw <= (big + 1) * xuu) by (nonlinear_arith)
        requires
            big * id <= (big + 1) * uu,
            dw == x * id,
            xuu == x * uu,
            x >= 0,
    ;
    assert(xuu >= 127 * duu);
    assert(x >= 127 * d) by (nonlinear_arith)
        requires
            x * uu >= 127 * (d * uu),
            uu > 0,
    ;
    // What it is decoded to.
    let g3 = gap((127 * u) as int, q as int);
    lemma_gap_scales((127 * u) as int, q as int, d);
    assert(q * d == dq && (127 * u) * d == 127 * du) by (nonlinear_arith)
        requires
            dq == d * q,
            du == d * u,
    ;
    let e3 = gap((127 * du) as int, dq as int);
    assert(big * e3 <= 127 * du) by (nonlinear_arith)
        requires
            g3 * big <= 127 * u,
            e3 == g3 * d,
            du == d * u,
            d >= 0,
    ;
    let e4 = gap(dq as int, yu as int);
    assert(big * e4 <= dq + big * u);
    let e5 = gap((127 * du) as int, yu as int);
    assert(big * e5 <= 255 * du + big * u);
    lemma_gap_scales((127 * d) as int, y as int, u);
    assert((127 * d) * u == 127 * du) by (nonlinear_arith)
        requires
            du == d * u,
    ;
    let g5 = gap((127 * d) as int, y as int);
    assert(big * g5 <= 255 * d + big) by (nonlinear_arith)
        requires
            big * (g5 * u) <= 255 * (d * u) + big * u,
            u > 0,
    ;
    // The number is hardly more than that.
    assert(2047 * s <= 2048 * d + b);
    assert(0x1FF_FFFE * z <= 0x200_0000 * (127 * s) + 0x100_0000 * 127);
}

/// A number beyond the largest eight-bit value is held to that.
proof fn lemma_to_int_capped(x: u32)
    requires
        !is_nan(x),
        2 * magnitude(x) >= 255 * pow2(149),
    ensures
        to_int(x, -127, 127) == if negative(x) {
            -127int
        } else {
            127
        },
{
    reveal(to_int);
    let u = pow2(149);
    let m = magnitude(x);
    lemma_pow2_pos(149);
    vstd::arithmetic::div_mod::lemma_fundamental_div_mod((2 * m + u) as int, (2 * u) as int);
    vstd::arithmetic::div_mod::lemma_mod_bound((2 * m + u) as int, (2 * u) as int);
    let n = ((2 * m + u) / (2 * u)) as nat;
    assert((2 * u) * n == 2 * (n * u)) by (nonlinear_arith);
    assert(n >= 128) by (nonlinear_arith)
        requires
            2 * m + u < 2 * (n * u) + 2 * u,
            2 * m >= 255 * u,
            u > 0,
    ;
}

/// A number of a finite block of 32 comes back up to the tolerance of eight-bit blocks,
/// relative to a magnitude that no number of the block exceeds and that half precision
/// tells from zero well enough. A block of zeros comes back.
#[verifier::rlimit(40)]
pub proof fn law_q8_error(v: Seq<u32>, l: int, a: nat)
    requires
        v.len() == 32,
        finite(v),
        q8_fits(v, a),
        0 <= l < 32,
    ensures
        within(
            DTypeV::Q8_0,
            v[l],
            product(widen_half(q8_scale(v)), of_int(q8_quant(v, l))),
            a,
        ),
{
    let u = pow2(149);
    let b = pow2(135);
    let z = magnitude(top_of(v));
    let s = magnitude(quotient(top_of(v), ONE_TWENTY_SEVEN));
    let scale = widen_half(q8_scale(v));
    let d = magnitude(scale);
    let inv = q8_inverse(v);
    let i = magnitude(inv);
    let x = v[l];
    let m = magnitude(x);
    assert(code(x) < INF);
    lemma2_to64();
    lemma_top(v);
    lemma_q8_scale(v);
    lemma_tolerances();
    lemma_q8_sizes(v, l);
    if z > 0 {
        lemma_q8_small(a, z, s, d, b);
    }
    // The number over the scale.
    let p = product(x, inv);
    let pm = magnitude(p);
    lemma_product_near(x, inv);
    let n = q8_quant(v, l);
    if d == 0 || 2 * pm < 255 * u {
        if d == 0 {
            lemma_pow2_pos(23);
            assert(mag(0, 23) == 0);
            assert(i == 0);
            assert(m * 0 == 0);
            assert(pm == 0) by (nonlinear_arith)
                requires
                    near(0, u, pm),
                    u > 1,
            ;
        }
        lemma_to_int_near(p, -127, 127);
    } else {
        lemma_to_int_capped(p);
    }
    assert(n == to_int(p, -127, 127));
    lemma_int_near(n);
    let q = of_int(n);
    let qm = magnitude(q);
    let k = gap(n, 0) as nat;
    lemma_q8_product_fits(u, d, k, qm);
    lemma_product_near(scale, q);
    let y = product(scale, q);
    let ym = magnitude(y);
    if d == 0 {
        assert(k == 0) by (nonlinear_arith)
            requires
                2 * gap((k * u) as int, 0) <= u,
                u > 0,
        ;
        assert(0 * qm == 0);
        assert(ym == 0) by (nonlinear_arith)
            requires
                near(0, u, ym),
                u > 1,
        ;
        assert(gap(m as int, ym as int) * 128 <= a);
    } else if 2 * pm < 255 * u {
        lemma_q8_arithmetic(u, a, d, i, m, pm, k, qm, ym);
    } else {
        lemma_q8_capped(u, a, z, s, d, i, m, pm, qm, ym, b);
    }
    // Both have one sign, or the second is zero.
    if n == 0 {
        assert(0 * u == 0);
        assert(qm == 0);
        assert(d * 0 == 0);
        assert(ym == 0) by (nonlinear_arith)
            requires
                near(0, u, ym),
                u > 1,
        ;
    } else {
        assert(negative(y) == negative(x));
    }
    assert(gap(value(x), value(y)) == gap(m as int, ym as int));
    lemma_within(DTypeV::Q8_0, x, y, a, 7);
}

/// What the steps of packing a number multiply is not too large.
proof fn lemma_q8_sizes(v: Seq<u32>, l: int)
    requires
        finite(v),
        magnitude(top_of(v)) <= 127 * (65504 * pow2(149)),
        0 <= l < v.len(),
    ensures
        magnitude(v[l]) * magnitude(q8_inverse(v)) <= pow2(276) * pow2(149),
        pow2(149) >= 0x100_0000,
        pow2(135) >= 0x100_0000,
{
    let u = pow2(149);
    let d = magnitude(widen_half(q8_scale(v)));
    let i = magnitude(q8_inverse(v));
    let x = magnitude(v[l]);
    lemma2_to64();
    lemma_top(v);
    lemma_q8_scale(v);
    lemma_pow2_pos(149);
    lemma_pow2_pos(23);
    lemma_pow2_adds(14, 135);
    lemma_pow2_adds(24, 125);
    lemma_pow2_adds(24, 111);
    lemma_pow2_pos(111);
    lemma_pow2_adds(127, 149);
    lemma_pow2_adds(64, 63);
    lemma_pow2_pos(63);
    let uu = u * u;
    if d == 0 {
        assert(mag(0, 23) == 0);
        assert(i == 0);
    } else {
        assert(i * d <= 2 * uu);
        assert(0x100_0000 * d >= u);
        assert(i <= 0x200_0000 * u) by (nonlinear_arith)
            requires
                i * d <= 2 * uu,
                uu == u * u,
                0x100_0000 * d >= u,
                u > 0,
        ;
    }
    assert(x * i <= (0x100_0000 * u) * (0x200_0000 * u)) by (nonlinear_arith)
        requires
            x <= 0x100_0000 * u,
            i <= 0x200_0000 * u,
    ;
    assert((0x100_0000 * u) * (0x200_0000 * u) <= pow2(276) * u) by (nonlinear_arith)
        requires
            pow2(276) == pow2(127) * u,
            pow2(127) >= 0x2_0000_0000_0000,
            u > 0,
    ;
}

/// A scale times a quantized value is not too large.
proof fn lemma_q8_product_fits(u: nat, d: nat, n: nat, q: nat)
    requires
        u == pow2(149),
        d <= 0x2_0000 * u,
        n <= 127,
        gap((n * u) as int, q as int) * 0x100_0000 <= n * u,
    ensures
        d * q <= pow2(276) * u,
{
    lemma2_to64();
    lemma_pow2_adds(127, 149);
    lemma_pow2_adds(64, 63);
    lemma_pow2_pos(63);
    lemma_pow2_pos(149);
    assert(n * u <= 127 * u) by (nonlinear_arith)
        requires
            n <= 127,
    ;
    assert(d * q <= (0x2_0000 * u) * (256 * u)) by (nonlinear_arith)
        requires
            d <= 0x2_0000 * u,
            q <= 256 * u,
    ;
    assert((0x2_0000 * u) * (256 * u) <= pow2(276) * u) by (nonlinear_arith)
        requires
            pow2(276) == pow2(127) * u,
            pow2(127) >= 0x200_0000,
            u > 0,
    ;
}

/// The block that element `i` is packed in.
pub open spec fn block_of(d: DTypeV, v: Seq<u32>, i: int) -> Seq<u32> {
    let n = block_elems(d) as int;
    v.subrange(i / n * n, i / n * n + n)
}

/// Whether a block is one that its element type holds up to its tolerance, against a
/// magnitude `a` that its numbers do not exceed: its numbers are finite, no scale
/// overflows, and the element type tells that magnitude from zero, or the block has zeros
/// alone.
pub open spec fn well_scaled(d: DTypeV, b: Seq<u32>, a: nat) -> bool {
    let top = magnitude(top_of(b));
    &&& finite(b)
    &&& top <= a
    &&& match d {
        DTypeV::F32 => true,
        DTypeV::F16 => top <= 65504 * pow2(149) && (top == 0 || pow2(135) <= a),
        DTypeV::BF16 => top <= magnitude(0x7F7F_0000) && (top == 0 || pow2(23) <= a),
        DTypeV::Q8_0 => q8_fits(b, a),
        DTypeV::Q4_K => top == 0 || q4k_fits(b, a),
        DTypeV::Unsupported(_) => false,
    }
}

/// Packing and decoding gives a number back up to the tolerance of its element type,
/// relative to a magnitude that its block is well scaled against, such as the largest of
/// the block or of all numbers.
pub proof fn law_round_trip_error(d: DTypeV, v: Seq<u32>, i: int, a: nat)
    requires
        byte_len(d, v.len()) is Some,
        0 <= i < v.len(),
        well_scaled(d, block_of(d, v, i), a),
    ensures
        within(d, v[i], decoded(d, packed(d, v), i), a),
{
    match d {
        DTypeV::Q8_0 => {
            lemma_q8_element(v, i, a);
        },
        DTypeV::Q4_K => {
            lemma_q4k_element(v, i, a);
        },
        _ => {
            lemma_plain_element(d, v, i, a);
        },
    }
}

/// Packing finite numbers of any supported element type, in whole blocks, and decoding
/// them gives every one back up to the tolerance of the type, relative to the largest
/// magnitude of all, where that lies between `2^-5` and 65504; blocks of zeros and of
/// numbers that are small against the largest among them.
pub proof fn law_list_round_trip_error(d: DTypeV, v: Seq<u32>, i: int)
    requires
        byte_len(d, v.len()) is Some,
        finite(v),
        pow2(144) <= magnitude(top_of(v)) <= 65504 * pow2(149),
        0 <= i < v.len(),
    ensures
        packed(d, v).len() == byte_len(d, v.len())->0,
        within(d, v[i], decoded(d, packed(d, v), i), magnitude(top_of(v))),
{
    law_packed_len(d, v);
    let a = magnitude(top_of(v));
    let n = block_elems(d) as int;
    let b = block_of(d, v, i);
    lemma_top(v);
    lemma_block_bounds(d, v, i);
    assert forall|j: int| 0 <= j < b.len() implies code(#[trigger] b[j]) < INF && magnitude(b[j])
        <= a by {
        assert(b[j] == v[i / n * n + j]);
    }
    lemma_top_at_most(b, a);
    lemma2_to64();
    lemma_pow2_adds(9, 135);
    lemma_pow2_adds(7, 137);
    lemma_pow2_pos(135);
    lemma_pow2_pos(137);
    lemma_pow2_adds(23, 121);
    lemma_pow2_pos(121);
    match d {
        DTypeV::Q4_K => {
            lemma_q4k_in_reach(b, a);
        },
        DTypeV::BF16 => {
            lemma_bfloat_reach();
        },
        _ => {},
    }
    assert(pow2(23) <= pow2(144)) by (nonlinear_arith)
        requires
            pow2(23) * pow2(121) == pow2(144),
            pow2(121) >= 1,
    ;
    lemma_pow2_pos(149);
    assert(65504 * pow2(149) <= 127 * (65504 * pow2(149)));
    law_round_trip_error(d, v, i, a);
}

/// A block lies within the numbers.
proof fn lemma_block_bounds(d: DTypeV, v: Seq<u32>, i: int)
    requires
        byte_len(d, v.len()) is Some,
        0 <= i < v.len(),
    ensures
        ({
            let n = block_elems(d) as int;
            &&& 0 <= i / n * n
            &&& i / n * n + n <= v.len()
            &&& block_of(d, v, i).len() == n
            &&& n == match d {
                DTypeV::Q8_0 => 32,
                DTypeV::Q4_K => 256,
                _ => 1int,
            }
        }),
{
    let n = v.len();
    assert(byte_len(d, n) is Some);
    match d {
        DTypeV::Q8_0 => {
            assert(n % 32 == 0);
            assert(block_elems(d) as int == 32);
            assert(0 <= i / 32 * 32 && i / 32 * 32 + 32 <= n);
        },
        DTypeV::Q4_K => {
            assert(n % 256 == 0);
            assert(block_elems(d) as int == 256);
            assert(0 <= i / 256 * 256 && i / 256 * 256 + 256 <= n);
        },
        _ => {
            assert(block_elems(d) as int == 1);
            assert(i / 1 * 1 == i);
        },
    }
}

/// The largest magnitude is at most what bounds all.
proof fn lemma_top_at_most(b: Seq<u32>, a: nat)
    requires
        finite(b),
        forall|j: int| 0 <= j < b.len() ==> magnitude(#[trigger] b[j]) <= a,
    ensures
        magnitude(top_of(b)) <= a,
{
    let w = absolutes(b);
    assert forall|j: int| 0 <= j < w.len() implies whole(#[trigger] w[j]) && magnitude(w[j]) <= a by {
        assert(w[j] == b[j] % SIGN);
        assert(code(b[j]) < INF);
    }
    lemma_largest_whole(w, a);
}

/// The largest brain float is larger than 65504.
proof fn lemma_bfloat_reach()
    ensures
        65504 * pow2(149) <= magnitude(0x7F7F_0000),
{
    lemma2_to64();
    lemma_mag_at(141, 65504 * 256, 23);
    lemma_pow2_adds(8, 141);
    assert((65504 * 256) * pow2(141) == 65504 * (256 * pow2(141))) by (nonlinear_arith);
    lemma_mag_grows((141 * 0x80_0000 + 65504 * 256) as nat, 0x7F7F_0000, 23);
}

/// An element that is packed on its own.
proof fn lemma_plain_element(d: DTypeV, v: Seq<u32>, i: int, a: nat)
    requires
        d is F32 || d is F16 || d is BF16,
        byte_len(d, v.len()) is Some,
        0 <= i < v.len(),
        well_scaled(d, block_of(d, v, i), a),
    ensures
        within(d, v[i], decoded(d, packed(d, v), i), a),
{
    law_decode_of_pack(d, v, i);
    let b = block_of(d, v, i);
    assert(i / 1 * 1 == i);
    assert(b[0] == v[i]);
    assert(code(b[0]) < INF);
    lemma_lone_top(b);
    if d is F16 {
        law_half_error(v[i], a);
    } else if d is BF16 {
        law_bfloat_error(v[i], a);
    } else {
        assert(0 * pow2(149) == 0);
        lemma_pow2_pos(23);
        assert(mag(0, 23) == 0 && 0 * a == 0);
    }
}

/// An element of a block of 32.
proof fn lemma_q8_element(v: Seq<u32>, i: int, a: nat)
    requires
        byte_len(DTypeV::Q8_0, v.len()) is Some,
        0 <= i < v.len(),
        well_scaled(DTypeV::Q8_0, block_of(DTypeV::Q8_0, v, i), a),
    ensures
        within(DTypeV::Q8_0, v[i], decoded(DTypeV::Q8_0, packed(DTypeV::Q8_0, v), i), a),
{
    lemma_block_bounds(DTypeV::Q8_0, v, i);
    let b = block_of(DTypeV::Q8_0, v, i);
    assert(b.len() == 32 && b[i % 32] == v[i]);
    law_decode_of_pack(DTypeV::Q8_0, v, i);
    law_q8_error(b, i % 32, a);
}

/// An element of a block of 256.
proof fn lemma_q4k_element(v: Seq<u32>, i: int, a: nat)
    requires
        byte_len(DTypeV::Q4_K, v.len()) is Some,
        0 <= i < v.len(),
        well_scaled(DTypeV::Q4_K, block_of(DTypeV::Q4_K, v, i), a),
    ensures
        within(DTypeV::Q4_K, v[i], decoded(DTypeV::Q4_K, packed(DTypeV::Q4_K, v), i), a),
{
    lemma_block_bounds(DTypeV::Q4_K, v, i);
    let b = block_of(DTypeV::Q4_K, v, i);
    assert(b.len() == 256 && b[i % 256] == v[i]);
    let j = i % 256 / 32;
    let l = i % 32;
    assert(32 * j + l == i % 256);
    law_decode_of_pack(DTypeV::Q4_K, v, i);
    if magnitude(top_of(b)) == 0 {
        lemma_top(b);
        assert(magnitude(b[i % 256]) == 0);
        law_q4k_zeros(b, j, l);
        assert(0 * pow2(149) == 0);
        let t = magnitude(roundtrip_tolerance(DTypeV::Q4_K));
        assert(0 <= t * a) by (nonlinear_arith);
    } else {
        law_q4k_error(b, j, l, a);
    }
}

/// The largest magnitude of a single number is its own.
proof fn lemma_lone_top(b: Seq<u32>)
    requires
        b.len() == 1,
        finite(b),
    ensures
        magnitude(top_of(b)) == magnitude(b[0]),
{
    let a = absolutes(b);
    reveal_with_fuel(fold_larger, 2);
    assert(a.drop_last() =~= Seq::<u32>::empty());
    assert(a.last() == b[0] % SIGN);
    assert(code(b[0]) < INF);
}

} // verus!
