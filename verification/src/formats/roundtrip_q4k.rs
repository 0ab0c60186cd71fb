//! How far a number lies from what its four-bit form decodes to, against the tolerance.

use vstd::arithmetic::power2::{lemma2_to64, lemma_pow2_adds, lemma_pow2_pos, pow2};
use vstd::prelude::*;

use crate::float::error::{
    lemma_int_near, lemma_product_near, lemma_quotient_near, lemma_rounded_at_most, lemma_sum_near,
    near,
};
use crate::float::round::{
    gap, lemma_mag_at, lemma_mag_grows, lemma_rounded, lemma_rounded_exact, lemma_rounding_error,
    mag, rounded,
};
use crate::float::single::{
    code, larger, magnitude, negated, negative, of_int, order, positive, product, quotient, sum,
    to_int, value, with_sign, INF,
};
use crate::formats::half::{
    law_narrowed_half_is_nearest, law_widen_half_is_exact, narrow_half, widen_half,
};
use crate::formats::desc::DTypeV;
use crate::formats::quant::{
    fold_larger, fold_smaller, q4k_min_scale, q4k_mins, q4k_quant, q4k_scale, q4k_scales,
    q4k_value, six_bits, sub_block, sub_min, sub_mins, sub_step, sub_steps, FIFTEEN, NEG_INF,
    SIXTY_THREE,
};
use crate::formats::roundtrip::{finite, lemma_gap_scales, lemma_top, top_of, within};
use crate::graph::tolerance::roundtrip_tolerance;

verus! {

/// The magnitude of 63.
proof fn lemma_sixty_three()
    ensures
        magnitude(SIXTY_THREE) == 63 * pow2(149),
        code(SIXTY_THREE) == SIXTY_THREE,
{
    lemma2_to64();
    lemma_mag_at(131, 63 * 0x4_0000, 23);
    lemma_pow2_adds(18, 131);
    assert(131 * 0x80_0000 + 63 * 0x4_0000 == SIXTY_THREE as int);
    assert((63 * 0x4_0000) * pow2(131) == 63 * (0x4_0000 * pow2(131))) by (nonlinear_arith);
}

/// The scale that numbers up to `top` are stored with in six bits.
pub open spec fn scale_for(top: u32) -> u32 {
    widen_half(narrow_half(quotient(top, SIXTY_THREE)))
}

/// Whether `x` is a finite number that is not negative.
pub open spec fn plain(x: u32) -> bool {
    x < INF
}

/// Whether `x` is a finite number of at least zero, whatever the sign of a zero.
pub open spec fn whole(x: u32) -> bool {
    code(x) < INF && (negative(x) ==> code(x) == 0)
}

/// A scale is about one part in `n` of the largest number: up to one part in 2048 and half
/// of the smallest half-precision magnitude.
pub proof fn lemma_scale_of(top: u32, by: u32, n: nat)
    requires
        plain(top),
        0 < n <= 127,
        0 < code(by) < INF,
        !negative(by),
        magnitude(by) == n * pow2(149),
        magnitude(top) <= n * (65504 * pow2(149)),
    ensures
        ({
            let z = magnitude(top);
            let t = magnitude(quotient(top, by));
            let scale = widen_half(narrow_half(quotient(top, by)));
            let d = magnitude(scale);
            &&& plain(scale)
            &&& t <= 65504 * pow2(149)
            &&& 0x200_0000 * gap(z as int, (n * t) as int) <= 2 * z + 0x100_0000 * n
            &&& 2048 * gap(t as int, d as int) <= t + pow2(135)
            &&& d > 0 ==> d >= pow2(125)
            &&& z == 0 ==> d == 0
        }),
{
    let u = pow2(149);
    let z = magnitude(top);
    let q = quotient(top, by);
    let t = magnitude(q);
    let den = n * u;
    lemma2_to64();
    lemma_pow2_pos(149);
    lemma_pow2_pos(125);
    lemma_pow2_adds(127, 149);
    lemma_pow2_adds(64, 63);
    lemma_pow2_pos(63);
    assert(z * u <= pow2(276) * den) by (nonlinear_arith)
        requires
            z <= n * (65504 * u),
            den == n * u,
            pow2(276) == pow2(127) * u,
            pow2(127) >= 0x100_0000,
            u > 0,
            n > 0,
    ;
    lemma_quotient_near(top, by);
    assert(t * den == (n * t) * u) by (nonlinear_arith)
        requires
            den == n * u,
    ;
    lemma_gap_scales(z as int, (n * t) as int, u);
    let g = gap(z as int, (n * t) as int);
    assert(0x200_0000 * g <= 2 * z + 0x100_0000 * n) by (nonlinear_arith)
        requires
            (g * u) * 0x100_0000 <= z * u || 2 * (g * u) <= n * u,
            u > 0,
    ;
    // At most 65504.
    lemma_mag_at(141, 65504 * 256, 23);
    lemma_pow2_adds(8, 141);
    let hi = (141 * 0x80_0000 + 65504 * 256) as nat;
    assert((65504 * 256) * pow2(141) == 65504 * (256 * pow2(141))) by (nonlinear_arith);
    assert(z * u <= mag(hi, 23) * den) by (nonlinear_arith)
        requires
            mag(hi, 23) == 65504 * u,
            z <= n * (65504 * u),
            den == n * u,
    ;
    lemma_rounded_at_most(z * u, den, hi, 23);
    let r = rounded(z * u, den, 23);
    lemma_mag_grows(r, hi, 23);
    assert(q == with_sign(false, r)) by {
        reveal(quotient);
    }
    assert(t <= 65504 * u);
    // In half precision.
    let h = narrow_half(q);
    law_narrowed_half_is_nearest(q);
    assert(65504 * u < 65520 * u) by (nonlinear_arith)
        requires
            u > 0,
    ;
    law_widen_half_is_exact(h);
    let c = (h % 0x8000) as nat;
    lemma_rounded(t, pow2(125), c, 10);
    lemma_rounding_error(t, pow2(125), 10);
    lemma_pow2_adds(10, 125);
    assert(2 * pow2(10) == 2048);
    let d = magnitude(widen_half(h));
    assert(2048 * gap(t as int, d as int) <= t + pow2(135));
    assert(mag(0, 10) == 0 && 0 * pow2(125) == 0);
    if z == 0 {
        assert(0 * u == 0);
        assert(t == 0) by (nonlinear_arith)
            requires
                near(0, den, t),
                den > 0,
        ;
        lemma_rounded_exact(0, pow2(125), 0, 10);
    }
    if c > 0 {
        lemma_mag_grows(1, c, 10);
        assert(mag(1, 10) == 1);
        let mc = mag(c, 10);
        assert(d >= pow2(125)) by (nonlinear_arith)
            requires
                d == mc * pow2(125),
                mc >= 1,
        ;
    }
}

/// The scale of six-bit values.
proof fn lemma_scale(top: u32)
    requires
        plain(top),
        magnitude(top) <= 63 * (65504 * pow2(149)),
    ensures
        ({
            let z = magnitude(top);
            let t = magnitude(quotient(top, SIXTY_THREE));
            let d = magnitude(scale_for(top));
            &&& plain(scale_for(top))
            &&& t <= 65504 * pow2(149)
            &&& 0x100_0000 * gap(z as int, (63 * t) as int) <= z + 0x100_0000 * 32
            &&& 2048 * gap(t as int, d as int) <= t + pow2(135)
            &&& d > 0 ==> d >= pow2(125)
            &&& z == 0 ==> d == 0
        }),
{
    lemma_sixty_three();
    lemma_scale_of(top, SIXTY_THREE, 63);
}

/// A number in six bits, decoded, lies near the number, over whole numbers: the case
/// where it is rounded.
proof fn lemma_rounded_six(
    u: nat,
    z: nat,
    t: nat,
    d: nat,
    x: nat,
    r: nat,
    k: nat,
    q: nat,
    s: nat,
    b: nat,
)
    requires
        u >= 0x100_0000,
        b >= 0x100_0000_0000,
        x <= z,
        0x100_0000 * gap(z as int, (63 * t) as int) <= z + 0x100_0000 * 32,
        2048 * gap(t as int, d as int) <= t + b,
        near(x * u, d, r),
        2 * gap((k * u) as int, r as int) <= u,
        k <= 63,
        gap((k * u) as int, q as int) * 0x100_0000 <= k * u,
        near(d * q, u, s),
    ensures
        100 * gap(x as int, s as int) <= z + 4 * b,
{
    let big: int = 0x100_0000;
    let xu = x * u;
    let rd = r * d;
    let du = d * u;
    let dk = d * (k * u);
    let dq = d * q;
    let su = s * u;
    let bu = b * u;
    let zu = z * u;
    let e1 = gap(xu as int, rd as int);
    assert(big * e1 <= xu + big * d);
    let g2 = gap((k * u) as int, r as int);
    lemma_gap_scales((k * u) as int, r as int, d);
    let e2 = gap(dk as int, rd as int);
    assert((k * u) * d == dk) by (nonlinear_arith)
        requires
            dk == d * (k * u),
    ;
    assert(2 * e2 <= du) by (nonlinear_arith)
        requires
            2 * g2 <= u,
            e2 == g2 * d,
            du == d * u,
            d >= 0,
    ;
    let g3 = gap((k * u) as int, q as int);
    lemma_gap_scales((k * u) as int, q as int, d);
    let e3 = gap(dk as int, dq as int);
    assert(q * d == dq) by (nonlinear_arith)
        requires
            dq == d * q,
    ;
    assert(big * e3 <= dk) by (nonlinear_arith)
        requires
            g3 * big <= k * u,
            e3 == g3 * d,
            dk == d * (k * u),
            d >= 0,
    ;
    assert(dk <= 63 * du) by (nonlinear_arith)
        requires
            dk == d * (k * u),
            du == d * u,
            k <= 63,
    ;
    let e4 = gap(dq as int, su as int);
    assert(big * e4 <= dq + big * u);
    let e = gap(xu as int, su as int);
    assert(e <= e1 + e2 + e3 + e4);
    // The scale.
    assert(62 * d <= z + b);
    assert(62 * du <= zu + bu) by (nonlinear_arith)
        requires
            62 * d <= z + b,
            du == d * u,
            zu == z * u,
            bu == b * u,
    ;
    assert(xu <= zu) by (nonlinear_arith)
        requires
            x <= z,
            xu == x * u,
            zu == z * u,
    ;
    assert(1000 * u <= bu) by (nonlinear_arith)
        requires
            bu == b * u,
            b >= 1000,
    ;
    assert(1000 * d <= du) by (nonlinear_arith)
        requires
            du == d * u,
            u >= 1000,
    ;
    assert(100 * e <= zu + 4 * bu);
    lemma_gap_scales(x as int, s as int, u);
    let g = gap(x as int, s as int);
    assert(100 * g <= z + 4 * b) by (nonlinear_arith)
        requires
            100 * (g * u) <= z * u + 4 * (b * u),
            u > 0,
    ;
}

/// The case where a number is held to the largest six-bit value.
proof fn lemma_capped_six(
    u: nat,
    z: nat,
    t: nat,
    d: nat,
    x: nat,
    r: nat,
    q: nat,
    s: nat,
    b: nat,
)
    requires
        u >= 0x100_0000,
        b >= 0x100_0000_0000,
        x <= z,
        0x100_0000 * gap(z as int, (63 * t) as int) <= z + 0x100_0000 * 32,
        2048 * gap(t as int, d as int) <= t + b,
        near(x * u, d, r),
        2 * r >= 127 * u,
        gap((63 * u) as int, q as int) * 0x100_0000 <= 63 * u,
        near(d * q, u, s),
    ensures
        100 * gap(x as int, s as int) <= z + 4 * b,
{
    let big: int = 0x100_0000;
    let xu = x * u;
    let rd = r * d;
    let du = d * u;
    let dq = d * q;
    let su = s * u;
    let e1 = gap(xu as int, rd as int);
    assert(big * e1 <= xu + big * d);
    assert(2 * rd >= 127 * du) by (nonlinear_arith)
        requires
            2 * r >= 127 * u,
            rd == r * d,
            du == d * u,
    ;
    assert(1000 * d <= du) by (nonlinear_arith)
        requires
            du == d * u,
            u >= 1000,
    ;
    // Below: the number is no smaller than 63 scales.
    assert(xu >= 63 * du);
    assert(x >= 63 * d) by (nonlinear_arith)
        requires
            xu >= 63 * du,
            xu == x * u,
            du == d * u,
            u > 0,
    ;
    let g3 = gap((63 * u) as int, q as int);
    lemma_gap_scales((63 * u) as int, q as int, d);
    assert(q * d == dq && (63 * u) * d == 63 * du) by (nonlinear_arith)
        requires
            dq == d * q,
            du == d * u,
    ;
    let e3 = gap((63 * du) as int, dq as int);
    assert(big * e3 <= 63 * du) by (nonlinear_arith)
        requires
            g3 * big <= 63 * u,
            e3 == g3 * d,
            du == d * u,
            d >= 0,
    ;
    let e4 = gap(dq as int, su as int);
    assert(big * e4 <= dq + big * u);
    let e5 = gap((63 * du) as int, su as int);
    assert(big * e5 <= 128 * du + big * u);
    lemma_gap_scales((63 * d) as int, s as int, u);
    assert((63 * d) * u == 63 * du) by (nonlinear_arith)
        requires
            du == d * u,
    ;
    let g5 = gap((63 * d) as int, s as int);
    assert(big * g5 <= 128 * d + big) by (nonlinear_arith)
        requires
            big * (g5 * u) <= 128 * (d * u) + big * u,
            u > 0,
    ;
    // Above: it is at most the largest number.
    assert(62 * d <= z + b);
    assert(2047 * t <= 2048 * d + b);
    assert(big * z <= big * 63 * t + z + big * 32) by {
        assert(big * 63 * t == big * (63 * t)) by (nonlinear_arith);
    }
}

/// A number of at most the largest, held in six bits with the scale for that, lies near
/// it: up to one part in a hundred of the largest, and what half precision cannot tell
/// from zero.
pub proof fn lemma_scaled(x: u32, top: u32)
    requires
        whole(x),
        plain(top),
        magnitude(x) <= magnitude(top) <= 63 * (65504 * pow2(149)),
    ensures
        ({
            let d = scale_for(top);
            let k = six_bits(x, d);
            let s = product(d, of_int(k as int));
            &&& k <= 63
            &&& plain(d)
            &&& plain(s)
            &&& 100 * gap(magnitude(x) as int, magnitude(s) as int) <= magnitude(top) + pow2(137)
            &&& magnitude(d) <= 0x2_0000 * pow2(149)
            &&& magnitude(s) <= 0x80_0000 * pow2(149)
            &&& magnitude(s) > 0 ==> magnitude(s) >= pow2(120)
            &&& magnitude(top) == 0 ==> magnitude(s) == 0
        }),
{
    let u = pow2(149);
    let b = pow2(135);
    let scale = scale_for(top);
    let d = magnitude(scale);
    let t = magnitude(quotient(top, SIXTY_THREE));
    let z = magnitude(top);
    let m = magnitude(x);
    let k = six_bits(x, scale);
    lemma2_to64();
    lemma_scale(top);
    lemma_pow2_adds(2, 135);
    lemma_pow2_adds(14, 135);
    lemma_pow2_adds(64, 71);
    lemma_pow2_pos(71);
    lemma_pow2_adds(10, 125);
    lemma_pow2_adds(127, 149);
    lemma_pow2_adds(64, 63);
    lemma_pow2_pos(63);
    lemma_pow2_pos(23);
    assert(b >= 0x100_0000_0000);
    assert(mag(0, 23) == 0);
    assert(d <= 0x2_0000 * u);
    if d == 0 {
        if code(scale) > 0 {
            lemma_mag_grows(0, code(scale), 23);
        }
        assert(!positive(scale));
        assert(k == 0);
        lemma_int_near(0);
        assert(0 * u == 0);
        let q = of_int(0);
        assert(magnitude(q) == 0);
        assert(0 * 0 == 0);
        lemma_product_near(scale, q);
        let s = product(scale, q);
        assert(magnitude(s) == 0) by (nonlinear_arith)
            requires
                near(0, u, magnitude(s)),
                u > 1,
        ;
        assert(negative(s) == false);
    } else {
        if code(scale) == 0 {
            assert(d == 0);
        }
        assert(positive(scale));
        assert(u <= 0x100_0000 * d);
        assert(m <= 0x40_0000 * u);
        assert(m * u <= (0x40_0000 * u) * (0x100_0000 * d)) by (nonlinear_arith)
            requires
                m <= 0x40_0000 * u,
                u <= 0x100_0000 * d,
        ;
        assert((0x40_0000 * u) * (0x100_0000 * d) <= pow2(276) * d) by (nonlinear_arith)
            requires
                pow2(276) == pow2(127) * u,
                pow2(127) >= 0x4000_0000_0000,
        ;
        lemma_quotient_near(x, scale);
        let r = quotient(x, scale);
        let rm = magnitude(r);
        reveal(to_int);
        let n = ((2 * rm + u) / (2 * u)) as nat;
        vstd::arithmetic::div_mod::lemma_fundamental_div_mod((2 * rm + u) as int, (2 * u) as int);
        vstd::arithmetic::div_mod::lemma_mod_bound((2 * rm + u) as int, (2 * u) as int);
        assert(2 * (n * u) == (2 * u) * n) by (nonlinear_arith);
        assert(2 * (n * u) <= 2 * rm + u < 2 * (n * u) + 2 * u);
        if negative(x) {
            assert(m == 0);
            assert(0 * u == 0);
            assert(rm == 0) by (nonlinear_arith)
                requires
                    near(0, d, rm),
                    d > 0,
            ;
            assert(n == 0) by (nonlinear_arith)
                requires
                    2 * (n * u) <= u,
                    u > 0,
            ;
        }
        assert(k as nat == if n > 63 {
            63
        } else {
            n
        });
        lemma_int_near(k as int);
        let q = of_int(k as int);
        let qm = magnitude(q);
        assert(k * u <= 63 * u) by (nonlinear_arith)
            requires
                k <= 63,
        ;
        assert(d * qm <= (0x2_0000 * u) * (0x40 * u)) by (nonlinear_arith)
            requires
                d <= 0x2_0000 * u,
                qm <= 0x40 * u,
        ;
        assert((0x2_0000 * u) * (0x40 * u) <= pow2(276) * u) by (nonlinear_arith)
            requires
                pow2(276) == pow2(127) * u,
                pow2(127) >= 0x80_0000,
                u > 0,
        ;
        lemma_product_near(scale, q);
        let s = product(scale, q);
        let sm = magnitude(s);
        if n > 63 {
            assert(n * u >= 64 * u) by (nonlinear_arith)
                requires
                    n >= 64,
            ;
            lemma_capped_six(u, z, t, d, m, rm, qm, sm, b);
        } else {
            lemma_rounded_six(u, z, t, d, m, rm, k as nat, qm, sm, b);
        }
        assert(d * qm <= 0x80_0000 * (u * u)) by (nonlinear_arith)
            requires
                d * qm <= (0x2_0000 * u) * (0x40 * u),
        ;
        if k == 0 {
            assert(0 * u == 0);
            assert(qm == 0);
            assert(d * 0 == 0);
            assert(sm == 0) by (nonlinear_arith)
                requires
                    near(0, u, sm),
                    u > 1,
            ;
        } else {
            assert(k * u >= u) by (nonlinear_arith)
                requires
                    k >= 1,
            ;
            assert(2 * qm >= u);
            assert(2 * (d * qm) >= pow2(125) * u) by (nonlinear_arith)
                requires
                    2 * qm >= u,
                    d >= pow2(125),
            ;
            lemma_pow2_adds(5, 120);
            lemma_pow2_pos(120);
            let dq = d * qm;
            let su = sm * u;
            assert(pow2(125) * u >= 32 * u) by (nonlinear_arith)
                requires
                    pow2(125) >= 32,
            ;
            assert(4 * su >= pow2(125) * u - 4 * u);
            assert(sm >= pow2(120)) by (nonlinear_arith)
                requires
                    4 * (sm * u) >= pow2(125) * u - 4 * u,
                    pow2(125) == 32 * pow2(120),
                    pow2(120) >= 1,
                    u > 0,
            ;
        }
    }
}

/// Numbers in order have values in order.
pub proof fn lemma_order_value(x: u32, y: u32)
    requires
        order(x) <= order(y),
    ensures
        value(x) <= value(y),
{
    lemma_pow2_pos(23);
    assert(mag(0, 23) == 0);
    lemma_mag_grows(0, code(x), 23);
    lemma_mag_grows(0, code(y), 23);
    if code(x) <= code(y) {
        lemma_mag_grows(code(x), code(y), 23);
    } else {
        lemma_mag_grows(code(y), code(x), 23);
    }
}

/// The largest of finite numbers is finite and no smaller than any.
pub proof fn lemma_highest(v: Seq<u32>)
    requires
        finite(v),
    ensures
        v.len() > 0 ==> code(fold_larger(NEG_INF, v)) < INF,
        v.len() > 0 ==> exists|i: int| 0 <= i < v.len() && fold_larger(NEG_INF, v) == #[trigger] v[i],
        forall|i: int| 0 <= i < v.len() ==> order(#[trigger] v[i]) <= order(fold_larger(NEG_INF, v)),
    decreases v.len(),
{
    if v.len() > 0 {
        let w = v.drop_last();
        assert forall|i: int| 0 <= i < w.len() implies code(#[trigger] w[i]) < INF by {
            assert(w[i] == v[i]);
        }
        lemma_highest(w);
        let last = v[v.len() - 1];
        assert(code(last) < INF);
        let f = fold_larger(NEG_INF, v);
        if f != last {
            let i = choose|i: int| 0 <= i < w.len() && fold_larger(NEG_INF, w) == #[trigger] w[i];
            assert(v[i] == f);
        } else {
            assert(v[v.len() - 1] == f);
        }
        assert forall|i: int| 0 <= i < v.len() implies order(#[trigger] v[i]) <= order(f) by {
            if i < w.len() {
                assert(w[i] == v[i]);
            }
        }
    }
}

/// The smallest of finite numbers is finite and no larger than any.
proof fn lemma_lowest(v: Seq<u32>)
    requires
        finite(v),
    ensures
        v.len() > 0 ==> code(fold_smaller(INF, v)) < INF,
        v.len() > 0 ==> exists|i: int| 0 <= i < v.len() && fold_smaller(INF, v) == #[trigger] v[i],
        forall|i: int| 0 <= i < v.len() ==> order(fold_smaller(INF, v)) <= order(#[trigger] v[i]),
    decreases v.len(),
{
    if v.len() > 0 {
        let w = v.drop_last();
        assert forall|i: int| 0 <= i < w.len() implies code(#[trigger] w[i]) < INF by {
            assert(w[i] == v[i]);
        }
        lemma_lowest(w);
        let last = v[v.len() - 1];
        assert(code(last) < INF);
        let f = fold_smaller(INF, v);
        if f != last {
            let i = choose|i: int| 0 <= i < w.len() && fold_smaller(INF, w) == #[trigger] w[i];
            assert(v[i] == f);
        } else {
            assert(v[v.len() - 1] == f);
        }
        assert forall|i: int| 0 <= i < v.len() implies order(f) <= order(#[trigger] v[i]) by {
            if i < w.len() {
                assert(w[i] == v[i]);
            }
        }
    }
}

/// The largest of numbers of at least zero: plain, no smaller than any, and no larger than
/// a bound on all.
pub proof fn lemma_largest_whole(v: Seq<u32>, bound: nat)
    requires
        forall|i: int| 0 <= i < v.len() ==> whole(#[trigger] v[i]),
        forall|i: int| 0 <= i < v.len() ==> magnitude(#[trigger] v[i]) <= bound,
    ensures
        plain(fold_larger(0, v)),
        forall|i: int| 0 <= i < v.len() ==> magnitude(#[trigger] v[i]) <= magnitude(fold_larger(0, v)),
        magnitude(fold_larger(0, v)) <= bound,
    decreases v.len(),
{
    lemma_pow2_pos(23);
    assert(mag(0, 23) == 0);
    if v.len() > 0 {
        let w = v.drop_last();
        assert forall|i: int| 0 <= i < w.len() implies whole(#[trigger] w[i]) by {
            assert(w[i] == v[i]);
        }
        assert forall|i: int| 0 <= i < w.len() implies magnitude(#[trigger] w[i]) <= bound by {
            assert(w[i] == v[i]);
        }
        lemma_largest_whole(w, bound);
        let last = v[v.len() - 1];
        let before = fold_larger(0, w);
        let f = fold_larger(0, v);
        assert(whole(last) && magnitude(last) <= bound);
        if code(before) <= code(last) {
            lemma_mag_grows(code(before), code(last), 23);
        } else {
            lemma_mag_grows(code(last), code(before), 23);
        }
        assert forall|i: int| 0 <= i < v.len() implies magnitude(#[trigger] v[i]) <= magnitude(f) by {
            if i < w.len() {
                assert(w[i] == v[i]);
            }
        }
    }
}

/// The magnitude of 15.
proof fn lemma_fifteen()
    ensures
        magnitude(FIFTEEN) == 15 * pow2(149),
        code(FIFTEEN) == FIFTEEN,
{
    lemma2_to64();
    lemma_mag_at(129, 15 * 0x10_0000, 23);
    lemma_pow2_adds(20, 129);
    assert(129 * 0x80_0000 + 15 * 0x10_0000 == FIFTEEN as int);
    assert((15 * 0x10_0000) * pow2(129) == 15 * (0x10_0000 * pow2(129))) by (nonlinear_arith);
}

/// What packing a block of 256 relies on, against a magnitude `a` that its numbers do not
/// exceed: half precision tells that magnitude from zero well enough, and neither of the
/// scales overflows it. So large a magnitude as `2^51` would make one of them.
pub open spec fn q4k_fits(v: Seq<u32>, a: nat) -> bool {
    &&& magnitude(top_of(v)) <= a
    &&& 100 * pow2(137) <= a <= pow2(200)
    &&& magnitude(fold_larger(0, sub_steps(v))) <= 63 * (65504 * pow2(149))
    &&& magnitude(fold_larger(0, sub_mins(v))) <= 63 * (65504 * pow2(149))
}

/// The largest number of a sub-block and its minimum.
proof fn lemma_sub_min(v: Seq<u32>, j: int)
    requires
        v.len() == 256,
        finite(v),
        0 <= j < 8,
    ensures
        ({
            let a = magnitude(top_of(v));
            let hi = fold_larger(NEG_INF, sub_block(v, j));
            let m = sub_min(v, j);
            &&& code(hi) < INF
            &&& whole(m)
            &&& value(m) == magnitude(m)
            &&& magnitude(m) <= a
            &&& 0 <= value(hi) + value(m) <= 2 * a
        }),
{
    let w = sub_block(v, j);
    let a = magnitude(top_of(v));
    let hi = fold_larger(NEG_INF, w);
    let lo = fold_smaller(INF, w);
    let m = sub_min(v, j);
    lemma_top(v);
    lemma_pow2_pos(23);
    assert(mag(0, 23) == 0);
    assert forall|i: int| 0 <= i < w.len() implies code(#[trigger] w[i]) < INF by {
        assert(w[i] == v[32 * j + i]);
    }
    lemma_highest(w);
    lemma_lowest(w);
    let ih = choose|i: int| 0 <= i < w.len() && hi == #[trigger] w[i];
    let il = choose|i: int| 0 <= i < w.len() && lo == #[trigger] w[i];
    assert(hi == v[32 * j + ih] && lo == v[32 * j + il]);
    assert(magnitude(hi) <= a && magnitude(lo) <= a);
    assert(order(w[il]) <= order(hi));
    lemma_order_value(lo, hi);
    lemma_min_is_whole(lo);
}

/// By how much a number lies below zero.
proof fn lemma_min_is_whole(lo: u32)
    requires
        code(lo) < INF,
    ensures
        ({
            let m = larger(negated(lo), 0);
            &&& whole(m)
            &&& value(m) == magnitude(m)
            &&& magnitude(m) as int == if value(lo) < 0 {
                -value(lo)
            } else {
                0
            }
        }),
{
    lemma_pow2_pos(23);
    assert(mag(0, 23) == 0);
    if code(lo) > 0 {
        lemma_mag_grows(0, code(lo), 23);
    }
    assert(code(negated(lo)) == code(lo) && value(negated(lo)) == -value(lo));
}

/// A number of a sub-block lies between its minimum and its largest number.
proof fn lemma_in_sub(v: Seq<u32>, j: int, l: int)
    requires
        v.len() == 256,
        finite(v),
        0 <= j < 8,
        0 <= l < 32,
    ensures
        ({
            let x = value(v[32 * j + l]);
            &&& 0 <= x + magnitude(sub_min(v, j))
            &&& x <= value(fold_larger(NEG_INF, sub_block(v, j)))
        }),
{
    let w = sub_block(v, j);
    let hi = fold_larger(NEG_INF, w);
    let lo = fold_smaller(INF, w);
    assert forall|i: int| 0 <= i < w.len() implies code(#[trigger] w[i]) < INF by {
        assert(w[i] == v[32 * j + i]);
    }
    lemma_highest(w);
    lemma_lowest(w);
    assert(w[l] == v[32 * j + l]);
    lemma_order_value(lo, w[l]);
    lemma_order_value(w[l], hi);
    lemma_min_is_whole(lo);
}

/// A step: the reach of a sub-block over 15, over numbers.
proof fn lemma_step_of(hi: u32, m: u32, a: nat)
    requires
        code(hi) < INF,
        whole(m),
        value(m) == magnitude(m),
        0 <= value(hi) + value(m) <= 2 * a,
        a <= pow2(200),
    ensures
        ({
            let r0 = value(hi) + value(m);
            let step = quotient(larger(sum(hi, m), 0), FIFTEEN);
            let s = magnitude(step) as int;
            &&& whole(step)
            &&& 251_658_240 * s <= 0x100_0004 * r0 + 268_435_456
            &&& 0x100_0000 * r0 <= 251_658_300 * s + 268_435_456
            &&& r0 == 0 ==> s == 0
        }),
{
    let r0 = value(hi) + value(m);
    lemma_pow2_pos(23);
    assert(mag(0, 23) == 0);
    lemma2_to64();
    lemma_pow2_adds(200, 76);
    lemma_pow2_adds(2, 74);
    lemma_pow2_pos(74);
    assert(4 * pow2(200) <= pow2(276)) by (nonlinear_arith)
        requires
            pow2(200) * pow2(76) == pow2(276),
            pow2(76) >= 4,
    ;
    lemma_sum_near(hi, m);
    let r = sum(hi, m);
    assert(value(r) >= 0);
    if r0 == 0 && code(r) > 0 {
        lemma_mag_grows(0, code(r), 23);
    }
    assert(whole(r));
    assert(larger(r, 0) == r);
    let u = pow2(149);
    lemma_fifteen();
    lemma_pow2_pos(149);
    let rm = magnitude(r);
    let den = 15 * u;
    assert(value(r) == rm);
    assert(rm <= 4 * a);
    assert(rm * u <= pow2(276) * den) by (nonlinear_arith)
        requires
            rm <= pow2(276),
            den == 15 * u,
    ;
    lemma_quotient_near(r, FIFTEEN);
    let step = quotient(r, FIFTEEN);
    let s = magnitude(step);
    assert(s * den == (15 * s) * u) by (nonlinear_arith)
        requires
            den == 15 * u,
    ;
    lemma_gap_scales(rm as int, (15 * s) as int, u);
    let g = gap(rm as int, (15 * s) as int);
    assert(0x100_0000 * g <= rm + 0x100_0000 * 8) by (nonlinear_arith)
        requires
            (g * u) * 0x100_0000 <= rm * u || 2 * (g * u) <= 15 * u,
            u > 0,
    ;
    if negative(step) || r0 == 0 {
        assert(rm == 0);
        assert(0 * u == 0);
        assert(s == 0) by (nonlinear_arith)
            requires
                near(0, den, s),
                den > 0,
        ;
        if code(step) > 0 {
            lemma_mag_grows(0, code(step), 23);
        }
    }
}

/// The step of a sub-block: how it relates to its numbers and to the largest magnitude of
/// the block.
proof fn lemma_sub_step(v: Seq<u32>, j: int)
    requires
        v.len() == 256,
        finite(v),
        0 <= j < 8,
        magnitude(top_of(v)) <= pow2(200),
    ensures
        ({
            let a = magnitude(top_of(v));
            let s = magnitude(sub_step(v, j)) as int;
            let r0 = value(fold_larger(NEG_INF, sub_block(v, j))) + value(sub_min(v, j));
            &&& whole(sub_step(v, j))
            &&& 7 * s <= a + 7
            &&& 0x100_0000 * r0 <= 251_658_300 * s + 268_435_456
            &&& r0 == 0 ==> s == 0
        }),
{
    lemma_sub_min(v, j);
    lemma_step_of(fold_larger(NEG_INF, sub_block(v, j)), sub_min(v, j), magnitude(top_of(v)));
}

/// Whether the stored step and minimum of a sub-block lie near its own, over whole
/// numbers: `z` is how far a number lies above the minimum, `v` how far above the stored
/// minimum.
spec fn stored_near(a: nat, b: nat, z: int, s: nat, sg: nat, smax: nat, v: int) -> bool {
    &&& a >= 0x100_0000
    &&& 100 * b <= a
    &&& 0 <= z
    &&& 0x100_0000 * z <= 251_658_300 * s + 268_435_456
    &&& 7 * s <= a + 7
    &&& 7 * smax <= a + 7
    &&& 100 * gap(s as int, sg as int) <= smax + b
    &&& 100 * gap(v, z) <= a + b
}

/// A number whose four-bit value is rounded.
proof fn lemma_rounded_four(
    u: nat,
    a: nat,
    b: nat,
    z: int,
    s: nat,
    sg: nat,
    smax: nat,
    v: int,
    w: nat,
    r: nat,
    n: nat,
)
    requires
        u >= 0x100_0000,
        stored_near(a, b, z, s, sg, smax, v),
        0x100_0000 * gap(v, w as int) <= gap(v, 0),
        sg > 0,
        near(w * u, sg, r),
        2 * gap((n * u) as int, r as int) <= u,
    ensures
        1000 * gap(v, (n * sg) as int) <= 80 * a,
{
    let big: int = 0x100_0000;
    let wu = w * u;
    let rs = r * sg;
    let su = sg * u;
    let ns = n * sg;
    let nsu = ns * u;
    let e1 = gap(wu as int, rs as int);
    assert(big * e1 <= wu + big * sg);
    let g2 = gap((n * u) as int, r as int);
    lemma_gap_scales((n * u) as int, r as int, sg);
    assert((n * u) * sg == nsu) by (nonlinear_arith)
        requires
            ns == n * sg,
            nsu == ns * u,
    ;
    let e2 = gap(nsu as int, rs as int);
    assert(2 * e2 <= su) by (nonlinear_arith)
        requires
            2 * g2 <= u,
            e2 == g2 * sg,
            su == sg * u,
            sg >= 0,
    ;
    assert(1000 * sg <= su) by (nonlinear_arith)
        requires
            su == sg * u,
            u >= 1000,
    ;
    let e3 = gap(wu as int, nsu as int);
    assert(1000 * big * e3 <= 1000 * wu + 501 * (big * su));
    lemma_gap_scales(w as int, ns as int, u);
    let g3 = gap(w as int, ns as int);
    assert(1000 * big * g3 <= 1000 * w + 501 * (big * sg)) by (nonlinear_arith)
        requires
            1000 * big * (g3 * u) <= 1000 * (w * u) + 501 * (big * (sg * u)),
            u > 0,
    ;
}

/// A number whose four-bit value is held to the largest.
proof fn lemma_capped_four(
    u: nat,
    a: nat,
    b: nat,
    z: int,
    s: nat,
    sg: nat,
    smax: nat,
    v: int,
    w: nat,
    r: nat,
)
    requires
        u >= 0x100_0000,
        stored_near(a, b, z, s, sg, smax, v),
        0x100_0000 * gap(v, w as int) <= gap(v, 0),
        sg > 0,
        near(w * u, sg, r),
        2 * r >= 31 * u,
    ensures
        1000 * gap(v, (15 * sg) as int) <= 80 * a,
{
    let big: int = 0x100_0000;
    let wu = w * u;
    let rs = r * sg;
    let su = sg * u;
    let e1 = gap(wu as int, rs as int);
    assert(big * e1 <= wu + big * sg);
    assert(2 * rs >= 31 * su) by (nonlinear_arith)
        requires
            2 * r >= 31 * u,
            rs == r * sg,
            su == sg * u,
    ;
    assert(1000 * sg <= su) by (nonlinear_arith)
        requires
            su == sg * u,
            u >= 1000,
    ;
    assert(wu >= 15 * su);
    assert(w >= 15 * sg) by (nonlinear_arith)
        requires
            wu >= 15 * su,
            wu == w * u,
            su == sg * u,
            u > 0,
    ;
}

/// How far a number lies from its decoded value, once its four-bit value is near.
proof fn lemma_decode_four(
    u: nat,
    a: nat,
    b: nat,
    z: int,
    s: nat,
    sg: nat,
    smax: nat,
    v: int,
    n: nat,
    q: nat,
    p: nat,
    mn: nat,
    y: int,
)
    requires
        u >= 0x100_0000,
        stored_near(a, b, z, s, sg, smax, v),
        1000 * gap(v, (n * sg) as int) <= 80 * a,
        n <= 15,
        gap((n * u) as int, q as int) * 0x100_0000 <= n * u,
        near(sg * q, u, p),
        mn <= 2 * a,
        0x100_0000 * gap(p - mn, y) <= gap(p - mn, 0),
    ensures
        64 * gap(v - mn, y) <= 7 * a,
{
    let big: int = 0x100_0000;
    let ns = n * sg;
    let nsu = ns * u;
    let sq = sg * q;
    let pu = p * u;
    let su = sg * u;
    let g1 = gap((n * u) as int, q as int);
    lemma_gap_scales((n * u) as int, q as int, sg);
    assert((n * u) * sg == nsu && q * sg == sq) by (nonlinear_arith)
        requires
            ns == n * sg,
            nsu == ns * u,
            sq == sg * q,
    ;
    let e1 = gap(nsu as int, sq as int);
    assert(big * e1 <= nsu) by (nonlinear_arith)
        requires
            g1 * big <= n * u,
            e1 == g1 * sg,
            nsu == (n * sg) * u,
            sg >= 0,
    ;
    assert(nsu <= 15 * su) by (nonlinear_arith)
        requires
            nsu == (n * sg) * u,
            su == sg * u,
            n <= 15,
    ;
    let e2 = gap(sq as int, pu as int);
    assert(big * e2 <= sq + big * u);
    let e3 = gap(nsu as int, pu as int);
    assert(big * e3 <= 32 * su + big * u);
    lemma_gap_scales(ns as int, p as int, u);
    let g3 = gap(ns as int, p as int);
    assert(big * g3 <= 32 * sg + big) by (nonlinear_arith)
        requires
            big * (g3 * u) <= 32 * (sg * u) + big * u,
            u > 0,
    ;
    assert(ns <= 15 * sg) by (nonlinear_arith)
        requires
            ns == n * sg,
            n <= 15,
    ;
    assert(sg <= a);
    assert(p <= 17 * a);
    assert(big * gap(p - mn, y) <= 19 * a);
}

/// The stored step and minimum of a sub-block.
proof fn lemma_stored(v: Seq<u32>, j: int, a: nat)
    requires
        v.len() == 256,
        finite(v),
        q4k_fits(v, a),
        0 <= j < 8,
    ensures
        ({
            let top = fold_larger(0, sub_steps(v));
            let s = sub_step(v, j);
            let m = sub_min(v, j);
            let sg = product(widen_half(q4k_scale(v)), of_int(q4k_scales(v)[j] as int));
            let mn = product(widen_half(q4k_min_scale(v)), of_int(q4k_mins(v)[j] as int));
            &&& plain(sg)
            &&& plain(mn)
            &&& 7 * magnitude(top) <= a + 7
            &&& 100 * gap(magnitude(s) as int, magnitude(sg) as int) <= magnitude(top) + pow2(137)
            &&& 100 * gap(magnitude(m) as int, magnitude(mn) as int) <= a + pow2(137)
            &&& magnitude(sg) <= 0x80_0000 * pow2(149)
            &&& magnitude(sg) > 0 ==> magnitude(sg) >= pow2(120)
        }),
{
    let steps = sub_steps(v);
    let mins = sub_mins(v);
    let bound = (a + 7) / 7;
    assert forall|i: int| 0 <= i < 8 implies whole(#[trigger] steps[i]) && magnitude(steps[i])
        <= bound by {
        lemma_sub_step(v, i);
    }
    assert forall|i: int| 0 <= i < 8 implies whole(#[trigger] mins[i]) && magnitude(mins[i]) <= a by {
        lemma_sub_min(v, i);
    }
    lemma_largest_whole(steps, bound);
    lemma_largest_whole(mins, a);
    assert(steps[j] == sub_step(v, j) && mins[j] == sub_min(v, j));
    lemma2_to64();
    lemma_pow2_adds(2, 135);
    lemma_pow2_pos(135);
    lemma_scaled(sub_step(v, j), fold_larger(0, steps));
    lemma_scaled(sub_min(v, j), fold_larger(0, mins));
}

/// The four-bit value of a number `x`, with step `sg` and minimum `mn`.
spec fn four_bits(x: u32, sg: u32, mn: u32) -> int {
    if positive(sg) {
        to_int(quotient(sum(x, mn), sg), 0, 15)
    } else {
        0
    }
}

/// The four-bit value of a number that lies above the stored minimum.
proof fn lemma_four_above(
    wv: u32,
    sgv: u32,
    a: nat,
    b: nat,
    z: int,
    s: nat,
    smax: nat,
    v: int,
)
    requires
        code(wv) < INF,
        !negative(wv),
        magnitude(wv) <= 8 * pow2(200),
        plain(sgv),
        code(sgv) > 0,
        magnitude(sgv) >= pow2(120),
        stored_near(a, b, z, s, magnitude(sgv), smax, v),
        0x100_0000 * gap(v, magnitude(wv) as int) <= gap(v, 0),
    ensures
        ({
            let n = to_int(quotient(wv, sgv), 0, 15);
            0 <= n <= 15 && 1000 * gap(v, n * magnitude(sgv)) <= 80 * a
        }),
{
    let u = pow2(149);
    let sg = magnitude(sgv);
    let wm = magnitude(wv);
    lemma_four_sizes();
    assert(wm * u <= pow2(276) * sg) by (nonlinear_arith)
        requires
            wm <= 8 * pow2(200),
            sg >= pow2(120),
            8 * (pow2(200) * u) <= pow2(276) * pow2(120),
    ;
    lemma_quotient_near(wv, sgv);
    let r = magnitude(quotient(wv, sgv));
    let n = to_int(quotient(wv, sgv), 0, 15);
    let k = ((2 * r + u) / (2 * u)) as nat;
    assert(n == if k > 15 {
        15
    } else {
        k as int
    }) by {
        reveal(to_int);
    }
    vstd::arithmetic::div_mod::lemma_fundamental_div_mod((2 * r + u) as int, (2 * u) as int);
    vstd::arithmetic::div_mod::lemma_mod_bound((2 * r + u) as int, (2 * u) as int);
    assert(2 * (k * u) == (2 * u) * k) by (nonlinear_arith);
    assert(2 * (k * u) <= 2 * r + u < 2 * (k * u) + 2 * u);
    if k > 15 {
        assert(k * u >= 16 * u) by (nonlinear_arith)
            requires
                k >= 16,
        ;
        lemma_capped_four(u, a, b, z, s, sg, smax, v, wm, r);
    } else {
        lemma_rounded_four(u, a, b, z, s, sg, smax, v, wm, r, k);
    }
}

/// The four-bit value of a number, against the stored step.
proof fn lemma_four_bits(
    xv: u32,
    sgv: u32,
    mnv: u32,
    a: nat,
    b: nat,
    z: int,
    s: nat,
    smax: nat,
)
    requires
        code(xv) < INF,
        magnitude(xv) <= a <= pow2(200),
        plain(sgv),
        magnitude(sgv) > 0 ==> magnitude(sgv) >= pow2(120),
        plain(mnv),
        magnitude(mnv) <= 2 * a,
        stored_near(a, b, z, s, magnitude(sgv), smax, value(xv) + magnitude(mnv)),
    ensures
        ({
            let n = four_bits(xv, sgv, mnv);
            0 <= n <= 15 && 1000 * gap(value(xv) + magnitude(mnv), n * magnitude(sgv)) <= 80 * a
        }),
{
    let v = value(xv) + magnitude(mnv);
    lemma_four_sizes();
    lemma_pow2_pos(23);
    assert(mag(0, 23) == 0);
    assert(value(mnv) == magnitude(mnv));
    lemma_sum_near(xv, mnv);
    let wv = sum(xv, mnv);
    let sg = magnitude(sgv);
    if code(sgv) > 0 {
        lemma_mag_grows(0, code(sgv), 23);
        assert(positive(sgv));
        if negative(wv) {
            assert(v <= 0);
            lemma_four_below(wv, sgv);
            assert(0 * sg == 0);
        } else {
            assert(value(wv) == magnitude(wv));
            lemma_four_above(wv, sgv, a, b, z, s, smax, v);
        }
    } else {
        assert(sg == 0);
        assert(0 * sg == 0);
    }
}

/// A number below the stored minimum has the four-bit value 0.
proof fn lemma_four_below(wv: u32, sgv: u32)
    requires
        code(wv) < INF,
        negative(wv),
        plain(sgv),
        code(sgv) > 0,
    ensures
        to_int(quotient(wv, sgv), 0, 15) == 0,
{
    reveal(to_int);
    reveal(quotient);
    lemma_pow2_pos(149);
    let m = magnitude(quotient(wv, sgv));
    vstd::arithmetic::div_mod::lemma_div_pos_is_pos(
        (2 * m + pow2(149)) as int,
        (2 * pow2(149)) as int,
    );
}

/// The numbers that a packed number rests on: how far the number lies above the minimum
/// of its sub-block and above the stored one, and its four-bit value.
proof fn lemma_four(v: Seq<u32>, j: int, l: int, a: nat)
    requires
        v.len() == 256,
        finite(v),
        q4k_fits(v, a),
        0 <= j < 8,
        0 <= l < 32,
    ensures
        ({
            let x = value(v[32 * j + l]);
            let sg = product(widen_half(q4k_scale(v)), of_int(q4k_scales(v)[j] as int));
            let mn = product(widen_half(q4k_min_scale(v)), of_int(q4k_mins(v)[j] as int));
            let n = q4k_quant(v, j, l);
            &&& n <= 15
            &&& stored_near(
                a,
                pow2(137),
                x + magnitude(sub_min(v, j)),
                magnitude(sub_step(v, j)),
                magnitude(sg),
                magnitude(fold_larger(0, sub_steps(v))),
                x + magnitude(mn),
            )
            &&& 1000 * gap(x + magnitude(mn), (n * magnitude(sg)) as int) <= 80 * a
            &&& magnitude(mn) <= 2 * a
        }),
{
    let xv = v[32 * j + l];
    let sgv = product(widen_half(q4k_scale(v)), of_int(q4k_scales(v)[j] as int));
    let mnv = product(widen_half(q4k_min_scale(v)), of_int(q4k_mins(v)[j] as int));
    lemma_stored(v, j, a);
    lemma_sub_min(v, j);
    lemma_sub_step(v, j);
    lemma_in_sub(v, j, l);
    lemma_top(v);
    lemma_four_sizes();
    assert(code(xv) < INF && magnitude(xv) <= a);
    lemma_four_bits(
        xv,
        sgv,
        mnv,
        a,
        pow2(137),
        value(xv) + magnitude(sub_min(v, j)),
        magnitude(sub_step(v, j)),
        magnitude(fold_larger(0, sub_steps(v))),
    );
    assert(q4k_quant(v, j, l) as int == four_bits(xv, sgv, mnv)) by {
        reveal(q4k_quant);
    }
}

/// Powers of two that bound what is computed on the way.
proof fn lemma_four_sizes()
    ensures
        pow2(149) >= 0x100_0000,
        pow2(137) >= 0x100_0000,
        8 * pow2(200) <= pow2(276),
        8 * (pow2(200) * pow2(149)) <= pow2(276) * pow2(120),
        pow2(276) == pow2(127) * pow2(149),
        pow2(127) >= 0x1_0000_0000_0000,
        0x1_0000_0000_0000 * pow2(149) <= pow2(276),
{
    lemma2_to64();
    lemma_pow2_adds(127, 149);
    lemma_pow2_adds(64, 63);
    lemma_pow2_pos(63);
    lemma_pow2_adds(64, 85);
    lemma_pow2_pos(85);
    lemma_pow2_adds(64, 73);
    lemma_pow2_pos(73);
    lemma_pow2_adds(200, 76);
    lemma_pow2_adds(64, 12);
    lemma_pow2_pos(200);
    assert(8 * pow2(200) <= pow2(276)) by (nonlinear_arith)
        requires
            pow2(200) * pow2(76) == pow2(276),
            pow2(76) >= 8,
    ;
    lemma_pow2_adds(200, 149);
    lemma_pow2_adds(276, 120);
    lemma_pow2_adds(349, 47);
    lemma_pow2_adds(32, 15);
    lemma_pow2_pos(349);
    assert(8 * pow2(349) <= pow2(396)) by (nonlinear_arith)
        requires
            pow2(349) * pow2(47) == pow2(396),
            pow2(47) >= 8,
    ;
    lemma_pow2_pos(149);
    assert(0x1_0000_0000_0000 * pow2(149) <= pow2(276)) by (nonlinear_arith)
        requires
            pow2(276) == pow2(127) * pow2(149),
            pow2(127) >= 0x1_0000_0000_0000,
    ;
}

/// How large a step times a four-bit value is.
proof fn lemma_four_product(u: nat, sg: nat, q: nat)
    requires
        sg <= 0x80_0000 * u,
        q <= 16 * u,
        0x1_0000_0000_0000 * u <= pow2(276),
    ensures
        sg * q <= (0x80_0000 * u) * (16 * u),
        (0x80_0000 * u) * (16 * u) <= pow2(276) * u,
{
    assert(sg * q <= (0x80_0000 * u) * (16 * u)) by (nonlinear_arith)
        requires
            sg <= 0x80_0000 * u,
            q <= 16 * u,
    ;
    assert((0x80_0000 * u) * (16 * u) <= pow2(276) * u) by (nonlinear_arith)
        requires
            0x1_0000_0000_0000 * u <= pow2(276),
    ;
}

/// What a four-bit value is decoded to, against the number.
#[verifier::spinoff_prover]
#[verifier::rlimit(60)]
proof fn lemma_four_decoded(
    xv: u32,
    sgv: u32,
    mnv: u32,
    n: nat,
    a: nat,
    b: nat,
    z: int,
    s: nat,
    smax: nat,
)
    requires
        n <= 15,
        a <= pow2(200),
        plain(sgv),
        magnitude(sgv) <= 0x80_0000 * pow2(149),
        plain(mnv),
        magnitude(mnv) <= 2 * a,
        stored_near(a, b, z, s, magnitude(sgv), smax, value(xv) + magnitude(mnv)),
        1000 * gap(value(xv) + magnitude(mnv), (n * magnitude(sgv)) as int) <= 80 * a,
    ensures
        64 * gap(value(xv), value(sum(product(sgv, of_int(n as int)), negated(mnv)))) <= 7 * a,
{
    let u = pow2(149);
    let x = value(xv);
    let sg = magnitude(sgv);
    let mn = magnitude(mnv);
    lemma_four_sizes();
    lemma_pow2_pos(149);
    // The value times the step.
    lemma_int_near(n as int);
    let qv = of_int(n as int);
    let q = magnitude(qv);
    assert(n * u <= 15 * u) by (nonlinear_arith)
        requires
            n <= 15,
    ;
    let sq = sg * q;
    lemma_four_product(u, sg, q);
    lemma_product_near(sgv, qv);
    let pv = product(sgv, qv);
    let p = magnitude(pv);
    assert(p * u <= 2 * sq + u);
    assert(p <= 0x1000_0001 * u) by (nonlinear_arith)
        requires
            p * u <= 2 * sq + u,
            sq <= (0x80_0000 * u) * (16 * u),
            u >= 1,
    ;
    assert(!negative(pv));
    assert(value(pv) == p);
    // Less the minimum.
    let nv = negated(mnv);
    assert(code(nv) == code(mnv) && value(nv) == -(mn as int));
    assert(gap(value(pv) + value(nv), 0) <= pow2(276));
    lemma_sum_near(pv, nv);
    let y = value(sum(pv, nv));
    lemma_decode_four(u, a, b, z, s, sg, smax, x + mn, n, q, p, mn, y);
}

/// The tolerance of four-bit blocks is at least seven in 64.
proof fn lemma_tolerance_four()
    ensures
        magnitude(roundtrip_tolerance(DTypeV::Q4_K)) >= 7 * pow2(143),
{
    lemma2_to64();
    lemma_mag_at(122, 14_680_064, 23);
    lemma_pow2_adds(21, 122);
    assert(14_680_064 * pow2(122) == 7 * (0x20_0000 * pow2(122))) by (nonlinear_arith);
    lemma_mag_grows((122 * 0x80_0000 + 14_680_064) as nat, 0x3DE1_47AE, 23);
}

/// A number of a finite block of 256 comes back up to the tolerance of four-bit blocks,
/// relative to a magnitude that no number of the block exceeds and that half precision
/// tells from zero.
pub proof fn law_q4k_error(v: Seq<u32>, j: int, l: int, a: nat)
    requires
        v.len() == 256,
        finite(v),
        q4k_fits(v, a),
        0 <= j < 8,
        0 <= l < 32,
    ensures
        within(
            DTypeV::Q4_K,
            v[32 * j + l],
            q4k_value(
                widen_half(q4k_scale(v)),
                widen_half(q4k_min_scale(v)),
                q4k_scales(v)[j],
                q4k_mins(v)[j],
                q4k_quant(v, j, l),
            ),
            a,
        ),
{
    let xv = v[32 * j + l];
    let sgv = product(widen_half(q4k_scale(v)), of_int(q4k_scales(v)[j] as int));
    let mnv = product(widen_half(q4k_min_scale(v)), of_int(q4k_mins(v)[j] as int));
    let n = q4k_quant(v, j, l);
    lemma_stored(v, j, a);
    lemma_four(v, j, l, a);
    lemma_four_decoded(
        xv,
        sgv,
        mnv,
        n as nat,
        a,
        pow2(137),
        value(xv) + magnitude(sub_min(v, j)),
        magnitude(sub_step(v, j)),
        magnitude(fold_larger(0, sub_steps(v))),
    );
    let x = value(xv);
    let y = value(sum(product(sgv, of_int(n as int)), negated(mnv)));
    let u = pow2(149);
    // Against the tolerance.
    lemma_tolerance_four();
    lemma2_to64();
    lemma_pow2_adds(6, 143);
    let t = magnitude(roundtrip_tolerance(DTypeV::Q4_K));
    let e = gap(x, y);
    let c = pow2(143);
    assert(e * u <= t * a) by (nonlinear_arith)
        requires
            64 * e <= 7 * a,
            t >= 7 * c,
            u == 64 * c,
    ;
}

/// Numbers of at most 65504 overflow no scale.
pub proof fn lemma_q4k_in_reach(v: Seq<u32>, a: nat)
    requires
        v.len() == 256,
        finite(v),
        magnitude(top_of(v)) <= a,
        100 * pow2(137) <= a <= 65504 * pow2(149),
    ensures
        q4k_fits(v, a),
{
    let steps = sub_steps(v);
    let mins = sub_mins(v);
    let bound = (a + 7) / 7;
    lemma2_to64();
    lemma_four_sizes();
    lemma_pow2_adds(16, 149);
    lemma_pow2_adds(165, 35);
    lemma_pow2_pos(165);
    lemma_pow2_pos(35);
    assert(pow2(165) <= pow2(200)) by (nonlinear_arith)
        requires
            pow2(165) * pow2(35) == pow2(200),
            pow2(35) >= 1,
    ;
    assert forall|i: int| 0 <= i < 8 implies whole(#[trigger] steps[i]) && magnitude(steps[i])
        <= bound by {
        lemma_sub_step(v, i);
    }
    assert forall|i: int| 0 <= i < 8 implies whole(#[trigger] mins[i]) && magnitude(mins[i]) <= a by {
        lemma_sub_min(v, i);
    }
    lemma_largest_whole(steps, bound);
    lemma_largest_whole(mins, a);
}

/// The stored step and minimum of a sub-block of zeros are zero.
proof fn lemma_zero_stored(v: Seq<u32>, j: int)
    requires
        v.len() == 256,
        finite(v),
        magnitude(top_of(v)) == 0,
        0 <= j < 8,
    ensures
        ({
            let sg = product(widen_half(q4k_scale(v)), of_int(q4k_scales(v)[j] as int));
            let mn = product(widen_half(q4k_min_scale(v)), of_int(q4k_mins(v)[j] as int));
            plain(sg) && magnitude(sg) == 0 && plain(mn) && magnitude(mn) == 0
        }),
{
    let steps = sub_steps(v);
    let mins = sub_mins(v);
    lemma_pow2_pos(200);
    lemma_pow2_pos(149);
    assert forall|i: int| 0 <= i < 8 implies whole(#[trigger] steps[i]) && magnitude(steps[i])
        <= 0 by {
        lemma_sub_min(v, i);
        lemma_sub_step(v, i);
    }
    assert forall|i: int| 0 <= i < 8 implies whole(#[trigger] mins[i]) && magnitude(mins[i]) <= 0 by {
        lemma_sub_min(v, i);
    }
    lemma_largest_whole(steps, 0);
    lemma_largest_whole(mins, 0);
    assert(steps[j] == sub_step(v, j) && mins[j] == sub_min(v, j));
    lemma_scaled(sub_step(v, j), fold_larger(0, steps));
    lemma_scaled(sub_min(v, j), fold_larger(0, mins));
}

/// Zero times zero, less zero.
proof fn lemma_zero_value(sg: u32, mn: u32)
    requires
        plain(sg),
        magnitude(sg) == 0,
        plain(mn),
        magnitude(mn) == 0,
    ensures
        !positive(sg),
        value(sum(product(sg, of_int(0)), negated(mn))) == 0,
{
    let u = pow2(149);
    lemma2_to64();
    lemma_pow2_pos(149);
    lemma_pow2_pos(276);
    lemma_pow2_adds(64, 85);
    lemma_pow2_pos(85);
    lemma_pow2_pos(23);
    assert(mag(0, 23) == 0);
    if code(sg) > 0 {
        lemma_mag_grows(0, code(sg), 23);
    }
    lemma_int_near(0);
    assert(0 * u == 0);
    let q = of_int(0);
    assert(magnitude(q) == 0);
    assert(0 * 0 == 0);
    assert(0 <= pow2(276) * u) by (nonlinear_arith);
    lemma_product_near(sg, q);
    let p = product(sg, q);
    assert(magnitude(p) == 0) by (nonlinear_arith)
        requires
            near(0, u, magnitude(p)),
            u > 1,
    ;
    assert(code(negated(mn)) == code(mn) && value(negated(mn)) == 0);
    lemma_sum_near(p, negated(mn));
}

/// A block of zeros comes back as zeros.
pub proof fn law_q4k_zeros(v: Seq<u32>, j: int, l: int)
    requires
        v.len() == 256,
        finite(v),
        magnitude(top_of(v)) == 0,
        0 <= j < 8,
        0 <= l < 32,
    ensures
        value(
            q4k_value(
                widen_half(q4k_scale(v)),
                widen_half(q4k_min_scale(v)),
                q4k_scales(v)[j],
                q4k_mins(v)[j],
                q4k_quant(v, j, l),
            ),
        ) == 0,
{
    let sg = product(widen_half(q4k_scale(v)), of_int(q4k_scales(v)[j] as int));
    let mn = product(widen_half(q4k_min_scale(v)), of_int(q4k_mins(v)[j] as int));
    lemma_zero_stored(v, j);
    lemma_zero_value(sg, mn);
    assert(q4k_quant(v, j, l) == 0) by {
        reveal(q4k_quant);
    }
}

} // verus!
