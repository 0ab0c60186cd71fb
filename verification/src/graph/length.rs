//! Turning keeps lengths: the sum of the squares of a pair stays what it was, up to
//! rounding.

use vstd::arithmetic::power2::{lemma2_to64, lemma_pow2_adds, lemma_pow2_pos, pow2};
use vstd::prelude::*;

use crate::float::error::{lemma_product_value, lemma_sum_near};
use crate::float::round::gap;
use crate::float::single::{code, magnitude, negated, product, sum, value, INF};
use crate::formats::desc::RopeStyle;
use crate::graph::ops::{angle_of, pair_of, rope_of, turned, ArrayV, MathV};
use crate::graph::turn::lemma_pair_turned;

verus! {

/// The sum of the squares of two numbers.
pub open spec fn squares(x: u32, y: u32) -> int {
    value(x) * value(x) + value(y) * value(y)
}

/// Whether a sine and a cosine are finite, and their squares add up to one, up to one part
/// in `2^22`.
pub open spec fn on_circle(sc: (u32, u32)) -> bool {
    &&& code(sc.0) < INF
    &&& code(sc.1) < INF
    &&& 0x40_0000 * gap(squares(sc.0, sc.1), (pow2(149) * pow2(149)) as int) <= pow2(149)
        * pow2(149)
}

/// Whether a number is finite and below `2^121`, so that nothing overflows.
pub open spec fn moderate(x: u32) -> bool {
    code(x) < INF && magnitude(x) <= pow2(270)
}

/// What the product of a number of at most `m` with a sine or cosine is off by, over whole
/// numbers.
proof fn lemma_part(u: int, m: int, x: int, c: int, p: int)
    requires
        u >= 0x100_0000,
        -m <= x <= m,
        1000 * gap(c, 0) <= 1001 * u,
        0x200_0000 * gap(x * c, p * u) <= 2 * gap(x * c, 0) + 0x100_0000 * u,
    ensures
        1000 * gap(x * c, 0) <= 1001 * (m * u),
        33_554_432_000 * gap(x * c, p * u) <= 2002 * (m * u) + 16_777_216_000 * u,
        1000 * gap(p, 0) <= 1002 * m + 1000,
{
    let k = gap(x, 0);
    let d = gap(c, 0);
    assert(gap(x * c, 0) == k * d) by (nonlinear_arith)
        requires
            k == gap(x, 0),
            d == gap(c, 0),
    ;
    assert(1000 * (k * d) <= 1001 * (m * u)) by (nonlinear_arith)
        requires
            0 <= k <= m,
            0 <= d,
            1000 * d <= 1001 * u,
    ;
    let q = gap(p, 0);
    assert(gap(p * u, 0) == q * u) by (nonlinear_arith)
        requires
            q == gap(p, 0),
            u > 0,
    ;
    let mu = m * u;
    let qu = q * u;
    assert(1000 * qu <= 1002 * mu + 1000 * u);
    assert(1000 * q <= 1002 * m + 1000) by (nonlinear_arith)
        requires
            1000 * (q * u) <= 1002 * (m * u) + 1000 * u,
            u > 0,
    ;
}

/// What a turned number is off by, over whole numbers: `a` is what it would be, times one.
proof fn lemma_side(u: int, m: int, a1: int, a2: int, p1: int, p2: int, y: int)
    requires
        u >= 0x100_0000,
        m >= 0,
        1000 * gap(a1, 0) <= 1001 * (m * u),
        1000 * gap(a2, 0) <= 1001 * (m * u),
        33_554_432_000 * gap(a1, p1 * u) <= 2002 * (m * u) + 16_777_216_000 * u,
        33_554_432_000 * gap(a2, p2 * u) <= 2002 * (m * u) + 16_777_216_000 * u,
        1000 * gap(p1, 0) <= 1002 * m + 1000,
        1000 * gap(p2, 0) <= 1002 * m + 1000,
        gap(p1 + p2, y) * 0x100_0000 <= gap(p1 + p2, 0),
    ensures
        419_430_400 * gap((y * y) * (u * u), (a1 + a2) * (a1 + a2)) <= (101 * m + 838_860_800)
            * (5 * (m + 1)) * (u * u),
{
    let a = a1 + a2;
    let yu = y * u;
    let mu = m * u;
    let g = gap(p1 + p2, y);
    assert(gap((p1 + p2) * u, yu) == g * u) by (nonlinear_arith)
        requires
            g == gap(p1 + p2, y),
            yu == y * u,
            u > 0,
    ;
    assert((p1 + p2) * u == p1 * u + p2 * u) by (nonlinear_arith);
    assert(16_777_216_000 * g <= 2004 * m + 2000);
    let gu = g * u;
    assert(16_777_216_000 * gu <= 2004 * mu + 2000 * u) by (nonlinear_arith)
        requires
            16_777_216_000 * g <= 2004 * m + 2000,
            gu == g * u,
            mu == m * u,
            u > 0,
    ;
    let e = gap(yu, a);
    assert(e <= gap(a1, p1 * u) + gap(a2, p2 * u) + gu);
    let k = 101 * m + 838_860_800;
    let ku = k * u;
    assert(ku == 101 * mu + 838_860_800 * u) by (nonlinear_arith)
        requires
            ku == (101 * m + 838_860_800) * u,
            mu == m * u,
    ;
    assert(419_430_400 * e <= ku);
    // The sum of both is at most about four times as large as the number.
    let t = gap(yu + a, 0);
    assert(mu >= 0) by (nonlinear_arith)
        requires
            mu == m * u,
            m >= 0,
            u > 0,
    ;
    let w = 5 * (m + 1);
    let wu = w * u;
    assert(wu == 5 * mu + 5 * u) by (nonlinear_arith)
        requires
            wu == (5 * (m + 1)) * u,
            mu == m * u,
    ;
    assert(t <= wu);
    assert(gap((y * y) * (u * u), a * a) == e * t) by (nonlinear_arith)
        requires
            e == gap(y * u, a),
            t == gap(y * u + a, 0),
    ;
    assert(419_430_400 * (e * t) <= ku * wu) by (nonlinear_arith)
        requires
            419_430_400 * e <= ku,
            0 <= t <= wu,
            0 <= e,
    ;
    assert(ku * wu == (k * w) * (u * u)) by (nonlinear_arith)
        requires
            ku == k * u,
            wu == w * u,
    ;
}

/// Both together, over whole numbers.
proof fn lemma_both(
    uu: int,
    m: int,
    r: int,
    z: int,
    q0: int,
    q1: int,
    b0: int,
    b1: int,
)
    requires
        uu > 0,
        m >= 0,
        m * m <= r,
        b0 + b1 == r * z,
        0x40_0000 * gap(z, uu) <= uu,
        419_430_400 * gap(q0 * uu, b0) <= (101 * m + 838_860_800) * (5 * (m + 1)) * uu,
        419_430_400 * gap(q1 * uu, b1) <= (101 * m + 838_860_800) * (5 * (m + 1)) * uu,
    ensures
        0x4_0000 * gap(q0 + q1, r) <= r + 0x10_0000_0000_0000,
{
    let k = 101 * m + 838_860_800;
    let w = 5 * (m + 1);
    let kw = k * w;
    assert(kw <= 510 * r + 1_000_000_000_000_000_000) by (nonlinear_arith)
        requires
            kw == (101 * m + 838_860_800) * (5 * (m + 1)),
            m >= 0,
            m * m <= r,
    ;
    let kwu = kw * uu;
    let c: int = 1_000_000_000_000_000_000;
    let ru = r * uu;
    assert(kwu <= 510 * ru + c * uu) by (nonlinear_arith)
        requires
            kwu == kw * uu,
            ru == r * uu,
            kw <= 510 * r + c,
            uu > 0,
    ;
    assert(0x40_0000 * gap(r * z, ru) <= ru) by (nonlinear_arith)
        requires
            0x40_0000 * gap(z, uu) <= uu,
            ru == r * uu,
            r >= 0,
    ;
    assert((q0 + q1) * uu == q0 * uu + q1 * uu) by (nonlinear_arith);
    let g = gap(q0 + q1, r);
    assert(gap((q0 + q1) * uu, ru) == g * uu) by (nonlinear_arith)
        requires
            g == gap(q0 + q1, r),
            ru == r * uu,
            uu > 0,
    ;
    let gu = g * uu;
    assert(gu <= gap(q0 * uu, b0) + gap(q1 * uu, b1) + gap(r * z, ru));
    assert(419_430_400 * gu <= 1120 * ru + 2_000_000_000_000_000_000 * uu);
    assert(419_430_400 * g <= 1120 * r + 2_000_000_000_000_000_000) by (nonlinear_arith)
        requires
            419_430_400 * (g * uu) <= 1120 * (r * uu) + 2_000_000_000_000_000_000 * uu,
            uu > 0,
    ;
}

/// Turning a pair keeps the sum of its squares, up to one part in `2^18` and what
/// underflows, where the sine and the cosine lie on the circle up to one part in `2^22`,
/// and the numbers are small enough not to overflow.
#[verifier::rlimit(60)]
pub proof fn law_turn_keeps_length(x0: u32, x1: u32, sc: (u32, u32))
    requires
        moderate(x0),
        moderate(x1),
        on_circle(sc),
    ensures
        ({
            let (y0, y1) = turned(x0, x1, sc);
            &&& code(y0) < INF
            &&& code(y1) < INF
            &&& 0x4_0000 * gap(squares(y0, y1), squares(x0, x1)) <= squares(x0, x1)
                + 0x10_0000_0000_0000
        }),
{
    let u = pow2(149) as int;
    let (a, b) = (value(x0), value(x1));
    let (s, c) = (value(sc.0), value(sc.1));
    let m = if gap(a, 0) < gap(b, 0) {
        gap(b, 0)
    } else {
        gap(a, 0)
    };
    lemma_pow2_pos(149);
    lemma2_to64();
    lemma_pow2_adds(64, 85);
    lemma_pow2_pos(85);
    lemma_pow2_adds(6, 270);
    lemma_pow2_pos(270);
    let uu = u * u;
    let z = squares(sc.0, sc.1);
    // Neither the sine nor the cosine is much larger than one.
    assert(s * s >= 0 && c * c >= 0) by (nonlinear_arith);
    assert(1000 * gap(s, 0) <= 1001 * u) by (nonlinear_arith)
        requires
            0x40_0000 * (s * s) <= 0x40_0001 * (u * u),
            u > 0,
    ;
    assert(1000 * gap(c, 0) <= 1001 * u) by (nonlinear_arith)
        requires
            0x40_0000 * (c * c) <= 0x40_0001 * (u * u),
            u > 0,
    ;
    lemma_moderate_product(x0, sc.1);
    lemma_moderate_product(x1, sc.0);
    lemma_moderate_product(x0, sc.0);
    lemma_moderate_product(x1, sc.1);
    lemma_product_value(x0, sc.1);
    lemma_product_value(x1, sc.0);
    lemma_product_value(x0, sc.0);
    lemma_product_value(x1, sc.1);
    let p1 = product(x0, sc.1);
    let p2 = product(x1, sc.0);
    let p3 = product(x0, sc.0);
    let p4 = product(x1, sc.1);
    lemma_part(u, m, a, c, value(p1));
    lemma_part(u, m, b, s, value(p2));
    lemma_part(u, m, a, s, value(p3));
    lemma_part(u, m, b, c, value(p4));
    let n2 = negated(p2);
    assert(code(n2) == code(p2) && value(n2) == -value(p2));
    assert((-value(p2)) * u == -(value(p2) * u)) by (nonlinear_arith);
    assert(m <= pow2(270));
    lemma_sum_near(p1, n2);
    lemma_sum_near(p3, p4);
    let y0 = value(sum(p1, n2));
    let y1 = value(sum(p3, p4));
    lemma_side(u, m, a * c, -(b * s), value(p1), value(n2), y0);
    lemma_side(u, m, a * s, b * c, value(p3), value(p4), y1);
    let r = a * a + b * b;
    let b0 = (a * c + (-(b * s))) * (a * c + (-(b * s)));
    let b1 = (a * s + b * c) * (a * s + b * c);
    lemma_turned_squares(a, b, s, c);
    assert(m * m <= r) by (nonlinear_arith)
        requires
            m == gap(a, 0) || m == gap(b, 0),
            r == a * a + b * b,
    ;
    assert(uu > 0) by (nonlinear_arith)
        requires
            uu == u * u,
            u > 0,
    ;
    lemma_both(uu, m, r, z, y0 * y0, y1 * y1, b0, b1);
}

/// Turning exactly multiplies the sum of squares by that of the sine and the cosine.
proof fn lemma_turned_squares(a: int, b: int, s: int, c: int)
    ensures
        (a * c + (-(b * s))) * (a * c + (-(b * s))) + (a * s + b * c) * (a * s + b * c) == (a * a
            + b * b) * (s * s + c * c),
{
    let (ac, bs, sa, bc) = (a * c, b * s, a * s, b * c);
    assert((ac + (-bs)) * (ac + (-bs)) == ac * ac - 2 * (ac * bs) + bs * bs) by (nonlinear_arith);
    assert((sa + bc) * (sa + bc) == sa * sa + 2 * (sa * bc) + bc * bc) by (nonlinear_arith);
    assert(ac * bs == sa * bc) by (nonlinear_arith)
        requires
            ac == a * c,
            bs == b * s,
            sa == a * s,
            bc == b * c,
    ;
    let (aa, bb, ss, cc) = (a * a, b * b, s * s, c * c);
    assert(ac * ac == aa * cc) by (nonlinear_arith)
        requires
            ac == a * c,
            aa == a * a,
            cc == c * c,
    ;
    assert(bs * bs == bb * ss) by (nonlinear_arith)
        requires
            bs == b * s,
            bb == b * b,
            ss == s * s,
    ;
    assert(sa * sa == aa * ss) by (nonlinear_arith)
        requires
            sa == a * s,
            aa == a * a,
            ss == s * s,
    ;
    assert(bc * bc == bb * cc) by (nonlinear_arith)
        requires
            bc == b * c,
            bb == b * b,
            cc == c * c,
    ;
    assert((aa + bb) * (ss + cc) == aa * ss + aa * cc + bb * ss + bb * cc) by (nonlinear_arith);
}

/// The product of a moderate number with a sine or cosine does not overflow.
proof fn lemma_moderate_product(x: u32, c: u32)
    requires
        moderate(x),
        1000 * gap(value(c), 0) <= 1001 * pow2(149),
    ensures
        magnitude(x) * magnitude(c) <= pow2(276) * pow2(149),
{
    lemma2_to64();
    lemma_pow2_adds(6, 270);
    lemma_pow2_pos(270);
    lemma_pow2_pos(149);
    let k = magnitude(c);
    assert(k == gap(value(c), 0));
    assert(k <= 2 * pow2(149));
    assert(magnitude(x) * k <= pow2(276) * pow2(149)) by (nonlinear_arith)
        requires
            magnitude(x) <= pow2(270),
            k <= 2 * pow2(149),
            pow2(276) == 64 * pow2(270),
    ;
}

/// Each pair of each head of each row keeps the sum of its squares when it is turned, up
/// to one part in `2^18` and what underflows.
pub proof fn law_rope_keeps_lengths(
    m: MathV,
    x: ArrayV,
    n_heads: nat,
    head_dim: int,
    theta: u32,
    style: RopeStyle,
    pos_off: int,
    s: int,
    h: int,
    i: int,
)
    requires
        0 < head_dim,
        head_dim % 2 == 0,
        x.shape.len() == 2,
        n_heads * head_dim <= x.shape[1],
        x.data.len() == x.shape[0] * x.shape[1],
        0 <= s < x.shape[0],
        0 <= h < n_heads,
        0 <= i < head_dim / 2,
        on_circle(angle_of(m, theta, head_dim, pos_off + s, i)),
        ({
            let (a, b) = pair_of(style, s * x.shape[1] + h * head_dim, head_dim / 2, i);
            moderate(x.data[a]) && moderate(x.data[b])
        }),
    ensures
        ({
            let out = rope_of(m, x, n_heads, head_dim, theta, style, pos_off);
            let (a, b) = pair_of(style, s * x.shape[1] + h * head_dim, head_dim / 2, i);
            let before = squares(x.data[a], x.data[b]);
            &&& code(out.data[a]) < INF
            &&& code(out.data[b]) < INF
            &&& 0x4_0000 * gap(squares(out.data[a], out.data[b]), before) <= before
                + 0x10_0000_0000_0000
        }),
{
    let (a, b) = pair_of(style, s * x.shape[1] + h * head_dim, head_dim / 2, i);
    lemma_pair_turned(m, x, n_heads, head_dim, theta, style, pos_off, s, h, i);
    law_turn_keeps_length(
        x.data[a],
        x.data[b],
        angle_of(m, theta, head_dim, pos_off + s, i),
    );
}

} // verus!
