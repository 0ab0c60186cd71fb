//! What the operations of a forward pass give, over exact numbers: values are in units of
//! `2^-149`, products of two in units of `2^-298`.

use vstd::arithmetic::power2::{lemma2_to64, lemma_pow2_adds, lemma_pow2_pos, pow2};
use vstd::prelude::*;

use crate::float::error::{lemma_int_near, lemma_product_value, lemma_quotient_near, lemma_sum_near};
use crate::float::round::{gap, lemma_mag_at, lemma_mag_grows, mag};
use crate::float::single::{
    code, magnitude, negated, negative, of_int, product, quotient, sum, value, INF, SIGN,
};
use crate::formats::desc::RopeStyle;
use crate::graph::dots::{bulk, finite, inner, lemma_dot_near, lemma_inner_bulk, lemma_size_of_product};
use crate::graph::error::GraphFault;
use crate::graph::length::{moderate, on_circle};
use crate::graph::ops::{
    added, angle_of, dot, embedded, first_unknown, matmul_of, norm_factor, rmsnorm_of,
    rope_of, swiglu_of, turned, ArrayV, MathV, MINUS_TWO, ONE,
};
use crate::graph::softmax::roots;
use crate::graph::turn::lemma_pair_turned;

verus! {

/// The embedding of a token is the row of the table that it names; the first token that names
/// none is an error.
pub proof fn law_tokens_name_rows(
    ids: Seq<u32>,
    table: Seq<u32>,
    vocab: usize,
    hidden: usize,
    s: int,
    j: int,
)
    requires
        ids.len() <= usize::MAX,
    ensures
        match embedded(ids, table, vocab, hidden) {
            Ok(t) => {
                &&& forall|i: int| 0 <= i < ids.len() ==> #[trigger] ids[i] < vocab
                &&& t.shape.len() == 2 && t.shape[0] == ids.len() && t.shape[1] == hidden
                &&& t.data.len() == ids.len() * hidden
                &&& 0 <= s < ids.len() && 0 <= j < hidden ==> t.data[s * hidden + j]
                    == table[ids[s] * hidden + j]
            },
            Err(e) => exists|i: int|
                0 <= i < ids.len() && #[trigger] ids[i] >= vocab && e == (
                GraphFault::TokenOutOfRange { id: ids[i], vocab: vocab as nat }) && forall|k: int|
                    0 <= k < i ==> #[trigger] ids[k] < vocab,
        },
{
    lemma_unknown(ids, vocab as nat, ids.len());
    if 0 <= s < ids.len() && 0 <= j < hidden {
        let p = s * hidden + j;
        vstd::arithmetic::div_mod::lemma_fundamental_div_mod_converse(p, hidden as int, s, j);
        assert(0 <= p < ids.len() * hidden) by (nonlinear_arith)
            requires
                p == s * hidden + j,
                0 <= s,
                s + 1 <= ids.len(),
                0 <= j < hidden,
        ;
    }
}

proof fn lemma_unknown(ids: Seq<u32>, vocab: nat, n: nat)
    requires
        n <= ids.len(),
    ensures
        match first_unknown(ids, vocab, n) {
            Some(id) => exists|i: int|
                0 <= i < n && #[trigger] ids[i] >= vocab && id == ids[i] && forall|k: int|
                    0 <= k < i ==> #[trigger] ids[k] < vocab,
            None => forall|i: int| 0 <= i < n ==> #[trigger] ids[i] < vocab,
        },
    decreases n,
{
    if n > 0 {
        lemma_unknown(ids, vocab, (n - 1) as nat);
        if first_unknown(ids, vocab, (n - 1) as nat) is None && ids[n - 1] >= vocab {
            assert(ids[n - 1] >= vocab);
        }
    }
}

/// The sum of two values is that of their numbers, place by place, up to one part in `2^24`.
pub proof fn law_sums_are_near(a: ArrayV, b: ArrayV, p: int)
    requires
        0 <= p < a.data.len(),
        p < b.data.len(),
        code(a.data[p]) < INF,
        code(b.data[p]) < INF,
        magnitude(a.data[p]) <= pow2(275),
        magnitude(b.data[p]) <= pow2(275),
    ensures
        ({
            let y = added(a, b).data[p];
            let z = value(a.data[p]) + value(b.data[p]);
            &&& added(a, b).shape == a.shape
            &&& code(y) < INF
            &&& gap(z, value(y)) * 0x100_0000 <= gap(z, 0)
        }),
{
    lemma2_to64();
    lemma_pow2_adds(1, 275);
    lemma_sum_near(a.data[p], b.data[p]);
}

/// A product with a weight: the number of row `s` and column `n` is the exact product of row
/// `s` of the value with row `n` of the weight, and the bias of that column, up to rounding.
pub proof fn law_products_are_near(
    x: ArrayV,
    w: Seq<u32>,
    n_out: usize,
    k: usize,
    bias: Option<Seq<u32>>,
    s: int,
    n: int,
)
    requires
        x.shape.len() == 2,
        0 <= s < x.shape[0],
        0 <= n < n_out,
        k <= 0x10_0000,
        finite(x.data, s * k, k as nat),
        finite(w, n * k, k as nat),
        bulk(x.data, s * k, w, n * k, k as nat) <= pow2(270) * pow2(149),
        bias matches Some(b) ==> code(b[n]) < INF && magnitude(b[n]) <= pow2(272),
    ensures
        ({
            let y = matmul_of(x, w, n_out, k, bias);
            let z = y.data[s * n_out + n];
            let u = pow2(149);
            let b = match bias {
                Some(b) => value(b[n]),
                None => 0,
            };
            let a = bulk(x.data, s * k, w, n * k, k as nat);
            &&& y.shape.len() == 2 && y.shape[0] == x.shape[0] && y.shape[1] == n_out
            &&& code(z) < INF
            &&& 0x40_0000 * gap(value(z) * u, inner(x.data, s * k, w, n * k, k as nat) + b * u) <= (k
                + 2) * a + gap(b, 0) * u + 0x40_0000 * ((k + 1) * u)
        }),
{
    let u = pow2(149) as int;
    lemma_pow2_pos(149);
    lemma2_to64();
    lemma_pow2_adds(4, 272);
    lemma_pow2_pos(272);
    lemma_pow2_pos(23);
    assert(mag(0, 23) == 0);
    let (i, j) = (s * k, n * k);
    lemma_dot_near(0, x.data, i, w, j, k as nat);
    lemma_inner_bulk(x.data, i, w, j, k as nat);
    let d = dot(0, x.data, i, w, j, k as nat);
    let bb = match bias {
        Some(b) => b[n],
        None => 0u32,
    };
    lemma_sum_near(d, bb);
    let p = s * n_out + n;
    vstd::arithmetic::div_mod::lemma_fundamental_div_mod_converse(p, n_out as int, s, n);
    assert(0 <= p < x.shape[0] * n_out) by (nonlinear_arith)
        requires
            p == s * n_out + n,
            0 <= s,
            s + 1 <= x.shape[0],
            0 <= n < n_out,
    ;
    let z = sum(d, bb);
    assert(matmul_of(x, w, n_out, k, bias).data[p] == z);
    let (v, b, y) = (value(d), value(bb), value(z));
    let a = bulk(x.data, i, w, j, k as nat);
    let e = inner(x.data, i, w, j, k as nat);
    let (vu, bu, yu) = (v * u, b * u, y * u);
    let g = gap(v + b, y);
    let f = gap(v + b, 0);
    assert(gap(yu, vu + bu) == g * u) by (nonlinear_arith)
        requires
            yu == y * u,
            vu == v * u,
            bu == b * u,
            g == gap(v + b, y),
            u > 0,
    ;
    assert(f * u == gap(vu + bu, 0)) by (nonlinear_arith)
        requires
            vu == v * u,
            bu == b * u,
            f == gap(v + b, 0),
            u > 0,
    ;
    assert((g * u) * 0x100_0000 <= f * u) by (nonlinear_arith)
        requires
            g * 0x100_0000 <= f,
            u > 0,
    ;
    assert(gap(bu, 0) == gap(b, 0) * u) by (nonlinear_arith)
        requires
            bu == b * u,
            u > 0,
    ;
    let (ka, ku) = (k * a, k * u);
    assert((k + 1) * a == ka + a && (k + 2) * a == ka + 2 * a && (k + 1) * u == ku + u)
        by (nonlinear_arith)
        requires
            ka == k * a,
            ku == k * u,
    ;
    assert(ka <= 0x10_0000 * a && ku <= 0x10_0000 * u) by (nonlinear_arith)
        requires
            ka == k * a,
            ku == k * u,
            k <= 0x10_0000,
            a >= 0,
            u > 0,
    ;
}

/// A quotient times a number, over whole numbers: `q` is `g` over `s` and `y` is `q` times
/// `w`, rounded.
proof fn lemma_over(u: int, g: int, s: int, q: int, w: int, y: int)
    requires
        u > 0,
        s > 0,
        0x200_0000 * gap(q * s, g * u) <= 2 * (gap(g, 0) * u) + 0x100_0000 * s,
        0x200_0000 * gap(q * w, y * u) <= 2 * gap(q * w, 0) + 0x100_0000 * u,
    ensures
        0x40_0000 * gap(y * u * s, g * w * u) <= gap(g * w, 0) * u + 0x40_0000 * ((gap(w, 0) + u)
            * s),
{
    let (qs, gu, qw, yu) = (q * s, g * u, q * w, y * u);
    let (gg, ww) = (gap(g, 0), gap(w, 0));
    let e = gap(qs, gu);
    let f = gap(qw, yu);
    let ggu = gg * u;
    assert(ggu == gap(gu, 0)) by (nonlinear_arith)
        requires
            ggu == gg * u,
            gg == gap(g, 0),
            gu == g * u,
            u > 0,
    ;
    let we = ww * e;
    let wgu = ww * ggu;
    let ws = ww * s;
    assert(0x200_0000 * we <= 2 * wgu + 0x100_0000 * ws) by (nonlinear_arith)
        requires
            0x200_0000 * e <= 2 * ggu + 0x100_0000 * s,
            we == ww * e,
            wgu == ww * ggu,
            ws == ww * s,
            ww >= 0,
    ;
    let fs = f * s;
    let qws = gap(qw, 0) * s;
    let us = u * s;
    assert(0x200_0000 * fs <= 2 * qws + 0x100_0000 * us) by (nonlinear_arith)
        requires
            0x200_0000 * f <= 2 * gap(qw, 0) + 0x100_0000 * u,
            fs == f * s,
            qws == gap(qw, 0) * s,
            us == u * s,
            s > 0,
    ;
    assert(qws == ww * gap(qs, 0)) by (nonlinear_arith)
        requires
            qws == gap(qw, 0) * s,
            qw == q * w,
            qs == q * s,
            ww == gap(w, 0),
            s > 0,
    ;
    assert(ww * gap(qs, 0) <= wgu + we) by (nonlinear_arith)
        requires
            gap(qs, 0) <= ggu + e,
            wgu == ww * ggu,
            we == ww * e,
            ww >= 0,
    ;
    let (yus, qwss, gwu) = (yu * s, qw * s, gu * w);
    assert(gap(yus, qwss) == fs) by (nonlinear_arith)
        requires
            yus == yu * s,
            qwss == qw * s,
            fs == f * s,
            f == gap(qw, yu),
            s > 0,
    ;
    assert(gap(qwss, gwu) == we) by (nonlinear_arith)
        requires
            qwss == (q * w) * s,
            qs == q * s,
            gwu == gu * w,
            we == ww * e,
            e == gap(qs, gu),
            ww == gap(w, 0),
    ;
    assert(gwu == g * w * u) by (nonlinear_arith)
        requires
            gwu == (g * u) * w,
    ;
    assert(wgu == gap(g * w, 0) * u) by (nonlinear_arith)
        requires
            wgu == ww * (gg * u),
            ww == gap(w, 0),
            gg == gap(g, 0),
    ;
    assert((ww + u) * s == ws + us) by (nonlinear_arith)
        requires
            ws == ww * s,
            us == u * s,
    ;
    assert(ws >= 0 && us >= 0 && wgu >= 0) by (nonlinear_arith)
        requires
            ws == ww * s,
            us == u * s,
            wgu == ww * (gg * u),
            ww >= 0,
            gg >= 0,
            s > 0,
            u > 0,
    ;
}

/// The same over a divisor that is near.
proof fn lemma_over_near(u: int, s: int, t: int, y: int, c: int, o: int)
    requires
        u > 0,
        s > 0,
        t > 0,
        o >= u,
        gap(t, s) * 0x100_0000 <= t,
        0x40_0000 * gap(y * u * s, c * u) <= gap(c, 0) * u + 0x40_0000 * (o * s),
    ensures
        0x10_0000 * gap(y * u * t, c * u) <= gap(c, 0) * u + 0x20_0000 * (o * t),
{
    let yu = y * u;
    let (yus, yut, cu, os, ot) = (yu * s, yu * t, c * u, o * s, o * t);
    let k = gap(c, 0) * u;
    assert(k == gap(cu, 0)) by (nonlinear_arith)
        requires
            k == gap(c, 0) * u,
            cu == c * u,
            u > 0,
    ;
    let g = gap(t, s);
    let a = gap(yu, 0);
    let (ag, at, r) = (a * g, a * t, a * s);
    assert(0x100_0000 * ag <= at) by (nonlinear_arith)
        requires
            g * 0x100_0000 <= t,
            ag == a * g,
            at == a * t,
            a >= 0,
    ;
    assert(gap(yut, yus) == ag) by (nonlinear_arith)
        requires
            yut == yu * t,
            yus == yu * s,
            ag == a * g,
            a == gap(yu, 0),
            g == gap(t, s),
    ;
    assert(at <= r + ag) by (nonlinear_arith)
        requires
            at == a * t,
            r == a * s,
            ag == a * g,
            g == gap(t, s),
            a >= 0,
    ;
    assert(r == gap(yus, 0)) by (nonlinear_arith)
        requires
            r == a * s,
            yus == yu * s,
            a == gap(yu, 0),
            s > 0,
    ;
    assert(0x80_0000 * os <= 0x80_0001 * ot) by (nonlinear_arith)
        requires
            0x80_0000 * s <= 0x80_0001 * t,
            os == o * s,
            ot == o * t,
            o > 0,
    ;
    assert(os >= 0) by (nonlinear_arith)
        requires
            os == o * s,
            o > 0,
            s > 0,
    ;
}

/// The sign and size of a quotient, as one number.
proof fn lemma_quotient_value(x: u32, y: u32)
    requires
        code(x) < INF,
        0 < code(y) < INF,
        !negative(y),
        magnitude(x) * pow2(149) <= pow2(276) * magnitude(y),
    ensures
        magnitude(y) > 0,
        code(quotient(x, y)) < INF,
        0x200_0000 * gap(value(quotient(x, y)) * magnitude(y), value(x) * pow2(149)) <= 2 * (gap(
            value(x),
            0,
        ) * pow2(149)) + 0x100_0000 * magnitude(y),
{
    lemma_quotient_near(x, y);
    let (a, b, u) = (magnitude(x) as int, magnitude(y) as int, pow2(149) as int);
    let q = magnitude(quotient(x, y)) as int;
    assert((-q) * b == -(q * b) && (-a) * u == -(a * u)) by (nonlinear_arith);
    assert(0 <= a * u) by (nonlinear_arith)
        requires
            0 <= a,
            0 <= u,
    ;
}

/// A gated value: times one and the exponential of the first value's opposite, it is the
/// product of both values, up to rounding. So the first value is the one that is weighed.
pub proof fn law_gating_is_near(m: MathV, gate: ArrayV, up: ArrayV, p: int)
    requires
        0 <= p < gate.data.len(),
        p < up.data.len(),
        code(gate.data[p]) < INF,
        code(up.data[p]) < INF,
        magnitude(gate.data[p]) <= pow2(270),
        magnitude(up.data[p]) <= pow2(270),
        magnitude(gate.data[p]) * magnitude(up.data[p]) <= pow2(270) * pow2(149),
        ({
            let e = (m.exp)(negated(gate.data[p]));
            code(e) < INF && !negative(e) && magnitude(e) <= pow2(270)
        }),
    ensures
        ({
            let y = swiglu_of(m, gate, up).data[p];
            let (g, w) = (value(gate.data[p]), value(up.data[p]));
            let u = pow2(149);
            let t = u + magnitude((m.exp)(negated(gate.data[p])));
            &&& swiglu_of(m, gate, up).shape == gate.shape
            &&& code(y) < INF
            &&& 0x10_0000 * gap(value(y) * u * t, g * w * u) <= gap(g * w, 0) * u + 0x20_0000 * ((
            gap(w, 0) + u) * t)
        }),
{
    let (x, z) = (gate.data[p], up.data[p]);
    let e = (m.exp)(negated(x));
    let u = pow2(149) as int;
    lemma_pow2_pos(149);
    lemma_pow2_pos(270);
    lemma_pow2_pos(121);
    lemma2_to64();
    lemma_mag_at(126, 0x80_0000, 23);
    lemma_pow2_adds(23, 126);
    lemma_pow2_adds(121, 149);
    lemma_pow2_adds(6, 270);
    assert(magnitude(ONE) == u);
    assert(u <= pow2(270)) by (nonlinear_arith)
        requires
            pow2(270) == pow2(121) * u,
            pow2(121) >= 1,
            u > 0,
    ;
    lemma_sum_near(ONE, e);
    let d = sum(ONE, e);
    let t = u + magnitude(e);
    let s = magnitude(d) as int;
    assert(!negative(d));
    assert(value(d) == s);
    lemma_pow2_pos(23);
    assert(mag(0, 23) == 0);
    assert(code(d) > 0);
    assert(2 * s >= u);
    assert(magnitude(x) * u <= pow2(276) * s) by (nonlinear_arith)
        requires
            magnitude(x) <= pow2(270),
            pow2(276) == 64 * pow2(270),
            2 * s >= u,
            u > 0,
            pow2(270) > 0,
    ;
    lemma_quotient_value(x, d);
    let q = quotient(x, d);
    let qm = magnitude(q) as int;
    let xm = magnitude(x) as int;
    assert(gap(value(q) * s, 0) == qm * s) by (nonlinear_arith)
        requires
            value(q) == qm || value(q) == -qm,
            qm >= 0,
            s > 0,
    ;
    assert(gap(value(x) * u, 0) == xm * u) by (nonlinear_arith)
        requires
            value(x) == xm || value(x) == -xm,
            xm >= 0,
            u > 0,
    ;
    assert(qm <= 4 * xm + 1) by (nonlinear_arith)
        requires
            0x200_0000 * (qm * s) <= 0x200_0002 * (xm * u) + 0x100_0000 * s,
            2 * s >= u,
            s > 0,
            u > 0,
            xm >= 0,
    ;
    let zm = magnitude(z) as int;
    assert(qm * zm <= pow2(276) * u) by (nonlinear_arith)
        requires
            0 <= qm <= 4 * xm + 1,
            0 <= zm <= pow2(270),
            xm * zm <= pow2(270) * u,
            pow2(276) == 64 * pow2(270),
            u >= 1,
    ;
    lemma_product_value(q, z);
    let y = product(q, z);
    lemma_over(u, value(x), s, value(q), value(z), value(y));
    lemma_over_near(u, s, t, value(y), value(x) * value(z), gap(value(z), 0) + u);
}

/// Where a pair of a head is turned: both numbers of it, by the angle that is the position
/// times a power of the base, whose exponent falls by two over the size of a head from pair to
/// pair. Neighbours make a pair, or numbers half a head apart.
pub proof fn law_turning_is_near(
    m: MathV,
    x: ArrayV,
    n_heads: nat,
    head_dim: int,
    theta: u32,
    style: RopeStyle,
    pos_off: int,
    s: int,
    h: int,
    i: int,
)
    requires
        0 < head_dim <= 0x1_0000,
        head_dim % 2 == 0,
        x.shape.len() == 2,
        n_heads * head_dim <= x.shape[1],
        x.data.len() == x.shape[0] * x.shape[1],
        0 <= s < x.shape[0],
        0 <= h < n_heads,
        0 <= i < head_dim / 2,
        0 <= pos_off,
        pos_off + s <= 0x1_0000,
        on_circle(angle_of(m, theta, head_dim, pos_off + s, i)),
        ({
            let base = s * x.shape[1] + h * head_dim;
            let (a, b) = match style {
                RopeStyle::Interleaved => (base + 2 * i, base + 2 * i + 1),
                RopeStyle::HalfSplit => (base + i, base + i + head_dim / 2),
            };
            moderate(x.data[a]) && moderate(x.data[b])
        }),
        forall|e: u32| #[trigger]
            code((m.pow)(theta, e)) < INF && magnitude((m.pow)(theta, e)) <= pow2(200),
    ensures
        ({
            let out = rope_of(m, x, n_heads, head_dim, theta, style, pos_off);
            let base = s * x.shape[1] + h * head_dim;
            let (a, b) = match style {
                RopeStyle::Interleaved => (base + 2 * i, base + 2 * i + 1),
                RopeStyle::HalfSplit => (base + i, base + i + head_dim / 2),
            };
            let (x0, x1) = (value(x.data[a]), value(x.data[b]));
            let (y0, y1) = (value(out.data[a]), value(out.data[b]));
            let u = pow2(149);
            exists|angle: u32, e: u32| #[trigger]
                angled(m, theta, pos_off + s, i, head_dim, angle, e) && ({
                    let sin = value((m.sin_cos)(angle).0);
                    let cos = value((m.sin_cos)(angle).1);
                    &&& 0x40_0000 * gap(y0 * u, x0 * cos - x1 * sin) <= gap(x0 * cos, 0) + gap(
                        x1 * sin,
                        0,
                    ) + 0x80_0000 * u
                    &&& 0x40_0000 * gap(y1 * u, x0 * sin + x1 * cos) <= gap(x0 * sin, 0) + gap(
                        x1 * cos,
                        0,
                    ) + 0x80_0000 * u
                })
        }),
{
    let base = s * x.shape[1] + h * head_dim;
    let (a, b) = match style {
        RopeStyle::Interleaved => (base + 2 * i, base + 2 * i + 1),
        RopeStyle::HalfSplit => (base + i, base + i + head_dim / 2),
    };
    lemma_pair_turned(m, x, n_heads, head_dim, theta, style, pos_off, s, h, i);
    let e = quotient(product(MINUS_TWO, of_int(i)), of_int(head_dim));
    let angle = product(of_int(pos_off + s), (m.pow)(theta, e));
    lemma_angle(m, theta, pos_off + s, i, head_dim);
    assert((m.sin_cos)(angle) == angle_of(m, theta, head_dim, pos_off + s, i));
    lemma_turned_near(x.data[a], x.data[b], (m.sin_cos)(angle));
}

/// Whether an angle is that of pair `i` at position `pos`, and `e` the exponent of its power
/// of the base, up to rounding.
pub open spec fn angled(
    m: MathV,
    theta: u32,
    pos: int,
    i: int,
    head_dim: int,
    angle: u32,
    e: u32,
) -> bool {
    let u = pow2(149);
    let p = value((m.pow)(theta, e));
    &&& 0x40_0000 * gap(value(e) * head_dim, -2 * i * u) <= 4 * i * u + 0x80_0000 * head_dim
    &&& 0x40_0000 * gap(value(angle), pos * p) <= pos * gap(p, 0) + 0x40_0000
}

/// A small integer as a number, times one.
proof fn lemma_int_value(n: int)
    requires
        0 <= n <= 0x1_0000,
    ensures
        code(of_int(n)) < INF,
        value(of_int(n)) == magnitude(of_int(n)),
        gap(n * pow2(149), magnitude(of_int(n)) as int) * 0x100_0000 <= n * pow2(149),
        n > 0 ==> code(of_int(n)) > 0 && 2 * magnitude(of_int(n)) >= pow2(149),
        magnitude(of_int(n)) <= 0x2_0000 * pow2(149),
{
    lemma_int_near(n);
    lemma_pow2_pos(149);
    assert(gap(n, 0) == n);
    let u = pow2(149) as int;
    assert(n * u <= 0x1_0000 * u) by (nonlinear_arith)
        requires
            n <= 0x1_0000,
            u > 0,
    ;
    assert(n > 0 ==> n * u >= u) by (nonlinear_arith)
        requires
            u > 0,
    ;
    lemma_pow2_pos(23);
    assert(mag(0, 23) == 0);
}

/// The angle of a pair.
proof fn lemma_angle(m: MathV, theta: u32, pos: int, i: int, head_dim: int)
    requires
        0 < head_dim <= 0x1_0000,
        0 <= i < head_dim / 2,
        0 <= pos <= 0x1_0000,
        forall|e: u32| #[trigger]
            code((m.pow)(theta, e)) < INF && magnitude((m.pow)(theta, e)) <= pow2(200),
    ensures
        ({
            let e = quotient(product(MINUS_TWO, of_int(i)), of_int(head_dim));
            angled(
                m,
                theta,
                pos,
                i,
                head_dim,
                product(of_int(pos), (m.pow)(theta, e)),
                e,
            )
        }),
{
    let u = pow2(149) as int;
    lemma_pow2_pos(149);
    lemma2_to64();
    lemma_int_value(i);
    lemma_int_value(head_dim);
    lemma_int_value(pos);
    lemma_mag_at(127, 0x80_0000, 23);
    lemma_pow2_adds(23, 127);
    lemma_pow2_adds(1, 149);
    assert(magnitude(MINUS_TWO) == 2 * u);
    assert(value(MINUS_TWO) == -2 * u);
    let (vi, vh, vp) = (
        magnitude(of_int(i)) as int,
        magnitude(of_int(head_dim)) as int,
        magnitude(of_int(pos)) as int,
    );
    lemma_pow2_adds(127, 149);
    lemma_pow2_adds(64, 63);
    lemma_pow2_pos(63);
    lemma_pow2_pos(127);
    assert(pow2(127) >= 0x1_0000_0000_0000_0000) by (nonlinear_arith)
        requires
            pow2(127) == pow2(64) * pow2(63),
            pow2(64) == 0x1_0000_0000_0000_0000,
            pow2(63) >= 1,
    ;
    assert((2 * u) * vi <= pow2(276) * u) by (nonlinear_arith)
        requires
            0 <= vi <= 0x2_0000 * u,
            pow2(276) == pow2(127) * u,
            pow2(127) >= 0x10_0000,
            u > 0,
    ;
    lemma_product_value(MINUS_TWO, of_int(i));
    let t = product(MINUS_TWO, of_int(i));
    let vt = value(t);
    let c = -2 * u * vi;
    assert(gap(c, 0) == 2 * u * vi) by (nonlinear_arith)
        requires
            c == -2 * u * vi,
            vi >= 0,
            u > 0,
    ;
    // The numerator, over one.
    let iu = i * u;
    let f = gap(-2 * vi, vt);
    assert(gap(c, vt * u) == f * u) by (nonlinear_arith)
        requires
            c == -2 * u * vi,
            f == gap(-2 * vi, vt),
            u > 0,
    ;
    assert(2 * u * vi == 2 * (vi * u)) by (nonlinear_arith);
    assert(0x200_0000 * f <= 4 * vi + 0x100_0000) by (nonlinear_arith)
        requires
            0x200_0000 * (f * u) <= 4 * (vi * u) + 0x100_0000 * u,
            u > 0,
    ;
    assert(0x40_0000 * gap(vt, -2 * iu) <= 2 * iu + 0x40_0000 && gap(vt, 0) <= 4 * iu + 1);
    assert(head_dim * u >= u) by (nonlinear_arith)
        requires
            head_dim >= 1,
            u > 0,
    ;
    assert(magnitude(t) == gap(vt, 0));
    assert(iu <= 0x8000 * u) by (nonlinear_arith)
        requires
            iu == i * u,
            i <= 0x8000,
            u > 0,
    ;
    assert(magnitude(t) * u <= pow2(276) * vh) by (nonlinear_arith)
        requires
            magnitude(t) <= 4 * iu + 1,
            iu <= 0x8000 * u,
            2 * vh >= u,
            pow2(276) == pow2(127) * u,
            pow2(127) >= 0x10_0000,
            u >= 1,
    ;
    lemma_quotient_value(t, of_int(head_dim));
    let e = quotient(t, of_int(head_dim));
    let ve = value(e);
    lemma_exponent(u, head_dim, vh, iu, vt, ve);
    assert(-2 * i * u == -2 * iu && 4 * i * u == 4 * iu) by (nonlinear_arith)
        requires
            iu == i * u,
    ;
    // The angle.
    let w = (m.pow)(theta, e);
    assert(code(w) < INF && magnitude(w) <= pow2(200));
    lemma_pow2_adds(200, 76);
    lemma_pow2_adds(64, 12);
    assert(vp * magnitude(w) <= pow2(276) * u) by (nonlinear_arith)
        requires
            0 <= vp <= 0x2_0000 * u,
            magnitude(w) <= pow2(200),
            pow2(276) == pow2(200) * pow2(76),
            pow2(76) == pow2(64) * pow2(12),
            pow2(64) >= 0x2_0000,
            pow2(12) >= 1,
            u > 0,
    ;
    lemma_product_value(of_int(pos), w);
    let va = value(product(of_int(pos), w));
    lemma_times_pos(u, pos, vp, value(w), va);
}

proof fn lemma_times_pos(u: int, n: int, v: int, w: int, a: int)
    requires
        u > 0,
        n >= 0,
        v >= 0,
        gap(n * u, v) * 0x100_0000 <= n * u,
        0x200_0000 * gap(v * w, a * u) <= 2 * gap(v * w, 0) + 0x100_0000 * u,
    ensures
        0x40_0000 * gap(a, n * w) <= n * gap(w, 0) + 0x40_0000,
{
    let (nu, vw, au) = (n * u, v * w, a * u);
    let g = gap(nu, v);
    let ww = gap(w, 0);
    let (gw, nuw) = (g * ww, nu * ww);
    assert(0x100_0000 * gw <= nuw) by (nonlinear_arith)
        requires
            g * 0x100_0000 <= nu,
            gw == g * ww,
            nuw == nu * ww,
            ww >= 0,
    ;
    let x = nu * w;
    assert(gap(x, vw) == gw) by (nonlinear_arith)
        requires
            x == nu * w,
            vw == v * w,
            gw == g * ww,
            g == gap(nu, v),
            ww == gap(w, 0),
    ;
    assert(gap(x, 0) == nuw) by (nonlinear_arith)
        requires
            x == nu * w,
            nuw == nu * ww,
            ww == gap(w, 0),
            nu >= 0,
    ;
    let k = n * ww;
    let nw = n * w;
    assert(nuw == k * u && x == nw * u) by (nonlinear_arith)
        requires
            nuw == (n * u) * ww,
            k == n * ww,
            x == (n * u) * w,
            nw == n * w,
    ;
    let d = gap(a, nw);
    assert(gap(au, nw * u) == d * u) by (nonlinear_arith)
        requires
            au == a * u,
            d == gap(a, nw),
            u > 0,
    ;
    assert(0x40_0000 * (d * u) <= k * u + 0x40_0000 * u);
    assert(0x40_0000 * d <= k + 0x40_0000) by (nonlinear_arith)
        requires
            0x40_0000 * (d * u) <= k * u + 0x40_0000 * u,
            u > 0,
    ;
}

/// The exponent of a pair, over whole numbers: `t` is minus two times its place, `h` the size
/// of a head, both near.
proof fn lemma_exponent(u: int, n: int, h: int, iu: int, t: int, e: int)
    requires
        u > 0,
        n > 0,
        iu >= 0,
        h > 0,
        gap(n * u, h) * 0x100_0000 <= n * u,
        0x40_0000 * gap(t, -2 * iu) <= 2 * iu + 0x40_0000,
        0x200_0000 * gap(e * h, t * u) <= 2 * (gap(t, 0) * u) + 0x100_0000 * h,
        u <= 2 * h,
        n * u >= u,
    ensures
        0x40_0000 * gap(e * n, -2 * iu) <= 4 * iu + 0x80_0000 * n,
{
    let (nu, eh, tu) = (n * u, e * h, t * u);
    let tt = gap(t, 0);
    let ttu = tt * u;
    assert(ttu == gap(tu, 0)) by (nonlinear_arith)
        requires
            ttu == tt * u,
            tu == t * u,
            tt == gap(t, 0),
            u > 0,
    ;
    let g = gap(nu, h);
    let ee = gap(e, 0);
    let (eg, enu) = (ee * g, ee * nu);
    assert(0x100_0000 * eg <= enu) by (nonlinear_arith)
        requires
            g * 0x100_0000 <= nu,
            eg == ee * g,
            enu == ee * nu,
            ee >= 0,
    ;
    let x = e * nu;
    assert(gap(x, eh) == eg) by (nonlinear_arith)
        requires
            x == e * nu,
            eh == e * h,
            eg == ee * g,
            g == gap(nu, h),
            ee == gap(e, 0),
    ;
    let eeh = ee * h;
    assert(eeh == gap(eh, 0)) by (nonlinear_arith)
        requires
            eeh == ee * h,
            eh == e * h,
            ee == gap(e, 0),
            h > 0,
    ;
    assert(enu <= eeh + eg) by (nonlinear_arith)
        requires
            enu == ee * nu,
            eeh == ee * h,
            eg == ee * g,
            g == gap(nu, h),
            ee >= 0,
    ;
    assert(h <= 2 * nu);
    assert(0x200_0000 * gap(x, tu) <= 5 * ttu + 0x110_0000 * nu);
    let en = e * n;
    let d = gap(en, t);
    assert(0x200_0000 * d <= 5 * tt + 0x110_0000 * n) by (nonlinear_arith)
        requires
            0x200_0000 * gap(x, tu) <= 5 * ttu + 0x110_0000 * nu,
            x == e * (n * u),
            tu == t * u,
            ttu == tt * u,
            nu == n * u,
            en == e * n,
            d == gap(en, t),
            u > 0,
    ;
}

/// A coordinate of a point about the circle is no further out than two.
proof fn lemma_coordinate(s: int, c: int, u: int)
    requires
        0x40_0000 * (s * s + c * c) <= 0x40_0001 * (u * u),
        u > 0,
    ensures
        gap(s, 0) <= 2 * u,
        gap(c, 0) <= 2 * u,
{
    let (ss, cc, uu) = (s * s, c * c, u * u);
    assert(ss >= 0 && cc >= 0 && uu >= 0) by (nonlinear_arith)
        requires
            ss == s * s,
            cc == c * c,
            uu == u * u,
    ;
    assert(ss < 4 * uu + 1 && cc < 4 * uu + 1);
    assert(gap(s, 0) <= 2 * u) by (nonlinear_arith)
        requires
            s * s < 4 * (u * u) + 1,
            u > 0,
    ;
    assert(gap(c, 0) <= 2 * u) by (nonlinear_arith)
        requires
            c * c < 4 * (u * u) + 1,
            u > 0,
    ;
}

/// A pair of numbers, turned.
#[verifier::spinoff_prover]
#[verifier::rlimit(60)]
proof fn lemma_turned_near(x0: u32, x1: u32, sc: (u32, u32))
    requires
        moderate(x0),
        moderate(x1),
        on_circle(sc),
    ensures
        ({
            let (y0, y1) = turned(x0, x1, sc);
            let (a, b, s, c) = (value(x0), value(x1), value(sc.0), value(sc.1));
            let u = pow2(149);
            &&& 0x40_0000 * gap(value(y0) * u, a * c - b * s) <= gap(a * c, 0) + gap(b * s, 0)
                + 0x80_0000 * u
            &&& 0x40_0000 * gap(value(y1) * u, a * s + b * c) <= gap(a * s, 0) + gap(b * c, 0)
                + 0x80_0000 * u
        }),
{
    let (a, b, s, c) = (value(x0), value(x1), value(sc.0), value(sc.1));
    let u = pow2(149) as int;
    lemma_pow2_pos(149);
    lemma2_to64();
    lemma_coordinate(s, c, u);
    lemma_part_near(x0, sc.1);
    lemma_part_near(x1, sc.0);
    lemma_part_near(x0, sc.0);
    lemma_part_near(x1, sc.1);
    let (p1, p2, p3, p4) = (
        product(x0, sc.1),
        product(x1, sc.0),
        product(x0, sc.0),
        product(x1, sc.1),
    );
    let n2 = negated(p2);
    assert(code(n2) == code(p2) && value(n2) == -value(p2));
    assert((-value(p2)) * u == -(value(p2) * u)) by (nonlinear_arith);
    lemma_pair_sum(p1, n2, a * c, -(b * s));
    lemma_pair_sum(p3, p4, a * s, b * c);
}

/// The sum of two products of a turned pair.
proof fn lemma_pair_sum(p: u32, q: u32, a: int, b: int)
    requires
        code(p) < INF,
        code(q) < INF,
        gap(value(p), 0) <= pow2(274),
        gap(value(q), 0) <= pow2(274),
        0x200_0000 * gap(a, value(p) * pow2(149)) <= 2 * gap(a, 0) + 0x100_0000 * pow2(149),
        0x200_0000 * gap(b, value(q) * pow2(149)) <= 2 * gap(b, 0) + 0x100_0000 * pow2(149),
    ensures
        0x40_0000 * gap(value(sum(p, q)) * pow2(149), a + b) <= gap(a, 0) + gap(b, 0) + 0x80_0000
            * pow2(149),
{
    lemma_pow2_pos(149);
    lemma2_to64();
    lemma_pow2_adds(2, 274);
    lemma_sum_near(p, q);
    lemma_two(pow2(149) as int, a, b, value(p), value(q), value(sum(p, q)));
}

/// One product of a turned pair.
proof fn lemma_part_near(x: u32, c: u32)
    requires
        moderate(x),
        code(c) < INF,
        gap(value(c), 0) <= 2 * pow2(149),
    ensures
        ({
            let p = product(x, c);
            let u = pow2(149);
            &&& code(p) < INF
            &&& 0x200_0000 * gap(value(x) * value(c), value(p) * u) <= 2 * gap(
                value(x) * value(c),
                0,
            ) + 0x100_0000 * u
            &&& gap(value(p), 0) <= pow2(274)
        }),
{
    let u = pow2(149) as int;
    lemma_pow2_pos(149);
    lemma2_to64();
    lemma_pow2_adds(6, 270);
    lemma_pow2_adds(4, 270);
    lemma_pow2_pos(270);
    let (k, l) = (magnitude(x) as int, magnitude(c) as int);
    assert(k * l <= 2 * (pow2(270) * u)) by (nonlinear_arith)
        requires
            0 <= k <= pow2(270),
            0 <= l <= 2 * u,
    ;
    assert(2 * (pow2(270) * u) <= pow2(276) * u) by (nonlinear_arith)
        requires
            pow2(276) == 64 * pow2(270),
            pow2(270) > 0,
            u > 0,
    ;
    lemma_product_value(x, c);
    lemma_size_of_product(x, c);
    let p = value(product(x, c));
    assert(gap(p, 0) <= 16 * pow2(270)) by (nonlinear_arith)
        requires
            0x200_0000 * gap(value(x) * value(c), p * u) <= 2 * (k * l) + 0x100_0000 * u,
            gap(value(x) * value(c), 0) == k * l,
            k * l <= 2 * (pow2(270) * u),
            u > 0,
            pow2(270) > 0,
    ;
}

/// The sum of two products, over whole numbers.
proof fn lemma_two(u: int, a: int, b: int, p: int, q: int, y: int)
    requires
        u > 0,
        0x200_0000 * gap(a, p * u) <= 2 * gap(a, 0) + 0x100_0000 * u,
        0x200_0000 * gap(b, q * u) <= 2 * gap(b, 0) + 0x100_0000 * u,
        gap(p + q, y) * 0x100_0000 <= gap(p + q, 0),
    ensures
        0x40_0000 * gap(y * u, a + b) <= gap(a, 0) + gap(b, 0) + 0x80_0000 * u,
{
    let (pu, qu, yu) = (p * u, q * u, y * u);
    let g = gap(p + q, y);
    let f = gap(p + q, 0);
    assert(gap(pu + qu, yu) == g * u) by (nonlinear_arith)
        requires
            pu == p * u,
            qu == q * u,
            yu == y * u,
            g == gap(p + q, y),
            u > 0,
    ;
    assert(gap(pu + qu, 0) == f * u) by (nonlinear_arith)
        requires
            pu == p * u,
            qu == q * u,
            f == gap(p + q, 0),
            u > 0,
    ;
    assert((g * u) * 0x100_0000 <= f * u) by (nonlinear_arith)
        requires
            g * 0x100_0000 <= f,
            u > 0,
    ;
}

/// A normed value, over whole numbers: `f` is one over the root `r`, `p` is `x` times `f`, and
/// `y` is `p` times `w`, rounded.
proof fn lemma_normed(u: int, x: int, f: int, r: int, p: int, w: int, y: int)
    requires
        u > 0,
        r > 0,
        f >= 0,
        gap(u * u, f * r) * 0x100_0000 <= u * u,
        0x200_0000 * gap(x * f, p * u) <= 2 * gap(x * f, 0) + 0x100_0000 * u,
        0x200_0000 * gap(p * w, y * u) <= 2 * gap(p * w, 0) + 0x100_0000 * u,
    ensures
        0x40_0000 * gap(y * u * r, x * w * u) <= gap(x * w, 0) * u + 0x40_0000 * ((gap(w, 0) + u)
            * r),
{
    // `p` times the root is `x` times one, as of a quotient.
    let (uu, fr, xf, pu) = (u * u, f * r, x * f, p * u);
    let xx = gap(x, 0);
    let g = gap(xf, pu);
    let xxf = xx * f;
    assert(gap(xf, 0) == xxf) by (nonlinear_arith)
        requires
            xf == x * f,
            xxf == xx * f,
            xx == gap(x, 0),
            f >= 0,
    ;
    let (gr, xxfr, ur) = (g * r, xxf * r, u * r);
    assert(0x200_0000 * gr <= 2 * xxfr + 0x100_0000 * ur) by (nonlinear_arith)
        requires
            0x200_0000 * g <= 2 * xxf + 0x100_0000 * u,
            gr == g * r,
            xxfr == xxf * r,
            ur == u * r,
            r > 0,
    ;
    let h = gap(uu, fr);
    let (xh, xuu) = (xx * h, xx * uu);
    assert(0x100_0000 * xh <= xuu) by (nonlinear_arith)
        requires
            h * 0x100_0000 <= uu,
            xh == xx * h,
            xuu == xx * uu,
            xx >= 0,
    ;
    assert(xxfr <= xuu + xh) by (nonlinear_arith)
        requires
            xxfr == (xx * f) * r,
            fr == f * r,
            xuu == xx * uu,
            xh == xx * h,
            h == gap(uu, fr),
            xx >= 0,
    ;
    let (pur, xfr, sxuu) = (pu * r, xf * r, x * uu);
    assert(gap(pur, xfr) == gr) by (nonlinear_arith)
        requires
            pur == pu * r,
            xfr == xf * r,
            gr == g * r,
            g == gap(xf, pu),
            r > 0,
    ;
    assert(gap(xfr, sxuu) == xh) by (nonlinear_arith)
        requires
            xfr == (x * f) * r,
            fr == f * r,
            sxuu == x * uu,
            xh == xx * h,
            h == gap(uu, fr),
            xx == gap(x, 0),
    ;
    assert(0x200_0000 * gap(pur, sxuu) <= 5 * xuu + 0x100_0000 * ur);
    let (pr, xu) = (p * r, x * u);
    let k = gap(pr, xu);
    let xxu = xx * u;
    assert(0x200_0000 * k <= 5 * xxu + 0x100_0000 * r) by (nonlinear_arith)
        requires
            0x200_0000 * gap(pur, sxuu) <= 5 * xuu + 0x100_0000 * ur,
            pur == (p * u) * r,
            sxuu == x * (u * u),
            xuu == xx * (u * u),
            ur == u * r,
            pr == p * r,
            xu == x * u,
            xxu == xx * u,
            k == gap(pr, xu),
            u > 0,
    ;
    // Times the weight.
    let (pw, yu) = (p * w, y * u);
    let ww = gap(w, 0);
    let e = gap(pw, yu);
    let (er, wk, wr, wxu) = (e * r, ww * k, ww * r, ww * xxu);
    assert(0x200_0000 * wk <= 5 * wxu + 0x100_0000 * wr) by (nonlinear_arith)
        requires
            0x200_0000 * k <= 5 * xxu + 0x100_0000 * r,
            wk == ww * k,
            wxu == ww * xxu,
            wr == ww * r,
            ww >= 0,
    ;
    let pwr = gap(pw, 0) * r;
    assert(0x200_0000 * er <= 2 * pwr + 0x100_0000 * ur) by (nonlinear_arith)
        requires
            0x200_0000 * e <= 2 * gap(pw, 0) + 0x100_0000 * u,
            er == e * r,
            pwr == gap(pw, 0) * r,
            ur == u * r,
            r > 0,
    ;
    assert(xxu == gap(xu, 0)) by (nonlinear_arith)
        requires
            xxu == xx * u,
            xu == x * u,
            xx == gap(x, 0),
            u > 0,
    ;
    assert(pwr == ww * gap(pr, 0)) by (nonlinear_arith)
        requires
            pwr == gap(pw, 0) * r,
            pw == p * w,
            pr == p * r,
            ww == gap(w, 0),
            r > 0,
    ;
    assert(ww * gap(pr, 0) <= wxu + wk) by (nonlinear_arith)
        requires
            gap(pr, 0) <= xxu + k,
            wxu == ww * xxu,
            wk == ww * k,
            ww >= 0,
    ;
    let (yur, spwr, xwu) = (yu * r, pw * r, xu * w);
    assert(gap(yur, spwr) == er) by (nonlinear_arith)
        requires
            yur == yu * r,
            spwr == pw * r,
            er == e * r,
            e == gap(pw, yu),
            r > 0,
    ;
    assert(gap(spwr, xwu) == wk) by (nonlinear_arith)
        requires
            spwr == (p * w) * r,
            pr == p * r,
            xwu == xu * w,
            wk == ww * k,
            k == gap(pr, xu),
            ww == gap(w, 0),
    ;
    assert(xwu == x * w * u) by (nonlinear_arith)
        requires
            xwu == (x * u) * w,
    ;
    assert(wxu == gap(x * w, 0) * u) by (nonlinear_arith)
        requires
            wxu == ww * (xx * u),
            ww == gap(w, 0),
            xx == gap(x, 0),
    ;
    assert((ww + u) * r == wr + ur) by (nonlinear_arith)
        requires
            wr == ww * r,
            ur == u * r,
    ;
    assert(wr >= 0 && ur >= 0 && wxu >= 0) by (nonlinear_arith)
        requires
            wr == ww * r,
            ur == u * r,
            wxu == ww * (xx * u),
            ww >= 0,
            xx >= 0,
            r > 0,
            u > 0,
    ;
}

/// The mean square and its epsilon, over whole numbers: `d` is the exact sum of squares and
/// `v` the rounded one, `k` the count as a number, `m` the mean, `e` the epsilon and `q` their
/// sum.
proof fn lemma_mean(n: int, u: int, d: int, v: int, k: int, m: int, e: int, q: int)
    requires
        1 <= n <= 0x1_0000,
        u > 0,
        d >= 0,
        k > 0,
        e >= 0x100_0000_0000,
        0x40_0000 * gap(v * u, d) <= (n + 1) * d + 0x40_0000 * (n * u),
        gap(n * u, k) * 0x100_0000 <= n * u,
        0x200_0000 * gap(m * k, v * u) <= 2 * (gap(v, 0) * u) + 0x100_0000 * k,
        gap(m + e, q) * 0x100_0000 <= gap(m + e, 0),
    ensures
        m + e > 0,
        0x40_0000 * gap(n * (q * u), d + n * (e * u)) <= (n + 8) * (d + n * (e * u)),
{
    let (vu, nu, mk) = (v * u, n * u, m * k);
    let (nd, eu) = (n * d, e * u);
    let neu = n * eu;
    let t = d + neu;
    assert((n + 1) * d == nd + d) by (nonlinear_arith)
        requires
            nd == n * d,
    ;
    assert(nd <= 0x1_0000 * d) by (nonlinear_arith)
        requires
            nd == n * d,
            n <= 0x1_0000,
            d >= 0,
    ;
    assert(0x100_0000_0000 * nu <= neu && nu > 0) by (nonlinear_arith)
        requires
            nu == n * u,
            neu == n * (e * u),
            e >= 0x100_0000_0000,
            n >= 1,
            u > 0,
    ;
    let av = gap(v, 0);
    let avu = av * u;
    assert(avu == gap(vu, 0)) by (nonlinear_arith)
        requires
            avu == av * u,
            vu == v * u,
            av == gap(v, 0),
            u > 0,
    ;
    let am = gap(m, 0);
    let g = gap(nu, k);
    let (ag, amnu, amk) = (am * g, am * nu, am * k);
    assert(0x100_0000 * ag <= amnu) by (nonlinear_arith)
        requires
            g * 0x100_0000 <= nu,
            ag == am * g,
            amnu == am * nu,
            am >= 0,
    ;
    let x = m * nu;
    assert(gap(x, mk) == ag) by (nonlinear_arith)
        requires
            x == m * nu,
            mk == m * k,
            ag == am * g,
            g == gap(nu, k),
            am == gap(m, 0),
    ;
    assert(amk == gap(mk, 0)) by (nonlinear_arith)
        requires
            amk == am * k,
            mk == m * k,
            am == gap(m, 0),
            k > 0,
    ;
    assert(amnu <= amk + ag) by (nonlinear_arith)
        requires
            amnu == am * nu,
            amk == am * k,
            ag == am * g,
            g == gap(nu, k),
            am >= 0,
    ;
    let h = gap(mk, vu);
    let f = gap(vu, d);
    assert(gap(x, d) <= ag + h + f);
    assert(avu <= d + f);
    assert(amk <= avu + h);
    assert(0x40_0000 * gap(x, d) <= nd + 3 * d + 0x100_0000 * nu);
    let y = (m + e) * nu;
    assert(y == x + neu) by (nonlinear_arith)
        requires
            y == (m + e) * nu,
            x == m * nu,
            nu == n * u,
            neu == n * (e * u),
    ;
    assert(0x40_0000 * gap(y, t) <= nd + 3 * t);
    assert(nd <= 0x1_0000 * t);
    assert(y > 0);
    assert(m + e > 0) by (nonlinear_arith)
        requires
            y == (m + e) * nu,
            y > 0,
            nu > 0,
    ;
    let z = gap(m + e, q);
    let (znu, qnu) = (z * nu, q * nu);
    assert(0x100_0000 * znu <= y) by (nonlinear_arith)
        requires
            z * 0x100_0000 <= m + e,
            znu == z * nu,
            y == (m + e) * nu,
            nu > 0,
    ;
    assert(gap(y, qnu) == znu) by (nonlinear_arith)
        requires
            y == (m + e) * nu,
            qnu == q * nu,
            znu == z * nu,
            z == gap(m + e, q),
            nu > 0,
    ;
    assert(n * (q * u) == qnu) by (nonlinear_arith)
        requires
            qnu == q * nu,
            nu == n * u,
    ;
    let nt = n * t;
    assert(nd <= nt && (n + 8) * t == nt + 8 * t) by (nonlinear_arith)
        requires
            nd == n * d,
            nt == n * t,
            d <= t,
            n >= 0,
    ;
}

/// The root of the mean square, over whole numbers.
proof fn lemma_mean_root(n: int, u: int, t: int, q: int, r: int)
    requires
        1 <= n <= 0x1_0000,
        u > 0,
        t > 0,
        q > 0,
        0x40_0000 * gap(n * (q * u), t) <= (n + 8) * t,
        0x40_0000 * gap(r * r, q * u) <= q * u,
    ensures
        0x40_0000 * gap(n * (r * r), t) <= (n + 16) * t,
{
    let (qu, rr) = (q * u, r * r);
    let g = gap(rr, qu);
    let (ng, nqu, nrr) = (n * g, n * qu, n * rr);
    assert(0x40_0000 * ng <= nqu) by (nonlinear_arith)
        requires
            0x40_0000 * g <= qu,
            ng == n * g,
            nqu == n * qu,
            n >= 0,
    ;
    assert(gap(nrr, nqu) == ng) by (nonlinear_arith)
        requires
            nrr == n * rr,
            nqu == n * qu,
            ng == n * g,
            g == gap(rr, qu),
            n >= 0,
    ;
    let nt = n * t;
    assert((n + 8) * t == nt + 8 * t && (n + 16) * t == nt + 16 * t) by (nonlinear_arith)
        requires
            nt == n * t,
    ;
    assert(nt <= 0x1_0000 * t) by (nonlinear_arith)
        requires
            nt == n * t,
            n <= 0x1_0000,
            t > 0,
    ;
}

/// The exact sum of squares is that of magnitudes.
proof fn lemma_squares(x: Seq<u32>, c: int, n: nat)
    ensures
        inner(x, c, x, c, n) == bulk(x, c, x, c, n),
        forall|p: int| c <= p < c + n ==> magnitude(#[trigger] x[p]) * magnitude(x[p]) <= bulk(x, c, x, c, n),
        0 <= bulk(x, c, x, c, n),
    decreases n,
{
    if n > 0 {
        lemma_squares(x, c, (n - 1) as nat);
        let y = x[c + n - 1];
        let k = magnitude(y) as int;
        assert((-k) * (-k) == k * k && k * k >= 0) by (nonlinear_arith);
    }
}

/// The root of the mean square of a run of numbers and an epsilon, and one over it.
proof fn lemma_norm_factor(m: MathV, x: Seq<u32>, c: int, n: nat, eps: u32)
    requires
        roots(m),
        1 <= n <= 0x1_0000,
        finite(x, c, n),
        bulk(x, c, x, c, n) <= pow2(200) * pow2(149),
        code(eps) < INF,
        !negative(eps),
        pow2(100) <= magnitude(eps) <= pow2(200),
    ensures
        ({
            let u = pow2(149) as int;
            let q = sum(quotient(dot(SIGN, x, c, x, c, n), of_int(n as int)), eps);
            let r = magnitude((m.sqrt)(q)) as int;
            let f = norm_factor(m, x, c, n, eps);
            let t = inner(x, c, x, c, n) + n * (magnitude(eps) * u);
            &&& r > 0
            &&& 0x40_0000 * gap(n * (r * r), t) <= (n + 16) * t
            &&& code(f) < INF
            &&& !negative(f)
            &&& gap(u * u, magnitude(f) * r) * 0x100_0000 <= u * u
            &&& magnitude(f) <= pow2(180)
        }),
{
    let u = pow2(149) as int;
    let b = bulk(x, c, x, c, n);
    let e = magnitude(eps) as int;
    lemma_pow2_pos(149);
    lemma_pow2_pos(200);
    lemma_pow2_pos(100);
    lemma2_to64();
    lemma_squares(x, c, n);
    lemma_pow2_adds(200, 70);
    lemma_pow2_adds(64, 6);
    lemma_pow2_adds(2, 270);
    lemma_pow2_adds(6, 270);
    lemma_pow2_pos(270);
    assert(pow2(200) * u <= pow2(270) * u) by (nonlinear_arith)
        requires
            pow2(270) == pow2(200) * pow2(70),
            pow2(70) == pow2(64) * pow2(6),
            pow2(64) >= 1,
            pow2(6) >= 1,
            u > 0,
            pow2(200) > 0,
    ;
    lemma_dot_near(SIGN, x, c, x, c, n);
    let d = dot(SIGN, x, c, x, c, n);
    lemma_int_value(n as int);
    let nn = of_int(n as int);
    let k = magnitude(nn) as int;
    let v = value(d);
    // The sum of squares is not large.
    assert((n + 1) * b <= 0x2_0000 * b && n * u <= 0x1_0000 * u) by (nonlinear_arith)
        requires
            1 <= n <= 0x1_0000,
            b >= 0,
            u > 0,
    ;
    let dm = magnitude(d) as int;
    assert(gap(v * u, 0) == dm * u) by (nonlinear_arith)
        requires
            v == dm || v == -dm,
            dm >= 0,
            u > 0,
    ;
    lemma_pow2_adds(64, 36);
    lemma_pow2_adds(100, 100);
    lemma_pow2_pos(36);
    assert(pow2(100) >= 0x100_0000_0000_0000) by (nonlinear_arith)
        requires
            pow2(100) == pow2(64) * pow2(36),
            pow2(64) == 0x1_0000_0000_0000_0000,
            pow2(36) >= 1,
    ;
    assert(pow2(200) >= pow2(100)) by (nonlinear_arith)
        requires
            pow2(200) == pow2(100) * pow2(100),
            pow2(100) >= 1,
    ;
    assert(dm <= 2 * pow2(200)) by (nonlinear_arith)
        requires
            0x40_0000 * (dm * u) <= 0x42_0000 * b + 0x40_0000 * (0x1_0000 * u),
            b <= pow2(200) * u,
            pow2(200) >= 0x10_0000,
            u > 0,
    ;
    lemma_pow2_adds(200, 76);
    lemma_pow2_adds(64, 12);
    assert(dm * u <= pow2(276) * k) by (nonlinear_arith)
        requires
            dm <= 2 * pow2(200),
            2 * k >= u,
            pow2(276) == pow2(200) * pow2(76),
            pow2(76) == pow2(64) * pow2(12),
            pow2(64) >= 4,
            pow2(12) >= 1,
            pow2(200) > 0,
            u > 0,
    ;
    lemma_quotient_value(d, nn);
    let mean = quotient(d, nn);
    let mv = value(mean);
    let mm = magnitude(mean) as int;
    assert(gap(mv * k, 0) == mm * k) by (nonlinear_arith)
        requires
            mv == mm || mv == -mm,
            mm >= 0,
            k > 0,
    ;
    assert(gap(v, 0) == dm);
    assert(mm <= 8 * pow2(200)) by (nonlinear_arith)
        requires
            0x200_0000 * (mm * k) <= 0x200_0002 * (dm * u) + 0x100_0000 * k,
            dm <= 2 * pow2(200),
            2 * k >= u,
            k > 0,
            u > 0,
            pow2(200) >= 1,
    ;
    assert(pow2(276) >= 16 * pow2(200)) by (nonlinear_arith)
        requires
            pow2(276) == pow2(200) * pow2(76),
            pow2(76) == pow2(64) * pow2(12),
            pow2(64) >= 16,
            pow2(12) >= 1,
            pow2(200) > 0,
    ;
    assert(value(eps) == e);
    lemma_sum_near(mean, eps);
    let q = sum(mean, eps);
    let qv = value(q);
    let t = b + n * (e * u);
    lemma_mean(n as int, u, b, v, k, mv, e, qv);
    assert(n * (e * u) > 0) by (nonlinear_arith)
        requires
            n >= 1,
            e >= 1,
            u > 0,
    ;
    assert(!negative(q));
    assert(qv == magnitude(q));
    lemma_pow2_pos(23);
    assert(mag(0, 23) == 0);
    assert(qv > 0);
    assert(code(q) > 0);
    let root = (m.sqrt)(q);
    let r = magnitude(root) as int;
    assert(0 < code(root) < INF);
    lemma_mag_grows(0, code(root), 23);
    lemma_mean_root(n as int, u, t, qv, r);
    // How large the root is.
    assert(2 * qv >= e) by (nonlinear_arith)
        requires
            0x40_0000 * gap(n * (qv * u), t) <= (n + 8) * t,
            t >= n * (e * u),
            n <= 0x1_0000,
            n >= 1,
            u > 0,
            t > 0,
    ;
    assert(qv <= 32 * pow2(200));
    lemma_factor_range(u, e, qv, r);
    lemma_mag_at(126, 0x80_0000, 23);
    lemma_pow2_adds(23, 126);
    assert(magnitude(ONE) == u);
    lemma_quotient_near(ONE, root);
    let z = magnitude(quotient(ONE, root)) as int;
    lemma_factor_small(u, r, z);
}

/// How large the root of a mean square is.
proof fn lemma_factor_range(u: int, e: int, q: int, r: int)
    requires
        u == pow2(149),
        e >= pow2(100),
        2 * q >= e,
        q <= 32 * pow2(200),
        r > 0,
        0x40_0000 * gap(r * r, q * u) <= q * u,
    ensures
        r >= pow2(122),
        u * u <= pow2(276) * r,
        u * u >= 0x80_0000 * r,
{
    lemma2_to64();
    lemma_pow2_pos(149);
    lemma_pow2_pos(122);
    lemma_pow2_pos(100);
    lemma_pow2_pos(200);
    lemma_pow2_adds(122, 122);
    lemma_pow2_adds(100, 149);
    lemma_pow2_adds(5, 244);
    lemma_pow2_pos(244);
    let qu = q * u;
    let rr = r * r;
    assert(2 * qu >= pow2(249)) by (nonlinear_arith)
        requires
            2 * q >= pow2(100),
            qu == q * u,
            pow2(249) == pow2(100) * u,
            u > 0,
    ;
    assert(rr >= pow2(244));
    assert(r >= pow2(122)) by (nonlinear_arith)
        requires
            r * r >= pow2(122) * pow2(122),
            r > 0,
            pow2(122) > 0,
    ;
    lemma_pow2_adds(149, 149);
    lemma_pow2_adds(276, 122);
    lemma_pow2_adds(298, 100);
    let uu = u * u;
    assert(uu <= pow2(276) * r) by (nonlinear_arith)
        requires
            uu == pow2(298),
            r >= pow2(122),
            pow2(276) * pow2(122) == pow2(298) * pow2(100),
            pow2(100) >= 1,
            pow2(276) >= 0,
            pow2(298) >= 0,
    ;
    lemma_pow2_adds(200, 149);
    lemma_pow2_adds(6, 349);
    lemma_pow2_adds(180, 180);
    lemma_pow2_adds(355, 5);
    lemma_pow2_pos(355);
    lemma_pow2_pos(180);
    assert(qu <= 32 * pow2(349)) by (nonlinear_arith)
        requires
            q <= 32 * pow2(200),
            qu == q * u,
            pow2(349) == pow2(200) * u,
            u > 0,
    ;
    assert(rr <= pow2(360));
    assert(r <= pow2(180)) by (nonlinear_arith)
        requires
            r * r <= pow2(180) * pow2(180),
            r > 0,
            pow2(180) > 0,
    ;
    lemma_pow2_adds(180, 118);
    lemma_pow2_adds(32, 86);
    lemma_pow2_pos(86);
    assert(uu >= 0x80_0000 * r) by (nonlinear_arith)
        requires
            uu == pow2(180) * pow2(118),
            pow2(118) == pow2(32) * pow2(86),
            pow2(32) == 0x1_0000_0000,
            pow2(86) >= 1,
            r <= pow2(180),
            pow2(180) > 0,
    ;
}

/// How large one over the root of a mean square is.
proof fn lemma_factor_small(u: int, r: int, z: int)
    requires
        u == pow2(149),
        r >= pow2(122),
        z >= 0,
        gap(u * u, z * r) * 0x100_0000 <= u * u,
    ensures
        z <= pow2(180),
{
    lemma2_to64();
    lemma_pow2_pos(122);
    lemma_pow2_pos(180);
    lemma_pow2_adds(149, 149);
    lemma_pow2_adds(122, 180);
    lemma_pow2_adds(4, 298);
    lemma_pow2_pos(298);
    assert(z * r <= 2 * pow2(298));
    assert(z <= pow2(180)) by (nonlinear_arith)
        requires
            z * r <= 2 * pow2(298),
            r >= pow2(122),
            pow2(122) * pow2(180) == 16 * pow2(298),
            pow2(122) > 0,
            pow2(180) > 0,
            pow2(298) > 0,
            z >= 0,
    ;
}

/// Whether `r` is the root of the mean of `n` squares that add up to `d`, and `e`, up to
/// rounding.
pub open spec fn is_mean_root(r: int, n: int, d: int, e: int) -> bool {
    let t = d + n * (e * pow2(149));
    r > 0 && 0x40_0000 * gap(n * (r * r), t) <= (n + 16) * t
}

/// A normed value: times the root of the mean of the squares of its run of `unit` numbers and
/// the epsilon, each number is the number that was, times its weight, up to rounding. Each
/// run has the same weights.
pub proof fn law_norming_is_near(
    m: MathV,
    x: ArrayV,
    w: Seq<u32>,
    eps: u32,
    unit: nat,
    c: int,
    j: int,
)
    requires
        roots(m),
        1 <= unit <= 0x1_0000,
        0 <= c,
        0 <= j < unit,
        (c + 1) * unit <= x.data.len(),
        finite(x.data, c * unit, unit),
        bulk(x.data, c * unit, x.data, c * unit, unit) <= pow2(200) * pow2(149),
        code(eps) < INF,
        !negative(eps),
        pow2(100) <= magnitude(eps) <= pow2(200),
        code(w[j]) < INF,
        magnitude(w[j]) <= pow2(200),
    ensures
        ({
            let out = rmsnorm_of(m, x, w, eps, unit);
            let y = out.data[c * unit + j];
            let u = pow2(149);
            let (a, b) = (value(x.data[c * unit + j]), value(w[j]));
            &&& out.shape == x.shape
            &&& code(y) < INF
            &&& exists|r: int| #[trigger]
                is_mean_root(
                    r,
                    unit as int,
                    inner(x.data, c * unit, x.data, c * unit, unit),
                    magnitude(eps) as int,
                ) && 0x40_0000 * gap(value(y) * u * r, a * b * u) <= gap(a * b, 0) * u + 0x40_0000
                    * ((gap(b, 0) + u) * r)
        }),
{
    let u = pow2(149) as int;
    let at = c * unit;
    let p = at + j;
    lemma_norm_factor(m, x.data, at, unit, eps);
    let q = sum(quotient(dot(SIGN, x.data, at, x.data, at, unit), of_int(unit as int)), eps);
    let r = magnitude((m.sqrt)(q)) as int;
    let f = norm_factor(m, x.data, at, unit, eps);
    assert(is_mean_root(
        r,
        unit as int,
        inner(x.data, at, x.data, at, unit),
        magnitude(eps) as int,
    ));
    vstd::arithmetic::div_mod::lemma_fundamental_div_mod_converse(p, unit as int, c, j);
    let total = x.data.len();
    assert(p < total / unit * unit) by {
        vstd::arithmetic::div_mod::lemma_fundamental_div_mod(total as int, unit as int);
        vstd::arithmetic::div_mod::lemma_mod_bound(total as int, unit as int);
        let k = total / unit;
        assert(unit * (k + 1) == unit * k + unit) by (nonlinear_arith);
        assert(c + 1 <= k) by (nonlinear_arith)
            requires
                (c + 1) * unit <= total,
                total < unit * (k + 1),
                unit > 0,
        ;
        assert(p < k * unit) by (nonlinear_arith)
            requires
                p == c * unit + j,
                j < unit,
                c + 1 <= k,
        ;
    }
    assert(0 <= p) by (nonlinear_arith)
        requires
            p == c * unit + j,
            0 <= c,
            0 <= j,
    ;
    let a = x.data[p];
    let b = w[j];
    lemma_squares(x.data, at, unit);
    let am = magnitude(a) as int;
    lemma_pow2_pos(149);
    lemma_pow2_pos(200);
    lemma_pow2_pos(180);
    lemma2_to64();
    lemma_pow2_adds(175, 175);
    lemma_pow2_adds(200, 149);
    lemma_pow2_adds(1, 349);
    lemma_pow2_pos(175);
    lemma_pow2_pos(349);
    assert(am * am <= pow2(349));
    assert(am <= pow2(175)) by (nonlinear_arith)
        requires
            am * am <= pow2(175) * pow2(175),
            am >= 0,
            pow2(175) > 0,
    ;
    let fm = magnitude(f) as int;
    lemma_pow2_adds(175, 180);
    lemma_pow2_adds(276, 149);
    lemma_pow2_adds(355, 70);
    lemma_pow2_pos(70);
    lemma_pow2_pos(355);
    assert(am * fm <= pow2(355)) by (nonlinear_arith)
        requires
            0 <= am <= pow2(175),
            0 <= fm <= pow2(180),
            pow2(175) * pow2(180) == pow2(355),
    ;
    assert(pow2(355) <= pow2(276) * u) by (nonlinear_arith)
        requires
            pow2(276) * u == pow2(355) * pow2(70),
            pow2(70) >= 1,
            pow2(355) > 0,
    ;
    lemma_product_value(a, f);
    let p1 = product(a, f);
    let pm = magnitude(p1) as int;
    lemma_size_of_product(a, f);
    assert(gap(value(p1) * u, 0) == pm * u) by (nonlinear_arith)
        requires
            value(p1) == pm || value(p1) == -pm,
            pm >= 0,
            u > 0,
    ;
    lemma_pow2_adds(206, 149);
    lemma_pow2_pos(206);
    assert(pm <= 4 * pow2(206)) by (nonlinear_arith)
        requires
            0x200_0000 * (pm * u) <= 0x200_0002 * (am * fm) + 0x100_0000 * u,
            am * fm <= pow2(206) * u,
            pow2(206) >= 1,
            u > 0,
    ;
    let bm = magnitude(b) as int;
    lemma_pow2_adds(206, 200);
    lemma_pow2_adds(406, 19);
    lemma_pow2_pos(406);
    assert(pm * bm <= pow2(276) * u) by (nonlinear_arith)
        requires
            0 <= pm <= 4 * pow2(206),
            0 <= bm <= pow2(200),
            pow2(206) * pow2(200) == pow2(406),
            pow2(276) * u == pow2(406) * pow2(19),
            pow2(19) >= 4,
            pow2(406) > 0,
    ;
    lemma_product_value(p1, b);
    assert(value(f) == fm);
    lemma_normed(u, value(a), fm, r, value(p1), value(b), value(product(p1, b)));
}

} // verus!
