//! What attention is: every visible value, weighed by the exponential of how its key matches
//! the query, which is their exact product over the root of the size of a head, up to
//! rounding, less the largest of these.

use vstd::arithmetic::power2::{lemma2_to64, lemma_pow2_adds, lemma_pow2_pos, pow2};
use vstd::prelude::*;

use crate::float::error::{lemma_int_near, lemma_product_value, lemma_quotient_near, lemma_sum_near};
use crate::float::round::{gap, lemma_mag_at, lemma_mag_grows, mag};
use crate::float::single::{
    code, magnitude, negated, negative, of_int, quotient, sum, value, INF, SIGN,
};
use crate::formats::roundtrip_q4k::lemma_order_value;
use crate::graph::dots::{bulk, finite, inner, lemma_dot_near, lemma_inner_bulk};
use crate::graph::mean::{fades, law_result_is_the_mean, lemma_best, sizes, weighted};
use crate::graph::ops::{attention_of, dot, Attended, MathV, ONE};

verus! {

/// Whether roots are accurate: the square of the root of a number above zero is the number, up
/// to one part in `2^22`.
pub open spec fn roots(m: MathV) -> bool {
    forall|x: u32|
        0 < code(x) < INF && !negative(x) ==> {
            let r = #[trigger] (m.sqrt)(x);
            &&& 0 < code(r) < INF
            &&& !negative(r)
            &&& 0x40_0000 * gap(
                (magnitude(r) * magnitude(r)) as int,
                (magnitude(x) * pow2(149)) as int,
            ) <= magnitude(x) * pow2(149)
        }
}

/// Whether `r` is the root of `n`, up to one part in `2^20` of its square.
pub open spec fn is_root(r: int, n: int) -> bool {
    r > 0 && 0x10_0000 * gap(r * r, n * (pow2(149) * pow2(149))) <= n * (pow2(149) * pow2(149))
}

/// The root of the size of a head.
proof fn lemma_root(m: MathV, n: int)
    requires
        roots(m),
        1 <= n <= 0x1_0000,
    ensures
        ({
            let x = (m.sqrt)(of_int(n));
            let r = magnitude(x) as int;
            let u = pow2(149) as int;
            &&& 0 < code(x) < INF
            &&& !negative(x)
            &&& is_root(r, n)
            &&& u <= 2 * r
            &&& r <= 2 * (n * u)
        }),
{
    let u = pow2(149) as int;
    lemma_pow2_pos(149);
    lemma_int_near(n);
    let x = of_int(n);
    let i = magnitude(x) as int;
    let nu = n * u;
    assert(nu >= u) by (nonlinear_arith)
        requires
            nu == n * u,
            n >= 1,
            u > 0,
    ;
    assert(gap(n, 0) == n);
    lemma_pow2_pos(23);
    assert(mag(0, 23) == 0);
    assert(code(x) > 0);
    let r = magnitude((m.sqrt)(x)) as int;
    assert(!negative(x));
    assert(0 < code((m.sqrt)(x)) < INF);
    lemma_mag_grows(0, code((m.sqrt)(x)), 23);
    let (iu, nuu, rr) = (i * u, n * (u * u), r * r);
    let nu2 = nu * u;
    assert(nu2 == nuu) by (nonlinear_arith)
        requires
            nu2 == nu * u,
            nu == n * u,
            nuu == n * (u * u),
    ;
    let g = gap(nu, i);
    let gu = g * u;
    assert(gap(nu2, iu) == gu) by (nonlinear_arith)
        requires
            nu2 == nu * u,
            iu == i * u,
            gu == g * u,
            g == gap(nu, i),
            u > 0,
    ;
    assert(0x100_0000 * gu <= nu2) by (nonlinear_arith)
        requires
            0x100_0000 * g <= nu,
            gu == g * u,
            nu2 == nu * u,
            u > 0,
    ;
    assert(0x40_0000 * gap(rr, iu) <= iu);
    assert(gap(rr, nuu) <= gap(rr, iu) + gu);
    assert(iu <= 2 * nuu);
    assert(0x10_0000 * gap(rr, nuu) <= nuu);
    assert(u <= 2 * r) by (nonlinear_arith)
        requires
            0x10_0000 * (nuu - r * r) <= nuu,
            nuu == nu * u,
            nu >= u,
            u > 0,
            r >= 0,
    ;
    assert(r <= 2 * nu) by (nonlinear_arith)
        requires
            0x10_0000 * (r * r - nuu) <= nuu,
            nuu == nu * u,
            nu >= u,
            u > 0,
            r >= 0,
    ;
}

/// A score times the root, over whole numbers: `v` is the rounded sum of products and `d` the
/// exact one, `a` the sum of magnitudes, `z` one over the root `r`, `s` the score.
proof fn lemma_scaled(n: int, u: int, a: int, d: int, v: int, r: int, z: int, s: int)
    requires
        1 <= n <= 0x10_0000,
        u > 0,
        a >= 0,
        r > 0,
        z >= 0,
        gap(d, 0) <= a,
        r <= 2 * (n * u),
        0x40_0000 * gap(v * u, d) <= (n + 1) * a + 0x40_0000 * (n * u),
        gap(u * u, z * r) * 0x100_0000 <= u * u,
        0x200_0000 * gap(v * z, s * u) <= 2 * gap(v * z, 0) + 0x100_0000 * u,
    ensures
        0x40_0000 * gap(s * r, d) <= (n + 4) * a + 0xC0_0000 * (n * u),
{
    let (uu, zr, vz, su, vu) = (u * u, z * r, v * z, s * u, v * u);
    // The score times the root, against the sum times one over the root times the root.
    let g = gap(vz, su);
    let av = gap(v, 0);
    let avz = av * z;
    assert(gap(vz, 0) == avz) by (nonlinear_arith)
        requires
            vz == v * z,
            avz == av * z,
            av == gap(v, 0),
            z >= 0,
    ;
    let (gr, avzr, ur) = (g * r, avz * r, u * r);
    assert(0x200_0000 * gr <= 2 * avzr + 0x100_0000 * ur) by (nonlinear_arith)
        requires
            0x200_0000 * g <= 2 * avz + 0x100_0000 * u,
            gr == g * r,
            avzr == avz * r,
            ur == u * r,
            r > 0,
    ;
    let (vzr, sur) = (vz * r, su * r);
    assert(gap(vzr, sur) == gr) by (nonlinear_arith)
        requires
            vzr == vz * r,
            sur == su * r,
            gr == g * r,
            g == gap(vz, su),
            r > 0,
    ;
    let h = gap(uu, zr);
    let (avh, avuu) = (av * h, av * uu);
    assert(0x100_0000 * avh <= avuu) by (nonlinear_arith)
        requires
            h * 0x100_0000 <= uu,
            avh == av * h,
            avuu == av * uu,
            av >= 0,
    ;
    let vuu = v * uu;
    assert(gap(vzr, vuu) == avh) by (nonlinear_arith)
        requires
            vzr == (v * z) * r,
            zr == z * r,
            vuu == v * uu,
            avh == av * h,
            h == gap(uu, zr),
            av == gap(v, 0),
    ;
    assert(avzr <= avuu + avh) by (nonlinear_arith)
        requires
            avzr == (av * z) * r,
            zr == z * r,
            avuu == av * uu,
            avh == av * h,
            h == gap(uu, zr),
            av >= 0,
    ;
    assert(gap(sur, vuu) <= gr + avh);
    assert(0x200_0000 * gap(sur, vuu) <= 5 * avuu + 0x100_0000 * ur);
    // Over one.
    let (sr, avu) = (s * r, av * u);
    let k = gap(sr, vu);
    assert(0x200_0000 * k <= 5 * avu + 0x100_0000 * r) by (nonlinear_arith)
        requires
            0x200_0000 * gap(sur, vuu) <= 5 * avuu + 0x100_0000 * ur,
            sur == (s * u) * r,
            sr == s * r,
            vuu == v * (u * u),
            vu == v * u,
            avuu == av * (u * u),
            avu == av * u,
            ur == u * r,
            k == gap(sr, vu),
            u > 0,
    ;
    assert(avu == gap(vu, 0)) by (nonlinear_arith)
        requires
            avu == av * u,
            vu == v * u,
            av == gap(v, 0),
            u > 0,
    ;
    let (na, nu) = (n * a, n * u);
    assert((n + 1) * a == na + a && (n + 4) * a == na + 4 * a) by (nonlinear_arith)
        requires
            na == n * a,
    ;
    assert(na <= 0x10_0000 * a) by (nonlinear_arith)
        requires
            na == n * a,
            n <= 0x10_0000,
            a >= 0,
    ;
    assert(nu > 0) by (nonlinear_arith)
        requires
            nu == n * u,
            n >= 1,
            u > 0,
    ;
    let e = gap(vu, d);
    assert(avu <= a + e);
    assert(gap(sr, d) <= k + e);
}

/// A score is finite, and times the root of the size of a head it is the exact product of
/// query and key, up to rounding.
pub proof fn lemma_score(m: MathV, a: Attended, s: int, h: int, t: int)
    requires
        roots(m),
        1 <= a.head_dim <= 0x1_0000,
        finite(a.q, a.query(s, h), a.head_dim as nat),
        finite(a.k, a.cached(t, h), a.head_dim as nat),
        bulk(a.q, a.query(s, h), a.k, a.cached(t, h), a.head_dim as nat) <= pow2(270) * pow2(149),
    ensures
        ({
            let n = a.head_dim;
            let r = magnitude((m.sqrt)(of_int(n))) as int;
            let u = pow2(149);
            let x = a.score(m, s, h, t);
            let (i, j) = (a.query(s, h), a.cached(t, h));
            &&& code(x) < INF
            &&& is_root(r, n)
            &&& 0x40_0000 * gap(value(x) * r, inner(a.q, i, a.k, j, n as nat)) <= (n + 4) * bulk(
                a.q,
                i,
                a.k,
                j,
                n as nat,
            ) + 0xC0_0000 * (n * u)
        }),
{
    let n = a.head_dim;
    let u = pow2(149) as int;
    let (i, j) = (a.query(s, h), a.cached(t, h));
    lemma_pow2_pos(149);
    lemma_pow2_pos(272);
    lemma_pow2_pos(276);
    lemma_pow2_pos(127);
    lemma2_to64();
    lemma_root(m, n);
    lemma_dot_near(SIGN, a.q, i, a.k, j, n as nat);
    lemma_inner_bulk(a.q, i, a.k, j, n as nat);
    let root = (m.sqrt)(of_int(n));
    let r = magnitude(root) as int;
    let d = dot(SIGN, a.q, i, a.k, j, n as nat);
    lemma_mag_at(126, 0x80_0000, 23);
    lemma_pow2_adds(23, 126);
    lemma_pow2_adds(127, 149);
    lemma_pow2_adds(64, 63);
    lemma_pow2_pos(63);
    lemma_pow2_adds(32, 9);
    lemma_pow2_adds(41, 108);
    lemma_pow2_pos(108);
    assert(magnitude(ONE) == u);
    assert(u * u <= pow2(276) * r) by (nonlinear_arith)
        requires
            u <= 2 * r,
            pow2(276) == pow2(127) * u,
            pow2(127) >= 2,
            u > 0,
            r > 0,
    ;
    assert(u * u >= 0x80_0000 * r) by (nonlinear_arith)
        requires
            r <= 2 * (n * u),
            n <= 0x1_0000,
            u == pow2(41) * pow2(108),
            pow2(41) == 0x200_0000_0000,
            pow2(108) >= 1,
            u > 0,
    ;
    lemma_quotient_near(ONE, root);
    let inv = quotient(ONE, root);
    let z = magnitude(inv) as int;
    assert(z <= 4 * u) by (nonlinear_arith)
        requires
            gap(u * u, z * r) * 0x100_0000 <= u * u,
            u <= 2 * r,
            u > 0,
            z >= 0,
    ;
    lemma_pow2_adds(4, 272);
    assert(magnitude(d) * z <= pow2(276) * u) by (nonlinear_arith)
        requires
            magnitude(d) <= pow2(272),
            0 <= z <= 4 * u,
            pow2(276) == 16 * pow2(272),
            u > 0,
    ;
    lemma_product_value(d, inv);
    assert(value(inv) == z);
    lemma_scaled(
        n,
        u,
        bulk(a.q, i, a.k, j, n as nat),
        inner(a.q, i, a.k, j, n as nat),
        value(d),
        r,
        z,
        value(a.score(m, s, h, t)),
    );
}

/// Where numbers of a row of heads stand: `rows` rows of `heads` heads of `dim` numbers.
pub open spec fn place_in(heads: int, dim: int, row: int, head: int) -> int {
    row * (heads * dim) + head * dim
}

/// Whether numbers are weights of a row: exponentials of scores less the largest of them,
/// where a score times the root `r` of the size of a head is the exact product of the query
/// with the key, up to rounding.
pub open spec fn weighs(
    m: MathV,
    a: Attended,
    s: int,
    h: int,
    n: nat,
    r: int,
    sc: Seq<u32>,
    z: Seq<u32>,
    top: int,
) -> bool {
    let hd = a.head_dim;
    let g = h / (a.n_heads / a.n_kv_heads);
    let i = place_in(a.n_heads, hd, s, h);
    &&& is_root(r, hd)
    &&& sc.len() == n
    &&& z.len() == n
    &&& 0 <= top < n
    &&& forall|t: int|
        0 <= t < n ==> {
            let j = place_in(a.n_kv_heads, hd, t, g);
            &&& code(#[trigger] sc[t]) < INF
            &&& value(sc[t]) <= value(sc[top])
            &&& 0x40_0000 * gap(value(sc[t]) * r, inner(a.q, i, a.k, j, hd as nat)) <= (hd + 4)
                * bulk(a.q, i, a.k, j, hd as nat) + 0xC0_0000 * (hd * pow2(149))
        }
    &&& forall|t: int|
        0 <= t < n ==> gap(value(sc[t]) - value(sc[top]), value(#[trigger] z[t])) * 0x100_0000
            <= value(sc[top]) - value(sc[t])
}

/// The sum of the first `n` weights.
pub open spec fn weight_sum(m: MathV, z: Seq<u32>, n: nat) -> int
    decreases n,
{
    if n == 0 {
        0
    } else {
        weight_sum(m, z, (n - 1) as nat) + magnitude((m.exp)(z[n - 1]))
    }
}

/// The sum of the first `n` weights, each times the number of its row at place `c`.
pub open spec fn weighed_sum(m: MathV, z: Seq<u32>, v: Seq<u32>, width: int, c: int, n: nat) -> int
    decreases n,
{
    if n == 0 {
        0
    } else {
        weighed_sum(m, z, v, width, c, (n - 1) as nat) + magnitude((m.exp)(z[n - 1])) * value(
            v[(n - 1) * width + c],
        )
    }
}

proof fn lemma_sums(m: MathV, a: Attended, s: int, h: int, d: int, z: Seq<u32>, n: nat)
    requires
        n <= z.len(),
        forall|t: int| 0 <= t < n ==> (m.exp)(#[trigger] z[t]) == a.raw(m, s, h, t),
    ensures
        weight_sum(m, z, n) == sizes(|t: int| a.raw(m, s, h, t), n),
        weighed_sum(
            m,
            z,
            a.v,
            a.n_kv_heads * a.head_dim,
            h / (a.n_heads / a.n_kv_heads) * a.head_dim + d,
            n,
        ) == weighted(|t: int| a.raw(m, s, h, t), |t: int| a.v[a.cached(t, h) + d], n),
    decreases n,
{
    if n > 0 {
        lemma_sums(m, a, s, h, d, z, (n - 1) as nat);
        assert((m.exp)(z[n - 1]) == a.raw(m, s, h, n - 1));
        assert((n - 1) * (a.n_kv_heads * a.head_dim) + (h / (a.n_heads / a.n_kv_heads) * a.head_dim
            + d) == a.cached(n - 1, h) + d);
    }
}

/// Attention, for every row, head and place: there are weights, the exponentials of scores
/// less the largest of them, where each score is the exact product of the query with a key
/// over the root of the size of a head, up to rounding; and the result times the sum of the
/// weights is the sum of the visible values, each times its weight, up to rounding. A row
/// sees its own position and those before it, and a head reads the key head of its group.
#[verifier::rlimit(60)]
pub proof fn law_attention_is_softmax(
    m: MathV,
    a: Attended,
    rows: usize,
    s: int,
    h: int,
    d: int,
    w: int,
)
    requires
        roots(m),
        fades(m),
        1 <= a.head_dim <= 0x1_0000,
        1 <= a.n_kv_heads <= a.n_heads,
        0 <= s < rows,
        0 <= h < a.n_heads,
        0 <= d < a.head_dim,
        0 <= a.pos_off,
        a.pos_off + s + 1 <= 0x10_0000,
        rows * (a.n_heads * a.head_dim) <= usize::MAX,
        w <= pow2(270),
        finite(a.q, place_in(a.n_heads, a.head_dim, s, h), a.head_dim as nat),
        forall|t: int|
            0 <= t <= a.pos_off + s ==> {
                let j = #[trigger] place_in(
                    a.n_kv_heads,
                    a.head_dim,
                    t,
                    h / (a.n_heads / a.n_kv_heads),
                );
                &&& finite(a.k, j, a.head_dim as nat)
                &&& bulk(
                    a.q,
                    place_in(a.n_heads, a.head_dim, s, h),
                    a.k,
                    j,
                    a.head_dim as nat,
                ) <= pow2(270) * pow2(149)
                &&& code(a.v[j + d]) < INF
                &&& gap(value(a.v[j + d]), 0) <= w
            },
    ensures
        ({
            let n = (a.pos_off + s + 1) as nat;
            let y = attention_of(m, a, rows).data[place_in(a.n_heads, a.head_dim, s, h) + d];
            let g = h / (a.n_heads / a.n_kv_heads);
            let c = g * a.head_dim + d;
            exists|r: int, sc: Seq<u32>, z: Seq<u32>, top: int| #[trigger]
                weighs(m, a, s, h, n, r, sc, z, top) && code(y) < INF && pow2(149) <= weight_sum(
                    m,
                    z,
                    n,
                ) && 0x20_0000 * gap(
                    value(y) * weight_sum(m, z, n),
                    weighed_sum(m, z, a.v, a.n_kv_heads * a.head_dim, c, n),
                ) <= (n * w + 0x20_0000 * n) * weight_sum(m, z, n)
        }),
{
    let n = (a.pos_off + s + 1) as nat;
    let hd = a.head_dim;
    let g = h / (a.n_heads / a.n_kv_heads);
    let r = magnitude((m.sqrt)(of_int(hd))) as int;
    let sc = Seq::new(n, |t: int| a.score(m, s, h, t));
    let best = a.best(m, s, h, n);
    let z = Seq::new(n, |t: int| sum(sc[t], negated(best)));
    assert(place_in(a.n_heads, hd, s, h) == a.query(s, h));
    assert forall|t: int| 0 <= t < n implies code(#[trigger] a.score(m, s, h, t)) < INF && is_root(
        r,
        hd,
    ) && 0x40_0000 * gap(
        value(a.score(m, s, h, t)) * r,
        inner(a.q, a.query(s, h), a.k, a.cached(t, h), hd as nat),
    ) <= (hd + 4) * bulk(a.q, a.query(s, h), a.k, a.cached(t, h), hd as nat) + 0xC0_0000 * (hd
        * pow2(149)) && magnitude(a.score(m, s, h, t)) <= pow2(275) by {
        assert(place_in(a.n_kv_heads, hd, t, g) == a.cached(t, h));
        lemma_score(m, a, s, h, t);
        lemma_score_small(m, a, s, h, t);
    }
    lemma_best(m, a, s, h, n);
    let top = choose|t: int| 0 <= t < n && best == #[trigger] a.score(m, s, h, t);
    assert(sc[top] == best);
    lemma2_to64();
    lemma_pow2_adds(1, 275);
    assert forall|t: int| 0 <= t < n implies ({
        let j = place_in(a.n_kv_heads, hd, t, g);
        &&& code(#[trigger] sc[t]) < INF
        &&& value(sc[t]) <= value(sc[top])
        &&& 0x40_0000 * gap(
            value(sc[t]) * r,
            inner(a.q, place_in(a.n_heads, hd, s, h), a.k, j, hd as nat),
        ) <= (hd + 4) * bulk(a.q, place_in(a.n_heads, hd, s, h), a.k, j, hd as nat) + 0xC0_0000 * (hd
            * pow2(149))
    }) by {
        assert(sc[t] == a.score(m, s, h, t));
        assert(place_in(a.n_kv_heads, hd, t, g) == a.cached(t, h));
        lemma_order_value(sc[t], best);
    }
    assert forall|t: int| 0 <= t < n implies gap(
        value(sc[t]) - value(sc[top]),
        value(#[trigger] z[t]),
    ) * 0x100_0000 <= value(sc[top]) - value(sc[t]) by {
        assert(sc[t] == a.score(m, s, h, t));
        assert(code(negated(best)) == code(best) && value(negated(best)) == -value(best));
        lemma_order_value(sc[t], best);
        lemma_sum_near(sc[t], negated(best));
    }
    assert(weighs(m, a, s, h, n, r, sc, z, top));
    assert forall|t: int| 0 <= t < a.visible(s) implies {
        let v = a.v[#[trigger] a.cached(t, h) + d];
        code(v) < INF && gap(value(v), 0) <= w
    } by {
        assert(place_in(a.n_kv_heads, hd, t, g) == a.cached(t, h));
    }
    law_result_is_the_mean(m, a, s, h, d, w);
    assert forall|t: int| 0 <= t < n implies (m.exp)(#[trigger] z[t]) == a.raw(m, s, h, t) by {
        assert(sc[t] == a.score(m, s, h, t));
    }
    lemma_sums(m, a, s, h, d, z, n);
    lemma_place(a, rows, s, h, d);
}

/// A score is not large.
proof fn lemma_score_small(m: MathV, a: Attended, s: int, h: int, t: int)
    requires
        roots(m),
        1 <= a.head_dim <= 0x1_0000,
        finite(a.q, a.query(s, h), a.head_dim as nat),
        finite(a.k, a.cached(t, h), a.head_dim as nat),
        bulk(a.q, a.query(s, h), a.k, a.cached(t, h), a.head_dim as nat) <= pow2(270) * pow2(149),
    ensures
        magnitude(a.score(m, s, h, t)) <= pow2(275),
{
    let n = a.head_dim;
    let u = pow2(149) as int;
    let (i, j) = (a.query(s, h), a.cached(t, h));
    lemma_score(m, a, s, h, t);
    lemma_root(m, n);
    lemma_inner_bulk(a.q, i, a.k, j, n as nat);
    lemma_pow2_pos(149);
    let r = magnitude((m.sqrt)(of_int(n))) as int;
    let x = a.score(m, s, h, t);
    let b = bulk(a.q, i, a.k, j, n as nat);
    let v = value(x);
    let k = magnitude(x) as int;
    assert(gap(v * r, 0) == k * r) by (nonlinear_arith)
        requires
            v == k || v == -k,
            k >= 0,
            r > 0,
    ;
    assert((n + 4) * b <= 0x2_0000 * b && n * u <= 0x1_0000 * u) by (nonlinear_arith)
        requires
            1 <= n <= 0x1_0000,
            b >= 0,
            u > 0,
    ;
    assert(0x40_0000 * (k * r) <= 0x42_0000 * b + 0xC0_0000 * (0x1_0000 * u));
    lemma2_to64();
    lemma_pow2_adds(5, 270);
    lemma_pow2_adds(20, 250);
    lemma_pow2_pos(250);
    assert(k <= 32 * pow2(270)) by (nonlinear_arith)
        requires
            0x40_0000 * (k * r) <= 0x42_0000 * b + 0xC0_0000 * (0x1_0000 * u),
            b <= pow2(270) * u,
            u <= 2 * r,
            pow2(270) >= 0x10_0000,
            u > 0,
            r > 0,
            k >= 0,
    ;
}

/// The place of a number of a head in the result.
proof fn lemma_place(a: Attended, rows: usize, s: int, h: int, d: int)
    requires
        1 <= a.head_dim,
        0 <= s < rows,
        0 <= h < a.n_heads,
        0 <= d < a.head_dim,
    ensures
        ({
            let p = place_in(a.n_heads, a.head_dim, s, h) + d;
            &&& 0 <= p < rows * (a.n_heads * a.head_dim)
            &&& p / a.head_dim / a.n_heads == s
            &&& p / a.head_dim % a.n_heads == h
            &&& p % a.head_dim == d
        }),
{
    let (k, hd) = (a.n_heads, a.head_dim);
    let p = place_in(k, hd, s, h) + d;
    let q = s * k + h;
    assert(p == q * hd + d) by (nonlinear_arith)
        requires
            p == s * (k * hd) + h * hd + d,
            q == s * k + h,
    ;
    vstd::arithmetic::div_mod::lemma_fundamental_div_mod_converse(p, hd, q, d);
    vstd::arithmetic::div_mod::lemma_fundamental_div_mod_converse(q, k, s, h);
    assert(0 <= p < rows * (k * hd)) by (nonlinear_arith)
        requires
            p == s * (k * hd) + h * hd + d,
            0 <= s,
            s + 1 <= rows,
            0 <= h,
            h + 1 <= k,
            0 <= d < hd,
    ;
}

} // verus!
