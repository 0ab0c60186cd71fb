//! What attention gives lies among the values that it sees: it is their mean, up to
//! rounding.

use vstd::arithmetic::power2::{lemma2_to64, lemma_pow2_adds, lemma_pow2_pos, pow2};
use vstd::prelude::*;

use crate::float::error::{lemma_product_value, lemma_quotient_near, lemma_sum_near};
use crate::float::round::{gap, lemma_mag_at, lemma_mag_grows, mag};
use crate::float::single::{
    code, is_nan, lemma_less_itself, magnitude, negated, negative, order, product, sum, value,
    INF,
};
use crate::formats::quant::{fold_larger, NEG_INF};
use crate::formats::roundtrip_q4k::{lemma_highest, lemma_order_value};
use crate::graph::ops::{Attended, MathV, ONE};

verus! {

/// Whether the exponential of nothing above zero lies between zero and one, and that of
/// zero is one.
pub open spec fn fades(m: MathV) -> bool {
    &&& (m.exp)(0) == ONE
    &&& forall|z: u32| !is_nan(z) && order(z) <= 0 ==> #[trigger] (m.exp)(z) <= ONE
}

/// The larger of the magnitudes of two bounds.
pub open spec fn reach(lo: int, hi: int) -> int {
    if gap(lo, 0) < gap(hi, 0) {
        gap(hi, 0)
    } else {
        gap(lo, 0)
    }
}

/// The first `n` numbers, added up one by one.
spec fn added_up(f: spec_fn(int) -> u32, n: nat) -> u32
    decreases n,
{
    if n == 0 {
        0
    } else {
        sum(added_up(f, (n - 1) as nat), f(n - 1))
    }
}

/// Their exact sum.
spec fn exact(f: spec_fn(int) -> u32, n: nat) -> int
    decreases n,
{
    if n == 0 {
        0
    } else {
        exact(f, (n - 1) as nat) + value(f(n - 1))
    }
}

/// The sum of their magnitudes.
pub open spec fn sizes(f: spec_fn(int) -> u32, n: nat) -> int
    decreases n,
{
    if n == 0 {
        0
    } else {
        sizes(f, (n - 1) as nat) + magnitude(f(n - 1))
    }
}

/// The sum of values, each as many times as its weight says.
pub open spec fn weighted(r: spec_fn(int) -> u32, v: spec_fn(int) -> u32, n: nat) -> int
    decreases n,
{
    if n == 0 {
        0
    } else {
        weighted(r, v, (n - 1) as nat) + magnitude(r(n - 1)) * value(v(n - 1))
    }
}

/// The magnitudes of the first numbers add up to no more than those of all.
pub proof fn lemma_sizes_grow(f: spec_fn(int) -> u32, k: nat, n: nat)
    requires
        k <= n,
    ensures
        0 <= sizes(f, k) <= sizes(f, n),
        forall|i: int| 0 <= i < n ==> magnitude(#[trigger] f(i)) <= sizes(f, n),
    decreases n,
{
    if n > 0 {
        if k < n {
            lemma_sizes_grow(f, k, (n - 1) as nat);
        } else {
            lemma_sizes_grow(f, (n - 1) as nat, (n - 1) as nat);
        }
    }
}

/// Adding up errs by one part in `2^23` for each number, against their magnitudes.
proof fn lemma_added_up(f: spec_fn(int) -> u32, n: nat)
    requires
        n <= 0x10_0000,
        forall|i: int| 0 <= i < n ==> code(#[trigger] f(i)) < INF,
        sizes(f, n) <= pow2(275),
    ensures
        code(added_up(f, n)) < INF,
        0x80_0000 * gap(value(added_up(f, n)), exact(f, n)) <= n * sizes(f, n),
        gap(exact(f, n), 0) <= sizes(f, n),
    decreases n,
{
    lemma_pow2_pos(23);
    assert(mag(0, 23) == 0);
    assert(0 * sizes(f, 0) == 0);
    if n > 0 {
        let j = (n - 1) as nat;
        lemma_sizes_grow(f, j, n);
        lemma_added_up(f, j);
        let (a, b) = (sizes(f, j), sizes(f, n));
        let x = added_up(f, j);
        let y = f(n - 1);
        let ja = j * a;
        let nb = n * b;
        assert(ja <= 0x10_0000 * a) by (nonlinear_arith)
            requires
                ja == j * a,
                j <= 0x10_0000,
                a >= 0,
        ;
        lemma2_to64();
        lemma_pow2_adds(1, 275);
        assert(gap(value(x) + value(y), 0) <= 2 * b);
        lemma_sum_near(x, y);
        assert(nb >= ja + b) by (nonlinear_arith)
            requires
                ja == j * a,
                nb == n * b,
                n == j + 1,
                0 <= a <= b,
        ;
    }
}

/// A weighted sum lies between the bounds on the values, times the weights.
proof fn lemma_among(
    r: spec_fn(int) -> u32,
    v: spec_fn(int) -> u32,
    n: nat,
    lo: int,
    hi: int,
)
    requires
        forall|i: int| 0 <= i < n ==> lo <= value(#[trigger] v(i)) <= hi,
    ensures
        lo * sizes(r, n) <= weighted(r, v, n) <= hi * sizes(r, n),
    decreases n,
{
    if n == 0 {
        assert(lo * 0 == 0 && hi * 0 == 0);
    } else {
        let j = (n - 1) as nat;
        lemma_among(r, v, j, lo, hi);
        let (a, k, z) = (sizes(r, j), magnitude(r(n - 1)) as int, value(v(n - 1)));
        assert(lo * (a + k) <= lo * a + k * z && hi * a + k * z <= hi * (a + k))
            by (nonlinear_arith)
            requires
                lo <= z <= hi,
                k >= 0,
        ;
    }
}

/// Shares against weights, over all: what they give, and what they add up to.
proof fn lemma_shares(
    r: spec_fn(int) -> u32,
    p: spec_fn(int) -> u32,
    v: spec_fn(int) -> u32,
    n: nat,
    u: int,
    t: int,
    w: int,
)
    requires
        u > 0,
        t > 0,
        w >= 0,
        forall|i: int| 0 <= i < n ==> gap(value(#[trigger] v(i)), 0) <= w,
        forall|i: int|
            0 <= i < n ==> 0x200_0000 * gap(magnitude(#[trigger] p(i)) * t, magnitude(r(i)) * u)
                <= 2 * (magnitude(r(i)) * u) + 0x100_0000 * t,
    ensures
        0x200_0000 * gap(weighted(p, v, n) * t, weighted(r, v, n) * u) <= w * (2 * (sizes(r, n)
            * u) + 0x100_0000 * (n * t)),
        0x200_0000 * (sizes(p, n) * t) <= 0x200_0002 * (sizes(r, n) * u) + 0x100_0000 * (n * t),
    decreases n,
{
    if n == 0 {
        assert(0 * t == 0 && 0 * u == 0 && w * 0 == 0);
    } else {
        let j = (n - 1) as nat;
        lemma_shares(r, p, v, j, u, t, w);
        let (b, c) = (weighted(p, v, j), weighted(r, v, j));
        let (a, s) = (sizes(p, j), sizes(r, j));
        let (pk, rk, z) = (
            magnitude(p(n - 1)) as int,
            magnitude(r(n - 1)) as int,
            value(v(n - 1)),
        );
        let g = gap(pk * t, rk * u);
        assert((b + pk * z) * t == b * t + (pk * t) * z) by (nonlinear_arith);
        assert((c + rk * z) * u == c * u + (rk * u) * z) by (nonlinear_arith);
        let y = gap(z, 0);
        assert(gap((pk * t) * z, (rk * u) * z) == g * y) by (nonlinear_arith)
            requires
                g == gap(pk * t, rk * u),
                y == gap(z, 0),
        ;
        let e = 2 * (rk * u) + 0x100_0000 * t;
        assert(0x200_0000 * (g * y) <= w * e) by (nonlinear_arith)
            requires
                0x200_0000 * g <= e,
                0 <= y <= w,
                0 <= g,
        ;
        assert((s + rk) * u == s * u + rk * u) by (nonlinear_arith);
        assert((a + pk) * t == a * t + pk * t) by (nonlinear_arith);
        assert(n * t == j * t + t) by (nonlinear_arith)
            requires
                n == j + 1,
        ;
        let f = 2 * (s * u) + 0x100_0000 * (j * t);
        assert(w * (f + e) == w * f + w * e) by (nonlinear_arith);
        assert(2 * ((s + rk) * u) + 0x100_0000 * (n * t) == f + e);
    }
}

/// Products of shares with values, over all: what they add up to, and their magnitudes.
proof fn lemma_products(
    p: spec_fn(int) -> u32,
    v: spec_fn(int) -> u32,
    q: spec_fn(int) -> u32,
    n: nat,
    u: int,
    w: int,
)
    requires
        u > 0,
        w >= 0,
        forall|i: int| 0 <= i < n ==> gap(value(#[trigger] v(i)), 0) <= w,
        forall|i: int|
            0 <= i < n ==> 0x200_0000 * gap(
                magnitude(p(i)) * value(v(i)),
                value(#[trigger] q(i)) * u,
            ) <= 2 * gap(magnitude(p(i)) * value(v(i)), 0) + 0x100_0000 * u,
    ensures
        0x200_0000 * gap(exact(q, n) * u, weighted(p, v, n)) <= 2 * (w * sizes(p, n)) + 0x100_0000
            * (n * u),
        0x200_0000 * (sizes(q, n) * u) <= 0x200_0002 * (w * sizes(p, n)) + 0x100_0000 * (n * u),
    decreases n,
{
    if n == 0 {
        assert(0 * u == 0 && w * 0 == 0);
    } else {
        let j = (n - 1) as nat;
        lemma_products(p, v, q, j, u, w);
        let (pk, z, y) = (magnitude(p(n - 1)) as int, value(v(n - 1)), value(q(n - 1)));
        let a = sizes(p, j);
        let k = gap(pk * z, 0);
        assert(k <= w * pk) by (nonlinear_arith)
            requires
                k == gap(pk * z, 0),
                gap(z, 0) <= w,
                pk >= 0,
        ;
        assert(w * (a + pk) == w * a + w * pk) by (nonlinear_arith);
        assert((exact(q, j) + y) * u == exact(q, j) * u + y * u) by (nonlinear_arith);
        let ym = magnitude(q(n - 1)) as int;
        assert((sizes(q, j) + ym) * u == sizes(q, j) * u + ym * u) by (nonlinear_arith);
        assert(gap(y * u, 0) == ym * u) by (nonlinear_arith)
            requires
                y == ym || y == -ym,
                ym >= 0,
                u > 0,
        ;
        assert(n * u == j * u + u) by (nonlinear_arith)
            requires
                n == j + 1,
        ;
    }
}

/// How large products of shares with values are, over whole numbers: `s` is the sum of the
/// weights, `t` the rounded one, `a` the sum of the shares, `b` that of the products, which
/// err by `l` smallest numbers.
proof fn lemma_small(n: int, l: int, u: int, w: int, s: int, t: int, a: int, b: int)
    requires
        1 <= n <= 0x10_0000,
        l >= 0,
        u >= 0x1_0000_0000_0000_0000,
        w >= 0,
        s > 0,
        t > 0,
        b >= 0,
        7 * s <= 8 * t,
        0x200_0000 * (a * t) <= 0x200_0002 * (s * u) + 0x100_0000 * (n * t),
        0x200_0000 * (b * u) <= 0x200_0002 * (w * a) + 0x100_0000 * (l * u),
    ensures
        100 * a <= 115 * u,
        100 * b <= 116 * w + 51 * l,
{
    let (at, su, tu, nt) = (a * t, s * u, t * u, n * t);
    assert(7 * su <= 8 * tu) by (nonlinear_arith)
        requires
            7 * s <= 8 * t,
            su == s * u,
            tu == t * u,
            u > 0,
    ;
    assert(0x1000_0000 * nt <= tu) by (nonlinear_arith)
        requires
            nt == n * t,
            tu == t * u,
            0x1000_0000 * n <= u,
            t > 0,
    ;
    assert(1000 * at <= 1145 * tu);
    assert(1000 * a <= 1145 * u) by (nonlinear_arith)
        requires
            1000 * (a * t) <= 1145 * (t * u),
            t > 0,
    ;
    let (wa, wu, bu, lu) = (w * a, w * u, b * u, l * u);
    assert(1000 * wa <= 1145 * wu) by (nonlinear_arith)
        requires
            1000 * a <= 1145 * u,
            wa == w * a,
            wu == w * u,
            w >= 0,
    ;
    assert(wu >= 0 && lu >= 0) by (nonlinear_arith)
        requires
            wu == w * u,
            lu == l * u,
            w >= 0,
            l >= 0,
            u > 0,
    ;
    assert(100 * bu <= 116 * wu + 51 * lu);
    assert(100 * b <= 116 * w + 51 * l) by (nonlinear_arith)
        requires
            100 * (b * u) <= 116 * (w * u) + 51 * (l * u),
            u > 0,
    ;
}

/// By how much a mixed value exceeds a bound, over whole numbers: `c` is the exact weighted
/// sum, `q` the exact sum of the products, `e` that of the shares times the values. The
/// products err by `l` smallest numbers.
proof fn lemma_excess(
    n: int,
    l: int,
    u: int,
    w: int,
    s: int,
    t: int,
    a: int,
    b: int,
    c: int,
    e: int,
    q: int,
    y: int,
    hi: int,
)
    requires
        1 <= n <= 0x10_0000,
        l >= 0,
        u >= 0x1_0000_0000_0000_0000,
        w >= 0,
        s > 0,
        t > 0,
        a >= 0,
        b >= 0,
        gap(hi, 0) <= w,
        c <= hi * s,
        0x80_0000 * gap(t, s) <= n * s,
        0x200_0000 * (a * t) <= 0x200_0002 * (s * u) + 0x100_0000 * (n * t),
        0x200_0000 * (b * u) <= 0x200_0002 * (w * a) + 0x100_0000 * (l * u),
        0x200_0000 * gap(e * t, c * u) <= w * (2 * (s * u) + 0x100_0000 * (n * t)),
        0x200_0000 * gap(q * u, e) <= 2 * (w * a) + 0x100_0000 * (l * u),
        0x80_0000 * gap(y, q) <= n * b,
    ensures
        0x20_0000 * (y - hi) <= n * w + 0x20_0000 * l,
{
    let ns = n * s;
    assert(ns <= 0x10_0000 * s) by (nonlinear_arith)
        requires
            ns == n * s,
            n <= 0x10_0000,
            s > 0,
    ;
    assert(7 * s <= 8 * t);
    lemma_small(n, l, u, w, s, t, a, b);
    // The weighted sum against the rounded total.
    let d = c - hi * t;
    let g = gap(t, s);
    assert(d <= w * g) by (nonlinear_arith)
        requires
            d == c - hi * t,
            c <= hi * s,
            gap(hi, 0) <= w,
            g == gap(t, s),
    ;
    let (wn, wg) = (w * n, w * g);
    let wns = w * ns;
    assert(0x80_0000 * wg <= wns) by (nonlinear_arith)
        requires
            0x80_0000 * g <= ns,
            wg == w * g,
            wns == w * ns,
            w >= 0,
    ;
    let wnt = wn * t;
    assert(7 * wns <= 8 * wnt) by (nonlinear_arith)
        requires
            7 * s <= 8 * t,
            wns == w * (n * s),
            wnt == (w * n) * t,
            w >= 0,
            n >= 0,
    ;
    assert(58_720_256 * d <= 8 * wnt);
    // Everything over the total and one.
    let tu = t * u;
    assert(tu > 0) by (nonlinear_arith)
        requires
            tu == t * u,
            t > 0,
            u > 0,
    ;
    let (dx, wnx, wx, lx) = (d * u, wn * tu, w * tu, l * tu);
    assert(58_720_256 * dx <= 8 * wnx) by (nonlinear_arith)
        requires
            58_720_256 * d <= 8 * wnt,
            dx == d * u,
            wnx == wn * (t * u),
            wnt == wn * t,
            u > 0,
    ;
    let f = gap(e * t, c * u);
    let (su, nt) = (s * u, n * t);
    assert(7 * su <= 8 * tu) by (nonlinear_arith)
        requires
            7 * s <= 8 * t,
            su == s * u,
            tu == t * u,
            u > 0,
    ;
    assert(0x1000_0000 * nt <= tu) by (nonlinear_arith)
        requires
            nt == n * t,
            tu == t * u,
            0x1000_0000 * n <= u,
            t > 0,
    ;
    let k = 2 * su + 0x100_0000 * nt;
    assert(1000 * k <= 2400 * tu);
    assert(1000 * (w * k) <= 2400 * wx) by (nonlinear_arith)
        requires
            1000 * k <= 2400 * tu,
            wx == w * tu,
            w >= 0,
    ;
    let h = gap(q * u, e);
    let (wa, wu, lu) = (w * a, w * u, l * u);
    assert(100 * wa <= 115 * wu) by (nonlinear_arith)
        requires
            100 * a <= 115 * u,
            wa == w * a,
            wu == w * u,
            w >= 0,
    ;
    assert(3_355_443_200 * h <= 230 * wu + 1_677_721_600 * lu);
    let ht = h * t;
    assert(3_355_443_200 * ht <= 230 * wx + 1_677_721_600 * lx) by (nonlinear_arith)
        requires
            3_355_443_200 * h <= 230 * wu + 1_677_721_600 * lu,
            ht == h * t,
            wx == w * (t * u),
            lx == l * (t * u),
            wu == w * u,
            lu == l * u,
            t > 0,
    ;
    let qx = q * tu;
    let hx = hi * tu;
    assert(qx <= e * t + ht) by (nonlinear_arith)
        requires
            qx == q * (t * u),
            h == gap(q * u, e),
            ht == h * t,
            t > 0,
    ;
    assert(c * u == hx + dx) by (nonlinear_arith)
        requires
            d == c - hi * t,
            dx == d * u,
            hx == hi * (t * u),
    ;
    assert(qx - hx <= f + dx + ht);
    assert(335_544_320_000 * (qx - hx) <= 45_715 * wnx + 48_000 * wx + 167_772_160_000 * lx);
    assert(335_544_320_000 * (q - hi) <= 45_715 * wn + 48_000 * w + 167_772_160_000 * l)
        by (nonlinear_arith)
        requires
            335_544_320_000 * (q * tu - hi * tu) <= 45_715 * (wn * tu) + 48_000 * (w * tu)
                + 167_772_160_000 * (l * tu),
            tu > 0,
    ;
    // The mixed value itself.
    let nb = n * b;
    let nl = n * l;
    assert(100 * nb <= 116 * wn + 51 * nl) by (nonlinear_arith)
        requires
            100 * b <= 116 * w + 51 * l,
            nb == n * b,
            wn == w * n,
            nl == n * l,
            n >= 0,
    ;
    assert(nl <= 0x10_0000 * l) by (nonlinear_arith)
        requires
            nl == n * l,
            0 <= n <= 0x10_0000,
            l >= 0,
    ;
    assert(w <= wn) by (nonlinear_arith)
        requires
            wn == w * n,
            n >= 1,
            w >= 0,
    ;
    assert(n * w == wn) by (nonlinear_arith)
        requires
            wn == w * n,
    ;
}

/// The largest score is one of the scores, and no smaller than any.
pub proof fn lemma_best(m: MathV, a: Attended, s: int, h: int, n: nat)
    requires
        n > 0,
        forall|t: int| 0 <= t < n ==> code(#[trigger] a.score(m, s, h, t)) < INF,
    ensures
        code(a.best(m, s, h, n)) < INF,
        exists|t: int| 0 <= t < n && a.best(m, s, h, n) == #[trigger] a.score(m, s, h, t),
        forall|t: int|
            0 <= t < n ==> order(#[trigger] a.score(m, s, h, t)) <= order(a.best(m, s, h, n)),
{
    let v = Seq::new(n, |t: int| a.score(m, s, h, t));
    lemma_best_of(m, a, s, h, n, v);
    assert(v.take(n as int) =~= v);
    assert forall|i: int| 0 <= i < v.len() implies code(#[trigger] v[i]) < INF by {
        assert(code(a.score(m, s, h, i)) < INF);
    }
    lemma_highest(v);
    let i = choose|i: int| 0 <= i < v.len() && fold_larger(NEG_INF, v) == #[trigger] v[i];
    assert(a.best(m, s, h, n) == a.score(m, s, h, i));
    assert forall|t: int| 0 <= t < n implies order(#[trigger] a.score(m, s, h, t)) <= order(
        a.best(m, s, h, n),
    ) by {
        assert(v[t] == a.score(m, s, h, t));
    }
}

/// The largest score, as the largest of a list.
proof fn lemma_best_of(m: MathV, a: Attended, s: int, h: int, n: nat, v: Seq<u32>)
    requires
        n <= v.len(),
        forall|t: int| 0 <= t < v.len() ==> #[trigger] v[t] == a.score(m, s, h, t),
    ensures
        a.best(m, s, h, n) == fold_larger(NEG_INF, v.take(n as int)),
    decreases n,
{
    if n > 0 {
        lemma_best_of(m, a, s, h, (n - 1) as nat, v);
        assert(v.take(n as int).drop_last() =~= v.take(n - 1));
        assert(v.take(n as int).last() == v[n - 1]);
    }
}

/// A number less one that is no smaller is not above zero.
proof fn lemma_not_above(x: u32, y: u32)
    requires
        code(x) < INF,
        code(y) < INF,
        order(x) <= order(y),
    ensures
        ({
            let z = sum(x, negated(y));
            !is_nan(z) && order(z) <= 0
        }),
{
    lemma_order_value(x, y);
    assert(code(negated(y)) == code(y) && value(negated(y)) == -value(y));
    reveal(sum);
}

/// The magnitude of what is at most one.
proof fn lemma_at_most_one(x: u32)
    requires
        x <= ONE,
    ensures
        code(x) < INF,
        !negative(x),
        magnitude(x) <= pow2(149),
        x == ONE ==> magnitude(x) == pow2(149),
{
    lemma2_to64();
    lemma_mag_at(126, 0x80_0000, 23);
    lemma_pow2_adds(23, 126);
    if x < ONE {
        lemma_mag_grows(code(x), ONE as nat, 23);
    }
}

/// What weights are: at most one, one of them is one, and what they add up to.
proof fn lemma_weights(m: MathV, a: Attended, s: int, h: int)
    requires
        0 < a.visible(s) <= 0x10_0000,
        fades(m),
        forall|t: int| 0 <= t < a.visible(s) ==> code(#[trigger] a.score(m, s, h, t)) < INF,
    ensures
        ({
            let n = a.visible(s);
            let r = |t: int| a.raw(m, s, h, t);
            let total = a.total(m, s, h, n);
            &&& forall|t: int| 0 <= t < n ==> #[trigger] a.raw(m, s, h, t) <= ONE
            &&& 0 < code(total) < INF
            &&& !negative(total)
            &&& pow2(149) <= sizes(r, n) <= n * pow2(149)
            &&& 0x80_0000 * gap(magnitude(total) as int, sizes(r, n)) <= n * sizes(r, n)
        }),
{
    let n = a.visible(s);
    let u = pow2(149);
    let r = |t: int| a.raw(m, s, h, t);
    lemma_best(m, a, s, h, n);
    let best = a.best(m, s, h, n);
    assert forall|t: int| 0 <= t < n implies #[trigger] a.raw(m, s, h, t) <= ONE by {
        lemma_not_above(a.score(m, s, h, t), best);
    }
    let k = choose|t: int| 0 <= t < n && best == #[trigger] a.score(m, s, h, t);
    lemma_less_itself(best);
    assert(a.raw(m, s, h, k) == ONE);
    assert forall|t: int| 0 <= t < n implies code(#[trigger] r(t)) < INF && magnitude(r(t)) <= u
        && !negative(r(t)) by {
        assert(a.raw(m, s, h, t) <= ONE);
        lemma_at_most_one(r(t));
    }
    lemma_at_most_one(r(k));
    lemma_sizes_at_most(r, n, u as int);
    lemma_sizes_grow(r, n, n);
    lemma_exact_sizes(r, n);
    lemma2_to64();
    lemma_pow2_pos(149);
    lemma_pow2_adds(20, 149);
    lemma_pow2_adds(169, 106);
    lemma_pow2_pos(106);
    lemma_pow2_pos(169);
    assert(n * u <= pow2(169)) by (nonlinear_arith)
        requires
            n <= 0x10_0000,
            0x10_0000 * u == pow2(169),
    ;
    assert(pow2(169) <= pow2(275)) by (nonlinear_arith)
        requires
            pow2(169) * pow2(106) == pow2(275),
            pow2(106) >= 1,
    ;
    lemma_added_up(r, n);
    lemma_total_of(m, a, s, h, n);
    let total = a.total(m, s, h, n);
    let z = sizes(r, n);
    let nz = n * z;
    assert(nz <= 0x10_0000 * z) by (nonlinear_arith)
        requires
            nz == n * z,
            n <= 0x10_0000,
            z >= 0,
    ;
    assert(value(total) > 0);
    lemma_pow2_pos(23);
    assert(mag(0, 23) == 0);
}

/// Magnitudes of at most `u` each add up to at most that many times it.
proof fn lemma_sizes_at_most(f: spec_fn(int) -> u32, n: nat, u: int)
    requires
        forall|i: int| 0 <= i < n ==> magnitude(#[trigger] f(i)) <= u,
    ensures
        sizes(f, n) <= n * u,
    decreases n,
{
    assert(0 * u == 0);
    if n > 0 {
        let j = (n - 1) as nat;
        lemma_sizes_at_most(f, j, u);
        assert(n * u == j * u + u) by (nonlinear_arith)
            requires
                n == j + 1,
        ;
        assert(magnitude(f(n - 1)) <= u);
    }
}

/// Numbers that are not negative add up to their magnitudes.
proof fn lemma_exact_sizes(f: spec_fn(int) -> u32, n: nat)
    requires
        forall|i: int| 0 <= i < n ==> !negative(#[trigger] f(i)),
    ensures
        exact(f, n) == sizes(f, n),
    decreases n,
{
    if n > 0 {
        lemma_exact_sizes(f, (n - 1) as nat);
        assert(!negative(f(n - 1)));
    }
}

/// The total is the weights, added up.
proof fn lemma_total_of(m: MathV, a: Attended, s: int, h: int, n: nat)
    ensures
        a.total(m, s, h, n) == added_up(|t: int| a.raw(m, s, h, t), n),
    decreases n,
{
    if n > 0 {
        lemma_total_of(m, a, s, h, (n - 1) as nat);
    }
}

/// The mixed value is the products, added up.
proof fn lemma_mixed_of(m: MathV, a: Attended, s: int, h: int, d: int, n: nat)
    ensures
        a.mixed(m, s, h, d, n) == added_up(
            |t: int| product(a.share(m, s, h, t), a.v[a.cached(t, h) + d]),
            n,
        ),
    decreases n,
{
    if n > 0 {
        lemma_mixed_of(m, a, s, h, d, (n - 1) as nat);
    }
}

/// A share and its product with a value.
proof fn lemma_share(m: MathV, a: Attended, s: int, h: int, d: int, t: int)
    requires
        0 <= t < a.visible(s) <= 0x10_0000,
        fades(m),
        forall|t: int| 0 <= t < a.visible(s) ==> code(#[trigger] a.score(m, s, h, t)) < INF,
        code(a.v[a.cached(t, h) + d]) < INF,
        magnitude(a.v[a.cached(t, h) + d]) <= pow2(270),
    ensures
        ({
            let u = pow2(149);
            let r = magnitude(a.raw(m, s, h, t));
            let k = magnitude(a.total(m, s, h, a.visible(s)));
            let share = a.share(m, s, h, t);
            let p = magnitude(share);
            let v = a.v[a.cached(t, h) + d];
            let q = product(share, v);
            &&& 0x200_0000 * gap((p * k) as int, (r * u) as int) <= 2 * (r * u) + 0x100_0000 * k
            &&& code(q) < INF
            &&& 0x200_0000 * gap(p * value(v), value(q) * u) <= 2 * gap(p * value(v), 0)
                + 0x100_0000 * u
        }),
{
    let n = a.visible(s);
    let u = pow2(149);
    let raw = a.raw(m, s, h, t);
    let total = a.total(m, s, h, n);
    let f = |t: int| a.raw(m, s, h, t);
    lemma_weights(m, a, s, h);
    lemma_at_most_one(raw);
    let r = magnitude(raw);
    let k = magnitude(total);
    let z = sizes(f, n);
    let nz = n * z;
    assert(nz <= 0x10_0000 * z) by (nonlinear_arith)
        requires
            nz == n * z,
            n <= 0x10_0000,
            z >= 0,
    ;
    assert(2 * k >= u);
    lemma2_to64();
    lemma_pow2_pos(149);
    lemma_pow2_pos(276);
    lemma_pow2_pos(270);
    lemma_pow2_adds(127, 149);
    lemma_pow2_adds(64, 63);
    lemma_pow2_pos(63);
    assert(r * u <= pow2(276) * k) by (nonlinear_arith)
        requires
            r <= u,
            2 * k >= u,
            pow2(276) == pow2(127) * u,
            pow2(127) >= 2,
            u > 0,
    ;
    lemma_quotient_near(raw, total);
    let share = a.share(m, s, h, t);
    let p = magnitude(share);
    let g = gap((r * u) as int, (p * k) as int);
    assert(0x200_0000 * g <= 2 * (r * u) + 0x100_0000 * k);
    assert(p <= 4 * u) by (nonlinear_arith)
        requires
            0x200_0000 * gap((r * u) as int, (p * k) as int) <= 2 * (r * u) + 0x100_0000 * k,
            r <= u,
            2 * k >= u,
            u >= 1,
            k >= 1,
    ;
    let v = a.v[a.cached(t, h) + d];
    lemma_pow2_adds(6, 270);
    assert(p * magnitude(v) <= pow2(276) * u) by (nonlinear_arith)
        requires
            p <= 4 * u,
            magnitude(v) <= pow2(270),
            pow2(276) == 64 * pow2(270),
    ;
    lemma_product_value(share, v);
    assert(value(share) == p);
}

/// What attention gives at a place lies between the least and the greatest of the values
/// that it sees there, up to rounding: `lo` and `hi` bound the values, and the result lies
/// beyond them by at most one part in `2^21` of the larger for each value seen, and one
/// smallest number for each. The scores must be finite, and the values not so large that
/// anything overflows.
#[verifier::rlimit(60)]
pub proof fn law_result_lies_among_values(
    m: MathV,
    a: Attended,
    s: int,
    h: int,
    d: int,
    lo: int,
    hi: int,
)
    requires
        0 < a.visible(s) <= 0x10_0000,
        fades(m),
        forall|t: int| 0 <= t < a.visible(s) ==> code(#[trigger] a.score(m, s, h, t)) < INF,
        forall|t: int|
            0 <= t < a.visible(s) ==> {
                let v = a.v[#[trigger] a.cached(t, h) + d];
                code(v) < INF && lo <= value(v) <= hi
            },
        -pow2(270) <= lo,
        hi <= pow2(270),
    ensures
        ({
            let n = a.visible(s);
            let y = a.mixed(m, s, h, d, n);
            &&& code(y) < INF
            &&& 0x20_0000 * (value(y) - hi) <= n * (reach(lo, hi) + 0x20_0000)
            &&& 0x20_0000 * (lo - value(y)) <= n * (reach(lo, hi) + 0x20_0000)
        }),
{
    let n = a.visible(s);
    let u = pow2(149) as int;
    let w = reach(lo, hi);
    let r = |t: int| a.raw(m, s, h, t);
    let p = |t: int| a.share(m, s, h, t);
    let v = |t: int| a.v[a.cached(t, h) + d];
    let q = |t: int| product(a.share(m, s, h, t), a.v[a.cached(t, h) + d]);
    let t = magnitude(a.total(m, s, h, n)) as int;
    lemma_weights(m, a, s, h);
    assert forall|i: int| 0 <= i < n implies lo <= value(#[trigger] v(i)) <= hi && code(v(i)) < INF by {
        assert(a.cached(i, h) == a.cached(i, h));
    }
    assert(lo <= value(v(0)) <= hi);
    assert(w <= pow2(270));
    assert forall|i: int| 0 <= i < n implies 0x200_0000 * gap(
        magnitude(#[trigger] p(i)) * t,
        magnitude(r(i)) * u,
    ) <= 2 * (magnitude(r(i)) * u) + 0x100_0000 * t by {
        assert(lo <= value(v(i)) <= hi);
        lemma_share(m, a, s, h, d, i);
    }
    assert forall|i: int| 0 <= i < n implies 0x200_0000 * gap(
        magnitude(p(i)) * value(v(i)),
        value(#[trigger] q(i)) * u,
    ) <= 2 * gap(magnitude(p(i)) * value(v(i)), 0) + 0x100_0000 * u && code(q(i)) < INF by {
        assert(lo <= value(v(i)) <= hi);
        lemma_share(m, a, s, h, d, i);
    }
    lemma2_to64();
    lemma_pow2_pos(149);
    lemma_pow2_adds(64, 85);
    lemma_pow2_pos(85);
    let sz = sizes(r, n);
    let nsz = n * sz;
    assert(nsz <= 0x10_0000 * sz) by (nonlinear_arith)
        requires
            nsz == n * sz,
            n <= 0x10_0000,
            sz >= 0,
    ;
    assert(t > 0);
    lemma_shares(r, p, v, n, u, t, w);
    lemma_products(p, v, q, n, u, w);
    lemma_among(r, v, n, lo, hi);
    lemma_sizes_grow(p, n, n);
    lemma_sizes_grow(q, n, n);
    let (pa, qa) = (sizes(p, n), sizes(q, n));
    lemma_small(n as int, n as int, u, w, sz, t, pa, qa);
    lemma_pow2_adds(5, 270);
    lemma_pow2_adds(20, 250);
    lemma_pow2_pos(250);
    lemma_pow2_pos(270);
    assert(qa <= pow2(275));
    lemma_added_up(q, n);
    lemma_mixed_of(m, a, s, h, d, n);
    let y = value(a.mixed(m, s, h, d, n));
    let (c, e, x) = (weighted(r, v, n), weighted(p, v, n), exact(q, n));
    lemma_excess(n as int, n as int, u, w, sz, t, pa, qa, c, e, x, y, hi);
    assert(n * (w + 0x20_0000) == n * w + 0x20_0000 * n) by (nonlinear_arith);
    assert((-lo) * sz == -(lo * sz)) by (nonlinear_arith);
    assert((-e) * t == -(e * t)) by (nonlinear_arith);
    assert((-c) * u == -(c * u)) by (nonlinear_arith);
    assert((-x) * u == -(x * u)) by (nonlinear_arith);
    lemma_excess(n as int, n as int, u, w, sz, t, pa, qa, -c, -e, -x, -y, -lo);
}

/// What attention gives at a place, times the sum of the weights, is the sum of the values
/// that it sees there, each times its weight, up to rounding: `w` bounds the values, and the
/// quotient errs by at most one part in `2^21` of it for each value seen, and one smallest
/// number for each.
#[verifier::rlimit(60)]
pub proof fn law_result_is_the_mean(m: MathV, a: Attended, s: int, h: int, d: int, w: int)
    requires
        0 < a.visible(s) <= 0x10_0000,
        fades(m),
        forall|t: int| 0 <= t < a.visible(s) ==> code(#[trigger] a.score(m, s, h, t)) < INF,
        forall|t: int|
            0 <= t < a.visible(s) ==> {
                let v = a.v[#[trigger] a.cached(t, h) + d];
                code(v) < INF && gap(value(v), 0) <= w
            },
        w <= pow2(270),
    ensures
        ({
            let n = a.visible(s);
            let y = a.mixed(m, s, h, d, n);
            let r = |t: int| a.raw(m, s, h, t);
            let v = |t: int| a.v[a.cached(t, h) + d];
            &&& code(y) < INF
            &&& pow2(149) <= sizes(r, n)
            &&& 0x20_0000 * gap(value(y) * sizes(r, n), weighted(r, v, n)) <= (n * w + 0x20_0000 * n)
                * sizes(r, n)
        }),
{
    let n = a.visible(s);
    let u = pow2(149) as int;
    let r = |t: int| a.raw(m, s, h, t);
    let p = |t: int| a.share(m, s, h, t);
    let v = |t: int| a.v[a.cached(t, h) + d];
    let q = |t: int| product(a.share(m, s, h, t), a.v[a.cached(t, h) + d]);
    let t = magnitude(a.total(m, s, h, n)) as int;
    lemma_weights(m, a, s, h);
    assert forall|i: int| 0 <= i < n implies gap(value(#[trigger] v(i)), 0) <= w && code(v(i)) < INF
        && -w <= value(v(i)) <= w by {
        assert(a.cached(i, h) == a.cached(i, h));
    }
    assert(gap(value(v(0)), 0) <= w);
    assert forall|i: int| 0 <= i < n implies 0x200_0000 * gap(
        magnitude(#[trigger] p(i)) * t,
        magnitude(r(i)) * u,
    ) <= 2 * (magnitude(r(i)) * u) + 0x100_0000 * t by {
        assert(gap(value(v(i)), 0) <= w);
        lemma_share(m, a, s, h, d, i);
    }
    assert forall|i: int| 0 <= i < n implies 0x200_0000 * gap(
        magnitude(p(i)) * value(v(i)),
        value(#[trigger] q(i)) * u,
    ) <= 2 * gap(magnitude(p(i)) * value(v(i)), 0) + 0x100_0000 * u && code(q(i)) < INF by {
        assert(gap(value(v(i)), 0) <= w);
        lemma_share(m, a, s, h, d, i);
    }
    lemma2_to64();
    lemma_pow2_pos(149);
    lemma_pow2_adds(64, 85);
    lemma_pow2_pos(85);
    let sz = sizes(r, n);
    let nsz = n * sz;
    assert(nsz <= 0x10_0000 * sz) by (nonlinear_arith)
        requires
            nsz == n * sz,
            n <= 0x10_0000,
            sz >= 0,
    ;
    assert(t > 0);
    lemma_shares(r, p, v, n, u, t, w);
    lemma_products(p, v, q, n, u, w);
    lemma_among(r, v, n, -w, w);
    lemma_sizes_grow(p, n, n);
    lemma_sizes_grow(q, n, n);
    let (pa, qa) = (sizes(p, n), sizes(q, n));
    lemma_small(n as int, n as int, u, w, sz, t, pa, qa);
    lemma_pow2_adds(5, 270);
    lemma_pow2_adds(20, 250);
    lemma_pow2_pos(250);
    lemma_pow2_pos(270);
    assert(qa <= pow2(275));
    lemma_added_up(q, n);
    lemma_mixed_of(m, a, s, h, d, n);
    let y = value(a.mixed(m, s, h, d, n));
    let (c, e, x) = (weighted(r, v, n), weighted(p, v, n), exact(q, n));
    assert((-w) * sz == -(w * sz)) by (nonlinear_arith);
    lemma_scaled_excess(n as int, u, w, sz, t, pa, qa, c, e, x, y);
    assert((-e) * t == -(e * t)) by (nonlinear_arith);
    assert((-c) * u == -(c * u)) by (nonlinear_arith);
    assert((-x) * u == -(x * u)) by (nonlinear_arith);
    lemma_scaled_excess(n as int, u, w, sz, t, pa, qa, -c, -e, -x, -y);
    assert((-y) * sz == -(y * sz)) by (nonlinear_arith);
}

/// By how much a mixed value exceeds the mean, times the sum of the weights.
proof fn lemma_scaled_excess(
    n: int,
    u: int,
    w: int,
    s: int,
    t: int,
    a: int,
    b: int,
    c: int,
    e: int,
    q: int,
    y: int,
)
    requires
        1 <= n <= 0x10_0000,
        u >= 0x1_0000_0000_0000_0000,
        w >= 0,
        s > 0,
        t > 0,
        a >= 0,
        b >= 0,
        gap(c, 0) <= w * s,
        0x80_0000 * gap(t, s) <= n * s,
        0x200_0000 * (a * t) <= 0x200_0002 * (s * u) + 0x100_0000 * (n * t),
        0x200_0000 * (b * u) <= 0x200_0002 * (w * a) + 0x100_0000 * (n * u),
        0x200_0000 * gap(e * t, c * u) <= w * (2 * (s * u) + 0x100_0000 * (n * t)),
        0x200_0000 * gap(q * u, e) <= 2 * (w * a) + 0x100_0000 * (n * u),
        0x80_0000 * gap(y, q) <= n * b,
    ensures
        0x20_0000 * (y * s - c) <= (n * w + 0x20_0000 * n) * s,
{
    let (w2, b2, c2, e2, q2, y2, l) = (w * s, b * s, c * s, e * s, q * s, y * s, n * s);
    assert(w2 >= 0 && b2 >= 0 && l >= 0) by (nonlinear_arith)
        requires
            w2 == w * s,
            b2 == b * s,
            l == n * s,
            w >= 0,
            b >= 0,
            n >= 0,
            s > 0,
    ;
    assert(0x200_0000 * (b2 * u) <= 0x200_0002 * (w2 * a) + 0x100_0000 * (l * u)) by {
        lemma_times_s(0x200_0000 * (b * u), 0x200_0002 * (w * a) + 0x100_0000 * (n * u), s);
        assert(b2 * u == (b * u) * s) by (nonlinear_arith)
            requires
                b2 == b * s,
        ;
        assert(w2 * a == (w * a) * s) by (nonlinear_arith)
            requires
                w2 == w * s,
        ;
        assert(l * u == (n * u) * s) by (nonlinear_arith)
            requires
                l == n * s,
        ;
        let (x0, x1, x2) = (b * u, w * a, n * u);
        assert((0x200_0000 * x0) * s == 0x200_0000 * (x0 * s)) by (nonlinear_arith);
        assert((0x200_0002 * x1 + 0x100_0000 * x2) * s == 0x200_0002 * (x1 * s) + 0x100_0000 * (x2
            * s)) by (nonlinear_arith);
    }
    assert(0x200_0000 * gap(e2 * t, c2 * u) <= w2 * (2 * (s * u) + 0x100_0000 * (n * t))) by {
        let (x0, x1) = (e * t, c * u);
        let k = 2 * (s * u) + 0x100_0000 * (n * t);
        assert(e2 * t == x0 * s) by (nonlinear_arith)
            requires
                e2 == e * s,
                x0 == e * t,
        ;
        assert(c2 * u == x1 * s) by (nonlinear_arith)
            requires
                c2 == c * s,
                x1 == c * u,
        ;
        lemma_gap_times(x0, x1, s);
        lemma_times_s(0x200_0000 * gap(x0, x1), w * k, s);
        let g = gap(x0, x1);
        assert((0x200_0000 * g) * s == 0x200_0000 * (g * s)) by (nonlinear_arith);
        assert((w * k) * s == w2 * k) by (nonlinear_arith)
            requires
                w2 == w * s,
        ;
    }
    assert(0x200_0000 * gap(q2 * u, e2) <= 2 * (w2 * a) + 0x100_0000 * (l * u)) by {
        let x0 = q * u;
        assert(q2 * u == x0 * s) by (nonlinear_arith)
            requires
                q2 == q * s,
                x0 == q * u,
        ;
        lemma_gap_times(x0, e, s);
        let g = gap(x0, e);
        let (x1, x2) = (w * a, n * u);
        lemma_times_s(0x200_0000 * g, 2 * x1 + 0x100_0000 * x2, s);
        assert((0x200_0000 * g) * s == 0x200_0000 * (g * s)) by (nonlinear_arith);
        assert((2 * x1 + 0x100_0000 * x2) * s == 2 * (x1 * s) + 0x100_0000 * (x2 * s))
            by (nonlinear_arith);
        assert(w2 * a == x1 * s) by (nonlinear_arith)
            requires
                w2 == w * s,
                x1 == w * a,
        ;
        assert(l * u == x2 * s) by (nonlinear_arith)
            requires
                l == n * s,
                x2 == n * u,
        ;
    }
    assert(0x80_0000 * gap(y2, q2) <= n * b2) by {
        lemma_gap_times(y, q, s);
        let g = gap(y, q);
        lemma_times_s(0x80_0000 * g, n * b, s);
        assert((0x80_0000 * g) * s == 0x80_0000 * (g * s)) by (nonlinear_arith);
        assert((n * b) * s == n * b2) by (nonlinear_arith)
            requires
                b2 == b * s,
        ;
    }
    lemma_excess(n, l, u, w2, s, t, a, b2, c2, e2, q2, y2, c);
    assert(n * w2 + 0x20_0000 * l == (n * w + 0x20_0000 * n) * s) by (nonlinear_arith)
        requires
            w2 == w * s,
            l == n * s,
    ;
}

/// Differences scale.
proof fn lemma_gap_times(x: int, y: int, s: int)
    requires
        s > 0,
    ensures
        gap(x * s, y * s) == gap(x, y) * s,
{
    assert(x * s - y * s == (x - y) * s) by (nonlinear_arith);
    assert(y * s - x * s == (y - x) * s) by (nonlinear_arith);
    if x > y {
        assert((x - y) * s > 0) by (nonlinear_arith)
            requires
                x > y,
                s > 0,
        ;
    } else if x < y {
        assert((y - x) * s > 0) by (nonlinear_arith)
            requires
                x < y,
                s > 0,
        ;
    } else {
        assert(0 * s == 0);
    }
}

proof fn lemma_times_s(x: int, y: int, s: int)
    requires
        x <= y,
        s > 0,
    ensures
        x * s <= y * s,
{
    assert(x * s <= y * s) by (nonlinear_arith)
        requires
            x <= y,
            s > 0,
    ;
}

} // verus!
