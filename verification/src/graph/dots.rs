//! How far sums of rounded products lie from exact ones, and so what products with weights
//! are. Values are in units of `2^-149`, products of two in units of `2^-298`.

use vstd::arithmetic::power2::{lemma2_to64, lemma_pow2_adds, lemma_pow2_pos, pow2};
use vstd::prelude::*;

use crate::float::error::{lemma_product_value, lemma_sum_near};
use crate::float::round::{gap, mag};
use crate::float::single::{code, magnitude, product, sum, value, INF};
use crate::graph::ops::dot;

verus! {

/// The exact sum of the products of `n` numbers of `a` from `i` on with those of `b` from `j`
/// on.
pub open spec fn inner(a: Seq<u32>, i: int, b: Seq<u32>, j: int, n: nat) -> int
    decreases n,
{
    if n == 0 {
        0
    } else {
        inner(a, i, b, j, (n - 1) as nat) + value(a[i + n - 1]) * value(b[j + n - 1])
    }
}

/// The exact sum of their magnitudes.
pub open spec fn bulk(a: Seq<u32>, i: int, b: Seq<u32>, j: int, n: nat) -> int
    decreases n,
{
    if n == 0 {
        0
    } else {
        bulk(a, i, b, j, (n - 1) as nat) + magnitude(a[i + n - 1]) * magnitude(b[j + n - 1])
    }
}

/// Whether `n` numbers of `a` from `i` on are finite.
pub open spec fn finite(a: Seq<u32>, i: int, n: nat) -> bool {
    forall|p: int| i <= p < i + n ==> code(#[trigger] a[p]) < INF
}

/// The exact sum is at most the sum of the magnitudes.
pub proof fn lemma_inner_bulk(a: Seq<u32>, i: int, b: Seq<u32>, j: int, n: nat)
    ensures
        gap(inner(a, i, b, j, n), 0) <= bulk(a, i, b, j, n),
    decreases n,
{
    if n > 0 {
        lemma_inner_bulk(a, i, b, j, (n - 1) as nat);
        lemma_size_of_product(a[i + n - 1], b[j + n - 1]);
    }
}

/// The size of an exact product.
pub proof fn lemma_size_of_product(x: u32, y: u32)
    ensures
        gap(value(x) * value(y), 0) == magnitude(x) * magnitude(y),
{
    let (a, b) = (magnitude(x) as int, magnitude(y) as int);
    assert((-a) * b == -(a * b) && a * (-b) == -(a * b) && (-a) * (-b) == a * b && a * b >= 0)
        by (nonlinear_arith)
        requires
            a >= 0,
            b >= 0,
    ;
}

/// One step of a sum of products, over whole numbers: `v` is the sum so far and `d` the exact
/// one, `p` the rounded product and `c` the exact one, `z` the new sum.
proof fn lemma_step(n: int, u: int, a: int, d: int, v: int, c: int, k: int, p: int, z: int)
    requires
        1 <= n <= 0x10_0000,
        u > 0,
        a >= 0,
        gap(d, 0) <= a,
        gap(c, 0) == k,
        0x40_0000 * gap(v * u, d) <= n * a + 0x40_0000 * ((n - 1) * u),
        0x200_0000 * gap(c, p * u) <= 2 * k + 0x100_0000 * u,
        gap(v + p, z) * 0x100_0000 <= gap(v + p, 0),
    ensures
        0x40_0000 * gap(z * u, d + c) <= (n + 1) * (a + k) + 0x40_0000 * (n * u),
{
    let (vu, pu, zu) = (v * u, p * u, z * u);
    let g = gap(v + p, z);
    assert((v + p) * u == vu + pu) by (nonlinear_arith)
        requires
            vu == v * u,
            pu == p * u,
    ;
    let gu = g * u;
    assert(gap(vu + pu, zu) == gu) by (nonlinear_arith)
        requires
            g == gap(v + p, z),
            gu == g * u,
            (v + p) * u == vu + pu,
            zu == z * u,
            u > 0,
    ;
    let f = gap(v + p, 0);
    let fu = f * u;
    assert(fu == gap(vu + pu, 0)) by (nonlinear_arith)
        requires
            f == gap(v + p, 0),
            fu == f * u,
            (v + p) * u == vu + pu,
            u > 0,
    ;
    assert(gu * 0x100_0000 <= fu) by (nonlinear_arith)
        requires
            g * 0x100_0000 <= f,
            gu == g * u,
            fu == f * u,
            u > 0,
    ;
    let na = n * a;
    let nu = n * u;
    assert((n - 1) * u == nu - u) by (nonlinear_arith)
        requires
            nu == n * u,
    ;
    assert(na <= 0x10_0000 * a && nu <= 0x10_0000 * u && nu >= u) by (nonlinear_arith)
        requires
            na == n * a,
            nu == n * u,
            1 <= n <= 0x10_0000,
            a >= 0,
            u > 0,
    ;
    assert((n + 1) * (a + k) >= na + a + k) by (nonlinear_arith)
        requires
            na == n * a,
            n >= 0,
            k >= 0,
    ;
    let e = gap(vu, d);
    let h = gap(c, pu);
    assert(gap(zu, d + c) <= gu + e + h);
    assert(fu <= a + e + k + h);
}

/// A sum of products errs by one part in `2^22` of their magnitudes for each and one more, and
/// by one smallest number for each.
pub proof fn lemma_dot_near(start: u32, a: Seq<u32>, i: int, b: Seq<u32>, j: int, n: nat)
    requires
        code(start) == 0,
        n <= 0x10_0000,
        finite(a, i, n),
        finite(b, j, n),
        bulk(a, i, b, j, n) <= pow2(270) * pow2(149),
    ensures
        ({
            let d = dot(start, a, i, b, j, n);
            let u = pow2(149);
            &&& code(d) < INF
            &&& 0x40_0000 * gap(value(d) * u, inner(a, i, b, j, n)) <= (n + 1) * bulk(a, i, b, j, n)
                + 0x40_0000 * (n * u)
            &&& magnitude(d) <= pow2(272)
        }),
    decreases n,
{
    let u = pow2(149) as int;
    lemma_pow2_pos(149);
    lemma_pow2_pos(23);
    lemma_pow2_pos(272);
    assert(mag(0, 23) == 0);
    if n == 0 {
        assert(value(start) == 0);
        assert(0 * u == 0);
        assert((0 + 1) * bulk(a, i, b, j, 0) == 0) by (nonlinear_arith)
            requires
                bulk(a, i, b, j, 0) == 0,
        ;
    } else {
        let l = (n - 1) as nat;
        let (x, y) = (a[i + n - 1], b[j + n - 1]);
        let k = magnitude(x) * magnitude(y);
        let w = bulk(a, i, b, j, l);
        lemma_size_of_product(x, y);
        lemma_inner_bulk(a, i, b, j, l);
        assert(k >= 0) by (nonlinear_arith)
            requires
                k == magnitude(x) * magnitude(y),
        ;
        lemma_dot_near(start, a, i, b, j, l);
        let d = dot(start, a, i, b, j, l);
        lemma2_to64();
        lemma_pow2_adds(6, 270);
        lemma_pow2_adds(2, 270);
        lemma_pow2_adds(20, 250);
        lemma_pow2_pos(250);
        lemma_pow2_pos(270);
        assert(pow2(270) * u <= pow2(276) * u) by (nonlinear_arith)
            requires
                pow2(276) == 64 * pow2(270),
                pow2(270) > 0,
                u > 0,
        ;
        lemma_product_value(x, y);
        let p = product(x, y);
        let pv = value(p);
        let pm = magnitude(p) as int;
        assert(gap(pv * u, 0) == pm * u) by (nonlinear_arith)
            requires
                pv == pm || pv == -pm,
                pm >= 0,
                u > 0,
        ;
        assert(pm <= 2 * pow2(270)) by (nonlinear_arith)
            requires
                0x200_0000 * (pm * u) <= 0x200_0000 * k + 2 * k + 0x100_0000 * u,
                k <= pow2(270) * u,
                u > 0,
                pow2(270) >= 0x10_0000,
        ;
        assert(gap(value(d) + pv, 0) <= pow2(276));
        lemma_sum_near(d, p);
        let z = value(sum(d, p));
        lemma_step(
            n as int,
            u,
            w,
            inner(a, i, b, j, l),
            value(d),
            value(x) * value(y),
            k as int,
            pv,
            z,
        );
        let t = w + k;
        let zm = magnitude(sum(d, p)) as int;
        assert(gap(z * u, 0) == zm * u) by (nonlinear_arith)
            requires
                z == zm || z == -zm,
                zm >= 0,
                u > 0,
        ;
        lemma_inner_bulk(a, i, b, j, n);
        assert((n + 1) * t <= 0x20_0000 * t && n * u <= 0x10_0000 * u) by (nonlinear_arith)
            requires
                1 <= n <= 0x10_0000,
                t >= 0,
                u > 0,
        ;
        assert(0x40_0000 * (zm * u) <= 0x60_0000 * t + 0x40_0000 * (0x10_0000 * u));
        assert(zm <= 4 * pow2(270)) by (nonlinear_arith)
            requires
                0x40_0000 * (zm * u) <= 0x60_0000 * t + 0x40_0000 * (0x10_0000 * u),
                t <= pow2(270) * u,
                u > 0,
                pow2(270) >= 0x10_0000,
        ;
    }
}

} // verus!
