//! How far rounded results lie from exact ones. Magnitudes are in units of `2^-149`, so
//! one is `2^149`.

use vstd::arithmetic::power2::{lemma2_to64, lemma_pow2_adds, lemma_pow2_pos, pow2};
use vstd::prelude::*;

use crate::float::round::{
    gap, lemma_has_nearest, lemma_mag_at, lemma_mag_grows, lemma_rounding_error, mag, rounded,
};
use crate::float::single::{
    code, is_nan, magnitude, nearest_single, negative, of_int, product, quotient, sum, to_int, value,
    INF,
};

verus! {

/// What is at most a code's magnitude is rounded to at most that code.
pub proof fn lemma_rounded_at_most(num: nat, den: nat, c: nat, mbits: nat)
    requires
        den > 0,
        num <= mag(c, mbits) * den,
    ensures
        rounded(num, den, mbits) <= c,
{
    let r = rounded(num, den, mbits);
    lemma_has_nearest(num, den, mbits);
    if r > c {
        lemma_mag_grows(c, (r - 1) as nat, mbits);
        lemma_mag_grows(c, r, mbits);
        let m = mag(c, mbits);
        let s = mag((r - 1) as nat, mbits) + mag(r, mbits);
        assert(2 * num < s * den) by (nonlinear_arith)
            requires
                num <= m * den,
                s > 2 * m,
                den > 0,
        ;
    }
}

/// Whether `y` over one is `num` over `den`, up to one part in `2^24` or half a unit.
pub open spec fn near(num: nat, den: nat, y: nat) -> bool {
    ||| gap(num as int, (y * den) as int) * 0x100_0000 <= num
    ||| 2 * gap(num as int, (y * den) as int) <= den
}

/// The number nearest to a magnitude that is not too large is finite and near it.
pub proof fn lemma_near(neg: bool, num: nat, den: nat)
    requires
        den > 0,
        num <= pow2(276) * den,
    ensures
        code(nearest_single(neg, num, den)) < INF,
        negative(nearest_single(neg, num, den)) == neg,
        near(num, den, magnitude(nearest_single(neg, num, den))),
        num >= 0x80_0000 * den ==> gap(
            num as int,
            (magnitude(nearest_single(neg, num, den)) * den) as int,
        ) * 0x100_0000 <= num,
{
    lemma2_to64();
    lemma_mag_at(253, 0x80_0000, 23);
    lemma_pow2_adds(23, 253);
    let top = (253 * 0x80_0000 + 0x80_0000) as nat;
    lemma_rounded_at_most(num, den, top, 23);
    lemma_rounding_error(num, den, 23);
}

/// A product of finite numbers that is not too large.
pub proof fn lemma_product_near(x: u32, y: u32)
    requires
        code(x) < INF,
        code(y) < INF,
        magnitude(x) * magnitude(y) <= pow2(276) * pow2(149),
    ensures
        code(product(x, y)) < INF,
        negative(product(x, y)) == (negative(x) != negative(y)),
        near(magnitude(x) * magnitude(y), pow2(149), magnitude(product(x, y))),
{
    reveal(product);
    lemma_pow2_pos(149);
    lemma_near(negative(x) != negative(y), magnitude(x) * magnitude(y), pow2(149));
}

/// A quotient of finite numbers that is not too large.
pub proof fn lemma_quotient_near(x: u32, y: u32)
    requires
        code(x) < INF,
        0 < code(y) < INF,
        magnitude(x) * pow2(149) <= pow2(276) * magnitude(y),
    ensures
        magnitude(y) > 0,
        code(quotient(x, y)) < INF,
        negative(quotient(x, y)) == (negative(x) != negative(y)),
        near(magnitude(x) * pow2(149), magnitude(y), magnitude(quotient(x, y))),
        magnitude(x) * pow2(149) >= 0x80_0000 * magnitude(y) ==> gap(
            (magnitude(x) * pow2(149)) as int,
            (magnitude(quotient(x, y)) * magnitude(y)) as int,
        ) * 0x100_0000 <= magnitude(x) * pow2(149),
{
    reveal(quotient);
    lemma_pow2_pos(23);
    assert(mag(0, 23) == 0);
    lemma_mag_grows(0, code(y), 23);
    lemma_near(negative(x) != negative(y), magnitude(x) * pow2(149), magnitude(y));
}

/// A sum of finite numbers that is not too large.
pub proof fn lemma_sum_near(x: u32, y: u32)
    requires
        code(x) < INF,
        code(y) < INF,
        gap(value(x) + value(y), 0) <= pow2(276),
    ensures
        code(sum(x, y)) < INF,
        gap(value(x) + value(y), value(sum(x, y))) * 0x100_0000 <= gap(value(x) + value(y), 0),
        value(x) + value(y) > 0 ==> !negative(sum(x, y)),
        value(x) + value(y) < 0 ==> negative(sum(x, y)),
{
    reveal(sum);
    lemma_pow2_pos(23);
    assert(mag(0, 23) == 0);
    let s = value(x) + value(y);
    let r = sum(x, y);
    if s > 0 {
        lemma_near(false, s as nat, 1);
        assert(magnitude(r) * 1 == magnitude(r));
    } else if s < 0 {
        lemma_near(true, -s as nat, 1);
        assert(magnitude(r) * 1 == magnitude(r));
    } else {
        assert(code(r) == 0);
    }
}

/// A product of finite numbers, with its sign.
pub proof fn lemma_product_value(x: u32, y: u32)
    requires
        code(x) < INF,
        code(y) < INF,
        magnitude(x) * magnitude(y) <= pow2(276) * pow2(149),
    ensures
        code(product(x, y)) < INF,
        0x200_0000 * gap(value(x) * value(y), value(product(x, y)) * pow2(149)) <= 2 * gap(
            value(x) * value(y),
            0,
        ) + 0x100_0000 * pow2(149),
{
    let u = pow2(149);
    let (a, b) = (magnitude(x) as int, magnitude(y) as int);
    let p = magnitude(product(x, y)) as int;
    lemma_product_near(x, y);
    assert(value(x) * value(y) == if negative(x) != negative(y) {
        -(a * b)
    } else {
        a * b
    }) by (nonlinear_arith)
        requires
            value(x) == (if negative(x) {
                -a
            } else {
                a
            }),
            value(y) == (if negative(y) {
                -b
            } else {
                b
            }),
    ;
    assert((-p) * u == -(p * u)) by (nonlinear_arith);
    assert(0 <= a * b) by (nonlinear_arith)
        requires
            0 <= a,
            0 <= b,
    ;
}

/// A small integer as a number.
pub proof fn lemma_int_near(n: int)
    requires
        -0x1_0000 <= n <= 0x1_0000,
    ensures
        code(of_int(n)) < INF,
        negative(of_int(n)) == (n < 0),
        gap((gap(n, 0) * pow2(149)) as int, magnitude(of_int(n)) as int) * 0x100_0000 <= gap(n, 0)
            * pow2(149),
{
    reveal(of_int);
    let a = gap(n, 0) as nat;
    lemma2_to64();
    lemma_pow2_pos(149);
    lemma_pow2_adds(17, 149);
    lemma_pow2_adds(166, 110);
    lemma_pow2_adds(23, 126);
    lemma_pow2_pos(110);
    lemma_pow2_pos(126);
    let num = a * pow2(149);
    assert(num <= pow2(166)) by (nonlinear_arith)
        requires
            num == a * pow2(149),
            a <= 0x2_0000,
            0x2_0000 * pow2(149) == pow2(166),
    ;
    assert(pow2(166) <= pow2(276)) by (nonlinear_arith)
        requires
            pow2(166) * pow2(110) == pow2(276),
            pow2(110) > 0,
    ;
    lemma_near(n < 0, num, 1);
    if a > 0 {
        assert(num >= 0x80_0000) by (nonlinear_arith)
            requires
                num == a * pow2(149),
                a > 0,
                0x80_0000 * pow2(126) == pow2(149),
                pow2(126) > 0,
        ;
    } else {
        assert(0 * pow2(149) == 0);
    }
    assert(magnitude(of_int(n)) * 1 == magnitude(of_int(n)));
}

/// Rounding to an integer errs by at most a half, where the bounds leave room.
pub proof fn lemma_to_int_near(x: u32, lo: int, hi: int)
    requires
        !is_nan(x),
        2 * magnitude(x) < (2 * hi + 1) * pow2(149),
        2 * magnitude(x) < (1 - 2 * lo) * pow2(149) || !negative(x),
        lo <= 0 <= hi,
    ensures
        2 * gap((gap(to_int(x, lo, hi), 0) * pow2(149)) as int, magnitude(x) as int) <= pow2(149),
        gap(to_int(x, lo, hi), 0) <= (if negative(x) {
            -lo
        } else {
            hi
        }),
        to_int(x, lo, hi) < 0 ==> negative(x),
        to_int(x, lo, hi) > 0 ==> !negative(x),
{
    reveal(to_int);
    let u = pow2(149);
    let m = magnitude(x);
    lemma_pow2_pos(149);
    let n = ((2 * m + u) / (2 * u)) as nat;
    vstd::arithmetic::div_mod::lemma_fundamental_div_mod((2 * m + u) as int, (2 * u) as int);
    vstd::arithmetic::div_mod::lemma_mod_bound((2 * m + u) as int, (2 * u) as int);
    let r = (2 * m + u) % (2 * u);
    assert(2 * (n * u) == (2 * u) * n) by (nonlinear_arith);
    assert(2 * (n * u) <= 2 * m + u < 2 * (n * u) + 2 * u);
    assert(n <= hi) by (nonlinear_arith)
        requires
            2 * (n * u) <= 2 * m + u,
            2 * m < (2 * hi + 1) * u,
            u > 0,
    ;
    if negative(x) {
        assert(n <= -lo) by (nonlinear_arith)
            requires
                2 * (n * u) <= 2 * m + u,
                2 * m < (1 - 2 * lo) * u,
                u > 0,
        ;
    }
    let q = to_int(x, lo, hi);
    assert(q == if negative(x) {
        -(n as int)
    } else {
        n as int
    });
    assert(gap(q, 0) == n);
}

} // verus!
