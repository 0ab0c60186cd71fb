//! What the operations on single-precision numbers give: of all numbers the one nearest to the
//! exact result, and of two that are equally near the one whose last bit is zero. Values are
//! in units of `2^-149`.

use vstd::arithmetic::div_mod::{lemma_fundamental_div_mod, lemma_mod_bound};
use vstd::arithmetic::power2::{lemma_pow2_pos, pow2};
use vstd::prelude::*;

use crate::float::round::{
    gap, lemma_has_nearest, lemma_mag_grows, lemma_nearest_is_closest, mag, nearest, rounded,
};
use crate::float::single::{
    code, is_nan, larger, magnitude, negated, nearest_single, negative, order, positive, product, quotient,
    single_of_double, smaller, sum, to_int, value, INF, INF64, SIGN64,
};
use crate::formats::roundtrip_q4k::lemma_order_value;

verus! {

/// Whether `y` is the number nearest to `num / den` units of a sign, as far as `z` can tell: `z`
/// is no nearer, and if it is as near, `y` ends in zero.
pub open spec fn nearest_to(num: int, den: int, y: u32, z: u32) -> bool {
    let (a, b) = (gap(num, value(y) * den), gap(num, value(z) * den));
    a <= b && (a == b && value(z) != value(y) ==> y % 2 == 0)
}

/// Of two codes that are equally near the even one is taken.
proof fn lemma_even(num: nat, den: nat, c: nat, d: nat)
    requires
        den > 0,
        nearest(num, den, c, 23),
        c != d,
        gap(num as int, (mag(c, 23) * den) as int) == gap(num as int, (mag(d, 23) * den) as int),
    ensures
        c % 2 == 0,
{
    let (m, n) = (mag(c, 23), mag(d, 23));
    let (md, nd) = (m * den, n * den);
    if d < c {
        let b = mag((c - 1) as nat, 23);
        lemma_mag_grows(d, c, 23);
        if d < c - 1 {
            lemma_mag_grows(d, (c - 1) as nat, 23);
        }
        lemma_mag_grows((c - 1) as nat, c, 23);
        assert(nd < md) by (nonlinear_arith)
            requires
                nd == n * den,
                md == m * den,
                n < m,
                den > 0,
        ;
        assert((b + m) * den >= nd + md && (d < c - 1 ==> (b + m) * den > nd + md)) by (nonlinear_arith)
            requires
                nd == n * den,
                md == m * den,
                n <= b,
                d < c - 1 ==> n < b,
                den > 0,
        ;
        if d == c - 1 {
            assert((b + m) * den == nd + md) by (nonlinear_arith)
                requires
                    b == n,
                    nd == n * den,
                    md == m * den,
            ;
        }
    } else {
        let b = mag(c + 1, 23);
        lemma_mag_grows(c, d, 23);
        if d > c + 1 {
            lemma_mag_grows(c + 1, d, 23);
        }
        lemma_mag_grows(c, c + 1, 23);
        assert(nd > md) by (nonlinear_arith)
            requires
                nd == n * den,
                md == m * den,
                n > m,
                den > 0,
        ;
        assert((m + b) * den <= nd + md && (d > c + 1 ==> (m + b) * den < nd + md)) by (nonlinear_arith)
            requires
                nd == n * den,
                md == m * den,
                n >= b,
                d > c + 1 ==> n > b,
                den > 0,
        ;
        if d == c + 1 {
            assert((m + b) * den == nd + md) by (nonlinear_arith)
                requires
                    b == n,
                    nd == n * den,
                    md == m * den,
            ;
        }
    }
}

/// A number with the sign and the nearest code, against another.
proof fn lemma_nearest_to(neg: bool, num: nat, den: nat, y: u32, z: u32)
    requires
        den > 0,
        code(y) < INF,
        code(z) < INF,
        code(y) == rounded(num, den, 23),
        negative(y) == neg,
    ensures
        nearest_to(if neg {
            -(num as int)
        } else {
            num as int
        }, den as int, y, z),
{
    let c = code(y);
    let d = code(z);
    lemma_has_nearest(num, den, 23);
    assert(nearest(num, den, c, 23));
    lemma_pow2_pos(23);
    assert(mag(0, 23) == 0);
    let (m, n) = (magnitude(y) as int, magnitude(z) as int);
    let k = den as int;
    assert((-m) * k == -(m * k) && (-n) * k == -(n * k)) by (nonlinear_arith);
    assert(m * k >= 0 && n * k >= 0) by (nonlinear_arith)
        requires
            m >= 0,
            n >= 0,
            k > 0,
    ;
    assert(y % 2 == c % 2) by {
        assert(y == c || y == c + 0x8000_0000);
    }
    if negative(z) == neg || n == 0 {
        lemma_nearest_is_closest(num, den, c, d, 23);
        if c == d {
            assert(m == n);
        } else if gap(num as int, m * k) == gap(num as int, n * k) {
            lemma_even(num, den, c, d);
        }
    } else {
        lemma_nearest_is_closest(num, den, c, 0, 23);
        assert(0 * k == 0);
        assert(n * k > 0) by (nonlinear_arith)
            requires
                n > 0,
                k > 0,
        ;
    }
}

/// A finite sum is the number nearest to the exact one.
pub proof fn law_sum_is_nearest(x: u32, y: u32, z: u32)
    requires
        code(x) < INF,
        code(y) < INF,
        code(z) < INF,
        code(sum(x, y)) < INF,
    ensures
        nearest_to(value(x) + value(y), 1, sum(x, y), z),
{
    reveal(sum);
    let s = value(x) + value(y);
    let r = sum(x, y);
    lemma_pow2_pos(23);
    assert(mag(0, 23) == 0);
    assert(value(z) * 1 == value(z) && value(r) * 1 == value(r));
    if s > 0 {
        lemma_finite_code(false, s as nat, 1);
        lemma_nearest_to(false, s as nat, 1, r, z);
    } else if s < 0 {
        lemma_finite_code(true, -s as nat, 1);
        lemma_nearest_to(true, -s as nat, 1, r, z);
    } else {
        assert(code(r) == 0);
        assert(value(r) == 0);
    }
}

/// A finite number that was rounded has the code that was rounded to.
proof fn lemma_finite_code(neg: bool, num: nat, den: nat)
    requires
        code(nearest_single(neg, num, den)) < INF,
    ensures
        code(nearest_single(neg, num, den)) == rounded(num, den, 23),
        negative(nearest_single(neg, num, den)) == neg,
{
}

/// A finite product is the number nearest to the exact one.
pub proof fn law_product_is_nearest(x: u32, y: u32, z: u32)
    requires
        code(x) < INF,
        code(y) < INF,
        code(z) < INF,
        code(product(x, y)) < INF,
    ensures
        nearest_to(value(x) * value(y), pow2(149) as int, product(x, y), z),
{
    reveal(product);
    lemma_pow2_pos(149);
    let neg = negative(x) != negative(y);
    let (a, b) = (magnitude(x) as int, magnitude(y) as int);
    assert((-a) * b == -(a * b) && a * (-b) == -(a * b) && (-a) * (-b) == a * b) by (nonlinear_arith);
    lemma_finite_code(neg, magnitude(x) * magnitude(y), pow2(149));
    lemma_nearest_to(neg, magnitude(x) * magnitude(y), pow2(149), product(x, y), z);
}

/// A finite quotient by a number above zero is the number nearest to the exact one.
pub proof fn law_quotient_is_nearest(x: u32, y: u32, z: u32)
    requires
        code(x) < INF,
        0 < code(y) < INF,
        !negative(y),
        code(z) < INF,
        code(quotient(x, y)) < INF,
    ensures
        nearest_to(value(x) * pow2(149), magnitude(y) as int, quotient(x, y), z),
{
    reveal(quotient);
    lemma_pow2_pos(149);
    lemma_pow2_pos(23);
    assert(mag(0, 23) == 0);
    lemma_mag_grows(0, code(y), 23);
    let (a, u) = (magnitude(x) as int, pow2(149) as int);
    assert((-a) * u == -(a * u)) by (nonlinear_arith);
    lemma_finite_code(negative(x), magnitude(x) * pow2(149), magnitude(y));
    lemma_nearest_to(negative(x), magnitude(x) * pow2(149), magnitude(y), quotient(x, y), z);
}

/// The opposite of a finite number has the opposite value.
pub proof fn law_opposite(x: u32)
    ensures
        negated(negated(x)) == x,
        code(x) < INF ==> code(negated(x)) < INF && value(negated(x)) == -value(x),
{
}

/// The larger and the smaller of two numbers are these two, in order; what is not a number gives
/// way to what is.
pub proof fn law_larger_and_smaller(x: u32, y: u32)
    ensures
        larger(x, y) == x || larger(x, y) == y,
        smaller(x, y) == x || smaller(x, y) == y,
        code(x) < INF && code(y) < INF ==> value(x) <= value(larger(x, y)) && value(y) <= value(
            larger(x, y),
        ) && value(smaller(x, y)) <= value(x) && value(smaller(x, y)) <= value(y),
        is_nan(x) ==> larger(x, y) == y && smaller(x, y) == y,
        is_nan(y) && !is_nan(x) ==> larger(x, y) == x && smaller(x, y) == x,
{
    if code(x) < INF && code(y) < INF {
        if order(x) <= order(y) {
            lemma_order_value(x, y);
        }
        if order(y) <= order(x) {
            lemma_order_value(y, x);
        }
    }
}

/// A number becomes the integer nearest to it, the one further from zero if two are equally near;
/// one outside the bounds becomes the bound, and what is not a number zero.
pub proof fn law_integers_are_nearest(x: u32, lo: int, hi: int)
    requires
        lo <= 0 <= hi,
    ensures
        lo <= to_int(x, lo, hi) <= hi,
        is_nan(x) ==> to_int(x, lo, hi) == 0,
        !is_nan(x) && lo < to_int(x, lo, hi) < hi ==> ({
            let (n, u, v) = (to_int(x, lo, hi), pow2(149) as int, value(x));
            &&& -u <= 2 * (v - n * u) <= u
            &&& v >= 0 ==> 2 * (v - n * u) < u
            &&& v <= 0 ==> -u < 2 * (v - n * u)
        }),
        !is_nan(x) && 2 * value(x) >= (2 * hi + 1) * pow2(149) ==> to_int(x, lo, hi) == hi,
        !is_nan(x) && 2 * value(x) <= (2 * lo - 1) * pow2(149) ==> to_int(x, lo, hi) == lo,
{
    reveal(to_int);
    lemma_pow2_pos(149);
    if !is_nan(x) {
        let u = pow2(149) as int;
        let m = magnitude(x) as int;
        let a = 2 * m + u;
        let n = a / (2 * u);
        lemma_fundamental_div_mod(a, 2 * u);
        lemma_mod_bound(a, 2 * u);
        assert(2 * u * n == 2 * (n * u) && (-n) * u == -(n * u)) by (nonlinear_arith);
        assert((2 * hi + 1) * u == 2 * (hi * u) + u && (2 * lo - 1) * u == 2 * (lo * u) - u)
            by (nonlinear_arith);
        assert(n < hi ==> n * u + u <= hi * u) by (nonlinear_arith)
            requires
                u > 0,
        ;
        assert(-n > lo ==> lo * u + u <= -(n * u)) by (nonlinear_arith)
            requires
                u > 0,
        ;
        assert(n >= 0) by (nonlinear_arith)
            requires
                n == a / (2 * u),
                a >= 0,
                u > 0,
        ;
        assert((n == 0 ==> n * u == 0) && (n > 0 ==> n * u >= u)) by (nonlinear_arith)
            requires
                u > 0,
        ;
        assert(lo * u <= 0 && hi * u >= 0) by (nonlinear_arith)
            requires
                lo <= 0 <= hi,
                u > 0,
        ;
    }
}

/// A double-precision number becomes the single-precision number nearest to it.
pub proof fn law_narrowed_double_is_nearest(x: u64, z: u32)
    requires
        x % SIGN64 < INF64,
        code(z) < INF,
        code(single_of_double(x)) < INF,
    ensures
        nearest_to(
            if x >= SIGN64 {
                -(mag((x % SIGN64) as nat, 52) as int)
            } else {
                mag((x % SIGN64) as nat, 52) as int
            },
            pow2(925) as int,
            single_of_double(x),
            z,
        ),
{
    reveal(single_of_double);
    lemma_pow2_pos(925);
    let m = mag((x % SIGN64) as nat, 52);
    lemma_finite_code(x >= SIGN64, m, pow2(925));
    lemma_nearest_to(x >= SIGN64, m, pow2(925), single_of_double(x), z);
}

/// A number counts as positive if and only if its value is above zero.
pub proof fn law_positive_by_value(x: u32)
    requires
        code(x) < INF,
    ensures
        positive(x) <==> value(x) > 0,
{
    lemma_pow2_pos(23);
    assert(mag(0, 23) == 0);
    if code(x) > 0 {
        lemma_mag_grows(0, code(x), 23);
    }
}

} // verus!
