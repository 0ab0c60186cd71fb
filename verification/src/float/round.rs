//! Rounding to the nearest floating-point number, ties to even.
//!
//! A floating-point format with `mbits` fraction bits numbers its magnitudes: code
//! 0 is zero, and each code stands for the next larger magnitude. The code is what
//! the bits below the sign hold.

use vstd::arithmetic::power2::{
    lemma2_to64, lemma_pow2_adds, lemma_pow2_pos, lemma_pow2_strictly_increases, lemma_pow2_unfold,
    pow2,
};
use vstd::prelude::*;

verus! {

/// The magnitude that `c` stands for, in units of the smallest one, in a format
/// with `mbits` fraction bits.
pub open spec fn mag(c: nat, mbits: nat) -> nat {
    let f = pow2(mbits);
    if c < f {
        c
    } else {
        (f + c % f) * pow2((c / f - 1) as nat)
    }
}

/// Whether `c` is the code nearest to the magnitude `num / den`, and the even one
/// of two that are equally near.
pub open spec fn nearest(num: nat, den: nat, c: nat, mbits: nat) -> bool {
    &&& c > 0 ==> 2 * num >= (mag((c - 1) as nat, mbits) + mag(c, mbits)) * den
    &&& c > 0 && 2 * num == (mag((c - 1) as nat, mbits) + mag(c, mbits)) * den ==> c % 2 == 0
    &&& 2 * num <= (mag(c, mbits) + mag(c + 1, mbits)) * den
    &&& 2 * num == (mag(c, mbits) + mag(c + 1, mbits)) * den ==> c % 2 == 0
}

/// The code nearest to `num / den`.
pub open spec fn rounded(num: nat, den: nat, mbits: nat) -> nat {
    choose|c: nat| nearest(num, den, c, mbits)
}

/// A significand `q` of `mbits + 1` bits at exponent `k` has the code
/// `k * 2^mbits + q`; so has a smaller one at exponent 0.
pub proof fn lemma_mag_at(k: nat, q: nat, mbits: nat)
    requires
        q <= 2 * pow2(mbits),
        k == 0 || q >= pow2(mbits),
    ensures
        mag(k * pow2(mbits) + q, mbits) == q * pow2(k),
{
    let f = pow2(mbits);
    lemma_pow2_pos(mbits);
    let c = k * f + q;
    lemma2_to64();
    if q < f {
        assert(k * f == 0) by (nonlinear_arith)
            requires
                k == 0,
        ;
    } else if q < 2 * f {
        assert(c == (k + 1) * f + (q - f)) by (nonlinear_arith)
            requires
                c == k * f + q,
        ;
        vstd::arithmetic::div_mod::lemma_fundamental_div_mod_converse(
            c as int,
            f as int,
            (k + 1) as int,
            q - f,
        );
        assert(c >= f) by (nonlinear_arith)
            requires
                c == k * f + q,
                q >= f,
                k >= 0,
                f > 0,
        ;
    } else {
        assert(c == (k + 2) * f + 0) by (nonlinear_arith)
            requires
                c == k * f + q,
                q == 2 * f,
        ;
        vstd::arithmetic::div_mod::lemma_fundamental_div_mod_converse(
            c as int,
            f as int,
            (k + 2) as int,
            0,
        );
        assert(c >= f) by (nonlinear_arith)
            requires
                c == k * f + q,
                q >= f,
                k >= 0,
                f > 0,
        ;
        lemma_pow2_unfold(k + 1);
        assert(f * pow2(k + 1) == q * pow2(k)) by (nonlinear_arith)
            requires
                pow2(k + 1) == 2 * pow2(k),
                q == 2 * f,
        ;
    }
}

/// Every code has a significand and an exponent.
pub proof fn lemma_mag_split(c: nat, mbits: nat) -> (kq: (nat, nat))
    ensures
        c == kq.0 * pow2(mbits) + kq.1,
        kq.1 < 2 * pow2(mbits),
        kq.0 == 0 || kq.1 >= pow2(mbits),
        mag(c, mbits) == kq.1 * pow2(kq.0),
{
    let f = pow2(mbits);
    lemma_pow2_pos(mbits);
    if c < f {
        lemma_mag_at(0, c, mbits);
        assert(0 * f == 0);
        (0, c)
    } else {
        vstd::arithmetic::div_mod::lemma_fundamental_div_mod(c as int, f as int);
        assert(c / f >= 1) by (nonlinear_arith)
            requires
                c >= f,
                f > 0,
                c == f * (c / f) + c % f,
                c % f < f,
        ;
        let k = (c / f - 1) as nat;
        let q = f + c % f;
        assert(c == k * f + q) by (nonlinear_arith)
            requires
                c == f * (c / f) + c % f,
                k == c / f - 1,
                q == f + c % f,
        ;
        assert(c % f < f) by (nonlinear_arith)
            requires
                f > 0,
        ;
        lemma_mag_at(k, q, mbits);
        (k, q)
    }
}

/// A larger code stands for a larger magnitude.
pub proof fn lemma_mag_step(c: nat, mbits: nat)
    ensures
        mag(c, mbits) < mag(c + 1, mbits),
{
    let (k, q) = lemma_mag_split(c, mbits);
    lemma_mag_at(k, q + 1, mbits);
    lemma_pow2_pos(k);
    assert((q + 1) * pow2(k) > q * pow2(k)) by (nonlinear_arith)
        requires
            pow2(k) > 0,
    ;
}

/// Codes and magnitudes are ordered alike.
pub proof fn lemma_mag_grows(c: nat, d: nat, mbits: nat)
    requires
        c <= d,
    ensures
        mag(c, mbits) <= mag(d, mbits),
        c < d ==> mag(c, mbits) < mag(d, mbits),
    decreases d - c,
{
    if c < d {
        lemma_mag_step(c, mbits);
        lemma_mag_grows(c + 1, d, mbits);
    }
}

/// At most one code is nearest.
pub proof fn lemma_nearest_unique(num: nat, den: nat, c: nat, d: nat, mbits: nat)
    requires
        den > 0,
        nearest(num, den, c, mbits),
        nearest(num, den, d, mbits),
    ensures
        c == d,
{
    if c < d {
        lemma_nearest_order(num, den, c, d, mbits);
    } else if d < c {
        lemma_nearest_order(num, den, d, c, mbits);
    }
}

/// No two codes in order are both nearest.
proof fn lemma_nearest_order(num: nat, den: nat, c: nat, d: nat, mbits: nat)
    requires
        den > 0,
        nearest(num, den, c, mbits),
        c < d,
    ensures
        !nearest(num, den, d, mbits),
{
    let lo = mag(c, mbits) + mag(c + 1, mbits);
    let hi = mag((d - 1) as nat, mbits) + mag(d, mbits);
    lemma_mag_grows(c, (d - 1) as nat, mbits);
    lemma_mag_grows(c + 1, d, mbits);
    assert(lo * den <= hi * den) by (nonlinear_arith)
        requires
            lo <= hi,
            den > 0,
    ;
    if c + 1 < d {
        lemma_mag_grows(c + 1, d, mbits);
        assert(lo * den < hi * den) by (nonlinear_arith)
            requires
                lo < hi,
                den > 0,
        ;
    }
}

/// The nearest code is the rounded one.
pub proof fn lemma_rounded(num: nat, den: nat, c: nat, mbits: nat)
    requires
        den > 0,
        nearest(num, den, c, mbits),
    ensures
        rounded(num, den, mbits) == c,
{
    lemma_nearest_unique(num, den, c, rounded(num, den, mbits), mbits);
}

/// The largest code whose magnitude is at most `n`, from code `c` on.
proof fn lemma_code_below(n: nat, c: nat, mbits: nat) -> (d: nat)
    requires
        mag(c, mbits) <= n,
    ensures
        mag(d, mbits) <= n < mag(d + 1, mbits),
    decreases n - mag(c, mbits),
{
    lemma_mag_step(c, mbits);
    if n < mag(c + 1, mbits) {
        c
    } else {
        lemma_code_below(n, c + 1, mbits)
    }
}

/// Every whole magnitude has a nearest code, and that of a positive one is positive.
pub proof fn lemma_whole_is_rounded(n: nat, mbits: nat)
    ensures
        nearest(n, 1, rounded(n, 1, mbits), mbits),
        n > 0 ==> rounded(n, 1, mbits) > 0,
{
    lemma_pow2_pos(mbits);
    assert(mag(0, mbits) == 0);
    let d = lemma_code_below(n, 0, mbits);
    let lo = mag(d, mbits);
    let hi = mag(d + 1, mbits);
    lemma_mag_step(d + 1, mbits);
    if d > 0 {
        lemma_mag_step((d - 1) as nat, mbits);
    }
    let up = 2 * n > lo + hi || (2 * n == lo + hi && d % 2 == 1);
    let c = if up {
        d + 1
    } else {
        d
    };
    assert((lo + hi) * 1 == lo + hi);
    assert((hi + mag(d + 2, mbits)) * 1 == hi + mag(d + 2, mbits));
    if d > 0 {
        assert((mag((d - 1) as nat, mbits) + lo) * 1 == mag((d - 1) as nat, mbits) + lo);
    }
    assert(nearest(n, 1, c, mbits));
    lemma_rounded(n, 1, c, mbits);
    lemma_mag_at(0, 1, mbits);
    assert(pow2(0) == 1) by {
        vstd::arithmetic::power2::lemma2_to64();
    }
    assert(mag(1, mbits) == 1) by {
        assert(0 * pow2(mbits) + 1 == 1);
    }
}

/// Every magnitude has a nearest code.
pub proof fn lemma_has_nearest(num: nat, den: nat, mbits: nat)
    requires
        den > 0,
    ensures
        nearest(num, den, rounded(num, den, mbits), mbits),
{
    lemma_pow2_pos(mbits);
    assert(mag(0, mbits) == 0);
    let n = num / den;
    vstd::arithmetic::div_mod::lemma_fundamental_div_mod(num as int, den as int);
    vstd::arithmetic::div_mod::lemma_mod_bound(num as int, den as int);
    let d = lemma_code_below(n, 0, mbits);
    let lo = mag(d, mbits);
    let hi = mag(d + 1, mbits);
    let top = mag(d + 2, mbits);
    lemma_mag_step(d + 1, mbits);
    assert(lo * den <= num < hi * den) by (nonlinear_arith)
        requires
            lo <= n,
            n + 1 <= hi,
            num == den * n + num % den,
            0 <= num % den < den,
    ;
    let mid = (lo + hi) * den;
    assert(mid == lo * den + hi * den) by (nonlinear_arith)
        requires
            mid == (lo + hi) * den,
    ;
    assert((hi + top) * den > 2 * (hi * den)) by (nonlinear_arith)
        requires
            hi < top,
            den > 0,
    ;
    if d > 0 {
        lemma_mag_step((d - 1) as nat, mbits);
        let down = mag((d - 1) as nat, mbits);
        assert((down + lo) * den < 2 * (lo * den)) by (nonlinear_arith)
            requires
                down < lo,
                den > 0,
        ;
    }
    let up = 2 * num > mid || (2 * num == mid && d % 2 == 1);
    let c = if up {
        d + 1
    } else {
        d
    };
    assert(nearest(num, den, c, mbits));
    lemma_rounded(num, den, c, mbits);
}

/// How far apart two magnitudes are.
pub open spec fn gap(a: int, b: int) -> int {
    if a < b {
        b - a
    } else {
        a - b
    }
}

/// No code is nearer than the nearest.
pub proof fn lemma_nearest_is_closest(num: nat, den: nat, c: nat, d: nat, mbits: nat)
    requires
        den > 0,
        nearest(num, den, c, mbits),
    ensures
        gap(num as int, (mag(c, mbits) * den) as int) <= gap(
            num as int,
            (mag(d, mbits) * den) as int,
        ),
{
    let m = mag(c, mbits);
    let n = mag(d, mbits);
    if d < c {
        let below = mag((c - 1) as nat, mbits);
        lemma_mag_grows(d, (c - 1) as nat, mbits);
        lemma_mag_grows((c - 1) as nat, c, mbits);
        assert(n * den <= below * den && below * den <= m * den && (below + m) * den == below * den
            + m * den) by (nonlinear_arith)
            requires
                n <= below,
                below <= m,
                den > 0,
        ;
    } else if c < d {
        let above = mag(c + 1, mbits);
        lemma_mag_grows(c + 1, d, mbits);
        lemma_mag_grows(c, c + 1, mbits);
        assert(above * den <= n * den && m * den <= above * den && (m + above) * den == m * den
            + above * den) by (nonlinear_arith)
            requires
                above <= n,
                m <= above,
                den > 0,
        ;
    }
}

/// A code and the next lie apart by a power of two, which the code's magnitude holds at
/// least as often as a significand has values; below the first such magnitude they lie
/// apart by one.
proof fn lemma_mag_gap(c: nat, mbits: nat)
    ensures
        mag(c + 1, mbits) - mag(c, mbits) > 0,
        c >= pow2(mbits) ==> (mag(c + 1, mbits) - mag(c, mbits)) * pow2(mbits) <= mag(c, mbits),
        c < pow2(mbits) ==> mag(c + 1, mbits) - mag(c, mbits) == 1,
{
    let f = pow2(mbits);
    let (k, q) = lemma_mag_split(c, mbits);
    lemma_mag_at(k, q, mbits);
    lemma_mag_at(k, q + 1, mbits);
    lemma_pow2_pos(mbits);
    lemma_pow2_pos(k);
    let u = pow2(k);
    assert((q + 1) * u == q * u + u) by (nonlinear_arith);
    if c >= f {
        assert(q >= f);
        assert(u * f <= q * u) by (nonlinear_arith)
            requires
                q >= f,
                u > 0,
        ;
    } else {
        assert(k == 0) by (nonlinear_arith)
            requires
                c == k * f + q,
                c < f,
                f > 0,
                k == 0 || q >= f,
        ;
        lemma2_to64();
    }
}

/// The nearest code errs by at most half a step: relative to the magnitude, by one part
/// in twice the values of a significand; below the first magnitude with a full
/// significand, by half of the smallest one.
pub proof fn lemma_rounding_error(num: nat, den: nat, mbits: nat)
    requires
        den > 0,
    ensures
        num >= pow2(mbits) * den ==> gap(num as int, (mag(rounded(num, den, mbits), mbits) * den) as int)
            * (2 * pow2(mbits)) <= num,
        num < pow2(mbits) * den ==> 2 * gap(
            num as int,
            (mag(rounded(num, den, mbits), mbits) * den) as int,
        ) <= den,
{
    let r = rounded(num, den, mbits);
    let f = pow2(mbits);
    lemma_has_nearest(num, den, mbits);
    lemma_pow2_pos(mbits);
    assert(mag(0, mbits) == 0);
    let n = num / den;
    vstd::arithmetic::div_mod::lemma_fundamental_div_mod(num as int, den as int);
    vstd::arithmetic::div_mod::lemma_mod_bound(num as int, den as int);
    let d = lemma_code_below(n, 0, mbits);
    let lo = mag(d, mbits);
    let hi = mag(d + 1, mbits);
    let step = (hi - lo) as nat;
    assert(lo * den <= num < hi * den && hi * den == lo * den + step * den) by (nonlinear_arith)
        requires
            lo <= n,
            n + 1 <= hi,
            num == den * n + num % den,
            0 <= num % den < den,
            step == hi - lo,
    ;
    lemma_nearest_is_closest(num, den, r, d, mbits);
    lemma_nearest_is_closest(num, den, r, d + 1, mbits);
    let e = gap(num as int, (mag(r, mbits) * den) as int);
    assert(2 * e <= step * den);
    lemma_mag_gap(d, mbits);
    assert(mag(f, mbits) == f) by {
        lemma_mag_at(0, f, mbits);
        lemma2_to64();
        assert(0 * f + f == f && f * 1 == f);
    }
    if num >= f * den {
        if d < f {
            lemma_mag_grows(d + 1, f, mbits);
            assert(hi * den <= f * den) by (nonlinear_arith)
                requires
                    hi <= f,
            ;
        }
        assert(e * (2 * f) <= lo * den) by (nonlinear_arith)
            requires
                2 * e <= step * den,
                step * f <= lo,
                e >= 0,
                den > 0,
                f > 0,
        ;
    } else {
        if d >= f {
            lemma_mag_grows(f, d, mbits);
            assert(f * den <= lo * den) by (nonlinear_arith)
                requires
                    f <= lo,
            ;
        }
        assert(step * den == den) by (nonlinear_arith)
            requires
                step == 1,
        ;
    }
}

/// A magnitude that a code stands for is rounded to that code.
pub proof fn lemma_rounded_exact(num: nat, den: nat, c: nat, mbits: nat)
    requires
        den > 0,
        num == mag(c, mbits) * den,
    ensures
        nearest(num, den, c, mbits),
        rounded(num, den, mbits) == c,
{
    lemma_mag_step(c, mbits);
    let m = mag(c, mbits);
    let up = mag(c + 1, mbits);
    assert(2 * num < (m + up) * den) by (nonlinear_arith)
        requires
            num == m * den,
            m < up,
            den > 0,
    ;
    if c > 0 {
        lemma_mag_step((c - 1) as nat, mbits);
        let down = mag((c - 1) as nat, mbits);
        assert(2 * num > (down + m) * den) by (nonlinear_arith)
            requires
                num == m * den,
                down < m,
                den > 0,
        ;
    }
    lemma_rounded(num, den, c, mbits);
}

/// The part of `m * 2^a` above the fraction line.
pub open spec fn scaled_num(m: nat, a: int) -> nat {
    if a >= 0 {
        m * pow2(a as nat)
    } else {
        m
    }
}

/// The part of `m * 2^a` below the fraction line.
pub open spec fn scaled_den(a: int) -> nat {
    if a >= 0 {
        1
    } else {
        pow2(-a as nat)
    }
}

/// 2 to the power of `e`.
pub fn pow2_u64(e: u32) -> (p: u64)
    requires
        e < 64,
    ensures
        p == pow2(e as nat),
{
    let mut p: u64 = 1;
    let mut i: u32 = 0;
    proof {
        lemma2_to64();
    }
    while i < e
        invariant
            i <= e < 64,
            p == pow2(i as nat),
        decreases e - i,
    {
        proof {
            lemma_pow2_unfold((i + 1) as nat);
            if i + 1 < 63 {
                lemma_pow2_strictly_increases((i + 1) as nat, 63);
            }
            lemma2_to64_top();
        }
        p = p * 2;
        i += 1;
    }
    p
}

proof fn lemma2_to64_top()
    ensures
        pow2(63) == 0x8000_0000_0000_0000,
        pow2(62) == 0x4000_0000_0000_0000,
{
    lemma2_to64();
    vstd::arithmetic::power2::lemma2_to64_rest();
}

/// The position of the top bit of `m`.
fn top_bit(m: u64) -> (t: u32)
    requires
        0 < m,
    ensures
        t < 64,
        pow2(t as nat) <= m < pow2(t as nat + 1),
{
    let mut x: u64 = m;
    let mut t: u32 = 0;
    proof {
        lemma2_to64();
        assert(m < 0x1_0000_0000_0000_0000);
    }
    while x > 1
        invariant
            x > 0,
            t < 64,
            x * pow2(t as nat) <= m < (x + 1) * pow2(t as nat),
        decreases x,
    {
        proof {
            lemma_pow2_unfold(t as nat + 1);
            let p = pow2(t as nat);
            let y = x / 2;
            lemma_pow2_pos(t as nat);
            assert(y * (2 * p) <= x * p && (x + 1) * p <= (y + 1) * (2 * p)) by (nonlinear_arith)
                requires
                    2 * y <= x,
                    x <= 2 * y + 1,
                    p > 0,
            ;
            if t == 63 {
                lemma2_to64_top();
                assert(false) by (nonlinear_arith)
                    requires
                        x >= 2,
                        p == 0x8000_0000_0000_0000,
                        x * p <= m,
                        m < 0x1_0000_0000_0000_0000,
                ;
            }
        }
        x = x / 2;
        t += 1;
    }
    proof {
        lemma_pow2_unfold(t as nat + 1);
        assert(1 * pow2(t as nat) == pow2(t as nat));
    }
    t
}

/// `2^k` over the denominator of `2^a` is `2^(k - a)` units of it.
proof fn lemma_scale(a: int, r: nat, k: nat)
    requires
        k == r + a,
    ensures
        pow2(k) * scaled_den(a) == pow2(r) * scaled_num(1, a),
        scaled_den(a) > 0,
        scaled_num(1, a) > 0,
{
    if a >= 0 {
        lemma_pow2_adds(r, a as nat);
        lemma_pow2_pos(a as nat);
        assert(pow2(k) * 1 == pow2(k));
        assert(1 * pow2(a as nat) == pow2(a as nat));
    } else {
        lemma_pow2_adds(k, -a as nat);
        lemma_pow2_pos(-a as nat);
        assert(pow2(r) * 1 == pow2(r));
    }
}

/// `m * 2^a` in units of its denominator.
proof fn lemma_scaled_num(m: nat, a: int)
    ensures
        scaled_num(m, a) == m * scaled_num(1, a),
{
    if a >= 0 {
        assert(1 * pow2(a as nat) == pow2(a as nat));
    } else {
        assert(m * 1 == m);
    }
}

/// Cutting `r` bits off `m` and rounding what is left gives the nearest code.
proof fn lemma_round_cut(m: nat, a: int, r: nat, k: nat, q: nat, rem: nat, up: bool, mbits: nat)
    requires
        mbits >= 1,
        k == r + a,
        m == q * pow2(r) + rem,
        rem < pow2(r),
        q < 2 * pow2(mbits),
        k == 0 || q >= pow2(mbits),
        up == (2 * rem > pow2(r) || (2 * rem == pow2(r) && q % 2 == 1)),
    ensures
        nearest(
            scaled_num(m, a),
            scaled_den(a),
            k * pow2(mbits) + q + if up {
                1nat
            } else {
                0nat
            },
            mbits,
        ),
        rem == 0 ==> mag(k * pow2(mbits) + q, mbits) * scaled_den(a) == scaled_num(m, a),
{
    let w = scaled_num(1, a);
    let den = scaled_den(a);
    let p = pow2(r);
    let num = scaled_num(m, a);
    let f = pow2(mbits);
    let c0 = k * f + q;
    lemma_scale(a, r, k);
    lemma_scaled_num(m, a);
    lemma_mag_at(k, q, mbits);
    lemma_mag_at(k, q + 1, mbits);
    let lo = mag(c0, mbits);
    let hi = mag(c0 + 1, mbits);
    assert(lo * den == q * (p * w)) by (nonlinear_arith)
        requires
            lo == q * pow2(k),
            pow2(k) * den == p * w,
    ;
    assert(hi * den == (q + 1) * (p * w)) by (nonlinear_arith)
        requires
            hi == (q + 1) * pow2(k),
            pow2(k) * den == p * w,
    ;
    assert(num == q * (p * w) + rem * w) by (nonlinear_arith)
        requires
            num == m * w,
            m == q * p + rem,
    ;
    let mid = (lo + hi) * den;
    assert(mid == 2 * (q * (p * w)) + p * w) by (nonlinear_arith)
        requires
            mid == (lo + hi) * den,
            lo * den == q * (p * w),
            hi * den == (q + 1) * (p * w),
    ;
    assert(2 * (rem * w) == (2 * rem) * w) by (nonlinear_arith);
    // The parity of the code is that of the significand.
    lemma_pow2_unfold(mbits);
    let h = pow2((mbits - 1) as nat);
    assert(k * f == 2 * (k * h)) by (nonlinear_arith)
        requires
            f == 2 * h,
    ;
    assert(c0 % 2 == q % 2);
    if up {
        assert((2 * rem) * w >= p * w) by (nonlinear_arith)
            requires
                2 * rem >= p,
                w > 0,
        ;
        if 2 * rem > p {
            assert((2 * rem) * w > p * w) by (nonlinear_arith)
                requires
                    2 * rem > p,
                    w > 0,
            ;
        }
        lemma_mag_step(c0 + 1, mbits);
        let hi2 = mag(c0 + 2, mbits);
        assert(2 * num < (hi + hi2) * den) by (nonlinear_arith)
            requires
                num == q * (p * w) + rem * w,
                rem < p,
                w > 0,
                hi * den == (q + 1) * (p * w),
                hi < hi2,
                den > 0,
        ;
    } else {
        assert((2 * rem) * w <= p * w) by (nonlinear_arith)
            requires
                2 * rem <= p,
                w > 0,
        ;
        if 2 * rem < p {
            assert((2 * rem) * w < p * w) by (nonlinear_arith)
                requires
                    2 * rem < p,
                    w > 0,
            ;
        }
        if c0 > 0 {
            lemma_mag_step((c0 - 1) as nat, mbits);
            let lo2 = mag((c0 - 1) as nat, mbits);
            assert(2 * num > (lo2 + lo) * den) by (nonlinear_arith)
                requires
                    num == q * (p * w) + rem * w,
                    rem >= 0,
                    w > 0,
                    lo * den == q * (p * w),
                    lo2 < lo,
                    den > 0,
            ;
        }
    }
    if rem == 0 {
        assert(rem * w == 0);
    }
}

/// A significand of at most `mbits + 1` bits needs no rounding.
proof fn lemma_round_short(m: nat, a: int, s: nat, k: nat, mbits: nat)
    requires
        mbits >= 1,
        k == a - s,
        m * pow2(s) < 2 * pow2(mbits),
        k == 0 || m * pow2(s) >= pow2(mbits),
    ensures
        nearest(scaled_num(m, a), scaled_den(a), k * pow2(mbits) + m * pow2(s), mbits),
        mag(k * pow2(mbits) + m * pow2(s), mbits) * scaled_den(a) == scaled_num(m, a),
{
    let q = m * pow2(s);
    lemma_mag_at(k, q, mbits);
    lemma_pow2_adds(s, k);
    assert(q * pow2(k) == m * pow2(a as nat)) by (nonlinear_arith)
        requires
            q == m * pow2(s),
            pow2(s) * pow2(k) == pow2(a as nat),
    ;
    let c = k * pow2(mbits) + q;
    assert(mag(c, mbits) * 1 == mag(c, mbits));
    lemma_rounded_exact(scaled_num(m, a), scaled_den(a), c, mbits);
}

/// A magnitude below half of the smallest one is rounded to zero.
proof fn lemma_round_tiny(m: nat, a: int, mbits: nat)
    requires
        mbits >= 1,
        2 * scaled_num(m, a) < scaled_den(a),
    ensures
        nearest(scaled_num(m, a), scaled_den(a), 0, mbits),
{
    lemma_pow2_unfold(mbits);
    lemma_pow2_pos((mbits - 1) as nat);
    assert(mag(0, mbits) == 0 && mag(1, mbits) == 1);
    let den = scaled_den(a);
    assert((mag(0, mbits) + mag(1, mbits)) * den == den) by (nonlinear_arith)
        requires
            mag(0, mbits) + mag(1, mbits) == 1,
    ;
}

/// The code nearest to `m * 2^a`.
pub fn round_code(m: u64, a: i32, mbits: u32) -> (c: u64)
    requires
        m < 0x4000_0000_0000_0000,
        1 <= mbits <= 23,
        -3000 <= a <= 3000,
    ensures
        nearest(scaled_num(m as nat, a as int), scaled_den(a as int), c as nat, mbits as nat),
        c == rounded(scaled_num(m as nat, a as int), scaled_den(a as int), mbits as nat),
        m < 2 * pow2(mbits as nat) && a >= 0 ==> mag(c as nat, mbits as nat) == m * pow2(a as nat),
        c < 0x10_0000_0000,
{
    let ghost num = scaled_num(m as nat, a as int);
    let ghost den = scaled_den(a as int);
    let ghost mb = mbits as nat;
    proof {
        lemma2_to64();
        lemma2_to64_top();
        lemma_scale(a as int, if a >= 0 {
            0nat
        } else {
            -a as nat
        }, if a >= 0 {
            a as nat
        } else {
            0nat
        });
        lemma_pow2_pos(mb);
        if mbits < 23 {
            lemma_pow2_strictly_increases(mb, 23);
        }
    }
    if m == 0 {
        proof {
            lemma_scaled_num(0, a as int);
            assert(num == 0) by (nonlinear_arith)
                requires
                    num == 0 * scaled_num(1, a as int),
            ;
            lemma_round_tiny(0, a as int, mb);
            lemma_rounded(num, den, 0, mb);
            if a >= 0 {
                assert(0 * pow2(a as nat) == 0);
            }
        }
        return 0;
    }
    let t: u32 = top_bit(m);
    let f: u64 = pow2_u64(mbits);
    proof {
        if t >= 62 {
            if t > 62 {
                lemma_pow2_strictly_increases(62, t as nat);
            }
            assert(false);
        }
    }
    let top: i32 = t as i32 - mbits as i32;
    let r: i32 = if top >= -a {
        top
    } else {
        -a
    };
    let k: u64 = (r + a) as u64;
    if r <= 0 {
        let s: u32 = (-r) as u32;
        let p: u64 = pow2_u64(s);
        proof {
            // m * 2^s lies below 2^(mbits + 1), and above 2^mbits unless k is zero.
            lemma_pow2_adds(t as nat + 1, s as nat);
            lemma_pow2_adds(t as nat, s as nat);
            let ghost low = pow2(t as nat);
            let ghost high = pow2(t as nat + 1);
            assert(m * p < high * p) by (nonlinear_arith)
                requires
                    m < high,
                    p > 0,
            ;
            assert(m * p >= low * p) by (nonlinear_arith)
                requires
                    m >= low,
                    p > 0,
            ;
            lemma_pow2_unfold(mb + 1);
            if t + 1 + s < mbits + 1 {
                lemma_pow2_strictly_increases((t + 1 + s) as nat, mb + 1);
            }
            assert(m * p < 2 * f);
            assert(k != 0 ==> m * p >= f);
            lemma_round_short(m as nat, a as int, s as nat, k as nat, mb);
            assert(k * f <= 3100 * 0x80_0000) by (nonlinear_arith)
                requires
                    k <= 3100,
                    f <= 0x80_0000,
            ;
        }
        let c: u64 = k * f + m * p;
        proof {
            lemma_rounded(num, den, c as nat, mb);
            if a >= 0 {
                assert(mag(c as nat, mb) * 1 == mag(c as nat, mb));
            }
        }
        return c;
    }
    if r >= 63 {
        proof {
            lemma_pow2_unfold(-a as nat);
            if -a - 1 > 62 {
                lemma_pow2_strictly_increases(62, (-a - 1) as nat);
            }
            lemma_round_tiny(m as nat, a as int, mb);
            lemma_rounded(num, den, 0, mb);
        }
        return 0;
    }
    let p: u64 = pow2_u64(r as u32);
    proof {
        lemma_pow2_pos(r as nat);
    }
    let q: u64 = m / p;
    let rem: u64 = m % p;
    let up: bool = rem > p - rem || (rem == p - rem && q % 2 == 1);
    proof {
        vstd::arithmetic::div_mod::lemma_fundamental_div_mod(m as int, p as int);
        assert(m == q * p + rem) by (nonlinear_arith)
            requires
                m == p * q + rem,
        ;
        // q lies below 2^(mbits + 1), and not below 2^mbits unless k is zero.
        lemma_pow2_adds(r as nat, mb + 1);
        lemma_pow2_adds(r as nat, mb);
        lemma_pow2_unfold(mb + 1);
        if t + 1 < r + mbits + 1 {
            lemma_pow2_strictly_increases(t as nat + 1, r as nat + mb + 1);
        }
        assert(q < 2 * f) by (nonlinear_arith)
            requires
                q * p <= m,
                m < p * (2 * f),
                p > 0,
        ;
        if k != 0 {
            assert(r + mbits == t);
            assert(q >= f) by (nonlinear_arith)
                requires
                    m == q * p + rem,
                    rem < p,
                    m >= p * f,
                    p > 0,
            ;
        }
        lemma_round_cut(
            m as nat,
            a as int,
            r as nat,
            k as nat,
            q as nat,
            rem as nat,
            up,
            mb,
        );
        assert(k * f <= 3100 * 0x80_0000) by (nonlinear_arith)
            requires
                k <= 3100,
                f <= 0x80_0000,
        ;
        if a >= 0 {
            // Then r is what m has too many bits.
            assert(r == top);
            lemma_pow2_unfold(mb + 1);
            if mbits + 1 < t {
                lemma_pow2_strictly_increases(mb + 1, t as nat);
            }
        }
    }
    let c: u64 = k * f + q + if up {
        1
    } else {
        0
    };
    proof {
        lemma_rounded(num, den, c as nat, mb);
    }
    c
}

/// Two fractions of one value have the same nearest code.
pub proof fn lemma_nearest_ratio(n1: nat, d1: nat, n2: nat, d2: nat, c: nat, mbits: nat)
    requires
        d1 > 0,
        d2 > 0,
        n1 * d2 == n2 * d1,
        nearest(n1, d1, c, mbits),
    ensures
        nearest(n2, d2, c, mbits),
        rounded(n2, d2, mbits) == c,
{
    let hi = mag(c, mbits) + mag(c + 1, mbits);
    lemma_ratio_order(n1, d1, n2, d2, hi);
    if c > 0 {
        lemma_ratio_order(n1, d1, n2, d2, mag((c - 1) as nat, mbits) + mag(c, mbits));
    }
    lemma_rounded(n2, d2, c, mbits);
}

/// Two fractions of one value compare alike.
proof fn lemma_ratio_order(n1: nat, d1: nat, n2: nat, d2: nat, x: nat)
    requires
        d1 > 0,
        d2 > 0,
        n1 * d2 == n2 * d1,
    ensures
        2 * n1 < x * d1 <==> 2 * n2 < x * d2,
        2 * n1 == x * d1 <==> 2 * n2 == x * d2,
{
    assert((2 * n1) * d2 == (2 * n2) * d1) by (nonlinear_arith)
        requires
            n1 * d2 == n2 * d1,
    ;
    assert((x * d1) * d2 == (x * d2) * d1) by (nonlinear_arith);
    let a = 2 * n1;
    let b = x * d1;
    let e = 2 * n2;
    let g = x * d2;
    assert(a < b ==> e < g) by (nonlinear_arith)
        requires
            a * d2 == e * d1,
            b * d2 == g * d1,
            d1 > 0,
            d2 > 0,
    ;
    assert(e < g ==> a < b) by (nonlinear_arith)
        requires
            a * d2 == e * d1,
            b * d2 == g * d1,
            d1 > 0,
            d2 > 0,
    ;
    assert(a == b ==> e == g) by (nonlinear_arith)
        requires
            a * d2 == e * d1,
            b * d2 == g * d1,
            d1 > 0,
            d2 > 0,
    ;
    assert(e == g ==> a == b) by (nonlinear_arith)
        requires
            a * d2 == e * d1,
            b * d2 == g * d1,
            d1 > 0,
            d2 > 0,
    ;
}

/// Whether `num / den` lies strictly between `m * 2^a` and `(m + 1) * 2^a`.
pub open spec fn strictly_above(num: nat, den: nat, m: nat, a: int) -> bool {
    &&& den > 0
    &&& scaled_num(m, a) * den < num * scaled_den(a)
    &&& num * scaled_den(a) < scaled_num(m + 1, a) * den
}

/// Cutting `r` bits off `m` and rounding what is left gives the code nearest to a
/// magnitude strictly between `m * 2^a` and `(m + 1) * 2^a`.
proof fn lemma_round_cut_above(
    num: nat,
    den: nat,
    m: nat,
    a: int,
    r: nat,
    k: nat,
    q: nat,
    rem: nat,
    mbits: nat,
)
    requires
        mbits >= 1,
        r >= 1,
        k == r + a,
        m == q * pow2(r) + rem,
        rem < pow2(r),
        q < 2 * pow2(mbits),
        k == 0 || q >= pow2(mbits),
        strictly_above(num, den, m, a),
    ensures
        nearest(
            num,
            den,
            k * pow2(mbits) + q + if 2 * rem >= pow2(r) {
                1nat
            } else {
                0nat
            },
            mbits,
        ),
{
    let w = scaled_num(1, a);
    let dd = scaled_den(a);
    let p = pow2(r);
    let f = pow2(mbits);
    let c0 = k * f + q;
    lemma_scale(a, r, k);
    lemma_scaled_num(m, a);
    lemma_scaled_num(m + 1, a);
    lemma_mag_at(k, q, mbits);
    lemma_mag_at(k, q + 1, mbits);
    let lo = mag(c0, mbits);
    let hi = mag(c0 + 1, mbits);
    let u = w * den;
    assert(lo * dd == q * (p * w)) by (nonlinear_arith)
        requires
            lo == q * pow2(k),
            pow2(k) * dd == p * w,
    ;
    assert(hi * dd == (q + 1) * (p * w)) by (nonlinear_arith)
        requires
            hi == (q + 1) * pow2(k),
            pow2(k) * dd == p * w,
    ;
    assert(u > 0) by (nonlinear_arith)
        requires
            u == w * den,
            w > 0,
            den > 0,
    ;
    assert(m * u < num * dd) by (nonlinear_arith)
        requires
            (m * w) * den < num * dd,
            u == w * den,
    ;
    assert(num * dd < (m + 1) * u) by (nonlinear_arith)
        requires
            num * dd < ((m + 1) * w) * den,
            u == w * den,
    ;
    assert((lo * den) * dd == (q * p) * u) by (nonlinear_arith)
        requires
            lo * dd == q * (p * w),
            u == w * den,
    ;
    assert((hi * den) * dd == (q * p + p) * u) by (nonlinear_arith)
        requires
            hi * dd == (q + 1) * (p * w),
            u == w * den,
    ;
    lemma_pow2_unfold(r);
    let mid = (lo + hi) * den;
    assert(mid * dd == (2 * (q * p) + p) * u) by (nonlinear_arith)
        requires
            mid == (lo + hi) * den,
            (lo * den) * dd == (q * p) * u,
            (hi * den) * dd == (q * p + p) * u,
    ;
    if 2 * rem >= p {
        assert(2 * num > mid) by (nonlinear_arith)
            requires
                m * u < num * dd,
                m == q * p + rem,
                2 * rem >= p,
                mid * dd == (2 * (q * p) + p) * u,
                u > 0,
                dd > 0,
        ;
        assert(num < hi * den) by (nonlinear_arith)
            requires
                num * dd < (m + 1) * u,
                m == q * p + rem,
                rem < p,
                (hi * den) * dd == (q * p + p) * u,
                u > 0,
                dd > 0,
        ;
        lemma_mag_step(c0 + 1, mbits);
        let hi2 = mag(c0 + 2, mbits);
        assert(2 * num < (hi + hi2) * den) by (nonlinear_arith)
            requires
                num < hi * den,
                hi < hi2,
                den > 0,
        ;
    } else {
        assert(2 * num < mid) by (nonlinear_arith)
            requires
                num * dd < (m + 1) * u,
                m == q * p + rem,
                2 * rem + 2 <= p,
                mid * dd == (2 * (q * p) + p) * u,
                u > 0,
                dd > 0,
        ;
        assert(num > lo * den) by (nonlinear_arith)
            requires
                m * u < num * dd,
                m == q * p + rem,
                rem >= 0,
                (lo * den) * dd == (q * p) * u,
                u > 0,
                dd > 0,
        ;
        if c0 > 0 {
            lemma_mag_step((c0 - 1) as nat, mbits);
            let lo2 = mag((c0 - 1) as nat, mbits);
            assert(2 * num > (lo2 + lo) * den) by (nonlinear_arith)
                requires
                    num > lo * den,
                    lo2 < lo,
                    den > 0,
            ;
        }
    }
}

/// The code nearest to a magnitude `num / den` strictly between `m * 2^a` and
/// `(m + 1) * 2^a`.
pub fn round_code_above(
    m: u64,
    a: i32,
    mbits: u32,
    Ghost(num): Ghost<nat>,
    Ghost(den): Ghost<nat>,
) -> (c: u64)
    requires
        2 * pow2(mbits as nat) <= m < 0x4000_0000_0000_0000,
        1 <= mbits <= 23,
        -3000 <= a <= 3000,
        strictly_above(num, den, m as nat, a as int),
    ensures
        c == rounded(num, den, mbits as nat),
        c < 0x10_0000_0000,
{
    let ghost mb = mbits as nat;
    proof {
        lemma_pow2_pos(mb);
    }
    let t: u32 = top_bit(m);
    let f: u64 = pow2_u64(mbits);
    proof {
        lemma2_to64();
        lemma2_to64_top();
        lemma_pow2_pos(mb);
        if mbits < 23 {
            lemma_pow2_strictly_increases(mb, 23);
        }
        if t >= 62 {
            if t > 62 {
                lemma_pow2_strictly_increases(62, t as nat);
            }
            assert(false);
        }
        lemma_pow2_unfold(mb + 1);
        if t < mbits + 1 {
            if t + 1 < mbits + 1 {
                lemma_pow2_strictly_increases(t as nat + 1, mb + 1);
            }
            assert(false);
        }
    }
    let top: i32 = t as i32 - mbits as i32;
    let r: i32 = if top >= -a {
        top
    } else {
        -a
    };
    let k: u64 = (r + a) as u64;
    if r >= 63 {
        proof {
            lemma_pow2_unfold(-a as nat);
            lemma_pow2_pos(-a as nat);
            if -a - 1 > 62 {
                lemma_pow2_strictly_increases(62, (-a - 1) as nat);
            }
            let dd = scaled_den(a as int);
            lemma_pow2_unfold(mb);
            lemma_pow2_pos((mb - 1) as nat);
            assert(mag(0, mb) == 0 && mag(1, mb) == 1);
            assert(2 * num < den) by (nonlinear_arith)
                requires
                    num * dd < (m + 1) * den,
                    2 * (m + 1) <= dd,
                    den > 0,
            ;
            assert((mag(0, mb) + mag(1, mb)) * den == den) by (nonlinear_arith)
                requires
                    mag(0, mb) + mag(1, mb) == 1,
            ;
            lemma_rounded(num, den, 0, mb);
        }
        return 0;
    }
    let p: u64 = pow2_u64(r as u32);
    proof {
        lemma_pow2_pos(r as nat);
    }
    let q: u64 = m / p;
    let rem: u64 = m % p;
    proof {
        vstd::arithmetic::div_mod::lemma_fundamental_div_mod(m as int, p as int);
        assert(m == q * p + rem) by (nonlinear_arith)
            requires
                m == p * q + rem,
        ;
        lemma_pow2_adds(r as nat, mb + 1);
        lemma_pow2_adds(r as nat, mb);
        if t + 1 < r + mbits + 1 {
            lemma_pow2_strictly_increases(t as nat + 1, r as nat + mb + 1);
        }
        assert(q < 2 * f) by (nonlinear_arith)
            requires
                q * p <= m,
                m < p * (2 * f),
                p > 0,
        ;
        if k != 0 {
            assert(r + mbits == t);
            assert(q >= f) by (nonlinear_arith)
                requires
                    m == q * p + rem,
                    rem < p,
                    m >= p * f,
                    p > 0,
            ;
        }
        lemma_round_cut_above(
            num,
            den,
            m as nat,
            a as int,
            r as nat,
            k as nat,
            q as nat,
            rem as nat,
            mb,
        );
        assert(k * f <= 3100 * 0x80_0000) by (nonlinear_arith)
            requires
                k <= 3100,
                f <= 0x80_0000,
        ;
    }
    let c: u64 = k * f + q + if rem >= p - rem {
        1
    } else {
        0
    };
    proof {
        lemma_rounded(num, den, c as nat, mb);
    }
    c
}

} // verus!
