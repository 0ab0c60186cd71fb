//! Half precision and the upper halves of single precision (bfloat), as bits.

use vstd::arithmetic::power2::{lemma2_to64, lemma_pow2_adds, lemma_pow2_pos, pow2};
use vstd::prelude::*;

use crate::float::round::{
    gap, lemma_has_nearest, lemma_mag_at, lemma_mag_grows, lemma_mag_split,
    lemma_nearest_is_closest, lemma_rounded_exact, mag, nearest, rounded,
};
use crate::float::single::{
    code, is_nan, join, magnitude, nearest_single, negative, round_shifted, with_sign, INF, SIGN,
};

verus! {

/// The single-precision number that a half-precision one stands for. The smallest
/// half-precision magnitude is `2^-24`, which is `2^125` of the smallest
/// single-precision one.
pub open spec fn widen_half(h: u16) -> u32 {
    let c = (h % 0x8000) as nat;
    if c >= 0x7C00 {
        ((if h >= 0x8000 {
            SIGN as int
        } else {
            0
        }) + INF + (c - 0x7C00) * 0x2000) as u32
    } else {
        nearest_single(h >= 0x8000, mag(c, 10) * pow2(125), 1)
    }
}

/// The half-precision number nearest to a single-precision one.
pub open spec fn narrow_half(x: u32) -> u16 {
    let s: int = if negative(x) {
        0x8000
    } else {
        0
    };
    if is_nan(x) {
        (s + 0x7E00) as u16
    } else {
        let c = rounded(magnitude(x), pow2(125), 10);
        (s + if c > 0x7C00 {
            0x7C00
        } else {
            c as int
        }) as u16
    }
}

/// A finite half-precision number keeps its value in single precision.
pub proof fn law_widen_half_is_exact(h: u16)
    requires
        h % 0x8000 < 0x7C00,
    ensures
        code(widen_half(h)) < INF,
        magnitude(widen_half(h)) == mag((h % 0x8000) as nat, 10) * pow2(125),
        negative(widen_half(h)) <==> h >= 0x8000,
{
    let c = (h % 0x8000) as nat;
    let (k, q) = lemma_mag_split(c, 10);
    lemma2_to64();
    let d = exact_code(k, q);
    assert(magnitude(with_sign(h >= 0x8000, d)) == mag(d, 23));
    let num = mag(c, 10) * pow2(125);
    assert(mag(d, 23) * 1 == num);
    lemma_rounded_exact(num, 1, d, 23);
}

/// The single-precision code of a half-precision significand and exponent.
proof fn exact_code(k: nat, q: nat) -> (d: nat)
    requires
        q < 2048,
        k <= 30,
    ensures
        d < INF,
        mag(d, 23) == (q * pow2(k)) * pow2(125),
{
    lemma2_to64();
    lemma_pow2_pos(k);
    lemma_pow2_pos(125);
    if q == 0 {
        assert((q * pow2(k)) * pow2(125) == 0) by (nonlinear_arith)
            requires
                q == 0,
        ;
        0
    } else {
        // Shift the significand to 24 bits.
        let s = shift_for(q);
        let e = (k + 125 - s) as nat;
        lemma_mag_at(e, q * pow2(s), 23);
        lemma_pow2_adds(s, e);
        lemma_pow2_adds(k, 125);
        assert((q * pow2(s)) * pow2(e) == (q * pow2(k)) * pow2(125)) by (nonlinear_arith)
            requires
                pow2(s) * pow2(e) == pow2((k + 125) as nat),
                pow2(k) * pow2(125) == pow2((k + 125) as nat),
        ;
        e * 0x80_0000 + q * pow2(s)
    }
}

/// By how much a significand of at most 11 bits has to be shifted to have 24.
proof fn shift_for(q: nat) -> (s: nat)
    requires
        0 < q < 2048,
    ensures
        13 <= s <= 23,
        0x80_0000 <= q * pow2(s) < 0x100_0000,
{
    lemma2_to64();
    if q >= 1024 {
        assert(q * pow2(13) == q * 8192) by (nonlinear_arith)
            requires
                pow2(13) == 8192,
        ;
        13
    } else {
        assert(q * pow2(13) < 0x80_0000) by (nonlinear_arith)
            requires
                pow2(13) == 8192,
                q < 1024,
        ;
        shift_more(q, 13)
    }
}

/// By how much more than `s` a significand below `2^(23 - s)` has to be shifted.
proof fn shift_more(q: nat, s: nat) -> (t: nat)
    requires
        13 <= s < 23,
        0 < q,
        q * pow2(s) < 0x80_0000,
    ensures
        13 <= t <= 23,
        0x80_0000 <= q * pow2(t) < 0x100_0000,
    decreases 23 - s,
{
    lemma2_to64();
    lemma_pow2_adds(s, 1);
    assert(q * pow2(s + 1) == 2 * (q * pow2(s))) by (nonlinear_arith)
        requires
            pow2(s + 1) == pow2(s) * 2,
    ;
    if q * pow2(s + 1) >= 0x80_0000 {
        s + 1
    } else {
        if s + 1 == 23 {
            assert(q * pow2(23) >= 0x80_0000) by (nonlinear_arith)
                requires
                    q >= 1,
                    pow2(23) == 0x80_0000,
            ;
        }
        shift_more(q, s + 1)
    }
}

/// Narrowing undoes widening: every half-precision number survives the trip
/// through single precision, and what is not a number stays so.
pub proof fn law_half_round_trip(h: u16)
    ensures
        h % 0x8000 <= 0x7C00 ==> narrow_half(widen_half(h)) == h,
        h % 0x8000 > 0x7C00 ==> is_nan(widen_half(h)) && narrow_half(widen_half(h)) % 0x8000
            > 0x7C00,
{
    let c = (h % 0x8000) as nat;
    let x = widen_half(h);
    lemma2_to64();
    if c < 0x7C00 {
        law_widen_half_is_exact(h);
        lemma_pow2_pos(125);
        lemma_rounded_exact(magnitude(x), pow2(125), c, 10);
    } else if c == 0x7C00 {
        // Infinity lies beyond every half-precision code.
        assert(code(x) == INF);
        lemma_mag_at(254, 0x80_0000, 23);
        assert(254 * 0x80_0000 + 0x80_0000 == INF);
        let d = (138 * 1024 + 1024) as nat;
        lemma_mag_at(138, 1024, 10);
        lemma_pow2_adds(23, 254);
        lemma_pow2_adds(10, 138);
        lemma_pow2_adds(148, 125);
        lemma_pow2_adds(273, 4);
        lemma_mag_at(142, 1024, 10);
        lemma_pow2_adds(10, 142);
        lemma_pow2_adds(152, 125);
        let e = (142 * 1024 + 1024) as nat;
        lemma_pow2_pos(125);
        assert(magnitude(x) == mag(e, 10) * pow2(125));
        lemma_rounded_exact(magnitude(x), pow2(125), e, 10);
    }
}

/// The value of a half-precision number, in single precision.
pub fn f16_to_f32(h: u16) -> (r: u32)
    ensures
        r == widen_half(h),
{
    let c: u16 = h % 0x8000;
    if c >= 0x7C00 {
        let d: u32 = INF + (c as u32 - 0x7C00) * 0x2000;
        return if h >= 0x8000 {
            SIGN + d
        } else {
            d
        };
    }
    proof {
        lemma2_to64();
    }
    let (m, e): (u64, u32) = if c < 1024 {
        assert(c as nat * pow2(0) == c as nat);
        (c as u64, 0)
    } else {
        proof {
            lemma_mag_at((c / 1024 - 1) as nat, (c % 1024 + 1024) as nat, 10);
        }
        (c as u64 % 1024 + 1024, c as u32 / 1024 - 1)
    };
    proof {
        lemma_pow2_adds(e as nat, 125);
        assert(m * pow2((e + 125) as nat) == (m * pow2(e as nat)) * pow2(125)) by (nonlinear_arith)
            requires
                pow2(e as nat) * pow2(125) == pow2((e + 125) as nat),
        ;
    }
    join(h >= 0x8000, round_shifted(m, e + 125, 0, 23))
}

/// The significand and the exponent of a number.
fn split(c: u32) -> (me: (u64, u32))
    requires
        c <= INF,
    ensures
        mag(c as nat, 23) == me.0 * pow2(me.1 as nat),
        me.0 < 0x100_0000,
        me.1 <= 254,
{
    proof {
        lemma2_to64();
    }
    if c < 0x80_0000 {
        assert(c as nat * pow2(0) == c as nat);
        return (c as u64, 0);
    }
    proof {
        lemma_mag_at((c / 0x80_0000 - 1) as nat, (c % 0x80_0000 + 0x80_0000) as nat, 23);
    }
    ((c % 0x80_0000 + 0x80_0000) as u64, c / 0x80_0000 - 1)
}

/// The half-precision number nearest to a single-precision one.
pub fn f32_to_f16(x: u32) -> (h: u16)
    ensures
        h == narrow_half(x),
{
    let s: u16 = if x >= SIGN {
        0x8000
    } else {
        0
    };
    if x % SIGN > INF {
        return s + 0x7E00;
    }
    let (m, e) = split(x % SIGN);
    let c: u64 = round_shifted(m, e, 125, 10);
    if c > 0x7C00 {
        s + 0x7C00
    } else {
        s + c as u16
    }
}

/// The half-precision magnitude from which on a number is narrowed to infinity, in units
/// of `2^-24`: half way between the largest finite one and the next, which is 65520.
proof fn lemma_half_top()
    ensures
        mag(0x7BFF, 10) + mag(0x7C00, 10) == 2 * (65520 * pow2(24)),
        mag(0x7C00, 10) == 65536 * pow2(24),
{
    lemma2_to64();
    lemma_mag_at(29, 2047, 10);
    lemma_mag_at(30, 1024, 10);
    assert(29 * 1024 + 2047 == 0x7BFF);
    assert(30 * 1024 + 1024 == 0x7C00);
}

/// Narrowing a number to half precision gives the nearest one, and infinity for those
/// whose magnitude is at least 65520. Of two that are equally near it gives the even one.
/// The sign is kept.
pub proof fn law_narrowed_half_is_nearest(x: u32)
    requires
        !is_nan(x),
    ensures
        ({
            let h = narrow_half(x);
            let c = (h % 0x8000) as nat;
            &&& c <= 0x7C00
            &&& (h >= 0x8000 <==> negative(x))
            &&& (c == 0x7C00 <==> magnitude(x) >= 65520 * pow2(149))
            &&& c < 0x7C00 ==> nearest(magnitude(x), pow2(125), c, 10) && forall|d: nat|
                gap(magnitude(x) as int, (mag(c, 10) * pow2(125)) as int) <= gap(
                    magnitude(x) as int,
                    (#[trigger] mag(d, 10) * pow2(125)) as int,
                )
        }),
{
    let m = magnitude(x);
    let den = pow2(125);
    let r = rounded(m, den, 10);
    lemma_pow2_pos(125);
    lemma_has_nearest(m, den, 10);
    lemma_half_top();
    lemma_pow2_adds(24, 125);
    let edge = 65520 * pow2(149);
    assert((2 * (65520 * pow2(24))) * den == 2 * edge) by (nonlinear_arith)
        requires
            edge == 65520 * pow2(149),
            pow2(24) * den == pow2(149),
    ;
    if r >= 0x7C00 {
        lemma_mag_grows(0x7BFF, (r - 1) as nat, 10);
        lemma_mag_grows(0x7C00, r, 10);
        let a = mag(0x7BFF, 10) + mag(0x7C00, 10);
        let b = mag((r - 1) as nat, 10) + mag(r, 10);
        assert(a * den <= b * den) by (nonlinear_arith)
            requires
                a <= b,
        ;
        assert(m >= edge);
    } else {
        lemma_mag_grows(r, 0x7BFF, 10);
        lemma_mag_grows(r + 1, 0x7C00, 10);
        let a = mag(r, 10) + mag(r + 1, 10);
        let b = mag(0x7BFF, 10) + mag(0x7C00, 10);
        assert(a * den <= b * den) by (nonlinear_arith)
            requires
                a <= b,
        ;
        if r < 0x7BFF {
            lemma_mag_grows(r, 0x7BFE, 10);
            lemma_mag_grows(0x7BFE, 0x7BFF, 10);
            assert(a * den < b * den) by (nonlinear_arith)
                requires
                    a < b,
                    den > 0,
            ;
        }
        assert(m < edge);
        assert forall|d: nat| gap(m as int, (mag(r, 10) * den) as int) <= gap(
            m as int,
            (#[trigger] mag(d, 10) * den) as int,
        ) by {
            lemma_nearest_is_closest(m, den, r, d, 10);
        }
    }
}

/// The single-precision number whose upper half is `b`.
pub open spec fn widen_bfloat(b: u16) -> u32 {
    (b * 0x1_0000) as u32
}

/// The upper half nearest to a single-precision number. The smallest magnitude
/// that an upper half stands for is `2^16` of the smallest single-precision one.
pub open spec fn narrow_bfloat(x: u32) -> u16 {
    if is_nan(x) {
        let half = (x / 0x1_0000) as u16;
        if half % 0x80 >= 0x40 {
            half
        } else {
            (half + 0x40) as u16
        }
    } else {
        ((if negative(x) {
            0x8000int
        } else {
            0
        }) + rounded(magnitude(x), pow2(16), 7)) as u16
    }
}

/// The value of an upper half, in single precision.
pub fn bf16_to_f32(b: u16) -> (r: u32)
    ensures
        r == widen_bfloat(b),
{
    b as u32 * 0x1_0000
}

/// A code with 7 fraction bits, extended by 16 zero bits, stands for the same
/// magnitude.
pub proof fn lemma_bfloat_mag(c: nat)
    ensures
        mag(c * 0x1_0000, 23) == mag(c, 7) * pow2(16),
{
    lemma2_to64();
    let (k, q) = lemma_mag_split(c, 7);
    lemma_mag_at(k, q * 0x1_0000, 23);
    assert(c * 0x1_0000 == k * 0x80_0000 + q * 0x1_0000);
    assert((q * 0x1_0000) * pow2(k) == (q * pow2(k)) * 0x1_0000) by (nonlinear_arith);
}

/// The upper half nearest to a single-precision number.
pub fn f32_to_bf16(x: u32) -> (b: u16)
    ensures
        b == narrow_bfloat(x),
{
    let half: u16 = (x / 0x1_0000) as u16;
    if x % SIGN > INF {
        return if half % 0x80 >= 0x40 {
            half
        } else {
            half + 0x40
        };
    }
    let s: u16 = if x >= SIGN {
        0x8000
    } else {
        0
    };
    let (m, e) = split(x % SIGN);
    let c: u64 = round_shifted(m, e, 16, 7);
    proof {
        // Infinity is the largest that can come out.
        lemma2_to64();
        lemma_bfloat_mag(0x7F80);
        lemma_mag_grows(code(x), INF as nat, 23);
        lemma_bfloat_bound(magnitude(x), c as nat);
    }
    s + c as u16
}

/// What is at most infinity is rounded to at most infinity.
proof fn lemma_bfloat_bound(num: nat, c: nat)
    requires
        num <= mag(0x7F80, 7) * pow2(16),
        nearest(num, pow2(16), c, 7),
    ensures
        c <= 0x7F80,
{
    lemma2_to64();
    if c > 0x7F80 {
        let d = pow2(16);
        let top = mag(0x7F80, 7);
        lemma_mag_grows(0x7F80, (c - 1) as nat, 7);
        lemma_mag_grows(0x7F80, c, 7);
        let mid = mag((c - 1) as nat, 7) + mag(c, 7);
        assert(2 * num < mid * d) by (nonlinear_arith)
            requires
                num <= top * d,
                2 * top < mid,
                d > 0,
        ;
    }
}

/// The upper half of a number is rounded to at most infinity.
proof fn lemma_bfloat_rounded(x: u32)
    requires
        !is_nan(x),
    ensures
        nearest(magnitude(x), pow2(16), rounded(magnitude(x), pow2(16), 7), 7),
        rounded(magnitude(x), pow2(16), 7) <= 0x7F80,
{
    let m = magnitude(x);
    lemma_pow2_pos(16);
    lemma_has_nearest(m, pow2(16), 7);
    lemma_bfloat_mag(0x7F80);
    assert(0x7F80 * 0x1_0000 == INF as nat);
    lemma_mag_grows(code(x), INF as nat, 23);
    lemma_bfloat_bound(m, rounded(m, pow2(16), 7));
}

/// Narrowing a number to its upper half gives the nearest one; of two that are equally
/// near, the even one. Infinity is the largest that comes out.
pub proof fn law_narrowed_bfloat_is_nearest(x: u32)
    requires
        !is_nan(x),
    ensures
        ({
            let b = narrow_bfloat(x);
            let c = (b % 0x8000) as nat;
            &&& c <= 0x7F80
            &&& (b >= 0x8000 <==> negative(x))
            &&& nearest(magnitude(x), pow2(16), c, 7)
            &&& forall|d: nat|
                gap(magnitude(x) as int, (mag(c, 7) * pow2(16)) as int) <= gap(
                    magnitude(x) as int,
                    (#[trigger] mag(d, 7) * pow2(16)) as int,
                )
        }),
{
    lemma_bfloat_rounded(x);
    let m = magnitude(x);
    let r = rounded(m, pow2(16), 7);
    let b = narrow_bfloat(x);
    assert((b % 0x8000) as nat == r && (b >= 0x8000 <==> negative(x)));
    lemma_pow2_pos(16);
    assert forall|d: nat| gap(m as int, (mag(r, 7) * pow2(16)) as int) <= gap(
        m as int,
        (#[trigger] mag(d, 7) * pow2(16)) as int,
    ) by {
        lemma_nearest_is_closest(m, pow2(16), r, d, 7);
    }
}

/// Narrowing undoes widening on upper halves that are numbers.
pub proof fn law_bfloat_round_trip(b: u16)
    requires
        b % 0x8000 <= 0x7F80,
    ensures
        narrow_bfloat(widen_bfloat(b)) == b,
{
    let c = (b % 0x8000) as nat;
    let x = widen_bfloat(b);
    assert(code(x) == c * 0x1_0000);
    lemma_bfloat_mag(c);
    lemma_pow2_pos(16);
    lemma_rounded_exact(magnitude(x), pow2(16), c, 7);
}

} // verus!
