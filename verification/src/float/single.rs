//! Single-precision arithmetic on the bits of the numbers: every result is the
//! exact one, rounded once, ties to even.

use vstd::arithmetic::power2::{
    lemma2_to64, lemma_pow2_adds, lemma_pow2_pos, lemma_pow2_strictly_increases, lemma_pow2_unfold,
    pow2,
};
use vstd::prelude::*;

use crate::float::round::{
    lemma_mag_at, lemma_mag_grows, lemma_nearest_ratio, lemma_rounded_exact,
    lemma_whole_is_rounded, mag, nearest, pow2_u64,
    round_code, round_code_above, rounded, scaled_den, scaled_num, strictly_above,
};

verus! {

/// The sign bit.
pub const SIGN: u32 = 0x8000_0000;

/// The code of infinity; what lies above it is not a number.
pub const INF: u32 = 0x7F80_0000;

/// The bits that stand for a result that is not a number.
pub const NAN: u32 = 0x7FC0_0000;

/// The sign of `x`.
pub open spec fn negative(x: u32) -> bool {
    x >= SIGN
}

/// What `x` holds below its sign.
pub open spec fn code(x: u32) -> nat {
    (x % SIGN) as nat
}

/// Whether `x` is not a number.
pub open spec fn is_nan(x: u32) -> bool {
    code(x) > INF
}

/// Whether `x` is an infinity.
pub open spec fn is_inf(x: u32) -> bool {
    code(x) == INF
}

/// The magnitude of a finite `x`, in units of `2^-149`.
pub open spec fn magnitude(x: u32) -> nat {
    mag(code(x), 23)
}

/// The value of a finite `x`, in units of `2^-149`.
pub open spec fn value(x: u32) -> int {
    if negative(x) {
        -(magnitude(x) as int)
    } else {
        magnitude(x) as int
    }
}

/// The bits with the given sign and code; a code beyond infinity is infinity.
pub open spec fn with_sign(neg: bool, c: nat) -> u32 {
    let m = if c > INF {
        INF as nat
    } else {
        c
    };
    if neg {
        (SIGN + m) as u32
    } else {
        m as u32
    }
}

/// The number nearest to `num / den` units.
pub open spec fn nearest_single(neg: bool, num: nat, den: nat) -> u32 {
    with_sign(neg, rounded(num, den, 23))
}

/// The bits with the given sign and code; a code beyond infinity is infinity.
pub fn join(neg: bool, c: u64) -> (x: u32)
    ensures
        x == with_sign(neg, c as nat),
{
    let m: u32 = if c > INF as u64 {
        INF
    } else {
        c as u32
    };
    if neg {
        SIGN + m
    } else {
        m
    }
}

/// The significand and the exponent of a number.
fn parts(x: u32) -> (me: (u64, u32))
    ensures
        magnitude(x) == me.0 * pow2(me.1 as nat),
        me.0 < 0x100_0000,
        me.1 <= 254,
        me.1 > 0 ==> me.0 >= 0x80_0000,
        me.0 == 0 <==> code(x) == 0,
{
    let c: u32 = x % SIGN;
    proof {
        lemma2_to64();
    }
    if c < 0x80_0000 {
        assert(c as nat * pow2(0) == c as nat);
        return (c as u64, 0);
    }
    let k: u32 = c / 0x80_0000 - 1;
    let q: u32 = c % 0x80_0000 + 0x80_0000;
    proof {
        lemma_mag_at(k as nat, q as nat, 23);
    }
    (q as u64, k)
}

/// `m * 2^a` over `2^s` is `m * 2^(a - s)`.
proof fn lemma_shift(m: nat, a: nat, s: nat)
    ensures
        scaled_num(m, a - s) * pow2(s) == (m * pow2(a)) * scaled_den(a - s),
        scaled_den(a - s) > 0,
        pow2(s) > 0,
{
    lemma_pow2_pos(s);
    let d = a - s;
    if d >= 0 {
        lemma_pow2_adds(d as nat, s);
        assert((m * pow2(d as nat)) * pow2(s) == (m * pow2(a)) * 1) by (nonlinear_arith)
            requires
                pow2(d as nat) * pow2(s) == pow2(a),
        ;
    } else {
        lemma_pow2_adds(a, -d as nat);
        lemma_pow2_pos(-d as nat);
        assert(m * pow2(s) == (m * pow2(a)) * pow2(-d as nat)) by (nonlinear_arith)
            requires
                pow2(a) * pow2(-d as nat) == pow2(s),
        ;
    }
}

/// The code nearest to `m * 2^(a - s)`.
pub fn round_shifted(m: u64, a: u32, s: u32, mbits: u32) -> (c: u64)
    requires
        m < 0x4000_0000_0000_0000,
        1 <= mbits <= 23,
        a <= 2900,
        s <= 2900,
    ensures
        c == rounded(m as nat * pow2(a as nat), pow2(s as nat), mbits as nat),
        nearest(m as nat * pow2(a as nat), pow2(s as nat), c as nat, mbits as nat),
        c < 0x10_0000_0000,
        m < 2 * pow2(mbits as nat) && a >= s ==> mag(c as nat, mbits as nat) == m * pow2(
            (a - s) as nat,
        ),
{
    let c: u64 = round_code(m, a as i32 - s as i32, mbits);
    proof {
        lemma_shift(m as nat, a as nat, s as nat);
        lemma_nearest_ratio(
            scaled_num(m as nat, a - s),
            scaled_den(a - s),
            m as nat * pow2(a as nat),
            pow2(s as nat),
            c as nat,
            mbits as nat,
        );
    }
    c
}

/// The product of two numbers.
#[verifier::opaque]
pub open spec fn product(x: u32, y: u32) -> u32 {
    let neg = negative(x) != negative(y);
    if is_nan(x) || is_nan(y) {
        NAN
    } else if is_inf(x) || is_inf(y) {
        if code(x) == 0 || code(y) == 0 {
            NAN
        } else {
            with_sign(neg, INF as nat)
        }
    } else {
        nearest_single(neg, magnitude(x) * magnitude(y), pow2(149))
    }
}

/// The product of two numbers.
pub fn f32_mul(x: u32, y: u32) -> (r: u32)
    ensures
        r == product(x, y),
{
    proof {
        reveal(product);
    }
    let cx: u32 = x % SIGN;
    let cy: u32 = y % SIGN;
    let neg: bool = (x >= SIGN) != (y >= SIGN);
    if cx > INF || cy > INF {
        return NAN;
    }
    if cx == INF || cy == INF {
        if cx == 0 || cy == 0 {
            return NAN;
        }
        return join(neg, INF as u64);
    }
    let (mx, ex) = parts(x);
    let (my, ey) = parts(y);
    proof {
        assert(mx * my < 0x100_0000 * 0x100_0000) by (nonlinear_arith)
            requires
                mx < 0x100_0000,
                my < 0x100_0000,
        ;
        lemma_pow2_adds(ex as nat, ey as nat);
        assert((mx * my) * pow2((ex + ey) as nat) == (mx * pow2(ex as nat)) * (my * pow2(
            ey as nat,
        ))) by (nonlinear_arith)
            requires
                pow2(ex as nat) * pow2(ey as nat) == pow2((ex + ey) as nat),
        ;
    }
    join(neg, round_shifted(mx * my, ex + ey, 149, 23))
}

/// The quotient of two numbers.
#[verifier::opaque]
pub open spec fn quotient(x: u32, y: u32) -> u32 {
    let neg = negative(x) != negative(y);
    if is_nan(x) || is_nan(y) || (is_inf(x) && is_inf(y)) || (code(x) == 0 && code(y) == 0) {
        NAN
    } else if is_inf(x) || code(y) == 0 {
        with_sign(neg, INF as nat)
    } else if is_inf(y) {
        with_sign(neg, 0)
    } else {
        nearest_single(neg, magnitude(x) * pow2(149), magnitude(y))
    }
}

/// `m` shifted left until it has 24 bits, and by how much.
fn normalize(m: u64) -> (ns: (u64, u32))
    requires
        0 < m < 0x100_0000,
    ensures
        0x80_0000 <= ns.0 < 0x100_0000,
        ns.1 <= 23,
        ns.0 == m * pow2(ns.1 as nat),
{
    let mut n: u64 = m;
    let mut s: u32 = 0;
    proof {
        lemma2_to64();
        assert(m * 1 == m);
        assert(n * pow2((23 - s) as nat) >= 0x80_0000) by (nonlinear_arith)
            requires
                n >= 1,
                pow2((23 - s) as nat) == 0x80_0000,
        ;
    }
    while n < 0x80_0000
        invariant
            0 < n < 0x100_0000,
            s <= 23,
            n == m * pow2(s as nat),
            n * pow2((23 - s) as nat) >= 0x80_0000,
        decreases 23 - s,
    {
        proof {
            lemma2_to64();
            if s == 23 {
                assert(n * 1 == n);
            }
            lemma_pow2_unfold((s + 1) as nat);
            lemma_pow2_unfold((23 - s) as nat);
            assert(2 * n == m * pow2((s + 1) as nat)) by (nonlinear_arith)
                requires
                    n == m * pow2(s as nat),
                    pow2((s + 1) as nat) == 2 * pow2(s as nat),
            ;
            let h = pow2((22 - s) as nat);
            assert((2 * n) * h == n * (2 * h)) by (nonlinear_arith);
        }
        n = n * 2;
        s += 1;
    }
    (n, s)
}

/// A quotient of normalized significands stands for the quotient of the numbers.
proof fn lemma_quotient(
    mx: nat,
    ex: nat,
    sx: nat,
    my: nat,
    ey: nat,
    sy: nat,
    nx: nat,
    ny: nat,
)
    requires
        nx == mx * pow2(sx),
        ny == my * pow2(sy),
    ensures
        ((mx * pow2(ex)) * pow2(149)) * (ny * pow2(ey + sx + 27)) == ((nx * pow2(27)) * pow2(
            ex + sy + 149,
        )) * (my * pow2(ey)),
{
    lemma_pow2_adds(ey, sx + 27);
    lemma_pow2_adds(sx, 27);
    lemma_pow2_adds(ex, sy + 149);
    lemma_pow2_adds(sy, 149);
    let pe = pow2(ex);
    let pf = pow2(ey);
    let ps = pow2(sx);
    let pt = pow2(sy);
    let p27 = pow2(27);
    let pu = pow2(149);
    let v = ps * p27;
    let w = pe * (pt * pu);
    let x = (mx * pe) * pu;
    let y = my * pt;
    let z = pf * v;
    assert(x * y == (mx * my) * w) by (nonlinear_arith)
        requires
            x == (mx * pe) * pu,
            y == my * pt,
            w == pe * (pt * pu),
    ;
    assert(x * (y * z) == (x * y) * z) by (nonlinear_arith);
    assert(((mx * my) * w) * z == ((mx * v) * w) * (my * pf)) by (nonlinear_arith)
        requires
            z == pf * v,
    ;
    assert((mx * ps) * p27 == mx * v) by (nonlinear_arith)
        requires
            v == ps * p27,
    ;
}

/// Regroups the factors of a scaled quotient.
proof fn lemma_regroup(x: nat, den: nat, ny: nat, pd: nat, q: nat, pu: nat, d: nat)
    requires
        x * pd == (q * pu) * d,
    ensures
        (x * den) * (ny * pd) == (q * ny) * (pu * (d * den)),
{
    let h = d * den;
    assert((x * den) * (ny * pd) == (x * pd) * (den * ny)) by (nonlinear_arith);
    assert(((q * pu) * d) * (den * ny) == (q * pu) * (h * ny)) by (nonlinear_arith)
        requires
            h == d * den,
    ;
    assert((q * pu) * (h * ny) == (q * ny) * (pu * h)) by (nonlinear_arith);
}

/// Where the integer quotient leaves a rest, the true quotient lies strictly above
/// it; where it leaves none, it is met.
proof fn lemma_quotient_cut(
    num: nat,
    den: nat,
    n: nat,
    ny: nat,
    q: nat,
    rem: nat,
    up: nat,
    down: nat,
)
    requires
        den > 0,
        ny > 0,
        n == q * ny + rem,
        rem < ny,
        num * (ny * pow2(down)) == (n * pow2(up)) * den,
    ensures
        rem > 0 ==> strictly_above(num, den, q, up - down),
        rem == 0 ==> scaled_num(q, up - down) * den == num * scaled_den(up - down),
{
    let a = up - down;
    lemma_shift(q, up, down);
    lemma_shift(q + 1, up, down);
    lemma_pow2_pos(up);
    lemma_pow2_pos(down);
    let d = scaled_den(a);
    let lo = scaled_num(q, a);
    let hi = scaled_num(q + 1, a);
    let pu = pow2(up);
    let pd = pow2(down);
    let g = pu * (d * den);
    assert(g > 0) by (nonlinear_arith)
        requires
            g == pu * (d * den),
            pu > 0,
            d > 0,
            den > 0,
    ;
    let t = ny * pd;
    assert(t > 0) by (nonlinear_arith)
        requires
            t == ny * pd,
            ny > 0,
            pd > 0,
    ;
    lemma_regroup(lo, den, ny, pd, q, pu, d);
    lemma_regroup(hi, den, ny, pd, q + 1, pu, d);
    assert((q + 1) * ny == q * ny + ny) by (nonlinear_arith);
    assert((num * d) * t == (num * t) * d) by (nonlinear_arith);
    assert(((n * pu) * den) * d == n * (pu * (d * den))) by (nonlinear_arith);
    let x = lo * den;
    let y = num * d;
    let z = hi * den;
    if rem > 0 {
        assert(x < y) by (nonlinear_arith)
            requires
                x * t == (q * ny) * g,
                y * t == n * g,
                q * ny < n,
                g > 0,
                t > 0,
        ;
        assert(y < z) by (nonlinear_arith)
            requires
                z * t == (q * ny + ny) * g,
                y * t == n * g,
                n < q * ny + ny,
                g > 0,
                t > 0,
        ;
    } else {
        assert(x == y) by (nonlinear_arith)
            requires
                x * t == (q * ny) * g,
                y * t == n * g,
                n == q * ny,
                t > 0,
        ;
    }
}

/// The quotient of two numbers.
pub fn f32_div(x: u32, y: u32) -> (r: u32)
    ensures
        r == quotient(x, y),
{
    proof {
        reveal(quotient);
    }
    let cx: u32 = x % SIGN;
    let cy: u32 = y % SIGN;
    let neg: bool = (x >= SIGN) != (y >= SIGN);
    if cx > INF || cy > INF || (cx == INF && cy == INF) || (cx == 0 && cy == 0) {
        return NAN;
    }
    if cx == INF || cy == 0 {
        return join(neg, INF as u64);
    }
    if cy == INF {
        return join(neg, 0);
    }
    let (mx, ex) = parts(x);
    let (my, ey) = parts(y);
    let ghost num = magnitude(x) * pow2(149);
    let ghost den = magnitude(y);
    proof {
        lemma_pow2_pos(ey as nat);
        assert(den > 0) by (nonlinear_arith)
            requires
                den == my * pow2(ey as nat),
                my > 0,
                pow2(ey as nat) > 0,
        ;
    }
    if mx == 0 {
        proof {
            assert(num == 0) by (nonlinear_arith)
                requires
                    num == (mx * pow2(ex as nat)) * pow2(149),
                    mx == 0,
            ;
            lemma2_to64();
            assert(mag(0, 23) * den == 0) by (nonlinear_arith)
                requires
                    mag(0, 23) == 0,
            ;
            lemma_rounded_exact(num, den, 0, 23);
        }
        return join(neg, 0);
    }
    let (nx, sx) = normalize(mx);
    let (ny, sy) = normalize(my);
    let n: u64 = nx * 0x800_0000;
    let q: u64 = n / ny;
    let rem: u64 = n % ny;
    let a: i32 = (ex + sy + 149) as i32 - (ey + sx + 27) as i32;
    proof {
        lemma2_to64();
        lemma_quotient(
            mx as nat,
            ex as nat,
            sx as nat,
            my as nat,
            ey as nat,
            sy as nat,
            nx as nat,
            ny as nat,
        );
        vstd::arithmetic::div_mod::lemma_fundamental_div_mod(n as int, ny as int);
        assert(n == q * ny + rem) by (nonlinear_arith)
            requires
                n == ny * q + rem,
        ;
        lemma_quotient_cut(
            num,
            den,
            n as nat,
            ny as nat,
            q as nat,
            rem as nat,
            (ex + sy + 149) as nat,
            (ey + sx + 27) as nat,
        );
        assert(q >= 0x200_0000 && q < 0x1000_0000) by (nonlinear_arith)
            requires
                n == q * ny + rem,
                rem < ny,
                0x4_0000_0000_0000 <= n < 0x8_0000_0000_0000,
                0x80_0000 <= ny < 0x100_0000,
        ;
    }
    if rem == 0 {
        let c: u64 = round_code(q, a, 23);
        proof {
            lemma_shift(q as nat, (ex + sy + 149) as nat, (ey + sx + 27) as nat);
            lemma_nearest_ratio(
                scaled_num(q as nat, a as int),
                scaled_den(a as int),
                num,
                den,
                c as nat,
                23,
            );
        }
        join(neg, c)
    } else {
        join(neg, round_code_above(q, a, 23, Ghost(num), Ghost(den)))
    }
}

/// The sum of two numbers.
#[verifier::opaque]
pub open spec fn sum(x: u32, y: u32) -> u32 {
    if is_nan(x) || is_nan(y) {
        NAN
    } else if is_inf(x) {
        if is_inf(y) && negative(x) != negative(y) {
            NAN
        } else {
            with_sign(negative(x), INF as nat)
        }
    } else if is_inf(y) {
        with_sign(negative(y), INF as nat)
    } else {
        let s = value(x) + value(y);
        if s == 0 {
            with_sign(negative(x) && negative(y), 0)
        } else if s > 0 {
            nearest_single(false, s as nat, 1)
        } else {
            nearest_single(true, -s as nat, 1)
        }
    }
}

/// `y` is so much smaller than `x` that only its being there counts.
fn add_far(mx: u64, ex: u32, my: u64, ey: u32, same: bool) -> (c: u64)
    requires
        0x80_0000 <= mx < 0x100_0000,
        0 < my < 0x100_0000,
        36 < ex - ey,
        ex <= 254,
    ensures
        c == rounded(
            (mx * pow2(ex as nat) + (if same {
                my * pow2(ey as nat)
            } else {
                -(my * pow2(ey as nat))
            })) as nat,
            1,
            23,
        ),
{
    let ghost small = my * pow2(ey as nat);
    let ghost big = mx * pow2(ex as nat);
    let ghost unit = pow2((ex - 4) as nat);
    let m: u64 = if same {
        mx * 16
    } else {
        mx * 16 - 1
    };
    let ghost num = (big + (if same {
        small
    } else {
        -small
    })) as nat;
    proof {
        lemma2_to64();
        lemma_pow2_pos(ey as nat);
        lemma_pow2_pos((ex - 4) as nat);
        assert(small > 0) by (nonlinear_arith)
            requires
                small == my * pow2(ey as nat),
                my > 0,
                pow2(ey as nat) > 0,
        ;
        lemma_pow2_adds(ey as nat, 24);
        lemma_pow2_strictly_increases((ey + 24) as nat, (ex - 4) as nat);
        assert(small < pow2(ey as nat) * 0x100_0000) by (nonlinear_arith)
            requires
                small == my * pow2(ey as nat),
                my < 0x100_0000,
                pow2(ey as nat) > 0,
        ;
        assert(small < unit);
        lemma_pow2_adds((ex - 4) as nat, 4);
        assert(big == (mx * 16) * unit) by (nonlinear_arith)
            requires
                big == mx * pow2(ex as nat),
                pow2(ex as nat) == unit * 16,
        ;
        let mm = mx * 16;
        assert((mm - 1) * unit == mm * unit - unit) by (nonlinear_arith);
        assert((mm + 1) * unit == mm * unit + unit) by (nonlinear_arith);
        assert(strictly_above(num, 1, m as nat, ex - 4)) by {
            assert(scaled_num(m as nat, ex - 4) * 1 == m * unit);
            assert(scaled_den(ex - 4) == 1);
            assert(num * 1 == num);
            assert(scaled_num(m as nat + 1, ex - 4) * 1 == (m + 1) * unit);
        }
    }
    round_code_above(m, ex as i32 - 4, 23, Ghost(num), Ghost(1nat))
}

/// The sum of two finite numbers, the first of which has the larger exponent.
fn add_ordered(x: u32, y: u32, mx: u64, ex: u32, my: u64, ey: u32) -> (r: u32)
    requires
        code(x) < INF,
        code(y) < INF,
        magnitude(x) == mx * pow2(ex as nat),
        magnitude(y) == my * pow2(ey as nat),
        mx < 0x100_0000,
        my < 0x100_0000,
        ex <= 254,
        ey <= ex,
        ex > 0 ==> mx >= 0x80_0000,
    ensures
        r == sum(x, y),
{
    proof {
        reveal(sum);
    }
    let xn: bool = x >= SIGN;
    let yn: bool = y >= SIGN;
    let d: u32 = ex - ey;
    proof {
        lemma2_to64();
        lemma_pow2_pos(ey as nat);
        assert(pow2(0) == 1);
    }
    if d > 36 {
        if my == 0 {
            proof {
                assert(my * pow2(ey as nat) == 0) by (nonlinear_arith)
                    requires
                        my == 0,
                ;
                lemma_pow2_pos(ex as nat);
                assert(mx * pow2(ex as nat) > 0) by (nonlinear_arith)
                    requires
                        mx > 0,
                        pow2(ex as nat) > 0,
                ;
            }
            return join(xn, round_shifted(mx, ex, 0, 23));
        }
        let c: u64 = add_far(mx, ex, my, ey, xn == yn);
        proof {
            lemma_pow2_adds(ey as nat, 24);
            lemma_pow2_strictly_increases((ey + 24) as nat, ex as nat);
            assert(my * pow2(ey as nat) < mx * pow2(ex as nat)) by (nonlinear_arith)
                requires
                    my < 0x100_0000,
                    mx >= 1,
                    pow2(ey as nat) > 0,
                    pow2(ey as nat) * 0x100_0000 < pow2(ex as nat),
            ;
            assert(my * pow2(ey as nat) >= 0) by (nonlinear_arith)
                requires
                    my >= 0,
                    pow2(ey as nat) > 0,
            ;
        }
        return join(xn, c);
    }
    let p: u64 = pow2_u64(d);
    proof {
        if d < 36 {
            lemma_pow2_strictly_increases(d as nat, 36);
        }
        vstd::arithmetic::power2::lemma2_to64_rest();
        lemma_pow2_pos(d as nat);
        assert(mx * p < 0x1000_0000_0000_0000) by (nonlinear_arith)
            requires
                mx < 0x100_0000,
                0 < p <= 0x10_0000_0000,
        ;
        lemma_pow2_adds(ey as nat, d as nat);
        assert((mx * p) * pow2(ey as nat) == mx * pow2(ex as nat)) by (nonlinear_arith)
            requires
                pow2(ey as nat) * p == pow2(ex as nat),
        ;
    }
    let big: u64 = mx * p;
    let ghost u = pow2(ey as nat);
    if xn == yn {
        let m: u64 = big + my;
        proof {
            assert(m * u == big * u + my * u) by (nonlinear_arith)
                requires
                    m == big + my,
            ;
            assert(m == 0 <==> m * u == 0) by (nonlinear_arith)
                requires
                    u > 0,
                    m >= 0,
            ;
            if m == 0 {
                assert(mag(0, 23) * 1 == 0);
                lemma_rounded_exact(0, 1, 0, 23);
            }
            assert(m * u >= 0) by (nonlinear_arith)
                requires
                    m >= 0,
                    u > 0,
            ;
        }
        return join(xn, round_shifted(m, ey, 0, 23));
    }
    if big == my {
        return 0;
    }
    if big > my {
        let m: u64 = big - my;
        proof {
            assert(m * u == big * u - my * u) by (nonlinear_arith)
                requires
                    m == big - my,
            ;
            assert(m * u > 0) by (nonlinear_arith)
                requires
                    m > 0,
                    u > 0,
            ;
        }
        join(xn, round_shifted(m, ey, 0, 23))
    } else {
        let m: u64 = my - big;
        proof {
            assert(m * u == my * u - big * u) by (nonlinear_arith)
                requires
                    m == my - big,
            ;
            assert(m * u > 0) by (nonlinear_arith)
                requires
                    m > 0,
                    u > 0,
            ;
        }
        join(yn, round_shifted(m, ey, 0, 23))
    }
}

/// The sum of two numbers.
pub fn f32_add(x: u32, y: u32) -> (r: u32)
    ensures
        r == sum(x, y),
{
    proof {
        reveal(sum);
    }
    let cx: u32 = x % SIGN;
    let cy: u32 = y % SIGN;
    if cx > INF || cy > INF {
        return NAN;
    }
    if cx == INF {
        if cy == INF && (x >= SIGN) != (y >= SIGN) {
            return NAN;
        }
        return join(x >= SIGN, INF as u64);
    }
    if cy == INF {
        return join(y >= SIGN, INF as u64);
    }
    let (mx, ex) = parts(x);
    let (my, ey) = parts(y);
    if ex >= ey {
        add_ordered(x, y, mx, ex, my, ey)
    } else {
        add_ordered(y, x, my, ey, mx, ex)
    }
}

/// A number with its sign turned round.
pub open spec fn negated(x: u32) -> u32 {
    if negative(x) {
        (x - SIGN) as u32
    } else {
        (x + SIGN) as u32
    }
}

/// A number with its sign turned round.
pub fn f32_neg(x: u32) -> (r: u32)
    ensures
        r == negated(x),
{
    if x >= SIGN {
        x - SIGN
    } else {
        x + SIGN
    }
}

/// Where a number stands among the others; both zeros stand together.
pub open spec fn order(x: u32) -> int {
    if negative(x) {
        -(code(x) as int)
    } else {
        code(x) as int
    }
}

/// The larger of two numbers; one that is not a number gives way.
pub open spec fn larger(x: u32, y: u32) -> u32 {
    if is_nan(x) {
        y
    } else if is_nan(y) || order(x) >= order(y) {
        x
    } else {
        y
    }
}

/// The smaller of two numbers; one that is not a number gives way.
pub open spec fn smaller(x: u32, y: u32) -> u32 {
    if is_nan(x) {
        y
    } else if is_nan(y) || order(x) <= order(y) {
        x
    } else {
        y
    }
}

fn order_of(x: u32) -> (o: i64)
    ensures
        o == order(x),
{
    if x >= SIGN {
        -((x - SIGN) as i64)
    } else {
        x as i64
    }
}

/// The larger of two numbers; one that is not a number gives way.
pub fn f32_max(x: u32, y: u32) -> (r: u32)
    ensures
        r == larger(x, y),
{
    if x % SIGN > INF {
        y
    } else if y % SIGN > INF || order_of(x) >= order_of(y) {
        x
    } else {
        y
    }
}

/// The smaller of two numbers; one that is not a number gives way.
pub fn f32_min(x: u32, y: u32) -> (r: u32)
    ensures
        r == smaller(x, y),
{
    if x % SIGN > INF {
        y
    } else if y % SIGN > INF || order_of(x) <= order_of(y) {
        x
    } else {
        y
    }
}

/// Whether a number is greater than zero.
pub open spec fn positive(x: u32) -> bool {
    !is_nan(x) && order(x) > 0
}

/// Whether a number is greater than zero.
pub fn f32_is_positive(x: u32) -> (r: bool)
    ensures
        r == positive(x),
{
    x < SIGN && 0 < x && x <= INF
}

/// The number that stands for a small integer.
#[verifier::opaque]
pub open spec fn of_int(n: int) -> u32 {
    if n >= 0 {
        nearest_single(false, n as nat * pow2(149), 1)
    } else {
        nearest_single(true, (-n) as nat * pow2(149), 1)
    }
}

/// The number that stands for a small integer.
pub fn f32_of_int(n: i64) -> (r: u32)
    requires
        -0x100_0000 < n < 0x100_0000,
    ensures
        r == of_int(n as int),
        magnitude(r) == (if n >= 0 {
            n as nat
        } else {
            -n as nat
        }) * pow2(149),
        code(r) < INF,
        n != 0 ==> (negative(r) <==> n < 0),
{
    proof {
        reveal(of_int);
    }
    let m: u64 = if n >= 0 {
        n as u64
    } else {
        (-n) as u64
    };
    let c: u64 = round_shifted(m, 149, 0, 23);
    proof {
        lemma2_to64();
        lemma_pow2_pos(149);
        // A significand of 24 bits at exponent 149 lies far below infinity.
        lemma_mag_at(149, 0x100_0000, 23);
        let top = (149 * 0x80_0000 + 0x100_0000) as nat;
        if c > top {
            lemma_mag_grows(top, c as nat, 23);
            assert(m * pow2(149) < 0x100_0000 * pow2(149)) by (nonlinear_arith)
                requires
                    m < 0x100_0000,
                    pow2(149) > 0,
            ;
        }
    }
    join(n < 0, c)
}

/// The number nearest to a count.
pub fn f32_of_count(n: u64) -> (r: u32)
    ensures
        r == of_int(n as int),
{
    proof {
        reveal(of_int);
    }
    if n < 0x4000_0000_0000_0000 {
        proof {
            lemma2_to64();
        }
        return join(false, round_shifted(n, 149, 0, 23));
    }
    let q: u64 = n / 4;
    let ghost num = n as nat * pow2(149);
    proof {
        lemma2_to64();
        lemma_pow2_adds(149, 2);
        lemma_pow2_pos(149);
        assert(q * pow2(151) == (4 * q) * pow2(149)) by (nonlinear_arith)
            requires
                pow2(149) * 4 == pow2(151),
        ;
    }
    if n % 4 == 0 {
        join(false, round_shifted(q, 151, 0, 23))
    } else {
        proof {
            assert((q + 1) * pow2(151) == (4 * q + 4) * pow2(149)) by (nonlinear_arith)
                requires
                    pow2(149) * 4 == pow2(151),
            ;
            assert((4 * q) * pow2(149) < num < (4 * q + 4) * pow2(149)) by (nonlinear_arith)
                requires
                    num == n as nat * pow2(149),
                    4 * q < n < 4 * q + 4,
                    pow2(149) > 0,
            ;
            assert(strictly_above(num, 1, q as nat, 151));
        }
        join(false, round_code_above(q, 151, 23, Ghost(num), Ghost(1nat)))
    }
}

/// A number rounded to the nearest integer, halves away from zero, and kept
/// within bounds; what is not a number counts as 0.
#[verifier::opaque]
pub open spec fn to_int(x: u32, lo: int, hi: int) -> int {
    if is_nan(x) {
        0
    } else {
        let n = (2 * magnitude(x) + pow2(149)) / (2 * pow2(149)) as nat;
        let s = if negative(x) {
            -(n as int)
        } else {
            n as int
        };
        if s < lo {
            lo
        } else if s > hi {
            hi
        } else {
            s
        }
    }
}

/// A magnitude of `m * 2^e` units, rounded to an integer.
proof fn lemma_to_int(m: nat, e: nat, sh: nat)
    requires
        e + sh == 149,
        sh >= 1,
    ensures
        (2 * (m * pow2(e)) + pow2(149)) / (2 * pow2(149)) as nat == (m + pow2((sh - 1) as nat)) / pow2(
            sh,
        ),
{
    let p = pow2(e);
    let q = pow2(sh);
    let h = pow2((sh - 1) as nat);
    lemma_pow2_adds(e, sh);
    lemma_pow2_unfold(sh);
    lemma_pow2_pos(e);
    lemma_pow2_pos(sh);
    let n = (m + h) / q;
    let r = (m + h) % q;
    vstd::arithmetic::div_mod::lemma_fundamental_div_mod((m + h) as int, q as int);
    let d = 2 * (p * q);
    let rest = 2 * (p * r);
    assert(2 * (m * p) + p * q == d * n + rest) by (nonlinear_arith)
        requires
            m + h == q * n + r,
            q == 2 * h,
            d == 2 * (p * q),
            rest == 2 * (p * r),
    ;
    assert(0 <= rest < d) by (nonlinear_arith)
        requires
            0 <= r < q,
            p > 0,
            d == 2 * (p * q),
            rest == 2 * (p * r),
    ;
    vstd::arithmetic::div_mod::lemma_fundamental_div_mod_converse(
        (2 * (m * p) + p * q) as int,
        d as int,
        n as int,
        rest as int,
    );
}

/// A number rounded to the nearest integer, halves away from zero, and kept
/// within bounds; what is not a number counts as 0.
pub fn f32_to_int(x: u32, lo: i64, hi: i64) -> (r: i64)
    requires
        -1000 <= lo <= 0 <= hi <= 1000,
    ensures
        r == to_int(x, lo as int, hi as int),
        lo <= r <= hi,
{
    proof {
        reveal(to_int);
    }
    if x % SIGN > INF {
        return 0;
    }
    let (m, e) = parts(x);
    let n: u64 = if e >= 149 {
        proof {
            lemma_pow2_adds(149, (e - 149) as nat);
            lemma_pow2_pos((e - 149) as nat);
            lemma_pow2_pos(149);
            let g = pow2((e - 149) as nat);
            let u = pow2(149);
            let full = (2 * (m * pow2(e as nat)) + u) as nat;
            assert(full >= 2001 * (2 * u)) by (nonlinear_arith)
                requires
                    full == 2 * (m * (u * g)) + u,
                    m >= 0x80_0000,
                    g >= 1,
                    u >= 1,
            ;
            let z = full / (2 * u);
            vstd::arithmetic::div_mod::lemma_fundamental_div_mod(full as int, (2 * u) as int);
            assert(z >= 2001) by (nonlinear_arith)
                requires
                    full >= 2001 * (2 * u),
                    full == (2 * u) * z + full % (2 * u),
                    full % (2 * u) < 2 * u,
                    u >= 1,
            ;
        }
        2000
    } else {
        let sh: u32 = 149 - e;
        proof {
            lemma_to_int(m as nat, e as nat, sh as nat);
            lemma2_to64();
            lemma_pow2_pos(sh as nat);
        }
        if sh > 60 {
            proof {
                lemma_pow2_unfold(sh as nat);
                lemma_pow2_strictly_increases(32, (sh - 1) as nat);
                let q = pow2(sh as nat);
                let h = pow2((sh - 1) as nat);
                assert((m + h) as nat / q == 0) by (nonlinear_arith)
                    requires
                        q == 2 * h,
                        m < h,
                        q > 0,
                ;
            }
            0
        } else {
            let h: u64 = pow2_u64(sh - 1);
            let q: u64 = pow2_u64(sh);
            proof {
                lemma_pow2_unfold(sh as nat);
                if sh < 60 {
                    lemma_pow2_strictly_increases(sh as nat, 60);
                }
                vstd::arithmetic::power2::lemma2_to64_rest();
            }
            (m + h) / q
        }
    };
    let s: i64 = if n > 2000 {
        2000
    } else {
        n as i64
    };
    if x >= SIGN {
        if -s < lo {
            lo
        } else {
            -s
        }
    } else {
        if s > hi {
            hi
        } else {
            s
        }
    }
}

/// The code of infinity in double precision.
pub const INF64: u64 = 0x7FF0_0000_0000_0000;

/// The sign bit in double precision.
pub const SIGN64: u64 = 0x8000_0000_0000_0000;

/// The single-precision number nearest to a double-precision one. The smallest
/// double-precision magnitude is `2^-1074`, which is `2^-925` of the smallest
/// single-precision one.
#[verifier::opaque]
pub open spec fn single_of_double(x: u64) -> u32 {
    let c = (x % SIGN64) as nat;
    if c > INF64 {
        NAN
    } else {
        nearest_single(x >= SIGN64, mag(c, 52), pow2(925))
    }
}

/// The single-precision number nearest to a double-precision one.
pub fn f64_to_f32(x: u64) -> (r: u32)
    ensures
        r == single_of_double(x),
{
    proof {
        reveal(single_of_double);
    }
    let c: u64 = x % SIGN64;
    if c > INF64 {
        return NAN;
    }
    proof {
        lemma2_to64();
        vstd::arithmetic::power2::lemma2_to64_rest();
        assert(pow2(52) == 0x10_0000_0000_0000);
    }
    let (m, e): (u64, u32) = if c < 0x10_0000_0000_0000 {
        assert(c as nat * pow2(0) == c as nat);
        (c, 0)
    } else {
        let k: u64 = c / 0x10_0000_0000_0000 - 1;
        let q: u64 = c % 0x10_0000_0000_0000 + 0x10_0000_0000_0000;
        proof {
            lemma_mag_at(k as nat, q as nat, 52);
        }
        (q, k as u32)
    };
    join(x >= SIGN64, round_shifted(m, e, 925, 23))
}

/// Adding a number that is not negative to either zero gives the same.
pub proof fn lemma_zero_start(p: u32)
    requires
        !negative(p),
    ensures
        sum(0, p) == sum(SIGN, p),
{
    reveal(sum);
    vstd::arithmetic::power2::lemma_pow2_pos(23);
    assert(mag(0, 23) == 0);
    assert(code(0) == 0 && code(SIGN) == 0);
}

/// A square is not negative.
pub proof fn lemma_square_sign(x: u32)
    ensures
        !negative(product(x, x)),
{
    reveal(product);
}

/// A sum is the negative zero only where its first part is, and is the one number
/// that is none if it is not a number.
pub proof fn lemma_sum_sign(x: u32, y: u32)
    requires
        x != SIGN,
    ensures
        sum(x, y) != SIGN,
        is_nan(sum(x, y)) ==> sum(x, y) == NAN,
{
    reveal(sum);
    vstd::arithmetic::power2::lemma_pow2_pos(23);
    if !is_nan(x) && !is_nan(y) && !is_inf(x) && !is_inf(y) {
        let s = value(x) + value(y);
        if s < 0 {
            lemma_whole_is_rounded(-s as nat, 23);
        }
        if s > 0 {
            lemma_whole_is_rounded(s as nat, 23);
        }
        if s == 0 && negative(x) && negative(y) {
            assert(magnitude(x) == 0);
            if code(x) > 0 {
                lemma_mag_grows(0, code(x), 23);
            }
            assert(code(x) == 0);
        }
    }
}

/// Adding zero changes nothing but the sign of zero.
pub proof fn lemma_plus_zero(x: u32)
    requires
        x != SIGN,
        is_nan(x) ==> x == NAN,
    ensures
        sum(x, 0) == x,
{
    reveal(sum);
    vstd::arithmetic::power2::lemma_pow2_pos(23);
    assert(mag(0, 23) == 0);
    assert(code(0) == 0 && value(0) == 0);
    if !is_nan(x) && !is_inf(x) {
        let c = code(x);
        if c > 0 {
            lemma_mag_grows(0, c, 23);
        }
        lemma_rounded_exact(mag(c, 23), 1, c, 23);
    }
}

/// Whether two are the same number: both zeros are.
pub open spec fn same_number(x: u32, y: u32) -> bool {
    x == y || (code(x) == 0 && code(y) == 0)
}

/// The magnitude of one.
proof fn lemma_one()
    ensures
        magnitude(0x3F80_0000) == pow2(149),
        code(0x3F80_0000) == 0x3F80_0000,
{
    lemma2_to64();
    lemma_mag_at(126, 0x80_0000, 23);
    vstd::arithmetic::power2::lemma_pow2_adds(23, 126);
}

/// Multiplying by one changes nothing.
pub proof fn lemma_times_one(x: u32)
    requires
        !is_nan(x),
    ensures
        product(x, 0x3F80_0000) == x,
        product(0x3F80_0000, x) == x,
{
    reveal(product);
    lemma_one();
    vstd::arithmetic::power2::lemma_pow2_pos(149);
    let c = code(x);
    assert(magnitude(x) * pow2(149) == pow2(149) * magnitude(x)) by (nonlinear_arith);
    lemma_rounded_exact(magnitude(x) * pow2(149), pow2(149), c, 23);
}

/// One divided by itself is one.
pub proof fn lemma_one_by_one()
    ensures
        quotient(0x3F80_0000, 0x3F80_0000) == 0x3F80_0000u32,
{
    reveal(quotient);
    lemma_one();
    vstd::arithmetic::power2::lemma_pow2_pos(149);
    lemma_rounded_exact(pow2(149) * pow2(149), pow2(149), 0x3F80_0000, 23);
}

/// A finite number times zero is zero, whatever the signs.
pub proof fn lemma_times_zero(x: u32, z: u32)
    requires
        code(x) < INF,
        code(z) == 0,
    ensures
        code(product(x, z)) == 0,
        code(product(z, x)) == 0,
{
    reveal(product);
    vstd::arithmetic::power2::lemma_pow2_pos(23);
    vstd::arithmetic::power2::lemma_pow2_pos(149);
    assert(mag(0, 23) == 0);
    assert(magnitude(x) * 0 == 0 && 0 * magnitude(x) == 0);
    lemma_rounded_exact(0, pow2(149), 0, 23);
}

/// Adding either zero to a number leaves the number; only the sign of zero may change.
pub proof fn lemma_plus_either_zero(x: u32, z: u32)
    requires
        !is_nan(x),
        code(z) == 0,
    ensures
        same_number(sum(x, z), x),
        same_number(sum(z, x), x),
        code(x) != 0 ==> sum(x, z) == x && sum(z, x) == x,
{
    reveal(sum);
    vstd::arithmetic::power2::lemma_pow2_pos(23);
    assert(mag(0, 23) == 0);
    assert(value(z) == 0);
    if !is_inf(x) {
        let c = code(x);
        if c > 0 {
            lemma_mag_grows(0, c, 23);
        }
        lemma_rounded_exact(mag(c, 23), 1, c, 23);
    }
}

/// A finite number less itself is zero.
pub proof fn lemma_less_itself(x: u32)
    requires
        code(x) < INF,
    ensures
        sum(x, negated(x)) == 0,
{
    reveal(sum);
}

/// The integer zero stands for the number zero.
pub proof fn lemma_zero_of_int()
    ensures
        of_int(0) == 0,
{
    reveal(of_int);
    vstd::arithmetic::power2::lemma_pow2_pos(23);
    assert(mag(0, 23) == 0);
    assert(0 * pow2(149) == 0);
    lemma_rounded_exact(0, 1, 0, 23);
}

/// Zero plus either zero is zero.
pub proof fn lemma_zero_and_zero(z: u32)
    requires
        code(z) == 0,
    ensures
        sum(0, z) == 0,
{
    reveal(sum);
    vstd::arithmetic::power2::lemma_pow2_pos(23);
    assert(mag(0, 23) == 0);
    assert(code(0) == 0 && value(0) == 0 && value(z) == 0);
}

} // verus!
