//! Attention for one token over a span of heads, emitted for fixed head sizes: eight
//! lanes at a time, with fused products, in one fixed order.

use vstd::prelude::*;

use crate::codegen::code::{Buf, Code, Int, Real, Stmt};
use crate::codegen::lower::{int_plus, int_times, plus, seq_of, then, times};
use crate::float::single::{f32_div, f32_neg, f32_of_count, negated, of_int, quotient};
use crate::graph::ops::{Math, ONE};

verus! {

/// The numbers of the exponential function: the logarithm of e to the base two, that
/// of two to the base e in two parts, and the coefficients of the polynomial.
#[derive(Debug, Clone, Copy, PartialEq, Eq, Structural)]
pub struct ExpfConsts {
    pub log2e: u32,
    pub ln2_hi: u32,
    pub ln2_lo: u32,
    pub c0: u32,
    pub c1: u32,
    pub c2: u32,
    pub c3: u32,
    pub c4: u32,
    pub c5: u32,
    pub c6: u32,
}

/// The sizes that are fixed: of a head, and how many there are of queries and of
/// keys; and the factor of the scores.
#[derive(Debug, Clone, Copy, PartialEq, Eq, Structural)]
pub struct Heads {
    pub head_dim: u64,
    pub n_heads: u64,
    pub n_kv_heads: u64,
    pub scale: u32,
    pub expf: ExpfConsts,
}

/// The bits of 88 and of minus 88, beyond which the exponential is not taken.
pub const EXP_HI: u32 = 0x42B0_0000;

pub const EXP_LO: u32 = 0xC2B0_0000;

/// The bits of minus infinity.
pub const NEG_INF: u32 = 0xFF80_0000;

/// The loop variables: a position, and a head.
pub const T: usize = 0;

pub const H: usize = 1;

/// The arguments: where the keys start, where the values start behind them, the
/// position of the token, and the heads.
pub const KV_BASE: usize = 0;

pub const V_OFF: usize = 1;

pub const POS: usize = 2;

pub const H_START: usize = 3;

pub const H_END: usize = 4;

/// Whether sizes are such that code can be emitted for them.
pub open spec fn heads_ok(g: Heads) -> bool {
    &&& g.head_dim % 8 == 0
    &&& g.n_kv_heads > 0
    &&& g.n_heads % g.n_kv_heads == 0
    &&& g.n_kv_heads * g.head_dim <= u64::MAX
}

/// Whether code can be emitted for these sizes.
pub fn heads_fit(g: &Heads) -> (r: bool)
    ensures
        r == heads_ok(*g),
{
    g.head_dim % 8 == 0 && g.n_kv_heads > 0 && g.n_heads % g.n_kv_heads == 0
        && g.n_kv_heads.checked_mul(g.head_dim).is_some()
}

/// How many query heads share a key head, how many numbers a cached row has, and how
/// many runs of eight a head.
pub open spec fn group_of(g: Heads) -> u64 {
    g.n_heads / g.n_kv_heads
}

pub open spec fn kv_dim_of(g: Heads) -> u64 {
    (g.n_kv_heads * g.head_dim) as u64
}

pub open spec fn chunks_of(g: Heads) -> nat {
    (g.head_dim / 8) as nat
}

/// How many cached rows the token sees.
pub open spec fn visible_int() -> Int {
    plus(Int::Arg(POS), Int::Const(1))
}

fn visible() -> (r: Int)
    ensures
        r == visible_int(),
{
    int_plus(Int::Arg(POS), Int::Const(1))
}

/// A run of eight of the head.
pub open spec fn head_at(g: Heads, c: nat) -> Int {
    plus(times(Int::Var(H), Int::Const(g.head_dim)), Int::Const((c * 8) as u64))
}

fn head_run(g: &Heads, c: u64) -> (r: Int)
    requires
        c * 8 <= u64::MAX,
    ensures
        r == head_at(*g, c as nat),
{
    int_plus(int_times(Int::Var(H), Int::Const(g.head_dim)), Int::Const(c * 8))
}

/// A run of eight of the cached row at the position that the loop counts, of the
/// keys or of the values.
pub open spec fn cached_at(g: Heads, start: Int, c: nat) -> Int {
    plus(
        plus(
            plus(start, times(Int::Var(T), Int::Const(kv_dim_of(g)))),
            times(Int::Over(Box::new(Int::Var(H)), group_of(g)), Int::Const(g.head_dim)),
        ),
        Int::Const((c * 8) as u64),
    )
}

fn cached_run(g: &Heads, start: Int, c: u64) -> (r: Int)
    requires
        heads_ok(*g),
        c * 8 <= u64::MAX,
    ensures
        r == cached_at(*g, start, c as nat),
{
    int_plus(
        int_plus(
            int_plus(start, int_times(Int::Var(T), Int::Const(g.n_kv_heads * g.head_dim))),
            int_times(
                Int::Over(Box::new(Int::Var(H)), g.n_heads / g.n_kv_heads),
                Int::Const(g.head_dim),
            ),
        ),
        Int::Const(c * 8),
    )
}

/// Where the keys start, and where the values do.
pub open spec fn keys() -> Int {
    Int::Arg(KV_BASE)
}

pub open spec fn values() -> Int {
    plus(Int::Arg(KV_BASE), Int::Arg(V_OFF))
}

/// The products of the head with a key, run by run, from run `c` on.
pub open spec fn dot_code(g: Heads, c: nat, rest: Code) -> Code
    decreases chunks_of(g) - c,
{
    if c >= chunks_of(g) {
        rest
    } else {
        then(
            Stmt::Let8(
                0,
                Real::Fused(
                    Box::new(Real::Load8(Buf::Query, head_at(g, c))),
                    Box::new(Real::Load8(Buf::Kv, cached_at(g, keys(), c))),
                    Box::new(Real::Lane(0)),
                ),
            ),
            dot_code(g, c + 1, rest),
        )
    }
}

fn emit_dot(g: &Heads, rest: Code) -> (code: Code)
    requires
        heads_ok(*g),
    ensures
        code == dot_code(*g, 0, rest),
{
    let chunks: u64 = g.head_dim / 8;
    let mut code = rest;
    let mut c: u64 = chunks;
    while c > 0
        invariant
            heads_ok(*g),
            c <= chunks == g.head_dim / 8,
            code == dot_code(*g, c as nat, rest),
        decreases c,
    {
        c = c - 1;
        let e = Real::Fused(
            Box::new(Real::Load8(Buf::Query, head_run(g, c))),
            Box::new(Real::Load8(Buf::Kv, cached_run(g, Int::Arg(KV_BASE), c))),
            Box::new(Real::Lane(0)),
        );
        code = seq_of(Stmt::Let8(0, e), code);
    }
    code
}

/// A loop over the positions from one number up to another.
pub open spec fn over(from: Int, to: Int, by: u64, body: Code) -> Stmt {
    Stmt::Loop { var: T, from, to, step: by, body: Box::new(body) }
}

fn loop_over(from: Int, to: Int, by: u64, body: Code) -> (s: Stmt)
    ensures
        s == over(from, to, by, body),
{
    Stmt::Loop { var: T, from, to, step: by, body: Box::new(body) }
}

/// The score of the position that the loop counts.
pub open spec fn score_body(g: Heads) -> Code {
    then(
        Stmt::Let8(0, Real::Bits(0)),
        dot_code(
            g,
            0,
            then(
                Stmt::Store(
                    Buf::Scores,
                    Int::Var(T),
                    Real::Times(Box::new(Real::Fold8(0)), Box::new(Real::Bits(g.scale))),
                ),
                Code::End,
            ),
        ),
    )
}

fn emit_score(g: &Heads) -> (c: Code)
    requires
        heads_ok(*g),
    ensures
        c == score_body(*g),
{
    let value = Real::Times(Box::new(Real::Fold8(0)), Box::new(Real::Bits(g.scale)));
    let put = seq_of(Stmt::Store(Buf::Scores, Int::Var(T), value), Code::End);
    seq_of(Stmt::Let8(0, Real::Bits(0)), emit_dot(g, put))
}

/// A number of a cell.
pub open spec fn cell(k: usize) -> Real {
    Real::Load(Buf::Cell(k), Int::Const(0))
}

fn load_cell(k: usize) -> (r: Real)
    ensures
        r == cell(k),
{
    Real::Load(Buf::Cell(k), Int::Const(0))
}

/// Keeps the larger score in a cell.
pub open spec fn best_body() -> Code {
    then(
        Stmt::Store(
            Buf::Cell(0),
            Int::Const(0),
            Real::Larger(
                Box::new(cell(0)),
                Box::new(Real::Load(Buf::Scores, Int::Var(T))),
            ),
        ),
        Code::End,
    )
}

fn emit_best() -> (c: Code)
    ensures
        c == best_body(),
{
    let e = Real::Larger(
        Box::new(load_cell(0)),
        Box::new(Real::Load(Buf::Scores, Int::Var(T))),
    );
    seq_of(Stmt::Store(Buf::Cell(0), Int::Const(0), e), Code::End)
}

/// A name, of eight numbers or of one.
pub open spec fn name(wide: bool, r: usize) -> Real {
    if wide {
        Real::Lane(r)
    } else {
        Real::Reg(r)
    }
}

fn named(wide: bool, r: usize) -> (e: Real)
    ensures
        e == name(wide, r),
{
    if wide {
        Real::Lane(r)
    } else {
        Real::Reg(r)
    }
}

/// Names eight numbers or one.
pub open spec fn bind(wide: bool, r: usize, e: Real) -> Stmt {
    if wide {
        Stmt::Let8(r, e)
    } else {
        Stmt::Let(r, e)
    }
}

fn binding(wide: bool, r: usize, e: Real) -> (s: Stmt)
    ensures
        s == bind(wide, r, e),
{
    if wide {
        Stmt::Let8(r, e)
    } else {
        Stmt::Let(r, e)
    }
}

pub open spec fn fused(a: Real, b: Real, c: Real) -> Real {
    Real::Fused(Box::new(a), Box::new(b), Box::new(c))
}

fn fuse(a: Real, b: Real, c: Real) -> (r: Real)
    ensures
        r == fused(a, b, c),
{
    Real::Fused(Box::new(a), Box::new(b), Box::new(c))
}

/// The polynomial at the number that is named 5.
pub open spec fn horner(k: ExpfConsts, wide: bool) -> Real {
    let r = name(wide, 5);
    let p5 = fused(Real::Bits(k.c6), r, Real::Bits(k.c5));
    let p4 = fused(p5, r, Real::Bits(k.c4));
    let p3 = fused(p4, r, Real::Bits(k.c3));
    let p2 = fused(p3, r, Real::Bits(k.c2));
    let p1 = fused(p2, r, Real::Bits(k.c1));
    fused(p1, r, Real::Bits(k.c0))
}

fn emit_horner(k: &ExpfConsts, wide: bool) -> (e: Real)
    ensures
        e == horner(*k, wide),
{
    let p5 = fuse(Real::Bits(k.c6), named(wide, 5), Real::Bits(k.c5));
    let p4 = fuse(p5, named(wide, 5), Real::Bits(k.c4));
    let p3 = fuse(p4, named(wide, 5), Real::Bits(k.c3));
    let p2 = fuse(p3, named(wide, 5), Real::Bits(k.c2));
    let p1 = fuse(p2, named(wide, 5), Real::Bits(k.c1));
    fuse(p1, named(wide, 5), Real::Bits(k.c0))
}

/// The exponential of the number that is named 1, named 6: clamped, cut into a whole
/// number of doublings and a rest, the polynomial of the rest, and doubled again. In
/// eight lanes or in one, operation by operation the same.
pub open spec fn expf_code(k: ExpfConsts, wide: bool, rest: Code) -> Code {
    let x = name(wide, 1);
    let y = name(wide, 2);
    let z = name(wide, 3);
    let n = name(wide, 4);
    then(
        bind(
            wide,
            2,
            Real::Above(
                Box::new(Real::Bits(EXP_LO)),
                Box::new(x),
                Box::new(Real::Bits(EXP_LO)),
                Box::new(x),
            ),
        ),
        then(
            bind(
                wide,
                3,
                Real::Above(
                    Box::new(y),
                    Box::new(Real::Bits(EXP_HI)),
                    Box::new(Real::Bits(EXP_HI)),
                    Box::new(y),
                ),
            ),
            then(
                bind(
                    wide,
                    4,
                    Real::Nearest(
                        Box::new(Real::Times(Box::new(z), Box::new(Real::Bits(k.log2e)))),
                    ),
                ),
                then(
                    bind(
                        wide,
                        5,
                        fused(
                            n,
                            Real::Bits(negated(k.ln2_lo)),
                            fused(n, Real::Bits(negated(k.ln2_hi)), z),
                        ),
                    ),
                    then(
                        bind(
                            wide,
                            6,
                            Real::Times(
                                Box::new(horner(k, wide)),
                                Box::new(Real::TwoTo(Box::new(n))),
                            ),
                        ),
                        rest,
                    ),
                ),
            ),
        ),
    )
}

/// Emits the exponential, in eight lanes or in one.
pub fn emit_expf(k: &ExpfConsts, wide: bool, rest: Code) -> (c: Code)
    ensures
        c == expf_code(*k, wide, rest),
{
    let low = Real::Above(
        Box::new(Real::Bits(EXP_LO)),
        Box::new(named(wide, 1)),
        Box::new(Real::Bits(EXP_LO)),
        Box::new(named(wide, 1)),
    );
    let high = Real::Above(
        Box::new(named(wide, 2)),
        Box::new(Real::Bits(EXP_HI)),
        Box::new(Real::Bits(EXP_HI)),
        Box::new(named(wide, 2)),
    );
    let n = Real::Nearest(
        Box::new(Real::Times(Box::new(named(wide, 3)), Box::new(Real::Bits(k.log2e)))),
    );
    let r = fuse(
        named(wide, 4),
        Real::Bits(f32_neg(k.ln2_lo)),
        fuse(named(wide, 4), Real::Bits(f32_neg(k.ln2_hi)), named(wide, 3)),
    );
    let e = Real::Times(
        Box::new(emit_horner(k, wide)),
        Box::new(Real::TwoTo(Box::new(named(wide, 4)))),
    );
    seq_of(
        binding(wide, 2, low),
        seq_of(
            binding(wide, 3, high),
            seq_of(binding(wide, 4, n), seq_of(binding(wide, 5, r), seq_of(binding(wide, 6, e), rest))),
        ),
    )
}

/// Replaces eight scores by their exponentials, and adds those to the total.
pub open spec fn exp8_body(g: Heads) -> Code {
    then(
        Stmt::Let8(
            1,
            Real::Minus(
                Box::new(Real::Load8(Buf::Scores, Int::Var(T))),
                Box::new(Real::Reg(9)),
            ),
        ),
        expf_code(
            g.expf,
            true,
            then(
                Stmt::Store8(Buf::Scores, Int::Var(T), Real::Lane(6)),
                then(
                    Stmt::Store(
                        Buf::Cell(1),
                        Int::Const(0),
                        Real::Plus(Box::new(cell(1)), Box::new(Real::Fold8(6))),
                    ),
                    Code::End,
                ),
            ),
        ),
    )
}

fn emit_exp8(g: &Heads) -> (c: Code)
    ensures
        c == exp8_body(*g),
{
    let x = Real::Minus(
        Box::new(Real::Load8(Buf::Scores, Int::Var(T))),
        Box::new(Real::Reg(9)),
    );
    let total = Real::Plus(Box::new(load_cell(1)), Box::new(Real::Fold8(6)));
    let put = seq_of(
        Stmt::Store8(Buf::Scores, Int::Var(T), Real::Lane(6)),
        seq_of(Stmt::Store(Buf::Cell(1), Int::Const(0), total), Code::End),
    );
    seq_of(Stmt::Let8(1, x), emit_expf(&g.expf, true, put))
}

/// Replaces one score by its exponential, and adds that to the total.
pub open spec fn exp1_body(g: Heads) -> Code {
    then(
        Stmt::Let(
            1,
            Real::Minus(
                Box::new(Real::Load(Buf::Scores, Int::Var(T))),
                Box::new(Real::Reg(9)),
            ),
        ),
        expf_code(
            g.expf,
            false,
            then(
                Stmt::Store(Buf::Scores, Int::Var(T), Real::Reg(6)),
                then(
                    Stmt::Store(
                        Buf::Cell(1),
                        Int::Const(0),
                        Real::Plus(Box::new(cell(1)), Box::new(Real::Reg(6))),
                    ),
                    Code::End,
                ),
            ),
        ),
    )
}

fn emit_exp1(g: &Heads) -> (c: Code)
    ensures
        c == exp1_body(*g),
{
    let x = Real::Minus(
        Box::new(Real::Load(Buf::Scores, Int::Var(T))),
        Box::new(Real::Reg(9)),
    );
    let total = Real::Plus(Box::new(load_cell(1)), Box::new(Real::Reg(6)));
    let put = seq_of(
        Stmt::Store(Buf::Scores, Int::Var(T), Real::Reg(6)),
        seq_of(Stmt::Store(Buf::Cell(1), Int::Const(0), total), Code::End),
    );
    seq_of(Stmt::Let(1, x), emit_expf(&g.expf, false, put))
}

/// A run of eight of the accumulators.
pub open spec fn acc_at(c: nat) -> Int {
    Int::Const((c * 8) as u64)
}

/// Clears the accumulators from run `c` on.
pub open spec fn clear_code(g: Heads, c: nat, rest: Code) -> Code
    decreases chunks_of(g) - c,
{
    if c >= chunks_of(g) {
        rest
    } else {
        then(
            Stmt::Store8(Buf::Acc, acc_at(c), Real::Bits(0)),
            clear_code(g, c + 1, rest),
        )
    }
}

fn emit_clear(g: &Heads, rest: Code) -> (code: Code)
    requires
        heads_ok(*g),
    ensures
        code == clear_code(*g, 0, rest),
{
    let chunks: u64 = g.head_dim / 8;
    let mut code = rest;
    let mut c: u64 = chunks;
    while c > 0
        invariant
            c <= chunks == g.head_dim / 8,
            code == clear_code(*g, c as nat, rest),
        decreases c,
    {
        c = c - 1;
        code = seq_of(Stmt::Store8(Buf::Acc, Int::Const(c * 8), Real::Bits(0)), code);
    }
    code
}

/// Adds the share of a value to the accumulators from run `c` on.
pub open spec fn mix_code(g: Heads, c: nat, rest: Code) -> Code
    decreases chunks_of(g) - c,
{
    if c >= chunks_of(g) {
        rest
    } else {
        then(
            Stmt::Store8(
                Buf::Acc,
                acc_at(c),
                fused(
                    Real::Reg(7),
                    Real::Load8(Buf::Kv, cached_at(g, values(), c)),
                    Real::Load8(Buf::Acc, acc_at(c)),
                ),
            ),
            mix_code(g, c + 1, rest),
        )
    }
}

fn emit_mix(g: &Heads, rest: Code) -> (code: Code)
    requires
        heads_ok(*g),
    ensures
        code == mix_code(*g, 0, rest),
{
    let chunks: u64 = g.head_dim / 8;
    let mut code = rest;
    let mut c: u64 = chunks;
    while c > 0
        invariant
            heads_ok(*g),
            c <= chunks == g.head_dim / 8,
            code == mix_code(*g, c as nat, rest),
        decreases c,
    {
        c = c - 1;
        let start = int_plus(Int::Arg(KV_BASE), Int::Arg(V_OFF));
        let e = fuse(
            Real::Reg(7),
            Real::Load8(Buf::Kv, cached_run(g, start, c)),
            Real::Load8(Buf::Acc, Int::Const(c * 8)),
        );
        code = seq_of(Stmt::Store8(Buf::Acc, Int::Const(c * 8), e), code);
    }
    code
}

/// Takes the share of the value at the position that the loop counts.
pub open spec fn mix_body(g: Heads) -> Code {
    then(
        Stmt::Let(
            7,
            Real::Over(
                Box::new(Real::Load(Buf::Scores, Int::Var(T))),
                Box::new(Real::Reg(8)),
            ),
        ),
        mix_code(g, 0, Code::End),
    )
}

fn emit_mixing(g: &Heads) -> (c: Code)
    requires
        heads_ok(*g),
    ensures
        c == mix_body(*g),
{
    let share = Real::Over(
        Box::new(Real::Load(Buf::Scores, Int::Var(T))),
        Box::new(Real::Reg(8)),
    );
    seq_of(Stmt::Let(7, share), emit_mix(g, Code::End))
}

/// Copies the accumulators out from run `c` on.
pub open spec fn out_code(g: Heads, c: nat) -> Code
    decreases chunks_of(g) - c,
{
    if c >= chunks_of(g) {
        Code::End
    } else {
        then(
            Stmt::Store8(Buf::Out, head_at(g, c), Real::Load8(Buf::Acc, acc_at(c))),
            out_code(g, c + 1),
        )
    }
}

fn emit_out(g: &Heads) -> (code: Code)
    requires
        heads_ok(*g),
    ensures
        code == out_code(*g, 0),
{
    let chunks: u64 = g.head_dim / 8;
    let mut code = Code::End;
    let mut c: u64 = chunks;
    while c > 0
        invariant
            c <= chunks == g.head_dim / 8,
            code == out_code(*g, c as nat),
        decreases c,
    {
        c = c - 1;
        code = seq_of(
            Stmt::Store8(Buf::Out, head_run(g, c), Real::Load8(Buf::Acc, Int::Const(c * 8))),
            code,
        );
    }
    code
}

/// Scores a head against every cached row that the token sees, takes the exponentials
/// of what they fall short of the largest, and adds them up.
pub open spec fn weigh_code(g: Heads, rest: Code) -> Code {
    let n = visible_int();
    let whole = Int::Eights(Box::new(visible_int()));
    then(
        over(Int::Const(0), n, 1, score_body(g)),
        then(
            Stmt::Store(Buf::Cell(0), Int::Const(0), Real::Bits(NEG_INF)),
            then(
                over(Int::Const(0), n, 1, best_body()),
                then(
                    Stmt::Let(9, cell(0)),
                    then(
                        Stmt::Store(Buf::Cell(1), Int::Const(0), Real::Bits(0)),
                        then(
                            over(Int::Const(0), whole, 8, exp8_body(g)),
                            then(
                                over(whole, n, 1, exp1_body(g)),
                                then(Stmt::Let(8, cell(1)), rest),
                            ),
                        ),
                    ),
                ),
            ),
        ),
    )
}

/// The code of one head: scores, their maximum, their exponentials and the total of
/// these, and the values mixed by their shares.
pub open spec fn head_code(g: Heads) -> Code {
    weigh_code(
        g,
        clear_code(
            g,
            0,
            then(over(Int::Const(0), visible_int(), 1, mix_body(g)), out_code(g, 0)),
        ),
    )
}

/// The code of the function: every head of the span.
pub open spec fn hspan_code(g: Heads) -> Code {
    then(
        Stmt::Loop {
            var: H,
            from: Int::Arg(H_START),
            to: Int::Arg(H_END),
            step: 1,
            body: Box::new(head_code(g)),
        },
        Code::End,
    )
}

fn emit_head(g: &Heads) -> (c: Code)
    requires
        heads_ok(*g),
    ensures
        c == head_code(*g),
{
    let mix = seq_of(loop_over(Int::Const(0), visible(), 1, emit_mixing(g)), emit_out(g));
    let clear = emit_clear(g, mix);
    let total = seq_of(Stmt::Let(8, load_cell(1)), clear);
    let tail = seq_of(
        loop_over(Int::Eights(Box::new(visible())), visible(), 1, emit_exp1(g)),
        total,
    );
    let eights = seq_of(
        loop_over(Int::Const(0), Int::Eights(Box::new(visible())), 8, emit_exp8(g)),
        tail,
    );
    let sums = seq_of(
        Stmt::Let(9, load_cell(0)),
        seq_of(Stmt::Store(Buf::Cell(1), Int::Const(0), Real::Bits(0)), eights),
    );
    let best = seq_of(
        Stmt::Store(Buf::Cell(0), Int::Const(0), Real::Bits(NEG_INF)),
        seq_of(loop_over(Int::Const(0), visible(), 1, emit_best()), sums),
    );
    seq_of(loop_over(Int::Const(0), visible(), 1, emit_score(g)), best)
}

/// The sizes with the factor of the scores: one over the root of the size of a head.
pub fn heads<
    Q: Fn(u32) -> u32,
    E: Fn(u32) -> u32,
    P: Fn(u32, u32) -> u32,
    S: Fn(u32) -> (u32, u32),
>(
    head_dim: u64,
    n_heads: u64,
    n_kv_heads: u64,
    expf: ExpfConsts,
    math: &Math<Q, E, P, S>,
) -> (g: Heads)
    requires
        math.lawful(),
    ensures
        g == (Heads {
            head_dim,
            n_heads,
            n_kv_heads,
            scale: quotient(ONE, (math.model().sqrt)(of_int(head_dim as int))),
            expf,
        }),
{
    let scale: u32 = f32_div(ONE, math.root(f32_of_count(head_dim)));
    Heads { head_dim, n_heads, n_kv_heads, scale, expf }
}

/// Emits the attention function for fixed sizes. The number of a head must be a
/// multiple of eight, and key heads must be shared evenly.
pub fn emit_attn_hspan_fn(g: &Heads) -> (c: Code)
    requires
        heads_ok(*g),
    ensures
        c == hspan_code(*g),
{
    let body = emit_head(g);
    seq_of(
        Stmt::Loop {
            var: H,
            from: Int::Arg(H_START),
            to: Int::Arg(H_END),
            step: 1,
            body: Box::new(body),
        },
        Code::End,
    )
}

} // verus!
