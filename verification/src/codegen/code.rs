//! The code that is emitted for a model, as a value: loops over numbers in memory,
//! and calls of kernels. What it means is stated here; whoever emits machine code
//! follows the value statement by statement.

use vstd::prelude::*;

use crate::codegen::plan::Isa;
use crate::float::single::{is_nan, larger, negated, of_int, order, product, quotient, sum};
use crate::graph::ops::MathV;

verus! {

/// A region of memory that holds single-precision numbers.
#[derive(Debug, Clone, Copy, PartialEq, Eq, Structural)]
pub enum Buf {
    /// The values of the nodes.
    Arena,
    /// The cached keys and values.
    Kv,
    /// Where the logits go.
    Logits,
    /// The numbers of a tensor, as constants.
    Table(usize),
    /// The frequencies of a rotation, as constants: for a base and a head.
    Freqs(u32, usize),
    /// A cell of the code's own.
    Cell(usize),
    /// The parameters of the attention function: its result, the queries, and room
    /// for scores; and its accumulators.
    Out,
    Query,
    Scores,
    Acc,
}

/// An integer.
#[derive(Debug)]
pub enum Int {
    Const(u64),
    /// The row of the token that is run, its position, and its id.
    Row,
    Pos,
    Token,
    /// The variable of a loop, or an argument.
    Var(usize),
    Arg(usize),
    Plus(Box<Int>, Box<Int>),
    Minus(Box<Int>, Box<Int>),
    Times(Box<Int>, Box<Int>),
    Over(Box<Int>, u64),
    Min(Box<Int>, Box<Int>),
    /// The largest multiple of eight that is not above it.
    Eights(Box<Int>),
}

/// A number, or eight numbers side by side: what is computed in every lane.
#[derive(Debug)]
pub enum Real {
    Bits(u32),
    /// A name for a number, or for eight.
    Reg(usize),
    Lane(usize),
    Load(Buf, Int),
    /// The number of the lane, of eight.
    Load8(Buf, Int),
    /// The sum of the eight lanes of a name, in pairs: of the halves, of the quarters,
    /// and of the two that are left.
    Fold8(usize),
    OfInt(Int),
    Neg(Box<Real>),
    Plus(Box<Real>, Box<Real>),
    Minus(Box<Real>, Box<Real>),
    Times(Box<Real>, Box<Real>),
    Over(Box<Real>, Box<Real>),
    Root(Box<Real>),
    Exp(Box<Real>),
    Sin(Box<Real>),
    Cos(Box<Real>),
    Larger(Box<Real>, Box<Real>),
    /// The third where the first is above the second, else the fourth.
    Above(Box<Real>, Box<Real>, Box<Real>, Box<Real>),
    /// The nearest whole number, halves to the even one.
    Nearest(Box<Real>),
    /// Two to the power of a whole number.
    TwoTo(Box<Real>),
    /// The product of the first two and the third added, rounded once.
    Fused(Box<Real>, Box<Real>, Box<Real>),
}

/// A call of a kernel. Places in the arena and in the cache are counted in numbers,
/// places in the scratch region and in the weights in bytes.
#[derive(Debug)]
pub enum Kernel {
    /// Packs a row of `k` numbers of the arena.
    Pack { wide: bool, isa: Isa, src: Int, dst: Int, k: u64 },
    /// Multiplies a weight with a row. The row stands in the arena, or packed in the
    /// scratch region.
    Gemv { weight: usize, y: Int, x: Option<Int>, k: u64, rows: u64 },
    /// Multiplies a weight with `m` rows.
    Gemm { weight: usize, y: Int, x: Option<Int>, k: u64, m: Int, rows: u64 },
    /// Attends for one token.
    Attention {
        isa: Isa,
        out: Int,
        q: Int,
        kv_base: u64,
        v_off: u64,
        kv_dim: u64,
        n_heads: u64,
        n_kv_heads: u64,
        head_dim: u64,
    },
    /// Attends for `m` tokens, the first of which stands at `pos`.
    ParAttention {
        isa: Isa,
        out: Int,
        q: Int,
        pos: Int,
        m: Int,
        kv_base: u64,
        v_off: u64,
        kv_dim: u64,
        n_heads: u64,
        n_kv_heads: u64,
        head_dim: u64,
        q_stride: u64,
        out_stride: u64,
    },
}

/// A statement.
#[derive(Debug)]
pub enum Stmt {
    /// Names a number, or eight.
    Let(usize, Real),
    Let8(usize, Real),
    /// Puts a number, or eight side by side, into memory.
    Store(Buf, Int, Real),
    Store8(Buf, Int, Real),
    /// Runs the body for the variable from one number up to another, in steps.
    Loop { var: usize, from: Int, to: Int, step: u64, body: Box<Code> },
    /// Runs the body for `count` tokens from a row on, in any order.
    Tokens { first: Int, count: Int, body: Box<Code> },
    /// Runs the body and adds the cycles that it takes to a slot, if there is one.
    Timed { slot: Option<usize>, body: Box<Code> },
    Call(Kernel),
}

/// Statements, one after the other.
#[derive(Debug)]
pub enum Code {
    End,
    Then(Box<Stmt>, Box<Code>),
}

/// What the machine computes where this crate does not say how: elementary
/// functions, and fused and rounding instructions; what kernels do to memory; and in
/// which order the workers take the tokens of a span, given by its first row and their
/// number.
#[verifier::ext_equal]
pub struct Units {
    pub math: MathV,
    pub fused: spec_fn(u32, u32, u32) -> u32,
    pub nearest: spec_fn(u32) -> u32,
    pub two_to: spec_fn(u32) -> u32,
    pub call: spec_fn(Kernel, Machine) -> Map<Buf, Seq<u32>>,
    pub order: spec_fn(int, nat) -> Seq<int>,
}

/// The rows of a span.
pub open spec fn span(first: int, n: nat) -> Seq<int> {
    Seq::new(n, |i: int| first + i)
}

/// Whether the workers take every token of a span once, in whatever order.
pub open spec fn orderly(u: Units) -> bool {
    forall|first: int, n: nat|
        #![trigger (u.order)(first, n)]
        (u.order)(first, n).no_duplicates() && forall|r: int|
            #[trigger] (u.order)(first, n).contains(r) <==> first <= r < first + n
}

/// The machine while it runs: memory, names, variables, arguments, the tokens and
/// the position of the first, and the token at hand.
#[verifier::ext_equal]
pub struct Machine {
    pub mem: Map<Buf, Seq<u32>>,
    pub regs: Map<usize, u32>,
    pub wide: Map<usize, Seq<u32>>,
    pub vars: Map<usize, int>,
    pub args: Seq<int>,
    pub tokens: Seq<u32>,
    pub pos_off: int,
    pub row: int,
    pub pos: int,
    pub token: int,
}

/// The value of an integer.
pub open spec fn int_of(e: Int, m: Machine) -> int
    decreases e,
{
    match e {
        Int::Const(c) => c as int,
        Int::Row => m.row,
        Int::Pos => m.pos,
        Int::Token => m.token,
        Int::Var(v) => m.vars[v],
        Int::Arg(a) => m.args[a as int],
        Int::Plus(a, b) => int_of(*a, m) + int_of(*b, m),
        Int::Minus(a, b) => int_of(*a, m) - int_of(*b, m),
        Int::Times(a, b) => int_of(*a, m) * int_of(*b, m),
        Int::Over(a, c) => int_of(*a, m) / c as int,
        Int::Min(a, b) => if int_of(*a, m) < int_of(*b, m) {
            int_of(*a, m)
        } else {
            int_of(*b, m)
        },
        Int::Eights(a) => int_of(*a, m) / 8 * 8,
    }
}

/// The sum of eight numbers, in pairs.
pub open spec fn fold8(s: Seq<u32>) -> u32 {
    let a0 = sum(s[0], s[4]);
    let a1 = sum(s[1], s[5]);
    let a2 = sum(s[2], s[6]);
    let a3 = sum(s[3], s[7]);
    sum(sum(a0, a2), sum(a1, a3))
}

/// Whether one number is above another; nothing is above or below what is not a
/// number.
pub open spec fn above(a: u32, b: u32) -> bool {
    !is_nan(a) && !is_nan(b) && order(a) > order(b)
}

/// The value of a number in a lane.
pub open spec fn real_of(e: Real, m: Machine, u: Units, lane: int) -> u32
    decreases e,
{
    match e {
        Real::Bits(b) => b,
        Real::Reg(r) => m.regs[r],
        Real::Lane(r) => m.wide[r][lane],
        Real::Load(b, i) => m.mem[b][int_of(i, m)],
        Real::Load8(b, i) => m.mem[b][int_of(i, m) + lane],
        Real::Fold8(r) => fold8(m.wide[r]),
        Real::OfInt(i) => of_int(int_of(i, m)),
        Real::Neg(a) => negated(real_of(*a, m, u, lane)),
        Real::Plus(a, b) => sum(real_of(*a, m, u, lane), real_of(*b, m, u, lane)),
        Real::Minus(a, b) => sum(
            real_of(*a, m, u, lane),
            negated(real_of(*b, m, u, lane)),
        ),
        Real::Times(a, b) => product(real_of(*a, m, u, lane), real_of(*b, m, u, lane)),
        Real::Over(a, b) => quotient(real_of(*a, m, u, lane), real_of(*b, m, u, lane)),
        Real::Root(a) => (u.math.sqrt)(real_of(*a, m, u, lane)),
        Real::Exp(a) => (u.math.exp)(real_of(*a, m, u, lane)),
        Real::Sin(a) => (u.math.sin_cos)(real_of(*a, m, u, lane)).0,
        Real::Cos(a) => (u.math.sin_cos)(real_of(*a, m, u, lane)).1,
        Real::Larger(a, b) => larger(real_of(*a, m, u, lane), real_of(*b, m, u, lane)),
        Real::Above(a, b, x, y) => if above(
            real_of(*a, m, u, lane),
            real_of(*b, m, u, lane),
        ) {
            real_of(*x, m, u, lane)
        } else {
            real_of(*y, m, u, lane)
        },
        Real::Nearest(a) => (u.nearest)(real_of(*a, m, u, lane)),
        Real::TwoTo(a) => (u.two_to)(real_of(*a, m, u, lane)),
        Real::Fused(a, b, c) => (u.fused)(
            real_of(*a, m, u, lane),
            real_of(*b, m, u, lane),
            real_of(*c, m, u, lane),
        ),
    }
}

/// The values of a number in all eight lanes.
pub open spec fn lanes_of(e: Real, m: Machine, u: Units) -> Seq<u32> {
    Seq::new(8, |l: int| real_of(e, m, u, l))
}

/// `s` with the numbers `t` from place `at` on.
pub open spec fn patched(s: Seq<u32>, at: int, t: Seq<u32>) -> Seq<u32> {
    Seq::new(
        s.len(),
        |p: int|
            if at <= p < at + t.len() {
                t[p - at]
            } else {
                s[p]
            },
    )
}

/// How often a loop runs.
pub open spec fn trips(from: int, to: int, step: u64) -> nat {
    if to <= from || step == 0 {
        0
    } else {
        ((to - from + step - 1) / step as int) as nat
    }
}

/// The machine when the token at hand is that of a row.
pub open spec fn at_row(m: Machine, row: int) -> Machine {
    Machine {
        row,
        pos: m.pos_off + row,
        token: m.tokens[row] as int,
        ..m
    }
}

/// What a statement does.
pub open spec fn step(s: Stmt, m: Machine, u: Units) -> Machine
    decreases s, 0nat,
{
    match s {
        Stmt::Let(r, e) => Machine { regs: m.regs.insert(r, real_of(e, m, u, 0)), ..m },
        Stmt::Let8(r, e) => Machine { wide: m.wide.insert(r, lanes_of(e, m, u)), ..m },
        Stmt::Store(b, i, e) => Machine {
            mem: m.mem.insert(b, m.mem[b].update(int_of(i, m), real_of(e, m, u, 0))),
            ..m
        },
        Stmt::Store8(b, i, e) => Machine {
            mem: m.mem.insert(b, patched(m.mem[b], int_of(i, m), lanes_of(e, m, u))),
            ..m
        },
        Stmt::Loop { var, from, to, step, body } => {
            let lo = int_of(from, m);
            iterate(*body, var, lo, step, trips(lo, int_of(to, m), step), m, u)
        },
        Stmt::Tokens { first, count, body } => {
            let n = int_of(count, m);
            in_turn(
                *body,
                (u.order)(
                    int_of(first, m),
                    (if n > 0 {
                        n
                    } else {
                        0
                    }) as nat,
                ),
                m,
                u,
            )
        },
        Stmt::Timed { slot: _, body } => run(*body, m, u),
        Stmt::Call(k) => Machine { mem: (u.call)(k, m), ..m },
    }
}

/// The machine after the body has run for the first `n` values of a variable.
pub open spec fn iterate(
    body: Code,
    var: usize,
    from: int,
    by: u64,
    n: nat,
    m: Machine,
    u: Units,
) -> Machine
    decreases body, n,
{
    if n == 0 {
        m
    } else {
        let before = iterate(body, var, from, by, (n - 1) as nat, m, u);
        let at = from + (n - 1) * by;
        run(body, Machine { vars: before.vars.insert(var, at), ..before }, u)
    }
}

/// The machine after the body has run for the tokens of some rows, in their order.
pub open spec fn in_turn(body: Code, rows: Seq<int>, m: Machine, u: Units) -> Machine
    decreases body, rows.len(),
{
    if rows.len() == 0 {
        m
    } else {
        let before = in_turn(body, rows.drop_last(), m, u);
        let after = run(body, at_row(before, rows.last()), u);
        Machine { row: m.row, pos: m.pos, token: m.token, ..after }
    }
}

/// What code does.
pub open spec fn run(c: Code, m: Machine, u: Units) -> Machine
    decreases c, 0nat,
{
    match c {
        Code::End => m,
        Code::Then(s, rest) => run(*rest, step(*s, m, u), u),
    }
}

} // verus!
