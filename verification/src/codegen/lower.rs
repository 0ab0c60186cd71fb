//! From steps to code: every step of a token as loops over its row, products and
//! attention as kernel calls. The code does what the scalar operations do, in the
//! same order.

use vstd::prelude::*;

use crate::codegen::code::{Buf, Code, Int, Kernel, Real, Stmt};
use crate::codegen::loopir::{IslandCodeV, LoopIr, Step, StepV};
use crate::codegen::plan::{isa_of, module_isa, Isa, PackedV, Plan, PlanV};
use crate::codegen::profile::{label_of, labelled, step_label, ProfileSlots, KV_APPEND_LABEL};
use crate::float::single::{f32_of_count, of_int};
use crate::formats::desc::{DType, DTypeV, ModelDesc, ModelV, RopeStyle};
use crate::graph::ir::{Dim, Graph, GraphV};
use crate::graph::ops::ONE;

verus! {

/// Two statements, or a statement and code.
pub open spec fn then(s: Stmt, rest: Code) -> Code {
    Code::Then(Box::new(s), Box::new(rest))
}

pub fn seq_of(s: Stmt, rest: Code) -> (c: Code)
    ensures
        c == then(s, rest),
{
    Code::Then(Box::new(s), Box::new(rest))
}

pub open spec fn plus(a: Int, b: Int) -> Int {
    Int::Plus(Box::new(a), Box::new(b))
}

pub fn int_plus(a: Int, b: Int) -> (r: Int)
    ensures
        r == plus(a, b),
{
    Int::Plus(Box::new(a), Box::new(b))
}

pub open spec fn times(a: Int, b: Int) -> Int {
    Int::Times(Box::new(a), Box::new(b))
}

pub fn int_times(a: Int, b: Int) -> (r: Int)
    ensures
        r == times(a, b),
{
    Int::Times(Box::new(a), Box::new(b))
}

/// A loop over the numbers below a constant.
pub open spec fn below(var: usize, n: u64, body: Code) -> Stmt {
    Stmt::Loop {
        var,
        from: Int::Const(0),
        to: Int::Const(n),
        step: 1,
        body: Box::new(body),
    }
}

pub fn loop_below(var: usize, n: u64, body: Code) -> (s: Stmt)
    ensures
        s == below(var, n, body),
{
    Stmt::Loop { var, from: Int::Const(0), to: Int::Const(n), step: 1, body: Box::new(body) }
}

/// The product of the first `k` fixed dimensions.
pub open spec fn fixed_dims(s: Seq<Dim>, k: nat) -> nat
    decreases k,
{
    if k == 0 {
        1
    } else {
        match s[k - 1] {
            Dim::Const(c) => fixed_dims(s, (k - 1) as nat) * c as nat,
            Dim::SeqLen => fixed_dims(s, (k - 1) as nat),
        }
    }
}

/// How many numbers a row of value `v` has.
pub open spec fn row_len(g: GraphV, v: usize) -> nat {
    let s = g.nodes[v - 1].out_shape;
    fixed_dims(s, s.len())
}

/// Whether value `v` is that of a node with rows of a size, for which the plan has a
/// place.
pub open spec fn placed(p: PlanV, g: GraphV, v: usize) -> bool {
    &&& 1 <= v <= g.nodes.len()
    &&& v <= p.slots.len()
    &&& forall|k: nat|
        k <= g.nodes[v - 1].out_shape.len() ==> #[trigger] fixed_dims(
            g.nodes[v - 1].out_shape,
            k,
        ) <= u64::MAX
}

/// How many numbers a row of value `v` has.
pub(crate) fn row_size(plan: &Plan, graph: &Graph, v: usize) -> (n: u64)
    requires
        placed(plan@, graph@, v),
    ensures
        n == row_len(graph@, v),
{
    let node = &graph.nodes[v - 1];
    proof {
        assert(graph@.nodes[v - 1] == node@);
    }
    let dims = &node.out_shape.0;
    let ghost s = graph@.nodes[v - 1].out_shape;
    let mut n: u64 = 1;
    let mut k: usize = 0;
    while k < dims.len()
        invariant
            k <= dims@.len(),
            s == dims@,
            n == fixed_dims(s, k as nat),
            forall|k: nat| k <= s.len() ==> #[trigger] fixed_dims(s, k) <= u64::MAX,
        decreases dims.len() - k,
    {
        assert(fixed_dims(s, (k + 1) as nat) <= u64::MAX);
        match dims[k] {
            Dim::Const(c) => {
                n = n * c;
            },
            Dim::SeqLen => {},
        }
        k += 1;
    }
    n
}

/// Where the row of value `v` starts in the arena.
pub open spec fn row_at(p: PlanV, g: GraphV, v: usize, row: Int) -> Int {
    plus(
        Int::Const(p.slots[v - 1] as u64),
        times(row, Int::Const(row_len(g, v) as u64)),
    )
}

fn row_start(plan: &Plan, graph: &Graph, v: usize, row: Int) -> (r: Int)
    requires
        placed(plan@, graph@, v),
    ensures
        r == row_at(plan@, graph@, v, row),
{
    int_plus(
        Int::Const(plan.slots[v - 1] as u64),
        int_times(row, Int::Const(row_size(plan, graph, v))),
    )
}

/// A place of the row of value `v`.
pub open spec fn spot(p: PlanV, g: GraphV, v: usize, i: Int) -> Int {
    plus(row_at(p, g, v, Int::Row), i)
}

fn spot_of(plan: &Plan, graph: &Graph, v: usize, i: Int) -> (r: Int)
    requires
        placed(plan@, graph@, v),
    ensures
        r == spot(plan@, graph@, v, i),
{
    int_plus(row_start(plan, graph, v, Int::Row), i)
}

/// The row of value `v`, one number of it.
pub open spec fn from_row(p: PlanV, g: GraphV, v: usize, i: Int) -> Real {
    Real::Load(Buf::Arena, spot(p, g, v, i))
}

fn load_row(plan: &Plan, graph: &Graph, v: usize, i: Int) -> (r: Real)
    requires
        placed(plan@, graph@, v),
    ensures
        r == from_row(plan@, graph@, v, i),
{
    Real::Load(Buf::Arena, spot_of(plan, graph, v, i))
}

/// Looks up the row of the token in a table.
pub open spec fn embed_stmt(p: PlanV, g: GraphV, table: usize, out: usize) -> Stmt {
    let h = row_len(g, out) as u64;
    below(
        0,
        h,
        then(
            Stmt::Store(
                Buf::Arena,
                spot(p, g, out, Int::Var(0)),
                Real::Load(
                    Buf::Table(table),
                    plus(times(Int::Token, Int::Const(h)), Int::Var(0)),
                ),
            ),
            Code::End,
        ),
    )
}

fn lower_embed(plan: &Plan, graph: &Graph, table: usize, out: usize) -> (s: Stmt)
    requires
        placed(plan@, graph@, out),
    ensures
        s == embed_stmt(plan@, graph@, table, out),
{
    let h: u64 = row_size(plan, graph, out);
    let src = Real::Load(
        Buf::Table(table),
        int_plus(int_times(Int::Token, Int::Const(h)), Int::Var(0)),
    );
    let body = seq_of(
        Stmt::Store(Buf::Arena, spot_of(plan, graph, out, Int::Var(0)), src),
        Code::End,
    );
    loop_below(0, h, body)
}

/// Adds two rows.
pub open spec fn add_stmt(p: PlanV, g: GraphV, a: usize, b: usize, out: usize) -> Stmt {
    below(
        0,
        row_len(g, out) as u64,
        then(
            Stmt::Store(
                Buf::Arena,
                spot(p, g, out, Int::Var(0)),
                Real::Plus(
                    Box::new(from_row(p, g, a, Int::Var(0))),
                    Box::new(from_row(p, g, b, Int::Var(0))),
                ),
            ),
            Code::End,
        ),
    )
}

fn lower_add(plan: &Plan, graph: &Graph, a: usize, b: usize, out: usize) -> (s: Stmt)
    requires
        placed(plan@, graph@, a),
        placed(plan@, graph@, b),
        placed(plan@, graph@, out),
    ensures
        s == add_stmt(plan@, graph@, a, b, out),
{
    let value = Real::Plus(
        Box::new(load_row(plan, graph, a, Int::Var(0))),
        Box::new(load_row(plan, graph, b, Int::Var(0))),
    );
    let body = seq_of(
        Stmt::Store(Buf::Arena, spot_of(plan, graph, out, Int::Var(0)), value),
        Code::End,
    );
    loop_below(0, row_size(plan, graph, out), body)
}

/// The gated value of two numbers: the first over one plus the exponential of its
/// negative, times the second.
pub open spec fn gated_real(x: Real, y: Real, x2: Real) -> Real {
    Real::Times(
        Box::new(
            Real::Over(
                Box::new(x),
                Box::new(
                    Real::Plus(
                        Box::new(Real::Bits(ONE)),
                        Box::new(Real::Exp(Box::new(Real::Neg(Box::new(x2))))),
                    ),
                ),
            ),
        ),
        Box::new(y),
    )
}

/// Gates a row with another.
pub open spec fn swiglu_stmt(p: PlanV, g: GraphV, a: usize, b: usize, out: usize) -> Stmt {
    below(
        0,
        row_len(g, a) as u64,
        then(
            Stmt::Let(0, from_row(p, g, a, Int::Var(0))),
            then(
                Stmt::Store(
                    Buf::Arena,
                    spot(p, g, out, Int::Var(0)),
                    gated_real(Real::Reg(0), from_row(p, g, b, Int::Var(0)), Real::Reg(0)),
                ),
                Code::End,
            ),
        ),
    )
}

fn lower_swiglu(plan: &Plan, graph: &Graph, a: usize, b: usize, out: usize) -> (s: Stmt)
    requires
        placed(plan@, graph@, a),
        placed(plan@, graph@, b),
        placed(plan@, graph@, out),
    ensures
        s == swiglu_stmt(plan@, graph@, a, b, out),
{
    let e = Real::Exp(Box::new(Real::Neg(Box::new(Real::Reg(0)))));
    let silu = Real::Over(
        Box::new(Real::Reg(0)),
        Box::new(Real::Plus(Box::new(Real::Bits(ONE)), Box::new(e))),
    );
    let value = Real::Times(Box::new(silu), Box::new(load_row(plan, graph, b, Int::Var(0))));
    let body = seq_of(
        Stmt::Let(0, load_row(plan, graph, a, Int::Var(0))),
        seq_of(
            Stmt::Store(Buf::Arena, spot_of(plan, graph, out, Int::Var(0)), value),
            Code::End,
        ),
    );
    loop_below(0, row_size(plan, graph, a), body)
}

/// Adds a bias to a row.
pub open spec fn bias_stmt(p: PlanV, g: GraphV, tensor: usize, out: usize, rows: u64) -> Stmt {
    below(
        0,
        rows,
        then(
            Stmt::Store(
                Buf::Arena,
                spot(p, g, out, Int::Var(0)),
                Real::Plus(
                    Box::new(from_row(p, g, out, Int::Var(0))),
                    Box::new(Real::Load(Buf::Table(tensor), Int::Var(0))),
                ),
            ),
            Code::End,
        ),
    )
}

fn lower_bias(plan: &Plan, graph: &Graph, tensor: usize, out: usize, rows: u64) -> (s: Stmt)
    requires
        placed(plan@, graph@, out),
    ensures
        s == bias_stmt(plan@, graph@, tensor, out, rows),
{
    let value = Real::Plus(
        Box::new(load_row(plan, graph, out, Int::Var(0))),
        Box::new(Real::Load(Buf::Table(tensor), Int::Var(0))),
    );
    let body = seq_of(
        Stmt::Store(Buf::Arena, spot_of(plan, graph, out, Int::Var(0)), value),
        Code::End,
    );
    loop_below(0, rows, body)
}

/// A place of a chunk of the row of value `v`.
pub open spec fn chunk_spot(p: PlanV, g: GraphV, v: usize, at: u64) -> Int {
    spot(p, g, v, plus(Int::Const(at), Int::Var(0)))
}

fn chunk_spot_of(plan: &Plan, graph: &Graph, v: usize, at: u64) -> (r: Int)
    requires
        placed(plan@, graph@, v),
    ensures
        r == chunk_spot(plan@, graph@, v, at),
{
    spot_of(plan, graph, v, int_plus(Int::Const(at), Int::Var(0)))
}

/// Adds up the squares of a chunk in a cell.
pub open spec fn squares_stmt(p: PlanV, g: GraphV, src: usize, at: u64, unit: u64) -> Stmt {
    below(
        0,
        unit,
        then(
            Stmt::Let(0, Real::Load(Buf::Arena, chunk_spot(p, g, src, at))),
            then(
                Stmt::Store(
                    Buf::Cell(0),
                    Int::Const(0),
                    Real::Plus(
                        Box::new(Real::Load(Buf::Cell(0), Int::Const(0))),
                        Box::new(
                            Real::Times(Box::new(Real::Reg(0)), Box::new(Real::Reg(0))),
                        ),
                    ),
                ),
                Code::End,
            ),
        ),
    )
}

/// One over the root of the mean square, out of the sum in the cell.
pub open spec fn inverse_real(unit: u64, eps: u32) -> Real {
    Real::Over(
        Box::new(Real::Bits(ONE)),
        Box::new(
            Real::Root(
                Box::new(
                    Real::Plus(
                        Box::new(
                            Real::Over(
                                Box::new(Real::Load(Buf::Cell(0), Int::Const(0))),
                                Box::new(Real::Bits(of_int(unit as int))),
                            ),
                        ),
                        Box::new(Real::Bits(eps)),
                    ),
                ),
            ),
        ),
    )
}

/// Scales a chunk by the named factor and by the weight.
pub open spec fn scale_stmt(
    p: PlanV,
    g: GraphV,
    src: usize,
    weight: usize,
    out: usize,
    at: u64,
    unit: u64,
) -> Stmt {
    below(
        0,
        unit,
        then(
            Stmt::Store(
                Buf::Arena,
                chunk_spot(p, g, out, at),
                Real::Times(
                    Box::new(
                        Real::Times(
                            Box::new(Real::Load(Buf::Arena, chunk_spot(p, g, src, at))),
                            Box::new(Real::Reg(1)),
                        ),
                    ),
                    Box::new(Real::Load(Buf::Table(weight), Int::Var(0))),
                ),
            ),
            Code::End,
        ),
    )
}

/// Norms the chunk of a row that starts at `at`.
pub open spec fn norm_chunk(
    p: PlanV,
    g: GraphV,
    src: usize,
    weight: usize,
    eps: u32,
    out: usize,
    at: u64,
    unit: u64,
    rest: Code,
) -> Code {
    then(
        Stmt::Store(Buf::Cell(0), Int::Const(0), Real::Bits(0)),
        then(
            squares_stmt(p, g, src, at, unit),
            then(
                Stmt::Let(1, inverse_real(unit, eps)),
                then(scale_stmt(p, g, src, weight, out, at, unit), rest),
            ),
        ),
    )
}

/// Norms the chunks of a row from chunk `c` on.
pub open spec fn norm_code(
    p: PlanV,
    g: GraphV,
    src: usize,
    weight: usize,
    eps: u32,
    out: usize,
    unit: u64,
    c: nat,
    chunks: nat,
    rest: Code,
) -> Code
    decreases chunks - c,
{
    if c >= chunks {
        rest
    } else {
        norm_chunk(
            p,
            g,
            src,
            weight,
            eps,
            out,
            (c * unit) as u64,
            unit,
            norm_code(p, g, src, weight, eps, out, unit, c + 1, chunks, rest),
        )
    }
}

fn lower_chunk(
    plan: &Plan,
    graph: &Graph,
    src: usize,
    weight: usize,
    eps: u32,
    out: usize,
    at: u64,
    unit: u64,
    rest: Code,
) -> (c: Code)
    requires
        placed(plan@, graph@, src),
        placed(plan@, graph@, out),
    ensures
        c == norm_chunk(plan@, graph@, src, weight, eps, out, at, unit, rest),
{
    let square = Real::Times(Box::new(Real::Reg(0)), Box::new(Real::Reg(0)));
    let acc = Real::Plus(
        Box::new(Real::Load(Buf::Cell(0), Int::Const(0))),
        Box::new(square),
    );
    let squares = loop_below(
        0,
        unit,
        seq_of(
            Stmt::Let(0, Real::Load(Buf::Arena, chunk_spot_of(plan, graph, src, at))),
            seq_of(Stmt::Store(Buf::Cell(0), Int::Const(0), acc), Code::End),
        ),
    );
    let mean = Real::Over(
        Box::new(Real::Load(Buf::Cell(0), Int::Const(0))),
        Box::new(Real::Bits(f32_of_count(unit))),
    );
    let root = Real::Root(Box::new(Real::Plus(Box::new(mean), Box::new(Real::Bits(eps)))));
    let inverse = Real::Over(Box::new(Real::Bits(ONE)), Box::new(root));
    let value = Real::Times(
        Box::new(
            Real::Times(
                Box::new(Real::Load(Buf::Arena, chunk_spot_of(plan, graph, src, at))),
                Box::new(Real::Reg(1)),
            ),
        ),
        Box::new(Real::Load(Buf::Table(weight), Int::Var(0))),
    );
    let scale = loop_below(
        0,
        unit,
        seq_of(
            Stmt::Store(Buf::Arena, chunk_spot_of(plan, graph, out, at), value),
            Code::End,
        ),
    );
    seq_of(
        Stmt::Store(Buf::Cell(0), Int::Const(0), Real::Bits(0)),
        seq_of(squares, seq_of(Stmt::Let(1, inverse), seq_of(scale, rest))),
    )
}

/// The unit of a norm.
pub open spec fn unit_of(g: GraphV, src: usize, head_dim: Option<usize>) -> u64 {
    match head_dim {
        Some(d) => d as u64,
        None => row_len(g, src) as u64,
    }
}

/// Norms a row.
pub open spec fn rmsnorm_code(
    p: PlanV,
    g: GraphV,
    src: usize,
    weight: usize,
    eps: u32,
    out: usize,
    head_dim: Option<usize>,
    rest: Code,
) -> Code {
    let unit = unit_of(g, src, head_dim);
    norm_code(
        p,
        g,
        src,
        weight,
        eps,
        out,
        unit,
        0,
        row_len(g, src) / unit as nat,
        rest,
    )
}

fn lower_rmsnorm(
    plan: &Plan,
    graph: &Graph,
    src: usize,
    weight: usize,
    eps: u32,
    out: usize,
    head_dim: Option<usize>,
    rest: Code,
) -> (code: Code)
    requires
        placed(plan@, graph@, src),
        placed(plan@, graph@, out),
        unit_of(graph@, src, head_dim) > 0,
    ensures
        code == rmsnorm_code(plan@, graph@, src, weight, eps, out, head_dim, rest),
{
    let cols: u64 = row_size(plan, graph, src);
    let unit: u64 = match head_dim {
        Some(d) => d as u64,
        None => cols,
    };
    let chunks: u64 = cols / unit;
    let mut code = rest;
    let mut c: u64 = chunks;
    while c > 0
        invariant
            placed(plan@, graph@, src),
            placed(plan@, graph@, out),
            c <= chunks == cols / unit,
            unit > 0,
            code == norm_code(
                plan@,
                graph@,
                src,
                weight,
                eps,
                out,
                unit,
                c as nat,
                chunks as nat,
                rest,
            ),
        decreases c,
    {
        c = c - 1;
        proof {
            vstd::arithmetic::div_mod::lemma_fundamental_div_mod(cols as int, unit as int);
            assert(c * unit <= cols) by (nonlinear_arith)
                requires
                    c < cols as int / unit as int,
                    cols == unit * (cols as int / unit as int) + cols as int % unit as int,
                    cols as int % unit as int >= 0,
                    unit > 0,
            ;
        }
        code = lower_chunk(plan, graph, src, weight, eps, out, c * unit, unit, code);
    }
    code
}

/// Copies a row.
pub open spec fn copy_stmt(p: PlanV, g: GraphV, src: usize, out: usize) -> Stmt {
    below(
        0,
        row_len(g, src) as u64,
        then(
            Stmt::Store(
                Buf::Arena,
                spot(p, g, out, Int::Var(0)),
                from_row(p, g, src, Int::Var(0)),
            ),
            Code::End,
        ),
    )
}

/// The two places of the pair that the loop variable counts, within a head.
pub open spec fn pair_ints(style: RopeStyle, half: u64) -> (Int, Int) {
    match style {
        RopeStyle::Interleaved => (
            times(Int::Var(0), Int::Const(2)),
            plus(times(Int::Var(0), Int::Const(2)), Int::Const(1)),
        ),
        RopeStyle::HalfSplit => (Int::Var(0), plus(Int::Var(0), Int::Const(half))),
    }
}

/// A place of a head of the row of value `v`.
pub open spec fn head_spot(p: PlanV, g: GraphV, v: usize, at: u64, i: Int) -> Int {
    spot(p, g, v, plus(Int::Const(at), i))
}

/// Turns the pairs of the head that starts at `at`: the angle, its sine and cosine,
/// the two numbers, and what they turn into.
pub open spec fn turn_stmt(
    p: PlanV,
    g: GraphV,
    out: usize,
    at: u64,
    head_dim: usize,
    theta: u32,
    style: RopeStyle,
) -> Stmt {
    let half = (head_dim / 2) as u64;
    let (a, b) = pair_ints(style, half);
    below(
        0,
        half,
        then(
            Stmt::Let(
                0,
                Real::Times(
                    Box::new(Real::OfInt(Int::Pos)),
                    Box::new(Real::Load(Buf::Freqs(theta, head_dim), Int::Var(0))),
                ),
            ),
            then(
                Stmt::Let(1, Real::Sin(Box::new(Real::Reg(0)))),
                then(
                    Stmt::Let(2, Real::Cos(Box::new(Real::Reg(0)))),
                    then(
                        Stmt::Let(3, Real::Load(Buf::Arena, head_spot(p, g, out, at, a))),
                        then(
                            Stmt::Let(4, Real::Load(Buf::Arena, head_spot(p, g, out, at, b))),
                            then(
                                Stmt::Store(
                                    Buf::Arena,
                                    head_spot(p, g, out, at, a),
                                    Real::Minus(
                                        Box::new(reg_product(3, 2)),
                                        Box::new(reg_product(4, 1)),
                                    ),
                                ),
                                then(
                                    Stmt::Store(
                                        Buf::Arena,
                                        head_spot(p, g, out, at, b),
                                        Real::Plus(
                                            Box::new(reg_product(3, 1)),
                                            Box::new(reg_product(4, 2)),
                                        ),
                                    ),
                                    Code::End,
                                ),
                            ),
                        ),
                    ),
                ),
            ),
        ),
    )
}

/// The product of two named numbers.
pub open spec fn reg_product(a: usize, b: usize) -> Real {
    Real::Times(Box::new(Real::Reg(a)), Box::new(Real::Reg(b)))
}

fn reg_times(a: usize, b: usize) -> (r: Real)
    ensures
        r == reg_product(a, b),
{
    Real::Times(Box::new(Real::Reg(a)), Box::new(Real::Reg(b)))
}

fn pair_first(style: RopeStyle) -> (r: Int)
    ensures
        forall|half: u64| r == (#[trigger] pair_ints(style, half)).0,
{
    match style {
        RopeStyle::Interleaved => int_times(Int::Var(0), Int::Const(2)),
        RopeStyle::HalfSplit => Int::Var(0),
    }
}

fn pair_second(style: RopeStyle, half: u64) -> (r: Int)
    ensures
        r == pair_ints(style, half).1,
{
    match style {
        RopeStyle::Interleaved => int_plus(
            int_times(Int::Var(0), Int::Const(2)),
            Int::Const(1),
        ),
        RopeStyle::HalfSplit => int_plus(Int::Var(0), Int::Const(half)),
    }
}

fn head_spot_of(plan: &Plan, graph: &Graph, v: usize, at: u64, i: Int) -> (r: Int)
    requires
        placed(plan@, graph@, v),
    ensures
        r == head_spot(plan@, graph@, v, at, i),
{
    spot_of(plan, graph, v, int_plus(Int::Const(at), i))
}

fn lower_turn(
    plan: &Plan,
    graph: &Graph,
    out: usize,
    at: u64,
    head_dim: usize,
    theta: u32,
    style: RopeStyle,
) -> (s: Stmt)
    requires
        placed(plan@, graph@, out),
    ensures
        s == turn_stmt(plan@, graph@, out, at, head_dim, theta, style),
{
    let half: u64 = (head_dim / 2) as u64;
    let angle = Real::Times(
        Box::new(Real::OfInt(Int::Pos)),
        Box::new(Real::Load(Buf::Freqs(theta, head_dim), Int::Var(0))),
    );
    let store_b = Stmt::Store(
        Buf::Arena,
        head_spot_of(plan, graph, out, at, pair_second(style, half)),
        Real::Plus(Box::new(reg_times(3, 1)), Box::new(reg_times(4, 2))),
    );
    let store_a = Stmt::Store(
        Buf::Arena,
        head_spot_of(plan, graph, out, at, pair_first(style)),
        Real::Minus(Box::new(reg_times(3, 2)), Box::new(reg_times(4, 1))),
    );
    let load_b = Real::Load(
        Buf::Arena,
        head_spot_of(plan, graph, out, at, pair_second(style, half)),
    );
    let load_a = Real::Load(
        Buf::Arena,
        head_spot_of(plan, graph, out, at, pair_first(style)),
    );
    let body = seq_of(
        Stmt::Let(0, angle),
        seq_of(
            Stmt::Let(1, Real::Sin(Box::new(Real::Reg(0)))),
            seq_of(
                Stmt::Let(2, Real::Cos(Box::new(Real::Reg(0)))),
                seq_of(
                    Stmt::Let(3, load_a),
                    seq_of(
                        Stmt::Let(4, load_b),
                        seq_of(store_a, seq_of(store_b, Code::End)),
                    ),
                ),
            ),
        ),
    );
    loop_below(0, half, body)
}

/// Turns the heads of a row from head `h` on.
pub open spec fn turn_code(
    p: PlanV,
    g: GraphV,
    out: usize,
    h: nat,
    n_heads: nat,
    head_dim: usize,
    theta: u32,
    style: RopeStyle,
    rest: Code,
) -> Code
    decreases n_heads - h,
{
    if h >= n_heads {
        rest
    } else {
        then(
            turn_stmt(p, g, out, (h * head_dim) as u64, head_dim, theta, style),
            turn_code(p, g, out, h + 1, n_heads, head_dim, theta, style, rest),
        )
    }
}

/// Turns a row: copies it, and turns the heads of the copy.
pub open spec fn rope_code(
    p: PlanV,
    g: GraphV,
    src: usize,
    out: usize,
    n_heads: usize,
    head_dim: usize,
    theta: u32,
    style: RopeStyle,
    rest: Code,
) -> Code {
    then(
        copy_stmt(p, g, src, out),
        turn_code(p, g, out, 0, n_heads as nat, head_dim, theta, style, rest),
    )
}

fn lower_rope(
    plan: &Plan,
    graph: &Graph,
    src: usize,
    out: usize,
    n_heads: usize,
    head_dim: usize,
    theta: u32,
    style: RopeStyle,
    rest: Code,
) -> (code: Code)
    requires
        placed(plan@, graph@, src),
        placed(plan@, graph@, out),
        n_heads * head_dim <= u64::MAX,
    ensures
        code == rope_code(plan@, graph@, src, out, n_heads, head_dim, theta, style, rest),
{
    let mut code = rest;
    let mut h: usize = n_heads;
    while h > 0
        invariant
            placed(plan@, graph@, out),
            h <= n_heads,
            n_heads * head_dim <= u64::MAX,
            code == turn_code(
                plan@,
                graph@,
                out,
                h as nat,
                n_heads as nat,
                head_dim,
                theta,
                style,
                rest,
            ),
        decreases h,
    {
        h = h - 1;
        proof {
            assert(h * head_dim <= n_heads * head_dim) by (nonlinear_arith)
                requires
                    h <= n_heads,
            ;
        }
        code = seq_of(
            lower_turn(plan, graph, out, h as u64 * head_dim as u64, head_dim, theta, style),
            code,
        );
    }
    let copy = loop_below(
        0,
        row_size(plan, graph, src),
        seq_of(
            Stmt::Store(
                Buf::Arena,
                spot_of(plan, graph, out, Int::Var(0)),
                load_row(plan, graph, src, Int::Var(0)),
            ),
            Code::End,
        ),
    );
    seq_of(copy, code)
}

/// Where the keys of a layer start in the cache, and how many numbers lie between
/// them and its values.
pub open spec fn layer_base(p: PlanV, layer: usize) -> int {
    layer * p.max_seq_len * p.kv_dim * 2
}

/// How many numbers the keys of a layer have.
pub open spec fn region(p: PlanV) -> int {
    p.max_seq_len * p.kv_dim
}

/// Whether places in the cache can be counted.
pub open spec fn cache_counts(p: PlanV, layer: usize) -> bool {
    layer_base(p, layer) + region(p) <= u64::MAX
}

/// Appends the row of a token to the keys and values of a layer.
pub open spec fn append_stmt(p: PlanV, g: GraphV, k: usize, v: usize, layer: usize) -> Stmt {
    let at = times(Int::Pos, Int::Const(p.kv_dim as u64));
    below(
        0,
        p.kv_dim as u64,
        then(
            Stmt::Store(
                Buf::Kv,
                plus(plus(Int::Const(layer_base(p, layer) as u64), at), Int::Var(0)),
                from_row(p, g, k, Int::Var(0)),
            ),
            then(
                Stmt::Store(
                    Buf::Kv,
                    plus(
                        plus(Int::Const((layer_base(p, layer) + region(p)) as u64), at),
                        Int::Var(0),
                    ),
                    from_row(p, g, v, Int::Var(0)),
                ),
                Code::End,
            ),
        ),
    )
}

/// The numbers before the keys of a layer, and those of its keys.
fn cache_places(plan: &Plan, layer: usize) -> (r: (u64, u64))
    requires
        cache_counts(plan@, layer),
    ensures
        r.0 == layer_base(plan@, layer),
        r.1 == region(plan@),
        r.0 + r.1 <= u64::MAX,
{
    let ghost l = layer as int;
    let ghost s = plan.max_seq_len as int;
    let ghost d = plan.kv_dim as int;
    proof {
        assert(l * s * d * 2 == l * (s * d) * 2) by (nonlinear_arith);
        assert(l * s * d * 2 == 2 * (l * s * d)) by (nonlinear_arith);
        assert(0 <= s * d && 0 <= l * s * d) by (nonlinear_arith)
            requires
                s >= 0,
                d >= 0,
                l >= 0,
        ;
        if d == 0 {
            assert(l * s * 0 == 0);
        } else {
            assert(l * s <= l * s * d) by (nonlinear_arith)
                requires
                    d >= 1,
                    l >= 0,
                    s >= 0,
            ;
        }
    }
    if plan.kv_dim == 0 {
        assert(l * s * 0 * 2 == 0);
        assert(s * 0 == 0);
        return (0, 0);
    }
    let size: u64 = plan.max_seq_len as u64 * plan.kv_dim as u64;
    let rows: u64 = layer as u64 * plan.max_seq_len as u64;
    (rows * plan.kv_dim as u64 * 2, size)
}

fn lower_append(plan: &Plan, graph: &Graph, k: usize, v: usize, layer: usize) -> (s: Stmt)
    requires
        placed(plan@, graph@, k),
        placed(plan@, graph@, v),
        cache_counts(plan@, layer),
    ensures
        s == append_stmt(plan@, graph@, k, v, layer),
{
    let (base, size) = cache_places(plan, layer);
    let d: u64 = plan.kv_dim as u64;
    let store_k = Stmt::Store(
        Buf::Kv,
        int_plus(
            int_plus(Int::Const(base), int_times(Int::Pos, Int::Const(d))),
            Int::Var(0),
        ),
        load_row(plan, graph, k, Int::Var(0)),
    );
    let store_v = Stmt::Store(
        Buf::Kv,
        int_plus(
            int_plus(Int::Const(base + size), int_times(Int::Pos, Int::Const(d))),
            Int::Var(0),
        ),
        load_row(plan, graph, v, Int::Var(0)),
    );
    loop_below(0, d, seq_of(store_k, seq_of(store_v, Code::End)))
}

/// Copies a row of the logits out.
pub open spec fn logits_stmt(p: PlanV, g: GraphV, row: Int) -> Stmt {
    below(
        0,
        row_len(g, g.output) as u64,
        then(
            Stmt::Store(
                Buf::Logits,
                Int::Var(0),
                Real::Load(Buf::Arena, plus(row_at(p, g, g.output, row), Int::Var(0))),
            ),
            Code::End,
        ),
    )
}

fn lower_logits(plan: &Plan, graph: &Graph, row: Int) -> (s: Stmt)
    requires
        placed(plan@, graph@, graph@.output),
    ensures
        s == logits_stmt(plan@, graph@, row),
{
    let n: u64 = row_size(plan, graph, graph.output);
    let src = Real::Load(
        Buf::Arena,
        int_plus(row_start(plan, graph, graph.output, row), Int::Var(0)),
    );
    loop_below(0, n, seq_of(Stmt::Store(Buf::Logits, Int::Var(0), src), Code::End))
}

/// The value that the node of value `out` takes first.
pub open spec fn source_of(g: GraphV, out: usize) -> usize {
    g.nodes[out - 1].inputs[0]
}

/// Whether a weight is packed, so that rows are packed for it.
pub open spec fn is_packed(w: PackedV) -> bool {
    w.dtype != DTypeV::F32
}

/// The product of a weight with the row of the token.
pub open spec fn gemv_code(
    p: PlanV,
    g: GraphV,
    weight: usize,
    out: usize,
    rows: usize,
    k: usize,
    rest: Code,
) -> Code {
    let w = p.weights[weight as int];
    let x = row_at(p, g, source_of(g, out), Int::Row);
    let y = row_at(p, g, out, Int::Row);
    if is_packed(w) {
        then(
            Stmt::Call(
                Kernel::Pack {
                    wide: w.dtype is Q4_K,
                    isa: w.isa,
                    src: x,
                    dst: Int::Const(0),
                    k: k as u64,
                },
            ),
            then(
                Stmt::Call(Kernel::Gemv { weight, y, x: None, k: k as u64, rows: rows as u64 }),
                rest,
            ),
        )
    } else {
        then(
            Stmt::Call(Kernel::Gemv { weight, y, x: Some(x), k: k as u64, rows: rows as u64 }),
            rest,
        )
    }
}

/// Whether a product can be lowered.
pub open spec fn product_ok(p: PlanV, g: GraphV, weight: usize, out: usize) -> bool {
    &&& weight < p.weights.len()
    &&& placed(p, g, out)
    &&& g.nodes[out - 1].inputs.len() >= 1
    &&& placed(p, g, source_of(g, out))
}

fn packed_as(plan: &Plan, weight: usize) -> (r: (bool, bool, Isa))
    requires
        weight < plan@.weights.len(),
    ensures
        r.0 == is_packed(plan@.weights[weight as int]),
        r.1 == (plan@.weights[weight as int].dtype is Q4_K),
        r.2 == plan@.weights[weight as int].isa,
{
    let w = &plan.weights[weight];
    assert(plan@.weights[weight as int] == w@);
    match w.dtype {
        DType::F32 => (false, false, w.isa),
        DType::Q4_K => (true, true, w.isa),
        _ => (true, false, w.isa),
    }
}

fn source(graph: &Graph, out: usize) -> (r: usize)
    requires
        1 <= out <= graph@.nodes.len(),
        graph@.nodes[out - 1].inputs.len() >= 1,
    ensures
        r == source_of(graph@, out),
{
    assert(graph@.nodes[out - 1] == graph.nodes@[out - 1]@);
    graph.nodes[out - 1].inputs[0]
}

fn lower_gemv(
    plan: &Plan,
    graph: &Graph,
    weight: usize,
    out: usize,
    rows: usize,
    k: usize,
    rest: Code,
) -> (c: Code)
    requires
        product_ok(plan@, graph@, weight, out),
    ensures
        c == gemv_code(plan@, graph@, weight, out, rows, k, rest),
{
    let (packed, wide, isa) = packed_as(plan, weight);
    let src: usize = source(graph, out);
    let x = row_start(plan, graph, src, Int::Row);
    let y = row_start(plan, graph, out, Int::Row);
    let rows: u64 = rows as u64;
    let k: u64 = k as u64;
    if packed {
        seq_of(
            Stmt::Call(Kernel::Pack { wide, isa, src: x, dst: Int::Const(0), k }),
            seq_of(Stmt::Call(Kernel::Gemv { weight, y, x: None, k, rows }), rest),
        )
    } else {
        seq_of(Stmt::Call(Kernel::Gemv { weight, y, x: Some(x), k, rows }), rest)
    }
}

/// The variable that counts the tokens of a tile from which it starts.
pub const TILE: usize = 7;

/// The first row of a tile.
pub open spec fn tile_first() -> Int {
    Int::Var(TILE)
}

/// How many tokens a tile has: as many as fit, or those that are left.
pub open spec fn tile_count(p: PlanV) -> Int {
    Int::Min(
        Box::new(Int::Const(p.prefill_tile as u64)),
        Box::new(Int::Minus(Box::new(Int::Arg(0)), Box::new(Int::Var(TILE)))),
    )
}

fn count_of_tile(plan: &Plan) -> (r: Int)
    ensures
        r == tile_count(plan@),
{
    Int::Min(
        Box::new(Int::Const(plan.prefill_tile as u64)),
        Box::new(Int::Minus(Box::new(Int::Arg(0)), Box::new(Int::Var(TILE)))),
    )
}

/// The product of a weight with the rows of a tile. Packed rows stand close together,
/// as the kernel expects them.
pub open spec fn gemm_code(
    p: PlanV,
    g: GraphV,
    weight: usize,
    out: usize,
    rows: usize,
    k: usize,
    rest: Code,
) -> Code {
    let w = p.weights[weight as int];
    let src = source_of(g, out);
    let y = row_at(p, g, out, tile_first());
    if is_packed(w) {
        then(
            Stmt::Loop {
                var: 0,
                from: Int::Const(0),
                to: tile_count(p),
                step: 1,
                body: Box::new(
                    then(
                        Stmt::Call(
                            Kernel::Pack {
                                wide: w.dtype is Q4_K,
                                isa: w.isa,
                                src: row_at(p, g, src, plus(tile_first(), Int::Var(0))),
                                dst: times(Int::Var(0), Int::Const(w.act_row as u64)),
                                k: k as u64,
                            },
                        ),
                        Code::End,
                    ),
                ),
            },
            then(
                Stmt::Call(
                    Kernel::Gemm {
                        weight,
                        y,
                        x: None,
                        k: k as u64,
                        m: tile_count(p),
                        rows: rows as u64,
                    },
                ),
                rest,
            ),
        )
    } else {
        then(
            Stmt::Call(
                Kernel::Gemm {
                    weight,
                    y,
                    x: Some(row_at(p, g, src, tile_first())),
                    k: k as u64,
                    m: tile_count(p),
                    rows: rows as u64,
                },
            ),
            rest,
        )
    }
}

fn lower_gemm(
    plan: &Plan,
    graph: &Graph,
    weight: usize,
    out: usize,
    rows: usize,
    k: usize,
    rest: Code,
) -> (c: Code)
    requires
        product_ok(plan@, graph@, weight, out),
    ensures
        c == gemm_code(plan@, graph@, weight, out, rows, k, rest),
{
    let (packed, wide, isa) = packed_as(plan, weight);
    let act_row: u64 = plan.weights[weight].act_row as u64;
    assert(plan@.weights[weight as int] == plan.weights@[weight as int]@);
    let src: usize = source(graph, out);
    let y = row_start(plan, graph, out, Int::Var(TILE));
    let rows: u64 = rows as u64;
    let k: u64 = k as u64;
    if packed {
        let pack = Stmt::Call(
            Kernel::Pack {
                wide,
                isa,
                src: row_start(plan, graph, src, int_plus(Int::Var(TILE), Int::Var(0))),
                dst: int_times(Int::Var(0), Int::Const(act_row)),
                k,
            },
        );
        seq_of(
            Stmt::Loop {
                var: 0,
                from: Int::Const(0),
                to: count_of_tile(plan),
                step: 1,
                body: Box::new(seq_of(pack, Code::End)),
            },
            seq_of(
                Stmt::Call(
                    Kernel::Gemm { weight, y, x: None, k, m: count_of_tile(plan), rows },
                ),
                rest,
            ),
        )
    } else {
        let x = row_start(plan, graph, src, Int::Var(TILE));
        seq_of(
            Stmt::Call(
                Kernel::Gemm { weight, y, x: Some(x), k, m: count_of_tile(plan), rows },
            ),
            rest,
        )
    }
}

/// Attention for the token: its keys and values go into the cache first.
pub open spec fn attention_code(p: PlanV, g: GraphV, st: StepV, rest: Code) -> Code {
    match st {
        StepV::Attention { q, k, v, layer, n_heads, n_kv_heads, head_dim, out } => then(
            append_stmt(p, g, k, v, layer),
            then(
                Stmt::Call(
                    Kernel::Attention {
                        isa: isa_of(p),
                        out: row_at(p, g, out, Int::Row),
                        q: row_at(p, g, q, Int::Row),
                        kv_base: layer_base(p, layer) as u64,
                        v_off: region(p) as u64,
                        kv_dim: p.kv_dim as u64,
                        n_heads: n_heads as u64,
                        n_kv_heads: n_kv_heads as u64,
                        head_dim: head_dim as u64,
                    },
                ),
                rest,
            ),
        ),
        _ => rest,
    }
}

/// Attention for the tokens of a tile, whose keys and values are in the cache.
pub open spec fn tile_attention_stmt(p: PlanV, g: GraphV, st: StepV) -> Stmt {
    match st {
        StepV::Attention { q, layer, n_heads, n_kv_heads, head_dim, out, .. } => Stmt::Call(
            Kernel::ParAttention {
                isa: isa_of(p),
                out: row_at(p, g, out, tile_first()),
                q: row_at(p, g, q, tile_first()),
                pos: plus(Int::Arg(1), tile_first()),
                m: tile_count(p),
                kv_base: layer_base(p, layer) as u64,
                v_off: region(p) as u64,
                kv_dim: p.kv_dim as u64,
                n_heads: n_heads as u64,
                n_kv_heads: n_kv_heads as u64,
                head_dim: head_dim as u64,
                q_stride: row_len(g, q) as u64,
                out_stride: row_len(g, out) as u64,
            },
        ),
        _ => below(0, 0, Code::End),
    }
}

/// Whether a step can be lowered: its values have places, and sizes can be counted.
pub open spec fn lowerable(p: PlanV, g: GraphV, st: StepV) -> bool {
    match st {
        StepV::Embed { table: _, out } => placed(p, g, out),
        StepV::Quantize { .. } => true,
        StepV::Gemv { symbol: _, weight, out, rows: _, k: _ } => product_ok(p, g, weight, out),
        StepV::Bias { bias_tensor: _, out, rows: _ } => placed(p, g, out),
        StepV::RmsNorm { src, weight: _, eps: _, out, head_dim } => placed(p, g, src) && placed(
            p,
            g,
            out,
        ) && unit_of(g, src, head_dim) > 0,
        StepV::Rope { src, out, n_heads, head_dim, theta: _, style: _ } => placed(p, g, src)
            && placed(p, g, out) && n_heads * head_dim <= u64::MAX,
        StepV::Attention { q, k, v, layer, n_heads: _, n_kv_heads: _, head_dim: _, out } => placed(
            p,
            g,
            q,
        ) && placed(p, g, k) && placed(p, g, v) && placed(p, g, out) && cache_counts(p, layer),
        StepV::SwiGlu { gate, up, out } => placed(p, g, gate) && placed(p, g, up) && placed(
            p,
            g,
            out,
        ),
        StepV::Add { a, b, out } => placed(p, g, a) && placed(p, g, b) && placed(p, g, out),
    }
}

/// The code of a step for one token.
pub open spec fn step_code(p: PlanV, g: GraphV, st: StepV, rest: Code) -> Code {
    match st {
        StepV::Embed { table, out } => then(embed_stmt(p, g, table, out), rest),
        StepV::Quantize { .. } => rest,
        StepV::Gemv { symbol: _, weight, out, rows, k } => gemv_code(
            p,
            g,
            weight,
            out,
            rows,
            k,
            rest,
        ),
        StepV::Bias { bias_tensor, out, rows } => then(
            bias_stmt(p, g, bias_tensor, out, rows as u64),
            rest,
        ),
        StepV::RmsNorm { src, weight, eps, out, head_dim } => rmsnorm_code(
            p,
            g,
            src,
            weight,
            eps,
            out,
            head_dim,
            rest,
        ),
        StepV::Rope { src, out, n_heads, head_dim, theta, style } => rope_code(
            p,
            g,
            src,
            out,
            n_heads,
            head_dim,
            theta,
            style,
            rest,
        ),
        StepV::Attention { .. } => attention_code(p, g, st, rest),
        StepV::SwiGlu { gate, up, out } => then(swiglu_stmt(p, g, gate, up, out), rest),
        StepV::Add { a, b, out } => then(add_stmt(p, g, a, b, out), rest),
    }
}

/// The code of a step for one token.
pub fn lower_step(plan: &Plan, graph: &Graph, step: &Step, rest: Code) -> (c: Code)
    requires
        lowerable(plan@, graph@, step@),
    ensures
        c == step_code(plan@, graph@, step@, rest),
{
    match step {
        Step::Embed { table, out } => seq_of(lower_embed(plan, graph, *table, *out), rest),
        Step::Quantize { .. } => rest,
        Step::Gemv { symbol: _, weight, out, rows, k } => lower_gemv(
            plan,
            graph,
            *weight,
            *out,
            *rows,
            *k,
            rest,
        ),
        Step::Bias { bias_tensor, out, rows } => seq_of(
            lower_bias(plan, graph, *bias_tensor, *out, *rows as u64),
            rest,
        ),
        Step::RmsNorm { src, weight, eps, out, head_dim } => lower_rmsnorm(
            plan,
            graph,
            *src,
            *weight,
            *eps,
            *out,
            *head_dim,
            rest,
        ),
        Step::Rope { src, out, n_heads, head_dim, theta, style } => lower_rope(
            plan,
            graph,
            *src,
            *out,
            *n_heads,
            *head_dim,
            *theta,
            *style,
            rest,
        ),
        Step::Attention { q, k, v, layer, n_heads, n_kv_heads, head_dim, out } => {
            let (kv_base, v_off) = cache_places(plan, *layer);
            let call = Kernel::Attention {
                isa: module_isa(plan),
                out: row_start(plan, graph, *out, Int::Row),
                q: row_start(plan, graph, *q, Int::Row),
                kv_base,
                v_off,
                kv_dim: plan.kv_dim as u64,
                n_heads: *n_heads as u64,
                n_kv_heads: *n_kv_heads as u64,
                head_dim: *head_dim as u64,
            };
            seq_of(
                lower_append(plan, graph, *k, *v, *layer),
                seq_of(Stmt::Call(call), rest),
            )
        },
        Step::SwiGlu { gate, up, out } => seq_of(
            lower_swiglu(plan, graph, *gate, *up, *out),
            rest,
        ),
        Step::Add { a, b, out } => seq_of(lower_add(plan, graph, *a, *b, *out), rest),
    }
}

/// The slot of a label, if there are slots.
pub open spec fn slot_of(slots: Option<Seq<Seq<char>>>, label: Seq<char>) -> Option<usize> {
    match slots {
        Some(s) => Some(s.index_of(label) as usize),
        None => None,
    }
}

/// Code, timed under a label if there are slots.
pub open spec fn timed(
    slots: Option<Seq<Seq<char>>>,
    label: Seq<char>,
    body: Code,
    rest: Code,
) -> Code {
    then(Stmt::Timed { slot: slot_of(slots, label), body: Box::new(body) }, rest)
}

/// The labels of optional slots.
pub open spec fn slots_view(o: Option<&ProfileSlots>) -> Option<Seq<Seq<char>>> {
    match o {
        Some(s) => Some(s@),
        None => None,
    }
}

/// Whether a label can be timed.
pub open spec fn has_slot(slots: Option<Seq<Seq<char>>>, label: Seq<char>) -> bool {
    slots matches Some(s) ==> s.contains(label) && s.no_duplicates() && s.len() <= usize::MAX
}

fn lower_timed(slots: Option<&ProfileSlots>, label: &str, body: Code, rest: Code) -> (c: Code)
    requires
        has_slot(slots_view(slots), label@),
    ensures
        c == timed(slots_view(slots), label@, body, rest),
{
    let slot: Option<usize> = match slots {
        Some(s) => {
            let i: usize = s.slot(label);
            proof {
                let j = s@.index_of(label@);
                assert(s@[i as int] == label@);
                assert(s@[j] == label@ && 0 <= j < s@.len());
                assert(i as int == j);
            }
            Some(i)
        },
        None => None,
    };
    seq_of(Stmt::Timed { slot, body: Box::new(body) }, rest)
}

/// The code of the steps from step `j` on for one token.
pub open spec fn steps_code(
    p: PlanV,
    g: GraphV,
    m: ModelV,
    slots: Option<Seq<Seq<char>>>,
    steps: Seq<StepV>,
    j: nat,
    rest: Code,
) -> Code
    decreases steps.len() - j,
{
    if j >= steps.len() {
        rest
    } else {
        timed(
            slots,
            label_of(steps[j as int], p, m),
            step_code(p, g, steps[j as int], Code::End),
            steps_code(p, g, m, slots, steps, j + 1, rest),
        )
    }
}

/// The code of the islands from island `i` on for one token.
pub open spec fn body_code(
    p: PlanV,
    g: GraphV,
    m: ModelV,
    slots: Option<Seq<Seq<char>>>,
    c: Seq<IslandCodeV>,
    i: nat,
    rest: Code,
) -> Code
    decreases c.len() - i,
{
    if i >= c.len() {
        rest
    } else {
        steps_code(
            p,
            g,
            m,
            slots,
            c[i as int].steps,
            0,
            body_code(p, g, m, slots, c, i + 1, rest),
        )
    }
}

/// The code of a tile for one step: a product for all rows at once, attention for
/// all rows when all keys and values are in the cache, anything else token by token.
pub open spec fn tile_step_code(
    p: PlanV,
    g: GraphV,
    m: ModelV,
    slots: Option<Seq<Seq<char>>>,
    st: StepV,
    rest: Code,
) -> Code {
    let label = label_of(st, p, m);
    match st {
        StepV::Gemv { symbol: _, weight, out, rows, k } => timed(
            slots,
            label,
            gemm_code(p, g, weight, out, rows, k, Code::End),
            rest,
        ),
        StepV::Quantize { .. } => rest,
        StepV::Attention { q: _, k, v, layer, .. } => timed(
            slots,
            KV_APPEND_LABEL@,
            then(
                Stmt::Tokens {
                    first: tile_first(),
                    count: tile_count(p),
                    body: Box::new(then(append_stmt(p, g, k, v, layer), Code::End)),
                },
                Code::End,
            ),
            timed(slots, label, then(tile_attention_stmt(p, g, st), Code::End), rest),
        ),
        _ => timed(
            slots,
            label,
            then(
                Stmt::Tokens {
                    first: tile_first(),
                    count: tile_count(p),
                    body: Box::new(step_code(p, g, st, Code::End)),
                },
                Code::End,
            ),
            rest,
        ),
    }
}

/// The code of a tile for the steps from step `j` on.
pub open spec fn tile_steps_code(
    p: PlanV,
    g: GraphV,
    m: ModelV,
    slots: Option<Seq<Seq<char>>>,
    steps: Seq<StepV>,
    j: nat,
    rest: Code,
) -> Code
    decreases steps.len() - j,
{
    if j >= steps.len() {
        rest
    } else {
        tile_step_code(
            p,
            g,
            m,
            slots,
            steps[j as int],
            tile_steps_code(p, g, m, slots, steps, j + 1, rest),
        )
    }
}

/// The code of a tile for the islands from island `i` on.
pub open spec fn tile_code(
    p: PlanV,
    g: GraphV,
    m: ModelV,
    slots: Option<Seq<Seq<char>>>,
    c: Seq<IslandCodeV>,
    i: nat,
) -> Code
    decreases c.len() - i,
{
    if i >= c.len() {
        Code::End
    } else {
        tile_steps_code(
            p,
            g,
            m,
            slots,
            c[i as int].steps,
            0,
            tile_code(p, g, m, slots, c, i + 1),
        )
    }
}

/// The code of the entry point for one token: all steps, and its logits.
pub open spec fn decode_code(
    p: PlanV,
    g: GraphV,
    m: ModelV,
    slots: Option<Seq<Seq<char>>>,
    c: Seq<IslandCodeV>,
) -> Code {
    body_code(p, g, m, slots, c, 0, then(logits_stmt(p, g, Int::Const(0)), Code::End))
}

/// The code of the batched entry point, whose first argument is the number of tokens
/// and whose second is the position of the first: tile by tile, and then the logits
/// of the last token.
pub open spec fn prefill_code(
    p: PlanV,
    g: GraphV,
    m: ModelV,
    slots: Option<Seq<Seq<char>>>,
    c: Seq<IslandCodeV>,
) -> Code {
    then(
        Stmt::Loop {
            var: TILE,
            from: Int::Const(0),
            to: Int::Arg(0),
            step: p.prefill_tile as u64,
            body: Box::new(tile_code(p, g, m, slots, c, 0)),
        },
        then(
            logits_stmt(p, g, Int::Minus(Box::new(Int::Arg(0)), Box::new(Int::Const(1)))),
            Code::End,
        ),
    )
}

/// Whether a step can be lowered, and timed if there are slots.
pub open spec fn step_ok(
    p: PlanV,
    g: GraphV,
    m: ModelV,
    slots: Option<Seq<Seq<char>>>,
    st: StepV,
) -> bool {
    &&& lowerable(p, g, st)
    &&& labelled(st, p, m)
    &&& has_slot(slots, label_of(st, p, m))
    &&& st is Attention ==> has_slot(slots, KV_APPEND_LABEL@)
}

/// Whether all steps of a program can be lowered.
pub open spec fn program_ok(
    p: PlanV,
    g: GraphV,
    m: ModelV,
    slots: Option<Seq<Seq<char>>>,
    c: Seq<IslandCodeV>,
) -> bool {
    &&& placed(p, g, g.output)
    &&& forall|i: int, j: int|
        0 <= i < c.len() && 0 <= j < c[i].steps.len() ==> step_ok(
            p,
            g,
            m,
            slots,
            #[trigger] c[i].steps[j],
        )
}

/// The code of the entry point for one token.
pub fn lower_decode(
    plan: &Plan,
    graph: &Graph,
    desc: &ModelDesc,
    loopir: &LoopIr,
    slots: Option<&ProfileSlots>,
) -> (r: Code)
    requires
        program_ok(plan@, graph@, desc@, slots_view(slots), loopir@),
    ensures
        r == decode_code(plan@, graph@, desc@, slots_view(slots), loopir@),
{
    let ghost c = loopir@;
    let ghost sv = slots_view(slots);
    let ghost last = then(logits_stmt(plan@, graph@, Int::Const(0)), Code::End);
    let mut code = seq_of(lower_logits(plan, graph, Int::Const(0)), Code::End);
    let mut i: usize = loopir.islands.len();
    while i > 0
        invariant
            program_ok(plan@, graph@, desc@, sv, c),
            c == loopir@,
            sv == slots_view(slots),
            i <= loopir.islands@.len(),
            code == body_code(plan@, graph@, desc@, sv, c, i as nat, last),
        decreases i,
    {
        i = i - 1;
        let isl = &loopir.islands[i];
        let ghost rest = code;
        proof {
            assert(c[i as int] == isl@);
        }
        let mut j: usize = isl.steps.len();
        while j > 0
            invariant
                program_ok(plan@, graph@, desc@, sv, c),
                sv == slots_view(slots),
                i < c.len(),
                c[i as int] == isl@,
                j <= isl.steps@.len(),
                code == steps_code(plan@, graph@, desc@, sv, isl@.steps, j as nat, rest),
            decreases j,
        {
            j = j - 1;
            let st = &isl.steps[j];
            proof {
                assert(c[i as int].steps[j as int] == st@);
            }
            let label = step_label(st, plan, desc);
            let body = lower_step(plan, graph, st, Code::End);
            code = lower_timed(slots, label.as_str(), body, code);
        }
    }
    code
}

/// The code of a tile for one step.
fn lower_tile_step(
    plan: &Plan,
    graph: &Graph,
    desc: &ModelDesc,
    slots: Option<&ProfileSlots>,
    st: &Step,
    rest: Code,
) -> (r: Code)
    requires
        step_ok(plan@, graph@, desc@, slots_view(slots), st@),
    ensures
        r == tile_step_code(plan@, graph@, desc@, slots_view(slots), st@, rest),
{
    let label = step_label(st, plan, desc);
    match st {
        Step::Gemv { symbol: _, weight, out, rows, k } => {
            let body = lower_gemm(plan, graph, *weight, *out, *rows, *k, Code::End);
            lower_timed(slots, label.as_str(), body, rest)
        },
        Step::Quantize { .. } => rest,
        Step::Attention { q, k, v, layer, n_heads, n_kv_heads, head_dim, out } => {
            let (kv_base, v_off) = cache_places(plan, *layer);
            let call = Kernel::ParAttention {
                isa: module_isa(plan),
                out: row_start(plan, graph, *out, Int::Var(TILE)),
                q: row_start(plan, graph, *q, Int::Var(TILE)),
                pos: int_plus(Int::Arg(1), Int::Var(TILE)),
                m: count_of_tile(plan),
                kv_base,
                v_off,
                kv_dim: plan.kv_dim as u64,
                n_heads: *n_heads as u64,
                n_kv_heads: *n_kv_heads as u64,
                head_dim: *head_dim as u64,
                q_stride: row_size(plan, graph, *q),
                out_stride: row_size(plan, graph, *out),
            };
            let read = lower_timed(
                slots,
                label.as_str(),
                seq_of(Stmt::Call(call), Code::End),
                rest,
            );
            let append = Stmt::Tokens {
                first: Int::Var(TILE),
                count: count_of_tile(plan),
                body: Box::new(seq_of(lower_append(plan, graph, *k, *v, *layer), Code::End)),
            };
            lower_timed(slots, KV_APPEND_LABEL, seq_of(append, Code::End), read)
        },
        _ => {
            let each = Stmt::Tokens {
                first: Int::Var(TILE),
                count: count_of_tile(plan),
                body: Box::new(lower_step(plan, graph, st, Code::End)),
            };
            lower_timed(slots, label.as_str(), seq_of(each, Code::End), rest)
        },
    }
}

/// The code of the batched entry point.
pub fn lower_prefill(
    plan: &Plan,
    graph: &Graph,
    desc: &ModelDesc,
    loopir: &LoopIr,
    slots: Option<&ProfileSlots>,
) -> (r: Code)
    requires
        program_ok(plan@, graph@, desc@, slots_view(slots), loopir@),
    ensures
        r == prefill_code(plan@, graph@, desc@, slots_view(slots), loopir@),
{
    let ghost c = loopir@;
    let ghost sv = slots_view(slots);
    let mut code = Code::End;
    let mut i: usize = loopir.islands.len();
    while i > 0
        invariant
            program_ok(plan@, graph@, desc@, sv, c),
            c == loopir@,
            sv == slots_view(slots),
            i <= loopir.islands@.len(),
            code == tile_code(plan@, graph@, desc@, sv, c, i as nat),
        decreases i,
    {
        i = i - 1;
        let isl = &loopir.islands[i];
        let ghost rest = code;
        proof {
            assert(c[i as int] == isl@);
        }
        let mut j: usize = isl.steps.len();
        while j > 0
            invariant
                program_ok(plan@, graph@, desc@, sv, c),
                sv == slots_view(slots),
                i < c.len(),
                c[i as int] == isl@,
                j <= isl.steps@.len(),
                code == tile_steps_code(plan@, graph@, desc@, sv, isl@.steps, j as nat, rest),
            decreases j,
        {
            j = j - 1;
            let st = &isl.steps[j];
            proof {
                assert(c[i as int].steps[j as int] == st@);
            }
            code = lower_tile_step(plan, graph, desc, slots, st, code);
        }
    }
    let tiles = Stmt::Loop {
        var: TILE,
        from: Int::Const(0),
        to: Int::Arg(0),
        step: plan.prefill_tile as u64,
        body: Box::new(code),
    };
    let last = Int::Minus(Box::new(Int::Arg(0)), Box::new(Int::Const(1)));
    seq_of(tiles, seq_of(lower_logits(plan, graph, last), Code::End))
}

} // verus!
