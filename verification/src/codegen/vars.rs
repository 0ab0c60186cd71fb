//! Code keeps the variables that none of its loops counts with; so the code of a step
//! keeps the variable that counts the tiles.

use vstd::prelude::*;

use crate::codegen::code::{
    at_row, in_turn, int_of, iterate, run, step, trips, Code, Machine, Stmt, Units,
};
use crate::codegen::loopir::StepV;
use crate::codegen::lower::{
    append_stmt, norm_code, rmsnorm_code, rope_code, row_len, scale_stmt, squares_stmt, step_code,
    then, turn_code, unit_of, TILE,
};
use crate::codegen::plan::PlanV;
use crate::formats::desc::RopeStyle;
use crate::graph::ir::GraphV;

verus! {

/// Whether no loop of some code counts with variable `v`.
pub open spec fn spares(c: Code, v: usize) -> bool
    decreases c,
{
    match c {
        Code::End => true,
        Code::Then(s, rest) => spares_in(*s, v) && spares(*rest, v),
    }
}

/// Whether no loop of a statement counts with variable `v`.
pub open spec fn spares_in(s: Stmt, v: usize) -> bool
    decreases s,
{
    match s {
        Stmt::Loop { var, body, .. } => var != v && spares(*body, v),
        Stmt::Tokens { body, .. } => spares(*body, v),
        Stmt::Timed { body, .. } => spares(*body, v),
        _ => true,
    }
}

/// Code keeps a variable that it does not count with.
pub proof fn lemma_spared(c: Code, m: Machine, u: Units, v: usize)
    requires
        spares(c, v),
    ensures
        run(c, m, u).vars[v] == m.vars[v],
    decreases c, 0nat,
{
    match c {
        Code::End => {},
        Code::Then(s, rest) => {
            lemma_spared_in(*s, m, u, v);
            lemma_spared(*rest, step(*s, m, u), u, v);
        },
    }
}

proof fn lemma_spared_in(s: Stmt, m: Machine, u: Units, v: usize)
    requires
        spares_in(s, v),
    ensures
        step(s, m, u).vars[v] == m.vars[v],
    decreases s, 0nat,
{
    match s {
        Stmt::Loop { var, from, to, step: by, body } => {
            let lo = int_of(from, m);
            lemma_spared_loop(*body, var, lo, by, trips(lo, int_of(to, m), by), m, u, v);
        },
        Stmt::Tokens { first, count, body } => {
            let n = int_of(count, m);
            let k = (if n > 0 {
                n
            } else {
                0
            }) as nat;
            lemma_spared_tokens(*body, (u.order)(int_of(first, m), k), m, u, v);
        },
        Stmt::Timed { slot: _, body } => {
            lemma_spared(*body, m, u, v);
        },
        _ => {},
    }
}

proof fn lemma_spared_loop(
    body: Code,
    var: usize,
    from: int,
    by: u64,
    n: nat,
    m: Machine,
    u: Units,
    v: usize,
)
    requires
        spares(body, v),
        var != v,
    ensures
        iterate(body, var, from, by, n, m, u).vars[v] == m.vars[v],
    decreases body, n,
{
    if n > 0 {
        lemma_spared_loop(body, var, from, by, (n - 1) as nat, m, u, v);
        let before = iterate(body, var, from, by, (n - 1) as nat, m, u);
        let at = from + (n - 1) * by;
        lemma_spared(body, Machine { vars: before.vars.insert(var, at), ..before }, u, v);
    }
}

proof fn lemma_spared_tokens(
    body: Code,
    rows: Seq<int>,
    m: Machine,
    u: Units,
    v: usize,
)
    requires
        spares(body, v),
    ensures
        in_turn(body, rows, m, u).vars[v] == m.vars[v],
    decreases body, rows.len(),
{
    if rows.len() > 0 {
        lemma_spared_tokens(body, rows.drop_last(), m, u, v);
        let before = in_turn(body, rows.drop_last(), m, u);
        lemma_spared(body, at_row(before, rows.last()), u, v);
    }
}

proof fn lemma_norm_spares(
    p: PlanV,
    g: GraphV,
    src: usize,
    weight: usize,
    eps: u32,
    out: usize,
    unit: u64,
    c: nat,
    chunks: nat,
)
    ensures
        spares(norm_code(p, g, src, weight, eps, out, unit, c, chunks, Code::End), TILE),
    decreases chunks - c,
{
    if c < chunks {
        lemma_norm_spares(p, g, src, weight, eps, out, unit, c + 1, chunks);
        let at = (c * unit) as u64;
        let rest = norm_code(p, g, src, weight, eps, out, unit, c + 1, chunks, Code::End);
        assert(spares_in(squares_stmt(p, g, src, at, unit), TILE)) by {
            reveal_with_fuel(spares, 12);
            reveal_with_fuel(spares_in, 12);
        }
        let scale = scale_stmt(p, g, src, weight, out, at, unit);
        assert(spares_in(scale, TILE)) by {
            reveal_with_fuel(spares, 12);
            reveal_with_fuel(spares_in, 12);
        }
        assert(spares(then(scale, rest), TILE));
        reveal_with_fuel(spares, 12);
    }
}

proof fn lemma_turn_spares(
    p: PlanV,
    g: GraphV,
    out: usize,
    h: nat,
    n_heads: nat,
    head_dim: usize,
    theta: u32,
    style: RopeStyle,
)
    ensures
        spares(turn_code(p, g, out, h, n_heads, head_dim, theta, style, Code::End), TILE),
    decreases n_heads - h,
{
    if h < n_heads {
        lemma_turn_spares(p, g, out, h + 1, n_heads, head_dim, theta, style);
        reveal_with_fuel(spares, 20);
        reveal_with_fuel(spares_in, 12);
    }
}

/// The code of a step does not count with the variable of the tiles.
pub proof fn lemma_step_spares(p: PlanV, g: GraphV, st: StepV)
    ensures
        spares(step_code(p, g, st, Code::End), TILE),
{
    match st {
        StepV::RmsNorm { src, weight, eps, out, head_dim } => {
            let unit = unit_of(g, src, head_dim);
            lemma_norm_spares(
                p,
                g,
                src,
                weight,
                eps,
                out,
                unit,
                0,
                row_len(g, src) / unit as nat,
            );
            assert(step_code(p, g, st, Code::End) == rmsnorm_code(
                p,
                g,
                src,
                weight,
                eps,
                out,
                head_dim,
                Code::End,
            ));
        },
        StepV::Rope { src, out, n_heads, head_dim, theta, style } => {
            lemma_turn_spares(p, g, out, 0, n_heads as nat, head_dim, theta, style);
            reveal_with_fuel(spares, 12);
            reveal_with_fuel(spares_in, 12);
            assert(step_code(p, g, st, Code::End) == rope_code(
                p,
                g,
                src,
                out,
                n_heads,
                head_dim,
                theta,
                style,
                Code::End,
            ));
        },
        _ => {
            reveal_with_fuel(spares, 12);
            reveal_with_fuel(spares_in, 12);
        },
    }
}

/// Nor does the code that appends to the cache.
pub proof fn lemma_append_spares(p: PlanV, g: GraphV, k: usize, v: usize, layer: usize)
    ensures
        spares(then(append_stmt(p, g, k, v, layer), Code::End), TILE),
{
    reveal_with_fuel(spares, 12);
    reveal_with_fuel(spares_in, 12);
}

} // verus!
