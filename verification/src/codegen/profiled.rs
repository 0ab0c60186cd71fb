//! The profiler only watches: with its slots or without, emitted code does the same.

use vstd::prelude::*;

use crate::codegen::code::{int_of, iterate, run, step, trips, Code, Int, Machine, Stmt, Units};
use crate::codegen::loopir::{IslandCodeV, StepV};
use crate::codegen::lower::{
    append_stmt, body_code, decode_code, gemm_code, logits_stmt, prefill_code, slot_of, step_code,
    steps_code, then, tile_attention_stmt, tile_code, tile_count, tile_first, tile_step_code,
    tile_steps_code, timed, TILE,
};
use crate::codegen::plan::PlanV;
use crate::codegen::profile::{label_of, KV_APPEND_LABEL};
use crate::formats::desc::ModelV;
use crate::graph::ir::GraphV;

verus! {

/// Whether two pieces of code do the same.
pub open spec fn same_effect(a: Code, b: Code, u: Units) -> bool {
    forall|m: Machine| #[trigger] run(a, m, u) == run(b, m, u)
}

/// A label changes nothing about what is timed and what follows.
proof fn lemma_timed(
    s: Option<Seq<Seq<char>>>,
    t: Option<Seq<Seq<char>>>,
    label: Seq<char>,
    body: Code,
    a: Code,
    b: Code,
    u: Units,
)
    requires
        same_effect(a, b, u),
    ensures
        same_effect(timed(s, label, body, a), timed(t, label, body, b), u),
{
    assert forall|m: Machine| #[trigger]
        run(timed(s, label, body, a), m, u) == run(timed(t, label, body, b), m, u) by {
        let m1 = run(body, m, u);
        let x = Stmt::Timed { slot: slot_of(s, label), body: Box::new(body) };
        let y = Stmt::Timed { slot: slot_of(t, label), body: Box::new(body) };
        assert(step(x, m, u) == m1);
        assert(step(y, m, u) == m1);
        assert(run(timed(s, label, body, a), m, u) == run(a, m1, u));
        assert(run(timed(t, label, body, b), m, u) == run(b, m1, u));
    }
}

proof fn lemma_steps(
    p: PlanV,
    g: GraphV,
    d: ModelV,
    s: Option<Seq<Seq<char>>>,
    t: Option<Seq<Seq<char>>>,
    steps: Seq<StepV>,
    j: nat,
    a: Code,
    b: Code,
    u: Units,
)
    requires
        same_effect(a, b, u),
    ensures
        same_effect(
            steps_code(p, g, d, s, steps, j, a),
            steps_code(p, g, d, t, steps, j, b),
            u,
        ),
        same_effect(
            tile_steps_code(p, g, d, s, steps, j, a),
            tile_steps_code(p, g, d, t, steps, j, b),
            u,
        ),
    decreases steps.len() - j,
{
    if j < steps.len() {
        lemma_steps(p, g, d, s, t, steps, j + 1, a, b, u);
        let st = steps[j as int];
        lemma_timed(
            s,
            t,
            label_of(st, p, d),
            step_code(p, g, st, Code::End),
            steps_code(p, g, d, s, steps, j + 1, a),
            steps_code(p, g, d, t, steps, j + 1, b),
            u,
        );
        lemma_tile_step(
            p,
            g,
            d,
            s,
            t,
            st,
            tile_steps_code(p, g, d, s, steps, j + 1, a),
            tile_steps_code(p, g, d, t, steps, j + 1, b),
            u,
        );
    }
}

proof fn lemma_tile_step(
    p: PlanV,
    g: GraphV,
    d: ModelV,
    s: Option<Seq<Seq<char>>>,
    t: Option<Seq<Seq<char>>>,
    st: StepV,
    a: Code,
    b: Code,
    u: Units,
)
    requires
        same_effect(a, b, u),
    ensures
        same_effect(tile_step_code(p, g, d, s, st, a), tile_step_code(p, g, d, t, st, b), u),
{
    let label = label_of(st, p, d);
    match st {
        StepV::Gemv { symbol: _, weight, out, rows, k } => {
            lemma_timed(s, t, label, gemm_code(p, g, weight, out, rows, k, Code::End), a, b, u);
        },
        StepV::Quantize { .. } => {},
        StepV::Attention { q: _, k, v, layer, .. } => {
            let attend = then(tile_attention_stmt(p, g, st), Code::End);
            lemma_timed(s, t, label, attend, a, b, u);
            let append = Stmt::Tokens {
                first: tile_first(),
                count: tile_count(p),
                body: Box::new(then(append_stmt(p, g, k, v, layer), Code::End)),
            };
            lemma_timed(
                s,
                t,
                KV_APPEND_LABEL@,
                then(append, Code::End),
                timed(s, label, attend, a),
                timed(t, label, attend, b),
                u,
            );
        },
        _ => {
            let each = Stmt::Tokens {
                first: tile_first(),
                count: tile_count(p),
                body: Box::new(step_code(p, g, st, Code::End)),
            };
            lemma_timed(s, t, label, then(each, Code::End), a, b, u);
        },
    }
}

proof fn lemma_islands(
    p: PlanV,
    g: GraphV,
    d: ModelV,
    s: Option<Seq<Seq<char>>>,
    t: Option<Seq<Seq<char>>>,
    c: Seq<IslandCodeV>,
    i: nat,
    rest: Code,
    u: Units,
)
    ensures
        same_effect(body_code(p, g, d, s, c, i, rest), body_code(p, g, d, t, c, i, rest), u),
        same_effect(tile_code(p, g, d, s, c, i), tile_code(p, g, d, t, c, i), u),
    decreases c.len() - i,
{
    if i < c.len() {
        lemma_islands(p, g, d, s, t, c, i + 1, rest, u);
        lemma_steps(
            p,
            g,
            d,
            s,
            t,
            c[i as int].steps,
            0,
            body_code(p, g, d, s, c, i + 1, rest),
            body_code(p, g, d, t, c, i + 1, rest),
            u,
        );
        lemma_steps(
            p,
            g,
            d,
            s,
            t,
            c[i as int].steps,
            0,
            tile_code(p, g, d, s, c, i + 1),
            tile_code(p, g, d, t, c, i + 1),
            u,
        );
    }
}

/// Loops whose bodies do the same do the same.
proof fn lemma_iterate(
    a: Code,
    b: Code,
    var: usize,
    from: int,
    by: u64,
    n: nat,
    m: Machine,
    u: Units,
)
    requires
        same_effect(a, b, u),
    ensures
        iterate(a, var, from, by, n, m, u) == iterate(b, var, from, by, n, m, u),
    decreases n,
{
    if n > 0 {
        lemma_iterate(a, b, var, from, by, (n - 1) as nat, m, u);
        let before = iterate(a, var, from, by, (n - 1) as nat, m, u);
        let mm = Machine { vars: before.vars.insert(var, from + (n - 1) * by), ..before };
        assert(run(a, mm, u) == run(b, mm, u));
    }
}

/// Code that is emitted with the profiler's slots leaves the same logits, cache and
/// values behind as code without them, for one token and for a prompt.
pub proof fn law_profiling_changes_nothing(
    p: PlanV,
    g: GraphV,
    d: ModelV,
    slots: Seq<Seq<char>>,
    c: Seq<IslandCodeV>,
    m: Machine,
    u: Units,
)
    ensures
        run(decode_code(p, g, d, Some(slots), c), m, u) == run(
            decode_code(p, g, d, None, c),
            m,
            u,
        ),
        run(prefill_code(p, g, d, Some(slots), c), m, u) == run(
            prefill_code(p, g, d, None, c),
            m,
            u,
        ),
{
    let last = then(logits_stmt(p, g, Int::Const(0)), Code::End);
    lemma_islands(p, g, d, Some(slots), None, c, 0, last, u);
    let a = tile_code(p, g, d, Some(slots), c, 0);
    let b = tile_code(p, g, d, None, c, 0);
    assert(run(decode_code(p, g, d, Some(slots), c), m, u) == run(
        decode_code(p, g, d, None, c),
        m,
        u,
    ));
    let sa = Stmt::Loop {
        var: TILE,
        from: Int::Const(0),
        to: Int::Arg(0),
        step: p.prefill_tile as u64,
        body: Box::new(a),
    };
    let sb = Stmt::Loop {
        var: TILE,
        from: Int::Const(0),
        to: Int::Arg(0),
        step: p.prefill_tile as u64,
        body: Box::new(b),
    };
    assert(step(sa, m, u) == step(sb, m, u)) by {
        let lo = int_of(Int::Const(0), m);
        let hi = int_of(Int::Arg(0), m);
        let n = trips(lo, hi, p.prefill_tile as u64);
        lemma_iterate(a, b, TILE, lo, p.prefill_tile as u64, n, m, u);
    }
}

} // verus!
