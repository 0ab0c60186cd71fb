//! Emitted code against the interpreter: where the kernels multiply and attend as the
//! scalar operations do, the code for one token leaves the interpreter's logits and
//! the interpreter's cache behind, bit for bit.

use vstd::prelude::*;

use crate::codegen::code::{
    int_of, patched, run, step, Buf, Code, Int, Kernel, Machine, Stmt, Units,
};
use crate::codegen::emit::arena_len;
use crate::codegen::loopir::{
    gemv_name, node_steps, nodes_steps, planned, program, StepV,
};
use crate::codegen::lower::{
    append_stmt, body_code, cache_counts, decode_code, fixed_dims, gemv_code, layer_base,
    logits_stmt, placed, product_ok, region, row_at, row_len, source_of, step_code, steps_code,
    then, timed,
};
use crate::codegen::meaning::{
    freqs_ok, law_add_code, law_append_code, law_bias_code, law_embed_code, law_logits_code,
    law_rmsnorm_code, law_rope_code, law_swiglu_code, normed, place, row_of, same_frame, unharmed,
    within, wrote,
};
use crate::codegen::plan::{isa_of, lemma_weight_at, weight_at, PlanV};
use crate::codegen::profile::label_of;
use crate::float::single::sum;
use crate::formats::desc::{DTypeV, ModelV, RopeStyle};
use crate::graph::builder::{nodes_ok, width, width_of, MAX_DIM};
use crate::graph::interp::{
    cache_after, lemma_prefix_ok, node_value, ready, run_of, run_to, weight_of,
    Feed, KvV,
};
use crate::graph::ir::{Dim, GraphV, Op};
use crate::graph::ops::{
    attention_of, dot, lemma_dot_plus_zero, lemma_row_within, matmul_of, ArrayV, Attended,
};
use crate::graph::split::{lemma_added_once, lemma_cache_so_far, lemma_ready, run_ready};

verus! {

/// A model that runs: what the interpreter is fed, the graph, the plan, the machine's
/// functions, the row that the token stands in, and how many rows there are.
#[verifier::ext_equal]
pub struct Deployed {
    pub c: Feed,
    pub g: GraphV,
    pub p: PlanV,
    pub u: Units,
    pub row: int,
    pub rows: int,
}

/// Whether value `j` is still needed when `k` nodes have run: by a node that is left,
/// or as the result.
pub open spec fn needed(g: GraphV, j: int, k: int) -> bool {
    ||| j == g.output
    ||| exists|i: int, a: int|
        k <= i < g.nodes.len() && 0 <= a < g.nodes[i].inputs.len()
            && #[trigger] g.nodes[i].inputs[a] == j
}

/// Whether row `r` of one value and row `s` of another do not overlap.
pub open spec fn clear_of(p: PlanV, g: GraphV, a: usize, r: int, b: usize, s: int) -> bool {
    ||| place(p, g, a, r) + row_len(g, a) <= place(p, g, b, s)
    ||| place(p, g, b, s) + row_len(g, b) <= place(p, g, a, r)
}

/// Whether a node may read a value from row `r` while it writes its own: kernels want
/// them apart, loops may write over what they have read.
pub open spec fn readable(p: PlanV, g: GraphV, n: int, v: usize, r: int) -> bool {
    let out = (n + 1) as usize;
    match g.nodes[n].op {
        Op::Embed { .. } => true,
        Op::MatMul { .. } | Op::Attention { .. } => clear_of(p, g, v, r, out, r),
        _ => unharmed(place(p, g, v, r), place(p, g, out, r), row_len(g, out)),
    }
}

/// Whether the plan gives every value a place for so many rows, writes over none that
/// is still needed, and packs the weights in the shapes that they have.
pub open spec fn arranged(p: PlanV, g: GraphV, m: ModelV, rows: int) -> bool {
    &&& planned(p, g)
    &&& forall|v: usize|
        1 <= v <= g.nodes.len() ==> #[trigger] placed(p, g, v) && place(p, g, v, rows)
            <= p.total_f32
    &&& forall|j: usize, r: int, out: usize, s: int|
        1 <= j < out <= g.nodes.len() && 0 <= r < rows && 0 <= s < rows && needed(
            g,
            j as int,
            out - 1,
        ) && (r != s || needed(g, j as int, out as int)) ==> #[trigger] clear_of(
            p,
            g,
            j,
            r,
            out,
            s,
        )
    &&& forall|n: int, a: int, r: int|
        0 <= n < g.nodes.len() && 0 <= a < g.nodes[n].inputs.len() && 0 <= r < rows
            ==> #[trigger] readable(p, g, n, g.nodes[n].inputs[a], r)
    &&& p.weights.len() <= usize::MAX
    &&& forall|i: int|
        0 <= i < p.weights.len() ==> {
            let w = #[trigger] p.weights[i];
            let t = m.tensors[w.tensor_index as int];
            &&& w.tensor_index < m.tensors.len()
            &&& t.shape.len() == 2 ==> w.rows == t.shape[0] && w.k == t.shape[1]
        }
    &&& forall|l: usize| l < g.n_layers ==> #[trigger] cache_counts(p, l)
    &&& p.kv_dim == g.n_kv_heads * g.head_dim
}

/// Whether `r` is `m` but for `t`, which stands in the arena from `at` on; what lies
/// behind the values, names and variables aside.
pub open spec fn computed(p: PlanV, r: Machine, m: Machine, at: int, t: Seq<u32>) -> bool {
    &&& same_frame(r, m)
    &&& forall|b: Buf|
        b != Buf::Arena && b != Buf::Cell(0) ==> #[trigger] r.mem[b] == m.mem[b]
            && r.mem.contains_key(b) == m.mem.contains_key(b)
    &&& r.mem.contains_key(Buf::Arena) == m.mem.contains_key(Buf::Arena)
    &&& r.mem.contains_key(Buf::Cell(0)) == m.mem.contains_key(Buf::Cell(0))
    &&& r.mem[Buf::Cell(0)].len() == m.mem[Buf::Cell(0)].len()
    &&& r.mem[Buf::Arena].len() == m.mem[Buf::Arena].len()
    &&& forall|i: int|
        0 <= i < p.total_f32 ==> #[trigger] r.mem[Buf::Arena][i] == patched(
            m.mem[Buf::Arena],
            at,
            t,
        )[i]
}

/// The row of a value in the arena.
pub open spec fn held(x: Deployed, m: Machine, v: usize) -> Seq<u32> {
    let at = place(x.p, x.g, v, x.row);
    m.mem[Buf::Arena].subrange(at, at + row_len(x.g, v))
}

/// The products of a row with the rows of a weight.
pub open spec fn dots(row: Seq<u32>, w: Seq<u32>, rows: nat, k: nat) -> Seq<u32> {
    Seq::new(rows, |i: int| dot(0, row, 0, w, i * k, k))
}

/// Whether the code of a product, with its packing and its kernel, multiplies as the
/// scalar operation does.
pub open spec fn multiplies(x: Deployed) -> bool {
    forall|m: Machine, weight: usize, out: usize, rows: usize, k: usize|
        #![trigger run(gemv_code(x.p, x.g, weight, out, rows, k, Code::End), m, x.u)]
        product_ok(x.p, x.g, weight, out) && clear_of(x.p, x.g, source_of(x.g, out), x.row, out, x.row) && rows
            == row_len(x.g, out) && k == row_len(x.g, source_of(x.g, out)) && m.row == x.row
            && m.mem.contains_key(Buf::Arena) && arena_len(x.p) <= m.mem[Buf::Arena].len() ==> (
        weight_of(
            x.c.model,
            x.c.files,
            x.p.weights[weight as int].tensor_index as int,
        ) matches Ok(w) ==> computed(
            x.p,
            run(gemv_code(x.p, x.g, weight, out, rows, k, Code::End), m, x.u),
            m,
            place(x.p, x.g, out, x.row),
            dots(held(x, m, source_of(x.g, out)), w, rows as nat, k as nat),
        ))
}

/// The call of the attention kernel for one token.
pub open spec fn attend_stmt(
    p: PlanV,
    g: GraphV,
    q: usize,
    layer: usize,
    n_heads: usize,
    n_kv_heads: usize,
    head_dim: usize,
    out: usize,
) -> Stmt {
    Stmt::Call(
        Kernel::Attention {
            isa: isa_of(p),
            out: row_at(p, g, out, Int::Row),
            q: row_at(p, g, q, Int::Row),
            kv_base: layer_base(p, layer) as u64,
            v_off: region(p) as u64,
            kv_dim: p.kv_dim as u64,
            n_heads: n_heads as u64,
            n_kv_heads: n_kv_heads as u64,
            head_dim: head_dim as u64,
        },
    )
}

/// The cached rows of a layer up to the position of the token, from a start on.
pub open spec fn seen(x: Deployed, m: Machine, start: int) -> Seq<u32> {
    m.mem[Buf::Kv].subrange(start, start + (m.pos + 1) * x.p.kv_dim)
}

/// Whether the attention kernel attends as the scalar operation does.
pub open spec fn attends_alike(x: Deployed) -> bool {
    forall|
        m: Machine,
        q: usize,
        layer: usize,
        n_heads: usize,
        n_kv_heads: usize,
        head_dim: usize,
        out: usize,
    |
        #![trigger step(
            attend_stmt(x.p, x.g, q, layer, n_heads, n_kv_heads, head_dim, out),
            m,
            x.u,
        )]
        placed(x.p, x.g, q) && placed(x.p, x.g, out) && clear_of(x.p, x.g, q, x.row, out, x.row) && row_len(
            x.g,
            q,
        ) == n_heads * head_dim && row_len(x.g, out) == n_heads * head_dim && m.row == x.row
            && m.mem.contains_key(Buf::Arena) && x.p.total_f32 <= m.mem[Buf::Arena].len() && 0
            <= m.pos < x.p.max_seq_len && layer_base(x.p, layer) + 2 * region(x.p)
            <= m.mem[Buf::Kv].len() && x.p.kv_dim == n_kv_heads * head_dim ==> computed(
            x.p,
            step(
                attend_stmt(x.p, x.g, q, layer, n_heads, n_kv_heads, head_dim, out),
                m,
                x.u,
            ),
            m,
            place(x.p, x.g, out, x.row),
            attention_of(
                x.u.math,
                Attended {
                    q: held(x, m, q),
                    k: seen(x, m, layer_base(x.p, layer)),
                    v: seen(x, m, layer_base(x.p, layer) + region(x.p)),
                    n_heads: n_heads as int,
                    n_kv_heads: n_kv_heads as int,
                    head_dim: head_dim as int,
                    pos_off: m.pos,
                },
                1,
            ).data,
        )
}

/// Whether the machine's cache holds a cache: for each layer its keys, and then its
/// values.
pub open spec fn caches(x: Deployed, m: Machine, kv: KvV) -> bool {
    &&& m.mem.contains_key(Buf::Kv)
    &&& kv.k.len() == x.g.n_layers && kv.v.len() == x.g.n_layers
    &&& forall|l: usize|
        #![trigger layer_base(x.p, l)]
        l < x.g.n_layers ==> {
            let at = layer_base(x.p, l);
            let s = m.mem[Buf::Kv];
            &&& at + 2 * region(x.p) <= s.len()
            &&& kv.k[l as int].len() <= region(x.p) && kv.v[l as int].len() <= region(x.p)
            &&& s.subrange(at, at + kv.k[l as int].len()) == kv.k[l as int]
            &&& s.subrange(at + region(x.p), at + region(x.p) + kv.v[l as int].len())
                == kv.v[l as int]
        }
}

/// Whether the machine has the constants that the code reads: the numbers of every
/// tensor that decodes, and the frequencies of every rotation.
pub open spec fn equipped(x: Deployed, m: Machine) -> bool {
    &&& forall|t: usize|
        t < x.c.model.tensors.len() ==> (weight_of(
            x.c.model,
            x.c.files,
            t as int,
        ) matches Ok(w) ==> #[trigger] m.mem[Buf::Table(t)] == w)
    &&& forall|n: int|
        0 <= n < x.g.nodes.len() ==> ((#[trigger] x.g.nodes[n]).op matches Op::Rope {
            theta,
            head_dim,
            ..
        } ==> freqs_ok(m, x.u, theta, head_dim as usize))
}

/// Whether the machine is where the interpreter is when `k` nodes have run: it has
/// every value that is still needed, and the same cache.
pub open spec fn holds(x: Deployed, m: Machine, k: int, vals: Seq<ArrayV>, kv: KvV) -> bool {
    &&& m.row == x.row
    &&& m.pos == x.c.pos
    &&& m.token == x.c.tokens[0]
    &&& m.mem.contains_key(Buf::Arena)
    &&& arena_len(x.p) <= m.mem[Buf::Arena].len()
    &&& m.mem.contains_key(Buf::Cell(0))
    &&& m.mem[Buf::Cell(0)].len() == 1
    &&& m.mem.contains_key(Buf::Logits)
    &&& m.mem[Buf::Logits].len() == x.c.model.hyperparams.vocab_size
    &&& equipped(x, m)
    &&& caches(x, m, kv)
    &&& vals.len() == k
    &&& forall|j: usize|
        1 <= j <= k && #[trigger] needed(x.g, j as int, k) ==> held(x, m, j) == vals[j - 1].data
}

/// Whether one token is run that the interpreter gets through, with a plan that fits.
pub open spec fn fed(x: Deployed, kv: KvV) -> bool {
    &&& run_ready(x.c, x.g, kv)
    &&& x.c.tokens.len() == 1
    &&& x.c.pos < x.p.max_seq_len
    &&& x.c.math == x.u.math
    &&& run_to(x.c, x.g, kv, x.g.nodes.len()).0 is Ok
    &&& arranged(x.p, x.g, x.c.model, x.rows)
    &&& 0 <= x.row < x.rows
}

/// What the law below is about: one token, a plan that fits, and kernels that do what
/// the scalar operations do.
pub open spec fn deployed(x: Deployed, kv: KvV) -> bool {
    &&& fed(x, kv)
    &&& multiplies(x)
    &&& attends_alike(x)
}

/// Whether the machine is ready to run node `k` for the token: it has the values that
/// the node takes, and the constants.
pub open spec fn poised(x: Deployed, m: Machine, k: int, vals: Seq<ArrayV>) -> bool {
    &&& m.row == x.row
    &&& m.pos == x.c.pos
    &&& m.token == x.c.tokens[0]
    &&& m.mem.contains_key(Buf::Arena)
    &&& arena_len(x.p) <= m.mem[Buf::Arena].len()
    &&& m.mem.contains_key(Buf::Cell(0))
    &&& m.mem[Buf::Cell(0)].len() == 1
    &&& equipped(x, m)
    &&& x.g.nodes[k].op is Embed || forall|a: int|
        0 <= a < x.g.nodes[k].inputs.len() ==> held(x, m, #[trigger] x.g.nodes[k].inputs[a])
            == vals[x.g.nodes[k].inputs[a] - 1].data
}

/// Whether the machine faces node `k` where the interpreter does.
pub open spec fn faces(
    x: Deployed,
    kv0: KvV,
    m: Machine,
    k: int,
    vals: Seq<ArrayV>,
    kv: KvV,
) -> bool {
    &&& fed(x, kv0)
    &&& 0 <= k < x.g.nodes.len()
    &&& run_to(x.c, x.g, kv0, k as nat) == (
        Ok::<Seq<ArrayV>, crate::graph::error::GraphFault>(vals),
        kv,
    )
    &&& poised(x, m, k, vals)
}

/// The rows of a graph that fits its model are as wide as the nodes say.
pub proof fn lemma_widths(x: Deployed, v: usize)
    requires
        nodes_ok(x.g.nodes, x.c.model),
        1 <= v <= x.g.nodes.len(),
    ensures
        row_len(x.g, v) == width_of(x.g.nodes, v),
        0 < width_of(x.g.nodes, v) <= MAX_DIM,
{
    lemma_prefix_ok(x.g.nodes, x.c.model, v - 1);
    let s = x.g.nodes[v - 1].out_shape;
    reveal_with_fuel(fixed_dims, 3);
    assert(s.len() == 2 && s[0] == Dim::SeqLen);
    assert(1 * width(x.g.nodes[v - 1]) == width(x.g.nodes[v - 1]));
}

/// A row of a value that has a place lies among the values.
pub proof fn lemma_room(p: PlanV, g: GraphV, m: ModelV, rows: int, v: usize, r: int)
    requires
        arranged(p, g, m, rows),
        1 <= v <= g.nodes.len(),
        0 <= r < rows,
    ensures
        placed(p, g, v),
        0 <= place(p, g, v, r),
        place(p, g, v, r) + row_len(g, v) <= p.total_f32,
{
    assert(placed(p, g, v));
    lemma_row_within(r, row_len(g, v) as int, rows);
}

/// The constants are there in any machine that has the same of them.
pub proof fn lemma_equipped(x: Deployed, m: Machine, r: Machine)
    requires
        equipped(x, m),
        forall|b: Buf| b is Table || b is Freqs ==> #[trigger] r.mem[b] == m.mem[b],
    ensures
        equipped(x, r),
{
    assert forall|i: usize| i < x.c.model.tensors.len() implies (weight_of(
        x.c.model,
        x.c.files,
        i as int,
    ) matches Ok(w) ==> #[trigger] r.mem[Buf::Table(i)] == w) by {
        assert(r.mem[Buf::Table(i)] == m.mem[Buf::Table(i)]);
    }
    assert forall|n: int| 0 <= n < x.g.nodes.len() implies ((#[trigger] x.g.nodes[n]).op matches
        Op::Rope { theta, head_dim, .. } ==> freqs_ok(r, x.u, theta, head_dim as usize)) by {
        if let Op::Rope { theta, head_dim, .. } = x.g.nodes[n].op {
            let b = Buf::Freqs(theta, head_dim as usize);
            assert(r.mem[b] == m.mem[b]);
            assert(freqs_ok(m, x.u, theta, head_dim as usize));
        }
    }
}

/// A row that lies apart from what was computed is as it was.
pub proof fn lemma_row_kept(
    x: Deployed,
    r: Machine,
    m: Machine,
    out: usize,
    s: int,
    t: Seq<u32>,
    j: usize,
)
    requires
        computed(x.p, r, m, place(x.p, x.g, out, s), t),
        t.len() == row_len(x.g, out),
        clear_of(x.p, x.g, j, x.row, out, s),
        0 <= place(x.p, x.g, j, x.row),
        place(x.p, x.g, j, x.row) + row_len(x.g, j) <= x.p.total_f32,
        x.p.total_f32 <= m.mem[Buf::Arena].len(),
    ensures
        held(x, r, j) == held(x, m, j),
{
    let at = place(x.p, x.g, j, x.row);
    let old_row = held(x, m, j);
    let new_row = held(x, r, j);
    assert forall|i: int| 0 <= i < row_len(x.g, j) implies #[trigger] new_row[i] == old_row[i] by {
        assert(r.mem[Buf::Arena][at + i] == patched(
            m.mem[Buf::Arena],
            place(x.p, x.g, out, s),
            t,
        )[at + i]);
    }
    assert(new_row =~= old_row);
}

/// What was computed stands in its row.
pub proof fn lemma_row_written(x: Deployed, r: Machine, m: Machine, out: usize, t: Seq<u32>)
    requires
        computed(x.p, r, m, place(x.p, x.g, out, x.row), t),
        t.len() == row_len(x.g, out),
        0 <= place(x.p, x.g, out, x.row),
        place(x.p, x.g, out, x.row) + row_len(x.g, out) <= x.p.total_f32,
        x.p.total_f32 <= m.mem[Buf::Arena].len(),
    ensures
        held(x, r, out) == t,
{
    let at = place(x.p, x.g, out, x.row);
    let row = held(x, r, out);
    assert forall|i: int| 0 <= i < t.len() implies #[trigger] row[i] == t[i] by {
        assert(r.mem[Buf::Arena][at + i] == patched(m.mem[Buf::Arena], at, t)[at + i]);
    }
    assert(row =~= t);
}

/// What has written a value where it belongs has one node more behind it.
proof fn lemma_advanced(
    x: Deployed,
    m: Machine,
    r: Machine,
    k: int,
    vals: Seq<ArrayV>,
    kv: KvV,
    t: ArrayV,
)
    requires
        arranged(x.p, x.g, x.c.model, x.rows),
        0 <= x.row < x.rows,
        holds(x, m, k, vals, kv),
        0 <= k < x.g.nodes.len() <= usize::MAX,
        t.data.len() == row_len(x.g, (k + 1) as usize),
        computed(x.p, r, m, place(x.p, x.g, (k + 1) as usize, x.row), t.data),
    ensures
        holds(x, r, k + 1, vals.push(t), kv),
{
    let out = (k + 1) as usize;
    lemma_equipped(x, m, r);
    assert(caches(x, r, kv)) by {
        assert(r.mem[Buf::Kv] == m.mem[Buf::Kv]);
    }
    assert(r.mem[Buf::Logits] == m.mem[Buf::Logits]);
    assert forall|j: usize|
        1 <= j <= k + 1 && #[trigger] needed(x.g, j as int, k + 1) implies held(x, r, j)
        == vals.push(t)[j - 1].data by {
        lemma_room(x.p, x.g, x.c.model, x.rows, j, x.row);
        if j == out {
            lemma_row_written(x, r, m, out, t.data);
        } else {
            assert(needed(x.g, j as int, k));
            assert(clear_of(x.p, x.g, j, x.row, out, x.row));
            lemma_row_kept(x, r, m, out, x.row, t.data, j);
        }
    }
}

/// The interpreter gets past node `k`, and what it gives has the node's width.
pub proof fn lemma_given(x: Deployed, kv0: KvV, m: Machine, k: int, vals: Seq<ArrayV>, kv: KvV)
    requires
        faces(x, kv0, m, k, vals, kv),
    ensures
        ({
            let n = x.g.nodes[k];
            let kv2 = cache_after(kv, vals, n);
            let t = given(x, k, vals, kv);
            let out = (k + 1) as usize;
            &&& x.g.nodes.len() <= usize::MAX
            &&& nodes_ok(x.g.nodes, x.c.model)
            &&& ready(x.c, x.g.nodes.take(k), n, vals, x.g, kv)
            &&& node_value(x.c, vals, kv2, n) == Ok::<ArrayV, crate::graph::error::GraphFault>(t)
            &&& run_to(x.c, x.g, kv0, (k + 1) as nat) == (
                Ok::<Seq<ArrayV>, crate::graph::error::GraphFault>(vals.push(t)),
                kv2,
            )
            &&& row_len(x.g, out) == width(n)
            &&& 0 < width(n) <= MAX_DIM
            &&& placed(x.p, x.g, out)
            &&& 0 <= place(x.p, x.g, out, x.row)
            &&& place(x.p, x.g, out, x.row) + row_len(x.g, out) <= x.p.total_f32
            &&& within(m, place(x.p, x.g, out, x.row), row_len(x.g, out))
            &&& t.data.len() == row_len(x.g, out)
        }),
{
    lemma_ready(x.c, x.g, kv0, k as nat);
    lemma_ready(x.c, x.g, kv0, (k + 1) as nat);
    lemma_widths(x, (k + 1) as usize);
    lemma_room(x.p, x.g, x.c.model, x.rows, (k + 1) as usize, x.row);
    let t = given(x, k, vals, kv);
    assert(crate::graph::interp::value_sound(vals.push(t)[k], x.g.nodes.take(k + 1)[k], 1));
}

/// The row of an input is what the interpreter has for it.
pub proof fn lemma_input_row(
    x: Deployed,
    kv0: KvV,
    m: Machine,
    k: int,
    vals: Seq<ArrayV>,
    kv: KvV,
    a: int,
)
    requires
        faces(x, kv0, m, k, vals, kv),
        0 <= a < x.g.nodes[k].inputs.len(),
        !(x.g.nodes[k].op is Embed),
    ensures
        ({
            let v = x.g.nodes[k].inputs[a];
            &&& 1 <= v <= k
            &&& placed(x.p, x.g, v)
            &&& within(m, place(x.p, x.g, v, x.row), row_len(x.g, v))
            &&& held(x, m, v) == vals[v - 1].data
            &&& row_of(m.mem[Buf::Arena], place(x.p, x.g, v, x.row), row_len(x.g, v))
                == vals[v - 1]
            &&& row_len(x.g, v) == width_of(x.g.nodes, v)
            &&& width_of(x.g.nodes.take(k), v) == width_of(x.g.nodes, v)
            &&& readable(x.p, x.g, k, v, x.row)
            &&& vals[v - 1].shape.len() == 2 && vals[v - 1].shape[0] == 1
        }),
{
    lemma_given(x, kv0, m, k, vals, kv);
    let v = x.g.nodes[k].inputs[a];
    lemma_prefix_ok(x.g.nodes, x.c.model, k);
    lemma_widths(x, v);
    lemma_room(x.p, x.g, x.c.model, x.rows, v, x.row);
    let t = vals[v - 1];
    assert(crate::graph::interp::value_sound(t, x.g.nodes.take(k)[v - 1], 1));
    let row = row_of(m.mem[Buf::Arena], place(x.p, x.g, v, x.row), row_len(x.g, v));
    assert(row.shape =~= t.shape);
    assert(row.data == held(x, m, v));
    assert(row =~= t);
    assert(readable(x.p, x.g, k, x.g.nodes[k].inputs[a], x.row));
}

/// What has written the arena alone has computed.
pub proof fn lemma_computed(p: PlanV, r: Machine, m: Machine, at: int, t: Seq<u32>)
    requires
        m.mem.contains_key(Buf::Arena),
        p.total_f32 <= m.mem[Buf::Arena].len(),
        wrote(r, m, Buf::Arena, at, t) || (normed(r, m, at, t) && m.mem.contains_key(Buf::Cell(0))
            && m.mem[Buf::Cell(0)].len() == 1),
    ensures
        computed(p, r, m, at, t),
{
}

/// The machine after steps, one after the other.
pub open spec fn run_all(x: Deployed, steps: Seq<StepV>, m: Machine) -> Machine
    decreases steps.len(),
{
    if steps.len() == 0 {
        m
    } else {
        run(
            step_code(x.p, x.g, steps.last(), Code::End),
            run_all(x, steps.drop_last(), m),
            x.u,
        )
    }
}

/// One step.
proof fn lemma_run_one(x: Deployed, st: StepV, m: Machine)
    ensures
        run_all(x, seq![st], m) == run(step_code(x.p, x.g, st, Code::End), m, x.u),
{
    assert(seq![st].drop_last() =~= Seq::<StepV>::empty());
    assert(run_all(x, seq![st].drop_last(), m) == m);
}

/// Steps that follow steps.
proof fn lemma_run_more(x: Deployed, a: Seq<StepV>, b: Seq<StepV>, m: Machine)
    ensures
        run_all(x, a + b, m) == run_all(x, b, run_all(x, a, m)),
    decreases b.len(),
{
    if b.len() == 0 {
        assert(a + b =~= a);
    } else {
        lemma_run_more(x, a, b.drop_last(), m);
        assert((a + b).drop_last() =~= a + b.drop_last());
        assert((a + b).last() == b.last());
    }
}

/// Whether the machine stands where the interpreter stands before node `k`.
pub open spec fn stands(
    x: Deployed,
    kv0: KvV,
    m: Machine,
    k: int,
    vals: Seq<ArrayV>,
    kv: KvV,
) -> bool {
    &&& deployed(x, kv0)
    &&& 0 <= k < x.g.nodes.len()
    &&& run_to(x.c, x.g, kv0, k as nat) == (
        Ok::<Seq<ArrayV>, crate::graph::error::GraphFault>(vals),
        kv,
    )
    &&& holds(x, m, k, vals, kv)
}

/// A machine that has every value that is needed has those that the next node takes.
proof fn lemma_faces(x: Deployed, kv0: KvV, m: Machine, k: int, vals: Seq<ArrayV>, kv: KvV)
    requires
        stands(x, kv0, m, k, vals, kv),
    ensures
        faces(x, kv0, m, k, vals, kv),
{
    if !(x.g.nodes[k].op is Embed) {
        lemma_ready(x.c, x.g, kv0, k as nat);
        lemma_prefix_ok(x.g.nodes, x.c.model, k);
        assert forall|a: int| 0 <= a < x.g.nodes[k].inputs.len() implies held(
            x,
            m,
            #[trigger] x.g.nodes[k].inputs[a],
        ) == vals[x.g.nodes[k].inputs[a] - 1].data by {
            let v = x.g.nodes[k].inputs[a];
            assert(needed(x.g, v as int, k));
            assert(1 <= v <= k);
        }
    }
}

/// What the interpreter gives for node `k`.
pub open spec fn given(x: Deployed, k: int, vals: Seq<ArrayV>, kv: KvV) -> ArrayV {
    let n = x.g.nodes[k];
    node_value(x.c, vals, cache_after(kv, vals, n), n)->Ok_0
}

/// Whether the code of one step puts what the interpreter gives for node `k` into the
/// token's row, and does nothing else.
pub open spec fn carries_out(
    x: Deployed,
    m: Machine,
    k: int,
    vals: Seq<ArrayV>,
    kv: KvV,
    st: StepV,
) -> bool {
    &&& node_steps(x.p, x.g, k as nat) == seq![st]
    &&& computed(
        x.p,
        run(step_code(x.p, x.g, st, Code::End), m, x.u),
        m,
        place(x.p, x.g, (k + 1) as usize, x.row),
        given(x, k, vals, kv).data,
    )
}

proof fn lemma_embed(
    x: Deployed,
    kv0: KvV,
    m: Machine,
    k: int,
    vals: Seq<ArrayV>,
    kv: KvV,
    table: usize,
) -> (st: StepV)
    requires
        faces(x, kv0, m, k, vals, kv),
        x.g.nodes[k].op matches Op::Embed { weight } && weight.0 == table,
    ensures
        carries_out(x, m, k, vals, kv, st),
{
    lemma_given(x, kv0, m, k, vals, kv);
    reveal(node_value);
    let out = (k + 1) as usize;
    let st = StepV::Embed { table, out };
    let id = x.c.tokens[0];
    law_embed_code(x.p, x.g, table, out, id, m, x.u);
    let r = step(crate::codegen::lower::embed_stmt(x.p, x.g, table, out), m, x.u);
    assert(run(step_code(x.p, x.g, st, Code::End), m, x.u) == r) by {
        reveal_with_fuel(run, 2);
    }
    assert(seq![id] =~= x.c.tokens);
    assert(m.mem[Buf::Table(table)] == weight_of(x.c.model, x.c.files, table as int)->Ok_0);
    lemma_computed(x.p, r, m, place(x.p, x.g, out, x.row), given(x, k, vals, kv).data);
    st
}

proof fn lemma_pairwise(
    x: Deployed,
    kv0: KvV,
    m: Machine,
    k: int,
    vals: Seq<ArrayV>,
    kv: KvV,
) -> (st: StepV)
    requires
        faces(x, kv0, m, k, vals, kv),
        x.g.nodes[k].op is Add || x.g.nodes[k].op is SwiGlu,
    ensures
        carries_out(x, m, k, vals, kv, st),
{
    lemma_given(x, kv0, m, k, vals, kv);
    reveal(node_value);
    let n = x.g.nodes[k];
    let out = (k + 1) as usize;
    lemma_input_row(x, kv0, m, k, vals, kv, 0);
    lemma_input_row(x, kv0, m, k, vals, kv, 1);
    let a = n.inputs[0];
    let b = n.inputs[1];
    if n.op is Add {
        let st = StepV::Add { a, b, out };
        law_add_code(x.p, x.g, a, b, out, m, x.u);
        let r = step(crate::codegen::lower::add_stmt(x.p, x.g, a, b, out), m, x.u);
        assert(run(step_code(x.p, x.g, st, Code::End), m, x.u) == r) by {
            reveal_with_fuel(run, 2);
        }
        lemma_computed(x.p, r, m, place(x.p, x.g, out, x.row), given(x, k, vals, kv).data);
        st
    } else {
        let st = StepV::SwiGlu { gate: a, up: b, out };
        law_swiglu_code(x.p, x.g, a, b, out, m, x.u);
        let r = step(crate::codegen::lower::swiglu_stmt(x.p, x.g, a, b, out), m, x.u);
        assert(run(step_code(x.p, x.g, st, Code::End), m, x.u) == r) by {
            reveal_with_fuel(run, 2);
        }
        lemma_computed(x.p, r, m, place(x.p, x.g, out, x.row), given(x, k, vals, kv).data);
        st
    }
}

proof fn lemma_norm(
    x: Deployed,
    kv0: KvV,
    m: Machine,
    k: int,
    vals: Seq<ArrayV>,
    kv: KvV,
    weight: usize,
    eps: u32,
    head_dim: Option<u64>,
) -> (st: StepV)
    requires
        faces(x, kv0, m, k, vals, kv),
        x.g.nodes[k].op matches Op::RmsNorm { weight: w, eps: e, head_dim: h } && w.0 == weight
            && e == eps && h == head_dim,
    ensures
        carries_out(x, m, k, vals, kv, st),
{
    lemma_given(x, kv0, m, k, vals, kv);
    reveal(node_value);
    let n = x.g.nodes[k];
    let out = (k + 1) as usize;
    lemma_input_row(x, kv0, m, k, vals, kv, 0);
    let src = n.inputs[0];
    crate::graph::interp::lemma_unit_fits(width(n), head_dim);
    let hd = match head_dim {
        Some(d) => Some(d as usize),
        None => None,
    };
    let st = StepV::RmsNorm { src, weight, eps, out, head_dim: hd };
    let r = law_rmsnorm_code(x.p, x.g, src, weight, eps, out, hd, m, x.u, Code::End);
    assert(run(Code::End, r, x.u) == r);
    assert(m.mem[Buf::Table(weight)] == weight_of(x.c.model, x.c.files, weight as int)->Ok_0);
    lemma_computed(x.p, r, m, place(x.p, x.g, out, x.row), given(x, k, vals, kv).data);
    st
}

proof fn lemma_turned(
    x: Deployed,
    kv0: KvV,
    m: Machine,
    k: int,
    vals: Seq<ArrayV>,
    kv: KvV,
    theta: u32,
    style: RopeStyle,
    n_heads: u64,
    head_dim: u64,
) -> (st: StepV)
    requires
        faces(x, kv0, m, k, vals, kv),
        x.g.nodes[k].op == (Op::Rope { theta, style, n_heads, head_dim }),
    ensures
        carries_out(x, m, k, vals, kv, st),
{
    lemma_given(x, kv0, m, k, vals, kv);
    reveal(node_value);
    let n = x.g.nodes[k];
    let out = (k + 1) as usize;
    lemma_input_row(x, kv0, m, k, vals, kv, 0);
    let src = n.inputs[0];
    let (nh, hd) = (n_heads as usize, head_dim as usize);
    assert(n_heads <= width(n) && head_dim <= width(n)) by (nonlinear_arith)
        requires
            n_heads * head_dim == width(n),
            width(n) > 0,
    ;
    let st = StepV::Rope { src, out, n_heads: nh, head_dim: hd, theta, style };
    assert(freqs_ok(m, x.u, theta, hd));
    let r = law_rope_code(x.p, x.g, src, out, nh, hd, theta, style, m, x.u, Code::End);
    assert(run(Code::End, r, x.u) == r);
    lemma_computed(x.p, r, m, place(x.p, x.g, out, x.row), given(x, k, vals, kv).data);
    st
}

/// Whether a node is run by a loop over the token's row: neither a product nor
/// attention.
pub open spec fn is_plain(op: Op) -> bool {
    !(op is MatMul) && !(op is Attention)
}

/// The code of such a node carries it out.
pub proof fn lemma_plain(
    x: Deployed,
    kv0: KvV,
    m: Machine,
    k: int,
    vals: Seq<ArrayV>,
    kv: KvV,
) -> (st: StepV)
    requires
        faces(x, kv0, m, k, vals, kv),
        is_plain(x.g.nodes[k].op),
    ensures
        carries_out(x, m, k, vals, kv, st),
{
    match x.g.nodes[k].op {
        Op::Embed { weight } => lemma_embed(x, kv0, m, k, vals, kv, weight.0),
        Op::RmsNorm { weight, eps, head_dim } => {
            lemma_norm(x, kv0, m, k, vals, kv, weight.0, eps, head_dim)
        },
        Op::Rope { theta, style, n_heads, head_dim } => {
            lemma_turned(x, kv0, m, k, vals, kv, theta, style, n_heads, head_dim)
        },
        _ => lemma_pairwise(x, kv0, m, k, vals, kv),
    }
}

/// The products of one row, and a bias, are those of the scalar operation.
pub proof fn lemma_one_row(x: ArrayV, w: Seq<u32>, n: usize, k: usize, bias: Option<Seq<u32>>)
    requires
        x.shape.len() == 2,
        x.shape[0] == 1,
        n > 0,
    ensures
        ({
            let d = matmul_of(x, w, n, k, bias).data;
            let y = dots(x.data, w, n as nat, k as nat);
            &&& d.len() == n
            &&& bias is None ==> d == y
            &&& bias matches Some(b) ==> d == Seq::new(n as nat, |i: int| sum(y[i], b[i]))
        }),
{
    let d = matmul_of(x, w, n, k, bias).data;
    let y = dots(x.data, w, n as nat, k as nat);
    assert(x.shape[0] * n == n);
    assert forall|i: int| 0 <= i < n implies #[trigger] d[i] == sum(
        y[i],
        match bias {
            Some(b) => b[i],
            None => 0,
        },
    ) by {
        vstd::arithmetic::div_mod::lemma_fundamental_div_mod_converse(i, n as int, 0, i);
        assert(0 * (k as int) == 0);
    }
    if bias is None {
        assert forall|i: int| 0 <= i < n implies d[i] == y[i] by {
            lemma_dot_plus_zero(x.data, 0, w, i * k, k as nat);
            assert(d[i] == sum(y[i], 0));
        }
        assert(d =~= y);
    } else {
        assert(d =~= Seq::new(n as nat, |i: int| sum(y[i], bias->Some_0[i])));
    }
}

/// The code of a bias adds it to what the product has left.
proof fn lemma_biased(
    x: Deployed,
    m: Machine,
    m1: Machine,
    tensor: usize,
    out: usize,
    rows: usize,
    y: Seq<u32>,
    bias: Seq<u32>,
) -> (m2: Machine)
    requires
        placed(x.p, x.g, out),
        m.row == x.row,
        m.mem.contains_key(Buf::Arena),
        x.p.total_f32 <= m.mem[Buf::Arena].len(),
        rows == row_len(x.g, out),
        0 <= place(x.p, x.g, out, x.row),
        place(x.p, x.g, out, x.row) + rows <= x.p.total_f32,
        y.len() == rows,
        m.mem[Buf::Table(tensor)] == bias,
        computed(x.p, m1, m, place(x.p, x.g, out, x.row), y),
    ensures
        run(
            step_code(x.p, x.g, StepV::Bias { bias_tensor: tensor, out, rows }, Code::End),
            m1,
            x.u,
        ) == m2,
        computed(
            x.p,
            m2,
            m,
            place(x.p, x.g, out, x.row),
            Seq::new(rows as nat, |i: int| sum(y[i], bias[i])),
        ),
{
    let at = place(x.p, x.g, out, x.row);
    let add = StepV::Bias { bias_tensor: tensor, out, rows };
    law_bias_code(x.p, x.g, tensor, out, rows as u64, m1, x.u);
    let m2 = step(
        crate::codegen::lower::bias_stmt(x.p, x.g, tensor, out, rows as u64),
        m1,
        x.u,
    );
    assert(run(step_code(x.p, x.g, add, Code::End), m1, x.u) == m2) by {
        reveal_with_fuel(run, 2);
    }
    let t = Seq::new(rows as nat, |i: int| sum(y[i], bias[i]));
    let s1 = m1.mem[Buf::Arena];
    assert(m1.mem[Buf::Table(tensor)] == m.mem[Buf::Table(tensor)]);
    let z = Seq::new(rows as nat, |i: int| sum(s1[at + i], m1.mem[Buf::Table(tensor)][i]));
    assert forall|i: int| 0 <= i < rows implies z[i] == t[i] by {
        assert(s1[at + i] == patched(m.mem[Buf::Arena], at, y)[at + i]);
    }
    assert(z =~= t);
    assert(m2.mem[Buf::Arena] == patched(s1, at, t));
    assert forall|i: int| 0 <= i < x.p.total_f32 implies #[trigger] m2.mem[Buf::Arena][i]
        == patched(m.mem[Buf::Arena], at, t)[i] by {
        assert(s1[i] == patched(m.mem[Buf::Arena], at, y)[i]);
    }
    assert forall|c: Buf| c != Buf::Arena && c != Buf::Cell(0) implies #[trigger] m2.mem[c]
        == m.mem[c] && m2.mem.contains_key(c) == m.mem.contains_key(c) by {
        assert(m1.mem[c] == m.mem[c]);
    }
    m2
}

/// What the plan and the interpreter say of a product.
pub proof fn lemma_product_facts(
    x: Deployed,
    kv0: KvV,
    m: Machine,
    k: int,
    vals: Seq<ArrayV>,
    kv: KvV,
    weight: usize,
) -> (wi: usize)
    requires
        faces(x, kv0, m, k, vals, kv),
        x.g.nodes[k].op matches Op::MatMul { weight: w, .. } && w.0 == weight,
    ensures
        ({
            let n = x.g.nodes[k];
            let out = (k + 1) as usize;
            let src = n.inputs[0];
            let pw = x.p.weights[wi as int];
            &&& weight_at(x.p.weights, weight, 0) == Some(wi)
            &&& wi < x.p.weights.len()
            &&& pw.tensor_index == weight
            &&& pw.rows == row_len(x.g, out)
            &&& pw.k == row_len(x.g, src)
            &&& pw.rows > 0
            &&& source_of(x.g, out) == src
            &&& product_ok(x.p, x.g, wi, out)
            &&& clear_of(x.p, x.g, src, x.row, out, x.row)
            &&& vals[src - 1].shape.len() == 2 && vals[src - 1].shape[0] == 1
            &&& held(x, m, src) == vals[src - 1].data
            &&& weight_of(x.c.model, x.c.files, weight as int) is Ok
            &&& crate::graph::interp::bias_of(x.c, n.op) is Ok
            &&& given(x, k, vals, kv) == matmul_of(
                vals[src - 1],
                weight_of(x.c.model, x.c.files, weight as int)->Ok_0,
                pw.rows,
                pw.k,
                crate::graph::interp::bias_of(x.c, n.op)->Ok_0,
            )
        }),
{
    lemma_given(x, kv0, m, k, vals, kv);
    reveal(node_value);
    let n = x.g.nodes[k];
    lemma_input_row(x, kv0, m, k, vals, kv, 0);
    let src = n.inputs[0];
    assert(weight_at(x.p.weights, weight, 0) is Some);
    lemma_weight_at(x.p.weights, weight, 0);
    let wi = weight_at(x.p.weights, weight, 0)->Some_0;
    let pw = x.p.weights[wi as int];
    let shape = x.c.model.tensors[weight as int].shape;
    assert(pw.rows == shape[0] && pw.k == shape[1]);
    assert(crate::graph::interp::value_sound(vals[src - 1], x.g.nodes.take(k)[src - 1], 1));
    wi
}

proof fn lemma_node_product(
    x: Deployed,
    kv0: KvV,
    m: Machine,
    k: int,
    vals: Seq<ArrayV>,
    kv: KvV,
    weight: usize,
    bias: Option<usize>,
)
    requires
        stands(x, kv0, m, k, vals, kv),
        x.g.nodes[k].op matches Op::MatMul { weight: w, bias: b } && w.0 == weight && (match b {
            Some(t) => Some(t.0),
            None => None,
        }) == bias,
    ensures
        holds(
            x,
            run_all(x, node_steps(x.p, x.g, k as nat), m),
            k + 1,
            vals.push(given(x, k, vals, kv)),
            cache_after(kv, vals, x.g.nodes[k]),
        ),
{
    lemma_faces(x, kv0, m, k, vals, kv);
    lemma_given(x, kv0, m, k, vals, kv);
    let wi = lemma_product_facts(x, kv0, m, k, vals, kv, weight);
    let n = x.g.nodes[k];
    let out = (k + 1) as usize;
    let src = n.inputs[0];
    let pw = x.p.weights[wi as int];
    let wt = weight_of(x.c.model, x.c.files, weight as int)->Ok_0;
    let t = given(x, k, vals, kv);
    let b = crate::graph::interp::bias_of(x.c, n.op)->Ok_0;
    lemma_one_row(vals[src - 1], wt, pw.rows, pw.k, b);
    let at = place(x.p, x.g, out, x.row);
    let y = dots(held(x, m, src), wt, pw.rows as nat, pw.k as nat);

    // Packing is part of the product.
    let pack = if pw.dtype == DTypeV::F32 {
        Seq::<StepV>::empty()
    } else {
        seq![StepV::Quantize { dtype: pw.dtype, src, k: pw.k }]
    };
    let gemv = StepV::Gemv {
        symbol: gemv_name(pw.dtype, pw.isa),
        weight: wi,
        out,
        rows: pw.rows,
        k: pw.k,
    };
    assert(run_all(x, pack, m) == m) by {
        if pack.len() > 0 {
            lemma_run_one(x, pack[0], m);
        }
    }
    lemma_run_one(x, gemv, m);
    lemma_run_more(x, pack, seq![gemv], m);
    let m1 = run(gemv_code(x.p, x.g, wi, out, pw.rows, pw.k, Code::End), m, x.u);
    assert(run_all(x, pack + seq![gemv], m) == m1);
    assert(computed(x.p, m1, m, at, y));
    match bias {
        None => {
            assert(node_steps(x.p, x.g, k as nat) =~= pack + seq![gemv]);
            lemma_advanced(x, m, m1, k, vals, kv, t);
        },
        Some(bt) => {
            let add = StepV::Bias { bias_tensor: bt, out, rows: pw.rows };
            assert(node_steps(x.p, x.g, k as nat) =~= pack + seq![gemv] + seq![add]);
            lemma_run_more(x, pack + seq![gemv], seq![add], m);
            lemma_run_one(x, add, m1);
            assert(bt < x.c.model.tensors.len());
            assert(m.mem[Buf::Table(bt)] == b->Some_0);
            let m2 = lemma_biased(x, m, m1, bt, out, pw.rows, y, b->Some_0);
            lemma_advanced(x, m, m2, k, vals, kv, t);
        },
    }
}

/// The regions of two layers do not overlap.
proof fn lemma_layers_apart(p: PlanV, a: usize, b: usize)
    requires
        a < b,
    ensures
        0 <= region(p),
        0 <= layer_base(p, a),
        layer_base(p, a) + 2 * region(p) <= layer_base(p, b),
{
    let s = p.max_seq_len as int;
    let d = p.kv_dim as int;
    assert(a * s * d * 2 == 2 * (s * d) * a) by (nonlinear_arith);
    assert(b * s * d * 2 == 2 * (s * d) * b) by (nonlinear_arith);
    assert(0 <= s * d) by (nonlinear_arith)
        requires
            s >= 0,
            d >= 0,
    ;
    let r = s * d;
    assert(2 * r * a + 2 * r <= 2 * r * b && 0 <= 2 * r * a) by (nonlinear_arith)
        requires
            a + 1 <= b,
            0 <= a,
            0 <= r,
    ;
}

/// Appending to a row that stands in a region extends it.
proof fn lemma_extended(s: Seq<u32>, at: int, old: Seq<u32>, row: Seq<u32>, limit: int)
    requires
        0 <= at,
        old.len() + row.len() <= limit,
        at + limit <= s.len(),
        s.subrange(at, at + old.len()) == old,
    ensures
        patched(s, at + old.len(), row).subrange(at, at + old.len() + row.len()) == old + row,
{
    let t = patched(s, at + old.len(), row).subrange(at, at + old.len() + row.len());
    assert forall|i: int| 0 <= i < t.len() implies t[i] == (old + row)[i] by {
        if i < old.len() {
            assert(s.subrange(at, at + old.len())[i] == s[at + i]);
        }
    }
    assert(t =~= old + row);
}

/// What is patched elsewhere leaves a region as it is.
proof fn lemma_region_kept(s: Seq<u32>, at: int, n: nat, to: int, row: Seq<u32>)
    requires
        0 <= at,
        at + n <= s.len(),
        to + row.len() <= at || at + n <= to,
    ensures
        patched(s, to, row).subrange(at, at + n) == s.subrange(at, at + n),
{
    assert(patched(s, to, row).subrange(at, at + n) =~= s.subrange(at, at + n));
}

/// Appending the row of a token to the machine's cache does what the interpreter does
/// to its own.
pub proof fn lemma_cache_appended(
    x: Deployed,
    m: Machine,
    r: Machine,
    layer: usize,
    kv: KvV,
    kv2: KvV,
    key: Seq<u32>,
    value: Seq<u32>,
)
    requires
        caches(x, m, kv),
        layer < x.g.n_layers,
        0 <= m.pos < x.p.max_seq_len,
        key.len() == x.p.kv_dim,
        value.len() == x.p.kv_dim,
        kv.k[layer as int].len() == m.pos * x.p.kv_dim,
        kv.v[layer as int].len() == m.pos * x.p.kv_dim,
        kv2 == (KvV {
            k: kv.k.update(layer as int, kv.k[layer as int] + key),
            v: kv.v.update(layer as int, kv.v[layer as int] + value),
            ..kv
        }),
        r.mem == m.mem.insert(
            Buf::Kv,
            patched(
                patched(
                    m.mem[Buf::Kv],
                    layer_base(x.p, layer) + m.pos * x.p.kv_dim,
                    key,
                ),
                layer_base(x.p, layer) + m.pos * x.p.kv_dim + region(x.p),
                value,
            ),
        ),
        r.pos == m.pos,
    ensures
        caches(x, r, kv2),
        seen(x, r, layer_base(x.p, layer)) == kv2.k[layer as int],
        seen(x, r, layer_base(x.p, layer) + region(x.p)) == kv2.v[layer as int],
{
    let d = x.p.kv_dim as int;
    let reg = region(x.p);
    let base = layer_base(x.p, layer);
    let s = m.mem[Buf::Kv];
    let s1 = patched(s, base + m.pos * d, key);
    let s2 = patched(s1, base + m.pos * d + reg, value);
    assert((m.pos + 1) * d == m.pos * d + d) by (nonlinear_arith);
    assert((m.pos + 1) * d <= reg && 0 <= m.pos * d) by (nonlinear_arith)
        requires
            0 <= m.pos,
            m.pos + 1 <= x.p.max_seq_len,
            0 <= d,
            reg == x.p.max_seq_len * d,
    ;
    assert(0 <= base) by {
        if layer == 0 {
            assert(layer * x.p.max_seq_len * d * 2 == 0) by (nonlinear_arith)
                requires
                    layer == 0,
            ;
        } else {
            lemma_layers_apart(x.p, 0, layer);
            lemma_base_zero(x.p);
        }
    }
    let old_k = kv.k[layer as int];
    let old_v = kv.v[layer as int];
    lemma_extended(s, base, old_k, key, reg);
    lemma_region_kept(s1, base, (m.pos * d + d) as nat, base + m.pos * d + reg, value);
    assert(s2.subrange(base, base + (m.pos + 1) * d) == old_k + key);
    lemma_region_kept(s, base + reg, (m.pos * d) as nat, base + m.pos * d, key);
    lemma_extended(s1, base + reg, old_v, value, reg);
    assert(base + reg + m.pos * d == base + m.pos * d + reg);
    assert(s2.subrange(base + reg, base + reg + (m.pos + 1) * d) == old_v + value);
    assert forall|l: usize|
        #![trigger layer_base(x.p, l)]
        l < x.g.n_layers implies {
        let at = layer_base(x.p, l);
        &&& at + 2 * reg <= s2.len()
        &&& kv2.k[l as int].len() <= reg && kv2.v[l as int].len() <= reg
        &&& s2.subrange(at, at + kv2.k[l as int].len()) == kv2.k[l as int]
        &&& s2.subrange(at + reg, at + reg + kv2.v[l as int].len()) == kv2.v[l as int]
    } by {
        let at = layer_base(x.p, l);
        if l != layer {
            if l < layer {
                lemma_layers_apart(x.p, l, layer);
            } else {
                lemma_layers_apart(x.p, layer, l);
            }
            let nk = kv.k[l as int].len();
            let nv = kv.v[l as int].len();
            lemma_region_kept(s, at, nk, base + m.pos * d, key);
            lemma_region_kept(s1, at, nk, base + m.pos * d + reg, value);
            lemma_region_kept(s, at + reg, nv, base + m.pos * d, key);
            lemma_region_kept(s1, at + reg, nv, base + m.pos * d + reg, value);
        }
    }
}

/// The first layer starts at the beginning.
proof fn lemma_base_zero(p: PlanV)
    ensures
        layer_base(p, 0) == 0,
{
    let s = p.max_seq_len as int;
    let d = p.kv_dim as int;
    assert(0 * s * d * 2 == 0) by (nonlinear_arith);
}

/// What the graph and the interpreter say of a node that attends.
pub proof fn lemma_attention_facts(
    x: Deployed,
    kv0: KvV,
    m: Machine,
    k: int,
    vals: Seq<ArrayV>,
    kv: KvV,
    layer: usize,
)
    requires
        faces(x, kv0, m, k, vals, kv),
        x.g.nodes[k].op matches Op::Attention { layer: l, .. } && l == layer,
    ensures
        layer < x.g.n_layers,
        kv.k[layer as int].len() == x.c.pos * x.p.kv_dim,
        kv.v[layer as int].len() == x.c.pos * x.p.kv_dim,
{
    lemma_given(x, kv0, m, k, vals, kv);
    let n = x.g.nodes[k];
    lemma_cache_so_far(x.c, x.g, kv0, k as nat);
    let l = layer as int;
    assert(crate::graph::builder::attends(n, l));
    lemma_added_once(x.g.nodes, vals, x.c.model.hyperparams.n_layers as nat, k, l, k as nat, 1);
    lemma_added_once(x.g.nodes, vals, x.c.model.hyperparams.n_layers as nat, k, l, k as nat, 2);
    assert(kv.k[l] == kv0.k[l] + Seq::<u32>::empty());
    assert(kv.v[l] == kv0.v[l] + Seq::<u32>::empty());
    assert(kv0.k[l].len() == kv0.len * kv0.kv_dim);
    assert(kv0.v[l].len() == kv0.len * kv0.kv_dim);
}

#[verifier::rlimit(40)]
proof fn lemma_node_attention(
    x: Deployed,
    kv0: KvV,
    m: Machine,
    k: int,
    vals: Seq<ArrayV>,
    kv: KvV,
    layer: usize,
    n_heads: u64,
    n_kv_heads: u64,
    head_dim: u64,
)
    requires
        stands(x, kv0, m, k, vals, kv),
        x.g.nodes[k].op == (Op::Attention { layer, n_heads, n_kv_heads, head_dim }),
    ensures
        holds(
            x,
            run_all(x, node_steps(x.p, x.g, k as nat), m),
            k + 1,
            vals.push(given(x, k, vals, kv)),
            cache_after(kv, vals, x.g.nodes[k]),
        ),
{
    lemma_faces(x, kv0, m, k, vals, kv);
    lemma_given(x, kv0, m, k, vals, kv);
    lemma_attention_facts(x, kv0, m, k, vals, kv, layer);
    let n = x.g.nodes[k];
    let out = (k + 1) as usize;
    lemma_input_row(x, kv0, m, k, vals, kv, 0);
    lemma_input_row(x, kv0, m, k, vals, kv, 1);
    lemma_input_row(x, kv0, m, k, vals, kv, 2);
    let (q, kk, vv) = (n.inputs[0], n.inputs[1], n.inputs[2]);
    let w = width(n);
    crate::graph::interp::lemma_heads_fit(
        w as int,
        n_heads as int,
        n_kv_heads as int,
        head_dim as int,
    );
    let (nh, nkv, hd) = (n_heads as usize, n_kv_heads as usize, head_dim as usize);
    assert(nh == n_heads && nkv == n_kv_heads && hd == head_dim);
    let st = StepV::Attention {
        q,
        k: kk,
        v: vv,
        layer,
        n_heads: nh,
        n_kv_heads: nkv,
        head_dim: hd,
        out,
    };
    assert(node_steps(x.p, x.g, k as nat) == seq![st]);
    lemma_run_one(x, st, m);
    assert(x.p.kv_dim == n_kv_heads * head_dim);
    assert(cache_counts(x.p, layer));
    assert(layer_base(x.p, layer) + 2 * region(x.p) <= m.mem[Buf::Kv].len());

    let append = append_stmt(x.p, x.g, kk, vv, layer);
    let m1 = step(append, m, x.u);
    law_append_code(x.p, x.g, kk, vv, layer, m, x.u);
    let key = vals[kk - 1].data;
    let value = vals[vv - 1].data;
    let kv2 = cache_after(kv, vals, n);
    lemma_cache_appended(x, m, m1, layer, kv, kv2, key, value);
    assert(holds(x, m1, k, vals, kv2)) by {
        assert(m1.mem[Buf::Arena] == m.mem[Buf::Arena]);
        lemma_equipped(x, m, m1);
        assert forall|j: usize|
            1 <= j <= k && #[trigger] needed(x.g, j as int, k) implies held(x, m1, j) == vals[j
            - 1].data by {
            assert(held(x, m1, j) == held(x, m, j));
        }
    }
    let attend = attend_stmt(x.p, x.g, q, layer, nh, nkv, hd, out);
    let m2 = step(attend, m1, x.u);
    assert(held(x, m1, q) == vals[q - 1].data);
    let t = given(x, k, vals, kv);
    assert(computed(x.p, m2, m1, place(x.p, x.g, out, x.row), t.data)) by {
        reveal(node_value);
        let a = Attended {
            q: held(x, m1, q),
            k: seen(x, m1, layer_base(x.p, layer)),
            v: seen(x, m1, layer_base(x.p, layer) + region(x.p)),
            n_heads: nh as int,
            n_kv_heads: nkv as int,
            head_dim: hd as int,
            pos_off: m1.pos,
        };
        assert(a == crate::graph::interp::attended(x.c, vals, kv2, n));
        assert(vals[q - 1].shape[0] == 1) by {
            assert(crate::graph::interp::value_sound(vals[q - 1], x.g.nodes.take(k)[q - 1], 1));
        }
        assert(t == attention_of(x.c.math, a, 1));
    }
    assert(run(step_code(x.p, x.g, st, Code::End), m, x.u) == m2) by {
        let rest = then(attend, Code::End);
        assert(run(then(append, rest), m, x.u) == run(rest, m1, x.u));
        assert(run(rest, m1, x.u) == run(Code::End, m2, x.u));
        assert(run(Code::End, m2, x.u) == m2);
    }
    lemma_advanced(x, m1, m2, k, vals, kv2, t);
}

/// One node more.
proof fn lemma_node(x: Deployed, kv0: KvV, m: Machine, k: int, vals: Seq<ArrayV>, kv: KvV)
    requires
        stands(x, kv0, m, k, vals, kv),
    ensures
        holds(
            x,
            run_all(x, node_steps(x.p, x.g, k as nat), m),
            k + 1,
            vals.push(given(x, k, vals, kv)),
            cache_after(kv, vals, x.g.nodes[k]),
        ),
{
    match x.g.nodes[k].op {
        Op::MatMul { weight, bias } => {
            let b = match bias {
                Some(t) => Some(t.0),
                None => None,
            };
            lemma_node_product(x, kv0, m, k, vals, kv, weight.0, b);
        },
        Op::Attention { layer, n_heads, n_kv_heads, head_dim } => {
            lemma_node_attention(
                x,
                kv0,
                m,
                k,
                vals,
                kv,
                layer,
                n_heads,
                n_kv_heads,
                head_dim,
            );
        },
        _ => {
            lemma_faces(x, kv0, m, k, vals, kv);
            lemma_given(x, kv0, m, k, vals, kv);
            let st = lemma_plain(x, kv0, m, k, vals, kv);
            lemma_run_one(x, st, m);
            let r = run(step_code(x.p, x.g, st, Code::End), m, x.u);
            lemma_advanced(x, m, r, k, vals, kv, given(x, k, vals, kv));
        },
    }
}

/// The steps of the first `k` nodes take the machine where the interpreter is.
proof fn lemma_nodes(x: Deployed, kv0: KvV, m: Machine, k: nat)
    requires
        deployed(x, kv0),
        holds(x, m, 0, Seq::empty(), kv0),
        k <= x.g.nodes.len(),
    ensures
        run_to(x.c, x.g, kv0, k).0 is Ok,
        holds(
            x,
            run_all(x, nodes_steps(x.p, x.g, 0, k), m),
            k as int,
            run_to(x.c, x.g, kv0, k).0->Ok_0,
            run_to(x.c, x.g, kv0, k).1,
        ),
    decreases k,
{
    lemma_ready(x.c, x.g, kv0, k);
    if k > 0 {
        let j = (k - 1) as nat;
        lemma_nodes(x, kv0, m, j);
        let (v, kv) = run_to(x.c, x.g, kv0, j);
        let vals = v->Ok_0;
        let before = run_all(x, nodes_steps(x.p, x.g, 0, j), m);
        assert(stands(x, kv0, before, j as int, vals, kv));
        lemma_faces(x, kv0, before, j as int, vals, kv);
        lemma_given(x, kv0, before, j as int, vals, kv);
        lemma_node(x, kv0, before, j as int, vals, kv);
        lemma_run_more(
            x,
            nodes_steps(x.p, x.g, 0, j),
            node_steps(x.p, x.g, j),
            m,
        );
    }
}

/// The code of steps runs them.
proof fn lemma_steps_run(
    x: Deployed,
    slots: Option<Seq<Seq<char>>>,
    steps: Seq<StepV>,
    j: nat,
    rest: Code,
    m: Machine,
)
    requires
        j <= steps.len(),
    ensures
        run(
            steps_code(x.p, x.g, x.c.model, slots, steps, j, rest),
            run_all(x, steps.take(j as int), m),
            x.u,
        ) == run(rest, run_all(x, steps, m), x.u),
    decreases steps.len() - j,
{
    let at = run_all(x, steps.take(j as int), m);
    if j == steps.len() {
        assert(steps.take(j as int) =~= steps);
    } else {
        let st = steps[j as int];
        let body = step_code(x.p, x.g, st, Code::End);
        let label = label_of(st, x.p, x.c.model);
        let more = steps_code(x.p, x.g, x.c.model, slots, steps, j + 1, rest);
        let s = Stmt::Timed {
            slot: crate::codegen::lower::slot_of(slots, label),
            body: Box::new(body),
        };
        let next = run(body, at, x.u);
        assert(step(s, at, x.u) == next);
        assert(timed(slots, label, body, more) == then(s, more));
        assert(run(then(s, more), at, x.u) == run(more, next, x.u));
        assert(steps.take((j + 1) as int).drop_last() =~= steps.take(j as int));
        assert(steps.take((j + 1) as int).last() == st);
        assert(run_all(x, steps.take((j + 1) as int), m) == next);
        lemma_steps_run(x, slots, steps, j + 1, rest, m);
    }
}

/// Nodes that follow nodes.
pub proof fn lemma_nodes_join(p: PlanV, g: GraphV, a: nat, b: nat)
    requires
        a <= b,
    ensures
        nodes_steps(p, g, 0, a) + nodes_steps(p, g, a, b) == nodes_steps(p, g, 0, b),
    decreases b,
{
    if a == b {
        assert(nodes_steps(p, g, 0, a) + Seq::<StepV>::empty() =~= nodes_steps(p, g, 0, a));
    } else {
        let c = (b - 1) as nat;
        lemma_nodes_join(p, g, a, c);
        assert(nodes_steps(p, g, 0, a) + (nodes_steps(p, g, a, c) + node_steps(p, g, c))
            =~= nodes_steps(p, g, 0, a) + nodes_steps(p, g, a, c) + node_steps(p, g, c));
    }
}

/// Where the nodes of island `i` start: where those of the one before end.
pub open spec fn reached(p: PlanV, i: int) -> nat {
    if i <= 0 {
        0
    } else {
        p.islands[i - 1].end as nat
    }
}

/// Whether the islands take all nodes of a graph, in order.
pub open spec fn in_sequence(p: PlanV, g: GraphV) -> bool {
    &&& forall|i: int|
        0 <= i < p.islands.len() ==> (#[trigger] p.islands[i]).first == reached(p, i)
            && p.islands[i].first <= p.islands[i].end
    &&& reached(p, p.islands.len() as int) == g.nodes.len()
}

/// The code of the islands runs the steps of their nodes.
proof fn lemma_body_run(
    x: Deployed,
    slots: Option<Seq<Seq<char>>>,
    i: nat,
    rest: Code,
    m: Machine,
)
    requires
        in_sequence(x.p, x.g),
        i <= x.p.islands.len(),
    ensures
        run(
            body_code(x.p, x.g, x.c.model, slots, program(x.p, x.g), i, rest),
            run_all(x, nodes_steps(x.p, x.g, 0, reached(x.p, i as int)), m),
            x.u,
        ) == run(rest, run_all(x, nodes_steps(x.p, x.g, 0, x.g.nodes.len()), m), x.u),
    decreases x.p.islands.len() - i,
{
    let c = program(x.p, x.g);
    if i < x.p.islands.len() {
        let isl = x.p.islands[i as int];
        let (a, b) = (isl.first as nat, isl.end as nat);
        let steps = nodes_steps(x.p, x.g, a, b);
        assert(c[i as int].steps == steps);
        let more = body_code(x.p, x.g, x.c.model, slots, c, i + 1, rest);
        let at = run_all(x, nodes_steps(x.p, x.g, 0, a), m);
        lemma_steps_run(x, slots, steps, 0, more, at);
        assert(steps.take(0) =~= Seq::<StepV>::empty());
        assert(run_all(x, steps.take(0), at) == at);
        lemma_nodes_join(x.p, x.g, a, b);
        lemma_run_more(x, nodes_steps(x.p, x.g, 0, a), steps, m);
        lemma_body_run(x, slots, i + 1, rest, m);
    }
}

/// The code for one token does what the interpreter does: it leaves the interpreter's
/// logits behind, bit for bit, and in the cache what the interpreter's cache holds;
/// with profiler slots or without. The plan must give every value a place of its own
/// as long as it is needed, and the kernels must multiply and attend as the scalar
/// operations do.
#[verifier::spinoff_prover]
#[verifier::rlimit(40)]
pub proof fn law_decode_is_the_interpreter(
    x: Deployed,
    slots: Option<Seq<Seq<char>>>,
    kv: KvV,
    m: Machine,
)
    requires
        deployed(x, kv),
        in_sequence(x.p, x.g),
        holds(x, m, 0, Seq::empty(), kv),
        x.row == 0,
        x.c.pos + 1 <= kv.max_seq_len,
    ensures
        ({
            let r = run(
                decode_code(x.p, x.g, x.c.model, slots, program(x.p, x.g)),
                m,
                x.u,
            );
            let want = run_of(x.c, x.g, kv);
            &&& want.0 is Ok
            &&& r.mem[Buf::Logits] == want.0->Ok_0.data
            &&& holds(x, r, 0, Seq::empty(), want.1)
        }),
{
    let total = x.g.nodes.len();
    lemma_nodes(x, kv, m, total);
    let (v, kv1) = run_to(x.c, x.g, kv, total);
    let vals = v->Ok_0;
    let done = run_all(x, nodes_steps(x.p, x.g, 0, total), m);
    let last = logits_stmt(x.p, x.g, Int::Const(0));
    let rest = then(last, Code::End);
    lemma_body_run(x, slots, 0, rest, m);
    assert(nodes_steps(x.p, x.g, 0, 0) =~= Seq::<StepV>::empty());
    assert(run_all(x, nodes_steps(x.p, x.g, 0, 0), m) == m);
    let r = step(last, done, x.u);
    assert(run(rest, done, x.u) == r) by {
        reveal_with_fuel(run, 2);
    }
    let out = x.g.output;
    lemma_widths(x, out);
    lemma_room(x.p, x.g, x.c.model, x.rows, out, 0);
    law_logits_code(x.p, x.g, Int::Const(0), done, x.u);
    assert(needed(x.g, out as int, total as int));
    let row = held(x, done, out);
    assert(row == vals[out - 1].data);
    let n = row_len(x.g, out);
    let at = place(x.p, x.g, out, x.row);
    assert(int_of(Int::Const(0), done) == 0);
    let copy = Seq::new(n, |i: int| done.mem[Buf::Arena][at + i]);
    assert(copy =~= row);
    assert(patched(done.mem[Buf::Logits], 0, copy) =~= copy);
    assert(r.mem[Buf::Logits] == vals[out - 1].data);
    let kept = run_of(x.c, x.g, kv).1;
    assert(caches(x, r, kept)) by {
        assert(r.mem[Buf::Kv] == done.mem[Buf::Kv] && r.mem.contains_key(Buf::Kv));
        assert(kept.k == kv1.k && kept.v == kv1.v);
        assert(caches(x, done, kv1));
        assert forall|l: usize|
            #![trigger layer_base(x.p, l)]
            l < x.g.n_layers implies {
            let at = layer_base(x.p, l);
            let s = r.mem[Buf::Kv];
            &&& at + 2 * region(x.p) <= s.len()
            &&& kept.k[l as int].len() <= region(x.p) && kept.v[l as int].len() <= region(x.p)
            &&& s.subrange(at, at + kept.k[l as int].len()) == kept.k[l as int]
            &&& s.subrange(at + region(x.p), at + region(x.p) + kept.v[l as int].len())
                == kept.v[l as int]
        } by {}
    }
    lemma_equipped(x, done, r);
}

} // verus!
