//! Emitted code for a prompt against the interpreter: where the kernels multiply and
//! attend as the scalar operations do, the batched code leaves the interpreter's
//! logits of the last token and the interpreter's cache behind, bit for bit, however
//! long the tiles are.

use vstd::prelude::*;

use crate::codegen::code::{
    at_row, in_turn, int_of, iterate, orderly, patched, run, span, step, trips, Buf, Code, Int,
    Machine, Stmt, Units,
};
use crate::codegen::emit::arena_len;
use crate::codegen::loopir::{gemv_name, node_steps, nodes_steps, program, StepV};
use crate::codegen::lower::{
    append_stmt, bias_stmt, cache_counts, gemm_code, layer_base, logits_stmt, placed,
    prefill_code, product_ok, region, row_len, slot_of, source_of, step_code, then,
    tile_attention_stmt, tile_code, tile_count, tile_first, tile_step_code, tile_steps_code,
    timed, TILE,
};
use crate::codegen::meaning::{
    law_append_code, law_bias_code, law_logits_code, place, row_of, same_frame,
};
use crate::codegen::plan::{weight_at, PlanV};
use crate::codegen::profile::{label_of, KV_APPEND_LABEL};
use crate::codegen::tokens::{law_tiles_cover_the_prompt, tiled};
use crate::codegen::vars::{
    lemma_append_spares, lemma_spared, lemma_step_spares, spares, spares_in,
};
use crate::codegen::whole::{
    arranged, caches, clear_of, computed, dots, equipped, faces, fed, given, held, in_sequence,
    is_plain, lemma_cache_appended, lemma_computed, lemma_equipped, lemma_given, lemma_input_row,
    lemma_nodes_join, lemma_one_row, lemma_plain, lemma_product_facts, lemma_room, lemma_row_kept,
    lemma_row_written, lemma_widths, needed, poised, reached, readable, Deployed,
};
use crate::float::single::sum;
use crate::formats::desc::DTypeV;
use crate::graph::builder::{attends, layer_attends, layers_ascend};
use crate::graph::interp::{
    arg_of, cache_after, node_value, run_of, run_to, weight_of, Feed, KvV,
};
use crate::graph::ir::{GraphV, Op};
use crate::graph::ops::{attention_of, ArrayV, Attended};
use crate::graph::split::{
    first_feed, kv_exact, law_prefill_then_decode, lemma_added_once, lemma_cache_so_far,
    lemma_ready, lemma_values_prefix, run_ready, second_feed, tail_of,
};

verus! {

/// A prompt that is run: what the interpreter is fed, the graph, the plan, the
/// machine's functions, and the cache before.
#[verifier::ext_equal]
pub struct Prompt {
    pub c: Feed,
    pub g: GraphV,
    pub p: PlanV,
    pub u: Units,
    pub kv: KvV,
}

impl Prompt {
    /// How many tokens there are.
    pub open spec fn len(self) -> int {
        self.c.tokens.len() as int
    }

    /// What the interpreter is fed for token `i` alone.
    pub open spec fn feed(self, i: int) -> Feed {
        second_feed(first_feed(self.c, (i + 1) as nat), i as nat)
    }

    /// The cache when `i` tokens have run.
    pub open spec fn after(self, i: int) -> KvV {
        run_of(first_feed(self.c, i as nat), self.g, self.kv).1
    }

    /// Token `i` in its row.
    pub open spec fn token(self, i: int) -> Deployed {
        Deployed {
            c: self.feed(i),
            g: self.g,
            p: self.p,
            u: self.u,
            row: i,
            rows: self.len(),
        }
    }

    /// The values of token `i` when `k` nodes have run, and the cache then.
    pub open spec fn vals(self, i: int, k: int) -> Seq<ArrayV> {
        run_to(self.feed(i), self.g, self.after(i), k as nat).0->Ok_0
    }

    pub open spec fn kept(self, i: int, k: int) -> KvV {
        run_to(self.feed(i), self.g, self.after(i), k as nat).1
    }
}

/// Whether the interpreter gets through a prompt, and the plan fits it.
pub open spec fn asked(q: Prompt) -> bool {
    &&& run_ready(q.c, q.g, q.kv)
    &&& q.c.tokens.len() > 0
    &&& run_of(q.c, q.g, q.kv).0 is Ok
    &&& q.c.math == q.u.math
    &&& orderly(q.u)
    &&& q.c.pos + q.len() <= q.p.max_seq_len
    &&& arranged(q.p, q.g, q.c.model, q.len())
}

/// Each token of a prompt is run where the ones before it have left the cache.
proof fn lemma_token_fed(q: Prompt, i: int)
    requires
        asked(q),
        0 <= i < q.len(),
    ensures
        fed(q.token(i), q.after(i)),
        run_of(q.feed(i), q.g, q.after(i)).0 is Ok,
        run_of(q.feed(i), q.g, q.after(i)).1 == q.after(i + 1),
        q.feed(i).tokens == seq![q.c.tokens[i]],
        q.after(i).len == q.c.pos + i,
        kv_exact(q.after(i), q.g),
        kv_exact(q.after(i + 1), q.g),
{
    let n = (i + 1) as nat;
    law_prefill_then_decode(q.c, q.g, q.kv, n);
    let c1 = first_feed(q.c, n);
    assert(c1.tokens.len() == n);
    assert(n * crate::graph::builder::MAX_DIM <= q.c.tokens.len()
        * crate::graph::builder::MAX_DIM) by (nonlinear_arith)
        requires
            n <= q.c.tokens.len(),
    ;
    assert(run_ready(c1, q.g, q.kv));
    law_prefill_then_decode(c1, q.g, q.kv, i as nat);
    assert(c1.tokens.take(i) =~= q.c.tokens.take(i));
    assert(first_feed(c1, i as nat) == first_feed(q.c, i as nat));
    assert(q.feed(i).tokens =~= seq![q.c.tokens[i]]);
    assert(1 * crate::graph::builder::MAX_DIM <= usize::MAX);
}

/// A token's values when one more node has run.
proof fn lemma_token_vals(q: Prompt, i: int, k: int)
    requires
        asked(q),
        0 <= i < q.len(),
        0 <= k <= q.g.nodes.len(),
    ensures
        run_to(q.feed(i), q.g, q.after(i), k as nat) == (
            Ok::<Seq<ArrayV>, crate::graph::error::GraphFault>(q.vals(i, k)),
            q.kept(i, k),
        ),
        q.vals(i, k).len() == k,
        forall|j: int|
            0 <= j < k ==> #[trigger] q.vals(i, k)[j] == q.vals(i, q.g.nodes.len() as int)[j],
{
    lemma_token_fed(q, i);
    let x = q.token(i);
    lemma_ready(x.c, q.g, q.after(i), k as nat);
    assert forall|j: int| 0 <= j < k implies #[trigger] q.vals(i, k)[j] == q.vals(
        i,
        q.g.nodes.len() as int,
    )[j] by {
        lemma_values_prefix(x.c, q.g, q.after(i), k as nat, q.g.nodes.len(), j);
    }
}

/// What a machine has throughout a prompt: the tokens, the constants, and room.
pub open spec fn steady(q: Prompt, m: Machine) -> bool {
    &&& m.tokens == q.c.tokens
    &&& m.pos_off == q.c.pos
    &&& m.args.len() >= 2 && m.args[0] == q.len() && m.args[1] == q.c.pos
    &&& m.mem.contains_key(Buf::Arena)
    &&& arena_len(q.p) <= m.mem[Buf::Arena].len()
    &&& m.mem.contains_key(Buf::Cell(0))
    &&& m.mem[Buf::Cell(0)].len() == 1
    &&& m.mem.contains_key(Buf::Logits)
    &&& m.mem[Buf::Logits].len() == q.c.model.hyperparams.vocab_size
    &&& equipped(q.token(0), m)
}

/// What rows are to hold: which values, and what.
#[verifier::ext_equal]
pub struct Wants {
    pub on: spec_fn(usize) -> bool,
    pub data: spec_fn(int, usize) -> Seq<u32>,
}

/// Whether row `i` holds it.
pub open spec fn row_has(q: Prompt, m: Machine, w: Wants, i: int) -> bool {
    forall|j: usize|
        1 <= j <= q.g.nodes.len() && #[trigger] (w.on)(j) ==> held(q.token(i), m, j) == (w.data)(
            i,
            j,
        )
}

/// Whether rows `a` up to `b` hold it.
pub open spec fn rows_have(q: Prompt, m: Machine, w: Wants, a: int, b: int) -> bool {
    forall|i: int| a <= i < b ==> #[trigger] row_has(q, m, w, i)
}

/// Whether writing value `out` row by row takes rows from `w` to `v`, with `t` as what
/// is written: no row that is still wanted is written over.
pub open spec fn turns_into(
    q: Prompt,
    w: Wants,
    v: Wants,
    out: usize,
    t: spec_fn(int) -> Seq<u32>,
) -> bool {
    &&& 1 <= out <= q.g.nodes.len()
    &&& forall|i: int| 0 <= i < q.len() ==> (#[trigger] t(i)).len() == row_len(q.g, out)
    &&& forall|i: int| 0 <= i < q.len() ==> #[trigger] (v.data)(i, out) == t(i)
    &&& forall|j: usize|
        1 <= j <= q.g.nodes.len() && j != out && #[trigger] (v.on)(j) ==> (w.on)(j)
    &&& forall|i: int, j: usize|
        0 <= i < q.len() && 1 <= j <= q.g.nodes.len() && j != out && (v.on)(j)
            ==> #[trigger] (v.data)(i, j) == (w.data)(i, j)
    &&& forall|j: usize, r: int, s: int|
        1 <= j <= q.g.nodes.len() && j != out && (w.on)(j) && 0 <= r < q.len() && 0 <= s < q.len()
            && (r != s || (v.on)(j)) ==> #[trigger] clear_of(q.p, q.g, j, r, out, s)
}

/// Two rows of one value do not overlap.
proof fn lemma_rows_apart(p: PlanV, g: GraphV, v: usize, r: int, s: int)
    requires
        r != s,
    ensures
        clear_of(p, g, v, r, v, s),
{
    let w = row_len(g, v) as int;
    if r < s {
        assert((r + 1) * w <= s * w) by (nonlinear_arith)
            requires
                r + 1 <= s,
                w >= 0,
        ;
        assert((r + 1) * w == r * w + w) by (nonlinear_arith);
    } else {
        assert((s + 1) * w <= r * w) by (nonlinear_arith)
            requires
                s + 1 <= r,
                w >= 0,
        ;
        assert((s + 1) * w == s * w + w) by (nonlinear_arith);
    }
}

/// Writing row `s` of a value leaves the other rows as they are, and gives row `s`
/// what it is to hold.
proof fn lemma_row_turned(
    q: Prompt,
    r: Machine,
    m: Machine,
    w: Wants,
    v: Wants,
    out: usize,
    t: spec_fn(int) -> Seq<u32>,
    s: int,
    i: int,
)
    requires
        asked(q),
        turns_into(q, w, v, out, t),
        0 <= s < q.len(),
        0 <= i < q.len(),
        arena_len(q.p) <= m.mem[Buf::Arena].len(),
        computed(q.p, r, m, place(q.p, q.g, out, s), t(s)),
    ensures
        i == s && row_has(q, m, w, i) ==> row_has(q, r, v, i),
        i != s && row_has(q, m, w, i) ==> row_has(q, r, w, i),
        i != s && row_has(q, m, v, i) ==> row_has(q, r, v, i),
{
    let x = q.token(i);
    assert forall|j: usize| 1 <= j <= q.g.nodes.len() implies {
        &&& (i != s && (w.on)(j) ==> held(x, r, j) == held(x, m, j))
        &&& (i != s && (v.on)(j) ==> held(x, r, j) == held(x, m, j))
        &&& (i == s && (v.on)(j) && j != out ==> held(x, r, j) == held(x, m, j))
    } by {
        lemma_room(q.p, q.g, q.c.model, q.len(), j, i);
        if j == out {
            if i != s {
                lemma_rows_apart(q.p, q.g, out, i, s);
                lemma_row_kept(x, r, m, out, s, t(s), j);
            }
        } else if (w.on)(j) && (i != s || (v.on)(j)) {
            assert(clear_of(q.p, q.g, j, i, out, s));
            lemma_row_kept(x, r, m, out, s, t(s), j);
        }
    }
    if i == s {
        lemma_room(q.p, q.g, q.c.model, q.len(), out, i);
        lemma_row_written(x, r, m, out, t(s));
    }
}

/// Whether a body, run for a token of rows `a` up to `b` whose row holds what `w` says,
/// writes `t` into the token's row of value `out`.
pub open spec fn works_on(
    q: Prompt,
    body: Code,
    w: Wants,
    out: usize,
    t: spec_fn(int) -> Seq<u32>,
    a: int,
    b: int,
) -> bool {
    forall|m: Machine, i: int|
        #![trigger run(body, at_row(m, i), q.u)]
        a <= i < b && steady(q, m) && row_has(q, m, w, i) ==> computed(
            q.p,
            run(body, at_row(m, i), q.u),
            at_row(m, i),
            place(q.p, q.g, out, i),
            t(i),
        )
}

/// Whether nothing has changed but the arena and the cell; names and variables aside.
pub open spec fn only_values(r: Machine, m: Machine) -> bool {
    &&& same_frame(r, m)
    &&& forall|b: Buf|
        b != Buf::Arena && b != Buf::Cell(0) ==> #[trigger] r.mem[b] == m.mem[b]
            && r.mem.contains_key(b) == m.mem.contains_key(b)
}

/// A loop over tokens takes their rows from what they hold to what they are to hold, in
/// whatever order they come.
proof fn lemma_token_loop(
    q: Prompt,
    body: Code,
    w: Wants,
    v: Wants,
    out: usize,
    t: spec_fn(int) -> Seq<u32>,
    m: Machine,
    a: int,
    b: int,
    rows: Seq<int>,
)
    requires
        asked(q),
        turns_into(q, w, v, out, t),
        works_on(q, body, w, out, t, a, b),
        steady(q, m),
        0 <= a <= b <= q.len(),
        rows.no_duplicates(),
        forall|i: int| rows.contains(i) ==> a <= i < b,
        rows_have(q, m, w, a, b),
    ensures
        ({
            let r = in_turn(body, rows, m, q.u);
            &&& only_values(r, m)
            &&& steady(q, r)
            &&& forall|i: int| a <= i < b && rows.contains(i) ==> #[trigger] row_has(q, r, v, i)
            &&& forall|i: int| a <= i < b && !rows.contains(i) ==> #[trigger] row_has(q, r, w, i)
        }),
    decreases rows.len(),
{
    if rows.len() > 0 {
        let prior = rows.drop_last();
        let s = rows.last();
        assert(rows[rows.len() - 1] == s);
        assert(rows.contains(s));
        assert forall|i: int| rows.contains(i) <==> (prior.contains(i) || i == s) by {
            if rows.contains(i) {
                let k = choose|k: int| 0 <= k < rows.len() && rows[k] == i;
                if k < prior.len() {
                    assert(prior[k] == i);
                }
            }
            if prior.contains(i) {
                let k = choose|k: int| 0 <= k < prior.len() && prior[k] == i;
                assert(rows[k] == i);
            }
        }
        assert(!prior.contains(s));
        lemma_token_loop(q, body, w, v, out, t, m, a, b, prior);
        let before = in_turn(body, prior, m, q.u);
        assert(row_has(q, before, w, s));
        let at = at_row(before, s);
        let after = run(body, at, q.u);
        assert(computed(q.p, after, at, place(q.p, q.g, out, s), t(s)));
        let r = in_turn(body, rows, m, q.u);
        assert(r == Machine { row: m.row, pos: m.pos, token: m.token, ..after });
        lemma_equipped(q.token(0), before, r);
        assert forall|i: int| a <= i < b && rows.contains(i) implies #[trigger] row_has(
            q,
            r,
            v,
            i,
        ) by {
            lemma_row_turned(q, after, at, w, v, out, t, s, i);
            if i == s {
                assert(row_has(q, at, w, i));
            } else {
                assert(row_has(q, before, v, i));
                assert(row_has(q, at, v, i));
            }
            assert(row_has(q, after, v, i));
        }
        assert forall|i: int| a <= i < b && !rows.contains(i) implies #[trigger] row_has(
            q,
            r,
            w,
            i,
        ) by {
            lemma_row_turned(q, after, at, w, v, out, t, s, i);
            assert(row_has(q, before, w, i));
            assert(row_has(q, at, w, i));
            assert(row_has(q, after, w, i));
        }
        assert forall|c: Buf| c != Buf::Arena && c != Buf::Cell(0) implies #[trigger] r.mem[c]
            == m.mem[c] && r.mem.contains_key(c) == m.mem.contains_key(c) by {
            assert(after.mem[c] == at.mem[c]);
            assert(before.mem[c] == m.mem[c]);
        }
        assert(r.mem[Buf::Logits] == m.mem[Buf::Logits]);
    }
}

/// What rows hold when `k` nodes have run: every value that is still needed.
pub open spec fn wants(q: Prompt, k: int) -> Wants {
    Wants {
        on: |j: usize| j <= k && needed(q.g, j as int, k),
        data: |i: int, j: usize| q.vals(i, k)[j - 1].data,
    }
}

/// The cache while rows `a` up to `b` are run and `k` nodes are done: the layers that
/// have attended hold all of these rows, the others none.
pub open spec fn between(q: Prompt, a: int, b: int, k: int) -> KvV {
    KvV {
        k: Seq::new(
            q.g.n_layers as nat,
            |l: int|
                if layer_attends(q.g.nodes.take(k), l) {
                    q.after(b).k[l]
                } else {
                    q.after(a).k[l]
                },
        ),
        v: Seq::new(
            q.g.n_layers as nat,
            |l: int|
                if layer_attends(q.g.nodes.take(k), l) {
                    q.after(b).v[l]
                } else {
                    q.after(a).v[l]
                },
        ),
        ..q.kv
    }
}

/// Whether the machine is where the interpreter is when rows `a` up to `b` have run `k`
/// nodes.
pub open spec fn tile_holds(q: Prompt, m: Machine, a: int, b: int, k: int) -> bool {
    &&& steady(q, m)
    &&& m.vars[TILE] == a
    &&& b == a + int_of(tile_count(q.p), m)
    &&& 0 <= a < b <= q.len()
    &&& rows_have(q, m, wants(q, k), a, b)
    &&& caches(q.token(0), m, between(q, a, b, k))
}

/// A token's value has its node's width, and the next values are the ones before and
/// what the next node gives.
proof fn lemma_next(q: Prompt, i: int, k: int)
    requires
        asked(q),
        0 <= i < q.len(),
        0 <= k < q.g.nodes.len(),
    ensures
        q.vals(i, k + 1)[k].data.len() == row_len(q.g, (k + 1) as usize),
        forall|j: int| 0 <= j < k ==> #[trigger] q.vals(i, k + 1)[j] == q.vals(i, k)[j],
{
    lemma_token_fed(q, i);
    lemma_token_vals(q, i, k);
    lemma_token_vals(q, i, k + 1);
    let x = q.token(i);
    lemma_ready(x.c, q.g, q.after(i), (k + 1) as nat);
    lemma_widths(x, (k + 1) as usize);
    let t = q.vals(i, k + 1)[k];
    assert(crate::graph::interp::value_sound(t, q.g.nodes.take(k + 1)[k], 1));
}

/// What writing the value of a node does to what rows hold.
proof fn lemma_turns(q: Prompt, k: int)
    requires
        asked(q),
        0 <= k < q.g.nodes.len(),
    ensures
        turns_into(
            q,
            wants(q, k),
            wants(q, k + 1),
            (k + 1) as usize,
            |i: int| q.vals(i, k + 1)[k].data,
        ),
        q.g.nodes.len() <= usize::MAX,
{
    let out = (k + 1) as usize;
    let t = |i: int| q.vals(i, k + 1)[k].data;
    let w = wants(q, k);
    let v = wants(q, k + 1);
    assert(q.g.nodes.len() <= usize::MAX);
    assert forall|i: int| 0 <= i < q.len() implies (#[trigger] t(i)).len() == row_len(q.g, out) by {
        lemma_next(q, i, k);
    }
    assert forall|j: usize| j != out && #[trigger] (v.on)(j) implies (w.on)(j) by {
        assert(needed(q.g, j as int, k));
    }
    assert forall|i: int, j: usize|
        0 <= i < q.len() && 1 <= j <= q.g.nodes.len() && j != out && (v.on)(j) implies #[trigger]
        (v.data)(i, j) == (w.data)(i, j) by {
        lemma_next(q, i, k);
        assert(q.vals(i, k + 1)[j - 1] == q.vals(i, k)[j - 1]);
    }
    assert forall|j: usize, r: int, s: int|
        1 <= j <= q.g.nodes.len() && j != out && (w.on)(j) && 0 <= r < q.len() && 0 <= s < q.len()
            && (r != s || (v.on)(j)) implies #[trigger] clear_of(q.p, q.g, j, r, out, s) by {
        assert(needed(q.g, j as int, out - 1));
    }
}

/// A token in its row faces a node where the interpreter does.
proof fn lemma_token_faces(q: Prompt, m: Machine, i: int, k: int)
    requires
        asked(q),
        steady(q, m),
        0 <= i < q.len(),
        0 <= k < q.g.nodes.len(),
        row_has(q, m, wants(q, k), i),
    ensures
        faces(q.token(i), q.after(i), at_row(m, i), k, q.vals(i, k), q.kept(i, k)),
        given(q.token(i), k, q.vals(i, k), q.kept(i, k)) == q.vals(i, k + 1)[k],
{
    let x = q.token(i);
    let mm = at_row(m, i);
    lemma_token_fed(q, i);
    lemma_token_vals(q, i, k);
    let vals = q.vals(i, k);
    assert(equipped(x, mm)) by {
        assert(equipped(q.token(0), m));
        assert(mm.mem == m.mem);
        assert(x.c.model == q.c.model && x.c.files == q.c.files);
        assert(equipped(q.token(0), mm)) by {
            lemma_equipped(q.token(0), m, mm);
        }
    }
    lemma_ready(x.c, q.g, q.after(i), k as nat);
    crate::graph::interp::lemma_prefix_ok(q.g.nodes, q.c.model, k);
    if !(q.g.nodes[k].op is Embed) {
        assert forall|a: int| 0 <= a < q.g.nodes[k].inputs.len() implies held(
            x,
            mm,
            #[trigger] q.g.nodes[k].inputs[a],
        ) == vals[q.g.nodes[k].inputs[a] - 1].data by {
            let v = q.g.nodes[k].inputs[a];
            assert(needed(q.g, v as int, k));
            assert(1 <= v <= k);
            assert((wants(q, k).on)(v));
            assert(held(x, m, v) == (wants(q, k).data)(i, v));
        }
    }
    assert(poised(x, mm, k, vals));
    lemma_given(x, q.after(i), mm, k, vals, q.kept(i, k));
}

/// A node that does not attend changes nothing about which layers have.
proof fn lemma_between_kept(q: Prompt, a: int, b: int, k: int)
    requires
        0 <= k < q.g.nodes.len(),
        !(q.g.nodes[k].op is Attention),
    ensures
        between(q, a, b, k + 1) == between(q, a, b, k),
{
    assert forall|l: int| layer_attends(q.g.nodes.take(k + 1), l) == layer_attends(
        q.g.nodes.take(k),
        l,
    ) by {
        let s = q.g.nodes.take(k);
        let t = q.g.nodes.take(k + 1);
        if layer_attends(t, l) {
            let i = choose|i: int| 0 <= i < t.len() && attends(#[trigger] t[i], l);
            assert(t[i] == q.g.nodes[i]);
            assert(s[i] == q.g.nodes[i]);
        }
        if layer_attends(s, l) {
            let i = choose|i: int| 0 <= i < s.len() && attends(#[trigger] s[i], l);
            assert(t[i] == s[i]);
        }
    }
    assert(between(q, a, b, k + 1).k =~= between(q, a, b, k).k);
    assert(between(q, a, b, k + 1).v =~= between(q, a, b, k).v);
}

/// The loop over the tokens of a tile.
pub open spec fn tile_tokens(p: PlanV, body: Code) -> Stmt {
    Stmt::Tokens { first: tile_first(), count: tile_count(p), body: Box::new(body) }
}

/// A machine whose arena alone has changed has the same cache, and the same tile.
proof fn lemma_tile_kept(q: Prompt, r: Machine, m: Machine, kv: KvV)
    requires
        steady(q, m),
        only_values(r, m),
        r.vars[TILE] == m.vars[TILE],
        caches(q.token(0), m, kv),
    ensures
        caches(q.token(0), r, kv),
        int_of(tile_count(q.p), r) == int_of(tile_count(q.p), m),
        int_of(tile_first(), r) == int_of(tile_first(), m),
{
    assert(r.mem[Buf::Kv] == m.mem[Buf::Kv]);
    assert(r.args == m.args);
    reveal_with_fuel(int_of, 3);
}

/// The loop over the tokens of a tile, for a body that works on rows.
proof fn lemma_tile_tokens(
    q: Prompt,
    body: Code,
    w: Wants,
    v: Wants,
    out: usize,
    t: spec_fn(int) -> Seq<u32>,
    m: Machine,
    a: int,
    b: int,
    kv: KvV,
)
    requires
        asked(q),
        turns_into(q, w, v, out, t),
        works_on(q, body, w, out, t, a, b),
        spares(body, TILE),
        steady(q, m),
        m.vars[TILE] == a,
        b == a + int_of(tile_count(q.p), m),
        0 <= a < b <= q.len(),
        rows_have(q, m, w, a, b),
        caches(q.token(0), m, kv),
    ensures
        ({
            let r = step(tile_tokens(q.p, body), m, q.u);
            &&& steady(q, r)
            &&& r.vars[TILE] == a
            &&& b == a + int_of(tile_count(q.p), r)
            &&& rows_have(q, r, v, a, b)
            &&& caches(q.token(0), r, kv)
        }),
{
    let n = (b - a) as nat;
    let s = tile_tokens(q.p, body);
    let r = step(s, m, q.u);
    assert(int_of(tile_first(), m) == a);
    let rows = (q.u.order)(a, n);
    assert(r == in_turn(body, rows, m, q.u));
    lemma_token_loop(q, body, w, v, out, t, m, a, b, rows);
    assert forall|i: int| a <= i < b implies #[trigger] row_has(q, r, v, i) by {
        assert(rows.contains(i));
    }
    assert(spares(then(s, Code::End), TILE)) by {
        reveal_with_fuel(spares, 3);
        reveal_with_fuel(spares_in, 3);
    }
    lemma_spared(then(s, Code::End), m, q.u, TILE);
    assert(run(then(s, Code::End), m, q.u) == r) by {
        reveal_with_fuel(run, 2);
    }
    lemma_tile_kept(q, r, m, kv);
}

/// The loop over the tokens of a tile carries out a node that is run token by token.
proof fn lemma_tile_plain(q: Prompt, m: Machine, a: int, b: int, k: int, st: StepV)
    requires
        asked(q),
        tile_holds(q, m, a, b, k),
        0 <= k < q.g.nodes.len(),
        is_plain(q.g.nodes[k].op),
        node_steps(q.p, q.g, k as nat) == seq![st],
    ensures
        tile_holds(
            q,
            step(tile_tokens(q.p, step_code(q.p, q.g, st, Code::End)), m, q.u),
            a,
            b,
            k + 1,
        ),
{
    let out = (k + 1) as usize;
    let t = |i: int| q.vals(i, k + 1)[k].data;
    let w = wants(q, k);
    let body = step_code(q.p, q.g, st, Code::End);
    lemma_turns(q, k);
    assert(works_on(q, body, w, out, t, a, b)) by {
        assert forall|mm: Machine, i: int|
            #![trigger run(body, at_row(mm, i), q.u)]
            a <= i < b && steady(q, mm) && row_has(q, mm, w, i) implies computed(
            q.p,
            run(body, at_row(mm, i), q.u),
            at_row(mm, i),
            place(q.p, q.g, out, i),
            t(i),
        ) by {
            lemma_token_faces(q, mm, i, k);
            let st2 = lemma_plain(
                q.token(i),
                q.after(i),
                at_row(mm, i),
                k,
                q.vals(i, k),
                q.kept(i, k),
            );
            assert(seq![st][0] == seq![st2][0]);
        }
    }
    lemma_step_spares(q.p, q.g, st);
    lemma_between_kept(q, a, b, k);
    lemma_tile_tokens(q, body, w, wants(q, k + 1), out, t, m, a, b, between(q, a, b, k));
}

/// Whether a kernel has put `f` into rows `a` up to `b` of value `out`, and has changed
/// nothing else among the values.
pub open spec fn panel(
    q: Prompt,
    r: Machine,
    m: Machine,
    out: usize,
    a: int,
    b: int,
    f: spec_fn(int) -> Seq<u32>,
) -> bool {
    &&& only_values(r, m)
    &&& r.mem.contains_key(Buf::Arena) == m.mem.contains_key(Buf::Arena)
    &&& r.mem[Buf::Arena].len() == m.mem[Buf::Arena].len()
    &&& r.mem.contains_key(Buf::Cell(0)) == m.mem.contains_key(Buf::Cell(0))
    &&& r.mem[Buf::Cell(0)].len() == m.mem[Buf::Cell(0)].len()
    &&& forall|i: int| a <= i < b ==> held(q.token(i), r, out) == #[trigger] f(i)
    &&& forall|z: int|
        0 <= z < q.p.total_f32 && (forall|i: int|
            a <= i < b ==> !(#[trigger] place(q.p, q.g, out, i) <= z < place(q.p, q.g, out, i)
                + row_len(q.g, out))) ==> #[trigger] r.mem[Buf::Arena][z] == m.mem[Buf::Arena][z]
}

/// What a kernel has not written is as it was.
proof fn lemma_panel_kept(
    q: Prompt,
    r: Machine,
    m: Machine,
    out: usize,
    a: int,
    b: int,
    f: spec_fn(int) -> Seq<u32>,
    i: int,
    j: usize,
)
    requires
        asked(q),
        panel(q, r, m, out, a, b, f),
        arena_len(q.p) <= m.mem[Buf::Arena].len(),
        0 <= i < q.len(),
        1 <= j <= q.g.nodes.len(),
        forall|s: int| a <= s < b ==> #[trigger] clear_of(q.p, q.g, j, i, out, s),
    ensures
        held(q.token(i), r, j) == held(q.token(i), m, j),
{
    let x = q.token(i);
    lemma_room(q.p, q.g, q.c.model, q.len(), j, i);
    let at = place(q.p, q.g, j, i);
    let old_row = held(x, m, j);
    let new_row = held(x, r, j);
    assert forall|z: int| 0 <= z < row_len(q.g, j) implies #[trigger] new_row[z] == old_row[z] by {
        let y = at + z;
        assert forall|s: int| a <= s < b implies !(#[trigger] place(q.p, q.g, out, s) <= y < place(
            q.p,
            q.g,
            out,
            s,
        ) + row_len(q.g, out)) by {
            assert(clear_of(q.p, q.g, j, i, out, s));
        }
        assert(r.mem[Buf::Arena][y] == m.mem[Buf::Arena][y]);
    }
    assert(new_row =~= old_row);
}

/// A kernel takes the rows of a tile from what they hold to what they are to hold.
proof fn lemma_panel_turned(
    q: Prompt,
    r: Machine,
    m: Machine,
    w: Wants,
    v: Wants,
    out: usize,
    a: int,
    b: int,
    f: spec_fn(int) -> Seq<u32>,
)
    requires
        asked(q),
        steady(q, m),
        panel(q, r, m, out, a, b, f),
        0 <= a <= b <= q.len(),
        rows_have(q, m, w, a, b),
        forall|i: int| a <= i < b ==> #[trigger] (v.data)(i, out) == f(i),
        forall|j: usize|
            1 <= j <= q.g.nodes.len() && j != out && #[trigger] (v.on)(j) ==> (w.on)(j),
        forall|i: int, j: usize|
            a <= i < b && 1 <= j <= q.g.nodes.len() && j != out && (v.on)(j) ==> #[trigger] (v.data)(
                i,
                j,
            ) == (w.data)(i, j),
        forall|j: usize, r: int, s: int|
            1 <= j <= q.g.nodes.len() && j != out && (v.on)(j) && 0 <= r < q.len() && 0 <= s
                < q.len() ==> #[trigger] clear_of(q.p, q.g, j, r, out, s),
    ensures
        steady(q, r),
        rows_have(q, r, v, a, b),
{
    lemma_equipped(q.token(0), m, r);
    assert(r.mem[Buf::Logits] == m.mem[Buf::Logits]);
    assert forall|i: int| a <= i < b implies #[trigger] row_has(q, r, v, i) by {
        assert(row_has(q, m, w, i));
        assert forall|j: usize| 1 <= j <= q.g.nodes.len() && #[trigger] (v.on)(j) implies held(
            q.token(i),
            r,
            j,
        ) == (v.data)(i, j) by {
            if j == out {
                assert((v.data)(i, out) == f(i));
            } else {
                assert((w.on)(j));
                assert((v.data)(i, j) == (w.data)(i, j));
                lemma_panel_kept(q, r, m, out, a, b, f, i, j);
            }
        }
    }
}

/// Whether the code of a product for a tile multiplies each row as the scalar
/// operation does.
pub open spec fn multiplies_tiles(q: Prompt) -> bool {
    forall|m: Machine, weight: usize, out: usize, rows: usize, k: usize, a: int, b: int|
        #![trigger run(gemm_code(q.p, q.g, weight, out, rows, k, Code::End), m, q.u), panel_of(a, b)]
        product_ok(q.p, q.g, weight, out) && rows == row_len(q.g, out) && k == row_len(
            q.g,
            source_of(q.g, out),
        ) && steady(q, m) && m.vars[TILE] == a && b == a + int_of(tile_count(q.p), m) && 0 <= a
            < b <= q.len() && (forall|r: int, s: int|
            a <= r < b && a <= s < b ==> #[trigger] clear_of(
                q.p,
                q.g,
                source_of(q.g, out),
                r,
                out,
                s,
            )) ==> (weight_of(
            q.c.model,
            q.c.files,
            q.p.weights[weight as int].tensor_index as int,
        ) matches Ok(w) ==> panel(
            q,
            run(gemm_code(q.p, q.g, weight, out, rows, k, Code::End), m, q.u),
            m,
            out,
            a,
            b,
            |i: int| dots(held(q.token(i), m, source_of(q.g, out)), w, rows as nat, k as nat),
        ))
}

/// Names the rows of a tile.
pub open spec fn panel_of(a: int, b: int) -> bool {
    a <= b
}

/// The products of a weight with the rows of a tile, before a bias.
pub open spec fn product_wants(q: Prompt, k: int, y: spec_fn(int) -> Seq<u32>) -> Wants {
    let out = (k + 1) as usize;
    Wants {
        on: |j: usize| j == out || (j <= k && needed(q.g, j as int, k + 1)),
        data: |i: int, j: usize|
            if j == out {
                y(i)
            } else {
                q.vals(i, k + 1)[j - 1].data
            },
    }
}

/// The code of the products of a tile counts with no variable of its own but the first.
proof fn lemma_gemm_spares(q: Prompt, weight: usize, out: usize, rows: usize, k: usize)
    ensures
        spares(gemm_code(q.p, q.g, weight, out, rows, k, Code::End), TILE),
{
    reveal_with_fuel(spares, 12);
    reveal_with_fuel(spares_in, 12);
}

/// The rows of a tile and a weight: what holds of each token that faces the product.
proof fn lemma_tile_product(
    q: Prompt,
    m: Machine,
    a: int,
    b: int,
    k: int,
    weight: usize,
) -> (wi: usize)
    requires
        asked(q),
        multiplies_tiles(q),
        tile_holds(q, m, a, b, k),
        0 <= k < q.g.nodes.len(),
        q.g.nodes[k].op matches Op::MatMul { weight: w, .. } && w.0 == weight,
    ensures
        ({
            let out = (k + 1) as usize;
            let pw = q.p.weights[wi as int];
            let r = run(gemm_code(q.p, q.g, wi, out, pw.rows, pw.k, Code::End), m, q.u);
            let wt = weight_of(q.c.model, q.c.files, weight as int)->Ok_0;
            let src = q.g.nodes[k].inputs[0];
            let y = |i: int| dots(q.vals(i, k)[src - 1].data, wt, pw.rows as nat, pw.k as nat);
            &&& weight_at(q.p.weights, weight, 0) == Some(wi)
            &&& pw.rows == row_len(q.g, out)
            &&& pw.rows > 0
            &&& steady(q, r)
            &&& r.vars[TILE] == a
            &&& b == a + int_of(tile_count(q.p), r)
            &&& rows_have(q, r, product_wants(q, k, y), a, b)
            &&& caches(q.token(0), r, between(q, a, b, k))
        }),
{
    let out = (k + 1) as usize;
    let w = wants(q, k);
    lemma_turns(q, k);
    assert(row_has(q, m, w, a));
    lemma_token_faces(q, m, a, k);
    let x = q.token(a);
    let wi = lemma_product_facts(
        x,
        q.after(a),
        at_row(m, a),
        k,
        q.vals(a, k),
        q.kept(a, k),
        weight,
    );
    let pw = q.p.weights[wi as int];
    let wt = weight_of(q.c.model, q.c.files, weight as int)->Ok_0;
    let src = q.g.nodes[k].inputs[0];
    lemma_input_row(x, q.after(a), at_row(m, a), k, q.vals(a, k), q.kept(a, k), 0);
    let y = |i: int| dots(q.vals(i, k)[src - 1].data, wt, pw.rows as nat, pw.k as nat);
    let f = |i: int| dots(held(q.token(i), m, src), wt, pw.rows as nat, pw.k as nat);
    assert forall|r: int, s: int| a <= r < b && a <= s < b implies #[trigger] clear_of(
        q.p,
        q.g,
        src,
        r,
        out,
        s,
    ) by {
        if r == s {
            assert(readable(q.p, q.g, k, q.g.nodes[k].inputs[0], r));
        } else {
            assert(q.g.nodes[k].inputs[0] == src);
            assert(needed(q.g, src as int, out - 1));
        }
    }
    assert(panel_of(a, b));
    let r = run(gemm_code(q.p, q.g, wi, out, pw.rows, pw.k, Code::End), m, q.u);
    assert(panel(q, r, m, out, a, b, f));
    let v = product_wants(q, k, y);
    assert forall|i: int| a <= i < b implies #[trigger] (v.data)(i, out) == f(i) by {
        assert(row_has(q, m, w, i));
        assert(needed(q.g, src as int, k)) by {
            assert(q.g.nodes[k].inputs[0] == src);
        }
        assert((w.on)(src));
        assert(held(q.token(i), m, src) == (w.data)(i, src));
    }
    assert forall|j: usize|
        1 <= j <= q.g.nodes.len() && j != out && #[trigger] (v.on)(j) implies (w.on)(j) by {
        assert(needed(q.g, j as int, k));
    }
    assert forall|i: int, j: usize|
        a <= i < b && 1 <= j <= q.g.nodes.len() && j != out && (v.on)(j) implies #[trigger] (
    v.data)(i, j) == (w.data)(i, j) by {
        lemma_next(q, i, k);
        assert(q.vals(i, k + 1)[j - 1] == q.vals(i, k)[j - 1]);
    }
    assert forall|j: usize, r: int, s: int|
        1 <= j <= q.g.nodes.len() && j != out && (v.on)(j) && 0 <= r < q.len() && 0 <= s
            < q.len() implies #[trigger] clear_of(q.p, q.g, j, r, out, s) by {
        assert(needed(q.g, j as int, out - 1));
    }
    lemma_panel_turned(q, r, m, w, v, out, a, b, f);
    lemma_gemm_spares(q, wi, out, pw.rows, pw.k);
    lemma_spared(gemm_code(q.p, q.g, wi, out, pw.rows, pw.k, Code::End), m, q.u, TILE);
    lemma_tile_kept(q, r, m, between(q, a, b, k));
    wi
}

/// What the interpreter gives for a product is the products and the bias.
proof fn lemma_token_product(q: Prompt, m: Machine, i: int, k: int, weight: usize, wi: usize)
    requires
        asked(q),
        steady(q, m),
        0 <= i < q.len(),
        0 <= k < q.g.nodes.len(),
        row_has(q, m, wants(q, k), i),
        q.g.nodes[k].op matches Op::MatMul { weight: w, .. } && w.0 == weight,
        weight_at(q.p.weights, weight, 0) == Some(wi),
    ensures
        ({
            let pw = q.p.weights[wi as int];
            let wt = weight_of(q.c.model, q.c.files, weight as int)->Ok_0;
            let src = q.g.nodes[k].inputs[0];
            let y = dots(q.vals(i, k)[src - 1].data, wt, pw.rows as nat, pw.k as nat);
            let t = q.vals(i, k + 1)[k].data;
            &&& t.len() == pw.rows
            &&& q.g.nodes[k].op matches Op::MatMul { bias: None, .. } ==> t == y
            &&& q.g.nodes[k].op matches Op::MatMul { bias: Some(b), .. } ==> {
                &&& b.0 < q.c.model.tensors.len()
                &&& weight_of(q.c.model, q.c.files, b.0 as int) is Ok
                &&& t == Seq::new(
                    pw.rows as nat,
                    |z: int| sum(y[z], weight_of(q.c.model, q.c.files, b.0 as int)->Ok_0[z]),
                )
            }
        }),
{
    lemma_token_faces(q, m, i, k);
    let x = q.token(i);
    let wj = lemma_product_facts(
        x,
        q.after(i),
        at_row(m, i),
        k,
        q.vals(i, k),
        q.kept(i, k),
        weight,
    );
    assert(wj == wi);
    let pw = q.p.weights[wi as int];
    let wt = weight_of(q.c.model, q.c.files, weight as int)->Ok_0;
    let src = q.g.nodes[k].inputs[0];
    let bias = crate::graph::interp::bias_of(x.c, q.g.nodes[k].op)->Ok_0;
    lemma_one_row(q.vals(i, k)[src - 1], wt, pw.rows, pw.k, bias);
    lemma_given(x, q.after(i), at_row(m, i), k, q.vals(i, k), q.kept(i, k));
}

/// Timed code runs, and then what follows.
proof fn lemma_timed_run(
    slots: Option<Seq<Seq<char>>>,
    label: Seq<char>,
    body: Code,
    rest: Code,
    m: Machine,
    u: Units,
)
    ensures
        run(timed(slots, label, body, rest), m, u) == run(rest, run(body, m, u), u),
{
    let s = Stmt::Timed { slot: slot_of(slots, label), body: Box::new(body) };
    assert(step(s, m, u) == run(body, m, u));
    assert(run(then(s, rest), m, u) == run(rest, step(s, m, u), u));
}

/// The machine after the code of a step for a tile.
pub open spec fn tile_effect(
    q: Prompt,
    slots: Option<Seq<Seq<char>>>,
    st: StepV,
    m: Machine,
) -> Machine {
    run(tile_step_code(q.p, q.g, q.c.model, slots, st, Code::End), m, q.u)
}

/// The machine after the code of steps for a tile, one after the other.
pub open spec fn tile_all(
    q: Prompt,
    slots: Option<Seq<Seq<char>>>,
    steps: Seq<StepV>,
    m: Machine,
) -> Machine
    decreases steps.len(),
{
    if steps.len() == 0 {
        m
    } else {
        tile_effect(q, slots, steps.last(), tile_all(q, slots, steps.drop_last(), m))
    }
}

proof fn lemma_tile_one(q: Prompt, slots: Option<Seq<Seq<char>>>, st: StepV, m: Machine)
    ensures
        tile_all(q, slots, seq![st], m) == tile_effect(q, slots, st, m),
{
    assert(seq![st].drop_last() =~= Seq::<StepV>::empty());
    assert(tile_all(q, slots, seq![st].drop_last(), m) == m);
}

proof fn lemma_tile_more(
    q: Prompt,
    slots: Option<Seq<Seq<char>>>,
    a: Seq<StepV>,
    b: Seq<StepV>,
    m: Machine,
)
    ensures
        tile_all(q, slots, a + b, m) == tile_all(q, slots, b, tile_all(q, slots, a, m)),
    decreases b.len(),
{
    if b.len() == 0 {
        assert(a + b =~= a);
    } else {
        lemma_tile_more(q, slots, a, b.drop_last(), m);
        assert((a + b).drop_last() =~= a + b.drop_last());
        assert((a + b).last() == b.last());
    }
}

/// The code of a step that is run token by token is the loop over the tokens.
proof fn lemma_effect_tokens(
    q: Prompt,
    slots: Option<Seq<Seq<char>>>,
    st: StepV,
    m: Machine,
)
    requires
        !(st is Gemv) && !(st is Quantize) && !(st is Attention),
    ensures
        tile_effect(q, slots, st, m) == step(
            tile_tokens(q.p, step_code(q.p, q.g, st, Code::End)),
            m,
            q.u,
        ),
{
    let s = tile_tokens(q.p, step_code(q.p, q.g, st, Code::End));
    let label = label_of(st, q.p, q.c.model);
    lemma_timed_run(slots, label, then(s, Code::End), Code::End, m, q.u);
    assert(run(then(s, Code::End), m, q.u) == step(s, m, q.u)) by {
        reveal_with_fuel(run, 2);
    }
}

/// The loop that adds a bias to the products of a tile.
proof fn lemma_tile_bias(
    q: Prompt,
    m0: Machine,
    m: Machine,
    a: int,
    b: int,
    k: int,
    weight: usize,
    wi: usize,
    bt: usize,
)
    requires
        asked(q),
        tile_holds(q, m0, a, b, k),
        0 <= k < q.g.nodes.len(),
        q.g.nodes[k].op matches Op::MatMul { weight: w, bias: Some(t) } && w.0 == weight && t.0
            == bt,
        weight_at(q.p.weights, weight, 0) == Some(wi),
        q.p.weights[wi as int].rows == row_len(q.g, (k + 1) as usize),
        steady(q, m),
        m.vars[TILE] == a,
        b == a + int_of(tile_count(q.p), m),
        ({
            let pw = q.p.weights[wi as int];
            let wt = weight_of(q.c.model, q.c.files, weight as int)->Ok_0;
            let src = q.g.nodes[k].inputs[0];
            let y = |i: int| dots(q.vals(i, k)[src - 1].data, wt, pw.rows as nat, pw.k as nat);
            rows_have(q, m, product_wants(q, k, y), a, b)
        }),
        caches(q.token(0), m, between(q, a, b, k)),
    ensures
        tile_holds(
            q,
            step(
                tile_tokens(
                    q.p,
                    step_code(
                        q.p,
                        q.g,
                        StepV::Bias {
                            bias_tensor: bt,
                            out: (k + 1) as usize,
                            rows: q.p.weights[wi as int].rows,
                        },
                        Code::End,
                    ),
                ),
                m,
                q.u,
            ),
            a,
            b,
            k + 1,
        ),
{
    let out = (k + 1) as usize;
    let pw = q.p.weights[wi as int];
    let wt = weight_of(q.c.model, q.c.files, weight as int)->Ok_0;
    let src = q.g.nodes[k].inputs[0];
    let y = |i: int| dots(q.vals(i, k)[src - 1].data, wt, pw.rows as nat, pw.k as nat);
    let w = product_wants(q, k, y);
    let v = wants(q, k + 1);
    let t = |i: int| q.vals(i, k + 1)[k].data;
    let st = StepV::Bias { bias_tensor: bt, out, rows: pw.rows };
    let body = step_code(q.p, q.g, st, Code::End);
    lemma_turns(q, k);
    assert(turns_into(q, w, v, out, t)) by {
        assert forall|i: int| 0 <= i < q.len() implies (#[trigger] t(i)).len() == row_len(
            q.g,
            out,
        ) by {
            lemma_next(q, i, k);
        }
        assert forall|j: usize, r: int, s: int|
            1 <= j <= q.g.nodes.len() && j != out && (w.on)(j) && 0 <= r < q.len() && 0 <= s
                < q.len() && (r != s || (v.on)(j)) implies #[trigger] clear_of(
            q.p,
            q.g,
            j,
            r,
            out,
            s,
        ) by {
            assert(needed(q.g, j as int, out - 1));
        }
    }
    lemma_room(q.p, q.g, q.c.model, q.len(), out, a);
    assert(works_on(q, body, w, out, t, a, b)) by {
        assert forall|mm: Machine, i: int|
            #![trigger run(body, at_row(mm, i), q.u)]
            a <= i < b && steady(q, mm) && row_has(q, mm, w, i) implies computed(
            q.p,
            run(body, at_row(mm, i), q.u),
            at_row(mm, i),
            place(q.p, q.g, out, i),
            t(i),
        ) by {
            assert(row_has(q, m0, wants(q, k), i));
            lemma_token_product(q, m0, i, k, weight, wi);
            let at = at_row(mm, i);
            let po = place(q.p, q.g, out, i);
            lemma_room(q.p, q.g, q.c.model, q.len(), out, i);
            law_bias_code(q.p, q.g, bt, out, pw.rows as u64, at, q.u);
            let s = bias_stmt(q.p, q.g, bt, out, pw.rows as u64);
            let r = step(s, at, q.u);
            assert(run(body, at, q.u) == r) by {
                reveal_with_fuel(run, 2);
            }
            assert((w.on)(out));
            assert(held(q.token(i), mm, out) == y(i));
            let bv = weight_of(q.c.model, q.c.files, bt as int)->Ok_0;
            assert(at.mem[Buf::Table(bt)] == bv);
            let z = Seq::new(
                pw.rows as nat,
                |e: int| sum(at.mem[Buf::Arena][po + e], at.mem[Buf::Table(bt)][e]),
            );
            assert forall|e: int| 0 <= e < pw.rows implies z[e] == t(i)[e] by {
                assert(held(q.token(i), mm, out)[e] == mm.mem[Buf::Arena][po + e]);
            }
            assert(z =~= t(i));
            lemma_computed(q.p, r, at, po, t(i));
        }
    }
    lemma_step_spares(q.p, q.g, st);
    lemma_between_kept(q, a, b, k);
    lemma_tile_tokens(q, body, w, v, out, t, m, a, b, between(q, a, b, k));
}

/// The code of a tile carries out a product.
proof fn lemma_tile_matmul(
    q: Prompt,
    slots: Option<Seq<Seq<char>>>,
    m: Machine,
    a: int,
    b: int,
    k: int,
    weight: usize,
    bias: Option<usize>,
)
    requires
        asked(q),
        multiplies_tiles(q),
        tile_holds(q, m, a, b, k),
        0 <= k < q.g.nodes.len(),
        q.g.nodes[k].op matches Op::MatMul { weight: w, bias: b } && w.0 == weight && (match b {
            Some(t) => Some(t.0),
            None => None,
        }) == bias,
    ensures
        tile_holds(
            q,
            tile_all(q, slots, node_steps(q.p, q.g, k as nat), m),
            a,
            b,
            k + 1,
        ),
{
    let out = (k + 1) as usize;
    let src = q.g.nodes[k].inputs[0];
    let wi = lemma_tile_product(q, m, a, b, k, weight);
    let pw = q.p.weights[wi as int];
    let wt = weight_of(q.c.model, q.c.files, weight as int)->Ok_0;
    let y = |i: int| dots(q.vals(i, k)[src - 1].data, wt, pw.rows as nat, pw.k as nat);
    let pack = if pw.dtype == DTypeV::F32 {
        Seq::<StepV>::empty()
    } else {
        seq![StepV::Quantize { dtype: pw.dtype, src, k: pw.k }]
    };
    let gemv = StepV::Gemv {
        symbol: gemv_name(pw.dtype, pw.isa),
        weight: wi,
        out,
        rows: pw.rows,
        k: pw.k,
    };
    assert(tile_all(q, slots, pack, m) == m) by {
        if pack.len() > 0 {
            lemma_tile_one(q, slots, pack[0], m);
        }
    }
    lemma_tile_one(q, slots, gemv, m);
    lemma_tile_more(q, slots, pack, seq![gemv], m);
    let code = gemm_code(q.p, q.g, wi, out, pw.rows, pw.k, Code::End);
    let m1 = run(code, m, q.u);
    lemma_timed_run(slots, label_of(gemv, q.p, q.c.model), code, Code::End, m, q.u);
    assert(tile_all(q, slots, pack + seq![gemv], m) == m1);
    match bias {
        None => {
            assert(node_steps(q.p, q.g, k as nat) =~= pack + seq![gemv]);
            lemma_between_kept(q, a, b, k);
            assert forall|i: int| a <= i < b implies #[trigger] row_has(
                q,
                m1,
                wants(q, k + 1),
                i,
            ) by {
                assert(row_has(q, m, wants(q, k), i));
                assert(row_has(q, m1, product_wants(q, k, y), i));
                lemma_token_product(q, m, i, k, weight, wi);
                assert forall|j: usize|
                    1 <= j <= q.g.nodes.len() && #[trigger] (wants(q, k + 1).on)(j) implies held(
                    q.token(i),
                    m1,
                    j,
                ) == (wants(q, k + 1).data)(i, j) by {
                    assert((product_wants(q, k, y).on)(j));
                }
            }
        },
        Some(bt) => {
            let add = StepV::Bias { bias_tensor: bt, out, rows: pw.rows };
            assert(node_steps(q.p, q.g, k as nat) =~= pack + seq![gemv] + seq![add]);
            lemma_tile_more(q, slots, pack + seq![gemv], seq![add], m);
            lemma_tile_one(q, slots, add, m1);
            lemma_effect_tokens(q, slots, add, m1);
            lemma_tile_bias(q, m, m1, a, b, k, weight, wi, bt);
        },
    }
}

/// A token adds its row of keys and its row of values to the layer that attends.
proof fn lemma_after_grows(q: Prompt, i: int, k: int, l: int)
    requires
        asked(q),
        0 <= i < q.len(),
        0 <= k < q.g.nodes.len(),
        attends(q.g.nodes[k], l),
    ensures
        0 <= l < q.g.n_layers,
        q.g.nodes[k].inputs.len() == 3,
        1 <= q.g.nodes[k].inputs[1] <= k,
        1 <= q.g.nodes[k].inputs[2] <= k,
        q.after(i).k.len() == q.g.n_layers && q.after(i).v.len() == q.g.n_layers,
        q.after(i).k[l].len() == (q.c.pos + i) * q.p.kv_dim,
        q.after(i).v[l].len() == (q.c.pos + i) * q.p.kv_dim,
        q.after(i + 1).k[l] == q.after(i).k[l] + arg_of(q.vals(i, k), q.g.nodes[k], 1).data,
        q.after(i + 1).v[l] == q.after(i).v[l] + arg_of(q.vals(i, k), q.g.nodes[k], 2).data,
        cache_after(q.kept(i, k), q.vals(i, k), q.g.nodes[k]).k[l] == q.after(i + 1).k[l],
        cache_after(q.kept(i, k), q.vals(i, k), q.g.nodes[k]).v[l] == q.after(i + 1).v[l],
        arg_of(q.vals(i, k), q.g.nodes[k], 1).data.len() == q.p.kv_dim,
        arg_of(q.vals(i, k), q.g.nodes[k], 2).data.len() == q.p.kv_dim,
{
    let x = q.token(i);
    let n = q.g.nodes[k];
    let total = q.g.nodes.len() as int;
    lemma_token_fed(q, i);
    lemma_token_vals(q, i, k);
    lemma_token_vals(q, i, total);
    lemma_ready(x.c, q.g, q.after(i), k as nat);
    crate::graph::interp::lemma_prefix_ok(q.g.nodes, q.c.model, k);
    let layers = q.c.model.hyperparams.n_layers as nat;
    lemma_cache_so_far(x.c, q.g, q.after(i), total as nat);
    lemma_cache_so_far(x.c, q.g, q.after(i), k as nat);
    let all = q.vals(i, total);
    let some = q.vals(i, k);
    lemma_added_once(q.g.nodes, all, layers, k, l, total as nat, 1);
    lemma_added_once(q.g.nodes, all, layers, k, l, total as nat, 2);
    lemma_added_once(q.g.nodes, some, layers, k, l, k as nat, 1);
    lemma_added_once(q.g.nodes, some, layers, k, l, k as nat, 2);
    let (a1, a2) = (n.inputs[1], n.inputs[2]);
    assert(some[a1 - 1] == all[a1 - 1]);
    assert(some[a2 - 1] == all[a2 - 1]);
    assert(q.after(i).k[l] + Seq::<u32>::empty() =~= q.after(i).k[l]);
    assert(q.after(i).v[l] + Seq::<u32>::empty() =~= q.after(i).v[l]);
    assert(q.kept(i, k).k[l] == q.after(i).k[l]);
    assert(q.kept(i, k).v[l] == q.after(i).v[l]);
    assert(crate::graph::interp::value_sound(some[a1 - 1], q.g.nodes.take(k)[a1 - 1], 1));
    assert(crate::graph::interp::value_sound(some[a2 - 1], q.g.nodes.take(k)[a2 - 1], 1));
}

/// What the cache held after fewer tokens, it still begins with.
proof fn lemma_after_prefix(q: Prompt, i: int, j: int, k: int, l: int)
    requires
        asked(q),
        0 <= i <= j <= q.len(),
        0 <= k < q.g.nodes.len(),
        attends(q.g.nodes[k], l),
    ensures
        q.after(j).k[l].len() == (q.c.pos + j) * q.p.kv_dim,
        q.after(j).v[l].len() == (q.c.pos + j) * q.p.kv_dim,
        q.after(j).k[l].take((q.c.pos + i) * q.p.kv_dim) == q.after(i).k[l],
        q.after(j).v[l].take((q.c.pos + i) * q.p.kv_dim) == q.after(i).v[l],
        (q.c.pos + i) * q.p.kv_dim <= (q.c.pos + j) * q.p.kv_dim,
    decreases j - i,
{
    let d = q.p.kv_dim as int;
    if i == j {
        if i < q.len() {
            lemma_after_grows(q, i, k, l);
        } else {
            lemma_after_grows(q, i - 1, k, l);
            assert((q.c.pos + i) * d == (q.c.pos + i - 1) * d + d) by (nonlinear_arith);
        }
        assert(q.after(j).k[l].take(q.after(j).k[l].len() as int) =~= q.after(j).k[l]);
        assert(q.after(j).v[l].take(q.after(j).v[l].len() as int) =~= q.after(j).v[l]);
    } else {
        lemma_after_prefix(q, i, j - 1, k, l);
        lemma_after_grows(q, j - 1, k, l);
        assert((q.c.pos + j) * d == (q.c.pos + j - 1) * d + d) by (nonlinear_arith);
        let n = (q.c.pos + i) * d;
        assert(0 <= n) by (nonlinear_arith)
            requires
                n == (q.c.pos + i) * d,
                0 <= i,
                0 <= d,
        ;
        assert(q.after(j).k[l].take(n) =~= q.after(j - 1).k[l].take(n));
        assert(q.after(j).v[l].take(n) =~= q.after(j - 1).v[l].take(n));
    }
}

/// The cache while the rows of a tile are appended to a layer.
pub open spec fn appending(q: Prompt, a: int, b: int, k: int, l: int, i: int) -> KvV {
    let at = between(q, a, b, k);
    KvV {
        k: at.k.update(l, q.after(i).k[l]),
        v: at.v.update(l, q.after(i).v[l]),
        ..at
    }
}

/// Before the first row of a tile is appended, and when all are.
proof fn lemma_appending(q: Prompt, a: int, b: int, k: int, l: int)
    requires
        asked(q),
        0 <= k < q.g.nodes.len(),
        attends(q.g.nodes[k], l),
        0 <= l < q.g.n_layers,
    ensures
        appending(q, a, b, k, l, a) == between(q, a, b, k),
        appending(q, a, b, k, l, b) == between(q, a, b, k + 1),
{
    reveal(layers_ascend);
    let s = q.g.nodes.take(k);
    let t = q.g.nodes.take(k + 1);
    assert(!layer_attends(s, l)) by {
        if layer_attends(s, l) {
            let i = choose|i: int| 0 <= i < s.len() && attends(#[trigger] s[i], l);
            assert(s[i] == q.g.nodes[i]);
        }
    }
    assert(layer_attends(t, l)) by {
        assert(t[k] == q.g.nodes[k]);
        assert(attends(t[k], l));
    }
    assert forall|o: int| o != l implies layer_attends(t, o) == layer_attends(s, o) by {
        if layer_attends(t, o) {
            let i = choose|i: int| 0 <= i < t.len() && attends(#[trigger] t[i], o);
            assert(t[i] == q.g.nodes[i]);
            assert(i != k);
            assert(s[i] == q.g.nodes[i]);
        }
        if layer_attends(s, o) {
            let i = choose|i: int| 0 <= i < s.len() && attends(#[trigger] s[i], o);
            assert(t[i] == s[i]);
        }
    }
    assert(appending(q, a, b, k, l, a).k =~= between(q, a, b, k).k);
    assert(appending(q, a, b, k, l, a).v =~= between(q, a, b, k).v);
    assert(appending(q, a, b, k, l, b).k =~= between(q, a, b, k + 1).k);
    assert(appending(q, a, b, k, l, b).v =~= between(q, a, b, k + 1).v);
}

/// Whether nothing has changed but the cache; names and variables aside.
pub open spec fn only_cache(r: Machine, m: Machine) -> bool {
    &&& same_frame(r, m)
    &&& forall|b: Buf|
        b != Buf::Kv ==> #[trigger] r.mem[b] == m.mem[b] && r.mem.contains_key(b)
            == m.mem.contains_key(b)
}

/// What the machine's cache holds of a layer.
proof fn lemma_layer_cached(q: Prompt, m: Machine, kv: KvV, layer: usize)
    requires
        caches(q.token(0), m, kv),
        layer < q.g.n_layers,
    ensures
        ({
            let at = layer_base(q.p, layer);
            let from = at + region(q.p);
            let s = m.mem[Buf::Kv];
            let l = layer as int;
            &&& at + 2 * region(q.p) <= s.len()
            &&& kv.k[l].len() <= region(q.p) && kv.v[l].len() <= region(q.p)
            &&& s.subrange(at, at + kv.k[l].len()) == kv.k[l]
            &&& s.subrange(from, from + kv.v[l].len()) == kv.v[l]
        }),
{
    let x = q.token(0);
    let at = layer_base(x.p, layer);
    let s = m.mem[Buf::Kv];
    let l = layer as int;
    assert(x.p == q.p && x.g == q.g);
    assert(at + 2 * region(x.p) <= s.len());
    assert(kv.k[l].len() <= region(x.p) && kv.v[l].len() <= region(x.p));
    assert(s.subrange(at, at + kv.k[l].len()) == kv.k[l]);
    assert(s.subrange(at + region(x.p), at + region(x.p) + kv.v[l].len()) == kv.v[l]);
}

/// Which token is at hand does not matter to what the cache holds.
pub proof fn lemma_same_caches(x: Deployed, y: Deployed, m: Machine, r: Machine, kv: KvV)
    requires
        caches(x, m, kv),
        x.p == y.p && x.g == y.g,
        r.mem[Buf::Kv] == m.mem[Buf::Kv],
        r.mem.contains_key(Buf::Kv) == m.mem.contains_key(Buf::Kv),
    ensures
        caches(y, r, kv),
{
    assert forall|l: usize|
        #![trigger layer_base(y.p, l)]
        l < y.g.n_layers implies {
        let at = layer_base(y.p, l);
        let s = r.mem[Buf::Kv];
        &&& at + 2 * region(y.p) <= s.len()
        &&& kv.k[l as int].len() <= region(y.p) && kv.v[l as int].len() <= region(y.p)
        &&& s.subrange(at, at + kv.k[l as int].len()) == kv.k[l as int]
        &&& s.subrange(at + region(y.p), at + region(y.p) + kv.v[l as int].len())
            == kv.v[l as int]
    } by {
        let at = layer_base(x.p, l);
        let s = m.mem[Buf::Kv];
        assert(at + 2 * region(x.p) <= s.len());
        assert(kv.k[l as int].len() <= region(x.p) && kv.v[l as int].len() <= region(x.p));
        assert(s.subrange(at, at + kv.k[l as int].len()) == kv.k[l as int]);
        assert(s.subrange(at + region(x.p), at + region(x.p) + kv.v[l as int].len())
            == kv.v[l as int]);
    }
}

/// The loop that appends the rows of a tile to a layer.
#[verifier::rlimit(40)]
proof fn lemma_append_loop(
    q: Prompt,
    m: Machine,
    a: int,
    b: int,
    k: int,
    layer: usize,
    n: nat,
)
    requires
        asked(q),
        steady(q, m),
        0 <= a,
        a + n <= b <= q.len(),
        0 <= k < q.g.nodes.len(),
        attends(q.g.nodes[k], layer as int),
        rows_have(q, m, wants(q, k), a, b),
        caches(q.token(0), m, between(q, a, b, k)),
    ensures
        ({
            let kk = q.g.nodes[k].inputs[1];
            let vv = q.g.nodes[k].inputs[2];
            let body = then(append_stmt(q.p, q.g, kk, vv, layer), Code::End);
            let r = in_turn(body, span(a, n), m, q.u);
            &&& only_cache(r, m)
            &&& caches(q.token(0), r, appending(q, a, b, k, layer as int, a + n))
        }),
    decreases n,
{
    let kk = q.g.nodes[k].inputs[1];
    let vv = q.g.nodes[k].inputs[2];
    let append = append_stmt(q.p, q.g, kk, vv, layer);
    let body = then(append, Code::End);
    let l = layer as int;
    if n == 0 {
        if a < q.len() {
            lemma_after_grows(q, a, k, l);
        } else {
            lemma_after_grows(q, a - 1, k, l);
        }
        lemma_appending(q, a, b, k, l);
    } else {
        let j = (n - 1) as nat;
        lemma_append_loop(q, m, a, b, k, layer, j);
        let before = in_turn(body, span(a, j), m, q.u);
        let i = a + j;
        assert(span(a, n).drop_last() =~= span(a, j) && span(a, n).last() == i);
        let at = at_row(before, i);
        let x = q.token(i);
        lemma_after_grows(q, i, k, l);
        // The row still holds what it is to hold.
        assert(row_has(q, m, wants(q, k), i));
        lemma_token_faces(q, m, i, k);
        lemma_input_row(x, q.after(i), at_row(m, i), k, q.vals(i, k), q.kept(i, k), 1);
        lemma_input_row(x, q.after(i), at_row(m, i), k, q.vals(i, k), q.kept(i, k), 2);
        assert(before.mem[Buf::Arena] == m.mem[Buf::Arena]);
        let key = arg_of(q.vals(i, k), q.g.nodes[k], 1).data;
        let value = arg_of(q.vals(i, k), q.g.nodes[k], 2).data;
        assert(row_len(q.g, kk) == q.p.kv_dim && row_len(q.g, vv) == q.p.kv_dim);
        let kv = appending(q, a, b, k, l, i);
        let kv2 = appending(q, a, b, k, l, i + 1);
        lemma_same_caches(q.token(0), x, before, at, kv);
        assert(cache_counts(q.p, layer));
        assert(layer_base(q.p, layer) + 2 * region(q.p) <= at.mem[Buf::Kv].len());
        law_append_code(q.p, q.g, kk, vv, layer, at, q.u);
        let after = step(append, at, q.u);
        assert(run(body, at, q.u) == after) by {
            reveal_with_fuel(run, 2);
        }
        assert(kv2.k =~= kv.k.update(l, kv.k[l] + key));
        assert(kv2.v =~= kv.v.update(l, kv.v[l] + value));
        lemma_cache_appended(x, at, after, layer, kv, kv2, key, value);
        let r = in_turn(body, span(a, n), m, q.u);
        assert(r == Machine { row: m.row, pos: m.pos, token: m.token, ..after });
        lemma_same_caches(x, q.token(0), after, r, kv2);
        assert forall|c: Buf| c != Buf::Kv implies #[trigger] r.mem[c] == m.mem[c]
            && r.mem.contains_key(c) == m.mem.contains_key(c) by {
            assert(before.mem[c] == m.mem[c]);
        }
    }
}

/// What stands at a place of the cache once rows are appended to a layer: the keys of
/// a row at its position of the layer, and its values at that of the layer's values.
spec fn appended_at(
    q: Prompt,
    m: Machine,
    k: usize,
    v: usize,
    layer: usize,
    rows: Seq<int>,
    z: int,
) -> u32 {
    let base = layer_base(q.p, layer);
    let d = q.p.kv_dim as int;
    let s = m.mem[Buf::Arena];
    let (x, y) = (z - base, z - base - region(q.p));
    if d > 0 && 0 <= x < region(q.p) && rows.contains(x / d - q.c.pos) {
        s[place(q.p, q.g, k, x / d - q.c.pos) + x % d]
    } else if d > 0 && 0 <= y < region(q.p) && rows.contains(y / d - q.c.pos) {
        s[place(q.p, q.g, v, y / d - q.c.pos) + y % d]
    } else {
        m.mem[Buf::Kv][z]
    }
}

/// A place lies in cell `j` of cells of `d` where division says so.
proof fn lemma_in_cell(x: int, d: int, j: int)
    requires
        d > 0,
    ensures
        j * d <= x < j * d + d <==> x / d == j,
        x / d == j ==> x - j * d == x % d,
{
    vstd::arithmetic::div_mod::lemma_fundamental_div_mod(x, d);
    vstd::arithmetic::div_mod::lemma_mod_bound(x, d);
    assert(d * (x / d) == (x / d) * d) by (nonlinear_arith);
    if j * d <= x < j * d + d {
        vstd::arithmetic::div_mod::lemma_fundamental_div_mod_converse(x, d, j, x - j * d);
    }
}

/// What appending one row does at a place of the cache.
proof fn lemma_append_cell(
    q: Prompt,
    s: Seq<u32>,
    t: Seq<u32>,
    key: Seq<u32>,
    value: Seq<u32>,
    layer: usize,
    i: int,
    z: int,
)
    requires
        key.len() == q.p.kv_dim,
        value.len() == q.p.kv_dim,
        0 <= q.c.pos + i < q.p.max_seq_len,
        layer_base(q.p, layer) + 2 * region(q.p) <= s.len(),
        0 <= z < s.len(),
        t == patched(
            patched(s, layer_base(q.p, layer) + (q.c.pos + i) * q.p.kv_dim, key),
            layer_base(q.p, layer) + (q.c.pos + i) * q.p.kv_dim + region(q.p),
            value,
        ),
    ensures
        ({
            let base = layer_base(q.p, layer);
            let d = q.p.kv_dim as int;
            let (x, y) = (z - base, z - base - region(q.p));
            t[z] == if d > 0 && 0 <= x < region(q.p) && x / d - q.c.pos == i {
                key[x % d]
            } else if d > 0 && 0 <= y < region(q.p) && y / d - q.c.pos == i {
                value[y % d]
            } else {
                s[z]
            }
        }),
{
    let base = layer_base(q.p, layer);
    let d = q.p.kv_dim as int;
    let n = q.c.pos + i;
    let x = z - base;
    let y = x - region(q.p);
    if d > 0 {
        lemma_in_cell(x, d, n);
        lemma_in_cell(y, d, n);
        assert(0 <= n * d && n * d + d <= region(q.p)) by (nonlinear_arith)
            requires
                region(q.p) == q.p.max_seq_len * q.p.kv_dim,
                d == q.p.kv_dim,
                0 <= n < q.p.max_seq_len,
        ;
    }
}

/// The rows of a tile are appended to a layer in whatever order: what stands in the cache
/// depends on which rows there are alone.
#[verifier::rlimit(40)]
proof fn lemma_append_rows(
    q: Prompt,
    m: Machine,
    a: int,
    b: int,
    k: int,
    layer: usize,
    rows: Seq<int>,
)
    requires
        asked(q),
        steady(q, m),
        0 <= a <= b <= q.len(),
        0 <= k < q.g.nodes.len(),
        attends(q.g.nodes[k], layer as int),
        rows_have(q, m, wants(q, k), a, b),
        caches(q.token(0), m, between(q, a, b, k)),
        rows.no_duplicates(),
        forall|i: int| rows.contains(i) ==> a <= i < b,
    ensures
        ({
            let kk = q.g.nodes[k].inputs[1];
            let vv = q.g.nodes[k].inputs[2];
            let body = then(append_stmt(q.p, q.g, kk, vv, layer), Code::End);
            let r = in_turn(body, rows, m, q.u);
            &&& only_cache(r, m)
            &&& r.mem.contains_key(Buf::Kv)
            &&& r.mem[Buf::Kv].len() == m.mem[Buf::Kv].len()
            &&& forall|z: int|
                0 <= z < m.mem[Buf::Kv].len() ==> #[trigger] r.mem[Buf::Kv][z] == appended_at(
                    q,
                    m,
                    kk,
                    vv,
                    layer,
                    rows,
                    z,
                )
        }),
    decreases rows.len(),
{
    let kk = q.g.nodes[k].inputs[1];
    let vv = q.g.nodes[k].inputs[2];
    let append = append_stmt(q.p, q.g, kk, vv, layer);
    let body = then(append, Code::End);
    if rows.len() > 0 {
        let prior = rows.drop_last();
        let i = rows.last();
        assert(rows[rows.len() - 1] == i);
        assert(rows.contains(i));
        assert forall|j: int| rows.contains(j) <==> (prior.contains(j) || j == i) by {
            if rows.contains(j) {
                let n = choose|n: int| 0 <= n < rows.len() && rows[n] == j;
                if n < prior.len() {
                    assert(prior[n] == j);
                }
            }
            if prior.contains(j) {
                let n = choose|n: int| 0 <= n < prior.len() && prior[n] == j;
                assert(rows[n] == j);
            }
        }
        assert(!prior.contains(i));
        lemma_append_rows(q, m, a, b, k, layer, prior);
        let before = in_turn(body, prior, m, q.u);
        let at = at_row(before, i);
        let x = q.token(i);
        assert(row_has(q, m, wants(q, k), i));
        lemma_token_faces(q, m, i, k);
        lemma_input_row(x, q.after(i), at_row(m, i), k, q.vals(i, k), q.kept(i, k), 1);
        lemma_input_row(x, q.after(i), at_row(m, i), k, q.vals(i, k), q.kept(i, k), 2);
        lemma_after_grows(q, i, k, layer as int);
        assert(before.mem[Buf::Arena] == m.mem[Buf::Arena]);
        assert(row_len(q.g, kk) == q.p.kv_dim && row_len(q.g, vv) == q.p.kv_dim);
        assert(cache_counts(q.p, layer));
        assert(layer < q.g.n_layers);
        assert(caches(q.token(0), m, between(q, a, b, k)));
        assert(layer_base(q.token(0).p, layer) + 2 * region(q.p) <= m.mem[Buf::Kv].len());
        law_append_code(q.p, q.g, kk, vv, layer, at, q.u);
        let after = step(append, at, q.u);
        assert(run(body, at, q.u) == after) by {
            reveal_with_fuel(run, 2);
        }
        let r = in_turn(body, rows, m, q.u);
        assert(r == Machine { row: m.row, pos: m.pos, token: m.token, ..after });
        let s = m.mem[Buf::Arena];
        let d = q.p.kv_dim as nat;
        let key = row_of(s, place(q.p, q.g, kk, i), d).data;
        let value = row_of(s, place(q.p, q.g, vv, i), d).data;
        assert forall|z: int| 0 <= z < m.mem[Buf::Kv].len() implies #[trigger] r.mem[Buf::Kv][z]
            == appended_at(q, m, kk, vv, layer, rows, z) by {
            lemma_append_cell(
                q,
                before.mem[Buf::Kv],
                r.mem[Buf::Kv],
                key,
                value,
                layer,
                i,
                z,
            );
            assert(before.mem[Buf::Kv][z] == appended_at(q, m, kk, vv, layer, prior, z));
        }
        assert forall|c: Buf| c != Buf::Kv implies #[trigger] r.mem[c] == m.mem[c]
            && r.mem.contains_key(c) == m.mem.contains_key(c) by {
            assert(before.mem[c] == m.mem[c]);
        }
    }
}

/// The loop that appends the rows of a tile to a layer, in whatever order the workers
/// take them.
proof fn lemma_append_ordered(q: Prompt, m: Machine, a: int, b: int, k: int, layer: usize)
    requires
        asked(q),
        steady(q, m),
        0 <= a <= b <= q.len(),
        0 <= k < q.g.nodes.len(),
        attends(q.g.nodes[k], layer as int),
        rows_have(q, m, wants(q, k), a, b),
        caches(q.token(0), m, between(q, a, b, k)),
    ensures
        ({
            let kk = q.g.nodes[k].inputs[1];
            let vv = q.g.nodes[k].inputs[2];
            let body = then(append_stmt(q.p, q.g, kk, vv, layer), Code::End);
            let r = in_turn(body, (q.u.order)(a, (b - a) as nat), m, q.u);
            &&& only_cache(r, m)
            &&& caches(q.token(0), r, appending(q, a, b, k, layer as int, b))
        }),
{
    let kk = q.g.nodes[k].inputs[1];
    let vv = q.g.nodes[k].inputs[2];
    let body = then(append_stmt(q.p, q.g, kk, vv, layer), Code::End);
    let n = (b - a) as nat;
    let one = span(a, n);
    let two = (q.u.order)(a, n);
    assert forall|i: int| one.contains(i) <==> a <= i < b by {
        if a <= i < b {
            assert(one[i - a] == i);
        }
    }
    lemma_append_loop(q, m, a, b, k, layer, n);
    lemma_append_rows(q, m, a, b, k, layer, one);
    lemma_append_rows(q, m, a, b, k, layer, two);
    let r1 = in_turn(body, one, m, q.u);
    let r2 = in_turn(body, two, m, q.u);
    assert forall|z: int| 0 <= z < m.mem[Buf::Kv].len() implies r1.mem[Buf::Kv][z]
        == r2.mem[Buf::Kv][z] by {
        assert(r1.mem[Buf::Kv][z] == appended_at(q, m, kk, vv, layer, one, z));
        assert(r2.mem[Buf::Kv][z] == appended_at(q, m, kk, vv, layer, two, z));
    }
    assert(r1.mem[Buf::Kv] =~= r2.mem[Buf::Kv]);
    lemma_same_caches(
        q.token(0),
        q.token(0),
        r1,
        r2,
        appending(q, a, b, k, layer as int, b),
    );
}

/// What attention gives for row `i` out of the machine's cache.
pub open spec fn attended_row(
    q: Prompt,
    m: Machine,
    query: usize,
    layer: usize,
    n_heads: usize,
    n_kv_heads: usize,
    head_dim: usize,
    i: int,
) -> Seq<u32> {
    let s = m.mem[Buf::Kv];
    let n = (q.c.pos + i + 1) * q.p.kv_dim;
    let at = layer_base(q.p, layer);
    let from = at + region(q.p);
    attention_of(
        q.u.math,
        Attended {
            q: held(q.token(i), m, query),
            k: s.subrange(at, at + n),
            v: s.subrange(from, from + n),
            n_heads: n_heads as int,
            n_kv_heads: n_kv_heads as int,
            head_dim: head_dim as int,
            pos_off: q.c.pos + i,
        },
        1,
    ).data
}

/// Whether the attention kernel for a tile attends for each row as the scalar operation
/// does.
pub open spec fn attends_tiles(q: Prompt) -> bool {
    forall|
        m: Machine,
        query: usize,
        k: usize,
        v: usize,
        layer: usize,
        n_heads: usize,
        n_kv_heads: usize,
        head_dim: usize,
        out: usize,
        a: int,
        b: int,
    |
        #![trigger attend_tile(
            q,
            m,
            query,
            k,
            v,
            layer,
            n_heads,
            n_kv_heads,
            head_dim,
            out,
        ), panel_of(a, b)]
        placed(q.p, q.g, query) && placed(q.p, q.g, out) && row_len(q.g, query) == n_heads
            * head_dim && row_len(q.g, out) == n_heads * head_dim && q.p.kv_dim == n_kv_heads
            * head_dim && steady(q, m) && m.vars[TILE] == a && b == a + int_of(
            tile_count(q.p),
            m,
        ) && 0 <= a < b <= q.len() && q.c.pos + b <= q.p.max_seq_len && layer_base(q.p, layer) + 2
            * region(q.p) <= m.mem[Buf::Kv].len() && (forall|r: int, s: int|
            a <= r < b && a <= s < b ==> #[trigger] clear_of(q.p, q.g, query, r, out, s))
            ==> panel(
            q,
            attend_tile(q, m, query, k, v, layer, n_heads, n_kv_heads, head_dim, out),
            m,
            out,
            a,
            b,
            |i: int| attended_row(q, m, query, layer, n_heads, n_kv_heads, head_dim, i),
        )
}

/// The machine after the attention kernel has run for a tile.
pub open spec fn attend_tile(
    q: Prompt,
    m: Machine,
    query: usize,
    k: usize,
    v: usize,
    layer: usize,
    n_heads: usize,
    n_kv_heads: usize,
    head_dim: usize,
    out: usize,
) -> Machine {
    let st = StepV::Attention { q: query, k, v, layer, n_heads, n_kv_heads, head_dim, out };
    step(tile_attention_stmt(q.p, q.g, st), m, q.u)
}

/// What the interpreter gives for a token that attends is what attention gives for its
/// row, when all rows of the tile are in the cache.
proof fn lemma_attended_row(
    q: Prompt,
    m0: Machine,
    m: Machine,
    a: int,
    b: int,
    k: int,
    layer: usize,
    n_heads: u64,
    n_kv_heads: u64,
    head_dim: u64,
    i: int,
)
    requires
        asked(q),
        steady(q, m0),
        0 <= a <= i < b <= q.len(),
        0 <= k < q.g.nodes.len(),
        q.g.nodes[k].op == (Op::Attention { layer, n_heads, n_kv_heads, head_dim }),
        row_has(q, m0, wants(q, k), i),
        m.mem[Buf::Arena] == m0.mem[Buf::Arena],
        caches(q.token(0), m, appending(q, a, b, k, layer as int, b)),
    ensures
        q.vals(i, k + 1)[k].data == attended_row(
            q,
            m,
            q.g.nodes[k].inputs[0],
            layer,
            n_heads as usize,
            n_kv_heads as usize,
            head_dim as usize,
            i,
        ),
        n_heads as usize == n_heads && n_kv_heads as usize == n_kv_heads && head_dim as usize
            == head_dim,
{
    let n = q.g.nodes[k];
    let l = layer as int;
    let x = q.token(i);
    let vals = q.vals(i, k);
    let kv2 = cache_after(q.kept(i, k), vals, n);
    lemma_token_faces(q, m0, i, k);
    lemma_given(x, q.after(i), at_row(m0, i), k, vals, q.kept(i, k));
    lemma_input_row(x, q.after(i), at_row(m0, i), k, vals, q.kept(i, k), 0);
    crate::graph::interp::lemma_heads_fit(
        crate::graph::builder::width(n) as int,
        n_heads as int,
        n_kv_heads as int,
        head_dim as int,
    );
    lemma_after_grows(q, i, k, l);
    lemma_after_prefix(q, i + 1, b, k, l);
    let s = m.mem[Buf::Kv];
    let at = layer_base(q.p, layer);
    let from = at + region(q.p);
    let size = (q.c.pos + i + 1) * q.p.kv_dim;
    assert(q.c.pos + (i + 1) == q.c.pos + i + 1);
    let bk = q.after(b).k[l];
    let bv = q.after(b).v[l];
    assert(0 <= size) by (nonlinear_arith)
        requires
            size == (q.c.pos + i + 1) * q.p.kv_dim,
            0 <= i,
    ;
    assert(0 <= at) by {
        lemma_base(q.p, layer);
    }
    let now = appending(q, a, b, k, l, b);
    assert(now.k[l] == bk && now.v[l] == bv);
    lemma_layer_cached(q, m, now, layer);
    assert(s.subrange(at, at + bk.len()) == bk);
    assert(s.subrange(from, from + bv.len()) == bv);
    assert(s.subrange(at, at + size) =~= s.subrange(at, at + bk.len()).take(size));
    assert(s.subrange(from, from + size) =~= s.subrange(from, from + bv.len()).take(size));
    let query = n.inputs[0];
    let held_row = Attended {
        q: held(x, m, query),
        k: s.subrange(at, at + size),
        v: s.subrange(from, from + size),
        n_heads: (n_heads as usize) as int,
        n_kv_heads: (n_kv_heads as usize) as int,
        head_dim: (head_dim as usize) as int,
        pos_off: q.c.pos + i,
    };
    assert(held(x, m, query) == held(x, at_row(m0, i), query));
    assert(held_row == crate::graph::interp::attended(x.c, vals, kv2, n));
    reveal(node_value);
    assert(q.vals(i, k + 1)[k] == attention_of(x.c.math, held_row, 1));
}

/// A layer starts behind the beginning.
proof fn lemma_base(p: PlanV, layer: usize)
    ensures
        0 <= layer_base(p, layer),
        0 <= region(p),
{
    let s = p.max_seq_len as int;
    let d = p.kv_dim as int;
    assert(0 <= layer * s * d * 2 && 0 <= s * d) by (nonlinear_arith)
        requires
            0 <= layer,
            0 <= s,
            0 <= d,
    ;
}

/// The code of a tile carries out a node that attends.
#[verifier::rlimit(60)]
proof fn lemma_tile_attention(
    q: Prompt,
    slots: Option<Seq<Seq<char>>>,
    m: Machine,
    a: int,
    b: int,
    k: int,
    layer: usize,
    n_heads: u64,
    n_kv_heads: u64,
    head_dim: u64,
)
    requires
        asked(q),
        attends_tiles(q),
        tile_holds(q, m, a, b, k),
        0 <= k < q.g.nodes.len(),
        q.g.nodes[k].op == (Op::Attention { layer, n_heads, n_kv_heads, head_dim }),
    ensures
        tile_holds(
            q,
            tile_all(q, slots, node_steps(q.p, q.g, k as nat), m),
            a,
            b,
            k + 1,
        ),
{
    let n = q.g.nodes[k];
    let l = layer as int;
    let out = (k + 1) as usize;
    let (query, kk, vv) = (n.inputs[0], n.inputs[1], n.inputs[2]);
    let (nh, nkv, hd) = (n_heads as usize, n_kv_heads as usize, head_dim as usize);
    let st = StepV::Attention {
        q: query,
        k: kk,
        v: vv,
        layer,
        n_heads: nh,
        n_kv_heads: nkv,
        head_dim: hd,
        out,
    };
    assert(node_steps(q.p, q.g, k as nat) == seq![st]);
    lemma_tile_one(q, slots, st, m);
    lemma_turns(q, k);

    // The rows of keys and values go to the cache.
    let body = then(append_stmt(q.p, q.g, kk, vv, layer), Code::End);
    let appends = tile_tokens(q.p, body);
    let m1 = step(appends, m, q.u);
    assert(int_of(tile_first(), m) == a);
    assert(m1 == in_turn(body, (q.u.order)(a, (b - a) as nat), m, q.u));
    assert(attends(n, l));
    lemma_append_ordered(q, m, a, b, k, layer);
    lemma_after_grows(q, a, k, l);
    lemma_appending(q, a, b, k, l);
    assert(run(then(appends, Code::End), m, q.u) == m1) by {
        reveal_with_fuel(run, 2);
    }
    assert(m1.vars[TILE] == a) by {
        lemma_append_spares(q.p, q.g, kk, vv, layer);
        assert(spares(then(appends, Code::End), TILE)) by {
            reveal_with_fuel(spares, 3);
            reveal_with_fuel(spares_in, 3);
        }
        lemma_spared(then(appends, Code::End), m, q.u, TILE);
    }
    assert(m1.mem[Buf::Arena] == m.mem[Buf::Arena]);
    assert(steady(q, m1)) by {
        lemma_equipped(q.token(0), m, m1);
        assert(m1.mem[Buf::Logits] == m.mem[Buf::Logits]);
        assert(m1.mem[Buf::Cell(0)] == m.mem[Buf::Cell(0)]);
    }
    assert(int_of(tile_count(q.p), m1) == int_of(tile_count(q.p), m)) by {
        reveal_with_fuel(int_of, 3);
    }
    let w = wants(q, k);
    assert forall|i: int| a <= i < b implies #[trigger] row_has(q, m1, w, i) by {
        assert(row_has(q, m, w, i));
        assert forall|j: usize| 1 <= j <= q.g.nodes.len() && #[trigger] (w.on)(j) implies held(
            q.token(i),
            m1,
            j,
        ) == (w.data)(i, j) by {
            assert(held(q.token(i), m1, j) == held(q.token(i), m, j));
        }
    }

    // The kernel attends for all rows.
    let m2 = attend_tile(q, m1, query, kk, vv, layer, nh, nkv, hd, out);
    let f = |i: int| attended_row(q, m1, query, layer, nh, nkv, hd, i);
    lemma_token_faces(q, m, a, k);
    let x = q.token(a);
    lemma_given(x, q.after(a), at_row(m, a), k, q.vals(a, k), q.kept(a, k));
    lemma_input_row(x, q.after(a), at_row(m, a), k, q.vals(a, k), q.kept(a, k), 0);
    lemma_attended_row(q, m, m1, a, b, k, layer, n_heads, n_kv_heads, head_dim, a);
    assert forall|r: int, s: int| a <= r < b && a <= s < b implies #[trigger] clear_of(
        q.p,
        q.g,
        query,
        r,
        out,
        s,
    ) by {
        if r == s {
            assert(readable(q.p, q.g, k, q.g.nodes[k].inputs[0], r));
        } else {
            assert(q.g.nodes[k].inputs[0] == query);
            assert(needed(q.g, query as int, out - 1));
        }
    }
    assert(panel_of(a, b));
    lemma_layer_cached(q, m1, between(q, a, b, k + 1), layer);
    assert(panel(q, m2, m1, out, a, b, f));
    let v = wants(q, k + 1);
    assert forall|i: int| a <= i < b implies #[trigger] (v.data)(i, out) == f(i) by {
        assert(row_has(q, m, w, i));
        lemma_attended_row(q, m, m1, a, b, k, layer, n_heads, n_kv_heads, head_dim, i);
    }
    assert forall|j: usize, r: int, s: int|
        1 <= j <= q.g.nodes.len() && j != out && (v.on)(j) && 0 <= r < q.len() && 0 <= s
            < q.len() implies #[trigger] clear_of(q.p, q.g, j, r, out, s) by {
        assert((w.on)(j));
        assert(needed(q.g, j as int, out - 1));
    }
    lemma_panel_turned(q, m2, m1, w, v, out, a, b, f);
    let kv = between(q, a, b, k + 1);
    lemma_tile_kept(q, m2, m1, kv);

    // Both are timed.
    let attend = tile_attention_stmt(q.p, q.g, st);
    let label = label_of(st, q.p, q.c.model);
    let last = timed(slots, label, then(attend, Code::End), Code::End);
    lemma_timed_run(slots, KV_APPEND_LABEL@, then(appends, Code::End), last, m, q.u);
    lemma_timed_run(slots, label, then(attend, Code::End), Code::End, m1, q.u);
    assert(run(then(attend, Code::End), m1, q.u) == m2) by {
        reveal_with_fuel(run, 2);
    }
    assert(tile_effect(q, slots, st, m) == m2);
}

/// One node more.
proof fn lemma_tile_node(
    q: Prompt,
    slots: Option<Seq<Seq<char>>>,
    m: Machine,
    a: int,
    b: int,
    k: int,
)
    requires
        asked(q),
        multiplies_tiles(q),
        attends_tiles(q),
        tile_holds(q, m, a, b, k),
        0 <= k < q.g.nodes.len(),
    ensures
        tile_holds(
            q,
            tile_all(q, slots, node_steps(q.p, q.g, k as nat), m),
            a,
            b,
            k + 1,
        ),
{
    match q.g.nodes[k].op {
        Op::MatMul { weight, bias } => {
            let t = match bias {
                Some(t) => Some(t.0),
                None => None,
            };
            lemma_tile_matmul(q, slots, m, a, b, k, weight.0, t);
        },
        Op::Attention { layer, n_heads, n_kv_heads, head_dim } => {
            lemma_tile_attention(
                q,
                slots,
                m,
                a,
                b,
                k,
                layer,
                n_heads,
                n_kv_heads,
                head_dim,
            );
        },
        _ => {
            let st = node_steps(q.p, q.g, k as nat)[0];
            assert(node_steps(q.p, q.g, k as nat) =~= seq![st]);
            lemma_tile_one(q, slots, st, m);
            lemma_effect_tokens(q, slots, st, m);
            lemma_tile_plain(q, m, a, b, k, st);
        },
    }
}

/// The steps of the first `k` nodes take a tile where the interpreter is.
proof fn lemma_tile_nodes(
    q: Prompt,
    slots: Option<Seq<Seq<char>>>,
    m: Machine,
    a: int,
    b: int,
    k: nat,
)
    requires
        asked(q),
        multiplies_tiles(q),
        attends_tiles(q),
        tile_holds(q, m, a, b, 0),
        k <= q.g.nodes.len(),
    ensures
        tile_holds(
            q,
            tile_all(q, slots, nodes_steps(q.p, q.g, 0, k), m),
            a,
            b,
            k as int,
        ),
    decreases k,
{
    if k > 0 {
        let j = (k - 1) as nat;
        lemma_tile_nodes(q, slots, m, a, b, j);
        let before = tile_all(q, slots, nodes_steps(q.p, q.g, 0, j), m);
        lemma_tile_node(q, slots, before, a, b, j as int);
        lemma_tile_more(
            q,
            slots,
            nodes_steps(q.p, q.g, 0, j),
            node_steps(q.p, q.g, j),
            m,
        );
    }
}

/// The code of a step for a tile, and what follows.
proof fn lemma_effect_then(
    q: Prompt,
    slots: Option<Seq<Seq<char>>>,
    st: StepV,
    rest: Code,
    m: Machine,
)
    ensures
        run(tile_step_code(q.p, q.g, q.c.model, slots, st, rest), m, q.u) == run(
            rest,
            tile_effect(q, slots, st, m),
            q.u,
        ),
{
    let label = label_of(st, q.p, q.c.model);
    match st {
        StepV::Gemv { symbol: _, weight, out, rows, k } => {
            let body = gemm_code(q.p, q.g, weight, out, rows, k, Code::End);
            lemma_timed_run(slots, label, body, rest, m, q.u);
            lemma_timed_run(slots, label, body, Code::End, m, q.u);
        },
        StepV::Quantize { .. } => {},
        StepV::Attention { q: _, k, v, layer, .. } => {
            let appends = then(
                tile_tokens(q.p, then(append_stmt(q.p, q.g, k, v, layer), Code::End)),
                Code::End,
            );
            let attend = then(tile_attention_stmt(q.p, q.g, st), Code::End);
            let more = timed(slots, label, attend, rest);
            let last = timed(slots, label, attend, Code::End);
            lemma_timed_run(slots, KV_APPEND_LABEL@, appends, more, m, q.u);
            lemma_timed_run(slots, KV_APPEND_LABEL@, appends, last, m, q.u);
            let m1 = run(appends, m, q.u);
            lemma_timed_run(slots, label, attend, rest, m1, q.u);
            lemma_timed_run(slots, label, attend, Code::End, m1, q.u);
        },
        _ => {
            let body = then(
                tile_tokens(q.p, step_code(q.p, q.g, st, Code::End)),
                Code::End,
            );
            lemma_timed_run(slots, label, body, rest, m, q.u);
            lemma_timed_run(slots, label, body, Code::End, m, q.u);
        },
    }
}

/// The code of steps for a tile runs them.
proof fn lemma_tile_steps_run(
    q: Prompt,
    slots: Option<Seq<Seq<char>>>,
    steps: Seq<StepV>,
    j: nat,
    rest: Code,
    m: Machine,
)
    requires
        j <= steps.len(),
    ensures
        run(
            tile_steps_code(q.p, q.g, q.c.model, slots, steps, j, rest),
            tile_all(q, slots, steps.take(j as int), m),
            q.u,
        ) == run(rest, tile_all(q, slots, steps, m), q.u),
    decreases steps.len() - j,
{
    let at = tile_all(q, slots, steps.take(j as int), m);
    if j == steps.len() {
        assert(steps.take(j as int) =~= steps);
    } else {
        let st = steps[j as int];
        let more = tile_steps_code(q.p, q.g, q.c.model, slots, steps, j + 1, rest);
        lemma_effect_then(q, slots, st, more, at);
        let next = steps.take((j + 1) as int);
        assert(next.drop_last() =~= steps.take(j as int));
        assert(next.last() == st);
        lemma_tile_steps_run(q, slots, steps, j + 1, rest, m);
    }
}

/// The code of a tile runs the steps of all nodes.
proof fn lemma_tile_code_run(q: Prompt, slots: Option<Seq<Seq<char>>>, i: nat, m: Machine)
    requires
        in_sequence(q.p, q.g),
        i <= q.p.islands.len(),
    ensures
        run(
            tile_code(q.p, q.g, q.c.model, slots, program(q.p, q.g), i),
            tile_all(q, slots, nodes_steps(q.p, q.g, 0, reached(q.p, i as int)), m),
            q.u,
        ) == tile_all(q, slots, nodes_steps(q.p, q.g, 0, q.g.nodes.len()), m),
    decreases q.p.islands.len() - i,
{
    let c = program(q.p, q.g);
    if i < q.p.islands.len() {
        let isl = q.p.islands[i as int];
        let (a, b) = (isl.first as nat, isl.end as nat);
        let steps = nodes_steps(q.p, q.g, a, b);
        assert(c[i as int].steps == steps);
        let more = tile_code(q.p, q.g, q.c.model, slots, c, i + 1);
        let at = tile_all(q, slots, nodes_steps(q.p, q.g, 0, a), m);
        lemma_tile_steps_run(q, slots, steps, 0, more, at);
        assert(steps.take(0) =~= Seq::<StepV>::empty());
        assert(tile_all(q, slots, steps.take(0), at) == at);
        lemma_nodes_join(q.p, q.g, a, b);
        lemma_tile_more(q, slots, nodes_steps(q.p, q.g, 0, a), steps, m);
        lemma_tile_code_run(q, slots, i + 1, m);
    }
}

/// What matters of a cache is its keys and values.
proof fn lemma_caches_by_rows(q: Prompt, m: Machine, a: KvV, b: KvV)
    requires
        caches(q.token(0), m, a),
        a.k == b.k,
        a.v == b.v,
    ensures
        caches(q.token(0), m, b),
{
}

/// Before any node of a tile has run, and when all have.
proof fn lemma_between_ends(q: Prompt, a: int, b: int)
    requires
        asked(q),
        0 <= a < b <= q.len(),
    ensures
        between(q, a, b, 0).k == q.after(a).k,
        between(q, a, b, 0).v == q.after(a).v,
        between(q, a, b, q.g.nodes.len() as int).k == q.after(b).k,
        between(q, a, b, q.g.nodes.len() as int).v == q.after(b).v,
{
    let total = q.g.nodes.len() as int;
    lemma_token_fed(q, a);
    lemma_token_fed(q, b - 1);
    assert forall|l: int| !layer_attends(q.g.nodes.take(0), l) by {}
    assert(q.g.nodes.take(total) =~= q.g.nodes);
    reveal(layers_ascend);
    assert(between(q, a, b, 0).k =~= q.after(a).k);
    assert(between(q, a, b, 0).v =~= q.after(a).v);
    assert(between(q, a, b, total).k =~= q.after(b).k);
    assert(between(q, a, b, total).v =~= q.after(b).v);
}

/// Whether the machine is where the interpreter is when the first `n` tokens have run.
pub open spec fn prompt_holds(q: Prompt, m: Machine, n: int) -> bool {
    &&& steady(q, m)
    &&& caches(q.token(0), m, q.after(n))
    &&& n > 0 ==> held(q.token(n - 1), m, q.g.output) == run_of(
        q.feed(n - 1),
        q.g,
        q.after(n - 1),
    ).0->Ok_0.data
}

/// The code of a tile takes the machine where the interpreter is behind its tokens.
proof fn lemma_tile(
    q: Prompt,
    slots: Option<Seq<Seq<char>>>,
    m: Machine,
    a: int,
    b: int,
)
    requires
        asked(q),
        multiplies_tiles(q),
        attends_tiles(q),
        in_sequence(q.p, q.g),
        prompt_holds(q, m, a),
        0 <= a < b <= q.len(),
        m.vars[TILE] == a,
        b == a + int_of(tile_count(q.p), m),
    ensures
        prompt_holds(
            q,
            run(tile_code(q.p, q.g, q.c.model, slots, program(q.p, q.g), 0), m, q.u),
            b,
        ),
{
    let total = q.g.nodes.len();
    lemma_between_ends(q, a, b);
    lemma_caches_by_rows(q, m, q.after(a), between(q, a, b, 0));
    assert(tile_holds(q, m, a, b, 0));
    lemma_tile_nodes(q, slots, m, a, b, total);
    lemma_tile_code_run(q, slots, 0, m);
    assert(nodes_steps(q.p, q.g, 0, 0) =~= Seq::<StepV>::empty());
    assert(tile_all(q, slots, nodes_steps(q.p, q.g, 0, 0), m) == m);
    let r = tile_all(q, slots, nodes_steps(q.p, q.g, 0, total), m);
    lemma_caches_by_rows(q, r, between(q, a, b, total as int), q.after(b));
    let out = q.g.output;
    lemma_token_fed(q, b - 1);
    lemma_token_vals(q, b - 1, total as int);
    assert(row_has(q, r, wants(q, total as int), b - 1));
    assert(needed(q.g, out as int, total as int));
    assert((wants(q, total as int).on)(out));
    assert(held(q.token(b - 1), r, out) == (wants(q, total as int).data)(b - 1, out));
}

/// The first `k` tiles.
proof fn lemma_tiles(q: Prompt, slots: Option<Seq<Seq<char>>>, m: Machine, k: nat)
    requires
        asked(q),
        multiplies_tiles(q),
        attends_tiles(q),
        in_sequence(q.p, q.g),
        prompt_holds(q, m, 0),
        0 < q.p.prefill_tile <= u64::MAX,
        k <= trips(0, q.len(), q.p.prefill_tile as u64),
    ensures
        prompt_holds(
            q,
            iterate(
                tile_code(q.p, q.g, q.c.model, slots, program(q.p, q.g), 0),
                TILE,
                0,
                q.p.prefill_tile as u64,
                k,
                m,
                q.u,
            ),
            tiled(q.len(), q.p.prefill_tile as int, k) as int,
        ),
    decreases k,
{
    let n = q.len();
    let t = q.p.prefill_tile as int;
    let code = tile_code(q.p, q.g, q.c.model, slots, program(q.p, q.g), 0);
    if k == 0 {
        assert(k * t == 0) by (nonlinear_arith)
            requires
                k == 0,
        ;
    } else {
        let j = (k - 1) as nat;
        lemma_tiles(q, slots, m, j);
        let before = iterate(code, TILE, 0, q.p.prefill_tile as u64, j, m, q.u);
        let mm = Machine { vars: before.vars.insert(TILE, j * t), ..before };
        assert(0 + (k - 1) * (q.p.prefill_tile as u64) == j * t);
        law_tiles_cover_the_prompt(q.p, mm, j, 0);
        reveal_with_fuel(int_of, 3);
        let a = j * t;
        let count = int_of(tile_count(q.p), mm);
        assert((j + 1) * t == j * t + t) by (nonlinear_arith);
        assert(0 <= a) by (nonlinear_arith)
            requires
                a == j * t,
                0 <= j,
                0 < t,
        ;
        assert(tiled(n, t, j) == a);
        assert(tiled(n, t, k) == a + count);
        assert(prompt_holds(q, mm, a)) by {
            assert(mm.mem == before.mem);
            lemma_equipped(q.token(0), before, mm);
            lemma_same_caches(q.token(0), q.token(0), before, mm, q.after(a));
            if a > 0 {
                assert(held(q.token(a - 1), mm, q.g.output) == held(
                    q.token(a - 1),
                    before,
                    q.g.output,
                ));
            }
        }
        lemma_tile(q, slots, mm, a, a + count);
    }
}

/// The code for a prompt does what the interpreter does: it leaves the interpreter's
/// logits of the last token behind, bit for bit, and in the cache what the
/// interpreter's cache holds; with profiler slots or without, and whatever the length
/// of the tiles. The plan must have room for every row and give every value a place as
/// long as it is needed, and the kernels must multiply and attend as the scalar
/// operations do.
pub proof fn law_prefill_is_the_interpreter(
    q: Prompt,
    slots: Option<Seq<Seq<char>>>,
    m: Machine,
)
    requires
        asked(q),
        multiplies_tiles(q),
        attends_tiles(q),
        in_sequence(q.p, q.g),
        steady(q, m),
        caches(q.token(0), m, q.kv),
        0 < q.p.prefill_tile <= u64::MAX,
    ensures
        ({
            let r = run(
                prefill_code(q.p, q.g, q.c.model, slots, program(q.p, q.g)),
                m,
                q.u,
            );
            let (whole, kept) = run_of(q.c, q.g, q.kv);
            &&& r.mem[Buf::Logits] == tail_of(whole->Ok_0, (q.len() - 1) as nat).data
            &&& caches(q.token(0), r, kept)
            &&& steady(q, r)
        }),
{
    let n = q.len();
    let t = q.p.prefill_tile as int;
    lemma_token_fed(q, 0);
    lemma_after_none(q);
    lemma_caches_by_rows(q, m, q.kv, q.after(0));
    let k = trips(0, n, q.p.prefill_tile as u64);
    lemma_tiles(q, slots, m, k);
    let code = tile_code(q.p, q.g, q.c.model, slots, program(q.p, q.g), 0);
    let tiles = Stmt::Loop {
        var: TILE,
        from: Int::Const(0),
        to: Int::Arg(0),
        step: q.p.prefill_tile as u64,
        body: Box::new(code),
    };
    assert(int_of(Int::Const(0), m) == 0 && int_of(Int::Arg(0), m) == n);
    let done = step(tiles, m, q.u);
    assert(done == iterate(code, TILE, 0, q.p.prefill_tile as u64, k, m, q.u));
    assert(tiled(n, t, k) == n) by {
        vstd::arithmetic::div_mod::lemma_fundamental_div_mod(n + t - 1, t);
        assert(t * k == k * t) by (nonlinear_arith);
    }
    assert(prompt_holds(q, done, n));

    // The logits of the last row are copied out.
    let row = Int::Minus(Box::new(Int::Arg(0)), Box::new(Int::Const(1)));
    let last = logits_stmt(q.p, q.g, row);
    let out = q.g.output;
    assert(int_of(row, done) == n - 1) by {
        reveal_with_fuel(int_of, 3);
    }
    lemma_token_fed(q, n - 1);
    lemma_widths(q.token(0), out);
    lemma_room(q.p, q.g, q.c.model, n, out, n - 1);
    law_logits_code(q.p, q.g, row, done, q.u);
    let r = step(last, done, q.u);
    let at = place(q.p, q.g, out, n - 1);
    let copy = Seq::new(row_len(q.g, out), |i: int| done.mem[Buf::Arena][at + i]);
    assert(copy =~= held(q.token(n - 1), done, out));
    assert(patched(done.mem[Buf::Logits], 0, copy) =~= copy);
    assert(run(prefill_code(q.p, q.g, q.c.model, slots, program(q.p, q.g)), m, q.u) == r) by {
        let rest = then(last, Code::End);
        assert(run(then(tiles, rest), m, q.u) == run(rest, done, q.u));
        assert(run(rest, done, q.u) == run(Code::End, r, q.u));
        assert(run(Code::End, r, q.u) == r);
    }

    // The last token alone is the end of the whole run.
    law_prefill_then_decode(q.c, q.g, q.kv, (n - 1) as nat);
    assert(first_feed(q.c, n as nat) == q.c) by {
        assert(q.c.tokens.take(n) =~= q.c.tokens);
    }
    assert(q.feed(n - 1) == second_feed(q.c, (n - 1) as nat));
    assert(r.mem[Buf::Kv] == done.mem[Buf::Kv]);
    lemma_same_caches(q.token(0), q.token(0), done, r, q.after(n));
    lemma_equipped(q.token(0), done, r);
}

/// How long tiles are does not show: for two plans that differ in nothing else, the
/// code for a prompt leaves the same logits behind.
pub proof fn law_tile_length_does_not_show(
    q: Prompt,
    length: usize,
    slots: Option<Seq<Seq<char>>>,
    m: Machine,
)
    requires
        ({
            let other = Prompt { p: PlanV { prefill_tile: length, ..q.p }, ..q };
            &&& asked(q) && asked(other)
            &&& multiplies_tiles(q) && multiplies_tiles(other)
            &&& attends_tiles(q) && attends_tiles(other)
            &&& in_sequence(q.p, q.g) && in_sequence(other.p, q.g)
            &&& steady(q, m) && steady(other, m)
            &&& caches(q.token(0), m, q.kv) && caches(other.token(0), m, q.kv)
            &&& 0 < q.p.prefill_tile <= u64::MAX
            &&& 0 < length <= u64::MAX
        }),
    ensures
        ({
            let p2 = PlanV { prefill_tile: length, ..q.p };
            let d = q.c.model;
            let one = run(prefill_code(q.p, q.g, d, slots, program(q.p, q.g)), m, q.u);
            let two = run(prefill_code(p2, q.g, d, slots, program(p2, q.g)), m, q.u);
            one.mem[Buf::Logits] == two.mem[Buf::Logits]
        }),
{
    let other = Prompt { p: PlanV { prefill_tile: length, ..q.p }, ..q };
    law_prefill_is_the_interpreter(q, slots, m);
    law_prefill_is_the_interpreter(other, slots, m);
}

/// No token leaves the cache as it is.
proof fn lemma_after_none(q: Prompt)
    requires
        asked(q),
    ensures
        q.after(0).k == q.kv.k,
        q.after(0).v == q.kv.v,
{
    let c0 = first_feed(q.c, 0);
    law_prefill_then_decode(q.c, q.g, q.kv, 0);
    lemma_cache_so_far(c0, q.g, q.kv, q.g.nodes.len());
    assert forall|l: int| 0 <= l < q.kv.k.len() implies q.after(0).k[l] == q.kv.k[l] by {
        assert(q.after(0).k[l].len() == q.kv.k[l].len());
        assert(q.after(0).k[l] =~= q.kv.k[l]);
    }
    assert forall|l: int| 0 <= l < q.kv.v.len() implies q.after(0).v[l] == q.kv.v[l] by {
        assert(q.after(0).v[l].len() == q.kv.v[l].len());
        assert(q.after(0).v[l] =~= q.kv.v[l]);
    }
    assert(q.after(0).k =~= q.kv.k);
    assert(q.after(0).v =~= q.kv.v);
}

} // verus!
