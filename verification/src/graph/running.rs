//! What a run of a graph gives: every node's value out of those that it takes, and what is
//! left in the cache.

use vstd::prelude::*;

use crate::formats::desc::{checked_product, ModelV};
use crate::formats::quant::decoded;
use crate::graph::error::GraphFault;
use crate::graph::interp::{
    new_cache, node_value, run_of, run_to, weight_of, Feed, KvV,
};
use crate::graph::ir::{GraphV, Op};
use crate::graph::ops::{
    added, attention_of, embedded, matmul_of, rmsnorm_of, rope_of, swiglu_of, ArrayV, Attended,
};

verus! {

/// A run of fewer nodes is the beginning of a run of more.
proof fn lemma_run_prefix(c: Feed, g: GraphV, kv: KvV, i: nat, k: nat)
    requires
        i <= k,
        run_to(c, g, kv, k).0 is Ok,
    ensures
        run_to(c, g, kv, i).0 is Ok,
        run_to(c, g, kv, k).0->Ok_0.len() == k,
        run_to(c, g, kv, i).0->Ok_0 == run_to(c, g, kv, k).0->Ok_0.take(i as int),
    decreases k,
{
    if k > 0 {
        lemma_run_prefix(c, g, kv, if i < k {
            i
        } else {
            (k - 1) as nat
        }, (k - 1) as nat);
        let a = run_to(c, g, kv, (k - 1) as nat).0->Ok_0;
        let b = run_to(c, g, kv, k).0->Ok_0;
        if i < k {
            assert(a.take(i as int) =~= b.take(i as int));
        } else {
            assert(b.take(k as int) =~= b);
        }
    } else {
        assert(run_to(c, g, kv, 0).0->Ok_0.take(0) =~= run_to(c, g, kv, 0).0->Ok_0);
    }
}

/// Whether a value is what node `n` makes of values, with the weights that it names and the
/// cache `kv` as it was before the node: sums and gated products of its two inputs in order,
/// products and norms of its input with its weight, embeddings of the tokens, its input turned
/// from the position of the first token on, and attention of its first input to the keys and
/// values of its layer, behind which stand those of its second and third.
pub open spec fn made(c: Feed, vals: Seq<ArrayV>, kv: KvV, g: GraphV, n: int, y: ArrayV) -> bool {
    let node = g.nodes[n];
    let a = vals[node.inputs[0] - 1];
    let b = vals[node.inputs[1] - 1];
    let d = vals[node.inputs[2] - 1];
    match node.op {
        Op::Embed { weight } => match weight_of(c.model, c.files, weight.0 as int) {
            Ok(w) => embedded(
                c.tokens,
                w,
                c.model.hyperparams.vocab_size as usize,
                c.model.hyperparams.hidden_size as usize,
            ) == Ok::<ArrayV, GraphFault>(y),
            Err(_) => false,
        },
        Op::MatMul { weight, bias } => {
            let shape = c.model.tensors[weight.0 as int].shape;
            match (weight_of(c.model, c.files, weight.0 as int), bias) {
                (Ok(w), None) => y == matmul_of(a, w, shape[0] as usize, shape[1] as usize, None),
                (Ok(w), Some(t)) => match weight_of(c.model, c.files, t.0 as int) {
                    Ok(add) => y == matmul_of(
                        a,
                        w,
                        shape[0] as usize,
                        shape[1] as usize,
                        Some(add),
                    ),
                    Err(_) => false,
                },
                _ => false,
            }
        },
        Op::RmsNorm { weight, eps, head_dim } => match weight_of(
            c.model,
            c.files,
            weight.0 as int,
        ) {
            Ok(w) => y == rmsnorm_of(
                c.math,
                a,
                w,
                eps,
                match head_dim {
                    Some(h) => h as usize as nat,
                    None => a.shape[1] as nat,
                },
            ),
            Err(_) => false,
        },
        Op::Rope { theta, style, n_heads, head_dim } => y == rope_of(
            c.math,
            a,
            n_heads as nat,
            head_dim as int,
            theta,
            style,
            c.pos as int,
        ),
        Op::Attention { layer, n_heads, n_kv_heads, head_dim } => y == attention_of(
            c.math,
            Attended {
                q: a.data,
                k: kv.k[layer as int] + b.data,
                v: kv.v[layer as int] + d.data,
                n_heads: n_heads as int,
                n_kv_heads: n_kv_heads as int,
                head_dim: head_dim as int,
                pos_off: c.pos as int,
            },
            a.shape[0],
        ),
        Op::SwiGlu => y == swiglu_of(c.math, a, b),
        Op::Add => y == added(a, b),
    }
}

/// In a run that succeeds, the value of every node is made of values before it.
pub proof fn law_nodes_make_their_values(c: Feed, g: GraphV, kv: KvV, i: nat)
    requires
        i < g.nodes.len(),
        run_to(c, g, kv, g.nodes.len()).0 is Ok,
        forall|j: int|
            0 <= j < g.nodes[i as int].inputs.len() ==> 1 <= #[trigger] g.nodes[i as int].inputs[j]
                <= i,
        g.nodes[i as int].inputs.len() >= (match g.nodes[i as int].op {
            Op::Embed { .. } => 0int,
            Op::SwiGlu => 2,
            Op::Add => 2,
            Op::Attention { .. } => 3,
            _ => 1,
        }),
        g.nodes[i as int].op matches Op::Attention { layer, .. } ==> layer < run_to(c, g, kv, i).1.k.len()
            && layer < run_to(c, g, kv, i).1.v.len(),
    ensures
        ({
            let vals = run_to(c, g, kv, g.nodes.len()).0->Ok_0;
            vals.len() == g.nodes.len() && made(
                c,
                vals,
                run_to(c, g, kv, i).1,
                g,
                i as int,
                vals[i as int],
            )
        }),
{
    reveal(node_value);
    let n = g.nodes.len();
    let vals = run_to(c, g, kv, n).0->Ok_0;
    lemma_run_prefix(c, g, kv, i, n);
    lemma_run_prefix(c, g, kv, i + 1, n);
    let before = run_to(c, g, kv, i).0->Ok_0;
    let after = run_to(c, g, kv, i + 1).0->Ok_0;
    assert(after[i as int] == vals[i as int]);
    let node = g.nodes[i as int];
    if node.inputs.len() > 0 {
        assert(1 <= node.inputs[0] <= i);
        assert(before[node.inputs[0] - 1] == vals[node.inputs[0] - 1]);
    }
    if node.inputs.len() > 1 {
        assert(1 <= node.inputs[1] <= i);
        assert(before[node.inputs[1] - 1] == vals[node.inputs[1] - 1]);
    }
    if node.inputs.len() > 2 {
        assert(1 <= node.inputs[2] <= i);
        assert(before[node.inputs[2] - 1] == vals[node.inputs[2] - 1]);
    }
}

/// The rows of a layer, when the first `k` nodes have run: those that were, and behind them
/// the keys or values of its attention, once that has run.
proof fn lemma_layer_rows(c: Feed, g: GraphV, kv: KvV, at: nat, layer: usize, k: nat)
    requires
        k <= g.nodes.len(),
        at < g.nodes.len(),
        run_to(c, g, kv, g.nodes.len()).0 is Ok,
        g.nodes[at as int].op matches Op::Attention { layer: l, .. } && l == layer,
        forall|i: int|
            0 <= i < g.nodes.len() && i != at ==> !(#[trigger] g.nodes[i].op matches Op::Attention {
                layer: l,
                ..
            } && l == layer),
        forall|j: int|
            0 <= j < g.nodes[at as int].inputs.len() ==> 1 <= #[trigger] g.nodes[at as int].inputs[j]
                <= at,
        g.nodes[at as int].inputs.len() >= 3,
        forall|i: int|
            0 <= i < g.nodes.len() ==> (#[trigger] g.nodes[i].op matches Op::Attention {
                layer: l,
                ..
            } ==> l < kv.k.len() && l < kv.v.len()),
    ensures
        ({
            let vals = run_to(c, g, kv, g.nodes.len()).0->Ok_0;
            let kv1 = run_to(c, g, kv, k).1;
            let node = g.nodes[at as int];
            let l = layer as int;
            &&& kv1.k.len() == kv.k.len()
            &&& kv1.v.len() == kv.v.len()
            &&& kv1.len == kv.len
            &&& kv1.max_seq_len == kv.max_seq_len
            &&& kv1.kv_dim == kv.kv_dim
            &&& kv1.k[l] == if k > at {
                kv.k[l] + vals[node.inputs[1] - 1].data
            } else {
                kv.k[l]
            }
            &&& kv1.v[l] == if k > at {
                kv.v[l] + vals[node.inputs[2] - 1].data
            } else {
                kv.v[l]
            }
        }),
    decreases k,
{
    if k > 0 {
        let i = (k - 1) as nat;
        lemma_layer_rows(c, g, kv, at, layer, i);
        lemma_run_prefix(c, g, kv, i, g.nodes.len());
        let vals = run_to(c, g, kv, g.nodes.len()).0->Ok_0;
        let before = run_to(c, g, kv, i).0->Ok_0;
        let node = g.nodes[i as int];
        if i == at {
            assert(1 <= node.inputs[1] <= at && 1 <= node.inputs[2] <= at);
            assert(before[node.inputs[1] - 1] == vals[node.inputs[1] - 1]);
            assert(before[node.inputs[2] - 1] == vals[node.inputs[2] - 1]);
        }
    }
}

/// A run that succeeds gives the value of the output, and leaves the cache longer by the
/// tokens: in each layer, the keys and values that its attention took stand behind those that
/// were there.
pub proof fn law_a_run_fills_the_cache(c: Feed, g: GraphV, kv: KvV, at: nat, layer: usize)
    requires
        run_of(c, g, kv).0 is Ok,
        at < g.nodes.len(),
        g.nodes[at as int].op matches Op::Attention { layer: l, .. } && l == layer,
        forall|i: int|
            0 <= i < g.nodes.len() && i != at ==> !(#[trigger] g.nodes[i].op matches Op::Attention {
                layer: l,
                ..
            } && l == layer),
        forall|j: int|
            0 <= j < g.nodes[at as int].inputs.len() ==> 1 <= #[trigger] g.nodes[at as int].inputs[j]
                <= at,
        g.nodes[at as int].inputs.len() >= 3,
        forall|i: int|
            0 <= i < g.nodes.len() ==> (#[trigger] g.nodes[i].op matches Op::Attention {
                layer: l,
                ..
            } ==> l < kv.k.len() && l < kv.v.len()),
    ensures
        ({
            let vals = run_to(c, g, kv, g.nodes.len()).0->Ok_0;
            let node = g.nodes[at as int];
            let (r, kv1) = run_of(c, g, kv);
            let l = layer as int;
            &&& r == Ok::<ArrayV, GraphFault>(vals[g.output - 1])
            &&& kv1.len == kv.len + c.tokens.len() <= kv.max_seq_len
            &&& kv1.max_seq_len == kv.max_seq_len
            &&& kv1.kv_dim == kv.kv_dim
            &&& kv1.k[l] == kv.k[l] + vals[node.inputs[1] - 1].data
            &&& kv1.v[l] == kv.v[l] + vals[node.inputs[2] - 1].data
        }),
{
    lemma_layer_rows(c, g, kv, at, layer, g.nodes.len());
}

/// Tokens for which the cache has no room are refused, and the cache is left as it was.
pub proof fn law_a_full_cache_refuses(c: Feed, g: GraphV, kv: KvV)
    ensures
        kv.len + c.tokens.len() > kv.max_seq_len ==> run_of(c, g, kv) == (
            Err::<ArrayV, GraphFault>(
                GraphFault::SeqTooLong {
                    got: kv.len + c.tokens.len(),
                    max: kv.max_seq_len,
                },
            ),
            kv,
        ),
        run_of(c, g, kv).0 matches Err(GraphFault::SeqTooLong { .. }) && (run_to(
            c,
            g,
            kv,
            g.nodes.len(),
        ).0 is Ok) ==> kv.len + c.tokens.len() > kv.max_seq_len,
{
}

/// A new cache is empty, has the width and the room that were asked for, and takes at most
/// eight gibibytes.
pub proof fn law_a_new_cache_is_empty(g: GraphV, max_seq_len: nat)
    ensures
        ({
            let bytes = (g.n_kv_heads * g.head_dim) * max_seq_len * 8 * g.n_layers;
            match new_cache(g, max_seq_len) {
                Ok(c) => {
                    &&& c.len == 0
                    &&& c.max_seq_len == max_seq_len
                    &&& c.kv_dim == g.n_kv_heads * g.head_dim
                    &&& c.k.len() == g.n_layers
                    &&& c.v.len() == g.n_layers
                    &&& forall|l: int| 0 <= l < g.n_layers ==> (#[trigger] c.k[l]).len() == 0
                    &&& forall|l: int| 0 <= l < g.n_layers ==> (#[trigger] c.v[l]).len() == 0
                    &&& bytes <= 0x2_0000_0000
                },
                Err(e) => e is BadHyperParams && (bytes > 0x2_0000_0000 || g.n_layers == 0),
            }
        }),
{
    let k = (g.n_kv_heads * g.head_dim) as nat;
    assert(k == g.n_kv_heads * g.head_dim) by (nonlinear_arith)
        requires
            k == (g.n_kv_heads * g.head_dim) as nat,
    ;
    let per = k * max_seq_len * 8;
    let n = g.n_layers;
    let total = per * n;
    assert(n > 0 ==> total >= per) by (nonlinear_arith)
        requires
            total == per * n,
            per >= 0,
    ;
}

/// The numbers of a tensor are those of its bytes, which stand in the file that it names, from
/// its offset in the data of that file on, as many as it says.
pub proof fn law_weights_come_from_their_file(m: ModelV, files: Seq<Seq<u8>>, i: int)
    requires
        weight_of(m, files, i) is Ok,
    ensures
        ({
            let t = m.tensors[i];
            let f = t.file_index as int;
            let w = weight_of(m, files, i)->Ok_0;
            let at = m.data_section_offsets[f] + t.data_offset;
            &&& f < m.data_section_offsets.len()
            &&& t.data_len is Some
            &&& at + t.data_len->0 <= files[f].len()
            &&& w.len() == checked_product(t.shape)->0
            &&& forall|j: int|
                0 <= j < w.len() ==> #[trigger] w[j] == decoded(
                    t.dtype,
                    files[f].subrange(at, at + t.data_len->0),
                    j,
                )
        }),
{
}

} // verus!
