//! What the graph of a model is, by the names of its tensors: which product or norm
//! takes which value, layer by layer, and which models have a graph at all.

use vstd::prelude::*;

use crate::formats::desc::{ArchitectureV, HyperParams, ModelV};
use crate::graph::builder::{
    all_needs, attention_op, built, first_fault, head_dim_of, hp_fault, kv_dim_of, layer_label,
    layer_needs, layers_needs, lemma_hp_bounds, lemma_layer_needs_at, lemma_layers_needs_len,
    lemma_no_fault, lemma_place_of, mat_op, model_fault, need_fault, node, norm_op, place_of,
    places, proj_op, rope_op, with_attention, with_ffn, with_heads, with_layer, with_layers, NeedV,
};
use crate::graph::error::GraphFault;
use crate::graph::ir::{Dim, GraphV, NodeV, Op, TensorRef};
use crate::text::dec;

verus! {

/// Whether a weight is the tensor called `name`; of several the last.
pub open spec fn called(m: ModelV, t: TensorRef, name: Seq<char>) -> bool {
    &&& t.0 < m.tensors.len()
    &&& m.tensors[t.0 as int].name == name
    &&& forall|j: int| t.0 < j < m.tensors.len() ==> (#[trigger] m.tensors[j]).name != name
}

/// Whether no tensor is called `name`.
pub open spec fn absent(m: ModelV, name: Seq<char>) -> bool {
    forall|j: int| 0 <= j < m.tensors.len() ==> (#[trigger] m.tensors[j]).name != name
}

/// The name of something of layer `i`.
pub open spec fn of_layer(i: nat, what: Seq<char>) -> Seq<char> {
    "layers."@ + dec(i) + "."@ + what
}

/// One where the model has such a tensor in layer `i`, else zero.
pub open spec fn extra(m: ModelV, i: nat, what: Seq<char>) -> int {
    if absent(m, of_layer(i, what)) {
        0
    } else {
        1
    }
}

/// The value that layer `i` starts from: the embedding, or what the layer before gives.
/// A layer has fifteen nodes, and one more for each norm of queries or keys that it has.
pub open spec fn start(m: ModelV, i: nat) -> int
    decreases i,
{
    if i == 0 {
        1
    } else {
        start(m, (i - 1) as nat) + 15 + extra(m, (i - 1) as nat, "attn.q_norm.weight"@) + extra(
            m,
            (i - 1) as nat,
            "attn.k_norm.weight"@,
        )
    }
}

/// Whether value `v` has a row of `width` numbers for each token, and goes by a label.
pub open spec fn shaped(n: NodeV, width: int, label: Seq<char>) -> bool {
    &&& n.out_shape.len() == 2
    &&& n.out_shape[0] == Dim::SeqLen
    &&& n.out_shape[1] matches Dim::Const(w) && w == width
    &&& n.label == label
}

/// Whether value `v` is value `x` normed with the tensor called `name`, `unit` numbers at
/// a time.
pub open spec fn normed(
    m: ModelV,
    g: GraphV,
    v: int,
    x: int,
    name: Seq<char>,
    unit: Option<u64>,
) -> bool {
    let n = g.nodes[v - 1];
    &&& 0 < x < v <= g.nodes.len()
    &&& n.op matches Op::RmsNorm { weight, eps, head_dim } && called(m, weight, name) && eps
        == m.hyperparams.norm_eps && head_dim == unit
    &&& n.inputs.len() == 1 && n.inputs[0] == x
}

/// Whether value `v` is the product of value `x` with the tensor called `name`, and nothing
/// added.
pub open spec fn multiplied(m: ModelV, g: GraphV, v: int, x: int, name: Seq<char>) -> bool {
    let n = g.nodes[v - 1];
    &&& 0 < x < v <= g.nodes.len()
    &&& n.op matches Op::MatMul { weight, bias } && called(m, weight, name) && bias is None
    &&& n.inputs.len() == 1 && n.inputs[0] == x
}

/// Whether value `v` is the product of value `x` with the tensor called `name`, and the
/// tensor called `plus` added where there is one.
pub open spec fn projected(
    m: ModelV,
    g: GraphV,
    v: int,
    x: int,
    name: Seq<char>,
    plus: Seq<char>,
) -> bool {
    let n = g.nodes[v - 1];
    &&& 0 < x < v <= g.nodes.len()
    &&& n.op matches Op::MatMul { weight, bias } && called(m, weight, name) && match bias {
        Some(b) => called(m, b, plus),
        None => absent(m, plus),
    }
    &&& n.inputs.len() == 1 && n.inputs[0] == x
}

/// Whether value `v` is value `x` with its `heads` heads turned as the model says.
pub open spec fn turned(m: ModelV, g: GraphV, v: int, x: int, heads: u64) -> bool {
    let hp = m.hyperparams;
    let n = g.nodes[v - 1];
    &&& 0 < x < v <= g.nodes.len()
    &&& n.op matches Op::Rope { theta, style, n_heads, head_dim } && theta == hp.rope_theta
        && style == hp.rope_style && n_heads == heads && head_dim * hp.n_heads == hp.hidden_size
    &&& n.inputs.len() == 1 && n.inputs[0] == x
}

/// Whether value `v` is the sum of `a` and `b`.
pub open spec fn summed(g: GraphV, v: int, a: int, b: int) -> bool {
    let n = g.nodes[v - 1];
    &&& 0 < a < v <= g.nodes.len()
    &&& 0 < b < v
    &&& n.op is Add
    &&& n.inputs.len() == 2 && n.inputs[0] == a && n.inputs[1] == b
}

/// Whether layer `i` attends: value `v` is what queries `q` find among keys `k` and values
/// `w` in the cache of that layer.
pub open spec fn attended(m: ModelV, g: GraphV, v: int, i: int, q: int, k: int, w: int) -> bool {
    let hp = m.hyperparams;
    let n = g.nodes[v - 1];
    &&& 0 < q < v <= g.nodes.len()
    &&& 0 < k < v
    &&& 0 < w < v
    &&& n.op matches Op::Attention { layer, n_heads, n_kv_heads, head_dim } && layer == i
        && n_heads == hp.n_heads && n_kv_heads == hp.n_kv_heads && head_dim * hp.n_heads
        == hp.hidden_size
    &&& n.inputs.len() == 3 && n.inputs[0] == q && n.inputs[1] == k && n.inputs[2] == w
}

/// Whether value `v` is `gate`, times its logistic function, times `up`.
pub open spec fn gated(g: GraphV, v: int, gate: int, up: int) -> bool {
    let n = g.nodes[v - 1];
    &&& 0 < gate < v <= g.nodes.len()
    &&& 0 < up < v
    &&& n.op is SwiGlu
    &&& n.inputs.len() == 2 && n.inputs[0] == gate && n.inputs[1] == up
}

/// The size of a head.
pub open spec fn head(m: ModelV) -> u64 {
    (m.hyperparams.hidden_size / m.hyperparams.n_heads) as u64
}

/// Whether layer `i` attends as a transformer does: the normed value is projected to
/// queries, keys and values; queries and keys are normed, head by head, where the model has
/// norms for them, and turned; and what attention finds is projected and added to what
/// the layer started from.
pub open spec fn attention_wired(m: ModelV, g: GraphV, i: nat) -> bool {
    let hp = m.hyperparams;
    let x = start(m, i);
    let has_q = extra(m, i, "attn.q_norm.weight"@);
    let has_k = extra(m, i, "attn.k_norm.weight"@);
    let q = x + 2 + (if has_q == 1 {
        3int
    } else {
        0
    });
    let k = if has_k == 1 {
        x + 5 + has_q
    } else {
        x + 3
    };
    let at = x + 4 + has_q + has_k;
    &&& normed(m, g, x + 1, x, of_layer(i, "attn_norm.weight"@), None)
    &&& projected(
        m,
        g,
        x + 2,
        x + 1,
        of_layer(i, "attn.q_proj.weight"@),
        of_layer(i, "attn.q_proj.bias"@),
    )
    &&& projected(
        m,
        g,
        x + 3,
        x + 1,
        of_layer(i, "attn.k_proj.weight"@),
        of_layer(i, "attn.k_proj.bias"@),
    )
    &&& projected(
        m,
        g,
        x + 4,
        x + 1,
        of_layer(i, "attn.v_proj.weight"@),
        of_layer(i, "attn.v_proj.bias"@),
    )
    &&& has_q == 1 ==> normed(
        m,
        g,
        q,
        x + 2,
        of_layer(i, "attn.q_norm.weight"@),
        Some(head(m)),
    )
    &&& has_k == 1 ==> normed(
        m,
        g,
        k,
        x + 3,
        of_layer(i, "attn.k_norm.weight"@),
        Some(head(m)),
    )
    &&& turned(m, g, at + 1, q, hp.n_heads)
    &&& turned(m, g, at + 2, k, hp.n_kv_heads)
    &&& attended(m, g, at + 3, i as int, at + 1, at + 2, x + 4)
    &&& multiplied(m, g, at + 4, at + 3, of_layer(i, "attn.o_proj.weight"@))
    &&& summed(g, at + 5, x, at + 4)
}

/// Whether the second half of layer `i` is a gated one: the normed value is multiplied with the
/// gating matrix and with the up matrix, the former product decides how much of the latter
/// remains, and that is multiplied with the down matrix and added to what it started from.
pub open spec fn ffn_wired(m: ModelV, g: GraphV, i: nat) -> bool {
    let y = start(m, i) + 9 + extra(m, i, "attn.q_norm.weight"@) + extra(
        m,
        i,
        "attn.k_norm.weight"@,
    );
    &&& normed(m, g, y + 1, y, of_layer(i, "ffn_norm.weight"@), None)
    &&& multiplied(m, g, y + 2, y + 1, of_layer(i, "ffn.gate_proj.weight"@))
    &&& multiplied(m, g, y + 3, y + 1, of_layer(i, "ffn.up_proj.weight"@))
    &&& gated(g, y + 4, y + 2, y + 3)
    &&& multiplied(m, g, y + 5, y + 4, of_layer(i, "ffn.down_proj.weight"@))
    &&& summed(g, y + 6, y, y + 5)
}

/// The widths and labels of the values of layer `i`.
pub open spec fn layer_shaped(m: ModelV, g: GraphV, i: nat) -> bool {
    let hp = m.hyperparams;
    let h = hp.hidden_size as int;
    let kv = head(m) * hp.n_kv_heads;
    let f = hp.ffn_hidden_size as int;
    let x = start(m, i);
    let has_q = extra(m, i, "attn.q_norm.weight"@);
    let has_k = extra(m, i, "attn.k_norm.weight"@);
    let y = x + 9 + has_q + has_k;
    &&& shaped(g.nodes[x], h, of_layer(i, "attn_norm"@))
    &&& shaped(g.nodes[x + 1], h, of_layer(i, "attn.q_proj"@))
    &&& shaped(g.nodes[x + 2], kv, of_layer(i, "attn.k_proj"@))
    &&& shaped(g.nodes[x + 3], kv, of_layer(i, "attn.v_proj"@))
    &&& has_q == 1 ==> shaped(g.nodes[x + 4], h, of_layer(i, "attn.q_norm"@))
    &&& has_k == 1 ==> shaped(g.nodes[x + 4 + has_q], kv, of_layer(i, "attn.k_norm"@))
    &&& shaped(g.nodes[y - 5], h, of_layer(i, "rope_q"@))
    &&& shaped(g.nodes[y - 4], kv, of_layer(i, "rope_k"@))
    &&& shaped(g.nodes[y - 3], h, of_layer(i, "attention"@))
    &&& shaped(g.nodes[y - 2], h, of_layer(i, "attn.o_proj"@))
    &&& shaped(g.nodes[y - 1], h, of_layer(i, "residual_attn"@))
    &&& shaped(g.nodes[y], h, of_layer(i, "ffn_norm"@))
    &&& shaped(g.nodes[y + 1], f, of_layer(i, "ffn.gate"@))
    &&& shaped(g.nodes[y + 2], f, of_layer(i, "ffn.up"@))
    &&& shaped(g.nodes[y + 3], f, of_layer(i, "swiglu"@))
    &&& shaped(g.nodes[y + 4], h, of_layer(i, "ffn.down"@))
    &&& shaped(g.nodes[y + 5], h, of_layer(i, "residual_ffn"@))
}

/// Where a tensor that was found stands.
proof fn lemma_called(m: ModelV, name: Seq<char>)
    requires
        m.tensors.len() <= usize::MAX,
    ensures
        match place_of(m.tensors, name) {
            Some(t) => called(m, TensorRef(t), name) && !absent(m, name),
            None => absent(m, name),
        },
    decreases m.tensors.len(),
{
    let ts = m.tensors;
    lemma_place_of(ts, name);
    if place_of(ts, name) is Some {
        let t = place_of(ts, name)->0;
        lemma_last_place(ts, name);
        assert(ts[t as int].name == name);
    }
}

/// Behind the place of a tensor none has its name.
proof fn lemma_last_place(ts: Seq<crate::formats::desc::TensorV>, name: Seq<char>)
    requires
        ts.len() <= usize::MAX,
    ensures
        place_of(ts, name) matches Some(t) ==> forall|j: int|
            t < j < ts.len() ==> (#[trigger] ts[j]).name != name,
    decreases ts.len(),
{
    if ts.len() > 0 && ts.last().name != name {
        let w = ts.drop_last();
        lemma_last_place(w, name);
        if place_of(ts, name) is Some {
            let t = place_of(ts, name)->0;
            assert forall|j: int| t < j < ts.len() implies (#[trigger] ts[j]).name != name by {
                if j < w.len() {
                    assert(w[j] == ts[j]);
                }
            }
        }
    }
}

/// Tensor `j` of layer `i`, where the layer looks for it.
proof fn lemma_layer_tensor(m: ModelV, i: nat, j: int)
    requires
        model_fault(m) is None,
        m.tensors.len() <= usize::MAX,
        i < m.hyperparams.n_layers,
        0 <= j < 14,
    ensures
        ({
            let hp = m.hyperparams;
            let need = layer_needs(hp, i)[j];
            let r = places(m.tensors, all_needs(hp));
            let at = 1 + 14 * i + j;
            &&& at < r.len()
            &&& match r[at] {
                Some(t) => called(m, TensorRef(t), need.name) && !absent(m, need.name)
                    && m.tensors[t as int].shape == need.shape,
                None => absent(m, need.name) && need.optional,
            }
        }),
{
    let hp = m.hyperparams;
    let needs = all_needs(hp);
    let mid = layers_needs(hp, hp.n_layers as nat);
    let at = 1 + 14 * i + j;
    lemma_layers_needs_len(hp, hp.n_layers as nat);
    lemma_layer_needs_at(hp, hp.n_layers as nat, i, j);
    assert(needs[at] == mid[14 * i + j]);
    lemma_no_fault(m.tensors, needs, needs.len(), at as nat);
    lemma_called(m, needs[at].name);
}

/// The tensors outside the layers.
proof fn lemma_outer_tensors(m: ModelV)
    requires
        model_fault(m) is None,
        m.tensors.len() <= usize::MAX,
    ensures
        ({
            let hp = m.hyperparams;
            let r = places(m.tensors, all_needs(hp));
            let at = 1 + 14 * hp.n_layers;
            &&& r.len() == at + 2
            &&& r[0] matches Some(t) && called(m, TensorRef(t), "token_embed.weight"@)
            &&& r[at] matches Some(t) && called(m, TensorRef(t), "output_norm.weight"@)
            &&& match r[at + 1] {
                Some(t) => called(m, TensorRef(t), "lm_head.weight"@) && !absent(
                    m,
                    "lm_head.weight"@,
                ),
                None => absent(m, "lm_head.weight"@),
            }
        }),
{
    let hp = m.hyperparams;
    let needs = all_needs(hp);
    let at = 1 + 14 * hp.n_layers;
    lemma_layers_needs_len(hp, hp.n_layers as nat);
    assert(needs.len() == at + 2);
    assert(needs[0].name == "token_embed.weight"@);
    assert(needs[at].name == "output_norm.weight"@);
    assert(needs[at + 1].name == "lm_head.weight"@);
    lemma_no_fault(m.tensors, needs, needs.len(), 0);
    lemma_no_fault(m.tensors, needs, needs.len(), at as nat);
    lemma_called(m, needs[0].name);
    lemma_called(m, needs[at].name);
    lemma_called(m, needs[at + 1].name);
}

/// Whether what was looked for at place `at` is the tensor called `name`, and is there
/// unless the model can do without it.
#[verifier::opaque]
spec fn stands(m: ModelV, at: int, name: Seq<char>, optional: bool) -> bool {
    match places(m.tensors, all_needs(m.hyperparams))[at] {
        Some(t) => called(m, TensorRef(t), name) && !absent(m, name),
        None => absent(m, name) && optional,
    }
}

/// What layer `i` looks for.
proof fn lemma_layer_stands(m: ModelV, i: nat)
    requires
        model_fault(m) is None,
        m.tensors.len() <= usize::MAX,
        i < m.hyperparams.n_layers,
    ensures
        stands(m, 1 + 14 * (i as int) + 0, of_layer(i, "attn_norm.weight"@), false),
        stands(m, 1 + 14 * (i as int) + 1, of_layer(i, "attn.q_proj.weight"@), false),
        stands(m, 1 + 14 * (i as int) + 2, of_layer(i, "attn.q_proj.bias"@), true),
        stands(m, 1 + 14 * (i as int) + 3, of_layer(i, "attn.k_proj.weight"@), false),
        stands(m, 1 + 14 * (i as int) + 4, of_layer(i, "attn.k_proj.bias"@), true),
        stands(m, 1 + 14 * (i as int) + 5, of_layer(i, "attn.v_proj.weight"@), false),
        stands(m, 1 + 14 * (i as int) + 6, of_layer(i, "attn.v_proj.bias"@), true),
        stands(m, 1 + 14 * (i as int) + 7, of_layer(i, "attn.q_norm.weight"@), true),
        stands(m, 1 + 14 * (i as int) + 8, of_layer(i, "attn.k_norm.weight"@), true),
        stands(m, 1 + 14 * (i as int) + 9, of_layer(i, "attn.o_proj.weight"@), false),
        stands(m, 1 + 14 * (i as int) + 10, of_layer(i, "ffn_norm.weight"@), false),
        stands(m, 1 + 14 * (i as int) + 11, of_layer(i, "ffn.gate_proj.weight"@), false),
        stands(m, 1 + 14 * (i as int) + 12, of_layer(i, "ffn.up_proj.weight"@), false),
        stands(m, 1 + 14 * (i as int) + 13, of_layer(i, "ffn.down_proj.weight"@), false),
{
    let n = layer_needs(m.hyperparams, i);
    assert forall|j: int| 0 <= j < 14 implies #[trigger] stands(
        m,
        1 + 14 * (i as int) + j,
        n[j].name,
        n[j].optional,
    ) by {
        reveal(stands);
        lemma_layer_tensor(m, i, j);
    }
    assert(stands(m, 1 + 14 * (i as int) + 0, n[0].name, n[0].optional));
    assert(stands(m, 1 + 14 * (i as int) + 1, n[1].name, n[1].optional));
    assert(stands(m, 1 + 14 * (i as int) + 2, n[2].name, n[2].optional));
    assert(stands(m, 1 + 14 * (i as int) + 3, n[3].name, n[3].optional));
    assert(stands(m, 1 + 14 * (i as int) + 4, n[4].name, n[4].optional));
    assert(stands(m, 1 + 14 * (i as int) + 5, n[5].name, n[5].optional));
    assert(stands(m, 1 + 14 * (i as int) + 6, n[6].name, n[6].optional));
    assert(stands(m, 1 + 14 * (i as int) + 7, n[7].name, n[7].optional));
    assert(stands(m, 1 + 14 * (i as int) + 8, n[8].name, n[8].optional));
    assert(stands(m, 1 + 14 * (i as int) + 9, n[9].name, n[9].optional));
    assert(stands(m, 1 + 14 * (i as int) + 10, n[10].name, n[10].optional));
    assert(stands(m, 1 + 14 * (i as int) + 11, n[11].name, n[11].optional));
    assert(stands(m, 1 + 14 * (i as int) + 12, n[12].name, n[12].optional));
    assert(stands(m, 1 + 14 * (i as int) + 13, n[13].name, n[13].optional));
}

/// How many norms of queries or keys there are.
spec fn more(r: Seq<Option<usize>>, at: int) -> int {
    if r[at] is Some {
        1
    } else {
        0
    }
}

/// The nodes of a layer up to the rotated queries and keys, behind the nodes `s`.
proof fn lemma_heads_nodes(
    s: Seq<NodeV>,
    hp: HyperParams,
    i: nat,
    r: Seq<Option<usize>>,
    at: int,
)
    requires
        s.len() < 0x4000_0000,
    ensures
        ({
            let x = s.len() as int;
            let (t, q2, k2, vv) = with_heads(s, x as usize, hp, i, r, at);
            let h = hp.hidden_size;
            let kv = kv_dim_of(hp);
            let hd = Some(head_dim_of(hp));
            let a = more(r, at + 7);
            let b = more(r, at + 8);
            let q = if a == 1 {
                x + 5
            } else {
                x + 2
            };
            let k = if b == 1 {
                x + 5 + a
            } else {
                x + 3
            };
            let e = x + 4 + a + b;
            &&& t.len() == e + 2
            &&& q2 == e + 1 && k2 == e + 2 && vv == x + 4
            &&& forall|v: int| 0 <= v < x ==> #[trigger] t[v] == s[v]
            &&& t[x] == node(norm_op(hp, r, at, None), seq![x as usize], h, layer_label(i, "attn_norm"@))
            &&& t[x + 1] == node(
                proj_op(r, at + 1),
                seq![(x + 1) as usize],
                h,
                layer_label(i, "attn.q_proj"@),
            )
            &&& t[x + 2] == node(
                proj_op(r, at + 3),
                seq![(x + 1) as usize],
                kv,
                layer_label(i, "attn.k_proj"@),
            )
            &&& t[x + 3] == node(
                proj_op(r, at + 5),
                seq![(x + 1) as usize],
                kv,
                layer_label(i, "attn.v_proj"@),
            )
            &&& a == 1 ==> t[x + 4] == node(
                norm_op(hp, r, at + 7, hd),
                seq![(x + 2) as usize],
                h,
                layer_label(i, "attn.q_norm"@),
            )
            &&& b == 1 ==> t[x + 4 + a] == node(
                norm_op(hp, r, at + 8, hd),
                seq![(x + 3) as usize],
                kv,
                layer_label(i, "attn.k_norm"@),
            )
            &&& t[e] == node(rope_op(hp, hp.n_heads), seq![q as usize], h, layer_label(i, "rope_q"@))
            &&& t[e + 1] == node(
                rope_op(hp, hp.n_kv_heads),
                seq![k as usize],
                kv,
                layer_label(i, "rope_k"@),
            )
        }),
{
}

/// The nodes of a layer from the attention on, behind the nodes `s`.
proof fn lemma_rest_nodes(
    s: Seq<NodeV>,
    x: usize,
    q: usize,
    k: usize,
    v: usize,
    hp: HyperParams,
    i: nat,
    r: Seq<Option<usize>>,
    at: int,
)
    requires
        s.len() < 0x4000_0010,
    ensures
        ({
            let e = s.len() as int;
            let (t0, y) = with_attention(s, x, q, k, v, hp, i, r, at);
            let (t, z) = with_ffn(t0, y, hp, i, r, at);
            let h = hp.hidden_size;
            let f = hp.ffn_hidden_size;
            &&& t.len() == e + 9
            &&& z == e + 9
            &&& forall|v: int| 0 <= v < e ==> #[trigger] t[v] == s[v]
            &&& t[e] == node(attention_op(hp, i), seq![q, k, v], h, layer_label(i, "attention"@))
            &&& t[e + 1] == node(
                mat_op(r, at + 9),
                seq![(e + 1) as usize],
                h,
                layer_label(i, "attn.o_proj"@),
            )
            &&& t[e + 2] == node(
                Op::Add,
                seq![x, (e + 2) as usize],
                h,
                layer_label(i, "residual_attn"@),
            )
            &&& t[e + 3] == node(
                norm_op(hp, r, at + 10, None),
                seq![(e + 3) as usize],
                h,
                layer_label(i, "ffn_norm"@),
            )
            &&& t[e + 4] == node(
                mat_op(r, at + 11),
                seq![(e + 4) as usize],
                f,
                layer_label(i, "ffn.gate"@),
            )
            &&& t[e + 5] == node(
                mat_op(r, at + 12),
                seq![(e + 4) as usize],
                f,
                layer_label(i, "ffn.up"@),
            )
            &&& t[e + 6] == node(
                Op::SwiGlu,
                seq![(e + 5) as usize, (e + 6) as usize],
                f,
                layer_label(i, "swiglu"@),
            )
            &&& t[e + 7] == node(
                mat_op(r, at + 13),
                seq![(e + 7) as usize],
                h,
                layer_label(i, "ffn.down"@),
            )
            &&& t[e + 8] == node(
                Op::Add,
                seq![(e + 3) as usize, (e + 8) as usize],
                h,
                layer_label(i, "residual_ffn"@),
            )
        }),
{
}

/// The nodes of layer `i` where `x` nodes stand before it; `a` and `b` say whether queries
/// and keys are normed.
#[verifier::opaque]
spec fn laid(
    t: Seq<NodeV>,
    x: int,
    hp: HyperParams,
    i: nat,
    r: Seq<Option<usize>>,
    at: int,
    a: int,
    b: int,
) -> bool {
    let h = hp.hidden_size;
    let kv = kv_dim_of(hp);
    let f = hp.ffn_hidden_size;
    let hd = Some(head_dim_of(hp));
    let q = if a == 1 {
        x + 5
    } else {
        x + 2
    };
    let k = if b == 1 {
        x + 5 + a
    } else {
        x + 3
    };
    let e = x + 6 + a + b;
    &&& x + 15 + a + b <= t.len()
    &&& t[x] == node(norm_op(hp, r, at, None), seq![x as usize], h, layer_label(i, "attn_norm"@))
    &&& t[x + 1] == node(
        proj_op(r, at + 1),
        seq![(x + 1) as usize],
        h,
        layer_label(i, "attn.q_proj"@),
    )
    &&& t[x + 2] == node(
        proj_op(r, at + 3),
        seq![(x + 1) as usize],
        kv,
        layer_label(i, "attn.k_proj"@),
    )
    &&& t[x + 3] == node(
        proj_op(r, at + 5),
        seq![(x + 1) as usize],
        kv,
        layer_label(i, "attn.v_proj"@),
    )
    &&& a == 1 ==> t[x + 4] == node(
        norm_op(hp, r, at + 7, hd),
        seq![(x + 2) as usize],
        h,
        layer_label(i, "attn.q_norm"@),
    )
    &&& b == 1 ==> t[x + 4 + a] == node(
        norm_op(hp, r, at + 8, hd),
        seq![(x + 3) as usize],
        kv,
        layer_label(i, "attn.k_norm"@),
    )
    &&& t[e - 2] == node(rope_op(hp, hp.n_heads), seq![q as usize], h, layer_label(i, "rope_q"@))
    &&& t[e - 1] == node(
        rope_op(hp, hp.n_kv_heads),
        seq![k as usize],
        kv,
        layer_label(i, "rope_k"@),
    )
    &&& t[e] == node(
        attention_op(hp, i),
        seq![(e - 1) as usize, e as usize, (x + 4) as usize],
        h,
        layer_label(i, "attention"@),
    )
    &&& t[e + 1] == node(
        mat_op(r, at + 9),
        seq![(e + 1) as usize],
        h,
        layer_label(i, "attn.o_proj"@),
    )
    &&& t[e + 2] == node(
        Op::Add,
        seq![x as usize, (e + 2) as usize],
        h,
        layer_label(i, "residual_attn"@),
    )
    &&& t[e + 3] == node(
        norm_op(hp, r, at + 10, None),
        seq![(e + 3) as usize],
        h,
        layer_label(i, "ffn_norm"@),
    )
    &&& t[e + 4] == node(
        mat_op(r, at + 11),
        seq![(e + 4) as usize],
        f,
        layer_label(i, "ffn.gate"@),
    )
    &&& t[e + 5] == node(mat_op(r, at + 12), seq![(e + 4) as usize], f, layer_label(i, "ffn.up"@))
    &&& t[e + 6] == node(
        Op::SwiGlu,
        seq![(e + 5) as usize, (e + 6) as usize],
        f,
        layer_label(i, "swiglu"@),
    )
    &&& t[e + 7] == node(
        mat_op(r, at + 13),
        seq![(e + 7) as usize],
        h,
        layer_label(i, "ffn.down"@),
    )
    &&& t[e + 8] == node(
        Op::Add,
        seq![(e + 3) as usize, (e + 8) as usize],
        h,
        layer_label(i, "residual_ffn"@),
    )
}

/// What a layer adds behind the nodes `s`.
proof fn lemma_laid(s: Seq<NodeV>, hp: HyperParams, i: nat, r: Seq<Option<usize>>, at: int)
    requires
        s.len() < 0x4000_0000,
    ensures
        ({
            let (t, z) = with_layer(s, s.len() as usize, hp, i, r, at);
            &&& laid(t, s.len() as int, hp, i, r, at, more(r, at + 7), more(r, at + 8))
            &&& t.len() == s.len() + 15 + more(r, at + 7) + more(r, at + 8)
            &&& z == t.len()
            &&& forall|v: int| 0 <= v < s.len() ==> #[trigger] t[v] == s[v]
        }),
{
    reveal(laid);
    lemma_heads_nodes(s, hp, i, r, at);
    let (u, q, k, v) = with_heads(s, s.len() as usize, hp, i, r, at);
    lemma_rest_nodes(u, s.len() as usize, q, k, v, hp, i, r, at);
    let t = with_layer(s, s.len() as usize, hp, i, r, at).0;
    assert forall|v: int| 0 <= v < u.len() implies #[trigger] t[v] == u[v] by {}
}

/// The nodes of a layer stay where others follow.
proof fn lemma_laid_prefix(
    t: Seq<NodeV>,
    g: Seq<NodeV>,
    x: int,
    hp: HyperParams,
    i: nat,
    r: Seq<Option<usize>>,
    at: int,
    a: int,
    b: int,
)
    requires
        laid(t, x, hp, i, r, at, a, b),
        0 <= x,
        0 <= a <= 1,
        0 <= b <= 1,
        t.len() <= g.len(),
        forall|v: int| 0 <= v < t.len() ==> #[trigger] g[v] == t[v],
    ensures
        laid(g, x, hp, i, r, at, a, b),
{
    reveal(laid);
}

/// Where the first `k` layers end.
proof fn lemma_layers_end(m: ModelV, k: nat)
    requires
        model_fault(m) is None,
        m.tensors.len() <= usize::MAX,
        k <= m.hyperparams.n_layers,
    ensures
        ({
            let (s, x) = with_layers(m.hyperparams, places(m.tensors, all_needs(m.hyperparams)), k);
            &&& s.len() == start(m, k)
            &&& x == s.len()
            &&& 1 <= s.len() <= 1 + 17 * k
        }),
    decreases k,
{
    lemma_hp_small(m);
    if k > 0 {
        let i = (k - 1) as nat;
        let hp = m.hyperparams;
        let r = places(m.tensors, all_needs(hp));
        lemma_layers_end(m, i);
        lemma_norms_counted(m, i);
        let s = with_layers(hp, r, i).0;
        assert(1 + 14 * (k - 1) == 1 + 14 * (i as int));
        lemma_laid(s, hp, i, r, 1 + 14 * (i as int));
    }
}

/// The norms that a layer has nodes for are those that the model has tensors for.
proof fn lemma_norms_counted(m: ModelV, i: nat)
    requires
        model_fault(m) is None,
        m.tensors.len() <= usize::MAX,
        i < m.hyperparams.n_layers,
    ensures
        ({
            let r = places(m.tensors, all_needs(m.hyperparams));
            &&& more(r, 1 + 14 * (i as int) + 7) == extra(m, i, "attn.q_norm.weight"@)
            &&& more(r, 1 + 14 * (i as int) + 8) == extra(m, i, "attn.k_norm.weight"@)
        }),
{
    lemma_layer_stands(m, i);
    reveal(stands);
}

/// A model without a fault has at most so many layers.
proof fn lemma_hp_small(m: ModelV)
    requires
        model_fault(m) is None,
    ensures
        hp_fault(m.hyperparams) is None,
        m.hyperparams.n_layers <= 1_048_576,
        0 < m.hyperparams.n_layers,
{
}

/// The nodes of fewer layers come first.
proof fn lemma_prefix(m: ModelV, k: nat, n: nat)
    requires
        model_fault(m) is None,
        m.tensors.len() <= usize::MAX,
        k <= n <= m.hyperparams.n_layers,
    ensures
        ({
            let r = places(m.tensors, all_needs(m.hyperparams));
            let a = with_layers(m.hyperparams, r, k).0;
            let b = with_layers(m.hyperparams, r, n).0;
            a.len() <= b.len() && forall|v: int| 0 <= v < a.len() ==> #[trigger] b[v] == a[v]
        }),
    decreases n - k,
{
    lemma_hp_small(m);
    if k < n {
        let i = (n - 1) as nat;
        lemma_prefix(m, k, i);
        lemma_layers_end(m, i);
        let hp = m.hyperparams;
        let r = places(m.tensors, all_needs(hp));
        let s = with_layers(hp, r, i).0;
        assert(1 + 14 * (n - 1) == 1 + 14 * (i as int));
        lemma_laid(s, hp, i, r, 1 + 14 * (i as int));
    }
}

/// The nodes of layer `i` in the graph.
proof fn lemma_layer_in_graph(m: ModelV, i: nat)
    requires
        model_fault(m) is None,
        m.tensors.len() <= usize::MAX,
        i < m.hyperparams.n_layers,
    ensures
        laid(
            built(m).nodes,
            start(m, i),
            m.hyperparams,
            i,
            places(m.tensors, all_needs(m.hyperparams)),
            1 + 14 * (i as int),
            extra(m, i, "attn.q_norm.weight"@),
            extra(m, i, "attn.k_norm.weight"@),
        ),
        1 <= start(m, i) <= 1 + 17 * i,
{
    let hp = m.hyperparams;
    let r = places(m.tensors, all_needs(hp));
    let at = 1 + 14 * (i as int);
    lemma_hp_small(m);
    lemma_layers_end(m, i);
    lemma_layers_end(m, i + 1);
    lemma_prefix(m, i + 1, hp.n_layers as nat);
    lemma_norms_counted(m, i);
    let s = with_layers(hp, r, i).0;
    assert(1 + 14 * (i + 1 - 1) == at);
    lemma_laid(s, hp, i, r, at);
    let t = with_layers(hp, r, i + 1).0;
    let w = with_layers(hp, r, hp.n_layers as nat).0;
    let g = built(m).nodes;
    assert forall|v: int| 0 <= v < t.len() implies #[trigger] g[v] == t[v] by {
        assert(w[v] == t[v]);
        assert(g[v] == w[v]);
    }
    lemma_laid_prefix(
        t,
        g,
        start(m, i),
        hp,
        i,
        r,
        at,
        extra(m, i, "attn.q_norm.weight"@),
        extra(m, i, "attn.k_norm.weight"@),
    );
}

/// A norm node.
proof fn lemma_normed(
    m: ModelV,
    g: GraphV,
    v: int,
    x: int,
    at: int,
    name: Seq<char>,
    unit: Option<u64>,
    n: NodeV,
    optional: bool,
)
    requires
        stands(m, at, name, optional),
        optional ==> !absent(m, name),
        0 < x < v <= g.nodes.len(),
        x <= usize::MAX,
        g.nodes[v - 1] == n,
        n.op == norm_op(m.hyperparams, places(m.tensors, all_needs(m.hyperparams)), at, unit),
        n.inputs == seq![x as usize],
    ensures
        normed(m, g, v, x, name, unit),
{
    reveal(stands);
}

/// A product node without a bias.
proof fn lemma_multiplied(
    m: ModelV,
    g: GraphV,
    v: int,
    x: int,
    at: int,
    name: Seq<char>,
    n: NodeV,
)
    requires
        stands(m, at, name, false),
        0 < x < v <= g.nodes.len(),
        x <= usize::MAX,
        g.nodes[v - 1] == n,
        n.op == mat_op(places(m.tensors, all_needs(m.hyperparams)), at),
        n.inputs == seq![x as usize],
    ensures
        multiplied(m, g, v, x, name),
{
    reveal(stands);
}

/// A product node that may have a bias.
proof fn lemma_projected(
    m: ModelV,
    g: GraphV,
    v: int,
    x: int,
    at: int,
    name: Seq<char>,
    plus: Seq<char>,
    n: NodeV,
)
    requires
        stands(m, at, name, false),
        stands(m, at + 1, plus, true),
        0 < x < v <= g.nodes.len(),
        x <= usize::MAX,
        g.nodes[v - 1] == n,
        n.op == proj_op(places(m.tensors, all_needs(m.hyperparams)), at),
        n.inputs == seq![x as usize],
    ensures
        projected(m, g, v, x, name, plus),
{
    reveal(stands);
}

/// How a layer attends, from its nodes.
#[verifier::rlimit(60)]
proof fn lemma_attention_wired(m: ModelV, g: GraphV, i: nat)
    requires
        model_fault(m) is None,
        m.tensors.len() <= usize::MAX,
        i < m.hyperparams.n_layers,
        laid(
            g.nodes,
            start(m, i),
            m.hyperparams,
            i,
            places(m.tensors, all_needs(m.hyperparams)),
            1 + 14 * (i as int),
            extra(m, i, "attn.q_norm.weight"@),
            extra(m, i, "attn.k_norm.weight"@),
        ),
        1 <= start(m, i) <= 1 + 17 * i,
    ensures
        attention_wired(m, g, i),
{
    reveal(laid);
    let hp = m.hyperparams;
    let at = 1 + 14 * (i as int);
    let x = start(m, i);
    lemma_hp_small(m);
    lemma_hp_bounds(hp);
    lemma_layer_stands(m, i);
    let a = extra(m, i, "attn.q_norm.weight"@);
    let b = extra(m, i, "attn.k_norm.weight"@);
    let t = g.nodes;
    let e = x + 4 + a + b;
    lemma_normed(m, g, x + 1, x, at + 0, of_layer(i, "attn_norm.weight"@), None, t[x], false);
    lemma_projected(
        m,
        g,
        x + 2,
        x + 1,
        at + 1,
        of_layer(i, "attn.q_proj.weight"@),
        of_layer(i, "attn.q_proj.bias"@),
        t[x + 1],
    );
    lemma_projected(
        m,
        g,
        x + 3,
        x + 1,
        at + 3,
        of_layer(i, "attn.k_proj.weight"@),
        of_layer(i, "attn.k_proj.bias"@),
        t[x + 2],
    );
    lemma_projected(
        m,
        g,
        x + 4,
        x + 1,
        at + 5,
        of_layer(i, "attn.v_proj.weight"@),
        of_layer(i, "attn.v_proj.bias"@),
        t[x + 3],
    );
    if a == 1 {
        lemma_normed(
            m,
            g,
            x + 5,
            x + 2,
            at + 7,
            of_layer(i, "attn.q_norm.weight"@),
            Some(head(m)),
            t[x + 4],
            true,
        );
    }
    if b == 1 {
        lemma_normed(
            m,
            g,
            x + 5 + a,
            x + 3,
            at + 8,
            of_layer(i, "attn.k_norm.weight"@),
            Some(head(m)),
            t[x + 4 + a],
            true,
        );
    }
    lemma_multiplied(m, g, e + 4, e + 3, at + 9, of_layer(i, "attn.o_proj.weight"@), t[e + 3]);
}

/// In the graph of every model without a fault, each layer attends as a transformer does.
pub proof fn law_attention_is_wired(m: ModelV, i: nat)
    requires
        model_fault(m) is None,
        m.tensors.len() <= usize::MAX,
        i < m.hyperparams.n_layers,
    ensures
        attention_wired(m, built(m), i),
{
    lemma_layer_in_graph(m, i);
    lemma_attention_wired(m, built(m), i);
}

/// How a layer feeds forward, from its nodes.
#[verifier::rlimit(60)]
proof fn lemma_ffn_wired(m: ModelV, g: GraphV, i: nat)
    requires
        model_fault(m) is None,
        m.tensors.len() <= usize::MAX,
        i < m.hyperparams.n_layers,
        laid(
            g.nodes,
            start(m, i),
            m.hyperparams,
            i,
            places(m.tensors, all_needs(m.hyperparams)),
            1 + 14 * (i as int),
            extra(m, i, "attn.q_norm.weight"@),
            extra(m, i, "attn.k_norm.weight"@),
        ),
        1 <= start(m, i) <= 1 + 17 * i,
    ensures
        ffn_wired(m, g, i),
{
    reveal(laid);
    let hp = m.hyperparams;
    let at = 1 + 14 * (i as int);
    let x = start(m, i);
    lemma_hp_small(m);
    lemma_hp_bounds(hp);
    lemma_layer_stands(m, i);
    let a = extra(m, i, "attn.q_norm.weight"@);
    let b = extra(m, i, "attn.k_norm.weight"@);
    let t = g.nodes;
    let y = x + 9 + a + b;
    lemma_normed(m, g, y + 1, y, at + 10, of_layer(i, "ffn_norm.weight"@), None, t[y], false);
    lemma_multiplied(m, g, y + 2, y + 1, at + 11, of_layer(i, "ffn.gate_proj.weight"@), t[y + 1]);
    lemma_multiplied(m, g, y + 3, y + 1, at + 12, of_layer(i, "ffn.up_proj.weight"@), t[y + 2]);
    lemma_multiplied(m, g, y + 5, y + 4, at + 13, of_layer(i, "ffn.down_proj.weight"@), t[y + 4]);
}

/// In the graph of every model without a fault, the second half of each layer is a gated one:
/// the gating product first, then that with the up matrix, both of the same normed value.
pub proof fn law_ffn_is_wired(m: ModelV, i: nat)
    requires
        model_fault(m) is None,
        m.tensors.len() <= usize::MAX,
        i < m.hyperparams.n_layers,
    ensures
        ffn_wired(m, built(m), i),
{
    lemma_layer_in_graph(m, i);
    lemma_ffn_wired(m, built(m), i);
}

/// How wide the values of a layer are, from its nodes.
#[verifier::rlimit(60)]
proof fn lemma_shaped(m: ModelV, g: GraphV, i: nat)
    requires
        model_fault(m) is None,
        m.tensors.len() <= usize::MAX,
        i < m.hyperparams.n_layers,
        laid(
            g.nodes,
            start(m, i),
            m.hyperparams,
            i,
            places(m.tensors, all_needs(m.hyperparams)),
            1 + 14 * (i as int),
            extra(m, i, "attn.q_norm.weight"@),
            extra(m, i, "attn.k_norm.weight"@),
        ),
        1 <= start(m, i) <= 1 + 17 * i,
    ensures
        layer_shaped(m, g, i),
{
    reveal(laid);
    let hp = m.hyperparams;
    let at = 1 + 14 * (i as int);
    let x = start(m, i);
    lemma_hp_small(m);
    lemma_hp_bounds(hp);
    lemma_layer_stands(m, i);
    let a = extra(m, i, "attn.q_norm.weight"@);
    let b = extra(m, i, "attn.k_norm.weight"@);
    let t = g.nodes;
}

/// The values of every layer are as wide as the model says, and labelled.
pub proof fn law_layer_is_shaped(m: ModelV, i: nat)
    requires
        model_fault(m) is None,
        m.tensors.len() <= usize::MAX,
        i < m.hyperparams.n_layers,
    ensures
        layer_shaped(m, built(m), i),
{
    lemma_layer_in_graph(m, i);
    lemma_shaped(m, built(m), i);
}

/// The ends of the graph of every model without a fault: the tokens are embedded with the
/// table of embeddings; what the last layer gives is normed, and multiplied with the
/// projection to the vocabulary, or with the table of embeddings where the model has none;
/// and there are no other nodes.
pub proof fn law_ends_are_wired(m: ModelV)
    requires
        model_fault(m) is None,
        m.tensors.len() <= usize::MAX,
    ensures
        ({
            let g = built(m);
            let hp = m.hyperparams;
            let x = start(m, hp.n_layers as nat);
            &&& g.nodes.len() == x + 2
            &&& g.output == x + 2
            &&& g.n_layers == hp.n_layers
            &&& g.n_kv_heads == hp.n_kv_heads
            &&& g.head_dim * hp.n_heads == hp.hidden_size
            &&& g.nodes[0].op matches Op::Embed { weight } && called(
                m,
                weight,
                "token_embed.weight"@,
            )
            &&& g.nodes[0].inputs.len() == 1 && g.nodes[0].inputs[0] == 0
            &&& shaped(g.nodes[0], hp.hidden_size as int, "embed"@)
            &&& normed(m, g, x + 1, x, "output_norm.weight"@, None)
            &&& shaped(g.nodes[x], hp.hidden_size as int, "output_norm"@)
            &&& multiplied(
                m,
                g,
                x + 2,
                x + 1,
                if absent(m, "lm_head.weight"@) {
                    "token_embed.weight"@
                } else {
                    "lm_head.weight"@
                },
            )
            &&& shaped(g.nodes[x + 1], hp.vocab_size as int, "lm_head"@)
        }),
{
    let hp = m.hyperparams;
    lemma_hp_small(m);
    lemma_hp_bounds(hp);
    lemma_outer_tensors(m);
    lemma_layers_end(m, hp.n_layers as nat);
    lemma_prefix(m, 0, hp.n_layers as nat);
    let r = places(m.tensors, all_needs(hp));
    let s = with_layers(hp, r, hp.n_layers as nat).0;
    assert(s[0] == with_layers(hp, r, 0).0[0]);
    assert(built(m).nodes[0] == s[0]);
}

/// Whether the tensor called `name` is there, and has a shape.
pub open spec fn has(m: ModelV, name: Seq<char>, shape: Seq<u64>) -> bool {
    exists|t: TensorRef| #[trigger] called(m, t, name) && m.tensors[t.0 as int].shape == shape
}

/// Whether the tensor called `name` has a shape, if it is there.
pub open spec fn may_have(m: ModelV, name: Seq<char>, shape: Seq<u64>) -> bool {
    absent(m, name) || has(m, name, shape)
}

/// Whether hyperparameters make sense: no size is zero or above `2^20`, and heads come out
/// even.
pub open spec fn sensible(m: ModelV) -> bool {
    let hp = m.hyperparams;
    &&& 0 < hp.n_heads && 0 < hp.n_kv_heads
    &&& 0 < hp.hidden_size <= 0x10_0000
    &&& 0 < hp.ffn_hidden_size <= 0x10_0000
    &&& 0 < hp.vocab_size <= 0x10_0000
    &&& 0 < hp.n_layers <= 0x10_0000
    &&& hp.hidden_size % hp.n_heads == 0
    &&& hp.n_heads % hp.n_kv_heads == 0
    &&& (hp.hidden_size / hp.n_heads) % 2 == 0
}

/// Whether layer `i` has the tensors that it needs.
pub open spec fn layer_complete(m: ModelV, i: nat) -> bool {
    let hp = m.hyperparams;
    let h = hp.hidden_size;
    let f = hp.ffn_hidden_size;
    let kv = (head(m) * hp.n_kv_heads) as u64;
    &&& has(m, of_layer(i, "attn_norm.weight"@), seq![h])
    &&& has(m, of_layer(i, "attn.q_proj.weight"@), seq![h, h])
    &&& may_have(m, of_layer(i, "attn.q_proj.bias"@), seq![h])
    &&& has(m, of_layer(i, "attn.k_proj.weight"@), seq![kv, h])
    &&& may_have(m, of_layer(i, "attn.k_proj.bias"@), seq![kv])
    &&& has(m, of_layer(i, "attn.v_proj.weight"@), seq![kv, h])
    &&& may_have(m, of_layer(i, "attn.v_proj.bias"@), seq![kv])
    &&& may_have(m, of_layer(i, "attn.q_norm.weight"@), seq![head(m)])
    &&& may_have(m, of_layer(i, "attn.k_norm.weight"@), seq![head(m)])
    &&& has(m, of_layer(i, "attn.o_proj.weight"@), seq![h, h])
    &&& has(m, of_layer(i, "ffn_norm.weight"@), seq![h])
    &&& has(m, of_layer(i, "ffn.gate_proj.weight"@), seq![f, h])
    &&& has(m, of_layer(i, "ffn.up_proj.weight"@), seq![f, h])
    &&& has(m, of_layer(i, "ffn.down_proj.weight"@), seq![h, f])
}

/// Whether a model has all tensors that its graph needs, in the right shapes.
pub open spec fn complete(m: ModelV) -> bool {
    let hp = m.hyperparams;
    &&& has(m, "token_embed.weight"@, seq![hp.vocab_size, hp.hidden_size])
    &&& forall|i: nat| i < hp.n_layers ==> #[trigger] layer_complete(m, i)
    &&& has(m, "output_norm.weight"@, seq![hp.hidden_size])
    &&& may_have(m, "lm_head.weight"@, seq![hp.vocab_size, hp.hidden_size])
}

/// What a need asks for.
spec fn met(m: ModelV, n: NeedV) -> bool {
    if n.optional {
        may_have(m, n.name, n.shape)
    } else {
        has(m, n.name, n.shape)
    }
}

/// A need is met where there is no fault about it, and only there.
proof fn lemma_met(m: ModelV, n: NeedV)
    requires
        m.tensors.len() <= usize::MAX,
    ensures
        need_fault(m.tensors, n) is None <==> met(m, n),
{
    lemma_called(m, n.name);
    match place_of(m.tensors, n.name) {
        Some(t) => {
            assert(called(m, TensorRef(t), n.name));
            if has(m, n.name, n.shape) {
                let u = choose|u: TensorRef|
                    #[trigger] called(m, u, n.name) && m.tensors[u.0 as int].shape == n.shape;
                assert(u.0 == t) by {
                    if u.0 < t {
                        assert(m.tensors[t as int].name == n.name);
                    } else if t < u.0 {
                        assert(m.tensors[u.0 as int].name == n.name);
                    }
                }
            }
        },
        None => {
            if has(m, n.name, n.shape) {
                let u = choose|u: TensorRef|
                    #[trigger] called(m, u, n.name) && m.tensors[u.0 as int].shape == n.shape;
                assert(m.tensors[u.0 as int].name == n.name);
            }
        },
    }
}

/// Nothing is wrong about needs where each one is met, and only there.
proof fn lemma_all_met(m: ModelV, needs: Seq<NeedV>, k: nat)
    requires
        m.tensors.len() <= usize::MAX,
        k <= needs.len(),
    ensures
        first_fault(m.tensors, needs, k) is None <==> forall|j: int|
            0 <= j < k ==> met(m, #[trigger] needs[j]),
    decreases k,
{
    if k > 0 {
        lemma_all_met(m, needs, (k - 1) as nat);
        lemma_met(m, needs[k - 1]);
    }
}

/// Layer `i` is complete where its fourteen needs are met.
proof fn lemma_layer_complete(m: ModelV, i: nat)
    requires
        hp_fault(m.hyperparams) is None,
    ensures
        layer_complete(m, i) <==> forall|j: int|
            0 <= j < 14 ==> met(m, #[trigger] layer_needs(m.hyperparams, i)[j]),
{
    let hp = m.hyperparams;
    let n = layer_needs(hp, i);
    lemma_hp_bounds(hp);
    if layer_complete(m, i) {
        assert forall|j: int| 0 <= j < 14 implies met(m, #[trigger] n[j]) by {
            assert(met(m, n[0]) && met(m, n[1]) && met(m, n[2]) && met(m, n[3]));
            assert(met(m, n[4]) && met(m, n[5]) && met(m, n[6]) && met(m, n[7]));
            assert(met(m, n[8]) && met(m, n[9]) && met(m, n[10]) && met(m, n[11]));
            assert(met(m, n[12]) && met(m, n[13]));
        }
    }
    if forall|j: int| 0 <= j < 14 ==> met(m, #[trigger] n[j]) {
        assert(met(m, n[0]) && met(m, n[1]) && met(m, n[2]) && met(m, n[3]));
        assert(met(m, n[4]) && met(m, n[5]) && met(m, n[6]) && met(m, n[7]));
        assert(met(m, n[8]) && met(m, n[9]) && met(m, n[10]) && met(m, n[11]));
        assert(met(m, n[12]) && met(m, n[13]));
    }
}

/// A model has a graph where its architecture is a known one, its hyperparameters make
/// sense, and every tensor that it needs is there in the right shape; and only there.
pub proof fn law_which_models_have_a_graph(m: ModelV)
    requires
        m.tensors.len() <= usize::MAX,
    ensures
        model_fault(m) is None <==> !(m.architecture is Unknown) && sensible(m) && complete(m),
        m.architecture matches ArchitectureV::Unknown(id) ==> model_fault(m) == Some(
            GraphFault::UnsupportedArch(id),
        ),
        !(m.architecture is Unknown) && !sensible(m) ==> model_fault(m) matches Some(
            GraphFault::BadHyperParams(_),
        ),
{
    let hp = m.hyperparams;
    assert(hp_fault(hp) is None <==> sensible(m));
    if hp_fault(hp) is None {
        let needs = all_needs(hp);
        let mid = layers_needs(hp, hp.n_layers as nat);
        let at = 1 + 14 * hp.n_layers;
        lemma_all_met(m, needs, needs.len());
        lemma_layers_needs_len(hp, hp.n_layers as nat);
        assert(needs.len() == at + 2);
        let fine = forall|j: int| 0 <= j < needs.len() ==> met(m, #[trigger] needs[j]);
        if fine {
            assert(met(m, needs[0]) && met(m, needs[at]) && met(m, needs[at + 1]));
            assert forall|i: nat| i < hp.n_layers implies #[trigger] layer_complete(m, i) by {
                assert forall|j: int| 0 <= j < 14 implies met(m, #[trigger] layer_needs(hp, i)[j]) by {
                    lemma_layer_needs_at(hp, hp.n_layers as nat, i, j);
                    assert(needs[1 + 14 * i + j] == mid[14 * i + j]);
                    assert(met(m, needs[1 + 14 * i + j]));
                }
                lemma_layer_complete(m, i);
            }
        }
        if complete(m) {
            assert forall|j: int| 0 <= j < needs.len() implies met(m, #[trigger] needs[j]) by {
                if 1 <= j < at {
                    let i = ((j - 1) / 14) as nat;
                    let k = (j - 1) % 14;
                    assert(layer_complete(m, i));
                    lemma_layer_complete(m, i);
                    lemma_layer_needs_at(hp, hp.n_layers as nat, i, k);
                    assert(needs[j] == mid[14 * i + k]);
                    assert(met(m, layer_needs(hp, i)[k]));
                }
            }
        }
    }
}

/// What a fault says of a tensor is so: one that is missing is not there, and one of
/// another shape has the shape that is named.
pub proof fn law_faults_are_true(m: ModelV)
    requires
        m.tensors.len() <= usize::MAX,
    ensures
        model_fault(m) matches Some(GraphFault::MissingTensor(name)) ==> absent(m, name),
        model_fault(m) matches Some(GraphFault::ShapeMismatch { name, expected, got }) ==> has(
            m,
            name,
            got,
        ) && got != expected,
{
    let needs = all_needs(m.hyperparams);
    if !(m.architecture is Unknown) && hp_fault(m.hyperparams) is None {
        lemma_fault_true(m, needs, needs.len());
    }
}

proof fn lemma_fault_true(m: ModelV, needs: Seq<NeedV>, k: nat)
    requires
        m.tensors.len() <= usize::MAX,
        k <= needs.len(),
    ensures
        first_fault(m.tensors, needs, k) matches Some(GraphFault::MissingTensor(name)) ==> absent(
            m,
            name,
        ),
        first_fault(m.tensors, needs, k) matches Some(
            GraphFault::ShapeMismatch { name, expected, got },
        ) ==> has(m, name, got) && got != expected,
        first_fault(m.tensors, needs, k) matches Some(f) ==> f is MissingTensor
            || f is ShapeMismatch,
    decreases k,
{
    if k > 0 {
        lemma_fault_true(m, needs, (k - 1) as nat);
        lemma_called(m, needs[k - 1].name);
        if place_of(m.tensors, needs[k - 1].name) is Some {
            let t = TensorRef(place_of(m.tensors, needs[k - 1].name)->0);
            assert(called(m, t, needs[k - 1].name));
        }
    }
}

} // verus!
