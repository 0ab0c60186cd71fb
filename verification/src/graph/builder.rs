//! From a model description to its graph. One builder covers the Llama family:
//! which canonical tensors are there decides about biases, query and key norms,
//! and tied embeddings. Everything that a model file can get wrong is an error.

use vstd::prelude::*;
use vstd::string::StringExecFns;

use crate::formats::desc::{
    tensors_view, Architecture, ArchitectureV, HyperParams, ModelDesc, ModelV, TensorDesc, TensorV,
};
use crate::graph::error::{GraphError, GraphFault};
use crate::graph::ir::{nodes_view, Dim, Graph, GraphV, Node, NodeV, Op, Shape, TensorRef};
use crate::text::{dec, dec_text, text_eq};

verus! {

/// The largest dimension that a model file can ask for.
pub const MAX_DIM: u64 = 1_048_576;

/// A tensor that the graph needs: its name and shape, and whether the model can do
/// without it.
pub struct Need {
    pub name: String,
    pub shape: Vec<u64>,
    pub optional: bool,
}

/// The model of a [`Need`].
#[verifier::ext_equal]
pub struct NeedV {
    pub name: Seq<char>,
    pub shape: Seq<u64>,
    pub optional: bool,
}

impl View for Need {
    type V = NeedV;

    open spec fn view(&self) -> NeedV {
        NeedV { name: self.name@, shape: self.shape@, optional: self.optional }
    }
}

/// The models of a list of needs.
pub open spec fn needs_view(s: Seq<Need>) -> Seq<NeedV> {
    s.map_values(|n: Need| n@)
}

/// What is wrong with hyperparameters, if anything.
pub open spec fn hp_fault(hp: HyperParams) -> Option<Seq<char>> {
    if hp.n_heads == 0 || hp.n_kv_heads == 0 || hp.hidden_size == 0 || hp.n_layers == 0 {
        Some("zero-valued hyperparameter"@)
    } else if hp.hidden_size % hp.n_heads != 0 {
        Some(
            "hidden "@ + dec(hp.hidden_size as nat) + " not divisible by heads "@ + dec(
                hp.n_heads as nat,
            ),
        )
    } else if hp.n_heads % hp.n_kv_heads != 0 {
        Some(
            "heads "@ + dec(hp.n_heads as nat) + " not divisible by kv heads "@ + dec(
                hp.n_kv_heads as nat,
            ),
        )
    } else if (hp.hidden_size / hp.n_heads) % 2 != 0 {
        Some(
            "head_dim "@ + dec((hp.hidden_size / hp.n_heads) as nat) + " must be even for rope"@,
        )
    } else if dim_bad(hp.hidden_size) {
        Some(dim_fault("hidden_size"@, hp.hidden_size))
    } else if dim_bad(hp.ffn_hidden_size) {
        Some(dim_fault("ffn_hidden_size"@, hp.ffn_hidden_size))
    } else if dim_bad(hp.vocab_size) {
        Some(dim_fault("vocab_size"@, hp.vocab_size))
    } else if dim_bad(hp.n_layers) {
        Some(dim_fault("n_layers"@, hp.n_layers))
    } else {
        None
    }
}

/// Whether a dimension is zero or too large.
pub open spec fn dim_bad(v: u64) -> bool {
    v == 0 || v > MAX_DIM
}

/// What is said of a dimension that is zero or too large.
pub open spec fn dim_fault(what: Seq<char>, v: u64) -> Seq<char> {
    what + " = "@ + dec(v as nat) + " outside 1..="@ + dec(MAX_DIM as nat)
}

fn dim_message(what: &str, v: u64) -> (s: String)
    ensures
        s@ == dim_fault(what@, v),
{
    let mut s = what.to_owned();
    s.append(" = ");
    s.append(dec_text(v).as_str());
    s.append(" outside 1..=");
    s.append(dec_text(MAX_DIM).as_str());
    s
}

/// Checks hyperparameters.
pub fn check_hyperparams(hp: &HyperParams) -> (r: Option<String>)
    ensures
        match r {
            Some(s) => hp_fault(*hp) == Some(s@),
            None => hp_fault(*hp) is None,
        },
{
    if hp.n_heads == 0 || hp.n_kv_heads == 0 || hp.hidden_size == 0 || hp.n_layers == 0 {
        return Some("zero-valued hyperparameter".to_owned());
    }
    if hp.hidden_size % hp.n_heads != 0 {
        let mut s = "hidden ".to_owned();
        s.append(dec_text(hp.hidden_size).as_str());
        s.append(" not divisible by heads ");
        s.append(dec_text(hp.n_heads).as_str());
        return Some(s);
    }
    if hp.n_heads % hp.n_kv_heads != 0 {
        let mut s = "heads ".to_owned();
        s.append(dec_text(hp.n_heads).as_str());
        s.append(" not divisible by kv heads ");
        s.append(dec_text(hp.n_kv_heads).as_str());
        return Some(s);
    }
    let head_dim: u64 = hp.hidden_size / hp.n_heads;
    if head_dim % 2 != 0 {
        let mut s = "head_dim ".to_owned();
        s.append(dec_text(head_dim).as_str());
        s.append(" must be even for rope");
        return Some(s);
    }
    if hp.hidden_size == 0 || hp.hidden_size > MAX_DIM {
        return Some(dim_message("hidden_size", hp.hidden_size));
    }
    if hp.ffn_hidden_size == 0 || hp.ffn_hidden_size > MAX_DIM {
        return Some(dim_message("ffn_hidden_size", hp.ffn_hidden_size));
    }
    if hp.vocab_size == 0 || hp.vocab_size > MAX_DIM {
        return Some(dim_message("vocab_size", hp.vocab_size));
    }
    if hp.n_layers == 0 || hp.n_layers > MAX_DIM {
        return Some(dim_message("n_layers", hp.n_layers));
    }
    None
}

/// The size of a head.
pub open spec fn head_dim_of(hp: HyperParams) -> u64 {
    hp.hidden_size / hp.n_heads
}

/// The size of all key (or value) heads together.
pub open spec fn kv_dim_of(hp: HyperParams) -> u64 {
    (head_dim_of(hp) * hp.n_kv_heads) as u64
}

/// Sound hyperparameters keep every dimension within the limit.
pub proof fn lemma_hp_bounds(hp: HyperParams)
    requires
        hp_fault(hp) is None,
    ensures
        hp.n_heads > 0,
        hp.n_kv_heads > 0,
        head_dim_of(hp) > 0,
        head_dim_of(hp) % 2 == 0,
        head_dim_of(hp) * hp.n_heads == hp.hidden_size,
        head_dim_of(hp) * hp.n_kv_heads <= hp.hidden_size <= MAX_DIM,
        kv_dim_of(hp) == head_dim_of(hp) * hp.n_kv_heads,
        kv_dim_of(hp) > 0,
{
    let d = head_dim_of(hp);
    vstd::arithmetic::div_mod::lemma_fundamental_div_mod(hp.hidden_size as int, hp.n_heads as int);
    vstd::arithmetic::div_mod::lemma_fundamental_div_mod(hp.n_heads as int, hp.n_kv_heads as int);
    assert(d * hp.n_heads == hp.hidden_size) by (nonlinear_arith)
        requires
            hp.hidden_size == hp.n_heads * d,
    ;
    assert(d > 0) by (nonlinear_arith)
        requires
            d * hp.n_heads > 0,
            d >= 0,
    ;
    if hp.n_kv_heads > hp.n_heads {
        vstd::arithmetic::div_mod::lemma_small_mod(hp.n_heads as nat, hp.n_kv_heads as nat);
    }
    assert(hp.n_kv_heads <= hp.n_heads);
    assert(d * hp.n_kv_heads <= d * hp.n_heads) by (nonlinear_arith)
        requires
            hp.n_kv_heads <= hp.n_heads,
            d > 0,
    ;
    assert(d * hp.n_kv_heads > 0) by (nonlinear_arith)
        requires
            d > 0,
            hp.n_kv_heads > 0,
    ;
}

/// A tensor that must be there.
pub open spec fn must(name: Seq<char>, shape: Seq<u64>) -> NeedV {
    NeedV { name, shape, optional: false }
}

/// A tensor that may be there.
pub open spec fn may(name: Seq<char>, shape: Seq<u64>) -> NeedV {
    NeedV { name, shape, optional: true }
}

/// `layers.{i}.{s}`.
pub open spec fn layer_label(i: nat, s: Seq<char>) -> Seq<char> {
    "layers."@ + dec(i) + "."@ + s
}

fn layer_string(i: u64, s: &str) -> (r: String)
    ensures
        r@ == layer_label(i as nat, s@),
{
    let mut r = "layers.".to_owned();
    r.append(dec_text(i).as_str());
    r.append(".");
    r.append(s);
    r
}

/// What layer `i` needs, in the order in which it is looked for.
pub open spec fn layer_needs(hp: HyperParams, i: nat) -> Seq<NeedV> {
    let h = hp.hidden_size;
    let f = hp.ffn_hidden_size;
    let kv = kv_dim_of(hp);
    let hd = head_dim_of(hp);
    seq![
        must(layer_label(i, "attn_norm.weight"@), seq![h]),
        must(layer_label(i, "attn.q_proj.weight"@), seq![h, h]),
        may(layer_label(i, "attn.q_proj.bias"@), seq![h]),
        must(layer_label(i, "attn.k_proj.weight"@), seq![kv, h]),
        may(layer_label(i, "attn.k_proj.bias"@), seq![kv]),
        must(layer_label(i, "attn.v_proj.weight"@), seq![kv, h]),
        may(layer_label(i, "attn.v_proj.bias"@), seq![kv]),
        may(layer_label(i, "attn.q_norm.weight"@), seq![hd]),
        may(layer_label(i, "attn.k_norm.weight"@), seq![hd]),
        must(layer_label(i, "attn.o_proj.weight"@), seq![h, h]),
        must(layer_label(i, "ffn_norm.weight"@), seq![h]),
        must(layer_label(i, "ffn.gate_proj.weight"@), seq![f, h]),
        must(layer_label(i, "ffn.up_proj.weight"@), seq![f, h]),
        must(layer_label(i, "ffn.down_proj.weight"@), seq![h, f]),
    ]
}

/// What the first `k` layers need.
pub open spec fn layers_needs(hp: HyperParams, k: nat) -> Seq<NeedV>
    decreases k,
{
    if k == 0 {
        Seq::empty()
    } else {
        layers_needs(hp, (k - 1) as nat) + layer_needs(hp, (k - 1) as nat)
    }
}

/// What the graph needs, in the order in which it is looked for.
pub open spec fn all_needs(hp: HyperParams) -> Seq<NeedV> {
    seq![must("token_embed.weight"@, seq![hp.vocab_size, hp.hidden_size])] + layers_needs(
        hp,
        hp.n_layers as nat,
    ) + seq![
        must("output_norm.weight"@, seq![hp.hidden_size]),
        may("lm_head.weight"@, seq![hp.vocab_size, hp.hidden_size]),
    ]
}

pub proof fn lemma_layers_needs_len(hp: HyperParams, k: nat)
    ensures
        layers_needs(hp, k).len() == 14 * k,
    decreases k,
{
    if k > 0 {
        lemma_layers_needs_len(hp, (k - 1) as nat);
    }
}

/// The place of the tensor called `name`: of several with one name the last counts.
pub open spec fn place_of(ts: Seq<TensorV>, name: Seq<char>) -> Option<usize>
    decreases ts.len(),
{
    if ts.len() == 0 {
        None
    } else if ts.last().name == name {
        Some((ts.len() - 1) as usize)
    } else {
        place_of(ts.drop_last(), name)
    }
}

/// A tensor that is found stands in the list under that name.
pub proof fn lemma_place_of(ts: Seq<TensorV>, name: Seq<char>)
    requires
        ts.len() <= usize::MAX,
    ensures
        place_of(ts, name) matches Some(i) ==> i < ts.len() && ts[i as int].name == name,
        place_of(ts, name) is None ==> forall|i: int| 0 <= i < ts.len() ==> ts[i].name != name,
    decreases ts.len(),
{
    if ts.len() > 0 && ts.last().name != name {
        lemma_place_of(ts.drop_last(), name);
        assert forall|i: int|
            place_of(ts, name) is None && 0 <= i < ts.len() implies ts[i].name != name by {
            if i < ts.len() - 1 {
                assert(ts.drop_last()[i] == ts[i]);
            }
        }
    }
}

/// The place of the tensor called `name`.
fn find_tensor(ts: &Vec<TensorDesc>, name: &str) -> (r: Option<usize>)
    ensures
        r == place_of(tensors_view(ts@), name@),
        r matches Some(i) ==> i < ts@.len(),
{
    let ghost all = tensors_view(ts@);
    let mut i: usize = ts.len();
    proof {
        assert(all.take(i as int) =~= all);
    }
    while i > 0
        invariant
            i <= ts@.len(),
            all == tensors_view(ts@),
            place_of(all, name@) == place_of(all.take(i as int), name@),
        decreases i,
    {
        i -= 1;
        proof {
            assert(all.take(i + 1).drop_last() =~= all.take(i as int));
            assert(all.take(i + 1).last() == ts@[i as int]@);
        }
        if text_eq(ts[i].name.as_str(), name) {
            return Some(i);
        }
    }
    None
}

/// What is wrong about a need, if anything: an optional tensor may be absent, but
/// one that is there must have the right shape.
pub open spec fn need_fault(ts: Seq<TensorV>, n: NeedV) -> Option<GraphFault> {
    match place_of(ts, n.name) {
        None => if n.optional {
            None
        } else {
            Some(GraphFault::MissingTensor(n.name))
        },
        Some(i) => if ts[i as int].shape == n.shape {
            None
        } else {
            Some(
                GraphFault::ShapeMismatch {
                    name: n.name,
                    expected: n.shape,
                    got: ts[i as int].shape,
                },
            )
        },
    }
}

/// The first thing that is wrong about the first `k` needs.
pub open spec fn first_fault(ts: Seq<TensorV>, needs: Seq<NeedV>, k: nat) -> Option<GraphFault>
    decreases k,
{
    if k == 0 {
        None
    } else {
        match first_fault(ts, needs, (k - 1) as nat) {
            Some(e) => Some(e),
            None => need_fault(ts, needs[k - 1]),
        }
    }
}

proof fn lemma_first_fault_stays(ts: Seq<TensorV>, needs: Seq<NeedV>, k: nat, n: nat)
    requires
        k <= n,
        first_fault(ts, needs, k) is Some,
    ensures
        first_fault(ts, needs, n) == first_fault(ts, needs, k),
    decreases n - k,
{
    if k < n {
        lemma_first_fault_stays(ts, needs, k, (n - 1) as nat);
    }
}

pub proof fn lemma_no_fault(ts: Seq<TensorV>, needs: Seq<NeedV>, k: nat, i: nat)
    requires
        i < k,
        first_fault(ts, needs, k) is None,
    ensures
        need_fault(ts, needs[i as int]) is None,
    decreases k,
{
    if i < k - 1 {
        lemma_no_fault(ts, needs, (k - 1) as nat, i);
    }
}

/// Where the needed tensors stand.
pub open spec fn places(ts: Seq<TensorV>, needs: Seq<NeedV>) -> Seq<Option<usize>> {
    needs.map_values(|n: NeedV| place_of(ts, n.name))
}

fn same_shape(a: &Vec<u64>, b: &Vec<u64>) -> (r: bool)
    ensures
        r == (a@ == b@),
{
    if a.len() != b.len() {
        return false;
    }
    let mut i: usize = 0;
    while i < a.len()
        invariant
            i <= a@.len(),
            a@.len() == b@.len(),
            forall|k: int| 0 <= k < i ==> a@[k] == b@[k],
        decreases a.len() - i,
    {
        if a[i] != b[i] {
            return false;
        }
        i += 1;
    }
    proof {
        assert(a@ =~= b@);
    }
    true
}

/// Looks for the needed tensors: where they stand, or the first thing that is
/// wrong.
pub fn resolve(ts: &Vec<TensorDesc>, needs: &Vec<Need>) -> (r: Result<
    Vec<Option<usize>>,
    GraphError,
>)
    ensures
        match r {
            Ok(p) => {
                &&& first_fault(tensors_view(ts@), needs_view(needs@), needs@.len()) is None
                &&& p@ == places(tensors_view(ts@), needs_view(needs@))
                &&& forall|i: int|
                    0 <= i < p@.len() ==> (#[trigger] p@[i] matches Some(k) ==> k < ts@.len())
            },
            Err(e) => first_fault(tensors_view(ts@), needs_view(needs@), needs@.len()) == Some(e@),
        },
{
    let ghost all = tensors_view(ts@);
    let ghost ns = needs_view(needs@);
    let mut p: Vec<Option<usize>> = Vec::new();
    let mut i: usize = 0;
    proof {
        assert(p@ =~= places(all, ns).take(0));
    }
    while i < needs.len()
        invariant
            i <= needs@.len(),
            all == tensors_view(ts@),
            ns == needs_view(needs@),
            first_fault(all, ns, i as nat) is None,
            p@ == places(all, ns).take(i as int),
            forall|k: int|
                0 <= k < p@.len() ==> (#[trigger] p@[k] matches Some(j) ==> j < ts@.len()),
        decreases needs.len() - i,
    {
        proof {
            assert(ns[i as int] == needs@[i as int]@);
        }
        let found = find_tensor(ts, needs[i].name.as_str());
        match found {
            None => {
                if !needs[i].optional {
                    proof {
                        lemma_first_fault_stays(all, ns, i as nat + 1, ns.len());
                    }
                    return Err(GraphError::MissingTensor(needs[i].name.clone()));
                }
            },
            Some(k) => {
                proof {
                    assert(all[k as int] == ts@[k as int]@);
                }
                if !same_shape(&ts[k].shape, &needs[i].shape) {
                    proof {
                        lemma_first_fault_stays(all, ns, i as nat + 1, ns.len());
                    }
                    return Err(
                        GraphError::ShapeMismatch {
                            name: needs[i].name.clone(),
                            expected: needs[i].shape.clone(),
                            got: ts[k].shape.clone(),
                        },
                    );
                }
            },
        }
        p.push(found);
        i += 1;
        proof {
            assert(places(all, ns).take(i as int) =~= places(all, ns).take(i - 1).push(found));
        }
    }
    proof {
        assert(places(all, ns).take(i as int) =~= places(all, ns));
    }
    Ok(p)
}

fn dims1(a: u64) -> (v: Vec<u64>)
    ensures
        v@ == seq![a],
{
    let mut v: Vec<u64> = Vec::new();
    v.push(a);
    assert(v@ =~= seq![a]);
    v
}

fn dims2(a: u64, b: u64) -> (v: Vec<u64>)
    ensures
        v@ == seq![a, b],
{
    let mut v: Vec<u64> = Vec::new();
    v.push(a);
    v.push(b);
    assert(v@ =~= seq![a, b]);
    v
}

fn layer_need(i: u64, s: &str, shape: Vec<u64>, optional: bool) -> (n: Need)
    ensures
        n@ == (NeedV { name: layer_label(i as nat, s@), shape: shape@, optional }),
{
    Need { name: layer_string(i, s), shape, optional }
}

/// Appends what layer `i` needs.
fn push_layer_needs(v: &mut Vec<Need>, hp: &HyperParams, kv: u64, hd: u64, i: u64)
    requires
        kv == kv_dim_of(*hp),
        hd == head_dim_of(*hp),
    ensures
        needs_view(final(v)@) == needs_view(old(v)@) + layer_needs(*hp, i as nat),
{
    let ghost start = needs_view(v@);
    let h: u64 = hp.hidden_size;
    let f: u64 = hp.ffn_hidden_size;
    let n0 = layer_need(i, "attn_norm.weight", dims1(h), false);
    let n1 = layer_need(i, "attn.q_proj.weight", dims2(h, h), false);
    let n2 = layer_need(i, "attn.q_proj.bias", dims1(h), true);
    let n3 = layer_need(i, "attn.k_proj.weight", dims2(kv, h), false);
    let n4 = layer_need(i, "attn.k_proj.bias", dims1(kv), true);
    let n5 = layer_need(i, "attn.v_proj.weight", dims2(kv, h), false);
    let n6 = layer_need(i, "attn.v_proj.bias", dims1(kv), true);
    let n7 = layer_need(i, "attn.q_norm.weight", dims1(hd), true);
    let n8 = layer_need(i, "attn.k_norm.weight", dims1(hd), true);
    let n9 = layer_need(i, "attn.o_proj.weight", dims2(h, h), false);
    let n10 = layer_need(i, "ffn_norm.weight", dims1(h), false);
    let n11 = layer_need(i, "ffn.gate_proj.weight", dims2(f, h), false);
    let n12 = layer_need(i, "ffn.up_proj.weight", dims2(f, h), false);
    let n13 = layer_need(i, "ffn.down_proj.weight", dims2(h, f), false);
    let ghost views = seq![
        n0@, n1@, n2@, n3@, n4@, n5@, n6@, n7@, n8@, n9@, n10@, n11@, n12@, n13@,
    ];
    proof {
        assert(views =~= layer_needs(*hp, i as nat));
    }
    v.push(n0);
    v.push(n1);
    v.push(n2);
    v.push(n3);
    v.push(n4);
    v.push(n5);
    v.push(n6);
    v.push(n7);
    v.push(n8);
    v.push(n9);
    v.push(n10);
    v.push(n11);
    v.push(n12);
    v.push(n13);
    proof {
        assert(needs_view(v@) =~= start + views);
    }
}

/// What comes first in two lists of needs: what is wrong in the first, else in the second.
proof fn lemma_fault_of_both(ts: Seq<TensorV>, a: Seq<NeedV>, b: Seq<NeedV>, k: nat)
    requires
        k <= b.len(),
    ensures
        first_fault(ts, a + b, a.len() + k) == match first_fault(ts, a, a.len()) {
            Some(e) => Some(e),
            None => first_fault(ts, b, k),
        },
    decreases k,
{
    if k == 0 {
        lemma_fault_of_first(ts, a, b, a.len());
    } else {
        lemma_fault_of_both(ts, a, b, (k - 1) as nat);
        assert((a + b)[a.len() + k - 1] == b[k - 1]);
    }
}

proof fn lemma_fault_of_first(ts: Seq<TensorV>, a: Seq<NeedV>, b: Seq<NeedV>, k: nat)
    requires
        k <= a.len(),
    ensures
        first_fault(ts, a + b, k) == first_fault(ts, a, k),
    decreases k,
{
    if k > 0 {
        lemma_fault_of_first(ts, a, b, (k - 1) as nat);
        assert((a + b)[k - 1] == a[k - 1]);
    }
}

/// Looks for some more of the needed tensors, behind those of `before`, which are there.
fn resolve_more(
    ts: &Vec<TensorDesc>,
    needs: Vec<Need>,
    p: &mut Vec<Option<usize>>,
    Ghost(before): Ghost<Seq<NeedV>>,
    Ghost(rest): Ghost<Seq<NeedV>>,
) -> (r: Option<GraphError>)
    requires
        first_fault(tensors_view(ts@), before, before.len()) is None,
        old(p)@ == places(tensors_view(ts@), before),
    ensures
        ({
            let all = tensors_view(ts@);
            let so_far = before + needs_view(needs@);
            match r {
                None => {
                    &&& first_fault(all, so_far, so_far.len()) is None
                    &&& final(p)@ == places(all, so_far)
                },
                Some(e) => first_fault(all, so_far + rest, (so_far + rest).len()) == Some(e@),
            }
        }),
{
    let ghost all = tensors_view(ts@);
    let ghost ns = needs_view(needs@);
    let ghost so_far = before + ns;
    proof {
        lemma_fault_of_both(all, before, ns, ns.len());
        assert(so_far.len() == before.len() + ns.len());
    }
    match resolve(ts, &needs) {
        Ok(found) => {
            let mut found = found;
            let ghost f = found@;
            let ghost start = p@;
            p.append(&mut found);
            proof {
                assert(p@ =~= start + f);
                assert(places(all, so_far) =~= places(all, before) + places(all, ns));
            }
            None
        },
        Err(e) => {
            proof {
                lemma_fault_of_both(all, so_far, rest, rest.len());
                assert((so_far + rest).len() == so_far.len() + rest.len());
            }
            Some(e)
        },
    }
}

/// The needs of layers `k` and on, and what follows the layers.
spec fn needs_from(hp: HyperParams, k: nat) -> Seq<NeedV> {
    all_needs(hp).skip(1 + 14 * k as int)
}

/// The needs of the embedding and of the first `k` layers come first.
proof fn lemma_needs_split(hp: HyperParams, k: nat)
    requires
        k <= hp.n_layers,
    ensures
        seq![must("token_embed.weight"@, seq![hp.vocab_size, hp.hidden_size])] + layers_needs(hp, k)
            + needs_from(hp, k) == all_needs(hp),
{
    let first = seq![must("token_embed.weight"@, seq![hp.vocab_size, hp.hidden_size])];
    lemma_layers_needs_len(hp, k);
    lemma_layers_needs_len(hp, hp.n_layers as nat);
    lemma_layers_prefix(hp, k, hp.n_layers as nat);
    let all = all_needs(hp);
    let head = first + layers_needs(hp, k);
    assert(head =~= all.take(1 + 14 * k as int));
    assert(head + needs_from(hp, k) =~= all);
}

/// The needs of fewer layers are the first of those of more.
proof fn lemma_layers_prefix(hp: HyperParams, k: nat, n: nat)
    requires
        k <= n,
    ensures
        layers_needs(hp, n).len() == 14 * n,
        layers_needs(hp, n).take(14 * k as int) == layers_needs(hp, k),
    decreases n - k,
{
    lemma_layers_needs_len(hp, n);
    lemma_layers_needs_len(hp, k);
    if k < n {
        let m = (n - 1) as nat;
        lemma_layers_prefix(hp, k, m);
        assert(layers_needs(hp, n).take(14 * k as int) =~= layers_needs(hp, m).take(14 * k as int));
    } else {
        assert(layers_needs(hp, n).take(14 * k as int) =~= layers_needs(hp, n));
    }
}

/// Looks for all that the graph needs, layer by layer, so that the first thing that is
/// wrong ends the search.
fn resolve_all(ts: &Vec<TensorDesc>, hp: &HyperParams) -> (r: Result<Vec<Option<usize>>, GraphError>)
    requires
        hp_fault(*hp) is None,
    ensures
        ({
            let all = tensors_view(ts@);
            let needs = all_needs(*hp);
            match r {
                Ok(p) => first_fault(all, needs, needs.len()) is None && p@ == places(all, needs),
                Err(e) => first_fault(all, needs, needs.len()) == Some(e@),
            }
        }),
{
    proof {
        lemma_hp_bounds(*hp);
    }
    let ghost all = tensors_view(ts@);
    let ghost first = seq![must("token_embed.weight"@, seq![hp.vocab_size, hp.hidden_size])];
    let hd: u64 = hp.hidden_size / hp.n_heads;
    let kv: u64 = hd * hp.n_kv_heads;
    let mut p: Vec<Option<usize>> = Vec::new();
    let mut v: Vec<Need> = Vec::new();
    v.push(
        Need {
            name: "token_embed.weight".to_owned(),
            shape: dims2(hp.vocab_size, hp.hidden_size),
            optional: false,
        },
    );
    proof {
        assert(p@ =~= places(all, Seq::empty()));
        assert(needs_view(v@) =~= first);
        assert(Seq::<NeedV>::empty() + first =~= first);
        assert(first + layers_needs(*hp, 0) =~= first);
        lemma_needs_split(*hp, 0);
    }
    if let Some(e) = resolve_more(
        ts,
        v,
        &mut p,
        Ghost(Seq::empty()),
        Ghost(needs_from(*hp, 0)),
    ) {
        return Err(e);
    }
    let mut i: u64 = 0;
    while i < hp.n_layers
        invariant
            i <= hp.n_layers,
            kv == kv_dim_of(*hp),
            hd == head_dim_of(*hp),
            all == tensors_view(ts@),
            first == seq![must("token_embed.weight"@, seq![hp.vocab_size, hp.hidden_size])],
            ({
                let so_far = first + layers_needs(*hp, i as nat);
                first_fault(all, so_far, so_far.len()) is None && p@ == places(all, so_far)
            }),
        decreases hp.n_layers - i,
    {
        let mut v: Vec<Need> = Vec::new();
        push_layer_needs(&mut v, hp, kv, hd, i);
        let ghost so_far = first + layers_needs(*hp, i as nat);
        proof {
            assert(needs_view(v@) =~= layer_needs(*hp, i as nat));
            assert(so_far + layer_needs(*hp, i as nat) =~= first + layers_needs(*hp, i as nat + 1));
            lemma_needs_split(*hp, i as nat + 1);
        }
        if let Some(e) = resolve_more(
            ts,
            v,
            &mut p,
            Ghost(so_far),
            Ghost(needs_from(*hp, i as nat + 1)),
        ) {
            return Err(e);
        }
        i += 1;
    }
    let mut v: Vec<Need> = Vec::new();
    v.push(
        Need {
            name: "output_norm.weight".to_owned(),
            shape: dims1(hp.hidden_size),
            optional: false,
        },
    );
    v.push(
        Need {
            name: "lm_head.weight".to_owned(),
            shape: dims2(hp.vocab_size, hp.hidden_size),
            optional: true,
        },
    );
    let ghost so_far = first + layers_needs(*hp, hp.n_layers as nat);
    proof {
        assert(so_far + needs_view(v@) =~= all_needs(*hp));
        assert(all_needs(*hp) + Seq::<NeedV>::empty() =~= all_needs(*hp));
    }
    match resolve_more(ts, v, &mut p, Ghost(so_far), Ghost(Seq::empty())) {
        Some(e) => Err(e),
        None => Ok(p),
    }
}

/// A node whose value has a row of `width` numbers for each token.
pub open spec fn node(op: Op, inputs: Seq<usize>, width: u64, label: Seq<char>) -> NodeV {
    NodeV { op, inputs, out_shape: seq![Dim::SeqLen, Dim::Const(width)], label }
}

/// The width of a node's value.
pub open spec fn width(n: NodeV) -> u64 {
    match n.out_shape[1] {
        Dim::Const(w) => w,
        Dim::SeqLen => 0,
    }
}

/// Whether `v` is the value of one of the nodes `p`.
pub open spec fn is_value(p: Seq<NodeV>, v: usize) -> bool {
    1 <= v <= p.len()
}

/// The width of value `v`.
pub open spec fn width_of(p: Seq<NodeV>, v: usize) -> u64 {
    width(p[v - 1])
}

/// Whether a node can stand behind the nodes `p`: it takes their values only, and
/// the weights and widths fit together.
pub open spec fn node_ok(p: Seq<NodeV>, n: NodeV, m: ModelV) -> bool {
    let ts = m.tensors;
    let w = width(n);
    &&& n.out_shape == seq![Dim::SeqLen, Dim::Const(w)]
    &&& 0 < w <= MAX_DIM
    &&& match n.op {
        Op::Embed { weight } => {
            &&& n.inputs == seq![0usize]
            &&& weight.0 < ts.len()
            &&& ts[weight.0 as int].shape == seq![m.hyperparams.vocab_size, w]
            &&& w == m.hyperparams.hidden_size
        },
        Op::MatMul { weight, bias } => {
            &&& n.inputs.len() == 1
            &&& is_value(p, n.inputs[0])
            &&& weight.0 < ts.len()
            &&& ts[weight.0 as int].shape == seq![w, width_of(p, n.inputs[0])]
            &&& bias matches Some(b) ==> b.0 < ts.len() && ts[b.0 as int].shape == seq![w]
        },
        Op::RmsNorm { weight, eps: _, head_dim } => {
            let unit = match head_dim {
                Some(d) => d,
                None => w,
            };
            &&& n.inputs.len() == 1
            &&& is_value(p, n.inputs[0])
            &&& width_of(p, n.inputs[0]) == w
            &&& weight.0 < ts.len()
            &&& ts[weight.0 as int].shape == seq![unit]
            &&& 0 < unit
            &&& w % unit == 0
        },
        Op::Rope { theta: _, style: _, n_heads, head_dim } => {
            &&& n.inputs.len() == 1
            &&& is_value(p, n.inputs[0])
            &&& width_of(p, n.inputs[0]) == w
            &&& n_heads * head_dim == w
            &&& head_dim % 2 == 0
        },
        Op::Attention { layer, n_heads, n_kv_heads, head_dim } => {
            &&& n.inputs.len() == 3
            &&& is_value(p, n.inputs[0])
            &&& is_value(p, n.inputs[1])
            &&& is_value(p, n.inputs[2])
            &&& n_heads * head_dim == w
            &&& width_of(p, n.inputs[0]) == w
            &&& width_of(p, n.inputs[1]) == n_kv_heads * head_dim
            &&& width_of(p, n.inputs[2]) == n_kv_heads * head_dim
            &&& 0 < n_kv_heads
            &&& n_heads % n_kv_heads == 0
            &&& layer < m.hyperparams.n_layers
            &&& head_dim == head_dim_of(m.hyperparams)
            &&& n_kv_heads == m.hyperparams.n_kv_heads
        },
        Op::SwiGlu => {
            &&& n.inputs.len() == 2
            &&& is_value(p, n.inputs[0])
            &&& is_value(p, n.inputs[1])
            &&& width_of(p, n.inputs[0]) == w
            &&& width_of(p, n.inputs[1]) == w
        },
        Op::Add => {
            &&& n.inputs.len() == 2
            &&& is_value(p, n.inputs[0])
            &&& is_value(p, n.inputs[1])
            &&& width_of(p, n.inputs[0]) == w
            &&& width_of(p, n.inputs[1]) == w
        },
    }
}

/// Whether every node can stand where it stands: the list is in topological order,
/// and the weights and widths fit together.
#[verifier::opaque]
pub open spec fn nodes_ok(s: Seq<NodeV>, m: ModelV) -> bool {
    forall|i: int| 0 <= i < s.len() ==> node_ok(s.take(i), #[trigger] s[i], m)
}

/// Whether a node attends in layer `l`.
pub open spec fn attends(n: NodeV, l: int) -> bool {
    n.op matches Op::Attention { layer, .. } && layer == l
}

/// Whether some node attends in layer `l`.
pub open spec fn layer_attends(s: Seq<NodeV>, l: int) -> bool {
    exists|i: int| 0 <= i < s.len() && attends(#[trigger] s[i], l)
}

/// Whether the attention nodes belong to the layers below `k`, each layer to one
/// of them, in order.
#[verifier::opaque]
pub open spec fn layers_ascend(s: Seq<NodeV>, k: nat) -> bool {
    &&& forall|i: int|
        0 <= i < s.len() ==> ((#[trigger] s[i]).op matches Op::Attention { layer, .. } ==> layer
            < k)
    &&& forall|i: int, j: int|
        0 <= i < j < s.len() ==> ((#[trigger] s[i]).op matches Op::Attention { layer: a, .. }
            ==> ((#[trigger] s[j]).op matches Op::Attention { layer: b, .. } ==> a < b))
    &&& forall|l: int| 0 <= l < k ==> #[trigger] layer_attends(s, l)
}

/// Whether a graph fits its model: the nodes are in order and fit together, the
/// output is the value of one of them, and each layer attends once.
pub open spec fn well_formed(g: GraphV, m: ModelV) -> bool {
    &&& hp_fault(m.hyperparams) is None
    &&& nodes_ok(g.nodes, m)
    &&& layers_ascend(g.nodes, m.hyperparams.n_layers as nat)
    &&& g.nodes.len() <= usize::MAX
    &&& is_value(g.nodes, g.output)
    &&& width_of(g.nodes, g.output) == m.hyperparams.vocab_size
    &&& g.n_layers == m.hyperparams.n_layers
    &&& g.n_kv_heads == m.hyperparams.n_kv_heads
    &&& g.head_dim == head_dim_of(m.hyperparams)
}

proof fn lemma_nodes_push(s: Seq<NodeV>, n: NodeV, m: ModelV)
    requires
        nodes_ok(s, m),
        node_ok(s, n, m),
    ensures
        nodes_ok(s.push(n), m),
{
    reveal(nodes_ok);
    let t = s.push(n);
    assert forall|i: int| 0 <= i < t.len() implies node_ok(t.take(i), #[trigger] t[i], m) by {
        if i < s.len() {
            assert(t.take(i) =~= s.take(i));
            assert(t[i] == s[i]);
            assert(node_ok(s.take(i), s[i], m));
        } else {
            assert(t.take(i) =~= s);
        }
    }
}

/// A tensor that was found.
pub open spec fn found(r: Seq<Option<usize>>, at: int) -> TensorRef {
    match r[at] {
        Some(i) => TensorRef(i),
        None => TensorRef(0),
    }
}

/// A tensor that may have been found.
pub open spec fn found_opt(r: Seq<Option<usize>>, at: int) -> Option<TensorRef> {
    match r[at] {
        Some(i) => Some(TensorRef(i)),
        None => None,
    }
}

/// A norm with the tensor at place `at` of `r`.
pub open spec fn norm_op(hp: HyperParams, r: Seq<Option<usize>>, at: int, d: Option<u64>) -> Op {
    Op::RmsNorm { weight: found(r, at), eps: hp.norm_eps, head_dim: d }
}

/// A product with the tensor at place `at` of `r`.
pub open spec fn mat_op(r: Seq<Option<usize>>, at: int) -> Op {
    Op::MatMul { weight: found(r, at), bias: None }
}

/// A product with the tensor at place `at` of `r`, and the bias behind it, if any.
pub open spec fn proj_op(r: Seq<Option<usize>>, at: int) -> Op {
    Op::MatMul { weight: found(r, at), bias: found_opt(r, at + 1) }
}

/// A rotation of `n` heads.
pub open spec fn rope_op(hp: HyperParams, n: u64) -> Op {
    Op::Rope {
        theta: hp.rope_theta,
        style: hp.rope_style,
        n_heads: n,
        head_dim: head_dim_of(hp),
    }
}

/// The attention of layer `i`.
pub open spec fn attention_op(hp: HyperParams, i: nat) -> Op {
    Op::Attention {
        layer: i as usize,
        n_heads: hp.n_heads,
        n_kv_heads: hp.n_kv_heads,
        head_dim: head_dim_of(hp),
    }
}

/// The nodes `s` and, behind them, those of layer `i` up to the rotated queries and
/// keys: the nodes, and the values of queries, keys and values.
pub open spec fn with_heads(
    s: Seq<NodeV>,
    x: usize,
    hp: HyperParams,
    i: nat,
    r: Seq<Option<usize>>,
    at: int,
) -> (Seq<NodeV>, usize, usize, usize) {
    let h = hp.hidden_size;
    let kv = kv_dim_of(hp);
    let hd = head_dim_of(hp);
    let s1 = s.push(node(norm_op(hp, r, at, None), seq![x], h, layer_label(i, "attn_norm"@)));
    let hn = s1.len() as usize;
    let s2 = s1.push(node(proj_op(r, at + 1), seq![hn], h, layer_label(i, "attn.q_proj"@)));
    let q0 = s2.len() as usize;
    let s3 = s2.push(node(proj_op(r, at + 3), seq![hn], kv, layer_label(i, "attn.k_proj"@)));
    let k0 = s3.len() as usize;
    let s4 = s3.push(node(proj_op(r, at + 5), seq![hn], kv, layer_label(i, "attn.v_proj"@)));
    let vv = s4.len() as usize;
    let (s5, q1) = if r[at + 7] is Some {
        (
            s4.push(
                node(
                    norm_op(hp, r, at + 7, Some(hd)),
                    seq![q0],
                    h,
                    layer_label(i, "attn.q_norm"@),
                ),
            ),
            (s4.len() + 1) as usize,
        )
    } else {
        (s4, q0)
    };
    let (s6, k1) = if r[at + 8] is Some {
        (
            s5.push(
                node(
                    norm_op(hp, r, at + 8, Some(hd)),
                    seq![k0],
                    kv,
                    layer_label(i, "attn.k_norm"@),
                ),
            ),
            (s5.len() + 1) as usize,
        )
    } else {
        (s5, k0)
    };
    let s7 = s6.push(node(rope_op(hp, hp.n_heads), seq![q1], h, layer_label(i, "rope_q"@)));
    let q2 = s7.len() as usize;
    let s8 = s7.push(node(rope_op(hp, hp.n_kv_heads), seq![k1], kv, layer_label(i, "rope_k"@)));
    (s8, q2, s8.len() as usize, vv)
}

/// The nodes `s` and, behind them, those of layer `i` from the attention to its
/// residual: the nodes and the value that they give.
pub open spec fn with_attention(
    s: Seq<NodeV>,
    x: usize,
    q: usize,
    k: usize,
    v: usize,
    hp: HyperParams,
    i: nat,
    r: Seq<Option<usize>>,
    at: int,
) -> (Seq<NodeV>, usize) {
    let h = hp.hidden_size;
    let s9 = s.push(node(attention_op(hp, i), seq![q, k, v], h, layer_label(i, "attention"@)));
    let a = s9.len() as usize;
    let s10 = s9.push(node(mat_op(r, at + 9), seq![a], h, layer_label(i, "attn.o_proj"@)));
    let o = s10.len() as usize;
    let s11 = s10.push(node(Op::Add, seq![x, o], h, layer_label(i, "residual_attn"@)));
    (s11, s11.len() as usize)
}

/// The nodes `s` and, behind them, the feed-forward part of layer `i`: the nodes
/// and the value that they give.
pub open spec fn with_ffn(
    s: Seq<NodeV>,
    y: usize,
    hp: HyperParams,
    i: nat,
    r: Seq<Option<usize>>,
    at: int,
) -> (Seq<NodeV>, usize) {
    let h = hp.hidden_size;
    let f = hp.ffn_hidden_size;
    let s12 = s.push(
        node(norm_op(hp, r, at + 10, None), seq![y], h, layer_label(i, "ffn_norm"@)),
    );
    let hf = s12.len() as usize;
    let s13 = s12.push(node(mat_op(r, at + 11), seq![hf], f, layer_label(i, "ffn.gate"@)));
    let g = s13.len() as usize;
    let s14 = s13.push(node(mat_op(r, at + 12), seq![hf], f, layer_label(i, "ffn.up"@)));
    let u = s14.len() as usize;
    let s15 = s14.push(node(Op::SwiGlu, seq![g, u], f, layer_label(i, "swiglu"@)));
    let sw = s15.len() as usize;
    let s16 = s15.push(node(mat_op(r, at + 13), seq![sw], h, layer_label(i, "ffn.down"@)));
    let d = s16.len() as usize;
    let s17 = s16.push(node(Op::Add, seq![y, d], h, layer_label(i, "residual_ffn"@)));
    (s17, s17.len() as usize)
}

/// The nodes `s` and, behind them, those of layer `i`, whose tensors stand in `r`
/// from `at` on; and the value that the layer gives for value `x`.
pub open spec fn with_layer(
    s: Seq<NodeV>,
    x: usize,
    hp: HyperParams,
    i: nat,
    r: Seq<Option<usize>>,
    at: int,
) -> (Seq<NodeV>, usize) {
    let (s8, q, k, v) = with_heads(s, x, hp, i, r, at);
    let (s11, y) = with_attention(s8, x, q, k, v, hp, i, r, at);
    with_ffn(s11, y, hp, i, r, at)
}

/// The embedding node and the first `k` layers, and the value that they give.
pub open spec fn with_layers(hp: HyperParams, r: Seq<Option<usize>>, k: nat) -> (
    Seq<NodeV>,
    usize,
)
    decreases k,
{
    if k == 0 {
        (
            seq![
                node(Op::Embed { weight: found(r, 0) }, seq![0usize], hp.hidden_size, "embed"@),
            ],
            1,
        )
    } else {
        let (s, x) = with_layers(hp, r, (k - 1) as nat);
        with_layer(s, x, hp, (k - 1) as nat, r, 1 + 14 * (k - 1))
    }
}

/// All nodes: the embedding, the layers, the last norm and the projection to the
/// vocabulary, which uses the embedding table where there is no other.
pub open spec fn all_nodes(hp: HyperParams, r: Seq<Option<usize>>) -> Seq<NodeV> {
    let (s, x) = with_layers(hp, r, hp.n_layers as nat);
    let at = 1 + 14 * hp.n_layers;
    let t = s.push(
        node(
            Op::RmsNorm { weight: found(r, at), eps: hp.norm_eps, head_dim: None },
            seq![x],
            hp.hidden_size,
            "output_norm"@,
        ),
    );
    let lm = match r[at + 1] {
        Some(i) => TensorRef(i),
        None => found(r, 0),
    };
    t.push(
        node(
            Op::MatMul { weight: lm, bias: None },
            seq![t.len() as usize],
            hp.vocab_size,
            "lm_head"@,
        ),
    )
}

/// The graph of a model whose tensors are all there.
pub open spec fn built(m: ModelV) -> GraphV {
    let hp = m.hyperparams;
    let nodes = all_nodes(hp, places(m.tensors, all_needs(hp)));
    GraphV {
        nodes,
        output: nodes.len() as usize,
        n_layers: hp.n_layers,
        n_kv_heads: hp.n_kv_heads,
        head_dim: head_dim_of(hp),
    }
}

/// What is wrong with a model, if anything: its architecture, its
/// hyperparameters, or the first tensor that is missing or has the wrong shape.
pub open spec fn model_fault(m: ModelV) -> Option<GraphFault> {
    match m.architecture {
        ArchitectureV::Unknown(id) => Some(GraphFault::UnsupportedArch(id)),
        _ => match hp_fault(m.hyperparams) {
            Some(s) => Some(GraphFault::BadHyperParams(s)),
            None => first_fault(
                m.tensors,
                all_needs(m.hyperparams),
                all_needs(m.hyperparams).len(),
            ),
        },
    }
}

/// Appends a node.
fn push(
    nodes: &mut Vec<Node>,
    op: Op,
    inputs: Vec<usize>,
    w: u64,
    label: String,
    Ghost(m): Ghost<ModelV>,
) -> (id: usize)
    requires
        nodes_ok(nodes_view(old(nodes)@), m),
        node_ok(nodes_view(old(nodes)@), node(op, inputs@, w, label@), m),
        old(nodes)@.len() < 0x1000_0000,
    ensures
        nodes_view(final(nodes)@) == nodes_view(old(nodes)@).push(node(op, inputs@, w, label@)),
        nodes_ok(nodes_view(final(nodes)@), m),
        final(nodes)@.len() == old(nodes)@.len() + 1,
        id == final(nodes)@.len(),
        width_of(nodes_view(final(nodes)@), id) == w,
        forall|v: usize|
            1 <= v <= old(nodes)@.len() ==> #[trigger] width_of(nodes_view(final(nodes)@), v)
                == width_of(nodes_view(old(nodes)@), v),
        forall|k: nat|
            layers_ascend(nodes_view(old(nodes)@), k) && !(op is Attention) ==> #[trigger]
                layers_ascend(nodes_view(final(nodes)@), k),
{
    let ghost before = nodes_view(nodes@);
    let mut dims: Vec<Dim> = Vec::new();
    dims.push(Dim::SeqLen);
    dims.push(Dim::Const(w));
    let n = Node { op, inputs, out_shape: Shape(dims), label };
    proof {
        assert(n@.out_shape =~= seq![Dim::SeqLen, Dim::Const(w)]);
        assert(n@ =~= node(op, inputs@, w, label@));
        lemma_nodes_push(before, n@, m);
    }
    nodes.push(n);
    proof {
        let after = nodes_view(nodes@);
        assert(after =~= before.push(n@));
        assert forall|k: nat|
            layers_ascend(before, k) && !(op is Attention) implies #[trigger] layers_ascend(
            after,
            k,
        ) by {
            lemma_ascend_push(before, n@, k);
        }
    }
    nodes.len()
}

/// A node that does not attend leaves the order of the layers as it is.
proof fn lemma_ascend_push(s: Seq<NodeV>, n: NodeV, k: nat)
    requires
        layers_ascend(s, k),
        !(n.op is Attention),
    ensures
        layers_ascend(s.push(n), k),
{
    reveal(layers_ascend);
    let t = s.push(n);
    assert forall|i: int| 0 <= i < t.len() implies ((#[trigger] t[i]).op matches Op::Attention {
        layer,
        ..
    } ==> layer < k) by {
        if i < s.len() {
            assert(t[i] == s[i]);
        }
    }
    assert forall|i: int, j: int| 0 <= i < j < t.len() implies ((#[trigger] t[i]).op matches
        Op::Attention { layer: a, .. } ==> ((#[trigger] t[j]).op matches Op::Attention {
        layer: b,
        ..
    } ==> a < b)) by {
        if j < s.len() {
            assert(t[i] == s[i] && t[j] == s[j]);
        }
    }
    assert forall|l: int| 0 <= l < k implies #[trigger] layer_attends(t, l) by {
        assert(layer_attends(s, l));
        let i = choose|i: int| 0 <= i < s.len() && attends(#[trigger] s[i], l);
        assert(attends(t[i], l));
    }
}

/// The attention of the next layer keeps the order of the layers.
proof fn lemma_ascend_attend(s: Seq<NodeV>, n: NodeV, k: nat)
    requires
        layers_ascend(s, k),
        n.op matches Op::Attention { layer, .. } && layer == k,
    ensures
        layers_ascend(s.push(n), k + 1),
{
    reveal(layers_ascend);
    let t = s.push(n);
    assert forall|i: int| 0 <= i < t.len() implies ((#[trigger] t[i]).op matches Op::Attention {
        layer,
        ..
    } ==> layer < k + 1) by {
        if i < s.len() {
            assert(t[i] == s[i]);
        }
    }
    assert forall|i: int, j: int| 0 <= i < j < t.len() implies ((#[trigger] t[i]).op matches
        Op::Attention { layer: a, .. } ==> ((#[trigger] t[j]).op matches Op::Attention {
        layer: b,
        ..
    } ==> a < b)) by {
        assert(t[i] == s[i]);
        if j < s.len() {
            assert(t[j] == s[j]);
        }
    }
    assert forall|l: int| 0 <= l < k + 1 implies #[trigger] layer_attends(t, l) by {
        if l < k {
            assert(layer_attends(s, l));
            let i = choose|i: int| 0 <= i < s.len() && attends(#[trigger] s[i], l);
            assert(attends(t[i], l));
        } else {
            assert(attends(t[s.len() as int], l));
        }
    }
}

fn one(a: usize) -> (v: Vec<usize>)
    ensures
        v@ == seq![a],
{
    let mut v: Vec<usize> = Vec::new();
    v.push(a);
    assert(v@ =~= seq![a]);
    v
}

fn two(a: usize, b: usize) -> (v: Vec<usize>)
    ensures
        v@ == seq![a, b],
{
    let mut v: Vec<usize> = Vec::new();
    v.push(a);
    v.push(b);
    assert(v@ =~= seq![a, b]);
    v
}

fn three(a: usize, b: usize, c: usize) -> (v: Vec<usize>)
    ensures
        v@ == seq![a, b, c],
{
    let mut v: Vec<usize> = Vec::new();
    v.push(a);
    v.push(b);
    v.push(c);
    assert(v@ =~= seq![a, b, c]);
    v
}

fn tensor_at(r: &Vec<Option<usize>>, at: usize) -> (t: TensorRef)
    requires
        at < r@.len(),
    ensures
        t == found(r@, at as int),
{
    match r[at] {
        Some(i) => TensorRef(i),
        None => TensorRef(0),
    }
}

fn tensor_opt(r: &Vec<Option<usize>>, at: usize) -> (t: Option<TensorRef>)
    requires
        at < r@.len(),
    ensures
        t == found_opt(r@, at as int),
{
    match r[at] {
        Some(i) => Some(TensorRef(i)),
        None => None,
    }
}

/// Whether the tensor at place `at` of `r` fits a need.
pub open spec fn fits(ts: Seq<TensorV>, r: Seq<Option<usize>>, at: int, n: NeedV) -> bool {
    match r[at] {
        Some(i) => i < ts.len() && ts[i as int].shape == n.shape,
        None => n.optional,
    }
}

/// Whether the tensors of a layer, at place `at` of `r` and behind it, fit its
/// needs.
pub open spec fn layer_fits(
    ts: Seq<TensorV>,
    r: Seq<Option<usize>>,
    at: int,
    hp: HyperParams,
    i: nat,
) -> bool {
    forall|k: int| 0 <= k < 14 ==> #[trigger] fits(ts, r, at + k, layer_needs(hp, i)[k])
}

/// What is known while a graph is built.
pub open spec fn building(nodes: Seq<Node>, hp: HyperParams, m: ModelV, k: nat) -> bool {
    &&& nodes_ok(nodes_view(nodes), m)
    &&& layers_ascend(nodes_view(nodes), k)
    &&& hp == m.hyperparams
    &&& hp_fault(hp) is None
}

/// Appends the nodes of layer `i` up to the rotated queries and keys.
fn push_heads(
    nodes: &mut Vec<Node>,
    x: usize,
    hp: &HyperParams,
    i: u64,
    r: &Vec<Option<usize>>,
    at: usize,
    Ghost(m): Ghost<ModelV>,
) -> (qkv: (usize, usize, usize))
    requires
        building(old(nodes)@, *hp, m, i as nat),
        1 <= x <= old(nodes)@.len() < 0x0800_0000,
        width_of(nodes_view(old(nodes)@), x) == hp.hidden_size,
        at + 14 <= r@.len(),
        layer_fits(m.tensors, r@, at as int, *hp, i as nat),
    ensures
        building(final(nodes)@, *hp, m, i as nat),
        (nodes_view(final(nodes)@), qkv.0, qkv.1, qkv.2) == with_heads(
            nodes_view(old(nodes)@),
            x,
            *hp,
            i as nat,
            r@,
            at as int,
        ),
        old(nodes)@.len() <= final(nodes)@.len() <= old(nodes)@.len() + 8,
        1 <= qkv.0 <= final(nodes)@.len(),
        1 <= qkv.1 <= final(nodes)@.len(),
        1 <= qkv.2 <= final(nodes)@.len(),
        width_of(nodes_view(final(nodes)@), x) == hp.hidden_size,
        width_of(nodes_view(final(nodes)@), qkv.0) == hp.hidden_size,
        width_of(nodes_view(final(nodes)@), qkv.1) == kv_dim_of(*hp),
        width_of(nodes_view(final(nodes)@), qkv.2) == kv_dim_of(*hp),
{
    let total: usize = r.len();
    assert(at + 14 <= total);
    proof {
        lemma_hp_bounds(*hp);
        let needs = layer_needs(*hp, i as nat);
        assert(fits(m.tensors, r@, at + 0, needs[0]));
        assert(fits(m.tensors, r@, at + 1, needs[1]));
        assert(fits(m.tensors, r@, at + 2, needs[2]));
        assert(fits(m.tensors, r@, at + 3, needs[3]));
        assert(fits(m.tensors, r@, at + 4, needs[4]));
        assert(fits(m.tensors, r@, at + 5, needs[5]));
        assert(fits(m.tensors, r@, at + 6, needs[6]));
        assert(fits(m.tensors, r@, at + 7, needs[7]));
        assert(fits(m.tensors, r@, at + 8, needs[8]));
    }
    let h: u64 = hp.hidden_size;
    let hd: u64 = hp.hidden_size / hp.n_heads;
    let kv: u64 = hd * hp.n_kv_heads;
    proof {
        lemma_head_multiples(*hp);
    }
    let hn: usize = push(
        nodes,
        Op::RmsNorm { weight: tensor_at(r, at), eps: hp.norm_eps, head_dim: None },
        one(x),
        h,
        layer_string(i, "attn_norm"),
        Ghost(m),
    );
    let q0: usize = push(
        nodes,
        Op::MatMul { weight: tensor_at(r, at + 1), bias: tensor_opt(r, at + 2) },
        one(hn),
        h,
        layer_string(i, "attn.q_proj"),
        Ghost(m),
    );
    let k0: usize = push(
        nodes,
        Op::MatMul { weight: tensor_at(r, at + 3), bias: tensor_opt(r, at + 4) },
        one(hn),
        kv,
        layer_string(i, "attn.k_proj"),
        Ghost(m),
    );
    let vv: usize = push(
        nodes,
        Op::MatMul { weight: tensor_at(r, at + 5), bias: tensor_opt(r, at + 6) },
        one(hn),
        kv,
        layer_string(i, "attn.v_proj"),
        Ghost(m),
    );
    let q1: usize = if r[at + 7].is_some() {
        push(
            nodes,
            Op::RmsNorm { weight: tensor_at(r, at + 7), eps: hp.norm_eps, head_dim: Some(hd) },
            one(q0),
            h,
            layer_string(i, "attn.q_norm"),
            Ghost(m),
        )
    } else {
        q0
    };
    let k1: usize = if r[at + 8].is_some() {
        push(
            nodes,
            Op::RmsNorm { weight: tensor_at(r, at + 8), eps: hp.norm_eps, head_dim: Some(hd) },
            one(k0),
            kv,
            layer_string(i, "attn.k_norm"),
            Ghost(m),
        )
    } else {
        k0
    };
    let q2: usize = push(
        nodes,
        Op::Rope {
            theta: hp.rope_theta,
            style: hp.rope_style,
            n_heads: hp.n_heads,
            head_dim: hd,
        },
        one(q1),
        h,
        layer_string(i, "rope_q"),
        Ghost(m),
    );
    let k2: usize = push(
        nodes,
        Op::Rope {
            theta: hp.rope_theta,
            style: hp.rope_style,
            n_heads: hp.n_kv_heads,
            head_dim: hd,
        },
        one(k1),
        kv,
        layer_string(i, "rope_k"),
        Ghost(m),
    );
    (q2, k2, vv)
}

/// Heads fill the rows of queries, keys and values.
proof fn lemma_head_multiples(hp: HyperParams)
    requires
        hp_fault(hp) is None,
    ensures
        hp.hidden_size % head_dim_of(hp) == 0,
        kv_dim_of(hp) % head_dim_of(hp) == 0,
        hp.n_heads * head_dim_of(hp) == hp.hidden_size,
        hp.n_kv_heads * head_dim_of(hp) == kv_dim_of(hp),
{
    lemma_hp_bounds(hp);
    let d = head_dim_of(hp) as int;
    vstd::arithmetic::div_mod::lemma_mod_multiples_basic(hp.n_heads as int, d);
    vstd::arithmetic::div_mod::lemma_mod_multiples_basic(hp.n_kv_heads as int, d);
    assert(hp.n_heads * d == d * hp.n_heads) by (nonlinear_arith);
    assert(hp.n_kv_heads * d == d * hp.n_kv_heads) by (nonlinear_arith);
}

/// Appends the nodes of layer `i` from the attention to its residual.
fn push_attention(
    nodes: &mut Vec<Node>,
    x: usize,
    q: usize,
    k: usize,
    v: usize,
    hp: &HyperParams,
    i: u64,
    r: &Vec<Option<usize>>,
    at: usize,
    Ghost(m): Ghost<ModelV>,
) -> (y: usize)
    requires
        building(old(nodes)@, *hp, m, i as nat),
        old(nodes)@.len() < 0x0900_0000,
        i < hp.n_layers,
        1 <= x <= old(nodes)@.len(),
        1 <= q <= old(nodes)@.len(),
        1 <= k <= old(nodes)@.len(),
        1 <= v <= old(nodes)@.len(),
        width_of(nodes_view(old(nodes)@), x) == hp.hidden_size,
        width_of(nodes_view(old(nodes)@), q) == hp.hidden_size,
        width_of(nodes_view(old(nodes)@), k) == kv_dim_of(*hp),
        width_of(nodes_view(old(nodes)@), v) == kv_dim_of(*hp),
        at + 14 <= r@.len(),
        layer_fits(m.tensors, r@, at as int, *hp, i as nat),
    ensures
        building(final(nodes)@, *hp, m, i as nat + 1),
        (nodes_view(final(nodes)@), y) == with_attention(
            nodes_view(old(nodes)@),
            x,
            q,
            k,
            v,
            *hp,
            i as nat,
            r@,
            at as int,
        ),
        final(nodes)@.len() == old(nodes)@.len() + 3,
        y == final(nodes)@.len(),
        width_of(nodes_view(final(nodes)@), y) == hp.hidden_size,
{
    let total: usize = r.len();
    assert(at + 14 <= total);
    proof {
        lemma_hp_bounds(*hp);
        lemma_head_multiples(*hp);
        assert(fits(m.tensors, r@, at + 9, layer_needs(*hp, i as nat)[9]));
    }
    let h: u64 = hp.hidden_size;
    let hd: u64 = hp.hidden_size / hp.n_heads;
    let ghost before = nodes_view(nodes@);
    let a: usize = push(
        nodes,
        Op::Attention {
            layer: i as usize,
            n_heads: hp.n_heads,
            n_kv_heads: hp.n_kv_heads,
            head_dim: hd,
        },
        three(q, k, v),
        h,
        layer_string(i, "attention"),
        Ghost(m),
    );
    proof {
        let n = nodes_view(nodes@).last();
        lemma_ascend_attend(before, n, i as nat);
    }
    let o: usize = push(
        nodes,
        Op::MatMul { weight: tensor_at(r, at + 9), bias: None },
        one(a),
        h,
        layer_string(i, "attn.o_proj"),
        Ghost(m),
    );
    push(nodes, Op::Add, two(x, o), h, layer_string(i, "residual_attn"), Ghost(m))
}

/// Appends the feed-forward part of layer `i`.
fn push_ffn(
    nodes: &mut Vec<Node>,
    y: usize,
    hp: &HyperParams,
    i: u64,
    r: &Vec<Option<usize>>,
    at: usize,
    Ghost(m): Ghost<ModelV>,
    Ghost(k): Ghost<nat>,
) -> (z: usize)
    requires
        building(old(nodes)@, *hp, m, k),
        1 <= y <= old(nodes)@.len() < 0x0A00_0000,
        width_of(nodes_view(old(nodes)@), y) == hp.hidden_size,
        at + 14 <= r@.len(),
        layer_fits(m.tensors, r@, at as int, *hp, i as nat),
    ensures
        building(final(nodes)@, *hp, m, k),
        (nodes_view(final(nodes)@), z) == with_ffn(
            nodes_view(old(nodes)@),
            y,
            *hp,
            i as nat,
            r@,
            at as int,
        ),
        final(nodes)@.len() == old(nodes)@.len() + 6,
        z == final(nodes)@.len(),
        width_of(nodes_view(final(nodes)@), z) == hp.hidden_size,
{
    let total: usize = r.len();
    assert(at + 14 <= total);
    proof {
        let needs = layer_needs(*hp, i as nat);
        assert(fits(m.tensors, r@, at + 10, needs[10]));
        assert(fits(m.tensors, r@, at + 11, needs[11]));
        assert(fits(m.tensors, r@, at + 12, needs[12]));
        assert(fits(m.tensors, r@, at + 13, needs[13]));
    }
    let h: u64 = hp.hidden_size;
    let f: u64 = hp.ffn_hidden_size;
    proof {
        assert(h % h == 0) by (nonlinear_arith)
            requires
                h > 0,
        ;
    }
    let hf: usize = push(
        nodes,
        Op::RmsNorm { weight: tensor_at(r, at + 10), eps: hp.norm_eps, head_dim: None },
        one(y),
        h,
        layer_string(i, "ffn_norm"),
        Ghost(m),
    );
    let g: usize = push(
        nodes,
        Op::MatMul { weight: tensor_at(r, at + 11), bias: None },
        one(hf),
        f,
        layer_string(i, "ffn.gate"),
        Ghost(m),
    );
    let u: usize = push(
        nodes,
        Op::MatMul { weight: tensor_at(r, at + 12), bias: None },
        one(hf),
        f,
        layer_string(i, "ffn.up"),
        Ghost(m),
    );
    let sw: usize = push(nodes, Op::SwiGlu, two(g, u), f, layer_string(i, "swiglu"), Ghost(m));
    let d: usize = push(
        nodes,
        Op::MatMul { weight: tensor_at(r, at + 13), bias: None },
        one(sw),
        h,
        layer_string(i, "ffn.down"),
        Ghost(m),
    );
    push(nodes, Op::Add, two(y, d), h, layer_string(i, "residual_ffn"), Ghost(m))
}

/// The needs of layer `i` stand behind those of the layers before it.
pub proof fn lemma_layer_needs_at(hp: HyperParams, k: nat, i: nat, j: int)
    requires
        i < k,
        0 <= j < 14,
    ensures
        layers_needs(hp, k).len() == 14 * k,
        layers_needs(hp, k)[14 * i + j] == layer_needs(hp, i)[j],
    decreases k,
{
    lemma_layers_needs_len(hp, k);
    lemma_layers_needs_len(hp, (k - 1) as nat);
    if i < k - 1 {
        lemma_layer_needs_at(hp, (k - 1) as nat, i, j);
    }
}

/// Where nothing is wrong, every need is met.
proof fn lemma_needs_met(ts: Seq<TensorV>, needs: Seq<NeedV>, at: int)
    requires
        first_fault(ts, needs, needs.len()) is None,
        0 <= at < needs.len(),
        ts.len() <= usize::MAX,
    ensures
        fits(ts, places(ts, needs), at, needs[at]),
{
    lemma_no_fault(ts, needs, needs.len(), at as nat);
    if place_of(ts, needs[at].name) is Some {
        lemma_place_of(ts, needs[at].name);
    }
}

/// Where nothing is wrong, the needs of every layer, and those outside the layers,
/// are met.
proof fn lemma_all_met(m: ModelV, i: nat)
    requires
        model_fault(m) is None,
        m.tensors.len() <= usize::MAX,
        i < m.hyperparams.n_layers,
    ensures
        ({
            let hp = m.hyperparams;
            let needs = all_needs(hp);
            let r = places(m.tensors, needs);
            let at = 1 + 14 * hp.n_layers;
            &&& r.len() == at + 2
            &&& layer_fits(m.tensors, r, (1 + 14 * i) as int, hp, i)
            &&& r[0] matches Some(t) && t < m.tensors.len() && m.tensors[t as int].shape == seq![
                hp.vocab_size,
                hp.hidden_size,
            ]
            &&& r[at] matches Some(t) && t < m.tensors.len() && m.tensors[t as int].shape == seq![
                hp.hidden_size,
            ]
            &&& r[at + 1] matches Some(t) ==> t < m.tensors.len() && m.tensors[t as int].shape
                == seq![hp.vocab_size, hp.hidden_size]
        }),
{
    let hp = m.hyperparams;
    let needs = all_needs(hp);
    let r = places(m.tensors, needs);
    let at = 1 + 14 * hp.n_layers;
    let mid = layers_needs(hp, hp.n_layers as nat);
    lemma_layers_needs_len(hp, hp.n_layers as nat);
    assert(needs.len() == at + 2);
    assert forall|k: int| 0 <= k < 14 implies #[trigger] fits(
        m.tensors,
        r,
        (1 + 14 * i) as int + k,
        layer_needs(hp, i)[k],
    ) by {
        lemma_layer_needs_at(hp, hp.n_layers as nat, i, k);
        assert(needs[1 + 14 * i + k] == mid[14 * i + k]);
        lemma_needs_met(m.tensors, needs, 1 + 14 * i + k);
    }
    lemma_needs_met(m.tensors, needs, 0);
    lemma_needs_met(m.tensors, needs, at);
    lemma_needs_met(m.tensors, needs, at + 1);
}

/// Appends the nodes of layer `i`.
fn push_layer(
    nodes: &mut Vec<Node>,
    x: usize,
    hp: &HyperParams,
    i: u64,
    r: &Vec<Option<usize>>,
    at: usize,
    Ghost(m): Ghost<ModelV>,
) -> (z: usize)
    requires
        building(old(nodes)@, *hp, m, i as nat),
        1 <= x <= old(nodes)@.len() < 0x0800_0000,
        width_of(nodes_view(old(nodes)@), x) == hp.hidden_size,
        at + 14 <= r@.len(),
        i < hp.n_layers,
        layer_fits(m.tensors, r@, at as int, *hp, i as nat),
    ensures
        building(final(nodes)@, *hp, m, i as nat + 1),
        (nodes_view(final(nodes)@), z) == with_layer(
            nodes_view(old(nodes)@),
            x,
            *hp,
            i as nat,
            r@,
            at as int,
        ),
        old(nodes)@.len() <= final(nodes)@.len() <= old(nodes)@.len() + 17,
        z == final(nodes)@.len(),
        width_of(nodes_view(final(nodes)@), z) == hp.hidden_size,
{
    let (q, k, v) = push_heads(nodes, x, hp, i, r, at, Ghost(m));
    let y: usize = push_attention(nodes, x, q, k, v, hp, i, r, at, Ghost(m));
    push_ffn(nodes, y, hp, i, r, at, Ghost(m), Ghost(i as nat + 1))
}

/// The graph of a model whose tensors stand where `r` says.
fn assemble(desc: &ModelDesc, r: &Vec<Option<usize>>) -> (g: Graph)
    requires
        model_fault(desc@) is None,
        r@ == places(desc@.tensors, all_needs(desc@.hyperparams)),
    ensures
        g@ == built(desc@),
        well_formed(g@, desc@),
{
    let hp = &desc.hyperparams;
    let ghost m = desc@;
    let total: usize = r.len();
    let limit: usize = desc.tensors.len();
    proof {
        lemma_hp_bounds(*hp);
        lemma_all_met(m, 0);
        assert(m.tensors.len() == limit);
    }
    let mut nodes: Vec<Node> = Vec::new();
    proof {
        assert(nodes_view(nodes@) =~= Seq::empty());
        assert(nodes_ok(nodes_view(nodes@), m)) by {
            reveal(nodes_ok);
        }
        assert(layers_ascend(nodes_view(nodes@), 0)) by {
            reveal(layers_ascend);
        }
    }
    let mut x: usize = push(
        &mut nodes,
        Op::Embed { weight: tensor_at(r, 0) },
        one(0),
        hp.hidden_size,
        "embed".to_owned(),
        Ghost(m),
    );
    let mut i: u64 = 0;
    let mut at: usize = 1;
    proof {
        assert(nodes_view(nodes@) =~= with_layers(*hp, r@, 0).0);
    }
    while i < hp.n_layers
        invariant
            i <= hp.n_layers <= MAX_DIM,
            at == 1 + 14 * i,
            m == desc@,
            *hp == m.hyperparams,
            model_fault(m) is None,
            m.tensors.len() <= usize::MAX,
            r@ == places(m.tensors, all_needs(*hp)),
            r@.len() == 3 + 14 * hp.n_layers,
            r@.len() == total,
            building(nodes@, *hp, m, i as nat),
            (nodes_view(nodes@), x) == with_layers(*hp, r@, i as nat),
            1 <= x <= nodes@.len() <= 1 + 17 * i,
            width_of(nodes_view(nodes@), x) == hp.hidden_size,
        decreases hp.n_layers - i,
    {
        proof {
            lemma_all_met(m, i as nat);
        }
        x = push_layer(&mut nodes, x, hp, i, r, at, Ghost(m));
        at = at + 14;
        i = i + 1;
    }
    x = push(
        &mut nodes,
        Op::RmsNorm { weight: tensor_at(r, at), eps: hp.norm_eps, head_dim: None },
        one(x),
        hp.hidden_size,
        "output_norm".to_owned(),
        Ghost(m),
    );
    let lm = match tensor_opt(r, at + 1) {
        Some(t) => t,
        None => tensor_at(r, 0),
    };
    let output: usize = push(
        &mut nodes,
        Op::MatMul { weight: lm, bias: None },
        one(x),
        hp.vocab_size,
        "lm_head".to_owned(),
        Ghost(m),
    );
    let head_dim: u64 = hp.hidden_size / hp.n_heads;
    Graph { nodes, output, n_layers: hp.n_layers, n_kv_heads: hp.n_kv_heads, head_dim }
}

/// Builds the graph of a model. Biases, the norms of queries and keys, and a
/// projection of its own for the vocabulary stand in it where the model has the
/// tensors for them.
pub fn build_graph(desc: &ModelDesc) -> (r: Result<Graph, GraphError>)
    ensures
        match r {
            Ok(g) => {
                &&& model_fault(desc@) is None
                &&& g@ == built(desc@)
                &&& well_formed(g@, desc@)
            },
            Err(e) => model_fault(desc@) == Some(e@),
        },
{
    if let Architecture::Unknown(id) = &desc.architecture {
        return Err(GraphError::UnsupportedArch(id.as_str().to_owned()));
    }
    let hp = &desc.hyperparams;
    let ghost m = desc@;
    if let Some(s) = check_hyperparams(hp) {
        return Err(GraphError::BadHyperParams(s));
    }
    let r = match resolve_all(&desc.tensors, hp) {
        Ok(r) => r,
        Err(e) => return Err(e),
    };
    Ok(assemble(desc, &r))
}

/// A model without a projection of its own for the vocabulary projects with the
/// table of its embeddings; one that has it projects with that.
pub proof fn law_tied_embeddings(m: ModelV)
    requires
        model_fault(m) is None,
        m.tensors.len() <= usize::MAX,
    ensures
        built(m).nodes.len() > 0,
        built(m).nodes[0].op matches Op::Embed { weight: table } && built(m).nodes.last().op matches
            Op::MatMul { weight, bias } && bias is None && weight == match place_of(
            m.tensors,
            "lm_head.weight"@,
        ) {
            Some(i) => TensorRef(i),
            None => table,
        },
{
    let hp = m.hyperparams;
    let needs = all_needs(hp);
    let r = places(m.tensors, needs);
    let at = 1 + 14 * hp.n_layers;
    lemma_layers_needs_len(hp, hp.n_layers as nat);
    assert(needs[at + 1].name == "lm_head.weight"@);
    assert(r[at + 1] == place_of(m.tensors, "lm_head.weight"@));
    lemma_first_node(hp, r, hp.n_layers as nat);
}

/// The embedding comes first, however many layers follow.
proof fn lemma_first_node(hp: HyperParams, r: Seq<Option<usize>>, k: nat)
    ensures
        with_layers(hp, r, k).0.len() > 0,
        with_layers(hp, r, k).0[0].op == (Op::Embed { weight: found(r, 0) }),
    decreases k,
{
    if k > 0 {
        lemma_first_node(hp, r, (k - 1) as nat);
    }
}

} // verus!
