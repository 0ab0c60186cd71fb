//! The scalar interpreter: walks a graph node by node. Weights are decoded on first
//! use and kept; the keys and values of earlier tokens stand in a cache.

use std::collections::HashMap;

use vstd::prelude::*;
use vstd::string::StringExecFns;

use crate::formats::data::{read_tensor_bytes, span_within};
use crate::formats::desc::{checked_product, element_count, ModelDesc, ModelV};
use crate::formats::quant::{decoded, dequant, dequant_fault};
use crate::graph::builder::{
    attends, head_dim_of, hp_fault, is_value, layer_attends, layers_ascend, lemma_hp_bounds,
    node_ok, nodes_ok, well_formed, width, width_of, MAX_DIM,
};
use crate::graph::error::{GraphError, GraphFault};
use crate::graph::ir::{Graph, GraphV, Node, NodeV, Op};
use crate::graph::ops::{
    added, attention, attention_of, cache_reaches, embed, embedded, even_heads, lemma_rope_len,
    lemma_visible_row, matmul, matmul_of, norm_unit, rmsnorm, rmsnorm_of, rope, rope_of, swiglu,
    swiglu_of, ArrayV, Attended, Math, MathV, Tensor,
};
use crate::text::{dec, dec_text};

verus! {

/// The most bytes that the cache may take.
pub const MAX_KV_BYTES: u64 = 8_589_934_592;

/// The keys and values of the tokens so far, one list of rows per layer.
pub struct KvCache {
    k: Vec<Vec<u32>>,
    v: Vec<Vec<u32>>,
    kv_dim: usize,
    max_seq_len: usize,
    len: usize,
}

/// The model of a [`KvCache`].
#[verifier::ext_equal]
pub struct KvV {
    pub k: Seq<Seq<u32>>,
    pub v: Seq<Seq<u32>>,
    pub kv_dim: nat,
    pub max_seq_len: nat,
    pub len: nat,
}

/// The models of a list of rows.
pub open spec fn rows_view(s: Seq<Vec<u32>>) -> Seq<Seq<u32>> {
    s.map_values(|v: Vec<u32>| v@)
}

impl View for KvCache {
    type V = KvV;

    closed spec fn view(&self) -> KvV {
        KvV {
            k: rows_view(self.k@),
            v: rows_view(self.v@),
            kv_dim: self.kv_dim as nat,
            max_seq_len: self.max_seq_len as nat,
            len: self.len as nat,
        }
    }
}

/// The bytes that the keys and values of one layer take.
pub open spec fn layer_bytes(g: GraphV, max_seq_len: nat) -> nat {
    (g.n_kv_heads * g.head_dim) as nat * max_seq_len * 8
}

/// What [`KvCache::new`] gives.
pub open spec fn new_cache(g: GraphV, max_seq_len: nat) -> Result<KvV, GraphFault> {
    let per_layer = layer_bytes(g, max_seq_len);
    let total = per_layer * g.n_layers;
    if per_layer > u64::MAX || total > u64::MAX {
        Err(GraphFault::BadHyperParams("kv size overflow"@))
    } else if total > MAX_KV_BYTES {
        Err(
            GraphFault::BadHyperParams(
                "kv cache would need "@ + dec(total as nat) + " bytes (limit "@ + dec(
                    MAX_KV_BYTES as nat,
                ) + ")"@,
            ),
        )
    } else {
        Ok(
            KvV {
                k: Seq::new(g.n_layers as nat, |i: int| Seq::<u32>::empty()),
                v: Seq::new(g.n_layers as nat, |i: int| Seq::<u32>::empty()),
                kv_dim: (g.n_kv_heads * g.head_dim) as nat,
                max_seq_len,
                len: 0,
            },
        )
    }
}

/// Whether a cache can serve a graph: every layer holds the rows of the tokens so
/// far.
pub open spec fn kv_fits(c: KvV, g: GraphV) -> bool {
    &&& c.kv_dim == g.n_kv_heads * g.head_dim
    &&& c.k.len() == g.n_layers
    &&& c.v.len() == g.n_layers
    &&& forall|l: int| 0 <= l < c.k.len() ==> c.len * c.kv_dim <= (#[trigger] c.k[l]).len()
    &&& forall|l: int| 0 <= l < c.v.len() ==> c.len * c.kv_dim <= (#[trigger] c.v[l]).len()
    &&& c.len <= c.max_seq_len
}

/// One empty list per layer, each with room for `room` numbers.
fn empty_rows(layers: usize, room: usize) -> (r: Vec<Vec<u32>>)
    ensures
        rows_view(r@) == Seq::new(layers as nat, |i: int| Seq::<u32>::empty()),
{
    let mut r: Vec<Vec<u32>> = Vec::new();
    let mut i: usize = 0;
    while i < layers
        invariant
            i <= layers,
            r@.len() == i,
            forall|j: int| 0 <= j < i ==> (#[trigger] r@[j])@ == Seq::<u32>::empty(),
        decreases layers - i,
    {
        let row: Vec<u32> = Vec::with_capacity(room);
        assert(row@ =~= Seq::<u32>::empty());
        r.push(row);
        i += 1;
    }
    assert(rows_view(r@) =~= Seq::new(layers as nat, |i: int| Seq::<u32>::empty()));
    r
}

impl KvCache {
    /// An empty cache for sequences of up to `max_seq_len` tokens.
    pub fn new(graph: &Graph, max_seq_len: usize) -> (r: Result<KvCache, GraphError>)
        requires
            graph@.n_kv_heads * graph@.head_dim <= usize::MAX,
            graph@.n_layers <= usize::MAX,
        ensures
            match r {
                Ok(c) => {
                    &&& new_cache(graph@, max_seq_len as nat) == Ok::<KvV, GraphFault>(c@)
                    &&& kv_fits(c@, graph@)
                },
                Err(e) => new_cache(graph@, max_seq_len as nat) == Err::<KvV, GraphFault>(e@),
            },
    {
        let kv_dim: usize = (graph.n_kv_heads * graph.head_dim) as usize;
        let layers: u64 = graph.n_layers;
        let ghost rows = kv_dim * max_seq_len;
        let over = "kv size overflow".to_owned();
        let n: u64 = match (kv_dim as u64).checked_mul(max_seq_len as u64) {
            Some(n) => n,
            None => return Err(GraphError::BadHyperParams(over)),
        };
        let per_layer: u64 = match n.checked_mul(8) {
            Some(n) => n,
            None => return Err(GraphError::BadHyperParams(over)),
        };
        assert(per_layer == layer_bytes(graph@, max_seq_len as nat));
        let total: u64 = match per_layer.checked_mul(layers) {
            Some(n) => n,
            None => return Err(GraphError::BadHyperParams(over)),
        };
        if total > MAX_KV_BYTES {
            let mut s = "kv cache would need ".to_owned();
            s.append(dec_text(total).as_str());
            s.append(" bytes (limit ");
            s.append(dec_text(MAX_KV_BYTES).as_str());
            s.append(")");
            return Err(GraphError::BadHyperParams(s));
        }
        let room: usize = if layers == 0 {
            0
        } else {
            proof {
                assert(per_layer <= total) by (nonlinear_arith)
                    requires
                        total == per_layer * layers,
                        layers >= 1,
                        per_layer >= 0,
                ;
            }
            kv_dim * max_seq_len
        };
        let c = KvCache {
            k: empty_rows(layers as usize, room),
            v: empty_rows(layers as usize, room),
            kv_dim,
            max_seq_len,
            len: 0,
        };
        assert(0 * kv_dim == 0);
        Ok(c)
    }

    /// How many tokens the cache holds.
    pub fn len(&self) -> (n: usize)
        ensures
            n == self@.len,
    {
        self.len
    }

    pub fn is_empty(&self) -> (b: bool)
        ensures
            b == (self@.len == 0),
    {
        self.len == 0
    }

    /// How many tokens it can hold.
    pub fn max_seq_len(&self) -> (n: usize)
        ensures
            n == self@.max_seq_len,
    {
        self.max_seq_len
    }
}

/// The numbers of tensor `i`, decoded from the contents of the weight files.
pub open spec fn weight_of(m: ModelV, files: Seq<Seq<u8>>, i: int) -> Result<
    Seq<u32>,
    GraphFault,
> {
    let t = m.tensors[i];
    let file = files[t.file_index as int];
    match span_within(m, t, file.len()) {
        Err(e) => Err(GraphFault::Format(e)),
        Ok((start, end)) => {
            let bytes = file.subrange(start as int, end as int);
            let n = checked_product(t.shape)->Some_0;
            match dequant_fault(t.dtype, bytes.len(), n) {
                Some(e) => Err(GraphFault::Format(e)),
                None => Ok(Seq::new(n, |j: int| decoded(t.dtype, bytes, j))),
            }
        },
    }
}

/// The contents of a list of files.
pub open spec fn files_view(s: Seq<Vec<u8>>) -> Seq<Seq<u8>> {
    s.map_values(|v: Vec<u8>| v@)
}

/// Runs graphs, and keeps the weights that it has decoded.
pub struct Interpreter {
    weights: HashMap<usize, Vec<u32>>,
}

impl View for Interpreter {
    type V = Map<usize, Seq<u32>>;

    closed spec fn view(&self) -> Map<usize, Seq<u32>> {
        self.weights@.map_values(|v: Vec<u32>| v@)
    }
}

/// Whether the weights that are kept are those of a model.
pub open spec fn kept_fit(kept: Map<usize, Seq<u32>>, m: ModelV, files: Seq<Seq<u8>>) -> bool {
    forall|i: usize|
        kept.contains_key(i) ==> i < m.tensors.len() && weight_of(m, files, i as int) == Ok::<
            Seq<u32>,
            GraphFault,
        >(#[trigger] kept[i])
}

/// Whether the numbers of a tensor can be counted.
pub open spec fn countable(m: ModelV, i: int) -> bool {
    checked_product(m.tensors[i].shape) matches Some(n) && n <= usize::MAX
}

/// Decodes tensor `i`.
pub fn decode_weight(desc: &ModelDesc, files: &Vec<Vec<u8>>, i: usize) -> (r: Result<
    Vec<u32>,
    GraphError,
>)
    requires
        i < desc@.tensors.len(),
        countable(desc@, i as int),
        files@.len() >= desc@.weight_files.len(),
    ensures
        match r {
            Ok(v) => weight_of(desc@, files_view(files@), i as int) == Ok::<Seq<u32>, GraphFault>(
                v@,
            ),
            Err(e) => weight_of(desc@, files_view(files@), i as int) == Err::<
                Seq<u32>,
                GraphFault,
            >(e@),
        },
{
    let t = &desc.tensors[i];
    let ghost m = desc@;
    let ghost fs = files_view(files@);
    proof {
        assert(m.tensors[i as int] == t@);
    }
    let n: u64 = match element_count(&t.shape) {
        Some(n) => n,
        None => 0,
    };
    let at: usize = t.file_index as usize;
    let none: Vec<u8> = Vec::new();
    let file: &Vec<u8> = if at < files.len() {
        &files[at]
    } else {
        &none
    };
    proof {
        if at < files@.len() {
            assert(fs[at as int] == file@);
        }
    }
    let bytes = match read_tensor_bytes(desc, t, file.as_slice()) {
        Ok(b) => b,
        Err(e) => return Err(GraphError::Format(e)),
    };
    match dequant(&t.dtype, bytes.as_slice(), n as usize) {
        Ok(v) => {
            proof {
                assert(weight_of(m, fs, i as int) == Ok::<Seq<u32>, GraphFault>(v@));
            }
            Ok(v)
        },
        Err(e) => Err(GraphError::Format(e)),
    }
}

impl Interpreter {
    /// An interpreter that has decoded nothing yet.
    pub fn new() -> (r: Interpreter)
        ensures
            r@ == Map::<usize, Seq<u32>>::empty(),
    {
        broadcast use vstd::std_specs::hash::group_hash_axioms;

        let r = Interpreter { weights: HashMap::new() };
        assert(r@ =~= Map::<usize, Seq<u32>>::empty());
        r
    }

    /// Decodes tensor `i`, unless that has been done.
    fn load(&mut self, desc: &ModelDesc, files: &Vec<Vec<u8>>, i: usize) -> (r: Result<
        (),
        GraphError,
    >)
        requires
            kept_fit(old(self)@, desc@, files_view(files@)),
            i < desc@.tensors.len(),
            countable(desc@, i as int),
            files@.len() >= desc@.weight_files.len(),
        ensures
            kept_fit(final(self)@, desc@, files_view(files@)),
            match r {
                Ok(_) => {
                    &&& final(self)@.contains_key(i)
                    &&& weight_of(desc@, files_view(files@), i as int) == Ok::<
                        Seq<u32>,
                        GraphFault,
                    >(final(self)@[i])
                },
                Err(e) => weight_of(desc@, files_view(files@), i as int) == Err::<
                    Seq<u32>,
                    GraphFault,
                >(e@),
            },
            forall|j: usize| old(self)@.contains_key(j) ==> final(self)@.contains_key(j),
    {
        broadcast use vstd::std_specs::hash::group_hash_axioms;

        let ghost before = self@;
        if self.weights.contains_key(&i) {
            proof {
                assert(self@.contains_key(i));
                assert(self@[i] == self@[i]);
            }
            return Ok(());
        }
        let ghost m = desc@;
        let ghost fs = files_view(files@);
        let vals = match decode_weight(desc, files, i) {
            Ok(v) => v,
            Err(e) => return Err(e),
        };
        let ghost got = vals@;
        self.weights.insert(i, vals);
        proof {
            assert(self@ =~= before.insert(i, got));
            assert forall|j: usize| self@.contains_key(j) implies j < m.tensors.len()
                && weight_of(m, fs, j as int) == Ok::<Seq<u32>, GraphFault>(
                #[trigger] self@[j],
            ) by {
                if j != i {
                    assert(before.contains_key(j));
                    assert(self@[j] == before[j]);
                }
            }
            assert(kept_fit(self@, m, fs));
        }
        Ok(())
    }

    /// The numbers of a tensor that has been decoded.
    fn kept(&self, i: usize) -> (r: &[u32])
        requires
            self@.contains_key(i),
        ensures
            r@ == self@[i],
    {
        broadcast use vstd::std_specs::hash::group_hash_axioms;

        match self.weights.get(&i) {
            Some(v) => v.as_slice(),
            None => &[],
        }
    }
}

/// What stays the same during a run.
#[verifier::ext_equal]
pub struct Feed {
    pub math: MathV,
    pub model: ModelV,
    pub files: Seq<Seq<u8>>,
    pub tokens: Seq<u32>,
    pub pos: nat,
}

/// The values that nodes have given, as arrays.
pub open spec fn arrays_view(s: Seq<Tensor>) -> Seq<ArrayV> {
    s.map_values(|t: Tensor| t@)
}

/// The value that a node takes as its input `j`.
pub open spec fn arg_of(vals: Seq<ArrayV>, n: NodeV, j: int) -> ArrayV {
    vals[n.inputs[j] - 1]
}

/// The cache when a node has added its keys and values, if it attends.
pub open spec fn cache_after(kv: KvV, vals: Seq<ArrayV>, n: NodeV) -> KvV {
    match n.op {
        Op::Attention { layer, .. } => KvV {
            k: kv.k.update(layer as int, kv.k[layer as int] + arg_of(vals, n, 1).data),
            v: kv.v.update(layer as int, kv.v[layer as int] + arg_of(vals, n, 2).data),
            ..kv
        },
        _ => kv,
    }
}

/// A bias, if the node has one.
pub open spec fn bias_of(c: Feed, op: Op) -> Result<Option<Seq<u32>>, GraphFault> {
    match op {
        Op::MatMul { bias: Some(b), .. } => match weight_of(c.model, c.files, b.0 as int) {
            Ok(v) => Ok(Some(v)),
            Err(e) => Err(e),
        },
        _ => Ok(None),
    }
}

/// What attention reads, when the cache holds the keys and values of this batch.
pub open spec fn attended(c: Feed, vals: Seq<ArrayV>, kv: KvV, n: NodeV) -> Attended {
    let (l, nh, nkv, hd) = match n.op {
        Op::Attention { layer, n_heads, n_kv_heads, head_dim } => (
            layer as int,
            n_heads as int,
            n_kv_heads as int,
            head_dim as int,
        ),
        _ => (0, 0, 0, 0),
    };
    Attended {
        q: arg_of(vals, n, 0).data,
        k: kv.k[l],
        v: kv.v[l],
        n_heads: nh,
        n_kv_heads: nkv,
        head_dim: hd,
        pos_off: c.pos as int,
    }
}

/// What a node gives, out of the values before it and the cache.
#[verifier::opaque]
pub open spec fn node_value(c: Feed, vals: Seq<ArrayV>, kv: KvV, n: NodeV) -> Result<
    ArrayV,
    GraphFault,
> {
    match n.op {
        Op::Embed { weight } => match weight_of(c.model, c.files, weight.0 as int) {
            Err(e) => Err(e),
            Ok(w) => embedded(
                c.tokens,
                w,
                c.model.hyperparams.vocab_size as usize,
                c.model.hyperparams.hidden_size as usize,
            ),
        },
        Op::MatMul { weight, .. } => match bias_of(c, n.op) {
            Err(e) => Err(e),
            Ok(b) => match weight_of(c.model, c.files, weight.0 as int) {
                Err(e) => Err(e),
                Ok(w) => {
                    let shape = c.model.tensors[weight.0 as int].shape;
                    Ok(
                        matmul_of(
                            arg_of(vals, n, 0),
                            w,
                            shape[0] as usize,
                            shape[1] as usize,
                            b,
                        ),
                    )
                },
            },
        },
        Op::RmsNorm { weight, eps, head_dim } => match weight_of(
            c.model,
            c.files,
            weight.0 as int,
        ) {
            Err(e) => Err(e),
            Ok(w) => Ok(
                rmsnorm_of(
                    c.math,
                    arg_of(vals, n, 0),
                    w,
                    eps,
                    norm_unit(
                        arg_of(vals, n, 0),
                        match head_dim {
                            Some(d) => Some(d as usize),
                            None => None,
                        },
                    ),
                ),
            ),
        },
        Op::Rope { theta, style, n_heads, head_dim } => Ok(
            rope_of(
                c.math,
                arg_of(vals, n, 0),
                n_heads as nat,
                head_dim as int,
                theta,
                style,
                c.pos as int,
            ),
        ),
        Op::Attention { .. } => Ok(
            attention_of(c.math, attended(c, vals, kv, n), arg_of(vals, n, 0).shape[0]),
        ),
        Op::SwiGlu => Ok(swiglu_of(c.math, arg_of(vals, n, 0), arg_of(vals, n, 1))),
        Op::Add => Ok(added(arg_of(vals, n, 0), arg_of(vals, n, 1))),
    }
}

/// The values of the first `k` nodes, or the error of the first that fails; and the
/// cache as it is then.
pub open spec fn run_to(c: Feed, g: GraphV, kv: KvV, k: nat) -> (
    Result<Seq<ArrayV>, GraphFault>,
    KvV,
)
    decreases k,
{
    if k == 0 {
        (Ok(Seq::empty()), kv)
    } else {
        match run_to(c, g, kv, (k - 1) as nat) {
            (Err(e), kv1) => (Err(e), kv1),
            (Ok(vals), kv1) => {
                let n = g.nodes[k - 1];
                let kv2 = cache_after(kv1, vals, n);
                match node_value(c, vals, kv2, n) {
                    Err(e) => (Err(e), kv2),
                    Ok(t) => (Ok(vals.push(t)), kv2),
                }
            },
        }
    }
}

/// What [`Interpreter::run`] gives, and the cache behind it.
pub open spec fn run_of(c: Feed, g: GraphV, kv: KvV) -> (Result<ArrayV, GraphFault>, KvV) {
    let got = kv.len + c.tokens.len();
    if got > kv.max_seq_len {
        (Err(GraphFault::SeqTooLong { got, max: kv.max_seq_len }), kv)
    } else {
        match run_to(c, g, kv, g.nodes.len()) {
            (Err(e), kv1) => (Err(e), kv1),
            (Ok(vals), kv1) => (Ok(vals[g.output - 1]), KvV { len: got, ..kv1 }),
        }
    }
}

/// Whether the values have a row for each token, as wide as the nodes say.
pub open spec fn sound(vals: Seq<ArrayV>, nodes: Seq<NodeV>, rows: nat) -> bool {
    &&& vals.len() == nodes.len()
    &&& forall|i: int| 0 <= i < vals.len() ==> value_sound(#[trigger] vals[i], nodes[i], rows)
}

/// Whether a value has a row for each token, as wide as its node says.
pub open spec fn value_sound(t: ArrayV, n: NodeV, rows: nat) -> bool {
    &&& t.shape.len() == 2
    &&& t.shape[0] == rows
    &&& t.shape[1] == width(n)
    &&& t.data.len() == rows * width(n)
}

proof fn lemma_counts(m: ModelV, i: int, shape: Seq<u64>)
    requires
        m.tensors[i].shape == shape,
        shape.len() == 1 || shape.len() == 2,
        forall|j: int| 0 <= j < shape.len() ==> #[trigger] shape[j] <= MAX_DIM,
        MAX_DIM * MAX_DIM <= usize::MAX,
    ensures
        countable(m, i),
        shape.len() == 1 ==> checked_product(shape) == Some(shape[0] as nat),
        shape.len() == 2 ==> checked_product(shape) == Some((shape[0] * shape[1]) as nat),
{
    reveal_with_fuel(checked_product, 3);
    assert(shape.drop_last().drop_last() =~= Seq::<u64>::empty() || shape.len() == 1);
    if shape.len() == 2 {
        assert(shape.drop_last().last() == shape[0]);
        assert(shape[0] * shape[1] <= MAX_DIM * MAX_DIM) by (nonlinear_arith)
            requires
                shape[0] <= MAX_DIM,
                shape[1] <= MAX_DIM,
        ;
        assert(1 * shape[0] == shape[0]);
    } else {
        assert(shape.drop_last() =~= Seq::<u64>::empty());
        assert(1 * shape[0] == shape[0]);
    }
}

/// What holds when a node is run: it fits behind the nodes `p`, whose values are
/// there.
pub open spec fn ready(
    c: Feed,
    p: Seq<NodeV>,
    n: NodeV,
    vals: Seq<ArrayV>,
    g: GraphV,
    kv: KvV,
) -> bool {
    &&& hp_fault(c.model.hyperparams) is None
    &&& nodes_ok(p, c.model)
    &&& node_ok(p, n, c.model)
    &&& sound(vals, p, c.tokens.len())
    &&& c.tokens.len() * MAX_DIM <= usize::MAX
    &&& MAX_DIM * MAX_DIM <= usize::MAX
    &&& c.files.len() >= c.model.weight_files.len()
    &&& g.n_layers == c.model.hyperparams.n_layers
    &&& g.n_kv_heads == c.model.hyperparams.n_kv_heads
    &&& g.head_dim == head_dim_of(c.model.hyperparams)
    &&& kv_fits(kv, g)
    &&& kv.len == c.pos
    &&& c.pos + c.tokens.len() <= usize::MAX
}

/// An input of a node is a sound value, no wider than the limit.
pub proof fn lemma_input(p: Seq<NodeV>, m: ModelV, vals: Seq<ArrayV>, rows: nat, v: usize)
    requires
        nodes_ok(p, m),
        sound(vals, p, rows),
        is_value(p, v),
        rows * MAX_DIM <= usize::MAX,
    ensures
        value_sound(vals[v - 1], p[v - 1], rows),
        0 < width_of(p, v) <= MAX_DIM,
        width_of(p, v) == width(p[v - 1]),
        rows * width_of(p, v) <= usize::MAX,
{
    reveal(nodes_ok);
    assert(node_ok(p.take(v - 1), p[v - 1], m));
    let w = width_of(p, v);
    assert(rows * w <= rows * MAX_DIM) by (nonlinear_arith)
        requires
            w <= MAX_DIM,
            rows >= 0,
    ;
}

impl Interpreter {
    fn eval_embed(&mut self, desc: &ModelDesc, files: &Vec<Vec<u8>>, tokens: &[u32], weight: usize) -> (r:
        Result<Tensor, GraphError>)
        requires
            kept_fit(old(self)@, desc@, files_view(files@)),
            files@.len() >= desc@.weight_files.len(),
            weight < desc@.tensors.len(),
            hp_fault(desc@.hyperparams) is None,
            desc@.tensors[weight as int].shape == seq![
                desc@.hyperparams.vocab_size,
                desc@.hyperparams.hidden_size,
            ],
            tokens@.len() * MAX_DIM <= usize::MAX,
            MAX_DIM * MAX_DIM <= usize::MAX,
        ensures
            kept_fit(final(self)@, desc@, files_view(files@)),
            match r {
                Ok(t) => {
                    &&& weight_of(desc@, files_view(files@), weight as int) matches Ok(w)
                        && embedded(
                        tokens@,
                        w,
                        desc@.hyperparams.vocab_size as usize,
                        desc@.hyperparams.hidden_size as usize,
                    ) == Ok::<ArrayV, GraphFault>(t@)
                },
                Err(e) => match weight_of(desc@, files_view(files@), weight as int) {
                    Err(f) => f == e@,
                    Ok(w) => embedded(
                        tokens@,
                        w,
                        desc@.hyperparams.vocab_size as usize,
                        desc@.hyperparams.hidden_size as usize,
                    ) == Err::<ArrayV, GraphFault>(e@),
                },
            },
    {
        let ghost m = desc@;
        let vocab: usize = desc.hyperparams.vocab_size as usize;
        let hidden: usize = desc.hyperparams.hidden_size as usize;
        proof {
            lemma_counts(m, weight as int, m.tensors[weight as int].shape);
        }
        match self.load(desc, files, weight) {
            Ok(_) => {},
            Err(e) => return Err(e),
        }
        let table = self.kept(weight);
        proof {
            assert(table@.len() == vocab * hidden);
            assert forall|i: int|
                0 <= i < tokens@.len() && #[trigger] tokens@[i] < vocab implies (tokens@[i] + 1)
                * hidden <= table@.len() by {
                let id = tokens@[i] as int;
                assert((id + 1) * hidden <= vocab * hidden) by (nonlinear_arith)
                    requires
                        id + 1 <= vocab,
                        hidden >= 0,
                ;
            }
            let rows = tokens@.len();
            assert(rows * hidden <= rows * MAX_DIM) by (nonlinear_arith)
                requires
                    hidden <= MAX_DIM,
                    rows >= 0,
            ;
        }
        embed(tokens, table, vocab, hidden)
    }

    fn eval_matmul(
        &mut self,
        desc: &ModelDesc,
        files: &Vec<Vec<u8>>,
        x: &Tensor,
        weight: usize,
        bias: Option<usize>,
        Ghost(w): Ghost<u64>,
    ) -> (r: Result<Tensor, GraphError>)
        requires
            kept_fit(old(self)@, desc@, files_view(files@)),
            files@.len() >= desc@.weight_files.len(),
            weight < desc@.tensors.len(),
            x@.shape.len() == 2,
            0 < x@.shape[1] <= MAX_DIM,
            x@.data.len() == x@.shape[0] * x@.shape[1],
            0 < w <= MAX_DIM,
            desc@.tensors[weight as int].shape == seq![w, x@.shape[1] as u64],
            bias matches Some(b) ==> b < desc@.tensors.len() && desc@.tensors[b as int].shape
                == seq![w],
            x@.shape[0] * MAX_DIM <= usize::MAX,
            MAX_DIM * MAX_DIM <= usize::MAX,
        ensures
            kept_fit(final(self)@, desc@, files_view(files@)),
            ({
                let fs = files_view(files@);
                let b: Result<Option<Seq<u32>>, GraphFault> = match bias {
                    Some(b) => match weight_of(desc@, fs, b as int) {
                        Ok(v) => Ok(Some(v)),
                        Err(e) => Err(e),
                    },
                    None => Ok(None),
                };
                let want: Result<ArrayV, GraphFault> = match b {
                    Err(e) => Err(e),
                    Ok(b) => match weight_of(desc@, fs, weight as int) {
                        Err(e) => Err(e),
                        Ok(v) => Ok(matmul_of(x@, v, w as usize, x@.shape[1], b)),
                    },
                };
                match r {
                    Ok(t) => want == Ok::<ArrayV, GraphFault>(t@),
                    Err(e) => want == Err::<ArrayV, GraphFault>(e@),
                }
            }),
    {
        let ghost m = desc@;
        proof {
            lemma_counts(m, weight as int, m.tensors[weight as int].shape);
            if let Some(b) = bias {
                lemma_counts(m, b as int, m.tensors[b as int].shape);
            }
        }
        match bias {
            Some(b) => match self.load(desc, files, b) {
                Ok(_) => {},
                Err(e) => return Err(e),
            },
            None => {},
        }
        let ghost mid = self@;
        match self.load(desc, files, weight) {
            Ok(_) => {},
            Err(e) => return Err(e),
        }
        let shape = &desc.tensors[weight].shape;
        proof {
            assert(shape@ == m.tensors[weight as int].shape);
        }
        let n_out: usize = shape[0] as usize;
        let k: usize = shape[1] as usize;
        let b: Option<&[u32]> = match bias {
            Some(b) => {
                proof {
                    assert(mid.contains_key(b));
                    assert(self@.contains_key(b));
                    assert(self@[b] == self@[b]);
                }
                Some(self.kept(b))
            },
            None => None,
        };
        let v = self.kept(weight);
        proof {
            let rows = x@.shape[0];
            assert(v@.len() == n_out * k);
            assert(rows * n_out <= rows * MAX_DIM) by (nonlinear_arith)
                requires
                    n_out <= MAX_DIM,
                    rows >= 0,
            ;
        }
        Ok(matmul(x, v, n_out, k, b))
    }

    fn eval_norm<Q: Fn(u32) -> u32, E: Fn(u32) -> u32, P: Fn(u32, u32) -> u32, T: Fn(u32) -> (
        u32,
        u32,
    )>(
        &mut self,
        desc: &ModelDesc,
        files: &Vec<Vec<u8>>,
        x: &Tensor,
        weight: usize,
        eps: u32,
        head_dim: Option<usize>,
        math: &Math<Q, E, P, T>,
    ) -> (r: Result<Tensor, GraphError>)
        requires
            math.lawful(),
            kept_fit(old(self)@, desc@, files_view(files@)),
            files@.len() >= desc@.weight_files.len(),
            weight < desc@.tensors.len(),
            x@.shape.len() == 2,
            0 < norm_unit(x@, head_dim) <= MAX_DIM,
            desc@.tensors[weight as int].shape == seq![norm_unit(x@, head_dim) as u64],
            MAX_DIM * MAX_DIM <= usize::MAX,
        ensures
            kept_fit(final(self)@, desc@, files_view(files@)),
            match r {
                Ok(t) => weight_of(desc@, files_view(files@), weight as int) matches Ok(w) && t@
                    == rmsnorm_of(math.model(), x@, w, eps, norm_unit(x@, head_dim)),
                Err(e) => weight_of(desc@, files_view(files@), weight as int) == Err::<
                    Seq<u32>,
                    GraphFault,
                >(e@),
            },
    {
        proof {
            lemma_counts(desc@, weight as int, desc@.tensors[weight as int].shape);
        }
        match self.load(desc, files, weight) {
            Ok(_) => {},
            Err(e) => return Err(e),
        }
        Ok(rmsnorm(x, self.kept(weight), eps, head_dim, math))
    }
}

/// Appends numbers.
fn extend(v: &mut Vec<u32>, more: &Vec<u32>)
    ensures
        final(v)@ == old(v)@ + more@,
{
    let ghost before = v@;
    let mut i: usize = 0;
    assert(v@ =~= before + more@.take(0));
    while i < more.len()
        invariant
            i <= more@.len(),
            v@ == before + more@.take(i as int),
        decreases more.len() - i,
    {
        v.push(more[i]);
        i += 1;
        assert(v@ =~= before + more@.take(i as int));
    }
    assert(more@.take(i as int) =~= more@);
}

impl KvCache {
    /// Appends the rows of a batch to layer `l`.
    fn append(&mut self, l: usize, k: &Vec<u32>, v: &Vec<u32>)
        requires
            l < old(self)@.k.len(),
            l < old(self)@.v.len(),
        ensures
            final(self)@ == (KvV {
                k: old(self)@.k.update(l as int, old(self)@.k[l as int] + k@),
                v: old(self)@.v.update(l as int, old(self)@.v[l as int] + v@),
                ..old(self)@
            }),
    {
        let ghost before = self@;
        extend(&mut self.k[l], k);
        extend(&mut self.v[l], v);
        assert(self@.k =~= before.k.update(l as int, before.k[l as int] + k@));
        assert(self@.v =~= before.v.update(l as int, before.v[l as int] + v@));
    }
}

/// What attention needs of the cache is there.
proof fn lemma_cache_reaches(a: Attended, rows: nat, len: int)
    requires
        even_heads(a),
        (a.pos_off + rows) * (a.n_kv_heads * a.head_dim) <= len,
    ensures
        cache_reaches(a, rows as int, len),
{
    if rows > 0 {
        lemma_visible_row(a, rows - 1, a.n_heads - 1, a.pos_off + rows - 1);
    }
}

/// Attends, with the keys and values of this batch in the cache.
fn eval_attention<Q: Fn(u32) -> u32, E: Fn(u32) -> u32, P: Fn(u32, u32) -> u32, T: Fn(u32) -> (
    u32,
    u32,
)>(
    q: &Tensor,
    kv: &KvCache,
    layer: usize,
    n_heads: usize,
    n_kv_heads: usize,
    head_dim: usize,
    pos: usize,
    math: &Math<Q, E, P, T>,
) -> (t: Tensor)
    requires
        math.lawful(),
        q@.shape.len() == 2,
        n_heads > 0,
        n_kv_heads > 0,
        head_dim > 0,
        n_heads % n_kv_heads == 0,
        n_heads >= n_kv_heads,
        q@.shape[1] == n_heads * head_dim,
        q@.data.len() == q@.shape[0] * q@.shape[1],
        q@.shape[0] * q@.shape[1] <= usize::MAX,
        kv@.kv_dim == n_kv_heads * head_dim,
        layer < kv@.k.len(),
        layer < kv@.v.len(),
        (pos + q@.shape[0]) * kv@.kv_dim <= kv@.k[layer as int].len(),
        (pos + q@.shape[0]) * kv@.kv_dim <= kv@.v[layer as int].len(),
        pos + q@.shape[0] <= usize::MAX,
        n_kv_heads * head_dim <= usize::MAX,
    ensures
        t@ == attention_of(
            math.model(),
            (Attended {
                q: q@.data,
                k: kv@.k[layer as int],
                v: kv@.v[layer as int],
                n_heads: n_heads as int,
                n_kv_heads: n_kv_heads as int,
                head_dim: head_dim as int,
                pos_off: pos as int,
            }),
            q@.shape[0],
        ),
{
    let k = &kv.k[layer];
    let v = &kv.v[layer];
    proof {
        assert(kv@.kv_dim > 0) by (nonlinear_arith)
            requires
                kv@.kv_dim == n_kv_heads * head_dim,
                n_kv_heads > 0,
                head_dim > 0,
        ;
    }
    let total: usize = k.len() / kv.kv_dim;
    proof {
        let rows = q@.shape[0] as nat;
        let a = Attended {
            q: q@.data,
            k: k@,
            v: v@,
            n_heads: n_heads as int,
            n_kv_heads: n_kv_heads as int,
            head_dim: head_dim as int,
            pos_off: pos as int,
        };
        lemma_cache_reaches(a, rows, k@.len() as int);
        lemma_cache_reaches(a, rows, v@.len() as int);
        vstd::arithmetic::div_mod::lemma_div_is_ordered(
            (pos + rows) * kv.kv_dim,
            k@.len() as int,
            kv.kv_dim as int,
        );
        vstd::arithmetic::div_mod::lemma_div_by_multiple((pos + rows) as int, kv.kv_dim as int);
    }
    attention(
        q,
        k.as_slice(),
        v.as_slice(),
        total,
        n_heads,
        n_kv_heads,
        head_dim,
        pos,
        math,
    )
}

/// A sound value, out of its shape.
pub proof fn lemma_norm_len(rows: nat, w: nat, unit: nat)
    requires
        unit > 0,
        w % unit == 0,
    ensures
        (rows * w) / unit * unit == rows * w,
{
    let q = w / unit;
    vstd::arithmetic::div_mod::lemma_fundamental_div_mod(w as int, unit as int);
    assert(rows * w == (rows * q) * unit) by (nonlinear_arith)
        requires
            w == unit * q,
    ;
    vstd::arithmetic::div_mod::lemma_div_by_multiple((rows * q) as int, unit as int);
}

/// The heads of every row lie within the rows.
proof fn lemma_rope_fits(rows: int, w: int, n: int, d: int)
    requires
        n * d == w,
        d % 2 == 0,
        0 < w <= MAX_DIM,
        0 <= n,
        0 <= d,
    ensures
        n <= MAX_DIM,
        d <= MAX_DIM,
        rows > 0 && n > 0 ==> (rows - 1) * w + (n - 1) * d + 2 * (d / 2) <= rows * w,
{
    assert(n > 0 && d > 0) by (nonlinear_arith)
        requires
            n * d == w,
            w > 0,
            n >= 0,
            d >= 0,
    ;
    assert(n <= w && d <= w) by (nonlinear_arith)
        requires
            n * d == w,
            n > 0,
            d > 0,
    ;
    assert((n - 1) * d + d == w) by (nonlinear_arith)
        requires
            n * d == w,
    ;
    assert((rows - 1) * w + w == rows * w) by (nonlinear_arith);
}

/// The counts of heads are small, and there are at least as many of queries as of
/// keys.
pub proof fn lemma_heads_fit(w: int, n: int, kv: int, d: int)
    requires
        n * d == w,
        0 < w <= MAX_DIM,
        0 < kv,
        n % kv == 0,
        0 <= n,
        0 <= d,
    ensures
        0 < n <= MAX_DIM,
        0 < d <= MAX_DIM,
        kv <= n,
        kv * d <= w,
{
    assert(n > 0 && d > 0) by (nonlinear_arith)
        requires
            n * d == w,
            w > 0,
            n >= 0,
            d >= 0,
    ;
    assert(n <= w && d <= w) by (nonlinear_arith)
        requires
            n * d == w,
            n > 0,
            d > 0,
    ;
    if n < kv {
        vstd::arithmetic::div_mod::lemma_small_mod(n as nat, kv as nat);
    }
    assert(kv * d <= n * d) by (nonlinear_arith)
        requires
            kv <= n,
            d > 0,
    ;
}

/// What a node gives has a row for each token, as wide as the node says.
pub proof fn lemma_value_sound(
    c: Feed,
    p: Seq<NodeV>,
    n: NodeV,
    vals: Seq<ArrayV>,
    g: GraphV,
    kv: KvV,
    kv2: KvV,
)
    requires
        ready(c, p, n, vals, g, kv),
    ensures
        node_value(c, vals, kv2, n) matches Ok(t) ==> value_sound(t, n, c.tokens.len()),
{
    reveal(node_value);
    let rows = c.tokens.len();
    let w = width(n);
    match n.op {
        Op::Embed { .. } => {},
        Op::MatMul { .. } => {
            lemma_input(p, c.model, vals, rows, n.inputs[0]);
        },
        Op::RmsNorm { head_dim, .. } => {
            lemma_input(p, c.model, vals, rows, n.inputs[0]);
            lemma_unit_fits(w, head_dim);
            lemma_norm_len(rows, w as nat, norm_unit_of(w, head_dim) as nat);
        },
        Op::Rope { theta, style, n_heads, head_dim } => {
            lemma_input(p, c.model, vals, rows, n.inputs[0]);
            lemma_rope_len(
                c.math,
                arg_of(vals, n, 0).data,
                w as int,
                n_heads as nat,
                head_dim as int,
                theta,
                style,
                c.pos as int,
                rows,
            );
        },
        Op::Attention { n_heads, n_kv_heads, head_dim, .. } => {
            lemma_input(p, c.model, vals, rows, n.inputs[0]);
            lemma_heads_fit(w as int, n_heads as int, n_kv_heads as int, head_dim as int);
        },
        Op::SwiGlu => {
            lemma_input(p, c.model, vals, rows, n.inputs[0]);
            lemma_input(p, c.model, vals, rows, n.inputs[1]);
        },
        Op::Add => {
            lemma_input(p, c.model, vals, rows, n.inputs[0]);
            lemma_input(p, c.model, vals, rows, n.inputs[1]);
        },
    }
}

/// The unit of a norm of rows of width `w`.
pub open spec fn norm_unit_of(w: u64, head_dim: Option<u64>) -> u64 {
    match head_dim {
        Some(d) => d,
        None => w,
    }
}

pub proof fn lemma_unit_fits(w: u64, head_dim: Option<u64>)
    requires
        0 < w <= MAX_DIM,
        0 < norm_unit_of(w, head_dim),
        w % norm_unit_of(w, head_dim) == 0,
    ensures
        norm_unit_of(w, head_dim) <= w,
{
    let unit = norm_unit_of(w, head_dim);
    if w < unit {
        vstd::arithmetic::div_mod::lemma_small_mod(w as nat, unit as nat);
    }
}

/// Runs a node that takes no weights and does not attend.
fn eval_plain<Q: Fn(u32) -> u32, E: Fn(u32) -> u32, P: Fn(u32, u32) -> u32, T: Fn(u32) -> (
    u32,
    u32,
)>(
    node: &Node,
    env: &Vec<Tensor>,
    pos: usize,
    math: &Math<Q, E, P, T>,
    Ghost(c): Ghost<Feed>,
    Ghost(g): Ghost<GraphV>,
    Ghost(p): Ghost<Seq<NodeV>>,
    Ghost(kv): Ghost<KvV>,
) -> (r: Tensor)
    requires
        math.lawful(),
        c.math == math.model(),
        c.pos == pos,
        node@.op is Rope || node@.op is SwiGlu || node@.op is Add,
        ready(c, p, node@, arrays_view(env@), g, kv),
    ensures
        node_value(c, arrays_view(env@), kv, node@) == Ok::<ArrayV, GraphFault>(r@),
{
    let ghost vals = arrays_view(env@);
    let ghost rows = c.tokens.len();
    let a = &env[node.inputs[0] - 1];
    proof {
        reveal(node_value);
        assert(a@ == vals[node@.inputs[0] - 1]);
        lemma_input(p, c.model, vals, rows, node@.inputs[0]);
    }
    match node.op {
        Op::Rope { theta, style, n_heads, head_dim } => {
            proof {
                lemma_rope_fits(
                    rows as int,
                    width(node@) as int,
                    n_heads as int,
                    head_dim as int,
                );
            }
            rope(a, n_heads as usize, head_dim as usize, theta, style, pos, math)
        },
        Op::SwiGlu => swiglu(a, &env[node.inputs[1] - 1], math),
        _ => crate::graph::ops::add(a, &env[node.inputs[1] - 1]),
    }
}

/// Runs a node that attends: adds its keys and values to the cache, and reads it.
fn eval_attending<Q: Fn(u32) -> u32, E: Fn(u32) -> u32, P: Fn(u32, u32) -> u32, T: Fn(u32) -> (
    u32,
    u32,
)>(
    node: &Node,
    env: &Vec<Tensor>,
    kv: &mut KvCache,
    pos: usize,
    math: &Math<Q, E, P, T>,
    Ghost(c): Ghost<Feed>,
    Ghost(g): Ghost<GraphV>,
    Ghost(p): Ghost<Seq<NodeV>>,
) -> (r: Tensor)
    requires
        math.lawful(),
        c.math == math.model(),
        c.pos == pos,
        node@.op is Attention,
        ready(c, p, node@, arrays_view(env@), g, old(kv)@),
    ensures
        final(kv)@ == cache_after(old(kv)@, arrays_view(env@), node@),
        node_value(c, arrays_view(env@), final(kv)@, node@) == Ok::<ArrayV, GraphFault>(r@),
{
    let ghost vals = arrays_view(env@);
    let ghost rows = c.tokens.len();
    let ghost w = width(node@);
    let q = &env[node.inputs[0] - 1];
    let k = &env[node.inputs[1] - 1];
    let v = &env[node.inputs[2] - 1];
    let ghost kv0 = kv@;
    proof {
        reveal(node_value);
        assert(q@ == vals[node@.inputs[0] - 1]);
        assert(k@ == vals[node@.inputs[1] - 1]);
        assert(v@ == vals[node@.inputs[2] - 1]);
        lemma_input(p, c.model, vals, rows, node@.inputs[0]);
        lemma_input(p, c.model, vals, rows, node@.inputs[1]);
        lemma_input(p, c.model, vals, rows, node@.inputs[2]);
    }
    let (layer, n_heads, n_kv_heads, head_dim): (usize, u64, u64, u64) = match node.op {
        Op::Attention { layer, n_heads, n_kv_heads, head_dim } => (
            layer,
            n_heads,
            n_kv_heads,
            head_dim,
        ),
        _ => (0, 0, 0, 0),
    };
    proof {
        lemma_hp_bounds(c.model.hyperparams);
        assert(layer < kv0.k.len());
        let d = kv0.kv_dim;
        assert((pos + rows) * d == pos * d + rows * d) by (nonlinear_arith);
        lemma_heads_fit(w as int, n_heads as int, n_kv_heads as int, head_dim as int);
    }
    kv.append(layer, &k.data, &v.data);
    eval_attention(
        q,
        kv,
        layer,
        n_heads as usize,
        n_kv_heads as usize,
        head_dim as usize,
        pos,
        math,
    )
}

impl Interpreter {
    /// Runs a node that takes weights.
    fn eval_weighted<Q: Fn(u32) -> u32, E: Fn(u32) -> u32, P: Fn(u32, u32) -> u32, T: Fn(u32) -> (
        u32,
        u32,
    )>(
        &mut self,
        desc: &ModelDesc,
        files: &Vec<Vec<u8>>,
        tokens: &[u32],
        node: &Node,
        env: &Vec<Tensor>,
        math: &Math<Q, E, P, T>,
        Ghost(c): Ghost<Feed>,
        Ghost(g): Ghost<GraphV>,
        Ghost(p): Ghost<Seq<NodeV>>,
        Ghost(kv): Ghost<KvV>,
    ) -> (r: Result<Tensor, GraphError>)
        requires
            math.lawful(),
            c.math == math.model(),
            c.model == desc@,
            c.files == files_view(files@),
            c.tokens == tokens@,
            node@.op is Embed || node@.op is MatMul || node@.op is RmsNorm,
            kept_fit(old(self)@, desc@, files_view(files@)),
            ready(c, p, node@, arrays_view(env@), g, kv),
        ensures
            kept_fit(final(self)@, desc@, files_view(files@)),
            match r {
                Ok(t) => node_value(c, arrays_view(env@), kv, node@) == Ok::<ArrayV, GraphFault>(
                    t@,
                ),
                Err(e) => node_value(c, arrays_view(env@), kv, node@) == Err::<ArrayV, GraphFault>(
                    e@,
                ),
            },
    {
        let ghost vals = arrays_view(env@);
        let ghost rows = tokens@.len();
        let limit: usize = tokens.len();
        proof {
            reveal(node_value);
        }
        if let Op::Embed { weight } = node.op {
            return self.eval_embed(desc, files, tokens, weight.0);
        }
        let x = &env[node.inputs[0] - 1];
        proof {
            assert(x@ == vals[node@.inputs[0] - 1]);
            lemma_input(p, desc@, vals, rows, node@.inputs[0]);
        }
        match node.op {
            Op::MatMul { weight, bias } => {
                let b: Option<usize> = match bias {
                    Some(b) => Some(b.0),
                    None => None,
                };
                proof {
                    assert(bias_of(c, node@.op) == match b {
                        Some(b) => match weight_of(desc@, c.files, b as int) {
                            Ok(v) => Ok::<Option<Seq<u32>>, GraphFault>(Some(v)),
                            Err(e) => Err(e),
                        },
                        None => Ok(None),
                    });
                }
                self.eval_matmul(desc, files, x, weight.0, b, Ghost(width(node@)))
            },
            Op::RmsNorm { weight, eps, head_dim } => {
                let d: Option<usize> = match head_dim {
                    Some(d) => Some(d as usize),
                    None => None,
                };
                proof {
                    lemma_unit_fits(width(node@), head_dim);
                    assert(norm_unit(x@, d) == norm_unit_of(width(node@), head_dim));
                }
                self.eval_norm(desc, files, x, weight.0, eps, d, math)
            },
            _ => self.eval_embed(desc, files, tokens, 0),
        }
    }

    /// Runs one node.
    fn eval<Q: Fn(u32) -> u32, E: Fn(u32) -> u32, P: Fn(u32, u32) -> u32, T: Fn(u32) -> (
        u32,
        u32,
    )>(
        &mut self,
        desc: &ModelDesc,
        files: &Vec<Vec<u8>>,
        tokens: &[u32],
        node: &Node,
        env: &Vec<Tensor>,
        kv: &mut KvCache,
        pos: usize,
        math: &Math<Q, E, P, T>,
        Ghost(c): Ghost<Feed>,
        Ghost(g): Ghost<GraphV>,
        Ghost(p): Ghost<Seq<NodeV>>,
    ) -> (r: Result<Tensor, GraphError>)
        requires
            math.lawful(),
            c == (Feed {
                math: math.model(),
                model: desc@,
                files: files_view(files@),
                tokens: tokens@,
                pos: pos as nat,
            }),
            kept_fit(old(self)@, desc@, files_view(files@)),
            ready(c, p, node@, arrays_view(env@), g, old(kv)@),
        ensures
            kept_fit(final(self)@, desc@, files_view(files@)),
            final(kv)@ == cache_after(old(kv)@, arrays_view(env@), node@),
            match r {
                Ok(t) => {
                    &&& node_value(c, arrays_view(env@), final(kv)@, node@) == Ok::<
                        ArrayV,
                        GraphFault,
                    >(t@)
                    &&& value_sound(t@, node@, tokens@.len())
                },
                Err(e) => node_value(c, arrays_view(env@), final(kv)@, node@) == Err::<
                    ArrayV,
                    GraphFault,
                >(e@),
            },
    {
        proof {
            let vals = arrays_view(env@);
            lemma_value_sound(c, p, node@, vals, g, kv@, cache_after(kv@, vals, node@));
        }
        match node.op {
            Op::Attention { .. } => Ok(
                eval_attending(node, env, kv, pos, math, Ghost(c), Ghost(g), Ghost(p)),
            ),
            Op::Rope { .. } | Op::SwiGlu | Op::Add => Ok(
                eval_plain(node, env, pos, math, Ghost(c), Ghost(g), Ghost(p), Ghost(kv@)),
            ),
            Op::Embed { .. } | Op::MatMul { .. } | Op::RmsNorm { .. } => self.eval_weighted(
                desc,
                files,
                tokens,
                node,
                env,
                math,
                Ghost(c),
                Ghost(g),
                Ghost(p),
                Ghost(kv@),
            ),
        }
    }
}

/// A run that has failed stays failed.
pub proof fn lemma_run_stays(c: Feed, g: GraphV, kv: KvV, k: nat, n: nat)
    requires
        k <= n,
        run_to(c, g, kv, k).0 is Err,
    ensures
        run_to(c, g, kv, n) == run_to(c, g, kv, k),
    decreases n - k,
{
    if k < n {
        lemma_run_stays(c, g, kv, k, (n - 1) as nat);
    }
}

/// Whether the layers in which one of the first nodes attends hold the rows of the
/// first `n` tokens.
pub open spec fn grown(kv: KvV, nodes: Seq<NodeV>, n: nat) -> bool {
    forall|l: int|
        0 <= l < kv.k.len() && #[trigger] layer_attends(nodes, l) ==> n * kv.kv_dim
            <= kv.k[l].len() && n * kv.kv_dim <= kv.v[l].len()
}

/// A node that has run leaves the cache fit, and grown in its layer.
proof fn lemma_cache_grows(
    c: Feed,
    g: GraphV,
    kv: KvV,
    nodes: Seq<NodeV>,
    i: int,
    vals: Seq<ArrayV>,
)
    requires
        0 <= i < nodes.len(),
        ready(c, nodes.take(i), nodes[i], vals, g, kv),
        grown(kv, nodes.take(i), c.pos + c.tokens.len()),
    ensures
        kv_fits(cache_after(kv, vals, nodes[i]), g),
        cache_after(kv, vals, nodes[i]).len == kv.len,
        cache_after(kv, vals, nodes[i]).max_seq_len == kv.max_seq_len,
        grown(cache_after(kv, vals, nodes[i]), nodes.take(i + 1), c.pos + c.tokens.len()),
{
    let n = nodes[i];
    let p = nodes.take(i);
    let kv2 = cache_after(kv, vals, n);
    let rows = c.tokens.len();
    let d = kv.kv_dim;
    assert((c.pos + rows) * d == c.pos * d + rows * d) by (nonlinear_arith);
    if let Op::Attention { layer, n_heads, n_kv_heads, head_dim } = n.op {
        lemma_input(p, c.model, vals, rows, n.inputs[1]);
        lemma_input(p, c.model, vals, rows, n.inputs[2]);
        assert(kv.k[layer as int].len() >= c.pos * d);
        assert(kv.v[layer as int].len() >= c.pos * d);
    }
    assert forall|l: int|
        0 <= l < kv2.k.len() && #[trigger] layer_attends(nodes.take(i + 1), l) implies (c.pos
        + rows) * kv2.kv_dim <= kv2.k[l].len() && (c.pos + rows) * kv2.kv_dim
        <= kv2.v[l].len() by {
        let q = nodes.take(i + 1);
        let j = choose|j: int| 0 <= j < q.len() && attends(#[trigger] q[j], l);
        assert(q[j] == nodes[j]);
        if j < i {
            assert(p[j] == nodes[j]);
            assert(layer_attends(p, l));
        }
    }
}

impl Interpreter {
    /// Runs a graph on the tokens that follow those in the cache: a row of logits
    /// for each. `files` holds the contents of the weight files.
    #[verifier::rlimit(60)]
    pub fn run<Q: Fn(u32) -> u32, E: Fn(u32) -> u32, P: Fn(u32, u32) -> u32, T: Fn(u32) -> (
        u32,
        u32,
    )>(
        &mut self,
        desc: &ModelDesc,
        files: &Vec<Vec<u8>>,
        graph: &Graph,
        tokens: &[u32],
        kv: &mut KvCache,
        math: &Math<Q, E, P, T>,
    ) -> (r: Result<Tensor, GraphError>)
        requires
            math.lawful(),
            well_formed(graph@, desc@),
            kept_fit(old(self)@, desc@, files_view(files@)),
            files@.len() >= desc@.weight_files.len(),
            kv_fits(old(kv)@, graph@),
            old(kv)@.len + tokens@.len() <= usize::MAX,
            tokens@.len() * MAX_DIM <= usize::MAX,
            MAX_DIM * MAX_DIM <= usize::MAX,
        ensures
            kept_fit(final(self)@, desc@, files_view(files@)),
            kv_fits(final(kv)@, graph@),
            ({
                let c = Feed {
                    math: math.model(),
                    model: desc@,
                    files: files_view(files@),
                    tokens: tokens@,
                    pos: old(kv)@.len,
                };
                let want = run_of(c, graph@, old(kv)@);
                &&& final(kv)@ == want.1
                &&& match r {
                    Ok(t) => want.0 == Ok::<ArrayV, GraphFault>(t@),
                    Err(e) => want.0 == Err::<ArrayV, GraphFault>(e@),
                }
            }),
    {
        let ghost kv0 = kv@;
        let ghost c = Feed {
            math: math.model(),
            model: desc@,
            files: files_view(files@),
            tokens: tokens@,
            pos: kv0.len,
        };
        let ghost g = graph@;
        let count: usize = tokens.len();
        if kv.len + count > kv.max_seq_len {
            return Err(GraphError::SeqTooLong { got: kv.len + count, max: kv.max_seq_len });
        }
        let pos: usize = kv.len;
        let n: usize = graph.nodes.len();
        let ghost rows = count as nat;
        let mut env: Vec<Tensor> = Vec::new();
        let mut i: usize = 0;
        proof {
            assert(arrays_view(env@) =~= Seq::<ArrayV>::empty());
        }
        while i < n
            invariant
                math.lawful(),
                g == graph@,
                c == (Feed {
                    math: math.model(),
                    model: desc@,
                    files: files_view(files@),
                    tokens: tokens@,
                    pos: pos as nat,
                }),
                rows == tokens@.len(),
                well_formed(g, desc@),
                kept_fit(self@, desc@, files_view(files@)),
                files@.len() >= desc@.weight_files.len(),
                tokens@.len() * MAX_DIM <= usize::MAX,
                MAX_DIM * MAX_DIM <= usize::MAX,
                pos + rows <= kv0.max_seq_len,
                pos + rows <= usize::MAX,
                kv0 == old(kv)@,
                kv0.len == pos,
                i <= n == g.nodes.len(),
                n == graph.nodes@.len(),
                kv_fits(kv@, g),
                kv@.len == pos,
                kv@.max_seq_len == kv0.max_seq_len,
                grown(kv@, g.nodes.take(i as int), pos as nat + rows),
                sound(arrays_view(env@), g.nodes.take(i as int), rows),
                run_to(c, g, kv0, i as nat) == (
                    Ok::<Seq<ArrayV>, GraphFault>(arrays_view(env@)),
                    kv@,
                ),
            decreases n - i,
        {
            let ghost p = g.nodes.take(i as int);
            let ghost vals = arrays_view(env@);
            let ghost kv1 = kv@;
            let node = &graph.nodes[i];
            proof {
                assert(g.nodes[i as int] == node@);
                lemma_prefix_ok(g.nodes, desc@, i as int);
                lemma_cache_grows(c, g, kv1, g.nodes, i as int, vals);
            }
            match self.eval(
                desc,
                files,
                tokens,
                node,
                &env,
                kv,
                pos,
                math,
                Ghost(c),
                Ghost(g),
                Ghost(p),
            ) {
                Ok(t) => {
                    env.push(t);
                    proof {
                        assert(arrays_view(env@) =~= vals.push(t@));
                        assert(run_to(c, g, kv0, (i + 1) as nat) == (
                            Ok::<Seq<ArrayV>, GraphFault>(vals.push(t@)),
                            kv@,
                        ));
                        lemma_sound_push(vals, g.nodes, i as int, t@, rows);
                    }
                },
                Err(e) => {
                    proof {
                        assert(run_to(c, g, kv0, (i + 1) as nat) == (
                            Err::<Seq<ArrayV>, GraphFault>(e@),
                            kv@,
                        ));
                        lemma_run_stays(c, g, kv0, (i + 1) as nat, n as nat);
                    }
                    return Err(e);
                },
            }
            i += 1;
        }
        let ghost vals = arrays_view(env@);
        let ghost kv1 = kv@;
        kv.len = kv.len + count;
        proof {
            assert(g.nodes.take(n as int) =~= g.nodes);
            assert(kv@ =~= KvV { len: (pos + count) as nat, ..kv1 });
            reveal(layers_ascend);
            assert forall|l: int| 0 <= l < kv@.k.len() implies kv@.len * kv@.kv_dim
                <= (#[trigger] kv@.k[l]).len() by {
                assert(layer_attends(g.nodes, l));
            }
            assert forall|l: int| 0 <= l < kv@.v.len() implies kv@.len * kv@.kv_dim
                <= (#[trigger] kv@.v[l]).len() by {
                assert(layer_attends(g.nodes, l));
            }
            assert(vals[g.output - 1] == env@[g.output - 1]@);
        }
        Ok(env.remove(graph.output - 1))
    }
}

/// The nodes before one are in order, and the node fits behind them.
pub proof fn lemma_prefix_ok(nodes: Seq<NodeV>, m: ModelV, i: int)
    requires
        nodes_ok(nodes, m),
        0 <= i < nodes.len(),
    ensures
        nodes_ok(nodes.take(i), m),
        node_ok(nodes.take(i), nodes[i], m),
{
    reveal(nodes_ok);
    let p = nodes.take(i);
    assert forall|j: int| 0 <= j < p.len() implies node_ok(p.take(j), #[trigger] p[j], m) by {
        assert(p.take(j) =~= nodes.take(j));
        assert(p[j] == nodes[j]);
        assert(node_ok(nodes.take(j), nodes[j], m));
    }
}

pub proof fn lemma_sound_push(vals: Seq<ArrayV>, nodes: Seq<NodeV>, i: int, t: ArrayV, rows: nat)
    requires
        0 <= i < nodes.len(),
        sound(vals, nodes.take(i), rows),
        value_sound(t, nodes[i], rows),
    ensures
        sound(vals.push(t), nodes.take(i + 1), rows),
{
    let q = nodes.take(i + 1);
    let w = vals.push(t);
    assert forall|j: int| 0 <= j < w.len() implies value_sound(#[trigger] w[j], q[j], rows) by {
        if j < i {
            assert(w[j] == vals[j]);
            assert(nodes.take(i)[j] == q[j]);
        }
    }
}

} // verus!
