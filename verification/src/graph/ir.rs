//! The graph: a flat list of operations over values, with weights named by their
//! place in the model description.

use vstd::prelude::*;
use vstd::string::StringExecFns;

use crate::formats::desc::{texts_view, ModelDesc, ModelV, RopeStyle, TensorDesc, TensorV};
use crate::formats::quant::{dtype_name, dtype_text};
use crate::graph::error::{join_numbers, number_texts};
use crate::text::{dec, dec_text, join, join_texts};

verus! {

/// One axis of a [`Shape`]: a fixed size or the length of the sequence.
#[derive(Debug, Clone, Copy, PartialEq, Eq, Structural)]
pub enum Dim {
    Const(u64),
    SeqLen,
}

/// The shape of a node's value, outermost dimension first.
#[derive(Debug, Clone, PartialEq, Eq)]
pub struct Shape(pub Vec<Dim>);

/// The place of a weight in the model description.
#[derive(Debug, Clone, Copy, PartialEq, Eq, Structural)]
pub struct TensorRef(pub usize);

/// One operation. `eps` and `theta` are the bits of single-precision numbers.
#[derive(Debug, Clone, Copy, PartialEq, Eq, Structural)]
pub enum Op {
    Embed { weight: TensorRef },
    MatMul { weight: TensorRef, bias: Option<TensorRef> },
    /// With a `head_dim`, each head is normalized on its own.
    RmsNorm { weight: TensorRef, eps: u32, head_dim: Option<u64> },
    Rope { theta: u32, style: RopeStyle, n_heads: u64, head_dim: u64 },
    Attention { layer: usize, n_heads: u64, n_kv_heads: u64, head_dim: u64 },
    SwiGlu,
    Add,
}

/// An operation, the values that it takes, and the shape of the one that it gives.
/// Value 0 is the tokens; node `i` gives value `i + 1`.
#[derive(Debug, PartialEq, Eq)]
pub struct Node {
    pub op: Op,
    pub inputs: Vec<usize>,
    pub out_shape: Shape,
    pub label: String,
}

/// The model of a [`Node`].
#[verifier::ext_equal]
pub struct NodeV {
    pub op: Op,
    pub inputs: Seq<usize>,
    pub out_shape: Seq<Dim>,
    pub label: Seq<char>,
}

impl View for Node {
    type V = NodeV;

    open spec fn view(&self) -> NodeV {
        NodeV {
            op: self.op,
            inputs: self.inputs@,
            out_shape: self.out_shape.0@,
            label: self.label@,
        }
    }
}

/// The models of a list of nodes.
pub open spec fn nodes_view(s: Seq<Node>) -> Seq<NodeV> {
    s.map_values(|n: Node| n@)
}

/// A forward pass: the operations, and what the interpreter needs beside them.
#[derive(Debug, PartialEq, Eq)]
pub struct Graph {
    pub nodes: Vec<Node>,
    /// The value that holds the logits.
    pub output: usize,
    pub n_layers: u64,
    pub n_kv_heads: u64,
    pub head_dim: u64,
}

/// The model of a [`Graph`].
#[verifier::ext_equal]
pub struct GraphV {
    pub nodes: Seq<NodeV>,
    pub output: usize,
    pub n_layers: u64,
    pub n_kv_heads: u64,
    pub head_dim: u64,
}

impl View for Graph {
    type V = GraphV;

    open spec fn view(&self) -> GraphV {
        GraphV {
            nodes: nodes_view(self.nodes@),
            output: self.output,
            n_layers: self.n_layers,
            n_kv_heads: self.n_kv_heads,
            head_dim: self.head_dim,
        }
    }
}

/// The weights that an operation names stand in the model description.
pub open spec fn refs_ok(op: Op, tensors: nat) -> bool {
    match op {
        Op::Embed { weight } => weight.0 < tensors,
        Op::MatMul { weight, bias } => weight.0 < tensors && (bias matches Some(b) ==> b.0
            < tensors),
        Op::RmsNorm { weight, .. } => weight.0 < tensors,
        _ => true,
    }
}

/// An axis in a dump.
pub open spec fn dim_text(d: Dim) -> Seq<char> {
    match d {
        Dim::Const(c) => dec(c as nat),
        Dim::SeqLen => "seq"@,
    }
}

/// A shape in a dump.
pub open spec fn shape_text(s: Seq<Dim>) -> Seq<char> {
    "["@ + join(s.map_values(|d: Dim| dim_text(d)), ","@, s.len()) + "]"@
}

fn dim_string(d: Dim) -> (s: String)
    ensures
        s@ == dim_text(d),
{
    match d {
        Dim::Const(c) => dec_text(c),
        Dim::SeqLen => "seq".to_owned(),
    }
}

fn shape_string(shape: &Shape) -> (s: String)
    ensures
        s@ == shape_text(shape.0@),
{
    let mut parts: Vec<String> = Vec::new();
    let ghost want = shape.0@.map_values(|d: Dim| dim_text(d));
    let mut i: usize = 0;
    while i < shape.0.len()
        invariant
            i <= shape.0@.len(),
            want == shape.0@.map_values(|d: Dim| dim_text(d)),
            parts@.len() == i,
            forall|k: int| 0 <= k < i ==> (#[trigger] parts@[k])@ == want[k],
        decreases shape.0.len() - i,
    {
        parts.push(dim_string(shape.0[i]));
        i += 1;
    }
    proof {
        assert(parts@.map_values(|s: String| s@) =~= want);
    }
    let mut s = "[".to_owned();
    s.append(join_texts(&parts, ",").as_str());
    s.append("]");
    s
}

/// A weight in a dump: its name, shape and element type.
pub open spec fn weight_text(t: TensorV) -> Seq<char> {
    "@"@ + t.name + "["@ + join(number_texts(t.shape), "x"@, t.shape.len()) + ":"@ + dtype_name(
        t.dtype,
    ) + "]"@
}

fn weight_string(t: &TensorDesc) -> (s: String)
    ensures
        s@ == weight_text(t@),
{
    let mut s = "@".to_owned();
    s.append(t.name.as_str());
    s.append("[");
    s.append(join_numbers(&t.shape, "x").as_str());
    s.append(":");
    s.append(dtype_text(&t.dtype).as_str());
    s.append("]");
    s
}

/// The inputs of a node in a dump.
pub open spec fn inputs_text(v: Seq<usize>) -> Seq<char> {
    join(v.map_values(|x: usize| "%"@ + dec(x as nat)), ", "@, v.len())
}

fn inputs_string(v: &Vec<usize>) -> (s: String)
    ensures
        s@ == inputs_text(v@),
{
    let mut parts: Vec<String> = Vec::new();
    let ghost want = v@.map_values(|x: usize| "%"@ + dec(x as nat));
    let mut i: usize = 0;
    while i < v.len()
        invariant
            i <= v@.len(),
            want == v@.map_values(|x: usize| "%"@ + dec(x as nat)),
            parts@.len() == i,
            forall|k: int| 0 <= k < i ==> (#[trigger] parts@[k])@ == want[k],
        decreases v.len() - i,
    {
        let mut p = "%".to_owned();
        p.append(dec_text(v[i] as u64).as_str());
        parts.push(p);
        i += 1;
    }
    proof {
        assert(parts@.map_values(|s: String| s@) =~= want);
    }
    join_texts(&parts, ", ")
}

/// The name of a rope style in a dump.
pub open spec fn style_text(s: RopeStyle) -> Seq<char> {
    match s {
        RopeStyle::Interleaved => "Interleaved"@,
        RopeStyle::HalfSplit => "HalfSplit"@,
    }
}

/// An operation in a dump. `number` is the text of its floating-point number, if
/// it has one.
pub open spec fn op_text(op: Op, inputs: Seq<usize>, ts: Seq<TensorV>, number: Seq<char>) -> Seq<
    char,
> {
    let ins = inputs_text(inputs);
    match op {
        Op::Embed { weight } => "embed("@ + ins + ", "@ + weight_text(ts[weight.0 as int]) + ")"@,
        Op::MatMul { weight, bias } => match bias {
            Some(b) => "matmul("@ + ins + ", "@ + weight_text(ts[weight.0 as int]) + ", bias="@
                + weight_text(ts[b.0 as int]) + ")"@,
            None => "matmul("@ + ins + ", "@ + weight_text(ts[weight.0 as int]) + ")"@,
        },
        Op::RmsNorm { weight, eps: _, head_dim } => match head_dim {
            Some(hd) => "rmsnorm_per_head("@ + ins + ", "@ + weight_text(ts[weight.0 as int])
                + ", eps="@ + number + ", head_dim="@ + dec(hd as nat) + ")"@,
            None => "rmsnorm("@ + ins + ", "@ + weight_text(ts[weight.0 as int]) + ", eps="@
                + number + ")"@,
        },
        Op::Rope { theta: _, style, n_heads, head_dim } => "rope("@ + ins + ", theta="@ + number
            + ", style="@ + style_text(style) + ", heads="@ + dec(n_heads as nat)
            + ", head_dim="@ + dec(head_dim as nat) + ")"@,
        Op::Attention { layer, n_heads, n_kv_heads, head_dim } => "attention("@ + ins
            + ", layer="@ + dec(layer as nat) + ", heads="@ + dec(n_heads as nat) + ", kv_heads="@
            + dec(n_kv_heads as nat) + ", head_dim="@ + dec(head_dim as nat) + ")"@,
        Op::SwiGlu => "swiglu("@ + ins + ")"@,
        Op::Add => "add("@ + ins + ")"@,
    }
}

fn op_string(node: &Node, tensors: &Vec<TensorDesc>, number: &str) -> (s: String)
    requires
        refs_ok(node.op, tensors@.len()),
    ensures
        s@ == op_text(
            node.op,
            node.inputs@,
            crate::formats::desc::tensors_view(tensors@),
            number@,
        ),
{
    let ins = inputs_string(&node.inputs);
    match node.op {
        Op::Embed { weight } => {
            let mut s = "embed(".to_owned();
            s.append(ins.as_str());
            s.append(", ");
            s.append(weight_string(&tensors[weight.0]).as_str());
            s.append(")");
            s
        },
        Op::MatMul { weight, bias } => {
            let mut s = "matmul(".to_owned();
            s.append(ins.as_str());
            s.append(", ");
            s.append(weight_string(&tensors[weight.0]).as_str());
            if let Some(b) = bias {
                s.append(", bias=");
                s.append(weight_string(&tensors[b.0]).as_str());
            }
            s.append(")");
            s
        },
        Op::RmsNorm { weight, eps: _, head_dim } => match head_dim {
            Some(hd) => {
                let mut s = "rmsnorm_per_head(".to_owned();
                s.append(ins.as_str());
                s.append(", ");
                s.append(weight_string(&tensors[weight.0]).as_str());
                s.append(", eps=");
                s.append(number);
                s.append(", head_dim=");
                s.append(dec_text(hd).as_str());
                s.append(")");
                s
            },
            None => {
                let mut s = "rmsnorm(".to_owned();
                s.append(ins.as_str());
                s.append(", ");
                s.append(weight_string(&tensors[weight.0]).as_str());
                s.append(", eps=");
                s.append(number);
                s.append(")");
                s
            },
        },
        Op::Rope { theta: _, style, n_heads, head_dim } => {
            let mut s = "rope(".to_owned();
            s.append(ins.as_str());
            s.append(", theta=");
            s.append(number);
            s.append(", style=");
            s.append(
                match style {
                    RopeStyle::Interleaved => "Interleaved",
                    RopeStyle::HalfSplit => "HalfSplit",
                },
            );
            s.append(", heads=");
            s.append(dec_text(n_heads).as_str());
            s.append(", head_dim=");
            s.append(dec_text(head_dim).as_str());
            s.append(")");
            s
        },
        Op::Attention { layer, n_heads, n_kv_heads, head_dim } => {
            let mut s = "attention(".to_owned();
            s.append(ins.as_str());
            s.append(", layer=");
            s.append(dec_text(layer as u64).as_str());
            s.append(", heads=");
            s.append(dec_text(n_heads).as_str());
            s.append(", kv_heads=");
            s.append(dec_text(n_kv_heads).as_str());
            s.append(", head_dim=");
            s.append(dec_text(head_dim).as_str());
            s.append(")");
            s
        },
        Op::SwiGlu => {
            let mut s = "swiglu(".to_owned();
            s.append(ins.as_str());
            s.append(")");
            s
        },
        Op::Add => {
            let mut s = "add(".to_owned();
            s.append(ins.as_str());
            s.append(")");
            s
        },
    }
}

/// The line of node `i` in a dump.
pub open spec fn node_text(i: nat, n: NodeV, ts: Seq<TensorV>, number: Seq<char>) -> Seq<char> {
    "  %"@ + dec(i + 1) + " = "@ + op_text(n.op, n.inputs, ts, number) + " : "@ + shape_text(
        n.out_shape,
    ) + "  ; "@ + n.label + "\n"@
}

/// The lines of the first `k` nodes in a dump.
pub open spec fn nodes_text(
    nodes: Seq<NodeV>,
    ts: Seq<TensorV>,
    numbers: Seq<Seq<char>>,
    k: nat,
) -> Seq<char>
    decreases k,
{
    if k == 0 {
        Seq::empty()
    } else {
        nodes_text(nodes, ts, numbers, (k - 1) as nat) + node_text(
            (k - 1) as nat,
            nodes[k - 1],
            ts,
            numbers[k - 1],
        )
    }
}

/// The dump of a graph.
pub open spec fn graph_text(g: GraphV, m: ModelV, numbers: Seq<Seq<char>>) -> Seq<char> {
    "graph (layers="@ + dec(g.n_layers as nat) + ", kv_heads="@ + dec(g.n_kv_heads as nat)
        + ", head_dim="@ + dec(g.head_dim as nat) + ")\n  %0 = tokens : [seq]\n"@ + nodes_text(
        g.nodes,
        m.tensors,
        numbers,
        g.nodes.len(),
    ) + "  output %"@ + dec(g.output as nat) + "\n"@
}

impl Graph {
    /// The place in `numbers` of the text of a node's floating-point number, and
    /// the bits of that number.
    pub fn number_of(&self, i: usize) -> (r: Option<u32>)
        requires
            i < self.nodes@.len(),
        ensures
            r == (match self.nodes@[i as int].op {
                Op::RmsNorm { eps, .. } => Some(eps),
                Op::Rope { theta, .. } => Some(theta),
                _ => None,
            }),
    {
        match self.nodes[i].op {
            Op::RmsNorm { weight: _, eps, head_dim: _ } => Some(eps),
            Op::Rope { theta, style: _, n_heads: _, head_dim: _ } => Some(theta),
            _ => None,
        }
    }

    /// A stable text dump. `numbers` holds, for each node, the text of its
    /// floating-point number.
    pub fn dump(&self, desc: &ModelDesc, numbers: &Vec<String>) -> (s: String)
        requires
            numbers@.len() == self.nodes@.len(),
            forall|i: int|
                0 <= i < self.nodes@.len() ==> refs_ok(
                    (#[trigger] self.nodes@[i]).op,
                    desc.tensors@.len(),
                ),
        ensures
            s@ == graph_text(self@, desc@, texts_view(numbers@)),
    {
        let ghost ts = crate::formats::desc::tensors_view(desc.tensors@);
        let ghost nv = nodes_view(self.nodes@);
        let ghost nums = texts_view(numbers@);
        let mut out = "graph (layers=".to_owned();
        out.append(dec_text(self.n_layers).as_str());
        out.append(", kv_heads=");
        out.append(dec_text(self.n_kv_heads).as_str());
        out.append(", head_dim=");
        out.append(dec_text(self.head_dim).as_str());
        out.append(")\n  %0 = tokens : [seq]\n");
        let ghost head = out@;
        let mut i: usize = 0;
        proof {
            assert(head + nodes_text(nv, ts, nums, 0) =~= head);
        }
        while i < self.nodes.len()
            invariant
                i <= self.nodes@.len(),
                numbers@.len() == self.nodes@.len(),
                forall|k: int|
                    0 <= k < self.nodes@.len() ==> refs_ok(
                        (#[trigger] self.nodes@[k]).op,
                        desc.tensors@.len(),
                    ),
                ts == crate::formats::desc::tensors_view(desc.tensors@),
                nv == nodes_view(self.nodes@),
                nums == texts_view(numbers@),
                out@ == head + nodes_text(nv, ts, nums, i as nat),
            decreases self.nodes.len() - i,
        {
            let n = &self.nodes[i];
            let ghost before = out@;
            out.append("  %");
            out.append(dec_text(i as u64 + 1).as_str());
            out.append(" = ");
            out.append(op_string(n, &desc.tensors, numbers[i].as_str()).as_str());
            out.append(" : ");
            out.append(shape_string(&n.out_shape).as_str());
            out.append("  ; ");
            out.append(n.label.as_str());
            out.append("\n");
            proof {
                assert(out@ =~= before + node_text(i as nat, nv[i as int], ts, nums[i as int]));
                assert(head + nodes_text(nv, ts, nums, i as nat + 1) =~= before + node_text(
                    i as nat,
                    nv[i as int],
                    ts,
                    nums[i as int],
                ));
            }
            i += 1;
        }
        out.append("  output %");
        out.append(dec_text(self.output as u64).as_str());
        out.append("\n");
        out
    }
}

} // verus!
