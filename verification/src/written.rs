//! What texts say: numbers in decimal, columns, dumps of graphs and of programs, and labels.

use vstd::prelude::*;

use crate::codegen::loopir::{before_last, gemv_name, last_place, step_text, StepV};
use crate::codegen::plan::{Isa, PlanV};
use crate::codegen::profile::{label_of, normalized};
use crate::formats::desc::{DTypeV, ModelV, RopeStyle, TensorV};
use crate::graph::ir::{
    graph_text, node_text, nodes_text, op_text, shape_text, weight_text, Dim, GraphV, NodeV, Op,
};
use crate::text::{at_left, at_right, dec, join};

verus! {

/// What digits stand for, the most significant first.
pub open spec fn positional(s: Seq<char>) -> int
    decreases s.len(),
{
    if s.len() == 0 {
        0
    } else {
        10 * positional(s.drop_last()) + (s.last() as int - '0' as int)
    }
}

/// A number is written in decimal digits, which stand for it, without a zero in front unless it
/// is zero.
pub proof fn law_numbers_in_decimal(n: nat)
    ensures
        positional(dec(n)) == n,
        dec(n).len() > 0,
        forall|i: int| 0 <= i < dec(n).len() ==> '0' <= #[trigger] dec(n)[i] && dec(n)[i] <= '9',
        dec(n)[0] == '0' ==> n == 0,
    decreases n,
{
    let s = dec(n);
    if n < 10 {
        assert(s.drop_last() =~= Seq::<char>::empty());
        assert(positional(s.drop_last()) == 0);
    } else {
        law_numbers_in_decimal(n / 10);
        assert(s.drop_last() =~= dec(n / 10));
        assert forall|i: int| 0 <= i < s.len() implies '0' <= #[trigger] s[i] && s[i] <= '9' by {
            if i < s.len() - 1 {
                assert(s[i] == dec(n / 10)[i]);
            }
        }
    }
}

/// A text in a column keeps all its characters, and spaces fill the column up behind it or
/// before it.
pub proof fn law_columns(s: Seq<char>, w: int, i: int)
    ensures
        s.len() <= w ==> at_left(s, w).len() == w && at_right(s, w).len() == w,
        s.len() > w ==> at_left(s, w) == s && at_right(s, w) == s,
        0 <= i < s.len() ==> at_left(s, w)[i] == s[i],
        s.len() <= i < w ==> at_left(s, w)[i] == ' ',
        s.len() <= w && 0 <= i < w - s.len() ==> at_right(s, w)[i] == ' ',
        s.len() <= w && w - s.len() <= i < w ==> at_right(s, w)[i] == s[i - (w - s.len())],
{
    if s.len() > w {
        assert(at_left(s, w) =~= s);
        assert(at_right(s, w) =~= s);
    }
}

/// A list of one is its text, and one more text stands behind a separator.
pub proof fn law_lists_grow_behind(parts: Seq<Seq<char>>, more: Seq<char>, sep: Seq<char>)
    requires
        parts.len() > 0,
    ensures
        parts.len() == 1 ==> join(parts, sep, 1) == parts[0],
        join(parts.push(more), sep, parts.len() + 1) == join(parts, sep, parts.len()) + sep + more,
{
    lemma_join_front(parts, parts.push(more), sep, parts.len());
}

proof fn lemma_join_front(a: Seq<Seq<char>>, b: Seq<Seq<char>>, sep: Seq<char>, k: nat)
    requires
        k <= a.len(),
        k <= b.len(),
        forall|i: int| 0 <= i < k ==> #[trigger] a[i] == b[i],
    ensures
        join(a, sep, k) == join(b, sep, k),
    decreases k,
{
    if k > 0 {
        lemma_join_front(a, b, sep, (k - 1) as nat);
        assert(a[k - 1] == b[k - 1]);
        assert(a[0] == b[0]);
    }
}

/// What a dump says of an operation: its kind, the values that it takes, in order, and what it
/// does with them.
pub proof fn law_operations_in_a_dump(
    ts: Seq<TensorV>,
    number: Seq<char>,
    a: usize,
    b: usize,
    c: usize,
    layer: usize,
    n_heads: u64,
    n_kv_heads: u64,
    head_dim: u64,
    theta: u32,
)
    ensures
        ({
            let (x, y, z) = ("%"@ + dec(a as nat), "%"@ + dec(b as nat), "%"@ + dec(c as nat));
            &&& op_text(Op::SwiGlu, seq![a, b], ts, number) == "swiglu("@ + (x + ", "@ + y) + ")"@
            &&& op_text(Op::Add, seq![a, b], ts, number) == "add("@ + (x + ", "@ + y) + ")"@
            &&& op_text(
                Op::Attention { layer, n_heads, n_kv_heads, head_dim },
                seq![a, b, c],
                ts,
                number,
            ) == "attention("@ + (x + ", "@ + y + ", "@ + z) + ", layer="@ + dec(layer as nat)
                + ", heads="@ + dec(n_heads as nat) + ", kv_heads="@ + dec(n_kv_heads as nat)
                + ", head_dim="@ + dec(head_dim as nat) + ")"@
            &&& op_text(
                Op::Rope { theta, style: RopeStyle::Interleaved, n_heads, head_dim },
                seq![a],
                ts,
                number,
            ) == "rope("@ + x + ", theta="@ + number + ", style="@ + "Interleaved"@ + ", heads="@ + dec(
                n_heads as nat,
            ) + ", head_dim="@ + dec(head_dim as nat) + ")"@
            &&& op_text(
                Op::Rope { theta, style: RopeStyle::HalfSplit, n_heads, head_dim },
                seq![a],
                ts,
                number,
            ) == "rope("@ + x + ", theta="@ + number + ", style="@ + "HalfSplit"@ + ", heads="@ + dec(
                n_heads as nat,
            ) + ", head_dim="@ + dec(head_dim as nat) + ")"@
        }),
{
    let one = seq![a].map_values(|x: usize| "%"@ + dec(x as nat));
    let two = seq![a, b].map_values(|x: usize| "%"@ + dec(x as nat));
    let three = seq![a, b, c].map_values(|x: usize| "%"@ + dec(x as nat));
    reveal_with_fuel(join, 4);
    let (x, y, z) = ("%"@ + dec(a as nat), "%"@ + dec(b as nat), "%"@ + dec(c as nat));
    assert(join(one, ", "@, 1) == x);
    assert(join(two, ", "@, 2) == x + ", "@ + y);
    assert(join(three, ", "@, 3) == x + ", "@ + y + ", "@ + z);
}

/// What a dump says of operations with weights: which weights, the bias if there is one, and
/// whether a norm is of rows or of heads.
pub proof fn law_weights_in_a_dump(
    ts: Seq<TensorV>,
    number: Seq<char>,
    a: usize,
    w: crate::graph::ir::TensorRef,
    v: crate::graph::ir::TensorRef,
    eps: u32,
    hd: u64,
)
    ensures
        ({
            let x = "%"@ + dec(a as nat);
            let t = weight_text(ts[w.0 as int]);
            let u = weight_text(ts[v.0 as int]);
            &&& op_text(Op::MatMul { weight: w, bias: None }, seq![a], ts, number) == "matmul("@ + x
                + ", "@ + t + ")"@
            &&& op_text(Op::MatMul { weight: w, bias: Some(v) }, seq![a], ts, number) == "matmul("@
                + x + ", "@ + t + ", bias="@ + u + ")"@
            &&& op_text(Op::RmsNorm { weight: w, eps, head_dim: None }, seq![a], ts, number)
                == "rmsnorm("@ + x + ", "@ + t + ", eps="@ + number + ")"@
            &&& op_text(Op::RmsNorm { weight: w, eps, head_dim: Some(hd) }, seq![a], ts, number)
                == "rmsnorm_per_head("@ + x + ", "@ + t + ", eps="@ + number + ", head_dim="@ + dec(
                hd as nat,
            ) + ")"@
            &&& op_text(Op::Embed { weight: w }, seq![a], ts, number) == "embed("@ + x + ", "@ + t
                + ")"@
        }),
{
    let one = seq![a].map_values(|x: usize| "%"@ + dec(x as nat));
    reveal_with_fuel(join, 2);
    assert(join(one, ", "@, 1) == "%"@ + dec(a as nat));
}

/// A dump has a line for each node, in order: the number of its value, its operation, its shape
/// and its label.
pub proof fn law_lines_of_a_dump(
    nodes: Seq<NodeV>,
    ts: Seq<TensorV>,
    numbers: Seq<Seq<char>>,
    k: nat,
)
    ensures
        nodes_text(nodes, ts, numbers, k + 1) == nodes_text(nodes, ts, numbers, k) + ("  %"@ + dec(
            k + 1,
        ) + " = "@ + op_text(nodes[k as int].op, nodes[k as int].inputs, ts, numbers[k as int]) + " : "@
            + shape_text(nodes[k as int].out_shape) + "  ; "@ + nodes[k as int].label + "\n"@),
        nodes_text(nodes, ts, numbers, 0) == Seq::<char>::empty(),
{
    assert(node_text(k, nodes[k as int], ts, numbers[k as int]) == "  %"@ + dec(k + 1) + " = "@
        + op_text(nodes[k as int].op, nodes[k as int].inputs, ts, numbers[k as int]) + " : "@
        + shape_text(nodes[k as int].out_shape) + "  ; "@ + nodes[k as int].label + "\n"@);
}

/// The head and the end of a dump.
pub proof fn law_frame_of_a_dump(g: GraphV, m: ModelV, numbers: Seq<Seq<char>>)
    ensures
        graph_text(g, m, numbers) == "graph (layers="@ + dec(g.n_layers as nat) + ", kv_heads="@ + dec(
            g.n_kv_heads as nat,
        ) + ", head_dim="@ + dec(g.head_dim as nat) + ")\n  %0 = tokens : [seq]\n"@ + nodes_text(
            g.nodes,
            m.tensors,
            numbers,
            g.nodes.len(),
        ) + "  output %"@ + dec(g.output as nat) + "\n"@,
{
}

/// A shape in a dump: its axes in order, the one of the tokens by name.
pub proof fn law_shapes_in_a_dump(n: u64)
    ensures
        shape_text(seq![Dim::SeqLen, Dim::Const(n)]) == "["@ + ("seq"@ + ","@ + dec(n as nat)) + "]"@,
        shape_text(seq![Dim::Const(n)]) == "["@ + dec(n as nat) + "]"@,
{
    reveal_with_fuel(join, 3);
    let two = seq![Dim::SeqLen, Dim::Const(n)].map_values(
        |d: Dim| crate::graph::ir::dim_text(d),
    );
    let one = seq![Dim::Const(n)].map_values(|d: Dim| crate::graph::ir::dim_text(d));
    assert(join(two, ","@, 2) == "seq"@ + ","@ + dec(n as nat));
    assert(join(one, ","@, 1) == dec(n as nat));
}

/// The labels under which steps are counted.
pub proof fn law_labels_of_steps(st: StepV, p: PlanV, m: ModelV)
    ensures
        st matches StepV::Gemv { weight, .. } ==> label_of(st, p, m) == "matmul:"@ + normalized(
            m.tensors[p.weights[weight as int].tensor_index as int].name,
        ),
        st is Quantize ==> label_of(st, p, m) == "quantize"@,
        st is Bias ==> label_of(st, p, m) == "bias"@,
        st is Embed ==> label_of(st, p, m) == "embed"@,
        st is RmsNorm ==> label_of(st, p, m) == "rmsnorm"@,
        st is Rope ==> label_of(st, p, m) == "rope"@,
        st is SwiGlu ==> label_of(st, p, m) == "swiglu"@,
        st is Add ==> label_of(st, p, m) == "add"@,
        st is Attention ==> label_of(st, p, m) == "attention"@,
{
}

/// Behind `_rs8_` and before the end there is no other.
proof fn lemma_cut(a: Seq<char>, b: Seq<char>, k: nat)
    requires
        a.len() < k <= (a + "_rs8_"@ + b).len(),
        forall|i: int| 0 <= i < b.len() ==> #[trigger] b[i] != '_',
    ensures
        last_place(a + "_rs8_"@ + b, "_rs8_"@, k) == Some(a.len()),
    decreases k,
{
    reveal_strlit("_rs8_");
    let p = "_rs8_"@;
    let s = a + p + b;
    if k - 1 == a.len() {
        assert(s.subrange(k - 1, k - 1 + 5) =~= p);
    } else {
        if k - 1 + 5 <= s.len() {
            let t = s.subrange(k - 1, k - 1 + 5);
            assert(t[4] == s[k - 1 + 4]);
            assert(s[k as int + 3] == b[k + 3 - a.len() - 5]);
            assert(t[4] != '_');
            assert(p[4] == '_');
        }
        lemma_cut(a, b, (k - 1) as nat);
    }
}

/// A product in a dump of a program: the kernel of its type, whatever the instructions are,
/// then the weight, the value that it gives and its sizes.
pub proof fn law_products_in_a_dump(
    d: DTypeV,
    isa: Isa,
    weight: usize,
    out: usize,
    rows: usize,
    k: usize,
    num: spec_fn(u32) -> Seq<char>,
)
    ensures
        step_text(StepV::Gemv { symbol: gemv_name(d, isa), weight, out, rows, k }, num) == "gemv "@
            + "inferno_gemv_"@ + (match d {
            DTypeV::Q4_K => "q4_k"@,
            DTypeV::Q8_0 => "q8_0"@,
            _ => "f32"@,
        }) + "_rs8 w"@ + dec(weight as nat) + " -> %"@ + dec(out as nat) + " rows="@ + dec(
            rows as nat,
        ) + " k="@ + dec(k as nat),
{
    let kind = match d {
        DTypeV::Q4_K => "q4_k"@,
        DTypeV::Q8_0 => "q8_0"@,
        _ => "f32"@,
    };
    let a = "inferno_gemv_"@ + kind;
    let b = match isa {
        Isa::Scalar => "scalar"@,
        Isa::Avx2 => "avx2"@,
    };
    let s = gemv_name(d, isa);
    reveal_strlit("scalar");
    reveal_strlit("avx2");
    reveal_strlit("_rs8_");
    assert(s == a + "_rs8_"@ + b);
    lemma_cut(a, b, s.len());
    assert(s.take(a.len() as int) =~= a);
    assert(before_last(s, "_rs8_"@) == a);
    let tail = "_rs8 w"@ + dec(weight as nat) + " -> %"@ + dec(out as nat) + " rows="@ + dec(
        rows as nat,
    ) + " k="@ + dec(k as nat);
    assert("gemv "@ + a =~= "gemv "@ + "inferno_gemv_"@ + kind);
}

} // verus!
