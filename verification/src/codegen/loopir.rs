//! From a plan to steps: each island's nodes as a flat list, with a product cut into
//! packing its input, the kernel call and adding the bias.

use vstd::prelude::*;
use vstd::string::StringExecFns;

use crate::codegen::plan::{find_weight, weight_at, Isa, IslandV, PackedV, Plan, PlanV};
use crate::formats::desc::{DType, DTypeV, RopeStyle};
use crate::formats::quant::{dtype_name, dtype_text};
use crate::graph::ir::{Graph, GraphV, Op};
use crate::text::{
    chars_of, dec, dec_text, join, join_texts, strings_view, write_with, writes, written,
};

verus! {

/// One step. `out`, `src` and the like are values of the graph: node `i` gives value
/// `i + 1`. `eps` and `theta` are single-precision bits.
#[derive(Debug, PartialEq, Eq)]
pub enum Step {
    Embed { table: usize, out: usize },
    /// Packs an input for a product with packed weights.
    Quantize { dtype: DType, src: usize, k: usize },
    Gemv { symbol: String, weight: usize, out: usize, rows: usize, k: usize },
    Bias { bias_tensor: usize, out: usize, rows: usize },
    RmsNorm { src: usize, weight: usize, eps: u32, out: usize, head_dim: Option<usize> },
    Rope {
        src: usize,
        out: usize,
        n_heads: usize,
        head_dim: usize,
        theta: u32,
        style: RopeStyle,
    },
    Attention {
        q: usize,
        k: usize,
        v: usize,
        layer: usize,
        n_heads: usize,
        n_kv_heads: usize,
        head_dim: usize,
        out: usize,
    },
    SwiGlu { gate: usize, up: usize, out: usize },
    Add { a: usize, b: usize, out: usize },
}

/// The model of a [`Step`].
#[verifier::ext_equal]
pub enum StepV {
    Embed { table: usize, out: usize },
    Quantize { dtype: DTypeV, src: usize, k: usize },
    Gemv { symbol: Seq<char>, weight: usize, out: usize, rows: usize, k: usize },
    Bias { bias_tensor: usize, out: usize, rows: usize },
    RmsNorm { src: usize, weight: usize, eps: u32, out: usize, head_dim: Option<usize> },
    Rope {
        src: usize,
        out: usize,
        n_heads: usize,
        head_dim: usize,
        theta: u32,
        style: RopeStyle,
    },
    Attention {
        q: usize,
        k: usize,
        v: usize,
        layer: usize,
        n_heads: usize,
        n_kv_heads: usize,
        head_dim: usize,
        out: usize,
    },
    SwiGlu { gate: usize, up: usize, out: usize },
    Add { a: usize, b: usize, out: usize },
}

impl View for Step {
    type V = StepV;

    open spec fn view(&self) -> StepV {
        match *self {
            Step::Embed { table, out } => StepV::Embed { table, out },
            Step::Quantize { dtype, src, k } => StepV::Quantize { dtype: dtype@, src, k },
            Step::Gemv { symbol, weight, out, rows, k } => StepV::Gemv {
                symbol: symbol@,
                weight,
                out,
                rows,
                k,
            },
            Step::Bias { bias_tensor, out, rows } => StepV::Bias { bias_tensor, out, rows },
            Step::RmsNorm { src, weight, eps, out, head_dim } => StepV::RmsNorm {
                src,
                weight,
                eps,
                out,
                head_dim,
            },
            Step::Rope { src, out, n_heads, head_dim, theta, style } => StepV::Rope {
                src,
                out,
                n_heads,
                head_dim,
                theta,
                style,
            },
            Step::Attention { q, k, v, layer, n_heads, n_kv_heads, head_dim, out } =>
                StepV::Attention { q, k, v, layer, n_heads, n_kv_heads, head_dim, out },
            Step::SwiGlu { gate, up, out } => StepV::SwiGlu { gate, up, out },
            Step::Add { a, b, out } => StepV::Add { a, b, out },
        }
    }
}

/// The steps of one island.
#[derive(Debug, PartialEq, Eq)]
pub struct IslandCode {
    pub kind: String,
    pub steps: Vec<Step>,
}

/// The model of an [`IslandCode`].
#[verifier::ext_equal]
pub struct IslandCodeV {
    pub kind: Seq<char>,
    pub steps: Seq<StepV>,
}

/// The models of a list of steps.
pub open spec fn steps_view(s: Seq<Step>) -> Seq<StepV> {
    s.map_values(|x: Step| x@)
}

impl View for IslandCode {
    type V = IslandCodeV;

    open spec fn view(&self) -> IslandCodeV {
        IslandCodeV { kind: self.kind@, steps: steps_view(self.steps@) }
    }
}

/// The whole program, island by island.
#[derive(Debug, PartialEq, Eq)]
pub struct LoopIr {
    pub islands: Vec<IslandCode>,
}

/// The models of a list of island codes.
pub open spec fn codes_view(s: Seq<IslandCode>) -> Seq<IslandCodeV> {
    s.map_values(|x: IslandCode| x@)
}

impl View for LoopIr {
    type V = Seq<IslandCodeV>;

    open spec fn view(&self) -> Seq<IslandCodeV> {
        codes_view(self.islands@)
    }
}

/// How kernel names write a stored type.
pub open spec fn kernel_dtype(d: DTypeV) -> Seq<char> {
    match d {
        DTypeV::Q8_0 => "q8_0"@,
        DTypeV::Q4_K => "q4_k"@,
        _ => "f32"@,
    }
}

/// How kernel names write instructions.
pub open spec fn isa_name(isa: Isa) -> Seq<char> {
    match isa {
        Isa::Scalar => "scalar"@,
        Isa::Avx2 => "avx2"@,
    }
}

fn dtype_part(d: &DType) -> (s: String)
    ensures
        s@ == kernel_dtype(d@),
{
    match d {
        DType::Q8_0 => "q8_0".to_owned(),
        DType::Q4_K => "q4_k".to_owned(),
        _ => "f32".to_owned(),
    }
}

pub fn isa_part(isa: Isa) -> (s: String)
    ensures
        s@ == isa_name(isa),
{
    match isa {
        Isa::Scalar => "scalar".to_owned(),
        Isa::Avx2 => "avx2".to_owned(),
    }
}

/// The kernel that multiplies weights of a stored type with one row.
pub open spec fn gemv_name(d: DTypeV, isa: Isa) -> Seq<char> {
    "inferno_gemv_"@ + kernel_dtype(d) + "_rs8_"@ + isa_name(isa)
}

/// The kernel that multiplies weights of a stored type with one row.
pub fn gemv_symbol(dtype: &DType, isa: Isa) -> (s: String)
    ensures
        s@ == gemv_name(dtype@, isa),
{
    let mut s = "inferno_gemv_".to_owned();
    s.append(dtype_part(dtype).as_str());
    s.append("_rs8_");
    s.append(isa_part(isa).as_str());
    s
}

/// The kernel that multiplies weights of a stored type with a panel of rows.
pub open spec fn gemm_name(d: DTypeV, isa: Isa) -> Seq<char> {
    "inferno_gemm_"@ + kernel_dtype(d) + "_rs8_"@ + isa_name(isa)
}

/// The kernel that multiplies weights of a stored type with a panel of rows.
pub fn gemm_symbol(dtype: &DType, isa: Isa) -> (s: String)
    ensures
        s@ == gemm_name(dtype@, isa),
{
    let mut s = "inferno_gemm_".to_owned();
    s.append(dtype_part(dtype).as_str());
    s.append("_rs8_");
    s.append(isa_part(isa).as_str());
    s
}

/// The attention kernel.
pub open spec fn attention_name(isa: Isa) -> Seq<char> {
    "inferno_attention_f32_"@ + isa_name(isa)
}

/// The attention kernel.
pub fn attention_symbol(isa: Isa) -> (s: String)
    ensures
        s@ == attention_name(isa),
{
    let mut s = "inferno_attention_f32_".to_owned();
    s.append(isa_part(isa).as_str());
    s
}

/// The steps of a product with the weight at place `wi`.
pub open spec fn matmul_steps(w: PackedV, wi: usize, bias: Option<usize>, src: usize, out: usize) -> Seq<
    StepV,
> {
    let pack = if w.dtype == DTypeV::F32 {
        Seq::<StepV>::empty()
    } else {
        seq![StepV::Quantize { dtype: w.dtype, src, k: w.k }]
    };
    let call = seq![
        StepV::Gemv { symbol: gemv_name(w.dtype, w.isa), weight: wi, out, rows: w.rows, k: w.k },
    ];
    let add = match bias {
        Some(b) => seq![StepV::Bias { bias_tensor: b, out, rows: w.rows }],
        None => Seq::empty(),
    };
    pack + call + add
}

/// The steps of node `n`.
pub open spec fn node_steps(p: PlanV, g: GraphV, n: nat) -> Seq<StepV> {
    let node = g.nodes[n as int];
    let out = (n + 1) as usize;
    match node.op {
        Op::Embed { weight } => seq![StepV::Embed { table: weight.0, out }],
        Op::MatMul { weight, bias } => {
            let wi = weight_at(p.weights, weight.0, 0)->Some_0;
            matmul_steps(
                p.weights[wi as int],
                wi,
                match bias {
                    Some(b) => Some(b.0),
                    None => None,
                },
                node.inputs[0],
                out,
            )
        },
        Op::RmsNorm { weight, eps, head_dim } => seq![
            StepV::RmsNorm {
                src: node.inputs[0],
                weight: weight.0,
                eps,
                out,
                head_dim: match head_dim {
                    Some(d) => Some(d as usize),
                    None => None,
                },
            },
        ],
        Op::Rope { theta, style, n_heads, head_dim } => seq![
            StepV::Rope {
                src: node.inputs[0],
                out,
                n_heads: n_heads as usize,
                head_dim: head_dim as usize,
                theta,
                style,
            },
        ],
        Op::Attention { layer, n_heads, n_kv_heads, head_dim } => seq![
            StepV::Attention {
                q: node.inputs[0],
                k: node.inputs[1],
                v: node.inputs[2],
                layer,
                n_heads: n_heads as usize,
                n_kv_heads: n_kv_heads as usize,
                head_dim: head_dim as usize,
                out,
            },
        ],
        Op::SwiGlu => seq![StepV::SwiGlu { gate: node.inputs[0], up: node.inputs[1], out }],
        Op::Add => seq![StepV::Add { a: node.inputs[0], b: node.inputs[1], out }],
    }
}

/// The steps of the nodes from `first` up to `end`.
pub open spec fn nodes_steps(p: PlanV, g: GraphV, first: nat, end: nat) -> Seq<StepV>
    decreases end,
{
    if end <= first {
        Seq::empty()
    } else {
        nodes_steps(p, g, first, (end - 1) as nat) + node_steps(p, g, (end - 1) as nat)
    }
}

/// The program of a plan.
pub open spec fn program(p: PlanV, g: GraphV) -> Seq<IslandCodeV> {
    p.islands.map_values(
        |i: IslandV|
            IslandCodeV {
                kind: i.kind,
                steps: nodes_steps(p, g, i.first as nat, i.end as nat),
            },
    )
}

/// How many values a node takes.
pub open spec fn arity(op: Op) -> nat {
    match op {
        Op::Embed { .. } => 0,
        Op::MatMul { .. } | Op::RmsNorm { .. } | Op::Rope { .. } => 1,
        Op::SwiGlu | Op::Add => 2,
        Op::Attention { .. } => 3,
    }
}

/// Whether a plan is one of a graph: its islands hold nodes of the graph, which take
/// the values that they need, and the weight of every product among them is packed.
pub open spec fn planned(p: PlanV, g: GraphV) -> bool {
    &&& forall|i: int| 0 <= i < p.islands.len() ==> (#[trigger] p.islands[i]).end <= g.nodes.len()
    &&& forall|n: int|
        0 <= n < g.nodes.len() ==> {
            &&& (#[trigger] g.nodes[n]).inputs.len() >= arity(g.nodes[n].op)
            &&& g.nodes[n].op matches Op::MatMul { weight, .. } ==> weight_at(
                p.weights,
                weight.0,
                0,
            ) is Some
        }
}

/// Appends the steps of node `n`.
fn push_steps(steps: &mut Vec<Step>, plan: &Plan, graph: &Graph, n: usize)
    requires
        planned(plan@, graph@),
        n < graph@.nodes.len(),
    ensures
        steps_view(final(steps)@) == steps_view(old(steps)@) + node_steps(plan@, graph@, n as nat),
{
    let node = &graph.nodes[n];
    let ghost before = steps_view(steps@);
    let ghost nv = graph@.nodes[n as int];
    proof {
        assert(nv == node@);
    }
    let total: usize = graph.nodes.len();
    let out: usize = n + 1;
    match node.op {
        Op::Embed { weight } => {
            steps.push(Step::Embed { table: weight.0, out });
        },
        Op::MatMul { weight, bias } => {
            let wi: usize = match find_weight(plan, weight.0) {
                Some(i) => i,
                None => 0,
            };
            let pw = &plan.weights[wi];
            proof {
                assert(plan@.weights[wi as int] == pw@);
            }
            let packed = match pw.dtype {
                DType::F32 => false,
                _ => true,
            };
            if packed {
                steps.push(
                    Step::Quantize { dtype: pw.dtype.clone(), src: node.inputs[0], k: pw.k },
                );
            }
            steps.push(
                Step::Gemv {
                    symbol: gemv_symbol(&pw.dtype, pw.isa),
                    weight: wi,
                    out,
                    rows: pw.rows,
                    k: pw.k,
                },
            );
            match bias {
                Some(b) => {
                    steps.push(Step::Bias { bias_tensor: b.0, out, rows: pw.rows });
                },
                None => {},
            }
        },
        Op::RmsNorm { weight, eps, head_dim } => {
            let head_dim: Option<usize> = match head_dim {
                Some(d) => Some(d as usize),
                None => None,
            };
            steps.push(
                Step::RmsNorm { src: node.inputs[0], weight: weight.0, eps, out, head_dim },
            );
        },
        Op::Rope { theta, style, n_heads, head_dim } => {
            steps.push(
                Step::Rope {
                    src: node.inputs[0],
                    out,
                    n_heads: n_heads as usize,
                    head_dim: head_dim as usize,
                    theta,
                    style,
                },
            );
        },
        Op::Attention { layer, n_heads, n_kv_heads, head_dim } => {
            steps.push(
                Step::Attention {
                    q: node.inputs[0],
                    k: node.inputs[1],
                    v: node.inputs[2],
                    layer,
                    n_heads: n_heads as usize,
                    n_kv_heads: n_kv_heads as usize,
                    head_dim: head_dim as usize,
                    out,
                },
            );
        },
        Op::SwiGlu => {
            steps.push(Step::SwiGlu { gate: node.inputs[0], up: node.inputs[1], out });
        },
        Op::Add => {
            steps.push(Step::Add { a: node.inputs[0], b: node.inputs[1], out });
        },
    }
    proof {
        assert(steps_view(steps@) =~= before + node_steps(plan@, graph@, n as nat));
    }
}

/// The program of a plan: the steps of its islands, node by node.
pub fn build_loopir(plan: &Plan, graph: &Graph) -> (r: LoopIr)
    requires
        planned(plan@, graph@),
    ensures
        r@ == program(plan@, graph@),
{
    let ghost p = plan@;
    let ghost g = graph@;
    let mut islands: Vec<IslandCode> = Vec::new();
    let mut i: usize = 0;
    while i < plan.islands.len()
        invariant
            planned(plan@, graph@),
            p == plan@,
            g == graph@,
            i <= plan.islands@.len(),
            islands@.len() == i,
            forall|j: int| 0 <= j < i ==> (#[trigger] islands@[j])@ == program(p, g)[j],
        decreases plan.islands.len() - i,
    {
        let isl = &plan.islands[i];
        let mut steps: Vec<Step> = Vec::new();
        let mut n: usize = isl.first;
        proof {
            assert(p.islands[i as int] == isl@);
            assert(steps_view(steps@) =~= Seq::empty());
        }
        while n < isl.end
            invariant
                planned(plan@, graph@),
                p == plan@,
                g == graph@,
                isl.end <= g.nodes.len(),
                n <= isl.end || n == isl.first,
                isl.first <= n,
                steps_view(steps@) == nodes_steps(p, g, isl.first as nat, n as nat),
            decreases isl.end - n,
        {
            push_steps(&mut steps, plan, graph, n);
            n += 1;
        }
        proof {
            assert(steps_view(steps@) == nodes_steps(p, g, isl.first as nat, isl.end as nat));
        }
        islands.push(IslandCode { kind: isl.kind.clone(), steps });
        i += 1;
    }
    let r = LoopIr { islands };
    proof {
        assert(r@ =~= program(p, g));
    }
    r
}

/// A field in a dump.
pub open spec fn field(name: Seq<char>, value: Seq<char>) -> Seq<char> {
    name + ": "@ + value
}

/// A field with a count in a dump.
pub open spec fn count_field(name: Seq<char>, n: usize) -> Seq<char> {
    field(name, dec(n as nat))
}

/// A record in a dump: its name, and its fields in braces.
pub open spec fn record(name: Seq<char>, fields: Seq<Seq<char>>) -> Seq<char> {
    name + " { "@ + join(fields, ", "@, fields.len()) + " }"@
}

/// An optional count in a dump.
pub open spec fn opt_text(n: Option<usize>) -> Seq<char> {
    match n {
        Some(d) => "Some("@ + dec(d as nat) + ")"@,
        None => "None"@,
    }
}

/// A rotation style in a dump.
pub open spec fn style_text(s: RopeStyle) -> Seq<char> {
    match s {
        RopeStyle::Interleaved => "Interleaved"@,
        RopeStyle::HalfSplit => "HalfSplit"@,
    }
}

/// The last of the first `k` places of `s` at which `p` stands.
pub open spec fn last_place(s: Seq<char>, p: Seq<char>, k: nat) -> Option<nat>
    decreases k,
{
    if k == 0 {
        None
    } else if k - 1 + p.len() <= s.len() && s.subrange(k - 1, k - 1 + p.len()) == p {
        Some((k - 1) as nat)
    } else {
        last_place(s, p, (k - 1) as nat)
    }
}

/// What stands before the last `p` in `s`, or all of `s`.
pub open spec fn before_last(s: Seq<char>, p: Seq<char>) -> Seq<char> {
    match last_place(s, p, s.len()) {
        Some(i) => s.take(i as int),
        None => s,
    }
}

/// A step in a dump: a kernel without its instructions, so that a dump does not
/// depend on the machine. `num` writes single-precision numbers.
pub open spec fn step_text(st: StepV, num: spec_fn(u32) -> Seq<char>) -> Seq<char> {
    match st {
        StepV::Gemv { symbol, weight, out, rows, k } => "gemv "@ + before_last(symbol, "_rs8_"@)
            + "_rs8 w"@ + dec(weight as nat) + " -> %"@ + dec(out as nat) + " rows="@ + dec(
            rows as nat,
        ) + " k="@ + dec(k as nat),
        StepV::Embed { table, out } => record(
            "Embed"@,
            seq![count_field("table"@, table), count_field("out"@, out)],
        ),
        StepV::Quantize { dtype, src, k } => record(
            "Quantize"@,
            seq![
                field("dtype"@, dtype_name(dtype)),
                count_field("src"@, src),
                count_field("k"@, k),
            ],
        ),
        StepV::Bias { bias_tensor, out, rows } => record(
            "Bias"@,
            seq![
                count_field("bias_tensor"@, bias_tensor),
                count_field("out"@, out),
                count_field("rows"@, rows),
            ],
        ),
        StepV::RmsNorm { src, weight, eps, out, head_dim } => record(
            "RmsNorm"@,
            seq![
                count_field("src"@, src),
                count_field("weight"@, weight),
                field("eps"@, num(eps)),
                count_field("out"@, out),
                field("head_dim"@, opt_text(head_dim)),
            ],
        ),
        StepV::Rope { src, out, n_heads, head_dim, theta, style } => record(
            "Rope"@,
            seq![
                count_field("src"@, src),
                count_field("out"@, out),
                count_field("n_heads"@, n_heads),
                count_field("head_dim"@, head_dim),
                field("theta"@, num(theta)),
                field("style"@, style_text(style)),
            ],
        ),
        StepV::Attention { q, k, v, layer, n_heads, n_kv_heads, head_dim, out } => record(
            "Attention"@,
            seq![
                count_field("q"@, q),
                count_field("k"@, k),
                count_field("v"@, v),
                count_field("layer"@, layer),
                count_field("n_heads"@, n_heads),
                count_field("n_kv_heads"@, n_kv_heads),
                count_field("head_dim"@, head_dim),
                count_field("out"@, out),
            ],
        ),
        StepV::SwiGlu { gate, up, out } => record(
            "SwiGlu"@,
            seq![count_field("gate"@, gate), count_field("up"@, up), count_field("out"@, out)],
        ),
        StepV::Add { a, b, out } => record(
            "Add"@,
            seq![count_field("a"@, a), count_field("b"@, b), count_field("out"@, out)],
        ),
    }
}

/// The lines of the first `k` steps.
pub open spec fn steps_text(s: Seq<StepV>, num: spec_fn(u32) -> Seq<char>, k: nat) -> Seq<char>
    decreases k,
{
    if k == 0 {
        Seq::empty()
    } else {
        steps_text(s, num, (k - 1) as nat) + "  "@ + step_text(s[k - 1], num) + "\n"@
    }
}

/// The lines of the first `k` islands.
pub open spec fn islands_text(
    s: Seq<IslandCodeV>,
    num: spec_fn(u32) -> Seq<char>,
    k: nat,
) -> Seq<char>
    decreases k,
{
    if k == 0 {
        Seq::empty()
    } else {
        islands_text(s, num, (k - 1) as nat) + "island "@ + s[k - 1].kind + "\n"@ + steps_text(
            s[k - 1].steps,
            num,
            s[k - 1].steps.len(),
        )
    }
}

fn add_field(fields: &mut Vec<String>, name: &str, value: String)
    ensures
        strings_view(final(fields)@) == strings_view(old(fields)@).push(field(name@, value@)),
{
    let ghost before = strings_view(fields@);
    let mut s = name.to_owned();
    s.append(": ");
    s.append(value.as_str());
    fields.push(s);
    assert(strings_view(fields@) =~= before.push(field(name@, value@)));
}

fn add_count(fields: &mut Vec<String>, name: &str, n: usize)
    ensures
        strings_view(final(fields)@) == strings_view(old(fields)@).push(count_field(name@, n)),
{
    add_field(fields, name, dec_text(n as u64));
}

fn record_text(name: &str, fields: &Vec<String>) -> (s: String)
    ensures
        s@ == record(name@, strings_view(fields@)),
{
    let mut s = name.to_owned();
    s.append(" { ");
    s.append(join_texts(fields, ", ").as_str());
    s.append(" }");
    s
}

fn opt_string(n: Option<usize>) -> (s: String)
    ensures
        s@ == opt_text(n),
{
    match n {
        Some(d) => {
            let mut s = "Some(".to_owned();
            s.append(dec_text(d as u64).as_str());
            s.append(")");
            s
        },
        None => "None".to_owned(),
    }
}

fn style_string(style: RopeStyle) -> (s: String)
    ensures
        s@ == style_text(style),
{
    match style {
        RopeStyle::Interleaved => "Interleaved".to_owned(),
        RopeStyle::HalfSplit => "HalfSplit".to_owned(),
    }
}

/// What stands before the last `p` in `s`, or all of `s`.
fn cut_last(s: &str, p: &str) -> (r: String)
    ensures
        r@ == before_last(s@, p@),
{
    let cs = chars_of(s);
    let ps = chars_of(p);
    let n: usize = ps.len();
    let total: usize = cs.len();
    let mut k: usize = total;
    while k > 0
        invariant
            cs@ == s@,
            ps@ == p@,
            n == ps@.len(),
            k <= cs@.len() == total,
            last_place(s@, p@, s@.len()) == last_place(s@, p@, k as nat),
        decreases k,
    {
        let at: usize = k - 1;
        let mut same: bool = n <= total - at;
        let mut i: usize = 0;
        while same && i < n
            invariant
                cs@ == s@,
                ps@ == p@,
                n == ps@.len(),
                at < cs@.len() == total,
                same ==> at + n <= cs@.len(),
                !same ==> at + n > s@.len() || s@.subrange(at as int, at + n) != p@,
                i <= n,
                same ==> (forall|j: int| 0 <= j < i ==> s@[at + j] == #[trigger] p@[j]),
            decreases
                    n - i + (if same {
                        1int
                    } else {
                        0int
                    }),
        {
            if cs[at + i] != ps[i] {
                same = false;
                assert(s@.subrange(at as int, at + n)[i as int] != p@[i as int]);
            } else {
                i += 1;
            }
        }
        if same {
            proof {
                assert(s@.subrange(at as int, at + n) =~= p@);
            }
            let mut r = String::new();
            let mut j: usize = 0;
            assert(r@ =~= s@.take(0));
            while j < at
                invariant
                    cs@ == s@,
                    j <= at < cs@.len(),
                    r@ == s@.take(j as int),
                decreases at - j,
            {
                r.push(cs[j]);
                j += 1;
                assert(r@ =~= s@.take(j as int));
            }
            return r;
        }
        k = at;
    }
    s.to_owned()
}

/// A step in a dump.
fn step_string<F: Fn(u32) -> String>(st: &Step, num: &F) -> (s: String)
    requires
        writes(*num),
    ensures
        s@ == step_text(st@, |x: u32| written(*num, x)),
{
    let ghost w = |x: u32| written(*num, x);
    let mut f: Vec<String> = Vec::new();
    assert(strings_view(f@) =~= Seq::empty());
    match st {
        Step::Gemv { symbol, weight, out, rows, k } => {
            let mut s = "gemv ".to_owned();
            s.append(cut_last(symbol.as_str(), "_rs8_").as_str());
            s.append("_rs8 w");
            s.append(dec_text(*weight as u64).as_str());
            s.append(" -> %");
            s.append(dec_text(*out as u64).as_str());
            s.append(" rows=");
            s.append(dec_text(*rows as u64).as_str());
            s.append(" k=");
            s.append(dec_text(*k as u64).as_str());
            s
        },
        Step::Embed { table, out } => {
            add_count(&mut f, "table", *table);
            add_count(&mut f, "out", *out);
            assert(strings_view(f@) =~= seq![count_field("table"@, *table), count_field("out"@, *out)]);
            record_text("Embed", &f)
        },
        Step::Quantize { dtype, src, k } => {
            add_field(&mut f, "dtype", dtype_text(dtype));
            add_count(&mut f, "src", *src);
            add_count(&mut f, "k", *k);
            assert(strings_view(f@) =~= seq![
                field("dtype"@, dtype_name(dtype@)),
                count_field("src"@, *src),
                count_field("k"@, *k),
            ]);
            record_text("Quantize", &f)
        },
        Step::Bias { bias_tensor, out, rows } => {
            add_count(&mut f, "bias_tensor", *bias_tensor);
            add_count(&mut f, "out", *out);
            add_count(&mut f, "rows", *rows);
            assert(strings_view(f@) =~= seq![
                count_field("bias_tensor"@, *bias_tensor),
                count_field("out"@, *out),
                count_field("rows"@, *rows),
            ]);
            record_text("Bias", &f)
        },
        Step::RmsNorm { src, weight, eps, out, head_dim } => {
            add_count(&mut f, "src", *src);
            add_count(&mut f, "weight", *weight);
            add_field(&mut f, "eps", write_with(num, *eps));
            add_count(&mut f, "out", *out);
            add_field(&mut f, "head_dim", opt_string(*head_dim));
            assert(strings_view(f@) =~= seq![
                count_field("src"@, *src),
                count_field("weight"@, *weight),
                field("eps"@, w(*eps)),
                count_field("out"@, *out),
                field("head_dim"@, opt_text(*head_dim)),
            ]);
            record_text("RmsNorm", &f)
        },
        Step::Rope { src, out, n_heads, head_dim, theta, style } => {
            add_count(&mut f, "src", *src);
            add_count(&mut f, "out", *out);
            add_count(&mut f, "n_heads", *n_heads);
            add_count(&mut f, "head_dim", *head_dim);
            add_field(&mut f, "theta", write_with(num, *theta));
            add_field(&mut f, "style", style_string(*style));
            assert(strings_view(f@) =~= seq![
                count_field("src"@, *src),
                count_field("out"@, *out),
                count_field("n_heads"@, *n_heads),
                count_field("head_dim"@, *head_dim),
                field("theta"@, w(*theta)),
                field("style"@, style_text(*style)),
            ]);
            record_text("Rope", &f)
        },
        Step::Attention { q, k, v, layer, n_heads, n_kv_heads, head_dim, out } => {
            add_count(&mut f, "q", *q);
            add_count(&mut f, "k", *k);
            add_count(&mut f, "v", *v);
            add_count(&mut f, "layer", *layer);
            add_count(&mut f, "n_heads", *n_heads);
            add_count(&mut f, "n_kv_heads", *n_kv_heads);
            add_count(&mut f, "head_dim", *head_dim);
            add_count(&mut f, "out", *out);
            assert(strings_view(f@) =~= seq![
                count_field("q"@, *q),
                count_field("k"@, *k),
                count_field("v"@, *v),
                count_field("layer"@, *layer),
                count_field("n_heads"@, *n_heads),
                count_field("n_kv_heads"@, *n_kv_heads),
                count_field("head_dim"@, *head_dim),
                count_field("out"@, *out),
            ]);
            record_text("Attention", &f)
        },
        Step::SwiGlu { gate, up, out } => {
            add_count(&mut f, "gate", *gate);
            add_count(&mut f, "up", *up);
            add_count(&mut f, "out", *out);
            assert(strings_view(f@) =~= seq![
                count_field("gate"@, *gate),
                count_field("up"@, *up),
                count_field("out"@, *out),
            ]);
            record_text("SwiGlu", &f)
        },
        Step::Add { a, b, out } => {
            add_count(&mut f, "a", *a);
            add_count(&mut f, "b", *b);
            add_count(&mut f, "out", *out);
            assert(strings_view(f@) =~= seq![
                count_field("a"@, *a),
                count_field("b"@, *b),
                count_field("out"@, *out),
            ]);
            record_text("Add", &f)
        },
    }
}

impl LoopIr {
    /// A stable text of the program, the same on every machine. `num` writes the
    /// single-precision numbers.
    pub fn dump<F: Fn(u32) -> String>(&self, num: &F) -> (s: String)
        requires
            writes(*num),
        ensures
            s@ == islands_text(self@, |x: u32| written(*num, x), self@.len()),
    {
        let ghost w = |x: u32| written(*num, x);
        let mut s = String::new();
        let mut i: usize = 0;
        while i < self.islands.len()
            invariant
                writes(*num),
                w == (|x: u32| written(*num, x)),
                i <= self.islands@.len(),
                s@ == islands_text(self@, w, i as nat),
            decreases self.islands.len() - i,
        {
            let isl = &self.islands[i];
            proof {
                assert(self@[i as int] == isl@);
            }
            s.append("island ");
            s.append(isl.kind.as_str());
            s.append("\n");
            let ghost head = s@;
            let mut j: usize = 0;
            assert(s@ =~= head + steps_text(isl@.steps, w, 0));
            while j < isl.steps.len()
                invariant
                    writes(*num),
                    w == (|x: u32| written(*num, x)),
                    j <= isl.steps@.len(),
                    s@ == head + steps_text(isl@.steps, w, j as nat),
                decreases isl.steps.len() - j,
            {
                proof {
                    assert(isl@.steps[j as int] == isl.steps@[j as int]@);
                }
                s.append("  ");
                s.append(step_string(&isl.steps[j], num).as_str());
                s.append("\n");
                j += 1;
                assert(s@ =~= head + steps_text(isl@.steps, w, j as nat));
            }
            i += 1;
        }
        s
    }
}

} // verus!
