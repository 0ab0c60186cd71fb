//! Which kernel a product calls, under which name, and what it hands to it.

use vstd::prelude::*;

use crate::codegen::code::{int_of, Code, Int, Kernel, Machine, Stmt};
use crate::codegen::emit::{meta_of, CompileOptions};
use crate::codegen::kernels::{kernel_table, quantize_name, Ty};
use crate::codegen::loopir::{
    attention_name, gemm_name, gemv_name, node_steps, nodes_steps, StepV,
};
use crate::codegen::lower::{
    append_stmt, attention_code, cache_counts, gemm_code, gemv_code, placed, plus, product_ok,
    row_at, row_len, tile_attention_stmt, tile_first, TILE,
};
use crate::codegen::plan::{isa_of, lemma_weight_at, weight_at, Isa, PlanV};
use crate::formats::desc::{DTypeV, ModelV};
use crate::graph::ir::{GraphV, Op};

verus! {

/// The names of the kernels that multiply with one row: each stored type has its own, in
/// each set of instructions, and what is not packed goes by the plain one.
pub proof fn law_row_kernels_by_type(d: DTypeV)
    ensures
        d is Q4_K ==> gemv_name(d, Isa::Scalar) == "inferno_gemv_q4_k_rs8_scalar"@,
        d is Q4_K ==> gemv_name(d, Isa::Avx2) == "inferno_gemv_q4_k_rs8_avx2"@,
        d is Q8_0 ==> gemv_name(d, Isa::Scalar) == "inferno_gemv_q8_0_rs8_scalar"@,
        d is Q8_0 ==> gemv_name(d, Isa::Avx2) == "inferno_gemv_q8_0_rs8_avx2"@,
        !(d is Q4_K) && !(d is Q8_0) ==> gemv_name(d, Isa::Scalar)
            == "inferno_gemv_f32_rs8_scalar"@,
        !(d is Q4_K) && !(d is Q8_0) ==> gemv_name(d, Isa::Avx2) == "inferno_gemv_f32_rs8_avx2"@,
{
    lemma_letters();
    reveal_strlit("inferno_gemv_");
    reveal_strlit("inferno_gemv_q4_k_rs8_scalar");
    reveal_strlit("inferno_gemv_q4_k_rs8_avx2");
    reveal_strlit("inferno_gemv_q8_0_rs8_scalar");
    reveal_strlit("inferno_gemv_q8_0_rs8_avx2");
    reveal_strlit("inferno_gemv_f32_rs8_scalar");
    reveal_strlit("inferno_gemv_f32_rs8_avx2");
    if d is Q4_K {
        assert(gemv_name(d, Isa::Scalar) =~= "inferno_gemv_q4_k_rs8_scalar"@);
        assert(gemv_name(d, Isa::Avx2) =~= "inferno_gemv_q4_k_rs8_avx2"@);
    } else if d is Q8_0 {
        assert(gemv_name(d, Isa::Scalar) =~= "inferno_gemv_q8_0_rs8_scalar"@);
        assert(gemv_name(d, Isa::Avx2) =~= "inferno_gemv_q8_0_rs8_avx2"@);
    } else {
        assert(gemv_name(d, Isa::Scalar) =~= "inferno_gemv_f32_rs8_scalar"@);
        assert(gemv_name(d, Isa::Avx2) =~= "inferno_gemv_f32_rs8_avx2"@);
    }
}

/// The names of the kernels that multiply with a panel of rows.
pub proof fn law_panel_kernels_by_type(d: DTypeV)
    ensures
        d is Q4_K ==> gemm_name(d, Isa::Scalar) == "inferno_gemm_q4_k_rs8_scalar"@,
        d is Q4_K ==> gemm_name(d, Isa::Avx2) == "inferno_gemm_q4_k_rs8_avx2"@,
        d is Q8_0 ==> gemm_name(d, Isa::Scalar) == "inferno_gemm_q8_0_rs8_scalar"@,
        d is Q8_0 ==> gemm_name(d, Isa::Avx2) == "inferno_gemm_q8_0_rs8_avx2"@,
        !(d is Q4_K) && !(d is Q8_0) ==> gemm_name(d, Isa::Scalar)
            == "inferno_gemm_f32_rs8_scalar"@,
        !(d is Q4_K) && !(d is Q8_0) ==> gemm_name(d, Isa::Avx2) == "inferno_gemm_f32_rs8_avx2"@,
{
    lemma_letters();
    reveal_strlit("inferno_gemm_");
    reveal_strlit("inferno_gemm_q4_k_rs8_scalar");
    reveal_strlit("inferno_gemm_q4_k_rs8_avx2");
    reveal_strlit("inferno_gemm_q8_0_rs8_scalar");
    reveal_strlit("inferno_gemm_q8_0_rs8_avx2");
    reveal_strlit("inferno_gemm_f32_rs8_scalar");
    reveal_strlit("inferno_gemm_f32_rs8_avx2");
    if d is Q4_K {
        assert(gemm_name(d, Isa::Scalar) =~= "inferno_gemm_q4_k_rs8_scalar"@);
        assert(gemm_name(d, Isa::Avx2) =~= "inferno_gemm_q4_k_rs8_avx2"@);
    } else if d is Q8_0 {
        assert(gemm_name(d, Isa::Scalar) =~= "inferno_gemm_q8_0_rs8_scalar"@);
        assert(gemm_name(d, Isa::Avx2) =~= "inferno_gemm_q8_0_rs8_avx2"@);
    } else {
        assert(gemm_name(d, Isa::Scalar) =~= "inferno_gemm_f32_rs8_scalar"@);
        assert(gemm_name(d, Isa::Avx2) =~= "inferno_gemm_f32_rs8_avx2"@);
    }
}

/// The names of the kernels that pack a row, for each packed type, and of those that attend.
pub proof fn law_other_kernels_by_name()
    ensures
        quantize_name(DTypeV::Q8_0, Isa::Scalar) == "inferno_quantize_row_q8a_scalar"@,
        quantize_name(DTypeV::Q8_0, Isa::Avx2) == "inferno_quantize_row_q8a_avx2"@,
        quantize_name(DTypeV::Q4_K, Isa::Scalar) == "inferno_quantize_row_q8k_scalar"@,
        quantize_name(DTypeV::Q4_K, Isa::Avx2) == "inferno_quantize_row_q8k_avx2"@,
        attention_name(Isa::Scalar) == "inferno_attention_f32_scalar"@,
        attention_name(Isa::Avx2) == "inferno_attention_f32_avx2"@,
{
    lemma_letters();
    reveal_strlit("inferno_quantize_row_q8a_");
    reveal_strlit("inferno_quantize_row_q8k_");
    reveal_strlit("inferno_attention_f32_");
    reveal_strlit("inferno_quantize_row_q8a_scalar");
    reveal_strlit("inferno_quantize_row_q8a_avx2");
    reveal_strlit("inferno_quantize_row_q8k_scalar");
    reveal_strlit("inferno_quantize_row_q8k_avx2");
    reveal_strlit("inferno_attention_f32_scalar");
    reveal_strlit("inferno_attention_f32_avx2");
    assert(quantize_name(DTypeV::Q8_0, Isa::Scalar) =~= "inferno_quantize_row_q8a_scalar"@);
    assert(quantize_name(DTypeV::Q8_0, Isa::Avx2) =~= "inferno_quantize_row_q8a_avx2"@);
    assert(quantize_name(DTypeV::Q4_K, Isa::Scalar) =~= "inferno_quantize_row_q8k_scalar"@);
    assert(quantize_name(DTypeV::Q4_K, Isa::Avx2) =~= "inferno_quantize_row_q8k_avx2"@);
    assert(attention_name(Isa::Scalar) =~= "inferno_attention_f32_scalar"@);
    assert(attention_name(Isa::Avx2) =~= "inferno_attention_f32_avx2"@);
}

/// The parts that names are made of.
proof fn lemma_letters()
    ensures
        "q8_0"@ == seq!['q', '8', '_', '0'],
        "q4_k"@ == seq!['q', '4', '_', 'k'],
        "f32"@ == seq!['f', '3', '2'],
        "scalar"@ == seq!['s', 'c', 'a', 'l', 'a', 'r'],
        "avx2"@ == seq!['a', 'v', 'x', '2'],
        "_rs8_"@ == seq!['_', 'r', 's', '8', '_'],
{
    reveal_strlit("q8_0");
    reveal_strlit("q4_k");
    reveal_strlit("f32");
    reveal_strlit("scalar");
    reveal_strlit("avx2");
    reveal_strlit("_rs8_");
    assert("q8_0"@ =~= seq!['q', '8', '_', '0']);
    assert("q4_k"@ =~= seq!['q', '4', '_', 'k']);
    assert("f32"@ =~= seq!['f', '3', '2']);
    assert("scalar"@ =~= seq!['s', 'c', 'a', 'l', 'a', 'r']);
    assert("avx2"@ =~= seq!['a', 'v', 'x', '2']);
    assert("_rs8_"@ =~= seq!['_', 'r', 's', '8', '_']);
}

/// Two weights share a kernel only if their instructions are the same and both or neither
/// is of each packed type; and no kernel multiplies with one row and with a panel.
pub proof fn law_packed_types_have_their_own_kernels(d: DTypeV, i: Isa, e: DTypeV, j: Isa)
    ensures
        gemv_name(d, i) == gemv_name(e, j) <==> i == j && (d is Q4_K <==> e is Q4_K) && (
        d is Q8_0 <==> e is Q8_0),
        gemm_name(d, i) == gemm_name(e, j) <==> gemv_name(d, i) == gemv_name(e, j),
        gemv_name(d, i) != gemm_name(e, j),
{
    lemma_letters();
    reveal_strlit("inferno_gemv_");
    reveal_strlit("inferno_gemm_");
    let a = gemv_name(d, i);
    let b = gemv_name(e, j);
    assert(a.len() > 16 && b.len() > 16);
    assert(a[11] == 'v' && gemm_name(e, j)[11] == 'm');
    assert(a[13] == (if d is Q4_K || d is Q8_0 {
        'q'
    } else {
        'f'
    }));
    assert(b[13] == (if e is Q4_K || e is Q8_0 {
        'q'
    } else {
        'f'
    }));
    assert(d is Q4_K ==> a[14] == '4');
    assert(e is Q4_K ==> b[14] == '4');
    assert(d is Q8_0 ==> a[14] == '8');
    assert(e is Q8_0 ==> b[14] == '8');
    assert(i is Scalar ==> a.last() == 'r');
    assert(i is Avx2 ==> a.last() == '2');
    assert(j is Scalar ==> b.last() == 'r');
    assert(j is Avx2 ==> b.last() == '2');
    let x = gemm_name(d, i);
    let y = gemm_name(e, j);
    assert(x[13] == a[13] && y[13] == b[13] && x[14] == a[14] && y[14] == b[14]);
    assert(x.last() == a.last() && y.last() == b.last());
}

/// The functions that emitted code may call: their names, and how many pointers and how many
/// counts they take.
pub proof fn law_declared_functions(i: int)
    requires
        0 <= i < 22,
    ensures
        kernel_table().len() == 22,
        kernel_table()[0].name == "inferno_gemv_f32_rs8_scalar"@,
        kernel_table()[1].name == "inferno_gemm_f32_rs8_scalar"@,
        kernel_table()[2].name == "inferno_gemv_f32_rs8_avx2"@,
        kernel_table()[3].name == "inferno_gemm_f32_rs8_avx2"@,
        kernel_table()[4].name == "inferno_gemv_q8_0_rs8_scalar"@,
        kernel_table()[5].name == "inferno_gemm_q8_0_rs8_scalar"@,
        kernel_table()[6].name == "inferno_gemv_q8_0_rs8_avx2"@,
        kernel_table()[7].name == "inferno_gemm_q8_0_rs8_avx2"@,
        kernel_table()[8].name == "inferno_gemv_q4_k_rs8_scalar"@,
        kernel_table()[9].name == "inferno_gemm_q4_k_rs8_scalar"@,
        kernel_table()[10].name == "inferno_gemv_q4_k_rs8_avx2"@,
        kernel_table()[11].name == "inferno_gemm_q4_k_rs8_avx2"@,
        kernel_table()[12].name == "inferno_quantize_row_q8a_scalar"@,
        kernel_table()[13].name == "inferno_quantize_row_q8a_avx2"@,
        kernel_table()[14].name == "inferno_quantize_row_q8k_scalar"@,
        kernel_table()[15].name == "inferno_quantize_row_q8k_avx2"@,
        kernel_table()[16].name == "inferno_attention_f32_scalar"@,
        kernel_table()[17].name == "inferno_attention_f32_avx2"@,
        kernel_table()[18].name == "inferno_par_gemv"@,
        kernel_table()[19].name == "inferno_par_gemm"@,
        kernel_table()[20].name == "inferno_par_attention"@,
        kernel_table()[21].name == "inferno_par_token_loop"@,
        ({
            let t = kernel_table()[i].params;
            let ptrs = if i < 12 {
                3int
            } else if i < 16 || i == 21 {
                2
            } else {
                4
            };
            let ints = if i < 12 {
                if i % 2 == 0 {
                    3int
                } else {
                    5
                }
            } else if i < 16 || i == 21 {
                1
            } else if i < 18 {
                7
            } else if i == 18 {
                2
            } else if i == 19 {
                3
            } else {
                10
            };
            &&& t.len() == ptrs + ints
            &&& forall|j: int| 0 <= j < t.len() ==> #[trigger] t[j] == (if j < ptrs {
                Ty::Ptr
            } else {
                Ty::I64
            })
        }),
{
    law_row_kernels_by_type(DTypeV::F32);
    law_row_kernels_by_type(DTypeV::Q8_0);
    law_row_kernels_by_type(DTypeV::Q4_K);
    law_panel_kernels_by_type(DTypeV::F32);
    law_panel_kernels_by_type(DTypeV::Q8_0);
    law_panel_kernels_by_type(DTypeV::Q4_K);
    law_other_kernels_by_name();
}

/// The steps of a product: the input is packed first, for the type of the weight, unless the
/// weight is plain; then the kernel of that type is called, on the weight that holds the
/// node's tensor, and its result is the node's; then the bias is added, if there is one.
pub proof fn law_a_product_calls_its_kernel(p: PlanV, g: GraphV, n: nat)
    requires
        n < g.nodes.len() < usize::MAX,
        p.weights.len() <= usize::MAX,
        g.nodes[n as int].op matches Op::MatMul { weight, .. } && weight_at(p.weights, weight.0, 0) is Some,
    ensures
        ({
            let node = g.nodes[n as int];
            let weight = node.op->MatMul_weight;
            let bias = node.op->MatMul_bias;
            let s = node_steps(p, g, n);
            exists|c: int, w: usize| #[trigger]
                product_call(p, s, c, w) && p.weights[w as int].tensor_index == weight.0
                    && s[c]->Gemv_out == n + 1 && (p.weights[w as int].dtype is F32 <==> c == 0) && (
                p.weights[w as int].dtype is F32 || s[0] == (StepV::Quantize {
                    dtype: p.weights[w as int].dtype,
                    src: node.inputs[0],
                    k: p.weights[w as int].k,
                })) && match bias {
                    Some(b) => s.len() == c + 2 && s[c + 1] == (StepV::Bias {
                        bias_tensor: b.0,
                        out: (n + 1) as usize,
                        rows: p.weights[w as int].rows,
                    }),
                    None => s.len() == c + 1,
                }
        }),
{
    let node = g.nodes[n as int];
    let weight = node.op->MatMul_weight;
    lemma_weight_at(p.weights, weight.0, 0);
    let w = weight_at(p.weights, weight.0, 0)->Some_0;
    let pw = p.weights[w as int];
    let s = node_steps(p, g, n);
    law_row_kernels_by_type(pw.dtype);
    let c = if pw.dtype is F32 {
        0int
    } else {
        1
    };
    assert(product_call(p, s, c, w));
}

/// Whether step `c` multiplies with weight `w`, by the kernel of its type and instructions.
pub open spec fn product_call(p: PlanV, s: Seq<StepV>, c: int, w: usize) -> bool {
    let pw = p.weights[w as int];
    &&& 0 <= c < s.len()
    &&& c <= 1
    &&& w < p.weights.len()
    &&& s[c] matches StepV::Gemv { symbol, weight, out: _, rows, k } && weight == w && rows
        == pw.rows && k == pw.k && symbol == match (pw.dtype, pw.isa) {
        (DTypeV::Q4_K, Isa::Scalar) => "inferno_gemv_q4_k_rs8_scalar"@,
        (DTypeV::Q4_K, Isa::Avx2) => "inferno_gemv_q4_k_rs8_avx2"@,
        (DTypeV::Q8_0, Isa::Scalar) => "inferno_gemv_q8_0_rs8_scalar"@,
        (DTypeV::Q8_0, Isa::Avx2) => "inferno_gemv_q8_0_rs8_avx2"@,
        (_, Isa::Scalar) => "inferno_gemv_f32_rs8_scalar"@,
        (_, Isa::Avx2) => "inferno_gemv_f32_rs8_avx2"@,
    }
}

/// The step of any other node takes what the node takes, in the same order, and gives the
/// node's value.
pub proof fn law_steps_keep_operands(p: PlanV, g: GraphV, n: nat)
    requires
        n < g.nodes.len() < usize::MAX,
    ensures
        ({
            let node = g.nodes[n as int];
            let s = node_steps(p, g, n);
            let v = n + 1;
            let a = node.inputs[0];
            let b = node.inputs[1];
            let c = node.inputs[2];
            &&& !(node.op is MatMul) ==> s.len() == 1
            &&& node.op matches Op::Embed { weight } ==> s[0] matches StepV::Embed { table, out }
                && table == weight.0 && out == v
            &&& node.op matches Op::RmsNorm { weight, eps, head_dim } ==> s[0] matches StepV::RmsNorm {
                src,
                weight: w,
                eps: e,
                out,
                head_dim: d,
            } && src == a && w == weight.0 && e == eps && out == v && match head_dim {
                None => d is None,
                Some(h) => d is Some && (h <= usize::MAX ==> d->0 == h),
            }
            &&& node.op matches Op::Rope { theta, style, n_heads, head_dim } ==> s[0] matches StepV::Rope {
                src,
                out,
                n_heads: h,
                head_dim: d,
                theta: t,
                style: y,
            } && src == a && out == v && t == theta && y == style && (n_heads <= usize::MAX ==> h
                == n_heads) && (head_dim <= usize::MAX ==> d == head_dim)
            &&& node.op matches Op::Attention { layer, n_heads, n_kv_heads, head_dim }
                ==> s[0] matches StepV::Attention {
                q,
                k,
                v: w,
                layer: l,
                n_heads: h,
                n_kv_heads: kh,
                head_dim: d,
                out,
            } && q == a && k == b && w == c && l == layer && out == v && (n_heads <= usize::MAX
                ==> h == n_heads) && (n_kv_heads <= usize::MAX ==> kh == n_kv_heads) && (head_dim
                <= usize::MAX ==> d == head_dim)
            &&& node.op is SwiGlu ==> (s[0] matches StepV::SwiGlu { gate, up, out } && gate == a
                && up == b && out == v)
            &&& node.op is Add ==> (s[0] matches StepV::Add { a: x, b: y, out } && x == a && y == b
                && out == v)
        }),
{
}

/// The steps of nodes stand in the order of the nodes.
pub proof fn law_steps_follow_the_nodes(p: PlanV, g: GraphV, a: nat, b: nat, c: nat)
    requires
        a <= b <= c,
    ensures
        nodes_steps(p, g, a, a).len() == 0,
        nodes_steps(p, g, a, a + 1) == node_steps(p, g, a),
        nodes_steps(p, g, a, c) == nodes_steps(p, g, a, b) + nodes_steps(p, g, b, c),
    decreases c,
{
    assert(nodes_steps(p, g, a, a + 1) =~= nodes_steps(p, g, a, a) + node_steps(p, g, a));
    assert(nodes_steps(p, g, a, a + 1) =~= node_steps(p, g, a));
    if b < c {
        let d = (c - 1) as nat;
        law_steps_follow_the_nodes(p, g, a, b, d);
        assert(nodes_steps(p, g, a, c) =~= nodes_steps(p, g, a, b) + nodes_steps(p, g, b, c));
    } else {
        assert(nodes_steps(p, g, a, c) =~= nodes_steps(p, g, a, b) + nodes_steps(p, g, b, c));
    }
}

/// Where row `r` of value `v` starts in the arena: behind the rows before it, from the slot
/// of its node on.
pub open spec fn row_place(p: PlanV, g: GraphV, v: usize, r: int) -> int {
    p.slots[v - 1] + r * row_len(g, v)
}

/// Whether a statement packs `k` numbers from place `from` of the arena on, to place `to` of
/// the scratch region.
pub open spec fn packs(s: Stmt, m: Machine, wide: bool, isa: Isa, from: int, to: int, k: int) -> bool {
    match s {
        Stmt::Call(Kernel::Pack { wide: w, isa: i, src, dst, k: n }) => w == wide && i == isa && n
            == k && int_of(src, m) == from && int_of(dst, m) == to,
        _ => false,
    }
}

/// Whether a statement multiplies a weight with a row and puts the result at place `to`. The
/// row stands at place `from`, or packed.
pub open spec fn multiplies_row(
    s: Stmt,
    m: Machine,
    weight: usize,
    from: Option<int>,
    to: int,
    k: int,
    rows: int,
) -> bool {
    match s {
        Stmt::Call(Kernel::Gemv { weight: w, y, x, k: n, rows: r }) => w == weight && n == k && r
            == rows && int_of(y, m) == to && match (x, from) {
            (Some(x), Some(f)) => int_of(x, m) == f,
            (None, None) => true,
            _ => false,
        },
        _ => false,
    }
}

/// Whether a statement multiplies a weight with `count` rows and puts the results at place
/// `to` and behind it. The rows stand at place `from` and behind it, or packed.
pub open spec fn multiplies_panel(
    s: Stmt,
    m: Machine,
    weight: usize,
    from: Option<int>,
    to: int,
    k: int,
    count: int,
    rows: int,
) -> bool {
    match s {
        Stmt::Call(Kernel::Gemm { weight: w, y, x, k: n, m: c, rows: r }) => w == weight && n == k
            && r == rows && int_of(c, m) == count && int_of(y, m) == to && match (x, from) {
            (Some(x), Some(f)) => int_of(x, m) == f,
            (None, None) => true,
            _ => false,
        },
        _ => false,
    }
}

/// The first statement of some.
pub open spec fn first(c: Code) -> Stmt
    recommends
        c is Then,
{
    match c {
        Code::Then(s, _) => *s,
        Code::End => arbitrary(),
    }
}

/// The statements behind the first.
pub open spec fn behind(c: Code) -> Code {
    match c {
        Code::Then(_, r) => *r,
        Code::End => Code::End,
    }
}

/// What the code of a product for one token hands to the kernels: its row of the node's
/// input, packed for the type of the weight unless that is plain, and where its row of the
/// result goes.
pub proof fn law_a_product_is_handed_its_rows(
    p: PlanV,
    g: GraphV,
    weight: usize,
    out: usize,
    rows: usize,
    k: usize,
    rest: Code,
    m: Machine,
)
    requires
        product_ok(p, g, weight, out),
    ensures
        ({
            let w = p.weights[weight as int];
            let x = row_place(p, g, g.nodes[out - 1].inputs[0], m.row);
            let y = row_place(p, g, out, m.row);
            let c = gemv_code(p, g, weight, out, rows, k, rest);
            if w.dtype is F32 {
                &&& c is Then
                &&& multiplies_row(first(c), m, weight, Some(x), y, k as int, rows as int)
                &&& behind(c) == rest
            } else {
                &&& c is Then
                &&& packs(first(c), m, w.dtype is Q4_K, w.isa, x, 0, k as int)
                &&& behind(c) is Then
                &&& multiplies_row(first(behind(c)), m, weight, None, y, k as int, rows as int)
                &&& behind(behind(c)) == rest
            }
        }),
{
    let src = g.nodes[out - 1].inputs[0];
    lemma_row_place(p, g, out, Int::Row, m);
    lemma_row_place(p, g, src, Int::Row, m);
    reveal_with_fuel(int_of, 4);
}

/// The value of a place.
proof fn lemma_row_place(p: PlanV, g: GraphV, v: usize, row: Int, m: Machine)
    requires
        placed(p, g, v),
    ensures
        int_of(row_at(p, g, v, row), m) == row_place(p, g, v, int_of(row, m)),
{
    let n = g.nodes[v - 1].out_shape.len();
    assert(crate::codegen::lower::fixed_dims(g.nodes[v - 1].out_shape, n) <= u64::MAX);
    reveal_with_fuel(int_of, 3);
}

/// What the code of a product for a tile hands to the kernels: as many rows as a tile has, or
/// as are left, from the first row of the tile on.
pub proof fn law_a_panel_is_handed_its_rows(
    p: PlanV,
    g: GraphV,
    weight: usize,
    out: usize,
    rows: usize,
    k: usize,
    rest: Code,
    m: Machine,
)
    requires
        product_ok(p, g, weight, out),
    ensures
        ({
            let w = p.weights[weight as int];
            let src = g.nodes[out - 1].inputs[0];
            let at = m.vars[TILE];
            let left = m.args[0] - at;
            let n = if p.prefill_tile < left {
                p.prefill_tile as int
            } else {
                left
            };
            let x = row_place(p, g, src, at);
            let y = row_place(p, g, out, at);
            let c = gemm_code(p, g, weight, out, rows, k, rest);
            if w.dtype is F32 {
                &&& c is Then
                &&& multiplies_panel(first(c), m, weight, Some(x), y, k as int, n, rows as int)
                &&& behind(c) == rest
            } else {
                &&& c is Then
                &&& match first(c) {
                    Stmt::Loop { var, from, to, step, body } => {
                        &&& var == 0
                        &&& int_of(from, m) == 0
                        &&& int_of(to, m) == n
                        &&& step == 1
                        &&& *body is Then
                        &&& packs(
                            first(*body),
                            m,
                            w.dtype is Q4_K,
                            w.isa,
                            row_place(p, g, src, at + m.vars[0]),
                            m.vars[0] * w.act_row,
                            k as int,
                        )
                        &&& behind(*body) is End
                    },
                    _ => false,
                }
                &&& behind(c) is Then
                &&& multiplies_panel(
                    first(behind(c)),
                    m,
                    weight,
                    None,
                    y,
                    k as int,
                    n,
                    rows as int,
                )
                &&& behind(behind(c)) == rest
            }
        }),
{
    let src = g.nodes[out - 1].inputs[0];
    reveal_with_fuel(int_of, 5);
    lemma_row_place(p, g, out, tile_first(), m);
    lemma_row_place(p, g, src, tile_first(), m);
    lemma_row_place(p, g, src, plus(tile_first(), Int::Var(0)), m);
}

/// What the code of attention for one token does: its keys and values go to the end of the
/// layer's part of the cache, keys before values, and its queries are handed to the kernel
/// with the place of that part.
pub proof fn law_attention_is_handed_its_layer(
    p: PlanV,
    g: GraphV,
    q: usize,
    k: usize,
    v: usize,
    layer: usize,
    n_heads: usize,
    n_kv_heads: usize,
    head_dim: usize,
    out: usize,
    rest: Code,
    m: Machine,
)
    requires
        placed(p, g, q),
        placed(p, g, out),
        cache_counts(p, layer),
    ensures
        ({
            let st = StepV::Attention { q, k, v, layer, n_heads, n_kv_heads, head_dim, out };
            let c = attention_code(p, g, st, rest);
            &&& c is Then
            &&& first(c) == append_stmt(p, g, k, v, layer)
            &&& behind(c) is Then
            &&& behind(behind(c)) == rest
            &&& match first(behind(c)) {
                Stmt::Call(
                    Kernel::Attention {
                        isa,
                        out: o,
                        q: x,
                        kv_base,
                        v_off,
                        kv_dim,
                        n_heads: h,
                        n_kv_heads: kh,
                        head_dim: d,
                    },
                ) => {
                    &&& isa == isa_of(p)
                    &&& int_of(o, m) == row_place(p, g, out, m.row)
                    &&& int_of(x, m) == row_place(p, g, q, m.row)
                    &&& kv_base == 2 * layer * (p.max_seq_len * p.kv_dim)
                    &&& v_off == p.max_seq_len * p.kv_dim
                    &&& kv_dim == p.kv_dim
                    &&& h == n_heads
                    &&& kh == n_kv_heads
                    &&& d == head_dim
                },
                _ => false,
            }
            &&& match tile_attention_stmt(p, g, st) {
                Stmt::Call(
                    Kernel::ParAttention {
                        isa,
                        out: o,
                        q: x,
                        pos,
                        m: count,
                        kv_base,
                        v_off,
                        kv_dim,
                        n_heads: h,
                        n_kv_heads: kh,
                        head_dim: d,
                        q_stride,
                        out_stride,
                    },
                ) => {
                    let left = m.args[0] - m.vars[TILE];
                    &&& isa == isa_of(p)
                    &&& int_of(o, m) == row_place(p, g, out, m.vars[TILE])
                    &&& int_of(x, m) == row_place(p, g, q, m.vars[TILE])
                    &&& int_of(pos, m) == m.args[1] + m.vars[TILE]
                    &&& int_of(count, m) == (if p.prefill_tile < left {
                        p.prefill_tile as int
                    } else {
                        left
                    })
                    &&& kv_base == 2 * layer * (p.max_seq_len * p.kv_dim)
                    &&& v_off == p.max_seq_len * p.kv_dim
                    &&& kv_dim == p.kv_dim
                    &&& h == n_heads
                    &&& kh == n_kv_heads
                    &&& d == head_dim
                    &&& q_stride == row_len(g, q)
                    &&& out_stride == row_len(g, out)
                },
                _ => false,
            }
        }),
{
    lemma_row_place(p, g, out, Int::Row, m);
    lemma_row_place(p, g, q, Int::Row, m);
    lemma_row_place(p, g, out, tile_first(), m);
    lemma_row_place(p, g, q, tile_first(), m);
    let a = g.nodes[q - 1].out_shape.len();
    let b = g.nodes[out - 1].out_shape.len();
    assert(crate::codegen::lower::fixed_dims(g.nodes[q - 1].out_shape, a) <= u64::MAX);
    assert(crate::codegen::lower::fixed_dims(g.nodes[out - 1].out_shape, b) <= u64::MAX);
    reveal_with_fuel(int_of, 5);
    let s = p.max_seq_len as int;
    let d = p.kv_dim as int;
    assert(layer * s * d * 2 == 2 * layer * (s * d)) by (nonlinear_arith);
    assert(0 <= s * d) by (nonlinear_arith)
        requires
            0 <= s,
            0 <= d,
    ;
    assert(0 <= layer * s * d * 2) by (nonlinear_arith)
        requires
            0 <= s,
            0 <= d,
            0 <= layer,
    ;
}

/// What is written beside the code is the model's: its sizes and those of the plan, and the
/// names of the two entry points.
pub proof fn law_description_beside_the_code(
    d: ModelV,
    p: PlanV,
    opts: CompileOptions,
    slots: Seq<Seq<char>>,
)
    requires
        d.hyperparams.vocab_size <= usize::MAX,
        d.hyperparams.n_layers <= usize::MAX,
        p.total_f32 + (p.act_scratch_bytes + 3) / 4 <= usize::MAX,
    ensures
        ({
            let t = meta_of(d, p, opts, slots);
            &&& t.vocab == d.hyperparams.vocab_size
            &&& t.n_layers == d.hyperparams.n_layers
            &&& p.act_scratch_bytes <= 4 * (t.arena_f32 - p.total_f32) < p.act_scratch_bytes + 4
            &&& t.kv_total_bytes == p.kv_total_bytes
            &&& t.max_seq_len == p.max_seq_len
            &&& t.prefill_tile == opts.prefill_tile
            &&& t.entry_prefill == "prefill"@
            &&& t.entry_decode == "decode_step"@
            &&& t.inferno_version == "0.1.0"@
            &&& t.profile_slots == slots
        }),
{
}

} // verus!
