//! The emitted program of a planned model: its steps, the slots that they are timed
//! in, and the code of the two entry points.

use vstd::prelude::*;

use crate::codegen::code::{Buf, Code, Machine, Units};
use crate::codegen::emit::CompileOptions;
use crate::codegen::loopir::{arity, build_loopir, planned, program, LoopIr, Step};
use crate::codegen::lower::{
    cache_counts, decode_code, fixed_dims, layer_base, lower_decode, lower_prefill, lowerable,
    placed, prefill_code, region, row_size, step_ok,
};
use crate::codegen::meaning::freqs_ok;
use crate::codegen::plan::{find_weight, Plan, PlanV};
use crate::codegen::profile::{
    assign_slots, island_labels, labelled, law_every_step_has_a_slot, ProfileSlots,
};
use crate::float::single::{f32_div, f32_mul, f32_of_count, of_int, product, quotient};
use crate::formats::desc::{ModelDesc, ModelV};
use crate::graph::ir::{Dim, Graph, GraphV, Op};
use crate::graph::ops::{Math, MathV, MINUS_TWO};

verus! {

/// Whether code can be emitted for a plan of a graph: the plan is one of the graph,
/// and every step of it finds the values, weights and cached rows that it names.
pub open spec fn sound(p: PlanV, g: GraphV, m: ModelV) -> bool {
    &&& planned(p, g)
    &&& placed(p, g, g.output)
    &&& forall|i: int, j: int|
        0 <= i < program(p, g).len() && 0 <= j < program(p, g)[i].steps.len() ==> lowerable(
            p,
            g,
            #[trigger] program(p, g)[i].steps[j],
        ) && labelled(program(p, g)[i].steps[j], p, m)
}

/// Whether node `n` takes the values that it needs, and its weight is packed.
pub open spec fn node_planned(p: PlanV, g: GraphV, n: int) -> bool {
    &&& g.nodes[n].inputs.len() >= arity(g.nodes[n].op)
    &&& g.nodes[n].op matches Op::MatMul { weight, .. } ==> crate::codegen::plan::weight_at(
        p.weights,
        weight.0,
        0,
    ) is Some
}

fn check_node(plan: &Plan, graph: &Graph, n: usize) -> (r: bool)
    requires
        n < graph@.nodes.len(),
    ensures
        r == node_planned(plan@, graph@, n as int),
{
    let node = &graph.nodes[n];
    proof {
        assert(graph@.nodes[n as int] == node@);
    }
    let takes: usize = node.inputs.len();
    match node.op {
        Op::Embed { .. } => true,
        Op::MatMul { weight, .. } => takes >= 1 && find_weight(plan, weight.0).is_some(),
        Op::RmsNorm { .. } | Op::Rope { .. } => takes >= 1,
        Op::SwiGlu | Op::Add => takes >= 2,
        Op::Attention { .. } => takes >= 3,
    }
}

/// Whether a plan is one of a graph.
fn check_planned(plan: &Plan, graph: &Graph) -> (r: bool)
    ensures
        r == planned(plan@, graph@),
{
    let ghost p = plan@;
    let ghost g = graph@;
    let total: usize = graph.nodes.len();
    let mut i: usize = 0;
    while i < plan.islands.len()
        invariant
            i <= plan.islands@.len(),
            p == plan@,
            g == graph@,
            total == g.nodes.len(),
            forall|k: int| 0 <= k < i ==> (#[trigger] p.islands[k]).end <= g.nodes.len(),
        decreases plan.islands.len() - i,
    {
        proof {
            assert(p.islands[i as int] == plan.islands@[i as int]@);
        }
        if plan.islands[i].end > total {
            return false;
        }
        i = i + 1;
    }
    let mut n: usize = 0;
    while n < total
        invariant
            n <= total == g.nodes.len(),
            p == plan@,
            g == graph@,
            forall|k: int| 0 <= k < n ==> node_planned(p, g, k),
            forall|k: int|
                0 <= k < p.islands.len() ==> (#[trigger] p.islands[k]).end <= g.nodes.len(),
        decreases total - n,
    {
        if !check_node(plan, graph, n) {
            proof {
                assert(!node_planned(p, g, n as int));
                let node = g.nodes[n as int];
                assert(!(node.inputs.len() >= arity(node.op) && (node.op matches Op::MatMul {
                    weight,
                    ..
                } ==> crate::codegen::plan::weight_at(p.weights, weight.0, 0) is Some)));
            }
            return false;
        }
        n = n + 1;
    }
    proof {
        assert forall|k: int| 0 <= k < g.nodes.len() implies {
            &&& (#[trigger] g.nodes[k]).inputs.len() >= arity(g.nodes[k].op)
            &&& g.nodes[k].op matches Op::MatMul { weight, .. }
                ==> crate::codegen::plan::weight_at(p.weights, weight.0, 0) is Some
        } by {
            assert(node_planned(p, g, k));
        }
    }
    true
}

/// Whether value `v` is that of a node with rows of a size, for which the plan has a
/// place.
fn check_placed(plan: &Plan, graph: &Graph, v: usize) -> (r: bool)
    ensures
        r == placed(plan@, graph@, v),
{
    let nodes: usize = graph.nodes.len();
    if v == 0 || v > nodes || v > plan.slots.len() {
        return false;
    }
    let node = &graph.nodes[v - 1];
    let ghost s = graph@.nodes[v - 1].out_shape;
    proof {
        assert(graph@.nodes[v - 1] == node@);
    }
    let dims = &node.out_shape.0;
    let mut n: u64 = 1;
    let mut k: usize = 0;
    while k < dims.len()
        invariant
            k <= dims@.len(),
            s == dims@,
            s == graph@.nodes[v - 1].out_shape,
            n == fixed_dims(s, k as nat),
            forall|i: nat| i <= k ==> #[trigger] fixed_dims(s, i) <= u64::MAX,
        decreases dims.len() - k,
    {
        let ghost before = n;
        match dims[k] {
            Dim::Const(c) => {
                match n.checked_mul(c) {
                    Some(x) => {
                        n = x;
                    },
                    None => {
                        proof {
                            assert(fixed_dims(s, (k + 1) as nat) == n * c);
                        }
                        return false;
                    },
                }
            },
            Dim::SeqLen => {},
        }
        proof {
            assert(n == fixed_dims(s, (k + 1) as nat));
            assert forall|i: nat| i <= k + 1 implies #[trigger] fixed_dims(s, i) <= u64::MAX by {
                if i <= k {
                } else {
                    assert(i == k + 1);
                }
            }
        }
        k = k + 1;
    }
    true
}

/// Whether places in the cache can be counted.
fn check_cache(plan: &Plan, layer: usize) -> (r: bool)
    ensures
        r == cache_counts(plan@, layer),
{
    let ghost l = layer as int;
    let ghost s = plan.max_seq_len as int;
    let ghost d = plan.kv_dim as int;
    proof {
        assert(l * s * d * 2 == 2 * (s * d * l)) by (nonlinear_arith);
        assert(0 <= s * d && 0 <= s * d * l) by (nonlinear_arith)
            requires
                s >= 0,
                d >= 0,
                l >= 0,
        ;
        assert(layer_base(plan@, layer) == 2 * (s * d * l));
        assert(region(plan@) == s * d);
    }
    let keys: u64 = match (plan.max_seq_len as u64).checked_mul(plan.kv_dim as u64) {
        Some(x) => x,
        None => return false,
    };
    let half: u64 = match keys.checked_mul(layer as u64) {
        Some(x) => x,
        None => return false,
    };
    2 * (half as u128) + keys as u128 <= u64::MAX as u128
}

/// Whether the code of a step can be emitted, and it has a label.
fn check_step(plan: &Plan, graph: &Graph, desc: &ModelDesc, step: &Step) -> (r: bool)
    ensures
        r == (lowerable(plan@, graph@, step@) && labelled(step@, plan@, desc@)),
{
    match step {
        Step::Embed { table: _, out } => check_placed(plan, graph, *out),
        Step::Quantize { .. } => true,
        Step::Gemv { symbol: _, weight, out, rows: _, k: _ } => {
            let weights: usize = plan.weights.len();
            if *weight >= weights {
                return false;
            }
            proof {
                assert(plan@.weights[*weight as int] == plan.weights@[*weight as int]@);
            }
            if plan.weights[*weight].tensor_index >= desc.tensors.len() {
                return false;
            }
            if !check_placed(plan, graph, *out) {
                return false;
            }
            let node = &graph.nodes[*out - 1];
            proof {
                assert(graph@.nodes[*out - 1] == node@);
            }
            node.inputs.len() >= 1 && check_placed(plan, graph, node.inputs[0])
        },
        Step::Bias { bias_tensor: _, out, rows: _ } => check_placed(plan, graph, *out),
        Step::RmsNorm { src, weight: _, eps: _, out, head_dim } => {
            if !check_placed(plan, graph, *src) || !check_placed(plan, graph, *out) {
                return false;
            }
            let unit: u64 = match head_dim {
                Some(d) => *d as u64,
                None => row_size(plan, graph, *src),
            };
            unit > 0
        },
        Step::Rope { src, out, n_heads, head_dim, theta: _, style: _ } => check_placed(
            plan,
            graph,
            *src,
        ) && check_placed(plan, graph, *out) && (*n_heads as u64).checked_mul(
            *head_dim as u64,
        ).is_some(),
        Step::Attention { q, k, v, layer, n_heads: _, n_kv_heads: _, head_dim: _, out } => {
            check_placed(plan, graph, *q) && check_placed(plan, graph, *k) && check_placed(
                plan,
                graph,
                *v,
            ) && check_placed(plan, graph, *out) && check_cache(plan, *layer)
        },
        Step::SwiGlu { gate, up, out } => check_placed(plan, graph, *gate) && check_placed(
            plan,
            graph,
            *up,
        ) && check_placed(plan, graph, *out),
        Step::Add { a, b, out } => check_placed(plan, graph, *a) && check_placed(plan, graph, *b)
            && check_placed(plan, graph, *out),
    }
}

/// Whether code can be emitted for a plan of a graph.
pub fn is_sound(plan: &Plan, graph: &Graph, desc: &ModelDesc) -> (r: bool)
    ensures
        r == sound(plan@, graph@, desc@),
{
    let ghost p = plan@;
    let ghost g = graph@;
    let ghost m = desc@;
    if !check_planned(plan, graph) || !check_placed(plan, graph, graph.output) {
        return false;
    }
    let loopir = build_loopir(plan, graph);
    let ghost c = loopir@;
    let mut i: usize = 0;
    while i < loopir.islands.len()
        invariant
            i <= loopir.islands@.len(),
            p == plan@,
            g == graph@,
            m == desc@,
            c == loopir@,
            c == program(p, g),
            planned(p, g),
            placed(p, g, g.output),
            forall|a: int, b: int|
                0 <= a < i && 0 <= b < c[a].steps.len() ==> lowerable(
                    p,
                    g,
                    #[trigger] c[a].steps[b],
                ) && labelled(c[a].steps[b], p, m),
        decreases loopir.islands.len() - i,
    {
        let island = &loopir.islands[i];
        proof {
            assert(c[i as int] == island@);
        }
        let mut j: usize = 0;
        while j < island.steps.len()
            invariant
                j <= island.steps@.len(),
                i < c.len(),
                c[i as int] == island@,
                p == plan@,
                g == graph@,
                m == desc@,
                c == program(p, g),
                forall|b: int|
                    0 <= b < j ==> lowerable(p, g, #[trigger] c[i as int].steps[b]) && labelled(
                        c[i as int].steps[b],
                        p,
                        m,
                    ),
            decreases island.steps.len() - j,
        {
            proof {
                assert(c[i as int].steps[j as int] == island.steps@[j as int]@);
            }
            if !check_step(plan, graph, desc, &island.steps[j]) {
                return false;
            }
            j = j + 1;
        }
        i = i + 1;
    }
    true
}

/// An emitted program.
#[derive(Debug)]
pub struct Program {
    pub loopir: LoopIr,
    /// The slots that steps are timed in; none if they are not.
    pub slots: ProfileSlots,
    pub prefill: Code,
    pub decode: Code,
}

/// The labels that the steps of a model are timed under.
pub open spec fn timed_labels(p: PlanV, g: GraphV, m: ModelV) -> Seq<Seq<char>> {
    island_labels(program(p, g), p, m, program(p, g).len())
}

/// What [`build_full_module`] gives.
pub open spec fn is_program(
    x: Program,
    p: PlanV,
    g: GraphV,
    m: ModelV,
    opts: CompileOptions,
) -> bool {
    let labels = timed_labels(p, g, m);
    let slots = if opts.profile {
        Some(labels)
    } else {
        None
    };
    &&& x.loopir@ == program(p, g)
    &&& x.slots@ == if opts.profile {
        labels
    } else {
        Seq::<Seq<char>>::empty()
    }
    &&& x.prefill == prefill_code(p, g, m, slots, program(p, g))
    &&& x.decode == decode_code(p, g, m, slots, program(p, g))
}

/// Emits the program of a planned model.
pub fn build_full_module(
    plan: &Plan,
    graph: &Graph,
    desc: &ModelDesc,
    opts: &CompileOptions,
) -> (r: Program)
    requires
        sound(plan@, graph@, desc@),
    ensures
        is_program(r, plan@, graph@, desc@, *opts),
{
    let ghost p = plan@;
    let ghost g = graph@;
    let ghost m = desc@;
    let loopir = build_loopir(plan, graph);
    let ghost c = loopir@;
    if opts.profile {
        let slots = assign_slots(&loopir, plan, desc);
        proof {
            assert(slots@.len() == slots.labels.len());
            assert forall|i: int, j: int|
                0 <= i < c.len() && 0 <= j < c[i].steps.len() implies step_ok(
                p,
                g,
                m,
                Some(slots@),
                #[trigger] c[i].steps[j],
            ) by {
                law_every_step_has_a_slot(c, p, m, i, j);
                assert(program(p, g)[i].steps[j] == c[i].steps[j]);
            }
        }
        let prefill = lower_prefill(plan, graph, desc, &loopir, Some(&slots));
        let decode = lower_decode(plan, graph, desc, &loopir, Some(&slots));
        Program { loopir, slots, prefill, decode }
    } else {
        let prefill = lower_prefill(plan, graph, desc, &loopir, None);
        let decode = lower_decode(plan, graph, desc, &loopir, None);
        Program { loopir, slots: ProfileSlots::new(), prefill, decode }
    }
}

/// The frequency of pair `i` of a rotation.
pub open spec fn frequency(m: MathV, theta: u32, head_dim: int, i: int) -> u32 {
    (m.pow)(theta, quotient(product(MINUS_TWO, of_int(i)), of_int(head_dim)))
}

/// The frequencies of a rotation, as the code that turns heads finds them.
pub fn rope_freq_table<
    Q: Fn(u32) -> u32,
    E: Fn(u32) -> u32,
    P: Fn(u32, u32) -> u32,
    T: Fn(u32) -> (u32, u32),
>(theta: u32, head_dim: usize, math: &Math<Q, E, P, T>) -> (r: Vec<u32>)
    requires
        math.lawful(),
    ensures
        r@ == Seq::new(
            (head_dim / 2) as nat,
            |i: int| frequency(math.model(), theta, head_dim as int, i),
        ),
{
    let mut r: Vec<u32> = Vec::new();
    let n: u32 = f32_of_count(head_dim as u64);
    let mut i: usize = 0;
    while i < head_dim / 2
        invariant
            math.lawful(),
            i <= head_dim / 2,
            n == of_int(head_dim as int),
            r@ == Seq::new(
                i as nat,
                |k: int| frequency(math.model(), theta, head_dim as int, k),
            ),
        decreases head_dim / 2 - i,
    {
        let e: u32 = f32_div(f32_mul(MINUS_TWO, f32_of_count(i as u64)), n);
        r.push(math.power(theta, e));
        proof {
            assert(r@ =~= Seq::new(
                (i + 1) as nat,
                |k: int| frequency(math.model(), theta, head_dim as int, k),
            ));
        }
        i = i + 1;
    }
    r
}

/// A machine that holds the table has the frequencies that the code of a rotation
/// relies on.
pub proof fn law_freq_table_fits(m: Machine, u: Units, theta: u32, head_dim: usize)
    requires
        m.mem[Buf::Freqs(theta, head_dim)] == Seq::new(
            (head_dim / 2) as nat,
            |i: int| frequency(u.math, theta, head_dim as int, i),
        ),
    ensures
        freqs_ok(m, u, theta, head_dim),
{
}

} // verus!
