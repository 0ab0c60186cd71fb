//! What the planner decides, as plain values: where weights, values and cached rows
//! stand, and which nodes form an island.

use vstd::prelude::*;

use crate::formats::desc::{DType, DTypeV};

verus! {

/// The instructions that kernels are written in.
#[derive(Debug, Clone, Copy, PartialEq, Eq, Structural)]
pub enum Isa {
    Scalar,
    Avx2,
}

/// A weight in the packed image.
#[derive(Debug, PartialEq, Eq)]
pub struct PackedWeight {
    pub tensor_index: usize,
    /// The type that it is stored in; half-precision weights are stored widened.
    pub dtype: DType,
    pub rows: usize,
    pub k: usize,
    pub isa: Isa,
    /// Where it starts in the image, and how long it is, in bytes.
    pub offset: usize,
    pub len: usize,
    /// How many bytes a packed row takes that is multiplied with it.
    pub act_row: usize,
}

/// The model of a [`PackedWeight`].
#[verifier::ext_equal]
pub struct PackedV {
    pub tensor_index: usize,
    pub dtype: DTypeV,
    pub rows: usize,
    pub k: usize,
    pub isa: Isa,
    pub offset: usize,
    pub len: usize,
    pub act_row: usize,
}

impl View for PackedWeight {
    type V = PackedV;

    open spec fn view(&self) -> PackedV {
        PackedV {
            tensor_index: self.tensor_index,
            dtype: self.dtype@,
            rows: self.rows,
            k: self.k,
            isa: self.isa,
            offset: self.offset,
            len: self.len,
            act_row: self.act_row,
        }
    }
}

/// Nodes that are run together: those from `first` up to `end`, which is not one of
/// them.
#[derive(Debug, PartialEq, Eq)]
pub struct Island {
    pub kind: String,
    pub first: usize,
    pub end: usize,
}

/// The model of an [`Island`].
#[verifier::ext_equal]
pub struct IslandV {
    pub kind: Seq<char>,
    pub first: usize,
    pub end: usize,
}

impl View for Island {
    type V = IslandV;

    open spec fn view(&self) -> IslandV {
        IslandV { kind: self.kind@, first: self.first, end: self.end }
    }
}

/// A planned model.
#[derive(Debug, PartialEq, Eq)]
pub struct Plan {
    pub weights: Vec<PackedWeight>,
    pub islands: Vec<Island>,
    /// Where the value of each node starts in the arena, in numbers.
    pub slots: Vec<usize>,
    /// How many numbers the values take.
    pub total_f32: usize,
    /// Where the packed activations start in the arena, in bytes, and how many
    /// bytes they take.
    pub act_scratch_off: usize,
    pub act_scratch_bytes: usize,
    /// How many numbers a cached row has.
    pub kv_dim: usize,
    pub kv_total_bytes: usize,
    pub max_seq_len: usize,
    pub prefill_tile: usize,
}

/// The model of a [`Plan`].
#[verifier::ext_equal]
pub struct PlanV {
    pub weights: Seq<PackedV>,
    pub islands: Seq<IslandV>,
    pub slots: Seq<usize>,
    pub total_f32: usize,
    pub act_scratch_off: usize,
    pub act_scratch_bytes: usize,
    pub kv_dim: usize,
    pub kv_total_bytes: usize,
    pub max_seq_len: usize,
    pub prefill_tile: usize,
}

/// The models of a list of weights.
pub open spec fn weights_view(s: Seq<PackedWeight>) -> Seq<PackedV> {
    s.map_values(|w: PackedWeight| w@)
}

/// The models of a list of islands.
pub open spec fn islands_view(s: Seq<Island>) -> Seq<IslandV> {
    s.map_values(|i: Island| i@)
}

impl View for Plan {
    type V = PlanV;

    open spec fn view(&self) -> PlanV {
        PlanV {
            weights: weights_view(self.weights@),
            islands: islands_view(self.islands@),
            slots: self.slots@,
            total_f32: self.total_f32,
            act_scratch_off: self.act_scratch_off,
            act_scratch_bytes: self.act_scratch_bytes,
            kv_dim: self.kv_dim,
            kv_total_bytes: self.kv_total_bytes,
            max_seq_len: self.max_seq_len,
            prefill_tile: self.prefill_tile,
        }
    }
}

/// The first of the weights from `k` on that holds tensor `t`.
pub open spec fn weight_at(ws: Seq<PackedV>, t: usize, k: nat) -> Option<usize>
    decreases ws.len() - k,
{
    if k >= ws.len() {
        None
    } else if ws[k as int].tensor_index == t {
        Some(k as usize)
    } else {
        weight_at(ws, t, k + 1)
    }
}

/// A weight that is found holds the tensor.
pub proof fn lemma_weight_at(ws: Seq<PackedV>, t: usize, k: nat)
    requires
        weight_at(ws, t, k) is Some,
        ws.len() <= usize::MAX,
    ensures
        weight_at(ws, t, k)->Some_0 < ws.len(),
        ws[weight_at(ws, t, k)->Some_0 as int].tensor_index == t,
    decreases ws.len() - k,
{
    if ws[k as int].tensor_index != t {
        lemma_weight_at(ws, t, k + 1);
    }
}

/// The place of the weight that holds tensor `t`.
pub fn find_weight(plan: &Plan, t: usize) -> (r: Option<usize>)
    ensures
        r == weight_at(plan@.weights, t, 0),
        r matches Some(i) ==> i < plan@.weights.len() && plan@.weights[i as int].tensor_index == t,
{
    let ghost ws = plan@.weights;
    let mut i: usize = 0;
    while i < plan.weights.len()
        invariant
            i <= plan.weights@.len(),
            ws == plan@.weights,
            weight_at(ws, t, 0) == weight_at(ws, t, i as nat),
        decreases plan.weights.len() - i,
    {
        assert(ws[i as int] == plan.weights@[i as int]@);
        if plan.weights[i].tensor_index == t {
            return Some(i);
        }
        i += 1;
    }
    None
}

/// The instructions of the module: those of the first weight, if there is one.
pub open spec fn isa_of(p: PlanV) -> Isa {
    if p.weights.len() > 0 {
        p.weights[0].isa
    } else {
        Isa::Scalar
    }
}

/// The instructions of the module: all weights carry the same.
pub fn module_isa(plan: &Plan) -> (r: Isa)
    ensures
        r == isa_of(plan@),
{
    if plan.weights.len() > 0 {
        assert(plan@.weights[0] == plan.weights@[0]@);
        plan.weights[0].isa
    } else {
        Isa::Scalar
    }
}

} // verus!
