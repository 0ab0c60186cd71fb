//! What a compiled model is and what stands beside it: the options that shape it, and
//! the description that is written next to its code and weights.

use vstd::prelude::*;
use vstd::string::StringExecFns;

use crate::codegen::plan::{Plan, PlanV};
use crate::formats::desc::{ModelDesc, ModelV};
use crate::text::strings_view;

verus! {

/// The version of the symbols that emitted code calls.
pub const HOST_ABI_VERSION: &'static str = "8";

/// How many tokens a batched pass takes, unless something else is asked for.
pub const PREFILL_TILE: usize = 64;

/// The version of this program.
pub const INFERNO_VERSION: &'static str = "0.1.0";

/// The options that change the code of a model.
#[derive(Debug, Clone, Copy, PartialEq, Eq, Structural)]
pub struct CompileOptions {
    /// Count the cycles of every step.
    pub profile: bool,
    /// How many tokens a batched pass takes.
    pub prefill_tile: usize,
}

impl Default for CompileOptions {
    fn default() -> (r: CompileOptions)
        ensures
            r == (CompileOptions { profile: false, prefill_tile: PREFILL_TILE }),
    {
        CompileOptions { profile: false, prefill_tile: PREFILL_TILE }
    }
}

/// What is written beside the code: hashes, sizes, and the names of the entry
/// points.
#[derive(Debug, PartialEq, Eq)]
pub struct Meta {
    pub model_hash: String,
    pub target_hash: String,
    pub weights_hash: String,
    pub inferno_version: String,
    pub vocab: usize,
    pub n_layers: usize,
    pub arena_f32: usize,
    pub kv_total_bytes: usize,
    pub max_seq_len: usize,
    pub entry_prefill: String,
    pub entry_decode: String,
    pub prefill_tile: usize,
    /// The labels of the profiler slots; none if the code does not count.
    pub profile_slots: Vec<String>,
}

/// The model of a [`Meta`].
#[verifier::ext_equal]
pub struct MetaV {
    pub model_hash: Seq<char>,
    pub target_hash: Seq<char>,
    pub weights_hash: Seq<char>,
    pub inferno_version: Seq<char>,
    pub vocab: usize,
    pub n_layers: usize,
    pub arena_f32: usize,
    pub kv_total_bytes: usize,
    pub max_seq_len: usize,
    pub entry_prefill: Seq<char>,
    pub entry_decode: Seq<char>,
    pub prefill_tile: usize,
    pub profile_slots: Seq<Seq<char>>,
}

impl View for Meta {
    type V = MetaV;

    open spec fn view(&self) -> MetaV {
        MetaV {
            model_hash: self.model_hash@,
            target_hash: self.target_hash@,
            weights_hash: self.weights_hash@,
            inferno_version: self.inferno_version@,
            vocab: self.vocab,
            n_layers: self.n_layers,
            arena_f32: self.arena_f32,
            kv_total_bytes: self.kv_total_bytes,
            max_seq_len: self.max_seq_len,
            entry_prefill: self.entry_prefill@,
            entry_decode: self.entry_decode@,
            prefill_tile: self.prefill_tile,
            profile_slots: strings_view(self.profile_slots@),
        }
    }
}

/// How many numbers the arena has: those of the values, and behind them enough for
/// the packed activations.
pub open spec fn arena_len(p: PlanV) -> int {
    p.total_f32 + (p.act_scratch_bytes + 3) / 4
}

/// The description of a model before its hashes are known.
pub open spec fn meta_of(
    m: ModelV,
    p: PlanV,
    opts: CompileOptions,
    slots: Seq<Seq<char>>,
) -> MetaV {
    MetaV {
        model_hash: Seq::empty(),
        target_hash: Seq::empty(),
        weights_hash: Seq::empty(),
        inferno_version: INFERNO_VERSION@,
        vocab: m.hyperparams.vocab_size as usize,
        n_layers: m.hyperparams.n_layers as usize,
        arena_f32: arena_len(p) as usize,
        kv_total_bytes: p.kv_total_bytes,
        max_seq_len: p.max_seq_len,
        entry_prefill: "prefill"@,
        entry_decode: "decode_step"@,
        prefill_tile: opts.prefill_tile,
        profile_slots: slots,
    }
}

/// The description of a model. The hashes are left empty for the one who has the
/// bytes.
pub fn build_meta(
    desc: &ModelDesc,
    plan: &Plan,
    opts: &CompileOptions,
    profile_slots: Vec<String>,
) -> (r: Meta)
    requires
        arena_len(plan@) <= usize::MAX,
    ensures
        r@ == meta_of(desc@, plan@, *opts, strings_view(profile_slots@)),
{
    let whole: usize = plan.act_scratch_bytes / 4;
    let scratch: usize = if plan.act_scratch_bytes % 4 == 0 {
        whole
    } else {
        whole + 1
    };
    let r = Meta {
        model_hash: String::new(),
        target_hash: String::new(),
        weights_hash: String::new(),
        inferno_version: INFERNO_VERSION.to_owned(),
        vocab: desc.hyperparams.vocab_size as usize,
        n_layers: desc.hyperparams.n_layers as usize,
        arena_f32: plan.total_f32 + scratch,
        kv_total_bytes: plan.kv_total_bytes,
        max_seq_len: plan.max_seq_len,
        entry_prefill: "prefill".to_owned(),
        entry_decode: "decode_step".to_owned(),
        prefill_tile: opts.prefill_tile,
        profile_slots,
    };
    proof {
        assert(r@ =~= meta_of(desc@, plan@, *opts, strings_view(profile_slots@)));
    }
    r
}

/// The arena holds the values and, right behind them, the packed activations.
pub proof fn law_arena_covers_the_scratch(
    m: ModelV,
    p: PlanV,
    opts: CompileOptions,
    slots: Seq<Seq<char>>,
)
    requires
        arena_len(p) <= usize::MAX,
        p.act_scratch_off == p.total_f32 * 4,
    ensures
        p.act_scratch_off + p.act_scratch_bytes <= meta_of(m, p, opts, slots).arena_f32 * 4,
{
}

} // verus!
