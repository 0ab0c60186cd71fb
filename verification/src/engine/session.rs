//! The engine: a model, the machine, and how the model is to be compiled.

use vstd::prelude::*;
use vstd::string::StringExecFns;

use crate::codegen::emit::{CompileOptions, PREFILL_TILE};
use crate::codegen::plan::{PackedV, Plan, PlanV};
use crate::codegen::profile::{normalize_weight_name, normalized};
use crate::formats::desc::{ModelDesc, ModelV};
use crate::text::{strings_view, text_eq};

verus! {

/// A model, the machine, and how the model is to be compiled.
#[derive(Debug, PartialEq, Eq)]
pub struct Engine {
    pub model: String,
    pub max_seq_len: usize,
    pub threads: usize,
    pub logical_cores: u32,
    pub opts: CompileOptions,
}

/// A count of cores, at least one.
pub open spec fn at_least_one(n: u32) -> usize {
    if n == 0 {
        1
    } else {
        n as usize
    }
}

impl Engine {
    /// An engine with a thread for every physical core.
    pub fn load(model: String, max_seq_len: usize, physical_cores: u32, logical_cores: u32) -> (r:
        Engine)
        ensures
            r.model == model,
            r.max_seq_len == max_seq_len,
            r.threads == at_least_one(physical_cores),
            r.logical_cores == logical_cores,
            r.opts == (CompileOptions { profile: false, prefill_tile: PREFILL_TILE }),
    {
        let threads: usize = if physical_cores == 0 {
            1
        } else {
            physical_cores as usize
        };
        Engine { model, max_seq_len, threads, logical_cores, opts: CompileOptions::default() }
    }

    /// Asks for a number of threads: at least one, and no more than there are
    /// logical cores.
    pub fn set_threads(&mut self, threads: usize)
        ensures
            final(self).threads == if threads == 0 {
                1
            } else if threads > at_least_one(old(self).logical_cores) {
                at_least_one(old(self).logical_cores)
            } else {
                threads
            },
            *final(self) == (Engine { threads: final(self).threads, ..*old(self) }),
    {
        let max: usize = if self.logical_cores == 0 {
            1
        } else {
            self.logical_cores as usize
        };
        self.threads = if threads == 0 {
            1
        } else if threads > max {
            max
        } else {
            threads
        };
    }

    pub fn threads(&self) -> (n: usize)
        ensures
            n == self.threads,
    {
        self.threads
    }

    /// Whether compiled code is to count cycles.
    pub fn set_profile(&mut self, on: bool)
        ensures
            *final(self) == (Engine {
                opts: CompileOptions { profile: on, ..old(self).opts },
                ..*old(self)
            }),
    {
        self.opts.profile = on;
    }

    /// How many tokens a batched pass is to take, at least one.
    pub fn set_prefill_tile(&mut self, t: usize)
        ensures
            *final(self) == (Engine {
                opts: CompileOptions {
                    prefill_tile: if t == 0 {
                        1
                    } else {
                        t
                    },
                    ..old(self).opts
                },
                ..*old(self)
            }),
    {
        self.opts.prefill_tile = if t == 0 {
            1
        } else {
            t
        };
    }
}

/// The last place among the first `k` slots that has a label.
pub open spec fn last_slot(slots: Seq<Seq<char>>, label: Seq<char>, k: nat) -> Option<nat>
    decreases k,
{
    if k == 0 {
        None
    } else if slots[k - 1] == label {
        Some((k - 1) as nat)
    } else {
        last_slot(slots, label, (k - 1) as nat)
    }
}

/// The label of the products with a weight.
pub open spec fn weight_label(w: PackedV, m: ModelV) -> Seq<char> {
    "matmul:"@ + normalized(m.tensors[w.tensor_index as int].name)
}

/// How many bytes the first `k` weights add to slot `i`.
pub open spec fn slot_bytes(p: PlanV, m: ModelV, slots: Seq<Seq<char>>, i: int, k: nat) -> nat
    decreases k,
{
    if k == 0 {
        0
    } else {
        slot_bytes(p, m, slots, i, (k - 1) as nat) + if last_slot(
            slots,
            weight_label(p.weights[k - 1], m),
            slots.len(),
        ) == Some(i as nat) {
            p.weights[k - 1].len as nat
        } else {
            0
        }
    }
}

/// How many bytes the first `k` weights have.
pub open spec fn all_bytes(p: PlanV, k: nat) -> nat
    decreases k,
{
    if k == 0 {
        0
    } else {
        all_bytes(p, (k - 1) as nat) + p.weights[k - 1].len as nat
    }
}

proof fn lemma_slot_within(p: PlanV, m: ModelV, slots: Seq<Seq<char>>, i: int, k: nat)
    ensures
        slot_bytes(p, m, slots, i, k) <= all_bytes(p, k),
    decreases k,
{
    if k > 0 {
        lemma_slot_within(p, m, slots, i, (k - 1) as nat);
    }
}

proof fn lemma_all_grows(p: PlanV, k: nat, n: nat)
    requires
        k <= n,
    ensures
        all_bytes(p, k) <= all_bytes(p, n),
    decreases n - k,
{
    if k < n {
        lemma_all_grows(p, k, (n - 1) as nat);
    }
}

/// The last slot that has a label.
fn find_slot(slots: &Vec<String>, label: &str) -> (r: Option<usize>)
    ensures
        match r {
            Some(i) => last_slot(strings_view(slots@), label@, slots@.len()) == Some(i as nat) && i
                < slots@.len(),
            None => last_slot(strings_view(slots@), label@, slots@.len()) is None,
        },
{
    let ghost s = strings_view(slots@);
    let mut k: usize = slots.len();
    while k > 0
        invariant
            k <= slots@.len(),
            s == strings_view(slots@),
            last_slot(s, label@, slots@.len()) == last_slot(s, label@, k as nat),
        decreases k,
    {
        assert(s[k - 1] == slots@[k - 1]@);
        if text_eq(slots[k - 1].as_str(), label) {
            return Some(k - 1);
        }
        k -= 1;
    }
    None
}

/// How many bytes of weights one pass reads in each slot: a slot of products has all
/// layers' weights of its name, any other none.
pub fn profile_matmul_bytes(plan: &Plan, desc: &ModelDesc, slots: &Vec<String>) -> (r: Vec<u64>)
    requires
        forall|i: int|
            0 <= i < plan@.weights.len() ==> (#[trigger] plan@.weights[i]).tensor_index
                < desc@.tensors.len(),
        all_bytes(plan@, plan@.weights.len()) <= u64::MAX,
    ensures
        r@.len() == slots@.len(),
        forall|i: int|
            0 <= i < r@.len() ==> #[trigger] r@[i] == slot_bytes(
                plan@,
                desc@,
                strings_view(slots@),
                i,
                plan@.weights.len(),
            ),
{
    let ghost p = plan@;
    let ghost m = desc@;
    let ghost s = strings_view(slots@);
    let mut r: Vec<u64> = Vec::new();
    let mut j: usize = 0;
    while j < slots.len()
        invariant
            j <= slots@.len(),
            r@.len() == j,
            forall|i: int| 0 <= i < r@.len() ==> #[trigger] r@[i] == 0,
        decreases slots.len() - j,
    {
        r.push(0);
        j += 1;
    }
    let n: usize = plan.weights.len();
    let mut k: usize = 0;
    while k < n
        invariant
            k <= n == plan.weights@.len(),
            p == plan@,
            m == desc@,
            s == strings_view(slots@),
            r@.len() == slots@.len(),
            forall|i: int|
                0 <= i < p.weights.len() ==> (#[trigger] p.weights[i]).tensor_index
                    < m.tensors.len(),
            all_bytes(p, n as nat) <= u64::MAX,
            forall|i: int|
                0 <= i < r@.len() ==> #[trigger] r@[i] == slot_bytes(p, m, s, i, k as nat),
        decreases n - k,
    {
        let w = &plan.weights[k];
        proof {
            assert(p.weights[k as int] == w@);
            assert(m.tensors[w.tensor_index as int] == desc.tensors@[w.tensor_index as int]@);
        }
        let mut label = "matmul:".to_owned();
        label.append(normalize_weight_name(desc.tensors[w.tensor_index].name.as_str()).as_str());
        match find_slot(slots, label.as_str()) {
            Some(i) => {
                proof {
                    lemma_slot_within(p, m, s, i as int, (k + 1) as nat);
                    lemma_all_grows(p, (k + 1) as nat, n as nat);
                    assert(r@[i as int] == slot_bytes(p, m, s, i as int, k as nat));
                }
                let ghost before = r@;
                let sofar: u64 = r[i];
                r.set(i, sofar + w.len as u64);
                proof {
                    assert forall|x: int| 0 <= x < r@.len() implies #[trigger] r@[x] == slot_bytes(
                        p,
                        m,
                        s,
                        x,
                        (k + 1) as nat,
                    ) by {
                        assert(before[x] == slot_bytes(p, m, s, x, k as nat));
                    }
                }
            },
            None => {
                proof {
                    assert forall|x: int| 0 <= x < r@.len() implies #[trigger] r@[x] == slot_bytes(
                        p,
                        m,
                        s,
                        x,
                        (k + 1) as nat,
                    ) by {
                        assert(r@[x] == slot_bytes(p, m, s, x, k as nat));
                    }
                }
            },
        }
        k += 1;
    }
    r
}

} // verus!
