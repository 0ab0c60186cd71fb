//! Profiler slots: every step has a label, and steps with one label share a slot.
//! Products are counted by the role of their weight, over all layers.

use vstd::prelude::*;
use vstd::string::StringExecFns;

use crate::codegen::loopir::{IslandCodeV, LoopIr, Step, StepV};
use crate::codegen::plan::{Plan, PlanV};
use crate::formats::desc::{ModelDesc, ModelV};
use crate::graph::builder::layer_label;
use crate::text::{
    dec, is_digit, join, join_texts, law_decimal_round_trip, lemma_dec_digits, lemma_join_adds,
    lemma_one_piece, lemma_pieces_join, lemma_pieces_some, parse_u64, parse_u64_text, pieces,
    split_at, strings_view, text_eq,
};

verus! {

/// The label under which appending to the cache is counted.
pub const KV_APPEND_LABEL: &'static str = "kv_append";

/// A piece of a name, with a star for a number.
pub open spec fn starred(s: Seq<char>) -> Seq<char> {
    if parse_u64(s) is Some {
        "*"@
    } else {
        s
    }
}

/// The pieces of a name, with a star for each number.
pub open spec fn starred_pieces(s: Seq<char>) -> Seq<Seq<char>> {
    pieces(s, '.').map_values(|p: Seq<char>| starred(p))
}

/// The name of a weight in all layers: the pieces between its dots, with a star for
/// each number.
pub open spec fn normalized(s: Seq<char>) -> Seq<char> {
    join(starred_pieces(s), "."@, starred_pieces(s).len())
}

/// The name of a weight in all layers.
pub fn normalize_weight_name(name: &str) -> (r: String)
    ensures
        r@ == normalized(name@),
{
    let parts = split_at(name, '.');
    let mut out: Vec<String> = Vec::new();
    let mut i: usize = 0;
    while i < parts.len()
        invariant
            i <= parts@.len(),
            strings_view(parts@) == pieces(name@, '.'),
            out@.len() == i,
            forall|j: int| 0 <= j < i ==> (#[trigger] out@[j])@ == starred(parts@[j]@),
        decreases parts.len() - i,
    {
        if parse_u64_text(parts[i].as_str()).is_some() {
            out.push("*".to_owned());
        } else {
            out.push(parts[i].clone());
        }
        i += 1;
    }
    proof {
        assert forall|j: int| 0 <= j < out@.len() implies strings_view(out@)[j]
            == #[trigger] starred_pieces(name@)[j] by {
            assert(strings_view(parts@)[j] == parts@[j]@);
        }
        assert(strings_view(out@) =~= starred_pieces(name@));
    }
    join_texts(&out, ".")
}

/// A name made of two with a dot between them.
pub proof fn lemma_normalized_adds(a: Seq<char>, b: Seq<char>)
    ensures
        normalized(a + "."@ + b) == normalized(a) + "."@ + normalized(b),
{
    reveal_strlit(".");
    assert("."@ =~= seq!['.']);
    lemma_pieces_join(a, b, '.');
    lemma_pieces_some(a, '.');
    lemma_pieces_some(b, '.');
    let pa = starred_pieces(a);
    let pb = starred_pieces(b);
    assert(starred_pieces(a + "."@ + b) =~= pa + pb);
    lemma_join_adds(pa, pb, "."@, pb.len());
}

/// A number alone becomes a star.
proof fn lemma_normalized_number(n: nat)
    requires
        n <= u64::MAX,
    ensures
        normalized(dec(n)) == "*"@,
{
    law_decimal_round_trip(n as u64);
    lemma_dec_digits(n);
    let s = dec(n);
    assert forall|i: int| 0 <= i < s.len() implies #[trigger] s[i] != '.' by {
        assert(is_digit(s[i]));
    }
    lemma_one_piece(s, '.');
    assert(starred_pieces(s) =~= seq!["*"@]);
}

/// The same weight has the same name in every layer, so its products share a slot.
pub proof fn law_layers_share_a_name(i: nat, j: nat, part: Seq<char>)
    requires
        i <= u64::MAX,
        j <= u64::MAX,
    ensures
        normalized(layer_label(i, part)) == normalized(layer_label(j, part)),
{
    lemma_layer_name(i, part);
    lemma_layer_name(j, part);
}

proof fn lemma_layer_name(i: nat, part: Seq<char>)
    requires
        i <= u64::MAX,
    ensures
        normalized(layer_label(i, part)) == normalized("layers"@) + "."@ + "*"@ + "."@
            + normalized(part),
{
    reveal_strlit("layers.");
    reveal_strlit("layers");
    reveal_strlit(".");
    let head = "layers"@ + "."@ + dec(i);
    assert("layers."@ =~= "layers"@ + "."@);
    assert(layer_label(i, part) =~= head + "."@ + part);
    lemma_normalized_adds(head, part);
    lemma_normalized_adds("layers"@, dec(i));
    lemma_normalized_number(i);
}

/// The label of a step: a product by the name of its weight, any other by its kind.
pub open spec fn label_of(st: StepV, p: PlanV, m: ModelV) -> Seq<char> {
    match st {
        StepV::Gemv { weight, .. } => "matmul:"@ + normalized(
            m.tensors[p.weights[weight as int].tensor_index as int].name,
        ),
        StepV::Quantize { .. } => "quantize"@,
        StepV::Bias { .. } => "bias"@,
        StepV::Embed { .. } => "embed"@,
        StepV::RmsNorm { .. } => "rmsnorm"@,
        StepV::Rope { .. } => "rope"@,
        StepV::SwiGlu { .. } => "swiglu"@,
        StepV::Add { .. } => "add"@,
        StepV::Attention { .. } => "attention"@,
    }
}

/// Whether the weight that a step names, and its tensor, are there.
pub open spec fn labelled(st: StepV, p: PlanV, m: ModelV) -> bool {
    st matches StepV::Gemv { weight, .. } ==> weight < p.weights.len()
        && p.weights[weight as int].tensor_index < m.tensors.len()
}

/// The label of a step.
pub fn step_label(step: &Step, plan: &Plan, desc: &ModelDesc) -> (s: String)
    requires
        labelled(step@, plan@, desc@),
    ensures
        s@ == label_of(step@, plan@, desc@),
{
    match step {
        Step::Gemv { weight, .. } => {
            let w = &plan.weights[*weight];
            proof {
                assert(plan@.weights[*weight as int] == w@);
                assert(desc@.tensors[w.tensor_index as int]
                    == desc.tensors@[w.tensor_index as int]@);
            }
            let mut s = "matmul:".to_owned();
            s.append(normalize_weight_name(desc.tensors[w.tensor_index].name.as_str()).as_str());
            s
        },
        Step::Quantize { .. } => "quantize".to_owned(),
        Step::Bias { .. } => "bias".to_owned(),
        Step::Embed { .. } => "embed".to_owned(),
        Step::RmsNorm { .. } => "rmsnorm".to_owned(),
        Step::Rope { .. } => "rope".to_owned(),
        Step::SwiGlu { .. } => "swiglu".to_owned(),
        Step::Add { .. } => "add".to_owned(),
        Step::Attention { .. } => "attention".to_owned(),
    }
}

/// The slots, in the order in which their labels were first seen; no label stands
/// twice.
#[derive(Debug, PartialEq, Eq)]
pub struct ProfileSlots {
    pub labels: Vec<String>,
}

impl View for ProfileSlots {
    type V = Seq<Seq<char>>;

    open spec fn view(&self) -> Seq<Seq<char>> {
        strings_view(self.labels@)
    }
}

/// The labels with one more, unless it is among them.
pub open spec fn interned(s: Seq<Seq<char>>, label: Seq<char>) -> Seq<Seq<char>> {
    if s.contains(label) {
        s
    } else {
        s.push(label)
    }
}

impl ProfileSlots {
    /// No slots.
    pub fn new() -> (r: ProfileSlots)
        ensures
            r@ == Seq::<Seq<char>>::empty(),
            r@.no_duplicates(),
    {
        let r = ProfileSlots { labels: Vec::new() };
        assert(r@ =~= Seq::<Seq<char>>::empty());
        r
    }

    /// The slot of a label, if it has one.
    fn find(&self, label: &str) -> (r: Option<usize>)
        ensures
            match r {
                Some(i) => i < self@.len() && self@[i as int] == label@,
                None => !self@.contains(label@),
            },
    {
        let mut i: usize = 0;
        while i < self.labels.len()
            invariant
                i <= self.labels@.len(),
                forall|j: int| 0 <= j < i ==> #[trigger] self@[j] != label@,
            decreases self.labels.len() - i,
        {
            assert(self@[i as int] == self.labels@[i as int]@);
            if text_eq(self.labels[i].as_str(), label) {
                return Some(i);
            }
            i += 1;
        }
        None
    }

    /// The slot of a label that has one.
    pub fn slot(&self, label: &str) -> (r: usize)
        requires
            self@.contains(label@),
        ensures
            r < self@.len(),
            self@[r as int] == label@,
            self@.no_duplicates() ==> r == slot_of(self@, label@),
    {
        match self.find(label) {
            Some(i) => i,
            None => 0,
        }
    }

    pub fn len(&self) -> (n: usize)
        ensures
            n == self@.len(),
    {
        self.labels.len()
    }

    pub fn is_empty(&self) -> (b: bool)
        ensures
            b == (self@.len() == 0),
    {
        self.labels.len() == 0
    }

    /// Gives a label a slot, unless it has one.
    fn intern(&mut self, label: String)
        requires
            old(self)@.no_duplicates(),
        ensures
            final(self)@ == interned(old(self)@, label@),
            final(self)@.no_duplicates(),
    {
        let ghost before = self@;
        if self.find(label.as_str()).is_none() {
            self.labels.push(label);
            assert(self@ =~= before.push(label@));
        }
    }
}

/// The slot of a label among labels.
pub open spec fn slot_of(s: Seq<Seq<char>>, label: Seq<char>) -> int {
    s.index_of(label)
}

/// Giving a label a slot leaves a list that has it as it is, and puts it at the end of
/// one that has not. No label stands twice, so each has the slot at which it stands, and
/// every label keeps the slot that it had.
pub proof fn law_labels_keep_their_slots(s: Seq<Seq<char>>, label: Seq<char>)
    requires
        s.no_duplicates(),
    ensures
        s.contains(label) ==> interned(s, label) == s,
        !s.contains(label) ==> interned(s, label) == s.push(label),
        interned(s, label).contains(label),
        interned(s, label).no_duplicates(),
        forall|i: int|
            0 <= i < interned(s, label).len() ==> slot_of(
                interned(s, label),
                #[trigger] interned(s, label)[i],
            ) == i,
        forall|l: Seq<char>|
            #[trigger] s.contains(l) ==> interned(s, label).contains(l) && slot_of(
                interned(s, label),
                l,
            ) == slot_of(s, l),
{
    let t = interned(s, label);
    if !s.contains(label) {
        assert(t[s.len() as int] == label);
    }
    assert forall|i: int| 0 <= i < t.len() implies slot_of(t, #[trigger] t[i]) == i by {
        assert(t.contains(t[i]));
    }
    assert forall|l: Seq<char>| #[trigger] s.contains(l) implies t.contains(l) && slot_of(t, l)
        == slot_of(s, l) by {
        let i = s.index_of(l);
        assert(t[i] == l);
    }
}

/// The labels with that of a step; a step that attends also appends to the cache,
/// which is counted on its own.
pub open spec fn with_step(s: Seq<Seq<char>>, st: StepV, p: PlanV, m: ModelV) -> Seq<Seq<char>> {
    let t = if st is Attention {
        interned(s, KV_APPEND_LABEL@)
    } else {
        s
    };
    interned(t, label_of(st, p, m))
}

/// The labels with those of the first `k` steps.
pub open spec fn with_steps(
    s: Seq<Seq<char>>,
    steps: Seq<StepV>,
    p: PlanV,
    m: ModelV,
    k: nat,
) -> Seq<Seq<char>>
    decreases k,
{
    if k == 0 {
        s
    } else {
        with_step(with_steps(s, steps, p, m, (k - 1) as nat), steps[k - 1], p, m)
    }
}

/// The labels of the first `k` islands.
pub open spec fn island_labels(c: Seq<IslandCodeV>, p: PlanV, m: ModelV, k: nat) -> Seq<Seq<char>>
    decreases k,
{
    if k == 0 {
        Seq::empty()
    } else {
        with_steps(
            island_labels(c, p, m, (k - 1) as nat),
            c[k - 1].steps,
            p,
            m,
            c[k - 1].steps.len(),
        )
    }
}

/// Whether every step of a program has a label.
pub open spec fn all_labelled(c: Seq<IslandCodeV>, p: PlanV, m: ModelV) -> bool {
    forall|i: int, j: int|
        0 <= i < c.len() && 0 <= j < c[i].steps.len() ==> labelled(#[trigger] c[i].steps[j], p, m)
}

/// A slot for every label of a program, in the order in which they are first seen.
pub fn assign_slots(loopir: &LoopIr, plan: &Plan, desc: &ModelDesc) -> (r: ProfileSlots)
    requires
        all_labelled(loopir@, plan@, desc@),
    ensures
        r@ == island_labels(loopir@, plan@, desc@, loopir@.len()),
        r@.no_duplicates(),
{
    let ghost p = plan@;
    let ghost m = desc@;
    let ghost c = loopir@;
    let mut slots = ProfileSlots::new();
    let mut i: usize = 0;
    while i < loopir.islands.len()
        invariant
            all_labelled(c, p, m),
            p == plan@,
            m == desc@,
            c == loopir@,
            i <= loopir.islands@.len(),
            slots@ == island_labels(c, p, m, i as nat),
            slots@.no_duplicates(),
        decreases loopir.islands.len() - i,
    {
        let isl = &loopir.islands[i];
        let ghost before = slots@;
        let mut j: usize = 0;
        proof {
            assert(c[i as int] == isl@);
        }
        while j < isl.steps.len()
            invariant
                all_labelled(c, p, m),
                p == plan@,
                m == desc@,
                i < c.len(),
                c[i as int] == isl@,
                j <= isl.steps@.len(),
                slots@ == with_steps(before, isl@.steps, p, m, j as nat),
                slots@.no_duplicates(),
            decreases isl.steps.len() - j,
        {
            let st = &isl.steps[j];
            proof {
                assert(c[i as int].steps[j as int] == st@);
            }
            if let Step::Attention { .. } = st {
                slots.intern(KV_APPEND_LABEL.to_owned());
            }
            slots.intern(step_label(st, plan, desc));
            j += 1;
        }
        i += 1;
    }
    slots
}

/// Every label of a program has a slot.
pub proof fn law_every_step_has_a_slot(c: Seq<IslandCodeV>, p: PlanV, m: ModelV, i: int, j: int)
    requires
        0 <= i < c.len(),
        0 <= j < c[i].steps.len(),
    ensures
        island_labels(c, p, m, c.len()).contains(label_of(c[i].steps[j], p, m)),
        c[i].steps[j] is Attention ==> island_labels(c, p, m, c.len()).contains(KV_APPEND_LABEL@),
{
    let before = island_labels(c, p, m, i as nat);
    lemma_steps_seen(before, c[i].steps, p, m, c[i].steps.len(), j);
    lemma_islands_keep(c, p, m, (i + 1) as nat, c.len(), label_of(c[i].steps[j], p, m));
    if c[i].steps[j] is Attention {
        lemma_islands_keep(c, p, m, (i + 1) as nat, c.len(), KV_APPEND_LABEL@);
    }
}

proof fn lemma_interned_keeps(s: Seq<Seq<char>>, label: Seq<char>, x: Seq<char>)
    requires
        s.contains(x),
    ensures
        interned(s, label).contains(x),
{
    let i = choose|i: int| 0 <= i < s.len() && s[i] == x;
    assert(interned(s, label)[i] == x);
}

proof fn lemma_interned_has(s: Seq<Seq<char>>, label: Seq<char>)
    ensures
        interned(s, label).contains(label),
{
    if !s.contains(label) {
        assert(s.push(label)[s.len() as int] == label);
    }
}

proof fn lemma_step_keeps(s: Seq<Seq<char>>, st: StepV, p: PlanV, m: ModelV, x: Seq<char>)
    requires
        s.contains(x),
    ensures
        with_step(s, st, p, m).contains(x),
{
    lemma_interned_keeps(s, KV_APPEND_LABEL@, x);
    let t = if st is Attention {
        interned(s, KV_APPEND_LABEL@)
    } else {
        s
    };
    lemma_interned_keeps(t, label_of(st, p, m), x);
}

proof fn lemma_steps_keep(
    s: Seq<Seq<char>>,
    steps: Seq<StepV>,
    p: PlanV,
    m: ModelV,
    k: nat,
    x: Seq<char>,
)
    requires
        s.contains(x),
    ensures
        with_steps(s, steps, p, m, k).contains(x),
    decreases k,
{
    if k > 0 {
        lemma_steps_keep(s, steps, p, m, (k - 1) as nat, x);
        lemma_step_keeps(with_steps(s, steps, p, m, (k - 1) as nat), steps[k - 1], p, m, x);
    }
}

proof fn lemma_steps_seen(
    s: Seq<Seq<char>>,
    steps: Seq<StepV>,
    p: PlanV,
    m: ModelV,
    k: nat,
    j: int,
)
    requires
        0 <= j < k <= steps.len(),
    ensures
        with_steps(s, steps, p, m, k).contains(label_of(steps[j], p, m)),
        steps[j] is Attention ==> with_steps(s, steps, p, m, k).contains(KV_APPEND_LABEL@),
    decreases k,
{
    let t = with_steps(s, steps, p, m, (k - 1) as nat);
    if j < k - 1 {
        lemma_steps_seen(s, steps, p, m, (k - 1) as nat, j);
        lemma_step_keeps(t, steps[k - 1], p, m, label_of(steps[j], p, m));
        if steps[j] is Attention {
            lemma_step_keeps(t, steps[k - 1], p, m, KV_APPEND_LABEL@);
        }
    } else {
        let u = if steps[j] is Attention {
            interned(t, KV_APPEND_LABEL@)
        } else {
            t
        };
        lemma_interned_has(u, label_of(steps[j], p, m));
        lemma_interned_has(t, KV_APPEND_LABEL@);
        if steps[j] is Attention {
            lemma_interned_keeps(u, label_of(steps[j], p, m), KV_APPEND_LABEL@);
        }
    }
}

proof fn lemma_islands_keep(
    c: Seq<IslandCodeV>,
    p: PlanV,
    m: ModelV,
    k: nat,
    n: nat,
    x: Seq<char>,
)
    requires
        k <= n,
        island_labels(c, p, m, k).contains(x),
    ensures
        island_labels(c, p, m, n).contains(x),
    decreases n - k,
{
    if k < n {
        lemma_islands_keep(c, p, m, k, (n - 1) as nat, x);
        lemma_steps_keep(
            island_labels(c, p, m, (n - 1) as nat),
            c[n - 1].steps,
            p,
            m,
            c[n - 1].steps.len(),
            x,
        );
    }
}

} // verus!
