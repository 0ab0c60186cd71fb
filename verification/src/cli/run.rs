//! The decisions of a run: how long a sequence may get, when to stop, and where two
//! token lists part.

use vstd::prelude::*;
use vstd::string::StringExecFns;

use crate::text::{strings_view, text_eq};

verus! {

/// The length that a requested one comes to: no longer than the model's context,
/// where that is known.
pub open spec fn clamped(context: u64, requested: usize) -> usize {
    if 0 < context && context < requested {
        context as usize
    } else {
        requested
    }
}

/// The length that a requested one comes to.
pub fn clamp_max_seq_len(context_length: u64, requested: usize) -> (r: usize)
    ensures
        r == clamped(context_length, requested),
        r <= requested,
        context_length > 0 ==> r <= context_length,
{
    if 0 < context_length && context_length < requested as u64 {
        context_length as usize
    } else {
        requested
    }
}

/// What a run does.
#[derive(Debug, Clone, Copy, PartialEq, Eq, Structural)]
pub enum RunMode {
    /// Generate with the interpreter.
    Interpret,
    /// Generate with compiled code.
    Compiled,
    /// Measure compiled code.
    Profile,
}

/// What a run does, or why it does nothing.
pub fn run_mode(profile: bool, interp: bool) -> (r: Result<RunMode, String>)
    ensures
        match r {
            Ok(m) => !(profile && interp) && m == if profile {
                RunMode::Profile
            } else if interp {
                RunMode::Interpret
            } else {
                RunMode::Compiled
            },
            Err(e) => profile && interp && e@
                == "--profile requires the compiled path (incompatible with --interp)"@,
        },
{
    if profile {
        if interp {
            Err("--profile requires the compiled path (incompatible with --interp)".to_owned())
        } else {
            Ok(RunMode::Profile)
        }
    } else if interp {
        Ok(RunMode::Interpret)
    } else {
        Ok(RunMode::Compiled)
    }
}

/// Whether a prompt fits: it has tokens, and leaves room for at least one more.
pub fn prompt_fits(tokens: usize, max_seq_len: usize) -> (r: bool)
    ensures
        r == (0 < tokens < max_seq_len),
{
    tokens != 0 && tokens < max_seq_len
}

/// A measured generation so far.
#[derive(Debug, Clone, Copy, PartialEq, Eq, Structural)]
pub struct Decode {
    pub step: usize,
    pub generated: usize,
    pub done: bool,
}

/// A generation after the next token was chosen: it ends after `max_tokens`, at the
/// token that ends texts, which does not count, or when there is no more room, in
/// which case the token counts but is not run.
pub open spec fn decoded(
    d: Decode,
    next: u32,
    eos: Option<u32>,
    prompt: nat,
    max_tokens: nat,
    max_seq_len: nat,
) -> (Decode, bool) {
    if d.done || d.step >= max_tokens || eos == Some(next) {
        (Decode { done: true, ..d }, false)
    } else if prompt + d.step + 1 > max_seq_len {
        (Decode { generated: (d.generated + 1) as usize, done: true, ..d }, false)
    } else {
        (
            Decode {
                step: (d.step + 1) as usize,
                generated: (d.generated + 1) as usize,
                done: false,
            },
            true,
        )
    }
}

impl Decode {
    /// Nothing is generated yet.
    pub fn new() -> (r: Decode)
        ensures
            r == (Decode { step: 0, generated: 0, done: false }),
    {
        Decode { step: 0, generated: 0, done: false }
    }

    /// Whether a token is to be chosen.
    pub fn wants(&self, max_tokens: usize) -> (r: bool)
        ensures
            r == (!self.done && self.step < max_tokens),
    {
        !self.done && self.step < max_tokens
    }

    /// Takes the next token: whether it is to be run.
    pub fn take(
        &mut self,
        next: u32,
        eos: Option<u32>,
        prompt: usize,
        max_tokens: usize,
        max_seq_len: usize,
    ) -> (run: bool)
        requires
            old(self).generated == old(self).step,
            prompt + old(self).step + 1 <= usize::MAX,
        ensures
            (*final(self), run) == decoded(
                *old(self),
                next,
                eos,
                prompt as nat,
                max_tokens as nat,
                max_seq_len as nat,
            ),
    {
        let ends: bool = match eos {
            Some(t) => t == next,
            None => false,
        };
        if self.done || self.step >= max_tokens || ends {
            self.done = true;
            return false;
        }
        self.generated = self.generated + 1;
        if prompt + self.step + 1 > max_seq_len {
            self.done = true;
            return false;
        }
        self.step = self.step + 1;
        true
    }
}

/// Every token that is run has room: the prompt and the tokens run so far, with this
/// one, are no longer than the longest sequence.
pub proof fn law_run_tokens_have_room(
    d: Decode,
    next: u32,
    eos: Option<u32>,
    prompt: nat,
    max_tokens: nat,
    max_seq_len: nat,
)
    requires
        decoded(d, next, eos, prompt, max_tokens, max_seq_len).1,
        d.step < usize::MAX,
    ensures
        eos != Some(next),
        prompt + decoded(d, next, eos, prompt, max_tokens, max_seq_len).0.step <= max_seq_len,
        decoded(d, next, eos, prompt, max_tokens, max_seq_len).0.step <= max_tokens,
{
}

/// The bytes read in each slot by `n` passes.
pub fn scale_bytes(per_pass: &Vec<u64>, n: usize) -> (r: Vec<u64>)
    requires
        forall|i: int| 0 <= i < per_pass@.len() ==> #[trigger] per_pass@[i] * n <= u64::MAX,
    ensures
        r@.len() == per_pass@.len(),
        forall|i: int| 0 <= i < r@.len() ==> #[trigger] r@[i] == per_pass@[i] * n,
{
    let mut r: Vec<u64> = Vec::new();
    let mut i: usize = 0;
    while i < per_pass.len()
        invariant
            i <= per_pass@.len(),
            forall|i: int| 0 <= i < per_pass@.len() ==> #[trigger] per_pass@[i] * n <= u64::MAX,
            r@.len() == i,
            forall|j: int| 0 <= j < r@.len() ==> #[trigger] r@[j] == per_pass@[j] * n,
        decreases per_pass.len() - i,
    {
        assert(per_pass@[i as int] * n <= u64::MAX);
        r.push(per_pass[i] * n as u64);
        i += 1;
    }
    r
}

/// The first of the slots from `k` on that has a label.
pub open spec fn slot_from(slots: Seq<Seq<char>>, label: Seq<char>, k: nat) -> Option<nat>
    decreases slots.len() - k,
{
    if k >= slots.len() {
        None
    } else if slots[k as int] == label {
        Some(k)
    } else {
        slot_from(slots, label, k + 1)
    }
}

/// The cycles of attention: the count of its slot, or none.
pub fn attention_cycles(slots: &Vec<String>, counts: &Vec<u64>) -> (r: u64)
    requires
        slots@.len() <= counts@.len(),
    ensures
        r == match slot_from(strings_view(slots@), "attention"@, 0) {
            Some(i) => counts@[i as int],
            None => 0,
        },
{
    let ghost s = strings_view(slots@);
    let mut i: usize = 0;
    while i < slots.len()
        invariant
            i <= slots@.len() <= counts@.len(),
            s == strings_view(slots@),
            slot_from(s, "attention"@, 0) == slot_from(s, "attention"@, i as nat),
        decreases slots.len() - i,
    {
        assert(s[i as int] == slots@[i as int]@);
        if text_eq(slots[i].as_str(), "attention") {
            return counts[i];
        }
        i += 1;
    }
    0
}

/// Where two token lists part: at the first place at which they differ, or where the
/// shorter one ends; nowhere if they are equal.
pub open spec fn parts_at(a: Seq<u32>, b: Seq<u32>, at: nat) -> bool {
    &&& at <= a.len()
    &&& at <= b.len()
    &&& a.take(at as int) == b.take(at as int)
    &&& at < a.len() && at < b.len() ==> a[at as int] != b[at as int]
    &&& a != b
}

/// Where two token lists part, if they do.
pub fn first_difference(ours: &[u32], theirs: &[u32]) -> (r: Option<usize>)
    ensures
        match r {
            Some(i) => parts_at(ours@, theirs@, i as nat),
            None => ours@ == theirs@,
        },
{
    let n: usize = ours.len();
    let m: usize = theirs.len();
    let mut i: usize = 0;
    while i < n && i < m
        invariant
            i <= n == ours@.len(),
            i <= m == theirs@.len(),
            ours@.take(i as int) == theirs@.take(i as int),
        decreases n - i,
    {
        if ours[i] != theirs[i] {
            return Some(i);
        }
        i += 1;
        assert(ours@.take(i as int) =~= ours@.take(i - 1).push(ours@[i - 1]));
        assert(theirs@.take(i as int) =~= theirs@.take(i - 1).push(theirs@[i - 1]));
    }
    if n == m {
        assert(ours@.take(i as int) =~= ours@);
        assert(theirs@.take(i as int) =~= theirs@);
        None
    } else {
        Some(i)
    }
}

} // verus!
