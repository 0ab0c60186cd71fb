//! How a compiled model is driven: which entry point is called with which tokens at
//! which position.

use vstd::prelude::*;

use crate::codegen::emit::Meta;

verus! {

/// A call of compiled code.
#[derive(Debug, Clone, Copy, PartialEq, Eq, Structural)]
pub enum Call {
    /// All tokens at once, from a position on.
    Prefill { pos_off: usize },
    /// One token at a position.
    Decode { token: u32, pos: usize },
}

/// A compiled model in use: the sizes of its buffers, and how many tokens it has
/// seen.
#[derive(Debug, Clone, Copy, PartialEq, Eq, Structural)]
pub struct CompiledBackend {
    pub kv_len: usize,
    pub arena_len: usize,
    pub vocab: usize,
    pub pos: usize,
}

/// The calls that run tokens behind `pos` others: the first batch at once, later
/// tokens one by one.
pub open spec fn calls_for(pos: usize, tokens: Seq<u32>) -> Seq<Call> {
    if pos == 0 {
        seq![Call::Prefill { pos_off: 0 }]
    } else {
        Seq::new(
            tokens.len(),
            |i: int| Call::Decode { token: tokens[i], pos: (pos + i) as usize },
        )
    }
}

impl CompiledBackend {
    /// A model that has seen nothing, with buffers as its description asks.
    pub fn new(meta: &Meta) -> (r: CompiledBackend)
        ensures
            r.kv_len == meta.kv_total_bytes / 4,
            r.arena_len == meta.arena_f32,
            r.vocab == meta.vocab,
            r.pos == 0,
    {
        CompiledBackend {
            kv_len: meta.kv_total_bytes / 4,
            arena_len: meta.arena_f32,
            vocab: meta.vocab,
            pos: 0,
        }
    }

    /// The calls that run the tokens.
    pub fn forward(&mut self, tokens: &[u32]) -> (r: Vec<Call>)
        requires
            old(self).pos + tokens@.len() <= usize::MAX,
        ensures
            r@ == calls_for(old(self).pos, tokens@),
            *final(self) == (CompiledBackend {
                pos: (old(self).pos + tokens@.len()) as usize,
                ..*old(self)
            }),
    {
        let n: usize = tokens.len();
        let ghost start = self.pos;
        let ghost before = *self;
        let mut r: Vec<Call> = Vec::new();
        if self.pos == 0 {
            r.push(Call::Prefill { pos_off: 0 });
            self.pos = self.pos + n;
            assert(r@ =~= calls_for(start, tokens@));
        } else {
            let mut i: usize = 0;
            while i < n
                invariant
                    i <= n == tokens@.len(),
                    start != 0,
                    start + n <= usize::MAX,
                    *self == (CompiledBackend { pos: (start + i) as usize, ..before }),
                    r@ == calls_for(start, tokens@).take(i as int),
                decreases n - i,
            {
                r.push(Call::Decode { token: tokens[i], pos: self.pos });
                self.pos = self.pos + 1;
                i += 1;
                assert(r@ =~= calls_for(start, tokens@).take(i as int));
            }
            assert(r@ =~= calls_for(start, tokens@));
        }
        r
    }

    /// Forgets all tokens; the buffers are to be cleared.
    pub fn reset(&mut self)
        ensures
            *final(self) == (CompiledBackend { pos: 0, ..*old(self) }),
    {
        self.pos = 0;
    }
}

} // verus!
