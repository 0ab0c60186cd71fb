//! A compiled model against the interpreter: the calls that are made for tokens leave
//! the interpreter's logits behind, whatever was computed before a reset, and however
//! the workers share the tokens.

use vstd::prelude::*;

use crate::codegen::code::{run, Buf, Machine, Units};
use crate::codegen::emit::arena_len;
use crate::codegen::loopir::program;
use crate::codegen::lower::{decode_code, layer_base, prefill_code, region};
use crate::codegen::plan::PlanV;
use crate::codegen::prompt::{
    asked, attends_tiles, law_prefill_is_the_interpreter, lemma_same_caches, multiplies_tiles, steady,
    Prompt,
};
use crate::codegen::whole::{
    arranged, attends_alike, caches, deployed, equipped, holds, in_sequence,
    law_decode_is_the_interpreter, multiplies, Deployed,
};
use crate::engine::backend::{calls_for, Call};
use crate::formats::desc::ModelV;
use crate::graph::interp::{run_of, Feed, KvV};
use crate::graph::ir::GraphV;
use crate::graph::ops::ArrayV;
use crate::graph::split::{
    first_feed, law_prefill_then_decode, run_ready, second_feed, tail_of,
};

verus! {

/// A model that is compiled: its graph, its plan, its description, its weights, what
/// the machine computes, and the profiler's slots.
#[verifier::ext_equal]
pub struct Built {
    pub g: GraphV,
    pub p: PlanV,
    pub d: ModelV,
    pub files: Seq<Seq<u8>>,
    pub u: Units,
    pub slots: Option<Seq<Seq<char>>>,
}

impl Built {
    /// What the interpreter is fed for tokens behind `pos` others.
    pub open spec fn feed(self, tokens: Seq<u32>, pos: nat) -> Feed {
        Feed { math: self.u.math, model: self.d, files: self.files, tokens, pos }
    }

    /// The cache of a model that has seen nothing.
    pub open spec fn nothing(self) -> KvV {
        KvV {
            k: Seq::new(self.g.n_layers as nat, |l: int| Seq::empty()),
            v: Seq::new(self.g.n_layers as nat, |l: int| Seq::empty()),
            kv_dim: self.p.kv_dim as nat,
            max_seq_len: self.p.max_seq_len as nat,
            len: 0,
        }
    }

    /// A prompt that starts anew.
    pub open spec fn prompt(self, tokens: Seq<u32>) -> Prompt {
        Prompt { c: self.feed(tokens, 0), g: self.g, p: self.p, u: self.u, kv: self.nothing() }
    }

    /// A token behind `pos` others, where a plan has `rows` rows.
    pub open spec fn single(self, token: u32, pos: nat, rows: int) -> Deployed {
        Deployed {
            c: self.feed(seq![token], pos),
            g: self.g,
            p: self.p,
            u: self.u,
            row: 0,
            rows,
        }
    }

    /// What the interpreter gives for tokens that start anew: the logits of the last.
    pub open spec fn logits(self, tokens: Seq<u32>) -> Seq<u32> {
        let whole = run_of(self.feed(tokens, 0), self.g, self.nothing()).0->Ok_0;
        tail_of(whole, (tokens.len() - 1) as nat).data
    }
}

/// Whether a machine has room and the constants of a model; what its buffers hold is
/// left open.
pub open spec fn roomy(b: Built, m: Machine) -> bool {
    &&& m.mem.contains_key(Buf::Arena)
    &&& arena_len(b.p) <= m.mem[Buf::Arena].len()
    &&& m.mem.contains_key(Buf::Cell(0))
    &&& m.mem[Buf::Cell(0)].len() == 1
    &&& m.mem.contains_key(Buf::Logits)
    &&& m.mem[Buf::Logits].len() == b.d.hyperparams.vocab_size
    &&& m.mem.contains_key(Buf::Kv)
    &&& forall|l: usize|
        l < b.g.n_layers ==> #[trigger] layer_base(b.p, l) + 2 * region(b.p)
            <= m.mem[Buf::Kv].len()
    &&& equipped(b.single(0, 0, 1), m)
}

/// Whether the interpreter gets through tokens, and plan and kernels fit a prompt of
/// so many tokens.
pub open spec fn serves(b: Built, tokens: Seq<u32>) -> bool {
    &&& asked(b.prompt(tokens))
    &&& multiplies_tiles(b.prompt(tokens))
    &&& attends_tiles(b.prompt(tokens))
    &&& in_sequence(b.p, b.g)
    &&& 0 < b.p.prefill_tile <= u64::MAX
}

/// The machine as a call starts: with the arguments of the call, and what memory holds.
pub open spec fn entered(call: Call, tokens: Seq<u32>, m: Machine) -> Machine {
    match call {
        Call::Prefill { pos_off } => Machine {
            args: seq![tokens.len() as int, pos_off as int],
            tokens,
            pos_off: pos_off as int,
            ..m
        },
        Call::Decode { token, pos } => Machine {
            row: 0,
            pos: pos as int,
            token: token as int,
            ..m
        },
    }
}

/// The machine behind a call.
pub open spec fn called(b: Built, call: Call, tokens: Seq<u32>, m: Machine) -> Machine {
    let code = match call {
        Call::Prefill { .. } => prefill_code(b.p, b.g, b.d, b.slots, program(b.p, b.g)),
        Call::Decode { .. } => decode_code(b.p, b.g, b.d, b.slots, program(b.p, b.g)),
    };
    run(code, entered(call, tokens, m), b.u)
}

/// The machine behind calls, one after the other.
pub open spec fn driven(b: Built, calls: Seq<Call>, tokens: Seq<u32>, m: Machine) -> Machine
    decreases calls.len(),
{
    if calls.len() == 0 {
        m
    } else {
        called(b, calls.last(), tokens, driven(b, calls.drop_last(), tokens, m))
    }
}

/// After a reset, the calls that are made for tokens leave the interpreter's logits of
/// the last token behind, bit for bit, and the interpreter's cache; whatever the
/// buffers held before.
pub proof fn law_reset_then_prompt(b: Built, tokens: Seq<u32>, m: Machine)
    requires
        serves(b, tokens),
        roomy(b, m),
    ensures
        ({
            let r = driven(b, calls_for(0, tokens), tokens, m);
            let kept = run_of(b.feed(tokens, 0), b.g, b.nothing()).1;
            &&& r.mem[Buf::Logits] == b.logits(tokens)
            &&& roomy(b, r)
            &&& caches(b.single(0, 0, 1), r, kept)
        }),
{
    let q = b.prompt(tokens);
    let calls = calls_for(0, tokens);
    let at = entered(calls[0], tokens, m);
    assert(calls.drop_last() =~= Seq::<Call>::empty());
    assert(driven(b, calls.drop_last(), tokens, m) == m);
    let r = driven(b, calls, tokens, m);
    assert(r == called(b, calls[0], tokens, m));
    assert(q.token(0).c.model == b.d && q.token(0).c.files == b.files);
    assert(steady(q, at));
    assert(caches(q.token(0), at, q.kv)) by {
        assert forall|l: usize|
            #![trigger layer_base(q.token(0).p, l)]
            l < q.g.n_layers implies {
            let s = at.mem[Buf::Kv];
            let z = layer_base(q.token(0).p, l);
            &&& z + 2 * region(q.p) <= s.len()
            &&& q.kv.k[l as int].len() <= region(q.p) && q.kv.v[l as int].len() <= region(q.p)
            &&& s.subrange(z, z + q.kv.k[l as int].len()) == q.kv.k[l as int]
            &&& s.subrange(z + region(q.p), z + region(q.p) + q.kv.v[l as int].len())
                == q.kv.v[l as int]
        } by {
            let s = at.mem[Buf::Kv];
            let z = layer_base(b.p, l);
            assert(region(q.p) >= 0) by (nonlinear_arith)
                requires
                    region(q.p) == q.p.max_seq_len * q.p.kv_dim,
            ;
            assert(q.kv.k[l as int] =~= Seq::<u32>::empty());
            assert(q.kv.v[l as int] =~= Seq::<u32>::empty());
            assert(s.subrange(z, z + 0) =~= q.kv.k[l as int]);
            assert(s.subrange(z + region(q.p), z + region(q.p) + 0) =~= q.kv.v[l as int]);
        }
    }
    law_prefill_is_the_interpreter(q, b.slots, at);
    let kept = run_of(q.c, q.g, q.kv).1;
    lemma_same_caches(q.token(0), b.single(0, 0, 1), r, r, kept);
    lemma_roomy(b, q.token(0), r, kept);
}

/// A machine that holds a cache has room for it.
proof fn lemma_roomy(b: Built, x: Deployed, m: Machine, kv: KvV)
    requires
        caches(x, m, kv),
        x.p == b.p && x.g == b.g,
        x.c.model == b.d && x.c.files == b.files && x.u == b.u,
        equipped(x, m),
        m.mem.contains_key(Buf::Arena),
        arena_len(b.p) <= m.mem[Buf::Arena].len(),
        m.mem.contains_key(Buf::Cell(0)),
        m.mem[Buf::Cell(0)].len() == 1,
        m.mem.contains_key(Buf::Logits),
        m.mem[Buf::Logits].len() == b.d.hyperparams.vocab_size,
    ensures
        roomy(b, m),
{
    assert forall|l: usize| l < b.g.n_layers implies #[trigger] layer_base(b.p, l) + 2 * region(
        b.p,
    ) <= m.mem[Buf::Kv].len() by {
        assert(layer_base(x.p, l) + 2 * region(x.p) <= m.mem[Buf::Kv].len());
    }
}

/// However the workers share the tokens, and whatever the buffers held: after a reset,
/// the calls that are made for the same tokens leave the same logits behind.
pub proof fn law_shares_do_not_show(
    b: Built,
    order: spec_fn(int, nat) -> Seq<int>,
    tokens: Seq<u32>,
    m: Machine,
    other: Machine,
)
    requires
        serves(b, tokens),
        serves(Built { u: Units { order, ..b.u }, ..b }, tokens),
        roomy(b, m),
        roomy(b, other),
    ensures
        ({
            let b2 = Built { u: Units { order, ..b.u }, ..b };
            let calls = calls_for(0, tokens);
            driven(b, calls, tokens, m).mem[Buf::Logits] == driven(
                b2,
                calls,
                tokens,
                other,
            ).mem[Buf::Logits]
        }),
{
    let b2 = Built { u: Units { order, ..b.u }, ..b };
    assert(b2.single(0, 0, 1).c == b.single(0, 0, 1).c);
    assert(roomy(b2, other));
    law_reset_then_prompt(b, tokens, m);
    law_reset_then_prompt(b2, tokens, other);
    assert(b.feed(tokens, 0) == b2.feed(tokens, 0));
}

/// Whether the kernels do for any token alone what the scalar operations do.
pub open spec fn serves_singles(b: Built, rows: int) -> bool {
    forall|token: u32, pos: nat|
        #![trigger b.single(token, pos, rows)]
        multiplies(b.single(token, pos, rows)) && attends_alike(b.single(token, pos, rows))
}

/// A first batch of tokens after a reset, and then tokens one by one: the calls leave
/// behind the interpreter's logits of the last of all tokens, bit for bit.
pub proof fn law_further_tokens(b: Built, first: Seq<u32>, more: Seq<u32>, m: Machine)
    requires
        first.len() > 0,
        serves(b, first),
        serves_singles(b, first.len() as int),
        roomy(b, m),
        run_ready(b.feed(first + more, 0), b.g, b.nothing()),
        run_of(b.feed(first + more, 0), b.g, b.nothing()).0 is Ok,
    ensures
        ({
            let start = driven(b, calls_for(0, first), first, m);
            let r = driven(b, calls_for(first.len() as usize, more), more, start);
            let kept = run_of(b.feed(first + more, 0), b.g, b.nothing()).1;
            &&& r.mem[Buf::Logits] == b.logits(first + more)
            &&& roomy(b, r)
            &&& caches(b.single(0, 0, 1), r, kept)
        }),
    decreases more.len(),
{
    let all = first + more;
    let start = driven(b, calls_for(0, first), first, m);
    let calls = calls_for(first.len() as usize, more);
    assert(all.len() <= usize::MAX);
    if more.len() == 0 {
        law_reset_then_prompt(b, first, m);
        assert(all =~= first);
        assert(calls =~= Seq::<Call>::empty());
    } else {
        let n = all.len();
        let j = (n - 1) as nat;
        let less = more.drop_last();
        let c = b.feed(all, 0);
        let kv = b.nothing();
        law_prefill_then_decode(c, b.g, kv, j);
        let c1 = first_feed(c, j);
        let c2 = second_feed(c, j);
        assert(c1.tokens =~= first + less);
        assert(c1 == b.feed(first + less, 0));
        assert(j * crate::graph::builder::MAX_DIM <= n * crate::graph::builder::MAX_DIM)
            by (nonlinear_arith)
            requires
                j <= n,
        ;
        assert(run_ready(c1, b.g, kv));
        law_further_tokens(b, first, less, m);
        let before = driven(b, calls_for(first.len() as usize, less), less, start);
        lemma_driven_alike(b, calls_for(first.len() as usize, less), less, more, start);
        assert(calls.drop_last() =~= calls_for(first.len() as usize, less));
        let call = Call::Decode { token: more.last(), pos: j as usize };
        assert(calls.last() == call);
        let x = b.single(more.last(), j, first.len() as int);
        assert(c2.tokens =~= seq![more.last()]);
        assert(x.c == c2);
        let mid = run_of(c1, b.g, kv).1;
        assert(mid.len == j);
        assert(1 * crate::graph::builder::MAX_DIM <= n * crate::graph::builder::MAX_DIM)
            by (nonlinear_arith)
            requires
                1 <= n,
        ;
        assert(run_ready(c2, b.g, mid));
        assert(arranged(b.p, b.g, b.d, first.len() as int));
        assert(deployed(x, mid));
        let at = entered(call, more, before);
        lemma_same_caches(b.single(0, 0, 1), x, before, at, mid);
        assert(holds(x, at, 0, Seq::<ArrayV>::empty(), mid));
        law_decode_is_the_interpreter(x, b.slots, mid, at);
        let r = driven(b, calls, more, start);
        assert(r == called(b, call, more, before));
        let kept = run_of(c2, b.g, mid).1;
        lemma_same_caches(x, b.single(0, 0, 1), r, r, kept);
        lemma_roomy(b, x, r, kept);
    }
}

/// Calls for single tokens do not look at the batch that they were made for.
proof fn lemma_driven_alike(
    b: Built,
    calls: Seq<Call>,
    one: Seq<u32>,
    two: Seq<u32>,
    m: Machine,
)
    requires
        forall|i: int| 0 <= i < calls.len() ==> #[trigger] calls[i] is Decode,
    ensures
        driven(b, calls, one, m) == driven(b, calls, two, m),
    decreases calls.len(),
{
    if calls.len() > 0 {
        lemma_driven_alike(b, calls.drop_last(), one, two, m);
        assert(calls.last() == calls[calls.len() - 1]);
    }
}

} // verus!
