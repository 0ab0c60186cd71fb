//! What the engine decides, case by case: which entries pass, which buffers and positions are
//! large enough, and which calls are made.

use vstd::prelude::*;
use vstd::utf8::encode_utf8;

use crate::bytes::{le_bytes, lemma_le_bytes_len};
use crate::codegen::emit::{CompileOptions, MetaV};
use crate::codegen::plan::PlanV;
use crate::engine::artifact::{
    buffer_fault, decode_fault, entry_fault, finalized, next_stage, prefill_fault, staging_text,
    Event, Stage,
};
use crate::engine::backend::{calls_for, Call};
use crate::engine::cache::{cache_path, hash_text, hex, key_input};
use crate::engine::files::{frame, path_le, FileV};
use crate::engine::session::{all_bytes, last_slot, slot_bytes, weight_label};
use crate::formats::desc::ModelV;
use crate::text::dec;

verus! {

/// An entry passes if and only if its description is there and of this version, its code and
/// its weights are there, and weights and model have the hashes that it says; otherwise the
/// first of these that fails is named.
pub proof fn law_which_entries_pass(
    m: Option<MetaV>,
    code_exists: bool,
    weights: Option<Seq<u8>>,
    model: Seq<u8>,
)
    ensures
        ({
            let r = entry_fault(m, code_exists, weights, model);
            let fits = m is Some && m->0.inferno_version == "0.1.0"@;
            let same = weights is Some && hash_text(weights->0) == m->0.weights_hash;
            let ours = hash_text(model) == m->0.model_hash;
            &&& r is None <==> fits && code_exists && same && ours
            &&& m is None ==> r == Some("meta.json missing"@)
            &&& m is Some && !fits ==> r == Some("inferno_version mismatch"@)
            &&& fits && !code_exists ==> r == Some("model.so missing"@)
            &&& fits && code_exists && weights is None ==> r == Some("weights.bin missing"@)
            &&& fits && code_exists && weights is Some && !same ==> r == Some(
                "weights.bin hash mismatch"@,
            )
            &&& fits && code_exists && same && !ours ==> r == Some("model hash mismatch"@)
        }),
{
}

/// What is filled in after a compilation: the hashes of the weights, of the model and of the
/// machine, each in its own place; all else stays.
pub proof fn law_hashes_are_filled_in(m: MetaV, weights: Seq<u8>, model: Seq<u8>, target: Seq<char>)
    ensures
        ({
            let r = finalized(m, weights, model, target);
            &&& r.weights_hash == hash_text(weights)
            &&& r.model_hash == hash_text(model)
            &&& r.target_hash == hash_text(encode_utf8(target))
            &&& r.inferno_version == m.inferno_version
            &&& (r.vocab, r.n_layers, r.arena_f32, r.kv_total_bytes, r.max_seq_len, r.prefill_tile)
                == (m.vocab, m.n_layers, m.arena_f32, m.kv_total_bytes, m.max_seq_len, m.prefill_tile)
            &&& r.entry_prefill == m.entry_prefill
            &&& r.entry_decode == m.entry_decode
            &&& r.profile_slots == m.profile_slots
        }),
{
}

/// How a search goes on: what is found is checked, what passes is loaded, what does not pass is
/// removed and compiled, what is compiled is published and loaded, and where another was
/// faster, that one's entry is checked. Anything else fails.
pub proof fn law_search_step_by_step(e: Event)
    ensures
        next_stage(Stage::Probe, Event::Found(true)) == Stage::Verify,
        next_stage(Stage::Probe, Event::Found(false)) == Stage::Compile,
        next_stage(Stage::Verify, Event::Verified) == Stage::Load,
        next_stage(Stage::Verify, Event::Mismatch) == Stage::Discard,
        next_stage(Stage::Discard, Event::Removed) == Stage::Compile,
        next_stage(Stage::Compile, Event::Compiled) == Stage::Publish,
        next_stage(Stage::Publish, Event::Published) == Stage::Load,
        next_stage(Stage::Publish, Event::Taken(true)) == Stage::Winner,
        next_stage(Stage::Winner, Event::Verified) == Stage::Load,
        next_stage(Stage::Load, e) == Stage::Load,
        next_stage(Stage::Fail, e) == Stage::Fail,
        !(e is Found) ==> next_stage(Stage::Probe, e) == Stage::Fail,
        !(e is Verified) && !(e is Mismatch) ==> next_stage(Stage::Verify, e) == Stage::Fail,
        !(e is Removed) ==> next_stage(Stage::Discard, e) == Stage::Fail,
        !(e is Compiled) ==> next_stage(Stage::Compile, e) == Stage::Fail,
        !(e is Published) && e != Event::Taken(true) ==> next_stage(Stage::Publish, e) == Stage::Fail,
        !(e is Verified) ==> next_stage(Stage::Winner, e) == Stage::Fail,
{
}

/// Buffers pass if and only if each is as long as the description says: the cache in numbers
/// of four bytes, the arena and the logits.
pub proof fn law_which_buffers_pass(m: MetaV, kv: nat, arena: nat, logits: nat)
    ensures
        buffer_fault(m, kv, arena, logits) is None <==> 4 * kv + 3 >= m.kv_total_bytes && arena
            >= m.arena_f32 && logits >= m.vocab,
        4 * kv + 3 < m.kv_total_bytes ==> buffer_fault(m, kv, arena, logits) == Some(
            "kv buffer"@ + " too small: "@ + dec(kv) + " < "@ + dec((m.kv_total_bytes / 4) as nat),
        ),
        4 * kv + 3 >= m.kv_total_bytes && arena < m.arena_f32 ==> buffer_fault(
            m,
            kv,
            arena,
            logits,
        ) == Some("arena"@ + " too small: "@ + dec(arena) + " < "@ + dec(m.arena_f32 as nat)),
        4 * kv + 3 >= m.kv_total_bytes && arena >= m.arena_f32 && logits < m.vocab ==> buffer_fault(
            m,
            kv,
            arena,
            logits,
        ) == Some("logits_out"@ + " too small: "@ + dec(logits) + " < "@ + dec(m.vocab as nat)),
{
}

/// Tokens pass if and only if they end within the longest sequence.
pub proof fn law_which_positions_pass(m: MetaV, pos: nat, n: nat)
    ensures
        prefill_fault(m, pos, n) is None <==> pos + n <= m.max_seq_len,
        decode_fault(m, pos) is None <==> pos < m.max_seq_len,
        decode_fault(m, pos) is None <==> prefill_fault(m, pos, 1) is None,
{
}

/// A first batch is one call from the start on; tokens behind others are one call each, in
/// order, each at the position behind the one before.
pub proof fn law_calls_follow_the_tokens(pos: usize, tokens: Seq<u32>, i: int)
    requires
        pos + tokens.len() <= usize::MAX,
    ensures
        pos == 0 ==> calls_for(pos, tokens).len() == 1 && calls_for(pos, tokens)[0]
            == (Call::Prefill { pos_off: 0 }),
        pos > 0 ==> calls_for(pos, tokens).len() == tokens.len(),
        pos > 0 && 0 <= i < tokens.len() ==> match calls_for(pos, tokens)[i] {
            Call::Decode { token, pos: p } => token == tokens[i] && p == pos + i,
            Call::Prefill { .. } => false,
        },
{
}

/// The value of a hexadecimal digit.
pub open spec fn digit_value(c: char) -> int {
    if '0' <= c && c <= '9' {
        c as int - 48
    } else {
        c as int - 87
    }
}

/// Hashes are written in lower case, two digits a byte, the higher one first.
pub proof fn law_hex_digits(bytes: Seq<u8>, i: int)
    requires
        0 <= i < bytes.len(),
    ensures
        ({
            let h = hex(bytes);
            let (a, b) = (h[2 * i], h[2 * i + 1]);
            &&& h.len() == 2 * bytes.len()
            &&& ('0' <= a && a <= '9') || ('a' <= a && a <= 'f')
            &&& ('0' <= b && b <= '9') || ('a' <= b && b <= 'f')
            &&& 16 * digit_value(a) + digit_value(b) == bytes[i]
        }),
{
    let h = hex(bytes);
    assert((2 * i) / 2 == i && (2 * i + 1) / 2 == i);
    assert((2 * i) % 2 == 0 && (2 * i + 1) % 2 == 1);
}

/// What a key is a hash of, piece by piece: the hash of the model, the machine, the longest
/// sequence, the two versions, whether cycles are counted, and the length of a tile.
pub proof fn law_key_input_by_piece(
    model_hash: Seq<char>,
    target: Seq<char>,
    max_seq_len: nat,
    opts: CompileOptions,
)
    ensures
        ({
            let k = key_input(model_hash, target, max_seq_len, opts);
            let a = encode_utf8(model_hash).len() as int;
            let b = a + encode_utf8(target).len();
            let c = b + 8 + encode_utf8("0.1.0"@).len();
            let d = c + encode_utf8("8"@).len();
            &&& k.len() == d + 9
            &&& k.subrange(0, a) == encode_utf8(model_hash)
            &&& k.subrange(a, b) == encode_utf8(target)
            &&& k.subrange(b, b + 8) == le_bytes(max_seq_len, 8)
            &&& k.subrange(b + 8, c) == encode_utf8("0.1.0"@)
            &&& k.subrange(c, d) == encode_utf8("8"@)
            &&& k[d] == (if opts.profile {
                1u8
            } else {
                0u8
            })
            &&& k.subrange(d + 1, d + 9) == le_bytes(opts.prefill_tile as nat, 8)
        }),
{
    let k = key_input(model_hash, target, max_seq_len, opts);
    let a = encode_utf8(model_hash).len() as int;
    let b = a + encode_utf8(target).len();
    let c = b + 8 + encode_utf8("0.1.0"@).len();
    let d = c + encode_utf8("8"@).len();
    lemma_le_bytes_len(max_seq_len, 8);
    lemma_le_bytes_len(opts.prefill_tile as nat, 8);
    assert(k.subrange(0, a) =~= encode_utf8(model_hash));
    assert(k.subrange(a, b) =~= encode_utf8(target));
    assert(k.subrange(b, b + 8) =~= le_bytes(max_seq_len, 8));
    assert(k.subrange(b + 8, c) =~= encode_utf8("0.1.0"@));
    assert(k.subrange(c, d) =~= encode_utf8("8"@));
    assert(k.subrange(d + 1, d + 9) =~= le_bytes(opts.prefill_tile as nat, 8));
}

/// Where an entry is kept: below the cache directory that is named, else below `.cache` at
/// home, else below `.cache` here; in a directory of its own below `inferno`.
pub proof fn law_where_entries_are_kept(d: Seq<char>, home: Option<Seq<char>>, key: Seq<char>)
    ensures
        cache_path(Some(d), home, key) == seq![d, "inferno"@, key],
        cache_path(None, Some(d), key) == seq![d, ".cache"@, "inferno"@, key],
        cache_path(None, None, key) == seq![".cache"@, "inferno"@, key],
{
    assert(cache_path(Some(d), home, key) =~= seq![d, "inferno"@, key]);
    assert(cache_path(None, Some(d), key) =~= seq![d, ".cache"@, "inferno"@, key]);
    assert(cache_path(None, None, key) =~= seq![".cache"@, "inferno"@, key]);
}

/// The directory in which a thread compiles starts with the key, and names the process and the
/// thread.
pub proof fn law_staging_names(key: Seq<char>, pid: nat, thread: Seq<char>)
    ensures
        ({
            let s = staging_text(key, pid, thread);
            let n = dec(pid).len() as int;
            let k = key.len() as int;
            &&& s.take(k) == key
            &&& s.subrange(k, k + 5) == ".tmp-"@
            &&& s.subrange(k + 5, k + 5 + n) == dec(pid)
            &&& s[k + 5 + n] == '-'
            &&& s.skip(k + 6 + n) == thread
        }),
{
    reveal_strlit(".tmp-");
    reveal_strlit("-");
    let s = staging_text(key, pid, thread);
    let n = dec(pid).len() as int;
    let k = key.len() as int;
    assert(s.take(k) =~= key);
    assert(s.subrange(k, k + 5) =~= ".tmp-"@);
    assert(s.subrange(k + 5, k + 5 + n) =~= dec(pid));
    assert(s.skip(k + 6 + n) =~= thread);
}

/// A file stands in the content with its path, a zero, its length and its bytes.
pub proof fn law_framed_file_by_piece(f: FileV)
    ensures
        ({
            let s = frame(f);
            let n = f.path.len() as int;
            &&& s.len() == n + 9 + f.bytes.len()
            &&& s.take(n) == f.path
            &&& s[n] == 0
            &&& s.subrange(n + 1, n + 9) == le_bytes(f.bytes.len(), 8)
            &&& s.skip(n + 9) == f.bytes
        }),
{
    let s = frame(f);
    let n = f.path.len() as int;
    lemma_le_bytes_len(f.bytes.len(), 8);
    assert(s.take(n) =~= f.path);
    assert(s.subrange(n + 1, n + 9) =~= le_bytes(f.bytes.len(), 8));
    assert(s.skip(n + 9) =~= f.bytes);
}

/// Paths stand in order part by part: a path comes before what goes on behind it, and where two
/// first differ, the one whose part ends there comes first, else the one with the smaller
/// byte.
pub proof fn law_paths_are_ordered(a: Seq<u8>, b: Seq<u8>)
    ensures
        path_le(a, b) <==> exists|p: int|
            0 <= p <= a.len() && p <= b.len() && #[trigger] a.take(p) == b.take(p) && (p == a.len()
                || p < b.len() && b[p] != 0x2F && (a[p] == 0x2F || a[p] < b[p])),
    decreases a.len(),
{
    if a.len() == 0 {
        assert(a.take(0) =~= b.take(0));
    } else if b.len() > 0 && a[0] == b[0] {
        let c = a.skip(1);
        let d = b.skip(1);
        law_paths_are_ordered(c, d);
        if path_le(c, d) {
            let p = choose|p: int|
                0 <= p <= c.len() && p <= d.len() && #[trigger] c.take(p) == d.take(p) && (p
                    == c.len() || p < d.len() && d[p] != 0x2F && (c[p] == 0x2F || c[p] < d[p]));
            assert forall|i: int| 0 <= i < p + 1 implies #[trigger] a.take(p + 1)[i] == b.take(
                p + 1,
            )[i] by {
                if i > 0 {
                    assert(c.take(p)[i - 1] == d.take(p)[i - 1]);
                }
            }
            assert(a.take(p + 1) =~= b.take(p + 1));
        }
        if exists|p: int|
            0 <= p <= a.len() && p <= b.len() && #[trigger] a.take(p) == b.take(p) && (p == a.len()
                || p < b.len() && b[p] != 0x2F && (a[p] == 0x2F || a[p] < b[p])) {
            let p = choose|p: int|
                0 <= p <= a.len() && p <= b.len() && #[trigger] a.take(p) == b.take(p) && (p
                    == a.len() || p < b.len() && b[p] != 0x2F && (a[p] == 0x2F || a[p] < b[p]));
            assert(p > 0);
            assert forall|i: int| 0 <= i < p - 1 implies #[trigger] c.take(p - 1)[i] == d.take(
                p - 1,
            )[i] by {
                assert(a.take(p)[i + 1] == b.take(p)[i + 1]);
            }
            assert(c.take(p - 1) =~= d.take(p - 1));
        }
    } else {
        assert forall|p: int|
            0 < p <= a.len() && p <= b.len() implies #[trigger] a.take(p) != b.take(p) by {
            assert(a.take(p)[0] == a[0] && b.take(p)[0] == b[0]);
        }
        assert(a.take(0) =~= b.take(0));
    }
}

/// The bytes of the first `k` slots.
pub open spec fn slots_total(p: PlanV, m: ModelV, slots: Seq<Seq<char>>, n: nat, k: nat) -> nat
    decreases k,
{
    if k == 0 {
        0
    } else {
        slots_total(p, m, slots, n, (k - 1) as nat) + slot_bytes(p, m, slots, k - 1, n)
    }
}

/// No bytes are counted twice or lost: where every product has a slot, the slots' bytes add up
/// to those of all weights.
pub proof fn law_slots_share_the_bytes(p: PlanV, m: ModelV, slots: Seq<Seq<char>>, n: nat)
    requires
        n <= p.weights.len(),
        forall|i: int|
            0 <= i < n ==> slots.contains(#[trigger] weight_label(p.weights[i], m)),
    ensures
        slots_total(p, m, slots, n, slots.len()) == all_bytes(p, n),
    decreases n,
{
    if n > 0 {
        let j = (n - 1) as nat;
        law_slots_share_the_bytes(p, m, slots, j);
        let label = weight_label(p.weights[n - 1], m);
        assert(slots.contains(label));
        let i = choose|i: int| 0 <= i < slots.len() && slots[i] == label;
        lemma_last_slot(slots, label, slots.len(), i);
        let at = last_slot(slots, label, slots.len())->0;
        lemma_one_more(p, m, slots, n, at, slots.len());
    } else {
        lemma_no_bytes(p, m, slots, slots.len());
    }
}

proof fn lemma_no_bytes(p: PlanV, m: ModelV, slots: Seq<Seq<char>>, k: nat)
    ensures
        slots_total(p, m, slots, 0, k) == 0,
    decreases k,
{
    if k > 0 {
        lemma_no_bytes(p, m, slots, (k - 1) as nat);
    }
}

/// A label that is there has a last slot.
proof fn lemma_last_slot(slots: Seq<Seq<char>>, label: Seq<char>, k: nat, i: int)
    requires
        0 <= i < k <= slots.len(),
        slots[i] == label,
    ensures
        last_slot(slots, label, k) is Some,
        i <= last_slot(slots, label, k)->0 < k,
        slots[last_slot(slots, label, k)->0 as int] == label,
    decreases k,
{
    if slots[k - 1] != label {
        lemma_last_slot(slots, label, (k - 1) as nat, i);
    }
}

/// One more weight adds its bytes to its slot.
proof fn lemma_one_more(p: PlanV, m: ModelV, slots: Seq<Seq<char>>, n: nat, at: nat, k: nat)
    requires
        0 < n,
        k <= slots.len(),
        last_slot(slots, weight_label(p.weights[n - 1], m), slots.len()) == Some(at),
    ensures
        slots_total(p, m, slots, n, k) == slots_total(p, m, slots, (n - 1) as nat, k) + if at < k {
            p.weights[n - 1].len as nat
        } else {
            0
        },
    decreases k,
{
    if k > 0 {
        lemma_one_more(p, m, slots, n, at, (k - 1) as nat);
    }
}

} // verus!
