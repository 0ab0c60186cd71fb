//! When a compiled model on disk may be loaded: only when its hashes and version
//! fit, or when it was just compiled. What does not fit is discarded and compiled
//! anew.

use vstd::prelude::*;
use vstd::string::StringExecFns;

use crate::codegen::emit::{Meta, MetaV, INFERNO_VERSION};
use crate::engine::cache::{content_hash, hash_text};
use crate::text::{dec, dec_text, text_eq};
use vstd::utf8::encode_utf8;

verus! {

/// What is wrong with an entry before its weights are read, if anything.
pub open spec fn head_fault(m: MetaV, code_exists: bool) -> Option<Seq<char>> {
    if m.inferno_version != INFERNO_VERSION@ {
        Some("inferno_version mismatch"@)
    } else if !code_exists {
        Some("model.so missing"@)
    } else {
        None
    }
}

/// What is wrong with the weights of an entry, if anything; none are there where
/// their file is missing.
pub open spec fn weights_fault(m: MetaV, weights: Option<Seq<u8>>) -> Option<Seq<char>> {
    match weights {
        None => Some("weights.bin missing"@),
        Some(w) => if hash_text(w) != m.weights_hash {
            Some("weights.bin hash mismatch"@)
        } else {
            None
        },
    }
}

/// What is wrong with an entry for a model, if anything.
pub open spec fn model_fault(m: MetaV, model: Seq<u8>) -> Option<Seq<char>> {
    if hash_text(model) != m.model_hash {
        Some("model hash mismatch"@)
    } else {
        None
    }
}

/// What is wrong with an entry, if anything: the description, which may be missing, its
/// version, the code, the weights or the model, in that order.
pub open spec fn entry_fault(
    m: Option<MetaV>,
    code_exists: bool,
    weights: Option<Seq<u8>>,
    model: Seq<u8>,
) -> Option<Seq<char>> {
    match m {
        None => Some("meta.json missing"@),
        Some(m) => match head_fault(m, code_exists) {
            Some(s) => Some(s),
            None => match weights_fault(m, weights) {
                Some(s) => Some(s),
                None => model_fault(m, model),
            },
        },
    }
}

/// An optional description, seen as its model.
pub open spec fn meta_view(o: Option<&Meta>) -> Option<MetaV> {
    match o {
        Some(m) => Some(m@),
        None => None,
    }
}

/// An optional text, seen as its characters.
pub open spec fn fault_view(o: Option<String>) -> Option<Seq<char>> {
    match o {
        Some(s) => Some(s@),
        None => None,
    }
}

/// What is wrong with an entry before its weights are read, if anything.
pub fn verify_head(meta: &Meta, code_exists: bool) -> (r: Option<String>)
    ensures
        fault_view(r) == head_fault(meta@, code_exists),
{
    if !text_eq(meta.inferno_version.as_str(), INFERNO_VERSION) {
        Some("inferno_version mismatch".to_owned())
    } else if !code_exists {
        Some("model.so missing".to_owned())
    } else {
        None
    }
}

/// Optional bytes, seen as a sequence.
pub open spec fn bytes_view(o: Option<&[u8]>) -> Option<Seq<u8>> {
    match o {
        Some(b) => Some(b@),
        None => None,
    }
}

/// What is wrong with the weights of an entry, if anything; none are there where
/// their file is missing.
pub fn verify_weights(meta: &Meta, weights: Option<&[u8]>) -> (r: Option<String>)
    ensures
        fault_view(r) == weights_fault(meta@, bytes_view(weights)),
{
    match weights {
        None => Some("weights.bin missing".to_owned()),
        Some(w) => if text_eq(content_hash(w).as_str(), meta.weights_hash.as_str()) {
            None
        } else {
            Some("weights.bin hash mismatch".to_owned())
        },
    }
}

/// What is wrong with an entry for a model, if anything.
pub fn verify_model(meta: &Meta, model: &[u8]) -> (r: Option<String>)
    ensures
        fault_view(r) == model_fault(meta@, model@),
{
    if text_eq(content_hash(model).as_str(), meta.model_hash.as_str()) {
        None
    } else {
        Some("model hash mismatch".to_owned())
    }
}

/// What is wrong with an entry, if anything.
pub fn verify_cache(
    meta: Option<&Meta>,
    code_exists: bool,
    weights: Option<&[u8]>,
    model: &[u8],
) -> (r: Option<String>)
    ensures
        fault_view(r) == entry_fault(meta_view(meta), code_exists, bytes_view(weights), model@),
{
    let meta = match meta {
        Some(m) => m,
        None => return Some("meta.json missing".to_owned()),
    };
    match verify_head(meta, code_exists) {
        Some(s) => Some(s),
        None => match verify_weights(meta, weights) {
            Some(s) => Some(s),
            None => verify_model(meta, model),
        },
    }
}

/// The description with the hashes of what it describes.
pub open spec fn finalized(m: MetaV, weights: Seq<u8>, model: Seq<u8>, target: Seq<char>) -> MetaV {
    MetaV {
        weights_hash: hash_text(weights),
        model_hash: hash_text(model),
        target_hash: hash_text(encode_utf8(target)),
        ..m
    }
}

/// Fills in the hashes after a compilation.
pub fn finalize_meta(meta: Meta, weights: &[u8], model: &[u8], target: &str) -> (r: Meta)
    ensures
        r@ == finalized(meta@, weights@, model@, target@),
{
    let ghost want = finalized(meta@, weights@, model@, target@);
    let mut r = meta;
    r.weights_hash = content_hash(weights);
    r.model_hash = content_hash(model);
    r.target_hash = content_hash(target.as_bytes());
    assert(r@ =~= want);
    r
}

/// What was just compiled passes the check that a later load makes.
pub proof fn law_fresh_entry_verifies(
    m: MetaV,
    weights: Seq<u8>,
    model: Seq<u8>,
    target: Seq<char>,
)
    requires
        m.inferno_version == INFERNO_VERSION@,
    ensures
        entry_fault(
            Some(finalized(m, weights, model, target)),
            true,
            Some(weights),
            model,
        ) is None,
{
}

/// An entry without weights, or whose weights or model hash differently from what was
/// compiled, does not pass.
pub proof fn law_tampered_entry_is_rejected(
    m: MetaV,
    weights: Seq<u8>,
    model: Seq<u8>,
    target: Seq<char>,
    weights2: Option<Seq<u8>>,
    model2: Seq<u8>,
    code_exists: bool,
)
    requires
        weights2 is None || hash_text(weights2->0) != hash_text(weights) || hash_text(model2) != hash_text(model),
    ensures
        entry_fault(
            Some(finalized(m, weights, model, target)),
            code_exists,
            weights2,
            model2,
        ) is Some,
{
}

/// Where the search for a compiled model stands.
#[derive(Debug, Clone, Copy, PartialEq, Eq, Structural)]
pub enum Stage {
    /// Look for the description of an entry.
    Probe,
    /// Check the entry.
    Verify,
    /// Remove the entry, which did not pass.
    Discard,
    /// Compile into a directory of one's own and fill in the hashes.
    Compile,
    /// Move that directory to where the entry belongs.
    Publish,
    /// Another process was faster: remove one's own directory and check the other's
    /// entry.
    Winner,
    /// Load the entry.
    Load,
    /// Give up with the error at hand.
    Fail,
}

/// What came of the last action.
#[derive(Debug, Clone, Copy, PartialEq, Eq, Structural)]
pub enum Event {
    /// The description is there, or not.
    Found(bool),
    /// The entry passed the check.
    Verified,
    /// The entry did not pass the check.
    Mismatch,
    /// The entry is gone.
    Removed,
    /// The code is compiled and its hashes are filled in.
    Compiled,
    /// The directory was moved.
    Published,
    /// The directory could not be moved; whether there is an entry now.
    Taken(bool),
    /// Something else went wrong.
    Error,
}

/// The next stage.
pub open spec fn next_stage(s: Stage, e: Event) -> Stage {
    match (s, e) {
        (Stage::Probe, Event::Found(true)) => Stage::Verify,
        (Stage::Probe, Event::Found(false)) => Stage::Compile,
        (Stage::Verify, Event::Verified) => Stage::Load,
        (Stage::Verify, Event::Mismatch) => Stage::Discard,
        (Stage::Discard, Event::Removed) => Stage::Compile,
        (Stage::Compile, Event::Compiled) => Stage::Publish,
        (Stage::Publish, Event::Published) => Stage::Load,
        (Stage::Publish, Event::Taken(true)) => Stage::Winner,
        (Stage::Winner, Event::Verified) => Stage::Load,
        (Stage::Load, _) => Stage::Load,
        _ => Stage::Fail,
    }
}

/// The next stage of a search for a compiled model.
pub fn advance(s: Stage, e: Event) -> (r: Stage)
    ensures
        r == next_stage(s, e),
{
    match (s, e) {
        (Stage::Probe, Event::Found(true)) => Stage::Verify,
        (Stage::Probe, Event::Found(false)) => Stage::Compile,
        (Stage::Verify, Event::Verified) => Stage::Load,
        (Stage::Verify, Event::Mismatch) => Stage::Discard,
        (Stage::Discard, Event::Removed) => Stage::Compile,
        (Stage::Compile, Event::Compiled) => Stage::Publish,
        (Stage::Publish, Event::Published) => Stage::Load,
        (Stage::Publish, Event::Taken(true)) => Stage::Winner,
        (Stage::Winner, Event::Verified) => Stage::Load,
        (Stage::Load, _) => Stage::Load,
        _ => Stage::Fail,
    }
}

/// The stage after the first `k` events.
pub open spec fn stage_after(events: Seq<Event>, k: nat) -> Stage
    decreases k,
{
    if k == 0 {
        Stage::Probe
    } else {
        next_stage(stage_after(events, (k - 1) as nat), events[k - 1])
    }
}

/// Nothing is loaded that was not checked or compiled by oneself: a search that gets
/// to load has seen an entry pass, or has published its own.
pub proof fn law_only_trusted_code_is_loaded(events: Seq<Event>, k: nat)
    requires
        k <= events.len(),
        stage_after(events, k) is Load,
    ensures
        exists|i: int|
            0 <= i < k && (#[trigger] events[i] is Verified || events[i] is Published),
    decreases k,
{
    if k > 0 {
        if stage_after(events, (k - 1) as nat) is Load {
            law_only_trusted_code_is_loaded(events, (k - 1) as nat);
            let i = choose|i: int|
                0 <= i < k - 1 && (#[trigger] events[i] is Verified || events[i] is Published);
            assert(events[i] is Verified || events[i] is Published);
        } else {
            assert(events[k - 1] is Verified || events[k - 1] is Published);
        }
    }
}

/// An entry that did not pass is never loaded as it stands: the search goes on to
/// compile, or fails.
pub proof fn law_mismatch_means_compile(events: Seq<Event>, k: nat)
    requires
        0 < k <= events.len(),
        events[k - 1] is Mismatch,
        !(stage_after(events, (k - 1) as nat) is Load),
    ensures
        stage_after(events, k) is Discard || stage_after(events, k) is Fail,
        stage_after(events, k) is Discard && k < events.len() ==> stage_after(events, k + 1) is Compile
            || stage_after(events, k + 1) is Fail,
{
}

/// A search that starts at the probe comes to an end within seven events.
pub proof fn law_search_ends(events: Seq<Event>)
    requires
        events.len() >= 7,
    ensures
        stage_after(events, 7) is Load || stage_after(events, 7) is Fail,
{
    reveal_with_fuel(stage_after, 8);
}

/// The name of the directory in which one process and thread compiles.
pub open spec fn staging_text(key: Seq<char>, pid: nat, thread: Seq<char>) -> Seq<char> {
    key + ".tmp-"@ + dec(pid) + "-"@ + thread
}

/// The name of the directory in which one process and thread compiles; it stands
/// beside the entry.
pub fn staging_name(key: &str, pid: u32, thread: &str) -> (s: String)
    ensures
        s@ == staging_text(key@, pid as nat, thread@),
{
    let mut s = key.to_owned();
    s.append(".tmp-");
    s.append(dec_text(pid as u64).as_str());
    s.append("-");
    s.append(thread);
    s
}

/// A buffer that is too small.
pub open spec fn small_text(what: Seq<char>, have: nat, need: nat) -> Seq<char> {
    what + " too small: "@ + dec(have) + " < "@ + dec(need)
}

/// What is wrong with the buffers of a call, if anything.
pub open spec fn buffer_fault(m: MetaV, kv: nat, arena: nat, logits: nat) -> Option<Seq<char>> {
    if kv < m.kv_total_bytes / 4 {
        Some(small_text("kv buffer"@, kv, (m.kv_total_bytes / 4) as nat))
    } else if arena < m.arena_f32 {
        Some(small_text("arena"@, arena, m.arena_f32 as nat))
    } else if logits < m.vocab {
        Some(small_text("logits_out"@, logits, m.vocab as nat))
    } else {
        None
    }
}

fn small_string(what: &str, have: usize, need: usize) -> (s: String)
    ensures
        s@ == small_text(what@, have as nat, need as nat),
{
    let mut s = what.to_owned();
    s.append(" too small: ");
    s.append(dec_text(have as u64).as_str());
    s.append(" < ");
    s.append(dec_text(need as u64).as_str());
    s
}

/// What is wrong with the buffers of a call, if anything: compiled code writes as
/// much as the description says.
pub fn check_buffers(meta: &Meta, kv: usize, arena: usize, logits: usize) -> (r: Option<String>)
    ensures
        fault_view(r) == buffer_fault(meta@, kv as nat, arena as nat, logits as nat),
{
    if kv < meta.kv_total_bytes / 4 {
        Some(small_string("kv buffer", kv, meta.kv_total_bytes / 4))
    } else if arena < meta.arena_f32 {
        Some(small_string("arena", arena, meta.arena_f32))
    } else if logits < meta.vocab {
        Some(small_string("logits_out", logits, meta.vocab))
    } else {
        None
    }
}

/// What is wrong with the positions of a batch, if anything.
pub open spec fn prefill_fault(m: MetaV, pos: nat, n: nat) -> Option<Seq<char>> {
    if pos + n > usize::MAX {
        Some("prefill: pos_off + tokens overflows usize"@)
    } else if pos + n > m.max_seq_len {
        Some(
            "prefill: pos_off ("@ + dec(pos) + ") + tokens ("@ + dec(n)
                + ") exceeds max_seq_len ("@ + dec(m.max_seq_len as nat) + ")"@,
        )
    } else {
        None
    }
}

/// What is wrong with the positions of a batch, if anything: the cache has room up
/// to the longest sequence.
pub fn check_prefill(meta: &Meta, pos: usize, n: usize) -> (r: Option<String>)
    ensures
        fault_view(r) == prefill_fault(meta@, pos as nat, n as nat),
{
    match pos.checked_add(n) {
        None => Some("prefill: pos_off + tokens overflows usize".to_owned()),
        Some(end) => if end > meta.max_seq_len {
            let mut s = "prefill: pos_off (".to_owned();
            s.append(dec_text(pos as u64).as_str());
            s.append(") + tokens (");
            s.append(dec_text(n as u64).as_str());
            s.append(") exceeds max_seq_len (");
            s.append(dec_text(meta.max_seq_len as u64).as_str());
            s.append(")");
            Some(s)
        } else {
            None
        },
    }
}

/// What is wrong with the position of a token, if anything.
pub open spec fn decode_fault(m: MetaV, pos: nat) -> Option<Seq<char>> {
    if pos >= m.max_seq_len {
        Some(
            "decode_step: pos ("@ + dec(pos) + ") >= max_seq_len ("@ + dec(m.max_seq_len as nat)
                + ")"@,
        )
    } else {
        None
    }
}

/// What is wrong with the position of a token, if anything.
pub fn check_decode(meta: &Meta, pos: usize) -> (r: Option<String>)
    ensures
        fault_view(r) == decode_fault(meta@, pos as nat),
{
    if pos >= meta.max_seq_len {
        let mut s = "decode_step: pos (".to_owned();
        s.append(dec_text(pos as u64).as_str());
        s.append(") >= max_seq_len (");
        s.append(dec_text(meta.max_seq_len as u64).as_str());
        s.append(")");
        Some(s)
    } else {
        None
    }
}

} // verus!
