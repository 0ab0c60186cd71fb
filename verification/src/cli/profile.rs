//! Profiles: cycles by step, by bucket of the thread pool, and inside attention.

use vstd::prelude::*;
use vstd::string::StringExecFns;

use crate::cli::num::{said, say, says, Num};
use crate::text::{append_left, append_right, at_left, at_right, dec, dec_text, strings_view};

verus! {

/// The sum of the first `k` counts.
pub open spec fn sum_to(counts: Seq<u64>, k: nat) -> nat
    decreases k,
{
    if k == 0 {
        0
    } else {
        sum_to(counts, (k - 1) as nat) + counts[k - 1] as nat
    }
}

proof fn lemma_sum_grows(counts: Seq<u64>, k: nat, n: nat)
    requires
        k <= n,
    ensures
        sum_to(counts, k) <= sum_to(counts, n),
    decreases n - k,
{
    if k < n {
        lemma_sum_grows(counts, k, (n - 1) as nat);
    }
}

fn total_of(counts: &Vec<u64>) -> (t: u64)
    requires
        sum_to(counts@, counts@.len()) <= u64::MAX,
    ensures
        t == sum_to(counts@, counts@.len()),
{
    let mut t: u64 = 0;
    let mut i: usize = 0;
    while i < counts.len()
        invariant
            i <= counts@.len(),
            sum_to(counts@, counts@.len()) <= u64::MAX,
            t == sum_to(counts@, i as nat),
        decreases counts.len() - i,
    {
        proof {
            lemma_sum_grows(counts@, (i + 1) as nat, counts@.len());
        }
        t = t + counts[i];
        i += 1;
    }
    t
}

/// Whether row `i` is printed before row `j`: the larger count first, and of equal
/// ones the earlier slot.
pub open spec fn before(counts: Seq<u64>, i: usize, j: usize) -> bool {
    counts[i as int] > counts[j as int] || (counts[i as int] == counts[j as int] && i < j)
}

/// Whether rows are in the order in which they are printed.
pub open spec fn ranked(counts: Seq<u64>, rows: Seq<usize>) -> bool {
    forall|a: int, b: int| 0 <= a < b < rows.len() ==> before(counts, #[trigger] rows[a], #[trigger] rows[b])
}

/// The places of the first `k` counts, the largest first, with row `k - 1` put in
/// front of the first that does not come before it.
pub open spec fn ranking(counts: Seq<u64>, k: nat) -> Seq<usize>
    decreases k,
{
    if k == 0 {
        Seq::empty()
    } else {
        let r = ranking(counts, (k - 1) as nat);
        let i = (k - 1) as usize;
        r.insert(place(counts, r, i, 0) as int, i)
    }
}

/// The first place from `at` on whose row does not come before row `i`.
pub open spec fn place(counts: Seq<u64>, r: Seq<usize>, i: usize, at: nat) -> nat
    decreases r.len() - at,
{
    if at >= r.len() {
        r.len()
    } else if before(counts, r[at as int], i) {
        place(counts, r, i, at + 1)
    } else {
        at
    }
}

proof fn lemma_place(counts: Seq<u64>, r: Seq<usize>, i: usize, at: nat)
    requires
        at <= r.len(),
        forall|a: int| 0 <= a < at ==> before(counts, #[trigger] r[a], i),
    ensures
        at <= place(counts, r, i, at) <= r.len(),
        forall|a: int| 0 <= a < place(counts, r, i, at) ==> before(counts, #[trigger] r[a], i),
        place(counts, r, i, at) < r.len() ==> !before(
            counts,
            r[place(counts, r, i, at) as int],
            i,
        ),
    decreases r.len() - at,
{
    if at < r.len() && before(counts, r[at as int], i) {
        lemma_place(counts, r, i, at + 1);
    }
}

/// Rows come out by descending count, equal ones in the order of their slots, and
/// each row once.
pub proof fn law_rows_are_ranked(counts: Seq<u64>, k: nat)
    requires
        k <= counts.len() <= usize::MAX,
    ensures
        ranking(counts, k).len() == k,
        ranked(counts, ranking(counts, k)),
        forall|a: int| 0 <= a < k ==> (#[trigger] ranking(counts, k)[a]) < k,
        forall|i: usize| i < k ==> #[trigger] ranking(counts, k).contains(i),
    decreases k,
{
    if k > 0 {
        let k1 = (k - 1) as nat;
        law_rows_are_ranked(counts, k1);
        let r = ranking(counts, k1);
        let i = k1 as usize;
        lemma_place(counts, r, i, 0);
        let at = place(counts, r, i, 0) as int;
        let n = r.insert(at, i);
        assert forall|a: int, b: int| 0 <= a < b < n.len() implies before(
            counts,
            #[trigger] n[a],
            #[trigger] n[b],
        ) by {
            if b < at {
                assert(before(counts, r[a], r[b]));
            } else if b == at {
                assert(before(counts, r[a], i));
            } else {
                assert(n[b] == r[b - 1]);
                if a < at {
                    assert(before(counts, r[a], r[b - 1]));
                } else if a == at {
                    assert(!before(counts, r[at], i));
                    assert(r[at] < i);
                    if at < b - 1 {
                        assert(before(counts, r[at], r[b - 1]));
                    }
                } else {
                    assert(n[a] == r[a - 1]);
                    assert(before(counts, r[a - 1], r[b - 1]));
                }
            }
        }
        assert forall|x: usize| x < k implies #[trigger] n.contains(x) by {
            if x == i {
                assert(n[at] == i);
            } else {
                assert(r.contains(x));
                let p = choose|p: int| 0 <= p < r.len() && r[p] == x;
                if p < at {
                    assert(n[p] == x);
                } else {
                    assert(n[p + 1] == x);
                }
            }
        }
    }
}

/// The rows in the order in which they are printed.
fn rank_rows(counts: &Vec<u64>) -> (r: Vec<usize>)
    ensures
        r@ == ranking(counts@, counts@.len()),
        forall|a: int| 0 <= a < r@.len() ==> (#[trigger] r@[a]) < counts@.len(),
        r@.len() == counts@.len(),
{
    let n: usize = counts.len();
    let mut r: Vec<usize> = Vec::new();
    let mut i: usize = 0;
    while i < n
        invariant
            i <= n == counts@.len(),
            r@ == ranking(counts@, i as nat),
        decreases n - i,
    {
        let mut at: usize = 0;
        proof {
            law_rows_are_ranked(counts@, i as nat);
        }
        while at < r.len() && (counts[r[at]] > counts[i] || (counts[r[at]] == counts[i] && r[at]
            < i))
            invariant
                i < n == counts@.len(),
                at <= r@.len(),
                forall|a: int| 0 <= a < r@.len() ==> (#[trigger] r@[a]) < i,
                place(counts@, r@, i, 0) == place(counts@, r@, i, at as nat),
            decreases r.len() - at,
        {
            at += 1;
        }
        r.insert(at, i);
        i += 1;
    }
    proof {
        law_rows_are_ranked(counts@, n as nat);
    }
    r
}

/// The text of the first `k` rows of a profile.
pub open spec fn rows_text<F: Fn(Num) -> Option<String>>(
    w: F,
    slots: Seq<Seq<char>>,
    counts: Seq<u64>,
    bytes: Seq<u64>,
    secs: u64,
    k: nat,
) -> Seq<char>
    decreases k,
{
    if k == 0 {
        Seq::empty()
    } else {
        let i = ranking(counts, counts.len())[k - 1] as int;
        let whole = sum_to(counts, counts.len()) as u64;
        rows_text(w, slots, counts, bytes, secs, (k - 1) as nat) + row_text(
            w,
            slots[i],
            counts[i],
            bytes[i],
            whole,
            secs,
        )
    }
}

/// A row of a profile: the name of the slot, its cycles, its share and its rate.
pub open spec fn row_text<F: Fn(Num) -> Option<String>>(
    w: F,
    name: Seq<char>,
    c: u64,
    bytes: u64,
    whole: u64,
    secs: u64,
) -> Seq<char> {
    "  "@ + at_left(name, 28) + " "@ + at_right(dec(c as nat), 14) + " "@ + at_right(
        share_text(w, c, whole),
        6,
    ) + "%  "@ + at_right(rate_text(w, bytes, c, whole, secs), 10) + "\n"@
}

/// A share in percent.
pub open spec fn share_text<F: Fn(Num) -> Option<String>>(w: F, part: u64, whole: u64) -> Seq<char> {
    if whole > 0 {
        said(w, Num::Percent { part, whole })
    } else {
        "0.0"@
    }
}

/// A rate, or a dash where nothing is read.
pub open spec fn rate_text<F: Fn(Num) -> Option<String>>(
    w: F,
    bytes: u64,
    part: u64,
    whole: u64,
    secs: u64,
) -> Seq<char> {
    if bytes > 0 && part > 0 {
        said(w, Num::Rate { bytes, part, whole, secs })
    } else {
        "-"@
    }
}

/// A profile: a head, and a row for each slot, the most expensive first.
pub open spec fn profile_text<F: Fn(Num) -> Option<String>>(
    w: F,
    phase: Seq<char>,
    slots: Seq<Seq<char>>,
    counts: Seq<u64>,
    bytes: Seq<u64>,
    secs: u64,
) -> Seq<char> {
    "profile ["@ + phase + "] "@ + said(w, Num::Secs(secs)) + "s wall, "@ + dec(
        sum_to(counts, counts.len()),
    ) + " cyc total\n"@ + "  "@ + at_left("op"@, 28) + " "@ + at_right("cycles"@, 14) + " "@
        + at_right("share"@, 7) + "  "@ + at_right("GB/s"@, 10) + "\n"@ + rows_text(
        w,
        slots,
        counts,
        bytes,
        secs,
        counts.len(),
    )
}

fn share_string<F: Fn(Num) -> Option<String>>(w: &F, part: u64, whole: u64) -> (s: String)
    requires
        says(*w),
    ensures
        s@ == share_text(*w, part, whole),
{
    if whole > 0 {
        say(w, Num::Percent { part, whole })
    } else {
        "0.0".to_owned()
    }
}

fn push_row<F: Fn(Num) -> Option<String>>(
    s: &mut String,
    w: &F,
    name: &str,
    c: u64,
    bytes: u64,
    whole: u64,
    secs: u64,
)
    requires
        says(*w),
    ensures
        final(s)@ == old(s)@ + row_text(*w, name@, c, bytes, whole, secs),
{
    let ghost before = s@;
    s.append("  ");
    append_left(s, name, 28);
    s.append(" ");
    append_right(s, dec_text(c).as_str(), 14);
    s.append(" ");
    append_right(s, share_string(w, c, whole).as_str(), 6);
    s.append("%  ");
    let rate = if bytes > 0 && c > 0 {
        say(w, Num::Rate { bytes, part: c, whole, secs })
    } else {
        "-".to_owned()
    };
    append_right(s, rate.as_str(), 10);
    s.append("\n");
    assert(s@ =~= before + row_text(*w, name@, c, bytes, whole, secs));
}

/// A profile of a phase: for each slot its cycles, its share of all, and for
/// products how fast weights were read. `secs` is the duration of the phase, as
/// double-precision bits; `w` writes the computed numbers.
pub fn render<F: Fn(Num) -> Option<String>>(
    phase: &str,
    slots: &Vec<String>,
    counts: &Vec<u64>,
    bytes: &Vec<u64>,
    secs: u64,
    w: &F,
) -> (s: String)
    requires
        says(*w),
        slots@.len() == counts@.len() == bytes@.len(),
        sum_to(counts@, counts@.len()) <= u64::MAX,
    ensures
        s@ == profile_text(*w, phase@, strings_view(slots@), counts@, bytes@, secs),
{
    let whole: u64 = total_of(counts);
    let rows = rank_rows(counts);
    let ghost sv = strings_view(slots@);
    let mut s = "profile [".to_owned();
    s.append(phase);
    s.append("] ");
    s.append(say(w, Num::Secs(secs)).as_str());
    s.append("s wall, ");
    s.append(dec_text(whole).as_str());
    s.append(" cyc total\n");
    s.append("  ");
    append_left(&mut s, "op", 28);
    s.append(" ");
    append_right(&mut s, "cycles", 14);
    s.append(" ");
    append_right(&mut s, "share", 7);
    s.append("  ");
    append_right(&mut s, "GB/s", 10);
    s.append("\n");
    let ghost head = s@;
    let n: usize = rows.len();
    let mut k: usize = 0;
    assert(s@ =~= head + rows_text(*w, sv, counts@, bytes@, secs, 0));
    while k < n
        invariant
            says(*w),
            slots@.len() == counts@.len() == bytes@.len(),
            sv == strings_view(slots@),
            k <= n == rows@.len(),
            n == counts@.len(),
            rows@ == ranking(counts@, counts@.len()),
            forall|a: int| 0 <= a < rows@.len() ==> (#[trigger] rows@[a]) < counts@.len(),
            whole == sum_to(counts@, counts@.len()),
            s@ == head + rows_text(*w, sv, counts@, bytes@, secs, k as nat),
        decreases n - k,
    {
        let i: usize = rows[k];
        proof {
            assert(sv[i as int] == slots@[i as int]@);
        }
        push_row(&mut s, w, slots[i].as_str(), counts[i], bytes[i], whole, secs);
        k += 1;
        assert(s@ =~= head + rows_text(*w, sv, counts@, bytes@, secs, k as nat));
    }
    s
}

/// A row of the attention profile.
pub open spec fn attn_row(name: Seq<char>, c: u64) -> Seq<char> {
    at_left(name, 13) + " "@ + at_right(dec(c as nat), 14) + "\n"@
}

/// The profile of the parts of attention.
pub open spec fn attn_text(scores: u64, softmax: u64, output: u64) -> Seq<char> {
    "attn [prefill sub-brackets] "@ + dec((scores + softmax + output) as nat)
        + " cyc instrumented\n"@ + attn_row("attn:scores"@, scores) + attn_row(
        "attn:softmax"@,
        softmax,
    ) + attn_row("attn:output"@, output)
}

fn push_attn_row(s: &mut String, name: &str, c: u64)
    ensures
        final(s)@ == old(s)@ + attn_row(name@, c),
{
    let ghost before = s@;
    append_left(s, name, 13);
    s.append(" ");
    append_right(s, dec_text(c).as_str(), 14);
    s.append("\n");
    assert(s@ =~= before + attn_row(name@, c));
}

/// The profile of the parts of attention: scores, softmax and output. Each row
/// starts with its name.
pub fn render_attn_subprofile(parts: (u64, u64, u64)) -> (s: String)
    requires
        parts.0 + parts.1 + parts.2 <= u64::MAX,
    ensures
        s@ == attn_text(parts.0, parts.1, parts.2),
{
    let (scores, softmax, output) = parts;
    let mut s = "attn [prefill sub-brackets] ".to_owned();
    s.append(dec_text(scores + softmax + output).as_str());
    s.append(" cyc instrumented\n");
    push_attn_row(&mut s, "attn:scores", scores);
    push_attn_row(&mut s, "attn:softmax", softmax);
    push_attn_row(&mut s, "attn:output", output);
    s
}

/// What the thread pool counted over the dispatches of attention.
#[derive(Debug, PartialEq, Eq)]
pub struct PoolProf {
    pub calls: u64,
    pub publish_cyc: u64,
    pub kernel0_cyc: u64,
    pub drain_cyc: u64,
    pub wake_max_cyc: u64,
    pub wake_parked_cyc: u64,
    pub parked_calls: u64,
    pub kernel_max_cyc: u64,
    pub alloc_max_cyc: u64,
    pub lane_wake_cyc: Vec<u64>,
    pub lane_kernel_cyc: Vec<u64>,
    pub lane_alloc_cyc: Vec<u64>,
    pub lane_parked_calls: Vec<u64>,
    pub hist_log2: Vec<u64>,
}

/// The cycles of all buckets.
pub open spec fn instr_total(p: PoolProf) -> int {
    p.publish_cyc + p.kernel0_cyc + p.drain_cyc
}

/// A row of a bucket.
pub open spec fn bucket_row<F: Fn(Num) -> Option<String>>(
    w: F,
    name: Seq<char>,
    c: u64,
    whole: u64,
) -> Seq<char> {
    "  "@ + at_left(name, 16) + " "@ + at_right(dec(c as nat), 14) + " "@ + at_right(
        share_text(w, c, whole),
        6,
    ) + "%\n"@
}

/// The rows of the first `k` lanes.
pub open spec fn lanes_text(p: PoolProf, k: nat) -> Seq<char>
    decreases k,
{
    if k == 0 {
        Seq::empty()
    } else {
        let i = k - 1;
        lanes_text(p, (k - 1) as nat) + "  "@ + at_left(dec(i as nat), 6) + " "@ + at_right(
            dec(p.lane_wake_cyc@[i] as nat),
            14,
        ) + " "@ + at_right(dec(p.lane_kernel_cyc@[i] as nat), 14) + " "@ + at_right(
            dec(p.lane_alloc_cyc@[i] as nat),
            14,
        ) + " "@ + at_right(dec(p.lane_parked_calls@[i] as nat), 13) + "\n"@
    }
}

/// The first `k` buckets of the histogram that hold something.
pub open spec fn hist_text(h: Seq<u64>, k: nat) -> Seq<char>
    decreases k,
{
    if k == 0 {
        Seq::empty()
    } else if h[k - 1] > 0 {
        hist_text(h, (k - 1) as nat) + " 2^"@ + dec((k - 1) as nat) + ":"@ + dec(
            h[k - 1] as nat,
        )
    } else {
        hist_text(h, (k - 1) as nat)
    }
}

/// The profile of the pool.
pub open spec fn pool_text<F: Fn(Num) -> Option<String>>(
    w: F,
    p: PoolProf,
    op_attention_cyc: u64,
) -> Seq<char> {
    let whole = instr_total(p) as u64;
    "pool [decode attention] "@ + dec(p.calls as nat) + " calls, "@ + dec(whole as nat)
        + " cyc instrumented\n"@ + "  sum identity vs op-profiler attention: "@ + share_text(
        w,
        whole,
        op_attention_cyc,
    ) + "% (admissible: 90-110%)\n"@ + "  "@ + at_left("bucket"@, 16) + " "@ + at_right(
        "cycles"@,
        14,
    ) + " "@ + at_right("share"@, 7) + "\n"@ + bucket_row(w, "publish"@, p.publish_cyc, whole)
        + bucket_row(w, "kernel(shard0)"@, p.kernel0_cyc, whole) + bucket_row(
        w,
        "drain"@,
        p.drain_cyc,
        whole,
    ) + "  per-call max-lane sums: wake "@ + dec(p.wake_max_cyc as nat) + " | wake-parked "@ + dec(
        p.wake_parked_cyc as nat,
    ) + " ("@ + dec(p.parked_calls as nat) + " calls) | kernel-max "@ + dec(
        p.kernel_max_cyc as nat,
    ) + " | alloc-max "@ + dec(p.alloc_max_cyc as nat) + "\n"@ + "  "@ + at_left("lane"@, 6)
        + " "@ + at_right("wake"@, 14) + " "@ + at_right("kernel"@, 14) + " "@ + at_right(
        "alloc"@,
        14,
    ) + " "@ + at_right("parked-calls"@, 13) + "\n"@ + lanes_text(p, p.lane_kernel_cyc@.len())
        + "  per-call cycles histogram:"@ + hist_text(p.hist_log2@, p.hist_log2@.len()) + "\n"@
}

fn push_bucket<F: Fn(Num) -> Option<String>>(s: &mut String, w: &F, name: &str, c: u64, whole: u64)
    requires
        says(*w),
    ensures
        final(s)@ == old(s)@ + bucket_row(*w, name@, c, whole),
{
    let ghost before = s@;
    s.append("  ");
    append_left(s, name, 16);
    s.append(" ");
    append_right(s, dec_text(c).as_str(), 14);
    s.append(" ");
    append_right(s, share_string(w, c, whole).as_str(), 6);
    s.append("%\n");
    assert(s@ =~= before + bucket_row(*w, name@, c, whole));
}

fn push_lanes(s: &mut String, p: &PoolProf)
    requires
        p.lane_wake_cyc@.len() >= p.lane_kernel_cyc@.len(),
        p.lane_alloc_cyc@.len() >= p.lane_kernel_cyc@.len(),
        p.lane_parked_calls@.len() >= p.lane_kernel_cyc@.len(),
    ensures
        final(s)@ == old(s)@ + lanes_text(*p, p.lane_kernel_cyc@.len()),
{
    let ghost before = s@;
    let mut i: usize = 0;
    assert(s@ =~= before + lanes_text(*p, 0));
    while i < p.lane_kernel_cyc.len()
        invariant
            i <= p.lane_kernel_cyc@.len(),
            p.lane_wake_cyc@.len() >= p.lane_kernel_cyc@.len(),
            p.lane_alloc_cyc@.len() >= p.lane_kernel_cyc@.len(),
            p.lane_parked_calls@.len() >= p.lane_kernel_cyc@.len(),
            s@ == before + lanes_text(*p, i as nat),
        decreases p.lane_kernel_cyc.len() - i,
    {
        s.append("  ");
        append_left(s, dec_text(i as u64).as_str(), 6);
        s.append(" ");
        append_right(s, dec_text(p.lane_wake_cyc[i]).as_str(), 14);
        s.append(" ");
        append_right(s, dec_text(p.lane_kernel_cyc[i]).as_str(), 14);
        s.append(" ");
        append_right(s, dec_text(p.lane_alloc_cyc[i]).as_str(), 14);
        s.append(" ");
        append_right(s, dec_text(p.lane_parked_calls[i]).as_str(), 13);
        s.append("\n");
        i += 1;
        assert(s@ =~= before + lanes_text(*p, i as nat));
    }
}

fn push_hist(s: &mut String, h: &Vec<u64>)
    ensures
        final(s)@ == old(s)@ + hist_text(h@, h@.len()),
{
    let ghost before = s@;
    let mut i: usize = 0;
    assert(s@ =~= before + hist_text(h@, 0));
    while i < h.len()
        invariant
            i <= h@.len(),
            s@ == before + hist_text(h@, i as nat),
        decreases h.len() - i,
    {
        if h[i] > 0 {
            s.append(" 2^");
            s.append(dec_text(i as u64).as_str());
            s.append(":");
            s.append(dec_text(h[i]).as_str());
        }
        i += 1;
        assert(s@ =~= before + hist_text(h@, i as nat));
    }
}

/// The profile of the pool: buckets, lanes and a histogram. `op_attention_cyc` is
/// what the step profiler counted for attention.
pub fn render_pool<F: Fn(Num) -> Option<String>>(p: &PoolProf, op_attention_cyc: u64, w: &F) -> (s:
    String)
    requires
        says(*w),
        instr_total(*p) <= u64::MAX,
        p.lane_wake_cyc@.len() >= p.lane_kernel_cyc@.len(),
        p.lane_alloc_cyc@.len() >= p.lane_kernel_cyc@.len(),
        p.lane_parked_calls@.len() >= p.lane_kernel_cyc@.len(),
    ensures
        s@ == pool_text(*w, *p, op_attention_cyc),
{
    let whole: u64 = p.publish_cyc + p.kernel0_cyc + p.drain_cyc;
    let mut s = "pool [decode attention] ".to_owned();
    s.append(dec_text(p.calls).as_str());
    s.append(" calls, ");
    s.append(dec_text(whole).as_str());
    s.append(" cyc instrumented\n");
    s.append("  sum identity vs op-profiler attention: ");
    s.append(share_string(w, whole, op_attention_cyc).as_str());
    s.append("% (admissible: 90-110%)\n");
    s.append("  ");
    append_left(&mut s, "bucket", 16);
    s.append(" ");
    append_right(&mut s, "cycles", 14);
    s.append(" ");
    append_right(&mut s, "share", 7);
    s.append("\n");
    push_bucket(&mut s, w, "publish", p.publish_cyc, whole);
    push_bucket(&mut s, w, "kernel(shard0)", p.kernel0_cyc, whole);
    push_bucket(&mut s, w, "drain", p.drain_cyc, whole);
    s.append("  per-call max-lane sums: wake ");
    s.append(dec_text(p.wake_max_cyc).as_str());
    s.append(" | wake-parked ");
    s.append(dec_text(p.wake_parked_cyc).as_str());
    s.append(" (");
    s.append(dec_text(p.parked_calls).as_str());
    s.append(" calls) | kernel-max ");
    s.append(dec_text(p.kernel_max_cyc).as_str());
    s.append(" | alloc-max ");
    s.append(dec_text(p.alloc_max_cyc).as_str());
    s.append("\n");
    s.append("  ");
    append_left(&mut s, "lane", 6);
    s.append(" ");
    append_right(&mut s, "wake", 14);
    s.append(" ");
    append_right(&mut s, "kernel", 14);
    s.append(" ");
    append_right(&mut s, "alloc", 14);
    s.append(" ");
    append_right(&mut s, "parked-calls", 13);
    s.append("\n");
    push_lanes(&mut s, p);
    s.append("  per-call cycles histogram:");
    push_hist(&mut s, &p.hist_log2);
    s.append("\n");
    s
}

} // verus!
