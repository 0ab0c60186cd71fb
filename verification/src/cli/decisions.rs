//! What the commands decide, case by case.

use vstd::prelude::*;

use crate::cli::bench::{
    cell_text, columns_text, diag_row, engine_row, head_text, plan_fault, prompt_ids, ratio_text,
    report_fault, reports, row_from, schedule, table_text, threads_for, BenchReport, BenchStep,
    Compared, InfernoNumbers, LlamaBenchRow,
};
use crate::cli::inspect::{arch_text, tensor_text};
use crate::cli::num::{said, Num};
use crate::cli::profile::{attn_row, attn_text, rate_text, row_text, sum_to};
use crate::cli::run::{clamped, decoded, slot_from, Decode};
use crate::formats::desc::{architecture_of, TensorV};
use crate::formats::quant::dtype_name;
use crate::graph::error::number_texts;
use crate::text::{at_left, at_right, dec, join};

verus! {

/// A sequence gets as long as asked for, but no longer than a known context.
pub proof fn law_lengths_are_clamped(context: u64, requested: usize)
    ensures
        context == 0 ==> clamped(context, requested) == requested,
        context >= requested ==> clamped(context, requested) == requested,
        0 < context <= requested ==> clamped(context, requested) == context,
{
}

/// How a generation goes on with the next token: it ends, and the token is neither counted nor
/// run, if it is done, has as many as asked for, or the token ends texts; else the token is
/// counted, and run if there is room for it.
pub proof fn law_generation_step_by_step(
    d: Decode,
    next: u32,
    eos: Option<u32>,
    prompt: nat,
    max_tokens: nat,
    max_seq_len: nat,
)
    requires
        d.step < usize::MAX,
        d.generated < usize::MAX,
    ensures
        ({
            let (e, run) = decoded(d, next, eos, prompt, max_tokens, max_seq_len);
            let stop = d.done || d.step >= max_tokens || eos == Some(next);
            let room = prompt + d.step < max_seq_len;
            &&& run <==> !stop && room
            &&& e.done <==> !run
            &&& e.step == d.step + (if run {
                1int
            } else {
                0
            })
            &&& e.generated == d.generated + (if stop {
                0int
            } else {
                1
            })
        }),
{
}

/// The count of a label is that of the first slot that has it.
pub proof fn law_first_slot_counts(slots: Seq<Seq<char>>, label: Seq<char>, k: nat)
    ensures
        match slot_from(slots, label, k) {
            Some(i) => k <= i < slots.len() && slots[i as int] == label && forall|j: int|
                k <= j < i ==> #[trigger] slots[j] != label,
            None => forall|j: int| k <= j < slots.len() ==> #[trigger] slots[j] != label,
        },
    decreases slots.len() - k,
{
    if k < slots.len() && slots[k as int] != label {
        law_first_slot_counts(slots, label, k + 1);
    }
}

/// The row of a test is the first with its sizes and threads.
pub proof fn law_first_row_counts(
    rows: Seq<LlamaBenchRow>,
    n_prompt: u64,
    n_gen: u64,
    n_threads: u64,
    k: nat,
)
    ensures
        match row_from(rows, n_prompt, n_gen, n_threads, k) {
            Some(r) => r.n_prompt == n_prompt && r.n_gen == n_gen && r.n_threads == n_threads
                && exists|i: int|
                k <= i < rows.len() && #[trigger] rows[i] == r && forall|j: int|
                    k <= j < i ==> !((#[trigger] rows[j]).n_prompt == n_prompt && rows[j].n_gen
                        == n_gen && rows[j].n_threads == n_threads),
            None => forall|j: int|
                k <= j < rows.len() ==> !((#[trigger] rows[j]).n_prompt == n_prompt && rows[j].n_gen
                    == n_gen && rows[j].n_threads == n_threads),
        },
    decreases rows.len() - k,
{
    if k < rows.len() {
        let r = rows[k as int];
        if !(r.n_prompt == n_prompt && r.n_gen == n_gen && r.n_threads == n_threads) {
            law_first_row_counts(rows, n_prompt, n_gen, n_threads, k + 1);
        } else {
            assert(rows[k as int] == r);
        }
    }
}

/// A comparison runs at as many threads as asked for, or one for each physical core.
pub proof fn law_threads_of_a_comparison(asked: u64, physical: u32)
    ensures
        asked > 0 ==> threads_for(asked, physical) == asked,
        threads_for(0, physical) == physical,
{
}

/// The prompt of a comparison counts through the vocabulary from its second token on, again and
/// again.
pub proof fn law_prompt_counts_up(pp: nat, vocab: u32, i: int)
    requires
        2 <= vocab,
        0 <= i < pp,
        pp <= 0xFFFF_FFFF,
    ensures
        prompt_ids(pp, vocab).len() == pp,
        prompt_ids(pp, vocab)[0] == 1,
        i + 1 < pp ==> prompt_ids(pp, vocab)[i + 1] == (if prompt_ids(pp, vocab)[i] + 1 == vocab {
            1
        } else {
            prompt_ids(pp, vocab)[i] + 1
        }),
{
    let n = vocab - 1;
    assert(0int % n == 0);
    assert((i as u32) == i);
    if i + 1 < pp {
        assert(((i + 1) as u32) == i + 1);
        let r = i % n;
        vstd::arithmetic::div_mod::lemma_fundamental_div_mod(i, n);
        if r + 1 == n {
            assert(n * (i / n + 1) == n * (i / n) + n) by (nonlinear_arith);
            vstd::arithmetic::div_mod::lemma_fundamental_div_mod_converse(i + 1, n, i / n + 1, 0);
        } else {
            vstd::arithmetic::div_mod::lemma_fundamental_div_mod_converse(i + 1, n, i / n, r + 1);
        }
    }
}

/// A comparison can be planned if and only if the context has room for the prompt and what is
/// generated, and the vocabulary has at least two tokens and fits.
pub proof fn law_which_comparisons_can_be_planned(context: u64, vocab: u64, pp: usize, tg: usize)
    requires
        pp + tg <= usize::MAX,
    ensures
        plan_fault(context, vocab, pp, tg) is None <==> (context == 0 || context >= pp + tg) && 2
            <= vocab <= u32::MAX,
{
}

/// The steps of a measurement, place by place: one run to warm up and then those that count;
/// and where that is asked for and there are several threads, one thread, another run to warm
/// up, as many that count, and all threads again.
pub proof fn law_schedule_by_place(reps: nat, threads: nat, t1_diag: bool, i: int)
    ensures
        ({
            let s = schedule(reps, threads, t1_diag);
            let both = t1_diag && threads > 1;
            &&& s.len() == (if both {
                2 * reps + 4
            } else {
                reps + 1
            })
            &&& s[0] == BenchStep::Warmup
            &&& 1 <= i <= reps ==> s[i] == BenchStep::Sample
            &&& both ==> s[reps as int + 1] == BenchStep::OneThread && s[reps as int + 2] == BenchStep::Warmup
                && s[2 * (reps as int) + 3] == BenchStep::AllThreads
            &&& both && reps + 3 <= i < 2 * reps + 3 ==> s[i] == BenchStep::SampleOne
        }),
{
}

/// A report needs a row for prompts and one for generation, at all threads and at one; the
/// first that is missing is named.
pub proof fn law_which_reports_are_complete(c: Compared, rows: Seq<LlamaBenchRow>)
    ensures
        report_fault(c, rows) is None <==> row_from(rows, c.pp, 0, c.threads, 0) is Some && row_from(
            rows,
            0,
            c.tg,
            c.threads,
            0,
        ) is Some && row_from(rows, c.pp, 0, 1, 0) is Some && row_from(rows, 0, c.tg, 1, 0) is Some,
{
}

/// The total of a profile is that of its counts, in whatever order they are added.
pub proof fn law_totals_add_up(a: Seq<u64>, b: Seq<u64>)
    ensures
        sum_to(a + b, (a.len() + b.len()) as nat) == sum_to(a, a.len()) + sum_to(b, b.len()),
        a.len() == 1 ==> sum_to(a, 1) == a[0],
    decreases b.len(),
{
    let n = b.len();
    if n > 0 {
        let w = b.drop_last();
        law_totals_add_up(a, w);
        lemma_same_sum(a + b, a + w, (a.len() + n - 1) as nat);
        lemma_same_sum(b, w, (n - 1) as nat);
    } else {
        lemma_same_sum(a + b, a, a.len());
    }
    if a.len() == 1 {
        assert(sum_to(a, 0) == 0);
    }
}

proof fn lemma_same_sum(a: Seq<u64>, b: Seq<u64>, k: nat)
    requires
        forall|i: int| 0 <= i < k ==> #[trigger] a[i] == b[i],
    ensures
        sum_to(a, k) == sum_to(b, k),
    decreases k,
{
    if k > 0 {
        lemma_same_sum(a, b, (k - 1) as nat);
        assert(a[k - 1] == b[k - 1]);
    }
}

/// A known architecture is written by the name that it is known by.
pub proof fn law_architectures_as_written(id: Seq<char>)
    ensures
        architecture_of(id) !is Unknown ==> arch_text(architecture_of(id)) == id,
        architecture_of(id) is Unknown ==> id != arch_text(architecture_of(id)),
{
    if architecture_of(id) is Unknown {
        reveal_strlit("unknown (");
        assert(arch_text(architecture_of(id)).len() > id.len());
    }
}

/// What a report compares: what was measured here, and the rows of the other engine for the same
/// prompt, the same generation and the same threads, of which it is said how many there are.
pub proof fn law_a_report_compares_like_with_like(
    r: BenchReport,
    c: Compared,
    rows: Seq<LlamaBenchRow>,
)
    requires
        report_fault(c, rows) is None,
        reports(r, c, rows),
    ensures
        r.inferno == c.inferno.headline && r.inferno_t1 == c.inferno.t1,
        r.inferno_threads == c.inferno.threads && r.llama_threads == c.threads,
        exists|i: int|
            #![trigger rows[i]]
            0 <= i < rows.len() && rows[i].n_prompt == r.pp && rows[i].n_gen == 0
                && rows[i].n_threads == r.llama_threads && r.llama.pp.mean_tok_s == rows[i].avg_ts
                && r.llama.pp.stddev_tok_s == rows[i].stddev_ts && r.cpu_info@ == rows[i].cpu_info@,
        exists|i: int|
            #![trigger rows[i]]
            0 <= i < rows.len() && rows[i].n_prompt == 0 && rows[i].n_gen == r.tg
                && rows[i].n_threads == r.llama_threads && r.llama.tg.mean_tok_s == rows[i].avg_ts
                && r.llama.tg.stddev_tok_s == rows[i].stddev_ts,
        r.llama_t1 is None <==> c.threads == 1,
        r.llama_t1 matches Some(n) ==> exists|i: int|
            #![trigger rows[i]]
            0 <= i < rows.len() && rows[i].n_prompt == r.pp && rows[i].n_gen == 0
                && rows[i].n_threads == 1 && n.pp.mean_tok_s == rows[i].avg_ts,
        r.llama_t1 matches Some(n) ==> exists|i: int|
            #![trigger rows[i]]
            0 <= i < rows.len() && rows[i].n_prompt == 0 && rows[i].n_gen == r.tg
                && rows[i].n_threads == 1 && n.tg.mean_tok_s == rows[i].avg_ts,
{
    lemma_row_is_there(rows, c.pp, 0, c.threads, 0);
    lemma_row_is_there(rows, 0, c.tg, c.threads, 0);
    if c.threads != 1 {
        lemma_row_is_there(rows, c.pp, 0, 1, 0);
        lemma_row_is_there(rows, 0, c.tg, 1, 0);
    }
}

/// A row that is found is one of the rows, and that of the test.
proof fn lemma_row_is_there(
    rows: Seq<LlamaBenchRow>,
    n_prompt: u64,
    n_gen: u64,
    n_threads: u64,
    k: nat,
)
    requires
        row_from(rows, n_prompt, n_gen, n_threads, k) is Some,
    ensures
        exists|i: int|
            #![trigger rows[i]]
            0 <= i < rows.len() && rows[i].n_prompt == n_prompt && rows[i].n_gen == n_gen
                && rows[i].n_threads == n_threads && row_from(rows, n_prompt, n_gen, n_threads, k)
                == Some(rows[i]),
    decreases rows.len() - k,
{
    if k < rows.len() {
        let row = rows[k as int];
        if !(row.n_prompt == n_prompt && row.n_gen == n_gen && row.n_threads == n_threads) {
            lemma_row_is_there(rows, n_prompt, n_gen, n_threads, k + 1);
        }
    }
}

/// A ratio is what was measured here over what the other engine does, first of prompts and then of
/// generation.
pub proof fn law_ratios_are_of_this_engine<F: Fn(Num) -> Option<String>>(w: F, r: BenchReport)
    ensures
        ("\n"@ + "ratio (inferno/llama.cpp): pp "@ + said(
            w,
            Num::Ratio { a: r.inferno.pp.mean_tok_s, b: r.llama.pp.mean_tok_s },
        )).is_prefix_of(ratio_text(w, r)),
        ("x | tg "@ + said(
            w,
            Num::Ratio { a: r.inferno.tg.mean_tok_s, b: r.llama.tg.mean_tok_s },
        ) + "x\n"@).is_suffix_of(ratio_text(w, r)),
{
    let a = said(w, Num::Ratio { a: r.inferno.pp.mean_tok_s, b: r.llama.pp.mean_tok_s });
    let b = said(w, Num::Ratio { a: r.inferno.tg.mean_tok_s, b: r.llama.tg.mean_tok_s });
    assert(ratio_text(w, r) =~= ("\n"@ + "ratio (inferno/llama.cpp): pp "@ + a) + ("x | tg "@ + b
        + "x\n"@));
}

/// The row of an engine has its name, its threads, and its numbers, prompts before generation.
pub proof fn law_row_of_an_engine<F: Fn(Num) -> Option<String>>(
    w: F,
    name: Seq<char>,
    threads: u64,
    n: InfernoNumbers,
)
    ensures
        (at_left(name, 22) + " "@ + at_right(dec(threads as nat), 7) + " "@ + cell_text(
            w,
            n.pp,
        )).is_prefix_of(engine_row(w, name, threads, n)),
        (cell_text(w, n.tg) + "\n"@).is_suffix_of(engine_row(w, name, threads, n)),
{
    let a = at_left(name, 22) + " "@ + at_right(dec(threads as nat), 7) + " "@ + cell_text(w, n.pp);
    let b = cell_text(w, n.tg) + "\n"@;
    assert(engine_row(w, name, threads, n) =~= a + (" "@ + b));
    assert(engine_row(w, name, threads, n) =~= (a + " "@) + b);
}

/// Six texts in a row, grouped at the first or at the last.
proof fn lemma_six(
    a: Seq<char>,
    b: Seq<char>,
    c: Seq<char>,
    d: Seq<char>,
    e: Seq<char>,
    f: Seq<char>,
)
    ensures
        (a + b).is_prefix_of(a + b + c + d + e + f),
        (a + b + c).is_prefix_of(a + b + c + d + e + f),
        (a + b + c + d).is_prefix_of(a + b + c + d + e + f),
        (e + f).is_suffix_of(a + b + c + d + e + f),
        f.is_suffix_of(a + b + c + d + e + f),
{
    assert(a + b + c + d + e + f =~= (a + b) + (c + d + e + f));
    assert(a + b + c + d + e + f =~= (a + b + c) + (d + e + f));
    assert(a + b + c + d + e + f =~= (a + b + c + d) + (e + f));
}

/// A table has a row for this engine before the one for the other, each with its own threads and
/// numbers; a row for one thread follows where there are such numbers, and the ratios come last.
pub proof fn law_rows_of_a_table<F: Fn(Num) -> Option<String>>(w: F, r: BenchReport)
    ensures
        ({
            let head = head_text(r) + columns_text(r);
            let ours = engine_row(w, "inferno (compiled)"@, r.inferno_threads, r.inferno);
            let theirs = engine_row(w, "llama.cpp"@, r.llama_threads, r.llama);
            let t = table_text(w, r);
            &&& (head + ours).is_prefix_of(t)
            &&& r.inferno_t1 is None ==> (head + ours + theirs).is_prefix_of(t)
            &&& r.inferno_t1 matches Some(n) ==> (head + ours + engine_row(
                w,
                "inferno (t=1 diag)"@,
                1,
                n,
            ) + theirs).is_prefix_of(t)
            &&& r.llama_t1 matches Some(n) ==> (engine_row(w, "llama.cpp (t=1 diag)"@, 1, n)
                + ratio_text(w, r)).is_suffix_of(t)
            &&& ratio_text(w, r).is_suffix_of(t)
        }),
{
    let head = head_text(r) + columns_text(r);
    let a = engine_row(w, "inferno (compiled)"@, r.inferno_threads, r.inferno);
    let b = diag_row(w, "inferno (t=1 diag)"@, r.inferno_t1);
    let c = engine_row(w, "llama.cpp"@, r.llama_threads, r.llama);
    let d = diag_row(w, "llama.cpp (t=1 diag)"@, r.llama_t1);
    let e = ratio_text(w, r);
    lemma_six(head, a, b, c, d, e);
    if r.inferno_t1 is None {
        assert(head + a + b =~= head + a);
    }
}

/// A row of a profile has the name, the cycles, what share of all cycles they are, and the rate.
pub proof fn law_row_of_a_profile<F: Fn(Num) -> Option<String>>(
    w: F,
    name: Seq<char>,
    c: u64,
    bytes: u64,
    whole: u64,
    secs: u64,
)
    ensures
        ({
            let t = row_text(w, name, c, bytes, whole, secs);
            let share = if whole == 0 {
                "0.0"@
            } else {
                said(w, Num::Percent { part: c, whole })
            };
            let front = "  "@ + at_left(name, 28) + " "@ + at_right(dec(c as nat), 14) + " "@;
            &&& (front + at_right(share, 6) + "%"@).is_prefix_of(t)
            &&& (at_right(rate_text(w, bytes, c, whole, secs), 10) + "\n"@).is_suffix_of(t)
        }),
{
    let t = row_text(w, name, c, bytes, whole, secs);
    let share = if whole == 0 {
        "0.0"@
    } else {
        said(w, Num::Percent { part: c, whole })
    };
    let front = "  "@ + at_left(name, 28) + " "@ + at_right(dec(c as nat), 14) + " "@;
    let back = at_right(rate_text(w, bytes, c, whole, secs), 10) + "\n"@;
    reveal_strlit("%  ");
    reveal_strlit("%");
    assert("%  "@ =~= "%"@ + seq![' ', ' ']);
    assert(t =~= (front + at_right(share, 6) + "%"@) + (seq![' ', ' '] + back));
    assert(t =~= (front + at_right(share, 6) + "%  "@) + back);
}

/// The three parts of attention are written in their order, each with its own cycles, under their
/// sum.
pub proof fn law_parts_of_attention(scores: u64, softmax: u64, output: u64)
    ensures
        ({
            let t = attn_text(scores, softmax, output);
            let head = "attn [prefill sub-brackets] "@ + dec((scores + softmax + output) as nat)
                + " cyc instrumented\n"@;
            let first = head + at_left("attn:scores"@, 13) + " "@ + at_right(dec(scores as nat), 14)
                + "\n"@;
            let second = first + at_left("attn:softmax"@, 13) + " "@ + at_right(
                dec(softmax as nat),
                14,
            ) + "\n"@;
            &&& second.is_prefix_of(t)
            &&& (at_left("attn:output"@, 13) + " "@ + at_right(dec(output as nat), 14)
                + "\n"@).is_suffix_of(t)
        }),
{
    let t = attn_text(scores, softmax, output);
    let head = "attn [prefill sub-brackets] "@ + dec((scores + softmax + output) as nat)
        + " cyc instrumented\n"@;
    let first = head + at_left("attn:scores"@, 13) + " "@ + at_right(dec(scores as nat), 14)
        + "\n"@;
    let second = first + at_left("attn:softmax"@, 13) + " "@ + at_right(dec(softmax as nat), 14)
        + "\n"@;
    let third = at_left("attn:output"@, 13) + " "@ + at_right(dec(output as nat), 14) + "\n"@;
    assert(first =~= head + attn_row("attn:scores"@, scores));
    assert(second =~= first + attn_row("attn:softmax"@, softmax));
    assert(third =~= attn_row("attn:output"@, output));
    assert(t =~= second + third);
}

/// A tensor is listed by its name, its axes with the letter x between them, and its element type.
pub proof fn law_tensors_as_listed(t: TensorV)
    ensures
        ("  "@ + at_left(t.name, 40) + " "@).is_prefix_of(tensor_text(t)),
        (" "@ + dtype_name(t.dtype) + "\n"@).is_suffix_of(tensor_text(t)),
{
    let mid = at_right(join(number_texts(t.shape), "x"@, t.shape.len()), 12);
    assert(tensor_text(t) =~= ("  "@ + at_left(t.name, 40) + " "@) + (mid + (" "@ + dtype_name(
        t.dtype,
    ) + "\n"@)));
    assert(tensor_text(t) =~= ("  "@ + at_left(t.name, 40) + " "@ + mid) + (" "@ + dtype_name(
        t.dtype,
    ) + "\n"@));
}

} // verus!
