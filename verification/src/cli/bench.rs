//! The comparison with llama.cpp: what is asked for, what is run, and the report.
//! Double-precision numbers are given by their bits.

use vstd::prelude::*;
use vstd::string::StringExecFns;

use crate::cli::num::{said, say, says, Num};
use crate::cli::run::{clamp_max_seq_len, clamped};
use crate::codegen::emit::INFERNO_VERSION;
use crate::text::{append_left, append_right, at_left, at_right, dec, dec_text};

verus! {

/// A mean and its deviation, in tokens a second.
#[derive(Debug, Clone, Copy, PartialEq, Eq, Structural)]
pub struct Measurement {
    pub mean_tok_s: u64,
    pub stddev_tok_s: u64,
}

/// Measurements of prompts and of generation.
#[derive(Debug, Clone, Copy, PartialEq, Eq, Structural)]
pub struct InfernoNumbers {
    pub pp: Measurement,
    pub tg: Measurement,
}

/// What was measured, at how many threads, and at one thread if that is another
/// number.
#[derive(Debug, Clone, Copy, PartialEq, Eq, Structural)]
pub struct InfernoRun {
    pub headline: InfernoNumbers,
    pub t1: Option<InfernoNumbers>,
    pub threads: usize,
}

/// A row of the output of `llama-bench`.
#[derive(Debug, PartialEq, Eq)]
pub struct LlamaBenchRow {
    pub build_commit: String,
    pub cpu_info: String,
    pub model_type: String,
    pub n_prompt: u64,
    pub n_gen: u64,
    pub n_threads: u64,
    pub avg_ts: u64,
    pub stddev_ts: u64,
}

/// Whether a row is that of a test.
pub open spec fn is_row(r: LlamaBenchRow, n_prompt: u64, n_gen: u64, n_threads: u64) -> bool {
    r.n_prompt == n_prompt && r.n_gen == n_gen && r.n_threads == n_threads
}

/// The first row from `k` on that is that of a test.
pub open spec fn row_from(
    rows: Seq<LlamaBenchRow>,
    n_prompt: u64,
    n_gen: u64,
    n_threads: u64,
    k: nat,
) -> Option<LlamaBenchRow>
    decreases rows.len() - k,
{
    if k >= rows.len() {
        None
    } else if is_row(rows[k as int], n_prompt, n_gen, n_threads) {
        Some(rows[k as int])
    } else {
        row_from(rows, n_prompt, n_gen, n_threads, k + 1)
    }
}

/// The row of a test.
pub fn find_row(rows: &Vec<LlamaBenchRow>, n_prompt: u64, n_gen: u64, n_threads: u64) -> (r: Option<
    &LlamaBenchRow,
>)
    ensures
        match r {
            Some(x) => row_from(rows@, n_prompt, n_gen, n_threads, 0) == Some(*x),
            None => row_from(rows@, n_prompt, n_gen, n_threads, 0) is None,
        },
{
    let mut i: usize = 0;
    while i < rows.len()
        invariant
            i <= rows@.len(),
            row_from(rows@, n_prompt, n_gen, n_threads, 0) == row_from(
                rows@,
                n_prompt,
                n_gen,
                n_threads,
                i as nat,
            ),
        decreases rows.len() - i,
    {
        let r = &rows[i];
        if r.n_prompt == n_prompt && r.n_gen == n_gen && r.n_threads == n_threads {
            return Some(r);
        }
        i += 1;
    }
    None
}

/// A row that is not there.
pub open spec fn missing_text(n_prompt: u64, n_gen: u64, t: u64) -> Seq<char> {
    "llama-bench output missing the (pp="@ + dec(n_prompt as nat) + ", tg="@ + dec(n_gen as nat)
        + ", t="@ + dec(t as nat) + ") row"@
}

fn missing_string(n_prompt: u64, n_gen: u64, t: u64) -> (s: String)
    ensures
        s@ == missing_text(n_prompt, n_gen, t),
{
    let mut s = "llama-bench output missing the (pp=".to_owned();
    s.append(dec_text(n_prompt).as_str());
    s.append(", tg=");
    s.append(dec_text(n_gen).as_str());
    s.append(", t=");
    s.append(dec_text(t).as_str());
    s.append(") row");
    s
}

/// How many threads a comparison runs at: as many as asked for, or one for each
/// physical core.
pub open spec fn threads_for(asked: u64, physical: u32) -> u64 {
    if asked == 0 {
        physical as u64
    } else {
        asked
    }
}

/// Checks what is asked for: how many threads the comparison runs at, or why it
/// does not run.
pub fn check_sizes(pp: u64, tg: u64, reps: u64, threads: u64, physical_cores: u32) -> (r: Result<
    u64,
    String,
>)
    ensures
        match r {
            Ok(t) => pp > 0 && tg > 0 && reps > 0 && t == threads_for(threads, physical_cores),
            Err(e) => (pp == 0 || tg == 0 || reps == 0) && e@
                == "--pp, --tg, and --reps must all be > 0"@,
        },
{
    if pp == 0 || tg == 0 || reps == 0 {
        return Err("--pp, --tg, and --reps must all be > 0".to_owned());
    }
    Ok(
        if threads == 0 {
            physical_cores as u64
        } else {
            threads
        },
    )
}

/// The thread counts that `llama-bench` runs at: the number of threads, and one.
pub fn thread_list(threads: u64) -> (r: Vec<u64>)
    ensures
        r@ == if threads == 1 {
            seq![1u64]
        } else {
            seq![threads, 1u64]
        },
{
    let mut r: Vec<u64> = Vec::new();
    if threads != 1 {
        r.push(threads);
    }
    r.push(1);
    assert(r@ =~= if threads == 1 {
        seq![1u64]
    } else {
        seq![threads, 1u64]
    });
    r
}

/// What is measured: how long sequences get, and the prompt.
#[derive(Debug, PartialEq, Eq)]
pub struct BenchPlan {
    pub max_seq_len: usize,
    pub ids: Vec<u32>,
}

/// A prompt of `pp` tokens that goes round all tokens but the first.
pub open spec fn prompt_ids(pp: nat, vocab: u32) -> Seq<u32> {
    Seq::new(pp, |i: int| (1 + (i as u32) % ((vocab - 1) as u32)) as u32)
}

/// A context that is too small.
pub open spec fn too_small_text(len: nat, pp: nat, tg: nat) -> Seq<char> {
    "model context length "@ + dec(len) + " is too small for pp="@ + dec(pp) + " + tg="@ + dec(tg)
}

/// Why nothing can be measured, if so.
pub open spec fn plan_fault(context: u64, vocab: u64, pp: usize, tg: usize) -> Option<Seq<char>> {
    let len = clamped(context, (pp + tg) as usize);
    if len < pp + tg {
        Some(too_small_text(len as nat, pp as nat, tg as nat))
    } else if vocab > u32::MAX {
        Some("vocab size exceeds u32"@)
    } else if vocab < 2 {
        Some("model vocab too small for synthetic prompt"@)
    } else {
        None
    }
}

/// What is measured for a model with a context and a vocabulary, or why nothing is.
pub fn plan_bench(context_length: u64, vocab_size: u64, pp: usize, tg: usize) -> (r: Result<
    BenchPlan,
    String,
>)
    requires
        pp + tg <= usize::MAX,
    ensures
        match r {
            Ok(p) => {
                &&& plan_fault(context_length, vocab_size, pp, tg) is None
                &&& p.max_seq_len == pp + tg
                &&& p.ids@ == prompt_ids(pp as nat, vocab_size as u32)
            },
            Err(e) => plan_fault(context_length, vocab_size, pp, tg) == Some(e@),
        },
{
    let needed: usize = pp + tg;
    let max_seq_len: usize = clamp_max_seq_len(context_length, needed);
    if max_seq_len < needed {
        let mut s = "model context length ".to_owned();
        s.append(dec_text(max_seq_len as u64).as_str());
        s.append(" is too small for pp=");
        s.append(dec_text(pp as u64).as_str());
        s.append(" + tg=");
        s.append(dec_text(tg as u64).as_str());
        return Err(s);
    }
    if vocab_size > u32::MAX as u64 {
        return Err("vocab size exceeds u32".to_owned());
    }
    let vocab: u32 = vocab_size as u32;
    if vocab < 2 {
        return Err("model vocab too small for synthetic prompt".to_owned());
    }
    let mut ids: Vec<u32> = Vec::with_capacity(pp);
    let mut i: usize = 0;
    while i < pp
        invariant
            i <= pp,
            vocab >= 2,
            ids@ == prompt_ids(pp as nat, vocab).take(i as int),
        decreases pp - i,
    {
        let at: u32 = #[verifier::truncate] (i as u32);
        ids.push(1 + at % (vocab - 1));
        i += 1;
        assert(ids@ =~= prompt_ids(pp as nat, vocab).take(i as int));
    }
    assert(ids@ =~= prompt_ids(pp as nat, vocab));
    Ok(BenchPlan { max_seq_len, ids })
}

/// The prompt holds tokens of the vocabulary, and never the first.
pub proof fn law_prompt_is_valid(pp: nat, vocab: u32, i: int)
    requires
        vocab >= 2,
        0 <= i < pp,
    ensures
        1 <= prompt_ids(pp, vocab)[i] < vocab,
{
}

/// A step of a measurement.
#[derive(Debug, Clone, Copy, PartialEq, Eq, Structural)]
pub enum BenchStep {
    /// Run once without counting.
    Warmup,
    /// Run once and count it among the headline numbers.
    Sample,
    /// Use one thread from here on.
    OneThread,
    /// Run once and count it among the numbers at one thread.
    SampleOne,
    /// Use all threads again.
    AllThreads,
}

/// `n` times a step.
pub open spec fn times(s: BenchStep, n: nat) -> Seq<BenchStep> {
    Seq::new(n, |i: int| s)
}

/// The steps of a measurement: a run to warm up and `reps` that count, and the same
/// at one thread, if that is asked for and is another number of threads.
pub open spec fn schedule(reps: nat, threads: nat, t1_diag: bool) -> Seq<BenchStep> {
    let head = seq![BenchStep::Warmup] + times(BenchStep::Sample, reps);
    if t1_diag && threads > 1 {
        head + seq![BenchStep::OneThread, BenchStep::Warmup] + times(BenchStep::SampleOne, reps)
            + seq![BenchStep::AllThreads]
    } else {
        head
    }
}

fn push_times(v: &mut Vec<BenchStep>, s: BenchStep, n: usize)
    ensures
        final(v)@ == old(v)@ + times(s, n as nat),
{
    let ghost before = v@;
    let mut i: usize = 0;
    assert(v@ =~= before + times(s, 0));
    while i < n
        invariant
            i <= n,
            v@ == before + times(s, i as nat),
        decreases n - i,
    {
        v.push(s);
        i += 1;
        assert(v@ =~= before + times(s, i as nat));
    }
}

/// The steps of a measurement.
pub fn bench_schedule(reps: usize, threads: usize, t1_diag: bool) -> (v: Vec<BenchStep>)
    ensures
        v@ == schedule(reps as nat, threads as nat, t1_diag),
{
    let mut v: Vec<BenchStep> = Vec::new();
    v.push(BenchStep::Warmup);
    push_times(&mut v, BenchStep::Sample, reps);
    assert(v@ =~= schedule(reps as nat, threads as nat, false));
    if t1_diag && threads > 1 {
        v.push(BenchStep::OneThread);
        v.push(BenchStep::Warmup);
        push_times(&mut v, BenchStep::SampleOne, reps);
        v.push(BenchStep::AllThreads);
    }
    assert(v@ =~= schedule(reps as nat, threads as nat, t1_diag));
    v
}

/// A comparison.
#[derive(Debug, PartialEq, Eq)]
pub struct BenchReport {
    pub model: String,
    pub model_type: String,
    pub cpu_info: String,
    pub physical_cores: u32,
    pub logical_cores: u32,
    pub inferno_version: String,
    pub inferno_git: String,
    pub llama_build_commit: String,
    pub pp: u64,
    pub tg: u64,
    pub reps: u64,
    pub inferno_threads: u64,
    pub llama_threads: u64,
    pub inferno: InfernoNumbers,
    pub llama: InfernoNumbers,
    pub llama_t1: Option<InfernoNumbers>,
    pub inferno_t1: Option<InfernoNumbers>,
}

/// The numbers of two rows.
pub open spec fn row_numbers(pp: LlamaBenchRow, tg: LlamaBenchRow) -> InfernoNumbers {
    InfernoNumbers {
        pp: Measurement { mean_tok_s: pp.avg_ts, stddev_tok_s: pp.stddev_ts },
        tg: Measurement { mean_tok_s: tg.avg_ts, stddev_tok_s: tg.stddev_ts },
    }
}

/// What is compared with what.
pub struct Compared {
    pub model: String,
    pub physical_cores: u32,
    pub logical_cores: u32,
    pub inferno_git: String,
    pub pp: u64,
    pub tg: u64,
    pub reps: u64,
    pub threads: u64,
    pub inferno: InfernoRun,
}

/// The first row that the report needs and that is not there, as a text: prompts and
/// generation at all threads, and, where that is another number, at one.
pub open spec fn report_fault(c: Compared, rows: Seq<LlamaBenchRow>) -> Option<Seq<char>> {
    if row_from(rows, c.pp, 0, c.threads, 0) is None {
        Some(missing_text(c.pp, 0, c.threads))
    } else if row_from(rows, 0, c.tg, c.threads, 0) is None {
        Some(missing_text(0, c.tg, c.threads))
    } else if c.threads != 1 && row_from(rows, c.pp, 0, 1, 0) is None {
        Some(missing_text(c.pp, 0, 1))
    } else if c.threads != 1 && row_from(rows, 0, c.tg, 1, 0) is None {
        Some(missing_text(0, c.tg, 1))
    } else {
        None
    }
}

/// Whether a report says what was compared.
pub open spec fn reports(r: BenchReport, c: Compared, rows: Seq<LlamaBenchRow>) -> bool {
    let lpp = row_from(rows, c.pp, 0, c.threads, 0)->Some_0;
    let ltg = row_from(rows, 0, c.tg, c.threads, 0)->Some_0;
    let t1 = if c.threads == 1 {
        None
    } else {
        Some(
            row_numbers(
                row_from(rows, c.pp, 0, 1, 0)->Some_0,
                row_from(rows, 0, c.tg, 1, 0)->Some_0,
            ),
        )
    };
    &&& r.model == c.model
    &&& r.model_type@ == lpp.model_type@
    &&& r.cpu_info@ == lpp.cpu_info@
    &&& r.physical_cores == c.physical_cores
    &&& r.logical_cores == c.logical_cores
    &&& r.inferno_version@ == INFERNO_VERSION@
    &&& r.inferno_git == c.inferno_git
    &&& r.llama_build_commit@ == lpp.build_commit@
    &&& (r.pp, r.tg, r.reps) == (c.pp, c.tg, c.reps)
    &&& r.inferno_threads == c.inferno.threads
    &&& r.llama_threads == c.threads
    &&& r.inferno == c.inferno.headline
    &&& r.inferno_t1 == c.inferno.t1
    &&& r.llama == row_numbers(lpp, ltg)
    &&& r.llama_t1 == t1
}

fn numbers_of(pp: &LlamaBenchRow, tg: &LlamaBenchRow) -> (r: InfernoNumbers)
    ensures
        r == row_numbers(*pp, *tg),
{
    InfernoNumbers {
        pp: Measurement { mean_tok_s: pp.avg_ts, stddev_tok_s: pp.stddev_ts },
        tg: Measurement { mean_tok_s: tg.avg_ts, stddev_tok_s: tg.stddev_ts },
    }
}

/// Puts a comparison together, or says which row is missing.
pub fn bench_report(c: Compared, rows: &Vec<LlamaBenchRow>) -> (r: Result<BenchReport, String>)
    ensures
        match r {
            Ok(b) => report_fault(c, rows@) is None && reports(b, c, rows@),
            Err(e) => report_fault(c, rows@) == Some(e@),
        },
{
    let lpp = match find_row(rows, c.pp, 0, c.threads) {
        Some(x) => x,
        None => return Err(missing_string(c.pp, 0, c.threads)),
    };
    let ltg = match find_row(rows, 0, c.tg, c.threads) {
        Some(x) => x,
        None => return Err(missing_string(0, c.tg, c.threads)),
    };
    let llama_t1: Option<InfernoNumbers> = if c.threads == 1 {
        None
    } else {
        let p = match find_row(rows, c.pp, 0, 1) {
            Some(x) => x,
            None => return Err(missing_string(c.pp, 0, 1)),
        };
        let g = match find_row(rows, 0, c.tg, 1) {
            Some(x) => x,
            None => return Err(missing_string(0, c.tg, 1)),
        };
        Some(numbers_of(p, g))
    };
    Ok(
        BenchReport {
            model: c.model,
            model_type: lpp.model_type.clone(),
            cpu_info: lpp.cpu_info.clone(),
            physical_cores: c.physical_cores,
            logical_cores: c.logical_cores,
            inferno_version: INFERNO_VERSION.to_owned(),
            inferno_git: c.inferno_git,
            llama_build_commit: lpp.build_commit.clone(),
            pp: c.pp,
            tg: c.tg,
            reps: c.reps,
            inferno_threads: c.inferno.threads as u64,
            llama_threads: c.threads,
            inferno: c.inferno.headline,
            llama: numbers_of(lpp, ltg),
            llama_t1,
            inferno_t1: c.inferno.t1,
        },
    )
}

/// A measurement in a table.
pub open spec fn cell_text<F: Fn(Num) -> Option<String>>(w: F, m: Measurement) -> Seq<char> {
    at_right(said(w, Num::Plain(m.mean_tok_s)), 11) + " ± "@ + at_left(
        said(w, Num::Plain(m.stddev_tok_s)),
        5,
    )
}

/// A row of a table.
pub open spec fn engine_row<F: Fn(Num) -> Option<String>>(
    w: F,
    name: Seq<char>,
    threads: u64,
    n: InfernoNumbers,
) -> Seq<char> {
    at_left(name, 22) + " "@ + at_right(dec(threads as nat), 7) + " "@ + cell_text(w, n.pp) + " "@
        + cell_text(w, n.tg) + "\n"@
}

/// A row at one thread, if there is one.
pub open spec fn diag_row<F: Fn(Num) -> Option<String>>(
    w: F,
    name: Seq<char>,
    n: Option<InfernoNumbers>,
) -> Seq<char> {
    match n {
        Some(n) => engine_row(w, name, 1, n),
        None => Seq::empty(),
    }
}

/// The head of a table: the model, the machine, and what is compared.
pub open spec fn head_text(r: BenchReport) -> Seq<char> {
    "model: "@ + r.model@ + " ("@ + r.model_type@ + ")\n"@ + "cpu: "@ + r.cpu_info@ + " ("@ + dec(
        r.physical_cores as nat,
    ) + " physical / "@ + dec(r.logical_cores as nat) + " logical cores)\n"@ + "inferno "@
        + r.inferno_version@ + " ("@ + r.inferno_git@ + ") vs llama.cpp "@ + r.llama_build_commit@
        + " | pp="@ + dec(r.pp as nat) + " tg="@ + dec(r.tg as nat) + " reps="@ + dec(
        r.reps as nat,
    ) + "\n"@ + "\n"@
}

/// The names of the columns.
pub open spec fn columns_text(r: BenchReport) -> Seq<char> {
    at_left("engine"@, 22) + " "@ + at_right("threads"@, 7) + " "@ + at_right(
        "pp"@ + dec(r.pp as nat) + " tok/s"@,
        18,
    ) + " "@ + at_right("tg"@ + dec(r.tg as nat) + " tok/s"@, 18) + "\n"@
}

/// The line of the ratios.
pub open spec fn ratio_text<F: Fn(Num) -> Option<String>>(w: F, r: BenchReport) -> Seq<char> {
    "\n"@ + "ratio (inferno/llama.cpp): pp "@ + said(
        w,
        Num::Ratio { a: r.inferno.pp.mean_tok_s, b: r.llama.pp.mean_tok_s },
    ) + "x | tg "@ + said(
        w,
        Num::Ratio { a: r.inferno.tg.mean_tok_s, b: r.llama.tg.mean_tok_s },
    ) + "x\n"@
}

/// A comparison as a table.
pub open spec fn table_text<F: Fn(Num) -> Option<String>>(w: F, r: BenchReport) -> Seq<char> {
    head_text(r) + columns_text(r) + engine_row(
        w,
        "inferno (compiled)"@,
        r.inferno_threads,
        r.inferno,
    ) + diag_row(w, "inferno (t=1 diag)"@, r.inferno_t1) + engine_row(
        w,
        "llama.cpp"@,
        r.llama_threads,
        r.llama,
    ) + diag_row(w, "llama.cpp (t=1 diag)"@, r.llama_t1) + ratio_text(w, r)
}

fn push_cell<F: Fn(Num) -> Option<String>>(s: &mut String, w: &F, m: &Measurement)
    requires
        says(*w),
    ensures
        final(s)@ == old(s)@ + cell_text(*w, *m),
{
    let ghost before = s@;
    append_right(s, say(w, Num::Plain(m.mean_tok_s)).as_str(), 11);
    s.append(" ± ");
    append_left(s, say(w, Num::Plain(m.stddev_tok_s)).as_str(), 5);
    assert(s@ =~= before + cell_text(*w, *m));
}

fn push_engine<F: Fn(Num) -> Option<String>>(
    s: &mut String,
    w: &F,
    name: &str,
    threads: u64,
    n: &InfernoNumbers,
)
    requires
        says(*w),
    ensures
        final(s)@ == old(s)@ + engine_row(*w, name@, threads, *n),
{
    let ghost before = s@;
    append_left(s, name, 22);
    s.append(" ");
    append_right(s, dec_text(threads).as_str(), 7);
    s.append(" ");
    push_cell(s, w, &n.pp);
    s.append(" ");
    push_cell(s, w, &n.tg);
    s.append("\n");
    assert(s@ =~= before + engine_row(*w, name@, threads, *n));
}

fn head_string(r: &BenchReport) -> (s: String)
    ensures
        s@ == head_text(*r),
{
    let mut s = "model: ".to_owned();
    s.append(r.model.as_str());
    s.append(" (");
    s.append(r.model_type.as_str());
    s.append(")\n");
    s.append("cpu: ");
    s.append(r.cpu_info.as_str());
    s.append(" (");
    s.append(dec_text(r.physical_cores as u64).as_str());
    s.append(" physical / ");
    s.append(dec_text(r.logical_cores as u64).as_str());
    s.append(" logical cores)\n");
    s.append("inferno ");
    s.append(r.inferno_version.as_str());
    s.append(" (");
    s.append(r.inferno_git.as_str());
    s.append(") vs llama.cpp ");
    s.append(r.llama_build_commit.as_str());
    s.append(" | pp=");
    s.append(dec_text(r.pp).as_str());
    s.append(" tg=");
    s.append(dec_text(r.tg).as_str());
    s.append(" reps=");
    s.append(dec_text(r.reps).as_str());
    s.append("\n");
    s.append("\n");
    s
}

fn push_columns(s: &mut String, r: &BenchReport)
    ensures
        final(s)@ == old(s)@ + columns_text(*r),
{
    let ghost before = s@;
    append_left(s, "engine", 22);
    s.append(" ");
    append_right(s, "threads", 7);
    s.append(" ");
    let mut pp = "pp".to_owned();
    pp.append(dec_text(r.pp).as_str());
    pp.append(" tok/s");
    append_right(s, pp.as_str(), 18);
    s.append(" ");
    let mut tg = "tg".to_owned();
    tg.append(dec_text(r.tg).as_str());
    tg.append(" tok/s");
    append_right(s, tg.as_str(), 18);
    s.append("\n");
    assert(s@ =~= before + columns_text(*r));
}

fn push_ratios<F: Fn(Num) -> Option<String>>(s: &mut String, w: &F, r: &BenchReport)
    requires
        says(*w),
    ensures
        final(s)@ == old(s)@ + ratio_text(*w, *r),
{
    let ghost before = s@;
    s.append("\n");
    s.append("ratio (inferno/llama.cpp): pp ");
    s.append(
        say(
            w,
            Num::Ratio { a: r.inferno.pp.mean_tok_s, b: r.llama.pp.mean_tok_s },
        ).as_str(),
    );
    s.append("x | tg ");
    s.append(
        say(
            w,
            Num::Ratio { a: r.inferno.tg.mean_tok_s, b: r.llama.tg.mean_tok_s },
        ).as_str(),
    );
    s.append("x\n");
    assert(s@ =~= before + ratio_text(*w, *r));
}

/// A comparison as a table. `w` writes the computed numbers.
pub fn render_table<F: Fn(Num) -> Option<String>>(r: &BenchReport, w: &F) -> (s: String)
    requires
        says(*w),
    ensures
        s@ == table_text(*w, *r),
{
    let mut s = head_string(r);
    push_columns(&mut s, r);
    push_engine(&mut s, w, "inferno (compiled)", r.inferno_threads, &r.inferno);
    let ghost one = s@;
    match &r.inferno_t1 {
        Some(n) => push_engine(&mut s, w, "inferno (t=1 diag)", 1, n),
        None => {},
    }
    assert(s@ =~= one + diag_row(*w, "inferno (t=1 diag)"@, r.inferno_t1));
    push_engine(&mut s, w, "llama.cpp", r.llama_threads, &r.llama);
    let ghost two = s@;
    match &r.llama_t1 {
        Some(n) => push_engine(&mut s, w, "llama.cpp (t=1 diag)", 1, n),
        None => {},
    }
    assert(s@ =~= two + diag_row(*w, "llama.cpp (t=1 diag)"@, r.llama_t1));
    push_ratios(&mut s, w, r);
    s
}

} // verus!
