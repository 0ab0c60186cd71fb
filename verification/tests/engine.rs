//! Steps, profiler slots, kernels, the cache, the checks of compiled models, and what
//! the program prints.

use inferno::cli::bench;
use inferno::cli::bench::{
    BenchReport, BenchStep, Compared, InfernoNumbers, InfernoRun, LlamaBenchRow, Measurement,
};
use inferno::cli::inspect;
use inferno::cli::num::Num;
use inferno::cli::profile;
use inferno::cli::profile::PoolProf;
use inferno::cli::run;
use inferno::cli::run::{Decode, RunMode};
use inferno::codegen::emit::{build_meta, CompileOptions, Meta, HOST_ABI_VERSION, PREFILL_TILE};
use inferno::codegen::kernels;
use inferno::codegen::kernels::Ty;
use inferno::codegen::loopir::{attention_symbol, build_loopir, gemm_symbol, gemv_symbol, Step};
use inferno::codegen::plan::{Isa, Island, PackedWeight, Plan};
use inferno::codegen::profile::{assign_slots, normalize_weight_name, step_label, ProfileSlots};
use inferno::engine::artifact;
use inferno::engine::artifact::{Event, Stage};
use inferno::engine::backend::{Call, CompiledBackend};
use inferno::engine::cache::{cache_dir, cache_key, content_hash};
use inferno::engine::files::{directory_bytes, sort_files, ModelFile};
use inferno::engine::session::{profile_matmul_bytes, Engine};
use inferno::formats::desc::{Architecture, DType, ModelDesc};
use inferno::formats::fixtures;
use inferno::formats::load::load_file;
use inferno::graph::builder::build_graph;
use inferno::graph::ir::{Graph, Op};

fn model() -> (ModelDesc, Graph) {
    let desc = load_file("tiny.gguf", &fixtures::tiny_llama_gguf()).unwrap();
    let graph = build_graph(&desc).unwrap();
    (desc, graph)
}

/// A plan with every product packed, one island for the embedding and one for the
/// rest, and the values one behind the other.
fn plan(desc: &ModelDesc, graph: &Graph, max_seq_len: usize) -> Plan {
    let mut weights = Vec::new();
    let mut offset = 0;
    for n in &graph.nodes {
        if let Op::MatMul { weight, .. } = n.op {
            if weights.iter().any(|w: &PackedWeight| w.tensor_index == weight.0) {
                continue;
            }
            let t = &desc.tensors[weight.0];
            let dtype = match t.dtype {
                DType::Q8_0 => DType::Q8_0,
                DType::Q4_K => DType::Q4_K,
                _ => DType::F32,
            };
            let n = (t.shape[0] * t.shape[1]) as u64;
            let len = dtype.byte_len(n).unwrap() as usize;
            weights.push(PackedWeight {
                tensor_index: weight.0,
                dtype,
                rows: t.shape[0] as usize,
                k: t.shape[1] as usize,
                isa: Isa::Avx2,
                offset,
                len,
                act_row: 0,
            });
            offset += len;
        }
    }
    let total = graph.nodes.len();
    Plan {
        weights,
        islands: vec![
            Island {
                kind: "Embed".into(),
                first: 0,
                end: 1,
            },
            Island {
                kind: "Block".into(),
                first: 1,
                end: total,
            },
        ],
        slots: (0..total).map(|i| i * 1000).collect(),
        total_f32: total * 1000,
        act_scratch_off: total * 4000,
        act_scratch_bytes: 1001,
        kv_dim: 32,
        kv_total_bytes: 2 * 2 * 32 * 4 * max_seq_len,
        max_seq_len,
        prefill_tile: 64,
    }
}

// --- steps ---------------------------------------------------------------

fn debug(x: u32) -> String {
    format!("{:?}", f32::from_bits(x))
}

#[test]
fn steps_follow_the_nodes() {
    let (desc, graph) = model();
    let p = plan(&desc, &graph, 64);
    let lir = build_loopir(&p, &graph);
    assert_eq!(lir.islands.len(), 2);
    assert_eq!(lir.islands[0].steps.len(), 1);
    let dump = lir.dump(&debug);
    let lines: Vec<&str> = dump.lines().collect();
    assert_eq!(lines[0], "island Embed");
    let table = desc
        .tensors
        .iter()
        .position(|t| t.name == "token_embed.weight")
        .unwrap();
    assert_eq!(lines[1], format!("  Embed {{ table: {table}, out: 1 }}"));
    assert_eq!(lines[2], "island Block");
    assert!(lines[3].starts_with("  RmsNorm { src: 1, weight: "), "{}", lines[3]);
    assert!(lines[3].ends_with("eps: 1e-5, out: 2, head_dim: None }"), "{}", lines[3]);
    // The dump does not name the instructions.
    assert!(dump.contains("_rs8 w"));
    assert!(!dump.contains("avx2"));
    assert!(dump.contains("theta: 10000.0, style: Interleaved }"), "{dump}");
    assert!(dump.contains("  Attention { q: "), "{dump}");
    assert!(dump.contains("  SwiGlu { gate: "), "{dump}");
    // A packed weight is preceded by packing its input, a plain one is not.
    let steps = &lir.islands[1].steps;
    for (i, s) in steps.iter().enumerate() {
        if let Step::Gemv { weight, rows, k, .. } = s {
            let w = &p.weights[*weight];
            assert_eq!((*rows, *k), (w.rows, w.k));
            let packs = i > 0 && matches!(steps[i - 1], Step::Quantize { .. });
            assert_eq!(packs, w.dtype != DType::F32);
        }
    }
    let quantized = steps
        .iter()
        .filter(|s| matches!(s, Step::Quantize { .. }))
        .count();
    assert!(quantized > 0);
}

#[test]
fn kernels_are_named_by_type_and_instructions() {
    assert_eq!(gemv_symbol(&DType::Q8_0, Isa::Avx2), "inferno_gemv_q8_0_rs8_avx2");
    assert_eq!(gemv_symbol(&DType::F16, Isa::Scalar), "inferno_gemv_f32_rs8_scalar");
    assert_eq!(gemm_symbol(&DType::Q4_K, Isa::Scalar), "inferno_gemm_q4_k_rs8_scalar");
    assert_eq!(attention_symbol(Isa::Avx2), "inferno_attention_f32_avx2");
    assert_eq!(
        kernels::quantize_symbol(&DType::Q4_K, Isa::Avx2),
        "inferno_quantize_row_q8k_avx2"
    );
}

#[test]
fn declarations_cover_the_kernels() {
    let d = kernels::declare_kernels();
    let names: Vec<&str> = d.iter().map(|x| x.name.as_str()).collect();
    assert_eq!(d.len(), 22);
    assert_eq!(names[0], "inferno_gemv_f32_rs8_scalar");
    for n in [
        "inferno_par_gemv",
        "inferno_par_gemm",
        "inferno_attention_f32_scalar",
        "inferno_attention_f32_avx2",
    ] {
        assert!(names.contains(&n));
    }
    let gemm = d
        .iter()
        .find(|x| x.name == "inferno_gemm_q8_0_rs8_avx2")
        .unwrap();
    assert_eq!(gemm.params[..3], [Ty::Ptr; 3]);
    assert_eq!(gemm.params[3..], [Ty::I64; 5]);
    let e = kernels::declare_entry_points();
    assert_eq!((e[0].name.as_str(), e[0].params.len()), ("prefill", 7));
    assert_eq!(e[1].params[0], Ty::I32);
}

// --- profiler slots ------------------------------------------------------

#[test]
fn slots_aggregate_matmuls_across_layers() {
    let (desc, graph) = model();
    let p = plan(&desc, &graph, 64);
    let lir = build_loopir(&p, &graph);
    let slots = assign_slots(&lir, &p, &desc);
    // Two transformer layers, but matmul slots must not double: every
    // label is unique, and no label contains a bare layer index.
    let unique: std::collections::HashSet<_> = slots.labels.iter().collect();
    assert_eq!(unique.len(), slots.labels.len(), "labels: {:?}", slots.labels);
    assert!(slots
        .labels
        .iter()
        .all(|l| !l.contains(".0.") && !l.contains(".1.")));
    // Sanity: the elementwise kinds each collapse to one slot.
    for kind in ["rmsnorm", "rope", "swiglu", "add", "attention"] {
        assert_eq!(slots.labels.iter().filter(|l| *l == kind).count(), 1, "{kind}");
    }
    for isl in &lir.islands {
        for s in &isl.steps {
            let label = step_label(s, &p, &desc);
            assert_eq!(slots.labels[slots.slot(&label)], label);
        }
    }
    assert_eq!(slots.len(), slots.labels.len());
    assert!(!slots.is_empty());
    for (i, l) in slots.labels.iter().enumerate() {
        assert_eq!(slots.slot(l), i, "{l} stands once");
    }
    assert!(ProfileSlots::new().is_empty());
}

#[test]
fn normalize_strips_layer_index() {
    assert_eq!(
        normalize_weight_name("blk.7.attn_q.weight"),
        "blk.*.attn_q.weight"
    );
    assert_eq!(normalize_weight_name("output.weight"), "output.weight");
}

#[test]
fn normalize_looks_at_whole_pieces() {
    assert_eq!(normalize_weight_name("a.7b.8.+9..c"), "a.7b.*.*..c");
    assert_eq!(normalize_weight_name(""), "");
    assert_eq!(
        normalize_weight_name("layers.0.ffn.up_proj.weight"),
        normalize_weight_name("layers.31.ffn.up_proj.weight")
    );
}

// --- description ---------------------------------------------------------

#[test]
fn the_description_sizes_the_buffers() {
    let (desc, graph) = model();
    let p = plan(&desc, &graph, 64);
    let o = CompileOptions::default();
    assert_eq!((o.profile, o.prefill_tile), (false, PREFILL_TILE));
    let m = build_meta(&desc, &p, &o, vec!["x".into()]);
    assert_eq!(m.vocab, 260);
    assert_eq!(m.n_layers, 2);
    assert_eq!(m.arena_f32, p.total_f32 + 251);
    assert_eq!(m.entry_decode, "decode_step");
    assert_eq!(m.model_hash, "");
    assert_eq!(m.profile_slots, vec!["x".to_string()]);
    assert_eq!(HOST_ABI_VERSION, "8");
}

// --- cache ---------------------------------------------------------------

#[test]
fn key_is_stable_and_input_sensitive() {
    let t = "TargetDesc { isa: Avx2 }";
    let m = fixtures::tiny_llama_gguf();
    let k1 = cache_key(&m, t, 64, &CompileOptions::default());
    let k2 = cache_key(&m, t, 64, &CompileOptions::default());
    assert_eq!(k1, k2); // deterministic
    let k3 = cache_key(&m, t, 128, &CompileOptions::default());
    assert_ne!(k1, k3); // max_seq_len is part of the key
    let k_prof = cache_key(
        &m,
        t,
        64,
        &CompileOptions {
            profile: true,
            prefill_tile: 64,
        },
    );
    assert_ne!(k1, k_prof); // profiling is part of the key
    let k_tile = cache_key(
        &m,
        t,
        64,
        &CompileOptions {
            profile: false,
            prefill_tile: 32,
        },
    );
    assert_ne!(k1, k_tile); // prefill_tile is part of the key
    assert_ne!(k1, cache_key(&m, "other", 64, &CompileOptions::default()));
}

#[test]
fn content_hash_changes_with_bytes() {
    assert_ne!(content_hash(b"a"), content_hash(b"b"));
}

#[test]
fn hashes_are_sha256_in_hexadecimal() {
    assert_eq!(
        content_hash(b"hello world"),
        "b94d27b9934d3e08a52e52d7da7dabfac484efe37a5380ee9088f7ace2efcde9"
    );
}

#[test]
fn the_cache_stands_below_the_environment() {
    let s = |x: &str| Some(x.to_string());
    assert_eq!(cache_dir(s("/x"), s("/h"), "k"), ["/x", "inferno", "k"]);
    assert_eq!(cache_dir(None, s("/h"), "k"), ["/h", ".cache", "inferno", "k"]);
    assert_eq!(cache_dir(None, None, "k"), [".cache", "inferno", "k"]);
}

fn file(path: &str, bytes: &[u8]) -> ModelFile {
    ModelFile {
        path: path.as_bytes().to_vec(),
        bytes: bytes.to_vec(),
    }
}

#[test]
fn directories_are_framed_in_path_order() {
    let s = sort_files(vec![
        file("b", b"2"),
        file("a.txt", b"1"),
        file("a/z", b"0"),
    ]);
    let names: Vec<&[u8]> = s.iter().map(|f| f.path.as_slice()).collect();
    // Part by part, as paths are ordered.
    assert_eq!(names, [&b"a/z"[..], b"a.txt", b"b"]);
    let bytes = directory_bytes(vec![file("b", b"xy"), file("a", b"")]);
    let mut want = b"a\0".to_vec();
    want.extend_from_slice(&0u64.to_le_bytes());
    want.extend_from_slice(b"b\0");
    want.extend_from_slice(&2u64.to_le_bytes());
    want.extend_from_slice(b"xy");
    assert_eq!(bytes, want);
    // What moves from one file to the next changes the content.
    assert_ne!(
        directory_bytes(vec![file("a", b"x"), file("b", b"y")]),
        directory_bytes(vec![file("a", b"xy"), file("b", b"")])
    );
}

// --- compiled models -----------------------------------------------------

fn meta() -> Meta {
    let (desc, graph) = model();
    let p = plan(&desc, &graph, 64);
    build_meta(&desc, &p, &CompileOptions::default(), Vec::new())
}

#[test]
fn tampered_meta_is_rejected() {
    let model = b"model";
    let weights = b"weights";
    let m = artifact::finalize_meta(meta(), weights, model, "t");
    assert_eq!(m.target_hash, content_hash(b"t"));
    assert_eq!(artifact::verify_cache(Some(&m), true, Some(weights), model), None);
    let fault = |m: &Meta, code: bool, w: &[u8], b: &[u8]| {
        artifact::verify_cache(Some(m), code, Some(w), b).unwrap()
    };
    assert_eq!(fault(&m, true, b"weight5", model), "weights.bin hash mismatch");
    assert_eq!(fault(&m, true, weights, b"m0del"), "model hash mismatch");
    assert_eq!(fault(&m, false, weights, model), "model.so missing");
    let mut stale = artifact::finalize_meta(meta(), weights, model, "t");
    stale.inferno_version = "0.0.9".into();
    assert_eq!(fault(&stale, false, b"", b""), "inferno_version mismatch");
}

#[test]
fn an_entry_with_a_missing_file_does_not_pass() {
    let m = artifact::finalize_meta(meta(), b"weights", b"model", "t");
    let check = |meta: Option<&Meta>, code: bool, w: Option<&[u8]>| {
        artifact::verify_cache(meta, code, w, b"model")
    };
    assert_eq!(check(Some(&m), true, Some(b"weights")), None);
    assert_eq!(check(Some(&m), true, None).unwrap(), "weights.bin missing");
    assert_eq!(check(Some(&m), false, None).unwrap(), "model.so missing");
    assert_eq!(check(None, true, Some(b"weights")).unwrap(), "meta.json missing");
    assert_eq!(
        artifact::verify_weights(&m, None).unwrap(),
        "weights.bin missing"
    );
    assert_eq!(artifact::advance(Stage::Verify, Event::Mismatch), Stage::Discard);
}

#[test]
fn a_search_loads_only_what_it_trusts() {
    let go = |events: &[Event]| {
        events
            .iter()
            .fold(Stage::Probe, |s, e| artifact::advance(s, *e))
    };
    assert_eq!(go(&[Event::Found(true), Event::Verified]), Stage::Load);
    assert_eq!(
        go(&[
            Event::Found(true),
            Event::Mismatch,
            Event::Removed,
            Event::Compiled,
            Event::Published
        ]),
        Stage::Load
    );
    let lost = [Event::Found(false), Event::Compiled, Event::Taken(true)];
    assert_eq!(go(&lost), Stage::Winner);
    assert_eq!(artifact::advance(Stage::Winner, Event::Verified), Stage::Load);
    assert_eq!(artifact::advance(Stage::Winner, Event::Mismatch), Stage::Fail);
    assert_eq!(artifact::advance(Stage::Publish, Event::Taken(false)), Stage::Fail);
    assert_eq!(go(&[Event::Found(true), Event::Error]), Stage::Fail);
    assert_eq!(artifact::staging_name("k", 12, "ThreadId(1)"), "k.tmp-12-ThreadId(1)");
}

#[test]
fn calls_are_checked_against_the_description() {
    let m = meta();
    let (kv, arena) = (m.kv_total_bytes / 4, m.arena_f32);
    assert_eq!(artifact::check_buffers(&m, kv, arena, 260), None);
    assert_eq!(
        artifact::check_buffers(&m, kv - 1, arena, 260).unwrap(),
        format!("kv buffer too small: {} < {}", kv - 1, kv)
    );
    assert_eq!(
        artifact::check_buffers(&m, kv, 5, 260).unwrap(),
        format!("arena too small: 5 < {arena}")
    );
    assert_eq!(
        artifact::check_buffers(&m, kv, arena, 259).unwrap(),
        "logits_out too small: 259 < 260"
    );
    assert_eq!(artifact::check_prefill(&m, 60, 4), None);
    assert_eq!(
        artifact::check_prefill(&m, 60, 5).unwrap(),
        "prefill: pos_off (60) + tokens (5) exceeds max_seq_len (64)"
    );
    assert_eq!(
        artifact::check_prefill(&m, usize::MAX, 1).unwrap(),
        "prefill: pos_off + tokens overflows usize"
    );
    assert_eq!(artifact::check_decode(&m, 63), None);
    assert_eq!(
        artifact::check_decode(&m, 64).unwrap(),
        "decode_step: pos (64) >= max_seq_len (64)"
    );
}

#[test]
fn the_first_tokens_are_run_at_once() {
    let mut b = CompiledBackend::new(&meta());
    assert_eq!((b.vocab, b.pos), (260, 0));
    assert_eq!(b.forward(&[1, 2, 3]), vec![Call::Prefill { pos_off: 0 }]);
    assert_eq!(
        b.forward(&[7, 8]),
        vec![
            Call::Decode { token: 7, pos: 3 },
            Call::Decode { token: 8, pos: 4 }
        ]
    );
    b.reset();
    assert_eq!(b.forward(&[9]), vec![Call::Prefill { pos_off: 0 }]);
    assert_eq!(b.pos, 1);
}

#[test]
fn after_a_reset_the_same_tokens_make_the_same_calls() {
    let mut b = CompiledBackend::new(&meta());
    let fresh = (b.forward(&[1, 2, 3]), b.forward(&[4]));
    b.forward(&[9, 9]);
    b.reset();
    assert_eq!((b.forward(&[1, 2, 3]), b.forward(&[4])), fresh);
    assert_eq!(fresh.1, vec![Call::Decode { token: 4, pos: 3 }]);
}

#[test]
fn threads_stay_within_the_machine() {
    let mut e = Engine::load("m.gguf".into(), 64, 6, 12);
    assert_eq!(e.threads(), 6);
    e.set_threads(0);
    assert_eq!(e.threads(), 1);
    e.set_threads(99);
    assert_eq!(e.threads(), 12);
    e.set_threads(5);
    assert_eq!(e.threads(), 5);
    e.set_profile(true);
    e.set_prefill_tile(0);
    assert_eq!(
        e.opts,
        CompileOptions {
            profile: true,
            prefill_tile: 1
        }
    );
    assert_eq!(Engine::load("m".into(), 1, 0, 0).threads(), 1);
}

#[test]
fn slots_of_products_have_the_bytes_of_all_layers() {
    let (desc, graph) = model();
    let p = plan(&desc, &graph, 64);
    let slots = assign_slots(&build_loopir(&p, &graph), &p, &desc).labels;
    let bytes = profile_matmul_bytes(&p, &desc, &slots);
    let total: u64 = p.weights.iter().map(|w| w.len as u64).sum();
    assert_eq!(bytes.iter().sum::<u64>(), total);
    let i = slots.iter().position(|s| s == "rmsnorm").unwrap();
    assert_eq!(bytes[i], 0);
    let q = slots
        .iter()
        .position(|s| s == "matmul:layers.*.attn.q_proj.weight")
        .unwrap();
    let one = p
        .weights
        .iter()
        .find(|w| desc.tensors[w.tensor_index].name == "layers.0.attn.q_proj.weight")
        .unwrap();
    assert_eq!(bytes[q], 2 * one.len as u64);
}

// --- what is printed -----------------------------------------------------

fn num(n: Num) -> Option<String> {
    let f = f64::from_bits;
    match n {
        Num::Secs(s) => Some(format!("{:.3}", f(s))),
        Num::Percent { part, whole } => Some(format!("{:.1}", part as f64 / whole as f64 * 100.0)),
        Num::Plain(x) => Some(format!("{:.2}", f(x))),
        Num::Ratio { a, b } => Some(format!("{:.2}", f(a) / f(b).max(1e-9))),
        Num::Rate {
            bytes,
            part,
            whole,
            secs,
        } => {
            let t = part as f64 / whole as f64 * f(secs);
            let r = bytes as f64 / t / 1e9;
            if t > 0.0 && r > 0.0 {
                Some(format!("{r:.1}"))
            } else {
                None
            }
        }
    }
}

#[test]
fn render_sorts_and_computes_share() {
    let slots = vec![
        "matmul:blk.*.attn_q.weight".to_string(),
        "rmsnorm".to_string(),
    ];
    let out = profile::render(
        "decode",
        &slots,
        &vec![100, 300],
        &vec![6_000_000, 0],
        0.5f64.to_bits(),
        &num,
    );
    assert!(out.contains("matmul:blk.*.attn_q.weight"));
    // The first data row (after the two header lines) must be rmsnorm:
    // proof the higher-cycle op was sorted ahead of matmul.
    let lines: Vec<&str> = out.lines().collect();
    assert!(
        lines[2].contains("rmsnorm"),
        "expected rmsnorm (300 cyc) sorted before matmul (100 cyc), got: {}",
        lines[2]
    );
    assert!(out.contains("25.0%")); // matmul: 100/400
    assert!(out.contains("75.0%")); // rmsnorm: 300/400
    // matmul row shows a GB/s number; rmsnorm shows '-'.
    let mm_line = out.lines().find(|l| l.contains("attn_q")).unwrap();
    assert!(mm_line.contains('.') && !mm_line.contains(" - "));
    let rms_line = out.lines().find(|l| l.contains("rmsnorm")).unwrap();
    assert!(rms_line.trim_end().ends_with('-'));
}

#[test]
fn a_profile_is_laid_out_in_columns() {
    let slots: Vec<String> = ["add", "rope", "embed"].iter().map(|s| s.to_string()).collect();
    let out = profile::render(
        "prefill",
        &slots,
        &vec![5, 10, 5],
        &vec![0, 40_000_000_000, 0],
        4f64.to_bits(),
        &num,
    );
    let want = format!(
        "profile [prefill] 4.000s wall, 20 cyc total\n  {:<28} {:>14} {:>7}  {:>10}\n{}{}{}",
        "op",
        "cycles",
        "share",
        "GB/s",
        format!("  {:<28} {:>14} {:>6.1}%  {:>10}\n", "rope", 10, 50.0, "20.0"),
        format!("  {:<28} {:>14} {:>6.1}%  {:>10}\n", "add", 5, 25.0, "-"),
        format!("  {:<28} {:>14} {:>6.1}%  {:>10}\n", "embed", 5, 25.0, "-"),
    );
    assert_eq!(out, want);
    let none = profile::render("x", &slots, &vec![0, 0, 0], &vec![0, 9, 0], 0, &num);
    assert!(none.contains("0.0%"));
    assert!(!none.contains("NaN"));
}

#[test]
fn render_attn_subprofile_prints_greppable_rows() {
    let out = profile::render_attn_subprofile((10, 20, 30));
    assert!(out.contains("60 cyc instrumented"), "{out}");
    // Every row must start at column 0 with `attn:(scores|softmax|output)`.
    let rows: Vec<&str> = out.lines().filter(|l| l.starts_with("attn:")).collect();
    assert_eq!(rows.len(), 3, "{out}");
    assert!(
        rows[0].starts_with("attn:scores") && rows[0].contains("10"),
        "{out}"
    );
    assert!(
        rows[1].starts_with("attn:softmax") && rows[1].contains("20"),
        "{out}"
    );
    assert!(
        rows[2].starts_with("attn:output") && rows[2].contains("30"),
        "{out}"
    );
    assert_eq!(rows[1], format!("{:<13} {:>14}", "attn:softmax", 20));
}

#[test]
fn render_pool_prints_buckets_and_identity() {
    let snap = PoolProf {
        calls: 3,
        publish_cyc: 100,
        kernel0_cyc: 700,
        drain_cyc: 200,
        wake_max_cyc: 90,
        wake_parked_cyc: 60,
        parked_calls: 1,
        kernel_max_cyc: 750,
        alloc_max_cyc: 30,
        lane_wake_cyc: vec![0, 90],
        lane_kernel_cyc: vec![700, 740],
        lane_alloc_cyc: vec![30, 25],
        lane_parked_calls: vec![0, 1],
        hist_log2: {
            let mut h = vec![0u64; 64];
            h[9] = 3;
            h
        },
    };
    let out = profile::render_pool(&snap, 1100, &num);
    assert!(out.starts_with("pool [decode attention] 3 calls"), "{out}");
    // instr_total = 1000, op attention = 1100 → 90.9%.
    assert!(out.contains("90.9%"), "{out}");
    assert!(out.contains("publish"), "{out}");
    assert!(out.contains("kernel(shard0)"), "{out}");
    assert!(out.contains("drain"), "{out}");
    assert!(out.contains("wake-parked 60 (1 calls)"), "{out}");
    assert!(out.contains("2^9:3"), "{out}");
    // publish share of instr total: 100/1000.
    assert!(out.contains("10.0%"), "{out}");
    let lane = format!("  {:<6} {:>14} {:>14} {:>14} {:>13}", 1, 90, 740, 25, 1);
    assert!(out.contains(&lane), "{out}");
    assert!(profile::render_pool(&snap, 0, &num).contains("attention: 0.0% (adm"));
}

fn measured(a: f64, b: f64, c: f64, d: f64) -> InfernoNumbers {
    InfernoNumbers {
        pp: Measurement {
            mean_tok_s: a.to_bits(),
            stddev_tok_s: b.to_bits(),
        },
        tg: Measurement {
            mean_tok_s: c.to_bits(),
            stddev_tok_s: d.to_bits(),
        },
    }
}

#[test]
fn render_table_snapshot() {
    let r = BenchReport {
        model: "qwen2.5-0.5b-instruct-q8_0.gguf".into(),
        model_type: "qwen2 1B Q8_0".into(),
        cpu_info: "AMD Ryzen 9 3900 12-Core Processor".into(),
        physical_cores: 12,
        logical_cores: 24,
        inferno_version: "0.1.0".into(),
        inferno_git: "0b09ece".into(),
        llama_build_commit: "3ab8b3a9".into(),
        pp: 512,
        tg: 128,
        reps: 5,
        inferno_threads: 1,
        llama_threads: 12,
        inferno: measured(110.2, 1.4, 26.1, 0.3),
        llama: measured(486.4, 4.9, 84.0, 0.8),
        llama_t1: Some(measured(52.1, 0.5, 9.3, 0.1)),
        inferno_t1: Some(measured(58.0, 0.9, 21.4, 0.2)),
    };
    let out = bench::render_table(&r, &num);
    let row = |name: &str, t: u64, a: f64, b: f64, c: f64, d: f64| {
        format!("{name:<22} {t:>7} {a:>11.2} ± {b:<5.2} {c:>11.2} ± {d:<5.2}\n")
    };
    let want = [
        "model: qwen2.5-0.5b-instruct-q8_0.gguf (qwen2 1B Q8_0)\n".to_string(),
        "cpu: AMD Ryzen 9 3900 12-Core Processor (12 physical / 24 logical cores)\n".to_string(),
        "inferno 0.1.0 (0b09ece) vs llama.cpp 3ab8b3a9 | pp=512 tg=128 reps=5\n\n".to_string(),
        format!(
            "{:<22} {:>7} {:>18} {:>18}\n",
            "engine", "threads", "pp512 tok/s", "tg128 tok/s"
        ),
        row("inferno (compiled)", 1, 110.2, 1.4, 26.1, 0.3),
        row("inferno (t=1 diag)", 1, 58.0, 0.9, 21.4, 0.2),
        row("llama.cpp", 12, 486.4, 4.9, 84.0, 0.8),
        row("llama.cpp (t=1 diag)", 1, 52.1, 0.5, 9.3, 0.1),
        "\nratio (inferno/llama.cpp): pp 0.23x | tg 0.31x\n".to_string(),
    ]
    .concat();
    assert_eq!(out, want);
}

fn row(n_prompt: u64, n_gen: u64, n_threads: u64, avg: f64) -> LlamaBenchRow {
    LlamaBenchRow {
        build_commit: "3ab8b3a9".into(),
        cpu_info: "cpu".into(),
        model_type: "llama".into(),
        n_prompt,
        n_gen,
        n_threads,
        avg_ts: avg.to_bits(),
        stddev_ts: 4.9f64.to_bits(),
    }
}

fn compared(threads: u64) -> Compared {
    Compared {
        model: "m".into(),
        physical_cores: 12,
        logical_cores: 24,
        inferno_git: "g".into(),
        pp: 512,
        tg: 128,
        reps: 5,
        threads,
        inferno: InfernoRun {
            headline: measured(1.0, 2.0, 3.0, 4.0),
            t1: None,
            threads: 7,
        },
    }
}

#[test]
fn rows_are_found_by_size_and_threads() {
    let rows = vec![row(512, 0, 12, 486.4), row(0, 128, 12, 84.0)];
    assert_eq!(
        bench::find_row(&rows, 512, 0, 12).unwrap().avg_ts,
        486.4f64.to_bits()
    );
    assert_eq!(bench::find_row(&rows, 0, 128, 12).unwrap().avg_ts, 84f64.to_bits());
    assert!(bench::find_row(&rows, 512, 0, 1).is_none());
}

#[test]
fn a_report_needs_its_rows() {
    let mut rows = vec![row(512, 0, 12, 486.4), row(0, 128, 12, 84.0)];
    assert_eq!(
        bench::bench_report(compared(12), &rows).unwrap_err(),
        "llama-bench output missing the (pp=512, tg=0, t=1) row"
    );
    rows.push(row(512, 0, 1, 52.1));
    rows.push(row(0, 128, 1, 9.3));
    let r = bench::bench_report(compared(12), &rows).unwrap();
    assert_eq!(r.llama, measured(486.4, 4.9, 84.0, 4.9));
    assert_eq!(r.llama_t1, Some(measured(52.1, 4.9, 9.3, 4.9)));
    assert_eq!((r.inferno_threads, r.llama_threads), (7, 12));
    assert_eq!(r.inferno_version, "0.1.0");
    let one = bench::bench_report(compared(1), &rows).unwrap();
    assert_eq!(one.llama_t1, None);
    assert_eq!(one.llama, measured(52.1, 4.9, 9.3, 4.9));
    assert_eq!(
        bench::bench_report(compared(3), &rows).unwrap_err(),
        "llama-bench output missing the (pp=512, tg=0, t=3) row"
    );
}

/// Validation must reject zero sizes before any measurement happens.
#[test]
fn bench_rejects_zero_sizes() {
    for (pp, tg, reps) in [(0, 1, 1), (1, 0, 1), (1, 1, 0)] {
        let e = bench::check_sizes(pp, tg, reps, 4, 8).unwrap_err();
        assert!(e.contains("must all be > 0"));
    }
    assert_eq!(bench::check_sizes(1, 1, 1, 4, 8), Ok(4));
    assert_eq!(bench::check_sizes(1, 1, 1, 0, 8), Ok(8));
    assert_eq!(bench::thread_list(1), vec![1]);
    assert_eq!(bench::thread_list(6), vec![6, 1]);
}

#[test]
fn measure_inferno_rejects_prompt_beyond_context() {
    let (desc, _) = model();
    let hp = &desc.hyperparams;
    // tiny.gguf's context length is far below 1<<20.
    let r = bench::plan_bench(hp.context_length, hp.vocab_size, 1 << 20, 4);
    assert!(r.is_err());
    assert_eq!(
        r.unwrap_err(),
        "model context length 128 is too small for pp=1048576 + tg=4"
    );
}

#[test]
fn measurements_are_planned() {
    let p = bench::plan_bench(0, 4, 7, 2).unwrap();
    assert_eq!(p.max_seq_len, 9);
    assert_eq!(p.ids, vec![1, 2, 3, 1, 2, 3, 1]);
    assert_eq!(
        bench::plan_bench(0, 1, 7, 2).unwrap_err(),
        "model vocab too small for synthetic prompt"
    );
    assert_eq!(bench::plan_bench(0, 1 << 40, 7, 2).unwrap_err(), "vocab size exceeds u32");
    let (warm, sample) = (BenchStep::Warmup, BenchStep::Sample);
    let (one, all) = (BenchStep::OneThread, BenchStep::AllThreads);
    let diag = BenchStep::SampleOne;
    assert_eq!(bench::bench_schedule(2, 1, true), vec![warm, sample, sample]);
    assert_eq!(
        bench::bench_schedule(2, 4, true),
        vec![warm, sample, sample, one, warm, diag, diag, all]
    );
    assert_eq!(bench::bench_schedule(1, 4, false), vec![warm, sample]);
}

#[test]
fn inspect_mlx_dir() {
    let (mut desc, _) = model();
    let out = inspect::render(&desc, 2, &|x| format!("{}", f32::from_bits(x)));
    assert!(out.contains("architecture: llama"));
    assert!(out.contains(
        "hyperparams: layers=2 hidden=64 heads=2 kv_heads=1 ffn=256 vocab=260 ctx=128 \
         rope_theta=10000 norm_eps=0.00001\n"
    ));
    let n = desc.tensors.len();
    assert!(out.contains(&format!("tensors: {n}\n")));
    let t = &desc.tensors[0];
    assert!(out.contains(&format!("  {:<40} {:>12} F32\n", t.name, "260x64")));
    assert!(out.ends_with(&format!("  … and {} more\n", n - 2)));
    let all = inspect::render(&desc, n, &|x| format!("{}", f32::from_bits(x)));
    assert!(!all.contains("more"));
    assert!(!inspect::render(&desc, 0, &|_| String::new()).contains('…'));
    desc.architecture = Architecture::Unknown("mamba".into());
    assert_eq!(inspect::arch_label(&desc.architecture), "unknown (mamba)");
}

#[test]
fn lengths_are_clamped_to_the_context() {
    assert_eq!(run::clamp_max_seq_len(128, 4096), 128);
    assert_eq!(run::clamp_max_seq_len(128, 64), 64);
    assert_eq!(run::clamp_max_seq_len(0, 4096), 4096);
}

#[test]
fn generation_stops_where_it_should() {
    let mut d = Decode::new();
    assert!(d.wants(2));
    assert!(d.take(5, Some(0), 3, 2, 10));
    assert!(d.take(5, Some(0), 3, 2, 10));
    assert!(!d.wants(2));
    assert_eq!((d.step, d.generated), (2, 2));
    let mut e = Decode::new();
    assert!(!e.take(0, Some(0), 3, 2, 10));
    assert_eq!((e.generated, e.done), (0, true));
    // The token that finds no room counts, but is not run.
    let mut f = Decode::new();
    assert!(f.take(5, None, 3, 9, 4));
    assert!(!f.take(5, None, 3, 9, 4));
    assert_eq!((f.step, f.generated, f.done), (1, 2, true));
    assert!(run::prompt_fits(3, 4));
    assert!(!run::prompt_fits(4, 4));
    assert!(!run::prompt_fits(0, 4));
}

#[test]
fn runs_are_chosen_by_their_flags() {
    assert_eq!(run::run_mode(false, true), Ok(RunMode::Interpret));
    assert_eq!(run::run_mode(false, false), Ok(RunMode::Compiled));
    assert_eq!(run::run_mode(true, false), Ok(RunMode::Profile));
    assert_eq!(
        run::run_mode(true, true).unwrap_err(),
        "--profile requires the compiled path (incompatible with --interp)"
    );
}

#[test]
fn profiles_use_their_slots() {
    let slots = vec!["add".to_string(), "attention".to_string()];
    assert_eq!(run::attention_cycles(&slots, &vec![1, 7]), 7);
    assert_eq!(run::attention_cycles(&vec!["add".to_string()], &vec![1]), 0);
    assert_eq!(run::scale_bytes(&vec![3, 0], 4), vec![12, 0]);
}

#[test]
fn token_lists_part_at_the_first_difference() {
    assert_eq!(run::first_difference(&[1, 2], &[1, 2]), None);
    assert_eq!(run::first_difference(&[1, 2], &[1, 3]), Some(1));
    assert_eq!(run::first_difference(&[1, 2], &[1, 2, 3]), Some(2));
    assert_eq!(run::first_difference(&[], &[1]), Some(0));
}
