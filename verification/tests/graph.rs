//! The graph builder, the scalar operations and the interpreter.

use inferno::formats::data::read_tensor_bytes;
use inferno::formats::desc::{Architecture, DType, ModelDesc, RopeStyle, TensorDesc};
use inferno::formats::fixtures;
use inferno::formats::gguf;
use inferno::formats::load::load_file;
use inferno::formats::mlx::{load_dir, MlxConfig, Shard};
use inferno::formats::quant;
use inferno::graph::builder::build_graph;
use inferno::graph::error::GraphError;
use inferno::graph::interp::{Interpreter, KvCache};
use inferno::graph::ir::{Dim, Graph, Node, Op, Shape, TensorRef};
use inferno::graph::ops;
use inferno::graph::ops::{Math, Tensor};
use inferno::graph::tolerance;

fn bits(v: &[f32]) -> Vec<u32> {
    v.iter().map(|x| x.to_bits()).collect()
}

fn floats(v: &[u32]) -> Vec<f32> {
    v.iter().map(|x| f32::from_bits(*x)).collect()
}

fn root(x: u32) -> u32 {
    f32::from_bits(x).sqrt().to_bits()
}

fn exponential(x: u32) -> u32 {
    f32::from_bits(x).exp().to_bits()
}

fn power(a: u32, b: u32) -> u32 {
    f32::from_bits(a).powf(f32::from_bits(b)).to_bits()
}

fn turn(x: u32) -> (u32, u32) {
    let (s, c) = f32::from_bits(x).sin_cos();
    (s.to_bits(), c.to_bits())
}

type F1 = fn(u32) -> u32;
type F2 = fn(u32, u32) -> u32;
type F3 = fn(u32) -> (u32, u32);

fn math() -> Math<F1, F1, F2, F3> {
    Math {
        sqrt: root,
        exp: exponential,
        pow: power,
        sin_cos: turn,
    }
}

fn t(shape: &[usize], data: &[f32]) -> Tensor {
    Tensor {
        shape: shape.to_vec(),
        data: bits(data),
    }
}

fn gguf_model() -> (ModelDesc, Vec<Vec<u8>>) {
    let bytes = fixtures::tiny_llama_gguf();
    (load_file("tiny.gguf", &bytes).unwrap(), vec![bytes])
}

fn mlx_model() -> (ModelDesc, Vec<Vec<u8>>) {
    let config = MlxConfig {
        model_type: "llama".into(),
        hidden_size: 64,
        num_hidden_layers: 2,
        num_attention_heads: 2,
        num_key_value_heads: Some(1),
        intermediate_size: 256,
        vocab_size: 260,
        rope_theta: Some(10000.0f32.to_bits()),
        rms_norm_eps: Some(1e-5f32.to_bits()),
        max_position_embeddings: Some(128),
    };
    let bytes = fixtures::tiny_llama_safetensors();
    let shard = Shard {
        path: "mlx/model.safetensors".into(),
        bytes: fixtures::tiny_llama_safetensors(),
    };
    (
        load_dir("mlx", Some("mlx".into()), config, vec![shard], None).unwrap(),
        vec![bytes],
    )
}

fn run(
    interp: &mut Interpreter,
    m: &(ModelDesc, Vec<Vec<u8>>),
    g: &Graph,
    toks: &[u32],
    kv: &mut KvCache,
) -> Result<Tensor, GraphError> {
    interp.run(&m.0, &m.1, g, toks, kv, &math())
}

fn argmax(row: &[f32]) -> usize {
    row.iter()
        .enumerate()
        .max_by(|a, b| a.1.total_cmp(b.1))
        .unwrap()
        .0
}

fn numbers(g: &Graph) -> Vec<String> {
    (0..g.nodes.len())
        .map(|i| match g.number_of(i) {
            Some(x) => format!("{}", f32::from_bits(x)),
            None => String::new(),
        })
        .collect()
}

// --- ir ------------------------------------------------------------------

#[test]
fn dump_is_stable_and_readable() {
    let desc = gguf::parse(&fixtures::tiny_llama_gguf()).unwrap();
    let embed_idx = desc
        .tensors
        .iter()
        .position(|t| t.name == "token_embed.weight")
        .unwrap();
    let g = Graph {
        nodes: vec![Node {
            op: Op::Embed {
                weight: TensorRef(embed_idx),
            },
            inputs: vec![0],
            out_shape: Shape(vec![Dim::SeqLen, Dim::Const(64)]),
            label: "embed".into(),
        }],
        output: 1,
        n_layers: 2,
        n_kv_heads: 1,
        head_dim: 32,
    };
    let dump = g.dump(&desc, &numbers(&g));
    assert!(dump.contains("%1 = embed(%0, @token_embed.weight[260x64:F32]) : [seq,64]"));
}

// --- ops -----------------------------------------------------------------

#[test]
fn embed_looks_up_rows_and_bounds_checks() {
    let table = bits(&[0.0, 1.0, 2.0, 3.0]); // vocab 2, hidden 2
    let e = ops::embed(&[1, 0], &table, 2, 2).unwrap();
    assert_eq!(floats(&e.data), vec![2.0, 3.0, 0.0, 1.0]);
    assert!(matches!(
        ops::embed(&[2], &table, 2, 2),
        Err(GraphError::TokenOutOfRange { id: 2, vocab: 2 })
    ));
}

#[test]
fn matmul_hand_computed() {
    // x = [[1,2]], w rows: [3,4], [5,6]  → [1*3+2*4, 1*5+2*6] = [11, 17]
    let w = bits(&[3.0, 4.0, 5.0, 6.0]);
    let out = ops::matmul(&t(&[1, 2], &[1.0, 2.0]), &w, 2, 2, None);
    assert_eq!(floats(&out.data), vec![11.0, 17.0]);
    let b = bits(&[10.0, 20.0]);
    let out = ops::matmul(&t(&[1, 2], &[1.0, 2.0]), &w, 2, 2, Some(&b));
    assert_eq!(floats(&out.data), vec![21.0, 37.0]);
}

#[test]
fn rmsnorm_hand_computed() {
    // x=[3,4]: rms = sqrt((9+16)/2 + 0) = 3.5355339; w=[2,2] → [1.6970563, 2.2627417]
    let out = ops::rmsnorm(
        &t(&[1, 2], &[3.0, 4.0]),
        &bits(&[2.0, 2.0]),
        0,
        None,
        &math(),
    );
    let d = floats(&out.data);
    assert!((d[0] - 1.697_056_3).abs() < 1e-5);
    assert!((d[1] - 2.262_741_7).abs() < 1e-5);
}

#[test]
fn rmsnorm_large_eps_is_inside_sqrt() {
    // 1/sqrt(1 + 3) = 0.5 exactly.
    let out = ops::rmsnorm(
        &t(&[1, 1], &[1.0]),
        &bits(&[1.0]),
        3f32.to_bits(),
        None,
        &math(),
    );
    assert_eq!(floats(&out.data), vec![0.5]);
}

#[test]
fn rmsnorm_per_head_normalizes_each_head() {
    // 2 heads of dim 2; second head huge — must not affect first head's norm.
    let x = t(&[1, 4], &[3.0, 4.0, 300.0, 400.0]);
    let out = ops::rmsnorm(&x, &bits(&[1.0, 1.0]), 0, Some(2), &math());
    let d = floats(&out.data);
    assert!((d[0] - 3.0 / 3.535_534).abs() < 1e-5);
    assert!((d[2] - 300.0 / 353.553_39).abs() < 1e-3);
}

#[test]
fn rmsnorm_drops_what_is_left_over() {
    let x = t(&[1, 5], &[3.0, 4.0, 6.0, 8.0, 9.0]);
    let out = ops::rmsnorm(&x, &bits(&[1.0, 1.0]), 0, Some(2), &math());
    assert_eq!(out.data.len(), 4);
    assert_eq!(out.shape, vec![1, 5]);
}

#[test]
fn rope_at_position_zero_is_identity() {
    let x = t(&[1, 4], &[1.0, 2.0, 3.0, 4.0]);
    for style in [RopeStyle::Interleaved, RopeStyle::HalfSplit] {
        let out = ops::rope(&x, 1, 4, 10000f32.to_bits(), style, 0, &math());
        assert_eq!(out.data, x.data, "{style:?}");
    }
}

#[test]
fn rope_hand_computed_position_one() {
    // head_dim 2, one pair, freq = theta^0 = 1 → angle = pos = 1 rad.
    // [1, 0] at pos 1 → [cos1, sin1] in both styles (pair (0,1)).
    let x = t(&[1, 2], &[1.0, 0.0]);
    for style in [RopeStyle::Interleaved, RopeStyle::HalfSplit] {
        let out = ops::rope(&x, 1, 2, 10000f32.to_bits(), style, 1, &math());
        let d = floats(&out.data);
        assert!((d[0] - 0.540_302_3).abs() < 1e-6, "{style:?}");
        assert!((d[1] - 0.841_470_96).abs() < 1e-6, "{style:?}");
    }
}

#[test]
fn rope_hand_computed_position_one_nonzero_cross_term() {
    // out0 = x0 cos - x1 sin, out1 = x0 sin + x1 cos.
    let x = t(&[1, 2], &[1.0, 2.0]);
    for style in [RopeStyle::Interleaved, RopeStyle::HalfSplit] {
        let out = ops::rope(&x, 1, 2, 10000f32.to_bits(), style, 1, &math());
        let d = floats(&out.data);
        assert!((d[0] - (-1.142_639_7)).abs() < 1e-5, "{style:?}");
        assert!((d[1] - 1.922_075_6).abs() < 1e-5, "{style:?}");
    }
}

#[test]
fn rope_styles_pair_differently_at_dim4() {
    // head_dim 4: Interleaved pairs (0,1),(2,3); HalfSplit pairs (0,2),(1,3).
    let x = t(&[1, 4], &[1.0, 0.0, 1.0, 0.0]);
    let th = 10000f32.to_bits();
    let inter = ops::rope(&x, 1, 4, th, RopeStyle::Interleaved, 1, &math());
    let half = ops::rope(&x, 1, 4, th, RopeStyle::HalfSplit, 1, &math());
    assert_ne!(inter.data, half.data);
}

/// The numbers of each head in pairs of neighbours, out of halves.
fn in_pairs(v: &[u32], head: usize) -> Vec<u32> {
    v.chunks(head)
        .flat_map(|h| (0..head).map(move |k| h[k % 2 * (head / 2) + k / 2]))
        .collect()
}

#[test]
fn the_two_ways_to_store_a_projection_agree() {
    // Three rows of width 8, projected to two heads of width 4.
    let x = t(&[3, 8], &stream(21, 24));
    let w = bits(&stream(22, 64));
    let moved = fixtures::permute_rows(&w, 8, 8, 2);
    assert_ne!(moved, w);
    let th = 10000f32.to_bits();
    let halves = ops::matmul(&x, &w, 8, 8, None);
    let pairs = ops::matmul(&x, &moved, 8, 8, None);
    assert_eq!(pairs.data, in_pairs(&halves.data, 4));
    let halves = ops::rope(&halves, 2, 4, th, RopeStyle::HalfSplit, 5, &math());
    let pairs = ops::rope(&pairs, 2, 4, th, RopeStyle::Interleaved, 5, &math());
    assert_eq!(pairs.data, in_pairs(&halves.data, 4));
}

#[test]
fn rows_turn_alone_and_keep_their_lengths() {
    let x = stream(23, 3 * 16);
    let th = 10000f32.to_bits();
    for style in [RopeStyle::Interleaved, RopeStyle::HalfSplit] {
        let whole = ops::rope(&t(&[3, 16], &x), 2, 8, th, style, 7, &math());
        for s in 0..3 {
            let row = t(&[1, 16], &x[s * 16..s * 16 + 16]);
            let alone = ops::rope(&row, 2, 8, th, style, 7 + s, &math());
            assert_eq!(alone.data, whole.data[s * 16..s * 16 + 16]);
        }
        let y = floats(&whole.data);
        for base in (0..48).step_by(8) {
            for i in 0..4 {
                let (a, b) = match style {
                    RopeStyle::Interleaved => (base + 2 * i, base + 2 * i + 1),
                    RopeStyle::HalfSplit => (base + i, base + i + 4),
                };
                let before = f64::from(x[a]).powi(2) + f64::from(x[b]).powi(2);
                let after = f64::from(y[a]).powi(2) + f64::from(y[b]).powi(2);
                assert!((after - before).abs() <= before / 262_144.0);
            }
        }
    }
}

#[test]
fn swiglu_hand_computed() {
    // silu(1) = 1/(1+e^-1) = 0.731058578; × up 2 = 1.462117
    let out = ops::swiglu(&t(&[1, 1], &[1.0]), &t(&[1, 1], &[2.0]), &math());
    assert!((floats(&out.data)[0] - 1.462_117_2).abs() < 1e-6);
}

#[test]
fn sums_stop_with_the_shorter_tensor() {
    let out = ops::add(&t(&[1, 3], &[1.0, 2.0, 3.0]), &t(&[1, 2], &[0.5, 0.25]));
    assert_eq!(floats(&out.data), vec![1.5, 2.25]);
    assert_eq!((out.rows(), out.cols()), (1, 3));
}

#[test]
fn attention_single_head_hand_computed() {
    // q=1: scores [1, 2] → softmax [e1,e2]/Σ → out = (10 e1 + 20 e2)/(e1+e2)
    let q = t(&[1, 1], &[1.0]);
    let e1 = 1f32.exp();
    let e2 = 2f32.exp();
    let expect = (10.0 * e1 + 20.0 * e2) / (e1 + e2);
    let k = bits(&[1.0, 2.0]);
    let v = bits(&[10.0, 20.0]);
    let out = ops::attention(&q, &k, &v, 2, 1, 1, 1, 1, &math());
    assert!((floats(&out.data)[0] - expect).abs() < 1e-4);
}

#[test]
fn attention_is_causal() {
    // 2 query rows over a 2-row cache with pos_off 0: row 0 may only see
    // key 0; making key 1 enormous must not change row 0's output.
    let q = t(&[2, 1], &[1.0, 1.0]);
    let k = bits(&[1.0, 1.0]);
    let v = bits(&[10.0, 999.0]);
    let a = ops::attention(&q, &k, &v, 2, 1, 1, 1, 0, &math());
    assert!((floats(&a.data)[0] - 10.0).abs() < 1e-5); // only v[0] visible
}

#[test]
fn attention_gqa_maps_query_heads_to_shared_kv_head() {
    // 2 query heads share 1 kv head (head_dim 1).
    let q = t(&[1, 2], &[1.0, 3.0]);
    let out = ops::attention(&q, &bits(&[1.0]), &bits(&[7.0]), 1, 2, 1, 1, 0, &math());
    assert_eq!(floats(&out.data), vec![7.0, 7.0]); // single key → output is v
}

#[test]
fn attention_gqa_group_mapping_is_contiguous_not_interleaved() {
    let q = t(&[1, 4], &[1.0, 2.0, 3.0, 4.0]);
    let k = bits(&[1.0, 2.0]);
    let v = bits(&[100.0, 200.0]);
    let out = ops::attention(&q, &k, &v, 1, 4, 2, 1, 0, &math());
    assert_eq!(floats(&out.data), vec![100.0, 100.0, 200.0, 200.0]);
}

#[test]
fn what_attention_gives_lies_among_the_values() {
    // Two query heads of width 4 that share one key head, over ten rows.
    let (q, k) = (stream(31, 8), stream(32, 40));
    for v in [stream(33, 40), vec![1.0; 40], vec![-0.3; 40]] {
        let out = ops::attention(&t(&[1, 8], &q), &bits(&k), &bits(&v), 10, 2, 1, 4, 9, &math());
        for (p, y) in floats(&out.data).iter().enumerate() {
            let seen: Vec<f32> = (0..10).map(|r| v[r * 4 + p % 4]).collect();
            let lo = seen.iter().copied().fold(f32::INFINITY, f32::min);
            let hi = seen.iter().copied().fold(f32::NEG_INFINITY, f32::max);
            let slack = lo.abs().max(hi.abs()) * 10.0 / 2_097_152.0;
            assert!(lo - slack <= *y && *y <= hi + slack, "{lo} {y} {hi}");
        }
    }
}

fn stream(seed: u32, n: usize) -> Vec<f32> {
    let mut s = seed;
    (0..n)
        .map(|_| {
            s = s.wrapping_mul(1664525).wrapping_add(1013904223);
            (s >> 8) as f32 / (1u32 << 24) as f32 * 4.0 - 2.0
        })
        .collect()
}

#[test]
fn operations_match_floating_point_bit_for_bit() {
    let x = stream(1, 3 * 8);
    let w = stream(2, 5 * 8);
    let b = stream(3, 5);
    let out = ops::matmul(&t(&[3, 8], &x), &bits(&w), 5, 8, Some(&bits(&b)));
    for s in 0..3 {
        for n in 0..5 {
            let mut acc = 0f32;
            for j in 0..8 {
                acc += x[s * 8 + j] * w[n * 8 + j];
            }
            assert_eq!(out.data[s * 5 + n], (acc + b[n]).to_bits());
        }
    }
    let g = stream(4, 24);
    let out = ops::swiglu(&t(&[3, 8], &x), &t(&[3, 8], &g), &math());
    for i in 0..24 {
        assert_eq!(out.data[i], ((x[i] / (1.0 + (-x[i]).exp())) * g[i]).to_bits());
    }
    // Two query heads of width 4 that share one key head, two rows behind three.
    let q = stream(5, 2 * 8);
    let k = stream(6, 5 * 4);
    let v = stream(7, 5 * 4);
    let out = ops::attention(&t(&[2, 8], &q), &bits(&k), &bits(&v), 5, 2, 1, 4, 3, &math());
    let scale = 1.0 / 4f32.sqrt();
    for s in 0..2 {
        let visible = 3 + s + 1;
        for h in 0..2 {
            let qv = &q[s * 8 + h * 4..][..4];
            let scores: Vec<f32> = (0..visible)
                .map(|t| {
                    let mut acc = 0f32;
                    for j in 0..4 {
                        acc += qv[j] * k[t * 4 + j];
                    }
                    acc * scale
                })
                .collect();
            let max = scores.iter().fold(f32::NEG_INFINITY, |m, v| m.max(*v));
            let raw: Vec<f32> = scores.iter().map(|s| (s - max).exp()).collect();
            let mut denom = 0f32;
            for r in &raw {
                denom += r;
            }
            for d in 0..4 {
                let mut acc = 0f32;
                for t in 0..visible {
                    acc += raw[t] / denom * v[t * 4 + d];
                }
                assert_eq!(out.data[s * 8 + h * 4 + d], acc.to_bits());
            }
        }
    }
    let out = ops::rope(
        &t(&[2, 8], &q),
        2,
        4,
        10000f32.to_bits(),
        RopeStyle::HalfSplit,
        20_000_001,
        &math(),
    );
    for s in 0..2 {
        let pos = (20_000_001 + s) as f32;
        for h in 0..2 {
            for i in 0..2 {
                let freq = 10000f32.powf(-2.0 * i as f32 / 4f32);
                let (sin, cos) = (pos * freq).sin_cos();
                let (a, b) = (s * 8 + h * 4 + i, s * 8 + h * 4 + i + 2);
                assert_eq!(out.data[a], (q[a] * cos - q[b] * sin).to_bits());
                assert_eq!(out.data[b], (q[a] * sin + q[b] * cos).to_bits());
            }
        }
    }
}

// --- builder -------------------------------------------------------------

#[test]
fn tied_embeddings_reuse_token_embed() {
    let (desc, _) = gguf_model();
    let g = build_graph(&desc).unwrap();
    let embed_idx = desc
        .tensors
        .iter()
        .position(|t| t.name == "token_embed.weight")
        .unwrap();
    // Final matmul's weight must be the embedding table (no lm_head in fixture).
    let last = g.nodes.last().unwrap();
    match &last.op {
        Op::MatMul { weight, .. } => assert_eq!(weight.0, embed_idx),
        other => panic!("expected final MatMul, got {other:?}"),
    }
}

#[test]
fn missing_tensor_is_typed_error() {
    let (mut desc, _) = gguf_model();
    desc.tensors
        .retain(|t| t.name != "layers.0.ffn.gate_proj.weight");
    assert!(matches!(
        build_graph(&desc),
        Err(GraphError::MissingTensor(name)) if name.contains("gate_proj")
    ));
}

#[test]
fn unknown_arch_is_typed_error() {
    let (mut desc, _) = gguf_model();
    desc.architecture = Architecture::Unknown("mamba".into());
    assert!(matches!(
        build_graph(&desc),
        Err(GraphError::UnsupportedArch(_))
    ));
}

#[test]
fn hostile_hyperparams_are_typed_errors() {
    let mutations: [fn(&mut ModelDesc); 5] = [
        |d| d.hyperparams.n_heads = 0,
        |d| d.hyperparams.n_heads = 3,    // hidden 64 % 3 != 0
        |d| d.hyperparams.n_kv_heads = 5, // heads % kv != 0
        |d| d.hyperparams.hidden_size = 1 << 30, // allocation guard
        |d| d.hyperparams.vocab_size = u64::MAX,
    ];
    for mutate in mutations {
        let (mut d, _) = gguf_model();
        mutate(&mut d);
        assert!(
            matches!(build_graph(&d), Err(GraphError::BadHyperParams(_))),
            "hyperparam mutation not rejected"
        );
    }
}

#[test]
fn many_layers_fail_at_the_first_that_is_missing() {
    let (mut d, _) = gguf_model();
    d.hyperparams.n_layers = 1 << 20;
    assert!(matches!(
        build_graph(&d),
        Err(GraphError::MissingTensor(name)) if name.starts_with("layers.2.")
    ));
}

fn extra(template: &TensorDesc, name: String, shape: Vec<u64>) -> TensorDesc {
    TensorDesc {
        name,
        shape,
        dtype: DType::F32,
        file_index: template.file_index,
        data_offset: template.data_offset,
        data_len: template.data_len,
    }
}

#[test]
fn qwen2_biases_and_qwen3_qk_norm_are_wired() {
    let (mut desc, _) = gguf_model();
    desc.architecture = Architecture::Qwen3;
    for i in 0..2 {
        for (name, shape) in [
            (format!("layers.{i}.attn.q_proj.bias"), vec![64u64]),
            (format!("layers.{i}.attn.k_proj.bias"), vec![32]),
            (format!("layers.{i}.attn.v_proj.bias"), vec![32]),
            (format!("layers.{i}.attn.q_norm.weight"), vec![32]),
            (format!("layers.{i}.attn.k_norm.weight"), vec![32]),
        ] {
            let t = extra(&desc.tensors[0], name, shape);
            desc.tensors.push(t);
        }
    }
    let g = build_graph(&desc).unwrap();
    let dump = g.dump(&desc, &numbers(&g));
    assert!(dump.contains("bias=@layers.0.attn.q_proj.bias"));
    assert!(dump.contains("rmsnorm_per_head"));
}

#[test]
fn the_graph_of_the_fixture_is_in_order() {
    let (desc, _) = gguf_model();
    let g = build_graph(&desc).unwrap();
    assert_eq!(g.nodes.len(), 1 + 2 * 15 + 2);
    assert_eq!(g.output, g.nodes.len());
    assert_eq!((g.n_layers, g.n_kv_heads, g.head_dim), (2, 1, 32));
    for (i, n) in g.nodes.iter().enumerate() {
        assert!(n.inputs.iter().all(|v| *v <= i));
    }
    let layers: Vec<usize> = g
        .nodes
        .iter()
        .filter_map(|n| match n.op {
            Op::Attention { layer, .. } => Some(layer),
            _ => None,
        })
        .collect();
    assert_eq!(layers, vec![0, 1]);
    assert_eq!(g.nodes[15].label, "layers.0.residual_ffn");
}

#[test]
fn a_wrong_shape_is_named() {
    let (mut desc, _) = gguf_model();
    for t in desc.tensors.iter_mut() {
        if t.name == "output_norm.weight" {
            t.shape = vec![63];
        }
    }
    let e = build_graph(&desc).unwrap_err();
    assert_eq!(
        e.message(),
        "tensor output_norm.weight: expected shape [64], got [63]"
    );
}

#[test]
fn an_own_projection_is_used_where_it_is_there() {
    let (mut desc, _) = gguf_model();
    let t = extra(&desc.tensors[0], "lm_head.weight".into(), vec![260, 64]);
    desc.tensors.push(t);
    let last = desc.tensors.len() - 1;
    let g = build_graph(&desc).unwrap();
    assert_eq!(
        g.nodes.last().unwrap().op,
        Op::MatMul {
            weight: TensorRef(last),
            bias: None
        }
    );
}

// --- interpreter ---------------------------------------------------------

#[test]
fn prefill_then_decode_matches_single_prefill() {
    let m = gguf_model();
    let graph = build_graph(&m.0).unwrap();
    let mut interp = Interpreter::new();
    let toks = [3u32, 5, 250, 42];

    let mut kv_a = KvCache::new(&graph, 16).unwrap();
    let all = run(&mut interp, &m, &graph, &toks, &mut kv_a).unwrap();

    let mut kv_b = KvCache::new(&graph, 16).unwrap();
    let _ = run(&mut interp, &m, &graph, &toks[..3], &mut kv_b).unwrap();
    let last = run(&mut interp, &m, &graph, &toks[3..], &mut kv_b).unwrap();

    // Same final-position logits whether the last token came via prefill or decode.
    let vocab = m.0.hyperparams.vocab_size as usize;
    let a = floats(&all.data[3 * vocab..4 * vocab]);
    let b = floats(&last.data[..vocab]);
    for (x, y) in a.iter().zip(&b) {
        assert!((x - y).abs() < 1e-4, "{x} vs {y}");
    }
    // Number for number, in fact.
    assert_eq!(all.data[3 * vocab..4 * vocab], last.data[..vocab]);
    assert_eq!((kv_a.len(), kv_b.len()), (4, 4));
}

#[test]
fn gguf_and_mlx_fixtures_agree() {
    let dg = gguf_model();
    let dm = mlx_model();
    let gg = build_graph(&dg.0).unwrap();
    let gm = build_graph(&dm.0).unwrap();
    let toks = [1u32, 200, 116, 104, 101];
    let mut ig = Interpreter::new();
    let mut im = Interpreter::new();
    let mut kg = KvCache::new(&gg, 16).unwrap();
    let mut km = KvCache::new(&gm, 16).unwrap();
    let lg = run(&mut ig, &dg, &gg, &toks, &mut kg).unwrap();
    let lm = run(&mut im, &dm, &gm, &toks, &mut km).unwrap();
    assert_eq!(lg.shape, lm.shape);
    let widest = DType::Q4_K; // widest dtype in the fixture
    let tol = f32::from_bits(tolerance::logits_abs_tol(&widest));
    let (a, b) = (floats(&lg.data), floats(&lm.data));
    for (i, (a, b)) in a.iter().zip(&b).enumerate() {
        assert!((a - b).abs() <= tol, "logit {i}: {a} vs {b}");
    }
    let vocab = dg.0.hyperparams.vocab_size as usize;
    for p in 0..toks.len() {
        assert_eq!(
            argmax(&a[p * vocab..(p + 1) * vocab]),
            argmax(&b[p * vocab..(p + 1) * vocab]),
            "argmax diverged at position {p}"
        );
    }
}

#[test]
fn run_is_deterministic() {
    let m = gguf_model();
    let graph = build_graph(&m.0).unwrap();
    let toks = [7u32, 8, 9];
    let mut i1 = Interpreter::new();
    let mut i2 = Interpreter::new();
    let mut k1 = KvCache::new(&graph, 8).unwrap();
    let mut k2 = KvCache::new(&graph, 8).unwrap();
    let a = run(&mut i1, &m, &graph, &toks, &mut k1).unwrap();
    let b = run(&mut i2, &m, &graph, &toks, &mut k2).unwrap();
    assert_eq!(a.data, b.data); // bitwise: scalar f32, fixed order
}

#[test]
fn seq_overflow_and_hostile_kv_are_errors() {
    let m = gguf_model();
    let graph = build_graph(&m.0).unwrap();
    let mut kv = KvCache::new(&graph, 2).unwrap();
    let mut interp = Interpreter::new();
    assert!(matches!(
        run(&mut interp, &m, &graph, &[1, 2, 3], &mut kv),
        Err(GraphError::SeqTooLong { got: 3, max: 2 })
    ));
    // Hostile hyperparams cannot make KvCache::new allocate unboundedly.
    let mut big = build_graph(&m.0).unwrap();
    big.n_layers = u64::MAX / 4;
    assert!(KvCache::new(&big, 1 << 20).is_err());
}

#[test]
fn cache_limits_are_named() {
    let m = gguf_model();
    let mut g = build_graph(&m.0).unwrap();
    let e = KvCache::new(&g, usize::MAX).err().unwrap();
    assert_eq!(e.message(), "invalid hyperparameters: kv size overflow");
    g.n_layers = 1 << 24;
    let e = KvCache::new(&g, 4).err().unwrap();
    assert_eq!(
        e.message(),
        "invalid hyperparameters: kv cache would need 17179869184 bytes (limit 8589934592)"
    );
    g.n_layers = 2;
    let kv = KvCache::new(&g, 4).unwrap();
    assert!(kv.is_empty());
    assert_eq!((kv.len(), kv.max_seq_len()), (0, 4));
}

#[test]
fn an_unknown_token_leaves_the_cache_alone() {
    let m = gguf_model();
    let graph = build_graph(&m.0).unwrap();
    let mut kv = KvCache::new(&graph, 8).unwrap();
    let mut interp = Interpreter::new();
    let a = run(&mut interp, &m, &graph, &[1, 260], &mut kv);
    assert!(matches!(
        a,
        Err(GraphError::TokenOutOfRange {
            id: 260,
            vocab: 260
        })
    ));
    assert!(kv.is_empty());
    let b = run(&mut interp, &m, &graph, &[1], &mut kv).unwrap();
    assert_eq!(b.shape, vec![1, 260]);
    assert_eq!(kv.len(), 1);
}

#[test]
fn any_value_can_be_the_result() {
    let m = gguf_model();
    let mut graph = build_graph(&m.0).unwrap();
    graph.output = 1;
    let mut kv = KvCache::new(&graph, 8).unwrap();
    let r = run(&mut Interpreter::new(), &m, &graph, &[5, 7], &mut kv).unwrap();
    assert_eq!(r.shape, vec![2, 64]);
    assert_eq!(kv.len(), 2);
    let embd = m.0.tensors.iter().find(|t| t.name == "token_embed.weight").unwrap();
    let bytes = read_tensor_bytes(&m.0, embd, &m.1[0]).unwrap();
    let w = quant::dequant(&embd.dtype, &bytes, 260 * 64).unwrap();
    assert_eq!(r.data[..64], w[5 * 64..6 * 64]);
    assert_eq!(r.data[64..], w[7 * 64..8 * 64]);
}

#[test]
fn weights_that_cannot_be_read_are_errors() {
    let (desc, files) = gguf_model();
    let graph = build_graph(&desc).unwrap();
    let mut kv = KvCache::new(&graph, 8).unwrap();
    let short = vec![files[0][..files[0].len() - 1].to_vec()];
    let r = Interpreter::new().run(&desc, &short, &graph, &[1], &mut kv, &math());
    assert!(matches!(r, Err(GraphError::Format(_))));
}

// --- tolerances ----------------------------------------------------------

#[test]
fn tolerances_are_these_numbers() {
    let rt = |d: DType| f32::from_bits(tolerance::roundtrip_rel_tol(&d));
    assert_eq!(rt(DType::F32), 0.0);
    assert_eq!(rt(DType::F16), 1e-3);
    assert_eq!(rt(DType::BF16), 8e-3);
    assert_eq!(rt(DType::Q8_0), 8e-3);
    assert_eq!(rt(DType::Q4_K), 1.1e-1);
    assert_eq!(rt(DType::Unsupported("x".into())), 0.0);
    let la = |d: DType| f32::from_bits(tolerance::logits_abs_tol(&d));
    assert_eq!(la(DType::Q8_0), 1e-2);
    assert_eq!(la(DType::F16), 1e-4);
    assert_eq!(f32::from_bits(tolerance::LOGIT_TIE_EPSILON), 0.05);
}

fn check_roundtrip(dtype: &DType, vals: &[f32]) {
    let packed = quant::pack(dtype, &bits(vals)).unwrap();
    let out = floats(&quant::dequant(dtype, &packed, vals.len()).unwrap());
    let amax = vals.iter().fold(0f32, |m, v| m.max(v.abs())).max(1e-30);
    let tol = f32::from_bits(tolerance::roundtrip_rel_tol(dtype)) * amax;
    for (i, (a, b)) in vals.iter().zip(&out).enumerate() {
        assert!((a - b).abs() <= tol, "{dtype:?}[{i}]: {a} vs {b} (tol {tol})");
    }
}

#[test]
fn small_blocks_stay_within_the_tolerances_of_the_whole() {
    // Blocks of zeros, of numbers whose scales are no full half-precision numbers, and
    // one block of ordinary size.
    let mut v = vec![0f32; 1024];
    for (i, x) in stream(41, 256).iter().enumerate() {
        v[256 + i] = x * 1e-6;
        v[512 + i] = x * 4e-9;
        v[768 + i] = x * 0.05;
    }
    for d in [DType::F32, DType::F16, DType::BF16, DType::Q8_0, DType::Q4_K] {
        check_roundtrip(&d, &v);
        let zeros = vec![0f32; 256];
        let packed = quant::pack(&d, &bits(&zeros)).unwrap();
        assert_eq!(packed.len() as u64, d.byte_len(256).unwrap());
        let out = floats(&quant::dequant(&d, &packed, 256).unwrap());
        assert_eq!(out, zeros);
    }
}

#[test]
fn packing_stays_within_the_tolerances() {
    for seed in 1..20u32 {
        let wide: Vec<f32> = stream(seed, 50).iter().map(|v| v * 50.0).collect();
        check_roundtrip(&DType::F16, &wide);
        check_roundtrip(&DType::BF16, &wide);
        let small: Vec<f32> = stream(seed, 512).iter().map(|v| v * 5.0).collect();
        check_roundtrip(&DType::Q8_0, &small[..64]);
        check_roundtrip(&DType::Q4_K, &small);
    }
}
