//! Emitted code, run statement by statement with the machine's own arithmetic, against
//! the interpreter and against plain loops.

use std::collections::HashMap;

use inferno::codegen::attn::{emit_attn_hspan_fn, heads, heads_fit, ExpfConsts};
use inferno::codegen::code::{Buf, Code, Int, Kernel, Real, Stmt};
use inferno::codegen::emit::{build_meta, CompileOptions};
use inferno::codegen::kernels::outlined_name;
use inferno::codegen::loopir::{build_loopir, Step};
use inferno::codegen::lower::{lower_decode, lower_prefill, lower_step};
use inferno::codegen::plan::{Isa, Island, PackedWeight, Plan};
use inferno::codegen::profile::{assign_slots, ProfileSlots};
use inferno::codegen::program::{build_full_module, is_sound, rope_freq_table};
use inferno::engine::backend::{Call, CompiledBackend};
use inferno::formats::desc::{DType, ModelDesc};
use inferno::formats::fixture_files;
use inferno::formats::fixtures;
use inferno::formats::load::load_file;
use inferno::formats::mlx::{load_dir, MlxConfig, Shard};
use inferno::graph::builder::build_graph;
use inferno::graph::interp::{decode_weight, Interpreter, KvCache};
use inferno::graph::ir::{Dim, Graph, Op};
use inferno::graph::ops::Math;
use inferno::graph::tolerance::logits_abs_tol;

fn root(x: u32) -> u32 {
    f32::from_bits(x).sqrt().to_bits()
}

fn exponential(x: u32) -> u32 {
    f32::from_bits(x).exp().to_bits()
}

fn power(a: u32, b: u32) -> u32 {
    f32::from_bits(a).powf(f32::from_bits(b)).to_bits()
}

fn turn(x: u32) -> (u32, u32) {
    let (s, c) = f32::from_bits(x).sin_cos();
    (s.to_bits(), c.to_bits())
}

type F1 = fn(u32) -> u32;
type F2 = fn(u32, u32) -> u32;
type F3 = fn(u32) -> (u32, u32);

fn math() -> Math<F1, F1, F2, F3> {
    Math {
        sqrt: root,
        exp: exponential,
        pow: power,
        sin_cos: turn,
    }
}

// --- a machine -----------------------------------------------------------

/// In which order the tokens of a loop are run.
#[derive(Clone, Copy)]
enum Order {
    Forward,
    Backward,
}

struct Machine {
    mem: HashMap<String, Vec<f32>>,
    regs: HashMap<usize, f32>,
    wide: HashMap<usize, [f32; 8]>,
    vars: HashMap<usize, i64>,
    args: Vec<i64>,
    tokens: Vec<u32>,
    pos_off: i64,
    row: i64,
    pos: i64,
    token: i64,
    scratch: HashMap<i64, Vec<f32>>,
    weights: Vec<(Vec<f32>, usize)>,
    order: Order,
    timed: Vec<Option<usize>>,
}

fn name(b: &Buf) -> String {
    format!("{b:?}")
}

impl Machine {
    fn new() -> Machine {
        let mut m = Machine {
            mem: HashMap::new(),
            regs: HashMap::new(),
            wide: HashMap::new(),
            vars: HashMap::new(),
            args: vec![0; 8],
            tokens: Vec::new(),
            pos_off: 0,
            row: 0,
            pos: 0,
            token: 0,
            scratch: HashMap::new(),
            weights: Vec::new(),
            order: Order::Forward,
            timed: Vec::new(),
        };
        m.put(Buf::Cell(0), vec![0.0]);
        m.put(Buf::Cell(1), vec![0.0]);
        m
    }

    fn put(&mut self, b: Buf, v: Vec<f32>) {
        self.mem.insert(name(&b), v);
    }

    fn at(&self, b: &Buf) -> &Vec<f32> {
        &self.mem[&name(b)]
    }

    fn whole(&self, e: &Int) -> i64 {
        match e {
            Int::Const(c) => *c as i64,
            Int::Row => self.row,
            Int::Pos => self.pos,
            Int::Token => self.token,
            Int::Var(v) => self.vars[v],
            Int::Arg(a) => self.args[*a],
            Int::Plus(a, b) => self.whole(a) + self.whole(b),
            Int::Minus(a, b) => self.whole(a) - self.whole(b),
            Int::Times(a, b) => self.whole(a) * self.whole(b),
            Int::Over(a, c) => self.whole(a) / *c as i64,
            Int::Min(a, b) => self.whole(a).min(self.whole(b)),
            Int::Eights(a) => self.whole(a) / 8 * 8,
        }
    }

    fn fold(v: &[f32; 8]) -> f32 {
        let a = [v[0] + v[4], v[1] + v[5], v[2] + v[6], v[3] + v[7]];
        (a[0] + a[2]) + (a[1] + a[3])
    }

    fn number(&self, e: &Real, lane: usize) -> f32 {
        match e {
            Real::Bits(b) => f32::from_bits(*b),
            Real::Reg(r) => self.regs[r],
            Real::Lane(r) => self.wide[r][lane],
            Real::Load(b, i) => self.at(b)[self.whole(i) as usize],
            Real::Load8(b, i) => self.at(b)[self.whole(i) as usize + lane],
            Real::Fold8(r) => Machine::fold(&self.wide[r]),
            Real::OfInt(i) => self.whole(i) as f32,
            Real::Neg(a) => -self.number(a, lane),
            Real::Plus(a, b) => self.number(a, lane) + self.number(b, lane),
            Real::Minus(a, b) => self.number(a, lane) - self.number(b, lane),
            Real::Times(a, b) => self.number(a, lane) * self.number(b, lane),
            Real::Over(a, b) => self.number(a, lane) / self.number(b, lane),
            Real::Root(a) => self.number(a, lane).sqrt(),
            Real::Exp(a) => self.number(a, lane).exp(),
            Real::Sin(a) => self.number(a, lane).sin_cos().0,
            Real::Cos(a) => self.number(a, lane).sin_cos().1,
            Real::Larger(a, b) => self.number(a, lane).max(self.number(b, lane)),
            Real::Above(a, b, x, y) => {
                if self.number(a, lane) > self.number(b, lane) {
                    self.number(x, lane)
                } else {
                    self.number(y, lane)
                }
            }
            Real::Nearest(a) => self.number(a, lane).round_ties_even(),
            Real::TwoTo(a) => {
                let n = self.number(a, lane) as i32;
                f32::from_bits(((n + 127) << 23) as u32)
            }
            Real::Fused(a, b, c) => self
                .number(a, lane)
                .mul_add(self.number(b, lane), self.number(c, lane)),
        }
    }

    fn lanes(&self, e: &Real) -> [f32; 8] {
        let mut v = [0.0; 8];
        for (l, x) in v.iter_mut().enumerate() {
            *x = self.number(e, l);
        }
        v
    }

    fn run(&mut self, c: &Code) {
        let mut at = c;
        while let Code::Then(s, rest) = at {
            self.step(s);
            at = rest;
        }
    }

    fn step(&mut self, s: &Stmt) {
        match s {
            Stmt::Let(r, e) => {
                let x = self.number(e, 0);
                self.regs.insert(*r, x);
            }
            Stmt::Let8(r, e) => {
                let x = self.lanes(e);
                self.wide.insert(*r, x);
            }
            Stmt::Store(b, i, e) => {
                let (at, x) = (self.whole(i) as usize, self.number(e, 0));
                self.mem.get_mut(&name(b)).unwrap()[at] = x;
            }
            Stmt::Store8(b, i, e) => {
                let (at, x) = (self.whole(i) as usize, self.lanes(e));
                self.mem.get_mut(&name(b)).unwrap()[at..at + 8].copy_from_slice(&x);
            }
            Stmt::Loop {
                var,
                from,
                to,
                step,
                body,
            } => {
                let (mut i, end) = (self.whole(from), self.whole(to));
                while i < end {
                    self.vars.insert(*var, i);
                    self.run(body);
                    i += *step as i64;
                }
            }
            Stmt::Tokens { first, count, body } => {
                let (first, count) = (self.whole(first), self.whole(count));
                let mut rows: Vec<i64> = (first..first + count).collect();
                if let Order::Backward = self.order {
                    rows.reverse();
                }
                let kept = (self.row, self.pos, self.token);
                for row in rows {
                    self.row = row;
                    self.pos = self.pos_off + row;
                    self.token = self.tokens[row as usize] as i64;
                    self.run(body);
                }
                (self.row, self.pos, self.token) = kept;
            }
            Stmt::Timed { slot, body } => {
                self.timed.push(*slot);
                self.run(body);
            }
            Stmt::Call(k) => self.call(k),
        }
    }

    /// The kernels, with sums in the order of the interpreter.
    fn call(&mut self, k: &Kernel) {
        match k {
            Kernel::Pack { src, dst, k, .. } => {
                let (s, d) = (self.whole(src) as usize, self.whole(dst));
                let row = self.at(&Buf::Arena)[s..s + *k as usize].to_vec();
                self.scratch.insert(d, row);
            }
            Kernel::Gemv {
                weight,
                y,
                x,
                k,
                rows,
            } => {
                let row = match x {
                    Some(at) => {
                        let at = self.whole(at) as usize;
                        self.at(&Buf::Arena)[at..at + *k as usize].to_vec()
                    }
                    None => self.scratch[&0].clone(),
                };
                let y = self.whole(y) as usize;
                self.product(*weight, &row, y, *k as usize, *rows as usize);
            }
            Kernel::Gemm {
                weight,
                y,
                x,
                k,
                m,
                rows,
            } => {
                let (y, m) = (self.whole(y) as usize, self.whole(m) as usize);
                let (k, rows) = (*k as usize, *rows as usize);
                for i in 0..m {
                    let row = match x {
                        Some(at) => {
                            let at = self.whole(at) as usize + i * k;
                            self.at(&Buf::Arena)[at..at + k].to_vec()
                        }
                        None => {
                            let stride = self.weights[*weight].1;
                            self.scratch[&((i * stride) as i64)].clone()
                        }
                    };
                    self.product(*weight, &row, y + i * rows, k, rows);
                }
            }
            Kernel::Attention {
                out,
                q,
                kv_base,
                v_off,
                kv_dim,
                n_heads,
                n_kv_heads,
                head_dim,
                ..
            } => {
                let (out, q) = (self.whole(out) as usize, self.whole(q) as usize);
                let sizes = [*kv_base, *v_off, *kv_dim, *n_heads, *n_kv_heads, *head_dim];
                self.attend(out, q, self.pos as usize, sizes.map(|x| x as usize));
            }
            Kernel::ParAttention {
                out,
                q,
                pos,
                m,
                kv_base,
                v_off,
                kv_dim,
                n_heads,
                n_kv_heads,
                head_dim,
                q_stride,
                out_stride,
                ..
            } => {
                let (out, q) = (self.whole(out) as usize, self.whole(q) as usize);
                let (pos, m) = (self.whole(pos) as usize, self.whole(m) as usize);
                let sizes = [*kv_base, *v_off, *kv_dim, *n_heads, *n_kv_heads, *head_dim];
                for i in 0..m {
                    self.attend(
                        out + i * *out_stride as usize,
                        q + i * *q_stride as usize,
                        pos + i,
                        sizes.map(|x| x as usize),
                    );
                }
            }
        }
    }

    fn product(&mut self, weight: usize, x: &[f32], y: usize, k: usize, rows: usize) {
        let mut out = Vec::new();
        for n in 0..rows {
            let w = &self.weights[weight].0[n * k..(n + 1) * k];
            let mut acc = 0f32;
            for j in 0..k {
                acc += x[j] * w[j];
            }
            out.push(acc);
        }
        self.mem.get_mut(&name(&Buf::Arena)).unwrap()[y..y + rows].copy_from_slice(&out);
    }

    fn attend(&mut self, out: usize, q: usize, pos: usize, sizes: [usize; 6]) {
        let [base, v_off, kv_dim, n_heads, n_kv_heads, hd] = sizes;
        let kv = self.at(&Buf::Kv).clone();
        let arena = self.at(&Buf::Arena).clone();
        let scale = 1.0 / (hd as f32).sqrt();
        let mut result = vec![0f32; n_heads * hd];
        for h in 0..n_heads {
            let g = h / (n_heads / n_kv_heads);
            let qv = &arena[q + h * hd..][..hd];
            let mut scores: Vec<f32> = (0..=pos)
                .map(|t| {
                    let key = &kv[base + t * kv_dim + g * hd..][..hd];
                    qv.iter().zip(key).map(|(a, b)| a * b).sum::<f32>() * scale
                })
                .collect();
            let max = scores.iter().fold(f32::NEG_INFINITY, |m, v| m.max(*v));
            let mut denom = 0f32;
            for s in &mut scores {
                *s = (*s - max).exp();
                denom += *s;
            }
            for (t, s) in scores.iter().enumerate() {
                let value = &kv[base + v_off + t * kv_dim + g * hd..][..hd];
                let w = s / denom;
                for (o, v) in result[h * hd..][..hd].iter_mut().zip(value) {
                    *o += w * v;
                }
            }
        }
        self.mem.get_mut(&name(&Buf::Arena)).unwrap()[out..out + n_heads * hd]
            .copy_from_slice(&result);
    }
}

// --- models --------------------------------------------------------------

struct Model {
    desc: ModelDesc,
    files: Vec<Vec<u8>>,
    graph: Graph,
}

fn of_gguf(path: &str, bytes: Vec<u8>) -> Model {
    let desc = load_file(path, &bytes).unwrap();
    let graph = build_graph(&desc).unwrap();
    Model {
        desc,
        files: vec![bytes],
        graph,
    }
}

fn gguf_model() -> Model {
    of_gguf("tiny.gguf", fixtures::tiny_llama_gguf())
}

fn bias_model() -> Model {
    of_gguf("tiny_bias.gguf", fixture_files::tiny_bias_llama_gguf())
}

fn mlx_model() -> Model {
    let config = MlxConfig {
        model_type: "llama".into(),
        hidden_size: 64,
        num_hidden_layers: 2,
        num_attention_heads: 2,
        num_key_value_heads: Some(1),
        intermediate_size: 256,
        vocab_size: 260,
        rope_theta: Some(10000.0f32.to_bits()),
        rms_norm_eps: Some(1e-5f32.to_bits()),
        max_position_embeddings: Some(128),
    };
    let bytes = fixtures::tiny_llama_safetensors();
    let shard = Shard {
        path: "mlx/model.safetensors".into(),
        bytes: fixtures::tiny_llama_safetensors(),
    };
    let desc = load_dir("mlx", Some("mlx".into()), config, vec![shard], None).unwrap();
    let graph = build_graph(&desc).unwrap();
    Model {
        desc,
        files: vec![bytes],
        graph,
    }
}

fn numbers(m: &Model, tensor: usize) -> Vec<f32> {
    let v = decode_weight(&m.desc, &m.files, tensor).unwrap();
    v.into_iter().map(f32::from_bits).collect()
}

fn width(g: &Graph, node: usize) -> usize {
    g.nodes[node]
        .out_shape
        .0
        .iter()
        .map(|d| match d {
            Dim::Const(n) => *n as usize,
            _ => 1usize,
        })
        .product()
}

/// Room for `rows` tokens; values one behind the other.
fn plan(m: &Model, rows: usize, tile: usize) -> Plan {
    let mut weights: Vec<PackedWeight> = Vec::new();
    let mut offset = 0;
    for n in &m.graph.nodes {
        if let Op::MatMul { weight, .. } = n.op {
            if weights.iter().any(|w| w.tensor_index == weight.0) {
                continue;
            }
            let t = &m.desc.tensors[weight.0];
            let dtype = match t.dtype {
                DType::Q8_0 => DType::Q8_0,
                DType::Q4_K => DType::Q4_K,
                _ => DType::F32,
            };
            let len = dtype.byte_len(t.shape[0] * t.shape[1]).unwrap() as usize;
            weights.push(PackedWeight {
                tensor_index: weight.0,
                dtype,
                rows: t.shape[0] as usize,
                k: t.shape[1] as usize,
                isa: Isa::Avx2,
                offset,
                len,
                act_row: t.shape[1] as usize * 2,
            });
            offset += len;
        }
    }
    let total = m.graph.nodes.len();
    let mut slots = Vec::new();
    let mut at = 0;
    for i in 0..total {
        slots.push(at);
        at += width(&m.graph, i) * rows;
    }
    let kv_dim = (m.graph.n_kv_heads * m.graph.head_dim) as usize;
    let max_seq_len = 64;
    Plan {
        weights,
        islands: vec![
            Island {
                kind: "Embed".into(),
                first: 0,
                end: 1,
            },
            Island {
                kind: "Block".into(),
                first: 1,
                end: total,
            },
        ],
        slots,
        total_f32: at,
        act_scratch_off: at * 4,
        act_scratch_bytes: 4096,
        kv_dim,
        kv_total_bytes: 2 * m.graph.n_layers as usize * kv_dim * 4 * max_seq_len,
        max_seq_len,
        prefill_tile: tile,
    }
}

fn machine(m: &Model, p: &Plan) -> Machine {
    let mut x = Machine::new();
    x.put(Buf::Arena, vec![0.0; p.total_f32]);
    x.put(Buf::Kv, vec![0.0; p.kv_total_bytes / 4]);
    x.put(
        Buf::Logits,
        vec![0.0; m.desc.hyperparams.vocab_size as usize],
    );
    for t in 0..m.desc.tensors.len() {
        x.put(Buf::Table(t), numbers(m, t));
    }
    for w in &p.weights {
        x.weights.push((numbers(m, w.tensor_index), w.act_row));
    }
    for island in &build_loopir(p, &m.graph).islands {
        for s in &island.steps {
            if let Step::Rope {
                head_dim, theta, ..
            } = s
            {
                let freqs = rope_freq_table(*theta, *head_dim, &math());
                x.put(
                    Buf::Freqs(*theta, *head_dim),
                    freqs.into_iter().map(f32::from_bits).collect(),
                );
            }
        }
    }
    x
}

fn bits(v: &[f32]) -> Vec<u32> {
    v.iter().map(|x| x.to_bits()).collect()
}

/// Runs a prompt at once from a position on, and gives the logits of its last token.
fn prefill(m: &Model, p: &Plan, x: &mut Machine, tokens: &[u32], pos: usize) -> Vec<u32> {
    let code = lower_prefill(p, &m.graph, &m.desc, &build_loopir(p, &m.graph), None);
    run_prefill(x, &code, tokens, pos)
}

fn run_prefill(x: &mut Machine, code: &Code, tokens: &[u32], pos: usize) -> Vec<u32> {
    x.tokens = tokens.to_vec();
    x.pos_off = pos as i64;
    x.args[0] = tokens.len() as i64;
    x.args[1] = pos as i64;
    x.run(code);
    bits(x.at(&Buf::Logits))
}

fn decode(m: &Model, p: &Plan, x: &mut Machine, token: u32, pos: usize) -> Vec<u32> {
    let code = lower_decode(p, &m.graph, &m.desc, &build_loopir(p, &m.graph), None);
    x.row = 0;
    x.pos = pos as i64;
    x.token = token as i64;
    x.run(&code);
    bits(x.at(&Buf::Logits))
}

fn interpreted(m: &Model, tokens: &[u32]) -> Vec<u32> {
    let mut interp = Interpreter::new();
    let mut kv = KvCache::new(&m.graph, 64).unwrap();
    let t = interp
        .run(&m.desc, &m.files, &m.graph, tokens, &mut kv, &math())
        .unwrap();
    let vocab = m.desc.hyperparams.vocab_size as usize;
    t.data[(tokens.len() - 1) * vocab..][..vocab].to_vec()
}

// --- whole models --------------------------------------------------------

fn widest_dtype(desc: &ModelDesc) -> DType {
    let rank = |d: &DType| match d {
        DType::F32 => 0,
        DType::F16 => 1,
        DType::BF16 => 2,
        DType::Q8_0 => 3,
        DType::Q4_K => 4,
        DType::Unsupported(_) => 0,
    };
    desc.tensors
        .iter()
        .map(|t| t.dtype.clone())
        .max_by_key(|d| rank(d))
        .unwrap_or(DType::F32)
}

fn differential_for(m: &Model) {
    let tokens: Vec<u32> = vec![1, 5, 9, 3];
    let p = plan(m, 8, 64);
    let mut x = machine(m, &p);
    let got = prefill(m, &p, &mut x, &tokens, 0);
    let want = interpreted(m, &tokens);
    let tol = f32::from_bits(logits_abs_tol(&widest_dtype(&m.desc)));
    let max_abs = got
        .iter()
        .zip(&want)
        .map(|(a, b)| (f32::from_bits(*a) - f32::from_bits(*b)).abs())
        .fold(0.0f32, f32::max);
    assert!(max_abs <= tol, "max |Δlogit| = {max_abs} > tol {tol}");
    // With kernels that add in the interpreter's order there is no difference at all.
    assert_eq!(got, want);
    assert!(want.iter().any(|x| f32::from_bits(*x) != 0.0));
}

#[test]
fn differential_tiny_gguf() {
    differential_for(&gguf_model());
}

#[test]
fn differential_tiny_mlx() {
    differential_for(&mlx_model());
}

#[test]
fn differential_tiny_bias() {
    let m = bias_model();
    let biased = m
        .graph
        .nodes
        .iter()
        .filter(|n| matches!(n.op, Op::MatMul { bias: Some(_), .. }))
        .count();
    assert!(biased > 0);
    differential_for(&m);
}

#[test]
fn compiled_prefill_then_decode_is_the_interpreter() {
    let m = gguf_model();
    let p = plan(&m, 8, 4);
    let mut x = machine(&m, &p);
    assert_eq!(
        prefill(&m, &p, &mut x, &[1, 5, 9], 0),
        interpreted(&m, &[1, 5, 9])
    );
    assert_eq!(
        decode(&m, &p, &mut x, 3, 3),
        interpreted(&m, &[1, 5, 9, 3])
    );
    assert_eq!(
        decode(&m, &p, &mut x, 7, 4),
        interpreted(&m, &[1, 5, 9, 3, 7])
    );
    // A prompt may follow what is cached.
    assert_eq!(
        prefill(&m, &p, &mut x, &[2, 4], 5),
        interpreted(&m, &[1, 5, 9, 3, 7, 2, 4])
    );
}

#[test]
fn tile_length_changes_nothing() {
    let m = gguf_model();
    let tokens = [1, 5, 9, 3, 2, 8, 6];
    let want = interpreted(&m, &tokens);
    for tile in [1, 2, 3, 7, 64] {
        let p = plan(&m, 8, tile);
        let mut x = machine(&m, &p);
        assert_eq!(prefill(&m, &p, &mut x, &tokens, 0), want, "tile {tile}");
    }
}

/// A model that runs the way a generator drives it.
struct Backend {
    model: Model,
    plan: Plan,
    state: CompiledBackend,
    machine: Machine,
}

fn backend(max_seq_len: usize) -> Backend {
    let model = gguf_model();
    let mut p = plan(&model, 8, 64);
    p.max_seq_len = max_seq_len;
    p.kv_total_bytes = 2 * model.graph.n_layers as usize * p.kv_dim * 4 * max_seq_len;
    let meta = build_meta(&model.desc, &p, &CompileOptions::default(), Vec::new());
    let state = CompiledBackend::new(&meta);
    let mut machine = machine(&model, &p);
    machine.put(Buf::Kv, vec![0.0; state.kv_len]);
    machine.put(Buf::Arena, vec![0.0; state.arena_len]);
    machine.put(Buf::Logits, vec![0.0; state.vocab]);
    Backend {
        model,
        plan: p,
        state,
        machine,
    }
}

impl Backend {
    fn forward(&mut self, tokens: &[u32]) -> Vec<f32> {
        let mut bits = Vec::new();
        for call in self.state.forward(tokens) {
            bits = match call {
                Call::Prefill { pos_off } => {
                    prefill(&self.model, &self.plan, &mut self.machine, tokens, pos_off)
                }
                Call::Decode { token, pos } => {
                    decode(&self.model, &self.plan, &mut self.machine, token, pos)
                }
            };
        }
        bits.into_iter().map(f32::from_bits).collect()
    }

    fn reset(&mut self) {
        self.state.reset();
        self.machine.put(Buf::Kv, vec![0.0; self.state.kv_len]);
        self.machine.put(Buf::Arena, vec![0.0; self.state.arena_len]);
    }
}

fn furthest(a: &[f32], b: &[u32]) -> f32 {
    a.iter()
        .zip(b)
        .map(|(a, b)| (a - f32::from_bits(*b)).abs())
        .fold(0.0, f32::max)
}

#[test]
fn compiled_prefill_matches_interpreter() {
    let mut backend = backend(64);
    let got = backend.forward(&[1, 4, 7, 2]);
    let want = interpreted(&backend.model, &[1, 4, 7, 2]);
    let tol = f32::from_bits(logits_abs_tol(&DType::Q8_0));
    let max = furthest(&got, &want);
    assert!(max <= tol, "max |Δ| {max} > {tol}");
}

#[test]
fn compiled_backend_matches_interpreter_prefill_then_decode() {
    let mut backend = backend(64);
    let vocab = backend.model.desc.hyperparams.vocab_size as usize;
    let got_prefill = backend.forward(&[1, 4, 7]);
    let got_decode = backend.forward(&[2]);
    let want_last = interpreted(&backend.model, &[1, 4, 7, 2]);
    let tol = f32::from_bits(logits_abs_tol(&DType::Q8_0));
    let max = furthest(&got_decode, &want_last);
    assert!(max <= tol, "max |Δ| {max} > {tol}");
    assert_eq!(got_prefill.len(), vocab);
}

#[test]
fn reset_allows_a_fresh_sequence() {
    let mut backend = backend(80);
    let a = backend.forward(&[1, 4, 7]);
    backend.reset();
    let b = backend.forward(&[1, 4, 7]);
    assert_eq!(a, b, "identical prompt after reset must reproduce logits");
}

#[test]
fn threaded_forward_is_bit_identical_to_serial() {
    let tokens = [1u32, 4, 7];
    let mut backend = backend(64);
    backend.machine.order = Order::Backward;
    let threaded = backend.forward(&tokens);
    backend.reset();
    backend.machine.order = Order::Forward;
    let serial = backend.forward(&tokens);
    assert_eq!(threaded.len(), serial.len());
    for (i, (a, b)) in threaded.iter().zip(&serial).enumerate() {
        assert_eq!(a.to_bits(), b.to_bits(), "logit {i}");
    }
}

#[test]
fn token_order_leaves_no_trace() {
    let m = gguf_model();
    let tokens = [1, 5, 9, 3, 2];
    let p = plan(&m, 8, 4);
    let mut x = machine(&m, &p);
    let serial = prefill(&m, &p, &mut x, &tokens, 0);
    let mut y = machine(&m, &p);
    y.order = Order::Backward;
    assert_eq!(prefill(&m, &p, &mut y, &tokens, 0), serial);
    assert_eq!(bits(x.at(&Buf::Arena)), bits(y.at(&Buf::Arena)));
    assert_eq!(bits(x.at(&Buf::Kv)), bits(y.at(&Buf::Kv)));
}

#[test]
fn profiling_does_not_change_logits() {
    let m = gguf_model();
    let tokens = [1, 5, 9, 3];
    let p = plan(&m, 8, 64);
    let lir = build_loopir(&p, &m.graph);
    let slots: ProfileSlots = assign_slots(&lir, &p, &m.desc);
    let plain = lower_prefill(&p, &m.graph, &m.desc, &lir, None);
    let profiled = lower_prefill(&p, &m.graph, &m.desc, &lir, Some(&slots));
    let mut x = machine(&m, &p);
    let a = run_prefill(&mut x, &plain, &tokens, 0);
    let mut y = machine(&m, &p);
    let b = run_prefill(&mut y, &profiled, &tokens, 0);
    assert_eq!(a, b);
    let step = lower_decode(&p, &m.graph, &m.desc, &lir, Some(&slots));
    y.row = 0;
    y.pos = 4;
    y.token = 7;
    y.run(&step);
    assert_eq!(bits(y.at(&Buf::Logits)), decode(&m, &p, &mut x, 7, 4));
    // Everything that is timed has a slot, and every slot is used by one or the other.
    assert!(x.timed.iter().all(|s| s.is_none()));
    for i in 0..slots.len() {
        assert!(y.timed.contains(&Some(i)), "slot {i}");
    }
    assert!(y.timed.iter().all(|s| s.unwrap() < slots.len()));
}

#[test]
fn frequencies_are_those_of_the_machine() {
    let got = rope_freq_table(10000.0f32.to_bits(), 64, &math());
    let want: Vec<u32> = (0..32)
        .map(|i| 10000.0f32.powf(-2.0 * i as f32 / 64.0).to_bits())
        .collect();
    assert_eq!(got, want);
    assert_eq!(got[0], 1.0f32.to_bits());
    assert!(rope_freq_table(10000.0f32.to_bits(), 1, &math()).is_empty());
}

#[test]
fn a_sound_plan_gives_a_program() {
    let m = gguf_model();
    let mut p = plan(&m, 8, 4);
    assert!(is_sound(&p, &m.graph, &m.desc));
    let plain = CompileOptions {
        profile: false,
        prefill_tile: 4,
    };
    let program = build_full_module(&p, &m.graph, &m.desc, &plain);
    assert!(program.slots.is_empty());
    assert_eq!(program.loopir, build_loopir(&p, &m.graph));
    let mut x = machine(&m, &p);
    assert_eq!(
        run_prefill(&mut x, &program.prefill, &[1, 5, 9], 0),
        interpreted(&m, &[1, 5, 9])
    );
    let profiled = CompileOptions {
        profile: true,
        prefill_tile: 4,
    };
    let program = build_full_module(&p, &m.graph, &m.desc, &profiled);
    assert_eq!(
        program.slots.labels,
        assign_slots(&program.loopir, &p, &m.desc).labels
    );
    // A value without a place, an island beyond the graph, a weight that is not packed.
    p.slots.pop();
    assert!(!is_sound(&p, &m.graph, &m.desc));
    let mut p = plan(&m, 8, 4);
    p.islands[1].end += 1;
    assert!(!is_sound(&p, &m.graph, &m.desc));
    let mut p = plan(&m, 8, 4);
    p.weights.pop();
    assert!(!is_sound(&p, &m.graph, &m.desc));
}

#[test]
fn a_step_is_lowered_before_what_follows() {
    let m = gguf_model();
    let p = plan(&m, 8, 64);
    let lir = build_loopir(&p, &m.graph);
    let code = lower_step(&p, &m.graph, &lir.islands[0].steps[0], Code::End);
    match code {
        Code::Then(s, rest) => {
            assert!(matches!(*s, Stmt::Loop { .. }));
            assert!(matches!(*rest, Code::End));
        }
        Code::End => panic!("no code for the embedding"),
    }
}

#[test]
fn token_loop_bodies_have_names_of_their_own() {
    assert_eq!(
        outlined_name("gemv blk.*.attn_q", 3),
        "tok_body.gemv_blk___attn_q.3"
    );
    assert_eq!(outlined_name("rope", 12), "tok_body.rope.12");
    assert_eq!(outlined_name("é", 1), "tok_body._.1");
    assert_ne!(outlined_name("a", 1), outlined_name("a", 2));
}

// --- attention -----------------------------------------------------------

const LOG2E: f32 = std::f32::consts::LOG2_E;
const LN2_HI: f32 = 0.693_359_4;
const LN2_LO: f32 = -2.121_944_4e-4;
const C: [f32; 7] = [
    1.0,
    1.0,
    0.5,
    0.166_666_66,
    0.041_666_66,
    0.008_333_333,
    0.001_388_888_9,
];

fn consts() -> ExpfConsts {
    ExpfConsts {
        log2e: LOG2E.to_bits(),
        ln2_hi: LN2_HI.to_bits(),
        ln2_lo: LN2_LO.to_bits(),
        c0: C[0].to_bits(),
        c1: C[1].to_bits(),
        c2: C[2].to_bits(),
        c3: C[3].to_bits(),
        c4: C[4].to_bits(),
        c5: C[5].to_bits(),
        c6: C[6].to_bits(),
    }
}

fn expf(x: f32) -> f32 {
    let x = if -88.0 > x { -88.0 } else { x };
    let x = if 88.0 < x { 88.0 } else { x };
    let n = (x * LOG2E).round_ties_even();
    let r = n.mul_add(-LN2_HI, x);
    let r = n.mul_add(-LN2_LO, r);
    let mut p = C[6];
    for k in (0..6).rev() {
        p = p.mul_add(r, C[k]);
    }
    p * f32::from_bits(((n as i32 + 127) << 23) as u32)
}

fn lcg_fill(buf: &mut [f32], seed: &mut u64) {
    for v in buf.iter_mut() {
        *seed = seed
            .wrapping_mul(6364136223846793005)
            .wrapping_add(1442695040888963407);
        *v = ((*seed >> 40) as f32 / (1u64 << 24) as f32) * 2.0 - 1.0;
    }
}

/// Attention over a span of heads with plain loops.
#[allow(clippy::too_many_arguments)]
fn hspan(
    out: &mut [f32],
    q: &[f32],
    kv: &[f32],
    v_off: usize,
    pos: usize,
    hd: usize,
    n_heads: usize,
    n_kv_heads: usize,
    h_start: usize,
    h_end: usize,
) {
    let kv_dim = n_kv_heads * hd;
    let scale = 1.0 / (hd as f32).sqrt();
    for h in h_start..h_end {
        let g = h / (n_heads / n_kv_heads);
        let mut scores = Vec::new();
        for t in 0..=pos {
            let mut lanes = [0f32; 8];
            for c in (0..hd).step_by(8) {
                for (l, acc) in lanes.iter_mut().enumerate() {
                    *acc = q[h * hd + c + l].mul_add(kv[t * kv_dim + g * hd + c + l], *acc);
                }
            }
            scores.push(Machine::fold(&lanes) * scale);
        }
        let max = scores.iter().fold(f32::NEG_INFINITY, |m, v| m.max(*v));
        let raw: Vec<f32> = scores.iter().map(|s| expf(s - max)).collect();
        let whole = raw.len() / 8 * 8;
        let mut total = 0f32;
        for c in (0..whole).step_by(8) {
            let mut lanes = [0f32; 8];
            lanes.copy_from_slice(&raw[c..c + 8]);
            total += Machine::fold(&lanes);
        }
        for r in &raw[whole..] {
            total += r;
        }
        for i in 0..hd {
            let mut acc = 0f32;
            for (t, r) in raw.iter().enumerate() {
                acc = (r / total).mul_add(kv[v_off + t * kv_dim + g * hd + i], acc);
            }
            out[h * hd + i] = acc;
        }
    }
}

#[allow(clippy::too_many_arguments)]
fn assert_bit_identical(
    hd: usize,
    n_heads: usize,
    n_kv_heads: usize,
    pos: usize,
    h_start: usize,
    h_end: usize,
    seed: u64,
) {
    let kv_dim = n_kv_heads * hd;
    let seq_len = pos + 1;
    let v_off = seq_len * kv_dim;
    let mut seed = seed;
    let mut kv = vec![0f32; 2 * v_off];
    let mut q = vec![0f32; n_heads * hd];
    lcg_fill(&mut kv, &mut seed);
    lcg_fill(&mut q, &mut seed);

    let mut want = vec![7f32; n_heads * hd];
    hspan(
        &mut want, &q, &kv, v_off, pos, hd, n_heads, n_kv_heads, h_start, h_end,
    );

    let g = heads(
        hd as u64,
        n_heads as u64,
        n_kv_heads as u64,
        consts(),
        &math(),
    );
    assert!(heads_fit(&g));
    let code = emit_attn_hspan_fn(&g);
    let mut x = Machine::new();
    x.put(Buf::Out, vec![7.0; n_heads * hd]);
    x.put(Buf::Query, q.clone());
    x.put(Buf::Kv, kv.clone());
    x.put(Buf::Scores, vec![0.0; seq_len]);
    x.put(Buf::Acc, vec![0.0; hd]);
    x.args = vec![0, v_off as i64, pos as i64, h_start as i64, h_end as i64];
    x.run(&code);
    assert_eq!(bits(x.at(&Buf::Out)), bits(&want));
    assert_eq!(bits(x.at(&Buf::Kv)), bits(&kv));
    assert_eq!(bits(x.at(&Buf::Query)), bits(&q));
}

#[test]
fn emitted_matches_scalar_protocol_geometry() {
    assert_bit_identical(64, 14, 2, 63, 0, 14, 0x4b16);
}

#[test]
fn emitted_attention_matches_other_geometries_and_spans() {
    // Positions before, at and behind a run of eight; a span in the middle; none.
    assert_bit_identical(8, 1, 1, 0, 0, 1, 1);
    assert_bit_identical(16, 4, 2, 6, 0, 4, 2);
    assert_bit_identical(16, 4, 4, 7, 1, 3, 3);
    assert_bit_identical(32, 4, 1, 8, 2, 4, 4);
    assert_bit_identical(24, 6, 3, 20, 5, 6, 5);
    assert_bit_identical(8, 2, 1, 3, 1, 1, 6);
}

#[test]
fn odd_heads_are_refused() {
    let fits = |hd: u64, nh: u64, nkv: u64| heads_fit(&heads(hd, nh, nkv, consts(), &math()));
    assert!(fits(64, 14, 2));
    assert!(!fits(12, 2, 1));
    assert!(!fits(8, 3, 2));
    assert!(fits(0, 1, 1));
    assert!(fits(8, 0, 1));
    assert!(!fits(8, 1, 0));
    assert!(!fits(8, u64::MAX, u64::MAX));
}

#[test]
fn emitted_exponential_is_an_exponential() {
    for i in -200..=200 {
        let x = i as f32 / 4.0;
        let rel = (expf(x) - x.exp()).abs() / x.exp();
        assert!(rel < 1e-5, "{x}: {rel}");
    }
}
