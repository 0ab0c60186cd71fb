//! Tiny in-memory models for tests.

pub use crate::formats::fixture_files::{
    hostile_vocab1_gguf, tiny_bias_llama_gguf, tiny_llama_config_json, tiny_llama_gguf,
    tiny_llama_safetensors, tiny_tokenizer_json, tiny_vocab,
};
pub use crate::formats::image::FixtureTensor;

use vstd::prelude::*;
use vstd::string::StringExecFns;

use crate::float::single::{
    f32_add, f32_div, f32_mul, f32_of_int, of_int, product, quotient, sum,
};
use crate::formats::desc::{byte_len, checked_product, DType, DTypeV, HyperParams, RopeStyle};
use crate::formats::gguf::{DEFAULT_NORM_EPS, DEFAULT_ROPE_THETA};
use crate::formats::image::{fixtures_view, image, writable, FixtureV};
use crate::formats::quant::{decoded, dequant, law_packed_len, pack, packed};
use crate::text::{dec, dec_text};

verus! {

/// The hyperparameters of the tiny model.
pub open spec fn tiny_hp() -> HyperParams {
    HyperParams {
        vocab_size: 260,
        hidden_size: 64,
        n_layers: 2,
        n_heads: 2,
        n_kv_heads: 1,
        ffn_hidden_size: 256,
        rope_theta: DEFAULT_ROPE_THETA,
        norm_eps: DEFAULT_NORM_EPS,
        context_length: 128,
        rope_style: RopeStyle::Interleaved,
    }
}

/// The hyperparameters of the tiny model.
pub fn tiny_hyperparams() -> (h: HyperParams)
    ensures
        h == tiny_hp(),
{
    HyperParams {
        vocab_size: 260,
        hidden_size: 64,
        n_layers: 2,
        n_heads: 2,
        n_kv_heads: 1,
        ffn_hidden_size: 256,
        rope_theta: DEFAULT_ROPE_THETA,
        norm_eps: DEFAULT_NORM_EPS,
        context_length: 128,
        rope_style: RopeStyle::Interleaved,
    }
}

/// One step of the xorshift generator.
pub open spec fn xorshift(s: u64) -> u64 {
    let a = s ^ (s >> 12);
    let b = a ^ (a << 25);
    b ^ (b >> 27)
}

/// The state of the generator after `k` steps.
pub open spec fn stream_state(seed: u64, k: nat) -> u64
    decreases k,
{
    if k == 0 {
        seed | 1
    } else {
        xorshift(stream_state(seed, (k - 1) as nat))
    }
}

/// The multiplier of the generator.
pub const MULTIPLIER: u64 = 0x2545_F491_4F6C_DD1D;

/// `2^24` in single precision.
pub const TWO_POW_24: u32 = 0x4B80_0000;

/// -0.5 in single precision.
pub const MINUS_HALF: u32 = 0xBF00_0000;

/// 0.25 in single precision.
pub const QUARTER: u32 = 0x3E80_0000;

/// The weight that a state stands for: its top 24 bits, spread over
/// `[-0.125, 0.125)`.
pub open spec fn weight_of(s: u64) -> u32 {
    let r = s.wrapping_mul(MULTIPLIER) >> 40;
    product(sum(quotient(of_int(r as int), TWO_POW_24), MINUS_HALF), QUARTER)
}

/// The first `n` weights of the stream that starts at `seed`.
pub open spec fn weights(seed: u64, n: nat) -> Seq<u32> {
    Seq::new(n, |k: int| weight_of(stream_state(seed, (k + 1) as nat)))
}

/// A deterministic stream of weights in `[-0.125, 0.125)`.
pub fn weight_stream(seed: u64, n: usize) -> (r: Vec<u32>)
    ensures
        r@ == weights(seed, n as nat),
{
    let mut s: u64 = seed | 1;
    let mut v: Vec<u32> = Vec::new();
    let mut i: usize = 0;
    while i < n
        invariant
            i <= n,
            s == stream_state(seed, i as nat),
            v@ == weights(seed, i as nat),
        decreases n - i,
    {
        s = s ^ (s >> 12);
        s = s ^ (s << 25);
        s = s ^ (s >> 27);
        let m: u64 = s.wrapping_mul(MULTIPLIER);
        let r: u64 = m >> 40;
        assert(m >> 40 < 0x100_0000) by (bit_vector);
        let w: u32 = f32_mul(
            f32_add(f32_div(f32_of_int(r as i64), TWO_POW_24), MINUS_HALF),
            QUARTER,
        );
        v.push(w);
        i += 1;
        proof {
            assert(weights(seed, i as nat) =~= weights(seed, (i - 1) as nat).push(w));
        }
    }
    v
}

/// The row that stands at row `k` of a head after the permutation from halves to
/// neighbours.
pub open spec fn source_in_head(k: int, head: int) -> int {
    if k % 2 == 0 {
        k / 2
    } else {
        head / 2 + k / 2
    }
}

/// Where the permutation puts row `j` of a head.
pub open spec fn target_in_head(j: int, head: int) -> int {
    if j < head / 2 {
        2 * j
    } else {
        2 * (j - head / 2) + 1
    }
}

/// The permutation of a head's rows is undone by its inverse, both ways.
pub proof fn law_head_permutation(k: int, head: int)
    requires
        head % 2 == 0,
        0 <= k < head,
    ensures
        0 <= source_in_head(k, head) < head,
        0 <= target_in_head(k, head) < head,
        target_in_head(source_in_head(k, head), head) == k,
        source_in_head(target_in_head(k, head), head) == k,
{
}

/// The row that stands at row `r` after the permutation.
pub open spec fn source_row(r: int, head: int) -> int {
    r / head * head + source_in_head(r % head, head)
}

/// Rows of `cols` numbers, permuted within heads of `head` rows.
pub open spec fn permuted(w: Seq<u32>, cols: int, head: int) -> Seq<u32> {
    Seq::new(w.len(), |i: int| w[source_row(i / cols, head) * cols + i % cols])
}

/// The row that is moved to row `r`, with `heads` heads of `head` rows: one of the head
/// that the row belongs to, or, where heads have an odd number of rows, the last row of
/// the head before, which is moved out of its head. Some rows get none.
pub open spec fn moved_row(r: int, head: int, heads: int) -> Option<int> {
    if head == 0 {
        None
    } else {
        let h = r / head;
        let k = r % head;
        if h < heads && (k % 2 == 1 || k / 2 < head / 2) {
            Some(source_row(r, head))
        } else if head % 2 == 1 && k == 0 && 0 < h <= heads {
            Some(r - 1)
        } else {
            None
        }
    }
}

/// Rows of `cols` numbers, moved within heads of `head` rows; where nothing is moved to,
/// zeros stand.
pub open spec fn reordered(w: Seq<u32>, cols: int, head: int, heads: int) -> Seq<u32> {
    Seq::new(
        w.len(),
        |i: int|
            if cols == 0 {
                0
            } else {
                match moved_row(i / cols, head, heads) {
                    Some(r) => w[r * cols + i % cols],
                    None => 0,
                }
            },
    )
}

/// How many rows are read or written: those of all heads, and one more where heads have
/// an odd number of rows.
pub open spec fn rows_moved(head: int, heads: int) -> int {
    heads * head + head % 2
}

/// A row that is moved is one of the heads' rows.
proof fn lemma_moved_row(r: int, head: int, heads: int)
    requires
        0 <= r,
        0 < head,
        0 < heads,
        moved_row(r, head, heads) is Some,
    ensures
        0 <= moved_row(r, head, heads)->0 < heads * head,
{
    let h = r / head;
    let k = r % head;
    vstd::arithmetic::div_mod::lemma_fundamental_div_mod(r, head);
    vstd::arithmetic::div_mod::lemma_div_pos_is_pos(r, head);
    assert(head * h == h * head) by (nonlinear_arith);
    if h < heads && (k % 2 == 1 || k / 2 < head / 2) {
        let s = source_in_head(k, head);
        assert(0 <= s < head);
        assert(0 <= h * head && h * head + s < heads * head) by (nonlinear_arith)
            requires
                0 <= h < heads,
                0 <= s < head,
        ;
    } else {
        assert(h * head <= heads * head && h * head >= 1) by (nonlinear_arith)
            requires
                0 < h <= heads,
                head > 0,
        ;
    }
}

/// Where heads have an even number of rows and make up all rows, every row is permuted
/// within its head.
pub proof fn lemma_reordered(w: Seq<u32>, cols: int, head: int, heads: int)
    requires
        cols > 0,
        head >= 0,
        head % 2 == 0,
        heads > 0,
        w.len() == heads * head * cols,
    ensures
        reordered(w, cols, head, heads) == permuted(w, cols, head),
{
    let x = reordered(w, cols, head, heads);
    let y = permuted(w, cols, head);
    assert forall|i: int| 0 <= i < w.len() implies x[i] == y[i] by {
        let r = i / cols;
        let rows = heads * head;
        vstd::arithmetic::div_mod::lemma_fundamental_div_mod(i, cols);
        vstd::arithmetic::div_mod::lemma_mod_bound(i, cols);
        assert(0 <= r < rows) by (nonlinear_arith)
            requires
                0 <= i < rows * cols,
                i == cols * r + i % cols,
                0 <= i % cols < cols,
        ;
        assert(head > 0) by (nonlinear_arith)
            requires
                head >= 0,
                heads * head > 0,
        ;
        vstd::arithmetic::div_mod::lemma_fundamental_div_mod(r, head);
        vstd::arithmetic::div_mod::lemma_mod_bound(r, head);
        let h = r / head;
        assert(h < heads) by (nonlinear_arith)
            requires
                r < heads * head,
                r == head * h + r % head,
                0 <= r % head,
                head > 0,
        ;
    }
    assert(x =~= y);
}

/// Moves the rows of each head from the order in which halves are turned together
/// to that in which neighbours are: row `j` of the first half goes to `2j`, of the
/// second half to `2j + 1`.
pub fn permute_rows(w: &Vec<u32>, rows: usize, cols: usize, n_head: usize) -> (r: Vec<u32>)
    requires
        n_head > 0,
        rows_moved((rows / n_head) as int, n_head as int) * cols <= w@.len(),
    ensures
        r@ == reordered(w@, cols as int, (rows / n_head) as int, n_head as int),
{
    let head: usize = rows / n_head;
    let n: usize = w.len();
    let ghost want = reordered(w@, cols as int, head as int, n_head as int);
    let mut out: Vec<u32> = Vec::new();
    let mut i: usize = 0;
    while i < n
        invariant
            i <= n,
            n == w@.len(),
            n_head > 0,
            head == rows / n_head,
            rows_moved(head as int, n_head as int) * cols <= n,
            want == reordered(w@, cols as int, head as int, n_head as int),
            out@ == want.take(i as int),
        decreases n - i,
    {
        let x: u32 = if cols == 0 || head == 0 {
            0
        } else {
            let row: usize = i / cols;
            let h: usize = row / head;
            let k: usize = row % head;
            let ghost from = moved_row(row as int, head as int, n_head as int);
            proof {
                vstd::arithmetic::div_mod::lemma_fundamental_div_mod(row as int, head as int);
                vstd::arithmetic::div_mod::lemma_div_pos_is_pos(row as int, head as int);
                assert(0 <= h * head <= row) by (nonlinear_arith)
                    requires
                        row == head * h + k,
                        k >= 0,
                        h >= 0,
                ;
                if from is Some {
                    lemma_moved_row(row as int, head as int, n_head as int);
                    let src = from->0;
                    let all = n_head * head;
                    let c = (i % cols) as int;
                    assert(0 <= src * cols && src * cols + c < all * cols) by (nonlinear_arith)
                        requires
                            0 <= src < all,
                            0 <= c < cols,
                    ;
                    assert(all * cols <= rows_moved(head as int, n_head as int) * cols)
                        by (nonlinear_arith)
                        requires
                            rows_moved(head as int, n_head as int) == all + head % 2,
                            0 <= head % 2,
                            cols >= 0,
                    ;
                }
            }
            if h < n_head && (k % 2 == 1 || k / 2 < head / 2) {
                let inner: usize = if k % 2 == 0 {
                    k / 2
                } else {
                    head / 2 + k / 2
                };
                proof {
                    assert(h * head + inner == from->0);
                    let f = from->0;
                    assert(f <= f * cols) by (nonlinear_arith)
                        requires
                            cols >= 1,
                            f >= 0,
                    ;
                }
                w[(h * head + inner) * cols + i % cols]
            } else if head % 2 == 1 && k == 0 && 0 < h && h <= n_head {
                w[(row - 1) * cols + i % cols]
            } else {
                0
            }
        };
        out.push(x);
        i += 1;
        proof {
            assert(x == want[i - 1]);
            assert(want.take(i as int) =~= want.take(i - 1).push(x));
        }
    }
    proof {
        assert(want.take(n as int) =~= want);
    }
    out
}

/// A tensor of the tiny model: its name in both formats, its shape, its element
/// type in GGUF files, and by how many heads its rows are permuted there (0: not
/// at all).
pub struct Row {
    pub gguf: String,
    pub hf: String,
    pub shape: Vec<u64>,
    pub dtype: DType,
    pub heads: usize,
}

/// The model of a [`Row`].
#[verifier::ext_equal]
pub struct RowV {
    pub gguf: Seq<char>,
    pub hf: Seq<char>,
    pub shape: Seq<u64>,
    pub dtype: DTypeV,
    pub heads: nat,
}

impl View for Row {
    type V = RowV;

    open spec fn view(&self) -> RowV {
        RowV {
            gguf: self.gguf@,
            hf: self.hf@,
            shape: self.shape@,
            dtype: self.dtype@,
            heads: self.heads as nat,
        }
    }
}

/// The models of a list of rows.
pub open spec fn rows_view(s: Seq<Row>) -> Seq<RowV> {
    s.map_values(|r: Row| r@)
}

/// The rows outside the layers. Embeddings are tied: there is no output matrix.
pub open spec fn global_rows() -> Seq<RowV> {
    let hp = tiny_hp();
    seq![
        RowV {
            gguf: "token_embd.weight"@,
            hf: "model.embed_tokens.weight"@,
            shape: seq![hp.vocab_size, hp.hidden_size],
            dtype: DTypeV::F32,
            heads: 0,
        },
        RowV {
            gguf: "output_norm.weight"@,
            hf: "model.norm.weight"@,
            shape: seq![hp.hidden_size],
            dtype: DTypeV::F32,
            heads: 0,
        },
    ]
}

/// A row of layer `i`.
pub open spec fn layer_row(
    i: nat,
    gguf: Seq<char>,
    hf: Seq<char>,
    shape: Seq<u64>,
    dtype: DTypeV,
    heads: nat,
) -> RowV {
    RowV {
        gguf: "blk."@ + dec(i) + "."@ + gguf,
        hf: "model.layers."@ + dec(i) + "."@ + hf,
        shape,
        dtype,
        heads,
    }
}

/// The rows of layer `i`.
pub open spec fn layer_rows(i: nat) -> Seq<RowV> {
    let hp = tiny_hp();
    let h = hp.hidden_size;
    let f = hp.ffn_hidden_size;
    let kv = (hp.hidden_size / hp.n_heads * hp.n_kv_heads) as u64;
    seq![
        layer_row(i, "attn_norm.weight"@, "input_layernorm.weight"@, seq![h], DTypeV::F32, 0),
        layer_row(
            i,
            "attn_q.weight"@,
            "self_attn.q_proj.weight"@,
            seq![h, h],
            DTypeV::Q8_0,
            hp.n_heads as nat,
        ),
        layer_row(
            i,
            "attn_k.weight"@,
            "self_attn.k_proj.weight"@,
            seq![kv, h],
            DTypeV::Q8_0,
            hp.n_kv_heads as nat,
        ),
        layer_row(
            i,
            "attn_v.weight"@,
            "self_attn.v_proj.weight"@,
            seq![kv, h],
            DTypeV::F16,
            0,
        ),
        layer_row(
            i,
            "attn_output.weight"@,
            "self_attn.o_proj.weight"@,
            seq![h, h],
            DTypeV::Q8_0,
            0,
        ),
        layer_row(
            i,
            "ffn_norm.weight"@,
            "post_attention_layernorm.weight"@,
            seq![h],
            DTypeV::F32,
            0,
        ),
        layer_row(i, "ffn_gate.weight"@, "mlp.gate_proj.weight"@, seq![f, h], DTypeV::F16, 0),
        layer_row(i, "ffn_up.weight"@, "mlp.up_proj.weight"@, seq![f, h], DTypeV::BF16, 0),
        layer_row(i, "ffn_down.weight"@, "mlp.down_proj.weight"@, seq![h, f], DTypeV::Q4_K, 0),
    ]
}

/// The rows of the first `k` layers.
pub open spec fn layers_rows(k: nat) -> Seq<RowV>
    decreases k,
{
    if k == 0 {
        Seq::empty()
    } else {
        layers_rows((k - 1) as nat) + layer_rows((k - 1) as nat)
    }
}

/// All tensors of the tiny model.
pub open spec fn tiny_rows() -> Seq<RowV> {
    global_rows() + layers_rows(tiny_hp().n_layers as nat)
}

/// Whether a tensor of this shape and element type can be filled, permuted and
/// packed.
pub open spec fn shape_ok(shape: Seq<u64>, dtype: DTypeV, heads: nat) -> bool {
    &&& checked_product(shape) is Some
    &&& 0 < checked_product(shape)->0 <= 100_000
    &&& 0 < shape.len() <= 2
    &&& byte_len(dtype, checked_product(shape)->0) is Some
    &&& byte_len(dtype, checked_product(shape)->0)->0 <= 100_000
    &&& heads > 0 ==> ({
        let n = checked_product(shape)->0;
        let cols = shape.last() as nat;
        let rows = n / cols;
        &&& cols > 0
        &&& n == rows * cols
        &&& rows % heads == 0
        &&& (rows / heads) % 2 == 0
    })
}

/// Whether a row can be filled, permuted and packed.
pub open spec fn row_ok(r: RowV) -> bool {
    shape_ok(r.shape, r.dtype, r.heads)
}

/// A single dimension is its own product.
pub proof fn lemma_product1(a: u64)
    ensures
        checked_product(seq![a]) == Some(a as nat),
{
    reveal_with_fuel(checked_product, 2);
    assert(seq![a].drop_last() =~= Seq::<u64>::empty());
    assert(1 * a == a);
}

proof fn lemma_product2(a: u64, b: u64)
    requires
        a * b <= u64::MAX,
    ensures
        checked_product(seq![a, b]) == Some((a * b) as nat),
{
    lemma_product1(a);
    assert(seq![a, b].drop_last() =~= seq![a]);
}

proof fn lemma_shape1_ok()
    ensures
        shape_ok(seq![64u64], DTypeV::F32, 0),
{
    lemma_product1(64);
    assert(64nat / 1 * 4 == 256);
}

proof fn lemma_shape2_ok(a: u64, b: u64, dtype: DTypeV, heads: nat)
    requires
        0 < a <= 260,
        0 < b <= 256,
        a * b <= 20_000,
        match dtype {
            DTypeV::F32 => true,
            DTypeV::F16 => true,
            DTypeV::BF16 => true,
            DTypeV::Q8_0 => (a * b) % 32 == 0,
            DTypeV::Q4_K => (a * b) % 256 == 0,
            DTypeV::Unsupported(_) => false,
        },
        heads > 0 ==> a as nat % heads == 0 && (a as nat / heads) % 2 == 0,
    ensures
        shape_ok(seq![a, b], dtype, heads),
{
    lemma_product2(a, b);
    let n = (a * b) as nat;
    assert(n > 0) by (nonlinear_arith)
        requires
            n == a * b,
            a > 0,
            b > 0,
    ;
    assert(n / 1 == n);
    assert(n / b as nat == a as nat) by (nonlinear_arith)
        requires
            n == a * b,
            b > 0,
    ;
    match dtype {
        DTypeV::F32 => {
            assert(byte_len(dtype, n) == Some(n / 1 * 4));
        },
        DTypeV::F16 => {
            assert(byte_len(dtype, n) == Some(n / 1 * 2));
        },
        DTypeV::BF16 => {
            assert(byte_len(dtype, n) == Some(n / 1 * 2));
        },
        DTypeV::Q8_0 => {
            assert(byte_len(dtype, n) == Some(n / 32 * 34));
        },
        DTypeV::Q4_K => {
            assert(byte_len(dtype, n) == Some(n / 256 * 144));
        },
        DTypeV::Unsupported(_) => {},
    }
}

/// The rows of the table can be filled, permuted and packed.
pub proof fn lemma_rows_ok(i: nat)
    ensures
        forall|k: int| 0 <= k < global_rows().len() ==> row_ok(#[trigger] global_rows()[k]),
        forall|k: int| 0 <= k < layer_rows(i).len() ==> row_ok(#[trigger] layer_rows(i)[k]),
{
    lemma_shape1_ok();
    lemma_shape2_ok(260, 64, DTypeV::F32, 0);
    lemma_shape2_ok(64, 64, DTypeV::Q8_0, 2);
    lemma_shape2_ok(32, 64, DTypeV::Q8_0, 1);
    lemma_shape2_ok(32, 64, DTypeV::F16, 0);
    lemma_shape2_ok(64, 64, DTypeV::Q8_0, 0);
    lemma_shape2_ok(256, 64, DTypeV::F16, 0);
    lemma_shape2_ok(256, 64, DTypeV::BF16, 0);
    lemma_shape2_ok(64, 256, DTypeV::Q4_K, 0);
    assert((64u64 / 2u64 * 1u64) as u64 == 32u64);
    let rows = layer_rows(i);
    assert(row_ok(rows[0]) && row_ok(rows[1]) && row_ok(rows[2]));
    assert(row_ok(rows[3]) && row_ok(rows[4]) && row_ok(rows[5]));
    assert(row_ok(rows[6]) && row_ok(rows[7]) && row_ok(rows[8]));
}

fn shape1(a: u64) -> (v: Vec<u64>)
    ensures
        v@ == seq![a],
{
    let mut v: Vec<u64> = Vec::new();
    v.push(a);
    assert(v@ =~= seq![a]);
    v
}

fn shape2(a: u64, b: u64) -> (v: Vec<u64>)
    ensures
        v@ == seq![a, b],
{
    let mut v: Vec<u64> = Vec::new();
    v.push(a);
    v.push(b);
    assert(v@ =~= seq![a, b]);
    v
}

/// `{prefix}{i}.{s}`.
fn numbered(prefix: &str, i: u64, s: &str) -> (r: String)
    ensures
        r@ == prefix@ + dec(i as nat) + "."@ + s@,
{
    let mut r = prefix.to_owned();
    r.append(dec_text(i).as_str());
    r.append(".");
    r.append(s);
    r
}

fn make_row(i: u64, gguf: &str, hf: &str, shape: Vec<u64>, dtype: DType, heads: usize) -> (r: Row)
    ensures
        r@ == layer_row(i as nat, gguf@, hf@, shape@, dtype@, heads as nat),
{
    Row {
        gguf: numbered("blk.", i, gguf),
        hf: numbered("model.layers.", i, hf),
        shape,
        dtype,
        heads,
    }
}

/// Appends the rows of layer `i`.
fn push_layer(t: &mut Vec<Row>, i: u64)
    ensures
        rows_view(final(t)@) == rows_view(old(t)@) + layer_rows(i as nat),
{
    let ghost start = rows_view(t@);
    let h: u64 = 64;
    let f: u64 = 256;
    let kv: u64 = 32;
    let r0 = make_row(i, "attn_norm.weight", "input_layernorm.weight", shape1(h), DType::F32, 0);
    let r1 = make_row(
        i,
        "attn_q.weight",
        "self_attn.q_proj.weight",
        shape2(h, h),
        DType::Q8_0,
        2,
    );
    let r2 = make_row(
        i,
        "attn_k.weight",
        "self_attn.k_proj.weight",
        shape2(kv, h),
        DType::Q8_0,
        1,
    );
    let r3 = make_row(
        i,
        "attn_v.weight",
        "self_attn.v_proj.weight",
        shape2(kv, h),
        DType::F16,
        0,
    );
    let r4 = make_row(
        i,
        "attn_output.weight",
        "self_attn.o_proj.weight",
        shape2(h, h),
        DType::Q8_0,
        0,
    );
    let r5 = make_row(
        i,
        "ffn_norm.weight",
        "post_attention_layernorm.weight",
        shape1(h),
        DType::F32,
        0,
    );
    let r6 = make_row(i, "ffn_gate.weight", "mlp.gate_proj.weight", shape2(f, h), DType::F16, 0);
    let r7 = make_row(i, "ffn_up.weight", "mlp.up_proj.weight", shape2(f, h), DType::BF16, 0);
    let r8 = make_row(i, "ffn_down.weight", "mlp.down_proj.weight", shape2(h, f), DType::Q4_K, 0);
    let ghost views = seq![r0@, r1@, r2@, r3@, r4@, r5@, r6@, r7@, r8@];
    proof {
        assert((64u64 / 2u64 * 1u64) as u64 == 32u64);
        assert(layer_rows(i as nat) =~= views);
    }
    t.push(r0);
    t.push(r1);
    t.push(r2);
    t.push(r3);
    t.push(r4);
    t.push(r5);
    t.push(r6);
    t.push(r7);
    t.push(r8);
    proof {
        assert(rows_view(t@) =~= start + views);
    }
}

/// All tensors of the tiny model.
pub fn tensor_table() -> (t: Vec<Row>)
    ensures
        rows_view(t@) == tiny_rows(),
        forall|i: int| 0 <= i < t@.len() ==> row_ok(#[trigger] t@[i]@),
        t@.len() == 20,
{
    let mut t: Vec<Row> = Vec::new();
    t.push(
        Row {
            gguf: "token_embd.weight".to_owned(),
            hf: "model.embed_tokens.weight".to_owned(),
            shape: shape2(260, 64),
            dtype: DType::F32,
            heads: 0,
        },
    );
    t.push(
        Row {
            gguf: "output_norm.weight".to_owned(),
            hf: "model.norm.weight".to_owned(),
            shape: shape1(64),
            dtype: DType::F32,
            heads: 0,
        },
    );
    proof {
        assert(rows_view(t@) =~= global_rows());
        assert(rows_view(t@) =~= global_rows() + layers_rows(0));
        lemma_rows_ok(0);
        assert forall|k: int| 0 <= k < t@.len() implies row_ok(#[trigger] t@[k]@) by {
            assert(t@[k]@ == global_rows()[k]);
        }
    }
    let n: u64 = tiny_hyperparams().n_layers;
    let mut i: u64 = 0;
    while i < n
        invariant
            i <= n,
            n == 2,
            rows_view(t@) == global_rows() + layers_rows(i as nat),
            t@.len() == 2 + 9 * i,
            forall|k: int| 0 <= k < t@.len() ==> row_ok(#[trigger] t@[k]@),
        decreases n - i,
    {
        let ghost before = t@;
        push_layer(&mut t, i);
        proof {
            lemma_rows_ok(i as nat);
            let a = rows_view(before);
            assert(rows_view(t@) =~= global_rows() + layers_rows(i as nat + 1));
            assert(t@.len() == rows_view(t@).len());
            assert(a.len() == before.len());
            assert forall|k: int| 0 <= k < t@.len() implies row_ok(#[trigger] t@[k]@) by {
                assert(t@[k]@ == rows_view(t@)[k]);
                if k < a.len() {
                    assert(rows_view(t@)[k] == before[k]@);
                } else {
                    assert(rows_view(t@)[k] == layer_rows(i as nat)[k - a.len()]);
                }
            }
        }
        i += 1;
    }
    t
}

/// The seed of the weights of tensor `k`.
pub open spec fn seed_of(k: int) -> u64 {
    (0xF17E + k) as u64
}

/// The weights of tensor `k`.
pub open spec fn row_weights(r: RowV, k: int) -> Seq<u32> {
    weights(seed_of(k), checked_product(r.shape)->0)
}

/// The weights of tensor `k` in the order of GGUF files.
pub open spec fn gguf_weights(r: RowV, k: int) -> Seq<u32> {
    let w = row_weights(r, k);
    if r.heads > 0 {
        let cols = r.shape.last() as nat;
        permuted(w, cols as int, (w.len() / cols / r.heads) as int)
    } else {
        w
    }
}

/// Tensor `k` of the GGUF file: packed, with permuted rows.
pub open spec fn gguf_fixture(r: RowV, k: int) -> FixtureV {
    FixtureV {
        name: r.gguf,
        shape: r.shape,
        dtype: r.dtype,
        data: packed(r.dtype, gguf_weights(r, k)),
    }
}

/// The tensors of the GGUF file.
pub open spec fn tiny_gguf_fixtures() -> Seq<FixtureV> {
    Seq::new(tiny_rows().len(), |k: int| gguf_fixture(tiny_rows()[k], k))
}

/// The heads of a tensor that is permuted make up its rows.
proof fn lemma_heads_make_up(n: nat, cols: nat, heads: nat, w: Seq<u32>)
    requires
        cols > 0,
        heads > 0,
        n == (n / cols) * cols,
        (n / cols) % heads == 0,
        (n / cols / heads) % 2 == 0,
        w.len() == n,
    ensures
        rows_moved((n / cols / heads) as int, heads as int) * cols <= n,
        reordered(w, cols as int, (n / cols / heads) as int, heads as int) == permuted(
            w,
            cols as int,
            (n / cols / heads) as int,
        ),
{
    let rows = n / cols;
    let head = rows / heads;
    vstd::arithmetic::div_mod::lemma_fundamental_div_mod(rows as int, heads as int);
    assert(heads * head * cols == n) by (nonlinear_arith)
        requires
            rows == heads * head,
            n == rows * cols,
    ;
    lemma_reordered(w, cols as int, head as int, heads as int);
}

/// Tensor `k` of the GGUF file.
fn make_gguf(row: Row, k: usize) -> (t: FixtureTensor)
    requires
        row_ok(row@),
        k < 1000,
    ensures
        t@ == gguf_fixture(row@, k as int),
        t@.data.len() <= 100_000,
        writable(t@),
{
    let n: usize = match crate::formats::desc::element_count(&row.shape) {
        Some(n) => n as usize,
        None => 0,
    };
    let w = weight_stream(0xF17E + k as u64, n);
    let w = if row.heads > 0 {
        let cols: usize = row.shape[row.shape.len() - 1] as usize;
        proof {
            let m = checked_product(row@.shape)->0;
            let c = row@.shape.last() as nat;
            assert(c <= m) by (nonlinear_arith)
                requires
                    m == (m / c) * c,
                    m > 0,
                    c > 0,
            ;
        }
        proof {
            lemma_heads_make_up(n as nat, cols as nat, row.heads as nat, w@);
        }
        permute_rows(&w, n / cols, cols, row.heads)
    } else {
        w
    };
    let ghost values = w@;
    proof {
        law_packed_len(row.dtype@, values);
    }
    let data = match pack(&row.dtype, w.as_slice()) {
        Ok(d) => d,
        Err(_) => Vec::new(),
    };
    FixtureTensor { name: row.gguf, shape: row.shape, dtype: row.dtype, data }
}

/// The tensors of the tiny model's GGUF file: packed, with the rows of the query
/// and key projections permuted.
pub fn tiny_tensors_gguf() -> (r: Vec<FixtureTensor>)
    ensures
        fixtures_view(r@) == tiny_gguf_fixtures(),
        r@.len() == 20,
        forall|i: int| 0 <= i < r@.len() ==> #[trigger] r@[i].data@.len() <= 100_000,
        forall|i: int| 0 <= i < r@.len() ==> writable(#[trigger] r@[i]@),
{
    let mut table = tensor_table();
    let ghost all = table@;
    let mut r: Vec<FixtureTensor> = Vec::new();
    let n: usize = table.len();
    let mut k: usize = 0;
    while k < n
        invariant
            k <= n,
            n == 20,
            all.len() == n,
            rows_view(all) == tiny_rows(),
            forall|i: int| 0 <= i < n ==> row_ok(#[trigger] all[i]@),
            table@ == all.skip(k as int),
            r@.len() == k,
            fixtures_view(r@) == tiny_gguf_fixtures().take(k as int),
            forall|i: int| 0 <= i < r@.len() ==> #[trigger] r@[i].data@.len() <= 100_000,
            forall|i: int| 0 <= i < r@.len() ==> writable(#[trigger] r@[i]@),
        decreases n - k,
    {
        assert(table@[0] == all[k as int]);
        assert(row_ok(all[k as int]@));
        let row = table.remove(0);
        let t = make_gguf(row, k);
        let ghost before = fixtures_view(r@);
        r.push(t);
        k += 1;
        proof {
            assert(table@ =~= all.skip(k as int));
            assert(tiny_rows()[k - 1] == all[k - 1]@);
            assert(fixtures_view(r@) =~= before.push(t@));
            assert(tiny_gguf_fixtures().take(k as int) =~= tiny_gguf_fixtures().take(k - 1).push(
                gguf_fixture(tiny_rows()[k - 1], k - 1),
            ));
        }
    }
    proof {
        assert(tiny_rows().len() == all.len());
        assert(tiny_gguf_fixtures().take(k as int) =~= tiny_gguf_fixtures());
    }
    r
}

/// The values that tensor `k` has once packed: what its packed form decodes to.
pub open spec fn effective(r: RowV, k: int) -> Seq<u32> {
    let w = row_weights(r, k);
    Seq::new(w.len(), |i: int| decoded(r.dtype, packed(r.dtype, w), i))
}

/// The element type of a tensor in safetensors files, which know no blocks.
pub open spec fn hf_dtype(d: DTypeV) -> DTypeV {
    match d {
        DTypeV::F16 => DTypeV::F16,
        DTypeV::BF16 => DTypeV::BF16,
        _ => DTypeV::F32,
    }
}

/// Tensor `k` of the safetensors file: the same effective values, not permuted.
pub open spec fn hf_fixture(r: RowV, k: int) -> FixtureV {
    FixtureV {
        name: r.hf,
        shape: r.shape,
        dtype: hf_dtype(r.dtype),
        data: packed(hf_dtype(r.dtype), effective(r, k)),
    }
}

/// The tensors of the safetensors file.
pub open spec fn tiny_hf_fixtures() -> Seq<FixtureV> {
    Seq::new(tiny_rows().len(), |k: int| hf_fixture(tiny_rows()[k], k))
}

/// Tensor `k` of the safetensors file.
fn make_hf(row: Row, k: usize) -> (t: FixtureTensor)
    requires
        row_ok(row@),
        k < 1000,
    ensures
        t@ == hf_fixture(row@, k as int),
        t@.data.len() <= 500_000,
        !(t@.dtype is Q8_0) && !(t@.dtype is Q4_K) && !(t@.dtype is Unsupported),
{
    let n: usize = match crate::formats::desc::element_count(&row.shape) {
        Some(n) => n as usize,
        None => 0,
    };
    let w = weight_stream(0xF17E + k as u64, n);
    let ghost values = w@;
    proof {
        law_packed_len(row.dtype@, values);
        assert(n as nat / 1 == n);
        assert(n as nat / 1 * 4 == 4 * n);
        assert(n as nat / 1 * 2 == 2 * n);
        assert(byte_len(DTypeV::F32, n as nat) == Some(4 * n as nat));
    }
    let bytes = match pack(&row.dtype, w.as_slice()) {
        Ok(d) => d,
        Err(_) => Vec::new(),
    };
    let eff = match dequant(&row.dtype, bytes.as_slice(), n) {
        Ok(v) => v,
        Err(_) => Vec::new(),
    };
    proof {
        assert(eff@ =~= effective(row@, k as int));
    }
    let dtype = match row.dtype {
        DType::F16 => DType::F16,
        DType::BF16 => DType::BF16,
        _ => DType::F32,
    };
    proof {
        law_packed_len(dtype@, eff@);
    }
    let data = match pack(&dtype, eff.as_slice()) {
        Ok(d) => d,
        Err(_) => Vec::new(),
    };
    FixtureTensor { name: row.hf, shape: row.shape, dtype, data }
}

/// The tensors of the tiny model's safetensors file: the same effective values as
/// in the GGUF file, with block formats spelled out as single precision.
pub fn tiny_tensors_hf() -> (r: Vec<FixtureTensor>)
    ensures
        fixtures_view(r@) == tiny_hf_fixtures(),
        r@.len() == 20,
        forall|i: int| 0 <= i < r@.len() ==> #[trigger] r@[i].data@.len() <= 500_000,
        forall|i: int|
            0 <= i < r@.len() ==> !((#[trigger] r@[i]).dtype@ is Q8_0) && !(r@[i].dtype@ is Q4_K)
                && !(r@[i].dtype@ is Unsupported),
{
    let mut table = tensor_table();
    let ghost all = table@;
    let mut r: Vec<FixtureTensor> = Vec::new();
    let n: usize = table.len();
    let mut k: usize = 0;
    while k < n
        invariant
            k <= n,
            n == 20,
            all.len() == n,
            rows_view(all) == tiny_rows(),
            forall|i: int| 0 <= i < n ==> row_ok(#[trigger] all[i]@),
            table@ == all.skip(k as int),
            r@.len() == k,
            fixtures_view(r@) == tiny_hf_fixtures().take(k as int),
            forall|i: int| 0 <= i < r@.len() ==> #[trigger] r@[i].data@.len() <= 500_000,
            forall|i: int|
                0 <= i < r@.len() ==> !((#[trigger] r@[i]).dtype@ is Q8_0) && !(
                r@[i].dtype@ is Q4_K) && !(r@[i].dtype@ is Unsupported),
        decreases n - k,
    {
        assert(table@[0] == all[k as int]);
        assert(row_ok(all[k as int]@));
        let row = table.remove(0);
        let t = make_hf(row, k);
        let ghost before = fixtures_view(r@);
        r.push(t);
        k += 1;
        proof {
            assert(table@ =~= all.skip(k as int));
            assert(tiny_rows()[k - 1] == all[k - 1]@);
            assert(fixtures_view(r@) =~= before.push(t@));
            assert(tiny_hf_fixtures().take(k as int) =~= tiny_hf_fixtures().take(k - 1).push(
                hf_fixture(tiny_rows()[k - 1], k - 1),
            ));
        }
    }
    proof {
        assert(tiny_rows().len() == all.len());
        assert(tiny_hf_fixtures().take(k as int) =~= tiny_hf_fixtures());
    }
    r
}

} // verus!
