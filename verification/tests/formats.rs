//! Model-file parsing and fixtures.

use inferno::formats::data::read_tensor_bytes;
use inferno::formats::desc::{
    Architecture, DType, HyperParams, ModelDesc, RopeStyle, TokenizerSpec,
};
use inferno::formats::error::FormatError;
use inferno::formats::fixtures;
use inferno::formats::gguf;
use inferno::formats::gguf::value::GgufValue;
use inferno::formats::image;
use inferno::formats::limits;
use inferno::formats::load::{classify, load_file, Source};
use inferno::formats::mlx::{load_dir, pick_shards, MlxConfig, Shard};
use inferno::formats::names::{canonical_gguf, canonical_hf};
use inferno::formats::quant;
use inferno::formats::read::{read_string, read_u32, ByteReader};
use inferno::formats::safetensors;

fn bits(v: &[f32]) -> Vec<u32> {
    v.iter().map(|x| x.to_bits()).collect()
}

fn floats(v: &[u32]) -> Vec<f32> {
    v.iter().map(|x| f32::from_bits(*x)).collect()
}

// --- element types -------------------------------------------------------

#[test]
fn byte_len_simple_dtypes() {
    assert_eq!(DType::F32.byte_len(10), Some(40));
    assert_eq!(DType::F16.byte_len(10), Some(20));
    assert_eq!(DType::BF16.byte_len(10), Some(20));
}

#[test]
fn byte_len_block_quants() {
    assert_eq!(DType::Q8_0.byte_len(64), Some(68));
    assert_eq!(DType::Q4_K.byte_len(512), Some(288));
    assert_eq!(DType::Q8_0.byte_len(33), None);
    assert_eq!(DType::Unsupported("ggml:26".into()).byte_len(32), None);
}

#[test]
fn byte_len_overflow_is_none() {
    assert_eq!(DType::F32.byte_len(u64::MAX), None);
}

#[test]
fn architecture_from_id() {
    assert_eq!(Architecture::from_id("llama"), Architecture::Llama);
    assert_eq!(Architecture::from_id("qwen2"), Architecture::Qwen2);
    assert_eq!(
        Architecture::from_id("mamba"),
        Architecture::Unknown("mamba".into())
    );
    assert_eq!(Architecture::from_id("qwen3"), Architecture::Qwen3);
    assert_eq!(Architecture::from_id("mistral"), Architecture::Mistral);
}

// --- names ---------------------------------------------------------------

#[test]
fn gguf_names_map() {
    assert_eq!(
        canonical_gguf("token_embd.weight").as_deref(),
        Some("token_embed.weight")
    );
    assert_eq!(
        canonical_gguf("output.weight").as_deref(),
        Some("lm_head.weight")
    );
    assert_eq!(
        canonical_gguf("output_norm.weight").as_deref(),
        Some("output_norm.weight")
    );
    assert_eq!(
        canonical_gguf("blk.3.attn_q.weight").as_deref(),
        Some("layers.3.attn.q_proj.weight")
    );
    assert_eq!(
        canonical_gguf("blk.0.attn_k.bias").as_deref(),
        Some("layers.0.attn.k_proj.bias")
    );
    assert_eq!(
        canonical_gguf("blk.12.ffn_down.weight").as_deref(),
        Some("layers.12.ffn.down_proj.weight")
    );
    assert_eq!(
        canonical_gguf("blk.0.attn_q_norm.weight").as_deref(),
        Some("layers.0.attn.q_norm.weight")
    );
    assert_eq!(canonical_gguf("rope_freqs.weight"), None);
}

#[test]
fn hf_names_map() {
    assert_eq!(
        canonical_hf("model.embed_tokens.weight").as_deref(),
        Some("token_embed.weight")
    );
    assert_eq!(
        canonical_hf("model.norm.weight").as_deref(),
        Some("output_norm.weight")
    );
    assert_eq!(
        canonical_hf("lm_head.weight").as_deref(),
        Some("lm_head.weight")
    );
    assert_eq!(
        canonical_hf("model.layers.3.self_attn.q_proj.weight").as_deref(),
        Some("layers.3.attn.q_proj.weight")
    );
    assert_eq!(
        canonical_hf("model.layers.0.input_layernorm.weight").as_deref(),
        Some("layers.0.attn_norm.weight")
    );
    assert_eq!(
        canonical_hf("model.layers.0.post_attention_layernorm.weight").as_deref(),
        Some("layers.0.ffn_norm.weight")
    );
    assert_eq!(
        canonical_hf("model.layers.1.mlp.gate_proj.weight").as_deref(),
        Some("layers.1.ffn.gate_proj.weight")
    );
    assert_eq!(
        canonical_hf("model.layers.1.self_attn.q_norm.weight").as_deref(),
        Some("layers.1.attn.q_norm.weight")
    );
    assert_eq!(canonical_hf("model.rotary_emb.inv_freq"), None);
}

#[test]
fn layer_indices_are_read_as_numbers() {
    assert_eq!(
        canonical_gguf("blk.+07.attn_q.weight").as_deref(),
        Some("layers.7.attn.q_proj.weight")
    );
    assert_eq!(canonical_gguf("blk.x.attn_q.weight"), None);
    assert_eq!(canonical_gguf("blk..attn_q.weight"), None);
    assert_eq!(
        canonical_gguf("blk.18446744073709551616.attn_q.weight"),
        None
    );
    assert_eq!(canonical_gguf("blk.0.attn_q"), None);
    assert_eq!(canonical_gguf("blk.0.attn_q.scale"), None);
}

#[test]
fn names_of_both_formats_agree() {
    let pairs = [
        ("attn_norm", "input_layernorm"),
        ("attn_q_norm", "self_attn.q_norm"),
        ("attn_k_norm", "self_attn.k_norm"),
        ("attn_q", "self_attn.q_proj"),
        ("attn_k", "self_attn.k_proj"),
        ("attn_v", "self_attn.v_proj"),
        ("attn_output", "self_attn.o_proj"),
        ("ffn_norm", "post_attention_layernorm"),
        ("ffn_gate", "mlp.gate_proj"),
        ("ffn_up", "mlp.up_proj"),
        ("ffn_down", "mlp.down_proj"),
    ];
    for (g, h) in pairs {
        for param in ["weight", "bias"] {
            let a = canonical_gguf(&format!("blk.5.{g}.{param}")).unwrap();
            let b = canonical_hf(&format!("model.layers.5.{h}.{param}")).unwrap();
            assert_eq!(a, b);
            assert_eq!(canonical_gguf(&a), None);
            assert_eq!(canonical_hf(&a), None);
        }
    }
}

// --- GGUF values ---------------------------------------------------------

fn parse_bytes(type_id: u32, bytes: &[u8]) -> Result<GgufValue, FormatError> {
    GgufValue::parse(&mut ByteReader::new(bytes), type_id, 0)
}

#[test]
fn scalar_values() {
    assert_eq!(
        parse_bytes(4, &7u32.to_le_bytes()).unwrap().as_u64(),
        Some(7)
    );
    assert_eq!(
        parse_bytes(10, &9u64.to_le_bytes()).unwrap().as_u64(),
        Some(9)
    );
    assert_eq!(
        parse_bytes(6, &1.5f32.to_le_bytes())
            .unwrap()
            .as_f32()
            .map(f32::from_bits),
        Some(1.5)
    );
    assert_eq!(parse_bytes(7, &[1]).unwrap(), GgufValue::Bool(true));
}

#[test]
fn every_scalar_width_is_read() {
    assert_eq!(parse_bytes(0, &[200]).unwrap(), GgufValue::U8(200));
    assert_eq!(parse_bytes(1, &[0x80]).unwrap(), GgufValue::I8(-128));
    assert_eq!(
        parse_bytes(2, &0xBEEFu16.to_le_bytes()).unwrap(),
        GgufValue::U16(0xBEEF)
    );
    assert_eq!(
        parse_bytes(3, &(-2i16).to_le_bytes()).unwrap(),
        GgufValue::I16(-2)
    );
    assert_eq!(
        parse_bytes(5, &(-3i32).to_le_bytes()).unwrap(),
        GgufValue::I32(-3)
    );
    assert_eq!(
        parse_bytes(11, &i64::MIN.to_le_bytes()).unwrap(),
        GgufValue::I64(i64::MIN)
    );
    assert_eq!(parse_bytes(7, &[0]).unwrap(), GgufValue::Bool(false));
    assert_eq!(parse_bytes(11, &5i64.to_le_bytes()).unwrap().as_u64(), Some(5));
    assert_eq!(
        parse_bytes(11, &(-5i64).to_le_bytes()).unwrap().as_u64(),
        None
    );
    assert_eq!(parse_bytes(7, &[1]).unwrap().as_u64(), None);
    assert_eq!(parse_bytes(7, &[1]).unwrap().as_f32(), None);
    assert_eq!(parse_bytes(7, &[1]).unwrap().as_str(), None);
    assert_eq!(parse_bytes(7, &[1]).unwrap().array_len(), None);
    match parse_bytes(7, &[2]) {
        Err(FormatError::Malformed { context, detail }) => {
            assert_eq!(context, "bool");
            assert_eq!(detail, "expected 0 or 1, got 2");
        }
        other => panic!("unexpected {other:?}"),
    }
}

#[test]
fn double_precision_values_are_rounded_to_single() {
    for x in [0.1f64, 1e-5, 10000.0, -2.5e-40, 1e40, -1e-50, 3.0000000000000004] {
        let v = parse_bytes(12, &x.to_le_bytes()).unwrap();
        assert_eq!(v.as_f32(), Some((x as f32).to_bits()), "{x}");
    }
    let nan = parse_bytes(12, &f64::NAN.to_le_bytes()).unwrap();
    assert!(f32::from_bits(nan.as_f32().unwrap()).is_nan());
}

#[test]
fn string_value() {
    let mut b = 5u64.to_le_bytes().to_vec();
    b.extend_from_slice(b"hello");
    assert_eq!(parse_bytes(8, &b).unwrap().as_str(), Some("hello"));
}

#[test]
fn invalid_utf8_is_rejected() {
    let mut b = 2u64.to_le_bytes().to_vec();
    b.extend_from_slice(&[0xC3, 0x28]);
    match parse_bytes(8, &b) {
        Err(FormatError::Malformed { context, detail }) => {
            assert_eq!(context, "string payload");
            assert_eq!(detail, "invalid utf-8");
        }
        other => panic!("unexpected {other:?}"),
    }
    let mut ok = 2u64.to_le_bytes().to_vec();
    ok.extend_from_slice("é".as_bytes());
    assert_eq!(parse_bytes(8, &ok).unwrap().as_str(), Some("é"));
}

#[test]
fn string_over_limit_rejected() {
    let b = (limits::MAX_STRING_BYTES + 1).to_le_bytes();
    assert!(matches!(
        parse_bytes(8, &b),
        Err(FormatError::LimitExceeded { .. })
    ));
}

#[test]
fn array_of_u32() {
    let mut b = 4u32.to_le_bytes().to_vec();
    b.extend_from_slice(&3u64.to_le_bytes());
    for v in [1u32, 2, 3] {
        b.extend_from_slice(&v.to_le_bytes());
    }
    let v = parse_bytes(9, &b).unwrap();
    assert_eq!(v.array_len(), Some(3));
    assert_eq!(
        v,
        GgufValue::Array(vec![
            GgufValue::U32(1),
            GgufValue::U32(2),
            GgufValue::U32(3)
        ])
    );
}

#[test]
fn array_count_over_limit_rejected() {
    let mut b = 4u32.to_le_bytes().to_vec();
    b.extend_from_slice(&(limits::MAX_ARRAY_ELEMS + 1).to_le_bytes());
    assert!(matches!(
        parse_bytes(9, &b),
        Err(FormatError::LimitExceeded { .. })
    ));
}

#[test]
fn deep_array_nesting_rejected() {
    let mut b: Vec<u8> = Vec::new();
    for _ in 0..5 {
        b.extend_from_slice(&9u32.to_le_bytes());
        b.extend_from_slice(&1u64.to_le_bytes());
    }
    assert!(parse_bytes(9, &b).is_err());
    assert!(matches!(
        parse_bytes(9, &b),
        Err(FormatError::LimitExceeded {
            what: "array nesting depth",
            got: 5,
            limit: 4
        })
    ));
}

#[test]
fn a_refused_read_stops_where_it_was_refused() {
    let long = (limits::MAX_STRING_BYTES + 1).to_le_bytes();
    let mut r = ByteReader::new(&long);
    assert!(read_string(&mut r).is_err());
    assert_eq!(r.pos, 8);
    let mut bad = 2u64.to_le_bytes().to_vec();
    bad.extend_from_slice(&[0xC3, 0x28, 7]);
    let mut r = ByteReader::new(&bad);
    assert!(read_string(&mut r).is_err());
    assert_eq!(r.pos, 10);
    let mut r = ByteReader::new(&bad[..9]);
    assert!(read_string(&mut r).is_err());
    assert_eq!(r.pos, 9);
    let mut r = ByteReader::new(&bad);
    assert!(GgufValue::parse(&mut r, 9, limits::MAX_ARRAY_DEPTH).is_err());
    assert_eq!(r.pos, 0);
    assert!(GgufValue::parse(&mut r, 13, 0).is_err());
    assert_eq!(r.pos, 0);
}

#[test]
fn truncated_input_is_error_not_panic() {
    assert!(parse_bytes(4, &[0x01]).is_err());
    match parse_bytes(4, &[0x01]) {
        Err(FormatError::Malformed { context, detail }) => {
            assert_eq!(context, "u32");
            assert_eq!(detail, "unexpected end of input");
        }
        other => panic!("unexpected {other:?}"),
    }
}

#[test]
fn unknown_type_id_rejected() {
    assert!(parse_bytes(99, &[]).is_err());
    match parse_bytes(99, &[]) {
        Err(FormatError::Malformed { detail, .. }) => assert_eq!(detail, "unknown type id 99"),
        other => panic!("unexpected {other:?}"),
    }
}

// --- GGUF headers --------------------------------------------------------

#[test]
fn parses_tiny_llama() {
    let bytes = fixtures::tiny_llama_gguf();
    let desc = gguf::parse(&bytes).unwrap();
    assert_eq!(desc.architecture, Architecture::Llama);
    assert_eq!(desc.name.as_deref(), Some("tiny-llama-test"));
    assert_eq!(desc.hyperparams, fixtures::tiny_hyperparams());
    assert_eq!(desc.tensors.len(), fixtures::tensor_table().len());

    let embd = &desc.tensors[0];
    assert_eq!(embd.name, "token_embed.weight");
    assert_eq!(embd.shape, vec![260, 64]);
    assert_eq!(embd.dtype, DType::F32);
    assert_eq!(embd.data_len, Some(260 * 64 * 4));
    assert_eq!(desc.data_section_offsets.len(), 1);
    assert_eq!(desc.data_section_offsets[0] % 32, 0);
}

#[test]
fn rejects_bad_magic() {
    assert!(matches!(
        gguf::parse(b"GGML........"),
        Err(FormatError::BadMagic { .. })
    ));
    assert!(matches!(
        gguf::parse(b"GG"),
        Err(FormatError::BadMagic { expected: "GGUF" })
    ));
}

#[test]
fn rejects_unsupported_version() {
    let mut b = b"GGUF".to_vec();
    b.extend_from_slice(&99u32.to_le_bytes());
    b.extend_from_slice(&[0u8; 16]);
    assert!(matches!(
        gguf::parse(&b),
        Err(FormatError::UnsupportedVersion(99))
    ));
}

#[test]
fn rejects_huge_tensor_count() {
    let mut b = b"GGUF".to_vec();
    b.extend_from_slice(&3u32.to_le_bytes());
    b.extend_from_slice(&u64::MAX.to_le_bytes());
    b.extend_from_slice(&0u64.to_le_bytes());
    assert!(matches!(
        gguf::parse(&b),
        Err(FormatError::LimitExceeded { .. })
    ));
}

#[test]
fn truncated_tensor_info_is_error_not_panic() {
    let bytes = fixtures::tiny_llama_gguf();
    let hdr_end = gguf::parse(&bytes).unwrap().data_section_offsets[0] as usize;
    let cut = &bytes[..hdr_end - 40];
    assert!(gguf::parse(cut).is_err());
}

fn header(kvs: &[Vec<u8>], infos: &[Vec<u8>]) -> Vec<u8> {
    let mut b = b"GGUF".to_vec();
    b.extend_from_slice(&2u32.to_le_bytes());
    b.extend_from_slice(&(infos.len() as u64).to_le_bytes());
    b.extend_from_slice(&(kvs.len() as u64).to_le_bytes());
    for kv in kvs {
        b.extend_from_slice(kv);
    }
    for i in infos {
        b.extend_from_slice(i);
    }
    b
}

fn text(s: &str) -> Vec<u8> {
    let mut b = (s.len() as u64).to_le_bytes().to_vec();
    b.extend_from_slice(s.as_bytes());
    b
}

fn kv_u32(key: &str, v: u32) -> Vec<u8> {
    let mut b = text(key);
    b.extend_from_slice(&4u32.to_le_bytes());
    b.extend_from_slice(&v.to_le_bytes());
    b
}

fn kv_text(key: &str, v: &str) -> Vec<u8> {
    let mut b = text(key);
    b.extend_from_slice(&8u32.to_le_bytes());
    b.extend_from_slice(&text(v));
    b
}

fn info(name: &str, dims: &[u64], type_id: u32, offset: u64) -> Vec<u8> {
    let mut b = text(name);
    b.extend_from_slice(&(dims.len() as u32).to_le_bytes());
    for d in dims {
        b.extend_from_slice(&d.to_le_bytes());
    }
    b.extend_from_slice(&type_id.to_le_bytes());
    b.extend_from_slice(&offset.to_le_bytes());
    b
}

fn minimal_kvs() -> Vec<Vec<u8>> {
    vec![
        kv_text("general.architecture", "llama"),
        kv_u32("llama.attention.head_count", 4),
        kv_u32("llama.embedding_length", 16),
        kv_u32("llama.block_count", 3),
        kv_u32("llama.feed_forward_length", 32),
    ]
}

#[test]
fn metadata_defaults_and_fallbacks() {
    let b = header(
        &minimal_kvs(),
        &[info("token_embd.weight", &[16, 77], 99, 0)],
    );
    let d = gguf::parse(&b).unwrap();
    assert_eq!(
        d.hyperparams,
        HyperParams {
            vocab_size: 77,
            hidden_size: 16,
            n_layers: 3,
            n_heads: 4,
            n_kv_heads: 4,
            ffn_hidden_size: 32,
            rope_theta: 10000.0f32.to_bits(),
            norm_eps: 1e-5f32.to_bits(),
            context_length: 0,
            rope_style: RopeStyle::Interleaved,
        }
    );
    assert_eq!(d.name, None);
    assert_eq!(d.tokenizer, None);
    assert_eq!(d.tensors[0].shape, vec![77, 16]);
    assert_eq!(d.tensors[0].dtype, DType::Unsupported("ggml:99".into()));
    assert_eq!(d.tensors[0].data_len, None);
}

#[test]
fn faults_and_fallbacks_go_by_the_names_of_the_file() {
    // The canonical name is not the one that the rows are counted under.
    let b = header(
        &minimal_kvs(),
        &[info("token_embed.weight", &[16, 77], 0, 0)],
    );
    match gguf::parse(&b) {
        Err(FormatError::MissingKey(k)) => assert_eq!(k, "llama.vocab_size"),
        other => panic!("unexpected {other:?}"),
    }
    let b = header(&minimal_kvs(), &[info("token_embd.weight", &[16, 77], 0, 4)]);
    assert_eq!(
        gguf::parse(&b).unwrap_err().message(),
        "malformed tensor offset: token_embd.weight: offset 4 not 32-aligned"
    );
    let b = header(&minimal_kvs(), &[info("token_embd.weight", &[16, 77], 0, 0)]);
    assert_eq!(gguf::parse(&b).unwrap().tensors[0].name, "token_embed.weight");
}

#[test]
fn a_repeated_key_takes_its_last_value() {
    let mut kvs = minimal_kvs();
    kvs.push(kv_u32("llama.vocab_size", 5));
    kvs.push(kv_u32("llama.block_count", 9));
    let d = gguf::parse(&header(&kvs, &[])).unwrap();
    assert_eq!(d.hyperparams.n_layers, 9);
    assert_eq!(d.hyperparams.vocab_size, 5);
}

#[test]
fn missing_metadata_is_named() {
    let all = minimal_kvs();
    let want = [
        "general.architecture",
        "llama.attention.head_count",
        "llama.embedding_length",
        "llama.block_count",
        "llama.feed_forward_length",
    ];
    for (i, key) in want.iter().enumerate() {
        let mut kvs = all.clone();
        kvs.remove(i);
        kvs.push(kv_u32("llama.vocab_size", 5));
        match gguf::parse(&header(&kvs, &[])) {
            Err(FormatError::MissingKey(k)) => assert_eq!(k, *key),
            other => panic!("unexpected {other:?}"),
        }
    }
    match gguf::parse(&header(&all, &[])) {
        Err(FormatError::MissingKey(k)) => assert_eq!(k, "llama.vocab_size"),
        other => panic!("unexpected {other:?}"),
    }
}

#[test]
fn alignment_is_checked() {
    let mut kvs = minimal_kvs();
    kvs.push(kv_u32("llama.vocab_size", 5));
    let ok = gguf::parse(&header(&kvs, &[info("w", &[1], 0, 64)])).unwrap();
    assert_eq!(ok.data_section_offsets[0] % 32, 0);
    let err = gguf::parse(&header(&kvs, &[info("w", &[1], 0, 63)])).unwrap_err();
    assert_eq!(
        err.message(),
        "malformed tensor offset: w: offset 63 not 32-aligned"
    );
    kvs.push(kv_u32("general.alignment", 48));
    let err = gguf::parse(&header(&kvs, &[])).unwrap_err();
    assert_eq!(
        err.message(),
        "malformed general.alignment: 48 is not a power of two"
    );
    kvs.push(kv_u32("general.alignment", 0));
    assert!(gguf::parse(&header(&kvs, &[])).is_err());
    kvs.push(kv_u32("general.alignment", 8));
    let d = gguf::parse(&header(&kvs, &[info("w", &[1], 0, 8)])).unwrap();
    assert_eq!(d.data_section_offsets[0] % 8, 0);
}

#[test]
fn tensor_infos_are_limited() {
    let mut kvs = minimal_kvs();
    kvs.push(kv_u32("llama.vocab_size", 5));
    let err = gguf::parse(&header(&kvs, &[info("w", &[1; 9], 0, 0)])).unwrap_err();
    assert_eq!(err.message(), "tensor rank (9) exceeds limit (8)");
    let err = gguf::parse(&header(&kvs, &[info("w", &[u64::MAX, 2], 0, 0)])).unwrap_err();
    assert_eq!(
        err.message(),
        "malformed tensor shape: w: element count overflows u64"
    );
    let mut b = b"GGUF".to_vec();
    b.extend_from_slice(&3u32.to_le_bytes());
    b.extend_from_slice(&0u64.to_le_bytes());
    b.extend_from_slice(&(limits::MAX_KV_PAIRS + 1).to_le_bytes());
    assert_eq!(
        gguf::parse(&b).unwrap_err().message(),
        "metadata kv count (65537) exceeds limit (65536)"
    );
}

#[test]
fn error_messages_read_well() {
    assert_eq!(
        FormatError::UnknownFormat("x".into()).message(),
        "not a recognized model file: x"
    );
    assert_eq!(
        FormatError::BadMagic { expected: "GGUF" }.message(),
        "bad magic bytes (expected GGUF)"
    );
    assert_eq!(
        FormatError::UnsupportedVersion(1).message(),
        "unsupported gguf version 1 (supported: 2, 3)"
    );
    assert_eq!(
        FormatError::MissingKey("k".into()).message(),
        "missing required metadata: k"
    );
    assert_eq!(FormatError::Json("e".into()).message(), "invalid json: e");
}

// --- fixtures ------------------------------------------------------------

fn gguf_desc() -> (ModelDesc, Vec<u8>) {
    let bytes = fixtures::tiny_llama_gguf();
    let desc = load_file("tiny.gguf", &bytes).unwrap();
    (desc, bytes)
}

fn tiny_config() -> MlxConfig {
    MlxConfig {
        model_type: "llama".into(),
        hidden_size: 64,
        num_hidden_layers: 2,
        num_attention_heads: 2,
        num_key_value_heads: Some(1),
        intermediate_size: 256,
        vocab_size: 260,
        rope_theta: Some(10000.0f32.to_bits()),
        rms_norm_eps: Some(1e-5f32.to_bits()),
        max_position_embeddings: Some(128),
    }
}

fn shard(path: &str) -> Shard {
    Shard {
        path: path.into(),
        bytes: fixtures::tiny_llama_safetensors(),
    }
}

fn mlx_desc() -> (ModelDesc, Vec<u8>) {
    let desc = load_dir(
        "mlx",
        Some("mlx".into()),
        tiny_config(),
        vec![shard("mlx/model.safetensors")],
        None,
    )
    .unwrap();
    (desc, fixtures::tiny_llama_safetensors())
}

#[test]
fn gguf_fixture_is_tied_quantized_and_tokenized() {
    let desc = gguf::parse(&fixtures::tiny_llama_gguf()).unwrap();
    assert!(desc.tensors.iter().all(|t| t.name != "lm_head.weight"));
    let down = desc
        .tensors
        .iter()
        .find(|t| t.name == "layers.0.ffn.down_proj.weight")
        .unwrap();
    assert_eq!(down.dtype, DType::Q4_K);
    assert!(desc.tokenizer.is_some());
}

#[test]
fn gguf_and_mlx_effective_weights_match() {
    let (g, gb) = gguf_desc();
    let (m, mb) = mlx_desc();
    for name in ["layers.0.attn.v_proj.weight", "layers.1.ffn.up_proj.weight"] {
        let gt = g.tensors.iter().find(|t| t.name == name).unwrap();
        let mt = m.tensors.iter().find(|t| t.name == name).unwrap();
        let n = gt.shape.iter().product::<u64>() as usize;
        let gv = quant::dequant(&gt.dtype, &read_tensor_bytes(&g, gt, &gb).unwrap(), n).unwrap();
        let n = mt.shape.iter().product::<u64>() as usize;
        let mv = quant::dequant(&mt.dtype, &read_tensor_bytes(&m, mt, &mb).unwrap(), n).unwrap();
        assert_eq!(gv, mv, "{name}");
    }
}

#[test]
fn hostile_vocab1_gguf_parses_with_vocab_size_one() {
    let desc = gguf::parse(&fixtures::hostile_vocab1_gguf()).unwrap();
    assert_eq!(desc.hyperparams.vocab_size, 1);
    assert!(desc.tokenizer.is_some());
}

#[test]
fn weights_are_not_degenerate() {
    let desc = gguf::parse(&fixtures::tiny_llama_gguf()).unwrap();
    let embd = desc
        .tensors
        .iter()
        .find(|t| t.name == "token_embed.weight")
        .unwrap();
    let bytes = fixtures::tiny_llama_gguf();
    let start = desc.data_section_offsets[0] + embd.data_offset;
    let b = &bytes[start as usize..(start + 16) as usize];
    assert_ne!(b, &[0u8; 16]);
}

#[test]
fn images_give_back_their_data() {
    let (desc, bytes) = gguf_desc();
    let tensors = fixtures::tiny_tensors_gguf();
    assert_eq!(desc.tensors.len(), tensors.len());
    for (d, t) in desc.tensors.iter().zip(&tensors) {
        assert_eq!(d.shape, t.shape);
        assert_eq!(d.dtype, t.dtype);
        assert_eq!(read_tensor_bytes(&desc, d, &bytes).unwrap(), t.data);
    }
    let biased = gguf::parse(&fixtures::tiny_bias_llama_gguf()).unwrap();
    assert_eq!(biased.tensors.len(), tensors.len() + 6);
    assert_eq!(biased.tensors[20].name, "layers.0.attn.q_proj.bias");
    assert_eq!(biased.tensors[20].shape, vec![64]);
    assert_eq!(biased.tensors[25].name, "layers.1.attn.v_proj.bias");
    assert_eq!(biased.tensors[25].shape, vec![32]);
}

#[test]
fn safetensors_fixture_gives_back_its_data() {
    let (desc, bytes) = mlx_desc();
    let tensors = fixtures::tiny_tensors_hf();
    for t in &tensors {
        let name = canonical_hf(&t.name).unwrap();
        let d = desc.tensors.iter().find(|d| d.name == name).unwrap();
        assert_eq!(d.shape, t.shape);
        assert_eq!(d.dtype, t.dtype);
        assert_eq!(read_tensor_bytes(&desc, d, &bytes).unwrap(), t.data);
    }
}

/// The stream as floating-point arithmetic has it.
fn reference_stream(seed: u64, n: usize) -> Vec<f32> {
    let mut s = seed | 1;
    (0..n)
        .map(|_| {
            s ^= s >> 12;
            s ^= s << 25;
            s ^= s >> 27;
            let r = s.wrapping_mul(0x2545_F491_4F6C_DD1D);
            ((r >> 40) as f32 / 16_777_216.0 - 0.5) * 0.25
        })
        .collect()
}

#[test]
fn weight_stream_is_the_reference_stream() {
    let want = bits(&reference_stream(0xF17E, 500));
    assert_eq!(fixtures::weight_stream(0xF17E, 500), want);
}

#[test]
fn permutation_moves_halves_to_neighbours() {
    // Two heads of four rows, one column.
    let w: Vec<u32> = (0..8).collect();
    assert_eq!(
        fixtures::permute_rows(&w, 8, 1, 2),
        vec![0, 2, 1, 3, 4, 6, 5, 7]
    );
    // Two columns travel together.
    let w: Vec<u32> = (0..8).collect();
    assert_eq!(
        fixtures::permute_rows(&w, 4, 2, 1),
        vec![0, 1, 4, 5, 2, 3, 6, 7]
    );
}

#[test]
fn rows_outside_even_heads_are_moved_or_left_zero() {
    // Two heads of three rows: the last row of the first is written over.
    let w: Vec<u32> = (10..17).collect();
    assert_eq!(
        fixtures::permute_rows(&w, 6, 1, 2),
        vec![10, 11, 0, 13, 14, 0, 15]
    );
    // A row that belongs to no head.
    assert_eq!(fixtures::permute_rows(&vec![1, 2, 3, 4, 5], 5, 1, 2), vec![1, 2, 3, 4, 0]);
    // No columns, and fewer rows than heads.
    assert_eq!(fixtures::permute_rows(&vec![], 4, 0, 2), Vec::<u32>::new());
    assert_eq!(fixtures::permute_rows(&vec![6], 1, 1, 2), vec![0]);
}

#[test]
fn the_tensors_of_the_safetensors_fixture_tile_its_data() {
    let bytes = fixtures::tiny_llama_safetensors();
    let (found, start) = safetensors::parse(&bytes, 0).unwrap();
    let written = fixtures::tiny_tensors_hf();
    assert_eq!((found.len(), written.len()), (20, 20));
    assert!(found.iter().all(|t| t.name != "lm_head.weight"));
    let mut spans: Vec<(u64, u64)> = found
        .iter()
        .map(|t| (t.data_offset, t.data_len.unwrap()))
        .collect();
    spans.sort();
    let mut at = 0;
    for (offset, len) in spans {
        assert_eq!(offset, at);
        at += len;
    }
    assert_eq!(start + at, bytes.len() as u64);
    for t in &written {
        let name = canonical_hf(&t.name).unwrap();
        let d = found.iter().find(|d| d.name == name).unwrap();
        let from = (start + d.data_offset) as usize;
        assert_eq!(bytes[from..from + d.data_len.unwrap() as usize], t.data);
    }
}

#[test]
fn vocabulary_covers_all_bytes() {
    let (tokens, merges) = fixtures::tiny_vocab();
    assert_eq!(tokens.len(), 260);
    assert_eq!(tokens[b'a' as usize], "a");
    assert_eq!(tokens[b' ' as usize], "Ġ");
    assert_eq!(tokens[0], "Ā");
    assert_eq!(tokens[256], "<|bos|>");
    assert_eq!(tokens[259], "the");
    assert_eq!(merges, vec!["t h".to_string(), "th e".to_string()]);
    let mut sorted = tokens.clone();
    sorted.sort();
    sorted.dedup();
    assert_eq!(sorted.len(), tokens.len());
}

#[test]
fn fixture_json_is_well_formed() {
    let config: serde_json::Value =
        serde_json::from_str(&fixtures::tiny_llama_config_json()).unwrap();
    assert_eq!(config["hidden_size"].as_u64(), Some(64));
    assert_eq!(config["rope_theta"].as_f64(), Some(10000.0));
    assert_eq!(config["rms_norm_eps"].as_f64(), Some(0.00001));
    assert_eq!(config["max_position_embeddings"].as_u64(), Some(128));
    let tok: serde_json::Value = serde_json::from_str(&fixtures::tiny_tokenizer_json()).unwrap();
    let vocab = tok["model"]["vocab"].as_object().unwrap();
    assert_eq!(vocab.len(), 260);
    assert_eq!(vocab["\""].as_u64(), Some(34));
    assert_eq!(vocab["\\"].as_u64(), Some(92));
    assert_eq!(vocab["the"].as_u64(), Some(259));
    assert_eq!(tok["model"]["merges"][1].as_str(), Some("th e"));
}

// --- tensor data ---------------------------------------------------------

#[test]
fn reads_full_tensor_span() {
    let (desc, file) = gguf_desc();
    let t = &desc.tensors[0];
    let bytes = read_tensor_bytes(&desc, t, &file).unwrap();
    assert_eq!(bytes.len() as u64, t.data_len.unwrap());
}

#[test]
fn rejects_out_of_range_offset() {
    let (desc, file) = gguf_desc();
    let mut t = desc.tensors[0].clone();
    t.data_offset = u64::MAX - 4;
    assert!(read_tensor_bytes(&desc, &t, &file).is_err());
    assert_eq!(
        read_tensor_bytes(&desc, &t, &file).unwrap_err().message(),
        "malformed tensor data: token_embed.weight: offset overflow"
    );
    t.data_offset = u64::MAX - desc.data_section_offsets[0];
    assert_eq!(
        read_tensor_bytes(&desc, &t, &file).unwrap_err().message(),
        "malformed tensor data: token_embed.weight: length overflow"
    );
    t.data_offset = 0;
    let start = desc.data_section_offsets[0];
    let end = start + t.data_len.unwrap();
    assert_eq!(
        read_tensor_bytes(&desc, &t, &file[..100])
            .unwrap_err()
            .message(),
        format!(
            "malformed tensor data: token_embed.weight: span {start}..{end} exceeds file length 100"
        )
    );
}

#[test]
fn rejects_bad_file_index() {
    let (desc, file) = gguf_desc();
    let mut t = desc.tensors[0].clone();
    t.file_index = 7;
    assert!(read_tensor_bytes(&desc, &t, &file).is_err());
    assert_eq!(
        read_tensor_bytes(&desc, &t, &file).unwrap_err().message(),
        "malformed tensor data: token_embed.weight: file index 7 out of range"
    );
}

#[test]
fn rejects_unknown_data_len() {
    let (desc, file) = gguf_desc();
    let mut t = desc.tensors[0].clone();
    t.data_len = None;
    assert!(read_tensor_bytes(&desc, &t, &file).is_err());
}

// --- loading -------------------------------------------------------------

#[test]
fn gguf_weight_file_and_offset_recorded() {
    let (desc, _) = gguf_desc();
    assert_eq!(desc.weight_files, vec!["tiny.gguf".to_string()]);
    assert_eq!(desc.data_section_offsets.len(), 1);
}

#[test]
fn unknown_format_is_clear_error() {
    let err = load_file("Cargo.toml", b"[package]\n").unwrap_err();
    assert!(matches!(err, FormatError::UnknownFormat(_)));
}

#[test]
fn a_file_too_short_for_a_magic_number_is_an_io_error() {
    for data in [&b""[..], b"GGU"] {
        let err = load_file("short", data).unwrap_err();
        assert_eq!(err, FormatError::Io("failed to fill whole buffer".into()));
        assert_eq!(err.message(), "i/o error: failed to fill whole buffer");
    }
    assert_eq!(
        load_file("other", b"GGUX").unwrap_err(),
        FormatError::UnknownFormat("other".into())
    );
}

#[test]
fn paths_are_classified() {
    assert_eq!(classify(true, "safetensors"), Source::Directory);
    assert_eq!(classify(false, "safetensors"), Source::BesideShard);
    assert_eq!(classify(false, "gguf"), Source::SingleFile);
    assert_eq!(classify(false, ""), Source::SingleFile);
}

// --- MLX directories -----------------------------------------------------

#[test]
fn loads_tiny_mlx_dir() {
    let (desc, _) = mlx_desc();
    assert_eq!(desc.architecture, Architecture::Llama);
    assert_eq!(
        desc.hyperparams,
        HyperParams {
            rope_style: RopeStyle::HalfSplit,
            ..fixtures::tiny_hyperparams()
        }
    );
    assert_eq!(desc.tensors.len(), fixtures::tensor_table().len());
    assert_eq!(desc.weight_files, vec!["mlx/model.safetensors".to_string()]);
    assert_eq!(desc.data_section_offsets.len(), 1);
}

#[test]
fn no_safetensors_is_clear_error() {
    let err = load_dir("some/dir", None, tiny_config(), vec![], None).unwrap_err();
    assert_eq!(
        err.message(),
        "malformed mlx model directory: no .safetensors files in some/dir"
    );
}

#[test]
fn minimal_config_applies_defaults() {
    let config = MlxConfig {
        model_type: "llama".into(),
        hidden_size: 8,
        num_hidden_layers: 2,
        num_attention_heads: 2,
        num_key_value_heads: None,
        intermediate_size: 16,
        vocab_size: 32,
        rope_theta: None,
        rms_norm_eps: None,
        max_position_embeddings: None,
    };
    let desc = load_dir("d", None, config, vec![shard("d/m.safetensors")], None).unwrap();
    assert_eq!(desc.hyperparams.n_kv_heads, desc.hyperparams.n_heads);
    assert_eq!(f32::from_bits(desc.hyperparams.rope_theta), 10000.0);
    assert_eq!(f32::from_bits(desc.hyperparams.norm_eps), 1e-5);
    assert_eq!(desc.hyperparams.context_length, 0);
}

#[test]
fn detects_tokenizer_json_and_halfsplit_rope() {
    let desc = load_dir(
        "d",
        None,
        tiny_config(),
        vec![shard("d/m.safetensors")],
        Some("d/tokenizer.json".into()),
    )
    .unwrap();
    assert_eq!(desc.hyperparams.rope_style, RopeStyle::HalfSplit);
    match desc.tokenizer {
        Some(TokenizerSpec::HfJson { path }) => assert_eq!(path, "d/tokenizer.json"),
        other => panic!("expected HfJson, got {other:?}"),
    }
}

#[test]
fn no_tokenizer_json_means_none() {
    assert!(mlx_desc().0.tokenizer.is_none());
}

#[test]
fn multi_shard_dir_orders_files_and_tracks_file_index() {
    let listing = vec![
        "model-00002-of-00002.safetensors".to_string(),
        "config.json".to_string(),
        ".safetensors".to_string(),
        "model-00001-of-00002.safetensors".to_string(),
        "notes.safetensors.txt".to_string(),
    ];
    let picked = pick_shards(&listing);
    assert_eq!(
        picked,
        vec![
            "model-00001-of-00002.safetensors".to_string(),
            "model-00002-of-00002.safetensors".to_string(),
        ]
    );
    let shards = picked.iter().map(|p| shard(p)).collect();
    let desc = load_dir("d", None, tiny_config(), shards, None).unwrap();
    assert_eq!(desc.weight_files, picked);
    assert_eq!(desc.data_section_offsets.len(), 2);
    assert!(desc.tensors.iter().filter(|t| t.file_index == 0).count() > 0);
    assert!(desc.tensors.iter().filter(|t| t.file_index == 1).count() > 0);
}

// --- safetensors ---------------------------------------------------------

fn wrap(json: &str) -> Vec<u8> {
    let mut b = (json.len() as u64).to_le_bytes().to_vec();
    b.extend_from_slice(json.as_bytes());
    b
}

#[test]
fn parses_two_tensors() {
    let json = r#"{
            "model.embed_tokens.weight": {"dtype":"F32","shape":[32,8],"data_offsets":[0,1024]},
            "model.norm.weight": {"dtype":"BF16","shape":[8],"data_offsets":[1024,1040]},
            "__metadata__": {"format":"mlx"}
        }"#;
    let (tensors, data_off) = safetensors::parse(&wrap(json), 0).unwrap();
    assert_eq!(data_off, 8 + json.len() as u64);
    assert_eq!(tensors.len(), 2);
    let e = tensors
        .iter()
        .find(|t| t.name == "token_embed.weight")
        .unwrap();
    assert_eq!(e.dtype, DType::F32);
    assert_eq!(e.shape, vec![32, 8]);
    assert_eq!(e.data_offset, 0);
    assert_eq!(e.data_len, Some(1024));
}

#[test]
fn unknown_dtype_is_unsupported_not_error() {
    let json = r#"{"w": {"dtype":"U32","shape":[4],"data_offsets":[0,16]}}"#;
    let (tensors, _) = safetensors::parse(&wrap(json), 0).unwrap();
    assert_eq!(tensors[0].dtype, DType::Unsupported("U32".into()));
    assert_eq!(tensors[0].data_len, Some(16));
}

#[test]
fn rejects_length_mismatch() {
    let json = r#"{"w": {"dtype":"F32","shape":[4],"data_offsets":[0,15]}}"#;
    assert!(safetensors::parse(&wrap(json), 0).is_err());
    assert_eq!(
        safetensors::parse(&wrap(json), 0).unwrap_err().message(),
        "malformed safetensors data_offsets: w: span 15 != dtype size 16"
    );
}

#[test]
fn rejects_reversed_offsets() {
    let json = r#"{"w": {"dtype":"F32","shape":[4],"data_offsets":[16,0]}}"#;
    assert!(safetensors::parse(&wrap(json), 0).is_err());
    assert_eq!(
        safetensors::parse(&wrap(json), 0).unwrap_err().message(),
        "malformed safetensors data_offsets: w: end 0 < start 16"
    );
}

#[test]
fn rejects_header_over_limit() {
    let mut b = (limits::MAX_ST_HEADER_BYTES + 1).to_le_bytes().to_vec();
    b.extend_from_slice(b"{}");
    assert!(matches!(
        safetensors::parse(&b, 0),
        Err(FormatError::LimitExceeded { .. })
    ));
    let mut b = 3u64.to_le_bytes().to_vec();
    b.extend_from_slice(b"{}");
    assert_eq!(
        safetensors::parse(&b, 0).unwrap_err().message(),
        "malformed safetensors header: truncated before header end"
    );
}

#[test]
fn rejects_garbage_json() {
    assert!(safetensors::parse(&wrap("not json"), 0).is_err());
    assert!(matches!(
        safetensors::parse(&wrap("[1]"), 0),
        Err(FormatError::Json(_))
    ));
}

#[test]
fn rejects_shape_overflow() {
    let json = r#"{"w": {"dtype":"F32","shape":[18446744073709551615,2],"data_offsets":[0,16]}}"#;
    assert!(matches!(
        safetensors::parse(&wrap(json), 0),
        Err(FormatError::Malformed { .. })
    ));
}

#[test]
fn entries_come_in_both_serde_forms() {
    let json = r#"{"b": ["F16",[3],[4,10]],
        "a": {"extra":[{}],"shape":[],"data_offsets":[0,4],"dtype":"F32"},
        "cA": {"dtype":"X","dtype":"F32","shape":[1],"data_offsets":[0,4]}}"#;
    let (t, _) = safetensors::parse(&wrap(json), 3).unwrap();
    assert_eq!(t.len(), 3);
    assert_eq!(t[0].name, "a");
    assert_eq!(t[0].shape, Vec::<u64>::new());
    assert_eq!(t[0].file_index, 3);
    assert_eq!(t[1].name, "b");
    assert_eq!(t[1].dtype, DType::F16);
    assert_eq!(t[1].data_offset, 4);
    assert_eq!(t[2].name, "cA");
    assert_eq!(t[2].dtype, DType::F32);
}

#[test]
fn entries_that_are_no_tensors_are_rejected() {
    for (json, why) in [
        (r#"{"w": 3}"#, "invalid type: integer `3`, expected struct StEntry"),
        (r#"{"w": null}"#, "invalid type: null, expected struct StEntry"),
        (r#"{"w": "a map"}"#, "invalid type: string \"a map\", expected struct StEntry"),
        (r#"{"w": {}}"#, "missing field `dtype`"),
        (r#"{"w": {"shape":[4],"data_offsets":[0,16]}}"#, "missing field `dtype`"),
        (r#"{"w": {"dtype":"F32","data_offsets":[0,16]}}"#, "missing field `shape`"),
        (r#"{"w": {"dtype":"F32","shape":[4]}}"#, "missing field `data_offsets`"),
        (
            r#"{"w": {"dtype":7,"shape":[4],"data_offsets":[0,16]}}"#,
            "invalid type: integer `7`, expected a string",
        ),
        (
            r#"{"w": {"dtype":7,"data_offsets":null}}"#,
            "invalid type: null, expected an array of length 2",
        ),
        (
            r#"{"w": {"dtype":"F32","shape":[-4],"data_offsets":[0,16]}}"#,
            "invalid value: integer `-4`, expected u64",
        ),
        (
            r#"{"w": {"dtype":"F32","shape":[4.0],"data_offsets":[0,16]}}"#,
            "invalid type: floating point `4.0`, expected u64",
        ),
        (
            r#"{"w": {"dtype":"F32","shape":[4],"data_offsets":[0,16,32]}}"#,
            "invalid length 3, expected fewer elements in array",
        ),
        (
            r#"{"w": {"dtype":"F32","shape":[4],"data_offsets":[0]}}"#,
            "invalid length 1, expected an array of length 2",
        ),
        (r#"{"w": []}"#, "invalid length 0, expected struct StEntry with 3 elements"),
        (
            r#"{"w": ["F32",[4]]}"#,
            "invalid length 2, expected struct StEntry with 3 elements",
        ),
        (
            r#"{"w": ["F32",[4],[0,16],0]}"#,
            "invalid length 4, expected fewer elements in array",
        ),
    ] {
        assert_eq!(
            safetensors::parse(&wrap(json), 0),
            Err(FormatError::Json(why.into())),
            "{json}"
        );
    }
    assert_eq!(
        safetensors::parse(&wrap("[1]"), 0).unwrap_err().message(),
        "invalid json: invalid type: sequence, expected a map at line 1 column 0"
    );
}

#[test]
fn tensors_come_in_the_order_of_the_names() {
    let json = r#"{"z": ["F16",[0],[0,0]], "B": ["F16",[0],[0,0]], "é": ["F16",[0],[0,0]],
        "a": ["F16",[0],[0,0]], "ab": ["F16",[0],[0,0]]}"#;
    let (t, _) = safetensors::parse(&wrap(json), 0).unwrap();
    let names: Vec<&str> = t.iter().map(|t| t.name.as_str()).collect();
    assert_eq!(names, ["B", "a", "ab", "z", "é"]);
}

// --- codecs --------------------------------------------------------------

#[test]
fn f16_known_vectors() {
    let f = |h| f32::from_bits(quant::f16_to_f32(h));
    let g = |x: f32| quant::f32_to_f16(x.to_bits());
    assert_eq!(f(0x3C00), 1.0);
    assert_eq!(f(0xC000), -2.0);
    assert_eq!(f(0x7BFF), 65504.0);
    assert_eq!(f(0x0001), 5.960_464_5e-8);
    assert_eq!(g(1.0), 0x3C00);
    assert_eq!(g(-2.0), 0xC000);
    assert_eq!(g(65504.0), 0x7BFF);
    assert_eq!(g(1e6), 0x7C00);
    assert!(f(g(f32::NAN)).is_nan());
}

#[test]
fn half_precision_survives_the_trip() {
    for h in 0..=u16::MAX {
        let x = quant::f16_to_f32(h);
        if h & 0x7FFF > 0x7C00 {
            assert!(f32::from_bits(x).is_nan());
            assert!(f32::from_bits(quant::f16_to_f32(quant::f32_to_f16(x))).is_nan());
        } else {
            assert_eq!(quant::f32_to_f16(x), h);
        }
    }
    // Halfway cases go to even, and what rounds past the largest is infinite.
    assert_eq!(quant::f32_to_f16(65519.99f32.to_bits()), 0x7BFF);
    assert_eq!(quant::f32_to_f16(65520.0f32.to_bits()), 0x7C00);
    assert_eq!(quant::f32_to_f16(2.9802322e-8f32.to_bits()), 0);
    assert_eq!(quant::f32_to_f16(2.9802326e-8f32.to_bits()), 1);
    assert_eq!(quant::f32_to_f16((1.0f32 + 1.0 / 2048.0).to_bits()), 0x3C00);
    assert_eq!(quant::f32_to_f16((1.0f32 + 3.0 / 2048.0).to_bits()), 0x3C02);
}

#[test]
fn bf16_known_vectors() {
    let f = |h| f32::from_bits(quant::bf16_to_f32(h));
    let g = |x: f32| quant::f32_to_bf16(x.to_bits());
    assert_eq!(f(0x3F80), 1.0);
    assert_eq!(f(0xC040), -3.0);
    assert_eq!(g(1.0), 0x3F80);
    assert_eq!(quant::f32_to_bf16(0x3F80_8000), 0x3F80);
    assert!(f(g(f32::NAN)).is_nan());
}

#[test]
fn bfloat_survives_the_trip() {
    for b in 0..=u16::MAX {
        let x = quant::bf16_to_f32(b);
        if b & 0x7FFF <= 0x7F80 {
            assert_eq!(quant::f32_to_bf16(x), b);
        } else {
            assert!(f32::from_bits(quant::bf16_to_f32(quant::f32_to_bf16(x))).is_nan());
        }
    }
    assert_eq!(quant::f32_to_bf16(f32::MAX.to_bits()), 0x7F80);
    assert_eq!(quant::f32_to_bf16(0x3F81_8000), 0x3F82);
}

#[test]
fn q8_0_roundtrip_exactish() {
    let vals: Vec<f32> = (0..32).map(|i| (i as f32 - 15.5) / 15.5).collect();
    let packed = quant::pack(&DType::Q8_0, &bits(&vals)).unwrap();
    assert_eq!(packed.len(), 34);
    let out = floats(&quant::dequant(&DType::Q8_0, &packed, 32).unwrap());
    for (a, b) in vals.iter().zip(&out) {
        assert!((a - b).abs() <= 1.0 / 254.0 + 1e-6, "{a} vs {b}");
    }
}

#[test]
fn q4_k_roundtrip_block() {
    let vals: Vec<f32> = (0..256)
        .map(|i| ((i * 37 % 256) as f32 / 128.0) - 1.0)
        .collect();
    let packed = quant::pack(&DType::Q4_K, &bits(&vals)).unwrap();
    assert_eq!(packed.len(), 144);
    let out = floats(&quant::dequant(&DType::Q4_K, &packed, 256).unwrap());
    let amax = vals.iter().fold(0f32, |m, v| m.max(v.abs()));
    for (a, b) in vals.iter().zip(&out) {
        assert!((a - b).abs() <= 0.11 * amax, "{a} vs {b}");
    }
}

#[test]
fn dequant_rejects_bad_lengths() {
    assert!(quant::dequant(&DType::F32, &[0u8; 7], 2).is_err());
    assert!(quant::dequant(&DType::Q8_0, &[0u8; 34], 31).is_err());
    assert!(quant::pack(&DType::Q4_K, &[0u32; 100]).is_err());
    assert!(quant::dequant(&DType::Unsupported("x".into()), &[], 0).is_err());
    assert_eq!(
        quant::dequant(&DType::F32, &[0u8; 7], 2)
            .unwrap_err()
            .message(),
        "malformed quant data: F32: got 7 bytes, expected 8 for 2 elements"
    );
    assert_eq!(
        quant::dequant(&DType::Unsupported("a\"b".into()), &[], 0)
            .unwrap_err()
            .message(),
        "malformed quant data: Unsupported(\"a\\\"b\"): 0 elements not representable"
    );
    assert_eq!(
        quant::pack(&DType::Q4_K, &[0u32; 100])
            .unwrap_err()
            .message(),
        "malformed quant data: Q4_K: 100 elements not packable"
    );
}

/// The block quantizers, as floating-point arithmetic has them.
fn reference_q8(block: &[f32]) -> Vec<u8> {
    let amax = block.iter().fold(0f32, |m, v| m.max(v.abs()));
    let dh = quant::f32_to_f16((amax / 127.0).to_bits());
    let mut out = dh.to_le_bytes().to_vec();
    let d = f32::from_bits(quant::f16_to_f32(dh));
    let inv = if d > 0.0 { 1.0 / d } else { 0.0 };
    for v in block {
        out.push((v * inv).round().clamp(-127.0, 127.0) as i8 as u8);
    }
    out
}

fn reference_q4k(sb: &[f32]) -> Vec<u8> {
    let mut effs = [0f32; 8];
    let mut mins = [0f32; 8];
    for (j, blk) in sb.chunks_exact(32).enumerate() {
        let mn = blk.iter().fold(f32::INFINITY, |m, v| m.min(*v));
        let mx = blk.iter().fold(f32::NEG_INFINITY, |m, v| m.max(*v));
        mins[j] = (-mn).max(0.0);
        effs[j] = (mx + mins[j]).max(0.0) / 15.0;
    }
    let dh = quant::f32_to_f16((effs.iter().fold(0f32, |m, v| m.max(*v)) / 63.0).to_bits());
    let mh = quant::f32_to_f16((mins.iter().fold(0f32, |m, v| m.max(*v)) / 63.0).to_bits());
    let mut out = dh.to_le_bytes().to_vec();
    out.extend_from_slice(&mh.to_le_bytes());
    let dsup = f32::from_bits(quant::f16_to_f32(dh));
    let msup = f32::from_bits(quant::f16_to_f32(mh));
    let q6 = |x: f32, s: f32| {
        if s > 0.0 {
            (x / s).round().clamp(0.0, 63.0) as u8
        } else {
            0
        }
    };
    let lsc: Vec<u8> = effs.iter().map(|&e| q6(e, dsup)).collect();
    let lm: Vec<u8> = mins.iter().map(|&m| q6(m, msup)).collect();
    let mut scales = [0u8; 12];
    scales[..4].copy_from_slice(&lsc[..4]);
    scales[4..8].copy_from_slice(&lm[..4]);
    for j in 4..8 {
        scales[j + 4] = (lsc[j] & 0xF) | ((lm[j] & 0xF) << 4);
        scales[j - 4] |= (lsc[j] >> 4) << 6;
        scales[j] |= (lm[j] >> 4) << 6;
    }
    out.extend_from_slice(&scales);
    let quant = |j: usize, x: f32| {
        let sc = dsup * f32::from(lsc[j]);
        let m = msup * f32::from(lm[j]);
        if sc > 0.0 {
            ((x + m) / sc).round().clamp(0.0, 15.0) as u8
        } else {
            0
        }
    };
    for pair in 0..4 {
        for l in 0..32 {
            let lo = quant(pair * 2, sb[pair * 64 + l]);
            let hi = quant(pair * 2 + 1, sb[pair * 64 + 32 + l]);
            out.push(lo | (hi << 4));
        }
    }
    out
}

#[test]
fn quantizers_match_floating_point() {
    for seed in [1u64, 7, 99] {
        let v = reference_stream(seed, 512);
        let b = bits(&v);
        let q8: Vec<u8> = v.chunks_exact(32).flat_map(reference_q8).collect();
        assert_eq!(quant::pack(&DType::Q8_0, &b).unwrap(), q8);
        let q4: Vec<u8> = v.chunks_exact(256).flat_map(reference_q4k).collect();
        assert_eq!(quant::pack(&DType::Q4_K, &b).unwrap(), q4);
    }
}

#[test]
fn dequantizers_match_floating_point() {
    let v = reference_stream(5, 512);
    let q8 = quant::pack(&DType::Q8_0, &bits(&v)).unwrap();
    let got = floats(&quant::dequant(&DType::Q8_0, &q8, 512).unwrap());
    for (i, x) in got.iter().enumerate() {
        let block = &q8[i / 32 * 34..];
        let d = f32::from_bits(quant::f16_to_f32(u16::from_le_bytes([block[0], block[1]])));
        assert_eq!(*x, d * f32::from(block[2 + i % 32] as i8));
    }
    let q4 = quant::pack(&DType::Q4_K, &bits(&v)).unwrap();
    let got = floats(&quant::dequant(&DType::Q4_K, &q4, 512).unwrap());
    for (i, x) in got.iter().enumerate() {
        let block = &q4[i / 256 * 144..i / 256 * 144 + 144];
        let d = f32::from_bits(quant::f16_to_f32(u16::from_le_bytes([block[0], block[1]])));
        let dmin = f32::from_bits(quant::f16_to_f32(u16::from_le_bytes([block[2], block[3]])));
        let j = i % 256 / 32;
        let (sc, m) = quant::get_scale_min_k4(j, &block[4..16]);
        let byte = block[16 + j / 2 * 32 + i % 32];
        let q = if j % 2 == 0 { byte & 15 } else { byte >> 4 };
        assert_eq!(*x, d * f32::from(sc) * f32::from(q) - dmin * f32::from(m));
    }
}

#[test]
fn scales_unpack_from_twelve_bytes() {
    // Scales 60..=63, 1..=4 and minimums 5..=8, 50..=53.
    let sc = [60u8, 61, 62, 63, 1, 2, 33, 4];
    let mn = [5u8, 6, 7, 8, 50, 51, 52, 53];
    let mut s = [0u8; 12];
    for j in 0..4 {
        s[j] = sc[j] | (sc[j + 4] >> 4) << 6;
        s[j + 4] = mn[j] | (mn[j + 4] >> 4) << 6;
        s[j + 8] = (sc[j + 4] & 15) | (mn[j + 4] & 15) << 4;
    }
    for j in 0..8 {
        assert_eq!(quant::get_scale_min_k4(j, &s), (sc[j], mn[j]));
    }
}

#[test]
fn plain_types_round_trip() {
    let v = bits(&[1.0, -0.0, 3.5, f32::INFINITY, 1e-45]);
    let p = quant::pack(&DType::F32, &v).unwrap();
    assert_eq!(quant::dequant(&DType::F32, &p, 5).unwrap(), v);
    let h = bits(&[1.0, -2.0, 0.1]);
    let p = quant::pack(&DType::F16, &h).unwrap();
    let got = quant::dequant(&DType::F16, &p, 3).unwrap();
    assert_eq!(got[..2], h[..2]);
    assert_eq!(f32::from_bits(got[2]), 0.099975586);
    let p = quant::pack(&DType::BF16, &h).unwrap();
    let got = quant::dequant(&DType::BF16, &p, 3).unwrap();
    assert_eq!(f32::from_bits(got[2]), 0.100097656);
}

// --- what holds of whole files -------------------------------------------

#[test]
fn only_the_header_counts() {
    let bytes = fixtures::tiny_llama_gguf();
    let desc = gguf::parse(&bytes).unwrap();
    let data = desc.data_section_offsets[0] as usize;
    // The header ends within the 32 bytes before the data section.
    let end = (data - 31..=data)
        .find(|k| gguf::parse(&bytes[..*k]).is_ok())
        .unwrap();
    let mut other = bytes[..end].to_vec();
    other.extend_from_slice(b"anything else");
    assert_eq!(gguf::parse(&other).unwrap(), desc);
    assert_eq!(gguf::parse(&bytes[..end]).unwrap(), desc);
    for k in 0..end {
        assert!(gguf::parse(&bytes[..k]).is_err(), "{k}");
    }
}

#[test]
fn written_entries_read_back() {
    let texts = vec!["a".to_string(), "é".to_string(), String::new()];
    let ints = vec![1, -2, i32::MIN];
    let cases: Vec<(Box<dyn Fn(&mut Vec<u8>)>, GgufValue)> = vec![
        (Box::new(|b| image::put_kv_u32(b, "k", 7)), GgufValue::U32(7)),
        (Box::new(|b| image::put_kv_f32(b, "k", 1)), GgufValue::F32(1)),
        (
            Box::new(|b| image::put_kv_str(b, "k", "text")),
            GgufValue::String("text".into()),
        ),
        (
            Box::new({
                let texts = texts.clone();
                move |b| image::put_kv_str_array(b, "k", &texts)
            }),
            GgufValue::Array(texts.iter().map(|t| GgufValue::String(t.clone())).collect()),
        ),
        (
            Box::new({
                let ints = ints.clone();
                move |b| image::put_kv_i32_array(b, "k", &ints)
            }),
            GgufValue::Array(ints.iter().map(|i| GgufValue::I32(*i)).collect()),
        ),
        (Box::new(|b| image::put_kv_bool(b, "k", true)), GgufValue::Bool(true)),
    ];
    for (put, want) in cases {
        let mut b = Vec::new();
        put(&mut b);
        let end = b.len();
        b.extend_from_slice(b"tail");
        let mut r = ByteReader::new(&b);
        assert_eq!(read_string(&mut r).unwrap(), "k");
        let t = read_u32(&mut r).unwrap();
        assert_eq!(GgufValue::parse(&mut r, t, 0).unwrap(), want);
        assert_eq!(r.pos, end);
    }
}

#[test]
fn canonical_names_tell_roles_layers_and_params_apart() {
    let mut seen = std::collections::BTreeSet::new();
    let mut count = 0;
    for param in ["weight", "bias"] {
        for stem in ["token_embd", "output_norm", "output"] {
            count += 1;
            assert!(seen.insert(canonical_gguf(&format!("{stem}.{param}")).unwrap()));
        }
        for i in [0, 1, 10, 11] {
            for part in [
                "attn_norm",
                "attn_q_norm",
                "attn_k_norm",
                "attn_q",
                "attn_k",
                "attn_v",
                "attn_output",
                "ffn_norm",
                "ffn_gate",
                "ffn_up",
                "ffn_down",
            ] {
                count += 1;
                let name = format!("blk.{i}.{part}.{param}");
                assert!(seen.insert(canonical_gguf(&name).unwrap()), "{name}");
            }
        }
    }
    assert_eq!(seen.len(), count);
}

#[test]
fn images_hold_their_tensors_apart() {
    for bytes in [fixtures::tiny_llama_gguf(), fixtures::tiny_bias_llama_gguf()] {
        assert_eq!(bytes.len() % 32, 0);
        let desc = gguf::parse(&bytes).unwrap();
        let base = desc.data_section_offsets[0];
        assert_eq!(base % 32, 0);
        let mut end = 0;
        for t in &desc.tensors {
            assert_eq!(t.data_offset % 32, 0);
            assert!(t.data_offset >= end, "{}", t.name);
            end = t.data_offset + t.data_len.unwrap();
        }
        assert!(base + end <= bytes.len() as u64);
    }
}

#[test]
fn the_file_with_biases_is_the_plain_one_and_six_more() {
    let plain = gguf::parse(&fixtures::tiny_llama_gguf()).unwrap();
    let biased = gguf::parse(&fixtures::tiny_bias_llama_gguf()).unwrap();
    assert_eq!(plain.hyperparams, biased.hyperparams);
    assert_eq!(plain.hyperparams, fixtures::tiny_hyperparams());
    assert_eq!(plain.tensors.len(), 20);
    assert_eq!(biased.tensors.len(), 26);
    assert_eq!(biased.tensors[..20], plain.tensors[..]);
    for (k, t) in biased.tensors[20..].iter().enumerate() {
        let part = ["q", "k", "v"][k % 3];
        let raw = format!("blk.{}.attn_{part}.bias", k / 3);
        assert_eq!(t.name, canonical_gguf(&raw).unwrap());
        assert_eq!(t.dtype, DType::F32);
        assert_eq!(t.shape, [if k % 3 == 0 { 64 } else { 32 }]);
    }
}

#[test]
fn narrowing_goes_to_the_nearest_half() {
    let f = |x: f32| quant::f32_to_f16(x.to_bits());
    assert_eq!(f(65504.0), 0x7BFF);
    assert_eq!(f(65519.996), 0x7BFF);
    assert_eq!(f(65520.0), 0x7C00);
    assert_eq!(f(-65520.0), 0xFC00);
    // Half way between two, the even one; next to it, the nearer.
    assert_eq!(f(1.0 + 1.0 / 2048.0), 0x3C00);
    assert_eq!(f(1.0 + 3.0 / 2048.0), 0x3C02);
    assert_eq!(f(1.0 + 1.001 / 2048.0), 0x3C01);
    let b = |x: f32| quant::f32_to_bf16(x.to_bits());
    assert_eq!(b(1.0 + 1.0 / 256.0), 0x3F80);
    assert_eq!(b(1.0 + 3.0 / 256.0), 0x3F82);
    assert_eq!(b(f32::MAX), 0x7F80);
}
