//! MLX model directories: an HF-style `config.json` and one or more safetensors
//! files.

use vstd::prelude::*;
use vstd::string::StringExecFns;

use crate::formats::desc::{
    architecture_of, tensors_view, text_view, texts_view, Architecture, HyperParams, ModelDesc,
    ModelV, RopeStyle, TensorDesc, TensorV, TokenizerSpec, TokenizerV,
};
use crate::formats::error::{Fault, FormatError};
use crate::formats::gguf::{model_outcome, DEFAULT_NORM_EPS, DEFAULT_ROPE_THETA};
use crate::formats::safetensors;
use crate::text::{chars_of, ends_with};

verus! {

/// The fields of `config.json`. Numbers that may be absent are optional; the
/// floating-point ones are held as bits.
#[derive(Debug, PartialEq, Eq)]
pub struct MlxConfig {
    pub model_type: String,
    pub hidden_size: u64,
    pub num_hidden_layers: u64,
    pub num_attention_heads: u64,
    pub num_key_value_heads: Option<u64>,
    pub intermediate_size: u64,
    pub vocab_size: u64,
    pub rope_theta: Option<u32>,
    pub rms_norm_eps: Option<u32>,
    pub max_position_embeddings: Option<u64>,
}

/// A safetensors file: its path, and its contents from the start to at least the
/// end of its header.
pub struct Shard {
    pub path: String,
    pub bytes: Vec<u8>,
}

/// An optional value, or what stands for its absence.
pub open spec fn or_default<T>(o: Option<T>, d: T) -> T {
    match o {
        Some(v) => v,
        None => d,
    }
}

/// The hyperparameters that a configuration gives, with the defaults filled in.
pub open spec fn config_hyperparams(c: MlxConfig) -> HyperParams {
    HyperParams {
        vocab_size: c.vocab_size,
        hidden_size: c.hidden_size,
        n_layers: c.num_hidden_layers,
        n_heads: c.num_attention_heads,
        n_kv_heads: or_default(c.num_key_value_heads, c.num_attention_heads),
        ffn_hidden_size: c.intermediate_size,
        rope_theta: or_default(c.rope_theta, DEFAULT_ROPE_THETA),
        norm_eps: or_default(c.rms_norm_eps, DEFAULT_NORM_EPS),
        context_length: or_default(c.max_position_embeddings, 0),
        rope_style: RopeStyle::HalfSplit,
    }
}

/// The hyperparameters that a configuration gives, with the defaults filled in.
pub fn hyperparams(c: &MlxConfig) -> (h: HyperParams)
    ensures
        h == config_hyperparams(*c),
{
    HyperParams {
        vocab_size: c.vocab_size,
        hidden_size: c.hidden_size,
        n_layers: c.num_hidden_layers,
        n_heads: c.num_attention_heads,
        n_kv_heads: match c.num_key_value_heads {
            Some(n) => n,
            None => c.num_attention_heads,
        },
        ffn_hidden_size: c.intermediate_size,
        rope_theta: match c.rope_theta {
            Some(x) => x,
            None => DEFAULT_ROPE_THETA,
        },
        norm_eps: match c.rms_norm_eps {
            Some(x) => x,
            None => DEFAULT_NORM_EPS,
        },
        context_length: match c.max_position_embeddings {
            Some(n) => n,
            None => 0,
        },
        rope_style: RopeStyle::HalfSplit,
    }
}

/// Whether a file name has the extension `safetensors`.
pub open spec fn is_shard_name(name: Seq<char>) -> bool {
    ".safetensors"@.is_suffix_of(name) && name.len() > ".safetensors"@.len()
}

/// Whether a file name has the extension `safetensors`.
pub fn has_shard_name(name: &str) -> (r: bool)
    ensures
        r == is_shard_name(name@),
{
    ends_with(name, ".safetensors") && name.unicode_len() > ".safetensors".unicode_len()
}

/// Whether `a` stands before `b`, or is `b`, in the order of texts.
pub open spec fn text_le(a: Seq<char>, b: Seq<char>) -> bool
    decreases a.len(),
{
    if a.len() == 0 {
        true
    } else if b.len() == 0 {
        false
    } else if a[0] != b[0] {
        a[0] < b[0]
    } else {
        text_le(a.skip(1), b.skip(1))
    }
}

/// Whether `a` stands before `b`, or is `b`, in the order of texts.
pub fn text_le_exec(a: &str, b: &str) -> (r: bool)
    ensures
        r == text_le(a@, b@),
{
    let x = chars_of(a);
    let y = chars_of(b);
    let mut i: usize = 0;
    proof {
        assert(a@.skip(0) =~= a@);
        assert(b@.skip(0) =~= b@);
    }
    while i < x.len() && i < y.len()
        invariant
            x@ == a@,
            y@ == b@,
            i <= x@.len(),
            i <= y@.len(),
            text_le(a@, b@) == text_le(a@.skip(i as int), b@.skip(i as int)),
        decreases x.len() - i,
    {
        proof {
            assert(a@.skip(i as int).skip(1) =~= a@.skip(i + 1));
            assert(b@.skip(i as int).skip(1) =~= b@.skip(i + 1));
        }
        let c: char = x[i];
        let d: char = y[i];
        if c != d {
            return c < d;
        }
        i += 1;
    }
    i >= x.len()
}

/// The order of texts is total.
pub proof fn lemma_text_le_total(a: Seq<char>, b: Seq<char>)
    ensures
        text_le(a, b) || text_le(b, a),
    decreases a.len(),
{
    if a.len() > 0 && b.len() > 0 && a[0] == b[0] {
        lemma_text_le_total(a.skip(1), b.skip(1));
    }
}

/// The order of texts is transitive.
pub proof fn lemma_text_le_trans(a: Seq<char>, b: Seq<char>, c: Seq<char>)
    requires
        text_le(a, b),
        text_le(b, c),
    ensures
        text_le(a, c),
    decreases a.len(),
{
    if a.len() > 0 && b.len() > 0 && c.len() > 0 && a[0] == b[0] && b[0] == c[0] {
        lemma_text_le_trans(a.skip(1), b.skip(1), c.skip(1));
    }
}

/// Whether texts stand in order.
pub open spec fn sorted(s: Seq<Seq<char>>) -> bool {
    forall|i: int, j: int| 0 <= i < j < s.len() ==> text_le(#[trigger] s[i], #[trigger] s[j])
}

/// Puts a text into a list that is in order.
fn insert_sorted(r: &mut Vec<String>, name: String)
    requires
        sorted(texts_view(old(r)@)),
    ensures
        sorted(texts_view(final(r)@)),
        texts_view(final(r)@).to_multiset() == texts_view(old(r)@).to_multiset().insert(name@),
{
    let ghost all = texts_view(r@);
    let mut k: usize = 0;
    while k < r.len() && text_le_exec(r[k].as_str(), name.as_str())
        invariant
            k <= r@.len(),
            all == texts_view(r@),
            r@ == old(r)@,
            forall|i: int| 0 <= i < k ==> text_le(#[trigger] all[i], name@),
        decreases r.len() - k,
    {
        proof {
            assert(all[k as int] == r@[k as int]@);
        }
        k += 1;
    }
    proof {
        let new = all.insert(k as int, name@);
        assert forall|i: int, j: int| 0 <= i < j < new.len() implies text_le(
            #[trigger] new[i],
            #[trigger] new[j],
        ) by {
            if k < all.len() {
                assert(all[k as int] == r@[k as int]@);
                lemma_text_le_total(all[k as int], name@);
            }
            if j < k {
                assert(text_le(all[i], all[j]));
            } else if j == k {
                assert(text_le(all[i], name@));
            } else {
                assert(new[j] == all[j - 1]);
                if i < k {
                    assert(text_le(all[i], all[j - 1]));
                } else if i == k {
                    if k < j - 1 {
                        assert(text_le(all[k as int], all[j - 1]));
                        lemma_text_le_trans(name@, all[k as int], all[j - 1]);
                    }
                } else {
                    assert(new[i] == all[i - 1]);
                    assert(text_le(all[i - 1], all[j - 1]));
                }
            }
        }
        vstd::seq_lib::to_multiset_insert(all, k as int, name@);
    }
    r.insert(k, name);
    proof {
        assert(texts_view(r@) =~= all.insert(k as int, name@));
    }
}

/// The file names of a directory listing that are shards, in order.
pub fn pick_shards(names: &Vec<String>) -> (r: Vec<String>)
    ensures
        sorted(texts_view(r@)),
        texts_view(r@).to_multiset() == texts_view(names@).filter(
            |n: Seq<char>| is_shard_name(n),
        ).to_multiset(),
{
    let ghost all = texts_view(names@);
    let ghost keep = |n: Seq<char>| is_shard_name(n);
    let mut r: Vec<String> = Vec::new();
    let mut i: usize = 0;
    proof {
        reveal(Seq::filter);
        assert(texts_view(r@) =~= Seq::<Seq<char>>::empty());
        assert(all.take(0) =~= Seq::<Seq<char>>::empty());
        assert(all.take(0).filter(keep) =~= Seq::<Seq<char>>::empty());
    }
    while i < names.len()
        invariant
            i <= names@.len(),
            all == texts_view(names@),
            keep == (|n: Seq<char>| is_shard_name(n)),
            sorted(texts_view(r@)),
            texts_view(r@).to_multiset() == all.take(i as int).filter(keep).to_multiset(),
        decreases names.len() - i,
    {
        let ghost before = texts_view(r@);
        proof {
            reveal(Seq::filter);
            assert(all.take(i + 1).drop_last() =~= all.take(i as int));
            assert(all.take(i + 1).last() == names@[i as int]@);
        }
        if has_shard_name(names[i].as_str()) {
            let name = names[i].clone();
            insert_sorted(&mut r, name);
            proof {
                let f = all.take(i as int).filter(keep);
                assert(all.take(i + 1).filter(keep) =~= f.push(names@[i as int]@));
                vstd::seq_lib::to_multiset_build(f, names@[i as int]@);
            }
        }
        i += 1;
    }
    proof {
        assert(all.take(i as int) =~= all);
    }
    r
}

/// The tensors of the first `k` shards and where the data of each begins.
pub open spec fn shard_tensors(shards: Seq<Shard>, k: nat) -> Result<
    (Seq<TensorV>, Seq<u64>),
    Fault,
>
    decreases k,
{
    if k == 0 {
        Ok((Seq::empty(), Seq::empty()))
    } else {
        match shard_tensors(shards, (k - 1) as nat) {
            Err(e) => Err(e),
            Ok((ts, offs)) => match safetensors::parsed(shards[k - 1].bytes@, (k - 1) as u32) {
                Err(e) => Err(e),
                Ok((more, at)) => Ok((ts + more, offs.push(at))),
            },
        }
    }
}

/// A fault among the first `k` shards is the fault of the whole.
proof fn lemma_shards_fault(shards: Seq<Shard>, k: nat, n: nat)
    requires
        k <= n,
        shard_tensors(shards, k) is Err,
    ensures
        shard_tensors(shards, n) == shard_tensors(shards, k),
    decreases n - k,
{
    if k < n {
        lemma_shards_fault(shards, k, (n - 1) as nat);
    }
}

/// The paths of shards.
pub open spec fn shard_paths(shards: Seq<Shard>) -> Seq<Seq<char>> {
    shards.map_values(|s: Shard| s.path@)
}

/// The model that a directory describes: its configuration, its shards in order,
/// its name and where its tokenizer stands.
pub open spec fn dir_model(
    dir: Seq<char>,
    name: Option<Seq<char>>,
    config: MlxConfig,
    shards: Seq<Shard>,
    tokenizer: Option<Seq<char>>,
) -> Result<ModelV, Fault> {
    if shards.len() == 0 {
        Err(
            Fault::Malformed {
                context: "mlx model directory"@,
                detail: "no .safetensors files in "@ + dir,
            },
        )
    } else {
        match shard_tensors(shards, shards.len()) {
            Err(e) => Err(e),
            Ok((tensors, offsets)) => Ok(
                ModelV {
                    architecture: architecture_of(config.model_type@),
                    name,
                    hyperparams: config_hyperparams(config),
                    tensors,
                    weight_files: shard_paths(shards),
                    data_section_offsets: offsets,
                    tokenizer: match tokenizer {
                        Some(path) => Some(TokenizerV::HfJson(path)),
                        None => None,
                    },
                },
            ),
        }
    }
}

/// The model that a directory describes: its configuration, its shards in order,
/// its name and the path of its tokenizer.
pub fn load_dir(
    dir: &str,
    name: Option<String>,
    config: MlxConfig,
    shards: Vec<Shard>,
    tokenizer: Option<String>,
) -> (r: Result<ModelDesc, FormatError>)
    requires
        shards@.len() <= u32::MAX,
    ensures
        model_outcome(r) == dir_model(
            dir@,
            text_view(name),
            config,
            shards@,
            text_view(tokenizer),
        ),
{
    if shards.len() == 0 {
        let mut detail = "no .safetensors files in ".to_owned();
        detail.append(dir);
        return Err(FormatError::Malformed { context: "mlx model directory", detail });
    }
    let mut tensors: Vec<TensorDesc> = Vec::new();
    let mut offsets: Vec<u64> = Vec::new();
    let mut paths: Vec<String> = Vec::new();
    let mut i: usize = 0;
    proof {
        assert(tensors_view(tensors@) =~= Seq::<TensorV>::empty());
        assert(texts_view(paths@) =~= shard_paths(shards@).take(0));
    }
    while i < shards.len()
        invariant
            i <= shards@.len() <= u32::MAX,
            shard_tensors(shards@, i as nat) == Ok::<(Seq<TensorV>, Seq<u64>), Fault>(
                (tensors_view(tensors@), offsets@),
            ),
            texts_view(paths@) == shard_paths(shards@).take(i as int),
        decreases shards.len() - i,
    {
        let ghost before = tensors_view(tensors@);
        match safetensors::parse(shards[i].bytes.as_slice(), i as u32) {
            Ok((more, at)) => {
                let mut more = more;
                let ghost added = tensors_view(more@);
                tensors.append(&mut more);
                offsets.push(at);
                proof {
                    assert(tensors_view(tensors@) =~= before + added);
                }
            },
            Err(e) => {
                proof {
                    lemma_shards_fault(shards@, i as nat + 1, shards@.len());
                }
                return Err(e);
            },
        }
        let ghost listed = texts_view(paths@);
        let path = shards[i].path.clone();
        paths.push(path);
        proof {
            assert(texts_view(paths@) =~= listed.push(path@));
            assert(shard_paths(shards@).take(i + 1) =~= listed.push(shards@[i as int].path@));
        }
        i += 1;
    }
    proof {
        assert(shard_paths(shards@).take(i as int) =~= shard_paths(shards@));
    }
    let architecture = Architecture::from_id(config.model_type.as_str());
    let hp = hyperparams(&config);
    let spec = match tokenizer {
        Some(path) => Some(TokenizerSpec::HfJson { path }),
        None => None,
    };
    Ok(
        ModelDesc {
            architecture,
            name,
            hyperparams: hp,
            tensors,
            weight_files: paths,
            data_section_offsets: offsets,
            tokenizer: spec,
        },
    )
}

} // verus!
