//! The format-agnostic model description.

use vstd::prelude::*;
use vstd::string::StringExecFns;

use crate::text::text_eq;

verus! {

/// Tensor element type. Quantized formats are first-class element types.
#[derive(Debug, PartialEq, Eq)]
#[allow(non_camel_case_types)]
pub enum DType {
    F32,
    F16,
    BF16,
    Q8_0,
    Q4_K,
    /// Parsed but not supported (e.g. "ggml:26", "U32").
    Unsupported(String),
}

/// The model of a [`DType`].
#[verifier::ext_equal]
#[allow(non_camel_case_types)]
pub enum DTypeV {
    F32,
    F16,
    BF16,
    Q8_0,
    Q4_K,
    Unsupported(Seq<char>),
}

impl View for DType {
    type V = DTypeV;

    open spec fn view(&self) -> DTypeV {
        match self {
            DType::F32 => DTypeV::F32,
            DType::F16 => DTypeV::F16,
            DType::BF16 => DTypeV::BF16,
            DType::Q8_0 => DTypeV::Q8_0,
            DType::Q4_K => DTypeV::Q4_K,
            DType::Unsupported(s) => DTypeV::Unsupported(s@),
        }
    }
}

impl Clone for DType {
    fn clone(&self) -> (r: Self)
        ensures
            r@ == self@,
    {
        match self {
            DType::F32 => DType::F32,
            DType::F16 => DType::F16,
            DType::BF16 => DType::BF16,
            DType::Q8_0 => DType::Q8_0,
            DType::Q4_K => DType::Q4_K,
            DType::Unsupported(s) => DType::Unsupported(s.clone()),
        }
    }
}

/// Bytes and elements of one block, where the layout is known.
pub open spec fn block_layout(d: DTypeV) -> Option<(nat, nat)> {
    match d {
        DTypeV::F32 => Some((4, 1)),
        DTypeV::F16 => Some((2, 1)),
        DTypeV::BF16 => Some((2, 1)),
        DTypeV::Q8_0 => Some((34, 32)),
        DTypeV::Q4_K => Some((144, 256)),
        DTypeV::Unsupported(_) => None,
    }
}

/// The byte length of `n` elements: known where the layout is, for whole blocks,
/// as long as it fits 64 bits.
pub open spec fn byte_len(d: DTypeV, n: nat) -> Option<nat> {
    match block_layout(d) {
        Some((bytes, elems)) => if n % elems == 0 && n / elems * bytes <= u64::MAX {
            Some(n / elems * bytes)
        } else {
            None
        },
        None => None,
    }
}

impl DType {
    /// Bytes and elements of one block, where the layout is known.
    pub fn block_layout(&self) -> (r: Option<(u64, u64)>)
        ensures
            match r {
                Some((bytes, elems)) => block_layout(self@) == Some((bytes as nat, elems as nat)),
                None => block_layout(self@) is None,
            },
    {
        match self {
            DType::F32 => Some((4, 1)),
            DType::F16 => Some((2, 1)),
            DType::BF16 => Some((2, 1)),
            DType::Q8_0 => Some((34, 32)),
            DType::Q4_K => Some((144, 256)),
            DType::Unsupported(_) => None,
        }
    }

    /// Byte length of `n_elems` elements, if the layout is known, `n_elems` is a
    /// whole number of blocks and the length fits.
    pub fn byte_len(&self, n_elems: u64) -> (r: Option<u64>)
        ensures
            match r {
                Some(n) => byte_len(self@, n_elems as nat) == Some(n as nat),
                None => byte_len(self@, n_elems as nat) is None,
            },
    {
        let (block_bytes, block_elems) = match self.block_layout() {
            Some(l) => l,
            None => return None,
        };
        if n_elems % block_elems != 0 {
            return None;
        }
        (n_elems / block_elems).checked_mul(block_bytes)
    }
}

/// Where every length is known, it grows with the number of blocks: two whole
/// numbers of blocks laid out one after the other take the sum of their lengths.
pub proof fn law_byte_len_adds(d: DTypeV, m: nat, n: nat)
    requires
        byte_len(d, m + n) is Some,
        byte_len(d, m) is Some,
    ensures
        byte_len(d, n) is Some,
        byte_len(d, m + n)->0 == byte_len(d, m)->0 + byte_len(d, n)->0,
{
    let (bytes, elems) = block_layout(d)->0;
    assert(elems == 1 || elems == 32 || elems == 256);
    assert(n % elems == 0 && (m + n) / elems == m / elems + n / elems);
    vstd::arithmetic::mul::lemma_mul_is_distributive_add_other_way(
        bytes as int,
        (m / elems) as int,
        (n / elems) as int,
    );
}

/// The product of `shape`, as long as no partial product leaves 64 bits.
pub open spec fn checked_product(shape: Seq<u64>) -> Option<nat>
    decreases shape.len(),
{
    if shape.len() == 0 {
        Some(1)
    } else {
        match checked_product(shape.drop_last()) {
            Some(p) => if p * shape.last() <= u64::MAX {
                Some((p * shape.last()) as nat)
            } else {
                None
            },
            None => None,
        }
    }
}

/// A partial product that leaves 64 bits spoils the whole.
proof fn lemma_product_stuck(shape: Seq<u64>, k: int)
    requires
        0 <= k <= shape.len(),
        checked_product(shape.take(k)) is None,
    ensures
        checked_product(shape) is None,
    decreases shape.len() - k,
{
    if k == shape.len() {
        assert(shape.take(k) =~= shape);
    } else {
        assert(shape.take(k + 1).drop_last() =~= shape.take(k));
        lemma_product_stuck(shape, k + 1);
    }
}

/// The number of elements of `shape`, as long as no partial product leaves 64
/// bits.
pub fn element_count(shape: &Vec<u64>) -> (r: Option<u64>)
    ensures
        match r {
            Some(n) => checked_product(shape@) == Some(n as nat),
            None => checked_product(shape@) is None,
        },
{
    let mut acc: u64 = 1;
    let mut i: usize = 0;
    while i < shape.len()
        invariant
            i <= shape@.len(),
            checked_product(shape@.take(i as int)) == Some(acc as nat),
        decreases shape.len() - i,
    {
        proof {
            assert(shape@.take(i + 1).drop_last() =~= shape@.take(i as int));
        }
        match acc.checked_mul(shape[i]) {
            Some(p) => {
                acc = p;
            },
            None => {
                proof {
                    lemma_product_stuck(shape@, i + 1);
                }
                return None;
            },
        }
        i += 1;
    }
    proof {
        assert(shape@.take(i as int) =~= shape@);
    }
    Some(acc)
}

#[derive(Debug, Clone, PartialEq, Eq)]
pub enum Architecture {
    Llama,
    Qwen2,
    Qwen3,
    Mistral,
    Unknown(String),
}

/// The model of an [`Architecture`].
#[verifier::ext_equal]
pub enum ArchitectureV {
    Llama,
    Qwen2,
    Qwen3,
    Mistral,
    Unknown(Seq<char>),
}

impl View for Architecture {
    type V = ArchitectureV;

    open spec fn view(&self) -> ArchitectureV {
        match self {
            Architecture::Llama => ArchitectureV::Llama,
            Architecture::Qwen2 => ArchitectureV::Qwen2,
            Architecture::Qwen3 => ArchitectureV::Qwen3,
            Architecture::Mistral => ArchitectureV::Mistral,
            Architecture::Unknown(s) => ArchitectureV::Unknown(s@),
        }
    }
}

/// The architecture that an id names.
pub open spec fn architecture_of(id: Seq<char>) -> ArchitectureV {
    if id == "llama"@ {
        ArchitectureV::Llama
    } else if id == "qwen2"@ {
        ArchitectureV::Qwen2
    } else if id == "qwen3"@ {
        ArchitectureV::Qwen3
    } else if id == "mistral"@ {
        ArchitectureV::Mistral
    } else {
        ArchitectureV::Unknown(id)
    }
}

impl Architecture {
    /// The architecture that an id names.
    pub fn from_id(id: &str) -> (r: Self)
        ensures
            r@ == architecture_of(id@),
    {
        if text_eq(id, "llama") {
            Architecture::Llama
        } else if text_eq(id, "qwen2") {
            Architecture::Qwen2
        } else if text_eq(id, "qwen3") {
            Architecture::Qwen3
        } else if text_eq(id, "mistral") {
            Architecture::Mistral
        } else {
            Architecture::Unknown(id.to_owned())
        }
    }
}

/// Which elements of a head rotary embedding turns together.
#[derive(Debug, Clone, Copy, PartialEq, Eq, Structural)]
pub enum RopeStyle {
    /// Neighbours: `2j` and `2j + 1`.
    Interleaved,
    /// Halves: `j` and `j + head_dim / 2`.
    HalfSplit,
}

/// Llama-family transformer hyperparameters. `rope_theta` and `norm_eps` are the
/// bits of single-precision numbers.
#[derive(Debug, Clone, Copy, PartialEq, Eq, Structural)]
pub struct HyperParams {
    pub vocab_size: u64,
    pub hidden_size: u64,
    pub n_layers: u64,
    pub n_heads: u64,
    pub n_kv_heads: u64,
    pub ffn_hidden_size: u64,
    pub rope_theta: u32,
    pub norm_eps: u32,
    pub context_length: u64,
    pub rope_style: RopeStyle,
}

#[derive(Debug, PartialEq, Eq)]
pub struct TensorDesc {
    pub name: String,
    /// Row-major, outermost dimension first.
    pub shape: Vec<u64>,
    pub dtype: DType,
    /// Index into [`ModelDesc::weight_files`].
    pub file_index: u32,
    /// Byte offset within that file's data section.
    pub data_offset: u64,
    /// Byte length, when computable for the element type.
    pub data_len: Option<u64>,
}

/// The model of a [`TensorDesc`].
#[verifier::ext_equal]
pub struct TensorV {
    pub name: Seq<char>,
    pub shape: Seq<u64>,
    pub dtype: DTypeV,
    pub file_index: u32,
    pub data_offset: u64,
    pub data_len: Option<u64>,
}

impl View for TensorDesc {
    type V = TensorV;

    open spec fn view(&self) -> TensorV {
        TensorV {
            name: self.name@,
            shape: self.shape@,
            dtype: self.dtype@,
            file_index: self.file_index,
            data_offset: self.data_offset,
            data_len: self.data_len,
        }
    }
}

impl Clone for TensorDesc {
    fn clone(&self) -> (r: Self)
        ensures
            r@ == self@,
    {
        TensorDesc {
            name: self.name.clone(),
            shape: self.shape.clone(),
            dtype: self.dtype.clone(),
            file_index: self.file_index,
            data_offset: self.data_offset,
            data_len: self.data_len,
        }
    }
}

/// The models of a list of tensors.
pub open spec fn tensors_view(s: Seq<TensorDesc>) -> Seq<TensorV> {
    s.map_values(|t: TensorDesc| t@)
}

/// Where a model's tokenizer stands.
#[derive(Debug, Clone, PartialEq, Eq)]
pub enum TokenizerSpec {
    /// A `tokenizer.json` beside the weights.
    HfJson { path: String },
    /// In the metadata of the model file itself.
    Embedded,
}

/// The model of a [`TokenizerSpec`].
#[verifier::ext_equal]
pub enum TokenizerV {
    HfJson(Seq<char>),
    Embedded,
}

impl View for TokenizerSpec {
    type V = TokenizerV;

    open spec fn view(&self) -> TokenizerV {
        match self {
            TokenizerSpec::HfJson { path } => TokenizerV::HfJson(path@),
            TokenizerSpec::Embedded => TokenizerV::Embedded,
        }
    }
}

/// The model of an optional text.
pub open spec fn text_view(o: Option<String>) -> Option<Seq<char>> {
    match o {
        Some(s) => Some(s@),
        None => None,
    }
}

/// The model of an optional tokenizer.
pub open spec fn tokenizer_view(o: Option<TokenizerSpec>) -> Option<TokenizerV> {
    match o {
        Some(s) => Some(s@),
        None => None,
    }
}

/// The models of a list of texts.
pub open spec fn texts_view(s: Seq<String>) -> Seq<Seq<char>> {
    s.map_values(|t: String| t@)
}

/// Format-agnostic model description: nothing in it tells which file format it
/// came from.
#[derive(Debug, Clone, PartialEq, Eq)]
pub struct ModelDesc {
    pub architecture: Architecture,
    pub name: Option<String>,
    pub hyperparams: HyperParams,
    pub tensors: Vec<TensorDesc>,
    /// Paths of the files that hold tensor data.
    pub weight_files: Vec<String>,
    /// Byte offset of the data section in each weight file (parallel array).
    pub data_section_offsets: Vec<u64>,
    pub tokenizer: Option<TokenizerSpec>,
}

/// The model of a [`ModelDesc`].
#[verifier::ext_equal]
pub struct ModelV {
    pub architecture: ArchitectureV,
    pub name: Option<Seq<char>>,
    pub hyperparams: HyperParams,
    pub tensors: Seq<TensorV>,
    pub weight_files: Seq<Seq<char>>,
    pub data_section_offsets: Seq<u64>,
    pub tokenizer: Option<TokenizerV>,
}

impl View for ModelDesc {
    type V = ModelV;

    open spec fn view(&self) -> ModelV {
        ModelV {
            architecture: self.architecture@,
            name: text_view(self.name),
            hyperparams: self.hyperparams,
            tensors: tensors_view(self.tensors@),
            weight_files: texts_view(self.weight_files@),
            data_section_offsets: self.data_section_offsets@,
            tokenizer: tokenizer_view(self.tokenizer),
        }
    }
}

} // verus!
