//! The description of a model for a reader.

use vstd::prelude::*;
use vstd::string::StringExecFns;

use crate::formats::desc::{
    Architecture, ArchitectureV, HyperParams, ModelDesc, ModelV, TensorDesc, TensorV,
};
use crate::formats::quant::{dtype_name, dtype_text};
use crate::graph::error::{join_numbers, number_texts};
use crate::text::{
    append_left, append_right, at_left, at_right, dec, dec_text, join, write_with, writes, written,
};

verus! {

/// The name of an architecture.
pub open spec fn arch_text(a: ArchitectureV) -> Seq<char> {
    match a {
        ArchitectureV::Llama => "llama"@,
        ArchitectureV::Qwen2 => "qwen2"@,
        ArchitectureV::Qwen3 => "qwen3"@,
        ArchitectureV::Mistral => "mistral"@,
        ArchitectureV::Unknown(s) => "unknown ("@ + s + ")"@,
    }
}

/// The name of an architecture.
pub fn arch_label(a: &Architecture) -> (s: String)
    ensures
        s@ == arch_text(a@),
{
    match a {
        Architecture::Llama => "llama".to_owned(),
        Architecture::Qwen2 => "qwen2".to_owned(),
        Architecture::Qwen3 => "qwen3".to_owned(),
        Architecture::Mistral => "mistral".to_owned(),
        Architecture::Unknown(id) => {
            let mut s = "unknown (".to_owned();
            s.append(id.as_str());
            s.append(")");
            s
        },
    }
}

/// The line of the hyperparameters.
pub open spec fn params_text<F: Fn(u32) -> String>(hp: HyperParams, num: F) -> Seq<char> {
    "hyperparams: layers="@ + dec(hp.n_layers as nat) + " hidden="@ + dec(hp.hidden_size as nat)
        + " heads="@ + dec(hp.n_heads as nat) + " kv_heads="@ + dec(hp.n_kv_heads as nat)
        + " ffn="@ + dec(hp.ffn_hidden_size as nat) + " vocab="@ + dec(hp.vocab_size as nat)
        + " ctx="@ + dec(hp.context_length as nat) + " rope_theta="@ + written(num, hp.rope_theta)
        + " norm_eps="@ + written(num, hp.norm_eps) + "\n"@
}

fn push_params<F: Fn(u32) -> String>(s: &mut String, hp: &HyperParams, num: &F)
    requires
        writes(*num),
    ensures
        final(s)@ == old(s)@ + params_text(*hp, *num),
{
    let ghost before = s@;
    s.append("hyperparams: layers=");
    s.append(dec_text(hp.n_layers).as_str());
    s.append(" hidden=");
    s.append(dec_text(hp.hidden_size).as_str());
    s.append(" heads=");
    s.append(dec_text(hp.n_heads).as_str());
    s.append(" kv_heads=");
    s.append(dec_text(hp.n_kv_heads).as_str());
    s.append(" ffn=");
    s.append(dec_text(hp.ffn_hidden_size).as_str());
    s.append(" vocab=");
    s.append(dec_text(hp.vocab_size).as_str());
    s.append(" ctx=");
    s.append(dec_text(hp.context_length).as_str());
    s.append(" rope_theta=");
    s.append(write_with(num, hp.rope_theta).as_str());
    s.append(" norm_eps=");
    s.append(write_with(num, hp.norm_eps).as_str());
    s.append("\n");
    assert(s@ =~= before + params_text(*hp, *num));
}

/// The line of a tensor.
pub open spec fn tensor_text(t: TensorV) -> Seq<char> {
    "  "@ + at_left(t.name, 40) + " "@ + at_right(
        join(number_texts(t.shape), "x"@, t.shape.len()),
        12,
    ) + " "@ + dtype_name(t.dtype) + "\n"@
}

fn push_tensor(s: &mut String, t: &TensorDesc)
    ensures
        final(s)@ == old(s)@ + tensor_text(t@),
{
    let ghost before = s@;
    s.append("  ");
    append_left(s, t.name.as_str(), 40);
    s.append(" ");
    append_right(s, join_numbers(&t.shape, "x").as_str(), 12);
    s.append(" ");
    s.append(dtype_text(&t.dtype).as_str());
    s.append("\n");
    assert(s@ =~= before + tensor_text(t@));
}

/// The lines of the first `k` tensors.
pub open spec fn tensors_text(ts: Seq<TensorV>, k: nat) -> Seq<char>
    decreases k,
{
    if k == 0 {
        Seq::empty()
    } else {
        tensors_text(ts, (k - 1) as nat) + tensor_text(ts[k - 1])
    }
}

/// The line that says how many tensors are not shown, if some are and some are not.
pub open spec fn rest_text(total: nat, shown: nat) -> Seq<char> {
    if total > shown && shown > 0 {
        "  … and "@ + dec((total - shown) as nat) + " more\n"@
    } else {
        Seq::empty()
    }
}

/// The description of a model, with up to `max` tensors.
pub open spec fn model_text<F: Fn(u32) -> String>(m: ModelV, max: nat, num: F) -> Seq<char> {
    let name = match m.name {
        Some(n) => "model: "@ + n + "\n"@,
        None => Seq::empty(),
    };
    let k = if m.tensors.len() < max {
        m.tensors.len()
    } else {
        max
    };
    name + "architecture: "@ + arch_text(m.architecture) + "\n"@ + params_text(m.hyperparams, num)
        + "tensors: "@ + dec(m.tensors.len()) + "\n"@ + tensors_text(m.tensors, k) + rest_text(
        m.tensors.len(),
        max,
    )
}

/// The description of a model, with up to `max_tensors` tensors. `num` writes
/// single-precision numbers.
pub fn render<F: Fn(u32) -> String>(desc: &ModelDesc, max_tensors: usize, num: &F) -> (s: String)
    requires
        writes(*num),
    ensures
        s@ == model_text(desc@, max_tensors as nat, *num),
{
    let ghost m = desc@;
    let mut s = String::new();
    match &desc.name {
        Some(n) => {
            s.append("model: ");
            s.append(n.as_str());
            s.append("\n");
        },
        None => {},
    }
    let ghost name = match m.name {
        Some(n) => "model: "@ + n + "\n"@,
        None => Seq::empty(),
    };
    assert(s@ =~= name);
    s.append("architecture: ");
    s.append(arch_label(&desc.architecture).as_str());
    s.append("\n");
    push_params(&mut s, &desc.hyperparams, num);
    let total: usize = desc.tensors.len();
    s.append("tensors: ");
    s.append(dec_text(total as u64).as_str());
    s.append("\n");
    let ghost head = s@;
    let shown: usize = if total < max_tensors {
        total
    } else {
        max_tensors
    };
    let mut i: usize = 0;
    assert(s@ =~= head + tensors_text(m.tensors, 0));
    while i < shown
        invariant
            i <= shown <= total,
            m == desc@,
            total == desc.tensors@.len(),
            s@ == head + tensors_text(m.tensors, i as nat),
        decreases shown - i,
    {
        proof {
            assert(m.tensors[i as int] == desc.tensors@[i as int]@);
        }
        push_tensor(&mut s, &desc.tensors[i]);
        i += 1;
        assert(s@ =~= head + tensors_text(m.tensors, i as nat));
    }
    let ghost body = s@;
    if total > max_tensors && max_tensors > 0 {
        s.append("  … and ");
        s.append(dec_text((total - max_tensors) as u64).as_str());
        s.append(" more\n");
    }
    assert(s@ =~= body + rest_text(total as nat, max_tensors as nat));
    assert(s@ =~= model_text(m, max_tensors as nat, *num));
    s
}

} // verus!
