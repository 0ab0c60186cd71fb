//! What the model of a directory takes from each of its shards, and from its
//! configuration.

use vstd::prelude::*;

use crate::bytes::{le_value, lemma_le_value_bound, lemma_pow256_values};
use crate::formats::desc::{
    byte_len, checked_product, DTypeV, RopeStyle, TensorV, TokenizerV,
};
use crate::formats::error::Fault;
use crate::formats::json::{
    json_object, value_array, value_numbers, value_object, value_pair, value_string,
};
use crate::formats::mlx::{dir_model, is_shard_name, shard_tensors, text_le, MlxConfig, Shard};
use crate::formats::names::hf_name;
use crate::formats::safetensors::{
    entry_described, entry_of_json, header, member, parsed, st_dtype, table_tensors, StEntryV,
};

verus! {

/// Whether the members `ms` of an object give `v` to `key`: where several do, the last.
pub open spec fn gives(ms: Seq<(Seq<char>, Seq<char>)>, key: Seq<char>, v: Seq<char>) -> bool {
    exists|j: int|
        0 <= j < ms.len() && #[trigger] ms[j] == (key, v) && forall|i: int|
            j < i < ms.len() ==> (#[trigger] ms[i]).0 != key
}

/// Whether a JSON text is a table entry with this element type, shape and span.
pub open spec fn says(json: Seq<char>, dtype: Seq<char>, shape: Seq<u64>, start: u64, end: u64) -> bool {
    match value_object(json) {
        Ok(ms) => exists|a: Seq<char>, b: Seq<char>, c: Seq<char>| #[trigger]
            gives(ms, "dtype"@, a) && #[trigger] gives(ms, "shape"@, b) && #[trigger] gives(
                ms,
                "data_offsets"@,
                c,
            ) && value_string(a) == Ok::<Seq<char>, Seq<char>>(dtype) && value_numbers(b) == Ok::<
                Seq<u64>,
                Seq<char>,
            >(shape) && value_pair(c) == Ok::<(u64, u64), Seq<char>>((start, end)),
        Err(_) => match value_array(json) {
            Ok(a) => a.len() == 3 && value_string(a[0]) == Ok::<Seq<char>, Seq<char>>(dtype)
                && value_numbers(a[1]) == Ok::<Seq<u64>, Seq<char>>(shape) && value_pair(a[2])
                == Ok::<(u64, u64), Seq<char>>((start, end)),
            Err(_) => false,
        },
    }
}

/// Whether an element type is the one that safetensors calls `name`.
pub open spec fn goes_by(d: DTypeV, name: Seq<char>) -> bool {
    match d {
        DTypeV::F32 => name == "F32"@,
        DTypeV::F16 => name == "F16"@,
        DTypeV::BF16 => name == "BF16"@,
        DTypeV::Unsupported(s) => s == name && name != "F32"@ && name != "F16"@ && name != "BF16"@,
        _ => false,
    }
}

/// Whether a tensor is what a table says under `name`.
#[verifier::opaque]
pub open spec fn entered(t: TensorV, name: Seq<char>, json: Seq<char>) -> bool {
    exists|dtype: Seq<char>, end: u64| #[trigger]
        says(json, dtype, t.shape, t.data_offset, end) && goes_by(t.dtype, dtype)
            && t.data_offset <= end && t.data_len == Some((end - t.data_offset) as u64) && match hf_name(
            name,
        ) {
            Some(n) => t.name == n,
            None => t.name == name,
        }
}

/// How long the header of a file says that it is, least significant byte first.
pub open spec fn frame_len(data: Seq<u8>) -> int {
    data[0] + 0x100 * data[1] + 0x1_0000 * data[2] + 0x100_0000 * data[3] + 0x1_0000_0000 * data[4]
        + 0x100_0000_0000 * data[5] + 0x1_0000_0000_0000 * data[6] + 0x100_0000_0000_0000 * data[7]
}

/// The table in the header of a file.
pub open spec fn table_of(data: Seq<u8>) -> Result<Seq<(Seq<char>, Seq<char>)>, Seq<char>> {
    json_object(data.subrange(8, 8 + frame_len(data)))
}

/// Whether the header of a file is whole and holds a table.
pub open spec fn framed(data: Seq<u8>) -> bool {
    8 <= data.len() && 8 + frame_len(data) <= data.len() && table_of(data) is Ok
}

/// Whether member `k` of the table of a file is a tensor.
pub open spec fn tells(data: Seq<u8>, k: int) -> bool {
    framed(data) && 0 <= k < table_of(data)->Ok_0.len() && table_of(data)->Ok_0[k].0
        != "__metadata__"@
}

/// Whether a tensor is member `k` of the table of a file.
#[verifier::opaque]
pub open spec fn listed(data: Seq<u8>, k: int, t: TensorV) -> bool {
    tells(data, k) && entered(t, table_of(data)->Ok_0[k].0, table_of(data)->Ok_0[k].1)
}

/// The member that counts is the last of its name.
proof fn lemma_member(ms: Seq<(Seq<char>, Seq<char>)>, key: Seq<char>)
    ensures
        member(ms, key) matches Some(v) ==> gives(ms, key, v),
    decreases ms.len(),
{
    if ms.len() > 0 {
        let w = ms.drop_last();
        lemma_member(w, key);
        if ms.last().0 == key {
            let j = ms.len() - 1;
            assert(ms[j] == (key, ms.last().1));
        } else if member(w, key) is Some {
            let v = member(w, key)->0;
            let j = choose|j: int|
                0 <= j < w.len() && #[trigger] w[j] == (key, v) && forall|i: int|
                    j < i < w.len() ==> (#[trigger] w[i]).0 != key;
            assert(ms[j] == (key, v));
            assert forall|i: int| j < i < ms.len() implies (#[trigger] ms[i]).0 != key by {
                if i < w.len() {
                    assert(w[i].0 != key);
                }
            }
        }
    }
}

/// What an entry holds.
proof fn lemma_entry(json: Seq<char>)
    ensures
        entry_of_json(json) matches Ok(e) ==> says(json, e.dtype, e.shape, e.start, e.end),
{
    if value_object(json) is Ok {
        let ms = value_object(json)->Ok_0;
        lemma_member(ms, "dtype"@);
        lemma_member(ms, "shape"@);
        lemma_member(ms, "data_offsets"@);
    }
}

/// What an entry describes.
proof fn lemma_entered(name: Seq<char>, json: Seq<char>, index: u32)
    requires
        entry_of_json(json) is Ok,
        entry_described(name, entry_of_json(json)->Ok_0, index) is Ok,
    ensures
        ({
            let t = entry_described(name, entry_of_json(json)->Ok_0, index)->Ok_0;
            entered(t, name, json) && t.file_index == index
        }),
{
    reveal(entered);
    lemma_entry(json);
    let e = entry_of_json(json)->Ok_0;
    let t = entry_described(name, e, index)->Ok_0;
    assert(says(json, e.dtype, t.shape, t.data_offset, e.end) && goes_by(t.dtype, e.dtype));
}

/// The tensors of a table, each with its place in it, and each place with its tensor.
proof fn lemma_table(table: Seq<(Seq<char>, Seq<char>)>, index: u32, n: nat)
    requires
        n <= table.len(),
        table_tensors(table, index, n) is Ok,
    ensures
        ({
            let ts = table_tensors(table, index, n)->Ok_0;
            &&& forall|j: int|
                0 <= j < ts.len() ==> (#[trigger] ts[j]).file_index == index && exists|k: int|
                    0 <= k < n && (#[trigger] table[k]).0 != "__metadata__"@ && entered(
                        ts[j],
                        table[k].0,
                        table[k].1,
                    )
            &&& forall|k: int|
                0 <= k < n && (#[trigger] table[k]).0 != "__metadata__"@ ==> exists|j: int|
                    0 <= j < ts.len() && entered(#[trigger] ts[j], table[k].0, table[k].1)
        }),
    decreases n,
{
    if n > 0 {
        let m = (n - 1) as nat;
        lemma_table(table, index, m);
        let a = table_tensors(table, index, m)->Ok_0;
        let b = table_tensors(table, index, n)->Ok_0;
        if table[n - 1].0 != "__metadata__"@ {
            lemma_entered(table[n - 1].0, table[n - 1].1, index);
            assert(b[a.len() as int] == b.last());
        }
        assert forall|j: int| 0 <= j < b.len() implies (#[trigger] b[j]).file_index == index
            && exists|k: int|
            0 <= k < n && (#[trigger] table[k]).0 != "__metadata__"@ && entered(
                b[j],
                table[k].0,
                table[k].1,
            ) by {
            if j < a.len() {
                assert(b[j] == a[j]);
                let k = choose|k: int|
                    0 <= k < m && (#[trigger] table[k]).0 != "__metadata__"@ && entered(
                        a[j],
                        table[k].0,
                        table[k].1,
                    );
                assert(table[k].0 != "__metadata__"@ && entered(b[j], table[k].0, table[k].1));
            }
        }
        assert forall|k: int| 0 <= k < n && (#[trigger] table[k]).0 != "__metadata__"@ implies exists|
            j: int,
        |
            0 <= j < b.len() && entered(#[trigger] b[j], table[k].0, table[k].1) by {
            if k < m {
                let j = choose|j: int|
                    0 <= j < a.len() && entered(#[trigger] a[j], table[k].0, table[k].1);
                assert(b[j] == a[j]);
            }
        }
    }
}

/// Eight bytes, least significant first.
proof fn lemma_frame_len(data: Seq<u8>)
    requires
        8 <= data.len(),
    ensures
        le_value(data.subrange(0, 8)) == frame_len(data),
{
    let s = data.subrange(0, 8);
    reveal_with_fuel(le_value, 9);
    assert(s.skip(1).skip(1) =~= s.skip(2));
    assert(s.skip(2).skip(1) =~= s.skip(3));
    assert(s.skip(3).skip(1) =~= s.skip(4));
    assert(s.skip(4).skip(1) =~= s.skip(5));
    assert(s.skip(5).skip(1) =~= s.skip(6));
    assert(s.skip(6).skip(1) =~= s.skip(7));
    assert(s.skip(7).skip(1).len() == 0);
}

/// The frame of a file that parses.
proof fn lemma_framed(data: Seq<u8>, index: u32)
    requires
        parsed(data, index) is Ok,
    ensures
        ({
            let (ts, at) = parsed(data, index)->Ok_0;
            let table = table_of(data)->Ok_0;
            &&& framed(data)
            &&& at == 8 + frame_len(data)
            &&& table_tensors(table, index, table.len()) == Ok::<Seq<TensorV>, Fault>(ts)
        }),
{
    assert(header(data) is Ok);
    lemma_frame_len(data);
    lemma_le_value_bound(data.subrange(0, 8));
    lemma_pow256_values();
}

/// The tensors of a file, each with its place in the table, and each place with its tensor.
pub proof fn law_tensors_are_listed(data: Seq<u8>, index: u32)
    requires
        parsed(data, index) is Ok,
    ensures
        ({
            let (ts, at) = parsed(data, index)->Ok_0;
            &&& framed(data)
            &&& at == 8 + frame_len(data)
            &&& forall|j: int|
                0 <= j < ts.len() ==> (#[trigger] ts[j]).file_index == index && exists|p: int|
                    listed(data, p, ts[j])
            &&& forall|p: int| #[trigger]
                tells(data, p) ==> exists|j: int| 0 <= j < ts.len() && listed(data, p, #[trigger] ts[j])
        }),
{
    reveal(listed);
    lemma_framed(data, index);
    let (ts, at) = parsed(data, index)->Ok_0;
    let table = table_of(data)->Ok_0;
    lemma_table(table, index, table.len());
    assert forall|j: int| 0 <= j < ts.len() implies (#[trigger] ts[j]).file_index == index
        && exists|p: int| listed(data, p, ts[j]) by {
        let k = choose|k: int|
            0 <= k < table.len() && (#[trigger] table[k]).0 != "__metadata__"@ && entered(
                ts[j],
                table[k].0,
                table[k].1,
            );
        assert(listed(data, k, ts[j]));
    }
    assert forall|p: int| #[trigger] tells(data, p) implies exists|j: int|
        0 <= j < ts.len() && listed(data, p, #[trigger] ts[j]) by {
        assert(table[p].0 != "__metadata__"@);
        let j = choose|j: int|
            0 <= j < ts.len() && entered(#[trigger] ts[j], table[p].0, table[p].1);
        assert(listed(data, p, ts[j]));
    }
}

/// The tensors of the first `k` shards, each with its shard.
proof fn lemma_shards(shards: Seq<Shard>, k: nat)
    requires
        k <= shards.len() <= u32::MAX,
        shard_tensors(shards, k) is Ok,
    ensures
        ({
            let (ts, offs) = shard_tensors(shards, k)->Ok_0;
            &&& offs.len() == k
            &&& forall|f: int|
                0 <= f < k ==> framed((#[trigger] shards[f]).bytes@) && offs[f] == 8 + frame_len(
                    shards[f].bytes@,
                )
            &&& forall|j: int|
                0 <= j < ts.len() ==> (#[trigger] ts[j]).file_index < k && exists|p: int|
                    listed(shards[ts[j].file_index as int].bytes@, p, ts[j])
            &&& forall|f: int, p: int|
                0 <= f < k && #[trigger] tells(shards[f].bytes@, p) ==> exists|j: int|
                    0 <= j < ts.len() && (#[trigger] ts[j]).file_index == f && listed(
                        shards[f].bytes@,
                        p,
                        ts[j],
                    )
        }),
    decreases k,
{
    if k > 0 {
        let h = (k - 1) as nat;
        lemma_shards(shards, h);
        let (a, offs) = shard_tensors(shards, h)->Ok_0;
        let data = shards[h as int].bytes@;
        law_tensors_are_listed(data, h as u32);
        let (more, at) = parsed(data, h as u32)->Ok_0;
        let (b, all) = shard_tensors(shards, k)->Ok_0;
        assert(b == a + more && all == offs.push(at));
        assert forall|j: int| 0 <= j < b.len() implies (#[trigger] b[j]).file_index < k && exists|
            p: int,
        |
            listed(shards[b[j].file_index as int].bytes@, p, b[j]) by {
            if j < a.len() {
                assert(b[j] == a[j]);
            } else {
                assert(b[j] == more[j - a.len()]);
            }
        }
        assert forall|f: int, p: int|
            0 <= f < k && #[trigger] tells(shards[f].bytes@, p) implies exists|j: int|
            0 <= j < b.len() && (#[trigger] b[j]).file_index == f && listed(
                shards[f].bytes@,
                p,
                b[j],
            ) by {
            if f < h {
                let j = choose|j: int|
                    0 <= j < a.len() && (#[trigger] a[j]).file_index == f && listed(
                        shards[f].bytes@,
                        p,
                        a[j],
                    );
                assert(b[j] == a[j]);
            } else {
                let j = choose|j: int| 0 <= j < more.len() && listed(data, p, #[trigger] more[j]);
                assert(b[a.len() + j] == more[j]);
                assert(more[j].file_index == h);
            }
        }
    }
}

/// Of a model that is loaded from shards, every tensor is in the table of the file that its
/// index names, with its shape, type and place, and every tensor of every table is in the
/// model; the file's path stands under that index, and so does where its header ends.
pub proof fn law_shards_are_told_apart(
    dir: Seq<char>,
    name: Option<Seq<char>>,
    config: MlxConfig,
    shards: Seq<Shard>,
    tokenizer: Option<Seq<char>>,
)
    requires
        shards.len() <= u32::MAX,
        dir_model(dir, name, config, shards, tokenizer) is Ok,
    ensures
        ({
            let m = dir_model(dir, name, config, shards, tokenizer)->Ok_0;
            &&& m.weight_files.len() == shards.len()
            &&& m.data_section_offsets.len() == shards.len()
            &&& forall|f: int|
                0 <= f < shards.len() ==> m.weight_files[f] == (#[trigger] shards[f]).path@
                    && framed(shards[f].bytes@) && m.data_section_offsets[f] == 8 + frame_len(
                    shards[f].bytes@,
                )
            &&& forall|j: int|
                0 <= j < m.tensors.len() ==> (#[trigger] m.tensors[j]).file_index < shards.len()
                    && exists|p: int|
                    listed(shards[m.tensors[j].file_index as int].bytes@, p, m.tensors[j])
            &&& forall|f: int, p: int|
                0 <= f < shards.len() && #[trigger] tells(shards[f].bytes@, p) ==> exists|j: int|
                    0 <= j < m.tensors.len() && (#[trigger] m.tensors[j]).file_index == f && listed(
                        shards[f].bytes@,
                        p,
                        m.tensors[j],
                    )
        }),
{
    lemma_shards(shards, shards.len());
}

/// A model comes of shards if and only if there are some and each of them is sound by
/// itself.
pub proof fn law_every_shard_counts(
    dir: Seq<char>,
    name: Option<Seq<char>>,
    config: MlxConfig,
    shards: Seq<Shard>,
    tokenizer: Option<Seq<char>>,
)
    requires
        shards.len() <= u32::MAX,
    ensures
        dir_model(dir, name, config, shards, tokenizer) is Ok <==> shards.len() > 0 && forall|f: int|
            0 <= f < shards.len() ==> parsed((#[trigger] shards[f]).bytes@, f as u32) is Ok,
{
    lemma_sound(shards, shards.len());
}

proof fn lemma_sound(shards: Seq<Shard>, k: nat)
    requires
        k <= shards.len() <= u32::MAX,
    ensures
        shard_tensors(shards, k) is Ok <==> forall|f: int|
            0 <= f < k ==> parsed((#[trigger] shards[f]).bytes@, f as u32) is Ok,
    decreases k,
{
    if k > 0 {
        lemma_sound(shards, (k - 1) as nat);
        assert(shards[k - 1] == shards[k - 1]);
    }
}

/// What a model has from its directory's configuration, and what stands for numbers that the
/// configuration leaves out: as many key heads as query heads, a base of ten thousand, an
/// epsilon of a hundred-thousandth, and no known context.
pub proof fn law_configuration_is_kept(
    dir: Seq<char>,
    name: Option<Seq<char>>,
    config: MlxConfig,
    shards: Seq<Shard>,
    tokenizer: Option<Seq<char>>,
)
    requires
        dir_model(dir, name, config, shards, tokenizer) is Ok,
    ensures
        ({
            let m = dir_model(dir, name, config, shards, tokenizer)->Ok_0;
            let hp = m.hyperparams;
            &&& m.name == name
            &&& hp.vocab_size == config.vocab_size
            &&& hp.hidden_size == config.hidden_size
            &&& hp.n_layers == config.num_hidden_layers
            &&& hp.n_heads == config.num_attention_heads
            &&& hp.ffn_hidden_size == config.intermediate_size
            &&& config.num_key_value_heads matches Some(n) ==> hp.n_kv_heads == n
            &&& config.num_key_value_heads is None ==> hp.n_kv_heads == hp.n_heads
            &&& config.rope_theta matches Some(x) ==> hp.rope_theta == x
            &&& config.rope_theta is None ==> hp.rope_theta == 0x461C_4000u32
            &&& config.rms_norm_eps matches Some(x) ==> hp.norm_eps == x
            &&& config.rms_norm_eps is None ==> hp.norm_eps == 0x3727_C5ACu32
            &&& config.max_position_embeddings matches Some(n) ==> hp.context_length == n
            &&& config.max_position_embeddings is None ==> hp.context_length == 0
            &&& hp.rope_style == RopeStyle::HalfSplit
            &&& tokenizer matches Some(path) ==> m.tokenizer == Some(TokenizerV::HfJson(path))
            &&& tokenizer is None ==> m.tokenizer is None
        }),
{
}

/// One text stands before another if it is its beginning, or has the smaller character where
/// they first differ.
pub proof fn law_texts_are_ordered(a: Seq<char>, b: Seq<char>)
    ensures
        text_le(a, b) <==> exists|p: int|
            0 <= p <= a.len() && p <= b.len() && #[trigger] a.take(p) == b.take(p) && (p == a.len()
                || p < b.len() && a[p] < b[p]),
    decreases a.len(),
{
    if a.len() == 0 {
        assert(a.take(0) =~= b.take(0));
    } else if b.len() > 0 && a[0] == b[0] {
        let c = a.skip(1);
        let d = b.skip(1);
        law_texts_are_ordered(c, d);
        if text_le(c, d) {
            let p = choose|p: int|
                0 <= p <= c.len() && p <= d.len() && #[trigger] c.take(p) == d.take(p) && (p
                    == c.len() || p < d.len() && c[p] < d[p]);
            assert forall|i: int| 0 <= i < p + 1 implies #[trigger] a.take(p + 1)[i] == b.take(
                p + 1,
            )[i] by {
                if i > 0 {
                    assert(c.take(p)[i - 1] == d.take(p)[i - 1]);
                }
            }
            assert(a.take(p + 1) =~= b.take(p + 1));
        }
        if exists|p: int|
            0 <= p <= a.len() && p <= b.len() && #[trigger] a.take(p) == b.take(p) && (p == a.len()
                || p < b.len() && a[p] < b[p]) {
            let p = choose|p: int|
                0 <= p <= a.len() && p <= b.len() && #[trigger] a.take(p) == b.take(p) && (p
                    == a.len() || p < b.len() && a[p] < b[p]);
            assert(p > 0);
            assert forall|i: int| 0 <= i < p - 1 implies #[trigger] c.take(p - 1)[i] == d.take(
                p - 1,
            )[i] by {
                assert(a.take(p)[i + 1] == b.take(p)[i + 1]);
            }
            assert(c.take(p - 1) =~= d.take(p - 1));
        }
    } else {
        assert forall|p: int|
            0 < p <= a.len() && p <= b.len() implies #[trigger] a.take(p) != b.take(p) by {
            assert(a.take(p)[0] == a[0] && b.take(p)[0] == b[0]);
        }
        assert(a.take(0) =~= b.take(0));
    }
}

/// A file is a shard if and only if something comes before its extension `.safetensors`.
pub proof fn law_shards_by_extension(stem: Seq<char>, name: Seq<char>)
    ensures
        stem.len() > 0 ==> is_shard_name(stem + ".safetensors"@),
        is_shard_name(name) ==> name == name.take(name.len() - 12) + ".safetensors"@ && name.len()
            > 12,
{
    reveal_strlit(".safetensors");
    let e = ".safetensors"@;
    let n = stem + e;
    assert(n.subrange(n.len() - e.len(), n.len() as int) =~= e);
    if is_shard_name(name) {
        assert(name =~= name.take(name.len() - 12) + name.skip(name.len() - 12));
    }
}

/// A table entry describes a tensor if and only if it ends no earlier than it starts, its
/// elements can be counted, and its span is as long as they are, where that is known.
pub proof fn law_which_entries_describe(name: Seq<char>, e: StEntryV, index: u32)
    ensures
        ({
            let r = entry_described(name, e, index);
            let n = checked_product(e.shape);
            let span = e.end - e.start;
            let fits = match n {
                None => false,
                Some(n) => {
                    &&& e.dtype == "F32"@ && 4 * n <= u64::MAX ==> span == 4 * n
                    &&& e.dtype == "F16"@ && 2 * n <= u64::MAX ==> span == 2 * n
                    &&& e.dtype == "BF16"@ && 2 * n <= u64::MAX ==> span == 2 * n
                },
            };
            &&& r is Ok <==> e.start <= e.end && fits
            &&& r is Err ==> r->Err_0 is Malformed
            &&& e.end < e.start ==> r->Err_0->Malformed_context == "safetensors data_offsets"@
            &&& e.start <= e.end && n is None ==> r->Err_0->Malformed_context
                == "safetensors shape"@
        }),
{
    reveal_strlit("F32");
    reveal_strlit("F16");
    reveal_strlit("BF16");
    assert("F32"@[1] == '3' && "F16"@[1] == '1' && "BF16"@[1] == 'F');
    if checked_product(e.shape) is Some {
        let n = checked_product(e.shape)->0;
        assert(n / 1 == n && n % 1 == 0);
        assert(n / 1 * 4 == 4 * n && n / 1 * 2 == 2 * n);
        let d = st_dtype(e.dtype);
        if d is F32 {
            assert(byte_len(d, n) == if 4 * n <= u64::MAX {
                Some(4 * n)
            } else {
                None::<nat>
            });
        } else if d is F16 || d is BF16 {
            assert(byte_len(d, n) == if 2 * n <= u64::MAX {
                Some(2 * n)
            } else {
                None::<nat>
            });
        }
    }
}

/// How many elements a shape has: the product of its axes, where it fits, and each axis more
/// multiplies it.
pub proof fn law_elements_of_a_shape(shape: Seq<u64>, n: u64)
    ensures
        checked_product(Seq::<u64>::empty()) == Some(1nat),
        checked_product(shape.push(n)) == match checked_product(shape) {
            Some(p) => if p * n <= u64::MAX {
                Some((p * n) as nat)
            } else {
                None
            },
            None => None,
        },
{
    assert(shape.push(n).drop_last() =~= shape);
}

} // verus!
