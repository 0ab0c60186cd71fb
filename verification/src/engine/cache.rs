//! Where compiled models are kept: a directory named by a hash of everything that
//! the code depends on.

use vstd::prelude::*;
use vstd::string::StringExecFns;
use vstd::utf8::{encode_utf8, is_ascii_chars, is_ascii_chars_encode_utf8};

use crate::bytes::{
    le_bytes, lemma_le_bytes_len, lemma_le_round_trip, lemma_pow256_values, put_bytes, put_le,
};
use crate::codegen::emit::{CompileOptions, HOST_ABI_VERSION, INFERNO_VERSION};
use crate::text::strings_view;

verus! {

/// The SHA-256 digest of some bytes.
pub uninterp spec fn sha256(bytes: Seq<u8>) -> Seq<u8>;

/// `sha2::Sha256::digest`: the SHA-256 digest of the bytes, which is 32 bytes long
/// and depends on them alone.
#[verifier::external_body]
fn digest(bytes: &[u8]) -> (r: Vec<u8>)
    ensures
        r@ == sha256(bytes@),
        r@.len() == 32,
{
    <sha2::Sha256 as sha2::Digest>::digest(bytes).to_vec()
}

/// The hexadecimal digit of a number below 16.
pub open spec fn hex_digit(n: int) -> char {
    if n < 10 {
        ('0' as u32 + n) as char
    } else {
        ('a' as u32 + (n - 10)) as char
    }
}

/// Two digits for each byte, the higher one first.
pub open spec fn hex(bytes: Seq<u8>) -> Seq<char> {
    Seq::new(
        2 * bytes.len(),
        |i: int|
            if i % 2 == 0 {
                hex_digit(bytes[i / 2] as int / 16)
            } else {
                hex_digit(bytes[i / 2] as int % 16)
            },
    )
}

fn hex_char(n: u8) -> (c: char)
    requires
        n < 16,
    ensures
        c == hex_digit(n as int),
{
    if n < 10 {
        (48 + n) as char
    } else {
        (87 + n) as char
    }
}

/// The bytes in hexadecimal.
fn hex_text(bytes: &[u8]) -> (s: String)
    ensures
        s@ == hex(bytes@),
{
    let n: usize = bytes.len();
    let mut s = String::new();
    let mut i: usize = 0;
    assert(s@ =~= hex(bytes@).take(0));
    while i < n
        invariant
            i <= n == bytes@.len(),
            s@ == hex(bytes@).take(2 * i),
        decreases n - i,
    {
        let b: u8 = bytes[i];
        s.push(hex_char(b / 16));
        s.push(hex_char(b % 16));
        assert(hex(bytes@)[2 * i] == hex_digit(b as int / 16));
        assert(hex(bytes@)[2 * i + 1] == hex_digit(b as int % 16));
        i += 1;
        assert(s@ =~= hex(bytes@).take(2 * i));
    }
    assert(s@ =~= hex(bytes@));
    s
}

/// Different bytes have different texts.
pub proof fn law_hex_tells_apart(a: Seq<u8>, b: Seq<u8>)
    requires
        hex(a) == hex(b),
    ensures
        a == b,
{
    assert(hex(a).len() == 2 * a.len());
    assert(hex(b).len() == 2 * b.len());
    assert forall|i: int| 0 <= i < a.len() implies a[i] == b[i] by {
        assert(hex(a)[2 * i] == hex_digit(a[i] as int / 16));
        assert(hex(b)[2 * i] == hex_digit(b[i] as int / 16));
        assert(hex(a)[2 * i + 1] == hex_digit(a[i] as int % 16));
        assert(hex(b)[2 * i + 1] == hex_digit(b[i] as int % 16));
        lemma_digit_value(a[i] as int / 16);
        lemma_digit_value(b[i] as int / 16);
        lemma_digit_value(a[i] as int % 16);
        lemma_digit_value(b[i] as int % 16);
    }
    assert(a =~= b);
}

proof fn lemma_digit_value(n: int)
    requires
        0 <= n < 16,
    ensures
        hex_digit(n) as int == if n < 10 {
            48 + n
        } else {
            87 + n
        },
{
}

/// What [`content_hash`] gives.
pub open spec fn hash_text(bytes: Seq<u8>) -> Seq<char> {
    hex(sha256(bytes))
}

/// The SHA-256 digest of the bytes, in hexadecimal.
pub fn content_hash(bytes: &[u8]) -> (s: String)
    ensures
        s@ == hash_text(bytes@),
        s@.len() == 64,
{
    let d = digest(bytes);
    hex_text(d.as_slice())
}

/// What the key of a compiled model is a hash of, given the hash of the model: that
/// hash, the machine, the longest sequence, the versions of the program and of what
/// its code calls, and the options.
pub open spec fn key_input(
    model_hash: Seq<char>,
    target: Seq<char>,
    max_seq_len: nat,
    opts: CompileOptions,
) -> Seq<u8> {
    encode_utf8(model_hash) + encode_utf8(target) + le_bytes(max_seq_len, 8) + encode_utf8(
        INFERNO_VERSION@,
    ) + encode_utf8(HOST_ABI_VERSION@) + seq![
        if opts.profile {
            1u8
        } else {
            0u8
        },
    ] + le_bytes(opts.prefill_tile as nat, 8)
}

/// What [`key_of`] gives.
pub open spec fn key_text(
    model_hash: Seq<char>,
    target: Seq<char>,
    max_seq_len: nat,
    opts: CompileOptions,
) -> Seq<char> {
    hash_text(key_input(model_hash, target, max_seq_len, opts))
}

/// The key of a compiled model, given the hash of the model.
pub fn key_of(model_hash: &str, target: &str, max_seq_len: usize, opts: &CompileOptions) -> (s:
    String)
    ensures
        s@ == key_text(model_hash@, target@, max_seq_len as nat, *opts),
        s@.len() == 64,
{
    let mut buf: Vec<u8> = Vec::new();
    put_bytes(&mut buf, model_hash.as_bytes());
    put_bytes(&mut buf, target.as_bytes());
    put_le(&mut buf, max_seq_len as u64, 8);
    put_bytes(&mut buf, INFERNO_VERSION.as_bytes());
    put_bytes(&mut buf, HOST_ABI_VERSION.as_bytes());
    buf.push(
        if opts.profile {
            1
        } else {
            0
        },
    );
    put_le(&mut buf, opts.prefill_tile as u64, 8);
    proof {
        assert(buf@ =~= key_input(model_hash@, target@, max_seq_len as nat, *opts));
    }
    content_hash(buf.as_slice())
}

/// The key of a compiled model: `model` is its content, `target` describes the
/// machine.
pub fn cache_key(model: &[u8], target: &str, max_seq_len: usize, opts: &CompileOptions) -> (s:
    String)
    ensures
        s@ == key_text(hash_text(model@), target@, max_seq_len as nat, *opts),
        s@.len() == 64,
{
    let h = content_hash(model);
    key_of(h.as_str(), target, max_seq_len, opts)
}

/// Whatever the code depends on changes what the key is a hash of: from it, each of
/// the inputs can be told.
pub proof fn law_key_tells_inputs_apart(
    h1: Seq<char>,
    t1: Seq<char>,
    n1: nat,
    o1: CompileOptions,
    h2: Seq<char>,
    t2: Seq<char>,
    n2: nat,
    o2: CompileOptions,
)
    requires
        is_ascii_chars(h1),
        is_ascii_chars(h2),
        h1.len() == h2.len(),
        n1 <= u64::MAX,
        n2 <= u64::MAX,
        o1.prefill_tile <= u64::MAX,
        o2.prefill_tile <= u64::MAX,
        key_input(h1, t1, n1, o1) == key_input(h2, t2, n2, o2),
    ensures
        h1 == h2,
        t1 == t2,
        n1 == n2,
        o1 == o2,
{
    is_ascii_chars_encode_utf8(h1);
    is_ascii_chars_encode_utf8(h2);
    let a = encode_utf8(h1);
    let b = encode_utf8(h2);
    let u = encode_utf8(t1);
    let v = encode_utf8(t2);
    let ver = encode_utf8(INFERNO_VERSION@);
    let abi = encode_utf8(HOST_ABI_VERSION@);
    let p1 = seq![
        if o1.profile {
            1u8
        } else {
            0u8
        },
    ];
    let p2 = seq![
        if o2.profile {
            1u8
        } else {
            0u8
        },
    ];
    let x1 = le_bytes(n1, 8);
    let x2 = le_bytes(n2, 8);
    let y1 = le_bytes(o1.prefill_tile as nat, 8);
    let y2 = le_bytes(o2.prefill_tile as nat, 8);
    lemma_le_bytes_len(n1, 8);
    lemma_le_bytes_len(n2, 8);
    lemma_le_bytes_len(o1.prefill_tile as nat, 8);
    lemma_le_bytes_len(o2.prefill_tile as nat, 8);
    let k1 = key_input(h1, t1, n1, o1);
    let k2 = key_input(h2, t2, n2, o2);
    let n = a.len() as int;
    let tail = 8 + ver.len() + abi.len() + 1 + 8;
    assert(k1.len() == n + u.len() + tail);
    assert(k2.len() == n + v.len() + tail);
    let m = n + u.len();
    assert(a =~= k1.take(n));
    assert(b =~= k2.take(n));
    assert(u =~= k1.subrange(n, m));
    assert(v =~= k2.subrange(n, m));
    assert(x1 =~= k1.subrange(m, m + 8));
    assert(x2 =~= k2.subrange(m, m + 8));
    let q = m + 8 + ver.len() + abi.len();
    assert(k1[q] == p1[0]);
    assert(k2[q] == p2[0]);
    assert(y1 =~= k1.subrange(q + 1, q + 9));
    assert(y2 =~= k2.subrange(q + 1, q + 9));
    lemma_pow256_values();
    lemma_le_round_trip(n1, 8);
    lemma_le_round_trip(n2, 8);
    lemma_le_round_trip(o1.prefill_tile as nat, 8);
    lemma_le_round_trip(o2.prefill_tile as nat, 8);
    vstd::utf8::encode_utf8_decode_utf8(t1);
    vstd::utf8::encode_utf8_decode_utf8(t2);
    vstd::utf8::encode_utf8_decode_utf8(h1);
    vstd::utf8::encode_utf8_decode_utf8(h2);
}

/// Hashes are texts of one length that a key can hold.
pub proof fn law_hashes_are_plain(bytes: Seq<u8>)
    ensures
        is_ascii_chars(hex(bytes)),
{
    assert forall|i: int| 0 <= i < hex(bytes).len() implies '\0' <= #[trigger] hex(bytes)[i]
        <= '\u{7f}' by {
        lemma_digit_value(bytes[i / 2] as int / 16);
        lemma_digit_value(bytes[i / 2] as int % 16);
    }
}

/// The texts of an optional text.
pub open spec fn opt_text_view(o: Option<String>) -> Option<Seq<char>> {
    match o {
        Some(s) => Some(s@),
        None => None,
    }
}

/// Where the model of a key is kept, as the parts of a path: below the cache
/// directory that the environment names, or below the home directory, or here.
pub open spec fn cache_path(xdg: Option<Seq<char>>, home: Option<Seq<char>>, key: Seq<char>) -> Seq<
    Seq<char>,
> {
    let base = match xdg {
        Some(d) => seq![d],
        None => match home {
            Some(h) => seq![h, ".cache"@],
            None => seq![".cache"@],
        },
    };
    base + seq!["inferno"@, key]
}

/// Where the model of a key is kept, as the parts of a path. `xdg` and `home` are
/// what the environment says of `XDG_CACHE_HOME` and `HOME`.
pub fn cache_dir(xdg: Option<String>, home: Option<String>, key: &str) -> (r: Vec<String>)
    ensures
        strings_view(r@) == cache_path(opt_text_view(xdg), opt_text_view(home), key@),
{
    let ghost want = cache_path(opt_text_view(xdg), opt_text_view(home), key@);
    let mut r: Vec<String> = Vec::new();
    match xdg {
        Some(d) => {
            r.push(d);
        },
        None => match home {
            Some(h) => {
                r.push(h);
                r.push(".cache".to_owned());
            },
            None => {
                r.push(".cache".to_owned());
            },
        },
    }
    r.push("inferno".to_owned());
    r.push(key.to_owned());
    assert(strings_view(r@) =~= want);
    r
}

} // verus!
