//! The functions that emitted code calls and those that it offers, by name and
//! parameters.

use vstd::prelude::*;
use vstd::string::StringExecFns;

use crate::codegen::loopir::{attention_name, gemm_name, gemv_name, isa_name, isa_part};
use crate::codegen::plan::Isa;
use crate::formats::desc::{DType, DTypeV};
use crate::text::{chars_of, dec, dec_text, law_decimal_round_trip};

verus! {

/// The type of a parameter.
#[derive(Debug, Clone, Copy, PartialEq, Eq, Structural)]
pub enum Ty {
    Ptr,
    I32,
    I64,
}

/// A function that returns nothing: its name and its parameters.
#[derive(Debug, PartialEq, Eq)]
pub struct Decl {
    pub name: String,
    pub params: Vec<Ty>,
}

/// The model of a [`Decl`].
#[verifier::ext_equal]
pub struct DeclV {
    pub name: Seq<char>,
    pub params: Seq<Ty>,
}

impl View for Decl {
    type V = DeclV;

    open spec fn view(&self) -> DeclV {
        DeclV { name: self.name@, params: self.params@ }
    }
}

/// The models of a list of declarations.
pub open spec fn decls_view(s: Seq<Decl>) -> Seq<DeclV> {
    s.map_values(|d: Decl| d@)
}

/// `p` pointers and then `n` integers.
pub open spec fn signature(p: nat, n: nat) -> Seq<Ty> {
    Seq::new(
        p + n,
        |i: int|
            if i < p {
                Ty::Ptr
            } else {
                Ty::I64
            },
    )
}

/// A declaration with `p` pointers and then `n` integers.
pub open spec fn decl(name: Seq<char>, p: nat, n: nat) -> DeclV {
    DeclV { name, params: signature(p, n) }
}

fn ptrs_then_ints(p: usize, n: usize) -> (v: Vec<Ty>)
    requires
        p + n <= 100,
    ensures
        v@ == signature(p as nat, n as nat),
{
    let mut v: Vec<Ty> = Vec::new();
    let mut i: usize = 0;
    while i < p + n
        invariant
            p + n <= 100,
            i <= p + n,
            v@ == signature(p as nat, n as nat).take(i as int),
        decreases p + n - i,
    {
        if i < p {
            v.push(Ty::Ptr);
        } else {
            v.push(Ty::I64);
        }
        i += 1;
        assert(v@ =~= signature(p as nat, n as nat).take(i as int));
    }
    assert(v@ =~= signature(p as nat, n as nat));
    v
}

fn declare(v: &mut Vec<Decl>, name: String, p: usize, n: usize)
    requires
        p + n <= 100,
    ensures
        decls_view(final(v)@) == decls_view(old(v)@).push(decl(name@, p as nat, n as nat)),
{
    let ghost before = decls_view(v@);
    v.push(Decl { name, params: ptrs_then_ints(p, n) });
    assert(decls_view(v@) =~= before.push(decl(name@, p as nat, n as nat)));
}

/// The kernels that multiply weights of a stored type: with one row
/// `(y, x, w, k, row_start, row_end)`, and with a panel
/// `(y, x, w, k, m, rows, row_start, row_end)`.
pub open spec fn product_kernels(d: DTypeV, isa: Isa) -> Seq<DeclV> {
    seq![decl(gemv_name(d, isa), 3, 3), decl(gemm_name(d, isa), 3, 5)]
}

/// The kernel that packs a row `(x, y, k)` for weights of a packed type.
pub open spec fn quantize_name(d: DTypeV, isa: Isa) -> Seq<char> {
    (if d == DTypeV::Q8_0 {
        "inferno_quantize_row_q8a_"@
    } else {
        "inferno_quantize_row_q8k_"@
    }) + isa_name(isa)
}

/// The kernel that packs a row for weights of a packed type.
pub fn quantize_symbol(dtype: &DType, isa: Isa) -> (s: String)
    requires
        dtype@ is Q8_0 || dtype@ is Q4_K,
    ensures
        s@ == quantize_name(dtype@, isa),
{
    let mut s = match dtype {
        DType::Q8_0 => "inferno_quantize_row_q8a_".to_owned(),
        _ => "inferno_quantize_row_q8k_".to_owned(),
    };
    s.append(isa_part(isa).as_str());
    s
}

/// All functions that emitted code may call, in the order in which they are
/// declared.
pub open spec fn kernel_table() -> Seq<DeclV> {
    product_kernels(DTypeV::F32, Isa::Scalar) + product_kernels(DTypeV::F32, Isa::Avx2)
        + product_kernels(DTypeV::Q8_0, Isa::Scalar) + product_kernels(DTypeV::Q8_0, Isa::Avx2)
        + product_kernels(DTypeV::Q4_K, Isa::Scalar) + product_kernels(DTypeV::Q4_K, Isa::Avx2)
        + seq![
        decl(quantize_name(DTypeV::Q8_0, Isa::Scalar), 2, 1),
        decl(quantize_name(DTypeV::Q8_0, Isa::Avx2), 2, 1),
        decl(quantize_name(DTypeV::Q4_K, Isa::Scalar), 2, 1),
        decl(quantize_name(DTypeV::Q4_K, Isa::Avx2), 2, 1),
        decl(attention_name(Isa::Scalar), 4, 7),
        decl(attention_name(Isa::Avx2), 4, 7),
        decl("inferno_par_gemv"@, 4, 2),
        decl("inferno_par_gemm"@, 4, 3),
        decl("inferno_par_attention"@, 4, 10),
        decl("inferno_par_token_loop"@, 2, 1),
    ]
}

fn declare_products(v: &mut Vec<Decl>, dtype: &DType, isa: Isa)
    ensures
        decls_view(final(v)@) == decls_view(old(v)@) + product_kernels(dtype@, isa),
{
    let ghost before = decls_view(v@);
    declare(v, crate::codegen::loopir::gemv_symbol(dtype, isa), 3, 3);
    declare(v, crate::codegen::loopir::gemm_symbol(dtype, isa), 3, 5);
    assert(decls_view(v@) =~= before + product_kernels(dtype@, isa));
}

/// All functions that emitted code may call.
pub fn declare_kernels() -> (v: Vec<Decl>)
    ensures
        decls_view(v@) == kernel_table(),
{
    let mut v: Vec<Decl> = Vec::new();
    declare_products(&mut v, &DType::F32, Isa::Scalar);
    declare_products(&mut v, &DType::F32, Isa::Avx2);
    declare_products(&mut v, &DType::Q8_0, Isa::Scalar);
    declare_products(&mut v, &DType::Q8_0, Isa::Avx2);
    declare_products(&mut v, &DType::Q4_K, Isa::Scalar);
    declare_products(&mut v, &DType::Q4_K, Isa::Avx2);
    declare(&mut v, quantize_symbol(&DType::Q8_0, Isa::Scalar), 2, 1);
    declare(&mut v, quantize_symbol(&DType::Q8_0, Isa::Avx2), 2, 1);
    declare(&mut v, quantize_symbol(&DType::Q4_K, Isa::Scalar), 2, 1);
    declare(&mut v, quantize_symbol(&DType::Q4_K, Isa::Avx2), 2, 1);
    declare(&mut v, crate::codegen::loopir::attention_symbol(Isa::Scalar), 4, 7);
    declare(&mut v, crate::codegen::loopir::attention_symbol(Isa::Avx2), 4, 7);
    declare(&mut v, "inferno_par_gemv".to_owned(), 4, 2);
    declare(&mut v, "inferno_par_gemm".to_owned(), 4, 3);
    declare(&mut v, "inferno_par_attention".to_owned(), 4, 10);
    declare(&mut v, "inferno_par_token_loop".to_owned(), 2, 1);
    assert(decls_view(v@) =~= kernel_table());
    v
}

/// The batched entry point
/// `(tokens, n, pos_off, weights, kv, arena, logits_out)` and the one for a single
/// token `(token, pos, weights, kv, arena, logits_out)`.
pub open spec fn entry_table() -> Seq<DeclV> {
    seq![
        DeclV {
            name: "prefill"@,
            params: seq![Ty::Ptr, Ty::I64, Ty::I64, Ty::Ptr, Ty::Ptr, Ty::Ptr, Ty::Ptr],
        },
        DeclV {
            name: "decode_step"@,
            params: seq![Ty::I32, Ty::I64, Ty::Ptr, Ty::Ptr, Ty::Ptr, Ty::Ptr],
        },
    ]
}

/// The two functions that emitted code offers.
pub fn declare_entry_points() -> (v: Vec<Decl>)
    ensures
        decls_view(v@) == entry_table(),
{
    let mut v: Vec<Decl> = Vec::new();
    let mut p: Vec<Ty> = Vec::new();
    p.push(Ty::Ptr);
    p.push(Ty::I64);
    p.push(Ty::I64);
    p.push(Ty::Ptr);
    p.push(Ty::Ptr);
    p.push(Ty::Ptr);
    p.push(Ty::Ptr);
    assert(p@ =~= entry_table()[0].params);
    let mut q: Vec<Ty> = Vec::new();
    q.push(Ty::I32);
    q.push(Ty::I64);
    q.push(Ty::Ptr);
    q.push(Ty::Ptr);
    q.push(Ty::Ptr);
    q.push(Ty::Ptr);
    assert(q@ =~= entry_table()[1].params);
    v.push(Decl { name: "prefill".to_owned(), params: p });
    v.push(Decl { name: "decode_step".to_owned(), params: q });
    assert(decls_view(v@) =~= entry_table());
    v
}

/// Whether a function of that name and shape is declared.
pub open spec fn is_declared(name: Seq<char>, p: nat, n: nat) -> bool {
    exists|i: int| 0 <= i < kernel_table().len() && #[trigger] kernel_table()[i] == decl(name, p, n)
}

/// Every kernel that can be chosen for a stored type is declared, with the shape
/// that its callers rely on.
pub proof fn law_kernels_are_declared(d: DTypeV, isa: Isa)
    ensures
        is_declared(gemv_name(d, isa), 3, 3),
        is_declared(gemm_name(d, isa), 3, 5),
        is_declared(attention_name(isa), 4, 7),
        d is Q8_0 || d is Q4_K ==> is_declared(quantize_name(d, isa), 2, 1),
{
    let t = kernel_table();
    let at = (match d {
        DTypeV::Q8_0 => 4int,
        DTypeV::Q4_K => 8,
        _ => 0,
    }) + (match isa {
        Isa::Scalar => 0int,
        Isa::Avx2 => 2,
    });
    assert(t[at] == decl(gemv_name(d, isa), 3, 3));
    assert(t[at + 1] == decl(gemm_name(d, isa), 3, 5));
    let j = match isa {
        Isa::Scalar => 0int,
        Isa::Avx2 => 1,
    };
    assert(t[16 + j] == decl(attention_name(isa), 4, 7));
    if d is Q8_0 {
        assert(t[12 + j] == decl(quantize_name(d, isa), 2, 1));
    }
    if d is Q4_K {
        assert(t[14 + j] == decl(quantize_name(d, isa), 2, 1));
    }
}

/// Whether a character may stand in a name: an ASCII letter or digit.
pub open spec fn plain(c: char) -> bool {
    ('a' <= c && c <= 'z') || ('A' <= c && c <= 'Z') || ('0' <= c && c <= '9')
}

/// A text with every other character replaced.
pub open spec fn sanitized(s: Seq<char>) -> Seq<char> {
    Seq::new(
        s.len(),
        |i: int|
            if plain(s[i]) {
                s[i]
            } else {
                '_'
            },
    )
}

/// The name of the function that holds the body of the `n`th loop over tokens.
pub open spec fn outlined(label: Seq<char>, n: u64) -> Seq<char> {
    "tok_body."@ + sanitized(label) + seq!['.'] + dec(n as nat)
}

/// The name of the function that holds the body of the `n`th loop over tokens, which
/// is that of a step with this label.
pub fn outlined_name(label: &str, n: u64) -> (s: String)
    ensures
        s@ == outlined(label@, n),
{
    let chars = chars_of(label);
    let total: usize = chars.len();
    let mut s = "tok_body.".to_owned();
    let mut i: usize = 0;
    while i < total
        invariant
            i <= total == chars@.len(),
            chars@ == label@,
            s@ == "tok_body."@ + sanitized(label@).take(i as int),
        decreases total - i,
    {
        let c = chars[i];
        let ghost prior = sanitized(label@).take(i as int);
        if ('a' <= c && c <= 'z') || ('A' <= c && c <= 'Z') || ('0' <= c && c <= '9') {
            s.push(c);
        } else {
            s.push('_');
        }
        proof {
            assert(sanitized(label@).take(i + 1) =~= prior.push(sanitized(label@)[i as int]));
            assert(s@ =~= "tok_body."@ + sanitized(label@).take(i + 1));
        }
        i = i + 1;
    }
    proof {
        assert(sanitized(label@).take(i as int) =~= sanitized(label@));
    }
    s.push('.');
    s.append(dec_text(n).as_str());
    proof {
        assert(s@ =~= outlined(label@, n));
    }
    s
}

/// No two loops share a function: the names of different loops differ, whatever their
/// labels are.
pub proof fn law_outlined_names_differ(a: Seq<char>, i: u64, b: Seq<char>, j: u64)
    requires
        i != j,
    ensures
        outlined(a, i) != outlined(b, j),
{
    let x = outlined(a, i);
    let y = outlined(b, j);
    let start = "tok_body."@.len() as int;
    let di = dec(i as nat);
    let dj = dec(j as nat);
    let sa = sanitized(a);
    let sb = sanitized(b);
    if x == y {
        assert(x[start + sa.len()] == '.');
        assert(y[start + sb.len()] == '.');
        if sa.len() < sb.len() {
            assert(y[start + sa.len()] == sb[sa.len() as int]);
        }
        if sb.len() < sa.len() {
            assert(x[start + sb.len()] == sa[sb.len() as int]);
        }
        let at = start + sa.len() + 1;
        assert(x.skip(at) =~= di);
        assert(y.skip(at) =~= dj);
        law_decimal_round_trip(i);
        law_decimal_round_trip(j);
    }
}

} // verus!
