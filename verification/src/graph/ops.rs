//! The operations of a graph, one element at a time: what a compiled model is held
//! against. Numbers are single-precision bits; the elementary functions come from
//! the caller.

use vstd::arithmetic::div_mod::lemma_fundamental_div_mod_converse;
use vstd::prelude::*;

use crate::float::single::{
    f32_add, f32_div, f32_max, f32_mul, f32_neg, f32_of_count, is_nan, larger, lemma_plus_zero,
    lemma_sum_sign, negated, of_int, product, quotient, sum, INF, NAN, SIGN,
};
use crate::formats::desc::RopeStyle;
use crate::graph::error::{GraphError, GraphFault};

verus! {

/// The bits of one.
pub const ONE: u32 = 0x3F80_0000;

/// The bits of minus two.
pub const MINUS_TWO: u32 = 0xC000_0000;

/// The elementary functions, on single-precision bits.
pub struct Math<Q, E, P, T> {
    pub sqrt: Q,
    pub exp: E,
    pub pow: P,
    pub sin_cos: T,
}

/// The model of [`Math`].
#[verifier::ext_equal]
pub struct MathV {
    pub sqrt: spec_fn(u32) -> u32,
    pub exp: spec_fn(u32) -> u32,
    pub pow: spec_fn(u32, u32) -> u32,
    pub sin_cos: spec_fn(u32) -> (u32, u32),
}

impl<
    Q: Fn(u32) -> u32,
    E: Fn(u32) -> u32,
    P: Fn(u32, u32) -> u32,
    T: Fn(u32) -> (u32, u32),
> Math<Q, E, P, T> {
    /// Whether the four are functions: defined everywhere, with one result for one
    /// argument.
    pub open spec fn lawful(&self) -> bool {
        &&& forall|x: u32| #[trigger] self.sqrt.requires((x,))
        &&& forall|x: u32, y: u32, z: u32| #[trigger]
            self.sqrt.ensures((x,), y) && #[trigger] self.sqrt.ensures((x,), z) ==> y == z
        &&& forall|x: u32| #[trigger] self.exp.requires((x,))
        &&& forall|x: u32, y: u32, z: u32| #[trigger]
            self.exp.ensures((x,), y) && #[trigger] self.exp.ensures((x,), z) ==> y == z
        &&& forall|a: u32, b: u32| #[trigger] self.pow.requires((a, b))
        &&& forall|a: u32, b: u32, y: u32, z: u32| #[trigger]
            self.pow.ensures((a, b), y) && #[trigger] self.pow.ensures((a, b), z) ==> y == z
        &&& forall|x: u32| #[trigger] self.sin_cos.requires((x,))
        &&& forall|x: u32, y: (u32, u32), z: (u32, u32)| #[trigger]
            self.sin_cos.ensures((x,), y) && #[trigger] self.sin_cos.ensures((x,), z) ==> y == z
    }

    /// What the four give.
    pub open spec fn model(&self) -> MathV {
        MathV {
            sqrt: |x: u32| choose|y: u32| self.sqrt.ensures((x,), y),
            exp: |x: u32| choose|y: u32| self.exp.ensures((x,), y),
            pow: |a: u32, b: u32| choose|y: u32| self.pow.ensures((a, b), y),
            sin_cos: |x: u32| choose|y: (u32, u32)| self.sin_cos.ensures((x,), y),
        }
    }

    /// The square root.
    pub fn root(&self, x: u32) -> (r: u32)
        requires
            self.lawful(),
        ensures
            r == (self.model().sqrt)(x),
    {
        (self.sqrt)(x)
    }

    fn exponential(&self, x: u32) -> (r: u32)
        requires
            self.lawful(),
        ensures
            r == (self.model().exp)(x),
    {
        (self.exp)(x)
    }

    /// The first to the power of the second.
    pub fn power(&self, a: u32, b: u32) -> (r: u32)
        requires
            self.lawful(),
        ensures
            r == (self.model().pow)(a, b),
    {
        (self.pow)(a, b)
    }

    fn turn(&self, x: u32) -> (r: (u32, u32))
        requires
            self.lawful(),
        ensures
            r == (self.model().sin_cos)(x),
    {
        (self.sin_cos)(x)
    }
}

/// A dense tensor: its shape, outermost dimension first, and its numbers in that
/// order.
#[derive(Debug, PartialEq, Eq)]
pub struct Tensor {
    pub shape: Vec<usize>,
    pub data: Vec<u32>,
}

/// The model of a [`Tensor`].
#[verifier::ext_equal]
pub struct ArrayV {
    pub shape: Seq<usize>,
    pub data: Seq<u32>,
}

impl View for Tensor {
    type V = ArrayV;

    open spec fn view(&self) -> ArrayV {
        ArrayV { shape: self.shape@, data: self.data@ }
    }
}

impl Tensor {
    pub fn rows(&self) -> (n: usize)
        requires
            self@.shape.len() >= 1,
        ensures
            n == self@.shape[0],
    {
        self.shape[0]
    }

    pub fn cols(&self) -> (n: usize)
        requires
            self@.shape.len() >= 2,
        ensures
            n == self@.shape[1],
    {
        self.shape[1]
    }
}

fn two_axes(a: usize, b: usize) -> (v: Vec<usize>)
    ensures
        v@ == seq![a, b],
{
    let mut v: Vec<usize> = Vec::new();
    v.push(a);
    v.push(b);
    assert(v@ =~= seq![a, b]);
    v
}

fn copy_shape(shape: &Vec<usize>) -> (v: Vec<usize>)
    ensures
        v@ == shape@,
{
    let mut v: Vec<usize> = Vec::new();
    let mut i: usize = 0;
    while i < shape.len()
        invariant
            i <= shape@.len(),
            v@ == shape@.take(i as int),
        decreases shape.len() - i,
    {
        v.push(shape[i]);
        i += 1;
        assert(v@ =~= shape@.take(i as int));
    }
    assert(v@ =~= shape@);
    v
}

/// Row `s`, column `n` of a table with `w` columns lies at `s * w + n`.
pub proof fn lemma_cell(s: int, n: int, w: int)
    requires
        0 <= n < w,
        0 <= s,
    ensures
        (s * w + n) / w == s,
        (s * w + n) % w == n,
{
    lemma_fundamental_div_mod_converse(s * w + n, w, s, n);
}

/// A cell of a table lies within it.
proof fn lemma_cell_within(s: int, n: int, w: int, rows: int)
    requires
        0 <= n < w,
        0 <= s < rows,
    ensures
        0 <= s * w + n < rows * w,
        (s + 1) * w == s * w + w,
        (s + 1) * w <= rows * w,
{
    assert((s + 1) * w == s * w + w) by (nonlinear_arith);
    assert((s + 1) * w <= rows * w) by (nonlinear_arith)
        requires
            s + 1 <= rows,
            w > 0,
    ;
    assert(0 <= s * w) by (nonlinear_arith)
        requires
            0 <= s,
            w > 0,
    ;
}

/// The first of the first `k` tokens that is not below `vocab`.
pub open spec fn first_unknown(ids: Seq<u32>, vocab: nat, k: nat) -> Option<u32>
    decreases k,
{
    if k == 0 {
        None
    } else {
        match first_unknown(ids, vocab, (k - 1) as nat) {
            Some(id) => Some(id),
            None => if ids[k - 1] >= vocab {
                Some(ids[k - 1])
            } else {
                None
            },
        }
    }
}

proof fn lemma_unknown_stays(ids: Seq<u32>, vocab: nat, k: nat, n: nat)
    requires
        k <= n,
        first_unknown(ids, vocab, k) is Some,
    ensures
        first_unknown(ids, vocab, n) == first_unknown(ids, vocab, k),
    decreases n - k,
{
    if k < n {
        lemma_unknown_stays(ids, vocab, k, (n - 1) as nat);
    }
}

/// The rows of `table` that the tokens name, one below the other.
pub open spec fn looked_up(ids: Seq<u32>, table: Seq<u32>, hidden: nat) -> Seq<u32> {
    Seq::new(
        ids.len() * hidden,
        |p: int| table[ids[p / hidden as int] * hidden + p % hidden as int],
    )
}

/// What [`embed`] gives.
pub open spec fn embedded(ids: Seq<u32>, table: Seq<u32>, vocab: usize, hidden: usize) -> Result<
    ArrayV,
    GraphFault,
> {
    match first_unknown(ids, vocab as nat, ids.len()) {
        Some(id) => Err(GraphFault::TokenOutOfRange { id, vocab: vocab as nat }),
        None => Ok(
            ArrayV {
                shape: seq![ids.len() as usize, hidden],
                data: looked_up(ids, table, hidden as nat),
            },
        ),
    }
}

/// Looks up the row of each token.
pub fn embed(ids: &[u32], table: &[u32], vocab: usize, hidden: usize) -> (r: Result<
    Tensor,
    GraphError,
>)
    requires
        ids@.len() * hidden <= usize::MAX,
        forall|i: int|
            0 <= i < ids@.len() && #[trigger] ids@[i] < vocab ==> (ids@[i] + 1) * hidden
                <= table@.len(),
    ensures
        match r {
            Ok(t) => embedded(ids@, table@, vocab, hidden) == Ok::<ArrayV, GraphFault>(t@),
            Err(e) => embedded(ids@, table@, vocab, hidden) == Err::<ArrayV, GraphFault>(e@),
        },
{
    let n: usize = ids.len();
    let size: usize = table.len();
    let ghost want = looked_up(ids@, table@, hidden as nat);
    let mut data: Vec<u32> = Vec::with_capacity(n * hidden);
    let mut i: usize = 0;
    assert(0 * hidden == 0);
    while i < n
        invariant
            i <= n == ids@.len(),
            size == table@.len(),
            n * hidden <= usize::MAX,
            forall|i: int|
                0 <= i < ids@.len() && #[trigger] ids@[i] < vocab ==> (ids@[i] + 1) * hidden
                    <= table@.len(),
            want == looked_up(ids@, table@, hidden as nat),
            first_unknown(ids@, vocab as nat, i as nat) is None,
            data@.len() == i * hidden,
            forall|p: int| 0 <= p < data@.len() ==> data@[p] == #[trigger] want[p],
        decreases n - i,
    {
        let id: u32 = ids[i];
        let at: usize = id as usize;
        if at >= vocab {
            proof {
                lemma_unknown_stays(ids@, vocab as nat, (i + 1) as nat, n as nat);
            }
            return Err(GraphError::TokenOutOfRange { id, vocab });
        }
        let ghost before = i as int * hidden as int;
        let mut j: usize = 0;
        proof {
            assert((id + 1) * hidden == id * hidden + hidden) by (nonlinear_arith);
            assert(id * hidden >= 0) by (nonlinear_arith);
            assert((i + 1) * hidden == i * hidden + hidden) by (nonlinear_arith);
            assert((i + 1) * hidden <= n * hidden) by (nonlinear_arith)
                requires
                    i + 1 <= n,
                    hidden >= 0,
            ;
        }
        let base: usize = at * hidden;
        while j < hidden
            invariant
                j <= hidden,
                i < n == ids@.len(),
                size == table@.len(),
                at == ids@[i as int],
                base == at * hidden,
                base + hidden <= size,
                before == i * hidden,
                before >= 0,
                before + hidden <= n * hidden,
                want == looked_up(ids@, table@, hidden as nat),
                data@.len() == before + j,
                forall|p: int| 0 <= p < data@.len() ==> data@[p] == #[trigger] want[p],
            decreases hidden - j,
        {
            proof {
                lemma_cell(i as int, j as int, hidden as int);
            }
            data.push(table[base + j]);
            j += 1;
        }
        i += 1;
    }
    proof {
        assert(data@ =~= want);
    }
    Ok(Tensor { shape: two_axes(n, hidden), data })
}

/// The products of the `k` numbers of `a` from `i` on with those of `b` from `j`
/// on, added to `start` one after the other.
pub open spec fn dot(start: u32, a: Seq<u32>, i: int, b: Seq<u32>, j: int, k: nat) -> u32
    decreases k,
{
    if k == 0 {
        start
    } else {
        sum(dot(start, a, i, b, j, (k - 1) as nat), product(a[i + k - 1], b[j + k - 1]))
    }
}

/// A sum of products that starts at zero is not changed by adding zero.
pub proof fn lemma_dot_plus_zero(a: Seq<u32>, i: int, b: Seq<u32>, j: int, k: nat)
    ensures
        sum(dot(0, a, i, b, j, k), 0) == dot(0, a, i, b, j, k),
{
    lemma_dot_sign(a, i, b, j, k);
    lemma_plus_zero(dot(0, a, i, b, j, k));
}

proof fn lemma_dot_sign(a: Seq<u32>, i: int, b: Seq<u32>, j: int, k: nat)
    ensures
        dot(0, a, i, b, j, k) != SIGN,
        is_nan(dot(0, a, i, b, j, k)) ==> dot(0, a, i, b, j, k) == NAN,
    decreases k,
{
    if k > 0 {
        lemma_dot_sign(a, i, b, j, (k - 1) as nat);
        lemma_sum_sign(
            dot(0, a, i, b, j, (k - 1) as nat),
            product(a[i + k - 1], b[j + k - 1]),
        );
    }
}

/// Adds products of numbers to `start`.
pub fn dot_from(start: u32, a: &[u32], i: usize, b: &[u32], j: usize, k: usize) -> (r: u32)
    requires
        i + k <= a@.len(),
        j + k <= b@.len(),
    ensures
        r == dot(start, a@, i as int, b@, j as int, k as nat),
{
    let la: usize = a.len();
    let lb: usize = b.len();
    let mut acc: u32 = start;
    let mut t: usize = 0;
    while t < k
        invariant
            t <= k,
            i + k <= a@.len() == la,
            j + k <= b@.len() == lb,
            acc == dot(start, a@, i as int, b@, j as int, t as nat),
        decreases k - t,
    {
        acc = f32_add(acc, f32_mul(a[i + t], b[j + t]));
        t += 1;
    }
    acc
}

/// The product of row `s` of `x` with row `n` of `w`, and a bias.
pub open spec fn projected(
    x: Seq<u32>,
    w: Seq<u32>,
    k: nat,
    bias: Option<Seq<u32>>,
    s: int,
    n: int,
) -> u32 {
    sum(
        dot(0, x, s * k, w, n * k, k),
        match bias {
            Some(b) => b[n],
            None => 0,
        },
    )
}

/// What [`matmul`] gives.
pub open spec fn matmul_of(
    x: ArrayV,
    w: Seq<u32>,
    n_out: usize,
    k: usize,
    bias: Option<Seq<u32>>,
) -> ArrayV {
    ArrayV {
        shape: seq![x.shape[0], n_out],
        data: Seq::new(
            (x.shape[0] * n_out) as nat,
            |p: int| projected(x.data, w, k as nat, bias, p / n_out as int, p % n_out as int),
        ),
    }
}

/// The numbers of an optional list.
pub open spec fn opt_view(b: Option<&[u32]>) -> Option<Seq<u32>> {
    match b {
        Some(b) => Some(b@),
        None => None,
    }
}

/// The rows of `x`, of `k` numbers each, times the rows of `w`, of which there are
/// `n_out`.
pub fn matmul(x: &Tensor, w: &[u32], n_out: usize, k: usize, bias: Option<&[u32]>) -> (r: Tensor)
    requires
        x@.shape.len() >= 1,
        x@.shape[0] * n_out <= usize::MAX,
        n_out > 0 ==> x@.shape[0] * k <= x@.data.len(),
        x@.shape[0] > 0 ==> n_out * k <= w@.len(),
        x@.shape[0] > 0 ==> (bias matches Some(b) ==> n_out <= b@.len()),
    ensures
        r@ == matmul_of(x@, w@, n_out, k, opt_view(bias)),
{
    let rows: usize = x.rows();
    let size: usize = x.data.len();
    let width: usize = w.len();
    let ghost b = opt_view(bias);
    let ghost want = matmul_of(x@, w@, n_out, k, b).data;
    let mut data: Vec<u32> = Vec::with_capacity(rows * n_out);
    let mut s: usize = 0;
    assert(0 * n_out == 0);
    while s < rows
        invariant
            s <= rows,
            rows == x@.shape[0],
            size == x@.data.len(),
            width == w@.len(),
            rows * n_out <= usize::MAX,
            n_out > 0 ==> rows * k <= size,
            rows > 0 ==> n_out * k <= width,
            rows > 0 ==> (bias matches Some(b) ==> n_out <= b@.len()),
            b == opt_view(bias),
            want == matmul_of(x@, w@, n_out, k, b).data,
            data@.len() == s * n_out,
            forall|p: int| 0 <= p < data@.len() ==> data@[p] == #[trigger] want[p],
        decreases rows - s,
    {
        let mut n: usize = 0;
        proof {
            assert((s + 1) * n_out == s * n_out + n_out) by (nonlinear_arith);
            assert(s * n_out >= 0) by (nonlinear_arith);
        }
        while n < n_out
            invariant
                n <= n_out,
                s < rows,
                rows == x@.shape[0],
                size == x@.data.len(),
                width == w@.len(),
                s * n_out >= 0,
                n_out > 0 ==> rows * k <= size,
                n_out * k <= width,
                bias matches Some(b) ==> n_out <= b@.len(),
                b == opt_view(bias),
                want == matmul_of(x@, w@, n_out, k, b).data,
                data@.len() == s * n_out + n,
                forall|p: int| 0 <= p < data@.len() ==> data@[p] == #[trigger] want[p],
            decreases n_out - n,
        {
            proof {
                lemma_cell(s as int, n as int, n_out as int);
                lemma_cell_within(s as int, n as int, n_out as int, rows as int);
                lemma_row_within(s as int, k as int, rows as int);
                lemma_row_within(n as int, k as int, n_out as int);
            }
            let acc: u32 = dot_from(0, x.data.as_slice(), s * k, w, n * k, k);
            let plus: u32 = match bias {
                Some(b) => b[n],
                None => 0,
            };
            data.push(f32_add(acc, plus));
            n += 1;
        }
        s += 1;
    }
    proof {
        assert(data@ =~= want);
    }
    Tensor { shape: two_axes(rows, n_out), data }
}

/// A row of a table lies within it.
pub proof fn lemma_row_within(s: int, w: int, rows: int)
    requires
        0 <= s < rows,
        0 <= w,
    ensures
        0 <= s * w,
        s * w + w <= rows * w,
{
    assert(s * w + w == (s + 1) * w) by (nonlinear_arith);
    assert((s + 1) * w <= rows * w) by (nonlinear_arith)
        requires
            s + 1 <= rows,
            w >= 0,
    ;
    assert(0 <= s * w) by (nonlinear_arith)
        requires
            0 <= s,
            w >= 0,
    ;
}

/// One over the root of the mean square of the `unit` numbers of `x` from `c` on.
pub open spec fn norm_factor(m: MathV, x: Seq<u32>, c: int, unit: nat, eps: u32) -> u32 {
    let mean = quotient(dot(SIGN, x, c, x, c, unit), of_int(unit as int));
    quotient(ONE, (m.sqrt)(sum(mean, eps)))
}

/// What [`rmsnorm`] gives: each run of `unit` numbers is scaled on its own, and what
/// is left over at the end is dropped.
pub open spec fn rmsnorm_of(m: MathV, x: ArrayV, w: Seq<u32>, eps: u32, unit: nat) -> ArrayV {
    ArrayV {
        shape: x.shape,
        data: Seq::new(
            x.data.len() / unit * unit,
            |p: int|
                product(
                    product(
                        x.data[p],
                        norm_factor(m, x.data, p / unit as int * unit, unit, eps),
                    ),
                    w[p % unit as int],
                ),
        ),
    }
}

/// How many numbers are scaled together.
pub open spec fn norm_unit(x: ArrayV, head_dim: Option<usize>) -> nat {
    match head_dim {
        Some(d) => d as nat,
        None => x.shape[1] as nat,
    }
}

/// Scales each row, or each head of each row, to a mean square of one.
pub fn rmsnorm<Q: Fn(u32) -> u32, E: Fn(u32) -> u32, P: Fn(u32, u32) -> u32, T: Fn(u32) -> (
    u32,
    u32,
)>(x: &Tensor, w: &[u32], eps: u32, head_dim: Option<usize>, math: &Math<Q, E, P, T>) -> (r: Tensor)
    requires
        math.lawful(),
        x@.shape.len() >= 2,
        norm_unit(x@, head_dim) > 0,
        x@.data.len() >= norm_unit(x@, head_dim) ==> w@.len() >= norm_unit(x@, head_dim),
    ensures
        r@ == rmsnorm_of(math.model(), x@, w@, eps, norm_unit(x@, head_dim)),
{
    let cols: usize = x.cols();
    let unit: usize = match head_dim {
        Some(d) => d,
        None => cols,
    };
    let size: usize = x.data.len();
    let chunks: usize = size / unit;
    let ghost m = math.model();
    let ghost want = rmsnorm_of(m, x@, w@, eps, unit as nat).data;
    let mut data: Vec<u32> = Vec::with_capacity(size);
    let mut c: usize = 0;
    assert(0 * unit == 0);
    proof {
        vstd::arithmetic::div_mod::lemma_fundamental_div_mod(size as int, unit as int);
        assert(chunks * unit <= size) by (nonlinear_arith)
            requires
                size == unit * chunks + size as int % unit as int,
                size as int % unit as int >= 0,
        ;
        if chunks > 0 {
            assert(size >= unit) by (nonlinear_arith)
                requires
                    chunks * unit <= size,
                    chunks >= 1,
            ;
        }
    }
    while c < chunks
        invariant
            c <= chunks,
            unit > 0,
            size == x@.data.len(),
            math.lawful(),
            m == math.model(),
            chunks * unit <= size,
            chunks == size / unit,
            w@.len() >= unit || chunks == 0,
            want == rmsnorm_of(m, x@, w@, eps, unit as nat).data,
            data@.len() == c * unit,
            forall|p: int| 0 <= p < data@.len() ==> data@[p] == #[trigger] want[p],
        decreases chunks - c,
    {
        proof {
            lemma_row_within(c as int, unit as int, chunks as int);
            assert((c + 1) * unit == c * unit + unit) by (nonlinear_arith);
        }
        let base: usize = c * unit;
        let xs = x.data.as_slice();
        let total: u32 = dot_from(SIGN, xs, base, xs, base, unit);
        let mean: u32 = f32_div(total, f32_of_count(unit as u64));
        let inv: u32 = f32_div(ONE, math.root(f32_add(mean, eps)));
        let mut j: usize = 0;
        while j < unit
            invariant
                j <= unit,
                c < chunks,
                base == c * unit,
                base + unit <= chunks * unit <= size,
                size == x@.data.len(),
                chunks == size / unit,
                w@.len() >= unit,
                inv == norm_factor(m, x@.data, base as int, unit as nat, eps),
                want == rmsnorm_of(m, x@, w@, eps, unit as nat).data,
                data@.len() == base + j,
                forall|p: int| 0 <= p < data@.len() ==> data@[p] == #[trigger] want[p],
            decreases unit - j,
        {
            proof {
                lemma_cell(c as int, j as int, unit as int);
            }
            data.push(f32_mul(f32_mul(x.data[base + j], inv), w[j]));
            j += 1;
        }
        c += 1;
    }
    proof {
        assert(data@ =~= want);
    }
    Tensor { shape: copy_shape(&x.shape), data }
}

/// What [`swiglu`] gives for one number.
pub open spec fn gated(m: MathV, g: u32, u: u32) -> u32 {
    product(quotient(g, sum(ONE, (m.exp)(negated(g)))), u)
}

/// The length of the shorter of two lists.
pub open spec fn shorter(a: Seq<u32>, b: Seq<u32>) -> nat {
    if a.len() <= b.len() {
        a.len()
    } else {
        b.len()
    }
}

/// What [`swiglu`] gives.
pub open spec fn swiglu_of(m: MathV, gate: ArrayV, up: ArrayV) -> ArrayV {
    ArrayV {
        shape: gate.shape,
        data: Seq::new(
            shorter(gate.data, up.data),
            |p: int| gated(m, gate.data[p], up.data[p]),
        ),
    }
}

/// The first value times its logistic function, times the second value.
pub fn swiglu<Q: Fn(u32) -> u32, E: Fn(u32) -> u32, P: Fn(u32, u32) -> u32, T: Fn(u32) -> (
    u32,
    u32,
)>(gate: &Tensor, up: &Tensor, math: &Math<Q, E, P, T>) -> (r: Tensor)
    requires
        math.lawful(),
    ensures
        r@ == swiglu_of(math.model(), gate@, up@),
{
    let ghost m = math.model();
    let ghost want = swiglu_of(m, gate@, up@).data;
    let mut data: Vec<u32> = Vec::new();
    let mut i: usize = 0;
    while i < gate.data.len() && i < up.data.len()
        invariant
            i <= gate@.data.len(),
            i <= up@.data.len(),
            math.lawful(),
            m == math.model(),
            want == swiglu_of(m, gate@, up@).data,
            data@.len() == i,
            forall|p: int| 0 <= p < data@.len() ==> data@[p] == #[trigger] want[p],
        decreases gate.data.len() - i,
    {
        let g: u32 = gate.data[i];
        let e: u32 = math.exponential(f32_neg(g));
        data.push(f32_mul(f32_div(g, f32_add(ONE, e)), up.data[i]));
        i += 1;
    }
    proof {
        assert(data@ =~= want);
    }
    Tensor { shape: copy_shape(&gate.shape), data }
}

/// What [`add`] gives.
pub open spec fn added(a: ArrayV, b: ArrayV) -> ArrayV {
    ArrayV {
        shape: a.shape,
        data: Seq::new(shorter(a.data, b.data), |p: int| sum(a.data[p], b.data[p])),
    }
}

/// The sums of the numbers of two tensors.
pub fn add(a: &Tensor, b: &Tensor) -> (r: Tensor)
    ensures
        r@ == added(a@, b@),
{
    let ghost want = added(a@, b@).data;
    let mut data: Vec<u32> = Vec::new();
    let mut i: usize = 0;
    while i < a.data.len() && i < b.data.len()
        invariant
            i <= a@.data.len(),
            i <= b@.data.len(),
            want == added(a@, b@).data,
            data@.len() == i,
            forall|p: int| 0 <= p < data@.len() ==> data@[p] == #[trigger] want[p],
        decreases a.data.len() - i,
    {
        data.push(f32_add(a.data[i], b.data[i]));
        i += 1;
    }
    proof {
        assert(data@ =~= want);
    }
    Tensor { shape: copy_shape(&a.shape), data }
}

/// The two places of pair `i` of a head that starts at `base`.
pub open spec fn pair_of(style: RopeStyle, base: int, half: int, i: int) -> (int, int) {
    match style {
        RopeStyle::Interleaved => (base + 2 * i, base + 2 * i + 1),
        RopeStyle::HalfSplit => (base + i, base + i + half),
    }
}

/// The angle by which pair `i` is turned at a position, as sine and cosine.
pub open spec fn angle_of(m: MathV, theta: u32, head_dim: int, pos: int, i: int) -> (u32, u32) {
    let e = quotient(product(MINUS_TWO, of_int(i)), of_int(head_dim));
    (m.sin_cos)(product(of_int(pos), (m.pow)(theta, e)))
}

/// A pair of numbers, turned.
pub open spec fn turned(x0: u32, x1: u32, sc: (u32, u32)) -> (u32, u32) {
    (
        sum(product(x0, sc.1), negated(product(x1, sc.0))),
        sum(product(x0, sc.0), product(x1, sc.1)),
    )
}

/// The numbers with the first `k` pairs of the head at `base` turned.
pub open spec fn rope_head(
    m: MathV,
    data: Seq<u32>,
    base: int,
    head_dim: int,
    theta: u32,
    style: RopeStyle,
    pos: int,
    k: nat,
) -> Seq<u32>
    decreases k,
{
    if k == 0 {
        data
    } else {
        let i = k - 1;
        let d = rope_head(m, data, base, head_dim, theta, style, pos, i as nat);
        let (a, b) = pair_of(style, base, head_dim / 2, i);
        let (y0, y1) = turned(d[a], d[b], angle_of(m, theta, head_dim, pos, i));
        d.update(a, y0).update(b, y1)
    }
}

/// The numbers with the first `k` heads of row `s` turned.
pub open spec fn rope_row(
    m: MathV,
    data: Seq<u32>,
    start: int,
    head_dim: int,
    theta: u32,
    style: RopeStyle,
    pos: int,
    k: nat,
) -> Seq<u32>
    decreases k,
{
    if k == 0 {
        data
    } else {
        let d = rope_row(m, data, start, head_dim, theta, style, pos, (k - 1) as nat);
        rope_head(
            m,
            d,
            start + (k - 1) * head_dim,
            head_dim,
            theta,
            style,
            pos,
            (head_dim / 2) as nat,
        )
    }
}

/// The numbers with the heads of the first `k` rows turned, each row by the angles
/// of its position.
pub open spec fn rope_rows(
    m: MathV,
    data: Seq<u32>,
    cols: int,
    n_heads: nat,
    head_dim: int,
    theta: u32,
    style: RopeStyle,
    pos_off: int,
    k: nat,
) -> Seq<u32>
    decreases k,
{
    if k == 0 {
        data
    } else {
        let d = rope_rows(
            m,
            data,
            cols,
            n_heads,
            head_dim,
            theta,
            style,
            pos_off,
            (k - 1) as nat,
        );
        rope_row(m, d, (k - 1) * cols, head_dim, theta, style, pos_off + k - 1, n_heads)
    }
}

/// What [`rope`] gives.
pub open spec fn rope_of(
    m: MathV,
    x: ArrayV,
    n_heads: nat,
    head_dim: int,
    theta: u32,
    style: RopeStyle,
    pos_off: int,
) -> ArrayV {
    ArrayV {
        shape: x.shape,
        data: rope_rows(
            m,
            x.data,
            x.shape[1] as int,
            n_heads,
            head_dim,
            theta,
            style,
            pos_off,
            x.shape[0] as nat,
        ),
    }
}

fn copy_data(data: &Vec<u32>) -> (v: Vec<u32>)
    ensures
        v@ == data@,
{
    let mut v: Vec<u32> = Vec::new();
    let mut i: usize = 0;
    while i < data.len()
        invariant
            i <= data@.len(),
            v@ == data@.take(i as int),
        decreases data.len() - i,
    {
        v.push(data[i]);
        i += 1;
        assert(v@ =~= data@.take(i as int));
    }
    assert(v@ =~= data@);
    v
}

/// Turns the pairs of one head.
fn turn_head<Q: Fn(u32) -> u32, E: Fn(u32) -> u32, P: Fn(u32, u32) -> u32, T: Fn(u32) -> (
    u32,
    u32,
)>(
    data: &mut Vec<u32>,
    base: usize,
    head_dim: usize,
    theta: u32,
    style: RopeStyle,
    pos: usize,
    math: &Math<Q, E, P, T>,
)
    requires
        math.lawful(),
        base + 2 * (head_dim / 2) <= old(data)@.len(),
    ensures
        final(data)@ == rope_head(
            math.model(),
            old(data)@,
            base as int,
            head_dim as int,
            theta,
            style,
            pos as int,
            (head_dim / 2) as nat,
        ),
        final(data)@.len() == old(data)@.len(),
{
    let size: usize = data.len();
    let half: usize = head_dim / 2;
    let at: u32 = f32_of_count(pos as u64);
    let n: u32 = f32_of_count(head_dim as u64);
    let ghost m = math.model();
    let ghost before = data@;
    let mut i: usize = 0;
    while i < half
        invariant
            i <= half,
            half == head_dim / 2,
            base + 2 * half <= size,
            data@.len() == size,
            at == of_int(pos as int),
            n == of_int(head_dim as int),
            math.lawful(),
            m == math.model(),
            data@ == rope_head(
                m,
                before,
                base as int,
                head_dim as int,
                theta,
                style,
                pos as int,
                i as nat,
            ),
        decreases half - i,
    {
        let e: u32 = f32_div(f32_mul(MINUS_TWO, f32_of_count(i as u64)), n);
        let (sin, cos) = math.turn(f32_mul(at, math.power(theta, e)));
        let (a, b): (usize, usize) = match style {
            RopeStyle::Interleaved => (base + 2 * i, base + 2 * i + 1),
            RopeStyle::HalfSplit => (base + i, base + i + half),
        };
        let x0: u32 = data[a];
        let x1: u32 = data[b];
        let y0: u32 = f32_add(f32_mul(x0, cos), f32_neg(f32_mul(x1, sin)));
        let y1: u32 = f32_add(f32_mul(x0, sin), f32_mul(x1, cos));
        data.set(a, y0);
        data.set(b, y1);
        i += 1;
    }
}

/// Turns the pairs of every head by the angles of its position.
pub fn rope<Q: Fn(u32) -> u32, E: Fn(u32) -> u32, P: Fn(u32, u32) -> u32, T: Fn(u32) -> (
    u32,
    u32,
)>(
    x: &Tensor,
    n_heads: usize,
    head_dim: usize,
    theta: u32,
    style: RopeStyle,
    pos_off: usize,
    math: &Math<Q, E, P, T>,
) -> (r: Tensor)
    requires
        math.lawful(),
        x@.shape.len() >= 2,
        pos_off + x@.shape[0] <= usize::MAX,
        x@.shape[0] > 0 && n_heads > 0 ==> (x@.shape[0] - 1) * x@.shape[1] + (n_heads - 1)
            * head_dim + 2 * (head_dim / 2) <= x@.data.len(),
    ensures
        r@ == rope_of(
            math.model(),
            x@,
            n_heads as nat,
            head_dim as int,
            theta,
            style,
            pos_off as int,
        ),
{
    let rows: usize = x.rows();
    let cols: usize = x.cols();
    let size: usize = x.data.len();
    let mut data = copy_data(&x.data);
    let ghost m = math.model();
    let ghost before = data@;
    let ghost pairs = 2 * (head_dim as int / 2);
    let mut s: usize = 0;
    while s < rows
        invariant
            s <= rows,
            size == data@.len(),
            pairs == 2 * (head_dim as int / 2),
            pos_off + rows <= usize::MAX,
            rows > 0 && n_heads > 0 ==> (rows - 1) * cols + (n_heads - 1) * head_dim + pairs
                <= size,
            math.lawful(),
            m == math.model(),
            data@ == rope_rows(
                m,
                before,
                cols as int,
                n_heads as nat,
                head_dim as int,
                theta,
                style,
                pos_off as int,
                s as nat,
            ),
        decreases rows - s,
    {
        proof {
            lemma_row_within(s as int, cols as int, rows as int);
            assert(s * cols <= (rows - 1) * cols) by (nonlinear_arith)
                requires
                    s <= rows - 1,
                    cols >= 0,
            ;
        }
        let ghost start = s * cols;
        let ghost row_before = data@;
        let mut h: usize = 0;
        while h < n_heads
            invariant
                h <= n_heads,
                size == data@.len(),
                pairs == 2 * (head_dim as int / 2),
                0 <= start <= (rows - 1) * cols,
                start == s * cols,
                s < rows,
                pos_off + rows <= usize::MAX,
                n_heads > 0 ==> (rows - 1) * cols + (n_heads - 1) * head_dim + pairs <= size,
                math.lawful(),
                m == math.model(),
                data@ == rope_row(
                    m,
                    row_before,
                    start as int,
                    head_dim as int,
                    theta,
                    style,
                    (pos_off + s) as int,
                    h as nat,
                ),
            decreases n_heads - h,
        {
            proof {
                assert(h * head_dim <= (n_heads - 1) * head_dim) by (nonlinear_arith)
                    requires
                        h <= n_heads - 1,
                        head_dim >= 0,
                ;
                assert(h * head_dim >= 0) by (nonlinear_arith);
            }
            let base: usize = s * cols + h * head_dim;
            turn_head(&mut data, base, head_dim, theta, style, pos_off + s, math);
            h += 1;
        }
        s += 1;
    }
    Tensor { shape: copy_shape(&x.shape), data }
}

/// What attention reads: the queries, the cached keys and values, and how they are
/// cut into heads.
#[verifier::ext_equal]
pub struct Attended {
    pub q: Seq<u32>,
    pub k: Seq<u32>,
    pub v: Seq<u32>,
    pub n_heads: int,
    pub n_kv_heads: int,
    pub head_dim: int,
    pub pos_off: int,
}

impl Attended {
    /// Where the cached row `t` of the head that query head `h` shares starts.
    pub open spec fn cached(self, t: int, h: int) -> int {
        t * (self.n_kv_heads * self.head_dim) + h / (self.n_heads / self.n_kv_heads)
            * self.head_dim
    }

    /// Where head `h` of query row `s` starts.
    pub open spec fn query(self, s: int, h: int) -> int {
        s * (self.n_heads * self.head_dim) + h * self.head_dim
    }

    /// How well head `h` of row `s` matches key `t`.
    pub open spec fn score(self, m: MathV, s: int, h: int, t: int) -> u32 {
        product(
            dot(SIGN, self.q, self.query(s, h), self.k, self.cached(t, h), self.head_dim as nat),
            quotient(ONE, (m.sqrt)(of_int(self.head_dim))),
        )
    }

    /// The largest of the first `n` scores.
    pub open spec fn best(self, m: MathV, s: int, h: int, n: nat) -> u32
        decreases n,
    {
        if n == 0 {
            (SIGN + INF) as u32
        } else {
            larger(self.best(m, s, h, (n - 1) as nat), self.score(m, s, h, n - 1))
        }
    }

    /// The rows that row `s` sees: its own and those before it.
    pub open spec fn visible(self, s: int) -> nat {
        (self.pos_off + s + 1) as nat
    }

    /// How much of value `t` is taken, before it is divided by the total.
    pub open spec fn raw(self, m: MathV, s: int, h: int, t: int) -> u32 {
        (m.exp)(sum(self.score(m, s, h, t), negated(self.best(m, s, h, self.visible(s)))))
    }

    /// The total of the first `n`.
    pub open spec fn total(self, m: MathV, s: int, h: int, n: nat) -> u32
        decreases n,
    {
        if n == 0 {
            0
        } else {
            sum(self.total(m, s, h, (n - 1) as nat), self.raw(m, s, h, n - 1))
        }
    }

    /// How much of value `t` is taken.
    pub open spec fn share(self, m: MathV, s: int, h: int, t: int) -> u32 {
        quotient(self.raw(m, s, h, t), self.total(m, s, h, self.visible(s)))
    }

    /// What the first `n` values give at place `d` of head `h`.
    pub open spec fn mixed(self, m: MathV, s: int, h: int, d: int, n: nat) -> u32
        decreases n,
    {
        if n == 0 {
            0
        } else {
            sum(
                self.mixed(m, s, h, d, (n - 1) as nat),
                product(self.share(m, s, h, n - 1), self.v[self.cached(n - 1, h) + d]),
            )
        }
    }

    /// The result at place `p` of a row-major table of rows, heads and places.
    pub open spec fn at(self, m: MathV, p: int) -> u32 {
        let row = p / self.head_dim;
        let s = row / self.n_heads;
        self.mixed(m, s, row % self.n_heads, p % self.head_dim, self.visible(s))
    }
}

/// What [`attention`] gives.
pub open spec fn attention_of(m: MathV, a: Attended, rows: usize) -> ArrayV {
    ArrayV {
        shape: seq![rows, (a.n_heads * a.head_dim) as usize],
        data: Seq::new((rows * (a.n_heads * a.head_dim)) as nat, |p: int| a.at(m, p)),
    }
}

/// Whether the cached rows that the last of `rows` query rows sees are there.
pub open spec fn cache_reaches(a: Attended, rows: int, len: int) -> bool {
    rows > 0 && a.n_heads > 0 ==> a.cached(a.pos_off + rows - 1, a.n_heads - 1) + a.head_dim <= len
}

/// The cached row of a head lies within what the last query row reaches.
proof fn lemma_cached(a: Attended, rows: int, len: int, t: int, h: int)
    requires
        cache_reaches(a, rows, len),
        0 <= t <= a.pos_off + rows - 1,
        0 <= h < a.n_heads,
        rows > 0,
        a.n_kv_heads > 0,
        a.n_heads / a.n_kv_heads > 0,
        a.head_dim >= 0,
    ensures
        0 <= t * (a.n_kv_heads * a.head_dim) <= len,
        0 <= h / (a.n_heads / a.n_kv_heads) * a.head_dim <= len,
        0 <= a.cached(t, h),
        a.cached(t, h) + a.head_dim <= len,
        a.n_kv_heads * a.head_dim >= 0,
{
    let kv = a.n_kv_heads * a.head_dim;
    let group = a.n_heads / a.n_kv_heads;
    let g = h / group;
    let top = (a.n_heads - 1) / group;
    assert(kv >= 0) by (nonlinear_arith)
        requires
            kv == a.n_kv_heads * a.head_dim,
            a.n_kv_heads > 0,
            a.head_dim >= 0,
    ;
    assert(0 <= t * kv <= (a.pos_off + rows - 1) * kv) by (nonlinear_arith)
        requires
            0 <= t <= a.pos_off + rows - 1,
            kv >= 0,
    ;
    vstd::arithmetic::div_mod::lemma_div_is_ordered(h, a.n_heads - 1, group);
    vstd::arithmetic::div_mod::lemma_div_pos_is_pos(h, group);
    assert(0 <= g * a.head_dim <= top * a.head_dim) by (nonlinear_arith)
        requires
            0 <= g <= top,
            a.head_dim >= 0,
    ;
}

/// Computes how much of each visible value head `h` of row `s` takes.
fn shares<Q: Fn(u32) -> u32, E: Fn(u32) -> u32, P: Fn(u32, u32) -> u32, T: Fn(u32) -> (u32, u32)>(
    q: &[u32],
    at: usize,
    k: &[u32],
    kv_dim: usize,
    off: usize,
    head_dim: usize,
    scale: u32,
    visible: usize,
    math: &Math<Q, E, P, T>,
    Ghost(a): Ghost<Attended>,
    Ghost(s): Ghost<int>,
    Ghost(h): Ghost<int>,
) -> (r: Vec<u32>)
    requires
        math.lawful(),
        a.q == q@,
        a.k == k@,
        a.head_dim == head_dim,
        kv_dim == a.n_kv_heads * a.head_dim,
        at == a.query(s, h),
        at + head_dim <= q@.len(),
        off == h / (a.n_heads / a.n_kv_heads) * a.head_dim,
        visible == a.visible(s),
        visible >= 1,
        (visible - 1) * kv_dim + off + head_dim <= k@.len(),
        scale == quotient(ONE, (math.model().sqrt)(of_int(head_dim as int))),
    ensures
        r@.len() == visible,
        forall|t: int| 0 <= t < visible ==> #[trigger] r@[t] == a.share(math.model(), s, h, t),
{
    let ghost m = math.model();
    let size: usize = k.len();
    let mut scores: Vec<u32> = Vec::new();
    let mut max: u32 = SIGN + INF;
    let mut t: usize = 0;
    while t < visible
        invariant
            t <= visible,
            a.q == q@,
            a.k == k@,
            a.head_dim == head_dim,
            kv_dim == a.n_kv_heads * a.head_dim,
            at == a.query(s, h),
            at + head_dim <= q@.len(),
            off == h / (a.n_heads / a.n_kv_heads) * a.head_dim,
            (visible - 1) * kv_dim + off + head_dim <= k@.len() == size,
            scale == quotient(ONE, (m.sqrt)(of_int(head_dim as int))),
            scores@.len() == t,
            forall|i: int| 0 <= i < t ==> #[trigger] scores@[i] == a.score(m, s, h, i),
            max == a.best(m, s, h, t as nat),
        decreases visible - t,
    {
        proof {
            assert(0 <= t * kv_dim <= (visible - 1) * kv_dim) by (nonlinear_arith)
                requires
                    0 <= t <= visible - 1,
                    kv_dim >= 0,
            ;
        }
        let sc: u32 = f32_mul(dot_from(SIGN, q, at, k, t * kv_dim + off, head_dim), scale);
        max = f32_max(max, sc);
        scores.push(sc);
        t += 1;
    }
    let mut raws: Vec<u32> = Vec::new();
    let mut denom: u32 = 0;
    t = 0;
    while t < visible
        invariant
            t <= visible,
            math.lawful(),
            m == math.model(),
            visible == a.visible(s),
            scores@.len() == visible,
            forall|i: int| 0 <= i < visible ==> #[trigger] scores@[i] == a.score(m, s, h, i),
            max == a.best(m, s, h, visible as nat),
            raws@.len() == t,
            forall|i: int| 0 <= i < t ==> #[trigger] raws@[i] == a.raw(m, s, h, i),
            denom == a.total(m, s, h, t as nat),
        decreases visible - t,
    {
        let e: u32 = math.exponential(f32_add(scores[t], f32_neg(max)));
        denom = f32_add(denom, e);
        raws.push(e);
        t += 1;
    }
    let mut out: Vec<u32> = Vec::new();
    t = 0;
    while t < visible
        invariant
            t <= visible,
            m == math.model(),
            visible == a.visible(s),
            raws@.len() == visible,
            forall|i: int| 0 <= i < visible ==> #[trigger] raws@[i] == a.raw(m, s, h, i),
            denom == a.total(m, s, h, visible as nat),
            out@.len() == t,
            forall|i: int| 0 <= i < t ==> #[trigger] out@[i] == a.share(m, s, h, i),
        decreases visible - t,
    {
        out.push(f32_div(raws[t], denom));
        t += 1;
    }
    out
}

/// Mixes one place of the visible values.
fn mix(
    parts: &Vec<u32>,
    v: &[u32],
    kv_dim: usize,
    at: usize,
    Ghost(m): Ghost<MathV>,
    Ghost(a): Ghost<Attended>,
    Ghost(s): Ghost<int>,
    Ghost(h): Ghost<int>,
    Ghost(d): Ghost<int>,
) -> (r: u32)
    requires
        a.v == v@,
        kv_dim == a.n_kv_heads * a.head_dim,
        at == h / (a.n_heads / a.n_kv_heads) * a.head_dim + d,
        parts@.len() == a.visible(s),
        parts@.len() >= 1,
        forall|t: int| 0 <= t < parts@.len() ==> #[trigger] parts@[t] == a.share(m, s, h, t),
        (parts@.len() - 1) * kv_dim + at < v@.len(),
    ensures
        r == a.mixed(m, s, h, d, a.visible(s)),
{
    let n: usize = parts.len();
    let size: usize = v.len();
    let mut acc: u32 = 0;
    let mut t: usize = 0;
    while t < n
        invariant
            t <= n == parts@.len(),
            a.v == v@,
            kv_dim == a.n_kv_heads * a.head_dim,
            at == h / (a.n_heads / a.n_kv_heads) * a.head_dim + d,
            forall|t: int| 0 <= t < parts@.len() ==> #[trigger] parts@[t] == a.share(m, s, h, t),
            (n - 1) * kv_dim + at < v@.len() == size,
            acc == a.mixed(m, s, h, d, t as nat),
        decreases n - t,
    {
        proof {
            assert(0 <= t * kv_dim <= (n - 1) * kv_dim) by (nonlinear_arith)
                requires
                    0 <= t <= n - 1,
                    kv_dim >= 0,
            ;
        }
        acc = f32_add(acc, f32_mul(parts[t], v[t * kv_dim + at]));
        t += 1;
    }
    acc
}

/// Causal attention with heads that share keys and values. `q` holds the heads of
/// each row; the caches hold `total` rows, those of this batch at the end. Row `s`
/// stands at position `pos_off + s` and sees the rows up to that one.
pub fn attention<Q: Fn(u32) -> u32, E: Fn(u32) -> u32, P: Fn(u32, u32) -> u32, T: Fn(u32) -> (
    u32,
    u32,
)>(
    q: &Tensor,
    kcache: &[u32],
    vcache: &[u32],
    total: usize,
    n_heads: usize,
    n_kv_heads: usize,
    head_dim: usize,
    pos_off: usize,
    math: &Math<Q, E, P, T>,
) -> (r: Tensor)
    requires
        math.lawful(),
        q@.shape.len() >= 1,
        n_kv_heads > 0,
        n_kv_heads * head_dim <= usize::MAX,
        n_heads * head_dim <= usize::MAX,
        q@.shape[0] * (n_heads * head_dim) <= usize::MAX,
        ({
            let a = Attended {
                q: q@.data,
                k: kcache@,
                v: vcache@,
                n_heads: n_heads as int,
                n_kv_heads: n_kv_heads as int,
                head_dim: head_dim as int,
                pos_off: pos_off as int,
            };
            q@.shape[0] > 0 && n_heads > 0 ==> {
                &&& n_heads >= n_kv_heads
                &&& pos_off + q@.shape[0] <= total
                &&& q@.shape[0] * (n_heads * head_dim) <= q@.data.len()
                &&& cache_reaches(a, q@.shape[0] as int, kcache@.len() as int)
                &&& cache_reaches(a, q@.shape[0] as int, vcache@.len() as int)
            }
        }),
    ensures
        r@ == attention_of(
            math.model(),
            (Attended {
                q: q@.data,
                k: kcache@,
                v: vcache@,
                n_heads: n_heads as int,
                n_kv_heads: n_kv_heads as int,
                head_dim: head_dim as int,
                pos_off: pos_off as int,
            }),
            q@.shape[0],
        ),
{
    let rows: usize = q.rows();
    let kv_dim: usize = n_kv_heads * head_dim;
    let width: usize = n_heads * head_dim;
    let group: usize = n_heads / n_kv_heads;
    let scale: u32 = f32_div(ONE, math.root(f32_of_count(head_dim as u64)));
    let ghost m = math.model();
    let ghost a = Attended {
        q: q@.data,
        k: kcache@,
        v: vcache@,
        n_heads: n_heads as int,
        n_kv_heads: n_kv_heads as int,
        head_dim: head_dim as int,
        pos_off: pos_off as int,
    };
    let size: usize = q.data.len();
    let ksize: usize = kcache.len();
    let vsize: usize = vcache.len();
    let ghost want = attention_of(m, a, rows).data;
    let mut data: Vec<u32> = Vec::with_capacity(rows * width);
    let mut s: usize = 0;
    assert(0 * width == 0);
    proof {
        if n_heads > 0 && n_heads >= n_kv_heads {
            vstd::arithmetic::div_mod::lemma_div_non_zero(n_heads as int, n_kv_heads as int);
        }
    }
    while s < rows
        invariant
            s <= rows,
            math.lawful(),
            m == math.model(),
            a == (Attended {
                q: q@.data,
                k: kcache@,
                v: vcache@,
                n_heads: n_heads as int,
                n_kv_heads: n_kv_heads as int,
                head_dim: head_dim as int,
                pos_off: pos_off as int,
            }),
            n_kv_heads > 0,
            group == n_heads / n_kv_heads,
            rows > 0 && n_heads > 0 ==> group > 0,
            kv_dim == n_kv_heads * head_dim,
            width == n_heads * head_dim,
            scale == quotient(ONE, (m.sqrt)(of_int(head_dim as int))),
            size == q@.data.len(),
            ksize == kcache@.len(),
            vsize == vcache@.len(),
            rows > 0 && n_heads > 0 ==> {
                &&& pos_off + rows <= total
                &&& rows * width <= size
                &&& cache_reaches(a, rows as int, ksize as int)
                &&& cache_reaches(a, rows as int, vsize as int)
            },
            want == attention_of(m, a, rows).data,
            data@.len() == s * width,
            forall|p: int| 0 <= p < data@.len() ==> data@[p] == #[trigger] want[p],
        decreases rows - s,
    {
        proof {
            lemma_row_within(s as int, width as int, rows as int);
            assert((s + 1) * width == s * width + width) by (nonlinear_arith);
            assert(0 * head_dim == 0);
        }
        let mut h: usize = 0;
        while h < n_heads
            invariant
                h <= n_heads,
                s < rows,
                math.lawful(),
                m == math.model(),
                a == (Attended {
                    q: q@.data,
                    k: kcache@,
                    v: vcache@,
                    n_heads: n_heads as int,
                    n_kv_heads: n_kv_heads as int,
                    head_dim: head_dim as int,
                    pos_off: pos_off as int,
                }),
                n_kv_heads > 0,
                group == n_heads / n_kv_heads,
                n_heads > 0 ==> group > 0,
                kv_dim == n_kv_heads * head_dim,
                width == n_heads * head_dim,
                scale == quotient(ONE, (m.sqrt)(of_int(head_dim as int))),
                size == q@.data.len(),
                ksize == kcache@.len(),
                vsize == vcache@.len(),
                0 <= s * width,
                s * width + width <= rows * width,
                n_heads > 0 ==> {
                    &&& pos_off + rows <= total
                    &&& rows * width <= size
                    &&& cache_reaches(a, rows as int, ksize as int)
                    &&& cache_reaches(a, rows as int, vsize as int)
                },
                want == attention_of(m, a, rows).data,
                data@.len() == s * width + h * head_dim,
                forall|p: int| 0 <= p < data@.len() ==> data@[p] == #[trigger] want[p],
            decreases n_heads - h,
        {
            proof {
                lemma_row_within(h as int, head_dim as int, n_heads as int);
                assert((h + 1) * head_dim == h * head_dim + head_dim) by (nonlinear_arith);
                lemma_cached(a, rows as int, ksize as int, pos_off + s, h as int);
                lemma_cached(a, rows as int, vsize as int, pos_off + s, h as int);
            }
            let visible: usize = pos_off + s + 1;
            let off: usize = h / group * head_dim;
            let at: usize = s * width + h * head_dim;
            let parts = shares(
                q.data.as_slice(),
                at,
                kcache,
                kv_dim,
                off,
                head_dim,
                scale,
                visible,
                math,
                Ghost(a),
                Ghost(s as int),
                Ghost(h as int),
            );
            let mut d: usize = 0;
            while d < head_dim
                invariant
                    d <= head_dim,
                    s < rows,
                    h < n_heads,
                    a.v == vcache@,
                    a.n_heads == n_heads,
                    a.head_dim == head_dim,
                    kv_dim == a.n_kv_heads * a.head_dim,
                    width == n_heads * head_dim,
                    visible == a.visible(s as int),
                    visible >= 1,
                    off == h as int / (a.n_heads / a.n_kv_heads) * a.head_dim,
                    at == s * width + h * head_dim,
                    at + head_dim <= rows * width,
                    (visible - 1) * kv_dim + off + head_dim <= vcache@.len() == vsize,
                    parts@.len() == visible,
                    forall|t: int|
                        0 <= t < visible ==> #[trigger] parts@[t] == a.share(
                            m,
                            s as int,
                            h as int,
                            t,
                        ),
                    want == attention_of(m, a, rows).data,
                    data@.len() == at + d,
                    forall|p: int| 0 <= p < data@.len() ==> data@[p] == #[trigger] want[p],
                decreases head_dim - d,
            {
                proof {
                    let row = s * n_heads + h;
                    assert(at + d == row * head_dim + d) by (nonlinear_arith)
                        requires
                            at == s * width + h * head_dim,
                            width == n_heads * head_dim,
                            row == s * n_heads + h,
                    ;
                    assert(row >= 0) by (nonlinear_arith)
                        requires
                            row == s * n_heads + h,
                    ;
                    lemma_cell(row, d as int, head_dim as int);
                    lemma_cell(s as int, h as int, n_heads as int);
                    assert(want[at + d] == a.at(m, at + d));
                }
                data.push(
                    mix(
                        &parts,
                        vcache,
                        kv_dim,
                        off + d,
                        Ghost(m),
                        Ghost(a),
                        Ghost(s as int),
                        Ghost(h as int),
                        Ghost(d as int),
                    ),
                );
                d += 1;
            }
            h += 1;
        }
        s += 1;
    }
    proof {
        assert(data@ =~= want);
    }
    Tensor { shape: two_axes(rows, width), data }
}

/// The pairs of a head are disjoint and make up the head: place `p` of it belongs
/// to one pair and no other.
pub proof fn law_pairs_make_up_the_head(style: RopeStyle, base: int, head_dim: int, p: int)
    requires
        head_dim % 2 == 0,
        base <= p < base + head_dim,
    ensures
        exists|i: int|
            0 <= i < head_dim / 2 && (#[trigger] pair_of(style, base, head_dim / 2, i).0 == p
                || pair_of(style, base, head_dim / 2, i).1 == p),
        forall|i: int, j: int|
            0 <= i < j < head_dim / 2 ==> {
                let (a, b) = #[trigger] pair_of(style, base, head_dim / 2, i);
                let (c, d) = #[trigger] pair_of(style, base, head_dim / 2, j);
                a != b && a != c && a != d && b != c && b != d
            },
{
    let half = head_dim / 2;
    let i = match style {
        RopeStyle::Interleaved => (p - base) / 2,
        RopeStyle::HalfSplit => if p - base < half {
            p - base
        } else {
            p - base - half
        },
    };
    let (a, b) = pair_of(style, base, half, i);
    assert(0 <= i < half && (a == p || b == p));
}

/// Each pair of a head is turned once, by the angle of the pair and the position,
/// and nothing outside the head changes.
pub proof fn law_rope_turns_each_pair_once(
    m: MathV,
    data: Seq<u32>,
    base: int,
    head_dim: int,
    theta: u32,
    style: RopeStyle,
    pos: int,
)
    requires
        head_dim >= 0,
        head_dim % 2 == 0,
        0 <= base,
        base + head_dim <= data.len(),
    ensures
        ({
            let half = head_dim / 2;
            let out = rope_head(m, data, base, head_dim, theta, style, pos, half as nat);
            &&& out.len() == data.len()
            &&& forall|i: int|
                0 <= i < half ==> {
                    let (a, b) = #[trigger] pair_of(style, base, half, i);
                    (out[a], out[b]) == turned(
                        data[a],
                        data[b],
                        angle_of(m, theta, head_dim, pos, i),
                    )
                }
            &&& forall|p: int|
                0 <= p < data.len() && !(base <= p < base + head_dim) ==> #[trigger] out[p]
                    == data[p]
        }),
{
    lemma_rope_pairs(m, data, base, head_dim, theta, style, pos, (head_dim / 2) as nat);
}

proof fn lemma_rope_pairs(
    m: MathV,
    data: Seq<u32>,
    base: int,
    head_dim: int,
    theta: u32,
    style: RopeStyle,
    pos: int,
    k: nat,
)
    requires
        head_dim >= 0,
        head_dim % 2 == 0,
        0 <= base,
        base + head_dim <= data.len(),
        k <= head_dim / 2,
    ensures
        ({
            let half = head_dim / 2;
            let out = rope_head(m, data, base, head_dim, theta, style, pos, k);
            &&& out.len() == data.len()
            &&& forall|i: int|
                0 <= i < half ==> {
                    let (a, b) = #[trigger] pair_of(style, base, half, i);
                    (out[a], out[b]) == if i < k {
                        turned(data[a], data[b], angle_of(m, theta, head_dim, pos, i))
                    } else {
                        (data[a], data[b])
                    }
                }
            &&& forall|p: int|
                0 <= p < data.len() && !(base <= p < base + head_dim) ==> #[trigger] out[p]
                    == data[p]
        }),
    decreases k,
{
    if k > 0 {
        lemma_rope_pairs(m, data, base, head_dim, theta, style, pos, (k - 1) as nat);
        let half = head_dim / 2;
        let d = rope_head(m, data, base, head_dim, theta, style, pos, (k - 1) as nat);
        let (a, b) = pair_of(style, base, half, k - 1);
        assert(d[a] == data[a] && d[b] == data[b]);
    }
}

/// Whether row `s` of one sees what row `s2` of the other sees, with its head `h`:
/// the same query at the same position, over caches that agree up to there.
pub open spec fn same_sight(a: Attended, s: int, b: Attended, s2: int, h: int) -> bool {
    let n = a.visible(s) * (a.n_kv_heads * a.head_dim);
    &&& (a.n_heads, a.n_kv_heads, a.head_dim) == (b.n_heads, b.n_kv_heads, b.head_dim)
    &&& a.pos_off + s == b.pos_off + s2
    &&& n <= a.k.len() && n <= b.k.len() && n <= a.v.len() && n <= b.v.len()
    &&& forall|i: int| 0 <= i < n ==> a.k[i] == #[trigger] b.k[i]
    &&& forall|i: int| 0 <= i < n ==> a.v[i] == #[trigger] b.v[i]
    &&& forall|x: int|
        0 <= x < a.head_dim ==> #[trigger] a.q[a.query(s, h) + x] == b.q[b.query(s2, h) + x]
}

/// Whether the heads are cut evenly.
pub open spec fn even_heads(a: Attended) -> bool {
    &&& a.n_kv_heads > 0
    &&& a.n_heads > 0
    &&& a.head_dim > 0
    &&& a.pos_off >= 0
    &&& a.n_heads % a.n_kv_heads == 0
}

/// Attention is causal: the results of a row depend on its query and on what the
/// cache holds up to the row's own position, and on nothing behind it.
pub proof fn law_attention_is_causal(
    m: MathV,
    a: Attended,
    s: int,
    b: Attended,
    s2: int,
    h: int,
    d: int,
)
    requires
        even_heads(a),
        same_sight(a, s, b, s2, h),
        0 <= a.pos_off + s,
        0 <= h < a.n_heads,
        0 <= d < a.head_dim,
    ensures
        a.mixed(m, s, h, d, a.visible(s)) == b.mixed(m, s2, h, d, b.visible(s2)),
{
    let n = a.visible(s);
    lemma_same_best(m, a, s, b, s2, h, n);
    lemma_same_total(m, a, s, b, s2, h, n);
    lemma_same_mixed(m, a, s, b, s2, h, d, n);
}

/// Query heads share keys and values in contiguous groups of one size.
pub proof fn law_groups_are_contiguous(a: Attended, h: int)
    requires
        even_heads(a),
        0 <= h < a.n_heads,
    ensures
        ({
            let group = a.n_heads / a.n_kv_heads;
            &&& group > 0
            &&& group * a.n_kv_heads == a.n_heads
            &&& 0 <= h / group < a.n_kv_heads
            &&& h / group * group <= h < (h / group + 1) * group
        }),
{
    let group = a.n_heads / a.n_kv_heads;
    vstd::arithmetic::div_mod::lemma_fundamental_div_mod(a.n_heads, a.n_kv_heads);
    assert(group * a.n_kv_heads == a.n_heads) by (nonlinear_arith)
        requires
            a.n_heads == a.n_kv_heads * group,
    ;
    assert(group > 0) by (nonlinear_arith)
        requires
            group * a.n_kv_heads == a.n_heads,
            a.n_heads > 0,
            a.n_kv_heads > 0,
    ;
    vstd::arithmetic::div_mod::lemma_fundamental_div_mod(h, group);
    vstd::arithmetic::div_mod::lemma_div_pos_is_pos(h, group);
    let g = h / group;
    assert(g * group <= h < (g + 1) * group) by (nonlinear_arith)
        requires
            h == group * g + h % group,
            0 <= h % group < group,
    ;
    assert(g < a.n_kv_heads) by (nonlinear_arith)
        requires
            g * group <= h,
            h < group * a.n_kv_heads,
            group > 0,
    ;
}

/// The cached row of a head lies within the rows that are visible.
pub proof fn lemma_visible_row(a: Attended, s: int, h: int, t: int)
    requires
        even_heads(a),
        0 <= h < a.n_heads,
        0 <= t < a.visible(s),
        0 <= a.pos_off + s,
    ensures
        0 <= a.cached(t, h),
        a.cached(t, h) + a.head_dim <= a.visible(s) * (a.n_kv_heads * a.head_dim),
{
    law_groups_are_contiguous(a, h);
    let g = h / (a.n_heads / a.n_kv_heads);
    let kv = a.n_kv_heads * a.head_dim;
    let n = a.visible(s) as int;
    assert(0 <= g * a.head_dim && g * a.head_dim + a.head_dim <= kv) by (nonlinear_arith)
        requires
            0 <= g,
            g + 1 <= a.n_kv_heads,
            a.head_dim > 0,
            kv == a.n_kv_heads * a.head_dim,
    ;
    assert(0 <= t * kv && t * kv + kv <= n * kv) by (nonlinear_arith)
        requires
            0 <= t,
            t + 1 <= n,
            kv >= 0,
    ;
}

/// Equal numbers have equal products.
pub proof fn lemma_same_dot(
    start: u32,
    q1: Seq<u32>,
    i1: int,
    k1: Seq<u32>,
    j1: int,
    q2: Seq<u32>,
    i2: int,
    k2: Seq<u32>,
    j2: int,
    n: nat,
)
    requires
        forall|x: int| 0 <= x < n ==> #[trigger] q1[i1 + x] == q2[i2 + x],
        forall|x: int| 0 <= x < n ==> #[trigger] k1[j1 + x] == k2[j2 + x],
    ensures
        dot(start, q1, i1, k1, j1, n) == dot(start, q2, i2, k2, j2, n),
    decreases n,
{
    if n > 0 {
        lemma_same_dot(start, q1, i1, k1, j1, q2, i2, k2, j2, (n - 1) as nat);
        assert(q1[i1 + (n - 1)] == q2[i2 + (n - 1)]);
        assert(k1[j1 + (n - 1)] == k2[j2 + (n - 1)]);
    }
}

proof fn lemma_same_score(m: MathV, a: Attended, s: int, b: Attended, s2: int, h: int, t: int)
    requires
        even_heads(a),
        same_sight(a, s, b, s2, h),
        0 <= a.pos_off + s,
        0 <= h < a.n_heads,
        0 <= t < a.visible(s),
    ensures
        a.score(m, s, h, t) == b.score(m, s2, h, t),
{
    lemma_visible_row(a, s, h, t);
    let j = a.cached(t, h);
    assert forall|x: int| 0 <= x < a.head_dim implies #[trigger] a.k[j + x] == b.k[j + x] by {}
    lemma_same_dot(
        SIGN,
        a.q,
        a.query(s, h),
        a.k,
        j,
        b.q,
        b.query(s2, h),
        b.k,
        j,
        a.head_dim as nat,
    );
}

proof fn lemma_same_best(m: MathV, a: Attended, s: int, b: Attended, s2: int, h: int, n: nat)
    requires
        even_heads(a),
        same_sight(a, s, b, s2, h),
        0 <= a.pos_off + s,
        0 <= h < a.n_heads,
        n <= a.visible(s),
    ensures
        a.best(m, s, h, n) == b.best(m, s2, h, n),
    decreases n,
{
    if n > 0 {
        lemma_same_best(m, a, s, b, s2, h, (n - 1) as nat);
        lemma_same_score(m, a, s, b, s2, h, n - 1);
    }
}

proof fn lemma_same_total(m: MathV, a: Attended, s: int, b: Attended, s2: int, h: int, n: nat)
    requires
        even_heads(a),
        same_sight(a, s, b, s2, h),
        0 <= a.pos_off + s,
        0 <= h < a.n_heads,
        n <= a.visible(s),
        a.best(m, s, h, a.visible(s)) == b.best(m, s2, h, b.visible(s2)),
    ensures
        a.total(m, s, h, n) == b.total(m, s2, h, n),
    decreases n,
{
    if n > 0 {
        lemma_same_total(m, a, s, b, s2, h, (n - 1) as nat);
        lemma_same_score(m, a, s, b, s2, h, n - 1);
    }
}

proof fn lemma_same_mixed(
    m: MathV,
    a: Attended,
    s: int,
    b: Attended,
    s2: int,
    h: int,
    d: int,
    n: nat,
)
    requires
        even_heads(a),
        same_sight(a, s, b, s2, h),
        0 <= a.pos_off + s,
        0 <= h < a.n_heads,
        0 <= d < a.head_dim,
        n <= a.visible(s),
        a.best(m, s, h, a.visible(s)) == b.best(m, s2, h, b.visible(s2)),
        a.total(m, s, h, a.visible(s)) == b.total(m, s2, h, b.visible(s2)),
    ensures
        a.mixed(m, s, h, d, n) == b.mixed(m, s2, h, d, n),
    decreases n,
{
    if n > 0 {
        lemma_same_mixed(m, a, s, b, s2, h, d, (n - 1) as nat);
        lemma_same_score(m, a, s, b, s2, h, n - 1);
        lemma_visible_row(a, s, h, n - 1);
        assert(a.v[a.cached(n - 1, h) + d] == b.v[a.cached(n - 1, h) + d]);
    }
}

/// Turning keeps the number of numbers.
pub proof fn lemma_rope_len(
    m: MathV,
    data: Seq<u32>,
    cols: int,
    n_heads: nat,
    head_dim: int,
    theta: u32,
    style: RopeStyle,
    pos_off: int,
    k: nat,
)
    requires
        0 <= head_dim,
        n_heads * head_dim <= cols,
        k * cols <= data.len(),
    ensures
        rope_rows(m, data, cols, n_heads, head_dim, theta, style, pos_off, k).len() == data.len(),
    decreases k,
{
    if k > 0 {
        assert(0 <= n_heads * head_dim) by (nonlinear_arith)
            requires
                0 <= head_dim,
        ;
        lemma_row_within(k - 1, cols, k as int);
        lemma_rope_len(m, data, cols, n_heads, head_dim, theta, style, pos_off, (k - 1) as nat);
        let d = rope_rows(
            m,
            data,
            cols,
            n_heads,
            head_dim,
            theta,
            style,
            pos_off,
            (k - 1) as nat,
        );
        lemma_rope_row_len(m, d, (k - 1) * cols, head_dim, theta, style, pos_off + k - 1, n_heads);
    }
}

pub proof fn lemma_rope_row_len(
    m: MathV,
    data: Seq<u32>,
    start: int,
    head_dim: int,
    theta: u32,
    style: RopeStyle,
    pos: int,
    k: nat,
)
    requires
        0 <= head_dim,
        0 <= start,
        start + k * head_dim <= data.len(),
    ensures
        rope_row(m, data, start, head_dim, theta, style, pos, k).len() == data.len(),
    decreases k,
{
    if k > 0 {
        lemma_row_within(k - 1, head_dim, k as int);
        lemma_rope_row_len(m, data, start, head_dim, theta, style, pos, (k - 1) as nat);
        let d = rope_row(m, data, start, head_dim, theta, style, pos, (k - 1) as nat);
        lemma_rope_head_len(
            m,
            d,
            start + (k - 1) * head_dim,
            head_dim,
            theta,
            style,
            pos,
            (head_dim / 2) as nat,
        );
    }
}

pub proof fn lemma_rope_head_len(
    m: MathV,
    data: Seq<u32>,
    base: int,
    head_dim: int,
    theta: u32,
    style: RopeStyle,
    pos: int,
    k: nat,
)
    requires
        0 <= base,
        0 <= head_dim,
        base + head_dim <= data.len(),
        k <= head_dim / 2,
    ensures
        rope_head(m, data, base, head_dim, theta, style, pos, k).len() == data.len(),
    decreases k,
{
    if k > 0 {
        lemma_rope_head_len(m, data, base, head_dim, theta, style, pos, (k - 1) as nat);
    }
}

} // verus!
