//! What holds at the start of a sequence: the first token is not turned, and it sees
//! nothing but itself.

use vstd::prelude::*;

use crate::float::single::{
    code, is_nan, lemma_less_itself, lemma_one_by_one, lemma_plus_either_zero, lemma_times_one,
    lemma_times_zero, lemma_zero_and_zero, lemma_zero_of_int, negated, of_int, product, quotient,
    same_number, INF, SIGN,
};
use crate::formats::desc::RopeStyle;
use crate::graph::ops::{
    angle_of, law_pairs_make_up_the_head, law_rope_turns_each_pair_once, lemma_row_within, pair_of,
    rope_head, rope_of, rope_row, rope_rows, turned, ArrayV, Attended, MathV, MINUS_TWO, ONE,
};

verus! {

/// Whether the elementary functions are such that nothing turns at the start: zero has
/// no sine and the cosine one, and the powers of the base are finite.
pub open spec fn still(m: MathV, theta: u32, head_dim: int) -> bool {
    &&& forall|z: u32| code(z) == 0 ==> #[trigger] (m.sin_cos)(z) == (z, ONE)
    &&& forall|i: int|
        0 <= i < head_dim / 2 ==> code(
            (m.pow)(theta, #[trigger] quotient(product(MINUS_TWO, of_int(i)), of_int(head_dim))),
        ) < INF
}

/// Whether numbers are the same, place by place, from `from` up to `to`.
pub open spec fn same_numbers(a: Seq<u32>, b: Seq<u32>, from: int, to: int) -> bool {
    forall|p: int| from <= p < to ==> same_number(#[trigger] a[p], b[p])
}

/// A pair of finite numbers is not turned by the angle at the start.
proof fn lemma_pair_rests(m: MathV, theta: u32, head_dim: int, i: int, x0: u32, x1: u32)
    requires
        still(m, theta, head_dim),
        0 <= i < head_dim / 2,
        code(x0) < INF,
        code(x1) < INF,
    ensures
        ({
            let (y0, y1) = turned(x0, x1, angle_of(m, theta, head_dim, 0, i));
            same_number(y0, x0) && same_number(y1, x1)
        }),
{
    let e = quotient(product(MINUS_TWO, of_int(i)), of_int(head_dim));
    let f = (m.pow)(theta, e);
    lemma_zero_of_int();
    lemma_times_zero(f, of_int(0));
    let z = product(of_int(0), f);
    assert((m.sin_cos)(z) == (z, ONE));
    lemma_times_one(x0);
    lemma_times_one(x1);
    lemma_times_zero(x0, z);
    lemma_times_zero(x1, z);
    let n = negated(product(x1, z));
    assert(code(n) == 0);
    lemma_plus_either_zero(x0, n);
    lemma_plus_either_zero(x1, product(x0, z));
}

/// A head of finite numbers is not turned at the start.
proof fn lemma_head_rests(
    m: MathV,
    data: Seq<u32>,
    base: int,
    head_dim: int,
    theta: u32,
    style: RopeStyle,
)
    requires
        still(m, theta, head_dim),
        head_dim >= 0,
        head_dim % 2 == 0,
        0 <= base,
        base + head_dim <= data.len(),
        forall|p: int| base <= p < base + head_dim ==> code(#[trigger] data[p]) < INF,
    ensures
        ({
            let out = rope_head(m, data, base, head_dim, theta, style, 0, (head_dim / 2) as nat);
            out.len() == data.len() && same_numbers(out, data, 0, data.len() as int)
        }),
{
    let half = head_dim / 2;
    let out = rope_head(m, data, base, head_dim, theta, style, 0, half as nat);
    law_rope_turns_each_pair_once(m, data, base, head_dim, theta, style, 0);
    assert forall|p: int| 0 <= p < data.len() implies same_number(#[trigger] out[p], data[p]) by {
        if base <= p < base + head_dim {
            law_pairs_make_up_the_head(style, base, head_dim, p);
            let i = choose|i: int|
                0 <= i < half && (#[trigger] pair_of(style, base, half, i).0 == p || pair_of(
                    style,
                    base,
                    half,
                    i,
                ).1 == p);
            let (a, b) = pair_of(style, base, half, i);
            assert(base <= a < base + head_dim && base <= b < base + head_dim);
            lemma_pair_rests(m, theta, head_dim, i, data[a], data[b]);
        }
    }
}

/// The first `k` heads of a row of finite numbers are not turned at the start.
proof fn lemma_row_rests(
    m: MathV,
    data: Seq<u32>,
    head_dim: int,
    theta: u32,
    style: RopeStyle,
    k: nat,
)
    requires
        still(m, theta, head_dim),
        head_dim >= 0,
        head_dim % 2 == 0,
        k * head_dim <= data.len(),
        forall|p: int| 0 <= p < k * head_dim ==> code(#[trigger] data[p]) < INF,
    ensures
        ({
            let out = rope_row(m, data, 0, head_dim, theta, style, 0, k);
            out.len() == data.len() && same_numbers(out, data, 0, data.len() as int)
        }),
    decreases k,
{
    if k > 0 {
        let j = (k - 1) as nat;
        lemma_row_within(j as int, head_dim, k as int);
        lemma_row_rests(m, data, head_dim, theta, style, j);
        let d = rope_row(m, data, 0, head_dim, theta, style, 0, j);
        let base = 0 + j * head_dim;
        assert forall|p: int| base <= p < base + head_dim implies code(#[trigger] d[p]) < INF by {
            assert(code(data[p]) < INF);
        }
        lemma_head_rests(m, d, base, head_dim, theta, style);
        let out = rope_row(m, data, 0, head_dim, theta, style, 0, k);
        assert forall|p: int| 0 <= p < data.len() implies same_number(#[trigger] out[p], data[p]) by {
            assert(same_number(d[p], data[p]));
        }
    }
}

/// Turning the heads of a row changes nothing before the row.
proof fn lemma_before_the_row(
    m: MathV,
    data: Seq<u32>,
    start: int,
    head_dim: int,
    theta: u32,
    style: RopeStyle,
    pos: int,
    k: nat,
)
    requires
        head_dim >= 0,
        head_dim % 2 == 0,
        0 <= start,
        start + k * head_dim <= data.len(),
    ensures
        ({
            let out = rope_row(m, data, start, head_dim, theta, style, pos, k);
            out.len() == data.len() && forall|p: int| 0 <= p < start ==> #[trigger] out[p] == data[p]
        }),
    decreases k,
{
    if k > 0 {
        let j = (k - 1) as nat;
        lemma_row_within(j as int, head_dim, k as int);
        lemma_before_the_row(m, data, start, head_dim, theta, style, pos, j);
        let d = rope_row(m, data, start, head_dim, theta, style, pos, j);
        law_rope_turns_each_pair_once(m, d, start + j * head_dim, head_dim, theta, style, pos);
    }
}

proof fn lemma_first_row_rests(
    m: MathV,
    data: Seq<u32>,
    cols: int,
    n_heads: nat,
    head_dim: int,
    theta: u32,
    style: RopeStyle,
    k: nat,
)
    requires
        still(m, theta, head_dim),
        head_dim >= 0,
        head_dim % 2 == 0,
        0 <= n_heads * head_dim <= cols,
        k * cols <= data.len(),
        forall|p: int| 0 <= p < cols && p < data.len() ==> code(#[trigger] data[p]) < INF,
    ensures
        ({
            let out = rope_rows(m, data, cols, n_heads, head_dim, theta, style, 0, k);
            out.len() == data.len() && forall|p: int|
                0 <= p < cols && p < data.len() ==> same_number(#[trigger] out[p], data[p])
        }),
    decreases k,
{
    if k > 0 {
        let j = (k - 1) as nat;
        lemma_row_within(j as int, cols, k as int);
        lemma_first_row_rests(m, data, cols, n_heads, head_dim, theta, style, j);
        let d = rope_rows(m, data, cols, n_heads, head_dim, theta, style, 0, j);
        let out = rope_rows(m, data, cols, n_heads, head_dim, theta, style, 0, k);
        if j == 0 {
            assert(0 * cols == 0);
            lemma_row_rests(m, data, head_dim, theta, style, n_heads);
            assert(out == rope_row(m, data, 0, head_dim, theta, style, 0, n_heads));
        } else {
            assert(j * cols >= cols) by (nonlinear_arith)
                requires
                    j >= 1,
                    cols >= 0,
            ;
            lemma_before_the_row(m, d, j * cols, head_dim, theta, style, 0 + k - 1, n_heads);
            assert forall|p: int| 0 <= p < cols && p < data.len() implies same_number(
                #[trigger] out[p],
                data[p],
            ) by {
                assert(out[p] == d[p]);
            }
        }
    }
}

/// At the start of a sequence nothing is turned: the numbers of the first row stay the
/// same, but that a zero may change its sign. The numbers are finite, as are the powers
/// of the base, and the sine and cosine of zero are zero and one.
pub proof fn law_nothing_turns_at_the_start(
    m: MathV,
    x: ArrayV,
    n_heads: nat,
    head_dim: int,
    theta: u32,
    style: RopeStyle,
)
    requires
        still(m, theta, head_dim),
        head_dim >= 0,
        head_dim % 2 == 0,
        x.shape.len() == 2,
        x.data.len() == x.shape[0] * x.shape[1],
        n_heads * head_dim <= x.shape[1],
        forall|p: int| 0 <= p < x.shape[1] && p < x.data.len() ==> code(#[trigger] x.data[p]) < INF,
    ensures
        ({
            let out = rope_of(m, x, n_heads, head_dim, theta, style, 0);
            &&& out.data.len() == x.data.len()
            &&& forall|p: int|
                0 <= p < x.shape[1] && p < x.data.len() ==> same_number(
                    #[trigger] out.data[p],
                    x.data[p],
                )
        }),
{
    assert(0 <= n_heads * head_dim) by (nonlinear_arith)
        requires
            head_dim >= 0,
    ;
    lemma_first_row_rests(
        m,
        x.data,
        x.shape[1] as int,
        n_heads,
        head_dim,
        theta,
        style,
        x.shape[0] as nat,
    );
}

/// A row that sees one value hands it on: every head gives the value itself, but that a
/// negative zero comes out as zero. The score must be finite, and the exponential of zero
/// one.
pub proof fn law_a_lone_value_is_handed_on(m: MathV, a: Attended, s: int, h: int, d: int)
    requires
        a.visible(s) == 1,
        code(a.score(m, s, h, 0)) < INF,
        (m.exp)(0) == ONE,
        !is_nan(a.v[a.cached(0, h) + d]),
    ensures
        ({
            let v = a.v[a.cached(0, h) + d];
            &&& a.share(m, s, h, 0) == ONE
            &&& a.mixed(m, s, h, d, a.visible(s)) == if v == SIGN {
                0
            } else {
                v
            }
        }),
{
    let v = a.v[a.cached(0, h) + d];
    let sc = a.score(m, s, h, 0);
    reveal_with_fuel(Attended::best, 2);
    reveal_with_fuel(Attended::total, 2);
    reveal_with_fuel(Attended::mixed, 2);
    assert(a.best(m, s, h, 1) == sc);
    lemma_less_itself(sc);
    assert(a.raw(m, s, h, 0) == ONE);
    lemma_plus_either_zero(ONE, 0);
    assert(a.total(m, s, h, 1) == ONE);
    lemma_one_by_one();
    lemma_times_one(v);
    lemma_plus_either_zero(v, 0);
    if code(v) == 0 {
        lemma_zero_and_zero(v);
    }
}

} // verus!
