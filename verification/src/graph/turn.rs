//! How rows are turned: each pair of each head by itself. So rows are turned one by
//! one, and the two ways to lay out the pairs of a head are the same up to the order of
//! the numbers.

use vstd::arithmetic::div_mod::{
    lemma_fundamental_div_mod, lemma_fundamental_div_mod_converse, lemma_mod_bound,
};
use vstd::prelude::*;

use crate::formats::desc::RopeStyle;
use crate::formats::fixtures::{permuted, source_in_head, source_row};
use crate::graph::ops::{
    angle_of, law_rope_turns_each_pair_once, lemma_row_within, lemma_same_dot, matmul_of, pair_of,
    rope_head, rope_of, rope_row, rope_rows, turned, ArrayV, MathV,
};

verus! {

/// What stands at place `k` of a head that starts at `base`, once it is turned.
pub open spec fn rope_at(
    m: MathV,
    data: Seq<u32>,
    base: int,
    head_dim: int,
    theta: u32,
    style: RopeStyle,
    pos: int,
    k: int,
) -> u32 {
    let half = head_dim / 2;
    let (i, second) = match style {
        RopeStyle::Interleaved => (k / 2, k % 2 == 1),
        RopeStyle::HalfSplit => if k < half {
            (k, false)
        } else {
            (k - half, true)
        },
    };
    let (a, b) = pair_of(style, base, half, i);
    let (y0, y1) = turned(data[a], data[b], angle_of(m, theta, head_dim, pos, i));
    if second {
        y1
    } else {
        y0
    }
}

/// What stands at place `p`, once the first `k` heads of the row at `start` are turned.
pub open spec fn row_at(
    m: MathV,
    data: Seq<u32>,
    start: int,
    head_dim: int,
    theta: u32,
    style: RopeStyle,
    pos: int,
    k: int,
    p: int,
) -> u32 {
    if start <= p < start + k * head_dim {
        let base = start + (p - start) / head_dim * head_dim;
        rope_at(m, data, base, head_dim, theta, style, pos, p - base)
    } else {
        data[p]
    }
}

/// Each place of a head has its number of the pair that it belongs to.
proof fn lemma_head_at(
    m: MathV,
    data: Seq<u32>,
    base: int,
    head_dim: int,
    theta: u32,
    style: RopeStyle,
    pos: int,
    k: int,
)
    requires
        0 <= k < head_dim,
        head_dim % 2 == 0,
        0 <= base,
        base + head_dim <= data.len(),
    ensures
        rope_head(m, data, base, head_dim, theta, style, pos, (head_dim / 2) as nat)[base + k]
            == rope_at(m, data, base, head_dim, theta, style, pos, k),
{
    law_rope_turns_each_pair_once(m, data, base, head_dim, theta, style, pos);
    let half = head_dim / 2;
    let i = match style {
        RopeStyle::Interleaved => k / 2,
        RopeStyle::HalfSplit => if k < half {
            k
        } else {
            k - half
        },
    };
    let (a, b) = pair_of(style, base, half, i);
    assert(0 <= i < half && (a == base + k || b == base + k));
}

/// What stands where, once heads of a row are turned.
proof fn lemma_row_at(
    m: MathV,
    data: Seq<u32>,
    start: int,
    head_dim: int,
    theta: u32,
    style: RopeStyle,
    pos: int,
    k: nat,
)
    requires
        0 < head_dim,
        head_dim % 2 == 0,
        0 <= start,
        start + k * head_dim <= data.len(),
    ensures
        ({
            let out = rope_row(m, data, start, head_dim, theta, style, pos, k);
            &&& out.len() == data.len()
            &&& forall|p: int|
                0 <= p < data.len() ==> #[trigger] out[p] == row_at(
                    m,
                    data,
                    start,
                    head_dim,
                    theta,
                    style,
                    pos,
                    k as int,
                    p,
                )
        }),
    decreases k,
{
    assert(0 * head_dim == 0);
    if k > 0 {
        let j = (k - 1) as nat;
        lemma_row_within(j as int, head_dim, k as int);
        lemma_row_at(m, data, start, head_dim, theta, style, pos, j);
        let d = rope_row(m, data, start, head_dim, theta, style, pos, j);
        let out = rope_row(m, data, start, head_dim, theta, style, pos, k);
        let base = start + j * head_dim;
        assert((k - 1) * head_dim == j * head_dim);
        assert(k * head_dim == j * head_dim + head_dim) by (nonlinear_arith)
            requires
                k == j + 1,
        ;
        law_rope_turns_each_pair_once(m, d, base, head_dim, theta, style, pos);
        assert forall|p: int| 0 <= p < data.len() implies #[trigger] out[p] == row_at(
            m,
            data,
            start,
            head_dim,
            theta,
            style,
            pos,
            k as int,
            p,
        ) by {
            assert(d[p] == row_at(m, data, start, head_dim, theta, style, pos, j as int, p));
            if base <= p < base + head_dim {
                let x = p - base;
                lemma_head_at(m, d, base, head_dim, theta, style, pos, x);
                lemma_fundamental_div_mod_converse(p - start, head_dim, j as int, x);
                let half = head_dim / 2;
                let i = match style {
                    RopeStyle::Interleaved => x / 2,
                    RopeStyle::HalfSplit => if x < half {
                        x
                    } else {
                        x - half
                    },
                };
                let (a, b) = pair_of(style, base, half, i);
                assert(base <= a < base + head_dim && base <= b < base + head_dim);
                assert(d[a] == row_at(m, data, start, head_dim, theta, style, pos, j as int, a));
                assert(d[b] == row_at(m, data, start, head_dim, theta, style, pos, j as int, b));
            }
        }
    }
}

/// What stands where, once rows are turned.
proof fn lemma_rows_at(
    m: MathV,
    data: Seq<u32>,
    cols: int,
    n_heads: nat,
    head_dim: int,
    theta: u32,
    style: RopeStyle,
    pos_off: int,
    k: nat,
)
    requires
        0 < head_dim,
        head_dim % 2 == 0,
        0 < cols,
        n_heads * head_dim <= cols,
        k * cols <= data.len(),
    ensures
        ({
            let out = rope_rows(m, data, cols, n_heads, head_dim, theta, style, pos_off, k);
            &&& out.len() == data.len()
            &&& forall|p: int|
                0 <= p < data.len() ==> #[trigger] out[p] == if p < k * cols {
                    row_at(
                        m,
                        data,
                        p / cols * cols,
                        head_dim,
                        theta,
                        style,
                        pos_off + p / cols,
                        n_heads as int,
                        p,
                    )
                } else {
                    data[p]
                }
        }),
    decreases k,
{
    assert(0 * cols == 0);
    if k > 0 {
        let j = (k - 1) as nat;
        lemma_row_within(j as int, cols, k as int);
        lemma_rows_at(m, data, cols, n_heads, head_dim, theta, style, pos_off, j);
        let d = rope_rows(m, data, cols, n_heads, head_dim, theta, style, pos_off, j);
        let out = rope_rows(m, data, cols, n_heads, head_dim, theta, style, pos_off, k);
        let start = j * cols;
        assert((k - 1) * cols == start);
        assert(k * cols == start + cols) by (nonlinear_arith)
            requires
                k == j + 1,
                start == j * cols,
        ;
        let pos = pos_off + k - 1;
        lemma_row_at(m, d, start, head_dim, theta, style, pos, n_heads);
        assert forall|p: int| 0 <= p < data.len() implies #[trigger] out[p] == if p < k * cols {
            row_at(
                m,
                data,
                p / cols * cols,
                head_dim,
                theta,
                style,
                pos_off + p / cols,
                n_heads as int,
                p,
            )
        } else {
            data[p]
        } by {
            assert(out[p] == row_at(m, d, start, head_dim, theta, style, pos, n_heads as int, p));
            if start <= p < k * cols {
                lemma_fundamental_div_mod_converse(p, cols, j as int, p - start);
                assert(d[p] == data[p]);
                if p < start + n_heads * head_dim {
                    lemma_same_head(m, d, data, start, head_dim, theta, style, pos, n_heads, p);
                }
            }
        }
    }
}

/// A head depends on its own numbers alone.
proof fn lemma_same_head(
    m: MathV,
    d: Seq<u32>,
    data: Seq<u32>,
    start: int,
    head_dim: int,
    theta: u32,
    style: RopeStyle,
    pos: int,
    n_heads: nat,
    p: int,
)
    requires
        0 < head_dim,
        head_dim % 2 == 0,
        0 <= start <= p < start + n_heads * head_dim,
        start + n_heads * head_dim <= data.len(),
        d.len() == data.len(),
        forall|z: int| start <= z < start + n_heads * head_dim ==> #[trigger] d[z] == data[z],
    ensures
        row_at(m, d, start, head_dim, theta, style, pos, n_heads as int, p) == row_at(
            m,
            data,
            start,
            head_dim,
            theta,
            style,
            pos,
            n_heads as int,
            p,
        ),
{
    let (h, x) = lemma_in_head(p - start, head_dim, n_heads as int);
    let base = start + h * head_dim;
    let half = head_dim / 2;
    let i = match style {
        RopeStyle::Interleaved => x / 2,
        RopeStyle::HalfSplit => if x < half {
            x
        } else {
            x - half
        },
    };
    let (a, b) = pair_of(style, base, half, i);
    assert(base <= a < base + head_dim && base <= b < base + head_dim);
}

/// The head and the place in it of a place of a row.
proof fn lemma_in_head(c: int, head_dim: int, n_heads: int) -> (r: (int, int))
    requires
        0 < head_dim,
        0 <= c < n_heads * head_dim,
    ensures
        r.0 == c / head_dim,
        r.1 == c % head_dim,
        0 <= r.0 < n_heads,
        0 <= r.1 < head_dim,
        c == r.0 * head_dim + r.1,
        0 <= r.0 * head_dim,
        r.0 * head_dim + head_dim <= n_heads * head_dim,
{
    let h = c / head_dim;
    let x = c % head_dim;
    lemma_fundamental_div_mod(c, head_dim);
    lemma_mod_bound(c, head_dim);
    assert(head_dim * h == h * head_dim) by (nonlinear_arith);
    vstd::arithmetic::div_mod::lemma_div_pos_is_pos(c, head_dim);
    assert(h < n_heads) by (nonlinear_arith)
        requires
            h * head_dim <= c < n_heads * head_dim,
            head_dim > 0,
    ;
    assert(h * head_dim + head_dim <= n_heads * head_dim && 0 <= h * head_dim) by (nonlinear_arith)
        requires
            0 <= h < n_heads,
            head_dim > 0,
    ;
    (h, x)
}

/// Pair `i` of head `h` of row `s` is turned by the angle of the pair at the position of
/// the row.
pub proof fn lemma_pair_turned(
    m: MathV,
    x: ArrayV,
    n_heads: nat,
    head_dim: int,
    theta: u32,
    style: RopeStyle,
    pos_off: int,
    s: int,
    h: int,
    i: int,
)
    requires
        0 < head_dim,
        head_dim % 2 == 0,
        x.shape.len() == 2,
        n_heads * head_dim <= x.shape[1],
        x.data.len() == x.shape[0] * x.shape[1],
        0 <= s < x.shape[0],
        0 <= h < n_heads,
        0 <= i < head_dim / 2,
    ensures
        ({
            let out = rope_of(m, x, n_heads, head_dim, theta, style, pos_off);
            let (a, b) = pair_of(style, s * x.shape[1] + h * head_dim, head_dim / 2, i);
            (out.data[a], out.data[b]) == turned(
                x.data[a],
                x.data[b],
                angle_of(m, theta, head_dim, pos_off + s, i),
            )
        }),
{
    let cols = x.shape[1] as int;
    let rows = x.shape[0] as nat;
    let start = s * cols;
    let half = head_dim / 2;
    lemma_row_within(s, cols, rows as int);
    lemma_row_within(h, head_dim, n_heads as int);
    let base = start + h * head_dim;
    let out = rope_of(m, x, n_heads, head_dim, theta, style, pos_off);
    let (a, b) = pair_of(style, base, half, i);
    lemma_rows_at(m, x.data, cols, n_heads, head_dim, theta, style, pos_off, rows);
    lemma_fundamental_div_mod_converse(a, cols, s, a - start);
    lemma_fundamental_div_mod_converse(b, cols, s, b - start);
    lemma_fundamental_div_mod_converse(a - start, head_dim, h, a - base);
    lemma_fundamental_div_mod_converse(b - start, head_dim, h, b - base);
    assert(out.data[a] == rope_at(
        m,
        x.data,
        base,
        head_dim,
        theta,
        style,
        pos_off + s,
        a - base,
    ));
    assert(out.data[b] == rope_at(
        m,
        x.data,
        base,
        head_dim,
        theta,
        style,
        pos_off + s,
        b - base,
    ));
}

/// Rows whose heads have their numbers in pairs of neighbours, out of rows whose heads
/// have them in halves.
pub open spec fn in_pairs(data: Seq<u32>, cols: int, head: int) -> Seq<u32> {
    Seq::new(data.len(), |p: int| data[p / cols * cols + source_row(p % cols, head)])
}

/// Where the numbers of a head come from.
proof fn lemma_in_pairs(
    data: Seq<u32>,
    cols: int,
    head: int,
    n_heads: int,
    s: int,
    h: int,
    x: int,
)
    requires
        0 < head,
        0 <= h < n_heads,
        0 <= x < head,
        cols == n_heads * head,
        0 <= s,
        s * cols + cols <= data.len(),
    ensures
        in_pairs(data, cols, head)[s * cols + h * head + x] == data[s * cols + h * head
            + source_in_head(x, head)],
        0 <= s * cols + h * head,
        s * cols + h * head + head <= data.len(),
{
    let c = h * head + x;
    assert(0 <= h * head && h * head + head <= n_heads * head) by (nonlinear_arith)
        requires
            0 <= h < n_heads,
            head > 0,
    ;
    assert(0 <= s * cols) by (nonlinear_arith)
        requires
            0 <= s,
            0 < cols,
    ;
    lemma_fundamental_div_mod_converse(s * cols + c, cols, s, c);
    lemma_fundamental_div_mod_converse(c, head, h, x);
    assert(s * cols + h * head + x == s * cols + c);
}

/// The two ways to lay out the pairs of a head agree, bit for bit: rows whose numbers
/// are put in pairs of neighbours, turned that way, are the rows turned by halves, with
/// their numbers put in pairs of neighbours.
pub proof fn law_two_ways_to_turn(
    m: MathV,
    x: ArrayV,
    n_heads: nat,
    head_dim: int,
    theta: u32,
    pos_off: int,
)
    requires
        0 < head_dim,
        head_dim % 2 == 0,
        x.shape.len() == 2,
        x.shape[1] == n_heads * head_dim,
        x.data.len() == x.shape[0] * x.shape[1],
    ensures
        ({
            let cols = x.shape[1] as int;
            let y = ArrayV { data: in_pairs(x.data, cols, head_dim), ..x };
            let halves = rope_of(m, x, n_heads, head_dim, theta, RopeStyle::HalfSplit, pos_off);
            let pairs = rope_of(m, y, n_heads, head_dim, theta, RopeStyle::Interleaved, pos_off);
            pairs == ArrayV { data: in_pairs(halves.data, cols, head_dim), ..halves }
        }),
{
    let cols = x.shape[1] as int;
    let rows = x.shape[0] as nat;
    let moved = in_pairs(x.data, cols, head_dim);
    let y = ArrayV { data: moved, ..x };
    let halves = rope_of(m, x, n_heads, head_dim, theta, RopeStyle::HalfSplit, pos_off);
    let pairs = rope_of(m, y, n_heads, head_dim, theta, RopeStyle::Interleaved, pos_off);
    if cols == 0 || rows == 0 {
        assert(x.data.len() == 0) by (nonlinear_arith)
            requires
                x.data.len() == rows * cols,
                cols == 0 || rows == 0,
        ;
        crate::graph::ops::lemma_rope_len(
            m,
            x.data,
            cols,
            n_heads,
            head_dim,
            theta,
            RopeStyle::HalfSplit,
            pos_off,
            rows,
        );
        crate::graph::ops::lemma_rope_len(
            m,
            moved,
            cols,
            n_heads,
            head_dim,
            theta,
            RopeStyle::Interleaved,
            pos_off,
            rows,
        );
        assert(pairs.data =~= in_pairs(halves.data, cols, head_dim));
    } else {
        lemma_rows_at(
            m,
            x.data,
            cols,
            n_heads,
            head_dim,
            theta,
            RopeStyle::HalfSplit,
            pos_off,
            rows,
        );
        lemma_rows_at(
            m,
            moved,
            cols,
            n_heads,
            head_dim,
            theta,
            RopeStyle::Interleaved,
            pos_off,
            rows,
        );
        assert forall|p: int| 0 <= p < x.data.len() implies pairs.data[p] == in_pairs(
            halves.data,
            cols,
            head_dim,
        )[p] by {
            let (s, c) = lemma_in_head(p, cols, rows as int);
            let (h, k) = lemma_in_head(c, head_dim, n_heads as int);
            let start = s * cols;
            let base = start + h * head_dim;
            let half = head_dim / 2;
            let i = k / 2;
            let j = source_in_head(k, head_dim);
            assert(0 <= j < head_dim && 0 <= i < half);
            assert(p == base + k);
            lemma_in_pairs(halves.data, cols, head_dim, n_heads as int, s, h, k);
            lemma_in_pairs(x.data, cols, head_dim, n_heads as int, s, h, 2 * i);
            lemma_in_pairs(x.data, cols, head_dim, n_heads as int, s, h, 2 * i + 1);
            assert(moved[base + 2 * i] == x.data[base + i]);
            assert(moved[base + 2 * i + 1] == x.data[base + half + i]);
            let z = base + j;
            lemma_fundamental_div_mod_converse(z, cols, s, h * head_dim + j);
            lemma_fundamental_div_mod_converse(h * head_dim + j, head_dim, h, j);
            assert(p - start == c && z - start == h * head_dim + j);
            assert(pairs.data[p] == rope_at(
                m,
                moved,
                base,
                head_dim,
                theta,
                RopeStyle::Interleaved,
                pos_off + s,
                k,
            ));
            assert(halves.data[z] == rope_at(
                m,
                x.data,
                base,
                head_dim,
                theta,
                RopeStyle::HalfSplit,
                pos_off + s,
                j,
            ));
        }
        assert(pairs.data =~= in_pairs(halves.data, cols, head_dim));
    }
}

/// A weight whose rows are permuted within heads gives rows whose numbers are.
proof fn lemma_permuted_product(x: ArrayV, w: Seq<u32>, n_heads: nat, head: int, n_out: usize, k: usize)
    requires
        0 < head,
        head % 2 == 0,
        n_out == n_heads * head,
        0 < k,
        w.len() == n_out * k,
        x.shape.len() == 2,
    ensures
        matmul_of(x, permuted(w, k as int, head), n_out, k, None).data == in_pairs(
            matmul_of(x, w, n_out, k, None).data,
            n_out as int,
            head,
        ),
{
    let v = permuted(w, k as int, head);
    let one = matmul_of(x, v, n_out, k, None).data;
    let two = matmul_of(x, w, n_out, k, None).data;
    let cols = n_out as int;
    let rows = x.shape[0] as int;
    assert(one.len() == two.len());
    assert forall|p: int| 0 <= p < one.len() implies one[p] == in_pairs(two, cols, head)[p] by {
        assert(cols > 0) by (nonlinear_arith)
            requires
                0 <= p < rows * cols,
                cols >= 0,
        ;
        let (s, c) = lemma_in_head(p, cols, rows);
        let (h, j) = lemma_in_head(c, head, n_heads as int);
        let r = source_row(c, head);
        let i = source_in_head(j, head);
        assert(0 <= i < head);
        assert(r == h * head + i);
        let z = s * cols + r;
        lemma_fundamental_div_mod_converse(z, cols, s, r);
        assert(in_pairs(two, cols, head)[p] == two[z]);
        lemma_row_within(c, k as int, cols);
        lemma_row_within(r, k as int, cols);
        lemma_row_within(s, cols, rows);
        assert forall|y: int| 0 <= y < k implies #[trigger] v[c * k + y] == w[r * k + y] by {
            lemma_fundamental_div_mod_converse(c * k + y, k as int, c, y);
        }
        lemma_same_dot(
            0,
            x.data,
            s * k,
            v,
            c * k,
            x.data,
            s * k,
            w,
            r * k,
            k as nat,
        );
    }
    assert(one =~= in_pairs(two, cols, head));
}

/// The two ways to store a projection agree, bit for bit: with rows of the weight that
/// are permuted within heads, and turned by pairs of neighbours, it gives what the
/// weight gives turned by halves, with the numbers of each head permuted so.
pub proof fn law_two_ways_to_store(
    m: MathV,
    x: ArrayV,
    w: Seq<u32>,
    n_heads: nat,
    head_dim: int,
    n_out: usize,
    k: usize,
    theta: u32,
    pos_off: int,
)
    requires
        0 < head_dim,
        head_dim % 2 == 0,
        n_out == n_heads * head_dim,
        0 < k,
        w.len() == n_out * k,
        x.shape.len() == 2,
    ensures
        ({
            let one = matmul_of(x, permuted(w, k as int, head_dim), n_out, k, None);
            let two = matmul_of(x, w, n_out, k, None);
            let pairs = rope_of(m, one, n_heads, head_dim, theta, RopeStyle::Interleaved, pos_off);
            let halves = rope_of(m, two, n_heads, head_dim, theta, RopeStyle::HalfSplit, pos_off);
            pairs.data == in_pairs(halves.data, n_out as int, head_dim)
        }),
{
    let one = matmul_of(x, permuted(w, k as int, head_dim), n_out, k, None);
    let two = matmul_of(x, w, n_out, k, None);
    lemma_permuted_product(x, w, n_heads, head_dim, n_out, k);
    assert(0 <= x.shape[0] * n_out) by (nonlinear_arith);
    assert(one.shape =~= two.shape);
    assert(one == ArrayV { data: in_pairs(two.data, n_out as int, head_dim), ..two });
    law_two_ways_to_turn(m, two, n_heads, head_dim, theta, pos_off);
}

/// Rows are turned one by one: row `s` of the result is that row turned alone, at the
/// position that it stands at.
pub proof fn law_rows_turn_alone(
    m: MathV,
    x: ArrayV,
    n_heads: nat,
    head_dim: int,
    theta: u32,
    style: RopeStyle,
    pos_off: int,
    s: int,
)
    requires
        0 < head_dim,
        head_dim % 2 == 0,
        x.shape.len() == 2,
        n_heads * head_dim <= x.shape[1],
        x.data.len() == x.shape[0] * x.shape[1],
        0 <= s < x.shape[0],
    ensures
        ({
            let cols = x.shape[1] as int;
            let row = ArrayV {
                shape: seq![1, x.shape[1]],
                data: x.data.subrange(s * cols, s * cols + cols),
            };
            let whole = rope_of(m, x, n_heads, head_dim, theta, style, pos_off);
            let alone = rope_of(m, row, n_heads, head_dim, theta, style, pos_off + s);
            alone.data == whole.data.subrange(s * cols, s * cols + cols)
        }),
{
    let cols = x.shape[1] as int;
    let rows = x.shape[0] as nat;
    let start = s * cols;
    lemma_row_within(s, cols, rows as int);
    let row = ArrayV {
        shape: seq![1, x.shape[1]],
        data: x.data.subrange(start, start + cols),
    };
    let whole = rope_of(m, x, n_heads, head_dim, theta, style, pos_off);
    let alone = rope_of(m, row, n_heads, head_dim, theta, style, pos_off + s);
    assert(1 * cols == cols);
    if cols == 0 {
        crate::graph::ops::lemma_rope_len(
            m,
            row.data,
            cols,
            n_heads,
            head_dim,
            theta,
            style,
            pos_off + s,
            1,
        );
        crate::graph::ops::lemma_rope_len(
            m,
            x.data,
            cols,
            n_heads,
            head_dim,
            theta,
            style,
            pos_off,
            rows,
        );
        assert(alone.data =~= whole.data.subrange(start, start + cols));
    } else {
        lemma_rows_at(m, x.data, cols, n_heads, head_dim, theta, style, pos_off, rows);
        lemma_rows_at(m, row.data, cols, n_heads, head_dim, theta, style, pos_off + s, 1);
        assert forall|c: int| 0 <= c < cols implies alone.data[c] == whole.data[start + c] by {
            lemma_fundamental_div_mod_converse(start + c, cols, s, c);
            lemma_fundamental_div_mod_converse(c, cols, 0, c);
            if c < n_heads * head_dim {
                let (h, k) = lemma_in_head(c, head_dim, n_heads as int);
                let base = h * head_dim;
                let half = head_dim / 2;
                let i = match style {
                    RopeStyle::Interleaved => k / 2,
                    RopeStyle::HalfSplit => if k < half {
                        k
                    } else {
                        k - half
                    },
                };
                let (a, b) = pair_of(style, base, half, i);
                assert(base <= a < base + head_dim && base <= b < base + head_dim);
                assert(pair_of(style, start + base, half, i) == (start + a, start + b));
                assert(row.data[a] == x.data[start + a] && row.data[b] == x.data[start + b]);
                assert(whole.data[start + c] == rope_at(
                    m,
                    x.data,
                    start + base,
                    head_dim,
                    theta,
                    style,
                    pos_off + s,
                    k,
                ));
                assert(alone.data[c] == rope_at(
                    m,
                    row.data,
                    base,
                    head_dim,
                    theta,
                    style,
                    pos_off + s,
                    k,
                ));
            }
        }
        assert(alone.data =~= whole.data.subrange(start, start + cols));
    }
}

} // verus!
