//! Running a prompt at once and running it in two parts give the same logits and
//! leave the same cache.

use vstd::prelude::*;

use crate::float::single::SIGN;
use crate::formats::desc::RopeStyle;
use crate::graph::builder::{
    attends, layer_attends, layers_ascend, nodes_ok, well_formed, width, MAX_DIM,
};
use crate::graph::interp::{
    arg_of, attended, bias_of, cache_after, kv_fits, lemma_heads_fit, lemma_input, lemma_norm_len,
    lemma_prefix_ok, lemma_run_stays, lemma_sound_push, lemma_unit_fits, lemma_value_sound,
    node_value, norm_unit_of, ready, run_of, run_to, sound, value_sound, weight_of, Feed, KvV,
};
use crate::graph::error::GraphFault;
use crate::graph::ir::{GraphV, NodeV, Op};
use crate::graph::ops::{
    attention_of, even_heads, first_unknown, law_attention_is_causal, lemma_cell, lemma_row_within,
    lemma_same_dot, lemma_rope_head_len, lemma_rope_len, lemma_rope_row_len, looked_up, matmul_of,
    pair_of, projected, rmsnorm_of, rope_head, rope_row, rope_rows, same_sight, ArrayV, Attended,
    MathV,
};

verus! {

/// Row `s` of a table whose first `a` rows are cut off, as a place in the whole.
proof fn lemma_shifted(p: int, a: int, w: int)
    requires
        w > 0,
        a >= 0,
        p >= a * w,
    ensures
        (p - a * w) / w == p / w - a,
        (p - a * w) % w == p % w,
        p / w >= a,
{
    let q = p / w;
    vstd::arithmetic::div_mod::lemma_fundamental_div_mod(p, w);
    assert(p - a * w == (q - a) * w + p % w) by (nonlinear_arith)
        requires
            p == w * q + p % w,
    ;
    assert(q >= a) by (nonlinear_arith)
        requires
            p == w * q + p % w,
            p % w < w,
            p >= a * w,
            w > 0,
    ;
    lemma_cell(q - a, p % w, w);
}

/// A place before row `a` lies in an earlier row.
proof fn lemma_before(p: int, a: int, w: int)
    requires
        w > 0,
        0 <= p < a * w,
    ensures
        0 <= p / w < a,
        p / w * w + w <= a * w,
        0 <= p / w * w <= p,
        p == p / w * w + p % w,
        0 <= p % w < w,
{
    let q = p / w;
    vstd::arithmetic::div_mod::lemma_fundamental_div_mod(p, w);
    vstd::arithmetic::div_mod::lemma_div_pos_is_pos(p, w);
    assert(w * q == q * w) by (nonlinear_arith);
    assert(q < a) by (nonlinear_arith)
        requires
            q * w <= p,
            p < a * w,
            w > 0,
    ;
    lemma_row_within(q, w, a);
}

/// Looking up two lists of tokens.
proof fn lemma_split_embed(x: Seq<u32>, y: Seq<u32>, table: Seq<u32>, h: nat)
    requires
        h > 0,
    ensures
        looked_up(x + y, table, h) == looked_up(x, table, h) + looked_up(y, table, h),
{
    let xy = x + y;
    let a = x.len() as int;
    let l = looked_up(xy, table, h);
    let r = looked_up(x, table, h) + looked_up(y, table, h);
    assert((x.len() + y.len()) * h == x.len() * h + y.len() * h) by (nonlinear_arith);
    assert forall|p: int| 0 <= p < l.len() implies l[p] == r[p] by {
        if p < a * h {
            lemma_before(p, a, h as int);
            assert(xy[p / h as int] == x[p / h as int]);
        } else {
            lemma_shifted(p, a, h as int);
            let q = p - a * h;
            lemma_before(q, y.len() as int, h as int);
            assert(xy[p / h as int] == y[q / h as int]);
        }
    }
    assert(l =~= r);
}

/// Known tokens stay known in a part.
proof fn lemma_split_known(x: Seq<u32>, y: Seq<u32>, vocab: nat, k: nat)
    requires
        first_unknown(x + y, vocab, (x + y).len()) is None,
        k <= (x + y).len(),
    ensures
        first_unknown(x + y, vocab, k) is None,
        k <= x.len() ==> first_unknown(x, vocab, k) is None,
        k >= x.len() ==> first_unknown(y, vocab, (k - x.len()) as nat) is None,
    decreases k,
{
    lemma_known_prefix(x + y, vocab, k, (x + y).len());
    if k > 0 {
        lemma_split_known(x, y, vocab, (k - 1) as nat);
        if k <= x.len() {
            assert((x + y)[k - 1] == x[k - 1]);
        } else {
            assert((x + y)[k - 1] == y[k - 1 - x.len()]);
        }
    }
}

proof fn lemma_known_prefix(x: Seq<u32>, vocab: nat, k: nat, n: nat)
    requires
        k <= n,
        first_unknown(x, vocab, n) is None,
    ensures
        first_unknown(x, vocab, k) is None,
    decreases n - k,
{
    if k < n {
        lemma_known_prefix(x, vocab, k, (n - 1) as nat);
    }
}

/// Products with the rows of two tables.
proof fn lemma_split_matmul(
    x: Seq<u32>,
    y: Seq<u32>,
    ra: nat,
    rb: nat,
    w: Seq<u32>,
    n_out: nat,
    k: nat,
    bias: Option<Seq<u32>>,
)
    requires
        n_out > 0,
        k > 0,
        x.len() == ra * k,
        y.len() == rb * k,
    ensures
        ({
            let f = |z: Seq<u32>, rows: nat|
                Seq::new(
                    rows * n_out,
                    |p: int| projected(z, w, k, bias, p / n_out as int, p % n_out as int),
                );
            f(x + y, ra + rb) == f(x, ra) + f(y, rb)
        }),
{
    let f = |z: Seq<u32>, rows: nat|
        Seq::new(
            rows * n_out,
            |p: int| projected(z, w, k, bias, p / n_out as int, p % n_out as int),
        );
    let l = f(x + y, ra + rb);
    let r = f(x, ra) + f(y, rb);
    assert((ra + rb) * n_out == ra * n_out + rb * n_out) by (nonlinear_arith);
    assert forall|p: int| 0 <= p < l.len() implies l[p] == r[p] by {
        let n = p % n_out as int;
        let s = p / n_out as int;
        if p < ra * n_out {
            lemma_before(p, ra as int, n_out as int);
            lemma_row_within(s, k as int, ra as int);
            lemma_same_dot(0, x + y, s * k, w, n * k, x, s * k, w, n * k, k);
        } else {
            lemma_shifted(p, ra as int, n_out as int);
            let q = p - ra * n_out;
            lemma_before(q, rb as int, n_out as int);
            let s2 = s - ra;
            lemma_row_within(s2, k as int, rb as int);
            assert(s * k == ra * k + s2 * k) by (nonlinear_arith)
                requires
                    s == ra + s2,
            ;
            assert forall|t: int| 0 <= t < k implies #[trigger] (x + y)[s * k + t] == y[s2 * k
                + t] by {}
            lemma_same_dot(0, x + y, s * k, w, n * k, y, s2 * k, w, n * k, k);
        }
    }
    assert(l =~= r);
}

/// Norms of the runs of two lists.
proof fn lemma_split_norm(
    m: MathV,
    x: Seq<u32>,
    y: Seq<u32>,
    na: nat,
    nb: nat,
    w: Seq<u32>,
    eps: u32,
    unit: nat,
    s1: Seq<usize>,
    s2: Seq<usize>,
    s3: Seq<usize>,
)
    requires
        unit > 0,
        x.len() == na * unit,
        y.len() == nb * unit,
    ensures
        rmsnorm_of(m, (ArrayV { shape: s1, data: x + y }), w, eps, unit).data == rmsnorm_of(
            m,
            (ArrayV { shape: s2, data: x }),
            w,
            eps,
            unit,
        ).data + rmsnorm_of(m, (ArrayV { shape: s3, data: y }), w, eps, unit).data,
{
    let l = rmsnorm_of(m, ArrayV { shape: s1, data: x + y }, w, eps, unit).data;
    let r = rmsnorm_of(m, ArrayV { shape: s2, data: x }, w, eps, unit).data + rmsnorm_of(
        m,
        ArrayV { shape: s3, data: y },
        w,
        eps,
        unit,
    ).data;
    let u = unit as int;
    assert((na + nb) * u == na * u + nb * u) by (nonlinear_arith);
    vstd::arithmetic::div_mod::lemma_div_by_multiple(na as int, u);
    vstd::arithmetic::div_mod::lemma_div_by_multiple(nb as int, u);
    vstd::arithmetic::div_mod::lemma_div_by_multiple((na + nb) as int, u);
    assert(l.len() == r.len());
    assert forall|p: int| 0 <= p < l.len() implies l[p] == r[p] by {
        let c = p / u * u;
        if p < na * u {
            lemma_before(p, na as int, u);
            lemma_same_dot(SIGN, x + y, c, x + y, c, x, c, x, c, unit);
        } else {
            lemma_shifted(p, na as int, u);
            let q = p - na * u;
            lemma_before(q, nb as int, u);
            let c2 = q / u * u;
            assert(c == na * u + c2) by (nonlinear_arith)
                requires
                    c == p / u * u,
                    c2 == (p / u - na) * u,
            ;
            assert forall|t: int| 0 <= t < unit implies #[trigger] (x + y)[c + t] == y[c2
                + t] by {}
            lemma_same_dot(SIGN, x + y, c, x + y, c, y, c2, y, c2, unit);
        }
    }
    assert(l =~= r);
}

/// Turning a head in the first of two lists, and in the second.
proof fn lemma_split_head(
    m: MathV,
    x: Seq<u32>,
    y: Seq<u32>,
    base: int,
    d: int,
    theta: u32,
    style: RopeStyle,
    pos: int,
    k: nat,
)
    requires
        0 <= d,
        0 <= base,
        k <= d / 2,
    ensures
        base + d <= x.len() ==> rope_head(m, x + y, base, d, theta, style, pos, k) == rope_head(
            m,
            x,
            base,
            d,
            theta,
            style,
            pos,
            k,
        ) + y,
        base + d <= y.len() ==> rope_head(m, x + y, x.len() + base, d, theta, style, pos, k) == x
            + rope_head(m, y, base, d, theta, style, pos, k),
    decreases k,
{
    if k > 0 {
        let k1 = (k - 1) as nat;
        lemma_split_head(m, x, y, base, d, theta, style, pos, k1);
        if base + d <= x.len() {
            lemma_rope_head_len(m, x, base, d, theta, style, pos, k1);
            let x1 = rope_head(m, x, base, d, theta, style, pos, k1);
            assert(rope_head(m, x + y, base, d, theta, style, pos, k) =~= rope_head(
                m,
                x,
                base,
                d,
                theta,
                style,
                pos,
                k,
            ) + y);
        }
        if base + d <= y.len() {
            lemma_rope_head_len(m, y, base, d, theta, style, pos, k1);
            let y1 = rope_head(m, y, base, d, theta, style, pos, k1);
            let (a, b) = pair_of(style, base, d / 2, k - 1);
            let (a2, b2) = pair_of(style, x.len() + base, d / 2, k - 1);
            assert(a2 == x.len() + a && b2 == x.len() + b);
            assert((x + y1)[a2] == y1[a] && (x + y1)[b2] == y1[b]);
            assert(rope_head(m, x + y, x.len() + base, d, theta, style, pos, k) =~= x + rope_head(
                m,
                y,
                base,
                d,
                theta,
                style,
                pos,
                k,
            ));
        }
    }
}

/// Turning a row in the first of two lists, and in the second.
pub proof fn lemma_split_row(
    m: MathV,
    x: Seq<u32>,
    y: Seq<u32>,
    start: int,
    d: int,
    theta: u32,
    style: RopeStyle,
    pos: int,
    k: nat,
)
    requires
        0 <= d,
        0 <= start,
    ensures
        start + k * d <= x.len() ==> rope_row(m, x + y, start, d, theta, style, pos, k)
            == rope_row(m, x, start, d, theta, style, pos, k) + y,
        start + k * d <= y.len() ==> rope_row(m, x + y, x.len() + start, d, theta, style, pos, k)
            == x + rope_row(m, y, start, d, theta, style, pos, k),
    decreases k,
{
    if k > 0 {
        let k1 = (k - 1) as nat;
        lemma_row_within(k - 1, d, k as int);
        lemma_split_row(m, x, y, start, d, theta, style, pos, k1);
        let base = start + (k - 1) * d;
        if start + k * d <= x.len() {
            lemma_rope_row_len(m, x, start, d, theta, style, pos, k1);
            let x1 = rope_row(m, x, start, d, theta, style, pos, k1);
            lemma_split_head(m, x1, y, base, d, theta, style, pos, (d / 2) as nat);
        }
        if start + k * d <= y.len() {
            lemma_rope_row_len(m, y, start, d, theta, style, pos, k1);
            let y1 = rope_row(m, y, start, d, theta, style, pos, k1);
            lemma_split_head(m, x, y1, base, d, theta, style, pos, (d / 2) as nat);
            assert(x.len() + start + (k - 1) * d == x.len() + base);
        }
    }
}

/// Turning the rows of two tables, the second at the positions behind the first.
proof fn lemma_split_rope(
    m: MathV,
    x: Seq<u32>,
    y: Seq<u32>,
    ra: nat,
    cols: int,
    n: nat,
    d: int,
    theta: u32,
    style: RopeStyle,
    pos: int,
    k: nat,
)
    requires
        0 <= d,
        n * d <= cols,
        x.len() == ra * cols,
        k > ra ==> (k - ra) * cols <= y.len(),
    ensures
        k <= ra ==> rope_rows(m, x + y, cols, n, d, theta, style, pos, k) == rope_rows(
            m,
            x,
            cols,
            n,
            d,
            theta,
            style,
            pos,
            k,
        ) + y,
        k >= ra ==> rope_rows(m, x + y, cols, n, d, theta, style, pos, k) == rope_rows(
            m,
            x,
            cols,
            n,
            d,
            theta,
            style,
            pos,
            ra,
        ) + rope_rows(m, y, cols, n, d, theta, style, pos + ra, (k - ra) as nat),
    decreases k,
{
    assert(0 <= n * d) by (nonlinear_arith)
        requires
            0 <= d,
    ;
    if k > 0 {
        let k1 = (k - 1) as nat;
        if k > ra {
            lemma_row_within(k - ra - 1, cols, k - ra);
        }
        lemma_split_rope(m, x, y, ra, cols, n, d, theta, style, pos, k1);
        if k <= ra {
            lemma_row_within(k - 1, cols, ra as int);
            lemma_rope_len(m, x, cols, n, d, theta, style, pos, k1);
            let x1 = rope_rows(m, x, cols, n, d, theta, style, pos, k1);
            lemma_split_row(m, x1, y, (k - 1) * cols, d, theta, style, pos + k - 1, n);
        } else {
            lemma_rope_len(m, x, cols, n, d, theta, style, pos, ra);
            let x1 = rope_rows(m, x, cols, n, d, theta, style, pos, ra);
            let j = (k - ra - 1) as nat;
            lemma_rope_len(m, y, cols, n, d, theta, style, pos + ra, j);
            let y1 = rope_rows(m, y, cols, n, d, theta, style, pos + ra, j);
            lemma_split_row(m, x1, y1, j * cols, d, theta, style, pos + k - 1, n);
            assert((k - 1) * cols == x1.len() + j * cols) by (nonlinear_arith)
                requires
                    x1.len() == ra * cols,
                    k - 1 == ra + j,
            ;
        }
        if k == ra {
            assert(rope_rows(m, y, cols, n, d, theta, style, pos + ra, 0) == y);
        }
    } else if ra == 0 {
        assert(x + y =~= rope_rows(m, x, cols, n, d, theta, style, pos, 0) + y);
    }
}

/// Attention over the rows of two tables: the first sees the cache up to its own
/// rows, the second all of it.
proof fn lemma_split_attention(
    m: MathV,
    w: Attended,
    a: Attended,
    b: Attended,
    ra: nat,
    rb: nat,
)
    requires
        even_heads(w),
        (a.n_heads, a.n_kv_heads, a.head_dim) == (w.n_heads, w.n_kv_heads, w.head_dim),
        (b.n_heads, b.n_kv_heads, b.head_dim) == (w.n_heads, w.n_kv_heads, w.head_dim),
        w.q == a.q + b.q,
        a.q.len() == ra * (w.n_heads * w.head_dim),
        b.q.len() == rb * (w.n_heads * w.head_dim),
        a.pos_off == w.pos_off,
        b.pos_off == w.pos_off + ra,
        b.k == w.k,
        b.v == w.v,
        w.k.len() == (w.pos_off + ra + rb) * (w.n_kv_heads * w.head_dim),
        w.v.len() == w.k.len(),
        a.k == w.k.take((w.pos_off + ra) * (w.n_kv_heads * w.head_dim)),
        a.v == w.v.take((w.pos_off + ra) * (w.n_kv_heads * w.head_dim)),
        ra + rb <= usize::MAX,
    ensures
        attention_of(m, w, (ra + rb) as usize).data == attention_of(m, a, ra as usize).data
            + attention_of(m, b, rb as usize).data,
{
    let l = attention_of(m, w, (ra + rb) as usize).data;
    let r = attention_of(m, a, ra as usize).data + attention_of(m, b, rb as usize).data;
    let n = w.n_heads;
    let hd = w.head_dim;
    let wd = n * hd;
    let kv = w.n_kv_heads * hd;
    assert((ra + rb) * wd == ra * wd + rb * wd) by (nonlinear_arith);
    assert(wd > 0) by (nonlinear_arith)
        requires
            wd == n * hd,
            n > 0,
            hd > 0,
    ;
    assert(kv > 0) by (nonlinear_arith)
        requires
            kv == w.n_kv_heads * hd,
            w.n_kv_heads > 0,
            hd > 0,
    ;
    assert(ra * wd == (ra * n) * hd) by (nonlinear_arith)
        requires
            wd == n * hd,
    ;
    assert(rb * wd == (rb * n) * hd) by (nonlinear_arith)
        requires
            wd == n * hd,
    ;
    assert(ra * n >= 0 && ra * wd >= 0 && rb * wd >= 0) by (nonlinear_arith)
        requires
            n > 0,
            wd > 0,
            ra >= 0,
            rb >= 0,
    ;
    assert((w.pos_off + ra) * kv <= w.k.len()) by (nonlinear_arith)
        requires
            w.k.len() == (w.pos_off + ra + rb) * kv,
            kv > 0,
            rb >= 0,
    ;
    assert forall|p: int| 0 <= p < l.len() implies l[p] == r[p] by {
        let row = p / hd;
        let d = p % hd;
        if p < ra * wd {
            lemma_before(p, ra * n, hd);
            lemma_before(row, ra as int, n);
            let s = row / n;
            let h = row % n;
            assert((w.pos_off + s + 1) * kv <= (w.pos_off + ra) * kv) by (nonlinear_arith)
                requires
                    s + 1 <= ra,
                    kv > 0,
            ;
            lemma_row_within(s, wd, ra as int);
            lemma_row_within(h, hd, n);
            assert(w.query(s, h) == a.query(s, h));
            assert(same_sight(w, s, a, s, h)) by {
                assert forall|x: int| 0 <= x < hd implies #[trigger] w.q[w.query(s, h) + x]
                    == a.q[a.query(s, h) + x] by {}
            }
            law_attention_is_causal(m, w, s, a, s, h, d);
        } else {
            lemma_shifted(p, ra * n, hd);
            let p2 = p - ra * wd;
            let row2 = row - ra * n;
            lemma_before(p2, rb * n, hd);
            assert(row2 == p2 / hd);
            lemma_shifted(row, ra as int, n);
            lemma_before(row2, rb as int, n);
            let s = row / n;
            let s2 = s - ra;
            let h = row % n;
            assert((w.pos_off + s + 1) * kv <= w.k.len()) by (nonlinear_arith)
                requires
                    w.k.len() == (w.pos_off + ra + rb) * kv,
                    s + 1 <= ra + rb,
                    kv > 0,
            ;
            lemma_row_within(s2, wd, rb as int);
            lemma_row_within(h, hd, n);
            assert(s * wd == ra * wd + s2 * wd) by (nonlinear_arith)
                requires
                    s == ra + s2,
            ;
            assert(w.query(s, h) == a.q.len() + b.query(s2, h));
            assert(same_sight(w, s, b, s2, h)) by {
                assert forall|x: int| 0 <= x < hd implies #[trigger] w.q[w.query(s, h) + x]
                    == b.q[b.query(s2, h) + x] by {}
            }
            law_attention_is_causal(m, w, s, b, s2, h, d);
        }
    }
    assert(l =~= r);
}

/// The first `ra` rows of a value.
pub open spec fn head_of(t: ArrayV, ra: nat) -> ArrayV {
    ArrayV {
        shape: seq![ra as usize, t.shape[1]],
        data: t.data.take((ra * t.shape[1]) as int),
    }
}

/// The rows of a value behind the first `ra`.
pub open spec fn tail_of(t: ArrayV, ra: nat) -> ArrayV {
    ArrayV {
        shape: seq![(t.shape[0] - ra) as usize, t.shape[1]],
        data: t.data.skip((ra * t.shape[1]) as int),
    }
}

/// The first rows of every value.
pub open spec fn heads_of(v: Seq<ArrayV>, ra: nat) -> Seq<ArrayV> {
    v.map_values(|t: ArrayV| head_of(t, ra))
}

/// The other rows of every value.
pub open spec fn tails_of(v: Seq<ArrayV>, ra: nat) -> Seq<ArrayV> {
    v.map_values(|t: ArrayV| tail_of(t, ra))
}

/// The run of the first `ra` tokens.
pub open spec fn first_feed(c: Feed, ra: nat) -> Feed {
    Feed { tokens: c.tokens.take(ra as int), ..c }
}

/// The run of the other tokens, which stand behind those.
pub open spec fn second_feed(c: Feed, ra: nat) -> Feed {
    Feed { tokens: c.tokens.skip(ra as int), pos: c.pos + ra, ..c }
}

/// Whether the caches of the three runs hold what they must when a node attends.
pub open spec fn caches_meet(
    c: Feed,
    n: NodeV,
    vals: Seq<ArrayV>,
    ra: nat,
    kw: KvV,
    ka: KvV,
    kb: KvV,
) -> bool {
    n.op matches Op::Attention { layer, n_kv_heads, head_dim, .. } ==> {
        let l = layer as int;
        let kvd = n_kv_heads * head_dim;
        &&& kb.k[l] == kw.k[l]
        &&& kb.v[l] == kw.v[l]
        &&& kw.k[l].len() == (c.pos + c.tokens.len()) * kvd
        &&& kw.v[l].len() == (c.pos + c.tokens.len()) * kvd
        &&& ka.k[l] == kw.k[l].take((c.pos + ra) * kvd)
        &&& ka.v[l] == kw.v[l].take((c.pos + ra) * kvd)
    }
}

/// A sound value is its head followed by its tail.
proof fn lemma_halves(t: ArrayV, n: NodeV, rows: nat, ra: nat)
    requires
        value_sound(t, n, rows),
        ra <= rows,
        rows <= usize::MAX,
    ensures
        head_of(t, ra).data + tail_of(t, ra).data == t.data,
        head_of(t, ra).data.len() == ra * width(n),
        tail_of(t, ra).data.len() == (rows - ra) * width(n),
        head_of(t, ra).shape == seq![ra as usize, width(n) as usize],
        tail_of(t, ra).shape == seq![(rows - ra) as usize, width(n) as usize],
        ra * width(n) <= t.data.len(),
{
    let w = width(n);
    assert(rows * w == ra * w + (rows - ra) * w) by (nonlinear_arith);
    assert(ra * w >= 0 && (rows - ra) * w >= 0) by (nonlinear_arith)
        requires
            ra >= 0,
            rows - ra >= 0,
            w >= 0,
    ;
    assert(head_of(t, ra).data + tail_of(t, ra).data =~= t.data);
}

/// Two lists whose concatenation is known are its take and its skip.
proof fn lemma_cut(t: Seq<u32>, x: Seq<u32>, y: Seq<u32>)
    requires
        t == x + y,
    ensures
        t.take(x.len() as int) == x,
        t.skip(x.len() as int) == y,
{
    assert(t.take(x.len() as int) =~= x);
    assert(t.skip(x.len() as int) =~= y);
}

/// An embedding gives each part its rows.
proof fn lemma_node_embed(
    c: Feed,
    p: Seq<NodeV>,
    n: NodeV,
    vals: Seq<ArrayV>,
    g: GraphV,
    kv: KvV,
    ra: nat,
    kw: KvV,
    ka: KvV,
    kb: KvV,
)
    requires
        ready(c, p, n, vals, g, kv),
        ra <= c.tokens.len(),
        node_value(c, vals, kw, n) is Ok,
        caches_meet(c, n, vals, ra, kw, ka, kb),
        n.op is Embed,
    ensures
        node_value(first_feed(c, ra), heads_of(vals, ra), ka, n) == Ok::<ArrayV, GraphFault>(
            head_of(node_value(c, vals, kw, n)->Ok_0, ra),
        ),
        node_value(second_feed(c, ra), tails_of(vals, ra), kb, n) == Ok::<ArrayV, GraphFault>(
            tail_of(node_value(c, vals, kw, n)->Ok_0, ra),
        ),
{
    reveal(node_value);
    let rows = c.tokens.len();
    let rb = (rows - ra) as nat;
    let w = width(n);
    let t = node_value(c, vals, kw, n)->Ok_0;
    lemma_value_sound(c, p, n, vals, g, kv, kw);
    lemma_halves(t, n, rows, ra);
    let ids = c.tokens;
    let ia = ids.take(ra as int);
    let ib = ids.skip(ra as int);
    assert(ia + ib =~= ids);
    let vocab = c.model.hyperparams.vocab_size as usize;
    lemma_split_known(ia, ib, vocab as nat, ra);
    lemma_split_known(ia, ib, vocab as nat, rows);
    let table = weight_of(c.model, c.files, n.op->Embed_weight.0 as int)->Ok_0;
    lemma_split_embed(ia, ib, table, w as nat);
    lemma_cut(t.data, looked_up(ia, table, w as nat), looked_up(ib, table, w as nat));
    assert(node_value(first_feed(c, ra), heads_of(vals, ra), ka, n)->Ok_0 =~= head_of(t, ra));
    assert(node_value(second_feed(c, ra), tails_of(vals, ra), kb, n)->Ok_0 =~= tail_of(t, ra));
}

/// A product gives each part its rows.
proof fn lemma_node_matmul(
    c: Feed,
    p: Seq<NodeV>,
    n: NodeV,
    vals: Seq<ArrayV>,
    g: GraphV,
    kv: KvV,
    ra: nat,
    kw: KvV,
    ka: KvV,
    kb: KvV,
)
    requires
        ready(c, p, n, vals, g, kv),
        ra <= c.tokens.len(),
        node_value(c, vals, kw, n) is Ok,
        caches_meet(c, n, vals, ra, kw, ka, kb),
        n.op is MatMul,
    ensures
        node_value(first_feed(c, ra), heads_of(vals, ra), ka, n) == Ok::<ArrayV, GraphFault>(
            head_of(node_value(c, vals, kw, n)->Ok_0, ra),
        ),
        node_value(second_feed(c, ra), tails_of(vals, ra), kb, n) == Ok::<ArrayV, GraphFault>(
            tail_of(node_value(c, vals, kw, n)->Ok_0, ra),
        ),
{
    reveal(node_value);
    let rows = c.tokens.len();
    let rb = (rows - ra) as nat;
    let w = width(n);
    let t = node_value(c, vals, kw, n)->Ok_0;
    lemma_value_sound(c, p, n, vals, g, kv, kw);
    lemma_halves(t, n, rows, ra);
    let x = arg_of(vals, n, 0);
    lemma_input(p, c.model, vals, rows, n.inputs[0]);
    lemma_halves(x, p[n.inputs[0] - 1], rows, ra);
    assert(arg_of(heads_of(vals, ra), n, 0) == head_of(x, ra));
    assert(arg_of(tails_of(vals, ra), n, 0) == tail_of(x, ra));
    let xa = head_of(x, ra);
    let xb = tail_of(x, ra);
    let weight = n.op->MatMul_weight;
    let bias = bias_of(c, n.op)->Ok_0;
    assert(bias_of(first_feed(c, ra), n.op) == bias_of(c, n.op));
    assert(bias_of(second_feed(c, ra), n.op) == bias_of(c, n.op));
    let wt = weight_of(c.model, c.files, weight.0 as int)->Ok_0;
    let k = width(p[n.inputs[0] - 1]);
    lemma_split_matmul(xa.data, xb.data, ra, rb, wt, w as nat, k as nat, bias);
    let ta = matmul_of(xa, wt, w as usize, k as usize, bias);
    let tb = matmul_of(xb, wt, w as usize, k as usize, bias);
    let f = |z: Seq<u32>, r: nat|
        Seq::new(
            r * (w as nat),
            |p: int|
                projected(z, wt, k as nat, bias, p / w as nat as int, p % w as nat as int),
        );
    assert(t.data =~= f(xa.data + xb.data, ra + rb));
    assert(ta.data =~= f(xa.data, ra));
    assert(tb.data =~= f(xb.data, rb));
    lemma_cut(t.data, ta.data, tb.data);
    assert(node_value(first_feed(c, ra), heads_of(vals, ra), ka, n)->Ok_0 =~= head_of(t, ra));
    assert(node_value(second_feed(c, ra), tails_of(vals, ra), kb, n)->Ok_0 =~= tail_of(t, ra));
}

/// A norm gives each part its rows.
proof fn lemma_node_norm(
    c: Feed,
    p: Seq<NodeV>,
    n: NodeV,
    vals: Seq<ArrayV>,
    g: GraphV,
    kv: KvV,
    ra: nat,
    kw: KvV,
    ka: KvV,
    kb: KvV,
)
    requires
        ready(c, p, n, vals, g, kv),
        ra <= c.tokens.len(),
        node_value(c, vals, kw, n) is Ok,
        caches_meet(c, n, vals, ra, kw, ka, kb),
        n.op is RmsNorm,
    ensures
        node_value(first_feed(c, ra), heads_of(vals, ra), ka, n) == Ok::<ArrayV, GraphFault>(
            head_of(node_value(c, vals, kw, n)->Ok_0, ra),
        ),
        node_value(second_feed(c, ra), tails_of(vals, ra), kb, n) == Ok::<ArrayV, GraphFault>(
            tail_of(node_value(c, vals, kw, n)->Ok_0, ra),
        ),
{
    reveal(node_value);
    let rows = c.tokens.len();
    let rb = (rows - ra) as nat;
    let w = width(n);
    let t = node_value(c, vals, kw, n)->Ok_0;
    lemma_value_sound(c, p, n, vals, g, kv, kw);
    lemma_halves(t, n, rows, ra);
    let x = arg_of(vals, n, 0);
    lemma_input(p, c.model, vals, rows, n.inputs[0]);
    lemma_halves(x, p[n.inputs[0] - 1], rows, ra);
    assert(arg_of(heads_of(vals, ra), n, 0) == head_of(x, ra));
    assert(arg_of(tails_of(vals, ra), n, 0) == tail_of(x, ra));
    let xa = head_of(x, ra);
    let xb = tail_of(x, ra);
    let head_dim = n.op->RmsNorm_head_dim;
    let unit = norm_unit_of(w, head_dim);
    lemma_unit_fits(w, head_dim);
    lemma_norm_len(ra, w as nat, unit as nat);
    lemma_norm_len(rb, w as nat, unit as nat);
    let na = (ra * w) as nat / unit as nat;
    let nb = (rb * w) as nat / unit as nat;
    let wt = weight_of(c.model, c.files, n.op->RmsNorm_weight.0 as int)->Ok_0;
    let eps = n.op->eps;
    lemma_split_norm(
        c.math,
        xa.data,
        xb.data,
        na,
        nb,
        wt,
        eps,
        unit as nat,
        x.shape,
        xa.shape,
        xb.shape,
    );
    let ta = rmsnorm_of(c.math, xa, wt, eps, unit as nat);
    let tb = rmsnorm_of(c.math, xb, wt, eps, unit as nat);
    assert(x =~= ArrayV { shape: x.shape, data: xa.data + xb.data });
    lemma_cut(t.data, ta.data, tb.data);
    assert(node_value(first_feed(c, ra), heads_of(vals, ra), ka, n)->Ok_0 =~= head_of(t, ra));
    assert(node_value(second_feed(c, ra), tails_of(vals, ra), kb, n)->Ok_0 =~= tail_of(t, ra));
}

/// A rotation gives each part its rows.
proof fn lemma_node_rope(
    c: Feed,
    p: Seq<NodeV>,
    n: NodeV,
    vals: Seq<ArrayV>,
    g: GraphV,
    kv: KvV,
    ra: nat,
    kw: KvV,
    ka: KvV,
    kb: KvV,
)
    requires
        ready(c, p, n, vals, g, kv),
        ra <= c.tokens.len(),
        node_value(c, vals, kw, n) is Ok,
        caches_meet(c, n, vals, ra, kw, ka, kb),
        n.op is Rope,
    ensures
        node_value(first_feed(c, ra), heads_of(vals, ra), ka, n) == Ok::<ArrayV, GraphFault>(
            head_of(node_value(c, vals, kw, n)->Ok_0, ra),
        ),
        node_value(second_feed(c, ra), tails_of(vals, ra), kb, n) == Ok::<ArrayV, GraphFault>(
            tail_of(node_value(c, vals, kw, n)->Ok_0, ra),
        ),
{
    reveal(node_value);
    let rows = c.tokens.len();
    let rb = (rows - ra) as nat;
    let w = width(n);
    let t = node_value(c, vals, kw, n)->Ok_0;
    lemma_value_sound(c, p, n, vals, g, kv, kw);
    lemma_halves(t, n, rows, ra);
    let x = arg_of(vals, n, 0);
    lemma_input(p, c.model, vals, rows, n.inputs[0]);
    lemma_halves(x, p[n.inputs[0] - 1], rows, ra);
    assert(arg_of(heads_of(vals, ra), n, 0) == head_of(x, ra));
    assert(arg_of(tails_of(vals, ra), n, 0) == tail_of(x, ra));
    let xa = head_of(x, ra);
    let xb = tail_of(x, ra);
    let nh = n.op->Rope_n_heads;
    let hd = n.op->Rope_head_dim;
    let theta = n.op->theta;
    let style = n.op->style;
    lemma_split_rope(
        c.math,
        xa.data,
        xb.data,
        ra,
        w as int,
        nh as nat,
        hd as int,
        theta,
        style,
        c.pos as int,
        rows,
    );
    lemma_rope_len(
        c.math,
        xa.data,
        w as int,
        nh as nat,
        hd as int,
        theta,
        style,
        c.pos as int,
        ra,
    );
    let ya = rope_rows(
        c.math,
        xa.data,
        w as int,
        nh as nat,
        hd as int,
        theta,
        style,
        c.pos as int,
        ra,
    );
    let yb = rope_rows(
        c.math,
        xb.data,
        w as int,
        nh as nat,
        hd as int,
        theta,
        style,
        (c.pos + ra) as int,
        rb,
    );
    assert(t.data == ya + yb);
    lemma_cut(t.data, ya, yb);
    assert(node_value(first_feed(c, ra), heads_of(vals, ra), ka, n)->Ok_0 =~= head_of(t, ra));
    assert(node_value(second_feed(c, ra), tails_of(vals, ra), kb, n)->Ok_0 =~= tail_of(t, ra));
}

/// A sum, or a gate, gives each part its rows.
proof fn lemma_node_pairwise(
    c: Feed,
    p: Seq<NodeV>,
    n: NodeV,
    vals: Seq<ArrayV>,
    g: GraphV,
    kv: KvV,
    ra: nat,
    kw: KvV,
    ka: KvV,
    kb: KvV,
)
    requires
        ready(c, p, n, vals, g, kv),
        ra <= c.tokens.len(),
        node_value(c, vals, kw, n) is Ok,
        caches_meet(c, n, vals, ra, kw, ka, kb),
        n.op is SwiGlu || n.op is Add,
    ensures
        node_value(first_feed(c, ra), heads_of(vals, ra), ka, n) == Ok::<ArrayV, GraphFault>(
            head_of(node_value(c, vals, kw, n)->Ok_0, ra),
        ),
        node_value(second_feed(c, ra), tails_of(vals, ra), kb, n) == Ok::<ArrayV, GraphFault>(
            tail_of(node_value(c, vals, kw, n)->Ok_0, ra),
        ),
{
    reveal(node_value);
    let rows = c.tokens.len();
    let rb = (rows - ra) as nat;
    let w = width(n);
    let t = node_value(c, vals, kw, n)->Ok_0;
    lemma_value_sound(c, p, n, vals, g, kv, kw);
    lemma_halves(t, n, rows, ra);
    let x = arg_of(vals, n, 0);
    lemma_input(p, c.model, vals, rows, n.inputs[0]);
    lemma_halves(x, p[n.inputs[0] - 1], rows, ra);
    assert(arg_of(heads_of(vals, ra), n, 0) == head_of(x, ra));
    assert(arg_of(tails_of(vals, ra), n, 0) == tail_of(x, ra));
    let xa = head_of(x, ra);
    let xb = tail_of(x, ra);
    let y = arg_of(vals, n, 1);
    lemma_input(p, c.model, vals, rows, n.inputs[1]);
    lemma_halves(y, p[n.inputs[1] - 1], rows, ra);
    assert(arg_of(heads_of(vals, ra), n, 1) == head_of(y, ra));
    assert(arg_of(tails_of(vals, ra), n, 1) == tail_of(y, ra));
    assert(node_value(first_feed(c, ra), heads_of(vals, ra), ka, n)->Ok_0 =~= head_of(t, ra));
    assert(node_value(second_feed(c, ra), tails_of(vals, ra), kb, n)->Ok_0 =~= tail_of(t, ra));
}

/// Attention gives each part its rows.
proof fn lemma_node_attention(
    c: Feed,
    p: Seq<NodeV>,
    n: NodeV,
    vals: Seq<ArrayV>,
    g: GraphV,
    kv: KvV,
    ra: nat,
    kw: KvV,
    ka: KvV,
    kb: KvV,
)
    requires
        ready(c, p, n, vals, g, kv),
        ra <= c.tokens.len(),
        node_value(c, vals, kw, n) is Ok,
        caches_meet(c, n, vals, ra, kw, ka, kb),
        n.op is Attention,
    ensures
        node_value(first_feed(c, ra), heads_of(vals, ra), ka, n) == Ok::<ArrayV, GraphFault>(
            head_of(node_value(c, vals, kw, n)->Ok_0, ra),
        ),
        node_value(second_feed(c, ra), tails_of(vals, ra), kb, n) == Ok::<ArrayV, GraphFault>(
            tail_of(node_value(c, vals, kw, n)->Ok_0, ra),
        ),
{
    reveal(node_value);
    let rows = c.tokens.len();
    let rb = (rows - ra) as nat;
    let w = width(n);
    let t = node_value(c, vals, kw, n)->Ok_0;
    lemma_value_sound(c, p, n, vals, g, kv, kw);
    lemma_halves(t, n, rows, ra);
    let x = arg_of(vals, n, 0);
    lemma_input(p, c.model, vals, rows, n.inputs[0]);
    lemma_halves(x, p[n.inputs[0] - 1], rows, ra);
    assert(arg_of(heads_of(vals, ra), n, 0) == head_of(x, ra));
    assert(arg_of(tails_of(vals, ra), n, 0) == tail_of(x, ra));
    let xa = head_of(x, ra);
    let xb = tail_of(x, ra);
    let (nh, nkv, hd) = (
        n.op->Attention_n_heads as int,
        n.op->n_kv_heads as int,
        n.op->Attention_head_dim as int,
    );
    lemma_heads_fit(w as int, nh, nkv, hd);
    let aw = attended(c, vals, kw, n);
    let aa = attended(first_feed(c, ra), heads_of(vals, ra), ka, n);
    let ab = attended(second_feed(c, ra), tails_of(vals, ra), kb, n);
    lemma_split_attention(c.math, aw, aa, ab, ra, rb);
    let ta = attention_of(c.math, aa, ra as usize);
    let tb = attention_of(c.math, ab, rb as usize);
    lemma_cut(t.data, ta.data, tb.data);
    assert(node_value(first_feed(c, ra), heads_of(vals, ra), ka, n)->Ok_0 =~= head_of(t, ra));
    assert(node_value(second_feed(c, ra), tails_of(vals, ra), kb, n)->Ok_0 =~= tail_of(t, ra));
}

/// A node gives each part its rows.
proof fn lemma_node_parts(
    c: Feed,
    p: Seq<NodeV>,
    n: NodeV,
    vals: Seq<ArrayV>,
    g: GraphV,
    kv: KvV,
    ra: nat,
    kw: KvV,
    ka: KvV,
    kb: KvV,
)
    requires
        ready(c, p, n, vals, g, kv),
        ra <= c.tokens.len(),
        node_value(c, vals, kw, n) is Ok,
        caches_meet(c, n, vals, ra, kw, ka, kb),
    ensures
        node_value(first_feed(c, ra), heads_of(vals, ra), ka, n) == Ok::<ArrayV, GraphFault>(
            head_of(node_value(c, vals, kw, n)->Ok_0, ra),
        ),
        node_value(second_feed(c, ra), tails_of(vals, ra), kb, n) == Ok::<ArrayV, GraphFault>(
            tail_of(node_value(c, vals, kw, n)->Ok_0, ra),
        ),
{
    match n.op {
        Op::Embed { .. } => lemma_node_embed(c, p, n, vals, g, kv, ra, kw, ka, kb),
        Op::MatMul { .. } => lemma_node_matmul(c, p, n, vals, g, kv, ra, kw, ka, kb),
        Op::RmsNorm { .. } => lemma_node_norm(c, p, n, vals, g, kv, ra, kw, ka, kb),
        Op::Rope { .. } => lemma_node_rope(c, p, n, vals, g, kv, ra, kw, ka, kb),
        Op::Attention { .. } => lemma_node_attention(c, p, n, vals, g, kv, ra, kw, ka, kb),
        Op::SwiGlu => lemma_node_pairwise(c, p, n, vals, g, kv, ra, kw, ka, kb),
        Op::Add => lemma_node_pairwise(c, p, n, vals, g, kv, ra, kw, ka, kb),
    }
}

/// What the first `k` nodes add to the keys of layer `l`, or with input 2 to its
/// values.
pub open spec fn rows_added(
    nodes: Seq<NodeV>,
    vals: Seq<ArrayV>,
    k: nat,
    l: int,
    input: int,
) -> Seq<u32>
    decreases k,
{
    if k == 0 {
        Seq::empty()
    } else {
        let before = rows_added(nodes, vals, (k - 1) as nat, l, input);
        if attends(nodes[k - 1], l) {
            before + arg_of(vals, nodes[k - 1], input).data
        } else {
            before
        }
    }
}

/// Values that come later add nothing to what earlier nodes added.
proof fn lemma_added_prefix(
    nodes: Seq<NodeV>,
    vals: Seq<ArrayV>,
    t: ArrayV,
    k: nat,
    l: int,
    input: int,
    g: GraphV,
    c: Feed,
)
    requires
        g.nodes == nodes,
        nodes_ok(nodes, c.model),
        k <= vals.len() <= nodes.len(),
        1 <= input <= 2,
    ensures
        rows_added(nodes, vals.push(t), k, l, input) == rows_added(nodes, vals, k, l, input),
    decreases k,
{
    if k > 0 {
        lemma_added_prefix(nodes, vals, t, (k - 1) as nat, l, input, g, c);
        lemma_prefix_ok(nodes, c.model, k - 1);
        if attends(nodes[k - 1], l) {
            assert(arg_of(vals.push(t), nodes[k - 1], input) == arg_of(
                vals,
                nodes[k - 1],
                input,
            ));
        }
    }
}

/// The cache of a run so far: what it held, and what the nodes added.
pub proof fn lemma_cache_so_far(c: Feed, g: GraphV, kv: KvV, k: nat)
    requires
        nodes_ok(g.nodes, c.model),
        k <= g.nodes.len(),
        run_to(c, g, kv, k).0 is Ok,
        c.model.hyperparams.n_layers == kv.k.len() == kv.v.len(),
    ensures
        ({
            let (r, kv1) = run_to(c, g, kv, k);
            let vals = r->Ok_0;
            &&& vals.len() == k
            &&& kv1.kv_dim == kv.kv_dim && kv1.max_seq_len == kv.max_seq_len && kv1.len == kv.len
            &&& kv1.k.len() == kv.k.len() && kv1.v.len() == kv.v.len()
            &&& forall|l: int|
                0 <= l < kv.k.len() ==> #[trigger] kv1.k[l] == kv.k[l] + rows_added(
                    g.nodes,
                    vals,
                    k,
                    l,
                    1,
                )
            &&& forall|l: int|
                0 <= l < kv.v.len() ==> #[trigger] kv1.v[l] == kv.v[l] + rows_added(
                    g.nodes,
                    vals,
                    k,
                    l,
                    2,
                )
        }),
    decreases k,
{
    let (r, kv1) = run_to(c, g, kv, k);
    let vals = r->Ok_0;
    if k == 0 {
        assert forall|l: int| 0 <= l < kv.k.len() implies #[trigger] kv1.k[l] == kv.k[l]
            + rows_added(g.nodes, vals, k, l, 1) by {
            assert(kv.k[l] + Seq::<u32>::empty() =~= kv.k[l]);
        }
        assert forall|l: int| 0 <= l < kv.v.len() implies #[trigger] kv1.v[l] == kv.v[l]
            + rows_added(g.nodes, vals, k, l, 2) by {
            assert(kv.v[l] + Seq::<u32>::empty() =~= kv.v[l]);
        }
    } else {
        let k1 = (k - 1) as nat;
        lemma_cache_so_far(c, g, kv, k1);
        let (r0, kv0) = run_to(c, g, kv, k1);
        let vals0 = r0->Ok_0;
        let n = g.nodes[k - 1];
        lemma_prefix_ok(g.nodes, c.model, k - 1);
        let t = node_value(c, vals0, cache_after(kv0, vals0, n), n)->Ok_0;
        assert(vals == vals0.push(t));
        assert forall|l: int| 0 <= l < kv.k.len() implies #[trigger] kv1.k[l] == kv.k[l]
            + rows_added(g.nodes, vals, k, l, 1) by {
            lemma_added_prefix(g.nodes, vals0, t, k1, l, 1, g, c);
            assert(kv0.k[l] == kv.k[l] + rows_added(g.nodes, vals0, k1, l, 1));
            if attends(n, l) {
                assert(arg_of(vals, n, 1) == arg_of(vals0, n, 1));
                assert(kv.k[l] + rows_added(g.nodes, vals0, k1, l, 1) + arg_of(vals, n, 1).data
                    =~= kv.k[l] + (rows_added(g.nodes, vals0, k1, l, 1) + arg_of(
                    vals,
                    n,
                    1,
                ).data));
            }
        }
        assert forall|l: int| 0 <= l < kv.v.len() implies #[trigger] kv1.v[l] == kv.v[l]
            + rows_added(g.nodes, vals, k, l, 2) by {
            lemma_added_prefix(g.nodes, vals0, t, k1, l, 2, g, c);
            assert(kv0.v[l] == kv.v[l] + rows_added(g.nodes, vals0, k1, l, 2));
            if attends(n, l) {
                assert(arg_of(vals, n, 2) == arg_of(vals0, n, 2));
                assert(kv.v[l] + rows_added(g.nodes, vals0, k1, l, 2) + arg_of(vals, n, 2).data
                    =~= kv.v[l] + (rows_added(g.nodes, vals0, k1, l, 2) + arg_of(
                    vals,
                    n,
                    2,
                ).data));
            }
        }
    }
}

/// A layer attends once: nothing is added before its node, and nothing behind it.
pub proof fn lemma_added_once(
    nodes: Seq<NodeV>,
    vals: Seq<ArrayV>,
    layers: nat,
    j: int,
    l: int,
    k: nat,
    input: int,
)
    requires
        layers_ascend(nodes, layers),
        0 <= j < nodes.len(),
        attends(nodes[j], l),
        k <= nodes.len(),
    ensures
        rows_added(nodes, vals, k, l, input) == if k <= j {
            Seq::<u32>::empty()
        } else {
            arg_of(vals, nodes[j], input).data
        },
    decreases k,
{
    if k > 0 {
        lemma_added_once(nodes, vals, layers, j, l, (k - 1) as nat, input);
        reveal(layers_ascend);
        let i = k - 1;
        if i == j {
            assert(Seq::<u32>::empty() + arg_of(vals, nodes[j], input).data =~= arg_of(
                vals,
                nodes[j],
                input,
            ).data);
        } else if i < j {
            assert(!attends(nodes[i], l));
        } else {
            assert(!attends(nodes[i], l));
        }
    }
}

/// Whether a cache holds the rows of the tokens so far and nothing else.
pub open spec fn kv_exact(c: KvV, g: GraphV) -> bool {
    &&& kv_fits(c, g)
    &&& forall|l: int| 0 <= l < c.k.len() ==> (#[trigger] c.k[l]).len() == c.len * c.kv_dim
    &&& forall|l: int| 0 <= l < c.v.len() ==> (#[trigger] c.v[l]).len() == c.len * c.kv_dim
}

/// What the law below is about: a run that fits its graph, model and cache.
pub open spec fn run_ready(c: Feed, g: GraphV, kv: KvV) -> bool {
    &&& well_formed(g, c.model)
    &&& kv_exact(kv, g)
    &&& kv.len == c.pos
    &&& c.files.len() >= c.model.weight_files.len()
    &&& c.tokens.len() * MAX_DIM <= usize::MAX
    &&& MAX_DIM * MAX_DIM <= usize::MAX
    &&& c.pos + c.tokens.len() <= usize::MAX
}

/// Before each node of a run that succeeds, the node is ready.
pub proof fn lemma_ready(c: Feed, g: GraphV, kv: KvV, k: nat)
    requires
        run_ready(c, g, kv),
        k <= g.nodes.len(),
        run_to(c, g, kv, g.nodes.len()).0 is Ok,
    ensures
        run_to(c, g, kv, k).0 is Ok,
        run_to(c, g, kv, k).0->Ok_0.len() == k,
        sound(run_to(c, g, kv, k).0->Ok_0, g.nodes.take(k as int), c.tokens.len()),
        kv_fits(run_to(c, g, kv, k).1, g),
        k < g.nodes.len() ==> ready(
            c,
            g.nodes.take(k as int),
            g.nodes[k as int],
            run_to(c, g, kv, k).0->Ok_0,
            g,
            run_to(c, g, kv, k).1,
        ),
    decreases k,
{
    if run_to(c, g, kv, k).0 is Err {
        lemma_run_stays(c, g, kv, k, g.nodes.len());
    }
    let (r, kv1) = run_to(c, g, kv, k);
    lemma_cache_so_far(c, g, kv, k);
    if k > 0 {
        let k1 = (k - 1) as nat;
        lemma_ready(c, g, kv, k1);
        let (r0, kv0) = run_to(c, g, kv, k1);
        let vals0 = r0->Ok_0;
        let n = g.nodes[k - 1];
        let kv2 = cache_after(kv0, vals0, n);
        lemma_value_sound(c, g.nodes.take(k - 1), n, vals0, g, kv0, kv2);
        let t = node_value(c, vals0, kv2, n)->Ok_0;
        lemma_sound_push(vals0, g.nodes, k - 1, t, c.tokens.len());
    }
    if k < g.nodes.len() {
        lemma_prefix_ok(g.nodes, c.model, k as int);
    }
}

/// The caches of the three runs hold what they must when node `k` attends.
proof fn lemma_caches_meet(c: Feed, g: GraphV, kv: KvV, ra: nat, k: nat, ka: KvV, kb: KvV)
    requires
        run_ready(c, g, kv),
        k < g.nodes.len(),
        ra <= c.tokens.len(),
        run_to(c, g, kv, g.nodes.len()).0 is Ok,
        ({
            let vals = run_to(c, g, kv, k).0->Ok_0;
            let n = g.nodes[k as int];
            n.op matches Op::Attention { layer, .. } ==> {
                let l = layer as int;
                &&& ka.k[l] == kv.k[l] + head_of(arg_of(vals, n, 1), ra).data
                &&& ka.v[l] == kv.v[l] + head_of(arg_of(vals, n, 2), ra).data
                &&& kb.k[l] == ka.k[l] + tail_of(arg_of(vals, n, 1), ra).data
                &&& kb.v[l] == ka.v[l] + tail_of(arg_of(vals, n, 2), ra).data
            }
        }),
    ensures
        ({
            let (r, kv1) = run_to(c, g, kv, k);
            let n = g.nodes[k as int];
            caches_meet(c, n, r->Ok_0, ra, cache_after(kv1, r->Ok_0, n), ka, kb)
        }),
{
    let (r, kv1) = run_to(c, g, kv, k);
    let vals = r->Ok_0;
    let n = g.nodes[k as int];
    let rows = c.tokens.len();
    lemma_ready(c, g, kv, k);
    if let Op::Attention { layer, n_kv_heads, head_dim, .. } = n.op {
        let l = layer as int;
        let p = g.nodes.take(k as int);
        let kvd = n_kv_heads * head_dim;
        assert(attends(n, l));
        lemma_cache_so_far(c, g, kv, k);
        lemma_added_once(g.nodes, vals, g.n_layers as nat, k as int, l, k, 1);
        lemma_added_once(g.nodes, vals, g.n_layers as nat, k as int, l, k, 2);
        lemma_input(p, c.model, vals, rows, n.inputs[1]);
        lemma_input(p, c.model, vals, rows, n.inputs[2]);
        let xk = arg_of(vals, n, 1);
        let xv = arg_of(vals, n, 2);
        lemma_halves(xk, p[n.inputs[1] - 1], rows, ra);
        lemma_halves(xv, p[n.inputs[2] - 1], rows, ra);
        assert(kv1.k[l] =~= kv.k[l]);
        assert(kv1.v[l] =~= kv.v[l]);
        let kw = cache_after(kv1, vals, n);
        assert((c.pos + rows) * kvd == c.pos * kvd + rows * kvd) by (nonlinear_arith);
        assert((c.pos + ra) * kvd == c.pos * kvd + ra * kvd) by (nonlinear_arith);
        assert(kw.k[l] == kv.k[l] + xk.data);
        assert(kw.v[l] == kv.v[l] + xv.data);
        assert(kb.k[l] =~= kw.k[l]);
        assert(kb.v[l] =~= kw.v[l]);
        assert(ka.k[l] =~= kw.k[l].take((c.pos + ra) * kvd));
        assert(ka.v[l] =~= kw.v[l].take((c.pos + ra) * kvd));
    }
}

/// Node `k` adds to its layer what the whole run gives it, cut to the part.
proof fn lemma_part_cache(
    c: Feed,
    g: GraphV,
    kv: KvV,
    vals: Seq<ArrayV>,
    cp: Feed,
    start: KvV,
    pv: Seq<ArrayV>,
    k: nat,
)
    requires
        run_ready(c, g, kv),
        k < g.nodes.len(),
        cp.model == c.model,
        start.k.len() == start.v.len() == g.n_layers,
        run_to(cp, g, start, k).0 == Ok::<Seq<ArrayV>, GraphFault>(pv),
    ensures
        ({
            let n = g.nodes[k as int];
            let kp = cache_after(run_to(cp, g, start, k).1, pv, n);
            n.op matches Op::Attention { layer, .. } ==> {
                let l = layer as int;
                &&& l < g.n_layers
                &&& kp.k[l] == start.k[l] + arg_of(pv, n, 1).data
                &&& kp.v[l] == start.v[l] + arg_of(pv, n, 2).data
            }
        }),
{
    let n = g.nodes[k as int];
    lemma_prefix_ok(g.nodes, c.model, k as int);
    if let Op::Attention { layer, .. } = n.op {
        let l = layer as int;
        assert(attends(n, l));
        lemma_cache_so_far(cp, g, start, k);
        lemma_added_once(g.nodes, pv, g.n_layers as nat, k as int, l, k, 1);
        lemma_added_once(g.nodes, pv, g.n_layers as nat, k as int, l, k, 2);
        assert(run_to(cp, g, start, k).1.k[l] =~= start.k[l]);
        assert(run_to(cp, g, start, k).1.v[l] =~= start.v[l]);
    }
}

/// The run of the first tokens gives the first rows of every value.
proof fn lemma_first_part(c: Feed, g: GraphV, kv: KvV, ra: nat, k: nat)
    requires
        run_ready(c, g, kv),
        k <= g.nodes.len(),
        ra <= c.tokens.len(),
        run_to(c, g, kv, g.nodes.len()).0 is Ok,
    ensures
        run_to(first_feed(c, ra), g, kv, k).0 == Ok::<Seq<ArrayV>, GraphFault>(
            heads_of(run_to(c, g, kv, k).0->Ok_0, ra),
        ),
    decreases k,
{
    let ca = first_feed(c, ra);
    lemma_ready(c, g, kv, k);
    if k == 0 {
        assert(heads_of(Seq::empty(), ra) =~= Seq::<ArrayV>::empty());
    } else {
        let k1 = (k - 1) as nat;
        lemma_first_part(c, g, kv, ra, k1);
        lemma_ready(c, g, kv, k1);
        let (r0, kv0) = run_to(c, g, kv, k1);
        let vals = r0->Ok_0;
        let n = g.nodes[k - 1];
        let p = g.nodes.take(k - 1);
        let kw = cache_after(kv0, vals, n);
        let va = heads_of(vals, ra);
        let ka = cache_after(run_to(ca, g, kv, k1).1, va, n);
        lemma_part_cache(c, g, kv, vals, ca, kv, va, k1);
        lemma_prefix_ok(g.nodes, c.model, k - 1);
        // A cache for the second part, which only this node looks at.
        let kb = match n.op {
            Op::Attention { layer, .. } => KvV {
                k: ka.k.update(
                    layer as int,
                    ka.k[layer as int] + tail_of(arg_of(vals, n, 1), ra).data,
                ),
                v: ka.v.update(
                    layer as int,
                    ka.v[layer as int] + tail_of(arg_of(vals, n, 2), ra).data,
                ),
                ..ka
            },
            _ => ka,
        };
        if n.op is Attention {
            assert(arg_of(va, n, 1) == head_of(arg_of(vals, n, 1), ra));
            assert(arg_of(va, n, 2) == head_of(arg_of(vals, n, 2), ra));
            lemma_cache_so_far(ca, g, kv, k1);
        }
        lemma_caches_meet(c, g, kv, ra, k1, ka, kb);
        lemma_node_parts(c, p, n, vals, g, kv0, ra, kw, ka, kb);
        let t = node_value(c, vals, kw, n)->Ok_0;
        assert(heads_of(vals.push(t), ra) =~= va.push(head_of(t, ra)));
    }
}

/// The cache that the run of the first tokens leaves.
pub open spec fn cache_between(c: Feed, g: GraphV, kv: KvV, ra: nat) -> KvV {
    KvV { len: kv.len + ra, ..run_to(first_feed(c, ra), g, kv, g.nodes.len()).1 }
}

/// Layer `l` of the cache between the two runs, when node `j` attends in it.
proof fn lemma_between(c: Feed, g: GraphV, kv: KvV, ra: nat, j: int, l: int)
    requires
        run_ready(c, g, kv),
        ra <= c.tokens.len(),
        run_to(c, g, kv, g.nodes.len()).0 is Ok,
        0 <= j < g.nodes.len(),
        attends(g.nodes[j], l),
    ensures
        ({
            let vals = run_to(c, g, kv, g.nodes.len()).0->Ok_0;
            let n = g.nodes[j];
            let mid = cache_between(c, g, kv, ra);
            &&& 0 <= l < g.n_layers
            &&& mid.k.len() == g.n_layers
            &&& mid.v.len() == g.n_layers
            &&& mid.k[l] == kv.k[l] + head_of(arg_of(vals, n, 1), ra).data
            &&& mid.v[l] == kv.v[l] + head_of(arg_of(vals, n, 2), ra).data
        }),
{
    let ca = first_feed(c, ra);
    let total = g.nodes.len();
    let vals = run_to(c, g, kv, total).0->Ok_0;
    let va = heads_of(vals, ra);
    let n = g.nodes[j];
    lemma_ready(c, g, kv, total);
    lemma_first_part(c, g, kv, ra, total);
    lemma_cache_so_far(ca, g, kv, total);
    lemma_prefix_ok(g.nodes, c.model, j);
    lemma_added_once(g.nodes, va, g.n_layers as nat, j, l, total, 1);
    lemma_added_once(g.nodes, va, g.n_layers as nat, j, l, total, 2);
    assert(arg_of(va, n, 1) == head_of(arg_of(vals, n, 1), ra));
    assert(arg_of(va, n, 2) == head_of(arg_of(vals, n, 2), ra));
}

/// The values of a run so far are the first of all its values.
pub proof fn lemma_values_prefix(c: Feed, g: GraphV, kv: KvV, k: nat, n: nat, i: int)
    requires
        k <= n,
        run_to(c, g, kv, n).0 is Ok,
        0 <= i < k,
    ensures
        run_to(c, g, kv, k).0 is Ok,
        run_to(c, g, kv, k).0->Ok_0.len() == k,
        run_to(c, g, kv, n).0->Ok_0.len() == n,
        run_to(c, g, kv, k).0->Ok_0[i] == run_to(c, g, kv, n).0->Ok_0[i],
    decreases n,
{
    if run_to(c, g, kv, k).0 is Err {
        lemma_run_stays(c, g, kv, k, n);
    }
    if k < n {
        lemma_values_prefix(c, g, kv, k, (n - 1) as nat, i);
    } else {
        lemma_values_count(c, g, kv, n);
    }
}

proof fn lemma_values_count(c: Feed, g: GraphV, kv: KvV, n: nat)
    requires
        run_to(c, g, kv, n).0 is Ok,
    ensures
        run_to(c, g, kv, n).0->Ok_0.len() == n,
    decreases n,
{
    if n > 0 {
        lemma_values_count(c, g, kv, (n - 1) as nat);
    }
}

/// The run of the other tokens, on the cache that the first leaves, gives the other
/// rows of every value.
proof fn lemma_second_part(c: Feed, g: GraphV, kv: KvV, ra: nat, k: nat)
    requires
        run_ready(c, g, kv),
        k <= g.nodes.len(),
        ra <= c.tokens.len(),
        run_to(c, g, kv, g.nodes.len()).0 is Ok,
    ensures
        run_to(second_feed(c, ra), g, cache_between(c, g, kv, ra), k).0 == Ok::<
            Seq<ArrayV>,
            GraphFault,
        >(tails_of(run_to(c, g, kv, k).0->Ok_0, ra)),
    decreases k,
{
    let cb = second_feed(c, ra);
    let mid = cache_between(c, g, kv, ra);
    let total = g.nodes.len();
    lemma_ready(c, g, kv, k);
    if k == 0 {
        assert(tails_of(Seq::empty(), ra) =~= Seq::<ArrayV>::empty());
    } else {
        let k1 = (k - 1) as nat;
        lemma_second_part(c, g, kv, ra, k1);
        lemma_ready(c, g, kv, k1);
        lemma_first_part(c, g, kv, ra, k1);
        lemma_first_part(c, g, kv, ra, total);
        lemma_cache_so_far(first_feed(c, ra), g, kv, total);
        let (r0, kv0) = run_to(c, g, kv, k1);
        let vals = r0->Ok_0;
        let n = g.nodes[k - 1];
        let p = g.nodes.take(k - 1);
        let kw = cache_after(kv0, vals, n);
        let vb = tails_of(vals, ra);
        let kb = cache_after(run_to(cb, g, mid, k1).1, vb, n);
        lemma_part_cache(c, g, kv, vals, cb, mid, vb, k1);
        lemma_prefix_ok(g.nodes, c.model, k - 1);
        if let Op::Attention { layer, .. } = n.op {
            let l = layer as int;
            assert(attends(n, l));
            lemma_between(c, g, kv, ra, k - 1, l);
            lemma_values_prefix(c, g, kv, k1, total, n.inputs[1] - 1);
            lemma_values_prefix(c, g, kv, k1, total, n.inputs[2] - 1);
            assert(arg_of(vb, n, 1) == tail_of(arg_of(vals, n, 1), ra));
            assert(arg_of(vb, n, 2) == tail_of(arg_of(vals, n, 2), ra));
        }
        lemma_caches_meet(c, g, kv, ra, k1, mid, kb);
        lemma_node_parts(c, p, n, vals, g, kv0, ra, kw, mid, kb);
        let t = node_value(c, vals, kw, n)->Ok_0;
        assert(tails_of(vals.push(t), ra) =~= vb.push(tail_of(t, ra)));
    }
}

/// Running a prompt at once, or its first `ra` tokens and then the others, comes to
/// the same: the two parts give the rows of the whole, number for number, and leave
/// the same cache.
pub proof fn law_prefill_then_decode(c: Feed, g: GraphV, kv: KvV, ra: nat)
    requires
        run_ready(c, g, kv),
        ra <= c.tokens.len(),
        run_of(c, g, kv).0 is Ok,
    ensures
        ({
            let (whole, after) = run_of(c, g, kv);
            let (first, mid) = run_of(first_feed(c, ra), g, kv);
            let (second, last) = run_of(second_feed(c, ra), g, mid);
            &&& first == Ok::<ArrayV, GraphFault>(head_of(whole->Ok_0, ra))
            &&& second == Ok::<ArrayV, GraphFault>(tail_of(whole->Ok_0, ra))
            &&& first->Ok_0.data + second->Ok_0.data == whole->Ok_0.data
            &&& last == after
            &&& kv_exact(mid, g)
            &&& kv_exact(last, g)
        }),
{
    let total = g.nodes.len();
    let rows = c.tokens.len();
    let ca = first_feed(c, ra);
    let cb = second_feed(c, ra);
    let vals = run_to(c, g, kv, total).0->Ok_0;
    lemma_ready(c, g, kv, total);
    lemma_first_part(c, g, kv, ra, total);
    lemma_cache_so_far(ca, g, kv, total);
    let mid = cache_between(c, g, kv, ra);
    assert(run_of(ca, g, kv).1 =~= mid);
    lemma_second_part(c, g, kv, ra, total);
    lemma_cache_so_far(cb, g, mid, total);
    lemma_cache_so_far(c, g, kv, total);
    let last = run_of(cb, g, mid).1;
    let after = run_of(c, g, kv).1;
    let d = kv.kv_dim;
    assert(g.nodes.take(total as int) =~= g.nodes);
    assert((c.pos + ra) * d == c.pos * d + ra * d) by (nonlinear_arith);
    assert((c.pos + rows) * d == c.pos * d + rows * d) by (nonlinear_arith);
    let out = vals[g.output - 1];
    lemma_halves(out, g.nodes[g.output - 1], rows, ra);
    assert forall|l: int| 0 <= l < g.n_layers implies ({
        &&& #[trigger] last.k[l] == after.k[l]
        &&& last.v[l] == after.v[l]
        &&& mid.k[l].len() == mid.len * d
        &&& mid.v[l].len() == mid.len * d
        &&& after.k[l].len() == after.len * d
        &&& after.v[l].len() == after.len * d
    }) by {
        reveal(layers_ascend);
        assert(layer_attends(g.nodes, l));
        let j = choose|j: int| 0 <= j < g.nodes.len() && attends(#[trigger] g.nodes[j], l);
        let n = g.nodes[j];
        lemma_prefix_ok(g.nodes, c.model, j);
        lemma_between(c, g, kv, ra, j, l);
        let vb = tails_of(vals, ra);
        lemma_added_once(g.nodes, vb, g.n_layers as nat, j, l, total, 1);
        lemma_added_once(g.nodes, vb, g.n_layers as nat, j, l, total, 2);
        lemma_added_once(g.nodes, vals, g.n_layers as nat, j, l, total, 1);
        lemma_added_once(g.nodes, vals, g.n_layers as nat, j, l, total, 2);
        let xk = arg_of(vals, n, 1);
        let xv = arg_of(vals, n, 2);
        assert(arg_of(vb, n, 1) == tail_of(xk, ra));
        assert(arg_of(vb, n, 2) == tail_of(xv, ra));
        lemma_input(g.nodes, c.model, vals, rows, n.inputs[1]);
        lemma_input(g.nodes, c.model, vals, rows, n.inputs[2]);
        lemma_halves(xk, g.nodes[n.inputs[1] - 1], rows, ra);
        lemma_halves(xv, g.nodes[n.inputs[2] - 1], rows, ra);
        assert(last.k[l] =~= after.k[l]);
        assert(last.v[l] =~= after.v[l]);
    }
    assert(last.k =~= after.k);
    assert forall|l: int| 0 <= l < g.n_layers implies #[trigger] last.v[l] == after.v[l] by {
        assert(last.k[l] == after.k[l]);
    }
    assert(last.v =~= after.v);
    assert(kv_exact(mid, g)) by {
        assert forall|l: int| 0 <= l < mid.k.len() implies (#[trigger] mid.k[l]).len() == mid.len
            * mid.kv_dim by {
            assert(last.k[l] == after.k[l]);
        }
        assert forall|l: int| 0 <= l < mid.v.len() implies (#[trigger] mid.v[l]).len() == mid.len
            * mid.kv_dim by {
            assert(last.k[l] == after.k[l]);
        }
    }
    assert(kv_exact(last, g)) by {
        assert forall|l: int| 0 <= l < last.v.len() implies (#[trigger] last.v[l]).len()
            == last.len * last.kv_dim by {
            assert(last.k[l] == after.k[l]);
        }
    }
}

} // verus!
