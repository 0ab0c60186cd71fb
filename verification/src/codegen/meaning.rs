//! What the code of each step does: it leaves in the arena what the scalar operation
//! of the step gives for the row, and changes nothing else.

use vstd::prelude::*;

use crate::codegen::code::{
    int_of, iterate, patched, real_of, run, step, trips, Buf, Code, Int, Machine, Real, Stmt, Units,
};
use crate::codegen::lower::{
    add_stmt, below, bias_stmt, chunk_spot, copy_stmt, embed_stmt, from_row, gated_real,
    head_spot, inverse_real, logits_stmt, norm_chunk, norm_code, pair_ints, placed, plus,
    reg_product, rmsnorm_code, rope_code, row_at, row_len, scale_stmt, spot, squares_stmt,
    swiglu_stmt, then, times, turn_code, turn_stmt, unit_of, append_stmt, cache_counts, layer_base,
    region,
};
use crate::codegen::plan::PlanV;
use crate::float::single::{
    lemma_square_sign, lemma_zero_start, of_int, product, quotient, sum, SIGN,
};
use crate::formats::desc::RopeStyle;
use crate::graph::ir::GraphV;
use crate::graph::ops::{
    added, angle_of, dot, gated, lemma_cell, lemma_rope_head_len, lemma_rope_row_len,
    lemma_row_within, lemma_same_dot, looked_up, norm_factor, pair_of, rmsnorm_of, rope_head,
    rope_of, rope_row, rope_rows, swiglu_of, turned, ArrayV, MINUS_TWO,
};
use crate::graph::split::lemma_split_row;

verus! {

/// Whether two machines have the same token, tokens and arguments.
pub open spec fn same_frame(a: Machine, b: Machine) -> bool {
    &&& a.args == b.args
    &&& a.tokens == b.tokens
    &&& a.pos_off == b.pos_off
    &&& a.row == b.row
    &&& a.pos == b.pos
    &&& a.token == b.token
}

/// Whether `a` is `b` but for `t`, which stands in a region from `at` on; names and
/// variables aside.
pub open spec fn wrote(a: Machine, b: Machine, buf: Buf, at: int, t: Seq<u32>) -> bool {
    &&& same_frame(a, b)
    &&& a.mem == b.mem.insert(buf, patched(b.mem[buf], at, t))
}

/// Whether a loop body, run for `k`, puts `f(k)` behind what is there.
pub open spec fn puts(
    body: Code,
    var: usize,
    m: Machine,
    u: Units,
    buf: Buf,
    at: int,
    f: spec_fn(int) -> u32,
    n: nat,
) -> bool {
    forall|mm: Machine, k: nat|
        k < n && mm.vars[var] == k && #[trigger] wrote(mm, m, buf, at, Seq::new(k, f)) ==> wrote(
            run(body, mm, u),
            m,
            buf,
            at,
            Seq::new(k + 1, f),
        )
}

/// A loop whose body puts one number after the other puts all of them.
pub proof fn lemma_fill(
    body: Code,
    var: usize,
    m: Machine,
    u: Units,
    buf: Buf,
    at: int,
    f: spec_fn(int) -> u32,
    n: nat,
)
    requires
        m.mem.contains_key(buf),
        puts(body, var, m, u, buf, at, f, n),
    ensures
        wrote(iterate(body, var, 0, 1, n, m, u), m, buf, at, Seq::new(n, f)),
    decreases n,
{
    if n == 0 {
        assert(patched(m.mem[buf], at, Seq::new(0, f)) =~= m.mem[buf]);
        assert(m.mem =~= m.mem.insert(buf, m.mem[buf]));
    } else {
        let k = (n - 1) as nat;
        assert(puts(body, var, m, u, buf, at, f, k)) by {
            assert forall|mm: Machine, j: nat|
                j < k && mm.vars[var] == j && #[trigger] wrote(
                    mm,
                    m,
                    buf,
                    at,
                    Seq::new(j, f),
                ) implies wrote(run(body, mm, u), m, buf, at, Seq::new(j + 1, f)) by {}
        }
        lemma_fill(body, var, m, u, buf, at, f, k);
        let before = iterate(body, var, 0, 1, k, m, u);
        let mm = Machine { vars: before.vars.insert(var, k as int), ..before };
        assert(wrote(mm, m, buf, at, Seq::new(k, f)));
        assert(0 + (n - 1) * 1u64 == k);
        assert(mm.vars[var] == k);
        assert(wrote(run(body, mm, u), m, buf, at, Seq::new(k + 1, f)));
        assert(iterate(body, var, 0, 1, n, m, u) == run(body, mm, u));
    }
}

/// A loop below a constant, as its runs.
pub proof fn lemma_below(var: usize, n: u64, body: Code, m: Machine, u: Units)
    ensures
        step(below(var, n, body), m, u) == iterate(body, var, 0, 1, n as nat, m, u),
{
    assert(int_of(Int::Const(0), m) == 0);
    assert(int_of(Int::Const(n), m) == n);
    assert(trips(0, n as int, 1) == n);
}

/// One more number behind those that are there.
pub proof fn lemma_one_more(s: Seq<u32>, at: int, f: spec_fn(int) -> u32, k: nat)
    requires
        0 <= at,
        at + k < s.len(),
    ensures
        patched(s, at, Seq::new(k, f)).update(at + k, f(k as int)) == patched(
            s,
            at,
            Seq::new(k + 1, f),
        ),
{
    assert(patched(s, at, Seq::new(k, f)).update(at + k, f(k as int)) =~= patched(
        s,
        at,
        Seq::new(k + 1, f),
    ));
}

/// A body that stores one number where the loop stands.
pub proof fn lemma_store_one(
    mm: Machine,
    m: Machine,
    u: Units,
    buf: Buf,
    at: int,
    f: spec_fn(int) -> u32,
    k: nat,
    i: Int,
    e: Real,
)
    requires
        m.mem.contains_key(buf),
        wrote(mm, m, buf, at, Seq::new(k, f)),
        0 <= at,
        at + k < m.mem[buf].len(),
        int_of(i, mm) == at + k,
        real_of(e, mm, u, 0) == f(k as int),
    ensures
        wrote(
            run(then(Stmt::Store(buf, i, e), Code::End), mm, u),
            m,
            buf,
            at,
            Seq::new(k + 1, f),
        ),
{
    lemma_one_more(m.mem[buf], at, f, k);
    let s = Stmt::Store(buf, i, e);
    let after = step(s, mm, u);
    assert(run(Code::End, after, u) == after);
    assert(run(then(s, Code::End), mm, u) == after);
    assert(after.mem =~= m.mem.insert(
        buf,
        patched(m.mem[buf], at, Seq::new(k + 1, f)),
    ));
}

/// Where the row of value `v` stands.
pub open spec fn place(p: PlanV, g: GraphV, v: usize, row: int) -> int {
    p.slots[v - 1] + row * row_len(g, v)
}

/// The row of `n` numbers of the arena from `at` on.
pub open spec fn row_of(s: Seq<u32>, at: int, n: nat) -> ArrayV {
    ArrayV { shape: seq![1usize, n as usize], data: s.subrange(at, at + n) }
}

/// Whether reading behind what a loop has put at `out` finds what was there.
pub open spec fn unharmed(src: int, out: int, n: nat) -> bool {
    src >= out || src + n <= out
}

/// Whether `n` numbers from `at` on lie within the arena.
pub open spec fn within(m: Machine, at: int, n: nat) -> bool {
    0 <= at && at + n <= m.mem[Buf::Arena].len()
}

/// A place of a row, when a loop stands at its variable.
pub proof fn lemma_spot(p: PlanV, g: GraphV, v: usize, m: Machine)
    requires
        placed(p, g, v),
    ensures
        int_of(spot(p, g, v, Int::Var(0)), m) == place(p, g, v, m.row) + m.vars[0],
{
    reveal_with_fuel(int_of, 5);
    let s = g.nodes[v - 1].out_shape;
    assert(crate::codegen::lower::fixed_dims(s, s.len()) <= u64::MAX);
}

/// What a loop reads of a row.
pub proof fn lemma_read(
    p: PlanV,
    g: GraphV,
    v: usize,
    mm: Machine,
    m: Machine,
    u: Units,
    out: int,
    f: spec_fn(int) -> u32,
    n: nat,
    k: nat,
)
    requires
        placed(p, g, v),
        m.mem.contains_key(Buf::Arena),
        wrote(mm, m, Buf::Arena, out, Seq::new(k, f)),
        mm.vars[0] == k,
        k < n,
        within(m, place(p, g, v, m.row), n),
        unharmed(place(p, g, v, m.row), out, n),
    ensures
        real_of(from_row(p, g, v, Int::Var(0)), mm, u, 0) == m.mem[Buf::Arena][place(
            p,
            g,
            v,
            m.row,
        ) + k],
{
    lemma_spot(p, g, v, mm);
}

/// The code of an addition adds two rows.
pub proof fn law_add_code(
    p: PlanV,
    g: GraphV,
    a: usize,
    b: usize,
    out: usize,
    m: Machine,
    u: Units,
)
    requires
        placed(p, g, a) && placed(p, g, b) && placed(p, g, out),
        m.mem.contains_key(Buf::Arena),
        ({
            let n = row_len(g, out);
            &&& within(m, place(p, g, a, m.row), n)
            &&& within(m, place(p, g, b, m.row), n)
            &&& within(m, place(p, g, out, m.row), n)
            &&& unharmed(place(p, g, a, m.row), place(p, g, out, m.row), n)
            &&& unharmed(place(p, g, b, m.row), place(p, g, out, m.row), n)
        }),
    ensures
        ({
            let n = row_len(g, out);
            let s = m.mem[Buf::Arena];
            wrote(
                step(add_stmt(p, g, a, b, out), m, u),
                m,
                Buf::Arena,
                place(p, g, out, m.row),
                added(
                    row_of(s, place(p, g, a, m.row), n),
                    row_of(s, place(p, g, b, m.row), n),
                ).data,
            )
        }),
{
    let n = row_len(g, out);
    let s = m.mem[Buf::Arena];
    let pa = place(p, g, a, m.row);
    let pb = place(p, g, b, m.row);
    let po = place(p, g, out, m.row);
    let f = |i: int| sum(s[pa + i], s[pb + i]);
    let e = Real::Plus(
        Box::new(from_row(p, g, a, Int::Var(0))),
        Box::new(from_row(p, g, b, Int::Var(0))),
    );
    let i = spot(p, g, out, Int::Var(0));
    let body = then(Stmt::Store(Buf::Arena, i, e), Code::End);
    let sh = g.nodes[out - 1].out_shape;
    assert(crate::codegen::lower::fixed_dims(sh, sh.len()) <= u64::MAX);
    assert forall|mm: Machine, k: nat|
        k < n && mm.vars[0] == k && #[trigger] wrote(
            mm,
            m,
            Buf::Arena,
            po,
            Seq::new(k, f),
        ) implies wrote(run(body, mm, u), m, Buf::Arena, po, Seq::new(k + 1, f)) by {
        lemma_spot(p, g, out, mm);
        lemma_read(p, g, a, mm, m, u, po, f, n, k);
        lemma_read(p, g, b, mm, m, u, po, f, n, k);
        lemma_store_one(mm, m, u, Buf::Arena, po, f, k, i, e);
    }
    lemma_fill(body, 0, m, u, Buf::Arena, po, f, n);
    lemma_below(0, n as u64, body, m, u);
    assert(Seq::new(n, f) =~= added(row_of(s, pa, n), row_of(s, pb, n)).data);
}

/// The code of a gated row gates it.
pub proof fn law_swiglu_code(
    p: PlanV,
    g: GraphV,
    a: usize,
    b: usize,
    out: usize,
    m: Machine,
    u: Units,
)
    requires
        placed(p, g, a) && placed(p, g, b) && placed(p, g, out),
        m.mem.contains_key(Buf::Arena),
        ({
            let n = row_len(g, a);
            &&& within(m, place(p, g, a, m.row), n)
            &&& within(m, place(p, g, b, m.row), n)
            &&& within(m, place(p, g, out, m.row), n)
            &&& unharmed(place(p, g, a, m.row), place(p, g, out, m.row), n)
            &&& unharmed(place(p, g, b, m.row), place(p, g, out, m.row), n)
        }),
    ensures
        ({
            let n = row_len(g, a);
            let s = m.mem[Buf::Arena];
            wrote(
                step(swiglu_stmt(p, g, a, b, out), m, u),
                m,
                Buf::Arena,
                place(p, g, out, m.row),
                swiglu_of(
                    u.math,
                    row_of(s, place(p, g, a, m.row), n),
                    row_of(s, place(p, g, b, m.row), n),
                ).data,
            )
        }),
{
    let n = row_len(g, a);
    let s = m.mem[Buf::Arena];
    let pa = place(p, g, a, m.row);
    let pb = place(p, g, b, m.row);
    let po = place(p, g, out, m.row);
    let f = |i: int| gated(u.math, s[pa + i], s[pb + i]);
    let first = Stmt::Let(0, from_row(p, g, a, Int::Var(0)));
    let e = gated_real(Real::Reg(0), from_row(p, g, b, Int::Var(0)), Real::Reg(0));
    let i = spot(p, g, out, Int::Var(0));
    let tail = then(Stmt::Store(Buf::Arena, i, e), Code::End);
    let body = then(first, tail);
    let sh = g.nodes[a - 1].out_shape;
    assert(crate::codegen::lower::fixed_dims(sh, sh.len()) <= u64::MAX);
    assert forall|mm: Machine, k: nat|
        k < n && mm.vars[0] == k && #[trigger] wrote(
            mm,
            m,
            Buf::Arena,
            po,
            Seq::new(k, f),
        ) implies wrote(run(body, mm, u), m, Buf::Arena, po, Seq::new(k + 1, f)) by {
        lemma_read(p, g, a, mm, m, u, po, f, n, k);
        let m2 = step(first, mm, u);
        assert(run(body, mm, u) == run(tail, m2, u));
        assert(m2.regs[0] == s[pa + k]);
        assert(wrote(m2, m, Buf::Arena, po, Seq::new(k, f)));
        lemma_spot(p, g, out, m2);
        lemma_read(p, g, b, m2, m, u, po, f, n, k);
        assert(real_of(e, m2, u, 0) == f(k as int)) by {
            reveal_with_fuel(real_of, 8);
        }
        lemma_store_one(m2, m, u, Buf::Arena, po, f, k, i, e);
    }
    lemma_fill(body, 0, m, u, Buf::Arena, po, f, n);
    lemma_below(0, n as u64, body, m, u);
    assert(Seq::new(n, f) =~= swiglu_of(
        u.math,
        row_of(s, pa, n),
        row_of(s, pb, n),
    ).data);
}

/// The code of an embedding looks up the row of the token.
pub proof fn law_embed_code(
    p: PlanV,
    g: GraphV,
    table: usize,
    out: usize,
    id: u32,
    m: Machine,
    u: Units,
)
    requires
        placed(p, g, out),
        m.mem.contains_key(Buf::Arena),
        m.token == id,
        within(m, place(p, g, out, m.row), row_len(g, out)),
    ensures
        wrote(
            step(embed_stmt(p, g, table, out), m, u),
            m,
            Buf::Arena,
            place(p, g, out, m.row),
            looked_up(seq![id], m.mem[Buf::Table(table)], row_len(g, out)),
        ),
{
    let n = row_len(g, out);
    let t = m.mem[Buf::Table(table)];
    let po = place(p, g, out, m.row);
    let f = |i: int| t[id * n + i];
    let sh = g.nodes[out - 1].out_shape;
    assert(crate::codegen::lower::fixed_dims(sh, sh.len()) <= u64::MAX);
    let at = plus(times(Int::Token, Int::Const(n as u64)), Int::Var(0));
    let e = Real::Load(Buf::Table(table), at);
    let i = spot(p, g, out, Int::Var(0));
    let body = then(Stmt::Store(Buf::Arena, i, e), Code::End);
    assert forall|mm: Machine, k: nat|
        k < n && mm.vars[0] == k && #[trigger] wrote(
            mm,
            m,
            Buf::Arena,
            po,
            Seq::new(k, f),
        ) implies wrote(run(body, mm, u), m, Buf::Arena, po, Seq::new(k + 1, f)) by {
        lemma_spot(p, g, out, mm);
        assert(int_of(at, mm) == id * n + k) by {
            reveal_with_fuel(int_of, 4);
        }
        assert(mm.mem[Buf::Table(table)] == t);
        lemma_store_one(mm, m, u, Buf::Arena, po, f, k, i, e);
    }
    lemma_fill(body, 0, m, u, Buf::Arena, po, f, n);
    lemma_below(0, n as u64, body, m, u);
    let want = looked_up(seq![id], t, n);
    assert(1 * n == n);
    assert forall|j: int| 0 <= j < n implies Seq::new(n, f)[j] == want[j] by {
        vstd::arithmetic::div_mod::lemma_small_mod(j as nat, n);
        vstd::arithmetic::div_mod::lemma_basic_div(j, n as int);
    }
    assert(Seq::new(n, f) =~= want);
}

/// The code of a bias adds it to the row.
pub proof fn law_bias_code(
    p: PlanV,
    g: GraphV,
    tensor: usize,
    out: usize,
    rows: u64,
    m: Machine,
    u: Units,
)
    requires
        placed(p, g, out),
        m.mem.contains_key(Buf::Arena),
        within(m, place(p, g, out, m.row), rows as nat),
    ensures
        wrote(
            step(bias_stmt(p, g, tensor, out, rows), m, u),
            m,
            Buf::Arena,
            place(p, g, out, m.row),
            Seq::new(
                rows as nat,
                |i: int|
                    sum(
                        m.mem[Buf::Arena][place(p, g, out, m.row) + i],
                        m.mem[Buf::Table(tensor)][i],
                    ),
            ),
        ),
{
    let n = rows as nat;
    let s = m.mem[Buf::Arena];
    let t = m.mem[Buf::Table(tensor)];
    let po = place(p, g, out, m.row);
    let f = |i: int| sum(s[po + i], t[i]);
    let e = Real::Plus(
        Box::new(from_row(p, g, out, Int::Var(0))),
        Box::new(Real::Load(Buf::Table(tensor), Int::Var(0))),
    );
    let i = spot(p, g, out, Int::Var(0));
    let body = then(Stmt::Store(Buf::Arena, i, e), Code::End);
    assert forall|mm: Machine, k: nat|
        k < n && mm.vars[0] == k && #[trigger] wrote(
            mm,
            m,
            Buf::Arena,
            po,
            Seq::new(k, f),
        ) implies wrote(run(body, mm, u), m, Buf::Arena, po, Seq::new(k + 1, f)) by {
        lemma_spot(p, g, out, mm);
        lemma_read(p, g, out, mm, m, u, po, f, n, k);
        assert(mm.mem[Buf::Table(tensor)] == t);
        assert(real_of(e, mm, u, 0) == f(k as int)) by {
            reveal_with_fuel(real_of, 3);
        }
        lemma_store_one(mm, m, u, Buf::Arena, po, f, k, i, e);
    }
    lemma_fill(body, 0, m, u, Buf::Arena, po, f, n);
    lemma_below(0, rows, body, m, u);
    assert(Seq::new(n, f) =~= Seq::new(
        rows as nat,
        |i: int|
            sum(
                m.mem[Buf::Arena][place(p, g, out, m.row) + i],
                m.mem[Buf::Table(tensor)][i],
            ),
    ));
}

/// The code that hands out logits copies the row of the output.
pub proof fn law_logits_code(p: PlanV, g: GraphV, row: Int, m: Machine, u: Units)
    requires
        placed(p, g, g.output),
        m.mem.contains_key(Buf::Logits),
        m.mem[Buf::Logits].len() >= row_len(g, g.output),
        row matches Int::Const(_) || row == Int::Minus(
            Box::new(Int::Arg(0)),
            Box::new(Int::Const(1)),
        ),
    ensures
        wrote(
            step(logits_stmt(p, g, row), m, u),
            m,
            Buf::Logits,
            0,
            Seq::new(
                row_len(g, g.output),
                |i: int| m.mem[Buf::Arena][place(p, g, g.output, int_of(row, m)) + i],
            ),
        ),
{
    let n = row_len(g, g.output);
    let s = m.mem[Buf::Arena];
    let r = int_of(row, m);
    let at = place(p, g, g.output, r);
    let f = |i: int| s[at + i];
    let sh = g.nodes[g.output - 1].out_shape;
    assert(crate::codegen::lower::fixed_dims(sh, sh.len()) <= u64::MAX);
    let from = plus(row_at(p, g, g.output, row), Int::Var(0));
    let e = Real::Load(Buf::Arena, from);
    let i = Int::Var(0);
    let body = then(Stmt::Store(Buf::Logits, i, e), Code::End);
    assert forall|mm: Machine, k: nat|
        k < n && mm.vars[0] == k && #[trigger] wrote(
            mm,
            m,
            Buf::Logits,
            0,
            Seq::new(k, f),
        ) implies wrote(run(body, mm, u), m, Buf::Logits, 0, Seq::new(k + 1, f)) by {
        assert(int_of(row, mm) == r) by {
            reveal_with_fuel(int_of, 3);
        }
        assert(int_of(from, mm) == at + k) by {
            reveal_with_fuel(int_of, 5);
        }
        assert(mm.mem[Buf::Arena] == s);
        lemma_store_one(mm, m, u, Buf::Logits, 0, f, k, i, e);
    }
    lemma_fill(body, 0, m, u, Buf::Logits, 0, f, n);
    lemma_below(0, n as u64, body, m, u);
    assert(Seq::new(n, f) =~= Seq::new(
        row_len(g, g.output),
        |i: int| m.mem[Buf::Arena][place(p, g, g.output, int_of(row, m)) + i],
    ));
}

/// Sums of squares do not depend on the zero that they start from.
pub proof fn lemma_squares_start(x: Seq<u32>, c: int, n: nat)
    requires
        n >= 1,
    ensures
        dot(0, x, c, x, c, n) == dot(SIGN, x, c, x, c, n),
    decreases n,
{
    if n == 1 {
        reveal_with_fuel(dot, 2);
        lemma_square_sign(x[c]);
        lemma_zero_start(product(x[c], x[c]));
    } else {
        lemma_squares_start(x, c, (n - 1) as nat);
    }
}

/// Whether `a` is `b` but for the arena, where `t` stands from `at` on, and the cell.
pub open spec fn normed(a: Machine, b: Machine, at: int, t: Seq<u32>) -> bool {
    &&& same_frame(a, b)
    &&& a.mem == b.mem.insert(Buf::Arena, patched(b.mem[Buf::Arena], at, t)).insert(
        Buf::Cell(0),
        a.mem[Buf::Cell(0)],
    )
    &&& a.mem[Buf::Cell(0)].len() == 1
}

/// A place of a chunk, when a loop stands at its variable.
proof fn lemma_chunk_spot(p: PlanV, g: GraphV, v: usize, at: u64, m: Machine)
    requires
        placed(p, g, v),
    ensures
        int_of(chunk_spot(p, g, v, at), m) == place(p, g, v, m.row) + at + m.vars[0],
{
    reveal_with_fuel(int_of, 5);
    let s = g.nodes[v - 1].out_shape;
    assert(crate::codegen::lower::fixed_dims(s, s.len()) <= u64::MAX);
}

/// The loop over the squares of a chunk adds them up in the cell.
proof fn lemma_squares(
    p: PlanV,
    g: GraphV,
    src: usize,
    at: u64,
    unit: u64,
    m: Machine,
    u: Units,
    n: nat,
)
    requires
        placed(p, g, src),
        m.mem.contains_key(Buf::Cell(0)),
        m.mem[Buf::Cell(0)] == seq![0u32],
        n <= unit,
        0 <= place(p, g, src, m.row) + at,
        place(p, g, src, m.row) + at + unit <= m.mem[Buf::Arena].len(),
    ensures
        ({
            let body = then(
                Stmt::Let(0, Real::Load(Buf::Arena, chunk_spot(p, g, src, at))),
                then(
                    Stmt::Store(
                        Buf::Cell(0),
                        Int::Const(0),
                        Real::Plus(
                            Box::new(Real::Load(Buf::Cell(0), Int::Const(0))),
                            Box::new(
                                Real::Times(Box::new(Real::Reg(0)), Box::new(Real::Reg(0))),
                            ),
                        ),
                    ),
                    Code::End,
                ),
            );
            let r = iterate(body, 0, 0, 1, n, m, u);
            let s = m.mem[Buf::Arena];
            let c = place(p, g, src, m.row) + at;
            &&& same_frame(r, m)
            &&& r.mem == m.mem.insert(Buf::Cell(0), seq![dot(0, s, c, s, c, n)])
        }),
    decreases n,
{
    let load = Stmt::Let(0, Real::Load(Buf::Arena, chunk_spot(p, g, src, at)));
    let e = Real::Plus(
        Box::new(Real::Load(Buf::Cell(0), Int::Const(0))),
        Box::new(Real::Times(Box::new(Real::Reg(0)), Box::new(Real::Reg(0)))),
    );
    let put = Stmt::Store(Buf::Cell(0), Int::Const(0), e);
    let body = then(load, then(put, Code::End));
    let s = m.mem[Buf::Arena];
    let c = place(p, g, src, m.row) + at;
    if n == 0 {
        assert(m.mem =~= m.mem.insert(Buf::Cell(0), seq![dot(0, s, c, s, c, 0)]));
    } else {
        let k = (n - 1) as nat;
        lemma_squares(p, g, src, at, unit, m, u, k);
        let before = iterate(body, 0, 0, 1, k, m, u);
        let mm = Machine { vars: before.vars.insert(0, k as int), ..before };
        assert(0 + (n - 1) * 1u64 == k);
        lemma_chunk_spot(p, g, src, at, mm);
        let m2 = step(load, mm, u);
        assert(mm.mem[Buf::Arena] == s);
        assert(m2.regs[0] == s[c + k]);
        let m3 = step(put, m2, u);
        assert(run(body, mm, u) == m3) by {
            reveal_with_fuel(run, 4);
        }
        let d = dot(0, s, c, s, c, k);
        assert(m2.mem[Buf::Cell(0)] == seq![d]);
        assert(real_of(e, m2, u, 0) == sum(d, product(s[c + k], s[c + k]))) by {
            reveal_with_fuel(real_of, 3);
        }
        assert(dot(0, s, c, s, c, n) == sum(d, product(s[c + k], s[c + k])));
        assert(seq![d].update(0, dot(0, s, c, s, c, n)) =~= seq![dot(0, s, c, s, c, n)]);
        assert(m3.mem =~= m.mem.insert(Buf::Cell(0), seq![dot(0, s, c, s, c, n)]));
        assert(iterate(body, 0, 0, 1, n, m, u) == m3);
    }
}

/// What the norm of a row is at place `i`.
pub open spec fn normed_at(u: Units, x: Seq<u32>, w: Seq<u32>, eps: u32, unit: nat, i: int) -> u32 {
    product(
        product(x[i], norm_factor(u.math, x, i / unit as int * unit, unit, eps)),
        w[i % unit as int],
    )
}

/// The code of a chunk norms it.
#[verifier::rlimit(40)]
proof fn lemma_norm_chunk(
    p: PlanV,
    g: GraphV,
    src: usize,
    weight: usize,
    eps: u32,
    out: usize,
    unit: u64,
    c: nat,
    chunks: nat,
    m0: Machine,
    m: Machine,
    u: Units,
    rest: Code,
) -> (m9: Machine)
    requires
        placed(p, g, src),
        placed(p, g, out),
        unit > 0,
        c < chunks,
        chunks * unit <= u64::MAX,
        m0.mem.contains_key(Buf::Arena),
        within(m0, place(p, g, src, m0.row), chunks * unit as nat),
        within(m0, place(p, g, out, m0.row), chunks * unit as nat),
        unharmed(
            place(p, g, src, m0.row),
            place(p, g, out, m0.row),
            chunks * unit as nat,
        ),
        m.mem.contains_key(Buf::Cell(0)),
        ({
            let a = place(p, g, src, m0.row);
            let x = m0.mem[Buf::Arena].subrange(a, a + chunks * unit);
            normed(
                m,
                m0,
                place(p, g, out, m0.row),
                Seq::new(
                    c * unit as nat,
                    |i: int| normed_at(u, x, m0.mem[Buf::Table(weight)], eps, unit as nat, i),
                ),
            )
        }),
    ensures
        m9.mem.contains_key(Buf::Cell(0)),
        run(
            norm_chunk(p, g, src, weight, eps, out, (c * unit) as u64, unit, rest),
            m,
            u,
        ) == run(rest, m9, u),
        ({
            let a = place(p, g, src, m0.row);
            let x = m0.mem[Buf::Arena].subrange(a, a + chunks * unit);
            normed(
                m9,
                m0,
                place(p, g, out, m0.row),
                Seq::new(
                    (c + 1) * unit as nat,
                    |i: int| normed_at(u, x, m0.mem[Buf::Table(weight)], eps, unit as nat, i),
                ),
            )
        }),
{
    let s = m0.mem[Buf::Arena];
    let w = m0.mem[Buf::Table(weight)];
    let un = unit as nat;
    let total = chunks * un;
    let pa = place(p, g, src, m0.row);
    let po = place(p, g, out, m0.row);
    let x = s.subrange(pa, pa + total);
    let h = |i: int| normed_at(u, x, w, eps, un, i);
    let done = c * un;
    lemma_row_within(c as int, unit as int, chunks as int);
    assert((c + 1) * un == done + un) by (nonlinear_arith)
        requires
            done == c * un,
    ;
    let at = (c * unit) as u64;
    assert(at == done);
    // The cell is cleared and the squares are added up.
    let s1 = Stmt::Store(Buf::Cell(0), Int::Const(0), Real::Bits(0));
    let m1 = step(s1, m, u);
    assert(m1.mem[Buf::Cell(0)] =~= seq![0u32]);
    assert(m1.mem[Buf::Arena] == patched(s, po, Seq::new(done, h)));
    lemma_squares(p, g, src, at, unit, m1, u, un);
    let s2 = squares_stmt(p, g, src, at, unit);
    let m2 = step(s2, m1, u);
    let body2 = then(
        Stmt::Let(0, Real::Load(Buf::Arena, chunk_spot(p, g, src, at))),
        then(
            Stmt::Store(
                Buf::Cell(0),
                Int::Const(0),
                Real::Plus(
                    Box::new(Real::Load(Buf::Cell(0), Int::Const(0))),
                    Box::new(Real::Times(Box::new(Real::Reg(0)), Box::new(Real::Reg(0)))),
                ),
            ),
            Code::End,
        ),
    );
    lemma_below(0, unit, body2, m1, u);
    let s1a = m1.mem[Buf::Arena];
    let d = dot(0, s1a, pa + done, s1a, pa + done, un);
    assert(m2.mem[Buf::Cell(0)] == seq![d]);
    // The squares are those of the row as it was.
    let cc = done as int;
    assert forall|j: int| 0 <= j < un implies #[trigger] s1a[(pa + done) + j] == x[cc + j] by {
        assert(x[cc + j] == s[pa + cc + j]);
    }
    lemma_same_dot(0, s1a, pa + done, s1a, pa + done, x, cc, x, cc, un);
    lemma_squares_start(x, cc, un);
    // The factor is named.
    let s3 = Stmt::Let(1, inverse_real(unit, eps));
    let m3 = step(s3, m2, u);
    let factor = norm_factor(u.math, x, cc, un, eps);
    assert(m3.regs[1] == factor) by {
        reveal_with_fuel(real_of, 7);
        assert(int_of(Int::Const(0), m2) == 0);
    }
    // The chunk is scaled.
    let f = |j: int| h(cc + j);
    let e = Real::Times(
        Box::new(
            Real::Times(
                Box::new(Real::Load(Buf::Arena, chunk_spot(p, g, src, at))),
                Box::new(Real::Reg(1)),
            ),
        ),
        Box::new(Real::Load(Buf::Table(weight), Int::Var(0))),
    );
    let spot4 = chunk_spot(p, g, out, at);
    let put = Stmt::Store(Buf::Arena, spot4, e);
    let body = then(put, Code::End);
    assert forall|mm: Machine, k: nat|
        k < un && mm.vars[0] == k && mm.regs[1] == factor && #[trigger] wrote(
            mm,
            m3,
            Buf::Arena,
            po + done,
            Seq::new(k, f),
        ) implies wrote(run(body, mm, u), m3, Buf::Arena, po + done, Seq::new(k + 1, f))
        && run(body, mm, u).regs[1] == factor by {
        lemma_chunk_spot(p, g, out, at, mm);
        lemma_chunk_spot(p, g, src, at, mm);
        lemma_cell(c as int, k as int, unit as int);
        assert(mm.mem[Buf::Arena][pa + done + k] == x[cc + k]);
        assert(mm.mem[Buf::Table(weight)] == w);
        assert(real_of(e, mm, u, 0) == f(k as int)) by {
            reveal_with_fuel(real_of, 4);
            assert((cc + k) / un as int * un == cc);
        }
        lemma_store_one(mm, m3, u, Buf::Arena, po + done, f, k, spot4, e);
        assert(run(body, mm, u).regs == mm.regs) by {
            reveal_with_fuel(run, 3);
        }
    }
    lemma_fill_named(body, m3, u, po + done, f, un, factor);
    let s4 = scale_stmt(p, g, src, weight, out, at, unit);
    let m4 = step(s4, m3, u);
    lemma_below(0, unit, body, m3, u);
    assert(run(norm_chunk(p, g, src, weight, eps, out, at, unit, rest), m, u) == run(
        rest,
        m4,
        u,
    )) by {
        reveal_with_fuel(run, 6);
    }
    assert(patched(patched(s, po, Seq::new(done, h)), po + done, Seq::new(un, f)) =~= patched(
        s,
        po,
        Seq::new((c + 1) * un, h),
    ));
    assert(m4.mem =~= m0.mem.insert(
        Buf::Arena,
        patched(s, po, Seq::new((c + 1) * un, h)),
    ).insert(Buf::Cell(0), m4.mem[Buf::Cell(0)]));
    m4
}

/// A loop whose body puts one number after the other, with a name that stays.
proof fn lemma_fill_named(
    body: Code,
    m: Machine,
    u: Units,
    at: int,
    f: spec_fn(int) -> u32,
    n: nat,
    factor: u32,
)
    requires
        m.mem.contains_key(Buf::Arena),
        m.regs[1] == factor,
        forall|mm: Machine, k: nat|
            k < n && mm.vars[0] == k && mm.regs[1] == factor && #[trigger] wrote(
                mm,
                m,
                Buf::Arena,
                at,
                Seq::new(k, f),
            ) ==> wrote(run(body, mm, u), m, Buf::Arena, at, Seq::new(k + 1, f)) && run(
                body,
                mm,
                u,
            ).regs[1] == factor,
    ensures
        wrote(iterate(body, 0, 0, 1, n, m, u), m, Buf::Arena, at, Seq::new(n, f)),
        iterate(body, 0, 0, 1, n, m, u).regs[1] == factor,
    decreases n,
{
    if n == 0 {
        assert(patched(m.mem[Buf::Arena], at, Seq::new(0, f)) =~= m.mem[Buf::Arena]);
        assert(m.mem =~= m.mem.insert(Buf::Arena, m.mem[Buf::Arena]));
    } else {
        let k = (n - 1) as nat;
        lemma_fill_named(body, m, u, at, f, k, factor);
        let before = iterate(body, 0, 0, 1, k, m, u);
        let mm = Machine { vars: before.vars.insert(0, k as int), ..before };
        assert(wrote(mm, m, Buf::Arena, at, Seq::new(k, f)));
        assert(0 + (n - 1) * 1u64 == k);
        assert(iterate(body, 0, 0, 1, n, m, u) == run(body, mm, u));
    }
}

/// The code of the chunks from chunk `c` on norms them.
proof fn lemma_norm_chunks(
    p: PlanV,
    g: GraphV,
    src: usize,
    weight: usize,
    eps: u32,
    out: usize,
    unit: u64,
    c: nat,
    chunks: nat,
    m0: Machine,
    m: Machine,
    u: Units,
    rest: Code,
) -> (m9: Machine)
    requires
        placed(p, g, src),
        placed(p, g, out),
        unit > 0,
        c <= chunks,
        chunks * unit <= u64::MAX,
        m0.mem.contains_key(Buf::Arena),
        within(m0, place(p, g, src, m0.row), chunks * unit as nat),
        within(m0, place(p, g, out, m0.row), chunks * unit as nat),
        unharmed(
            place(p, g, src, m0.row),
            place(p, g, out, m0.row),
            chunks * unit as nat,
        ),
        m.mem.contains_key(Buf::Cell(0)),
        ({
            let a = place(p, g, src, m0.row);
            let x = m0.mem[Buf::Arena].subrange(a, a + chunks * unit);
            normed(
                m,
                m0,
                place(p, g, out, m0.row),
                Seq::new(
                    c * unit as nat,
                    |i: int| normed_at(u, x, m0.mem[Buf::Table(weight)], eps, unit as nat, i),
                ),
            )
        }),
    ensures
        run(norm_code(p, g, src, weight, eps, out, unit, c, chunks, rest), m, u) == run(
            rest,
            m9,
            u,
        ),
        ({
            let a = place(p, g, src, m0.row);
            let x = m0.mem[Buf::Arena].subrange(a, a + chunks * unit);
            normed(
                m9,
                m0,
                place(p, g, out, m0.row),
                Seq::new(
                    chunks * unit as nat,
                    |i: int| normed_at(u, x, m0.mem[Buf::Table(weight)], eps, unit as nat, i),
                ),
            )
        }),
    decreases chunks - c,
{
    if c == chunks {
        m
    } else {
        let more = norm_code(p, g, src, weight, eps, out, unit, c + 1, chunks, rest);
        let m1 = lemma_norm_chunk(
            p,
            g,
            src,
            weight,
            eps,
            out,
            unit,
            c,
            chunks,
            m0,
            m,
            u,
            more,
        );
        lemma_norm_chunks(
            p,
            g,
            src,
            weight,
            eps,
            out,
            unit,
            c + 1,
            chunks,
            m0,
            m1,
            u,
            rest,
        )
    }
}

/// The code of a norm norms the row, chunk by chunk; what follows runs on the
/// machine that it leaves.
pub proof fn law_rmsnorm_code(
    p: PlanV,
    g: GraphV,
    src: usize,
    weight: usize,
    eps: u32,
    out: usize,
    head_dim: Option<usize>,
    m: Machine,
    u: Units,
    rest: Code,
) -> (m9: Machine)
    requires
        placed(p, g, src),
        placed(p, g, out),
        unit_of(g, src, head_dim) > 0,
        row_len(g, src) % unit_of(g, src, head_dim) as nat == 0,
        m.mem.contains_key(Buf::Arena),
        m.mem.contains_key(Buf::Cell(0)),
        m.mem[Buf::Cell(0)].len() == 1,
        ({
            let n = row_len(g, src);
            &&& within(m, place(p, g, src, m.row), n)
            &&& within(m, place(p, g, out, m.row), n)
            &&& unharmed(place(p, g, src, m.row), place(p, g, out, m.row), n)
        }),
    ensures
        run(rmsnorm_code(p, g, src, weight, eps, out, head_dim, rest), m, u) == run(rest, m9, u),
        normed(
            m9,
            m,
            place(p, g, out, m.row),
            rmsnorm_of(
                u.math,
                row_of(m.mem[Buf::Arena], place(p, g, src, m.row), row_len(g, src)),
                m.mem[Buf::Table(weight)],
                eps,
                unit_of(g, src, head_dim) as nat,
            ).data,
        ),
{
    let unit = unit_of(g, src, head_dim);
    let un = unit as nat;
    let n = row_len(g, src);
    let chunks = n / un;
    let s = m.mem[Buf::Arena];
    let w = m.mem[Buf::Table(weight)];
    let pa = place(p, g, src, m.row);
    let po = place(p, g, out, m.row);
    vstd::arithmetic::div_mod::lemma_fundamental_div_mod(n as int, un as int);
    assert(chunks * un == n) by (nonlinear_arith)
        requires
            n == un * chunks,
    ;
    let sh = g.nodes[src - 1].out_shape;
    assert(crate::codegen::lower::fixed_dims(sh, sh.len()) <= u64::MAX);
    let x = s.subrange(pa, pa + n);
    let h = |i: int| normed_at(u, x, w, eps, un, i);
    assert(0 * un == 0);
    assert(patched(s, po, Seq::new(0, h)) =~= s);
    assert(m.mem =~= m.mem.insert(Buf::Arena, patched(s, po, Seq::new(0, h))).insert(
        Buf::Cell(0),
        m.mem[Buf::Cell(0)],
    ));
    let m9 = lemma_norm_chunks(p, g, src, weight, eps, out, unit, 0, chunks, m, m, u, rest);
    let want = rmsnorm_of(u.math, row_of(s, pa, n), w, eps, un).data;
    assert(Seq::new(n, h) =~= want);
    m9
}

/// Whether the table of frequencies holds what the rotation takes.
pub open spec fn freqs_ok(m: Machine, u: Units, theta: u32, head_dim: usize) -> bool {
    forall|i: int|
        0 <= i < head_dim / 2 ==> #[trigger] m.mem[Buf::Freqs(theta, head_dim)][i] == (
        u.math.pow)(theta, quotient(product(MINUS_TWO, of_int(i)), of_int(head_dim as int)))
}

/// The body of the loop over the pairs of a head.
pub open spec fn turn_body(
    p: PlanV,
    g: GraphV,
    out: usize,
    at: u64,
    head_dim: usize,
    theta: u32,
    style: RopeStyle,
) -> Code {
    match turn_stmt(p, g, out, at, head_dim, theta, style) {
        Stmt::Loop { var, from, to, step, body } => *body,
        _ => Code::End,
    }
}

/// A place of a head, when a loop stands at its variable.
proof fn lemma_head_spot(p: PlanV, g: GraphV, v: usize, at: u64, i: Int, m: Machine)
    requires
        placed(p, g, v),
    ensures
        int_of(head_spot(p, g, v, at, i), m) == place(p, g, v, m.row) + at + int_of(i, m),
{
    reveal_with_fuel(int_of, 5);
    let s = g.nodes[v - 1].out_shape;
    assert(crate::codegen::lower::fixed_dims(s, s.len()) <= u64::MAX);
}

/// The loop over the first `k` pairs of a head turns them.
#[verifier::rlimit(40)]
proof fn lemma_turn(
    p: PlanV,
    g: GraphV,
    out: usize,
    at: u64,
    head_dim: usize,
    theta: u32,
    style: RopeStyle,
    m: Machine,
    u: Units,
    k: nat,
)
    requires
        placed(p, g, out),
        m.mem.contains_key(Buf::Arena),
        freqs_ok(m, u, theta, head_dim),
        0 <= place(p, g, out, m.row) + at,
        place(p, g, out, m.row) + at + head_dim <= m.mem[Buf::Arena].len(),
        k <= head_dim / 2,
    ensures
        ({
            let r = iterate(turn_body(p, g, out, at, head_dim, theta, style), 0, 0, 1, k, m, u);
            &&& same_frame(r, m)
            &&& r.mem == m.mem.insert(
                Buf::Arena,
                rope_head(
                    u.math,
                    m.mem[Buf::Arena],
                    place(p, g, out, m.row) + at,
                    head_dim as int,
                    theta,
                    style,
                    m.pos,
                    k,
                ),
            )
        }),
    decreases k,
{
    let body = turn_body(p, g, out, at, head_dim, theta, style);
    let s = m.mem[Buf::Arena];
    let base = place(p, g, out, m.row) + at;
    let hd = head_dim as int;
    if k == 0 {
        assert(m.mem =~= m.mem.insert(Buf::Arena, s));
    } else {
        let j = (k - 1) as nat;
        lemma_turn(p, g, out, at, head_dim, theta, style, m, u, j);
        let before = iterate(body, 0, 0, 1, j, m, u);
        let mm = Machine { vars: before.vars.insert(0, j as int), ..before };
        assert(0 + (k - 1) * 1u64 == j);
        let d = rope_head(u.math, s, base, hd, theta, style, m.pos, j);
        lemma_rope_head_len(u.math, s, base, hd, theta, style, m.pos, j);
        let half = (head_dim / 2) as u64;
        let (ia, ib) = pair_ints(style, half);
        let (pa, pb) = pair_of(style, base, hd / 2, j as int);
        let angle = Real::Times(
            Box::new(Real::OfInt(Int::Pos)),
            Box::new(Real::Load(Buf::Freqs(theta, head_dim), Int::Var(0))),
        );
        let sa = head_spot(p, g, out, at, ia);
        let sb = head_spot(p, g, out, at, ib);
        let s0 = Stmt::Let(0, angle);
        let s1 = Stmt::Let(1, Real::Sin(Box::new(Real::Reg(0))));
        let s2 = Stmt::Let(2, Real::Cos(Box::new(Real::Reg(0))));
        let s3 = Stmt::Let(3, Real::Load(Buf::Arena, sa));
        let s4 = Stmt::Let(4, Real::Load(Buf::Arena, sb));
        let e5 = Real::Minus(Box::new(reg_product(3, 2)), Box::new(reg_product(4, 1)));
        let e6 = Real::Plus(Box::new(reg_product(3, 1)), Box::new(reg_product(4, 2)));
        let s5 = Stmt::Store(Buf::Arena, sa, e5);
        let s6 = Stmt::Store(Buf::Arena, sb, e6);
        let m0 = step(s0, mm, u);
        let m1 = step(s1, m0, u);
        let m2 = step(s2, m1, u);
        let m3 = step(s3, m2, u);
        let m4 = step(s4, m3, u);
        let m5 = step(s5, m4, u);
        let m6 = step(s6, m5, u);
        assert(run(body, mm, u) == m6) by {
            reveal_with_fuel(run, 9);
        }
        let sc = angle_of(u.math, theta, hd, m.pos, j as int);
        assert(mm.mem[Buf::Freqs(theta, head_dim)] == m.mem[Buf::Freqs(theta, head_dim)]);
        assert(m0.regs[0] == product(
            of_int(m.pos),
            m.mem[Buf::Freqs(theta, head_dim)][j as int],
        )) by {
            reveal_with_fuel(real_of, 3);
            assert(int_of(Int::Var(0), mm) == j);
            assert(int_of(Int::Pos, mm) == m.pos);
        }
        assert(m1.regs[1] == sc.0) by {
            reveal_with_fuel(real_of, 3);
        }
        assert(m2.regs[2] == sc.1) by {
            reveal_with_fuel(real_of, 3);
        }
        lemma_head_spot(p, g, out, at, ia, m2);
        lemma_head_spot(p, g, out, at, ib, m3);
        lemma_head_spot(p, g, out, at, ia, m4);
        lemma_head_spot(p, g, out, at, ib, m5);
        assert(int_of(ia, m2) == pa - base && int_of(ia, m4) == pa - base) by {
            reveal_with_fuel(int_of, 4);
        }
        assert(int_of(ib, m3) == pb - base && int_of(ib, m5) == pb - base) by {
            reveal_with_fuel(int_of, 4);
        }
        assert(m3.regs[3] == d[pa]);
        assert(m4.regs[4] == d[pb]);
        let (y0, y1) = turned(d[pa], d[pb], sc);
        assert(real_of(e5, m4, u, 0) == y0) by {
            reveal_with_fuel(real_of, 4);
        }
        assert(real_of(e6, m5, u, 0) == y1) by {
            reveal_with_fuel(real_of, 4);
        }
        assert(m6.mem =~= m.mem.insert(Buf::Arena, d.update(pa, y0).update(pb, y1)));
        assert(iterate(body, 0, 0, 1, k, m, u) == m6);
    }
}

/// The code of the heads from head `h` on turns them.
proof fn lemma_turns(
    p: PlanV,
    g: GraphV,
    out: usize,
    h: nat,
    n_heads: nat,
    head_dim: usize,
    theta: u32,
    style: RopeStyle,
    m0: Machine,
    m: Machine,
    u: Units,
    rest: Code,
) -> (m9: Machine)
    requires
        placed(p, g, out),
        h <= n_heads,
        m0.mem.contains_key(Buf::Arena),
        freqs_ok(m0, u, theta, head_dim),
        0 <= place(p, g, out, m0.row),
        n_heads * head_dim <= u64::MAX,
        place(p, g, out, m0.row) + n_heads * head_dim <= m0.mem[Buf::Arena].len(),
        same_frame(m, m0),
        m.mem == m0.mem.insert(
            Buf::Arena,
            rope_row(
                u.math,
                m0.mem[Buf::Arena],
                place(p, g, out, m0.row),
                head_dim as int,
                theta,
                style,
                m0.pos,
                h,
            ),
        ),
    ensures
        run(turn_code(p, g, out, h, n_heads, head_dim, theta, style, rest), m, u) == run(
            rest,
            m9,
            u,
        ),
        same_frame(m9, m0),
        m9.mem == m0.mem.insert(
            Buf::Arena,
            rope_row(
                u.math,
                m0.mem[Buf::Arena],
                place(p, g, out, m0.row),
                head_dim as int,
                theta,
                style,
                m0.pos,
                n_heads,
            ),
        ),
    decreases n_heads - h,
{
    if h == n_heads {
        m
    } else {
        let s = m0.mem[Buf::Arena];
        let po = place(p, g, out, m0.row);
        let hd = head_dim as int;
        lemma_row_within(h as int, hd, n_heads as int);
        lemma_rope_row_len(u.math, s, po, hd, theta, style, m0.pos, h);
        let at = (h * head_dim) as u64;
        assert(at == h * hd);
        let half = (head_dim / 2) as u64;
        let st = turn_stmt(p, g, out, at, head_dim, theta, style);
        let body = turn_body(p, g, out, at, head_dim, theta, style);
        assert(freqs_ok(m, u, theta, head_dim)) by {
            assert(m.mem[Buf::Freqs(theta, head_dim)] == m0.mem[Buf::Freqs(theta, head_dim)]);
            assert forall|i: int| 0 <= i < head_dim / 2 implies #[trigger] m.mem[Buf::Freqs(
                theta,
                head_dim,
            )][i] == (u.math.pow)(
                theta,
                quotient(product(MINUS_TWO, of_int(i)), of_int(head_dim as int)),
            ) by {
                assert(m0.mem[Buf::Freqs(theta, head_dim)][i] == m0.mem[Buf::Freqs(
                    theta,
                    head_dim,
                )][i]);
            }
        }
        lemma_turn(p, g, out, at, head_dim, theta, style, m, u, (head_dim / 2) as nat);
        lemma_below(0, half, body, m, u);
        assert(st == below(0, half, body));
        let m1 = step(st, m, u);
        let more = turn_code(p, g, out, h + 1, n_heads, head_dim, theta, style, rest);
        assert(run(then(st, more), m, u) == run(more, m1, u));
        assert(m1.mem =~= m0.mem.insert(
            Buf::Arena,
            rope_row(u.math, s, po, hd, theta, style, m0.pos, h + 1),
        ));
        lemma_turns(p, g, out, h + 1, n_heads, head_dim, theta, style, m0, m1, u, rest)
    }
}

/// The copy of a row.
proof fn lemma_copy(p: PlanV, g: GraphV, src: usize, out: usize, m: Machine, u: Units)
    requires
        placed(p, g, src) && placed(p, g, out),
        m.mem.contains_key(Buf::Arena),
        within(m, place(p, g, src, m.row), row_len(g, src)),
        within(m, place(p, g, out, m.row), row_len(g, src)),
        unharmed(place(p, g, src, m.row), place(p, g, out, m.row), row_len(g, src)),
    ensures
        wrote(
            step(copy_stmt(p, g, src, out), m, u),
            m,
            Buf::Arena,
            place(p, g, out, m.row),
            row_of(m.mem[Buf::Arena], place(p, g, src, m.row), row_len(g, src)).data,
        ),
{
    let n = row_len(g, src);
    let s = m.mem[Buf::Arena];
    let pa = place(p, g, src, m.row);
    let po = place(p, g, out, m.row);
    let f = |i: int| s[pa + i];
    let e = from_row(p, g, src, Int::Var(0));
    let i = spot(p, g, out, Int::Var(0));
    let body = then(Stmt::Store(Buf::Arena, i, e), Code::End);
    let sh = g.nodes[src - 1].out_shape;
    assert(crate::codegen::lower::fixed_dims(sh, sh.len()) <= u64::MAX);
    assert forall|mm: Machine, k: nat|
        k < n && mm.vars[0] == k && #[trigger] wrote(
            mm,
            m,
            Buf::Arena,
            po,
            Seq::new(k, f),
        ) implies wrote(run(body, mm, u), m, Buf::Arena, po, Seq::new(k + 1, f)) by {
        lemma_spot(p, g, out, mm);
        lemma_read(p, g, src, mm, m, u, po, f, n, k);
        lemma_store_one(mm, m, u, Buf::Arena, po, f, k, i, e);
    }
    lemma_fill(body, 0, m, u, Buf::Arena, po, f, n);
    lemma_below(0, n as u64, body, m, u);
    assert(Seq::new(n, f) =~= row_of(s, pa, n).data);
}

/// The code of a rotation turns the row by the angles of its position; what follows
/// runs on the machine that it leaves.
pub proof fn law_rope_code(
    p: PlanV,
    g: GraphV,
    src: usize,
    out: usize,
    n_heads: usize,
    head_dim: usize,
    theta: u32,
    style: RopeStyle,
    m: Machine,
    u: Units,
    rest: Code,
) -> (m9: Machine)
    requires
        placed(p, g, src) && placed(p, g, out),
        n_heads * head_dim == row_len(g, src),
        m.mem.contains_key(Buf::Arena),
        freqs_ok(m, u, theta, head_dim),
        within(m, place(p, g, src, m.row), row_len(g, src)),
        within(m, place(p, g, out, m.row), row_len(g, src)),
        unharmed(place(p, g, src, m.row), place(p, g, out, m.row), row_len(g, src)),
    ensures
        run(rope_code(p, g, src, out, n_heads, head_dim, theta, style, rest), m, u) == run(
            rest,
            m9,
            u,
        ),
        wrote(
            m9,
            m,
            Buf::Arena,
            place(p, g, out, m.row),
            rope_of(
                u.math,
                row_of(m.mem[Buf::Arena], place(p, g, src, m.row), row_len(g, src)),
                n_heads as nat,
                head_dim as int,
                theta,
                style,
                m.pos,
            ).data,
        ),
{
    let n = row_len(g, src);
    let s = m.mem[Buf::Arena];
    let pa = place(p, g, src, m.row);
    let po = place(p, g, out, m.row);
    let x = row_of(s, pa, n).data;
    let hd = head_dim as int;
    let nh = n_heads as nat;
    let sh = g.nodes[src - 1].out_shape;
    assert(crate::codegen::lower::fixed_dims(sh, sh.len()) <= u64::MAX);
    lemma_copy(p, g, src, out, m, u);
    let c = copy_stmt(p, g, src, out);
    let m1 = step(c, m, u);
    let t = m1.mem[Buf::Arena];
    assert(t == patched(s, po, x));
    let more = turn_code(p, g, out, 0, nh, head_dim, theta, style, rest);
    assert(run(then(c, more), m, u) == run(more, m1, u));
    assert(freqs_ok(m1, u, theta, head_dim)) by {
        assert(m1.mem[Buf::Freqs(theta, head_dim)] == m.mem[Buf::Freqs(theta, head_dim)]);
        assert forall|i: int| 0 <= i < head_dim / 2 implies #[trigger] m1.mem[Buf::Freqs(
            theta,
            head_dim,
        )][i] == (u.math.pow)(
            theta,
            quotient(product(MINUS_TWO, of_int(i)), of_int(head_dim as int)),
        ) by {
            assert(m.mem[Buf::Freqs(theta, head_dim)][i] == m.mem[Buf::Freqs(
                theta,
                head_dim,
            )][i]);
        }
    }
    assert(m1.mem =~= m1.mem.insert(
        Buf::Arena,
        rope_row(u.math, t, po, hd, theta, style, m.pos, 0),
    ));
    let m9 = lemma_turns(p, g, out, 0, nh, head_dim, theta, style, m1, m1, u, rest);
    // The row that was turned lies between what stands before and behind it.
    let pre = s.take(po);
    let post = s.skip(po + n);
    assert(t =~= pre + (x + post));
    lemma_split_row(u.math, pre, x + post, 0, hd, theta, style, m.pos, nh);
    lemma_split_row(u.math, x, post, 0, hd, theta, style, m.pos, nh);
    let y = rope_row(u.math, x, 0, hd, theta, style, m.pos, nh);
    lemma_rope_row_len(u.math, x, 0, hd, theta, style, m.pos, nh);
    assert(rope_row(u.math, t, po, hd, theta, style, m.pos, nh) == pre + (y + post));
    assert(pre + (y + post) =~= patched(s, po, y));
    let cols = row_of(s, pa, n).shape[1] as int;
    assert(rope_rows(u.math, x, cols, nh, hd, theta, style, m.pos, 1) == y) by {
        reveal_with_fuel(rope_rows, 2);
        assert((1 - 1) * cols == 0);
    }
    assert(rope_of(u.math, row_of(s, pa, n), nh, hd, theta, style, m.pos).data == y);
    assert(m9.mem =~= m.mem.insert(Buf::Arena, patched(s, po, y)));
    m9
}

/// The code that appends to the cache puts the row of keys at the token's position of
/// the layer, and the row of values at that of the layer's values.
pub proof fn law_append_code(
    p: PlanV,
    g: GraphV,
    k: usize,
    v: usize,
    layer: usize,
    m: Machine,
    u: Units,
)
    requires
        placed(p, g, k) && placed(p, g, v),
        cache_counts(p, layer),
        m.mem.contains_key(Buf::Kv),
        0 <= m.pos < p.max_seq_len,
        within(m, place(p, g, k, m.row), p.kv_dim as nat),
        within(m, place(p, g, v, m.row), p.kv_dim as nat),
        layer_base(p, layer) + 2 * region(p) <= m.mem[Buf::Kv].len(),
    ensures
        ({
            let d = p.kv_dim as nat;
            let s = m.mem[Buf::Arena];
            let at = layer_base(p, layer) + m.pos * d;
            let r = step(append_stmt(p, g, k, v, layer), m, u);
            &&& same_frame(r, m)
            &&& r.mem == m.mem.insert(
                Buf::Kv,
                patched(
                    patched(m.mem[Buf::Kv], at, row_of(s, place(p, g, k, m.row), d).data),
                    at + region(p),
                    row_of(s, place(p, g, v, m.row), d).data,
                ),
            )
        }),
{
    let d = p.kv_dim as nat;
    let body = append_body(p, g, k, v, layer);
    assert(append_stmt(p, g, k, v, layer) == below(0, p.kv_dim as u64, body));
    lemma_below(0, p.kv_dim as u64, body, m, u);
    lemma_append(p, g, k, v, layer, m, u, d);
    let s = m.mem[Buf::Arena];
    let pk = place(p, g, k, m.row);
    let pv = place(p, g, v, m.row);
    assert(Seq::new(d, |i: int| s[pk + i]) =~= row_of(s, pk, d).data);
    assert(Seq::new(d, |i: int| s[pv + i]) =~= row_of(s, pv, d).data);
}

/// The body of the loop over the numbers of a cached row.
pub open spec fn append_body(p: PlanV, g: GraphV, k: usize, v: usize, layer: usize) -> Code {
    match append_stmt(p, g, k, v, layer) {
        Stmt::Loop { var, from, to, step, body } => *body,
        _ => Code::End,
    }
}

proof fn lemma_append(
    p: PlanV,
    g: GraphV,
    k: usize,
    v: usize,
    layer: usize,
    m: Machine,
    u: Units,
    n: nat,
)
    requires
        placed(p, g, k) && placed(p, g, v),
        cache_counts(p, layer),
        m.mem.contains_key(Buf::Kv),
        0 <= m.pos < p.max_seq_len,
        within(m, place(p, g, k, m.row), p.kv_dim as nat),
        within(m, place(p, g, v, m.row), p.kv_dim as nat),
        layer_base(p, layer) + 2 * region(p) <= m.mem[Buf::Kv].len(),
        n <= p.kv_dim,
    ensures
        ({
            let s = m.mem[Buf::Arena];
            let pk = place(p, g, k, m.row);
            let pv = place(p, g, v, m.row);
            let at = layer_base(p, layer) + m.pos * p.kv_dim;
            let r = iterate(append_body(p, g, k, v, layer), 0, 0, 1, n, m, u);
            &&& same_frame(r, m)
            &&& r.mem == m.mem.insert(
                Buf::Kv,
                patched(
                    patched(m.mem[Buf::Kv], at, Seq::new(n, |i: int| s[pk + i])),
                    at + region(p),
                    Seq::new(n, |i: int| s[pv + i]),
                ),
            )
        }),
    decreases n,
{
    let s = m.mem[Buf::Arena];
    let kv = m.mem[Buf::Kv];
    let d = p.kv_dim as int;
    let pk = place(p, g, k, m.row);
    let pv = place(p, g, v, m.row);
    let at = layer_base(p, layer) + m.pos * d;
    let fk = |i: int| s[pk + i];
    let fv = |i: int| s[pv + i];
    let body = append_body(p, g, k, v, layer);
    lemma_row_within(m.pos, d, p.max_seq_len as int);
    assert(layer_base(p, layer) >= 0) by (nonlinear_arith)
        requires
            layer_base(p, layer) == layer * p.max_seq_len * p.kv_dim * 2,
    ;
    if n == 0 {
        assert(patched(patched(kv, at, Seq::new(0, fk)), at + region(p), Seq::new(0, fv)) =~= kv);
        assert(m.mem =~= m.mem.insert(Buf::Kv, kv));
    } else {
        let j = (n - 1) as nat;
        lemma_append(p, g, k, v, layer, m, u, j);
        let before = iterate(body, 0, 0, 1, j, m, u);
        let mm = Machine { vars: before.vars.insert(0, j as int), ..before };
        assert(0 + (n - 1) * 1u64 == j);
        let place_at = times(Int::Pos, Int::Const(p.kv_dim as u64));
        let ik = plus(
            plus(Int::Const(layer_base(p, layer) as u64), place_at),
            Int::Var(0),
        );
        let iv = plus(
            plus(Int::Const((layer_base(p, layer) + region(p)) as u64), place_at),
            Int::Var(0),
        );
        let ek = from_row(p, g, k, Int::Var(0));
        let ev = from_row(p, g, v, Int::Var(0));
        let sk = Stmt::Store(Buf::Kv, ik, ek);
        let sv = Stmt::Store(Buf::Kv, iv, ev);
        let m1 = step(sk, mm, u);
        let m2 = step(sv, m1, u);
        assert(run(body, mm, u) == m2) by {
            reveal_with_fuel(run, 4);
        }
        assert(int_of(ik, mm) == at + j) by {
            reveal_with_fuel(int_of, 5);
        }
        assert(int_of(iv, m1) == at + region(p) + j) by {
            reveal_with_fuel(int_of, 5);
        }
        lemma_spot(p, g, k, mm);
        lemma_spot(p, g, v, m1);
        assert(mm.mem[Buf::Arena] == s);
        assert(m1.mem[Buf::Arena] == s);
        assert(real_of(ek, mm, u, 0) == s[pk + j]);
        assert(real_of(ev, m1, u, 0) == s[pv + j]);
        assert(patched(
            patched(kv, at, Seq::new(j, fk)),
            at + region(p),
            Seq::new(j, fv),
        ).update(at + j, s[pk + j]).update(at + region(p) + j, s[pv + j]) =~= patched(
            patched(kv, at, Seq::new(n, fk)),
            at + region(p),
            Seq::new(n, fv),
        ));
        assert(m2.mem =~= m.mem.insert(
            Buf::Kv,
            patched(patched(kv, at, Seq::new(n, fk)), at + region(p), Seq::new(n, fv)),
        ));
        assert(iterate(body, 0, 0, 1, n, m, u) == m2);
    }
}

} // verus!
