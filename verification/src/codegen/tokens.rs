//! Tokens of a tile are independent of one another: the workers may take them in any
//! order and in any shares, and the tiles of a prompt take each of its tokens once.

use vstd::prelude::*;

use crate::codegen::code::{
    at_row, in_turn, int_of, iterate, orderly, patched, run, span, step, trips, Buf, Code, Int,
    Machine, Stmt, Units,
};
use crate::codegen::lower::{
    add_stmt, placed, rmsnorm_code, rope_code, row_len, swiglu_stmt, then, tile_count,
    tile_first, unit_of, TILE,
};
use crate::codegen::meaning::{
    freqs_ok, law_add_code, law_rmsnorm_code, law_rope_code, law_swiglu_code,
    normed, place, row_of, unharmed, wrote,
};
use crate::codegen::plan::PlanV;
use crate::formats::desc::RopeStyle;
use crate::graph::ir::GraphV;
use crate::graph::ops::{added, lemma_rope_row_len, rmsnorm_of, rope_of, rope_rows, swiglu_of};

verus! {

/// Shares that follow one another do together what one loop over all of them does.
pub proof fn law_shares_join(body: Code, a: Seq<int>, b: Seq<int>, m: Machine, u: Units)
    ensures
        in_turn(body, a + b, m, u) == in_turn(body, b, in_turn(body, a, m, u), u),
    decreases b.len(),
{
    if b.len() == 0 {
        assert(a + b =~= a);
    } else {
        law_shares_join(body, a, b.drop_last(), m, u);
        assert((a + b).drop_last() =~= a + b.drop_last());
        assert((a + b).last() == b.last());
        lemma_in_turn_frame(body, a, m, u);
        lemma_in_turn_frame(body, b.drop_last(), in_turn(body, a, m, u), u);
    }
}

/// The token at hand is afterwards what it was before.
proof fn lemma_in_turn_frame(body: Code, rows: Seq<int>, m: Machine, u: Units)
    ensures
        ({
            let r = in_turn(body, rows, m, u);
            r.row == m.row && r.pos == m.pos && r.token == m.token
        }),
{
}

/// Whether two machines have the same arguments, tokens and memory, but for the arena
/// and what a token uses as a cell.
pub open spec fn same_setting(a: Machine, b: Machine) -> bool {
    &&& a.args == b.args
    &&& a.tokens == b.tokens
    &&& a.pos_off == b.pos_off
    &&& a.mem.contains_key(Buf::Arena) == b.mem.contains_key(Buf::Arena)
    &&& a.mem.contains_key(Buf::Cell(0)) == b.mem.contains_key(Buf::Cell(0))
    &&& a.mem[Buf::Cell(0)].len() == b.mem[Buf::Cell(0)].len()
    &&& forall|r: Buf|
        r != Buf::Arena && r != Buf::Cell(0) ==> #[trigger] a.mem[r] == b.mem[r]
            && a.mem.contains_key(r) == b.mem.contains_key(r)
}

/// Where rows stand and how wide they are, and what their tokens write there.
#[verifier::ext_equal]
pub struct Rows {
    pub at: spec_fn(int) -> int,
    pub width: nat,
    pub value: spec_fn(int) -> Seq<u32>,
}

/// Whether a place belongs to a row.
pub open spec fn covers(w: Rows, r: int, p: int) -> bool {
    (w.at)(r) <= p < (w.at)(r) + w.width
}

/// Whether no two rows share a place.
pub open spec fn disjoint(w: Rows, rows: Seq<int>) -> bool {
    forall|a: int, b: int, p: int|
        rows.contains(a) && rows.contains(b) && #[trigger] covers(w, a, p) && #[trigger] covers(
            w,
            b,
            p,
        ) ==> a == b
}

/// Whether `t` is `s` but for what stands in other rows than `r`.
pub open spec fn beside(w: Rows, rows: Seq<int>, s: Seq<u32>, t: Seq<u32>, r: int) -> bool {
    &&& t.len() == s.len()
    &&& forall|p: int|
        0 <= p < s.len() && (forall|j: int|
            #![trigger covers(w, j, p)]
            rows.contains(j) && j != r ==> !covers(w, j, p)) ==> #[trigger] t[p] == s[p]
}

/// Whether the body writes for each row its value into the row, and nothing else,
/// whatever the other rows hold.
pub open spec fn row_wise(body: Code, w: Rows, rows: Seq<int>, m: Machine, u: Units) -> bool {
    &&& forall|r: int| rows.contains(r) ==> (#[trigger] (w.value)(r)).len() == w.width
    &&& forall|mm: Machine, r: int|
        #![trigger run(body, at_row(mm, r), u)]
        rows.contains(r) && same_setting(mm, m) && beside(
            w,
            rows,
            m.mem[Buf::Arena],
            mm.mem[Buf::Arena],
            r,
        ) ==> {
            let a = run(body, at_row(mm, r), u);
            &&& same_setting(a, mm)
            &&& a.mem[Buf::Arena] == patched(mm.mem[Buf::Arena], (w.at)(r), (w.value)(r))
        }
}

/// The arena with the values of some rows.
pub open spec fn filled(s: Seq<u32>, w: Rows, rows: Seq<int>) -> Seq<u32>
    decreases rows.len(),
{
    if rows.len() == 0 {
        s
    } else {
        patched(filled(s, w, rows.drop_last()), (w.at)(rows.last()), (w.value)(rows.last()))
    }
}

/// What stands at a place once rows are filled.
proof fn lemma_filled_at(s: Seq<u32>, w: Rows, rows: Seq<int>, p: int)
    requires
        disjoint(w, rows),
        forall|r: int| rows.contains(r) ==> (#[trigger] (w.value)(r)).len() == w.width,
        0 <= p < s.len(),
    ensures
        filled(s, w, rows).len() == s.len(),
        forall|r: int|
            rows.contains(r) && #[trigger] covers(w, r, p) ==> filled(s, w, rows)[p] == (w.value)(
                r,
            )[p - (w.at)(r)],
        (forall|r: int| rows.contains(r) ==> !#[trigger] covers(w, r, p)) ==> filled(s, w, rows)[p]
            == s[p],
    decreases rows.len(),
{
    if rows.len() > 0 {
        let before = rows.drop_last();
        let last = rows.last();
        assert forall|r: int| before.contains(r) implies rows.contains(r) by {
            let i = choose|i: int| 0 <= i < before.len() && before[i] == r;
            assert(rows[i] == r);
        }
        assert(rows[rows.len() - 1] == last);
        assert(rows.contains(last));
        assert((w.value)(last).len() == w.width);
        lemma_filled_at(s, w, before, p);
        if covers(w, last, p) {
            assert forall|r: int| rows.contains(r) && #[trigger] covers(w, r, p) implies filled(
                s,
                w,
                rows,
            )[p] == (w.value)(r)[p - (w.at)(r)] by {
                assert(r == last);
            }
        } else {
            assert forall|r: int| rows.contains(r) && #[trigger] covers(w, r, p) implies filled(
                s,
                w,
                rows,
            )[p] == (w.value)(r)[p - (w.at)(r)] by {
                let i = choose|i: int| 0 <= i < rows.len() && rows[i] == r;
                assert(i < rows.len() - 1);
                assert(before[i] == r);
                assert(before.contains(r));
            }
        }
    }
}

/// Running the body for some of the rows, after others have been filled, fills them.
proof fn lemma_in_turn_fills(
    body: Code,
    w: Rows,
    rows: Seq<int>,
    full: Seq<int>,
    done: Seq<int>,
    m: Machine,
    mm: Machine,
    u: Units,
)
    requires
        row_wise(body, w, rows, m, u),
        disjoint(w, rows),
        (full + done).no_duplicates(),
        forall|r: int| (full + done).contains(r) ==> rows.contains(r),
        same_setting(mm, m),
        mm.mem[Buf::Arena] == filled(m.mem[Buf::Arena], w, full),
    ensures
        same_setting(in_turn(body, done, mm, u), m),
        in_turn(body, done, mm, u).mem[Buf::Arena] == filled(m.mem[Buf::Arena], w, full + done),
    decreases done.len(),
{
    let all = full + done;
    if done.len() == 0 {
        assert(all =~= full);
    } else {
        let last = done.last();
        let prior = full + done.drop_last();
        let s = m.mem[Buf::Arena];
        assert(all.drop_last() =~= prior);
        assert(all.last() == last);
        assert forall|r: int| prior.contains(r) implies rows.contains(r) && r != last by {
            let i = choose|i: int| 0 <= i < prior.len() && prior[i] == r;
            assert(all[i] == r);
            assert(all.contains(r));
            assert(all[all.len() - 1] == last);
        }
        assert forall|a: int, b: int|
            0 <= a < prior.len() && 0 <= b < prior.len() && a != b implies prior[a] != prior[b] by {
            assert(all[a] == prior[a] && all[b] == prior[b]);
        }
        assert(all[all.len() - 1] == last);
        assert(all.contains(last));
        lemma_in_turn_fills(body, w, rows, full, done.drop_last(), m, mm, u);
        let before = in_turn(body, done.drop_last(), mm, u);
        let t = before.mem[Buf::Arena];
        assert(disjoint(w, prior));
        lemma_filled_len(s, w, prior);
        assert(beside(w, rows, s, t, last)) by {
            assert forall|p: int|
                0 <= p < s.len() && (forall|j: int|
                    #![trigger covers(w, j, p)]
                    rows.contains(j) && j != last ==> !covers(w, j, p)) implies #[trigger] t[p]
                == s[p] by {
                lemma_filled_at(s, w, prior, p);
            }
        }
        let a = run(body, at_row(before, last), u);
        assert(same_setting(a, before));
        assert forall|r: Buf| r != Buf::Arena && r != Buf::Cell(0) implies #[trigger] a.mem[r]
            == m.mem[r] && a.mem.contains_key(r) == m.mem.contains_key(r) by {
            assert(before.mem[r] == m.mem[r]);
        }
    }
}

/// Filling changes no length.
proof fn lemma_filled_len(s: Seq<u32>, w: Rows, rows: Seq<int>)
    ensures
        filled(s, w, rows).len() == s.len(),
    decreases rows.len(),
{
    if rows.len() > 0 {
        lemma_filled_len(s, w, rows.drop_last());
    }
}

/// Where every token writes its own row and reads no other, the order in which the
/// workers take the tokens changes nothing: the arena is the same in the end.
pub proof fn law_token_order_is_free(
    body: Code,
    w: Rows,
    rows: Seq<int>,
    other: Seq<int>,
    m: Machine,
    u: Units,
)
    requires
        row_wise(body, w, rows, m, u),
        disjoint(w, rows),
        rows.no_duplicates(),
        other.no_duplicates(),
        forall|r: int| rows.contains(r) <==> other.contains(r),
    ensures
        in_turn(body, rows, m, u).mem[Buf::Arena] == in_turn(body, other, m, u).mem[Buf::Arena],
        same_setting(in_turn(body, rows, m, u), in_turn(body, other, m, u)),
{
    let s = m.mem[Buf::Arena];
    let none = Seq::<int>::empty();
    assert(none + rows =~= rows);
    assert(none + other =~= other);
    lemma_in_turn_fills(body, w, rows, none, rows, m, m, u);
    lemma_in_turn_fills(body, w, rows, none, other, m, m, u);
    lemma_filled_same(s, w, rows, other);
}

/// In which order rows are filled does not matter.
proof fn lemma_filled_same(s: Seq<u32>, w: Rows, rows: Seq<int>, other: Seq<int>)
    requires
        disjoint(w, rows),
        forall|r: int| rows.contains(r) ==> (#[trigger] (w.value)(r)).len() == w.width,
        forall|r: int| rows.contains(r) <==> other.contains(r),
    ensures
        filled(s, w, rows) == filled(s, w, other),
{
    lemma_filled_len(s, w, rows);
    lemma_filled_len(s, w, other);
    assert(disjoint(w, other));
    assert forall|p: int| 0 <= p < s.len() implies filled(s, w, rows)[p] == filled(s, w, other)[p] by {
        lemma_filled_at(s, w, rows, p);
        lemma_filled_at(s, w, other, p);
        if exists|r: int| rows.contains(r) && covers(w, r, p) {
            let r = choose|r: int| rows.contains(r) && covers(w, r, p);
            assert(covers(w, r, p) && other.contains(r));
        }
    }
    assert(filled(s, w, rows) =~= filled(s, w, other));
}

/// The loop over tiles that runs a body for the tokens of each.
pub open spec fn tile_loop(p: PlanV, body: Code) -> Stmt {
    Stmt::Loop {
        var: TILE,
        from: Int::Const(0),
        to: Int::Arg(0),
        step: p.prefill_tile as u64,
        body: Box::new(
            then(
                Stmt::Tokens {
                    first: tile_first(),
                    count: tile_count(p),
                    body: Box::new(body),
                },
                Code::End,
            ),
        ),
    }
}

/// How many rows the first `k` tiles have.
pub open spec fn tiled(n: int, t: int, k: nat) -> nat {
    (if k * t < n {
        k * t
    } else {
        n
    }) as nat
}

/// The rows of a span in any order, behind rows before them.
proof fn lemma_order_behind(full: Seq<int>, done: Seq<int>, order: Seq<int>, first: int, n: nat)
    requires
        full == span(0, first as nat),
        first >= 0,
        done == span(first, n),
        order.no_duplicates(),
        forall|r: int| order.contains(r) <==> first <= r < first + n,
    ensures
        (full + order).no_duplicates(),
        forall|r: int| (full + order).contains(r) <==> (full + done).contains(r),
{
    let a = full + order;
    let b = full + done;
    assert forall|i: int, j: int| 0 <= i < j < a.len() implies a[i] != a[j] by {
        if j >= full.len() {
            assert(order.contains(order[j - full.len()]));
        }
    }
    assert forall|r: int| a.contains(r) <==> b.contains(r) by {
        if a.contains(r) {
            let i = choose|i: int| 0 <= i < a.len() && a[i] == r;
            if i < full.len() {
                assert(b[i] == r);
            } else {
                assert(order.contains(order[i - full.len()]));
                assert(b[full.len() + (r - first)] == r);
            }
        }
        if b.contains(r) {
            let i = choose|i: int| 0 <= i < b.len() && b[i] == r;
            if i < full.len() {
                assert(a[i] == r);
            } else {
                assert(order.contains(r));
                let k = choose|k: int| 0 <= k < order.len() && order[k] == r;
                assert(a[full.len() + k] == r);
            }
        }
    }
}

/// The first `k` tiles fill the rows that they have.
proof fn lemma_tiles_fill(p: PlanV, body: Code, w: Rows, m: Machine, u: Units, k: nat)
    requires
        p.prefill_tile > 0,
        p.prefill_tile <= u64::MAX,
        m.args[0] >= 0,
        row_wise(body, w, span(0, m.args[0] as nat), m, u),
        disjoint(w, span(0, m.args[0] as nat)),
        k <= trips(0, m.args[0], p.prefill_tile as u64),
        orderly(u),
    ensures
        ({
            let each = Stmt::Tokens {
                first: tile_first(),
                count: tile_count(p),
                body: Box::new(body),
            };
            let r = iterate(then(each, Code::End), TILE, 0, p.prefill_tile as u64, k, m, u);
            let done = span(0, tiled(m.args[0], p.prefill_tile as int, k));
            &&& same_setting(r, m)
            &&& r.mem[Buf::Arena] == filled(m.mem[Buf::Arena], w, done)
        }),
    decreases k,
{
    let n = m.args[0];
    let t = p.prefill_tile as int;
    let each = Stmt::Tokens { first: tile_first(), count: tile_count(p), body: Box::new(body) };
    let code = then(each, Code::End);
    let rows = span(0, n as nat);
    if k == 0 {
        assert(k * t == 0) by (nonlinear_arith)
            requires
                k == 0,
        ;
        assert(span(0, tiled(n, t, k)) =~= Seq::<int>::empty());
    } else {
        let j = (k - 1) as nat;
        lemma_tiles_fill(p, body, w, m, u, j);
        let before = iterate(code, TILE, 0, p.prefill_tile as u64, j, m, u);
        let mm = Machine { vars: before.vars.insert(TILE, j * t), ..before };
        assert(0 + (k - 1) * (p.prefill_tile as u64) == j * t);
        law_tiles_cover_the_prompt(p, mm, j, 0);
        let first = int_of(tile_first(), mm);
        let count = int_of(tile_count(p), mm);
        reveal_with_fuel(int_of, 3);
        assert(first == j * t);
        let full = span(0, tiled(n, t, j));
        let done = span(first, count as nat);
        assert((j + 1) * t == j * t + t) by (nonlinear_arith);
        assert(tiled(n, t, j) == first);
        assert(tiled(n, t, k) == first + count);
        assert(full + done =~= span(0, tiled(n, t, k)));
        assert forall|r: int| (full + done).contains(r) implies rows.contains(r) by {
            let i = choose|i: int| 0 <= i < (full + done).len() && (full + done)[i] == r;
            assert(rows[i] == r);
        }
        assert forall|r: Buf| r != Buf::Arena && r != Buf::Cell(0) implies #[trigger] mm.mem[r]
            == m.mem[r] && mm.mem.contains_key(r) == m.mem.contains_key(r) by {
            assert(before.mem[r] == m.mem[r]);
        }
        assert(same_setting(before, m));
        assert(mm.mem == before.mem && mm.args == before.args && mm.tokens == before.tokens);
        assert(mm.pos_off == before.pos_off);
        assert(same_setting(mm, m));
        let order = (u.order)(first, count as nat);
        lemma_order_behind(full, done, order, first, count as nat);
        lemma_in_turn_fills(body, w, rows, full, order, m, mm, u);
        assert(disjoint(w, full + order));
        lemma_filled_same(m.mem[Buf::Arena], w, full + order, full + done);
        let after = step(each, mm, u);
        assert(after == in_turn(body, order, mm, u));
        assert(run(code, mm, u) == after) by {
            reveal_with_fuel(run, 2);
        }
    }
}

/// How long tiles are changes nothing for what is run token by token: after all tiles
/// the arena is the same whatever their length.
pub proof fn law_tile_length_is_free(
    p: PlanV,
    q: PlanV,
    body: Code,
    w: Rows,
    m: Machine,
    u: Units,
)
    requires
        0 < p.prefill_tile <= u64::MAX,
        0 < q.prefill_tile <= u64::MAX,
        m.args[0] >= 0,
        row_wise(body, w, span(0, m.args[0] as nat), m, u),
        disjoint(w, span(0, m.args[0] as nat)),
        orderly(u),
    ensures
        step(tile_loop(p, body), m, u).mem[Buf::Arena] == step(
            tile_loop(q, body),
            m,
            u,
        ).mem[Buf::Arena],
        same_setting(step(tile_loop(p, body), m, u), m),
        same_setting(step(tile_loop(q, body), m, u), m),
{
    lemma_tile_loop(p, body, w, m, u);
    lemma_tile_loop(q, body, w, m, u);
}

/// The loop over tiles fills all rows.
proof fn lemma_tile_loop(p: PlanV, body: Code, w: Rows, m: Machine, u: Units)
    requires
        0 < p.prefill_tile <= u64::MAX,
        m.args[0] >= 0,
        row_wise(body, w, span(0, m.args[0] as nat), m, u),
        disjoint(w, span(0, m.args[0] as nat)),
        orderly(u),
    ensures
        same_setting(step(tile_loop(p, body), m, u), m),
        step(tile_loop(p, body), m, u).mem[Buf::Arena] == filled(
            m.mem[Buf::Arena],
            w,
            span(0, m.args[0] as nat),
        ),
{
    let n = m.args[0];
    let t = p.prefill_tile as int;
    let k = trips(0, n, p.prefill_tile as u64);
    lemma_tiles_fill(p, body, w, m, u, k);
    assert(int_of(Int::Const(0), m) == 0 && int_of(Int::Arg(0), m) == n);
    assert(tiled(n, t, k) == n) by {
        if n > 0 {
            vstd::arithmetic::div_mod::lemma_fundamental_div_mod(n + t - 1, t);
            assert(t * k == k * t) by (nonlinear_arith);
        }
    }
}

/// Every row of a prompt lies in exactly one tile, that of its number divided by the
/// tile length, and no tile reaches beyond the prompt: `k` is how many tiles went
/// before, and `m` the machine at the start of the tile.
pub proof fn law_tiles_cover_the_prompt(p: PlanV, m: Machine, k: nat, row: int)
    requires
        p.prefill_tile > 0,
        p.prefill_tile <= u64::MAX,
        m.args[0] >= 0,
        k < trips(0, m.args[0], p.prefill_tile as u64),
        m.vars[TILE] == k * p.prefill_tile,
        0 <= row < m.args[0],
    ensures
        ({
            let first = int_of(tile_first(), m);
            let count = int_of(tile_count(p), m);
            &&& 0 < count <= p.prefill_tile
            &&& first + count <= m.args[0]
            &&& (first <= row < first + count <==> k == row / p.prefill_tile as int)
            &&& row / (p.prefill_tile as int) < trips(0, m.args[0], p.prefill_tile as u64)
        }),
{
    let t = p.prefill_tile as int;
    let n = m.args[0];
    reveal_with_fuel(int_of, 3);
    let q = row / t;
    vstd::arithmetic::div_mod::lemma_fundamental_div_mod(row, t);
    vstd::arithmetic::div_mod::lemma_fundamental_div_mod(n + t - 1, t);
    let c = (n + t - 1) / t;
    assert(t * q == q * t && t * c == c * t) by (nonlinear_arith);
    assert(q < c) by (nonlinear_arith)
        requires
            q * t <= row,
            row < n,
            n <= c * t,
            0 < t,
    ;
    assert((k + 1) * t <= c * t) by (nonlinear_arith)
        requires
            k + 1 <= c,
            0 < t,
    ;
    assert((k + 1) * t == k * t + t) by (nonlinear_arith);
    if k < q {
        assert((k + 1) * t <= q * t) by (nonlinear_arith)
            requires
                k + 1 <= q,
                0 < t,
        ;
    }
    if q < k {
        assert((q + 1) * t <= k * t) by (nonlinear_arith)
            requires
                q + 1 <= k,
                0 < t,
        ;
        assert((q + 1) * t == q * t + t) by (nonlinear_arith);
    }
}

/// Whether the rows of a value and of a result of `n` numbers lie within an arena of
/// `len`, and no token writes what another reads.
pub open spec fn laid_out(
    p: PlanV,
    g: GraphV,
    src: usize,
    out: usize,
    n: nat,
    rows: Seq<int>,
    len: nat,
) -> bool {
    &&& forall|r: int|
        rows.contains(r) ==> {
            let a = #[trigger] place(p, g, src, r);
            let o = place(p, g, out, r);
            0 <= a && a + n <= len && 0 <= o && o + n <= len && unharmed(a, o, n)
        }
    &&& forall|r: int, j: int|
        rows.contains(r) && rows.contains(j) && r != j ==> {
            let a = #[trigger] place(p, g, src, r);
            let o = #[trigger] place(p, g, out, j);
            a + n <= o || o + n <= a
        }
}

/// A token finds its own row as it was, whatever the others have written.
proof fn lemma_source_kept(
    p: PlanV,
    g: GraphV,
    src: usize,
    out: usize,
    w: Rows,
    rows: Seq<int>,
    s: Seq<u32>,
    t: Seq<u32>,
    r: int,
)
    requires
        w.at == (|i: int| place(p, g, out, i)),
        laid_out(p, g, src, out, w.width, rows, s.len()),
        rows.contains(r),
        beside(w, rows, s, t, r),
    ensures
        row_of(t, place(p, g, src, r), w.width) == row_of(s, place(p, g, src, r), w.width),
{
    let a = place(p, g, src, r);
    let n = w.width;
    let old_row = s.subrange(a, a + n);
    let new_row = t.subrange(a, a + n);
    assert forall|i: int| 0 <= i < n implies #[trigger] new_row[i] == old_row[i] by {
        let q = a + i;
        assert forall|j: int|
            #![trigger covers(w, j, q)]
            rows.contains(j) && j != r implies !covers(w, j, q) by {
            assert((w.at)(j) == place(p, g, out, j));
        }
        assert(t[q] == s[q]);
    }
    assert(new_row =~= old_row);
}

/// What has only written the arena, or it and the cell, keeps the setting.
proof fn lemma_kept_setting(a: Machine, mm: Machine, at: int, t: Seq<u32>)
    requires
        mm.mem.contains_key(Buf::Arena),
        wrote(a, mm, Buf::Arena, at, t) || (normed(a, mm, at, t) && mm.mem.contains_key(
            Buf::Cell(0),
        ) && mm.mem[Buf::Cell(0)].len() == 1),
    ensures
        same_setting(a, mm),
        a.mem[Buf::Arena] == patched(mm.mem[Buf::Arena], at, t),
{
}

/// The rows of a sum.
pub open spec fn add_rows(p: PlanV, g: GraphV, a: usize, b: usize, out: usize, m: Machine) -> Rows {
    let n = row_len(g, out);
    let s = m.mem[Buf::Arena];
    Rows {
        at: |r: int| place(p, g, out, r),
        width: n,
        value: |r: int|
            added(row_of(s, place(p, g, a, r), n), row_of(s, place(p, g, b, r), n)).data,
    }
}

/// Sums are taken token by token.
pub proof fn law_add_is_row_wise(
    p: PlanV,
    g: GraphV,
    a: usize,
    b: usize,
    out: usize,
    rows: Seq<int>,
    m: Machine,
    u: Units,
)
    requires
        placed(p, g, a) && placed(p, g, b) && placed(p, g, out),
        m.mem.contains_key(Buf::Arena),
        laid_out(p, g, a, out, row_len(g, out), rows, m.mem[Buf::Arena].len()),
        laid_out(p, g, b, out, row_len(g, out), rows, m.mem[Buf::Arena].len()),
    ensures
        row_wise(
            then(add_stmt(p, g, a, b, out), Code::End),
            add_rows(p, g, a, b, out, m),
            rows,
            m,
            u,
        ),
{
    let body = then(add_stmt(p, g, a, b, out), Code::End);
    let w = add_rows(p, g, a, b, out, m);
    let s = m.mem[Buf::Arena];
    assert forall|mm: Machine, r: int|
        #![trigger run(body, at_row(mm, r), u)]
        rows.contains(r) && same_setting(mm, m) && beside(
            w,
            rows,
            s,
            mm.mem[Buf::Arena],
            r,
        ) implies {
        let x = run(body, at_row(mm, r), u);
        &&& same_setting(x, mm)
        &&& x.mem[Buf::Arena] == patched(mm.mem[Buf::Arena], (w.at)(r), (w.value)(r))
    } by {
        let k = at_row(mm, r);
        lemma_source_kept(p, g, a, out, w, rows, s, mm.mem[Buf::Arena], r);
        lemma_source_kept(p, g, b, out, w, rows, s, mm.mem[Buf::Arena], r);
        law_add_code(p, g, a, b, out, k, u);
        let x = step(add_stmt(p, g, a, b, out), k, u);
        assert(run(body, k, u) == x) by {
            reveal_with_fuel(run, 2);
        }
        lemma_kept_setting(x, k, place(p, g, out, r), (w.value)(r));
    }
    assert forall|r: int| rows.contains(r) implies (#[trigger] (w.value)(r)).len() == w.width by {
        assert(place(p, g, a, r) >= 0);
    }
}

/// The rows of a gated product.
pub open spec fn swiglu_rows(
    p: PlanV,
    g: GraphV,
    a: usize,
    b: usize,
    out: usize,
    m: Machine,
    u: Units,
) -> Rows {
    let n = row_len(g, a);
    let s = m.mem[Buf::Arena];
    Rows {
        at: |r: int| place(p, g, out, r),
        width: n,
        value: |r: int|
            swiglu_of(
                u.math,
                row_of(s, place(p, g, a, r), n),
                row_of(s, place(p, g, b, r), n),
            ).data,
    }
}

/// Gated products are taken token by token.
pub proof fn law_swiglu_is_row_wise(
    p: PlanV,
    g: GraphV,
    a: usize,
    b: usize,
    out: usize,
    rows: Seq<int>,
    m: Machine,
    u: Units,
)
    requires
        placed(p, g, a) && placed(p, g, b) && placed(p, g, out),
        m.mem.contains_key(Buf::Arena),
        laid_out(p, g, a, out, row_len(g, a), rows, m.mem[Buf::Arena].len()),
        laid_out(p, g, b, out, row_len(g, a), rows, m.mem[Buf::Arena].len()),
    ensures
        row_wise(
            then(swiglu_stmt(p, g, a, b, out), Code::End),
            swiglu_rows(p, g, a, b, out, m, u),
            rows,
            m,
            u,
        ),
{
    let body = then(swiglu_stmt(p, g, a, b, out), Code::End);
    let w = swiglu_rows(p, g, a, b, out, m, u);
    let s = m.mem[Buf::Arena];
    assert forall|mm: Machine, r: int|
        #![trigger run(body, at_row(mm, r), u)]
        rows.contains(r) && same_setting(mm, m) && beside(
            w,
            rows,
            s,
            mm.mem[Buf::Arena],
            r,
        ) implies {
        let x = run(body, at_row(mm, r), u);
        &&& same_setting(x, mm)
        &&& x.mem[Buf::Arena] == patched(mm.mem[Buf::Arena], (w.at)(r), (w.value)(r))
    } by {
        let k = at_row(mm, r);
        lemma_source_kept(p, g, a, out, w, rows, s, mm.mem[Buf::Arena], r);
        lemma_source_kept(p, g, b, out, w, rows, s, mm.mem[Buf::Arena], r);
        law_swiglu_code(p, g, a, b, out, k, u);
        let x = step(swiglu_stmt(p, g, a, b, out), k, u);
        assert(run(body, k, u) == x) by {
            reveal_with_fuel(run, 2);
        }
        lemma_kept_setting(x, k, place(p, g, out, r), (w.value)(r));
    }
    assert forall|r: int| rows.contains(r) implies (#[trigger] (w.value)(r)).len() == w.width by {
        assert(place(p, g, a, r) >= 0);
    }
}

/// The rows of a norm.
pub open spec fn norm_rows(
    p: PlanV,
    g: GraphV,
    src: usize,
    weight: usize,
    eps: u32,
    out: usize,
    head_dim: Option<usize>,
    m: Machine,
    u: Units,
) -> Rows {
    let n = row_len(g, src);
    let s = m.mem[Buf::Arena];
    Rows {
        at: |r: int| place(p, g, out, r),
        width: n,
        value: |r: int|
            rmsnorm_of(
                u.math,
                row_of(s, place(p, g, src, r), n),
                m.mem[Buf::Table(weight)],
                eps,
                unit_of(g, src, head_dim) as nat,
            ).data,
    }
}

/// Norms are taken token by token.
pub proof fn law_rmsnorm_is_row_wise(
    p: PlanV,
    g: GraphV,
    src: usize,
    weight: usize,
    eps: u32,
    out: usize,
    head_dim: Option<usize>,
    rows: Seq<int>,
    m: Machine,
    u: Units,
)
    requires
        placed(p, g, src) && placed(p, g, out),
        unit_of(g, src, head_dim) > 0,
        row_len(g, src) % unit_of(g, src, head_dim) as nat == 0,
        m.mem.contains_key(Buf::Arena),
        m.mem.contains_key(Buf::Cell(0)),
        m.mem[Buf::Cell(0)].len() == 1,
        laid_out(p, g, src, out, row_len(g, src), rows, m.mem[Buf::Arena].len()),
    ensures
        row_wise(
            rmsnorm_code(p, g, src, weight, eps, out, head_dim, Code::End),
            norm_rows(p, g, src, weight, eps, out, head_dim, m, u),
            rows,
            m,
            u,
        ),
{
    let body = rmsnorm_code(p, g, src, weight, eps, out, head_dim, Code::End);
    let w = norm_rows(p, g, src, weight, eps, out, head_dim, m, u);
    let s = m.mem[Buf::Arena];
    assert forall|mm: Machine, r: int|
        #![trigger run(body, at_row(mm, r), u)]
        rows.contains(r) && same_setting(mm, m) && beside(
            w,
            rows,
            s,
            mm.mem[Buf::Arena],
            r,
        ) implies {
        let x = run(body, at_row(mm, r), u);
        &&& same_setting(x, mm)
        &&& x.mem[Buf::Arena] == patched(mm.mem[Buf::Arena], (w.at)(r), (w.value)(r))
    } by {
        let k = at_row(mm, r);
        lemma_source_kept(p, g, src, out, w, rows, s, mm.mem[Buf::Arena], r);
        assert(mm.mem[Buf::Table(weight)] == m.mem[Buf::Table(weight)]);
        let x = law_rmsnorm_code(p, g, src, weight, eps, out, head_dim, k, u, Code::End);
        assert(run(Code::End, x, u) == x);
        lemma_kept_setting(x, k, place(p, g, out, r), (w.value)(r));
    }
    assert forall|r: int| rows.contains(r) implies (#[trigger] (w.value)(r)).len() == w.width by {
        assert(place(p, g, src, r) >= 0);
        vstd::arithmetic::div_mod::lemma_fundamental_div_mod(
            w.width as int,
            unit_of(g, src, head_dim) as int,
        );
        let unit = unit_of(g, src, head_dim) as int;
        assert(unit * (w.width as int / unit) == w.width as int / unit * unit) by (nonlinear_arith);
    }
}

/// The rows of a rotation.
pub open spec fn turned_rows(
    p: PlanV,
    g: GraphV,
    src: usize,
    out: usize,
    n_heads: usize,
    head_dim: usize,
    theta: u32,
    style: RopeStyle,
    m: Machine,
    u: Units,
) -> Rows {
    let n = row_len(g, src);
    let s = m.mem[Buf::Arena];
    Rows {
        at: |r: int| place(p, g, out, r),
        width: n,
        value: |r: int|
            rope_of(
                u.math,
                row_of(s, place(p, g, src, r), n),
                n_heads as nat,
                head_dim as int,
                theta,
                style,
                m.pos_off + r,
            ).data,
    }
}

/// Rotations are taken token by token.
pub proof fn law_rope_is_row_wise(
    p: PlanV,
    g: GraphV,
    src: usize,
    out: usize,
    n_heads: usize,
    head_dim: usize,
    theta: u32,
    style: RopeStyle,
    rows: Seq<int>,
    m: Machine,
    u: Units,
)
    requires
        placed(p, g, src) && placed(p, g, out),
        n_heads * head_dim == row_len(g, src),
        m.mem.contains_key(Buf::Arena),
        freqs_ok(m, u, theta, head_dim),
        laid_out(p, g, src, out, row_len(g, src), rows, m.mem[Buf::Arena].len()),
    ensures
        row_wise(
            rope_code(p, g, src, out, n_heads, head_dim, theta, style, Code::End),
            turned_rows(p, g, src, out, n_heads, head_dim, theta, style, m, u),
            rows,
            m,
            u,
        ),
{
    let body = rope_code(p, g, src, out, n_heads, head_dim, theta, style, Code::End);
    let w = turned_rows(p, g, src, out, n_heads, head_dim, theta, style, m, u);
    let s = m.mem[Buf::Arena];
    assert forall|mm: Machine, r: int|
        #![trigger run(body, at_row(mm, r), u)]
        rows.contains(r) && same_setting(mm, m) && beside(
            w,
            rows,
            s,
            mm.mem[Buf::Arena],
            r,
        ) implies {
        let x = run(body, at_row(mm, r), u);
        &&& same_setting(x, mm)
        &&& x.mem[Buf::Arena] == patched(mm.mem[Buf::Arena], (w.at)(r), (w.value)(r))
    } by {
        let k = at_row(mm, r);
        lemma_source_kept(p, g, src, out, w, rows, s, mm.mem[Buf::Arena], r);
        assert(mm.mem[Buf::Freqs(theta, head_dim)] == m.mem[Buf::Freqs(theta, head_dim)]);
        let x = law_rope_code(p, g, src, out, n_heads, head_dim, theta, style, k, u, Code::End);
        assert(run(Code::End, x, u) == x);
        lemma_kept_setting(x, k, place(p, g, out, r), (w.value)(r));
    }
    assert forall|r: int| rows.contains(r) implies (#[trigger] (w.value)(r)).len() == w.width by {
        assert(place(p, g, src, r) >= 0);
        let x = row_of(s, place(p, g, src, r), w.width);
        assert(x.data.len() == w.width);
        let hd = head_dim as int;
        let nh = n_heads as nat;
        lemma_rope_row_len(u.math, x.data, 0, hd, theta, style, m.pos_off + r, nh);
        let cols = x.shape[1] as int;
        assert(rope_rows(u.math, x.data, cols, nh, hd, theta, style, m.pos_off + r, 1).len()
            == w.width) by {
            reveal_with_fuel(rope_rows, 2);
            assert((1 - 1) * cols == 0);
        }
    }
}

} // verus!
