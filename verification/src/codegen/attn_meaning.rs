//! What the emitted attention function computes: for every head of the span the
//! values that the token sees, mixed by their shares, in the order of the eight lanes.

use vstd::prelude::*;

use crate::codegen::attn::{
    acc_at, best_body, bind, cached_at, cell, chunks_of, clear_code, dot_code, exp1_body, exp8_body,
    expf_code, fused, group_of, head_at, head_code, heads_ok, horner, hspan_code, keys, kv_dim_of,
    mix_body, mix_code, name, out_code, over, score_body, values, visible_int, weigh_code,
    ExpfConsts, Heads, EXP_HI, EXP_LO, H, H_END, H_START, KV_BASE, NEG_INF, POS, T, V_OFF,
};
use crate::codegen::code::{
    above, fold8, int_of, iterate, lanes_of, patched, real_of, run, step, trips, Buf, Code, Int,
    Machine, Real, Stmt, Units,
};
use crate::codegen::lower::then;
use crate::codegen::meaning::same_frame;
use crate::float::single::{larger, negated, product, quotient, sum};
use crate::graph::ops::{lemma_cell, lemma_row_within};

verus! {

/// What the function reads: the sizes, the machine's functions, the queries, the
/// cache, where keys and values start in it, and the position of the token.
#[verifier::ext_equal]
pub struct Sight {
    pub g: Heads,
    pub u: Units,
    pub q: Seq<u32>,
    pub kv: Seq<u32>,
    pub base: int,
    pub v_off: int,
    pub pos: int,
}

/// The exponential as it is computed.
pub open spec fn expf_value(u: Units, k: ExpfConsts, x: u32) -> u32 {
    let y = if above(EXP_LO, x) {
        EXP_LO
    } else {
        x
    };
    let z = if above(y, EXP_HI) {
        EXP_HI
    } else {
        y
    };
    let n = (u.nearest)(product(z, k.log2e));
    let r = (u.fused)(n, negated(k.ln2_lo), (u.fused)(n, negated(k.ln2_hi), z));
    let p5 = (u.fused)(k.c6, r, k.c5);
    let p4 = (u.fused)(p5, r, k.c4);
    let p3 = (u.fused)(p4, r, k.c3);
    let p2 = (u.fused)(p3, r, k.c2);
    let p1 = (u.fused)(p2, r, k.c1);
    product((u.fused)(p1, r, k.c0), (u.two_to)(n))
}

impl Sight {
    /// How many cached rows the token sees.
    pub open spec fn visible(self) -> nat {
        (self.pos + 1) as nat
    }

    /// Where the cached row `t` of the key head of head `h` starts, from a start on.
    pub open spec fn row(self, start: int, h: int, t: int) -> int {
        start + t * kv_dim_of(self.g) + h / group_of(self.g) as int * self.g.head_dim
    }

    /// The fused products of the first `c` runs in a lane.
    pub open spec fn lane(self, h: int, t: int, c: nat, l: int) -> u32
        decreases c,
    {
        if c == 0 {
            0
        } else {
            let i = (c - 1) * 8;
            (self.u.fused)(
                self.q[h * self.g.head_dim + i + l],
                self.kv[self.row(self.base, h, t) + i + l],
                self.lane(h, t, (c - 1) as nat, l),
            )
        }
    }

    /// The fused products of the first `c` runs in all lanes.
    pub open spec fn lanes(self, h: int, t: int, c: nat) -> Seq<u32> {
        Seq::new(8, |l: int| self.lane(h, t, c, l))
    }

    /// How well head `h` matches key `t`.
    pub open spec fn score(self, h: int, t: int) -> u32 {
        product(fold8(self.lanes(h, t, chunks_of(self.g))), self.g.scale)
    }

    /// The largest of the first `n` scores.
    pub open spec fn best(self, h: int, n: nat) -> u32
        decreases n,
    {
        if n == 0 {
            NEG_INF
        } else {
            larger(self.best(h, (n - 1) as nat), self.score(h, n - 1))
        }
    }

    /// How much of value `t` is taken, before it is divided by the total.
    pub open spec fn raw(self, h: int, t: int) -> u32 {
        expf_value(
            self.u,
            self.g.expf,
            sum(self.score(h, t), negated(self.best(h, self.visible()))),
        )
    }

    /// Eight of them.
    pub open spec fn raws(self, h: int, t: int) -> Seq<u32> {
        Seq::new(8, |l: int| self.raw(h, t + l))
    }

    /// The total of the first `b` runs of eight.
    pub open spec fn blocks(self, h: int, b: nat) -> u32
        decreases b,
    {
        if b == 0 {
            0
        } else {
            sum(self.blocks(h, (b - 1) as nat), fold8(self.raws(h, (b - 1) * 8)))
        }
    }

    /// The total of all runs of eight and of the first `j` that follow.
    pub open spec fn tail(self, h: int, j: nat) -> u32
        decreases j,
    {
        if j == 0 {
            self.blocks(h, self.visible() / 8)
        } else {
            sum(
                self.tail(h, (j - 1) as nat),
                self.raw(h, self.visible() / 8 * 8 + j - 1),
            )
        }
    }

    /// The total.
    pub open spec fn total(self, h: int) -> u32 {
        self.tail(h, self.visible() % 8)
    }

    /// How much of value `t` is taken.
    pub open spec fn share(self, h: int, t: int) -> u32 {
        quotient(self.raw(h, t), self.total(h))
    }

    /// What the first `n` values give at place `i` of head `h`.
    pub open spec fn mixed(self, h: int, i: int, n: nat) -> u32
        decreases n,
    {
        if n == 0 {
            0
        } else {
            (self.u.fused)(
                self.share(h, n - 1),
                self.kv[self.row(self.base + self.v_off, h, n - 1) + i],
                self.mixed(h, i, (n - 1) as nat),
            )
        }
    }
}

/// Whether the machine reads what `x` says, at head `h`.
pub open spec fn reads(m: Machine, x: Sight, h: int) -> bool {
    &&& m.mem[Buf::Query] == x.q
    &&& m.mem[Buf::Kv] == x.kv
    &&& m.args[KV_BASE as int] == x.base
    &&& m.args[V_OFF as int] == x.v_off
    &&& m.args[POS as int] == x.pos
    &&& m.vars[H] == h
}

/// A run of eight of the head.
proof fn lemma_head_at(x: Sight, m: Machine, h: int, c: nat)
    requires
        heads_ok(x.g),
        reads(m, x, h),
        c < chunks_of(x.g),
    ensures
        int_of(head_at(x.g, c), m) == h * x.g.head_dim + c * 8,
        int_of(acc_at(c), m) == c * 8,
{
    reveal_with_fuel(int_of, 4);
    assert(c * 8 <= u64::MAX);
}

/// A run of eight of a cached row.
proof fn lemma_cached_at(x: Sight, m: Machine, h: int, c: nat)
    requires
        heads_ok(x.g),
        reads(m, x, h),
        c < chunks_of(x.g),
    ensures
        int_of(cached_at(x.g, keys(), c), m) == x.row(x.base, h, m.vars[T]) + c * 8,
        int_of(cached_at(x.g, values(), c), m) == x.row(x.base + x.v_off, h, m.vars[T]) + c * 8,
{
    reveal_with_fuel(int_of, 7);
    assert(c * 8 <= u64::MAX);
}

/// The code of the products computes them in all lanes.
proof fn lemma_dot(x: Sight, m: Machine, h: int, t: int, c: nat, rest: Code) -> (m2: Machine)
    requires
        heads_ok(x.g),
        reads(m, x, h),
        m.vars[T] == t,
        c <= chunks_of(x.g),
        m.wide[0] == x.lanes(h, t, c),
    ensures
        run(dot_code(x.g, c, rest), m, x.u) == run(rest, m2, x.u),
        m2 == (Machine { wide: m2.wide, ..m }),
        m2.wide[0] == x.lanes(h, t, chunks_of(x.g)),
    decreases chunks_of(x.g) - c,
{
    if c == chunks_of(x.g) {
        m
    } else {
        let e = Real::Fused(
            Box::new(Real::Load8(Buf::Query, head_at(x.g, c))),
            Box::new(Real::Load8(Buf::Kv, cached_at(x.g, keys(), c))),
            Box::new(Real::Lane(0)),
        );
        let s = Stmt::Let8(0, e);
        let m1 = step(s, m, x.u);
        lemma_head_at(x, m, h, c);
        lemma_cached_at(x, m, h, c);
        assert forall|l: int| 0 <= l < 8 implies real_of(e, m, x.u, l) == x.lane(
            h,
            t,
            c + 1,
            l,
        ) by {
            reveal_with_fuel(real_of, 3);
            assert(m.wide[0][l] == x.lane(h, t, c, l));
            assert((c + 1 - 1) * 8 == c * 8);
        }
        assert(lanes_of(e, m, x.u) =~= x.lanes(h, t, c + 1));
        assert(m1.wide[0] == x.lanes(h, t, c + 1));
        let more = dot_code(x.g, c + 1, rest);
        assert(run(then(s, more), m, x.u) == run(more, m1, x.u));
        lemma_dot(x, m1, h, t, c + 1, rest)
    }
}

/// The loop over the scores computes them.
proof fn lemma_scores(x: Sight, m: Machine, h: int, n: nat)
    requires
        heads_ok(x.g),
        reads(m, x, h),
        m.mem.contains_key(Buf::Scores),
        n <= m.mem[Buf::Scores].len(),
    ensures
        ({
            let r = iterate(score_body(x.g), T, 0, 1, n, m, x.u);
            &&& same_frame(r, m)
            &&& r.vars[H] == h
            &&& r.mem == m.mem.insert(
                Buf::Scores,
                patched(m.mem[Buf::Scores], 0, Seq::new(n, |t: int| x.score(h, t))),
            )
        }),
    decreases n,
{
    let body = score_body(x.g);
    let sc = m.mem[Buf::Scores];
    let f = |t: int| x.score(h, t);
    if n == 0 {
        assert(patched(sc, 0, Seq::new(0, f)) =~= sc);
        assert(m.mem =~= m.mem.insert(Buf::Scores, sc));
    } else {
        let k = (n - 1) as nat;
        lemma_scores(x, m, h, k);
        let before = iterate(body, T, 0, 1, k, m, x.u);
        let mm = Machine { vars: before.vars.insert(T, k as int), ..before };
        assert(0 + (n - 1) * 1u64 == k);
        let clear = Stmt::Let8(0, Real::Bits(0));
        let m1 = step(clear, mm, x.u);
        assert(m1.wide[0] =~= x.lanes(h, k as int, 0));
        let e = Real::Times(Box::new(Real::Fold8(0)), Box::new(Real::Bits(x.g.scale)));
        let put = Stmt::Store(Buf::Scores, Int::Var(T), e);
        let rest = then(put, Code::End);
        let m2 = lemma_dot(x, m1, h, k as int, 0, rest);
        let m3 = step(put, m2, x.u);
        assert(run(body, mm, x.u) == m3) by {
            reveal_with_fuel(run, 3);
        }
        assert(real_of(e, m2, x.u, 0) == x.score(h, k as int)) by {
            reveal_with_fuel(real_of, 3);
        }
        assert(int_of(Int::Var(T), m2) == k);
        assert(patched(sc, 0, Seq::new(k, f)).update(k as int, f(k as int)) =~= patched(
            sc,
            0,
            Seq::new(n, f),
        ));
        assert(m3.mem =~= m.mem.insert(Buf::Scores, patched(sc, 0, Seq::new(n, f))));
        assert(iterate(body, T, 0, 1, n, m, x.u) == m3);
    }
}

/// The loop over the maximum keeps the largest score in the cell.
proof fn lemma_best(x: Sight, m: Machine, h: int, n: nat)
    requires
        reads(m, x, h),
        m.mem.contains_key(Buf::Cell(0)),
        m.mem[Buf::Cell(0)] == seq![NEG_INF],
        n <= m.mem[Buf::Scores].len(),
        forall|t: int| 0 <= t < n ==> #[trigger] m.mem[Buf::Scores][t] == x.score(h, t),
    ensures
        ({
            let r = iterate(best_body(), T, 0, 1, n, m, x.u);
            &&& same_frame(r, m)
            &&& r.vars[H] == h
            &&& r.mem == m.mem.insert(Buf::Cell(0), seq![x.best(h, n)])
        }),
    decreases n,
{
    let body = best_body();
    if n == 0 {
        assert(m.mem =~= m.mem.insert(Buf::Cell(0), seq![x.best(h, 0)]));
    } else {
        let k = (n - 1) as nat;
        lemma_best(x, m, h, k);
        let before = iterate(body, T, 0, 1, k, m, x.u);
        let mm = Machine { vars: before.vars.insert(T, k as int), ..before };
        assert(0 + (n - 1) * 1u64 == k);
        let e = Real::Larger(
            Box::new(cell(0)),
            Box::new(Real::Load(Buf::Scores, Int::Var(T))),
        );
        let put = Stmt::Store(Buf::Cell(0), Int::Const(0), e);
        let m1 = step(put, mm, x.u);
        assert(run(body, mm, x.u) == m1) by {
            reveal_with_fuel(run, 3);
        }
        assert(mm.mem[Buf::Scores] == m.mem[Buf::Scores]);
        assert(mm.mem[Buf::Cell(0)] == seq![x.best(h, k)]);
        assert(real_of(e, mm, x.u, 0) == x.best(h, n)) by {
            reveal_with_fuel(real_of, 3);
            assert(int_of(Int::Var(T), mm) == k);
            assert(int_of(Int::Const(0), mm) == 0);
            assert(m.mem[Buf::Scores][k as int] == x.score(h, k as int));
        }
        assert(seq![x.best(h, k)].update(0, x.best(h, n)) =~= seq![x.best(h, n)]);
        assert(m1.mem =~= m.mem.insert(Buf::Cell(0), seq![x.best(h, n)]));
        assert(iterate(body, T, 0, 1, n, m, x.u) == m1);
    }
}

/// The code of the exponential computes it in every lane, or in one.
#[verifier::rlimit(60)]
proof fn lemma_expf(u: Units, k: ExpfConsts, wide: bool, m: Machine, rest: Code) -> (m6: Machine)
    requires
        wide ==> m.wide[1].len() == 8,
    ensures
        run(expf_code(k, wide, rest), m, u) == run(rest, m6, u),
        m6 == (Machine { wide: m6.wide, regs: m6.regs, ..m }),
        m6.regs[9] == m.regs[9],
        m6.regs[8] == m.regs[8],
        wide ==> m6.wide[6] == Seq::new(8, |l: int| expf_value(u, k, m.wide[1][l])),
        !wide ==> m6.regs[6] == expf_value(u, k, m.regs[1]),
{
    let x = name(wide, 1);
    let y = name(wide, 2);
    let z = name(wide, 3);
    let n = name(wide, 4);
    let e2 = Real::Above(
        Box::new(Real::Bits(EXP_LO)),
        Box::new(x),
        Box::new(Real::Bits(EXP_LO)),
        Box::new(x),
    );
    let e3 = Real::Above(
        Box::new(y),
        Box::new(Real::Bits(EXP_HI)),
        Box::new(Real::Bits(EXP_HI)),
        Box::new(y),
    );
    let e4 = Real::Nearest(Box::new(Real::Times(Box::new(z), Box::new(Real::Bits(k.log2e)))));
    let e5 = fused(
        n,
        Real::Bits(negated(k.ln2_lo)),
        fused(n, Real::Bits(negated(k.ln2_hi)), z),
    );
    let e6 = Real::Times(Box::new(horner(k, wide)), Box::new(Real::TwoTo(Box::new(n))));
    let m2 = step(bind(wide, 2, e2), m, u);
    let m3 = step(bind(wide, 3, e3), m2, u);
    let m4 = step(bind(wide, 4, e4), m3, u);
    let m5 = step(bind(wide, 5, e5), m4, u);
    let m6 = step(bind(wide, 6, e6), m5, u);
    assert(run(expf_code(k, wide, rest), m, u) == run(rest, m6, u)) by {
        reveal_with_fuel(run, 7);
    }
    if wide {
        assert forall|l: int| 0 <= l < 8 implies m6.wide[6][l] == expf_value(
            u,
            k,
            m.wide[1][l],
        ) by {
            lemma_expf_lane(u, k, wide, m, m2, m3, m4, m5, l);
        }
        assert(m6.wide[6] =~= Seq::new(8, |l: int| expf_value(u, k, m.wide[1][l])));
    } else {
        lemma_expf_lane(u, k, wide, m, m2, m3, m4, m5, 0);
    }
    m6
}

/// The value of a name in a lane.
pub open spec fn at_name(m: Machine, wide: bool, r: usize, l: int) -> u32 {
    if wide {
        m.wide[r][l]
    } else {
        m.regs[r]
    }
}

/// One lane of the exponential.
#[verifier::rlimit(60)]
proof fn lemma_expf_lane(
    u: Units,
    k: ExpfConsts,
    wide: bool,
    m: Machine,
    m2: Machine,
    m3: Machine,
    m4: Machine,
    m5: Machine,
    l: int,
)
    requires
        0 <= l < 8,
        !wide ==> l == 0,
        ({
            let x = name(wide, 1);
            let y = name(wide, 2);
            let z = name(wide, 3);
            let n = name(wide, 4);
            let e2 = Real::Above(
                Box::new(Real::Bits(EXP_LO)),
                Box::new(x),
                Box::new(Real::Bits(EXP_LO)),
                Box::new(x),
            );
            let e3 = Real::Above(
                Box::new(y),
                Box::new(Real::Bits(EXP_HI)),
                Box::new(Real::Bits(EXP_HI)),
                Box::new(y),
            );
            let e4 = Real::Nearest(
                Box::new(Real::Times(Box::new(z), Box::new(Real::Bits(k.log2e)))),
            );
            let e5 = fused(
                n,
                Real::Bits(negated(k.ln2_lo)),
                fused(n, Real::Bits(negated(k.ln2_hi)), z),
            );
            &&& m2 == step(bind(wide, 2, e2), m, u)
            &&& m3 == step(bind(wide, 3, e3), m2, u)
            &&& m4 == step(bind(wide, 4, e4), m3, u)
            &&& m5 == step(bind(wide, 5, e5), m4, u)
        }),
    ensures
        real_of(
            Real::Times(
                Box::new(horner(k, wide)),
                Box::new(Real::TwoTo(Box::new(name(wide, 4)))),
            ),
            m5,
            u,
            l,
        ) == expf_value(u, k, at_name(m, wide, 1, l)),
{
    let xv = at_name(m, wide, 1, l);
    let yv = if above(EXP_LO, xv) {
        EXP_LO
    } else {
        xv
    };
    let zv = if above(yv, EXP_HI) {
        EXP_HI
    } else {
        yv
    };
    let nv = (u.nearest)(product(zv, k.log2e));
    let rv = (u.fused)(nv, negated(k.ln2_lo), (u.fused)(nv, negated(k.ln2_hi), zv));
    assert(at_name(m2, wide, 2, l) == yv) by {
        reveal_with_fuel(real_of, 3);
    }
    assert(at_name(m3, wide, 3, l) == zv) by {
        reveal_with_fuel(real_of, 3);
    }
    assert(at_name(m4, wide, 4, l) == nv) by {
        reveal_with_fuel(real_of, 4);
    }
    assert(at_name(m4, wide, 3, l) == zv);
    assert(at_name(m5, wide, 5, l) == rv) by {
        reveal_with_fuel(real_of, 4);
    }
    assert(at_name(m5, wide, 4, l) == nv);
    let r = name(wide, 5);
    let p5 = fused(Real::Bits(k.c6), r, Real::Bits(k.c5));
    let p4 = fused(p5, r, Real::Bits(k.c4));
    let p3 = fused(p4, r, Real::Bits(k.c3));
    let p2 = fused(p3, r, Real::Bits(k.c2));
    let p1 = fused(p2, r, Real::Bits(k.c1));
    let p0 = fused(p1, r, Real::Bits(k.c0));
    assert(real_of(r, m5, u, l) == rv);
    lemma_fused(p5, Real::Bits(k.c6), r, k.c5, m5, u, l);
    lemma_fused(p4, p5, r, k.c4, m5, u, l);
    lemma_fused(p3, p4, r, k.c3, m5, u, l);
    lemma_fused(p2, p3, r, k.c2, m5, u, l);
    lemma_fused(p1, p2, r, k.c1, m5, u, l);
    lemma_fused(p0, p1, r, k.c0, m5, u, l);
    assert(horner(k, wide) == p0);
    assert(real_of(name(wide, 4), m5, u, l) == nv);
    let doubled = Real::TwoTo(Box::new(name(wide, 4)));
    assert(real_of(doubled, m5, u, l) == (u.two_to)(nv));
}

/// A fused product with a constant added.
proof fn lemma_fused(e: Real, a: Real, b: Real, c: u32, m: Machine, u: Units, l: int)
    requires
        e == fused(a, b, Real::Bits(c)),
    ensures
        real_of(e, m, u, l) == (u.fused)(real_of(a, m, u, l), real_of(b, m, u, l), c),
{
    assert(real_of(Real::Bits(c), m, u, l) == c);
}

/// Whether the scores are there, the first `n` of them replaced by what is taken.
pub open spec fn raised(s: Seq<u32>, x: Sight, h: int, n: int) -> bool {
    &&& x.visible() <= s.len()
    &&& forall|t: int| 0 <= t < n ==> #[trigger] s[t] == x.raw(h, t)
    &&& forall|t: int| n <= t < x.visible() ==> #[trigger] s[t] == x.score(h, t)
}

/// What one round of the exponentials leaves: the names of the maximum stay, and only
/// the scores and the total change.
pub open spec fn exp_state(
    r: Machine,
    m: Machine,
    x: Sight,
    h: int,
    n: int,
    total: u32,
) -> bool {
    &&& same_frame(r, m)
    &&& r.vars[H] == h
    &&& r.regs[9] == m.regs[9]
    &&& r.mem == m.mem.insert(Buf::Scores, r.mem[Buf::Scores]).insert(Buf::Cell(1), seq![total])
    &&& r.mem[Buf::Scores].len() == m.mem[Buf::Scores].len()
    &&& raised(r.mem[Buf::Scores], x, h, n)
}

/// The loop over runs of eight takes their exponentials and adds them up.
#[verifier::rlimit(60)]
proof fn lemma_exp8(x: Sight, m: Machine, h: int, b: nat)
    requires
        x.pos >= 0,
        reads(m, x, h),
        m.mem.contains_key(Buf::Scores),
        m.mem.contains_key(Buf::Cell(1)),
        m.mem[Buf::Cell(1)] == seq![0u32],
        m.regs[9] == x.best(h, x.visible()),
        raised(m.mem[Buf::Scores], x, h, 0),
        b <= x.visible() / 8,
    ensures
        exp_state(
            iterate(exp8_body(x.g), T, 0, 8, b, m, x.u),
            m,
            x,
            h,
            (b * 8) as int,
            x.blocks(h, b),
        ),
    decreases b,
{
    let body = exp8_body(x.g);
    let u = x.u;
    if b == 0 {
        assert(m.mem =~= m.mem.insert(Buf::Scores, m.mem[Buf::Scores]).insert(
            Buf::Cell(1),
            seq![0u32],
        ));
    } else {
        let k = (b - 1) as nat;
        lemma_exp8(x, m, h, k);
        let before = iterate(body, T, 0, 8, k, m, u);
        let at = 0 + (b - 1) * 8u64;
        let mm = Machine { vars: before.vars.insert(T, at), ..before };
        assert(at == k * 8);
        let old_s = mm.mem[Buf::Scores];
        let e1 = Real::Minus(
            Box::new(Real::Load8(Buf::Scores, Int::Var(T))),
            Box::new(Real::Reg(9)),
        );
        let s1 = Stmt::Let8(1, e1);
        let m1 = step(s1, mm, u);
        assert forall|l: int| 0 <= l < 8 implies m1.wide[1][l] == sum(
            x.score(h, at + l),
            negated(x.best(h, x.visible())),
        ) by {
            reveal_with_fuel(real_of, 3);
            assert(int_of(Int::Var(T), mm) == at);
            assert(old_s[at + l] == x.score(h, at + l));
        }
        let total = Real::Plus(Box::new(cell(1)), Box::new(Real::Fold8(6)));
        let s7 = Stmt::Store8(Buf::Scores, Int::Var(T), Real::Lane(6));
        let s8 = Stmt::Store(Buf::Cell(1), Int::Const(0), total);
        let rest = then(s7, then(s8, Code::End));
        let m6 = lemma_expf(u, x.g.expf, true, m1, rest);
        assert(m6.wide[6] =~= x.raws(h, at)) by {
            assert forall|l: int| 0 <= l < 8 implies m6.wide[6][l] == x.raw(h, at + l) by {
                assert(m1.wide[1][l] == sum(
                    x.score(h, at + l),
                    negated(x.best(h, x.visible())),
                ));
            }
        }
        let m7 = step(s7, m6, u);
        let m8 = step(s8, m7, u);
        assert(run(body, mm, u) == m8) by {
            assert(run(body, mm, u) == run(expf_code(x.g.expf, true, rest), m1, u));
            assert(run(rest, m6, u) == m8) by {
                reveal_with_fuel(run, 4);
            }
        }
        assert(int_of(Int::Var(T), m6) == at);
        let new_s = m7.mem[Buf::Scores];
        assert(new_s =~= patched(old_s, at, x.raws(h, at))) by {
            assert forall|l: int| 0 <= l < 8 implies lanes_of(Real::Lane(6), m6, u)[l] == x.raws(
                h,
                at,
            )[l] by {
                assert(real_of(Real::Lane(6), m6, u, l) == m6.wide[6][l]);
            }
            assert(lanes_of(Real::Lane(6), m6, u) =~= x.raws(h, at));
        }
        assert(m7.mem[Buf::Cell(1)] == seq![x.blocks(h, k)]);
        assert(real_of(total, m7, u, 0) == x.blocks(h, b)) by {
            reveal_with_fuel(real_of, 3);
            assert(int_of(Int::Const(0), m7) == 0);
            assert((b - 1) * 8 == at);
        }
        assert(seq![x.blocks(h, k)].update(0, x.blocks(h, b)) =~= seq![x.blocks(h, b)]);
        assert(raised(new_s, x, h, (b * 8) as int)) by {
            assert forall|t: int| 0 <= t < b * 8 implies #[trigger] new_s[t] == x.raw(h, t) by {
                if t < at {
                    assert(old_s[t] == x.raw(h, t));
                }
            }
            assert forall|t: int| b * 8 <= t < x.visible() implies #[trigger] new_s[t] == x.score(
                h,
                t,
            ) by {
                assert(old_s[t] == x.score(h, t));
            }
        }
        assert(m8.mem =~= m.mem.insert(Buf::Scores, new_s).insert(
            Buf::Cell(1),
            seq![x.blocks(h, b)],
        ));
        assert(iterate(body, T, 0, 8, b, m, u) == m8);
    }
}

/// The loop over the scores that are left takes their exponentials and adds them up.
#[verifier::rlimit(60)]
proof fn lemma_exp1(x: Sight, m: Machine, h: int, j: nat)
    requires
        x.pos >= 0,
        reads(m, x, h),
        m.mem.contains_key(Buf::Scores),
        m.mem.contains_key(Buf::Cell(1)),
        m.mem[Buf::Cell(1)] == seq![x.blocks(h, x.visible() / 8)],
        m.regs[9] == x.best(h, x.visible()),
        raised(m.mem[Buf::Scores], x, h, (x.visible() / 8 * 8) as int),
        j <= x.visible() % 8,
    ensures
        exp_state(
            iterate(exp1_body(x.g), T, (x.visible() / 8 * 8) as int, 1, j, m, x.u),
            m,
            x,
            h,
            (x.visible() / 8 * 8 + j) as int,
            x.tail(h, j),
        ),
    decreases j,
{
    let body = exp1_body(x.g);
    let u = x.u;
    let from = (x.visible() / 8 * 8) as int;
    if j == 0 {
        assert(m.mem =~= m.mem.insert(Buf::Scores, m.mem[Buf::Scores]).insert(
            Buf::Cell(1),
            seq![x.tail(h, 0)],
        ));
    } else {
        let k = (j - 1) as nat;
        lemma_exp1(x, m, h, k);
        let before = iterate(body, T, from, 1, k, m, u);
        let at = from + (j - 1) * 1u64;
        let mm = Machine { vars: before.vars.insert(T, at), ..before };
        assert(at == from + k);
        assert(at < x.visible());
        let old_s = mm.mem[Buf::Scores];
        assert(old_s[at] == x.score(h, at));
        let e1 = Real::Minus(
            Box::new(Real::Load(Buf::Scores, Int::Var(T))),
            Box::new(Real::Reg(9)),
        );
        let s1 = Stmt::Let(1, e1);
        let m1 = step(s1, mm, u);
        assert(m1.regs[1] == sum(x.score(h, at), negated(x.best(h, x.visible())))) by {
            reveal_with_fuel(real_of, 3);
            assert(int_of(Int::Var(T), mm) == at);
        }
        let total = Real::Plus(Box::new(cell(1)), Box::new(Real::Reg(6)));
        let s7 = Stmt::Store(Buf::Scores, Int::Var(T), Real::Reg(6));
        let s8 = Stmt::Store(Buf::Cell(1), Int::Const(0), total);
        let rest = then(s7, then(s8, Code::End));
        let m6 = lemma_expf(u, x.g.expf, false, m1, rest);
        assert(m6.regs[6] == x.raw(h, at));
        let m7 = step(s7, m6, u);
        let m8 = step(s8, m7, u);
        assert(run(body, mm, u) == m8) by {
            assert(run(body, mm, u) == run(expf_code(x.g.expf, false, rest), m1, u));
            assert(run(rest, m6, u) == m8) by {
                reveal_with_fuel(run, 4);
            }
        }
        assert(int_of(Int::Var(T), m6) == at);
        let new_s = m7.mem[Buf::Scores];
        assert(real_of(Real::Reg(6), m6, u, 0) == x.raw(h, at));
        assert(new_s == old_s.update(at, x.raw(h, at)));
        assert(m7.mem[Buf::Cell(1)] == seq![x.tail(h, k)]);
        assert(real_of(total, m7, u, 0) == x.tail(h, j)) by {
            reveal_with_fuel(real_of, 3);
            assert(int_of(Int::Const(0), m7) == 0);
        }
        assert(seq![x.tail(h, k)].update(0, x.tail(h, j)) =~= seq![x.tail(h, j)]);
        assert(raised(new_s, x, h, from + j)) by {
            assert forall|t: int| 0 <= t < from + j implies #[trigger] new_s[t] == x.raw(h, t) by {
                if t < at {
                    assert(old_s[t] == x.raw(h, t));
                }
            }
            assert forall|t: int| from + j <= t < x.visible() implies #[trigger] new_s[t]
                == x.score(h, t) by {
                assert(old_s[t] == x.score(h, t));
            }
        }
        assert(m8.mem =~= m.mem.insert(Buf::Scores, new_s).insert(
            Buf::Cell(1),
            seq![x.tail(h, j)],
        ));
        assert(iterate(body, T, from, 1, j, m, u) == m8);
    }
}

/// `n` zeros.
pub open spec fn zeros(n: nat) -> Seq<u32> {
    Seq::new(n, |i: int| 0u32)
}

/// The code that clears the accumulators clears them from run `c` on.
proof fn lemma_clear(x: Sight, m: Machine, h: int, c: nat, rest: Code) -> (m2: Machine)
    requires
        heads_ok(x.g),
        reads(m, x, h),
        c <= chunks_of(x.g),
        m.mem.contains_key(Buf::Acc),
        m.mem[Buf::Acc].len() == x.g.head_dim,
        m.mem[Buf::Acc].take((c * 8) as int) == zeros(c * 8),
    ensures
        run(clear_code(x.g, c, rest), m, x.u) == run(rest, m2, x.u),
        m2 == (Machine { mem: m.mem.insert(Buf::Acc, zeros(x.g.head_dim as nat)), ..m }),
    decreases chunks_of(x.g) - c,
{
    let acc = m.mem[Buf::Acc];
    if c == chunks_of(x.g) {
        assert(acc.take((c * 8) as int) =~= acc);
        assert(m.mem =~= m.mem.insert(Buf::Acc, zeros(x.g.head_dim as nat)));
        m
    } else {
        let s = Stmt::Store8(Buf::Acc, acc_at(c), Real::Bits(0));
        let m1 = step(s, m, x.u);
        lemma_head_at(x, m, h, c);
        assert(lanes_of(Real::Bits(0), m, x.u) =~= zeros(8));
        let more = clear_code(x.g, c + 1, rest);
        assert(run(then(s, more), m, x.u) == run(more, m1, x.u));
        let acc1 = m1.mem[Buf::Acc];
        assert(acc1 == patched(acc, (c * 8) as int, zeros(8)));
        assert forall|i: int| 0 <= i < (c + 1) * 8 implies acc1[i] == 0 by {
            if i < c * 8 {
                assert(acc.take((c * 8) as int)[i] == zeros(c * 8)[i]);
            }
        }
        assert(acc1.take(((c + 1) * 8) as int) =~= zeros((c + 1) * 8));
        let m2 = lemma_clear(x, m1, h, c + 1, rest);
        assert(m2.mem =~= m.mem.insert(Buf::Acc, zeros(x.g.head_dim as nat)));
        m2
    }
}

/// The accumulators after `n` values.
pub open spec fn mixed_row(x: Sight, h: int, n: nat) -> Seq<u32> {
    Seq::new(x.g.head_dim as nat, |i: int| x.mixed(h, i, n))
}

/// The code that adds a value to the accumulators adds it from run `c` on.
proof fn lemma_mix_runs(x: Sight, m: Machine, h: int, n: nat, c: nat) -> (m2: Machine)
    requires
        heads_ok(x.g),
        reads(m, x, h),
        m.vars[T] == n,
        m.regs[7] == x.share(h, n as int),
        c <= chunks_of(x.g),
        m.mem.contains_key(Buf::Acc),
        m.mem[Buf::Acc].len() == x.g.head_dim,
        forall|i: int| 0 <= i < c * 8 ==> #[trigger] m.mem[Buf::Acc][i] == x.mixed(h, i, n + 1),
        forall|i: int|
            c * 8 <= i < x.g.head_dim ==> #[trigger] m.mem[Buf::Acc][i] == x.mixed(h, i, n),
    ensures
        run(mix_code(x.g, c, Code::End), m, x.u) == m2,
        m2 == (Machine { mem: m.mem.insert(Buf::Acc, mixed_row(x, h, n + 1)), ..m }),
    decreases chunks_of(x.g) - c,
{
    let acc = m.mem[Buf::Acc];
    if c == chunks_of(x.g) {
        assert(acc =~= mixed_row(x, h, n + 1));
        assert(m.mem =~= m.mem.insert(Buf::Acc, mixed_row(x, h, n + 1)));
        m
    } else {
        let e = fused(
            Real::Reg(7),
            Real::Load8(Buf::Kv, cached_at(x.g, values(), c)),
            Real::Load8(Buf::Acc, acc_at(c)),
        );
        let s = Stmt::Store8(Buf::Acc, acc_at(c), e);
        let m1 = step(s, m, x.u);
        lemma_head_at(x, m, h, c);
        lemma_cached_at(x, m, h, c);
        let at = (c * 8) as int;
        let want = Seq::new(8, |l: int| x.mixed(h, at + l, n + 1));
        assert forall|l: int| 0 <= l < 8 implies real_of(e, m, x.u, l) == x.mixed(
            h,
            at + l,
            n + 1,
        ) by {
            reveal_with_fuel(real_of, 3);
            assert(m.mem[Buf::Acc][at + l] == x.mixed(h, at + l, n));
        }
        assert(lanes_of(e, m, x.u) =~= want);
        let acc1 = m1.mem[Buf::Acc];
        assert(acc1 == patched(acc, at, want));
        assert forall|i: int| 0 <= i < (c + 1) * 8 implies #[trigger] m1.mem[Buf::Acc][i]
            == x.mixed(h, i, n + 1) by {
            if i < at {
                assert(m.mem[Buf::Acc][i] == x.mixed(h, i, n + 1));
            } else {
                assert(acc1[i] == want[i - at]);
            }
        }
        assert forall|i: int| (c + 1) * 8 <= i < x.g.head_dim implies #[trigger] m1.mem[Buf::Acc][i]
            == x.mixed(h, i, n) by {
            assert(m.mem[Buf::Acc][i] == x.mixed(h, i, n));
        }
        let more = mix_code(x.g, c + 1, Code::End);
        assert(run(then(s, more), m, x.u) == run(more, m1, x.u));
        let m2 = lemma_mix_runs(x, m1, h, n, c + 1);
        assert(m2.mem =~= m.mem.insert(Buf::Acc, mixed_row(x, h, n + 1)));
        m2
    }
}

/// The loop over the values mixes them by their shares.
proof fn lemma_mix(x: Sight, m: Machine, h: int, n: nat)
    requires
        heads_ok(x.g),
        reads(m, x, h),
        n <= x.visible(),
        m.regs[8] == x.total(h),
        raised(m.mem[Buf::Scores], x, h, x.visible() as int),
        m.mem.contains_key(Buf::Acc),
        m.mem[Buf::Acc] == zeros(x.g.head_dim as nat),
    ensures
        ({
            let r = iterate(mix_body(x.g), T, 0, 1, n, m, x.u);
            &&& same_frame(r, m)
            &&& r.vars[H] == h
            &&& r.regs[8] == m.regs[8]
            &&& r.mem == m.mem.insert(Buf::Acc, mixed_row(x, h, n))
        }),
    decreases n,
{
    let body = mix_body(x.g);
    if n == 0 {
        assert(mixed_row(x, h, 0) =~= zeros(x.g.head_dim as nat));
        assert(m.mem =~= m.mem.insert(Buf::Acc, mixed_row(x, h, 0)));
    } else {
        let k = (n - 1) as nat;
        lemma_mix(x, m, h, k);
        let before = iterate(body, T, 0, 1, k, m, x.u);
        let mm = Machine { vars: before.vars.insert(T, k as int), ..before };
        assert(0 + (n - 1) * 1u64 == k);
        let e = Real::Over(
            Box::new(Real::Load(Buf::Scores, Int::Var(T))),
            Box::new(Real::Reg(8)),
        );
        let s = Stmt::Let(7, e);
        let m1 = step(s, mm, x.u);
        assert(mm.mem[Buf::Scores] == m.mem[Buf::Scores]);
        assert(m1.regs[7] == x.share(h, k as int)) by {
            reveal_with_fuel(real_of, 3);
            assert(int_of(Int::Var(T), mm) == k);
            assert(m.mem[Buf::Scores][k as int] == x.raw(h, k as int));
        }
        assert forall|i: int| 0 * 8 <= i < x.g.head_dim implies #[trigger] m1.mem[Buf::Acc][i]
            == x.mixed(h, i, k) by {
            assert(m1.mem[Buf::Acc] == mixed_row(x, h, k));
        }
        let m2 = lemma_mix_runs(x, m1, h, k, 0);
        assert(run(body, mm, x.u) == m2);
        assert(m2.mem =~= m.mem.insert(Buf::Acc, mixed_row(x, h, n)));
        assert(iterate(body, T, 0, 1, n, m, x.u) == m2);
    }
}

/// The code that copies the accumulators out copies them from run `c` on.
proof fn lemma_out(x: Sight, m: Machine, h: int, c: nat, before: Seq<u32>) -> (m2: Machine)
    requires
        heads_ok(x.g),
        reads(m, x, h),
        c <= chunks_of(x.g),
        m.mem.contains_key(Buf::Out),
        m.mem[Buf::Acc].len() == x.g.head_dim,
        0 <= h * x.g.head_dim,
        h * x.g.head_dim + x.g.head_dim <= before.len(),
        m.mem[Buf::Out] == patched(
            before,
            h * x.g.head_dim,
            m.mem[Buf::Acc].take((c * 8) as int),
        ),
    ensures
        run(out_code(x.g, c), m, x.u) == m2,
        m2 == (Machine {
            mem: m.mem.insert(
                Buf::Out,
                patched(before, h * x.g.head_dim, m.mem[Buf::Acc]),
            ),
            ..m
        }),
    decreases chunks_of(x.g) - c,
{
    let acc = m.mem[Buf::Acc];
    let start = h * x.g.head_dim;
    if c == chunks_of(x.g) {
        assert(acc.take((c * 8) as int) =~= acc);
        assert(m.mem =~= m.mem.insert(Buf::Out, patched(before, start, acc)));
        m
    } else {
        let e = Real::Load8(Buf::Acc, acc_at(c));
        let s = Stmt::Store8(Buf::Out, head_at(x.g, c), e);
        let m1 = step(s, m, x.u);
        lemma_head_at(x, m, h, c);
        let at = (c * 8) as int;
        assert(lanes_of(e, m, x.u) =~= acc.subrange(at, at + 8));
        let out1 = m1.mem[Buf::Out];
        assert(out1 == patched(m.mem[Buf::Out], start + at, acc.subrange(at, at + 8)));
        assert(out1 =~= patched(before, start, acc.take(((c + 1) * 8) as int)));
        let more = out_code(x.g, c + 1);
        assert(run(then(s, more), m, x.u) == run(more, m1, x.u));
        let m2 = lemma_out(x, m1, h, c + 1, before);
        assert(m2.mem =~= m.mem.insert(Buf::Out, patched(before, start, acc)));
        m2
    }
}

/// Whether the regions are there that the function works in.
pub open spec fn workspace(mem: Map<Buf, Seq<u32>>, g: Heads, visible: nat, heads: int) -> bool {
    &&& mem.contains_key(Buf::Scores)
    &&& visible <= mem[Buf::Scores].len()
    &&& mem.contains_key(Buf::Cell(0))
    &&& mem[Buf::Cell(0)].len() == 1
    &&& mem.contains_key(Buf::Cell(1))
    &&& mem[Buf::Cell(1)].len() == 1
    &&& mem.contains_key(Buf::Acc)
    &&& mem[Buf::Acc].len() == g.head_dim
    &&& mem.contains_key(Buf::Out)
    &&& heads * g.head_dim <= mem[Buf::Out].len()
}

/// Whether two memories differ at most in the regions that the function works in.
pub open spec fn same_outside(a: Map<Buf, Seq<u32>>, b: Map<Buf, Seq<u32>>) -> bool {
    forall|r: Buf|
        r != Buf::Scores && r != Buf::Cell(0) && r != Buf::Cell(1) && r != Buf::Acc && r
            != Buf::Out ==> (#[trigger] a.contains_key(r) <==> b.contains_key(r)) && a[r] == b[r]
}

/// The part of the code of a head that scores it and takes the exponentials.
#[verifier::rlimit(60)]
proof fn lemma_head_weights(x: Sight, m: Machine, h: int, heads: int, rest: Code) -> (r: Machine)
    requires
        heads_ok(x.g),
        x.pos >= 0,
        reads(m, x, h),
        workspace(m.mem, x.g, x.visible(), heads),
    ensures
        run(weigh_code(x.g, rest), m, x.u) == run(rest, r, x.u),
        same_frame(r, m),
        reads(r, x, h),
        workspace(r.mem, x.g, x.visible(), heads),
        same_outside(r.mem, m.mem),
        r.mem[Buf::Out] == m.mem[Buf::Out],
        r.regs[8] == x.total(h),
        raised(r.mem[Buf::Scores], x, h, x.visible() as int),
{
    let g = x.g;
    let u = x.u;
    let n = visible_int();
    let whole = Int::Eights(Box::new(visible_int()));
    let v = x.visible();
    assert(forall|k: Machine| #[trigger] int_of(n, k) == k.args[POS as int] + 1) by {
        reveal_with_fuel(int_of, 3);
    }
    let s1 = over(Int::Const(0), n, 1, score_body(g));
    let m1 = step(s1, m, u);
    assert(m1 == iterate(score_body(g), T, 0, 1, v, m, u)) by {
        reveal_with_fuel(int_of, 3);
        assert(trips(0, v as int, 1) == v);
    }
    lemma_scores(x, m, h, v);
    let s2 = Stmt::Store(Buf::Cell(0), Int::Const(0), Real::Bits(NEG_INF));
    let m2 = step(s2, m1, u);
    assert(m2.mem[Buf::Cell(0)] =~= seq![NEG_INF]) by {
        assert(int_of(Int::Const(0), m1) == 0);
        assert(real_of(Real::Bits(NEG_INF), m1, u, 0) == NEG_INF);
    }
    assert forall|t: int| 0 <= t < v implies #[trigger] m2.mem[Buf::Scores][t] == x.score(h, t) by {
        assert(m2.mem[Buf::Scores] == patched(
            m.mem[Buf::Scores],
            0,
            Seq::new(v, |t: int| x.score(h, t)),
        ));
    }
    let s3 = over(Int::Const(0), n, 1, best_body());
    let m3 = step(s3, m2, u);
    assert(m3 == iterate(best_body(), T, 0, 1, v, m2, u)) by {
        reveal_with_fuel(int_of, 3);
        assert(trips(0, v as int, 1) == v);
    }
    lemma_best(x, m2, h, v);
    let s4 = Stmt::Let(9, cell(0));
    let m4 = step(s4, m3, u);
    assert(m4.regs[9] == x.best(h, v)) by {
        reveal_with_fuel(real_of, 2);
        assert(int_of(Int::Const(0), m3) == 0);
    }
    let s5 = Stmt::Store(Buf::Cell(1), Int::Const(0), Real::Bits(0));
    let m5 = step(s5, m4, u);
    assert(m5.mem[Buf::Cell(1)] =~= seq![0u32]) by {
        assert(int_of(Int::Const(0), m4) == 0);
        assert(real_of(Real::Bits(0), m4, u, 0) == 0);
    }
    assert(m5.mem[Buf::Scores] == m2.mem[Buf::Scores]);
    assert(raised(m5.mem[Buf::Scores], x, h, 0));
    let s6 = over(Int::Const(0), whole, 8, exp8_body(g));
    let m6 = step(s6, m5, u);
    let b = v / 8;
    assert(m6 == iterate(exp8_body(g), T, 0, 8, b, m5, u)) by {
        reveal_with_fuel(int_of, 4);
        assert(int_of(whole, m5) == v / 8 * 8);
        assert(trips(0, (v / 8 * 8) as int, 8) == b);
    }
    lemma_exp8(x, m5, h, b);
    let s7 = over(whole, n, 1, exp1_body(g));
    let m7 = step(s7, m6, u);
    let j = v % 8;
    assert(m7 == iterate(exp1_body(g), T, (v / 8 * 8) as int, 1, j, m6, u)) by {
        reveal_with_fuel(int_of, 4);
        assert(int_of(whole, m6) == v / 8 * 8);
        assert(trips((v / 8 * 8) as int, v as int, 1) == j);
    }
    lemma_exp1(x, m6, h, j);
    assert(v / 8 * 8 + j == v);
    let s8 = Stmt::Let(8, cell(1));
    let m8 = step(s8, m7, u);
    assert(m8.regs[8] == x.total(h)) by {
        reveal_with_fuel(real_of, 2);
        assert(int_of(Int::Const(0), m7) == 0);
    }
    assert(run(weigh_code(g, rest), m, u) == run(rest, m8, u)) by {
        let c8 = then(s8, rest);
        let c7 = then(s7, c8);
        let c6 = then(s6, c7);
        let c5 = then(s5, c6);
        let c4 = then(s4, c5);
        let c3 = then(s3, c4);
        let c2 = then(s2, c3);
        assert(run(then(s1, c2), m, u) == run(c2, m1, u));
        assert(run(c2, m1, u) == run(c3, m2, u));
        assert(run(c3, m2, u) == run(c4, m3, u));
        assert(run(c4, m3, u) == run(c5, m4, u));
        assert(run(c5, m4, u) == run(c6, m5, u));
        assert(run(c6, m5, u) == run(c7, m6, u));
        assert(run(c7, m6, u) == run(c8, m7, u));
        assert(run(c8, m7, u) == run(rest, m8, u));
    }
    m8
}

/// The code of a head writes what its values give, and nothing else but what it
/// works in.
proof fn lemma_head(x: Sight, m: Machine, h: int, heads: int)
    requires
        heads_ok(x.g),
        x.pos >= 0,
        0 <= h < heads,
        reads(m, x, h),
        workspace(m.mem, x.g, x.visible(), heads),
    ensures
        ({
            let r = run(head_code(x.g), m, x.u);
            &&& same_frame(r, m)
            &&& reads(r, x, h)
            &&& workspace(r.mem, x.g, x.visible(), heads)
            &&& same_outside(r.mem, m.mem)
            &&& r.mem[Buf::Out] == patched(
                m.mem[Buf::Out],
                h * x.g.head_dim,
                mixed_row(x, h, x.visible()),
            )
        }),
{
    let g = x.g;
    let u = x.u;
    let v = x.visible();
    let mix = over(Int::Const(0), visible_int(), 1, mix_body(g));
    let last = then(mix, out_code(g, 0));
    let rest = clear_code(g, 0, last);
    assert(head_code(g) == weigh_code(g, rest));
    let m8 = lemma_head_weights(x, m, h, heads, rest);
    assert(m8.mem[Buf::Acc].take(0) =~= zeros(0));
    let m9 = lemma_clear(x, m8, h, 0, last);
    let m10 = step(mix, m9, u);
    assert(m10 == iterate(mix_body(g), T, 0, 1, v, m9, u)) by {
        reveal_with_fuel(int_of, 3);
        assert(trips(0, v as int, 1) == v);
    }
    assert(m9.mem[Buf::Scores] == m8.mem[Buf::Scores]);
    lemma_mix(x, m9, h, v);
    assert(run(last, m9, u) == run(out_code(g, 0), m10, u));
    let before = m.mem[Buf::Out];
    lemma_row_within(h, g.head_dim as int, heads);
    assert(m10.mem[Buf::Out] == before);
    assert(patched(before, h * g.head_dim, m10.mem[Buf::Acc].take(0)) =~= before);
    let m11 = lemma_out(x, m10, h, 0, before);
}

/// What the heads of a span give, one behind the other.
pub open spec fn span_row(x: Sight, first: int, n: nat) -> Seq<u32> {
    Seq::new(
        n * x.g.head_dim as nat,
        |p: int|
            x.mixed(first + p / x.g.head_dim as int, p % x.g.head_dim as int, x.visible()),
    )
}

/// A head more.
proof fn lemma_span_grows(x: Sight, before: Seq<u32>, first: int, n: nat, heads: int)
    requires
        0 <= first,
        n > 0,
        first + n <= heads,
        heads * x.g.head_dim <= before.len(),
    ensures
        patched(
            patched(before, first * x.g.head_dim, span_row(x, first, (n - 1) as nat)),
            (first + n - 1) * x.g.head_dim,
            mixed_row(x, first + n - 1, x.visible()),
        ) == patched(before, first * x.g.head_dim, span_row(x, first, n)),
{
    let d = x.g.head_dim as int;
    let k = n - 1;
    assert((first + k) * d == first * d + k * d) by (nonlinear_arith);
    assert(n * d == k * d + d) by (nonlinear_arith)
        requires
            k == n - 1,
    ;
    assert(0 <= first * d && 0 <= k * d) by (nonlinear_arith)
        requires
            0 <= first,
            0 <= k,
            0 <= d,
    ;
    assert((first + n) * d <= heads * d) by (nonlinear_arith)
        requires
            first + n <= heads,
            0 <= d,
    ;
    assert((first + n) * d == first * d + n * d) by (nonlinear_arith);
    let row = mixed_row(x, first + k, x.visible());
    let long = span_row(x, first, n);
    let short = span_row(x, first, k as nat);
    assert forall|p: int| k * d <= p < n * d implies #[trigger] long[p] == row[p - k * d] by {
        lemma_cell(k, p - k * d, d);
    }
    assert forall|p: int| 0 <= p < k * d implies #[trigger] long[p] == short[p] by {}
    assert(patched(patched(before, first * d, short), (first + k) * d, row) =~= patched(
        before,
        first * d,
        long,
    ));
}

/// The loop over the heads.
proof fn lemma_span(x: Sight, m: Machine, first: int, n: nat, heads: int)
    requires
        heads_ok(x.g),
        x.pos >= 0,
        0 <= first,
        first + n <= heads,
        reads(m, x, m.vars[H]),
        workspace(m.mem, x.g, x.visible(), heads),
    ensures
        ({
            let r = iterate(head_code(x.g), H, first, 1, n, m, x.u);
            &&& same_frame(r, m)
            &&& reads(r, x, r.vars[H])
            &&& workspace(r.mem, x.g, x.visible(), heads)
            &&& same_outside(r.mem, m.mem)
            &&& r.mem[Buf::Out] == patched(
                m.mem[Buf::Out],
                first * x.g.head_dim,
                span_row(x, first, n),
            )
        }),
    decreases n,
{
    let body = head_code(x.g);
    let before = m.mem[Buf::Out];
    if n == 0 {
        assert(patched(before, first * x.g.head_dim, span_row(x, first, 0)) =~= before);
    } else {
        let k = (n - 1) as nat;
        lemma_span(x, m, first, k, heads);
        let sofar = iterate(body, H, first, 1, k, m, x.u);
        let h = first + k;
        assert(first + (n - 1) * 1u64 == h);
        let mm = Machine { vars: sofar.vars.insert(H, h), ..sofar };
        lemma_head(x, mm, h, heads);
        lemma_span_grows(x, before, first, n, heads);
        assert(iterate(body, H, first, 1, n, m, x.u) == run(body, mm, x.u));
    }
}

/// The emitted function computes, for every head of the span that it is handed, the
/// values that the token sees, mixed by their shares; the queries and the cache stay
/// as they are, and so does everything else but its work space.
pub proof fn law_hspan_code(x: Sight, m: Machine)
    requires
        heads_ok(x.g),
        x.pos >= 0,
        0 <= m.args[H_START as int] <= m.args[H_END as int],
        reads(m, x, m.vars[H]),
        workspace(m.mem, x.g, x.visible(), m.args[H_END as int]),
    ensures
        ({
            let first = m.args[H_START as int];
            let n = (m.args[H_END as int] - first) as nat;
            let r = run(hspan_code(x.g), m, x.u);
            &&& r.mem[Buf::Out] == patched(
                m.mem[Buf::Out],
                first * x.g.head_dim,
                span_row(x, first, n),
            )
            &&& same_outside(r.mem, m.mem)
        }),
{
    let first = m.args[H_START as int];
    let last = m.args[H_END as int];
    let n = (last - first) as nat;
    lemma_span(x, m, first, n, last);
    let s = Stmt::Loop {
        var: H,
        from: Int::Arg(H_START),
        to: Int::Arg(H_END),
        step: 1,
        body: Box::new(head_code(x.g)),
    };
    assert(int_of(Int::Arg(H_START), m) == first);
    assert(int_of(Int::Arg(H_END), m) == last);
    assert(trips(first, last, 1) == n);
    let r = step(s, m, x.u);
    assert(r == iterate(head_code(x.g), H, first, 1, n, m, x.u));
    assert(run(hspan_code(x.g), m, x.u) == r) by {
        reveal_with_fuel(run, 2);
    }
}

/// Splitting a span among workers changes nothing: the two parts, one after the other,
/// write what the whole does.
pub proof fn law_spans_join(x: Sight, before: Seq<u32>, first: int, n: nat, k: nat)
    requires
        x.g.head_dim > 0,
        0 <= first,
        (first + n + k) * x.g.head_dim <= before.len(),
    ensures
        patched(
            patched(before, first * x.g.head_dim, span_row(x, first, n)),
            (first + n) * x.g.head_dim,
            span_row(x, first + n, k),
        ) == patched(before, first * x.g.head_dim, span_row(x, first, n + k)),
    decreases k,
{
    let d = x.g.head_dim as int;
    if k == 0 {
        let one = patched(before, first * d, span_row(x, first, n));
        let none = span_row(x, first + n, k);
        assert(k * d == 0) by (nonlinear_arith)
            requires
                k == 0,
        ;
        assert(none.len() == k * d);
        assert(patched(one, (first + n) * d, none) =~= one);
        assert(n + k == n);
    } else {
        let j = (k - 1) as nat;
        assert((first + n + j) * d <= (first + n + k) * d) by (nonlinear_arith)
            requires
                j <= k,
                0 < d,
        ;
        law_spans_join(x, before, first, n, j);
        let one = patched(before, first * d, span_row(x, first, n));
        lemma_span_grows(x, one, first + n, k, first + n + k);
        lemma_span_grows(x, before, first, n + k, first + n + k);
        assert(first + n + k - 1 == first + (n + k) - 1);
    }
}

} // verus!
