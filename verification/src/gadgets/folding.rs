//! What the constraints of the statement fold say of a whole trace: where they vanish on every row, the public root is
//! the fold of the public statements.

use vstd::prelude::*;
use super::agg::{padded, rows_digest, rows_root, statement_at, AggFoldAir, AF_ROOT};
use crate::emit::flat;
use crate::expr::{value, w_const, w_cur, w_minus, w_nxt, w_per, w_pub, w_times, Expr, Window, Wire};
use crate::field::{f_red, MODULUS};
use crate::monolith::arith::plain_steps;
use crate::monolith::layout::BLOCK;
use crate::monolith::meaning::{at_step, digest_at, lanes_at, law_block_runs, lemma_masked};
use crate::poseidon::{block_last, paired, schedule};
use crate::vanish::{
    lemma_canonical_difference, lemma_const_value, lemma_gated_equation, lemma_gates, lemma_leaf_values,
    lemma_op_values, lemma_vanish_flat, lemma_vanish_parts, vanish,
};

verus! {

impl AggFoldAir {
    /// The window that row `r` of a trace opens.
    pub open spec fn window_at(&self, rows: Seq<Seq<u64>>, pubs: Seq<u64>, r: int) -> Window {
        let h = self.s_height();
        Window {
            cur: rows[r],
            nxt: rows[(r + 1) % h],
            periodic: Seq::new(
                (16 + self.n_tiles) as nat,
                |j: int| self.column(j)[r % (self.column(j).len() as int)],
            ),
            publics: pubs,
            is_first: if r == 0 {
                1
            } else {
                0
            },
            is_last: if r == h - 1 {
                1
            } else {
                0
            },
            is_transition: if r == h - 1 {
                0
            } else {
                1
            },
        }
    }

    /// A trace on which every constraint vanishes.
    pub open spec fn satisfied(&self, rows: Seq<Seq<u64>>, pubs: Seq<u64>) -> bool {
        &&& rows.len() == self.s_height()
        &&& forall|r: int| 0 <= r < rows.len() ==> vanish(self.s_eval(), #[trigger] self.window_at(rows, pubs, r))
    }

    /// The domain tag and the public values are canonical.
    pub open spec fn canonical(&self, pubs: Seq<u64>) -> bool {
        &&& self.dom < MODULUS
        &&& pubs.len() == self.n_tiles + 4
        &&& forall|i: int| 0 <= i < pubs.len() ==> #[trigger] pubs[i] < MODULUS
    }

    /// A mark column at a row.
    pub(crate) proof fn lemma_mark(&self, rows: Seq<Seq<u64>>, pubs: Seq<u64>, r: int, j: int)
        requires
            self.wf(),
            0 <= r < self.s_height(),
            11 <= j < 16 + self.n_tiles,
        ensures
            value(w_per(j), self.window_at(rows, pubs, r)) == (if self.marks(j, r) {
                1u64
            } else {
                0u64
            }),
    {
        let w = self.window_at(rows, pubs, r);
        assert(self.column(j).len() == self.s_height());
        vstd::arithmetic::div_mod::lemma_small_mod(r as nat, self.s_height() as nat);
        assert(w.periodic[j] == self.column(j)[r]);
        lemma_leaf_values(j, w);
    }

    /// The families of the constraints.
    proof fn lemma_families(&self, w: Window)
        requires
            vanish(self.s_eval(), w),
        ensures
            vanish(plain_steps(0), w),
            vanish(flat(self.n_tiles as int, self.f_seed()), w),
            vanish(flat(4, self.f_digest_out()), w),
            vanish(flat(4, self.f_root_in()), w),
            vanish(flat(4, self.f_root_start()), w),
            vanish(flat(4, self.f_root_hold()), w),
            vanish(flat(4, self.f_root_out()), w),
    {
        let (a, b, c) = (plain_steps(0), flat(self.n_tiles as int, self.f_seed()), flat(4, self.f_digest_out()));
        let (d, e, f) = (flat(4, self.f_root_in()), flat(4, self.f_root_start()), flat(4, self.f_root_hold()));
        let g = flat(4, self.f_root_out());
        lemma_vanish_parts(a + b + c + d + e + f, g, w);
        lemma_vanish_parts(a + b + c + d + e, f, w);
        lemma_vanish_parts(a + b + c + d, e, w);
        lemma_vanish_parts(a + b + c, d, w);
        lemma_vanish_parts(a + b, c, w);
        lemma_vanish_parts(a, b, w);
    }

    /// A digest block starts from the domain tag and its statement.
    proof fn lemma_seeded(&self, rows: Seq<Seq<u64>>, pubs: Seq<u64>, t: int)
        requires
            self.wf(),
            self.satisfied(rows, pubs),
            self.canonical(pubs),
            0 <= t < self.n_tiles,
            64 * t < self.s_height(),
        ensures
            lanes_at(rows[64 * t], 0) == paired(padded(self.dom), padded(pubs[t])),
    {
        let r = 64 * t;
        let w = self.window_at(rows, pubs, r);
        self.lemma_families(w);
        self.lemma_mark(rows, pubs, r, 12 + t);
        lemma_vanish_flat(self.n_tiles as int, self.f_seed(), w);
        assert(vanish(self.f_seed()(t), w));
        let cs = self.s_seed(t);
        let on = w_per(12 + t);
        let (tag, pv) = (w_const(self.dom), w_pub(t));
        assert(value(cs[0], w) == 0 && value(cs[1], w) == 0 && value(cs[2], w) == 0 && value(cs[3], w) == 0 && value(
            cs[4],
            w,
        ) == 0 && value(cs[5], w) == 0 && value(cs[6], w) == 0 && value(cs[7], w) == 0);
        lemma_gated_equation(on, w_cur(0), tag, w);
        lemma_gated_equation(on, w_cur(4), pv, w);
        assert(value(tag, w) == f_red(self.dom as int) && value(pv, w) == f_red(pubs[t] as int));
        lemma_leaf_values(0, w);
        lemma_leaf_values(4, w);
        lemma_open_cell(on, 1, w);
        lemma_open_cell(on, 2, w);
        lemma_open_cell(on, 3, w);
        lemma_open_cell(on, 5, w);
        lemma_open_cell(on, 6, w);
        lemma_open_cell(on, 7, w);
        let (got, want) = (
            lanes_at(rows[r], 0),
            paired(padded(self.dom), padded(pubs[t])),
        );
        assert(got[0] == want[0] && got[1] == want[1] && got[2] == want[2] && got[3] == want[3] && got[4] == want[4]
            && got[5] == want[5] && got[6] == want[6] && got[7] == want[7]);
        assert(got =~= want);
    }

    /// Every block but the padding runs the permutation.
    proof fn lemma_block_runs(&self, rows: Seq<Seq<u64>>, pubs: Seq<u64>, b: int)
        requires
            self.wf(),
            self.satisfied(rows, pubs),
            self.canonical(pubs),
            0 <= b < 2 * self.n_tiles,
            64 * self.n_tiles <= self.s_height(),
        ensures
            lanes_at(rows[32 * b + 31], 0) == block_last(lanes_at(rows[32 * b], 0)),
    {
        let h = self.s_height();
        let ws = Seq::new(32, |k: int| self.window_at(rows, pubs, 32 * b + k));
        assert forall|k: int| 0 <= k < 31 implies at_step(#[trigger] ws[k], k) && vanish(plain_steps(0), ws[k]) by {
            let r = 32 * b + k;
            let w = self.window_at(rows, pubs, r);
            self.lemma_families(w);
            assert forall|j: int| 0 <= j < 11 implies #[trigger] w.periodic[j] == schedule(j, k) by {
                assert(self.column(j).len() == 32);
                assert(r % 32 == k);
            }
        }
        assert forall|k: int| 0 <= k < 31 implies (#[trigger] ws[k]).nxt == ws[k + 1].cur by {
            let r = 32 * b + k;
            vstd::arithmetic::div_mod::lemma_small_mod((r + 1) as nat, h as nat);
        }
        law_block_runs(0, ws, 31);
        assert(ws[31].cur == rows[32 * b + 31] && ws[0].cur == rows[32 * b]);
        reveal(block_last);
    }

    /// The digest enters the root block, which starts from the running root.
    proof fn lemma_root_block(&self, rows: Seq<Seq<u64>>, pubs: Seq<u64>, t: int)
        requires
            self.wf(),
            self.satisfied(rows, pubs),
            self.canonical(pubs),
            0 <= t < self.n_tiles,
            64 * self.n_tiles <= self.s_height(),
        ensures
            lanes_at(rows[64 * t + 32], 0) == paired(
                digest_at(rows[64 * t + 32], AF_ROOT as int),
                digest_at(rows[64 * t + 31], 0),
            ),
    {
        let h = self.s_height();
        let (r, q) = (64 * t + 31, 64 * t + 32);
        let (w, v) = (self.window_at(rows, pubs, r), self.window_at(rows, pubs, q));
        self.lemma_families(w);
        self.lemma_families(v);
        assert(r / 32 == 2 * t && r % 32 == 31 && (2 * t) % 2 == 0);
        assert(q / 32 == 2 * t + 1 && q % 32 == 0 && (2 * t + 1) % 2 == 1);
        self.lemma_mark(rows, pubs, r, 13 + self.n_tiles);
        self.lemma_mark(rows, pubs, q, 12 + self.n_tiles);
        vstd::arithmetic::div_mod::lemma_small_mod(q as nat, h as nat);
        lemma_vanish_flat(4, self.f_digest_out(), w);
        lemma_vanish_flat(4, self.f_root_in(), v);
        let got = lanes_at(rows[q], 0);
        let want = paired(digest_at(rows[q], AF_ROOT as int), digest_at(rows[r], 0));
        assert forall|k: int| 0 <= k < 4 implies got[k] == want[k] && #[trigger] got[4 + k] == want[4 + k] by {
            assert(vanish(self.f_digest_out()(k), w));
            assert(vanish(self.f_root_in()(k), v));
            let out = self.f_digest_out()(k);
            let inn = self.f_root_in()(k);
            assert(value(out[0], w) == 0 && value(inn[0], v) == 0);
            let sk = w_per(13 + self.n_tiles);
            let d = w_minus(w_nxt(4 + k), w_cur(k));
            lemma_masked(sk, d, w);
            lemma_op_values(w_nxt(4 + k), w_cur(k), w);
            lemma_leaf_values(4 + k, w);
            lemma_leaf_values(k, w);
            lemma_canonical_difference(f_red(w.nxt[4 + k] as int), f_red(w.cur[k] as int));
            lemma_gated_equation(w_per(12 + self.n_tiles), w_cur(k), w_cur(AF_ROOT + k), v);
            lemma_leaf_values(k, v);
            lemma_leaf_values(AF_ROOT + k, v);
        }
        assert forall|i: int| 0 <= i < 8 implies got[i] == want[i] by {
            if i < 4 {
                assert(got[4 + i] == want[4 + i]);
            } else {
                assert(got[4 + (i - 4)] == want[4 + (i - 4)]);
            }
        }
        assert(got =~= want);
    }

    /// The running root is held but at the end of a root block, where it takes the block's output.
    proof fn lemma_root_moves(&self, rows: Seq<Seq<u64>>, pubs: Seq<u64>, r: int)
        requires
            self.wf(),
            self.satisfied(rows, pubs),
            self.canonical(pubs),
            0 <= r < self.s_height() - 1,
        ensures
            digest_at(rows[r + 1], AF_ROOT as int) == (if self.marks(14 + self.n_tiles, r) {
                digest_at(rows[r], 0)
            } else {
                digest_at(rows[r], AF_ROOT as int)
            }),
    {
        let h = self.s_height();
        let w = self.window_at(rows, pubs, r);
        let on = w_per(14 + self.n_tiles);
        let off = w_minus(w_const(1), on);
        self.lemma_families(w);
        self.lemma_mark(rows, pubs, r, 14 + self.n_tiles);
        vstd::arithmetic::div_mod::lemma_small_mod((r + 1) as nat, h as nat);
        lemma_vanish_flat(4, self.f_root_hold(), w);
        lemma_const_value(1, w);
        lemma_op_values(w_const(1), on, w);
        let got = digest_at(rows[r + 1], AF_ROOT as int);
        let want = if self.marks(14 + self.n_tiles, r) {
            digest_at(rows[r], 0)
        } else {
            digest_at(rows[r], AF_ROOT as int)
        };
        assert forall|k: int| 0 <= k < 4 implies #[trigger] got[k] == want[k] by {
            assert(vanish(self.f_root_hold()(k), w));
            let cs = self.f_root_hold()(k);
            assert(value(cs[0], w) == 0 && value(cs[1], w) == 0);
            let (a, b, c) = (w_nxt(AF_ROOT + k), w_cur(AF_ROOT + k), w_cur(k));
            lemma_leaf_values(AF_ROOT + k, w);
            lemma_leaf_values(k, w);
            lemma_op_values(a, b, w);
            lemma_op_values(a, c, w);
            if self.marks(14 + self.n_tiles, r) {
                lemma_masked(on, w_minus(a, c), w);
                lemma_canonical_difference(value(a, w), value(c, w));
            } else {
                lemma_masked(off, w_minus(a, b), w);
                lemma_canonical_difference(value(a, w), value(b, w));
            }
        }
        assert(got =~= want);
    }

    /// Within a tile the running root is held.
    proof fn lemma_root_held(&self, rows: Seq<Seq<u64>>, pubs: Seq<u64>, t: int, r: int)
        requires
            self.wf(),
            self.satisfied(rows, pubs),
            self.canonical(pubs),
            0 <= t < self.n_tiles,
            64 * self.n_tiles <= self.s_height(),
            64 * t <= r < 64 * t + 64,
        ensures
            digest_at(rows[r], AF_ROOT as int) == digest_at(rows[64 * t], AF_ROOT as int),
        decreases r,
    {
        if r > 64 * t {
            let q = r - 1;
            self.lemma_root_held(rows, pubs, t, q);
            if q < 64 * t + 32 {
                assert(q / 32 == 2 * t && (2 * t) % 2 == 0);
            } else {
                assert(q / 32 == 2 * t + 1 && q % 32 == q - 64 * t - 32);
            }
            assert(!self.marks(14 + self.n_tiles, q));
            self.lemma_root_moves(rows, pubs, q);
        }
    }

    /// The running root starts at zero.
    proof fn lemma_root_starts(&self, rows: Seq<Seq<u64>>, pubs: Seq<u64>)
        requires
            self.wf(),
            self.satisfied(rows, pubs),
            self.canonical(pubs),
            0 < self.s_height(),
        ensures
            digest_at(rows[0], AF_ROOT as int) == rows_root(self.dom, pubs, 0),
    {
        let w = self.window_at(rows, pubs, 0);
        let first: Wire = std::sync::Arc::new(Expr::IsFirstRow);
        assert(value(first, w) == 1);
        self.lemma_families(w);
        lemma_vanish_flat(4, self.f_root_start(), w);
        let (got, want) = (digest_at(rows[0], AF_ROOT as int), rows_root(self.dom, pubs, 0));
        assert forall|k: int| 0 <= k < 4 implies #[trigger] got[k] == want[k] by {
            assert(vanish(self.f_root_start()(k), w));
            let cs = self.f_root_start()(k);
            assert(value(cs[0], w) == 0);
            assert(cs[0] == w_times(first, w_cur(AF_ROOT + k)));
            lemma_open_cell(first, AF_ROOT + k, w);
        }
        assert(got =~= want);
    }

    /// A tile takes the root behind its statement.
    proof fn lemma_tile(&self, rows: Seq<Seq<u64>>, pubs: Seq<u64>, t: int)
        requires
            self.wf(),
            self.satisfied(rows, pubs),
            self.canonical(pubs),
            0 <= t < self.n_tiles,
            64 * self.n_tiles <= self.s_height(),
            digest_at(rows[64 * t], AF_ROOT as int) == rows_root(self.dom, pubs, t as nat),
        ensures
            digest_at(rows[64 * t + 63], 0) == rows_root(self.dom, pubs, (t + 1) as nat),
            64 * t + 64 < self.s_height() ==> digest_at(rows[64 * t + 64], AF_ROOT as int) == rows_root(
                self.dom,
                pubs,
                (t + 1) as nat,
            ),
    {
        self.lemma_seeded(rows, pubs, t);
        self.lemma_block_runs(rows, pubs, 2 * t);
        let digest = rows_digest(self.dom, pubs[t]);
        lemma_head_lanes(rows[64 * t + 31]);
        assert(digest_at(rows[64 * t + 31], 0) == digest);
        self.lemma_root_block(rows, pubs, t);
        self.lemma_root_held(rows, pubs, t, 64 * t + 32);
        self.lemma_block_runs(rows, pubs, 2 * t + 1);
        assert(32 * (2 * t + 1) == 64 * t + 32);
        lemma_head_lanes(rows[64 * t + 63]);
        assert(((t + 1) as nat - 1) as nat == t as nat);
        if 64 * t + 64 < self.s_height() {
            let r = 64 * t + 63;
            assert(r / 32 == 2 * t + 1 && (2 * t + 1) % 2 == 1 && r % 32 == 31);
            self.lemma_root_moves(rows, pubs, r);
        }
    }

    /// The running root before tile `t`.
    proof fn lemma_root_reaches(&self, rows: Seq<Seq<u64>>, pubs: Seq<u64>, t: int)
        requires
            self.wf(),
            self.satisfied(rows, pubs),
            self.canonical(pubs),
            0 <= t < self.n_tiles,
            64 * self.n_tiles <= self.s_height(),
        ensures
            digest_at(rows[64 * t], AF_ROOT as int) == rows_root(self.dom, pubs, t as nat),
        decreases t,
    {
        if t == 0 {
            self.lemma_root_starts(rows, pubs);
        } else {
            self.lemma_root_reaches(rows, pubs, t - 1);
            self.lemma_tile(rows, pubs, t - 1);
        }
    }

    /// Where the constraints vanish on every row of a trace, the public root is the fold of the public statements by the
    /// rows of the permutation: digest by digest, from zero on.
    pub proof fn law_trace_proves_root(&self, rows: Seq<Seq<u64>>, pubs: Seq<u64>)
        requires
            self.wf(),
            self.satisfied(rows, pubs),
            self.canonical(pubs),
        ensures
            pubs.subrange(self.n_tiles as int, self.n_tiles + 4) == rows_root(self.dom, pubs, self.n_tiles as nat),
    {
        crate::bits::lemma_next_pow2((2 * self.n_tiles * BLOCK) as nat);
        let n = self.n_tiles as int;
        assert(64 * n <= self.s_height());
        self.lemma_root_reaches(rows, pubs, n - 1);
        self.lemma_tile(rows, pubs, n - 1);
        let r = 64 * n - 1;
        let w = self.window_at(rows, pubs, r);
        self.lemma_families(w);
        assert((2 * n - 1) * 32 + 31 == r);
        self.lemma_mark(rows, pubs, r, 15 + n);
        lemma_vanish_flat(4, self.f_root_out(), w);
        let (got, want) = (pubs.subrange(n, n + 4), digest_at(rows[r], 0));
        assert forall|k: int| 0 <= k < 4 implies #[trigger] got[k] == want[k] by {
            assert(vanish(self.f_root_out()(k), w));
            let cs = self.f_root_out()(k);
            assert(value(cs[0], w) == 0);
            lemma_gated_equation(w_per(15 + n), w_cur(k), w_pub(n + k), w);
            lemma_leaf_values(k, w);
            assert(value(w_pub(n + k), w) == f_red(pubs[n + k] as int));
        }
        assert(got =~= want);
    }
}

/// A root depends on the statements alone: the public statements of a trace, zeros past the end of a list among them,
/// have the root of the list.
pub proof fn law_root_of_statements(dom: u64, a: Seq<u64>, b: Seq<u64>, n: nat)
    requires
        forall|t: int| 0 <= t < n ==> #[trigger] statement_at(a, t) == statement_at(b, t),
    ensures
        rows_root(dom, a, n) == rows_root(dom, b, n),
    decreases n,
{
    if n > 0 {
        law_root_of_statements(dom, a, b, (n - 1) as nat);
        assert(statement_at(a, n - 1) == statement_at(b, n - 1));
    }
}

/// The first four lanes.
proof fn lemma_head_lanes(row: Seq<u64>)
    ensures
        digest_at(row, 0) == lanes_at(row, 0).subrange(0, 4),
{
    assert(digest_at(row, 0) =~= lanes_at(row, 0).subrange(0, 4));
}

/// A cell under a switch that is on.
proof fn lemma_open_cell(on: Wire, i: int, w: Window)
    requires
        0 <= i <= usize::MAX,
        value(on, w) == 1,
    ensures
        value(w_times(on, w_cur(i)), w) == f_red(w.cur[i] as int),
{
    lemma_leaf_values(i, w);
    lemma_op_values(on, w_cur(i), w);
    lemma_gates(f_red(w.cur[i] as int));
}

} // verus!
