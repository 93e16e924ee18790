//! What the constraints of the leaf hash say of a whole trace: where they vanish on every row, the public leaf is the
//! hash of the public felts.

use vstd::prelude::*;

use super::leaf::GeneralLeafHashAir;
use crate::emit::flat;
use crate::expr::{
    value, w_cur, w_minus, w_nxt, w_on_first, w_per, w_pub, w_times, Expr, Window, Wire,
};
use crate::field::{f_red, MODULUS};
use crate::monolith::arith::plain_steps;
use crate::monolith::eval::f_lane_carry;
use crate::monolith::layout::BLOCK;
use crate::monolith::meaning::{at_step, lanes_at, law_block_runs, lemma_masked};
use crate::poseidon::{absorbed, block_last, rows_leaf, rows_sponge, schedule};
use crate::vanish::{
    lemma_canonical_difference, lemma_gated_equation, lemma_gates, lemma_leaf_values, lemma_op_values,
    lemma_vanish_flat, lemma_vanish_parts, vanish,
};

verus! {

impl GeneralLeafHashAir {
    /// The window that row `r` of a trace opens.
    pub open spec fn window_at(&self, rows: Seq<Seq<u64>>, pubs: Seq<u64>, r: int) -> Window {
        let h = self.s_height();
        Window {
            cur: rows[r],
            nxt: rows[(r + 1) % h],
            periodic: Seq::new(
                self.s_num_periodic_columns() as nat,
                |j: int| self.column(j)[r % (self.column(j).len() as int)],
            ),
            publics: pubs,
            is_first: if r == 0 {
                1
            } else {
                0
            },
            is_last: if r == h - 1 {
                1
            } else {
                0
            },
            is_transition: if r == h - 1 {
                0
            } else {
                1
            },
        }
    }

    /// A trace on which every constraint vanishes, over canonical public values.
    pub open spec fn satisfied(&self, rows: Seq<Seq<u64>>, pubs: Seq<u64>) -> bool {
        &&& rows.len() == self.s_height()
        &&& pubs.len() == self.n_felts + 4
        &&& forall|i: int| 0 <= i < pubs.len() ==> #[trigger] pubs[i] < MODULUS
        &&& forall|r: int| 0 <= r < rows.len() ==> vanish(self.s_eval(), #[trigger] self.window_at(rows, pubs, r))
    }

    /// The constraints of the first row.
    pub(crate) open spec fn first_wires(&self) -> Seq<Wire> {
        seq![
            w_on_first(w_minus(w_cur(0), w_pub(0))),
            w_on_first(w_minus(w_cur(1), w_pub(1))),
            w_on_first(w_minus(w_cur(2), w_pub(2))),
            w_on_first(w_minus(w_cur(3), w_pub(3))),
            w_on_first(w_cur(4)),
            w_on_first(w_cur(5)),
            w_on_first(w_cur(6)),
            w_on_first(w_cur(7)),
        ]
    }

    /// The constraints of a short last block.
    pub(crate) open spec fn short_wires(&self) -> Seq<Wire> {
        if self.s_rem() < 4 {
            flat(4 - self.s_rem(), f_lane_carry(12 + self.s_n_blocks(), self.s_rem()))
        } else {
            Seq::empty()
        }
    }

    /// The constraints of the last row.
    pub(crate) open spec fn last_wires(&self) -> Seq<Wire> {
        let n = self.n_felts as int;
        let term = w_per(11 + self.s_n_blocks());
        seq![
            w_times(term, w_minus(w_cur(0), w_pub(n))),
            w_times(term, w_minus(w_cur(1), w_pub(n + 1))),
            w_times(term, w_minus(w_cur(2), w_pub(n + 2))),
            w_times(term, w_minus(w_cur(3), w_pub(n + 3))),
        ]
    }

    /// The families of the constraints.
    proof fn lemma_families(&self, w: Window)
        requires
            vanish(self.s_eval(), w),
        ensures
            vanish(plain_steps(0), w),
            vanish(self.first_wires(), w),
            vanish(flat(self.n_felts - 4, self.f_absorb()), w),
            vanish(flat(4, f_lane_carry(11, 4)), w),
            vanish(self.short_wires(), w),
            vanish(self.last_wires(), w),
    {
        let (a, b, c) = (plain_steps(0), self.first_wires(), flat(self.n_felts - 4, self.f_absorb()));
        let (d, e, f) = (flat(4, f_lane_carry(11, 4)), self.short_wires(), self.last_wires());
        assert(self.s_eval() == a + b + c + d + e + f);
        lemma_vanish_parts(a + b + c + d + e, f, w);
        lemma_vanish_parts(a + b + c + d, e, w);
        lemma_vanish_parts(a + b + c, d, w);
        lemma_vanish_parts(a + b, c, w);
        lemma_vanish_parts(a, b, w);
    }

    /// The sizes of the layout.
    pub(crate) proof fn lemma_sizes(&self)
        requires
            self.wf(),
        ensures
            1 <= self.s_n_blocks(),
            4 * (self.s_n_blocks() - 1) < self.n_felts <= 4 * self.s_n_blocks(),
            1 <= self.s_rem() <= 4,
            32 * self.s_n_blocks() <= self.s_height(),
            self.s_num_periodic_columns() <= usize::MAX,
            self.s_rem() < 4 ==> self.s_n_blocks() >= 2,
    {
        crate::bits::lemma_next_pow2((self.s_n_blocks() * BLOCK) as nat);
    }

    /// A mark column at a row.
    pub(crate) proof fn lemma_mark(&self, rows: Seq<Seq<u64>>, pubs: Seq<u64>, r: int, j: int)
        requires
            self.wf(),
            0 <= r < self.s_height(),
            11 <= j < self.s_num_periodic_columns(),
        ensures
            value(w_per(j), self.window_at(rows, pubs, r)) == (if self.marks(j, r) {
                1u64
            } else {
                0u64
            }),
    {
        let w = self.window_at(rows, pubs, r);
        self.lemma_sizes();
        assert(self.column(j).len() == self.s_height());
        vstd::arithmetic::div_mod::lemma_small_mod(r as nat, self.s_height() as nat);
        assert(w.periodic[j] == self.column(j)[r]);
        lemma_leaf_values(j, w);
    }

    /// Every block but the padding runs the permutation.
    proof fn lemma_block_runs(&self, rows: Seq<Seq<u64>>, pubs: Seq<u64>, b: int)
        requires
            self.wf(),
            self.satisfied(rows, pubs),
            0 <= b < self.s_n_blocks(),
        ensures
            lanes_at(rows[32 * b + 31], 0) == block_last(lanes_at(rows[32 * b], 0)),
    {
        let h = self.s_height();
        self.lemma_sizes();
        let ws = Seq::new(32, |k: int| self.window_at(rows, pubs, 32 * b + k));
        assert forall|k: int| 0 <= k < 31 implies at_step(#[trigger] ws[k], k) && vanish(plain_steps(0), ws[k]) by {
            let r = 32 * b + k;
            let w = self.window_at(rows, pubs, r);
            self.lemma_families(w);
            assert forall|j: int| 0 <= j < 11 implies #[trigger] w.periodic[j] == schedule(j, k) by {
                assert(self.column(j).len() == 32);
                assert(r % 32 == k);
            }
        }
        assert forall|k: int| 0 <= k < 31 implies (#[trigger] ws[k]).nxt == ws[k + 1].cur by {
            let r = 32 * b + k;
            vstd::arithmetic::div_mod::lemma_small_mod((r + 1) as nat, h as nat);
        }
        law_block_runs(0, ws, 31);
        assert(ws[31].cur == rows[32 * b + 31] && ws[0].cur == rows[32 * b]);
        reveal(block_last);
    }

    /// The first block absorbs into an empty sponge.
    proof fn lemma_first_block(&self, rows: Seq<Seq<u64>>, pubs: Seq<u64>)
        requires
            self.wf(),
            self.satisfied(rows, pubs),
        ensures
            lanes_at(rows[0], 0) == absorbed(rows_sponge(pubs.take(self.n_felts as int), 0), pubs.take(self.n_felts as int), 0),
    {
        self.lemma_sizes();
        let w = self.window_at(rows, pubs, 0);
        let felts = pubs.take(self.n_felts as int);
        let first: Wire = std::sync::Arc::new(Expr::IsFirstRow);
        assert(value(first, w) == 1);
        self.lemma_families(w);
        let cs = self.first_wires();
        let (got, want) = (lanes_at(rows[0], 0), absorbed(rows_sponge(felts, 0), felts, 0));
        assert forall|i: int| 0 <= i < 8 implies #[trigger] got[i] == want[i] by {
            assert(value(cs[i], w) == 0);
            lemma_leaf_values(i, w);
            if i < 4 {
                assert(cs[i] == w_times(first, w_minus(w_cur(i), w_pub(i))));
                lemma_gated_equation(first, w_cur(i), w_pub(i), w);
                assert(value(w_pub(i), w) == f_red(pubs[i] as int));
                assert(felts[i] == pubs[i] && pubs[i] < MODULUS);
            } else {
                assert(cs[i] == w_times(first, w_cur(i)));
                lemma_op_values(first, w_cur(i), w);
                lemma_gates(f_red(w.cur[i] as int));
            }
        }
        assert(got =~= want);
    }

    /// A lane that carries over a row.
    proof fn lemma_lane_carries(&self, rows: Seq<Seq<u64>>, pubs: Seq<u64>, r: int, sel: int, from: int, n: int, i: int)
        requires
            self.wf(),
            0 <= r < self.s_height() - 1,
            11 <= sel < self.s_num_periodic_columns(),
            self.marks(sel, r),
            0 <= from,
            0 <= i < n,
            from + n <= 8,
            vanish(flat(n, f_lane_carry(sel, from)), self.window_at(rows, pubs, r)),
        ensures
            f_red(rows[r + 1][from + i] as int) == f_red(rows[r][from + i] as int),
    {
        let w = self.window_at(rows, pubs, r);
        let h = self.s_height();
        vstd::arithmetic::div_mod::lemma_small_mod((r + 1) as nat, h as nat);
        self.lemma_mark(rows, pubs, r, sel);
        lemma_vanish_flat(n, f_lane_carry(sel, from), w);
        assert(vanish(f_lane_carry(sel, from)(i), w));
        let cs = f_lane_carry(sel, from)(i);
        assert(value(cs[0], w) == 0);
        let (a, b) = (w_nxt(from + i), w_cur(from + i));
        lemma_masked(w_per(sel), w_minus(a, b), w);
        lemma_op_values(a, b, w);
        lemma_leaf_values(from + i, w);
        lemma_canonical_difference(value(a, w), value(b, w));
    }

    /// A later block overwrites the head of the rate and carries the rest.
    proof fn lemma_next_block(&self, rows: Seq<Seq<u64>>, pubs: Seq<u64>, b: int)
        requires
            self.wf(),
            self.satisfied(rows, pubs),
            1 <= b < self.s_n_blocks(),
        ensures
            lanes_at(rows[32 * b], 0) == absorbed(lanes_at(rows[32 * b - 1], 0), pubs.take(self.n_felts as int), 4 * b),
    {
        self.lemma_sizes();
        let (r, q) = (32 * b - 1, 32 * b);
        let (w, v) = (self.window_at(rows, pubs, r), self.window_at(rows, pubs, q));
        let felts = pubs.take(self.n_felts as int);
        let n = self.n_felts as int;
        self.lemma_families(w);
        self.lemma_families(v);
        assert(r % 32 == 31);
        assert(self.marks(11, r));
        let (got, want) = (lanes_at(rows[q], 0), absorbed(lanes_at(rows[r], 0), felts, 4 * b));
        assert forall|i: int| 0 <= i < 8 implies #[trigger] got[i] == want[i] by {
            if i >= 4 {
                self.lemma_lane_carries(rows, pubs, r, 11, 4, 4, i - 4);
            } else if 4 * b + i < n {
                let c = 4 * b + i - 4;
                assert((4 + c) / 4 == b && (4 + c) % 4 == i);
                self.lemma_mark(rows, pubs, q, 11 + b);
                lemma_vanish_flat(n - 4, self.f_absorb(), v);
                assert(vanish(self.f_absorb()(c), v));
                let cs = self.f_absorb()(c);
                assert(value(cs[0], v) == 0);
                lemma_gated_equation(w_per(11 + b), w_cur(i), w_pub(4 + c), v);
                lemma_leaf_values(i, v);
                assert(value(w_pub(4 + c), v) == f_red(pubs[4 + c] as int));
                assert(felts[4 * b + i] == pubs[4 * b + i] && pubs[4 * b + i] < MODULUS);
            } else {
                let rem = self.s_rem();
                assert(b == self.s_n_blocks() - 1);
                assert(rem <= i && rem < 4);
                assert(r == (self.s_n_blocks() - 2) * BLOCK + BLOCK - 1);
                self.lemma_lane_carries(rows, pubs, r, 12 + self.s_n_blocks(), rem, 4 - rem, i - rem);
            }
        }
        assert(got =~= want);
    }

    /// After block `b` the row holds the sponge state.
    proof fn lemma_sponge_reached(&self, rows: Seq<Seq<u64>>, pubs: Seq<u64>, b: int)
        requires
            self.wf(),
            self.satisfied(rows, pubs),
            0 <= b < self.s_n_blocks(),
        ensures
            lanes_at(rows[32 * b + 31], 0) == rows_sponge(pubs.take(self.n_felts as int), (b + 1) as nat),
        decreases b,
    {
        self.lemma_block_runs(rows, pubs, b);
        assert(((b + 1) as nat - 1) as nat == b as nat);
        if b == 0 {
            self.lemma_first_block(rows, pubs);
        } else {
            self.lemma_sponge_reached(rows, pubs, b - 1);
            self.lemma_next_block(rows, pubs, b);
            assert(32 * (b - 1) + 31 == 32 * b - 1);
        }
    }

    /// Where the constraints vanish on every row of a trace, the public leaf is the hash of the public felts, by the rows
    /// of the permutation.
    pub proof fn law_trace_proves_leaf(&self, rows: Seq<Seq<u64>>, pubs: Seq<u64>)
        requires
            self.wf(),
            self.satisfied(rows, pubs),
        ensures
            pubs.skip(self.n_felts as int) == rows_leaf(pubs.take(self.n_felts as int)),
    {
        self.lemma_sizes();
        let n = self.n_felts as int;
        let nb = self.s_n_blocks();
        let felts = pubs.take(n);
        self.lemma_sponge_reached(rows, pubs, nb - 1);
        let r = 32 * nb - 1;
        let w = self.window_at(rows, pubs, r);
        self.lemma_families(w);
        assert(r == (nb - 1) * BLOCK + BLOCK - 1);
        self.lemma_mark(rows, pubs, r, 11 + nb);
        let cs = self.last_wires();
        let (got, want) = (pubs.skip(n), rows_leaf(felts));
        assert forall|k: int| 0 <= k < 4 implies #[trigger] got[k] == want[k] by {
            assert(value(cs[k], w) == 0);
            assert(cs[k] == w_times(w_per(11 + nb), w_minus(w_cur(k), w_pub(n + k))));
            lemma_gated_equation(w_per(11 + nb), w_cur(k), w_pub(n + k), w);
            lemma_leaf_values(k, w);
            assert(value(w_pub(n + k), w) == f_red(pubs[n + k] as int));
            assert(pubs[n + k] < MODULUS);
            assert(lanes_at(rows[r], 0)[k] == f_red(rows[r][k] as int));
        }
        assert(want.len() == 4) by {
            assert(lanes_at(rows[r], 0).len() == 8);
        }
        assert(got =~= want);
    }
}

} // verus!
