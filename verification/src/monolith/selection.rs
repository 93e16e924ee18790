//! The periodic columns on the rows of a super-tile, and the constraints that a row of a built super-tile satisfies.

use vstd::prelude::*;

use super::feeds::{
    aux_shared, group_ordered, law_built_commit_leaf, law_built_group, law_built_opened_row, law_built_quotient_row, row_shared,
};
use super::layout::MonolithAir;
use super::leaves::{leaf_selected, mark};
use super::reading::row_at;
use super::tiles::{law_built_caps_held, law_built_terminals, tile_built};
use super::trace::QueryData;
use crate::expr::Window;
use crate::vanish::{lemma_vanish_flat, vanish};

verus! {

/// The window shows the selector columns of row `row` of an instance.
pub open spec fn shows_selectors(air: MonolithAir, win: Window, row: int) -> bool {
    forall|j: int|
        14 <= j < air.s_p_inst_first() ==> #[trigger] win.periodic[j] == mark(air.selector(j, row))
}

impl MonolithAir {
    /// A row of a super-tile stands `off` rows into one exactly if that is its place.
    pub(super) proof fn lemma_on_tile(&self, t: int, r: int, off: int)
        requires
            self.wf(),
            0 <= t < self.n_queries,
            0 <= r < self.s_m_period(),
            0 <= off < self.s_m_period(),
        ensures
            self.on_tiles(self.s_tile(t) + r, off) <==> r == off,
    {
        let (row, mp) = (self.s_tile(t) + r, self.s_m_period());
        if r == off {
            assert(row == self.s_tile(t) + off);
        }
        if self.on_tiles(row, off) {
            let q = choose|q: int| 0 <= q < self.n_queries && row == #[trigger] self.s_tile(q) + off;
            let x = row - self.s_tr();
            vstd::arithmetic::div_mod::lemma_fundamental_div_mod_converse(x, mp, q, off);
            vstd::arithmetic::div_mod::lemma_fundamental_div_mod_converse(x, mp, t, r);
        }
    }

    /// The boundaries inside a leaf of `n` blocks from block `head` on.
    pub(super) proof fn lemma_on_boundary(&self, t: int, r: int, head: int, n: int)
        requires
            self.wf(),
            0 <= t < self.n_queries,
            0 <= head,
            1 <= n,
            32 * (head + n) <= self.s_m_period(),
            32 * head <= r < self.s_m_period(),
        ensures
            self.at_boundary(self.s_tile(t) + r, head, n) <==> r % 32 == 31 && r - 32 * head < 32 * (n - 1),
    {
        let row = self.s_tile(t) + r;
        if self.at_boundary(row, head, n) {
            let b = choose|b: int| 1 <= b < n && #[trigger] self.at_end(row, head + b - 1);
            self.lemma_on_tile(t, r, (head + b - 1) * 32 + 31);
        }
        if r % 32 == 31 && r - 32 * head < 32 * (n - 1) {
            let b = r / 32 - head + 1;
            self.lemma_on_tile(t, r, (head + b - 1) * 32 + 31);
            assert(self.at_end(row, head + b - 1));
        }
    }

    /// On row `r` of a super-tile the selector columns mark the places of the layout: its head and last row, the fold
    /// rows, the heads of the commit leaves, and the terminals.
    pub proof fn law_tile_selectors(&self, win: Window, t: int, r: int, k: int)
        requires
            self.wf(),
            shows_selectors(*self, win, self.s_tile(t) + r),
            0 <= t < self.n_queries,
            0 <= r < self.s_m_period(),
            0 <= k < self.s_cm_rounds(),
            self.s_cm_rounds() <= self.s_m_period(),
        ensures
            win.periodic[self.s_m_tf()] == mark(r == 0),
            win.periodic[self.s_p_st_last()] == mark(r == self.s_m_period() - 1),
            win.periodic[self.s_p_round(k)] == mark(r == k),
            win.periodic[self.s_c_leaf(k)] == mark(r == 32 * self.s_cm_leaf(k)),
            win.periodic[self.s_m_term()] == mark(r == 32 * self.s_m_input_term() + 31),
            win.periodic[self.s_q_term()] == mark(r == 32 * self.s_m_quot_term() + 31),
            win.periodic[self.s_m_leaf()] == mark(r == 32 * self.s_m_input_leaf()),
            win.periodic[self.s_q_leaf()] == mark(r == 32 * self.s_m_quot_leaf()),
            self.s_num_periodic_columns() <= usize::MAX,
            0 <= self.s_m_tf() <= usize::MAX,
            0 <= self.s_p_st_last() <= usize::MAX,
            0 <= self.s_p_round(k) <= usize::MAX,
            0 <= self.s_c_leaf(k) <= usize::MAX,
            0 <= self.s_m_term() <= usize::MAX,
            0 <= self.s_q_term() <= usize::MAX,
    {
        let row = self.s_tile(t) + r;
        self.lemma_bounds();
        self.lemma_openings_fit();
        self.lemma_cm_leaf_bound(k as nat);
        self.lemma_rounds_monotone(0, k);
        self.law_selector_roles(row, k, t);
        self.lemma_on_tile(t, r, 0);
        self.lemma_on_tile(t, r, self.s_m_period() - 1);
        self.lemma_on_tile(t, r, k);
        self.lemma_on_tile(t, r, self.s_cm_leaf(k) * 32);
        self.lemma_on_tile(t, r, self.s_m_input_term() * 32 + 31);
        self.lemma_on_tile(t, r, self.s_m_quot_term() * 32 + 31);
        self.lemma_on_tile(t, r, self.s_m_input_leaf() * 32);
        self.lemma_on_tile(t, r, self.s_m_quot_leaf() * 32);
    }
}

impl MonolithAir {
    /// The selectors of the trace leaf on its row `r` mark its blocks and boundaries.
    #[verifier::spinoff_prover]
    #[verifier::rlimit(40)]
    pub proof fn law_trace_leaf_selected(&self, win: Window, t: int, r: int)
        requires
            self.wf(),
            0 <= t < self.n_queries,
            0 <= r < 32 * self.s_leaf_blocks(),
            shows_selectors(*self, win, self.s_tile(t) + (32 * self.s_m_input_leaf() + r)),
            self.s_cm_rounds() <= self.s_m_period(),
        ensures
            leaf_selected(win, self.s_m_leaf(), self.s_leaf_absorb_base(), self.s_input_leaf_felts(), r),
            0 <= self.s_m_leaf() <= usize::MAX,
            0 <= self.s_leaf_absorb_base(),
            self.s_leaf_blocks() > 1 ==> self.s_leaf_absorb_base() + self.s_leaf_blocks() <= usize::MAX,
    {
        let (head, n) = (self.s_m_input_leaf(), self.s_leaf_blocks());
        let base = self.s_leaf_absorb_base();
        let at = 32 * head + r;
        let row = self.s_tile(t) + at;
        self.lemma_bounds();
        self.lemma_openings_fit();
        self.law_tile_selectors(win, t, at, 0);
        self.law_selector_roles(row, 0, t);
        assert forall|b: int| 1 <= b < n implies #[trigger] win.periodic[base + b - 1] == mark(r == 32 * b) by {
            self.lemma_on_tile(t, at, (head + b) * 32);
            assert(self.selector(base + b - 1, row) == self.at_head(row, head + b));
        }
        if n > 1 {
            self.lemma_on_boundary(t, at, head, n);
            assert(self.selector(base + n - 1, row) == self.at_boundary(row, head, n));
            assert(at % 32 == r % 32);
            if self.s_input_leaf_felts() % 4 != 0 {
                self.lemma_on_tile(t, at, (head + n - 2) * 32 + 31);
                assert(self.selector(base + n, row) == self.at_end(row, head + n - 2));
            }
        }
    }

    /// The selectors of the quotient leaf on its row `r` mark its blocks and boundaries.
    #[verifier::spinoff_prover]
    #[verifier::rlimit(40)]
    pub proof fn law_quotient_leaf_selected(&self, win: Window, t: int, r: int)
        requires
            self.wf(),
            0 <= t < self.n_queries,
            0 <= r < 32 * self.s_quot_leaf_blocks(),
            shows_selectors(*self, win, self.s_tile(t) + (32 * self.s_m_quot_leaf() + r)),
            self.s_cm_rounds() <= self.s_m_period(),
        ensures
            leaf_selected(win, self.s_q_leaf(), self.s_quot_absorb_base(), self.s_quot_leaf_felts(), r),
            0 <= self.s_q_leaf() <= usize::MAX,
            0 <= self.s_quot_absorb_base(),
            self.s_quot_leaf_blocks() > 1 ==> self.s_quot_absorb_base() + self.s_quot_leaf_blocks() <= usize::MAX,
    {
        let (head, n) = (self.s_m_quot_leaf(), self.s_quot_leaf_blocks());
        let base = self.s_quot_absorb_base();
        let at = 32 * head + r;
        let row = self.s_tile(t) + at;
        self.lemma_bounds();
        self.lemma_openings_fit();
        self.law_tile_selectors(win, t, at, 0);
        self.law_selector_roles(row, 0, t);
        assert forall|b: int| 1 <= b < n implies #[trigger] win.periodic[base + b - 1] == mark(r == 32 * b) by {
            self.lemma_on_tile(t, at, (head + b) * 32);
            assert(self.selector(base + b - 1, row) == self.at_head(row, head + b));
        }
        if n > 1 {
            self.lemma_on_boundary(t, at, head, n);
            assert(self.selector(base + n - 1, row) == self.at_boundary(row, head, n));
            assert(at % 32 == r % 32);
            if self.s_quot_leaf_felts() % 4 != 0 {
                self.lemma_on_tile(t, at, (head + n - 2) * 32 + 31);
                assert(self.selector(base + n, row) == self.at_end(row, head + n - 2));
            }
        }
    }
}

/// What a query's data must satisfy beside its shape: the terms of a column share the queried value, and each fold group
/// is the running value with its sibling.
pub open spec fn data_agrees(air: MonolithAir, q: QueryData) -> bool {
    &&& row_shared(air, q)
    &&& air.s_is_lookup() ==> aux_shared(air, q)
    &&& forall|k: int| 0 <= k < air.s_cm_rounds() ==> #[trigger] group_ordered(q, k)
}

/// On every row of a built super-tile whose data agrees, with the selector columns of that row, the constraints on the
/// opened rows, the quotient row, the fold groups and the commit leaves vanish, and with whole caps those on the
/// terminals and the held cap entries.
#[verifier::spinoff_prover]
#[verifier::rlimit(60)]
pub proof fn law_built_tile_row(air: MonolithAir, g: Seq<u64>, t: int, q: QueryData, r: int, win: Window)
    requires
        air.buildable(),
        0 <= t < air.n_queries,
        tile_built(air, g, air.s_tile(t), q),
        data_agrees(air, q),
        air.s_cm_rounds() < 32,
        0 <= r < air.s_m_period(),
        win.cur == row_at(g, air.s_fold_w(), air.s_tile(t) + r),
        r < air.s_m_period() - 1 ==> win.nxt == row_at(g, air.s_fold_w(), air.s_tile(t) + r + 1),
        shows_selectors(air, win, air.s_tile(t) + r),
    ensures
        vanish(air.all_opened_row(), win),
        vanish(air.all_quot_row(), win),
        vanish(air.all_group(), win),
        vanish(air.all_commit_leaf(), win),
        air.s_full_cap() ==> vanish(air.s_term_caps(), win) && vanish(air.all_cap_hold(), win),
{
    let row = air.s_tile(t);
    let n = air.s_cm_rounds();
    air.lemma_bounds();
    air.lemma_openings_fit();
    air.law_tile_selectors(win, t, r, 0);
    law_built_opened_row(air, g, row, q, r, win);
    law_built_quotient_row(air, g, row, q, r, win);
    assert forall|k: int| 0 <= k < n implies vanish(#[trigger] air.f_group()(k), win) by {
        air.law_tile_selectors(win, t, r, k);
        assert(group_ordered(q, k));
        law_built_group(air, g, row, q, k, r, win);
    }
    lemma_vanish_flat(n, air.f_group(), win);
    assert forall|k: int| 0 <= k < n implies vanish(#[trigger] air.f_commit_leaf()(k), win) by {
        air.law_tile_selectors(win, t, r, k);
        law_built_commit_leaf(air, g, row, q, k, r, win);
    }
    lemma_vanish_flat(n, air.f_commit_leaf(), win);
    if air.s_full_cap() {
        law_built_terminals(air, g, row, q, r, win);
        law_built_caps_held(air, g, row, q, r, win);
    }
}

} // verus!
