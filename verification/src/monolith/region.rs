//! The transcript region of the built trace: its rows are those of the transcript's permutations, and satisfy the
//! permutation constraints.

use vstd::prelude::*;

use super::arith::steps;
use super::grid::{cell, held, law_written_cell};
use super::layout::MonolithAir;
use super::meaning::{at_step, lanes_at, law_steps_advance};
use super::paths::{lemma_next_of_reduced, reduced_lanes};
use super::reading::{lemma_held_cell, lemma_in_rows, row_at};
use super::trace::{transcript_input, transcript_row, QueryData};
use crate::expr::{value, Window, Wire};
use crate::field::Ext;
use crate::gadgets::fold::coords;
use crate::poseidon::block_row;
use crate::vanish::vanish;

verus! {

/// The first rows of a trace are those of the transcript's permutations.
pub open spec fn region_holds(air: MonolithAir, g: Seq<u64>, blocks: Seq<Seq<u64>>) -> bool {
    &&& rows_are_eight(air, blocks)
    &&& forall|r: int, c: int|
        0 <= r < air.s_tr() && 0 <= c < 8 ==> #[trigger] cell(g, air.s_fold_w(), r, c) == transcript_row(blocks, r)[c]
}

/// The rows of the transcript have eight lanes.
pub open spec fn rows_are_eight(air: MonolithAir, blocks: Seq<Seq<u64>>) -> bool {
    forall|r: int| 0 <= r < air.s_tr() ==> (#[trigger] transcript_row(blocks, r)).len() == 8
}

impl MonolithAir {
    /// A cell of the transcript region once it is written.
    pub(super) proof fn lemma_transcript_cell(&self, g: Seq<u64>, w: int, blocks: Seq<Seq<u64>>, n: nat, r: int, c: int)
        requires
            8 <= w,
            n <= self.s_tr(),
            rows_are_eight(*self, blocks),
            0 <= r,
            0 <= c < w,
            r * w + c < g.len(),
        ensures
            self.s_transcript_written(g, w, blocks, n).len() == g.len(),
            cell(self.s_transcript_written(g, w, blocks, n), w, r, c) == (if r < n && c < 8 {
                transcript_row(blocks, r)[c]
            } else {
                cell(g, w, r, c)
            }),
        decreases n,
    {
        if n > 0 {
            let m = (n - 1) as nat;
            self.lemma_transcript_cell(g, w, blocks, m, r, c);
            assert(transcript_row(blocks, m as int).len() == 8);
            law_written_cell(
                self.s_transcript_written(g, w, blocks, m),
                w,
                n - 1,
                0,
                transcript_row(blocks, n - 1),
                r,
                c,
            );
        }
    }

    /// The super-tiles leave the transcript region alone.
    proof fn lemma_tiles_keep(&self, g: Seq<u64>, qs: Seq<QueryData>, n: nat, r: int, c: int)
        requires
            self.buildable(),
            forall|k: int| 0 <= k < n ==> self.query_fits(#[trigger] qs[k]) && self.carriers_fill(qs[k]),
            n <= qs.len(),
            0 <= r < self.s_tr(),
            0 <= c < self.s_fused_w(),
            r * self.s_fused_w() + c < g.len(),
        ensures
            self.s_tiles_written(g, self.s_fused_w(), qs, n).len() == g.len(),
            cell(self.s_tiles_written(g, self.s_fused_w(), qs, n), self.s_fused_w(), r, c) == cell(
                g,
                self.s_fused_w(),
                r,
                c,
            ),
        decreases n,
    {
        if n > 0 {
            let (m, w) = ((n - 1) as nat, self.s_fused_w());
            self.lemma_tiles_keep(g, qs, m, r, c);
            assert(self.query_fits(qs[m as int]) && self.carriers_fill(qs[m as int]));
            self.lemma_bounds();
            assert(0 <= m * self.s_m_period()) by (nonlinear_arith)
                requires
                    0 <= m,
                    0 <= self.s_m_period(),
            ;
            self.lemma_tile_cell(self.s_tiles_written(g, w, qs, m), w, self.s_tile(m as int), qs[m as int], r, c);
        }
    }

    /// The transcript region stands in the trace.
    #[verifier::spinoff_prover]
    #[verifier::rlimit(40)]
    pub(super) proof fn lemma_region_holds(
        &self,
        blocks: Seq<Seq<u64>>,
        qs: Seq<QueryData>,
        alpha: Ext,
        window: Seq<u64>,
    )
        requires
            self.lays_out(blocks, qs, window),
            rows_are_eight(*self, blocks),
        ensures
            region_holds(*self, self.s_trace(blocks, qs, alpha, window), blocks),
    {
        let g = self.s_trace(blocks, qs, alpha, window);
        assert forall|r: int, c: int| 0 <= r < self.s_tr() && 0 <= c < 8 implies #[trigger] cell(
            g,
            self.s_fused_w(),
            r,
            c,
        ) == transcript_row(blocks, r)[c] by {
            self.lemma_region_cell(blocks, qs, alpha, window, r, c);
        }
    }

    #[verifier::spinoff_prover]
    #[verifier::rlimit(40)]
    proof fn lemma_region_cell(
        &self,
        blocks: Seq<Seq<u64>>,
        qs: Seq<QueryData>,
        alpha: Ext,
        window: Seq<u64>,
        r: int,
        c: int,
    )
        requires
            self.lays_out(blocks, qs, window),
            rows_are_eight(*self, blocks),
            0 <= r < self.s_tr(),
            0 <= c < 8,
        ensures
            cell(self.s_trace(blocks, qs, alpha, window), self.s_fused_w(), r, c) == transcript_row(blocks, r)[c],
    {
        let (h, w) = (self.s_height(), self.s_fused_w());
        let g0 = Seq::new((h * w) as nat, |i: int| 0u64);
        let g1 = self.s_transcript_written(g0, w, blocks, self.s_tr() as nat);
        let g2 = self.s_tiles_written(g1, w, qs, qs.len());
        let g3 = held(g2, w, 0, h as nat, self.s_carry(), coords(alpha));
        self.lemma_bounds();
        self.lemma_terms();
        assert(0 <= qs.len() * self.s_m_period()) by (nonlinear_arith)
            requires
                0 <= self.s_m_period(),
        ;
        lemma_in_rows(h, w, r, c);
        self.lemma_transcript_cell(g0, w, blocks, self.s_tr() as nat, r, c);
        self.lemma_tiles_keep(g1, qs, qs.len(), r, c);
        lemma_held_cell(g2, w, 0, h as nat, self.s_carry(), coords(alpha), r, c);
        if self.column_window {
            let z = 2 * self.s_nlc() + 2;
            let zeta = Ext { c0: window[z], c1: window[z + 1] };
            let vs = window + self.s_squares(zeta, self.s_cm_rounds() as nat);
            self.lemma_squares_len(zeta, self.s_cm_rounds() as nat);
            lemma_held_cell(g3, w, 0, h as nat, self.s_pw_base(), vs, r, c);
        }
    }
}

/// The lanes of a row of the transcript region.
pub(super) proof fn lemma_region_lanes(air: MonolithAir, g: Seq<u64>, blocks: Seq<Seq<u64>>, r: int)
    requires
        8 <= air.s_fold_w(),
        region_holds(air, g, blocks),
        0 <= r < air.s_tr(),
    ensures
        lanes_at(row_at(g, air.s_fold_w(), r), 0) == reduced_lanes(transcript_row(blocks, r)),
{
    let cells = row_at(g, air.s_fold_w(), r);
    let s = transcript_row(blocks, r);
    assert forall|i: int| 0 <= i < 8 implies #[trigger] cells[i] == s[i] by {
        assert(cell(g, air.s_fold_w(), r, i) == s[i]);
    }
    assert(lanes_at(cells, 0) =~= reduced_lanes(s));
}

/// On every row of the transcript region of a built trace, but the last of a block, the permutation constraints vanish.
pub proof fn law_built_transcript_steps(
    air: MonolithAir,
    g: Seq<u64>,
    blocks: Seq<Seq<u64>>,
    gate: Wire,
    win: Window,
    r: int,
)
    requires
        8 <= air.s_fold_w(),
        region_holds(air, g, blocks),
        0 <= r,
        r + 1 < air.s_tr(),
        r % 32 < 31,
        win.cur == row_at(g, air.s_fold_w(), r),
        win.nxt == row_at(g, air.s_fold_w(), r + 1),
        at_step(win, r % 32),
        value(gate, win) == 1,
    ensures
        vanish(steps(0, gate), win),
{
    let (b, t) = (r / 32, r % 32);
    let input = transcript_input(blocks, b as nat);
    assert((r + 1) / 32 == b && (r + 1) % 32 == t + 1);
    assert((32 * b) / 32 == b && (32 * b) % 32 == 0);
    assert(transcript_row(blocks, 32 * b).len() == 8);
    assert(block_row(input, 0) == input);
    lemma_region_lanes(air, g, blocks, r);
    lemma_region_lanes(air, g, blocks, r + 1);
    lemma_next_of_reduced(input, t as nat);
    assert((t + 1) as nat == t as nat + 1);
    law_steps_advance(0, gate, win, t);
}

} // verus!
