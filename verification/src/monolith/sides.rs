//! The column of the sides in the built trace: off the heads of the super-tiles it holds bits.

use vstd::prelude::*;

use super::blocks::lemma_block_cell;
use super::grid::{
    bit_felt, block_written, cell, held, law_written_cell, leaf_written, opening_written, ordered, path_written, written,
};
use super::layout::{MonolithAir, M_INPUT_LEAF, QT_DBITS};
use super::reading::{lemma_chain_cell, lemma_chain_len, lemma_held_cell, lemma_in_rows, lemma_siblings};
use super::region::rows_are_eight;
use super::trace::{chain_written, deep_point, QueryData};
use crate::bits::div_up;
use crate::field::{f_red, Ext};
use crate::fri::merkle::contents;
use crate::fri::witness::climbed_by_bits;
use crate::gadgets::fold::coords;
use crate::poseidon::{absorbed, leaf_hash, sponge};

verus! {

/// The cell of row `r` in the column of the sides holds a bit.
pub open spec fn side_is_bit(g: Seq<u64>, w: int, r: int) -> bool {
    &&& 13 <= w
    &&& 0 <= r
    &&& r * w + 12 < g.len()
    &&& cell(g, w, r, 12) <= 1
}

proof fn lemma_block_side(g: Seq<u64>, w: int, row: int, input: Seq<u64>, tail: Seq<u64>, r: int)
    requires
        side_is_bit(g, w, r),
        input.len() == 8,
        tail.len() == 0 || (tail.len() == 5 && tail[4] <= 1),
    ensures
        side_is_bit(block_written(g, w, row, 0, input, tail, 32), w, r),
{
    lemma_block_cell(g, w, row, input, tail, 32, r, 12);
    if row <= r < row + 32 {
        crate::poseidon::lemma_block_row_len(input, (r - row) as nat);
    }
}

proof fn lemma_leaf_side(g: Seq<u64>, w: int, row: int, preimage: Seq<u64>, n: nat, r: int)
    requires
        side_is_bit(g, w, r),
    ensures
        side_is_bit(leaf_written(g, w, row, preimage, n), w, r),
    decreases n,
{
    if n > 0 {
        let m = (n - 1) as nat;
        lemma_leaf_side(g, w, row, preimage, m, r);
        lemma_block_side(
            leaf_written(g, w, row, preimage, m),
            w,
            row + 32 * (n - 1),
            absorbed(sponge(preimage, m), preimage, 4 * (n - 1)),
            Seq::empty(),
            r,
        );
    }
}

proof fn lemma_path_side(
    g: Seq<u64>,
    w: int,
    row: int,
    leaf: Seq<u64>,
    siblings: Seq<Seq<u64>>,
    bits: Seq<bool>,
    n: nat,
    r: int,
)
    requires
        side_is_bit(g, w, r),
        n <= siblings.len(),
        forall|i: int| 0 <= i < siblings.len() ==> (#[trigger] siblings[i]).len() == 4,
    ensures
        side_is_bit(path_written(g, w, row, leaf, siblings, bits, n), w, r),
    decreases n,
{
    if n > 0 {
        let m = (n - 1) as nat;
        lemma_path_side(g, w, row, leaf, siblings, bits, m, r);
        assert(siblings[m as int].len() == 4);
        lemma_block_side(
            path_written(g, w, row, leaf, siblings, bits, m),
            w,
            row + 32 * m,
            ordered(climbed_by_bits(leaf, siblings, bits, m), siblings[m as int], bits[m as int]),
            siblings[m as int] + seq![bit_felt(bits[m as int])],
            r,
        );
    }
}

proof fn lemma_opening_side(
    g: Seq<u64>,
    w: int,
    row: int,
    preimage: Seq<u64>,
    siblings: Seq<Seq<u64>>,
    bits: Seq<bool>,
    r: int,
)
    requires
        side_is_bit(g, w, r),
        forall|i: int| 0 <= i < siblings.len() ==> (#[trigger] siblings[i]).len() == 4,
    ensures
        side_is_bit(opening_written(g, w, row, preimage, siblings, bits), w, r),
{
    let n = div_up(preimage.len() as int, 4);
    lemma_leaf_side(g, w, row, preimage, n as nat, r);
    lemma_path_side(
        leaf_written(g, w, row, preimage, n as nat),
        w,
        row + 32 * n,
        leaf_hash(preimage),
        siblings,
        bits,
        siblings.len(),
        r,
    );
}

impl MonolithAir {
    proof fn lemma_commits_side(&self, g: Seq<u64>, w: int, row: int, q: QueryData, n: nat, r: int)
        requires
            self.query_fits(q),
            n <= self.s_cm_rounds(),
            side_is_bit(g, w, r),
        ensures
            side_is_bit(self.s_commits_written(g, w, row, q, n), w, r),
        decreases n,
    {
        if n > 0 {
            self.lemma_commits_side(g, w, row, q, (n - 1) as nat, r);
            let c = q.commits@[n - 1];
            assert(c.path.ok(self.s_cm_depth_r(n - 1)));
            lemma_siblings(c.path, self.s_cm_depth_r(n - 1));
            lemma_opening_side(
                self.s_commits_written(g, w, row, q, (n - 1) as nat),
                w,
                row + 32 * self.s_cm_leaf(n - 1),
                self.s_commit_preimage(q, n - 1),
                contents(c.path.siblings@),
                c.path.bits@,
                r,
            );
        }
    }

    proof fn lemma_openings_side(&self, g: Seq<u64>, w: int, row: int, q: QueryData, r: int)
        requires
            self.wf(),
            self.query_fits(q),
            side_is_bit(g, w, r),
        ensures
            side_is_bit(self.s_openings_written(g, w, row, q), w, r),
    {
        let first = row + 32 * M_INPUT_LEAF;
        let depth = self.s_input_depth();
        let g1 = match q.hiding {
            Some(hw) => opening_written(
                g,
                w,
                first,
                self.s_random_preimage(q),
                contents(hw.random_path.siblings@),
                hw.random_path.bits@,
            ),
            None => g,
        };
        if let Some(hw) = q.hiding {
            lemma_siblings(hw.random_path, depth);
            lemma_opening_side(
                g,
                w,
                first,
                self.s_random_preimage(q),
                contents(hw.random_path.siblings@),
                hw.random_path.bits@,
                r,
            );
        }
        let g2 = match q.aux_path {
            Some(p) => opening_written(g1, w, first, self.s_aux_preimage(q), contents(p.siblings@), p.bits@),
            None => g1,
        };
        if let Some(p) = q.aux_path {
            lemma_siblings(p, depth);
            lemma_opening_side(g1, w, first, self.s_aux_preimage(q), contents(p.siblings@), p.bits@, r);
        }
        let at3 = row + 32 * self.s_m_input_leaf();
        let g3 = opening_written(g2, w, at3, self.s_input_preimage(q), contents(q.path.siblings@), q.path.bits@);
        lemma_siblings(q.path, depth);
        lemma_siblings(q.quot_path, depth);
        lemma_opening_side(g2, w, at3, self.s_input_preimage(q), contents(q.path.siblings@), q.path.bits@, r);
        let at4 = row + 32 * self.s_m_quot_leaf();
        let quot = self.s_quot_preimage(q, self.s_nqc() as nat);
        let g4 = opening_written(g3, w, at4, quot, contents(q.quot_path.siblings@), q.quot_path.bits@);
        lemma_opening_side(g3, w, at4, quot, contents(q.quot_path.siblings@), q.quot_path.bits@, r);
        self.lemma_commits_side(g4, w, row, q, self.s_cm_rounds() as nat, r);
    }

    proof fn lemma_tile_side(&self, g: Seq<u64>, w: int, row: int, q: QueryData, r: int)
        requires
            self.buildable(),
            self.query_fits(q),
            self.carriers_fill(q),
            w == self.s_fused_w(),
            r != row,
            side_is_bit(g, w, r),
        ensures
            side_is_bit(self.s_tile_written(g, w, row, q), w, r),
    {
        let v = f_red(q.felt as int) as nat;
        let n = (self.s_cm_rounds() + 1) as nat;
        let g1 = chain_written(g, w, row, q.ro, q.rounds@, n);
        let head = self.s_head_cells(q);
        let g2 = written(g1, w, row, QT_DBITS as int, head);
        let g3 = self.s_rem_written(g2, w, row, v, (self.s_nb() - 2) as nat);
        let g4 = self.s_openings_written(g3, w, row, q);
        self.lemma_bounds();
        self.lemma_terms();
        self.lemma_terms_len(
            q.terms@,
            deep_point(q.index as nat, self.s_lg() as nat),
            q.alpha,
            q.terms@.len(),
        );
        assert(QT_DBITS + head.len() == self.s_idx_rem());
        lemma_chain_cell(g, w, row, q.ro, q.rounds@, n, r, 12);
        lemma_chain_len(q.ro, q.rounds@, (r - row) as nat);
        law_written_cell(g1, w, row, QT_DBITS as int, head, r, 12);
        self.lemma_rem_cell(g2, w, row, v, (self.s_nb() - 2) as nat, r, 12);
        assert(side_is_bit(g3, w, r));
        self.lemma_openings_side(g3, w, row, q, r);
        lemma_held_cell(g4, w, row, self.s_m_period() as nat, self.s_ov(), self.s_carrier_cells(q), r, 12);
    }

    proof fn lemma_tiles_side(&self, g: Seq<u64>, qs: Seq<QueryData>, n: nat, r: int)
        requires
            self.buildable(),
            forall|k: int| 0 <= k < n ==> self.query_fits(#[trigger] qs[k]) && self.carriers_fill(qs[k]),
            n <= qs.len(),
            forall|k: int| 0 <= k < n ==> r != #[trigger] self.s_tile(k),
            side_is_bit(g, self.s_fused_w(), r),
        ensures
            side_is_bit(self.s_tiles_written(g, self.s_fused_w(), qs, n), self.s_fused_w(), r),
        decreases n,
    {
        if n > 0 {
            let m = (n - 1) as nat;
            self.lemma_tiles_side(g, qs, m, r);
            assert(self.query_fits(qs[n - 1]) && self.carriers_fill(qs[n - 1]));
            assert(r != self.s_tile(n - 1));
            self.lemma_tile_side(
                self.s_tiles_written(g, self.s_fused_w(), qs, m),
                self.s_fused_w(),
                self.s_tile(n - 1),
                qs[n - 1],
                r,
            );
        }
    }

    /// Off the heads of the super-tiles the column of the sides holds bits.
    #[verifier::spinoff_prover]
    #[verifier::rlimit(40)]
    pub(super) proof fn lemma_side_bits(
        &self,
        blocks: Seq<Seq<u64>>,
        qs: Seq<QueryData>,
        alpha: Ext,
        window: Seq<u64>,
        r: int,
    )
        requires
            self.lays_out(blocks, qs, window),
            rows_are_eight(*self, blocks),
            0 <= r < self.s_height(),
            forall|k: int| 0 <= k < qs.len() ==> r != #[trigger] self.s_tile(k),
        ensures
            cell(self.s_trace(blocks, qs, alpha, window), self.s_fused_w(), r, 12) <= 1,
    {
        let (h, w) = (self.s_height(), self.s_fused_w());
        let g0 = Seq::new((h * w) as nat, |i: int| 0u64);
        let g1 = self.s_transcript_written(g0, w, blocks, self.s_tr() as nat);
        let g2 = self.s_tiles_written(g1, w, qs, qs.len());
        let g3 = held(g2, w, 0, h as nat, self.s_carry(), coords(alpha));
        self.lemma_bounds();
        self.lemma_terms();
        assert(0 <= qs.len() * self.s_m_period()) by (nonlinear_arith)
            requires
                0 <= self.s_m_period(),
        ;
        lemma_in_rows(h, w, r, 12);
        self.lemma_transcript_cell(g0, w, blocks, self.s_tr() as nat, r, 12);
        assert(g0[r * w + 12] == 0);
        assert(cell(g0, w, r, 12) == 0);
        assert(side_is_bit(g1, w, r));
        self.lemma_tiles_side(g1, qs, qs.len(), r);
        lemma_held_cell(g2, w, 0, h as nat, self.s_carry(), coords(alpha), r, 12);
        if self.column_window {
            let z = 2 * self.s_nlc() + 2;
            let zeta = Ext { c0: window[z], c1: window[z + 1] };
            let vs = window + self.s_squares(zeta, self.s_cm_rounds() as nat);
            self.lemma_squares_len(zeta, self.s_cm_rounds() as nat);
            lemma_held_cell(g3, w, 0, h as nat, self.s_pw_base(), vs, r, 12);
        }
    }
}

} // verus!
