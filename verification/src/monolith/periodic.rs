//! The periodic columns of the fused verifier: the round schedule, the transcript schedule, and one selector
//! per role that a row can play in a super-tile, a fold or an instance.

use vstd::prelude::*;

use super::layout::{MonolithAir, BLOCK, FT_BIND_START, M_INPUT_LEAF, RATE};
use crate::poseidon::{periodic_table, schedule};

verus! {

/// A mark that keeps a block from continuing into a merge: the terminal of an opening, or a boundary inside a leaf.
#[derive(Clone, Copy, Debug, PartialEq, Eq, Structural)]
pub enum Exclusion {
    /// The end of the trace row's path.
    InputTerm,
    /// The end of the quotient row's path.
    QuotTerm,
    /// The end of a commit round's path.
    CommitTerm(usize),
    /// The end of the random row's path.
    RandomTerm,
    /// The end of the aux row's path.
    AuxTerm,
    /// Inside the trace leaf.
    InputBoundary,
    /// Inside the quotient leaf.
    QuotBoundary,
    /// Inside the random leaf.
    RandomBoundary,
    /// Inside the aux leaf.
    AuxBoundary,
    /// Inside a salted commit leaf.
    CommitBoundary,
}

/// The column of height `h` that is one where `f` holds and zero elsewhere.
pub open spec fn indicator(h: int, f: spec_fn(int) -> bool) -> Seq<u64> {
    Seq::new(
        h as nat,
        |row: int|
            if f(row) {
                1u64
            } else {
                0u64
            },
    )
}

impl MonolithAir {
    /// First row of super-tile `q` of an instance.
    pub open spec fn s_tile(&self, q: int) -> int {
        self.s_tr() + q * self.s_m_period()
    }

    /// The row stands `off` rows into a super-tile.
    pub open spec fn on_tiles(&self, row: int, off: int) -> bool {
        exists|q: int| 0 <= q < self.n_queries && row == #[trigger] self.s_tile(q) + off
    }

    /// The row lies in a super-tile, at least `from` rows in.
    pub open spec fn in_tile(&self, row: int, from: int) -> bool {
        exists|q: int|
            0 <= q < self.n_queries && (#[trigger] self.s_tile(q)) + from <= row < self.s_tile(q)
                + self.s_m_period()
    }

    /// The row heads block `blk` of a super-tile.
    pub open spec fn at_head(&self, row: int, blk: int) -> bool {
        self.on_tiles(row, blk * BLOCK)
    }

    /// The row ends block `blk` of a super-tile.
    pub open spec fn at_end(&self, row: int, blk: int) -> bool {
        self.on_tiles(row, blk * BLOCK + BLOCK - 1)
    }

    /// The row ends a block of a leaf that has `blocks` blocks from `head` on, other than the last.
    pub open spec fn at_boundary(&self, row: int, head: int, blocks: int) -> bool {
        exists|b: int| 1 <= b < blocks && #[trigger] self.at_end(row, head + b - 1)
    }

    /// The row ends the first block of a commit-phase leaf.
    pub open spec fn at_commit_boundary(&self, row: int) -> bool {
        exists|r: int| 0 <= r < self.s_cm_rounds() && self.at_end(row, #[trigger] self.s_cm_leaf(r))
    }

    /// Inputs absorbed by transcript block `b`.
    pub open spec fn s_count(&self, b: int) -> u64 {
        if b < self.counts@.len() {
            self.counts@[b] as u64
        } else {
            0
        }
    }

    /// Selectors of a leaf of several blocks: the heads of its later blocks, its inner boundaries, and the
    /// boundary into a last block that is short.
    pub open spec fn leaf_selector(&self, i: int, row: int, head: int, blocks: int) -> bool {
        if i < blocks - 1 {
            self.at_head(row, head + 1 + i)
        } else if i == blocks - 1 {
            self.at_boundary(row, head, blocks)
        } else {
            self.at_end(row, head + blocks - 2)
        }
    }

    /// Selectors of a round prepended to the trace opening: its leaf head, its terminal, then those of its
    /// leaf.
    pub open spec fn prepended_selector(&self, i: int, row: int, blocks: int, term: int) -> bool {
        if i == 0 {
            self.at_head(row, M_INPUT_LEAF as int)
        } else if i == 1 {
            self.at_end(row, term)
        } else {
            self.leaf_selector(i - 2, row, M_INPUT_LEAF as int, blocks)
        }
    }

    /// Super-tile selectors.
    pub open spec fn tile_selector(&self, i: int, row: int) -> bool {
        if i == 0 {
            self.on_tiles(row, 0)
        } else if i == 1 {
            self.on_tiles(row, self.s_cm_rounds())
        } else if i == 2 {
            self.at_head(row, self.s_m_input_leaf())
        } else if i == 3 {
            self.at_end(row, self.s_m_input_term())
        } else if i == 4 {
            row < self.s_tr()
        } else if i == 5 {
            self.in_tile(row, 0)
        } else if i == 6 {
            self.in_tile(row, BLOCK as int)
        } else if i == 7 {
            row < self.s_tr() - 1
        } else if i == 8 {
            self.on_tiles(row, self.s_m_period() - 1)
        } else if i == 9 {
            self.at_head(row, self.s_m_quot_leaf())
        } else {
            self.at_end(row, self.s_m_quot_term())
        }
    }

    /// Fold selectors: the fold rows, the first row of each statement block, the boundaries between them
    /// (for a statement of several chunks), the last statement row, the first and last row of the root block.
    pub open spec fn fold_selector(&self, i: int, row: int) -> bool {
        let fb = self.s_fold_sk_block();
        let n = self.s_n_sk_blocks();
        let tail = if self.fold_txstmt {
            i - (2 + n)
        } else {
            i - 2
        };
        if i == 0 {
            fb * BLOCK <= row < (fb + n + 1) * BLOCK
        } else if i < 1 + n {
            row == (fb + i - 1) * BLOCK
        } else if self.fold_txstmt && i == 1 + n {
            exists|b: int| 0 <= b < n - 1 && row == #[trigger] ((fb + b) * BLOCK) + BLOCK - 1
        } else if tail == 0 {
            row == (fb + n - 1) * BLOCK + BLOCK - 1
        } else if tail == 1 {
            row == (fb + n) * BLOCK
        } else {
            row == (fb + n) * BLOCK + BLOCK - 1
        }
    }

    /// The role that periodic column `j` marks on row `row` of an instance.
    pub open spec fn selector(&self, j: int, row: int) -> bool {
        if j < 12 {
            row % (BLOCK as int) == BLOCK - 1
        } else if j < FT_BIND_START {
            row < self.s_tr() && self.s_count(row / (BLOCK as int) + 1) == 0
        } else if j < FT_BIND_START + self.s_nb() {
            row == self.binds@[j - FT_BIND_START] * BLOCK + BLOCK - 1
        } else if j < self.s_p_round(0) {
            row == self.index_binds@[j - FT_BIND_START - self.s_nb()].0 * BLOCK + BLOCK - 1
        } else if j < self.s_p_query(0) {
            self.on_tiles(row, j - self.s_p_round(0))
        } else if j < self.s_m_base() {
            row == self.s_tile(j - self.s_p_query(0))
        } else if j < self.s_c_leaf(0) {
            self.tile_selector(j - self.s_m_base(), row)
        } else if j < self.s_c_term(0) {
            self.at_head(row, self.s_cm_leaf(j - self.s_c_leaf(0)))
        } else if j < self.s_leaf_absorb_base() {
            self.at_end(row, self.s_cm_term(j - self.s_c_term(0)))
        } else if j < self.s_quot_absorb_base() {
            self.leaf_selector(j - self.s_leaf_absorb_base(), row, self.s_m_input_leaf(), self.s_leaf_blocks())
        } else if j < self.s_fold_base() {
            self.leaf_selector(j - self.s_quot_absorb_base(), row, self.s_m_quot_leaf(), self.s_quot_leaf_blocks())
        } else if j < self.s_random_absorb_base() {
            self.fold_selector(j - self.s_fold_base(), row)
        } else if j < self.s_aux_absorb_base() {
            self.prepended_selector(
                j - self.s_random_absorb_base(),
                row,
                self.s_random_leaf_blocks(),
                self.s_m_random_term(),
            )
        } else if j < self.s_commit_absorb_base() {
            self.prepended_selector(j - self.s_aux_absorb_base(), row, self.s_aux_leaf_blocks(), self.s_m_aux_term())
        } else {
            self.at_commit_boundary(row)
        }
    }

    /// Periodic column `j` of one instance. The round schedule has the period of one block; the input counts
    /// are the only other columns that are no selector.
    #[verifier::opaque]
    pub open spec fn column(&self, j: int) -> Seq<u64> {
        if j < 11 {
            Seq::new(BLOCK as nat, |t: int| schedule(j, t))
        } else if j == 12 {
            Seq::new(
                self.s_inst_h() as nat,
                |row: int|
                    if row < self.s_tr() {
                        self.s_count(row / (BLOCK as int))
                    } else {
                        0
                    },
            )
        } else if j == 13 {
            Seq::new(
                self.s_inst_h() as nat,
                |row: int|
                    if row < self.s_tr() {
                        self.s_count(row / (BLOCK as int) + 1)
                    } else {
                        0
                    },
            )
        } else {
            indicator(self.s_inst_h(), |row: int| self.selector(j, row))
        }
    }

    /// The transcript binds and the fold stand inside an instance.
    pub open spec fn rows_fit(&self) -> bool {
        &&& forall|j: int|
            0 <= j < self.binds@.len() ==> (#[trigger] self.binds@[j]) * BLOCK + BLOCK - 1 < self.s_inst_h()
        &&& forall|j: int|
            0 <= j < self.index_binds@.len() ==> (#[trigger] self.index_binds@[j]).0 * BLOCK + BLOCK - 1
                < self.s_inst_h()
        &&& self.fold ==> self.s_fold_fits()
    }

    /// A super-tile lies inside the instance.
    pub(super) proof fn lemma_tile_fits(&self, q: int)
        requires
            self.wf(),
            0 <= q < self.n_queries,
        ensures
            0 <= self.s_tr() <= self.s_tile(q),
            self.s_tile(q) + self.s_m_period() <= self.s_inst_h() <= usize::MAX,
            0 < self.s_m_period(),
            0 <= q * self.s_m_period() <= usize::MAX,
    {
        self.lemma_bounds();
        let (n, mp) = (self.n_queries as int, self.s_m_period());
        assert((q + 1) * mp == q * mp + mp) by (nonlinear_arith);
        assert((q + 1) * mp <= n * mp) by (nonlinear_arith)
            requires
                q + 1 <= n,
                mp >= 0,
        ;
        assert(q * mp >= 0) by (nonlinear_arith)
            requires
                q >= 0,
                mp >= 0,
        ;
    }

    /// The column that marks the rows `off` rows into each super-tile.
    fn tiled(&self, off: usize) -> (col: Vec<u64>)
        requires
            self.wf(),
            off < self.s_m_period(),
        ensures
            col@ == indicator(self.s_inst_h(), |row: int| self.on_tiles(row, off as int)),
    {
        let h: usize = self.inst_h();
        let tr: usize = self.tr();
        let mp: usize = self.m_period();
        let mut col: Vec<u64> = zero_column(h);
        let mut q: usize = 0;
        while q < self.n_queries
            invariant
                self.wf(),
                off < self.s_m_period(),
                q <= self.n_queries,
                h == self.s_inst_h(),
                tr == self.s_tr(),
                mp == self.s_m_period(),
                col@.len() == h,
                forall|row: int|
                    0 <= row < h ==> #[trigger] col@[row] == if exists|p: int|
                        0 <= p < q && row == #[trigger] self.s_tile(p) + off {
                        1u64
                    } else {
                        0u64
                    },
            decreases self.n_queries - q,
        {
            proof {
                self.lemma_tile_fits(q as int);
            }
            let at: usize = tr + q * mp + off;
            let ghost before = col@;
            col.set(at, 1);
            proof {
                assert(at == self.s_tile(q as int) + off);
                assert forall|row: int| 0 <= row < h implies #[trigger] col@[row] == if exists|p: int|
                    0 <= p < q + 1 && row == #[trigger] self.s_tile(p) + off {
                    1u64
                } else {
                    0u64
                } by {
                    assert(before[row] == col@[row] || row == at);
                }
            }
            q += 1;
        }
        assert(col@ =~= indicator(self.s_inst_h(), |row: int| self.on_tiles(row, off as int)));
        col
    }

    /// The column that marks the rows of each super-tile from `from` rows in.
    fn tile_rows(&self, from: usize) -> (col: Vec<u64>)
        requires
            self.wf(),
        ensures
            col@ == indicator(self.s_inst_h(), |row: int| self.in_tile(row, from as int)),
    {
        let h: usize = self.inst_h();
        let tr: usize = self.tr();
        let mp: usize = self.m_period();
        let mut col: Vec<u64> = zero_column(h);
        let mut q: usize = 0;
        while q < self.n_queries
            invariant
                self.wf(),
                q <= self.n_queries,
                h == self.s_inst_h(),
                tr == self.s_tr(),
                mp == self.s_m_period(),
                col@.len() == h,
                forall|row: int|
                    0 <= row < h ==> #[trigger] col@[row] == if exists|p: int|
                        0 <= p < q && (#[trigger] self.s_tile(p)) + from <= row < self.s_tile(p) + mp {
                        1u64
                    } else {
                        0u64
                    },
            decreases self.n_queries - q,
        {
            proof {
                self.lemma_tile_fits(q as int);
            }
            let start: usize = tr + q * mp;
            let ghost before = col@;
            let mut r: usize = from;
            while r < mp
                invariant
                    h == self.s_inst_h(),
                    start == self.s_tile(q as int),
                    start + mp <= h,
                    from <= r,
                    r <= mp || r == from,
                    col@.len() == h,
                    before.len() == h,
                    forall|row: int|
                        0 <= row < h ==> #[trigger] col@[row] == if start + from <= row < start + r {
                            1u64
                        } else {
                            before[row]
                        },
                decreases mp - r,
            {
                col.set(start + r, 1);
                r += 1;
            }
            proof {
                assert forall|row: int| 0 <= row < h implies #[trigger] col@[row] == if exists|p: int|
                    0 <= p < q + 1 && (#[trigger] self.s_tile(p)) + from <= row < self.s_tile(p) + mp {
                    1u64
                } else {
                    0u64
                } by {
                    let hit = self.s_tile(q as int) + from <= row < self.s_tile(q as int) + mp;
                    assert(col@[row] == if hit {
                        1u64
                    } else {
                        before[row]
                    });
                }
            }
            q += 1;
        }
        assert(col@ =~= indicator(self.s_inst_h(), |row: int| self.in_tile(row, from as int)));
        col
    }
}

pub(crate) fn zero_column(h: usize) -> (col: Vec<u64>)
    ensures
        col@ == Seq::new(h as nat, |i: int| 0u64),
{
    let mut col: Vec<u64> = Vec::new();
    let mut i: usize = 0;
    while i < h
        invariant
            i <= h,
            col@ =~= Seq::new(i as nat, |k: int| 0u64),
        decreases h - i,
    {
        col.push(0);
        i += 1;
    }
    col
}

/// The column of height `h` that marks the rows lo..hi.
pub(crate) fn range_column(h: usize, lo: usize, hi: usize) -> (col: Vec<u64>)
    requires
        lo <= hi <= h,
    ensures
        col@ == indicator(h as int, |row: int| lo <= row < hi),
{
    let mut col: Vec<u64> = zero_column(h);
    let mut i: usize = lo;
    while i < hi
        invariant
            lo <= i <= hi <= h,
            col@ =~= indicator(h as int, |row: int| lo <= row < i),
        decreases hi - i,
    {
        col.set(i, 1);
        i += 1;
    }
    assert(col@ =~= indicator(h as int, |row: int| lo <= row < hi));
    col
}

/// Mark the union of two columns of zeros and ones in the first.
pub(crate) fn join_columns(col: &mut Vec<u64>, other: &Vec<u64>)
    requires
        old(col)@.len() == other@.len(),
    ensures
        final(col)@ == Seq::new(
            old(col)@.len(),
            |row: int|
                if other@[row] == 1 {
                    1u64
                } else {
                    old(col)@[row]
                },
        ),
{
    let n: usize = col.len();
    let ghost before = col@;
    let mut i: usize = 0;
    while i < n
        invariant
            i <= n,
            n == before.len(),
            other@.len() == n,
            col@.len() == n,
            forall|row: int|
                0 <= row < n ==> #[trigger] col@[row] == if row < i && other@[row] == 1 {
                    1u64
                } else {
                    before[row]
                },
        decreases n - i,
    {
        if other[i] == 1 {
            col.set(i, 1);
        }
        i += 1;
    }
    assert(col@ =~= Seq::new(
        before.len(),
        |row: int|
            if other@[row] == 1 {
                1u64
            } else {
                before[row]
            },
    ));
}

impl MonolithAir {
    /// The columns so far are the first periodic columns.
    pub open spec fn columns_so_far(&self, cols: Seq<Vec<u64>>) -> bool {
        forall|k: int| 0 <= k < cols.len() ==> (#[trigger] cols[k])@ == self.column(k)
    }

    /// Append the next column, a selector.
    fn push_selector(&self, cols: &mut Vec<Vec<u64>>, col: Vec<u64>)
        requires
            self.columns_so_far(old(cols)@),
            old(cols)@.len() >= 11,
            old(cols)@.len() < 12 || old(cols)@.len() > 13,
            col@ == indicator(self.s_inst_h(), |row: int| self.selector(old(cols)@.len() as int, row)),
        ensures
            self.columns_so_far(final(cols)@),
            final(cols)@.len() == old(cols)@.len() + 1,
    {
        reveal(MonolithAir::column);
        cols.push(col);
    }

    /// The column that marks the inner boundaries of a leaf.
    fn boundaries(&self, head: usize, blocks: usize) -> (col: Vec<u64>)
        requires
            self.wf(),
            1 <= blocks,
            head + blocks <= self.s_m_nblocks(),
        ensures
            col@ == indicator(self.s_inst_h(), |row: int| self.at_boundary(row, head as int, blocks as int)),
    {
        let h: usize = self.inst_h();
        let mut col: Vec<u64> = zero_column(h);
        let mut b: usize = 1;
        while b < blocks
            invariant
                self.wf(),
                1 <= b <= blocks,
                head + blocks <= self.s_m_nblocks(),
                h == self.s_inst_h(),
                col@.len() == h,
                forall|row: int|
                    0 <= row < h ==> #[trigger] col@[row] == if self.at_boundary(row, head as int, b as int) {
                        1u64
                    } else {
                        0u64
                    },
            decreases blocks - b,
        {
            proof {
                assert((head + b) * BLOCK <= self.s_m_nblocks() * BLOCK) by (nonlinear_arith)
                    requires
                        head + b <= self.s_m_nblocks(),
                ;
            }
            let off: usize = (head + b) * BLOCK - 1;
            let ghost before = col@;
            let one: Vec<u64> = self.tiled(off);
            join_columns(&mut col, &one);
            proof {
                assert(off == (head + b - 1) * BLOCK + BLOCK - 1);
                assert forall|row: int| 0 <= row < h implies #[trigger] col@[row] == if self.at_boundary(
                    row,
                    head as int,
                    b + 1,
                ) {
                    1u64
                } else {
                    0u64
                } by {
                    let here = self.at_end(row, head + b - 1);
                    assert(here == self.on_tiles(row, off as int));
                    assert(one@[row] == if here {
                        1u64
                    } else {
                        0u64
                    });
                    if self.at_boundary(row, head as int, b as int) {
                        let c = choose|c: int| 1 <= c < b && #[trigger] self.at_end(row, head + c - 1);
                        assert(1 <= c < b + 1 && self.at_end(row, head + c - 1));
                    }
                    if self.at_boundary(row, head as int, b + 1) && !here {
                        let c = choose|c: int| 1 <= c < b + 1 && #[trigger] self.at_end(row, head + c - 1);
                        assert(1 <= c < b);
                    }
                }
            }
            b += 1;
        }
        assert(col@ =~= indicator(
            self.s_inst_h(),
            |row: int| self.at_boundary(row, head as int, blocks as int),
        ));
        col
    }

    /// The column that marks the end of the first block of every commit-phase leaf.
    fn commit_boundaries(&self) -> (col: Vec<u64>)
        requires
            self.wf(),
        ensures
            col@ == indicator(self.s_inst_h(), |row: int| self.at_commit_boundary(row)),
    {
        let h: usize = self.inst_h();
        let rounds: usize = self.cm_rounds();
        let mut col: Vec<u64> = zero_column(h);
        let mut r: usize = 0;
        while r < rounds
            invariant
                self.wf(),
                r <= rounds == self.s_cm_rounds(),
                h == self.s_inst_h(),
                col@.len() == h,
                forall|row: int|
                    0 <= row < h ==> #[trigger] col@[row] == if exists|s: int|
                        0 <= s < r && self.at_end(row, #[trigger] self.s_cm_leaf(s)) {
                        1u64
                    } else {
                        0u64
                    },
            decreases rounds - r,
        {
            let head: usize = self.cm_leaf(r);
            proof {
                self.law_blocks_are_sequential(r as int);
                assert((head + 1) * BLOCK <= self.s_m_nblocks() * BLOCK) by (nonlinear_arith)
                    requires
                        head + 1 <= self.s_m_nblocks(),
                ;
            }
            let off: usize = head * BLOCK + BLOCK - 1;
            let ghost before = col@;
            let one: Vec<u64> = self.tiled(off);
            join_columns(&mut col, &one);
            proof {
                assert forall|row: int| 0 <= row < h implies #[trigger] col@[row] == if exists|s: int|
                    0 <= s < r + 1 && self.at_end(row, #[trigger] self.s_cm_leaf(s)) {
                    1u64
                } else {
                    0u64
                } by {
                    let here = self.at_end(row, self.s_cm_leaf(r as int));
                    assert(one@[row] == if here {
                        1u64
                    } else {
                        0u64
                    });
                    assert(before[row] == if exists|s: int|
                        0 <= s < r && self.at_end(row, #[trigger] self.s_cm_leaf(s)) {
                        1u64
                    } else {
                        0u64
                    });
                }
            }
            r += 1;
        }
        assert(col@ =~= indicator(self.s_inst_h(), |row: int| self.at_commit_boundary(row)));
        col
    }

    /// Append the round schedule and the transcript schedule.
    fn push_schedules(&self, cols: &mut Vec<Vec<u64>>)
        requires
            self.wf(),
            old(cols)@.len() == 0,
        ensures
            self.columns_so_far(final(cols)@),
            final(cols)@.len() == FT_BIND_START,
    {
        proof {
            self.lemma_bounds();
        }
        let h: usize = self.inst_h();
        let tr: usize = self.tr();
        let table: Vec<Vec<u64>> = periodic_table();
        let mut j: usize = 0;
        while j < 11
            invariant
                j <= 11,
                table@.len() == 11,
                forall|k: int|
                    0 <= k < 11 ==> (#[trigger] table@[k])@ == Seq::new(BLOCK as nat, |t: int| schedule(k, t)),
                cols@.len() == j,
                self.columns_so_far(cols@),
            decreases 11 - j,
        {
            reveal(MonolithAir::column);
            let col: Vec<u64> = table[j].clone();
            assert(col@ =~= table@[j as int]@);
            cols.push(col);
            j += 1;
        }
        let mut last: Vec<u64> = Vec::new();
        let mut count: Vec<u64> = Vec::new();
        let mut count_next: Vec<u64> = Vec::new();
        let mut squeezes: Vec<u64> = Vec::new();
        let mut r: usize = 0;
        while r < h
            invariant
                self.wf(),
                r <= h == self.s_inst_h(),
                tr == self.s_tr(),
                last@ =~= indicator(r as int, |row: int| row % (BLOCK as int) == BLOCK - 1),
                count@ =~= Seq::new(
                    r as nat,
                    |row: int|
                        if row < tr {
                            self.s_count(row / (BLOCK as int))
                        } else {
                            0
                        },
                ),
                count_next@ =~= Seq::new(
                    r as nat,
                    |row: int|
                        if row < tr {
                            self.s_count(row / (BLOCK as int) + 1)
                        } else {
                            0
                        },
                ),
                squeezes@ =~= indicator(
                    r as int,
                    |row: int| row < tr && self.s_count(row / (BLOCK as int) + 1) == 0,
                ),
            decreases h - r,
        {
            let b: usize = r / BLOCK;
            last.push(
                if r % BLOCK == BLOCK - 1 {
                    1
                } else {
                    0
                },
            );
            if r < tr {
                let here: u64 = self.count_of(b);
                let next: u64 = self.count_of(b + 1);
                count.push(here);
                count_next.push(next);
                squeezes.push(
                    if next == 0 {
                        1
                    } else {
                        0
                    },
                );
            } else {
                count.push(0);
                count_next.push(0);
                squeezes.push(0);
            }
            r += 1;
        }
        proof {
            assert(last@ =~= indicator(self.s_inst_h(), |row: int| self.selector(11, row)));
        }
        self.push_selector(cols, last);
        proof {
            reveal(MonolithAir::column);
            assert(count@ =~= self.column(12));
            assert(count_next@ =~= self.column(13));
        }
        cols.push(count);
        cols.push(count_next);
        proof {
            assert(squeezes@ =~= indicator(self.s_inst_h(), |row: int| self.selector(14, row)));
        }
        self.push_selector(cols, squeezes);
    }

    /// Inputs absorbed by transcript block `b`.
    fn count_of(&self, b: usize) -> (r: u64)
        ensures
            r == self.s_count(b as int),
    {
        if b < self.counts.len() {
            self.counts[b] as u64
        } else {
            0
        }
    }

    /// Append the challenge binds, the index binds, the fold rows and the query heads.
    fn push_binds(&self, cols: &mut Vec<Vec<u64>>)
        requires
            self.wf(),
            self.rows_fit(),
            self.columns_so_far(old(cols)@),
            old(cols)@.len() == FT_BIND_START,
        ensures
            self.columns_so_far(final(cols)@),
            final(cols)@.len() == self.s_m_base(),
    {
        let h: usize = self.inst_h();
        let mut j: usize = 0;
        while j < self.binds.len()
            invariant
                self.wf(),
                self.rows_fit(),
                h == self.s_inst_h(),
                j <= self.binds@.len(),
                self.columns_so_far(cols@),
                cols@.len() == FT_BIND_START + j,
            decreases self.binds.len() - j,
        {
            assert(self.binds@[j as int] * BLOCK + BLOCK - 1 < self.s_inst_h());
            let at: usize = self.binds[j] * BLOCK + BLOCK - 1;
            let col: Vec<u64> = range_column(h, at, at + 1);
            proof {
                assert(col@ =~= indicator(self.s_inst_h(), |row: int| self.selector(cols@.len() as int, row)));
            }
            self.push_selector(cols, col);
            j += 1;
        }
        let mut k: usize = 0;
        while k < self.index_binds.len()
            invariant
                self.wf(),
                self.rows_fit(),
                h == self.s_inst_h(),
                k <= self.index_binds@.len(),
                self.columns_so_far(cols@),
                cols@.len() == FT_BIND_START + self.s_nb() + k,
            decreases self.index_binds.len() - k,
        {
            assert(self.index_binds@[k as int].0 * BLOCK + BLOCK - 1 < self.s_inst_h());
            let at: usize = self.index_binds[k].0 * BLOCK + BLOCK - 1;
            let col: Vec<u64> = range_column(h, at, at + 1);
            proof {
                assert(col@ =~= indicator(self.s_inst_h(), |row: int| self.selector(cols@.len() as int, row)));
            }
            self.push_selector(cols, col);
            k += 1;
        }
        let rounds: usize = self.cm_rounds();
        let mut r: usize = 0;
        while r < rounds
            invariant
                self.wf(),
                r <= rounds == self.s_cm_rounds(),
                self.columns_so_far(cols@),
                cols@.len() == self.s_p_round(r as int),
            decreases rounds - r,
        {
            proof {
                self.lemma_period_covers_rounds();
            }
            let col: Vec<u64> = self.tiled(r);
            proof {
                assert(col@ =~= indicator(self.s_inst_h(), |row: int| self.selector(cols@.len() as int, row)));
            }
            self.push_selector(cols, col);
            r += 1;
        }
        let tr: usize = self.tr();
        let mp: usize = self.m_period();
        let mut q: usize = 0;
        while q < self.n_queries
            invariant
                self.wf(),
                h == self.s_inst_h(),
                tr == self.s_tr(),
                mp == self.s_m_period(),
                q <= self.n_queries,
                self.columns_so_far(cols@),
                cols@.len() == self.s_p_query(q as int),
            decreases self.n_queries - q,
        {
            proof {
                self.lemma_tile_fits(q as int);
            }
            let at: usize = tr + q * mp;
            let col: Vec<u64> = range_column(h, at, at + 1);
            proof {
                assert(at == self.s_tile(q as int));
                assert(col@ =~= indicator(self.s_inst_h(), |row: int| self.selector(cols@.len() as int, row)));
            }
            self.push_selector(cols, col);
            q += 1;
        }
    }

    /// The fold rows all stand in the first block or the ones after it.
    pub(super) proof fn lemma_period_covers_rounds(&self)
        requires
            self.wf(),
        ensures
            self.s_cm_rounds() < self.s_m_period(),
            self.s_m_nblocks() >= self.s_cm_rounds() + 3,
    {
        self.lemma_rounds_at_least(self.s_cm_rounds());
        self.law_blocks_are_sequential(0);
    }

    proof fn lemma_rounds_at_least(&self, r: int)
        requires
            0 <= r,
        ensures
            self.s_rounds_before(r) >= r,
        decreases r,
    {
        if r > 0 {
            self.lemma_rounds_at_least(r - 1);
        }
    }
}

impl MonolithAir {
    /// A block of a super-tile lies inside it.
    proof fn lemma_block_fits(&self, blk: int)
        requires
            self.wf(),
            0 <= blk < self.s_m_nblocks(),
        ensures
            0 <= blk * BLOCK,
            blk * BLOCK + BLOCK <= self.s_m_period() <= usize::MAX,
    {
        assert((blk + 1) * BLOCK == blk * BLOCK + BLOCK);
        assert((blk + 1) * BLOCK <= self.s_m_nblocks() * BLOCK) by (nonlinear_arith)
            requires
                blk + 1 <= self.s_m_nblocks(),
        ;
    }

    /// The column that marks the head of block `blk` of every super-tile.
    fn heads(&self, blk: usize) -> (col: Vec<u64>)
        requires
            self.wf(),
            blk < self.s_m_nblocks(),
        ensures
            col@ == indicator(self.s_inst_h(), |row: int| self.at_head(row, blk as int)),
    {
        proof {
            self.lemma_block_fits(blk as int);
        }
        let col: Vec<u64> = self.tiled(blk * BLOCK);
        assert(col@ =~= indicator(self.s_inst_h(), |row: int| self.at_head(row, blk as int)));
        col
    }

    /// The column that marks the last row of block `blk` of every super-tile.
    fn ends(&self, blk: usize) -> (col: Vec<u64>)
        requires
            self.wf(),
            blk < self.s_m_nblocks(),
        ensures
            col@ == indicator(self.s_inst_h(), |row: int| self.at_end(row, blk as int)),
    {
        proof {
            self.lemma_block_fits(blk as int);
        }
        let col: Vec<u64> = self.tiled(blk * BLOCK + BLOCK - 1);
        assert(col@ =~= indicator(self.s_inst_h(), |row: int| self.at_end(row, blk as int)));
        col
    }

    /// Append the super-tile selectors and those of the commit rounds.
    fn push_tiles(&self, cols: &mut Vec<Vec<u64>>)
        requires
            self.wf(),
            self.columns_so_far(old(cols)@),
            old(cols)@.len() == self.s_m_base(),
        ensures
            self.columns_so_far(final(cols)@),
            final(cols)@.len() == self.s_leaf_absorb_base(),
    {
        let h: usize = self.inst_h();
        let tr: usize = self.tr();
        let mp: usize = self.m_period();
        let rounds: usize = self.cm_rounds();
        proof {
            self.lemma_bounds();
            self.lemma_period_covers_rounds();
            self.law_blocks_are_sequential(0);
        }
        let col: Vec<u64> = self.tiled(0);
        proof {
            assert(col@ =~= indicator(self.s_inst_h(), |row: int| self.selector(cols@.len() as int, row)));
        }
        self.push_selector(cols, col);
        let col: Vec<u64> = self.tiled(rounds);
        proof {
            assert(col@ =~= indicator(self.s_inst_h(), |row: int| self.selector(cols@.len() as int, row)));
        }
        self.push_selector(cols, col);
        let col: Vec<u64> = self.heads(self.m_input_leaf());
        proof {
            assert(col@ =~= indicator(self.s_inst_h(), |row: int| self.selector(cols@.len() as int, row)));
        }
        self.push_selector(cols, col);
        let col: Vec<u64> = self.ends(self.m_input_term());
        proof {
            assert(col@ =~= indicator(self.s_inst_h(), |row: int| self.selector(cols@.len() as int, row)));
        }
        self.push_selector(cols, col);
        let col: Vec<u64> = range_column(h, 0, tr);
        proof {
            assert(col@ =~= indicator(self.s_inst_h(), |row: int| self.selector(cols@.len() as int, row)));
        }
        self.push_selector(cols, col);
        let col: Vec<u64> = self.tile_rows(0);
        proof {
            assert(col@ =~= indicator(self.s_inst_h(), |row: int| self.selector(cols@.len() as int, row)));
        }
        self.push_selector(cols, col);
        let col: Vec<u64> = self.tile_rows(BLOCK);
        proof {
            assert(col@ =~= indicator(self.s_inst_h(), |row: int| self.selector(cols@.len() as int, row)));
        }
        self.push_selector(cols, col);
        let col: Vec<u64> = range_column(
            h,
            0,
            if tr > 0 {
                tr - 1
            } else {
                0
            },
        );
        proof {
            assert(col@ =~= indicator(self.s_inst_h(), |row: int| self.selector(cols@.len() as int, row)));
        }
        self.push_selector(cols, col);
        let col: Vec<u64> = self.tiled(mp - 1);
        proof {
            assert(col@ =~= indicator(self.s_inst_h(), |row: int| self.selector(cols@.len() as int, row)));
        }
        self.push_selector(cols, col);
        let col: Vec<u64> = self.heads(self.m_quot_leaf());
        proof {
            assert(col@ =~= indicator(self.s_inst_h(), |row: int| self.selector(cols@.len() as int, row)));
        }
        self.push_selector(cols, col);
        let col: Vec<u64> = self.ends(self.m_quot_term());
        proof {
            assert(col@ =~= indicator(self.s_inst_h(), |row: int| self.selector(cols@.len() as int, row)));
        }
        self.push_selector(cols, col);
        let mut r: usize = 0;
        while r < rounds
            invariant
                self.wf(),
                r <= rounds == self.s_cm_rounds(),
                self.columns_so_far(cols@),
                cols@.len() == self.s_c_leaf(r as int),
            decreases rounds - r,
        {
            proof {
                self.law_blocks_are_sequential(r as int);
            }
            let col: Vec<u64> = self.heads(self.cm_leaf(r));
            proof {
                assert(col@ =~= indicator(self.s_inst_h(), |row: int| self.selector(cols@.len() as int, row)));
            }
            self.push_selector(cols, col);
            r += 1;
        }
        let mut t: usize = 0;
        while t < rounds
            invariant
                self.wf(),
                t <= rounds == self.s_cm_rounds(),
                self.columns_so_far(cols@),
                cols@.len() == self.s_c_term(t as int),
            decreases rounds - t,
        {
            proof {
                self.law_blocks_are_sequential(t as int);
            }
            let col: Vec<u64> = self.ends(self.cm_term(t));
            proof {
                assert(col@ =~= indicator(self.s_inst_h(), |row: int| self.selector(cols@.len() as int, row)));
            }
            self.push_selector(cols, col);
            t += 1;
        }
    }

    /// Append the selectors of a leaf of several blocks, `base` being the first of them.
    fn push_leaf(&self, cols: &mut Vec<Vec<u64>>, Ghost(base): Ghost<int>, head: usize, blocks: usize, short: bool)
        requires
            self.wf(),
            self.columns_so_far(old(cols)@),
            old(cols)@.len() == base,
            base >= FT_BIND_START,
            blocks >= 2,
            head + blocks <= self.s_m_nblocks(),
            forall|i: int, row: int|
                0 <= i <= blocks - 1 + (if short { 1int } else { 0 }) ==> #[trigger] self.selector(base + i, row)
                    == self.leaf_selector(i, row, head as int, blocks as int),
        ensures
            self.columns_so_far(final(cols)@),
            final(cols)@.len() == base + blocks + (if short { 1int } else { 0 }),
    {
        let mut b: usize = 1;
        while b < blocks
            invariant
                self.wf(),
                1 <= b <= blocks,
                head + blocks <= self.s_m_nblocks(),
                base >= FT_BIND_START,
                self.columns_so_far(cols@),
                cols@.len() == base + b - 1,
                forall|i: int, row: int|
                    0 <= i <= blocks - 1 + (if short { 1int } else { 0 }) ==> #[trigger] self.selector(base + i, row)
                        == self.leaf_selector(i, row, head as int, blocks as int),
            decreases blocks - b,
        {
            let col: Vec<u64> = self.heads(head + b);
            proof {
                assert forall|row: int| self.selector(cols@.len() as int, row) == self.at_head(row, head + b) by {
                    assert(self.selector(base + (b - 1), row) == self.leaf_selector(
                        b - 1,
                        row,
                        head as int,
                        blocks as int,
                    ));
                }
                assert(col@ =~= indicator(self.s_inst_h(), |row: int| self.selector(cols@.len() as int, row)));
            }
            self.push_selector(cols, col);
            b += 1;
        }
        let col: Vec<u64> = self.boundaries(head, blocks);
        proof {
            assert forall|row: int|
                self.selector(cols@.len() as int, row) == self.at_boundary(row, head as int, blocks as int) by {
                assert(self.selector(base + (blocks - 1), row) == self.leaf_selector(
                    blocks - 1,
                    row,
                    head as int,
                    blocks as int,
                ));
            }
            assert(col@ =~= indicator(self.s_inst_h(), |row: int| self.selector(cols@.len() as int, row)));
        }
        self.push_selector(cols, col);
        if short {
            let last: Vec<u64> = self.ends(head + blocks - 2);
            proof {
                assert forall|row: int|
                    self.selector(cols@.len() as int, row) == self.at_end(row, head + blocks - 2) by {
                    assert(self.selector(base + blocks, row) == self.leaf_selector(
                        blocks as int,
                        row,
                        head as int,
                        blocks as int,
                    ));
                }
                assert(last@ =~= indicator(self.s_inst_h(), |row: int| self.selector(cols@.len() as int, row)));
            }
            self.push_selector(cols, last);
        }
    }

    /// Append the selectors of the trace and quotient leaves that span several blocks.
    fn push_leaves(&self, cols: &mut Vec<Vec<u64>>)
        requires
            self.wf(),
            self.columns_so_far(old(cols)@),
            old(cols)@.len() == self.s_leaf_absorb_base(),
        ensures
            self.columns_so_far(final(cols)@),
            final(cols)@.len() == self.s_fold_base(),
    {
        proof {
            self.lemma_bounds();
            self.law_blocks_are_sequential(0);
        }
        let blocks: usize = self.leaf_blocks();
        if blocks > 1 {
            let short: bool = self.input_leaf_felts() % RATE != 0;
            self.push_leaf(cols, Ghost(self.s_leaf_absorb_base()), self.m_input_leaf(), blocks, short);
        }
        let qblocks: usize = self.quot_leaf_blocks();
        if qblocks > 1 {
            let short: bool = self.quot_leaf_felts() % RATE != 0;
            self.push_leaf(cols, Ghost(self.s_quot_absorb_base()), self.m_quot_leaf(), qblocks, short);
        }
    }
}

impl MonolithAir {
    /// Append the fold selectors.
    fn push_fold(&self, cols: &mut Vec<Vec<u64>>)
        requires
            self.wf(),
            self.rows_fit(),
            self.columns_so_far(old(cols)@),
            old(cols)@.len() == self.s_fold_base(),
        ensures
            self.columns_so_far(final(cols)@),
            final(cols)@.len() == self.s_random_absorb_base(),
    {
        if self.fold {
            let h: usize = self.inst_h();
            let fb: usize = self.fold_sk_block();
            let n: usize = self.n_sk_blocks();
            proof {
                assert((fb + n + 1) * BLOCK <= h);
            }
            let from: usize = fb * BLOCK;
            let col: Vec<u64> = range_column(h, from, (fb + n + 1) * BLOCK);
            proof {
                assert(col@ =~= indicator(self.s_inst_h(), |row: int| self.selector(cols@.len() as int, row)));
            }
            self.push_selector(cols, col);
            let mut b: usize = 0;
            while b < n
                invariant
                    self.wf(),
                    self.fold,
                    h == self.s_inst_h(),
                    fb == self.s_fold_sk_block(),
                    n == self.s_n_sk_blocks(),
                    (fb + n + 1) * BLOCK <= h,
                    b <= n,
                    self.columns_so_far(cols@),
                    cols@.len() == self.s_fold_base() + 1 + b,
                decreases n - b,
            {
                let at: usize = (fb + b) * BLOCK;
                let col: Vec<u64> = range_column(h, at, at + 1);
                proof {
                    assert(col@ =~= indicator(self.s_inst_h(), |row: int| self.selector(cols@.len() as int, row)));
                }
                self.push_selector(cols, col);
                b += 1;
            }
            if self.fold_txstmt {
                let col: Vec<u64> = self.fold_links(fb, n);
                proof {
                    assert(col@ =~= indicator(self.s_inst_h(), |row: int| self.selector(cols@.len() as int, row)));
                }
                self.push_selector(cols, col);
            }
            let last: usize = (fb + n - 1) * BLOCK + BLOCK - 1;
            let col: Vec<u64> = range_column(h, last, last + 1);
            proof {
                assert(col@ =~= indicator(self.s_inst_h(), |row: int| self.selector(cols@.len() as int, row)));
            }
            self.push_selector(cols, col);
            let root_in: usize = (fb + n) * BLOCK;
            let col: Vec<u64> = range_column(h, root_in, root_in + 1);
            proof {
                assert(col@ =~= indicator(self.s_inst_h(), |row: int| self.selector(cols@.len() as int, row)));
            }
            self.push_selector(cols, col);
            let root_end: usize = (fb + n) * BLOCK + BLOCK - 1;
            let col: Vec<u64> = range_column(h, root_end, root_end + 1);
            proof {
                assert(col@ =~= indicator(self.s_inst_h(), |row: int| self.selector(cols@.len() as int, row)));
            }
            self.push_selector(cols, col);
        }
    }

    /// The column that marks the last row of every statement block but the last.
    fn fold_links(&self, fb: usize, n: usize) -> (col: Vec<u64>)
        requires
            self.wf(),
            1 <= n,
            (fb + n + 1) * BLOCK <= self.s_inst_h(),
        ensures
            col@ == indicator(
                self.s_inst_h(),
                |row: int| exists|b: int| 0 <= b < n - 1 && row == #[trigger] ((fb + b) * BLOCK) + BLOCK - 1,
            ),
    {
        let h: usize = self.inst_h();
        let mut col: Vec<u64> = zero_column(h);
        let mut b: usize = 0;
        while b < n - 1
            invariant
                1 <= n,
                b <= n - 1,
                h == self.s_inst_h(),
                (fb + n + 1) * BLOCK <= h,
                col@.len() == h,
                forall|row: int|
                    0 <= row < h ==> #[trigger] col@[row] == if exists|c: int|
                        0 <= c < b && row == #[trigger] ((fb + c) * BLOCK) + BLOCK - 1 {
                        1u64
                    } else {
                        0u64
                    },
            decreases n - 1 - b,
        {
            let at: usize = (fb + b) * BLOCK + BLOCK - 1;
            let ghost before = col@;
            col.set(at, 1);
            proof {
                assert forall|row: int| 0 <= row < h implies #[trigger] col@[row] == if exists|c: int|
                    0 <= c < b + 1 && row == #[trigger] ((fb + c) * BLOCK) + BLOCK - 1 {
                    1u64
                } else {
                    0u64
                } by {
                    assert(before[row] == col@[row] || row == at);
                    assert(at == ((fb + b) * BLOCK) + BLOCK - 1);
                }
            }
            b += 1;
        }
        assert(col@ =~= indicator(
            self.s_inst_h(),
            |row: int| exists|c: int| 0 <= c < n - 1 && row == #[trigger] ((fb + c) * BLOCK) + BLOCK - 1,
        ));
        col
    }

    /// Append the selectors of a prepended round, `base` being the first of them.
    fn push_prepended(&self, cols: &mut Vec<Vec<u64>>, Ghost(base): Ghost<int>, blocks: usize, term: usize, short: bool)
        requires
            self.wf(),
            self.columns_so_far(old(cols)@),
            old(cols)@.len() == base,
            base >= FT_BIND_START,
            1 <= blocks,
            M_INPUT_LEAF + blocks <= self.s_m_nblocks(),
            term < self.s_m_nblocks(),
            forall|i: int, row: int|
                0 <= i <= blocks + 1 + (if short { 1int } else { 0 }) && (blocks > 1 || i < 2)
                    ==> #[trigger] self.selector(base + i, row) == self.prepended_selector(
                    i,
                    row,
                    blocks as int,
                    term as int,
                ),
        ensures
            self.columns_so_far(final(cols)@),
            final(cols)@.len() == base + 2 + (if blocks > 1 {
                blocks + (if short { 1int } else { 0 })
            } else {
                0
            }),
    {
        let col: Vec<u64> = self.heads(M_INPUT_LEAF);
        proof {
            assert forall|row: int|
                self.selector(cols@.len() as int, row) == self.at_head(row, M_INPUT_LEAF as int) by {
                assert(self.selector(base + 0, row) == self.prepended_selector(0, row, blocks as int, term as int));
            }
            assert(col@ =~= indicator(self.s_inst_h(), |row: int| self.selector(cols@.len() as int, row)));
        }
        self.push_selector(cols, col);
        let end: Vec<u64> = self.ends(term);
        proof {
            assert forall|row: int| self.selector(cols@.len() as int, row) == self.at_end(row, term as int) by {
                assert(self.selector(base + 1, row) == self.prepended_selector(1, row, blocks as int, term as int));
            }
            assert(end@ =~= indicator(self.s_inst_h(), |row: int| self.selector(cols@.len() as int, row)));
        }
        self.push_selector(cols, end);
        if blocks > 1 {
            proof {
                assert forall|i: int, row: int| 0 <= i <= blocks - 1 + (if short { 1int } else { 0 }) implies
                    #[trigger] self.selector((base + 2) + i, row) == self.leaf_selector(
                    i,
                    row,
                    M_INPUT_LEAF as int,
                    blocks as int,
                ) by {
                    assert(self.selector(base + (2 + i), row) == self.prepended_selector(
                        2 + i,
                        row,
                        blocks as int,
                        term as int,
                    ));
                }
            }
            self.push_leaf(cols, Ghost(base + 2), M_INPUT_LEAF, blocks, short);
        }
    }

    /// Append the selectors of the random, aux and commit leaves.
    fn push_extras(&self, cols: &mut Vec<Vec<u64>>)
        requires
            self.wf(),
            self.columns_so_far(old(cols)@),
            old(cols)@.len() == self.s_random_absorb_base(),
        ensures
            self.columns_so_far(final(cols)@),
            final(cols)@.len() == self.s_p_inst_first(),
    {
        proof {
            self.lemma_bounds();
            self.law_blocks_are_sequential(0);
        }
        if self.is_zk == 1 {
            let short: bool = self.random_leaf_felts() % RATE != 0;
            self.push_prepended(
                cols,
                Ghost(self.s_random_absorb_base()),
                self.random_leaf_blocks(),
                self.m_random_term(),
                short,
            );
        }
        if self.is_lookup() {
            let short: bool = self.aux_leaf_felts() % RATE != 0;
            self.push_prepended(
                cols,
                Ghost(self.s_aux_absorb_base()),
                self.aux_leaf_blocks(),
                self.m_aux_term(),
                short,
            );
        }
        if self.is_zk == 1 && self.cm_leaf_blocks() > 1 {
            let col: Vec<u64> = self.commit_boundaries();
            proof {
                assert(col@ =~= indicator(self.s_inst_h(), |row: int| self.selector(cols@.len() as int, row)));
            }
            self.push_selector(cols, col);
        }
    }

    /// The periodic columns of one instance.
    pub fn single_periodic(&self) -> (cols: Vec<Vec<u64>>)
        requires
            self.wf(),
            self.rows_fit(),
        ensures
            cols@.len() == self.s_p_inst_first(),
            forall|j: int| 0 <= j < cols@.len() ==> (#[trigger] cols@[j])@ == self.column(j),
    {
        let mut cols: Vec<Vec<u64>> = Vec::new();
        self.push_schedules(&mut cols);
        self.push_binds(&mut cols);
        self.push_tiles(&mut cols);
        self.push_leaves(&mut cols);
        self.push_fold(&mut cols);
        self.push_extras(&mut cols);
        cols
    }

    /// Periodic column `j` of the whole trace: the instance column once per instance, then the first and last
    /// row of every instance.
    pub open spec fn tiled_column(&self, j: int) -> Seq<u64> {
        if j < self.s_p_inst_first() {
            Seq::new(
                self.k_instances as nat * self.column(j).len(),
                |row: int| self.column(j)[row % (self.column(j).len() as int)],
            )
        } else if j == self.s_p_inst_first() {
            indicator(self.s_height(), |row: int| row % self.s_inst_h() == 0)
        } else {
            indicator(self.s_height(), |row: int| row % self.s_inst_h() == self.s_inst_h() - 1)
        }
    }

    /// The periodic columns of the whole trace.
    pub fn periodic(&self) -> (cols: Vec<Vec<u64>>)
        requires
            self.wf(),
            self.rows_fit(),
        ensures
            cols@.len() == self.s_num_periodic_columns(),
            forall|j: int| 0 <= j < cols@.len() ==> (#[trigger] cols@[j])@ == self.tiled_column(j),
    {
        let single: Vec<Vec<u64>> = self.single_periodic();
        let k: usize = self.k_instances;
        let mut cols: Vec<Vec<u64>> = Vec::new();
        let mut j: usize = 0;
        while j < single.len()
            invariant
                j <= single@.len(),
                k == self.k_instances,
                single@.len() == self.s_p_inst_first(),
                forall|m: int| 0 <= m < single@.len() ==> (#[trigger] single@[m])@ == self.column(m),
                cols@.len() == j,
                forall|m: int| 0 <= m < j ==> (#[trigger] cols@[m])@ == self.tiled_column(m),
            decreases single.len() - j,
        {
            let col: Vec<u64> = repeat_column(&single[j], k);
            proof {
                assert(col@ =~= self.tiled_column(j as int));
            }
            cols.push(col);
            j += 1;
        }
        let inst_h: usize = self.inst_h();
        let h: usize = self.height();
        proof {
            self.lemma_bounds();
            crate::bits::lemma_next_pow2((self.s_tr() + self.n_queries * self.s_m_period()) as nat);
        }
        let mut first: Vec<u64> = Vec::new();
        let mut last: Vec<u64> = Vec::new();
        let mut r: usize = 0;
        while r < h
            invariant
                r <= h,
                h == self.s_height(),
                inst_h == self.s_inst_h(),
                inst_h > 0,
                first@ =~= indicator(r as int, |row: int| row % self.s_inst_h() == 0),
                last@ =~= indicator(r as int, |row: int| row % self.s_inst_h() == self.s_inst_h() - 1),
            decreases h - r,
        {
            let at: usize = r % inst_h;
            first.push(
                if at == 0 {
                    1
                } else {
                    0
                },
            );
            last.push(
                if at == inst_h - 1 {
                    1
                } else {
                    0
                },
            );
            r += 1;
        }
        proof {
            assert(first@ =~= self.tiled_column(self.s_p_inst_first()));
            assert(last@ =~= self.tiled_column(self.s_p_inst_last()));
        }
        cols.push(first);
        cols.push(last);
        cols
    }
}

/// `k` copies of a column, one after another.
fn repeat_column(col: &Vec<u64>, k: usize) -> (r: Vec<u64>)
    ensures
        r@ == Seq::new(k as nat * col@.len(), |row: int| col@[row % (col@.len() as int)]),
{
    let n: usize = col.len();
    let mut r: Vec<u64> = Vec::new();
    let mut i: usize = 0;
    proof {
        assert(0 * n == 0) by (nonlinear_arith);
    }
    while i < k
        invariant
            i <= k,
            n == col@.len(),
            r@ =~= Seq::new(i as nat * col@.len(), |row: int| col@[row % (col@.len() as int)]),
        decreases k - i,
    {
        let ghost base = (i * n) as int;
        proof {
            assert(i as nat * col@.len() == base);
            assert((i + 1) * n == base + n) by (nonlinear_arith)
                requires
                    base == i * n,
            ;
        }
        let mut t: usize = 0;
        while t < n
            invariant
                t <= n,
                n == col@.len(),
                base == i * n,
                r@ =~= Seq::new((base + t) as nat, |row: int| col@[row % (col@.len() as int)]),
            decreases n - t,
        {
            proof {
                vstd::arithmetic::div_mod::lemma_fundamental_div_mod_converse(
                    base + t,
                    n as int,
                    i as int,
                    t as int,
                );
            }
            r.push(col[t]);
            t += 1;
        }
        i += 1;
    }
    r
}

impl MonolithAir {
    /// Every named column marks the rows of its role: the fold rows, the query heads, the super-tile roles,
    /// the commit rounds and the folds stand where the layout says.
    pub proof fn law_selector_roles(&self, row: int, r: int, q: int)
        requires
            self.wf(),
            0 <= r < self.s_cm_rounds(),
            0 <= q < self.n_queries,
        ensures
            self.selector(self.s_p_round(r), row) == self.on_tiles(row, r),
            self.selector(self.s_p_query(q), row) == (row == self.s_tile(q)),
            self.selector(self.s_m_tf(), row) == self.on_tiles(row, 0),
            self.selector(self.s_m_tl(), row) == self.on_tiles(row, self.s_cm_rounds()),
            self.selector(self.s_m_leaf(), row) == self.at_head(row, self.s_m_input_leaf()),
            self.selector(self.s_m_term(), row) == self.at_end(row, self.s_m_input_term()),
            self.selector(self.s_s_trans(), row) == (row < self.s_tr()),
            self.selector(self.s_s_query(), row) == self.in_tile(row, 0),
            self.selector(self.s_s_merkle(), row) == self.in_tile(row, BLOCK as int),
            self.selector(self.s_s_trans_trans(), row) == (row < self.s_tr() - 1),
            self.selector(self.s_p_st_last(), row) == self.on_tiles(row, self.s_m_period() - 1),
            self.selector(self.s_q_leaf(), row) == self.at_head(row, self.s_m_quot_leaf()),
            self.selector(self.s_q_term(), row) == self.at_end(row, self.s_m_quot_term()),
            self.selector(self.s_c_leaf(r), row) == self.at_head(row, self.s_cm_leaf(r)),
            self.selector(self.s_c_term(r), row) == self.at_end(row, self.s_cm_term(r)),
            self.s_leaf_blocks() > 1 ==> self.selector(self.s_in_boundary(), row) == self.at_boundary(
                row,
                self.s_m_input_leaf(),
                self.s_leaf_blocks(),
            ),
            self.s_quot_leaf_blocks() > 1 ==> self.selector(self.s_q_boundary(), row) == self.at_boundary(
                row,
                self.s_m_quot_leaf(),
                self.s_quot_leaf_blocks(),
            ),
            self.is_zk == 1 ==> self.selector(self.s_p_random_term(), row) == self.at_end(
                row,
                self.s_m_random_term(),
            ),
            self.is_zk == 1 ==> self.selector(self.s_c_bnd(), row) == self.at_commit_boundary(row),
            self.s_is_lookup() ==> self.selector(self.s_p_aux_term(), row) == self.at_end(row, self.s_m_aux_term()),
    {
        self.lemma_bounds();
    }

    /// A row ends at most one block of a super-tile.
    pub proof fn law_row_ends_one_block(&self, row: int, a: int, b: int)
        requires
            self.wf(),
            0 <= a < self.s_m_nblocks(),
            0 <= b < self.s_m_nblocks(),
            self.at_end(row, a),
            self.at_end(row, b),
        ensures
            a == b,
    {
        let mp = self.s_m_period();
        self.lemma_block_fits(a);
        self.lemma_block_fits(b);
        let p = choose|q: int| 0 <= q < self.n_queries && row == #[trigger] self.s_tile(q) + (a * BLOCK + BLOCK - 1);
        let q = choose|q: int| 0 <= q < self.n_queries && row == #[trigger] self.s_tile(q) + (b * BLOCK + BLOCK - 1);
        let x = row - self.s_tr();
        vstd::arithmetic::div_mod::lemma_fundamental_div_mod_converse(x, mp, p, a * BLOCK + BLOCK - 1);
        vstd::arithmetic::div_mod::lemma_fundamental_div_mod_converse(x, mp, q, b * BLOCK + BLOCK - 1);
    }

    /// The row carries the mark: it ends a terminal block of an opening, or a block inside a leaf.
    pub open spec fn excludes(&self, m: Exclusion, row: int) -> bool {
        match m {
            Exclusion::InputTerm => self.at_end(row, self.s_m_input_term()),
            Exclusion::QuotTerm => self.at_end(row, self.s_m_quot_term()),
            Exclusion::CommitTerm(r) => r < self.s_cm_rounds() && self.at_end(row, self.s_cm_term(r as int)),
            Exclusion::RandomTerm => self.is_zk == 1 && self.at_end(row, self.s_m_random_term()),
            Exclusion::AuxTerm => self.s_is_lookup() && self.at_end(row, self.s_m_aux_term()),
            Exclusion::InputBoundary => self.at_boundary(row, self.s_m_input_leaf(), self.s_leaf_blocks()),
            Exclusion::QuotBoundary => self.at_boundary(row, self.s_m_quot_leaf(), self.s_quot_leaf_blocks()),
            Exclusion::RandomBoundary => self.is_zk == 1 && self.at_boundary(
                row,
                M_INPUT_LEAF as int,
                self.s_random_leaf_blocks(),
            ),
            Exclusion::AuxBoundary => self.s_is_lookup() && self.at_boundary(
                row,
                M_INPUT_LEAF as int,
                self.s_aux_leaf_blocks(),
            ),
            Exclusion::CommitBoundary => self.is_zk == 1 && self.at_commit_boundary(row),
        }
    }

    /// Block `blk` is one that the mark can stand on.
    spec fn in_place(&self, m: Exclusion, blk: int) -> bool {
        let (i, q) = (self.s_m_input_leaf(), self.s_m_quot_leaf());
        match m {
            Exclusion::InputTerm => blk == self.s_m_input_term(),
            Exclusion::QuotTerm => blk == self.s_m_quot_term(),
            Exclusion::CommitTerm(r) => r < self.s_cm_rounds() && blk == self.s_cm_term(r as int),
            Exclusion::RandomTerm => self.is_zk == 1 && blk == self.s_m_random_term(),
            Exclusion::AuxTerm => self.s_is_lookup() && blk == self.s_m_aux_term(),
            Exclusion::InputBoundary => i <= blk < i + self.s_leaf_blocks() - 1,
            Exclusion::QuotBoundary => q <= blk < q + self.s_quot_leaf_blocks() - 1,
            Exclusion::RandomBoundary => self.is_zk == 1 && M_INPUT_LEAF <= blk < M_INPUT_LEAF
                + self.s_random_leaf_blocks() - 1,
            Exclusion::AuxBoundary => self.s_is_lookup() && M_INPUT_LEAF <= blk < M_INPUT_LEAF
                + self.s_aux_leaf_blocks() - 1,
            Exclusion::CommitBoundary => self.is_zk == 1 && exists|r: int|
                0 <= r < self.s_cm_rounds() && blk == #[trigger] self.s_cm_leaf(r),
        }
    }

    /// A marked row ends a block of the mark.
    proof fn lemma_excluded_block(&self, m: Exclusion, row: int) -> (blk: int)
        requires
            self.wf(),
            self.excludes(m, row),
        ensures
            self.in_place(m, blk),
            self.at_end(row, blk),
            0 <= blk < self.s_m_nblocks(),
    {
        self.lemma_bounds();
        self.lemma_openings_fit();
        self.law_blocks_are_sequential(0);
        match m {
            Exclusion::InputTerm => self.s_m_input_term(),
            Exclusion::QuotTerm => self.s_m_quot_term(),
            Exclusion::CommitTerm(r) => {
                self.law_blocks_are_sequential(r as int);
                self.lemma_rounds_monotone(0, r as int);
                self.s_cm_term(r as int)
            },
            Exclusion::RandomTerm => self.s_m_random_term(),
            Exclusion::AuxTerm => self.s_m_aux_term(),
            Exclusion::InputBoundary => {
                let (h, n) = (self.s_m_input_leaf(), self.s_leaf_blocks());
                let b = choose|b: int| 1 <= b < n && #[trigger] self.at_end(row, h + b - 1);
                h + b - 1
            },
            Exclusion::QuotBoundary => {
                let (h, n) = (self.s_m_quot_leaf(), self.s_quot_leaf_blocks());
                let b = choose|b: int| 1 <= b < n && #[trigger] self.at_end(row, h + b - 1);
                h + b - 1
            },
            Exclusion::RandomBoundary => {
                let (h, n) = (M_INPUT_LEAF as int, self.s_random_leaf_blocks());
                let b = choose|b: int| 1 <= b < n && #[trigger] self.at_end(row, h + b - 1);
                h + b - 1
            },
            Exclusion::AuxBoundary => {
                let (h, n) = (M_INPUT_LEAF as int, self.s_aux_leaf_blocks());
                let b = choose|b: int| 1 <= b < n && #[trigger] self.at_end(row, h + b - 1);
                h + b - 1
            },
            Exclusion::CommitBoundary => {
                let r = choose|r: int| 0 <= r < self.s_cm_rounds() && self.at_end(row, #[trigger] self.s_cm_leaf(r));
                self.law_blocks_are_sequential(r);
                self.lemma_rounds_monotone(0, r);
                self.s_cm_leaf(r)
            },
        }
    }

    /// No block ends two commit rounds, nor ends one and stands inside the leaf of another.
    proof fn lemma_rounds_apart(&self, r: int, s: int)
        requires
            self.wf(),
            0 <= r < self.s_cm_rounds(),
            0 <= s < self.s_cm_rounds(),
        ensures
            r != s ==> self.s_cm_term(r) != self.s_cm_term(s),
            self.is_zk == 1 ==> self.s_cm_term(r) != self.s_cm_leaf(s),
            self.s_m_quot_term() < self.s_cm_leaf(r) <= self.s_cm_term(r),
    {
        self.law_blocks_are_sequential(r);
        self.law_blocks_are_sequential(s);
        self.lemma_rounds_monotone(0, r);
        self.lemma_rounds_monotone(0, s);
        if r < s {
            self.lemma_rounds_monotone(r + 1, s);
        } else if s < r {
            self.lemma_rounds_monotone(s + 1, r);
        }
    }

    /// Where a block does not continue into a merge: the terminals of the openings and the inner boundaries
    /// of leaves. No row carries two of these marks, so one minus their sum is the product of their
    /// complements.
    #[verifier::spinoff_prover]
    #[verifier::rlimit(40)]
    pub proof fn law_link_exclusions_are_disjoint(&self, row: int, a: Exclusion, b: Exclusion)
        requires
            self.wf(),
            a != b,
            self.excludes(a, row),
        ensures
            !self.excludes(b, row),
    {
        if self.excludes(b, row) {
            let x = self.lemma_excluded_block(a, row);
            let y = self.lemma_excluded_block(b, row);
            self.law_row_ends_one_block(row, x, y);
            self.lemma_bounds();
            self.lemma_openings_fit();
            self.law_blocks_are_sequential(0);
            self.lemma_one_place(a, b, x);
        }
    }

    /// A block is no place of two marks.
    #[verifier::spinoff_prover]
    #[verifier::rlimit(40)]
    proof fn lemma_one_place(&self, a: Exclusion, b: Exclusion, blk: int)
        requires
            self.wf(),
            self.in_place(a, blk),
            self.in_place(b, blk),
        ensures
            a == b,
    {
        self.lemma_bounds();
        self.lemma_openings_fit();
        self.law_blocks_are_sequential(0);
        let r = self.lemma_round_of(a, blk);
        let s = self.lemma_round_of(b, blk);
        self.lemma_rounds_apart(r, s);
        self.lemma_rounds_apart(s, r);
    }

    /// The commit round that a mark on a block speaks of, if any.
    proof fn lemma_round_of(&self, m: Exclusion, blk: int) -> (r: int)
        requires
            self.wf(),
            self.in_place(m, blk),
        ensures
            0 <= r < self.s_cm_rounds(),
            m matches Exclusion::CommitTerm(k) ==> r == k,
            m == Exclusion::CommitBoundary ==> blk == self.s_cm_leaf(r),
    {
        self.lemma_bounds();
        match m {
            Exclusion::CommitTerm(k) => k as int,
            Exclusion::CommitBoundary => choose|r: int|
                0 <= r < self.s_cm_rounds() && blk == #[trigger] self.s_cm_leaf(r),
            _ => 0,
        }
    }
}

} // verus!
