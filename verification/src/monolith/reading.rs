//! Reading the built trace back: where its writes land, and what the rows of a query's super-tile hold.

use vstd::arithmetic::power2::pow2;
use vstd::prelude::*;

use super::grid::{
    bit_felt, block_written, cell, held, law_block_keeps_others, law_written_cell, leaf_written, opening_written,
    ordered, path_written, written,
};
use super::heads::head_written;
use super::layout::{MonolithAir, M_INPUT_LEAF, QT_DBITS, QT_E};
use super::meaning::{law_chain_rows_fold, lemma_pair_cells};
use super::trace::{bit_at, chain_cells, chain_written, deep_point, QueryData};
use crate::bits::div_up;
use crate::expr::{value, Window};
use crate::field::{f_add, f_mul, f_red, x_red, Ext};
use crate::fri::merkle::contents;
use crate::gadgets::fold::coords;
use crate::fri::witness::{climbed_by_bits, fold_value, PairFold};
use crate::poseidon::{absorbed, sponge};
use crate::prime::{law_no_zero_divisors, law_nonzero_is_unit};
use crate::vanish::{pair_at, vanish};

verus! {

/// The traces agree but for the cells of rows `r0` to `r1` in the first `c1` columns.
pub open spec fn confined(g: Seq<u64>, g2: Seq<u64>, w: int, r0: int, r1: int, c1: int) -> bool {
    &&& g2.len() == g.len()
    &&& forall|r: int, c: int|
        0 <= r && 0 <= c < w && r * w + c < g.len() && !(r0 <= r < r1 && c < c1) ==> #[trigger] cell(g2, w, r, c) == cell(
            g,
            w,
            r,
            c,
        )
}

/// Two confined changes, one after the other.
pub(super) proof fn lemma_confined_twice(a: Seq<u64>, b: Seq<u64>, c: Seq<u64>, w: int, r0: int, r1: int, s0: int, s1: int, c1: int)
    requires
        confined(a, b, w, r0, r1, c1),
        confined(b, c, w, s0, s1, c1),
    ensures
        forall|lo: int, hi: int| lo <= r0 && lo <= s0 && r1 <= hi && s1 <= hi ==> #[trigger] confined(a, c, w, lo, hi, c1),
{
    assert forall|lo: int, hi: int| lo <= r0 && lo <= s0 && r1 <= hi && s1 <= hi implies #[trigger] confined(
        a,
        c,
        w,
        lo,
        hi,
        c1,
    ) by {
        assert forall|r: int, k: int|
            0 <= r && 0 <= k < w && r * w + k < a.len() && !(lo <= r < hi && k < c1) implies #[trigger] cell(c, w, r, k)
            == cell(a, w, r, k) by {
            assert(cell(c, w, r, k) == cell(b, w, r, k));
            assert(cell(b, w, r, k) == cell(a, w, r, k));
        }
    }
}

/// A block in the first columns.
pub(super) proof fn lemma_block_confined(g: Seq<u64>, w: int, row: int, input: Seq<u64>, tail: Seq<u64>)
    requires
        13 <= w,
        input.len() == 8,
        tail.len() <= 5,
    ensures
        confined(g, block_written(g, w, row, 0, input, tail, 32), w, row, row + 32, 13),
{
    let g2 = block_written(g, w, row, 0, input, tail, 32);
    lemma_block_len(g, w, row, input, tail, 32);
    assert forall|r: int, c: int|
        0 <= r && 0 <= c < w && r * w + c < g.len() && !(row <= r < row + 32 && c < 13) implies #[trigger] cell(g2, w, r, c)
        == cell(g, w, r, c) by {
        law_block_keeps_others(g, w, row, 0, input, tail, 32, r, c);
    }
}

proof fn lemma_block_len(g: Seq<u64>, w: int, row: int, input: Seq<u64>, tail: Seq<u64>, n: nat)
    ensures
        block_written(g, w, row, 0, input, tail, n).len() == g.len(),
    decreases n,
{
    reveal(super::grid::spliced);
    if n > 0 {
        lemma_block_len(g, w, row, input, tail, (n - 1) as nat);
    }
}

/// A leaf hash.
pub(super) proof fn lemma_leaf_confined(g: Seq<u64>, w: int, row: int, preimage: Seq<u64>, n: nat)
    requires
        13 <= w,
    ensures
        confined(g, leaf_written(g, w, row, preimage, n), w, row, row + 32 * n, 13),
    decreases n,
{
    if n > 0 {
        let m = (n - 1) as nat;
        let g1 = leaf_written(g, w, row, preimage, m);
        let input = absorbed(sponge(preimage, m), preimage, 4 * m as int);
        lemma_leaf_confined(g, w, row, preimage, m);
        lemma_block_confined(g1, w, row + 32 * m, input, Seq::empty());
        lemma_confined_twice(
            g,
            g1,
            leaf_written(g, w, row, preimage, n),
            w,
            row,
            row + 32 * m,
            row + 32 * m,
            row + 32 * m + 32,
            13,
        );
    }
}

/// A Merkle path.
pub(super) proof fn lemma_path_confined(
    g: Seq<u64>,
    w: int,
    row: int,
    leaf: Seq<u64>,
    siblings: Seq<Seq<u64>>,
    bits: Seq<bool>,
    n: nat,
)
    requires
        13 <= w,
        n <= siblings.len(),
        forall|i: int| 0 <= i < siblings.len() ==> (#[trigger] siblings[i]).len() == 4,
    ensures
        confined(g, path_written(g, w, row, leaf, siblings, bits, n), w, row, row + 32 * n, 13),
    decreases n,
{
    if n > 0 {
        let m = (n - 1) as nat;
        let g1 = path_written(g, w, row, leaf, siblings, bits, m);
        let input = ordered(climbed_by_bits(leaf, siblings, bits, m), siblings[m as int], bits[m as int]);
        let tail = siblings[m as int] + seq![bit_felt(bits[m as int])];
        lemma_path_confined(g, w, row, leaf, siblings, bits, m);
        lemma_block_confined(g1, w, row + 32 * m, input, tail);
        lemma_confined_twice(
            g,
            g1,
            path_written(g, w, row, leaf, siblings, bits, n),
            w,
            row,
            row + 32 * m,
            row + 32 * m,
            row + 32 * m + 32,
            13,
        );
    }
}

/// An opening.
pub(super) proof fn lemma_opening_confined(
    g: Seq<u64>,
    w: int,
    row: int,
    preimage: Seq<u64>,
    siblings: Seq<Seq<u64>>,
    bits: Seq<bool>,
)
    requires
        13 <= w,
        forall|i: int| 0 <= i < siblings.len() ==> (#[trigger] siblings[i]).len() == 4,
    ensures
        confined(
            g,
            opening_written(g, w, row, preimage, siblings, bits),
            w,
            row,
            row + 32 * (div_up(preimage.len() as int, 4) + siblings.len()),
            13,
        ),
{
    let blocks = div_up(preimage.len() as int, 4);
    let g1 = leaf_written(g, w, row, preimage, blocks as nat);
    let leaf = crate::poseidon::leaf_hash(preimage);
    lemma_leaf_confined(g, w, row, preimage, blocks as nat);
    lemma_path_confined(g1, w, row + 32 * blocks, leaf, siblings, bits, siblings.len());
    lemma_confined_twice(
        g,
        g1,
        opening_written(g, w, row, preimage, siblings, bits),
        w,
        row,
        row + 32 * blocks,
        row + 32 * blocks,
        row + 32 * (blocks + siblings.len()),
        13,
    );
}

/// The lengths of a path's siblings.
pub(super) proof fn lemma_siblings(path: super::grid::PathData, depth: int)
    requires
        path.ok(depth),
    ensures
        contents(path.siblings@).len() == depth,
        forall|i: int| 0 <= i < contents(path.siblings@).len() ==> (#[trigger] contents(path.siblings@)[i]).len() == 4,
{
    assert forall|i: int| 0 <= i < contents(path.siblings@).len() implies (#[trigger] contents(path.siblings@)[i]).len()
        == 4 by {
        assert(path.siblings@[i]@.len() == 4);
    }
}

impl MonolithAir {
    /// The openings of the commit rounds stay in their blocks.
    #[verifier::spinoff_prover]
    #[verifier::rlimit(40)]
    pub(super) proof fn lemma_commits_confined(&self, g: Seq<u64>, w: int, row: int, q: QueryData, n: nat)
        requires
            self.buildable(),
            self.query_fits(q),
            13 <= w,
            n <= self.s_cm_rounds(),
        ensures
            confined(
                g,
                self.s_commits_written(g, w, row, q, n),
                w,
                row + 32 * (self.s_m_quot_term() + 1),
                row + 32 * self.s_cm_leaf(n as int),
                13,
            ),
        decreases n,
    {
        if n > 0 {
            let m = (n - 1) as nat;
            let g1 = self.s_commits_written(g, w, row, q, m);
            let c = q.commits@[m as int];
            self.lemma_commits_confined(g, w, row, q, m);
            self.lemma_cm_leaf_bound(m);
            self.lemma_rounds_monotone(0, m as int);
            self.lemma_preimages(q, 0);
            let preimage = self.s_commit_preimage(q, m as int);
            assert(preimage.len() == self.s_cm_leaf_felts());
            assert(q.commits@[m as int].path.ok(self.s_cm_depth_r(m as int)));
            lemma_siblings(c.path, self.s_cm_depth_r(m as int));
            let at = row + 32 * self.s_cm_leaf(m as int);
            lemma_opening_confined(g1, w, at, preimage, contents(c.path.siblings@), c.path.bits@);
            lemma_confined_twice(
                g,
                g1,
                self.s_commits_written(g, w, row, q, n),
                w,
                row + 32 * (self.s_m_quot_term() + 1),
                at,
                at,
                at + 32 * (self.s_cm_leaf_blocks() + self.s_cm_depth_r(m as int)),
                13,
            );
        }
    }

    /// The openings of a query stay in the blocks behind the first of the super-tile.
    #[verifier::spinoff_prover]
    #[verifier::rlimit(40)]
    pub(super) proof fn lemma_openings_confined(&self, g: Seq<u64>, w: int, row: int, q: QueryData)
        requires
            self.buildable(),
            self.query_fits(q),
            13 <= w,
        ensures
            confined(
                g,
                self.s_openings_written(g, w, row, q),
                w,
                row + 32 * M_INPUT_LEAF,
                row + self.s_m_period(),
                13,
            ),
    {
        let (lo, hi) = (row + 32 * M_INPUT_LEAF, row + self.s_m_period());
        let depth = self.s_input_depth();
        self.lemma_openings_fit();
        self.lemma_preimages(q, self.s_nqc() as nat);
        let g1 = match q.hiding {
            Some(hw) => opening_written(
                g,
                w,
                lo,
                self.s_random_preimage(q),
                contents(hw.random_path.siblings@),
                hw.random_path.bits@,
            ),
            None => g,
        };
        let g2 = match q.aux_path {
            Some(p) => opening_written(g1, w, lo, self.s_aux_preimage(q), contents(p.siblings@), p.bits@),
            None => g1,
        };
        let at3 = row + 32 * self.s_m_input_leaf();
        let g3 = opening_written(g2, w, at3, self.s_input_preimage(q), contents(q.path.siblings@), q.path.bits@);
        let at4 = row + 32 * self.s_m_quot_leaf();
        let quot = self.s_quot_preimage(q, self.s_nqc() as nat);
        let g4 = opening_written(g3, w, at4, quot, contents(q.quot_path.siblings@), q.quot_path.bits@);
        let g5 = self.s_commits_written(g4, w, row, q, self.s_cm_rounds() as nat);
        if let Some(hw) = q.hiding {
            let pre = self.s_random_preimage(q);
            lemma_siblings(hw.random_path, depth);
            lemma_opening_confined(g, w, lo, pre, contents(hw.random_path.siblings@), hw.random_path.bits@);
            let end = lo + 32 * (div_up(pre.len() as int, 4) + depth);
            assert(confined(g, g1, w, lo, end, 13));
            lemma_confined_twice(g, g, g1, w, lo, lo, lo, end, 13);
        }
        assert(confined(g, g1, w, lo, hi, 13));
        if let Some(p) = q.aux_path {
            let pre = self.s_aux_preimage(q);
            lemma_siblings(p, depth);
            lemma_opening_confined(g1, w, lo, pre, contents(p.siblings@), p.bits@);
            lemma_confined_twice(g, g1, g2, w, lo, hi, lo, lo + 32 * (div_up(pre.len() as int, 4) + depth), 13);
        }
        assert(confined(g, g2, w, lo, hi, 13));
        lemma_siblings(q.path, depth);
        lemma_siblings(q.quot_path, depth);
        let pre = self.s_input_preimage(q);
        lemma_opening_confined(g2, w, at3, pre, contents(q.path.siblings@), q.path.bits@);
        lemma_confined_twice(g, g2, g3, w, lo, hi, at3, at3 + 32 * (div_up(pre.len() as int, 4) + depth), 13);
        assert(confined(g, g3, w, lo, hi, 13));
        lemma_opening_confined(g3, w, at4, quot, contents(q.quot_path.siblings@), q.quot_path.bits@);
        lemma_confined_twice(g, g3, g4, w, lo, hi, at4, at4 + 32 * (div_up(quot.len() as int, 4) + depth), 13);
        assert(confined(g, g4, w, lo, hi, 13));
        self.lemma_commits_confined(g4, w, row, q, self.s_cm_rounds() as nat);
        self.lemma_rounds_monotone(0, self.s_cm_rounds());
        self.lemma_cm_leaf_bound((self.s_cm_rounds() - 1) as nat);
        lemma_confined_twice(
            g,
            g4,
            g5,
            w,
            lo,
            hi,
            row + 32 * (self.s_m_quot_term() + 1),
            row + 32 * self.s_cm_leaf(self.s_cm_rounds()),
            13,
        );
        assert(confined(g, g5, w, lo, hi, 13));
    }
}

/// A cell of held rows.
pub(super) proof fn lemma_held_cell(g: Seq<u64>, w: int, row: int, n: nat, col: int, vs: Seq<u64>, r: int, c: int)
    requires
        0 <= c < w,
        0 <= col,
        col + vs.len() <= w,
        0 <= r,
        r * w + c < g.len(),
    ensures
        held(g, w, row, n, col, vs).len() == g.len(),
        cell(held(g, w, row, n, col, vs), w, r, c) == (if row <= r < row + n && col <= c < col + vs.len() {
            vs[c - col]
        } else {
            cell(g, w, r, c)
        }),
    decreases n,
{
    if n > 0 {
        let m = (n - 1) as nat;
        lemma_held_cell(g, w, row, m, col, vs, r, c);
        law_written_cell(held(g, w, row, m, col, vs), w, row + n - 1, col, vs, r, c);
    }
}

/// How many cells a row of the fold chain has.
pub(super) proof fn lemma_chain_len(ro: Ext, rounds: Seq<PairFold>, r: nat)
    ensures
        chain_cells(ro, rounds, r).len() == (if r < rounds.len() {
            9int
        } else {
            2
        }),
{
}

/// A cell of the fold chain.
pub(super) proof fn lemma_chain_cell(g: Seq<u64>, w: int, row: int, ro: Ext, rounds: Seq<PairFold>, n: nat, r: int, c: int)
    requires
        0 <= c < w,
        9 <= w,
        0 <= r,
        r * w + c < g.len(),
    ensures
        chain_written(g, w, row, ro, rounds, n).len() == g.len(),
        cell(chain_written(g, w, row, ro, rounds, n), w, r, c) == (if row <= r < row + n && c < chain_cells(
            ro,
            rounds,
            (r - row) as nat,
        ).len() {
            chain_cells(ro, rounds, (r - row) as nat)[c]
        } else {
            cell(g, w, r, c)
        }),
    decreases n,
{
    if n > 0 {
        let m = (n - 1) as nat;
        lemma_chain_len(ro, rounds, m);
        lemma_chain_cell(g, w, row, ro, rounds, m, r, c);
        law_written_cell(
            chain_written(g, w, row, ro, rounds, m),
            w,
            row + n - 1,
            QT_E as int,
            chain_cells(ro, rounds, m),
            r,
            c,
        );
    }
}

impl MonolithAir {
    /// A cell of the index shift register.
    pub(super) proof fn lemma_rem_cell(&self, g: Seq<u64>, w: int, row: int, v: nat, n: nat, r: int, c: int)
        requires
            0 <= c < w,
            0 <= self.s_idx_rem() < w,
            0 <= r,
            r * w + c < g.len(),
        ensures
            self.s_rem_written(g, w, row, v, n).len() == g.len(),
            cell(self.s_rem_written(g, w, row, v, n), w, r, c) == (if row <= r < row + n && c == self.s_idx_rem() {
                ((v % pow2(self.s_lg() as nat)) / pow2((r - row) as nat)) as u64
            } else {
                cell(g, w, r, c)
            }),
        decreases n,
    {
        if n > 0 {
            let m = (n - 1) as nat;
            self.lemma_rem_cell(g, w, row, v, m, r, c);
            law_written_cell(
                self.s_rem_written(g, w, row, v, m),
                w,
                row + n - 1,
                self.s_idx_rem(),
                seq![((v % pow2(self.s_lg() as nat)) / pow2(m)) as u64],
                r,
                c,
            );
        }
    }

    /// The cells of the held columns of a query fill the columns up to the window.
    pub open spec fn carriers_fill(&self, q: QueryData) -> bool {
        self.s_ov() + self.s_carrier_cells(q).len() == self.s_pw_base()
    }

    /// A cell of a super-tile, outside the blocks of its openings.
    pub open spec fn s_tile_cell(&self, g: Seq<u64>, w: int, row: int, q: QueryData, r: int, c: int) -> u64 {
        let v = f_red(q.felt as int) as nat;
        let (head, carriers) = (self.s_head_cells(q), self.s_carrier_cells(q));
        let at = r - row;
        if self.s_ov() <= c < self.s_ov() + carriers.len() {
            carriers[c - self.s_ov()]
        } else if c == self.s_idx_rem() && at < self.s_nb() - 2 {
            ((v % pow2(self.s_lg() as nat)) / pow2(at as nat)) as u64
        } else if at == 0 && QT_DBITS <= c < QT_DBITS + head.len() {
            head[c - QT_DBITS]
        } else if at <= self.s_cm_rounds() && c < chain_cells(q.ro, q.rounds@, at as nat).len() {
            chain_cells(q.ro, q.rounds@, at as nat)[c]
        } else {
            cell(g, w, r, c)
        }
    }

    /// Writing a super-tile leaves the other rows alone, and lays out its own.
    #[verifier::spinoff_prover]
    #[verifier::rlimit(40)]
    pub(super) proof fn lemma_tile_cell(&self, g: Seq<u64>, w: int, row: int, q: QueryData, r: int, c: int)
        requires
            self.buildable(),
            self.query_fits(q),
            self.carriers_fill(q),
            w == self.s_fused_w(),
            0 <= c < w,
            0 <= r,
            r * w + c < g.len(),
        ensures
            self.s_tile_written(g, w, row, q).len() == g.len(),
            !(row <= r < row + self.s_m_period()) ==> cell(self.s_tile_written(g, w, row, q), w, r, c) == cell(g, w, r, c),
            row <= r < row + self.s_m_period() && !(c < 13 && r >= row + 32) ==> cell(
                self.s_tile_written(g, w, row, q),
                w,
                r,
                c,
            ) == self.s_tile_cell(g, w, row, q, r, c),
    {
        let v = f_red(q.felt as int) as nat;
        let g1 = chain_written(g, w, row, q.ro, q.rounds@, (self.s_cm_rounds() + 1) as nat);
        let head = self.s_head_cells(q);
        let g2 = written(g1, w, row, QT_DBITS as int, head);
        let g3 = self.s_rem_written(g2, w, row, v, (self.s_nb() - 2) as nat);
        let g4 = self.s_openings_written(g3, w, row, q);
        self.lemma_bounds();
        self.lemma_terms();
        self.lemma_terms_len(
            q.terms@,
            deep_point(q.index as nat, self.s_lg() as nat),
            q.alpha,
            q.terms@.len(),
        );
        assert(QT_DBITS + head.len() == self.s_idx_rem());
        lemma_chain_cell(g, w, row, q.ro, q.rounds@, (self.s_cm_rounds() + 1) as nat, r, c);
        law_written_cell(g1, w, row, QT_DBITS as int, head, r, c);
        self.lemma_rem_cell(g2, w, row, v, (self.s_nb() - 2) as nat, r, c);
        self.lemma_openings_confined(g3, w, row, q);
        lemma_held_cell(g4, w, row, self.s_m_period() as nat, self.s_ov(), self.s_carrier_cells(q), r, c);
        assert(!(row + 32 <= r < row + self.s_m_period() && c < 13) ==> cell(g4, w, r, c) == cell(g3, w, r, c));
    }
}

/// Row `r` of a trace.
pub open spec fn row_at(g: Seq<u64>, w: int, r: int) -> Seq<u64> {
    Seq::new(w as nat, |c: int| cell(g, w, r, c))
}

/// What the rows of a query's super-tile hold: the head row, the fold chain, the register and the carriers.
pub open spec fn tile_holds(air: MonolithAir, g: Seq<u64>, row: int, q: QueryData) -> bool {
    let w = air.s_fold_w();
    let carriers = air.s_carrier_cells(q);
    let v = f_red(q.felt as int) as nat;
    &&& head_written(air, row_at(g, w, row), q)
    &&& forall|r: int, c: int|
        0 <= r <= air.s_cm_rounds() && r < 32 && 0 <= c < chain_cells(q.ro, q.rounds@, r as nat).len()
            ==> #[trigger] cell(g, w, row + r, c) == chain_cells(q.ro, q.rounds@, r as nat)[c]
    &&& forall|r: int|
        0 <= r < air.s_nb() - 2 ==> #[trigger] cell(g, w, row + r, air.s_idx_rem()) == (v % pow2(air.s_lg() as nat)) / pow2(
            r as nat,
        )
    &&& forall|r: int, i: int|
        0 <= r < air.s_m_period() && 0 <= i < carriers.len() ==> #[trigger] cell(g, w, row + r, air.s_ov() + i)
            == carriers[i]
}

/// A cell below `h` rows.
pub(super) proof fn lemma_in_rows(h: int, w: int, r: int, c: int)
    requires
        0 <= r < h,
        0 <= c < w,
    ensures
        0 <= r * w + c < h * w,
{
    assert(0 <= r * w && r * w + w <= h * w) by (nonlinear_arith)
        requires
            0 <= r,
            r + 1 <= h,
            0 <= w,
    ;
}

impl MonolithAir {
    /// A cell of a super-tile once all are written.
    #[verifier::spinoff_prover]
    #[verifier::rlimit(40)]
    proof fn lemma_tiles_cell(&self, g: Seq<u64>, w: int, qs: Seq<QueryData>, n: nat, t: int, r: int, c: int)
        requires
            self.buildable(),
            w == self.s_fused_w(),
            forall|k: int| 0 <= k < n ==> self.query_fits(#[trigger] qs[k]) && self.carriers_fill(qs[k]),
            0 <= t,
            n <= qs.len(),
            0 <= c < w,
            self.s_tile(t) <= r < self.s_tile(t) + self.s_m_period(),
            !(c < 13 && r >= self.s_tile(t) + 32),
            r * w + c < g.len(),
        ensures
            self.s_tiles_written(g, w, qs, n).len() == g.len(),
            t < n ==> cell(self.s_tiles_written(g, w, qs, n), w, r, c) == self.s_tile_cell(
                self.s_tiles_written(g, w, qs, t as nat),
                w,
                self.s_tile(t),
                qs[t],
                r,
                c,
            ),
        decreases n,
    {
        self.lemma_bounds();
        assert(0 <= t * self.s_m_period()) by (nonlinear_arith)
            requires
                0 <= t,
                0 <= self.s_m_period(),
        ;
        if n > 0 {
            let m = (n - 1) as nat;
            let g1 = self.s_tiles_written(g, w, qs, m);
            let row = self.s_tile(m as int);
            self.lemma_tiles_cell(g, w, qs, m, t, r, c);
            assert(self.query_fits(qs[m as int]) && self.carriers_fill(qs[m as int]));
            self.lemma_tile_cell(g1, w, row, qs[m as int], r, c);
            if t < m {
                assert(t * self.s_m_period() + self.s_m_period() <= m * self.s_m_period()) by (nonlinear_arith)
                    requires
                        t + 1 <= m,
                        0 <= self.s_m_period(),
                ;
            }
        }
    }

    /// A cell of the whole trace in a super-tile, but for the carried challenge and the window.
    #[verifier::spinoff_prover]
    #[verifier::rlimit(40)]
    proof fn lemma_trace_cell(
        &self,
        blocks: Seq<Seq<u64>>,
        qs: Seq<QueryData>,
        alpha: Ext,
        window: Seq<u64>,
        t: int,
        r: int,
        c: int,
    )
        requires
            self.buildable(),
            forall|k: int| 0 <= k < qs.len() ==> self.query_fits(#[trigger] qs[k]) && self.carriers_fill(qs[k]),
            self.column_window ==> window.len() == self.s_pis_count(),
            0 <= t < qs.len(),
            0 <= c < self.s_pw_base(),
            !(self.s_carry() <= c < self.s_ov()),
            self.s_tile(t) <= r < self.s_tile(t) + self.s_m_period(),
            !(c < 13 && r >= self.s_tile(t) + 32),
            r < self.s_height(),
            self.s_transcript_written(
                Seq::new((self.s_height() * self.s_fused_w()) as nat, |i: int| 0u64),
                self.s_fused_w(),
                blocks,
                self.s_tr() as nat,
            ).len() == self.s_height() * self.s_fused_w(),
        ensures
            exists|g: Seq<u64>| cell(self.s_trace(blocks, qs, alpha, window), self.s_fused_w(), r, c)
                == #[trigger] self.s_tile_cell(g, self.s_fused_w(), self.s_tile(t), qs[t], r, c),
    {
        let (h, w) = (self.s_height(), self.s_fused_w());
        let g0 = Seq::new((h * w) as nat, |i: int| 0u64);
        let g1 = self.s_transcript_written(g0, w, blocks, self.s_tr() as nat);
        let g2 = self.s_tiles_written(g1, w, qs, qs.len());
        let g3 = held(g2, w, 0, h as nat, self.s_carry(), coords(alpha));
        self.lemma_bounds();
        self.lemma_terms();
        assert(0 <= t * self.s_m_period()) by (nonlinear_arith)
            requires
                0 <= t,
                0 <= self.s_m_period(),
        ;
        lemma_in_rows(h, w, r, c);
        self.lemma_tiles_cell(g1, w, qs, qs.len(), t, r, c);
        lemma_held_cell(g2, w, 0, h as nat, self.s_carry(), coords(alpha), r, c);
        if self.column_window {
            let at = 2 * self.s_nlc() + 2;
            let zeta = Ext { c0: window[at], c1: window[at + 1] };
            let vs = window + self.s_squares(zeta, self.s_cm_rounds() as nat);
            self.lemma_squares_len(zeta, self.s_cm_rounds() as nat);
            lemma_held_cell(g3, w, 0, h as nat, self.s_pw_base(), vs, r, c);
        }
        let before = self.s_tiles_written(g1, w, qs, t as nat);
        assert(cell(self.s_trace(blocks, qs, alpha, window), w, r, c) == self.s_tile_cell(
            before,
            w,
            self.s_tile(t),
            qs[t],
            r,
            c,
        ));
    }

    pub(super) proof fn lemma_squares_len(&self, zeta: Ext, n: nat)
        ensures
            self.s_squares(zeta, n).len() == 2 * n,
        decreases n,
    {
        if n > 0 {
            self.lemma_squares_len(zeta, (n - 1) as nat);
        }
    }
}

impl MonolithAir {
    /// The trace could be laid out: the queries have the shape of the verifier and their tiles fit its height.
    pub open spec fn lays_out(&self, blocks: Seq<Seq<u64>>, qs: Seq<QueryData>, window: Seq<u64>) -> bool {
        &&& self.buildable()
        &&& !self.fold
        &&& 1 <= self.k_instances
        &&& forall|k: int| 0 <= k < qs.len() ==> self.query_fits(#[trigger] qs[k]) && self.carriers_fill(qs[k])
        &&& self.column_window ==> window.len() == self.s_pis_count()
        &&& self.s_tr() + qs.len() * self.s_m_period() <= self.s_height()
        &&& self.s_transcript_written(
            Seq::new((self.s_height() * self.s_fused_w()) as nat, |i: int| 0u64),
            self.s_fused_w(),
            blocks,
            self.s_tr() as nat,
        ).len() == self.s_height() * self.s_fused_w()
    }

    /// The rows of super-tile `t` lie in the trace.
    pub(super) proof fn lemma_tile_rows(&self, n: int, t: int)
        requires
            self.wf(),
            0 <= t < n,
            self.s_tr() + n * self.s_m_period() <= self.s_height(),
        ensures
            0 <= self.s_tr() <= self.s_tile(t),
            self.s_tile(t) + self.s_m_period() <= self.s_height(),
            self.s_cm_rounds() < self.s_nb() - 2,
            32 <= self.s_m_period(),
    {
        self.lemma_bounds();
        self.lemma_openings_fit();
        let p = self.s_m_period();
        assert(0 <= t * p && t * p + p <= n * p) by (nonlinear_arith)
            requires
                0 <= t,
                t + 1 <= n,
                0 <= p,
        ;
    }

    /// The head row of a super-tile.
    #[verifier::spinoff_prover]
    #[verifier::rlimit(40)]
    proof fn lemma_head_holds(&self, blocks: Seq<Seq<u64>>, qs: Seq<QueryData>, alpha: Ext, window: Seq<u64>, t: int)
        requires
            self.lays_out(blocks, qs, window),
            0 <= t < qs.len(),
        ensures
            head_written(
                *self,
                row_at(self.s_trace(blocks, qs, alpha, window), self.s_fused_w(), self.s_tile(t)),
                qs[t],
            ),
    {
        let g = self.s_trace(blocks, qs, alpha, window);
        let (w, row, q) = (self.s_fused_w(), self.s_tile(t), qs[t]);
        let cells = self.s_head_cells(q);
        self.lemma_tile_rows(qs.len() as int, t);
        self.lemma_bounds();
        self.lemma_terms();
        assert(self.query_fits(qs[t]));
        self.lemma_terms_len(q.terms@, deep_point(q.index as nat, self.s_lg() as nat), q.alpha, q.terms@.len());
        assert(QT_DBITS + cells.len() == self.s_idx_rem());
        assert forall|i: int| 0 <= i < cells.len() implies row_at(g, w, row)[QT_DBITS + i] == #[trigger] cells[i] by {
            self.lemma_trace_cell(blocks, qs, alpha, window, t, row, QT_DBITS + i);
        }
        self.lemma_trace_cell(blocks, qs, alpha, window, t, row, self.s_idx_rem());
        vstd::arithmetic::power2::lemma2_to64();
        vstd::arithmetic::power2::lemma_pow2_pos(self.s_lg() as nat);
        let v = f_red(q.felt as int) as nat;
        vstd::arithmetic::div_mod::lemma_mod_decreases(v, pow2(self.s_lg() as nat));
        vstd::arithmetic::div_mod::lemma_div_basics((v % pow2(self.s_lg() as nat)) as int);
    }

    /// What the super-tiles of the trace hold.
    #[verifier::spinoff_prover]
    #[verifier::rlimit(40)]
    pub(super) proof fn lemma_tile_holds(
        &self,
        blocks: Seq<Seq<u64>>,
        qs: Seq<QueryData>,
        alpha: Ext,
        window: Seq<u64>,
        t: int,
    )
        requires
            self.lays_out(blocks, qs, window),
            0 <= t < qs.len(),
        ensures
            tile_holds(*self, self.s_trace(blocks, qs, alpha, window), self.s_tile(t), qs[t]),
    {
        let g = self.s_trace(blocks, qs, alpha, window);
        let (w, row, q) = (self.s_fused_w(), self.s_tile(t), qs[t]);
        let carriers = self.s_carrier_cells(q);
        let v = f_red(q.felt as int) as nat;
        self.lemma_tile_rows(qs.len() as int, t);
        self.lemma_bounds();
        self.lemma_terms();
        self.lemma_head_holds(blocks, qs, alpha, window, t);
        assert(self.query_fits(qs[t]) && self.carriers_fill(qs[t]));
        assert forall|r: int, c: int|
            0 <= r <= self.s_cm_rounds() && r < 32 && 0 <= c < chain_cells(q.ro, q.rounds@, r as nat).len()
            implies #[trigger] cell(g, w, row + r, c) == chain_cells(q.ro, q.rounds@, r as nat)[c] by {
            lemma_chain_len(q.ro, q.rounds@, r as nat);
            self.lemma_trace_cell(blocks, qs, alpha, window, t, row + r, c);
        }
        assert forall|r: int| 0 <= r < self.s_nb() - 2 implies #[trigger] cell(g, w, row + r, self.s_idx_rem()) == (v
            % pow2(self.s_lg() as nat)) / pow2(r as nat) by {
            self.lemma_trace_cell(blocks, qs, alpha, window, t, row + r, self.s_idx_rem());
            vstd::arithmetic::power2::lemma_pow2_pos(r as nat);
            vstd::arithmetic::power2::lemma_pow2_pos(self.s_lg() as nat);
            let m = v % pow2(self.s_lg() as nat);
            vstd::arithmetic::div_mod::lemma_mod_decreases(v, pow2(self.s_lg() as nat));
            vstd::arithmetic::div_mod::lemma_div_nonincreasing(m as int, pow2(r as nat) as int);
        }
        assert forall|r: int, i: int| 0 <= r < self.s_m_period() && 0 <= i < carriers.len() implies #[trigger] cell(
            g,
            w,
            row + r,
            self.s_ov() + i,
        ) == carriers[i] by {
            self.lemma_trace_cell(blocks, qs, alpha, window, t, row + r, self.s_ov() + i);
        }
    }

    /// Writing super-tiles keeps the size of the trace.
    pub(super) proof fn lemma_tiles_len(&self, g: Seq<u64>, w: int, qs: Seq<QueryData>, n: nat)
        requires
            self.buildable(),
            w == self.s_fused_w(),
            0 < w,
            g.len() > 0,
            n <= qs.len(),
            forall|k: int| 0 <= k < n ==> self.query_fits(#[trigger] qs[k]) && self.carriers_fill(qs[k]),
        ensures
            self.s_tiles_written(g, w, qs, n).len() == g.len(),
        decreases n,
    {
        if n > 0 {
            let m = (n - 1) as nat;
            self.lemma_tiles_len(g, w, qs, m);
            assert(self.query_fits(qs[m as int]) && self.carriers_fill(qs[m as int]));
            assert(0 * w == 0) by (nonlinear_arith);
            self.lemma_tile_cell(self.s_tiles_written(g, w, qs, m), w, self.s_tr() + (n - 1) * self.s_m_period(), qs[n - 1], 0, 0);
        }
    }

    /// A coordinate of the carried challenge.
    #[verifier::spinoff_prover]
    #[verifier::rlimit(40)]
    proof fn lemma_carry_cell(
        &self,
        blocks: Seq<Seq<u64>>,
        qs: Seq<QueryData>,
        alpha: Ext,
        window: Seq<u64>,
        r: int,
        k: int,
    )
        requires
            self.lays_out(blocks, qs, window),
            0 <= r < self.s_height(),
            0 <= k < 2,
        ensures
            cell(self.s_trace(blocks, qs, alpha, window), self.s_fused_w(), r, self.s_carry() + k) == coords(alpha)[k],
            0 <= self.s_carry(),
            self.s_carry() + 2 <= self.s_fused_w(),
    {
        let (h, w) = (self.s_height(), self.s_fused_w());
        let g0 = Seq::new((h * w) as nat, |i: int| 0u64);
        let g1 = self.s_transcript_written(g0, w, blocks, self.s_tr() as nat);
        let g2 = self.s_tiles_written(g1, w, qs, qs.len());
        let g3 = held(g2, w, 0, h as nat, self.s_carry(), coords(alpha));
        self.lemma_bounds();
        self.lemma_terms();
        let at = self.s_carry() + k;
        lemma_in_rows(h, w, r, at);
        self.lemma_tiles_len(g1, w, qs, qs.len());
        lemma_held_cell(g2, w, 0, h as nat, self.s_carry(), coords(alpha), r, at);
        if self.column_window {
            let z = 2 * self.s_nlc() + 2;
            let zeta = Ext { c0: window[z], c1: window[z + 1] };
            let vs = window + self.s_squares(zeta, self.s_cm_rounds() as nat);
            self.lemma_squares_len(zeta, self.s_cm_rounds() as nat);
            lemma_held_cell(g3, w, 0, h as nat, self.s_pw_base(), vs, r, at);
        }
    }

    /// The batching challenge is carried in every row.
    pub(super) proof fn lemma_carry_holds(
        &self,
        blocks: Seq<Seq<u64>>,
        qs: Seq<QueryData>,
        alpha: Ext,
        window: Seq<u64>,
        r: int,
    )
        requires
            self.lays_out(blocks, qs, window),
            0 <= r < self.s_height(),
        ensures
            pair_at(row_at(self.s_trace(blocks, qs, alpha, window), self.s_fused_w(), r), self.s_carry()) == x_red(alpha),
    {
        self.lemma_carry_cell(blocks, qs, alpha, window, r, 0);
        self.lemma_carry_cell(blocks, qs, alpha, window, r, 1);
        lemma_pair_in_row(self.s_trace(blocks, qs, alpha, window), self.s_fused_w(), r, self.s_carry(), alpha);
    }
}

/// Two cells that hold the coordinates of an element.
pub(super) proof fn lemma_pair_in_row(g: Seq<u64>, w: int, r: int, at: int, e: Ext)
    requires
        0 <= at,
        at + 2 <= w,
        cell(g, w, r, at + 0) == coords(e)[0],
        cell(g, w, r, at + 1) == coords(e)[1],
    ensures
        pair_at(row_at(g, w, r), at) == x_red(e),
{
    let row = row_at(g, w, r);
    assert(row[at] == f_red(e.c0 as int) && row[at + 1] == f_red(e.c1 as int));
    lemma_pair_cells(row, at, e);
}

/// Halving a number sheds its low bit.
proof fn lemma_shed_bit(m: nat, r: nat)
    ensures
        m / pow2(r) == 2 * (m / pow2(r + 1)) + bit_at(m, r),
{
    vstd::arithmetic::power2::lemma_pow2_pos(r);
    vstd::arithmetic::power2::lemma_pow2_unfold(r + 1);
    vstd::arithmetic::div_mod::lemma_div_denominator(m as int, pow2(r) as int, 2);
    assert(pow2(r) * 2 == pow2(r + 1)) by (nonlinear_arith)
        requires
            pow2(r + 1) == 2 * pow2(r),
    ;
    vstd::arithmetic::div_mod::lemma_fundamental_div_mod((m / pow2(r)) as int, 2);
}

/// The register between two rows of the chain.
proof fn lemma_register_sheds(v: nat, lg: nat, r: nat)
    requires
        lg <= 32,
    ensures
        ({
            let m = v % pow2(lg);
            let (a, b) = ((m / pow2(r)) as u64, (m / pow2(r + 1)) as u64);
            &&& a == m / pow2(r) && b == m / pow2(r + 1)
            &&& f_red(a as int) == f_add(f_mul(2, f_red(b as int)), bit_at(m, r) as u64)
        }),
{
    let m = v % pow2(lg);
    vstd::arithmetic::power2::lemma_pow2_pos(lg);
    vstd::arithmetic::power2::lemma_pow2_pos(r);
    vstd::arithmetic::power2::lemma_pow2_pos(r + 1);
    vstd::arithmetic::power2::lemma2_to64();
    crate::bits::lemma_pow2_monotone(lg, 32);
    vstd::arithmetic::div_mod::lemma_mod_bound(v as int, pow2(lg) as int);
    vstd::arithmetic::div_mod::lemma_div_nonincreasing(m as int, pow2(r) as int);
    vstd::arithmetic::div_mod::lemma_div_nonincreasing(m as int, pow2(r + 1) as int);
    lemma_shed_bit(m, r);
}

/// In the built trace every row of a query's fold chain is a round of the fold constraints: they vanish, where the bits
/// of the rounds are those of the index.
#[verifier::spinoff_prover]
#[verifier::rlimit(40)]
pub proof fn law_built_fold_rows(air: MonolithAir, g: Seq<u64>, row: int, q: QueryData, r: int, w: Window)
    requires
        air.wf(),
        air.s_lg() <= 32,
        air.query_fits(q),
        tile_holds(air, g, row, q),
        0 <= r < air.s_cm_rounds(),
        r + 1 < 32,
        f_mul(2, q.rounds@[r].point) != 0,
        q.rounds@[r].bit == (bit_at(f_red(q.felt as int) as nat % pow2(air.s_lg() as nat), r as nat) == 1),
        w.cur == row_at(g, air.s_fold_w(), row + r),
        w.nxt == row_at(g, air.s_fold_w(), row + r + 1),
        w.is_transition == 1,
        value(air.s_round_mask(air.s_cm_rounds()), w) == 1,
    ensures
        vanish(air.s_fold_rows().take(5), w),
{
    let (v, lg, width) = (f_red(q.felt as int) as nat, air.s_lg() as nat, air.s_fold_w());
    let rounds = q.rounds@;
    air.lemma_bounds();
    air.lemma_terms();
    lemma_chain_len(q.ro, rounds, r as nat);
    lemma_chain_len(q.ro, rounds, (r + 1) as nat);
    assert forall|i: int| 0 <= i < 9 implies #[trigger] w.cur[QT_E + i] == chain_cells(q.ro, rounds, r as nat)[i] by {
        assert(cell(g, width, row + r, i) == chain_cells(q.ro, rounds, r as nat)[i]);
    }
    assert forall|i: int| 0 <= i < 2 implies #[trigger] w.nxt[QT_E + i] == chain_cells(q.ro, rounds, (r + 1) as nat)[i] by {
        assert(cell(g, width, row + (r + 1), i) == chain_cells(q.ro, rounds, (r + 1) as nat)[i]);
    }
    lemma_register_sheds(v, lg, r as nat);
    assert(cell(g, width, row + r, air.s_idx_rem()) == (v % pow2(lg)) / pow2(r as nat));
    assert(cell(g, width, row + (r + 1), air.s_idx_rem()) == (v % pow2(lg)) / pow2((r + 1) as nat));
    assert(bit_felt(rounds[r].bit) == bit_at(v % pow2(lg), r as nat));
    law_no_zero_divisors(2, rounds[r].point);
    law_nonzero_is_unit(rounds[r].point);
    law_chain_rows_fold(air, q.ro, rounds, r as nat, w);
}

/// On the accept row of a query the running value is the last fold of its chain.
pub proof fn law_built_accept_row(air: MonolithAir, g: Seq<u64>, row: int, q: QueryData, w: Window)
    requires
        air.wf(),
        air.query_fits(q),
        air.s_cm_rounds() < 32,
        tile_holds(air, g, row, q),
        w.cur == row_at(g, air.s_fold_w(), row + air.s_cm_rounds()),
    ensures
        pair_at(w.cur, QT_E as int) == x_red(fold_value(q.ro, q.rounds@, air.s_cm_rounds() as nat)),
{
    let (n, width) = (air.s_cm_rounds(), air.s_fold_w());
    let e = fold_value(q.ro, q.rounds@, n as nat);
    air.lemma_bounds();
    air.lemma_terms();
    lemma_chain_len(q.ro, q.rounds@, n as nat);
    let at = QT_E as int;
    assert(cell(g, width, row + n, at + 0) == chain_cells(q.ro, q.rounds@, n as nat)[0]);
    assert(cell(g, width, row + n, at + 1) == chain_cells(q.ro, q.rounds@, n as nat)[1]);
    lemma_pair_in_row(g, width, row + n, at, e);
}

} // verus!
