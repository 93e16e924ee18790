//! The Merkle openings in the built trace: their blocks stand where they were written, and satisfy the permutation and
//! link constraints.

use vstd::prelude::*;

use super::grid::{
    bit_felt, block_written, cell, held, law_written_cell, leaf_written, opening_written, ordered, path_written,
    written, PathData,
};
use super::layout::{MonolithAir, M_INPUT_LEAF, QT_DBITS};
use super::reading::{
    confined, lemma_block_confined, lemma_chain_cell, lemma_confined_twice, lemma_held_cell, lemma_in_rows,
    lemma_leaf_confined, lemma_opening_confined, lemma_path_confined, lemma_siblings,
};
use super::trace::{chain_written, deep_point, QueryData};
use crate::bits::div_up;
use crate::field::{f_red, Ext};
use crate::fri::merkle::contents;
use crate::fri::witness::climbed_by_bits;
use crate::gadgets::fold::coords;
use crate::poseidon::{absorbed, block_ends, block_row, leaf_hash, lemma_block_row_len, sponge};

verus! {

/// A permutation block stands from row `row` on, each row followed by `tail`.
pub open spec fn block_holds(g: Seq<u64>, w: int, row: int, input: Seq<u64>, tail: Seq<u64>) -> bool {
    forall|t: int, c: int|
        0 <= t < 32 && 0 <= c < 8 + tail.len() ==> #[trigger] cell(g, w, row + t, c) == (block_row(input, t as nat)
            + tail)[c]
}

/// The input of block `b` of an opening: the sponge of the leaf, then the nodes of the path.
pub open spec fn opening_block(preimage: Seq<u64>, siblings: Seq<Seq<u64>>, bits: Seq<bool>, b: int) -> Seq<u64> {
    let n = div_up(preimage.len() as int, 4);
    if b < n {
        absorbed(sponge(preimage, b as nat), preimage, 4 * b)
    } else {
        ordered(
            climbed_by_bits(leaf_hash(preimage), siblings, bits, (b - n) as nat),
            siblings[b - n],
            bits[b - n],
        )
    }
}

/// What stands beside block `b`: nothing for the leaf, the sibling and its bit for the path.
pub open spec fn opening_tail(preimage: Seq<u64>, siblings: Seq<Seq<u64>>, bits: Seq<bool>, b: int) -> Seq<u64> {
    let n = div_up(preimage.len() as int, 4);
    if b < n {
        Seq::empty()
    } else {
        siblings[b - n] + seq![bit_felt(bits[b - n])]
    }
}

/// The blocks of an opening stand from row `row` on.
pub open spec fn opening_holds(
    g: Seq<u64>,
    w: int,
    row: int,
    preimage: Seq<u64>,
    siblings: Seq<Seq<u64>>,
    bits: Seq<bool>,
) -> bool {
    forall|b: int|
        0 <= b < div_up(preimage.len() as int, 4) + siblings.len() ==> block_holds(
            g,
            w,
            row + 32 * b,
            #[trigger] opening_block(preimage, siblings, bits, b),
            opening_tail(preimage, siblings, bits, b),
        )
}

/// The blocks of an opening end in the permutation's output.
pub open spec fn opening_ends(preimage: Seq<u64>, siblings: Seq<Seq<u64>>, bits: Seq<bool>) -> bool {
    forall|b: int|
        0 <= b < div_up(preimage.len() as int, 4) + siblings.len() ==> block_ends(
            #[trigger] opening_block(preimage, siblings, bits, b),
        )
}

/// A cell of a block.
pub(super) proof fn lemma_block_cell(g: Seq<u64>, w: int, row: int, input: Seq<u64>, tail: Seq<u64>, n: nat, r: int, c: int)
    requires
        0 <= c < w,
        input.len() == 8,
        8 + tail.len() <= w,
        0 <= r,
        r * w + c < g.len(),
    ensures
        block_written(g, w, row, 0, input, tail, n).len() == g.len(),
        cell(block_written(g, w, row, 0, input, tail, n), w, r, c) == (if row <= r < row + n && c < 8 + tail.len() {
            (block_row(input, (r - row) as nat) + tail)[c]
        } else {
            cell(g, w, r, c)
        }),
    decreases n,
{
    if n > 0 {
        let m = (n - 1) as nat;
        lemma_block_cell(g, w, row, input, tail, m, r, c);
        lemma_block_row_len(input, m);
        law_written_cell(
            block_written(g, w, row, 0, input, tail, m),
            w,
            row + n - 1,
            0,
            block_row(input, m) + tail,
            r,
            c,
        );
    }
}

/// A written block stands.
proof fn lemma_block_stands(g: Seq<u64>, h: int, w: int, row: int, input: Seq<u64>, tail: Seq<u64>)
    requires
        input.len() == 8,
        8 + tail.len() <= w,
        g.len() == h * w,
        0 <= row,
        row + 32 <= h,
    ensures
        block_holds(block_written(g, w, row, 0, input, tail, 32), w, row, input, tail),
{
    assert forall|t: int, c: int| 0 <= t < 32 && 0 <= c < 8 + tail.len() implies #[trigger] cell(
        block_written(g, w, row, 0, input, tail, 32),
        w,
        row + t,
        c,
    ) == (block_row(input, t as nat) + tail)[c] by {
        lemma_in_rows(h, w, row + t, c);
        lemma_block_cell(g, w, row, input, tail, 32, row + t, c);
    }
}

/// A block keeps standing where the change is confined to other rows.
proof fn lemma_block_kept(
    g: Seq<u64>,
    g2: Seq<u64>,
    h: int,
    w: int,
    row: int,
    input: Seq<u64>,
    tail: Seq<u64>,
    r0: int,
    r1: int,
)
    requires
        block_holds(g, w, row, input, tail),
        confined(g, g2, w, r0, r1, 13),
        8 + tail.len() <= w,
        g.len() == h * w,
        0 <= row,
        row + 32 <= h,
        row + 32 <= r0 || r1 <= row,
    ensures
        block_holds(g2, w, row, input, tail),
{
    assert forall|t: int, c: int| 0 <= t < 32 && 0 <= c < 8 + tail.len() implies #[trigger] cell(g2, w, row + t, c) == (
    block_row(input, t as nat) + tail)[c] by {
        lemma_in_rows(h, w, row + t, c);
        assert(cell(g2, w, row + t, c) == cell(g, w, row + t, c));
    }
}

/// The blocks of a leaf stand.
proof fn lemma_leaf_stands(
    g: Seq<u64>,
    h: int,
    w: int,
    row: int,
    preimage: Seq<u64>,
    siblings: Seq<Seq<u64>>,
    bits: Seq<bool>,
    n: nat,
    b: int,
)
    requires
        13 <= w,
        g.len() == h * w,
        0 <= row,
        row + 32 * n <= h,
        0 <= b < n <= div_up(preimage.len() as int, 4),
    ensures
        block_holds(
            leaf_written(g, w, row, preimage, n),
            w,
            row + 32 * b,
            opening_block(preimage, siblings, bits, b),
            opening_tail(preimage, siblings, bits, b),
        ),
    decreases n,
{
    let m = (n - 1) as nat;
    let g1 = leaf_written(g, w, row, preimage, m);
    let input = absorbed(sponge(preimage, m), preimage, 4 * m as int);
    lemma_leaf_confined(g, w, row, preimage, m);
    if b == m {
        lemma_block_stands(g1, h, w, row + 32 * m, input, Seq::empty());
    } else {
        lemma_leaf_stands(g, h, w, row, preimage, siblings, bits, m, b);
        lemma_block_confined(g1, w, row + 32 * m, input, Seq::empty());
        lemma_block_kept(
            g1,
            leaf_written(g, w, row, preimage, n),
            h,
            w,
            row + 32 * b,
            opening_block(preimage, siblings, bits, b),
            opening_tail(preimage, siblings, bits, b),
            row + 32 * m,
            row + 32 * m + 32,
        );
    }
}

/// The blocks of a path stand.
proof fn lemma_path_stands(
    g: Seq<u64>,
    h: int,
    w: int,
    row: int,
    preimage: Seq<u64>,
    siblings: Seq<Seq<u64>>,
    bits: Seq<bool>,
    n: nat,
    l: int,
)
    requires
        13 <= w,
        g.len() == h * w,
        0 <= row,
        row + 32 * n <= h,
        0 <= l < n <= siblings.len(),
        forall|i: int| 0 <= i < siblings.len() ==> (#[trigger] siblings[i]).len() == 4,
    ensures
        ({
            let b = div_up(preimage.len() as int, 4) + l;
            block_holds(
                path_written(g, w, row, leaf_hash(preimage), siblings, bits, n),
                w,
                row + 32 * l,
                opening_block(preimage, siblings, bits, b),
                opening_tail(preimage, siblings, bits, b),
            )
        }),
    decreases n,
{
    let m = (n - 1) as nat;
    let leaf = leaf_hash(preimage);
    let g1 = path_written(g, w, row, leaf, siblings, bits, m);
    let input = ordered(climbed_by_bits(leaf, siblings, bits, m), siblings[m as int], bits[m as int]);
    let tail = siblings[m as int] + seq![bit_felt(bits[m as int])];
    lemma_path_confined(g, w, row, leaf, siblings, bits, m);
    if l == m {
        lemma_block_stands(g1, h, w, row + 32 * m, input, tail);
    } else {
        let b = div_up(preimage.len() as int, 4) + l;
        lemma_path_stands(g, h, w, row, preimage, siblings, bits, m, l);
        lemma_block_confined(g1, w, row + 32 * m, input, tail);
        assert(siblings[l].len() == 4);
        lemma_block_kept(
            g1,
            path_written(g, w, row, leaf, siblings, bits, n),
            h,
            w,
            row + 32 * l,
            opening_block(preimage, siblings, bits, b),
            opening_tail(preimage, siblings, bits, b),
            row + 32 * m,
            row + 32 * m + 32,
        );
    }
}

/// A written opening stands.
pub(super) proof fn lemma_opening_stands(
    g: Seq<u64>,
    h: int,
    w: int,
    row: int,
    preimage: Seq<u64>,
    siblings: Seq<Seq<u64>>,
    bits: Seq<bool>,
)
    requires
        13 <= w,
        g.len() == h * w,
        0 <= row,
        row + 32 * (div_up(preimage.len() as int, 4) + siblings.len()) <= h,
        forall|i: int| 0 <= i < siblings.len() ==> (#[trigger] siblings[i]).len() == 4,
    ensures
        opening_holds(opening_written(g, w, row, preimage, siblings, bits), w, row, preimage, siblings, bits),
{
    let n = div_up(preimage.len() as int, 4);
    let g1 = leaf_written(g, w, row, preimage, n as nat);
    let g2 = opening_written(g, w, row, preimage, siblings, bits);
    lemma_leaf_confined(g, w, row, preimage, n as nat);
    lemma_path_confined(g1, w, row + 32 * n, leaf_hash(preimage), siblings, bits, siblings.len());
    assert forall|b: int| 0 <= b < n + siblings.len() implies block_holds(
        g2,
        w,
        row + 32 * b,
        #[trigger] opening_block(preimage, siblings, bits, b),
        opening_tail(preimage, siblings, bits, b),
    ) by {
        if b < n {
            lemma_leaf_stands(g, h, w, row, preimage, siblings, bits, n as nat, b);
            lemma_block_kept(
                g1,
                g2,
                h,
                w,
                row + 32 * b,
                opening_block(preimage, siblings, bits, b),
                opening_tail(preimage, siblings, bits, b),
                row + 32 * n,
                row + 32 * n + 32 * siblings.len(),
            );
        } else {
            lemma_path_stands(g1, h, w, row + 32 * n, preimage, siblings, bits, siblings.len(), b - n);
            assert(row + 32 * n + 32 * (b - n) == row + 32 * b);
        }
    }
}

/// An opening keeps standing where the change is confined to other rows.
pub(super) proof fn lemma_opening_kept(
    g: Seq<u64>,
    g2: Seq<u64>,
    h: int,
    w: int,
    row: int,
    preimage: Seq<u64>,
    siblings: Seq<Seq<u64>>,
    bits: Seq<bool>,
    r0: int,
    r1: int,
)
    requires
        opening_holds(g, w, row, preimage, siblings, bits),
        confined(g, g2, w, r0, r1, 13),
        13 <= w,
        g.len() == h * w,
        0 <= row,
        row + 32 * (div_up(preimage.len() as int, 4) + siblings.len()) <= h,
        row + 32 * (div_up(preimage.len() as int, 4) + siblings.len()) <= r0 || r1 <= row,
        forall|i: int| 0 <= i < siblings.len() ==> (#[trigger] siblings[i]).len() == 4,
    ensures
        opening_holds(g2, w, row, preimage, siblings, bits),
{
    let n = div_up(preimage.len() as int, 4);
    assert forall|b: int| 0 <= b < n + siblings.len() implies block_holds(
        g2,
        w,
        row + 32 * b,
        #[trigger] opening_block(preimage, siblings, bits, b),
        opening_tail(preimage, siblings, bits, b),
    ) by {
        if b >= n {
            assert(siblings[b - n].len() == 4);
        }
        lemma_block_kept(
            g,
            g2,
            h,
            w,
            row + 32 * b,
            opening_block(preimage, siblings, bits, b),
            opening_tail(preimage, siblings, bits, b),
            r0,
            r1,
        );
    }
}

/// An opening stands in another trace whose cells in its rows are the same.
proof fn lemma_opening_same(
    g: Seq<u64>,
    g2: Seq<u64>,
    w: int,
    row: int,
    preimage: Seq<u64>,
    siblings: Seq<Seq<u64>>,
    bits: Seq<bool>,
)
    requires
        opening_holds(g, w, row, preimage, siblings, bits),
        forall|i: int| 0 <= i < siblings.len() ==> (#[trigger] siblings[i]).len() == 4,
        forall|r: int, c: int|
            row <= r < row + 32 * (div_up(preimage.len() as int, 4) + siblings.len()) && 0 <= c < 13 ==> #[trigger] cell(
                g2,
                w,
                r,
                c,
            ) == cell(g, w, r, c),
    ensures
        opening_holds(g2, w, row, preimage, siblings, bits),
{
    let n = div_up(preimage.len() as int, 4);
    assert forall|b: int| 0 <= b < n + siblings.len() implies block_holds(
        g2,
        w,
        row + 32 * b,
        #[trigger] opening_block(preimage, siblings, bits, b),
        opening_tail(preimage, siblings, bits, b),
    ) by {
        let (input, tail) = (opening_block(preimage, siblings, bits, b), opening_tail(preimage, siblings, bits, b));
        if b >= n {
            assert(siblings[b - n].len() == 4);
        }
        assert forall|t: int, c: int| 0 <= t < 32 && 0 <= c < 8 + tail.len() implies #[trigger] cell(
            g2,
            w,
            row + 32 * b + t,
            c,
        ) == (block_row(input, t as nat) + tail)[c] by {
            assert(cell(g2, w, row + 32 * b + t, c) == cell(g, w, row + 32 * b + t, c));
        }
    }
}

/// The opening of commit round `r` of a query.
pub open spec fn commit_holds(air: MonolithAir, g: Seq<u64>, row: int, q: QueryData, r: int) -> bool {
    let path = q.commits@[r].path;
    opening_holds(
        g,
        air.s_fold_w(),
        row + 32 * air.s_cm_leaf(r),
        air.s_commit_preimage(q, r),
        contents(path.siblings@),
        path.bits@,
    )
}

/// A leaf preimage with its path, from block `at` of a super-tile on.
pub open spec fn path_holds(
    air: MonolithAir,
    g: Seq<u64>,
    row: int,
    at: int,
    preimage: Seq<u64>,
    path: PathData,
) -> bool {
    opening_holds(g, air.s_fold_w(), row + 32 * at, preimage, contents(path.siblings@), path.bits@)
}

/// The openings of a query stand in the blocks of its super-tile: the random or aux round, the trace, the quotient,
/// and the commit rounds.
pub open spec fn openings_hold(air: MonolithAir, g: Seq<u64>, row: int, q: QueryData) -> bool {
    &&& q.hiding matches Some(hw) ==> path_holds(
        air,
        g,
        row,
        M_INPUT_LEAF as int,
        air.s_random_preimage(q),
        hw.random_path,
    )
    &&& q.aux_path matches Some(p) ==> path_holds(air, g, row, M_INPUT_LEAF as int, air.s_aux_preimage(q), p)
    &&& path_holds(air, g, row, air.s_m_input_leaf(), air.s_input_preimage(q), q.path)
    &&& path_holds(air, g, row, air.s_m_quot_leaf(), air.s_quot_preimage(q, air.s_nqc() as nat), q.quot_path)
    &&& forall|r: int| 0 <= r < air.s_cm_rounds() ==> #[trigger] commit_holds(air, g, row, q, r)
}

/// A leaf and its path end their blocks in the permutation's output.
pub open spec fn path_ends(preimage: Seq<u64>, path: PathData) -> bool {
    opening_ends(preimage, contents(path.siblings@), path.bits@)
}

/// The blocks of all openings of a query end in the permutation's output.
pub open spec fn openings_end(air: MonolithAir, q: QueryData) -> bool {
    &&& q.hiding matches Some(hw) ==> path_ends(air.s_random_preimage(q), hw.random_path)
    &&& q.aux_path matches Some(p) ==> path_ends(air.s_aux_preimage(q), p)
    &&& path_ends(air.s_input_preimage(q), q.path)
    &&& path_ends(air.s_quot_preimage(q, air.s_nqc() as nat), q.quot_path)
    &&& forall|r: int|
        0 <= r < air.s_cm_rounds() ==> path_ends(#[trigger] air.s_commit_preimage(q, r), q.commits@[r].path)
}

impl MonolithAir {
    /// The openings of the commit rounds stand once written.
    #[verifier::spinoff_prover]
    #[verifier::rlimit(40)]
    proof fn lemma_commits_stand(&self, g: Seq<u64>, h: int, row: int, q: QueryData, n: nat, r: int)
        requires
            self.buildable(),
            self.query_fits(q),
            13 <= self.s_fused_w(),
            !self.fold,
            g.len() == h * self.s_fused_w(),
            0 <= row,
            row + self.s_m_period() <= h,
            0 <= r < n <= self.s_cm_rounds(),
        ensures
            commit_holds(*self, self.s_commits_written(g, self.s_fused_w(), row, q, n), row, q, r),
        decreases n,
    {
        let m = (n - 1) as nat;
        let w = self.s_fused_w();
        let g1 = self.s_commits_written(g, w, row, q, m);
        let c = q.commits@[m as int];
        let preimage = self.s_commit_preimage(q, m as int);
        let sibs = contents(c.path.siblings@);
        let at = row + 32 * self.s_cm_leaf(m as int);
        self.lemma_commits_confined(g, w, row, q, m);
        self.lemma_cm_leaf_bound(m);
        self.lemma_openings_fit();
        self.lemma_rounds_monotone(0, m as int);
        self.lemma_preimages(q, 0);
        assert(preimage.len() == self.s_cm_leaf_felts());
        assert(q.commits@[m as int].path.ok(self.s_cm_depth_r(m as int)));
        lemma_siblings(c.path, self.s_cm_depth_r(m as int));
        if r == m {
            lemma_opening_stands(g1, h, w, at, preimage, sibs, c.path.bits@);
        } else {
            let d = q.commits@[r];
            self.lemma_commits_stand(g, h, row, q, m, r);
            lemma_opening_confined(g1, w, at, preimage, sibs, c.path.bits@);
            self.lemma_rounds_monotone(0, r);
            self.lemma_rounds_monotone(r + 1, m as int);
            assert(q.commits@[r].path.ok(self.s_cm_depth_r(r)));
            lemma_siblings(d.path, self.s_cm_depth_r(r));
            assert(self.s_commit_preimage(q, r).len() == self.s_cm_leaf_felts());
            lemma_opening_kept(
                g1,
                self.s_commits_written(g, w, row, q, n),
                h,
                w,
                row + 32 * self.s_cm_leaf(r),
                self.s_commit_preimage(q, r),
                contents(d.path.siblings@),
                d.path.bits@,
                at,
                at + 32 * (self.s_cm_leaf_blocks() + self.s_cm_depth_r(m as int)),
            );
        }
    }
}

impl MonolithAir {
    /// A path that was written stands, and the change is confined to its blocks.
    proof fn lemma_path_put(&self, g: Seq<u64>, h: int, row: int, at: int, preimage: Seq<u64>, path: PathData, depth: int)
        requires
            13 <= self.s_fused_w(),
            !self.fold,
            path.ok(depth),
            g.len() == h * self.s_fused_w(),
            0 <= row,
            0 <= at,
            row + 32 * (at + div_up(preimage.len() as int, 4) + depth) <= h,
        ensures
            ({
                let w = self.s_fused_w();
                let g2 = opening_written(g, w, row + 32 * at, preimage, contents(path.siblings@), path.bits@);
                &&& path_holds(*self, g2, row, at, preimage, path)
                &&& g2.len() == h * w
                &&& confined(
                    g,
                    g2,
                    w,
                    row + 32 * at,
                    row + 32 * (at + div_up(preimage.len() as int, 4) + depth),
                    13,
                )
            }),
    {
        lemma_siblings(path, depth);
        lemma_opening_stands(g, h, self.s_fused_w(), row + 32 * at, preimage, contents(path.siblings@), path.bits@);
        lemma_opening_confined(g, self.s_fused_w(), row + 32 * at, preimage, contents(path.siblings@), path.bits@);
    }

    /// A path keeps standing where the change is confined to later blocks.
    proof fn lemma_path_stays(
        &self,
        g: Seq<u64>,
        g2: Seq<u64>,
        h: int,
        row: int,
        at: int,
        preimage: Seq<u64>,
        path: PathData,
        depth: int,
        r0: int,
        r1: int,
    )
        requires
            13 <= self.s_fused_w(),
            !self.fold,
            path.ok(depth),
            g.len() == h * self.s_fused_w(),
            0 <= row,
            0 <= at,
            row + 32 * (at + div_up(preimage.len() as int, 4) + depth) <= h,
            path_holds(*self, g, row, at, preimage, path),
            confined(g, g2, self.s_fused_w(), r0, r1, 13),
            row + 32 * (at + div_up(preimage.len() as int, 4) + depth) <= r0,
        ensures
            path_holds(*self, g2, row, at, preimage, path),
    {
        lemma_siblings(path, depth);
        lemma_opening_kept(
            g,
            g2,
            h,
            self.s_fused_w(),
            row + 32 * at,
            preimage,
            contents(path.siblings@),
            path.bits@,
            r0,
            r1,
        );
    }

    /// The trace, quotient and commit openings of a query stand once written.
    #[verifier::spinoff_prover]
    #[verifier::rlimit(40)]
    proof fn lemma_later_stand(&self, g2: Seq<u64>, h: int, row: int, q: QueryData)
        requires
            self.buildable(),
            self.query_fits(q),
            13 <= self.s_fused_w(),
            !self.fold,
            g2.len() == h * self.s_fused_w(),
            0 <= row,
            row + self.s_m_period() <= h,
        ensures
            ({
                let w = self.s_fused_w();
                let quot = self.s_quot_preimage(q, self.s_nqc() as nat);
                let g3 = opening_written(
                    g2,
                    w,
                    row + 32 * self.s_m_input_leaf(),
                    self.s_input_preimage(q),
                    contents(q.path.siblings@),
                    q.path.bits@,
                );
                let g4 = opening_written(
                    g3,
                    w,
                    row + 32 * self.s_m_quot_leaf(),
                    quot,
                    contents(q.quot_path.siblings@),
                    q.quot_path.bits@,
                );
                let g5 = self.s_commits_written(g4, w, row, q, self.s_cm_rounds() as nat);
                &&& path_holds(*self, g5, row, self.s_m_input_leaf(), self.s_input_preimage(q), q.path)
                &&& path_holds(*self, g5, row, self.s_m_quot_leaf(), quot, q.quot_path)
                &&& forall|r: int| 0 <= r < self.s_cm_rounds() ==> #[trigger] commit_holds(*self, g5, row, q, r)
                &&& confined(g2, g5, w, row + 32 * self.s_m_input_leaf(), row + self.s_m_period(), 13)
            }),
    {
        let w = self.s_fused_w();
        let depth = self.s_input_depth();
        let (a3, a4) = (self.s_m_input_leaf(), self.s_m_quot_leaf());
        let (pre, quot) = (self.s_input_preimage(q), self.s_quot_preimage(q, self.s_nqc() as nat));
        let n = self.s_cm_rounds();
        self.lemma_openings_fit();
        self.lemma_preimages(q, self.s_nqc() as nat);
        self.lemma_rounds_monotone(0, n);
        self.lemma_cm_leaf_bound((n - 1) as nat);
        let g3 = opening_written(g2, w, row + 32 * a3, pre, contents(q.path.siblings@), q.path.bits@);
        self.lemma_path_put(g2, h, row, a3, pre, q.path, depth);
        let g4 = opening_written(g3, w, row + 32 * a4, quot, contents(q.quot_path.siblings@), q.quot_path.bits@);
        self.lemma_path_put(g3, h, row, a4, quot, q.quot_path, depth);
        let g5 = self.s_commits_written(g4, w, row, q, n as nat);
        self.lemma_commits_confined(g4, w, row, q, n as nat);
        let (e3, e4) = (
            row + 32 * (a3 + div_up(pre.len() as int, 4) + depth),
            row + 32 * (a4 + div_up(quot.len() as int, 4) + depth),
        );
        let (c0, c1) = (row + 32 * (self.s_m_quot_term() + 1), row + 32 * self.s_cm_leaf(n));
        assert(e3 == row + 32 * a4 && e4 == c0);
        self.lemma_path_stays(g3, g4, h, row, a3, pre, q.path, depth, row + 32 * a4, e4);
        self.lemma_path_stays(g4, g5, h, row, a3, pre, q.path, depth, c0, c1);
        self.lemma_path_stays(g4, g5, h, row, a4, quot, q.quot_path, depth, c0, c1);
        assert forall|r: int| 0 <= r < n implies #[trigger] commit_holds(*self, g5, row, q, r) by {
            self.lemma_commits_stand(g4, h, row, q, n as nat, r);
        }
        lemma_confined_twice(g2, g3, g4, w, row + 32 * a3, e3, row + 32 * a4, e4, 13);
        assert(confined(g2, g4, w, row + 32 * a3, e4, 13));
        lemma_confined_twice(g2, g4, g5, w, row + 32 * a3, e4, c0, c1, 13);
    }

    /// All openings of a query stand once written.
    #[verifier::spinoff_prover]
    #[verifier::rlimit(40)]
    proof fn lemma_openings_stand(&self, g: Seq<u64>, h: int, row: int, q: QueryData)
        requires
            self.buildable(),
            self.query_fits(q),
            13 <= self.s_fused_w(),
            !self.fold,
            g.len() == h * self.s_fused_w(),
            0 <= row,
            row + self.s_m_period() <= h,
        ensures
            openings_hold(*self, self.s_openings_written(g, self.s_fused_w(), row, q), row, q),
    {
        let w = self.s_fused_w();
        let depth = self.s_input_depth();
        let (lo, first) = (row + 32 * M_INPUT_LEAF, M_INPUT_LEAF as int);
        let a3 = self.s_m_input_leaf();
        self.lemma_openings_fit();
        self.lemma_preimages(q, self.s_nqc() as nat);
        let g1 = match q.hiding {
            Some(hw) => opening_written(
                g,
                w,
                lo,
                self.s_random_preimage(q),
                contents(hw.random_path.siblings@),
                hw.random_path.bits@,
            ),
            None => g,
        };
        let g2 = match q.aux_path {
            Some(p) => opening_written(g1, w, lo, self.s_aux_preimage(q), contents(p.siblings@), p.bits@),
            None => g1,
        };
        let g5 = self.s_openings_written(g, w, row, q);
        if let Some(hw) = q.hiding {
            self.lemma_path_put(g, h, row, first, self.s_random_preimage(q), hw.random_path, depth);
        }
        if let Some(p) = q.aux_path {
            self.lemma_path_put(g1, h, row, first, self.s_aux_preimage(q), p, depth);
        }
        self.lemma_later_stand(g2, h, row, q);
        let (r0, r1) = (row + 32 * a3, row + self.s_m_period());
        if let Some(hw) = q.hiding {
            let pre = self.s_random_preimage(q);
            assert(q.aux_path is None);
            self.lemma_path_stays(g2, g5, h, row, first, pre, hw.random_path, depth, r0, r1);
        }
        if let Some(p) = q.aux_path {
            self.lemma_path_stays(g2, g5, h, row, first, self.s_aux_preimage(q), p, depth, r0, r1);
        }
    }
}

impl MonolithAir {
    /// The trace just before the openings of a super-tile are written into it.
    spec fn s_before_openings(&self, g: Seq<u64>, row: int, q: QueryData) -> Seq<u64> {
        let w = self.s_fused_w();
        let g1 = chain_written(g, w, row, q.ro, q.rounds@, (self.s_cm_rounds() + 1) as nat);
        let g2 = written(g1, w, row, QT_DBITS as int, self.s_head_cells(q));
        self.s_rem_written(g2, w, row, f_red(q.felt as int) as nat, (self.s_nb() - 2) as nat)
    }

    proof fn lemma_before_openings(&self, g: Seq<u64>, row: int, q: QueryData)
        requires
            self.buildable(),
            self.query_fits(q),
            g.len() > 0,
        ensures
            self.s_before_openings(g, row, q).len() == g.len(),
    {
        let w = self.s_fused_w();
        let g1 = chain_written(g, w, row, q.ro, q.rounds@, (self.s_cm_rounds() + 1) as nat);
        let head = self.s_head_cells(q);
        let g2 = written(g1, w, row, QT_DBITS as int, head);
        self.lemma_bounds();
        self.lemma_terms();
        self.lemma_terms_len(q.terms@, deep_point(q.index as nat, self.s_lg() as nat), q.alpha, q.terms@.len());
        assert(QT_DBITS + head.len() == self.s_idx_rem());
        assert(0 * w == 0) by (nonlinear_arith);
        lemma_chain_cell(g, w, row, q.ro, q.rounds@, (self.s_cm_rounds() + 1) as nat, 0, 0);
        law_written_cell(g1, w, row, QT_DBITS as int, head, 0, 0);
        self.lemma_rem_cell(g2, w, row, f_red(q.felt as int) as nat, (self.s_nb() - 2) as nat, 0, 0);
    }

    /// Later super-tiles leave the rows of an earlier one alone.
    #[verifier::spinoff_prover]
    #[verifier::rlimit(40)]
    proof fn lemma_tiles_after(&self, g: Seq<u64>, qs: Seq<QueryData>, n: nat, t: int, r: int, c: int)
        requires
            self.buildable(),
            forall|k: int| 0 <= k < n ==> self.query_fits(#[trigger] qs[k]) && self.carriers_fill(qs[k]),
            0 <= t < n <= qs.len(),
            0 <= c < self.s_fused_w(),
            self.s_tile(t) <= r < self.s_tile(t) + self.s_m_period(),
            0 <= r,
            r * self.s_fused_w() + c < g.len(),
        ensures
            cell(self.s_tiles_written(g, self.s_fused_w(), qs, n), self.s_fused_w(), r, c) == cell(
                self.s_tiles_written(g, self.s_fused_w(), qs, (t + 1) as nat),
                self.s_fused_w(),
                r,
                c,
            ),
        decreases n,
    {
        let w = self.s_fused_w();
        let m = (n - 1) as nat;
        if t < m {
            self.lemma_tiles_after(g, qs, m, t, r, c);
            assert(self.query_fits(qs[m as int]) && self.carriers_fill(qs[m as int]));
            assert(0 <= r * w) by (nonlinear_arith)
                requires
                    0 <= r,
                    0 < w,
            ;
            self.lemma_tiles_len(g, w, qs, m);
            self.lemma_tile_cell(self.s_tiles_written(g, w, qs, m), w, self.s_tile(m as int), qs[m as int], r, c);
            assert(t * self.s_m_period() + self.s_m_period() <= m * self.s_m_period()) by (nonlinear_arith)
                requires
                    t + 1 <= m,
                    self.s_tile(t) <= r < self.s_tile(t) + self.s_m_period(),
            ;
        }
    }

    /// The first columns of a super-tile are those that its openings left.
    #[verifier::spinoff_prover]
    #[verifier::rlimit(40)]
    proof fn lemma_low_cell(
        &self,
        blocks: Seq<Seq<u64>>,
        qs: Seq<QueryData>,
        alpha: Ext,
        window: Seq<u64>,
        g1: Seq<u64>,
        t: int,
        r: int,
        c: int,
    )
        requires
            self.lays_out(blocks, qs, window),
            g1 == self.s_transcript_written(
                Seq::new((self.s_height() * self.s_fused_w()) as nat, |i: int| 0u64),
                self.s_fused_w(),
                blocks,
                self.s_tr() as nat,
            ),
            0 <= t < qs.len(),
            0 <= c < 13,
            self.s_tile(t) <= r < self.s_tile(t) + self.s_m_period(),
        ensures
            ({
                let w = self.s_fused_w();
                let row = self.s_tile(t);
                let before = self.s_before_openings(self.s_tiles_written(g1, w, qs, t as nat), row, qs[t]);
                cell(self.s_trace(blocks, qs, alpha, window), w, r, c) == cell(
                    self.s_openings_written(before, w, row, qs[t]),
                    w,
                    r,
                    c,
                )
            }),
    {
        let (h, w, row) = (self.s_height(), self.s_fused_w(), self.s_tile(t));
        let g2 = self.s_tiles_written(g1, w, qs, qs.len());
        let g3 = held(g2, w, 0, h as nat, self.s_carry(), coords(alpha));
        let gt = self.s_tiles_written(g1, w, qs, t as nat);
        let before = self.s_before_openings(gt, row, qs[t]);
        let opened = self.s_openings_written(before, w, row, qs[t]);
        self.lemma_bounds();
        self.lemma_terms();
        self.lemma_tile_rows(qs.len() as int, t);
        lemma_in_rows(h, w, r, c);
        self.lemma_tiles_len(g1, w, qs, qs.len());
        self.lemma_tiles_len(g1, w, qs, t as nat);
        assert(self.query_fits(qs[t]) && self.carriers_fill(qs[t]));
        self.lemma_tiles_after(g1, qs, qs.len(), t, r, c);
        assert(((t + 1) as nat - 1) as nat == t as nat);
        self.lemma_before_openings(gt, row, qs[t]);
        self.lemma_openings_confined(before, w, row, qs[t]);
        lemma_held_cell(opened, w, row, self.s_m_period() as nat, self.s_ov(), self.s_carrier_cells(qs[t]), r, c);
        lemma_held_cell(g2, w, 0, h as nat, self.s_carry(), coords(alpha), r, c);
        if self.column_window {
            let z = 2 * self.s_nlc() + 2;
            let zeta = Ext { c0: window[z], c1: window[z + 1] };
            let vs = window + self.s_squares(zeta, self.s_cm_rounds() as nat);
            self.lemma_squares_len(zeta, self.s_cm_rounds() as nat);
            lemma_held_cell(g3, w, 0, h as nat, self.s_pw_base(), vs, r, c);
        }
    }
}

/// The first columns of a super-tile are the same in both traces.
pub(super) open spec fn same_low(air: MonolithAir, g: Seq<u64>, g2: Seq<u64>, row: int) -> bool {
    forall|r: int, c: int|
        row <= r < row + air.s_m_period() && 0 <= c < 13 ==> #[trigger] cell(g2, air.s_fold_w(), r, c) == cell(
            g,
            air.s_fold_w(),
            r,
            c,
        )
}

/// A path stands in a trace with the same first columns.
proof fn lemma_path_same(
    air: MonolithAir,
    g: Seq<u64>,
    g2: Seq<u64>,
    row: int,
    at: int,
    preimage: Seq<u64>,
    path: PathData,
    depth: int,
)
    requires
        same_low(air, g, g2, row),
        path.ok(depth),
        0 <= at,
        32 * (at + div_up(preimage.len() as int, 4) + depth) <= air.s_m_period(),
        path_holds(air, g, row, at, preimage, path),
    ensures
        path_holds(air, g2, row, at, preimage, path),
{
    lemma_siblings(path, depth);
    lemma_opening_same(g, g2, air.s_fold_w(), row + 32 * at, preimage, contents(path.siblings@), path.bits@);
}

/// The openings of a query stand in a trace with the same first columns.
#[verifier::spinoff_prover]
#[verifier::rlimit(40)]
pub(super) proof fn lemma_openings_same(air: MonolithAir, g: Seq<u64>, g2: Seq<u64>, row: int, q: QueryData)
    requires
        air.buildable(),
        air.query_fits(q),
        same_low(air, g, g2, row),
        openings_hold(air, g, row, q),
    ensures
        openings_hold(air, g2, row, q),
{
    let depth = air.s_input_depth();
    let first = M_INPUT_LEAF as int;
    let quot = air.s_quot_preimage(q, air.s_nqc() as nat);
    air.lemma_openings_fit();
    air.lemma_preimages(q, air.s_nqc() as nat);
    if let Some(hw) = q.hiding {
        lemma_path_same(air, g, g2, row, first, air.s_random_preimage(q), hw.random_path, depth);
    }
    if let Some(p) = q.aux_path {
        lemma_path_same(air, g, g2, row, first, air.s_aux_preimage(q), p, depth);
    }
    lemma_path_same(air, g, g2, row, air.s_m_input_leaf(), air.s_input_preimage(q), q.path, depth);
    lemma_path_same(air, g, g2, row, air.s_m_quot_leaf(), quot, q.quot_path, depth);
    assert forall|r: int| 0 <= r < air.s_cm_rounds() implies #[trigger] commit_holds(air, g2, row, q, r) by {
        assert(commit_holds(air, g, row, q, r));
        air.lemma_cm_leaf_bound(r as nat);
        assert(q.commits@[r].path.ok(air.s_cm_depth_r(r)));
        assert(air.s_commit_preimage(q, r).len() == air.s_cm_leaf_felts());
        lemma_path_same(
            air,
            g,
            g2,
            row,
            air.s_cm_leaf(r),
            air.s_commit_preimage(q, r),
            q.commits@[r].path,
            air.s_cm_depth_r(r),
        );
    }
}

impl MonolithAir {
    /// The openings of every query stand in the trace.
    #[verifier::spinoff_prover]
    #[verifier::rlimit(40)]
    pub(super) proof fn lemma_trace_openings(
        &self,
        blocks: Seq<Seq<u64>>,
        qs: Seq<QueryData>,
        alpha: Ext,
        window: Seq<u64>,
        t: int,
    )
        requires
            self.lays_out(blocks, qs, window),
            0 <= t < qs.len(),
        ensures
            openings_hold(*self, self.s_trace(blocks, qs, alpha, window), self.s_tile(t), qs[t]),
    {
        let (h, w, row) = (self.s_height(), self.s_fused_w(), self.s_tile(t));
        let g = self.s_trace(blocks, qs, alpha, window);
        let g1 = self.s_transcript_written(Seq::new((h * w) as nat, |i: int| 0u64), w, blocks, self.s_tr() as nat);
        let gt = self.s_tiles_written(g1, w, qs, t as nat);
        let before = self.s_before_openings(gt, row, qs[t]);
        let opened = self.s_openings_written(before, w, row, qs[t]);
        self.lemma_bounds();
        self.lemma_terms();
        self.lemma_tile_rows(qs.len() as int, t);
        lemma_in_rows(h, w, 0, 0);
        assert(self.query_fits(qs[t]) && self.carriers_fill(qs[t]));
        self.lemma_tiles_len(g1, w, qs, t as nat);
        self.lemma_before_openings(gt, row, qs[t]);
        self.lemma_openings_stand(before, h, row, qs[t]);
        assert forall|r: int, c: int| row <= r < row + self.s_m_period() && 0 <= c < 13 implies #[trigger] cell(g, w, r, c)
            == cell(opened, w, r, c) by {
            self.lemma_low_cell(blocks, qs, alpha, window, g1, t, r, c);
        }
        lemma_openings_same(*self, opened, g, row, qs[t]);
    }
}

} // verus!
