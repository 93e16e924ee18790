//! The trace of the fused verifier: the transcript's permutations, one super-tile per query, and the columns that
//! are held over all rows.

use vstd::arithmetic::power2::pow2;
use vstd::prelude::*;

use super::blocks::{openings_end, path_ends};
use super::grid::{
    cell,
    held, hold_rows, opening_written, push_felts, put_opening, put_row, written, PathData,
};
use super::layout::{MonolithAir, BLOCK, HIDING_SALT, M_INPUT_LEAF, QT_DBITS, QT_E, W};
use super::reading::row_at;
use super::region::rows_are_eight;
use super::tiles::{sides_are_bits, tile_built, trace_built};
use crate::bits::{next_pow2, next_power_of_two, rev_bits, shifted_one};
use crate::field::{
    canonical, exp_power_of_2, f_inv, f_mul, f_pow, f_red, f_square_times, finv, fmul, lemma_pow_add,
    lemma_square_times_pow, two_adic_generator, two_adic_root, x_base, x_inv, x_mul, x_pow, x_red, x_same, x_sub,
    x_zero, Ext, GENERATOR, HALF, TWO_ADICITY,
};
use crate::fri::fold::pair_fold;
use crate::fri::input::query_x;
use crate::fri::merkle::contents;
use crate::fri::query::order_ok;
use crate::fri::witness::{fold_value, PairFold};
use crate::gadgets::fold::{coords, push_coords};
use crate::gadgets::opening::{off_terms, OpeningTerm};
use crate::poseidon::{block_ends, block_last, block_row, leaf_hash, native_steps, permute, permuted};
use crate::vanish::pair_at;

verus! {

/// The fresh felts that hiding adds to a query: a salt per leaf, and the path of the random round.
pub struct HidingWitness {
    pub trace_salt: Vec<u64>,
    pub random_salt: Vec<u64>,
    pub random_path: PathData,
    pub quot_salts: Vec<Vec<u64>>,
    pub commit_salts: Vec<Vec<u64>>,
}

/// One commit round of a query: the fold group and its path.
pub struct CommitRound {
    pub group: Vec<u64>,
    pub path: PathData,
}

/// What one query brings to the trace: its index and the felt behind it, the terms of its reduced opening, the chain of
/// folds, and the paths of all its openings.
pub struct QueryData {
    pub index: usize,
    pub felt: u64,
    pub terms: Vec<OpeningTerm>,
    pub alpha: Ext,
    pub ro: Ext,
    pub rounds: Vec<PairFold>,
    pub path: PathData,
    pub quot_path: PathData,
    pub commits: Vec<CommitRound>,
    pub hiding: Option<HidingWitness>,
    pub aux_path: Option<PathData>,
}

/// The input of transcript block `b`: the recorded one, and behind the last the lanes that the block before put out.
pub open spec fn transcript_input(blocks: Seq<Seq<u64>>, b: nat) -> Seq<u64>
    decreases b,
{
    if b < blocks.len() {
        blocks[b as int]
    } else if b == 0 {
        Seq::new(8, |i: int| 0u64)
    } else {
        permuted(transcript_input(blocks, (b - 1) as nat))
    }
}

/// Row `r` of the transcript region.
pub open spec fn transcript_row(blocks: Seq<Seq<u64>>, r: int) -> Seq<u64> {
    block_row(transcript_input(blocks, (r / 32) as nat), (r % 32) as nat)
}

/// The transcript region: the permutation of every block, padded to a power of two with blocks that take in nothing.
pub fn ft_build_trace(block_inputs: &Vec<Vec<u64>>) -> (t: Vec<Vec<u64>>)
    requires
        forall|b: int| 0 <= b < block_inputs@.len() ==> (#[trigger] block_inputs@[b])@.len() == 8,
        32 * next_pow2(block_inputs@.len()) <= usize::MAX,
    ensures
        t@.len() == 32 * next_pow2(block_inputs@.len()),
        forall|r: int|
            0 <= r < t@.len() ==> (#[trigger] t@[r])@ == transcript_row(contents(block_inputs@), r) && t@[r]@.len() == 8,
        forall|b: int|
            block_inputs@.len() <= b < t@.len() / 32 && b > 0 ==> (#[trigger] t@[32 * b])@ == t@[32 * b - 1]@,
{
    let ghost blocks = contents(block_inputs@);
    let n: usize = block_inputs.len();
    let padded: usize = next_power_of_two(n);
    let mut t: Vec<Vec<u64>> = Vec::new();
    let mut last: Vec<u64> = vec![0, 0, 0, 0, 0, 0, 0, 0];
    let mut b: usize = 0;
    while b < padded
        invariant
            b <= padded,
            n == block_inputs@.len(),
            blocks == contents(block_inputs@),
            padded == next_pow2(block_inputs@.len()),
            32 * padded <= usize::MAX,
            forall|k: int| 0 <= k < block_inputs@.len() ==> (#[trigger] block_inputs@[k])@.len() == 8,
            last@.len() == 8,
            b == 0 ==> last@ == Seq::new(8, |i: int| 0u64),
            b > 0 ==> last@ == permuted(transcript_input(blocks, (b - 1) as nat)),
            t@.len() == 32 * b,
            forall|r: int|
                0 <= r < t@.len() ==> (#[trigger] t@[r])@ == transcript_row(blocks, r) && t@[r]@.len() == 8,
            forall|k: int| 0 <= k < b ==> block_ends(#[trigger] transcript_input(blocks, k as nat)),
        decreases padded - b,
    {
        let input: Vec<u64> = if b < n {
            assert(block_inputs@[b as int]@.len() == 8);
            crate::stark::verify::copy_felts(&block_inputs[b])
        } else {
            crate::stark::verify::copy_felts(&last)
        };
        assert(input@ == transcript_input(blocks, b as nat));
        let rows: Vec<Vec<u64>> = native_steps(&input);
        let mut k: usize = 0;
        while k < BLOCK
            invariant
                k <= BLOCK,
                b < padded,
                32 * padded <= usize::MAX,
                rows@.len() == BLOCK,
                input@ == transcript_input(blocks, b as nat),
                forall|i: int| 0 <= i < BLOCK ==> (#[trigger] rows@[i])@ == block_row(input@, i as nat),
                forall|i: int| 0 <= i < BLOCK ==> (#[trigger] rows@[i])@.len() == W,
                t@.len() == 32 * b + k,
                forall|r: int|
                    0 <= r < t@.len() ==> (#[trigger] t@[r])@ == transcript_row(blocks, r) && t@[r]@.len() == 8,
            decreases BLOCK - k,
        {
            assert((32 * b + k) / 32 == b && (32 * b + k) % 32 == k);
            t.push(crate::stark::verify::copy_felts(&rows[k]));
            k += 1;
        }
        last = permute(&input);
        b += 1;
    }
    proof {
        assert forall|k: int| n <= k < t@.len() / 32 && k > 0 implies (#[trigger] t@[32 * k])@ == t@[32 * k - 1]@ by {
            assert((32 * k) / 32 == k && (32 * k) % 32 == 0);
            assert((32 * k - 1) / 32 == k - 1 && (32 * k - 1) % 32 == 31);
            reveal(block_last);
            assert(block_ends(transcript_input(blocks, (k - 1) as nat)));
        }
    }
    t
}

/// A row of the fold chain: the running evaluation, and but for the last row the sibling, the challenge, the bit, the
/// point and the inverse of its double.
pub open spec fn chain_cells(ro: Ext, rounds: Seq<PairFold>, r: nat) -> Seq<u64> {
    let e = coords(fold_value(ro, rounds, r));
    if r < rounds.len() {
        let f = rounds[r as int];
        e + coords(f.sibling) + coords(f.beta) + seq![
            super::grid::bit_felt(f.bit),
            f_red(f.point as int),
            f_inv(f_mul(2, f.point)),
        ]
    } else {
        e
    }
}

/// The first `n` rows of the fold chain.
pub open spec fn chain_written(g: Seq<u64>, w: int, row: int, ro: Ext, rounds: Seq<PairFold>, n: nat) -> Seq<u64>
    decreases n,
{
    if n == 0 {
        g
    } else {
        written(
            chain_written(g, w, row, ro, rounds, (n - 1) as nat),
            w,
            row + n - 1,
            QT_E as int,
            chain_cells(ro, rounds, (n - 1) as nat),
        )
    }
}

/// Bit `i` of a number.
pub open spec fn bit_at(v: nat, i: nat) -> nat {
    ((v / pow2(i)) % 2) as nat
}

/// The point accumulator after `n` index bits: the product of g^(2^(lg - 1 - j)) over the set bits j.
pub open spec fn point_acc(index: nat, lg: nat, n: nat) -> u64
    decreases n,
{
    if n == 0 {
        1
    } else {
        f_mul(
            point_acc(index, lg, (n - 1) as nat),
            if bit_at(index, (n - 1) as nat) == 1 {
                f_square_times(two_adic_root(lg), (lg - n) as nat)
            } else {
                1
            },
        )
    }
}

/// The query point of an index.
pub open spec fn deep_point(index: nat, lg: nat) -> u64 {
    f_mul(GENERATOR, point_acc(index, lg, lg))
}

/// After `n` bits the accumulator is the generator to the reversal of the low `n` bits, scaled up.
proof fn lemma_acc_is_power(index: nat, lg: nat, n: nat)
    requires
        n <= lg,
    ensures
        point_acc(index, lg, n) == f_pow(two_adic_root(lg), rev_bits(index, n) * pow2((lg - n) as nat)),
    decreases n,
{
    let root = two_adic_root(lg);
    if n == 0 {
        assert(rev_bits(index, 0) * pow2(lg) == 0) by (nonlinear_arith)
            requires
                rev_bits(index, 0) == 0,
        ;
    } else {
        let m = (n - 1) as nat;
        lemma_acc_is_power(index, lg, m);
        let p = pow2((lg - n) as nat);
        let (rev, bit) = (rev_bits(index, m), bit_at(index, m));
        vstd::arithmetic::power2::lemma_pow2_unfold((lg - m) as nat);
        assert(pow2((lg - m) as nat) == 2 * p);
        assert((2 * rev + bit) * p == rev * (2 * p) + bit * p) by (nonlinear_arith);
        lemma_pow_add(root, rev * (2 * p), bit * p);
        if bit == 1 {
            assert(bit * p == p) by (nonlinear_arith)
                requires
                    bit == 1,
            ;
            lemma_square_times_pow(root, (lg - n) as nat);
        } else {
            assert(bit * p == 0) by (nonlinear_arith)
                requires
                    bit == 0,
            ;
        }
    }
}

/// The accumulated point is the query point: the coset shift times the generator to the reversed index.
pub proof fn law_deep_point_is_query_point(index: nat, lg: nat)
    ensures
        deep_point(index, lg) == query_x(index, lg, lg),
{
    lemma_acc_is_power(index, lg, lg);
    vstd::arithmetic::power2::lemma2_to64();
    assert(rev_bits(index, lg) * pow2(0) == rev_bits(index, lg)) by (nonlinear_arith)
        requires
            pow2(0) == 1,
    ;
    assert(index / pow2(0) == index);
}

/// The conjunction of bits 32 to 32 + k.
pub open spec fn high_and(v: nat, k: nat) -> nat
    decreases k,
{
    if k == 0 {
        bit_at(v, 32)
    } else {
        high_and(v, (k - 1) as nat) * bit_at(v, 32 + k)
    }
}

impl MonolithAir {
    /// The cells of a reduced-opening term.
    pub open spec fn s_term_cells(&self, t: OpeningTerm, x: u64, alpha: Ext, k: nat) -> Seq<u64> {
        if self.narrow_openings {
            Seq::empty()
        } else if self.narrow_arith {
            coords(t.pz)
        } else {
            coords(t.z) + coords(t.pz) + seq![f_red(t.px as int)] + coords(x_inv(x_sub(t.z, x_base(x)))) + coords(
                x_pow(alpha, k),
            )
        }
    }

    /// The cells of the first `n` terms.
    pub open spec fn s_terms_cells(&self, terms: Seq<OpeningTerm>, x: u64, alpha: Ext, n: nat) -> Seq<u64>
        decreases n,
    {
        if n == 0 {
            Seq::empty()
        } else {
            self.s_terms_cells(terms, x, alpha, (n - 1) as nat) + self.s_term_cells(
                terms[n - 1],
                x,
                alpha,
                (n - 1) as nat,
            )
        }
    }

    /// The head row of a super-tile, from the index bits on: the bits, the point accumulators, the batching challenge,
    /// the terms, the index felt with its 64 bits, and the conjunctions of its high bits.
    pub open spec fn s_head_cells(&self, q: QueryData) -> Seq<u64> {
        let lg = self.s_lg() as nat;
        let v = f_red(q.felt as int) as nat;
        Seq::new(lg, |i: int| bit_at(q.index as nat, i as nat) as u64) + Seq::new(
            lg,
            |i: int| point_acc(q.index as nat, lg, (i + 1) as nat),
        ) + coords(q.alpha) + self.s_terms_cells(
            q.terms@,
            deep_point(q.index as nat, lg),
            q.alpha,
            q.terms@.len(),
        ) + seq![f_red(q.felt as int)] + Seq::new(64, |i: int| bit_at(v, i as nat) as u64) + Seq::new(
            31,
            |k: int| high_and(v, (k + 1) as nat) as u64,
        )
    }

    /// The first `n` rows of the index shift register.
    pub open spec fn s_rem_written(&self, g: Seq<u64>, w: int, row: int, v: nat, n: nat) -> Seq<u64>
        decreases n,
    {
        if n == 0 {
            g
        } else {
            written(
                self.s_rem_written(g, w, row, v, (n - 1) as nat),
                w,
                row + n - 1,
                self.s_idx_rem(),
                seq![((v % pow2(self.s_lg() as nat)) / pow2((n - 1) as nat)) as u64],
            )
        }
    }

    /// The preimage of the trace leaf: the queried values of its columns, and the salt.
    pub open spec fn s_input_preimage(&self, q: QueryData) -> Seq<u64> {
        Seq::new(self.s_trm_committed_w() as nat, |c: int| q.terms@[self.s_trm_trace(c)].px) + (match q.hiding {
            Some(hw) => hw.trace_salt@,
            None => Seq::empty(),
        })
    }

    /// The preimage of the first `n` chunks of the quotient leaf.
    pub open spec fn s_quot_preimage(&self, q: QueryData, n: nat) -> Seq<u64>
        decreases n,
    {
        if n == 0 {
            Seq::empty()
        } else {
            self.s_quot_preimage(q, (n - 1) as nat) + Seq::new(
                self.s_trm_chunk_w() as nat,
                |j: int| q.terms@[self.s_trm_quot(n - 1, j)].px,
            ) + (match q.hiding {
                Some(hw) => hw.quot_salts@[n - 1]@,
                None => Seq::empty(),
            })
        }
    }

    /// The preimage of the random round's leaf.
    pub open spec fn s_random_preimage(&self, q: QueryData) -> Seq<u64> {
        match q.hiding {
            Some(hw) => Seq::new(self.s_random_committed_w() as nat, |c: int| q.terms@[c].px) + hw.random_salt@,
            None => Seq::empty(),
        }
    }

    /// The preimage of the aux leaf.
    pub open spec fn s_aux_preimage(&self, q: QueryData) -> Seq<u64> {
        match q.aux_path {
            Some(_) => Seq::new(self.s_aux_base_w() as nat, |c: int| q.terms@[self.s_trm_aux(c)].px),
            None => Seq::empty(),
        }
    }

    /// The preimage of a commit round's leaf.
    pub open spec fn s_commit_preimage(&self, q: QueryData, r: int) -> Seq<u64> {
        q.commits@[r].group@ + (match q.hiding {
            Some(hw) => hw.commit_salts@[r]@,
            None => Seq::empty(),
        })
    }

    /// The openings of the first `n` commit rounds.
    pub open spec fn s_commits_written(&self, g: Seq<u64>, w: int, row: int, q: QueryData, n: nat) -> Seq<u64>
        decreases n,
    {
        if n == 0 {
            g
        } else {
            let c = q.commits@[n - 1];
            opening_written(
                self.s_commits_written(g, w, row, q, (n - 1) as nat),
                w,
                row + 32 * self.s_cm_leaf(n - 1),
                self.s_commit_preimage(q, n - 1),
                contents(c.path.siblings@),
                c.path.bits@,
            )
        }
    }

    /// The fold groups of the first `n` commit rounds.
    pub open spec fn s_groups(&self, q: QueryData, n: nat) -> Seq<u64>
        decreases n,
    {
        if n == 0 {
            Seq::empty()
        } else {
            self.s_groups(q, (n - 1) as nat) + q.commits@[n - 1].group@
        }
    }

    /// The cap entries that the first `n` commit rounds reach.
    pub open spec fn s_commit_tops(&self, q: QueryData, n: nat) -> Seq<u64>
        decreases n,
    {
        if n == 0 {
            Seq::empty()
        } else {
            self.s_commit_tops(q, (n - 1) as nat) + q.commits@[n - 1].path.top(
                leaf_hash(self.s_commit_preimage(q, n - 1)),
            )
        }
    }

    /// The cap entries that a query's openings reach: trace, quotient, commit rounds, then the random or aux round.
    pub open spec fn s_cap_cells(&self, q: QueryData) -> Seq<u64> {
        q.path.top(leaf_hash(self.s_input_preimage(q))) + q.quot_path.top(
            leaf_hash(self.s_quot_preimage(q, self.s_nqc() as nat)),
        ) + self.s_commit_tops(q, self.s_cm_rounds() as nat) + (match q.hiding {
            Some(hw) => hw.random_path.top(leaf_hash(self.s_random_preimage(q))),
            None => Seq::empty(),
        }) + (match q.aux_path {
            Some(p) => p.top(leaf_hash(self.s_aux_preimage(q))),
            None => Seq::empty(),
        })
    }

    /// The cells that are held over a super-tile: the leaf preimages, the fold groups, and the cap entries where they
    /// differ per query.
    pub open spec fn s_carrier_cells(&self, q: QueryData) -> Seq<u64> {
        (if self.narrow_ov {
            Seq::empty()
        } else {
            self.s_input_preimage(q)
        }) + self.s_random_preimage(q) + self.s_aux_preimage(q) + self.s_quot_preimage(q, self.s_nqc() as nat)
            + self.s_groups(q, self.s_cm_rounds() as nat) + (if self.s_full_cap() {
            self.s_cap_cells(q)
        } else {
            Seq::empty()
        })
    }

    /// All openings of a query from row `row` on.
    pub open spec fn s_openings_written(&self, g: Seq<u64>, w: int, row: int, q: QueryData) -> Seq<u64> {
        let first = row + 32 * M_INPUT_LEAF;
        let g1 = match q.hiding {
            Some(hw) => opening_written(
                g,
                w,
                first,
                self.s_random_preimage(q),
                contents(hw.random_path.siblings@),
                hw.random_path.bits@,
            ),
            None => g,
        };
        let g2 = match q.aux_path {
            Some(p) => opening_written(g1, w, first, self.s_aux_preimage(q), contents(p.siblings@), p.bits@),
            None => g1,
        };
        let g3 = opening_written(
            g2,
            w,
            row + 32 * self.s_m_input_leaf(),
            self.s_input_preimage(q),
            contents(q.path.siblings@),
            q.path.bits@,
        );
        let g4 = opening_written(
            g3,
            w,
            row + 32 * self.s_m_quot_leaf(),
            self.s_quot_preimage(q, self.s_nqc() as nat),
            contents(q.quot_path.siblings@),
            q.quot_path.bits@,
        );
        self.s_commits_written(g4, w, row, q, self.s_cm_rounds() as nat)
    }

    /// A super-tile from row `row` on.
    pub open spec fn s_tile_written(&self, g: Seq<u64>, w: int, row: int, q: QueryData) -> Seq<u64> {
        let v = f_red(q.felt as int) as nat;
        let g1 = chain_written(g, w, row, q.ro, q.rounds@, (self.s_cm_rounds() + 1) as nat);
        let g2 = written(g1, w, row, QT_DBITS as int, self.s_head_cells(q));
        let g3 = self.s_rem_written(g2, w, row, v, (self.s_nb() - 2) as nat);
        let g4 = self.s_openings_written(g3, w, row, q);
        held(g4, w, row, self.s_m_period() as nat, self.s_ov(), self.s_carrier_cells(q))
    }

    /// The first `n` super-tiles.
    pub open spec fn s_tiles_written(&self, g: Seq<u64>, w: int, qs: Seq<QueryData>, n: nat) -> Seq<u64>
        decreases n,
    {
        if n == 0 {
            g
        } else {
            self.s_tile_written(
                self.s_tiles_written(g, w, qs, (n - 1) as nat),
                w,
                self.s_tr() + (n - 1) * self.s_m_period(),
                qs[n - 1],
            )
        }
    }

    /// The first `n` rows of the transcript region.
    pub open spec fn s_transcript_written(&self, g: Seq<u64>, w: int, blocks: Seq<Seq<u64>>, n: nat) -> Seq<u64>
        decreases n,
    {
        if n == 0 {
            g
        } else {
            written(
                self.s_transcript_written(g, w, blocks, (n - 1) as nat),
                w,
                n - 1,
                0,
                transcript_row(blocks, n - 1),
            )
        }
    }

    /// The squares of zeta: zeta^2, zeta^4, and so on.
    pub open spec fn s_squares(&self, zeta: Ext, n: nat) -> Seq<u64>
        decreases n,
    {
        if n == 0 {
            Seq::empty()
        } else {
            self.s_squares(zeta, (n - 1) as nat) + coords(square_chain(zeta, n))
        }
    }

    /// The trace of one instance: zeros but for the transcript, the super-tiles, the held batching challenge and, where
    /// the inner's public values live in columns, their window with the squares of zeta.
    pub open spec fn s_trace(
        &self,
        blocks: Seq<Seq<u64>>,
        qs: Seq<QueryData>,
        alpha_fri: Ext,
        window: Seq<u64>,
    ) -> Seq<u64> {
        let (h, w) = (self.s_height(), self.s_fused_w());
        let g0 = Seq::new((h * w) as nat, |i: int| 0u64);
        let g1 = self.s_transcript_written(g0, w, blocks, self.s_tr() as nat);
        let g2 = self.s_tiles_written(g1, w, qs, qs.len());
        let g3 = held(g2, w, 0, h as nat, self.s_carry(), coords(alpha_fri));
        if self.column_window {
            let at = 2 * self.s_nlc() + 2;
            let zeta = Ext { c0: window[at], c1: window[at + 1] };
            held(g3, w, 0, h as nat, self.s_pw_base(), window + self.s_squares(zeta, self.s_cm_rounds() as nat))
        } else {
            g3
        }
    }

    /// The data of a query has the shape of the verifier.
    pub open spec fn query_fits(&self, q: QueryData) -> bool {
        &&& q.terms@.len() == self.n_terms
        &&& q.rounds@.len() == self.s_cm_rounds()
        &&& q.path.ok(self.s_input_depth())
        &&& q.quot_path.ok(self.s_input_depth())
        &&& q.commits@.len() == self.s_cm_rounds()
        &&& forall|r: int|
            0 <= r < q.commits@.len() ==> (#[trigger] q.commits@[r]).group@.len() == 4 && q.commits@[r].path.ok(
                self.s_cm_depth_r(r),
            )
        &&& q.hiding is Some <==> self.is_zk == 1
        &&& q.aux_path is Some <==> self.s_is_lookup()
        &&& q.hiding matches Some(hw) ==> {
            &&& hw.trace_salt@.len() == HIDING_SALT
            &&& hw.random_salt@.len() == HIDING_SALT
            &&& hw.random_path.ok(self.s_input_depth())
            &&& hw.quot_salts@.len() == self.s_nqc()
            &&& hw.commit_salts@.len() == self.s_cm_rounds()
            &&& forall|i: int| 0 <= i < hw.quot_salts@.len() ==> (#[trigger] hw.quot_salts@[i])@.len() == HIDING_SALT
            &&& forall|i: int| 0 <= i < hw.commit_salts@.len() ==> (#[trigger] hw.commit_salts@[i])@.len() == HIDING_SALT
        }
        &&& q.aux_path matches Some(p) ==> p.ok(self.s_input_depth())
    }

    /// Everything that a query's cells invert has an inverse: twice each fold point and, where the terms are kept in
    /// full, the difference of each term's point from the query point.
    pub open spec fn query_inverts(&self, q: QueryData) -> bool {
        &&& forall|r: int| 0 <= r < q.rounds@.len() ==> f_mul(2, (#[trigger] q.rounds@[r]).point) != 0
        &&& !self.narrow_arith ==> off_terms(q.terms@, deep_point(q.index as nat, self.s_lg() as nat))
    }

    /// The trace can be built: opening values are only left out with their terms, the depth is within the field, and
    /// the shift register and the cells have room.
    pub open spec fn buildable(&self) -> bool {
        &&& self.wf()
        &&& self.narrow_openings ==> self.narrow_arith
        &&& order_ok(self.s_lg() as nat)
        &&& self.s_nb() - 2 <= self.s_m_period()
        &&& self.s_height() * self.s_fused_w() <= usize::MAX
    }
}

/// zeta squared `n` times, without reducing zeta first.
pub open spec fn square_chain(zeta: Ext, n: nat) -> Ext
    decreases n,
{
    if n == 0 {
        zeta
    } else {
        x_mul(square_chain(zeta, (n - 1) as nat), square_chain(zeta, (n - 1) as nat))
    }
}

/// Halving takes a quotient to the next power of two.
proof fn lemma_halve(v: nat, i: nat)
    ensures
        v / pow2(0) == v,
        (v / pow2(i)) / 2 == v / pow2(i + 1),
        v / pow2(i) <= v,
{
    vstd::arithmetic::power2::lemma2_to64();
    vstd::arithmetic::power2::lemma_pow2_pos(i);
    vstd::arithmetic::power2::lemma_pow2_unfold(i + 1);
    vstd::arithmetic::div_mod::lemma_div_denominator(v as int, pow2(i) as int, 2);
    assert(pow2(i) * 2 == pow2(i + 1)) by (nonlinear_arith)
        requires
            pow2(i + 1) == 2 * pow2(i),
    ;
    vstd::arithmetic::div_mod::lemma_div_nonincreasing(v as int, pow2(i) as int);
}

/// Append the low `n` bits of a number.
fn push_bits(out: &mut Vec<u64>, v: u64, n: usize)
    ensures
        final(out)@ == old(out)@ + Seq::new(n as nat, |i: int| bit_at(v as nat, i as nat) as u64),
{
    let ghost before = out@;
    let mut rem: u64 = v;
    let mut i: usize = 0;
    proof {
        lemma_halve(v as nat, 0);
    }
    while i < n
        invariant
            i <= n,
            rem == v as nat / pow2(i as nat),
            out@ =~= before + Seq::new(i as nat, |k: int| bit_at(v as nat, k as nat) as u64),
        decreases n - i,
    {
        out.push(rem % 2);
        proof {
            lemma_halve(v as nat, i as nat);
        }
        rem = rem / 2;
        i += 1;
    }
}

/// The fold of two evaluations, given the inverse of twice the point.
fn fold_pair(e0: Ext, e1: Ext, beta: Ext, point: u64, inv: u64) -> (r: Ext)
    requires
        inv == f_inv(f_mul(2, point)),
    ensures
        r == pair_fold(e0, e1, beta, point),
{
    reveal(pair_fold);
    let mean: Ext = e0.plus(e1).times(Ext::from_base(HALF));
    mean.plus(beta.times(e0.minus(e1)).times(Ext::from_base(inv)))
}

/// The cells of a fold row.
fn fold_cells(e: Ext, f: PairFold, inv: u64) -> (cells: Vec<u64>)
    ensures
        cells@ == coords(e) + coords(f.sibling) + coords(f.beta) + seq![
            super::grid::bit_felt(f.bit),
            f_red(f.point as int),
            inv,
        ],
{
    let mut cells: Vec<u64> = Vec::new();
    push_coords(&mut cells, e);
    push_coords(&mut cells, f.sibling);
    push_coords(&mut cells, f.beta);
    cells.push(if f.bit { 1 } else { 0 });
    cells.push(canonical(f.point));
    cells.push(inv);
    cells
}

/// The evaluation after a fold.
fn folded_on(e: Ext, f: PairFold, inv: u64) -> (r: Ext)
    requires
        inv == f_inv(f_mul(2, f.point)),
    ensures
        r == if f.bit {
            pair_fold(f.sibling, e, f.beta, f.point)
        } else {
            pair_fold(e, f.sibling, f.beta, f.point)
        },
{
    if f.bit {
        fold_pair(f.sibling, e, f.beta, f.point, inv)
    } else {
        fold_pair(e, f.sibling, f.beta, f.point, inv)
    }
}

/// The inverse of twice a fold point.
fn twice_inverse(point: u64) -> (r: Option<u64>)
    ensures
        r is Some <==> f_mul(2, point) != 0,
        r matches Some(v) ==> v == f_inv(f_mul(2, point)),
{
    let twice: u64 = fmul(2, point);
    assert(f_red(twice as int) == twice);
    finv(twice)
}

/// Write the fold chain; false where twice a fold point has no inverse.
fn put_chain(g: &mut Vec<u64>, w: usize, Ghost(h): Ghost<int>, row: usize, ro: Ext, rounds: &Vec<PairFold>) -> (ok: bool)
    requires
        old(g)@.len() == h * w,
        row + rounds@.len() + 1 <= h,
        row + rounds@.len() + 1 <= usize::MAX,
        QT_DBITS <= w,
    ensures
        final(g)@.len() == h * w,
        ok == forall|r: int| 0 <= r < rounds@.len() ==> f_mul(2, (#[trigger] rounds@[r]).point) != 0,
        ok ==> final(g)@ == chain_written(old(g)@, w as int, row as int, ro, rounds@, rounds@.len() + 1),
{
    let ghost before = g@;
    let n: usize = rounds.len();
    let mut e: Ext = ro;
    let mut r: usize = 0;
    while r < n
        invariant
            r <= n,
            n == rounds@.len(),
            g@.len() == h * w,
            row + n + 1 <= h,
            row + n + 1 <= usize::MAX,
            QT_DBITS <= w,
            e == fold_value(ro, rounds@, r as nat),
            forall|k: int| 0 <= k < r ==> f_mul(2, (#[trigger] rounds@[k]).point) != 0,
            g@ == chain_written(before, w as int, row as int, ro, rounds@, r as nat),
        decreases n - r,
    {
        let f: PairFold = rounds[r];
        let inv: u64 = match twice_inverse(f.point) {
            Some(v) => v,
            None => {
                return false;
            },
        };
        let cells: Vec<u64> = fold_cells(e, f, inv);
        assert(cells@ == chain_cells(ro, rounds@, r as nat));
        put_row(g, w, Ghost(h), row + r, QT_E, &cells);
        e = folded_on(e, f, inv);
        r += 1;
    }
    let mut cells: Vec<u64> = Vec::new();
    push_coords(&mut cells, e);
    assert(cells@ =~= chain_cells(ro, rounds@, n as nat));
    put_row(g, w, Ghost(h), row + n, QT_E, &cells);
    true
}

/// The point accumulators of an index, given its bits; the last one comes back as well.
fn point_accs(index: usize, bits: &Vec<u64>, lg: usize) -> (r: (Vec<u64>, u64))
    requires
        lg <= TWO_ADICITY,
        bits@.len() >= lg,
        forall|i: int| 0 <= i < lg ==> #[trigger] bits@[i] == bit_at(index as nat, i as nat) as u64,
    ensures
        r.0@ == Seq::new(lg as nat, |i: int| point_acc(index as nat, lg as nat, (i + 1) as nat)),
        r.1 == point_acc(index as nat, lg as nat, lg as nat),
{
    let root: u64 = two_adic_generator(lg);
    let mut out: Vec<u64> = Vec::new();
    let mut acc: u64 = 1;
    let mut i: usize = 0;
    while i < lg
        invariant
            i <= lg,
            root == two_adic_root(lg as nat),
            bits@.len() >= lg,
            forall|k: int| 0 <= k < lg ==> #[trigger] bits@[k] == bit_at(index as nat, k as nat) as u64,
            acc == point_acc(index as nat, lg as nat, i as nat),
            out@ =~= Seq::new(i as nat, |k: int| point_acc(index as nat, lg as nat, (k + 1) as nat)),
        decreases lg - i,
    {
        let factor: u64 = if bits[i] == 1 {
            exp_power_of_2(root, lg - 1 - i)
        } else {
            1
        };
        acc = fmul(acc, factor);
        out.push(acc);
        i += 1;
    }
    (out, acc)
}

/// Append the conjunctions of the high bits of a felt.
fn push_high(out: &mut Vec<u64>, v: u64)
    ensures
        final(out)@ == old(out)@ + Seq::new(31, |k: int| high_and(v as nat, (k + 1) as nat) as u64),
{
    let ghost before = out@;
    let mut bits: Vec<u64> = Vec::new();
    push_bits(&mut bits, v, 64);
    let mut q: u64 = bits[32];
    let mut k: usize = 0;
    while k < 31
        invariant
            k <= 31,
            bits@ == Seq::new(64, |i: int| bit_at(v as nat, i as nat) as u64),
            q == high_and(v as nat, k as nat),
            q <= 1,
            out@ =~= before + Seq::new(k as nat, |i: int| high_and(v as nat, (i + 1) as nat) as u64),
        decreases 31 - k,
    {
        let b: u64 = bits[33 + k];
        assert(b == bit_at(v as nat, (33 + k) as nat));
        assert(q * b <= 1) by (nonlinear_arith)
            requires
                q <= 1,
                b <= 1,
        ;
        q = q * b;
        k += 1;
        assert(q == high_and(v as nat, k as nat));
        out.push(q);
    }
}

impl MonolithAir {
    pub(super) proof fn lemma_terms_len(&self, terms: Seq<OpeningTerm>, x: u64, alpha: Ext, n: nat)
        ensures
            self.s_terms_cells(terms, x, alpha, n).len() == self.s_stride_offset(n as int),
        decreases n,
    {
        if n > 0 {
            self.lemma_terms_len(terms, x, alpha, (n - 1) as nat);
        }
    }

    /// Append the cells of the reduced-opening terms; false where the query point is the point of a term that needs its
    /// inverse.
    fn push_terms(&self, out: &mut Vec<u64>, terms: &Vec<OpeningTerm>, x: u64, alpha: Ext) -> (ok: bool)
        requires
            self.narrow_openings ==> self.narrow_arith,
        ensures
            ok == (!self.narrow_arith ==> off_terms(terms@, x)),
            ok ==> final(out)@ == old(out)@ + self.s_terms_cells(terms@, x, alpha, terms@.len()),
    {
        let ghost before = out@;
        let at: Ext = Ext::from_base(x);
        let mut apow: Ext = Ext::one();
        let mut k: usize = 0;
        while k < terms.len()
            invariant
                k <= terms@.len(),
                self.narrow_openings ==> self.narrow_arith,
                at == x_base(x),
                apow == x_pow(alpha, k as nat),
                !self.narrow_arith ==> off_terms(terms@.take(k as int), x),
                out@ =~= before + self.s_terms_cells(terms@, x, alpha, k as nat),
            decreases terms.len() - k,
        {
            let t: OpeningTerm = terms[k];
            let ghost start = out@;
            if !self.narrow_arith {
                let inv: Ext = match t.z.minus(at).inverse() {
                    Some(v) => v,
                    None => {
                        assert(x_same(x_sub(terms@[k as int].z, x_base(x)), x_zero()));
                        return false;
                    },
                };
                push_coords(out, t.z);
                push_coords(out, t.pz);
                out.push(canonical(t.px));
                push_coords(out, inv);
                push_coords(out, apow);
                assert(terms@.take(k + 1) =~= terms@.take(k as int).push(t));
            } else if !self.narrow_openings {
                push_coords(out, t.pz);
            }
            assert(out@ =~= start + self.s_term_cells(t, x, alpha, k as nat));
            apow = apow.times(alpha);
            k += 1;
        }
        assert(terms@.take(k as int) =~= terms@);
        true
    }

    /// The head row of a super-tile; nothing where an inverse is missing.
    fn head_cells(&self, q: &QueryData) -> (r: Option<Vec<u64>>)
        requires
            self.buildable(),
            self.query_fits(*q),
        ensures
            r is Some <==> (!self.narrow_arith ==> off_terms(
                q.terms@,
                deep_point(q.index as nat, self.s_lg() as nat),
            )),
            r matches Some(cells) ==> cells@ == self.s_head_cells(*q) && QT_DBITS + cells@.len() == self.s_idx_rem(),
    {
        let lg: usize = self.lg();
        let mut out: Vec<u64> = Vec::new();
        push_bits(&mut out, q.index as u64, lg);
        let (accs, last): (Vec<u64>, u64) = point_accs(q.index, &out, lg);
        let x: u64 = fmul(GENERATOR, last);
        push_felts(&mut out, &accs);
        push_coords(&mut out, q.alpha);
        if !self.push_terms(&mut out, &q.terms, x, q.alpha) {
            return None;
        }
        let v: u64 = canonical(q.felt);
        out.push(v);
        push_bits(&mut out, v, 64);
        push_high(&mut out, v);
        proof {
            self.lemma_terms_len(q.terms@, x, q.alpha, q.terms@.len());
            assert(out@ =~= self.s_head_cells(*q));
        }
        Some(out)
    }

    /// Write the index shift register.
    fn put_rem(&self, g: &mut Vec<u64>, w: usize, Ghost(h): Ghost<int>, row: usize, v: u64)
        requires
            self.buildable(),
            w == self.s_fused_w(),
            old(g)@.len() == h * w,
            row + self.s_m_period() <= h,
            row + self.s_m_period() <= usize::MAX,
        ensures
            final(g)@.len() == h * w,
            final(g)@ == self.s_rem_written(old(g)@, w as int, row as int, v as nat, (self.s_nb() - 2) as nat),
    {
        let ghost before = g@;
        let n: usize = self.nb() - 2;
        proof {
            self.lemma_bounds();
        }
        let col: usize = self.idx_rem();
        let order: usize = shifted_one(self.lg());
        proof {
            vstd::arithmetic::power2::lemma_pow2_pos(self.s_lg() as nat);
        }
        let low: u64 = v % (order as u64);
        let mut rem: u64 = low;
        let mut r: usize = 0;
        proof {
            lemma_halve(low as nat, 0);
        }
        while r < n
            invariant
                r <= n,
                n == self.s_nb() - 2,
                n <= self.s_m_period(),
                col == self.s_idx_rem(),
                col < w,
                low == v as nat % pow2(self.s_lg() as nat),
                rem == low as nat / pow2(r as nat),
                g@.len() == h * w,
                row + self.s_m_period() <= h,
                row + self.s_m_period() <= usize::MAX,
                g@ == self.s_rem_written(before, w as int, row as int, v as nat, r as nat),
            decreases n - r,
        {
            let cells: Vec<u64> = vec![rem];
            assert(cells@ =~= seq![((v as nat % pow2(self.s_lg() as nat)) / pow2(r as nat)) as u64]);
            put_row(g, w, Ghost(h), row + r, col, &cells);
            proof {
                lemma_halve(low as nat, r as nat);
            }
            rem = rem / 2;
            r += 1;
        }
    }
}

/// Append the queried values of `n` terms from `first` on.
fn push_queried(out: &mut Vec<u64>, terms: &Vec<OpeningTerm>, first: usize, n: usize)
    requires
        first + n <= terms@.len(),
    ensures
        final(out)@ == old(out)@ + Seq::new(n as nat, |c: int| terms@[first + c].px),
{
    let ghost before = out@;
    let len: usize = terms.len();
    let mut c: usize = 0;
    while c < n
        invariant
            c <= n,
            len == terms@.len(),
            first + n <= len,
            out@ =~= before + Seq::new(c as nat, |k: int| terms@[first + k].px),
        decreases n - c,
    {
        out.push(terms[first + c].px);
        c += 1;
    }
}

impl MonolithAir {
    /// The preimages have the lengths of the leaves.
    pub(super) proof fn lemma_preimages(&self, q: QueryData, n: nat)
        requires
            self.wf(),
            self.query_fits(q),
            n <= self.s_nqc(),
        ensures
            self.s_input_preimage(q).len() == self.s_input_leaf_felts(),
            self.s_quot_preimage(q, n).len() == if self.is_zk == 1 {
                10 * n
            } else {
                2 * n
            },
            self.s_random_preimage(q).len() == self.s_random_carriers(),
            self.s_aux_preimage(q).len() == self.s_aux_carriers(),
            forall|r: int|
                0 <= r < self.s_cm_rounds() ==> (#[trigger] self.s_commit_preimage(q, r)).len() == self.s_cm_leaf_felts(),
        decreases n,
    {
        if n > 0 {
            self.lemma_preimages(q, (n - 1) as nat);
            if self.is_zk == 1 {
                assert(q.hiding->Some_0.quot_salts@[n - 1]@.len() == HIDING_SALT);
            }
        }
        assert forall|r: int| 0 <= r < self.s_cm_rounds() implies (#[trigger] self.s_commit_preimage(q, r)).len()
            == self.s_cm_leaf_felts() by {
            assert(q.commits@[r].group@.len() == 4);
            if self.is_zk == 1 {
                assert(q.hiding->Some_0.commit_salts@[r]@.len() == HIDING_SALT);
            }
        }
    }

    fn input_preimage(&self, q: &QueryData) -> (r: Vec<u64>)
        requires
            self.wf(),
            self.query_fits(*q),
        ensures
            r@ == self.s_input_preimage(*q),
            r@.len() == self.s_input_leaf_felts(),
    {
        proof {
            self.lemma_terms();
            self.lemma_bounds();
            self.lemma_preimages(*q, 0);
        }
        let mut out: Vec<u64> = Vec::new();
        push_queried(&mut out, &q.terms, self.trm_trace_base(), self.trm_committed_w());
        if let Some(hw) = &q.hiding {
            push_felts(&mut out, &hw.trace_salt);
        }
        assert(out@ =~= self.s_input_preimage(*q));
        out
    }

    fn random_preimage(&self, q: &QueryData) -> (r: Vec<u64>)
        requires
            self.wf(),
            self.query_fits(*q),
        ensures
            r@ == self.s_random_preimage(*q),
            r@.len() == self.s_random_carriers(),
    {
        proof {
            self.lemma_terms();
            self.lemma_preimages(*q, 0);
        }
        let mut out: Vec<u64> = Vec::new();
        if let Some(hw) = &q.hiding {
            push_queried(&mut out, &q.terms, 0, self.random_committed_w());
            push_felts(&mut out, &hw.random_salt);
        }
        assert(out@ =~= self.s_random_preimage(*q));
        out
    }

    fn aux_preimage(&self, q: &QueryData) -> (r: Vec<u64>)
        requires
            self.wf(),
            self.query_fits(*q),
        ensures
            r@ == self.s_aux_preimage(*q),
            r@.len() == self.s_aux_carriers(),
    {
        proof {
            self.lemma_terms();
            self.lemma_bounds();
            self.lemma_preimages(*q, 0);
        }
        let mut out: Vec<u64> = Vec::new();
        if q.aux_path.is_some() {
            push_queried(&mut out, &q.terms, self.trm_aux(0), self.aux_base_w());
        }
        assert(out@ =~= self.s_aux_preimage(*q));
        out
    }

    fn quot_preimage(&self, q: &QueryData) -> (r: Vec<u64>)
        requires
            self.wf(),
            self.query_fits(*q),
        ensures
            r@ == self.s_quot_preimage(*q, self.s_nqc() as nat),
            r@.len() == self.s_quot_leaf_felts(),
    {
        proof {
            self.lemma_terms();
            self.lemma_bounds();
        }
        let n: usize = self.nqc();
        let mut out: Vec<u64> = Vec::new();
        let mut i: usize = 0;
        while i < n
            invariant
                i <= n,
                n == self.s_nqc(),
                self.wf(),
                self.query_fits(*q),
                self.s_trm_quot_base() + self.s_chunk_offset(self.s_nqc()) <= self.n_terms,
                out@ == self.s_quot_preimage(*q, i as nat),
            decreases n - i,
        {
            push_queried(&mut out, &q.terms, self.trm_quot(i, 0), self.trm_chunk_w());
            if let Some(hw) = &q.hiding {
                push_felts(&mut out, &hw.quot_salts[i]);
            }
            i += 1;
            assert(out@ =~= self.s_quot_preimage(*q, i as nat));
        }
        proof {
            self.lemma_preimages(*q, n as nat);
        }
        out
    }

    fn commit_preimage(&self, q: &QueryData, r: usize) -> (out: Vec<u64>)
        requires
            self.wf(),
            self.query_fits(*q),
            r < self.s_cm_rounds(),
        ensures
            out@ == self.s_commit_preimage(*q, r as int),
            out@.len() == self.s_cm_leaf_felts(),
    {
        proof {
            self.lemma_preimages(*q, 0);
        }
        let mut out: Vec<u64> = Vec::new();
        push_felts(&mut out, &q.commits[r].group);
        if let Some(hw) = &q.hiding {
            push_felts(&mut out, &hw.commit_salts[r]);
        }
        assert(out@ =~= self.s_commit_preimage(*q, r as int));
        out
    }
}

impl MonolithAir {
    /// The openings of a super-tile lie one behind the other inside it.
    pub(super) proof fn lemma_openings_fit(&self)
        requires
            self.wf(),
        ensures
            M_INPUT_LEAF <= self.s_m_input_leaf(),
            self.is_zk == 1 ==> M_INPUT_LEAF + self.s_random_leaf_blocks() + self.s_input_depth() <= self.s_m_nblocks(),
            self.s_is_lookup() ==> M_INPUT_LEAF + self.s_aux_leaf_blocks() + self.s_input_depth() <= self.s_m_nblocks(),
            self.s_m_input_leaf() + self.s_leaf_blocks() + self.s_input_depth() <= self.s_m_nblocks(),
            self.s_m_quot_leaf() + self.s_quot_leaf_blocks() + self.s_input_depth() <= self.s_m_nblocks(),
            0 <= self.s_m_input_leaf() <= self.s_m_quot_leaf(),
            32 * self.s_m_nblocks() == self.s_m_period(),
    {
        self.lemma_bounds();
        self.lemma_cm_leaf_bound(0);
    }

    /// Zeta stands in the window.
    proof fn lemma_window(&self)
        requires
            self.wf(),
        ensures
            2 * self.s_nlc() + 4 <= self.s_pis_count(),
            0 <= self.s_nlc(),
    {
        self.lemma_bounds();
    }

    /// Write the openings of the commit rounds; the cap entries that they reach come back in one run.
    fn put_commits(&self, g: &mut Vec<u64>, w: usize, Ghost(h): Ghost<int>, row: usize, q: &QueryData) -> (tops: Vec<u64>)
        requires
            self.buildable(),
            self.query_fits(*q),
            w == self.s_fused_w(),
            13 <= w,
            old(g)@.len() == h * w,
            row + self.s_m_period() <= h,
            row + self.s_m_period() <= usize::MAX,
        ensures
            final(g)@.len() == h * w,
            final(g)@ == self.s_commits_written(old(g)@, w as int, row as int, *q, self.s_cm_rounds() as nat),
            tops@ == self.s_commit_tops(*q, self.s_cm_rounds() as nat),
            tops@.len() == 4 * self.s_cm_rounds(),
            forall|r: int|
                0 <= r < self.s_cm_rounds() ==> path_ends(
                    #[trigger] self.s_commit_preimage(*q, r),
                    q.commits@[r].path,
                ),
    {
        let ghost before = g@;
        let n: usize = self.cm_rounds();
        let mut tops: Vec<u64> = Vec::new();
        let mut r: usize = 0;
        while r < n
            invariant
                r <= n,
                n == self.s_cm_rounds(),
                self.buildable(),
                self.query_fits(*q),
                13 <= w,
                g@.len() == h * w,
                row + self.s_m_period() <= h,
                row + self.s_m_period() <= usize::MAX,
                g@ == self.s_commits_written(before, w as int, row as int, *q, r as nat),
                tops@ == self.s_commit_tops(*q, r as nat),
                tops@.len() == 4 * r,
                forall|k: int|
                    0 <= k < r ==> path_ends(#[trigger] self.s_commit_preimage(*q, k), q.commits@[k].path),
            decreases n - r,
        {
            proof {
                self.lemma_cm_leaf_bound(r as nat);
                self.lemma_openings_fit();
                assert(q.commits@[r as int].path.ok(self.s_cm_depth_r(r as int)));
            }
            let preimage: Vec<u64> = self.commit_preimage(q, r);
            let at: usize = row + 32 * self.cm_leaf(r);
            let node: Vec<u64> = put_opening(g, w, Ghost(h), at, &preimage, &q.commits[r].path);
            push_felts(&mut tops, &node);
            r += 1;
        }
        tops
    }

    /// The fold groups in one run.
    fn groups(&self, q: &QueryData) -> (out: Vec<u64>)
        requires
            self.wf(),
            self.query_fits(*q),
        ensures
            out@ == self.s_groups(*q, self.s_cm_rounds() as nat),
            out@.len() == 4 * self.s_cm_rounds(),
    {
        let n: usize = self.cm_rounds();
        let mut out: Vec<u64> = Vec::new();
        let mut r: usize = 0;
        while r < n
            invariant
                r <= n,
                n == self.s_cm_rounds(),
                self.query_fits(*q),
                out@ == self.s_groups(*q, r as nat),
                out@.len() == 4 * r,
            decreases n - r,
        {
            assert(q.commits@[r as int].group@.len() == 4);
            push_felts(&mut out, &q.commits[r].group);
            r += 1;
        }
        out
    }

    /// Write the openings of a query; the cap entries that they reach come back in one run.
    fn put_openings(&self, g: &mut Vec<u64>, w: usize, Ghost(h): Ghost<int>, row: usize, q: &QueryData) -> (caps: Vec<u64>)
        requires
            self.buildable(),
            self.query_fits(*q),
            w == self.s_fused_w(),
            13 <= w,
            old(g)@.len() == h * w,
            row + self.s_m_period() <= h,
            row + self.s_m_period() <= usize::MAX,
        ensures
            final(g)@.len() == h * w,
            final(g)@ == self.s_openings_written(old(g)@, w as int, row as int, *q),
            caps@ == self.s_cap_cells(*q),
            caps@.len() == self.s_n_cap_c(),
            openings_end(*self, *q),
    {
        proof {
            self.lemma_bounds();
            self.lemma_openings_fit();
        }
        let random: Vec<u64> = self.random_preimage(q);
        let aux: Vec<u64> = self.aux_preimage(q);
        let input: Vec<u64> = self.input_preimage(q);
        let quot: Vec<u64> = self.quot_preimage(q);
        let mut extra: Vec<u64> = Vec::new();
        if let Some(hw) = &q.hiding {
            let node: Vec<u64> = put_opening(g, w, Ghost(h), row + 32 * M_INPUT_LEAF, &random, &hw.random_path);
            push_felts(&mut extra, &node);
        }
        if let Some(p) = &q.aux_path {
            let node: Vec<u64> = put_opening(g, w, Ghost(h), row + 32 * M_INPUT_LEAF, &aux, p);
            push_felts(&mut extra, &node);
        }
        let mut caps: Vec<u64> = put_opening(g, w, Ghost(h), row + 32 * self.m_input_leaf(), &input, &q.path);
        let quot_node: Vec<u64> = put_opening(g, w, Ghost(h), row + 32 * self.m_quot_leaf(), &quot, &q.quot_path);
        let tops: Vec<u64> = self.put_commits(g, w, Ghost(h), row, q);
        push_felts(&mut caps, &quot_node);
        push_felts(&mut caps, &tops);
        push_felts(&mut caps, &extra);
        assert(caps@ =~= self.s_cap_cells(*q));
        caps
    }

    /// The cells held over a super-tile.
    fn carrier_cells(&self, q: &QueryData, caps: &Vec<u64>) -> (carriers: Vec<u64>)
        requires
            self.wf(),
            self.query_fits(*q),
            caps@ == self.s_cap_cells(*q),
            caps@.len() == self.s_n_cap_c(),
        ensures
            carriers@ == self.s_carrier_cells(*q),
            self.s_ov() + carriers@.len() == self.s_pw_base(),
    {
        let mut carriers: Vec<u64> = Vec::new();
        if !self.narrow_ov {
            push_felts(&mut carriers, &self.input_preimage(q));
        }
        push_felts(&mut carriers, &self.random_preimage(q));
        push_felts(&mut carriers, &self.aux_preimage(q));
        push_felts(&mut carriers, &self.quot_preimage(q));
        push_felts(&mut carriers, &self.groups(q));
        if self.full_cap() {
            push_felts(&mut carriers, caps);
        }
        assert(carriers@ =~= self.s_carrier_cells(*q));
        carriers
    }

    /// Write a super-tile; false where an inverse is missing.
    fn put_tile(&self, g: &mut Vec<u64>, w: usize, Ghost(h): Ghost<int>, row: usize, q: &QueryData) -> (ok: bool)
        requires
            self.buildable(),
            self.query_fits(*q),
            w == self.s_fused_w(),
            old(g)@.len() == h * w,
            row + self.s_m_period() <= h,
            row + self.s_m_period() <= usize::MAX,
        ensures
            final(g)@.len() == h * w,
            ok == self.query_inverts(*q),
            ok ==> final(g)@ == self.s_tile_written(old(g)@, w as int, row as int, *q),
            ok ==> self.carriers_fill(*q) && openings_end(*self, *q),
    {
        proof {
            self.lemma_bounds();
            self.lemma_openings_fit();
        }
        let head: Vec<u64> = match self.head_cells(q) {
            Some(v) => v,
            None => {
                return false;
            },
        };
        if !put_chain(g, w, Ghost(h), row, q.ro, &q.rounds) {
            return false;
        }
        put_row(g, w, Ghost(h), row, QT_DBITS, &head);
        self.put_rem(g, w, Ghost(h), row, canonical(q.felt));
        let caps: Vec<u64> = self.put_openings(g, w, Ghost(h), row, q);
        let carriers: Vec<u64> = self.carrier_cells(q, &caps);
        hold_rows(g, w, Ghost(h), row, self.m_period(), self.ov(), &carriers);
        true
    }
}

/// A vector of zeros.
pub(crate) fn zeros(n: usize) -> (v: Vec<u64>)
    ensures
        v@ == Seq::new(n as nat, |i: int| 0u64),
{
    let mut v: Vec<u64> = Vec::new();
    while v.len() < n
        invariant
            v@.len() <= n,
            v@ =~= Seq::new(v@.len(), |i: int| 0u64),
        decreases n - v.len(),
    {
        v.push(0);
    }
    v
}

impl MonolithAir {
    /// Write the transcript region.
    fn put_transcript(&self, g: &mut Vec<u64>, w: usize, Ghost(h): Ghost<int>, block_inputs: &Vec<Vec<u64>>)
        requires
            self.wf(),
            forall|b: int| 0 <= b < block_inputs@.len() ==> (#[trigger] block_inputs@[b])@.len() == 8,
            self.s_tr() <= 32 * next_pow2(block_inputs@.len()) <= usize::MAX,
            self.s_tr() <= h,
            8 <= w,
            old(g)@.len() == h * w,
        ensures
            final(g)@.len() == h * w,
            final(g)@ == self.s_transcript_written(
                old(g)@,
                w as int,
                contents(block_inputs@),
                self.s_tr() as nat,
            ),
            rows_are_eight(*self, contents(block_inputs@)),
    {
        let ghost before = g@;
        let ghost blocks = contents(block_inputs@);
        let t: Vec<Vec<u64>> = ft_build_trace(block_inputs);
        let tr: usize = self.tr();
        let mut r: usize = 0;
        while r < tr
            invariant
                r <= tr,
                tr <= t@.len(),
                tr <= h,
                8 <= w,
                g@.len() == h * w,
                forall|k: int| 0 <= k < t@.len() ==> (#[trigger] t@[k])@ == transcript_row(blocks, k) && t@[k]@.len() == 8,
                g@ == self.s_transcript_written(before, w as int, blocks, r as nat),
            decreases tr - r,
        {
            put_row(g, w, Ghost(h), r, 0, &t[r]);
            r += 1;
        }
        assert forall|k: int| 0 <= k < tr implies (#[trigger] transcript_row(blocks, k)).len() == 8 by {
            assert(t@[k]@ == transcript_row(blocks, k));
        }
    }

    /// The squares of zeta.
    fn squares(&self, zeta: Ext) -> (out: Vec<u64>)
        requires
            self.wf(),
        ensures
            out@ == self.s_squares(zeta, self.s_cm_rounds() as nat),
            out@.len() == 2 * self.s_cm_rounds(),
    {
        let n: usize = self.cm_rounds();
        let mut out: Vec<u64> = Vec::new();
        let mut s: Ext = zeta;
        let mut i: usize = 0;
        while i < n
            invariant
                i <= n,
                s == square_chain(zeta, i as nat),
                out@ == self.s_squares(zeta, i as nat),
                out@.len() == 2 * i,
            decreases n - i,
        {
            s = s.times(s);
            push_coords(&mut out, s);
            i += 1;
        }
        out
    }
}

/// The trace of one instance of the fused verifier, row by row; nothing where a query's cells need an inverse that does
/// not exist. Of the selector columns of a constraint-tree inner nothing is filled.
#[verifier::spinoff_prover]
#[verifier::rlimit(40)]
pub fn monolith_build_trace(
    air: &MonolithAir,
    block_inputs: &Vec<Vec<u64>>,
    queries: &Vec<QueryData>,
    alpha_fri: Ext,
    pub_window: &Vec<u64>,
) -> (t: Option<Vec<u64>>)
    requires
        air.buildable(),
        forall|b: int| 0 <= b < block_inputs@.len() ==> (#[trigger] block_inputs@[b])@.len() == 8,
        air.s_tr() <= 32 * next_pow2(block_inputs@.len()) <= usize::MAX,
        forall|q: int| 0 <= q < queries@.len() ==> air.query_fits(#[trigger] queries@[q]),
        air.s_tr() + queries@.len() * air.s_m_period() <= air.s_height(),
        air.column_window ==> pub_window@.len() == air.s_pis_count(),
    ensures
        t is Some <==> forall|q: int| 0 <= q < queries@.len() ==> air.query_inverts(#[trigger] queries@[q]),
        t matches Some(cells) ==> cells@ == air.s_trace(contents(block_inputs@), queries@, alpha_fri, pub_window@)
            && cells@.len() == air.s_height() * air.s_fused_w(),
        !air.fold && air.k_instances >= 1 ==> (t matches Some(cells) ==> trace_built(
            *air,
            cells@,
            contents(block_inputs@),
            queries@,
            alpha_fri,
        )),
{
    proof {
        air.lemma_bounds();
        air.lemma_openings_fit();
    }
    let h: usize = air.height();
    let w: usize = air.fused_w();
    let mut g: Vec<u64> = zeros(h * w);
    let ghost blocks = contents(block_inputs@);
    proof {
        assert(0 <= queries@.len() * air.s_m_period()) by (nonlinear_arith)
            requires
                0 <= air.s_m_period(),
        ;
    }
    air.put_transcript(&mut g, w, Ghost(h as int), block_inputs);
    let ghost g1 = g@;
    let period: usize = air.m_period();
    let mut row: usize = air.tr();
    let mut q: usize = 0;
    while q < queries.len()
        invariant
            q <= queries@.len(),
            air.buildable(),
            h == air.s_height(),
            w == air.s_fused_w(),
            period == air.s_m_period(),
            period >= 0,
            row == air.s_tr() + q * period,
            air.s_tr() + queries@.len() * period <= h,
            g@.len() == h * w,
            forall|k: int| 0 <= k < queries@.len() ==> air.query_fits(#[trigger] queries@[k]),
            forall|k: int| 0 <= k < q ==> air.query_inverts(#[trigger] queries@[k]) && air.carriers_fill(queries@[k]),
            forall|k: int| 0 <= k < q ==> openings_end(*air, #[trigger] queries@[k]),
            g@ == air.s_tiles_written(g1, w as int, queries@, q as nat),
        decreases queries.len() - q,
    {
        proof {
            assert((q + 1) * period == q * period + period) by (nonlinear_arith);
            assert((q + 1) * period <= queries@.len() * period) by (nonlinear_arith)
                requires
                    q + 1 <= queries@.len(),
                    period >= 0,
            ;
        }
        if !air.put_tile(&mut g, w, Ghost(h as int), row, &queries[q]) {
            assert(!air.query_inverts(queries@[q as int]));
            return None;
        }
        row = row + period;
        q += 1;
    }
    let mut alpha: Vec<u64> = Vec::new();
    push_coords(&mut alpha, alpha_fri);
    assert(alpha@ =~= coords(alpha_fri));
    hold_rows(&mut g, w, Ghost(h as int), 0, h, air.carry(), &alpha);
    if air.column_window {
        proof {
            air.lemma_window();
        }
        let at: usize = 2 * air.nlc() + 2;
        let zeta: Ext = Ext { c0: pub_window[at], c1: pub_window[at + 1] };
        let mut cells: Vec<u64> = Vec::new();
        push_felts(&mut cells, pub_window);
        push_felts(&mut cells, &air.squares(zeta));
        assert(cells@ =~= pub_window@ + air.s_squares(zeta, air.s_cm_rounds() as nat));
        hold_rows(&mut g, w, Ghost(h as int), 0, h, air.pw_base(), &cells);
    }
    proof {
        if !air.fold && air.k_instances >= 1 {
            air.lemma_trace_built(blocks, queries@, alpha_fri, pub_window@);
        }
    }
    Some(g)
}

impl MonolithAir {
    /// A laid-out trace whose openings end is built.
    #[verifier::spinoff_prover]
    #[verifier::rlimit(60)]
    proof fn lemma_trace_built(&self, blocks: Seq<Seq<u64>>, qs: Seq<QueryData>, alpha: Ext, window: Seq<u64>)
        requires
            self.lays_out(blocks, qs, window),
            rows_are_eight(*self, blocks),
            forall|q: int| 0 <= q < qs.len() ==> openings_end(*self, #[trigger] qs[q]),
        ensures
            trace_built(*self, self.s_trace(blocks, qs, alpha, window), blocks, qs, alpha),
    {
        let g = self.s_trace(blocks, qs, alpha, window);
        self.lemma_bounds();
        assert(self.s_inst_h() <= self.s_height()) by (nonlinear_arith)
            requires
                1 <= self.k_instances,
                0 <= self.s_inst_h(),
                self.s_height() == self.k_instances * self.s_inst_h(),
        ;
        self.lemma_region_holds(blocks, qs, alpha, window);
        assert forall|q: int| 0 <= q < qs.len() implies tile_built(*self, g, self.s_tile(q), #[trigger] qs[q]) by {
            self.lemma_tile_holds(blocks, qs, alpha, window, q);
            self.lemma_trace_openings(blocks, qs, alpha, window, q);
        }
        assert forall|r: int| 0 <= r < self.s_inst_h() implies pair_at(
            #[trigger] row_at(g, self.s_fold_w(), r),
            self.s_carry(),
        ) == x_red(alpha) by {
            self.lemma_carry_holds(blocks, qs, alpha, window, r);
        }
        assert forall|r: int|
            0 <= r < self.s_inst_h() && (forall|k: int| 0 <= k < qs.len() ==> r != #[trigger] self.s_tile(k)) implies #[trigger] cell(
            g,
            self.s_fold_w(),
            r,
            12,
        ) <= 1 by {
            self.lemma_side_bits(blocks, qs, alpha, window, r);
        }
        assert(sides_are_bits(*self, g, qs));
        reveal(trace_built);
    }
}

} // verus!
