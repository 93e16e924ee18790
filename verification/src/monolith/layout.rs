//! The shape of the fused verifier: where every block, column, public value and periodic selector stands,
//! as a function of the inner proof's dimensions.
//!
//! A trace holds `k_instances` instances. An instance is the transcript region followed by one super-tile
//! per query: an arithmetic block, then the Merkle openings of the (random or aux,) trace, quotient and
//! commit-phase trees, each a leaf hash and a path, one permutation per block.

use std::sync::Arc;
use vstd::arithmetic::power2::pow2;
use vstd::prelude::*;

use crate::bits::{div_ceil, div_up, next_pow2, next_power_of_two, shifted_one};
use crate::expr::Wire;
use crate::symbolic::ExtExpr;

verus! {

/// Sponge rate.
pub const RATE: usize = 4;

/// Permutation width.
pub const W: usize = 8;

/// Rows of one permutation.
pub const BLOCK: usize = 32;

/// The capacity lane that absorbs the input count.
pub const CAP_LANE: usize = 4;

/// Log of the low-degree-extension factor.
pub const LOG_BLOWUP: usize = 4;

/// The first Merkle block of a super-tile.
pub const M_INPUT_LEAF: usize = 1;

/// Random codewords that hiding appends to every committed row.
pub const HIDING_NUM_CW: usize = 4;

/// Salt felts that hiding appends to every leaf.
pub const HIDING_SALT: usize = 4;

/// Width of the random polynomial that hiding commits.
pub const HIDING_RAND_PUB: usize = 2;

/// Folded value on a fold row.
pub const QT_E: usize = 0;

/// Sibling value on a fold row.
pub const QT_S: usize = 2;

/// Fold challenge on a fold row.
pub const QT_B: usize = 4;

/// Index bit on a fold row.
pub const QT_BIT: usize = 6;

/// Fold point on a fold row.
pub const QT_SPT: usize = 7;

/// Inverse of twice the fold point on a fold row.
pub const QT_I2S: usize = 8;

/// First index bit on the head row.
pub const QT_DBITS: usize = 9;

/// Periodic column: last row of every block.
pub const FT_P_BLOCK_LAST: usize = 11;

/// Periodic column: inputs absorbed by the block.
pub const FT_COUNT: usize = 12;

/// Periodic column: inputs absorbed by the next block.
pub const FT_COUNT_NEXT: usize = 13;

/// Periodic column: the next block absorbs nothing.
pub const FT_IS_SQ_NEXT: usize = 14;

/// First periodic column of the challenge binds.
pub const FT_BIND_START: usize = 15;

/// Constraints folded between two witnessed accumulators.
pub const FOLD_CHUNK: usize = 7;

/// Chunks of a transaction statement.
pub const FOLD_SK_BLOCKS: usize = 7;

/// Offset of the anchor in a transaction statement.
pub const PI_ANCHOR: usize = 0;

/// Offset of the nullifiers.
pub const PI_NF: usize = 4;

/// Offset of the output commitments.
pub const PI_OUTCM: usize = 12;

/// Offset of the fee.
pub const PI_FEE: usize = 20;

/// Offset of the minted amount.
pub const PI_MINT: usize = 21;

/// Offset of the transaction binding.
pub const PI_TXBIND: usize = 22;

/// Nullifiers of a transaction, and outputs of one.
pub const N_IN: usize = 2;

pub const M_OUT: usize = 2;

/// Felts of a digest.
pub const DIGEST: usize = 4;

/// The lookup argument of an inner proof.
pub struct LookupCfg {
    /// Width of the aux matrix in extension elements: one accumulator and one fraction per lookup.
    pub aux_ext_w: usize,
    /// Two challenges per lookup.
    pub n_lookup_challenges: usize,
    /// The sponge lane of the first coordinate of each lookup challenge; the second is one lane below.
    pub lookup_bind_lanes: Vec<usize>,
    /// The fraction and accumulator constraints, folded after the base constraints.
    pub ext_constraints: Vec<Arc<ExtExpr>>,
}

/// The fused verifier of `k_instances` inner proofs of one shape.
pub struct MonolithAir {
    /// Inputs absorbed by each transcript block.
    pub counts: Vec<u8>,
    /// The transcript block of each challenge.
    pub binds: Vec<usize>,
    /// The transcript block and lane of each query index.
    pub index_binds: Vec<(usize, usize)>,
    pub n_queries: usize,
    /// Terms of the reduced opening.
    pub n_terms: usize,
    /// The one-column inner counts up by one instead of staying constant.
    pub inner_counter: bool,
    /// The inner public values live in a held window of columns instead of the public input.
    pub column_window: bool,
    pub k_instances: usize,
    /// Fold a digest of every instance into a running root, the only public value.
    pub fold: bool,
    /// The digest covers a whole transaction statement instead of one public value.
    pub fold_txstmt: bool,
    /// The inner constraint trees; none for the one-column inners.
    pub constraints: Vec<Wire>,
    pub w_inner_f: usize,
    pub n_pub_f: usize,
    pub n_periodic_f: usize,
    /// 1 when the inner proof is hiding, else 0.
    pub is_zk: usize,
    /// A cap has 2^cap_height entries.
    pub cap_height: usize,
    /// Keep only the opening value of each reduced-opening term.
    pub narrow_arith: bool,
    /// Leave the caps out of the public values.
    pub narrow_caps: bool,
    /// Leave the opening values out as well.
    pub narrow_openings: bool,
    /// Leave out the opened-row carrier.
    pub narrow_ov: bool,
    pub lookup: Option<LookupCfg>,
    /// The domain tag that opens a statement digest.
    pub txroot_dom: u64,
}

pub open spec fn s_min(a: int, b: int) -> int {
    if a <= b {
        a
    } else {
        b
    }
}

/// a - b, or zero where that is negative.
pub open spec fn s_min_sub(a: int, b: int) -> int {
    if a >= b {
        a - b
    } else {
        0
    }
}

/// Merkle path length of commit round `r`: the folded codeword has log-height log_global - (r + 1).
pub open spec fn s_cm_depth_at(r: int, log_global: int, cap_height: int) -> int {
    s_min_sub(log_global - (r + 1), cap_height)
}

pub fn min_usize(a: usize, b: usize) -> (r: usize)
    ensures
        r == s_min(a as int, b as int),
{
    if a <= b {
        a
    } else {
        b
    }
}

pub fn min_sub(a: usize, b: usize) -> (r: usize)
    ensures
        r == s_min_sub(a as int, b as int),
{
    if a >= b {
        a - b
    } else {
        0
    }
}

/// Merkle path length of commit round `r`.
pub fn cm_depth_at(r: usize, log_global: usize, cap_height: usize) -> (res: usize)
    requires
        r + 1 <= log_global,
    ensures
        res == s_cm_depth_at(r as int, log_global as int, cap_height as int),
{
    min_sub(log_global - (r + 1), cap_height)
}

impl MonolithAir {
    /// The dimensions describe a verifier that fits the machine: there is a commit round, a trace column
    /// and a quotient chunk, the terms and the cap fit the depth, hiding and lookup exclude each other, and
    /// the columns, rows, public values and selectors can be counted.
    pub open spec fn wf(&self) -> bool {
        &&& self.is_zk <= 1
        &&& self.is_zk == 1 ==> self.lookup is None
        &&& self.s_nb() >= self.s_nlc() + 4
        &&& self.cap_height <= self.s_lg()
        &&& self.s_w_inner() >= 1
        &&& self.s_nqc() >= 1
        &&& self.is_zk == 1 ==> self.n_terms >= 2 * self.s_w_inner() + 14
        &&& self.is_zk != 1 ==> self.n_terms >= 2 * self.s_w_inner() + self.s_aux_terms()
        &&& self.s_is_lookup() ==> self.s_aux_ext_w() >= 1
        &&& self.s_input_leaf_felts() <= usize::MAX
        &&& self.s_n_constraints() <= usize::MAX
        &&& self.s_n_cap_c() <= usize::MAX
        &&& self.s_cap_stride() <= usize::MAX
        &&& self.s_commit_caps_len() <= usize::MAX
        &&& self.s_ccap_base() + self.s_commit_caps_len() <= usize::MAX
        &&& self.s_pis_count() <= usize::MAX
        &&& self.s_fold_w() <= usize::MAX
        &&& self.s_num_periodic_columns() <= usize::MAX
        &&& self.s_m_period() <= usize::MAX
        &&& self.s_tr() <= usize::MAX
        &&& self.s_inst_h() <= usize::MAX
        &&& self.s_height() <= usize::MAX
    }

    /// The fold blocks fit an instance.
    pub open spec fn s_fold_fits(&self) -> bool {
        self.s_inst_h() / (BLOCK as int) >= self.s_n_fold_blocks()
    }

    /// Columns of `k` reduced-opening terms.
    pub open spec fn s_stride_offset(&self, k: int) -> int {
        if self.narrow_openings {
            0
        } else if self.narrow_arith {
            2 * k
        } else {
            9 * k
        }
    }

    /// Terms of `i` quotient chunks.
    pub open spec fn s_chunk_offset(&self, i: int) -> int {
        if self.is_zk == 1 {
            6 * i
        } else {
            2 * i
        }
    }

    /// Constraints of the inner, base and lookup ones together.
    pub open spec fn s_n_constraints(&self) -> int {
        self.constraints@.len() + match self.lookup {
            Some(l) => l.ext_constraints@.len() as int,
            None => 0,
        }
    }

    pub open spec fn s_fold_chunks(&self) -> int {
        s_min_sub(div_up(self.s_n_constraints(), FOLD_CHUNK as int), 1)
    }

    /// Boundaries between the chunks of the constraint fold.
    fn fold_chunks(&self) -> (res: usize)
        requires
            self.wf(),
        ensures
            res == self.s_fold_chunks(),
    {
        let n_ext: usize = match &self.lookup {
            Some(l) => l.ext_constraints.len(),
            None => 0,
        };
        min_sub(div_ceil(self.constraints.len() + n_ext, FOLD_CHUNK), 1)
    }

    // Mode of the inner proof.

    pub open spec fn s_is_lookup(&self) -> bool {
        self.lookup is Some
    }

    /// The inner proof carries a lookup argument.
    pub fn is_lookup(&self) -> (res: bool)
        ensures
            res == self.s_is_lookup(),
    {
        self.lookup.is_some()
    }

    pub open spec fn s_symbolic(&self) -> bool {
        self.constraints@.len() > 0 || self.s_is_lookup()
    }

    /// The inner is given by its constraint trees: it has some, or it is a lookup proof.
    pub fn symbolic(&self) -> (res: bool)
        ensures
            res == self.s_symbolic(),
    {
        self.constraints.len() > 0 || self.is_lookup()
    }

    pub open spec fn s_w_inner(&self) -> int {
        if self.s_symbolic() { (self.w_inner_f as int) } else { 1int }
    }

    /// Inner trace width.
    pub fn w_inner(&self) -> (res: usize)
        ensures
            res == self.s_w_inner(),
    {
        if self.symbolic() { self.w_inner_f } else { 1 }
    }

    pub open spec fn s_n_pub(&self) -> int {
        if self.s_symbolic() { (self.n_pub_f as int) } else { 1int }
    }

    /// Inner public-value count.
    pub fn n_pub(&self) -> (res: usize)
        ensures
            res == self.s_n_pub(),
    {
        if self.symbolic() { self.n_pub_f } else { 1 }
    }

    pub open spec fn s_n_periodic(&self) -> int {
        if self.s_symbolic() { (self.n_periodic_f as int) } else { 0int }
    }

    /// Inner periodic-column count.
    pub fn n_periodic(&self) -> (res: usize)
        ensures
            res == self.s_n_periodic(),
    {
        if self.symbolic() { self.n_periodic_f } else { 0 }
    }

    pub open spec fn s_nlc(&self) -> int {
        match self.lookup { Some(l) => l.n_lookup_challenges as int, None => 0 }
    }

    /// Lookup challenges, squeezed before all others.
    pub fn nlc(&self) -> (res: usize)
        ensures
            res == self.s_nlc(),
    {
        match &self.lookup { Some(l) => l.n_lookup_challenges, None => 0 }
    }

    pub open spec fn s_aux_ext_w(&self) -> int {
        match self.lookup { Some(l) => l.aux_ext_w as int, None => 0 }
    }

    /// Width of the reconstructed aux row, in extension elements.
    pub fn aux_ext_w(&self) -> (res: usize)
        ensures
            res == self.s_aux_ext_w(),
    {
        match &self.lookup { Some(l) => l.aux_ext_w, None => 0 }
    }

    pub open spec fn s_aux_base_w(&self) -> int {
        self.s_aux_ext_w() * 2
    }

    /// Width of the committed aux row.
    pub fn aux_base_w(&self) -> (res: usize)
        requires
            self.wf(),
        ensures
            res == self.s_aux_base_w(),
    {
        self.aux_ext_w() * 2
    }

    pub open spec fn s_aux_terms(&self) -> int {
        2 * self.s_aux_base_w()
    }

    /// Reduced-opening terms of the aux round, which opens at two points.
    pub fn aux_terms(&self) -> (res: usize)
        requires
            self.wf(),
        ensures
            res == self.s_aux_terms(),
    {
        2 * self.aux_base_w()
    }

    pub open spec fn s_full_cap(&self) -> bool {
        self.inner_counter || self.s_symbolic() || self.is_zk == 1 || self.s_is_lookup()
    }

    /// The cap entry differs per query, so the whole cap is kept and one entry selected.
    pub fn full_cap(&self) -> (res: bool)
        ensures
            res == self.s_full_cap(),
    {
        self.inner_counter || self.symbolic() || self.is_zk == 1 || self.is_lookup()
    }

    // FRI depth, from the transcript binds.

    pub open spec fn s_nb(&self) -> int {
        self.binds@.len() as int
    }

    /// Transcript challenges.
    pub fn nb(&self) -> (res: usize)
        ensures
            res == self.s_nb(),
    {
        self.binds.len()
    }

    pub open spec fn s_ni(&self) -> int {
        self.index_binds@.len() as int
    }

    /// Transcript query indices.
    pub fn ni(&self) -> (res: usize)
        ensures
            res == self.s_ni(),
    {
        self.index_binds.len()
    }

    pub open spec fn s_cm_rounds(&self) -> int {
        self.s_nb() - 3 - self.s_nlc()
    }

    /// Commit-phase rounds: the challenges besides the lookup ones, the constraint one, the point and the batching one.
    pub fn cm_rounds(&self) -> (res: usize)
        requires
            self.wf(),
        ensures
            res == self.s_cm_rounds(),
    {
        self.nb() - 3 - self.nlc()
    }

    pub open spec fn s_lg(&self) -> int {
        self.s_cm_rounds() + LOG_BLOWUP
    }

    /// Log-height of the largest codeword.
    pub fn lg(&self) -> (res: usize)
        requires
            self.wf(),
        ensures
            res == self.s_lg(),
    {
        self.cm_rounds() + LOG_BLOWUP
    }

    pub open spec fn s_ch_alpha_stark(&self) -> int {
        self.s_nlc()
    }

    /// Challenge slot of the constraint-batching challenge.
    pub fn ch_alpha_stark(&self) -> (res: usize)
        requires
            self.wf(),
        ensures
            res == self.s_ch_alpha_stark(),
    {
        self.nlc()
    }

    pub open spec fn s_ch_zeta(&self) -> int {
        self.s_nlc() + 1
    }

    /// Challenge slot of the out-of-domain point.
    pub fn ch_zeta(&self) -> (res: usize)
        requires
            self.wf(),
        ensures
            res == self.s_ch_zeta(),
    {
        self.nlc() + 1
    }

    pub open spec fn s_ch_alpha_fri(&self) -> int {
        self.s_nlc() + 2
    }

    /// Challenge slot of the opening-batching challenge.
    pub fn ch_alpha_fri(&self) -> (res: usize)
        requires
            self.wf(),
        ensures
            res == self.s_ch_alpha_fri(),
    {
        self.nlc() + 2
    }

    pub open spec fn s_ch_beta(&self, r: int) -> int {
        self.s_nlc() + 3 + r
    }

    /// Challenge slot of the fold challenge of round `r`.
    pub fn ch_beta(&self, r: usize) -> (res: usize)
        requires
            self.wf(),
            self.s_ch_beta(r as int) <= usize::MAX,
        ensures
            res == self.s_ch_beta(r as int),
    {
        self.nlc() + 3 + r
    }

    pub open spec fn s_input_depth(&self) -> int {
        self.s_lg() - (self.cap_height as int)
    }

    /// Merkle path length from an input leaf to the cap.
    pub fn input_depth(&self) -> (res: usize)
        requires
            self.wf(),
        ensures
            res == self.s_input_depth(),
    {
        self.lg() - self.cap_height
    }

    pub open spec fn s_cm_depth_r(&self, r: int) -> int {
        s_cm_depth_at(r, self.s_lg(), self.cap_height as int)
    }

    /// Merkle path length of commit round `r`.
    pub fn cm_depth_r(&self, r: usize) -> (res: usize)
        requires
            self.wf(),
            r + 1 <= self.s_lg(),
            self.s_cm_depth_r(r as int) <= usize::MAX,
        ensures
            res == self.s_cm_depth_r(r as int),
    {
        cm_depth_at(r, self.lg(), self.cap_height)
    }

    // Leaf shapes.

    pub open spec fn s_cw(&self) -> int {
        if self.is_zk == 1 { HIDING_NUM_CW as int } else { 0int }
    }

    /// Random codewords appended to a committed row.
    pub fn cw(&self) -> (res: usize)
        ensures
            res == self.s_cw(),
    {
        if self.is_zk == 1 { HIDING_NUM_CW } else { 0 }
    }

    pub open spec fn s_input_leaf_felts(&self) -> int {
        self.s_w_inner() + if self.is_zk == 1 { HIDING_NUM_CW + HIDING_SALT } else { 0int }
    }

    /// Felts hashed into an input leaf.
    pub fn input_leaf_felts(&self) -> (res: usize)
        requires
            self.wf(),
        ensures
            res == self.s_input_leaf_felts(),
    {
        self.w_inner() + if self.is_zk == 1 { HIDING_NUM_CW + HIDING_SALT } else { 0 }
    }

    pub open spec fn s_ov_carrier_w(&self) -> int {
        if self.narrow_ov { 0int } else { self.s_input_leaf_felts() }
    }

    /// Columns that carry the opened row.
    pub fn ov_carrier_w(&self) -> (res: usize)
        requires
            self.wf(),
        ensures
            res == self.s_ov_carrier_w(),
    {
        if self.narrow_ov { 0 } else { self.input_leaf_felts() }
    }

    pub open spec fn s_leaf_blocks(&self) -> int {
        div_up(self.s_input_leaf_felts(), RATE as int)
    }

    /// Sponge blocks of an input leaf.
    pub fn leaf_blocks(&self) -> (res: usize)
        requires
            self.wf(),
        ensures
            res == self.s_leaf_blocks(),
    {
        div_ceil(self.input_leaf_felts(), RATE)
    }

    pub open spec fn s_random_leaf_felts(&self) -> int {
        HIDING_RAND_PUB + HIDING_NUM_CW + HIDING_SALT
    }

    /// Felts hashed into a leaf of the random round.
    pub fn random_leaf_felts(&self) -> (res: usize)
        ensures
            res == self.s_random_leaf_felts(),
    {
        HIDING_RAND_PUB + HIDING_NUM_CW + HIDING_SALT
    }

    pub open spec fn s_random_leaf_blocks(&self) -> int {
        div_up(self.s_random_leaf_felts(), RATE as int)
    }

    /// Sponge blocks of a random-round leaf.
    pub fn random_leaf_blocks(&self) -> (res: usize)
        ensures
            res == self.s_random_leaf_blocks(),
    {
        div_ceil(self.random_leaf_felts(), RATE)
    }

    pub open spec fn s_aux_leaf_felts(&self) -> int {
        self.s_aux_base_w()
    }

    /// Felts hashed into an aux leaf.
    pub fn aux_leaf_felts(&self) -> (res: usize)
        requires
            self.wf(),
        ensures
            res == self.s_aux_leaf_felts(),
    {
        self.aux_base_w()
    }

    pub open spec fn s_aux_leaf_blocks(&self) -> int {
        div_up(self.s_aux_leaf_felts(), RATE as int)
    }

    /// Sponge blocks of an aux leaf.
    pub fn aux_leaf_blocks(&self) -> (res: usize)
        requires
            self.wf(),
        ensures
            res == self.s_aux_leaf_blocks(),
    {
        div_ceil(self.aux_leaf_felts(), RATE)
    }

    pub open spec fn s_n_quot(&self) -> int {
        (self.n_terms as int) - 2 * self.s_w_inner() - self.s_aux_terms()
    }

    /// Quotient terms of the reduced opening, without hiding.
    pub fn n_quot(&self) -> (res: usize)
        requires
            self.wf(),
            self.is_zk != 1,
        ensures
            res == self.s_n_quot(),
    {
        self.n_terms - 2 * self.w_inner() - self.aux_terms()
    }

    pub open spec fn s_nqc(&self) -> int {
        if self.is_zk == 1 { ((self.n_terms as int) - (HIDING_RAND_PUB + HIDING_NUM_CW) - 2 * (self.s_w_inner() + HIDING_NUM_CW)) / (2 + HIDING_NUM_CW) } else { self.s_n_quot() / 2 }
    }

    /// Quotient chunks, solved from the number of terms.
    pub fn nqc(&self) -> (res: usize)
        requires
            self.wf(),
        ensures
            res == self.s_nqc(),
    {
        if self.is_zk == 1 { (self.n_terms - (HIDING_RAND_PUB + HIDING_NUM_CW) - 2 * (self.w_inner() + HIDING_NUM_CW)) / (2 + HIDING_NUM_CW) } else { self.n_quot() / 2 }
    }

    pub open spec fn s_quot_leaf_felts(&self) -> int {
        if self.is_zk == 1 { 10 * self.s_nqc() } else { 2 * self.s_nqc() }
    }

    /// Felts hashed into a quotient leaf: per chunk its two components, with codewords and salt when hiding.
    pub fn quot_leaf_felts(&self) -> (res: usize)
        requires
            self.wf(),
        ensures
            res == self.s_quot_leaf_felts(),
    {
        proof {
            self.lemma_bounds();
        }
        if self.is_zk == 1 { 10 * self.nqc() } else { 2 * self.nqc() }
    }

    pub open spec fn s_quot_leaf_blocks(&self) -> int {
        div_up(self.s_quot_leaf_felts(), RATE as int)
    }

    /// Sponge blocks of a quotient leaf.
    pub fn quot_leaf_blocks(&self) -> (res: usize)
        requires
            self.wf(),
        ensures
            res == self.s_quot_leaf_blocks(),
    {
        div_ceil(self.quot_leaf_felts(), RATE)
    }

    pub open spec fn s_cm_leaf_felts(&self) -> int {
        4 + if self.is_zk == 1 { HIDING_SALT as int } else { 0int }
    }

    /// Felts hashed into a commit-phase leaf.
    pub fn cm_leaf_felts(&self) -> (res: usize)
        ensures
            res == self.s_cm_leaf_felts(),
    {
        4 + if self.is_zk == 1 { HIDING_SALT } else { 0 }
    }

    pub open spec fn s_cm_leaf_blocks(&self) -> int {
        div_up(self.s_cm_leaf_felts(), RATE as int)
    }

    /// Sponge blocks of a commit-phase leaf.
    pub fn cm_leaf_blocks(&self) -> (res: usize)
        ensures
            res == self.s_cm_leaf_blocks(),
    {
        div_ceil(self.cm_leaf_felts(), RATE)
    }

    // Super-tile blocks.

    pub open spec fn s_m_random_term(&self) -> int {
        M_INPUT_LEAF + (self.s_random_leaf_blocks() - 1) + self.s_input_depth()
    }

    /// Terminal block of the random round.
    pub fn m_random_term(&self) -> (res: usize)
        requires
            self.wf(),
        ensures
            res == self.s_m_random_term(),
    {
        M_INPUT_LEAF + (self.random_leaf_blocks() - 1) + self.input_depth()
    }

    pub open spec fn s_m_aux_term(&self) -> int {
        M_INPUT_LEAF + (self.s_aux_leaf_blocks() - 1) + self.s_input_depth()
    }

    /// Terminal block of the aux round.
    pub fn m_aux_term(&self) -> (res: usize)
        requires
            self.wf(),
            self.s_is_lookup(),
        ensures
            res == self.s_m_aux_term(),
    {
        M_INPUT_LEAF + (self.aux_leaf_blocks() - 1) + self.input_depth()
    }

    pub open spec fn s_m_input_leaf(&self) -> int {
        if self.is_zk == 1 { self.s_m_random_term() + 1 } else if self.s_is_lookup() { self.s_m_aux_term() + 1 } else { M_INPUT_LEAF as int }
    }

    /// First block of the trace leaf.
    pub fn m_input_leaf(&self) -> (res: usize)
        requires
            self.wf(),
        ensures
            res == self.s_m_input_leaf(),
    {
        if self.is_zk == 1 { self.m_random_term() + 1 } else if self.is_lookup() { self.m_aux_term() + 1 } else { M_INPUT_LEAF }
    }

    pub open spec fn s_m_input_term(&self) -> int {
        self.s_m_input_leaf() + (self.s_leaf_blocks() - 1) + self.s_input_depth()
    }

    /// Terminal block of the trace path.
    pub fn m_input_term(&self) -> (res: usize)
        requires
            self.wf(),
        ensures
            res == self.s_m_input_term(),
    {
        self.m_input_leaf() + (self.leaf_blocks() - 1) + self.input_depth()
    }

    pub open spec fn s_m_quot_leaf(&self) -> int {
        self.s_m_input_term() + 1
    }

    /// First block of the quotient leaf.
    pub fn m_quot_leaf(&self) -> (res: usize)
        requires
            self.wf(),
        ensures
            res == self.s_m_quot_leaf(),
    {
        self.m_input_term() + 1
    }

    pub open spec fn s_m_quot_term(&self) -> int {
        self.s_m_quot_leaf() + (self.s_quot_leaf_blocks() - 1) + self.s_input_depth()
    }

    /// Terminal block of the quotient path.
    pub fn m_quot_term(&self) -> (res: usize)
        requires
            self.wf(),
        ensures
            res == self.s_m_quot_term(),
    {
        proof {
            self.lemma_bounds();
        }
        self.m_quot_leaf() + (self.quot_leaf_blocks() - 1) + self.input_depth()
    }

    /// Blocks of commit rounds 0..r.
    pub open spec fn s_rounds_before(&self, r: int) -> int
        decreases r,
    {
        if r <= 0 {
            0
        } else {
            self.s_rounds_before(r - 1) + (self.s_cm_leaf_blocks() - 1) + self.s_cm_depth_r(r - 1) + 1
        }
    }

    pub open spec fn s_cm_leaf(&self, r: int) -> int {
        self.s_m_quot_term() + 1 + self.s_rounds_before(r)
    }

    /// The blocks of the rounds so far only grow.
    pub proof fn lemma_rounds_monotone(&self, a: int, b: int)
        requires
            0 <= a <= b,
        ensures
            0 <= self.s_rounds_before(a) <= self.s_rounds_before(b),
        decreases b,
    {
        if a < b {
            self.lemma_rounds_monotone(a, b - 1);
        } else if a > 0 {
            self.lemma_rounds_monotone(a - 1, a - 1);
        }
    }

    pub proof fn lemma_cm_leaf_bound(&self, r: nat)
        requires
            self.wf(),
            r < self.s_cm_rounds(),
        ensures
            0 <= self.s_rounds_before(r as int),
            self.s_cm_leaf(r as int) + (self.s_cm_leaf_blocks() - 1) + self.s_cm_depth_r(r as int)
                < self.s_m_nblocks(),
            self.s_m_nblocks() <= usize::MAX,
    {
        let last = self.s_cm_rounds() - 1;
        self.lemma_rounds_monotone(r as int, r as int);
        self.lemma_rounds_monotone((r + 1) as int, last + 1);
    }

    /// First block of the leaf of commit round `r`.
    pub fn cm_leaf(&self, r: usize) -> (res: usize)
        requires
            self.wf(),
            r < self.s_cm_rounds(),
        ensures
            res == self.s_cm_leaf(r as int),
    {
        let mut blk: usize = self.m_quot_term() + 1;
        let mut r2: usize = 0;
        proof {
            self.lemma_cm_leaf_bound(0);
        }
        while r2 < r
            invariant
                self.wf(),
                r2 <= r < self.s_cm_rounds(),
                blk == self.s_cm_leaf(r2 as int),
            decreases r - r2,
        {
            proof {
                self.lemma_cm_leaf_bound(r2 as nat);
                self.lemma_cm_leaf_bound((r2 + 1) as nat);
            }
            blk = blk + (self.cm_leaf_blocks() - 1) + self.cm_depth_r(r2) + 1;
            r2 += 1;
        }
        blk
    }

    pub open spec fn s_cm_term(&self, r: int) -> int {
        self.s_cm_leaf(r) + (self.s_cm_leaf_blocks() - 1) + self.s_cm_depth_r(r)
    }

    /// Terminal block of commit round `r`.
    pub fn cm_term(&self, r: usize) -> (res: usize)
        requires
            self.wf(),
            r < self.s_cm_rounds(),
            self.s_cm_term(r as int) <= usize::MAX,
        ensures
            res == self.s_cm_term(r as int),
    {
        proof {
            self.lemma_cm_leaf_bound(r as nat);
        }
        self.cm_leaf(r) + (self.cm_leaf_blocks() - 1) + self.cm_depth_r(r)
    }

    pub open spec fn s_m_nblocks(&self) -> int {
        self.s_cm_term(self.s_cm_rounds() - 1) + 1
    }

    /// Blocks of a super-tile.
    pub fn m_nblocks(&self) -> (res: usize)
        requires
            self.wf(),
        ensures
            res == self.s_m_nblocks(),
    {
        self.cm_term(self.cm_rounds() - 1) + 1
    }

    pub open spec fn s_m_period(&self) -> int {
        self.s_m_nblocks() * BLOCK
    }

    /// Rows of a super-tile.
    pub fn m_period(&self) -> (res: usize)
        requires
            self.wf(),
        ensures
            res == self.s_m_period(),
    {
        self.m_nblocks() * BLOCK
    }

    // Reduced-opening terms.

    pub open spec fn s_trm_committed_w(&self) -> int {
        self.s_w_inner() + self.s_cw()
    }

    /// Committed trace-row width.
    pub fn trm_committed_w(&self) -> (res: usize)
        requires
            self.wf(),
        ensures
            res == self.s_trm_committed_w(),
    {
        self.w_inner() + self.cw()
    }

    pub open spec fn s_trm_trace_base(&self) -> int {
        if self.is_zk == 1 { HIDING_RAND_PUB + HIDING_NUM_CW } else { 0int }
    }

    /// First term of the trace at the point.
    pub fn trm_trace_base(&self) -> (res: usize)
        ensures
            res == self.s_trm_trace_base(),
    {
        if self.is_zk == 1 { HIDING_RAND_PUB + HIDING_NUM_CW } else { 0 }
    }

    pub open spec fn s_trm_next_base(&self) -> int {
        self.s_trm_trace_base() + self.s_trm_committed_w()
    }

    /// First term of the trace at the next point.
    pub fn trm_next_base(&self) -> (res: usize)
        requires
            self.wf(),
        ensures
            res == self.s_trm_next_base(),
    {
        self.trm_trace_base() + self.trm_committed_w()
    }

    pub open spec fn s_trm_quot_base(&self) -> int {
        self.s_trm_next_base() + self.s_trm_committed_w() + self.s_aux_terms()
    }

    /// First quotient term.
    pub fn trm_quot_base(&self) -> (res: usize)
        requires
            self.wf(),
        ensures
            res == self.s_trm_quot_base(),
    {
        self.trm_next_base() + self.trm_committed_w() + self.aux_terms()
    }

    pub open spec fn s_trm_chunk_w(&self) -> int {
        2 + self.s_cw()
    }

    /// Committed width of a quotient chunk.
    pub fn trm_chunk_w(&self) -> (res: usize)
        ensures
            res == self.s_trm_chunk_w(),
    {
        2 + self.cw()
    }

    pub open spec fn s_trm_trace(&self, c: int) -> int {
        self.s_trm_trace_base() + c
    }

    /// Term of trace column `c` at the point.
    pub fn trm_trace(&self, c: usize) -> (res: usize)
        requires
            self.wf(),
            self.s_trm_trace(c as int) <= usize::MAX,
        ensures
            res == self.s_trm_trace(c as int),
    {
        self.trm_trace_base() + c
    }

    pub open spec fn s_trm_next(&self, c: int) -> int {
        self.s_trm_next_base() + c
    }

    /// Term of trace column `c` at the next point.
    pub fn trm_next(&self, c: usize) -> (res: usize)
        requires
            self.wf(),
            self.s_trm_next(c as int) <= usize::MAX,
        ensures
            res == self.s_trm_next(c as int),
    {
        self.trm_next_base() + c
    }

    pub open spec fn s_trm_aux(&self, c: int) -> int {
        self.s_trm_next_base() + self.s_trm_committed_w() + c
    }

    /// Term of aux column `c` at the point.
    pub fn trm_aux(&self, c: usize) -> (res: usize)
        requires
            self.wf(),
            self.s_trm_aux(c as int) <= usize::MAX,
        ensures
            res == self.s_trm_aux(c as int),
    {
        self.trm_next_base() + self.trm_committed_w() + c
    }

    pub open spec fn s_trm_aux_next(&self, c: int) -> int {
        self.s_trm_aux(0) + self.s_aux_base_w() + c
    }

    /// Term of aux column `c` at the next point.
    pub fn trm_aux_next(&self, c: usize) -> (res: usize)
        requires
            self.wf(),
            self.s_trm_aux_next(c as int) <= usize::MAX,
        ensures
            res == self.s_trm_aux_next(c as int),
    {
        self.trm_aux(0) + self.aux_base_w() + c
    }

    pub open spec fn s_trm_quot(&self, i: int, j: int) -> int {
        self.s_trm_quot_base() + self.s_chunk_offset(i) + j
    }

    /// Term of component `j` of quotient chunk `i`.
    pub fn trm_quot(&self, i: usize, j: usize) -> (res: usize)
        requires
            self.wf(),
            self.s_trm_quot(i as int, j as int) <= usize::MAX,
        ensures
            res == self.s_trm_quot(i as int, j as int),
    {
        let c: usize = self.trm_chunk_w();
        proof {
         assert(i * c == self.s_chunk_offset(i as int)) by (nonlinear_arith) requires c == 2 || c == 6, self.s_chunk_offset(i as int) == if c == 6 { 6 * i } else { 2 * i };
        }
        self.trm_quot_base() + i * c + j
    }

    pub open spec fn s_random_committed_w(&self) -> int {
        HIDING_RAND_PUB + self.s_cw()
    }

    /// Committed random-row width.
    pub fn random_committed_w(&self) -> (res: usize)
        ensures
            res == self.s_random_committed_w(),
    {
        HIDING_RAND_PUB + self.cw()
    }

    pub open spec fn s_quot_chunk_stride(&self) -> int {
        self.s_trm_chunk_w() + if self.is_zk == 1 { HIDING_SALT as int } else { 0int }
    }

    /// Felts per chunk in a quotient leaf.
    pub fn quot_chunk_stride(&self) -> (res: usize)
        ensures
            res == self.s_quot_chunk_stride(),
    {
        self.trm_chunk_w() + if self.is_zk == 1 { HIDING_SALT } else { 0 }
    }

    // Arithmetic tile columns.

    pub open spec fn s_qt_acc(&self) -> int {
        QT_DBITS + self.s_lg()
    }

    /// First column of the point accumulator chain.
    pub fn qt_acc(&self) -> (res: usize)
        requires
            self.wf(),
        ensures
            res == self.s_qt_acc(),
    {
        QT_DBITS + self.lg()
    }

    pub open spec fn s_qt_alpha(&self) -> int {
        self.s_qt_acc() + self.s_lg()
    }

    /// The batching challenge of the tile.
    pub fn qt_alpha(&self) -> (res: usize)
        requires
            self.wf(),
        ensures
            res == self.s_qt_alpha(),
    {
        self.qt_acc() + self.lg()
    }

    pub open spec fn s_qt_terms(&self) -> int {
        self.s_qt_alpha() + 2
    }

    /// First column of the reduced-opening terms.
    pub fn qt_terms(&self) -> (res: usize)
        requires
            self.wf(),
        ensures
            res == self.s_qt_terms(),
    {
        self.qt_alpha() + 2
    }

    pub open spec fn s_arith_stride(&self) -> int {
        if self.narrow_openings { 0int } else if self.narrow_arith { 2int } else { 9 }
    }

    /// Columns per reduced-opening term.
    pub fn arith_stride(&self) -> (res: usize)
        ensures
            res == self.s_arith_stride(),
    {
        if self.narrow_openings { 0 } else if self.narrow_arith { 2 } else { 9 }
    }

    pub open spec fn s_z(&self, k: int) -> int {
        self.s_qt_terms() + 9 * k
    }

    /// Opening point of term `k`.
    pub fn z(&self, k: usize) -> (res: usize)
        requires
            self.wf(),
            self.s_z(k as int) <= usize::MAX,
        ensures
            res == self.s_z(k as int),
    {
        self.qt_terms() + 9 * k
    }

    pub open spec fn s_pz(&self, k: int) -> int {
        self.s_qt_terms() + self.s_stride_offset(k) + if self.narrow_arith || self.narrow_openings { 0int } else { 2 }
    }

    /// Opening value of term `k`.
    pub fn pz(&self, k: usize) -> (res: usize)
        requires
            self.wf(),
            self.s_pz(k as int) <= usize::MAX,
        ensures
            res == self.s_pz(k as int),
    {
        let s: usize = self.arith_stride();
        proof {
         assert(s * k == self.s_stride_offset(k as int)) by (nonlinear_arith) requires s == self.s_arith_stride(), self.s_stride_offset(k as int) == (if s == 0 { 0 } else if s == 2 { 2 * k } else { 9 * k }), s == 0 || s == 2 || s == 9;
        }
        self.qt_terms() + s * k + if self.narrow_arith || self.narrow_openings { 0 } else { 2 }
    }

    pub open spec fn s_px(&self, k: int) -> int {
        self.s_pz(k) + 2
    }

    /// Queried value of term `k`.
    pub fn px(&self, k: usize) -> (res: usize)
        requires
            self.wf(),
            self.s_px(k as int) <= usize::MAX,
        ensures
            res == self.s_px(k as int),
    {
        self.pz(k) + 2
    }

    pub open spec fn s_inv(&self, k: int) -> int {
        self.s_z(k) + 5
    }

    /// Witnessed inverse of term `k`.
    pub fn inv(&self, k: usize) -> (res: usize)
        requires
            self.wf(),
            self.s_inv(k as int) <= usize::MAX,
        ensures
            res == self.s_inv(k as int),
    {
        self.z(k) + 5
    }

    pub open spec fn s_apow(&self, k: int) -> int {
        self.s_z(k) + 7
    }

    /// Batching power of term `k`.
    pub fn apow(&self, k: usize) -> (res: usize)
        requires
            self.wf(),
            self.s_apow(k as int) <= usize::MAX,
        ensures
            res == self.s_apow(k as int),
    {
        self.z(k) + 7
    }

    pub open spec fn s_tile_w(&self) -> int {
        self.s_qt_terms() + self.s_stride_offset(self.n_terms as int)
    }

    /// Width of the arithmetic tile.
    pub fn tile_w(&self) -> (res: usize)
        requires
            self.wf(),
        ensures
            res == self.s_tile_w(),
    {
        proof {
            self.lemma_bounds();
        }
        let s: usize = self.arith_stride();
        let n: usize = self.n_terms;
        proof {
         assert(s * n == self.s_stride_offset(n as int)) by (nonlinear_arith) requires s == self.s_arith_stride(), self.s_stride_offset(n as int) == (if s == 0 { 0 } else if s == 2 { 2 * n } else { 9 * n }), s == 0 || s == 2 || s == 9;
        }
        self.qt_terms() + s * n
    }

    pub open spec fn s_sb_x(&self) -> int {
        self.s_tile_w()
    }

    /// The query index felt.
    pub fn sb_x(&self) -> (res: usize)
        requires
            self.wf(),
        ensures
            res == self.s_sb_x(),
    {
        self.tile_w()
    }

    pub open spec fn s_sb_b(&self, i: int) -> int {
        self.s_sb_x() + 1 + i
    }

    /// Bit `i` of the query index felt.
    pub fn sb_b(&self, i: usize) -> (res: usize)
        requires
            self.wf(),
            self.s_sb_b(i as int) <= usize::MAX,
        ensures
            res == self.s_sb_b(i as int),
    {
        self.sb_x() + 1 + i
    }

    pub open spec fn s_sb_q(&self, k: int) -> int {
        self.s_sb_x() + 65 + k
    }

    /// Running conjunction `k` of the high bits.
    pub fn sb_q(&self, k: usize) -> (res: usize)
        requires
            self.wf(),
            self.s_sb_q(k as int) <= usize::MAX,
        ensures
            res == self.s_sb_q(k as int),
    {
        self.sb_x() + 65 + k
    }

    pub open spec fn s_idx_rem(&self) -> int {
        self.s_sb_x() + 96
    }

    /// Index shift register.
    pub fn idx_rem(&self) -> (res: usize)
        requires
            self.wf(),
        ensures
            res == self.s_idx_rem(),
    {
        proof {
            self.lemma_bounds();
        }
        self.sb_x() + 96
    }

    pub open spec fn s_carry(&self) -> int {
        self.s_idx_rem() + 1
    }

    /// Carrier of the opening-batching challenge.
    pub fn carry(&self) -> (res: usize)
        requires
            self.wf(),
        ensures
            res == self.s_carry(),
    {
        proof {
            self.lemma_bounds();
        }
        self.idx_rem() + 1
    }

    pub open spec fn s_ov(&self) -> int {
        self.s_carry() + 2
    }

    /// First column of the opened-row carrier.
    pub fn ov(&self) -> (res: usize)
        requires
            self.wf(),
        ensures
            res == self.s_ov(),
    {
        proof {
            self.lemma_bounds();
        }
        self.carry() + 2
    }

    // Carriers.

    pub open spec fn s_random_carriers(&self) -> int {
        if self.is_zk == 1 { self.s_random_leaf_felts() } else { 0int }
    }

    /// Columns that carry the random-round leaf.
    pub fn random_carriers(&self) -> (res: usize)
        ensures
            res == self.s_random_carriers(),
    {
        if self.is_zk == 1 { self.random_leaf_felts() } else { 0 }
    }

    pub open spec fn s_aux_carriers(&self) -> int {
        if self.s_is_lookup() { self.s_aux_base_w() } else { 0int }
    }

    /// Columns that carry the aux leaf.
    pub fn aux_carriers(&self) -> (res: usize)
        requires
            self.wf(),
        ensures
            res == self.s_aux_carriers(),
    {
        if self.is_lookup() { self.aux_base_w() } else { 0 }
    }

    pub open spec fn s_ov_c(&self, c: int) -> int {
        self.s_ov() + c
    }

    /// Opened-row carrier, felt `c`.
    pub fn ov_c(&self, c: usize) -> (res: usize)
        requires
            self.wf(),
            self.s_ov_c(c as int) <= usize::MAX,
        ensures
            res == self.s_ov_c(c as int),
    {
        self.ov() + c
    }

    pub open spec fn s_ov_random(&self, c: int) -> int {
        self.s_ov() + self.s_ov_carrier_w() + c
    }

    /// Random-leaf carrier, felt `c`.
    pub fn ov_random(&self, c: usize) -> (res: usize)
        requires
            self.wf(),
            self.s_ov_random(c as int) <= usize::MAX,
        ensures
            res == self.s_ov_random(c as int),
    {
        self.ov() + self.ov_carrier_w() + c
    }

    pub open spec fn s_ov_aux(&self, c: int) -> int {
        self.s_ov() + self.s_ov_carrier_w() + self.s_random_carriers() + c
    }

    /// Aux-leaf carrier, felt `c`.
    pub fn ov_aux(&self, c: usize) -> (res: usize)
        requires
            self.wf(),
            self.s_ov_aux(c as int) <= usize::MAX,
        ensures
            res == self.s_ov_aux(c as int),
    {
        self.ov() + self.ov_carrier_w() + self.random_carriers() + c
    }

    pub open spec fn s_qc(&self, i: int) -> int {
        self.s_ov() + self.s_ov_carrier_w() + self.s_random_carriers() + self.s_aux_carriers() + i
    }

    /// Quotient-leaf carrier, felt `i`.
    pub fn qc(&self, i: usize) -> (res: usize)
        requires
            self.wf(),
            self.s_qc(i as int) <= usize::MAX,
        ensures
            res == self.s_qc(i as int),
    {
        self.ov() + self.ov_carrier_w() + self.random_carriers() + self.aux_carriers() + i
    }

    pub open spec fn s_carriers_base(&self) -> int {
        self.s_ov() + self.s_ov_carrier_w() + self.s_random_carriers() + self.s_aux_carriers() + self.s_quot_leaf_felts()
    }

    /// First column of the fold-group carriers.
    pub fn carriers_base(&self) -> (res: usize)
        requires
            self.wf(),
        ensures
            res == self.s_carriers_base(),
    {
        proof {
            self.lemma_bounds();
        }
        self.ov() + self.ov_carrier_w() + self.random_carriers() + self.aux_carriers() + self.quot_leaf_felts()
    }

    pub open spec fn s_cg(&self, r: int, k: int) -> int {
        self.s_carriers_base() + 4 * r + k
    }

    /// Fold-group carrier of round `r`, felt `k`.
    pub fn cg(&self, r: usize, k: usize) -> (res: usize)
        requires
            self.wf(),
            self.s_cg(r as int, k as int) <= usize::MAX,
        ensures
            res == self.s_cg(r as int, k as int),
    {
        self.carriers_base() + 4 * r + k
    }

    pub open spec fn s_cap_c(&self, g: int) -> int {
        self.s_carriers_base() + 4 * self.s_cm_rounds() + g
    }

    /// Cap-entry carrier, felt `g`: trace, quotient, the commit rounds, then the extra round.
    pub fn cap_c(&self, g: usize) -> (res: usize)
        requires
            self.wf(),
            self.s_cap_c(g as int) <= usize::MAX,
        ensures
            res == self.s_cap_c(g as int),
    {
        self.carriers_base() + 4 * self.cm_rounds() + g
    }

    pub open spec fn s_n_cap_c(&self) -> int {
        (2 + self.is_zk + (if self.s_is_lookup() { 1int } else { 0 }) + self.s_cm_rounds()) * 4
    }

    /// Cap-entry carriers.
    pub fn n_cap_c(&self) -> (res: usize)
        requires
            self.wf(),
        ensures
            res == self.s_n_cap_c(),
    {
        (2 + self.is_zk + (if self.is_lookup() { 1 } else { 0 }) + self.cm_rounds()) * 4
    }

    pub open spec fn s_pw_base(&self) -> int {
        self.s_carriers_base() + 4 * self.s_cm_rounds() + if self.s_full_cap() { self.s_n_cap_c() } else { 0int }
    }

    /// First column of the public-value window.
    pub fn pw_base(&self) -> (res: usize)
        requires
            self.wf(),
        ensures
            res == self.s_pw_base(),
    {
        proof {
            self.lemma_bounds();
        }
        self.carriers_base() + 4 * self.cm_rounds() + if self.full_cap() { self.n_cap_c() } else { 0 }
    }

    pub open spec fn s_pw(&self, i: int) -> int {
        self.s_pw_base() + i
    }

    /// Column of public value `i` in the window.
    pub fn pw(&self, i: usize) -> (res: usize)
        requires
            self.wf(),
            self.s_pw(i as int) <= usize::MAX,
        ensures
            res == self.s_pw(i as int),
    {
        self.pw_base() + i
    }

    pub open spec fn s_sch(&self, j: int) -> int {
        self.s_pw_base() + self.s_pis_count() + j
    }

    /// Column `j` of the squaring chain of the point.
    pub fn sch(&self, j: usize) -> (res: usize)
        requires
            self.wf(),
            self.s_sch(j as int) <= usize::MAX,
        ensures
            res == self.s_sch(j as int),
    {
        self.pw_base() + self.pis_count() + j
    }

    pub open spec fn s_sel_base(&self) -> int {
        self.s_pw_base() + if self.column_window { self.s_pis_count() + 2 * self.s_cm_rounds() } else { 0int }
    }

    /// First column of the witnessed row selectors.
    pub fn sel_base(&self) -> (res: usize)
        requires
            self.wf(),
        ensures
            res == self.s_sel_base(),
    {
        self.pw_base() + if self.column_window { self.pis_count() + 2 * self.cm_rounds() } else { 0 }
    }

    pub open spec fn s_sel(&self, i: int) -> int {
        self.s_sel_base() + i
    }

    /// Column `i` of the witnessed row selectors.
    pub fn sel(&self, i: usize) -> (res: usize)
        requires
            self.wf(),
            self.s_sel(i as int) <= usize::MAX,
        ensures
            res == self.s_sel(i as int),
    {
        self.sel_base() + i
    }

    pub open spec fn s_n_fold_acc(&self) -> int {
        if self.s_symbolic() && self.column_window { self.s_fold_chunks() } else { 0int }
    }

    /// Witnessed partial constraint folds.
    pub fn n_fold_acc(&self) -> (res: usize)
        requires
            self.wf(),
        ensures
            res == self.s_n_fold_acc(),
    {
        if self.symbolic() && self.column_window { self.fold_chunks() } else { 0 }
    }

    pub open spec fn s_fold_acc(&self, i: int) -> int {
        self.s_sel_base() + 6 + 2 * i
    }

    /// Witnessed partial constraint fold `i`.
    pub fn fold_acc(&self, i: usize) -> (res: usize)
        requires
            self.wf(),
            self.s_fold_acc(i as int) <= usize::MAX,
        ensures
            res == self.s_fold_acc(i as int),
    {
        self.sel_base() + 6 + 2 * i
    }

    pub open spec fn s_fused_w(&self) -> int {
        self.s_sel_base() + if self.s_symbolic() { 6 + 2 * self.s_n_fold_acc() } else { 0int }
    }

    /// Width of one instance.
    pub fn fused_w(&self) -> (res: usize)
        requires
            self.wf(),
        ensures
            res == self.s_fused_w(),
    {
        self.sel_base() + if self.symbolic() { 6 + 2 * self.n_fold_acc() } else { 0 }
    }

    pub open spec fn s_fold_w(&self) -> int {
        self.s_fused_w() + if self.fold { W + 4 } else { 0int }
    }

    /// Width of the trace.
    pub fn fold_w(&self) -> (res: usize)
        requires
            self.wf(),
        ensures
            res == self.s_fold_w(),
    {
        self.fused_w() + if self.fold { W + 4 } else { 0 }
    }

    pub open spec fn s_af_p(&self, i: int) -> int {
        self.s_fused_w() + i
    }

    /// Lane `i` of the folding permutation.
    pub fn af_p(&self, i: usize) -> (res: usize)
        requires
            self.wf(),
            self.s_af_p(i as int) <= usize::MAX,
        ensures
            res == self.s_af_p(i as int),
    {
        self.fused_w() + i
    }

    pub open spec fn s_af_root(&self, k: int) -> int {
        self.s_fused_w() + W + k
    }

    /// Lane `k` of the running root.
    pub fn af_root(&self, k: usize) -> (res: usize)
        requires
            self.wf(),
            self.s_af_root(k as int) <= usize::MAX,
        ensures
            res == self.s_af_root(k as int),
    {
        self.fused_w() + W + k
    }

    pub open spec fn s_m_sib(&self) -> int {
        8
    }

    /// First sibling column on a Merkle row.
    pub fn m_sib(&self) -> (res: usize)
        ensures
            res == self.s_m_sib(),
    {
        8
    }

    pub open spec fn s_m_bit(&self) -> int {
        12
    }

    /// Path-bit column on a Merkle row.
    pub fn m_bit(&self) -> (res: usize)
        ensures
            res == self.s_m_bit(),
    {
        12
    }

    // Public values of the inner proof.

    pub open spec fn s_cap_stride(&self) -> int {
        if self.s_full_cap() { (pow2(self.cap_height as nat) * 4) as int } else { 4int }
    }

    /// Felts of the trace and quotient caps.
    pub fn cap_stride(&self) -> (res: usize)
        requires
            self.wf(),
        ensures
            res == self.s_cap_stride(),
    {
        if self.full_cap() { shifted_one(self.cap_height) * 4 } else { 4 }
    }

    pub open spec fn s_pis_cap_stride(&self) -> int {
        if self.narrow_caps { 0int } else { self.s_cap_stride() }
    }

    /// Felts of a cap in the public values.
    pub fn pis_cap_stride(&self) -> (res: usize)
        requires
            self.wf(),
        ensures
            res == self.s_pis_cap_stride(),
    {
        if self.narrow_caps { 0 } else { self.cap_stride() }
    }

    pub open spec fn s_commit_bits(&self, r: int) -> int {
        s_min(self.cap_height as int, self.s_lg() - (r + 1))
    }

    /// Index bits that select from the cap of commit round `r`.
    pub fn commit_bits(&self, r: usize) -> (res: usize)
        requires
            self.wf(),
            r + 1 <= self.s_lg(),
            self.s_commit_bits(r as int) <= usize::MAX,
        ensures
            res == self.s_commit_bits(r as int),
    {
        min_usize(self.cap_height, self.lg() - (r + 1))
    }

    pub open spec fn s_commit_cap_size(&self, r: int) -> int {
        pow2(self.s_commit_bits(r) as nat) as int
    }

    /// Entries of the cap of commit round `r`.
    pub fn commit_cap_size(&self, r: usize) -> (res: usize)
        requires
            self.wf(),
            r + 1 <= self.s_lg(),
            self.s_commit_cap_size(r as int) <= usize::MAX,
        ensures
            res == self.s_commit_cap_size(r as int),
    {
        shifted_one(self.commit_bits(r))
    }

    pub open spec fn s_commit_shift(&self, r: int) -> int {
        (r + 1) + s_min_sub(self.s_lg() - (r + 1), self.cap_height as int)
    }

    /// Index shift that selects from the cap of commit round `r`.
    pub fn commit_shift(&self, r: usize) -> (res: usize)
        requires
            self.wf(),
            r + 1 <= self.s_lg(),
            self.s_commit_shift(r as int) <= usize::MAX,
        ensures
            res == self.s_commit_shift(r as int),
    {
        (r + 1) + min_sub(self.lg() - (r + 1), self.cap_height)
    }

    /// Felts of the caps of commit rounds 0..r.
    pub open spec fn s_caps_before(&self, r: int) -> int
        decreases r,
    {
        if r <= 0 {
            0
        } else {
            self.s_caps_before(r - 1) + self.s_commit_cap_size(r - 1) * 4
        }
    }

    /// The felts of the caps so far only grow.
    pub proof fn lemma_caps_monotone(&self, a: int, b: int)
        requires
            0 <= a <= b,
        ensures
            0 <= self.s_caps_before(a) <= self.s_caps_before(b),
        decreases b,
    {
        if a < b {
            self.lemma_caps_monotone(a, b - 1);
        } else if a > 0 {
            self.lemma_caps_monotone(a - 1, a - 1);
        }
    }

    /// Felts of the caps of commit rounds 0..r.
    pub fn caps_before(&self, r: usize) -> (res: usize)
        requires
            self.wf(),
            self.s_full_cap(),
            r <= self.s_cm_rounds(),
        ensures
            res == self.s_caps_before(r as int),
    {
        let mut sum: usize = 0;
        let mut r2: usize = 0;
        while r2 < r
            invariant
                self.wf(),
                self.s_full_cap(),
                r2 <= r <= self.s_cm_rounds(),
                sum == self.s_caps_before(r2 as int),
            decreases r - r2,
        {
            proof {
                self.lemma_caps_monotone(r2 as int, r2 as int);
                self.lemma_caps_monotone(r2 + 1, self.s_cm_rounds());
            }
            sum = sum + self.commit_cap_size(r2) * 4;
            r2 += 1;
        }
        sum
    }

    pub open spec fn s_commit_caps_len(&self) -> int {
        if self.s_full_cap() { self.s_caps_before(self.s_cm_rounds()) } else { self.s_cm_rounds() * 4 }
    }

    /// Felts of all commit-phase caps.
    pub fn commit_caps_len(&self) -> (res: usize)
        requires
            self.wf(),
        ensures
            res == self.s_commit_caps_len(),
    {
        if self.full_cap() { self.caps_before(self.cm_rounds()) } else { self.cm_rounds() * 4 }
    }

    pub open spec fn s_pis_commit_caps_len(&self) -> int {
        if self.narrow_caps { 0int } else { self.s_commit_caps_len() }
    }

    /// Felts of all commit-phase caps in the public values.
    pub fn pis_commit_caps_len(&self) -> (res: usize)
        requires
            self.wf(),
        ensures
            res == self.s_pis_commit_caps_len(),
    {
        if self.narrow_caps { 0 } else { self.commit_caps_len() }
    }

    pub open spec fn s_cap_base(&self) -> int {
        2 * self.s_nb() + self.s_ni() + 2
    }

    /// Trace cap, after the challenges, indices and final polynomial.
    pub fn cap_base(&self) -> (res: usize)
        requires
            self.wf(),
        ensures
            res == self.s_cap_base(),
    {
        proof {
            self.lemma_bounds();
        }
        2 * self.nb() + self.ni() + 2
    }

    pub open spec fn s_qcap_base(&self) -> int {
        self.s_cap_base() + self.s_pis_cap_stride()
    }

    /// Quotient cap.
    pub fn qcap_base(&self) -> (res: usize)
        requires
            self.wf(),
        ensures
            res == self.s_qcap_base(),
    {
        proof {
            self.lemma_bounds();
        }
        self.cap_base() + self.pis_cap_stride()
    }

    pub open spec fn s_pub_pi(&self) -> int {
        self.s_qcap_base() + self.s_pis_cap_stride()
    }

    /// Inner public values.
    pub fn pub_pi(&self) -> (res: usize)
        requires
            self.wf(),
        ensures
            res == self.s_pub_pi(),
    {
        proof {
            self.lemma_bounds();
        }
        self.qcap_base() + self.pis_cap_stride()
    }

    pub open spec fn s_ccap_base(&self) -> int {
        self.s_pub_pi() + self.s_n_pub()
    }

    /// Commit-phase caps.
    pub fn ccap_base(&self) -> (res: usize)
        requires
            self.wf(),
        ensures
            res == self.s_ccap_base(),
    {
        proof {
            self.lemma_bounds();
        }
        self.pub_pi() + self.n_pub()
    }

    pub open spec fn s_commit_cap_base(&self, r: int) -> int {
        self.s_ccap_base() + self.s_caps_before(r)
    }

    /// Cap of commit round `r`.
    pub fn commit_cap_base(&self, r: usize) -> (res: usize)
        requires
            self.wf(),
            r <= self.s_cm_rounds(),
            self.s_full_cap(),
            self.s_commit_cap_base(r as int) <= usize::MAX,
        ensures
            res == self.s_commit_cap_base(r as int),
    {
        self.ccap_base() + self.caps_before(r)
    }

    pub open spec fn s_periodic_base(&self) -> int {
        self.s_ccap_base() + self.s_pis_commit_caps_len()
    }

    /// Inner periodic values.
    pub fn periodic_base(&self) -> (res: usize)
        requires
            self.wf(),
        ensures
            res == self.s_periodic_base(),
    {
        self.ccap_base() + self.pis_commit_caps_len()
    }

    pub open spec fn s_qwt_base(&self) -> int {
        self.s_periodic_base() + self.s_n_periodic() * 2
    }

    /// Quotient recomposition weights.
    pub fn qwt_base(&self) -> (res: usize)
        requires
            self.wf(),
        ensures
            res == self.s_qwt_base(),
    {
        self.periodic_base() + self.n_periodic() * 2
    }

    pub open spec fn s_qwt_len(&self) -> int {
        if (self.s_symbolic() || self.is_zk == 1) && self.s_nqc() > 1 { 2 * self.s_nqc() } else { 0int }
    }

    /// Felts of the quotient recomposition weights.
    pub fn qwt_len(&self) -> (res: usize)
        requires
            self.wf(),
        ensures
            res == self.s_qwt_len(),
    {
        if (self.symbolic() || self.is_zk == 1) && self.nqc() > 1 { 2 * self.nqc() } else { 0 }
    }

    pub open spec fn s_random_cap_base(&self) -> int {
        self.s_qwt_base() + self.s_qwt_len()
    }

    /// Cap of the random round.
    pub fn random_cap_base(&self) -> (res: usize)
        requires
            self.wf(),
        ensures
            res == self.s_random_cap_base(),
    {
        self.qwt_base() + self.qwt_len()
    }

    pub open spec fn s_aux_cap_base(&self) -> int {
        self.s_random_cap_base() + if self.is_zk == 1 { self.s_pis_cap_stride() } else { 0int }
    }

    /// Cap of the aux round.
    pub fn aux_cap_base(&self) -> (res: usize)
        requires
            self.wf(),
        ensures
            res == self.s_aux_cap_base(),
    {
        self.random_cap_base() + if self.is_zk == 1 { self.pis_cap_stride() } else { 0 }
    }

    pub open spec fn s_aux_cap_end(&self) -> int {
        self.s_aux_cap_base() + if self.s_is_lookup() { self.s_pis_cap_stride() } else { 0int }
    }

    /// End of the caps.
    pub fn aux_cap_end(&self) -> (res: usize)
        requires
            self.wf(),
        ensures
            res == self.s_aux_cap_end(),
    {
        self.aux_cap_base() + if self.is_lookup() { self.pis_cap_stride() } else { 0 }
    }

    pub open spec fn s_term_pi(&self) -> int {
        self.s_aux_cap_end()
    }

    /// The lookup terminal.
    pub fn term_pi(&self) -> (res: usize)
        requires
            self.wf(),
        ensures
            res == self.s_term_pi(),
    {
        self.aux_cap_end()
    }

    pub open spec fn s_pis_count(&self) -> int {
        self.s_aux_cap_end() + if self.s_is_lookup() { 2int } else { 0int }
    }

    /// Number of public values of the inner proof.
    pub fn pis_count(&self) -> (res: usize)
        requires
            self.wf(),
        ensures
            res == self.s_pis_count(),
    {
        self.aux_cap_end() + if self.is_lookup() { 2 } else { 0 }
    }

    // Transaction-root fold.

    pub open spec fn s_n_sk_blocks(&self) -> int {
        if self.fold_txstmt { FOLD_SK_BLOCKS as int } else { 1int }
    }

    /// Blocks of the statement chain.
    pub fn n_sk_blocks(&self) -> (res: usize)
        ensures
            res == self.s_n_sk_blocks(),
    {
        if self.fold_txstmt { FOLD_SK_BLOCKS } else { 1 }
    }

    pub open spec fn s_n_fold_blocks(&self) -> int {
        if self.fold { self.s_n_sk_blocks() + 1 } else { 0int }
    }

    /// Blocks of the fold.
    pub fn n_fold_blocks(&self) -> (res: usize)
        ensures
            res == self.s_n_fold_blocks(),
    {
        if self.fold { self.n_sk_blocks() + 1 } else { 0 }
    }

    pub open spec fn s_tr(&self) -> int {
        (next_pow2(self.counts@.len()) * BLOCK) as int
    }

    /// Rows of the transcript region.
    pub fn tr(&self) -> (res: usize)
        requires
            self.wf(),
        ensures
            res == self.s_tr(),
    {
        next_power_of_two(self.counts.len()) * BLOCK
    }

    pub open spec fn s_inst_h(&self) -> int {
        next_pow2((self.s_tr() + self.n_queries * self.s_m_period()) as nat) as int
    }

    /// Rows of one instance.
    pub fn inst_h(&self) -> (res: usize)
        requires
            self.wf(),
        ensures
            res == self.s_inst_h(),
    {
        proof {
            self.lemma_bounds();
        }
        next_power_of_two(self.tr() + self.n_queries * self.m_period())
    }

    pub open spec fn s_height(&self) -> int {
        self.k_instances * self.s_inst_h()
    }

    /// Rows of the trace.
    pub fn height(&self) -> (res: usize)
        requires
            self.wf(),
        ensures
            res == self.s_height(),
    {
        self.k_instances * self.inst_h()
    }

    pub open spec fn s_fold_sk_block(&self) -> int {
        self.s_inst_h() / (BLOCK as int) - self.s_n_fold_blocks()
    }

    /// First block of the fold.
    pub fn fold_sk_block(&self) -> (res: usize)
        requires
            self.wf(),
            self.s_fold_fits(),
        ensures
            res == self.s_fold_sk_block(),
    {
        self.inst_h() / BLOCK - self.n_fold_blocks()
    }

    // Periodic columns.

    pub open spec fn s_p_round(&self, r: int) -> int {
        FT_BIND_START + self.s_nb() + self.s_ni() + r
    }

    /// Fold row of round `r`.
    pub fn p_round(&self, r: usize) -> (res: usize)
        requires
            self.wf(),
            self.s_p_round(r as int) <= usize::MAX,
        ensures
            res == self.s_p_round(r as int),
    {
        FT_BIND_START + self.nb() + self.ni() + r
    }

    pub open spec fn s_p_query(&self, q: int) -> int {
        FT_BIND_START + self.s_nb() + self.s_ni() + self.s_cm_rounds() + q
    }

    /// Head row of query `q`.
    pub fn p_query(&self, q: usize) -> (res: usize)
        requires
            self.wf(),
            self.s_p_query(q as int) <= usize::MAX,
        ensures
            res == self.s_p_query(q as int),
    {
        FT_BIND_START + self.nb() + self.ni() + self.cm_rounds() + q
    }

    pub open spec fn s_m_base(&self) -> int {
        FT_BIND_START + self.s_nb() + self.s_ni() + self.s_cm_rounds() + (self.n_queries as int)
    }

    /// First super-tile selector.
    pub fn m_base(&self) -> (res: usize)
        requires
            self.wf(),
        ensures
            res == self.s_m_base(),
    {
        FT_BIND_START + self.nb() + self.ni() + self.cm_rounds() + self.n_queries
    }

    pub open spec fn s_m_tf(&self) -> int {
        self.s_m_base()
    }

    /// Head row of every super-tile.
    pub fn m_tf(&self) -> (res: usize)
        requires
            self.wf(),
        ensures
            res == self.s_m_tf(),
    {
        self.m_base()
    }

    pub open spec fn s_m_tl(&self) -> int {
        self.s_m_base() + 1
    }

    /// Accept row of every super-tile.
    pub fn m_tl(&self) -> (res: usize)
        requires
            self.wf(),
        ensures
            res == self.s_m_tl(),
    {
        self.m_base() + 1
    }

    pub open spec fn s_m_leaf(&self) -> int {
        self.s_m_base() + 2
    }

    /// Trace-leaf head.
    pub fn m_leaf(&self) -> (res: usize)
        requires
            self.wf(),
        ensures
            res == self.s_m_leaf(),
    {
        self.m_base() + 2
    }

    pub open spec fn s_m_term(&self) -> int {
        self.s_m_base() + 3
    }

    /// Trace-path terminal.
    pub fn m_term(&self) -> (res: usize)
        requires
            self.wf(),
        ensures
            res == self.s_m_term(),
    {
        self.m_base() + 3
    }

    pub open spec fn s_s_trans(&self) -> int {
        self.s_m_base() + 4
    }

    /// Transcript rows.
    pub fn s_trans(&self) -> (res: usize)
        requires
            self.wf(),
        ensures
            res == self.s_s_trans(),
    {
        self.m_base() + 4
    }

    pub open spec fn s_s_query(&self) -> int {
        self.s_m_base() + 5
    }

    /// Super-tile rows.
    pub fn s_query(&self) -> (res: usize)
        requires
            self.wf(),
        ensures
            res == self.s_s_query(),
    {
        self.m_base() + 5
    }

    pub open spec fn s_s_merkle(&self) -> int {
        self.s_m_base() + 6
    }

    /// Merkle rows.
    pub fn s_merkle(&self) -> (res: usize)
        requires
            self.wf(),
        ensures
            res == self.s_s_merkle(),
    {
        self.m_base() + 6
    }

    pub open spec fn s_s_trans_trans(&self) -> int {
        self.s_m_base() + 7
    }

    /// Transcript rows but the last.
    pub fn s_trans_trans(&self) -> (res: usize)
        requires
            self.wf(),
        ensures
            res == self.s_s_trans_trans(),
    {
        self.m_base() + 7
    }

    pub open spec fn s_p_st_last(&self) -> int {
        self.s_m_base() + 8
    }

    /// Last row of every super-tile.
    pub fn p_st_last(&self) -> (res: usize)
        requires
            self.wf(),
        ensures
            res == self.s_p_st_last(),
    {
        self.m_base() + 8
    }

    pub open spec fn s_q_leaf(&self) -> int {
        self.s_m_base() + 9
    }

    /// Quotient-leaf head.
    pub fn q_leaf(&self) -> (res: usize)
        requires
            self.wf(),
        ensures
            res == self.s_q_leaf(),
    {
        self.m_base() + 9
    }

    pub open spec fn s_q_term(&self) -> int {
        self.s_m_base() + 10
    }

    /// Quotient-path terminal.
    pub fn q_term(&self) -> (res: usize)
        requires
            self.wf(),
        ensures
            res == self.s_q_term(),
    {
        self.m_base() + 10
    }

    pub open spec fn s_c_leaf(&self, r: int) -> int {
        self.s_m_base() + 11 + r
    }

    /// Commit-leaf head of round `r`.
    pub fn c_leaf(&self, r: usize) -> (res: usize)
        requires
            self.wf(),
            self.s_c_leaf(r as int) <= usize::MAX,
        ensures
            res == self.s_c_leaf(r as int),
    {
        self.m_base() + 11 + r
    }

    pub open spec fn s_c_term(&self, r: int) -> int {
        self.s_m_base() + 11 + self.s_cm_rounds() + r
    }

    /// Commit-path terminal of round `r`.
    pub fn c_term(&self, r: usize) -> (res: usize)
        requires
            self.wf(),
            self.s_c_term(r as int) <= usize::MAX,
        ensures
            res == self.s_c_term(r as int),
    {
        self.m_base() + 11 + self.cm_rounds() + r
    }

    pub open spec fn s_leaf_absorb_base(&self) -> int {
        self.s_c_term(self.s_cm_rounds() - 1) + 1
    }

    /// First multi-block trace-leaf selector.
    pub fn leaf_absorb_base(&self) -> (res: usize)
        requires
            self.wf(),
        ensures
            res == self.s_leaf_absorb_base(),
    {
        self.c_term(self.cm_rounds() - 1) + 1
    }

    pub open spec fn s_n_in_absorb(&self) -> int {
        if self.s_leaf_blocks() > 1 { (self.s_leaf_blocks() - 1) + 1 + (if self.s_input_leaf_felts() % (RATE as int) != 0 { 1int } else { 0 }) } else { 0 }
    }

    /// Multi-block trace-leaf selectors.
    pub fn n_in_absorb(&self) -> (res: usize)
        requires
            self.wf(),
        ensures
            res == self.s_n_in_absorb(),
    {
        if self.leaf_blocks() > 1 { (self.leaf_blocks() - 1) + 1 + (if self.input_leaf_felts() % RATE != 0 { 1 } else { 0 }) } else { 0 }
    }

    pub open spec fn s_ia_in(&self, b: int) -> int {
        self.s_leaf_absorb_base() + (b - 1)
    }

    /// Absorb head of trace-leaf block `b`.
    pub fn ia_in(&self, b: usize) -> (res: usize)
        requires
            self.wf(),
            b >= 1,
            self.s_ia_in(b as int) <= usize::MAX,
        ensures
            res == self.s_ia_in(b as int),
    {
        self.leaf_absorb_base() + (b - 1)
    }

    pub open spec fn s_in_boundary(&self) -> int {
        self.s_leaf_absorb_base() + (self.s_leaf_blocks() - 1)
    }

    /// Inner boundaries of the trace leaf.
    pub fn in_boundary(&self) -> (res: usize)
        requires
            self.wf(),
            self.s_leaf_blocks() > 1,
        ensures
            res == self.s_in_boundary(),
    {
        self.leaf_absorb_base() + (self.leaf_blocks() - 1)
    }

    pub open spec fn s_in_last_carry(&self) -> int {
        self.s_in_boundary() + 1
    }

    /// Boundary into a short last trace-leaf block.
    pub fn in_last_carry(&self) -> (res: usize)
        requires
            self.wf(),
            self.s_leaf_blocks() > 1,
        ensures
            res == self.s_in_last_carry(),
    {
        self.in_boundary() + 1
    }

    pub open spec fn s_quot_absorb_base(&self) -> int {
        self.s_leaf_absorb_base() + self.s_n_in_absorb()
    }

    /// First multi-block quotient-leaf selector.
    pub fn quot_absorb_base(&self) -> (res: usize)
        requires
            self.wf(),
        ensures
            res == self.s_quot_absorb_base(),
    {
        self.leaf_absorb_base() + self.n_in_absorb()
    }

    pub open spec fn s_n_quot_absorb(&self) -> int {
        if self.s_quot_leaf_blocks() > 1 { (self.s_quot_leaf_blocks() - 1) + 1 + (if self.s_quot_leaf_felts() % (RATE as int) != 0 { 1int } else { 0 }) } else { 0 }
    }

    /// Multi-block quotient-leaf selectors.
    pub fn n_quot_absorb(&self) -> (res: usize)
        requires
            self.wf(),
        ensures
            res == self.s_n_quot_absorb(),
    {
        if self.quot_leaf_blocks() > 1 { (self.quot_leaf_blocks() - 1) + 1 + (if self.quot_leaf_felts() % RATE != 0 { 1 } else { 0 }) } else { 0 }
    }

    pub open spec fn s_iq_(&self, b: int) -> int {
        self.s_quot_absorb_base() + (b - 1)
    }

    /// Absorb head of quotient-leaf block `b`.
    pub fn iq_(&self, b: usize) -> (res: usize)
        requires
            self.wf(),
            b >= 1,
            self.s_iq_(b as int) <= usize::MAX,
        ensures
            res == self.s_iq_(b as int),
    {
        self.quot_absorb_base() + (b - 1)
    }

    pub open spec fn s_q_boundary(&self) -> int {
        self.s_quot_absorb_base() + (self.s_quot_leaf_blocks() - 1)
    }

    /// Inner boundaries of the quotient leaf.
    pub fn q_boundary(&self) -> (res: usize)
        requires
            self.wf(),
            self.s_quot_leaf_blocks() > 1,
        ensures
            res == self.s_q_boundary(),
    {
        self.quot_absorb_base() + (self.quot_leaf_blocks() - 1)
    }

    pub open spec fn s_q_last_carry(&self) -> int {
        self.s_q_boundary() + 1
    }

    /// Boundary into a short last quotient-leaf block.
    pub fn q_last_carry(&self) -> (res: usize)
        requires
            self.wf(),
            self.s_quot_leaf_blocks() > 1,
        ensures
            res == self.s_q_last_carry(),
    {
        self.q_boundary() + 1
    }

    pub open spec fn s_fold_base(&self) -> int {
        self.s_quot_absorb_base() + self.s_n_quot_absorb()
    }

    /// First fold selector.
    pub fn fold_base(&self) -> (res: usize)
        requires
            self.wf(),
        ensures
            res == self.s_fold_base(),
    {
        self.quot_absorb_base() + self.n_quot_absorb()
    }

    pub open spec fn s_n_fold_p(&self) -> int {
        if !self.fold { 0int } else if self.fold_txstmt { 5 + self.s_n_sk_blocks() } else { 5 }
    }

    /// Fold selectors.
    pub fn n_fold_p(&self) -> (res: usize)
        ensures
            res == self.s_n_fold_p(),
    {
        if !self.fold { 0 } else if self.fold_txstmt { 5 + self.n_sk_blocks() } else { 5 }
    }

    pub open spec fn s_p_fold_active(&self) -> int {
        self.s_fold_base()
    }

    /// Rows of the fold blocks.
    pub fn p_fold_active(&self) -> (res: usize)
        requires
            self.wf(),
        ensures
            res == self.s_p_fold_active(),
    {
        self.fold_base()
    }

    pub open spec fn s_p_fold_sk(&self) -> int {
        self.s_fold_base() + 1
    }

    /// Seed row of the one-value fold.
    pub fn p_fold_sk(&self) -> (res: usize)
        requires
            self.wf(),
        ensures
            res == self.s_p_fold_sk(),
    {
        self.fold_base() + 1
    }

    pub open spec fn s_p_fold_first(&self, b: int) -> int {
        self.s_fold_base() + 1 + b
    }

    /// First row of statement block `b`.
    pub fn p_fold_first(&self, b: usize) -> (res: usize)
        requires
            self.wf(),
            self.s_p_fold_first(b as int) <= usize::MAX,
        ensures
            res == self.s_p_fold_first(b as int),
    {
        self.fold_base() + 1 + b
    }

    pub open spec fn s_p_fold_sklink(&self) -> int {
        self.s_fold_base() + 1 + self.s_n_sk_blocks()
    }

    /// Inner boundaries of the statement chain.
    pub fn p_fold_sklink(&self) -> (res: usize)
        requires
            self.wf(),
            self.fold,
        ensures
            res == self.s_p_fold_sklink(),
    {
        self.fold_base() + 1 + self.n_sk_blocks()
    }

    pub open spec fn s_fold_tail_base(&self) -> int {
        self.s_fold_base() + if self.fold_txstmt { 2 + self.s_n_sk_blocks() } else { 2int }
    }

    /// First of the three closing fold selectors.
    pub fn fold_tail_base(&self) -> (res: usize)
        requires
            self.wf(),
            self.fold,
        ensures
            res == self.s_fold_tail_base(),
    {
        self.fold_base() + if self.fold_txstmt { 2 + self.n_sk_blocks() } else { 2 }
    }

    pub open spec fn s_p_fold_sklast(&self) -> int {
        self.s_fold_tail_base()
    }

    /// Last row of the statement chain.
    pub fn p_fold_sklast(&self) -> (res: usize)
        requires
            self.wf(),
            self.fold,
        ensures
            res == self.s_p_fold_sklast(),
    {
        self.fold_tail_base()
    }

    pub open spec fn s_p_fold_rootin(&self) -> int {
        self.s_fold_tail_base() + 1
    }

    /// First row of the root block.
    pub fn p_fold_rootin(&self) -> (res: usize)
        requires
            self.wf(),
            self.fold,
        ensures
            res == self.s_p_fold_rootin(),
    {
        self.fold_tail_base() + 1
    }

    pub open spec fn s_p_fold_rootupd(&self) -> int {
        self.s_fold_tail_base() + 2
    }

    /// Last row of the root block.
    pub fn p_fold_rootupd(&self) -> (res: usize)
        requires
            self.wf(),
            self.fold,
        ensures
            res == self.s_p_fold_rootupd(),
    {
        self.fold_tail_base() + 2
    }

    pub open spec fn s_random_absorb_base(&self) -> int {
        self.s_fold_base() + self.s_n_fold_p()
    }

    /// First random-round selector.
    pub fn random_absorb_base(&self) -> (res: usize)
        requires
            self.wf(),
        ensures
            res == self.s_random_absorb_base(),
    {
        self.fold_base() + self.n_fold_p()
    }

    pub open spec fn s_n_random_periodic(&self) -> int {
        if self.is_zk == 1 { 2 + (self.s_random_leaf_blocks() - 1) + (if self.s_random_leaf_blocks() > 1 { 1int } else { 0 }) + (if self.s_random_leaf_blocks() > 1 && self.s_random_leaf_felts() % (RATE as int) != 0 { 1int } else { 0 }) } else { 0 }
    }

    /// Random-round selectors.
    pub fn n_random_periodic(&self) -> (res: usize)
        ensures
            res == self.s_n_random_periodic(),
    {
        if self.is_zk == 1 { 2 + (self.random_leaf_blocks() - 1) + (if self.random_leaf_blocks() > 1 { 1 } else { 0 }) + (if self.random_leaf_blocks() > 1 && self.random_leaf_felts() % RATE != 0 { 1 } else { 0 }) } else { 0 }
    }

    pub open spec fn s_p_random_leaf(&self) -> int {
        self.s_random_absorb_base()
    }

    /// Random-leaf head.
    pub fn p_random_leaf(&self) -> (res: usize)
        requires
            self.wf(),
        ensures
            res == self.s_p_random_leaf(),
    {
        self.random_absorb_base()
    }

    pub open spec fn s_p_random_term(&self) -> int {
        self.s_random_absorb_base() + 1
    }

    /// Random-path terminal.
    pub fn p_random_term(&self) -> (res: usize)
        requires
            self.wf(),
        ensures
            res == self.s_p_random_term(),
    {
        self.random_absorb_base() + 1
    }

    pub open spec fn s_p_random_absorb(&self, b: int) -> int {
        self.s_random_absorb_base() + 2 + (b - 1)
    }

    /// Absorb head of random-leaf block `b`.
    pub fn p_random_absorb(&self, b: usize) -> (res: usize)
        requires
            self.wf(),
            b >= 1,
            self.s_p_random_absorb(b as int) <= usize::MAX,
        ensures
            res == self.s_p_random_absorb(b as int),
    {
        self.random_absorb_base() + 2 + (b - 1)
    }

    pub open spec fn s_p_random_boundary(&self) -> int {
        self.s_random_absorb_base() + 2 + (self.s_random_leaf_blocks() - 1)
    }

    /// Inner boundaries of the random leaf.
    pub fn p_random_boundary(&self) -> (res: usize)
        requires
            self.wf(),
            self.is_zk == 1,
        ensures
            res == self.s_p_random_boundary(),
    {
        self.random_absorb_base() + 2 + (self.random_leaf_blocks() - 1)
    }

    pub open spec fn s_p_random_last_carry(&self) -> int {
        self.s_p_random_boundary() + 1
    }

    /// Boundary into a short last random-leaf block.
    pub fn p_random_last_carry(&self) -> (res: usize)
        requires
            self.wf(),
            self.is_zk == 1,
        ensures
            res == self.s_p_random_last_carry(),
    {
        self.p_random_boundary() + 1
    }

    pub open spec fn s_aux_absorb_base(&self) -> int {
        self.s_random_absorb_base() + self.s_n_random_periodic()
    }

    /// First aux-round selector.
    pub fn aux_absorb_base(&self) -> (res: usize)
        requires
            self.wf(),
        ensures
            res == self.s_aux_absorb_base(),
    {
        self.random_absorb_base() + self.n_random_periodic()
    }

    pub open spec fn s_n_aux_periodic(&self) -> int {
        if self.s_is_lookup() { 2 + (self.s_aux_leaf_blocks() - 1) + (if self.s_aux_leaf_blocks() > 1 { 1int } else { 0 }) + (if self.s_aux_leaf_blocks() > 1 && self.s_aux_leaf_felts() % (RATE as int) != 0 { 1int } else { 0 }) } else { 0 }
    }

    /// Aux-round selectors.
    pub fn n_aux_periodic(&self) -> (res: usize)
        requires
            self.wf(),
        ensures
            res == self.s_n_aux_periodic(),
    {
        if self.is_lookup() { 2 + (self.aux_leaf_blocks() - 1) + (if self.aux_leaf_blocks() > 1 { 1 } else { 0 }) + (if self.aux_leaf_blocks() > 1 && self.aux_leaf_felts() % RATE != 0 { 1 } else { 0 }) } else { 0 }
    }

    pub open spec fn s_p_aux_leaf(&self) -> int {
        self.s_aux_absorb_base()
    }

    /// Aux-leaf head.
    pub fn p_aux_leaf(&self) -> (res: usize)
        requires
            self.wf(),
        ensures
            res == self.s_p_aux_leaf(),
    {
        self.aux_absorb_base()
    }

    pub open spec fn s_p_aux_term(&self) -> int {
        self.s_aux_absorb_base() + 1
    }

    /// Aux-path terminal.
    pub fn p_aux_term(&self) -> (res: usize)
        requires
            self.wf(),
        ensures
            res == self.s_p_aux_term(),
    {
        self.aux_absorb_base() + 1
    }

    pub open spec fn s_p_aux_absorb(&self, b: int) -> int {
        self.s_aux_absorb_base() + 2 + (b - 1)
    }

    /// Absorb head of aux-leaf block `b`.
    pub fn p_aux_absorb(&self, b: usize) -> (res: usize)
        requires
            self.wf(),
            b >= 1,
            self.s_p_aux_absorb(b as int) <= usize::MAX,
        ensures
            res == self.s_p_aux_absorb(b as int),
    {
        self.aux_absorb_base() + 2 + (b - 1)
    }

    pub open spec fn s_p_aux_boundary(&self) -> int {
        self.s_aux_absorb_base() + 2 + (self.s_aux_leaf_blocks() - 1)
    }

    /// Inner boundaries of the aux leaf.
    pub fn p_aux_boundary(&self) -> (res: usize)
        requires
            self.wf(),
            self.s_is_lookup(),
        ensures
            res == self.s_p_aux_boundary(),
    {
        self.aux_absorb_base() + 2 + (self.aux_leaf_blocks() - 1)
    }

    pub open spec fn s_p_aux_last_carry(&self) -> int {
        self.s_p_aux_boundary() + 1
    }

    /// Boundary into a short last aux-leaf block.
    pub fn p_aux_last_carry(&self) -> (res: usize)
        requires
            self.wf(),
            self.s_is_lookup(),
            self.s_aux_leaf_blocks() > 1,
        ensures
            res == self.s_p_aux_last_carry(),
    {
        self.p_aux_boundary() + 1
    }

    pub open spec fn s_commit_absorb_base(&self) -> int {
        self.s_aux_absorb_base() + self.s_n_aux_periodic()
    }

    /// First commit-leaf selector.
    pub fn commit_absorb_base(&self) -> (res: usize)
        requires
            self.wf(),
        ensures
            res == self.s_commit_absorb_base(),
    {
        self.aux_absorb_base() + self.n_aux_periodic()
    }

    pub open spec fn s_n_commit_absorb(&self) -> int {
        if self.is_zk == 1 && self.s_cm_leaf_blocks() > 1 { 1int } else { 0int }
    }

    /// Commit-leaf selectors.
    pub fn n_commit_absorb(&self) -> (res: usize)
        ensures
            res == self.s_n_commit_absorb(),
    {
        if self.is_zk == 1 && self.cm_leaf_blocks() > 1 { 1 } else { 0 }
    }

    pub open spec fn s_c_bnd(&self) -> int {
        self.s_commit_absorb_base()
    }

    /// Inner boundary of every commit leaf.
    pub fn c_bnd(&self) -> (res: usize)
        requires
            self.wf(),
        ensures
            res == self.s_c_bnd(),
    {
        self.commit_absorb_base()
    }

    pub open spec fn s_p_inst_first(&self) -> int {
        self.s_commit_absorb_base() + self.s_n_commit_absorb()
    }

    /// First row of every instance.
    pub fn p_inst_first(&self) -> (res: usize)
        requires
            self.wf(),
        ensures
            res == self.s_p_inst_first(),
    {
        self.commit_absorb_base() + self.n_commit_absorb()
    }

    pub open spec fn s_p_inst_last(&self) -> int {
        self.s_p_inst_first() + 1
    }

    /// Last row of every instance.
    pub fn p_inst_last(&self) -> (res: usize)
        requires
            self.wf(),
        ensures
            res == self.s_p_inst_last(),
    {
        self.p_inst_first() + 1
    }

    pub open spec fn s_width(&self) -> int {
        self.s_fold_w()
    }

    /// Width of the trace.
    pub fn width(&self) -> (res: usize)
        requires
            self.wf(),
        ensures
            res == self.s_width(),
    {
        self.fold_w()
    }

    pub open spec fn s_num_public_values(&self) -> int {
        if self.fold { 4int } else if self.column_window { 0int } else { self.s_pis_count() }
    }

    /// Public values of the outer statement: the root lanes when folding, none when the inner values live in the window, else the inner values.
    pub fn num_public_values(&self) -> (res: usize)
        requires
            self.wf(),
        ensures
            res == self.s_num_public_values(),
    {
        if self.fold { 4 } else if self.column_window { 0 } else { self.pis_count() }
    }

    pub open spec fn s_num_periodic_columns(&self) -> int {
        self.s_p_inst_last() + 1
    }

    /// Periodic columns.
    pub fn num_periodic_columns(&self) -> (res: usize)
        requires
            self.wf(),
        ensures
            res == self.s_num_periodic_columns(),
    {
        self.p_inst_last() + 1
    }

    /// The parts of the layout are ordered, so each is bounded by the totals that `wf` bounds.
    pub proof fn lemma_bounds(&self)
        requires
            self.wf(),
        ensures
            0 <= self.s_caps_before(self.s_cm_rounds()),
            0 <= self.s_pis_cap_stride(),
            0 <= self.s_pis_commit_caps_len(),
            self.s_ccap_base() <= self.s_pis_count(),
            0 <= self.s_pis_count(),
            self.s_pw_base() <= self.s_sel_base() <= self.s_fused_w() <= self.s_fold_w(),
            self.s_carriers_base() <= self.s_pw_base(),
            self.s_ov() <= self.s_carriers_base(),
            self.s_quot_leaf_felts() <= self.s_carriers_base(),
            self.s_quot_leaf_felts() >= 2,
            self.s_m_quot_term() < self.s_m_nblocks() <= self.s_m_period(),
            0 <= self.s_tr(),
            0 <= self.n_queries * self.s_m_period(),
            self.s_tr() + self.n_queries * self.s_m_period() <= self.s_inst_h(),
    {
        let r = self.s_cm_rounds();
        self.lemma_caps_monotone(0, r);
        self.lemma_rounds_monotone(0, r - 1);
        vstd::arithmetic::power2::lemma_pow2_pos(self.cap_height as nat);
        assert(self.s_m_nblocks() >= 1);
        assert(0 <= self.n_queries * self.s_m_period()) by (nonlinear_arith)
            requires
                self.n_queries >= 0,
                self.s_m_period() >= 0,
        ;
        crate::bits::lemma_next_pow2((self.s_tr() + self.n_queries * self.s_m_period()) as nat);
    }
}

} // verus!
