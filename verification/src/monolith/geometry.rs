//! Block layouts computed from bare dimensions, the named shapes of the verifier, and the size estimate of
//! a verifier from the dimensions of its inner proof.

use vstd::prelude::*;

use super::layout::{
    cm_depth_at, s_cm_depth_at, MonolithAir, DIGEST, HIDING_NUM_CW, HIDING_RAND_PUB, HIDING_SALT, M_INPUT_LEAF, M_OUT,
    N_IN, PI_ANCHOR, PI_FEE, PI_MINT, PI_NF, PI_OUTCM, PI_TXBIND, RATE,
};
use crate::bits::{div_ceil, div_up};

verus! {

/// Blocks of the commit rounds before `r`, each a leaf of `leaf_blocks` blocks and its path.
pub open spec fn s_round_blocks(r: int, log_global: int, cap_height: int, leaf_blocks: int) -> int
    decreases r,
{
    if r <= 0 {
        0
    } else {
        s_round_blocks(r - 1, log_global, cap_height, leaf_blocks) + (leaf_blocks - 1) + s_cm_depth_at(
            r - 1,
            log_global,
            cap_height,
        ) + 1
    }
}

proof fn lemma_round_blocks_monotone(a: int, b: int, log_global: int, cap_height: int, leaf_blocks: int)
    requires
        0 <= a <= b,
        leaf_blocks >= 1,
    ensures
        0 <= s_round_blocks(a, log_global, cap_height, leaf_blocks) <= s_round_blocks(
            b,
            log_global,
            cap_height,
            leaf_blocks,
        ),
    decreases b,
{
    if a < b {
        lemma_round_blocks_monotone(a, b - 1, log_global, cap_height, leaf_blocks);
    } else if a > 0 {
        lemma_round_blocks_monotone(a - 1, a - 1, log_global, cap_height, leaf_blocks);
    }
}

/// The head and terminal block of every commit round that starts at block `start`, and the block after the
/// last.
fn round_layout(start: usize, rounds: usize, log_global: usize, cap_height: usize, leaf_blocks: usize) -> (r: (
    Vec<usize>,
    Vec<usize>,
    usize,
))
    requires
        1 <= leaf_blocks,
        rounds <= log_global,
        start + s_round_blocks(rounds as int, log_global as int, cap_height as int, leaf_blocks as int)
            <= usize::MAX,
    ensures
        r.0@.len() == rounds,
        r.1@.len() == rounds,
        forall|i: int|
            0 <= i < rounds ==> #[trigger] r.0@[i] == start + s_round_blocks(
                i,
                log_global as int,
                cap_height as int,
                leaf_blocks as int,
            ),
        forall|i: int|
            0 <= i < rounds ==> #[trigger] r.1@[i] == start + s_round_blocks(
                i + 1,
                log_global as int,
                cap_height as int,
                leaf_blocks as int,
            ) - 1,
        r.2 == start + s_round_blocks(rounds as int, log_global as int, cap_height as int, leaf_blocks as int),
{
    let mut leaf: Vec<usize> = Vec::new();
    let mut term: Vec<usize> = Vec::new();
    let mut blk: usize = start;
    let mut r: usize = 0;
    while r < rounds
        invariant
            1 <= leaf_blocks,
            r <= rounds <= log_global,
            start + s_round_blocks(rounds as int, log_global as int, cap_height as int, leaf_blocks as int)
                <= usize::MAX,
            leaf@.len() == r,
            term@.len() == r,
            forall|i: int|
                0 <= i < r ==> #[trigger] leaf@[i] == start + s_round_blocks(
                    i,
                    log_global as int,
                    cap_height as int,
                    leaf_blocks as int,
                ),
            forall|i: int|
                0 <= i < r ==> #[trigger] term@[i] == start + s_round_blocks(
                    i + 1,
                    log_global as int,
                    cap_height as int,
                    leaf_blocks as int,
                ) - 1,
            blk == start + s_round_blocks(r as int, log_global as int, cap_height as int, leaf_blocks as int),
        decreases rounds - r,
    {
        proof {
            let (lg, ch, lb) = (log_global as int, cap_height as int, leaf_blocks as int);
            lemma_round_blocks_monotone(r as int, r as int, lg, ch, lb);
            lemma_round_blocks_monotone(r + 1, rounds as int, lg, ch, lb);
        }
        leaf.push(blk);
        let t: usize = blk + (leaf_blocks - 1) + cm_depth_at(r, log_global, cap_height);
        term.push(t);
        blk = t + 1;
        r += 1;
    }
    (leaf, term, blk)
}

/// Terminal block of a leaf of `leaf_blocks` blocks from block `head` on, with its path.
pub open spec fn s_opening_term(head: int, leaf_blocks: int, depth: int) -> int {
    head + (leaf_blocks - 1) + depth
}

/// The super-tile of a plain inner: commit rounds, input depth, trace and quotient terminals, heads and
/// terminals of the commit rounds, and the block count.
pub fn commit_layout(
    log_global: usize,
    cap_height: usize,
    log_blowup: usize,
    leaf_blocks: usize,
    quot_leaf_blocks: usize,
) -> (r: (usize, usize, usize, usize, Vec<usize>, Vec<usize>, usize))
    requires
        log_blowup <= log_global,
        cap_height <= log_global,
        1 <= leaf_blocks,
        1 <= quot_leaf_blocks,
        s_commit_layout_blocks(
            log_global as int,
            cap_height as int,
            log_blowup as int,
            leaf_blocks as int,
            quot_leaf_blocks as int,
        ) <= usize::MAX,
    ensures
        r.0 == log_global - log_blowup,
        r.1 == log_global - cap_height,
        r.2 == s_opening_term(M_INPUT_LEAF as int, leaf_blocks as int, r.1 as int),
        r.3 == s_opening_term(r.2 + 1, quot_leaf_blocks as int, r.1 as int),
        r.4@.len() == r.0,
        r.5@.len() == r.0,
        forall|i: int|
            0 <= i < r.0 ==> #[trigger] r.4@[i] == r.3 + 1 + s_round_blocks(
                i,
                log_global as int,
                cap_height as int,
                1,
            ),
        forall|i: int|
            0 <= i < r.0 ==> #[trigger] r.5@[i] == r.3 + s_round_blocks(i + 1, log_global as int, cap_height as int, 1),
        r.6 == s_commit_layout_blocks(
            log_global as int,
            cap_height as int,
            log_blowup as int,
            leaf_blocks as int,
            quot_leaf_blocks as int,
        ),
{
    let rounds: usize = log_global - log_blowup;
    let depth: usize = log_global - cap_height;
    proof {
        lemma_round_blocks_monotone(0, rounds as int, log_global as int, cap_height as int, 1);
    }
    let m_input_term: usize = M_INPUT_LEAF + (leaf_blocks - 1) + depth;
    let m_quot_term: usize = m_input_term + 1 + (quot_leaf_blocks - 1) + depth;
    let (leaf, term, blocks) = round_layout(m_quot_term + 1, rounds, log_global, cap_height, 1);
    (rounds, depth, m_input_term, m_quot_term, leaf, term, blocks)
}

/// Blocks of the super-tile of a plain inner.
pub open spec fn s_commit_layout_blocks(
    log_global: int,
    cap_height: int,
    log_blowup: int,
    leaf_blocks: int,
    quot_leaf_blocks: int,
) -> int {
    let depth = log_global - cap_height;
    let input = s_opening_term(M_INPUT_LEAF as int, leaf_blocks, depth);
    s_opening_term(input + 1, quot_leaf_blocks, depth) + 1 + s_round_blocks(
        log_global - log_blowup,
        log_global,
        cap_height,
        1,
    )
}

/// Sponge blocks of the random, trace and quotient leaves of a hiding inner.
pub open spec fn s_hiding_leaf_blocks(w: int, nqc: int) -> (int, int, int) {
    (div_up(10, RATE as int), div_up(w + 8, RATE as int), div_up(10 * nqc, RATE as int))
}

/// Terminals of the random, trace and quotient openings of a hiding inner.
pub open spec fn s_hiding_terms(w: int, nqc: int, depth: int) -> (int, int, int) {
    let (rlb, ilb, qlb) = s_hiding_leaf_blocks(w, nqc);
    let rt = s_opening_term(M_INPUT_LEAF as int, rlb, depth);
    let it = s_opening_term(rt + 1, ilb, depth);
    (rt, it, s_opening_term(it + 1, qlb, depth))
}

/// Blocks of the super-tile of a hiding inner.
pub open spec fn s_hiding_blocks(w: int, nqc: int, log_global: int, cap_height: int, log_blowup: int) -> int {
    s_hiding_terms(w, nqc, log_global - cap_height).2 + 1 + s_round_blocks(
        log_global - log_blowup,
        log_global,
        cap_height,
        2,
    )
}

/// The super-tile of a hiding inner of `w` columns and `nqc` quotient chunks: terminals of the random, trace
/// and quotient openings, heads and terminals of the commit rounds, the block count, the reduced-opening
/// terms, and the leaf blocks of the three openings.
pub fn hiding_commit_layout(w: usize, nqc: usize, log_global: usize, cap_height: usize, log_blowup: usize) -> (r: (
    usize,
    usize,
    usize,
    Vec<usize>,
    Vec<usize>,
    usize,
    usize,
    [usize; 3],
))
    requires
        log_blowup <= log_global,
        cap_height <= log_global,
        1 <= nqc,
        s_hiding_blocks(w as int, nqc as int, log_global as int, cap_height as int, log_blowup as int)
            <= usize::MAX,
        w + 8 <= usize::MAX,
        10 * nqc <= usize::MAX,
        2 * w + 6 * nqc + 14 <= usize::MAX,
    ensures
        ({
            let t = s_hiding_terms(w as int, nqc as int, log_global - cap_height);
            &&& r.0 == t.0
            &&& r.1 == t.1
            &&& r.2 == t.2
        }),
        r.3@.len() == log_global - log_blowup,
        r.4@.len() == log_global - log_blowup,
        forall|i: int|
            0 <= i < log_global - log_blowup ==> #[trigger] r.3@[i] == r.2 + 1 + s_round_blocks(
                i,
                log_global as int,
                cap_height as int,
                2,
            ),
        forall|i: int|
            0 <= i < log_global - log_blowup ==> #[trigger] r.4@[i] == r.2 + s_round_blocks(
                i + 1,
                log_global as int,
                cap_height as int,
                2,
            ),
        r.5 == s_hiding_blocks(w as int, nqc as int, log_global as int, cap_height as int, log_blowup as int),
        r.6 == 6 + 2 * (w + 4) + 6 * nqc,
        ({
            let b = s_hiding_leaf_blocks(w as int, nqc as int);
            &&& r.7@[0] == b.0
            &&& r.7@[1] == b.1
            &&& r.7@[2] == b.2
        }),
{
    let rounds: usize = log_global - log_blowup;
    let depth: usize = log_global - cap_height;
    let random_felts: usize = HIDING_RAND_PUB + HIDING_NUM_CW + HIDING_SALT;
    let rlb: usize = div_ceil(random_felts, RATE);
    let ilb: usize = div_ceil(w + HIDING_NUM_CW + HIDING_SALT, RATE);
    let qlb: usize = div_ceil(10 * nqc, RATE);
    proof {
        lemma_round_blocks_monotone(0, rounds as int, log_global as int, cap_height as int, 2);
    }
    let rt: usize = M_INPUT_LEAF + (rlb - 1) + depth;
    let it: usize = rt + 1 + (ilb - 1) + depth;
    let qt: usize = it + 1 + (qlb - 1) + depth;
    let (leaf, term, blocks) = round_layout(qt + 1, rounds, log_global, cap_height, 2);
    let n_terms: usize = 6 + 2 * (w + HIDING_NUM_CW) + 6 * nqc;
    (rt, it, qt, leaf, term, blocks, n_terms, [rlb, ilb, qlb])
}

impl MonolithAir {
    proof fn lemma_rounds_agree(&self, r: int)
        requires
            0 <= r,
        ensures
            self.s_rounds_before(r) == s_round_blocks(
                r,
                self.s_lg(),
                self.cap_height as int,
                self.s_cm_leaf_blocks(),
            ),
        decreases r,
    {
        if r > 0 {
            self.lemma_rounds_agree(r - 1);
        }
    }

    /// A hiding verifier is laid out as `hiding_commit_layout` says for its dimensions.
    pub proof fn law_hiding_layout(&self)
        requires
            self.wf(),
            self.is_zk == 1,
        ensures
            self.s_m_random_term() == s_hiding_terms(self.s_w_inner(), self.s_nqc(), self.s_input_depth()).0,
            self.s_m_input_term() == s_hiding_terms(self.s_w_inner(), self.s_nqc(), self.s_input_depth()).1,
            self.s_m_quot_term() == s_hiding_terms(self.s_w_inner(), self.s_nqc(), self.s_input_depth()).2,
            self.s_m_nblocks() == s_hiding_blocks(
                self.s_w_inner(),
                self.s_nqc(),
                self.s_lg(),
                self.cap_height as int,
                self.s_lg() - self.s_cm_rounds(),
            ),
            forall|r: int|
                0 <= r < self.s_cm_rounds() ==> #[trigger] self.s_cm_leaf(r) == self.s_m_quot_term() + 1
                    + s_round_blocks(r, self.s_lg(), self.cap_height as int, 2),
    {
        assert forall|r: int| 0 <= r < self.s_cm_rounds() implies #[trigger] self.s_cm_leaf(r)
            == self.s_m_quot_term() + 1 + s_round_blocks(r, self.s_lg(), self.cap_height as int, 2) by {
            self.lemma_rounds_agree(r);
        }
        self.lemma_rounds_agree(self.s_cm_rounds());
    }

    /// A plain verifier is laid out as `commit_layout` says for its dimensions.
    pub proof fn law_plain_layout(&self)
        requires
            self.wf(),
            self.is_zk == 0,
            !self.s_is_lookup(),
        ensures
            self.s_m_input_term() == s_opening_term(
                M_INPUT_LEAF as int,
                self.s_leaf_blocks(),
                self.s_input_depth(),
            ),
            self.s_m_quot_term() == s_opening_term(
                self.s_m_input_term() + 1,
                self.s_quot_leaf_blocks(),
                self.s_input_depth(),
            ),
            self.s_m_nblocks() == s_commit_layout_blocks(
                self.s_lg(),
                self.cap_height as int,
                self.s_lg() - self.s_cm_rounds(),
                self.s_leaf_blocks(),
                self.s_quot_leaf_blocks(),
            ),
            forall|r: int|
                0 <= r < self.s_cm_rounds() ==> #[trigger] self.s_cm_leaf(r) == self.s_m_quot_term() + 1
                    + s_round_blocks(r, self.s_lg(), self.cap_height as int, 1),
    {
        assert forall|r: int| 0 <= r < self.s_cm_rounds() implies #[trigger] self.s_cm_leaf(r)
            == self.s_m_quot_term() + 1 + s_round_blocks(r, self.s_lg(), self.cap_height as int, 1) by {
            self.lemma_rounds_agree(r);
        }
        self.lemma_rounds_agree(self.s_cm_rounds());
    }

    /// The openings of a super-tile stand one after another: every terminal lies before the next head, so no
    /// block belongs to two of them and none leaves the tile.
    pub proof fn law_blocks_are_sequential(&self, r: int)
        requires
            self.wf(),
            0 <= r < self.s_cm_rounds(),
        ensures
            1 <= self.s_m_input_leaf() <= self.s_m_input_term(),
            self.is_zk == 1 ==> self.s_m_random_term() < self.s_m_input_leaf(),
            self.s_is_lookup() ==> self.s_m_aux_term() < self.s_m_input_leaf(),
            self.s_m_input_term() < self.s_m_quot_leaf() <= self.s_m_quot_term() < self.s_cm_leaf(0),
            self.s_cm_leaf(r) <= self.s_cm_term(r) < self.s_cm_leaf(r + 1),
            self.s_cm_term(r) < self.s_m_nblocks(),
            r + 1 == self.s_cm_rounds() ==> self.s_cm_term(r) + 1 == self.s_m_nblocks(),
    {
        self.lemma_rounds_monotone(r + 1, self.s_cm_rounds());
        self.lemma_rounds_monotone(0, r);
    }

    /// The carrier of the queried value of reduced-opening term `k`: the opened row for the trace terms, the
    /// quotient leaf for the quotient terms.
    pub open spec fn s_px_source(&self, k: int) -> int {
        if self.s_trm_trace_base() <= k < self.s_trm_next_base() {
            self.s_ov_c(k - self.s_trm_trace_base())
        } else if self.s_trm_next_base() <= k < self.s_trm_next_base() + self.s_trm_committed_w() {
            self.s_ov_c(k - self.s_trm_next_base())
        } else {
            let t = k - self.s_trm_quot_base();
            self.s_qc((t / self.s_trm_chunk_w()) * self.s_quot_chunk_stride() + t % self.s_trm_chunk_w())
        }
    }

    /// Term `k` is a trace or quotient term.
    pub open spec fn has_px_source(&self, k: int) -> bool {
        ||| self.s_trm_trace_base() <= k < self.s_trm_next_base() + self.s_trm_committed_w()
        ||| self.s_trm_quot_base() <= k < self.s_trm_quot_base() + self.s_chunk_offset(self.s_nqc())
    }

    /// The carrier column of the queried value of term `k`.
    pub fn px_source(&self, k: usize) -> (res: usize)
        requires
            self.wf(),
            self.has_px_source(k as int),
            self.narrow_ov ==> self.s_ov_c(self.s_trm_committed_w()) <= usize::MAX,
        ensures
            res == self.s_px_source(k as int),
    {
        proof {
            self.lemma_bounds();
        }
        let base: usize = self.trm_trace_base();
        let next: usize = self.trm_next_base();
        let committed: usize = self.trm_committed_w();
        if base <= k && k < next {
            return self.ov_c(k - base);
        }
        if next <= k && k < next + committed {
            return self.ov_c(k - next);
        }
        let t: usize = k - self.trm_quot_base();
        let cw: usize = self.trm_chunk_w();
        let stride: usize = self.quot_chunk_stride();
        let i: usize = t / cw;
        let j: usize = t % cw;
        proof {
            let n = self.s_nqc();
            vstd::arithmetic::div_mod::lemma_fundamental_div_mod(t as int, cw as int);
            assert(i < n && i * stride + j < n * stride) by (nonlinear_arith)
                requires
                    t == cw * i + j,
                    0 <= j < cw,
                    cw <= stride,
                    t < cw * n,
                    i >= 0,
            ;
            assert(n * stride == self.s_quot_leaf_felts()) by (nonlinear_arith)
                requires
                    self.s_quot_leaf_felts() == (if stride == 10 { 10 * n } else { 2 * n }),
                    stride == 10 || stride == 2,
            ;
        }
        self.qc(i * stride + j)
    }

    /// Every trace and quotient term finds its carrier: the carrier column `c` of the opened row serves both
    /// term `c` at the point and term `c` at the next point, and component `j` of chunk `i` its quotient term.
    pub proof fn law_px_source_inverts_binding(&self, c: int, i: int, j: int)
        requires
            self.wf(),
            0 <= c < self.s_trm_committed_w(),
            0 <= i < self.s_nqc(),
            0 <= j < self.s_trm_chunk_w(),
        ensures
            self.s_px_source(self.s_trm_trace(c)) == self.s_ov_c(c),
            self.s_px_source(self.s_trm_next(c)) == self.s_ov_c(c),
            self.s_px_source(self.s_trm_quot(i, j)) == self.s_qc(i * self.s_quot_chunk_stride() + j),
    {
        let cw = self.s_trm_chunk_w();
        let t = self.s_chunk_offset(i) + j;
        assert(t == i * cw + j) by (nonlinear_arith)
            requires
                t == (if cw == 6 { 6 * i } else { 2 * i }) + j,
                cw == 6 || cw == 2,
        ;
        vstd::arithmetic::div_mod::lemma_fundamental_div_mod_converse(t, cw, i, j);
    }

    /// The statement offset that feeds lane `k` of chunk `b` of a transaction statement: the anchor, the
    /// nullifiers, the output commitments, the fee and minted amount, the binding.
    pub open spec fn s_chunk_src(b: int, k: int) -> Option<usize> {
        if b == 0 {
            Some((PI_ANCHOR + k) as usize)
        } else if b <= N_IN {
            Some((PI_NF + (b - 1) * DIGEST + k) as usize)
        } else if b <= N_IN + M_OUT {
            Some((PI_OUTCM + (b - 1 - N_IN) * DIGEST + k) as usize)
        } else if b == N_IN + M_OUT + 1 {
            if k == 0 {
                Some(PI_FEE)
            } else if k == 1 {
                Some(PI_MINT)
            } else {
                None
            }
        } else {
            Some((PI_TXBIND + k) as usize)
        }
    }

    /// The chunks read the 26 values of a transaction statement in order, each by exactly one lane: lane `l` of
    /// the 28 reads value `l`, but that two lanes after the minted amount stay empty and the binding moves up.
    pub proof fn law_chunk_lanes(off: usize)
        requires
            off < 26,
        ensures
            ({
                let l = if off < 22 {
                    off as int
                } else {
                    off + 2
                };
                0 <= l / 4 < super::layout::FOLD_SK_BLOCKS && Self::s_chunk_src(l / 4, l % 4) == Some(off)
            }),
            forall|b: int, k: int, c: int, m: int|
                0 <= b < 7 && 0 <= k < 4 && 0 <= c < 7 && 0 <= m < 4 && #[trigger] Self::s_chunk_src(b, k) == Some(off)
                    && #[trigger] Self::s_chunk_src(c, m) == Some(off) ==> b == c && k == m,
            forall|b: int, k: int, c: int, m: int|
                0 <= b < 7 && 0 <= k < 4 && 0 <= c < 7 && 0 <= m < 4 && 4 * b + k < 4 * c + m && #[trigger] Self::s_chunk_src(
                    b,
                    k,
                ) is Some && #[trigger] Self::s_chunk_src(c, m) is Some ==> Self::s_chunk_src(b, k)->0
                    < Self::s_chunk_src(c, m)->0,
            forall|b: int, k: int|
                0 <= b < 7 && 0 <= k < 4 && #[trigger] Self::s_chunk_src(b, k) is Some ==> Self::s_chunk_src(b, k)->0
                    < 26,
    {
    }

    /// The chunks of a transaction statement in digest order.
    pub fn fold_chunk_srcs() -> (v: Vec<[Option<usize>; 4]>)
        ensures
            v@.len() == super::layout::FOLD_SK_BLOCKS,
            forall|b: int, k: int|
                0 <= b < v@.len() && 0 <= k < 4 ==> (#[trigger] v@[b]@[k]) == Self::s_chunk_src(b, k),
            forall|b: int, k: int|
                0 <= b < 7 && 0 <= k < 4 ==> (#[trigger] v@[b]@[k]) == if 4 * b + k < 22 {
                    Some((4 * b + k) as usize)
                } else if 4 * b + k < 24 {
                    None
                } else {
                    Some((4 * b + k - 2) as usize)
                },
    {
        let mut v: Vec<[Option<usize>; 4]> = Vec::new();
        v.push([Some(PI_ANCHOR), Some(PI_ANCHOR + 1), Some(PI_ANCHOR + 2), Some(PI_ANCHOR + 3)]);
        let mut i: usize = 0;
        while i < N_IN
            invariant
                i <= N_IN,
                v@.len() == 1 + i,
                forall|b: int, k: int|
                    0 <= b < v@.len() && 0 <= k < 4 ==> (#[trigger] v@[b]@[k]) == Self::s_chunk_src(b, k),
            decreases N_IN - i,
        {
            let at: usize = PI_NF + i * DIGEST;
            v.push([Some(at), Some(at + 1), Some(at + 2), Some(at + 3)]);
            i += 1;
        }
        let mut j: usize = 0;
        while j < M_OUT
            invariant
                j <= M_OUT,
                v@.len() == 1 + N_IN + j,
                forall|b: int, k: int|
                    0 <= b < v@.len() && 0 <= k < 4 ==> (#[trigger] v@[b]@[k]) == Self::s_chunk_src(b, k),
            decreases M_OUT - j,
        {
            let at: usize = PI_OUTCM + j * DIGEST;
            v.push([Some(at), Some(at + 1), Some(at + 2), Some(at + 3)]);
            j += 1;
        }
        v.push([Some(PI_FEE), Some(PI_MINT), None, None]);
        v.push([Some(PI_TXBIND), Some(PI_TXBIND + 1), Some(PI_TXBIND + 2), Some(PI_TXBIND + 3)]);
        v
    }
}

/// The reference shape of the verifier: a one-column inner of degree 2^6, plain or hiding.
pub fn monolith_air(is_zk: usize) -> (a: MonolithAir)
    ensures
        a.binds@ == Seq::new(if is_zk == 1 { 10 } else { 9 }, |j: int| 0usize),
        a.txroot_dom == 0,
        a.n_terms == (if is_zk == 1 { 40int } else { 4 }),
        a.is_zk == is_zk,
        a.counts@.len() == 0,
        a.index_binds@.len() == 0,
        a.constraints@.len() == 0,
        a.lookup is None,
        a.n_queries == 1 && a.k_instances == 1 && a.cap_height == 6,
        !a.inner_counter && !a.column_window && !a.fold && !a.fold_txstmt,
        !a.narrow_arith && !a.narrow_caps && !a.narrow_openings && !a.narrow_ov,
        a.w_inner_f == 1 && a.n_pub_f == 1 && a.n_periodic_f == 0,
{
    let binds: Vec<usize> = if is_zk == 1 {
        vec![0; 10]
    } else {
        vec![0; 9]
    };
    assert(binds@ =~= Seq::new(if is_zk == 1 { 10 } else { 9 }, |j: int| 0usize));
    MonolithAir {
        counts: Vec::new(),
        binds,
        index_binds: Vec::new(),
        n_queries: 1,
        n_terms: if is_zk == 1 { 40 } else { 4 },
        inner_counter: false,
        column_window: false,
        k_instances: 1,
        fold: false,
        fold_txstmt: false,
        constraints: Vec::new(),
        w_inner_f: 1,
        n_pub_f: 1,
        n_periodic_f: 0,
        is_zk,
        cap_height: 6,
        narrow_arith: false,
        narrow_caps: false,
        narrow_openings: false,
        narrow_ov: false,
        lookup: None,
        txroot_dom: 0,
    }
}

/// The plain reference shape with no inner dimensions of its own.
pub fn milestone_geom_air() -> (a: MonolithAir)
    ensures
        a.binds@ == Seq::new(9, |j: int| 0usize),
        a.txroot_dom == 0,
        a.n_terms == 4,
        a.is_zk == 0,
        a.counts@.len() == 0,
        a.index_binds@.len() == 0,
        a.constraints@.len() == 0,
        a.lookup is None,
        a.n_queries == 1 && a.k_instances == 1 && a.cap_height == 6,
        !a.inner_counter && !a.column_window && !a.fold && !a.fold_txstmt,
        !a.narrow_arith && !a.narrow_caps && !a.narrow_openings && !a.narrow_ov,
        a.w_inner_f == 0 && a.n_pub_f == 0 && a.n_periodic_f == 0,
{
    let binds: Vec<usize> = vec![0; 9];
    assert(binds@ =~= Seq::new(9, |j: int| 0usize));
    MonolithAir {
        counts: Vec::new(),
        binds,
        index_binds: Vec::new(),
        n_queries: 1,
        n_terms: 4,
        inner_counter: false,
        column_window: false,
        k_instances: 1,
        fold: false,
        fold_txstmt: false,
        constraints: Vec::new(),
        w_inner_f: 0,
        n_pub_f: 0,
        n_periodic_f: 0,
        is_zk: 0,
        cap_height: 6,
        narrow_arith: false,
        narrow_caps: false,
        narrow_openings: false,
        narrow_ov: false,
        lookup: None,
        txroot_dom: 0,
    }
}

} // verus!
