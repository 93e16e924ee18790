//! How many rows a fused verifier needs for an inner proof: a generous estimate from the proof's shape alone.

use vstd::arithmetic::power2::pow2;
use vstd::prelude::*;

use super::layout::{min_sub, min_usize, s_min, s_min_sub, MonolithAir, BLOCK, DIGEST, LOG_BLOWUP, RATE};
use crate::bits::{div_ceil, div_up, next_pow2, next_power_of_two, shifted_one};
use crate::fri::verify::{arity_sum, first_openings};
use crate::stark::verify::StarkProof;

verus! {

/// The shape of an inner proof.
pub struct InnerGeometry {
    pub degree_bits: usize,
    pub log_global_max_height: usize,
    pub num_rounds: usize,
    pub log_arities: Vec<usize>,
    pub num_queries: usize,
    pub num_quotient_chunks: usize,
    pub trace_width: usize,
    pub cap_height: usize,
}

/// The shape of a proof, read off it: the arities of its first query give the query space.
pub fn introspect_geometry(proof: &StarkProof, cap_height: usize) -> (g: InnerGeometry)
    requires
        arity_sum(first_openings(proof.opening), first_openings(proof.opening).len()) + LOG_BLOWUP <= usize::MAX,
    ensures
        g.degree_bits == proof.degree_bits,
        g.log_global_max_height == arity_sum(first_openings(proof.opening), first_openings(proof.opening).len())
            + LOG_BLOWUP,
        g.num_rounds == proof.opening.commits@.len(),
        g.log_arities@ == Seq::new(
            first_openings(proof.opening).len(),
            |r: int| first_openings(proof.opening)[r].log_arity as usize,
        ),
        g.num_queries == proof.opening.queries@.len(),
        g.num_quotient_chunks == proof.quotient_chunks@.len(),
        g.trace_width == proof.trace_local@.len(),
        g.cap_height == cap_height,
{
    let ghost first = first_openings(proof.opening);
    let mut log_arities: Vec<usize> = Vec::new();
    let mut total: usize = 0;
    if proof.opening.queries.len() > 0 {
        let openings = &proof.opening.queries[0].openings;
        let mut r: usize = 0;
        while r < openings.len()
            invariant
                r <= openings@.len(),
                openings@ == first,
                total == arity_sum(first, r as nat),
                arity_sum(first, first.len()) + LOG_BLOWUP <= usize::MAX,
                log_arities@ =~= Seq::new(r as nat, |k: int| first[k].log_arity as usize),
            decreases openings.len() - r,
        {
            proof {
                lemma_sum_grows(first, (r + 1) as nat, first.len());
            }
            total = total + openings[r].log_arity as usize;
            log_arities.push(openings[r].log_arity as usize);
            r += 1;
        }
    }
    InnerGeometry {
        degree_bits: proof.degree_bits,
        log_global_max_height: total + LOG_BLOWUP,
        num_rounds: proof.opening.commits.len(),
        log_arities,
        num_queries: proof.opening.queries.len(),
        num_quotient_chunks: proof.quotient_chunks.len(),
        trace_width: proof.trace_local.len(),
        cap_height,
    }
}

proof fn lemma_sum_grows(openings: Seq<crate::fri::query::Opening>, m: nat, n: nat)
    requires
        m <= n,
    ensures
        arity_sum(openings, m) <= arity_sum(openings, n),
    decreases n,
{
    if m < n {
        lemma_sum_grows(openings, m, (n - 1) as nat);
    }
}

/// Blocks that take in a run of felts, at least one.
pub open spec fn absorb_blocks(felts: int) -> int {
    if felts <= RATE {
        1
    } else {
        div_up(felts, RATE as int)
    }
}

impl InnerGeometry {
    /// Felts of a cap over 2^log_h rows.
    pub open spec fn s_cap_felts(&self, log_h: int) -> int {
        (pow2(s_min(self.cap_height as int, log_h) as nat) * DIGEST) as int
    }

    /// Levels of a tree of 2^log_h rows below its cap.
    pub open spec fn s_depth(&self, log_h: int) -> int {
        s_min_sub(log_h, self.cap_height as int)
    }

    /// The height after `r` folds.
    pub open spec fn s_height_after(&self, r: nat) -> int
        decreases r,
    {
        if r == 0 {
            self.log_global_max_height as int
        } else {
            self.s_height_after((r - 1) as nat) - self.log_arities@[r - 1]
        }
    }

    /// Blocks of the first `n` commit caps in the transcript.
    pub open spec fn s_cap_blocks(&self, n: nat) -> int
        decreases n,
    {
        if n == 0 {
            0
        } else {
            self.s_cap_blocks((n - 1) as nat) + absorb_blocks(self.s_cap_felts(self.s_height_after(n)))
        }
    }

    /// Blocks of the transcript: the instance, the caps of the trace and the quotient, the commit caps, the final
    /// polynomial, the arities, and one per query.
    pub open spec fn s_transcript_blocks(&self) -> int {
        absorb_blocks(3 + self.trace_width) + 2 * absorb_blocks(self.s_cap_felts(self.log_global_max_height as int))
            + self.s_cap_blocks(self.log_arities@.len()) + absorb_blocks(2) + absorb_blocks(self.num_rounds as int)
            + self.num_queries
    }

    /// Blocks of the first `n` commit rounds of a query: the group's leaf, its path, the fold and the cap membership.
    pub open spec fn s_round_blocks(&self, n: nat) -> int
        decreases n,
    {
        if n == 0 {
            0
        } else {
            self.s_round_blocks((n - 1) as nat) + absorb_blocks((pow2(self.log_arities@[n - 1] as nat) * 2) as int)
                + self.s_depth(self.s_height_after(n)) + 2
        }
    }

    /// Blocks of a query: the trace opening, the quotient opening, the commit rounds, and the reduced opening.
    pub open spec fn s_query_blocks(&self) -> int {
        let depth = self.s_depth(self.log_global_max_height as int);
        (absorb_blocks(self.trace_width as int) + depth + 1) + (absorb_blocks(2 * self.num_quotient_chunks) + depth + 1)
            + self.s_round_blocks(self.log_arities@.len()) + (4 + self.num_rounds)
    }

    /// Rows of the estimate before they are padded.
    pub open spec fn s_total_rows(&self) -> int {
        (self.s_transcript_blocks() + self.num_queries * self.s_query_blocks() + 8) * BLOCK
    }

    /// The folds stay within the query space, and the estimate can be counted.
    pub open spec fn countable(&self) -> bool {
        &&& self.s_height_after(self.log_arities@.len()) >= 0
        &&& forall|r: int| 0 <= r < self.log_arities@.len() ==> pow2(#[trigger] self.log_arities@[r] as nat) * 2 <= usize::MAX
        &&& self.s_cap_felts(self.log_global_max_height as int) <= usize::MAX
        &&& 3 + self.trace_width <= usize::MAX
        &&& 2 * self.num_quotient_chunks <= usize::MAX
        &&& self.s_query_blocks() <= usize::MAX
        &&& self.s_total_rows() <= usize::MAX
        &&& next_pow2(self.s_total_rows() as nat) <= usize::MAX
    }

    proof fn lemma_heights(&self, m: nat, n: nat)
        requires
            m <= n <= self.log_arities@.len(),
        ensures
            self.s_height_after(n) <= self.s_height_after(m) <= self.log_global_max_height,
            0 <= self.s_cap_blocks(m) <= self.s_cap_blocks(n),
            0 <= self.s_height_after(n) ==> 0 <= self.s_round_blocks(m) <= self.s_round_blocks(n),
        decreases n,
    {
        if n > 0 {
            if m < n {
                self.lemma_heights(m, (n - 1) as nat);
            } else {
                self.lemma_heights((m - 1) as nat, (n - 1) as nat);
            }
        }
    }

    /// A cap over fewer rows is no larger.
    proof fn lemma_cap_shrinks(&self, a: int, b: int)
        requires
            0 <= a <= b,
        ensures
            0 < self.s_cap_felts(a) <= self.s_cap_felts(b),
    {
        let (x, y) = (s_min(self.cap_height as int, a) as nat, s_min(self.cap_height as int, b) as nat);
        crate::bits::lemma_pow2_monotone(x, y);
        vstd::arithmetic::power2::lemma_pow2_pos(x);
    }

    fn cap_felts(&self, log_h: usize) -> (r: usize)
        requires
            self.s_cap_felts(log_h as int) <= usize::MAX,
        ensures
            r == self.s_cap_felts(log_h as int),
    {
        proof {
            vstd::arithmetic::power2::lemma_pow2_pos(s_min(self.cap_height as int, log_h as int) as nat);
        }
        shifted_one(min_usize(self.cap_height, log_h)) * DIGEST
    }
}

/// Blocks that take in a run of felts, at least one.
fn blocks_of(felts: usize) -> (r: usize)
    ensures
        r == absorb_blocks(felts as int),
        r <= felts || r == 1,
{
    if felts <= RATE {
        1
    } else {
        div_ceil(felts, RATE)
    }
}

/// The estimated height of the fused verifier's trace for a proof of this shape.
pub fn monolith_trace_height(g: &InnerGeometry) -> (h: usize)
    requires
        g.countable(),
    ensures
        h == next_pow2(g.s_total_rows() as nat),
{
    let rounds: usize = g.log_arities.len();
    proof {
        g.lemma_heights(0, rounds as nat);
        assert(0 <= g.num_queries * g.s_query_blocks()) by (nonlinear_arith)
            requires
                g.num_queries >= 0,
                g.s_query_blocks() >= 0,
        ;
    }
    let mut caps: usize = 0;
    let mut opened: usize = 0;
    let mut height: usize = g.log_global_max_height;
    let mut r: usize = 0;
    while r < rounds
        invariant
            r <= rounds,
            rounds == g.log_arities@.len(),
            g.countable(),
            0 <= g.num_queries * g.s_query_blocks(),
            height == g.s_height_after(r as nat),
            caps == g.s_cap_blocks(r as nat),
            opened == g.s_round_blocks(r as nat),
        decreases rounds - r,
    {
        proof {
            g.lemma_heights((r + 1) as nat, rounds as nat);
            g.lemma_cap_shrinks(g.s_height_after((r + 1) as nat), g.log_global_max_height as int);
            vstd::arithmetic::power2::lemma_pow2_pos(g.log_arities@[r as int] as nat);
            assert(pow2(g.log_arities@[r as int] as nat) * 2 <= usize::MAX);
        }
        let la: usize = g.log_arities[r];
        height = height - la;
        caps = caps + blocks_of(g.cap_felts(height));
        let group: usize = shifted_one(la) * 2;
        opened = opened + blocks_of(group) + min_sub(height, g.cap_height) + 2;
        r += 1;
    }
    let cap: usize = blocks_of(g.cap_felts(g.log_global_max_height));
    let transcript: usize = blocks_of(3 + g.trace_width) + cap + cap + caps + blocks_of(2) + blocks_of(g.num_rounds)
        + g.num_queries;
    let depth: usize = min_sub(g.log_global_max_height, g.cap_height);
    let per_query: usize = (blocks_of(g.trace_width) + depth + 1) + (blocks_of(g.num_quotient_chunks * 2) + depth + 1)
        + opened + (4 + g.num_rounds);
    next_power_of_two((transcript + g.num_queries * per_query + 8) * BLOCK)
}

/// A shape is that of a verifier's inner, folded by two in every round.
pub open spec fn shape_of(g: InnerGeometry, air: MonolithAir) -> bool {
    &&& air.wf()
    &&& air.is_zk == 0
    &&& air.lookup is None
    &&& g.num_rounds == air.s_cm_rounds()
    &&& g.log_arities@.len() == air.s_cm_rounds()
    &&& forall|r: int| 0 <= r < g.log_arities@.len() ==> #[trigger] g.log_arities@[r] == 1
    &&& g.log_global_max_height == air.s_lg()
    &&& g.cap_height == air.cap_height
    &&& g.num_queries == air.n_queries
    &&& g.trace_width == air.s_w_inner()
    &&& g.num_quotient_chunks == air.s_nqc()
}

/// The estimate against the verifier that it is for: every query has room for its super-tile, three blocks more per round
/// and five besides; the transcript has a block for every entry of the caps, and blocks for the instance, the final
/// constant, the arities and the queries; eight blocks are left over.
#[verifier::rlimit(30)]
pub proof fn law_estimate_has_room(g: InnerGeometry, air: MonolithAir)
    requires
        shape_of(g, air),
    ensures
        g.s_query_blocks() == air.s_m_nblocks() + 3 * air.s_cm_rounds() + 5,
        4 * (g.s_transcript_blocks() - absorb_blocks(3 + air.s_w_inner()) - absorb_blocks(air.s_cm_rounds())
            - air.n_queries - 1) == 2 * (4 * pow2(air.cap_height as nat)) + air.s_caps_before(air.s_cm_rounds()),
        g.s_total_rows() == 32 * (g.s_transcript_blocks() + air.n_queries * g.s_query_blocks() + 8),
        air.n_queries * air.s_m_period() < g.s_total_rows(),
{
    let n = g.log_arities@.len();
    air.lemma_bounds();
    lemma_rounds_match(g, air, n);
    lemma_cap_block(air.cap_height as nat);
    air.lemma_caps_monotone(0, n as int);
    let (q, b, m) = (air.n_queries as int, g.s_query_blocks(), air.s_m_nblocks());
    assert(q * (m * 32) <= 32 * (q * b)) by (nonlinear_arith)
        requires
            q >= 0,
            0 <= m <= b,
    ;
    assert(g.s_transcript_blocks() >= 0);
}

/// A cap takes a block for every entry.
proof fn lemma_cap_block(bits: nat)
    ensures
        absorb_blocks((pow2(bits) * DIGEST) as int) == pow2(bits),
        pow2(bits) >= 1,
{
    vstd::arithmetic::power2::lemma_pow2_pos(bits);
}

/// The first rounds of the estimate against those of the verifier.
proof fn lemma_rounds_match(g: InnerGeometry, air: MonolithAir, n: nat)
    requires
        shape_of(g, air),
        n <= g.log_arities@.len(),
    ensures
        g.s_height_after(n) == air.s_lg() - n,
        g.s_round_blocks(n) == air.s_rounds_before(n as int) + 2 * n,
        4 * g.s_cap_blocks(n) == air.s_caps_before(n as int),
    decreases n,
{
    if n > 0 {
        lemma_rounds_match(g, air, (n - 1) as nat);
        assert(g.log_arities@[n - 1] == 1);
        vstd::arithmetic::power2::lemma2_to64();
        lemma_cap_block(air.s_commit_bits(n - 1) as nat);
    }
}

} // verus!
