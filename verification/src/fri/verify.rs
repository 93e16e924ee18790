//! The whole low-degree test: the transcript's challenges, then every query.

use vstd::arithmetic::power2::pow2;
use vstd::prelude::*;

use crate::bits::shifted_one;
use crate::field::{x_same, Ext, MODULUS};
use crate::fri::input::{
    claims, coms_ok, input_ok, input_result, log_height, matrices_ok, open_input, rounds_ok, BatchOpening, InputError,
    MatrixClaim, MatrixView, Round, RoundView,
};
use crate::fri::merkle::{cap_ok, digests_ok};
use crate::fri::query::{
    eval_final_poly, final_point, final_query_point, fold_state, order_ok, poly_at, query_result, steps_ok,
    verify_query, CommitStep, FriParams, Opening, QueryError,
};
use crate::transcript::{
    after_sample, after_sample_ext, digest_felts, ext_felts, observed, observed_all, sampled, sampled_ext, sponge_ok,
    Challenger, SpongeView,
};

verus! {

/// What answers one query: the opened input rows and the commit-phase openings.
pub struct QueryProof {
    pub input: Vec<BatchOpening>,
    pub openings: Vec<Opening>,
}

/// A proof of low degree.
pub struct FriProof {
    pub commits: Vec<Vec<Vec<u64>>>,
    pub commit_pow: Vec<u64>,
    pub queries: Vec<QueryProof>,
    pub final_poly: Vec<Ext>,
    pub query_pow: u64,
}

/// Why a proof of low degree is refused.
#[derive(Clone, Copy, Debug, PartialEq, Eq, Structural)]
pub enum FriError {
    ZeroQueries,
    /// A query does not open every commit round.
    OpeningCount,
    /// The arities do not lead from the tallest matrix to the final polynomial.
    GlobalHeight,
    CommitPow,
    FinalPolyLength,
    QueryCount,
    QueryPow,
    Input(InputError),
    Query(QueryError),
    /// The last fold is not the final polynomial's value.
    FinalPoly,
}

/// The sum of the first `n` arities, as logarithms.
pub open spec fn arity_sum(openings: Seq<Opening>, n: nat) -> nat
    decreases n,
{
    if n == 0 {
        0
    } else {
        arity_sum(openings, (n - 1) as nat) + openings[n - 1].log_arity as nat
    }
}

/// The commit-phase openings of the first query, or none.
pub open spec fn first_openings(proof: FriProof) -> Seq<Opening> {
    if proof.queries@.len() == 0 {
        Seq::empty()
    } else {
        proof.queries@[0].openings@
    }
}

/// The logarithm of the size of the domain that the queries are drawn from.
pub open spec fn log_domain(params: FriParams, proof: FriProof) -> nat {
    arity_sum(first_openings(proof), first_openings(proof).len()) + params.log_blowup as nat
        + params.log_final_poly_len as nat
}

/// There is a matrix in the first `n` rounds.
pub open spec fn any_matrix(coms: Seq<RoundView>, n: nat) -> bool
    decreases n,
{
    n > 0 && (coms[n - 1].matrices.len() > 0 || any_matrix(coms, (n - 1) as nat))
}

/// The tallest matrix of the first `n` rounds.
pub open spec fn tallest_of(coms: Seq<RoundView>, log_blowup: usize, n: nat) -> nat
    decreases n,
{
    if n == 0 {
        0
    } else {
        let before = tallest_of(coms, log_blowup, (n - 1) as nat);
        let here = crate::fri::input::tallest(coms[n - 1].matrices, log_blowup, coms[n - 1].matrices.len());
        if here > before {
            here
        } else {
            before
        }
    }
}

/// A proof-of-work witness makes the next `bits` challenge bits zero.
pub open spec fn work_done(bits: usize, s: SpongeView, witness: u64) -> bool {
    bits == 0 || sampled(observed(s, witness)) as nat % pow2(bits as nat) == 0
}

/// The sponge after a proof of work. No bits ask for no work.
pub open spec fn after_work(bits: usize, s: SpongeView, witness: u64) -> SpongeView {
    if bits == 0 {
        s
    } else {
        after_sample(observed(s, witness))
    }
}

/// The sponge with the next round's commitment observed, after `r` rounds.
pub open spec fn committed(params: FriParams, proof: FriProof, s: SpongeView, r: nat) -> SpongeView {
    observed_all(after_rounds(params, proof, s, r), digest_felts(proof.commits@[r as int]@))
}

/// The sponge after `r` commit rounds.
pub open spec fn after_rounds(params: FriParams, proof: FriProof, s: SpongeView, r: nat) -> SpongeView
    decreases r,
{
    if r == 0 {
        s
    } else {
        let seen = observed_all(
            after_rounds(params, proof, s, (r - 1) as nat),
            digest_felts(proof.commits@[r - 1]@),
        );
        after_sample_ext(after_work(params.commit_pow_bits, seen, proof.commit_pow@[r - 1]))
    }
}

/// The fold challenge of a round.
pub open spec fn beta_of(params: FriParams, proof: FriProof, s: SpongeView, r: nat) -> Ext {
    sampled_ext(after_work(params.commit_pow_bits, committed(params, proof, s, r), proof.commit_pow@[r as int]))
}

/// How many rounds have both a commitment and a witness.
pub open spec fn round_count(proof: FriProof) -> nat {
    if proof.commits@.len() < proof.commit_pow@.len() {
        proof.commits@.len()
    } else {
        proof.commit_pow@.len()
    }
}

/// The arities of a query's openings, as felts.
pub open spec fn opening_arities(openings: Seq<Opening>) -> Seq<u64> {
    Seq::new(openings.len(), |i: int| openings[i].log_arity as u64)
}

/// The sponge that the query proof of work meets.
pub open spec fn before_queries(params: FriParams, proof: FriProof, s: SpongeView) -> SpongeView {
    observed_all(
        observed_all(after_rounds(params, proof, s, round_count(proof)), ext_felts(proof.final_poly@)),
        opening_arities(first_openings(proof)),
    )
}

/// The sponge after `n` samples.
pub open spec fn after_samples(s: SpongeView, n: nat) -> SpongeView
    decreases n,
{
    if n == 0 {
        s
    } else {
        after_sample(after_samples(s, (n - 1) as nat))
    }
}

/// The index of a query, drawn from a sponge.
pub open spec fn index_of(s: SpongeView, q: nat, log_global: nat) -> nat {
    sampled(after_samples(s, q)) as nat % pow2(log_global)
}

/// The commit-phase data of a query.
pub open spec fn steps_of<'a>(params: FriParams, proof: &'a FriProof, s: SpongeView, q: int) -> Seq<CommitStep<'a>> {
    Seq::new(
        round_count(*proof),
        |r: int|
            CommitStep {
                beta: beta_of(params, *proof, s, r as nat),
                commit: &proof.commits@[r],
                opening: &proof.queries@[q].openings@[r],
            },
    )
}

/// The fault of a query, if it has one. `s` is the sponge after the batching challenge `alpha`.
pub open spec fn query_error(
    params: FriParams,
    proof: FriProof,
    coms: Seq<RoundView>,
    alpha: Ext,
    s: SpongeView,
    q: int,
) -> Option<FriError> {
    let log_global = log_domain(params, proof);
    let index = index_of(
        after_work(params.query_pow_bits, before_queries(params, proof, s), proof.query_pow),
        q as nat,
        log_global,
    );
    match input_result(
        params.cap_height,
        params.log_blowup,
        log_global,
        index,
        alpha,
        proof.queries@[q].input@,
        coms,
    ) {
        Err(e) => Some(FriError::Input(e)),
        Ok(ro) => {
            let steps = steps_of(params, &proof, s, q);
            match query_result(
                params,
                steps,
                ro,
                index,
                log_global,
                (params.log_blowup + params.log_final_poly_len) as nat,
            ) {
                Err(e) => Some(FriError::Query(e)),
                Ok(folded) => {
                    let end = fold_state(params, steps, ro, index, log_global, steps.len()).index;
                    if x_same(poly_at(proof.final_poly@, final_point(end, log_global)), folded) {
                        None
                    } else {
                        Some(FriError::FinalPoly)
                    }
                },
            }
        },
    }
}

/// The first fault of the first `n` queries.
pub open spec fn queries_error(
    params: FriParams,
    proof: FriProof,
    coms: Seq<RoundView>,
    alpha: Ext,
    s: SpongeView,
    n: nat,
) -> Option<FriError>
    decreases n,
{
    if n == 0 {
        None
    } else {
        let before = queries_error(params, proof, coms, alpha, s, (n - 1) as nat);
        if before is Some {
            before
        } else {
            query_error(params, proof, coms, alpha, s, n - 1)
        }
    }
}

/// The fault of a proof of low degree, if it has one. `s` is the sponge that the batching challenge is drawn from.
pub open spec fn fri_error(params: FriParams, proof: FriProof, s: SpongeView, coms: Seq<RoundView>) -> Option<FriError> {
    let t = after_sample_ext(s);
    let queries = proof.queries@;
    if params.num_queries == 0 {
        Some(FriError::ZeroQueries)
    } else if exists|q: int| 0 <= q < queries.len() && (#[trigger] queries[q]).openings@.len() != proof.commits@.len() {
        Some(FriError::OpeningCount)
    } else if any_matrix(coms, coms.len()) && log_domain(params, proof) != tallest_of(
        coms,
        params.log_blowup,
        coms.len(),
    ) {
        Some(FriError::GlobalHeight)
    } else if exists|r: nat|
        r < round_count(proof) && !work_done(
            params.commit_pow_bits,
            #[trigger] committed(params, proof, t, r),
            proof.commit_pow@[r as int],
        ) {
        Some(FriError::CommitPow)
    } else if proof.final_poly@.len() != pow2(params.log_final_poly_len as nat) {
        Some(FriError::FinalPolyLength)
    } else if queries.len() != params.num_queries {
        Some(FriError::QueryCount)
    } else if !work_done(params.query_pow_bits, before_queries(params, proof, t), proof.query_pow) {
        Some(FriError::QueryPow)
    } else {
        queries_error(params, proof, coms, sampled_ext(s), t, queries.len())
    }
}

/// The sponge that an accepted proof leaves.
pub open spec fn after_fri(params: FriParams, proof: FriProof, s: SpongeView) -> SpongeView {
    after_samples(
        after_work(params.query_pow_bits, before_queries(params, proof, after_sample_ext(s)), proof.query_pow),
        proof.queries@.len(),
    )
}

/// The sponge before the first query: behind the work of the queries.
pub open spec fn query_sponge(params: FriParams, proof: FriProof, s: SpongeView) -> SpongeView {
    after_work(params.query_pow_bits, before_queries(params, proof, after_sample_ext(s)), proof.query_pow)
}

/// Round `r` is the first whose proof of work fails.
pub open spec fn first_idle_round(params: FriParams, proof: FriProof, t: SpongeView, r: nat) -> bool {
    &&& r < round_count(proof)
    &&& !work_done(params.commit_pow_bits, committed(params, proof, t, r), proof.commit_pow@[r as int])
    &&& forall|k: nat|
        k < r ==> work_done(
            params.commit_pow_bits,
            #[trigger] committed(params, proof, t, k),
            proof.commit_pow@[k as int],
        )
}

/// The sponge that a refused proof leaves: untouched without queries, else as far as the test came. A failed proof of
/// work has taken its witness in; a faulty query has drawn its index.
pub open spec fn left_by(
    params: FriParams,
    proof: FriProof,
    s: SpongeView,
    coms: Seq<RoundView>,
    e: FriError,
    out: SpongeView,
) -> bool {
    let t = after_sample_ext(s);
    match e {
        FriError::ZeroQueries => out == s,
        FriError::OpeningCount | FriError::GlobalHeight => out == t,
        FriError::CommitPow => exists|r: nat|
            #[trigger] first_idle_round(params, proof, t, r) && out == after_work(
                params.commit_pow_bits,
                committed(params, proof, t, r),
                proof.commit_pow@[r as int],
            ),
        FriError::FinalPolyLength => out == after_rounds(params, proof, t, round_count(proof)),
        FriError::QueryCount => out == observed_all(
            after_rounds(params, proof, t, round_count(proof)),
            ext_felts(proof.final_poly@),
        ),
        FriError::QueryPow => out == query_sponge(params, proof, s),
        FriError::Input(_) | FriError::Query(_) | FriError::FinalPoly => exists|k: nat|
            {
                &&& k < proof.queries@.len()
                &&& queries_error(params, proof, coms, sampled_ext(s), t, k) is None
                &&& query_error(params, proof, coms, sampled_ext(s), t, k as int) == Some(e)
                &&& out == #[trigger] after_samples(query_sponge(params, proof, s), k + 1)
            },
    }
}

/// The caps and paths of a proof are well formed.
pub open spec fn proof_ok(proof: FriProof) -> bool {
    &&& forall|r: int| 0 <= r < proof.commits@.len() ==> cap_ok((#[trigger] proof.commits@[r])@)
    &&& forall|q: int| 0 <= q < proof.queries@.len() ==> query_ok(#[trigger] proof.queries@[q])
}

pub open spec fn query_ok(qp: QueryProof) -> bool {
    &&& input_ok(qp.input@)
    &&& forall|r: int| 0 <= r < qp.openings@.len() ==> digests_ok((#[trigger] qp.openings@[r]).path@)
}

/// The bits of a proof of work are fewer than those of a challenge.
pub open spec fn work_ok(bits: usize) -> bool {
    pow2(bits as nat) <= usize::MAX && pow2(bits as nat) < MODULUS
}

/// The parameters are within the machine's and the field's limits.
pub open spec fn params_ok(params: FriParams) -> bool {
    &&& work_ok(params.commit_pow_bits)
    &&& work_ok(params.query_pow_bits)
    &&& pow2(params.log_final_poly_len as nat) <= usize::MAX
}

/// The field has the domain that the queries are drawn from, where the arities lead to the tallest matrix. Where
/// they do not, the proof is refused before a query is drawn.
pub open spec fn domains_ok(params: FriParams, proof: FriProof, coms: Seq<RoundView>) -> bool {
    any_matrix(coms, coms.len()) && log_domain(params, proof) != tallest_of(coms, params.log_blowup, coms.len())
        || order_ok(log_domain(params, proof))
}

/// A matrix of some round is at most as tall as the tallest.
proof fn lemma_tallest_bounds(coms: Seq<RoundView>, log_blowup: usize, n: nat)
    requires
        n <= coms.len(),
    ensures
        forall|b: int|
            0 <= b < n ==> matrices_ok((#[trigger] coms[b]).matrices, log_blowup, tallest_of(coms, log_blowup, n)),
    decreases n,
{
    if n > 0 {
        lemma_tallest_bounds(coms, log_blowup, (n - 1) as nat);
        let mats = coms[n - 1].matrices;
        lemma_tallest_in(mats, log_blowup, mats.len());
        assert forall|b: int| 0 <= b < n implies matrices_ok(
            (#[trigger] coms[b]).matrices,
            log_blowup,
            tallest_of(coms, log_blowup, n),
        ) by {
            if b < n - 1 {
                assert(matrices_ok(coms[b].matrices, log_blowup, tallest_of(coms, log_blowup, (n - 1) as nat)));
            }
        }
    }
}

proof fn lemma_tallest_in(mats: Seq<MatrixView>, log_blowup: usize, n: nat)
    requires
        n <= mats.len(),
    ensures
        forall|m: int|
            0 <= m < n ==> log_height(#[trigger] mats[m], log_blowup) <= crate::fri::input::tallest(mats, log_blowup, n),
    decreases n,
{
    if n > 0 {
        lemma_tallest_in(mats, log_blowup, (n - 1) as nat);
    }
}

/// Without a matrix there is nothing to bound.
proof fn lemma_no_matrix(coms: Seq<RoundView>, n: nat)
    requires
        n <= coms.len(),
        !any_matrix(coms, n),
    ensures
        forall|b: int| 0 <= b < n ==> (#[trigger] coms[b]).matrices.len() == 0,
    decreases n,
{
    if n > 0 {
        lemma_no_matrix(coms, (n - 1) as nat);
    }
}

/// The tallest matrix, or nothing where there is no matrix.
fn global_height(coms: &Vec<Round>, log_blowup: usize) -> (r: Option<u128>)
    ensures
        r is Some <==> any_matrix(claims(coms@), coms@.len()),
        r matches Some(h) ==> h == tallest_of(claims(coms@), log_blowup, coms@.len()),
{
    let mut top: u128 = 0;
    let mut any: bool = false;
    let mut b: usize = 0;
    while b < coms.len()
        invariant
            b <= coms@.len(),
            any == any_matrix(claims(coms@), b as nat),
            top == tallest_of(claims(coms@), log_blowup, b as nat),
        decreases coms.len() - b,
    {
        let mats: &Vec<MatrixClaim> = &coms[b].matrices;
        let ghost mv = claims(coms@)[b as int].matrices;
        let mut here: u128 = 0;
        let mut m: usize = 0;
        while m < mats.len()
            invariant
                m <= mats@.len(),
                b < coms@.len(),
                mats@ == coms@[b as int].matrices@,
                mv == claims(coms@)[b as int].matrices,
                here == crate::fri::input::tallest(mv, log_blowup, m as nat),
            decreases mats.len() - m,
        {
            let h: u128 = mats[m].log_size as u128 + log_blowup as u128;
            if h > here {
                here = h;
            }
            m += 1;
        }
        if here > top {
            top = here;
        }
        if mats.len() > 0 {
            any = true;
        }
        b += 1;
    }
    if any {
        Some(top)
    } else {
        None
    }
}

/// The sum of a query's arities, as logarithms.
fn sum_arities(openings: &Vec<Opening>) -> (r: u128)
    ensures
        r == arity_sum(openings@, openings@.len()),
        r <= 255 * usize::MAX,
{
    let len: usize = openings.len();
    let mut sum: u128 = 0;
    let mut i: usize = 0;
    while i < len
        invariant
            i <= len,
            len == openings@.len(),
            sum == arity_sum(openings@, i as nat),
            sum <= 255 * i,
        decreases len - i,
    {
        sum = sum + openings[i].log_arity as u128;
        i += 1;
    }
    sum
}

/// The logarithm of the size of the domain that the queries are drawn from.
fn domain_height(params: &FriParams, proof: &FriProof) -> (r: u128)
    ensures
        r == log_domain(*params, *proof),
{
    let sum: u128 = if proof.queries.len() == 0 {
        0
    } else {
        sum_arities(&proof.queries[0].openings)
    };
    sum + params.log_blowup as u128 + params.log_final_poly_len as u128
}

/// The fold challenges of the commit rounds, or nothing where a proof of work fails.
fn derive_betas(params: &FriParams, proof: &FriProof, challenger: &mut Challenger) -> (r: Option<Vec<Ext>>)
    requires
        params_ok(*params),
        sponge_ok(old(challenger)@),
    ensures
        sponge_ok(final(challenger)@),
        r is None <==> exists|k: nat|
            k < round_count(*proof) && !work_done(
                params.commit_pow_bits,
                #[trigger] committed(*params, *proof, old(challenger)@, k),
                proof.commit_pow@[k as int],
            ),
        r matches Some(betas) ==> {
            &&& final(challenger)@ == after_rounds(*params, *proof, old(challenger)@, round_count(*proof))
            &&& betas@ == Seq::new(
                round_count(*proof),
                |k: int| beta_of(*params, *proof, old(challenger)@, k as nat),
            )
        },
        r is None ==> exists|k: nat|
            #[trigger] first_idle_round(*params, *proof, old(challenger)@, k) && final(challenger)@ == after_work(
                params.commit_pow_bits,
                committed(*params, *proof, old(challenger)@, k),
                proof.commit_pow@[k as int],
            ),
{
    let ghost s = challenger@;
    let mut betas: Vec<Ext> = Vec::new();
    let mut k: usize = 0;
    while k < proof.commits.len() && k < proof.commit_pow.len()
        invariant
            s == old(challenger)@,
            k <= round_count(*proof),
            params_ok(*params),
            sponge_ok(challenger@),
            challenger@ == after_rounds(*params, *proof, s, k as nat),
            betas@.len() == k,
            forall|j: int| 0 <= j < k ==> #[trigger] betas@[j] == beta_of(*params, *proof, s, j as nat),
            forall|j: nat|
                j < k ==> work_done(
                    params.commit_pow_bits,
                    #[trigger] committed(*params, *proof, s, j),
                    proof.commit_pow@[j as int],
                ),
        decreases round_count(*proof) - k,
    {
        challenger.observe_cap(&proof.commits[k]);
        assert(challenger@ == committed(*params, *proof, s, k as nat));
        if !challenger.check_witness(params.commit_pow_bits, proof.commit_pow[k]) {
            assert(!work_done(
                params.commit_pow_bits,
                committed(*params, *proof, s, k as nat),
                proof.commit_pow@[k as int],
            ));
            assert(first_idle_round(*params, *proof, s, k as nat));
            return None;
        }
        betas.push(challenger.sample_ext());
        k += 1;
    }
    assert(betas@ =~= Seq::new(round_count(*proof), |j: int| beta_of(*params, *proof, s, j as nat)));
    Some(betas)
}

/// The commit-phase data of a query.
fn gather_steps<'a>(proof: &'a FriProof, betas: &Vec<Ext>, q: usize) -> (steps: Vec<CommitStep<'a>>)
    requires
        proof_ok(*proof),
        q < proof.queries@.len(),
        betas@.len() == round_count(*proof),
        proof.queries@[q as int].openings@.len() == proof.commits@.len(),
    ensures
        steps@ == Seq::new(
            round_count(*proof),
            |r: int|
                CommitStep {
                    beta: betas@[r],
                    commit: &proof.commits@[r],
                    opening: &proof.queries@[q as int].openings@[r],
                },
        ),
        steps_ok(steps@),
{
    let mut steps: Vec<CommitStep<'a>> = Vec::new();
    let mut r: usize = 0;
    while r < betas.len()
        invariant
            r <= betas@.len(),
            proof_ok(*proof),
            q < proof.queries@.len(),
            betas@.len() == round_count(*proof),
            proof.queries@[q as int].openings@.len() == proof.commits@.len(),
            steps@.len() == r,
            forall|k: int|
                0 <= k < r ==> (#[trigger] steps@[k]).beta == betas@[k] && *steps@[k].commit == proof.commits@[k]
                    && *steps@[k].opening == proof.queries@[q as int].openings@[k],
        decreases betas.len() - r,
    {
        steps.push(CommitStep { beta: betas[r], commit: &proof.commits[r], opening: &proof.queries[q].openings[r] });
        r += 1;
    }
    proof {
        assert(query_ok(proof.queries@[q as int]));
        assert forall|k: int| 0 <= k < steps@.len() implies cap_ok((#[trigger] steps@[k]).commit@) && digests_ok(
            steps@[k].opening.path@,
        ) by {
            assert(cap_ok(proof.commits@[k]@));
            assert(digests_ok(proof.queries@[q as int].openings@[k].path@));
        }
        assert(steps@ =~= Seq::new(
            round_count(*proof),
            |r: int|
                CommitStep {
                    beta: betas@[r],
                    commit: &proof.commits@[r],
                    opening: &proof.queries@[q as int].openings@[r],
                },
        ));
    }
    steps
}

/// One query: its input, its fold, and the final polynomial's value.
fn check_query(
    params: &FriParams,
    proof: &FriProof,
    coms: &Vec<Round>,
    alpha: Ext,
    betas: &Vec<Ext>,
    log_global: usize,
    index: usize,
    q: usize,
    Ghost(s): Ghost<SpongeView>,
) -> (error: Option<FriError>)
    requires
        proof_ok(*proof),
        q < proof.queries@.len(),
        proof.queries@[q as int].openings@.len() == proof.commits@.len(),
        log_global == log_domain(*params, *proof),
        order_ok(log_global as nat),
        rounds_ok(coms@),
        coms_ok(claims(coms@), params.log_blowup, log_global as nat),
        params.log_blowup + params.log_final_poly_len <= usize::MAX,
        betas@ == Seq::new(round_count(*proof), |k: int| beta_of(*params, *proof, s, k as nat)),
        index == index_of(
            after_work(params.query_pow_bits, before_queries(*params, *proof, s), proof.query_pow),
            q as nat,
            log_global as nat,
        ),
    ensures
        error == query_error(*params, *proof, claims(coms@), alpha, s, q as int),
{
    assert(query_ok(proof.queries@[q as int]));
    let ro: Vec<(usize, Ext)> = match open_input(params, log_global, index, &proof.queries[q].input, alpha, coms) {
        Err(e) => {
            return Some(FriError::Input(e));
        },
        Ok(ro) => ro,
    };
    let steps: Vec<CommitStep> = gather_steps(proof, betas, q);
    assert(steps@ =~= steps_of(*params, proof, s, q as int));
    let mut domain_index: usize = index;
    let folded: Ext = match verify_query(
        params,
        &mut domain_index,
        &steps,
        &ro,
        log_global,
        params.log_blowup + params.log_final_poly_len,
    ) {
        Err(e) => {
            return Some(FriError::Query(e));
        },
        Ok(v) => v,
    };
    let x: Ext = final_query_point(domain_index, log_global);
    if eval_final_poly(&proof.final_poly, x).same(folded) {
        None
    } else {
        Some(FriError::FinalPoly)
    }
}

/// A refused proof stays refused.
proof fn lemma_first_query_fault(
    params: FriParams,
    proof: FriProof,
    coms: Seq<RoundView>,
    alpha: Ext,
    s: SpongeView,
    m: nat,
    n: nat,
)
    requires
        m <= n,
    ensures
        queries_error(params, proof, coms, alpha, s, m) is Some ==> queries_error(params, proof, coms, alpha, s, n)
            == queries_error(params, proof, coms, alpha, s, m),
    decreases n,
{
    if m < n {
        lemma_first_query_fault(params, proof, coms, alpha, s, m, (n - 1) as nat);
    }
}

/// The low-degree test. The batching challenge and, per round, the fold challenge are drawn; then every query's
/// rows are opened and reduced, folded down the commit phase and compared with the final polynomial.
pub fn verify_fri_native(
    params: &FriParams,
    fri_proof: &FriProof,
    challenger: &mut Challenger,
    coms: &Vec<Round>,
) -> (r: Result<(), FriError>)
    requires
        params_ok(*params),
        proof_ok(*fri_proof),
        rounds_ok(coms@),
        domains_ok(*params, *fri_proof, claims(coms@)),
        sponge_ok(old(challenger)@),
    ensures
        r is Ok <==> fri_error(*params, *fri_proof, old(challenger)@, claims(coms@)) is None,
        r matches Err(e) ==> fri_error(*params, *fri_proof, old(challenger)@, claims(coms@)) == Some(e),
        r is Ok ==> final(challenger)@ == after_fri(*params, *fri_proof, old(challenger)@),
        r matches Err(e) ==> left_by(
            *params,
            *fri_proof,
            old(challenger)@,
            claims(coms@),
            e,
            final(challenger)@,
        ),
        sponge_ok(final(challenger)@),
{
    if params.num_queries == 0 {
        return Err(FriError::ZeroQueries);
    }
    let alpha: Ext = challenger.sample_ext();
    let ghost t = challenger@;
    let mut q: usize = 0;
    while q < fri_proof.queries.len()
        invariant
            q <= fri_proof.queries@.len(),
            params.num_queries > 0,
            sponge_ok(challenger@),
            challenger@ == after_sample_ext(old(challenger)@),
            forall|k: int|
                0 <= k < q ==> (#[trigger] fri_proof.queries@[k]).openings@.len() == fri_proof.commits@.len(),
        decreases fri_proof.queries.len() - q,
    {
        if fri_proof.queries[q].openings.len() != fri_proof.commits.len() {
            assert(fri_proof.queries@[q as int].openings@.len() != fri_proof.commits@.len());
            return Err(FriError::OpeningCount);
        }
        q += 1;
    }
    let height: u128 = domain_height(params, fri_proof);
    if let Some(e) = global_height(coms, params.log_blowup) {
        if height != e {
            return Err(FriError::GlobalHeight);
        }
    }
    let log_global: usize = height as usize;
    proof {
        assert(order_ok(log_global as nat));
        if any_matrix(claims(coms@), coms@.len()) {
            lemma_tallest_bounds(claims(coms@), params.log_blowup, coms@.len());
        } else {
            lemma_no_matrix(claims(coms@), coms@.len());
        }
        assert(coms_ok(claims(coms@), params.log_blowup, log_global as nat));
    }
    let betas: Vec<Ext> = match derive_betas(params, fri_proof, challenger) {
        None => {
            return Err(FriError::CommitPow);
        },
        Some(b) => b,
    };
    if fri_proof.final_poly.len() != shifted_one(params.log_final_poly_len) {
        return Err(FriError::FinalPolyLength);
    }
    challenger.observe_ext_slice(&fri_proof.final_poly);
    if fri_proof.queries.len() != params.num_queries {
        return Err(FriError::QueryCount);
    }
    let arities: Vec<u64> = arity_felts_of(&fri_proof.queries[0].openings);
    challenger.observe_slice(&arities);
    assert(challenger@ == before_queries(*params, *fri_proof, t));
    if !challenger.check_witness(params.query_pow_bits, fri_proof.query_pow) {
        return Err(FriError::QueryPow);
    }
    let ghost u = challenger@;
    let mut k: usize = 0;
    while k < fri_proof.queries.len()
        invariant
            k <= fri_proof.queries@.len(),
            proof_ok(*fri_proof),
            forall|j: int|
                0 <= j < fri_proof.queries@.len() ==> (#[trigger] fri_proof.queries@[j]).openings@.len()
                    == fri_proof.commits@.len(),
            log_global == log_domain(*params, *fri_proof),
            order_ok(log_global as nat),
            params.log_blowup + params.log_final_poly_len <= log_global,
            rounds_ok(coms@),
            coms_ok(claims(coms@), params.log_blowup, log_global as nat),
            betas@ == Seq::new(round_count(*fri_proof), |j: int| beta_of(*params, *fri_proof, t, j as nat)),
            u == after_work(params.query_pow_bits, before_queries(*params, *fri_proof, t), fri_proof.query_pow),
            t == after_sample_ext(old(challenger)@),
            alpha == sampled_ext(old(challenger)@),
            challenger@ == after_samples(u, k as nat),
            sponge_ok(challenger@),
            queries_error(*params, *fri_proof, claims(coms@), alpha, t, k as nat) is None,
            fri_error(*params, *fri_proof, old(challenger)@, claims(coms@)) == queries_error(
                *params,
                *fri_proof,
                claims(coms@),
                alpha,
                t,
                fri_proof.queries@.len(),
            ),
        decreases fri_proof.queries.len() - k,
    {
        proof {
            crate::bits::lemma_pow2_monotone(log_global as nat, 32);
            vstd::arithmetic::power2::lemma2_to64();
        }
        let index: usize = challenger.sample_bits(log_global);
        proof {
            lemma_first_query_fault(
                *params,
                *fri_proof,
                claims(coms@),
                alpha,
                t,
                (k + 1) as nat,
                fri_proof.queries@.len(),
            );
            assert(fri_proof.queries@[k as int].openings@.len() == fri_proof.commits@.len());
        }
        if let Some(e) = check_query(params, fri_proof, coms, alpha, &betas, log_global, index, k, Ghost(t)) {
            assert(challenger@ == after_samples(query_sponge(*params, *fri_proof, old(challenger)@), (k + 1) as nat));
            return Err(e);
        }
        k += 1;
    }
    Ok(())
}

/// The arities of a query's openings, as felts.
fn arity_felts_of(openings: &Vec<Opening>) -> (r: Vec<u64>)
    ensures
        r@ == opening_arities(openings@),
{
    let mut r: Vec<u64> = Vec::new();
    let mut i: usize = 0;
    while i < openings.len()
        invariant
            i <= openings@.len(),
            r@ =~= opening_arities(openings@).take(i as int),
        decreases openings.len() - i,
    {
        r.push(openings[i].log_arity as u64);
        i += 1;
    }
    assert(r@ =~= opening_arities(openings@));
    r
}

} // verus!
