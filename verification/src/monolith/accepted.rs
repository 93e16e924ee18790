//! What the verification of a proof says of each of its queries: the opened rows and fold groups lie under the caps,
//! and the folds end in the final constant.

use vstd::arithmetic::power2::pow2;
use vstd::prelude::*;

use super::layout::{s_cm_depth_at, LOG_BLOWUP};
use super::window::{
    index_under, law_window_is_verification, lemma_pair_steps, lemma_steps_shaped, point_under, proof_shaped,
    query_shaped, space_of, steps_under, terms_under, window_challenges, window_felts,
};
use crate::bits::ceil_log2;
use crate::field::{x_add, x_mul, x_red, x_same, x_zero, Ext};
use crate::fri::input::{
    batch_dims, batch_error, batch_has, batches_error, input_has, input_result, log_height, opening_at, openings_below,
    reduced, tallest, MatrixView,
};
use crate::fri::merkle::{climbed, contents, joined, level, path_depth, reduced_digest};
use crate::fri::query::{
    final_point, fold_state, group_opens, lemma_ceil_log2_pow2, lemma_stays_refused, poly_at, query_result, round_group, round_next,
    CommitStep, FriParams,
};
use crate::fri::verify::{
    after_work, any_matrix, before_queries, beta_of, index_of, log_domain, queries_error, query_error, steps_of,
    tallest_of,
};
use crate::fri::witness::{chain_eval, chain_group, chain_index, law_chain_is_query, log_arity};
use crate::poseidon::leaf_hash;
use crate::stark::verify::{chunk_count, fri_sponge, proof_claims, stark_error, stark_zeta, InnerAir, StarkProof};
use crate::transcript::{after_sample_ext, ext_felts, sampled_ext};

verus! {

/// A query whose rows and fold groups lie under the caps and whose folds end in the final constant.
pub open spec fn query_opens(
    inner: InnerAir,
    proof: StarkProof,
    chs: Seq<Ext>,
    felt: u64,
    q: int,
    cap_height: int,
) -> bool {
    let lg = space_of(proof) as nat;
    let index = index_under(proof, felt);
    let qp = proof.opening.queries@[q];
    let steps = steps_under(chs, &proof.opening, q);
    let ro = reduced(chs[2], point_under(proof, felt), terms_under(inner, proof, chs, q));
    let depth = (lg - cap_height) as nat;
    let top = (index / pow2(depth)) as int;
    &&& reduced_digest(proof.trace_commit@[top]@) == climbed(
        leaf_hash(joined(contents(qp.input@[0].rows@))),
        contents(qp.input@[0].path@),
        index,
        depth,
    )
    &&& reduced_digest(proof.quotient_commit@[top]@) == climbed(
        leaf_hash(joined(contents(qp.input@[1].rows@))),
        contents(qp.input@[1].path@),
        index,
        depth,
    )
    &&& forall|r: int| 0 <= r < steps.len() ==> #[trigger] round_opens(steps, ro, index, lg, cap_height, r)
    &&& x_same(proof.opening.final_poly@[0], chain_eval(steps, ro, index, lg, steps.len()))
}

/// The group of round `r` lies under the round's cap.
pub open spec fn round_opens(
    steps: Seq<CommitStep>,
    ro: Ext,
    index: nat,
    lg: nat,
    cap_height: int,
    r: int,
) -> bool {
    let at = chain_index(steps, index, (r + 1) as nat);
    let depth = s_cm_depth_at(r, lg as int, cap_height) as nat;
    reduced_digest(steps[r].commit@[(at / pow2(depth)) as int]@) == climbed(
        leaf_hash(ext_felts(chain_group(steps, index, chain_eval(steps, ro, index, lg, r as nat), r as nat))),
        contents(steps[r].opening.path@),
        at,
        depth,
    )
}

/// The parameters that the fused verifier follows: the blowup, the caps, a constant at the end, no work per round.
pub open spec fn params_follow(params: FriParams, cap_height: int) -> bool {
    &&& params.log_blowup == LOG_BLOWUP
    &&& params.log_final_poly_len == 0
    &&& params.cap_height == cap_height
    &&& params.commit_pow_bits == 0
    &&& params.query_pow_bits > 0
}

/// No fault in all queries is none in each.
proof fn lemma_each_query(params: FriParams, inner: InnerAir, proof: StarkProof, zeta: Ext, alpha: Ext, s: crate::transcript::SpongeView, n: nat, q: int)
    requires
        queries_error(params, proof.opening, proof_claims(inner, proof, zeta), alpha, s, n) is None,
        0 <= q < n,
    ensures
        query_error(params, proof.opening, proof_claims(inner, proof, zeta), alpha, s, q) is None,
    decreases n,
{
    if q < n - 1 {
        lemma_each_query(params, inner, proof, zeta, alpha, s, (n - 1) as nat, q);
    }
}

/// Both rounds of a shaped proof have matrices of the query space's height alone.
proof fn lemma_one_height(mats: Seq<MatrixView>, lg: nat, h: nat, n: nat)
    requires
        n <= mats.len(),
        forall|i: int| 0 <= i < mats.len() ==> log_height(#[trigger] mats[i], LOG_BLOWUP) == lg,
    ensures
        n > 0 ==> tallest(mats, LOG_BLOWUP, n) == lg,
        batch_has(mats, LOG_BLOWUP, h, n) <==> n > 0 && h == lg,
    decreases n,
{
    reveal_with_fuel(tallest, 2);
    if n > 0 {
        lemma_one_height(mats, lg, h, (n - 1) as nat);
        assert(log_height(mats[n - 1], LOG_BLOWUP) == lg);
    }
}

/// The claims of a shaped proof: where their matrices stand.
proof fn lemma_claims(inner: InnerAir, proof: StarkProof, pvs: Seq<u64>, cap_height: int, zeta: Ext, h: nat)
    requires
        proof_shaped(inner, proof, pvs, cap_height),
    ensures
        ({
            let coms = proof_claims(inner, proof, zeta);
            let lg = space_of(proof) as nat;
            &&& coms.len() == 2
            &&& forall|b: int, i: int|
                0 <= b < 2 && 0 <= i < coms[b].matrices.len() ==> log_height(
                    #[trigger] coms[b].matrices[i],
                    LOG_BLOWUP,
                ) == lg
            &&& coms[0].matrices.len() == 1
            &&& coms[1].matrices.len() == proof.quotient_chunks@.len() > 0
            &&& any_matrix(coms, 2)
            &&& tallest_of(coms, LOG_BLOWUP, 2) == lg
            &&& input_has(coms, LOG_BLOWUP, h, 2) <==> h == lg
        }),
{
    let coms = proof_claims(inner, proof, zeta);
    let lg = space_of(proof) as nat;
    vstd::arithmetic::power2::lemma_pow2_pos(inner.log_chunks as nat);
    assert(chunk_count(inner, proof) == proof.quotient_chunks@.len());
    assert forall|b: int, i: int| 0 <= b < 2 && 0 <= i < coms[b].matrices.len() implies log_height(
        #[trigger] coms[b].matrices[i],
        LOG_BLOWUP,
    ) == lg by {
        assert(b == 0 || b == 1);
    }
    lemma_one_height(coms[0].matrices, lg, h, 1);
    lemma_one_height(coms[1].matrices, lg, h, coms[1].matrices.len());
    reveal_with_fuel(any_matrix, 3);
    reveal_with_fuel(tallest_of, 3);
    reveal_with_fuel(input_has, 3);
}

/// Below the query space no height has an opening.
proof fn lemma_none_below(
    inner: InnerAir,
    proof: StarkProof,
    pvs: Seq<u64>,
    cap_height: int,
    chs: Seq<Ext>,
    index: nat,
    q: int,
    top: nat,
)
    requires
        proof_shaped(inner, proof, pvs, cap_height),
        top <= space_of(proof),
    ensures
        openings_below(
            LOG_BLOWUP,
            space_of(proof) as nat,
            index,
            chs[2],
            proof.opening.queries@[q].input@,
            proof_claims(inner, proof, chs[1]),
            top,
        ).len() == 0,
    decreases top,
{
    if top > 0 {
        lemma_none_below(inner, proof, pvs, cap_height, chs, index, q, (top - 1) as nat);
        lemma_claims(inner, proof, pvs, cap_height, chs[1], (top - 1) as nat);
    }
}

/// A batch that opens is a path under its cap.
#[verifier::spinoff_prover]
#[verifier::rlimit(40)]
proof fn lemma_batch_path(
    params: FriParams,
    inner: InnerAir,
    proof: StarkProof,
    pvs: Seq<u64>,
    cap_height: int,
    zeta: Ext,
    index: nat,
    q: int,
    b: int,
)
    requires
        proof_shaped(inner, proof, pvs, cap_height),
        params_follow(params, cap_height),
        0 <= q < proof.opening.queries@.len(),
        0 <= b < 2,
        batch_error(
            params.cap_height,
            params.log_blowup,
            space_of(proof) as nat,
            index,
            proof.opening.queries@[q].input@[b],
            proof_claims(inner, proof, zeta)[b],
        ) is None,
    ensures
        ({
            let depth = (space_of(proof) - cap_height) as nat;
            let cap = proof_claims(inner, proof, zeta)[b].commit;
            let o = proof.opening.queries@[q].input@[b];
            reduced_digest(cap[(index / pow2(depth)) as int]) == climbed(
                leaf_hash(joined(contents(o.rows@))),
                contents(o.path@),
                index,
                depth,
            )
        }),
{
    let lg = space_of(proof) as nat;
    let coms = proof_claims(inner, proof, zeta);
    let mats = coms[b].matrices;
    lemma_claims(inner, proof, pvs, cap_height, zeta, lg);
    assert forall|i: int| 0 <= i < mats.len() implies log_height(#[trigger] mats[i], LOG_BLOWUP) == lg by {
        assert(log_height(coms[b].matrices[i], LOG_BLOWUP) == lg);
    }
    lemma_one_height(mats, lg, lg, mats.len());
    let dims = batch_dims(mats, LOG_BLOWUP);
    vstd::arithmetic::power2::lemma2_to64();
    assert(index / pow2(0) == index) by {
        vstd::arithmetic::div_mod::lemma_div_basics(index as int);
    }
    assert(pow2(lg) as usize == pow2(lg));
    lemma_ceil_log2_pow2(lg);
    assert(level(dims)) by {
        assert forall|i: int| 0 <= i < dims.len() implies (#[trigger] dims[i]).1 == pow2(ceil_log2(dims[0].1 as nat)) by {
            assert(log_height(mats[i], LOG_BLOWUP) == lg);
            assert(log_height(mats[0], LOG_BLOWUP) == lg);
        }
    }
    assert(log_height(mats[0], LOG_BLOWUP) == lg);
    assert(ceil_log2(dims[0].1 as nat) == lg);
    assert(path_depth(cap_height as nat, lg) == (lg - cap_height) as nat);
}

/// In an accepted proof no query has a fault.
#[verifier::spinoff_prover]
#[verifier::rlimit(60)]
proof fn lemma_no_fault(
    params: FriParams,
    inner: InnerAir,
    proof: StarkProof,
    pvs: Seq<u64>,
    cap_height: int,
    q: int,
)
    requires
        proof_shaped(inner, proof, pvs, cap_height),
        params_follow(params, cap_height),
        proof.opening.commits@.len() == proof.opening.commit_pow@.len(),
        stark_error(params, inner, proof, pvs) is None,
        0 <= q < proof.opening.queries@.len(),
    ensures
        ({
            let chs = window_challenges(proof, pvs);
            let lg = space_of(proof) as nat;
            let index = index_under(proof, window_felts(proof, pvs)[q]);
            let coms = proof_claims(inner, proof, chs[1]);
            let input = proof.opening.queries@[q].input@;
            let opened = input_result(params.cap_height, params.log_blowup, lg, index, chs[2], input, coms);
            let steps = steps_under(chs, &proof.opening, q);
            &&& opened is Ok
            &&& query_result(params, steps, opened->Ok_0, index, lg, LOG_BLOWUP as nat) is Ok
            &&& x_same(
                poly_at(
                    proof.opening.final_poly@,
                    final_point(fold_state(params, steps, opened->Ok_0, index, lg, steps.len()).index, lg),
                ),
                query_result(params, steps, opened->Ok_0, index, lg, LOG_BLOWUP as nat)->Ok_0,
            )
            &&& proof.opening.final_poly@.len() == 1
        }),
{
    let chs = window_challenges(proof, pvs);
    let lg = space_of(proof) as nat;
    let fri = proof.opening;
    let zeta = stark_zeta(proof, pvs);
    let s = fri_sponge(inner, proof, pvs);
    let t = after_sample_ext(s);
    let coms = proof_claims(inner, proof, zeta);
    law_window_is_verification(params, inner, proof, pvs, cap_height);
    lemma_claims(inner, proof, pvs, cap_height, zeta, lg);
    vstd::arithmetic::power2::lemma2_to64();
    assert(log_domain(params, fri) == lg);
    assert(queries_error(params, fri, coms, sampled_ext(s), t, fri.queries@.len()) is None);
    lemma_each_query(params, inner, proof, zeta, sampled_ext(s), t, fri.queries@.len(), q);
    let u = after_work(params.query_pow_bits, before_queries(params, fri, t), fri.query_pow);
    assert(index_of(u, q as nat, lg) == index_under(proof, window_felts(proof, pvs)[q]));
    let steps = steps_under(chs, &fri, q);
    assert(steps_of(params, &fri, t, q) =~= steps) by {
        assert forall|r: int| 0 <= r < steps.len() implies steps_of(params, &fri, t, q)[r] == steps[r] by {
            assert(chs[3 + r] == beta_of(params, fri, t, r as nat));
        }
    }
}

/// The opened rows of a query, batch by batch, lie under their caps.
#[verifier::spinoff_prover]
#[verifier::rlimit(60)]
proof fn lemma_batches_open(
    params: FriParams,
    inner: InnerAir,
    proof: StarkProof,
    pvs: Seq<u64>,
    cap_height: int,
    q: int,
)
    requires
        proof_shaped(inner, proof, pvs, cap_height),
        params_follow(params, cap_height),
        proof.opening.commits@.len() == proof.opening.commit_pow@.len(),
        stark_error(params, inner, proof, pvs) is None,
        0 <= q < proof.opening.queries@.len(),
    ensures
        ({
            let chs = window_challenges(proof, pvs);
            let index = index_under(proof, window_felts(proof, pvs)[q]);
            let coms = proof_claims(inner, proof, chs[1]);
            let input = proof.opening.queries@[q].input@;
            let lg = space_of(proof) as nat;
            &&& batch_error(params.cap_height, params.log_blowup, lg, index, input[0], coms[0]) is None
            &&& batch_error(params.cap_height, params.log_blowup, lg, index, input[1], coms[1]) is None
        }),
{
    let chs = window_challenges(proof, pvs);
    lemma_no_fault(params, inner, proof, pvs, cap_height, q);
    let coms = proof_claims(inner, proof, chs[1]);
    assert(coms.len() == 2);
    reveal_with_fuel(batches_error, 3);
}

/// The folds of a query open round by round and end in the constant.
#[verifier::spinoff_prover]
#[verifier::rlimit(60)]
proof fn lemma_folds_open(
    params: FriParams,
    inner: InnerAir,
    proof: StarkProof,
    pvs: Seq<u64>,
    cap_height: int,
    q: int,
)
    requires
        proof_shaped(inner, proof, pvs, cap_height),
        params_follow(params, cap_height),
        proof.opening.commits@.len() == proof.opening.commit_pow@.len(),
        stark_error(params, inner, proof, pvs) is None,
        0 <= q < proof.opening.queries@.len(),
    ensures
        ({
            let chs = window_challenges(proof, pvs);
            let felt = window_felts(proof, pvs)[q];
            let lg = space_of(proof) as nat;
            let index = index_under(proof, felt);
            let steps = steps_under(chs, &proof.opening, q);
            let ro = reduced(chs[2], point_under(proof, felt), terms_under(inner, proof, chs, q));
            &&& forall|r: int| 0 <= r < steps.len() ==> #[trigger] round_opens(steps, ro, index, lg, cap_height, r)
            &&& x_same(proof.opening.final_poly@[0], chain_eval(steps, ro, index, lg, steps.len()))
        }),
{
    let chs = window_challenges(proof, pvs);
    let felt = window_felts(proof, pvs)[q];
    let lg = space_of(proof) as nat;
    let index = index_under(proof, felt);
    let ro = reduced(chs[2], point_under(proof, felt), terms_under(inner, proof, chs, q));
    let ros = seq![(lg as usize, ro)];
    let steps = steps_under(chs, &proof.opening, q);
    lemma_no_fault(params, inner, proof, pvs, cap_height, q);
    lemma_single_opening(inner, proof, pvs, cap_height, chs, felt, q);
    let end = fold_state(params, steps, ros, index, lg, steps.len());
    assert(end.error is None);
    assert(steps.len() == proof.opening.commits@.len());
    lemma_rounds_open(params, inner, proof, pvs, cap_height, chs, felt, q, ro);
    lemma_constant(proof.opening.final_poly@, final_point(end.index, lg));
    law_chain_is_query(params, steps, ro, index, lg, steps.len());
}

/// Each query of an accepted proof opens.
#[verifier::spinoff_prover]
#[verifier::rlimit(60)]
pub proof fn law_accepted_queries_open(
    params: FriParams,
    inner: InnerAir,
    proof: StarkProof,
    pvs: Seq<u64>,
    cap_height: int,
    q: int,
)
    requires
        proof_shaped(inner, proof, pvs, cap_height),
        params_follow(params, cap_height),
        proof.opening.commits@.len() == proof.opening.commit_pow@.len(),
        stark_error(params, inner, proof, pvs) is None,
        0 <= q < proof.opening.queries@.len(),
    ensures
        query_opens(inner, proof, window_challenges(proof, pvs), window_felts(proof, pvs)[q], q, cap_height),
{
    let chs = window_challenges(proof, pvs);
    let felt = window_felts(proof, pvs)[q];
    let index = index_under(proof, felt);
    lemma_batches_open(params, inner, proof, pvs, cap_height, q);
    lemma_batch_path(params, inner, proof, pvs, cap_height, chs[1], index, q, 0);
    lemma_batch_path(params, inner, proof, pvs, cap_height, chs[1], index, q, 1);
    lemma_folds_open(params, inner, proof, pvs, cap_height, q);
    lemma_steps_shaped(inner, proof, pvs, cap_height, chs, felt, q);
    let depth = (space_of(proof) - cap_height) as nat;
    let top = (index / pow2(depth)) as int;
    vstd::arithmetic::power2::lemma_pow2_pos(depth);
    vstd::arithmetic::div_mod::lemma_div_pos_is_pos(index as int, pow2(depth) as int);
    assert(contents(proof.trace_commit@)[top] == proof.trace_commit@[top]@);
    assert(contents(proof.quotient_commit@)[top] == proof.quotient_commit@[top]@);
}

/// A shaped proof has one reduced opening per query, at the height of the query space.
proof fn lemma_single_opening(
    inner: InnerAir,
    proof: StarkProof,
    pvs: Seq<u64>,
    cap_height: int,
    chs: Seq<Ext>,
    felt: u64,
    q: int,
)
    requires
        proof_shaped(inner, proof, pvs, cap_height),
    ensures
        ({
            let lg = space_of(proof) as nat;
            openings_below(
                LOG_BLOWUP,
                lg,
                index_under(proof, felt),
                chs[2],
                proof.opening.queries@[q].input@,
                proof_claims(inner, proof, chs[1]),
                lg + 1,
            ) == seq![(lg as usize, reduced(chs[2], point_under(proof, felt), terms_under(inner, proof, chs, q)))]
        }),
{
    let lg = space_of(proof) as nat;
    let index = index_under(proof, felt);
    let coms = proof_claims(inner, proof, chs[1]);
    let input = proof.opening.queries@[q].input@;
    lemma_none_below(inner, proof, pvs, cap_height, chs, index, q, lg);
    lemma_claims(inner, proof, pvs, cap_height, chs[1], lg);
    assert((lg + 1 - 1) as nat == lg);
    let all = openings_below(LOG_BLOWUP, lg, index, chs[2], input, coms, lg + 1);
    assert(all =~= seq![(lg as usize, opening_at(LOG_BLOWUP, lg, index, chs[2], input, coms, lg))]);
}

/// A polynomial of one coefficient is that coefficient.
proof fn lemma_constant(coeffs: Seq<Ext>, x: Ext)
    requires
        coeffs.len() == 1,
    ensures
        x_red(poly_at(coeffs, x)) == x_red(coeffs[0]),
{
    assert(coeffs.skip(1).len() == 0);
    reveal_with_fuel(poly_at, 2);
    lemma_plus_zero(coeffs[0], x);
}

proof fn lemma_plus_zero(a: Ext, x: Ext)
    ensures
        x_red(x_add(x_mul(x_zero(), x), a)) == x_red(a),
{
    assert(0 * x.c0 == 0 && 0 * x.c1 == 0) by (nonlinear_arith);
    assert(7 * (0 * x.c1) == 0);
}

/// Where the folds are not refused, every round opens.
#[verifier::spinoff_prover]
#[verifier::rlimit(60)]
proof fn lemma_rounds_open(
    params: FriParams,
    inner: InnerAir,
    proof: StarkProof,
    pvs: Seq<u64>,
    cap_height: int,
    chs: Seq<Ext>,
    felt: u64,
    q: int,
    ro: Ext,
)
    requires
        proof_shaped(inner, proof, pvs, cap_height),
        params_follow(params, cap_height),
        chs.len() == 3 + proof.opening.commits@.len(),
        0 <= q < proof.opening.queries@.len(),
        fold_state(
            params,
            steps_under(chs, &proof.opening, q),
            seq![(space_of(proof) as usize, ro)],
            index_under(proof, felt),
            space_of(proof) as nat,
            proof.opening.commits@.len(),
        ).error is None,
    ensures
        ({
            let steps = steps_under(chs, &proof.opening, q);
            forall|r: int|
                0 <= r < steps.len() ==> #[trigger] round_opens(
                    steps,
                    ro,
                    index_under(proof, felt),
                    space_of(proof) as nat,
                    cap_height,
                    r,
                )
        }),
{
    let steps = steps_under(chs, &proof.opening, q);
    let lg = space_of(proof) as nat;
    let index = index_under(proof, felt);
    let ros = seq![(lg as usize, ro)];
    let n = steps.len();
    let qp = proof.opening.queries@[q];
    assert(query_shaped(qp, inner, proof, cap_height));
    lemma_steps_shaped(inner, proof, pvs, cap_height, chs, felt, q);
    assert forall|r: int| 0 <= r < n implies #[trigger] round_opens(steps, ro, index, lg, cap_height, r) by {
        let st = fold_state(params, steps, ros, index, lg, r as nat);
        let nx = fold_state(params, steps, ros, index, lg, (r + 1) as nat);
        lemma_stays_refused(params, steps, ros, index, lg, (r + 1) as nat, n);
        lemma_stays_refused(params, steps, ros, index, lg, r as nat, n);
        assert(nx.error is None && st.error is None);
        assert(((r + 1) as nat - 1) as nat == r as nat);
        assert(nx == round_next(params, st, steps[r], ros, r));
        law_chain_is_query(params, steps, ro, index, lg, r as nat);
        lemma_pair_steps(steps, index, r as nat);
        lemma_pair_steps(steps, index, (r + 1) as nat);
        assert(log_arity(steps[r]) == 1);
        let at = chain_index(steps, index, (r + 1) as nat);
        let evals = chain_group(steps, index, chain_eval(steps, ro, index, lg, r as nat), r as nat);
        assert(round_group(st, steps[r]) == evals);
        let height = (lg - (r + 1)) as nat;
        assert(group_opens(
            cap_height as nat,
            contents(steps[r].commit@),
            height,
            at,
            evals,
            contents(steps[r].opening.path@),
        ));
        let depth = s_cm_depth_at(r, lg as int, cap_height) as nat;
        assert(path_depth(cap_height as nat, height) == depth);
        let top = (at / pow2(depth)) as int;
        vstd::arithmetic::power2::lemma_pow2_pos(depth);
        vstd::arithmetic::div_mod::lemma_div_pos_is_pos(at as int, pow2(depth) as int);
        assert(contents(steps[r].commit@)[top] == steps[r].commit@[top]@);
    }
}

} // verus!
