//! From an inner proof to an instance of the fused verifier: the data of its queries, the window of its public values,
//! and the trace.

use vstd::arithmetic::power2::pow2;
use vstd::prelude::*;

use super::grid::{held, hold_rows, push_felts, PathData};
use super::layout::{cm_depth_at, s_cm_depth_at, s_min, MonolithAir, FOLD_CHUNK, LOG_BLOWUP};
use super::tiles::trace_built;
use super::trace::{law_deep_point_is_query_point, monolith_build_trace, CommitRound, QueryData};
use crate::bits::shifted_one;
use crate::expr::Wire;
use crate::field::{
    f_mul, is_unit, lemma_two_unit, lemma_units_multiply, x_mul, x_one, x_same, x_square_times, x_zero, Ext, TWO_ADICITY,
};
use crate::fri::input::{batch_terms, claims, input_terms, matrix_terms, query_x, reduced, MatrixView, Round};
use crate::fri::merkle::{cap_ok, contents, digests_ok};
use crate::fri::query::{lemma_ext_felts_len, order_ok, CommitStep, FriParams};
use crate::fri::verify::{after_work, before_queries, beta_of, index_of, FriProof, QueryProof};
use crate::fri::witness::{
    batch_fits, caps_reach, chain_drop, chain_eval, chain_group, chain_index, chain_ok, is_commit_round, is_pair_round,
    lemma_index_bound, lemma_index_drops, log_arity, path_bits, query_commit_merkle_all, query_fold_data, query_terms,
    rows_fit, CommitWitness, PairFold,
};
use crate::gadgets::fold::{coords, push_coords};
use crate::gadgets::opening::{off_terms, OpeningTerm};
use crate::stark::verify::{
    air_ok, chunk_count, claims_of, columns_at, copy_felts, epilogue_openings, fold_constraints, folded_constraints,
    fri_sponge, ood_holds, ood_openings, opened_values, periodic_at, periods_fit, proof_claims, quotient_claim,
    quotient_value, stark_alpha, stark_zeta, trace_claim, InnerAir, StarkProof,
};
use crate::symbolic::{eval_symbolic_native, NativeOpenings, NativeView};
use crate::schedule::{is_challenge, load, run};
use crate::stark::domain::{
    chunk_weights, chunks_fit, quotient_recompose_weights, recompose_quotient, selectors, vanishing, vanishing_at,
    Selectors,
};
use crate::stark::replay::{all_opened, law_replay_draws_challenges, sim_full, stark_program, Replay};
use crate::transcript::{
    after_sample_ext, block_follows, cap_felts, digest_felts, ext_felts, felts_of_exts, sampled_ext, schedule_ok,
    SimView,
};

verus! {

/// The logarithm of the query space of a proof whose rounds fold by two.
pub open spec fn space_of(proof: StarkProof) -> int {
    proof.opening.commits@.len() + LOG_BLOWUP
}

/// A query opens the trace row, the quotient rows and a pair per commit round, each with a path to its cap.
pub open spec fn query_shaped(qp: QueryProof, inner: InnerAir, proof: StarkProof, cap_height: int) -> bool {
    let lg = space_of(proof);
    &&& qp.input@.len() == 2
    &&& qp.input@[0].rows@.len() == 1
    &&& qp.input@[0].rows@[0]@.len() == inner.width
    &&& qp.input@[1].rows@.len() == proof.quotient_chunks@.len()
    &&& forall|i: int| 0 <= i < qp.input@[1].rows@.len() ==> (#[trigger] qp.input@[1].rows@[i])@.len() == 2
    &&& forall|b: int|
        0 <= b < 2 ==> (#[trigger] qp.input@[b]).path@.len() == lg - cap_height && digests_ok(qp.input@[b].path@)
    &&& qp.openings@.len() == proof.opening.commits@.len()
    &&& forall|r: int|
        0 <= r < qp.openings@.len() ==> {
            &&& (#[trigger] qp.openings@[r]).log_arity == 1
            &&& qp.openings@[r].siblings@.len() == 1
            &&& qp.openings@[r].path@.len() == s_cm_depth_at(r, lg, cap_height)
            &&& digests_ok(qp.openings@[r].path@)
        }
}

/// A proof that the fused verifier can follow: every round folds by two down to a constant, the caps have 2^cap_height
/// entries or as many as a round has rows, and the openings have the inner's dimensions.
pub open spec fn proof_shaped(inner: InnerAir, proof: StarkProof, pvs: Seq<u64>, cap_height: int) -> bool {
    let lg = space_of(proof);
    &&& proof.opening.commits@.len() >= 1
    &&& proof.degree_bits == proof.opening.commits@.len()
    &&& order_ok(lg as nat)
    &&& 0 <= cap_height <= lg
    &&& proof.opening.final_poly@.len() >= 1
    &&& cap_ok(proof.trace_commit@)
    &&& proof.trace_commit@.len() == pow2(cap_height as nat)
    &&& cap_ok(proof.quotient_commit@)
    &&& proof.quotient_commit@.len() == pow2(cap_height as nat)
    &&& forall|r: int|
        0 <= r < proof.opening.commits@.len() ==> cap_ok((#[trigger] proof.opening.commits@[r])@)
            && proof.opening.commits@[r]@.len() == pow2(s_min(cap_height, lg - (r + 1)) as nat)
    &&& proof.opening.queries@.len() >= 1
    &&& forall|q: int|
        0 <= q < proof.opening.queries@.len() ==> query_shaped(
            #[trigger] proof.opening.queries@[q],
            inner,
            proof,
            cap_height,
        )
    &&& inner.uses_next
    &&& proof.trace_local@.len() == inner.width
    &&& proof.trace_next is Some
    &&& proof.trace_next.unwrap()@.len() == inner.width
    &&& proof.quotient_chunks@.len() == pow2(inner.log_chunks as nat)
    &&& forall|i: int| 0 <= i < proof.quotient_chunks@.len() ==> (#[trigger] proof.quotient_chunks@[i])@.len() == 2
    &&& proof.degree_bits + inner.log_chunks <= TWO_ADICITY
    &&& air_ok(inner, pvs.len())
    &&& periods_fit(contents(inner.periodic@), proof.degree_bits as nat)
}

/// The commit rounds of a query under challenges: the constraint challenge, the point, the batching challenge, then one
/// per round.
pub open spec fn steps_under<'a>(chs: Seq<Ext>, fri: &'a FriProof, q: int) -> Seq<CommitStep<'a>> {
    Seq::new(
        fri.commits@.len(),
        |r: int|
            CommitStep {
                beta: chs[3 + r],
                commit: &fri.commits@[r],
                opening: &fri.queries@[q].openings@[r],
            },
    )
}

/// The index that a felt stands for.
pub open spec fn index_under(proof: StarkProof, felt: u64) -> nat {
    (felt as nat % pow2(space_of(proof) as nat)) as nat
}

/// The reduced-opening terms of a query.
pub open spec fn terms_under(inner: InnerAir, proof: StarkProof, chs: Seq<Ext>, q: int) -> Seq<OpeningTerm> {
    input_terms(
        proof.opening.queries@[q].input@,
        proof_claims(inner, proof, chs[1]),
        LOG_BLOWUP,
        space_of(proof) as nat,
        2,
    )
}

/// The query point of a felt.
pub open spec fn point_under(proof: StarkProof, felt: u64) -> u64 {
    query_x(index_under(proof, felt), space_of(proof) as nat, space_of(proof) as nat)
}

/// The data of a query: its index, the terms and their reduced opening, the chain of folds and all paths.
pub open spec fn is_query(
    d: QueryData,
    inner: InnerAir,
    proof: StarkProof,
    chs: Seq<Ext>,
    felt: u64,
    q: int,
) -> bool {
    let lg = space_of(proof) as nat;
    let index = index_under(proof, felt);
    let terms = terms_under(inner, proof, chs, q);
    let ro = reduced(chs[2], point_under(proof, felt), terms);
    let steps = steps_under(chs, &proof.opening, q);
    let qp = proof.opening.queries@[q];
    &&& d.index == index
    &&& d.felt == felt
    &&& d.terms@ == terms
    &&& d.alpha == chs[2]
    &&& d.ro == ro
    &&& d.rounds@.len() == steps.len()
    &&& forall|k: int| 0 <= k < d.rounds@.len() ==> is_pair_round(
        #[trigger] d.rounds@[k],
        steps,
        index,
        lg,
        k as nat,
    )
    &&& is_path(d.path, qp.input@[0].path@, index)
    &&& is_path(d.quot_path, qp.input@[1].path@, index)
    &&& d.commits@.len() == steps.len()
    &&& forall|r: int|
        0 <= r < d.commits@.len() ==> {
            &&& (#[trigger] d.commits@[r]).group@ == ext_felts(
                chain_group(steps, index, chain_eval(steps, ro, index, lg, r as nat), r as nat),
            )
            &&& is_path(d.commits@[r].path, qp.openings@[r].path@, chain_index(steps, index, (r + 1) as nat))
        }
    &&& d.hiding is None
    &&& d.aux_path is None
}

/// The siblings of a path, and the bits of the index as their sides.
pub open spec fn is_path(p: PathData, path: Seq<Vec<u64>>, index: nat) -> bool {
    &&& contents(p.siblings@) == contents(path)
    &&& p.bits@ == path_bits(index, path.len())
    &&& p.siblings@.len() == path.len()
    &&& digests_ok(path) ==> digests_ok(p.siblings@)
}

/// Folds of two: the height falls by one and the index halves.
pub(super) proof fn lemma_pair_steps(steps: Seq<CommitStep>, index: nat, n: nat)
    requires
        n <= steps.len(),
        forall|k: int| 0 <= k < steps.len() ==> log_arity(#[trigger] steps[k]) == 1,
    ensures
        chain_drop(steps, n) == n,
        chain_index(steps, index, n) == index / pow2(n),
    decreases n,
{
    vstd::arithmetic::power2::lemma2_to64();
    if n > 0 {
        lemma_pair_steps(steps, index, (n - 1) as nat);
        assert(log_arity(steps[n - 1]) == 1);
        vstd::arithmetic::power2::lemma_pow2_pos((n - 1) as nat);
        vstd::arithmetic::power2::lemma_pow2_unfold(n);
        vstd::arithmetic::div_mod::lemma_div_denominator(index as int, pow2((n - 1) as nat) as int, 2);
        assert(pow2((n - 1) as nat) * 2 == pow2(n)) by (nonlinear_arith)
            requires
                pow2(n) == 2 * pow2((n - 1) as nat),
        ;
    }
}

/// The chain of a shaped proof is in order, and its paths end inside the caps.
pub(super) proof fn lemma_steps_shaped(inner: InnerAir, proof: StarkProof, pvs: Seq<u64>, cap_height: int, chs: Seq<Ext>, felt: u64, q: int)
    requires
        proof_shaped(inner, proof, pvs, cap_height),
        0 <= q < proof.opening.queries@.len(),
    ensures
        ({
            let steps = steps_under(chs, &proof.opening, q);
            let index = index_under(proof, felt);
            &&& index < pow2(space_of(proof) as nat)
            &&& forall|k: int| 0 <= k < steps.len() ==> log_arity(#[trigger] steps[k]) == 1
            &&& chain_ok(steps, index, space_of(proof) as nat)
            &&& caps_reach(steps, index)
            &&& index / pow2((space_of(proof) - cap_height) as nat) < pow2(cap_height as nat)
        }),
{
    let lg = space_of(proof) as nat;
    let index = index_under(proof, felt);
    let qp = proof.opening.queries@[q];
    let steps = steps_under(chs, &proof.opening, q);
    assert(query_shaped(qp, inner, proof, cap_height));
    vstd::arithmetic::power2::lemma2_to64();
    vstd::arithmetic::power2::lemma_pow2_pos(lg);
    assert(index < pow2(lg));
    assert forall|k: int| 0 <= k < steps.len() implies log_arity(#[trigger] steps[k]) == 1 by {
        assert(qp.openings@[k].log_arity == 1);
    }
    lemma_pair_steps(steps, index, steps.len());
    assert forall|r: int| 0 <= r < steps.len() implies (#[trigger] steps[r]).opening.siblings@.len() == pow2(
        log_arity(steps[r]),
    ) - 1 by {
        assert(qp.openings@[r].siblings@.len() == 1);
        assert(log_arity(steps[r]) == 1);
    }
    assert forall|r: int| 0 <= r < steps.len() implies chain_index(steps, index, (r + 1) as nat) / pow2(
        (#[trigger] steps[r]).opening.path@.len(),
    ) < steps[r].commit@.len() by {
        lemma_pair_steps(steps, index, (r + 1) as nat);
        lemma_index_bound(steps, index, lg, (r + 1) as nat);
        let depth = qp.openings@[r].path@.len();
        assert(depth == s_cm_depth_at(r, lg as int, cap_height));
        assert(proof.opening.commits@[r]@.len() == pow2(s_min(cap_height, lg - (r + 1)) as nat));
        lemma_index_drops(
            chain_index(steps, index, (r + 1) as nat),
            depth,
            s_min(cap_height, lg - (r + 1)) as nat,
        );
    }
    lemma_index_drops(index, (lg - cap_height) as nat, cap_height as nat);
}

/// The terms of matrices of the query space's height that are opened at one point each.
proof fn lemma_chunk_terms(rows: Seq<Vec<u64>>, mats: Seq<MatrixView>, lg: nat, n: nat)
    requires
        n <= mats.len(),
        forall|i: int|
            0 <= i < mats.len() ==> (#[trigger] mats[i]).log_size + LOG_BLOWUP == lg && mats[i].points.len() == 1
                && mats[i].points[0].values.len() == 2,
    ensures
        batch_terms(rows, mats, LOG_BLOWUP, lg, n).len() == 2 * n,
    decreases n,
{
    if n > 0 {
        lemma_chunk_terms(rows, mats, lg, (n - 1) as nat);
        assert(mats[n - 1].points.len() == 1);
        reveal_with_fuel(matrix_terms, 2);
    }
}

/// The rows of a shaped query fit the claims, and its terms are those of two trace rows and of the chunks.
pub(super) proof fn lemma_terms_shaped(inner: InnerAir, proof: StarkProof, pvs: Seq<u64>, cap_height: int, chs: Seq<Ext>, q: int)
    requires
        proof_shaped(inner, proof, pvs, cap_height),
        0 <= q < proof.opening.queries@.len(),
    ensures
        rows_fit(proof.opening.queries@[q].input@, proof_claims(inner, proof, chs[1])),
        terms_under(inner, proof, chs, q).len() == 2 * inner.width + 2 * proof.quotient_chunks@.len(),
{
    let coms = proof_claims(inner, proof, chs[1]);
    let input = proof.opening.queries@[q].input@;
    let lg = space_of(proof) as nat;
    assert(query_shaped(proof.opening.queries@[q], inner, proof, cap_height));
    assert(coms[0] == trace_claim(inner, proof, chs[1]));
    assert(coms[1] == quotient_claim(inner, proof, chs[1]));
    let trace = coms[0].matrices[0];
    assert(coms[0].matrices.len() == 1);
    assert(trace.points.len() == 2);
    assert(trace.points[0].values.len() == inner.width);
    assert(trace.points[1].values.len() == inner.width);
    assert(batch_fits(input[0].rows@, coms[0].matrices)) by {
        assert forall|m: int, i: int| 0 <= m < 1 && 0 <= i < coms[0].matrices[m].points.len() implies (
        #[trigger] coms[0].matrices[m].points[i]).values.len() == input[0].rows@[m]@.len() by {
            assert(i == 0 || i == 1);
        }
    }
    let mats = coms[1].matrices;
    assert(mats.len() == proof.quotient_chunks@.len());
    assert forall|i: int| 0 <= i < mats.len() implies (#[trigger] mats[i]).log_size + LOG_BLOWUP == lg
        && mats[i].points.len() == 1 && mats[i].points[0].values.len() == 2 by {
        assert(proof.quotient_chunks@[i]@.len() == 2);
    }
    assert(batch_fits(input[1].rows@, mats)) by {
        assert forall|m: int, i: int| 0 <= m < mats.len() && 0 <= i < mats[m].points.len() implies (
        #[trigger] mats[m].points[i]).values.len() == input[1].rows@[m]@.len() by {
            assert(mats[m].points.len() == 1);
            assert(input[1].rows@[m]@.len() == 2);
        }
    }
    lemma_chunk_terms(input[1].rows@, mats, lg, mats.len());
    reveal_with_fuel(input_terms, 3);
    reveal_with_fuel(batch_terms, 2);
    reveal_with_fuel(matrix_terms, 3);
}

/// A path with the low bits of an index as its sides.
fn path_of(path: &Vec<Vec<u64>>, index: usize) -> (r: PathData)
    ensures
        is_path(r, path@, index as nat),
{
    let mut siblings: Vec<Vec<u64>> = Vec::new();
    let mut bits: Vec<bool> = Vec::new();
    let mut at: usize = index;
    let mut l: usize = 0;
    proof {
        vstd::arithmetic::power2::lemma2_to64();
    }
    while l < path.len()
        invariant
            l <= path@.len(),
            at == index as nat / pow2(l as nat),
            siblings@.len() == l,
            forall|k: int| 0 <= k < l ==> (#[trigger] siblings@[k])@ == path@[k]@,
            bits@ =~= path_bits(index as nat, path@.len()).take(l as int),
        decreases path.len() - l,
    {
        siblings.push(copy_felts(&path[l]));
        bits.push(at % 2 == 1);
        proof {
            vstd::arithmetic::power2::lemma_pow2_pos(l as nat);
            vstd::arithmetic::power2::lemma_pow2_unfold((l + 1) as nat);
            vstd::arithmetic::div_mod::lemma_div_denominator(index as int, pow2(l as nat) as int, 2);
            assert(pow2((l + 1) as nat) == pow2(l as nat) * 2);
        }
        at = at / 2;
        l += 1;
    }
    assert(bits@ =~= path_bits(index as nat, path@.len()));
    assert(contents(siblings@) =~= contents(path@));
    PathData { siblings, bits }
}

/// The data of a query under challenges; nothing where a term's point is the query point.
fn query_data(
    inner: &InnerAir,
    proof: &StarkProof,
    coms: &Vec<Round>,
    chs: &Vec<Ext>,
    felt: u64,
    q: usize,
    Ghost(pvs): Ghost<Seq<u64>>,
    Ghost(cap_height): Ghost<int>,
) -> (r: Option<QueryData>)
    requires
        proof_shaped(*inner, *proof, pvs, cap_height),
        chs@.len() == 3 + proof.opening.commits@.len(),
        claims(coms@) == proof_claims(*inner, *proof, chs@[1]),
        q < proof.opening.queries@.len(),
    ensures
        r is Some <==> off_terms(terms_under(*inner, *proof, chs@, q as int), point_under(*proof, felt)),
        r matches Some(d) ==> is_query(d, *inner, *proof, chs@, felt, q as int) && (forall|k: int|
            0 <= k < d.rounds@.len() ==> is_unit((#[trigger] d.rounds@[k]).point)),
{
    let qp: &QueryProof = &proof.opening.queries[q];
    let rounds: usize = proof.opening.commits.len();
    let lg: usize = rounds + LOG_BLOWUP;
    proof {
        assert(query_shaped(*qp, *inner, *proof, cap_height));
        lemma_steps_shaped(*inner, *proof, pvs, cap_height, chs@, felt, q as int);
        lemma_terms_shaped(*inner, *proof, pvs, cap_height, chs@, q as int);
        assert(claims(coms@).len() == 2);
        vstd::arithmetic::power2::lemma_pow2_pos(lg as nat);
    }
    let index: usize = (felt % (shifted_one(lg) as u64)) as usize;
    let n_chs: usize = chs.len();
    let mut steps: Vec<CommitStep> = Vec::new();
    let ghost want = steps_under(chs@, &proof.opening, q as int);
    let mut r: usize = 0;
    while r < rounds
        invariant
            r <= rounds,
            rounds == proof.opening.commits@.len(),
            q < proof.opening.queries@.len(),
            qp == proof.opening.queries@[q as int],
            qp.openings@.len() == rounds,
            chs@.len() == n_chs,
            n_chs == 3 + rounds,
            want == steps_under(chs@, &proof.opening, q as int),
            steps@ =~= want.take(r as int),
        decreases rounds - r,
    {
        steps.push(CommitStep { beta: chs[3 + r], commit: &proof.opening.commits[r], opening: &qp.openings[r] });
        r += 1;
    }
    assert(steps@ =~= want);
    let (terms, ro): (Vec<OpeningTerm>, Ext) = match query_terms(coms, &qp.input, LOG_BLOWUP, index, lg, lg, chs[2]) {
        None => {
            return None;
        },
        Some(v) => (v.0, v.2),
    };
    let (pairs, _): (Vec<PairFold>, Ext) = query_fold_data(&steps, ro, index, lg);
    let opened: Vec<CommitWitness> = query_commit_merkle_all(&steps, ro, index, lg);
    let mut commits: Vec<CommitRound> = Vec::new();
    let mut at: usize = index;
    let mut k: usize = 0;
    while k < rounds
        invariant
            k <= rounds,
            rounds == proof.opening.commits@.len(),
            want.len() == rounds,
            qp.openings@.len() == rounds,
            opened@.len() == rounds,
            forall|i: int| 0 <= i < want.len() ==> log_arity(#[trigger] want[i]) == 1,
            at == chain_index(want, index as nat, k as nat),
            forall|i: int|
                0 <= i < opened@.len() ==> is_commit_round(
                    #[trigger] opened@[i],
                    want,
                    ro,
                    index as nat,
                    lg as nat,
                    i as nat,
                ),
            commits@.len() == k,
            forall|i: int|
                0 <= i < k ==> {
                    &&& (#[trigger] commits@[i]).group@ == ext_felts(
                        chain_group(want, index as nat, chain_eval(want, ro, index as nat, lg as nat, i as nat), i as nat),
                    )
                    &&& is_path(commits@[i].path, qp.openings@[i].path@, chain_index(want, index as nat, (i + 1) as nat))
                },
        decreases rounds - k,
    {
        proof {
            vstd::arithmetic::power2::lemma2_to64();
            assert(log_arity(want[k as int]) == 1);
            assert(is_commit_round(opened@[k as int], want, ro, index as nat, lg as nat, k as nat));
        }
        at = at / 2;
        commits.push(CommitRound { group: copy_felts(&opened[k].group), path: path_of(&qp.openings[k].path, at) });
        k += 1;
    }
    let d: QueryData = QueryData {
        index,
        felt,
        terms,
        alpha: chs[2],
        ro,
        rounds: pairs,
        path: path_of(&qp.input[0].path, index),
        quot_path: path_of(&qp.input[1].path, index),
        commits,
        hiding: None,
        aux_path: None,
    };
    Some(d)
}

/// How an inner proof is verified: by its constraint trees or as a single column that stays constant or counts up, with
/// its values in columns or public, and which parts of the instance are left out.
#[derive(Clone, Copy)]
pub struct WindowMode {
    pub symbolic: bool,
    pub inner_counter: bool,
    pub column_window: bool,
    pub narrow_caps: bool,
    pub narrow_arith: bool,
    pub narrow_openings: bool,
    pub narrow_ov: bool,
    pub cap_height: usize,
    pub txroot_dom: u64,
}

/// The inner fits the mode: a single column with one public value has no need of its trees.
pub open spec fn mode_fits(inner: InnerAir, pvs: Seq<u64>, mode: WindowMode) -> bool {
    &&& mode.symbolic ==> inner.constraints@.len() > 0
    &&& !mode.symbolic ==> inner.width == 1 && pvs.len() == 1 && inner.periodic@.len() == 0 && inner.log_chunks == 0
}

/// The verifier of a proof: its transcript has as many blocks as the proof's program takes, and its dimensions are those
/// of the inner.
pub open spec fn is_window_air(air: MonolithAir, inner: InnerAir, proof: StarkProof, pvs: Seq<u64>, mode: WindowMode) -> bool {
    &&& follows_inner(air, inner, proof, pvs, mode)
    &&& air.k_instances == 1
    &&& !air.fold
    &&& !air.fold_txstmt
}

/// The same, for as many instances as there are, folded to a root or not.
pub open spec fn follows_inner(air: MonolithAir, inner: InnerAir, proof: StarkProof, pvs: Seq<u64>, mode: WindowMode) -> bool {
    &&& air.counts@.len() == load(stark_program(proof, pvs)).0
    &&& air.binds@.len() == 3 + proof.opening.commits@.len()
    &&& air.index_binds@.len() == proof.opening.queries@.len()
    &&& air.n_queries == proof.opening.queries@.len()
    &&& air.n_terms == 2 * inner.width + 2 * proof.quotient_chunks@.len()
    &&& air.inner_counter == mode.inner_counter
    &&& air.column_window == mode.column_window
    &&& air.constraints@ == (if mode.symbolic {
        inner.constraints@
    } else {
        Seq::empty()
    })
    &&& air.w_inner_f == inner.width
    &&& air.n_pub_f == pvs.len()
    &&& air.n_periodic_f == inner.periodic@.len()
    &&& air.is_zk == 0
    &&& air.cap_height == mode.cap_height
    &&& air.narrow_arith == mode.narrow_arith
    &&& air.narrow_caps == mode.narrow_caps
    &&& air.narrow_openings == mode.narrow_openings
    &&& air.narrow_ov == mode.narrow_ov
    &&& air.lookup is None
    &&& air.txroot_dom == mode.txroot_dom
}

/// What the window holds of a cap: all of it, or the entry that a path of `depth` siblings leads to.
pub open spec fn cap_part(full: bool, cap: Seq<Vec<u64>>, index: nat, depth: nat) -> Seq<u64> {
    if full {
        digest_felts(cap)
    } else {
        cap[(index / pow2(depth)) as int]@
    }
}

/// What the window holds of the caps of the first `n` commit rounds.
pub open spec fn commit_parts(full: bool, proof: StarkProof, index: nat, cap_height: int, n: nat) -> Seq<u64>
    decreases n,
{
    if n == 0 {
        Seq::empty()
    } else {
        commit_parts(full, proof, index, cap_height, (n - 1) as nat) + cap_part(
            full,
            proof.opening.commits@[n - 1]@,
            index / pow2(n),
            s_cm_depth_at(n - 1, space_of(proof), cap_height) as nat,
        )
    }
}

/// The inner's public values at the point: its periodic columns and, with several chunks, the weights that recompose the
/// quotient.
pub open spec fn point_values(inner: InnerAir, proof: StarkProof, zeta: Ext) -> Seq<u64> {
    ext_felts(columns_at(contents(inner.periodic@), proof.degree_bits as nat, zeta)) + (if proof.quotient_chunks@.len() > 1 {
        ext_felts(chunk_weights(zeta, proof.degree_bits as nat, inner.log_chunks as nat))
    } else {
        Seq::empty()
    })
}

/// The window of an inner proof: the challenges, the index felts, the final constant, the caps of the trace and the
/// quotient, the public values, the caps of the commit rounds, and the values at the point.
pub open spec fn window_values(
    inner: InnerAir,
    proof: StarkProof,
    pvs: Seq<u64>,
    mode: WindowMode,
    chs: Seq<Ext>,
    felts: Seq<u64>,
) -> Seq<u64> {
    let full = mode.inner_counter || mode.symbolic;
    let index = index_under(proof, felts[0]);
    let ch = mode.cap_height as int;
    let depth = (space_of(proof) - ch) as nat;
    ext_felts(chs) + felts + ext_felts(seq![proof.opening.final_poly@[0]]) + (if mode.narrow_caps {
        Seq::empty()
    } else {
        cap_part(full, proof.trace_commit@, index, depth) + cap_part(full, proof.quotient_commit@, index, depth)
    }) + pvs + (if mode.narrow_caps {
        Seq::empty()
    } else {
        commit_parts(full, proof, index, ch, proof.opening.commits@.len())
    }) + (if mode.symbolic {
        point_values(inner, proof, chs[1])
    } else {
        Seq::empty()
    })
}

/// A run of digests has four felts each.
pub(super) proof fn lemma_digest_felts_len(ds: Seq<Vec<u64>>)
    requires
        digests_ok(ds),
    ensures
        digest_felts(ds).len() == 4 * ds.len(),
    decreases ds.len(),
{
    if ds.len() > 0 {
        assert(ds.drop_last().len() == ds.len() - 1);
        assert forall|i: int| 0 <= i < ds.drop_last().len() implies (#[trigger] ds.drop_last()[i])@.len() == 4 by {
            assert(ds[i]@.len() == 4);
        }
        assert(ds.last()@.len() == 4);
        lemma_digest_felts_len(ds.drop_last());
    }
}

/// The caps of the commit rounds fill their part of the window.
pub(super) proof fn lemma_commit_parts_len(
    air: MonolithAir,
    inner: InnerAir,
    proof: StarkProof,
    pvs: Seq<u64>,
    mode: WindowMode,
    felt: u64,
    n: nat,
)
    requires
        proof_shaped(inner, proof, pvs, mode.cap_height as int),
        follows_inner(air, inner, proof, pvs, mode),
        n <= proof.opening.commits@.len(),
    ensures
        commit_parts(true, proof, index_under(proof, felt), mode.cap_height as int, n).len() == air.s_caps_before(n as int),
        commit_parts(false, proof, index_under(proof, felt), mode.cap_height as int, n).len() == 4 * n,
        forall|r: int|
            0 <= r < n ==> #[trigger] proof.opening.commits@[r]@.len() > (index_under(proof, felt) / pow2((r + 1) as nat))
                / pow2(s_cm_depth_at(r, space_of(proof), mode.cap_height as int) as nat),
    decreases n,
{
    if n > 0 {
        lemma_commit_parts_len(air, inner, proof, pvs, mode, felt, (n - 1) as nat);
        let cap = proof.opening.commits@[n - 1]@;
        let ch = mode.cap_height as int;
        let lg = space_of(proof) as nat;
        let index = index_under(proof, felt);
        let depth = s_cm_depth_at(n - 1, lg as int, ch) as nat;
        assert(cap_ok(cap));
        lemma_digest_felts_len(cap);
        let chs = Seq::new((3 + proof.opening.commits@.len()) as nat, |i: int| crate::field::x_zero());
        lemma_steps_shaped(inner, proof, pvs, ch, chs, felt, 0);
        let steps = steps_under(chs, &proof.opening, 0);
        lemma_pair_steps(steps, index, n);
        assert(query_shaped(proof.opening.queries@[0], inner, proof, ch));
        let op = proof.opening.queries@[0].openings@[n - 1];
        assert(steps[n - 1].opening == op);
        assert(op.path@.len() == depth);
        assert(index / pow2(n) / pow2(depth) < cap.len());
        assert(cap[(index / pow2(n) / pow2(depth)) as int]@.len() == 4) by {
            vstd::arithmetic::power2::lemma_pow2_pos(depth);
            vstd::arithmetic::div_mod::lemma_div_pos_is_pos((index / pow2(n)) as int, pow2(depth) as int);
        }
        assert(air.s_caps_before(n as int) == air.s_caps_before(n - 1) + air.s_commit_cap_size(n - 1) * 4);
    }
}

/// The window has as many values as the verifier reads.
pub(super) proof fn lemma_window_len(
    air: MonolithAir,
    inner: InnerAir,
    proof: StarkProof,
    pvs: Seq<u64>,
    mode: WindowMode,
    chs: Seq<Ext>,
    felts: Seq<u64>,
)
    requires
        proof_shaped(inner, proof, pvs, mode.cap_height as int),
        mode_fits(inner, pvs, mode),
        follows_inner(air, inner, proof, pvs, mode),
        chs.len() == 3 + proof.opening.commits@.len(),
        felts.len() == proof.opening.queries@.len(),
    ensures
        window_values(inner, proof, pvs, mode, chs, felts).len() == air.s_pis_count(),
        index_under(proof, felts[0]) / pow2((space_of(proof) - mode.cap_height) as nat) < pow2(mode.cap_height as nat),
{
    let full = mode.inner_counter || mode.symbolic;
    let index = index_under(proof, felts[0]);
    let ch = mode.cap_height as int;
    let depth = (space_of(proof) - ch) as nat;
    lemma_ext_felts_len(chs);
    lemma_ext_felts_len(seq![proof.opening.final_poly@[0]]);
    lemma_ext_felts_len(columns_at(contents(inner.periodic@), proof.degree_bits as nat, chs[1]));
    lemma_ext_felts_len(chunk_weights(chs[1], proof.degree_bits as nat, inner.log_chunks as nat));
    lemma_steps_shaped(inner, proof, pvs, ch, chs, felts[0], 0);
    lemma_commit_parts_len(air, inner, proof, pvs, mode, felts[0], proof.opening.commits@.len());
    lemma_digest_felts_len(proof.trace_commit@);
    lemma_digest_felts_len(proof.quotient_commit@);
    vstd::arithmetic::power2::lemma2_to64();
    vstd::arithmetic::power2::lemma_pow2_pos(depth);
    vstd::arithmetic::div_mod::lemma_div_pos_is_pos(index as int, pow2(depth) as int);
    let at = (index / pow2(depth)) as int;
    assert(proof.trace_commit@[at]@.len() == 4);
    assert(proof.quotient_commit@[at]@.len() == 4);
    assert(air.s_nqc() == proof.quotient_chunks@.len());
    assert(air.s_cm_rounds() == proof.opening.commits@.len());
    assert(air.s_full_cap() == full);
}

/// Append what the window holds of a cap.
fn push_cap_part(out: &mut Vec<u64>, full: bool, cap: &Vec<Vec<u64>>, index: usize, depth: usize)
    requires
        pow2(depth as nat) <= usize::MAX,
        index as nat / pow2(depth as nat) < cap@.len(),
    ensures
        final(out)@ == old(out)@ + cap_part(full, cap@, index as nat, depth as nat),
{
    if full {
        push_felts(out, &cap_felts(cap));
    } else {
        proof {
            vstd::arithmetic::power2::lemma_pow2_pos(depth as nat);
        }
        push_felts(out, &cap[index / shifted_one(depth)]);
    }
}

/// Append what the window holds of the commit rounds' caps.
fn push_commit_parts(
    out: &mut Vec<u64>,
    full: bool,
    proof: &StarkProof,
    index: usize,
    cap_height: usize,
)
    requires
        order_ok(space_of(*proof) as nat),
        forall|r: int|
            0 <= r < proof.opening.commits@.len() ==> #[trigger] proof.opening.commits@[r]@.len() > (index as nat / pow2(
                (r + 1) as nat,
            )) / pow2(s_cm_depth_at(r, space_of(*proof), cap_height as int) as nat),
    ensures
        final(out)@ == old(out)@ + commit_parts(
            full,
            *proof,
            index as nat,
            cap_height as int,
            proof.opening.commits@.len(),
        ),
{
    let ghost before = out@;
    let n: usize = proof.opening.commits.len();
    let lg: usize = n + LOG_BLOWUP;
    let mut at: usize = index;
    let mut r: usize = 0;
    proof {
        vstd::arithmetic::power2::lemma2_to64();
        assert(before + commit_parts(full, *proof, index as nat, cap_height as int, 0) =~= before);
    }
    while r < n
        invariant
            r <= n,
            n == proof.opening.commits@.len(),
            lg == n + LOG_BLOWUP,
            lg == space_of(*proof),
            order_ok(lg as nat),
            at == index as nat / pow2(r as nat),
            forall|k: int|
                0 <= k < n ==> #[trigger] proof.opening.commits@[k]@.len() > (index as nat / pow2((k + 1) as nat)) / pow2(
                    s_cm_depth_at(k, lg as int, cap_height as int) as nat,
                ),
            out@ == before + commit_parts(full, *proof, index as nat, cap_height as int, r as nat),
        decreases n - r,
    {
        proof {
            vstd::arithmetic::power2::lemma_pow2_pos(r as nat);
            vstd::arithmetic::power2::lemma_pow2_unfold((r + 1) as nat);
            vstd::arithmetic::div_mod::lemma_div_denominator(index as int, pow2(r as nat) as int, 2);
            assert(pow2((r + 1) as nat) == pow2(r as nat) * 2);
        }
        at = at / 2;
        let depth: usize = cm_depth_at(r, lg, cap_height);
        proof {
            crate::fri::query::lemma_order_monotone(depth as nat, lg as nat);
        }
        push_cap_part(out, full, &proof.opening.commits[r], at, depth);
        r += 1;
        assert(out@ =~= before + commit_parts(full, *proof, index as nat, cap_height as int, r as nat));
    }
}

/// The window of an inner proof.
fn window_of(
    inner: &InnerAir,
    proof: &StarkProof,
    pvs: &Vec<u64>,
    mode: &WindowMode,
    chs: &Vec<Ext>,
    felts: &Vec<u64>,
    periodic: &Vec<Ext>,
    weights: &Vec<Ext>,
    Ghost(air): Ghost<MonolithAir>,
) -> (out: Vec<u64>)
    requires
        proof_shaped(*inner, *proof, pvs@, mode.cap_height as int),
        mode_fits(*inner, pvs@, *mode),
        is_window_air(air, *inner, *proof, pvs@, *mode),
        chs@.len() == 3 + proof.opening.commits@.len(),
        felts@.len() == proof.opening.queries@.len(),
        periodic@ == columns_at(contents(inner.periodic@), proof.degree_bits as nat, chs@[1]),
        weights@ == chunk_weights(chs@[1], proof.degree_bits as nat, inner.log_chunks as nat),
    ensures
        out@ == window_values(*inner, *proof, pvs@, *mode, chs@, felts@),
        out@.len() == air.s_pis_count(),
{
    proof {
        lemma_window_len(air, *inner, *proof, pvs@, *mode, chs@, felts@);
        lemma_commit_parts_len(
            air,
            *inner,
            *proof,
            pvs@,
            *mode,
            felts@[0],
            proof.opening.commits@.len(),
        );
        vstd::arithmetic::power2::lemma_pow2_pos(space_of(*proof) as nat);
    }
    let full: bool = mode.inner_counter || mode.symbolic;
    let lg: usize = proof.opening.commits.len() + LOG_BLOWUP;
    let index: usize = (felts[0] % (shifted_one(lg) as u64)) as usize;
    let depth: usize = lg - mode.cap_height;
    proof {
        crate::fri::query::lemma_order_monotone(depth as nat, lg as nat);
    }
    let mut out: Vec<u64> = felts_of_exts(chs);
    push_felts(&mut out, felts);
    let constant: Vec<Ext> = vec![proof.opening.final_poly[0]];
    assert(constant@ =~= seq![proof.opening.final_poly@[0]]);
    push_felts(&mut out, &felts_of_exts(&constant));
    if !mode.narrow_caps {
        push_cap_part(&mut out, full, &proof.trace_commit, index, depth);
        push_cap_part(&mut out, full, &proof.quotient_commit, index, depth);
    }
    push_felts(&mut out, pvs);
    if !mode.narrow_caps {
        push_commit_parts(&mut out, full, proof, index, mode.cap_height);
    }
    if mode.symbolic {
        push_felts(&mut out, &felts_of_exts(periodic));
        if proof.quotient_chunks.len() > 1 {
            push_felts(&mut out, &felts_of_exts(weights));
        }
    }
    assert(out@ =~= window_values(*inner, *proof, pvs@, *mode, chs@, felts@));
    out
}

/// The data of a query has the verifier's shape, and its cells have the inverses that they need.
proof fn lemma_query_fits(
    air: MonolithAir,
    inner: InnerAir,
    proof: StarkProof,
    pvs: Seq<u64>,
    mode: WindowMode,
    chs: Seq<Ext>,
    felt: u64,
    q: int,
    d: QueryData,
)
    requires
        proof_shaped(inner, proof, pvs, mode.cap_height as int),
        mode_fits(inner, pvs, mode),
        is_window_air(air, inner, proof, pvs, mode),
        chs.len() == 3 + proof.opening.commits@.len(),
        0 <= q < proof.opening.queries@.len(),
        is_query(d, inner, proof, chs, felt, q),
        off_terms(terms_under(inner, proof, chs, q), point_under(proof, felt)),
        forall|k: int| 0 <= k < d.rounds@.len() ==> is_unit((#[trigger] d.rounds@[k]).point),
    ensures
        air.query_fits(d),
        air.query_inverts(d),
{
    let qp = proof.opening.queries@[q];
    let index = index_under(proof, felt);
    let lg = space_of(proof) as nat;
    assert(query_shaped(qp, inner, proof, mode.cap_height as int));
    lemma_terms_shaped(inner, proof, pvs, mode.cap_height as int, chs, q);
    lemma_steps_shaped(inner, proof, pvs, mode.cap_height as int, chs, felt, q);
    let steps = steps_under(chs, &proof.opening, q);
    vstd::arithmetic::power2::lemma2_to64();
    assert forall|r: int| 0 <= r < d.commits@.len() implies (#[trigger] d.commits@[r]).group@.len() == 4
        && d.commits@[r].path.ok(air.s_cm_depth_r(r)) by {
        let e = chain_eval(steps, d.ro, index, lg, r as nat);
        assert(log_arity(steps[r]) == 1);
        lemma_ext_felts_len(chain_group(steps, index, e, r as nat));
        assert(qp.openings@[r].log_arity == 1);
    }
    law_deep_point_is_query_point(index, lg);
    assert forall|r: int| 0 <= r < d.rounds@.len() implies f_mul(2, (#[trigger] d.rounds@[r]).point) != 0 by {
        lemma_two_unit();
        lemma_units_multiply(2, d.rounds@[r].point);
    }
    assert(qp.input@[0].path@.len() == air.s_input_depth());
    assert(qp.input@[1].path@.len() == air.s_input_depth());
}

/// The challenges of a proof's transcript: the constraint challenge, the point, the batching challenge, one per round.
pub open spec fn window_challenges(proof: StarkProof, pvs: Seq<u64>) -> Seq<Ext> {
    let sq = run(stark_program(proof, pvs)).squeezes;
    Seq::new(
        3 + proof.opening.commits@.len(),
        |j: int| Ext { c0: sq[2 * j].value, c1: sq[2 * j + 1].value },
    )
}

/// The felts behind a proof's query indices.
pub open spec fn window_felts(proof: StarkProof, pvs: Seq<u64>) -> Seq<u64> {
    let sq = run(stark_program(proof, pvs)).squeezes;
    Seq::new(proof.opening.queries@.len(), |k: int| sq[2 * (3 + proof.opening.commits@.len()) + 1 + k].value)
}

/// The constraint identity at the point.
pub open spec fn fold_matches(inner: InnerAir, proof: StarkProof, pvs: Seq<u64>, alpha: Ext, zeta: Ext) -> bool {
    x_same(
        x_mul(
            folded_constraints(
                inner.constraints@,
                ood_openings(inner, proof, pvs, zeta),
                alpha,
                inner.constraints@.len(),
            ),
            selectors(zeta, proof.degree_bits as nat).inv_vanishing,
        ),
        quotient_value(inner, proof, zeta),
    )
}

/// Why a proof gives no instance.
#[derive(Clone, Copy, Debug, PartialEq, Eq, Structural)]
pub enum WindowError {
    /// The evaluation point fell into the trace domain.
    ZetaInDomain,
    /// An opening point is a query point.
    PointIsQuery,
    /// The evaluation point is zero, where a periodic column has no value.
    ZetaIsZero,
    /// The constraints do not match the quotient.
    Constraints,
}

/// A query point is one of the opening points.
pub open spec fn point_hit(inner: InnerAir, proof: StarkProof, chs: Seq<Ext>, felts: Seq<u64>) -> bool {
    exists|q: int|
        0 <= q < proof.opening.queries@.len() && !off_terms(
            #[trigger] terms_under(inner, proof, chs, q),
            point_under(proof, felts[q]),
        )
}

/// Why a proof gives no instance, if it gives none.
pub open spec fn window_error(inner: InnerAir, proof: StarkProof, pvs: Seq<u64>, mode: WindowMode) -> Option<WindowError> {
    let chs = window_challenges(proof, pvs);
    if mode.symbolic && x_same(vanishing(chs[1], proof.degree_bits as nat), x_zero()) {
        Some(WindowError::ZetaInDomain)
    } else if point_hit(inner, proof, chs, window_felts(proof, pvs)) {
        Some(WindowError::PointIsQuery)
    } else if inner.periodic@.len() > 0 && x_same(chs[1], x_zero()) {
        Some(WindowError::ZetaIsZero)
    } else if mode.symbolic && !fold_matches(inner, proof, pvs, chs[0], chs[1]) {
        Some(WindowError::Constraints)
    } else {
        None
    }
}

/// The partial folds at the chunk boundaries.
pub open spec fn fold_marks(constraints: Seq<Wire>, o: NativeView, alpha: Ext, n: nat) -> Seq<u64>
    decreases n,
{
    if n == 0 {
        Seq::empty()
    } else {
        fold_marks(constraints, o, alpha, (n - 1) as nat) + coords(
            folded_constraints(constraints, o, alpha, (FOLD_CHUNK * n) as nat),
        )
    }
}

/// The selector columns of a constraint-tree inner: the first-row and last-row selectors, the inverse of the vanishing
/// polynomial, and the partial folds.
pub open spec fn selector_cells(air: MonolithAir, inner: InnerAir, proof: StarkProof, pvs: Seq<u64>, chs: Seq<Ext>) -> Seq<u64> {
    let sel = selectors(chs[1], proof.degree_bits as nat);
    coords(sel.is_first_row) + coords(sel.is_last_row) + coords(sel.inv_vanishing) + fold_marks(
        inner.constraints@,
        ood_openings(inner, proof, pvs, chs[1]),
        chs[0],
        air.s_n_fold_acc() as nat,
    )
}

/// The selector of the last row takes the transition selector to the vanishing polynomial.
pub open spec fn last_row_selected(zeta: Ext, log_size: nat) -> bool {
    let sel = selectors(zeta, log_size);
    x_mul(sel.is_last_row, sel.is_transition) == vanishing(zeta, log_size)
}

/// An instance of the fused verifier: the verifier, the data of its queries, the window and the trace row by row.
pub struct InnerWindow {
    pub air: MonolithAir,
    pub queries: Vec<QueryData>,
    pub window: Vec<u64>,
    pub cells: Vec<u64>,
}

/// The instance of a proof.
#[verifier::opaque]
pub open spec fn is_window(w: InnerWindow, inner: InnerAir, proof: StarkProof, pvs: Seq<u64>, mode: WindowMode) -> bool {
    let chs = window_challenges(proof, pvs);
    let felts = window_felts(proof, pvs);
    let r = run(stark_program(proof, pvs));
    let trace = w.air.s_trace(r.sim.blocks, w.queries@, chs[2], w.window@);
    &&& is_window_air(w.air, inner, proof, pvs, mode)
    &&& w.air.buildable()
    &&& trace_built(w.air, trace, r.sim.blocks, w.queries@, chs[2])
    &&& mode.symbolic ==> last_row_selected(chs[1], proof.degree_bits as nat)
    &&& w.air.counts@ == r.sim.counts
    &&& forall|j: int| 0 <= j < w.air.binds@.len() ==> #[trigger] w.air.binds@[j] == r.squeezes[2 * j].block
    &&& forall|k: int|
        0 <= k < w.air.index_binds@.len() ==> {
            let s = r.squeezes[2 * (3 + proof.opening.commits@.len()) + 1 + k];
            (#[trigger] w.air.index_binds@[k]).0 == s.block && w.air.index_binds@[k].1 == s.lane
        }
    &&& w.queries@.len() == proof.opening.queries@.len()
    &&& forall|q: int|
        0 <= q < w.queries@.len() ==> is_query(#[trigger] w.queries@[q], inner, proof, chs, felts[q], q)
    &&& forall|q: int| 0 <= q < w.queries@.len() ==> w.air.query_inverts(#[trigger] w.queries@[q])
    &&& w.window@ == window_values(inner, proof, pvs, mode, chs, felts)
    &&& w.cells@ == (if mode.symbolic {
        held(
            trace,
            w.air.s_fused_w(),
            0,
            w.air.s_height() as nat,
            w.air.s_sel_base(),
            selector_cells(w.air, inner, proof, pvs, chs),
        )
    } else {
        trace
    })
    &&& w.cells@.len() == w.air.s_height() * w.air.s_fused_w()
}

/// The partial folds at the chunk boundaries.
fn push_marks(out: &mut Vec<u64>, constraints: &Vec<Wire>, o: &NativeOpenings, alpha: Ext, n: usize)
    requires
        forall|i: int| 0 <= i < constraints@.len() ==> o@.reads(#[trigger] constraints@[i]),
        FOLD_CHUNK * n <= constraints@.len(),
    ensures
        final(out)@ == old(out)@ + fold_marks(constraints@, o@, alpha, n as nat),
        fold_marks(constraints@, o@, alpha, n as nat).len() == 2 * n,
{
    let ghost before = out@;
    let total: usize = constraints.len();
    let mut acc: Ext = Ext::zero();
    let mut i: usize = 0;
    assert(before + fold_marks(constraints@, o@, alpha, 0) =~= before);
    while i < n
        invariant
            i <= n,
            total == constraints@.len(),
            FOLD_CHUNK * n <= total,
            forall|k: int| 0 <= k < constraints@.len() ==> o@.reads(#[trigger] constraints@[k]),
            acc == folded_constraints(constraints@, o@, alpha, (FOLD_CHUNK * i) as nat),
            out@ == before + fold_marks(constraints@, o@, alpha, i as nat),
            fold_marks(constraints@, o@, alpha, i as nat).len() == 2 * i,
        decreases n - i,
    {
        let mut k: usize = 0;
        while k < FOLD_CHUNK
            invariant
                k <= FOLD_CHUNK,
                i < n,
                total == constraints@.len(),
                FOLD_CHUNK * n <= total,
                forall|j: int| 0 <= j < constraints@.len() ==> o@.reads(#[trigger] constraints@[j]),
                acc == folded_constraints(constraints@, o@, alpha, (FOLD_CHUNK * i + k) as nat),
            decreases FOLD_CHUNK - k,
        {
            acc = acc.times(alpha).plus(eval_symbolic_native(&constraints[FOLD_CHUNK * i + k], o));
            k += 1;
        }
        push_coords(out, acc);
        i += 1;
        assert(out@ =~= before + fold_marks(constraints@, o@, alpha, i as nat));
    }
}

/// A copy of constraint trees.
pub(crate) fn copy_wires(v: &Vec<Wire>) -> (r: Vec<Wire>)
    ensures
        r@ == v@,
{
    let mut r: Vec<Wire> = Vec::new();
    let mut i: usize = 0;
    while i < v.len()
        invariant
            i <= v@.len(),
            r@ =~= v@.take(i as int),
        decreases v.len() - i,
    {
        r.push(v[i].clone());
        i += 1;
    }
    assert(r@ =~= v@);
    r
}

/// The data of all queries; nothing where a query point is an opening point.
fn all_queries(
    inner: &InnerAir,
    proof: &StarkProof,
    chs: &Vec<Ext>,
    felts: &Vec<u64>,
    Ghost(pvs): Ghost<Seq<u64>>,
    Ghost(cap_height): Ghost<int>,
) -> (r: Option<Vec<QueryData>>)
    requires
        proof_shaped(*inner, *proof, pvs, cap_height),
        chs@.len() == 3 + proof.opening.commits@.len(),
        felts@.len() == proof.opening.queries@.len(),
    ensures
        r is None <==> point_hit(*inner, *proof, chs@, felts@),
        r matches Some(v) ==> {
            &&& v@.len() == proof.opening.queries@.len()
            &&& forall|q: int| 0 <= q < v@.len() ==> is_query(#[trigger] v@[q], *inner, *proof, chs@, felts@[q], q)
            &&& forall|q: int, k: int|
                0 <= q < v@.len() && 0 <= k < v@[q].rounds@.len() ==> is_unit((#[trigger] v@[q].rounds@[k]).point)
        },
{
    proof {
        crate::fri::query::lemma_order_monotone(proof.degree_bits as nat, space_of(*proof) as nat);
        assert(pow2(inner.log_chunks as nat) == proof.quotient_chunks@.len());
    }
    let n_chunks: usize = proof.quotient_chunks.len();
    let coms: Vec<Round> = claims_of(inner, proof, chs[1]);
    let mut out: Vec<QueryData> = Vec::new();
    let mut q: usize = 0;
    while q < proof.opening.queries.len()
        invariant
            q <= proof.opening.queries@.len(),
            proof_shaped(*inner, *proof, pvs, cap_height),
            chs@.len() == 3 + proof.opening.commits@.len(),
            felts@.len() == proof.opening.queries@.len(),
            claims(coms@) == proof_claims(*inner, *proof, chs@[1]),
            out@.len() == q,
            forall|i: int| 0 <= i < q ==> is_query(#[trigger] out@[i], *inner, *proof, chs@, felts@[i], i),
            forall|i: int, k: int|
                0 <= i < q && 0 <= k < out@[i].rounds@.len() ==> is_unit((#[trigger] out@[i].rounds@[k]).point),
            forall|i: int|
                0 <= i < q ==> off_terms(
                    #[trigger] terms_under(*inner, *proof, chs@, i),
                    point_under(*proof, felts@[i]),
                ),
        decreases proof.opening.queries.len() - q,
    {
        match query_data(inner, proof, &coms, chs, felts[q], q, Ghost(pvs), Ghost(cap_height)) {
            None => {
                assert(!off_terms(
                    terms_under(*inner, *proof, chs@, q as int),
                    point_under(*proof, felts@[q as int]),
                ));
                return None;
            },
            Some(d) => {
                out.push(d);
            },
        }
        q += 1;
    }
    Some(out)
}

/// The verifier of a proof, around a replayed schedule.
fn window_air(
    inner: &InnerAir,
    proof: &StarkProof,
    pvs: &Vec<u64>,
    mode: &WindowMode,
    counts: Vec<u8>,
    binds: Vec<usize>,
    index_binds: Vec<(usize, usize)>,
    n_terms: usize,
) -> (air: MonolithAir)
    requires
        counts@.len() == load(stark_program(*proof, pvs@)).0,
        binds@.len() == 3 + proof.opening.commits@.len(),
        index_binds@.len() == proof.opening.queries@.len(),
        n_terms == 2 * inner.width + 2 * proof.quotient_chunks@.len(),
    ensures
        is_window_air(air, *inner, *proof, pvs@, *mode),
        air.counts@ == counts@,
        air.binds@ == binds@,
        air.index_binds@ == index_binds@,
{
    MonolithAir {
        counts,
        binds,
        index_binds,
        n_queries: proof.opening.queries.len(),
        n_terms,
        inner_counter: mode.inner_counter,
        column_window: mode.column_window,
        k_instances: 1,
        fold: false,
        fold_txstmt: false,
        constraints: if mode.symbolic {
            copy_wires(&inner.constraints)
        } else {
            Vec::new()
        },
        w_inner_f: inner.width,
        n_pub_f: pvs.len(),
        n_periodic_f: inner.periodic.len(),
        is_zk: 0,
        cap_height: mode.cap_height,
        narrow_arith: mode.narrow_arith,
        narrow_caps: mode.narrow_caps,
        narrow_openings: mode.narrow_openings,
        narrow_ov: mode.narrow_ov,
        lookup: None,
        txroot_dom: mode.txroot_dom,
    }
}

/// The data of all queries has the verifier's shape and its inverses.
proof fn lemma_all_fit(
    air: MonolithAir,
    inner: InnerAir,
    proof: StarkProof,
    pvs: Seq<u64>,
    mode: WindowMode,
    chs: Seq<Ext>,
    felts: Seq<u64>,
    queries: Seq<QueryData>,
)
    requires
        proof_shaped(inner, proof, pvs, mode.cap_height as int),
        mode_fits(inner, pvs, mode),
        is_window_air(air, inner, proof, pvs, mode),
        chs.len() == 3 + proof.opening.commits@.len(),
        queries.len() == proof.opening.queries@.len(),
        !point_hit(inner, proof, chs, felts),
        forall|q: int| 0 <= q < queries.len() ==> is_query(#[trigger] queries[q], inner, proof, chs, felts[q], q),
        forall|q: int, k: int|
            0 <= q < queries.len() && 0 <= k < queries[q].rounds@.len() ==> is_unit(
                (#[trigger] queries[q].rounds@[k]).point,
            ),
    ensures
        forall|q: int| 0 <= q < queries.len() ==> air.query_fits(#[trigger] queries[q]),
        forall|q: int| 0 <= q < queries.len() ==> air.query_inverts(#[trigger] queries[q]),
{
    assert forall|q: int| 0 <= q < queries.len() implies air.query_fits(#[trigger] queries[q]) && air.query_inverts(
        queries[q],
    ) by {
        assert(off_terms(terms_under(inner, proof, chs, q), point_under(proof, felts[q])));
        lemma_query_fits(air, inner, proof, pvs, mode, chs, felts[q], q, queries[q]);
    }
}

/// The recorded blocks have eight lanes, and there is one per count.
proof fn lemma_blocks_are_wide(blocks: Seq<Vec<u64>>, sim: SimView)
    requires
        contents(blocks) == sim.blocks,
        schedule_ok(sim),
    ensures
        blocks.len() == sim.counts.len(),
        forall|b: int| 0 <= b < blocks.len() ==> (#[trigger] blocks[b])@.len() == 8,
{
    assert(contents(blocks).len() == blocks.len());
    assert forall|b: int| 0 <= b < blocks.len() implies (#[trigger] blocks[b])@.len() == 8 by {
        assert(contents(blocks)[b] == sim.blocks[b]);
        assert(block_follows(sim.blocks, sim.counts, b));
    }
}

/// The trace, with the selector columns where there are any.
#[verifier::spinoff_prover]
#[verifier::rlimit(80)]
fn filled(
    air: &MonolithAir,
    blocks: &Vec<Vec<u64>>,
    queries: &Vec<QueryData>,
    alpha_fri: Ext,
    window: &Vec<u64>,
    marks: &Option<Vec<u64>>,
) -> (cells: Vec<u64>)
    requires
        air.buildable(),
        air.k_instances == 1,
        !air.fold,
        blocks@.len() == air.counts@.len(),
        forall|b: int| 0 <= b < blocks@.len() ==> (#[trigger] blocks@[b])@.len() == 8,
        queries@.len() == air.n_queries,
        forall|q: int| 0 <= q < queries@.len() ==> air.query_fits(#[trigger] queries@[q]),
        forall|q: int| 0 <= q < queries@.len() ==> air.query_inverts(#[trigger] queries@[q]),
        window@.len() == air.s_pis_count(),
        marks matches Some(v) ==> air.s_sel_base() + v@.len() <= air.s_fused_w(),
    ensures
        cells@.len() == air.s_height() * air.s_fused_w(),
        trace_built(
            *air,
            air.s_trace(contents(blocks@), queries@, alpha_fri, window@),
            contents(blocks@),
            queries@,
            alpha_fri,
        ),
        cells@ == ({
            let trace = air.s_trace(contents(blocks@), queries@, alpha_fri, window@);
            match marks {
                Some(v) => held(trace, air.s_fused_w(), 0, air.s_height() as nat, air.s_sel_base(), v@),
                None => trace,
            }
        }),
{
    proof {
        air.lemma_bounds();
        assert(1 * air.s_inst_h() == air.s_inst_h());
    }
    let mut cells: Vec<u64> = monolith_build_trace(air, blocks, queries, alpha_fri, window).unwrap();
    if let Some(v) = marks {
        let h: usize = air.height();
        hold_rows(&mut cells, air.fused_w(), Ghost(h as int), 0, h, air.sel_base(), v);
    }
    cells
}

/// The instance of the fused verifier for an inner proof: replay its transcript, collect the data of its queries, hold
/// its constraints against the quotient, lay out the window, and fill the trace with the selectors at the point.
#[verifier::spinoff_prover]
#[verifier::rlimit(60)]
pub fn inner_window(inner: &InnerAir, proof: &StarkProof, pvs: &Vec<u64>, mode: &WindowMode) -> (r: Result<
    InnerWindow,
    WindowError,
>)
    requires
        proof_shaped(*inner, *proof, pvs@, mode.cap_height as int),
        mode_fits(*inner, pvs@, *mode),
        forall|air: MonolithAir| #[trigger] is_window_air(air, *inner, *proof, pvs@, *mode) ==> air.buildable(),
    ensures
        r is Ok <==> window_error(*inner, *proof, pvs@, *mode) is None,
        r matches Err(e) ==> window_error(*inner, *proof, pvs@, *mode) == Some(e),
        r matches Ok(w) ==> is_window(w, *inner, *proof, pvs@, *mode),
{
    let rep: Replay = sim_full(proof, pvs);
    let ghost ops = stark_program(*proof, pvs@);
    let chs: Vec<Ext> = rep.challenges;
    let felts: Vec<u64> = rep.index_felts;
    proof {
        assert(chs@ =~= window_challenges(*proof, pvs@));
        assert(felts@ =~= window_felts(*proof, pvs@));
        assert(pow2(inner.log_chunks as nat) == proof.quotient_chunks@.len());
        crate::fri::query::lemma_order_monotone(proof.degree_bits as nat, space_of(*proof) as nat);
    }
    let zeta: Ext = chs[1];
    if mode.symbolic && vanishing_at(zeta, proof.degree_bits).same(Ext::zero()) {
        return Err(WindowError::ZetaInDomain);
    }
    let queries: Vec<QueryData> = match all_queries(
        inner,
        proof,
        &chs,
        &felts,
        Ghost(pvs@),
        Ghost(mode.cap_height as int),
    ) {
        None => {
            return Err(WindowError::PointIsQuery);
        },
        Some(v) => v,
    };
    let n_chunks: usize = proof.quotient_chunks.len();
    assert(pow2(inner.log_chunks as nat) == n_chunks);
    assert(contents(inner.periodic@).len() == inner.periodic@.len());
    let periodic: Vec<Ext> = match periodic_at(&inner.periodic, proof.degree_bits, zeta) {
        None => {
            return Err(WindowError::ZetaIsZero);
        },
        Some(v) => v,
    };
    let weights: Vec<Ext> = quotient_recompose_weights(zeta, proof.degree_bits, inner.log_chunks);
    proof {
        lemma_terms_shaped(*inner, *proof, pvs@, mode.cap_height as int, chs@, 0);
        assert(is_query(queries@[0], *inner, *proof, chs@, felts@[0], 0));
    }
    let n_terms: usize = queries[0].terms.len();
    let air: MonolithAir = window_air(inner, proof, pvs, mode, rep.counts, rep.binds, rep.index_binds, n_terms);
    let window: Vec<u64> = window_of(inner, proof, pvs, mode, &chs, &felts, &periodic, &weights, Ghost(air));
    let marks: Option<Vec<u64>> = if mode.symbolic {
        match selector_run(inner, proof, pvs, chs[0], zeta, periodic, &weights, air.n_fold_acc()) {
            Some(v) => Some(v),
            None => {
                return Err(WindowError::Constraints);
            },
        }
    } else {
        None
    };
    proof {
        lemma_all_fit(air, *inner, *proof, pvs@, *mode, chs@, felts@, queries@);
        lemma_blocks_are_wide(rep.block_inputs@, run(ops).sim);
    }
    let cells: Vec<u64> = filled(&air, &rep.block_inputs, &queries, chs[2], &window, &marks);
    reveal(is_window);
    Ok(InnerWindow { air, queries, window, cells })
}

/// The selector columns of a constraint-tree inner; nothing where its constraints do not match the quotient.
fn selector_run(
    inner: &InnerAir,
    proof: &StarkProof,
    pvs: &Vec<u64>,
    alpha: Ext,
    zeta: Ext,
    periodic: Vec<Ext>,
    weights: &Vec<Ext>,
    marks: usize,
) -> (r: Option<Vec<u64>>)
    requires
        proof.degree_bits <= TWO_ADICITY,
        !x_same(vanishing(zeta, proof.degree_bits as nat), x_zero()),
        periodic@ == columns_at(contents(inner.periodic@), proof.degree_bits as nat, zeta),
        weights@ == chunk_weights(zeta, proof.degree_bits as nat, inner.log_chunks as nat),
        proof.trace_local@.len() == inner.width,
        proof.trace_next is Some,
        proof.trace_next.unwrap()@.len() == inner.width,
        air_ok(*inner, pvs@.len()),
        chunks_fit(proof.quotient_chunks@, pow2(inner.log_chunks as nat)),
        FOLD_CHUNK * marks <= inner.constraints@.len(),
    ensures
        r is Some <==> fold_matches(*inner, *proof, pvs@, alpha, zeta),
        last_row_selected(zeta, proof.degree_bits as nat),
        r matches Some(v) ==> v@.len() == 6 + 2 * marks && v@ == ({
            let sel = selectors(zeta, proof.degree_bits as nat);
            coords(sel.is_first_row) + coords(sel.is_last_row) + coords(sel.inv_vanishing) + fold_marks(
                inner.constraints@,
                ood_openings(*inner, *proof, pvs@, zeta),
                alpha,
                marks as nat,
            )
        }),
{
    let (o, sel): (NativeOpenings, Selectors) = epilogue_openings(inner, proof, pvs, zeta, periodic);
    assert forall|i: int| 0 <= i < inner.constraints@.len() implies o@.reads(#[trigger] inner.constraints@[i]) by {}
    let folded: Ext = fold_constraints(&inner.constraints, &o, alpha);
    let quotient: Ext = recompose_quotient(weights, &proof.quotient_chunks);
    if !folded.times(sel.inv_vanishing).same(quotient) {
        return None;
    }
    let mut out: Vec<u64> = Vec::new();
    push_coords(&mut out, sel.is_first_row);
    push_coords(&mut out, sel.is_last_row);
    push_coords(&mut out, sel.inv_vanishing);
    push_marks(&mut out, &inner.constraints, &o, alpha, marks);
    Some(out)
}

/// The mode of a constant column whose values live in columns.
pub open spec fn constant_mode(cap_height: usize) -> WindowMode {
    WindowMode {
        symbolic: false,
        inner_counter: false,
        column_window: true,
        narrow_caps: false,
        narrow_arith: false,
        narrow_openings: false,
        narrow_ov: false,
        cap_height,
        txroot_dom: 0,
    }
}

/// The instance for a proof of a constant column, with its values in columns.
pub fn build_inner_window(inner: &InnerAir, proof: &StarkProof, pvs: &Vec<u64>, cap_height: usize) -> (r: Result<
    InnerWindow,
    WindowError,
>)
    requires
        proof_shaped(*inner, *proof, pvs@, cap_height as int),
        mode_fits(*inner, pvs@, constant_mode(cap_height)),
        forall|air: MonolithAir| #[trigger]
            is_window_air(air, *inner, *proof, pvs@, constant_mode(cap_height)) ==> air.buildable(),
    ensures
        r is Ok <==> window_error(*inner, *proof, pvs@, constant_mode(cap_height)) is None,
        r matches Err(e) ==> window_error(*inner, *proof, pvs@, constant_mode(cap_height)) == Some(e),
        r matches Ok(w) ==> is_window(w, *inner, *proof, pvs@, constant_mode(cap_height)),
{
    let mode: WindowMode = WindowMode {
        symbolic: false,
        inner_counter: false,
        column_window: true,
        narrow_caps: false,
        narrow_arith: false,
        narrow_openings: false,
        narrow_ov: false,
        cap_height,
        txroot_dom: 0,
    };
    assert(mode == constant_mode(cap_height));
    inner_window(inner, proof, pvs, &mode)
}

/// The mode of an inner given by its trees, with its values in columns and some parts left out.
pub open spec fn symbolic_mode(
    cap_height: usize,
    txroot_dom: u64,
    narrow_caps: bool,
    narrow_arith: bool,
    narrow_openings: bool,
    narrow_ov: bool,
) -> WindowMode {
    WindowMode {
        symbolic: true,
        inner_counter: false,
        column_window: true,
        narrow_caps,
        narrow_arith,
        narrow_openings,
        narrow_ov,
        cap_height,
        txroot_dom,
    }
}

/// The instance for a proof of an inner given by its constraint trees, with its values in columns.
pub fn build_symbolic_inner_window(
    inner: &InnerAir,
    proof: &StarkProof,
    pvs: &Vec<u64>,
    cap_height: usize,
    txroot_dom: u64,
    narrow_caps: bool,
    narrow_arith: bool,
    narrow_openings: bool,
    narrow_ov: bool,
) -> (r: Result<InnerWindow, WindowError>)
    requires
        proof_shaped(*inner, *proof, pvs@, cap_height as int),
        inner.constraints@.len() > 0,
        forall|air: MonolithAir| #[trigger]
            is_window_air(
                air,
                *inner,
                *proof,
                pvs@,
                symbolic_mode(cap_height, txroot_dom, narrow_caps, narrow_arith, narrow_openings, narrow_ov),
            ) ==> air.buildable(),
    ensures
        ({
            let mode = symbolic_mode(cap_height, txroot_dom, narrow_caps, narrow_arith, narrow_openings, narrow_ov);
            &&& r is Ok <==> window_error(*inner, *proof, pvs@, mode) is None
            &&& r matches Err(e) ==> window_error(*inner, *proof, pvs@, mode) == Some(e)
            &&& r matches Ok(w) ==> is_window(w, *inner, *proof, pvs@, mode)
        }),
{
    let mode: WindowMode = WindowMode {
        symbolic: true,
        inner_counter: false,
        column_window: true,
        narrow_caps,
        narrow_arith,
        narrow_openings,
        narrow_ov,
        cap_height,
        txroot_dom,
    };
    assert(mode == symbolic_mode(cap_height, txroot_dom, narrow_caps, narrow_arith, narrow_openings, narrow_ov));
    inner_window(inner, proof, pvs, &mode)
}

/// A window is laid out as the verifier reads it: each challenge, index felt and public value stands at its place, and so
/// do the final constant, the periodic values and the recomposition weights.
#[verifier::spinoff_prover]
#[verifier::rlimit(60)]
pub proof fn law_window_layout(
    air: MonolithAir,
    inner: InnerAir,
    proof: StarkProof,
    pvs: Seq<u64>,
    mode: WindowMode,
    chs: Seq<Ext>,
    felts: Seq<u64>,
)
    requires
        proof_shaped(inner, proof, pvs, mode.cap_height as int),
        mode_fits(inner, pvs, mode),
        follows_inner(air, inner, proof, pvs, mode),
        chs.len() == 3 + proof.opening.commits@.len(),
        felts.len() == proof.opening.queries@.len(),
    ensures
        ({
            let w = window_values(inner, proof, pvs, mode, chs, felts);
            let weights = chunk_weights(chs[1], proof.degree_bits as nat, inner.log_chunks as nat);
            let periodic = columns_at(contents(inner.periodic@), proof.degree_bits as nat, chs[1]);
            let fp = proof.opening.final_poly@[0];
            &&& w.len() == air.s_pis_count()
            &&& forall|j: int| 0 <= j < chs.len() ==> w[2 * j] == (#[trigger] chs[j]).c0 && w[2 * j + 1] == chs[j].c1
            &&& forall|k: int| 0 <= k < felts.len() ==> w[2 * air.s_nb() + k] == #[trigger] felts[k]
            &&& w[2 * air.s_nb() + air.s_ni()] == fp.c0
            &&& w[2 * air.s_nb() + air.s_ni() + 1] == fp.c1
            &&& forall|i: int| 0 <= i < pvs.len() ==> w[air.s_pub_pi() + i] == #[trigger] pvs[i]
            &&& mode.symbolic ==> forall|i: int|
                0 <= i < periodic.len() ==> w[air.s_periodic_base() + 2 * i] == (#[trigger] periodic[i]).c0
                    && w[air.s_periodic_base() + 2 * i + 1] == periodic[i].c1
            &&& mode.symbolic && proof.quotient_chunks@.len() > 1 ==> forall|i: int|
                0 <= i < weights.len() ==> w[air.s_qwt_base() + 2 * i] == (#[trigger] weights[i]).c0 && w[air.s_qwt_base()
                    + 2 * i + 1] == weights[i].c1
        }),
{
    let w = window_values(inner, proof, pvs, mode, chs, felts);
    let full = mode.inner_counter || mode.symbolic;
    let index = index_under(proof, felts[0]);
    let ch = mode.cap_height as int;
    let depth = (space_of(proof) - ch) as nat;
    let weights = chunk_weights(chs[1], proof.degree_bits as nat, inner.log_chunks as nat);
    let periodic = columns_at(contents(inner.periodic@), proof.degree_bits as nat, chs[1]);
    lemma_window_len(air, inner, proof, pvs, mode, chs, felts);
    lemma_commit_parts_len(air, inner, proof, pvs, mode, felts[0], proof.opening.commits@.len());
    lemma_ext_felts_at(chs);
    lemma_ext_felts_at(seq![proof.opening.final_poly@[0]]);
    lemma_ext_felts_at(periodic);
    lemma_ext_felts_at(weights);
    lemma_digest_felts_len(proof.trace_commit@);
    lemma_digest_felts_len(proof.quotient_commit@);
    vstd::arithmetic::power2::lemma2_to64();
    vstd::arithmetic::power2::lemma_pow2_pos(depth);
    vstd::arithmetic::div_mod::lemma_div_pos_is_pos(index as int, pow2(depth) as int);
    let at = (index / pow2(depth)) as int;
    assert(proof.trace_commit@[at]@.len() == 4);
    assert(proof.quotient_commit@[at]@.len() == 4);
    assert(air.s_nqc() == proof.quotient_chunks@.len());
    let head = ext_felts(chs) + felts + ext_felts(seq![proof.opening.final_poly@[0]]);
    let caps = if mode.narrow_caps {
        Seq::empty()
    } else {
        cap_part(full, proof.trace_commit@, index, depth) + cap_part(full, proof.quotient_commit@, index, depth)
    };
    assert((head + caps).len() == air.s_pub_pi());
    assert forall|j: int| 0 <= j < chs.len() implies w[2 * j] == (#[trigger] chs[j]).c0 && w[2 * j + 1] == chs[j].c1 by {
        assert(ext_felts(chs)[2 * j] == chs[j].c0 && ext_felts(chs)[2 * j + 1] == chs[j].c1);
    }
    assert(seq![proof.opening.final_poly@[0]][0] == proof.opening.final_poly@[0]);
    if mode.symbolic {
        assert forall|i: int| 0 <= i < periodic.len() implies w[air.s_periodic_base() + 2 * i] == (
        #[trigger] periodic[i]).c0 && w[air.s_periodic_base() + 2 * i + 1] == periodic[i].c1 by {
            assert(ext_felts(periodic)[2 * i] == periodic[i].c0 && ext_felts(periodic)[2 * i + 1] == periodic[i].c1);
        }
        if proof.quotient_chunks@.len() > 1 {
            assert forall|i: int| 0 <= i < weights.len() implies w[air.s_qwt_base() + 2 * i] == (
            #[trigger] weights[i]).c0 && w[air.s_qwt_base() + 2 * i + 1] == weights[i].c1 by {
                assert(ext_felts(weights)[2 * i] == weights[i].c0 && ext_felts(weights)[2 * i + 1] == weights[i].c1);
            }
        }
    }
}

/// The felts of a run of elements, coordinate by coordinate.
proof fn lemma_ext_felts_at(xs: Seq<Ext>)
    ensures
        ext_felts(xs).len() == 2 * xs.len(),
        forall|i: int|
            0 <= i < xs.len() ==> ext_felts(xs)[2 * i] == (#[trigger] xs[i]).c0 && ext_felts(xs)[2 * i + 1] == xs[i].c1,
    decreases xs.len(),
{
    if xs.len() > 0 {
        lemma_ext_felts_at(xs.drop_last());
        assert forall|i: int| 0 <= i < xs.len() implies ext_felts(xs)[2 * i] == (#[trigger] xs[i]).c0 && ext_felts(xs)[2 * i
            + 1] == xs[i].c1 by {
            if i < xs.len() - 1 {
                assert(xs.drop_last()[i] == xs[i]);
            }
        }
    }
}

/// The window carries the challenges of the verification: the constraint challenge, the point and the batching challenge
/// are those that the verifier draws, its fold challenges and query indices as well, and the constraint identity that is
/// held against the quotient is the verifier's. This holds of parameters without work per round.
pub proof fn law_window_is_verification(params: FriParams, inner: InnerAir, proof: StarkProof, pvs: Seq<u64>, cap_height: int)
    requires
        proof_shaped(inner, proof, pvs, cap_height),
        params.commit_pow_bits == 0,
        params.query_pow_bits > 0,
        proof.opening.commits@.len() == proof.opening.commit_pow@.len(),
    ensures
        ({
            let chs = window_challenges(proof, pvs);
            let felts = window_felts(proof, pvs);
            let t = after_sample_ext(fri_sponge(inner, proof, pvs));
            let u = after_work(
                params.query_pow_bits,
                before_queries(params, proof.opening, t),
                proof.opening.query_pow,
            );
            &&& chs[0] == stark_alpha(proof, pvs)
            &&& chs[1] == stark_zeta(proof, pvs)
            &&& chs[2] == sampled_ext(fri_sponge(inner, proof, pvs))
            &&& forall|r: nat|
                r < proof.opening.commits@.len() ==> chs[3 + r as int] == #[trigger] beta_of(params, proof.opening, t, r)
            &&& forall|q: nat|
                q < proof.opening.queries@.len() ==> #[trigger] index_of(u, q, space_of(proof) as nat) == index_under(
                    proof,
                    felts[q as int],
                )
            &&& fold_matches(inner, proof, pvs, chs[0], chs[1]) == ood_holds(inner, proof, pvs)
        }),
{
    assert(chunk_count(inner, proof) == proof.quotient_chunks@.len());
    assert(opened_values(inner, proof) == all_opened(proof));
    law_replay_draws_challenges(params, inner, proof, pvs);
    let t = after_sample_ext(fri_sponge(inner, proof, pvs));
    let chs = window_challenges(proof, pvs);
    assert forall|r: nat| r < proof.opening.commits@.len() implies chs[3 + r as int] == #[trigger] beta_of(
        params,
        proof.opening,
        t,
        r,
    ) by {
        assert(is_challenge(run(stark_program(proof, pvs)).squeezes, 6 + 2 * r as int, beta_of(params, proof.opening, t, r)));
    }
}

/// Which proofs give an instance: those whose point lies off the trace domain and whose constraints match the quotient there,
/// where the constraints are given by their trees, whose opening points are no query points, and whose point is not zero where
/// periodic columns are read at it. The first that fails is told, in this order but for the constraints, which come last.
pub proof fn law_window_refusals(inner: InnerAir, proof: StarkProof, pvs: Seq<u64>, mode: WindowMode)
    ensures
        ({
            let e = window_error(inner, proof, pvs, mode);
            let chs = window_challenges(proof, pvs);
            let felts = window_felts(proof, pvs);
            let inside = x_same(x_square_times(chs[1], proof.degree_bits as nat), x_one());
            let hit = exists|q: int|
                0 <= q < proof.opening.queries@.len() && !off_terms(
                    #[trigger] terms_under(inner, proof, chs, q),
                    point_under(proof, felts[q]),
                );
            let zero = inner.periodic@.len() > 0 && x_same(chs[1], x_zero());
            let wrong = !fold_matches(inner, proof, pvs, chs[0], chs[1]);
            &&& e == Some(WindowError::ZetaInDomain) <==> mode.symbolic && inside
            &&& e == Some(WindowError::PointIsQuery) <==> !(mode.symbolic && inside) && hit
            &&& e == Some(WindowError::ZetaIsZero) <==> !(mode.symbolic && inside) && !hit && zero
            &&& e == Some(WindowError::Constraints) <==> mode.symbolic && !inside && !hit && !zero && wrong
            &&& e is None <==> !(mode.symbolic && (inside || wrong)) && !hit && !zero
        }),
{
    let chs = window_challenges(proof, pvs);
    crate::field::lemma_same_iff_zero_difference(x_square_times(chs[1], proof.degree_bits as nat), x_one());
}

} // verus!
