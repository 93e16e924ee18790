//! What an accepted proof of low degree satisfies, condition by condition.

use vstd::arithmetic::power2::pow2;
use vstd::prelude::*;

use crate::field::{x_add, x_base, x_mul, x_same, x_square_times, x_zero, Ext};
use crate::fri::fold::folded_row;
use crate::fri::input::{
    batch_dims, batch_error, batch_has, batches_error, claims_error, input_has, input_result, log_height, opening_at,
    openings_below, points_error, query_x, tallest, BatchOpening, MatrixView, PointView, RoundView,
};
use crate::fri::merkle::{batch_opens, climbed, contents, reduced_digest};
use crate::fri::query::{
    final_point, fold_state, lemma_stays_refused, poly_at, query_result, CommitStep, FoldState, FriParams, QueryError,
};
use crate::fri::verify::{
    after_rounds, after_samples, after_work, any_matrix, before_queries, beta_of, committed, first_openings, fri_error,
    index_of, log_domain, opening_arities, queries_error, query_error, round_count, steps_of, tallest_of, work_done,
    FriError, FriProof,
};
use crate::poseidon::leaf_hash;
use crate::transcript::{
    after_sample, after_sample_ext, digest_felts, ext_felts, observed, observed_all, sampled, sampled_ext, SpongeView,
};

verus! {

/// The claims on one matrix fit the opened row: as many values at every point as the row has columns, and no point is the
/// query point.
pub open spec fn row_fits(row: Seq<u64>, m: MatrixView, x: u64) -> bool {
    forall|j: int|
        0 <= j < m.points.len() ==> row.len() == (#[trigger] m.points[j]).values.len() && !x_same(
            m.points[j].z,
            x_base(x),
        )
}

/// An opened batch is as claimed: a row for every matrix, points for every matrix, a path to the commitment from where the
/// index leads in the tallest one, and fitting claims.
pub open spec fn batch_fits(
    cap_height: usize,
    log_blowup: usize,
    log_global: nat,
    index: nat,
    opening: BatchOpening,
    round: RoundView,
) -> bool {
    let mats = round.matrices;
    &&& opening.rows@.len() == mats.len()
    &&& forall|m: int| 0 <= m < mats.len() ==> (#[trigger] mats[m]).points.len() > 0
    &&& batch_opens(
        cap_height as nat,
        round.commit,
        batch_dims(mats, log_blowup),
        if mats.len() == 0 {
            0
        } else {
            index / pow2((log_global - tallest(mats, log_blowup, mats.len())) as nat)
        },
        contents(opening.rows@),
        contents(opening.path@),
    )
    &&& forall|m: int|
        0 <= m < mats.len() ==> row_fits(
            opening.rows@[m]@,
            #[trigger] mats[m],
            query_x(index, log_global, (mats[m].log_size + log_blowup) as nat),
        )
}

proof fn lemma_points_fit(row: Seq<u64>, pts: Seq<PointView>, x: u64, n: nat)
    requires
        n <= pts.len(),
    ensures
        points_error(row, pts, x, n) is None <==> forall|j: int|
            0 <= j < n ==> row.len() == (#[trigger] pts[j]).values.len() && !x_same(pts[j].z, x_base(x)),
    decreases n,
{
    if n > 0 {
        lemma_points_fit(row, pts, x, (n - 1) as nat);
        assert(pts[n - 1] == pts[n - 1]);
    }
}

proof fn lemma_claims_fit(
    rows: Seq<Vec<u64>>,
    mats: Seq<MatrixView>,
    log_blowup: usize,
    index: nat,
    log_global: nat,
    n: nat,
)
    requires
        n <= mats.len(),
    ensures
        claims_error(rows, mats, log_blowup, index, log_global, n) is None <==> forall|m: int|
            0 <= m < n ==> row_fits(
                rows[m]@,
                #[trigger] mats[m],
                query_x(index, log_global, (mats[m].log_size + log_blowup) as nat),
            ),
    decreases n,
{
    if n > 0 {
        lemma_claims_fit(rows, mats, log_blowup, index, log_global, (n - 1) as nat);
        let m = mats[n - 1];
        lemma_points_fit(rows[n - 1]@, m.points, query_x(index, log_global, log_height(m, log_blowup)), m.points.len());
    }
}

proof fn lemma_batches_fit(
    cap_height: usize,
    log_blowup: usize,
    log_global: nat,
    index: nat,
    input: Seq<BatchOpening>,
    coms: Seq<RoundView>,
    n: nat,
)
    requires
        n <= coms.len(),
        n <= input.len(),
    ensures
        batches_error(cap_height, log_blowup, log_global, index, input, coms, n) is None <==> forall|b: int|
            0 <= b < n ==> #[trigger] batch_fits(cap_height, log_blowup, log_global, index, input[b], coms[b]),
    decreases n,
{
    if n > 0 {
        lemma_batches_fit(cap_height, log_blowup, log_global, index, input, coms, (n - 1) as nat);
        let (o, c) = (input[n - 1], coms[n - 1]);
        lemma_claims_fit(o.rows@, c.matrices, log_blowup, index, log_global, c.matrices.len());
        assert(batch_error(cap_height, log_blowup, log_global, index, o, c) is None <==> batch_fits(
            cap_height,
            log_blowup,
            log_global,
            index,
            o,
            c,
        ));
    }
}

/// A committed matrix of a height.
pub open spec fn has_matrix(coms: Seq<RoundView>, log_blowup: usize, height: nat) -> bool {
    exists|b: int, m: int|
        0 <= b < coms.len() && 0 <= m < coms[b].matrices.len() && (#[trigger] coms[b].matrices[m]).log_size + log_blowup
            == height
}

proof fn lemma_batch_has(mats: Seq<MatrixView>, log_blowup: usize, height: nat, n: nat)
    requires
        n <= mats.len(),
    ensures
        batch_has(mats, log_blowup, height, n) <==> exists|m: int|
            0 <= m < n && (#[trigger] mats[m]).log_size + log_blowup == height,
    decreases n,
{
    if n > 0 {
        lemma_batch_has(mats, log_blowup, height, (n - 1) as nat);
        assert(mats[n - 1] == mats[n - 1]);
    }
}

proof fn lemma_input_has(coms: Seq<RoundView>, log_blowup: usize, height: nat, n: nat)
    requires
        n <= coms.len(),
    ensures
        input_has(coms, log_blowup, height, n) <==> exists|b: int, m: int|
            0 <= b < n && 0 <= m < coms[b].matrices.len() && (#[trigger] coms[b].matrices[m]).log_size + log_blowup
                == height,
    decreases n,
{
    if n > 0 {
        lemma_input_has(coms, log_blowup, height, (n - 1) as nat);
        let mats = coms[n - 1].matrices;
        lemma_batch_has(mats, log_blowup, height, mats.len());
        if batch_has(mats, log_blowup, height, mats.len()) {
            let m = choose|m: int| 0 <= m < mats.len() && (#[trigger] mats[m]).log_size + log_blowup == height;
            assert(coms[n - 1].matrices[m].log_size + log_blowup == height);
        }
        if input_has(coms, log_blowup, height, (n - 1) as nat) {
            let (b, m) = choose|b: int, m: int|
                0 <= b < n - 1 && 0 <= m < coms[b].matrices.len() && (#[trigger] coms[b].matrices[m]).log_size
                    + log_blowup == height;
            assert(coms[b].matrices[m].log_size + log_blowup == height);
        }
    }
}

/// The heights of the reduced openings: those of the committed matrices, tallest first, each once.
proof fn lemma_openings_sorted(
    log_blowup: usize,
    log_global: nat,
    index: nat,
    alpha: Ext,
    input: Seq<BatchOpening>,
    coms: Seq<RoundView>,
    top: nat,
)
    requires
        top <= usize::MAX,
    ensures
        ({
            let ro = openings_below(log_blowup, log_global, index, alpha, input, coms, top);
            &&& forall|i: int, j: int| 0 <= i < j < ro.len() ==> (#[trigger] ro[i]).0 > (#[trigger] ro[j]).0
            &&& forall|i: int|
                0 <= i < ro.len() ==> (#[trigger] ro[i]).0 < top && input_has(coms, log_blowup, ro[i].0 as nat, coms.len())
                    && ro[i].1 == opening_at(log_blowup, log_global, index, alpha, input, coms, ro[i].0 as nat)
            &&& forall|h: nat|
                h < top && #[trigger] input_has(coms, log_blowup, h, coms.len()) ==> exists|i: int|
                    0 <= i < ro.len() && (#[trigger] ro[i]).0 == h
        }),
    decreases top,
{
    if top > 0 {
        let h = (top - 1) as nat;
        lemma_openings_sorted(log_blowup, log_global, index, alpha, input, coms, h);
        let rest = openings_below(log_blowup, log_global, index, alpha, input, coms, h);
        let ro = openings_below(log_blowup, log_global, index, alpha, input, coms, top);
        if input_has(coms, log_blowup, h, coms.len()) {
            assert(ro[0].0 == h);
            assert forall|i: int| 1 <= i < ro.len() implies #[trigger] ro[i] == rest[i - 1] by {}
            assert forall|g: nat| g < top && #[trigger] input_has(coms, log_blowup, g, coms.len()) implies exists|i: int|
                0 <= i < ro.len() && (#[trigger] ro[i]).0 == g by {
                if g < h {
                    let i = choose|i: int| 0 <= i < rest.len() && (#[trigger] rest[i]).0 == g;
                    assert(ro[i + 1].0 == g);
                }
            }
        }
    }
}

/// The input of a query is taken exactly if there is one opened batch for every commitment, each as claimed, and the
/// constant that a matrix of a single row leaves is zero. What it is reduced to is then one value for the height of every
/// committed matrix, tallest first: the reduced opening of the claims at that height.
pub proof fn law_input_is_taken(
    cap_height: usize,
    log_blowup: usize,
    log_global: nat,
    index: nat,
    alpha: Ext,
    input: Seq<BatchOpening>,
    coms: Seq<RoundView>,
)
    requires
        log_global < usize::MAX,
    ensures
        ({
            let r = input_result(cap_height, log_blowup, log_global, index, alpha, input, coms);
            &&& r is Ok <==> {
                &&& input.len() == coms.len()
                &&& forall|b: int|
                    0 <= b < coms.len() ==> #[trigger] batch_fits(
                        cap_height,
                        log_blowup,
                        log_global,
                        index,
                        input[b],
                        coms[b],
                    )
                &&& has_matrix(coms, log_blowup, log_blowup as nat) ==> x_same(
                    opening_at(log_blowup, log_global, index, alpha, input, coms, log_blowup as nat),
                    x_zero(),
                )
            }
            &&& r matches Ok(ro) ==> {
                &&& forall|i: int, j: int| 0 <= i < j < ro.len() ==> (#[trigger] ro[i]).0 > (#[trigger] ro[j]).0
                &&& forall|i: int|
                    0 <= i < ro.len() ==> {
                        &&& (#[trigger] ro[i]).0 <= log_global
                        &&& has_matrix(coms, log_blowup, ro[i].0 as nat)
                        &&& ro[i].1 == opening_at(log_blowup, log_global, index, alpha, input, coms, ro[i].0 as nat)
                    }
                &&& forall|h: nat|
                    h <= log_global && #[trigger] has_matrix(coms, log_blowup, h) ==> exists|i: int|
                        0 <= i < ro.len() && (#[trigger] ro[i]).0 == h
            }
        }),
{
    if input.len() == coms.len() {
        lemma_batches_fit(cap_height, log_blowup, log_global, index, input, coms, coms.len());
    }
    lemma_input_has(coms, log_blowup, log_blowup as nat, coms.len());
    lemma_openings_sorted(log_blowup, log_global, index, alpha, input, coms, log_global + 1);
    let ro = openings_below(log_blowup, log_global, index, alpha, input, coms, log_global + 1);
    assert forall|i: int| 0 <= i < ro.len() implies has_matrix(coms, log_blowup, (#[trigger] ro[i]).0 as nat) by {
        lemma_input_has(coms, log_blowup, ro[i].0 as nat, coms.len());
    }
    assert forall|h: nat| h <= log_global && #[trigger] has_matrix(coms, log_blowup, h) implies exists|i: int|
        0 <= i < ro.len() && (#[trigger] ro[i]).0 == h by {
        lemma_input_has(coms, log_blowup, h, coms.len());
        assert(input_has(coms, log_blowup, h, coms.len()));
    }
}

/// One round of a query from `a` to `b`: an arity of at least two that neither the parameters nor the height exceed, a group
/// that has the running value in the slot that the index names and the siblings in order around it, a path from the hash of
/// the group to the round's cap, and the fold of the group at the challenge, with the reduced opening of the height that is
/// reached, where there is one, taken in.
pub open spec fn round_folds(
    params: FriParams,
    a: FoldState,
    b: FoldState,
    step: CommitStep,
    ro: Seq<(usize, Ext)>,
    evals: Seq<Ext>,
) -> bool {
    let la = step.opening.log_arity as nat;
    let slot = (a.index % pow2(la)) as int;
    let siblings = step.opening.siblings@;
    let cap = contents(step.commit@);
    let path = contents(step.opening.path@);
    let folded = folded_row(b.index, b.log_height, la, step.beta, evals);
    let taken = a.used < ro.len() && ro[a.used as int].0 == b.log_height;
    &&& 1 <= la <= params.max_log_arity
    &&& la + b.log_height == a.log_height
    &&& b.index == a.index / pow2(la)
    &&& siblings.len() + 1 == pow2(la)
    &&& evals.len() == pow2(la)
    &&& evals[slot] == a.eval
    &&& forall|j: int| 0 <= j < slot ==> #[trigger] evals[j] == siblings[j]
    &&& forall|j: int| slot < j < evals.len() ==> #[trigger] evals[j] == siblings[j - 1]
    &&& b.index < pow2(b.log_height)
    &&& path.len() == if params.cap_height < b.log_height {
        b.log_height - params.cap_height
    } else {
        0
    }
    &&& b.index / pow2(path.len()) < cap.len()
    &&& reduced_digest(cap[(b.index / pow2(path.len())) as int]) == climbed(
        leaf_hash(ext_felts(evals)),
        path,
        b.index,
        path.len(),
    )
    &&& b.used == a.used + if taken {
        1int
    } else {
        0
    }
    &&& b.eval == if taken {
        x_add(folded, x_mul(x_square_times(step.beta, la), ro[a.used as int].1))
    } else {
        folded
    }
}

/// The states of a query's fold, from the first reduced opening to the value that is left.
pub open spec fn query_folds(
    params: FriParams,
    steps: Seq<CommitStep>,
    ro: Seq<(usize, Ext)>,
    index: nat,
    log_global: nat,
    log_final: nat,
    folded: Ext,
    states: Seq<FoldState>,
    groups: Seq<Seq<Ext>>,
) -> bool {
    &&& ro.len() > 0
    &&& ro[0].0 == log_global
    &&& states.len() == steps.len() + 1
    &&& groups.len() == steps.len()
    &&& states[0].eval == ro[0].1
    &&& states[0].index == index
    &&& states[0].log_height == log_global
    &&& states[0].used == 1
    &&& forall|r: int|
        0 <= r < steps.len() ==> #[trigger] round_folds(params, states[r], states[r + 1], steps[r], ro, groups[r])
    &&& states.last().log_height == log_final
    &&& states.last().used == ro.len()
    &&& states.last().eval == folded
}

/// A query that is answered folds round by round from the first reduced opening, at the height of the query space, to the
/// value that is handed on, at the height of the final polynomial, and takes every reduced opening in.
pub proof fn law_answered_query_folds(
    params: FriParams,
    steps: Seq<CommitStep>,
    ro: Seq<(usize, Ext)>,
    index: nat,
    log_global: nat,
    log_final: nat,
) -> (run: (Seq<FoldState>, Seq<Seq<Ext>>))
    requires
        query_result(params, steps, ro, index, log_global, log_final) is Ok,
    ensures
        query_folds(
            params,
            steps,
            ro,
            index,
            log_global,
            log_final,
            query_result(params, steps, ro, index, log_global, log_final)->Ok_0,
            run.0,
            run.1,
        ),
{
    let states = Seq::new(
        (steps.len() + 1) as nat,
        |r: int| fold_state(params, steps, ro, index, log_global, r as nat),
    );
    let groups = Seq::new(steps.len(), |r: int| crate::fri::query::round_group(states[r], steps[r]));
    assert forall|r: int| 0 <= r < steps.len() implies #[trigger] round_folds(
        params,
        states[r],
        states[r + 1],
        steps[r],
        ro,
        groups[r],
    ) by {
        lemma_stays_refused(params, steps, ro, index, log_global, r as nat, steps.len());
        lemma_stays_refused(params, steps, ro, index, log_global, (r + 1) as nat, steps.len());
        assert(states[r].error is None && states[r + 1].error is None);
        assert(states[r + 1] == crate::fri::query::round_next(params, states[r], steps[r], ro, r));
        vstd::arithmetic::power2::lemma_pow2_pos(steps[r].opening.log_arity as nat);
        vstd::arithmetic::div_mod::lemma_mod_bound(
            states[r].index as int,
            pow2(steps[r].opening.log_arity as nat) as int,
        );
    }
    lemma_used_bound(params, steps, ro, index, log_global, steps.len());
    (states, groups)
}

/// No more reduced openings are taken in than there are.
proof fn lemma_used_bound(
    params: FriParams,
    steps: Seq<CommitStep>,
    ro: Seq<(usize, Ext)>,
    index: nat,
    log_global: nat,
    n: nat,
)
    requires
        ro.len() > 0,
    ensures
        fold_state(params, steps, ro, index, log_global, n).used <= ro.len(),
    decreases n,
{
    if n > 0 {
        lemma_used_bound(params, steps, ro, index, log_global, (n - 1) as nat);
    }
}

/// The first round at which a query's fold stops.
proof fn lemma_stopping_round(
    params: FriParams,
    steps: Seq<CommitStep>,
    ro: Seq<(usize, Ext)>,
    index: nat,
    log_global: nat,
    n: nat,
) -> (r: nat)
    requires
        fold_state(params, steps, ro, index, log_global, n).error is Some,
    ensures
        r < n,
        fold_state(params, steps, ro, index, log_global, r).error is None,
        fold_state(params, steps, ro, index, log_global, r + 1).error == fold_state(
            params,
            steps,
            ro,
            index,
            log_global,
            n,
        ).error,
    decreases n,
{
    let m = (n - 1) as nat;
    if fold_state(params, steps, ro, index, log_global, m).error is Some {
        lemma_stopping_round(params, steps, ro, index, log_global, m)
    } else {
        m
    }
}

/// What a refused query is told: without a reduced opening at the height of the query space it does not start; else the fault
/// is that of the first round that does not fold, under the number of that round, and it names what is wrong there: an
/// arity of one, or one that the parameters or the height that is left exceed, a number of siblings that does not
/// complete the group, or a path that does not lead to the cap. A query whose rounds all fold is refused for the height that
/// it ends at or for reduced openings that are left over.
#[verifier::spinoff_prover]
#[verifier::rlimit(40)]
pub proof fn law_refused_query(
    params: FriParams,
    steps: Seq<CommitStep>,
    ro: Seq<(usize, Ext)>,
    index: nat,
    log_global: nat,
    log_final: nat,
) -> (r: nat)
    requires
        query_result(params, steps, ro, index, log_global, log_final) is Err,
        steps.len() <= usize::MAX,
        log_global <= usize::MAX,
        log_final <= usize::MAX,
    ensures
        ({
            let st = fold_state(params, steps, ro, index, log_global, r);
            let end = fold_state(params, steps, ro, index, log_global, steps.len());
            let step = steps[r as int];
            let la = step.opening.log_arity as nat;
            match query_result(params, steps, ro, index, log_global, log_final)->Err_0 {
                QueryError::MissingOpening => ro.len() == 0,
                QueryError::InitialHeight { got, expected } => ro.len() > 0 && got == ro[0].0 && expected == log_global
                    && got != expected,
                QueryError::BadArity { round, log_arity, max } => {
                    &&& r < steps.len() && round == r && st.error is None
                    &&& log_arity == la
                    &&& max <= params.max_log_arity && max <= st.log_height
                    &&& max == params.max_log_arity || max == st.log_height
                    &&& la == 0 || la > max
                },
                QueryError::SiblingCount { round } => {
                    &&& r < steps.len() && round == r && st.error is None
                    &&& 1 <= la <= params.max_log_arity && la <= st.log_height
                    &&& step.opening.siblings@.len() + 1 != pow2(la)
                },
                QueryError::Merkle { round } => {
                    &&& r < steps.len() && round == r && st.error is None
                    &&& step.opening.siblings@.len() + 1 == pow2(la)
                    &&& !crate::fri::query::group_opens(
                        params.cap_height as nat,
                        contents(step.commit@),
                        (st.log_height - la) as nat,
                        st.index / pow2(la),
                        crate::fri::query::round_group(st, step),
                        contents(step.opening.path@),
                    )
                },
                QueryError::FinalHeight { got, expected } => end.error is None && got == end.log_height && expected
                    == log_final && got != expected,
                QueryError::Unconsumed => end.error is None && end.log_height == log_final && end.used < ro.len(),
            }
        }),
{
    let end = fold_state(params, steps, ro, index, log_global, steps.len());
    lemma_height_falls(params, steps, ro, index, log_global, steps.len());
    if end.error is Some {
        let r = lemma_stopping_round(params, steps, ro, index, log_global, steps.len());
        let st = fold_state(params, steps, ro, index, log_global, r);
        assert(fold_state(params, steps, ro, index, log_global, r + 1) == crate::fri::query::round_next(
            params,
            st,
            steps[r as int],
            ro,
            r as int,
        ));
        lemma_height_falls(params, steps, ro, index, log_global, r);
        r
    } else {
        0
    }
}

/// The height never rises, and no fault is one of those that a query starts or ends with.
proof fn lemma_height_falls(
    params: FriParams,
    steps: Seq<CommitStep>,
    ro: Seq<(usize, Ext)>,
    index: nat,
    log_global: nat,
    n: nat,
)
    ensures
        fold_state(params, steps, ro, index, log_global, n).log_height <= log_global,
        fold_state(params, steps, ro, index, log_global, n).error matches Some(e) ==> e is BadArity || e is SiblingCount
            || e is Merkle,
    decreases n,
{
    if n > 0 {
        lemma_height_falls(params, steps, ro, index, log_global, (n - 1) as nat);
    }
}

/// Work is done for a witness: the felt drawn behind it ends in so many zero bits.
pub open spec fn works(bits: usize, s: SpongeView, witness: u64) -> bool {
    bits > 0 ==> sampled(observed(s, witness)) as nat % pow2(bits as nat) == 0
}

/// The sponge behind a witness.
pub open spec fn worked(bits: usize, s: SpongeView, witness: u64) -> SpongeView {
    if bits > 0 {
        after_sample(observed(s, witness))
    } else {
        s
    }
}

/// The transcript of commit round `r`, from `a` to `b`: the commitment goes in, then its witness, for which the work was
/// done, and the challenge comes out.
pub open spec fn round_drawn(params: FriParams, proof: FriProof, a: SpongeView, b: SpongeView, beta: Ext, r: int) -> bool {
    let seen = observed_all(a, digest_felts(proof.commits@[r]@));
    &&& works(params.commit_pow_bits, seen, proof.commit_pow@[r])
    &&& beta == sampled_ext(worked(params.commit_pow_bits, seen, proof.commit_pow@[r]))
    &&& b == after_sample_ext(worked(params.commit_pow_bits, seen, proof.commit_pow@[r]))
}

/// The transcript of the commit rounds.
pub open spec fn rounds_drawn(params: FriParams, proof: FriProof, sponges: Seq<SpongeView>, betas: Seq<Ext>) -> bool {
    &&& sponges.len() == betas.len() + 1
    &&& betas.len() == round_count(proof)
    &&& forall|r: int|
        0 <= r < betas.len() ==> #[trigger] round_drawn(params, proof, sponges[r], sponges[r + 1], betas[r], r)
}

/// Query `q` of a proof holds at an index: its input is taken, its rounds fold, and what is left is the final polynomial's
/// value at the point that the rounds lead to.
pub open spec fn query_holds(
    params: FriParams,
    proof: FriProof,
    coms: Seq<RoundView>,
    alpha: Ext,
    betas: Seq<Ext>,
    index: nat,
    q: int,
    ro: Seq<(usize, Ext)>,
    states: Seq<FoldState>,
    groups: Seq<Seq<Ext>>,
) -> bool {
    let lg = log_domain(params, proof);
    let steps = Seq::new(
        betas.len(),
        |r: int| CommitStep { beta: betas[r], commit: &proof.commits@[r], opening: &proof.queries@[q].openings@[r] },
    );
    &&& input_result(params.cap_height, params.log_blowup, lg, index, alpha, proof.queries@[q].input@, coms) == Ok::<
        Seq<(usize, Ext)>,
        crate::fri::input::InputError,
    >(ro)
    &&& query_folds(
        params,
        steps,
        ro,
        index,
        lg,
        (params.log_blowup + params.log_final_poly_len) as nat,
        states.last().eval,
        states,
        groups,
    )
    &&& x_same(poly_at(proof.final_poly@, final_point(states.last().index, lg)), states.last().eval)
}

/// The conditions on an accepted proof of low degree beside its queries: there are queries, as many as asked for, each opens
/// every round; the arities lead from the tallest matrix to the final polynomial, which has its length; and the work was
/// done.
pub open spec fn proof_fits(params: FriParams, proof: FriProof, coms: Seq<RoundView>) -> bool {
    &&& params.num_queries > 0
    &&& proof.queries@.len() == params.num_queries
    &&& forall|q: int|
        0 <= q < proof.queries@.len() ==> (#[trigger] proof.queries@[q]).openings@.len() == proof.commits@.len()
    &&& any_matrix(coms, coms.len()) ==> log_domain(params, proof) == tallest_of(coms, params.log_blowup, coms.len())
    &&& proof.final_poly@.len() == pow2(params.log_final_poly_len as nat)
}

/// The transcript before the queries: behind the rounds, the final polynomial and the arities go in, then the witness.
pub open spec fn queries_drawn(params: FriParams, proof: FriProof, s: SpongeView) -> SpongeView {
    let arities = Seq::new(first_openings(proof).len(), |i: int| first_openings(proof)[i].log_arity as u64);
    observed_all(observed_all(s, ext_felts(proof.final_poly@)), arities)
}

/// A proof of low degree is accepted only if its sizes fit, the work of every round and of the queries was done, and every
/// query holds under the challenges that the transcript gives: the batching challenge first, then one behind every
/// commitment, and the indices at the end, one felt for each query.
#[verifier::spinoff_prover]
#[verifier::rlimit(40)]
pub proof fn law_accepted_fri(params: FriParams, proof: FriProof, s: SpongeView, coms: Seq<RoundView>, q: int) -> (w: (
    Seq<SpongeView>,
    Seq<Ext>,
    Seq<(usize, Ext)>,
    Seq<FoldState>,
    Seq<Seq<Ext>>,
))
    requires
        fri_error(params, proof, s, coms) is None,
        0 <= q < proof.queries@.len(),
    ensures
        proof_fits(params, proof, coms),
        rounds_drawn(params, proof, w.0, w.1),
        w.0[0] == after_sample_ext(s),
        works(params.query_pow_bits, queries_drawn(params, proof, w.0.last()), proof.query_pow),
        ({
            let t = worked(params.query_pow_bits, queries_drawn(params, proof, w.0.last()), proof.query_pow);
            let index = sampled(after_samples(t, q as nat)) as nat % pow2(log_domain(params, proof));
            query_holds(params, proof, coms, sampled_ext(s), w.1, index, q, w.2, w.3, w.4)
        }),
{
    let t = after_sample_ext(s);
    let (sponges, betas) = lemma_rounds_drawn(params, proof, t);
    lemma_no_query_fault(params, proof, coms, sampled_ext(s), t, q, proof.queries@.len());
    let (ro, states, groups) = lemma_query_holds(params, proof, coms, sampled_ext(s), t, betas, q);
    (sponges, betas, ro, states, groups)
}

/// The transcript of the rounds of a proof whose work was done.
proof fn lemma_rounds_drawn(params: FriParams, proof: FriProof, t: SpongeView) -> (w: (Seq<SpongeView>, Seq<Ext>))
    requires
        forall|r: nat|
            r < round_count(proof) ==> work_done(
                params.commit_pow_bits,
                #[trigger] committed(params, proof, t, r),
                proof.commit_pow@[r as int],
            ),
    ensures
        rounds_drawn(params, proof, w.0, w.1),
        w.0[0] == t,
        queries_drawn(params, proof, w.0.last()) == before_queries(params, proof, t),
        w.1 == Seq::new(round_count(proof), |r: int| beta_of(params, proof, t, r as nat)),
{
    let n = round_count(proof);
    let sponges = Seq::new((n + 1) as nat, |r: int| after_rounds(params, proof, t, r as nat));
    let betas = Seq::new(n, |r: int| beta_of(params, proof, t, r as nat));
    assert forall|r: int| 0 <= r < betas.len() implies #[trigger] round_drawn(
        params,
        proof,
        sponges[r],
        sponges[r + 1],
        betas[r],
        r,
    ) by {
        assert(work_done(
            params.commit_pow_bits,
            committed(params, proof, t, r as nat),
            proof.commit_pow@[r as nat as int],
        ));
        assert(((r + 1) as nat - 1) as nat == r as nat);
    }
    assert(opening_arities(first_openings(proof)) =~= Seq::new(
        first_openings(proof).len(),
        |i: int| first_openings(proof)[i].log_arity as u64,
    ));
    assert(sponges.last() == after_rounds(params, proof, t, n));
    (sponges, betas)
}

/// A query without a fault holds.
proof fn lemma_query_holds(
    params: FriParams,
    proof: FriProof,
    coms: Seq<RoundView>,
    alpha: Ext,
    t: SpongeView,
    betas: Seq<Ext>,
    q: int,
) -> (w: (Seq<(usize, Ext)>, Seq<FoldState>, Seq<Seq<Ext>>))
    requires
        query_error(params, proof, coms, alpha, t, q) is None,
        betas == Seq::new(round_count(proof), |r: int| beta_of(params, proof, t, r as nat)),
    ensures
        query_holds(
            params,
            proof,
            coms,
            alpha,
            betas,
            index_of(
                after_work(params.query_pow_bits, before_queries(params, proof, t), proof.query_pow),
                q as nat,
                log_domain(params, proof),
            ),
            q,
            w.0,
            w.1,
            w.2,
        ),
{
    let lg = log_domain(params, proof);
    let index = index_of(
        after_work(params.query_pow_bits, before_queries(params, proof, t), proof.query_pow),
        q as nat,
        lg,
    );
    let input = input_result(params.cap_height, params.log_blowup, lg, index, alpha, proof.queries@[q].input@, coms);
    let ro = input->Ok_0;
    let steps = steps_of(params, &proof, t, q);
    let log_final = (params.log_blowup + params.log_final_poly_len) as nat;
    let (states, groups) = law_answered_query_folds(params, steps, ro, index, lg, log_final);
    assert(steps =~= Seq::new(
        betas.len(),
        |r: int| CommitStep { beta: betas[r], commit: &proof.commits@[r], opening: &proof.queries@[q].openings@[r] },
    ));
    lemma_end_index(params, steps, ro, index, lg, states, groups, steps.len());
    (ro, states, groups)
}

/// The index that the rounds lead to.
proof fn lemma_end_index(
    params: FriParams,
    steps: Seq<CommitStep>,
    ro: Seq<(usize, Ext)>,
    index: nat,
    log_global: nat,
    states: Seq<FoldState>,
    groups: Seq<Seq<Ext>>,
    n: nat,
)
    requires
        n <= steps.len(),
        states.len() == steps.len() + 1,
        states[0].index == index,
        forall|r: int|
            0 <= r < steps.len() ==> #[trigger] round_folds(params, states[r], states[r + 1], steps[r], ro, groups[r]),
        fold_state(params, steps, ro, index, log_global, n).error is None,
    ensures
        fold_state(params, steps, ro, index, log_global, n).index == states[n as int].index,
    decreases n,
{
    if n > 0 {
        let m = (n - 1) as nat;
        lemma_stays_refused(params, steps, ro, index, log_global, m, n);
        lemma_end_index(params, steps, ro, index, log_global, states, groups, m);
        assert(round_folds(params, states[n - 1], states[n - 1 + 1], steps[n - 1], ro, groups[n - 1]));
    }
}

/// Where no query has a fault, query `q` has none.
proof fn lemma_no_query_fault(
    params: FriParams,
    proof: FriProof,
    coms: Seq<RoundView>,
    alpha: Ext,
    s: SpongeView,
    q: int,
    n: nat,
)
    requires
        queries_error(params, proof, coms, alpha, s, n) is None,
        0 <= q < n,
    ensures
        query_error(params, proof, coms, alpha, s, q) is None,
    decreases n,
{
    if q < n - 1 {
        lemma_no_query_fault(params, proof, coms, alpha, s, q, (n - 1) as nat);
    }
}

/// Which fault of a proof of low degree is told first: that no query is asked for, a query that does not open every round, a
/// height that the arities do not lead to, a round whose work was not done, the length of the final polynomial, the number of
/// queries, the work before the queries, and then the first query that does not hold.
pub proof fn law_fri_faults_in_order(params: FriParams, proof: FriProof, s: SpongeView, coms: Seq<RoundView>)
    ensures
        ({
            let e = fri_error(params, proof, s, coms);
            let t = after_sample_ext(s);
            let asked = params.num_queries > 0;
            let open = asked && forall|q: int|
                0 <= q < proof.queries@.len() ==> (#[trigger] proof.queries@[q]).openings@.len() == proof.commits@.len();
            let high = open && (any_matrix(coms, coms.len()) ==> log_domain(params, proof) == tallest_of(
                coms,
                params.log_blowup,
                coms.len(),
            ));
            let worked = high && forall|r: nat|
                r < round_count(proof) ==> works(
                    params.commit_pow_bits,
                    #[trigger] committed(params, proof, t, r),
                    proof.commit_pow@[r as int],
                );
            let long = worked && proof.final_poly@.len() == pow2(params.log_final_poly_len as nat);
            let all = long && proof.queries@.len() == params.num_queries;
            let ready = all && works(params.query_pow_bits, before_queries(params, proof, t), proof.query_pow);
            &&& e == Some(FriError::ZeroQueries) <==> !asked
            &&& e == Some(FriError::OpeningCount) <==> asked && !open
            &&& e == Some(FriError::GlobalHeight) <==> open && !high
            &&& e == Some(FriError::CommitPow) <==> high && !worked
            &&& e == Some(FriError::FinalPolyLength) <==> worked && !long
            &&& e == Some(FriError::QueryCount) <==> long && !all
            &&& e == Some(FriError::QueryPow) <==> all && !ready
            &&& ready ==> e == queries_error(params, proof, coms, sampled_ext(s), t, proof.queries@.len())
        }),
{
    let t = after_sample_ext(s);
    lemma_query_faults(params, proof, coms, sampled_ext(s), t, proof.queries@.len());
    assert forall|r: nat| r < round_count(proof) implies works(
        params.commit_pow_bits,
        #[trigger] committed(params, proof, t, r),
        proof.commit_pow@[r as int],
    ) == work_done(params.commit_pow_bits, committed(params, proof, t, r), proof.commit_pow@[r as int]) by {}
}

/// A query's fault is one of its input, of its fold or of the final polynomial.
proof fn lemma_query_faults(params: FriParams, proof: FriProof, coms: Seq<RoundView>, alpha: Ext, s: SpongeView, n: nat)
    ensures
        queries_error(params, proof, coms, alpha, s, n) matches Some(e) ==> e is Input || e is Query || e is FinalPoly,
    decreases n,
{
    if n > 0 {
        lemma_query_faults(params, proof, coms, alpha, s, (n - 1) as nat);
    }
}

} // verus!
