//! One query of the low-degree test: the fold down the commit phase.

use vstd::arithmetic::power2::pow2;
use vstd::prelude::*;

use crate::bits::{ceil_log2, reverse_bits_len, rev_bits, shifted_one};
use crate::field::{
    exp_u64, f_pow, two_adic_generator, two_adic_root, x_add, x_base, x_mul, x_square_times, x_zero, Ext, TWO_ADICITY,
};
use crate::fri::fold::{fold_row, folded_row};
use crate::fri::merkle::{
    cap_ok, climbed, contents, digests_ok, joined, level, path_depth, reduced_digest, verify_batch,
};
use crate::poseidon::leaf_hash;
use crate::transcript::{ext_felts, felts_of_exts};

verus! {

/// The parameters of the low-degree test.
#[derive(Clone, Copy)]
pub struct FriParams {
    pub log_blowup: usize,
    pub log_final_poly_len: usize,
    pub max_log_arity: usize,
    pub num_queries: usize,
    pub commit_pow_bits: usize,
    pub query_pow_bits: usize,
    pub cap_height: usize,
}

/// What opens one commit-phase group: its other evaluations and the path to the round's cap.
pub struct Opening {
    pub log_arity: u8,
    pub siblings: Vec<Ext>,
    pub path: Vec<Vec<u64>>,
}

/// One commit-phase round's data for a query: the challenge, the commitment, the opening.
pub struct CommitStep<'a> {
    pub beta: Ext,
    pub commit: &'a Vec<Vec<u64>>,
    pub opening: &'a Opening,
}

/// Why a query is refused.
#[derive(Clone, Copy, Debug, PartialEq, Eq, Structural)]
pub enum QueryError {
    /// There is no reduced opening to start from.
    MissingOpening,
    /// The first reduced opening is not at the global height.
    InitialHeight { got: usize, expected: usize },
    BadArity { round: usize, log_arity: usize, max: usize },
    SiblingCount { round: usize },
    /// The group does not open under the round's commitment.
    Merkle { round: usize },
    FinalHeight { got: usize, expected: usize },
    /// Reduced openings are left over.
    Unconsumed,
}

/// A fold group: the running evaluation at its slot, the siblings in order around it.
pub open spec fn group(slot: int, arity: nat, eval: Ext, siblings: Seq<Ext>) -> Seq<Ext> {
    Seq::new(
        arity,
        |j: int|
            if j < slot {
                siblings[j]
            } else if j == slot {
                eval
            } else {
                siblings[j - 1]
            },
    )
}

/// A group opens under a cap: the path from the hash of its coordinates leads to the cap's entry.
pub open spec fn group_opens(
    cap_height: nat,
    cap: Seq<Seq<u64>>,
    log_height: nat,
    index: nat,
    evals: Seq<Ext>,
    path: Seq<Seq<u64>>,
) -> bool {
    let depth = path_depth(cap_height, log_height);
    let top = index / pow2(depth);
    &&& path.len() == depth
    &&& index < pow2(log_height)
    &&& top < cap.len()
    &&& reduced_digest(cap[top as int]) == climbed(leaf_hash(ext_felts(evals)), path, index, depth)
}

/// A query between two rounds.
pub struct FoldState {
    pub eval: Ext,
    pub index: nat,
    pub log_height: nat,
    /// How many reduced openings were taken in.
    pub used: nat,
    pub error: Option<QueryError>,
}

/// The smaller of the two bounds on a round's arity.
pub open spec fn arity_bound(params: FriParams, log_height: nat) -> nat {
    if params.max_log_arity < log_height {
        params.max_log_arity as nat
    } else {
        log_height
    }
}

/// The group that a round opens.
pub open spec fn round_group(st: FoldState, step: CommitStep) -> Seq<Ext> {
    let arity = pow2(step.opening.log_arity as nat);
    group((st.index % arity) as int, arity, st.eval, step.opening.siblings@)
}

/// One round: the group of the running evaluation and its siblings has to open under the round's commitment; its
/// fold, and the reduced opening of the new height if there is one, make the next evaluation.
pub open spec fn round_next(
    params: FriParams,
    st: FoldState,
    step: CommitStep,
    ro: Seq<(usize, Ext)>,
    round: int,
) -> FoldState {
    let la = step.opening.log_arity as nat;
    let max = arity_bound(params, st.log_height);
    if st.error is Some {
        st
    } else if la < 1 || la > max {
        FoldState {
            error: Some(QueryError::BadArity { round: round as usize, log_arity: la as usize, max: max as usize }),
            ..st
        }
    } else if step.opening.siblings@.len() != pow2(la) - 1 {
        FoldState { error: Some(QueryError::SiblingCount { round: round as usize }), ..st }
    } else {
        let evals = round_group(st, step);
        let height = (st.log_height - la) as nat;
        let index = st.index / pow2(la);
        if !group_opens(
            params.cap_height as nat,
            contents(step.commit@),
            height,
            index,
            evals,
            contents(step.opening.path@),
        ) {
            FoldState { index, error: Some(QueryError::Merkle { round: round as usize }), ..st }
        } else {
            let folded = folded_row(index, height, la, step.beta, evals);
            if st.used < ro.len() && ro[st.used as int].0 == height {
                FoldState {
                    eval: x_add(folded, x_mul(x_square_times(step.beta, la), ro[st.used as int].1)),
                    index,
                    log_height: height,
                    used: st.used + 1,
                    error: None,
                }
            } else {
                FoldState { eval: folded, index, log_height: height, used: st.used, error: None }
            }
        }
    }
}

/// A query after `n` rounds, from the first reduced opening.
pub open spec fn fold_state(
    params: FriParams,
    steps: Seq<CommitStep>,
    ro: Seq<(usize, Ext)>,
    index: nat,
    log_global: nat,
    n: nat,
) -> FoldState
    decreases n,
{
    if n == 0 {
        FoldState { eval: ro[0].1, index, log_height: log_global, used: 1, error: None }
    } else {
        round_next(
            params,
            fold_state(params, steps, ro, index, log_global, (n - 1) as nat),
            steps[n - 1],
            ro,
            n - 1,
        )
    }
}

/// Whether the query starts at all: there is a reduced opening, at the global height.
pub open spec fn query_starts(ro: Seq<(usize, Ext)>, log_global: nat) -> bool {
    ro.len() > 0 && ro[0].0 == log_global
}

/// The verdict on a query: its last evaluation, or why it is refused.
pub open spec fn query_result(
    params: FriParams,
    steps: Seq<CommitStep>,
    ro: Seq<(usize, Ext)>,
    index: nat,
    log_global: nat,
    log_final: nat,
) -> Result<Ext, QueryError> {
    let end = fold_state(params, steps, ro, index, log_global, steps.len());
    if ro.len() == 0 {
        Err(QueryError::MissingOpening)
    } else if ro[0].0 != log_global {
        Err(QueryError::InitialHeight { got: ro[0].0, expected: log_global as usize })
    } else if let Some(e) = end.error {
        Err(e)
    } else if end.log_height != log_final {
        Err(QueryError::FinalHeight { got: end.log_height as usize, expected: log_final as usize })
    } else if end.used < ro.len() {
        Err(QueryError::Unconsumed)
    } else {
        Ok(end.eval)
    }
}

/// The commitments and paths of all rounds are well formed.
pub open spec fn steps_ok(steps: Seq<CommitStep>) -> bool {
    forall|r: int|
        0 <= r < steps.len() ==> cap_ok((#[trigger] steps[r]).commit@) && digests_ok(steps[r].opening.path@)
}

/// 2^e is a machine integer and the field has a subgroup of that order.
pub open spec fn order_ok(e: nat) -> bool {
    e <= TWO_ADICITY && pow2(e) <= usize::MAX
}

pub proof fn lemma_order_monotone(a: nat, b: nat)
    requires
        a <= b,
        order_ok(b),
    ensures
        order_ok(a),
{
    crate::bits::lemma_pow2_monotone(a, b);
}

/// The logarithm of a power of two.
pub proof fn lemma_ceil_log2_pow2(e: nat)
    ensures
        ceil_log2(pow2(e)) == e,
    decreases e,
{
    vstd::arithmetic::power2::lemma2_to64();
    if e > 0 {
        lemma_ceil_log2_pow2((e - 1) as nat);
        vstd::arithmetic::power2::lemma_pow2_unfold(e);
        vstd::arithmetic::power2::lemma_pow2_pos((e - 1) as nat);
    }
}

/// Every element gives two felts.
pub proof fn lemma_ext_felts_len(xs: Seq<Ext>)
    ensures
        ext_felts(xs).len() == 2 * xs.len(),
    decreases xs.len(),
{
    if xs.len() > 0 {
        lemma_ext_felts_len(xs.drop_last());
    }
}

/// The fold group of a round.
pub fn group_of(slot: usize, arity: usize, eval: Ext, siblings: &Vec<Ext>) -> (evals: Vec<Ext>)
    requires
        slot < arity,
        siblings@.len() == arity - 1,
    ensures
        evals@ == group(slot as int, arity as nat, eval, siblings@),
{
    let mut evals: Vec<Ext> = Vec::new();
    let mut j: usize = 0;
    while j < arity
        invariant
            j <= arity,
            slot < arity,
            siblings@.len() == arity - 1,
            evals@ =~= group(slot as int, arity as nat, eval, siblings@).take(j as int),
        decreases arity - j,
    {
        if j < slot {
            evals.push(siblings[j]);
        } else if j == slot {
            evals.push(eval);
        } else {
            evals.push(siblings[j - 1]);
        }
        j += 1;
    }
    assert(evals@ =~= group(slot as int, arity as nat, eval, siblings@));
    evals
}

/// Whether a group opens under a cap.
pub fn opens_group(
    cap_height: usize,
    cap: &Vec<Vec<u64>>,
    log_height: usize,
    index: usize,
    evals: &Vec<Ext>,
    path: &Vec<Vec<u64>>,
) -> (ok: bool)
    requires
        cap_ok(cap@),
        digests_ok(path@),
        pow2(log_height as nat) <= usize::MAX,
    ensures
        ok == group_opens(
            cap_height as nat,
            contents(cap@),
            log_height as nat,
            index as nat,
            evals@,
            contents(path@),
        ),
{
    let row: Vec<u64> = felts_of_exts(evals);
    let height: usize = shifted_one(log_height);
    let mut dims: Vec<(usize, usize)> = Vec::new();
    dims.push((row.len(), height));
    let mut rows: Vec<Vec<u64>> = Vec::new();
    rows.push(row);
    proof {
        lemma_ceil_log2_pow2(log_height as nat);
        assert(dims@[0].1 == pow2(log_height as nat));
        assert(level(dims@));
        let r = contents(rows@);
        assert(r.len() == 1 && r[0] == ext_felts(evals@));
        assert(joined(r.drop_last()) =~= Seq::<u64>::empty());
        assert(joined(r) =~= ext_felts(evals@));
    }
    verify_batch(cap_height, cap, &dims, index, &rows, path)
}

/// A query between two rounds.
struct Running {
    eval: Ext,
    index: usize,
    log_height: usize,
    used: usize,
}

impl Running {
    spec fn state(&self, error: Option<QueryError>) -> FoldState {
        FoldState {
            eval: self.eval,
            index: self.index as nat,
            log_height: self.log_height as nat,
            used: self.used as nat,
            error,
        }
    }
}

/// One round of a query.
fn fold_round(
    params: &FriParams,
    running: &mut Running,
    step: &CommitStep,
    ro: &Vec<(usize, Ext)>,
    round: usize,
    log_global: usize,
) -> (error: Option<QueryError>)
    requires
        cap_ok(step.commit@),
        digests_ok(step.opening.path@),
        order_ok(log_global as nat),
        old(running).log_height <= log_global,
        1 <= old(running).used <= ro@.len(),
    ensures
        final(running).state(error) == round_next(*params, old(running).state(None), *step, ro@, round as int),
        final(running).log_height <= log_global,
        1 <= final(running).used <= ro@.len(),
{
    let ghost before = running.state(None);
    let la: usize = step.opening.log_arity as usize;
    let max: usize = if params.max_log_arity < running.log_height {
        params.max_log_arity
    } else {
        running.log_height
    };
    if la < 1 || la > max {
        return Some(QueryError::BadArity { round, log_arity: la, max });
    }
    proof {
        lemma_order_monotone(la as nat, log_global as nat);
        vstd::arithmetic::power2::lemma_pow2_pos(la as nat);
    }
    let arity: usize = shifted_one(la);
    if step.opening.siblings.len() != arity - 1 {
        return Some(QueryError::SiblingCount { round });
    }
    let evals: Vec<Ext> = group_of(running.index % arity, arity, running.eval, &step.opening.siblings);
    let height: usize = running.log_height - la;
    proof {
        lemma_order_monotone(height as nat, log_global as nat);
        assert(evals@ =~= round_group(before, *step));
    }
    running.index = running.index / arity;
    if !opens_group(params.cap_height, step.commit, height, running.index, &evals, &step.opening.path) {
        return Some(QueryError::Merkle { round });
    }
    running.eval = fold_row(running.index, height, la, step.beta, &evals);
    running.log_height = height;
    if running.used < ro.len() && ro[running.used].0 == height {
        running.eval = running.eval.plus(step.beta.exp_power_of_2(la).times(ro[running.used].1));
        running.used = running.used + 1;
    }
    None
}

/// The commit-phase fold of one query. `reduced_openings` holds heights and values, tallest first; the first
/// stands at the global height. Each round's group has to open under its commitment, and is folded at the
/// round's challenge; a reduced opening of the new height joins in, scaled by the challenge to the arity.
/// `start_index` moves up the folded domains.
pub fn verify_query(
    params: &FriParams,
    start_index: &mut usize,
    fold_data: &Vec<CommitStep>,
    reduced_openings: &Vec<(usize, Ext)>,
    log_global_max_height: usize,
    log_final_height: usize,
) -> (r: Result<Ext, QueryError>)
    requires
        steps_ok(fold_data@),
        order_ok(log_global_max_height as nat),
    ensures
        r == query_result(
            *params,
            fold_data@,
            reduced_openings@,
            *old(start_index) as nat,
            log_global_max_height as nat,
            log_final_height as nat,
        ),
        query_starts(reduced_openings@, log_global_max_height as nat) ==> *final(start_index) == fold_state(
            *params,
            fold_data@,
            reduced_openings@,
            *old(start_index) as nat,
            log_global_max_height as nat,
            fold_data@.len(),
        ).index,
        !query_starts(reduced_openings@, log_global_max_height as nat) ==> *final(start_index) == *old(start_index),
{
    if reduced_openings.len() == 0 {
        return Err(QueryError::MissingOpening);
    }
    if reduced_openings[0].0 != log_global_max_height {
        return Err(
            QueryError::InitialHeight { got: reduced_openings[0].0, expected: log_global_max_height },
        );
    }
    let ghost first = *start_index as nat;
    let ghost top = log_global_max_height as nat;
    let mut running: Running = Running {
        eval: reduced_openings[0].1,
        index: *start_index,
        log_height: log_global_max_height,
        used: 1,
    };
    let mut round: usize = 0;
    while round < fold_data.len()
        invariant
            round <= fold_data@.len(),
            steps_ok(fold_data@),
            order_ok(log_global_max_height as nat),
            running.log_height <= log_global_max_height,
            1 <= running.used <= reduced_openings@.len(),
            running.state(None) == fold_state(*params, fold_data@, reduced_openings@, first, top, round as nat),
            top == log_global_max_height,
            first == *old(start_index) as nat,
            query_starts(reduced_openings@, top),
        decreases fold_data.len() - round,
    {
        let error: Option<QueryError> = fold_round(
            params,
            &mut running,
            &fold_data[round],
            reduced_openings,
            round,
            log_global_max_height,
        );
        *start_index = running.index;
        proof {
            lemma_stays_refused(*params, fold_data@, reduced_openings@, first, top, (round + 1) as nat, fold_data@.len());
        }
        if let Some(e) = error {
            return Err(e);
        }
        round += 1;
    }
    *start_index = running.index;
    if running.log_height != log_final_height {
        return Err(QueryError::FinalHeight { got: running.log_height, expected: log_final_height });
    }
    if running.used < reduced_openings.len() {
        return Err(QueryError::Unconsumed);
    }
    Ok(running.eval)
}

/// A refused query stays refused, and its index stays.
pub(crate) proof fn lemma_stays_refused(
    params: FriParams,
    steps: Seq<CommitStep>,
    ro: Seq<(usize, Ext)>,
    index: nat,
    log_global: nat,
    m: nat,
    n: nat,
)
    requires
        m <= n,
    ensures
        fold_state(params, steps, ro, index, log_global, m).error is Some ==> fold_state(
            params,
            steps,
            ro,
            index,
            log_global,
            n,
        ) == fold_state(params, steps, ro, index, log_global, m),
    decreases n,
{
    if m < n {
        lemma_stays_refused(params, steps, ro, index, log_global, m, (n - 1) as nat);
    }
}

/// The value of the polynomial with the given coefficients, lowest first.
pub open spec fn poly_at(coeffs: Seq<Ext>, x: Ext) -> Ext
    decreases coeffs.len(),
{
    if coeffs.len() == 0 {
        x_zero()
    } else {
        x_add(x_mul(poly_at(coeffs.skip(1), x), x), coeffs[0])
    }
}

/// The final polynomial at `x`, by Horner's rule.
pub fn eval_final_poly(final_poly: &Vec<Ext>, x: Ext) -> (r: Ext)
    ensures
        r == poly_at(final_poly@, x),
{
    let mut eval: Ext = Ext::zero();
    let mut i: usize = final_poly.len();
    assert(final_poly@.skip(i as int) =~= Seq::<Ext>::empty());
    while i > 0
        invariant
            i <= final_poly@.len(),
            eval == poly_at(final_poly@.skip(i as int), x),
        decreases i,
    {
        i -= 1;
        eval = eval.times(x).plus(final_poly[i]);
        assert(final_poly@.skip(i as int).skip(1) =~= final_poly@.skip(i + 1));
    }
    assert(final_poly@.skip(0) =~= final_poly@);
    eval
}

/// The point of the final domain that a query ends at: g^rev(domain_index).
pub open spec fn final_point(domain_index: nat, log_global: nat) -> Ext {
    x_base(f_pow(two_adic_root(log_global), rev_bits(domain_index, log_global)))
}

/// The point of the final domain that a query ends at.
pub fn final_query_point(domain_index: usize, log_global_max_height: usize) -> (r: Ext)
    requires
        order_ok(log_global_max_height as nat),
    ensures
        r == final_point(domain_index as nat, log_global_max_height as nat),
{
    let rev: usize = reverse_bits_len(domain_index, log_global_max_height);
    Ext::from_base(exp_u64(two_adic_generator(log_global_max_height), rev as u64))
}

} // verus!
