//! Verification of a proof for an inner constraint system: the transcript, the opening rounds, the low-degree
//! test and the constraint identity out of the domain.

use vstd::arithmetic::power2::pow2;
use vstd::prelude::*;

use crate::bits::shifted_one;
use crate::expr::{
    constant, cur, minus, nxt, on_first, on_transition, plus, public, w_const, w_cur, w_minus, w_nxt, w_on_first,
    w_on_transition, w_plus, w_pub, Expr, Wire,
};
use crate::field::{x_add, x_base, x_mul, x_same, x_zero, Ext, TWO_ADICITY};
use crate::fri::input::{claims, rounds_ok, MatrixClaim, MatrixView, PointClaim, PointView, Round, RoundView};
use crate::fri::merkle::{cap_ok, contents};
use crate::fri::query::{order_ok, FriParams};
use crate::fri::verify::{
    any_matrix, fri_error, log_domain, params_ok, proof_ok, tallest_of, verify_fri_native, FriError, FriProof,
};
use crate::stark::domain::{
    chunk_weights, chunks_fit, next_point, next_point_of, periodic_column_at, periodic_value,
    quotient_recompose_weights, recompose_quotient, recomposed, selectors, selectors_at_point, vanishing, vanishing_at,
    Selectors,
};
use crate::symbolic::{eval_symbolic_native, native_value, readable, NativeOpenings, NativeView};
use crate::transcript::{
    after_sample_ext, cap_felts, digest_felts, empty_sponge, ext_felts, observed_all, sampled_ext, sponge_ok,
    Challenger, SpongeView,
};

verus! {

/// An inner constraint system: its trace width, its constraints with their selectors, its periodic columns,
/// whether it opens the next row, and the logarithm of its number of quotient chunks.
pub struct InnerAir {
    pub width: usize,
    pub constraints: Vec<Wire>,
    pub periodic: Vec<Vec<u64>>,
    pub uses_next: bool,
    pub log_chunks: usize,
}

/// A proof for an inner constraint system.
pub struct StarkProof {
    pub trace_commit: Vec<Vec<u64>>,
    pub quotient_commit: Vec<Vec<u64>>,
    pub trace_local: Vec<Ext>,
    pub trace_next: Option<Vec<Ext>>,
    pub quotient_chunks: Vec<Vec<Ext>>,
    pub opening: FriProof,
    pub degree_bits: usize,
}

/// Why a proof is refused.
#[derive(Clone, Copy, Debug, PartialEq, Eq, Structural)]
pub enum StarkError {
    /// The claimed trace length is beyond the field's domains.
    DegreeBits,
    /// The evaluation point fell into the trace domain.
    ZetaInDomain,
    /// The next row's opening is missing.
    MissingNext,
    /// A period, an opening or a chunk has the wrong size.
    Shape,
    Fri(FriError),
    /// The constraints do not match the quotient.
    Constraints,
}

/// The parameters of the low-degree test, at a cap height: a rate of 1/16, a constant final polynomial, no work
/// per commit round and 16 bits of work before the queries.
pub fn build_params_cap(max_log_arity: usize, num_queries: usize, cap_height: usize) -> (r: FriParams)
    ensures
        r == (FriParams {
            log_blowup: 4,
            log_final_poly_len: 0,
            max_log_arity,
            num_queries,
            commit_pow_bits: 0,
            query_pow_bits: 16,
            cap_height,
        }),
        params_ok(r),
{
    proof {
        vstd::arithmetic::power2::lemma2_to64();
    }
    FriParams {
        log_blowup: 4,
        log_final_poly_len: 0,
        max_log_arity,
        num_queries,
        commit_pow_bits: 0,
        query_pow_bits: 16,
        cap_height,
    }
}

/// The parameters of the low-degree test, with caps of 64 digests.
pub fn build_params(max_log_arity: usize, num_queries: usize) -> (r: FriParams)
    ensures
        r == (FriParams {
            log_blowup: 4,
            log_final_poly_len: 0,
            max_log_arity,
            num_queries,
            commit_pow_bits: 0,
            query_pow_bits: 16,
            cap_height: 6,
        }),
        params_ok(r),
{
    build_params_cap(max_log_arity, num_queries, 6)
}

/// The constraints of a single column that starts at the public value and grows by `step` in every row.
pub open spec fn column_constraints(step: u64) -> Seq<Wire> {
    seq![
        w_on_first(w_minus(w_cur(0), w_pub(0))),
        w_on_transition(w_minus(w_nxt(0), w_plus(w_cur(0), w_const(step)))),
    ]
}

/// A single column that starts at the public value and grows by `step` in every row.
pub fn column_air(step: u64) -> (r: InnerAir)
    ensures
        r.width == 1,
        r.constraints@ == column_constraints(step),
        r.periodic@.len() == 0,
        r.uses_next,
        r.log_chunks == 0,
        air_ok(r, 1),
{
    let mut constraints: Vec<Wire> = Vec::new();
    constraints.push(on_first(&minus(&cur(0), &public(0))));
    constraints.push(on_transition(&minus(&nxt(0), &plus(&cur(0), &constant(step)))));
    let r: InnerAir = InnerAir { width: 1, constraints, periodic: Vec::new(), uses_next: true, log_chunks: 0 };
    proof {
        reveal_with_fuel(readable, 6);
        assert(r.constraints@ =~= column_constraints(step));
    }
    r
}

/// The constraints read within the trace, `pubs` public values and the periodic columns, and every period is a
/// power of two.
pub open spec fn air_ok(air: InnerAir, pubs: nat) -> bool {
    &&& forall|i: int|
        0 <= i < air.constraints@.len() ==> readable(
            #[trigger] air.constraints@[i],
            air.width as int,
            air.width as int,
            pubs as int,
            air.periodic@.len() as int,
        )
    &&& periods_ok(contents(air.periodic@))
}

/// The felts that a proof's transcript opens with: the trace length twice, the number of preprocessed columns, the
/// trace cap, the public values.
pub open spec fn instance_felts(proof: StarkProof, pvs: Seq<u64>) -> Seq<u64> {
    seq![proof.degree_bits as u64, proof.degree_bits as u64, 0] + digest_felts(proof.trace_commit@) + pvs
}

/// The sponge that the constraint challenge is drawn from.
pub open spec fn alpha_sponge(proof: StarkProof, pvs: Seq<u64>) -> SpongeView {
    observed_all(empty_sponge(), instance_felts(proof, pvs))
}

/// The sponge that the evaluation point is drawn from.
pub open spec fn zeta_sponge(proof: StarkProof, pvs: Seq<u64>) -> SpongeView {
    observed_all(after_sample_ext(alpha_sponge(proof, pvs)), digest_felts(proof.quotient_commit@))
}

/// The constraint challenge.
pub open spec fn stark_alpha(proof: StarkProof, pvs: Seq<u64>) -> Ext {
    sampled_ext(alpha_sponge(proof, pvs))
}

/// The evaluation point.
pub open spec fn stark_zeta(proof: StarkProof, pvs: Seq<u64>) -> Ext {
    sampled_ext(zeta_sponge(proof, pvs))
}

/// How many chunks have a domain.
pub open spec fn chunk_count(air: InnerAir, proof: StarkProof) -> nat {
    if proof.quotient_chunks@.len() < pow2(air.log_chunks as nat) {
        proof.quotient_chunks@.len()
    } else {
        pow2(air.log_chunks as nat)
    }
}

/// The values of the first `n` chunks, one behind the other.
pub open spec fn chunks_joined(chunks: Seq<Vec<Ext>>, n: nat) -> Seq<Ext>
    decreases n,
{
    if n == 0 {
        Seq::empty()
    } else {
        chunks_joined(chunks, (n - 1) as nat) + chunks[n - 1]@
    }
}

/// The opened values of the next row, where it is opened.
pub open spec fn next_values(air: InnerAir, proof: StarkProof) -> Seq<Ext> {
    if air.uses_next {
        proof.trace_next.unwrap()@
    } else {
        Seq::empty()
    }
}

/// All opened values, in the order in which they are claimed.
pub open spec fn opened_values(air: InnerAir, proof: StarkProof) -> Seq<Ext> {
    proof.trace_local@ + next_values(air, proof) + chunks_joined(proof.quotient_chunks@, chunk_count(air, proof))
}

/// The sponge that the low-degree test starts from.
pub open spec fn fri_sponge(air: InnerAir, proof: StarkProof, pvs: Seq<u64>) -> SpongeView {
    observed_all(after_sample_ext(zeta_sponge(proof, pvs)), ext_felts(opened_values(air, proof)))
}

/// The claims on the trace: its row at zeta, and the next one where it is opened.
pub open spec fn trace_claim(air: InnerAir, proof: StarkProof, zeta: Ext) -> RoundView {
    let local = PointView { z: zeta, values: proof.trace_local@ };
    let next = PointView {
        z: next_point(zeta, proof.degree_bits as nat),
        values: proof.trace_next.unwrap()@,
    };
    RoundView {
        commit: contents(proof.trace_commit@),
        matrices: seq![
            MatrixView {
                log_size: proof.degree_bits,
                points: if air.uses_next {
                    seq![local, next]
                } else {
                    seq![local]
                },
            },
        ],
    }
}

/// The claims on the quotient: its chunks at zeta.
pub open spec fn quotient_claim(air: InnerAir, proof: StarkProof, zeta: Ext) -> RoundView {
    RoundView {
        commit: contents(proof.quotient_commit@),
        matrices: Seq::new(
            chunk_count(air, proof),
            |i: int|
                MatrixView {
                    log_size: proof.degree_bits,
                    points: seq![PointView { z: zeta, values: proof.quotient_chunks@[i]@ }],
                },
        ),
    }
}

/// The opening rounds of a proof.
pub open spec fn proof_claims(air: InnerAir, proof: StarkProof, zeta: Ext) -> Seq<RoundView> {
    seq![trace_claim(air, proof, zeta), quotient_claim(air, proof, zeta)]
}

/// The logarithm of a period.
pub open spec fn log_period(column: Seq<u64>) -> nat {
    choose|e: nat| column.len() == #[trigger] pow2(e)
}

/// Periodic columns at a point of the extension.
pub open spec fn columns_at(columns: Seq<Seq<u64>>, log_size: nat, zeta: Ext) -> Seq<Ext> {
    Seq::new(columns.len(), |i: int| periodic_value(columns[i], log_period(columns[i]), log_size, zeta))
}

/// What the constraints are evaluated on.
pub open spec fn ood_openings(air: InnerAir, proof: StarkProof, pvs: Seq<u64>, zeta: Ext) -> NativeView {
    let sel = selectors(zeta, proof.degree_bits as nat);
    NativeView {
        local: proof.trace_local@,
        next: match proof.trace_next {
            Some(v) => v@,
            None => Seq::new(air.width as nat, |i: int| x_zero()),
        },
        pubs: Seq::new(pvs.len(), |i: int| x_base(pvs[i])),
        periodic: columns_at(contents(air.periodic@), proof.degree_bits as nat, zeta),
        is_first: sel.is_first_row,
        is_last: sel.is_last_row,
        is_trans: sel.is_transition,
    }
}

/// The first `n` constraints, folded under alpha: the first one takes its highest power.
pub open spec fn folded_constraints(constraints: Seq<Wire>, o: NativeView, alpha: Ext, n: nat) -> Ext
    decreases n,
{
    if n == 0 {
        x_zero()
    } else {
        x_add(
            x_mul(folded_constraints(constraints, o, alpha, (n - 1) as nat), alpha),
            native_value(constraints[n - 1], o),
        )
    }
}

/// The quotient at zeta, from its chunks.
pub open spec fn quotient_value(air: InnerAir, proof: StarkProof, zeta: Ext) -> Ext {
    recomposed(
        chunk_weights(zeta, proof.degree_bits as nat, air.log_chunks as nat),
        proof.quotient_chunks@,
        proof.quotient_chunks@.len(),
    )
}

/// The constraint identity out of the domain: the folded constraints over the vanishing polynomial are the
/// quotient.
pub open spec fn ood_holds(air: InnerAir, proof: StarkProof, pvs: Seq<u64>) -> bool {
    let zeta = stark_zeta(proof, pvs);
    let folded = folded_constraints(
        air.constraints@,
        ood_openings(air, proof, pvs, zeta),
        stark_alpha(proof, pvs),
        air.constraints@.len(),
    );
    x_same(
        x_mul(folded, selectors(zeta, proof.degree_bits as nat).inv_vanishing),
        quotient_value(air, proof, zeta),
    )
}

/// No period is longer than the domain.
pub open spec fn periods_fit(columns: Seq<Seq<u64>>, log_size: nat) -> bool {
    forall|i: int| 0 <= i < columns.len() ==> (#[trigger] columns[i]).len() <= pow2(log_size)
}

/// The columns have values at a point: no period is longer than the domain, and only where there is no column may the
/// point be zero.
pub open spec fn columns_defined(columns: Seq<Seq<u64>>, log_size: nat, point: Ext) -> bool {
    &&& periods_fit(columns, log_size)
    &&& columns.len() > 0 ==> !x_same(point, x_zero())
}

/// Every period is a power of two.
pub open spec fn periods_ok(columns: Seq<Seq<u64>>) -> bool {
    forall|i: int| 0 <= i < columns.len() ==> exists|e: nat| (#[trigger] columns[i]).len() == #[trigger] pow2(e)
}

/// The openings cover the trace, and the chunks have their two coordinates and a domain each.
pub open spec fn openings_fit(air: InnerAir, proof: StarkProof) -> bool {
    &&& air.width <= proof.trace_local@.len()
    &&& (proof.trace_next matches Some(v) ==> air.width <= v@.len())
    &&& chunks_fit(proof.quotient_chunks@, pow2(air.log_chunks as nat))
}

/// The fault of a proof, if it has one.
pub open spec fn stark_error(params: FriParams, air: InnerAir, proof: StarkProof, pvs: Seq<u64>) -> Option<StarkError> {
    let zeta = stark_zeta(proof, pvs);
    if proof.degree_bits > TWO_ADICITY {
        Some(StarkError::DegreeBits)
    } else if x_same(vanishing(zeta, proof.degree_bits as nat), x_zero()) {
        Some(StarkError::ZetaInDomain)
    } else if !columns_defined(contents(air.periodic@), proof.degree_bits as nat, zeta) {
        Some(StarkError::Shape)
    } else if air.uses_next && proof.trace_next is None {
        Some(StarkError::MissingNext)
    } else if let Some(e) = fri_error(
        params,
        proof.opening,
        fri_sponge(air, proof, pvs),
        proof_claims(air, proof, zeta),
    ) {
        Some(StarkError::Fri(e))
    } else if !openings_fit(air, proof) {
        Some(StarkError::Shape)
    } else if !ood_holds(air, proof, pvs) {
        Some(StarkError::Constraints)
    } else {
        None
    }
}

/// The caps and paths of a proof are well formed, and the field has the domains that its length asks for.
pub open spec fn stark_ok(params: FriParams, air: InnerAir, proof: StarkProof) -> bool {
    &&& cap_ok(proof.trace_commit@)
    &&& cap_ok(proof.quotient_commit@)
    &&& proof_ok(proof.opening)
    &&& pow2(air.log_chunks as nat) <= usize::MAX
    &&& proof.degree_bits <= TWO_ADICITY ==> {
        &&& pow2(proof.degree_bits as nat) <= usize::MAX
        &&& proof.degree_bits + air.log_chunks <= TWO_ADICITY
        &&& log_domain(params, proof.opening) == proof.degree_bits + params.log_blowup ==> order_ok(
            log_domain(params, proof.opening),
        )
    }
}

/// A copy of a run of felts.
pub(crate) fn copy_felts(v: &Vec<u64>) -> (r: Vec<u64>)
    ensures
        r@ == v@,
{
    let mut r: Vec<u64> = Vec::new();
    let mut i: usize = 0;
    while i < v.len()
        invariant
            i <= v@.len(),
            r@ =~= v@.take(i as int),
        decreases v.len() - i,
    {
        r.push(v[i]);
        i += 1;
    }
    assert(r@ =~= v@);
    r
}

/// A copy of a run of extension elements.
pub(crate) fn copy_exts(v: &Vec<Ext>) -> (r: Vec<Ext>)
    ensures
        r@ == v@,
{
    let mut r: Vec<Ext> = Vec::new();
    push_exts(&mut r, v);
    assert(r@ =~= v@);
    r
}

/// Append a run of extension elements.
pub(crate) fn push_exts(out: &mut Vec<Ext>, v: &Vec<Ext>)
    ensures
        final(out)@ == old(out)@ + v@,
{
    let ghost before = out@;
    let mut i: usize = 0;
    while i < v.len()
        invariant
            i <= v@.len(),
            out@ =~= before + v@.take(i as int),
        decreases v.len() - i,
    {
        out.push(v[i]);
        i += 1;
    }
    assert(out@ =~= before + v@);
}

/// A copy of a cap.
pub(crate) fn copy_cap(cap: &Vec<Vec<u64>>) -> (r: Vec<Vec<u64>>)
    ensures
        contents(r@) == contents(cap@),
        cap_ok(cap@) ==> cap_ok(r@),
{
    let mut r: Vec<Vec<u64>> = Vec::new();
    let mut i: usize = 0;
    while i < cap.len()
        invariant
            i <= cap@.len(),
            r@.len() == i,
            forall|k: int| 0 <= k < i ==> (#[trigger] r@[k])@ == cap@[k]@,
        decreases cap.len() - i,
    {
        r.push(copy_felts(&cap[i]));
        i += 1;
    }
    assert(contents(r@) =~= contents(cap@));
    r
}

/// The challenger at the start of the low-degree test, with the challenges drawn before.
pub struct Preamble {
    pub instance: Vec<u64>,
    pub commitment: Vec<u64>,
    pub alpha: Ext,
    pub zeta: Ext,
    pub challenger: Challenger,
}

/// Replay the transcript up to the evaluation point: the instance leads to alpha, the quotient commitment to
/// zeta.
pub fn preamble_challenges(proof: &StarkProof, pvs: &Vec<u64>) -> (r: Preamble)
    ensures
        r.instance@ == instance_felts(*proof, pvs@),
        r.commitment@ == digest_felts(proof.quotient_commit@),
        r.alpha == stark_alpha(*proof, pvs@),
        r.zeta == stark_zeta(*proof, pvs@),
        r.challenger@ == after_sample_ext(zeta_sponge(*proof, pvs@)),
        sponge_ok(r.challenger@),
{
    let mut instance: Vec<u64> = Vec::new();
    instance.push(proof.degree_bits as u64);
    instance.push(proof.degree_bits as u64);
    instance.push(0);
    let mut cap: Vec<u64> = cap_felts(&proof.trace_commit);
    instance.append(&mut cap);
    let mut statement: Vec<u64> = copy_felts(pvs);
    instance.append(&mut statement);
    assert(instance@ =~= instance_felts(*proof, pvs@));
    let commitment: Vec<u64> = cap_felts(&proof.quotient_commit);
    let mut challenger: Challenger = Challenger::new();
    challenger.observe_slice(&instance);
    let alpha: Ext = challenger.sample_ext();
    challenger.observe_slice(&commitment);
    let zeta: Ext = challenger.sample_ext();
    Preamble { instance, commitment, alpha, zeta, challenger }
}

/// All opened values, in the order in which they are claimed.
pub fn opened_of(air: &InnerAir, proof: &StarkProof) -> (r: Vec<Ext>)
    requires
        air.uses_next ==> proof.trace_next is Some,
        pow2(air.log_chunks as nat) <= usize::MAX,
    ensures
        r@ == opened_values(*air, *proof),
{
    let mut r: Vec<Ext> = copy_exts(&proof.trace_local);
    if air.uses_next {
        if let Some(next) = &proof.trace_next {
            push_exts(&mut r, next);
        }
    }
    let ghost before = r@;
    assert(before =~= proof.trace_local@ + next_values(*air, *proof));
    let n: usize = shifted_one(air.log_chunks);
    let mut i: usize = 0;
    assert(before + chunks_joined(proof.quotient_chunks@, 0) =~= before);
    while i < n && i < proof.quotient_chunks.len()
        invariant
            n == pow2(air.log_chunks as nat),
            i <= chunk_count(*air, *proof),
            r@ == before + chunks_joined(proof.quotient_chunks@, i as nat),
        decreases n - i,
    {
        push_exts(&mut r, &proof.quotient_chunks[i]);
        assert(r@ =~= before + chunks_joined(proof.quotient_chunks@, (i + 1) as nat));
        i += 1;
    }
    assert(r@ =~= opened_values(*air, *proof));
    r
}

/// The opening rounds of a proof.
pub fn claims_of(air: &InnerAir, proof: &StarkProof, zeta: Ext) -> (coms: Vec<Round>)
    requires
        proof.degree_bits <= TWO_ADICITY,
        air.uses_next ==> proof.trace_next is Some,
        pow2(air.log_chunks as nat) <= usize::MAX,
        cap_ok(proof.trace_commit@),
        cap_ok(proof.quotient_commit@),
    ensures
        claims(coms@) == proof_claims(*air, *proof, zeta),
        rounds_ok(coms@),
{
    let mut points: Vec<PointClaim> = Vec::new();
    points.push(PointClaim { z: zeta, values: copy_exts(&proof.trace_local) });
    if air.uses_next {
        if let Some(next) = &proof.trace_next {
            points.push(PointClaim { z: next_point_of(zeta, proof.degree_bits), values: copy_exts(next) });
        }
    }
    let trace: MatrixClaim = MatrixClaim { log_size: proof.degree_bits, points };
    let mut matrices: Vec<MatrixClaim> = Vec::new();
    matrices.push(trace);
    let trace_round: Round = Round { commit: copy_cap(&proof.trace_commit), matrices };
    proof {
        let want = trace_claim(*air, *proof, zeta);
        assert(trace_round@.matrices[0].points =~= want.matrices[0].points);
        assert(trace_round@.matrices =~= want.matrices);
        assert(trace_round@ =~= want);
    }
    let n: usize = shifted_one(air.log_chunks);
    let mut chunks: Vec<MatrixClaim> = Vec::new();
    let mut i: usize = 0;
    while i < n && i < proof.quotient_chunks.len()
        invariant
            n == pow2(air.log_chunks as nat),
            i <= chunk_count(*air, *proof),
            chunks@.len() == i,
            forall|k: int| 0 <= k < i ==> (#[trigger] chunks@[k])@ == quotient_claim(*air, *proof, zeta).matrices[k],
        decreases n - i,
    {
        let mut points: Vec<PointClaim> = Vec::new();
        points.push(PointClaim { z: zeta, values: copy_exts(&proof.quotient_chunks[i]) });
        let chunk: MatrixClaim = MatrixClaim { log_size: proof.degree_bits, points };
        assert(chunk@.points =~= quotient_claim(*air, *proof, zeta).matrices[i as int].points);
        chunks.push(chunk);
        i += 1;
    }
    let quotient_round: Round = Round { commit: copy_cap(&proof.quotient_commit), matrices: chunks };
    proof {
        assert(quotient_round@.matrices =~= quotient_claim(*air, *proof, zeta).matrices);
        assert(quotient_round@ =~= quotient_claim(*air, *proof, zeta));
    }
    let mut coms: Vec<Round> = Vec::new();
    coms.push(trace_round);
    coms.push(quotient_round);
    assert(claims(coms@) =~= proof_claims(*air, *proof, zeta));
    coms
}

/// The tallest matrix of a proof's rounds is its trace, blown up.
pub(super) proof fn lemma_claims_height(air: InnerAir, proof: StarkProof, zeta: Ext, log_blowup: usize)
    ensures
        any_matrix(proof_claims(air, proof, zeta), 2),
        tallest_of(proof_claims(air, proof, zeta), log_blowup, 2) == proof.degree_bits + log_blowup,
{
    let coms = proof_claims(air, proof, zeta);
    reveal_with_fuel(any_matrix, 3);
    reveal_with_fuel(tallest_of, 3);
    reveal_with_fuel(crate::fri::input::tallest, 2);
    let chunks = coms[1].matrices;
    lemma_level_height(chunks, proof.degree_bits, log_blowup, chunks.len());
    assert(coms[0].matrices.len() == 1);
}

proof fn lemma_level_height(mats: Seq<MatrixView>, log_size: usize, log_blowup: usize, n: nat)
    requires
        n <= mats.len(),
        forall|i: int| 0 <= i < mats.len() ==> (#[trigger] mats[i]).log_size == log_size,
    ensures
        crate::fri::input::tallest(mats, log_blowup, n) <= log_size + log_blowup,
    decreases n,
{
    if n > 0 {
        lemma_level_height(mats, log_size, log_blowup, (n - 1) as nat);
    }
}

/// Periodic columns at a point, or nothing where a period is longer than the domain or the point is zero.
pub fn periodic_at(columns: &Vec<Vec<u64>>, log_size: usize, zeta: Ext) -> (r: Option<Vec<Ext>>)
    requires
        log_size <= TWO_ADICITY,
        pow2(log_size as nat) <= usize::MAX,
        periods_ok(contents(columns@)),
    ensures
        r is Some <==> columns_defined(contents(columns@), log_size as nat, zeta),
        r matches Some(v) ==> v@ == columns_at(contents(columns@), log_size as nat, zeta),
{
    let ghost cv = contents(columns@);
    let n: usize = shifted_one(log_size);
    let mut r: Vec<Ext> = Vec::new();
    if columns.len() > 0 && zeta.same(Ext::zero()) {
        return None;
    }
    let mut i: usize = 0;
    while i < columns.len()
        invariant
            i <= columns@.len(),
            columns@.len() > 0 ==> !x_same(zeta, x_zero()),
            cv == contents(columns@),
            cv.len() == columns@.len(),
            log_size <= TWO_ADICITY,
            n == pow2(log_size as nat),
            periods_ok(cv),
            forall|k: int| 0 <= k < i ==> (#[trigger] cv[k]).len() <= pow2(log_size as nat),
            r@ =~= columns_at(cv, log_size as nat, zeta).take(i as int),
        decreases columns.len() - i,
    {
        assert(cv[i as int] == columns@[i as int]@);
        if columns[i].len() > n {
            assert(cv[i as int].len() > pow2(log_size as nat));
            return None;
        }
        proof {
            let col = cv[i as int];
            let e = log_period(col);
            assert(col.len() == pow2(e));
            if e > log_size {
                vstd::arithmetic::power2::lemma_pow2_strictly_increases(log_size as nat, e);
            }
        }
        r.push(periodic_column_at(&columns[i], log_size, zeta));
        i += 1;
    }
    assert(r@ =~= columns_at(cv, log_size as nat, zeta));
    Some(r)
}

/// Fold constraints at the openings under alpha, the first one under its highest power.
pub fn fold_constraints(constraints: &Vec<Wire>, o: &NativeOpenings, alpha: Ext) -> (r: Ext)
    requires
        forall|i: int| 0 <= i < constraints@.len() ==> o@.reads(#[trigger] constraints@[i]),
    ensures
        r == folded_constraints(constraints@, o@, alpha, constraints@.len()),
{
    let mut acc: Ext = Ext::zero();
    let mut i: usize = 0;
    while i < constraints.len()
        invariant
            i <= constraints@.len(),
            forall|k: int| 0 <= k < constraints@.len() ==> o@.reads(#[trigger] constraints@[k]),
            acc == folded_constraints(constraints@, o@, alpha, i as nat),
        decreases constraints.len() - i,
    {
        acc = acc.times(alpha).plus(eval_symbolic_native(&constraints[i], o));
        i += 1;
    }
    acc
}

/// What reads within few cells reads within more.
proof fn lemma_readable_grows(e: Wire, width: int, local: int, next: int, pubs: int, periodic: int)
    requires
        readable(e, width, width, pubs, periodic),
        width <= local,
        width <= next,
    ensures
        readable(e, local, next, pubs, periodic),
    decreases e,
{
    match *e {
        Expr::Sum(a, b) => {
            lemma_readable_grows(a, width, local, next, pubs, periodic);
            lemma_readable_grows(b, width, local, next, pubs, periodic);
        },
        Expr::Difference(a, b) => {
            lemma_readable_grows(a, width, local, next, pubs, periodic);
            lemma_readable_grows(b, width, local, next, pubs, periodic);
        },
        Expr::Negation(a) => {
            lemma_readable_grows(a, width, local, next, pubs, periodic);
        },
        Expr::Product(a, b) => {
            lemma_readable_grows(a, width, local, next, pubs, periodic);
            lemma_readable_grows(b, width, local, next, pubs, periodic);
        },
        _ => {},
    }
}

/// Whether every chunk has its two coordinates, and there are no more chunks than weights.
fn chunks_have_shape(chunks: &Vec<Vec<Ext>>, weights: usize) -> (ok: bool)
    ensures
        ok == chunks_fit(chunks@, weights as nat),
{
    if chunks.len() > weights {
        return false;
    }
    let mut i: usize = 0;
    while i < chunks.len()
        invariant
            i <= chunks@.len() <= weights,
            forall|k: int| 0 <= k < i ==> (#[trigger] chunks@[k])@.len() == 2,
        decreases chunks.len() - i,
    {
        if chunks[i].len() != 2 {
            assert(chunks@[i as int]@.len() != 2);
            return false;
        }
        i += 1;
    }
    true
}

/// What the constraints of a proof are evaluated on.
pub fn epilogue_openings(
    air: &InnerAir,
    proof: &StarkProof,
    pvs: &Vec<u64>,
    zeta: Ext,
    periodic: Vec<Ext>,
) -> (r: (NativeOpenings, Selectors))
    requires
        proof.degree_bits <= TWO_ADICITY,
        !x_same(vanishing(zeta, proof.degree_bits as nat), x_zero()),
        periodic@ == columns_at(contents(air.periodic@), proof.degree_bits as nat, zeta),
    ensures
        r.0@ == ood_openings(*air, *proof, pvs@, zeta),
        r.1 == selectors(zeta, proof.degree_bits as nat),
        x_mul(r.1.is_last_row, r.1.is_transition) == vanishing(zeta, proof.degree_bits as nat),
{
    let sel: Selectors = selectors_at_point(zeta, proof.degree_bits);
    let next: Vec<Ext> = match &proof.trace_next {
        Some(v) => copy_exts(v),
        None => zero_exts(air.width),
    };
    let mut pubs: Vec<Ext> = Vec::new();
    let mut i: usize = 0;
    while i < pvs.len()
        invariant
            i <= pvs@.len(),
            pubs@ =~= Seq::new(pvs@.len(), |k: int| x_base(pvs@[k])).take(i as int),
        decreases pvs.len() - i,
    {
        pubs.push(Ext::from_base(pvs[i]));
        i += 1;
    }
    let o: NativeOpenings = NativeOpenings {
        local: copy_exts(&proof.trace_local),
        next,
        pubs,
        periodic,
        is_first: sel.is_first_row,
        is_last: sel.is_last_row,
        is_trans: sel.is_transition,
    };
    assert(o@ =~= ood_openings(*air, *proof, pvs@, zeta));
    (o, sel)
}

/// `n` zeros of the extension.
fn zero_exts(n: usize) -> (r: Vec<Ext>)
    ensures
        r@ == Seq::new(n as nat, |i: int| x_zero()),
{
    let mut r: Vec<Ext> = Vec::new();
    let mut i: usize = 0;
    while i < n
        invariant
            i <= n,
            r@ =~= Seq::new(i as nat, |k: int| x_zero()),
        decreases n - i,
    {
        r.push(Ext::zero());
        i += 1;
    }
    r
}

/// Test the shape of a proof's openings, and compare the constraints with the quotient at the drawn point.
fn check_epilogue(
    air: &InnerAir,
    proof: &StarkProof,
    public_values: &Vec<u64>,
    zeta: Ext,
    alpha: Ext,
    periodic: Vec<Ext>,
) -> (r: Result<(), StarkError>)
    requires
        air_ok(*air, public_values@.len()),
        pow2(air.log_chunks as nat) <= usize::MAX,
        proof.degree_bits <= TWO_ADICITY,
        proof.degree_bits + air.log_chunks <= TWO_ADICITY,
        zeta == stark_zeta(*proof, public_values@),
        alpha == stark_alpha(*proof, public_values@),
        !x_same(vanishing(zeta, proof.degree_bits as nat), x_zero()),
        periodic@ == columns_at(contents(air.periodic@), proof.degree_bits as nat, zeta),
    ensures
        r is Ok <==> openings_fit(*air, *proof) && ood_holds(*air, *proof, public_values@),
        r matches Err(e) ==> e == (if openings_fit(*air, *proof) {
            StarkError::Constraints
        } else {
            StarkError::Shape
        }),
{
    let weights: Vec<Ext> = quotient_recompose_weights(zeta, proof.degree_bits, air.log_chunks);
    let next_fits: bool = match &proof.trace_next {
        Some(v) => air.width <= v.len(),
        None => true,
    };
    if air.width > proof.trace_local.len() || !next_fits || !chunks_have_shape(&proof.quotient_chunks, weights.len()) {
        return Err(StarkError::Shape);
    }
    let quotient: Ext = recompose_quotient(&weights, &proof.quotient_chunks);
    let (o, sel): (NativeOpenings, Selectors) = epilogue_openings(air, proof, public_values, zeta, periodic);
    proof {
        assert forall|i: int| 0 <= i < air.constraints@.len() implies o@.reads(#[trigger] air.constraints@[i]) by {
            lemma_readable_grows(
                air.constraints@[i],
                air.width as int,
                o@.local.len() as int,
                o@.next.len() as int,
                public_values@.len() as int,
                air.periodic@.len() as int,
            );
        }
    }
    let folded: Ext = fold_constraints(&air.constraints, &o, alpha);
    if !folded.times(sel.inv_vanishing).same(quotient) {
        return Err(StarkError::Constraints);
    }
    Ok(())
}

/// Verify a proof for an inner constraint system with the given parameters of the low-degree test: replay the
/// transcript, test the openings, and compare the constraints with the quotient at the drawn point.
#[verifier::spinoff_prover]
#[verifier::rlimit(60)]
pub fn verify_proof_with(params: &FriParams, air: &InnerAir, proof: &StarkProof, public_values: &Vec<u64>) -> (r: Result<
    (),
    StarkError,
>)
    requires
        params_ok(*params),
        air_ok(*air, public_values@.len()),
        stark_ok(*params, *air, *proof),
    ensures
        r is Ok <==> stark_error(*params, *air, *proof, public_values@) is None,
        r matches Err(e) ==> stark_error(*params, *air, *proof, public_values@) == Some(e),
{
    if proof.degree_bits > TWO_ADICITY {
        return Err(StarkError::DegreeBits);
    }
    let start: Preamble = preamble_challenges(proof, public_values);
    let zeta: Ext = start.zeta;
    if vanishing_at(zeta, proof.degree_bits).same(Ext::zero()) {
        return Err(StarkError::ZetaInDomain);
    }
    let periodic: Vec<Ext> = match periodic_at(&air.periodic, proof.degree_bits, zeta) {
        None => {
            return Err(StarkError::Shape);
        },
        Some(v) => v,
    };
    if air.uses_next && proof.trace_next.is_none() {
        return Err(StarkError::MissingNext);
    }
    let coms: Vec<Round> = claims_of(air, proof, zeta);
    let opened: Vec<Ext> = opened_of(air, proof);
    let mut challenger: Challenger = start.challenger;
    challenger.observe_ext_slice(&opened);
    let ghost challenger_start = challenger@;
    proof {
        lemma_claims_height(*air, *proof, zeta, params.log_blowup);
        assert(claims(coms@).len() == 2);
    }
    let tested: Result<(), FriError> = verify_fri_native(params, &proof.opening, &mut challenger, &coms);
    proof {
        assert(challenger_start == fri_sponge(*air, *proof, public_values@));
    }
    if let Err(e) = tested {
        return Err(StarkError::Fri(e));
    }
    check_epilogue(air, proof, public_values, zeta, start.alpha, periodic)
}

/// The parameters of a full verification: 96 queries and folds of up to 16 evaluations.
pub open spec fn full_params() -> FriParams {
    FriParams {
        log_blowup: 4,
        log_final_poly_len: 0,
        max_log_arity: 4,
        num_queries: 96,
        commit_pow_bits: 0,
        query_pow_bits: 16,
        cap_height: 6,
    }
}

/// Verify a proof for an inner constraint system with 96 queries and folds of up to 16 evaluations.
pub fn verify_proof(air: &InnerAir, proof: &StarkProof, public_values: &Vec<u64>) -> (r: Result<(), StarkError>)
    requires
        air_ok(*air, public_values@.len()),
        stark_ok(full_params(), *air, *proof),
    ensures
        r is Ok <==> stark_error(full_params(), *air, *proof, public_values@) is None,
        r matches Err(e) ==> stark_error(full_params(), *air, *proof, public_values@) == Some(e),
{
    let params: FriParams = build_params(4, 96);
    verify_proof_with(&params, air, proof, public_values)
}

} // verus!
