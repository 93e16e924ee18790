//! Verification of a lookup proof: three committed rounds, their openings at the drawn point, the constraint
//! identity with the lookups counted in, and the terminal.

use vstd::arithmetic::power2::pow2;
use vstd::prelude::*;

use crate::field::{x_add, x_mul, x_same, x_zero, Ext, TWO_ADICITY};
use crate::fri::input::{claims, rounds_ok, MatrixClaim, MatrixView, PointClaim, PointView, Round, RoundView};
use crate::fri::merkle::{cap_ok, contents};
use crate::fri::query::{order_ok, FriParams};
use crate::fri::verify::{
    any_matrix, fri_error, log_domain, proof_ok, tallest_of, verify_fri_native, FriError, FriProof,
};
use crate::lookup::air::{
    combined_constraint_layout, degree_fits, log_quotient_chunks, system_degree, system_reads, system_shaped, Lookup,
    LookupAir, SystemView,
};
use crate::lookup::exact::domain_roots;
use crate::lookup::honest::{law_provable_is_faultless, provable};
use crate::lookup::quotient::{batched, batched_constraints_at_point, covers, lifted};
use crate::lookup::rounds::{
    after_challenges, aux_sponge, challenges_of, draw_after_commit, draw_lookup_challenges, trace_sponge,
};
use crate::stark::domain::{
    chunk_weights, next_point, next_point_of, quotient_recompose_weights, recompose_quotient, recomposed, selectors,
    selectors_at_point, vanishing, vanishing_at, x_gen, Selectors,
};
use crate::stark::verify::{
    build_params, chunks_joined, columns_at, columns_defined, copy_cap, copy_exts, periodic_at, push_exts,
};
use crate::symbolic::{NativeLookup, NativeLookupView, NativeOpenings, NativeView};
use crate::transcript::{after_sample_ext, ext_felts, observed_all, sampled_ext, sponge_ok, Challenger, SpongeView};

verus! {

/// The opened values of a lookup proof: the trace's and the aux columns' row pair, the latter in coordinates, and
/// the quotient's chunks.
pub struct LookupOpenedValues {
    pub trace_local: Vec<Ext>,
    pub trace_next: Vec<Ext>,
    pub aux_local: Vec<Ext>,
    pub aux_next: Vec<Ext>,
    pub quotient_chunks: Vec<Vec<Ext>>,
}

/// A lookup proof: its three commitments, its terminal, its openings and their proof of low degree.
pub struct LookupProof {
    pub trace_commit: Vec<Vec<u64>>,
    pub aux_commit: Vec<Vec<u64>>,
    pub quotient_commit: Vec<Vec<u64>>,
    pub terminal: Ext,
    pub opened: LookupOpenedValues,
    pub opening_proof: FriProof,
    pub degree_bits: usize,
    pub aux_width: usize,
}

/// A part of a lookup proof.
#[derive(Clone, Copy, Debug, PartialEq, Eq, Structural)]
pub enum Part {
    Trace,
    Aux,
    Quotient,
    Periodic,
}

/// Why a lookup proof is refused.
#[derive(Clone, Copy, Debug, PartialEq, Eq, Structural)]
pub enum LookupVerifyError {
    /// An opened part has the wrong size.
    Shape(Part),
    /// The openings are not those of the commitments; where the test of low degree says why, it is told.
    Pcs(Option<FriError>),
    /// The drawn point fell into the trace domain.
    OodPointInDomain,
    /// The constraints do not match the quotient.
    OodMismatch,
    /// The looked-up values do not balance.
    NonZeroTerminal,
}

/// The logarithm of the trace length: hiding doubles what is committed.
pub open spec fn log_trace(proof: LookupProof, is_zk: nat) -> nat {
    (proof.degree_bits - is_zk) as nat
}

/// The logarithm of the number of quotient chunks.
pub open spec fn log_chunks(s: SystemView, is_zk: nat) -> nat {
    log_quotient_chunks(system_degree(s), is_zk) + is_zk
}

/// The first opened part of the wrong size.
pub open spec fn shape_error(s: SystemView, proof: LookupProof, is_zk: nat) -> Option<Part> {
    let o = proof.opened;
    if o.trace_local@.len() != s.width || o.trace_next@.len() != s.width {
        Some(Part::Trace)
    } else if o.aux_local@.len() != 2 * proof.aux_width || o.aux_next@.len() != 2 * proof.aux_width {
        Some(Part::Aux)
    } else if o.quotient_chunks@.len() != pow2(log_chunks(s, is_zk)) || exists|i: int|
        0 <= i < o.quotient_chunks@.len() && (#[trigger] o.quotient_chunks@[i])@.len() != 2 {
        Some(Part::Quotient)
    } else {
        None
    }
}

/// The sponge that the lookup challenges are drawn from.
pub open spec fn lookup_sponge(proof: LookupProof, pis: Seq<u64>) -> SpongeView {
    trace_sponge(proof.trace_commit@, pis)
}

/// The lookup challenges, two per lookup.
pub open spec fn lookup_challenges(s: SystemView, proof: LookupProof, pis: Seq<u64>) -> Seq<Ext> {
    challenges_of(lookup_sponge(proof, pis), (2 * s.lookups.len()) as nat)
}

/// The sponge that the constraint challenge is drawn from.
pub open spec fn lookup_alpha_sponge(s: SystemView, proof: LookupProof, pis: Seq<u64>) -> SpongeView {
    aux_sponge(after_challenges(lookup_sponge(proof, pis), (2 * s.lookups.len()) as nat), proof.aux_commit@)
}

/// The sponge that the point is drawn from.
pub open spec fn lookup_zeta_sponge(s: SystemView, proof: LookupProof, pis: Seq<u64>) -> SpongeView {
    aux_sponge(after_sample_ext(lookup_alpha_sponge(s, proof, pis)), proof.quotient_commit@)
}

/// The constraint challenge.
pub open spec fn lookup_alpha(s: SystemView, proof: LookupProof, pis: Seq<u64>) -> Ext {
    sampled_ext(lookup_alpha_sponge(s, proof, pis))
}

/// The drawn point.
pub open spec fn lookup_zeta(s: SystemView, proof: LookupProof, pis: Seq<u64>) -> Ext {
    sampled_ext(lookup_zeta_sponge(s, proof, pis))
}

/// All opened values, in the order in which they are claimed.
pub open spec fn lookup_opened(proof: LookupProof) -> Seq<Ext> {
    let o = proof.opened;
    o.trace_local@ + o.trace_next@ + o.aux_local@ + o.aux_next@ + chunks_joined(
        o.quotient_chunks@,
        o.quotient_chunks@.len(),
    )
}

/// The sponge that the test of low degree starts from.
pub open spec fn lookup_fri_sponge(s: SystemView, proof: LookupProof, pis: Seq<u64>) -> SpongeView {
    observed_all(after_sample_ext(lookup_zeta_sponge(s, proof, pis)), ext_felts(lookup_opened(proof)))
}

/// The claims on a commitment of one matrix: its row at zeta and the next one.
pub open spec fn pair_claim(commit: Seq<Vec<u64>>, log_size: usize, zeta: Ext, next: Ext, local: Seq<Ext>, after: Seq<
    Ext,
>) -> RoundView {
    RoundView {
        commit: contents(commit),
        matrices: seq![
            MatrixView {
                log_size,
                points: seq![PointView { z: zeta, values: local }, PointView { z: next, values: after }],
            },
        ],
    }
}

/// The claims on the quotient's chunks at zeta.
pub open spec fn chunks_claim(commit: Seq<Vec<u64>>, log_size: usize, zeta: Ext, chunks: Seq<Vec<Ext>>) -> RoundView {
    RoundView {
        commit: contents(commit),
        matrices: Seq::new(
            chunks.len(),
            |i: int| MatrixView { log_size, points: seq![PointView { z: zeta, values: chunks[i]@ }] },
        ),
    }
}

/// The three opening rounds of a lookup proof: trace, aux, quotient.
pub open spec fn lookup_claims(proof: LookupProof, zeta: Ext, is_zk: nat) -> Seq<RoundView> {
    let o = proof.opened;
    let next = next_point(zeta, log_trace(proof, is_zk));
    seq![
        pair_claim(proof.trace_commit@, proof.degree_bits, zeta, next, o.trace_local@, o.trace_next@),
        pair_claim(proof.aux_commit@, proof.degree_bits, zeta, next, o.aux_local@, o.aux_next@),
        chunks_claim(proof.quotient_commit@, proof.degree_bits, zeta, o.quotient_chunks@),
    ]
}

/// Extension columns from the values of their coordinate polynomials.
pub open spec fn joined_coordinates(v: Seq<Ext>) -> Seq<Ext> {
    Seq::new((v.len() / 2) as nat, |c: int| x_add(v[2 * c], x_mul(v[2 * c + 1], x_gen())))
}

/// What the constraints read at zeta.
pub open spec fn lookup_openings(s: SystemView, proof: LookupProof, pis: Seq<u64>, zeta: Ext, is_zk: nat) -> NativeView {
    let sel = selectors(zeta, log_trace(proof, is_zk));
    NativeView {
        local: proof.opened.trace_local@,
        next: proof.opened.trace_next@,
        pubs: lifted(pis),
        periodic: columns_at(s.periodic, log_trace(proof, is_zk), zeta),
        is_first: sel.is_first_row,
        is_last: sel.is_last_row,
        is_trans: sel.is_transition,
    }
}

/// What the lookup trees read besides.
pub open spec fn lookup_reads_at(s: SystemView, proof: LookupProof, pis: Seq<u64>) -> NativeLookupView {
    NativeLookupView {
        perm_local: joined_coordinates(proof.opened.aux_local@),
        perm_next: joined_coordinates(proof.opened.aux_next@),
        challenges: lookup_challenges(s, proof, pis),
        perm_values: seq![proof.terminal],
    }
}

/// The constraint identity at zeta: the batched constraints over the vanishing polynomial are the quotient.
pub open spec fn lookup_identity(s: SystemView, proof: LookupProof, pis: Seq<u64>, is_zk: nat) -> bool {
    let zeta = lookup_zeta(s, proof, pis);
    let folded = batched(
        s,
        lookup_openings(s, proof, pis, zeta, is_zk),
        lookup_reads_at(s, proof, pis),
        lookup_alpha(s, proof, pis),
    );
    x_same(
        x_mul(folded, selectors(zeta, log_trace(proof, is_zk)).inv_vanishing),
        recomposed(
            chunk_weights(zeta, log_trace(proof, is_zk), log_chunks(s, is_zk)),
            proof.opened.quotient_chunks@,
            proof.opened.quotient_chunks@.len(),
        ),
    )
}

/// The fault of a lookup proof before its openings are tested.
pub open spec fn error_before(s: SystemView, proof: LookupProof, pis: Seq<u64>, is_zk: nat) -> Option<LookupVerifyError> {
    if let Some(p) = shape_error(s, proof, is_zk) {
        Some(LookupVerifyError::Shape(p))
    } else if x_same(vanishing(lookup_zeta(s, proof, pis), log_trace(proof, is_zk)), x_zero()) {
        Some(LookupVerifyError::OodPointInDomain)
    } else {
        None
    }
}

/// The fault of a lookup proof whose openings are those of its commitments.
pub open spec fn error_after(s: SystemView, proof: LookupProof, pis: Seq<u64>, is_zk: nat) -> Option<LookupVerifyError> {
    if !columns_defined(s.periodic, log_trace(proof, is_zk), lookup_zeta(s, proof, pis)) {
        Some(LookupVerifyError::Shape(Part::Periodic))
    } else if proof.aux_width < s.lookups.len() + 1 {
        Some(LookupVerifyError::Shape(Part::Aux))
    } else if !lookup_identity(s, proof, pis, is_zk) {
        Some(LookupVerifyError::OodMismatch)
    } else if !x_same(proof.terminal, x_zero()) {
        Some(LookupVerifyError::NonZeroTerminal)
    } else {
        None
    }
}

/// The fault of a lookup proof, given the outcome of the test of its openings.
pub open spec fn lookup_error(
    s: SystemView,
    proof: LookupProof,
    pis: Seq<u64>,
    is_zk: nat,
    opening: Option<Option<FriError>>,
) -> Option<LookupVerifyError> {
    let before = error_before(s, proof, pis, is_zk);
    if before is Some {
        before
    } else if let Some(e) = opening {
        Some(LookupVerifyError::Pcs(e))
    } else {
        error_after(s, proof, pis, is_zk)
    }
}

/// A system and a proof that the verification takes: a well-formed system, at least as many public values as it has, and a
/// length whose domains the field has.
pub open spec fn lookup_ok(s: SystemView, proof: LookupProof, pis: nat, is_zk: nat) -> bool {
    &&& system_shaped(s)
    &&& system_reads(s)
    &&& degree_fits(system_degree(s))
    &&& is_zk <= 1
    &&& s.pubs <= pis
    &&& is_zk <= proof.degree_bits <= TWO_ADICITY
    &&& log_trace(proof, is_zk) + log_chunks(s, is_zk) <= TWO_ADICITY
    &&& pow2(proof.degree_bits as nat) <= usize::MAX
    &&& pow2(log_chunks(s, is_zk)) <= usize::MAX
}

/// The challenges of a lookup proof, and the challenger behind its point.
pub struct LookupPoint {
    pub challenges: Vec<Ext>,
    pub alpha: Ext,
    pub zeta: Ext,
    pub challenger: Challenger,
    pub log_chunks: usize,
}

/// Whether all chunks have their two coordinates.
fn chunks_have_two(chunks: &Vec<Vec<Ext>>) -> (ok: bool)
    ensures
        ok == !(exists|i: int| 0 <= i < chunks@.len() && (#[trigger] chunks@[i])@.len() != 2),
{
    let mut i: usize = 0;
    while i < chunks.len()
        invariant
            i <= chunks@.len(),
            forall|k: int| 0 <= k < i ==> (#[trigger] chunks@[k])@.len() == 2,
        decreases chunks.len() - i,
    {
        if chunks[i].len() != 2 {
            assert(chunks@[i as int]@.len() != 2);
            return false;
        }
        i += 1;
    }
    true
}

/// The first part of the verification: the sizes of the openings, the challenges, and the point.
pub fn lookup_point<A: LookupAir>(air: &A, proof: &LookupProof, pis: &Vec<u64>, is_zk: usize) -> (r: Result<
    LookupPoint,
    LookupVerifyError,
>)
    requires
        lookup_ok(air.system(), *proof, pis@.len(), is_zk as nat),
    ensures
        r matches Err(e) ==> error_before(air.system(), *proof, pis@, is_zk as nat) == Some(e),
        r matches Ok(p) ==> {
            &&& error_before(air.system(), *proof, pis@, is_zk as nat) is None
            &&& p.challenges@ == lookup_challenges(air.system(), *proof, pis@)
            &&& p.alpha == lookup_alpha(air.system(), *proof, pis@)
            &&& p.zeta == lookup_zeta(air.system(), *proof, pis@)
            &&& p.challenger@ == after_sample_ext(lookup_zeta_sponge(air.system(), *proof, pis@))
            &&& sponge_ok(p.challenger@)
            &&& p.log_chunks == log_chunks(air.system(), is_zk as nat)
        },
{
    let layout = combined_constraint_layout(air, is_zk);
    proof {
        lemma_log_fits(log_chunks(air.system(), is_zk as nat));
    }
    let chunks: usize = layout.log_chunks + is_zk;
    let o: &LookupOpenedValues = &proof.opened;
    let width: usize = air.width();
    if o.trace_local.len() != width || o.trace_next.len() != width {
        return Err(LookupVerifyError::Shape(Part::Trace));
    }
    let aux: u128 = proof.aux_width as u128 * 2;
    if o.aux_local.len() as u128 != aux || o.aux_next.len() as u128 != aux {
        return Err(LookupVerifyError::Shape(Part::Aux));
    }
    if o.quotient_chunks.len() != crate::bits::shifted_one(chunks) || !chunks_have_two(&o.quotient_chunks) {
        return Err(LookupVerifyError::Shape(Part::Quotient));
    }
    let lookups: Vec<Lookup> = air.lookups();
    let n: usize = lookups.len();
    assert(crate::lookup::air::lookup_views(lookups@).len() == n);
    let (challenges, mut challenger): (Vec<Ext>, Challenger) = draw_lookup_challenges(&proof.trace_commit, pis, 2 * n);
    let alpha: Ext = draw_after_commit(&mut challenger, &proof.aux_commit);
    let zeta: Ext = draw_after_commit(&mut challenger, &proof.quotient_commit);
    if vanishing_at(zeta, proof.degree_bits - is_zk).same(Ext::zero()) {
        return Err(LookupVerifyError::OodPointInDomain);
    }
    Ok(LookupPoint { challenges, alpha, zeta, challenger, log_chunks: chunks })
}

/// A logarithm of a machine integer is far below the largest one.
proof fn lemma_log_fits(e: nat)
    requires
        pow2(e) <= usize::MAX,
    ensures
        e < usize::MAX,
{
    crate::bits::lemma_pow2_exceeds(e);
}

/// Extension columns from the values of their coordinate polynomials.
fn join_coordinates(v: &Vec<Ext>) -> (r: Vec<Ext>)
    ensures
        r@ == joined_coordinates(v@),
{
    let len: usize = v.len();
    let n: usize = len / 2;
    let x: Ext = Ext { c0: 0, c1: 1 };
    let mut r: Vec<Ext> = Vec::new();
    let mut c: usize = 0;
    while c < n
        invariant
            c <= n,
            len == v@.len(),
            n == len / 2,
            x == x_gen(),
            r@ =~= joined_coordinates(v@).take(c as int),
        decreases n - c,
    {
        r.push(v[2 * c].plus(v[2 * c + 1].times(x)));
        c += 1;
    }
    assert(r@ =~= joined_coordinates(v@));
    r
}

fn lift_values(v: &Vec<u64>) -> (r: Vec<Ext>)
    ensures
        r@ == lifted(v@),
{
    let mut r: Vec<Ext> = Vec::new();
    let mut i: usize = 0;
    while i < v.len()
        invariant
            i <= v@.len(),
            r@ =~= lifted(v@).take(i as int),
        decreases v.len() - i,
    {
        r.push(Ext::from_base(v[i]));
        i += 1;
    }
    assert(r@ =~= lifted(v@));
    r
}

/// The last part of the verification, for openings that are those of the commitments: the constraint identity and
/// the terminal.
pub fn lookup_finish<A: LookupAir>(air: &A, proof: &LookupProof, pis: &Vec<u64>, is_zk: usize, point: &LookupPoint) -> (r:
    Result<(), LookupVerifyError>)
    requires
        lookup_ok(air.system(), *proof, pis@.len(), is_zk as nat),
        error_before(air.system(), *proof, pis@, is_zk as nat) is None,
        point.challenges@ == lookup_challenges(air.system(), *proof, pis@),
        point.alpha == lookup_alpha(air.system(), *proof, pis@),
        point.zeta == lookup_zeta(air.system(), *proof, pis@),
        point.log_chunks == log_chunks(air.system(), is_zk as nat),
    ensures
        r is Ok <==> error_after(air.system(), *proof, pis@, is_zk as nat) is None,
        r matches Err(e) ==> error_after(air.system(), *proof, pis@, is_zk as nat) == Some(e),
        is_zk == 0 && provable(air.system(), *proof, pis@) ==> r is Ok,
{
    let ghost s = air.system();
    let log_n: usize = proof.degree_bits - is_zk;
    if is_zk == 0 {
        let (g, w): (u64, u64) = domain_roots(log_n, log_n + point.log_chunks);
        proof {
            if provable(s, *proof, pis@) {
                law_provable_is_faultless(s, *proof, pis@, g, w);
            }
        }
    }
    let zeta: Ext = point.zeta;
    proof {
        crate::bits::lemma_pow2_monotone(log_n as nat, proof.degree_bits as nat);
    }
    let columns: Vec<Vec<u64>> = air.periodic_columns();
    let periodic: Vec<Ext> = match periodic_at(&columns, log_n, zeta) {
        None => {
            return Err(LookupVerifyError::Shape(Part::Periodic));
        },
        Some(v) => v,
    };
    let lookups: Vec<Lookup> = air.lookups();
    let n: usize = lookups.len();
    assert(crate::lookup::air::lookup_views(lookups@).len() == n);
    if proof.aux_width <= n {
        return Err(LookupVerifyError::Shape(Part::Aux));
    }
    let weights: Vec<Ext> = quotient_recompose_weights(zeta, log_n, point.log_chunks);
    let o: &LookupOpenedValues = &proof.opened;
    let quotient: Ext = recompose_quotient(&weights, &o.quotient_chunks);
    let sel: Selectors = selectors_at_point(zeta, log_n);
    let openings: NativeOpenings = NativeOpenings {
        local: copy_exts(&o.trace_local),
        next: copy_exts(&o.trace_next),
        pubs: lift_values(pis),
        periodic,
        is_first: sel.is_first_row,
        is_last: sel.is_last_row,
        is_trans: sel.is_transition,
    };
    let mut values: Vec<Ext> = Vec::new();
    values.push(proof.terminal);
    let reads: NativeLookup = NativeLookup {
        perm_local: join_coordinates(&o.aux_local),
        perm_next: join_coordinates(&o.aux_next),
        challenges: copy_exts(&point.challenges),
        perm_values: values,
    };
    proof {
        assert(openings@ =~= lookup_openings(s, *proof, pis@, zeta, is_zk as nat));
        assert(reads@ =~= lookup_reads_at(s, *proof, pis@));
        assert(covers(s, openings@, reads@));
    }
    let folded: Ext = batched_constraints_at_point(air, &openings, &reads, point.alpha);
    if !folded.times(sel.inv_vanishing).same(quotient) {
        return Err(LookupVerifyError::OodMismatch);
    }
    if !proof.terminal.same(Ext::zero()) {
        return Err(LookupVerifyError::NonZeroTerminal);
    }
    Ok(())
}

/// The verification of a lookup proof, given the outcome of the test of its openings against its commitments.
pub fn verify_lookup_inner<A: LookupAir>(
    air: &A,
    proof: &LookupProof,
    pis: &Vec<u64>,
    is_zk: usize,
    opening_holds: bool,
) -> (r: Result<(), LookupVerifyError>)
    requires
        lookup_ok(air.system(), *proof, pis@.len(), is_zk as nat),
    ensures
        ({
            let opening = if opening_holds {
                None
            } else {
                Some(None::<FriError>)
            };
            &&& r is Ok <==> lookup_error(air.system(), *proof, pis@, is_zk as nat, opening) is None
            &&& r matches Err(e) ==> lookup_error(air.system(), *proof, pis@, is_zk as nat, opening) == Some(e)
        }),
        is_zk == 0 && opening_holds && error_before(air.system(), *proof, pis@, 0) is None && provable(
            air.system(),
            *proof,
            pis@,
        ) ==> r is Ok,
{
    match lookup_point(air, proof, pis, is_zk) {
        Err(e) => Err(e),
        Ok(point) => {
            if !opening_holds {
                return Err(LookupVerifyError::Pcs(None));
            }
            lookup_finish(air, proof, pis, is_zk, &point)
        },
    }
}

fn pair_round(commit: &Vec<Vec<u64>>, log_size: usize, zeta: Ext, next: Ext, local: &Vec<Ext>, after: &Vec<Ext>) -> (r: Round)
    requires
        cap_ok(commit@),
    ensures
        r@ == pair_claim(commit@, log_size, zeta, next, local@, after@),
        cap_ok(r.commit@),
{
    let mut points: Vec<PointClaim> = Vec::new();
    points.push(PointClaim { z: zeta, values: copy_exts(local) });
    points.push(PointClaim { z: next, values: copy_exts(after) });
    let mut matrices: Vec<MatrixClaim> = Vec::new();
    matrices.push(MatrixClaim { log_size, points });
    let r: Round = Round { commit: copy_cap(commit), matrices };
    proof {
        let want = pair_claim(commit@, log_size, zeta, next, local@, after@);
        assert(r@.matrices[0].points =~= want.matrices[0].points);
        assert(r@.matrices =~= want.matrices);
        assert(r@ =~= want);
    }
    r
}

fn chunks_round(commit: &Vec<Vec<u64>>, log_size: usize, zeta: Ext, chunks: &Vec<Vec<Ext>>) -> (r: Round)
    requires
        cap_ok(commit@),
    ensures
        r@ == chunks_claim(commit@, log_size, zeta, chunks@),
        cap_ok(r.commit@),
{
    let ghost want = chunks_claim(commit@, log_size, zeta, chunks@);
    let mut matrices: Vec<MatrixClaim> = Vec::new();
    let mut i: usize = 0;
    while i < chunks.len()
        invariant
            i <= chunks@.len(),
            want == chunks_claim(commit@, log_size, zeta, chunks@),
            matrices@.len() == i,
            forall|k: int| 0 <= k < i ==> (#[trigger] matrices@[k])@ == want.matrices[k],
        decreases chunks.len() - i,
    {
        let mut points: Vec<PointClaim> = Vec::new();
        points.push(PointClaim { z: zeta, values: copy_exts(&chunks[i]) });
        let m: MatrixClaim = MatrixClaim { log_size, points };
        assert(m@.points =~= want.matrices[i as int].points);
        matrices.push(m);
        i += 1;
    }
    let r: Round = Round { commit: copy_cap(commit), matrices };
    assert(r@.matrices =~= want.matrices);
    assert(r@ =~= want);
    r
}

/// The three opening rounds of a lookup proof.
pub fn lookup_rounds(proof: &LookupProof, zeta: Ext, is_zk: usize) -> (coms: Vec<Round>)
    requires
        is_zk <= proof.degree_bits <= TWO_ADICITY,
        cap_ok(proof.trace_commit@),
        cap_ok(proof.aux_commit@),
        cap_ok(proof.quotient_commit@),
    ensures
        claims(coms@) == lookup_claims(*proof, zeta, is_zk as nat),
        rounds_ok(coms@),
{
    let o: &LookupOpenedValues = &proof.opened;
    let next: Ext = next_point_of(zeta, proof.degree_bits - is_zk);
    let mut coms: Vec<Round> = Vec::new();
    coms.push(pair_round(&proof.trace_commit, proof.degree_bits, zeta, next, &o.trace_local, &o.trace_next));
    coms.push(pair_round(&proof.aux_commit, proof.degree_bits, zeta, next, &o.aux_local, &o.aux_next));
    coms.push(chunks_round(&proof.quotient_commit, proof.degree_bits, zeta, &o.quotient_chunks));
    assert(claims(coms@) =~= lookup_claims(*proof, zeta, is_zk as nat));
    coms
}

/// All opened values of a lookup proof.
pub fn lookup_opened_of(proof: &LookupProof) -> (r: Vec<Ext>)
    ensures
        r@ == lookup_opened(*proof),
{
    let o: &LookupOpenedValues = &proof.opened;
    let mut r: Vec<Ext> = copy_exts(&o.trace_local);
    push_exts(&mut r, &o.trace_next);
    push_exts(&mut r, &o.aux_local);
    push_exts(&mut r, &o.aux_next);
    let ghost before = r@;
    let mut i: usize = 0;
    assert(before + chunks_joined(o.quotient_chunks@, 0) =~= before);
    while i < o.quotient_chunks.len()
        invariant
            i <= o.quotient_chunks@.len(),
            r@ == before + chunks_joined(o.quotient_chunks@, i as nat),
        decreases o.quotient_chunks.len() - i,
    {
        push_exts(&mut r, &o.quotient_chunks[i]);
        assert(r@ =~= before + chunks_joined(o.quotient_chunks@, (i + 1) as nat));
        i += 1;
    }
    assert(r@ =~= lookup_opened(*proof));
    r
}

/// The tallest matrix of a lookup proof's rounds is its trace, blown up.
proof fn lemma_rounds_height(proof: LookupProof, zeta: Ext, log_blowup: usize)
    ensures
        any_matrix(lookup_claims(proof, zeta, 0), 3),
        tallest_of(lookup_claims(proof, zeta, 0), log_blowup, 3) == proof.degree_bits + log_blowup,
{
    let coms = lookup_claims(proof, zeta, 0);
    reveal_with_fuel(any_matrix, 4);
    reveal_with_fuel(tallest_of, 4);
    reveal_with_fuel(crate::fri::input::tallest, 2);
    let chunks = coms[2].matrices;
    lemma_level(chunks, proof.degree_bits, log_blowup, chunks.len());
    assert(coms[0].matrices.len() == 1);
    assert(coms[1].matrices.len() == 1);
}

proof fn lemma_level(mats: Seq<MatrixView>, log_size: usize, log_blowup: usize, n: nat)
    requires
        n <= mats.len(),
        forall|i: int| 0 <= i < mats.len() ==> (#[trigger] mats[i]).log_size == log_size,
    ensures
        crate::fri::input::tallest(mats, log_blowup, n) <= log_size + log_blowup,
    decreases n,
{
    if n > 0 {
        lemma_level(mats, log_size, log_blowup, (n - 1) as nat);
    }
}

/// The parameters that a lookup proof is tested with: as many queries as it answers.
pub open spec fn lookup_params(proof: LookupProof) -> FriParams {
    FriParams {
        log_blowup: 4,
        log_final_poly_len: 0,
        max_log_arity: 4,
        num_queries: proof.opening_proof.queries@.len() as usize,
        commit_pow_bits: 0,
        query_pow_bits: 16,
        cap_height: 6,
    }
}

/// The outcome of the test of a lookup proof's openings.
pub open spec fn native_opening(s: SystemView, proof: LookupProof, pis: Seq<u64>) -> Option<Option<FriError>> {
    let e = fri_error(
        lookup_params(proof),
        proof.opening_proof,
        lookup_fri_sponge(s, proof, pis),
        lookup_claims(proof, lookup_zeta(s, proof, pis), 0),
    );
    if e is Some {
        Some(e)
    } else {
        None
    }
}

/// The test of a lookup proof's openings, behind its point.
#[verifier::spinoff_prover]
#[verifier::rlimit(60)]
fn test_openings(proof: &LookupProof, point: &mut LookupPoint, Ghost(s): Ghost<SystemView>, Ghost(pis): Ghost<Seq<u64>>) -> (r:
    Option<FriError>)
    requires
        lookup_ok(s, *proof, pis.len(), 0),
        old(point).zeta == lookup_zeta(s, *proof, pis),
        old(point).challenger@ == after_sample_ext(lookup_zeta_sponge(s, *proof, pis)),
        sponge_ok(old(point).challenger@),
        log_domain(lookup_params(*proof), proof.opening_proof) == proof.degree_bits + 4 ==> order_ok(
            (proof.degree_bits + 4) as nat,
        ),
        cap_ok(proof.trace_commit@),
        cap_ok(proof.aux_commit@),
        cap_ok(proof.quotient_commit@),
        proof_ok(proof.opening_proof),
        error_before(s, *proof, pis, 0) is None,
    ensures
        r == fri_error(
            lookup_params(*proof),
            proof.opening_proof,
            lookup_fri_sponge(s, *proof, pis),
            lookup_claims(*proof, lookup_zeta(s, *proof, pis), 0),
        ),
        final(point).challenges == old(point).challenges,
        final(point).alpha == old(point).alpha,
        final(point).zeta == old(point).zeta,
        final(point).log_chunks == old(point).log_chunks,
{
    let coms: Vec<Round> = lookup_rounds(proof, point.zeta, 0);
    let opened: Vec<Ext> = lookup_opened_of(proof);
    let n_queries: usize = proof.opening_proof.queries.len();
    let params: FriParams = build_params(4, n_queries);
    point.challenger.observe_ext_slice(&opened);
    proof {
        assert(params == lookup_params(*proof));
        lemma_rounds_height(*proof, point.zeta, params.log_blowup);
        assert(claims(coms@).len() == 3);
    }
    match verify_fri_native(&params, &proof.opening_proof, &mut point.challenger, &coms) {
        Err(e) => Some(e),
        Ok(_) => None,
    }
}

/// The verification of a lookup proof without hiding, from scratch: the challenges, the test of low degree over
/// all three rounds, the constraint identity and the terminal.
#[verifier::spinoff_prover]
#[verifier::rlimit(60)]
pub fn verify_lookup_proof_native<A: LookupAir>(air: &A, proof: &LookupProof, pis: &Vec<u64>) -> (r: Result<
    (),
    LookupVerifyError,
>)
    requires
        lookup_ok(air.system(), *proof, pis@.len(), 0),
        log_domain(lookup_params(*proof), proof.opening_proof) == proof.degree_bits + 4 ==> order_ok(
            (proof.degree_bits + 4) as nat,
        ),
        cap_ok(proof.trace_commit@),
        cap_ok(proof.aux_commit@),
        cap_ok(proof.quotient_commit@),
        proof_ok(proof.opening_proof),
    ensures
        ({
            let e = lookup_error(air.system(), *proof, pis@, 0, native_opening(air.system(), *proof, pis@));
            &&& r is Ok <==> e is None
            &&& r matches Err(x) ==> e == Some(x)
        }),
        native_opening(air.system(), *proof, pis@) is None && error_before(air.system(), *proof, pis@, 0) is None
            && provable(air.system(), *proof, pis@) ==> r is Ok,
{
    let mut point: LookupPoint = match lookup_point(air, proof, pis, 0) {
        Err(e) => {
            return Err(e);
        },
        Ok(p) => p,
    };
    if let Some(e) = test_openings(proof, &mut point, Ghost(air.system()), Ghost(pis@)) {
        return Err(LookupVerifyError::Pcs(Some(e)));
    }
    lookup_finish(air, proof, pis, 0, &point)
}

} // verus!
