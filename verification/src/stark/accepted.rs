//! What an accepted proof satisfies, condition by condition.

use vstd::arithmetic::power2::pow2;
use vstd::prelude::*;

use crate::field::{f_inv, two_adic_root, x_base, x_inv, x_mul, x_one, x_same, x_square_times, x_sub, x_zero, Ext};
use crate::fri::input::RoundView;
use crate::fri::merkle::contents;
use crate::fri::query::FriParams;
use crate::fri::verify::{arity_sum, first_openings, fri_error, log_domain};
use crate::stark::domain::{chunk_weights, recomposed};
use crate::stark::verify::{
    chunk_count, chunks_joined, columns_at, columns_defined, folded_constraints, fri_sponge, lemma_claims_height,
    next_values, ood_openings, openings_fit,
    proof_claims,
    stark_alpha, stark_error, stark_zeta, InnerAir, StarkError, StarkProof,
};
use crate::symbolic::NativeView;
use crate::transcript::{
    after_sample_ext, digest_felts, empty_sponge, ext_felts, observed_all, sampled_ext, SpongeView,
};

verus! {

/// The transcript of a proof: its dimensions, the trace commitment and the public values go in, the constraint challenge
/// comes out; the quotient commitment goes in, the point comes out; the opened values go in, and the low-degree test goes
/// on from there.
pub open spec fn transcript_gives(
    air: InnerAir,
    proof: StarkProof,
    pvs: Seq<u64>,
    alpha: Ext,
    zeta: Ext,
    rest: SpongeView,
) -> bool {
    let bits = proof.degree_bits as u64;
    let first = observed_all(empty_sponge(), seq![bits, bits, 0u64] + digest_felts(proof.trace_commit@) + pvs);
    let second = observed_all(after_sample_ext(first), digest_felts(proof.quotient_commit@));
    let opened = proof.trace_local@ + next_values(air, proof) + chunks_joined(
        proof.quotient_chunks@,
        chunk_count(air, proof),
    );
    &&& alpha == sampled_ext(first)
    &&& zeta == sampled_ext(second)
    &&& rest == observed_all(after_sample_ext(second), ext_felts(opened))
}

/// What is claimed of the commitments: the trace's row at the point and, where it is used, the next one at the next point of
/// the domain, and every chunk of the quotient at the point, all over domains of the trace's size.
pub open spec fn claims_are(air: InnerAir, proof: StarkProof, zeta: Ext, coms: Seq<RoundView>) -> bool {
    let trace = coms[0].matrices[0];
    &&& coms.len() == 2
    &&& coms[0].commit == contents(proof.trace_commit@)
    &&& coms[0].matrices.len() == 1
    &&& trace.log_size == proof.degree_bits
    &&& trace.points.len() == if air.uses_next {
        2int
    } else {
        1
    }
    &&& trace.points[0].z == zeta
    &&& trace.points[0].values == proof.trace_local@
    &&& air.uses_next ==> {
        &&& trace.points[1].z == x_mul(zeta, x_base(two_adic_root(proof.degree_bits as nat)))
        &&& proof.trace_next matches Some(v) ==> trace.points[1].values == v@
    }
    &&& coms[1].commit == contents(proof.quotient_commit@)
    &&& coms[1].matrices.len() == chunk_count(air, proof)
    &&& forall|i: int|
        0 <= i < coms[1].matrices.len() ==> {
            let m = #[trigger] coms[1].matrices[i];
            &&& m.log_size == proof.degree_bits
            &&& m.points.len() == 1
            &&& m.points[0].z == zeta
            &&& m.points[0].values == proof.quotient_chunks@[i]@
        }
}

/// What the constraints read of a proof at a point off the trace domain. A next row that is not opened is zero.
pub open spec fn reads_of(air: InnerAir, proof: StarkProof, pvs: Seq<u64>, zeta: Ext, o: NativeView) -> bool {
    let log = proof.degree_bits as nat;
    let z = x_sub(x_square_times(zeta, log), x_one());
    let last = x_base(f_inv(two_adic_root(log)));
    &&& o.local == proof.trace_local@
    &&& proof.trace_next matches Some(v) ==> o.next == v@
    &&& proof.trace_next is None ==> o.next.len() == air.width && forall|i: int|
        0 <= i < o.next.len() ==> #[trigger] o.next[i] == x_zero()
    &&& o.pubs.len() == pvs.len()
    &&& forall|i: int| 0 <= i < pvs.len() ==> #[trigger] o.pubs[i] == x_base(pvs[i])
    &&& o.periodic == columns_at(contents(air.periodic@), log, zeta)
    &&& o.is_first == x_mul(z, x_inv(x_sub(zeta, x_one())))
    &&& o.is_last == x_mul(z, x_inv(x_sub(zeta, last)))
    &&& o.is_trans == x_sub(zeta, last)
}

/// The opened values of a proof cover its system: the rows every column, no more chunks of the quotient than there are, and
/// every chunk its two coordinates.
pub open spec fn opened_cover(air: InnerAir, proof: StarkProof) -> bool {
    &&& air.width <= proof.trace_local@.len()
    &&& proof.trace_next matches Some(v) ==> air.width <= v@.len()
    &&& proof.quotient_chunks@.len() <= pow2(air.log_chunks as nat)
    &&& forall|i: int| 0 <= i < proof.quotient_chunks@.len() ==> (#[trigger] proof.quotient_chunks@[i])@.len() == 2
}

/// A proof is accepted exactly if its degree has a domain, the drawn point lies off that domain, the periodic columns are
/// defined there, a next row that is used is opened, the low-degree test accepts the claims, the opened values cover the
/// system, and the folded constraints over the vanishing polynomial are the recomposed quotient; all under the challenges
/// of the transcript.
#[verifier::spinoff_prover]
#[verifier::rlimit(30)]
pub proof fn law_accepted_stark(params: FriParams, air: InnerAir, proof: StarkProof, pvs: Seq<u64>) -> (w: (
    SpongeView,
    Seq<RoundView>,
    NativeView,
))
    ensures
        ({
            let log = proof.degree_bits as nat;
            let (alpha, zeta) = (stark_alpha(proof, pvs), stark_zeta(proof, pvs));
            let z = x_sub(x_square_times(zeta, log), x_one());
            let columns = contents(air.periodic@);
            &&& transcript_gives(air, proof, pvs, alpha, zeta, w.0)
            &&& claims_are(air, proof, zeta, w.1)
            &&& reads_of(air, proof, pvs, zeta, w.2)
            &&& stark_error(params, air, proof, pvs) is None <==> {
                &&& proof.degree_bits <= 32
                &&& !x_same(z, x_zero())
                &&& forall|i: int| 0 <= i < columns.len() ==> (#[trigger] columns[i]).len() <= pow2(log)
                &&& columns.len() > 0 ==> !x_same(zeta, x_zero())
                &&& air.uses_next ==> proof.trace_next is Some
                &&& fri_error(params, proof.opening, w.0, w.1) is None
                &&& opened_cover(air, proof)
                &&& x_same(
                    x_mul(folded_constraints(air.constraints@, w.2, alpha, air.constraints@.len()), x_inv(z)),
                    recomposed(
                        chunk_weights(zeta, log, air.log_chunks as nat),
                        proof.quotient_chunks@,
                        proof.quotient_chunks@.len(),
                    ),
                )
            }
        }),
{
    let zeta = stark_zeta(proof, pvs);
    assert(columns_defined(contents(air.periodic@), proof.degree_bits as nat, zeta) <==> {
        &&& forall|i: int|
            0 <= i < contents(air.periodic@).len() ==> (#[trigger] contents(air.periodic@)[i]).len() <= pow2(
                proof.degree_bits as nat,
            )
        &&& contents(air.periodic@).len() > 0 ==> !x_same(zeta, x_zero())
    });
    assert(openings_fit(air, proof) == opened_cover(air, proof));
    (fri_sponge(air, proof, pvs), proof_claims(air, proof, zeta), ood_openings(air, proof, pvs, zeta))
}

/// Which fault is told first: the degree, the point, the periodic columns, the missing next row, the low-degree test, then
/// sizes and constraints.
#[verifier::spinoff_prover]
#[verifier::rlimit(30)]
pub proof fn law_stark_faults_in_order(params: FriParams, air: InnerAir, proof: StarkProof, pvs: Seq<u64>)
    ensures
        ({
            let e = stark_error(params, air, proof, pvs);
            let zeta = stark_zeta(proof, pvs);
            let fits = proof.degree_bits <= 32;
            let inside = x_same(x_square_times(zeta, proof.degree_bits as nat), x_one());
            let tested = fri_error(
                params,
                proof.opening,
                fri_sponge(air, proof, pvs),
                proof_claims(air, proof, zeta),
            );
            &&& e == Some(StarkError::DegreeBits) <==> !fits
            &&& e == Some(StarkError::ZetaInDomain) <==> fits && inside
            &&& e == Some(StarkError::MissingNext) ==> fits && !inside && air.uses_next && proof.trace_next is None
            &&& e matches Some(StarkError::Fri(f)) ==> tested == Some(f) && fits && !inside
            &&& e == Some(StarkError::Constraints) ==> tested is None && opened_cover(air, proof)
        }),
{
    let zeta = stark_zeta(proof, pvs);
    crate::field::lemma_same_iff_zero_difference(x_square_times(zeta, proof.degree_bits as nat), x_one());
}

/// The arities of an accepted proof fold the trace's degree down to the final polynomial.
pub proof fn law_accepted_arities(params: FriParams, air: InnerAir, proof: StarkProof, pvs: Seq<u64>)
    requires
        stark_error(params, air, proof, pvs) is None,
    ensures
        arity_sum(first_openings(proof.opening), first_openings(proof.opening).len()) + params.log_final_poly_len
            == proof.degree_bits,
        log_domain(params, proof.opening) == proof.degree_bits + params.log_blowup,
        proof.opening.queries@.len() == params.num_queries > 0,
        proof.opening.final_poly@.len() == pow2(params.log_final_poly_len as nat),
{
    lemma_claims_height(air, proof, stark_zeta(proof, pvs), params.log_blowup);
}

} // verus!
