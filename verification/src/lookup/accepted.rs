//! What an accepted lookup proof satisfies, condition by condition.

use vstd::arithmetic::power2::pow2;
use vstd::prelude::*;

use crate::field::{x_add, x_inv, x_mul, x_one, x_same, x_square_times, x_sub, x_zero, Ext};
use crate::fri::merkle::contents;
use crate::fri::verify::FriError;
use crate::lookup::air::{log_quotient_chunks, system_degree, SystemView};
use crate::lookup::quotient::batched;
use crate::lookup::rounds::{after_challenges, challenges_of};
use crate::lookup::verify::{
    lookup_alpha, lookup_challenges, lookup_claims, lookup_error, lookup_opened, lookup_openings, lookup_reads_at, lookup_zeta, LookupProof,
    LookupVerifyError, Part,
};
use crate::stark::domain::{chunk_weights, recomposed, x_gen};
use crate::symbolic::{NativeLookupView, NativeView};
use crate::transcript::{
    after_sample_ext, digest_felts, empty_sponge, observed_all, sampled_ext, SpongeView,
};

verus! {

/// The transcript of a lookup proof up to its point: the trace commitment and the public values go in, two challenges per
/// lookup come out; the aux commitment goes in, the constraint challenge comes out; the quotient commitment goes in, the
/// point comes out.
pub open spec fn transcript_gives(
    s: SystemView,
    proof: LookupProof,
    pis: Seq<u64>,
    sponges: Seq<SpongeView>,
    challenges: Seq<Ext>,
    alpha: Ext,
    zeta: Ext,
) -> bool {
    let committed = observed_all(sponges.last(), digest_felts(proof.aux_commit@));
    let divided = observed_all(after_sample_ext(committed), digest_felts(proof.quotient_commit@));
    &&& challenges.len() == 2 * s.lookups.len()
    &&& sponges.len() == challenges.len() + 1
    &&& sponges[0] == observed_all(observed_all(empty_sponge(), digest_felts(proof.trace_commit@)), pis)
    &&& forall|k: int| 0 <= k < challenges.len() ==> sponges[k + 1] == after_sample_ext(#[trigger] sponges[k])
    &&& forall|k: int| 0 <= k < challenges.len() ==> #[trigger] challenges[k] == sampled_ext(sponges[k])
    &&& alpha == sampled_ext(committed)
    &&& zeta == sampled_ext(divided)
}

/// The opened values of a proof have the sizes of its system.
pub open spec fn opened_sizes(s: SystemView, proof: LookupProof, is_zk: nat) -> bool {
    let o = proof.opened;
    &&& o.trace_local@.len() == s.width
    &&& o.trace_next@.len() == s.width
    &&& o.aux_local@.len() == 2 * proof.aux_width
    &&& o.aux_next@.len() == 2 * proof.aux_width
    &&& o.quotient_chunks@.len() == pow2(log_quotient_chunks(system_degree(s), is_zk) + is_zk)
    &&& forall|i: int| 0 <= i < o.quotient_chunks@.len() ==> (#[trigger] o.quotient_chunks@[i])@.len() == 2
}

/// What the constraints of a system read of a proof at a point off the trace domain: the opened row pair, the public values,
/// and the selectors of the domain that was traced, which is half of the committed one where the proof hides.
pub open spec fn reads_of(s: SystemView, proof: LookupProof, pis: Seq<u64>, log: nat, zeta: Ext, o: NativeView) -> bool {
    let z = x_sub(x_square_times(zeta, log), x_one());
    let last = crate::field::x_base(crate::field::f_inv(crate::field::two_adic_root(log)));
    &&& o.local == proof.opened.trace_local@
    &&& o.next == proof.opened.trace_next@
    &&& o.pubs.len() == pis.len()
    &&& forall|i: int| 0 <= i < pis.len() ==> #[trigger] o.pubs[i] == crate::field::x_base(pis[i])
    &&& o.periodic == crate::stark::verify::columns_at(s.periodic, log, zeta)
    &&& o.is_first == x_mul(z, x_inv(x_sub(zeta, x_one())))
    &&& o.is_last == x_mul(z, x_inv(x_sub(zeta, last)))
    &&& o.is_trans == x_sub(zeta, last)
}

/// What the lookup trees of a system read of a proof: the opened aux columns, each from its two coordinates, those at the
/// point apart from those at the next point, the challenges, and the terminal.
pub open spec fn lookups_read(proof: LookupProof, challenges: Seq<Ext>, l: NativeLookupView) -> bool {
    let (a, b) = (proof.opened.aux_local@, proof.opened.aux_next@);
    &&& l.perm_local.len() == proof.aux_width
    &&& l.perm_next.len() == proof.aux_width
    &&& forall|c: int|
        0 <= c < proof.aux_width ==> #[trigger] l.perm_local[c] == x_add(a[2 * c], x_mul(a[2 * c + 1], x_gen()))
    &&& forall|c: int|
        0 <= c < proof.aux_width ==> #[trigger] l.perm_next[c] == x_add(b[2 * c], x_mul(b[2 * c + 1], x_gen()))
    &&& l.challenges == challenges
    &&& l.perm_values == seq![proof.terminal]
}

/// A lookup proof is accepted exactly if its openings hold, its opened values have their sizes, the drawn point lies off the
/// trace domain, the periodic columns are defined there, there is an aux column for every lookup and one for the sum, the
/// batched constraints over the vanishing polynomial are the recomposed quotient, and the terminal is zero; all challenges
/// are those of the transcript.
pub proof fn law_accepted_lookup(
    s: SystemView,
    proof: LookupProof,
    pis: Seq<u64>,
    is_zk: nat,
    opening: Option<Option<FriError>>,
) -> (w: (Seq<SpongeView>, NativeView, NativeLookupView))
    requires
        is_zk <= proof.degree_bits,
    ensures
        ({
            let log = (proof.degree_bits - is_zk) as nat;
            let challenges = lookup_challenges(s, proof, pis);
            let (alpha, zeta) = (lookup_alpha(s, proof, pis), lookup_zeta(s, proof, pis));
            let z = x_sub(x_square_times(zeta, log), x_one());
            let chunks = proof.opened.quotient_chunks@;
            &&& transcript_gives(s, proof, pis, w.0, challenges, alpha, zeta)
            &&& reads_of(s, proof, pis, log, zeta, w.1)
            &&& opened_sizes(s, proof, is_zk) ==> lookups_read(proof, challenges, w.2)
            &&& lookup_error(s, proof, pis, is_zk, opening) is None <==> {
                &&& opening is None
                &&& opened_sizes(s, proof, is_zk)
                &&& !x_same(z, x_zero())
                &&& forall|i: int| 0 <= i < s.periodic.len() ==> (#[trigger] s.periodic[i]).len() <= pow2(log)
                &&& s.periodic.len() > 0 ==> !x_same(zeta, x_zero())
                &&& s.lookups.len() < proof.aux_width
                &&& x_same(
                    x_mul(batched(s, w.1, w.2, alpha), x_inv(z)),
                    recomposed(
                        chunk_weights(zeta, log, log_quotient_chunks(system_degree(s), is_zk) + is_zk),
                        chunks,
                        chunks.len(),
                    ),
                )
                &&& x_same(proof.terminal, x_zero())
            }
        }),
{
    let zeta = lookup_zeta(s, proof, pis);
    let first = observed_all(observed_all(empty_sponge(), digest_felts(proof.trace_commit@)), pis);
    let n = (2 * s.lookups.len()) as nat;
    let sponges = Seq::new((n + 1) as nat, |k: int| after_challenges(first, k as nat));
    let challenges = challenges_of(first, n);
    assert forall|k: int| 0 <= k < challenges.len() implies sponges[k + 1] == after_sample_ext(#[trigger] sponges[k]) by {
        assert(((k + 1) as nat - 1) as nat == k as nat);
    }
    assert(sponges.last() == after_challenges(first, n));
    let o = lookup_openings(s, proof, pis, zeta, is_zk);
    let l = lookup_reads_at(s, proof, pis);
    (sponges, o, l)
}

/// Which fault is told: sizes come first, part by part, then the point, then the openings, the periodic columns, the aux
/// columns that are missing, the constraints, and last the terminal.
pub proof fn law_lookup_faults_in_order(
    s: SystemView,
    proof: LookupProof,
    pis: Seq<u64>,
    is_zk: nat,
    opening: Option<Option<FriError>>,
)
    requires
        is_zk <= proof.degree_bits,
    ensures
        ({
            let e = lookup_error(s, proof, pis, is_zk, opening);
            let log = (proof.degree_bits - is_zk) as nat;
            let zeta = lookup_zeta(s, proof, pis);
            let o = proof.opened;
            let row = o.trace_local@.len() == s.width && o.trace_next@.len() == s.width;
            let aux = o.aux_local@.len() == 2 * proof.aux_width && o.aux_next@.len() == 2 * proof.aux_width;
            let inside = x_same(x_square_times(zeta, log), x_one());
            let before = opened_sizes(s, proof, is_zk) && !inside;
            &&& e == Some(LookupVerifyError::Shape(Part::Trace)) <==> !row
            &&& !row || aux || e == Some(LookupVerifyError::Shape(Part::Aux))
            &&& e == Some(LookupVerifyError::Shape(Part::Quotient)) <==> row && aux && !opened_sizes(s, proof, is_zk)
            &&& e == Some(LookupVerifyError::OodPointInDomain) <==> opened_sizes(s, proof, is_zk) && inside
            &&& e matches Some(LookupVerifyError::Pcs(f)) ==> before && opening == Some(f)
            &&& before && opening is Some ==> e == Some(LookupVerifyError::Pcs(opening->0))
            &&& e == Some(LookupVerifyError::NonZeroTerminal) ==> !x_same(proof.terminal, x_zero())
            &&& !x_same(proof.terminal, x_zero()) ==> e is Some
        }),
{
    let log = (proof.degree_bits - is_zk) as nat;
    let zeta = lookup_zeta(s, proof, pis);
    crate::field::lemma_same_iff_zero_difference(x_square_times(zeta, log), x_one());
}

/// What is claimed of the commitments of a lookup proof over a trace of `2^log` rows: the trace's and the aux columns' row pair,
/// at the point and at the next point of the traced domain, and every chunk of the quotient at the point; all over the committed
/// domain, which hiding doubles. These are the points that a prover opens at, and the claimed values in their order are the
/// opened ones.
pub proof fn law_lookup_claims(proof: LookupProof, zeta: Ext, is_zk: nat, log: nat, i: int)
    requires
        proof.degree_bits == log + is_zk,
        0 <= i < proof.opened.quotient_chunks@.len(),
    ensures
        ({
            let coms = lookup_claims(proof, zeta, is_zk);
            let next = x_mul(zeta, crate::field::x_base(crate::field::two_adic_root(log)));
            let o = proof.opened;
            let (trace, aux, chunk) = (coms[0].matrices[0], coms[1].matrices[0], coms[2].matrices[i]);
            &&& coms.len() == 3
            &&& coms[0].commit == contents(proof.trace_commit@)
            &&& coms[1].commit == contents(proof.aux_commit@)
            &&& coms[2].commit == contents(proof.quotient_commit@)
            &&& coms[0].matrices.len() == 1
            &&& coms[1].matrices.len() == 1
            &&& coms[2].matrices.len() == o.quotient_chunks@.len()
            &&& trace.log_size == log + is_zk
            &&& aux.log_size == log + is_zk
            &&& chunk.log_size == log + is_zk
            &&& trace.points.len() == 2
            &&& aux.points.len() == 2
            &&& chunk.points.len() == 1
            &&& trace.points[0].z == zeta
            &&& trace.points[1].z == next
            &&& aux.points[0].z == zeta
            &&& aux.points[1].z == next
            &&& chunk.points[0].z == zeta
            &&& chunk.points[0].values == o.quotient_chunks@[i]@
            &&& lookup_opened(proof) == trace.points[0].values + trace.points[1].values + aux.points[0].values
                + aux.points[1].values + crate::stark::verify::chunks_joined(
                o.quotient_chunks@,
                o.quotient_chunks@.len(),
            )
            &&& trace.points[0].values == o.trace_local@
            &&& trace.points[1].values == o.trace_next@
            &&& aux.points[0].values == o.aux_local@
            &&& aux.points[1].values == o.aux_next@
        }),
{
}

} // verus!
