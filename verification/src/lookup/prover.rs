//! The rounds of the lookup prover: what is drawn after each commitment, how large the quotient is, and the proof that
//! comes together at the end. Committing and opening are done between the rounds.

use vstd::arithmetic::power2::pow2;
use vstd::prelude::*;

use crate::bits::shifted_one;
use crate::field::{Ext, TWO_ADICITY};
use crate::fri::merkle::contents;
use crate::fri::verify::FriProof;
use crate::lookup::air::{
    combined_constraint_layout, degree_fits, log_quotient_chunks, system_degree, system_reads, system_shaped, Layout,
    LookupAir, SystemView,
};
use crate::lookup::balance::{law_zero_if_balanced, zero_if_balanced};
use crate::lookup::columns::{aux_defined, aux_ok, is_aux, try_aux_columns};
use crate::lookup::exact::exact_if_honest;
use crate::lookup::degree::law_least_chunks;
use crate::lookup::quotient::{lookup_quotient_values, quotient_values_of, rows_of};
use crate::lookup::rounds::{
    after_challenges, aux_sponge, challenges_of, draw_after_commit, draw_lookup_challenges, trace_sponge,
};
use crate::lookup::verify::{
    lookup_alpha, lookup_challenges, lookup_zeta, LookupOpenedValues, LookupProof,
};
use crate::stark::domain::{next_point, next_point_of};
use crate::transcript::{after_sample_ext, sampled_ext, sponge_ok, Challenger, SpongeView};

verus! {

/// How large the quotient of a system is: the logarithm of its chunks, the number of chunks that are committed, and the
/// logarithm of the domain that it is evaluated on.
#[derive(Clone, Copy)]
pub struct QuotientPlan {
    pub log_num_quotient_chunks: usize,
    pub num_quotient_chunks: usize,
    pub log_quotient_size: usize,
}

/// Plan the quotient of a system over a trace of 2^log_degree rows, over its own constraints and those of its lookups.
pub fn quotient_plan<A: LookupAir>(air: &A, log_degree: usize, is_zk: usize) -> (r: QuotientPlan)
    requires
        system_shaped(air.system()),
        is_zk <= 1,
        degree_fits(system_degree(air.system())),
        log_degree + is_zk + log_quotient_chunks(system_degree(air.system()), is_zk as nat) <= usize::MAX,
        pow2(log_quotient_chunks(system_degree(air.system()), is_zk as nat) + is_zk as nat) <= usize::MAX,
    ensures
        r.log_num_quotient_chunks == log_quotient_chunks(system_degree(air.system()), is_zk as nat),
        r.num_quotient_chunks == pow2((r.log_num_quotient_chunks + is_zk) as nat),
        r.log_quotient_size == log_degree + is_zk + r.log_num_quotient_chunks,
        pow2(r.log_quotient_size as nat) == r.num_quotient_chunks * pow2(log_degree as nat),
        system_degree(air.system()) + is_zk <= pow2(r.log_num_quotient_chunks as nat) + 1,
{
    let layout: Layout = combined_constraint_layout(air, is_zk);
    proof {
        let l = log_quotient_chunks(system_degree(air.system()), is_zk as nat);
        law_least_chunks(system_degree(air.system()), is_zk as nat);
        vstd::arithmetic::power2::lemma_pow2_adds(l + is_zk as nat, log_degree as nat);
    }
    QuotientPlan {
        log_num_quotient_chunks: layout.log_chunks,
        num_quotient_chunks: shifted_one(layout.log_chunks + is_zk),
        log_quotient_size: log_degree + is_zk + layout.log_chunks,
    }
}

/// The first round: the trace is committed, and the lookup challenges are drawn.
pub struct TraceRound {
    pub trace_commit: Vec<Vec<u64>>,
    pub pis: Vec<u64>,
    pub lookup_challenges: Vec<Ext>,
    pub challenger: Challenger,
}

impl TraceRound {
    /// The sponge behind the lookup challenges.
    pub open spec fn sponge(&self) -> SpongeView {
        after_challenges(trace_sponge(self.trace_commit@, self.pis@), self.lookup_challenges@.len())
    }

    /// The challenges are those of the transcript.
    pub open spec fn drawn(&self) -> bool {
        &&& self.lookup_challenges@ == challenges_of(
            trace_sponge(self.trace_commit@, self.pis@),
            self.lookup_challenges@.len(),
        )
        &&& self.challenger@ == self.sponge()
        &&& sponge_ok(self.challenger@)
    }
}

/// The second round: the aux columns are committed, and the constraint challenge is drawn.
pub struct AuxRound {
    pub trace: TraceRound,
    pub aux_commit: Vec<Vec<u64>>,
    pub terminal: Ext,
    pub alpha: Ext,
    pub challenger: Challenger,
}

impl AuxRound {
    /// The sponge that the constraint challenge is drawn from.
    pub open spec fn sponge(&self) -> SpongeView {
        aux_sponge(self.trace.sponge(), self.aux_commit@)
    }

    /// The challenges are those of the transcript.
    pub open spec fn drawn(&self) -> bool {
        &&& self.trace.drawn()
        &&& self.alpha == sampled_ext(self.sponge())
        &&& self.challenger@ == after_sample_ext(self.sponge())
        &&& sponge_ok(self.challenger@)
    }
}

/// The third round: the quotient is committed, and the point is drawn.
pub struct QuotientRound {
    pub aux: AuxRound,
    pub quotient_commit: Vec<Vec<u64>>,
    pub zeta: Ext,
    pub challenger: Challenger,
}

impl QuotientRound {
    /// The sponge that the point is drawn from.
    pub open spec fn sponge(&self) -> SpongeView {
        aux_sponge(after_sample_ext(self.aux.sponge()), self.quotient_commit@)
    }

    /// The challenges are those of the transcript.
    pub open spec fn drawn(&self) -> bool {
        &&& self.aux.drawn()
        &&& self.zeta == sampled_ext(self.sponge())
        &&& self.challenger@ == after_sample_ext(self.sponge())
        &&& sponge_ok(self.challenger@)
    }
}

/// Draw the lookup challenges, two per lookup, behind the commitment of the trace and the public values.
pub fn commit_trace(trace_commit: Vec<Vec<u64>>, pis: Vec<u64>, n_lookups: usize) -> (r: TraceRound)
    requires
        2 * n_lookups <= usize::MAX,
    ensures
        r.drawn(),
        r.trace_commit == trace_commit,
        r.pis == pis,
        r.lookup_challenges@.len() == 2 * n_lookups,
{
    let (lookup_challenges, challenger): (Vec<Ext>, Challenger) = draw_lookup_challenges(
        &trace_commit,
        &pis,
        2 * n_lookups,
    );
    TraceRound { trace_commit, pis, lookup_challenges, challenger }
}

/// The aux columns of a trace under the drawn challenges, and the terminal; nothing where a denominator is zero.
pub fn round_aux<A: LookupAir>(air: &A, trace: &TraceRound, main: &Vec<Vec<u64>>) -> (r: Option<(Vec<Vec<Ext>>, Ext)>)
    requires
        aux_ok(air.system(), main@, trace.pis@, trace.lookup_challenges@),
    ensures
        r is Some <==> aux_defined(air.system(), contents(main@), trace.pis@, trace.lookup_challenges@),
        r matches Some(a) ==> is_aux(
            air.system().lookups,
            contents(main@),
            trace.pis@,
            trace.lookup_challenges@,
            a.0@,
            a.1,
        ),
{
    try_aux_columns(air, main, &trace.pis, &trace.lookup_challenges)
}

/// Draw the constraint challenge behind the commitment of the aux columns.
pub fn commit_aux(trace: TraceRound, aux_commit: Vec<Vec<u64>>, terminal: Ext) -> (r: AuxRound)
    requires
        trace.drawn(),
    ensures
        r.drawn(),
        r.trace == trace,
        r.aux_commit == aux_commit,
        r.terminal == terminal,
{
    let mut challenger: Challenger = trace.challenger.copied();
    let alpha: Ext = draw_after_commit(&mut challenger, &aux_commit);
    AuxRound { trace, aux_commit, terminal, alpha, challenger }
}

/// Draw the point behind the commitment of the quotient.
pub fn commit_quotient(aux: AuxRound, quotient_commit: Vec<Vec<u64>>) -> (r: QuotientRound)
    requires
        aux.drawn(),
    ensures
        r.drawn(),
        r.aux == aux,
        r.quotient_commit == quotient_commit,
{
    let mut challenger: Challenger = aux.challenger.copied();
    let zeta: Ext = draw_after_commit(&mut challenger, &quotient_commit);
    QuotientRound { aux, quotient_commit, zeta, challenger }
}

/// The points that the trace and the aux columns are opened at: the drawn point and the next one. The chunks of the
/// quotient are opened at the first.
pub fn opening_points(round: &QuotientRound, log_degree: usize) -> (r: (Ext, Ext))
    requires
        log_degree <= TWO_ADICITY,
    ensures
        r.0 == round.zeta,
        r.1 == next_point(round.zeta, log_degree as nat),
{
    (round.zeta, next_point_of(round.zeta, log_degree))
}

/// The three committed rounds of a lookup proof with the drawn challenges and the quotient's values.
pub struct LookupQuotientProof {
    pub trace_commit: Vec<Vec<u64>>,
    pub aux_commit: Vec<Vec<u64>>,
    pub quotient_commit: Vec<Vec<u64>>,
    pub terminal: Ext,
    pub lookup_challenges: Vec<Ext>,
    pub alpha: Ext,
    pub zeta: Ext,
    pub log_num_quotient_chunks: usize,
    pub quotient_values: Vec<Ext>,
}

/// The three rounds of a proof, put together with the quotient: from the trace and the aux columns on the quotient domain
/// the batched constraints at each point over the vanishing polynomial. The terminal of a balanced trace is zero, and the
/// quotient of an honest prover is exact.
pub fn prove_lookup_with_quotient<A: LookupAir>(
    air: &A,
    log_degree: usize,
    round: QuotientRound,
    plan: &QuotientPlan,
    trace: &Vec<Vec<u64>>,
    aux: &Vec<Vec<u64>>,
) -> (r: LookupQuotientProof)
    requires
        round.drawn(),
        system_shaped(air.system()),
        system_reads(air.system()),
        log_degree <= plan.log_quotient_size <= TWO_ADICITY,
        2 * pow2(plan.log_quotient_size as nat) <= usize::MAX,
        trace@.len() == pow2(plan.log_quotient_size as nat),
        aux@.len() == pow2(plan.log_quotient_size as nat),
        rows_of(trace@, air.system().width),
        rows_of(aux@, (2 * (air.system().lookups.len() + 1)) as nat),
        round.aux.trace.lookup_challenges@.len() == 2 * air.system().lookups.len(),
        air.system().pubs <= round.aux.trace.pis@.len(),
        forall|c: int|
            0 <= c < air.system().periodic.len() ==> (#[trigger] air.system().periodic[c]).len() <= pow2(log_degree as nat),
    ensures
        r.trace_commit == round.aux.trace.trace_commit,
        r.aux_commit == round.aux.aux_commit,
        r.quotient_commit == round.quotient_commit,
        r.terminal == round.aux.terminal,
        r.lookup_challenges == round.aux.trace.lookup_challenges,
        r.alpha == round.aux.alpha,
        r.zeta == round.zeta,
        r.log_num_quotient_chunks == plan.log_num_quotient_chunks,
        r.quotient_values@ == quotient_values_of(
            air.system(),
            log_degree as nat,
            plan.log_quotient_size as nat,
            contents(trace@),
            contents(aux@),
            r.alpha,
            r.lookup_challenges@,
            r.terminal,
            round.aux.trace.pis@,
        ),
        zero_if_balanced(air.system().lookups, round.aux.trace.pis@, r.lookup_challenges@, r.terminal),
        exact_if_honest(
            air.system(),
            log_degree as nat,
            plan.log_quotient_size as nat,
            contents(trace@),
            contents(aux@),
            round.aux.trace.pis@,
            r.lookup_challenges@,
            r.terminal,
            r.alpha,
            r.quotient_values@,
        ),
{
    let quotient_values: Vec<Ext> = lookup_quotient_values(
        air,
        log_degree,
        plan.log_quotient_size,
        trace,
        aux,
        round.aux.alpha,
        &round.aux.trace.lookup_challenges,
        round.aux.terminal,
        &round.aux.trace.pis,
    );
    proof {
        law_zero_if_balanced(
            air.system().lookups,
            round.aux.trace.pis@,
            round.aux.trace.lookup_challenges@,
            round.aux.terminal,
        );
    }
    LookupQuotientProof {
        trace_commit: round.aux.trace.trace_commit,
        aux_commit: round.aux.aux_commit,
        quotient_commit: round.quotient_commit,
        terminal: round.aux.terminal,
        lookup_challenges: round.aux.trace.lookup_challenges,
        alpha: round.aux.alpha,
        zeta: round.zeta,
        log_num_quotient_chunks: plan.log_num_quotient_chunks,
        quotient_values,
    }
}

/// Put a lookup proof together from its rounds and the openings at the point. Hiding doubles the committed length.
pub fn assemble_lookup_proof(
    round: QuotientRound,
    opened: LookupOpenedValues,
    opening_proof: FriProof,
    log_degree: usize,
    is_zk: usize,
    aux_width: usize,
) -> (r: LookupProof)
    requires
        round.drawn(),
        log_degree + is_zk <= usize::MAX,
    ensures
        r.trace_commit == round.aux.trace.trace_commit,
        r.aux_commit == round.aux.aux_commit,
        r.quotient_commit == round.quotient_commit,
        r.terminal == round.aux.terminal,
        r.opened == opened,
        r.opening_proof == opening_proof,
        r.degree_bits == log_degree + is_zk,
        r.aux_width == aux_width,
{
    LookupProof {
        trace_commit: round.aux.trace.trace_commit,
        aux_commit: round.aux.aux_commit,
        quotient_commit: round.quotient_commit,
        terminal: round.aux.terminal,
        opened,
        opening_proof,
        degree_bits: log_degree + is_zk,
        aux_width,
    }
}

/// The verifier of a proof draws the challenges that its prover drew: the lookup challenges, the constraint challenge and
/// the point.
pub proof fn law_prover_draws_as_verifier(s: SystemView, round: QuotientRound, proof: LookupProof)
    requires
        round.drawn(),
        round.aux.trace.lookup_challenges@.len() == 2 * s.lookups.len(),
        proof.trace_commit == round.aux.trace.trace_commit,
        proof.aux_commit == round.aux.aux_commit,
        proof.quotient_commit == round.quotient_commit,
    ensures
        lookup_challenges(s, proof, round.aux.trace.pis@) == round.aux.trace.lookup_challenges@,
        lookup_alpha(s, proof, round.aux.trace.pis@) == round.aux.alpha,
        lookup_zeta(s, proof, round.aux.trace.pis@) == round.zeta,
{
}

} // verus!
