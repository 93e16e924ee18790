//! The replay of a lookup proof draws the challenges of its verification.

use vstd::arithmetic::power2::pow2;
use vstd::prelude::*;

use super::replay::{fri_view, lemma_caps_are_rounds, lemma_drained_is_sampled, lookup_stark_program};
use crate::fri::query::FriParams;
use crate::fri::verify::{after_work, before_queries, beta_of, committed, index_of};
use crate::lookup::air::SystemView;
use crate::lookup::rounds::after_challenges;
use crate::lookup::verify::{
    lookup_alpha, lookup_alpha_sponge, lookup_challenges, lookup_fri_sponge, lookup_opened, lookup_sponge, lookup_zeta,
    lookup_zeta_sponge, LookupProof,
};
use crate::schedule::{
    cap_seen, drained, is_challenge, law_prefix_squeezes, law_program_tail, law_run_observes, law_run_sample_ext, observes,
    opening_ops, run, run_sponge, samples, tail_ops, work_sponge, Op,
};
use crate::transcript::{after_sample, after_sample_ext, digest_felts, observed, observed_all, sampled, sampled_ext};

verus! {

/// A run of extension challenges.
proof fn lemma_run_challenges(ops: Seq<Op>, n: nat)
    ensures
        run_sponge(ops + samples(2 * n)) == after_challenges(run_sponge(ops), n),
        run(ops + samples(2 * n)).squeezes.len() == run(ops).squeezes.len() + 2 * n,
        forall|k: nat|
            k < n ==> is_challenge(
                run(ops + samples(2 * n)).squeezes,
                run(ops).squeezes.len() as int + 2 * k,
                sampled_ext(#[trigger] after_challenges(run_sponge(ops), k)),
            ),
    decreases n,
{
    if n == 0 {
        assert(ops + samples(0) =~= ops);
    } else {
        let m = (n - 1) as nat;
        lemma_run_challenges(ops, m);
        let before = ops + samples(2 * m);
        law_run_sample_ext(before);
        assert(before + samples(2) =~= ops + samples(2 * n));
        let (sq, was) = (run(ops + samples(2 * n)).squeezes, run(before).squeezes);
        assert forall|k: nat| k < n implies is_challenge(
            sq,
            run(ops).squeezes.len() as int + 2 * k,
            sampled_ext(#[trigger] after_challenges(run_sponge(ops), k)),
        ) by {
            if k < m {
                let at = run(ops).squeezes.len() as int + 2 * k;
                assert(is_challenge(was, at, sampled_ext(after_challenges(run_sponge(ops), k))));
                assert(sq.take(was.len() as int)[at] == was[at]);
                assert(sq.take(was.len() as int)[at + 1] == was[at + 1]);
            }
        }
    }
}

/// The challenges and query indices that a lookup proof's replay puts out are those that its verification draws: the
/// lookup challenges, the constraint challenge, the point, the batching challenge, the fold challenges and the indices.
/// This holds of parameters without work per round.
#[verifier::spinoff_prover]
#[verifier::rlimit(60)]
pub proof fn law_lookup_replay_draws_challenges(params: FriParams, s: SystemView, proof: LookupProof, pis: Seq<u64>)
    requires
        params.commit_pow_bits == 0,
        params.query_pow_bits > 0,
        proof.opening_proof.commits@.len() == proof.opening_proof.commit_pow@.len(),
    ensures
        ({
            let n = (2 * s.lookups.len()) as nat;
            let sq = run(lookup_stark_program(proof, pis, n)).squeezes;
            let fri = proof.opening_proof;
            let rounds = fri.commits@.len() as int;
            let t = after_sample_ext(lookup_fri_sponge(s, proof, pis));
            let u = after_work(params.query_pow_bits, before_queries(params, fri, t), fri.query_pow);
            &&& forall|k: nat| k < n ==> is_challenge(sq, 2 * k as int, #[trigger] lookup_challenges(s, proof, pis)[k as int])
            &&& is_challenge(sq, 2 * n as int, lookup_alpha(s, proof, pis))
            &&& is_challenge(sq, 2 * n as int + 2, lookup_zeta(s, proof, pis))
            &&& is_challenge(sq, 2 * n as int + 4, sampled_ext(lookup_fri_sponge(s, proof, pis)))
            &&& forall|r: nat|
                r < rounds ==> is_challenge(sq, 2 * n as int + 6 + 2 * r, #[trigger] beta_of(params, fri, t, r))
            &&& forall|q: nat, log_global: nat|
                q < fri.queries@.len() ==> #[trigger] index_of(u, q, log_global) == sq[2 * n + 6 + 2 * rounds + 1
                    + q].value as nat % pow2(log_global)
        }),
{
    let n = (2 * s.lookups.len()) as nat;
    let fri = fri_view(proof.opening_proof);
    let (trace_cap, aux_cap, quotient_cap) = (
        digest_felts(proof.trace_commit@),
        digest_felts(proof.aux_commit@),
        digest_felts(proof.quotient_commit@),
    );
    let o0 = Seq::<Op>::empty();
    let o1 = o0 + observes(trace_cap);
    law_run_observes(o0, trace_cap);
    let o2 = o1 + observes(pis);
    law_run_observes(o1, pis);
    let o3 = o2 + samples(2 * n);
    lemma_run_challenges(o2, n);
    let o4 = o3 + observes(aux_cap);
    law_run_observes(o3, aux_cap);
    let o5 = o4 + samples(2);
    law_run_sample_ext(o4);
    let o6 = o5 + observes(quotient_cap);
    law_run_observes(o5, quotient_cap);
    let o7 = o6 + samples(2);
    law_run_sample_ext(o6);
    let opened = lookup_opened(proof);
    law_program_tail(o7, opened, fri);
    let o8 = o7 + opening_ops(opened, fri.caps) + tail_ops(fri);
    assert(o8 =~= lookup_stark_program(proof, pis, n));
    let sq = run(o8).squeezes;
    let rounds = proof.opening_proof.commits@.len();
    assert(run_sponge(o2) == lookup_sponge(proof, pis));
    assert(run_sponge(o4) == lookup_alpha_sponge(s, proof, pis));
    assert(run_sponge(o6) == lookup_zeta_sponge(s, proof, pis));
    let c = lookup_fri_sponge(s, proof, pis);
    assert(c == observed_all(run_sponge(o7), crate::transcript::ext_felts(opened)));
    assert(o3 + o8.skip(o3.len() as int) =~= o8);
    law_prefix_squeezes(o3, o8.skip(o3.len() as int));
    assert forall|k: nat| k < n implies is_challenge(
        sq,
        2 * k as int,
        #[trigger] lookup_challenges(s, proof, pis)[k as int],
    ) by {
        let was = run(o3).squeezes;
        assert(is_challenge(was, 2 * k as int, sampled_ext(after_challenges(run_sponge(o2), k))));
        assert(sq[2 * k as int] == was[2 * k as int] && sq[2 * k as int + 1] == was[2 * k as int + 1]);
    }
    let (s5, s7) = (run(o5).squeezes, run(o7).squeezes);
    let m = 2 * n as int;
    assert(s7.take(m + 2)[m] == s5[m] && s7.take(m + 2)[m + 1] == s5[m + 1]);
    assert(sq[m] == s7[m] && sq[m + 1] == s7[m + 1] && sq[m + 2] == s7[m + 2] && sq[m + 3] == s7[m + 3]);
    let t = after_sample_ext(c);
    assert forall|r: nat| r < rounds implies is_challenge(
        sq,
        2 * n as int + 6 + 2 * r,
        #[trigger] beta_of(params, proof.opening_proof, t, r),
    ) by {
        lemma_caps_are_rounds(params, proof.opening_proof, t, r);
        assert(cap_seen(fri.caps, t, r) == committed(params, proof.opening_proof, t, r));
    }
    lemma_caps_are_rounds(params, proof.opening_proof, t, rounds);
    let b = before_queries(params, proof.opening_proof, t);
    let w = work_sponge(t, fri);
    assert(seq![fri.pow_witness].drop_last() =~= Seq::<u64>::empty());
    assert(observed_all(b, Seq::<u64>::empty()) == b);
    assert(w == observed(b, proof.opening_proof.query_pow));
    let u = after_work(params.query_pow_bits, b, proof.opening_proof.query_pow);
    assert(u == after_sample(w));
    assert forall|q: nat, log_global: nat|
        q < proof.opening_proof.queries@.len() implies #[trigger] index_of(u, q, log_global) == sq[2 * n + 6 + 2
        * rounds as int + 1 + q].value as nat % pow2(log_global) by {
        lemma_drained_is_sampled(u, q);
        assert(sq[2 * n + 6 + 2 * rounds as int + 1 + q].value == sampled(drained(after_sample(w), q)));
    }
}

} // verus!
