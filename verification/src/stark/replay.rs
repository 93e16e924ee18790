//! The transcript of a proof, replayed for a circuit: the sponge's schedule, where each challenge is put out, and
//! where each committed felt is taken in.

use vstd::arithmetic::power2::pow2;
use vstd::prelude::*;

use crate::field::Ext;
use crate::fri::merkle::contents;
use crate::fri::query::FriParams;
use crate::fri::verify::{
    after_rounds, after_samples, after_work, before_queries, beta_of, committed, first_openings, index_of,
    opening_arities, FriProof,
};
use crate::lookup::verify::{lookup_opened, lookup_opened_of, LookupProof};
use crate::schedule::{
    after_caps, cap_seen, commit_program, drained, full_program, is_challenge, law_full_program_challenges,
    law_lookup_program_count, load, lookup_program, observes, opened_sponge, position, push_observes, push_opening_ops,
    push_samples, push_tail_ops, replay, replay_challenger, round_ops, run, samples, work_sponge, FriTranscript,
    FriTranscriptView, Op, Recording,
};
use crate::stark::verify::{
    chunks_joined, copy_exts, fri_sponge, instance_felts, opened_values, preamble_challenges, push_exts, stark_alpha,
    stark_zeta, InnerAir, Preamble, StarkProof,
};
use crate::transcript::{
    after_sample, after_sample_ext, cap_felts, digest_felts, ext_felts, felts_of_exts, observed, observed_all, sampled,
    sampled_ext, SpongeView,
};

verus! {

/// What the transcript sees of a proof of low degree.
pub open spec fn fri_view(proof: FriProof) -> FriTranscriptView {
    FriTranscriptView {
        caps: Seq::new(proof.commits@.len(), |r: int| digest_felts(proof.commits@[r]@)),
        final_poly: proof.final_poly@,
        arities: opening_arities(first_openings(proof)),
        pow_witness: proof.query_pow,
        n_queries: proof.queries@.len(),
    }
}

/// What the transcript sees of a proof of low degree.
pub fn fri_transcript(proof: &FriProof) -> (r: FriTranscript)
    ensures
        r@ == fri_view(*proof),
{
    let mut caps: Vec<Vec<u64>> = Vec::new();
    let mut i: usize = 0;
    while i < proof.commits.len()
        invariant
            i <= proof.commits@.len(),
            caps@.len() == i,
            forall|k: int| 0 <= k < i ==> (#[trigger] caps@[k])@ == digest_felts(proof.commits@[k]@),
        decreases proof.commits.len() - i,
    {
        caps.push(cap_felts(&proof.commits[i]));
        i += 1;
    }
    let mut arities: Vec<u64> = Vec::new();
    if proof.queries.len() > 0 {
        let openings = &proof.queries[0].openings;
        let mut k: usize = 0;
        while k < openings.len()
            invariant
                k <= openings@.len(),
                arities@ =~= opening_arities(openings@).take(k as int),
            decreases openings.len() - k,
        {
            arities.push(openings[k].log_arity as u64);
            k += 1;
        }
    }
    let r: FriTranscript = FriTranscript {
        caps,
        final_poly: copy_exts(&proof.final_poly),
        arities,
        pow_witness: proof.query_pow,
        n_queries: proof.queries.len(),
    };
    proof {
        assert(r@.arities =~= fri_view(*proof).arities);
        assert(r@.caps =~= fri_view(*proof).caps);
        assert(r@ =~= fri_view(*proof));
    }
    r
}

/// All opened values of a proof.
pub open spec fn all_opened(proof: StarkProof) -> Seq<Ext> {
    proof.trace_local@ + (match proof.trace_next {
        Some(v) => v@,
        None => Seq::empty(),
    }) + chunks_joined(proof.quotient_chunks@, proof.quotient_chunks@.len())
}

fn all_opened_of(proof: &StarkProof) -> (r: Vec<Ext>)
    ensures
        r@ == all_opened(*proof),
{
    let mut r: Vec<Ext> = copy_exts(&proof.trace_local);
    if let Some(next) = &proof.trace_next {
        push_exts(&mut r, next);
    }
    let ghost before = r@;
    let mut i: usize = 0;
    assert(before + chunks_joined(proof.quotient_chunks@, 0) =~= before);
    while i < proof.quotient_chunks.len()
        invariant
            i <= proof.quotient_chunks@.len(),
            r@ == before + chunks_joined(proof.quotient_chunks@, i as nat),
        decreases proof.quotient_chunks.len() - i,
    {
        push_exts(&mut r, &proof.quotient_chunks[i]);
        assert(r@ =~= before + chunks_joined(proof.quotient_chunks@, (i + 1) as nat));
        i += 1;
    }
    assert(r@ =~= all_opened(*proof));
    r
}

/// The transcript program of a proof.
pub open spec fn stark_program(proof: StarkProof, pvs: Seq<u64>) -> Seq<Op> {
    full_program(
        instance_felts(proof, pvs),
        digest_felts(proof.quotient_commit@),
        all_opened(proof),
        fri_view(proof.opening),
    )
}

fn stark_ops(proof: &StarkProof, pvs: &Vec<u64>) -> (ops: Vec<Op>)
    ensures
        ops@ == stark_program(*proof, pvs@),
{
    let start: Preamble = preamble_challenges(proof, pvs);
    let fri: FriTranscript = fri_transcript(&proof.opening);
    let mut ops: Vec<Op> = Vec::new();
    push_observes(&mut ops, &start.instance);
    push_samples(&mut ops, 2);
    push_observes(&mut ops, &start.commitment);
    push_samples(&mut ops, 2);
    push_opening_ops(&mut ops, &all_opened_of(proof), &fri.caps);
    push_tail_ops(&mut ops, &fri);
    assert(ops@ =~= stark_program(*proof, pvs@));
    ops
}

/// A replayed transcript: the blocks that enter the permutation with their counts, per challenge the block that
/// puts it out and its value, and per query index its block, lane and felt.
pub struct Replay {
    pub block_inputs: Vec<Vec<u64>>,
    pub counts: Vec<u8>,
    pub binds: Vec<usize>,
    pub challenges: Vec<Ext>,
    pub index_binds: Vec<(usize, usize)>,
    pub index_felts: Vec<u64>,
}

/// The replay of a program that puts out `skip` values, then `n` extension challenges, one value for the work and one
/// per query.
pub open spec fn is_replay(r: Replay, ops: Seq<Op>, skip: int, n: int, queries: int) -> bool {
    let sq = run(ops).squeezes;
    let tail = skip + 2 * n + 1;
    &&& contents(r.block_inputs@) == run(ops).sim.blocks
    &&& r.counts@ == run(ops).sim.counts
    &&& r.binds@.len() == n
    &&& r.challenges@.len() == n
    &&& forall|j: int| 0 <= j < n ==> #[trigger] r.binds@[j] == sq[skip + 2 * j].block
    &&& forall|j: int|
        0 <= j < n ==> #[trigger] r.challenges@[j] == (Ext {
            c0: sq[skip + 2 * j].value,
            c1: sq[skip + 2 * j + 1].value,
        })
    &&& r.index_binds@.len() == queries
    &&& r.index_felts@.len() == queries
    &&& forall|k: int|
        0 <= k < queries ==> (#[trigger] r.index_binds@[k]).0 == sq[tail + k].block && r.index_binds@[k].1 == sq[tail
            + k].lane
    &&& forall|k: int| 0 <= k < queries ==> #[trigger] r.index_felts@[k] == sq[tail + k].value
}

/// Read the challenges and query indices off a recording.
fn read_replay(rec: Recording, skip: usize, queries: usize, Ghost(ops): Ghost<Seq<Op>>, Ghost(n): Ghost<int>) -> (r: Replay)
    requires
        rec.records(ops),
        0 <= n,
        run(ops).squeezes.len() == skip + 2 * n + 1 + queries,
    ensures
        is_replay(r, ops, skip as int, n, queries as int),
{
    let total: usize = rec.values.len();
    let count: usize = (total - skip - 1 - queries) / 2;
    let mut binds: Vec<usize> = Vec::new();
    let mut challenges: Vec<Ext> = Vec::new();
    let mut j: usize = 0;
    while j < count
        invariant
            j <= count,
            count == n,
            rec.records(ops),
            total == run(ops).squeezes.len(),
            total == skip + 2 * n + 1 + queries,
            binds@.len() == j,
            challenges@.len() == j,
            forall|i: int| 0 <= i < j ==> #[trigger] binds@[i] == run(ops).squeezes[skip + 2 * i].block,
            forall|i: int|
                0 <= i < j ==> #[trigger] challenges@[i] == (Ext {
                    c0: run(ops).squeezes[skip + 2 * i].value,
                    c1: run(ops).squeezes[skip + 2 * i + 1].value,
                }),
        decreases count - j,
    {
        let at: usize = skip + 2 * j;
        binds.push(rec.blocks[at]);
        challenges.push(Ext { c0: rec.values[at], c1: rec.values[at + 1] });
        j += 1;
    }
    let tail: usize = total - queries;
    let mut index_binds: Vec<(usize, usize)> = Vec::new();
    let mut index_felts: Vec<u64> = Vec::new();
    let mut k: usize = 0;
    while k < queries
        invariant
            k <= queries,
            rec.records(ops),
            total == run(ops).squeezes.len(),
            tail == total - queries,
            tail == skip + 2 * n + 1,
            index_binds@.len() == k,
            index_felts@.len() == k,
            forall|i: int|
                0 <= i < k ==> (#[trigger] index_binds@[i]).0 == run(ops).squeezes[tail + i].block && index_binds@[i].1
                    == run(ops).squeezes[tail + i].lane,
            forall|i: int| 0 <= i < k ==> #[trigger] index_felts@[i] == run(ops).squeezes[tail + i].value,
        decreases queries - k,
    {
        index_binds.push((rec.blocks[tail + k], rec.lanes[tail + k]));
        index_felts.push(rec.values[tail + k]);
        k += 1;
    }
    let r: Replay = Replay {
        block_inputs: rec.block_inputs,
        counts: rec.counts,
        binds,
        challenges,
        index_binds,
        index_felts,
    };
    assert(contents(r.block_inputs@) =~= run(ops).sim.blocks);
    r
}

/// Replay the transcript of a proof: its constraint challenge, its point, its batching challenge, one challenge per
/// commit round, and its query indices.
pub fn sim_full(proof: &StarkProof, pvs: &Vec<u64>) -> (r: Replay)
    ensures
        is_replay(
            r,
            stark_program(*proof, pvs@),
            0,
            3 + proof.opening.commits@.len() as int,
            proof.opening.queries@.len() as int,
        ),
        crate::transcript::schedule_ok(run(stark_program(*proof, pvs@)).sim),
        r.counts@.len() == load(stark_program(*proof, pvs@)).0,
{
    let ops: Vec<Op> = stark_ops(proof, pvs);
    let rec: Recording = replay(&ops);
    proof {
        law_full_program_challenges(
            instance_felts(*proof, pvs@),
            digest_felts(proof.quotient_commit@),
            all_opened(*proof),
            fri_view(proof.opening),
        );
    }
    read_replay(
        rec,
        0,
        proof.opening.queries.len(),
        Ghost(ops@),
        Ghost(3 + proof.opening.commits@.len() as int),
    )
}

/// The transcript program of a lookup proof with `n_challenges` lookup challenges.
pub open spec fn lookup_stark_program(proof: LookupProof, pis: Seq<u64>, n_challenges: nat) -> Seq<Op> {
    lookup_program(
        digest_felts(proof.trace_commit@),
        pis,
        n_challenges,
        digest_felts(proof.aux_commit@),
        digest_felts(proof.quotient_commit@),
        lookup_opened(proof),
        fri_view(proof.opening_proof),
    )
}

/// Replay the transcript of a lookup proof with two challenges per lookup. The lookup challenges come apart.
pub fn sim_full_lookup(proof: &LookupProof, pis: &Vec<u64>, n_lookups: usize) -> (r: (Replay, Vec<Ext>))
    requires
        4 * n_lookups <= usize::MAX,
    ensures
        is_replay(
            r.0,
            lookup_stark_program(*proof, pis@, (2 * n_lookups) as nat),
            4 * n_lookups as int,
            3 + proof.opening_proof.commits@.len() as int,
            proof.opening_proof.queries@.len() as int,
        ),
        r.1@ == Seq::new(
            (2 * n_lookups) as nat,
            |k: int|
                Ext {
                    c0: run(lookup_stark_program(*proof, pis@, (2 * n_lookups) as nat)).squeezes[2 * k].value,
                    c1: run(lookup_stark_program(*proof, pis@, (2 * n_lookups) as nat)).squeezes[2 * k + 1].value,
                },
        ),
        crate::transcript::schedule_ok(run(lookup_stark_program(*proof, pis@, (2 * n_lookups) as nat)).sim),
        r.0.counts@.len() == load(lookup_stark_program(*proof, pis@, (2 * n_lookups) as nat)).0,
{
    let fri: FriTranscript = fri_transcript(&proof.opening_proof);
    let mut ops: Vec<Op> = Vec::new();
    push_observes(&mut ops, &cap_felts(&proof.trace_commit));
    push_observes(&mut ops, pis);
    push_samples(&mut ops, 4 * n_lookups);
    push_observes(&mut ops, &cap_felts(&proof.aux_commit));
    push_samples(&mut ops, 2);
    push_observes(&mut ops, &cap_felts(&proof.quotient_commit));
    push_samples(&mut ops, 2);
    push_opening_ops(&mut ops, &lookup_opened_of(proof), &fri.caps);
    push_tail_ops(&mut ops, &fri);
    let ghost program = lookup_stark_program(*proof, pis@, (2 * n_lookups) as nat);
    proof {
        assert(samples((4 * n_lookups) as nat) == samples(2 * (2 * n_lookups) as nat));
        assert(ops@ =~= program);
        law_lookup_program_count(
            digest_felts(proof.trace_commit@),
            pis@,
            (2 * n_lookups) as nat,
            digest_felts(proof.aux_commit@),
            digest_felts(proof.quotient_commit@),
            lookup_opened(*proof),
            fri_view(proof.opening_proof),
        );
    }
    let rec: Recording = replay(&ops);
    let mut challenges: Vec<Ext> = Vec::new();
    let mut k: usize = 0;
    while k < 2 * n_lookups
        invariant
            k <= 2 * n_lookups,
            4 * n_lookups <= usize::MAX,
            rec.records(program),
            run(program).squeezes.len() >= 4 * n_lookups,
            challenges@.len() == k,
            forall|i: int|
                0 <= i < k ==> #[trigger] challenges@[i] == (Ext {
                    c0: run(program).squeezes[2 * i].value,
                    c1: run(program).squeezes[2 * i + 1].value,
                }),
        decreases 2 * n_lookups - k,
    {
        challenges.push(Ext { c0: rec.values[2 * k], c1: rec.values[2 * k + 1] });
        k += 1;
    }
    proof {
        assert(challenges@ =~= Seq::new(
            (2 * n_lookups) as nat,
            |k: int| Ext { c0: run(program).squeezes[2 * k].value, c1: run(program).squeezes[2 * k + 1].value },
        ));
    }
    let r: Replay = read_replay(
        rec,
        4 * n_lookups,
        proof.opening_proof.queries.len(),
        Ghost(program),
        Ghost(3 + proof.opening_proof.commits@.len() as int),
    );
    (r, challenges)
}

/// The challenges of a proof as the challenger draws them.
pub struct Challenges {
    pub alpha: Ext,
    pub zeta: Ext,
    pub alpha_fri: Ext,
    pub betas: Vec<Ext>,
    pub index_felts: Vec<u64>,
}

/// The challenges of a proof, drawn by the challenger; nothing where the 16 bits of query work were not done.
pub fn full_transcript_challenges(proof: &StarkProof, pvs: &Vec<u64>) -> (r: Option<Challenges>)
    ensures
        ({
            let sq = run(stark_program(*proof, pvs@)).squeezes;
            let rounds = proof.opening.commits@.len() as int;
            &&& r is Some <==> sq[6 + 2 * rounds].value % 65536 == 0
            &&& r matches Some(c) ==> {
                &&& c.alpha == (Ext { c0: sq[0].value, c1: sq[1].value })
                &&& c.zeta == (Ext { c0: sq[2].value, c1: sq[3].value })
                &&& c.alpha_fri == (Ext { c0: sq[4].value, c1: sq[5].value })
                &&& c.betas@ == Seq::new(
                    rounds as nat,
                    |k: int| Ext { c0: sq[6 + 2 * k].value, c1: sq[6 + 2 * k + 1].value },
                )
                &&& c.index_felts@ == Seq::new(
                    proof.opening.queries@.len(),
                    |k: int| sq[6 + 2 * rounds + 1 + k].value,
                )
            }
        }),
{
    let ops: Vec<Op> = stark_ops(proof, pvs);
    let values: Vec<u64> = replay_challenger(&ops);
    let ghost sq = run(ops@).squeezes;
    proof {
        law_full_program_challenges(
            instance_felts(*proof, pvs@),
            digest_felts(proof.quotient_commit@),
            all_opened(*proof),
            fri_view(proof.opening),
        );
    }
    let rounds: usize = proof.opening.commits.len();
    let total: usize = values.len();
    if values[6 + 2 * rounds] % 65536 != 0 {
        return None;
    }
    let mut betas: Vec<Ext> = Vec::new();
    let mut k: usize = 0;
    while k < rounds
        invariant
            k <= rounds,
            total == values@.len(),
            total > 6 + 2 * rounds,
            values@.len() == sq.len(),
            forall|i: int| 0 <= i < values@.len() ==> #[trigger] values@[i] == sq[i].value,
            betas@.len() == k,
            forall|i: int|
                0 <= i < k ==> #[trigger] betas@[i] == (Ext { c0: sq[6 + 2 * i].value, c1: sq[6 + 2 * i + 1].value }),
        decreases rounds - k,
    {
        betas.push(Ext { c0: values[6 + 2 * k], c1: values[6 + 2 * k + 1] });
        k += 1;
    }
    let start: usize = 6 + 2 * rounds + 1;
    let queries: usize = proof.opening.queries.len();
    let mut index_felts: Vec<u64> = Vec::new();
    let mut q: usize = 0;
    while q < queries
        invariant
            q <= queries,
            total == values@.len(),
            total == start + queries,
            values@.len() == sq.len(),
            forall|i: int| 0 <= i < values@.len() ==> #[trigger] values@[i] == sq[i].value,
            index_felts@.len() == q,
            forall|i: int| 0 <= i < q ==> #[trigger] index_felts@[i] == sq[start + i].value,
        decreases queries - q,
    {
        index_felts.push(values[start + q]);
        q += 1;
    }
    proof {
        assert(betas@ =~= Seq::new(
            rounds as nat,
            |k: int| Ext { c0: sq[6 + 2 * k].value, c1: sq[6 + 2 * k + 1].value },
        ));
        assert(index_felts@ =~= Seq::new(queries as nat, |k: int| sq[6 + 2 * rounds + 1 + k].value));
    }
    Some(
        Challenges {
            alpha: Ext { c0: values[0], c1: values[1] },
            zeta: Ext { c0: values[2], c1: values[3] },
            alpha_fri: Ext { c0: values[4], c1: values[5] },
            betas,
            index_felts,
        },
    )
}

/// Without work per round, the sponge after `r` commit rounds is that after their caps.
pub(super) proof fn lemma_caps_are_rounds(params: FriParams, proof: FriProof, s: SpongeView, r: nat)
    requires
        params.commit_pow_bits == 0,
        r <= proof.commits@.len(),
    ensures
        after_caps(fri_view(proof).caps, s, r) == after_rounds(params, proof, s, r),
    decreases r,
{
    if r > 0 {
        lemma_caps_are_rounds(params, proof, s, (r - 1) as nat);
    }
}

pub(super) proof fn lemma_drained_is_sampled(s: SpongeView, n: nat)
    ensures
        drained(s, n) == after_samples(s, n),
    decreases n,
{
    if n > 0 {
        lemma_drained_is_sampled(s, (n - 1) as nat);
    }
}

/// The replayed transcript puts out the challenges that the verification draws: the constraint challenge, the
/// point, the batching challenge, each fold challenge, and the felt behind each query index. This holds of
/// parameters without work per round and with work before the queries.
pub proof fn law_replay_draws_challenges(params: FriParams, air: InnerAir, proof: StarkProof, pvs: Seq<u64>)
    requires
        params.commit_pow_bits == 0,
        params.query_pow_bits > 0,
        proof.opening.commits@.len() == proof.opening.commit_pow@.len(),
        opened_values(air, proof) == all_opened(proof),
    ensures
        ({
            let sq = run(stark_program(proof, pvs)).squeezes;
            let rounds = proof.opening.commits@.len() as int;
            let t = after_sample_ext(fri_sponge(air, proof, pvs));
            let u = after_work(
                params.query_pow_bits,
                before_queries(params, proof.opening, t),
                proof.opening.query_pow,
            );
            &&& is_challenge(sq, 0, stark_alpha(proof, pvs))
            &&& is_challenge(sq, 2, stark_zeta(proof, pvs))
            &&& is_challenge(sq, 4, sampled_ext(fri_sponge(air, proof, pvs)))
            &&& forall|r: nat|
                r < rounds ==> is_challenge(sq, 6 + 2 * r as int, #[trigger] beta_of(params, proof.opening, t, r))
            &&& forall|q: nat, log_global: nat|
                q < proof.opening.queries@.len() ==> #[trigger] index_of(u, q, log_global) == sq[6 + 2 * rounds + 1
                    + q].value as nat % pow2(log_global)
        }),
{
    let fri = fri_view(proof.opening);
    let instance = instance_felts(proof, pvs);
    let commitment = digest_felts(proof.quotient_commit@);
    law_full_program_challenges(instance, commitment, all_opened(proof), fri);
    let sq = run(stark_program(proof, pvs)).squeezes;
    let rounds = proof.opening.commits@.len();
    let c = fri_sponge(air, proof, pvs);
    assert(c == opened_sponge(instance, commitment, all_opened(proof)));
    let t = after_sample_ext(c);
    assert forall|r: nat| r < rounds implies is_challenge(
        sq,
        6 + 2 * r as int,
        #[trigger] beta_of(params, proof.opening, t, r),
    ) by {
        lemma_caps_are_rounds(params, proof.opening, t, r);
        assert(cap_seen(fri.caps, t, r) == committed(params, proof.opening, t, r));
    }
    lemma_caps_are_rounds(params, proof.opening, t, rounds);
    let b = before_queries(params, proof.opening, t);
    let w = work_sponge(t, fri);
    assert(seq![fri.pow_witness].drop_last() =~= Seq::<u64>::empty());
    assert(observed_all(b, Seq::<u64>::empty()) == b);
    assert(w == observed(b, proof.opening.query_pow));
    let u = after_work(params.query_pow_bits, b, proof.opening.query_pow);
    assert(u == after_sample(w));
    assert forall|q: nat, log_global: nat| q < proof.opening.queries@.len() implies #[trigger] index_of(u, q, log_global)
        == sq[6 + 2 * rounds as int + 1 + q].value as nat % pow2(log_global) by {
        lemma_drained_is_sampled(u, q);
        assert(sq[6 + 2 * rounds as int + 1 + q].value == sampled(drained(after_sample(w), q)));
    }
}

/// Where a cap's felt is taken in: the cap (the trace's, the quotient's, then one per commit round), its digest
/// and lane there, and the block and lane of the sponge.
#[derive(Clone, Copy)]
pub struct CapPosition {
    pub cap: usize,
    pub entry: usize,
    pub felt: usize,
    pub block: usize,
    pub lane: usize,
}

/// A cap whose `i`-th felt is taken in by step `start + i`.
pub open spec fn cap_positions(ops: Seq<Op>, cap: int, start: int, len: nat) -> Seq<CapPosition> {
    Seq::new(
        len,
        |i: int|
            CapPosition {
                cap: cap as usize,
                entry: (i / 4) as usize,
                felt: (i % 4) as usize,
                block: position(ops, start + i).0 as usize,
                lane: position(ops, start + i).1 as usize,
            },
    )
}

/// The transcript of a proof up to its last fold challenge.
pub open spec fn cap_program(proof: StarkProof, pvs: Seq<u64>) -> Seq<Op> {
    commit_program(
        instance_felts(proof, pvs),
        digest_felts(proof.quotient_commit@),
        all_opened(proof),
        fri_view(proof.opening).caps,
    )
}

/// The step that takes in the first felt of the quotient cap.
pub open spec fn quotient_step(proof: StarkProof, pvs: Seq<u64>) -> int {
    instance_felts(proof, pvs).len() as int + 2
}

/// The step that takes in the first felt of a commit round's cap.
pub open spec fn round_step(proof: StarkProof, pvs: Seq<u64>, r: nat) -> int
    decreases r,
{
    if r == 0 {
        quotient_step(proof, pvs) + digest_felts(proof.quotient_commit@).len() + 2 + ext_felts(all_opened(proof)).len()
            + 2
    } else {
        round_step(proof, pvs, (r - 1) as nat) + digest_felts(proof.opening.commits@[r - 1]@).len() + 2
    }
}

/// The felt positions of the first `n` commit rounds' caps.
pub open spec fn round_positions(proof: StarkProof, pvs: Seq<u64>, n: nat) -> Seq<CapPosition>
    decreases n,
{
    if n == 0 {
        Seq::empty()
    } else {
        round_positions(proof, pvs, (n - 1) as nat) + cap_positions(
            cap_program(proof, pvs),
            n as int + 1,
            round_step(proof, pvs, (n - 1) as nat),
            digest_felts(proof.opening.commits@[n - 1]@).len(),
        )
    }
}

/// The felt positions of all caps of a proof.
pub open spec fn all_positions(proof: StarkProof, pvs: Seq<u64>) -> Seq<CapPosition> {
    let ops = cap_program(proof, pvs);
    cap_positions(ops, 0, 3, digest_felts(proof.trace_commit@).len()) + cap_positions(
        ops,
        1,
        quotient_step(proof, pvs),
        digest_felts(proof.quotient_commit@).len(),
    ) + round_positions(proof, pvs, proof.opening.commits@.len())
}

/// The steps of the commit rounds: each takes in its cap.
proof fn lemma_round_steps(proof: StarkProof, pvs: Seq<u64>, n: nat)
    requires
        n <= proof.opening.commits@.len(),
    ensures
        ({
            let caps = fri_view(proof.opening).caps;
            let head = quotient_step(proof, pvs) + digest_felts(proof.quotient_commit@).len() + 2 + ext_felts(
                all_opened(proof),
            ).len() + 2;
            &&& head + round_ops(caps, n).len() == round_step(proof, pvs, n)
            &&& forall|r: nat, i: int|
                r < n && 0 <= i < caps[r as int].len() ==> 0 <= #[trigger] round_felt(proof, pvs, r, i) - head
                    < round_ops(caps, n).len() && round_ops(caps, n)[round_felt(proof, pvs, r, i) - head]
                    == Op::Observe(caps[r as int][i])
        }),
    decreases n,
{
    let caps = fri_view(proof.opening).caps;
    let head = quotient_step(proof, pvs) + digest_felts(proof.quotient_commit@).len() + 2 + ext_felts(
        all_opened(proof),
    ).len() + 2;
    if n > 0 {
        let m = (n - 1) as nat;
        lemma_round_steps(proof, pvs, m);
        let before = round_ops(caps, m);
        let all = round_ops(caps, n);
        assert(all =~= before + observes(caps[n - 1]) + samples(2));
        assert forall|r: nat, i: int| r < n && 0 <= i < caps[r as int].len() implies 0 <= #[trigger] round_felt(
            proof,
            pvs,
            r,
            i,
        ) - head < all.len() && all[round_felt(proof, pvs, r, i) - head] == Op::Observe(caps[r as int][i]) by {
            let at = round_felt(proof, pvs, r, i) - head;
            if r < m {
                assert(before[at] == Op::Observe(caps[r as int][i]));
                assert(all[at] == before[at]);
            } else {
                assert(at == before.len() + i);
                assert(all[at] == observes(caps[n - 1])[i]);
            }
        }
    }
}

/// The step that takes in felt `i` of a commit round's cap.
pub open spec fn round_felt(proof: StarkProof, pvs: Seq<u64>, r: nat, i: int) -> int {
    round_step(proof, pvs, r) + i
}

/// The steps of a proof's transcript that take in its caps do take in their felts.
pub proof fn law_steps_take_caps_in(proof: StarkProof, pvs: Seq<u64>)
    ensures
        ({
            let ops = cap_program(proof, pvs);
            let trace = digest_felts(proof.trace_commit@);
            let quotient = digest_felts(proof.quotient_commit@);
            let caps = fri_view(proof.opening).caps;
            &&& 3 + trace.len() <= ops.len()
            &&& quotient_step(proof, pvs) + quotient.len() <= ops.len()
            &&& ops.len() == round_step(proof, pvs, caps.len())
            &&& forall|i: int| 0 <= i < trace.len() ==> ops[3 + i] == Op::Observe(#[trigger] trace[i])
            &&& forall|i: int|
                0 <= i < quotient.len() ==> ops[quotient_step(proof, pvs) + i] == Op::Observe(#[trigger] quotient[i])
            &&& forall|r: nat, i: int|
                r < caps.len() && 0 <= i < caps[r as int].len() ==> 0 <= #[trigger] round_felt(proof, pvs, r, i)
                    < ops.len() && ops[round_felt(proof, pvs, r, i)] == Op::Observe(caps[r as int][i])
        }),
{
    let ops = cap_program(proof, pvs);
    let instance = instance_felts(proof, pvs);
    let trace = digest_felts(proof.trace_commit@);
    let quotient = digest_felts(proof.quotient_commit@);
    let caps = fri_view(proof.opening).caps;
    lemma_round_steps(proof, pvs, caps.len());
    let head = observes(instance) + samples(2) + observes(quotient) + samples(2) + observes(
        ext_felts(all_opened(proof)),
    ) + samples(2);
    let rounds = round_ops(caps, caps.len());
    assert(ops =~= head + rounds);
    assert forall|i: int| 0 <= i < trace.len() implies ops[3 + i] == Op::Observe(#[trigger] trace[i]) by {
        assert(instance[3 + i] == trace[i]);
        assert(ops[3 + i] == observes(instance)[3 + i]);
    }
    assert forall|i: int| 0 <= i < quotient.len() implies ops[quotient_step(proof, pvs) + i] == Op::Observe(
        #[trigger] quotient[i],
    ) by {
        assert(ops[quotient_step(proof, pvs) + i] == observes(quotient)[i]);
    }
    assert forall|r: nat, i: int| r < caps.len() && 0 <= i < caps[r as int].len() implies 0 <= #[trigger] round_felt(
        proof,
        pvs,
        r,
        i,
    ) < ops.len() && ops[round_felt(proof, pvs, r, i)] == Op::Observe(caps[r as int][i]) by {
        let at = round_felt(proof, pvs, r, i);
        assert(rounds[at - head.len()] == Op::Observe(caps[r as int][i]));
        assert(ops[at] == rounds[at - head.len()]);
    }
}

/// Append the felt positions of a cap.
fn push_positions(
    out: &mut Vec<CapPosition>,
    rec: &Recording,
    cap: usize,
    start: usize,
    len: usize,
    Ghost(ops): Ghost<Seq<Op>>,
)
    requires
        rec.records(ops),
        start + len <= ops.len(),
    ensures
        final(out)@ == old(out)@ + cap_positions(ops, cap as int, start as int, len as nat),
{
    let ghost before = out@;
    let mut i: usize = 0;
    while i < len
        invariant
            i <= len,
            rec.records(ops),
            start + len <= ops.len(),
            ops.len() == rec.positions@.len(),
            out@ =~= before + cap_positions(ops, cap as int, start as int, len as nat).take(i as int),
        decreases len - i,
    {
        let total: usize = rec.positions.len();
        let p: (usize, usize) = rec.positions[start + i];
        out.push(CapPosition { cap, entry: i / 4, felt: i % 4, block: p.0, lane: p.1 });
        i += 1;
    }
    assert(out@ =~= before + cap_positions(ops, cap as int, start as int, len as nat));
}

/// Replay the transcript of a proof up to its last fold challenge: the blocks that enter the permutation, and where
/// each felt of each cap is taken in.
pub fn sim_cap_positions(proof: &StarkProof, pvs: &Vec<u64>) -> (r: (Vec<Vec<u64>>, Vec<CapPosition>))
    requires
        proof.opening.commits@.len() < usize::MAX - 1,
    ensures
        contents(r.0@) == run(cap_program(*proof, pvs@)).sim.blocks,
        r.1@ == all_positions(*proof, pvs@),
{
    let start: Preamble = preamble_challenges(proof, pvs);
    let fri: FriTranscript = fri_transcript(&proof.opening);
    let opened: Vec<Ext> = all_opened_of(proof);
    let mut ops: Vec<Op> = Vec::new();
    push_observes(&mut ops, &start.instance);
    push_samples(&mut ops, 2);
    push_observes(&mut ops, &start.commitment);
    push_samples(&mut ops, 2);
    push_opening_ops(&mut ops, &opened, &fri.caps);
    let ghost program = cap_program(*proof, pvs@);
    assert(ops@ =~= program);
    let rec: Recording = replay(&ops);
    let total: usize = ops.len();
    proof {
        law_steps_take_caps_in(*proof, pvs@);
        lemma_round_order(*proof, pvs@, 0, proof.opening.commits@.len());
    }
    let mut out: Vec<CapPosition> = Vec::new();
    let trace_len: usize = cap_felts(&proof.trace_commit).len();
    push_positions(&mut out, &rec, 0, 3, trace_len, Ghost(program));
    let quotient_at: usize = start.instance.len() + 2;
    push_positions(&mut out, &rec, 1, quotient_at, start.commitment.len(), Ghost(program));
    let felts: Vec<u64> = felts_of_exts(&opened);
    let mut at: usize = quotient_at + start.commitment.len() + 2 + felts.len() + 2;
    let ghost before = out@;
    let mut r: usize = 0;
    assert(before + round_positions(*proof, pvs@, 0) =~= before);
    while r < fri.caps.len()
        invariant
            r <= fri.caps@.len(),
            fri@ == fri_view(proof.opening),
            fri@.caps.len() == proof.opening.commits@.len(),
            proof.opening.commits@.len() < usize::MAX - 1,
            rec.records(program),
            program == cap_program(*proof, pvs@),
            total == program.len(),
            program.len() == round_step(*proof, pvs@, proof.opening.commits@.len()),
            at == round_step(*proof, pvs@, r as nat),
            out@ == before + round_positions(*proof, pvs@, r as nat),
        decreases fri.caps.len() - r,
    {
        proof {
            lemma_round_order(*proof, pvs@, (r + 1) as nat, proof.opening.commits@.len());
            assert(fri@.caps[r as int] == fri.caps@[r as int]@);
        }
        let len: usize = fri.caps[r].len();
        push_positions(&mut out, &rec, 2 + r, at, len, Ghost(program));
        assert(out@ =~= before + round_positions(*proof, pvs@, (r + 1) as nat));
        at = at + len + 2;
        r += 1;
    }
    assert(out@ =~= all_positions(*proof, pvs@));
    assert(contents(rec.block_inputs@) =~= run(program).sim.blocks);
    (rec.block_inputs, out)
}

/// The rounds' steps follow each other.
proof fn lemma_round_order(proof: StarkProof, pvs: Seq<u64>, m: nat, n: nat)
    requires
        m <= n,
    ensures
        round_step(proof, pvs, m) <= round_step(proof, pvs, n),
    decreases n,
{
    if m < n {
        lemma_round_order(proof, pvs, m, (n - 1) as nat);
    }
}

/// Where a coordinate of an opened value is taken in.
#[derive(Clone, Copy)]
pub struct OpeningPosition {
    pub opening: usize,
    pub coordinate: usize,
    pub block: usize,
    pub lane: usize,
}

/// The transcript of a proof up to its opened values.
pub open spec fn opening_program(proof: StarkProof, pvs: Seq<u64>) -> Seq<Op> {
    observes(instance_felts(proof, pvs)) + samples(2) + observes(digest_felts(proof.quotient_commit@)) + samples(2)
        + observes(ext_felts(all_opened(proof)))
}

/// The step that takes in the first opened value.
pub open spec fn opening_step(proof: StarkProof, pvs: Seq<u64>) -> int {
    quotient_step(proof, pvs) + digest_felts(proof.quotient_commit@).len() + 2
}

/// The positions of all coordinates of the opened values.
pub open spec fn opening_positions(proof: StarkProof, pvs: Seq<u64>) -> Seq<OpeningPosition> {
    let ops = opening_program(proof, pvs);
    Seq::new(
        ext_felts(all_opened(proof)).len(),
        |i: int|
            OpeningPosition {
                opening: (i / 2) as usize,
                coordinate: (i % 2) as usize,
                block: position(ops, opening_step(proof, pvs) + i).0 as usize,
                lane: position(ops, opening_step(proof, pvs) + i).1 as usize,
            },
    )
}

/// The steps that take in the opened values do take in their coordinates.
pub proof fn law_steps_take_openings_in(proof: StarkProof, pvs: Seq<u64>, i: int)
    requires
        0 <= i < ext_felts(all_opened(proof)).len(),
    ensures
        0 <= opening_step(proof, pvs) + i < opening_program(proof, pvs).len(),
        opening_program(proof, pvs)[opening_step(proof, pvs) + i] == Op::Observe(ext_felts(all_opened(proof))[i]),
{
    let felts = ext_felts(all_opened(proof));
    assert(opening_program(proof, pvs)[opening_step(proof, pvs) + i] == observes(felts)[i]);
}

/// Replay the transcript of a proof up to its opened values: the blocks that enter the permutation, where each
/// coordinate is taken in, and the coordinates.
pub fn sim_opening_positions(proof: &StarkProof, pvs: &Vec<u64>) -> (r: (Vec<Vec<u64>>, Vec<OpeningPosition>, Vec<u64>))
    ensures
        contents(r.0@) == run(opening_program(*proof, pvs@)).sim.blocks,
        r.1@ == opening_positions(*proof, pvs@),
        r.2@ == ext_felts(all_opened(*proof)),
{
    let start: Preamble = preamble_challenges(proof, pvs);
    let opened: Vec<Ext> = all_opened_of(proof);
    let felts: Vec<u64> = felts_of_exts(&opened);
    let mut ops: Vec<Op> = Vec::new();
    push_observes(&mut ops, &start.instance);
    push_samples(&mut ops, 2);
    push_observes(&mut ops, &start.commitment);
    push_samples(&mut ops, 2);
    push_observes(&mut ops, &felts);
    let ghost program = opening_program(*proof, pvs@);
    assert(ops@ =~= program);
    let rec: Recording = replay(&ops);
    let total: usize = ops.len();
    let at: usize = total - felts.len();
    let mut out: Vec<OpeningPosition> = Vec::new();
    let mut i: usize = 0;
    while i < felts.len()
        invariant
            i <= felts@.len(),
            felts@ == ext_felts(all_opened(*proof)),
            program == opening_program(*proof, pvs@),
            rec.records(program),
            total == program.len(),
            at == opening_step(*proof, pvs@),
            at + felts@.len() == total,
            out@ =~= opening_positions(*proof, pvs@).take(i as int),
        decreases felts.len() - i,
    {
        let p: (usize, usize) = rec.positions[at + i];
        out.push(OpeningPosition { opening: i / 2, coordinate: i % 2, block: p.0, lane: p.1 });
        i += 1;
    }
    assert(out@ =~= opening_positions(*proof, pvs@));
    assert(contents(rec.block_inputs@) =~= run(program).sim.blocks);
    (rec.block_inputs, out, felts)
}

} // verus!
