//! Transcripts as programs: the sequence of observations and samples of a proof, replayed on the recording
//! sponge or on the challenger.

use vstd::prelude::*;

use crate::field::{f_red, Ext};
use crate::transcript::{
    after_sample, after_sample_ext, empty_sponge, ext_felts, felts_of_exts, law_sim_is_challenger, observed_all,
    sampled, sampled_ext, sim_after_sample, sim_observed, sim_sampled, sponge_ok, Challenger, Sim, SimView, SpongeView,
    Squeeze,
};

verus! {

/// One step of a transcript.
#[derive(Clone, Copy)]
pub enum Op {
    Observe(u64),
    Sample,
}

/// The recording sponge after a program, with all it put out.
pub struct RunView {
    pub sim: SimView,
    pub squeezes: Seq<Squeeze>,
}

/// Run a program from the empty transcript.
pub open spec fn run(ops: Seq<Op>) -> RunView
    decreases ops.len(),
{
    if ops.len() == 0 {
        RunView {
            sim: SimView { sponge: empty_sponge(), blocks: Seq::empty(), counts: Seq::empty() },
            squeezes: Seq::empty(),
        }
    } else {
        let before = run(ops.drop_last());
        match ops.last() {
            Op::Observe(v) => RunView { sim: sim_observed(before.sim, v), squeezes: before.squeezes },
            Op::Sample => RunView {
                sim: sim_after_sample(before.sim),
                squeezes: before.squeezes.push(sim_sampled(before.sim)),
            },
        }
    }
}

/// How many samples a program takes.
pub open spec fn sample_count(ops: Seq<Op>) -> nat
    decreases ops.len(),
{
    if ops.len() == 0 {
        0
    } else {
        sample_count(ops.drop_last()) + (if ops.last() == Op::Sample { 1nat } else { 0 })
    }
}

/// A program puts out one value per sample.
pub proof fn law_squeezes_match_samples(ops: Seq<Op>)
    ensures
        run(ops).squeezes.len() == sample_count(ops),
    decreases ops.len(),
{
    if ops.len() > 0 {
        law_squeezes_match_samples(ops.drop_last());
    }
}

/// A longer program starts like its prefix: what was put out stays.
pub proof fn law_prefix_squeezes(ops: Seq<Op>, more: Seq<Op>)
    ensures
        run(ops).squeezes.len() <= run(ops + more).squeezes.len(),
        forall|i: int|
            0 <= i < run(ops).squeezes.len() ==> run(ops + more).squeezes[i] == #[trigger] run(ops).squeezes[i],
    decreases more.len(),
{
    if more.len() == 0 {
        assert(ops + more =~= ops);
    } else {
        law_prefix_squeezes(ops, more.drop_last());
        assert((ops + more).drop_last() =~= ops + more.drop_last());
    }
}

/// Observe every value in turn.
pub open spec fn observes(vs: Seq<u64>) -> Seq<Op> {
    Seq::new(vs.len(), |i: int| Op::Observe(vs[i]))
}

/// Sample `n` times.
pub open spec fn samples(n: nat) -> Seq<Op> {
    Seq::new(n, |i: int| Op::Sample)
}

/// The part of an opening proof that the transcript sees: the felts of each commit-phase cap, the final
/// polynomial, the arities, the proof of work and the number of queries.
pub struct FriTranscript {
    pub caps: Vec<Vec<u64>>,
    pub final_poly: Vec<Ext>,
    pub arities: Vec<u64>,
    pub pow_witness: u64,
    pub n_queries: usize,
}

/// The same, as mathematics.
#[verifier::ext_equal]
pub struct FriTranscriptView {
    pub caps: Seq<Seq<u64>>,
    pub final_poly: Seq<Ext>,
    pub arities: Seq<u64>,
    pub pow_witness: u64,
    pub n_queries: nat,
}

impl View for FriTranscript {
    type V = FriTranscriptView;

    open spec fn view(&self) -> FriTranscriptView {
        FriTranscriptView {
            caps: Seq::new(self.caps@.len(), |r: int| self.caps@[r]@),
            final_poly: self.final_poly@,
            arities: self.arities@,
            pow_witness: self.pow_witness,
            n_queries: self.n_queries as nat,
        }
    }
}

/// The first `n` commit rounds: the cap, then the fold challenge.
pub open spec fn round_ops(caps: Seq<Seq<u64>>, n: nat) -> Seq<Op>
    decreases n,
{
    if n == 0 {
        Seq::empty()
    } else {
        round_ops(caps, (n - 1) as nat) + observes(caps[n - 1]) + samples(2)
    }
}

/// The openings, the batching challenge and the commit rounds.
pub open spec fn opening_ops(openings: Seq<Ext>, caps: Seq<Seq<u64>>) -> Seq<Op> {
    observes(ext_felts(openings)) + samples(2) + round_ops(caps, caps.len())
}

/// The end of the transcript: the final polynomial, the arities, the proof of work, then one sample for the
/// work and one per query.
pub open spec fn tail_ops(fri: FriTranscriptView) -> Seq<Op> {
    observes(ext_felts(fri.final_poly)) + observes(fri.arities) + observes(seq![fri.pow_witness]) + samples(1) + samples(
        fri.n_queries,
    )
}

/// The transcript of a proof up to its commit rounds.
pub open spec fn commit_program(
    instance: Seq<u64>,
    commitment: Seq<u64>,
    openings: Seq<Ext>,
    caps: Seq<Seq<u64>>,
) -> Seq<Op> {
    observes(instance) + samples(2) + observes(commitment) + samples(2) + opening_ops(openings, caps)
}

/// The transcript of a proof.
pub open spec fn full_program(
    instance: Seq<u64>,
    commitment: Seq<u64>,
    openings: Seq<Ext>,
    fri: FriTranscriptView,
) -> Seq<Op> {
    commit_program(instance, commitment, openings, fri.caps) + tail_ops(fri)
}

/// The transcript of a lookup proof: the trace cap and the public values, the lookup challenges, the aux cap,
/// the constraint challenge, the quotient cap, the point, then as for any proof.
pub open spec fn lookup_program(
    trace_cap: Seq<u64>,
    pis: Seq<u64>,
    n_challenges: nat,
    aux_cap: Seq<u64>,
    quotient_cap: Seq<u64>,
    openings: Seq<Ext>,
    fri: FriTranscriptView,
) -> Seq<Op> {
    observes(trace_cap) + observes(pis) + samples(2 * n_challenges) + observes(aux_cap) + samples(2) + observes(
        quotient_cap,
    ) + samples(2) + opening_ops(openings, fri.caps) + tail_ops(fri)
}

pub(crate) fn push_observes(ops: &mut Vec<Op>, vs: &Vec<u64>)
    ensures
        final(ops)@ == old(ops)@ + observes(vs@),
{
    let ghost before = ops@;
    let mut i: usize = 0;
    while i < vs.len()
        invariant
            i <= vs@.len(),
            ops@ =~= before + observes(vs@).take(i as int),
        decreases vs.len() - i,
    {
        ops.push(Op::Observe(vs[i]));
        i += 1;
    }
    assert(ops@ =~= before + observes(vs@));
}

pub(crate) fn push_samples(ops: &mut Vec<Op>, n: usize)
    ensures
        final(ops)@ == old(ops)@ + samples(n as nat),
{
    let ghost before = ops@;
    let mut i: usize = 0;
    while i < n
        invariant
            i <= n,
            ops@ =~= before + samples(i as nat),
        decreases n - i,
    {
        ops.push(Op::Sample);
        i += 1;
    }
}

pub(crate) fn push_opening_ops(ops: &mut Vec<Op>, openings: &Vec<Ext>, caps: &Vec<Vec<u64>>)
    ensures
        final(ops)@ == old(ops)@ + opening_ops(openings@, Seq::new(caps@.len(), |r: int| caps@[r]@)),
{
    let ghost cv = Seq::new(caps@.len(), |r: int| caps@[r]@);
    let ghost before = ops@;
    push_observes(ops, &felts_of_exts(openings));
    push_samples(ops, 2);
    let ghost mid = ops@;
    let mut r: usize = 0;
    assert(ops@ =~= mid + round_ops(cv, 0));
    while r < caps.len()
        invariant
            r <= caps@.len(),
            cv == Seq::new(caps@.len(), |k: int| caps@[k]@),
            ops@ == mid + round_ops(cv, r as nat),
        decreases caps.len() - r,
    {
        push_observes(ops, &caps[r]);
        push_samples(ops, 2);
        assert(cv[r as int] == caps@[r as int]@);
        assert(ops@ =~= mid + round_ops(cv, (r + 1) as nat));
        r += 1;
    }
    assert(ops@ =~= before + opening_ops(openings@, cv));
}

pub(crate) fn push_tail_ops(ops: &mut Vec<Op>, fri: &FriTranscript)
    ensures
        final(ops)@ == old(ops)@ + tail_ops(fri@),
{
    let ghost before = ops@;
    push_observes(ops, &felts_of_exts(&fri.final_poly));
    push_observes(ops, &fri.arities);
    let mut work: Vec<u64> = Vec::new();
    work.push(fri.pow_witness);
    push_observes(ops, &work);
    assert(work@ =~= seq![fri.pow_witness]);
    push_samples(ops, 1);
    push_samples(ops, fri.n_queries);
    assert(ops@ =~= before + tail_ops(fri@));
}

/// How a program loads the sponge, whatever its values: the permutations done, the inputs that wait and the outputs that
/// are left.
pub open spec fn load(ops: Seq<Op>) -> (nat, nat, nat)
    decreases ops.len(),
{
    if ops.len() == 0 {
        (0, 0, 0)
    } else {
        let (done, waiting, left) = load(ops.drop_last());
        match ops.last() {
            Op::Observe(_) => if waiting == 3 {
                (done + 1, 0, 4)
            } else {
                (done, waiting + 1, 0)
            },
            Op::Sample => if waiting > 0 || left == 0 {
                (done + 1, 0, 3)
            } else {
                (done, 0, (left - 1) as nat)
            },
        }
    }
}

/// What a replay records: the schedule, every value put out with its block and lane, and where each step
/// found the sponge.
pub struct Recording {
    pub block_inputs: Vec<Vec<u64>>,
    pub counts: Vec<u8>,
    pub values: Vec<u64>,
    pub blocks: Vec<usize>,
    pub lanes: Vec<usize>,
    /// Permutations done and inputs buffered before each step.
    pub positions: Vec<(usize, usize)>,
}

/// Permutations done and inputs buffered before step `i`.
pub open spec fn position(ops: Seq<Op>, i: int) -> (nat, nat) {
    let v = run(ops.take(i)).sim;
    (v.blocks.len(), v.sponge.input.len())
}

impl Recording {
    /// The recording is that of the program.
    pub open spec fn records(&self, ops: Seq<Op>) -> bool {
        let r = run(ops);
        &&& Seq::new(self.block_inputs@.len(), |i: int| self.block_inputs@[i]@) == r.sim.blocks
        &&& self.counts@ == r.sim.counts
        &&& self.values@.len() == r.squeezes.len()
        &&& self.blocks@.len() == r.squeezes.len()
        &&& self.lanes@.len() == r.squeezes.len()
        &&& forall|i: int| 0 <= i < r.squeezes.len() ==> #[trigger] self.values@[i] == r.squeezes[i].value
        &&& forall|i: int| 0 <= i < r.squeezes.len() ==> #[trigger] self.blocks@[i] == r.squeezes[i].block
        &&& forall|i: int| 0 <= i < r.squeezes.len() ==> #[trigger] self.lanes@[i] == r.squeezes[i].lane
        &&& self.positions@.len() == ops.len()
        &&& forall|i: int|
            0 <= i < ops.len() ==> ((#[trigger] self.positions@[i]).0 as nat, self.positions@[i].1 as nat)
                == position(ops, i)
    }
}

/// Replay a program on the recording sponge.
pub fn replay(ops: &Vec<Op>) -> (r: Recording)
    ensures
        r.records(ops@),
        crate::transcript::schedule_ok(run(ops@).sim),
        r.counts@.len() == load(ops@).0,
{
    let mut sim: Sim = Sim::new();
    let mut values: Vec<u64> = Vec::new();
    let mut blocks: Vec<usize> = Vec::new();
    let mut lanes: Vec<usize> = Vec::new();
    let mut positions: Vec<(usize, usize)> = Vec::new();
    let mut i: usize = 0;
    assert(ops@.take(0) =~= Seq::<Op>::empty());
    while i < ops.len()
        invariant
            i <= ops@.len(),
            sim.ok(),
            sim@ == run(ops@.take(i as int)).sim,
            load(ops@.take(i as int)) == (sim.counts@.len(), sim.input@.len(), sim.output@.len()),
            values@.len() == run(ops@.take(i as int)).squeezes.len(),
            blocks@.len() == values@.len(),
            lanes@.len() == values@.len(),
            forall|k: int|
                0 <= k < values@.len() ==> #[trigger] values@[k] == run(ops@.take(i as int)).squeezes[k].value,
            forall|k: int|
                0 <= k < values@.len() ==> #[trigger] blocks@[k] == run(ops@.take(i as int)).squeezes[k].block,
            forall|k: int|
                0 <= k < values@.len() ==> #[trigger] lanes@[k] == run(ops@.take(i as int)).squeezes[k].lane,
            positions@.len() == i,
            forall|k: int|
                0 <= k < i ==> ((#[trigger] positions@[k]).0 as nat, positions@[k].1 as nat) == position(ops@, k),
        decreases ops.len() - i,
    {
        positions.push((sim.block_inputs.len(), sim.input.len()));
        proof {
            assert(ops@.take(i + 1).drop_last() =~= ops@.take(i as int));
        }
        match ops[i] {
            Op::Observe(v) => {
                sim.observe(v);
            },
            Op::Sample => {
                let (v, blk, lane): (u64, usize, usize) = sim.sample_base();
                values.push(v);
                blocks.push(blk);
                lanes.push(lane);
            },
        }
        i += 1;
    }
    proof {
        assert(ops@.take(i as int) =~= ops@);
    }
    let r: Recording = Recording { block_inputs: sim.block_inputs, counts: sim.counts, values, blocks, lanes, positions };
    assert(Seq::new(r.block_inputs@.len(), |k: int| r.block_inputs@[k]@) =~= run(ops@).sim.blocks);
    r
}

/// Replay a program on the challenger; the values that it puts out come back. They are those of the recording
/// sponge.
pub fn replay_challenger(ops: &Vec<Op>) -> (values: Vec<u64>)
    ensures
        values@.len() == run(ops@).squeezes.len(),
        forall|i: int| 0 <= i < values@.len() ==> #[trigger] values@[i] == run(ops@).squeezes[i].value,
{
    let mut ch: Challenger = Challenger::new();
    let mut values: Vec<u64> = Vec::new();
    let mut i: usize = 0;
    assert(ops@.take(0) =~= Seq::<Op>::empty());
    while i < ops.len()
        invariant
            i <= ops@.len(),
            sponge_ok(ch@),
            ch@ == run(ops@.take(i as int)).sim.sponge,
            values@.len() == run(ops@.take(i as int)).squeezes.len(),
            forall|k: int|
                0 <= k < values@.len() ==> #[trigger] values@[k] == run(ops@.take(i as int)).squeezes[k].value,
        decreases ops.len() - i,
    {
        proof {
            assert(ops@.take(i + 1).drop_last() =~= ops@.take(i as int));
            law_sim_is_challenger(
                run(ops@.take(i as int)).sim,
                match ops@[i as int] {
                    Op::Observe(v) => v,
                    Op::Sample => 0,
                },
            );
        }
        match ops[i] {
            Op::Observe(v) => {
                ch.observe(v);
            },
            Op::Sample => {
                values.push(ch.sample());
            },
        }
        i += 1;
    }
    proof {
        assert(ops@.take(i as int) =~= ops@);
    }
    values
}

/// The sponge after a program.
pub open spec fn run_sponge(ops: Seq<Op>) -> SpongeView {
    run(ops).sim.sponge
}

/// Observations move the sponge as they do on the challenger, and put out nothing.
pub proof fn law_run_observes(ops: Seq<Op>, vs: Seq<u64>)
    ensures
        run_sponge(ops + observes(vs)) == observed_all(run_sponge(ops), vs),
        run(ops + observes(vs)).squeezes == run(ops).squeezes,
    decreases vs.len(),
{
    if vs.len() == 0 {
        assert(ops + observes(vs) =~= ops);
    } else {
        law_run_observes(ops, vs.drop_last());
        assert((ops + observes(vs)).drop_last() =~= ops + observes(vs.drop_last()));
        law_sim_is_challenger(run(ops + observes(vs.drop_last())).sim, vs.last());
    }
}

/// A sample moves the sponge as it does on the challenger, and puts out the challenger's value.
pub proof fn law_run_sample(ops: Seq<Op>)
    ensures
        run_sponge(ops + samples(1)) == after_sample(run_sponge(ops)),
        run(ops + samples(1)).squeezes.len() == run(ops).squeezes.len() + 1,
        run(ops + samples(1)).squeezes.last().value == sampled(run_sponge(ops)),
        run(ops + samples(1)).squeezes.drop_last() == run(ops).squeezes,
{
    assert((ops + samples(1)).drop_last() =~= ops);
    law_sim_is_challenger(run(ops).sim, 0);
    assert(run(ops + samples(1)).squeezes.drop_last() =~= run(ops).squeezes);
}

/// Two samples make an extension challenge.
pub proof fn law_run_sample_ext(ops: Seq<Op>)
    ensures
        ({
            let after = run(ops + samples(2)).squeezes;
            let n = run(ops).squeezes.len();
            &&& run_sponge(ops + samples(2)) == after_sample_ext(run_sponge(ops))
            &&& after.len() == n + 2
            &&& (Ext { c0: after[n as int].value, c1: after[n as int + 1].value }) == sampled_ext(run_sponge(ops))
            &&& after.take(n as int) == run(ops).squeezes
        }),
{
    law_run_sample(ops);
    law_run_sample(ops + samples(1));
    assert(ops + samples(1) + samples(1) =~= ops + samples(2));
    assert(run(ops + samples(2)).squeezes.take(run(ops).squeezes.len() as int) =~= run(ops).squeezes);
}

/// The felt that a step observes stands in the lane of the block that the step found: once that block is
/// permuted, the recording holds it there.
pub proof fn law_position_holds_felt(ops: Seq<Op>, i: int, v: u64)
    requires
        0 <= i < ops.len(),
        ops[i] == Op::Observe(v),
        position(ops, i).0 < run(ops).sim.blocks.len(),
    ensures
        run(ops).sim.blocks[position(ops, i).0 as int][position(ops, i).1 as int] == f_red(v as int),
{
    lemma_felt_stays(ops, i, v, ops.len());
    assert(ops.take(ops.len() as int) =~= ops);
}

/// After each later step the felt still waits in its lane, or stands in its block.
proof fn lemma_felt_stays(ops: Seq<Op>, i: int, v: u64, n: nat)
    requires
        0 <= i < n <= ops.len(),
        ops[i] == Op::Observe(v),
    ensures
        ({
            let sim = run(ops.take(n as int)).sim;
            let (b, l) = position(ops, i);
            ||| sim.blocks.len() == b && l < sim.sponge.input.len() < 4 && sim.sponge.input[l as int] == f_red(v as int)
            ||| sim.blocks.len() > b && sim.blocks[b as int][l as int] == f_red(v as int)
        }),
    decreases n,
{
    let before = run(ops.take(n - 1)).sim;
    assert(ops.take(n as int).drop_last() =~= ops.take(n - 1));
    lemma_input_short(ops.take(n - 1));
    if n - 1 > i {
        lemma_felt_stays(ops, i, v, (n - 1) as nat);
    }
}

/// Fewer felts than the rate wait between steps.
proof fn lemma_input_short(ops: Seq<Op>)
    ensures
        run_sponge(ops).input.len() < 4,
    decreases ops.len(),
{
    if ops.len() > 0 {
        lemma_input_short(ops.drop_last());
    }
}

/// The sponge after `r` caps, each followed by an extension challenge.
pub open spec fn after_caps(caps: Seq<Seq<u64>>, s: SpongeView, r: nat) -> SpongeView
    decreases r,
{
    if r == 0 {
        s
    } else {
        after_sample_ext(observed_all(after_caps(caps, s, (r - 1) as nat), caps[r - 1]))
    }
}

/// The sponge that a round's challenge is drawn from.
pub open spec fn cap_seen(caps: Seq<Seq<u64>>, s: SpongeView, r: nat) -> SpongeView {
    observed_all(after_caps(caps, s, r), caps[r as int])
}

/// The sponge that the batching challenge is drawn from, after the point.
pub open spec fn opened_sponge(instance: Seq<u64>, commitment: Seq<u64>, openings: Seq<Ext>) -> SpongeView {
    observed_all(after_sample_ext(point_sponge(instance, commitment)), ext_felts(openings))
}

/// The sponge that the point is drawn from.
pub open spec fn point_sponge(instance: Seq<u64>, commitment: Seq<u64>) -> SpongeView {
    observed_all(after_sample_ext(observed_all(empty_sponge(), instance)), commitment)
}

/// The sponge that the query work is drawn from.
pub open spec fn work_sponge(s: SpongeView, fri: FriTranscriptView) -> SpongeView {
    observed_all(
        observed_all(
            observed_all(after_caps(fri.caps, s, fri.caps.len()), ext_felts(fri.final_poly)),
            fri.arities,
        ),
        seq![fri.pow_witness],
    )
}

/// The sponge after `n` samples.
pub open spec fn drained(s: SpongeView, n: nat) -> SpongeView
    decreases n,
{
    if n == 0 {
        s
    } else {
        after_sample(drained(s, (n - 1) as nat))
    }
}

/// Two values put out make the extension challenge.
pub open spec fn is_challenge(sq: Seq<Squeeze>, at: int, c: Ext) -> bool {
    sq[at].value == c.c0 && sq[at + 1].value == c.c1
}

/// The commit rounds of a program.
proof fn lemma_run_rounds(ops: Seq<Op>, caps: Seq<Seq<u64>>, n: nat)
    requires
        n <= caps.len(),
    ensures
        run_sponge(ops + round_ops(caps, n)) == after_caps(caps, run_sponge(ops), n),
        run(ops + round_ops(caps, n)).squeezes.len() == run(ops).squeezes.len() + 2 * n,
        forall|i: int|
            0 <= i < run(ops).squeezes.len() ==> run(ops + round_ops(caps, n)).squeezes[i] == #[trigger] run(
                ops,
            ).squeezes[i],
        forall|r: nat|
            r < n ==> is_challenge(
                run(ops + round_ops(caps, n)).squeezes,
                run(ops).squeezes.len() as int + 2 * r,
                sampled_ext(#[trigger] cap_seen(caps, run_sponge(ops), r)),
            ),
    decreases n,
{
    if n == 0 {
        assert(ops + round_ops(caps, 0) =~= ops);
    } else {
        let m = (n - 1) as nat;
        lemma_run_rounds(ops, caps, m);
        let before = ops + round_ops(caps, m);
        let seen = before + observes(caps[n - 1]);
        law_run_observes(before, caps[n - 1]);
        law_run_sample_ext(seen);
        assert(ops + round_ops(caps, n) =~= seen + samples(2));
        let sq = run(ops + round_ops(caps, n)).squeezes;
        let old_sq = run(before).squeezes;
        assert forall|i: int| 0 <= i < old_sq.len() implies sq[i] == old_sq[i] by {
            assert(sq.take(old_sq.len() as int)[i] == old_sq[i]);
        }
        assert forall|r: nat| r < n implies is_challenge(
            sq,
            run(ops).squeezes.len() as int + 2 * r,
            sampled_ext(#[trigger] cap_seen(caps, run_sponge(ops), r)),
        ) by {
            if r < m {
                assert(is_challenge(
                    old_sq,
                    run(ops).squeezes.len() as int + 2 * r,
                    sampled_ext(cap_seen(caps, run_sponge(ops), r)),
                ));
            }
        }
    }
}

/// A run of samples.
proof fn lemma_run_samples(ops: Seq<Op>, n: nat)
    ensures
        run_sponge(ops + samples(n)) == drained(run_sponge(ops), n),
        run(ops + samples(n)).squeezes.len() == run(ops).squeezes.len() + n,
        forall|i: int|
            0 <= i < run(ops).squeezes.len() ==> run(ops + samples(n)).squeezes[i] == #[trigger] run(ops).squeezes[i],
        forall|k: nat|
            k < n ==> run(ops + samples(n)).squeezes[run(ops).squeezes.len() as int + k].value == sampled(
                #[trigger] drained(run_sponge(ops), k),
            ),
    decreases n,
{
    if n == 0 {
        assert(ops + samples(0) =~= ops);
    } else {
        let m = (n - 1) as nat;
        lemma_run_samples(ops, m);
        law_run_sample(ops + samples(m));
        assert(ops + samples(m) + samples(1) =~= ops + samples(n));
        let sq = run(ops + samples(n)).squeezes;
        let old_sq = run(ops + samples(m)).squeezes;
        assert forall|i: int| 0 <= i < old_sq.len() implies sq[i] == old_sq[i] by {
            assert(sq.drop_last()[i] == old_sq[i]);
        }
        assert forall|k: nat| k < n implies sq[run(ops).squeezes.len() as int + k].value == sampled(
            #[trigger] drained(run_sponge(ops), k),
        ) by {
            if k < m {
                assert(old_sq[run(ops).squeezes.len() as int + k].value == sampled(drained(run_sponge(ops), k)));
            } else {
                assert(sq.last() == sq[run(ops).squeezes.len() as int + k]);
            }
        }
    }
}

/// The part of a program behind its point: the openings, the rounds, the final polynomial, the work, the queries.
pub proof fn law_program_tail(ops: Seq<Op>, openings: Seq<Ext>, fri: FriTranscriptView)
    ensures
        ({
            let all = run(ops + opening_ops(openings, fri.caps) + tail_ops(fri)).squeezes;
            let n = run(ops).squeezes.len() as int;
            let rounds = fri.caps.len() as int;
            let c = observed_all(run_sponge(ops), ext_felts(openings));
            let w = work_sponge(after_sample_ext(c), fri);
            &&& all.len() == n + 2 + 2 * rounds + 1 + fri.n_queries
            &&& forall|i: int| 0 <= i < n ==> all[i] == #[trigger] run(ops).squeezes[i]
            &&& is_challenge(all, n, sampled_ext(c))
            &&& forall|r: nat|
                r < rounds ==> is_challenge(
                    all,
                    n + 2 + 2 * r,
                    sampled_ext(#[trigger] cap_seen(fri.caps, after_sample_ext(c), r)),
                )
            &&& all[n + 2 + 2 * rounds].value == sampled(w)
            &&& forall|k: nat|
                k < fri.n_queries ==> all[n + 2 + 2 * rounds + 1 + k].value == sampled(
                    #[trigger] drained(after_sample(w), k),
                )
        }),
{
    let n = run(ops).squeezes.len() as int;
    let rounds = fri.caps.len() as int;
    let o1 = ops + observes(ext_felts(openings));
    law_run_observes(ops, ext_felts(openings));
    let o2 = o1 + samples(2);
    law_run_sample_ext(o1);
    let c = run_sponge(o1);
    let o3 = o2 + round_ops(fri.caps, fri.caps.len());
    lemma_run_rounds(o2, fri.caps, fri.caps.len());
    assert(o3 =~= ops + opening_ops(openings, fri.caps));
    let o4 = o3 + observes(ext_felts(fri.final_poly));
    law_run_observes(o3, ext_felts(fri.final_poly));
    let o5 = o4 + observes(fri.arities);
    law_run_observes(o4, fri.arities);
    let o6 = o5 + observes(seq![fri.pow_witness]);
    law_run_observes(o5, seq![fri.pow_witness]);
    let o7 = o6 + samples(1);
    law_run_sample(o6);
    let o8 = o7 + samples(fri.n_queries);
    lemma_run_samples(o7, fri.n_queries);
    assert(o8 =~= ops + opening_ops(openings, fri.caps) + tail_ops(fri));
    let (s1, s2, s3, s7, s8) = (
        run(ops).squeezes,
        run(o2).squeezes,
        run(o3).squeezes,
        run(o7).squeezes,
        run(o8).squeezes,
    );
    assert forall|i: int| 0 <= i < n implies s8[i] == #[trigger] s1[i] by {
        assert(s2.take(n)[i] == s1[i]);
        assert(s3[i] == s2[i]);
        assert(s7.drop_last()[i] == s3[i]);
        assert(s8[i] == s7[i]);
    }
    assert forall|i: int| 0 <= i < s3.len() implies s8[i] == #[trigger] s3[i] by {
        assert(s7.drop_last()[i] == s3[i]);
        assert(s8[i] == s7[i]);
    }
    assert(s3[n] == s2[n] && s3[n + 1] == s2[n + 1]);
    assert(s8[n] == s3[n] && s8[n + 1] == s3[n + 1]);
    assert forall|r: nat| r < rounds implies is_challenge(
        s8,
        n + 2 + 2 * r,
        sampled_ext(#[trigger] cap_seen(fri.caps, after_sample_ext(c), r)),
    ) by {
        assert(is_challenge(s3, s2.len() as int + 2 * r, sampled_ext(cap_seen(fri.caps, run_sponge(o2), r))));
        let at = n + 2 + 2 * r;
        assert(s8[at] == s3[at] && s8[at + 1] == s3[at + 1]);
    }
    assert(s8[s7.len() - 1] == s7[s7.len() - 1]);
}

/// The challenges of a proof's program: from the instance the constraint challenge, from the quotient commitment the
/// point, and the rest as behind any point.
pub proof fn law_full_program_challenges(
    instance: Seq<u64>,
    commitment: Seq<u64>,
    openings: Seq<Ext>,
    fri: FriTranscriptView,
)
    ensures
        ({
            let all = run(full_program(instance, commitment, openings, fri)).squeezes;
            let rounds = fri.caps.len() as int;
            let c = opened_sponge(instance, commitment, openings);
            let w = work_sponge(after_sample_ext(c), fri);
            &&& all.len() == 6 + 2 * rounds + 1 + fri.n_queries
            &&& is_challenge(all, 0, sampled_ext(observed_all(empty_sponge(), instance)))
            &&& is_challenge(all, 2, sampled_ext(point_sponge(instance, commitment)))
            &&& is_challenge(all, 4, sampled_ext(c))
            &&& forall|r: nat|
                r < rounds ==> is_challenge(
                    all,
                    6 + 2 * r as int,
                    sampled_ext(#[trigger] cap_seen(fri.caps, after_sample_ext(c), r)),
                )
            &&& all[6 + 2 * rounds].value == sampled(w)
            &&& forall|k: nat|
                k < fri.n_queries ==> all[6 + 2 * rounds + 1 + k].value == sampled(
                    #[trigger] drained(after_sample(w), k),
                )
        }),
{
    let o0 = Seq::<Op>::empty();
    let o1 = o0 + observes(instance);
    law_run_observes(o0, instance);
    let o2 = o1 + samples(2);
    law_run_sample_ext(o1);
    let o3 = o2 + observes(commitment);
    law_run_observes(o2, commitment);
    let o4 = o3 + samples(2);
    law_run_sample_ext(o3);
    law_program_tail(o4, openings, fri);
    assert(o4 + opening_ops(openings, fri.caps) + tail_ops(fri) =~= full_program(
        instance,
        commitment,
        openings,
        fri,
    ));
    let (s2, s4) = (run(o2).squeezes, run(o4).squeezes);
    let all = run(full_program(instance, commitment, openings, fri)).squeezes;
    assert(s4.take(2)[0] == s2[0] && s4.take(2)[1] == s2[1]);
    assert(all[0] == s4[0] && all[1] == s4[1] && all[2] == s4[2] && all[3] == s4[3]);
}

/// The number of values that a lookup proof's program puts out.
pub proof fn law_lookup_program_count(
    trace_cap: Seq<u64>,
    pis: Seq<u64>,
    n_challenges: nat,
    aux_cap: Seq<u64>,
    quotient_cap: Seq<u64>,
    openings: Seq<Ext>,
    fri: FriTranscriptView,
)
    ensures
        run(lookup_program(trace_cap, pis, n_challenges, aux_cap, quotient_cap, openings, fri)).squeezes.len() == 2
            * n_challenges + 6 + 2 * fri.caps.len() + 1 + fri.n_queries,
{
    let o0 = Seq::<Op>::empty();
    let o1 = o0 + observes(trace_cap);
    law_run_observes(o0, trace_cap);
    let o2 = o1 + observes(pis);
    law_run_observes(o1, pis);
    let o3 = o2 + samples(2 * n_challenges);
    lemma_run_samples(o2, 2 * n_challenges);
    let o4 = o3 + observes(aux_cap);
    law_run_observes(o3, aux_cap);
    let o5 = o4 + samples(2);
    law_run_sample_ext(o4);
    let o6 = o5 + observes(quotient_cap);
    law_run_observes(o5, quotient_cap);
    let o7 = o6 + samples(2);
    law_run_sample_ext(o6);
    law_program_tail(o7, openings, fri);
    assert(o7 + opening_ops(openings, fri.caps) + tail_ops(fri) =~= lookup_program(
        trace_cap,
        pis,
        n_challenges,
        aux_cap,
        quotient_cap,
        openings,
        fri,
    ));
}

} // verus!
