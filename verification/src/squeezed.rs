//! Where the values of a transcript come from: each is a lane of the permutation of its block, and a challenge drawn
//! behind an observation is the top two lanes of one block.

use vstd::prelude::*;

use crate::field::Ext;
use crate::poseidon::{block_last, lemma_block_row_len, permuted};
use crate::schedule::{
    full_program, law_prefix_squeezes, law_run_observes, law_run_sample_ext, observes, round_ops, run, samples,
    tail_ops, FriTranscriptView, Op,
};
use crate::transcript::{
    block_follows, ext_felts, lemma_duplex_schedule, loaded, schedule_ok, sim_after_sample, sim_duplexed, sim_observed,
    sim_ready, sim_sampled, SimView, Squeeze,
};

verus! {

/// A recorded sponge between operations: its state and its outputs are those of the last block.
pub open spec fn recorded(v: SimView) -> bool {
    &&& schedule_ok(v)
    &&& v.sponge.state.len() == 8
    &&& v.sponge.input.len() < 4
    &&& v.sponge.output.len() <= 4
    &&& v.sponge.output.len() > 0 ==> v.blocks.len() > 0 && v.sponge.output == permuted(v.blocks.last()).take(
        v.sponge.output.len() as int,
    )
}

/// A value is the lane of the permutation of its block.
pub open spec fn put_out(s: Squeeze, blocks: Seq<Seq<u64>>) -> bool {
    &&& s.block < blocks.len()
    &&& s.lane < 4
    &&& s.value == permuted(blocks[s.block as int])[s.lane as int]
}

proof fn lemma_permuted_lanes(input: Seq<u64>)
    requires
        input.len() == 8,
    ensures
        permuted(input).len() == 8,
{
    reveal(block_last);
    lemma_block_row_len(input, 31);
}

/// The permutation of a block.
proof fn lemma_duplexed(v: SimView)
    requires
        schedule_ok(v),
        v.sponge.state.len() == 8,
        v.sponge.input.len() <= 4,
    ensures
        recorded(sim_duplexed(v)),
        sim_duplexed(v).sponge.output.len() == 4,
        sim_duplexed(v).sponge.input.len() == 0,
        sim_duplexed(v).blocks.len() == v.blocks.len() + 1,
        forall|b: int| 0 <= b < v.blocks.len() ==> sim_duplexed(v).blocks[b] == #[trigger] v.blocks[b],
{
    let n = sim_duplexed(v);
    lemma_duplex_schedule(v);
    lemma_permuted_lanes(loaded(v.sponge));
    assert(n.blocks.last() == loaded(v.sponge));
    assert(n.sponge.output =~= permuted(n.blocks.last()).take(4));
}

/// One value: where it comes from, and what is left.
proof fn lemma_sampled(v: SimView)
    requires
        recorded(v),
    ensures
        recorded(sim_after_sample(v)),
        put_out(sim_sampled(v), sim_after_sample(v).blocks),
        v.blocks.len() <= sim_after_sample(v).blocks.len(),
        forall|b: int| 0 <= b < v.blocks.len() ==> sim_after_sample(v).blocks[b] == #[trigger] v.blocks[b],
        sim_after_sample(v).sponge.output.len() == sim_sampled(v).lane,
        sim_after_sample(v).sponge.input.len() == 0,
        sim_sampled(v).block + 1 == sim_after_sample(v).blocks.len(),
        fresh(v) ==> sim_sampled(v).lane == 3,
        !fresh(v) ==> sim_sampled(v).lane + 1 == v.sponge.output.len() && sim_after_sample(v).blocks == v.blocks,
{
    let r = sim_ready(v);
    if v.sponge.input.len() > 0 || v.sponge.output.len() == 0 {
        lemma_duplexed(v);
    }
    let n = r.sponge.output.len();
    assert(r.sponge.output == permuted(r.blocks.last()).take(n as int));
    assert(block_follows(r.blocks, r.counts, r.blocks.len() - 1));
    lemma_permuted_lanes(r.blocks.last());
    assert(r.sponge.output.last() == permuted(r.blocks.last())[n - 1]);
    assert(r.sponge.output.drop_last() =~= permuted(r.blocks.last()).take(n - 1));
}

/// The next value is the top lane of its block.
pub open spec fn fresh(v: SimView) -> bool {
    v.sponge.input.len() > 0 || v.sponge.output.len() == 0 || v.sponge.output.len() == 4
}

proof fn lemma_observed(v: SimView, x: u64)
    requires
        recorded(v),
    ensures
        recorded(sim_observed(v, x)),
        fresh(sim_observed(v, x)),
        v.blocks.len() <= sim_observed(v, x).blocks.len(),
        forall|b: int| 0 <= b < v.blocks.len() ==> sim_observed(v, x).blocks[b] == #[trigger] v.blocks[b],
{
    let fed = SimView {
        sponge: crate::transcript::SpongeView {
            state: v.sponge.state,
            input: v.sponge.input.push(crate::field::f_red(x as int)),
            output: Seq::empty(),
        },
        blocks: v.blocks,
        counts: v.counts,
    };
    if fed.sponge.input.len() == 4 {
        lemma_duplexed(fed);
    }
}

/// Every value of a program is a lane of the permutation of its block.
pub proof fn law_values_are_lanes(ops: Seq<Op>)
    ensures
        recorded(run(ops).sim),
        forall|i: int| 0 <= i < run(ops).squeezes.len() ==> put_out(#[trigger] run(ops).squeezes[i], run(ops).sim.blocks),
    decreases ops.len(),
{
    if ops.len() > 0 {
        let before = run(ops.drop_last());
        law_values_are_lanes(ops.drop_last());
        match ops.last() {
            Op::Observe(v) => {
                lemma_observed(before.sim, v);
            },
            Op::Sample => {
                lemma_sampled(before.sim);
            },
        }
        let after = run(ops);
        assert forall|i: int| 0 <= i < after.squeezes.len() implies put_out(
            #[trigger] after.squeezes[i],
            after.sim.blocks,
        ) by {
            if i < before.squeezes.len() {
                assert(put_out(before.squeezes[i], before.sim.blocks));
                assert(after.squeezes[i] == before.squeezes[i]);
            }
        }
    }
}

/// Two values in a row are the top two lanes of one block.
pub open spec fn top_pair(sq: Seq<Squeeze>, at: int) -> bool {
    &&& sq[at].lane == 3
    &&& sq[at + 1].lane == 2
    &&& sq[at].block == sq[at + 1].block
}

/// Behind an observation a challenge is the top two lanes of one block.
proof fn lemma_fresh_pair(ops: Seq<Op>)
    requires
        fresh(run(ops).sim),
    ensures
        top_pair(run(ops + samples(2)).squeezes, run(ops).squeezes.len() as int),
{
    let v = run(ops).sim;
    let n = run(ops).squeezes.len() as int;
    law_values_are_lanes(ops);
    let one = ops + samples(1);
    assert(one.drop_last() =~= ops);
    assert(one.last() == Op::Sample);
    let two = ops + samples(2);
    assert(two.drop_last() =~= one);
    assert(two.last() == Op::Sample);
    lemma_sampled(v);
    let w = run(one).sim;
    assert(w == sim_after_sample(v));
    lemma_sampled(w);
    assert(run(two).squeezes[n] == sim_sampled(v));
    assert(run(two).squeezes[n + 1] == sim_sampled(w));
}

proof fn lemma_observes_fresh(ops: Seq<Op>, vs: Seq<u64>)
    requires
        vs.len() > 0,
    ensures
        fresh(run(ops + observes(vs)).sim),
{
    let all = ops + observes(vs);
    let before = all.drop_last();
    assert(all.last() == Op::Observe(vs.last()));
    law_values_are_lanes(before);
    lemma_observed(run(before).sim, vs.last());
}

/// The first `n` rounds of a program put out top pairs.
proof fn lemma_round_pairs(ops: Seq<Op>, caps: Seq<Seq<u64>>, n: nat, r: nat)
    requires
        r < n <= caps.len(),
        forall|i: int| 0 <= i < caps.len() ==> (#[trigger] caps[i]).len() > 0,
    ensures
        run(ops + round_ops(caps, n)).squeezes.len() == run(ops).squeezes.len() + 2 * n,
        top_pair(run(ops + round_ops(caps, n)).squeezes, run(ops).squeezes.len() as int + 2 * r),
    decreases n,
{
    let m = (n - 1) as nat;
    let before = ops + round_ops(caps, m);
    let seen = before + observes(caps[n - 1]);
    assert(ops + round_ops(caps, n) =~= seen + samples(2));
    if m > 0 {
        lemma_round_pairs(ops, caps, m, if r < m {
            r
        } else {
            0
        });
    } else {
        assert(before =~= ops);
    }
    law_run_observes(before, caps[n - 1]);
    law_run_sample_ext(seen);
    assert(caps[n - 1].len() > 0);
    lemma_observes_fresh(before, caps[n - 1]);
    lemma_fresh_pair(seen);
    let (sq, was) = (run(seen + samples(2)).squeezes, run(before).squeezes);
    if r < m {
        let at = run(ops).squeezes.len() as int + 2 * r;
        assert(sq.take(was.len() as int)[at] == was[at]);
        assert(sq.take(was.len() as int)[at + 1] == was[at + 1]);
    }
}

/// Every challenge of a proof's program is the top two lanes of one block.
pub proof fn law_program_pairs(
    instance: Seq<u64>,
    commitment: Seq<u64>,
    openings: Seq<Ext>,
    fri: FriTranscriptView,
    j: int,
)
    requires
        instance.len() > 0,
        commitment.len() > 0,
        openings.len() > 0,
        forall|i: int| 0 <= i < fri.caps.len() ==> (#[trigger] fri.caps[i]).len() > 0,
        0 <= j < 3 + fri.caps.len(),
    ensures
        top_pair(run(full_program(instance, commitment, openings, fri)).squeezes, 2 * j),
{
    let o0 = Seq::<Op>::empty();
    let o1 = o0 + observes(instance);
    law_run_observes(o0, instance);
    lemma_observes_fresh(o0, instance);
    let o2 = o1 + samples(2);
    law_run_sample_ext(o1);
    lemma_fresh_pair(o1);
    let o3 = o2 + observes(commitment);
    law_run_observes(o2, commitment);
    lemma_observes_fresh(o2, commitment);
    let o4 = o3 + samples(2);
    law_run_sample_ext(o3);
    lemma_fresh_pair(o3);
    let felts = ext_felts(openings);
    crate::fri::query::lemma_ext_felts_len(openings);
    let o5 = o4 + observes(felts);
    law_run_observes(o4, felts);
    lemma_observes_fresh(o4, felts);
    let o6 = o5 + samples(2);
    law_run_sample_ext(o5);
    lemma_fresh_pair(o5);
    let n = fri.caps.len();
    let o7 = o6 + round_ops(fri.caps, n);
    let o8 = o7 + tail_ops(fri);
    assert(o8 =~= full_program(instance, commitment, openings, fri));
    law_prefix_squeezes(o2, o8.skip(o2.len() as int));
    assert(o2 + o8.skip(o2.len() as int) =~= o8);
    law_prefix_squeezes(o4, o8.skip(o4.len() as int));
    assert(o4 + o8.skip(o4.len() as int) =~= o8);
    law_prefix_squeezes(o6, o8.skip(o6.len() as int));
    assert(o6 + o8.skip(o6.len() as int) =~= o8);
    law_prefix_squeezes(o7, tail_ops(fri));
    let sq = run(o8).squeezes;
    if j == 0 {
        assert(sq[0] == run(o2).squeezes[0] && sq[1] == run(o2).squeezes[1]);
    } else if j == 1 {
        assert(sq[2] == run(o4).squeezes[2] && sq[3] == run(o4).squeezes[3]);
    } else if j == 2 {
        assert(sq[4] == run(o6).squeezes[4] && sq[5] == run(o6).squeezes[5]);
    } else {
        lemma_round_pairs(o6, fri.caps, n, (j - 3) as nat);
        assert(sq[2 * j] == run(o7).squeezes[2 * j] && sq[2 * j + 1] == run(o7).squeezes[2 * j + 1]);
    }
}

} // verus!
