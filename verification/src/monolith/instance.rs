//! An instance of the fused verifier as a whole: the verifier, the data of its queries, its window and its rows. Its
//! transcript agrees with its window.

use vstd::prelude::*;

use super::agreed::lemma_dimensions;
use super::eval::{InlineBci, MonolithBci};
use super::grid::cell;
use super::layout::MonolithAir;
use super::ood::lemma_marks_at;
use super::pairs::plain_rounds;
use super::paths::lemma_permuted_len;
use super::satisfied::{transcript_agrees, window_held};
use super::tiles::trace_built;
use super::trace::{transcript_input, QueryData};
use super::window::{
    fold_marks, follows_inner, is_query, last_row_selected, law_window_layout, lemma_digest_felts_len, mode_fits,
    proof_shaped, selector_cells, space_of, window_challenges, window_felts, window_values, WindowMode,
};
use crate::field::{f_red, x_red, MODULUS};
use crate::poseidon::permuted;
use crate::schedule::{law_full_program_challenges, run, Op};
use crate::squeezed::{law_program_pairs, law_values_are_lanes, put_out, top_pair};
use crate::stark::replay::{all_opened, fri_view, stark_program};
use crate::stark::verify::{chunks_joined, instance_felts, ood_openings, InnerAir, StarkProof};
use crate::transcript::{block_follows, digest_felts};
use crate::vanish::pair_at;

verus! {

/// An instance: the verifier, the data of its queries, the window and the rows.
pub struct Instance {
    pub air: MonolithAir,
    pub queries: Seq<QueryData>,
    pub window: Seq<u64>,
    pub cells: Seq<u64>,
}

/// The instance of a shaped proof, with nothing left out of its constraints: built rows, the data of every query, the
/// window and the squares of the point in every row where they live in columns, and the selectors at the point.
pub open spec fn whole_instance(w: Instance, inner: InnerAir, proof: StarkProof, pvs: Seq<u64>, mode: WindowMode) -> bool {
    let chs = window_challenges(proof, pvs);
    let felts = window_felts(proof, pvs);
    let r = run(stark_program(proof, pvs));
    &&& proof_shaped(inner, proof, pvs, mode.cap_height as int)
    &&& mode_fits(inner, pvs, mode)
    &&& follows_inner(w.air, inner, proof, pvs, mode)
    &&& w.air.eval_ok()
    &&& w.air.buildable()
    &&& !mode.narrow_arith
    &&& !mode.narrow_openings
    &&& !mode.narrow_caps
    &&& w.air.counts@ == r.sim.counts
    &&& forall|j: int| 0 <= j < w.air.binds@.len() ==> #[trigger] w.air.binds@[j] == r.squeezes[2 * j].block
    &&& forall|k: int|
        0 <= k < w.air.index_binds@.len() ==> {
            let s = r.squeezes[2 * (3 + proof.opening.commits@.len()) + 1 + k];
            (#[trigger] w.air.index_binds@[k]).0 == s.block && w.air.index_binds@[k].1 == s.lane
        }
    &&& w.queries.len() == proof.opening.queries@.len()
    &&& forall|q: int| 0 <= q < w.queries.len() ==> is_query(#[trigger] w.queries[q], inner, proof, chs, felts[q], q)
    &&& forall|q: int| 0 <= q < w.queries.len() ==> w.air.query_inverts(#[trigger] w.queries[q])
    &&& w.window == window_values(inner, proof, pvs, mode, chs, felts)
    &&& trace_built(w.air, w.cells, r.sim.blocks, w.queries, chs[2])
    &&& values_stand(w, proof, pvs)
    &&& mode.symbolic ==> last_row_selected(chs[1], proof.degree_bits as nat) && selectors_stand(w, inner, proof, pvs)
}

/// Where the values live in columns, every row holds the window and then the squares of the point.
#[verifier::opaque]
pub open spec fn values_stand(w: Instance, proof: StarkProof, pvs: Seq<u64>) -> bool {
    let vs = w.window + w.air.s_squares(window_challenges(proof, pvs)[1], w.air.s_cm_rounds() as nat);
    w.air.column_window ==> forall|r: int, i: int|
        0 <= r < w.air.s_inst_h() && 0 <= i < w.air.s_pis_count() + 2 * w.air.s_cm_rounds() ==> #[trigger] cell(
            w.cells,
            w.air.s_fold_w(),
            r,
            w.air.s_pw_base() + i,
        ) == vs[i]
}

/// Every row holds the selectors at the point.
#[verifier::opaque]
pub open spec fn selectors_stand(w: Instance, inner: InnerAir, proof: StarkProof, pvs: Seq<u64>) -> bool {
    let vs = selector_cells(w.air, inner, proof, pvs, window_challenges(proof, pvs));
    forall|r: int, i: int|
        0 <= r < w.air.s_inst_h() && 0 <= i < vs.len() ==> #[trigger] cell(
            w.cells,
            w.air.s_fold_w(),
            r,
            w.air.s_sel_base() + i,
        ) == vs[i]
}

/// The felts that a shaped proof's transcript takes in are not empty anywhere.
#[verifier::rlimit(30)]
proof fn lemma_transcript_felts(inner: InnerAir, proof: StarkProof, pvs: Seq<u64>, cap_height: int)
    requires
        proof_shaped(inner, proof, pvs, cap_height),
    ensures
        instance_felts(proof, pvs).len() > 0,
        digest_felts(proof.quotient_commit@).len() > 0,
        all_opened(proof).len() > 0,
        fri_view(proof.opening).caps.len() == proof.opening.commits@.len(),
        forall|i: int| 0 <= i < fri_view(proof.opening).caps.len() ==> (#[trigger] fri_view(proof.opening).caps[i]).len() > 0,
        fri_view(proof.opening).n_queries == proof.opening.queries@.len(),
{
    vstd::arithmetic::power2::lemma_pow2_pos(cap_height as nat);
    vstd::arithmetic::power2::lemma_pow2_pos(inner.log_chunks as nat);
    lemma_digest_felts_len(proof.quotient_commit@);
    let n = proof.quotient_chunks@.len();
    assert(proof.quotient_chunks@[n - 1]@.len() == 2);
    assert(chunks_joined(proof.quotient_chunks@, n).len() >= 2);
    let fri = fri_view(proof.opening);
    assert forall|i: int| 0 <= i < fri.caps.len() implies (#[trigger] fri.caps[i]).len() > 0 by {
        lemma_digest_felts_len(proof.opening.commits@[i]@);
        let e = super::layout::s_min(cap_height, space_of(proof) - (i + 1)) as nat;
        vstd::arithmetic::power2::lemma_pow2_pos(e);
    }
}

/// One value of a program, as a lane of its block.
proof fn lemma_squeeze_lane(air: MonolithAir, ops: Seq<Op>, i: int)
    requires
        air.counts@ == run(ops).sim.counts,
        0 <= i < run(ops).squeezes.len(),
    ensures
        ({
            let s = run(ops).squeezes[i];
            &&& 32 * s.block + 31 < air.s_tr()
            &&& permuted(transcript_input(run(ops).sim.blocks, s.block))[s.lane as int] == s.value
            &&& f_red(s.value as int) == s.value
            &&& s.lane < 4
        }),
{
    let sim = run(ops).sim;
    let s = run(ops).squeezes[i];
    law_values_are_lanes(ops);
    crate::bits::lemma_next_pow2(air.counts@.len());
    assert(put_out(s, sim.blocks));
    assert(block_follows(sim.blocks, sim.counts, s.block as int));
    lemma_permuted_len(sim.blocks[s.block as int]);
    assert(s.value < MODULUS);
}

/// A challenge of the window is bound to its block.
#[verifier::rlimit(30)]
proof fn lemma_bind_agrees(w: Instance, inner: InnerAir, proof: StarkProof, pvs: Seq<u64>, mode: WindowMode, j: int)
    requires
        whole_instance(w, inner, proof, pvs, mode),
        0 <= j < 3 + proof.opening.commits@.len(),
    ensures
        ({
            let blocks = run(stark_program(proof, pvs)).sim.blocks;
            let out = permuted(transcript_input(blocks, w.air.binds@[j] as nat));
            &&& 32 * w.air.binds@[j] + 31 < w.air.s_tr()
            &&& out[3] == f_red(w.window[2 * j] as int)
            &&& out[2] == f_red(w.window[2 * j + 1] as int)
        }),
{
    let ops = stark_program(proof, pvs);
    let sq = run(ops).squeezes;
    let chs = window_challenges(proof, pvs);
    let fri = fri_view(proof.opening);
    let (instance, commitment) = (instance_felts(proof, pvs), digest_felts(proof.quotient_commit@));
    lemma_transcript_felts(inner, proof, pvs, mode.cap_height as int);
    law_window_layout(w.air, inner, proof, pvs, mode, chs, window_felts(proof, pvs));
    law_full_program_challenges(instance, commitment, all_opened(proof), fri);
    law_program_pairs(instance, commitment, all_opened(proof), fri, j);
    assert(top_pair(sq, 2 * j));
    assert(w.window[2 * j] == chs[j].c0 && w.window[2 * j + 1] == chs[j].c1);
    assert(w.air.binds@[j] == sq[2 * j].block);
    lemma_squeeze_lane(w.air, ops, 2 * j);
    lemma_squeeze_lane(w.air, ops, 2 * j + 1);
}

/// A query felt of the window is bound to its block.
pub(super) proof fn lemma_index_agrees(w: Instance, inner: InnerAir, proof: StarkProof, pvs: Seq<u64>, mode: WindowMode, k: int)
    requires
        whole_instance(w, inner, proof, pvs, mode),
        0 <= k < proof.opening.queries@.len(),
    ensures
        ({
            let blocks = run(stark_program(proof, pvs)).sim.blocks;
            let (b, lane) = w.air.index_binds@[k];
            &&& 32 * b + 31 < w.air.s_tr()
            &&& lane < 8
            &&& permuted(transcript_input(blocks, b as nat))[lane as int] == f_red(
                w.window[2 * w.air.s_nb() + k] as int,
            )
            &&& w.window[2 * w.air.s_nb() + k] == window_felts(proof, pvs)[k]
            &&& f_red(window_felts(proof, pvs)[k] as int) == window_felts(proof, pvs)[k]
        }),
{
    let ops = stark_program(proof, pvs);
    let sq = run(ops).squeezes;
    let felts = window_felts(proof, pvs);
    let fri = fri_view(proof.opening);
    lemma_transcript_felts(inner, proof, pvs, mode.cap_height as int);
    law_window_layout(w.air, inner, proof, pvs, mode, window_challenges(proof, pvs), felts);
    law_full_program_challenges(instance_felts(proof, pvs), digest_felts(proof.quotient_commit@), all_opened(proof), fri);
    let at = 2 * (3 + proof.opening.commits@.len()) + 1 + k;
    assert(w.window[2 * w.air.s_nb() + k] == felts[k]);
    assert(w.air.index_binds@[k].0 == sq[at].block && w.air.index_binds@[k].1 == sq[at].lane);
    lemma_squeeze_lane(w.air, ops, at);
}

/// The transcript of an instance agrees with its window.
#[verifier::rlimit(30)]
pub(super) proof fn lemma_transcript_agrees(w: Instance, inner: InnerAir, proof: StarkProof, pvs: Seq<u64>, mode: WindowMode)
    requires
        whole_instance(w, inner, proof, pvs, mode),
    ensures
        transcript_agrees(w.air, run(stark_program(proof, pvs)).sim.blocks, window_challenges(proof, pvs)[2], w.window),
{
    let ops = stark_program(proof, pvs);
    let sim = run(ops).sim;
    let blocks = sim.blocks;
    let chs = window_challenges(proof, pvs);
    let air = w.air;
    law_values_are_lanes(ops);
    law_window_layout(air, inner, proof, pvs, mode, chs, window_felts(proof, pvs));
    assert forall|j: int| 0 <= j < air.s_nb() implies {
        let out = permuted(transcript_input(blocks, (#[trigger] air.binds@[j]) as nat));
        &&& 32 * air.binds@[j] + 31 < air.s_tr()
        &&& 1 <= air.s_bind_lane(j) < 8
        &&& out[air.s_bind_lane(j)] == f_red(w.window[2 * j] as int)
        &&& out[air.s_bind_lane(j) - 1] == f_red(w.window[2 * j + 1] as int)
    } by {
        lemma_bind_agrees(w, inner, proof, pvs, mode, j);
    }
    assert forall|k: int| 0 <= k < air.s_ni() implies {
        let out = permuted(transcript_input(blocks, (#[trigger] air.index_binds@[k]).0 as nat));
        &&& 32 * air.index_binds@[k].0 + 31 < air.s_tr()
        &&& air.index_binds@[k].1 < 8
        &&& out[air.index_binds@[k].1 as int] == f_red(w.window[2 * air.s_nb() + k] as int)
    } by {
        lemma_index_agrees(w, inner, proof, pvs, mode, k);
    }
    assert forall|b: int| 0 <= b < blocks.len() implies #[trigger] block_follows(blocks, air.counts@, b) by {
        assert(block_follows(sim.blocks, sim.counts, b));
    }
    assert(w.window[2 * 2int] == chs[2].c0 && w.window[2 * 2int + 1] == chs[2].c1);
    assert(pair_at(w.window, 4) == x_red(chs[2]));
}

/// What the verifier of a whole instance is.
pub(super) proof fn lemma_instance_air(w: Instance, inner: InnerAir, proof: StarkProof, pvs: Seq<u64>, mode: WindowMode)
    requires
        whole_instance(w, inner, proof, pvs, mode),
    ensures
        plain_rounds(w.air),
        InlineBci.supports(w.air),
        w.air.s_cm_rounds() < 32,
        w.air.n_terms >= 1,
        w.air.s_ni() == w.air.n_queries,
        w.queries.len() == w.air.n_queries,
{
    lemma_dimensions(w.air, inner, proof, pvs, mode);
    w.air.lemma_bounds();
    vstd::arithmetic::power2::lemma_pow2_pos(inner.log_chunks as nat);
}

/// The selector columns fill the end of the row.
pub(super) proof fn lemma_selector_cells_len(
    air: MonolithAir,
    inner: InnerAir,
    proof: StarkProof,
    pvs: Seq<u64>,
    mode: WindowMode,
)
    requires
        proof_shaped(inner, proof, pvs, mode.cap_height as int),
        mode_fits(inner, pvs, mode),
        follows_inner(air, inner, proof, pvs, mode),
        air.wf(),
        mode.symbolic,
    ensures
        selector_cells(air, inner, proof, pvs, window_challenges(proof, pvs)).len() == 6 + 2 * air.s_n_fold_acc(),
        air.s_sel_base() + 6 + 2 * air.s_n_fold_acc() == air.s_fused_w(),
        air.s_n_fold_acc() >= 0,
{
    let chs = window_challenges(proof, pvs);
    let o = ood_openings(inner, proof, pvs, chs[1]);
    lemma_dimensions(air, inner, proof, pvs, mode);
    air.lemma_bounds();
    let n = air.s_n_fold_acc() as nat;
    if n > 0 {
        lemma_marks_at(inner.constraints@, o, chs[0], n, 1, 0);
    } else {
        assert(fold_marks(inner.constraints@, o, chs[0], 0).len() == 0);
    }
}

/// Every row of an instance holds its window, where it lives in columns, and the squares of the point.
#[verifier::rlimit(30)]
pub proof fn law_instance_holds_window(w: Instance, inner: InnerAir, proof: StarkProof, pvs: Seq<u64>, mode: WindowMode)
    requires
        whole_instance(w, inner, proof, pvs, mode),
    ensures
        window_held(w.air, w.cells, w.window),
        w.window.len() == w.air.s_pis_count(),
{
    let air = w.air;
    let chs = window_challenges(proof, pvs);
    law_window_layout(air, inner, proof, pvs, mode, chs, window_felts(proof, pvs));
    air.lemma_bounds();
    reveal(values_stand);
    if air.column_window {
        let f = air.s_fold_w();
        let n = air.s_cm_rounds() as nat;
        let vs = w.window + air.s_squares(chs[1], n);
        air.lemma_squares_len(chs[1], n);
        assert forall|r: int, i: int| 0 <= r < air.s_inst_h() && 0 <= i < air.s_pis_count() implies #[trigger] cell(
            w.cells,
            f,
            r,
            air.s_pw(i),
        ) == w.window[i] by {
            assert(cell(w.cells, f, r, air.s_pw_base() + i) == vs[i]);
        }
        assert forall|r: int, j: int| 0 <= r < air.s_inst_h() && 0 <= j < 2 * air.s_cm_rounds() implies #[trigger] cell(
            w.cells,
            f,
            r,
            air.s_sch(j),
        ) == cell(w.cells, f, 0, air.s_sch(j)) by {
            let i = air.s_pis_count() + j;
            assert(cell(w.cells, f, r, air.s_pw_base() + i) == vs[i]);
            assert(cell(w.cells, f, 0, air.s_pw_base() + i) == vs[i]);
        }
    }
}

} // verus!
