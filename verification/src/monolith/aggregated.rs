//! The aggregator is complete: where every inner proof is accepted, the trace over their instances satisfies the system
//! with the root of their statements.

use vstd::prelude::*;

use super::agreed::lemma_dimensions;
use super::aggregate::tile_cell;
use super::carried::{law_instance_carries, lemma_same_layout, rows_carried, same_instance};
use super::complete::{accepted, law_accepted_instance_satisfies};
use super::eval::InlineBci;
use super::grid::cell;
use super::instance::{law_instance_holds_window, lemma_instance_air, whole_instance, Instance};
use super::laid::{aggregate_stands, instance_stands, law_instances_stand, law_laid_root_folds};
use super::layout::MonolithAir;
use super::pairs::{
    instance_pairs, instance_rows, law_instance_pairs, lemma_columns_stand, lemma_instance_cell, row_pair, satisfied,
    shows_row,
};
use super::rooted::lemma_fold_place;
use super::satisfied::lemma_eval_parts;
use super::window::{law_window_layout, window_challenges, window_felts, InnerWindow, WindowMode};
use super::windowed::{instance_view, law_window_is_instance, whole_window};
use crate::fri::query::FriParams;
use crate::stark::verify::{InnerAir, StarkProof};
use crate::vanish::vanish;

verus! {

/// The cells of the instances.
pub open spec fn cells_of(ws: Seq<InnerWindow>) -> Seq<Seq<u64>> {
    Seq::new(ws.len(), |i: int| ws[i].cells@)
}

/// An aggregator over the instances of proofs: it has one per proof, and each was built for the verifier that it is
/// without the others.
pub open spec fn aggregates_all(
    air: MonolithAir,
    ws: Seq<InnerWindow>,
    inners: Seq<InnerAir>,
    proofs: Seq<StarkProof>,
    statements: Seq<Seq<u64>>,
    mode: WindowMode,
) -> bool {
    &&& air.aggregates()
    &&& air.eval_ok()
    &&& mode.column_window
    &&& ws.len() == air.k_instances
    &&& forall|i: int| 0 <= i < ws.len() ==> whole_window(#[trigger] ws[i], inners[i], proofs[i], statements[i], mode)
    &&& forall|i: int| 0 <= i < ws.len() ==> same_instance(air, (#[trigger] ws[i]).air)
}

/// The verifier of an instance on its own.
proof fn lemma_own_air(w: InnerWindow, inner: InnerAir, proof: StarkProof, pvs: Seq<u64>, mode: WindowMode)
    requires
        whole_window(w, inner, proof, pvs, mode),
    ensures
        w.air.k_instances == 1,
        !w.air.fold,
        w.air.buildable(),
        w.air.s_height() == w.air.s_inst_h(),
        w.cells@.len() == w.air.s_inst_h() * w.air.s_fused_w(),
        w.air.column_window == mode.column_window,
{
    reveal(super::window::is_window);
    assert(1 * w.air.s_inst_h() == w.air.s_inst_h());
}

/// The aggregator can be built where its instances can.
proof fn lemma_buildable(air: MonolithAir, s: MonolithAir)
    requires
        air.aggregates(),
        same_instance(air, s),
        s.buildable(),
        super::pairs::plain_rounds(s),
    ensures
        air.buildable(),
{
    lemma_same_layout(air, s);
    lemma_fold_place(air);
    assert(air.s_height() * air.s_fused_w() <= air.s_height() * air.s_fold_w()) by (nonlinear_arith)
        requires
            0 <= air.s_height(),
            air.s_fused_w() <= air.s_fold_w(),
    ;
}

/// Each instance stands in the trace of the aggregator as an instance of its proof.
#[verifier::spinoff_prover]
#[verifier::rlimit(60)]
proof fn lemma_instance_in_trace(
    air: MonolithAir,
    ws: Seq<InnerWindow>,
    inners: Seq<InnerAir>,
    proofs: Seq<StarkProof>,
    statements: Seq<Seq<u64>>,
    mode: WindowMode,
    i: int,
)
    requires
        aggregates_all(air, ws, inners, proofs, statements, mode),
        0 <= i < ws.len(),
    ensures
        ({
            let g = air.s_instances_laid(cells_of(ws), statements, air.k_instances as nat);
            let v = Instance {
                air,
                queries: ws[i].queries@,
                window: ws[i].window@,
                cells: instance_rows(air, g, i),
            };
            &&& g.len() == air.s_height() * air.s_fold_w()
            &&& instance_stands(air, g, cells_of(ws), statements, i)
            &&& whole_instance(v, inners[i], proofs[i], statements[i], mode)
        }),
{
    let insts = cells_of(ws);
    let g = air.s_instances_laid(insts, statements, air.k_instances as nat);
    let (w, s) = (ws[i], ws[i].air);
    let own = instance_rows(air, g, i);
    assert(whole_window(ws[i], inners[i], proofs[i], statements[i], mode));
    assert forall|j: int| 0 <= j < insts.len() implies (#[trigger] insts[j]).len() == air.s_inst_h() * air.s_fused_w() by {
        assert(whole_window(ws[j], inners[j], proofs[j], statements[j], mode));
        lemma_own_air(ws[j], inners[j], proofs[j], statements[j], mode);
        law_window_is_instance(ws[j], inners[j], proofs[j], statements[j], mode);
        lemma_instance_air(instance_view(ws[j]), inners[j], proofs[j], statements[j], mode);
        assert(same_instance(air, ws[j].air));
        lemma_same_layout(air, ws[j].air);
    }
    law_instances_stand(air, insts, statements, i);
    lemma_own_air(w, inners[i], proofs[i], statements[i], mode);
    law_window_is_instance(w, inners[i], proofs[i], statements[i], mode);
    lemma_instance_air(instance_view(w), inners[i], proofs[i], statements[i], mode);
    lemma_same_layout(air, s);
    lemma_buildable(air, s);
    lemma_fold_place(air);
    assert(rows_carried(air, own, s, w.cells@)) by {
        reveal(instance_stands);
        assert forall|r: int, c: int| 0 <= r < s.s_inst_h() && 0 <= c < s.s_fused_w() implies #[trigger] cell(
            own,
            air.s_fold_w(),
            r,
            c,
        ) == cell(w.cells@, s.s_fold_w(), r, c) by {
            lemma_instance_cell(air, g, i, r, c);
            assert(tile_cell(air, g, i, r, c) == insts[i][r * air.s_fused_w() + c]);
        }
    }
    law_instance_carries(instance_view(w), air, own, inners[i], proofs[i], statements[i], mode);
}

/// The trace of an aggregator stands, with its statements in the windows and their root.
#[verifier::spinoff_prover]
#[verifier::rlimit(60)]
proof fn lemma_aggregate_stands(
    air: MonolithAir,
    ws: Seq<InnerWindow>,
    inners: Seq<InnerAir>,
    proofs: Seq<StarkProof>,
    statements: Seq<Seq<u64>>,
    mode: WindowMode,
)
    requires
        aggregates_all(air, ws, inners, proofs, statements, mode),
    ensures
        aggregate_stands(
            air,
            air.s_instances_laid(cells_of(ws), statements, air.k_instances as nat),
            cells_of(ws),
            statements,
            air.s_fold_root(statements, air.k_instances as nat),
        ),
{
    let insts = cells_of(ws);
    let g = air.s_instances_laid(insts, statements, air.k_instances as nat);
    let e = choose|e: nat| air.k_instances == #[trigger] vstd::arithmetic::power2::pow2(e);
    vstd::arithmetic::power2::lemma_pow2_pos(e);
    lemma_instance_in_trace(air, ws, inners, proofs, statements, mode, 0);
    lemma_fold_place(air);
    assert forall|i: int| 0 <= i < air.k_instances implies #[trigger] instance_stands(air, g, insts, statements, i) by {
        lemma_instance_in_trace(air, ws, inners, proofs, statements, mode, i);
    }
    assert forall|i: int, r: int, c: int|
        0 <= i < air.k_instances && 0 <= r < air.s_inst_h() && 0 <= c < air.s_statement_len() implies #[trigger] tile_cell(
        air,
        g,
        i,
        r,
        air.s_pw(air.s_pub_pi() + c),
    ) == statements[i][c] by {
        lemma_statement_shown(air, ws, inners, proofs, statements, mode, i, r, c);
    }
    assert(air.column_window) by {
        assert(same_instance(air, ws[0].air));
        assert(whole_window(ws[0], inners[0], proofs[0], statements[0], mode));
        lemma_own_air(ws[0], inners[0], proofs[0], statements[0], mode);
    }
}

/// A felt of a statement in the window of its instance.
#[verifier::spinoff_prover]
#[verifier::rlimit(60)]
proof fn lemma_statement_shown(
    air: MonolithAir,
    ws: Seq<InnerWindow>,
    inners: Seq<InnerAir>,
    proofs: Seq<StarkProof>,
    statements: Seq<Seq<u64>>,
    mode: WindowMode,
    i: int,
    r: int,
    c: int,
)
    requires
        aggregates_all(air, ws, inners, proofs, statements, mode),
        0 <= i < ws.len(),
        0 <= r < air.s_inst_h(),
        0 <= c < air.s_statement_len(),
    ensures
        tile_cell(
            air,
            air.s_instances_laid(cells_of(ws), statements, air.k_instances as nat),
            i,
            r,
            air.s_pw(air.s_pub_pi() + c),
        ) == statements[i][c],
{
    let g = air.s_instances_laid(cells_of(ws), statements, air.k_instances as nat);
    let own = instance_rows(air, g, i);
    let v = Instance { air, queries: ws[i].queries@, window: ws[i].window@, cells: own };
    let (inner, proof, pvs) = (inners[i], proofs[i], statements[i]);
    lemma_instance_in_trace(air, ws, inners, proofs, statements, mode, i);
    lemma_dimensions(air, inner, proof, pvs, mode);
    law_instance_holds_window(v, inner, proof, pvs, mode);
    law_window_layout(air, inner, proof, pvs, mode, window_challenges(proof, pvs), window_felts(proof, pvs));
    air.lemma_bounds();
    lemma_fold_place(air);
    assert(c < pvs.len());
    let p = air.s_pub_pi() + c;
    assert(v.window[air.s_pub_pi() + c] == pvs[c]);
    assert(0 <= p < air.s_pis_count());
    assert(cell(own, air.s_fold_w(), r, air.s_pw(p)) == v.window[p]);
    lemma_instance_cell(air, g, i, r, air.s_pw(p));
}

/// The aggregator is complete: where the verification accepts every inner proof, every row pair of the trace over their
/// instances makes every constraint of the system vanish, with the root over their statements as the public values.
#[verifier::spinoff_prover]
#[verifier::rlimit(60)]
pub proof fn law_aggregate_satisfies(
    params: FriParams,
    air: MonolithAir,
    ws: Seq<InnerWindow>,
    inners: Seq<InnerAir>,
    proofs: Seq<StarkProof>,
    statements: Seq<Seq<u64>>,
    mode: WindowMode,
)
    requires
        aggregates_all(air, ws, inners, proofs, statements, mode),
        forall|i: int| 0 <= i < ws.len() ==> accepted(params, inners[i], #[trigger] proofs[i], statements[i], mode),
    ensures
        satisfied(
            InlineBci,
            air,
            air.s_instances_laid(cells_of(ws), statements, air.k_instances as nat),
            air.s_fold_root(statements, air.k_instances as nat),
        ),
{
    let insts = cells_of(ws);
    let g = air.s_instances_laid(insts, statements, air.k_instances as nat);
    let root = air.s_fold_root(statements, air.k_instances as nat);
    let h = air.s_inst_h();
    lemma_aggregate_stands(air, ws, inners, proofs, statements, mode);
    lemma_columns_stand(air);
    assert forall|row: int| 0 <= row < air.s_height() implies vanish(
        air.s_eval(InlineBci),
        #[trigger] row_pair(air, g, root, row),
    ) by {
        let (i, r) = (row / h, row % h);
        vstd::arithmetic::div_mod::lemma_fundamental_div_mod(row, h);
        vstd::arithmetic::div_mod::lemma_mod_bound(row, h);
        assert(0 <= i < air.k_instances && row == i * h + r) by (nonlinear_arith)
            requires
                row == h * i + r,
                0 <= r < h,
                0 <= row < air.k_instances * h,
        ;
        lemma_aggregate_row(params, air, ws, inners, proofs, statements, mode, i, r);
    }
    reveal(satisfied);
}

/// One row of one instance of an aggregator.
#[verifier::spinoff_prover]
#[verifier::rlimit(60)]
proof fn lemma_aggregate_row(
    params: FriParams,
    air: MonolithAir,
    ws: Seq<InnerWindow>,
    inners: Seq<InnerAir>,
    proofs: Seq<StarkProof>,
    statements: Seq<Seq<u64>>,
    mode: WindowMode,
    i: int,
    r: int,
)
    requires
        aggregates_all(air, ws, inners, proofs, statements, mode),
        forall|j: int| 0 <= j < ws.len() ==> accepted(params, inners[j], #[trigger] proofs[j], statements[j], mode),
        0 <= i < air.k_instances,
        0 <= r < air.s_inst_h(),
    ensures
        vanish(
            air.s_eval(InlineBci),
            row_pair(
                air,
                air.s_instances_laid(cells_of(ws), statements, air.k_instances as nat),
                air.s_fold_root(statements, air.k_instances as nat),
                i * air.s_inst_h() + r,
            ),
        ),
{
    let insts = cells_of(ws);
    let g = air.s_instances_laid(insts, statements, air.k_instances as nat);
    let root = air.s_fold_root(statements, air.k_instances as nat);
    let own = instance_rows(air, g, i);
    let v = Instance { air, queries: ws[i].queries@, window: ws[i].window@, cells: own };
    let wins = instance_pairs(air, g, root, i);
    lemma_instance_in_trace(air, ws, inners, proofs, statements, mode, i);
    assert forall|q: int| 0 <= q < air.s_inst_h() implies shows_row(air, own, #[trigger] wins(q), q)
        && (!mode.column_window ==> wins(q).publics == v.window) by {
        law_instance_pairs(air, g, root, i, q);
    }
    assert(accepted(params, inners[i], proofs[i], statements[i], mode));
    law_accepted_instance_satisfies(params, v, inners[i], proofs[i], statements[i], mode, wins, r);
    lemma_aggregate_stands(air, ws, inners, proofs, statements, mode);
    law_laid_root_folds(air, g, insts, statements, root, i, r);
    lemma_eval_parts(air, row_pair(air, g, root, i * air.s_inst_h() + r));
}

} // verus!
