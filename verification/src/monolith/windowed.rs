//! What the window of a proof holds is an instance as a whole.

use vstd::arithmetic::power2::pow2;
use vstd::prelude::*;

use super::agreed::lemma_dimensions;
use super::eval::{InlineBci, MonolithBci};
use super::grid::{cell, held};
use super::heads::head_written;
use super::instance::{lemma_selector_cells_len, selectors_stand, values_stand, whole_instance, Instance};
use super::layout::{MonolithAir, QT_DBITS};
use super::pairs::{lemma_columns_stand, plain_rounds};
use super::reading::{lemma_held_cell, lemma_in_rows, row_at};
use super::region::{region_holds, rows_are_eight};
use super::tiles::{law_built_trace, sides_are_bits, tile_built, trace_built};
use super::trace::{chain_cells, QueryData};
use super::window::{
    is_query, is_window, is_window_air, law_window_layout, mode_fits, proof_shaped, selector_cells, window_challenges,
    window_felts, window_values, InnerWindow, WindowMode,
};
use crate::field::{f_red, x_red, Ext};
use crate::gadgets::fold::coords;
use crate::schedule::run;
use crate::stark::replay::stark_program;
use crate::stark::verify::{InnerAir, StarkProof};
use crate::vanish::pair_at;

verus! {

/// The instance of a shaped proof, with nothing left out of its constraints.
pub open spec fn whole_window(w: InnerWindow, inner: InnerAir, proof: StarkProof, pvs: Seq<u64>, mode: WindowMode) -> bool {
    &&& proof_shaped(inner, proof, pvs, mode.cap_height as int)
    &&& mode_fits(inner, pvs, mode)
    &&& is_window(w, inner, proof, pvs, mode)
    &&& !mode.narrow_arith
    &&& !mode.narrow_openings
    &&& !mode.narrow_caps
}

/// What an instance is, but for its trace.
proof fn lemma_window_parts(w: InnerWindow, inner: InnerAir, proof: StarkProof, pvs: Seq<u64>, mode: WindowMode)
    requires
        is_window(w, inner, proof, pvs, mode),
    ensures
        ({
            let chs = window_challenges(proof, pvs);
            let felts = window_felts(proof, pvs);
            let r = run(stark_program(proof, pvs));
            &&& is_window_air(w.air, inner, proof, pvs, mode)
            &&& w.air.buildable()
            &&& w.air.counts@ == r.sim.counts
            &&& forall|j: int| 0 <= j < w.air.binds@.len() ==> #[trigger] w.air.binds@[j] == r.squeezes[2 * j].block
            &&& forall|k: int|
                0 <= k < w.air.index_binds@.len() ==> {
                    let s = r.squeezes[2 * (3 + proof.opening.commits@.len()) + 1 + k];
                    (#[trigger] w.air.index_binds@[k]).0 == s.block && w.air.index_binds@[k].1 == s.lane
                }
            &&& w.queries@.len() == proof.opening.queries@.len()
            &&& forall|q: int|
                0 <= q < w.queries@.len() ==> is_query(#[trigger] w.queries@[q], inner, proof, chs, felts[q], q)
            &&& forall|q: int| 0 <= q < w.queries@.len() ==> w.air.query_inverts(#[trigger] w.queries@[q])
            &&& w.window@ == window_values(inner, proof, pvs, mode, chs, felts)
        }),
{
    reveal(is_window);
}

/// The cells that a trace holds over every row: the window and the squares of the point.
#[verifier::spinoff_prover]
#[verifier::rlimit(40)]
proof fn lemma_window_cell(
    air: MonolithAir,
    blocks: Seq<Seq<u64>>,
    qs: Seq<QueryData>,
    alpha: Ext,
    window: Seq<u64>,
    r: int,
    i: int,
)
    requires
        air.lays_out(blocks, qs, window),
        rows_are_eight(air, blocks),
        air.column_window,
        0 <= r < air.s_height(),
        0 <= i < air.s_pis_count() + 2 * air.s_cm_rounds(),
    ensures
        ({
            let z = 2 * air.s_nlc() + 2;
            let zeta = Ext { c0: window[z], c1: window[z + 1] };
            let vs = window + air.s_squares(zeta, air.s_cm_rounds() as nat);
            cell(air.s_trace(blocks, qs, alpha, window), air.s_fused_w(), r, air.s_pw_base() + i) == vs[i]
        }),
        air.s_trace(blocks, qs, alpha, window).len() == air.s_height() * air.s_fused_w(),
{
    let (h, w) = (air.s_height(), air.s_fused_w());
    let g0 = Seq::new((h * w) as nat, |k: int| 0u64);
    let g1 = air.s_transcript_written(g0, w, blocks, air.s_tr() as nat);
    let g2 = air.s_tiles_written(g1, w, qs, qs.len());
    let g3 = held(g2, w, 0, h as nat, air.s_carry(), coords(alpha));
    let c = air.s_pw_base() + i;
    air.lemma_bounds();
    air.lemma_terms();
    assert(0 <= qs.len() * air.s_m_period()) by (nonlinear_arith)
        requires
            0 <= air.s_m_period(),
    ;
    lemma_in_rows(h, w, r, c);
    air.lemma_transcript_cell(g0, w, blocks, air.s_tr() as nat, r, c);
    air.lemma_tiles_len(g1, w, qs, qs.len());
    lemma_held_cell(g2, w, 0, h as nat, air.s_carry(), coords(alpha), r, c);
    let z = 2 * air.s_nlc() + 2;
    let zeta = Ext { c0: window[z], c1: window[z + 1] };
    let vs = window + air.s_squares(zeta, air.s_cm_rounds() as nat);
    air.lemma_squares_len(zeta, air.s_cm_rounds() as nat);
    lemma_held_cell(g3, w, 0, h as nat, air.s_pw_base(), vs, r, c);
}

/// The trace of an instance is laid out.
#[verifier::rlimit(30)]
proof fn lemma_laid_out(w: InnerWindow, inner: InnerAir, proof: StarkProof, pvs: Seq<u64>, mode: WindowMode)
    requires
        whole_window(w, inner, proof, pvs, mode),
    ensures
        w.air.lays_out(run(stark_program(proof, pvs)).sim.blocks, w.queries@, w.window@),
        rows_are_eight(w.air, run(stark_program(proof, pvs)).sim.blocks),
        w.window@.len() == w.air.s_pis_count(),
        w.air.s_height() == w.air.s_inst_h(),
{
    let air = w.air;
    let blocks = run(stark_program(proof, pvs)).sim.blocks;
    let chs = window_challenges(proof, pvs);
    let trace = air.s_trace(blocks, w.queries@, chs[2], w.window@);
    reveal(is_window);
    law_window_layout(air, inner, proof, pvs, mode, chs, window_felts(proof, pvs));
    law_built_trace(air, trace, blocks, w.queries@, chs[2]);
    air.lemma_bounds();
    air.lemma_terms();
    assert(1 * air.s_inst_h() == air.s_inst_h());
    let (h, f) = (air.s_height(), air.s_fused_w());
    let g0 = Seq::new((h * f) as nat, |k: int| 0u64);
    crate::bits::lemma_next_pow2(air.counts@.len());
    assert(0 < h);
    lemma_in_rows(h, f, 0, 0);
    air.lemma_transcript_cell(g0, f, blocks, air.s_tr() as nat, 0, 0);
    assert forall|k: int| 0 <= k < w.queries@.len() implies air.query_fits(#[trigger] w.queries@[k]) && air.carriers_fill(
        w.queries@[k],
    ) by {
        assert(super::tiles::tile_built(air, trace, air.s_tile(k), w.queries@[k]));
    }
}

/// Two traces that agree on the columns before the selectors.
spec fn same_front(air: MonolithAir, g: Seq<u64>, g2: Seq<u64>) -> bool {
    forall|r: int, c: int|
        0 <= r < air.s_inst_h() && 0 <= c < air.s_sel_base() ==> #[trigger] cell(g2, air.s_fold_w(), r, c) == cell(
            g,
            air.s_fold_w(),
            r,
            c,
        )
}

/// A super-tile does not depend on the selector columns.
#[verifier::spinoff_prover]
#[verifier::rlimit(60)]
proof fn lemma_tile_kept(air: MonolithAir, g: Seq<u64>, g2: Seq<u64>, row: int, q: QueryData)
    requires
        air.buildable(),
        plain_rounds(air),
        same_front(air, g, g2),
        tile_built(air, g, row, q),
        0 <= row,
        row + air.s_m_period() <= air.s_inst_h(),
        air.s_cm_rounds() < 32,
    ensures
        tile_built(air, g2, row, q),
{
    let w = air.s_fold_w();
    air.lemma_bounds();
    air.lemma_terms();
    air.lemma_openings_fit();
    air.lemma_period_covers_rounds();
    super::tiles::lemma_carried(air, g, row, q, 0, 0);
    assert(super::blocks::same_low(air, g, g2, row));
    super::blocks::lemma_openings_same(air, g, g2, row, q);
    let cells = air.s_head_cells(q);
    assert(QT_DBITS + cells.len() <= air.s_idx_rem() + 1) by {
        air.lemma_terms_len(
            q.terms@,
            super::trace::deep_point(q.index as nat, air.s_lg() as nat),
            q.alpha,
            q.terms@.len(),
        );
    }
    let (a, b) = (row_at(g, w, row), row_at(g2, w, row));
    assert forall|c: int| 0 <= c < air.s_sel_base() implies #[trigger] b[c] == a[c] by {
        assert(cell(g2, w, row, c) == cell(g, w, row, c));
    }
    assert(head_written(air, b, q)) by {
        assert forall|i: int| 0 <= i < cells.len() implies b[QT_DBITS + i] == #[trigger] cells[i] by {
            assert(a[QT_DBITS + i] == cells[i]);
            assert(b[QT_DBITS + i] == a[QT_DBITS + i]);
        }
        assert(b[air.s_idx_rem()] == a[air.s_idx_rem()]);
    }
    let carriers = air.s_carrier_cells(q);
    assert forall|r: int, c: int|
        0 <= r <= air.s_cm_rounds() && r < 32 && 0 <= c < chain_cells(q.ro, q.rounds@, r as nat).len() implies #[trigger] cell(
        g2,
        w,
        row + r,
        c,
    ) == chain_cells(q.ro, q.rounds@, r as nat)[c] by {
        super::reading::lemma_chain_len(q.ro, q.rounds@, r as nat);
        assert(cell(g, w, row + r, c) == chain_cells(q.ro, q.rounds@, r as nat)[c]);
    }
    let v = f_red(q.felt as int) as nat;
    assert forall|r: int| 0 <= r < air.s_nb() - 2 implies #[trigger] cell(g2, w, row + r, air.s_idx_rem()) == (v % pow2(
        air.s_lg() as nat,
    )) / pow2(r as nat) by {
        assert(cell(g, w, row + r, air.s_idx_rem()) == (v % pow2(air.s_lg() as nat)) / pow2(r as nat));
    }
    assert forall|r: int, i: int| 0 <= r < air.s_m_period() && 0 <= i < carriers.len() implies #[trigger] cell(
        g2,
        w,
        row + r,
        air.s_ov() + i,
    ) == carriers[i] by {
        assert(cell(g, w, row + r, air.s_ov() + i) == carriers[i]);
    }
}

/// The trace with the selector columns filled is built as the one without.
#[verifier::spinoff_prover]
#[verifier::rlimit(60)]
proof fn lemma_built_kept(
    air: MonolithAir,
    g: Seq<u64>,
    g2: Seq<u64>,
    blocks: Seq<Seq<u64>>,
    qs: Seq<QueryData>,
    alpha: Ext,
)
    requires
        air.buildable(),
        plain_rounds(air),
        same_front(air, g, g2),
        trace_built(air, g, blocks, qs, alpha),
        qs.len() == air.n_queries,
        air.s_cm_rounds() < 32,
    ensures
        trace_built(air, g2, blocks, qs, alpha),
{
    let w = air.s_fold_w();
    air.lemma_bounds();
    air.lemma_terms();
    lemma_columns_stand(air);
    law_built_trace(air, g, blocks, qs, alpha);
    assert(region_holds(air, g2, blocks)) by {
        assert forall|r: int, c: int| 0 <= r < air.s_tr() && 0 <= c < 8 implies #[trigger] cell(g2, w, r, c)
            == super::trace::transcript_row(blocks, r)[c] by {
            assert(cell(g, w, r, c) == super::trace::transcript_row(blocks, r)[c]);
        }
    }
    assert forall|q: int| 0 <= q < qs.len() implies tile_built(air, g2, air.s_tile(q), #[trigger] qs[q]) by {
        air.lemma_tile_fits(q);
        assert(tile_built(air, g, air.s_tile(q), qs[q]));
        lemma_tile_kept(air, g, g2, air.s_tile(q), qs[q]);
    }
    assert forall|r: int| 0 <= r < air.s_inst_h() implies pair_at(#[trigger] row_at(g2, w, r), air.s_carry()) == x_red(
        alpha,
    ) by {
        assert(pair_at(row_at(g, w, r), air.s_carry()) == x_red(alpha));
        assert(cell(g2, w, r, air.s_carry()) == cell(g, w, r, air.s_carry()));
        assert(cell(g2, w, r, air.s_carry() + 1) == cell(g, w, r, air.s_carry() + 1));
    }
    assert(sides_are_bits(air, g2, qs));
    reveal(trace_built);
}

/// The verifier of a whole instance can be evaluated.
proof fn lemma_window_air_ok(w: InnerWindow, inner: InnerAir, proof: StarkProof, pvs: Seq<u64>, mode: WindowMode)
    requires
        whole_window(w, inner, proof, pvs, mode),
    ensures
        w.air.eval_ok(),
        w.air.buildable(),
        plain_rounds(w.air),
        InlineBci.supports(w.air),
        w.air.s_cm_rounds() < 32,
        w.air.n_terms >= 1,
        w.air.s_ni() == w.air.n_queries,
        w.queries@.len() == w.air.n_queries,
{
    let air = w.air;
    lemma_window_parts(w, inner, proof, pvs, mode);
    lemma_dimensions(air, inner, proof, pvs, mode);
    air.lemma_bounds();
    vstd::arithmetic::power2::lemma_pow2_pos(inner.log_chunks as nat);
    assert(air.trees_ok()) by {
        if !mode.symbolic {
            vstd::arithmetic::power2::lemma2_to64();
        }
    }
}

/// A laid-out trace has all its cells.
#[verifier::rlimit(30)]
proof fn lemma_trace_len(air: MonolithAir, blocks: Seq<Seq<u64>>, qs: Seq<QueryData>, alpha: Ext, window: Seq<u64>)
    requires
        air.lays_out(blocks, qs, window),
        rows_are_eight(air, blocks),
        0 < air.s_height(),
    ensures
        air.s_trace(blocks, qs, alpha, window).len() == air.s_height() * air.s_fused_w(),
{
    let (h, w) = (air.s_height(), air.s_fused_w());
    let g0 = Seq::new((h * w) as nat, |k: int| 0u64);
    let g1 = air.s_transcript_written(g0, w, blocks, air.s_tr() as nat);
    let g2 = air.s_tiles_written(g1, w, qs, qs.len());
    let g3 = held(g2, w, 0, h as nat, air.s_carry(), coords(alpha));
    air.lemma_bounds();
    air.lemma_terms();
    lemma_in_rows(h, w, 0, 0);
    air.lemma_transcript_cell(g0, w, blocks, air.s_tr() as nat, 0, 0);
    air.lemma_tiles_len(g1, w, qs, qs.len());
    lemma_held_cell(g2, w, 0, h as nat, air.s_carry(), coords(alpha), 0, 0);
    if air.column_window {
        let z = 2 * air.s_nlc() + 2;
        let zeta = Ext { c0: window[z], c1: window[z + 1] };
        let vs = window + air.s_squares(zeta, air.s_cm_rounds() as nat);
        air.lemma_squares_len(zeta, air.s_cm_rounds() as nat);
        lemma_held_cell(g3, w, 0, h as nat, air.s_pw_base(), vs, 0, 0);
    }
}

/// A cell of an instance: of the trace, or of the selector columns.
#[verifier::spinoff_prover]
#[verifier::rlimit(40)]
proof fn lemma_cell(w: InnerWindow, inner: InnerAir, proof: StarkProof, pvs: Seq<u64>, mode: WindowMode, r: int, c: int)
    requires
        whole_window(w, inner, proof, pvs, mode),
        0 <= r < w.air.s_height(),
        0 <= c < w.air.s_fused_w(),
    ensures
        ({
            let chs = window_challenges(proof, pvs);
            let blocks = run(stark_program(proof, pvs)).sim.blocks;
            let trace = w.air.s_trace(blocks, w.queries@, chs[2], w.window@);
            &&& c < w.air.s_sel_base() || !mode.symbolic ==> cell(w.cells@, w.air.s_fused_w(), r, c) == cell(
                trace,
                w.air.s_fused_w(),
                r,
                c,
            )
            &&& c >= w.air.s_sel_base() && mode.symbolic ==> cell(w.cells@, w.air.s_fused_w(), r, c) == selector_cells(
                w.air,
                inner,
                proof,
                pvs,
                chs,
            )[c - w.air.s_sel_base()]
        }),
{
    let air = w.air;
    let chs = window_challenges(proof, pvs);
    let blocks = run(stark_program(proof, pvs)).sim.blocks;
    let trace = air.s_trace(blocks, w.queries@, chs[2], w.window@);
    let (h, f) = (air.s_height(), air.s_fused_w());
    lemma_laid_out(w, inner, proof, pvs, mode);
    lemma_trace_len(air, blocks, w.queries@, chs[2], w.window@);
    air.lemma_bounds();
    lemma_in_rows(h, f, r, c);
    reveal(is_window);
    if mode.symbolic {
        lemma_selector_cells_len(air, inner, proof, pvs, mode);
        let vs = selector_cells(air, inner, proof, pvs, chs);
        lemma_held_cell(trace, f, 0, h as nat, air.s_sel_base(), vs, r, c);
    }
}

/// The trace of an instance is built.
#[verifier::spinoff_prover]
#[verifier::rlimit(60)]
proof fn lemma_window_built(w: InnerWindow, inner: InnerAir, proof: StarkProof, pvs: Seq<u64>, mode: WindowMode)
    requires
        whole_window(w, inner, proof, pvs, mode),
    ensures
        trace_built(
            w.air,
            w.cells@,
            run(stark_program(proof, pvs)).sim.blocks,
            w.queries@,
            window_challenges(proof, pvs)[2],
        ),
{
    let air = w.air;
    let chs = window_challenges(proof, pvs);
    let blocks = run(stark_program(proof, pvs)).sim.blocks;
    let trace = air.s_trace(blocks, w.queries@, chs[2], w.window@);
    lemma_window_air_ok(w, inner, proof, pvs, mode);
    lemma_laid_out(w, inner, proof, pvs, mode);
    lemma_window_parts(w, inner, proof, pvs, mode);
    air.lemma_bounds();
    assert(trace_built(air, trace, blocks, w.queries@, chs[2])) by {
        reveal(is_window);
    }
    assert forall|r: int, c: int| 0 <= r < air.s_inst_h() && 0 <= c < air.s_sel_base() implies #[trigger] cell(
        w.cells@,
        air.s_fold_w(),
        r,
        c,
    ) == cell(trace, air.s_fold_w(), r, c) by {
        lemma_cell(w, inner, proof, pvs, mode, r, c);
    }
    assert(same_front(air, trace, w.cells@));
    lemma_built_kept(air, trace, w.cells@, blocks, w.queries@, chs[2]);
}

/// A cell of the window, or of the squares behind it, in any row of an instance.
#[verifier::rlimit(30)]
proof fn lemma_shown_cell(w: InnerWindow, inner: InnerAir, proof: StarkProof, pvs: Seq<u64>, mode: WindowMode, r: int, i: int)
    requires
        whole_window(w, inner, proof, pvs, mode),
        mode.column_window,
        0 <= r < w.air.s_height(),
        0 <= i < w.air.s_pis_count() + 2 * w.air.s_cm_rounds(),
    ensures
        ({
            let zeta = window_challenges(proof, pvs)[1];
            let vs = w.window@ + w.air.s_squares(zeta, w.air.s_cm_rounds() as nat);
            cell(w.cells@, w.air.s_fused_w(), r, w.air.s_pw_base() + i) == vs[i]
        }),
        w.window@.len() == w.air.s_pis_count(),
{
    let air = w.air;
    let chs = window_challenges(proof, pvs);
    let blocks = run(stark_program(proof, pvs)).sim.blocks;
    lemma_window_parts(w, inner, proof, pvs, mode);
    lemma_dimensions(air, inner, proof, pvs, mode);
    lemma_laid_out(w, inner, proof, pvs, mode);
    air.lemma_bounds();
    lemma_window_cell(air, blocks, w.queries@, chs[2], w.window@, r, i);
    lemma_cell(w, inner, proof, pvs, mode, r, air.s_pw_base() + i);
    law_window_layout(air, inner, proof, pvs, mode, chs, window_felts(proof, pvs));
    assert(w.window@[2 * 1int] == chs[1].c0 && w.window@[2 * 1int + 1] == chs[1].c1);
    assert(Ext { c0: w.window@[2], c1: w.window@[3] } == chs[1]);
}

/// The view of an instance that was built.
pub open spec fn instance_view(w: InnerWindow) -> Instance {
    Instance { air: w.air, queries: w.queries@, window: w.window@, cells: w.cells@ }
}

/// The instance that is built for a proof is an instance of it as a whole.
#[verifier::spinoff_prover]
#[verifier::rlimit(60)]
pub proof fn law_window_is_instance(w: InnerWindow, inner: InnerAir, proof: StarkProof, pvs: Seq<u64>, mode: WindowMode)
    requires
        whole_window(w, inner, proof, pvs, mode),
    ensures
        whole_instance(instance_view(w), inner, proof, pvs, mode),
{
    let v = instance_view(w);
    let air = w.air;
    let chs = window_challenges(proof, pvs);
    lemma_window_parts(w, inner, proof, pvs, mode);
    lemma_window_air_ok(w, inner, proof, pvs, mode);
    lemma_window_built(w, inner, proof, pvs, mode);
    lemma_laid_out(w, inner, proof, pvs, mode);
    air.lemma_bounds();
    assert(values_stand(v, proof, pvs)) by {
        reveal(values_stand);
        if air.column_window {
            let vs = w.window@ + air.s_squares(chs[1], air.s_cm_rounds() as nat);
            assert forall|r: int, i: int|
                0 <= r < air.s_inst_h() && 0 <= i < air.s_pis_count() + 2 * air.s_cm_rounds() implies #[trigger] cell(
                v.cells,
                air.s_fold_w(),
                r,
                air.s_pw_base() + i,
            ) == vs[i] by {
                lemma_shown_cell(w, inner, proof, pvs, mode, r, i);
            }
        }
    }
    if mode.symbolic {
        lemma_selector_cells_len(air, inner, proof, pvs, mode);
        let vs = selector_cells(air, inner, proof, pvs, chs);
        assert(selectors_stand(v, inner, proof, pvs)) by {
            reveal(selectors_stand);
            assert forall|r: int, i: int| 0 <= r < air.s_inst_h() && 0 <= i < vs.len() implies #[trigger] cell(
                v.cells,
                air.s_fold_w(),
                r,
                air.s_sel_base() + i,
            ) == vs[i] by {
                lemma_cell(w, inner, proof, pvs, mode, r, air.s_sel_base() + i);
            }
        }
        assert(super::window::last_row_selected(chs[1], proof.degree_bits as nat)) by {
            reveal(is_window);
        }
    }
}

} // verus!
