//! The instance of every accepted proof satisfies the constraint system of the fused verifier.

use vstd::prelude::*;

use super::accepted::{law_accepted_queries_open, params_follow};
use super::agreed::{entries_shared, law_query_agrees, lemma_dimensions, lemma_query_terms};
use super::eval::InlineBci;
use super::grid::cell;
use super::heads::head_written;
use super::index::at_head;
use super::instance::{
    law_instance_holds_window, lemma_index_agrees, lemma_instance_air, lemma_selector_cells_len, lemma_transcript_agrees,
    selectors_stand, values_stand, whole_instance, Instance,
};
use super::layout::FOLD_CHUNK;
use super::meaning::lemma_pair_cells;
use super::ood::{
    lemma_built_column, lemma_built_opening, lemma_built_points, lemma_built_quotient, lemma_built_selectors,
    lemma_built_squares, lemma_built_trees, lemma_marks_at,
};
use super::pairs::{
    instance_pairs, instance_rows, law_instance_pairs, lemma_columns_stand, row_pair, satisfied, shows_row,
};
use super::places::lemma_more_selectors;
use super::satisfied::{
    instance_agrees, instance_wires, law_built_satisfies, law_row_reads_window, lemma_eval_parts,
};
use super::tiles::{law_built_trace, tile_built};
use super::tops::reads_window;
use super::window::{
    fold_marks, fold_matches, is_query, law_window_is_verification, law_window_layout, selector_cells,
    window_challenges, window_felts, InnerWindow, WindowMode,
};
use super::windowed::{instance_view, law_window_is_instance, whole_window};
use crate::expr::{value, value2, w2, w2_cur, w_const, Window, Wire};
use crate::field::{f_red, lemma_x_mul_red, x_add, x_base, x_mul, x_one, x_red, x_same, x_sub, x_zero, Ext};
use crate::fri::merkle::contents;
use crate::fri::query::FriParams;
use crate::gadgets::fold::coords;
use crate::schedule::run;
use crate::stark::domain::{chunk_weight, chunk_weights, next_point, selectors, vanishing};
use crate::stark::replay::stark_program;
use crate::stark::verify::{
    column_constraints, columns_at, folded_constraints, ood_openings, quotient_value, stark_error, InnerAir, StarkProof,
};
use crate::symbolic::{carries, native_value, NativeView};
use crate::vanish::{lemma_const_value, lemma_vanish_parts, pair_at, vanish};

verus! {

/// How much a single column grows by.
pub open spec fn column_step(mode: WindowMode) -> u64 {
    if mode.inner_counter {
        1
    } else {
        0
    }
}

/// A window over the head row of a query's super-tile.
spec fn head_window(w: Instance, win: Window, t: int) -> bool {
    &&& shows_row(w.air, w.cells, win, w.air.s_tile(t))
    &&& !w.air.column_window ==> win.publics == w.window
}

/// What stands on a head row of an instance.
#[verifier::spinoff_prover]
#[verifier::rlimit(60)]
proof fn lemma_head_row(
    w: Instance,
    inner: InnerAir,
    proof: StarkProof,
    pvs: Seq<u64>,
    mode: WindowMode,
    win: Window,
    t: int,
)
    requires
        whole_instance(w, inner, proof, pvs, mode),
        head_window(w, win, t),
        0 <= t < w.queries.len(),
    ensures
        ({
                    let chs = window_challenges(proof, pvs);
            &&& at_head(w.air, win)
            &&& reads_window(w.air, win, w.window)
            &&& head_written(w.air, win.cur, w.queries[t])
            &&& w.queries[t].terms@.len() == w.air.n_terms
            &&& pair_at(w.window, 2) == x_red(chs[1])
            &&& pair_at(w.window, 0) == x_red(chs[0])
            &&& mode.column_window ==> forall|j: int|
                0 <= j < 2 * w.air.s_cm_rounds() ==> win.cur[#[trigger] w.air.s_sch(j)] == w.air.s_squares(
                    chs[1],
                    w.air.s_cm_rounds() as nat,
                )[j]
            &&& 0 <= w.air.s_tile(t) < w.air.s_inst_h()
        }),
{
    let air = w.air;
    let chs = window_challenges(proof, pvs);
    let blocks = run(stark_program(proof, pvs)).sim.blocks;
    lemma_instance_air(w, inner, proof, pvs, mode);
    law_instance_holds_window(w, inner, proof, pvs, mode);
    law_built_trace(air, w.cells, blocks, w.queries, chs[2]);
    law_window_layout(air, inner, proof, pvs, mode, chs, window_felts(proof, pvs));
    lemma_columns_stand(air);
    air.lemma_bounds();
    air.lemma_openings_fit();
    air.lemma_tile_fits(t);
    assert(tile_built(air, w.cells, air.s_tile(t), w.queries[t]));
    assert(air.s_tile(t) + 0 == air.s_tile(t));
    lemma_more_selectors(air, win, t, 0);
    law_row_reads_window(air, w.cells, w.window, win, air.s_tile(t));
    assert(w.window[2 * 0int] == chs[0].c0 && w.window[2 * 0int + 1] == chs[0].c1);
    assert(w.window[2 * 1int] == chs[1].c0 && w.window[2 * 1int + 1] == chs[1].c1);
    if mode.column_window {
        assert forall|j: int| 0 <= j < 2 * air.s_cm_rounds() implies win.cur[#[trigger] air.s_sch(j)] == air.s_squares(
            chs[1],
            air.s_cm_rounds() as nat,
        )[j] by {
            let squares = air.s_squares(chs[1], air.s_cm_rounds() as nat);
            air.lemma_squares_len(chs[1], air.s_cm_rounds() as nat);
            reveal(values_stand);
            let i = air.s_pis_count() + j;
            assert((w.window + squares)[i] == squares[j]);
            assert(cell(w.cells, air.s_fold_w(), air.s_tile(t), air.s_pw_base() + i) == (w.window + squares)[i]);
            assert(air.s_sch(j) == air.s_pw_base() + i);
        }
    }
}

/// The weight of a lone chunk is one.
pub(super) proof fn lemma_lone_weight(zeta: Ext, n: nat)
    ensures
        chunk_weights(zeta, n, 0).len() == 1,
        chunk_weights(zeta, n, 0)[0] == x_one(),
{
    vstd::arithmetic::power2::lemma2_to64();
    reveal_with_fuel(chunk_weight, 2);
}

/// The quotient on a head row is the proof's.
#[verifier::spinoff_prover]
#[verifier::rlimit(60)]
proof fn lemma_head_quotient(
    w: Instance,
    inner: InnerAir,
    proof: StarkProof,
    pvs: Seq<u64>,
    mode: WindowMode,
    win: Window,
    t: int,
)
    requires
        whole_instance(w, inner, proof, pvs, mode),
        head_window(w, win, t),
        0 <= t < w.queries.len(),
    ensures
        value2(w.air.s_quotient(w.air.s_nqc()), win) == quotient_value(
            inner,
            proof,
            window_challenges(proof, pvs)[1],
        ),
{
    let air = w.air;
    let chs = window_challenges(proof, pvs);
    let d = w.queries[t];
    let n = proof.quotient_chunks@.len();
    let weights = chunk_weights(chs[1], proof.degree_bits as nat, inner.log_chunks as nat);
    lemma_dimensions(air, inner, proof, pvs, mode);
    lemma_head_row(w, inner, proof, pvs, mode, win, t);
    lemma_query_terms(inner, proof, pvs, mode.cap_height as int, chs, t);
    law_window_layout(air, inner, proof, pvs, mode, chs, window_felts(proof, pvs));
    assert(is_query(d, inner, proof, chs, window_felts(proof, pvs)[t], t));
    assert forall|i: int, j: int| 0 <= i < n && 0 <= j < 2 implies (#[trigger] d.terms@[air.s_trm_quot(i, j)]).pz
        == proof.quotient_chunks@[i]@[j] by {
        assert(air.s_trm_quot(i, j) == 2 * inner.width + (2 * i + j));
        assert(d.terms@[2 * inner.width + (2 * i + j)].pz == proof.quotient_chunks@[i]@[j]);
    }
    if n > 1 {
        vstd::arithmetic::power2::lemma2_to64();
        assert(mode.symbolic);
        assert forall|i: int| 0 <= i < weights.len() implies pair_at(w.window, air.s_qwt_base() + 2 * i) == x_red(
            #[trigger] weights[i],
        ) by {
            assert(w.window[air.s_qwt_base() + 2 * i] == weights[i].c0);
        }
    } else {
        assert(inner.log_chunks == 0) by {
            if inner.log_chunks > 0 {
                vstd::arithmetic::power2::lemma_pow2_unfold(inner.log_chunks as nat);
                vstd::arithmetic::power2::lemma_pow2_pos((inner.log_chunks - 1) as nat);
            }
        }
        lemma_lone_weight(chs[1], proof.degree_bits as nat);
    }
    vstd::arithmetic::power2::lemma_pow2_pos(inner.log_chunks as nat);
    lemma_built_quotient(air, win, w.window, d, weights, proof.quotient_chunks@, n);
}

/// The opened rows on a head row are the proof's.
#[verifier::spinoff_prover]
#[verifier::rlimit(60)]
proof fn lemma_head_rows(
    w: Instance,
    inner: InnerAir,
    proof: StarkProof,
    pvs: Seq<u64>,
    mode: WindowMode,
    win: Window,
    t: int,
)
    requires
        whole_instance(w, inner, proof, pvs, mode),
        mode.symbolic,
        head_window(w, win, t),
        0 <= t < w.queries.len(),
    ensures
        ({
                    let o = w.air.s_openings_view();
            &&& o.local.len() == inner.width
            &&& o.next.len() == inner.width
            &&& forall|i: int|
                0 <= i < o.local.len() ==> value2(#[trigger] o.local[i], win) == x_red(proof.trace_local@[i])
            &&& forall|i: int|
                0 <= i < o.next.len() ==> value2(#[trigger] o.next[i], win) == x_red(proof.trace_next.unwrap()@[i])
        }),
{
    let air = w.air;
    let chs = window_challenges(proof, pvs);
    let d = w.queries[t];
    let o = air.s_openings_view();
    lemma_instance_air(w, inner, proof, pvs, mode);
    lemma_dimensions(air, inner, proof, pvs, mode);
    lemma_head_row(w, inner, proof, pvs, mode, win, t);
    lemma_query_terms(inner, proof, pvs, mode.cap_height as int, chs, t);
    assert(is_query(d, inner, proof, chs, window_felts(proof, pvs)[t], t));
    assert forall|i: int| 0 <= i < o.local.len() implies value2(#[trigger] o.local[i], win) == x_red(
        proof.trace_local@[i],
    ) by {
        lemma_built_opening(air, win, d, air.s_trm_trace(i));
        assert(d.terms@[i].pz == proof.trace_local@[i]);
    }
    assert forall|i: int| 0 <= i < o.next.len() implies value2(#[trigger] o.next[i], win) == x_red(
        proof.trace_next.unwrap()@[i],
    ) by {
        lemma_built_opening(air, win, d, air.s_trm_next(i));
        assert(d.terms@[inner.width + i].pz == proof.trace_next.unwrap()@[i]);
    }
}

/// A public value on a head row is the proof's.
#[verifier::spinoff_prover]
#[verifier::rlimit(60)]
proof fn lemma_head_public(
    w: Instance,
    inner: InnerAir,
    proof: StarkProof,
    pvs: Seq<u64>,
    mode: WindowMode,
    win: Window,
    t: int,
    i: int,
)
    requires
        whole_instance(w, inner, proof, pvs, mode),
        mode.symbolic,
        head_window(w, win, t),
        0 <= t < w.queries.len(),
        0 <= i < pvs.len(),
    ensures
        value(w.air.s_pi(w.air.s_pub_pi() + i), win) == f_red(pvs[i] as int),
{
    let air = w.air;
    let chs = window_challenges(proof, pvs);
    let c = air.s_pub_pi() + i;
    lemma_dimensions(air, inner, proof, pvs, mode);
    lemma_head_row(w, inner, proof, pvs, mode, win, t);
    law_window_layout(air, inner, proof, pvs, mode, chs, window_felts(proof, pvs));
    air.lemma_bounds();
    assert(0 <= c < air.s_pis_count());
    assert(value(air.s_pi(c), win) == f_red(w.window[c] as int));
    assert(w.window[air.s_pub_pi() + i] == pvs[i]);
}

/// A base wire as a pair.
proof fn lemma_base_wire(p: Wire, v: u64, win: Window)
    requires
        value(p, win) == f_red(v as int),
    ensures
        value2(w2(p, w_const(0)), win) == x_red(x_base(v)),
{
    lemma_const_value(0, win);
}

/// A periodic value on a head row is the proof's.
#[verifier::spinoff_prover]
#[verifier::rlimit(60)]
proof fn lemma_head_periodic(
    w: Instance,
    inner: InnerAir,
    proof: StarkProof,
    pvs: Seq<u64>,
    mode: WindowMode,
    win: Window,
    t: int,
    i: int,
)
    requires
        whole_instance(w, inner, proof, pvs, mode),
        mode.symbolic,
        head_window(w, win, t),
        0 <= t < w.queries.len(),
        0 <= i < inner.periodic@.len(),
    ensures
        value2(w.air.s_pi2(w.air.s_periodic_base() + 2 * i), win) == x_red(
            columns_at(contents(inner.periodic@), proof.degree_bits as nat, window_challenges(proof, pvs)[1])[i],
        ),
{
    let air = w.air;
    let chs = window_challenges(proof, pvs);
    let periodic = columns_at(contents(inner.periodic@), proof.degree_bits as nat, chs[1]);
    let c = air.s_periodic_base() + 2 * i;
    lemma_dimensions(air, inner, proof, pvs, mode);
    lemma_head_row(w, inner, proof, pvs, mode, win, t);
    law_window_layout(air, inner, proof, pvs, mode, chs, window_felts(proof, pvs));
    air.lemma_bounds();
    assert(0 <= c && c + 1 < air.s_pis_count());
    assert(value(air.s_pi(c), win) == f_red(w.window[c] as int));
    assert(value(air.s_pi(c + 1), win) == f_red(w.window[c + 1] as int));
    assert(w.window[air.s_periodic_base() + 2 * i] == periodic[i].c0);
}

/// The selectors at a point are reduced.
proof fn lemma_selectors_reduced(zeta: Ext, n: nat)
    ensures
        ({
            let sel = selectors(zeta, n);
            &&& x_red(sel.is_first_row) == sel.is_first_row
            &&& x_red(sel.is_last_row) == sel.is_last_row
            &&& x_red(sel.is_transition) == sel.is_transition
        }),
{
    let z = vanishing(zeta, n);
    let last = crate::stark::domain::last_point(n);
    lemma_x_mul_red(z, crate::field::x_inv(x_sub(zeta, x_one())));
    lemma_x_mul_red(z, crate::field::x_inv(x_sub(zeta, last)));
    super::heads::lemma_difference_reduced(zeta, last);
}

/// The openings on a head row are the proof's.
#[verifier::spinoff_prover]
#[verifier::rlimit(60)]
proof fn lemma_head_carries(
    w: Instance,
    inner: InnerAir,
    proof: StarkProof,
    pvs: Seq<u64>,
    mode: WindowMode,
    win: Window,
    t: int,
)
    requires
        whole_instance(w, inner, proof, pvs, mode),
        mode.symbolic,
        head_window(w, win, t),
        0 <= t < w.queries.len(),
        ({
                    let sel = selectors(window_challenges(proof, pvs)[1], proof.degree_bits as nat);
            &&& value2(w.air.s_is_trans(), win) == sel.is_transition
            &&& value2(w2_cur(w.air.s_sel(0)), win) == sel.is_first_row
            &&& value2(w2_cur(w.air.s_sel(2)), win) == sel.is_last_row
        }),
    ensures
        carries(
            w.air.s_openings_view(),
            ood_openings(inner, proof, pvs, window_challenges(proof, pvs)[1]),
            win,
        ),
{
    let air = w.air;
    let chs = window_challenges(proof, pvs);
    let (o, no) = (air.s_openings_view(), ood_openings(inner, proof, pvs, chs[1]));
    lemma_dimensions(air, inner, proof, pvs, mode);
    lemma_head_rows(w, inner, proof, pvs, mode, win, t);
    lemma_selectors_reduced(chs[1], proof.degree_bits as nat);
    assert(no.local == proof.trace_local@ && no.next == proof.trace_next.unwrap()@);
    assert(contents(inner.periodic@).len() == inner.periodic@.len());
    assert forall|i: int| 0 <= i < o.pubs.len() implies value2(#[trigger] o.pubs[i], win) == x_red(no.pubs[i]) by {
        lemma_head_public(w, inner, proof, pvs, mode, win, t, i);
        lemma_base_wire(air.s_pi(air.s_pub_pi() + i), pvs[i], win);
    }
    assert forall|i: int| 0 <= i < o.periodic.len() implies value2(#[trigger] o.periodic[i], win) == x_red(
        no.periodic[i],
    ) by {
        lemma_head_periodic(w, inner, proof, pvs, mode, win, t, i);
    }
}

/// The selector columns on a head row.
#[verifier::spinoff_prover]
#[verifier::rlimit(60)]
proof fn lemma_head_selectors(
    w: Instance,
    inner: InnerAir,
    proof: StarkProof,
    pvs: Seq<u64>,
    mode: WindowMode,
    win: Window,
    t: int,
)
    requires
        whole_instance(w, inner, proof, pvs, mode),
        mode.symbolic,
        head_window(w, win, t),
        0 <= t < w.queries.len(),
    ensures
        ({
                    let chs = window_challenges(proof, pvs);
            let sel = selectors(chs[1], proof.degree_bits as nat);
            let no = ood_openings(inner, proof, pvs, chs[1]);
            &&& pair_at(win.cur, w.air.s_sel(0)) == x_red(sel.is_first_row)
            &&& pair_at(win.cur, w.air.s_sel(2)) == x_red(sel.is_last_row)
            &&& pair_at(win.cur, w.air.s_sel(4)) == x_red(sel.inv_vanishing)
            &&& forall|k: int|
                0 < k <= w.air.s_n_fold_acc() ==> pair_at(win.cur, #[trigger] w.air.s_fold_acc(k - 1)) == x_red(
                    folded_constraints(inner.constraints@, no, chs[0], (FOLD_CHUNK * k) as nat),
                )
        }),
{
    let air = w.air;
    let chs = window_challenges(proof, pvs);
    let sel = selectors(chs[1], proof.degree_bits as nat);
    let no = ood_openings(inner, proof, pvs, chs[1]);
    let vs = selector_cells(air, inner, proof, pvs, chs);
    let row = air.s_tile(t);
    lemma_head_row(w, inner, proof, pvs, mode, win, t);
    lemma_selector_cells_len(air, inner, proof, pvs, mode);
    air.lemma_bounds();
    air.lemma_terms();
    assert forall|i: int| 0 <= i < vs.len() implies win.cur[#[trigger] air.s_sel(i)] == vs[i] by {
        reveal(selectors_stand);
        assert(cell(w.cells, air.s_fold_w(), row, air.s_sel_base() + i) == vs[i]);
    }
    let n = air.s_n_fold_acc() as nat;
    let marks = fold_marks(inner.constraints@, no, chs[0], n);
    assert(vs == coords(sel.is_first_row) + coords(sel.is_last_row) + coords(sel.inv_vanishing) + marks);
    assert(win.cur[air.s_sel(0)] == vs[0] && win.cur[air.s_sel(1)] == vs[1]);
    assert(win.cur[air.s_sel(2)] == vs[2] && win.cur[air.s_sel(3)] == vs[3]);
    assert(win.cur[air.s_sel(4)] == vs[4] && win.cur[air.s_sel(5)] == vs[5]);
    lemma_pair_cells(win.cur, air.s_sel(0), sel.is_first_row);
    lemma_pair_cells(win.cur, air.s_sel(2), sel.is_last_row);
    lemma_pair_cells(win.cur, air.s_sel(4), sel.inv_vanishing);
    assert forall|k: int| 0 < k <= air.s_n_fold_acc() implies pair_at(win.cur, #[trigger] air.s_fold_acc(k - 1)) == x_red(
        folded_constraints(inner.constraints@, no, chs[0], (FOLD_CHUNK * k) as nat),
    ) by {
        lemma_marks_at(inner.constraints@, no, chs[0], n, k as nat, 0);
        lemma_marks_at(inner.constraints@, no, chs[0], n, k as nat, 1);
        let c = air.s_fold_acc(k - 1);
        assert(win.cur[air.s_sel(6 + 2 * (k - 1))] == vs[6 + 2 * (k - 1)]);
        assert(win.cur[air.s_sel(7 + 2 * (k - 1))] == vs[7 + 2 * (k - 1)]);
        assert(vs[6 + (2 * (k - 1) + 0)] == marks[2 * (k - 1) + 0]);
        assert(vs[6 + (2 * (k - 1) + 1)] == marks[2 * (k - 1) + 1]);
        lemma_pair_cells(win.cur, c, folded_constraints(inner.constraints@, no, chs[0], (FOLD_CHUNK * k) as nat));
    }
}

/// The out-of-domain check of an inner given by its trees holds on every head row.
#[verifier::spinoff_prover]
#[verifier::rlimit(60)]
proof fn lemma_head_trees(
    w: Instance,
    inner: InnerAir,
    proof: StarkProof,
    pvs: Seq<u64>,
    mode: WindowMode,
    win: Window,
    t: int,
)
    requires
        whole_instance(w, inner, proof, pvs, mode),
        mode.symbolic,
        head_window(w, win, t),
        0 <= t < w.queries.len(),
        !x_same(vanishing(window_challenges(proof, pvs)[1], proof.degree_bits as nat), x_zero()),
        fold_matches(inner, proof, pvs, window_challenges(proof, pvs)[0], window_challenges(proof, pvs)[1]),
    ensures
        vanish(w.air.s_tree_check(InlineBci), win),
{
    let air = w.air;
    let chs = window_challenges(proof, pvs);
    let n = proof.degree_bits as nat;
    let no = ood_openings(inner, proof, pvs, chs[1]);
    lemma_instance_air(w, inner, proof, pvs, mode);
    lemma_dimensions(air, inner, proof, pvs, mode);
    lemma_head_row(w, inner, proof, pvs, mode, win, t);
    lemma_head_selectors(w, inner, proof, pvs, mode, win, t);
    lemma_head_quotient(w, inner, proof, pvs, mode, win, t);
    lemma_built_squares(air, win, w.window, chs[1]);
    assert(air.s_cdb() == n);
    lemma_built_selectors(air, win, chs[1]);
    lemma_head_carries(w, inner, proof, pvs, mode, win, t);
    super::ood::lemma_point_values(air, win, w.window);
    assert(air.constraints@ == inner.constraints@);
    assert forall|k: int| 0 < k && FOLD_CHUNK * k < air.constraints@.len() && air.column_window implies pair_at(
        win.cur,
        #[trigger] air.s_fold_acc(k - 1),
    ) == x_red(folded_constraints(air.constraints@, no, chs[0], (FOLD_CHUNK * k) as nat)) by {
        super::ood::lemma_acc_fits(air, k - 1);
    }
    let sel = selectors(chs[1], n);
    lemma_built_trees(air, win, no, chs[0], quotient_value(inner, proof, chs[1]), sel.inv_vanishing);
}

/// The values of a single column's constraints.
proof fn lemma_column_values(cs: Seq<Wire>, no: NativeView, step: u64)
    requires
        cs == column_constraints(step),
    ensures
        native_value(cs[0], no) == x_mul(x_red(no.is_first), x_sub(x_red(no.local[0]), x_red(no.pubs[0]))),
        native_value(cs[1], no) == x_mul(
            x_red(no.is_trans),
            x_sub(x_red(no.next[0]), x_add(x_red(no.local[0]), x_base(step))),
        ),
{
    reveal_with_fuel(native_value, 5);
}

/// The same values, without representatives.
proof fn lemma_column_terms(first: Ext, tr: Ext, l: Ext, n: Ext, pv: u64, step: u64)
    ensures
        x_mul(x_red(first), x_sub(x_red(l), x_red(x_base(pv)))) == x_mul(first, x_sub(l, x_base(pv))),
        x_mul(x_red(tr), x_sub(x_red(n), x_add(x_red(l), x_base(step)))) == x_mul(
            tr,
            x_sub(n, x_add(l, x_base(step))),
        ),
{
    let s = x_add(l, x_base(step));
    lemma_three_reduced(l, x_base(pv));
    lemma_sum_reduced(l, x_base(step));
    lemma_three_reduced(n, s);
    let (lm, nl) = (x_sub(l, x_base(pv)), x_sub(n, s));
    super::heads::lemma_difference_reduced(l, x_base(pv));
    super::heads::lemma_difference_reduced(n, s);
    lemma_x_mul_red(first, lm);
    lemma_x_mul_red(tr, nl);
}

/// The fold of two constraints.
proof fn lemma_fold_of_two(cs: Seq<Wire>, no: NativeView, alpha: Ext)
    ensures
        folded_constraints(cs, no, alpha, 2) == x_add(
            x_mul(x_add(x_mul(x_zero(), alpha), native_value(cs[0], no)), alpha),
            native_value(cs[1], no),
        ),
{
    reveal_with_fuel(folded_constraints, 3);
}

/// The folded constraints of a single column.
#[verifier::spinoff_prover]
#[verifier::rlimit(80)]
proof fn lemma_column_fold(inner: InnerAir, proof: StarkProof, pvs: Seq<u64>, zeta: Ext, alpha: Ext, step: u64)
    requires
        inner.constraints@ == column_constraints(step),
        pvs.len() == 1,
    ensures
        ({
            let no = ood_openings(inner, proof, pvs, zeta);
            let lm = x_sub(no.local[0], x_base(pvs[0]));
            let nl = x_sub(no.next[0], x_add(no.local[0], x_base(step)));
            folded_constraints(inner.constraints@, no, alpha, 2) == x_add(
                x_mul(x_mul(no.is_first, lm), x_red(alpha)),
                x_mul(no.is_trans, nl),
            )
        }),
{
    let no = ood_openings(inner, proof, pvs, zeta);
    let cs = inner.constraints@;
    assert(no.pubs[0] == x_base(pvs[0]));
    lemma_column_values(cs, no, step);
    lemma_column_terms(no.is_first, no.is_trans, no.local[0], no.next[0], pvs[0], step);
    let v0 = native_value(cs[0], no);
    lemma_first_term(no.is_first, x_sub(no.local[0], x_base(pvs[0])), alpha);
    lemma_fold_of_two(cs, no, alpha);
    assert(v0 == x_mul(no.is_first, x_sub(no.local[0], x_base(pvs[0]))));
}

/// The first constraint, folded once.
proof fn lemma_first_term(first: Ext, lm: Ext, alpha: Ext)
    ensures
        ({
            let v = x_mul(first, lm);
            x_mul(x_add(x_mul(x_zero(), alpha), v), alpha) == x_mul(v, x_red(alpha))
        }),
{
    let v = x_mul(first, lm);
    lemma_x_mul_red(first, lm);
    lemma_from_zero(v, alpha);
    lemma_x_mul_red(v, alpha);
}

/// Zero times anything, plus a reduced element.
proof fn lemma_from_zero(v: Ext, alpha: Ext)
    requires
        x_red(v) == v,
    ensures
        x_add(x_mul(x_zero(), alpha), v) == v,
{
    assert(0 * alpha.c0 == 0 && 0 * alpha.c1 == 0) by (nonlinear_arith);
    assert(crate::field::W_EXT * 0 == 0);
}

/// A difference does not depend on representatives.
proof fn lemma_three_reduced(a: Ext, b: Ext)
    ensures
        x_sub(x_red(a), x_red(b)) == x_sub(a, b),
{
    super::heads::lemma_difference_reduced(a, x_red(b));
    crate::field::lemma_red_add(a.c0 as int, b.c0 as int);
    crate::field::lemma_red_add(a.c1 as int, b.c1 as int);
}

/// A sum does not depend on representatives, and is reduced.
proof fn lemma_sum_reduced(a: Ext, b: Ext)
    ensures
        x_add(x_red(a), b) == x_add(a, b),
        x_red(x_add(a, b)) == x_add(a, b),
{
    crate::field::lemma_red_add(a.c0 as int, b.c0 as int);
    crate::field::lemma_red_add(a.c1 as int, b.c1 as int);
}

/// The out-of-domain check of a single column holds on every head row.
#[verifier::spinoff_prover]
#[verifier::rlimit(60)]
proof fn lemma_head_column(
    w: Instance,
    inner: InnerAir,
    proof: StarkProof,
    pvs: Seq<u64>,
    mode: WindowMode,
    win: Window,
    t: int,
)
    requires
        whole_instance(w, inner, proof, pvs, mode),
        !mode.symbolic,
        head_window(w, win, t),
        0 <= t < w.queries.len(),
        !x_same(vanishing(window_challenges(proof, pvs)[1], proof.degree_bits as nat), x_zero()),
        fold_matches(inner, proof, pvs, window_challenges(proof, pvs)[0], window_challenges(proof, pvs)[1]),
        inner.constraints@ == column_constraints(column_step(mode)),
    ensures
        vanish(w.air.s_one_column(), win),
{
    let air = w.air;
    let chs = window_challenges(proof, pvs);
    let n = proof.degree_bits as nat;
    let d = w.queries[t];
    let no = ood_openings(inner, proof, pvs, chs[1]);
    lemma_instance_air(w, inner, proof, pvs, mode);
    lemma_dimensions(air, inner, proof, pvs, mode);
    lemma_head_row(w, inner, proof, pvs, mode, win, t);
    lemma_head_quotient(w, inner, proof, pvs, mode, win, t);
    lemma_built_squares(air, win, w.window, chs[1]);
    super::ood::lemma_point_values(air, win, w.window);
    lemma_query_terms(inner, proof, pvs, mode.cap_height as int, chs, t);
    law_window_layout(air, inner, proof, pvs, mode, chs, window_felts(proof, pvs));
    assert(is_query(d, inner, proof, chs, window_felts(proof, pvs)[t], t));
    lemma_column_fold(inner, proof, pvs, chs[1], chs[0], column_step(mode));
    let sel = selectors(chs[1], n);
    let quot = quotient_value(inner, proof, chs[1]);
    let folded = folded_constraints(inner.constraints@, no, chs[0], 2);
    assert(inner.constraints@.len() == 2);
    lemma_x_mul_red(folded, sel.inv_vanishing);
    super::identity::lemma_value2_canonical(air.s_quotient(air.s_nqc()), win);
    assert(w.window[air.s_pub_pi() + 0] == pvs[0]);
    assert(d.terms@[0].pz == proof.trace_local@[0]);
    assert(d.terms@[inner.width + 0].pz == proof.trace_next.unwrap()@[0]);
    assert(air.s_cdb() == n);
    lemma_built_column(
        air,
        win,
        w.window,
        d,
        chs[1],
        chs[0],
        proof.trace_local@[0],
        proof.trace_next.unwrap()@[0],
        pvs[0],
        quot,
    );
}

/// The out-of-domain check holds on every head row.
#[verifier::spinoff_prover]
#[verifier::rlimit(60)]
proof fn lemma_head_ood(
    w: Instance,
    inner: InnerAir,
    proof: StarkProof,
    pvs: Seq<u64>,
    mode: WindowMode,
    win: Window,
    t: int,
)
    requires
        whole_instance(w, inner, proof, pvs, mode),
        head_window(w, win, t),
        0 <= t < w.queries.len(),
        !x_same(vanishing(window_challenges(proof, pvs)[1], proof.degree_bits as nat), x_zero()),
        fold_matches(inner, proof, pvs, window_challenges(proof, pvs)[0], window_challenges(proof, pvs)[1]),
        !mode.symbolic ==> inner.constraints@ == column_constraints(column_step(mode)),
    ensures
        vanish(w.air.s_ood(InlineBci), win),
{
    let air = w.air;
    let chs = window_challenges(proof, pvs);
    let d = w.queries[t];
    lemma_instance_air(w, inner, proof, pvs, mode);
    lemma_dimensions(air, inner, proof, pvs, mode);
    lemma_head_row(w, inner, proof, pvs, mode, win, t);
    lemma_built_squares(air, win, w.window, chs[1]);
    lemma_query_terms(inner, proof, pvs, mode.cap_height as int, chs, t);
    assert(is_query(d, inner, proof, chs, window_felts(proof, pvs)[t], t));
    assert forall|k: int| 0 <= k < air.n_terms implies (#[trigger] d.terms@[k]).z == (if air.s_at_next(k) {
        next_point(chs[1], air.s_cdb() as nat)
    } else {
        chs[1]
    }) by {
        let (wd, m) = (inner.width as int, proof.quotient_chunks@.len() as int);
        if k < wd {
            assert(d.terms@[k].z == chs[1]);
        } else if k < 2 * wd {
            assert(d.terms@[wd + (k - wd)].z == next_point(chs[1], proof.degree_bits as nat));
        } else {
            let (i, j) = ((k - 2 * wd) / 2, (k - 2 * wd) % 2);
            assert(d.terms@[2 * wd + (2 * i + j)].z == chs[1]);
        }
    }
    lemma_built_points(air, win, chs[1], d);
    let check = if air.s_symbolic() {
        air.s_tree_check(InlineBci)
    } else {
        air.s_one_column()
    };
    if mode.symbolic {
        lemma_head_trees(w, inner, proof, pvs, mode, win, t);
    } else {
        lemma_head_column(w, inner, proof, pvs, mode, win, t);
    }
    lemma_vanish_parts(air.all_squaring(), check, win);
    lemma_vanish_parts(air.all_squaring() + check, air.all_term_points(), win);
}

/// The instance of an accepted proof, whose constraints are the mode's, agrees with its window in all its parts.
#[verifier::spinoff_prover]
#[verifier::rlimit(60)]
proof fn lemma_instance_agrees(
    params: FriParams,
    w: Instance,
    inner: InnerAir,
    proof: StarkProof,
    pvs: Seq<u64>,
    mode: WindowMode,
    wins: spec_fn(int) -> Window,
)
    requires
        whole_instance(w, inner, proof, pvs, mode),
        accepted(params, inner, proof, pvs, mode),
        forall|r: int|
            0 <= r < w.air.s_inst_h() ==> shows_row(w.air, w.cells, #[trigger] wins(r), r) && (!mode.column_window
                ==> wins(r).publics == w.window),
    ensures
        instance_agrees(
            w.air,
            w.cells,
            run(stark_program(proof, pvs)).sim.blocks,
            w.queries,
            window_challenges(proof, pvs)[2],
            w.window,
            wins,
        ),
{
    let air = w.air;
    let chs = window_challenges(proof, pvs);
    let felts = window_felts(proof, pvs);
    law_window_is_verification(params, inner, proof, pvs, mode.cap_height as int);
    lemma_instance_air(w, inner, proof, pvs, mode);
    law_instance_holds_window(w, inner, proof, pvs, mode);
    lemma_transcript_agrees(w, inner, proof, pvs, mode);
    assert forall|t: int| 0 <= t < w.queries.len() implies super::tilerows::query_agrees(
        air,
        t,
        #[trigger] w.queries[t],
        chs[2],
        w.window,
    ) by {
        law_accepted_queries_open(params, inner, proof, pvs, mode.cap_height as int, t);
        lemma_index_agrees(w, inner, proof, pvs, mode, t);
        assert(is_query(w.queries[t], inner, proof, chs, felts[t], t));
        assert(air.query_inverts(w.queries[t]));
        law_query_agrees(air, inner, proof, pvs, mode, chs, felts[t], t, w.queries[t], felts);
    }
    assert forall|r: int| 0 <= r < air.s_inst_h() implies shows_row(air, w.cells, #[trigger] wins(r), r)
        && reads_window(air, wins(r), w.window) by {
        law_row_reads_window(air, w.cells, w.window, wins(r), r);
    }
    assert forall|t: int| 0 <= t < w.queries.len() implies vanish(
        air.s_ood(InlineBci),
        wins(#[trigger] air.s_tile(t)),
    ) by {
        air.lemma_tile_fits(t);
        air.lemma_openings_fit();
        assert(shows_row(air, w.cells, wins(air.s_tile(t)), air.s_tile(t)));
        lemma_head_ood(w, inner, proof, pvs, mode, wins(air.s_tile(t)), t);
    }
}

/// A proof that the verification accepts, under parameters that the fused verifier follows. Where the window keeps one
/// entry per cap, one entry serves every query; a single column's constraints are those of the mode.
pub open spec fn accepted(
    params: FriParams,
    inner: InnerAir,
    proof: StarkProof,
    pvs: Seq<u64>,
    mode: WindowMode,
) -> bool {
    &&& params_follow(params, mode.cap_height as int)
    &&& proof.opening.commits@.len() == proof.opening.commit_pow@.len()
    &&& stark_error(params, inner, proof, pvs) is None
    &&& entries_shared(proof, mode)
    &&& !mode.symbolic ==> inner.constraints@ == column_constraints(column_step(mode))
}

/// On every row of the instance of an accepted proof the constraints of the instance vanish, whatever stands behind its
/// last row.
pub proof fn law_accepted_instance_satisfies(
    params: FriParams,
    w: Instance,
    inner: InnerAir,
    proof: StarkProof,
    pvs: Seq<u64>,
    mode: WindowMode,
    wins: spec_fn(int) -> Window,
    r: int,
)
    requires
        whole_instance(w, inner, proof, pvs, mode),
        accepted(params, inner, proof, pvs, mode),
        forall|q: int|
            0 <= q < w.air.s_inst_h() ==> shows_row(w.air, w.cells, #[trigger] wins(q), q) && (!mode.column_window
                ==> wins(q).publics == w.window),
        0 <= r < w.air.s_inst_h(),
    ensures
        vanish(instance_wires(w.air), wins(r)),
{
    lemma_instance_agrees(params, w, inner, proof, pvs, mode, wins);
    law_built_satisfies(
        w.air,
        w.cells,
        run(stark_program(proof, pvs)).sim.blocks,
        w.queries,
        window_challenges(proof, pvs)[2],
        w.window,
        wins,
        r,
    );
}

/// The fused verifier is complete: on the instance of a proof that the verification accepts, every row pair makes every
/// constraint of the system vanish.
#[verifier::rlimit(30)]
pub proof fn law_accepted_proof_satisfies(
    params: FriParams,
    w: InnerWindow,
    inner: InnerAir,
    proof: StarkProof,
    pvs: Seq<u64>,
    mode: WindowMode,
    publics: Seq<u64>,
)
    requires
        whole_window(w, inner, proof, pvs, mode),
        accepted(params, inner, proof, pvs, mode),
        !mode.column_window ==> publics == w.window@,
    ensures
        satisfied(InlineBci, w.air, w.cells@, publics),
{
    let air = w.air;
    let v = instance_view(w);
    let g = w.cells@;
    law_window_is_instance(w, inner, proof, pvs, mode);
    lemma_instance_air(v, inner, proof, pvs, mode);
    lemma_columns_stand(air);
    lemma_alone(w, inner, proof, pvs, mode);
    let wins = instance_pairs(air, g, publics, 0);
    let n = air.s_inst_h() * air.s_fold_w();
    assert(instance_rows(air, g, 0) =~= g) by {
        assert(0 * n == 0);
    }
    assert forall|q: int| 0 <= q < air.s_inst_h() implies shows_row(air, g, #[trigger] wins(q), q) && (!mode.column_window
        ==> wins(q).publics == v.window) by {
        law_instance_pairs(air, g, publics, 0, q);
    }
    assert forall|r: int| 0 <= r < air.s_height() implies vanish(
        air.s_eval(InlineBci),
        #[trigger] row_pair(air, g, publics, r),
    ) by {
        law_accepted_instance_satisfies(params, v, inner, proof, pvs, mode, wins, r);
        assert(wins(r) == row_pair(air, g, publics, 0 * air.s_inst_h() + r));
        assert(air.s_root_fold() == Seq::<Wire>::empty());
        lemma_eval_parts(air, wins(r));
    }
    reveal(satisfied);
}

/// An instance that was built stands alone.
proof fn lemma_alone(w: InnerWindow, inner: InnerAir, proof: StarkProof, pvs: Seq<u64>, mode: WindowMode)
    requires
        whole_window(w, inner, proof, pvs, mode),
    ensures
        w.air.k_instances == 1,
        !w.air.fold,
        w.air.s_height() == w.air.s_inst_h(),
        w.cells@.len() == w.air.s_height() * w.air.s_fold_w(),
{
    reveal(super::window::is_window);
    assert(1 * w.air.s_inst_h() == w.air.s_inst_h());
}

} // verus!
