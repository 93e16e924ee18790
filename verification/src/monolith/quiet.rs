//! The constraint families that vanish where their selectors are not set.

use vstd::prelude::*;

use super::epilogue::{s_agree, s_vanish};
use super::eval::{f_lane_carry, f_leaf_absorb, f_leaf_empty, f_leaf_head, f_mux, leaf_wires, mux_wires, no_lookup};
use super::eval::{InlineBci, MonolithBci};
use super::layout::MonolithAir;
use super::pairs::{all_off, idle, lemma_columns_stand, lemma_flat_off, lemma_off, tile_switch};
use crate::bits::div_up;
use crate::emit::flat;
use crate::expr::{value, w_const, w_cur, w_minus, w_per, w_times, Window, Wire};
use crate::gadgets::traces::lemma_zero_product;
use crate::symbolic::{CircuitLookupView, CircuitView};
use crate::vanish::{lemma_leaf_values, lemma_op_values, lemma_vanish_parts, vanish};

verus! {

/// No super-tile starts on the row.
pub open spec fn no_head(air: MonolithAir, win: Window) -> bool {
    &&& win.periodic[air.s_m_tf()] == 0
    &&& forall|q: int| 0 <= q < air.n_queries ==> win.periodic[#[trigger] air.s_p_query(q)] == 0
}

proof fn lemma_no_query(air: MonolithAir, win: Window, n: int)
    requires
        air.wf(),
        no_head(air, win),
        0 <= n <= air.n_queries,
    ensures
        value(air.s_query_sum(n), win) == 0,
    decreases n,
{
    if n > 0 {
        lemma_no_query(air, win, n - 1);
        lemma_columns_stand(air);
        let (p, v) = (w_per(air.s_p_query(n - 1)), air.s_pi(2 * air.s_nb() + (n - 1)));
        lemma_leaf_values(air.s_p_query(n - 1), win);
        lemma_zero_product(p, v, win);
        lemma_op_values(air.s_query_sum(n - 1), w_times(p, v), win);
    }
}

/// Away from the heads the head arithmetic vanishes.
#[verifier::rlimit(30)]
pub(super) proof fn lemma_quiet_arith(air: MonolithAir, win: Window)
    requires
        air.wf(),
        no_head(air, win),
    ensures
        vanish(air.s_inline_arith(), win),
{
    let tf = w_per(air.s_m_tf());
    lemma_columns_stand(air);
    lemma_leaf_values(air.s_m_tf(), win);
    lemma_flat_off(air.s_lg(), air.f_point_bit(), win);
    lemma_flat_off(air.s_lg(), air.f_point_chain(), win);
    lemma_flat_off(air.n_terms - 1, air.f_power(), win);
    lemma_flat_off(air.n_terms as int, air.f_inverse(), win);
    let a = flat(air.s_lg(), air.f_point_bit()) + flat(air.s_lg(), air.f_point_chain());
    let b = seq![
        w_times(tf, w_minus(w_cur(air.s_qt_alpha()), w_cur(air.s_carry()))),
        w_times(tf, w_minus(w_cur(air.s_qt_alpha() + 1), w_cur(air.s_carry() + 1))),
    ];
    let c = seq![
        w_times(tf, w_minus(w_cur(air.s_apow(0)), w_const(1))),
        w_times(tf, w_cur(air.s_apow(0) + 1)),
    ];
    let d = flat(air.n_terms - 1, air.f_power());
    let e = flat(air.n_terms as int, air.f_inverse());
    let f = air.s_bind_reduced_opening(air.s_reduced_opening(air.n_terms as int));
    lemma_off(b, win);
    lemma_off(c, win);
    lemma_off(f, win);
    lemma_vanish_parts(flat(air.s_lg(), air.f_point_bit()), flat(air.s_lg(), air.f_point_chain()), win);
    lemma_vanish_parts(a, b, win);
    assert(air.s_arith_point() == a + b);
    lemma_vanish_parts(a + b, c, win);
    lemma_vanish_parts(a + b + c, d, win);
    lemma_vanish_parts(a + b + c + d, e, win);
    lemma_vanish_parts(a + b + c + d + e, f, win);
}

/// Away from the heads the index constraints vanish.
#[verifier::rlimit(30)]
pub(super) proof fn lemma_quiet_index(air: MonolithAir, win: Window)
    requires
        air.wf(),
        no_head(air, win),
    ensures
        vanish(air.s_index(), win),
{
    let tf = w_per(air.s_m_tf());
    let x = w_cur(air.s_sb_x());
    let sum = air.s_query_sum(air.n_queries as int);
    lemma_columns_stand(air);
    lemma_leaf_values(air.s_m_tf(), win);
    lemma_no_query(air, win, air.n_queries as int);
    lemma_zero_product(tf, x, win);
    lemma_op_values(w_times(tf, x), sum, win);
    lemma_flat_off(64, air.f_index_bits(), win);
    lemma_flat_off(30, air.f_index_high(), win);
    lemma_flat_off(air.s_lg(), air.f_deep_bits(), win);
    let a = seq![w_minus(w_times(tf, x), sum)];
    let b = air.all_index_bits();
    let c = seq![
        w_times(tf, w_minus(x, air.s_bits_sum(64))),
        w_times(tf, w_minus(w_cur(air.s_sb_q(0)), w_times(w_cur(air.s_sb_b(32)), w_cur(air.s_sb_b(33))))),
    ];
    let d = air.all_index_high();
    let e = seq![w_times(tf, w_times(w_cur(air.s_sb_q(30)), air.s_bits_sum(32)))];
    let f = air.all_deep_bits();
    let g = seq![w_times(tf, w_minus(w_cur(air.s_idx_rem()), air.s_bits_sum(air.s_lg())))];
    assert(vanish(a, win));
    lemma_off(c, win);
    lemma_off(e, win);
    lemma_off(g, win);
    lemma_vanish_parts(a, b, win);
    lemma_vanish_parts(a + b, c, win);
    lemma_vanish_parts(a + b + c, d, win);
    lemma_vanish_parts(a + b + c + d, e, win);
    lemma_vanish_parts(a + b + c + d + e, f, win);
    lemma_vanish_parts(a + b + c + d + e + f, g, win);
}

/// Both coordinates of an agreement are under its switch.
proof fn lemma_agree_off(tf: Wire, x: crate::expr::Wire2, y: crate::expr::Wire2, win: Window)
    requires
        value(tf, win) == 0,
    ensures
        all_off(s_agree(tf, x, y), win),
        vanish(s_agree(tf, x, y), win),
{
    lemma_off(s_agree(tf, x, y), win);
}

proof fn lemma_quiet_column(air: MonolithAir, win: Window)
    requires
        air.wf(),
        no_head(air, win),
    ensures
        vanish(air.s_one_column(), win),
{
    let tf = w_per(air.s_m_tf());
    lemma_columns_stand(air);
    lemma_leaf_values(air.s_m_tf(), win);
    let cs = air.s_one_column();
    assert(cs.len() == 2 && all_off(cs, win));
    lemma_off(cs, win);
}

/// Away from the heads the selector constraints vanish.
#[verifier::spinoff_prover]
#[verifier::rlimit(40)]
proof fn lemma_quiet_selectors(air: MonolithAir, win: Window)
    requires
        air.wf(),
        no_head(air, win),
    ensures
        vanish(air.s_selectors(), win),
{
    lemma_columns_stand(air);
    lemma_leaf_values(air.s_m_tf(), win);
    lemma_off(air.s_selectors(), win);
}

/// Away from the heads the constraint fold vanishes.
#[verifier::spinoff_prover]
#[verifier::rlimit(40)]
proof fn lemma_quiet_trees(air: MonolithAir, win: Window)
    requires
        air.wf(),
        air.s_symbolic(),
        no_head(air, win),
    ensures
        vanish(air.s_tree_check(InlineBci), win),
{
    let tf = w_per(air.s_m_tf());
    lemma_columns_stand(air);
    lemma_leaf_values(air.s_m_tf(), win);
    let (o, inv, quot) = (air.s_openings_view(), crate::expr::w2_cur(air.s_sel(4)), air.s_checked_quotient());
    lemma_quiet_selectors(air, win);
    if air.s_is_lookup() {
        let n = air.s_n_constraints();
        let fold = air.s_fold_check(o, air.s_lookup_view(), n, inv, quot);
        let rest = s_vanish(tf, air.s_pi2(air.s_term_pi()));
        lemma_quiet_fold(air, o, air.s_lookup_view(), n, inv, quot, win);
        lemma_off(rest, win);
        lemma_vanish_parts(fold, rest, win);
        assert(air.s_tree_check(InlineBci) == air.s_selectors() + (fold + rest));
        lemma_vanish_parts(air.s_selectors(), fold + rest, win);
    } else {
        let n = air.constraints@.len() as int;
        let fold = air.s_fold_check(o, no_lookup(), n, inv, quot);
        lemma_quiet_fold(air, o, no_lookup(), n, inv, quot, win);
        assert(air.s_tree_check(InlineBci) == air.s_selectors() + fold);
        lemma_vanish_parts(air.s_selectors(), fold, win);
    }
}

/// Away from the heads a fold of constraints vanishes.
#[verifier::spinoff_prover]
#[verifier::rlimit(40)]
proof fn lemma_quiet_fold(
    air: MonolithAir,
    o: CircuitView,
    l: CircuitLookupView,
    n: int,
    inv: crate::expr::Wire2,
    quot: crate::expr::Wire2,
    win: Window,
)
    requires
        air.wf(),
        no_head(air, win),
    ensures
        vanish(air.s_fold_check(o, l, n, inv, quot), win),
{
    let tf = w_per(air.s_m_tf());
    lemma_columns_stand(air);
    lemma_leaf_values(air.s_m_tf(), win);
    let f = air.f_accumulator(o, l, n);
    assert forall|k: int| 0 <= k < n implies all_off(#[trigger] f(k), win) by {
        assert(f(k) == air.s_accumulator(o, l, k, n));
    }
    lemma_flat_off(n, f, win);
    let last = s_agree(tf, crate::expr::w2_times(air.s_folded(o, l, n, n), inv), quot);
    lemma_agree_off(tf, crate::expr::w2_times(air.s_folded(o, l, n, n), inv), quot, win);
    lemma_vanish_parts(flat(n, f), last, win);
    assert(air.s_fold_check(o, l, n, inv, quot) == flat(n, f) + last);
}

/// Away from the heads the out-of-domain check vanishes.
#[verifier::rlimit(30)]
pub(super) proof fn lemma_quiet_ood(air: MonolithAir, win: Window)
    requires
        air.wf(),
        no_head(air, win),
    ensures
        vanish(air.s_ood(InlineBci), win),
{
    let tf = w_per(air.s_m_tf());
    lemma_columns_stand(air);
    lemma_leaf_values(air.s_m_tf(), win);
    if air.column_window {
        lemma_flat_off(air.s_cdb(), air.f_squaring(), win);
    }
    if !air.narrow_arith {
        lemma_flat_off(air.n_terms as int, air.f_term_point(), win);
    }
    assert(vanish(air.all_squaring(), win));
    assert(vanish(air.all_term_points(), win));
    let check = if air.s_symbolic() {
        air.s_tree_check(InlineBci)
    } else {
        air.s_one_column()
    };
    if air.s_symbolic() {
        lemma_quiet_trees(air, win);
    } else {
        lemma_quiet_column(air, win);
    }
    lemma_vanish_parts(air.all_squaring(), check, win);
    lemma_vanish_parts(air.all_squaring() + check, air.all_term_points(), win);
}

/// Away from the heads the selection of the cap entries vanishes.
pub(super) proof fn lemma_quiet_capmux(air: MonolithAir, win: Window)
    requires
        air.wf(),
        no_head(air, win),
    ensures
        vanish(InlineBci.capmux(air, air.s_cap_openings()), win),
{
    lemma_columns_stand(air);
    lemma_leaf_values(air.s_m_tf(), win);
    let os = air.s_cap_openings();
    assert forall|i: int| 0 <= i < os.len() implies all_off(#[trigger] f_mux(air, os)(i), win) by {
        assert(f_mux(air, os)(i) == mux_wires(air, os[i]));
    }
    lemma_flat_off(os.len() as int, f_mux(air, os), win);
}

/// The mask of the fold rows is off where no round is set.
pub(super) proof fn lemma_no_round(air: MonolithAir, win: Window, n: int)
    requires
        air.wf(),
        forall|r: int| 0 <= r < air.s_cm_rounds() ==> win.periodic[#[trigger] air.s_p_round(r)] == 0,
        0 <= n <= air.s_cm_rounds(),
    ensures
        value(air.s_round_mask(n), win) == 0,
    decreases n,
{
    if n > 0 {
        lemma_no_round(air, win, n - 1);
        lemma_columns_stand(air);
        lemma_leaf_values(air.s_p_round(n - 1), win);
        lemma_op_values(air.s_round_mask(n - 1), w_per(air.s_p_round(n - 1)), win);
    }
}

/// The first five constraints of the fold rows are under the mask, the last two on the accept row.
#[verifier::rlimit(30)]
pub(super) proof fn lemma_quiet_folds(air: MonolithAir, win: Window)
    requires
        air.wf(),
    ensures
        (forall|r: int| 0 <= r < air.s_cm_rounds() ==> win.periodic[#[trigger] air.s_p_round(r)] == 0) ==> vanish(
            air.s_fold_rows().take(5),
            win,
        ),
        win.periodic[air.s_m_tl()] == 0 ==> vanish(air.s_fold_rows().skip(5), win),
        vanish(air.s_fold_rows(), win) <==> vanish(air.s_fold_rows().take(5), win) && vanish(
            air.s_fold_rows().skip(5),
            win,
        ),
{
    let cs = air.s_fold_rows();
    lemma_columns_stand(air);
    if forall|r: int| 0 <= r < air.s_cm_rounds() ==> win.periodic[#[trigger] air.s_p_round(r)] == 0 {
        lemma_no_round(air, win, air.s_cm_rounds());
        lemma_off(cs.take(5), win);
    }
    if win.periodic[air.s_m_tl()] == 0 {
        lemma_leaf_values(air.s_m_tl(), win);
        lemma_off(cs.skip(5), win);
    }
    assert(cs =~= cs.take(5) + cs.skip(5));
    lemma_vanish_parts(cs.take(5), cs.skip(5), win);
}

/// Outside the super-tiles the switch that holds their carriers is off.
proof fn lemma_not_held(air: MonolithAir, win: Window)
    requires
        air.wf(),
        idle(air, win),
    ensures
        ({
            let hold = w_times(w_per(air.s_s_query()), w_minus(w_const(1), w_per(air.s_p_st_last())));
            value(hold, win) == 0
        }),
{
    lemma_columns_stand(air);
    assert(tile_switch(air, air.s_s_query()));
    assert(win.periodic[air.s_s_query()] == 0);
    lemma_leaf_values(air.s_s_query(), win);
    lemma_zero_product(w_per(air.s_s_query()), w_minus(w_const(1), w_per(air.s_p_st_last())), win);
}

/// The switches of the super-tiles that single families read, outside them.
#[verifier::rlimit(30)]
pub(super) proof fn lemma_idle_switches(air: MonolithAir, win: Window)
    requires
        air.wf(),
        idle(air, win),
    ensures
        no_head(air, win),
        forall|r: int|
            0 <= r < air.s_cm_rounds() ==> win.periodic[#[trigger] air.s_p_round(r)] == 0 && win.periodic[air.s_c_leaf(
                r,
            )] == 0 && win.periodic[air.s_c_term(r)] == 0,
        win.periodic[air.s_m_tl()] == 0,
        win.periodic[air.s_m_term()] == 0,
        win.periodic[air.s_q_term()] == 0,
        win.periodic[air.s_m_leaf()] == 0,
        win.periodic[air.s_q_leaf()] == 0,
        win.periodic[air.s_s_merkle()] == 0,
        win.periodic[air.s_s_query()] == 0,
        forall|j: int| air.s_leaf_absorb_base() <= j < air.s_fold_base() ==> #[trigger] win.periodic[j] == 0,
        forall|j: int| air.s_random_absorb_base() <= j < air.s_p_inst_first() ==> #[trigger] win.periodic[j] == 0,
{
    lemma_columns_stand(air);
    assert forall|j: int| air.s_p_round(0) <= j < air.s_m_base() implies #[trigger] win.periodic[j] == 0 by {
        assert(tile_switch(air, j));
    }
    assert forall|j: int| air.s_c_leaf(0) <= j < air.s_fold_base() implies #[trigger] win.periodic[j] == 0 by {
        assert(tile_switch(air, j));
    }
    assert forall|j: int| air.s_random_absorb_base() <= j < air.s_p_inst_first() implies #[trigger] win.periodic[j] == 0 by {
        assert(tile_switch(air, j));
    }
    assert(tile_switch(air, air.s_m_tf()));
    assert(tile_switch(air, air.s_m_tl()));
    assert(tile_switch(air, air.s_m_term()));
    assert(tile_switch(air, air.s_q_term()));
    assert(tile_switch(air, air.s_m_leaf()));
    assert(tile_switch(air, air.s_q_leaf()));
    assert(tile_switch(air, air.s_s_merkle()));
    assert(tile_switch(air, air.s_s_query()));
}

/// A leaf whose selectors are not set.
#[verifier::rlimit(30)]
pub(super) proof fn lemma_quiet_leaf(head: int, absorb: int, carrier: int, felts: int, bind: bool, win: Window)
    requires
        1 <= felts,
        0 <= head <= usize::MAX,
        0 <= absorb,
        felts > 4 ==> absorb + div_up(felts, 4) <= usize::MAX,
        win.periodic[head] == 0,
        felts > 4 ==> forall|j: int| absorb <= j < absorb + div_up(felts, 4) ==> #[trigger] win.periodic[j] == 0,
        felts > 4 && felts % 4 != 0 ==> win.periodic[absorb + div_up(felts, 4)] == 0,
    ensures
        vanish(leaf_wires(head, absorb, carrier, felts, bind), win),
{
    let first = if felts < 4 {
        felts
    } else {
        4
    };
    let n = div_up(felts, 4);
    assert(n == (felts + 3) / 4);
    reveal(leaf_wires);
    lemma_leaf_values(head, win);
    let a = if bind {
        flat(first, f_leaf_head(head, carrier))
    } else {
        Seq::empty()
    };
    let b = flat(8 - first, f_leaf_empty(head, first));
    let c = if bind && felts > 4 {
        flat(felts - 4, f_leaf_absorb(absorb, carrier))
    } else {
        Seq::empty()
    };
    let d0 = flat(4, f_lane_carry(absorb + n - 1, 4));
    let d1 = if felts % 4 != 0 {
        flat(4 - felts % 4, f_lane_carry(absorb + n, felts % 4))
    } else {
        Seq::empty()
    };
    let d = if n > 1 {
        d0 + d1
    } else {
        Seq::empty()
    };
    lemma_flat_off(first, f_leaf_head(head, carrier), win);
    lemma_flat_off(8 - first, f_leaf_empty(head, first), win);
    if felts > 4 {
        assert forall|i: int| 0 <= i < felts - 4 implies all_off(#[trigger] f_leaf_absorb(absorb, carrier)(i), win) by {
            let j = absorb + (4 + i) / 4 - 1;
            assert(win.periodic[j] == 0);
            lemma_leaf_values(j, win);
        }
        lemma_flat_off(felts - 4, f_leaf_absorb(absorb, carrier), win);
        assert(win.periodic[absorb + n - 1] == 0);
        lemma_leaf_values(absorb + n - 1, win);
        lemma_flat_off(4, f_lane_carry(absorb + n - 1, 4), win);
        if felts % 4 != 0 {
            lemma_leaf_values(absorb + n, win);
            lemma_flat_off(4 - felts % 4, f_lane_carry(absorb + n, felts % 4), win);
        }
        lemma_vanish_parts(d0, d1, win);
    }
    lemma_vanish_parts(a, b, win);
    lemma_vanish_parts(a + b, c, win);
    lemma_vanish_parts(a + b + c, d, win);
    assert(n > 1 <==> felts > 4);
    assert(leaf_wires(head, absorb, carrier, felts, bind) == a + b + c + d);
}

/// Outside the super-tiles the head row's constraints vanish.
pub(super) proof fn lemma_idle_head(air: MonolithAir, win: Window)
    requires
        air.wf(),
        idle(air, win),
    ensures
        vanish(air.s_head(InlineBci), win),
{
    lemma_idle_switches(air, win);
    lemma_quiet_arith(air, win);
    lemma_quiet_index(air, win);
    lemma_quiet_ood(air, win);
    lemma_quiet_folds(air, win);
    lemma_idle_betas(air, win);
    lemma_head_parts(air, win);
}

proof fn lemma_idle_betas(air: MonolithAir, win: Window)
    requires
        air.wf(),
        idle(air, win),
    ensures
        vanish(air.all_betas(), win),
{
    lemma_columns_stand(air);
    lemma_idle_switches(air, win);
    assert forall|r: int| 0 <= r < air.s_cm_rounds() implies all_off(#[trigger] air.f_betas()(r), win) by {
        assert(win.periodic[air.s_p_round(r)] == 0);
        lemma_leaf_values(air.s_p_round(r), win);
        assert(air.f_betas()(r) == air.s_betas(r));
    }
    lemma_flat_off(air.s_cm_rounds(), air.f_betas(), win);
}

/// The head's constraints vanish exactly if its families do.
pub(super) proof fn lemma_head_parts(air: MonolithAir, win: Window)
    ensures
        vanish(air.s_head(InlineBci), win) <==> vanish(air.s_inline_arith(), win) && vanish(air.all_betas(), win) && vanish(
            air.s_index(),
            win,
        ) && vanish(air.s_fold_rows(), win) && vanish(air.s_ood(InlineBci), win),
{
    let (a, b, c) = (air.s_inline_arith(), air.all_betas(), air.s_index());
    let (d, e) = (air.s_fold_rows(), air.s_ood(InlineBci));
    assert(air.s_head(InlineBci) == a + b + c + d + e);
    lemma_vanish_parts(a, b, win);
    lemma_vanish_parts(a + b, c, win);
    lemma_vanish_parts(a + b + c, d, win);
    lemma_vanish_parts(a + b + c + d, e, win);
}

/// The openings' constraints vanish exactly if their families do.
#[verifier::rlimit(30)]
pub(super) proof fn lemma_openings_parts(air: MonolithAir, win: Window)
    ensures
        vanish(air.s_openings_held(), win) <==> vanish(air.all_opened_row(), win) && vanish(air.all_random_row(), win)
            && vanish(air.all_aux_row(), win) && vanish(air.all_quot_row(), win) && vanish(air.all_group(), win) && vanish(
            air.s_trace_leaf(),
            win,
        ) && vanish(air.s_quot_leaf(), win) && vanish(air.s_random_opening(), win) && vanish(air.s_aux_opening(), win)
            && vanish(air.all_commit_leaf(), win) && vanish(air.s_salted_leaves(), win) && vanish(air.s_path_bit(), win)
            && vanish(flat(4, air.f_link()), win),
{
    let (a, x, y, b, c) = (
        air.all_opened_row(),
        air.all_random_row(),
        air.all_aux_row(),
        air.all_quot_row(),
        air.all_group(),
    );
    let (d, e, f, g) = (air.s_trace_leaf(), air.s_quot_leaf(), air.all_commit_leaf(), air.s_path_bit());
    let (p, q, z) = (air.s_random_opening(), air.s_aux_opening(), air.s_salted_leaves());
    let h = flat(4, air.f_link());
    let leaves = d + e + p + q + f + z + g;
    assert(air.s_leaves() == leaves);
    lemma_vanish_parts(d, e, win);
    lemma_vanish_parts(d + e, p, win);
    lemma_vanish_parts(d + e + p, q, win);
    lemma_vanish_parts(d + e + p + q, f, win);
    lemma_vanish_parts(d + e + p + q + f, z, win);
    lemma_vanish_parts(d + e + p + q + f + z, g, win);
    assert(air.s_openings_held() == a + x + y + b + c + leaves + h);
    lemma_vanish_parts(a, x, win);
    lemma_vanish_parts(a + x, y, win);
    lemma_vanish_parts(a + x + y, b, win);
    lemma_vanish_parts(a + x + y + b, c, win);
    lemma_vanish_parts(a + x + y + b + c, leaves, win);
    lemma_vanish_parts(a + x + y + b + c + leaves, h, win);
}

/// The switch of the links is off outside the paths.
pub(super) proof fn lemma_no_link(air: MonolithAir, win: Window)
    requires
        air.wf(),
        win.periodic[air.s_s_merkle()] == 0,
    ensures
        vanish(flat(4, air.f_link()), win),
{
    lemma_columns_stand(air);
    lemma_leaf_values(air.s_s_merkle(), win);
    let one = w_const(1);
    let m = w_times(w_per(air.s_s_merkle()), w_per(11));
    let n = w_times(m, w_minus(one, w_per(air.s_p_st_last())));
    lemma_zero_product(w_per(air.s_s_merkle()), w_per(11), win);
    lemma_zero_product(m, w_minus(one, w_per(air.s_p_st_last())), win);
    lemma_zero_product(n, w_minus(one, air.s_link_exclusions()), win);
    assert(air.s_link_gate() == w_times(n, w_minus(one, air.s_link_exclusions())));
    lemma_flat_off(4, air.f_link(), win);
}

/// Outside the super-tiles the constraints of the openings vanish.
#[verifier::spinoff_prover]
#[verifier::rlimit(40)]
pub(super) proof fn lemma_idle_openings(air: MonolithAir, win: Window)
    requires
        air.wf(),
        idle(air, win),
    ensures
        vanish(air.s_openings_held(), win),
{
    lemma_columns_stand(air);
    air.lemma_bounds();
    lemma_idle_switches(air, win);
    lemma_not_held(air, win);
    lemma_leaf_values(air.s_m_tf(), win);
    lemma_leaf_values(air.s_s_merkle(), win);
    if !air.narrow_ov {
        assert forall|c: int| 0 <= c < air.s_input_leaf_felts() implies all_off(#[trigger] air.f_opened_row()(c), win) by {
            assert(air.f_opened_row()(c) == air.s_opened_row(c));
        }
        lemma_flat_off(air.s_input_leaf_felts(), air.f_opened_row(), win);
    }
    assert forall|c: int| 0 <= c < air.s_quot_leaf_felts() implies all_off(#[trigger] air.f_quot_row()(c), win) by {
        assert(air.f_quot_row()(c) == air.s_quot_row(c));
    }
    lemma_flat_off(air.s_quot_leaf_felts(), air.f_quot_row(), win);
    assert forall|r: int| 0 <= r < air.s_cm_rounds() implies all_off(#[trigger] air.f_group()(r), win) by {
        assert(win.periodic[air.s_p_round(r)] == 0);
        lemma_leaf_values(air.s_p_round(r), win);
        assert(air.f_group()(r) == air.s_group(r));
    }
    lemma_flat_off(air.s_cm_rounds(), air.f_group(), win);
    assert forall|r: int| 0 <= r < air.s_cm_rounds() implies all_off(#[trigger] air.f_commit_leaf()(r), win) by {
        assert(win.periodic[air.s_p_round(r)] == 0);
        lemma_leaf_values(air.s_c_leaf(r), win);
        assert(air.f_commit_leaf()(r) == air.s_commit_leaf(r));
    }
    lemma_flat_off(air.s_cm_rounds(), air.f_commit_leaf(), win);
    lemma_off(air.s_path_bit(), win);
    lemma_no_link(air, win);
    lemma_quiet_leaf(
        air.s_m_leaf(),
        air.s_leaf_absorb_base(),
        air.s_ov(),
        air.s_input_leaf_felts(),
        !air.narrow_ov,
        win,
    );
    lemma_quiet_leaf(
        air.s_q_leaf(),
        air.s_quot_absorb_base(),
        air.s_qc(0),
        air.s_quot_leaf_felts(),
        true,
        win,
    );
    lemma_idle_front(air, win);
    lemma_openings_parts(air, win);
}

/// Outside the super-tiles the constraints of the round in front and of the salted leaves vanish.
#[verifier::spinoff_prover]
#[verifier::rlimit(40)]
proof fn lemma_idle_front(air: MonolithAir, win: Window)
    requires
        air.wf(),
        idle(air, win),
    ensures
        vanish(air.all_random_row(), win),
        vanish(air.all_aux_row(), win),
        vanish(air.s_random_opening(), win),
        vanish(air.s_aux_opening(), win),
        vanish(air.s_salted_leaves(), win),
{
    lemma_columns_stand(air);
    air.lemma_bounds();
    lemma_idle_switches(air, win);
    lemma_not_held(air, win);
    lemma_leaf_values(air.s_m_tf(), win);
    assert forall|j: int| air.s_random_absorb_base() <= j < air.s_p_inst_first() implies value(
        #[trigger] w_per(j),
        win,
    ) == 0 by {
        assert(win.periodic[j] == 0);
        lemma_leaf_values(j, win);
    }
    if air.is_zk == 1 {
        assert forall|c: int| 0 <= c < air.s_random_leaf_felts() implies all_off(#[trigger] air.f_random_row()(c), win) by {
            assert(air.f_random_row()(c) == air.s_random_row(c));
        }
        lemma_flat_off(air.s_random_leaf_felts(), air.f_random_row(), win);
        let leaf = leaf_wires(
            air.s_p_random_leaf(),
            air.s_random_absorb_base() + 2,
            air.s_ov_random(0),
            air.s_random_leaf_felts(),
            true,
        );
        lemma_quiet_leaf(
            air.s_p_random_leaf(),
            air.s_random_absorb_base() + 2,
            air.s_ov_random(0),
            air.s_random_leaf_felts(),
            true,
            win,
        );
        lemma_off(air.s_random_term(), win);
        lemma_vanish_parts(leaf, air.s_random_term(), win);
        assert(value(w_per(air.s_c_bnd()), win) == 0);
        lemma_off(air.s_commit_carry(), win);
    }
    if air.s_is_lookup() {
        assert forall|c: int| 0 <= c < air.s_aux_base_w() implies all_off(#[trigger] air.f_aux_row()(c), win) by {
            assert(air.f_aux_row()(c) == air.s_aux_row(c));
        }
        lemma_flat_off(air.s_aux_base_w(), air.f_aux_row(), win);
        let leaf = leaf_wires(
            air.s_p_aux_leaf(),
            air.s_aux_absorb_base() + 2,
            air.s_ov_aux(0),
            air.s_aux_leaf_felts(),
            true,
        );
        lemma_quiet_leaf(
            air.s_p_aux_leaf(),
            air.s_aux_absorb_base() + 2,
            air.s_ov_aux(0),
            air.s_aux_leaf_felts(),
            true,
            win,
        );
        lemma_off(air.s_aux_term(), win);
        lemma_vanish_parts(leaf, air.s_aux_term(), win);
    }
}

/// The caps' constraints vanish exactly if their families do.
pub(super) proof fn lemma_caps_parts(air: MonolithAir, win: Window)
    ensures
        air.s_full_cap() ==> (vanish(air.s_caps(InlineBci), win) <==> vanish(air.s_term_caps(), win) && vanish(
            air.all_commit_caps(),
            win,
        ) && vanish(air.all_cap_hold(), win) && vanish(InlineBci.capmux(air, air.s_cap_openings()), win)),
        !air.s_full_cap() ==> (vanish(air.s_caps(InlineBci), win) <==> vanish(air.s_term_shared(), win) && vanish(
            air.all_commit_shared(),
            win,
        )),
{
    let (a, b, c) = (air.s_term_caps(), air.all_commit_caps(), air.all_cap_hold());
    let d = InlineBci.capmux(air, air.s_cap_openings());
    lemma_vanish_parts(a, b, win);
    lemma_vanish_parts(a + b, c, win);
    lemma_vanish_parts(a + b + c, d, win);
    lemma_vanish_parts(air.s_term_shared(), air.all_commit_shared(), win);
}

/// Outside the super-tiles the constraints of the caps vanish.
#[verifier::rlimit(30)]
pub(super) proof fn lemma_idle_caps(air: MonolithAir, win: Window)
    requires
        air.wf(),
        idle(air, win),
    ensures
        vanish(air.s_caps(InlineBci), win),
{
    lemma_columns_stand(air);
    lemma_idle_switches(air, win);
    lemma_not_held(air, win);
    lemma_leaf_values(air.s_m_term(), win);
    lemma_leaf_values(air.s_q_term(), win);
    lemma_quiet_capmux(air, win);
    lemma_off(air.s_term_caps(), win);
    lemma_off(air.s_term_shared(), win);
    assert forall|r: int| 0 <= r < air.s_cm_rounds() implies all_off(#[trigger] air.f_commit_caps()(r), win) && all_off(
        air.f_commit_shared()(r),
        win,
    ) by {
        assert(win.periodic[air.s_p_round(r)] == 0);
        lemma_leaf_values(air.s_c_term(r), win);
        assert(air.f_commit_caps()(r) == air.s_commit_caps(r));
        assert(air.f_commit_shared()(r) == air.s_commit_shared(r));
    }
    lemma_flat_off(air.s_cm_rounds(), air.f_commit_caps(), win);
    assert forall|r: int| 0 <= r < air.s_cm_rounds() implies all_off(#[trigger] air.f_commit_shared()(r), win) by {
        assert(all_off(air.f_commit_caps()(r), win) && all_off(air.f_commit_shared()(r), win));
    }
    lemma_flat_off(air.s_cm_rounds(), air.f_commit_shared(), win);
    lemma_flat_off(air.s_n_cap_c(), air.f_cap_hold(), win);
    lemma_caps_parts(air, win);
}

} // verus!
