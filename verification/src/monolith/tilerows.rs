//! Every row of a built super-tile: the constraints of the openings, the caps and the head.

use vstd::arithmetic::power2::pow2;
use vstd::prelude::*;

use super::eval::{InlineBci, MonolithBci};
use super::front::law_built_front_row;
use super::grid::cell;
use super::heads::{law_built_head_row, lemma_written_spells, reduced_terms};
use super::index::at_head;
use super::layout::{MonolithAir, QT_B, QT_E};
use super::leaves::mark;
use super::meaning::{lemma_chain_cells_are, lemma_pair_cells};
use super::pairs::lemma_columns_stand;
use super::places::{law_built_links, lemma_more_selectors};
use super::quiet::{
    lemma_caps_parts, lemma_head_parts, lemma_openings_parts, lemma_quiet_arith, lemma_quiet_capmux, lemma_quiet_folds,
    lemma_quiet_index, lemma_quiet_leaf, lemma_quiet_ood, no_head,
};
use super::reading::{law_built_accept_row, law_built_fold_rows, lemma_chain_len, row_at};
use super::selection::{data_agrees, law_built_tile_row, shows_selectors};
use super::tiles::{law_built_quotient_leaf, law_built_trace_leaf, tile_built};
use super::tops::{
    ends_in_window, law_built_capmux, law_built_commit_caps, law_built_shared_caps, reads_window,
};
use super::trace::{bit_at, chain_cells, deep_point, QueryData};
use crate::expr::{value, w_const, w_cur, w_minus, w_per, w_times, Window};
use crate::field::{f_mul, f_red, x_red, Ext};
use crate::fri::input::reduced;
use crate::fri::witness::fold_value;
use crate::gadgets::opening::off_terms;
use crate::gadgets::traces::{lemma_switched, lemma_zero_product};
use crate::vanish::{
    lemma_const_value, lemma_gates, lemma_leaf_values, lemma_op_values, lemma_vanish_flat, pair_at, vanish,
};

verus! {

/// The selectors of a leaf are not set on the rows of a super-tile outside the leaf.
#[verifier::rlimit(30)]
pub(super) proof fn lemma_leaf_elsewhere(air: MonolithAir, t: int, r: int, i: int, head: int, blocks: int)
    requires
        air.wf(),
        0 <= t < air.n_queries,
        0 <= r < air.s_m_period(),
        0 <= i,
        1 <= head,
        1 <= blocks,
        32 * (head + blocks) <= air.s_m_period(),
        r < 32 * head || r >= 32 * (head + blocks),
        i > blocks - 1 ==> blocks >= 2,
    ensures
        !air.leaf_selector(i, air.s_tile(t) + r, head, blocks),
        !air.at_head(air.s_tile(t) + r, head),
{
    let row = air.s_tile(t) + r;
    air.lemma_on_tile(t, r, head * 32);
    if i < blocks - 1 {
        air.lemma_on_tile(t, r, (head + 1 + i) * 32);
    } else if i == blocks - 1 {
        if air.at_boundary(row, head, blocks) {
            let b = choose|b: int| 1 <= b < blocks && #[trigger] air.at_end(row, head + b - 1);
            air.lemma_on_tile(t, r, (head + b - 1) * 32 + 31);
        }
    } else {
        air.lemma_on_tile(t, r, (head + blocks - 2) * 32 + 31);
    }
}

/// A row of a built super-tile: where it stands and what it shows.
pub open spec fn on_tile_row(
    air: MonolithAir,
    g: Seq<u64>,
    t: int,
    q: QueryData,
    r: int,
    win: Window,
) -> bool {
    &&& air.eval_ok()
    &&& air.buildable()
    &&& InlineBci.supports(air)
    &&& air.s_cm_rounds() < 32
    &&& air.n_terms >= 1
    &&& 0 <= t < air.n_queries
    &&& tile_built(air, g, air.s_tile(t), q)
    &&& 0 <= r < air.s_m_period()
    &&& win.cur == row_at(g, air.s_fold_w(), air.s_tile(t) + r)
    &&& r < air.s_m_period() - 1 ==> win.nxt == row_at(g, air.s_fold_w(), air.s_tile(t) + r + 1)
    &&& r < air.s_m_period() - 1 ==> win.is_transition == 1
    &&& shows_selectors(air, win, air.s_tile(t) + r)
    &&& win.periodic[11] == mark(r % 32 == 31)
    &&& r != 0 ==> cell(g, air.s_fold_w(), air.s_tile(t) + r, 12) <= 1
}

/// On every row of a super-tile the constraints of the trace leaf vanish.
#[verifier::rlimit(30)]
proof fn lemma_trace_leaf_row(air: MonolithAir, g: Seq<u64>, t: int, q: QueryData, r: int, win: Window)
    requires
        on_tile_row(air, g, t, q, r, win),
    ensures
        vanish(air.s_trace_leaf(), win),
{
    let row = air.s_tile(t) + r;
    let (head, n) = (air.s_m_input_leaf(), air.s_leaf_blocks());
    lemma_columns_stand(air);
    air.lemma_bounds();
    air.lemma_openings_fit();
    air.lemma_period_covers_rounds();
    if 32 * head <= r < 32 * (head + n) {
        let k = r - 32 * head;
        assert(air.s_tile(t) + (32 * head + k) == row);
        assert(32 * (head + n) <= air.s_m_period() - 32);
        air.law_trace_leaf_selected(win, t, k);
        law_built_trace_leaf(air, g, air.s_tile(t), q, k, win);
    } else {
        air.law_selector_roles(row, 0, t);
        let base = air.s_leaf_absorb_base();
        lemma_leaf_elsewhere(air, t, r, 0, head, n);
        assert forall|j: int| base <= j < air.s_quot_absorb_base() implies #[trigger] win.periodic[j] == 0 by {
            lemma_leaf_elsewhere(air, t, r, j - base, head, n);
            assert(air.selector(j, row) == air.leaf_selector(j - base, row, head, n));
        }
        lemma_quiet_leaf(
            air.s_m_leaf(),
            base,
            air.s_ov(),
            air.s_input_leaf_felts(),
            !air.narrow_ov,
            win,
        );
    }
}

/// On every row of a super-tile the constraints of the quotient leaf vanish.
#[verifier::rlimit(30)]
proof fn lemma_quot_leaf_row(air: MonolithAir, g: Seq<u64>, t: int, q: QueryData, r: int, win: Window)
    requires
        on_tile_row(air, g, t, q, r, win),
    ensures
        vanish(air.s_quot_leaf(), win),
{
    let row = air.s_tile(t) + r;
    let (head, n) = (air.s_m_quot_leaf(), air.s_quot_leaf_blocks());
    lemma_columns_stand(air);
    air.lemma_bounds();
    air.lemma_openings_fit();
    air.lemma_period_covers_rounds();
    if 32 * head <= r < 32 * (head + n) {
        let k = r - 32 * head;
        assert(air.s_tile(t) + (32 * head + k) == row);
        air.lemma_cm_leaf_bound(0);
        assert(32 * (head + n) <= air.s_m_period() - 32);
        air.law_quotient_leaf_selected(win, t, k);
        law_built_quotient_leaf(air, g, air.s_tile(t), q, k, win);
    } else {
        air.law_selector_roles(row, 0, t);
        let base = air.s_quot_absorb_base();
        lemma_leaf_elsewhere(air, t, r, 0, head, n);
        assert forall|j: int| base <= j < air.s_fold_base() implies #[trigger] win.periodic[j] == 0 by {
            lemma_leaf_elsewhere(air, t, r, j - base, head, n);
            assert(air.selector(j, row) == air.leaf_selector(j - base, row, head, n));
        }
        lemma_quiet_leaf(air.s_q_leaf(), base, air.s_qc(0), air.s_quot_leaf_felts(), true, win);
    }
}

/// On every row of a built super-tile whose data agrees the constraints of the openings vanish.
pub proof fn law_built_openings_row(air: MonolithAir, g: Seq<u64>, t: int, q: QueryData, r: int, win: Window)
    requires
        on_tile_row(air, g, t, q, r, win),
        data_agrees(air, q),
    ensures
        vanish(air.s_openings_held(), win),
{
    lemma_columns_stand(air);
    air.lemma_bounds();
    air.lemma_terms();
    law_built_tile_row(air, g, t, q, r, win);
    lemma_trace_leaf_row(air, g, t, q, r, win);
    lemma_quot_leaf_row(air, g, t, q, r, win);
    law_built_links(air, g, t, q, r, win);
    lemma_path_bit(air, g, t, q, r, win);
    law_built_front_row(air, g, t, q, r, win);
    lemma_openings_parts(air, win);
}

#[verifier::rlimit(30)]
proof fn lemma_path_bit(air: MonolithAir, g: Seq<u64>, t: int, q: QueryData, r: int, win: Window)
    requires
        on_tile_row(air, g, t, q, r, win),
    ensures
        vanish(air.s_path_bit(), win),
{
    let on = w_per(air.s_s_merkle());
    let b = w_cur(12);
    let no = w_minus(w_const(1), b);
    lemma_columns_stand(air);
    air.lemma_bounds();
    air.lemma_terms();
    lemma_more_selectors(air, win, t, r);
    lemma_leaf_values(air.s_s_merkle(), win);
    lemma_leaf_values(12, win);
    lemma_const_value(1, win);
    lemma_op_values(w_const(1), b, win);
    if r >= 32 {
        assert(win.cur[12] == cell(g, air.s_fold_w(), air.s_tile(t) + r, 12));
        lemma_zero_product(b, no, win);
    }
    lemma_zero_product(on, w_times(b, no), win);
    assert(air.s_path_bit() =~= seq![w_times(on, w_times(b, no))]);
}

/// What the felts of a query have to do with the window: its felt, its challenges and the value that its folds end in.
pub open spec fn query_agrees(air: MonolithAir, t: int, q: QueryData, alpha: Ext, window: Seq<u64>) -> bool {
    let nb = air.s_nb();
    let x = deep_point(q.index as nat, air.s_lg() as nat);
    &&& data_agrees(air, q)
    &&& q.index == f_red(q.felt as int) as nat % pow2(air.s_lg() as nat)
    &&& f_red(q.felt as int) == f_red(window[2 * nb + t] as int)
    &&& x_red(q.alpha) == x_red(alpha)
    &&& off_terms(q.terms@, x)
    &&& x_red(q.ro) == reduced(x_red(q.alpha), x, reduced_terms(q.terms@))
    &&& forall|r: int|
        0 <= r < air.s_cm_rounds() ==> f_mul(2, (#[trigger] q.rounds@[r]).point) != 0 && q.rounds@[r].bit == (bit_at(
            f_red(q.felt as int) as nat % pow2(air.s_lg() as nat),
            r as nat,
        ) == 1) && x_red(q.rounds@[r].beta) == pair_at(window, 2 * air.s_ch_beta(r))
    &&& x_red(fold_value(q.ro, q.rounds@, air.s_cm_rounds() as nat)) == pair_at(window, 2 * nb + air.s_ni())
    &&& ends_in_window(air, q, window)
}

/// The head row of a built super-tile starts with the reduced opening.
#[verifier::rlimit(30)]
proof fn lemma_head_starts(air: MonolithAir, g: Seq<u64>, t: int, q: QueryData, r: int, win: Window)
    requires
        on_tile_row(air, g, t, q, r, win),
        r < air.s_cm_rounds(),
    ensures
        pair_at(win.cur, QT_E as int) == x_red(fold_value(q.ro, q.rounds@, r as nat)),
        pair_at(win.cur, QT_B as int) == x_red(q.rounds@[r].beta),
{
    let row = air.s_tile(t) + r;
    let w = air.s_fold_w();
    air.lemma_bounds();
    air.lemma_terms();
    lemma_chain_len(q.ro, q.rounds@, r as nat);
    lemma_chain_cells_are(q.ro, q.rounds@, r as nat);
    let cells = chain_cells(q.ro, q.rounds@, r as nat);
    assert(cell(g, w, air.s_tile(t) + r, 0) == cells[0]);
    assert(cell(g, w, air.s_tile(t) + r, 1) == cells[1]);
    assert(cell(g, w, air.s_tile(t) + r, 4) == cells[4]);
    assert(cell(g, w, air.s_tile(t) + r, 5) == cells[5]);
    lemma_pair_cells(win.cur, QT_E as int, fold_value(q.ro, q.rounds@, r as nat));
    lemma_pair_cells(win.cur, QT_B as int, q.rounds@[r].beta);
}

/// On a head the sum over the queries is the public felt of the query.
#[verifier::rlimit(30)]
pub(super) proof fn lemma_query_sum(air: MonolithAir, t: int, window: Seq<u64>, win: Window, n: int)
    requires
        air.wf(),
        air.queries_ok(),
        0 <= t < air.n_queries,
        0 <= n <= air.n_queries,
        reads_window(air, win, window),
        forall|k: int| 0 <= k < air.n_queries ==> win.periodic[#[trigger] air.s_p_query(k)] == mark(k == t),
    ensures
        value(air.s_query_sum(n), win) == (if t < n {
            f_red(window[2 * air.s_nb() + t] as int)
        } else {
            0
        }),
    decreases n,
{
    if n > 0 {
        lemma_columns_stand(air);
        lemma_query_sum(air, t, window, win, n - 1);
        let (p, v) = (w_per(air.s_p_query(n - 1)), air.s_pi(2 * air.s_nb() + (n - 1)));
        assert(win.periodic[air.s_p_query(n - 1)] == mark(n - 1 == t));
        lemma_leaf_values(air.s_p_query(n - 1), win);
        assert(value(v, win) == f_red(window[2 * air.s_nb() + (n - 1)] as int));
        lemma_op_values(p, v, win);
        lemma_gates(value(v, win));
        lemma_op_values(air.s_query_sum(n - 1), w_times(p, v), win);
        lemma_gates(value(air.s_query_sum(n - 1), win));
        lemma_gates(0);
    }
}

/// On a fold row the mask is set.
pub(super) proof fn lemma_round_mask(air: MonolithAir, r: int, win: Window, n: int)
    requires
        air.wf(),
        0 <= r,
        0 <= n <= air.s_cm_rounds(),
        forall|k: int| 0 <= k < air.s_cm_rounds() ==> win.periodic[#[trigger] air.s_p_round(k)] == mark(r == k),
    ensures
        value(air.s_round_mask(n), win) == mark(r < n),
    decreases n,
{
    if n > 0 {
        lemma_columns_stand(air);
        lemma_round_mask(air, r, win, n - 1);
        assert(win.periodic[air.s_p_round(n - 1)] == mark(r == n - 1));
        lemma_leaf_values(air.s_p_round(n - 1), win);
        lemma_op_values(air.s_round_mask(n - 1), w_per(air.s_p_round(n - 1)), win);
    }
}

/// On every row of a built super-tile that agrees with the window the fold rows' constraints vanish.
#[verifier::rlimit(30)]
proof fn lemma_fold_row(
    air: MonolithAir,
    g: Seq<u64>,
    t: int,
    q: QueryData,
    r: int,
    alpha: Ext,
    window: Seq<u64>,
    win: Window,
)
    requires
        on_tile_row(air, g, t, q, r, win),
        query_agrees(air, t, q, alpha, window),
        reads_window(air, win, window),
    ensures
        vanish(air.s_fold_rows(), win),
{
    let row = air.s_tile(t);
    let n = air.s_cm_rounds();
    lemma_columns_stand(air);
    air.lemma_bounds();
    air.lemma_terms();
    air.lemma_period_covers_rounds();
    lemma_more_selectors(air, win, t, r);
    lemma_quiet_folds(air, win);
    if r < n {
        lemma_round_mask(air, r, win, n);
        assert(f_mul(2, q.rounds@[r].point) != 0);
        law_built_fold_rows(air, g, row, q, r, win);
    }
    if r == n {
        let tl = w_per(air.s_m_tl());
        let fp = 2 * air.s_nb() + air.s_ni();
        let cs = air.s_fold_rows().skip(5);
        law_built_accept_row(air, g, row, q, win);
        lemma_leaf_values(0, win);
        lemma_leaf_values(1, win);
        assert(0 <= fp && fp + 1 < air.s_pis_count());
        assert(value(air.s_pi(fp), win) == f_red(window[fp] as int));
        assert(value(air.s_pi(fp + 1), win) == f_red(window[fp + 1] as int));
        lemma_switched(tl, w_cur(0), air.s_pi(fp), win);
        lemma_switched(tl, w_cur(1), air.s_pi(fp + 1), win);
        assert(cs.len() == 2);
        assert(cs[0] == w_times(tl, w_minus(w_cur(0), air.s_pi(fp))));
        assert(cs[1] == w_times(tl, w_minus(w_cur(1), air.s_pi(fp + 1))));
    }
}

/// On every row of a built super-tile that agrees with the window the challenges of the folds are the window's.
#[verifier::spinoff_prover]
#[verifier::rlimit(60)]
proof fn lemma_betas_row(
    air: MonolithAir,
    g: Seq<u64>,
    t: int,
    q: QueryData,
    r: int,
    alpha: Ext,
    window: Seq<u64>,
    win: Window,
)
    requires
        on_tile_row(air, g, t, q, r, win),
        query_agrees(air, t, q, alpha, window),
        reads_window(air, win, window),
    ensures
        vanish(air.all_betas(), win),
{
    lemma_columns_stand(air);
    air.lemma_bounds();
    lemma_more_selectors(air, win, t, r);
    assert forall|k: int| 0 <= k < air.s_cm_rounds() implies vanish(#[trigger] air.f_betas()(k), win) by {
        let on = w_per(air.s_p_round(k));
        let c = 2 * air.s_ch_beta(k);
        assert(win.periodic[air.s_p_round(k)] == mark(r == k));
        lemma_leaf_values(air.s_p_round(k), win);
        lemma_leaf_values(4, win);
        lemma_leaf_values(5, win);
        assert(value(air.s_pi(c), win) == f_red(window[c] as int));
        assert(value(air.s_pi(c + 1), win) == f_red(window[c + 1] as int));
        if r == k {
            lemma_head_starts(air, g, t, q, r, win);
            assert(x_red(q.rounds@[r].beta) == pair_at(window, 2 * air.s_ch_beta(r)));
        }
        lemma_switched(on, w_cur(4), air.s_pi(c), win);
        lemma_switched(on, w_cur(5), air.s_pi(c + 1), win);
        assert(air.f_betas()(k) =~= seq![
            w_times(on, w_minus(w_cur(4), air.s_pi(c))),
            w_times(on, w_minus(w_cur(5), air.s_pi(c + 1))),
        ]);
    }
    lemma_vanish_flat(air.s_cm_rounds(), air.f_betas(), win);
}

/// On every row of a built super-tile that agrees with the window the head's constraints vanish, if on the head row
/// the out-of-domain check does.
#[verifier::spinoff_prover]
#[verifier::rlimit(40)]
pub proof fn law_built_head_family(
    air: MonolithAir,
    g: Seq<u64>,
    t: int,
    q: QueryData,
    r: int,
    alpha: Ext,
    window: Seq<u64>,
    win: Window,
)
    requires
        on_tile_row(air, g, t, q, r, win),
        query_agrees(air, t, q, alpha, window),
        reads_window(air, win, window),
        pair_at(win.cur, air.s_carry()) == x_red(alpha),
        r == 0 ==> vanish(air.s_ood(InlineBci), win),
    ensures
        vanish(air.s_head(InlineBci), win),
{
    lemma_columns_stand(air);
    air.lemma_bounds();
    air.lemma_terms();
    lemma_more_selectors(air, win, t, r);
    lemma_fold_row(air, g, t, q, r, alpha, window, win);
    lemma_betas_row(air, g, t, q, r, alpha, window, win);
    if r == 0 {
        assert forall|k: int| 0 <= k < air.n_queries implies win.periodic[#[trigger] air.s_p_query(k)] == mark(k == t) by {}
        lemma_query_sum(air, t, window, win, air.n_queries as int);
        lemma_head_starts(air, g, t, q, 0, win);
        law_built_head_row(air, win, q);
    } else {
        assert(no_head(air, win));
        lemma_quiet_arith(air, win);
        lemma_quiet_index(air, win);
        lemma_quiet_ood(air, win);
    }
    lemma_head_parts(air, win);
}

/// On every row of a built super-tile that agrees with the window the constraints of the caps vanish.
#[verifier::rlimit(30)]
pub proof fn law_built_caps_row(
    air: MonolithAir,
    g: Seq<u64>,
    t: int,
    q: QueryData,
    r: int,
    alpha: Ext,
    window: Seq<u64>,
    win: Window,
)
    requires
        on_tile_row(air, g, t, q, r, win),
        query_agrees(air, t, q, alpha, window),
        reads_window(air, win, window),
    ensures
        vanish(air.s_caps(InlineBci), win),
{
    lemma_columns_stand(air);
    lemma_more_selectors(air, win, t, r);
    lemma_caps_parts(air, win);
    if air.s_full_cap() {
        law_built_tile_row(air, g, t, q, r, win);
        law_built_commit_caps(air, g, t, q, r, win);
        if r == 0 {
            lemma_written_spells(air, win.cur, q);
            law_built_capmux(air, g, t, q, window, win);
        } else {
            assert(no_head(air, win));
            lemma_quiet_capmux(air, win);
        }
    } else {
        law_built_shared_caps(air, g, t, q, r, window, win);
    }
}

} // verus!
