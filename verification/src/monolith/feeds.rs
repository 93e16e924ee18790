//! In a super-tile of the built trace the carried rows feed the terms, the fold groups and the commit leaves.

use vstd::prelude::*;

use super::blocks::commit_holds;
use super::grid::{bit_felt, cell};
use super::heads::lemma_head_term;
use super::layout::{MonolithAir, QT_BIT, QT_E, QT_S};
use super::leaves::{lemma_leaf_first, mark};
use super::meaning::{lemma_chain_cells_are, lemma_chosen};
use super::reading::{lemma_chain_len, row_at};
use super::tiles::{lemma_carried, lemma_carrier_parts, lemma_groups_len, tile_built};
use super::trace::{chain_cells, deep_point, QueryData};
use crate::expr::{value, w_const, w_cur, w_minus, w_nxt, w_on_transition, w_per, w_plus, w_times, Window, Wire};
use crate::field::{f_red, Ext};
use crate::fri::merkle::contents;
use crate::fri::witness::fold_value;
use crate::gadgets::fold::coords;
use crate::gadgets::traces::{lemma_switched, lemma_zero_product};
use crate::vanish::{
    lemma_const_value, lemma_leaf_values, lemma_op_values, lemma_vanish_flat, lemma_vanish_parts, vanish,
};

verus! {

/// A held carrier: on the last row of a super-tile the hold is off, before it the carrier keeps its value.
#[verifier::rlimit(30)]
proof fn lemma_hold_vanishes(air: MonolithAir, g: Seq<u64>, row: int, q: QueryData, r: int, win: Window, at: int)
    requires
        air.wf(),
        tile_built(air, g, row, q),
        0 <= r < air.s_m_period(),
        win.cur == row_at(g, air.s_fold_w(), row + r),
        r < air.s_m_period() - 1 ==> win.nxt == row_at(g, air.s_fold_w(), row + r + 1),
        0 <= air.s_p_st_last() <= usize::MAX,
        win.periodic[air.s_p_st_last()] == mark(r == air.s_m_period() - 1),
        0 <= at < air.s_carrier_cells(q).len(),
    ensures
        ({
            let hold = w_times(w_per(air.s_s_query()), w_minus(w_const(1), w_per(air.s_p_st_last())));
            let c = air.s_ov() + at;
            value(
                w_on_transition(w_times(hold, w_minus(w_nxt(c), w_cur(c)))),
                win,
            ) == 0
        }),
{
    let (last, query) = (w_per(air.s_p_st_last()), w_per(air.s_s_query()));
    let off = w_minus(w_const(1), last);
    let hold = w_times(query, off);
    let c = air.s_ov() + at;
    lemma_leaf_values(air.s_p_st_last(), win);
    lemma_const_value(1, win);
    lemma_op_values(w_const(1), last, win);
    lemma_carried(air, g, row, q, r, at);
    lemma_leaf_values(c, win);
    if r == air.s_m_period() - 1 {
        lemma_zero_product(query, off, win);
    } else {
        lemma_carried(air, g, row, q, r + 1, at);
        assert(row + (r + 1) == row + r + 1);
    }
    lemma_switched(hold, w_nxt(c), w_cur(c), win);
}

/// The queried value of term `k` in the head row.
proof fn lemma_head_px(air: MonolithAir, g: Seq<u64>, row: int, q: QueryData, k: int)
    requires
        air.buildable(),
        !air.narrow_arith,
        tile_built(air, g, row, q),
        0 <= k < air.n_terms,
    ensures
        row_at(g, air.s_fold_w(), row)[air.s_px(k)] == f_red(q.terms@[k].px as int),
        0 <= air.s_px(k) <= usize::MAX,
{
    air.lemma_bounds();
    air.lemma_terms();
    let x = deep_point(q.index as nat, air.s_lg() as nat);
    lemma_head_term(air, row_at(g, air.s_fold_w(), row), q, k, 4);
    assert(air.s_px(k) == air.s_z(k) + 4);
    let cells = air.s_term_cells(q.terms@[k], x, q.alpha, k as nat);
    assert(cells[4] == f_red(q.terms@[k].px as int));
}

/// The terms of a column at the point and at the next point share the queried value.
pub open spec fn row_shared(air: MonolithAir, q: QueryData) -> bool {
    forall|c: int|
        0 <= c < air.s_trm_committed_w() ==> f_red(q.terms@[#[trigger] air.s_trm_next(c)].px as int) == f_red(
            q.terms@[air.s_trm_trace(c)].px as int,
        )
}

/// On every row of a built super-tile the opened row is held, and on its head row it feeds the terms at both points: the
/// constraints vanish, where the terms of a column share the queried value.
#[verifier::spinoff_prover]
#[verifier::rlimit(60)]
pub proof fn law_built_opened_row(air: MonolithAir, g: Seq<u64>, row: int, q: QueryData, r: int, win: Window)
    requires
        air.buildable(),
        tile_built(air, g, row, q),
        row_shared(air, q),
        0 <= r < air.s_m_period(),
        win.cur == row_at(g, air.s_fold_w(), row + r),
        r < air.s_m_period() - 1 ==> win.nxt == row_at(g, air.s_fold_w(), row + r + 1),
        0 <= air.s_p_st_last() <= usize::MAX,
        win.periodic[air.s_p_st_last()] == mark(r == air.s_m_period() - 1),
        0 <= air.s_m_tf() <= usize::MAX,
        win.periodic[air.s_m_tf()] == mark(r == 0),
    ensures
        vanish(air.all_opened_row(), win),
{
    if !air.narrow_ov {
        let n = air.s_input_leaf_felts();
        assert forall|c: int| 0 <= c < n implies vanish(#[trigger] air.f_opened_row()(c), win) by {
            lemma_opened_felt(air, g, row, q, r, win, c);
        }
        lemma_vanish_flat(n, air.f_opened_row(), win);
    }
}

#[verifier::spinoff_prover]
#[verifier::rlimit(60)]
proof fn lemma_opened_felt(air: MonolithAir, g: Seq<u64>, row: int, q: QueryData, r: int, win: Window, c: int)
    requires
        air.buildable(),
        tile_built(air, g, row, q),
        row_shared(air, q),
        0 <= r < air.s_m_period(),
        win.cur == row_at(g, air.s_fold_w(), row + r),
        r < air.s_m_period() - 1 ==> win.nxt == row_at(g, air.s_fold_w(), row + r + 1),
        0 <= air.s_p_st_last() <= usize::MAX,
        win.periodic[air.s_p_st_last()] == mark(r == air.s_m_period() - 1),
        0 <= air.s_m_tf() <= usize::MAX,
        win.periodic[air.s_m_tf()] == mark(r == 0),
        !air.narrow_ov,
        0 <= c < air.s_input_leaf_felts(),
    ensures
        vanish(air.s_opened_row(c), win),
{
    let tf = w_per(air.s_m_tf());
    let hold = w_times(w_per(air.s_s_query()), w_minus(w_const(1), w_per(air.s_p_st_last())));
    let at = air.s_ov_c(c);
    let kept = seq![w_on_transition(w_times(hold, w_minus(w_nxt(at), w_cur(at))))];
    air.lemma_bounds();
    air.lemma_terms();
    air.lemma_preimages(q, air.s_nqc() as nat);
    lemma_carrier_parts(air, q);
    assert(air.s_carrier_cells(q)[c] == air.s_input_preimage(q)[c]);
    assert(c < air.s_carrier_cells(q).len());
    lemma_hold_vanishes(air, g, row, q, r, win, c);
    lemma_carried(air, g, row, q, r, c);
    lemma_leaf_values(air.s_m_tf(), win);
    lemma_leaf_values(at, win);
    if c < air.s_trm_committed_w() && !air.narrow_arith {
        let (a, b) = (air.s_trm_trace(c), air.s_trm_next(c));
        assert(0 <= a < air.n_terms && 0 <= b < air.n_terms);
        let (pa, pb) = (air.s_px(a), air.s_px(b));
        lemma_head_px(air, g, row, q, a);
        lemma_head_px(air, g, row, q, b);
        lemma_leaf_values(pa, win);
        lemma_leaf_values(pb, win);
        if r == 0 {
            assert(row + r == row);
            assert(air.s_input_preimage(q)[c] == q.terms@[a].px);
            assert(f_red(q.terms@[b].px as int) == f_red(q.terms@[a].px as int));
            assert(f_red(f_red(q.terms@[a].px as int) as int) == f_red(q.terms@[a].px as int));
        }
        lemma_switched(tf, w_cur(at), w_cur(pa), win);
        lemma_switched(tf, w_cur(at), w_cur(pb), win);
        let fed = seq![w_times(tf, w_minus(w_cur(at), w_cur(pa))), w_times(tf, w_minus(w_cur(at), w_cur(pb)))];
        assert(air.s_opened_row(c) == kept + fed);
        lemma_vanish_parts(kept, fed, win);
    } else {
        assert(air.s_opened_row(c) == kept + Seq::<Wire>::empty());
        lemma_vanish_parts(kept, Seq::<Wire>::empty(), win);
    }
}

/// The fold group of round `k` among the groups.
proof fn lemma_group_at(air: MonolithAir, q: QueryData, n: nat, k: int, i: int)
    requires
        air.query_fits(q),
        0 <= k < n <= air.s_cm_rounds(),
        0 <= i < 4,
    ensures
        air.s_groups(q, n)[4 * k + i] == q.commits@[k].group@[i],
    decreases n,
{
    lemma_groups_len(air, q, (n - 1) as nat);
    assert(q.commits@[n - 1].group@.len() == 4);
    if k < n - 1 {
        lemma_group_at(air, q, (n - 1) as nat, k, i);
    }
}

/// A felt of a fold group in its carrier.
proof fn lemma_group_carried(air: MonolithAir, g: Seq<u64>, row: int, q: QueryData, r: int, k: int, i: int)
    requires
        air.wf(),
        tile_built(air, g, row, q),
        0 <= r < air.s_m_period(),
        0 <= k < air.s_cm_rounds(),
        0 <= i < 4,
    ensures
        row_at(g, air.s_fold_w(), row + r)[air.s_cg(k, i)] == q.commits@[k].group@[i],
        0 <= air.s_cg(k, i) - air.s_ov() < air.s_carrier_cells(q).len(),
        0 <= air.s_cg(k, i) <= usize::MAX,
{
    let n = air.s_cm_rounds() as nat;
    air.lemma_bounds();
    air.lemma_terms();
    lemma_groups_len(air, q, n);
    lemma_group_at(air, q, n, k, i);
    lemma_carrier_parts(air, q);
    let (ov, rand, aux) = (air.s_ov_carrier_w(), air.s_random_carriers(), air.s_aux_carriers());
    let felts = air.s_quot_leaf_felts();
    assert(air.s_carrier_cells(q)[ov + rand + aux + felts + (4 * k + i)] == air.s_groups(q, n)[4 * k + i]);
    lemma_carried(air, g, row, q, r, ov + rand + aux + felts + (4 * k + i));
}

/// On every row of a built super-tile the leaf of a commit round absorbs the carried fold group into an empty sponge: the
/// constraints vanish.
#[verifier::spinoff_prover]
#[verifier::rlimit(60)]
pub proof fn law_built_commit_leaf(air: MonolithAir, g: Seq<u64>, row: int, q: QueryData, k: int, r: int, win: Window)
    requires
        air.wf(),
        tile_built(air, g, row, q),
        0 <= k < air.s_cm_rounds(),
        0 <= r < air.s_m_period(),
        win.cur == row_at(g, air.s_fold_w(), row + r),
        0 <= air.s_c_leaf(k) <= usize::MAX,
        win.periodic[air.s_c_leaf(k)] == mark(r == 32 * air.s_cm_leaf(k)),
    ensures
        vanish(air.s_commit_leaf(k), win),
{
    lemma_commit_lane(air, g, row, q, k, r, win, 0);
    lemma_commit_lane(air, g, row, q, k, r, win, 1);
    lemma_commit_lane(air, g, row, q, k, r, win, 2);
    lemma_commit_lane(air, g, row, q, k, r, win, 3);
}

/// Lane `i` of a commit leaf, and the one four behind it.
#[verifier::rlimit(30)]
proof fn lemma_commit_lane(air: MonolithAir, g: Seq<u64>, row: int, q: QueryData, k: int, r: int, win: Window, i: int)
    requires
        air.wf(),
        tile_built(air, g, row, q),
        0 <= k < air.s_cm_rounds(),
        0 <= r < air.s_m_period(),
        win.cur == row_at(g, air.s_fold_w(), row + r),
        0 <= air.s_c_leaf(k) <= usize::MAX,
        win.periodic[air.s_c_leaf(k)] == mark(r == 32 * air.s_cm_leaf(k)),
        0 <= i < 4,
    ensures
        value(w_times(w_per(air.s_c_leaf(k)), w_minus(w_cur(i), w_cur(air.s_cg(k, i)))), win) == 0,
        value(w_times(w_per(air.s_c_leaf(k)), w_cur(4 + i)), win) == 0,
{
    let on = w_per(air.s_c_leaf(k));
    let pre = air.s_commit_preimage(q, k);
    let path = q.commits@[k].path;
    air.lemma_bounds();
    air.lemma_terms();
    air.lemma_preimages(q, 0);
    assert(pre.len() == air.s_cm_leaf_felts());
    assert(q.commits@[k].group@.len() == 4);
    assert(commit_holds(air, g, row, q, k));
    lemma_leaf_values(air.s_c_leaf(k), win);
    lemma_group_carried(air, g, row, q, r, k, i);
    lemma_leaf_values(i, win);
    lemma_leaf_values(4 + i, win);
    lemma_leaf_values(air.s_cg(k, i), win);
    if r == 32 * air.s_cm_leaf(k) {
        let w = air.s_fold_w();
        lemma_leaf_first(g, w, row + r, pre, contents(path.siblings@), path.bits@, 0, i);
        lemma_leaf_first(g, w, row + r, pre, contents(path.siblings@), path.bits@, 0, 4 + i);
        assert(pre[i] == q.commits@[k].group@[i]);
    }
    lemma_switched(on, w_cur(i), w_cur(air.s_cg(k, i)), win);
    lemma_zero_product(on, w_cur(4 + i), win);
}

/// The fold group of round `k`: the running value and its sibling, in the order that the round's bit names.
pub open spec fn group_ordered(q: QueryData, k: int) -> bool {
    let p = q.rounds@[k];
    let (e, s) = (coords(fold_value(q.ro, q.rounds@, k as nat)), coords(p.sibling));
    let group = q.commits@[k].group@;
    forall|i: int|
        0 <= i < 2 ==> f_red(#[trigger] group[i] as int) == (if p.bit {
            s[i]
        } else {
            e[i]
        }) && f_red(group[2 + i] as int) == (if p.bit {
            e[i]
        } else {
            s[i]
        })
}

/// A coordinate of a fold group on its fold row, and the one two behind it.
#[verifier::spinoff_prover]
#[verifier::rlimit(40)]
proof fn lemma_group_lane(air: MonolithAir, g: Seq<u64>, row: int, q: QueryData, k: int, r: int, win: Window, i: int)
    requires
        air.wf(),
        tile_built(air, g, row, q),
        group_ordered(q, k),
        0 <= k < air.s_cm_rounds(),
        k < 32,
        0 <= r < air.s_m_period(),
        win.cur == row_at(g, air.s_fold_w(), row + r),
        0 <= air.s_p_round(k) <= usize::MAX,
        win.periodic[air.s_p_round(k)] == mark(r == k),
        0 <= i < 2,
    ensures
        ({
            let on = w_per(air.s_p_round(k));
            let bit = w_cur(QT_BIT as int);
            let nbit = w_minus(w_const(1), bit);
            let (e, s) = (w_cur(QT_E + i), w_cur(QT_S + i));
            &&& value(
                w_times(on, w_minus(w_cur(air.s_cg(k, i)), w_plus(w_times(nbit, e), w_times(bit, s)))),
                win,
            ) == 0
            &&& value(
                w_times(on, w_minus(w_cur(air.s_cg(k, 2 + i)), w_plus(w_times(nbit, s), w_times(bit, e)))),
                win,
            ) == 0
        }),
{
    let on = w_per(air.s_p_round(k));
    let bit = w_cur(QT_BIT as int);
    let nbit = w_minus(w_const(1), bit);
    let (e, s) = (w_cur(QT_E + i), w_cur(QT_S + i));
    let (there, back) = (
        w_plus(w_times(nbit, e), w_times(bit, s)),
        w_plus(w_times(nbit, s), w_times(bit, e)),
    );
    air.lemma_bounds();
    air.lemma_terms();
    lemma_leaf_values(air.s_p_round(k), win);
    lemma_group_carried(air, g, row, q, r, k, i);
    lemma_group_carried(air, g, row, q, r, k, 2 + i);
    lemma_leaf_values(air.s_cg(k, i), win);
    lemma_leaf_values(air.s_cg(k, 2 + i), win);
    if r == k {
        let p = q.rounds@[k];
        let cells = chain_cells(q.ro, q.rounds@, k as nat);
        let run = fold_value(q.ro, q.rounds@, k as nat);
        let w = air.s_fold_w();
        lemma_chain_len(q.ro, q.rounds@, k as nat);
        lemma_chain_cells_are(q.ro, q.rounds@, k as nat);
        assert(cell(g, w, row + k, QT_E + i) == cells[i]);
        assert(cell(g, w, row + k, QT_S + i) == cells[2 + i]);
        assert(cell(g, w, row + k, 6) == cells[6]);
        lemma_leaf_values(QT_E + i, win);
        lemma_leaf_values(QT_S + i, win);
        lemma_leaf_values(QT_BIT as int, win);
        assert(cells[i] == coords(run)[i] && cells[2 + i] == coords(p.sibling)[i]);
        assert(win.cur[QT_BIT as int] == bit_felt(p.bit));
        lemma_chosen(bit, e, s, win);
        lemma_chosen(bit, s, e, win);
        lemma_coord_again(run, i);
        lemma_coord_again(p.sibling, i);
        assert(f_red(q.commits@[k].group@[i] as int) == value(there, win));
        assert(f_red(q.commits@[k].group@[2 + i] as int) == value(back, win));
    }
    lemma_switched(on, w_cur(air.s_cg(k, i)), there, win);
    lemma_switched(on, w_cur(air.s_cg(k, 2 + i)), back, win);
}

/// A coordinate is reduced.
proof fn lemma_coord_again(x: Ext, i: int)
    requires
        0 <= i < 2,
    ensures
        f_red(coords(x)[i] as int) == coords(x)[i],
{
}

/// On every row of a built super-tile the fold group of a round is the running value and its sibling in index order,
/// seeded on its fold row and held: the constraints vanish.
#[verifier::spinoff_prover]
#[verifier::rlimit(60)]
pub proof fn law_built_group(air: MonolithAir, g: Seq<u64>, row: int, q: QueryData, k: int, r: int, win: Window)
    requires
        air.wf(),
        tile_built(air, g, row, q),
        group_ordered(q, k),
        0 <= k < air.s_cm_rounds(),
        k < 32,
        0 <= r < air.s_m_period(),
        win.cur == row_at(g, air.s_fold_w(), row + r),
        r < air.s_m_period() - 1 ==> win.nxt == row_at(g, air.s_fold_w(), row + r + 1),
        0 <= air.s_p_st_last() <= usize::MAX,
        win.periodic[air.s_p_st_last()] == mark(r == air.s_m_period() - 1),
        0 <= air.s_p_round(k) <= usize::MAX,
        win.periodic[air.s_p_round(k)] == mark(r == k),
    ensures
        vanish(air.s_group(k), win),
{
    lemma_group_lane(air, g, row, q, k, r, win, 0);
    lemma_group_lane(air, g, row, q, k, r, win, 1);
    lemma_group_carried(air, g, row, q, r, k, 0);
    lemma_group_carried(air, g, row, q, r, k, 1);
    lemma_group_carried(air, g, row, q, r, k, 2);
    lemma_group_carried(air, g, row, q, r, k, 3);
    lemma_hold_vanishes(air, g, row, q, r, win, air.s_cg(k, 0) - air.s_ov());
    lemma_hold_vanishes(air, g, row, q, r, win, air.s_cg(k, 1) - air.s_ov());
    lemma_hold_vanishes(air, g, row, q, r, win, air.s_cg(k, 2) - air.s_ov());
    lemma_hold_vanishes(air, g, row, q, r, win, air.s_cg(k, 3) - air.s_ov());
}

/// Component `j` of chunk `i` in the preimage of the quotient leaf.
#[verifier::rlimit(30)]
proof fn lemma_quot_felt(air: MonolithAir, q: QueryData, n: nat, i: int, j: int)
    requires
        air.wf(),
        air.query_fits(q),
        0 <= i < n <= air.s_nqc(),
        0 <= j < air.s_trm_chunk_w(),
    ensures
        air.s_quot_preimage(q, n)[air.s_quot_chunk_stride() * i + j] == q.terms@[air.s_trm_quot(i, j)].px,
    decreases n,
{
    let m = (n - 1) as nat;
    let stride = air.s_quot_chunk_stride();
    air.lemma_preimages(q, m);
    let head = air.s_quot_preimage(q, m);
    let chunk = Seq::new(air.s_trm_chunk_w() as nat, |k: int| q.terms@[air.s_trm_quot(n - 1, k)].px);
    assert(head.len() == stride * m) by (nonlinear_arith)
        requires
            head.len() == (if stride == 10 { 10 * m } else { 2 * m }),
            stride == 10 || stride == 2,
    ;
    if i < m {
        lemma_quot_felt(air, q, m, i, j);
        assert(stride * i + stride <= stride * m) by (nonlinear_arith)
            requires
                i + 1 <= m,
                stride >= 0,
        ;
        assert(0 <= stride * i) by (nonlinear_arith)
            requires
                0 <= i,
                stride >= 0,
        ;
        assert(j < stride);
    } else {
        assert(air.s_quot_preimage(q, n)[head.len() + j] == chunk[j]);
    }
}

/// Felt `c` of the quotient row: held, and on the head row feeding its term.
#[verifier::spinoff_prover]
#[verifier::rlimit(60)]
proof fn lemma_quot_row_felt(air: MonolithAir, g: Seq<u64>, row: int, q: QueryData, r: int, win: Window, c: int)
    requires
        air.buildable(),
        tile_built(air, g, row, q),
        0 <= r < air.s_m_period(),
        win.cur == row_at(g, air.s_fold_w(), row + r),
        r < air.s_m_period() - 1 ==> win.nxt == row_at(g, air.s_fold_w(), row + r + 1),
        0 <= air.s_p_st_last() <= usize::MAX,
        win.periodic[air.s_p_st_last()] == mark(r == air.s_m_period() - 1),
        0 <= air.s_m_tf() <= usize::MAX,
        win.periodic[air.s_m_tf()] == mark(r == 0),
        0 <= c < air.s_quot_leaf_felts(),
    ensures
        vanish(air.s_quot_row(c), win),
{
    let tf = w_per(air.s_m_tf());
    let hold = w_times(w_per(air.s_s_query()), w_minus(w_const(1), w_per(air.s_p_st_last())));
    let at = air.s_qc(c);
    let base = air.s_ov_carrier_w() + air.s_random_carriers() + air.s_aux_carriers();
    let (i, j) = (air.s_chunk_of(c), air.s_chunk_component(c));
    let kept = seq![w_on_transition(w_times(hold, w_minus(w_nxt(at), w_cur(at))))];
    air.lemma_bounds();
    air.lemma_terms();
    air.lemma_chunks(c);
    air.lemma_preimages(q, air.s_nqc() as nat);
    lemma_carrier_parts(air, q);
    let pre = air.s_quot_preimage(q, air.s_nqc() as nat);
    assert(air.s_carrier_cells(q)[base + c] == pre[c]);
    assert(base + c < air.s_carrier_cells(q).len());
    lemma_hold_vanishes(air, g, row, q, r, win, base + c);
    lemma_carried(air, g, row, q, r, base + c);
    lemma_leaf_values(air.s_m_tf(), win);
    lemma_leaf_values(at, win);
    vstd::arithmetic::div_mod::lemma_fundamental_div_mod(c, air.s_quot_chunk_stride());
    if j < air.s_trm_chunk_w() && !air.narrow_arith {
        let k = air.s_trm_quot(i, j);
        let px = air.s_px(k);
        lemma_head_px(air, g, row, q, k);
        lemma_leaf_values(px, win);
        lemma_quot_felt(air, q, air.s_nqc() as nat, i, j);
        assert(pre[c] == q.terms@[k].px);
        if r == 0 {
            assert(row + r == row);
            assert(f_red(f_red(q.terms@[k].px as int) as int) == f_red(q.terms@[k].px as int));
        }
        lemma_switched(tf, w_cur(at), w_cur(px), win);
        let fed = seq![w_times(tf, w_minus(w_cur(at), w_cur(px)))];
        assert(air.s_quot_row(c) == kept + fed);
        lemma_vanish_parts(kept, fed, win);
    } else {
        assert(air.s_quot_row(c) == kept + Seq::<Wire>::empty());
        lemma_vanish_parts(kept, Seq::<Wire>::empty(), win);
    }
}

/// On every row of a built super-tile the quotient row is held, and on its head row its components feed their terms: the
/// constraints vanish.
pub proof fn law_built_quotient_row(air: MonolithAir, g: Seq<u64>, row: int, q: QueryData, r: int, win: Window)
    requires
        air.buildable(),
        tile_built(air, g, row, q),
        0 <= r < air.s_m_period(),
        win.cur == row_at(g, air.s_fold_w(), row + r),
        r < air.s_m_period() - 1 ==> win.nxt == row_at(g, air.s_fold_w(), row + r + 1),
        0 <= air.s_p_st_last() <= usize::MAX,
        win.periodic[air.s_p_st_last()] == mark(r == air.s_m_period() - 1),
        0 <= air.s_m_tf() <= usize::MAX,
        win.periodic[air.s_m_tf()] == mark(r == 0),
    ensures
        vanish(air.all_quot_row(), win),
{
    let n = air.s_quot_leaf_felts();
    air.lemma_bounds();
    assert forall|c: int| 0 <= c < n implies vanish(#[trigger] air.f_quot_row()(c), win) by {
        lemma_quot_row_felt(air, g, row, q, r, win, c);
    }
    lemma_vanish_flat(n, air.f_quot_row(), win);
}

/// Felt `c` of the random row: held, and on the head row feeding its term.
#[verifier::spinoff_prover]
#[verifier::rlimit(60)]
proof fn lemma_random_felt(air: MonolithAir, g: Seq<u64>, row: int, q: QueryData, r: int, win: Window, c: int)
    requires
        air.buildable(),
        !air.narrow_arith,
        air.is_zk == 1,
        tile_built(air, g, row, q),
        0 <= r < air.s_m_period(),
        win.cur == row_at(g, air.s_fold_w(), row + r),
        r < air.s_m_period() - 1 ==> win.nxt == row_at(g, air.s_fold_w(), row + r + 1),
        0 <= air.s_p_st_last() <= usize::MAX,
        win.periodic[air.s_p_st_last()] == mark(r == air.s_m_period() - 1),
        0 <= air.s_m_tf() <= usize::MAX,
        win.periodic[air.s_m_tf()] == mark(r == 0),
        0 <= c < air.s_random_leaf_felts(),
    ensures
        vanish(air.s_random_row(c), win),
{
    let tf = w_per(air.s_m_tf());
    let hold = w_times(w_per(air.s_s_query()), w_minus(w_const(1), w_per(air.s_p_st_last())));
    let at = air.s_ov_random(c);
    let base = air.s_ov_carrier_w();
    let kept = seq![w_on_transition(w_times(hold, w_minus(w_nxt(at), w_cur(at))))];
    air.lemma_bounds();
    air.lemma_terms();
    air.lemma_preimages(q, air.s_nqc() as nat);
    lemma_carrier_parts(air, q);
    let pre = air.s_random_preimage(q);
    assert(air.s_carrier_cells(q)[base + c] == pre[c]);
    assert(base + c < air.s_carrier_cells(q).len());
    lemma_hold_vanishes(air, g, row, q, r, win, base + c);
    lemma_carried(air, g, row, q, r, base + c);
    lemma_leaf_values(air.s_m_tf(), win);
    lemma_leaf_values(at, win);
    if c < air.s_random_committed_w() {
        let px = air.s_px(c);
        lemma_head_px(air, g, row, q, c);
        lemma_leaf_values(px, win);
        assert(pre[c] == q.terms@[c].px);
        if r == 0 {
            assert(row + r == row);
            assert(f_red(f_red(q.terms@[c].px as int) as int) == f_red(q.terms@[c].px as int));
        }
        lemma_switched(tf, w_cur(at), w_cur(px), win);
        let fed = seq![w_times(tf, w_minus(w_cur(at), w_cur(px)))];
        assert(air.s_random_row(c) == kept + fed);
        lemma_vanish_parts(kept, fed, win);
    } else {
        assert(air.s_random_row(c) == kept + Seq::<Wire>::empty());
        lemma_vanish_parts(kept, Seq::<Wire>::empty(), win);
    }
}

/// On every row of a built super-tile the random row is held, and on its head row its values feed their terms: the
/// constraints vanish.
pub proof fn law_built_random_row(air: MonolithAir, g: Seq<u64>, row: int, q: QueryData, r: int, win: Window)
    requires
        air.buildable(),
        !air.narrow_arith,
        tile_built(air, g, row, q),
        0 <= r < air.s_m_period(),
        win.cur == row_at(g, air.s_fold_w(), row + r),
        r < air.s_m_period() - 1 ==> win.nxt == row_at(g, air.s_fold_w(), row + r + 1),
        0 <= air.s_p_st_last() <= usize::MAX,
        win.periodic[air.s_p_st_last()] == mark(r == air.s_m_period() - 1),
        0 <= air.s_m_tf() <= usize::MAX,
        win.periodic[air.s_m_tf()] == mark(r == 0),
    ensures
        vanish(air.all_random_row(), win),
{
    if air.is_zk == 1 {
        let n = air.s_random_leaf_felts();
        assert forall|c: int| 0 <= c < n implies vanish(#[trigger] air.f_random_row()(c), win) by {
            lemma_random_felt(air, g, row, q, r, win, c);
        }
        lemma_vanish_flat(n, air.f_random_row(), win);
    }
}

/// The terms of an aux column at the point and at the next point share the queried value.
pub open spec fn aux_shared(air: MonolithAir, q: QueryData) -> bool {
    forall|c: int|
        0 <= c < air.s_aux_base_w() ==> f_red(q.terms@[#[trigger] air.s_trm_aux_next(c)].px as int) == f_red(
            q.terms@[air.s_trm_aux(c)].px as int,
        )
}

/// Felt `c` of the aux row: held, and on the head row feeding its terms.
#[verifier::spinoff_prover]
#[verifier::rlimit(60)]
proof fn lemma_aux_felt(air: MonolithAir, g: Seq<u64>, row: int, q: QueryData, r: int, win: Window, c: int)
    requires
        air.buildable(),
        !air.narrow_arith,
        air.s_is_lookup(),
        tile_built(air, g, row, q),
        aux_shared(air, q),
        0 <= r < air.s_m_period(),
        win.cur == row_at(g, air.s_fold_w(), row + r),
        r < air.s_m_period() - 1 ==> win.nxt == row_at(g, air.s_fold_w(), row + r + 1),
        0 <= air.s_p_st_last() <= usize::MAX,
        win.periodic[air.s_p_st_last()] == mark(r == air.s_m_period() - 1),
        0 <= air.s_m_tf() <= usize::MAX,
        win.periodic[air.s_m_tf()] == mark(r == 0),
        0 <= c < air.s_aux_base_w(),
    ensures
        vanish(air.s_aux_row(c), win),
{
    let tf = w_per(air.s_m_tf());
    let hold = w_times(w_per(air.s_s_query()), w_minus(w_const(1), w_per(air.s_p_st_last())));
    let at = air.s_ov_aux(c);
    let base = air.s_ov_carrier_w() + air.s_random_carriers();
    let (k, l) = (air.s_trm_aux(c), air.s_trm_aux_next(c));
    let (here, next) = (air.s_px(k), air.s_px(l));
    air.lemma_bounds();
    air.lemma_terms();
    air.lemma_preimages(q, air.s_nqc() as nat);
    lemma_carrier_parts(air, q);
    let pre = air.s_aux_preimage(q);
    assert(air.s_carrier_cells(q)[base + c] == pre[c]);
    assert(base + c < air.s_carrier_cells(q).len());
    lemma_hold_vanishes(air, g, row, q, r, win, base + c);
    lemma_carried(air, g, row, q, r, base + c);
    lemma_leaf_values(air.s_m_tf(), win);
    lemma_leaf_values(at, win);
    assert(0 <= k < air.n_terms && 0 <= l < air.n_terms);
    lemma_head_px(air, g, row, q, k);
    lemma_head_px(air, g, row, q, l);
    lemma_leaf_values(here, win);
    lemma_leaf_values(next, win);
    assert(pre[c] == q.terms@[k].px);
    assert(f_red(q.terms@[air.s_trm_aux_next(c)].px as int) == f_red(q.terms@[air.s_trm_aux(c)].px as int));
    if r == 0 {
        assert(row + r == row);
        assert(f_red(f_red(q.terms@[k].px as int) as int) == f_red(q.terms@[k].px as int));
    }
    lemma_switched(tf, w_cur(at), w_cur(here), win);
    lemma_switched(tf, w_cur(at), w_cur(next), win);
    assert(air.s_aux_row(c) =~= seq![
        w_on_transition(w_times(hold, w_minus(w_nxt(at), w_cur(at)))),
        w_times(tf, w_minus(w_cur(at), w_cur(here))),
        w_times(tf, w_minus(w_cur(at), w_cur(next))),
    ]);
}

/// On every row of a built super-tile the aux row is held, and on its head row it feeds the terms at both points: the
/// constraints vanish, where the terms of a column share the queried value.
pub proof fn law_built_aux_row(air: MonolithAir, g: Seq<u64>, row: int, q: QueryData, r: int, win: Window)
    requires
        air.buildable(),
        !air.narrow_arith,
        tile_built(air, g, row, q),
        air.s_is_lookup() ==> aux_shared(air, q),
        0 <= r < air.s_m_period(),
        win.cur == row_at(g, air.s_fold_w(), row + r),
        r < air.s_m_period() - 1 ==> win.nxt == row_at(g, air.s_fold_w(), row + r + 1),
        0 <= air.s_p_st_last() <= usize::MAX,
        win.periodic[air.s_p_st_last()] == mark(r == air.s_m_period() - 1),
        0 <= air.s_m_tf() <= usize::MAX,
        win.periodic[air.s_m_tf()] == mark(r == 0),
    ensures
        vanish(air.all_aux_row(), win),
{
    if air.s_is_lookup() {
        let n = air.s_aux_base_w();
        assert forall|c: int| 0 <= c < n implies vanish(#[trigger] air.f_aux_row()(c), win) by {
            lemma_aux_felt(air, g, row, q, r, win, c);
        }
        lemma_vanish_flat(n, air.f_aux_row(), win);
    }
}

} // verus!
