//! The row pairs of a trace under the periodic columns, and the constraints that a row switches off.

use vstd::prelude::*;

use super::eval::MonolithBci;
use super::grid::cell;
use super::layout::{MonolithAir, BLOCK, M_INPUT_LEAF};
use super::leaves::mark;
use super::reading::row_at;
use super::selection::shows_selectors;
use crate::emit::flat;
use crate::expr::{value, w_times, Expr, Window, Wire};
use crate::gadgets::traces::lemma_zero_product;
use crate::poseidon::schedule;
use crate::vanish::{lemma_vanish_flat, vanish};

verus! {

/// The instances neither hide nor look up.
pub open spec fn plain_rounds(air: MonolithAir) -> bool {
    &&& air.is_zk == 0
    &&& air.lookup is None
}

/// Row `r` of a trace and the row after it, the first one after the last, with the periodic columns on row `r`.
pub open spec fn row_pair(air: MonolithAir, g: Seq<u64>, publics: Seq<u64>, r: int) -> Window {
    let (h, w) = (air.s_height(), air.s_fold_w());
    Window {
        cur: row_at(g, w, r),
        nxt: row_at(g, w, (r + 1) % h),
        periodic: Seq::new(
            air.s_num_periodic_columns() as nat,
            |j: int| air.tiled_column(j)[r % (air.tiled_column(j).len() as int)],
        ),
        publics,
        is_first: mark(r == 0),
        is_last: mark(r == h - 1),
        is_transition: mark(r != h - 1),
    }
}

/// Every constraint vanishes on every row pair.
#[verifier::opaque]
pub open spec fn satisfied<S: MonolithBci>(bci: S, air: MonolithAir, g: Seq<u64>, publics: Seq<u64>) -> bool {
    forall|r: int| 0 <= r < air.s_height() ==> vanish(air.s_eval(bci), #[trigger] row_pair(air, g, publics, r))
}

/// What the periodic columns show on row `r` of an instance.
pub open spec fn columns_shown(air: MonolithAir, win: Window, r: int) -> bool {
    &&& shows_selectors(air, win, r)
    &&& forall|j: int| 0 <= j < 11 ==> #[trigger] win.periodic[j] == schedule(j, r % 32)
    &&& win.periodic[11] == mark(r % 32 == 31)
    &&& win.periodic[12] == (if r < air.s_tr() {
        air.s_count(r / 32)
    } else {
        0
    })
    &&& win.periodic[13] == (if r < air.s_tr() {
        air.s_count(r / 32 + 1)
    } else {
        0
    })
    &&& win.periodic[air.s_p_inst_first()] == mark(r == 0)
    &&& win.periodic[air.s_p_inst_last()] == mark(r == air.s_inst_h() - 1)
}

/// A window over row `r` of an instance whose rows are `g`: the row, the periodic columns, and the next row where the
/// instance has one. What stands behind the last row of the instance is left open.
pub open spec fn shows_row(air: MonolithAir, g: Seq<u64>, win: Window, r: int) -> bool {
    &&& win.cur == row_at(g, air.s_fold_w(), r)
    &&& r + 1 < air.s_inst_h() ==> win.nxt == row_at(g, air.s_fold_w(), r + 1) && win.is_transition == 1
    &&& columns_shown(air, win, r)
}

/// The rows of instance `i` of a trace.
pub open spec fn instance_rows(air: MonolithAir, g: Seq<u64>, i: int) -> Seq<u64> {
    let n = air.s_inst_h() * air.s_fold_w();
    g.subrange(i * n, i * n + n)
}

/// The windows over the rows of instance `i` of a trace.
pub open spec fn instance_pairs(air: MonolithAir, g: Seq<u64>, publics: Seq<u64>, i: int) -> spec_fn(int) -> Window {
    |r: int| row_pair(air, g, publics, i * air.s_inst_h() + r)
}

/// Where the periodic columns stand.
pub(super) proof fn lemma_columns_stand(air: MonolithAir)
    requires
        air.wf(),
    ensures
        15 <= air.s_p_round(0) <= air.s_m_base(),
        air.s_m_base() + 11 < air.s_leaf_absorb_base() <= air.s_quot_absorb_base() <= air.s_fold_base(),
        air.s_fold_base() <= air.s_random_absorb_base() <= air.s_aux_absorb_base() <= air.s_commit_absorb_base(),
        air.s_commit_absorb_base() <= air.s_p_inst_first(),
        plain_rounds(air) ==> air.s_p_inst_first() == air.s_fold_base() + air.s_n_fold_p(),
        air.s_p_inst_last() + 1 == air.s_num_periodic_columns() <= usize::MAX,
        air.s_tr() % 32 == 0,
        32 <= air.s_tr() <= air.s_inst_h(),
        air.s_inst_h() % 32 == 0,
        1 <= air.s_cm_rounds(),
        13 <= air.s_fused_w() <= air.s_fold_w() <= usize::MAX,
        air.s_tr() + air.n_queries * air.s_m_period() <= air.s_inst_h(),
{
    air.lemma_bounds();
    air.lemma_terms();
    crate::bits::lemma_next_pow2(air.counts@.len());
    crate::bits::lemma_next_pow2_of_block((air.s_tr() + air.n_queries * air.s_m_period()) as nat);
}

/// A row of instance `i` lies in the trace.
pub(super) proof fn lemma_instance_row(air: MonolithAir, i: int, r: int)
    requires
        air.wf(),
        0 <= i < air.k_instances,
        0 <= r < air.s_inst_h(),
    ensures
        0 <= i * air.s_inst_h(),
        i * air.s_inst_h() + r < air.s_height(),
        (i * air.s_inst_h() + r) % air.s_inst_h() == r,
        i * air.s_inst_h() + r == air.s_height() - 1 ==> i == air.k_instances - 1 && r == air.s_inst_h() - 1,
{
    let h = air.s_inst_h();
    assert(0 <= i * h && (i + 1) * h <= air.k_instances * h && (i + 1) * h == i * h + h) by (nonlinear_arith)
        requires
            0 <= i < air.k_instances,
            0 < h,
    ;
    vstd::arithmetic::div_mod::lemma_fundamental_div_mod_converse(i * h + r, h, i, r);
    if i * h + r == air.s_height() - 1 && i < air.k_instances - 1 {
        assert((i + 2) * h <= air.k_instances * h && (i + 2) * h == i * h + h + h) by (nonlinear_arith)
            requires
                0 <= i < air.k_instances - 1,
                0 < h,
        ;
    }
}

/// A cell of an instance's rows is that of the trace.
pub(super) proof fn lemma_instance_cell(air: MonolithAir, g: Seq<u64>, i: int, r: int, c: int)
    requires
        air.wf(),
        g.len() == air.s_height() * air.s_fold_w(),
        0 <= i < air.k_instances,
        0 <= r < air.s_inst_h(),
        0 <= c < air.s_fold_w(),
    ensures
        cell(instance_rows(air, g, i), air.s_fold_w(), r, c) == cell(g, air.s_fold_w(), i * air.s_inst_h() + r, c),
{
    let (h, w) = (air.s_inst_h(), air.s_fold_w());
    let n = h * w;
    assert(0 <= r * w && r * w + w <= n) by (nonlinear_arith)
        requires
            0 <= r < h,
            0 <= w,
            n == h * w,
    ;
    assert((i * h + r) * w == i * n + r * w) by (nonlinear_arith)
        requires
            n == h * w,
    ;
    assert(0 <= i * n && i * n + n <= air.s_height() * w) by (nonlinear_arith)
        requires
            0 <= i < air.k_instances,
            0 <= n,
            n == h * w,
            air.s_height() == air.k_instances * h,
    ;
}

/// The row pairs of an instance show its rows.
#[verifier::spinoff_prover]
#[verifier::rlimit(40)]
pub proof fn law_instance_pairs(air: MonolithAir, g: Seq<u64>, publics: Seq<u64>, i: int, r: int)
    requires
        air.wf(),
        g.len() == air.s_height() * air.s_fold_w(),
        0 <= i < air.k_instances,
        0 <= r < air.s_inst_h(),
    ensures
        shows_row(air, instance_rows(air, g, i), instance_pairs(air, g, publics, i)(r), r),
{
    let (h, w) = (air.s_inst_h(), air.s_fold_w());
    let row = i * h + r;
    let win = row_pair(air, g, publics, row);
    let own = instance_rows(air, g, i);
    lemma_columns_stand(air);
    lemma_instance_row(air, i, r);
    assert forall|c: int| 0 <= c < w implies #[trigger] row_at(own, w, r)[c] == row_at(g, w, row)[c] by {
        lemma_instance_cell(air, g, i, r, c);
    }
    assert(row_at(own, w, r) =~= row_at(g, w, row));
    if r + 1 < h {
        lemma_instance_row(air, i, r + 1);
        vstd::arithmetic::div_mod::lemma_small_mod((row + 1) as nat, air.s_height() as nat);
        assert forall|c: int| 0 <= c < w implies #[trigger] row_at(own, w, r + 1)[c] == row_at(g, w, row + 1)[c] by {
            lemma_instance_cell(air, g, i, r + 1, c);
        }
        assert(row_at(own, w, r + 1) =~= row_at(g, w, row + 1));
    }
    lemma_pair_columns(air, g, publics, i, r);
}

/// What the periodic columns show on a row pair.
#[verifier::spinoff_prover]
#[verifier::rlimit(40)]
pub(super) proof fn lemma_pair_columns(air: MonolithAir, g: Seq<u64>, publics: Seq<u64>, i: int, r: int)
    requires
        air.wf(),
        0 <= i < air.k_instances,
        0 <= r < air.s_inst_h(),
    ensures
        columns_shown(air, row_pair(air, g, publics, i * air.s_inst_h() + r), r),
{
    let (k, h) = (air.k_instances as int, air.s_inst_h());
    let row = i * h + r;
    let win = row_pair(air, g, publics, row);
    lemma_columns_stand(air);
    lemma_instance_row(air, i, r);
    reveal(MonolithAir::column);
    assert(row % air.s_height() == row) by {
        vstd::arithmetic::div_mod::lemma_small_mod(row as nat, air.s_height() as nat);
    }
    assert(row % 32 == r % 32) by {
        let m = h / 32;
        assert(i * (32 * m) == 32 * (i * m)) by (nonlinear_arith);
        assert(row == 32 * (i * m) + r);
    }
    assert forall|j: int| 0 <= j < 11 implies #[trigger] win.periodic[j] == schedule(j, r % 32) by {
        assert(air.column(j).len() == 32);
        assert(k as nat * air.column(j).len() == k * 32);
        assert(air.tiled_column(j).len() == k * 32);
        let at = row % (k * 32);
        vstd::arithmetic::div_mod::lemma_mod_bound(row, k * 32);
        assert(at % 32 == row % 32) by {
            vstd::arithmetic::div_mod::lemma_mod_mod(row, 32, k);
            assert(32 * k == k * 32);
        }
        assert(air.tiled_column(j)[at] == air.column(j)[at % 32]);
    }
    assert forall|j: int| 11 <= j < air.s_p_inst_first() implies #[trigger] win.periodic[j] == air.column(j)[r] by {
        assert(air.column(j).len() == h);
        assert(k as nat * air.column(j).len() == air.s_height());
        assert(air.tiled_column(j).len() == air.s_height());
        assert(air.tiled_column(j)[row] == air.column(j)[row % h]);
    }
    assert(win.periodic[11] == air.column(11)[r]);
    assert(win.periodic[12] == air.column(12)[r]);
    assert(win.periodic[13] == air.column(13)[r]);
    let (f, l) = (air.s_p_inst_first(), air.s_p_inst_last());
    assert(air.tiled_column(f).len() == air.s_height() && air.tiled_column(f)[row] == mark(r == 0));
    assert(air.tiled_column(l).len() == air.s_height() && air.tiled_column(l)[row] == mark(r == h - 1));
}

/// The constraint is a product with a factor that is zero, outside or under the transition switch.
pub open spec fn off(e: Wire, w: Window) -> bool {
    match *e {
        Expr::Product(a, b) => value(a, w) == 0 || match *b {
            Expr::Product(c, d) => value(c, w) == 0,
            _ => false,
        },
        _ => false,
    }
}

/// Every constraint of a list is switched off.
pub open spec fn all_off(cs: Seq<Wire>, w: Window) -> bool {
    forall|i: int| 0 <= i < cs.len() ==> off(#[trigger] cs[i], w)
}

/// What is switched off vanishes.
pub(super) proof fn lemma_off(cs: Seq<Wire>, w: Window)
    requires
        all_off(cs, w),
    ensures
        vanish(cs, w),
{
    assert forall|i: int| 0 <= i < cs.len() implies value(#[trigger] cs[i], w) == 0 by {
        assert(off(cs[i], w));
        match *cs[i] {
            Expr::Product(a, b) => {
                match *b {
                    Expr::Product(c, d) => {
                        if value(c, w) == 0 {
                            lemma_zero_product(c, d, w);
                            assert(value(b, w) == value(w_times(c, d), w));
                        }
                    },
                    _ => {},
                }
                lemma_zero_product(a, b, w);
                assert(value(cs[i], w) == value(w_times(a, b), w));
            },
            _ => {},
        }
    }
}

/// Families that are switched off vanish.
pub(super) proof fn lemma_flat_off(n: int, f: spec_fn(int) -> Seq<Wire>, w: Window)
    requires
        forall|i: int| 0 <= i < n ==> all_off(#[trigger] f(i), w),
    ensures
        vanish(flat(n, f), w),
{
    if n > 0 {
        assert forall|i: int| 0 <= i < n implies vanish(#[trigger] f(i), w) by {
            lemma_off(f(i), w);
        }
        lemma_vanish_flat(n, f, w);
    } else {
        assert(flat(n, f).len() == 0);
    }
}

/// A selector of the super-tiles.
pub open spec fn tile_switch(air: MonolithAir, j: int) -> bool {
    &&& air.s_p_round(0) <= j < air.s_fold_base() || air.s_random_absorb_base() <= j < air.s_p_inst_first()
    &&& j != air.s_s_trans()
    &&& j != air.s_s_trans_trans()
}

/// No selector of the super-tiles is set.
pub open spec fn idle(air: MonolithAir, win: Window) -> bool {
    forall|j: int| tile_switch(air, j) ==> #[trigger] win.periodic[j] == 0
}

proof fn lemma_no_tile(air: MonolithAir, row: int)
    requires
        air.wf(),
        row < air.s_tr() || row >= air.s_tr() + air.n_queries * air.s_m_period(),
    ensures
        forall|o: int| 0 <= o < air.s_m_period() ==> !#[trigger] air.on_tiles(row, o),
        !air.in_tile(row, 0),
        !air.in_tile(row, BLOCK as int),
{
    air.lemma_bounds();
    assert forall|q: int| 0 <= q < air.n_queries implies !((#[trigger] air.s_tile(q)) <= row < air.s_tile(q)
        + air.s_m_period()) by {
        assert(0 <= q * air.s_m_period() && (q + 1) * air.s_m_period() <= air.n_queries * air.s_m_period()
            && (q + 1) * air.s_m_period() == q * air.s_m_period() + air.s_m_period()) by (nonlinear_arith)
            requires
                0 <= q < air.n_queries,
                0 <= air.s_m_period(),
        ;
    }
}

/// Outside the super-tiles none of their selectors is set.
pub(super) proof fn lemma_idle(air: MonolithAir, win: Window, row: int)
    requires
        air.wf(),
        shows_selectors(air, win, row),
        row < air.s_tr() || row >= air.s_tr() + air.n_queries * air.s_m_period(),
    ensures
        idle(air, win),
{
    lemma_columns_stand(air);
    lemma_no_tile(air, row);
    air.lemma_bounds();
    air.lemma_openings_fit();
    air.lemma_period_covers_rounds();
    let mp = air.s_m_period();
    assert forall|j: int| tile_switch(air, j) implies #[trigger] win.periodic[j] == 0 by {
        assert(!air.selector(j, row)) by {
            if j < air.s_p_query(0) {
                assert(!air.on_tiles(row, j - air.s_p_round(0)));
            } else if j < air.s_m_base() {
                let q = j - air.s_p_query(0);
                assert(row == air.s_tile(q) + 0 ==> air.on_tiles(row, 0));
            } else if j < air.s_c_leaf(0) {
                assert(!air.on_tiles(row, 0));
                assert(!air.on_tiles(row, air.s_cm_rounds()));
                assert(!air.on_tiles(row, air.s_m_input_leaf() * 32));
                assert(!air.on_tiles(row, air.s_m_input_term() * 32 + 31));
                assert(!air.on_tiles(row, air.s_m_quot_leaf() * 32));
                assert(!air.on_tiles(row, air.s_m_quot_term() * 32 + 31));
                assert(!air.on_tiles(row, mp - 1));
            } else if j < air.s_c_term(0) {
                let r = j - air.s_c_leaf(0);
                air.lemma_cm_leaf_bound(r as nat);
                assert(!air.on_tiles(row, air.s_cm_leaf(r) * 32));
            } else if j < air.s_leaf_absorb_base() {
                let r = j - air.s_c_term(0);
                air.lemma_cm_leaf_bound(r as nat);
                assert(!air.on_tiles(row, air.s_cm_term(r) * 32 + 31));
            } else if j < air.s_quot_absorb_base() {
                lemma_leaf_idle(
                    air,
                    row,
                    j - air.s_leaf_absorb_base(),
                    air.s_m_input_leaf(),
                    air.s_leaf_blocks(),
                );
            } else if j < air.s_fold_base() {
                lemma_leaf_idle(
                    air,
                    row,
                    j - air.s_quot_absorb_base(),
                    air.s_m_quot_leaf(),
                    air.s_quot_leaf_blocks(),
                );
            } else {
                lemma_front_idle(air, row, j);
            }
        }
    }
}

/// The selectors of the round in front and of the salted leaves, outside the super-tiles.
proof fn lemma_front_idle(air: MonolithAir, row: int, j: int)
    requires
        air.wf(),
        forall|o: int| 0 <= o < air.s_m_period() ==> !#[trigger] air.on_tiles(row, o),
        air.s_random_absorb_base() <= j < air.s_p_inst_first(),
    ensures
        !air.selector(j, row),
{
    lemma_columns_stand(air);
    air.lemma_bounds();
    air.lemma_openings_fit();
    assert(!air.on_tiles(row, M_INPUT_LEAF * 32));
    if j < air.s_aux_absorb_base() {
        let i = j - air.s_random_absorb_base();
        assert(!air.on_tiles(row, air.s_m_random_term() * 32 + 31));
        if i >= 2 {
            lemma_leaf_idle(air, row, i - 2, M_INPUT_LEAF as int, air.s_random_leaf_blocks());
        }
    } else if j < air.s_commit_absorb_base() {
        let i = j - air.s_aux_absorb_base();
        assert(!air.on_tiles(row, air.s_m_aux_term() * 32 + 31));
        if i >= 2 {
            lemma_leaf_idle(air, row, i - 2, M_INPUT_LEAF as int, air.s_aux_leaf_blocks());
        }
    } else if air.at_commit_boundary(row) {
        let r = choose|r: int| 0 <= r < air.s_cm_rounds() && air.at_end(row, #[trigger] air.s_cm_leaf(r));
        air.lemma_cm_leaf_bound(r as nat);
        assert(!air.on_tiles(row, air.s_cm_leaf(r) * 32 + 31));
    }
}

proof fn lemma_leaf_idle(air: MonolithAir, row: int, i: int, head: int, blocks: int)
    requires
        forall|o: int| 0 <= o < air.s_m_period() ==> !#[trigger] air.on_tiles(row, o),
        0 <= i,
        1 <= head,
        1 <= blocks,
        32 * (head + blocks) <= air.s_m_period(),
    ensures
        !air.leaf_selector(i, row, head, blocks),
{
    if i < blocks - 1 {
        assert(!air.on_tiles(row, (head + 1 + i) * 32));
    } else if i == blocks - 1 {
        if air.at_boundary(row, head, blocks) {
            let b = choose|b: int| 1 <= b < blocks && #[trigger] air.at_end(row, head + b - 1);
            assert(!air.on_tiles(row, (head + b - 1) * 32 + 31));
        }
    } else {
        assert(!air.on_tiles(row, (head + blocks - 2) * 32 + 31));
    }
}

} // verus!
