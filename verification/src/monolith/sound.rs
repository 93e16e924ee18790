//! What a trace that satisfies the constraint system shows: the window and the batching challenge are the same in every
//! row, the transcript region runs the permutation from block to block and puts out the window's challenges, and every
//! query's head row and folds are those of the verification.

use vstd::arithmetic::power2::pow2;
use vstd::prelude::*;

use super::arith::steps;
use super::eval::{f_mux, leaf_wires, InlineBci, MonolithBci};
use super::front::{front_base, front_carrier, front_felts};
use super::grid::cell;
use super::index::{
    index_spelled, law_cap_entry_is_selected, law_head_row_point, law_head_row_spells_index, selected_entry,
};
use super::layout::{MonolithAir, FT_BIND_START, QT_B, QT_E};
use super::leaves::mark;
use super::meaning::{
    digest_at, fold_cells, folds, lanes_at, law_fold_row_folds, law_link_pairs, law_steps_advance, law_transcript_carries,
};
use super::pairs::{
    instance_pairs, instance_rows, law_instance_pairs, lemma_columns_stand, lemma_idle, lemma_instance_row,
    row_pair, satisfied, shows_row,
};
use super::places::{
    end_of, first_of, head_of, leaf_of, lemma_front_selectors, lemma_link_value, lemma_more_selectors,
    lemma_not_excluded, lemma_openings_chain,
};
use super::quiet::{
    lemma_caps_parts, lemma_head_parts, lemma_idle_switches, lemma_openings_parts, lemma_quiet_folds,
};
use super::reading::row_at;
use super::reduction::{law_head_row_reduces, row_terms};
use super::satisfied::{
    instance_wires, lemma_bind_selectors, lemma_eval_parts, lemma_instance_parts, lemma_tile_phase,
    lemma_transcript_parts,
};
use super::tilerows::{lemma_query_sum, lemma_round_mask};
use super::tops::{reads_window, slot_of};
use crate::expr::{value, w_const, w_cur, w_minus, w_nxt, w_on_transition, w_per, w_times, Window, Wire};
use crate::field::{f_add, f_red, Ext};
use crate::fri::input::{query_x, reduced};
use crate::fri::witness::climbed_by_bits;
use crate::poseidon::{block_last, block_row, next_row, paired, permuted};
use crate::vanish::{
    lemma_const_value, lemma_gated_equation, lemma_leaf_values, lemma_op_values, lemma_vanish_flat, lemma_vanish_parts,
    pair_at, vanish,
};

verus! {

/// A verifier with everything in columns, on its own.
pub open spec fn inline_alone(air: MonolithAir) -> bool {
    &&& air.eval_ok()
    &&& InlineBci.supports(air)
    &&& 1 <= air.s_cm_rounds() < 32
    &&& air.n_terms >= 1
    &&& air.s_ni() == air.n_queries
}

/// What a trace's first row shows of the public values.
pub open spec fn shown_window(air: MonolithAir, wins: spec_fn(int) -> Window) -> Seq<u64> {
    Seq::new(air.s_pis_count() as nat, |i: int| value(air.s_pi(i), wins(0)))
}

/// The windows over an instance whose rows are `g`, on which its constraints vanish. They all have the same public values.
#[verifier::opaque]
pub open spec fn instance_satisfied(air: MonolithAir, g: Seq<u64>, wins: spec_fn(int) -> Window) -> bool {
    forall|r: int|
        0 <= r < air.s_inst_h() ==> {
            &&& shows_row(air, g, #[trigger] wins(r), r)
            &&& vanish(instance_wires(air), wins(r))
            &&& wins(r).publics == wins(0).publics
        }
}

/// In a trace on whose row pairs the whole system vanishes, every instance satisfies its constraints.
#[verifier::rlimit(30)]
pub proof fn law_satisfied_instance(air: MonolithAir, g: Seq<u64>, publics: Seq<u64>, i: int)
    requires
        inline_alone(air),
        g.len() == air.s_height() * air.s_fold_w(),
        satisfied(InlineBci, air, g, publics),
        0 <= i < air.k_instances,
    ensures
        instance_satisfied(air, instance_rows(air, g, i), instance_pairs(air, g, publics, i)),
{
    let (own, wins) = (instance_rows(air, g, i), instance_pairs(air, g, publics, i));
    reveal(instance_satisfied);
    reveal(satisfied);
    assert forall|r: int| 0 <= r < air.s_inst_h() implies {
        &&& shows_row(air, own, #[trigger] wins(r), r)
        &&& vanish(instance_wires(air), wins(r))
        &&& wins(r).publics == wins(0).publics
    } by {
        lemma_instance_row(air, i, r);
        law_instance_pairs(air, g, publics, i, r);
        assert(vanish(air.s_eval(InlineBci), row_pair(air, g, publics, i * air.s_inst_h() + r)));
        lemma_eval_parts(air, wins(r));
    }
}

/// A window of a satisfied instance shows its row.
pub(super) proof fn lemma_shows(air: MonolithAir, g: Seq<u64>, wins: spec_fn(int) -> Window, r: int)
    requires
        instance_satisfied(air, g, wins),
        0 <= r < air.s_inst_h(),
    ensures
        shows_row(air, g, wins(r), r),
        wins(r).publics == wins(0).publics,
{
    reveal(instance_satisfied);
    assert(shows_row(air, g, wins(r), r));
}

/// On a row pair of a satisfied trace every part of the system vanishes.
proof fn lemma_parts_vanish(air: MonolithAir, g: Seq<u64>, wins: spec_fn(int) -> Window, r: int)
    requires
        inline_alone(air),
        instance_satisfied(air, g, wins),
        0 <= r < air.s_inst_h(),
    ensures
        ({
            let win = wins(r);
            &&& vanish(steps(0, air.s_permutation_rows()), win)
            &&& vanish(air.s_transcript_link(), win)
            &&& vanish(air.all_binds(), win)
            &&& vanish(air.all_index_binds(), win)
            &&& vanish(air.s_carrier(), win)
            &&& vanish(air.all_window(), win)
            &&& vanish(air.s_inline_arith(), win)
            &&& vanish(air.all_betas(), win)
            &&& vanish(air.s_index(), win)
            &&& vanish(air.s_fold_rows(), win)
            &&& vanish(air.s_ood(InlineBci), win)
            &&& vanish(air.s_openings_held(), win)
            &&& vanish(air.s_caps(InlineBci), win)
        }),
{
    let win = wins(r);
    reveal(instance_satisfied);
    assert(vanish(instance_wires(air), wins(r)));
    lemma_instance_parts(air, win);
    lemma_transcript_parts(air, win);
    lemma_head_parts(air, win);
}

/// The permutation constraints vanish on every row pair.
proof fn lemma_steps_at(air: MonolithAir, g: Seq<u64>, wins: spec_fn(int) -> Window, r: int)
    requires
        inline_alone(air),
        instance_satisfied(air, g, wins),
        0 <= r < air.s_inst_h(),
    ensures
        vanish(steps(0, air.s_permutation_rows()), wins(r)),
{
    lemma_parts_vanish(air, g, wins, r);
}

/// The links of the transcript vanish on every row pair.
proof fn lemma_link_at(air: MonolithAir, g: Seq<u64>, wins: spec_fn(int) -> Window, r: int)
    requires
        inline_alone(air),
        instance_satisfied(air, g, wins),
        0 <= r < air.s_inst_h(),
    ensures
        vanish(air.s_transcript_link(), wins(r)),
{
    lemma_parts_vanish(air, g, wins, r);
}

/// The binds vanish on every row pair.
proof fn lemma_binds_at(air: MonolithAir, g: Seq<u64>, wins: spec_fn(int) -> Window, r: int)
    requires
        inline_alone(air),
        instance_satisfied(air, g, wins),
        0 <= r < air.s_inst_h(),
    ensures
        vanish(air.all_binds(), wins(r)),
        vanish(air.all_index_binds(), wins(r)),
{
    lemma_parts_vanish(air, g, wins, r);
}

/// The carrier constraints vanish on every row pair.
proof fn lemma_carrier_at(air: MonolithAir, g: Seq<u64>, wins: spec_fn(int) -> Window, r: int)
    requires
        inline_alone(air),
        instance_satisfied(air, g, wins),
        0 <= r < air.s_inst_h(),
    ensures
        vanish(air.s_carrier(), wins(r)),
{
    lemma_parts_vanish(air, g, wins, r);
}

/// The window is held on every row pair.
proof fn lemma_window_at(air: MonolithAir, g: Seq<u64>, wins: spec_fn(int) -> Window, r: int)
    requires
        inline_alone(air),
        instance_satisfied(air, g, wins),
        0 <= r < air.s_inst_h(),
    ensures
        vanish(air.all_window(), wins(r)),
{
    lemma_parts_vanish(air, g, wins, r);
}

/// The head constraints vanish on every row pair.
proof fn lemma_head_at(air: MonolithAir, g: Seq<u64>, wins: spec_fn(int) -> Window, r: int)
    requires
        inline_alone(air),
        instance_satisfied(air, g, wins),
        0 <= r < air.s_inst_h(),
    ensures
        vanish(air.s_inline_arith(), wins(r)),
        vanish(air.s_index(), wins(r)),
        vanish(air.s_ood(InlineBci), wins(r)),
{
    lemma_parts_vanish(air, g, wins, r);
}

/// The fold constraints vanish on every row pair.
proof fn lemma_folds_at(air: MonolithAir, g: Seq<u64>, wins: spec_fn(int) -> Window, r: int)
    requires
        inline_alone(air),
        instance_satisfied(air, g, wins),
        0 <= r < air.s_inst_h(),
    ensures
        vanish(air.all_betas(), wins(r)),
        vanish(air.s_fold_rows(), wins(r)),
{
    lemma_parts_vanish(air, g, wins, r);
}

/// The constraints of the openings vanish on every row pair.
pub(super) proof fn lemma_openings_at(air: MonolithAir, g: Seq<u64>, wins: spec_fn(int) -> Window, r: int)
    requires
        inline_alone(air),
        instance_satisfied(air, g, wins),
        0 <= r < air.s_inst_h(),
    ensures
        vanish(air.s_openings_held(), wins(r)),
{
    lemma_parts_vanish(air, g, wins, r);
}

/// The constraints of the caps vanish on every row pair.
proof fn lemma_caps_at(air: MonolithAir, g: Seq<u64>, wins: spec_fn(int) -> Window, r: int)
    requires
        inline_alone(air),
        instance_satisfied(air, g, wins),
        0 <= r < air.s_inst_h(),
    ensures
        vanish(air.s_caps(InlineBci), wins(r)),
{
    lemma_parts_vanish(air, g, wins, r);
}

/// A cell that is held over all rows but the last is the same in the next row.
#[verifier::rlimit(30)]
proof fn lemma_held_on(air: MonolithAir, g: Seq<u64>, wins: spec_fn(int) -> Window, r: int, c: int)
    requires
        inline_alone(air),
        instance_satisfied(air, g, wins),
        0 <= r,
        r + 1 < air.s_inst_h(),
        0 <= c < air.s_fold_w(),
        ({
            let win = wins(r);
            let held = w_minus(w_const(1), w_per(air.s_p_inst_last()));
            value(w_on_transition(w_times(held, w_minus(w_nxt(c), w_cur(c)))), win) == 0
        }),
    ensures
        f_red(cell(g, air.s_fold_w(), r + 1, c) as int) == f_red(cell(g, air.s_fold_w(), r, c) as int),
{
    let win = wins(r);
    let h = air.s_inst_h();
    let last = w_per(air.s_p_inst_last());
    let held = w_minus(w_const(1), last);
    air.lemma_bounds();
    lemma_columns_stand(air);
    lemma_shows(air, g, wins, r);
    lemma_leaf_values(air.s_p_inst_last(), win);
    lemma_const_value(1, win);
    lemma_op_values(w_const(1), last, win);
    assert(value(held, win) == 1);
    lemma_leaf_values(c, win);
    lemma_gated_equation(held, w_nxt(c), w_cur(c), win);
    super::meaning::lemma_transition_value(w_times(held, w_minus(w_nxt(c), w_cur(c))), win);
}

/// The carried challenge from one row to the next.
#[verifier::rlimit(30)]
proof fn lemma_carry_step(air: MonolithAir, g: Seq<u64>, wins: spec_fn(int) -> Window, r: int)
    requires
        inline_alone(air),
        instance_satisfied(air, g, wins),
        0 < r < air.s_inst_h(),
    ensures
        pair_at(row_at(g, air.s_fold_w(), r), air.s_carry()) == pair_at(
            row_at(g, air.s_fold_w(), r - 1),
            air.s_carry(),
        ),
{
    let was = wins(r - 1);
    let held = w_minus(w_const(1), w_per(air.s_p_inst_last()));
    let c = air.s_carry();
    air.lemma_bounds();
    air.lemma_terms();
    lemma_carrier_at(air, g, wins, r - 1);
    assert(value(air.s_carrier()[0], was) == 0);
    assert(value(air.s_carrier()[1], was) == 0);
    assert(air.s_carrier()[0] == w_on_transition(w_times(held, w_minus(w_nxt(c), w_cur(c)))));
    assert(air.s_carrier()[1] == w_on_transition(w_times(held, w_minus(w_nxt(c + 1), w_cur(c + 1)))));
    lemma_held_on(air, g, wins, r - 1, c);
    lemma_held_on(air, g, wins, r - 1, c + 1);
}

/// A value of the window in any row is that in the first.
proof fn lemma_shown_everywhere(air: MonolithAir, g: Seq<u64>, wins: spec_fn(int) -> Window, r: int, i: int)
    requires
        inline_alone(air),
        instance_satisfied(air, g, wins),
        0 <= r < air.s_inst_h(),
        0 <= i < air.s_pis_count(),
    ensures
        value(air.s_pi(i), wins(r)) == value(air.s_pi(i), wins(0)),
    decreases r,
{
    lemma_shows(air, g, wins, r);
    if r > 0 && air.column_window {
        lemma_shown_everywhere(air, g, wins, r - 1, i);
        lemma_shown_step(air, g, wins, r, i);
    }
}

/// In a satisfied trace every row shows the same window and carries the same batching challenge.
pub proof fn law_satisfied_holds(air: MonolithAir, g: Seq<u64>, wins: spec_fn(int) -> Window, r: int)
    requires
        inline_alone(air),
        instance_satisfied(air, g, wins),
        0 <= r < air.s_inst_h(),
    ensures
        reads_window(air, wins(r), shown_window(air, wins)),
        pair_at(row_at(g, air.s_fold_w(), r), air.s_carry()) == pair_at(row_at(g, air.s_fold_w(), 0), air.s_carry()),
    decreases r,
{
    if r > 0 {
        law_satisfied_holds(air, g, wins, r - 1);
        lemma_carry_step(air, g, wins, r);
    }
    let (win, shown) = (wins(r), shown_window(air, wins));
    assert forall|i: int| 0 <= i < air.s_pis_count() implies value(#[trigger] air.s_pi(i), win) == f_red(
        shown[i] as int,
    ) by {
        lemma_shown_canonical(air, g, wins, i);
        lemma_shown_everywhere(air, g, wins, r, i);
    }
}

/// One value of a window in columns from one row to the next.
#[verifier::rlimit(30)]
proof fn lemma_shown_step(air: MonolithAir, g: Seq<u64>, wins: spec_fn(int) -> Window, r: int, i: int)
    requires
        inline_alone(air),
        instance_satisfied(air, g, wins),
        air.column_window,
        0 < r < air.s_inst_h(),
        0 <= i < air.s_pis_count(),
    ensures
        value(air.s_pi(i), wins(r)) == value(air.s_pi(i), wins(r - 1)),
{
    let was = wins(r - 1);
    let held = w_minus(w_const(1), w_per(air.s_p_inst_last()));
    let c = air.s_pw(i);
    lemma_shows(air, g, wins, r - 1);
    lemma_shows(air, g, wins, r);
    air.lemma_bounds();
    lemma_window_at(air, g, wins, r - 1);
    lemma_vanish_flat(air.s_pis_count(), air.f_window(), was);
    assert(vanish(air.f_window()(i), was));
    assert(air.f_window()(i)[0] == w_on_transition(w_times(held, w_minus(w_nxt(c), w_cur(c)))));
    lemma_held_on(air, g, wins, r - 1, c);
    lemma_leaf_values(c, was);
    lemma_leaf_values(c, wins(r));
}

/// A row of lanes and the one behind step `t`.
#[verifier::opaque]
spec fn steps_to(a: Seq<u64>, b: Seq<u64>, t: int) -> bool {
    b == next_row(a, t)
}

/// Lanes that stand `n` steps into the block from `start` on.
#[verifier::opaque]
pub(super) open spec fn runs_to(start: Seq<u64>, end: Seq<u64>, n: nat) -> bool {
    end == block_row(start, n)
}

proof fn lemma_runs_start(start: Seq<u64>)
    ensures
        runs_to(start, start, 0),
{
    reveal(runs_to);
}

/// One step more of a block.
proof fn lemma_block_step(start: Seq<u64>, a: Seq<u64>, b: Seq<u64>, m: nat)
    requires
        runs_to(start, a, m),
        steps_to(a, b, m as int),
    ensures
        runs_to(start, b, m + 1),
{
    reveal(steps_to);
    reveal(runs_to);
    assert(((m + 1) as nat - 1) as nat == m);
}

/// The end of a block.
pub(super) proof fn lemma_runs_end(start: Seq<u64>, end: Seq<u64>)
    requires
        runs_to(start, end, 31),
    ensures
        end == permuted(start),
{
    reveal(runs_to);
    reveal(block_last);
}

/// On a row where the permutation runs the next row is the next step.
proof fn lemma_advance(air: MonolithAir, g: Seq<u64>, wins: spec_fn(int) -> Window, r: int)
    requires
        inline_alone(air),
        instance_satisfied(air, g, wins),
        0 <= r,
        r + 1 < air.s_inst_h(),
        r % 32 < 31,
        value(air.s_permutation_rows(), wins(r)) == 1,
    ensures
        ({
            let w = air.s_fold_w();
            steps_to(lanes_at(row_at(g, w, r), 0), lanes_at(row_at(g, w, r + 1), 0), r % 32)
        }),
{
    let win = wins(r);
    let h = air.s_inst_h();
    reveal(steps_to);
    lemma_steps_at(air, g, wins, r);
    lemma_shows(air, g, wins, r);
    law_steps_advance(0, air.s_permutation_rows(), win, r % 32);
}

/// In the transcript region the permutation runs.
proof fn lemma_transcript_runs(air: MonolithAir, g: Seq<u64>, wins: spec_fn(int) -> Window, r: int)
    requires
        inline_alone(air),
        instance_satisfied(air, g, wins),
        0 <= r < air.s_tr(),
    ensures
        value(air.s_permutation_rows(), wins(r)) == 1,
        r < air.s_inst_h(),
{
    let win = wins(r);
    air.lemma_bounds();
    lemma_columns_stand(air);
    lemma_shows(air, g, wins, r);
    lemma_idle(air, win, r);
    lemma_idle_switches(air, win);
    lemma_bind_selectors(air, win, r);
    lemma_leaf_values(air.s_s_trans(), win);
    lemma_leaf_values(air.s_s_merkle(), win);
    lemma_op_values(w_per(air.s_s_trans()), w_per(air.s_s_merkle()), win);
}

/// The rows of a transcript block.
#[verifier::rlimit(30)]
proof fn lemma_block_rows(air: MonolithAir, g: Seq<u64>, wins: spec_fn(int) -> Window, b: int, t: nat)
    requires
        inline_alone(air),
        instance_satisfied(air, g, wins),
        0 <= b,
        32 * b + 31 < air.s_tr(),
        t <= 31,
    ensures
        ({
            let w = air.s_fold_w();
            runs_to(lanes_at(row_at(g, w, 32 * b), 0), lanes_at(row_at(g, w, 32 * b + t), 0), t)
        }),
    decreases t,
{
    if t > 0 {
        let m = (t - 1) as nat;
        let r = 32 * b + m;
        lemma_block_rows(air, g, wins, b, m);
        lemma_transcript_runs(air, g, wins, r);
        lemma_transcript_runs(air, g, wins, r + 1);
        assert(r % 32 == m);
        lemma_advance(air, g, wins, r);
        let w = air.s_fold_w();
        lemma_block_step(
            lanes_at(row_at(g, w, 32 * b), 0),
            lanes_at(row_at(g, w, r), 0),
            lanes_at(row_at(g, w, r + 1), 0),
            m,
        );
        assert(32 * b + t == r + 1);
    } else {
        lemma_runs_start(lanes_at(row_at(g, air.s_fold_w(), 32 * b), 0));
    }
}

/// In a satisfied trace every block of the transcript region ends in what the permutation makes of its first row, the
/// next block takes its capacity over with the count added to its first lane, and without inputs its rate as well.
#[verifier::rlimit(30)]
pub proof fn law_satisfied_transcript(air: MonolithAir, g: Seq<u64>, wins: spec_fn(int) -> Window, b: int)
    requires
        inline_alone(air),
        instance_satisfied(air, g, wins),
        0 <= b,
        32 * b + 31 < air.s_tr(),
    ensures
        ({
            let w = air.s_fold_w();
            let end = lanes_at(row_at(g, w, 32 * b + 31), 0);
            let next = lanes_at(row_at(g, w, 32 * b + 32), 0);
            let count = air.s_count(b + 1);
            &&& end == permuted(lanes_at(row_at(g, w, 32 * b), 0))
            &&& 32 * b + 32 < air.s_tr() ==> {
                &&& next[4] == f_add(end[4], f_red(count as int))
                &&& forall|i: int| 5 <= i < 8 ==> next[i] == #[trigger] end[i]
                &&& count == 0 ==> forall|i: int| 0 <= i < 4 ==> next[i] == #[trigger] end[i]
            }
        }),
{
    let (h, w) = (air.s_inst_h(), air.s_fold_w());
    let r = 32 * b + 31;
    let win = wins(r);
    assert(lanes_at(row_at(g, w, r), 0) == permuted(lanes_at(row_at(g, w, 32 * b), 0))) by {
        lemma_block_rows(air, g, wins, b, 31);
        lemma_runs_end(lanes_at(row_at(g, w, 32 * b), 0), lanes_at(row_at(g, w, r), 0));
    }
    air.lemma_bounds();
    lemma_columns_stand(air);
    if r + 1 < air.s_tr() {
        lemma_link_at(air, g, wins, r);
        lemma_shows(air, g, wins, r);
        lemma_bind_selectors(air, win, r);
        assert(r / 32 == b && r % 32 == 31);
        law_transcript_carries(air, win);
    }
}

/// In a satisfied trace the challenges of the window are the lanes that they are bound to, and so are its query felts.
#[verifier::spinoff_prover]
#[verifier::rlimit(40)]
pub proof fn law_satisfied_binds(air: MonolithAir, g: Seq<u64>, wins: spec_fn(int) -> Window, j: int, k: int)
    requires
        inline_alone(air),
        air.rows_fit(),
        instance_satisfied(air, g, wins),
        0 <= j < air.s_nb(),
        0 <= k < air.s_ni(),
        air.index_binds@[k].1 < 8,
        air.s_bind_lane(j) < 8,
    ensures
        ({
            let w = air.s_fold_w();
            let shown = shown_window(air, wins);
            let a = lanes_at(row_at(g, w, 32 * air.binds@[j] + 31), 0);
            let b = lanes_at(row_at(g, w, 32 * air.index_binds@[k].0 + 31), 0);
            &&& a[air.s_bind_lane(j)] == shown[2 * j]
            &&& a[air.s_bind_lane(j) - 1] == shown[2 * j + 1]
            &&& b[air.index_binds@[k].1 as int] == shown[2 * air.s_nb() + k]
        }),
{
    let w = air.s_fold_w();
    air.lemma_bounds();
    air.lemma_terms();
    lemma_columns_stand(air);
    let r = 32 * air.binds@[j] + 31;
    let win = wins(r);
    assert(air.binds@[j] * 32 + 31 < air.s_inst_h());
    lemma_binds_at(air, g, wins, r);
    lemma_shows(air, g, wins, r);
    lemma_bind_selectors(air, win, r);
    law_satisfied_holds(air, g, wins, r);
    lemma_vanish_flat(air.s_nb(), air.f_binds(), win);
    assert(vanish(air.f_binds()(j), win));
    let on = w_per(FT_BIND_START + j);
    assert(win.periodic[FT_BIND_START + j] == 1);
    lemma_leaf_values(FT_BIND_START + j, win);
    let first = air.s_bind_lane(j);
    lemma_bound(air, on, first, 2 * j, win, air.f_binds()(j)[0]);
    lemma_bound(air, on, first - 1, 2 * j + 1, win, air.f_binds()(j)[1]);
    let q = 32 * air.index_binds@[k].0 + 31;
    let lane = air.index_binds@[k].1 as int;
    let win2 = wins(q);
    assert(air.index_binds@[k].0 * 32 + 31 < air.s_inst_h());
    lemma_binds_at(air, g, wins, q);
    lemma_shows(air, g, wins, q);
    lemma_bind_selectors(air, win2, q);
    law_satisfied_holds(air, g, wins, q);
    lemma_vanish_flat(air.s_ni(), air.f_index_binds(), win2);
    assert(vanish(air.f_index_binds()(k), win2));
    let on2 = w_per(FT_BIND_START + air.s_nb() + k);
    assert(win2.periodic[FT_BIND_START + air.s_nb() + k] == 1);
    lemma_leaf_values(FT_BIND_START + air.s_nb() + k, win2);
    lemma_bound(air, on2, lane, 2 * air.s_nb() + k, win2, air.f_index_binds()(k)[0]);
    lemma_shown_canonical(air, g, wins, 2 * j);
    lemma_shown_canonical(air, g, wins, 2 * j + 1);
    lemma_shown_canonical(air, g, wins, 2 * air.s_nb() + k);
}

/// In a satisfied trace every lookup challenge of the window is the pair of lanes that the lookup argument names for it, and
/// every other challenge the top two lanes of the rate, highest first, on the last row of its block.
pub proof fn law_satisfied_challenges(air: MonolithAir, g: Seq<u64>, wins: spec_fn(int) -> Window, j: int)
    requires
        inline_alone(air),
        air.rows_fit(),
        instance_satisfied(air, g, wins),
        0 <= j < air.s_nb(),
        air.s_ni() > 0,
        air.index_binds@[0].1 < 8,
        air.lookup matches Some(l) ==> j < l.n_lookup_challenges ==> l.lookup_bind_lanes@[j] < 8,
    ensures
        ({
            let end = lanes_at(row_at(g, air.s_fold_w(), 32 * air.binds@[j] + 31), 0);
            let shown = shown_window(air, wins);
            let drawn = air.lookup is Some && j < air.lookup->0.n_lookup_challenges;
            &&& drawn ==> {
                let lane = air.lookup->0.lookup_bind_lanes@[j] as int;
                shown[2 * j] == end[lane] && shown[2 * j + 1] == end[lane - 1]
            }
            &&& !drawn ==> shown[2 * j] == end[3] && shown[2 * j + 1] == end[2]
        }),
{
    law_satisfied_binds(air, g, wins, j, 0);
}

/// In a satisfied trace the carried batching challenge is the window's: the challenge behind those of the lookups, the
/// constraint challenge and the point.
#[verifier::spinoff_prover]
#[verifier::rlimit(40)]
pub proof fn law_satisfied_batching(air: MonolithAir, g: Seq<u64>, wins: spec_fn(int) -> Window)
    requires
        inline_alone(air),
        air.rows_fit(),
        instance_satisfied(air, g, wins),
        air.s_ni() > 0,
        air.index_binds@[0].1 < 8,
    ensures
        ({
            let lookups = match air.lookup {
                Some(l) => l.n_lookup_challenges as int,
                None => 0,
            };
            let at = 2 * (lookups + 2);
            let shown = shown_window(air, wins);
            pair_at(row_at(g, air.s_fold_w(), 0), air.s_carry()) == (Ext { c0: shown[at], c1: shown[at + 1] })
        }),
{
    let w = air.s_fold_w();
    let j = air.s_nlc() + 2;
    let r = 32 * air.binds@[j] + 31;
    let win = wins(r);
    let c = air.s_carry();
    air.lemma_bounds();
    air.lemma_terms();
    lemma_columns_stand(air);
    assert(air.binds@[j] * 32 + 31 < air.s_inst_h());
    law_satisfied_challenges(air, g, wins, j);
    law_satisfied_holds(air, g, wins, r);
    lemma_carrier_at(air, g, wins, r);
    lemma_shows(air, g, wins, r);
    lemma_bind_selectors(air, win, r);
    let seed = w_per(FT_BIND_START + j);
    assert(win.periodic[FT_BIND_START + j] == 1);
    lemma_leaf_values(FT_BIND_START + j, win);
    lemma_leaf_values(c, win);
    lemma_leaf_values(c + 1, win);
    lemma_leaf_values(2, win);
    lemma_leaf_values(3, win);
    assert(air.s_carrier()[2] == w_times(seed, w_minus(w_cur(c), w_cur(3))));
    assert(air.s_carrier()[3] == w_times(seed, w_minus(w_cur(c + 1), w_cur(2))));
    assert(value(air.s_carrier()[2], win) == 0 && value(air.s_carrier()[3], win) == 0);
    lemma_gated_equation(seed, w_cur(c), w_cur(3), win);
    lemma_gated_equation(seed, w_cur(c + 1), w_cur(2), win);
    assert(lanes_at(win.cur, 0)[3] == f_red(win.cur[3] as int));
    assert(lanes_at(win.cur, 0)[2] == f_red(win.cur[2] as int));
}

/// The shown values are reduced.
proof fn lemma_shown_canonical(air: MonolithAir, g: Seq<u64>, wins: spec_fn(int) -> Window, i: int)
    requires
        0 <= i < air.s_pis_count(),
    ensures
        f_red(shown_window(air, wins)[i] as int) == shown_window(air, wins)[i],
{
    crate::expr::lemma_value_canonical(air.s_pi(i), wins(0));
}

/// A bind that is set.
proof fn lemma_bound(air: MonolithAir, on: Wire, lane: int, i: int, win: Window, e: Wire)
    requires
        value(on, win) == 1,
        0 <= lane < 8,
        e == w_times(on, w_minus(w_cur(lane), air.s_pi(i))),
        value(e, win) == 0,
    ensures
        lanes_at(win.cur, 0)[lane] == value(air.s_pi(i), win),
{
    lemma_leaf_values(lane, win);
    lemma_gated_equation(on, w_cur(lane), air.s_pi(i), win);
}

/// In a satisfied trace the head row of query `t` spells the window's felt as its index, its terms are weighed by the
/// carried batching challenge, and it starts with their reduced opening at the query point.
#[verifier::spinoff_prover]
#[verifier::rlimit(40)]
pub proof fn law_satisfied_head(air: MonolithAir, g: Seq<u64>, wins: spec_fn(int) -> Window, t: int)
    requires
        inline_alone(air),
        instance_satisfied(air, g, wins),
        0 <= t < air.n_queries,
    ensures
        ({
            let row = row_at(g, air.s_fold_w(), air.s_tile(t));
            let x = f_red(row[air.s_sb_x()] as int);
            let lg = air.s_lg() as nat;
            &&& x == shown_window(air, wins)[2 * air.s_nb() + t]
            &&& index_spelled(air, row)
            &&& pair_at(row, air.s_qt_alpha()) == pair_at(row_at(g, air.s_fold_w(), 0), air.s_carry())
            &&& pair_at(row, QT_E as int) == reduced(
                pair_at(row, air.s_qt_alpha()),
                query_x(x as nat, lg, lg),
                row_terms(air, row, air.n_terms as nat),
            )
            &&& vanish(air.s_ood(InlineBci), wins(air.s_tile(t)))
        }),
{
    let row = air.s_tile(t);
    let win = wins(row);
    let shown = shown_window(air, wins);
    air.lemma_bounds();
    air.lemma_openings_fit();
    lemma_columns_stand(air);
    air.lemma_tile_fits(t);
    lemma_head_at(air, g, wins, row);
    lemma_shows(air, g, wins, row);
    law_satisfied_holds(air, g, wins, row);
    assert(row + 0 == row);
    lemma_more_selectors(air, win, t, 0);
    assert forall|k: int| 0 <= k < air.n_queries implies win.periodic[#[trigger] air.s_p_query(k)] == mark(k == t) by {}
    lemma_query_sum(air, t, shown, win, air.n_queries as int);
    lemma_shown_canonical(air, g, wins, 2 * air.s_nb() + t);
    law_head_row_spells_index(air, win);
    lemma_point_part(air, win);
    law_head_row_point(air, win);
    law_head_row_reduces(air, win);
}

/// The point constraints are part of the arithmetic.
proof fn lemma_point_part(air: MonolithAir, win: Window)
    requires
        vanish(air.s_inline_arith(), win),
    ensures
        vanish(air.s_arith_point(), win),
{
    let (a, b) = (air.s_arith_point(), air.s_inline_arith());
    assert forall|i: int| 0 <= i < a.len() implies value(#[trigger] a[i], win) == 0 by {
        assert(b[i] == a[i]);
    }
}

/// The challenge of a fold row is the window's.
#[verifier::spinoff_prover]
#[verifier::rlimit(40)]
proof fn lemma_fold_challenge(air: MonolithAir, g: Seq<u64>, wins: spec_fn(int) -> Window, t: int, r: int)
    requires
        inline_alone(air),
        instance_satisfied(air, g, wins),
        0 <= t < air.n_queries,
        0 <= r < air.s_cm_rounds(),
    ensures
        pair_at(row_at(g, air.s_fold_w(), air.s_tile(t) + r), QT_B as int) == pair_at(
            shown_window(air, wins),
            2 * air.s_ch_beta(r),
        ),
{
    let at = air.s_tile(t) + r;
    let win = wins(at);
    air.lemma_bounds();
    air.lemma_terms();
    air.lemma_period_covers_rounds();
    lemma_columns_stand(air);
    air.lemma_tile_fits(t);
    lemma_folds_at(air, g, wins, at);
    lemma_shows(air, g, wins, at);
    law_satisfied_holds(air, g, wins, at);
    lemma_more_selectors(air, win, t, r);
    lemma_vanish_flat(air.s_cm_rounds(), air.f_betas(), win);
    let fam = air.f_betas()(r);
    assert(vanish(fam, win));
    let on = w_per(air.s_p_round(r));
    let c = 2 * air.s_ch_beta(r);
    assert(win.periodic[air.s_p_round(r)] == 1);
    lemma_leaf_values(air.s_p_round(r), win);
    assert(value(fam[0], win) == 0 && value(fam[1], win) == 0);
    lemma_bound(air, on, 4, c, win, fam[0]);
    lemma_bound(air, on, 5, c + 1, win, fam[1]);
}

/// The value behind the folds is the window's constant.
#[verifier::spinoff_prover]
#[verifier::rlimit(40)]
proof fn lemma_fold_end(air: MonolithAir, g: Seq<u64>, wins: spec_fn(int) -> Window, t: int)
    requires
        inline_alone(air),
        instance_satisfied(air, g, wins),
        0 <= t < air.n_queries,
    ensures
        pair_at(row_at(g, air.s_fold_w(), air.s_tile(t) + air.s_cm_rounds()), QT_E as int) == pair_at(
            shown_window(air, wins),
            2 * air.s_nb() + air.s_ni(),
        ),
{
    let n = air.s_cm_rounds();
    let end = air.s_tile(t) + n;
    let win = wins(end);
    air.lemma_bounds();
    air.lemma_terms();
    air.lemma_period_covers_rounds();
    lemma_columns_stand(air);
    air.lemma_tile_fits(t);
    lemma_folds_at(air, g, wins, end);
    lemma_shows(air, g, wins, end);
    law_satisfied_holds(air, g, wins, end);
    lemma_more_selectors(air, win, t, n);
    let cs = air.s_fold_rows();
    let tl = w_per(air.s_m_tl());
    let fp = 2 * air.s_nb() + air.s_ni();
    lemma_leaf_values(air.s_m_tl(), win);
    assert(value(cs[5], win) == 0 && value(cs[6], win) == 0);
    lemma_bound(air, tl, 0, fp, win, cs[5]);
    lemma_bound(air, tl, 1, fp + 1, win, cs[6]);
}

/// In a satisfied trace row `r` of the folds of query `t` folds the running value with its sibling under the window's
/// challenge, and the value behind the last round is the window's constant. The fold point and the side of a round are
/// those that the row holds.
#[verifier::spinoff_prover]
#[verifier::rlimit(40)]
pub proof fn law_satisfied_folds(air: MonolithAir, g: Seq<u64>, wins: spec_fn(int) -> Window, t: int, r: int)
    requires
        inline_alone(air),
        instance_satisfied(air, g, wins),
        0 <= t < air.n_queries,
        0 <= r < air.s_cm_rounds(),
    ensures
        ({
            let w = air.s_fold_w();
            let (row, next) = (row_at(g, w, air.s_tile(t) + r), row_at(g, w, air.s_tile(t) + r + 1));
            let last = row_at(g, w, air.s_tile(t) + air.s_cm_rounds());
            let shown = shown_window(air, wins);
            &&& folds(
                fold_cells(row),
                f_red(row[air.s_idx_rem()] as int),
                f_red(next[air.s_idx_rem()] as int),
                pair_at(next, QT_E as int),
            )
            &&& pair_at(row, QT_B as int) == pair_at(shown, 2 * air.s_ch_beta(r))
            &&& pair_at(last, QT_E as int) == pair_at(shown, 2 * air.s_nb() + air.s_ni())
        }),
{
    let at = air.s_tile(t) + r;
    let win = wins(at);
    let h = air.s_inst_h();
    lemma_fold_challenge(air, g, wins, t, r);
    lemma_fold_end(air, g, wins, t);
    air.lemma_bounds();
    air.lemma_terms();
    air.lemma_period_covers_rounds();
    lemma_columns_stand(air);
    air.lemma_tile_fits(t);
    lemma_folds_at(air, g, wins, at);
    lemma_shows(air, g, wins, at);
    lemma_more_selectors(air, win, t, r);
    lemma_round_mask(air, r, win, air.s_cm_rounds());
    lemma_quiet_folds(air, win);
    law_fold_row_folds(air, win);
}

/// In a satisfied trace round `r` of every query folds under the window's challenge of that round: behind those of the lookups,
/// the constraint challenge, the point and the batching challenge, one for every round.
pub proof fn law_satisfied_fold_challenges(air: MonolithAir, g: Seq<u64>, wins: spec_fn(int) -> Window, t: int, r: int)
    requires
        inline_alone(air),
        instance_satisfied(air, g, wins),
        0 <= t < air.n_queries,
        0 <= r < air.s_cm_rounds(),
    ensures
        ({
            let lookups = match air.lookup {
                Some(l) => l.n_lookup_challenges as int,
                None => 0,
            };
            let row = row_at(g, air.s_fold_w(), air.s_tile(t) + r);
            pair_at(row, QT_B as int) == pair_at(shown_window(air, wins), 2 * (lookups + 3 + r))
        }),
{
    law_satisfied_folds(air, g, wins, t, r);
}

/// Behind the first block of a super-tile the permutation runs.
proof fn lemma_tile_runs(air: MonolithAir, g: Seq<u64>, wins: spec_fn(int) -> Window, t: int, k: int)
    requires
        inline_alone(air),
        instance_satisfied(air, g, wins),
        0 <= t < air.n_queries,
        32 <= k < air.s_m_period(),
    ensures
        value(air.s_permutation_rows(), wins(air.s_tile(t) + k)) == 1,
        0 <= air.s_tile(t),
        air.s_tile(t) + k < air.s_inst_h(),
{
    let win = wins(air.s_tile(t) + k);
    air.lemma_bounds();
    lemma_columns_stand(air);
    air.lemma_tile_fits(t);
    lemma_shows(air, g, wins, air.s_tile(t) + k);
    lemma_more_selectors(air, win, t, k);
    lemma_leaf_values(air.s_s_trans(), win);
    lemma_leaf_values(air.s_s_merkle(), win);
    lemma_op_values(w_per(air.s_s_trans()), w_per(air.s_s_merkle()), win);
}

/// The rows of a block of a super-tile.
#[verifier::rlimit(30)]
pub(super) proof fn lemma_tile_rows(air: MonolithAir, g: Seq<u64>, wins: spec_fn(int) -> Window, t: int, b: int, n: nat)
    requires
        inline_alone(air),
        instance_satisfied(air, g, wins),
        0 <= t < air.n_queries,
        1 <= b < air.s_m_nblocks(),
        n <= 31,
    ensures
        ({
            let w = air.s_fold_w();
            let at = air.s_tile(t) + 32 * b;
            runs_to(lanes_at(row_at(g, w, at), 0), lanes_at(row_at(g, w, at + n), 0), n)
        }),
    decreases n,
{
    if n > 0 {
        let m = (n - 1) as nat;
        let k = 32 * b + m;
        let r = air.s_tile(t) + k;
        lemma_tile_rows(air, g, wins, t, b, m);
        air.lemma_openings_fit();
        assert(k + 1 < air.s_m_period());
        lemma_tile_runs(air, g, wins, t, k);
        lemma_tile_runs(air, g, wins, t, k + 1);
        lemma_tile_phase(air, t, k);
        assert(k % 32 == m);
        assert(air.s_tile(t) + 32 * b + m == r);
        assert(air.s_tile(t) + 32 * b + n == r + 1);
        lemma_advance(air, g, wins, r);
        let w = air.s_fold_w();
        lemma_block_step(
            lanes_at(row_at(g, w, air.s_tile(t) + 32 * b), 0),
            lanes_at(row_at(g, w, r), 0),
            lanes_at(row_at(g, w, r + 1), 0),
            m,
        );
    } else {
        lemma_runs_start(lanes_at(row_at(g, air.s_fold_w(), air.s_tile(t) + 32 * b), 0));
    }
}

/// The siblings that the rows of an opening hold.
pub open spec fn held_siblings(air: MonolithAir, g: Seq<u64>, t: int, o: int) -> Seq<Seq<u64>> {
    let first = head_of(air, o) + leaf_of(air, o);
    Seq::new(
        (end_of(air, o) + 1 - first) as nat,
        |l: int| digest_at(row_at(g, air.s_fold_w(), air.s_tile(t) + 32 * (first + l)), 8),
    )
}

/// The sides that the rows of an opening hold.
pub open spec fn held_sides(air: MonolithAir, g: Seq<u64>, t: int, o: int) -> Seq<bool> {
    let first = head_of(air, o) + leaf_of(air, o);
    Seq::new(
        (end_of(air, o) + 1 - first) as nat,
        |l: int| f_red(row_at(g, air.s_fold_w(), air.s_tile(t) + 32 * (first + l))[12] as int) == 1,
    )
}

/// The digest at the end of a block of a super-tile.
pub open spec fn digest_after(air: MonolithAir, g: Seq<u64>, t: int, b: int) -> Seq<u64> {
    digest_at(row_at(g, air.s_fold_w(), air.s_tile(t) + 32 * b + 31), 0)
}

/// A block that has a successor in its opening, behind the leaf, is linked to it.
#[verifier::spinoff_prover]
#[verifier::rlimit(40)]
proof fn lemma_linked(air: MonolithAir, g: Seq<u64>, wins: spec_fn(int) -> Window, t: int, o: int, b: int)
    requires
        inline_alone(air),
        instance_satisfied(air, g, wins),
        0 <= t < air.n_queries,
        first_of(air) <= o < 2 + air.s_cm_rounds(),
        head_of(air, o) + leaf_of(air, o) - 1 <= b < end_of(air, o),
    ensures
        ({
            let next = row_at(g, air.s_fold_w(), air.s_tile(t) + 32 * (b + 1));
            let (dig, sib) = (digest_after(air, g, t, b), digest_at(next, 8));
            lanes_at(next, 0) == (if f_red(next[12] as int) == 1 {
                paired(sib, dig)
            } else {
                paired(dig, sib)
            })
        }),
{
    let (h, w) = (air.s_inst_h(), air.s_fold_w());
    let k = 32 * b + 31;
    let r = air.s_tile(t) + k;
    let win = wins(r);
    air.lemma_bounds();
    air.lemma_terms();
    air.lemma_openings_fit();
    lemma_columns_stand(air);
    air.lemma_tile_fits(t);
    lemma_openings_chain(air, o);
    lemma_openings_at(air, g, wins, r);
    lemma_shows(air, g, wins, r);
    lemma_tile_phase(air, t, k);
    lemma_not_excluded(air, o, b);
    lemma_link_value(air, win, t, k);
    assert(k / 32 == b && k % 32 == 31);
    lemma_openings_parts(air, win);
    let win2 = wins(r + 1);
    lemma_openings_at(air, g, wins, r + 1);
    lemma_shows(air, g, wins, r + 1);
    assert(air.s_tile(t) + (k + 1) == r + 1);
    lemma_more_selectors(air, win2, t, k + 1);
    lemma_openings_parts(air, win2);
    lemma_side(air, win2);
    assert(win.nxt == win2.cur);
    law_link_pairs(air, win);
    assert(r == air.s_tile(t) + 32 * b + 31);
    assert(r + 1 == air.s_tile(t) + 32 * (b + 1));
}

/// The side on a row of a path is a bit.
#[verifier::rlimit(30)]
proof fn lemma_side(air: MonolithAir, win: Window)
    requires
        air.wf(),
        win.periodic[air.s_s_merkle()] == 1,
        vanish(air.s_path_bit(), win),
    ensures
        f_red(win.cur[12] as int) == 0 || f_red(win.cur[12] as int) == 1,
{
    let on = w_per(air.s_s_merkle());
    let b = w_cur(12);
    let no = w_minus(w_const(1), b);
    lemma_columns_stand(air);
    lemma_leaf_values(air.s_s_merkle(), win);
    lemma_leaf_values(12, win);
    lemma_const_value(1, win);
    lemma_op_values(w_const(1), b, win);
    lemma_op_values(b, no, win);
    lemma_op_values(on, w_times(b, no), win);
    assert(value(air.s_path_bit()[0], win) == 0);
    crate::expr::lemma_value_canonical(w_times(b, no), win);
    crate::vanish::lemma_gates(value(w_times(b, no), win));
    let (x, y) = (value(b, win), value(no, win));
    crate::expr::lemma_value_canonical(b, win);
    crate::expr::lemma_value_canonical(no, win);
    crate::prime::law_no_zero_divisors(x, y);
    if y == 0 {
        crate::field::lemma_zero_difference(1, x);
    }
}

/// In a satisfied trace the path of every opening climbs: from the digest behind its leaf, over the siblings and sides
/// that its rows hold, to the digest at its end.
#[verifier::rlimit(30)]
pub proof fn law_satisfied_climbs(air: MonolithAir, g: Seq<u64>, wins: spec_fn(int) -> Window, t: int, o: int, n: nat)
    requires
        inline_alone(air),
        instance_satisfied(air, g, wins),
        0 <= t < air.n_queries,
        first_of(air) <= o < 2 + air.s_cm_rounds(),
        head_of(air, o) + leaf_of(air, o) + n <= end_of(air, o) + 1,
    ensures
        digest_after(air, g, t, head_of(air, o) + leaf_of(air, o) - 1 + n) == climbed_by_bits(
            digest_after(air, g, t, head_of(air, o) + leaf_of(air, o) - 1),
            held_siblings(air, g, t, o),
            held_sides(air, g, t, o),
            n,
        ),
    decreases n,
{
    if n > 0 {
        let l = n - 1;
        let first = head_of(air, o) + leaf_of(air, o);
        let b = first - 1 + l;
        law_satisfied_climbs(air, g, wins, t, o, l as nat);
        lemma_openings_chain(air, o);
        lemma_linked(air, g, wins, t, o, b);
        lemma_tile_rows(air, g, wins, t, b + 1, 31);
        let w = air.s_fold_w();
        let at = air.s_tile(t) + 32 * (b + 1);
        let input = lanes_at(row_at(g, w, at), 0);
        let last = row_at(g, w, at + 31);
        assert(b + 1 == first + l);
        assert(held_siblings(air, g, t, o)[l] == digest_at(row_at(g, w, at), 8));
        assert(held_sides(air, g, t, o)[l] == (f_red(row_at(g, w, at)[12] as int) == 1));
        lemma_runs_end(input, lanes_at(last, 0));
        assert(lanes_at(last, 0) == permuted(input));
        assert(digest_at(last, 0) =~= permuted(input).subrange(0, 4));
        assert(digest_after(air, g, t, b + 1) == digest_at(last, 0));
    }
}

/// In a satisfied trace a cap entry is carried over the whole super-tile.
#[verifier::rlimit(30)]
proof fn lemma_entry_held(air: MonolithAir, g: Seq<u64>, wins: spec_fn(int) -> Window, t: int, c: int, r: int)
    requires
        inline_alone(air),
        instance_satisfied(air, g, wins),
        air.s_full_cap(),
        0 <= t < air.n_queries,
        0 <= c < air.s_n_cap_c(),
        0 <= r < air.s_m_period(),
    ensures
        ({
            let w = air.s_fold_w();
            f_red(row_at(g, w, air.s_tile(t) + r)[air.s_cap_c(c)] as int) == f_red(
                row_at(g, w, air.s_tile(t))[air.s_cap_c(c)] as int,
            )
        }),
    decreases r,
{
    if r > 0 {
        let (h, w) = (air.s_inst_h(), air.s_fold_w());
        let at = air.s_tile(t) + (r - 1);
        let win = wins(at);
        lemma_entry_held(air, g, wins, t, c, r - 1);
        air.lemma_bounds();
        air.lemma_terms();
        air.lemma_openings_fit();
        lemma_columns_stand(air);
        air.lemma_tile_fits(t);
        lemma_caps_at(air, g, wins, at);
        lemma_shows(air, g, wins, at);
        lemma_more_selectors(air, win, t, r - 1);
        lemma_caps_parts(air, win);
        lemma_vanish_flat(air.s_n_cap_c(), air.f_cap_hold(), win);
        assert(vanish(air.f_cap_hold()(c), win));
        let (query, last) = (w_per(air.s_s_query()), w_per(air.s_p_st_last()));
        let off = w_minus(w_const(1), last);
        let hold = w_times(query, off);
        let p = air.s_cap_c(c);
        let e = w_times(hold, w_minus(w_nxt(p), w_cur(p)));
        assert(air.f_cap_hold()(c)[0] == w_on_transition(e));
        lemma_leaf_values(air.s_s_query(), win);
        lemma_leaf_values(air.s_p_st_last(), win);
        lemma_const_value(1, win);
        lemma_op_values(w_const(1), last, win);
        lemma_op_values(query, off, win);
        crate::vanish::lemma_gates(1);
        super::meaning::lemma_transition_value(e, win);
        lemma_leaf_values(p, win);
        lemma_gated_equation(hold, w_nxt(p), w_cur(p), win);
        assert(at + 1 == air.s_tile(t) + r);
    }
}

/// In a satisfied trace with whole caps every path ends in the entry of the window that the query's felt names.
#[verifier::spinoff_prover]
#[verifier::rlimit(40)]
pub proof fn law_satisfied_reaches_cap(air: MonolithAir, g: Seq<u64>, wins: spec_fn(int) -> Window, t: int, o: int, k: int)
    requires
        inline_alone(air),
        instance_satisfied(air, g, wins),
        air.s_full_cap(),
        0 <= t < air.n_queries,
        first_of(air) <= o < 2 + air.s_cm_rounds(),
        0 <= k < 4,
    ensures
        ({
            let c = air.s_cap_opening(slot_of(air, o));
            let head = row_at(g, air.s_fold_w(), air.s_tile(t));
            digest_after(air, g, t, end_of(air, o))[k] == shown_window(air, wins)[c.cbase + selected_entry(
                air,
                head,
                c,
            ) * 4 + k]
        }),
{
    let w = air.s_fold_w();
    let row = air.s_tile(t);
    let at = 32 * end_of(air, o) + 31;
    air.lemma_bounds();
    air.lemma_terms();
    air.lemma_openings_fit();
    lemma_columns_stand(air);
    air.lemma_tile_fits(t);
    lemma_openings_chain(air, o);
    lemma_ends_carried(air, g, wins, t, o, k);
    lemma_entry_held(air, g, wins, t, 4 * slot_of(air, o) + k, at);
    let win = wins(row);
    let os = air.s_cap_openings();
    let c = air.s_cap_opening(slot_of(air, o));
    law_satisfied_head(air, g, wins, t);
    law_satisfied_holds(air, g, wins, row);
    lemma_caps_at(air, g, wins, row);
    lemma_shows(air, g, wins, row);
    assert(row + 0 == row);
    lemma_more_selectors(air, win, t, 0);
    lemma_caps_parts(air, win);
    let i = slot_of(air, o);
    assert(os.len() == 2 + air.s_cm_rounds() - first_of(air));
    assert(os[i] == c);
    air.lemma_openings(i);
    lemma_vanish_flat(os.len() as int, f_mux(air, os), win);
    assert(vanish(f_mux(air, os)(i), win));
    assert(c.cg_off == 4 * i);
    law_cap_entry_is_selected(air, win, c);
    let e = selected_entry(air, win.cur, c);
    assert(e < pow2(c.bits as nat)) by {
        vstd::arithmetic::power2::lemma_pow2_pos(c.bits as nat);
        vstd::arithmetic::div_mod::lemma_mod_bound(
            (f_red(win.cur[air.s_sb_x()] as int) as nat / pow2(c.shift as nat)) as int,
            pow2(c.bits as nat) as int,
        );
    }
    let p = c.cbase + e * 4 + k;
    lemma_shown_canonical(air, g, wins, p);
    assert(f_red(win.cur[air.s_cap_c(c.cg_off + k)] as int) == value(air.s_pi(p), win));
}

/// The comparison of a path's end with its carrier is one of the constraints.
#[verifier::rlimit(30)]
proof fn lemma_end_wire(air: MonolithAir, win: Window, o: int, k: int, on: Wire)
    requires
        air.wf(),
        vanish(air.s_term_caps(), win),
        vanish(air.all_commit_caps(), win),
        vanish(air.s_random_opening(), win),
        vanish(air.s_aux_opening(), win),
        first_of(air) <= o < 2 + air.s_cm_rounds(),
        0 <= k < 4,
        on == (if o < 0 {
            w_per(front_base(air) + 1)
        } else if o == 0 {
            w_per(air.s_m_term())
        } else if o == 1 {
            w_per(air.s_q_term())
        } else {
            w_per(air.s_c_term(o - 2))
        }),
    ensures
        value(w_times(on, w_minus(w_cur(k), w_cur(air.s_cap_c(4 * slot_of(air, o) + k)))), win) == 0,
{
    let e = w_times(on, w_minus(w_cur(k), w_cur(air.s_cap_c(4 * slot_of(air, o) + k))));
    if o < 0 {
        let cs = if air.is_zk == 1 {
            air.s_random_term()
        } else {
            air.s_aux_term()
        };
        let leaf = leaf_wires(
            front_base(air),
            front_base(air) + 2,
            front_carrier(air),
            front_felts(air),
            true,
        );
        lemma_vanish_parts(leaf, cs, win);
        assert(vanish(leaf + cs, win)) by {
            if air.is_zk == 1 {
                assert(air.s_random_opening() == leaf + cs);
            } else {
                assert(air.s_aux_opening() == leaf + cs);
            }
        }
        assert(k == 0 || k == 1 || k == 2 || k == 3);
        assert(8 + 4 * air.s_cm_rounds() + k == 4 * slot_of(air, o) + k);
        assert(cs[k] == e);
        assert(value(cs[k], win) == 0);
    } else if o < 2 {
        let cs = air.s_term_caps();
        assert(k == 0 || k == 1 || k == 2 || k == 3);
        assert(cs[2 * k + o] == e);
        assert(value(cs[2 * k + o], win) == 0);
    } else {
        let fam = air.f_commit_caps()(o - 2);
        lemma_vanish_flat(air.s_cm_rounds(), air.f_commit_caps(), win);
        assert(vanish(fam, win));
        assert(k == 0 || k == 1 || k == 2 || k == 3);
        assert(8 + 4 * (o - 2) + k == 4 * slot_of(air, o) + k);
        assert(fam[k] == e);
        assert(value(fam[k], win) == 0);
    }
}

/// The end of a path stands in its carrier.
#[verifier::spinoff_prover]
#[verifier::rlimit(40)]
proof fn lemma_ends_carried(air: MonolithAir, g: Seq<u64>, wins: spec_fn(int) -> Window, t: int, o: int, k: int)
    requires
        inline_alone(air),
        instance_satisfied(air, g, wins),
        air.s_full_cap(),
        0 <= t < air.n_queries,
        first_of(air) <= o < 2 + air.s_cm_rounds(),
        0 <= k < 4,
    ensures
        ({
            let last = row_at(g, air.s_fold_w(), air.s_tile(t) + (32 * end_of(air, o) + 31));
            digest_after(air, g, t, end_of(air, o))[k] == f_red(last[air.s_cap_c(4 * slot_of(air, o) + k)] as int)
        }),
{
    let at = 32 * end_of(air, o) + 31;
    let r = air.s_tile(t) + at;
    let win = wins(r);
    air.lemma_bounds();
    air.lemma_terms();
    air.lemma_openings_fit();
    lemma_columns_stand(air);
    air.lemma_tile_fits(t);
    lemma_openings_chain(air, o);
    lemma_caps_at(air, g, wins, r);
    lemma_shows(air, g, wins, r);
    lemma_more_selectors(air, win, t, at);
    lemma_caps_parts(air, win);
    lemma_openings_at(air, g, wins, r);
    lemma_openings_parts(air, win);
    let on = if o < 0 {
        w_per(front_base(air) + 1)
    } else if o == 0 {
        w_per(air.s_m_term())
    } else if o == 1 {
        w_per(air.s_q_term())
    } else {
        w_per(air.s_c_term(o - 2))
    };
    let e = w_times(on, w_minus(w_cur(k), w_cur(air.s_cap_c(4 * slot_of(air, o) + k))));
    lemma_leaf_values(air.s_m_term(), win);
    lemma_leaf_values(air.s_q_term(), win);
    lemma_end_wire(air, win, o, k, on);
    if o < 0 {
        lemma_front_selectors(air, win, t, at);
        lemma_leaf_values(front_base(air) + 1, win);
    }
    if o >= 2 {
        assert(win.periodic[air.s_c_term(o - 2)] == 1);
        lemma_leaf_values(air.s_c_term(o - 2), win);
    }
    lemma_leaf_values(k, win);
    lemma_leaf_values(air.s_cap_c(4 * slot_of(air, o) + k), win);
    lemma_gated_equation(on, w_cur(k), w_cur(air.s_cap_c(4 * slot_of(air, o) + k)), win);
    assert(r == air.s_tile(t) + 32 * end_of(air, o) + 31);
}

} // verus!
