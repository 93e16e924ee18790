//! The whole of a built trace satisfies the constraint system: the transcript region, the super-tiles and the rows
//! behind them.

use vstd::prelude::*;

use super::arith::steps;
use super::eval::{InlineBci, MonolithBci};
use super::grid::cell;
use super::layout::{MonolithAir, FT_BIND_START};
use super::leaves::mark;
use super::meaning::{lanes_at, law_transcript_carries};
use super::pairs::{
    instance_pairs, lemma_columns_stand, lemma_idle, lemma_off, row_pair, satisfied, shows_row,
};
use super::places::{law_built_tile_steps, lemma_idle_steps};
use super::paths::reduced_lanes;
use super::quiet::{lemma_idle_caps, lemma_idle_head, lemma_idle_openings, lemma_idle_switches};
use super::reading::row_at;
use super::region::{law_built_transcript_steps, lemma_region_lanes, region_holds};
use super::selection::shows_selectors;
use super::tilerows::{
    law_built_caps_row, law_built_head_family, law_built_openings_row, on_tile_row, query_agrees,
};
use super::tiles::{law_built_trace, tile_built, trace_built};
use super::tops::reads_window;
use super::trace::{transcript_input, transcript_row, QueryData};
use crate::expr::{value, w_const, w_cur, w_minus, w_nxt, w_on_transition, w_per, w_times, Window, Wire};
use crate::field::{f_add, f_red, x_red, Ext};
use crate::gadgets::traces::{lemma_switched, lemma_zero_product};
use crate::poseidon::{block_last, block_row, permuted, schedule};
use crate::transcript::block_follows;
use crate::vanish::{
    lemma_const_value, lemma_gates, lemma_leaf_values, lemma_op_values, lemma_vanish_flat, lemma_vanish_parts, pair_at,
    vanish,
};

verus! {

/// What the transcript has to do with the window: its blocks follow one another as the counts say, and the challenges
/// and the query felts of the window are lanes of its permutations.
pub open spec fn transcript_agrees(air: MonolithAir, blocks: Seq<Seq<u64>>, alpha: Ext, window: Seq<u64>) -> bool {
    &&& blocks.len() == air.counts@.len()
    &&& forall|b: int| 0 <= b < blocks.len() ==> #[trigger] block_follows(blocks, air.counts@, b)
    &&& forall|j: int|
        0 <= j < air.s_nb() ==> {
            let out = permuted(transcript_input(blocks, (#[trigger] air.binds@[j]) as nat));
            &&& 32 * air.binds@[j] + 31 < air.s_tr()
            &&& 1 <= air.s_bind_lane(j) < 8
            &&& out[air.s_bind_lane(j)] == f_red(window[2 * j] as int)
            &&& out[air.s_bind_lane(j) - 1] == f_red(window[2 * j + 1] as int)
        }
    &&& forall|k: int|
        0 <= k < air.s_ni() ==> {
            let out = permuted(transcript_input(blocks, (#[trigger] air.index_binds@[k]).0 as nat));
            &&& 32 * air.index_binds@[k].0 + 31 < air.s_tr()
            &&& air.index_binds@[k].1 < 8
            &&& out[air.index_binds@[k].1 as int] == f_red(window[2 * air.s_nb() + k] as int)
        }
    &&& pair_at(window, 2 * air.s_ch_alpha_fri()) == x_red(alpha)
}

/// Every row of an instance holds the window, where it lives in columns, and the chain of squares stays the same.
pub open spec fn window_held(air: MonolithAir, g: Seq<u64>, window: Seq<u64>) -> bool {
    let w = air.s_fold_w();
    air.column_window ==> {
        &&& forall|r: int, i: int|
            0 <= r < air.s_inst_h() && 0 <= i < air.s_pis_count() ==> #[trigger] cell(g, w, r, air.s_pw(i)) == window[i]
        &&& forall|r: int, j: int|
            0 <= r < air.s_inst_h() && 0 <= j < 2 * air.s_cm_rounds() ==> #[trigger] cell(g, w, r, air.s_sch(j)) == cell(
                g,
                w,
                0,
                air.s_sch(j),
            )
    }
}

/// A window over a row of an instance that holds the values, or with these public values, reads them.
pub proof fn law_row_reads_window(air: MonolithAir, g: Seq<u64>, window: Seq<u64>, win: Window, r: int)
    requires
        air.wf(),
        window_held(air, g, window),
        !air.column_window ==> win.publics == window,
        0 <= r < air.s_inst_h(),
        win.cur == row_at(g, air.s_fold_w(), r),
    ensures
        reads_window(air, win, window),
{
    air.lemma_bounds();
    assert forall|i: int| 0 <= i < air.s_pis_count() implies value(#[trigger] air.s_pi(i), win) == f_red(
        window[i] as int,
    ) by {
        if air.column_window {
            assert(cell(g, air.s_fold_w(), r, air.s_pw(i)) == window[i]);
            lemma_leaf_values(air.s_pw(i), win);
        }
    }
}

/// The last row of a block of the transcript region holds what the permutation makes of it.
proof fn lemma_region_end(air: MonolithAir, g: Seq<u64>, blocks: Seq<Seq<u64>>, b: int)
    requires
        8 <= air.s_fold_w(),
        region_holds(air, g, blocks),
        0 <= b,
        32 * b + 31 < air.s_tr(),
    ensures
        ({
            let input = transcript_input(blocks, b as nat);
            &&& input.len() == 8
            &&& lanes_at(row_at(g, air.s_fold_w(), 32 * b + 31), 0) == permuted(input)
            &&& lanes_at(row_at(g, air.s_fold_w(), 32 * b), 0) == reduced_lanes(input)
        }),
{
    let input = transcript_input(blocks, b as nat);
    assert((32 * b) / 32 == b && (32 * b) % 32 == 0 && (32 * b + 31) / 32 == b && (32 * b + 31) % 32 == 31);
    assert(transcript_row(blocks, 32 * b).len() == 8);
    assert(block_row(input, 0) == input);
    lemma_region_lanes(air, g, blocks, 32 * b);
    lemma_region_lanes(air, g, blocks, 32 * b + 31);
    super::paths::lemma_next_of_reduced(input, 30);
    reveal(block_last);
}

/// A selector column of the transcript on a row.
pub(super) proof fn lemma_bind_selectors(air: MonolithAir, win: Window, r: int)
    requires
        air.wf(),
        shows_selectors(air, win, r),
        0 <= r < air.s_inst_h(),
    ensures
        win.periodic[14] == mark(r < air.s_tr() && air.s_count(r / 32 + 1) == 0),
        win.periodic[air.s_s_trans()] == mark(r < air.s_tr()),
        win.periodic[air.s_s_trans_trans()] == mark(r < air.s_tr() - 1),
        forall|j: int|
            0 <= j < air.s_nb() ==> #[trigger] win.periodic[FT_BIND_START + j] == mark(r == 32 * air.binds@[j] + 31),
        forall|k: int|
            0 <= k < air.s_ni() ==> #[trigger] win.periodic[FT_BIND_START + air.s_nb() + k] == mark(
                r == 32 * air.index_binds@[k].0 + 31,
            ),
{
    lemma_columns_stand(air);
}

/// The lanes of the capacity in the first row.
#[verifier::spinoff_prover]
#[verifier::rlimit(40)]
proof fn lemma_start_lanes(
    air: MonolithAir,
    g: Seq<u64>,
    blocks: Seq<Seq<u64>>,
    alpha: Ext,
    window: Seq<u64>,
)
    requires
        air.wf(),
        13 <= air.s_fold_w(),
        region_holds(air, g, blocks),
        transcript_agrees(air, blocks, alpha, window),
    ensures
        ({
            let row = row_at(g, air.s_fold_w(), 0);
            &&& f_red(row[4] as int) == air.s_count(0)
            &&& f_red(air.s_count(0) as int) == air.s_count(0)
            &&& f_red(row[5] as int) == 0
            &&& f_red(row[6] as int) == 0
            &&& f_red(row[7] as int) == 0
        }),
{
    let lanes = lanes_at(row_at(g, air.s_fold_w(), 0), 0);
    let input = transcript_input(blocks, 0);
    lemma_columns_stand(air);
    lemma_region_end(air, g, blocks, 0);
    if blocks.len() > 0 {
        assert(block_follows(blocks, air.counts@, 0));
    }
    assert(lanes[4] == f_red(input[4] as int) && lanes[5] == f_red(input[5] as int));
    assert(lanes[6] == f_red(input[6] as int) && lanes[7] == f_red(input[7] as int));
    assert(f_red(air.s_count(0) as int) == air.s_count(0));
    assert(input[4] == air.s_count(0));
}

/// The start of the transcript.
#[verifier::spinoff_prover]
#[verifier::rlimit(40)]
proof fn lemma_start_row(
    air: MonolithAir,
    g: Seq<u64>,
    blocks: Seq<Seq<u64>>,
    alpha: Ext,
    window: Seq<u64>,
    win: Window,
    r: int,
)
    requires
        air.wf(),
        13 <= air.s_fold_w(),
        region_holds(air, g, blocks),
        transcript_agrees(air, blocks, alpha, window),
        0 <= r < air.s_inst_h(),
        shows_row(air, g, win, r),
    ensures
        vanish(air.s_transcript_start(), win),
{
    let on = w_per(air.s_p_inst_first());
    lemma_columns_stand(air);
    lemma_leaf_values(air.s_p_inst_first(), win);
    let cs = air.s_transcript_start();
    if r == 0 {
        lemma_start_lanes(air, g, blocks, alpha, window);
        lemma_leaf_values(4, win);
        lemma_leaf_values(5, win);
        lemma_leaf_values(6, win);
        lemma_leaf_values(7, win);
        lemma_leaf_values(12, win);
        lemma_switched(on, w_cur(4), w_per(12), win);
        lemma_zero_product(on, w_cur(5), win);
        lemma_zero_product(on, w_cur(6), win);
        lemma_zero_product(on, w_cur(7), win);
    } else {
        lemma_off(cs, win);
    }
}

/// The lanes behind the end of a block follow those at its end.
#[verifier::spinoff_prover]
#[verifier::rlimit(40)]
proof fn lemma_lanes_follow(
    air: MonolithAir,
    blocks: Seq<Seq<u64>>,
    alpha: Ext,
    window: Seq<u64>,
    b: int,
    win: Window,
)
    requires
        transcript_agrees(air, blocks, alpha, window),
        0 <= b,
        lanes_at(win.cur, 0) == permuted(transcript_input(blocks, b as nat)),
        lanes_at(win.nxt, 0) == reduced_lanes(transcript_input(blocks, (b + 1) as nat)),
    ensures
        ({
            let (cur, nxt, count) = (lanes_at(win.cur, 0), lanes_at(win.nxt, 0), air.s_count(b + 1));
            &&& f_red(count as int) == count
            &&& nxt[4] == f_add(cur[4], count)
            &&& forall|i: int| 5 <= i < 8 ==> nxt[i] == #[trigger] cur[i]
            &&& count == 0 ==> forall|i: int| 0 <= i < 4 ==> nxt[i] == #[trigger] cur[i]
        }),
{
    let (before, input) = (permuted(transcript_input(blocks, b as nat)), transcript_input(blocks, (b + 1) as nat));
    let (cur, nxt) = (lanes_at(win.cur, 0), lanes_at(win.nxt, 0));
    assert forall|i: int| 0 <= i < 8 implies #[trigger] cur[i] == f_red(win.cur[i] as int) && f_red(cur[i] as int)
        == cur[i] by {}
    let count = air.s_count(b + 1);
    assert(count <= 255 && f_red(count as int) == count);
    lemma_gates(cur[4]);
    if b + 1 < blocks.len() {
        assert(block_follows(blocks, air.counts@, b + 1));
        assert(transcript_input(blocks, b as nat) == blocks[b]);
        assert(input == blocks[b + 1]);
        assert(count == air.counts@[b + 1]);
    } else {
        assert(input == before);
        assert(count == 0);
    }
    assert(nxt[4] == f_add(cur[4], count)) by {
        assert(f_red(cur[4] as int) == cur[4]);
        assert(nxt[4] == f_red(input[4] as int));
    }
    assert forall|i: int| 5 <= i < 8 implies nxt[i] == #[trigger] cur[i] by {
        assert(nxt[i] == f_red(input[i] as int));
        assert(input[i] == before[i]);
    }
    if count == 0 {
        assert forall|i: int| 0 <= i < 4 implies nxt[i] == #[trigger] cur[i] by {
            assert(nxt[i] == f_red(input[i] as int));
            assert(input[i] == before[i]);
        }
    }
}

/// The links of the transcript.
#[verifier::spinoff_prover]
#[verifier::rlimit(40)]
proof fn lemma_link_row(
    air: MonolithAir,
    g: Seq<u64>,
    blocks: Seq<Seq<u64>>,
    alpha: Ext,
    window: Seq<u64>,
    win: Window,
    r: int,
)
    requires
        air.wf(),
        13 <= air.s_fold_w(),
        region_holds(air, g, blocks),
        transcript_agrees(air, blocks, alpha, window),
        0 <= r < air.s_inst_h(),
        shows_row(air, g, win, r),
    ensures
        vanish(air.s_transcript_link(), win),
{
    let (stt, bl) = (w_per(air.s_s_trans_trans()), w_per(11));
    air.lemma_bounds();
    lemma_columns_stand(air);
    lemma_bind_selectors(air, win, r);
    lemma_leaf_values(air.s_s_trans_trans(), win);
    lemma_leaf_values(11, win);
    let cs = air.s_transcript_link();
    if r < air.s_tr() - 1 && r % 32 == 31 {
        let b = r / 32;
        assert(r == 32 * b + 31);
        lemma_region_end(air, g, blocks, b);
        lemma_region_end(air, g, blocks, b + 1);
        lemma_lanes_follow(air, blocks, alpha, window, b, win);
        law_transcript_carries(air, win);
    } else {
        lemma_zero_product(stt, bl, win);
        lemma_zero_product(w_times(stt, bl), w_per(14), win);
        lemma_off(cs, win);
    }
}

/// A lane of a transcript block, where a challenge is bound to it.
proof fn lemma_bound_lane(
    air: MonolithAir,
    g: Seq<u64>,
    blocks: Seq<Seq<u64>>,
    b: int,
    lane: int,
    i: int,
    window: Seq<u64>,
    on: Wire,
    r: int,
    win: Window,
)
    requires
        air.wf(),
        13 <= air.s_fold_w(),
        region_holds(air, g, blocks),
        win.cur == row_at(g, air.s_fold_w(), r),
        reads_window(air, win, window),
        0 <= i < air.s_pis_count(),
        0 <= b,
        32 * b + 31 < air.s_tr(),
        0 <= lane < 8,
        permuted(transcript_input(blocks, b as nat))[lane] == f_red(window[i] as int),
        value(on, win) == mark(r == 32 * b + 31),
    ensures
        value(w_times(on, w_minus(w_cur(lane), air.s_pi(i))), win) == 0,
{
    lemma_leaf_values(lane, win);
    assert(value(air.s_pi(i), win) == f_red(window[i] as int));
    if r == 32 * b + 31 {
        lemma_region_end(air, g, blocks, b);
        assert(lanes_at(win.cur, 0)[lane] == f_red(win.cur[0 + lane] as int));
    }
    lemma_switched(on, w_cur(lane), air.s_pi(i), win);
}

/// The binds of the challenges and of the query felts.
#[verifier::spinoff_prover]
#[verifier::rlimit(40)]
proof fn lemma_binds_row(
    air: MonolithAir,
    g: Seq<u64>,
    blocks: Seq<Seq<u64>>,
    alpha: Ext,
    window: Seq<u64>,
    win: Window,
    r: int,
)
    requires
        air.eval_ok(),
        air.s_ni() == air.n_queries,
        13 <= air.s_fold_w(),
        region_holds(air, g, blocks),
        transcript_agrees(air, blocks, alpha, window),
        reads_window(air, win, window),
        0 <= r < air.s_inst_h(),
        shows_row(air, g, win, r),
    ensures
        vanish(air.all_binds(), win),
        vanish(air.all_index_binds(), win),
{
    air.lemma_bounds();
    lemma_columns_stand(air);
    lemma_bind_selectors(air, win, r);
    assert forall|j: int| 0 <= j < air.s_nb() implies vanish(#[trigger] air.f_binds()(j), win) by {
        let on = w_per(FT_BIND_START + j);
        assert(win.periodic[FT_BIND_START + j] == mark(r == 32 * air.binds@[j] + 31));
        lemma_leaf_values(FT_BIND_START + j, win);
        let b = air.binds@[j] as int;
        let lane = air.s_bind_lane(j);
        lemma_bound_lane(air, g, blocks, b, lane, 2 * j, window, on, r, win);
        lemma_bound_lane(air, g, blocks, b, lane - 1, 2 * j + 1, window, on, r, win);
        assert(air.f_binds()(j) =~= seq![
            w_times(on, w_minus(w_cur(lane), air.s_pi(2 * j))),
            w_times(on, w_minus(w_cur(lane - 1), air.s_pi(2 * j + 1))),
        ]);
    }
    lemma_vanish_flat(air.s_nb(), air.f_binds(), win);
    assert forall|k: int| 0 <= k < air.s_ni() implies vanish(#[trigger] air.f_index_binds()(k), win) by {
        let on = w_per(FT_BIND_START + air.s_nb() + k);
        assert(win.periodic[FT_BIND_START + air.s_nb() + k] == mark(r == 32 * air.index_binds@[k].0 + 31));
        lemma_leaf_values(FT_BIND_START + air.s_nb() + k, win);
        let (b, lane) = (air.index_binds@[k].0 as int, air.index_binds@[k].1 as int);
        lemma_bound_lane(air, g, blocks, b, lane, 2 * air.s_nb() + k, window, on, r, win);
        assert(air.f_index_binds()(k) =~= seq![
            w_times(on, w_minus(w_cur(lane), air.s_pi(2 * air.s_nb() + k))),
        ]);
    }
    lemma_vanish_flat(air.s_ni(), air.f_index_binds(), win);
}

/// The row that binds the batching challenge shows it.
#[verifier::spinoff_prover]
#[verifier::rlimit(40)]
proof fn lemma_seed_row(
    air: MonolithAir,
    g: Seq<u64>,
    blocks: Seq<Seq<u64>>,
    alpha: Ext,
    window: Seq<u64>,
    win: Window,
    r: int,
)
    requires
        air.wf(),
        13 <= air.s_fold_w(),
        region_holds(air, g, blocks),
        transcript_agrees(air, blocks, alpha, window),
        r == 32 * air.binds@[air.s_ch_alpha_fri()] + 31,
        win.cur == row_at(g, air.s_fold_w(), r),
    ensures
        f_red(win.cur[3] as int) == x_red(alpha).c0,
        f_red(win.cur[2] as int) == x_red(alpha).c1,
{
    let j = air.s_ch_alpha_fri();
    air.lemma_bounds();
    air.lemma_terms();
    assert(air.s_bind_lane(j) == 3);
    assert(32 * air.binds@[j] + 31 < air.s_tr());
    lemma_region_end(air, g, blocks, air.binds@[j] as int);
    assert(lanes_at(win.cur, 0)[3] == f_red(win.cur[3] as int));
    assert(lanes_at(win.cur, 0)[2] == f_red(win.cur[2] as int));
    assert(pair_at(window, 2 * j).c0 == f_red(window[2 * j] as int));
    assert(pair_at(window, 2 * j).c1 == f_red(window[2 * j + 1] as int));
}

/// The carried challenge.
#[verifier::spinoff_prover]
#[verifier::rlimit(60)]
proof fn lemma_carrier_row(
    air: MonolithAir,
    g: Seq<u64>,
    blocks: Seq<Seq<u64>>,
    alpha: Ext,
    window: Seq<u64>,
    win: Window,
    r: int,
)
    requires
        air.wf(),
        13 <= air.s_fold_w(),
        region_holds(air, g, blocks),
        transcript_agrees(air, blocks, alpha, window),
        forall|i: int|
            0 <= i < air.s_inst_h() ==> pair_at(#[trigger] row_at(g, air.s_fold_w(), i), air.s_carry()) == x_red(alpha),
        0 <= r < air.s_inst_h(),
        shows_row(air, g, win, r),
    ensures
        vanish(air.s_carrier(), win),
{
    air.lemma_bounds();
    air.lemma_terms();
    lemma_columns_stand(air);
    lemma_bind_selectors(air, win, r);
    let c = air.s_carry();
    let j = air.s_ch_alpha_fri();
    let held = w_minus(w_const(1), w_per(air.s_p_inst_last()));
    let seed = w_per(FT_BIND_START + j);
    assert(win.periodic[FT_BIND_START + j] == mark(r == 32 * air.binds@[j] + 31));
    lemma_leaf_values(FT_BIND_START + j, win);
    lemma_leaf_values(c, win);
    lemma_leaf_values(c + 1, win);
    lemma_leaf_values(2, win);
    lemma_leaf_values(3, win);
    assert(pair_at(row_at(g, air.s_fold_w(), r), c) == x_red(alpha));
    if r + 1 < air.s_inst_h() {
        assert(pair_at(row_at(g, air.s_fold_w(), r + 1), c) == x_red(alpha));
    }
    lemma_leaf_values(air.s_p_inst_last(), win);
    lemma_const_value(1, win);
    lemma_op_values(w_const(1), w_per(air.s_p_inst_last()), win);
    lemma_switched(held, w_nxt(c), w_cur(c), win);
    lemma_switched(held, w_nxt(c + 1), w_cur(c + 1), win);
    if r == 32 * air.binds@[j] + 31 {
        lemma_seed_row(air, g, blocks, alpha, window, win, r);
    }
    lemma_switched(seed, w_cur(c), w_cur(3), win);
    lemma_switched(seed, w_cur(c + 1), w_cur(2), win);
}

/// A cell that stays is held.
proof fn lemma_held_cell_row(air: MonolithAir, g: Seq<u64>, win: Window, r: int, c: int)
    requires
        air.wf(),
        0 <= r < air.s_inst_h(),
        shows_row(air, g, win, r),
        0 <= c < air.s_fold_w(),
        r + 1 < air.s_inst_h() ==> cell(g, air.s_fold_w(), r + 1, c) == cell(g, air.s_fold_w(), r, c),
    ensures
        ({
            let held = w_minus(w_const(1), w_per(air.s_p_inst_last()));
            value(w_on_transition(w_times(held, w_minus(w_nxt(c), w_cur(c)))), win) == 0
        }),
{
    let last = w_per(air.s_p_inst_last());
    let held = w_minus(w_const(1), last);
    lemma_columns_stand(air);
    lemma_leaf_values(air.s_p_inst_last(), win);
    lemma_const_value(1, win);
    lemma_op_values(w_const(1), last, win);
    lemma_leaf_values(c, win);
    lemma_switched(held, w_nxt(c), w_cur(c), win);
}

/// The held window and the held chain of squares.
#[verifier::rlimit(30)]
proof fn lemma_held_row(air: MonolithAir, g: Seq<u64>, window: Seq<u64>, win: Window, r: int)
    requires
        air.wf(),
        window_held(air, g, window),
        0 <= r < air.s_inst_h(),
        shows_row(air, g, win, r),
    ensures
        vanish(air.all_window(), win),
        vanish(air.all_chain(), win),
{
    let w = air.s_fold_w();
    air.lemma_bounds();
    let held = w_minus(w_const(1), w_per(air.s_p_inst_last()));
    if air.column_window {
        assert forall|i: int| 0 <= i < air.s_pis_count() implies vanish(#[trigger] air.f_window()(i), win) by {
            let c = air.s_pw(i);
            assert(cell(g, w, r, air.s_pw(i)) == window[i]);
            if r + 1 < air.s_inst_h() {
                assert(cell(g, w, r + 1, air.s_pw(i)) == window[i]);
            }
            lemma_held_cell_row(air, g, win, r, c);
            assert(air.f_window()(i) =~= seq![w_on_transition(w_times(held, w_minus(w_nxt(c), w_cur(c))))]);
        }
        lemma_vanish_flat(air.s_pis_count(), air.f_window(), win);
        assert forall|j: int| 0 <= j < 2 * air.s_cm_rounds() implies vanish(#[trigger] air.f_chain()(j), win) by {
            let c = air.s_sch(j);
            assert(cell(g, w, r, air.s_sch(j)) == cell(g, w, 0, air.s_sch(j)));
            if r + 1 < air.s_inst_h() {
                assert(cell(g, w, r + 1, air.s_sch(j)) == cell(g, w, 0, air.s_sch(j)));
            }
            lemma_held_cell_row(air, g, win, r, c);
            assert(air.f_chain()(j) =~= seq![w_on_transition(w_times(held, w_minus(w_nxt(c), w_cur(c))))]);
        }
        lemma_vanish_flat(2 * air.s_cm_rounds(), air.f_chain(), win);
    }
}

/// The permutation constraints outside the super-tiles.
#[verifier::spinoff_prover]
#[verifier::rlimit(80)]
proof fn lemma_outer_steps(air: MonolithAir, g: Seq<u64>, blocks: Seq<Seq<u64>>, win: Window, r: int)
    requires
        air.wf(),
        13 <= air.s_fold_w(),
        region_holds(air, g, blocks),
        0 <= r < air.s_inst_h(),
        shows_row(air, g, win, r),
        r < air.s_tr() || r >= air.s_tr() + air.n_queries * air.s_m_period(),
    ensures
        vanish(steps(0, air.s_permutation_rows()), win),
{
    let gate = air.s_permutation_rows();
    air.lemma_bounds();
    lemma_columns_stand(air);
    lemma_idle(air, win, r);
    lemma_idle_switches(air, win);
    lemma_bind_selectors(air, win, r);
    lemma_leaf_values(air.s_s_trans(), win);
    lemma_leaf_values(air.s_s_merkle(), win);
    lemma_op_values(w_per(air.s_s_trans()), w_per(air.s_s_merkle()), win);
    if r >= air.s_tr() {
        assert(value(gate, win) == 0);
        lemma_off(steps(0, gate), win);
    } else if r % 32 == 31 {
        lemma_idle_steps(0, gate, win);
    } else {
        law_built_transcript_steps(air, g, blocks, gate, win, r);
    }
}

/// The transcript's constraints vanish exactly if its families do.
pub(super) proof fn lemma_transcript_parts(air: MonolithAir, win: Window)
    ensures
        vanish(air.s_transcript(), win) <==> vanish(steps(0, air.s_permutation_rows()), win) && vanish(
            air.s_transcript_start(),
            win,
        ) && vanish(air.s_transcript_link(), win) && vanish(air.all_binds(), win) && vanish(air.all_index_binds(), win)
            && vanish(air.s_carrier(), win) && vanish(air.all_window(), win) && vanish(air.all_chain(), win),
{
    let (a, b, c) = (steps(0, air.s_permutation_rows()), air.s_transcript_start(), air.s_transcript_link());
    let (d, e, f) = (air.all_binds(), air.all_index_binds(), air.s_carrier());
    let (g, h) = (air.all_window(), air.all_chain());
    assert(air.s_transcript() == a + b + c + d + e + f + g + h);
    lemma_vanish_parts(a, b, win);
    lemma_vanish_parts(a + b, c, win);
    lemma_vanish_parts(a + b + c, d, win);
    lemma_vanish_parts(a + b + c + d, e, win);
    lemma_vanish_parts(a + b + c + d + e, f, win);
    lemma_vanish_parts(a + b + c + d + e + f, g, win);
    lemma_vanish_parts(a + b + c + d + e + f + g, h, win);
}

/// The constraints of an instance: the system but for the fold of the root.
pub open spec fn instance_wires(air: MonolithAir) -> Seq<Wire> {
    air.s_transcript() + air.s_head(InlineBci) + air.s_openings_held() + air.s_caps(InlineBci)
}

/// The constraints of an instance vanish exactly if their parts do.
pub(super) proof fn lemma_instance_parts(air: MonolithAir, win: Window)
    ensures
        vanish(instance_wires(air), win) <==> vanish(air.s_transcript(), win) && vanish(air.s_head(InlineBci), win)
            && vanish(air.s_openings_held(), win) && vanish(air.s_caps(InlineBci), win),
{
    let (a, b, c, d) = (air.s_transcript(), air.s_head(InlineBci), air.s_openings_held(), air.s_caps(InlineBci));
    lemma_vanish_parts(a, b, win);
    lemma_vanish_parts(a + b, c, win);
    lemma_vanish_parts(a + b + c, d, win);
}

/// The whole system vanishes exactly if the constraints of the instance and the fold of the root do.
pub(super) proof fn lemma_eval_parts(air: MonolithAir, win: Window)
    ensures
        vanish(air.s_eval(InlineBci), win) <==> vanish(instance_wires(air), win) && vanish(air.s_root_fold(), win),
{
    lemma_vanish_parts(instance_wires(air), air.s_root_fold(), win);
    assert(air.s_eval(InlineBci) == instance_wires(air) + air.s_root_fold());
}

/// An instance whose rows the builder made, whose transcript and queries agree with the window, and whose
/// out-of-domain check holds on every head.
pub open spec fn instance_agrees(
    air: MonolithAir,
    g: Seq<u64>,
    blocks: Seq<Seq<u64>>,
    qs: Seq<QueryData>,
    alpha: Ext,
    window: Seq<u64>,
    wins: spec_fn(int) -> Window,
) -> bool {
    &&& air.eval_ok()
    &&& air.buildable()
    &&& InlineBci.supports(air)
    &&& air.s_cm_rounds() < 32
    &&& air.n_terms >= 1
    &&& qs.len() == air.n_queries
    &&& air.s_ni() == air.n_queries
    &&& trace_built(air, g, blocks, qs, alpha)
    &&& transcript_agrees(air, blocks, alpha, window)
    &&& window_held(air, g, window)
    &&& forall|t: int| 0 <= t < qs.len() ==> query_agrees(air, t, #[trigger] qs[t], alpha, window)
    &&& forall|r: int|
        0 <= r < air.s_inst_h() ==> shows_row(air, g, #[trigger] wins(r), r) && reads_window(air, wins(r), window)
    &&& forall|t: int| 0 <= t < qs.len() ==> vanish(air.s_ood(InlineBci), wins(#[trigger] air.s_tile(t)))
}

/// The super-tile of a row behind the transcript.
#[verifier::rlimit(30)]
proof fn lemma_tile_of(air: MonolithAir, r: int) -> (t: int)
    requires
        air.wf(),
        air.s_tr() <= r < air.s_tr() + air.n_queries * air.s_m_period(),
    ensures
        0 <= t < air.n_queries,
        air.s_tile(t) <= r < air.s_tile(t) + air.s_m_period(),
{
    let (x, mp) = (r - air.s_tr(), air.s_m_period());
    air.lemma_bounds();
    air.lemma_openings_fit();
    let t = x / mp;
    vstd::arithmetic::div_mod::lemma_fundamental_div_mod(x, mp);
    vstd::arithmetic::div_mod::lemma_mod_bound(x, mp);
    assert(0 <= t < air.n_queries && air.s_tile(t) <= r < air.s_tile(t) + mp) by (nonlinear_arith)
        requires
            x == mp * t + x % mp,
            0 <= x % mp < mp,
            0 <= x < air.n_queries * mp,
            air.s_tile(t) == air.s_tr() + t * mp,
            r == x + air.s_tr(),
    ;
    t
}

/// Where a row of a super-tile stands and what it shows.
#[verifier::spinoff_prover]
#[verifier::rlimit(60)]
proof fn lemma_on_tile_row(
    air: MonolithAir,
    g: Seq<u64>,
    blocks: Seq<Seq<u64>>,
    qs: Seq<QueryData>,
    alpha: Ext,
    window: Seq<u64>,
    wins: spec_fn(int) -> Window,
    t: int,
    r: int,
)
    requires
        instance_agrees(air, g, blocks, qs, alpha, window, wins),
        0 <= t < qs.len(),
        0 <= r < air.s_m_period(),
    ensures
        on_tile_row(air, g, t, qs[t], r, wins(air.s_tile(t) + r)),
        pair_at(wins(air.s_tile(t) + r).cur, air.s_carry()) == x_red(alpha),
        0 <= air.s_tile(t),
        air.s_tile(t) + r < air.s_inst_h(),
        forall|j: int| 0 <= j < 11 ==> #[trigger] wins(air.s_tile(t) + r).periodic[j] == schedule(j, r % 32),
{
    let row = air.s_tile(t) + r;
    let q = qs[t];
    air.lemma_bounds();
    lemma_columns_stand(air);
    law_built_trace(air, g, blocks, qs, alpha);
    air.lemma_tile_fits(t);
    air.lemma_openings_fit();
    assert(shows_row(air, g, wins(row), row));
    assert(tile_built(air, g, air.s_tile(t), qs[t]));
    lemma_tile_phase(air, t, r);
    if r != 0 {
        assert forall|k: int| 0 <= k < qs.len() implies row != #[trigger] air.s_tile(k) by {
            if row == air.s_tile(k) {
                let (x, mp) = (row - air.s_tr(), air.s_m_period());
                vstd::arithmetic::div_mod::lemma_fundamental_div_mod_converse(x, mp, k, 0);
                vstd::arithmetic::div_mod::lemma_fundamental_div_mod_converse(x, mp, t, r);
            }
        }
        assert(cell(g, air.s_fold_w(), row, 12) <= 1);
    }
    assert(pair_at(row_at(g, air.s_fold_w(), row), air.s_carry()) == x_red(alpha));
}

/// Super-tiles start on whole blocks.
pub(super) proof fn lemma_tile_phase(air: MonolithAir, t: int, k: int)
    requires
        air.wf(),
    ensures
        (air.s_tile(t) + k) % 32 == k % 32,
{
    air.lemma_openings_fit();
    lemma_columns_stand(air);
    let m = air.s_m_nblocks();
    assert(t * (32 * m) == 32 * (t * m)) by (nonlinear_arith);
    assert(air.s_tile(t) == air.s_tr() + 32 * (t * m));
}

/// A row of a super-tile.
#[verifier::spinoff_prover]
#[verifier::rlimit(60)]
proof fn lemma_inner_row(
    air: MonolithAir,
    g: Seq<u64>,
    blocks: Seq<Seq<u64>>,
    qs: Seq<QueryData>,
    alpha: Ext,
    window: Seq<u64>,
    wins: spec_fn(int) -> Window,
    t: int,
    r: int,
)
    requires
        instance_agrees(air, g, blocks, qs, alpha, window, wins),
        0 <= t < qs.len(),
        0 <= r < air.s_m_period(),
    ensures
        ({
            let win = wins(air.s_tile(t) + r);
            &&& vanish(steps(0, air.s_permutation_rows()), win)
            &&& vanish(air.s_head(InlineBci), win)
            &&& vanish(air.s_openings_held(), win)
            &&& vanish(air.s_caps(InlineBci), win)
        }),
{
    let row = air.s_tile(t) + r;
    let win = wins(row);
    let q = qs[t];
    lemma_on_tile_row(air, g, blocks, qs, alpha, window, wins, t, r);
    assert(query_agrees(air, t, qs[t], alpha, window));
    assert(reads_window(air, wins(row), window));
    if r == 0 {
        assert(vanish(air.s_ood(InlineBci), wins(air.s_tile(t))));
    }
    lemma_tile_row_vanishes(air, g, t, q, r, alpha, window, win);
}

/// A row of a super-tile that agrees with the window.
proof fn lemma_tile_row_vanishes(
    air: MonolithAir,
    g: Seq<u64>,
    t: int,
    q: QueryData,
    r: int,
    alpha: Ext,
    window: Seq<u64>,
    win: Window,
)
    requires
        on_tile_row(air, g, t, q, r, win),
        query_agrees(air, t, q, alpha, window),
        reads_window(air, win, window),
        pair_at(win.cur, air.s_carry()) == x_red(alpha),
        r == 0 ==> vanish(air.s_ood(InlineBci), win),
        forall|j: int| 0 <= j < 11 ==> #[trigger] win.periodic[j] == schedule(j, r % 32),
    ensures
        vanish(steps(0, air.s_permutation_rows()), win),
        vanish(air.s_head(InlineBci), win),
        vanish(air.s_openings_held(), win),
        vanish(air.s_caps(InlineBci), win),
{
    lemma_columns_stand(air);
    law_built_tile_steps(air, g, t, q, r, win);
    law_built_openings_row(air, g, t, q, r, win);
    law_built_head_family(air, g, t, q, r, alpha, window, win);
    law_built_caps_row(air, g, t, q, r, alpha, window, win);
}

/// The transcript's families other than the permutation on any row.
#[verifier::spinoff_prover]
#[verifier::rlimit(30)]
proof fn lemma_transcript_row(
    air: MonolithAir,
    g: Seq<u64>,
    blocks: Seq<Seq<u64>>,
    qs: Seq<QueryData>,
    alpha: Ext,
    window: Seq<u64>,
    wins: spec_fn(int) -> Window,
    r: int,
)
    requires
        instance_agrees(air, g, blocks, qs, alpha, window, wins),
        0 <= r < air.s_inst_h(),
        vanish(steps(0, air.s_permutation_rows()), wins(r)),
    ensures
        vanish(air.s_transcript(), wins(r)),
{
    let win = wins(r);
    lemma_columns_stand(air);
    law_built_trace(air, g, blocks, qs, alpha);
    assert(shows_row(air, g, wins(r), r));
    lemma_start_row(air, g, blocks, alpha, window, win, r);
    lemma_link_row(air, g, blocks, alpha, window, win, r);
    lemma_binds_row(air, g, blocks, alpha, window, win, r);
    lemma_carrier_row(air, g, blocks, alpha, window, win, r);
    lemma_held_row(air, g, window, win, r);
    lemma_transcript_parts(air, win);
}

/// A row outside the super-tiles.
#[verifier::spinoff_prover]
#[verifier::rlimit(30)]
proof fn lemma_outer_row(
    air: MonolithAir,
    g: Seq<u64>,
    blocks: Seq<Seq<u64>>,
    qs: Seq<QueryData>,
    alpha: Ext,
    window: Seq<u64>,
    wins: spec_fn(int) -> Window,
    r: int,
)
    requires
        instance_agrees(air, g, blocks, qs, alpha, window, wins),
        0 <= r < air.s_inst_h(),
        r < air.s_tr() || r >= air.s_tr() + air.n_queries * air.s_m_period(),
    ensures
        ({
            let win = wins(r);
            &&& vanish(steps(0, air.s_permutation_rows()), win)
            &&& vanish(air.s_head(InlineBci), win)
            &&& vanish(air.s_openings_held(), win)
            &&& vanish(air.s_caps(InlineBci), win)
        }),
{
    let win = wins(r);
    lemma_columns_stand(air);
    law_built_trace(air, g, blocks, qs, alpha);
    assert(shows_row(air, g, wins(r), r));
    lemma_idle(air, win, r);
    lemma_outer_steps(air, g, blocks, win, r);
    lemma_idle_head(air, win);
    lemma_idle_openings(air, win);
    lemma_idle_caps(air, win);
}

/// On every row of an instance that agrees every constraint of the instance vanishes, whatever stands behind its last
/// row.
#[verifier::spinoff_prover]
#[verifier::rlimit(30)]
pub proof fn law_built_satisfies(
    air: MonolithAir,
    g: Seq<u64>,
    blocks: Seq<Seq<u64>>,
    qs: Seq<QueryData>,
    alpha: Ext,
    window: Seq<u64>,
    wins: spec_fn(int) -> Window,
    r: int,
)
    requires
        instance_agrees(air, g, blocks, qs, alpha, window, wins),
        0 <= r < air.s_inst_h(),
    ensures
        vanish(instance_wires(air), wins(r)),
{
    if air.s_tr() <= r < air.s_tr() + air.n_queries * air.s_m_period() {
        let t = lemma_tile_of(air, r);
        air.lemma_tile_fits(t);
        lemma_inner_row(air, g, blocks, qs, alpha, window, wins, t, r - air.s_tile(t));
    } else {
        lemma_outer_row(air, g, blocks, qs, alpha, window, wins, r);
    }
    lemma_transcript_row(air, g, blocks, qs, alpha, window, wins, r);
    lemma_instance_parts(air, wins(r));
}

/// On a trace that the builder made for one instance, with data that agree, every row pair makes every constraint of the
/// system vanish, whether the instance hides, looks up or does neither.
#[verifier::rlimit(30)]
pub proof fn law_built_trace_satisfies(
    air: MonolithAir,
    g: Seq<u64>,
    blocks: Seq<Seq<u64>>,
    qs: Seq<QueryData>,
    alpha: Ext,
    window: Seq<u64>,
    publics: Seq<u64>,
)
    requires
        !air.fold,
        air.k_instances == 1,
        g.len() == air.s_height() * air.s_fold_w(),
        instance_agrees(air, g, blocks, qs, alpha, window, instance_pairs(air, g, publics, 0)),
    ensures
        satisfied(InlineBci, air, g, publics),
{
    let wins = instance_pairs(air, g, publics, 0);
    let h = air.s_inst_h();
    assert(1 * h == h);
    assert forall|r: int| 0 <= r < air.s_height() implies vanish(
        air.s_eval(InlineBci),
        #[trigger] row_pair(air, g, publics, r),
    ) by {
        law_built_satisfies(air, g, blocks, qs, alpha, window, wins, r);
        assert(wins(r) == row_pair(air, g, publics, 0 * h + r));
        assert(air.s_root_fold() == Seq::<Wire>::empty());
        lemma_eval_parts(air, wins(r));
    }
    reveal(satisfied);
}

} // verus!
