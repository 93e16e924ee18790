//! The round in front of the trace row, random or of the aux columns, and the salted leaves: their constraints vanish on
//! every row of a built super-tile.

use vstd::prelude::*;

use super::eval::leaf_wires;
use super::feeds::{law_built_aux_row, law_built_random_row};
use super::layout::{MonolithAir, M_INPUT_LEAF};
use super::leaves::{law_built_leaf_absorbs, leaf_selected, lemma_lane_carries, mark};
use super::pairs::{lemma_columns_stand, lemma_off};
use super::places::{
    end_of, first_of, head_of, leaf_of, lemma_front_selectors, lemma_more_selectors, lemma_opening_stands_at,
    lemma_openings_chain, path_of, preimage_of, starts_commit,
};
use super::quiet::lemma_quiet_leaf;
use super::selection::data_agrees;
use super::tilerows::{lemma_leaf_elsewhere, on_tile_row};
use super::tiles::{lemma_carried, lemma_carrier_parts};
use super::tops::{lemma_top, lemma_top_carried, top_of};
use super::trace::QueryData;
use crate::bits::div_up;
use crate::expr::{value, w_cur, w_minus, w_nxt, w_per, w_times, Window, Wire};
use crate::field::f_red;
use crate::fri::merkle::contents;
use crate::gadgets::traces::lemma_switched;
use crate::vanish::{lemma_leaf_values, lemma_vanish_parts, vanish};

verus! {

/// The first selector of the round in front.
pub open spec fn front_base(air: MonolithAir) -> int {
    if air.is_zk == 1 {
        air.s_random_absorb_base()
    } else {
        air.s_aux_absorb_base()
    }
}

/// The felts of the row in front.
pub open spec fn front_felts(air: MonolithAir) -> int {
    if air.is_zk == 1 {
        air.s_random_leaf_felts()
    } else {
        air.s_aux_leaf_felts()
    }
}

/// The first column that carries the row in front.
pub open spec fn front_carrier(air: MonolithAir) -> int {
    if air.is_zk == 1 {
        air.s_ov_random(0)
    } else {
        air.s_ov_aux(0)
    }
}

/// Where the selectors and the columns of the round in front stand, and what they mark.
#[verifier::spinoff_prover]
#[verifier::rlimit(30)]
pub(super) proof fn lemma_front_columns(air: MonolithAir, row: int, i: int)
    requires
        air.wf(),
        first_of(air) < 0,
    ensures
        ({
            let (n, felts, base) = (leaf_of(air, -1), front_felts(air), front_base(air));
            &&& 1 <= felts
            &&& n == div_up(felts, 4)
            &&& air.s_random_absorb_base() <= base
            &&& 0 <= i < n + 1 || n > 1 && i == n + 1 || n > 1 && felts % 4 != 0 && i == n + 2 ==> air.selector(
                base + i,
                row,
            ) == air.prepended_selector(i, row, n, end_of(air, -1)) && base + i < air.s_p_inst_first() <= usize::MAX
            &&& n > 1 ==> base + 1 + n < air.s_p_inst_first()
            &&& n > 1 && felts % 4 != 0 ==> base + 2 + n < air.s_p_inst_first()
            &&& 0 <= front_carrier(air)
            &&& front_carrier(air) + felts <= air.s_fold_w() <= usize::MAX
            &&& 32 * (M_INPUT_LEAF + n) < air.s_m_period()
        }),
{
    lemma_columns_stand(air);
    air.lemma_bounds();
    air.lemma_terms();
    air.lemma_openings_fit();
    lemma_openings_chain(air, -1);
    lemma_openings_chain(air, 0);
}

/// The selectors of the leaf in front on its row `k`.
#[verifier::spinoff_prover]
#[verifier::rlimit(40)]
pub(super) proof fn lemma_front_selected(air: MonolithAir, win: Window, t: int, k: int)
    requires
        air.wf(),
        first_of(air) < 0,
        0 <= t < air.n_queries,
        0 <= k < 32 * leaf_of(air, -1),
        super::selection::shows_selectors(air, win, air.s_tile(t) + (32 + k)),
    ensures
        leaf_selected(win, front_base(air), front_base(air) + 2, front_felts(air), k),
{
    let (n, felts, base) = (leaf_of(air, -1), front_felts(air), front_base(air));
    let at = 32 + k;
    let row = air.s_tile(t) + at;
    lemma_front_columns(air, row, 0);
    lemma_columns_stand(air);
    air.lemma_on_tile(t, at, M_INPUT_LEAF * 32);
    assert(win.periodic[base] == mark(k == 0)) by {
        assert(air.selector(base + 0, row) == air.at_head(row, M_INPUT_LEAF as int));
    }
    assert forall|b: int| 1 <= b < n implies #[trigger] win.periodic[base + 2 + b - 1] == mark(k == 32 * b) by {
        lemma_front_columns(air, row, 1 + b);
        air.lemma_on_tile(t, at, (1 + b) * 32);
        assert(base + (1 + b) == base + 2 + b - 1);
    }
    if n > 1 {
        lemma_front_columns(air, row, n + 1);
        air.lemma_on_boundary(t, at, M_INPUT_LEAF as int, n);
        assert(base + (n + 1) == base + 2 + n - 1);
        assert(at % 32 == k % 32);
        if felts % 4 != 0 {
            lemma_front_columns(air, row, n + 2);
            air.lemma_on_tile(t, at, (1 + n - 2) * 32 + 31);
            assert(base + (n + 2) == base + 2 + n);
        }
    }
}

/// On the rows of the leaf in front its constraints vanish.
#[verifier::spinoff_prover]
#[verifier::rlimit(40)]
proof fn lemma_front_absorbs(air: MonolithAir, g: Seq<u64>, t: int, q: QueryData, k: int, win: Window)
    requires
        on_tile_row(air, g, t, q, 32 + k, win),
        first_of(air) < 0,
        0 <= k < 32 * leaf_of(air, -1),
    ensures
        vanish(leaf_wires(front_base(air), front_base(air) + 2, front_carrier(air), front_felts(air), true), win),
{
    let row = air.s_tile(t);
    let (pre, path) = (preimage_of(air, q, -1), path_of(q, -1));
    let carrier = front_carrier(air);
    air.lemma_bounds();
    air.lemma_terms();
    lemma_columns_stand(air);
    lemma_front_columns(air, row + (32 + k), 0);
    lemma_opening_stands_at(air, g, row, q, -1);
    air.lemma_preimages(q, air.s_nqc() as nat);
    lemma_carrier_parts(air, q);
    lemma_front_selected(air, win, t, k);
    assert(pre.len() == front_felts(air));
    let at = carrier - air.s_ov();
    assert forall|c: int| 0 <= c < pre.len() implies win.cur[#[trigger] (carrier + c)] == pre[c] by {
        assert(air.s_carrier_cells(q)[at + c] == pre[c]);
        lemma_carried(air, g, row, q, 32 + k, at + c);
    }
    assert(row + 32 * head_of(air, -1) + k == row + (32 + k));
    assert(row + 32 * head_of(air, -1) + k + 1 == row + (32 + k) + 1);
    law_built_leaf_absorbs(
        g,
        air.s_fold_w(),
        row + 32 * head_of(air, -1),
        pre,
        contents(path.siblings@),
        path.bits@,
        front_base(air),
        front_base(air) + 2,
        carrier,
        true,
        k,
        win,
    );
}

/// On every row of a super-tile the constraints of the leaf in front vanish.
#[verifier::spinoff_prover]
#[verifier::rlimit(40)]
proof fn lemma_front_leaf(air: MonolithAir, g: Seq<u64>, t: int, q: QueryData, r: int, win: Window)
    requires
        on_tile_row(air, g, t, q, r, win),
        first_of(air) < 0,
    ensures
        vanish(leaf_wires(front_base(air), front_base(air) + 2, front_carrier(air), front_felts(air), true), win),
{
    let row = air.s_tile(t) + r;
    let (n, felts, base) = (leaf_of(air, -1), front_felts(air), front_base(air));
    lemma_columns_stand(air);
    air.lemma_bounds();
    lemma_front_columns(air, row, 0);
    if 32 <= r < 32 * (1 + n) {
        assert(32 + (r - 32) == r);
        lemma_front_absorbs(air, g, t, q, r - 32, win);
    } else {
        lemma_leaf_elsewhere(air, t, r, 0, M_INPUT_LEAF as int, n);
        if n > 1 {
            assert forall|i: int| 0 <= i < n || i == n && felts % 4 != 0 implies #[trigger] win.periodic[base + 2 + i] == 0 by {
                lemma_front_columns(air, row, 2 + i);
                lemma_leaf_elsewhere(air, t, r, i, M_INPUT_LEAF as int, n);
                assert(base + (2 + i) == base + 2 + i);
            }
        }
        assert(win.periodic[base] == 0) by {
            assert(air.selector(base + 0, row) == air.at_head(row, M_INPUT_LEAF as int));
        }
        if felts > 4 {
            assert forall|j: int| base + 2 <= j < base + 2 + n implies #[trigger] win.periodic[j] == 0 by {
                let i = j - base - 2;
                assert(win.periodic[base + 2 + i] == 0);
            }
            if felts % 4 != 0 {
                assert(win.periodic[base + 2 + n] == 0);
            }
        }
        lemma_quiet_leaf(base, base + 2, front_carrier(air), felts, true, win);
    }
}

/// One lane of the end of the path in front.
#[verifier::rlimit(30)]
proof fn lemma_front_end(air: MonolithAir, g: Seq<u64>, t: int, q: QueryData, r: int, win: Window, on: Wire, k: int)
    requires
        on_tile_row(air, g, t, q, r, win),
        first_of(air) < 0,
        value(on, win) == mark(r == 32 * end_of(air, -1) + 31),
        0 <= k < 4,
    ensures
        value(w_times(on, w_minus(w_cur(k), w_cur(air.s_cap_c(8 + 4 * air.s_cm_rounds() + k)))), win) == 0,
{
    let row = air.s_tile(t);
    air.lemma_bounds();
    air.lemma_terms();
    lemma_columns_stand(air);
    lemma_top_carried(air, g, row, q, r, -1, k);
    assert(4 * (2 + air.s_cm_rounds()) + k == 8 + 4 * air.s_cm_rounds() + k);
    lemma_leaf_values(k, win);
    lemma_leaf_values(air.s_cap_c(8 + 4 * air.s_cm_rounds() + k), win);
    lemma_top(air, g, row, q, -1);
    if r == 32 * end_of(air, -1) + 31 {
        assert(f_red(win.cur[k] as int) == top_of(air, q, -1)[k]);
        assert(f_red(top_of(air, q, -1)[k] as int) == top_of(air, q, -1)[k]);
    }
    lemma_switched(on, w_cur(k), w_cur(air.s_cap_c(8 + 4 * air.s_cm_rounds() + k)), win);
}

/// On every row of a built super-tile the opening in front vanishes.
#[verifier::spinoff_prover]
#[verifier::rlimit(40)]
proof fn lemma_front_opening(air: MonolithAir, g: Seq<u64>, t: int, q: QueryData, r: int, win: Window)
    requires
        on_tile_row(air, g, t, q, r, win),
    ensures
        vanish(air.s_random_opening(), win),
        vanish(air.s_aux_opening(), win),
{
    if first_of(air) < 0 {
        lemma_columns_stand(air);
        lemma_front_columns(air, air.s_tile(t) + r, 1);
        lemma_front_leaf(air, g, t, q, r, win);
        lemma_front_selectors(air, win, t, r);
        let leaf = leaf_wires(
            front_base(air),
            front_base(air) + 2,
            front_carrier(air),
            front_felts(air),
            true,
        );
        let on = w_per(front_base(air) + 1);
        lemma_leaf_values(front_base(air) + 1, win);
        lemma_front_end(air, g, t, q, r, win, on, 0);
        lemma_front_end(air, g, t, q, r, win, on, 1);
        lemma_front_end(air, g, t, q, r, win, on, 2);
        lemma_front_end(air, g, t, q, r, win, on, 3);
        if air.is_zk == 1 {
            assert(vanish(air.s_random_term(), win));
            assert(air.s_random_opening() == leaf + air.s_random_term());
            lemma_vanish_parts(leaf, air.s_random_term(), win);
        } else {
            assert(vanish(air.s_aux_term(), win));
            assert(air.s_aux_opening() == leaf + air.s_aux_term());
            lemma_vanish_parts(leaf, air.s_aux_term(), win);
        }
    }
}

/// On every row of a built super-tile the second block of a salted leaf takes over the capacity of the first.
#[verifier::spinoff_prover]
#[verifier::rlimit(40)]
proof fn lemma_salted_row(air: MonolithAir, g: Seq<u64>, t: int, q: QueryData, r: int, win: Window)
    requires
        on_tile_row(air, g, t, q, r, win),
    ensures
        vanish(air.s_salted_leaves(), win),
{
    if air.is_zk == 1 {
        let row = air.s_tile(t);
        let on = w_per(air.s_c_bnd());
        lemma_columns_stand(air);
        air.lemma_bounds();
        lemma_front_selectors(air, win, t, r);
        lemma_leaf_values(air.s_c_bnd(), win);
        if r % 32 == 31 && starts_commit(air, r / 32) {
            let k = choose|k: int| 0 <= k < air.s_cm_rounds() && r / 32 == #[trigger] air.s_cm_leaf(k);
            let (pre, path) = (preimage_of(air, q, 2 + k), path_of(q, 2 + k));
            lemma_opening_stands_at(air, g, row, q, 2 + k);
            lemma_openings_chain(air, 2 + k);
            let at = row + 32 * head_of(air, 2 + k);
            assert(at + 32 * 0 + 31 == row + r);
            assert(at + 32 * 0 + 32 == row + r + 1);
            assert(leaf_of(air, 2 + k) == 2);
            assert forall|c: int| 4 <= c < 8 implies #[trigger] win.nxt[c] == win.cur[c] by {
                lemma_lane_carries(g, air.s_fold_w(), at, pre, contents(path.siblings@), path.bits@, 0, c);
            }
            assert(r < air.s_m_period() - 1);
            lemma_leaf_values(4, win);
            lemma_leaf_values(5, win);
            lemma_leaf_values(6, win);
            lemma_leaf_values(7, win);
            lemma_switched(on, w_nxt(4), w_cur(4), win);
            lemma_switched(on, w_nxt(5), w_cur(5), win);
            lemma_switched(on, w_nxt(6), w_cur(6), win);
            lemma_switched(on, w_nxt(7), w_cur(7), win);
        } else {
            lemma_off(air.s_commit_carry(), win);
        }
    }
}

/// On every row of a built super-tile whose data agrees the constraints of the round in front and of the salted leaves
/// vanish.
pub proof fn law_built_front_row(air: MonolithAir, g: Seq<u64>, t: int, q: QueryData, r: int, win: Window)
    requires
        on_tile_row(air, g, t, q, r, win),
        data_agrees(air, q),
    ensures
        vanish(air.all_random_row(), win),
        vanish(air.all_aux_row(), win),
        vanish(air.s_random_opening(), win),
        vanish(air.s_aux_opening(), win),
        vanish(air.s_salted_leaves(), win),
{
    lemma_columns_stand(air);
    lemma_more_selectors(air, win, t, r);
    law_built_random_row(air, g, air.s_tile(t), q, r, win);
    law_built_aux_row(air, g, air.s_tile(t), q, r, win);
    lemma_front_opening(air, g, t, q, r, win);
    lemma_salted_row(air, g, t, q, r, win);
}

} // verus!
