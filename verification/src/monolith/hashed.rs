//! What a satisfied instance shows of the leaves: each opening starts from the hash of the row that it carries, and that
//! row is the one that the head row or the fold row of the query reads.

use vstd::prelude::*;

use super::eval::{f_lane_carry, f_leaf_absorb, f_leaf_empty, f_leaf_head, leaf_wires};
use super::front::{front_base, front_carrier, front_felts, lemma_front_columns, lemma_front_selected};
use super::index::selected_entry;
use super::layout::{MonolithAir, QT_BIT, QT_E, QT_S};
use super::leaves::leaf_selected;
use super::meaning::{digest_at, lanes_at, lemma_chosen, lemma_transition_value};
use super::pairs::lemma_columns_stand;
use super::places::{
    end_of, first_of, head_of, leaf_of, lemma_front_selectors, lemma_more_selectors, lemma_openings_chain,
};
use super::quiet::lemma_openings_parts;
use super::reading::row_at;
use super::sound::{
    digest_after, held_sides, held_siblings, inline_alone, instance_satisfied, law_satisfied_climbs, law_satisfied_folds,
    law_satisfied_reaches_cap, lemma_openings_at, lemma_runs_end, lemma_shows, lemma_tile_rows, shown_window,
};
use super::tops::slot_of;
use crate::bits::div_up;
use crate::emit::flat;
use crate::expr::{value, w_const, w_cur, w_minus, w_nxt, w_on_transition, w_per, w_plus, w_times, Window, Wire};
use crate::field::f_red;
use crate::fri::witness::climbed_by_bits;
use crate::gadgets::fold::coords;
use crate::poseidon::{absorbed, leaf_hash, sponge};
use crate::vanish::{
    lemma_const_value, lemma_gated_equation, lemma_gates, lemma_leaf_values, lemma_op_values, lemma_vanish_flat,
    lemma_vanish_parts, pair_at, vanish,
};

verus! {

/// The first column that carries the row of opening `o`.
pub open spec fn carrier_of(air: MonolithAir, o: int) -> int {
    if o < 0 {
        front_carrier(air)
    } else if o == 0 {
        air.s_ov()
    } else if o == 1 {
        air.s_qc(0)
    } else {
        air.s_cg(o - 2, 0)
    }
}

/// The felts that are carried for the row of opening `o`: all of it, but for the salt of a commit round.
pub open spec fn felts_of(air: MonolithAir, o: int) -> int {
    if o < 0 {
        front_felts(air)
    } else if o == 0 {
        air.s_input_leaf_felts()
    } else if o == 1 {
        air.s_quot_leaf_felts()
    } else {
        4
    }
}

/// The felts of opening `o` that the super-tile of query `t` carries.
pub open spec fn held_felts(air: MonolithAir, g: Seq<u64>, t: int, o: int) -> Seq<u64> {
    let head = row_at(g, air.s_fold_w(), air.s_tile(t));
    Seq::new(felts_of(air, o) as nat, |c: int| f_red(head[carrier_of(air, o) + c] as int))
}

/// The row of opening `o` that the super-tile of query `t` holds: the felts that it carries, and behind those of a commit
/// round, when hiding, the salt in its second block.
pub open spec fn held_row(air: MonolithAir, g: Seq<u64>, t: int, o: int) -> Seq<u64> {
    held_felts(air, g, t, o) + if air.is_zk == 1 && o >= 2 {
        digest_at(row_at(g, air.s_fold_w(), air.s_tile(t) + 32 * (head_of(air, o) + 1)), 0)
    } else {
        Seq::empty()
    }
}

/// What the constraints of a leaf say on one of its rows.
pub open spec fn leaf_shown(carrier: int, felts: int, win: Window, r: int) -> bool {
    let n = div_up(felts, 4);
    let cur = lanes_at(win.cur, 0);
    let nxt = lanes_at(win.nxt, 0);
    &&& r == 0 ==> forall|i: int|
        0 <= i < 8 ==> #[trigger] cur[i] == (if i < 4 && i < felts {
            f_red(win.cur[carrier + i] as int)
        } else {
            0
        })
    &&& forall|b: int, i: int|
        1 <= b < n && r == 32 * b && 0 <= i < 4 && 4 * b + i < felts ==> #[trigger] cur[i] == f_red(
            #[trigger] win.cur[carrier + (4 * b + i)] as int,
        )
    &&& r % 32 == 31 && r < 32 * (n - 1) ==> forall|i: int| 4 <= i < 8 ==> #[trigger] nxt[i] == cur[i]
    &&& n > 1 && r == 32 * (n - 2) + 31 ==> forall|i: int|
        0 <= i < 4 && felts % 4 != 0 && felts % 4 <= i ==> #[trigger] nxt[i] == cur[i]
}

/// A lane that carries over where its mark is set.
proof fn lemma_carried_lane(sel: int, from: int, i: int, win: Window)
    requires
        0 <= sel <= usize::MAX,
        0 <= from,
        0 <= i,
        from + i < 8,
        win.is_transition == 1,
        win.periodic[sel] == 1,
        vanish(f_lane_carry(sel, from)(i), win),
    ensures
        lanes_at(win.nxt, 0)[from + i] == lanes_at(win.cur, 0)[from + i],
{
    let c = from + i;
    let e = w_times(w_per(sel), w_minus(w_nxt(c), w_cur(c)));
    assert(f_lane_carry(sel, from)(i)[0] == w_on_transition(e));
    lemma_leaf_values(sel, win);
    lemma_leaf_values(c, win);
    lemma_transition_value(e, win);
    lemma_gated_equation(w_per(sel), w_nxt(c), w_cur(c), win);
}

/// The parts of a bound leaf.
#[verifier::spinoff_prover]
#[verifier::rlimit(30)]
proof fn lemma_leaf_parts(head: int, absorb: int, carrier: int, felts: int, first: int, win: Window)
    requires
        1 <= felts,
        first == (if felts < 4 {
            felts
        } else {
            4
        }),
        vanish(leaf_wires(head, absorb, carrier, felts, true), win),
    ensures
        ({
            let n = div_up(felts, 4);
            &&& forall|c: int| 0 <= c < first ==> vanish(#[trigger] f_leaf_head(head, carrier)(c), win)
            &&& forall|i: int| 0 <= i < 8 - first ==> vanish(#[trigger] f_leaf_empty(head, first)(i), win)
            &&& forall|c: int| 0 <= c < felts - 4 ==> vanish(#[trigger] f_leaf_absorb(absorb, carrier)(c), win)
            &&& n > 1 ==> forall|i: int| 0 <= i < 4 ==> vanish(#[trigger] f_lane_carry(absorb + n - 1, 4)(i), win)
            &&& n > 1 && felts % 4 != 0 ==> forall|i: int|
                0 <= i < 4 - felts % 4 ==> vanish(#[trigger] f_lane_carry(absorb + n, felts % 4)(i), win)
        }),
{
    let n = div_up(felts, 4);
    let bound = flat(first, f_leaf_head(head, carrier));
    let empty = flat(8 - first, f_leaf_empty(head, first));
    let later = if felts > 4 {
        flat(felts - 4, f_leaf_absorb(absorb, carrier))
    } else {
        Seq::empty()
    };
    let short = if felts % 4 != 0 {
        flat(4 - felts % 4, f_lane_carry(absorb + n, felts % 4))
    } else {
        Seq::empty()
    };
    let whole = flat(4, f_lane_carry(absorb + n - 1, 4));
    let carry = if n > 1 {
        whole + short
    } else {
        Seq::empty()
    };
    reveal(leaf_wires);
    assert(leaf_wires(head, absorb, carrier, felts, true) == bound + empty + later + carry);
    lemma_vanish_parts(bound + empty + later, carry, win);
    lemma_vanish_parts(bound + empty, later, win);
    lemma_vanish_parts(bound, empty, win);
    lemma_vanish_parts(whole, short, win);
    lemma_vanish_flat(first, f_leaf_head(head, carrier), win);
    lemma_vanish_flat(8 - first, f_leaf_empty(head, first), win);
    if felts > 4 {
        lemma_vanish_flat(felts - 4, f_leaf_absorb(absorb, carrier), win);
    }
    lemma_vanish_flat(4, f_lane_carry(absorb + n - 1, 4), win);
    if felts % 4 != 0 {
        lemma_vanish_flat(4 - felts % 4, f_lane_carry(absorb + n, felts % 4), win);
    }
}

/// On the rows of a leaf its constraints say where every lane comes from.
#[verifier::spinoff_prover]
#[verifier::rlimit(60)]
proof fn lemma_leaf_shown(head: int, absorb: int, carrier: int, felts: int, win: Window, r: int)
    requires
        1 <= felts,
        0 <= r,
        0 <= head <= usize::MAX,
        0 <= absorb,
        div_up(felts, 4) > 1 ==> absorb + div_up(felts, 4) <= usize::MAX,
        0 <= carrier,
        carrier + felts <= usize::MAX,
        leaf_selected(win, head, absorb, felts, r),
        r % 32 == 31 ==> win.is_transition == 1,
        vanish(leaf_wires(head, absorb, carrier, felts, true), win),
    ensures
        leaf_shown(carrier, felts, win, r),
{
    let n = div_up(felts, 4);
    let first = if felts < 4 {
        felts
    } else {
        4
    };
    let (cur, nxt) = (lanes_at(win.cur, 0), lanes_at(win.nxt, 0));
    lemma_leaf_parts(head, absorb, carrier, felts, first, win);
    if r == 0 {
        lemma_leaf_values(head, win);
        assert forall|i: int| 0 <= i < 8 implies #[trigger] cur[i] == (if i < 4 && i < felts {
            f_red(win.cur[carrier + i] as int)
        } else {
            0
        }) by {
            lemma_leaf_values(i, win);
            if i < first {
                let e = f_leaf_head(head, carrier)(i);
                assert(vanish(e, win));
                assert(value(e[0], win) == 0);
                lemma_leaf_values(carrier + i, win);
                lemma_gated_equation(w_per(head), w_cur(i), w_cur(carrier + i), win);
            } else {
                let e = f_leaf_empty(head, first)(i - first);
                assert(vanish(e, win));
                assert(value(e[0], win) == 0);
                assert(first + (i - first) == i);
                lemma_op_values(w_per(head), w_cur(i), win);
                crate::expr::lemma_value_canonical(w_cur(i), win);
                lemma_gates(value(w_cur(i), win));
            }
        }
    }
    assert forall|b: int, i: int|
        1 <= b < n && r == 32 * b && 0 <= i < 4 && 4 * b + i < felts implies #[trigger] cur[i] == f_red(
        #[trigger] win.cur[carrier + (4 * b + i)] as int,
    ) by {
        let c = 4 * b + i - 4;
        let e = f_leaf_absorb(absorb, carrier)(c);
        assert(vanish(e, win));
        assert(value(e[0], win) == 0);
        assert((4 + c) / 4 == b && (4 + c) % 4 == i);
        assert(carrier + 4 + c == carrier + (4 * b + i));
        assert(win.periodic[absorb + b - 1] == 1);
        lemma_leaf_values(absorb + b - 1, win);
        lemma_leaf_values(i, win);
        lemma_leaf_values(carrier + (4 * b + i), win);
        lemma_gated_equation(w_per(absorb + b - 1), w_cur(i), w_cur(carrier + (4 * b + i)), win);
    }
    if r % 32 == 31 && r < 32 * (n - 1) {
        assert forall|i: int| 4 <= i < 8 implies #[trigger] nxt[i] == cur[i] by {
            assert(vanish(f_lane_carry(absorb + n - 1, 4)(i - 4), win));
            lemma_carried_lane(absorb + n - 1, 4, i - 4, win);
        }
    }
    if n > 1 && r == 32 * (n - 2) + 31 && felts % 4 != 0 {
        assert forall|i: int| 0 <= i < 4 && felts % 4 <= i implies #[trigger] nxt[i] == cur[i] by {
            assert(vanish(f_lane_carry(absorb + n, felts % 4)(i - felts % 4), win));
            lemma_carried_lane(absorb + n, felts % 4, i - felts % 4, win);
        }
    }
}

/// The wire that holds column `p` in the super-tiles.
pub open spec fn hold_wire(air: MonolithAir, p: int) -> Wire {
    let hold = w_times(w_per(air.s_s_query()), w_minus(w_const(1), w_per(air.s_p_st_last())));
    w_on_transition(w_times(hold, w_minus(w_nxt(p), w_cur(p))))
}

/// The columns of the rows stand in the trace.
#[verifier::spinoff_prover]
#[verifier::rlimit(30)]
proof fn lemma_carrier_fits(air: MonolithAir, o: int)
    requires
        air.wf(),
        first_of(air) <= o < 2 + air.s_cm_rounds(),
        o == 0 ==> !air.narrow_ov,
    ensures
        0 <= carrier_of(air, o),
        1 <= felts_of(air, o),
        carrier_of(air, o) + felts_of(air, o) <= air.s_fused_w() <= usize::MAX,
        o < 2 || air.is_zk != 1 ==> div_up(felts_of(air, o), 4) == leaf_of(air, o),
        o >= 2 && air.is_zk == 1 ==> leaf_of(air, o) == 2,
{
    air.lemma_bounds();
    air.lemma_terms();
    lemma_columns_stand(air);
}

/// The constraint that holds a felt of a row is one of the system.
#[verifier::spinoff_prover]
#[verifier::rlimit(40)]
proof fn lemma_hold_wire(air: MonolithAir, g: Seq<u64>, wins: spec_fn(int) -> Window, o: int, c: int, r: int)
    requires
        inline_alone(air),
        instance_satisfied(air, g, wins),
        first_of(air) <= o < 2 + air.s_cm_rounds(),
        o == 0 ==> !air.narrow_ov,
        0 <= c < felts_of(air, o),
        0 <= r < air.s_inst_h(),
    ensures
        value(hold_wire(air, carrier_of(air, o) + c), wins(r)) == 0,
{
    let win = wins(r);
    lemma_openings_at(air, g, wins, r);
    lemma_openings_parts(air, win);
    lemma_carrier_fits(air, o);
    if o < 0 {
        if air.is_zk == 1 {
            lemma_vanish_flat(air.s_random_leaf_felts(), air.f_random_row(), win);
            assert(vanish(air.f_random_row()(c), win));
            assert(air.s_random_row(c)[0] == hold_wire(air, air.s_ov_random(c)));
            assert(air.s_ov_random(0) + c == air.s_ov_random(c));
            assert(value(air.s_random_row(c)[0], win) == 0);
        } else {
            lemma_vanish_flat(air.s_aux_base_w(), air.f_aux_row(), win);
            assert(vanish(air.f_aux_row()(c), win));
            assert(air.s_aux_row(c)[0] == hold_wire(air, air.s_ov_aux(c)));
            assert(air.s_ov_aux(0) + c == air.s_ov_aux(c));
            assert(value(air.s_aux_row(c)[0], win) == 0);
        }
    } else if o == 0 {
        lemma_vanish_flat(air.s_input_leaf_felts(), air.f_opened_row(), win);
        assert(vanish(air.f_opened_row()(c), win));
        assert(air.s_opened_row(c)[0] == hold_wire(air, air.s_ov() + c));
        assert(value(air.s_opened_row(c)[0], win) == 0);
    } else if o == 1 {
        lemma_vanish_flat(air.s_quot_leaf_felts(), air.f_quot_row(), win);
        assert(vanish(air.f_quot_row()(c), win));
        assert(air.s_quot_row(c)[0] == hold_wire(air, air.s_qc(c)));
        assert(air.s_qc(0) + c == air.s_qc(c));
        assert(value(air.s_quot_row(c)[0], win) == 0);
    } else {
        let s = air.s_group(o - 2);
        lemma_vanish_flat(air.s_cm_rounds(), air.f_group(), win);
        assert(vanish(air.f_group()(o - 2), win));
        assert(c == 0 || c == 1 || c == 2 || c == 3);
        assert(air.s_cg(o - 2, 0) + c == air.s_cg(o - 2, c));
        assert(s[4 + c] == hold_wire(air, air.s_cg(o - 2, c)));
        assert(value(s[4 + c], win) == 0);
    }
}

/// In a satisfied trace the rows of the openings are carried over the whole super-tile.
#[verifier::rlimit(30)]
proof fn lemma_row_held(air: MonolithAir, g: Seq<u64>, wins: spec_fn(int) -> Window, t: int, o: int, c: int, r: int)
    requires
        inline_alone(air),
        instance_satisfied(air, g, wins),
        0 <= t < air.n_queries,
        first_of(air) <= o < 2 + air.s_cm_rounds(),
        o == 0 ==> !air.narrow_ov,
        0 <= c < felts_of(air, o),
        0 <= r < air.s_m_period(),
    ensures
        f_red(row_at(g, air.s_fold_w(), air.s_tile(t) + r)[carrier_of(air, o) + c] as int) == held_felts(air, g, t, o)[c],
    decreases r,
{
    if r > 0 {
        let at = air.s_tile(t) + (r - 1);
        let win = wins(at);
        let p = carrier_of(air, o) + c;
        lemma_row_held(air, g, wins, t, o, c, r - 1);
        air.lemma_bounds();
        lemma_carrier_fits(air, o);
        lemma_columns_stand(air);
        air.lemma_tile_fits(t);
        lemma_shows(air, g, wins, at);
        lemma_more_selectors(air, win, t, r - 1);
        lemma_hold_wire(air, g, wins, o, c, at);
        let (query, last) = (w_per(air.s_s_query()), w_per(air.s_p_st_last()));
        let off = w_minus(w_const(1), last);
        let hold = w_times(query, off);
        lemma_leaf_values(air.s_s_query(), win);
        lemma_leaf_values(air.s_p_st_last(), win);
        lemma_const_value(1, win);
        lemma_op_values(w_const(1), last, win);
        lemma_op_values(query, off, win);
        lemma_gates(1);
        lemma_transition_value(w_times(hold, w_minus(w_nxt(p), w_cur(p))), win);
        lemma_leaf_values(p, win);
        lemma_gated_equation(hold, w_nxt(p), w_cur(p), win);
        assert(at + 1 == air.s_tile(t) + r);
    } else {
        assert(air.s_tile(t) + r == air.s_tile(t));
    }
}

/// The constraints of a leaf on its rows in a satisfied trace.
#[verifier::spinoff_prover]
#[verifier::rlimit(60)]
proof fn lemma_leaf_row(air: MonolithAir, g: Seq<u64>, wins: spec_fn(int) -> Window, t: int, o: int, r: int)
    requires
        inline_alone(air),
        instance_satisfied(air, g, wins),
        0 <= t < air.n_queries,
        first_of(air) <= o < 2 + air.s_cm_rounds(),
        o == 0 ==> !air.narrow_ov,
        0 <= r < 32 * leaf_of(air, o),
    ensures
        ({
            let at = air.s_tile(t) + (32 * head_of(air, o) + r);
            &&& r < 32 || !(air.is_zk == 1 && o >= 2) ==> leaf_shown(carrier_of(air, o), felts_of(air, o), wins(at), r)
            &&& air.is_zk == 1 && o >= 2 && r == 31 ==> forall|i: int|
                4 <= i < 8 ==> #[trigger] lanes_at(wins(at).nxt, 0)[i] == lanes_at(wins(at).cur, 0)[i]
            &&& wins(at).cur == row_at(g, air.s_fold_w(), at)
            &&& r + 1 < 32 * leaf_of(air, o) ==> wins(at).nxt == row_at(g, air.s_fold_w(), at + 1)
            &&& 32 * head_of(air, o) + r < air.s_m_period()
        }),
{
    let k = 32 * head_of(air, o) + r;
    let at = air.s_tile(t) + k;
    let win = wins(at);
    let carrier = carrier_of(air, o);
    air.lemma_bounds();
    air.lemma_terms();
    air.lemma_period_covers_rounds();
    lemma_openings_chain(air, o);
    lemma_carrier_fits(air, o);
    lemma_columns_stand(air);
    air.lemma_tile_fits(t);
    assert(k < air.s_m_period());
    lemma_shows(air, g, wins, at);
    lemma_openings_at(air, g, wins, at);
    lemma_openings_parts(air, win);
    if o < 0 {
        lemma_openings_chain(air, 0);
        lemma_front_columns(air, at, 0);
        lemma_front_selected(air, win, t, r);
        lemma_front_part(air, win);
        lemma_leaf_shown(front_base(air), front_base(air) + 2, carrier, front_felts(air), win, r);
    } else if o == 0 {
        air.law_trace_leaf_selected(win, t, r);
        lemma_openings_chain(air, o + 1);
        lemma_leaf_shown(air.s_m_leaf(), air.s_leaf_absorb_base(), carrier, air.s_input_leaf_felts(), win, r);
    } else if o == 1 {
        air.law_quotient_leaf_selected(win, t, r);
        lemma_openings_chain(air, o + 1);
        lemma_leaf_shown(air.s_q_leaf(), air.s_quot_absorb_base(), carrier, air.s_quot_leaf_felts(), win, r);
    } else {
        air.law_tile_selectors(win, t, k, o - 2);
        lemma_vanish_flat(air.s_cm_rounds(), air.f_commit_leaf(), win);
        assert(vanish(air.f_commit_leaf()(o - 2), win));
        if r < 32 {
            lemma_commit_shown(air, o - 2, win, r);
        }
        if air.is_zk == 1 && r == 31 {
            lemma_front_selectors(air, win, t, k);
            assert(k / 32 == air.s_cm_leaf(o - 2));
            lemma_salt_carries(air, win);
        }
    }
}

/// The leaf in front is one of the constraints.
proof fn lemma_front_part(air: MonolithAir, win: Window)
    requires
        air.wf(),
        first_of(air) < 0,
        vanish(air.s_random_opening(), win),
        vanish(air.s_aux_opening(), win),
    ensures
        vanish(leaf_wires(front_base(air), front_base(air) + 2, front_carrier(air), front_felts(air), true), win),
{
    let leaf = leaf_wires(front_base(air), front_base(air) + 2, front_carrier(air), front_felts(air), true);
    if air.is_zk == 1 {
        assert(air.s_random_opening() == leaf + air.s_random_term());
        lemma_vanish_parts(leaf, air.s_random_term(), win);
    } else {
        assert(air.s_aux_opening() == leaf + air.s_aux_term());
        lemma_vanish_parts(leaf, air.s_aux_term(), win);
    }
}

/// The second block of a salted leaf takes over the capacity of the first.
#[verifier::rlimit(30)]
proof fn lemma_salt_carries(air: MonolithAir, win: Window)
    requires
        air.wf(),
        air.is_zk == 1,
        win.is_transition == 1,
        win.periodic[air.s_c_bnd()] == 1,
        vanish(air.s_salted_leaves(), win),
    ensures
        forall|i: int| 4 <= i < 8 ==> #[trigger] lanes_at(win.nxt, 0)[i] == lanes_at(win.cur, 0)[i],
{
    let on = w_per(air.s_c_bnd());
    let cs = air.s_commit_carry();
    lemma_columns_stand(air);
    air.lemma_bounds();
    lemma_leaf_values(air.s_c_bnd(), win);
    assert forall|i: int| 4 <= i < 8 implies #[trigger] lanes_at(win.nxt, 0)[i] == lanes_at(win.cur, 0)[i] by {
        let e = w_times(on, w_minus(w_nxt(i), w_cur(i)));
        assert(i == 4 || i == 5 || i == 6 || i == 7);
        assert(cs[i - 4] == w_on_transition(e));
        assert(value(cs[i - 4], win) == 0);
        lemma_leaf_values(i, win);
        lemma_transition_value(e, win);
        lemma_gated_equation(on, w_nxt(i), w_cur(i), win);
    }
}

/// The felts of a commit leaf.
#[verifier::spinoff_prover]
#[verifier::rlimit(30)]
proof fn lemma_commit_shown(air: MonolithAir, k: int, win: Window, r: int)
    requires
        air.wf(),
        0 <= k < air.s_cm_rounds(),
        0 <= r < 32,
        0 <= air.s_c_leaf(k) <= usize::MAX,
        r == 0 ==> win.periodic[air.s_c_leaf(k)] == 1,
        vanish(air.s_commit_leaf(k), win),
    ensures
        leaf_shown(air.s_cg(k, 0), 4, win, r),
{
    let on = w_per(air.s_c_leaf(k));
    let cs = air.s_commit_leaf(k);
    let cur = lanes_at(win.cur, 0);
    lemma_carrier_fits(air, k + 2);
    if r == 0 {
        lemma_leaf_values(air.s_c_leaf(k), win);
        assert forall|i: int| 0 <= i < 8 implies #[trigger] cur[i] == (if i < 4 {
            f_red(win.cur[air.s_cg(k, 0) + i] as int)
        } else {
            0
        }) by {
            lemma_leaf_values(i, win);
            assert(value(cs[i], win) == 0);
            if i < 4 {
                assert(i == 0 || i == 1 || i == 2 || i == 3);
                assert(cs[i] == w_times(on, w_minus(w_cur(i), w_cur(air.s_cg(k, i)))));
                assert(air.s_cg(k, 0) + i == air.s_cg(k, i));
                lemma_leaf_values(air.s_cg(k, i), win);
                lemma_gated_equation(on, w_cur(i), w_cur(air.s_cg(k, i)), win);
            } else {
                assert(i == 4 || i == 5 || i == 6 || i == 7);
                assert(cs[i] == w_times(on, w_cur(i)));
                lemma_op_values(on, w_cur(i), win);
                crate::expr::lemma_value_canonical(w_cur(i), win);
                lemma_gates(value(w_cur(i), win));
            }
        }
    }
}

/// A lane that a block of a leaf does not fill is one of the capacity, or one behind the last felt.
proof fn lemma_short_block(felts: int, b: int, i: int)
    requires
        1 <= b < div_up(felts, 4),
        0 <= i < 8,
        i >= 4 || 4 * b + i >= felts,
    ensures
        (32 * b - 1) % 32 == 31,
        32 * b - 1 < 32 * (div_up(felts, 4) - 1),
        i < 4 ==> b == div_up(felts, 4) - 1 && 32 * b - 1 == 32 * (div_up(felts, 4) - 2) + 31 && felts % 4 != 0
            && felts % 4 <= i,
{
}

/// A lane that a felt enters.
proof fn lemma_lane_bound(carrier: int, felts: int, win: Window, b: int, i: int)
    requires
        leaf_shown(carrier, felts, win, 32 * b),
        0 <= b < div_up(felts, 4),
        0 <= i < 4,
        4 * b + i < felts,
    ensures
        lanes_at(win.cur, 0)[i] == f_red(win.cur[carrier + (4 * b + i)] as int),
{
    if b == 0 {
        assert(carrier + (4 * b + i) == carrier + i);
        assert(lanes_at(win.cur, 0)[i] == f_red(win.cur[carrier + i] as int));
    }
}

/// An empty lane of the first block.
proof fn lemma_lane_empty(carrier: int, felts: int, win: Window, i: int)
    requires
        leaf_shown(carrier, felts, win, 0),
        0 <= i < 8,
        i >= 4 || i >= felts,
    ensures
        lanes_at(win.cur, 0)[i] == 0,
{
}

/// A lane that a later block takes over.
proof fn lemma_lane_kept(carrier: int, felts: int, win: Window, b: int, i: int)
    requires
        leaf_shown(carrier, felts, win, 32 * b - 1),
        1 <= b < div_up(felts, 4),
        0 <= i < 8,
        i >= 4 || 4 * b + i >= felts,
    ensures
        lanes_at(win.nxt, 0)[i] == lanes_at(win.cur, 0)[i],
{
    lemma_short_block(felts, b, i);
}

/// The block that enters a leaf is what the sponge has absorbed.
#[verifier::spinoff_prover]
#[verifier::rlimit(60)]
proof fn lemma_leaf_input(air: MonolithAir, g: Seq<u64>, wins: spec_fn(int) -> Window, t: int, o: int, b: int)
    requires
        inline_alone(air),
        instance_satisfied(air, g, wins),
        0 <= t < air.n_queries,
        first_of(air) <= o < 2 + air.s_cm_rounds(),
        o == 0 ==> !air.narrow_ov,
        0 <= b < leaf_of(air, o),
        b > 0 ==> lanes_at(row_at(g, air.s_fold_w(), air.s_tile(t) + 32 * (head_of(air, o) + b - 1) + 31), 0) == sponge(
            held_row(air, g, t, o),
            b as nat,
        ),
    ensures
        lanes_at(row_at(g, air.s_fold_w(), air.s_tile(t) + 32 * (head_of(air, o) + b)), 0) == absorbed(
            sponge(held_row(air, g, t, o), b as nat),
            held_row(air, g, t, o),
            4 * b,
        ),
{
    let w = air.s_fold_w();
    let (pre, felts, carrier) = (held_row(air, g, t, o), felts_of(air, o), carrier_of(air, o));
    let salted = air.is_zk == 1 && o >= 2;
    let k = 32 * head_of(air, o) + 32 * b;
    let at = air.s_tile(t) + k;
    let lanes = lanes_at(row_at(g, w, at), 0);
    let was = sponge(pre, b as nat);
    lemma_carrier_fits(air, o);
    lemma_openings_chain(air, o);
    lemma_leaf_row(air, g, wins, t, o, 32 * b);
    assert(at == air.s_tile(t) + (32 * head_of(air, o) + 32 * b));
    assert(at == air.s_tile(t) + 32 * (head_of(air, o) + b));
    if b > 0 {
        lemma_leaf_row(air, g, wins, t, o, 32 * b - 1);
        assert(at - 1 == air.s_tile(t) + (32 * head_of(air, o) + (32 * b - 1)));
        assert(at - 1 == air.s_tile(t) + 32 * (head_of(air, o) + b - 1) + 31);
    }
    assert forall|i: int| 0 <= i < 8 implies lanes[i] == #[trigger] absorbed(was, pre, 4 * b)[i] by {
        if salted && b == 1 {
            if i < 4 {
                assert(pre[4 + i] == digest_at(row_at(g, w, at), 0)[i]);
            } else {
                assert(lanes_at(wins(at - 1).nxt, 0)[i] == lanes_at(wins(at - 1).cur, 0)[i]);
            }
        } else if i < 4 && 4 * b + i < felts {
            lemma_row_held(air, g, wins, t, o, 4 * b + i, k);
            lemma_lane_bound(carrier, felts, wins(at), b, i);
            assert(pre[4 * b + i] == held_felts(air, g, t, o)[4 * b + i]);
        } else if b == 0 {
            lemma_lane_empty(carrier, felts, wins(at), i);
        } else {
            lemma_lane_kept(carrier, felts, wins(at - 1), b, i);
        }
    }
    assert(lanes =~= absorbed(was, pre, 4 * b));
}

/// The blocks of a leaf run the sponge over the row that is carried.
proof fn lemma_leaf_runs(air: MonolithAir, g: Seq<u64>, wins: spec_fn(int) -> Window, t: int, o: int, b: int)
    requires
        inline_alone(air),
        instance_satisfied(air, g, wins),
        0 <= t < air.n_queries,
        first_of(air) <= o < 2 + air.s_cm_rounds(),
        o == 0 ==> !air.narrow_ov,
        0 <= b < leaf_of(air, o),
    ensures
        lanes_at(row_at(g, air.s_fold_w(), air.s_tile(t) + 32 * (head_of(air, o) + b) + 31), 0) == sponge(
            held_row(air, g, t, o),
            (b + 1) as nat,
        ),
    decreases b,
{
    let w = air.s_fold_w();
    if b > 0 {
        lemma_leaf_runs(air, g, wins, t, o, b - 1);
        assert(head_of(air, o) + (b - 1) == head_of(air, o) + b - 1);
    }
    let at = air.s_tile(t) + 32 * (head_of(air, o) + b);
    lemma_leaf_input(air, g, wins, t, o, b);
    lemma_openings_chain(air, o);
    lemma_tile_rows(air, g, wins, t, head_of(air, o) + b, 31);
    lemma_runs_end(lanes_at(row_at(g, w, at), 0), lanes_at(row_at(g, w, at + 31), 0));
    assert(((b + 1) as nat - 1) as nat == b as nat);
}

/// In a satisfied trace the digest behind the leaf of an opening is the hash of the row that the super-tile carries.
pub proof fn law_satisfied_leaf(air: MonolithAir, g: Seq<u64>, wins: spec_fn(int) -> Window, t: int, o: int)
    requires
        inline_alone(air),
        instance_satisfied(air, g, wins),
        0 <= t < air.n_queries,
        first_of(air) <= o < 2 + air.s_cm_rounds(),
        o == 0 ==> !air.narrow_ov,
    ensures
        digest_after(air, g, t, head_of(air, o) + leaf_of(air, o) - 1) == leaf_hash(held_row(air, g, t, o)),
{
    let n = leaf_of(air, o);
    let b = head_of(air, o) + n - 1;
    let end = row_at(g, air.s_fold_w(), air.s_tile(t) + 32 * b + 31);
    lemma_openings_chain(air, o);
    lemma_carrier_fits(air, o);
    lemma_leaf_runs(air, g, wins, t, o, n - 1);
    assert(head_of(air, o) + (n - 1) == b);
    assert(digest_at(end, 0) =~= lanes_at(end, 0).subrange(0, 4));
}

/// In a satisfied trace the row that is carried for the trace is the one that the terms of the head row read, at the
/// point and at the next point.
#[verifier::spinoff_prover]
#[verifier::rlimit(40)]
pub proof fn law_satisfied_trace_row(air: MonolithAir, g: Seq<u64>, wins: spec_fn(int) -> Window, t: int, c: int)
    requires
        inline_alone(air),
        instance_satisfied(air, g, wins),
        !air.narrow_ov,
        0 <= t < air.n_queries,
        0 <= c < air.s_trm_committed_w(),
    ensures
        ({
            let head = row_at(g, air.s_fold_w(), air.s_tile(t));
            &&& held_row(air, g, t, 0).len() == air.s_input_leaf_felts()
            &&& held_row(air, g, t, 0)[c] == f_red(head[air.s_px(air.s_trm_trace(c))] as int)
            &&& held_row(air, g, t, 0)[c] == f_red(head[air.s_px(air.s_trm_next(c))] as int)
        }),
{
    let row = air.s_tile(t);
    let win = wins(row);
    let (p, a, b) = (air.s_ov_c(c), air.s_px(air.s_trm_trace(c)), air.s_px(air.s_trm_next(c)));
    let tf = w_per(air.s_m_tf());
    air.lemma_bounds();
    air.lemma_terms();
    lemma_carrier_fits(air, 0);
    lemma_columns_stand(air);
    air.lemma_tile_fits(t);
    lemma_shows(air, g, wins, row);
    assert(row + 0 == row);
    lemma_more_selectors(air, win, t, 0);
    lemma_openings_at(air, g, wins, row);
    lemma_openings_parts(air, win);
    lemma_vanish_flat(air.s_input_leaf_felts(), air.f_opened_row(), win);
    assert(vanish(air.f_opened_row()(c), win));
    let cs = air.s_opened_row(c);
    assert(cs[1] == w_times(tf, w_minus(w_cur(p), w_cur(a))));
    assert(cs[2] == w_times(tf, w_minus(w_cur(p), w_cur(b))));
    assert(value(cs[1], win) == 0 && value(cs[2], win) == 0);
    lemma_leaf_values(air.s_m_tf(), win);
    lemma_leaf_values(p, win);
    lemma_leaf_values(a, win);
    lemma_leaf_values(b, win);
    lemma_gated_equation(tf, w_cur(p), w_cur(a), win);
    lemma_gated_equation(tf, w_cur(p), w_cur(b), win);
}

/// In a satisfied trace the row that is carried for the quotient is the one that the terms of the head row read.
#[verifier::spinoff_prover]
#[verifier::rlimit(40)]
pub proof fn law_satisfied_quotient_row(air: MonolithAir, g: Seq<u64>, wins: spec_fn(int) -> Window, t: int, c: int)
    requires
        inline_alone(air),
        instance_satisfied(air, g, wins),
        0 <= t < air.n_queries,
        0 <= c < air.s_quot_leaf_felts(),
        air.s_chunk_component(c) < air.s_trm_chunk_w(),
    ensures
        ({
            let head = row_at(g, air.s_fold_w(), air.s_tile(t));
            let k = air.s_trm_quot(air.s_chunk_of(c), air.s_chunk_component(c));
            &&& held_row(air, g, t, 1).len() == air.s_quot_leaf_felts()
            &&& held_row(air, g, t, 1)[c] == f_red(head[air.s_px(k)] as int)
        }),
{
    let row = air.s_tile(t);
    let win = wins(row);
    let (p, a) = (air.s_qc(c), air.s_px(air.s_trm_quot(air.s_chunk_of(c), air.s_chunk_component(c))));
    let tf = w_per(air.s_m_tf());
    air.lemma_bounds();
    air.lemma_terms();
    air.lemma_chunks(c);
    lemma_carrier_fits(air, 1);
    lemma_columns_stand(air);
    air.lemma_tile_fits(t);
    lemma_shows(air, g, wins, row);
    assert(row + 0 == row);
    lemma_more_selectors(air, win, t, 0);
    lemma_openings_at(air, g, wins, row);
    lemma_openings_parts(air, win);
    lemma_vanish_flat(air.s_quot_leaf_felts(), air.f_quot_row(), win);
    assert(vanish(air.f_quot_row()(c), win));
    let cs = air.s_quot_row(c);
    assert(cs[1] == w_times(tf, w_minus(w_cur(p), w_cur(a))));
    assert(value(cs[1], win) == 0);
    lemma_leaf_values(air.s_m_tf(), win);
    lemma_leaf_values(p, win);
    lemma_leaf_values(a, win);
    lemma_gated_equation(tf, w_cur(p), w_cur(a), win);
    assert(air.s_qc(0) + c == p);
}

/// In a satisfied trace that hides, the row that is carried for the random round is the one that the terms of the head
/// row read.
#[verifier::spinoff_prover]
#[verifier::rlimit(40)]
pub proof fn law_satisfied_random_row(air: MonolithAir, g: Seq<u64>, wins: spec_fn(int) -> Window, t: int, c: int)
    requires
        inline_alone(air),
        instance_satisfied(air, g, wins),
        air.is_zk == 1,
        0 <= t < air.n_queries,
        0 <= c < air.s_random_committed_w(),
    ensures
        held_row(air, g, t, -1)[c] == f_red(row_at(g, air.s_fold_w(), air.s_tile(t))[air.s_px(c)] as int),
{
    let row = air.s_tile(t);
    let win = wins(row);
    let (p, a) = (air.s_ov_random(c), air.s_px(c));
    let tf = w_per(air.s_m_tf());
    lemma_head_row(air, g, wins, t);
    lemma_carrier_fits(air, -1);
    air.lemma_bounds();
    air.lemma_terms();
    lemma_vanish_flat(air.s_random_leaf_felts(), air.f_random_row(), win);
    assert(vanish(air.f_random_row()(c), win));
    let cs = air.s_random_row(c);
    assert(cs[1] == w_times(tf, w_minus(w_cur(p), w_cur(a))));
    assert(value(cs[1], win) == 0);
    lemma_leaf_values(p, win);
    lemma_leaf_values(a, win);
    lemma_gated_equation(tf, w_cur(p), w_cur(a), win);
    assert(air.s_ov_random(0) + c == p);
}

/// In a satisfied trace with a lookup argument, the row that is carried for the aux round is the one that the terms of
/// the head row read, at the point and at the next point.
#[verifier::spinoff_prover]
#[verifier::rlimit(40)]
pub proof fn law_satisfied_aux_row(air: MonolithAir, g: Seq<u64>, wins: spec_fn(int) -> Window, t: int, c: int)
    requires
        inline_alone(air),
        instance_satisfied(air, g, wins),
        air.s_is_lookup(),
        0 <= t < air.n_queries,
        0 <= c < air.s_aux_base_w(),
    ensures
        ({
            let head = row_at(g, air.s_fold_w(), air.s_tile(t));
            &&& held_row(air, g, t, -1)[c] == f_red(head[air.s_px(air.s_trm_aux(c))] as int)
            &&& held_row(air, g, t, -1)[c] == f_red(head[air.s_px(air.s_trm_aux_next(c))] as int)
        }),
{
    let row = air.s_tile(t);
    let win = wins(row);
    let (p, a, b) = (air.s_ov_aux(c), air.s_px(air.s_trm_aux(c)), air.s_px(air.s_trm_aux_next(c)));
    let tf = w_per(air.s_m_tf());
    lemma_head_row(air, g, wins, t);
    lemma_carrier_fits(air, -1);
    air.lemma_bounds();
    air.lemma_terms();
    lemma_vanish_flat(air.s_aux_base_w(), air.f_aux_row(), win);
    assert(vanish(air.f_aux_row()(c), win));
    let cs = air.s_aux_row(c);
    assert(cs[1] == w_times(tf, w_minus(w_cur(p), w_cur(a))));
    assert(cs[2] == w_times(tf, w_minus(w_cur(p), w_cur(b))));
    assert(value(cs[1], win) == 0 && value(cs[2], win) == 0);
    lemma_leaf_values(p, win);
    lemma_leaf_values(a, win);
    lemma_leaf_values(b, win);
    lemma_gated_equation(tf, w_cur(p), w_cur(a), win);
    lemma_gated_equation(tf, w_cur(p), w_cur(b), win);
    assert(air.s_ov_aux(0) + c == p);
}

/// The head row of a super-tile, with its mark set and the rows in front fed.
#[verifier::spinoff_prover]
#[verifier::rlimit(40)]
proof fn lemma_head_row(air: MonolithAir, g: Seq<u64>, wins: spec_fn(int) -> Window, t: int)
    requires
        inline_alone(air),
        instance_satisfied(air, g, wins),
        0 <= t < air.n_queries,
    ensures
        ({
            let win = wins(air.s_tile(t));
            &&& win.cur == row_at(g, air.s_fold_w(), air.s_tile(t))
            &&& value(w_per(air.s_m_tf()), win) == 1
            &&& vanish(air.all_random_row(), win)
            &&& vanish(air.all_aux_row(), win)
        }),
{
    let row = air.s_tile(t);
    let win = wins(row);
    air.lemma_bounds();
    lemma_columns_stand(air);
    air.lemma_tile_fits(t);
    lemma_shows(air, g, wins, row);
    assert(row + 0 == row);
    lemma_more_selectors(air, win, t, 0);
    lemma_openings_at(air, g, wins, row);
    lemma_openings_parts(air, win);
    lemma_leaf_values(air.s_m_tf(), win);
}

/// Two felts of the row that is carried for a fold round.
#[verifier::spinoff_prover]
#[verifier::rlimit(60)]
proof fn lemma_group_held(air: MonolithAir, g: Seq<u64>, wins: spec_fn(int) -> Window, t: int, r: int, i: int)
    requires
        inline_alone(air),
        instance_satisfied(air, g, wins),
        0 <= t < air.n_queries,
        0 <= r < air.s_cm_rounds(),
        0 <= i < 2,
    ensures
        ({
            let row = row_at(g, air.s_fold_w(), air.s_tile(t) + r);
            let (e, s) = (f_red(row[QT_E + i] as int), f_red(row[QT_S + i] as int));
            let set = f_red(row[QT_BIT as int] as int) == 1;
            &&& held_felts(air, g, t, r + 2)[i] == (if set {
                s
            } else {
                e
            })
            &&& held_felts(air, g, t, r + 2)[2 + i] == (if set {
                e
            } else {
                s
            })
        }),
{
    let at = air.s_tile(t) + r;
    let win = wins(at);
    lemma_group_row(air, g, wins, t, r);
    lemma_group_felts(air, win, r, i);
    air.lemma_period_covers_rounds();
    lemma_row_held(air, g, wins, t, r + 2, i, r);
    lemma_row_held(air, g, wins, t, r + 2, 2 + i, r);
    assert(air.s_cg(r, 0) + i == air.s_cg(r, i));
    assert(air.s_cg(r, 0) + (2 + i) == air.s_cg(r, 2 + i));
}

/// The constraints of a fold group on its fold row.
#[verifier::spinoff_prover]
#[verifier::rlimit(40)]
proof fn lemma_group_row(air: MonolithAir, g: Seq<u64>, wins: spec_fn(int) -> Window, t: int, r: int)
    requires
        inline_alone(air),
        instance_satisfied(air, g, wins),
        0 <= t < air.n_queries,
        0 <= r < air.s_cm_rounds(),
    ensures
        ({
            let win = wins(air.s_tile(t) + r);
            &&& win.cur == row_at(g, air.s_fold_w(), air.s_tile(t) + r)
            &&& vanish(air.s_group(r), win)
            &&& win.periodic[air.s_p_round(r)] == 1
            &&& 0 <= air.s_p_round(r) <= usize::MAX
            &&& f_red(win.cur[QT_BIT as int] as int) == 0 || f_red(win.cur[QT_BIT as int] as int) == 1
        }),
{
    let at = air.s_tile(t) + r;
    let win = wins(at);
    air.lemma_bounds();
    air.lemma_terms();
    air.lemma_period_covers_rounds();
    lemma_columns_stand(air);
    air.lemma_tile_fits(t);
    lemma_shows(air, g, wins, at);
    lemma_more_selectors(air, win, t, r);
    lemma_openings_at(air, g, wins, at);
    lemma_openings_parts(air, win);
    lemma_vanish_flat(air.s_cm_rounds(), air.f_group(), win);
    assert(vanish(air.f_group()(r), win));
    law_satisfied_folds(air, g, wins, t, r);
    assert(win.periodic[air.s_p_round(r)] == 1);
}

/// In a satisfied trace the felts that are carried for a fold round are its running value and its sibling, in the order that
/// the bit of the fold row names.
#[verifier::spinoff_prover]
#[verifier::rlimit(40)]
pub proof fn law_satisfied_fold_group(air: MonolithAir, g: Seq<u64>, wins: spec_fn(int) -> Window, t: int, r: int)
    requires
        inline_alone(air),
        instance_satisfied(air, g, wins),
        0 <= t < air.n_queries,
        0 <= r < air.s_cm_rounds(),
    ensures
        ({
            let row = row_at(g, air.s_fold_w(), air.s_tile(t) + r);
            let (e, s) = (coords(pair_at(row, QT_E as int)), coords(pair_at(row, QT_S as int)));
            held_felts(air, g, t, r + 2) == (if f_red(row[QT_BIT as int] as int) == 1 {
                s + e
            } else {
                e + s
            })
        }),
{
    let row = row_at(g, air.s_fold_w(), air.s_tile(t) + r);
    let held = held_felts(air, g, t, r + 2);
    let set = f_red(row[QT_BIT as int] as int) == 1;
    assert forall|i: int| #![trigger held[i]] 0 <= i < 2 implies held[i] == (if set {
        f_red(row[QT_S + i] as int)
    } else {
        f_red(row[QT_E + i] as int)
    }) && held[2 + i] == (if set {
        f_red(row[QT_E + i] as int)
    } else {
        f_red(row[QT_S + i] as int)
    }) by {
        lemma_group_held(air, g, wins, t, r, i);
    }
    lemma_two_pairs(held, row, set);
}

/// Four felts as two pairs.
proof fn lemma_two_pairs(held: Seq<u64>, row: Seq<u64>, set: bool)
    requires
        held.len() == 4,
        forall|i: int| #![trigger held[i]]
            0 <= i < 2 ==> held[i] == (if set {
                f_red(row[QT_S + i] as int)
            } else {
                f_red(row[QT_E + i] as int)
            }) && held[2 + i] == (if set {
                f_red(row[QT_E + i] as int)
            } else {
                f_red(row[QT_S + i] as int)
            }),
    ensures
        ({
            let (e, s) = (coords(pair_at(row, QT_E as int)), coords(pair_at(row, QT_S as int)));
            held == (if set {
                s + e
            } else {
                e + s
            })
        }),
{
    let (e, s) = (coords(pair_at(row, QT_E as int)), coords(pair_at(row, QT_S as int)));
    let (first, second) = (held[0], held[1]);
    assert(QT_E + 0 == QT_E && QT_S + 0 == QT_S);
    assert(held[2int + 0] == held[2] && held[2int + 1] == held[3]);
    if set {
        assert(held =~= s + e);
    } else {
        assert(held =~= e + s);
    }
}

/// Two felts of a fold group on its fold row.
#[verifier::spinoff_prover]
#[verifier::rlimit(30)]
proof fn lemma_group_felts(air: MonolithAir, win: Window, r: int, i: int)
    requires
        air.wf(),
        0 <= r < air.s_cm_rounds(),
        0 <= i < 2,
        0 <= air.s_p_round(r) <= usize::MAX,
        win.periodic[air.s_p_round(r)] == 1,
        vanish(air.s_group(r), win),
        f_red(win.cur[QT_BIT as int] as int) == 0 || f_red(win.cur[QT_BIT as int] as int) == 1,
    ensures
        ({
            let set = f_red(win.cur[QT_BIT as int] as int) == 1;
            let (e, s) = (f_red(win.cur[QT_E + i] as int), f_red(win.cur[QT_S + i] as int));
            &&& f_red(win.cur[air.s_cg(r, i)] as int) == (if set {
                s
            } else {
                e
            })
            &&& f_red(win.cur[air.s_cg(r, 2 + i)] as int) == (if set {
                e
            } else {
                s
            })
        }),
{
    let on = w_per(air.s_p_round(r));
    let bit = w_cur(QT_BIT as int);
    let nbit = w_minus(w_const(1), bit);
    let (e, s) = (w_cur(QT_E + i), w_cur(QT_S + i));
    let (lo, hi) = (w_plus(w_times(nbit, e), w_times(bit, s)), w_plus(w_times(nbit, s), w_times(bit, e)));
    let cs = air.s_group(r);
    lemma_carrier_fits(air, r + 2);
    assert(i == 0 || i == 1);
    assert(cs[i] == w_times(on, w_minus(w_cur(air.s_cg(r, i)), lo)));
    assert(cs[2 + i] == w_times(on, w_minus(w_cur(air.s_cg(r, 2 + i)), hi)));
    assert(value(cs[i], win) == 0 && value(cs[2 + i], win) == 0);
    lemma_leaf_values(air.s_p_round(r), win);
    lemma_leaf_values(QT_BIT as int, win);
    lemma_leaf_values(QT_E + i, win);
    lemma_leaf_values(QT_S + i, win);
    lemma_leaf_values(air.s_cg(r, i), win);
    lemma_leaf_values(air.s_cg(r, 2 + i), win);
    lemma_chosen(bit, e, s, win);
    lemma_chosen(bit, s, e, win);
    lemma_gated_equation(on, w_cur(air.s_cg(r, i)), lo, win);
    lemma_gated_equation(on, w_cur(air.s_cg(r, 2 + i)), hi, win);
}

/// In a satisfied trace with whole caps every opening stands: the hash of the row that is carried climbs, over the
/// siblings and sides that the rows hold, to the entry of the window that the query's felt names.
pub proof fn law_satisfied_opens(air: MonolithAir, g: Seq<u64>, wins: spec_fn(int) -> Window, t: int, o: int, k: int)
    requires
        inline_alone(air),
        instance_satisfied(air, g, wins),
        air.s_full_cap(),
        0 <= t < air.n_queries,
        first_of(air) <= o < 2 + air.s_cm_rounds(),
        o == 0 ==> !air.narrow_ov,
        0 <= k < 4,
    ensures
        ({
            let c = air.s_cap_opening(slot_of(air, o));
            let head = row_at(g, air.s_fold_w(), air.s_tile(t));
            let (sibs, sides) = (held_siblings(air, g, t, o), held_sides(air, g, t, o));
            climbed_by_bits(leaf_hash(held_row(air, g, t, o)), sibs, sides, sibs.len())[k] == shown_window(air, wins)[c.cbase
                + selected_entry(air, head, c) * 4 + k]
        }),
{
    let first = head_of(air, o) + leaf_of(air, o);
    let n = (end_of(air, o) + 1 - first) as nat;
    lemma_openings_chain(air, o);
    law_satisfied_leaf(air, g, wins, t, o);
    law_satisfied_climbs(air, g, wins, t, o, n);
    law_satisfied_reaches_cap(air, g, wins, t, o, k);
    assert(first - 1 + n == end_of(air, o));
}

} // verus!
