//! A super-tile of the built trace satisfies the constraints on its leaves, its terminals and its held columns.

use vstd::prelude::*;

use super::blocks::{openings_end, openings_hold};
use super::grid::cell;
use super::layout::MonolithAir;
use super::leaves::{law_built_leaf_absorbs, leaf_selected, mark};
use super::meaning::digest_at;
use super::paths::law_built_path_ends;
use super::reading::{row_at, tile_holds};
use super::region::region_holds;
use super::trace::QueryData;
use crate::bits::div_up;
use crate::expr::{value, w_const, w_cur, w_minus, w_nxt, w_per, w_times, Window};
use crate::field::{f_red, x_red, Ext};
use crate::fri::merkle::contents;
use crate::gadgets::traces::{lemma_switched, lemma_zero_product};
use crate::poseidon::leaf_hash;
use crate::vanish::{lemma_const_value, lemma_leaf_values, lemma_op_values, lemma_vanish_flat, pair_at, vanish};

verus! {

/// A super-tile as the builder leaves it.
pub open spec fn tile_built(air: MonolithAir, g: Seq<u64>, row: int, q: QueryData) -> bool {
    &&& air.query_fits(q)
    &&& air.carriers_fill(q)
    &&& tile_holds(air, g, row, q)
    &&& openings_hold(air, g, row, q)
    &&& openings_end(air, q)
}

/// A trace as the builder leaves it: the transcript region, a super-tile per query, and the batching challenge carried in
/// every row.
#[verifier::opaque]
pub open spec fn trace_built(
    air: MonolithAir,
    g: Seq<u64>,
    blocks: Seq<Seq<u64>>,
    qs: Seq<QueryData>,
    alpha: Ext,
) -> bool {
    &&& region_holds(air, g, blocks)
    &&& forall|q: int| 0 <= q < qs.len() ==> tile_built(air, g, air.s_tile(q), #[trigger] qs[q])
    &&& forall|r: int|
        0 <= r < air.s_inst_h() ==> pair_at(#[trigger] row_at(g, air.s_fold_w(), r), air.s_carry()) == x_red(alpha)
    &&& sides_are_bits(air, g, qs)
}

/// Off the heads of the super-tiles the column of the sides holds bits.
pub open spec fn sides_are_bits(air: MonolithAir, g: Seq<u64>, qs: Seq<QueryData>) -> bool {
    forall|r: int|
        0 <= r < air.s_inst_h() && (forall|k: int| 0 <= k < qs.len() ==> r != #[trigger] air.s_tile(k)) ==> #[trigger] cell(
            g,
            air.s_fold_w(),
            r,
            12,
        ) <= 1
}

/// A built trace starts with the transcript region, has the super-tile of each query in its place, carries the
/// batching challenge in every row, and holds bits as the sides.
pub proof fn law_built_trace(air: MonolithAir, g: Seq<u64>, blocks: Seq<Seq<u64>>, qs: Seq<QueryData>, alpha: Ext)
    requires
        trace_built(air, g, blocks, qs, alpha),
    ensures
        region_holds(air, g, blocks),
        forall|q: int| 0 <= q < qs.len() ==> tile_built(air, g, air.s_tile(q), #[trigger] qs[q]),
        forall|r: int|
            0 <= r < air.s_inst_h() ==> pair_at(#[trigger] row_at(g, air.s_fold_w(), r), air.s_carry()) == x_red(alpha),
        sides_are_bits(air, g, qs),
{
    reveal(trace_built);
}

/// The fold groups of `n` rounds have four felts each.
pub(super) proof fn lemma_groups_len(air: MonolithAir, q: QueryData, n: nat)
    requires
        air.query_fits(q),
        n <= air.s_cm_rounds(),
    ensures
        air.s_groups(q, n).len() == 4 * n,
    decreases n,
{
    if n > 0 {
        lemma_groups_len(air, q, (n - 1) as nat);
        assert(q.commits@[n - 1].group@.len() == 4);
    }
}

/// Where the parts of the carriers stand.
#[verifier::spinoff_prover]
#[verifier::rlimit(40)]
pub(super) proof fn lemma_carrier_parts(air: MonolithAir, q: QueryData)
    requires
        air.wf(),
        air.query_fits(q),
    ensures
        ({
            let cells = air.s_carrier_cells(q);
            let (ov, rand, aux) = (air.s_ov_carrier_w(), air.s_random_carriers(), air.s_aux_carriers());
            let quot = air.s_quot_leaf_felts();
            let groups = 4 * air.s_cm_rounds();
            &&& !air.narrow_ov ==> forall|c: int|
                0 <= c < ov ==> #[trigger] cells[c] == air.s_input_preimage(q)[c]
            &&& forall|c: int| 0 <= c < rand ==> #[trigger] cells[ov + c] == air.s_random_preimage(q)[c]
            &&& forall|c: int| 0 <= c < aux ==> #[trigger] cells[ov + rand + c] == air.s_aux_preimage(q)[c]
            &&& forall|c: int|
                0 <= c < quot ==> #[trigger] cells[ov + rand + aux + c] == air.s_quot_preimage(q, air.s_nqc() as nat)[c]
            &&& forall|i: int|
                0 <= i < groups ==> #[trigger] cells[ov + rand + aux + quot + i] == air.s_groups(
                    q,
                    air.s_cm_rounds() as nat,
                )[i]
            &&& air.s_full_cap() ==> forall|i: int|
                0 <= i < air.s_cap_cells(q).len() ==> #[trigger] cells[ov + rand + aux + quot + groups + i]
                    == air.s_cap_cells(q)[i]
        }),
{
    air.lemma_preimages(q, air.s_nqc() as nat);
    lemma_groups_len(air, q, air.s_cm_rounds() as nat);
    let a = if air.narrow_ov {
        Seq::empty()
    } else {
        air.s_input_preimage(q)
    };
    let (b, c) = (air.s_random_preimage(q), air.s_aux_preimage(q));
    let d = air.s_quot_preimage(q, air.s_nqc() as nat);
    let e = air.s_groups(q, air.s_cm_rounds() as nat);
    let f = if air.s_full_cap() {
        air.s_cap_cells(q)
    } else {
        Seq::empty()
    };
    let cells = a + b + c + d + e + f;
    assert(cells == air.s_carrier_cells(q));
    assert(a.len() == air.s_ov_carrier_w() && b.len() == air.s_random_carriers() && c.len() == air.s_aux_carriers());
    assert(d.len() == air.s_quot_leaf_felts() && e.len() == 4 * air.s_cm_rounds());
    assert forall|k: int| 0 <= k < b.len() implies #[trigger] cells[a.len() + k] == b[k] by {}
    assert forall|k: int| 0 <= k < c.len() implies #[trigger] cells[a.len() + b.len() + k] == c[k] by {}
    assert forall|k: int| 0 <= k < d.len() implies #[trigger] cells[a.len() + b.len() + c.len() + k] == d[k] by {}
    assert forall|k: int| 0 <= k < e.len() implies #[trigger] cells[a.len() + b.len() + c.len() + d.len() + k] == e[k] by {}
    assert forall|k: int| 0 <= k < f.len() implies #[trigger] cells[a.len() + b.len() + c.len() + d.len() + e.len() + k]
        == f[k] by {}
}

/// A carrier in a row of a super-tile.
pub(super) proof fn lemma_carried(air: MonolithAir, g: Seq<u64>, row: int, q: QueryData, r: int, i: int)
    requires
        air.wf(),
        tile_built(air, g, row, q),
        0 <= r < air.s_m_period(),
        0 <= i < air.s_carrier_cells(q).len(),
    ensures
        row_at(g, air.s_fold_w(), row + r)[air.s_ov() + i] == air.s_carrier_cells(q)[i],
        0 <= air.s_ov() + i < air.s_fold_w(),
        13 <= air.s_fold_w() <= usize::MAX,
{
    air.lemma_bounds();
    air.lemma_terms();
    assert(cell(g, air.s_fold_w(), row + r, air.s_ov() + i) == air.s_carrier_cells(q)[i]);
}

/// On every row of the trace leaf of a built super-tile the absorb constraints of the leaf vanish.
#[verifier::spinoff_prover]
#[verifier::rlimit(40)]
pub proof fn law_built_trace_leaf(air: MonolithAir, g: Seq<u64>, row: int, q: QueryData, r: int, win: Window)
    requires
        air.wf(),
        tile_built(air, g, row, q),
        0 <= r < 32 * air.s_leaf_blocks(),
        win.cur == row_at(g, air.s_fold_w(), row + 32 * air.s_m_input_leaf() + r),
        win.nxt == row_at(g, air.s_fold_w(), row + 32 * air.s_m_input_leaf() + r + 1),
        0 <= air.s_m_leaf() <= usize::MAX,
        0 <= air.s_leaf_absorb_base(),
        air.s_leaf_blocks() > 1 ==> air.s_leaf_absorb_base() + air.s_leaf_blocks() <= usize::MAX,
        leaf_selected(win, air.s_m_leaf(), air.s_leaf_absorb_base(), air.s_input_leaf_felts(), r),
    ensures
        vanish(air.s_trace_leaf(), win),
{
    let w = air.s_fold_w();
    let at = 32 * air.s_m_input_leaf();
    let pre = air.s_input_preimage(q);
    air.lemma_bounds();
    air.lemma_terms();
    air.lemma_openings_fit();
    air.lemma_preimages(q, air.s_nqc() as nat);
    lemma_carrier_parts(air, q);
    if !air.narrow_ov {
        assert forall|c: int| 0 <= c < pre.len() implies win.cur[#[trigger] (air.s_ov() + c)] == pre[c] by {
            lemma_carried(air, g, row, q, at + r, c);
            assert(air.s_carrier_cells(q)[c] == pre[c]);
            assert(row + (at + r) == row + at + r);
        }
    }
    law_built_leaf_absorbs(
        g,
        w,
        row + at,
        pre,
        contents(q.path.siblings@),
        q.path.bits@,
        air.s_m_leaf(),
        air.s_leaf_absorb_base(),
        air.s_ov(),
        !air.narrow_ov,
        r,
        win,
    );
}

/// On every row of the quotient leaf of a built super-tile the absorb constraints of the leaf vanish.
#[verifier::spinoff_prover]
#[verifier::rlimit(40)]
pub proof fn law_built_quotient_leaf(air: MonolithAir, g: Seq<u64>, row: int, q: QueryData, r: int, win: Window)
    requires
        air.wf(),
        tile_built(air, g, row, q),
        0 <= r < 32 * air.s_quot_leaf_blocks(),
        win.cur == row_at(g, air.s_fold_w(), row + 32 * air.s_m_quot_leaf() + r),
        win.nxt == row_at(g, air.s_fold_w(), row + 32 * air.s_m_quot_leaf() + r + 1),
        0 <= air.s_q_leaf() <= usize::MAX,
        0 <= air.s_quot_absorb_base(),
        air.s_quot_leaf_blocks() > 1 ==> air.s_quot_absorb_base() + air.s_quot_leaf_blocks() <= usize::MAX,
        leaf_selected(win, air.s_q_leaf(), air.s_quot_absorb_base(), air.s_quot_leaf_felts(), r),
    ensures
        vanish(air.s_quot_leaf(), win),
{
    let w = air.s_fold_w();
    let at = 32 * air.s_m_quot_leaf();
    let pre = air.s_quot_preimage(q, air.s_nqc() as nat);
    air.lemma_bounds();
    air.lemma_terms();
    air.lemma_openings_fit();
    air.lemma_preimages(q, air.s_nqc() as nat);
    lemma_carrier_parts(air, q);
    let base = air.s_ov_carrier_w() + air.s_random_carriers() + air.s_aux_carriers();
    assert forall|c: int| 0 <= c < pre.len() implies win.cur[#[trigger] (air.s_qc(0) + c)] == pre[c] by {
        lemma_carried(air, g, row, q, at + r, base + c);
        assert(air.s_carrier_cells(q)[base + c] == pre[c]);
        assert(row + (at + r) == row + at + r);
    }
    law_built_leaf_absorbs(
        g,
        w,
        row + at,
        pre,
        contents(q.quot_path.siblings@),
        q.quot_path.bits@,
        air.s_q_leaf(),
        air.s_quot_absorb_base(),
        air.s_qc(0),
        true,
        r,
        win,
    );
}

/// Within a super-tile the carriers keep their values, so that on every row the constraints that hold the selected cap
/// entries vanish.
pub proof fn law_built_caps_held(air: MonolithAir, g: Seq<u64>, row: int, q: QueryData, r: int, win: Window)
    requires
        air.wf(),
        air.s_full_cap(),
        tile_built(air, g, row, q),
        0 <= r < air.s_m_period(),
        win.cur == row_at(g, air.s_fold_w(), row + r),
        r < air.s_m_period() - 1 ==> win.nxt == row_at(g, air.s_fold_w(), row + r + 1),
        0 <= air.s_p_st_last() <= usize::MAX,
        win.periodic[air.s_p_st_last()] == mark(r == air.s_m_period() - 1),
    ensures
        vanish(air.all_cap_hold(), win),
{
    air.lemma_bounds();
    air.lemma_terms();
    let (last, query) = (w_per(air.s_p_st_last()), w_per(air.s_s_query()));
    let off = w_minus(w_const(1), last);
    let hold = w_times(query, off);
    lemma_leaf_values(air.s_p_st_last(), win);
    lemma_const_value(1, win);
    lemma_op_values(w_const(1), last, win);
    assert forall|i: int| 0 <= i < air.s_n_cap_c() implies vanish(#[trigger] air.f_cap_hold()(i), win) by {
        let c = air.s_cap_c(i);
        let at = c - air.s_ov();
        assert(0 <= at < air.s_carrier_cells(q).len());
        lemma_carried(air, g, row, q, r, at);
        lemma_leaf_values(c, win);
        if r == air.s_m_period() - 1 {
            lemma_zero_product(query, off, win);
        } else {
            lemma_carried(air, g, row, q, r + 1, at);
            assert(row + (r + 1) == row + r + 1);
        }
        lemma_switched(hold, w_nxt(c), w_cur(c), win);
    }
    lemma_vanish_flat(air.s_n_cap_c(), air.f_cap_hold(), win);
}

/// The selected cap entries of the trace and quotient paths stand where those paths end.
#[verifier::spinoff_prover]
#[verifier::rlimit(40)]
proof fn lemma_tops(air: MonolithAir, g: Seq<u64>, row: int, q: QueryData, k: int)
    requires
        air.wf(),
        air.s_full_cap(),
        tile_built(air, g, row, q),
        0 <= k < 4,
    ensures
        ({
            let w = air.s_fold_w();
            let (a, b) = (
                row_at(g, w, row + (32 * air.s_m_input_term() + 31)),
                row_at(g, w, row + (32 * air.s_m_quot_term() + 31)),
            );
            &&& f_red(a[k] as int) == f_red(a[air.s_cap_c(k)] as int)
            &&& f_red(b[k] as int) == f_red(b[air.s_cap_c(4 + k)] as int)
        }),
{
    let w = air.s_fold_w();
    let (pre, quot) = (air.s_input_preimage(q), air.s_quot_preimage(q, air.s_nqc() as nat));
    let (sa, sb) = (contents(q.path.siblings@), contents(q.quot_path.siblings@));
    air.lemma_bounds();
    air.lemma_terms();
    air.lemma_openings_fit();
    air.lemma_preimages(q, air.s_nqc() as nat);
    lemma_carrier_parts(air, q);
    law_built_path_ends(g, w, row + 32 * air.s_m_input_leaf(), pre, sa, q.path.bits@);
    law_built_path_ends(g, w, row + 32 * air.s_m_quot_leaf(), quot, sb, q.quot_path.bits@);
    let (ra, rb) = (32 * air.s_m_input_term() + 31, 32 * air.s_m_quot_term() + 31);
    let (a, b) = (row_at(g, w, row + ra), row_at(g, w, row + rb));
    let (ta, tb) = (q.path.top(leaf_hash(pre)), q.quot_path.top(leaf_hash(quot)));
    let last_a = div_up(pre.len() as int, 4) + sa.len() - 1;
    let last_b = div_up(quot.len() as int, 4) + sb.len() - 1;
    assert(row + 32 * air.s_m_input_leaf() + 32 * last_a + 31 == row + ra);
    assert(row + 32 * air.s_m_quot_leaf() + 32 * last_b + 31 == row + rb);
    assert(digest_at(a, 0) == ta && digest_at(b, 0) == tb);
    assert(ta.len() == 4 && tb.len() == 4);
    let caps = air.s_cap_cells(q);
    assert(caps[k] == ta[k] && caps[4 + k] == tb[k]);
    let (ov, rand, aux) = (air.s_ov_carrier_w(), air.s_random_carriers(), air.s_aux_carriers());
    let (felts, groups) = (air.s_quot_leaf_felts(), 4 * air.s_cm_rounds());
    let base = ov + rand + aux + felts + groups;
    let cells = air.s_carrier_cells(q);
    assert(cells[ov + rand + aux + felts + groups + k] == caps[k]);
    assert(cells[ov + rand + aux + felts + groups + (4 + k)] == caps[4 + k]);
    lemma_carried(air, g, row, q, ra, base + k);
    lemma_carried(air, g, row, q, rb, base + (4 + k));
    assert(digest_at(a, 0)[k] == f_red(a[k] as int) && digest_at(b, 0)[k] == f_red(b[k] as int));
}

/// In a built super-tile the trace and quotient paths end at their selected cap entries: the constraints on the
/// terminals vanish.
#[verifier::spinoff_prover]
#[verifier::rlimit(40)]
pub proof fn law_built_terminals(air: MonolithAir, g: Seq<u64>, row: int, q: QueryData, r: int, win: Window)
    requires
        air.wf(),
        air.s_full_cap(),
        tile_built(air, g, row, q),
        0 <= r < air.s_m_period(),
        win.cur == row_at(g, air.s_fold_w(), row + r),
        0 <= air.s_m_term() <= usize::MAX,
        0 <= air.s_q_term() <= usize::MAX,
        win.periodic[air.s_m_term()] == mark(r == 32 * air.s_m_input_term() + 31),
        win.periodic[air.s_q_term()] == mark(r == 32 * air.s_m_quot_term() + 31),
    ensures
        vanish(air.s_term_caps(), win),
{
    let (term, qterm) = (w_per(air.s_m_term()), w_per(air.s_q_term()));
    let cs = air.s_term_caps();
    air.lemma_bounds();
    air.lemma_terms();
    lemma_leaf_values(air.s_m_term(), win);
    lemma_leaf_values(air.s_q_term(), win);
    assert forall|k: int| 0 <= k < 4 implies #[trigger] value(
        w_times(term, w_minus(w_cur(k), w_cur(air.s_cap_c(k)))),
        win,
    ) == 0 && value(w_times(qterm, w_minus(w_cur(k), w_cur(air.s_cap_c(4 + k)))), win) == 0 by {
        assert(air.s_n_cap_c() >= 8);
        lemma_leaf_values(k, win);
        lemma_leaf_values(air.s_cap_c(k), win);
        lemma_leaf_values(air.s_cap_c(4 + k), win);
        lemma_tops(air, g, row, q, k);
        lemma_switched(term, w_cur(k), w_cur(air.s_cap_c(k)), win);
        lemma_switched(qterm, w_cur(k), w_cur(air.s_cap_c(4 + k)), win);
    }
    assert(value(w_times(term, w_minus(w_cur(0), w_cur(air.s_cap_c(0)))), win) == 0);
    assert(value(w_times(term, w_minus(w_cur(1), w_cur(air.s_cap_c(1)))), win) == 0);
    assert(value(w_times(term, w_minus(w_cur(2), w_cur(air.s_cap_c(2)))), win) == 0);
    assert(value(w_times(term, w_minus(w_cur(3), w_cur(air.s_cap_c(3)))), win) == 0);
    assert(4 + 0 == 4 && 4 + 1 == 5 && 4 + 2 == 6 && 4 + 3 == 7);
}

} // verus!
