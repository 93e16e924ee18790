//! The ends of the paths of a super-tile: the cap entries that they reach, the carriers that hold them, and the window
//! that they are compared with.

use vstd::arithmetic::power2::pow2;
use vstd::prelude::*;

use super::eval::{f_mux, mux_wires, InlineBci, MonolithBci};
use super::index::{at_head, index_spelled, law_cap_entry_is_selected, selected_entry};
use super::layout::MonolithAir;
use super::leaves::mark;
use super::meaning::digest_at;
use super::pairs::lemma_columns_stand;
use super::paths::law_built_path_ends;
use super::places::{
    end_of, first_of, head_of, leaf_of, lemma_more_selectors, lemma_opening_stands_at, path_of, preimage_of,
};
use super::reading::row_at;
use super::selection::shows_selectors;
use super::tiles::{lemma_carried, lemma_carrier_parts, lemma_groups_len, tile_built};
use super::trace::QueryData;
use crate::expr::{value, w_cur, w_minus, w_per, w_times, Window, Wire};
use crate::field::f_red;
use crate::fri::merkle::contents;
use crate::gadgets::traces::lemma_switched;
use crate::poseidon::leaf_hash;
use crate::vanish::{lemma_leaf_values, lemma_vanish_flat, vanish};

verus! {

/// The cap entry that opening `o` of a query reaches.
pub open spec fn top_of(air: MonolithAir, q: QueryData, o: int) -> Seq<u64> {
    path_of(q, o).top(leaf_hash(preimage_of(air, q, o)))
}

/// The last row of an opening starts with the entry that its path reaches.
#[verifier::rlimit(30)]
pub(super) proof fn lemma_top(air: MonolithAir, g: Seq<u64>, row: int, q: QueryData, o: int)
    requires
        air.wf(),
        8 <= air.s_fold_w(),
        tile_built(air, g, row, q),
        first_of(air) <= o < 2 + air.s_cm_rounds(),
    ensures
        ({
            let last = row_at(g, air.s_fold_w(), row + (32 * end_of(air, o) + 31));
            &&& top_of(air, q, o).len() == 4
            &&& forall|k: int| 0 <= k < 4 ==> f_red(#[trigger] last[k] as int) == top_of(air, q, o)[k]
            &&& forall|k: int| 0 <= k < 4 ==> f_red(#[trigger] top_of(air, q, o)[k] as int) == top_of(air, q, o)[k]
        }),
{
    let (pre, path) = (preimage_of(air, q, o), path_of(q, o));
    let sibs = contents(path.siblings@);
    let w = air.s_fold_w();
    lemma_opening_stands_at(air, g, row, q, o);
    law_built_path_ends(g, w, row + 32 * head_of(air, o), pre, sibs, path.bits@);
    let end = leaf_of(air, o) + sibs.len() - 1;
    assert(row + 32 * head_of(air, o) + 32 * end + 31 == row + (32 * end_of(air, o) + 31));
    let last = row_at(g, w, row + (32 * end_of(air, o) + 31));
    assert(sibs.len() == path.siblings@.len());
    assert(digest_at(last, 0) == top_of(air, q, o));
    assert forall|k: int| 0 <= k < 4 implies f_red(#[trigger] last[k] as int) == top_of(air, q, o)[k] by {
        assert(digest_at(last, 0)[k] == f_red(last[0 + k] as int));
    }
    assert forall|k: int| 0 <= k < 4 implies f_red(#[trigger] top_of(air, q, o)[k] as int) == top_of(air, q, o)[k] by {
        assert(digest_at(last, 0)[k] == f_red(last[0 + k] as int));
    }
}

#[verifier::rlimit(30)]
proof fn lemma_commit_tops(air: MonolithAir, g: Seq<u64>, row: int, q: QueryData, n: nat, r: int, k: int)
    requires
        air.wf(),
        8 <= air.s_fold_w(),
        tile_built(air, g, row, q),
        0 <= r < n <= air.s_cm_rounds(),
        0 <= k < 4,
    ensures
        air.s_commit_tops(q, n).len() == 4 * n,
        air.s_commit_tops(q, n)[4 * r + k] == top_of(air, q, 2 + r)[k],
    decreases n,
{
    let m = (n - 1) as nat;
    lemma_top(air, g, row, q, 1int + n);
    assert(top_of(air, q, 1int + n) == q.commits@[n - 1].path.top(leaf_hash(air.s_commit_preimage(q, n - 1))));
    if n > 1 {
        lemma_commit_tops(air, g, row, q, m, if r < m {
            r
        } else {
            0
        }, k);
    } else {
        assert(air.s_commit_tops(q, 0).len() == 0);
    }
}

/// The place of the entry of opening `o` among the carriers: the round in front comes last.
pub open spec fn slot_of(air: MonolithAir, o: int) -> int {
    if o < 0 {
        2 + air.s_cm_rounds()
    } else {
        o
    }
}

/// The entries that are carried, one behind the other.
#[verifier::spinoff_prover]
#[verifier::rlimit(40)]
proof fn lemma_cap_cells(air: MonolithAir, g: Seq<u64>, row: int, q: QueryData, o: int, k: int)
    requires
        air.wf(),
        tile_built(air, g, row, q),
        first_of(air) <= o < 2 + air.s_cm_rounds(),
        0 <= k < 4,
        8 <= air.s_fold_w(),
    ensures
        air.s_cap_cells(q).len() == air.s_n_cap_c(),
        air.s_cap_cells(q)[4 * slot_of(air, o) + k] == top_of(air, q, o)[k],
        4 * slot_of(air, o) + k < air.s_n_cap_c(),
{
    let caps = air.s_cap_cells(q);
    let n = air.s_cm_rounds() as nat;
    air.lemma_bounds();
    lemma_columns_stand(air);
    lemma_top(air, g, row, q, 0);
    lemma_top(air, g, row, q, 1);
    lemma_commit_tops(air, g, row, q, n, if o >= 2 {
        o - 2
    } else {
        0
    }, k);
    let (a, b, c) = (top_of(air, q, 0), top_of(air, q, 1), air.s_commit_tops(q, n));
    if first_of(air) < 0 {
        lemma_top(air, g, row, q, -1);
        let d = top_of(air, q, -1);
        assert(caps =~= a + b + c + d);
        if o < 0 {
            assert((a + b + c + d)[8 + 4 * n + k] == d[k]);
        }
    } else {
        assert(caps =~= a + b + c);
    }
    if o >= 2 {
        assert(caps[8 + (4 * (o - 2) + k)] == c[4 * (o - 2) + k]);
        assert(4 * slot_of(air, o) + k == 8 + (4 * (o - 2) + k));
    }
}

/// The entries stand in the carriers on every row of the super-tile.
#[verifier::rlimit(30)]
pub(super) proof fn lemma_top_carried(air: MonolithAir, g: Seq<u64>, row: int, q: QueryData, r: int, o: int, k: int)
    requires
        air.wf(),
        air.s_full_cap(),
        tile_built(air, g, row, q),
        0 <= r < air.s_m_period(),
        first_of(air) <= o < 2 + air.s_cm_rounds(),
        0 <= k < 4,
    ensures
        row_at(g, air.s_fold_w(), row + r)[air.s_cap_c(4 * slot_of(air, o) + k)] == top_of(air, q, o)[k],
        0 <= air.s_cap_c(4 * slot_of(air, o) + k) < air.s_fold_w() <= usize::MAX,
{
    air.lemma_bounds();
    air.lemma_terms();
    lemma_carrier_parts(air, q);
    lemma_groups_len(air, q, air.s_cm_rounds() as nat);
    lemma_carried(air, g, row, q, r, 0);
    let caps = air.s_cap_cells(q);
    lemma_cap_cells(air, g, row, q, o, k);
    let (ov, rand, aux) = (air.s_ov_carrier_w(), air.s_random_carriers(), air.s_aux_carriers());
    let (felts, groups) = (air.s_quot_leaf_felts(), 4 * air.s_cm_rounds());
    let at = ov + rand + aux + felts + groups + (4 * slot_of(air, o) + k);
    assert(air.s_carrier_cells(q)[ov + rand + aux + felts + groups + (4 * slot_of(air, o) + k)] == caps[4 * slot_of(air, o) + k]);
    assert(air.s_cap_c(4 * slot_of(air, o) + k) == air.s_ov() + at);
    assert(at < air.s_carrier_cells(q).len());
    lemma_carried(air, g, row, q, r, at);
}

/// One lane of the end of a commit path.
#[verifier::rlimit(30)]
proof fn lemma_commit_end(
    air: MonolithAir,
    g: Seq<u64>,
    row: int,
    q: QueryData,
    r: int,
    win: Window,
    c: int,
    on: Wire,
    k: int,
)
    requires
        air.wf(),
        air.s_full_cap(),
        tile_built(air, g, row, q),
        0 <= r < air.s_m_period(),
        win.cur == row_at(g, air.s_fold_w(), row + r),
        0 <= c < air.s_cm_rounds(),
        value(on, win) == mark(r == 32 * air.s_cm_term(c) + 31),
        0 <= k < 4,
    ensures
        value(w_times(on, w_minus(w_cur(k), w_cur(air.s_cap_c(8 + 4 * c + k)))), win) == 0,
{
    lemma_top_carried(air, g, row, q, r, 2 + c, k);
    air.lemma_bounds();
    assert(4 * (2 + c) + k == 8 + 4 * c + k);
    lemma_leaf_values(k, win);
    lemma_leaf_values(air.s_cap_c(8 + 4 * c + k), win);
    air.lemma_terms();
    lemma_top(air, g, row, q, 2 + c);
    if r == 32 * air.s_cm_term(c) + 31 {
        assert(end_of(air, 2 + c) == air.s_cm_term(c));
        assert(win.cur == row_at(g, air.s_fold_w(), row + (32 * end_of(air, 2 + c) + 31)));
        assert(f_red(win.cur[k] as int) == top_of(air, q, 2 + c)[k]);
        assert(f_red(top_of(air, q, 2 + c)[k] as int) == top_of(air, q, 2 + c)[k]);
    }
    lemma_switched(on, w_cur(k), w_cur(air.s_cap_c(8 + 4 * c + k)), win);
}

/// On every row of a built super-tile the ends of the commit paths stand in the carriers.
#[verifier::rlimit(30)]
pub proof fn law_built_commit_caps(air: MonolithAir, g: Seq<u64>, t: int, q: QueryData, r: int, win: Window)
    requires
        air.wf(),
        air.s_full_cap(),
        0 <= t < air.n_queries,
        tile_built(air, g, air.s_tile(t), q),
        0 <= r < air.s_m_period(),
        win.cur == row_at(g, air.s_fold_w(), air.s_tile(t) + r),
        shows_selectors(air, win, air.s_tile(t) + r),
    ensures
        vanish(air.all_commit_caps(), win),
{
    let row = air.s_tile(t);
    lemma_columns_stand(air);
    lemma_more_selectors(air, win, t, r);
    assert forall|c: int| 0 <= c < air.s_cm_rounds() implies vanish(#[trigger] air.f_commit_caps()(c), win) by {
        let on = w_per(air.s_c_term(c));
        assert(win.periodic[air.s_c_term(c)] == mark(r == 32 * air.s_cm_term(c) + 31));
        lemma_leaf_values(air.s_c_term(c), win);
        assert(air.f_commit_caps()(c) == air.s_commit_caps(c));
        lemma_commit_end(air, g, row, q, r, win, c, on, 0);
        lemma_commit_end(air, g, row, q, r, win, c, on, 1);
        lemma_commit_end(air, g, row, q, r, win, c, on, 2);
        lemma_commit_end(air, g, row, q, r, win, c, on, 3);
    }
    lemma_vanish_flat(air.s_cm_rounds(), air.f_commit_caps(), win);
}

/// The public values that a row pair reads are the window's.
pub open spec fn reads_window(air: MonolithAir, win: Window, window: Seq<u64>) -> bool {
    forall|i: int| 0 <= i < air.s_pis_count() ==> value(#[trigger] air.s_pi(i), win) == f_red(window[i] as int)
}

/// Where the window holds the entry that opening `o` reaches: among the whole caps the one that the index names, else
/// the entry itself.
pub open spec fn entry_at(air: MonolithAir, q: QueryData, o: int) -> int {
    if air.s_full_cap() {
        let c = air.s_cap_opening(slot_of(air, o));
        c.cbase + ((f_red(q.felt as int) as nat / pow2(c.shift as nat)) % pow2(c.bits as nat)) * 4
    } else if o == 0 {
        air.s_cap_base()
    } else if o == 1 {
        air.s_qcap_base()
    } else {
        air.s_ccap_base() + 4 * (o - 2)
    }
}

/// Every opening of a query ends in its entry of the window.
pub open spec fn ends_in_window(air: MonolithAir, q: QueryData, window: Seq<u64>) -> bool {
    forall|o: int, k: int|
        first_of(air) <= o < 2 + air.s_cm_rounds() && 0 <= k < 4 ==> #[trigger] top_of(air, q, o)[k] == f_red(
            window[entry_at(air, q, o) + k] as int,
        )
}

/// One opening's end against the window, where no cap is whole.
#[verifier::rlimit(30)]
proof fn lemma_shared_end(
    air: MonolithAir,
    g: Seq<u64>,
    t: int,
    q: QueryData,
    r: int,
    window: Seq<u64>,
    win: Window,
    o: int,
    on: Wire,
    k: int,
)
    requires
        air.eval_ok(),
        !air.s_full_cap(),
        tile_built(air, g, air.s_tile(t), q),
        win.cur == row_at(g, air.s_fold_w(), air.s_tile(t) + r),
        reads_window(air, win, window),
        ends_in_window(air, q, window),
        0 <= o < 2 + air.s_cm_rounds(),
        0 <= k < 4,
        value(on, win) == mark(r == 32 * end_of(air, o) + 31),
    ensures
        value(w_times(on, w_minus(w_cur(k), air.s_pi(entry_at(air, q, o) + k))), win) == 0,
{
    air.lemma_bounds();
    air.lemma_terms();
    lemma_leaf_values(k, win);
    lemma_top(air, g, air.s_tile(t), q, o);
    let i = entry_at(air, q, o) + k;
    assert(0 <= i < air.s_pis_count()) by {
        lemma_shared_fits(air, o);
    }
    assert(value(air.s_pi(i), win) == f_red(window[i] as int));
    assert(top_of(air, q, o)[k] == f_red(window[entry_at(air, q, o) + k] as int));
    if r == 32 * end_of(air, o) + 31 {
        assert(f_red(win.cur[k] as int) == top_of(air, q, o)[k]);
    }
    lemma_switched(on, w_cur(k), air.s_pi(i), win);
}

/// The shared entries lie in the window.
proof fn lemma_shared_fits(air: MonolithAir, o: int)
    requires
        air.eval_ok(),
        !air.s_full_cap(),
        0 <= o < 2 + air.s_cm_rounds(),
    ensures
        ({
            let at = if o == 0 {
                air.s_cap_base()
            } else if o == 1 {
                air.s_qcap_base()
            } else {
                air.s_ccap_base() + 4 * (o - 2)
            };
            0 <= at && at + 4 <= air.s_pis_count()
        }),
{
    air.lemma_bounds();
}

/// On every row of a built super-tile whose openings end in the window, the comparisons with shared entries vanish.
#[verifier::spinoff_prover]
#[verifier::rlimit(40)]
pub proof fn law_built_shared_caps(
    air: MonolithAir,
    g: Seq<u64>,
    t: int,
    q: QueryData,
    r: int,
    window: Seq<u64>,
    win: Window,
)
    requires
        air.eval_ok(),
        !air.s_full_cap(),
        0 <= t < air.n_queries,
        tile_built(air, g, air.s_tile(t), q),
        0 <= r < air.s_m_period(),
        win.cur == row_at(g, air.s_fold_w(), air.s_tile(t) + r),
        shows_selectors(air, win, air.s_tile(t) + r),
        reads_window(air, win, window),
        ends_in_window(air, q, window),
    ensures
        vanish(air.s_term_shared(), win),
        vanish(air.all_commit_shared(), win),
{
    lemma_columns_stand(air);
    lemma_more_selectors(air, win, t, r);
    let (term, qterm) = (w_per(air.s_m_term()), w_per(air.s_q_term()));
    lemma_leaf_values(air.s_m_term(), win);
    lemma_leaf_values(air.s_q_term(), win);
    lemma_shared_end(air, g, t, q, r, window, win, 0, term, 0);
    lemma_shared_end(air, g, t, q, r, window, win, 0, term, 1);
    lemma_shared_end(air, g, t, q, r, window, win, 0, term, 2);
    lemma_shared_end(air, g, t, q, r, window, win, 0, term, 3);
    lemma_shared_end(air, g, t, q, r, window, win, 1, qterm, 0);
    lemma_shared_end(air, g, t, q, r, window, win, 1, qterm, 1);
    lemma_shared_end(air, g, t, q, r, window, win, 1, qterm, 2);
    lemma_shared_end(air, g, t, q, r, window, win, 1, qterm, 3);
    lemma_shared_rounds(air, g, t, q, r, window, win);
}

#[verifier::rlimit(30)]
proof fn lemma_shared_round(
    air: MonolithAir,
    g: Seq<u64>,
    t: int,
    q: QueryData,
    r: int,
    window: Seq<u64>,
    win: Window,
    c: int,
)
    requires
        air.eval_ok(),
        !air.s_full_cap(),
        tile_built(air, g, air.s_tile(t), q),
        win.cur == row_at(g, air.s_fold_w(), air.s_tile(t) + r),
        reads_window(air, win, window),
        ends_in_window(air, q, window),
        0 <= c < air.s_cm_rounds(),
        value(w_per(air.s_c_term(c)), win) == mark(r == 32 * air.s_cm_term(c) + 31),
    ensures
        vanish(air.s_commit_shared(c), win),
{
    let on = w_per(air.s_c_term(c));
    let e = air.s_ccap_base() + 4 * c;
    assert(end_of(air, 2 + c) == air.s_cm_term(c));
    assert(entry_at(air, q, 2 + c) == e);
    lemma_shared_end(air, g, t, q, r, window, win, 2 + c, on, 0);
    lemma_shared_end(air, g, t, q, r, window, win, 2 + c, on, 1);
    lemma_shared_end(air, g, t, q, r, window, win, 2 + c, on, 2);
    lemma_shared_end(air, g, t, q, r, window, win, 2 + c, on, 3);
    let cs = air.s_commit_shared(c);
    assert(cs[0] == w_times(on, w_minus(w_cur(0), air.s_pi(e + 0))));
    assert(cs[1] == w_times(on, w_minus(w_cur(1), air.s_pi(e + 1))));
    assert(cs[2] == w_times(on, w_minus(w_cur(2), air.s_pi(e + 2))));
    assert(cs[3] == w_times(on, w_minus(w_cur(3), air.s_pi(e + 3))));
}

#[verifier::spinoff_prover]
#[verifier::rlimit(80)]
proof fn lemma_shared_rounds(
    air: MonolithAir,
    g: Seq<u64>,
    t: int,
    q: QueryData,
    r: int,
    window: Seq<u64>,
    win: Window,
)
    requires
        air.eval_ok(),
        !air.s_full_cap(),
        0 <= t < air.n_queries,
        tile_built(air, g, air.s_tile(t), q),
        0 <= r < air.s_m_period(),
        win.cur == row_at(g, air.s_fold_w(), air.s_tile(t) + r),
        shows_selectors(air, win, air.s_tile(t) + r),
        reads_window(air, win, window),
        ends_in_window(air, q, window),
    ensures
        vanish(air.all_commit_shared(), win),
{
    lemma_columns_stand(air);
    lemma_more_selectors(air, win, t, r);
    assert forall|c: int| 0 <= c < air.s_cm_rounds() implies vanish(#[trigger] air.f_commit_shared()(c), win) by {
        let on = w_per(air.s_c_term(c));
        assert(win.periodic[air.s_c_term(c)] == mark(r == 32 * air.s_cm_term(c) + 31));
        lemma_leaf_values(air.s_c_term(c), win);
        assert(air.f_commit_shared()(c) == air.s_commit_shared(c));
        lemma_shared_round(air, g, t, q, r, window, win, c);
    }
    lemma_vanish_flat(air.s_cm_rounds(), air.f_commit_shared(), win);
}

/// On the head row of a built super-tile whose openings end in the window, the selection of the cap entries vanishes.
#[verifier::spinoff_prover]
#[verifier::rlimit(80)]
pub proof fn law_built_capmux(
    air: MonolithAir,
    g: Seq<u64>,
    t: int,
    q: QueryData,
    window: Seq<u64>,
    win: Window,
)
    requires
        air.eval_ok(),
        air.s_full_cap(),
        !air.narrow_caps,
        0 <= t < air.n_queries,
        tile_built(air, g, air.s_tile(t), q),
        win.cur == row_at(g, air.s_fold_w(), air.s_tile(t)),
        at_head(air, win),
        index_spelled(air, win.cur),
        win.cur[air.s_sb_x()] == f_red(q.felt as int),
        reads_window(air, win, window),
        ends_in_window(air, q, window),
    ensures
        vanish(InlineBci.capmux(air, air.s_cap_openings()), win),
{
    let os = air.s_cap_openings();
    air.lemma_bounds();
    assert(os.len() == 2 + air.s_cm_rounds() - first_of(air));
    assert forall|i: int| 0 <= i < os.len() implies vanish(#[trigger] f_mux(air, os)(i), win) by {
        let c = os[i];
        let o = if i == 2 + air.s_cm_rounds() {
            -1
        } else {
            i
        };
        air.lemma_openings(i);
        assert(c == air.s_cap_opening(i));
        assert(slot_of(air, o) == i);
        assert(c.cg_off == 4 * i);
        law_cap_entry_is_selected(air, win, c);
        let e = selected_entry(air, win.cur, c);
        assert(e < pow2(c.bits as nat)) by {
            vstd::arithmetic::power2::lemma_pow2_pos(c.bits as nat);
            vstd::arithmetic::div_mod::lemma_mod_bound(
                (f_red(win.cur[air.s_sb_x()] as int) as nat / pow2(c.shift as nat)) as int,
                pow2(c.bits as nat) as int,
            );
        }
        assert forall|k: int| 0 <= k < 4 implies f_red(#[trigger] win.cur[air.s_cap_c(c.cg_off + k)] as int) == value(
            air.s_pi(c.cbase + e * 4 + k),
            win,
        ) by {
            lemma_top_carried(air, g, air.s_tile(t), q, 0, o, k);
            lemma_top(air, g, air.s_tile(t), q, o);
            assert(f_red(top_of(air, q, o)[k] as int) == top_of(air, q, o)[k]);
            let p = c.cbase + e * 4 + k;
            assert(entry_at(air, q, o) + k == p);
            assert(value(air.s_pi(p), win) == f_red(window[p] as int));
        }
        assert(f_mux(air, os)(i) == mux_wires(air, c));
    }
    lemma_vanish_flat(os.len() as int, f_mux(air, os), win);
}

} // verus!
