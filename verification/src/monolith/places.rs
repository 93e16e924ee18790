//! The blocks of a super-tile: each belongs to one opening, and its rows satisfy the constraints of the permutation,
//! of the leaves and of the paths.

use vstd::prelude::*;

use super::arith::steps;
use super::blocks::{block_holds, commit_holds, opening_block, opening_ends, opening_holds, opening_tail, path_ends};
use super::grid::PathData;
use super::layout::{MonolithAir, M_INPUT_LEAF};
use super::leaves::mark;
use super::pairs::{lemma_columns_stand, lemma_flat_off, lemma_off, plain_rounds};
use super::paths::{law_built_block_steps, law_built_path_links, lemma_opening_block_len};
use super::reading::{lemma_siblings, row_at};
use super::selection::shows_selectors;
use super::tiles::tile_built;
use super::trace::QueryData;
use crate::bits::div_up;
use crate::emit::flat;
use crate::expr::{value, w_const, w_minus, w_per, w_plus, w_times, Window, Wire};
use crate::fri::merkle::contents;
use crate::gadgets::traces::lemma_zero_product;
use crate::poseidon::schedule;
use crate::vanish::{lemma_const_value, lemma_gates, lemma_leaf_values, lemma_op_values, vanish};

verus! {

/// The first opening of a super-tile: a round in front of the trace row has the number -1.
pub open spec fn first_of(air: MonolithAir) -> int {
    if plain_rounds(air) {
        0
    } else {
        -1
    }
}

/// The first block of opening `o` of a super-tile: the random or the aux row where there is one, the trace row, the
/// quotient row, then the commit rounds.
pub open spec fn head_of(air: MonolithAir, o: int) -> int {
    if o < 0 {
        M_INPUT_LEAF as int
    } else if o == 0 {
        air.s_m_input_leaf()
    } else if o == 1 {
        air.s_m_quot_leaf()
    } else {
        air.s_cm_leaf(o - 2)
    }
}

/// The last block of opening `o`.
pub open spec fn end_of(air: MonolithAir, o: int) -> int {
    if o < 0 {
        if air.is_zk == 1 {
            air.s_m_random_term()
        } else {
            air.s_m_aux_term()
        }
    } else if o == 0 {
        air.s_m_input_term()
    } else if o == 1 {
        air.s_m_quot_term()
    } else {
        air.s_cm_term(o - 2)
    }
}

/// The blocks of the leaf of opening `o`.
pub open spec fn leaf_of(air: MonolithAir, o: int) -> int {
    if o < 0 {
        if air.is_zk == 1 {
            air.s_random_leaf_blocks()
        } else {
            air.s_aux_leaf_blocks()
        }
    } else if o == 0 {
        air.s_leaf_blocks()
    } else if o == 1 {
        air.s_quot_leaf_blocks()
    } else {
        air.s_cm_leaf_blocks()
    }
}

/// What opening `o` of a query hashes.
pub open spec fn preimage_of(air: MonolithAir, q: QueryData, o: int) -> Seq<u64> {
    if o < 0 {
        if air.is_zk == 1 {
            air.s_random_preimage(q)
        } else {
            air.s_aux_preimage(q)
        }
    } else if o == 0 {
        air.s_input_preimage(q)
    } else if o == 1 {
        air.s_quot_preimage(q, air.s_nqc() as nat)
    } else {
        air.s_commit_preimage(q, o - 2)
    }
}

/// The path of opening `o` of a query.
pub open spec fn path_of(q: QueryData, o: int) -> PathData {
    if o < 0 {
        match q.hiding {
            Some(hw) => hw.random_path,
            None => q.aux_path.unwrap(),
        }
    } else if o == 0 {
        q.path
    } else if o == 1 {
        q.quot_path
    } else {
        q.commits@[o - 2].path
    }
}

/// The openings stand one behind the other, and the last one ends the super-tile.
pub(super) proof fn lemma_openings_chain(air: MonolithAir, o: int)
    requires
        air.wf(),
        first_of(air) <= o < 2 + air.s_cm_rounds(),
    ensures
        head_of(air, first_of(air)) == 1,
        head_of(air, o + 1) == end_of(air, o) + 1,
        1 <= head_of(air, o),
        1 <= leaf_of(air, o),
        head_of(air, o) + leaf_of(air, o) - 1 <= end_of(air, o) < air.s_m_nblocks(),
        head_of(air, 2 + air.s_cm_rounds()) == air.s_m_nblocks(),
        air.s_m_period() == 32 * air.s_m_nblocks(),
{
    air.lemma_bounds();
    air.lemma_openings_fit();
    if o >= 2 {
        air.lemma_cm_leaf_bound((o - 2) as nat);
    } else {
        air.lemma_cm_leaf_bound(0);
    }
}

pub(super) proof fn lemma_heads_ordered(air: MonolithAir, a: int, b: int)
    requires
        air.wf(),
        first_of(air) <= a < b <= 2 + air.s_cm_rounds(),
    ensures
        end_of(air, a) < head_of(air, b),
    decreases b,
{
    lemma_openings_chain(air, b - 1);
    if a < b - 1 {
        lemma_heads_ordered(air, a, b - 1);
    }
}

proof fn lemma_place_below(air: MonolithAir, b: int, n: int) -> (o: int)
    requires
        air.wf(),
        first_of(air) <= n <= 2 + air.s_cm_rounds(),
        1 <= b < head_of(air, n),
    ensures
        first_of(air) <= o < n,
        head_of(air, o) <= b <= end_of(air, o),
    decreases n - first_of(air),
{
    lemma_openings_chain(air, first_of(air));
    if n == first_of(air) {
        first_of(air)
    } else {
        lemma_openings_chain(air, n - 1);
        if b >= head_of(air, n - 1) {
            n - 1
        } else {
            lemma_place_below(air, b, n - 1)
        }
    }
}

/// The opening that a block belongs to.
proof fn lemma_place(air: MonolithAir, b: int) -> (o: int)
    requires
        air.wf(),
        1 <= b < air.s_m_nblocks(),
    ensures
        first_of(air) <= o < 2 + air.s_cm_rounds(),
        head_of(air, o) <= b <= end_of(air, o),
{
    lemma_openings_chain(air, first_of(air));
    lemma_place_below(air, b, 2 + air.s_cm_rounds())
}

/// An opening of a built super-tile stands in its place.
#[verifier::rlimit(30)]
pub(super) proof fn lemma_opening_stands_at(air: MonolithAir, g: Seq<u64>, row: int, q: QueryData, o: int)
    requires
        air.wf(),
        tile_built(air, g, row, q),
        first_of(air) <= o < 2 + air.s_cm_rounds(),
    ensures
        ({
            let (pre, path) = (preimage_of(air, q, o), path_of(q, o));
            let sibs = contents(path.siblings@);
            &&& opening_holds(g, air.s_fold_w(), row + 32 * head_of(air, o), pre, sibs, path.bits@)
            &&& opening_ends(pre, sibs, path.bits@)
            &&& pre.len() > 0
            &&& div_up(pre.len() as int, 4) == leaf_of(air, o)
            &&& head_of(air, o) + leaf_of(air, o) + sibs.len() - 1 == end_of(air, o)
            &&& forall|i: int| 0 <= i < sibs.len() ==> (#[trigger] sibs[i]).len() == 4
        }),
{
    let (pre, path) = (preimage_of(air, q, o), path_of(q, o));
    air.lemma_bounds();
    air.lemma_preimages(q, air.s_nqc() as nat);
    let depth = if o < 2 {
        air.s_input_depth()
    } else {
        air.s_cm_depth_r(o - 2)
    };
    if o >= 2 {
        assert(commit_holds(air, g, row, q, o - 2));
        assert(path_ends(air.s_commit_preimage(q, o - 2), q.commits@[o - 2].path));
        assert(q.commits@[o - 2].path.ok(depth));
        assert(pre.len() == air.s_cm_leaf_felts());
    }
    lemma_siblings(path, depth);
}

/// What the selectors of a super-tile show on its row `r` besides.
#[verifier::spinoff_prover]
#[verifier::rlimit(80)]
pub(super) proof fn lemma_more_selectors(air: MonolithAir, win: Window, t: int, r: int)
    requires
        air.wf(),
        shows_selectors(air, win, air.s_tile(t) + r),
        0 <= t < air.n_queries,
        0 <= r < air.s_m_period(),
    ensures
        win.periodic[air.s_s_merkle()] == mark(r >= 32),
        win.periodic[air.s_s_query()] == 1,
        win.periodic[air.s_s_trans()] == 0,
        win.periodic[air.s_s_trans_trans()] == 0,
        win.periodic[air.s_m_tf()] == mark(r == 0),
        win.periodic[air.s_m_tl()] == mark(r == air.s_cm_rounds()),
        win.periodic[air.s_p_st_last()] == mark(r == air.s_m_period() - 1),
        win.periodic[air.s_m_term()] == mark(r == 32 * air.s_m_input_term() + 31),
        win.periodic[air.s_q_term()] == mark(r == 32 * air.s_m_quot_term() + 31),
        forall|k: int|
            0 <= k < air.s_cm_rounds() ==> win.periodic[#[trigger] air.s_c_term(k)] == mark(
                r == 32 * air.s_cm_term(k) + 31,
            ),
        forall|k: int| 0 <= k < air.s_cm_rounds() ==> win.periodic[#[trigger] air.s_p_round(k)] == mark(r == k),
        forall|k: int|
            0 <= k < air.n_queries ==> win.periodic[#[trigger] air.s_p_query(k)] == mark(r == 0 && k == t),
        air.s_tr() <= air.s_tile(t),
        air.s_tile(t) + air.s_m_period() <= air.s_inst_h(),
{
    let row = air.s_tile(t) + r;
    lemma_columns_stand(air);
    air.lemma_bounds();
    air.lemma_openings_fit();
    air.lemma_tile_fits(t);
    air.lemma_period_covers_rounds();
    air.law_selector_roles(row, 0, t);
    air.lemma_on_tile(t, r, 0);
    air.lemma_on_tile(t, r, air.s_cm_rounds());
    air.lemma_on_tile(t, r, air.s_m_period() - 1);
    air.lemma_on_tile(t, r, air.s_m_input_term() * 32 + 31);
    air.lemma_on_tile(t, r, air.s_m_quot_term() * 32 + 31);
    assert(air.in_tile(row, 0)) by {
        assert(air.s_tile(t) + 0 <= row < air.s_tile(t) + air.s_m_period());
    }
    assert(air.in_tile(row, 32) <==> r >= 32) by {
        if air.in_tile(row, 32) {
            let q = choose|q: int|
                0 <= q < air.n_queries && (#[trigger] air.s_tile(q)) + 32 <= row < air.s_tile(q) + air.s_m_period();
            let (x, mp) = (row - air.s_tr(), air.s_m_period());
            vstd::arithmetic::div_mod::lemma_fundamental_div_mod_converse(x, mp, q, row - air.s_tile(q));
            vstd::arithmetic::div_mod::lemma_fundamental_div_mod_converse(x, mp, t, r);
        }
        if r >= 32 {
            assert(air.s_tile(t) + 32 <= row < air.s_tile(t) + air.s_m_period());
        }
    }
    assert forall|k: int| 0 <= k < air.s_cm_rounds() implies win.periodic[#[trigger] air.s_c_term(k)] == mark(
        r == 32 * air.s_cm_term(k) + 31,
    ) by {
        air.lemma_cm_leaf_bound(k as nat);
        air.lemma_on_tile(t, r, air.s_cm_term(k) * 32 + 31);
        air.law_selector_roles(row, k, t);
    }
    assert forall|k: int| 0 <= k < air.s_cm_rounds() implies win.periodic[#[trigger] air.s_p_round(k)] == mark(r == k) by {
        air.lemma_on_tile(t, r, k);
        air.law_selector_roles(row, k, t);
    }
    assert forall|k: int| 0 <= k < air.n_queries implies win.periodic[#[trigger] air.s_p_query(k)] == mark(
        r == 0 && k == t,
    ) by {
        air.law_selector_roles(row, 0, k);
        if row == air.s_tile(k) {
            let (x, mp) = (row - air.s_tr(), air.s_m_period());
            vstd::arithmetic::div_mod::lemma_fundamental_div_mod_converse(x, mp, k, 0);
            vstd::arithmetic::div_mod::lemma_fundamental_div_mod_converse(x, mp, t, r);
        }
    }
}

/// Block `b` ends an opening of the rows or of the first `n` commit rounds.
pub(super) open spec fn ends_one(air: MonolithAir, b: int, n: int) -> bool
    decreases n,
{
    if n <= 0 {
        b == air.s_m_input_term() || b == air.s_m_quot_term() || air.is_zk == 1 && b == air.s_m_random_term()
    } else {
        ends_one(air, b, n - 1) || b == air.s_cm_term(n - 1)
    }
}

/// Block `b` lies inside a leaf, before its last block.
pub(super) open spec fn inside_leaf(air: MonolithAir, b: int, o: int) -> bool {
    head_of(air, o) <= b < head_of(air, o) + leaf_of(air, o) - 1
}

/// Block `b` is the first of a commit leaf.
pub(super) open spec fn starts_commit(air: MonolithAir, b: int) -> bool {
    exists|k: int| 0 <= k < air.s_cm_rounds() && b == #[trigger] air.s_cm_leaf(k)
}

/// A block that the links leave out: it ends an opening, or it lies inside a leaf.
pub(super) open spec fn excluded(air: MonolithAir, b: int) -> bool {
    ||| ends_one(air, b, air.s_cm_rounds())
    ||| air.s_is_lookup() && b == air.s_m_aux_term()
    ||| inside_leaf(air, b, 0)
    ||| inside_leaf(air, b, 1)
    ||| first_of(air) < 0 && inside_leaf(air, b, -1)
    ||| air.is_zk == 1 && starts_commit(air, b)
}

pub(super) proof fn lemma_ends_below(air: MonolithAir, b: int, n: int)
    requires
        air.wf(),
        0 <= n <= air.s_cm_rounds(),
        ends_one(air, b, n),
    ensures
        exists|o: int| first_of(air) <= o < 2 + n && b == #[trigger] end_of(air, o),
    decreases n,
{
    if n == 0 {
        if air.is_zk == 1 && b == air.s_m_random_term() {
            assert(b == end_of(air, -1));
        } else {
            assert(b == end_of(air, 0) || b == end_of(air, 1));
        }
    } else if b == air.s_cm_term(n - 1) {
        assert(b == end_of(air, 1 + n));
    } else {
        lemma_ends_below(air, b, n - 1);
    }
}

proof fn lemma_ends_at(air: MonolithAir, o: int, n: int)
    requires
        0 <= o < 2 + n,
    ensures
        ends_one(air, end_of(air, o), n),
    decreases n,
{
    if n > 0 && o < 1 + n {
        lemma_ends_at(air, o, n - 1);
    }
}

/// The end of a random row is one of the ends.
proof fn lemma_random_ends(air: MonolithAir, n: int)
    requires
        air.is_zk == 1,
    ensures
        ends_one(air, air.s_m_random_term(), n),
    decreases n,
{
    if n > 0 {
        lemma_random_ends(air, n - 1);
    }
}

/// A block of opening `o` neither ends another opening nor lies in its leaf.
proof fn lemma_elsewhere(air: MonolithAir, b: int, o: int, p: int)
    requires
        air.wf(),
        first_of(air) <= o < 2 + air.s_cm_rounds(),
        first_of(air) <= p < 2 + air.s_cm_rounds(),
        head_of(air, o) <= b <= end_of(air, o),
        o != p,
    ensures
        b != end_of(air, p),
        !inside_leaf(air, b, p),
        b != head_of(air, p),
{
    lemma_openings_chain(air, o);
    lemma_openings_chain(air, p);
    if o < p {
        lemma_heads_ordered(air, o, p);
    } else {
        lemma_heads_ordered(air, p, o);
    }
}

/// The ends of the first openings on a block of opening `o`.
#[verifier::rlimit(30)]
proof fn lemma_ends_of(air: MonolithAir, b: int, o: int, n: int)
    requires
        air.wf(),
        first_of(air) <= o < 2 + air.s_cm_rounds(),
        head_of(air, o) <= b <= end_of(air, o),
        0 <= n <= air.s_cm_rounds(),
    ensures
        ends_one(air, b, n) <==> b == end_of(air, o) && o < 2 + n && (o >= 0 || air.is_zk == 1),
{
    if ends_one(air, b, n) {
        lemma_ends_below(air, b, n);
        let p = choose|p: int| first_of(air) <= p < 2 + n && b == #[trigger] end_of(air, p);
        if p != o {
            lemma_elsewhere(air, b, o, p);
        }
        if o < 0 && air.is_zk != 1 {
            lemma_no_front_end(air, b, n);
        }
    }
    if b == end_of(air, o) && o < 2 + n {
        if o >= 0 {
            lemma_ends_at(air, o, n);
        } else if air.is_zk == 1 {
            lemma_random_ends(air, n);
        }
    }
}

/// An end is one of a row of a trace, of a quotient or of a commit round where nothing is hidden.
proof fn lemma_no_front_end(air: MonolithAir, b: int, n: int)
    requires
        air.wf(),
        air.is_zk != 1,
        first_of(air) < 0,
        head_of(air, -1) <= b <= end_of(air, -1),
        0 <= n <= air.s_cm_rounds(),
    ensures
        !ends_one(air, b, n),
    decreases n,
{
    lemma_elsewhere(air, b, -1, 0);
    lemma_elsewhere(air, b, -1, 1);
    if n > 0 {
        lemma_no_front_end(air, b, n - 1);
        lemma_elsewhere(air, b, -1, 1 + n);
    }
}

/// The first blocks of the commit leaves on a block of opening `o`.
proof fn lemma_starts_of(air: MonolithAir, b: int, o: int)
    requires
        air.wf(),
        first_of(air) <= o < 2 + air.s_cm_rounds(),
        head_of(air, o) <= b <= end_of(air, o),
    ensures
        starts_commit(air, b) <==> o >= 2 && b == head_of(air, o),
{
    if starts_commit(air, b) {
        let k = choose|k: int| 0 <= k < air.s_cm_rounds() && b == #[trigger] air.s_cm_leaf(k);
        assert(b == head_of(air, 2 + k));
        if o != 2 + k {
            lemma_elsewhere(air, b, o, 2 + k);
        }
    }
    if o >= 2 && b == head_of(air, o) {
        assert(b == air.s_cm_leaf(o - 2));
    }
}

/// One mark more, where at most one is set.
proof fn lemma_mark_more(acc: Wire, col: int, x: bool, y: bool, win: Window)
    requires
        0 <= col <= usize::MAX,
        value(acc, win) == mark(x),
        win.periodic[col] == mark(y),
        !(x && y),
    ensures
        value(w_plus(acc, w_per(col)), win) == mark(x || y),
{
    lemma_leaf_values(col, win);
    lemma_op_values(acc, w_per(col), win);
}

/// What the selectors of the round in front and of the salted leaves show on row `r` of a super-tile.
#[verifier::spinoff_prover]
#[verifier::rlimit(40)]
pub(super) proof fn lemma_front_selectors(air: MonolithAir, win: Window, t: int, r: int)
    requires
        air.wf(),
        shows_selectors(air, win, air.s_tile(t) + r),
        0 <= t < air.n_queries,
        0 <= r < air.s_m_period(),
    ensures
        air.is_zk == 1 ==> win.periodic[air.s_p_random_term()] == mark(r == 32 * air.s_m_random_term() + 31),
        air.s_is_lookup() ==> win.periodic[air.s_p_aux_term()] == mark(r == 32 * air.s_m_aux_term() + 31),
        air.is_zk == 1 ==> win.periodic[air.s_c_bnd()] == mark(r % 32 == 31 && starts_commit(air, r / 32)),
{
    let row = air.s_tile(t) + r;
    lemma_columns_stand(air);
    air.lemma_bounds();
    air.lemma_openings_fit();
    air.law_selector_roles(row, 0, t);
    if air.is_zk == 1 {
        air.lemma_on_tile(t, r, air.s_m_random_term() * 32 + 31);
        if air.at_commit_boundary(row) {
            let k = choose|k: int| 0 <= k < air.s_cm_rounds() && air.at_end(row, #[trigger] air.s_cm_leaf(k));
            air.lemma_cm_leaf_bound(k as nat);
            air.lemma_on_tile(t, r, air.s_cm_leaf(k) * 32 + 31);
            assert(r / 32 == air.s_cm_leaf(k));
        }
        if r % 32 == 31 && starts_commit(air, r / 32) {
            let k = choose|k: int| 0 <= k < air.s_cm_rounds() && r / 32 == #[trigger] air.s_cm_leaf(k);
            air.lemma_cm_leaf_bound(k as nat);
            air.lemma_on_tile(t, r, air.s_cm_leaf(k) * 32 + 31);
            assert(air.at_end(row, air.s_cm_leaf(k)));
        }
    }
    if air.s_is_lookup() {
        air.lemma_on_tile(t, r, air.s_m_aux_term() * 32 + 31);
    }
}

#[verifier::rlimit(30)]
proof fn lemma_terminals_value(air: MonolithAir, win: Window, t: int, r: int, o: int, n: int)
    requires
        air.wf(),
        shows_selectors(air, win, air.s_tile(t) + r),
        0 <= t < air.n_queries,
        0 <= r < air.s_m_period(),
        r % 32 == 31,
        0 <= n <= air.s_cm_rounds(),
        first_of(air) <= o < 2 + air.s_cm_rounds(),
        head_of(air, o) <= r / 32 <= end_of(air, o),
    ensures
        value(air.s_terminals(n), win) == mark(ends_one(air, r / 32, n)),
    decreases n,
{
    let b = r / 32;
    lemma_columns_stand(air);
    lemma_more_selectors(air, win, t, r);
    if n == 0 {
        let both = w_plus(w_per(air.s_m_term()), w_per(air.s_q_term()));
        lemma_leaf_values(air.s_m_term(), win);
        if b == air.s_m_input_term() {
            lemma_apart(air, 0, 1);
        }
        lemma_mark_more(w_per(air.s_m_term()), air.s_q_term(), b == air.s_m_input_term(), b == air.s_m_quot_term(), win);
        if air.is_zk == 1 {
            lemma_front_selectors(air, win, t, r);
            lemma_apart(air, -1, 0);
            lemma_apart(air, -1, 1);
            lemma_mark_more(
                both,
                air.s_p_random_term(),
                b == air.s_m_input_term() || b == air.s_m_quot_term(),
                b == air.s_m_random_term(),
                win,
            );
        }
    } else {
        lemma_terminals_value(air, win, t, r, o, n - 1);
        lemma_ends_of(air, b, o, n - 1);
        if b == air.s_cm_term(n - 1) && o != 1 + n {
            lemma_elsewhere(air, b, o, 1 + n);
        }
        assert(win.periodic[air.s_c_term(n - 1)] == mark(b == air.s_cm_term(n - 1)));
        lemma_mark_more(
            air.s_terminals(n - 1),
            air.s_c_term(n - 1),
            ends_one(air, b, n - 1),
            b == air.s_cm_term(n - 1),
            win,
        );
    }
}

/// Two openings end in different blocks.
proof fn lemma_apart(air: MonolithAir, o: int, p: int)
    requires
        air.wf(),
        first_of(air) <= o < p < 2 + air.s_cm_rounds(),
    ensures
        end_of(air, o) != end_of(air, p),
{
    lemma_heads_ordered(air, o, p);
    lemma_openings_chain(air, p);
}

/// The row ends a block inside a leaf.
proof fn lemma_boundary(air: MonolithAir, t: int, r: int, head: int, n: int)
    requires
        air.wf(),
        0 <= t < air.n_queries,
        1 <= head,
        1 <= n,
        32 * (head + n) <= air.s_m_period(),
        0 <= r < air.s_m_period(),
        r % 32 == 31,
    ensures
        air.at_boundary(air.s_tile(t) + r, head, n) <==> head <= r / 32 < head + n - 1,
{
    let row = air.s_tile(t) + r;
    if r >= 32 * head {
        air.lemma_on_boundary(t, r, head, n);
    } else if air.at_boundary(row, head, n) {
        let k = choose|k: int| 1 <= k < n && #[trigger] air.at_end(row, head + k - 1);
        air.lemma_on_tile(t, r, (head + k - 1) * 32 + 31);
    }
}

/// What the boundary selectors show on the last row of a block.
#[verifier::spinoff_prover]
#[verifier::rlimit(40)]
proof fn lemma_boundaries(air: MonolithAir, win: Window, t: int, r: int)
    requires
        air.wf(),
        shows_selectors(air, win, air.s_tile(t) + r),
        0 <= t < air.n_queries,
        0 <= r < air.s_m_period(),
        r % 32 == 31,
    ensures
        air.s_leaf_blocks() > 1 ==> win.periodic[air.s_in_boundary()] == mark(inside_leaf(air, r / 32, 0)),
        air.s_quot_leaf_blocks() > 1 ==> win.periodic[air.s_q_boundary()] == mark(inside_leaf(air, r / 32, 1)),
        air.is_zk == 1 ==> win.periodic[air.s_p_random_boundary()] == mark(inside_leaf(air, r / 32, -1)),
        air.s_is_lookup() && air.s_aux_leaf_blocks() > 1 ==> win.periodic[air.s_p_aux_boundary()] == mark(
            inside_leaf(air, r / 32, -1),
        ),
        air.s_leaf_blocks() > 1 ==> 0 <= air.s_in_boundary() <= usize::MAX,
        air.s_quot_leaf_blocks() > 1 ==> 0 <= air.s_q_boundary() <= usize::MAX,
        air.is_zk == 1 ==> 0 <= air.s_p_random_boundary() <= usize::MAX,
        air.s_is_lookup() && air.s_aux_leaf_blocks() > 1 ==> 0 <= air.s_p_aux_boundary() <= usize::MAX,
{
    let row = air.s_tile(t) + r;
    lemma_columns_stand(air);
    air.lemma_bounds();
    air.lemma_openings_fit();
    air.law_selector_roles(row, 0, t);
    lemma_openings_chain(air, 0);
    lemma_openings_chain(air, 1);
    lemma_boundary(air, t, r, air.s_m_input_leaf(), air.s_leaf_blocks());
    lemma_boundary(air, t, r, air.s_m_quot_leaf(), air.s_quot_leaf_blocks());
    if air.is_zk == 1 {
        lemma_boundary(air, t, r, M_INPUT_LEAF as int, air.s_random_leaf_blocks());
        assert(air.selector(air.s_p_random_boundary(), row) == air.at_boundary(
            row,
            M_INPUT_LEAF as int,
            air.s_random_leaf_blocks(),
        ));
    }
    if air.s_is_lookup() && air.s_aux_leaf_blocks() > 1 {
        lemma_boundary(air, t, r, M_INPUT_LEAF as int, air.s_aux_leaf_blocks());
        assert(air.selector(air.s_p_aux_boundary(), row) == air.at_boundary(
            row,
            M_INPUT_LEAF as int,
            air.s_aux_leaf_blocks(),
        ));
    }
}

/// The marks on a block of opening `o`: they exclude one another.
pub(super) open spec fn marks_apart(air: MonolithAir, b: int) -> bool {
    let ends = ends_one(air, b, air.s_cm_rounds());
    let (first, second, front) = (inside_leaf(air, b, 0), inside_leaf(air, b, 1), inside_leaf(air, b, -1));
    let (aux, commit) = (b == air.s_m_aux_term(), starts_commit(air, b));
    &&& !(ends && first)
    &&& !((ends || first) && second)
    &&& first_of(air) < 0 ==> !((ends || first || second) && front)
    &&& air.is_zk == 1 ==> !((ends || first || second || front) && commit)
    &&& air.s_is_lookup() ==> !((ends || first || second || front) && aux)
}

#[verifier::spinoff_prover]
#[verifier::rlimit(40)]
proof fn lemma_marks_apart(air: MonolithAir, b: int, o: int)
    requires
        air.wf(),
        first_of(air) <= o < 2 + air.s_cm_rounds(),
        head_of(air, o) <= b <= end_of(air, o),
    ensures
        marks_apart(air, b),
{
    lemma_openings_chain(air, o);
    lemma_ends_of(air, b, o, air.s_cm_rounds());
    lemma_starts_of(air, b, o);
    if o != 0 {
        lemma_elsewhere(air, b, o, 0);
    }
    if o != 1 {
        lemma_elsewhere(air, b, o, 1);
    }
    if first_of(air) < 0 && o != -1 {
        lemma_elsewhere(air, b, o, -1);
    }
    if air.is_zk == 1 && o >= 2 {
        assert(leaf_of(air, o) == 2);
    }
}

/// The links leave out exactly the blocks that end an opening and those inside a leaf.
#[verifier::spinoff_prover]
#[verifier::rlimit(60)]
proof fn lemma_exclusions_value(air: MonolithAir, win: Window, t: int, r: int)
    requires
        air.wf(),
        shows_selectors(air, win, air.s_tile(t) + r),
        0 <= t < air.n_queries,
        32 <= r < air.s_m_period(),
        r % 32 == 31,
    ensures
        value(air.s_link_exclusions(), win) == mark(excluded(air, r / 32)),
{
    let b = r / 32;
    let n = air.s_cm_rounds();
    lemma_columns_stand(air);
    lemma_openings_chain(air, first_of(air));
    let o = lemma_place(air, b);
    lemma_openings_chain(air, 0);
    lemma_openings_chain(air, 1);
    lemma_terminals_value(air, win, t, r, o, n);
    lemma_marks_apart(air, b, o);
    lemma_boundaries(air, win, t, r);
    lemma_front_selectors(air, win, t, r);
    let t0 = air.s_terminals(n);
    let (x, y, z) = (ends_one(air, b, n), inside_leaf(air, b, 0), inside_leaf(air, b, 1));
    let t1 = if air.s_leaf_blocks() > 1 {
        w_plus(t0, w_per(air.s_in_boundary()))
    } else {
        t0
    };
    if air.s_leaf_blocks() > 1 {
        lemma_mark_more(t0, air.s_in_boundary(), x, y, win);
    }
    assert(value(t1, win) == mark(x || y));
    let t2 = if air.s_quot_leaf_blocks() > 1 {
        w_plus(t1, w_per(air.s_q_boundary()))
    } else {
        t1
    };
    if air.s_quot_leaf_blocks() > 1 {
        lemma_mark_more(t1, air.s_q_boundary(), x || y, z, win);
    }
    assert(value(t2, win) == mark(x || y || z));
    let front = inside_leaf(air, b, -1);
    if air.is_zk == 1 {
        let t3 = w_plus(t2, w_per(air.s_p_random_boundary()));
        lemma_mark_more(t2, air.s_p_random_boundary(), x || y || z, front, win);
        lemma_mark_more(t3, air.s_c_bnd(), x || y || z || front, starts_commit(air, b), win);
        assert(air.s_link_exclusions() == w_plus(t3, w_per(air.s_c_bnd())));
    } else if air.s_is_lookup() {
        let t4 = w_plus(t2, w_per(air.s_p_aux_term()));
        lemma_mark_more(t2, air.s_p_aux_term(), x || y || z, b == air.s_m_aux_term(), win);
        if air.s_aux_leaf_blocks() > 1 {
            lemma_mark_more(t4, air.s_p_aux_boundary(), x || y || z || b == air.s_m_aux_term(), front, win);
            assert(air.s_link_exclusions() == w_plus(t4, w_per(air.s_p_aux_boundary())));
        } else {
            assert(air.s_link_exclusions() == t4);
        }
    } else {
        assert(air.s_link_exclusions() == t2);
    }
}

/// The switch of the links on a row of a super-tile behind its first block.
#[verifier::rlimit(30)]
pub(super) proof fn lemma_link_value(air: MonolithAir, win: Window, t: int, r: int)
    requires
        air.wf(),
        shows_selectors(air, win, air.s_tile(t) + r),
        0 <= t < air.n_queries,
        32 <= r < air.s_m_period(),
        win.periodic[11] == mark(r % 32 == 31),
    ensures
        value(air.s_link_gate(), win) == mark(r % 32 == 31 && r != air.s_m_period() - 1 && !excluded(air, r / 32)),
{
    lemma_columns_stand(air);
    lemma_more_selectors(air, win, t, r);
    let one = w_const(1);
    let (m, l, s) = (w_per(air.s_s_merkle()), w_per(11), w_per(air.s_p_st_last()));
    let (no_last, no_skip) = (w_minus(one, s), w_minus(one, air.s_link_exclusions()));
    lemma_leaf_values(air.s_s_merkle(), win);
    lemma_leaf_values(11, win);
    lemma_leaf_values(air.s_p_st_last(), win);
    lemma_const_value(1, win);
    lemma_op_values(m, l, win);
    lemma_op_values(one, s, win);
    lemma_op_values(w_times(m, l), no_last, win);
    lemma_op_values(one, air.s_link_exclusions(), win);
    lemma_op_values(w_times(w_times(m, l), no_last), no_skip, win);
    assert(air.s_link_gate() == w_times(w_times(w_times(m, l), no_last), no_skip));
    if r % 32 != 31 {
        lemma_zero_product(m, l, win);
        lemma_zero_product(w_times(m, l), no_last, win);
        lemma_zero_product(w_times(w_times(m, l), no_last), no_skip, win);
    } else {
        lemma_exclusions_value(air, win, t, r);
        lemma_gates(1);
        lemma_gates(0);
    }
}

/// On every row of a built super-tile the links of the paths hold.
#[verifier::spinoff_prover]
#[verifier::rlimit(60)]
pub proof fn law_built_links(air: MonolithAir, g: Seq<u64>, t: int, q: QueryData, r: int, win: Window)
    requires
        air.wf(),
        0 <= t < air.n_queries,
        tile_built(air, g, air.s_tile(t), q),
        13 <= air.s_fold_w(),
        0 <= r < air.s_m_period(),
        win.cur == row_at(g, air.s_fold_w(), air.s_tile(t) + r),
        r < air.s_m_period() - 1 ==> win.nxt == row_at(g, air.s_fold_w(), air.s_tile(t) + r + 1),
        r < air.s_m_period() - 1 ==> win.is_transition == 1,
        shows_selectors(air, win, air.s_tile(t) + r),
        win.periodic[11] == mark(r % 32 == 31),
    ensures
        vanish(flat(4, air.f_link()), win),
{
    let row = air.s_tile(t);
    lemma_columns_stand(air);
    lemma_more_selectors(air, win, t, r);
    if r < 32 {
        super::quiet::lemma_no_link(air, win);
    } else {
        let b = r / 32;
        lemma_link_value(air, win, t, r);
        lemma_openings_chain(air, first_of(air));
        if value(air.s_link_gate(), win) == 0 {
            lemma_flat_off(4, air.f_link(), win);
        } else {
            let o = lemma_place(air, b);
            lemma_openings_chain(air, o);
            lemma_opening_stands_at(air, g, row, q, o);
            lemma_not_inside(air, b, o);
            let (pre, path) = (preimage_of(air, q, o), path_of(q, o));
            assert(row + 32 * head_of(air, o) + 32 * (b - head_of(air, o)) + 31 == row + r);
            law_built_path_links(
                air,
                g,
                air.s_fold_w(),
                row + 32 * head_of(air, o),
                pre,
                contents(path.siblings@),
                path.bits@,
                b - head_of(air, o),
                win,
            );
        }
    }
}

/// A block that the links do not leave out lies behind the leaf of its opening and has a successor in it.
proof fn lemma_not_inside(air: MonolithAir, b: int, o: int)
    requires
        air.wf(),
        first_of(air) <= o < 2 + air.s_cm_rounds(),
        head_of(air, o) <= b <= end_of(air, o),
        !excluded(air, b),
    ensures
        head_of(air, o) + leaf_of(air, o) - 1 <= b < end_of(air, o),
{
    lemma_ends_of(air, b, o, air.s_cm_rounds());
    lemma_starts_of(air, b, o);
    if o >= 2 {
        assert(leaf_of(air, o) == if air.is_zk == 1 {
            2int
        } else {
            1
        });
    }
}

/// A block with a successor in its opening, behind the leaf, is not left out by the links.
#[verifier::rlimit(30)]
pub(super) proof fn lemma_not_excluded(air: MonolithAir, o: int, b: int)
    requires
        air.wf(),
        first_of(air) <= o < 2 + air.s_cm_rounds(),
        head_of(air, o) + leaf_of(air, o) - 1 <= b < end_of(air, o),
    ensures
        !excluded(air, b),
{
    lemma_openings_chain(air, o);
    lemma_ends_of(air, b, o, air.s_cm_rounds());
    lemma_starts_of(air, b, o);
    if o != 0 {
        lemma_elsewhere(air, b, o, 0);
    }
    if o != 1 {
        lemma_elsewhere(air, b, o, 1);
    }
    if first_of(air) < 0 && o != -1 {
        lemma_elsewhere(air, b, o, -1);
    }
    if air.is_zk == 1 && o >= 2 {
        assert(leaf_of(air, o) == 2);
    }
}

/// On the last row of a block the permutation constraints are idle.
#[verifier::rlimit(30)]
pub(super) proof fn lemma_idle_steps(col0: int, gate: Wire, win: Window)
    requires
        forall|j: int| 0 <= j < 11 ==> #[trigger] win.periodic[j] == schedule(j, 31),
    ensures
        vanish(steps(col0, gate), win),
{
    let cs = steps(col0, gate);
    assert(win.periodic[0] == 0 && win.periodic[1] == 0 && win.periodic[2] == 0);
    lemma_leaf_values(0, win);
    lemma_leaf_values(1, win);
    lemma_leaf_values(2, win);
    assert forall|i: int| 0 <= i < cs.len() implies value(#[trigger] cs[i], win) == 0 by {
        let e = super::arith::step_wire(col0, i);
        let next = crate::expr::w_nxt(col0 + i);
        let a = w_minus(next, crate::poseidon::w_ext_layer(super::arith::lanes(col0))[i]);
        let b = w_minus(next, crate::poseidon::w_ext_layer(super::arith::full_lanes(col0))[i]);
        let c = w_minus(next, crate::poseidon::w_int_layer(super::arith::partial_lanes(col0))[i]);
        lemma_zero_product(w_per(0), a, win);
        lemma_zero_product(w_per(1), b, win);
        lemma_zero_product(w_per(2), c, win);
        lemma_op_values(w_times(w_per(0), a), w_times(w_per(1), b), win);
        lemma_op_values(w_plus(w_times(w_per(0), a), w_times(w_per(1), b)), w_times(w_per(2), c), win);
        assert(e == w_plus(w_plus(w_times(w_per(0), a), w_times(w_per(1), b)), w_times(w_per(2), c)));
        lemma_zero_product(gate, e, win);
        let on: Wire = std::sync::Arc::new(crate::expr::Expr::IsTransition);
        lemma_zero_product(on, w_times(gate, e), win);
        assert(cs[i] == w_times(on, w_times(gate, e)));
    }
}

/// On every row of a built super-tile the permutation constraints vanish.
#[verifier::rlimit(30)]
pub proof fn law_built_tile_steps(air: MonolithAir, g: Seq<u64>, t: int, q: QueryData, r: int, win: Window)
    requires
        air.wf(),
        0 <= t < air.n_queries,
        tile_built(air, g, air.s_tile(t), q),
        13 <= air.s_fold_w(),
        0 <= r < air.s_m_period(),
        win.cur == row_at(g, air.s_fold_w(), air.s_tile(t) + r),
        r < air.s_m_period() - 1 ==> win.nxt == row_at(g, air.s_fold_w(), air.s_tile(t) + r + 1),
        r < air.s_m_period() - 1 ==> win.is_transition == 1,
        shows_selectors(air, win, air.s_tile(t) + r),
        forall|j: int| 0 <= j < 11 ==> #[trigger] win.periodic[j] == schedule(j, r % 32),
    ensures
        vanish(steps(0, air.s_permutation_rows()), win),
{
    let row = air.s_tile(t);
    let gate = air.s_permutation_rows();
    lemma_columns_stand(air);
    lemma_more_selectors(air, win, t, r);
    lemma_leaf_values(air.s_s_trans(), win);
    lemma_leaf_values(air.s_s_merkle(), win);
    lemma_op_values(w_per(air.s_s_trans()), w_per(air.s_s_merkle()), win);
    lemma_openings_chain(air, first_of(air));
    if r < 32 {
        assert(value(gate, win) == 0);
        lemma_off(steps(0, gate), win);
    } else if r % 32 == 31 {
        lemma_idle_steps(0, gate, win);
    } else {
        let b = r / 32;
        let o = lemma_place(air, b);
        lemma_openings_chain(air, o);
        lemma_opening_stands_at(air, g, row, q, o);
        let (pre, path) = (preimage_of(air, q, o), path_of(q, o));
        let sibs = contents(path.siblings@);
        let k = b - head_of(air, o);
        lemma_opening_block_len(pre, sibs, path.bits@, k);
        let at = row + 32 * head_of(air, o) + 32 * k;
        assert(at + r % 32 == row + r);
        assert(block_holds(
            g,
            air.s_fold_w(),
            at,
            opening_block(pre, sibs, path.bits@, k),
            opening_tail(pre, sibs, path.bits@, k),
        ));
        law_built_block_steps(
            g,
            air.s_fold_w(),
            at,
            opening_block(pre, sibs, path.bits@, k),
            opening_tail(pre, sibs, path.bits@, k),
            gate,
            win,
            r % 32,
        );
    }
}

} // verus!
