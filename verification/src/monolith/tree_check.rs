//! The out-of-domain check of an inner without lookups, hiding or not, is the constraint identity at its opened values.

use vstd::prelude::*;

use super::epilogue::s_agree;
use super::eval::{no_lookup, InlineBci};
use super::identity::{
    law_fold_is_verification, law_head_row_identity, law_head_row_squares, lemma_selector_wires, lemma_value2_canonical,
    openings_carried, partial_folds_held, squares_held,
};
use super::index::{at_head, lemma_head_gate};
use super::layout::MonolithAir;
use super::lookup_check::{
    lemma_head_selectors, lemma_inverse_factor, lemma_openings_carried, lemma_selectors_reduced, lemma_vanishing_reduced,
    selectors_held,
};
use super::ood::lemma_column_wires;
use super::parts::{law_window_parts, parts_fit, spelled, WindowParts};
use super::terms::{
    law_challenges_read, law_points_read, law_quotient_read, law_term_order, points_held, terms_fit, terms_held,
    weights_of, TermParts,
};
use super::tops::reads_window;
use super::window::last_row_selected;
use crate::expr::{
    law_plus_minus_value, law_times_value, value, value2, w2, w2_cur, w2_plus, w2_times, w_const, w_minus, w_per, Wire,
    Window,
};
use crate::field::{
    f_red, lemma_x_mul_red, x_add, x_base, x_inv, x_mul, x_one, x_red, x_same, x_square_times, x_sub, x_zero, Ext,
};
use crate::lookup::quotient::lifted;
use crate::stark::domain::{last_point, next_point, recomposed, selectors, vanishing};
use crate::stark::verify::folded_constraints;
use crate::symbolic::{carries, NativeLookupView, NativeView};
use crate::vanish::{lemma_const_value, lemma_pair_equation, lemma_vanish_parts, vanish};

verus! {

/// What the constraints of the inner read: of the opened row pair the columns without the codewords, the public and the
/// periodic values, and the selectors of the traced domain.
pub open spec fn opened_view(air: MonolithAir, p: WindowParts, t: TermParts, zeta: Ext, log: nat) -> NativeView {
    let sel = selectors(zeta, log);
    NativeView {
        local: t.local.take(air.s_w_inner()),
        next: t.next.take(air.s_w_inner()),
        pubs: lifted(p.publics),
        periodic: p.periodic,
        is_first: sel.is_first_row,
        is_last: sel.is_last_row,
        is_trans: sel.is_transition,
    }
}

/// Nothing of lookups.
pub open spec fn nothing_looked_up() -> NativeLookupView {
    NativeLookupView {
        perm_local: Seq::empty(),
        perm_next: Seq::empty(),
        challenges: Seq::empty(),
        perm_values: Seq::empty(),
    }
}

/// A fold does not depend on the representative of its challenge.
proof fn lemma_fold_challenge(cs: Seq<Wire>, o: NativeView, alpha: Ext, n: nat)
    ensures
        folded_constraints(cs, o, x_red(alpha), n) == folded_constraints(cs, o, alpha, n),
    decreases n,
{
    if n > 0 {
        let m = (n - 1) as nat;
        lemma_fold_challenge(cs, o, alpha, m);
        let f = folded_constraints(cs, o, alpha, m);
        lemma_x_mul_red(f, alpha);
        lemma_x_mul_red(f, x_red(alpha));
        assert(x_red(x_red(alpha)) == x_red(alpha));
    }
}

/// The fold check over openings that are carried.
#[verifier::spinoff_prover]
#[verifier::rlimit(40)]
proof fn lemma_carried_check(air: MonolithAir, no: NativeView, alpha: Ext, inv: Ext, quot: Ext, win: Window)
    requires
        air.wf(),
        air.trees_ok(),
        !air.narrow_openings,
        air.lookup is None,
        at_head(air, win),
        carries(air.s_openings_view(), no, win),
        value2(air.s_alpha_stark(), win) == x_red(alpha),
        value2(w2_cur(air.s_sel(4)), win) == x_red(inv),
        value2(air.s_checked_quotient(), win) == quot,
    ensures
        vanish(air.s_tree_check(InlineBci), win) <==> {
            &&& vanish(air.s_selectors(), win)
            &&& partial_folds_held(air, no, nothing_looked_up(), air.constraints@.len() as int, win)
            &&& x_same(x_mul(folded_constraints(air.constraints@, no, alpha, air.constraints@.len()), inv), quot)
        },
{
    let n = air.constraints@.len() as int;
    let (o, l, nl) = (air.s_openings_view(), no_lookup(), nothing_looked_up());
    assert(openings_carried(air, o, l, no, nl, n, win)) by {
        assert forall|k: int| 0 <= k < n && k < air.constraints@.len() implies o.reads(
            #[trigger] air.constraints@[k],
        ) by {}
    }
    let inv_van = w2_cur(air.s_sel(4));
    law_head_row_identity(air, o, l, no, nl, n, inv_van, air.s_checked_quotient(), win);
    law_fold_is_verification(air, no, nl, x_red(alpha), n as nat);
    lemma_fold_challenge(air.constraints@, no, alpha, n as nat);
    lemma_inverse_factor(folded_constraints(air.constraints@, no, alpha, n as nat), inv);
    lemma_value2_canonical(air.s_checked_quotient(), win);
    let check = air.s_fold_check(o, l, n, inv_van, air.s_checked_quotient());
    assert(air.s_tree_check(InlineBci) == air.s_selectors() + check);
    lemma_vanish_parts(air.s_selectors(), check, win);
}

/// What a head row witnesses beside the opened values.
pub open spec fn tree_witness(air: MonolithAir, p: WindowParts, t: TermParts, win: Window) -> bool {
    let zeta = p.challenges[1];
    let log = (air.binds@.len() - 3 - air.is_zk) as nat;
    &&& air.column_window ==> squares_held(air, win)
    &&& selectors_held(air, selectors(zeta, log), win)
    &&& partial_folds_held(
        air,
        opened_view(air, p, t, zeta, log),
        nothing_looked_up(),
        air.constraints@.len() as int,
        win,
    )
    &&& points_held(air, t, zeta, next_point(zeta, log), win)
}

/// The constraint identity of the inner at its opened values: the constraints folded under the first challenge, over the
/// vanishing polynomial of the traced domain, which is half of the committed one where the inner hides, are the quotient that
/// is recomposed from its chunks.
pub open spec fn tree_identity(air: MonolithAir, p: WindowParts, t: TermParts) -> bool {
    let (alpha, zeta) = (p.challenges[0], p.challenges[1]);
    let log = (air.binds@.len() - 3 - air.is_zk) as nat;
    x_same(
        x_mul(
            folded_constraints(
                air.constraints@,
                opened_view(air, p, t, zeta, log),
                alpha,
                air.constraints@.len(),
            ),
            x_inv(vanishing(zeta, log)),
        ),
        recomposed(weights_of(air, p), t.chunks, t.chunks.len()),
    )
}

/// For an inner given by its constraint trees, hiding or not, the out-of-domain constraints of a head row that reads the parts
/// of a proof and holds its opened values vanish exactly if the row's witness is right and the constraint identity holds.
#[verifier::spinoff_prover]
#[verifier::rlimit(60)]
pub proof fn law_tree_check_is_identity(air: MonolithAir, p: WindowParts, t: TermParts, win: Window)
    requires
        air.wf(),
        air.trees_ok(),
        air.lookup is None,
        air.constraints@.len() > 0,
        !air.narrow_openings,
        !air.narrow_arith,
        air.is_zk < air.binds@.len() - 3,
        at_head(air, win),
        parts_fit(air, p),
        terms_fit(air, t),
        reads_window(air, win, spelled(p)),
        terms_held(air, t, win),
        !x_same(vanishing(p.challenges[1], (air.binds@.len() - 3 - air.is_zk) as nat), x_zero()),
    ensures
        vanish(air.s_ood(InlineBci), win) ==> tree_witness(air, p, t, win) && tree_identity(air, p, t),
        tree_witness(air, p, t, win) && tree_identity(air, p, t) && last_row_selected(
            p.challenges[1],
            (air.binds@.len() - 3 - air.is_zk) as nat,
        ) ==> vanish(air.s_ood(InlineBci), win),
{
    let (alpha, zeta) = (p.challenges[0], p.challenges[1]);
    let log = (air.binds@.len() - 3 - air.is_zk) as nat;
    let (squares, check, points) = (air.all_squaring(), air.s_tree_check(InlineBci), air.all_term_points());
    assert(air.s_ood(InlineBci) == squares + check + points);
    law_challenges_read(air, p, win, 0);
    law_points_read(air, t, win, zeta);
    law_quotient_read(air, p, t, win, t.chunks.len());
    lemma_head_selectors(air, zeta, log, win);
    lemma_vanish_parts(squares, check, win);
    lemma_vanish_parts(squares + check, points, win);
    let fold = air.s_fold_check(
        air.s_openings_view(),
        no_lookup(),
        air.constraints@.len() as int,
        w2_cur(air.s_sel(4)),
        air.s_checked_quotient(),
    );
    assert(check == air.s_selectors() + fold);
    lemma_vanish_parts(air.s_selectors(), fold, win);
    let no = opened_view(air, p, t, zeta, log);
    let quot = recomposed(weights_of(air, p), t.chunks, t.chunks.len());
    if vanish(squares, win) && selectors_held(air, selectors(zeta, log), win) {
        lemma_selectors_reduced(zeta, log);
        lemma_openings_carried(air, t, p, no, win);
        lemma_carried_check(air, no, alpha, selectors(zeta, log).inv_vanishing, quot, win);
    }
}

/// The identity of a single column that stays constant or counts up, with its denominators cleared: the first row's
/// constraint under the first challenge and the step's constraint against the recomposed quotient.
pub open spec fn column_identity(air: MonolithAir, p: WindowParts, t: TermParts) -> bool {
    let (alpha, zeta) = (p.challenges[0], p.challenges[1]);
    let log = (air.binds@.len() - 3 - air.is_zk) as nat;
    let z = vanishing(zeta, log);
    let off = x_sub(zeta, x_one());
    let step: u64 = if air.inner_counter {
        1
    } else {
        0
    };
    let starts = x_sub(t.local[0], x_base(p.publics[0]));
    let steps = x_sub(t.next[0], x_add(t.local[0], x_base(step)));
    let quot = recomposed(weights_of(air, p), t.chunks, t.chunks.len());
    x_add(x_mul(x_mul(z, alpha), starts), x_mul(x_mul(x_sub(zeta, last_point(log)), off), steps)) == x_mul(
        x_mul(z, off),
        quot,
    )
}

/// For an inner of a single column, hiding or not, the out-of-domain constraints of a head row that reads the parts of a proof
/// and holds its opened values vanish exactly if the row has the squares and the points and the column's identity holds.
#[verifier::spinoff_prover]
#[verifier::rlimit(60)]
pub proof fn law_column_check_is_identity(air: MonolithAir, p: WindowParts, t: TermParts, win: Window)
    requires
        air.wf(),
        air.trees_ok(),
        air.lookup is None,
        air.constraints@.len() == 0,
        !air.narrow_openings,
        !air.narrow_arith,
        air.is_zk < air.binds@.len() - 3,
        at_head(air, win),
        parts_fit(air, p),
        terms_fit(air, t),
        reads_window(air, win, spelled(p)),
        terms_held(air, t, win),
    ensures
        vanish(air.s_ood(InlineBci), win) <==> {
            &&& air.column_window ==> squares_held(air, win)
            &&& points_held(
                air,
                t,
                p.challenges[1],
                next_point(p.challenges[1], (air.binds@.len() - 3 - air.is_zk) as nat),
                win,
            )
            &&& column_identity(air, p, t)
        },
{
    let zeta = p.challenges[1];
    let (squares, check, points) = (air.all_squaring(), air.s_one_column(), air.all_term_points());
    assert(air.s_ood(InlineBci) == squares + check + points);
    air.lemma_bounds();
    law_challenges_read(air, p, win, 0);
    law_points_read(air, t, win, zeta);
    law_head_row_squares(air, win);
    lemma_vanish_parts(squares, check, win);
    lemma_vanish_parts(squares + check, points, win);
    if vanish(squares, win) {
        lemma_column_check(air, p, t, win);
    }
}

#[verifier::spinoff_prover]
#[verifier::rlimit(60)]
proof fn lemma_column_check(air: MonolithAir, p: WindowParts, t: TermParts, win: Window)
    requires
        air.wf(),
        air.trees_ok(),
        air.lookup is None,
        air.constraints@.len() == 0,
        air.is_zk < air.binds@.len() - 3,
        at_head(air, win),
        parts_fit(air, p),
        terms_fit(air, t),
        reads_window(air, win, spelled(p)),
        terms_held(air, t, win),
        value2(air.s_power_at_size(), win) == x_square_times(value2(air.s_zeta(), win), air.s_cdb() as nat),
    ensures
        vanish(air.s_one_column(), win) <==> column_identity(air, p, t),
{
    let (alpha, zeta) = (p.challenges[0], p.challenges[1]);
    let log = air.s_cdb() as nat;
    let tf = w_per(air.s_m_tf());
    let step: u64 = if air.inner_counter {
        1
    } else {
        0
    };
    let (local, next, pv) = (t.local[0], t.next[0], p.publics[0]);
    lemma_head_gate(air, win);
    law_challenges_read(air, p, win, 0);
    law_quotient_read(air, p, t, win, t.chunks.len());
    law_window_parts(air, p);
    assert(t.chunks[0]@.len() >= 2);
    law_term_order(air, t, 0, 0, 0);
    lemma_selector_wires(air, win);
    lemma_vanishing_reduced(zeta, log);
    super::heads::lemma_difference_reduced(zeta, x_one());
    super::heads::lemma_difference_reduced(zeta, last_point(log));
    let (lw, nw) = (w2_cur(air.s_pz(air.s_trm_trace(0))), w2_cur(air.s_pz(air.s_trm_next(0))));
    let pi = air.s_pi(air.s_pub_pi());
    let at = air.s_pub_pi();
    assert(spelled(p).subrange(at, at + p.publics.len())[0] == spelled(p)[at]);
    assert(value(pi, win) == f_red(pv as int));
    let sw = w_const(step);
    lemma_const_value(0, win);
    lemma_const_value(1, win);
    let lm = w2(w_minus(lw.a, pi), lw.b);
    let nl = w2(w_minus(w_minus(nw.a, lw.a), sw), w_minus(nw.b, lw.b));
    lemma_column_wires(lw, nw, pi, sw, local, next, pv, step, win);
    let (zh, za, it, zm1) = (air.s_z_h(), air.s_alpha_stark(), air.s_is_trans(), air.s_zeta_minus_one());
    let quot = air.s_quotient(air.s_nqc());
    law_times_value(zh, za, win);
    law_times_value(w2_times(zh, za), lm, win);
    law_times_value(it, zm1, win);
    law_times_value(w2_times(it, zm1), nl, win);
    law_times_value(zh, zm1, win);
    law_times_value(w2_times(zh, zm1), quot, win);
    lemma_inverse_factor(vanishing(zeta, log), alpha);
    let (a, b) = (w2_times(w2_times(zh, za), lm), w2_times(w2_times(it, zm1), nl));
    law_plus_minus_value(a, b, win);
    let rhs = w2_times(w2_times(zh, zm1), quot);
    lemma_pair_equation(tf, w2_plus(a, b), rhs, win);
    assert(air.s_one_column() == s_agree(tf, w2_plus(a, b), rhs));
}

} // verus!
