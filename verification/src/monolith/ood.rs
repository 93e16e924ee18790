//! The head rows of an accepted proof's instance satisfy the out-of-domain check.

use vstd::arithmetic::power2::pow2;
use vstd::prelude::*;

use super::epilogue::s_agree;
use super::eval::{no_lookup, InlineBci};
use super::heads::{head_written, lemma_head_term};
use super::identity::{
    folded_at, law_fold_is_verification, law_head_row_identity, law_head_row_squares, lemma_selector_equations,
    lemma_selector_wires, lemma_value2_canonical, openings_carried, squares_held,
};
use super::index::{at_head, lemma_head_gate};
use super::layout::{MonolithAir, FOLD_CHUNK};
use super::meaning::lemma_pair_cells;
use super::pairs::plain_rounds;
use super::tops::reads_window;
use super::trace::{square_chain, QueryData};
use super::window::{fold_marks, last_row_selected};
use crate::expr::{
    law_plus_minus_value, law_times_value, value, value2, w2, w2_combine, w2_cur, w2_plus, w2_times, w_const, w_minus,
    w_per, w_times, Window, Wire, Wire2,
};
use crate::field::{
    f_add, f_mul, f_red, f_sub, lemma_x_distribute, lemma_x_mul_assoc, lemma_x_mul_comm, lemma_x_mul_one, lemma_x_mul_red,
    two_adic_root, x_add, x_base, x_inv, x_mul, x_one, x_red, x_same, x_square_times, x_sub, x_zero, Ext, W_EXT,
};
use crate::gadgets::fold::coords;
use crate::prime::law_extension_is_a_field;
use crate::stark::domain::{
    chunk_value, last_point, lemma_off_ends, lemma_square_times_same, lemma_vanishing_canonical, next_point, recomposed,
    selectors, vanishing, x_gen,
};
use crate::stark::verify::folded_constraints;
use crate::symbolic::{carries, NativeView};
use crate::vanish::{
    lemma_const_value, lemma_op_values, lemma_pair_equation, lemma_pair_value, lemma_scaled, lemma_vanish_flat,
    lemma_vanish_parts, pair_at, vanish,
};

verus! {

/// Squares of a representative are those of the element.
pub(super) proof fn lemma_square_chain(z: Ext, n: nat)
    ensures
        n > 0 ==> square_chain(z, n) == x_square_times(z, n),
        x_red(x_square_times(z, n)) == x_square_times(z, n),
        x_square_times(x_red(z), n) == x_square_times(z, n),
    decreases n,
{
    lemma_square_times_same(x_red(z), z, n);
    if n > 0 {
        lemma_square_chain(z, (n - 1) as nat);
        let (a, b) = (square_chain(z, (n - 1) as nat), x_square_times(z, (n - 1) as nat));
        if n == 1 {
            assert(b == x_red(z));
            lemma_x_mul_red(z, z);
        }
        lemma_x_mul_red(b, b);
    }
}

/// The squares in a run, one by one.
pub(super) proof fn lemma_squares_at(air: MonolithAir, z: Ext, n: nat, i: nat, k: int)
    requires
        1 <= i <= n,
        0 <= k < 2,
    ensures
        air.s_squares(z, n).len() == 2 * n,
        air.s_squares(z, n)[2 * (i - 1) + k] == coords(square_chain(z, i))[k],
    decreases n,
{
    let m = (n - 1) as nat;
    air.lemma_squares_len(z, m);
    if i < n {
        lemma_squares_at(air, z, m, i, k);
    }
}

/// The values of the point and of the constraint challenge on a row that reads the window.
pub(super) proof fn lemma_point_values(air: MonolithAir, win: Window, window: Seq<u64>)
    requires
        air.wf(),
        plain_rounds(air),
        reads_window(air, win, window),
    ensures
        value2(air.s_zeta(), win) == pair_at(window, 2),
        value2(air.s_alpha_stark(), win) == pair_at(window, 0),
        4 <= air.s_pis_count(),
{
    air.lemma_bounds();
    assert(value(air.s_pi(0), win) == f_red(window[0] as int));
    assert(value(air.s_pi(1), win) == f_red(window[1] as int));
    assert(value(air.s_pi(2), win) == f_red(window[2] as int));
    assert(value(air.s_pi(3), win) == f_red(window[3] as int));
}

/// The chain of squares of a built head row.
pub(super) proof fn lemma_built_squares(air: MonolithAir, win: Window, window: Seq<u64>, zeta: Ext)
    requires
        air.wf(),
        plain_rounds(air),
        at_head(air, win),
        reads_window(air, win, window),
        pair_at(window, 2) == x_red(zeta),
        air.column_window ==> forall|j: int|
            0 <= j < 2 * air.s_cm_rounds() ==> win.cur[#[trigger] air.s_sch(j)] == air.s_squares(
                zeta,
                air.s_cm_rounds() as nat,
            )[j],
    ensures
        vanish(air.all_squaring(), win),
        value2(air.s_power_at_size(), win) == x_square_times(zeta, air.s_cdb() as nat),
        value2(air.s_zeta(), win) == x_red(zeta),
{
    air.lemma_bounds();
    lemma_point_values(air, win, window);
    lemma_square_chain(zeta, air.s_cdb() as nat);
    if air.column_window {
        assert forall|i: int| 0 < i <= air.s_cdb() implies value2(#[trigger] air.s_chain_at(i), win) == x_square_times(
            value2(air.s_zeta(), win),
            i as nat,
        ) by {
            let n = air.s_cm_rounds() as nat;
            lemma_squares_at(air, zeta, n, i as nat, 0);
            lemma_squares_at(air, zeta, n, i as nat, 1);
            lemma_square_chain(zeta, i as nat);
            let c = air.s_sch(2 * (i - 1));
            assert(win.cur[air.s_sch(2 * (i - 1) + 0)] == air.s_squares(zeta, n)[2 * (i - 1) + 0]);
            assert(win.cur[air.s_sch(2 * (i - 1) + 1)] == air.s_squares(zeta, n)[2 * (i - 1) + 1]);
            lemma_pair_cells(win.cur, c, square_chain(zeta, i as nat));
            lemma_pair_value(c, win);
        }
        assert(squares_held(air, win));
    }
    law_head_row_squares(air, win);
}

/// A pair of wires scaled by a constant.
pub(super) proof fn lemma_scaled_wires(p: Wire2, root: u64, zeta: Ext, win: Window)
    requires
        value2(p, win) == x_red(zeta),
    ensures
        value2(w2(w_times(p.a, w_const(root)), w_times(p.b, w_const(root))), win) == x_mul(zeta, x_base(root)),
        x_red(x_mul(zeta, x_base(root))) == x_mul(zeta, x_base(root)),
{
    let g = w_const(root);
    lemma_op_values(p.a, g, win);
    lemma_op_values(p.b, g, win);
    assert(value(g, win) == f_red(root as int));
    let (a, b) = (value(p.a, win), value(p.b, win));
    lemma_scaled(x_red(zeta), root);
    assert(f_mul(a, f_red(root as int)) == f_mul(a, root)) by {
        vstd::arithmetic::div_mod::lemma_mul_mod_noop_right(a as int, root as int, crate::field::MODULUS as int);
    }
    assert(f_mul(b, f_red(root as int)) == f_mul(b, root)) by {
        vstd::arithmetic::div_mod::lemma_mul_mod_noop_right(b as int, root as int, crate::field::MODULUS as int);
    }
    lemma_x_mul_red(zeta, x_base(root));
    assert(x_red(x_base(root)) == x_base(root));
}

/// The point of one term on a built head row.
proof fn lemma_built_point(air: MonolithAir, win: Window, zeta: Ext, q: QueryData, k: int)
    requires
        air.wf(),
        plain_rounds(air),
        !air.narrow_arith,
        !air.narrow_openings,
        at_head(air, win),
        value2(air.s_zeta(), win) == x_red(zeta),
        head_written(air, win.cur, q),
        q.terms@.len() == air.n_terms,
        0 <= k < air.n_terms,
        q.terms@[k].z == (if air.s_at_next(k) {
            next_point(zeta, air.s_cdb() as nat)
        } else {
            zeta
        }),
    ensures
        vanish(air.s_term_point(k), win),
{
    let tf = w_per(air.s_m_tf());
    let z = q.terms@[k].z;
    let point = air.s_zeta();
    let root = two_adic_root(air.s_cdb() as nat);
    air.lemma_bounds();
    air.lemma_terms();
    lemma_head_gate(air, win);
    lemma_head_term(air, win.cur, q, k, 0);
    lemma_head_term(air, win.cur, q, k, 1);
    assert(air.s_z(k) + 9 <= air.s_tile_w());
    lemma_pair_cells(win.cur, air.s_z(k), z);
    lemma_pair_value(air.s_z(k), win);
    lemma_scaled_wires(point, root, zeta, win);
    let at = if air.s_at_next(k) {
        w2(w_times(point.a, w_const(root)), w_times(point.b, w_const(root)))
    } else {
        point
    };
    assert(value2(at, win) == x_red(z));
    lemma_pair_equation(tf, w2_cur(air.s_z(k)), at, win);
    assert(air.s_term_point(k) == s_agree(tf, w2_cur(air.s_z(k)), at));
}

/// The points of the terms on a built head row.
pub(super) proof fn lemma_built_points(air: MonolithAir, win: Window, zeta: Ext, q: QueryData)
    requires
        air.wf(),
        plain_rounds(air),
        !air.narrow_arith,
        !air.narrow_openings,
        at_head(air, win),
        value2(air.s_zeta(), win) == x_red(zeta),
        head_written(air, win.cur, q),
        q.terms@.len() == air.n_terms,
        forall|k: int|
            0 <= k < air.n_terms ==> (#[trigger] q.terms@[k]).z == (if air.s_at_next(k) {
                next_point(zeta, air.s_cdb() as nat)
            } else {
                zeta
            }),
    ensures
        vanish(air.all_term_points(), win),
{
    assert forall|k: int| 0 <= k < air.n_terms implies vanish(#[trigger] air.f_term_point()(k), win) by {
        assert(q.terms@[k].z == q.terms@[k].z);
        lemma_built_point(air, win, zeta, q, k);
    }
    lemma_vanish_flat(air.n_terms as int, air.f_term_point(), win);
}

/// z over d times d is z.
pub(super) proof fn lemma_over(z: Ext, d: Ext)
    requires
        x_red(z) == z,
        x_red(d) != x_zero(),
    ensures
        x_mul(x_mul(z, x_inv(d)), d) == z,
{
    law_extension_is_a_field(d);
    lemma_x_mul_assoc(z, x_inv(d), d);
    lemma_x_mul_one(z);
}

/// The witnessed selectors of a built head row.
pub(super) proof fn lemma_built_selectors(air: MonolithAir, win: Window, zeta: Ext)
    requires
        air.wf(),
        air.s_symbolic(),
        at_head(air, win),
        value2(air.s_power_at_size(), win) == x_square_times(zeta, air.s_cdb() as nat),
        value2(air.s_zeta(), win) == x_red(zeta),
        !x_same(vanishing(zeta, air.s_cdb() as nat), x_zero()),
        last_row_selected(zeta, air.s_cdb() as nat),
        pair_at(win.cur, air.s_sel(0)) == x_red(selectors(zeta, air.s_cdb() as nat).is_first_row),
        pair_at(win.cur, air.s_sel(2)) == x_red(selectors(zeta, air.s_cdb() as nat).is_last_row),
        pair_at(win.cur, air.s_sel(4)) == x_red(selectors(zeta, air.s_cdb() as nat).inv_vanishing),
    ensures
        vanish(air.s_selectors(), win),
        value2(air.s_is_trans(), win) == selectors(zeta, air.s_cdb() as nat).is_transition,
        value2(w2_cur(air.s_sel(0)), win) == selectors(zeta, air.s_cdb() as nat).is_first_row,
        value2(w2_cur(air.s_sel(2)), win) == selectors(zeta, air.s_cdb() as nat).is_last_row,
        value2(w2_cur(air.s_sel(4)), win) == selectors(zeta, air.s_cdb() as nat).inv_vanishing,
{
    let n = air.s_cdb() as nat;
    let sel = selectors(zeta, n);
    let z = vanishing(zeta, n);
    air.lemma_bounds();
    lemma_square_chain(zeta, n);
    lemma_selector_wires(air, win);
    lemma_selector_equations(air, win);
    lemma_vanishing_canonical(zeta, n);
    super::heads::lemma_difference_reduced(zeta, x_one());
    super::heads::lemma_difference_reduced(zeta, last_point(n));
    lemma_x_mul_red(z, x_inv(x_sub(zeta, x_one())));
    lemma_x_mul_red(z, x_inv(x_sub(zeta, last_point(n))));
    assert(x_red(z) != x_zero()) by {
        assert(x_red(x_zero()) == x_zero());
    }
    law_extension_is_a_field(z);
    lemma_not_one(zeta, n);
    lemma_over(z, x_sub(zeta, x_one()));
    lemma_pair_value(air.s_sel(0), win);
    lemma_pair_value(air.s_sel(2), win);
    lemma_pair_value(air.s_sel(4), win);
}

/// A point off the domain is not its first point.
pub(super) proof fn lemma_not_one(zeta: Ext, n: nat)
    requires
        !x_same(vanishing(zeta, n), x_zero()),
    ensures
        x_red(x_sub(zeta, x_one())) != x_zero(),
{
    assert(crate::field::f_square_times(1, n) == 1) by {
        crate::field::lemma_square_times_pow(1, n);
        crate::stark::domain::lemma_one_pow(pow2(n));
    }
    assert(f_mul(1, 1) == 1);
    lemma_off_ends(zeta, 1, 1, n);
    assert(x_red(x_zero()) == x_zero());
}

/// The opening of a term on a built head row.
pub(super) proof fn lemma_built_opening(air: MonolithAir, win: Window, q: QueryData, k: int)
    requires
        air.wf(),
        !air.narrow_arith,
        !air.narrow_openings,
        head_written(air, win.cur, q),
        q.terms@.len() == air.n_terms,
        0 <= k < air.n_terms,
    ensures
        value2(w2_cur(air.s_pz(k)), win) == x_red(q.terms@[k].pz),
{
    air.lemma_bounds();
    air.lemma_terms();
    lemma_head_term(air, win.cur, q, k, 2);
    lemma_head_term(air, win.cur, q, k, 3);
    assert(air.s_pz(k) == air.s_z(k) + 2);
    assert(air.s_px(k) <= air.s_idx_rem());
    lemma_pair_cells(win.cur, air.s_pz(k), q.terms@[k].pz);
    lemma_pair_value(air.s_pz(k), win);
}

/// Two coordinates recombined.
pub(super) proof fn lemma_combined(x: Wire2, y: Wire2, a: Ext, b: Ext, win: Window)
    requires
        value2(x, win) == x_red(a),
        value2(y, win) == x_red(b),
    ensures
        value2(w2_combine(x, y), win) == x_add(a, x_mul(b, x_gen())),
        x_red(x_add(a, x_mul(b, x_gen()))) == x_add(a, x_mul(b, x_gen())),
{
    let w7 = w_const(W_EXT);
    let p = w_times(w7, y.b);
    lemma_op_values(w7, y.b, win);
    lemma_op_values(x.a, p, win);
    lemma_op_values(x.b, y.a, win);
    assert(value(w7, win) == W_EXT);
    lemma_times_gen(b);
    lemma_sum_of_reduced(a.c0, f_mul(W_EXT, f_red(b.c1 as int)));
    lemma_sum_of_reduced(a.c1, f_red(b.c0 as int));
}

/// The first summand may be reduced first, and the sum is reduced.
proof fn lemma_sum_of_reduced(a: u64, b: u64)
    ensures
        f_add(f_red(a as int), b) == f_add(a, b),
        f_red(f_add(a, b) as int) == f_add(a, b),
{
    let m = crate::field::MODULUS as int;
    vstd::arithmetic::div_mod::lemma_add_mod_noop(f_red(a as int) as int, b as int, m);
    vstd::arithmetic::div_mod::lemma_add_mod_noop(a as int, b as int, m);
    vstd::arithmetic::div_mod::lemma_mod_twice(a as int, m);
}

/// A product with the generator of the extension.
proof fn lemma_times_gen(b: Ext)
    ensures
        x_mul(b, x_gen()) == (Ext { c0: f_mul(W_EXT, f_red(b.c1 as int)), c1: f_red(b.c0 as int) }),
{
    let (b0, b1) = (b.c0 as int, b.c1 as int);
    let m = crate::field::MODULUS as int;
    assert(b0 * 0 == 0 && b1 * 1 == b1 && b0 * 1 == b0 && b1 * 0 == 0);
    vstd::arithmetic::div_mod::lemma_mul_mod_noop_right(W_EXT as int, b1, m);
}

/// The quotient of a built head row is the quotient recomposed from the opened chunks.
#[verifier::spinoff_prover]
#[verifier::rlimit(40)]
pub(super) proof fn lemma_built_quotient(
    air: MonolithAir,
    win: Window,
    window: Seq<u64>,
    q: QueryData,
    weights: Seq<Ext>,
    chunks: Seq<Vec<Ext>>,
    n: nat,
)
    requires
        air.wf(),
        plain_rounds(air),
        !air.narrow_arith,
        !air.narrow_openings,
        reads_window(air, win, window),
        head_written(air, win.cur, q),
        q.terms@.len() == air.n_terms,
        n <= air.s_nqc() == chunks.len(),
        weights.len() == chunks.len(),
        forall|i: int, j: int|
            0 <= i < chunks.len() && 0 <= j < 2 ==> (#[trigger] q.terms@[air.s_trm_quot(i, j)]).pz == chunks[i]@[j],
        air.s_nqc() > 1 ==> air.s_symbolic() && forall|i: int|
            0 <= i < weights.len() ==> pair_at(window, air.s_qwt_base() + 2 * i) == x_red(#[trigger] weights[i]),
        air.s_nqc() == 1 ==> weights[0] == x_one(),
    ensures
        value2(air.s_quotient(n as int), win) == recomposed(weights, chunks, n),
    decreases n,
{
    if n == 0 {
        lemma_const_value(0, win);
    } else {
        let i = n - 1;
        lemma_built_quotient(air, win, window, q, weights, chunks, i as nat);
        air.lemma_bounds();
        air.lemma_terms();
        let (t0, t1) = (air.s_trm_quot(i, 0), air.s_trm_quot(i, 1));
        lemma_built_opening(air, win, q, t0);
        lemma_built_opening(air, win, q, t1);
        let (d0, d1) = (w2_cur(air.s_pz(t0)), w2_cur(air.s_pz(t1)));
        assert(q.terms@[t0].pz == chunks[i]@[0] && q.terms@[t1].pz == chunks[i]@[1]);
        lemma_combined(d0, d1, chunks[i]@[0], chunks[i]@[1], win);
        let chunk = w2_combine(d0, d1);
        let v = chunk_value(chunks[i]@);
        lemma_x_mul_one(v);
        lemma_x_mul_comm(x_one(), v);
        if air.s_nqc() > 1 {
            let c = air.s_qwt_base() + 2 * i;
            assert(0 <= c && c + 1 < air.s_pis_count());
            assert(value(air.s_pi(c), win) == f_red(window[c] as int));
            assert(value(air.s_pi(c + 1), win) == f_red(window[c + 1] as int));
            assert(pair_at(window, c) == x_red(weights[i]));
            law_times_value(air.s_pi2(c), chunk, win);
            lemma_x_mul_red(weights[i], v);
        }
        law_plus_minus_value(air.s_quotient(i), air.s_weighted_chunk(i), win);
    }
}

/// A fold does not depend on the representative of its challenge, and is reduced.
proof fn lemma_fold_reduced(cs: Seq<Wire>, o: NativeView, alpha: Ext, n: nat)
    ensures
        folded_constraints(cs, o, x_red(alpha), n) == folded_constraints(cs, o, alpha, n),
        x_red(folded_constraints(cs, o, alpha, n)) == folded_constraints(cs, o, alpha, n),
    decreases n,
{
    if n > 0 {
        let m = (n - 1) as nat;
        lemma_fold_reduced(cs, o, alpha, m);
        let f = folded_constraints(cs, o, alpha, m);
        lemma_x_mul_red(f, alpha);
        lemma_x_mul_red(f, x_red(alpha));
        assert(x_red(x_red(alpha)) == x_red(alpha));
    }
}

/// The partial folds in a run, one by one.
pub(super) proof fn lemma_marks_at(cs: Seq<Wire>, o: NativeView, alpha: Ext, n: nat, i: nat, k: int)
    requires
        1 <= i <= n,
        0 <= k < 2,
    ensures
        fold_marks(cs, o, alpha, n).len() == 2 * n,
        fold_marks(cs, o, alpha, n)[2 * (i - 1) + k] == coords(
            folded_constraints(cs, o, alpha, (FOLD_CHUNK * i) as nat),
        )[k],
    decreases n,
{
    let m = (n - 1) as nat;
    if m > 0 {
        lemma_marks_at(cs, o, alpha, m, if i < n {
            i
        } else {
            1
        }, k);
    } else {
        assert(fold_marks(cs, o, alpha, 0).len() == 0);
    }
}

/// Where the openings are carried and the folds are held, the fold of a built head row matches the quotient.
#[verifier::spinoff_prover]
#[verifier::rlimit(60)]
pub(super) proof fn lemma_built_trees(air: MonolithAir, win: Window, no: NativeView, alpha: Ext, quot: Ext, inv_van: Ext)
    requires
        air.wf(),
        plain_rounds(air),
        air.s_symbolic(),
        !air.narrow_openings,
        air.trees_ok(),
        at_head(air, win),
        carries(air.s_openings_view(), no, win),
        value2(air.s_alpha_stark(), win) == x_red(alpha),
        value2(w2_cur(air.s_sel(4)), win) == inv_van,
        value2(air.s_quotient(air.s_nqc()), win) == quot,
        x_same(x_mul(folded_constraints(air.constraints@, no, alpha, air.constraints@.len()), inv_van), quot),
        air.column_window ==> forall|k: int|
            0 < k && FOLD_CHUNK * k < air.constraints@.len() ==> pair_at(win.cur, #[trigger] air.s_fold_acc(k - 1)) == x_red(
                folded_constraints(air.constraints@, no, alpha, (FOLD_CHUNK * k) as nat),
            ),
        vanish(air.s_selectors(), win),
    ensures
        vanish(air.s_tree_check(InlineBci), win),
{
    let n = air.constraints@.len() as int;
    let (o, l) = (air.s_openings_view(), no_lookup());
    let nl = crate::symbolic::NativeLookupView {
        perm_local: Seq::empty(),
        perm_next: Seq::empty(),
        challenges: Seq::empty(),
        perm_values: Seq::empty(),
    };
    air.lemma_bounds();
    assert forall|k: int| 0 <= k < n && k < air.constraints@.len() implies o.reads(#[trigger] air.constraints@[k]) by {}
    assert(openings_carried(air, o, l, no, nl, n, win));
    let wa = value2(air.s_alpha_stark(), win);
    assert forall|k: int| 0 <= k < n && #[trigger] air.s_chunk_ends(k, n) implies value2(
        w2_cur(air.s_fold_acc((k + 1) / (FOLD_CHUNK as int) - 1)),
        win,
    ) == folded_at(air, no, nl, wa, (k + 1) as nat) by {
        let i = (k + 1) / (FOLD_CHUNK as int);
        assert(FOLD_CHUNK * i == k + 1);
        assert(pair_at(win.cur, air.s_fold_acc(i - 1)) == x_red(
            folded_constraints(air.constraints@, no, alpha, (FOLD_CHUNK * i) as nat),
        ));
        law_fold_is_verification(air, no, nl, wa, (k + 1) as nat);
        lemma_fold_reduced(air.constraints@, no, alpha, (k + 1) as nat);
        assert(0 <= air.s_fold_acc(i - 1) && air.s_fold_acc(i - 1) + 1 <= usize::MAX) by {
            lemma_acc_fits(air, i - 1);
        }
        lemma_pair_value(air.s_fold_acc(i - 1), win);
    }
    law_fold_is_verification(air, no, nl, wa, n as nat);
    lemma_fold_reduced(air.constraints@, no, alpha, n as nat);
    let folded = folded_constraints(air.constraints@, no, alpha, n as nat);
    lemma_x_mul_red(folded, inv_van);
    lemma_value2_canonical(air.s_quotient(air.s_nqc()), win);
    law_head_row_identity(air, o, l, no, nl, n, w2_cur(air.s_sel(4)), air.s_checked_quotient(), win);
    let fold = air.s_fold_check(o, l, n, w2_cur(air.s_sel(4)), air.s_checked_quotient());
    assert(air.s_tree_check(InlineBci) == air.s_selectors() + fold);
    lemma_vanish_parts(air.s_selectors(), fold, win);
}

/// The columns of the partial folds lie in the row.
pub(super) proof fn lemma_acc_fits(air: MonolithAir, i: int)
    requires
        air.wf(),
        plain_rounds(air),
        air.s_symbolic(),
        air.column_window,
        0 <= i,
        FOLD_CHUNK * (i + 1) < air.constraints@.len(),
    ensures
        0 <= air.s_fold_acc(i),
        air.s_fold_acc(i) + 1 < air.s_fused_w() <= usize::MAX,
        i < air.s_n_fold_acc(),
{
    air.lemma_bounds();
}

/// The identity of a single column with its denominators cleared.
proof fn lemma_cleared(first: Ext, zm1: Ext, z: Ext, iv: Ext, alpha: Ext, lm: Ext, tr: Ext, nl: Ext, quot: Ext)
    requires
        x_mul(first, zm1) == z,
        x_mul(iv, z) == x_one(),
        x_mul(x_add(x_mul(x_mul(first, lm), alpha), x_mul(tr, nl)), iv) == quot,
    ensures
        x_add(x_mul(x_mul(z, alpha), lm), x_mul(x_mul(tr, zm1), nl)) == x_mul(x_mul(z, zm1), quot),
{
    let (p, t) = (x_mul(x_mul(first, lm), alpha), x_mul(tr, nl));
    let f = x_add(p, t);
    // quot z = f.
    lemma_x_mul_assoc(f, iv, z);
    lemma_x_mul_one(f);
    assert(x_red(f) == f);
    assert(x_mul(quot, z) == f);
    // (z zm1) quot = zm1 (quot z) = zm1 f.
    lemma_x_mul_comm(z, zm1);
    lemma_x_mul_assoc(zm1, z, quot);
    lemma_x_mul_comm(z, quot);
    assert(x_mul(x_mul(z, zm1), quot) == x_mul(zm1, f));
    lemma_x_distribute(zm1, p, t);
    // zm1 p = (z alpha) lm.
    lemma_x_mul_assoc(first, lm, alpha);
    lemma_x_mul_assoc(zm1, first, x_mul(lm, alpha));
    lemma_x_mul_comm(zm1, first);
    lemma_x_mul_comm(lm, alpha);
    lemma_x_mul_assoc(z, alpha, lm);
    assert(x_mul(zm1, p) == x_mul(x_mul(z, alpha), lm));
    // zm1 t = (tr zm1) nl.
    lemma_x_mul_assoc(zm1, tr, nl);
    lemma_x_mul_comm(zm1, tr);
}

/// A difference of three.
proof fn lemma_step_difference(a: u64, b: u64, s: u64)
    ensures
        f_sub(f_sub(f_red(a as int), f_red(b as int)), f_red(s as int)) == f_sub(a, f_add(b, f_red(s as int))),
        f_sub(f_red(a as int), f_red(b as int)) == f_sub(a, b),
{
    let m = crate::field::MODULUS as int;
    let (x, y, t) = (a as int, b as int, f_red(s as int) as int);
    crate::field::lemma_red_add(x, f_red(y) as int);
    crate::field::lemma_red_add(x, y);
    crate::field::lemma_red_add(f_red(x) - f_red(y), t);
    crate::field::lemma_red_add(x - y, t);
    crate::field::lemma_red_add(x, y + t);
    assert(f_sub(f_red(x), f_red(y)) == f_sub(a, b));
}

/// The check of a single column on a built head row.
#[verifier::spinoff_prover]
#[verifier::rlimit(60)]
pub(super) proof fn lemma_built_column(
    air: MonolithAir,
    win: Window,
    window: Seq<u64>,
    q: QueryData,
    zeta: Ext,
    alpha: Ext,
    local: Ext,
    next: Ext,
    pv: u64,
    quot: Ext,
)
    requires
        air.wf(),
        plain_rounds(air),
        !air.s_symbolic(),
        !air.narrow_arith,
        !air.narrow_openings,
        at_head(air, win),
        reads_window(air, win, window),
        head_written(air, win.cur, q),
        q.terms@.len() == air.n_terms,
        value2(air.s_power_at_size(), win) == x_square_times(zeta, air.s_cdb() as nat),
        value2(air.s_zeta(), win) == x_red(zeta),
        value2(air.s_alpha_stark(), win) == x_red(alpha),
        value2(air.s_quotient(air.s_nqc()), win) == quot,
        !x_same(vanishing(zeta, air.s_cdb() as nat), x_zero()),
        q.terms@[air.s_trm_trace(0)].pz == local,
        q.terms@[air.s_trm_next(0)].pz == next,
        window[air.s_pub_pi()] == pv,
        ({
            let sel = selectors(zeta, air.s_cdb() as nat);
            let step: u64 = if air.inner_counter {
                1
            } else {
                0
            };
            let lm = x_sub(local, x_base(pv));
            let nl = x_sub(next, x_add(local, x_base(step)));
            x_mul(
                x_add(x_mul(x_mul(sel.is_first_row, lm), x_red(alpha)), x_mul(sel.is_transition, nl)),
                sel.inv_vanishing,
            ) == quot
        }),
    ensures
        vanish(air.s_one_column(), win),
{
    let n = air.s_cdb() as nat;
    let sel = selectors(zeta, n);
    let z = vanishing(zeta, n);
    let tf = w_per(air.s_m_tf());
    let step: u64 = if air.inner_counter {
        1
    } else {
        0
    };
    air.lemma_bounds();
    air.lemma_terms();
    lemma_head_gate(air, win);
    lemma_square_chain(zeta, n);
    lemma_selector_wires(air, win);
    lemma_vanishing_canonical(zeta, n);
    super::heads::lemma_difference_reduced(zeta, x_one());
    super::heads::lemma_difference_reduced(zeta, last_point(n));
    assert(x_red(x_zero()) == x_zero());
    law_extension_is_a_field(z);
    lemma_not_one(zeta, n);
    lemma_over(z, x_sub(zeta, x_one()));
    let (t0, t1) = (air.s_trm_trace(0), air.s_trm_next(0));
    lemma_built_opening(air, win, q, t0);
    lemma_built_opening(air, win, q, t1);
    let (lw, nw) = (w2_cur(air.s_pz(t0)), w2_cur(air.s_pz(t1)));
    let pi = air.s_pi(air.s_pub_pi());
    assert(0 <= air.s_pub_pi() < air.s_pis_count());
    assert(value(pi, win) == f_red(pv as int));
    let lm = w2(w_minus(lw.a, pi), lw.b);
    let sw = w_const(step);
    let nl = w2(w_minus(w_minus(nw.a, lw.a), sw), w_minus(nw.b, lw.b));
    lemma_column_wires(lw, nw, pi, sw, local, next, pv, step, win);
    let (vlm, vnl) = (x_sub(local, x_base(pv)), x_sub(next, x_add(local, x_base(step))));
    lemma_cleared(
        sel.is_first_row,
        x_sub(zeta, x_one()),
        z,
        sel.inv_vanishing,
        x_red(alpha),
        vlm,
        sel.is_transition,
        vnl,
        quot,
    );
    let (zh, za, it, zm1) = (air.s_z_h(), air.s_alpha_stark(), air.s_is_trans(), air.s_zeta_minus_one());
    law_times_value(zh, za, win);
    law_times_value(w2_times(zh, za), lm, win);
    law_times_value(it, zm1, win);
    law_times_value(w2_times(it, zm1), nl, win);
    law_times_value(zh, zm1, win);
    law_times_value(w2_times(zh, zm1), air.s_quotient(air.s_nqc()), win);
    let (a, b) = (w2_times(w2_times(zh, za), lm), w2_times(w2_times(it, zm1), nl));
    law_plus_minus_value(a, b, win);
    let rhs = w2_times(w2_times(zh, zm1), air.s_quotient(air.s_nqc()));
    lemma_pair_equation(tf, w2_plus(a, b), rhs, win);
    assert(air.s_one_column() == s_agree(tf, w2_plus(a, b), rhs));
}

/// The wires of a single column's differences.
pub(super) proof fn lemma_column_wires(
    lw: Wire2,
    nw: Wire2,
    pi: Wire,
    sw: Wire,
    local: Ext,
    next: Ext,
    pv: u64,
    step: u64,
    win: Window,
)
    requires
        value2(lw, win) == x_red(local),
        value2(nw, win) == x_red(next),
        value(pi, win) == f_red(pv as int),
        value(sw, win) == f_red(step as int),
    ensures
        value2(w2(w_minus(lw.a, pi), lw.b), win) == x_sub(local, x_base(pv)),
        value2(w2(w_minus(w_minus(nw.a, lw.a), sw), w_minus(nw.b, lw.b)), win) == x_sub(
            next,
            x_add(local, x_base(step)),
        ),
{
    lemma_op_values(lw.a, pi, win);
    lemma_op_values(nw.a, lw.a, win);
    lemma_op_values(w_minus(nw.a, lw.a), sw, win);
    lemma_op_values(nw.b, lw.b, win);
    lemma_step_difference(next.c0, local.c0, step);
    lemma_step_difference(next.c1, local.c1, 0);
    lemma_step_difference(local.c0, pv, 0);
    crate::field::lemma_red_add(local.c0 as int, f_red(pv as int) as int);
    crate::field::lemma_red_add(next.c1 as int, local.c1 as int);
}

} // verus!
