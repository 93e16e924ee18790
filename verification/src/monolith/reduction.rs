//! What the arithmetic of a head row says: the running value that the folds start from is the reduced opening of the
//! row's terms.

use vstd::prelude::*;
use super::index::{at_head, lemma_head_gate};
use super::layout::{MonolithAir, QT_E};
use crate::emit::flat;
use crate::expr::{
    law_plus_minus_value, law_times_value, value, value2, w2, w2_cur, w2_times, w_const, w_cur, w_minus, w_per,
    w_times, Window, Wire,
};
use crate::field::{f_red, x_add, x_base, x_mul, x_one, x_pow, x_red, x_sub, Ext};
use crate::fri::input::reduced;
use crate::gadgets::opening::OpeningTerm;
use crate::vanish::{
    lemma_const_value, lemma_ext_inverse_is, lemma_is_one, lemma_leaf_values, lemma_less_base, lemma_pair_equation,
    lemma_pair_value, lemma_vanish_flat, lemma_vanish_parts, pair_at, vanish,
};

verus! {

/// The terms that the columns of a head row hold.
pub open spec fn row_terms(air: MonolithAir, row: Seq<u64>, n: nat) -> Seq<OpeningTerm> {
    Seq::new(
        n,
        |k: int|
            OpeningTerm {
                z: pair_at(row, air.s_z(k)),
                pz: pair_at(row, air.s_pz(k)),
                px: f_red(row[air.s_px(k)] as int),
            },
    )
}

/// The powers of the batching challenge stand in their columns.
pub open spec fn powers_held(air: MonolithAir, row: Seq<u64>) -> bool {
    forall|k: int|
        0 <= k < air.n_terms ==> pair_at(row, #[trigger] air.s_apow(k)) == x_pow(
            pair_at(row, air.s_qt_alpha()),
            k as nat,
        )
}

/// The witnessed inverses invert the distances of the points from `x`.
pub open spec fn inverses_held(air: MonolithAir, row: Seq<u64>, x: u64) -> bool {
    forall|k: int|
        0 <= k < air.n_terms ==> x_mul(
            pair_at(row, #[trigger] air.s_inv(k)),
            x_sub(pair_at(row, air.s_z(k)), x_base(x)),
        ) == x_one()
}

/// The columns of a term lie in the row.
proof fn lemma_term_columns(air: MonolithAir, k: int)
    requires
        air.wf(),
        !air.narrow_arith,
        !air.narrow_openings,
        0 <= k < air.n_terms,
    ensures
        0 <= air.s_z(k),
        air.s_z(k) + 9 <= usize::MAX,
        air.s_pz(k) == air.s_z(k) + 2,
        air.s_px(k) == air.s_z(k) + 4,
        0 <= air.s_qt_alpha(),
        air.s_qt_alpha() + 1 <= usize::MAX,
{
    air.lemma_bounds();
    air.lemma_terms();
    assert(air.s_z(k) + 9 <= air.s_tile_w());
}

/// The power constraints, with the first power one, vanish exactly if the powers are held.
proof fn lemma_power_family(air: MonolithAir, w: Window)
    requires
        air.wf(),
        at_head(air, w),
        !air.narrow_arith,
        !air.narrow_openings,
        air.n_terms >= 1,
    ensures
        ({
            let tf = w_per(air.s_m_tf());
            let first = seq![
                w_times(tf, w_minus(w_cur(air.s_apow(0)), w_const(1))),
                w_times(tf, w_cur(air.s_apow(0) + 1)),
            ];
            (vanish(first, w) && vanish(flat(air.n_terms - 1, air.f_power()), w)) <==> powers_held(air, w.cur)
        }),
{
    let tf = w_per(air.s_m_tf());
    let alpha = pair_at(w.cur, air.s_qt_alpha());
    let n = air.n_terms - 1;
    lemma_head_gate(air, w);
    lemma_term_columns(air, 0);
    lemma_is_one(tf, w2_cur(air.s_apow(0)), w);
    lemma_pair_value(air.s_apow(0), w);
    lemma_vanish_flat(n, air.f_power(), w);
    assert forall|k: int| 0 <= k < n implies (vanish(#[trigger] air.f_power()(k), w) <==> pair_at(w.cur, air.s_apow(k + 1))
        == x_mul(pair_at(w.cur, air.s_apow(k)), alpha)) by {
        lemma_term_columns(air, k);
        lemma_term_columns(air, k + 1);
        let prod = w2_times(w2_cur(air.s_apow(k)), w2_cur(air.s_qt_alpha()));
        lemma_pair_value(air.s_apow(k), w);
        lemma_pair_value(air.s_apow(k + 1), w);
        lemma_pair_value(air.s_qt_alpha(), w);
        law_times_value(w2_cur(air.s_apow(k)), w2_cur(air.s_qt_alpha()), w);
        lemma_pair_equation(tf, w2_cur(air.s_apow(k + 1)), prod, w);
        let next = w2_cur(air.s_apow(k + 1));
        assert(air.f_power()(k) =~= seq![w_times(tf, w_minus(next.a, prod.a)), w_times(tf, w_minus(next.b, prod.b))]);
    }
    let first = seq![
        w_times(tf, w_minus(w_cur(air.s_apow(0)), w_const(1))),
        w_times(tf, w_cur(air.s_apow(0) + 1)),
    ];
    if vanish(first, w) && vanish(flat(n, air.f_power()), w) {
        assert forall|k: int| 0 <= k < air.n_terms implies pair_at(w.cur, #[trigger] air.s_apow(k)) == x_pow(
            alpha,
            k as nat,
        ) by {
            lemma_power_chain(air, w.cur, alpha, k, air.f_power(), w);
        }
    }
    if powers_held(air, w.cur) {
        assert(pair_at(w.cur, air.s_apow(0)) == x_pow(alpha, 0));
        assert forall|k: int| 0 <= k < n implies vanish(#[trigger] air.f_power()(k), w) by {
            assert(pair_at(w.cur, air.s_apow(k)) == x_pow(alpha, k as nat));
            assert(pair_at(w.cur, air.s_apow(k + 1)) == x_pow(alpha, (k + 1) as nat));
        }
    }
}

proof fn lemma_power_chain(air: MonolithAir, row: Seq<u64>, alpha: Ext, k: int, f: spec_fn(int) -> Seq<Wire>, w: Window)
    requires
        0 <= k < air.n_terms,
        pair_at(row, air.s_apow(0)) == x_one(),
        forall|j: int| 0 <= j < air.n_terms - 1 ==> vanish(#[trigger] f(j), w),
        forall|j: int|
            0 <= j < air.n_terms - 1 ==> (vanish(#[trigger] f(j), w) <==> pair_at(row, air.s_apow(j + 1)) == x_mul(
                pair_at(row, air.s_apow(j)),
                alpha,
            )),
    ensures
        pair_at(row, air.s_apow(k)) == x_pow(alpha, k as nat),
    decreases k,
{
    if k > 0 {
        lemma_power_chain(air, row, alpha, k - 1, f, w);
        assert(vanish(f(k - 1), w));
        assert(air.s_apow((k - 1) + 1) == air.s_apow(k));
        assert(((k as nat) - 1) as nat == (k - 1) as nat);
    }
}

/// The inverse constraints vanish exactly if the inverses are held.
proof fn lemma_inverse_family(air: MonolithAir, w: Window)
    requires
        air.wf(),
        at_head(air, w),
        !air.narrow_arith,
        !air.narrow_openings,
    ensures
        vanish(flat(air.n_terms as int, air.f_inverse()), w) <==> inverses_held(air, w.cur, value(air.s_point(), w)),
{
    let tf = w_per(air.s_m_tf());
    let x = value(air.s_point(), w);
    lemma_head_gate(air, w);
    lemma_vanish_flat(air.n_terms as int, air.f_inverse(), w);
    assert forall|k: int| 0 <= k < air.n_terms implies (vanish(#[trigger] air.f_inverse()(k), w) <==> x_mul(
        pair_at(w.cur, air.s_inv(k)),
        x_sub(pair_at(w.cur, air.s_z(k)), x_base(x)),
    ) == x_one()) by {
        lemma_term_columns(air, k);
        let z = w2_cur(air.s_z(k));
        let d = w2(w_minus(z.a, air.s_point()), z.b);
        let chk = w2_times(w2_cur(air.s_inv(k)), d);
        lemma_pair_value(air.s_z(k), w);
        lemma_pair_value(air.s_inv(k), w);
        lemma_less_base(z, air.s_point(), w);
        law_times_value(w2_cur(air.s_inv(k)), d, w);
        lemma_is_one(tf, chk, w);
        assert(air.f_inverse()(k) =~= seq![w_times(tf, w_minus(chk.a, w_const(1))), w_times(tf, chk.b)]);
    }
    if vanish(flat(air.n_terms as int, air.f_inverse()), w) {
        assert forall|k: int| 0 <= k < air.n_terms implies x_mul(
            pair_at(w.cur, #[trigger] air.s_inv(k)),
            x_sub(pair_at(w.cur, air.s_z(k)), x_base(x)),
        ) == x_one() by {
            assert(vanish(air.f_inverse()(k), w));
        }
    }
    if inverses_held(air, w.cur, x) {
        assert forall|k: int| 0 <= k < air.n_terms implies vanish(#[trigger] air.f_inverse()(k), w) by {
            assert(x_mul(pair_at(w.cur, air.s_inv(k)), x_sub(pair_at(w.cur, air.s_z(k)), x_base(x))) == x_one());
        }
    }
}

/// The value of a term, from its cells.
proof fn lemma_term_value(air: MonolithAir, w: Window, k: int)
    requires
        air.wf(),
        !air.narrow_arith,
        !air.narrow_openings,
        0 <= k < air.n_terms,
    ensures
        value2(air.s_term(k), w) == x_mul(
            x_mul(
                pair_at(w.cur, air.s_apow(k)),
                x_sub(pair_at(w.cur, air.s_pz(k)), x_base(f_red(w.cur[air.s_px(k)] as int))),
            ),
            pair_at(w.cur, air.s_inv(k)),
        ),
{
    lemma_term_columns(air, k);
    let pz = w2_cur(air.s_pz(k));
    let px = w_cur(air.s_px(k));
    let d = w2(w_minus(pz.a, px), pz.b);
    let (pow, inv) = (w2_cur(air.s_apow(k)), w2_cur(air.s_inv(k)));
    lemma_pair_value(air.s_pz(k), w);
    lemma_leaf_values(air.s_px(k), w);
    lemma_less_base(pz, px, w);
    lemma_pair_value(air.s_apow(k), w);
    lemma_pair_value(air.s_inv(k), w);
    law_times_value(pow, d, w);
    law_times_value(w2_times(pow, d), inv, w);
}

/// One more term of a reduced opening, with its power and the inverse of its distance.
pub(crate) proof fn lemma_one_more_term(alpha: Ext, x: u64, before: Seq<OpeningTerm>, t: OpeningTerm, power: Ext, inv: Ext)
    requires
        power == x_pow(alpha, before.len()),
        x_red(inv) == inv,
        x_mul(inv, x_sub(t.z, x_base(x))) == x_one(),
    ensures
        reduced(alpha, x, before.push(t)) == x_add(
            reduced(alpha, x, before),
            x_mul(x_mul(power, x_sub(t.pz, x_base(t.px))), inv),
        ),
{
    let terms = before.push(t);
    assert(terms.drop_last() =~= before);
    assert(terms.last() == t);
    lemma_ext_inverse_is(x_sub(t.z, x_base(x)), inv);
}

pub(crate) proof fn lemma_pair_canonical(row: Seq<u64>, i: int)
    ensures
        x_red(pair_at(row, i)) == pair_at(row, i),
{
}

/// With the powers and inverses held, the sum of the terms is the reduced opening.
#[verifier::spinoff_prover]
proof fn lemma_sum_is_reduced(air: MonolithAir, w: Window, n: nat)
    requires
        air.wf(),
        !air.narrow_arith,
        !air.narrow_openings,
        n <= air.n_terms,
        powers_held(air, w.cur),
        inverses_held(air, w.cur, value(air.s_point(), w)),
    ensures
        value2(air.s_reduced_opening(n as int), w) == reduced(
            pair_at(w.cur, air.s_qt_alpha()),
            value(air.s_point(), w),
            row_terms(air, w.cur, n),
        ),
    decreases n,
{
    let x = value(air.s_point(), w);
    let alpha = pair_at(w.cur, air.s_qt_alpha());
    let terms = row_terms(air, w.cur, n);
    if n == 0 {
        lemma_const_value(0, w);
    } else {
        let k = n - 1;
        lemma_sum_is_reduced(air, w, k as nat);
        let before = row_terms(air, w.cur, k as nat);
        let t = terms[k];
        assert(terms =~= before.push(t));
        lemma_term_value(air, w, k);
        law_plus_minus_value(air.s_reduced_opening(k), air.s_term(k), w);
        let (power, inv) = (pair_at(w.cur, air.s_apow(k)), pair_at(w.cur, air.s_inv(k)));
        assert(power == x_pow(alpha, k as nat));
        assert(x_mul(inv, x_sub(t.z, x_base(x))) == x_one());
        lemma_pair_canonical(w.cur, air.s_inv(k));
        lemma_one_more_term(alpha, x, before, t, power, inv);
    }
}

/// On a head row the arithmetic constraints past the point vanish exactly if the powers of the challenge and the
/// inverses of the distances are held and the running value is the reduced opening of the row's terms at the point.
pub proof fn law_head_row_reduces(air: MonolithAir, w: Window)
    requires
        air.wf(),
        at_head(air, w),
        !air.narrow_arith,
        !air.narrow_openings,
        air.n_terms >= 1,
        vanish(air.s_arith_point(), w),
    ensures
        ({
            let x = value(air.s_point(), w);
            vanish(air.s_inline_arith(), w) <==> {
                &&& powers_held(air, w.cur)
                &&& inverses_held(air, w.cur, x)
                &&& pair_at(w.cur, QT_E as int) == reduced(
                    pair_at(w.cur, air.s_qt_alpha()),
                    x,
                    row_terms(air, w.cur, air.n_terms as nat),
                )
            }
        }),
{
    let tf = w_per(air.s_m_tf());
    let n = air.n_terms as int;
    let first = seq![
        w_times(tf, w_minus(w_cur(air.s_apow(0)), w_const(1))),
        w_times(tf, w_cur(air.s_apow(0) + 1)),
    ];
    let (powers, inverses) = (flat(n - 1, air.f_power()), flat(n, air.f_inverse()));
    let ro = air.s_reduced_opening(n);
    let bound = air.s_bind_reduced_opening(ro);
    let point = air.s_arith_point();
    assert(air.s_inline_arith() == point + first + powers + inverses + bound);
    lemma_vanish_parts(point, first, w);
    lemma_vanish_parts(point + first, powers, w);
    lemma_vanish_parts(point + first + powers, inverses, w);
    lemma_vanish_parts(point + first + powers + inverses, bound, w);
    lemma_head_gate(air, w);
    lemma_power_family(air, w);
    lemma_inverse_family(air, w);
    lemma_pair_value(QT_E as int, w);
    let e = w2_cur(QT_E as int);
    lemma_pair_equation(tf, e, ro, w);
    assert(bound =~= seq![w_times(tf, w_minus(e.a, ro.a)), w_times(tf, w_minus(e.b, ro.b))]);
    if powers_held(air, w.cur) && inverses_held(air, w.cur, value(air.s_point(), w)) {
        lemma_sum_is_reduced(air, w, n as nat);
    }
}

} // verus!
