//! What the out-of-domain check of a head row says: the witnessed selectors are those of the point, and the folded
//! constraints over the vanishing polynomial are the quotient.

use vstd::prelude::*;

use super::epilogue::{s_agree, w2_square_times};
use super::index::{at_head, lemma_head_gate};
use super::layout::{MonolithAir, FOLD_CHUNK};
use crate::emit::flat;
use crate::expr::{
    law_plus_minus_value, law_times_value, lemma_value_canonical, value, value2, w2_cur, w2_times, w_const, w_minus,
    w_per, w_times, Window, Wire2,
};
use crate::field::{
    f_inv, lemma_x_mul_assoc, lemma_x_mul_comm, lemma_x_mul_one, lemma_x_mul_red, two_adic_root, x_add, x_base, x_inv,
    x_mul, x_one, x_red, x_square_times, x_sub, x_zero, Ext,
};
use crate::stark::domain::{last_point, selectors, vanishing};
use crate::stark::verify::folded_constraints;
use crate::symbolic::{
    carries, carries_lookup, law_circuit_matches_native, law_ext_circuit_matches_native, native_ext_value, native_value,
    CircuitLookupView, CircuitView, NativeLookupView, NativeView,
};
use crate::vanish::{
    lemma_const_value, lemma_ext_inverse_is, lemma_is_one, lemma_less_base, lemma_pair_equation, lemma_pair_value,
    lemma_vanish_flat, lemma_vanish_parts, pair_at, vanish,
};

verus! {

/// The value of a wire pair is canonical.
pub(crate) proof fn lemma_value2_canonical(x: Wire2, w: Window)
    ensures
        x_red(value2(x, w)) == value2(x, w),
{
    lemma_value_canonical(x.a, w);
    lemma_value_canonical(x.b, w);
}

/// Repeated squaring of wires carries repeated squaring of their value.
pub(crate) proof fn lemma_square_times_value(x: Wire2, n: nat, w: Window)
    ensures
        value2(w2_square_times(x, n as int), w) == x_square_times(value2(x, w), n),
    decreases n,
{
    lemma_value2_canonical(x, w);
    if n > 0 {
        lemma_square_times_value(x, (n - 1) as nat, w);
        let y = w2_square_times(x, n - 1);
        law_times_value(y, y, w);
    }
}

/// The witnessed chain of squares of the point.
pub open spec fn squares_held(air: MonolithAir, w: Window) -> bool {
    forall|i: int|
        0 < i <= air.s_cdb() ==> value2(#[trigger] air.s_chain_at(i), w) == x_square_times(
            value2(air.s_zeta(), w),
            i as nat,
        )
}

/// The columns of the squaring chain lie in the row.
proof fn lemma_chain_columns(air: MonolithAir, i: int)
    requires
        air.wf(),
        air.column_window,
        0 <= i < air.s_cdb(),
    ensures
        0 <= air.s_sch(2 * i),
        air.s_sch(2 * i) + 1 <= usize::MAX,
{
    air.lemma_bounds();
}

/// One square of the chain.
spec fn squared_at(air: MonolithAir, w: Window, i: int) -> bool {
    value2(air.s_chain_at(i + 1), w) == x_mul(value2(air.s_chain_at(i), w), value2(air.s_chain_at(i), w))
}

proof fn lemma_squaring_step(air: MonolithAir, w: Window, i: int)
    requires
        air.wf(),
        air.column_window,
        at_head(air, w),
        0 <= i < air.s_cdb(),
    ensures
        vanish(air.f_squaring()(i), w) <==> squared_at(air, w, i),
{
    let tf = w_per(air.s_m_tf());
    lemma_head_gate(air, w);
    lemma_chain_columns(air, i);
    let prev = air.s_chain_at(i);
    law_times_value(prev, prev, w);
    lemma_pair_equation(tf, w2_cur(air.s_sch(2 * i)), w2_times(prev, prev), w);
    assert(air.s_chain_at(i + 1) == w2_cur(air.s_sch(2 * i)));
}

/// The squaring constraints vanish exactly if the chain holds the squares; where the point is public there is none.
pub proof fn law_head_row_squares(air: MonolithAir, w: Window)
    requires
        air.wf(),
        at_head(air, w),
        0 <= air.s_cdb(),
    ensures
        air.column_window ==> (vanish(air.all_squaring(), w) <==> squares_held(air, w)),
        vanish(air.all_squaring(), w) ==> value2(air.s_power_at_size(), w) == x_square_times(
            value2(air.s_zeta(), w),
            air.s_cdb() as nat,
        ),
{
    let zeta = value2(air.s_zeta(), w);
    let n = air.s_cdb();
    if air.column_window {
        lemma_vanish_flat(n, air.f_squaring(), w);
        if vanish(air.all_squaring(), w) {
            assert forall|i: int| 0 <= i < n implies #[trigger] squared_at(air, w, i) by {
                lemma_squaring_step(air, w, i);
                assert(vanish(air.f_squaring()(i), w));
            }
            assert forall|i: int| 0 < i <= n implies value2(#[trigger] air.s_chain_at(i), w) == x_square_times(
                zeta,
                i as nat,
            ) by {
                lemma_squares_chain(air, w, i);
            }
            lemma_squares_chain(air, w, n);
        }
        if squares_held(air, w) {
            assert forall|i: int| 0 <= i < n implies vanish(#[trigger] air.f_squaring()(i), w) by {
                lemma_squaring_step(air, w, i);
                assert(value2(air.s_chain_at(i + 1), w) == x_square_times(zeta, (i + 1) as nat));
                assert((((i + 1) as nat) - 1) as nat == i as nat);
                if i > 0 {
                    assert(value2(air.s_chain_at(i), w) == x_square_times(zeta, i as nat));
                } else {
                    lemma_value2_canonical(air.s_zeta(), w);
                    assert(x_square_times(zeta, 0) == x_red(zeta));
                }
                assert(x_square_times(zeta, (i + 1) as nat) == x_mul(
                    x_square_times(zeta, i as nat),
                    x_square_times(zeta, i as nat),
                ));
                assert(squared_at(air, w, i));
            }
        }
    } else {
        lemma_square_times_value(air.s_zeta(), n as nat, w);
    }
}

proof fn lemma_squares_chain(air: MonolithAir, w: Window, i: int)
    requires
        0 <= i <= air.s_cdb(),
        forall|j: int| 0 <= j < air.s_cdb() ==> #[trigger] squared_at(air, w, j),
    ensures
        value2(air.s_chain_at(i), w) == x_square_times(value2(air.s_zeta(), w), i as nat),
    decreases i,
{
    lemma_value2_canonical(air.s_zeta(), w);
    if i > 0 {
        lemma_squares_chain(air, w, i - 1);
        assert(squared_at(air, w, i - 1));
        assert(air.s_chain_at((i - 1) + 1) == air.s_chain_at(i));
        assert(((i as nat) - 1) as nat == (i - 1) as nat);
    }
}

/// If s d = z and v z = 1, then d has an inverse, and s is z over d.
pub(crate) proof fn lemma_quotient_is(s: Ext, d: Ext, z: Ext, v: Ext)
    requires
        x_red(s) == s,
        x_mul(s, d) == z,
        x_mul(v, z) == x_one(),
    ensures
        s == x_mul(z, x_inv(d)),
{
    let i = x_mul(v, s);
    lemma_x_mul_assoc(v, s, d);
    lemma_x_mul_red(v, s);
    lemma_ext_inverse_is(d, i);
    // z i = (s d) i = s (d i) = s.
    lemma_x_mul_assoc(s, d, i);
    lemma_x_mul_comm(d, i);
    lemma_x_mul_one(s);
}

/// The values of the vanishing polynomial, the point less one and the transition selector.
pub(super) proof fn lemma_selector_wires(air: MonolithAir, w: Window)
    requires
        value2(air.s_power_at_size(), w) == x_square_times(value2(air.s_zeta(), w), air.s_cdb() as nat),
    ensures
        ({
            let n = air.s_cdb() as nat;
            let zeta = value2(air.s_zeta(), w);
            &&& value2(air.s_z_h(), w) == vanishing(zeta, n)
            &&& value2(air.s_zeta_minus_one(), w) == x_sub(zeta, x_one())
            &&& value2(air.s_is_trans(), w) == x_sub(zeta, last_point(n))
        }),
{
    let root = f_inv(two_adic_root(air.s_cdb() as nat));
    lemma_const_value(1, w);
    lemma_less_base(air.s_power_at_size(), w_const(1), w);
    lemma_less_base(air.s_zeta(), w_const(1), w);
    lemma_less_base(air.s_zeta(), w_const(root), w);
    assert(x_base(1) == x_one());
    assert(x_base(value(w_const(root), w)) == x_base(root));
}

/// What the selector constraints ask of the witnessed selectors.
pub(super) proof fn lemma_selector_equations(air: MonolithAir, w: Window)
    requires
        air.wf(),
        air.s_symbolic(),
        at_head(air, w),
    ensures
        ({
            let (z_h, zm1, tr) = (
                value2(air.s_z_h(), w),
                value2(air.s_zeta_minus_one(), w),
                value2(air.s_is_trans(), w),
            );
            let (v0, v2, v4) = (
                pair_at(w.cur, air.s_sel(0)),
                pair_at(w.cur, air.s_sel(2)),
                pair_at(w.cur, air.s_sel(4)),
            );
            &&& x_red(v0) == v0
            &&& x_red(v2) == v2
            &&& x_red(v4) == v4
            &&& vanish(air.s_selectors(), w) <==> {
                &&& x_mul(v0, zm1) == z_h
                &&& x_mul(v2, tr) == z_h
                &&& x_mul(v4, z_h) == x_one()
            }
        }),
{
    let tf = w_per(air.s_m_tf());
    air.lemma_bounds();
    lemma_head_gate(air, w);
    let (z_h, zm1, tr) = (air.s_z_h(), air.s_zeta_minus_one(), air.s_is_trans());
    let (s0, s2, s4) = (w2_cur(air.s_sel(0)), w2_cur(air.s_sel(2)), w2_cur(air.s_sel(4)));
    let biv = w2_times(s4, z_h);
    let (a, b) = (s_agree(tf, w2_times(s0, zm1), z_h), s_agree(tf, w2_times(s2, tr), z_h));
    let c = seq![w_times(tf, w_minus(biv.a, w_const(1))), w_times(tf, biv.b)];
    assert(air.s_selectors() == a + b + c);
    lemma_vanish_parts(a, b, w);
    lemma_vanish_parts(a + b, c, w);
    lemma_pair_equation(tf, w2_times(s0, zm1), z_h, w);
    lemma_pair_equation(tf, w2_times(s2, tr), z_h, w);
    lemma_is_one(tf, biv, w);
    lemma_pair_value(air.s_sel(0), w);
    lemma_pair_value(air.s_sel(2), w);
    lemma_pair_value(air.s_sel(4), w);
    lemma_value2_canonical(s0, w);
    lemma_value2_canonical(s2, w);
    lemma_value2_canonical(s4, w);
    law_times_value(s0, zm1, w);
    law_times_value(s2, tr, w);
    law_times_value(s4, z_h, w);
}

/// Where the power of the point is that of the domain's size, the selector constraints vanish only if the witnessed
/// selectors are those of the point.
pub proof fn law_head_row_selectors(air: MonolithAir, w: Window)
    requires
        air.wf(),
        air.s_symbolic(),
        at_head(air, w),
        value2(air.s_power_at_size(), w) == x_square_times(value2(air.s_zeta(), w), air.s_cdb() as nat),
        vanish(air.s_selectors(), w),
    ensures
        ({
            let sel = selectors(value2(air.s_zeta(), w), air.s_cdb() as nat);
            &&& pair_at(w.cur, air.s_sel(0)) == sel.is_first_row
            &&& pair_at(w.cur, air.s_sel(2)) == sel.is_last_row
            &&& pair_at(w.cur, air.s_sel(4)) == sel.inv_vanishing
            &&& value2(air.s_is_trans(), w) == sel.is_transition
        }),
{
    let n = air.s_cdb() as nat;
    let zeta = value2(air.s_zeta(), w);
    let (v0, v2, v4) = (pair_at(w.cur, air.s_sel(0)), pair_at(w.cur, air.s_sel(2)), pair_at(w.cur, air.s_sel(4)));
    lemma_selector_wires(air, w);
    lemma_selector_equations(air, w);
    let z = vanishing(zeta, n);
    lemma_quotient_is(v0, x_sub(zeta, x_one()), z, v4);
    lemma_quotient_is(v2, x_sub(zeta, last_point(n)), z, v4);
    lemma_ext_inverse_is(z, v4);
}

/// Constraint `k` of the inner at the openings, base ones first.
pub open spec fn constraint_value(air: MonolithAir, o: NativeView, l: NativeLookupView, k: int) -> Ext {
    if k < air.constraints@.len() {
        native_value(air.constraints@[k], o)
    } else {
        native_ext_value(air.lookup->0.ext_constraints@[k - air.constraints@.len()], o, l)
    }
}

/// The first `n` constraints of the inner at the openings, folded under alpha.
pub open spec fn folded_at(air: MonolithAir, o: NativeView, l: NativeLookupView, alpha: Ext, n: nat) -> Ext
    decreases n,
{
    if n == 0 {
        x_zero()
    } else {
        x_add(
            x_mul(folded_at(air, o, l, alpha, (n - 1) as nat), alpha),
            constraint_value(air, o, l, n - 1),
        )
    }
}

/// Without a lookup argument the fold is that of the verification.
pub proof fn law_fold_is_verification(air: MonolithAir, o: NativeView, l: NativeLookupView, alpha: Ext, n: nat)
    requires
        n <= air.constraints@.len(),
    ensures
        folded_at(air, o, l, alpha, n) == folded_constraints(air.constraints@, o, alpha, n),
    decreases n,
{
    if n > 0 {
        law_fold_is_verification(air, o, l, alpha, (n - 1) as nat);
    }
}

/// The circuit's openings carry the native ones, and every constraint reads within them.
pub open spec fn openings_carried(
    air: MonolithAir,
    o: CircuitView,
    l: CircuitLookupView,
    no: NativeView,
    nl: NativeLookupView,
    n: int,
    w: Window,
) -> bool {
    &&& carries(o, no, w)
    &&& carries_lookup(l, nl, w)
    &&& forall|k: int| 0 <= k < n && k < air.constraints@.len() ==> o.reads(#[trigger] air.constraints@[k])
    &&& forall|k: int|
        air.constraints@.len() <= k < n ==> l.reads(
            #[trigger] air.lookup->0.ext_constraints@[k - air.constraints@.len()],
            o,
        )
}

/// The witnessed accumulators hold the partial folds.
pub open spec fn partial_folds_held(
    air: MonolithAir,
    no: NativeView,
    nl: NativeLookupView,
    n: int,
    w: Window,
) -> bool {
    forall|k: int|
        0 <= k < n && #[trigger] air.s_chunk_ends(k, n) ==> value2(
            w2_cur(air.s_fold_acc((k + 1) / (FOLD_CHUNK as int) - 1)),
            w,
        ) == folded_at(air, no, nl, value2(air.s_alpha_stark(), w), (k + 1) as nat)
}

/// The fold of the circuit before constraint `k`, and with it taken in, where the accumulators before hold.
pub(super) proof fn lemma_fold_values(
    air: MonolithAir,
    o: CircuitView,
    l: CircuitLookupView,
    no: NativeView,
    nl: NativeLookupView,
    n: int,
    k: int,
    w: Window,
)
    requires
        0 <= k <= n,
        openings_carried(air, o, l, no, nl, n, w),
        forall|j: int|
            0 <= j < k && #[trigger] air.s_chunk_ends(j, n) ==> value2(
                w2_cur(air.s_fold_acc((j + 1) / (FOLD_CHUNK as int) - 1)),
                w,
            ) == folded_at(air, no, nl, value2(air.s_alpha_stark(), w), (j + 1) as nat),
    ensures
        value2(air.s_folded(o, l, k, n), w) == folded_at(air, no, nl, value2(air.s_alpha_stark(), w), k as nat),
        k < n ==> value2(air.s_fold_step(o, l, k, n), w) == folded_at(
            air,
            no,
            nl,
            value2(air.s_alpha_stark(), w),
            (k + 1) as nat,
        ),
    decreases k,
{
    let alpha = air.s_alpha_stark();
    if k == 0 {
        lemma_const_value(0, w);
    } else {
        lemma_fold_values(air, o, l, no, nl, n, k - 1, w);
        if air.s_chunk_ends(k - 1, n) {
            assert((k - 1) + 1 == k);
        }
    }
    if k < n {
        let f = air.s_folded(o, l, k, n);
        let c = air.s_constraint_at(o, l, k);
        if k < air.constraints@.len() {
            assert(o.reads(air.constraints@[k]));
            law_circuit_matches_native(air.constraints@[k], o, no, w);
        } else {
            let e = air.lookup->0.ext_constraints@[k - air.constraints@.len()];
            assert(l.reads(e, o));
            law_ext_circuit_matches_native(e, o, l, no, nl, w);
        }
        law_times_value(f, alpha, w);
        law_plus_minus_value(w2_times(f, alpha), c, w);
        assert((((k + 1) as nat) - 1) as nat == k as nat);
    }
}

/// The accumulator constraints vanish exactly if the partial folds are held.
proof fn lemma_accumulator_family(
    air: MonolithAir,
    o: CircuitView,
    l: CircuitLookupView,
    no: NativeView,
    nl: NativeLookupView,
    n: int,
    w: Window,
)
    requires
        air.wf(),
        at_head(air, w),
        0 <= n,
        openings_carried(air, o, l, no, nl, n, w),
    ensures
        vanish(flat(n, air.f_accumulator(o, l, n)), w) <==> partial_folds_held(air, no, nl, n, w),
{
    let f = air.f_accumulator(o, l, n);
    lemma_vanish_flat(n, f, w);
    if vanish(flat(n, f), w) {
        assert forall|k: int| 0 <= k < n && #[trigger] air.s_chunk_ends(k, n) implies value2(
            w2_cur(air.s_fold_acc((k + 1) / (FOLD_CHUNK as int) - 1)),
            w,
        ) == folded_at(air, no, nl, value2(air.s_alpha_stark(), w), (k + 1) as nat) by {
            lemma_held_to(air, o, l, no, nl, n, k, w);
        }
    }
    if partial_folds_held(air, no, nl, n, w) {
        assert forall|k: int| 0 <= k < n implies vanish(#[trigger] f(k), w) by {
            if air.s_chunk_ends(k, n) {
                lemma_fold_values(air, o, l, no, nl, n, k, w);
                lemma_head_gate(air, w);
                lemma_pair_equation(
                    w_per(air.s_m_tf()),
                    w2_cur(air.s_fold_acc((k + 1) / (FOLD_CHUNK as int) - 1)),
                    air.s_fold_step(o, l, k, n),
                    w,
                );
            }
        }
    }
}

/// The accumulator constraints hold the partial folds up to chunk end `k`.
proof fn lemma_held_to(
    air: MonolithAir,
    o: CircuitView,
    l: CircuitLookupView,
    no: NativeView,
    nl: NativeLookupView,
    n: int,
    k: int,
    w: Window,
)
    requires
        air.wf(),
        at_head(air, w),
        0 <= k < n,
        openings_carried(air, o, l, no, nl, n, w),
        forall|j: int| 0 <= j < n ==> vanish(#[trigger] air.f_accumulator(o, l, n)(j), w),
        air.s_chunk_ends(k, n),
    ensures
        value2(w2_cur(air.s_fold_acc((k + 1) / (FOLD_CHUNK as int) - 1)), w) == folded_at(
            air,
            no,
            nl,
            value2(air.s_alpha_stark(), w),
            (k + 1) as nat,
        ),
    decreases k,
{
    assert forall|j: int| 0 <= j < k && #[trigger] air.s_chunk_ends(j, n) implies value2(
        w2_cur(air.s_fold_acc((j + 1) / (FOLD_CHUNK as int) - 1)),
        w,
    ) == folded_at(air, no, nl, value2(air.s_alpha_stark(), w), (j + 1) as nat) by {
        lemma_held_to(air, o, l, no, nl, n, j, w);
    }
    lemma_fold_values(air, o, l, no, nl, n, k, w);
    lemma_head_gate(air, w);
    assert(vanish(air.f_accumulator(o, l, n)(k), w));
    lemma_pair_equation(
        w_per(air.s_m_tf()),
        w2_cur(air.s_fold_acc((k + 1) / (FOLD_CHUNK as int) - 1)),
        air.s_fold_step(o, l, k, n),
        w,
    );
}

/// Where the circuit's openings carry native ones, the fold constraints of a head row vanish exactly if the partial
/// folds are held and the constraints folded at those openings, over the vanishing polynomial, are the quotient.
pub proof fn law_head_row_identity(
    air: MonolithAir,
    o: CircuitView,
    l: CircuitLookupView,
    no: NativeView,
    nl: NativeLookupView,
    n: int,
    inv_van: Wire2,
    quot: Wire2,
    w: Window,
)
    requires
        air.wf(),
        at_head(air, w),
        0 <= n,
        openings_carried(air, o, l, no, nl, n, w),
    ensures
        vanish(air.s_fold_check(o, l, n, inv_van, quot), w) <==> {
            &&& partial_folds_held(air, no, nl, n, w)
            &&& x_mul(
                folded_at(air, no, nl, value2(air.s_alpha_stark(), w), n as nat),
                value2(inv_van, w),
            ) == value2(quot, w)
        },
{
    let tf = w_per(air.s_m_tf());
    let f = flat(n, air.f_accumulator(o, l, n));
    let folded = air.s_folded(o, l, n, n);
    let check = s_agree(tf, w2_times(folded, inv_van), quot);
    lemma_head_gate(air, w);
    lemma_vanish_parts(f, check, w);
    lemma_accumulator_family(air, o, l, no, nl, n, w);
    lemma_pair_equation(tf, w2_times(folded, inv_van), quot, w);
    law_times_value(folded, inv_van, w);
    if partial_folds_held(air, no, nl, n, w) {
        lemma_fold_values(air, o, l, no, nl, n, n, w);
    }
}

} // verus!
