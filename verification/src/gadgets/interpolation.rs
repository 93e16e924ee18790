//! What the constraints of the fold gadgets say: where they vanish, the folded value is the interpolation of the group
//! at the challenge.

use vstd::arithmetic::power2::pow2;
use vstd::prelude::*;
use super::fold::{
    chain_columns, f_chain_inverse, slot_selector, slotted, w_square_times, Arity4FoldChainAir, FoldColumns,
    GeneralFoldAir, A4_B0, A4_B1, A4_EVALS,
};
use crate::emit::flat;
use crate::expr::{
    law_plus_minus_value, law_times_value, lemma_value_canonical, value, value2, w2_cur, w2_times, w_const, w_cur,
    w_minus, w_nxt, w_on_first, w_on_transition, w_per, w_pub, w_times, Expr, Window, Wire,
};
use crate::field::{f_mul, f_red, f_square_times, lemma_mul_one, x_base, x_mul, x_one, x_sub, x_zero, Ext};
use crate::fri::coset::{barycentric_terms, differences, is_coset, law_barycentric_interpolates, scaled};
use crate::fri::fold::lagrange;
use crate::prime::law_bit_constraint;
use crate::vanish::{
    lemma_canonical_difference, lemma_const_value, lemma_gates, lemma_is_one, lemma_leaf_values, lemma_less_base,
    lemma_op_values, lemma_pair_value, lemma_scaled, lemma_vanish_flat, lemma_vanish_parts, pair_at, vanish,
};

verus! {

impl FoldColumns {
    /// The points of a row, modulo p.
    pub open spec fn points(&self, row: Seq<u64>, arity: nat) -> Seq<u64> {
        Seq::new(arity, |i: int| f_red(row[self.xs + i] as int))
    }

    /// The evaluations of a row.
    pub open spec fn group(&self, row: Seq<u64>, arity: nat) -> Seq<Ext> {
        Seq::new(arity, |i: int| pair_at(row, self.evals + 2 * i))
    }

    /// The witnessed inverses of a row.
    pub open spec fn inverses(&self, row: Seq<u64>, arity: nat) -> Seq<Ext> {
        Seq::new(arity, |i: int| pair_at(row, self.inv + 2 * i))
    }

    /// The challenge of a row.
    pub open spec fn challenge(&self, row: Seq<u64>) -> Ext {
        pair_at(row, self.beta as int)
    }

    /// The weight scale of a row.
    pub open spec fn scale(&self, row: Seq<u64>) -> u64 {
        f_red(row[self.wscale as int] as int)
    }

    proof fn lemma_diff_value(&self, w: Window, arity: nat, i: int)
        requires
            self.fits(arity as int),
            0 <= i < arity,
        ensures
            value2(self.s_diff(i), w) == x_sub(self.challenge(w.cur), x_base(self.points(w.cur, arity)[i])),
            value2(self.s_inverse_product(i), w) == x_mul(
                self.inverses(w.cur, arity)[i],
                x_sub(self.challenge(w.cur), x_base(self.points(w.cur, arity)[i])),
            ),
    {
        let beta = w2_cur(self.beta as int);
        lemma_pair_value(self.beta as int, w);
        lemma_leaf_values(self.xs + i, w);
        lemma_less_base(beta, w_cur(self.xs + i), w);
        lemma_pair_value(self.inv + 2 * i, w);
        law_times_value(w2_cur(self.inv + 2 * i), self.s_diff(i), w);
    }

    proof fn lemma_vanishing_value(&self, w: Window, arity: nat, n: nat)
        requires
            self.fits(arity as int),
            n <= arity,
        ensures
            value2(self.s_vanishing(n as int), w) == differences(
                self.points(w.cur, arity),
                self.challenge(w.cur),
                n,
            ),
        decreases n,
    {
        if n == 0 {
            lemma_const_value(1, w);
            lemma_const_value(0, w);
        } else {
            self.lemma_vanishing_value(w, arity, (n - 1) as nat);
            self.lemma_diff_value(w, arity, n - 1);
            law_times_value(self.s_vanishing(n - 1), self.s_diff(n - 1), w);
        }
    }

    proof fn lemma_weighted_value(&self, w: Window, arity: nat, i: int)
        requires
            self.fits(arity as int),
            0 <= i < arity,
        ensures
            value2(self.s_weighted(i), w) == x_mul(
                x_mul(self.group(w.cur, arity)[i], self.inverses(w.cur, arity)[i]),
                x_base(f_mul(self.points(w.cur, arity)[i], self.scale(w.cur))),
            ),
    {
        let (x, s) = (w_cur(self.xs + i), w_cur(self.wscale as int));
        let scal = w_times(x, s);
        let (y, v) = (w2_cur(self.evals + 2 * i), w2_cur(self.inv + 2 * i));
        let t = w2_times(y, v);
        lemma_leaf_values(self.xs + i, w);
        lemma_leaf_values(self.wscale as int, w);
        lemma_op_values(x, s, w);
        lemma_pair_value(self.evals + 2 * i, w);
        lemma_pair_value(self.inv + 2 * i, w);
        law_times_value(y, v, w);
        lemma_op_values(t.a, scal, w);
        lemma_op_values(t.b, scal, w);
        lemma_scaled(value2(t, w), value(scal, w));
    }

    proof fn lemma_sum_value(&self, w: Window, arity: nat, n: nat)
        requires
            self.fits(arity as int),
            n <= arity,
        ensures
            value2(self.s_weighted_sum(n as int), w) == barycentric_terms(
                self.points(w.cur, arity),
                self.group(w.cur, arity),
                self.inverses(w.cur, arity),
                self.scale(w.cur),
                n,
            ),
        decreases n,
    {
        if n == 0 {
            lemma_const_value(0, w);
        } else {
            self.lemma_sum_value(w, arity, (n - 1) as nat);
            self.lemma_weighted_value(w, arity, n - 1);
            law_plus_minus_value(self.s_weighted_sum(n - 1), self.s_weighted(n - 1), w);
        }
    }

    /// The value of the weight scale times what it inverts.
    proof fn lemma_scale_value(&self, w: Window, m: nat)
        requires
            self.fits(pow2(m) as int),
            pow2(m) <= u64::MAX,
        ensures
            value(self.s_scale_product(m as int), w) == f_mul(
                self.scale(w.cur),
                f_mul(f_red(pow2(m) as int), f_square_times(self.points(w.cur, pow2(m))[0], m)),
            ),
    {
        vstd::arithmetic::power2::lemma_pow2_pos(m);
        let (s, c, x) = (w_cur(self.wscale as int), w_const(pow2(m) as u64), w_cur(self.xs as int));
        lemma_leaf_values(self.wscale as int, w);
        lemma_leaf_values(self.xs as int, w);
        lemma_squared_value(x, m, w);
        lemma_op_values(c, w_square_times(x, m as int), w);
        lemma_op_values(s, w_times(c, w_square_times(x, m as int)), w);
        assert(self.xs + 0 == self.xs as int);
    }

    /// The fold of a row whose points are a coset, with its inverses and scale in place, is the interpolation.
    proof fn lemma_folded_value(&self, w: Window, m: nat)
        requires
            self.fits(pow2(m) as int),
            is_coset(self.points(w.cur, pow2(m)), m),
            scaled(
                self.points(w.cur, pow2(m)),
                self.challenge(w.cur),
                self.inverses(w.cur, pow2(m)),
                self.scale(w.cur),
                m,
            ),
        ensures
            value2(self.s_folded(pow2(m) as int), w) == lagrange(
                self.points(w.cur, pow2(m)),
                self.group(w.cur, pow2(m)),
                self.challenge(w.cur),
            ),
    {
        let n = pow2(m);
        self.lemma_vanishing_value(w, n, n);
        self.lemma_sum_value(w, n, n);
        law_times_value(self.s_vanishing(n as int), self.s_weighted_sum(n as int), w);
        law_barycentric_interpolates(
            self.points(w.cur, n),
            self.group(w.cur, n),
            self.challenge(w.cur),
            self.inverses(w.cur, n),
            self.scale(w.cur),
            m,
        );
    }
}

/// Repeated squaring of a wire carries repeated squaring of its value.
proof fn lemma_squared_value(x: Wire, n: nat, w: Window)
    ensures
        value(w_square_times(x, n as int), w) == f_square_times(value(x, w), n),
    decreases n,
{
    lemma_value_canonical(x, w);
    if n > 0 {
        lemma_squared_value(x, (n - 1) as nat, w);
        let y = w_square_times(x, n - 1);
        lemma_op_values(y, y, w);
    }
}

/// On the first row the selector is one.
pub(super) proof fn lemma_first_value(a: Wire, w: Window)
    requires
        w.is_first == 1,
    ensures
        value(w_on_first(a), w) == value(a, w),
{
    let gate: Wire = std::sync::Arc::new(Expr::IsFirstRow);
    assert(value(gate, w) == 1);
    lemma_op_values(gate, a, w);
    lemma_value_canonical(a, w);
    lemma_gates(value(a, w));
}

/// A difference on the first row is zero exactly if the two sides agree.
pub(super) proof fn lemma_first_equation(a: Wire, b: Wire, w: Window)
    requires
        w.is_first == 1,
    ensures
        value(w_on_first(w_minus(a, b)), w) == 0 <==> value(a, w) == value(b, w),
{
    lemma_first_value(w_minus(a, b), w);
    lemma_op_values(a, b, w);
    lemma_value_canonical(a, w);
    lemma_value_canonical(b, w);
    lemma_canonical_difference(value(a, w), value(b, w));
}

/// The inverse constraints vanish exactly if the inverses invert.
proof fn lemma_fold_inverses(air: GeneralFoldAir, w: Window)
    requires
        air.wf(),
        w.is_first == 1,
    ensures
        ({
            let (cols, n) = (air.s_columns(), air.s_arity() as nat);
            vanish(flat(air.s_arity(), air.f_inverse()), w) <==> forall|i: int|
                0 <= i < n ==> x_mul(
                    #[trigger] cols.inverses(w.cur, n)[i],
                    x_sub(cols.challenge(w.cur), x_base(cols.points(w.cur, n)[i])),
                ) == x_one()
        }),
{
    let (cols, n) = (air.s_columns(), air.s_arity() as nat);
    let (xs, invs, z) = (cols.points(w.cur, n), cols.inverses(w.cur, n), cols.challenge(w.cur));
    vstd::arithmetic::power2::lemma_pow2_pos(air.log_arity as nat);
    lemma_vanish_flat(air.s_arity(), air.f_inverse(), w);
    assert forall|i: int| 0 <= i < n implies (vanish(#[trigger] air.f_inverse()(i), w) <==> x_mul(
        invs[i],
        x_sub(z, x_base(xs[i])),
    ) == x_one()) by {
        let chk = cols.s_inverse_product(i);
        let cs = air.f_inverse()(i);
        cols.lemma_diff_value(w, n, i);
        lemma_const_value(1, w);
        lemma_first_equation(chk.a, w_const(1), w);
        lemma_first_value(chk.b, w);
        assert(cs[0] == w_on_first(w_minus(chk.a, w_const(1))) && cs[1] == w_on_first(chk.b) && cs.len() == 2);
    }
    if vanish(flat(air.s_arity(), air.f_inverse()), w) {
        assert forall|i: int| 0 <= i < n implies x_mul(#[trigger] invs[i], x_sub(z, x_base(xs[i]))) == x_one() by {
            assert(vanish(air.f_inverse()(i), w));
        }
    }
    if forall|i: int| 0 <= i < n ==> x_mul(#[trigger] invs[i], x_sub(z, x_base(xs[i]))) == x_one() {
        assert forall|i: int| 0 <= i < air.s_arity() implies vanish(#[trigger] air.f_inverse()(i), w) by {
            assert(x_mul(invs[i], x_sub(z, x_base(xs[i]))) == x_one());
        }
    }
}

/// The values of the last five constraints of a fold.
proof fn lemma_fold_tail(air: GeneralFoldAir, w: Window)
    requires
        air.wf(),
        w.is_first == 1,
    ensures
        ({
            let cols = air.s_columns();
            let res = cols.s_folded(air.s_arity());
            let folded = 5 * air.s_arity() + 3;
            let tail = seq![
                w_on_first(w_minus(cols.s_scale_product(air.log_arity as int), w_const(1))),
                w_on_first(w_minus(w_cur(folded), res.a)),
                w_on_first(w_minus(w_cur(folded + 1), res.b)),
                w_on_first(w_minus(w_cur(folded), w_pub(0))),
                w_on_first(w_minus(w_cur(folded + 1), w_pub(1))),
            ];
            vanish(tail, w) <==> {
                &&& value(cols.s_scale_product(air.log_arity as int), w) == 1
                &&& pair_at(w.cur, folded) == value2(res, w)
                &&& pair_at(w.cur, folded) == pair_at(w.publics, 0)
            }
        }),
{
    let cols = air.s_columns();
    let res = cols.s_folded(air.s_arity());
    let folded = 5 * air.s_arity() + 3;
    let scale = cols.s_scale_product(air.log_arity as int);
    let tail = seq![
        w_on_first(w_minus(scale, w_const(1))),
        w_on_first(w_minus(w_cur(folded), res.a)),
        w_on_first(w_minus(w_cur(folded + 1), res.b)),
        w_on_first(w_minus(w_cur(folded), w_pub(0))),
        w_on_first(w_minus(w_cur(folded + 1), w_pub(1))),
    ];
    vstd::arithmetic::power2::lemma_pow2_pos(air.log_arity as nat);
    lemma_const_value(1, w);
    lemma_leaf_values(folded, w);
    lemma_leaf_values(folded + 1, w);
    assert(value(w_pub(0), w) == f_red(w.publics[0] as int));
    assert(value(w_pub(1), w) == f_red(w.publics[1] as int));
    lemma_first_equation(scale, w_const(1), w);
    lemma_first_equation(w_cur(folded), res.a, w);
    lemma_first_equation(w_cur(folded + 1), res.b, w);
    lemma_first_equation(w_cur(folded), w_pub(0), w);
    lemma_first_equation(w_cur(folded + 1), w_pub(1), w);
    if vanish(tail, w) {
        assert(value(tail[0], w) == 0 && value(tail[1], w) == 0 && value(tail[2], w) == 0 && value(tail[3], w) == 0
            && value(tail[4], w) == 0);
    }
}

/// On the first row, for points that are a coset, the constraints of a fold vanish exactly if the inverses and the scale
/// are in place and the public value is the interpolation of the group over its points at the challenge.
pub proof fn law_fold_interpolates(air: GeneralFoldAir, w: Window)
    requires
        air.wf(),
        w.is_first == 1,
        is_coset(air.s_columns().points(w.cur, pow2(air.log_arity as nat)), air.log_arity as nat),
    ensures
        ({
            let (cols, m) = (air.s_columns(), air.log_arity as nat);
            let n = pow2(m);
            let (xs, ys, z) = (cols.points(w.cur, n), cols.group(w.cur, n), cols.challenge(w.cur));
            vanish(air.s_eval(), w) <==> {
                &&& scaled(xs, z, cols.inverses(w.cur, n), cols.scale(w.cur), m)
                &&& pair_at(w.cur, 5 * air.s_arity() + 3) == lagrange(xs, ys, z)
                &&& pair_at(w.publics, 0) == lagrange(xs, ys, z)
            }
        }),
{
    let (cols, m) = (air.s_columns(), air.log_arity as nat);
    let n = pow2(m);
    let (xs, ys, z) = (cols.points(w.cur, n), cols.group(w.cur, n), cols.challenge(w.cur));
    let res = cols.s_folded(air.s_arity());
    let folded = 5 * air.s_arity() + 3;
    let tail = seq![
        w_on_first(w_minus(cols.s_scale_product(air.log_arity as int), w_const(1))),
        w_on_first(w_minus(w_cur(folded), res.a)),
        w_on_first(w_minus(w_cur(folded + 1), res.b)),
        w_on_first(w_minus(w_cur(folded), w_pub(0))),
        w_on_first(w_minus(w_cur(folded + 1), w_pub(1))),
    ];
    let head = flat(air.s_arity(), air.f_inverse());
    assert(air.s_eval() == head + tail);
    lemma_vanish_parts(head, tail, w);
    lemma_fold_inverses(air, w);
    lemma_fold_tail(air, w);
    cols.lemma_scale_value(w, m);
    if scaled(xs, z, cols.inverses(w.cur, n), cols.scale(w.cur), m) {
        cols.lemma_folded_value(w, m);
    }
}

/// The slot that the two bits of a chain row name.
pub open spec fn slot_of(row: Seq<u64>) -> int {
    f_red(row[A4_B0 as int] as int) + 2 * f_red(row[A4_B1 as int] as int)
}

/// A product of two bits, each taken as it is or turned, is one exactly if both are.
proof fn lemma_both(a: u64, b: u64)
    requires
        a == 0 || a == 1,
        b == 0 || b == 1,
    ensures
        f_mul(a, b) == (if a == 1 && b == 1 {
            1u64
        } else {
            0u64
        }),
{
    lemma_gates(b);
}

/// A slot's indicator is one exactly for the slot that the bits name.
proof fn lemma_slot_selector(w: Window, j: int)
    requires
        0 <= j < 4,
        f_red(w.cur[A4_B0 as int] as int) == 0 || f_red(w.cur[A4_B0 as int] as int) == 1,
        f_red(w.cur[A4_B1 as int] as int) == 0 || f_red(w.cur[A4_B1 as int] as int) == 1,
    ensures
        value(slot_selector(j), w) == (if j == slot_of(w.cur) {
            1u64
        } else {
            0u64
        }),
{
    let (one, b0, b1) = (w_const(1), w_cur(A4_B0 as int), w_cur(A4_B1 as int));
    let (n0, n1) = (w_minus(one, b0), w_minus(one, b1));
    lemma_const_value(1, w);
    lemma_leaf_values(A4_B0 as int, w);
    lemma_leaf_values(A4_B1 as int, w);
    lemma_op_values(one, b0, w);
    lemma_op_values(one, b1, w);
    let p = if j % 2 == 1 {
        b0
    } else {
        n0
    };
    let q = if j >= 2 {
        b1
    } else {
        n1
    };
    assert(slot_selector(j) == w_times(p, q));
    lemma_op_values(p, q, w);
    lemma_both(value(p, w), value(q, w));
}

/// The slotted value over the first `n` slots.
proof fn lemma_slotted(w: Window, n: nat)
    requires
        n <= 4,
        f_red(w.cur[A4_B0 as int] as int) == 0 || f_red(w.cur[A4_B0 as int] as int) == 1,
        f_red(w.cur[A4_B1 as int] as int) == 0 || f_red(w.cur[A4_B1 as int] as int) == 1,
    ensures
        value2(slotted(n as int), w) == (if slot_of(w.cur) < n {
            chain_columns().group(w.cur, 4)[slot_of(w.cur)]
        } else {
            x_zero()
        }),
    decreases n,
{
    lemma_const_value(0, w);
    if n > 0 {
        let j = n - 1;
        lemma_slotted(w, j as nat);
        lemma_slot_selector(w, j);
        let e = w2_cur(A4_EVALS + 2 * j);
        let s = slot_selector(j);
        lemma_pair_value(A4_EVALS + 2 * j, w);
        lemma_op_values(s, e.a, w);
        lemma_op_values(s, e.b, w);
        lemma_op_values(slotted(j).a, w_times(s, e.a), w);
        lemma_op_values(slotted(j).b, w_times(s, e.b), w);
        lemma_value_canonical(e.a, w);
        lemma_value_canonical(e.b, w);
        lemma_value_canonical(slotted(j).a, w);
        lemma_value_canonical(slotted(j).b, w);
        lemma_gates(value(e.a, w));
        lemma_gates(value(e.b, w));
        lemma_gates(value(slotted(j).a, w));
        lemma_gates(value(slotted(j).b, w));
    }
}

/// The inverse constraints of a fold row of the chain vanish exactly if the inverses invert.
proof fn lemma_chain_inverses(w: Window)
    requires
        w.periodic[0] == 1,
    ensures
        ({
            let cols = chain_columns();
            vanish(flat(4, f_chain_inverse()), w) <==> forall|i: int|
                0 <= i < 4 ==> x_mul(
                    #[trigger] cols.inverses(w.cur, 4)[i],
                    x_sub(cols.challenge(w.cur), x_base(cols.points(w.cur, 4)[i])),
                ) == x_one()
        }),
{
    let cols = chain_columns();
    let (xs, invs, z) = (cols.points(w.cur, 4), cols.inverses(w.cur, 4), cols.challenge(w.cur));
    let on = w_per(0);
    lemma_leaf_values(0, w);
    lemma_vanish_flat(4, f_chain_inverse(), w);
    assert forall|i: int| 0 <= i < 4 implies (vanish(#[trigger] f_chain_inverse()(i), w) <==> x_mul(
        invs[i],
        x_sub(z, x_base(xs[i])),
    ) == x_one()) by {
        let chk = cols.s_inverse_product(i);
        cols.lemma_diff_value(w, 4, i);
        lemma_is_one(on, chk, w);
        assert(f_chain_inverse()(i) =~= seq![w_times(on, w_minus(chk.a, w_const(1))), w_times(on, chk.b)]);
    }
    if vanish(flat(4, f_chain_inverse()), w) {
        assert forall|i: int| 0 <= i < 4 implies x_mul(#[trigger] invs[i], x_sub(z, x_base(xs[i]))) == x_one() by {
            assert(vanish(f_chain_inverse()(i), w));
        }
    }
    if forall|i: int| 0 <= i < 4 ==> x_mul(#[trigger] invs[i], x_sub(z, x_base(xs[i]))) == x_one() {
        assert forall|i: int| 0 <= i < 4 implies vanish(#[trigger] f_chain_inverse()(i), w) by {
            assert(x_mul(invs[i], x_sub(z, x_base(xs[i]))) == x_one());
        }
    }
}

/// A gated wire is zero exactly if its switch is off or the wire is.
proof fn lemma_gated_zero(gate: Wire, a: Wire, w: Window)
    requires
        value(gate, w) == 0 || value(gate, w) == 1,
    ensures
        value(w_times(gate, a), w) == 0 <==> (value(gate, w) == 1 ==> value(a, w) == 0),
{
    lemma_op_values(gate, a, w);
    lemma_value_canonical(a, w);
    lemma_gates(value(a, w));
}

/// A gated difference is zero exactly if its switch is off or the two sides agree.
proof fn lemma_gated_difference(gate: Wire, a: Wire, b: Wire, w: Window)
    requires
        value(gate, w) == 0 || value(gate, w) == 1,
    ensures
        value(w_times(gate, w_minus(a, b)), w) == 0 <==> (value(gate, w) == 1 ==> value(a, w) == value(b, w)),
{
    lemma_gated_zero(gate, w_minus(a, b), w);
    lemma_op_values(a, b, w);
    lemma_value_canonical(a, w);
    lemma_value_canonical(b, w);
    lemma_canonical_difference(value(a, w), value(b, w));
}

/// The bit constraint of a column on a fold row.
proof fn lemma_chain_bit(w: Window, i: int)
    requires
        0 <= i <= usize::MAX,
        w.periodic[0] == 1,
    ensures
        value(w_times(w_per(0), w_times(w_cur(i), w_minus(w_const(1), w_cur(i)))), w) == 0 <==> f_red(w.cur[i] as int) == 0
            || f_red(w.cur[i] as int) == 1,
{
    let (one, b) = (w_const(1), w_cur(i));
    lemma_leaf_values(0, w);
    lemma_leaf_values(i, w);
    lemma_const_value(1, w);
    lemma_op_values(one, b, w);
    lemma_op_values(b, w_minus(one, b), w);
    lemma_gated_zero(w_per(0), w_times(b, w_minus(one, b)), w);
    law_bit_constraint(value(b, w));
    lemma_mul_one(value(b, w));
    lemma_value_canonical(b, w);
}

/// What the constraints before and behind the inverses ask of a fold row of the chain.
spec fn chain_ends(w: Window) -> bool {
    let cols = chain_columns();
    let (b0, b1) = (f_red(w.cur[A4_B0 as int] as int), f_red(w.cur[A4_B1 as int] as int));
    &&& b0 == 0 || b0 == 1
    &&& b1 == 0 || b1 == 1
    &&& pair_at(w.cur, 0) == value2(slotted(4), w)
    &&& value(cols.s_scale_product(2), w) == 1
    &&& pair_at(w.nxt, 0) == value2(cols.s_folded(4), w)
}

proof fn lemma_chain_ends(air: Arity4FoldChainAir, w: Window)
    requires
        w.is_first == 0,
        w.is_transition == 1,
        w.periodic[0] == 1,
        w.periodic[1] == 0,
    ensures
        vanish(air.s_eval(), w) <==> chain_ends(w) && vanish(flat(4, f_chain_inverse()), w),
{
    let (on, fin, one) = (w_per(0), w_per(1), w_const(1));
    let cols = chain_columns();
    let res = cols.s_folded(4);
    let (b0, b1) = (w_cur(A4_B0 as int), w_cur(A4_B1 as int));
    let first: Wire = std::sync::Arc::new(Expr::IsFirstRow);
    let trans: Wire = std::sync::Arc::new(Expr::IsTransition);
    assert(value(first, w) == 0 && value(trans, w) == 1);
    lemma_leaf_values(0, w);
    lemma_leaf_values(1, w);
    lemma_const_value(1, w);
    let a = seq![
        w_on_first(w_minus(w_cur(0), w_pub(0))),
        w_on_first(w_minus(w_cur(1), w_pub(1))),
        w_times(on, w_times(b0, w_minus(one, b0))),
        w_times(on, w_times(b1, w_minus(one, b1))),
        w_times(on, w_minus(w_cur(0), slotted(4).a)),
        w_times(on, w_minus(w_cur(1), slotted(4).b)),
    ];
    let (n0, n1) = (w_times(on, w_minus(w_nxt(0), res.a)), w_times(on, w_minus(w_nxt(1), res.b)));
    let b = seq![
        w_times(on, w_minus(cols.s_scale_product(2), one)),
        w_on_transition(n0),
        w_on_transition(n1),
        w_times(fin, w_minus(w_cur(0), w_pub(2))),
        w_times(fin, w_minus(w_cur(1), w_pub(3))),
    ];
    let mid = flat(4, f_chain_inverse());
    assert(air.s_eval() == a + mid + b);
    lemma_vanish_parts(a, mid, w);
    lemma_vanish_parts(a + mid, b, w);
    lemma_gated_zero(first, w_minus(w_cur(0), w_pub(0)), w);
    lemma_gated_zero(first, w_minus(w_cur(1), w_pub(1)), w);
    lemma_chain_bit(w, A4_B0 as int);
    lemma_chain_bit(w, A4_B1 as int);
    lemma_gated_difference(on, w_cur(0), slotted(4).a, w);
    lemma_gated_difference(on, w_cur(1), slotted(4).b, w);
    lemma_gated_difference(on, cols.s_scale_product(2), one, w);
    lemma_gated_difference(on, w_nxt(0), res.a, w);
    lemma_gated_difference(on, w_nxt(1), res.b, w);
    lemma_gated_zero(trans, n0, w);
    lemma_gated_zero(trans, n1, w);
    lemma_gated_zero(fin, w_minus(w_cur(0), w_pub(2)), w);
    lemma_gated_zero(fin, w_minus(w_cur(1), w_pub(3)), w);
    assert(vanish(a, w) <==> value(a[2], w) == 0 && value(a[3], w) == 0 && value(a[4], w) == 0 && value(a[5], w) == 0) by {
        assert(value(a[0], w) == 0 && value(a[1], w) == 0);
    }
    assert(vanish(b, w) <==> value(b[0], w) == 0 && value(b[1], w) == 0 && value(b[2], w) == 0) by {
        assert(value(b[3], w) == 0 && value(b[4], w) == 0);
    }
}

/// On a fold row of the chain that is not its first, for points that are a coset, the constraints vanish exactly if the
/// running value stands in the slot that its two bits name, the inverses and the scale are in place, and the next
/// running value is the interpolation of the four evaluations at the challenge.
pub proof fn law_chain_row_interpolates(air: Arity4FoldChainAir, w: Window)
    requires
        w.is_first == 0,
        w.is_transition == 1,
        w.periodic[0] == 1,
        w.periodic[1] == 0,
        is_coset(chain_columns().points(w.cur, 4), 2),
    ensures
        ({
            let cols = chain_columns();
            let (xs, ys, z) = (cols.points(w.cur, 4), cols.group(w.cur, 4), cols.challenge(w.cur));
            let (b0, b1) = (f_red(w.cur[A4_B0 as int] as int), f_red(w.cur[A4_B1 as int] as int));
            vanish(air.s_eval(), w) <==> {
                &&& b0 == 0 || b0 == 1
                &&& b1 == 0 || b1 == 1
                &&& pair_at(w.cur, 0) == ys[slot_of(w.cur)]
                &&& scaled(xs, z, cols.inverses(w.cur, 4), cols.scale(w.cur), 2)
                &&& pair_at(w.nxt, 0) == lagrange(xs, ys, z)
            }
        }),
{
    let cols = chain_columns();
    let (xs, ys, z) = (cols.points(w.cur, 4), cols.group(w.cur, 4), cols.challenge(w.cur));
    let (b0, b1) = (f_red(w.cur[A4_B0 as int] as int), f_red(w.cur[A4_B1 as int] as int));
    vstd::arithmetic::power2::lemma2_to64();
    lemma_chain_ends(air, w);
    lemma_chain_inverses(w);
    cols.lemma_scale_value(w, 2);
    if (b0 == 0 || b0 == 1) && (b1 == 0 || b1 == 1) {
        lemma_slotted(w, 4);
    }
    if scaled(xs, z, cols.inverses(w.cur, 4), cols.scale(w.cur), 2) {
        cols.lemma_folded_value(w, 2);
    }
}

} // verus!
