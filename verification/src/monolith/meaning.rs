//! What the constraints of the fused verifier say of the rows on which they vanish.

use vstd::prelude::*;
use super::grid::bit_felt;
use super::trace::chain_cells;
use super::layout::{
    FT_COUNT_NEXT, FT_IS_SQ_NEXT, FT_P_BLOCK_LAST, MonolithAir, QT_B, QT_BIT, QT_E, QT_I2S, QT_S, QT_SPT,
};
use super::arith::{full_lanes, lanes, partial_lanes, plain_steps, step_wire, steps};
use crate::emit::flat;
use crate::expr::{
    law_plus_minus_value, law_times_value, lemma_value_canonical, value, value2, w2_cur, w2_minus, w2_times, w_const,
    w_cur, w_minus, w_nxt, w_on_transition, w_per, w_plus, w_times, Expr, Window, Wire,
};
use crate::field::{
    f_add, f_inv, f_mul, f_red, f_sub, is_unit, lemma_cancel, lemma_mul_assoc, lemma_mul_one, lemma_red_add,
    lemma_red_mul, lemma_two_unit, lemma_units_multiply, lemma_x_add_sub, lemma_x_distribute, lemma_x_mul_comm,
    lemma_x_mul_red, lemma_zero_difference, x_add, x_base, x_mul, x_red, x_sub, Ext, HALF, MODULUS,
};
use crate::fri::fold::pair_fold;
use crate::fri::witness::{fold_value, PairFold};
use crate::prime::law_bit_constraint;
use crate::poseidon::{
    block_row, law_ext_layer_value, law_int_layer_value, law_sbox_value, next_row, paired, row_constant,
    row_is_full, row_is_init, sbox, schedule, values, w_ext_layer, w_int_layer, w_sbox,
};
use crate::vanish::{
    lemma_canonical_difference, lemma_const_value, lemma_gates, lemma_leaf_values, lemma_op_values, lemma_scaled,
    lemma_vanish_flat, pair_at, vanish,
};

verus! {

/// The eight lanes from `col0` on, modulo p.
pub open spec fn lanes_at(row: Seq<u64>, col0: int) -> Seq<u64> {
    Seq::new(8, |i: int| f_red(row[col0 + i] as int))
}

/// The window stands on row `t` of a permutation block.
pub open spec fn at_step(w: Window, t: int) -> bool {
    &&& w.is_transition == 1
    &&& forall|j: int| 0 <= j < 11 ==> #[trigger] w.periodic[j] == schedule(j, t)
}

/// The lanes of each round kind at a window.
proof fn lemma_lane_values(col0: int, w: Window, t: int)
    requires
        0 <= col0,
        col0 + 8 <= usize::MAX,
        at_step(w, t),
    ensures
        values(lanes(col0), w) == lanes_at(w.cur, col0),
        values(full_lanes(col0), w) == Seq::new(
            8,
            |i: int| sbox(f_add(lanes_at(w.cur, col0)[i], row_constant(t, i))),
        ),
        values(partial_lanes(col0), w) == lanes_at(w.cur, col0).update(
            0,
            sbox(f_add(lanes_at(w.cur, col0)[0], row_constant(t, 0))),
        ),
{
    let s = lanes_at(w.cur, col0);
    assert forall|i: int| 0 <= i < 8 implies values(lanes(col0), w)[i] == s[i] by {
        assert(value(lanes(col0)[i], w) == s[i]);
    }
    assert forall|i: int| 0 <= i < 8 implies #[trigger] value(full_lanes(col0)[i], w) == sbox(
        f_add(s[i], row_constant(t, i)),
    ) by {
        lemma_powered_lane(col0, w, t, i);
    }
    lemma_powered_lane(col0, w, t, 0);
    assert(values(lanes(col0), w) =~= s);
    assert(values(full_lanes(col0), w) =~= Seq::new(8, |i: int| sbox(f_add(s[i], row_constant(t, i)))));
    assert forall|i: int| 0 <= i < 8 implies #[trigger] value(partial_lanes(col0)[i], w) == s.update(
        0,
        sbox(f_add(s[0], row_constant(t, 0))),
    )[i] by {}
    assert(values(partial_lanes(col0), w) =~= s.update(0, sbox(f_add(s[0], row_constant(t, 0)))));
}

/// On a transition row the selector is one.
pub(crate) proof fn lemma_transition_value(a: Wire, w: Window)
    requires
        w.is_transition == 1,
    ensures
        value(w_on_transition(a), w) == value(a, w),
{
    let gate: Wire = std::sync::Arc::new(Expr::IsTransition);
    assert(value(gate, w) == 1);
    lemma_op_values(gate, a, w);
    lemma_value_canonical(a, w);
    lemma_gates(value(a, w));
}

/// A lane through its constant and the power.
proof fn lemma_powered_lane(col0: int, w: Window, t: int, i: int)
    requires
        0 <= i < 8,
        0 <= col0,
        col0 + 8 <= usize::MAX,
        at_step(w, t),
    ensures
        value(full_lanes(col0)[i], w) == sbox(f_add(f_red(w.cur[col0 + i] as int), row_constant(t, i))),
{
    let sum = w_plus(w_cur(col0 + i), w_per(3 + i));
    assert(full_lanes(col0)[i] == w_sbox(sum));
    law_sbox_value(sum, w);
    let (a, c) = (f_red(w.cur[col0 + i] as int), row_constant(t, i));
    lemma_op_values(w_cur(col0 + i), w_per(3 + i), w);
    lemma_leaf_values(col0 + i, w);
    lemma_leaf_values(3 + i, w);
    assert(w.periodic[3 + i] == schedule(3 + i, t));
    lemma_red_add(a as int, c as int);
}

/// The lanes that the round kind of row `t` leads to.
spec fn target(col0: int, t: int) -> Seq<Wire> {
    if row_is_init(t) {
        w_ext_layer(lanes(col0))
    } else if row_is_full(t) {
        w_ext_layer(full_lanes(col0))
    } else {
        w_int_layer(partial_lanes(col0))
    }
}

proof fn lemma_target_values(col0: int, w: Window, t: int)
    requires
        0 <= t < 31,
        0 <= col0,
        col0 + 8 <= usize::MAX,
        at_step(w, t),
    ensures
        values(target(col0, t), w) == next_row(lanes_at(w.cur, col0), t),
{
    lemma_lane_values(col0, w, t);
    if row_is_init(t) {
        law_ext_layer_value(lanes(col0), w);
    } else if row_is_full(t) {
        law_ext_layer_value(full_lanes(col0), w);
    } else {
        law_int_layer_value(partial_lanes(col0), w);
    }
}

/// Three gated terms of which one gate is one and the others zero.
proof fn lemma_one_of_three(p: (u64, u64, u64), a: u64, b: u64, c: u64)
    requires
        a < MODULUS && b < MODULUS && c < MODULUS,
        p == (1u64, 0u64, 0u64) || p == (0u64, 1u64, 0u64) || p == (0u64, 0u64, 1u64),
    ensures
        f_add(f_add(f_mul(p.0, a), f_mul(p.1, b)), f_mul(p.2, c)) == (if p.0 == 1 {
            a
        } else if p.1 == 1 {
            b
        } else {
            c
        }),
{
    lemma_gates(a);
    lemma_gates(b);
    lemma_gates(c);
    lemma_gates(0);
}

/// A step constraint is the difference between the next lane and the lane that the round kind of row `t` asks for.
proof fn lemma_step_value(col0: int, w: Window, t: int, i: int)
    requires
        0 <= t < 31,
        0 <= i < 8,
        0 <= col0,
        col0 + 8 <= usize::MAX,
        at_step(w, t),
    ensures
        value(step_wire(col0, i), w) == f_sub(f_red(w.nxt[col0 + i] as int), value(target(col0, t)[i], w)),
{
    let n = w_nxt(col0 + i);
    let (ea, eb, ec) = (
        w_ext_layer(lanes(col0))[i],
        w_ext_layer(full_lanes(col0))[i],
        w_int_layer(partial_lanes(col0))[i],
    );
    let (a, b, c) = (w_minus(n, ea), w_minus(n, eb), w_minus(n, ec));
    let (p0, p1, p2) = (w_per(0), w_per(1), w_per(2));
    lemma_leaf_values(0, w);
    lemma_leaf_values(1, w);
    lemma_leaf_values(2, w);
    lemma_leaf_values(col0 + i, w);
    assert(w.periodic[0] == schedule(0, t) && w.periodic[1] == schedule(1, t) && w.periodic[2] == schedule(2, t));
    lemma_op_values(n, ea, w);
    lemma_op_values(n, eb, w);
    lemma_op_values(n, ec, w);
    lemma_op_values(p0, a, w);
    lemma_op_values(p1, b, w);
    lemma_op_values(p2, c, w);
    lemma_op_values(w_times(p0, a), w_times(p1, b), w);
    lemma_op_values(w_plus(w_times(p0, a), w_times(p1, b)), w_times(p2, c), w);
    lemma_value_canonical(a, w);
    lemma_value_canonical(b, w);
    lemma_value_canonical(c, w);
    lemma_one_of_three((value(p0, w), value(p1, w), value(p2, w)), value(a, w), value(b, w), value(c, w));
}

/// A step constraint, plain or gated, is zero exactly if the next lane is the one that the round kind asks for.
proof fn lemma_step_zero(col0: int, gate: Wire, w: Window, t: int, i: int)
    requires
        0 <= t < 31,
        0 <= i < 8,
        0 <= col0,
        col0 + 8 <= usize::MAX,
        at_step(w, t),
        value(gate, w) == 1,
    ensures
        value(plain_steps(col0)[i], w) == 0 <==> f_red(w.nxt[col0 + i] as int) == value(target(col0, t)[i], w),
        value(steps(col0, gate)[i], w) == 0 <==> f_red(w.nxt[col0 + i] as int) == value(target(col0, t)[i], w),
{
    let s = step_wire(col0, i);
    let (got, want) = (f_red(w.nxt[col0 + i] as int), value(target(col0, t)[i], w));
    lemma_step_value(col0, w, t, i);
    lemma_op_values(gate, s, w);
    lemma_value_canonical(s, w);
    lemma_gates(value(s, w));
    lemma_transition_value(s, w);
    lemma_transition_value(w_times(gate, s), w);
    lemma_value_canonical(target(col0, t)[i], w);
    lemma_canonical_difference(got, want);
}

/// Eight constraints, each zero exactly if two entries agree, vanish exactly if two rows of eight agree.
proof fn lemma_eight_agree(cs: Seq<Wire>, w: Window, got: Seq<u64>, want: Seq<u64>)
    requires
        cs.len() == 8,
        got.len() == 8,
        want.len() == 8,
        forall|i: int| 0 <= i < 8 ==> (#[trigger] value(cs[i], w) == 0 <==> got[i] == want[i]),
    ensures
        vanish(cs, w) <==> got == want,
{
    if vanish(cs, w) {
        assert forall|i: int| 0 <= i < 8 implies got[i] == want[i] by {
            assert(value(cs[i], w) == 0);
        }
        assert(got =~= want);
    }
}

/// On row `t` of a block the permutation constraints vanish exactly if the next row holds the next state of the
/// permutation.
pub proof fn law_steps_advance(col0: int, gate: Wire, w: Window, t: int)
    requires
        0 <= t < 31,
        0 <= col0,
        col0 + 8 <= usize::MAX,
        at_step(w, t),
        value(gate, w) == 1,
    ensures
        vanish(plain_steps(col0), w) <==> lanes_at(w.nxt, col0) == next_row(lanes_at(w.cur, col0), t),
        vanish(steps(col0, gate), w) <==> lanes_at(w.nxt, col0) == next_row(lanes_at(w.cur, col0), t),
{
    let (got, want) = (lanes_at(w.nxt, col0), values(target(col0, t), w));
    assert forall|i: int| 0 <= i < 8 implies (#[trigger] value(plain_steps(col0)[i], w) == 0 <==> got[i] == want[i]) by {
        lemma_step_zero(col0, gate, w, t, i);
    }
    assert forall|i: int| 0 <= i < 8 implies (#[trigger] value(steps(col0, gate)[i], w) == 0 <==> got[i] == want[i]) by {
        lemma_step_zero(col0, gate, w, t, i);
    }
    lemma_eight_agree(plain_steps(col0), w, got, want);
    lemma_eight_agree(steps(col0, gate), w, got, want);
    lemma_target_values(col0, w, t);
}

/// Where the permutation constraints vanish on the rows of a block, the rows are those of the permutation of the
/// block's first row.
pub proof fn law_block_runs(col0: int, ws: Seq<Window>, n: nat)
    requires
        n <= 31,
        n < ws.len(),
        0 <= col0,
        col0 + 8 <= usize::MAX,
        forall|t: int| 0 <= t < n ==> at_step(#[trigger] ws[t], t) && vanish(plain_steps(col0), ws[t]),
        forall|t: int| 0 <= t < n ==> (#[trigger] ws[t]).nxt == ws[t + 1].cur,
    ensures
        lanes_at(ws[n as int].cur, col0) == block_row(lanes_at(ws[0].cur, col0), n),
    decreases n,
{
    if n > 0 {
        let t = n - 1;
        law_block_runs(col0, ws, t as nat);
        let one = w_const(1);
        assert(value(one, ws[t]) == 1);
        assert(at_step(ws[t], t));
        law_steps_advance(col0, one, ws[t], t);
        assert(ws[t].nxt == ws[t + 1].cur);
    }
}

/// An inverse is unique.
proof fn lemma_inverse_is(d: u64, k: u64)
    requires
        k < MODULUS,
        f_mul(k, d) == 1,
    ensures
        f_inv(d) == k,
{
    lemma_mul_assoc(k, d, 0);
    let c = f_inv(d);
    assert(c < MODULUS && f_mul(d, c) == 1);
    lemma_cancel(d, k, c, k);
}

/// The difference the other way round is the negative.
proof fn lemma_turned_difference(a: u64, b: u64)
    ensures
        f_sub(a, b) == f_sub(0, f_sub(b, a)),
{
    lemma_red_add(0, b - a);
}

/// A fold coordinate of the circuit for a running value that stands first.
proof fn lemma_fold_first(e: Ext, s: Ext, beta: Ext, point: u64, k: u64)
    requires
        k == f_inv(f_mul(2, point)),
    ensures
        ({
            let prod = x_mul(x_sub(e, s), beta);
            pair_fold(e, s, beta, point) == Ext {
                c0: f_add(f_mul(f_add(e.c0, s.c0), HALF), f_mul(prod.c0, k)),
                c1: f_add(f_mul(f_add(e.c1, s.c1), HALF), f_mul(prod.c1, k)),
            }
        }),
{
    reveal(pair_fold);
    lemma_x_mul_comm(x_sub(e, s), beta);
    lemma_scaled(x_mul(beta, x_sub(e, s)), k);
    lemma_scaled(x_add(e, s), HALF);
}

/// The negative of a product of extension elements.
proof fn lemma_turned_product(e: Ext, s: Ext, beta: Ext)
    ensures
        x_mul(x_sub(s, e), beta) == (Ext {
            c0: f_sub(0, x_mul(x_sub(e, s), beta).c0),
            c1: f_sub(0, x_mul(x_sub(e, s), beta).c1),
        }),
{
    lemma_x_mul_comm(x_sub(s, e), beta);
    lemma_x_mul_comm(x_sub(e, s), beta);
    lemma_x_distribute(beta, s, e);
    lemma_x_distribute(beta, e, s);
    let (p, q) = (x_mul(beta, s), x_mul(beta, e));
    lemma_turned_difference(p.c0, q.c0);
    lemma_turned_difference(p.c1, q.c1);
}

/// The cells of a fold row modulo p: the running value, the sibling, the challenge, the bit, the point and the
/// claimed inverse of its double.
pub struct FoldCells {
    pub e: Ext,
    pub sibling: Ext,
    pub beta: Ext,
    pub bit: u64,
    pub point: u64,
    pub inverse: u64,
}

pub open spec fn fold_cells(row: Seq<u64>) -> FoldCells {
    FoldCells {
        e: pair_at(row, QT_E as int),
        sibling: pair_at(row, QT_S as int),
        beta: pair_at(row, QT_B as int),
        bit: f_red(row[QT_BIT as int] as int),
        point: f_red(row[QT_SPT as int] as int),
        inverse: f_red(row[QT_I2S as int] as int),
    }
}

/// The fold of the running value with its sibling, in the order that the bit names.
pub open spec fn fold_of(f: FoldCells) -> Ext {
    if f.bit == 1 {
        pair_fold(f.sibling, f.e, f.beta, f.point)
    } else {
        pair_fold(f.e, f.sibling, f.beta, f.point)
    }
}

/// A coordinate of the circuit's fold.
#[verifier::opaque]
spec fn fold_coordinate(e: u64, s: u64, prod: u64, bit: u64, k: u64) -> u64 {
    f_add(f_mul(f_add(e, s), HALF), f_mul(f_mul(f_sub(1, f_mul(2, bit)), prod), k))
}

/// The circuit's fold is the fold of two.
proof fn lemma_circuit_fold(f: FoldCells)
    requires
        f.bit == 0 || f.bit == 1,
        f.inverse == f_inv(f_mul(2, f.point)),
    ensures
        ({
            let prod = x_mul(x_sub(f.e, f.sibling), f.beta);
            fold_of(f) == Ext {
                c0: fold_coordinate(f.e.c0, f.sibling.c0, prod.c0, f.bit, f.inverse),
                c1: fold_coordinate(f.e.c1, f.sibling.c1, prod.c1, f.bit, f.inverse),
            }
        }),
{
    reveal(fold_coordinate);
    let prod = x_mul(x_sub(f.e, f.sibling), f.beta);
    lemma_gates(prod.c0);
    lemma_gates(prod.c1);
    if f.bit == 0 {
        assert(f_sub(1, f_mul(2, 0)) == 1);
        lemma_fold_first(f.e, f.sibling, f.beta, f.point, f.inverse);
    } else {
        assert(f_sub(1, f_mul(2, 1)) == f_sub(0, 1));
        lemma_fold_first(f.sibling, f.e, f.beta, f.point, f.inverse);
        lemma_turned_product(f.e, f.sibling, f.beta);
        lemma_minus_one(prod.c0);
        lemma_minus_one(prod.c1);
    }
}

/// Minus one times a value is its negative.
proof fn lemma_minus_one(v: u64)
    ensures
        f_mul(f_sub(0, 1), v) == f_sub(0, v),
{
    lemma_red_mul(-1, v as int);
    assert(-1 * v == -v) by (nonlinear_arith);
}

/// One round of the fold chain: the bit is one, the register sheds it, the inverse inverts, and the next value is the
/// fold.
pub open spec fn folds(f: FoldCells, rem: u64, rem_next: u64, e_next: Ext) -> bool {
    &&& f.bit == 0 || f.bit == 1
    &&& rem == f_add(f_mul(2, rem_next), f.bit)
    &&& f_mul(f.inverse, f_mul(2, f.point)) == 1
    &&& e_next == fold_of(f)
}

/// a - 2 b - c is zero exactly if a is 2 b + c.
proof fn lemma_shed(a: u64, b: u64, c: u64)
    requires
        a < MODULUS,
    ensures
        f_sub(f_sub(a, f_mul(2, b)), c) == 0 <==> a == f_add(f_mul(2, b), c),
{
    let d = f_mul(2, b);
    lemma_red_add(a - d, c as int);
    let t = f_add(d, c);
    lemma_red_add(a as int, d + c);
    assert(f_sub(f_sub(a, d), c) == f_sub(a, t));
    lemma_zero_difference(a, t);
}

/// A wire gated by the transition rows and a mask that is one.
pub(crate) proof fn lemma_masked(mask: Wire, a: Wire, w: Window)
    requires
        w.is_transition == 1,
        value(mask, w) == 1,
    ensures
        value(w_on_transition(w_times(mask, a)), w) == value(a, w),
{
    lemma_op_values(mask, a, w);
    lemma_value_canonical(a, w);
    lemma_gates(value(a, w));
    lemma_transition_value(w_times(mask, a), w);
}

/// The wires of the circuit's fold carry it.
proof fn lemma_fold_wire(e: Wire, s: Wire, prod: Wire, w: Window)
    ensures
        ({
            let sign = w_minus(w_const(1), w_times(w_const(2), w_cur(QT_BIT as int)));
            value(
                w_plus(
                    w_times(w_plus(e, s), w_const(HALF)),
                    w_times(w_times(sign, prod), w_cur(QT_I2S as int)),
                ),
                w,
            ) == fold_coordinate(
                value(e, w),
                value(s, w),
                value(prod, w),
                f_red(w.cur[QT_BIT as int] as int),
                f_red(w.cur[QT_I2S as int] as int),
            )
        }),
{
    reveal(fold_coordinate);
    let (one, two, half) = (w_const(1), w_const(2), w_const(HALF));
    let (bit, inv) = (w_cur(QT_BIT as int), w_cur(QT_I2S as int));
    let sign = w_minus(one, w_times(two, bit));
    lemma_const_value(1, w);
    lemma_const_value(2, w);
    lemma_const_value(HALF, w);
    lemma_leaf_values(QT_BIT as int, w);
    lemma_leaf_values(QT_I2S as int, w);
    lemma_op_values(two, bit, w);
    lemma_op_values(one, w_times(two, bit), w);
    lemma_op_values(sign, prod, w);
    lemma_op_values(w_times(sign, prod), inv, w);
    lemma_op_values(e, s, w);
    lemma_op_values(w_plus(e, s), half, w);
    lemma_op_values(w_times(w_plus(e, s), half), w_times(w_times(sign, prod), inv), w);
}

/// The value of the register constraint of a fold row.
proof fn lemma_register_value(mask: Wire, r: int, w: Window)
    requires
        0 <= r <= usize::MAX,
        w.is_transition == 1,
        value(mask, w) == 1,
    ensures
        value(
            w_on_transition(
                w_times(mask, w_minus(w_minus(w_cur(r), w_times(w_const(2), w_nxt(r))), w_cur(QT_BIT as int))),
            ),
            w,
        ) == f_sub(
            f_sub(f_red(w.cur[r] as int), f_mul(2, f_red(w.nxt[r] as int))),
            f_red(w.cur[QT_BIT as int] as int),
        ),
{
    let (two, bit) = (w_const(2), w_cur(QT_BIT as int));
    let (rem, rem_next) = (w_cur(r), w_nxt(r));
    lemma_const_value(2, w);
    lemma_leaf_values(r, w);
    lemma_leaf_values(QT_BIT as int, w);
    lemma_op_values(two, rem_next, w);
    lemma_op_values(rem, w_times(two, rem_next), w);
    lemma_op_values(w_minus(rem, w_times(two, rem_next)), bit, w);
    lemma_masked(mask, w_minus(w_minus(rem, w_times(two, rem_next)), bit), w);
}

/// The value of the bit constraint of a fold row.
proof fn lemma_bit_value(mask: Wire, w: Window)
    requires
        w.is_transition == 1,
        value(mask, w) == 1,
    ensures
        ({
            let bit = w_cur(QT_BIT as int);
            let b = f_red(w.cur[QT_BIT as int] as int);
            value(w_on_transition(w_times(mask, w_times(bit, w_minus(w_const(1), bit)))), w) == f_mul(b, f_sub(1, b))
        }),
{
    let (one, bit) = (w_const(1), w_cur(QT_BIT as int));
    lemma_const_value(1, w);
    lemma_leaf_values(QT_BIT as int, w);
    lemma_op_values(one, bit, w);
    lemma_op_values(bit, w_minus(one, bit), w);
    lemma_masked(mask, w_times(bit, w_minus(one, bit)), w);
}

/// The value of the inverse constraint of a fold row.
proof fn lemma_inverse_value(mask: Wire, w: Window)
    requires
        w.is_transition == 1,
        value(mask, w) == 1,
    ensures
        value(
            w_on_transition(
                w_times(
                    mask,
                    w_minus(
                        w_times(w_cur(QT_I2S as int), w_times(w_const(2), w_cur(QT_SPT as int))),
                        w_const(1),
                    ),
                ),
            ),
            w,
        ) == f_sub(
            f_mul(f_red(w.cur[QT_I2S as int] as int), f_mul(2, f_red(w.cur[QT_SPT as int] as int))),
            1,
        ),
{
    let (one, two) = (w_const(1), w_const(2));
    let (inv, point) = (w_cur(QT_I2S as int), w_cur(QT_SPT as int));
    lemma_const_value(1, w);
    lemma_const_value(2, w);
    lemma_leaf_values(QT_I2S as int, w);
    lemma_leaf_values(QT_SPT as int, w);
    lemma_op_values(two, point, w);
    lemma_op_values(inv, w_times(two, point), w);
    lemma_op_values(w_times(inv, w_times(two, point)), one, w);
    lemma_masked(mask, w_minus(w_times(inv, w_times(two, point)), one), w);
}

/// The value of a fold constraint: the next value against the circuit's fold.
proof fn lemma_next_value(mask: Wire, col: int, e: Wire, s: Wire, prod: Wire, w: Window)
    requires
        0 <= col <= usize::MAX,
        w.is_transition == 1,
        value(mask, w) == 1,
    ensures
        ({
            let sign = w_minus(w_const(1), w_times(w_const(2), w_cur(QT_BIT as int)));
            let fold = w_plus(
                w_times(w_plus(e, s), w_const(HALF)),
                w_times(w_times(sign, prod), w_cur(QT_I2S as int)),
            );
            value(w_on_transition(w_times(mask, w_minus(w_nxt(col), fold))), w) == f_sub(
                f_red(w.nxt[col] as int),
                fold_coordinate(
                    value(e, w),
                    value(s, w),
                    value(prod, w),
                    f_red(w.cur[QT_BIT as int] as int),
                    f_red(w.cur[QT_I2S as int] as int),
                ),
            )
        }),
{
    let sign = w_minus(w_const(1), w_times(w_const(2), w_cur(QT_BIT as int)));
    let fold = w_plus(w_times(w_plus(e, s), w_const(HALF)), w_times(w_times(sign, prod), w_cur(QT_I2S as int)));
    lemma_fold_wire(e, s, prod, w);
    lemma_leaf_values(col, w);
    lemma_op_values(w_nxt(col), fold, w);
    lemma_masked(mask, w_minus(w_nxt(col), fold), w);
}

/// The extension wires of a fold row carry its cells.
proof fn lemma_fold_wires(w: Window)
    ensures
        ({
            let (e, s, b) = (w2_cur(QT_E as int), w2_cur(QT_S as int), w2_cur(QT_B as int));
            let f = fold_cells(w.cur);
            &&& value2(e, w) == f.e
            &&& value2(s, w) == f.sibling
            &&& value2(w2_times(w2_minus(e, s), b), w) == x_mul(x_sub(f.e, f.sibling), f.beta)
        }),
{
    let (e, s, b) = (w2_cur(QT_E as int), w2_cur(QT_S as int), w2_cur(QT_B as int));
    lemma_leaf_values(QT_E as int, w);
    lemma_leaf_values(QT_E + 1, w);
    lemma_leaf_values(QT_S as int, w);
    lemma_leaf_values(QT_S + 1, w);
    lemma_leaf_values(QT_B as int, w);
    lemma_leaf_values(QT_B + 1, w);
    law_plus_minus_value(e, s, w);
    law_times_value(w2_minus(e, s), b, w);
}

/// Five constraints vanish exactly if each does.
proof fn lemma_five(cs: Seq<Wire>, w: Window)
    requires
        cs.len() >= 5,
    ensures
        vanish(cs.take(5), w) <==> value(cs[0], w) == 0 && value(cs[1], w) == 0 && value(cs[2], w) == 0 && value(
            cs[3],
            w,
        ) == 0 && value(cs[4], w) == 0,
{
    let five = cs.take(5);
    assert(five[0] == cs[0] && five[1] == cs[1] && five[2] == cs[2] && five[3] == cs[3] && five[4] == cs[4]);
}

/// The zeros of the five values of a fold row.
proof fn lemma_fold_zeros(f: FoldCells, rem: u64, rem_next: u64, next: Ext)
    requires
        f.bit < MODULUS && f.inverse < MODULUS && rem < MODULUS && next.c0 < MODULUS && next.c1 < MODULUS,
    ensures
        ({
            let prod = x_mul(x_sub(f.e, f.sibling), f.beta);
            let g0 = fold_coordinate(f.e.c0, f.sibling.c0, prod.c0, f.bit, f.inverse);
            let g1 = fold_coordinate(f.e.c1, f.sibling.c1, prod.c1, f.bit, f.inverse);
            folds(f, rem, rem_next, next) <==> {
                &&& f_sub(f_sub(rem, f_mul(2, rem_next)), f.bit) == 0
                &&& f_mul(f.bit, f_sub(1, f.bit)) == 0
                &&& f_sub(f_mul(f.inverse, f_mul(2, f.point)), 1) == 0
                &&& f_sub(next.c0, g0) == 0
                &&& f_sub(next.c1, g1) == 0
            }
        }),
{
    let prod = x_mul(x_sub(f.e, f.sibling), f.beta);
    let g0 = fold_coordinate(f.e.c0, f.sibling.c0, prod.c0, f.bit, f.inverse);
    let g1 = fold_coordinate(f.e.c1, f.sibling.c1, prod.c1, f.bit, f.inverse);
    let turned = f_mul(f.inverse, f_mul(2, f.point));
    assert(g0 < MODULUS && g1 < MODULUS) by {
        reveal(fold_coordinate);
    }
    assert((f.bit == 0 || f.bit == 1) <==> f_mul(f.bit, f_sub(1, f.bit)) == 0) by {
        law_bit_constraint(f.bit);
        lemma_mul_one(f.bit);
    }
    assert(rem == f_add(f_mul(2, rem_next), f.bit) <==> f_sub(f_sub(rem, f_mul(2, rem_next)), f.bit) == 0) by {
        lemma_shed(rem, rem_next, f.bit);
    }
    assert(turned == 1 <==> f_sub(turned, 1) == 0) by {
        lemma_canonical_difference(turned, 1);
    }
    assert(next.c0 == g0 <==> f_sub(next.c0, g0) == 0) by {
        lemma_canonical_difference(next.c0, g0);
    }
    assert(next.c1 == g1 <==> f_sub(next.c1, g1) == 0) by {
        lemma_canonical_difference(next.c1, g1);
    }
    if turned == 1 && (f.bit == 0 || f.bit == 1) {
        assert(fold_of(f) == Ext { c0: g0, c1: g1 }) by {
            lemma_inverse_is(f_mul(2, f.point), f.inverse);
            lemma_circuit_fold(f);
        }
    }
}

/// On a row of the fold chain the fold constraints vanish exactly if the row and the next one are a round of folds of
/// two: the bit is a bit, the index register sheds it, the inverse inverts the doubled point, and the next running
/// value is the fold.
#[verifier::spinoff_prover]
#[verifier::rlimit(40)]
pub proof fn law_fold_row_folds(air: MonolithAir, w: Window)
    requires
        0 <= air.s_idx_rem() <= usize::MAX,
        w.is_transition == 1,
        value(air.s_round_mask(air.s_cm_rounds()), w) == 1,
    ensures
        vanish(air.s_fold_rows().take(5), w) <==> folds(
            fold_cells(w.cur),
            f_red(w.cur[air.s_idx_rem()] as int),
            f_red(w.nxt[air.s_idx_rem()] as int),
            pair_at(w.nxt, QT_E as int),
        ),
{
    let mask = air.s_round_mask(air.s_cm_rounds());
    let r = air.s_idx_rem();
    let (e, s, b) = (w2_cur(QT_E as int), w2_cur(QT_S as int), w2_cur(QT_B as int));
    let prod = w2_times(w2_minus(e, s), b);
    lemma_register_value(mask, r, w);
    lemma_bit_value(mask, w);
    lemma_inverse_value(mask, w);
    lemma_next_value(mask, QT_E as int, e.a, s.a, prod.a, w);
    lemma_next_value(mask, QT_E + 1, e.b, s.b, prod.b, w);
    lemma_fold_wires(w);
    lemma_five(air.s_fold_rows(), w);
    lemma_fold_zeros(
        fold_cells(w.cur),
        f_red(w.cur[r] as int),
        f_red(w.nxt[r] as int),
        pair_at(w.nxt, QT_E as int),
    );
}

/// The four felts from `col` on, modulo p.
pub open spec fn digest_at(row: Seq<u64>, col: int) -> Seq<u64> {
    Seq::new(4, |i: int| f_red(row[col + i] as int))
}

/// A bit chooses the first of two values, or the second where it is set.
pub(super) proof fn lemma_chosen(bit: Wire, a: Wire, b: Wire, w: Window)
    requires
        value(bit, w) == 0 || value(bit, w) == 1,
    ensures
        value(w_plus(w_times(w_minus(w_const(1), bit), a), w_times(bit, b)), w) == (if value(bit, w) == 1 {
            value(b, w)
        } else {
            value(a, w)
        }),
{
    let one = w_const(1);
    let keep = w_minus(one, bit);
    lemma_const_value(1, w);
    lemma_op_values(one, bit, w);
    lemma_op_values(keep, a, w);
    lemma_op_values(bit, b, w);
    lemma_op_values(w_times(keep, a), w_times(bit, b), w);
    lemma_value_canonical(a, w);
    lemma_value_canonical(b, w);
    lemma_gates(value(a, w));
    lemma_gates(value(b, w));
}

/// Lane `k` of the halves of the next block.
proof fn lemma_link_lane(air: MonolithAir, w: Window, k: int)
    requires
        0 <= k < 4,
        w.is_transition == 1,
        value(air.s_link_gate(), w) == 1,
        f_red(w.nxt[12] as int) == 0 || f_red(w.nxt[12] as int) == 1,
    ensures
        ({
            let (bit, digest, sibling) = (
                f_red(w.nxt[12] as int),
                f_red(w.cur[k] as int),
                f_red(w.nxt[8 + k] as int),
            );
            vanish(air.s_link(k), w) <==> {
                &&& f_red(w.nxt[k] as int) == (if bit == 1 {
                    sibling
                } else {
                    digest
                })
                &&& f_red(w.nxt[4 + k] as int) == (if bit == 1 {
                    digest
                } else {
                    sibling
                })
            }
        }),
{
    let one = w_const(1);
    let link = air.s_link_gate();
    let (bit, sib, dig) = (w_nxt(12), w_nxt(8 + k), w_cur(k));
    let lower = w_plus(w_times(w_minus(one, bit), dig), w_times(bit, sib));
    let upper = w_plus(w_times(w_minus(one, bit), sib), w_times(bit, dig));
    lemma_leaf_values(12, w);
    lemma_leaf_values(8 + k, w);
    lemma_leaf_values(k, w);
    lemma_leaf_values(4 + k, w);
    lemma_chosen(bit, dig, sib, w);
    lemma_chosen(bit, sib, dig, w);
    lemma_op_values(w_nxt(k), lower, w);
    lemma_op_values(w_nxt(4 + k), upper, w);
    lemma_masked(link, w_minus(w_nxt(k), lower), w);
    lemma_masked(link, w_minus(w_nxt(4 + k), upper), w);
    lemma_value_canonical(lower, w);
    lemma_value_canonical(upper, w);
    lemma_canonical_difference(f_red(w.nxt[k] as int), value(lower, w));
    lemma_canonical_difference(f_red(w.nxt[4 + k] as int), value(upper, w));
    let cs = air.s_link(k);
    assert(cs[0] == w_on_transition(w_times(link, w_minus(w_nxt(k), lower))));
    assert(cs[1] == w_on_transition(w_times(link, w_minus(w_nxt(4 + k), upper))));
    assert(cs.len() == 2);
}

/// Where a block of a Merkle path links to the next one, the link constraints vanish exactly if the next block starts
/// from the digest and the sibling, in the order of the path bit.
pub proof fn law_link_pairs(air: MonolithAir, w: Window)
    requires
        w.is_transition == 1,
        value(air.s_link_gate(), w) == 1,
        f_red(w.nxt[12] as int) == 0 || f_red(w.nxt[12] as int) == 1,
    ensures
        vanish(flat(4, air.f_link()), w) <==> lanes_at(w.nxt, 0) == (if f_red(w.nxt[12] as int) == 1 {
            paired(digest_at(w.nxt, 8), digest_at(w.cur, 0))
        } else {
            paired(digest_at(w.cur, 0), digest_at(w.nxt, 8))
        }),
{
    let (dig, sib) = (digest_at(w.cur, 0), digest_at(w.nxt, 8));
    let want = if f_red(w.nxt[12] as int) == 1 {
        paired(sib, dig)
    } else {
        paired(dig, sib)
    };
    let got = lanes_at(w.nxt, 0);
    lemma_vanish_flat(4, air.f_link(), w);
    assert forall|k: int| 0 <= k < 4 implies (vanish(#[trigger] air.f_link()(k), w) <==> got[k] == want[k] && got[4 + k]
        == want[4 + k]) by {
        lemma_link_lane(air, w, k);
    }
    if vanish(flat(4, air.f_link()), w) {
        assert forall|i: int| 0 <= i < 8 implies got[i] == want[i] by {
            let k = if i < 4 {
                i
            } else {
                i - 4
            };
            assert(vanish(air.f_link()(k), w));
        }
        assert(got =~= want);
    }
}

/// A next cell against the current one, under a mask that is one.
proof fn lemma_kept(mask: Wire, i: int, w: Window)
    requires
        0 <= i <= usize::MAX,
        w.is_transition == 1,
        value(mask, w) == 0 || value(mask, w) == 1,
    ensures
        value(w_on_transition(w_times(mask, w_minus(w_nxt(i), w_cur(i)))), w) == 0 <==> (value(mask, w) == 1 ==> f_red(
            w.nxt[i] as int,
        ) == f_red(w.cur[i] as int)),
{
    let d = w_minus(w_nxt(i), w_cur(i));
    lemma_leaf_values(i, w);
    lemma_op_values(w_nxt(i), w_cur(i), w);
    lemma_op_values(mask, d, w);
    lemma_value_canonical(d, w);
    lemma_gates(value(d, w));
    lemma_transition_value(w_times(mask, d), w);
    lemma_canonical_difference(f_red(w.nxt[i] as int), f_red(w.cur[i] as int));
}

/// Between two blocks of the transcript the link constraints vanish exactly if the capacity carries over with the next
/// input count added to its first lane, and, where the next block absorbs nothing, the rate carries over too.
pub proof fn law_transcript_carries(air: MonolithAir, w: Window)
    requires
        0 <= air.s_s_trans_trans() <= usize::MAX,
        w.is_transition == 1,
        w.periodic[air.s_s_trans_trans()] == 1,
        w.periodic[FT_P_BLOCK_LAST as int] == 1,
        w.periodic[FT_IS_SQ_NEXT as int] == 0 || w.periodic[FT_IS_SQ_NEXT as int] == 1,
    ensures
        vanish(air.s_transcript_link(), w) <==> {
            &&& lanes_at(w.nxt, 0)[4] == f_add(
                lanes_at(w.cur, 0)[4],
                f_red(w.periodic[FT_COUNT_NEXT as int] as int),
            )
            &&& forall|i: int| 5 <= i < 8 ==> lanes_at(w.nxt, 0)[i] == #[trigger] lanes_at(w.cur, 0)[i]
            &&& w.periodic[FT_IS_SQ_NEXT as int] == 1 ==> forall|i: int|
                0 <= i < 4 ==> lanes_at(w.nxt, 0)[i] == #[trigger] lanes_at(w.cur, 0)[i]
        },
{
    let cs = air.s_transcript_link();
    let (stt, bl, sq) = (w_per(air.s_s_trans_trans()), w_per(FT_P_BLOCK_LAST as int), w_per(FT_IS_SQ_NEXT as int));
    let mask = w_times(stt, bl);
    let quiet = w_times(mask, sq);
    lemma_leaf_values(air.s_s_trans_trans(), w);
    lemma_leaf_values(FT_P_BLOCK_LAST as int, w);
    lemma_leaf_values(FT_IS_SQ_NEXT as int, w);
    lemma_leaf_values(FT_COUNT_NEXT as int, w);
    lemma_op_values(stt, bl, w);
    lemma_op_values(mask, sq, w);
    lemma_gates(1);
    lemma_gates(value(sq, w));
    let (n4, c4, count) = (w_nxt(4), w_cur(4), w_per(FT_COUNT_NEXT as int));
    lemma_leaf_values(4, w);
    lemma_op_values(n4, c4, w);
    lemma_op_values(w_minus(n4, c4), count, w);
    lemma_masked(mask, w_minus(w_minus(n4, c4), count), w);
    lemma_moved(value(n4, w), value(c4, w), value(count, w));
    lemma_kept(mask, 5, w);
    lemma_kept(mask, 6, w);
    lemma_kept(mask, 7, w);
    lemma_kept(quiet, 0, w);
    lemma_kept(quiet, 1, w);
    lemma_kept(quiet, 2, w);
    lemma_kept(quiet, 3, w);
    lemma_eight(cs, w);
    let (got, before) = (lanes_at(w.nxt, 0), lanes_at(w.cur, 0));
    assert((forall|i: int| 5 <= i < 8 ==> got[i] == #[trigger] before[i]) <==> got[5] == before[5] && got[6] == before[6]
        && got[7] == before[7]);
    assert((forall|i: int| 0 <= i < 4 ==> got[i] == #[trigger] before[i]) <==> got[0] == before[0] && got[1] == before[1]
        && got[2] == before[2] && got[3] == before[3]);
}

/// a - b - c is zero exactly if a is b + c.
proof fn lemma_moved(a: u64, b: u64, c: u64)
    requires
        a < MODULUS,
    ensures
        f_sub(f_sub(a, b), c) == 0 <==> a == f_add(b, c),
{
    lemma_red_add(a - b, c as int);
    lemma_red_add(a as int, b + c);
    assert(f_sub(f_sub(a, b), c) == f_sub(a, f_add(b, c)));
    lemma_zero_difference(a, f_add(b, c));
}

/// Eight constraints vanish exactly if each does.
proof fn lemma_eight(cs: Seq<Wire>, w: Window)
    requires
        cs.len() == 8,
    ensures
        vanish(cs, w) <==> value(cs[0], w) == 0 && value(cs[1], w) == 0 && value(cs[2], w) == 0 && value(cs[3], w) == 0
            && value(cs[4], w) == 0 && value(cs[5], w) == 0 && value(cs[6], w) == 0 && value(cs[7], w) == 0,
{
}

/// A fold of two does not depend on the representatives.
proof fn lemma_fold_of_reduced(e0: Ext, e1: Ext, beta: Ext, point: u64)
    ensures
        pair_fold(x_red(e0), x_red(e1), x_red(beta), f_red(point as int)) == pair_fold(e0, e1, beta, point),
{
    reveal(pair_fold);
    assert(x_add(x_red(e0), x_red(e1)) == x_add(e0, e1)) by {
        lemma_sum_of_reduced(e0.c0, e1.c0);
        lemma_sum_of_reduced(e0.c1, e1.c1);
    }
    assert(x_sub(x_red(e0), x_red(e1)) == x_sub(e0, e1)) by {
        lemma_sum_of_reduced(e0.c0, e1.c0);
        lemma_sum_of_reduced(e0.c1, e1.c1);
    }
    assert(x_mul(x_red(beta), x_sub(e0, e1)) == x_mul(beta, x_sub(e0, e1))) by {
        lemma_x_mul_red(beta, x_sub(e0, e1));
        lemma_x_mul_red(x_red(beta), x_sub(e0, e1));
        lemma_x_add_sub(beta, beta);
        assert(x_red(x_red(beta)) == x_red(beta));
    }
    lemma_red_mul(2, point as int);
}

proof fn lemma_sum_of_reduced(a: u64, b: u64)
    ensures
        f_add(f_red(a as int), f_red(b as int)) == f_add(a, b),
        f_sub(f_red(a as int), f_red(b as int)) == f_sub(a, b),
{
    lemma_red_add(a as int, b as int);
    lemma_red_add(a as int, f_red(b as int) as int);
}

/// The rows of a chain of folds of two are rounds of the fold constraints: where the row holds the cells of round `r`
/// and the next row those of the next, and the register sheds the round's bit, the fold constraints vanish.
pub proof fn law_chain_rows_fold(air: MonolithAir, ro: Ext, rounds: Seq<PairFold>, r: nat, w: Window)
    requires
        0 <= air.s_idx_rem() <= usize::MAX,
        w.is_transition == 1,
        value(air.s_round_mask(air.s_cm_rounds()), w) == 1,
        r < rounds.len(),
        is_unit(rounds[r as int].point),
        forall|i: int| 0 <= i < 9 ==> #[trigger] w.cur[QT_E + i] == chain_cells(ro, rounds, r)[i],
        forall|i: int| 0 <= i < 2 ==> #[trigger] w.nxt[QT_E + i] == chain_cells(ro, rounds, r + 1)[i],
        f_red(w.cur[air.s_idx_rem()] as int) == f_add(
            f_mul(2, f_red(w.nxt[air.s_idx_rem()] as int)),
            bit_felt(rounds[r as int].bit),
        ),
    ensures
        vanish(air.s_fold_rows().take(5), w),
{
    law_fold_row_folds(air, w);
    let p = rounds[r as int];
    let f = fold_cells(w.cur);
    lemma_chain_fold_cells(ro, rounds, r, w.cur);
    lemma_chain_step_folds(ro, rounds, r, f);
    assert(w.nxt[QT_E + 0] == chain_cells(ro, rounds, r + 1)[0] && w.nxt[QT_E + 1] == chain_cells(ro, rounds, r + 1)[1]);
    assert(pair_at(w.nxt, QT_E as int) == x_red(x_red(fold_value(ro, rounds, r + 1))));
    lemma_two_unit();
    lemma_units_multiply(2, p.point);
    lemma_point_inverse(p.point);
    assert(f_mul(2, f_red(p.point as int)) == f_mul(2, p.point)) by {
        lemma_red_mul(2, p.point as int);
    }
}

/// The cells of a chain row.
proof fn lemma_chain_fold_cells(ro: Ext, rounds: Seq<PairFold>, r: nat, row: Seq<u64>)
    requires
        r < rounds.len(),
        is_unit(rounds[r as int].point),
        forall|i: int| 0 <= i < 9 ==> #[trigger] row[QT_E + i] == chain_cells(ro, rounds, r)[i],
    ensures
        ({
            let p = rounds[r as int];
            fold_cells(row) == FoldCells {
                e: x_red(fold_value(ro, rounds, r)),
                sibling: x_red(p.sibling),
                beta: x_red(p.beta),
                bit: bit_felt(p.bit),
                point: f_red(p.point as int),
                inverse: f_inv(f_mul(2, p.point)),
            }
        }),
{
    let p = rounds[r as int];
    let cells = chain_cells(ro, rounds, r);
    lemma_two_unit();
    lemma_units_multiply(2, p.point);
    lemma_point_inverse(p.point);
    lemma_chain_cells_are(ro, rounds, r);
    assert(row[QT_E + 0] == cells[0] && row[QT_E + 1] == cells[1] && row[QT_E + 2] == cells[2] && row[QT_E + 3]
        == cells[3] && row[QT_E + 4] == cells[4] && row[QT_E + 5] == cells[5] && row[QT_E + 6] == cells[6] && row[QT_E
        + 7] == cells[7] && row[QT_E + 8] == cells[8]);
    lemma_nine_cells(row, fold_value(ro, rounds, r), p, f_inv(f_mul(2, p.point)));
}

/// The cells of a chain row, one by one.
pub(super) proof fn lemma_chain_cells_are(ro: Ext, rounds: Seq<PairFold>, r: nat)
    requires
        r < rounds.len(),
    ensures
        ({
            let p = rounds[r as int];
            let cells = chain_cells(ro, rounds, r);
            let e = fold_value(ro, rounds, r);
            &&& cells[0] == f_red(e.c0 as int) && cells[1] == f_red(e.c1 as int)
            &&& cells[2] == f_red(p.sibling.c0 as int) && cells[3] == f_red(p.sibling.c1 as int)
            &&& cells[4] == f_red(p.beta.c0 as int) && cells[5] == f_red(p.beta.c1 as int)
            &&& cells[6] == bit_felt(p.bit) && cells[7] == f_red(p.point as int)
            &&& cells[8] == f_inv(f_mul(2, p.point))
        }),
{
}

/// Two cells that hold the coordinates of an element.
pub(crate) proof fn lemma_pair_cells(row: Seq<u64>, i: int, e: Ext)
    requires
        row[i] == f_red(e.c0 as int),
        row[i + 1] == f_red(e.c1 as int),
    ensures
        pair_at(row, i) == x_red(e),
{
    lemma_red_again(e.c0);
    lemma_red_again(e.c1);
}

/// Reducing twice is reducing once.
proof fn lemma_red_again(x: u64)
    ensures
        f_red(f_red(x as int) as int) == f_red(x as int),
{
}

/// A row that holds the nine cells of a round.
#[verifier::spinoff_prover]
#[verifier::rlimit(40)]
proof fn lemma_nine_cells(row: Seq<u64>, e: Ext, p: PairFold, inv: u64)
    requires
        inv < MODULUS,
        row[0] == f_red(e.c0 as int) && row[1] == f_red(e.c1 as int),
        row[2] == f_red(p.sibling.c0 as int) && row[3] == f_red(p.sibling.c1 as int),
        row[4] == f_red(p.beta.c0 as int) && row[5] == f_red(p.beta.c1 as int),
        row[6] == bit_felt(p.bit) && row[7] == f_red(p.point as int) && row[8] == inv,
    ensures
        fold_cells(row) == (FoldCells {
            e: x_red(e),
            sibling: x_red(p.sibling),
            beta: x_red(p.beta),
            bit: bit_felt(p.bit),
            point: f_red(p.point as int),
            inverse: inv,
        }),
{
    lemma_pair_cells(row, 0, e);
    lemma_pair_cells(row, 2, p.sibling);
    lemma_pair_cells(row, 4, p.beta);
    lemma_red_again(p.point);
}

/// The next value of the chain is the fold of its cells, and canonical.
proof fn lemma_chain_step_folds(ro: Ext, rounds: Seq<PairFold>, r: nat, f: FoldCells)
    requires
        r < rounds.len(),
        f.e == x_red(fold_value(ro, rounds, r)),
        f.sibling == x_red(rounds[r as int].sibling),
        f.beta == x_red(rounds[r as int].beta),
        f.bit == bit_felt(rounds[r as int].bit),
        f.point == f_red(rounds[r as int].point as int),
    ensures
        fold_value(ro, rounds, r + 1) == fold_of(f),
        x_red(fold_of(f)) == fold_of(f),
{
    let p = rounds[r as int];
    let e = fold_value(ro, rounds, r);
    lemma_fold_of_reduced(e, p.sibling, p.beta, p.point);
    lemma_fold_of_reduced(p.sibling, e, p.beta, p.point);
    lemma_fold_canonical(f.sibling, f.e, f.beta, f.point);
    lemma_fold_canonical(f.e, f.sibling, f.beta, f.point);
}

proof fn lemma_fold_canonical(e0: Ext, e1: Ext, beta: Ext, point: u64)
    ensures
        x_red(pair_fold(e0, e1, beta, point)) == pair_fold(e0, e1, beta, point),
{
    reveal(pair_fold);
    let a = x_mul(x_add(e0, e1), x_base(HALF));
    let b = x_mul(x_mul(beta, x_sub(e0, e1)), x_base(f_inv(f_mul(2, point))));
    lemma_x_add_sub(a, b);
}

/// The inverse of a doubled unit is one, and canonical.
proof fn lemma_point_inverse(point: u64)
    requires
        is_unit(f_mul(2, point)),
    ensures
        f_mul(f_inv(f_mul(2, point)), f_mul(2, point)) == 1,
        f_inv(f_mul(2, point)) < MODULUS,
{
    let d = f_mul(2, point);
    let v = choose|v: u64| #[trigger] f_mul(d, v) == 1;
    lemma_red_mul(d as int, v as int);
    assert(f_red(v as int) < MODULUS && f_mul(d, f_red(v as int)) == 1);
    lemma_mul_assoc(d, f_inv(d), 0);
}

} // verus!
