//! What constraints say of the rows on which they vanish: values of wires, gated equations, families.

use vstd::prelude::*;

use crate::emit::flat;
use crate::expr::{
    lemma_value_canonical, value, value2, w2, w2_cur, w_const, w_cur, w_minus, w_nxt, w_per, w_plus, w_times, Window,
    Wire, Wire2,
};
use crate::field::{
    f_add, f_mul, f_red, f_sub, lemma_mul_one, lemma_red_mul, lemma_x_mul_assoc, lemma_x_mul_comm, lemma_x_mul_one,
    lemma_zero_difference, x_base, x_inv, x_mul, x_one, x_red, x_sub, Ext, MODULUS, W_EXT,
};

verus! {

/// Every constraint is zero at the window.
pub open spec fn vanish(cs: Seq<Wire>, w: Window) -> bool {
    forall|i: int| 0 <= i < cs.len() ==> value(#[trigger] cs[i], w) == 0
}

/// A list vanishes exactly if its parts do.
pub(crate) proof fn lemma_vanish_parts(a: Seq<Wire>, b: Seq<Wire>, w: Window)
    ensures
        vanish(a + b, w) <==> vanish(a, w) && vanish(b, w),
{
    let c = a + b;
    if vanish(c, w) {
        assert forall|i: int| 0 <= i < a.len() implies value(#[trigger] a[i], w) == 0 by {
            assert(c[i] == a[i]);
        }
        assert forall|i: int| 0 <= i < b.len() implies value(#[trigger] b[i], w) == 0 by {
            assert(c[a.len() + i] == b[i]);
        }
    }
}

/// Families vanish exactly if each does.
pub(crate) proof fn lemma_vanish_flat(n: int, f: spec_fn(int) -> Seq<Wire>, w: Window)
    requires
        0 <= n,
    ensures
        vanish(flat(n, f), w) <==> forall|i: int| 0 <= i < n ==> vanish(#[trigger] f(i), w),
    decreases n,
{
    if n > 0 {
        lemma_vanish_flat(n - 1, f, w);
        lemma_vanish_parts(flat(n - 1, f), f(n - 1), w);
    }
}

/// One times a value is the value, zero times it is zero, and zero is neutral.
pub(crate) proof fn lemma_gates(v: u64)
    requires
        v < MODULUS,
    ensures
        f_mul(1, v) == v,
        f_mul(0, v) == 0,
        f_add(v, 0) == v,
        f_add(0, v) == v,
{
    lemma_mul_one(v);
    assert(1 * v == v && 0 * v == 0) by (nonlinear_arith);
}

/// The values of the leaves.
pub(crate) proof fn lemma_leaf_values(i: int, w: Window)
    requires
        0 <= i <= usize::MAX,
    ensures
        value(w_cur(i), w) == f_red(w.cur[i] as int),
        value(w_nxt(i), w) == f_red(w.nxt[i] as int),
        value(w_per(i), w) == f_red(w.periodic[i] as int),
{
}

/// The values of the operations.
pub(crate) proof fn lemma_op_values(a: Wire, b: Wire, w: Window)
    ensures
        value(w_plus(a, b), w) == f_add(value(a, w), value(b, w)),
        value(w_minus(a, b), w) == f_sub(value(a, w), value(b, w)),
        value(w_times(a, b), w) == f_mul(value(a, w), value(b, w)),
{
}

/// The value of a small constant.
pub(crate) proof fn lemma_const_value(c: u64, w: Window)
    requires
        c < MODULUS,
    ensures
        value(w_const(c), w) == c,
{
}

/// A value and a reduced one differ by zero exactly if they are the same.
pub(crate) proof fn lemma_canonical_difference(a: u64, b: u64)
    requires
        a < MODULUS,
        b < MODULUS,
    ensures
        f_sub(a, b) == 0 <==> a == b,
{
    lemma_zero_difference(a, b);
}

/// Two columns modulo p.
pub open spec fn pair_at(row: Seq<u64>, i: int) -> Ext {
    Ext { c0: f_red(row[i] as int), c1: f_red(row[i + 1] as int) }
}

/// A product with a base element is taken coordinate by coordinate.
pub(crate) proof fn lemma_scaled(x: Ext, k: u64)
    ensures
        x_mul(x, x_base(k)) == (Ext { c0: f_mul(x.c0, k), c1: f_mul(x.c1, k) }),
{
    let b = x_base(k);
    assert(x.c1 * 0 == 0 && x.c0 * 0 == 0) by (nonlinear_arith);
    assert(W_EXT * 0 == 0) by (nonlinear_arith);
    lemma_red_mul(x.c0 as int, k as int);
    lemma_red_mul(x.c1 as int, k as int);
}

/// A gated difference is zero exactly if the two sides agree.
pub(crate) proof fn lemma_gated_equation(gate: Wire, a: Wire, b: Wire, w: Window)
    requires
        value(gate, w) == 1,
    ensures
        value(w_times(gate, w_minus(a, b)), w) == 0 <==> value(a, w) == value(b, w),
        vanish(seq![w_times(gate, w_minus(a, b))], w) <==> value(a, w) == value(b, w),
{
    let d = w_minus(a, b);
    lemma_op_values(a, b, w);
    lemma_op_values(gate, d, w);
    lemma_value_canonical(a, w);
    lemma_value_canonical(b, w);
    lemma_value_canonical(d, w);
    lemma_gates(value(d, w));
    lemma_canonical_difference(value(a, w), value(b, w));
    let one = seq![w_times(gate, d)];
    assert(one[0] == w_times(gate, d));
}

/// The value of a pair of columns.
pub(crate) proof fn lemma_pair_value(i: int, w: Window)
    requires
        0 <= i,
        i + 1 <= usize::MAX,
    ensures
        value2(w2_cur(i), w) == pair_at(w.cur, i),
{
    lemma_leaf_values(i, w);
    lemma_leaf_values(i + 1, w);
}

/// A pair less a base value in its first coordinate.
pub(crate) proof fn lemma_less_base(p: Wire2, b: Wire, w: Window)
    ensures
        value2(w2(w_minus(p.a, b), p.b), w) == x_sub(value2(p, w), x_base(value(b, w))),
{
    lemma_op_values(p.a, b, w);
    lemma_value_canonical(p.b, w);
    lemma_value_canonical(b, w);
    let (v, c) = (value(p.b, w), value(b, w));
    assert(f_sub(v, 0) == v);
    assert(f_red(c as int) == c);
}

/// Two gated differences of coordinates vanish exactly if the two elements agree.
pub(crate) proof fn lemma_pair_equation(gate: Wire, x: Wire2, y: Wire2, w: Window)
    requires
        value(gate, w) == 1,
    ensures
        vanish(seq![w_times(gate, w_minus(x.a, y.a)), w_times(gate, w_minus(x.b, y.b))], w) <==> value2(x, w) == value2(
            y,
            w,
        ),
{
    let cs = seq![w_times(gate, w_minus(x.a, y.a)), w_times(gate, w_minus(x.b, y.b))];
    lemma_gated_equation(gate, x.a, y.a, w);
    lemma_gated_equation(gate, x.b, y.b, w);
    assert(cs[0] == w_times(gate, w_minus(x.a, y.a)) && cs[1] == w_times(gate, w_minus(x.b, y.b)));
}

/// A gated element is one: its first coordinate less one, and its second, vanish.
pub(crate) proof fn lemma_is_one(gate: Wire, x: Wire2, w: Window)
    requires
        value(gate, w) == 1,
    ensures
        vanish(seq![w_times(gate, w_minus(x.a, w_const(1))), w_times(gate, x.b)], w) <==> value2(x, w) == x_one(),
{
    let cs = seq![w_times(gate, w_minus(x.a, w_const(1))), w_times(gate, x.b)];
    lemma_const_value(1, w);
    lemma_gated_equation(gate, x.a, w_const(1), w);
    lemma_op_values(gate, x.b, w);
    lemma_value_canonical(x.b, w);
    lemma_gates(value(x.b, w));
    assert(cs[0] == w_times(gate, w_minus(x.a, w_const(1))) && cs[1] == w_times(gate, x.b));
}

/// An inverse in the extension is unique.
pub(crate) proof fn lemma_ext_inverse_is(d: Ext, i: Ext)
    requires
        x_red(i) == i,
        x_mul(i, d) == x_one(),
    ensures
        x_inv(d) == i,
{
    lemma_x_mul_comm(i, d);
    let v = x_inv(d);
    assert(x_red(v) == v && x_mul(d, v) == x_one());
    lemma_x_mul_assoc(i, d, v);
    lemma_x_mul_one(i);
    lemma_x_mul_one(v);
}

} // verus!
