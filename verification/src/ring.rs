//! Identities of the extension that hold in every commutative ring, and those of a field.

use vstd::prelude::*;

use crate::field::{
    f_add, f_mul, f_red, f_sub, lemma_red_add, lemma_same_iff_zero_difference, lemma_x_add_sub, lemma_x_distribute,
    lemma_x_mul_assoc, lemma_x_mul_comm, lemma_x_mul_one, lemma_x_mul_red, lemma_x_mul_zero, x_add, x_base, x_inv,
    x_mul, x_one, x_red, x_sub, x_zero, Ext,
};
use crate::prime::law_extension_is_a_field;

verus! {

proof fn lemma_f_order(a: u64, b: u64, c: u64)
    ensures
        f_add(a, b) == f_add(b, a),
        f_add(f_add(a, b), c) == f_add(a, f_add(b, c)),
{
    lemma_red_add(a + b, c as int);
    lemma_red_add(a as int, b + c);
    assert((a + b) + c == a + (b + c));
}

proof fn lemma_f_reduced(a: u64, b: u64)
    ensures
        f_add(f_red(a as int), b) == f_add(a, b),
        f_sub(f_red(a as int), b) == f_sub(a, b),
        f_sub(a, f_red(b as int)) == f_sub(a, b),
{
    lemma_red_add(a as int, b as int);
}

proof fn lemma_f_undo(a: u64, b: u64)
    ensures
        f_add(f_sub(a, b), b) == f_red(a as int),
        f_sub(f_add(a, b), b) == f_red(a as int),
{
    lemma_red_add(a - b, b as int);
    lemma_red_add(a + b, b as int);
    assert((a - b) + b == a);
    assert((a + b) - b == a);
}

proof fn lemma_f_shift(a: u64, b: u64, c: u64)
    ensures
        f_sub(f_add(a, c), f_add(b, c)) == f_sub(a, b),
{
    let (x, y) = (a + c, b + c);
    lemma_red_add(x, y);
    lemma_red_add(f_red(x) as int, y);
    assert(x - y == a - b);
}

proof fn lemma_f_zero()
    ensures
        f_add(0, 0) == 0,
        f_sub(0, 0) == 0,
        f_red(0) == 0,
        f_red(1) == 1,
{
}

proof fn lemma_f_canonical(v: int)
    ensures
        f_red(f_red(v) as int) == f_red(v),
{
}

/// Addition is commutative and associative.
pub proof fn lemma_sums(a: Ext, b: Ext, c: Ext)
    ensures
        x_add(a, b) == x_add(b, a),
        x_add(x_add(a, b), c) == x_add(a, x_add(b, c)),
{
    lemma_f_order(a.c0, b.c0, c.c0);
    lemma_f_order(a.c1, b.c1, c.c1);
}

/// Sums and differences are reduced, and do not depend on the representatives.
pub proof fn lemma_reduced(a: Ext, b: Ext)
    ensures
        x_add(x_red(a), b) == x_add(a, b),
        x_add(a, x_red(b)) == x_add(a, b),
        x_sub(x_red(a), b) == x_sub(a, b),
        x_sub(a, x_red(b)) == x_sub(a, b),
        x_red(x_add(a, b)) == x_add(a, b),
        x_red(x_sub(a, b)) == x_sub(a, b),
        x_red(x_red(a)) == x_red(a),
        x_red(x_zero()) == x_zero(),
        x_red(x_one()) == x_one(),
{
    lemma_f_reduced(a.c0, b.c0);
    lemma_f_reduced(a.c1, b.c1);
    lemma_f_reduced(b.c0, a.c0);
    lemma_f_reduced(b.c1, a.c1);
    lemma_f_canonical(a.c0 as int);
    lemma_f_canonical(a.c1 as int);
    lemma_sums(a, b, a);
    lemma_sums(a, x_red(b), a);
    lemma_x_add_sub(a, b);
}

/// Differences undo sums, and zero is neutral.
pub proof fn lemma_undo(a: Ext, b: Ext, c: Ext)
    ensures
        x_add(x_sub(a, b), b) == x_red(a),
        x_sub(x_add(a, b), b) == x_red(a),
        x_sub(x_add(a, c), x_add(b, c)) == x_sub(a, b),
        x_add(x_zero(), a) == x_red(a),
        x_add(a, x_zero()) == x_red(a),
        x_sub(a, a) == x_zero(),
{
    lemma_f_undo(a.c0, b.c0);
    lemma_f_undo(a.c1, b.c1);
    lemma_f_shift(a.c0, b.c0, c.c0);
    lemma_f_shift(a.c1, b.c1, c.c1);
    lemma_x_add_sub(a, b);
}

/// (a + b) + (c + d) = (a + c) + (b + d).
pub proof fn lemma_exchange(a: Ext, b: Ext, c: Ext, d: Ext)
    ensures
        x_add(x_add(a, b), x_add(c, d)) == x_add(x_add(a, c), x_add(b, d)),
{
    lemma_sums(a, b, x_add(c, d));
    lemma_sums(b, c, d);
    lemma_sums(c, b, d);
    lemma_sums(a, c, x_add(b, d));
}

/// Multiplication does not depend on the representatives, and its factors can be reordered.
pub proof fn lemma_products(a: Ext, b: Ext, c: Ext)
    ensures
        x_mul(a, b) == x_mul(b, a),
        x_mul(x_mul(a, b), c) == x_mul(a, x_mul(b, c)),
        x_mul(x_mul(a, b), c) == x_mul(x_mul(a, c), b),
        x_mul(x_red(a), b) == x_mul(a, b),
        x_mul(a, x_red(b)) == x_mul(a, b),
        x_red(x_mul(a, b)) == x_mul(a, b),
        x_mul(a, x_one()) == x_red(a),
        x_mul(x_one(), a) == x_red(a),
        x_mul(a, x_zero()) == x_zero(),
        x_mul(x_zero(), a) == x_zero(),
{
    lemma_x_mul_comm(a, b);
    lemma_x_mul_comm(b, c);
    lemma_x_mul_assoc(a, b, c);
    lemma_x_mul_assoc(a, c, b);
    lemma_x_mul_red(a, b);
    lemma_x_mul_red(x_red(a), b);
    lemma_x_mul_red(a, x_red(b));
    lemma_reduced(a, b);
    lemma_reduced(b, a);
    lemma_x_mul_one(a);
    lemma_x_mul_zero(a);
}

/// Products distribute over sums and differences on either side.
pub proof fn lemma_distributes(a: Ext, b: Ext, c: Ext)
    ensures
        x_mul(a, x_add(b, c)) == x_add(x_mul(a, b), x_mul(a, c)),
        x_mul(a, x_sub(b, c)) == x_sub(x_mul(a, b), x_mul(a, c)),
        x_mul(x_add(b, c), a) == x_add(x_mul(b, a), x_mul(c, a)),
        x_mul(x_sub(b, c), a) == x_sub(x_mul(b, a), x_mul(c, a)),
{
    lemma_x_distribute(a, b, c);
    lemma_x_mul_comm(a, x_add(b, c));
    lemma_x_mul_comm(a, x_sub(b, c));
    lemma_x_mul_comm(a, b);
    lemma_x_mul_comm(a, c);
}

/// A difference is zero exactly if its terms are the same element.
pub proof fn lemma_difference(a: Ext, b: Ext)
    ensures
        x_sub(a, b) == x_zero() <==> x_red(a) == x_red(b),
{
    lemma_same_iff_zero_difference(a, b);
    lemma_reduced(a, b);
}

/// There are no zero divisors.
pub proof fn lemma_no_zero_divisors(a: Ext, b: Ext)
    requires
        x_mul(a, b) == x_zero(),
    ensures
        x_red(a) == x_zero() || x_red(b) == x_zero(),
{
    if x_red(a) != x_zero() {
        let i = x_inv(a);
        law_extension_is_a_field(a);
        lemma_products(i, a, b);
        lemma_products(b, i, a);
        lemma_products(i, x_zero(), b);
    }
}

/// A factor that is not zero can be cancelled.
pub proof fn lemma_cancels(a: Ext, b: Ext, c: Ext)
    requires
        x_red(a) != x_zero(),
        x_mul(a, b) == x_mul(a, c),
    ensures
        x_red(b) == x_red(c),
{
    lemma_distributes(a, b, c);
    lemma_undo(x_mul(a, b), b, c);
    lemma_no_zero_divisors(a, x_sub(b, c));
    lemma_reduced(b, c);
    lemma_difference(b, c);
}

/// The base field lies in the extension.
#[verifier::rlimit(30)]
pub proof fn lemma_base(a: u64, b: u64)
    ensures
        x_add(x_base(a), x_base(b)) == x_base(f_add(a, b)),
        x_sub(x_base(a), x_base(b)) == x_base(f_sub(a, b)),
        x_mul(x_base(a), x_base(b)) == x_base(f_mul(a, b)),
        x_base(f_red(a as int)) == x_base(a),
        x_red(x_base(a)) == x_base(a),
        x_base(0) == x_zero(),
        x_base(1) == x_one(),
        x_base(a) == x_zero() <==> f_red(a as int) == 0,
{
    let (x, y) = (f_red(a as int), f_red(b as int));
    lemma_f_reduced(a, b);
    lemma_f_reduced(b, a);
    lemma_f_order(a, b, a);
    lemma_f_order(x, y, a);
    lemma_f_order(a, y, a);
    lemma_f_reduced(a, y);
    lemma_f_canonical(a as int);
    lemma_f_canonical(a + b);
    lemma_f_canonical(a - b);
    lemma_f_zero();
    crate::field::lemma_x_mul_base(a, b);
}

} // verus!
