//! The polynomial that vanishes on a subgroup divides every polynomial that does, and its selectors are polynomials.

use vstd::arithmetic::power2::pow2;
use vstd::prelude::*;

use crate::field::{
    f_pow, f_square_times, lemma_mul_one, lemma_pow_add, lemma_pow_canonical, lemma_pow_pow, lemma_square_times_pow,
    x_base, x_inv, x_mul, x_one, x_pow, x_red, x_square_times, x_sub, x_zero, Ext, MODULUS,
};
use crate::poly::{
    distinct, is_poly, lemma_at_add, lemma_at_div, lemma_at_over, lemma_at_raised, lemma_at_reduced, lemma_at_scale,
    lemma_at_single, lemma_div_len, lemma_minus, lemma_minus_zero, lemma_over_len, minus_one, p_add, p_at, p_div, p_over,
    p_raised, p_scale, roots_at, shows,
};
use crate::prime::law_extension_is_a_field;
use crate::ring::{lemma_base, lemma_difference, lemma_products, lemma_reduced, lemma_undo};
use crate::stark::domain::{lemma_square_times_base, vanishing};

verus! {

/// A residue of order 2^bits.
pub open spec fn is_root(g: u64, bits: nat) -> bool {
    &&& 0 < g < MODULUS
    &&& f_square_times(g, bits) == 1
    &&& forall|k: nat| 0 < k < pow2(bits) ==> #[trigger] f_pow(g, k) != 1
}

/// Exponents add.
#[verifier::rlimit(30)]
pub proof fn lemma_x_pow_add(a: Ext, m: nat, n: nat)
    ensures
        x_pow(a, m + n) == x_mul(x_pow(a, m), x_pow(a, n)),
        x_red(x_pow(a, m)) == x_pow(a, m),
    decreases n,
{
    lemma_reduced(x_one(), x_one());
    if m > 0 {
        lemma_products(x_pow(a, (m - 1) as nat), a, a);
    }
    if n == 0 {
        lemma_products(x_pow(a, m), a, a);
    } else {
        let k = (n - 1) as nat;
        lemma_x_pow_add(a, m, k);
        lemma_products(x_pow(a, m), x_pow(a, k), a);
        assert(((m + n) as nat - 1) as nat == m + k);
    }
}

/// Squaring `k` times over is raising to 2^k.
pub proof fn lemma_square_is_pow(a: Ext, k: nat)
    ensures
        x_square_times(a, k) == x_pow(a, pow2(k)),
    decreases k,
{
    if k == 0 {
        vstd::arithmetic::power2::lemma2_to64();
        reveal_with_fuel(x_pow, 2);
        lemma_products(a, a, a);
    } else {
        let m = (k - 1) as nat;
        lemma_square_is_pow(a, m);
        vstd::arithmetic::power2::lemma_pow2_unfold(k);
        lemma_x_pow_add(a, pow2(m), pow2(m));
        assert(pow2(k) == pow2(m) + pow2(m));
    }
}

/// The polynomial that vanishes on the subgroup of order 2^k.
pub open spec fn subgroup_poly(k: nat) -> Seq<Ext> {
    p_add(p_raised(seq![x_one()], pow2(k)), seq![minus_one()])
}

#[verifier::rlimit(30)]
pub proof fn lemma_subgroup_poly(k: nat, x: Ext)
    ensures
        subgroup_poly(k).len() == pow2(k) + 1,
        p_at(subgroup_poly(k), x) == vanishing(x, k),
        x_red(vanishing(x, k)) == vanishing(x, k),
{
    let n = pow2(k);
    let y = x_pow(x, n);
    lemma_at_raised(seq![x_one()], n, x);
    lemma_at_single(x_one(), x);
    lemma_at_single(minus_one(), x);
    lemma_at_add(p_raised(seq![x_one()], n), seq![minus_one()], x);
    lemma_square_is_pow(x, k);
    lemma_reduced(x_one(), x_one());
    lemma_products(y, x_one(), y);
    lemma_x_pow_add(x, n, 0);
    lemma_reduced(y, x_red(minus_one()));
    lemma_reduced(y, minus_one());
    lemma_reduced(y, x_one());
    lemma_minus(y, x_one());
    lemma_products(minus_one(), x_one(), y);
}

/// The points of the subgroup.
pub open spec fn subgroup_points(g: u64, k: nat) -> Seq<Ext> {
    Seq::new(pow2(k), |r: int| x_base(f_pow(g, r as nat)))
}

/// Powers below the order differ.
#[verifier::rlimit(30)]
pub proof fn lemma_powers_differ(g: u64, k: nat, i: nat, j: nat)
    requires
        is_root(g, k),
        i < j < pow2(k),
    ensures
        f_pow(g, i) != f_pow(g, j),
{
    let n = pow2(k);
    if f_pow(g, i) == f_pow(g, j) {
        let (up, d) = ((n - i) as nat, (j - i) as nat);
        lemma_square_times_pow(g, k);
        lemma_pow_add(g, up, i);
        lemma_pow_add(g, up, j);
        lemma_pow_add(g, n, d);
        lemma_mul_one(f_pow(g, d));
        lemma_pow_canonical(g, d);
        assert(up + j == n + d);
        assert(f_pow(g, d) != 1);
    }
}

pub proof fn lemma_points_distinct(g: u64, k: nat)
    requires
        is_root(g, k),
    ensures
        distinct(subgroup_points(g, k)),
{
    let ps = subgroup_points(g, k);
    assert forall|i: int, j: int| 0 <= i < j < ps.len() implies x_red(#[trigger] ps[i]) != x_red(#[trigger] ps[j]) by {
        lemma_powers_differ(g, k, i as nat, j as nat);
        lemma_pow_canonical(g, i as nat);
        lemma_pow_canonical(g, j as nat);
        lemma_base(f_pow(g, i as nat), 0);
        lemma_base(f_pow(g, j as nat), 0);
    }
}

/// The polynomial of the subgroup vanishes on its points, and nowhere else.
pub proof fn lemma_vanishes_on_points(g: u64, k: nat, r: nat)
    requires
        is_root(g, k),
    ensures
        vanishing(x_base(f_pow(g, r)), k) == x_zero(),
{
    let a = f_pow(g, r);
    lemma_square_times_base(a, k);
    lemma_square_times_pow(a, k);
    lemma_pow_pow(g, r, pow2(k));
    lemma_square_times_pow(g, k);
    assert(r * pow2(k) == pow2(k) * r) by (nonlinear_arith);
    lemma_pow_pow(g, pow2(k), r);
    crate::stark::domain::lemma_one_pow(r);
    lemma_base(1, 0);
    lemma_undo(x_one(), x_one(), x_one());
}

/// The quotient of a polynomial by the polynomial of the subgroup.
pub open spec fn divides(f: spec_fn(Ext) -> Ext, k: nat, q: Seq<Ext>) -> bool {
    forall|x: Ext| #[trigger] f(x) == x_mul(vanishing(x, k), p_at(q, x))
}

/// A polynomial that vanishes on the subgroup is divided by the subgroup's polynomial, and the quotient is shorter by the
/// order.
#[verifier::spinoff_prover]
#[verifier::rlimit(60)]
pub proof fn law_vanishing_divides(f: spec_fn(Ext) -> Ext, d: nat, g: u64, k: nat) -> (q: Seq<Ext>)
    requires
        is_poly(f, d),
        is_root(g, k),
        forall|r: nat| r < pow2(k) ==> f(x_base(#[trigger] f_pow(g, r))) == x_zero(),
    ensures
        divides(f, k, q),
        d >= pow2(k) ==> q.len() + pow2(k) <= d,
        d < pow2(k) ==> q.len() == 0,
{
    let n = pow2(k);
    let ps = subgroup_points(g, k);
    let p = choose|p: Seq<Ext>| #[trigger] shows(f, p) && p.len() <= d;
    let z = subgroup_poly(k);
    lemma_points_distinct(g, k);
    vstd::arithmetic::power2::lemma_pow2_pos(k);
    assert forall|i: int| 0 <= i < n implies p_at(p, #[trigger] ps[i]) == x_zero() by {
        let a = f_pow(g, i as nat);
        assert(f(x_base(f_pow(g, i as nat))) == p_at(p, x_base(a)));
    }
    assert forall|i: int| 0 <= i < n implies p_at(z, #[trigger] ps[i]) == x_zero() by {
        lemma_vanishes_on_points(g, k, i as nat);
        lemma_subgroup_poly(k, ps[i]);
    }
    let (q0, z0) = (p_over(p, ps, n), p_over(z, ps, n));
    lemma_over_len(p, ps, n);
    lemma_over_len(z, ps, n);
    lemma_subgroup_poly(k, x_zero());
    assert(z0 =~= seq![z0[0]]);
    let c = x_red(z0[0]);
    let i = x_inv(c);
    assert(c != x_zero() && x_mul(c, i) == x_one()) by {
        lemma_at_over(z, ps, n, x_zero());
        lemma_at_single(z0[0], x_zero());
        let u = roots_at(ps, n, x_zero());
        lemma_products(u, u, u);
        lemma_off_at_zero(k);
        lemma_reduced(z0[0], x_zero());
        law_extension_is_a_field(c);
    }
    let q = p_scale(i, q0);
    assert forall|x: Ext| #[trigger] f(x) == x_mul(vanishing(x, k), p_at(q, x)) by {
        assert(f(x) == p_at(p, x));
        lemma_at_over(p, ps, n, x);
        lemma_at_over(z, ps, n, x);
        lemma_at_single(z0[0], x);
        lemma_subgroup_poly(k, x);
        lemma_at_scale(i, q0, x);
        lemma_at_reduced(q0, x);
        lemma_rescaled(roots_at(ps, n, x), c, i, p_at(q0, x));
    }
    q
}

/// u v = (u c) (i v), where c i is one.
proof fn lemma_rescaled(u: Ext, c: Ext, i: Ext, v: Ext)
    requires
        x_mul(c, i) == x_one(),
    ensures
        x_mul(u, v) == x_mul(x_mul(u, c), x_mul(i, v)),
{
    lemma_products(u, c, x_mul(i, v));
    lemma_products(c, i, v);
    lemma_products(v, v, v);
    lemma_products(u, v, v);
}

/// Zero is no point of a subgroup.
pub proof fn lemma_off_at_zero(k: nat)
    ensures
        vanishing(x_zero(), k) != x_zero(),
{
    let n = pow2(k);
    vstd::arithmetic::power2::lemma_pow2_pos(k);
    lemma_square_is_pow(x_zero(), k);
    lemma_products(x_pow(x_zero(), (n - 1) as nat), x_zero(), x_zero());
    lemma_difference(x_zero(), x_one());
    lemma_reduced(x_zero(), x_one());
}

/// The selector of the point `a` of a subgroup: its polynomial over the variable less `a`.
pub open spec fn selector_poly(k: nat, a: Ext) -> Seq<Ext> {
    p_div(subgroup_poly(k), a)
}

/// Off its point a selector is the subgroup's polynomial over the difference; on the other points it vanishes.
#[verifier::rlimit(30)]
pub proof fn lemma_selector(k: nat, a: Ext, x: Ext)
    requires
        vanishing(a, k) == x_zero(),
        x_red(x) != x_red(a),
    ensures
        selector_poly(k, a).len() == pow2(k),
        p_at(selector_poly(k, a), x) == x_mul(vanishing(x, k), x_inv(x_sub(x, a))),
        vanishing(x, k) == x_zero() ==> p_at(selector_poly(k, a), x) == x_zero(),
        x_mul(x_sub(x, a), x_inv(x_sub(x, a))) == x_one(),
{
    let z = subgroup_poly(k);
    let (d, v) = (x_sub(x, a), p_at(selector_poly(k, a), x));
    lemma_subgroup_poly(k, x);
    lemma_subgroup_poly(k, a);
    lemma_div_len(z, a);
    lemma_at_div(z, a, x);
    lemma_minus_zero(vanishing(x, k));
    lemma_difference(x, a);
    lemma_reduced(x, a);
    law_extension_is_a_field(d);
    let i = x_inv(d);
    lemma_products(d, v, i);
    lemma_products(d, i, v);
    lemma_products(v, v, v);
    lemma_at_reduced(selector_poly(k, a), x);
    lemma_products(i, i, i);
}

} // verus!
