//! Polynomials over the extension, by their coefficients: sums and products, division by a root, and how many roots there
//! can be.

use vstd::prelude::*;

use crate::field::{x_add, x_mul, x_one, x_pow, x_red, x_sub, x_zero, Ext};
use crate::ring::{
    lemma_difference, lemma_distributes, lemma_exchange, lemma_no_zero_divisors, lemma_products, lemma_reduced, lemma_sums,
    lemma_undo,
};

verus! {

/// The value of a polynomial at a point. The first coefficient is the constant.
pub open spec fn p_at(p: Seq<Ext>, x: Ext) -> Ext
    decreases p.len(),
{
    if p.len() == 0 {
        x_zero()
    } else {
        x_add(p[0], x_mul(x, p_at(p.drop_first(), x)))
    }
}

/// A coefficient, zero behind the last.
pub open spec fn p_coefficient(p: Seq<Ext>, i: int) -> Ext {
    if 0 <= i < p.len() {
        p[i]
    } else {
        x_zero()
    }
}

/// The larger of two lengths.
pub open spec fn longer(a: nat, b: nat) -> nat {
    if a >= b {
        a
    } else {
        b
    }
}

pub open spec fn p_add(p: Seq<Ext>, q: Seq<Ext>) -> Seq<Ext> {
    Seq::new(longer(p.len(), q.len()), |i: int| x_add(p_coefficient(p, i), p_coefficient(q, i)))
}

pub open spec fn p_scale(c: Ext, p: Seq<Ext>) -> Seq<Ext> {
    Seq::new(p.len(), |i: int| x_mul(c, p[i]))
}

/// A polynomial times the variable.
pub open spec fn p_shift(p: Seq<Ext>) -> Seq<Ext> {
    seq![x_zero()] + p
}

pub open spec fn p_mul(p: Seq<Ext>, q: Seq<Ext>) -> Seq<Ext>
    decreases p.len(),
{
    if p.len() == 0 {
        Seq::empty()
    } else {
        p_add(p_scale(p[0], q), p_shift(p_mul(p.drop_first(), q)))
    }
}

/// What is left of a polynomial that is divided by the variable less `a`.
pub open spec fn p_div(p: Seq<Ext>, a: Ext) -> Seq<Ext>
    decreases p.len(),
{
    if p.len() <= 1 {
        Seq::empty()
    } else {
        p_add(p.drop_first(), p_scale(a, p_div(p.drop_first(), a)))
    }
}

/// The values of a polynomial are reduced, and depend on the point modulo p alone.
pub proof fn lemma_at_reduced(p: Seq<Ext>, x: Ext)
    ensures
        x_red(p_at(p, x)) == p_at(p, x),
        p_at(p, x_red(x)) == p_at(p, x),
    decreases p.len(),
{
    lemma_reduced(x_zero(), x_zero());
    if p.len() > 0 {
        let rest = p.drop_first();
        lemma_at_reduced(rest, x);
        lemma_reduced(p[0], x_mul(x, p_at(rest, x)));
        lemma_products(x, p_at(rest, x), x);
    }
}

/// A polynomial with one coefficient is constant.
pub proof fn lemma_at_single(c: Ext, x: Ext)
    ensures
        p_at(seq![c], x) == x_red(c),
{
    let rest = seq![c].drop_first();
    assert(rest.len() == 0);
    assert(p_at(rest, x) == x_zero());
    lemma_products(x, x, x);
    lemma_undo(c, c, c);
}

/// A sum of polynomials.
#[verifier::rlimit(30)]
pub proof fn lemma_at_add(p: Seq<Ext>, q: Seq<Ext>, x: Ext)
    ensures
        p_at(p_add(p, q), x) == x_add(p_at(p, x), p_at(q, x)),
    decreases p.len() + q.len(),
{
    let s = p_add(p, q);
    lemma_at_reduced(p, x);
    lemma_at_reduced(q, x);
    if p.len() == 0 && q.len() == 0 {
        lemma_undo(x_zero(), x_zero(), x_zero());
        lemma_reduced(x_zero(), x_zero());
    } else if p.len() == 0 {
        lemma_undo(p_at(q, x), x_zero(), x_zero());
        lemma_at_add(p, q.drop_first(), x);
        lemma_at_reduced(q.drop_first(), x);
        lemma_undo(p_at(q.drop_first(), x), x_zero(), x_zero());
        assert(s.drop_first() =~= p_add(p, q.drop_first()));
        lemma_undo(q[0], x_zero(), x_zero());
        lemma_reduced(q[0], x_mul(x, p_at(q.drop_first(), x)));
    } else if q.len() == 0 {
        lemma_undo(p_at(p, x), x_zero(), x_zero());
        lemma_at_add(p.drop_first(), q, x);
        lemma_at_reduced(p.drop_first(), x);
        lemma_undo(p_at(p.drop_first(), x), x_zero(), x_zero());
        assert(s.drop_first() =~= p_add(p.drop_first(), q));
        lemma_undo(p[0], x_zero(), x_zero());
        lemma_reduced(p[0], x_mul(x, p_at(p.drop_first(), x)));
    } else {
        let (a, b) = (p_at(p.drop_first(), x), p_at(q.drop_first(), x));
        lemma_at_add(p.drop_first(), q.drop_first(), x);
        assert(s.drop_first() =~= p_add(p.drop_first(), q.drop_first()));
        lemma_distributes(x, a, b);
        lemma_exchange(p[0], q[0], x_mul(x, a), x_mul(x, b));
    }
}

/// A multiple of a polynomial.
pub proof fn lemma_at_scale(c: Ext, p: Seq<Ext>, x: Ext)
    ensures
        p_at(p_scale(c, p), x) == x_mul(c, p_at(p, x)),
    decreases p.len(),
{
    lemma_products(c, c, c);
    if p.len() > 0 {
        let rest = p.drop_first();
        let v = p_at(rest, x);
        lemma_at_scale(c, rest, x);
        assert(p_scale(c, p).drop_first() =~= p_scale(c, rest));
        lemma_distributes(c, p[0], x_mul(x, v));
        lemma_products(c, x, v);
        lemma_products(x, c, v);
        lemma_products(c, v, x);
    }
}

pub proof fn lemma_at_shift(p: Seq<Ext>, x: Ext)
    ensures
        p_at(p_shift(p), x) == x_mul(x, p_at(p, x)),
{
    assert(p_shift(p).drop_first() =~= p);
    lemma_undo(x_mul(x, p_at(p, x)), x_zero(), x_zero());
    lemma_products(x, p_at(p, x), x);
}

/// A product of polynomials.
#[verifier::rlimit(30)]
pub proof fn lemma_at_mul(p: Seq<Ext>, q: Seq<Ext>, x: Ext)
    ensures
        p_at(p_mul(p, q), x) == x_mul(p_at(p, x), p_at(q, x)),
    decreases p.len(),
{
    let v = p_at(q, x);
    lemma_products(v, v, v);
    if p.len() > 0 {
        let rest = p.drop_first();
        let u = p_at(rest, x);
        lemma_at_mul(rest, q, x);
        lemma_at_scale(p[0], q, x);
        lemma_at_shift(p_mul(rest, q), x);
        lemma_at_add(p_scale(p[0], q), p_shift(p_mul(rest, q)), x);
        lemma_distributes(v, p[0], x_mul(x, u));
        lemma_products(x, u, v);
    }
}

pub proof fn lemma_mul_len(p: Seq<Ext>, q: Seq<Ext>)
    requires
        p.len() >= 1,
        q.len() >= 1,
    ensures
        p_mul(p, q).len() == p.len() + q.len() - 1,
    decreases p.len(),
{
    if p.len() > 1 {
        lemma_mul_len(p.drop_first(), q);
    } else {
        assert(p_mul(p.drop_first(), q).len() == 0);
    }
}

pub proof fn lemma_div_len(p: Seq<Ext>, a: Ext)
    ensures
        p_div(p, a).len() == (if p.len() == 0 {
            0
        } else {
            p.len() - 1
        }),
    decreases p.len(),
{
    if p.len() > 1 {
        lemma_div_len(p.drop_first(), a);
    }
}

proof fn lemma_div_short(p: Seq<Ext>, a: Ext, x: Ext)
    requires
        p.len() <= 1,
    ensures
        x_sub(p_at(p, x), p_at(p, a)) == x_mul(x_sub(x, a), p_at(p_div(p, a), x)),
{
    let d = x_sub(x, a);
    assert(p_at(p_div(p, a), x) == x_zero());
    lemma_products(d, d, d);
    if p.len() == 1 {
        assert(p =~= seq![p[0]]);
        lemma_at_single(p[0], x);
        lemma_at_single(p[0], a);
    }
    lemma_undo(p_at(p, x), p_at(p, x), p_at(p, x));
}

/// Division with remainder: p(x) - p(a) = (x - a) q(x).
#[verifier::spinoff_prover]
#[verifier::rlimit(60)]
pub proof fn lemma_at_div(p: Seq<Ext>, a: Ext, x: Ext)
    ensures
        x_sub(p_at(p, x), p_at(p, a)) == x_mul(x_sub(x, a), p_at(p_div(p, a), x)),
    decreases p.len(),
{
    if p.len() <= 1 {
        lemma_div_short(p, a, x);
    } else {
        let rest = p.drop_first();
        let q = p_div(rest, a);
        lemma_at_div(rest, a, x);
        lemma_at_scale(a, q, x);
        lemma_at_add(rest, p_scale(a, q), x);
        lemma_div_step(p[0], x, a, p_at(rest, x), p_at(rest, a), p_at(q, x));
    }
}

/// (c + x r) - (c + a s) = (x - a) (r + a q), where r - s = (x - a) q.
#[verifier::spinoff_prover]
#[verifier::rlimit(60)]
proof fn lemma_div_step(c: Ext, x: Ext, a: Ext, r: Ext, s: Ext, q: Ext)
    requires
        x_sub(r, s) == x_mul(x_sub(x, a), q),
    ensures
        x_sub(x_add(c, x_mul(x, r)), x_add(c, x_mul(a, s))) == x_mul(x_sub(x, a), x_add(r, x_mul(a, q))),
{
    let d = x_sub(x, a);
    assert(x_sub(x_add(c, x_mul(x, r)), x_add(c, x_mul(a, s))) == x_sub(x_mul(x, r), x_mul(a, s))) by {
        lemma_sums(c, x_mul(x, r), x_zero());
        lemma_sums(c, x_mul(a, s), x_zero());
        lemma_undo(x_mul(x, r), x_mul(a, s), c);
    }
    assert(x_mul(d, x_add(r, x_mul(a, q))) == x_add(x_mul(d, r), x_mul(d, x_mul(a, q)))) by {
        lemma_distributes(d, r, x_mul(a, q));
    }
    assert(x_mul(d, x_mul(a, q)) == x_mul(a, x_sub(r, s))) by {
        lemma_products(d, a, q);
        lemma_products(a, d, q);
    }
    assert(x_mul(a, x_sub(r, s)) == x_sub(x_mul(a, r), x_mul(a, s))) by {
        lemma_distributes(a, r, s);
    }
    assert(x_mul(d, r) == x_sub(x_mul(x, r), x_mul(a, r))) by {
        lemma_distributes(r, x, a);
    }
    lemma_telescope(x_mul(x, r), x_mul(a, r), x_mul(a, s));
}

/// (u - v) + (v - w) = u - w.
proof fn lemma_telescope(u: Ext, v: Ext, w: Ext)
    ensures
        x_add(x_sub(u, v), x_sub(v, w)) == x_sub(u, w),
{
    let (a, b) = (x_sub(u, v), x_sub(v, w));
    // Both sides give u when w is added.
    lemma_sums(a, b, w);
    lemma_undo(v, w, w);
    lemma_reduced(a, v);
    lemma_undo(u, v, v);
    lemma_undo(u, w, w);
    lemma_undo(x_add(a, b), w, w);
    lemma_undo(x_sub(u, w), w, w);
    lemma_reduced(a, b);
    lemma_reduced(u, w);
}

/// The product of the differences of a point from the first `n` of some points.
pub open spec fn roots_at(roots: Seq<Ext>, n: nat, x: Ext) -> Ext
    decreases n,
{
    if n == 0 {
        x_one()
    } else {
        x_mul(roots_at(roots, (n - 1) as nat, x), x_sub(x, roots[n - 1]))
    }
}

/// The points are different from one another.
pub open spec fn distinct(roots: Seq<Ext>) -> bool {
    forall|i: int, j: int|
        0 <= i < j < roots.len() ==> x_red(#[trigger] roots[i]) != x_red(#[trigger] roots[j])
}

/// A polynomial divided by the first `n` of its roots.
pub open spec fn p_over(p: Seq<Ext>, roots: Seq<Ext>, n: nat) -> Seq<Ext>
    decreases n,
{
    if n == 0 {
        p
    } else {
        p_div(p_over(p, roots, (n - 1) as nat), roots[n - 1])
    }
}

pub proof fn lemma_over_len(p: Seq<Ext>, roots: Seq<Ext>, n: nat)
    ensures
        p_over(p, roots, n).len() == (if p.len() <= n {
            0
        } else {
            (p.len() - n) as nat
        }),
    decreases n,
{
    if n > 0 {
        lemma_over_len(p, roots, (n - 1) as nat);
        lemma_div_len(p_over(p, roots, (n - 1) as nat), roots[n - 1]);
    }
}

/// The product over other points is not zero at a point that is none of them.
pub proof fn lemma_roots_nonzero(roots: Seq<Ext>, n: nat, x: Ext)
    requires
        n <= roots.len(),
        forall|i: int| 0 <= i < n ==> x_red(#[trigger] roots[i]) != x_red(x),
    ensures
        roots_at(roots, n, x) != x_zero(),
        x_red(roots_at(roots, n, x)) == roots_at(roots, n, x),
    decreases n,
{
    lemma_reduced(x_one(), x_one());
    if n > 0 {
        let (u, d) = (roots_at(roots, (n - 1) as nat, x), x_sub(x, roots[n - 1]));
        lemma_roots_nonzero(roots, (n - 1) as nat, x);
        lemma_products(u, d, d);
        if x_mul(u, d) == x_zero() {
            lemma_no_zero_divisors(u, d);
            lemma_reduced(x, roots[n - 1]);
            lemma_difference(x, roots[n - 1]);
        }
    }
}

/// A polynomial that vanishes on different points is the product over them times the quotient.
#[verifier::spinoff_prover]
#[verifier::rlimit(40)]
pub proof fn lemma_at_over(p: Seq<Ext>, roots: Seq<Ext>, n: nat, x: Ext)
    requires
        n <= roots.len(),
        distinct(roots),
        forall|i: int| 0 <= i < n ==> p_at(p, #[trigger] roots[i]) == x_zero(),
    ensures
        p_at(p, x) == x_mul(roots_at(roots, n, x), p_at(p_over(p, roots, n), x)),
    decreases n,
{
    lemma_at_reduced(p, x);
    lemma_products(p_at(p, x), x_one(), x_one());
    if n > 0 {
        let m = (n - 1) as nat;
        let a = roots[n - 1];
        let q = p_over(p, roots, m);
        lemma_at_over(p, roots, m, x);
        lemma_at_over(p, roots, m, a);
        // The quotient so far vanishes at the next point.
        assert(p_at(q, a) == x_zero()) by {
            assert forall|i: int| 0 <= i < m implies x_red(#[trigger] roots[i]) != x_red(a) by {}
            lemma_roots_nonzero(roots, m, a);
            lemma_no_zero_divisors(roots_at(roots, m, a), p_at(q, a));
            lemma_at_reduced(q, a);
            assert(p_at(p, roots[n - 1]) == x_zero());
        }
        lemma_at_div(q, a, x);
        lemma_at_reduced(q, x);
        lemma_minus_zero(p_at(q, x));
        lemma_products(roots_at(roots, m, x), x_sub(x, a), p_at(p_div(q, a), x));
    }
}

/// a - 0 = a.
pub proof fn lemma_minus_zero(a: Ext)
    ensures
        x_sub(a, x_zero()) == x_red(a),
{
    lemma_undo(a, x_zero(), x_zero());
    lemma_reduced(a, x_zero());
    lemma_undo(x_sub(a, x_zero()), x_zero(), x_zero());
}

/// A polynomial with as many different roots as it has coefficients is zero everywhere.
pub proof fn law_too_many_roots(p: Seq<Ext>, roots: Seq<Ext>, x: Ext)
    requires
        p.len() <= roots.len(),
        distinct(roots),
        forall|i: int| 0 <= i < roots.len() ==> p_at(p, #[trigger] roots[i]) == x_zero(),
    ensures
        p_at(p, x) == x_zero(),
{
    let n = roots.len();
    lemma_at_over(p, roots, n, x);
    lemma_over_len(p, roots, n);
    let u = roots_at(roots, n, x);
    lemma_products(u, u, u);
}

/// The function is a polynomial with at most `d` coefficients.
pub open spec fn is_poly(f: spec_fn(Ext) -> Ext, d: nat) -> bool {
    exists|p: Seq<Ext>| #[trigger] shows(f, p) && p.len() <= d
}

/// The polynomial has the values of the function.
pub open spec fn shows(f: spec_fn(Ext) -> Ext, p: Seq<Ext>) -> bool {
    forall|x: Ext| #[trigger] f(x) == p_at(p, x)
}

pub proof fn lemma_poly_same(f: spec_fn(Ext) -> Ext, g: spec_fn(Ext) -> Ext, d: nat, e: nat)
    requires
        is_poly(f, d),
        d <= e,
        forall|x: Ext| f(x) == #[trigger] g(x),
    ensures
        is_poly(g, e),
{
    let p = choose|p: Seq<Ext>| #[trigger] shows(f, p) && p.len() <= d;
    assert(shows(g, p));
}

pub proof fn lemma_poly_shown(p: Seq<Ext>)
    ensures
        is_poly(|x: Ext| p_at(p, x), p.len()),
{
    assert(shows(|x: Ext| p_at(p, x), p));
}

/// A constant.
pub proof fn lemma_poly_const(c: Ext)
    ensures
        is_poly(|x: Ext| x_red(c), 1),
{
    let p = seq![c];
    assert forall|x: Ext| x_red(c) == #[trigger] p_at(p, x) by {
        lemma_at_single(c, x);
    }
    let f = |x: Ext| x_red(c);
    assert(shows(f, p));
}

pub proof fn lemma_poly_add(f: spec_fn(Ext) -> Ext, g: spec_fn(Ext) -> Ext, d: nat, e: nat)
    requires
        is_poly(f, d),
        is_poly(g, e),
    ensures
        is_poly(|x: Ext| x_add(f(x), g(x)), longer(d, e)),
{
    let p = choose|p: Seq<Ext>| #[trigger] shows(f, p) && p.len() <= d;
    let q = choose|q: Seq<Ext>| #[trigger] shows(g, q) && q.len() <= e;
    let h = |x: Ext| x_add(f(x), g(x));
    assert forall|x: Ext| #[trigger] h(x) == p_at(p_add(p, q), x) by {
        lemma_at_add(p, q, x);
        assert(f(x) == p_at(p, x) && g(x) == p_at(q, x));
    }
    assert(shows(h, p_add(p, q)));
}

/// The negative of one.
pub open spec fn minus_one() -> Ext {
    x_sub(x_zero(), x_one())
}

/// a - b = a + (-1) b.
#[verifier::rlimit(30)]
pub proof fn lemma_minus(a: Ext, b: Ext)
    ensures
        x_sub(a, b) == x_add(a, x_mul(minus_one(), b)),
{
    let n = x_mul(minus_one(), b);
    lemma_distributes(b, x_zero(), x_one());
    lemma_products(b, b, b);
    lemma_reduced(x_zero(), b);
    assert(n == x_sub(x_zero(), b));
    lemma_undo(x_zero(), b, b);
    lemma_reduced(x_zero(), b);
    lemma_sums(a, n, b);
    lemma_undo(a, b, b);
    lemma_undo(x_add(a, n), b, b);
    lemma_undo(x_sub(a, b), b, b);
    lemma_reduced(a, b);
    lemma_reduced(a, n);
}

pub proof fn lemma_poly_scale(c: Ext, f: spec_fn(Ext) -> Ext, d: nat)
    requires
        is_poly(f, d),
    ensures
        is_poly(|x: Ext| x_mul(c, f(x)), d),
{
    let p = choose|p: Seq<Ext>| #[trigger] shows(f, p) && p.len() <= d;
    let h = |x: Ext| x_mul(c, f(x));
    assert forall|x: Ext| #[trigger] h(x) == p_at(p_scale(c, p), x) by {
        lemma_at_scale(c, p, x);
        assert(f(x) == p_at(p, x));
    }
    assert(shows(h, p_scale(c, p)));
}

pub proof fn lemma_poly_sub(f: spec_fn(Ext) -> Ext, g: spec_fn(Ext) -> Ext, d: nat, e: nat)
    requires
        is_poly(f, d),
        is_poly(g, e),
    ensures
        is_poly(|x: Ext| x_sub(f(x), g(x)), longer(d, e)),
{
    let n = |x: Ext| x_mul(minus_one(), g(x));
    lemma_poly_scale(minus_one(), g, e);
    lemma_poly_add(f, n, d, e);
    let h = |x: Ext| x_add(f(x), n(x));
    let k = |x: Ext| x_sub(f(x), g(x));
    assert forall|x: Ext| h(x) == #[trigger] k(x) by {
        lemma_minus(f(x), g(x));
    }
    lemma_poly_same(h, k, longer(d, e), longer(d, e));
}

#[verifier::rlimit(30)]
pub proof fn lemma_poly_mul(f: spec_fn(Ext) -> Ext, g: spec_fn(Ext) -> Ext, d: nat, e: nat)
    requires
        is_poly(f, d),
        is_poly(g, e),
        d >= 1,
        e >= 1,
    ensures
        is_poly(|x: Ext| x_mul(f(x), g(x)), (d + e - 1) as nat),
{
    let p = choose|p: Seq<Ext>| #[trigger] shows(f, p) && p.len() <= d;
    let q = choose|q: Seq<Ext>| #[trigger] shows(g, q) && q.len() <= e;
    let h = |x: Ext| x_mul(f(x), g(x));
    if p.len() == 0 || q.len() == 0 {
        let z = Seq::<Ext>::empty();
        assert forall|x: Ext| #[trigger] h(x) == p_at(z, x) by {
            assert(f(x) == p_at(p, x) && g(x) == p_at(q, x));
            lemma_products(f(x), f(x), f(x));
            lemma_products(g(x), g(x), g(x));
        }
        assert(shows(h, z));
    } else {
        assert forall|x: Ext| #[trigger] h(x) == p_at(p_mul(p, q), x) by {
            lemma_at_mul(p, q, x);
            assert(f(x) == p_at(p, x) && g(x) == p_at(q, x));
        }
        lemma_mul_len(p, q);
        assert(shows(h, p_mul(p, q)));
    }
}

/// A polynomial of a multiple of the variable.
pub open spec fn p_dilate(p: Seq<Ext>, c: Ext) -> Seq<Ext>
    decreases p.len(),
{
    if p.len() == 0 {
        p
    } else {
        seq![p[0]] + p_scale(c, p_dilate(p.drop_first(), c))
    }
}

proof fn lemma_dilate(p: Seq<Ext>, c: Ext, x: Ext)
    ensures
        p_dilate(p, c).len() == p.len(),
        p_at(p_dilate(p, c), x) == p_at(p, x_mul(x, c)),
    decreases p.len(),
{
    if p.len() > 0 {
        let rest = p_dilate(p.drop_first(), c);
        lemma_dilate(p.drop_first(), c, x);
        lemma_at_scale(c, rest, x);
        assert(p_dilate(p, c).drop_first() =~= p_scale(c, rest));
        lemma_products(x, c, p_at(rest, x));
    }
}

pub proof fn lemma_poly_dilate(p: Seq<Ext>, c: Ext)
    ensures
        is_poly(|x: Ext| p_at(p, x_mul(x, c)), p.len()),
{
    let f = |x: Ext| p_at(p, x_mul(x, c));
    assert forall|x: Ext| #[trigger] f(x) == p_at(p_dilate(p, c), x) by {
        lemma_dilate(p, c, x);
    }
    lemma_dilate(p, c, x_zero());
    assert(shows(f, p_dilate(p, c)));
}

/// A polynomial times the variable to the power `m`.
pub open spec fn p_raised(p: Seq<Ext>, m: nat) -> Seq<Ext>
    decreases m,
{
    if m == 0 {
        p
    } else {
        p_shift(p_raised(p, (m - 1) as nat))
    }
}

pub proof fn lemma_at_raised(p: Seq<Ext>, m: nat, x: Ext)
    ensures
        p_raised(p, m).len() == p.len() + m,
        p_at(p_raised(p, m), x) == x_mul(x_pow(x, m), p_at(p, x)),
    decreases m,
{
    let v = p_at(p, x);
    lemma_at_reduced(p, x);
    lemma_products(v, x, x);
    if m > 0 {
        let k = (m - 1) as nat;
        lemma_at_raised(p, k, x);
        lemma_at_shift(p_raised(p, k), x);
        lemma_products(x_pow(x, k), x, v);
        lemma_products(x, x_pow(x, k), v);
    }
}

/// A polynomial of a power of the variable.
pub open spec fn p_spread(p: Seq<Ext>, m: nat) -> Seq<Ext>
    decreases p.len(),
{
    if p.len() <= 1 {
        p
    } else {
        p_add(seq![p[0]], p_raised(p_spread(p.drop_first(), m), m))
    }
}

#[verifier::spinoff_prover]
#[verifier::rlimit(40)]
proof fn lemma_spread(p: Seq<Ext>, m: nat, x: Ext)
    requires
        m >= 1,
    ensures
        p.len() >= 1 ==> p_spread(p, m).len() == (p.len() - 1) * m + 1,
        p_at(p_spread(p, m), x) == p_at(p, x_pow(x, m)),
    decreases p.len(),
{
    if p.len() == 1 {
        assert(p =~= seq![p[0]]);
        lemma_at_single(p[0], x);
        lemma_at_single(p[0], x_pow(x, m));
        assert(0 * m == 0);
    } else if p.len() > 1 {
        let rest = p.drop_first();
        let one = seq![p[0]];
        let q = p_raised(p_spread(rest, m), m);
        let y = x_pow(x, m);
        lemma_spread(rest, m, x);
        lemma_at_raised(p_spread(rest, m), m, x);
        lemma_at_add(one, q, x);
        lemma_at_single(p[0], x);
        lemma_reduced(p[0], x_mul(y, p_at(rest, y)));
        assert((p.len() - 1) * m == (p.len() - 2) * m + m) by (nonlinear_arith);
    }
}

#[verifier::rlimit(30)]
pub proof fn lemma_poly_spread(f: spec_fn(Ext) -> Ext, d: nat, m: nat)
    requires
        is_poly(f, d),
        d >= 1,
        m >= 1,
    ensures
        is_poly(|x: Ext| f(x_pow(x, m)), ((d - 1) * m + 1) as nat),
{
    let p = choose|p: Seq<Ext>| #[trigger] shows(f, p) && p.len() <= d;
    let g = |x: Ext| f(x_pow(x, m));
    assert forall|x: Ext| #[trigger] g(x) == p_at(p_spread(p, m), x) by {
        lemma_spread(p, m, x);
        assert(f(x_pow(x, m)) == p_at(p, x_pow(x, m)));
    }
    lemma_spread(p, m, x_zero());
    if p.len() >= 1 {
        assert((p.len() - 1) * m <= (d - 1) * m) by (nonlinear_arith)
            requires
                p.len() <= d,
        ;
    } else {
        assert((d - 1) * m >= 0) by (nonlinear_arith)
            requires
                d >= 1,
        ;
    }
    assert(shows(g, p_spread(p, m)));
}

} // verus!
