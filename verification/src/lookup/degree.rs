//! Constraints over columns that are polynomials are polynomials, and of what length.

use vstd::arithmetic::power2::pow2;
use vstd::prelude::*;

use crate::expr::{degree, Expr, Wire};
use crate::field::{x_add, x_base, x_mul, x_red, x_sub, x_zero, Ext};
use crate::lookup::air::{
    above, accumulator_constraints, below, combined, ext_degree, fraction_constraint, fraction_sum, lemma_base_degree,
    lemma_trees_degree, log_quotient_chunks, lookup_constraints, lookup_shaped, numerator, reads_in, system_degree,
    system_shaped, tree_reads, ExtWire, LookupView, SystemView,
};
use crate::lookup::quotient::{batched, folded_trees};
use crate::poly::{
    is_poly, lemma_poly_add, lemma_poly_const, lemma_poly_mul, lemma_poly_same, lemma_poly_scale, lemma_poly_sub, longer,
};
use crate::ring::{lemma_base, lemma_products, lemma_reduced};
use crate::stark::verify::folded_constraints;
use crate::symbolic::{native_ext_value, native_value, ExtExpr, NativeLookupView, NativeView};

verus! {

/// A function of a point.
pub type Curve = spec_fn(Ext) -> Ext;

/// The coefficients of an expression over columns of `n` coefficients each: a column, a periodic value and the two
/// boundary selectors have `n`, the transition selector two, everything else one.
pub open spec fn wire_len(e: Wire, n: nat) -> nat
    decreases e,
{
    match *e {
        Expr::Cur(_) => n,
        Expr::Nxt(_) => n,
        Expr::Periodic(_) => n,
        Expr::IsFirstRow => n,
        Expr::IsLastRow => n,
        Expr::IsTransition => 2,
        Expr::Public(_) => 1,
        Expr::Const(_) => 1,
        Expr::Sum(a, b) => longer(wire_len(a, n), wire_len(b, n)),
        Expr::Difference(a, b) => longer(wire_len(a, n), wire_len(b, n)),
        Expr::Negation(a) => wire_len(a, n),
        Expr::Product(a, b) => (wire_len(a, n) + wire_len(b, n) - 1) as nat,
    }
}

/// The same of a lookup tree.
pub open spec fn tree_len(e: ExtWire, n: nat) -> nat
    decreases e,
{
    match *e {
        ExtExpr::Base(a) => wire_len(a, n),
        ExtExpr::PermCur(_) => n,
        ExtExpr::PermNxt(_) => n,
        ExtExpr::Challenge(_) => 1,
        ExtExpr::PermValue(_) => 1,
        ExtExpr::Const(_) => 1,
        ExtExpr::Sum(a, b) => longer(tree_len(a, n), tree_len(b, n)),
        ExtExpr::Difference(a, b) => longer(tree_len(a, n), tree_len(b, n)),
        ExtExpr::Negation(a) => tree_len(a, n),
        ExtExpr::Product(a, b) => (tree_len(a, n) + tree_len(b, n) - 1) as nat,
    }
}

/// The openings at a point, column by column.
pub open spec fn local_curve(ov: spec_fn(Ext) -> NativeView, c: int) -> Curve {
    |x: Ext| x_red(ov(x).local[c])
}

pub open spec fn next_curve(ov: spec_fn(Ext) -> NativeView, c: int) -> Curve {
    |x: Ext| x_red(ov(x).next[c])
}

pub open spec fn periodic_curve(ov: spec_fn(Ext) -> NativeView, c: int) -> Curve {
    |x: Ext| x_red(ov(x).periodic[c])
}

pub open spec fn first_curve(ov: spec_fn(Ext) -> NativeView) -> Curve {
    |x: Ext| x_red(ov(x).is_first)
}

pub open spec fn last_curve(ov: spec_fn(Ext) -> NativeView) -> Curve {
    |x: Ext| x_red(ov(x).is_last)
}

pub open spec fn trans_curve(ov: spec_fn(Ext) -> NativeView) -> Curve {
    |x: Ext| x_red(ov(x).is_trans)
}

/// The openings are those of polynomials with `n` coefficients, the public values are the same at every point, and the
/// transition selector has two coefficients.
pub open spec fn poly_openings(ov: spec_fn(Ext) -> NativeView, s: SystemView, pubs: Seq<Ext>, n: nat) -> bool {
    &&& n >= 1
    &&& pubs.len() >= s.pubs
    &&& forall|c: int| 0 <= c < s.width ==> is_poly(#[trigger] local_curve(ov, c), n)
    &&& forall|c: int| 0 <= c < s.width ==> is_poly(#[trigger] next_curve(ov, c), n)
    &&& forall|c: int| 0 <= c < s.periodic.len() ==> is_poly(#[trigger] periodic_curve(ov, c), n)
    &&& forall|x: Ext| (#[trigger] ov(x)).pubs == pubs
    &&& is_poly(first_curve(ov), n)
    &&& is_poly(last_curve(ov), n)
    &&& is_poly(trans_curve(ov), 2)
}

pub open spec fn aux_curve(lv: spec_fn(Ext) -> NativeLookupView, c: int) -> Curve {
    |x: Ext| x_red(lv(x).perm_local[c])
}

pub open spec fn aux_next_curve(lv: spec_fn(Ext) -> NativeLookupView, c: int) -> Curve {
    |x: Ext| x_red(lv(x).perm_next[c])
}

/// The same of the aux columns; the challenges and the terminal are the same at every point.
pub open spec fn poly_lookup(
    lv: spec_fn(Ext) -> NativeLookupView,
    s: SystemView,
    challenges: Seq<Ext>,
    values: Seq<Ext>,
    n: nat,
) -> bool {
    &&& forall|c: int| 0 <= c <= s.lookups.len() ==> is_poly(#[trigger] aux_curve(lv, c), n)
    &&& forall|c: int| 0 <= c <= s.lookups.len() ==> is_poly(#[trigger] aux_next_curve(lv, c), n)
    &&& forall|x: Ext| (#[trigger] lv(x)).challenges == challenges && lv(x).perm_values == values
}

/// An expression as a function of the point.
pub open spec fn wire_curve(e: Wire, ov: spec_fn(Ext) -> NativeView) -> Curve {
    |x: Ext| native_value(e, ov(x))
}

/// A lookup tree as a function of the point.
pub open spec fn tree_curve(e: ExtWire, ov: spec_fn(Ext) -> NativeView, lv: spec_fn(Ext) -> NativeLookupView) -> Curve {
    |x: Ext| native_ext_value(e, ov(x), lv(x))
}

#[verifier::rlimit(30)]
proof fn lemma_wire_len(e: Wire, n: nat)
    requires
        n >= 1,
    ensures
        wire_len(e, n) >= 1,
    decreases e,
{
    match *e {
        Expr::Sum(a, b) => {
            lemma_wire_len(a, n);
        },
        Expr::Difference(a, b) => {
            lemma_wire_len(a, n);
        },
        Expr::Negation(a) => {
            lemma_wire_len(a, n);
        },
        Expr::Product(a, b) => {
            lemma_wire_len(a, n);
            lemma_wire_len(b, n);
        },
        _ => {},
    }
}

#[verifier::rlimit(30)]
proof fn lemma_tree_len(e: ExtWire, n: nat)
    requires
        n >= 1,
    ensures
        tree_len(e, n) >= 1,
    decreases e,
{
    match *e {
        ExtExpr::Base(a) => {
            lemma_wire_len(a, n);
        },
        ExtExpr::Sum(a, b) => {
            lemma_tree_len(a, n);
        },
        ExtExpr::Difference(a, b) => {
            lemma_tree_len(a, n);
        },
        ExtExpr::Negation(a) => {
            lemma_tree_len(a, n);
        },
        ExtExpr::Product(a, b) => {
            lemma_tree_len(a, n);
            lemma_tree_len(b, n);
        },
        _ => {},
    }
}

/// An expression over polynomials is a polynomial.
#[verifier::spinoff_prover]
#[verifier::rlimit(40)]
pub proof fn lemma_wire_poly(e: Wire, ov: spec_fn(Ext) -> NativeView, s: SystemView, pubs: Seq<Ext>, n: nat)
    requires
        poly_openings(ov, s, pubs, n),
        reads_in(s, e),
    ensures
        is_poly(wire_curve(e, ov), wire_len(e, n)),
    decreases e,
{
    let f = wire_curve(e, ov);
    let d = wire_len(e, n);
    match *e {
        Expr::Cur(i) => {
            lemma_poly_same(local_curve(ov, i as int), f, n, d);
        },
        Expr::Nxt(i) => {
            lemma_poly_same(next_curve(ov, i as int), f, n, d);
        },
        Expr::Periodic(i) => {
            lemma_poly_same(periodic_curve(ov, i as int), f, n, d);
        },
        Expr::IsFirstRow => {
            lemma_poly_same(first_curve(ov), f, n, d);
        },
        Expr::IsLastRow => {
            lemma_poly_same(last_curve(ov), f, n, d);
        },
        Expr::IsTransition => {
            lemma_poly_same(trans_curve(ov), f, 2, d);
        },
        Expr::Public(i) => {
            let c = pubs[i as int];
            lemma_poly_const(c);
            let g = |x: Ext| x_red(c);
            assert forall|x: Ext| g(x) == #[trigger] f(x) by {
                assert(ov(x).pubs == pubs);
            }
            lemma_poly_same(g, f, 1, d);
        },
        Expr::Const(v) => {
            let c = x_base(v);
            lemma_poly_const(c);
            lemma_base(v, 0);
            lemma_poly_same(|x: Ext| x_red(c), f, 1, d);
        },
        Expr::Sum(a, b) => {
            lemma_wire_poly(a, ov, s, pubs, n);
            lemma_wire_poly(b, ov, s, pubs, n);
            let (p, q) = (wire_curve(a, ov), wire_curve(b, ov));
            lemma_poly_add(p, q, wire_len(a, n), wire_len(b, n));
            lemma_poly_same(|x: Ext| x_add(p(x), q(x)), f, d, d);
        },
        Expr::Difference(a, b) => {
            lemma_wire_poly(a, ov, s, pubs, n);
            lemma_wire_poly(b, ov, s, pubs, n);
            let (p, q) = (wire_curve(a, ov), wire_curve(b, ov));
            lemma_poly_sub(p, q, wire_len(a, n), wire_len(b, n));
            lemma_poly_same(|x: Ext| x_sub(p(x), q(x)), f, d, d);
        },
        Expr::Negation(a) => {
            lemma_wire_poly(a, ov, s, pubs, n);
            lemma_wire_len(a, n);
            lemma_poly_const(x_zero());
            let (p, q) = (|x: Ext| x_red(x_zero()), wire_curve(a, ov));
            lemma_poly_sub(p, q, 1, wire_len(a, n));
            lemma_reduced(x_zero(), x_zero());
            lemma_poly_same(|x: Ext| x_sub(p(x), q(x)), f, d, d);
        },
        Expr::Product(a, b) => {
            lemma_wire_poly(a, ov, s, pubs, n);
            lemma_wire_poly(b, ov, s, pubs, n);
            lemma_wire_len(a, n);
            lemma_wire_len(b, n);
            let (p, q) = (wire_curve(a, ov), wire_curve(b, ov));
            lemma_poly_mul(p, q, wire_len(a, n), wire_len(b, n));
            lemma_poly_same(|x: Ext| x_mul(p(x), q(x)), f, d, d);
        },
    }
}

/// A lookup tree over polynomials is a polynomial.
#[verifier::spinoff_prover]
#[verifier::rlimit(40)]
pub proof fn lemma_tree_poly(
    e: ExtWire,
    ov: spec_fn(Ext) -> NativeView,
    lv: spec_fn(Ext) -> NativeLookupView,
    s: SystemView,
    pubs: Seq<Ext>,
    challenges: Seq<Ext>,
    values: Seq<Ext>,
    n: nat,
)
    requires
        poly_openings(ov, s, pubs, n),
        poly_lookup(lv, s, challenges, values, n),
        tree_reads(s, e),
    ensures
        is_poly(tree_curve(e, ov, lv), tree_len(e, n)),
    decreases e,
{
    let f = tree_curve(e, ov, lv);
    let d = tree_len(e, n);
    match *e {
        ExtExpr::Base(a) => {
            lemma_wire_poly(a, ov, s, pubs, n);
            lemma_poly_same(wire_curve(a, ov), f, d, d);
        },
        ExtExpr::PermCur(i) => {
            lemma_poly_same(aux_curve(lv, i as int), f, n, d);
        },
        ExtExpr::PermNxt(i) => {
            lemma_poly_same(aux_next_curve(lv, i as int), f, n, d);
        },
        ExtExpr::Challenge(i) => {
            let c = challenges[i as int];
            lemma_poly_const(c);
            let g = |x: Ext| x_red(c);
            assert forall|x: Ext| g(x) == #[trigger] f(x) by {
                assert(lv(x).challenges == challenges);
            }
            lemma_poly_same(g, f, 1, d);
        },
        ExtExpr::PermValue(i) => {
            let c = values[i as int];
            lemma_poly_const(c);
            let g = |x: Ext| x_red(c);
            assert forall|x: Ext| g(x) == #[trigger] f(x) by {
                assert(lv(x).perm_values == values);
            }
            lemma_poly_same(g, f, 1, d);
        },
        ExtExpr::Const(c) => {
            lemma_poly_const(c);
            lemma_poly_same(|x: Ext| x_red(c), f, 1, d);
        },
        ExtExpr::Sum(a, b) => {
            lemma_tree_poly(a, ov, lv, s, pubs, challenges, values, n);
            lemma_tree_poly(b, ov, lv, s, pubs, challenges, values, n);
            let (p, q) = (tree_curve(a, ov, lv), tree_curve(b, ov, lv));
            lemma_poly_add(p, q, tree_len(a, n), tree_len(b, n));
            lemma_poly_same(|x: Ext| x_add(p(x), q(x)), f, d, d);
        },
        ExtExpr::Difference(a, b) => {
            lemma_tree_poly(a, ov, lv, s, pubs, challenges, values, n);
            lemma_tree_poly(b, ov, lv, s, pubs, challenges, values, n);
            let (p, q) = (tree_curve(a, ov, lv), tree_curve(b, ov, lv));
            lemma_poly_sub(p, q, tree_len(a, n), tree_len(b, n));
            lemma_poly_same(|x: Ext| x_sub(p(x), q(x)), f, d, d);
        },
        ExtExpr::Negation(a) => {
            lemma_tree_poly(a, ov, lv, s, pubs, challenges, values, n);
            lemma_tree_len(a, n);
            lemma_poly_const(x_zero());
            let (p, q) = (|x: Ext| x_red(x_zero()), tree_curve(a, ov, lv));
            lemma_poly_sub(p, q, 1, tree_len(a, n));
            lemma_reduced(x_zero(), x_zero());
            lemma_poly_same(|x: Ext| x_sub(p(x), q(x)), f, d, d);
        },
        ExtExpr::Product(a, b) => {
            lemma_tree_poly(a, ov, lv, s, pubs, challenges, values, n);
            lemma_tree_poly(b, ov, lv, s, pubs, challenges, values, n);
            lemma_tree_len(a, n);
            lemma_tree_len(b, n);
            let (p, q) = (tree_curve(a, ov, lv), tree_curve(b, ov, lv));
            lemma_poly_mul(p, q, tree_len(a, n), tree_len(b, n));
            lemma_poly_same(|x: Ext| x_mul(p(x), q(x)), f, d, d);
        },
    }
}

/// No constraint of a system over columns of `n` coefficients has more than `d`.
pub open spec fn constraints_fit(s: SystemView, n: nat, d: nat) -> bool {
    &&& forall|i: int| 0 <= i < s.constraints.len() ==> wire_len(#[trigger] s.constraints[i], n) <= d
    &&& forall|i: int|
        0 <= i < lookup_constraints(s.lookups).len() ==> tree_len(#[trigger] lookup_constraints(s.lookups)[i], n) <= d
}

/// The fold of a system's own constraints is a polynomial.
#[verifier::rlimit(30)]
proof fn lemma_fold_poly(
    ov: spec_fn(Ext) -> NativeView,
    s: SystemView,
    pubs: Seq<Ext>,
    alpha: Ext,
    n: nat,
    d: nat,
    k: nat,
)
    requires
        poly_openings(ov, s, pubs, n),
        forall|i: int| 0 <= i < s.constraints.len() ==> reads_in(s, #[trigger] s.constraints[i]),
        constraints_fit(s, n, d),
        d >= 1,
        k <= s.constraints.len(),
    ensures
        is_poly(|x: Ext| folded_constraints(s.constraints, ov(x), alpha, k), d),
    decreases k,
{
    let f = |x: Ext| folded_constraints(s.constraints, ov(x), alpha, k);
    if k == 0 {
        lemma_poly_const(x_zero());
        lemma_reduced(x_zero(), x_zero());
        lemma_poly_same(|x: Ext| x_red(x_zero()), f, 1, d);
    } else {
        let m = (k - 1) as nat;
        let p = |x: Ext| folded_constraints(s.constraints, ov(x), alpha, m);
        let e = s.constraints[k - 1];
        let q = wire_curve(e, ov);
        lemma_fold_poly(ov, s, pubs, alpha, n, d, m);
        lemma_wire_poly(e, ov, s, pubs, n);
        lemma_poly_same(q, q, wire_len(e, n), d);
        lemma_poly_scale(alpha, p, d);
        let h = |x: Ext| x_mul(alpha, p(x));
        lemma_poly_add(h, q, d, d);
        let g = |x: Ext| x_add(h(x), q(x));
        assert forall|x: Ext| g(x) == #[trigger] f(x) by {
            lemma_products(alpha, p(x), alpha);
        }
        lemma_poly_same(g, f, d, d);
    }
}

/// The batched constraints of a system over polynomials are a polynomial.
pub proof fn lemma_batched_poly(
    ov: spec_fn(Ext) -> NativeView,
    lv: spec_fn(Ext) -> NativeLookupView,
    s: SystemView,
    pubs: Seq<Ext>,
    challenges: Seq<Ext>,
    values: Seq<Ext>,
    alpha: Ext,
    n: nat,
    d: nat,
)
    requires
        poly_openings(ov, s, pubs, n),
        poly_lookup(lv, s, challenges, values, n),
        crate::lookup::air::system_shaped(s),
        crate::lookup::air::system_reads(s),
        constraints_fit(s, n, d),
        d >= 1,
    ensures
        is_poly(|x: Ext| batched(s, ov(x), lv(x), alpha), d),
{
    let trees = lookup_constraints(s.lookups);
    lemma_trees_poly(ov, lv, s, pubs, challenges, values, alpha, n, d, trees.len());
    let k = s.constraints.len();
    let g = |x: Ext|
        folded_trees(trees, ov(x), lv(x), alpha, folded_constraints(s.constraints, ov(x), alpha, k), trees.len());
    lemma_poly_same(g, |x: Ext| batched(s, ov(x), lv(x), alpha), d, d);
}

#[verifier::rlimit(30)]
proof fn lemma_trees_poly(
    ov: spec_fn(Ext) -> NativeView,
    lv: spec_fn(Ext) -> NativeLookupView,
    s: SystemView,
    pubs: Seq<Ext>,
    challenges: Seq<Ext>,
    values: Seq<Ext>,
    alpha: Ext,
    n: nat,
    d: nat,
    k: nat,
)
    requires
        poly_openings(ov, s, pubs, n),
        poly_lookup(lv, s, challenges, values, n),
        crate::lookup::air::system_shaped(s),
        crate::lookup::air::system_reads(s),
        constraints_fit(s, n, d),
        d >= 1,
        k <= lookup_constraints(s.lookups).len(),
    ensures
        is_poly(
            |x: Ext|
                folded_trees(
                    lookup_constraints(s.lookups),
                    ov(x),
                    lv(x),
                    alpha,
                    folded_constraints(s.constraints, ov(x), alpha, s.constraints.len()),
                    k,
                ),
            d,
        ),
    decreases k,
{
    let trees = lookup_constraints(s.lookups);
    let c = s.constraints.len();
    let start = |x: Ext| folded_constraints(s.constraints, ov(x), alpha, c);
    let f = |x: Ext|
        folded_trees(trees, ov(x), lv(x), alpha, folded_constraints(s.constraints, ov(x), alpha, s.constraints.len()), k);
    if k == 0 {
        lemma_fold_poly(ov, s, pubs, alpha, n, d, c);
        lemma_poly_same(start, f, d, d);
    } else {
        let m = (k - 1) as nat;
        let p = |x: Ext|
            folded_trees(
                trees,
                ov(x),
                lv(x),
                alpha,
                folded_constraints(s.constraints, ov(x), alpha, s.constraints.len()),
                m,
            );
        let e = trees[k - 1];
        let q = tree_curve(e, ov, lv);
        lemma_trees_poly(ov, lv, s, pubs, challenges, values, alpha, n, d, m);
        crate::lookup::air::law_lookup_constraints_read(s, k - 1);
        lemma_tree_poly(e, ov, lv, s, pubs, challenges, values, n);
        lemma_poly_same(q, q, tree_len(e, n), d);
        lemma_poly_scale(alpha, p, d);
        let h = |x: Ext| x_mul(alpha, p(x));
        lemma_poly_add(h, q, d, d);
        let g = |x: Ext| x_add(h(x), q(x));
        assert forall|x: Ext| g(x) == #[trigger] f(x) by {
            lemma_products(alpha, p(x), alpha);
        }
        lemma_poly_same(g, f, d, d);
    }
}

/// How often an expression multiplies by the transition selector, which its degree does not count.
pub open spec fn transitions(e: Wire) -> nat
    decreases e,
{
    match *e {
        Expr::IsTransition => 1,
        Expr::Sum(a, b) => longer(transitions(a), transitions(b)),
        Expr::Difference(a, b) => longer(transitions(a), transitions(b)),
        Expr::Negation(a) => transitions(a),
        Expr::Product(a, b) => transitions(a) + transitions(b),
        _ => 0,
    }
}

/// The same of a lookup tree.
pub open spec fn tree_transitions(e: ExtWire) -> nat
    decreases e,
{
    match *e {
        ExtExpr::Base(a) => transitions(a),
        ExtExpr::Sum(a, b) => longer(tree_transitions(a), tree_transitions(b)),
        ExtExpr::Difference(a, b) => longer(tree_transitions(a), tree_transitions(b)),
        ExtExpr::Negation(a) => tree_transitions(a),
        ExtExpr::Product(a, b) => tree_transitions(a) + tree_transitions(b),
        _ => 0,
    }
}

/// No constraint of a system multiplies by the transition selector more than `t` times.
pub open spec fn transitions_within(s: SystemView, t: nat) -> bool {
    &&& forall|i: int| 0 <= i < s.constraints.len() ==> transitions(#[trigger] s.constraints[i]) <= t
    &&& forall|i: int|
        0 <= i < lookup_constraints(s.lookups).len() ==> tree_transitions(#[trigger] lookup_constraints(s.lookups)[i]) <= t
}

/// d (n - 1) + t + 1.
pub open spec fn len_of(d: nat, t: nat, n: nat) -> int {
    d * (n - 1) + t + 1
}

proof fn lemma_len_grows(d: nat, e: nat, t: nat, u: nat, n: nat)
    requires
        d <= e,
        t <= u,
        n >= 1,
    ensures
        len_of(d, t, n) <= len_of(e, u, n),
{
    assert(d * (n - 1) <= e * (n - 1)) by (nonlinear_arith)
        requires
            d <= e,
            n >= 1,
    ;
}

proof fn lemma_len_adds(d: nat, e: nat, t: nat, u: nat, n: nat)
    ensures
        len_of(d + e, t + u, n) == len_of(d, t, n) + len_of(e, u, n) - 1,
{
    assert((d + e) * (n - 1) == d * (n - 1) + e * (n - 1)) by (nonlinear_arith);
}

/// The coefficients of an expression by its degree.
#[verifier::rlimit(30)]
pub proof fn lemma_wire_len_by_degree(e: Wire, n: nat)
    requires
        n >= 1,
    ensures
        wire_len(e, n) <= len_of(degree(e), transitions(e), n),
    decreases e,
{
    assert(1 * (n - 1) == n - 1 && 0 * (n - 1) == 0);
    match *e {
        Expr::Sum(a, b) => {
            lemma_wire_len_by_degree(a, n);
            lemma_wire_len_by_degree(b, n);
            lemma_len_grows(degree(a), degree(e), transitions(a), transitions(e), n);
            lemma_len_grows(degree(b), degree(e), transitions(b), transitions(e), n);
        },
        Expr::Difference(a, b) => {
            lemma_wire_len_by_degree(a, n);
            lemma_wire_len_by_degree(b, n);
            lemma_len_grows(degree(a), degree(e), transitions(a), transitions(e), n);
            lemma_len_grows(degree(b), degree(e), transitions(b), transitions(e), n);
        },
        Expr::Negation(a) => {
            lemma_wire_len_by_degree(a, n);
        },
        Expr::Product(a, b) => {
            lemma_wire_len_by_degree(a, n);
            lemma_wire_len_by_degree(b, n);
            lemma_wire_len(a, n);
            lemma_wire_len(b, n);
            lemma_len_adds(degree(a), degree(b), transitions(a), transitions(b), n);
        },
        _ => {},
    }
}

/// The coefficients of a lookup tree by its degree.
#[verifier::rlimit(30)]
pub proof fn lemma_tree_len_by_degree(e: ExtWire, n: nat)
    requires
        n >= 1,
    ensures
        tree_len(e, n) <= len_of(ext_degree(e), tree_transitions(e), n),
    decreases e,
{
    assert(1 * (n - 1) == n - 1 && 0 * (n - 1) == 0);
    match *e {
        ExtExpr::Base(a) => {
            lemma_wire_len_by_degree(a, n);
        },
        ExtExpr::Sum(a, b) => {
            lemma_tree_len_by_degree(a, n);
            lemma_tree_len_by_degree(b, n);
            lemma_len_grows(ext_degree(a), ext_degree(e), tree_transitions(a), tree_transitions(e), n);
            lemma_len_grows(ext_degree(b), ext_degree(e), tree_transitions(b), tree_transitions(e), n);
        },
        ExtExpr::Difference(a, b) => {
            lemma_tree_len_by_degree(a, n);
            lemma_tree_len_by_degree(b, n);
            lemma_len_grows(ext_degree(a), ext_degree(e), tree_transitions(a), tree_transitions(e), n);
            lemma_len_grows(ext_degree(b), ext_degree(e), tree_transitions(b), tree_transitions(e), n);
        },
        ExtExpr::Negation(a) => {
            lemma_tree_len_by_degree(a, n);
        },
        ExtExpr::Product(a, b) => {
            lemma_tree_len_by_degree(a, n);
            lemma_tree_len_by_degree(b, n);
            lemma_tree_len(a, n);
            lemma_tree_len(b, n);
            lemma_len_adds(ext_degree(a), ext_degree(b), tree_transitions(a), tree_transitions(b), n);
        },
        _ => {},
    }
}

/// The coefficients of a system's constraints by its degree.
#[verifier::rlimit(30)]
pub proof fn law_constraints_fit_by_degree(s: SystemView, n: nat, t: nat)
    requires
        n >= 1,
        transitions_within(s, t),
    ensures
        constraints_fit(s, n, len_of(system_degree(s), t, n) as nat),
{
    let trees = lookup_constraints(s.lookups);
    let d = system_degree(s);
    lemma_len_grows(0, d, 0, t, n);
    assert(0 * (n - 1) == 0);
    assert forall|i: int| 0 <= i < s.constraints.len() implies wire_len(#[trigger] s.constraints[i], n) <= len_of(d, t, n) by {
        lemma_wire_len_by_degree(s.constraints[i], n);
        lemma_base_degree(s.constraints, i, s.constraints.len());
        lemma_len_grows(degree(s.constraints[i]), d, transitions(s.constraints[i]), t, n);
    }
    assert forall|i: int| 0 <= i < trees.len() implies tree_len(#[trigger] trees[i], n) <= len_of(d, t, n) by {
        lemma_tree_len_by_degree(trees[i], n);
        lemma_trees_degree(trees, i, trees.len());
        lemma_len_grows(ext_degree(trees[i]), d, tree_transitions(trees[i]), t, n);
    }
}

/// A quotient that is by the trace's length shorter than the constraints fits the committed chunks, where the degree
/// exceeds the number of transition factors.
#[verifier::rlimit(30)]
pub proof fn law_quotient_fits_chunks(s: SystemView, n: nat, t: nat, q: nat)
    requires
        n >= 1,
        t < system_degree(s),
        q + n <= len_of(system_degree(s), t, n),
    ensures
        q <= pow2(log_quotient_chunks(system_degree(s), 0)) * n,
{
    let d = system_degree(s);
    let c = if d < 2 {
        1
    } else {
        (d - 1) as nat
    };
    let m = pow2(log_quotient_chunks(d, 0));
    crate::bits::lemma_next_pow2(c);
    assert(m >= c);
    assert(q <= c * n) by (nonlinear_arith)
        requires
            q + n <= d * (n - 1) + t + 1,
            t + 1 <= d,
            c >= d - 1,
            n >= 1,
    ;
    assert(c * n <= m * n) by (nonlinear_arith)
        requires
            c <= m,
    ;
}

/// An expression that reads no selector.
pub open spec fn reads_cells(e: Wire) -> bool
    decreases e,
{
    match *e {
        Expr::IsFirstRow => false,
        Expr::IsLastRow => false,
        Expr::IsTransition => false,
        Expr::Sum(a, b) => reads_cells(a) && reads_cells(b),
        Expr::Difference(a, b) => reads_cells(a) && reads_cells(b),
        Expr::Negation(a) => reads_cells(a),
        Expr::Product(a, b) => reads_cells(a) && reads_cells(b),
        _ => true,
    }
}

/// A lookup whose expressions read no selector.
pub open spec fn lookup_reads_cells(v: LookupView) -> bool {
    &&& forall|j: int| 0 <= j < v.multiplicities.len() ==> reads_cells(#[trigger] v.multiplicities[j])
    &&& forall|j: int, i: int|
        0 <= j < v.elements.len() && 0 <= i < v.elements[j].len() ==> reads_cells(#[trigger] v.elements[j][i])
}

#[verifier::rlimit(30)]
proof fn lemma_no_transitions(e: Wire)
    requires
        reads_cells(e),
    ensures
        transitions(e) == 0,
    decreases e,
{
    match *e {
        Expr::Sum(a, b) => {
            lemma_no_transitions(a);
            lemma_no_transitions(b);
        },
        Expr::Difference(a, b) => {
            lemma_no_transitions(a);
            lemma_no_transitions(b);
        },
        Expr::Negation(a) => {
            lemma_no_transitions(a);
        },
        Expr::Product(a, b) => {
            lemma_no_transitions(a);
            lemma_no_transitions(b);
        },
        _ => {},
    }
}

proof fn lemma_combined_transitions(v: LookupView, c: int, j: int, n: nat)
    requires
        lookup_reads_cells(v),
        0 <= j < v.elements.len(),
        n <= v.elements[j].len(),
    ensures
        tree_transitions(combined(v.elements[j], c, n)) == 0,
    decreases n,
{
    reveal_with_fuel(tree_transitions, 4);
    if n > 0 {
        lemma_combined_transitions(v, c, j, (n - 1) as nat);
        lemma_no_transitions(v.elements[j][n - 1]);
    }
}

proof fn lemma_products_transitions(v: LookupView, c: int, n: nat)
    requires
        lookup_reads_cells(v),
        n <= v.elements.len(),
    ensures
        tree_transitions(below(v, c, n)) == 0,
        tree_transitions(above(v, c, (v.elements.len() - n) as nat)) == 0,
    decreases n,
{
    reveal_with_fuel(tree_transitions, 4);
    if n > 0 {
        lemma_products_transitions(v, c, (n - 1) as nat);
        lemma_combined_transitions(v, c, n - 1, v.elements[n - 1].len());
        let j = v.elements.len() - n;
        lemma_combined_transitions(v, c, j, v.elements[j].len());
    }
}

proof fn lemma_numerator_transitions(v: LookupView, c: int, n: nat)
    requires
        lookup_reads_cells(v),
        lookup_shaped(v),
        n <= v.elements.len(),
    ensures
        tree_transitions(numerator(v, c, n)) == 0,
    decreases n,
{
    reveal_with_fuel(tree_transitions, 5);
    if n > 0 {
        lemma_numerator_transitions(v, c, (n - 1) as nat);
        lemma_products_transitions(v, c, (n - 1) as nat);
        lemma_products_transitions(v, c, (v.elements.len() - n) as nat);
        lemma_no_transitions(v.multiplicities[n - 1]);
    }
}

proof fn lemma_sum_transitions(n: nat)
    ensures
        tree_transitions(fraction_sum(n)) == 0,
    decreases n,
{
    reveal_with_fuel(tree_transitions, 3);
    if n > 0 {
        lemma_sum_transitions((n - 1) as nat);
    }
}

/// The constraints of lookups that read no selector multiply by the transition selector at most once.
#[verifier::rlimit(30)]
pub proof fn law_lookup_transitions(s: SystemView, i: int)
    requires
        system_shaped(s),
        forall|k: int| 0 <= k < s.lookups.len() ==> lookup_reads_cells(#[trigger] s.lookups[k]),
        0 <= i < lookup_constraints(s.lookups).len(),
    ensures
        tree_transitions(lookup_constraints(s.lookups)[i]) <= 1,
{
    let n = s.lookups.len();
    reveal_with_fuel(tree_transitions, 6);
    if i < n {
        let v = s.lookups[i];
        assert(lookup_reads_cells(s.lookups[i]));
        assert(lookup_shaped(s.lookups[i]));
        lemma_products_transitions(v, i, v.elements.len());
        lemma_numerator_transitions(v, i, v.elements.len());
        assert(lookup_constraints(s.lookups)[i] == fraction_constraint(v, i));
    } else {
        lemma_sum_transitions(n);
        assert(lookup_constraints(s.lookups)[i] == accumulator_constraints(n)[i - n]);
    }
}

/// A system with a lookup has degree two at least.
pub proof fn law_lookup_degree(s: SystemView)
    requires
        s.lookups.len() >= 1,
    ensures
        system_degree(s) >= 2,
{
    let trees = lookup_constraints(s.lookups);
    let n = s.lookups.len();
    assert(trees[n as int] == accumulator_constraints(n)[0]);
    reveal_with_fuel(ext_degree, 3);
    lemma_trees_degree(trees, n as int, trees.len());
}

/// The number of quotient chunks is the least power of two that is not below the degree, with one more where the proof hides,
/// less one; a system of degree one or none has one chunk.
pub proof fn law_least_chunks(degree: nat, is_zk: nat)
    requires
        is_zk <= 1,
    ensures
        ({
            let l = log_quotient_chunks(degree, is_zk);
            &&& degree + is_zk <= pow2(l) + 1
            &&& l > 0 ==> pow2((l - 1) as nat) + 1 < degree + is_zk
            &&& degree + is_zk <= 2 ==> l == 0
        }),
{
    let d = degree + is_zk;
    let c = if d < 2 {
        1
    } else {
        (d - 1) as nat
    };
    crate::bits::lemma_next_pow2(c);
}

} // verus!
