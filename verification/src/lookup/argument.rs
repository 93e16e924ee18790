//! What the constraints of the lookups say of the aux columns: those that belong to a trace satisfy them on every row,
//! and none but those do.

use std::sync::Arc;
use vstd::prelude::*;

use crate::expr::{value, within, Expr, Window, Wire};
use crate::field::{x_add, x_base, x_inv, x_mul, x_one, x_red, x_same, x_sub, x_zero, Ext};
use crate::lookup::air::{
    above, accumulator_constraints, below, combined, denominator, e_base, e_challenge, e_const, e_cur, e_minus, e_nxt,
    e_plus, e_times, e_value, fraction_constraint, fraction_sum, lookup_constraints, lookup_shaped, numerator,
    system_shaped, ExtWire, LookupView, SystemView,
};
use crate::lookup::columns::{
    aux_combined, aux_defined, aux_denominator, aux_fraction, aux_inverts, aux_sum, aux_total, aux_window, is_aux,
    lookup_resolves,
};
use crate::lookup::quotient::{batched, folded_trees, lifted};
use crate::prime::law_extension_is_a_field;
use crate::ring::{
    lemma_base, lemma_cancels, lemma_difference, lemma_distributes, lemma_no_zero_divisors, lemma_products,
    lemma_reduced, lemma_sums, lemma_undo,
};
use crate::stark::verify::folded_constraints;
use crate::symbolic::{native_ext_value, native_value, NativeLookupView, NativeView};

verus! {

/// One as a selector.
pub open spec fn flag(b: bool) -> Ext {
    if b {
        x_one()
    } else {
        x_zero()
    }
}

/// The cells of the periodic columns on row `r` of a trace.
pub open spec fn periodic_cells(s: SystemView, r: int) -> Seq<u64> {
    Seq::new(s.periodic.len(), |c: int| s.periodic[c][r % (s.periodic[c].len() as int)])
}

/// What the constraints read on row `r` of a trace: the row pair around the end, the public values, the periodic columns
/// and the selectors of the row.
pub open spec fn trace_openings(s: SystemView, main: Seq<Seq<u64>>, pis: Seq<u64>, r: int) -> NativeView {
    let n = main.len() as int;
    NativeView {
        local: lifted(main[r]),
        next: lifted(main[(r + 1) % n]),
        pubs: lifted(pis),
        periodic: lifted(periodic_cells(s, r)),
        is_first: flag(r == 0),
        is_last: flag(r == n - 1),
        is_trans: flag(r != n - 1),
    }
}

/// What the lookup trees read besides on row `r`.
pub open spec fn trace_lookup(aux: Seq<Vec<Ext>>, challenges: Seq<Ext>, terminal: Ext, r: int) -> NativeLookupView {
    let n = aux.len() as int;
    NativeLookupView {
        perm_local: aux[r]@,
        perm_next: aux[(r + 1) % n]@,
        challenges,
        perm_values: seq![terminal],
    }
}

/// Openings on which the expressions of a lookup have the values that they have at a window.
pub open spec fn lookup_agrees(v: LookupView, w: Window, o: NativeView) -> bool {
    &&& forall|j: int|
        0 <= j < v.multiplicities.len() ==> native_value(#[trigger] v.multiplicities[j], o) == x_base(
            value(v.multiplicities[j], w),
        )
    &&& forall|j: int, i: int|
        0 <= j < v.elements.len() && 0 <= i < v.elements[j].len() ==> native_value(#[trigger] v.elements[j][i], o) == x_base(
            value(v.elements[j][i], w),
        )
}

/// An expression on lifted values is its lifted value.
#[verifier::rlimit(30)]
proof fn lemma_lifts(e: Wire, w: Window, o: NativeView, width: int, pubs: int)
    requires
        within(e, width, 0, pubs),
        width <= w.cur.len(),
        width <= w.nxt.len(),
        pubs <= w.publics.len(),
        o.local == lifted(w.cur),
        o.next == lifted(w.nxt),
        o.pubs == lifted(w.publics),
        o.is_first == x_base(w.is_first),
        o.is_last == x_base(w.is_last),
        o.is_trans == x_base(w.is_transition),
    ensures
        native_value(e, o) == x_base(value(e, w)),
    decreases e,
{
    match *e {
        Expr::Cur(i) => {
            lemma_base(w.cur[i as int], 0);
        },
        Expr::Nxt(i) => {
            lemma_base(w.nxt[i as int], 0);
        },
        Expr::Public(i) => {
            lemma_base(w.publics[i as int], 0);
        },
        Expr::Periodic(_) => {},
        Expr::IsFirstRow => {
            lemma_base(w.is_first, 0);
        },
        Expr::IsLastRow => {
            lemma_base(w.is_last, 0);
        },
        Expr::IsTransition => {
            lemma_base(w.is_transition, 0);
        },
        Expr::Const(c) => {
            lemma_base(c, 0);
        },
        Expr::Sum(a, b) => {
            lemma_lifts(a, w, o, width, pubs);
            lemma_lifts(b, w, o, width, pubs);
            lemma_base(value(a, w), value(b, w));
        },
        Expr::Difference(a, b) => {
            lemma_lifts(a, w, o, width, pubs);
            lemma_lifts(b, w, o, width, pubs);
            lemma_base(value(a, w), value(b, w));
        },
        Expr::Negation(a) => {
            lemma_lifts(a, w, o, width, pubs);
            lemma_base(0, value(a, w));
        },
        Expr::Product(a, b) => {
            lemma_lifts(a, w, o, width, pubs);
            lemma_lifts(b, w, o, width, pubs);
            lemma_base(value(a, w), value(b, w));
        },
    }
}

/// The lookups of a trace read the same on the openings of a row as at its window.
#[verifier::rlimit(30)]
pub proof fn law_trace_openings_agree(s: SystemView, main: Seq<Seq<u64>>, pis: Seq<u64>, r: int, k: int)
    requires
        0 <= r < main.len(),
        forall|i: int| 0 <= i < main.len() ==> (#[trigger] main[i]).len() == s.width,
        0 <= k < s.lookups.len(),
        lookup_resolves(s.lookups[k], s.width as int, pis.len() as int),
    ensures
        lookup_agrees(s.lookups[k], aux_window(main, pis, r), trace_openings(s, main, pis, r)),
{
    let (v, w, o) = (s.lookups[k], aux_window(main, pis, r), trace_openings(s, main, pis, r));
    let n = main.len() as int;
    vstd::arithmetic::div_mod::lemma_mod_bound(r + 1, n);
    assert(main[r].len() == s.width && main[(r + 1) % n].len() == s.width);
    lemma_base(0, 1);
    assert forall|j: int| 0 <= j < v.multiplicities.len() implies native_value(#[trigger] v.multiplicities[j], o)
        == x_base(value(v.multiplicities[j], w)) by {
        lemma_lifts(v.multiplicities[j], w, o, s.width as int, pis.len() as int);
    }
    assert forall|j: int, i: int| 0 <= j < v.elements.len() && 0 <= i < v.elements[j].len() implies native_value(
        #[trigger] v.elements[j][i],
        o,
    ) == x_base(value(v.elements[j][i], w)) by {
        lemma_lifts(v.elements[j][i], w, o, s.width as int, pis.len() as int);
    }
}

/// A combined tuple.
#[verifier::rlimit(30)]
proof fn lemma_combined_value(v: LookupView, c: int, j: int, w: Window, o: NativeView, l: NativeLookupView, n: nat)
    requires
        lookup_agrees(v, w, o),
        0 <= j < v.elements.len(),
        n <= v.elements[j].len(),
        0 <= c,
        2 * c + 1 <= usize::MAX,
    ensures
        native_ext_value(combined(v.elements[j], c, n), o, l) == aux_combined(
            v.elements[j],
            l.challenges[2 * c + 1],
            w,
            n,
        ),
    decreases n,
{
    let t = v.elements[j];
    let beta = l.challenges[2 * c + 1];
    if n == 0 {
        lemma_reduced(x_zero(), x_zero());
    } else {
        let m = (n - 1) as nat;
        lemma_combined_value(v, c, j, w, o, l, m);
        assert(native_value(v.elements[j][n - 1], o) == x_base(value(t[n - 1], w)));
        let before = combined(t, c, m);
        lemma_products(native_ext_value(before, o, l), beta, beta);
        assert(combined(t, c, n) == e_plus(e_base(t[n - 1]), e_times(before, e_challenge(2 * c + 1))));
        assert(native_ext_value(e_challenge(2 * c + 1), o, l) == x_red(beta));
        assert(native_ext_value(e_times(before, e_challenge(2 * c + 1)), o, l) == x_mul(
            native_ext_value(before, o, l),
            x_red(beta),
        ));
        assert(native_ext_value(e_base(t[n - 1]), o, l) == native_value(t[n - 1], o));
    }
}

/// A denominator.
proof fn lemma_denominator_value(v: LookupView, c: int, j: int, w: Window, o: NativeView, l: NativeLookupView)
    requires
        lookup_agrees(v, w, o),
        0 <= j < v.elements.len(),
        0 <= c,
        2 * c + 1 <= usize::MAX,
    ensures
        native_ext_value(denominator(v, c, j), o, l) == aux_denominator(v, w, l.challenges, c, j),
{
    let t = v.elements[j];
    lemma_combined_value(v, c, j, w, o, l, t.len());
    lemma_reduced(l.challenges[2 * c], native_ext_value(combined(t, c, t.len()), o, l));
    assert(native_ext_value(e_challenge(2 * c), o, l) == x_red(l.challenges[2 * c]));
}

/// ((b d) (f + i m)) a = (b f) (a d) + (m b) a, where d i is one or m is zero.
#[verifier::rlimit(30)]
proof fn lemma_one_more(b: Ext, d: Ext, f: Ext, i: Ext, m: Ext, a: Ext)
    requires
        x_mul(d, i) == x_one() || x_red(m) == x_zero(),
    ensures
        x_mul(x_mul(x_mul(b, d), x_add(f, x_mul(i, m))), a) == x_add(
            x_mul(x_mul(b, f), x_mul(a, d)),
            x_mul(x_mul(m, b), a),
        ),
{
    let u = x_mul(b, d);
    let im = x_mul(i, m);
    lemma_distributes(u, f, im);
    lemma_distributes(a, x_mul(u, f), x_mul(u, im));
    assert(x_mul(x_mul(u, f), a) == x_mul(x_mul(b, f), x_mul(a, d))) by {
        lemma_products(b, d, f);
        lemma_products(x_mul(b, f), d, a);
        lemma_products(d, a, a);
    }
    assert(x_mul(u, im) == x_mul(m, b)) by {
        if x_mul(d, i) == x_one() {
            lemma_products(u, i, m);
            lemma_products(b, d, i);
            lemma_products(b, m, m);
            lemma_products(x_one(), b, m);
        } else {
            lemma_products(i, m, m);
            lemma_products(i, x_zero(), m);
            lemma_products(u, x_zero(), m);
            lemma_products(m, b, b);
            lemma_products(x_zero(), b, b);
        }
    }
}

/// A tuple that counts has a denominator that can be inverted.
pub open spec fn counts_invert(v: LookupView, w: Window, challenges: Seq<Ext>, c: int) -> bool {
    forall|j: int|
        0 <= j < v.elements.len() && value(#[trigger] v.multiplicities[j], w) != 0 ==> !x_same(
            aux_denominator(v, w, challenges, c, j),
            x_zero(),
        )
}

/// The product of the denominators before a tuple, times the fraction of the tuples before it, times the product of the
/// denominators from it on is the numerator of the tuples before it.
#[verifier::spinoff_prover]
#[verifier::rlimit(40)]
proof fn lemma_fraction_cleared(v: LookupView, c: int, w: Window, o: NativeView, l: NativeLookupView, n: nat)
    requires
        lookup_shaped(v),
        lookup_agrees(v, w, o),
        counts_invert(v, w, l.challenges, c),
        n <= v.elements.len(),
        0 <= c,
        2 * c + 1 <= usize::MAX,
    ensures
        x_mul(
            x_mul(native_ext_value(below(v, c, n), o, l), aux_fraction(v, w, l.challenges, c, n)),
            native_ext_value(above(v, c, n), o, l),
        ) == native_ext_value(numerator(v, c, n), o, l),
    decreases n,
{
    if n == 0 {
        let (b, a) = (native_ext_value(below(v, c, 0), o, l), native_ext_value(above(v, c, 0), o, l));
        lemma_products(b, x_zero(), a);
        lemma_products(x_zero(), a, a);
        lemma_products(b, b, b);
        lemma_reduced(x_zero(), x_zero());
        assert(numerator(v, c, 0) == e_const(x_zero()));
    } else {
        let j = n - 1;
        let k = j as nat;
        lemma_fraction_cleared(v, c, w, o, l, k);
        lemma_denominator_value(v, c, j, w, o, l);
        let d = aux_denominator(v, w, l.challenges, c, j);
        let m = x_base(value(v.multiplicities[j], w));
        let i = x_inv(d);
        let (b, a) = (native_ext_value(below(v, c, k), o, l), native_ext_value(above(v, c, n), o, l));
        let f = aux_fraction(v, w, l.challenges, c, k);
        assert(native_value(v.multiplicities[j], o) == m);
        crate::expr::lemma_value_canonical(v.multiplicities[j], w);
        lemma_base(value(v.multiplicities[j], w), 0);
        lemma_reduced(d, x_zero());
        if value(v.multiplicities[j], w) != 0 {
            assert(!x_same(d, x_zero()));
            law_extension_is_a_field(d);
        }
        lemma_one_more(b, d, f, i, m, a);
        assert(below(v, c, n) == e_times(below(v, c, k), denominator(v, c, j)));
        assert(above(v, c, k) == e_times(above(v, c, n), denominator(v, c, j)));
        let term = e_times(e_times(e_base(v.multiplicities[j]), below(v, c, k)), above(v, c, n));
        assert(numerator(v, c, n) == e_plus(numerator(v, c, k), term));
        assert(native_ext_value(term, o, l) == x_mul(x_mul(m, b), a)) by {
            assert(native_ext_value(e_base(v.multiplicities[j]), o, l) == m);
            assert(native_ext_value(e_times(e_base(v.multiplicities[j]), below(v, c, k)), o, l) == x_mul(m, b));
        }
        assert(native_ext_value(below(v, c, n), o, l) == x_mul(b, d));
        assert(native_ext_value(above(v, c, k), o, l) == x_mul(a, d));
    }
}

/// The fraction constraint says that the product of the denominators times the fraction column is that times the
/// fraction.
#[verifier::rlimit(30)]
proof fn lemma_fraction_constraint(v: LookupView, c: int, w: Window, o: NativeView, l: NativeLookupView)
    requires
        lookup_shaped(v),
        lookup_agrees(v, w, o),
        counts_invert(v, w, l.challenges, c),
        0 <= c,
        2 * c + 1 <= usize::MAX,
    ensures
        ({
            let b = native_ext_value(below(v, c, v.elements.len()), o, l);
            native_ext_value(fraction_constraint(v, c), o, l) == x_sub(
                x_mul(b, l.perm_local[c + 1]),
                x_mul(b, aux_fraction(v, w, l.challenges, c, v.elements.len())),
            )
        }),
{
    let n = v.elements.len();
    let b = native_ext_value(below(v, c, n), o, l);
    let f = aux_fraction(v, w, l.challenges, c, n);
    lemma_fraction_cleared(v, c, w, o, l, n);
    lemma_reduced(x_one(), x_one());
    assert(above(v, c, n) == e_const(x_one()));
    lemma_products(x_mul(b, f), x_one(), f);
    lemma_products(b, f, f);
    lemma_products(b, l.perm_local[c + 1], f);
    let left = e_times(below(v, c, n), e_cur(c + 1));
    assert(fraction_constraint(v, c) == e_minus(left, numerator(v, c, n)));
    assert(native_ext_value(e_cur(c + 1), o, l) == x_red(l.perm_local[c + 1]));
    assert(native_ext_value(left, o, l) == x_mul(b, x_red(l.perm_local[c + 1])));
}

/// The sum of the first `n` fraction cells of an aux row.
pub open spec fn cells_total(row: Seq<Ext>, n: nat) -> Ext
    decreases n,
{
    if n == 0 {
        x_zero()
    } else {
        x_add(cells_total(row, (n - 1) as nat), row[n as int])
    }
}

proof fn lemma_fraction_sum_value(o: NativeView, l: NativeLookupView, n: nat)
    requires
        n <= usize::MAX,
    ensures
        native_ext_value(fraction_sum(n), o, l) == cells_total(l.perm_local, n),
    decreases n,
{
    lemma_reduced(x_zero(), x_zero());
    if n > 0 {
        let m = (n - 1) as nat;
        lemma_fraction_sum_value(o, l, m);
        assert(fraction_sum(n) == e_plus(fraction_sum(m), e_cur(n as int)));
        assert(native_ext_value(e_cur(n as int), o, l) == x_red(l.perm_local[n as int]));
        lemma_reduced(cells_total(l.perm_local, m), l.perm_local[n as int]);
    }
}

/// The accumulator's constraints on openings.
#[verifier::spinoff_prover]
#[verifier::rlimit(30)]
proof fn lemma_accumulator_value(o: NativeView, l: NativeLookupView, n: nat)
    requires
        n <= usize::MAX,
    ensures
        ({
            let acc = l.perm_local[0];
            let f = cells_total(l.perm_local, n);
            let cs = accumulator_constraints(n);
            &&& native_ext_value(cs[0], o, l) == x_mul(o.is_first, acc)
            &&& native_ext_value(cs[1], o, l) == x_mul(o.is_trans, x_sub(x_sub(l.perm_next[0], acc), f))
            &&& native_ext_value(cs[2], o, l) == x_mul(o.is_last, x_sub(x_sub(l.perm_values[0], acc), f))
        }),
{
    let cs = accumulator_constraints(n);
    let (acc, nxt, end) = (l.perm_local[0], l.perm_next[0], l.perm_values[0]);
    let f = cells_total(l.perm_local, n);
    let (first, trans, last): (Wire, Wire, Wire) = (
        Arc::new(Expr::IsFirstRow),
        Arc::new(Expr::IsTransition),
        Arc::new(Expr::IsLastRow),
    );
    let s = fraction_sum(n);
    lemma_fraction_sum_value(o, l, n);
    lemma_reduced(acc, x_zero());
    lemma_reduced(nxt, acc);
    lemma_reduced(x_red(nxt), acc);
    lemma_reduced(end, acc);
    lemma_reduced(x_red(end), acc);
    let (up, rest) = (e_minus(e_nxt(0), e_cur(0)), e_minus(e_value(0), e_cur(0)));
    assert(native_ext_value(e_cur(0), o, l) == x_red(acc));
    assert(native_ext_value(e_nxt(0), o, l) == x_red(nxt));
    assert(native_ext_value(e_value(0), o, l) == x_red(end));
    assert(native_ext_value(up, o, l) == x_sub(nxt, acc));
    assert(native_ext_value(rest, o, l) == x_sub(end, acc));
    assert(native_ext_value(e_minus(up, s), o, l) == x_sub(x_sub(nxt, acc), f));
    assert(native_ext_value(e_minus(rest, s), o, l) == x_sub(x_sub(end, acc), f));
    assert(native_value(first, o) == x_red(o.is_first));
    assert(native_value(trans, o) == x_red(o.is_trans));
    assert(native_value(last, o) == x_red(o.is_last));
    assert(native_ext_value(e_base(first), o, l) == x_red(o.is_first));
    assert(native_ext_value(e_base(trans), o, l) == x_red(o.is_trans));
    assert(native_ext_value(e_base(last), o, l) == x_red(o.is_last));
    assert(cs[0] == e_times(e_base(first), e_cur(0)));
    assert(cs[1] == e_times(e_base(trans), e_minus(up, s)));
    assert(cs[2] == e_times(e_base(last), e_minus(rest, s)));
    lemma_products(o.is_first, acc, acc);
    lemma_products(x_red(o.is_first), acc, acc);
    lemma_products(o.is_trans, x_sub(x_sub(nxt, acc), f), acc);
    lemma_products(o.is_last, x_sub(x_sub(end, acc), f), acc);
}

/// Openings of row `r` of a trace: the lookups read on them what they read at the row, and the selectors are zero where
/// they do not select.
pub open spec fn opens_row(ls: Seq<LookupView>, main: Seq<Seq<u64>>, pis: Seq<u64>, r: int, o: NativeView) -> bool {
    &&& forall|k: int| 0 <= k < ls.len() ==> lookup_agrees(#[trigger] ls[k], aux_window(main, pis, r), o)
    &&& r != 0 ==> x_red(o.is_first) == x_zero()
    &&& r != main.len() - 1 ==> x_red(o.is_last) == x_zero()
    &&& r == main.len() - 1 ==> x_red(o.is_trans) == x_zero()
}

/// The fraction cells of an aux row add up to the fractions of its row.
proof fn lemma_cells_total(
    ls: Seq<LookupView>,
    main: Seq<Seq<u64>>,
    pis: Seq<u64>,
    challenges: Seq<Ext>,
    aux: Seq<Vec<Ext>>,
    r: int,
    n: nat,
)
    requires
        0 <= r < main.len(),
        n <= ls.len(),
        forall|k: int|
            0 <= k < ls.len() ==> #[trigger] aux[r]@[k + 1] == aux_fraction(
                ls[k],
                aux_window(main, pis, r),
                challenges,
                k,
                ls[k].elements.len(),
            ),
    ensures
        cells_total(aux[r]@, n) == aux_total(ls, aux_window(main, pis, r), challenges, n),
    decreases n,
{
    if n > 0 {
        lemma_cells_total(ls, main, pis, challenges, aux, r, (n - 1) as nat);
        let k = n - 1;
        assert(aux[r]@[k + 1] == aux[r]@[n as int]);
    }
}

/// A gated value that is zero on the gated rows is zero on all.
proof fn lemma_gate(on: Ext, x: Ext)
    requires
        x_red(on) == x_zero() || x == x_zero(),
    ensures
        x_mul(on, x) == x_zero(),
{
    lemma_products(on, x, x);
    lemma_products(x_zero(), x, x);
    lemma_products(on, x_zero(), x);
}

/// ((acc + f) - acc) - f = 0.
proof fn lemma_step(acc: Ext, f: Ext)
    ensures
        x_sub(x_sub(x_add(acc, f), acc), f) == x_zero(),
{
    lemma_sums(acc, f, f);
    lemma_undo(f, acc, f);
    lemma_reduced(f, f);
}

/// The aux columns of a trace satisfy every constraint of the lookups on every row.
#[verifier::spinoff_prover]
#[verifier::rlimit(40)]
pub proof fn law_aux_satisfies(
    s: SystemView,
    main: Seq<Seq<u64>>,
    pis: Seq<u64>,
    challenges: Seq<Ext>,
    aux: Seq<Vec<Ext>>,
    terminal: Ext,
    o: NativeView,
    r: int,
    i: int,
)
    requires
        system_shaped(s),
        aux_defined(s, main, pis, challenges),
        is_aux(s.lookups, main, pis, challenges, aux, terminal),
        0 <= r < main.len(),
        opens_row(s.lookups, main, pis, r, o),
        0 <= i < lookup_constraints(s.lookups).len(),
    ensures
        native_ext_value(lookup_constraints(s.lookups)[i], o, trace_lookup(aux, challenges, terminal, r)) == x_zero(),
{
    let ls = s.lookups;
    let n = ls.len();
    let h = main.len() as int;
    let w = aux_window(main, pis, r);
    let l = trace_lookup(aux, challenges, terminal, r);
    assert(aux_inverts(ls, aux_window(main, pis, r), challenges));
    if i < n {
        let v = ls[i];
        assert(lookup_shaped(ls[i]));
        assert(lookup_agrees(ls[i], w, o));
        assert(counts_invert(v, w, challenges, i)) by {
            assert forall|j: int| 0 <= j < v.elements.len() && value(#[trigger] v.multiplicities[j], w) != 0 implies !x_same(
                aux_denominator(v, w, challenges, i, j),
                x_zero(),
            ) by {
                assert(value(ls[i].multiplicities[j], w) != 0);
            }
        }
        lemma_fraction_constraint(v, i, w, o, l);
        assert(aux[r]@[i + 1] == aux_fraction(v, w, challenges, i, v.elements.len()));
        let b = native_ext_value(below(v, i, v.elements.len()), o, l);
        lemma_undo(x_mul(b, aux[r]@[i + 1]), x_zero(), x_zero());
        assert(lookup_constraints(ls)[i] == fraction_constraint(ls[i], i));
    } else {
        let (acc, f) = (aux[r]@[0], cells_total(aux[r]@, n));
        lemma_cells_total(ls, main, pis, challenges, aux, r, n);
        lemma_accumulator_value(o, l, n);
        assert(lookup_constraints(ls)[i] == accumulator_constraints(n)[i - n]);
        assert(acc == aux_sum(ls, main, pis, challenges, r as nat));
        assert(aux_sum(ls, main, pis, challenges, (r + 1) as nat) == x_add(acc, f)) by {
            assert(((r + 1) as nat - 1) as nat == r as nat);
        }
        lemma_step(acc, f);
        if i == n {
            lemma_gate(o.is_first, acc);
        } else if i == n + 1 {
            if r != h - 1 {
                vstd::arithmetic::div_mod::lemma_small_mod((r + 1) as nat, h as nat);
                assert(aux[r + 1]@[0] == aux_sum(ls, main, pis, challenges, (r + 1) as nat));
            }
            lemma_gate(o.is_trans, x_sub(x_sub(l.perm_next[0], acc), f));
        } else {
            lemma_gate(o.is_last, x_sub(x_sub(l.perm_values[0], acc), f));
        }
    }
}

/// The openings of a row of a trace open it.
pub proof fn law_trace_openings_open(s: SystemView, main: Seq<Seq<u64>>, pis: Seq<u64>, r: int)
    requires
        0 <= r < main.len(),
        forall|i: int| 0 <= i < main.len() ==> (#[trigger] main[i]).len() == s.width,
        forall|k: int|
            0 <= k < s.lookups.len() ==> lookup_resolves(#[trigger] s.lookups[k], s.width as int, pis.len() as int),
    ensures
        opens_row(s.lookups, main, pis, r, trace_openings(s, main, pis, r)),
{
    lemma_reduced(x_zero(), x_zero());
    assert forall|k: int| 0 <= k < s.lookups.len() implies lookup_agrees(
        #[trigger] s.lookups[k],
        aux_window(main, pis, r),
        trace_openings(s, main, pis, r),
    ) by {
        law_trace_openings_agree(s, main, pis, r, k);
    }
}

/// The fold of constraints that vanish is zero.
proof fn lemma_fold_zero(constraints: Seq<Wire>, o: NativeView, alpha: Ext, n: nat)
    requires
        n <= constraints.len(),
        forall|i: int| 0 <= i < constraints.len() ==> native_value(#[trigger] constraints[i], o) == x_zero(),
    ensures
        folded_constraints(constraints, o, alpha, n) == x_zero(),
    decreases n,
{
    if n > 0 {
        lemma_fold_zero(constraints, o, alpha, (n - 1) as nat);
        assert(native_value(constraints[n - 1], o) == x_zero());
        lemma_products(alpha, alpha, alpha);
        lemma_undo(x_zero(), x_zero(), x_zero());
        lemma_reduced(x_zero(), x_zero());
    }
}

/// The same over lookup trees.
proof fn lemma_trees_zero(trees: Seq<ExtWire>, o: NativeView, l: NativeLookupView, alpha: Ext, n: nat)
    requires
        n <= trees.len(),
        forall|i: int| 0 <= i < trees.len() ==> native_ext_value(#[trigger] trees[i], o, l) == x_zero(),
    ensures
        folded_trees(trees, o, l, alpha, x_zero(), n) == x_zero(),
    decreases n,
{
    if n > 0 {
        lemma_trees_zero(trees, o, l, alpha, (n - 1) as nat);
        assert(native_ext_value(trees[n - 1], o, l) == x_zero());
        lemma_products(alpha, alpha, alpha);
        lemma_undo(x_zero(), x_zero(), x_zero());
        lemma_reduced(x_zero(), x_zero());
    }
}

/// The batched constraints of a system vanish on every row of a trace with its aux columns, where the system's own
/// constraints vanish.
pub proof fn law_batched_vanishes(
    s: SystemView,
    main: Seq<Seq<u64>>,
    pis: Seq<u64>,
    challenges: Seq<Ext>,
    aux: Seq<Vec<Ext>>,
    terminal: Ext,
    o: NativeView,
    alpha: Ext,
    r: int,
)
    requires
        system_shaped(s),
        aux_defined(s, main, pis, challenges),
        is_aux(s.lookups, main, pis, challenges, aux, terminal),
        0 <= r < main.len(),
        opens_row(s.lookups, main, pis, r, o),
        forall|i: int| 0 <= i < s.constraints.len() ==> native_value(#[trigger] s.constraints[i], o) == x_zero(),
    ensures
        batched(s, o, trace_lookup(aux, challenges, terminal, r), alpha) == x_zero(),
{
    let trees = lookup_constraints(s.lookups);
    let l = trace_lookup(aux, challenges, terminal, r);
    assert forall|i: int| 0 <= i < trees.len() implies native_ext_value(#[trigger] trees[i], o, l) == x_zero() by {
        law_aux_satisfies(s, main, pis, challenges, aux, terminal, o, r, i);
    }
    lemma_fold_zero(s.constraints, o, alpha, s.constraints.len());
    lemma_trees_zero(trees, o, l, alpha, trees.len());
}

/// On every row of a trace with its aux columns the batched constraints of a system vanish, where the system's own
/// constraints do.
pub proof fn law_constraints_vanish_on_trace(
    s: SystemView,
    main: Seq<Seq<u64>>,
    pis: Seq<u64>,
    challenges: Seq<Ext>,
    aux: Seq<Vec<Ext>>,
    terminal: Ext,
    alpha: Ext,
    r: int,
)
    requires
        system_shaped(s),
        forall|i: int| 0 <= i < main.len() ==> (#[trigger] main[i]).len() == s.width,
        forall|k: int|
            0 <= k < s.lookups.len() ==> lookup_resolves(#[trigger] s.lookups[k], s.width as int, pis.len() as int),
        aux_defined(s, main, pis, challenges),
        is_aux(s.lookups, main, pis, challenges, aux, terminal),
        0 <= r < main.len(),
        forall|i: int|
            0 <= i < s.constraints.len() ==> native_value(#[trigger] s.constraints[i], trace_openings(s, main, pis, r))
                == x_zero(),
    ensures
        forall|i: int|
            0 <= i < lookup_constraints(s.lookups).len() ==> native_ext_value(
                #[trigger] lookup_constraints(s.lookups)[i],
                trace_openings(s, main, pis, r),
                trace_lookup(aux, challenges, terminal, r),
            ) == x_zero(),
        batched(s, trace_openings(s, main, pis, r), trace_lookup(aux, challenges, terminal, r), alpha) == x_zero(),
{
    let o = trace_openings(s, main, pis, r);
    law_trace_openings_open(s, main, pis, r);
    assert forall|i: int| 0 <= i < lookup_constraints(s.lookups).len() implies native_ext_value(
        #[trigger] lookup_constraints(s.lookups)[i],
        o,
        trace_lookup(aux, challenges, terminal, r),
    ) == x_zero() by {
        law_aux_satisfies(s, main, pis, challenges, aux, terminal, o, r, i);
    }
    law_batched_vanishes(s, main, pis, challenges, aux, terminal, o, alpha, r);
}

/// The sum of the fraction cells of the first `m` aux rows of `n` lookups.
pub open spec fn rows_total(aux: Seq<Vec<Ext>>, n: nat, m: nat) -> Ext
    decreases m,
{
    if m == 0 {
        x_zero()
    } else {
        x_add(rows_total(aux, n, (m - 1) as nat), cells_total(aux[m - 1]@, n))
    }
}

/// On every row the constraints of the accumulator of `n` lookups vanish.
pub open spec fn accumulates(
    s: SystemView,
    main: Seq<Seq<u64>>,
    pis: Seq<u64>,
    challenges: Seq<Ext>,
    aux: Seq<Vec<Ext>>,
    terminal: Ext,
    n: nat,
) -> bool {
    forall|r: int, k: int|
        0 <= r < aux.len() && 0 <= k < 3 ==> native_ext_value(
            #[trigger] accumulator_constraints(n)[k],
            #[trigger] trace_openings(s, main, pis, r),
            trace_lookup(aux, challenges, terminal, r),
        ) == x_zero()
}

/// (a - b) - f = 0 says a = b + f.
proof fn lemma_stepped(a: Ext, b: Ext, f: Ext)
    requires
        x_sub(x_sub(a, b), f) == x_zero(),
    ensures
        x_red(a) == x_add(b, f),
{
    lemma_difference(x_sub(a, b), f);
    lemma_reduced(a, b);
    lemma_undo(a, b, b);
    lemma_reduced(f, b);
    lemma_sums(f, b, b);
}

/// The accumulator leaves no choice: where its constraints vanish on every row, each aux row starts with the fractions of
/// the rows before it, and the terminal is the sum of all fractions.
#[verifier::spinoff_prover]
#[verifier::rlimit(40)]
pub proof fn law_accumulator_is_forced(
    s: SystemView,
    main: Seq<Seq<u64>>,
    pis: Seq<u64>,
    challenges: Seq<Ext>,
    aux: Seq<Vec<Ext>>,
    terminal: Ext,
    n: nat,
    r: int,
)
    requires
        n <= usize::MAX,
        main.len() == aux.len(),
        accumulates(s, main, pis, challenges, aux, terminal, n),
        0 <= r < aux.len(),
    ensures
        x_red(aux[r]@[0]) == rows_total(aux, n, r as nat),
        x_red(terminal) == rows_total(aux, n, aux.len()),
    decreases aux.len() - r,
{
    let h = aux.len() as int;
    if r < h - 1 {
        law_accumulator_is_forced(s, main, pis, challenges, aux, terminal, n, r + 1);
        lemma_accumulated(s, main, pis, challenges, aux, terminal, n, r);
    } else {
        lemma_accumulated(s, main, pis, challenges, aux, terminal, n, h - 1);
        let (o, l) = (trace_openings(s, main, pis, h - 1), trace_lookup(aux, challenges, terminal, h - 1));
        lemma_accumulator_value(o, l, n);
        let (acc, f) = (aux[h - 1]@[0], cells_total(aux[h - 1]@, n));
        assert(native_ext_value(accumulator_constraints(n)[2], o, l) == x_zero());
        let d = x_sub(x_sub(terminal, acc), f);
        lemma_products(d, d, d);
        lemma_reduced(x_sub(terminal, acc), f);
        assert(d == x_zero());
        lemma_stepped(terminal, acc, f);
        lemma_reduced(acc, f);
        assert(((aux.len() - 1) as nat) as int == h - 1);
    }
}

/// The accumulator of a row.
#[verifier::spinoff_prover]
#[verifier::rlimit(40)]
proof fn lemma_accumulated(
    s: SystemView,
    main: Seq<Seq<u64>>,
    pis: Seq<u64>,
    challenges: Seq<Ext>,
    aux: Seq<Vec<Ext>>,
    terminal: Ext,
    n: nat,
    r: int,
)
    requires
        n <= usize::MAX,
        main.len() == aux.len(),
        accumulates(s, main, pis, challenges, aux, terminal, n),
        0 <= r < aux.len(),
    ensures
        x_red(aux[r]@[0]) == rows_total(aux, n, r as nat),
    decreases r,
{
    let h = aux.len() as int;
    if r == 0 {
        let (o, l) = (trace_openings(s, main, pis, 0), trace_lookup(aux, challenges, terminal, 0));
        lemma_accumulator_value(o, l, n);
        assert(native_ext_value(accumulator_constraints(n)[0], o, l) == x_zero());
        lemma_products(aux[0]@[0], aux[0]@[0], aux[0]@[0]);
    } else {
        let p = r - 1;
        lemma_accumulated(s, main, pis, challenges, aux, terminal, n, p);
        let (o, l) = (trace_openings(s, main, pis, p), trace_lookup(aux, challenges, terminal, p));
        lemma_accumulator_value(o, l, n);
        vstd::arithmetic::div_mod::lemma_small_mod((p + 1) as nat, h as nat);
        let (acc, f) = (aux[p]@[0], cells_total(aux[p]@, n));
        assert(native_ext_value(accumulator_constraints(n)[1], o, l) == x_zero());
        let d = x_sub(x_sub(aux[r]@[0], acc), f);
        lemma_products(d, d, d);
        lemma_reduced(x_sub(aux[r]@[0], acc), f);
        assert(d == x_zero());
        lemma_stepped(aux[r]@[0], acc, f);
        lemma_reduced(acc, f);
        assert(((r as nat) - 1) as nat == p as nat);
    }
}

/// All denominators of a trace can be inverted.
pub open spec fn all_invert(s: SystemView, main: Seq<Seq<u64>>, pis: Seq<u64>, challenges: Seq<Ext>) -> bool {
    forall|r: int, k: int, j: int|
        0 <= r < main.len() && 0 <= k < s.lookups.len() && 0 <= j < s.lookups[k].elements.len() ==> !x_same(
            #[trigger] aux_denominator(s.lookups[k], aux_window(main, pis, r), challenges, k, j),
            x_zero(),
        )
}

/// A product of denominators that can be inverted is not zero.
#[verifier::rlimit(30)]
proof fn lemma_below_nonzero(v: LookupView, c: int, w: Window, o: NativeView, l: NativeLookupView, n: nat)
    requires
        lookup_agrees(v, w, o),
        n <= v.elements.len(),
        0 <= c,
        2 * c + 1 <= usize::MAX,
        forall|j: int|
            0 <= j < v.elements.len() ==> !x_same(#[trigger] aux_denominator(v, w, l.challenges, c, j), x_zero()),
    ensures
        x_red(native_ext_value(below(v, c, n), o, l)) != x_zero(),
    decreases n,
{
    lemma_reduced(x_one(), x_zero());
    if n > 0 {
        let k = (n - 1) as nat;
        lemma_below_nonzero(v, c, w, o, l, k);
        lemma_denominator_value(v, c, n - 1, w, o, l);
        let (b, d) = (native_ext_value(below(v, c, k), o, l), aux_denominator(v, w, l.challenges, c, n - 1));
        assert(!x_same(d, x_zero()));
        lemma_products(b, d, d);
        if x_mul(b, d) == x_zero() {
            lemma_no_zero_divisors(b, d);
            lemma_reduced(d, x_zero());
        }
        assert(below(v, c, n) == e_times(below(v, c, k), denominator(v, c, n - 1)));
    }
}

/// The fraction constraint leaves no choice: where it vanishes on a row whose denominators can be inverted, the aux cell
/// is the fraction of the row.
pub proof fn law_fraction_is_forced(v: LookupView, c: int, w: Window, o: NativeView, l: NativeLookupView)
    requires
        lookup_shaped(v),
        lookup_agrees(v, w, o),
        0 <= c,
        2 * c + 1 <= usize::MAX,
        forall|j: int|
            0 <= j < v.elements.len() ==> !x_same(#[trigger] aux_denominator(v, w, l.challenges, c, j), x_zero()),
        native_ext_value(fraction_constraint(v, c), o, l) == x_zero(),
    ensures
        x_red(l.perm_local[c + 1]) == aux_fraction(v, w, l.challenges, c, v.elements.len()),
{
    let n = v.elements.len();
    let b = native_ext_value(below(v, c, n), o, l);
    let (x, f) = (l.perm_local[c + 1], aux_fraction(v, w, l.challenges, c, n));
    lemma_fraction_constraint(v, c, w, o, l);
    lemma_below_nonzero(v, c, w, o, l, n);
    lemma_products(b, x, x);
    lemma_products(b, f, f);
    lemma_difference(x_mul(b, x), x_mul(b, f));
    lemma_cancels(b, x, f);
    lemma_fraction_canonical(v, w, l.challenges, c, n);
}

proof fn lemma_fraction_canonical(v: LookupView, w: Window, challenges: Seq<Ext>, c: int, n: nat)
    ensures
        x_red(aux_fraction(v, w, challenges, c, n)) == aux_fraction(v, w, challenges, c, n),
{
    lemma_reduced(x_zero(), x_zero());
    if n > 0 {
        lemma_reduced(
            aux_fraction(v, w, challenges, c, (n - 1) as nat),
            x_mul(x_inv(aux_denominator(v, w, challenges, c, n - 1)), x_base(value(v.multiplicities[n - 1], w))),
        );
    }
}

/// No aux columns but those of a trace satisfy the lookups: where every constraint of the lookups vanishes on every row,
/// and all denominators can be inverted, the aux columns and the terminal are the trace's.
#[verifier::spinoff_prover]
#[verifier::rlimit(60)]
pub proof fn law_lookups_force_aux(
    s: SystemView,
    main: Seq<Seq<u64>>,
    pis: Seq<u64>,
    challenges: Seq<Ext>,
    aux: Seq<Vec<Ext>>,
    terminal: Ext,
)
    requires
        system_shaped(s),
        s.lookups.len() >= 1,
        main.len() >= 1,
        forall|i: int| 0 <= i < main.len() ==> (#[trigger] main[i]).len() == s.width,
        forall|k: int|
            0 <= k < s.lookups.len() ==> lookup_resolves(#[trigger] s.lookups[k], s.width as int, pis.len() as int),
        all_invert(s, main, pis, challenges),
        aux.len() == main.len(),
        forall|r: int| 0 <= r < aux.len() ==> (#[trigger] aux[r])@.len() == s.lookups.len() + 1,
        forall|r: int, c: int|
            0 <= r < aux.len() && 0 <= c <= s.lookups.len() ==> x_red(#[trigger] aux[r]@[c]) == aux[r]@[c],
        x_red(terminal) == terminal,
        forall|r: int, i: int|
            0 <= r < main.len() && 0 <= i < lookup_constraints(s.lookups).len() ==> native_ext_value(
                #[trigger] lookup_constraints(s.lookups)[i],
                #[trigger] trace_openings(s, main, pis, r),
                trace_lookup(aux, challenges, terminal, r),
            ) == x_zero(),
    ensures
        is_aux(s.lookups, main, pis, challenges, aux, terminal),
{
    let ls = s.lookups;
    let n = ls.len();
    assert forall|i: int, k: int| 0 <= i < main.len() && 0 <= k < n implies #[trigger] aux[i]@[k + 1] == aux_fraction(
        ls[k],
        aux_window(main, pis, i),
        challenges,
        k,
        ls[k].elements.len(),
    ) by {
        let (w, o) = (aux_window(main, pis, i), trace_openings(s, main, pis, i));
        let l = trace_lookup(aux, challenges, terminal, i);
        law_trace_openings_agree(s, main, pis, i, k);
        assert(lookup_constraints(ls)[k] == fraction_constraint(ls[k], k));
        assert(native_ext_value(lookup_constraints(ls)[k], o, l) == x_zero());
        law_fraction_is_forced(ls[k], k, w, o, l);
        assert(x_red(aux[i]@[k + 1]) == aux[i]@[k + 1]);
    }
    assert(accumulates(s, main, pis, challenges, aux, terminal, n)) by {
        assert forall|r: int, k: int| 0 <= r < aux.len() && 0 <= k < 3 implies native_ext_value(
            #[trigger] accumulator_constraints(n)[k],
            #[trigger] trace_openings(s, main, pis, r),
            trace_lookup(aux, challenges, terminal, r),
        ) == x_zero() by {
            assert(lookup_constraints(ls)[n + k] == accumulator_constraints(n)[k]);
        }
    }
    assert forall|i: int| 0 <= i < main.len() implies (#[trigger] aux[i])@[0] == aux_sum(
        ls,
        main,
        pis,
        challenges,
        i as nat,
    ) by {
        law_accumulator_is_forced(s, main, pis, challenges, aux, terminal, n, i);
        lemma_rows_total(ls, main, pis, challenges, aux, i as nat);
        assert(x_red(aux[i]@[0]) == aux[i]@[0]);
    }
    law_accumulator_is_forced(s, main, pis, challenges, aux, terminal, n, 0);
    lemma_rows_total(ls, main, pis, challenges, aux, main.len());
}

/// The fraction cells of the first rows add up to the fractions of those rows.
proof fn lemma_rows_total(
    ls: Seq<LookupView>,
    main: Seq<Seq<u64>>,
    pis: Seq<u64>,
    challenges: Seq<Ext>,
    aux: Seq<Vec<Ext>>,
    m: nat,
)
    requires
        m <= main.len(),
        forall|i: int, k: int|
            0 <= i < main.len() && 0 <= k < ls.len() ==> #[trigger] aux[i]@[k + 1] == aux_fraction(
                ls[k],
                aux_window(main, pis, i),
                challenges,
                k,
                ls[k].elements.len(),
            ),
    ensures
        rows_total(aux, ls.len(), m) == aux_sum(ls, main, pis, challenges, m),
    decreases m,
{
    if m > 0 {
        lemma_rows_total(ls, main, pis, challenges, aux, (m - 1) as nat);
        lemma_cells_total(ls, main, pis, challenges, aux, m - 1, ls.len());
    }
}

} // verus!
