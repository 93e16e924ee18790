//! When the looked-up values of a trace balance, its terminal is zero.

use vstd::prelude::*;

use crate::expr::{value, Window, Wire};
use crate::field::{f_add, f_red, x_add, x_base, x_inv, x_mul, x_red, x_sub, x_zero, Ext};
use crate::lookup::air::LookupView;
use crate::lookup::columns::{
    aux_combined, aux_denominator, aux_fraction, aux_sum, aux_total, aux_window, is_aux,
};
use crate::ring::{lemma_base, lemma_distributes, lemma_products, lemma_reduced, lemma_sums, lemma_undo};

verus! {

/// A tuple that a lookup counts, with its multiplicity.
pub struct Entry {
    pub lookup: int,
    pub tuple: Seq<u64>,
    pub multiplicity: u64,
}

/// The values of a tuple at a window.
pub open spec fn tuple_at(t: Seq<Wire>, w: Window) -> Seq<u64> {
    Seq::new(t.len(), |i: int| value(t[i], w))
}

/// What the first `n` tuples of lookup `k` count at a window.
pub open spec fn lookup_entries(v: LookupView, w: Window, k: int, n: nat) -> Seq<Entry>
    decreases n,
{
    if n == 0 {
        Seq::empty()
    } else {
        lookup_entries(v, w, k, (n - 1) as nat).push(
            Entry { lookup: k, tuple: tuple_at(v.elements[n - 1], w), multiplicity: value(v.multiplicities[n - 1], w) },
        )
    }
}

/// What the first `n` lookups count at a window.
pub open spec fn row_entries(ls: Seq<LookupView>, w: Window, n: nat) -> Seq<Entry>
    decreases n,
{
    if n == 0 {
        Seq::empty()
    } else {
        row_entries(ls, w, (n - 1) as nat) + lookup_entries(ls[n - 1], w, n - 1, ls[n - 1].elements.len())
    }
}

/// What the lookups count on the first `n` rows of a trace.
pub open spec fn trace_entries(ls: Seq<LookupView>, main: Seq<Seq<u64>>, pis: Seq<u64>, n: nat) -> Seq<Entry>
    decreases n,
{
    if n == 0 {
        Seq::empty()
    } else {
        trace_entries(ls, main, pis, (n - 1) as nat) + row_entries(ls, aux_window(main, pis, n - 1), ls.len())
    }
}

/// How often a tuple of a lookup is counted in all, modulo p.
pub open spec fn weight(es: Seq<Entry>, lookup: int, tuple: Seq<u64>) -> u64
    decreases es.len(),
{
    if es.len() == 0 {
        0
    } else if es.last().lookup == lookup && es.last().tuple == tuple {
        f_add(weight(es.drop_last(), lookup, tuple), es.last().multiplicity)
    } else {
        weight(es.drop_last(), lookup, tuple)
    }
}

/// The looked-up values of a trace balance: in every lookup the multiplicities of every tuple add up to zero.
pub open spec fn balances(ls: Seq<LookupView>, main: Seq<Seq<u64>>, pis: Seq<u64>) -> bool {
    forall|k: int, t: Seq<u64>| #[trigger] weight(trace_entries(ls, main, pis, main.len()), k, t) == 0
}

/// A tuple of values, combined under powers of `beta`.
pub open spec fn values_combined(t: Seq<u64>, beta: Ext, n: nat) -> Ext
    decreases n,
{
    if n == 0 {
        x_zero()
    } else {
        x_add(x_base(t[n - 1]), x_mul(values_combined(t, beta, (n - 1) as nat), beta))
    }
}

/// The inverse of the denominator of a tuple.
pub open spec fn part_of(lookup: int, tuple: Seq<u64>, challenges: Seq<Ext>) -> Ext {
    x_inv(x_sub(challenges[2 * lookup], values_combined(tuple, challenges[2 * lookup + 1], tuple.len())))
}

/// The fractions of a run of entries, added up.
pub open spec fn entries_total(es: Seq<Entry>, challenges: Seq<Ext>) -> Ext
    decreases es.len(),
{
    if es.len() == 0 {
        x_zero()
    } else {
        x_add(
            entries_total(es.drop_last(), challenges),
            x_mul(part_of(es.last().lookup, es.last().tuple, challenges), x_base(es.last().multiplicity)),
        )
    }
}

/// The entries of other tuples.
pub open spec fn without(es: Seq<Entry>, lookup: int, tuple: Seq<u64>) -> Seq<Entry>
    decreases es.len(),
{
    if es.len() == 0 {
        es
    } else if es.last().lookup == lookup && es.last().tuple == tuple {
        without(es.drop_last(), lookup, tuple)
    } else {
        without(es.drop_last(), lookup, tuple).push(es.last())
    }
}

pub(crate) proof fn lemma_without_len(es: Seq<Entry>, lookup: int, tuple: Seq<u64>)
    ensures
        without(es, lookup, tuple).len() <= es.len(),
        es.len() > 0 && es.last().lookup == lookup && es.last().tuple == tuple ==> without(es, lookup, tuple).len()
            < es.len(),
    decreases es.len(),
{
    if es.len() > 0 {
        lemma_without_len(es.drop_last(), lookup, tuple);
    }
}

/// The weight of a tuple among the entries of others.
pub(crate) proof fn lemma_without_weight(es: Seq<Entry>, lookup: int, tuple: Seq<u64>, k: int, t: Seq<u64>)
    ensures
        weight(without(es, lookup, tuple), k, t) == if k == lookup && t == tuple {
            0
        } else {
            weight(es, k, t)
        },
    decreases es.len(),
{
    if es.len() > 0 {
        lemma_without_weight(es.drop_last(), lookup, tuple, k, t);
        let rest = without(es.drop_last(), lookup, tuple);
        if !(es.last().lookup == lookup && es.last().tuple == tuple) {
            assert(rest.push(es.last()).drop_last() =~= rest);
        }
    }
}

/// Taking a tuple out takes its weight out of the total.
#[verifier::spinoff_prover]
#[verifier::rlimit(40)]
pub(crate) proof fn lemma_taken_out(es: Seq<Entry>, lookup: int, tuple: Seq<u64>, challenges: Seq<Ext>)
    ensures
        entries_total(es, challenges) == x_add(
            entries_total(without(es, lookup, tuple), challenges),
            x_mul(part_of(lookup, tuple, challenges), x_base(weight(es, lookup, tuple))),
        ),
    decreases es.len(),
{
    let p = part_of(lookup, tuple, challenges);
    if es.len() == 0 {
        lemma_base(0, 0);
        lemma_products(p, p, p);
        lemma_undo(x_zero(), x_zero(), x_zero());
        lemma_reduced(x_zero(), x_zero());
    } else {
        let (init, e) = (es.drop_last(), es.last());
        lemma_taken_out(init, lookup, tuple, challenges);
        let rest = without(init, lookup, tuple);
        let (a, b) = (entries_total(rest, challenges), x_mul(p, x_base(weight(init, lookup, tuple))));
        let c = x_mul(part_of(e.lookup, e.tuple, challenges), x_base(e.multiplicity));
        if e.lookup == lookup && e.tuple == tuple {
            lemma_sums(a, b, c);
            lemma_distributes(p, x_base(weight(init, lookup, tuple)), x_base(e.multiplicity));
            lemma_base(weight(init, lookup, tuple), e.multiplicity);
        } else {
            assert(rest.push(e).drop_last() =~= rest);
            lemma_sums(a, b, c);
            lemma_sums(a, c, b);
            lemma_sums(b, c, c);
        }
    }
}

/// Entries whose tuples all have weight zero add up to zero.
#[verifier::rlimit(30)]
proof fn lemma_weightless(es: Seq<Entry>, challenges: Seq<Ext>)
    requires
        forall|k: int, t: Seq<u64>| #[trigger] weight(es, k, t) == 0,
    ensures
        entries_total(es, challenges) == x_zero(),
    decreases es.len(),
{
    if es.len() > 0 {
        let e = es.last();
        let rest = without(es, e.lookup, e.tuple);
        let p = part_of(e.lookup, e.tuple, challenges);
        lemma_without_len(es, e.lookup, e.tuple);
        assert forall|k: int, t: Seq<u64>| #[trigger] weight(rest, k, t) == 0 by {
            lemma_without_weight(es, e.lookup, e.tuple, k, t);
        }
        lemma_weightless(rest, challenges);
        lemma_taken_out(es, e.lookup, e.tuple, challenges);
        assert(weight(es, e.lookup, e.tuple) == 0);
        lemma_base(0, 0);
        lemma_products(p, p, p);
        lemma_undo(x_zero(), x_zero(), x_zero());
        lemma_reduced(x_zero(), x_zero());
    }
}

/// The totals of two runs add up.
#[verifier::rlimit(30)]
proof fn lemma_joined(a: Seq<Entry>, b: Seq<Entry>, challenges: Seq<Ext>)
    ensures
        entries_total(a + b, challenges) == x_add(entries_total(a, challenges), entries_total(b, challenges)),
    decreases b.len(),
{
    let x = entries_total(a, challenges);
    if b.len() == 0 {
        assert(a + b =~= a);
        lemma_total_canonical(a, challenges);
        lemma_undo(x, x, x);
    } else {
        lemma_joined(a, b.drop_last(), challenges);
        assert((a + b).drop_last() =~= a + b.drop_last());
        assert((a + b).last() == b.last());
        lemma_sums(
            x,
            entries_total(b.drop_last(), challenges),
            x_mul(part_of(b.last().lookup, b.last().tuple, challenges), x_base(b.last().multiplicity)),
        );
    }
}

pub(crate) proof fn lemma_total_canonical(a: Seq<Entry>, challenges: Seq<Ext>)
    ensures
        x_red(entries_total(a, challenges)) == entries_total(a, challenges),
{
    lemma_reduced(x_zero(), x_zero());
    if a.len() > 0 {
        lemma_reduced(
            entries_total(a.drop_last(), challenges),
            x_mul(part_of(a.last().lookup, a.last().tuple, challenges), x_base(a.last().multiplicity)),
        );
    }
}

/// A tuple's values combined are the tuple combined.
proof fn lemma_values_combined(t: Seq<Wire>, beta: Ext, w: Window, n: nat)
    requires
        n <= t.len(),
    ensures
        values_combined(tuple_at(t, w), beta, n) == aux_combined(t, beta, w, n),
    decreases n,
{
    if n > 0 {
        lemma_values_combined(t, beta, w, (n - 1) as nat);
    }
}

proof fn lemma_lookup_total(v: LookupView, w: Window, challenges: Seq<Ext>, k: int, n: nat)
    requires
        n <= v.elements.len(),
    ensures
        entries_total(lookup_entries(v, w, k, n), challenges) == aux_fraction(v, w, challenges, k, n),
    decreases n,
{
    if n > 0 {
        let m = (n - 1) as nat;
        lemma_lookup_total(v, w, challenges, k, m);
        let es = lookup_entries(v, w, k, n);
        assert(es.drop_last() =~= lookup_entries(v, w, k, m));
        lemma_values_combined(v.elements[n - 1], challenges[2 * k + 1], w, v.elements[n - 1].len());
        assert(tuple_at(v.elements[n - 1], w).len() == v.elements[n - 1].len());
        assert(es.last().tuple == tuple_at(v.elements[n - 1], w));
        assert(part_of(k, es.last().tuple, challenges) == x_inv(aux_denominator(v, w, challenges, k, n - 1)));
    }
}

proof fn lemma_row_total(ls: Seq<LookupView>, w: Window, challenges: Seq<Ext>, n: nat)
    requires
        n <= ls.len(),
    ensures
        entries_total(row_entries(ls, w, n), challenges) == aux_total(ls, w, challenges, n),
    decreases n,
{
    if n > 0 {
        let m = (n - 1) as nat;
        lemma_row_total(ls, w, challenges, m);
        lemma_lookup_total(ls[n - 1], w, challenges, n - 1, ls[n - 1].elements.len());
        lemma_joined(
            row_entries(ls, w, m),
            lookup_entries(ls[n - 1], w, n - 1, ls[n - 1].elements.len()),
            challenges,
        );
    }
}

/// The fractions of a trace are those of its entries.
pub(crate) proof fn lemma_trace_total(ls: Seq<LookupView>, main: Seq<Seq<u64>>, pis: Seq<u64>, challenges: Seq<Ext>, n: nat)
    ensures
        entries_total(trace_entries(ls, main, pis, n), challenges) == aux_sum(ls, main, pis, challenges, n),
    decreases n,
{
    if n > 0 {
        let m = (n - 1) as nat;
        lemma_trace_total(ls, main, pis, challenges, m);
        lemma_row_total(ls, aux_window(main, pis, n - 1), challenges, ls.len());
        lemma_joined(
            trace_entries(ls, main, pis, m),
            row_entries(ls, aux_window(main, pis, n - 1), ls.len()),
            challenges,
        );
    }
}

/// A trace whose looked-up values balance has terminal zero, whatever the challenges.
pub proof fn law_balanced_lookups_end_in_zero(
    ls: Seq<LookupView>,
    main: Seq<Seq<u64>>,
    pis: Seq<u64>,
    challenges: Seq<Ext>,
    aux: Seq<Vec<Ext>>,
    terminal: Ext,
)
    requires
        is_aux(ls, main, pis, challenges, aux, terminal),
        balances(ls, main, pis),
    ensures
        terminal == x_zero(),
{
    lemma_trace_total(ls, main, pis, challenges, main.len());
    lemma_weightless(trace_entries(ls, main, pis, main.len()), challenges);
}

/// Whatever balanced trace a terminal belongs to, it is zero.
#[verifier::opaque]
pub open spec fn zero_if_balanced(ls: Seq<LookupView>, pis: Seq<u64>, challenges: Seq<Ext>, terminal: Ext) -> bool {
    forall|main: Seq<Seq<u64>>, aux: Seq<Vec<Ext>>|
        #[trigger] is_aux(ls, main, pis, challenges, aux, terminal) && balances(ls, main, pis) ==> terminal == x_zero()
}

/// The terminal of every balanced trace is zero.
pub proof fn law_zero_if_balanced(ls: Seq<LookupView>, pis: Seq<u64>, challenges: Seq<Ext>, terminal: Ext)
    ensures
        zero_if_balanced(ls, pis, challenges, terminal),
{
    reveal(zero_if_balanced);
    assert forall|main: Seq<Seq<u64>>, aux: Seq<Vec<Ext>>|
        #[trigger] is_aux(ls, main, pis, challenges, aux, terminal) && balances(ls, main, pis) implies terminal
        == x_zero() by {
        law_balanced_lookups_end_in_zero(ls, main, pis, challenges, aux, terminal);
    }
}

/// The weight in two runs is the sum of the weights.
pub proof fn lemma_weight_joined(a: Seq<Entry>, b: Seq<Entry>, k: int, t: Seq<u64>)
    ensures
        weight(a + b, k, t) == f_add(weight(a, k, t), weight(b, k, t)),
    decreases b.len(),
{
    if b.len() == 0 {
        assert(a + b =~= a);
        lemma_weight_canonical(a, k, t);
    } else {
        lemma_weight_joined(a, b.drop_last(), k, t);
        assert((a + b).drop_last() =~= a + b.drop_last());
        assert((a + b).last() == b.last());
        lemma_order(weight(a, k, t), weight(b.drop_last(), k, t), b.last().multiplicity);
    }
}

proof fn lemma_order(a: u64, b: u64, c: u64)
    ensures
        f_add(f_add(a, b), c) == f_add(a, f_add(b, c)),
{
    crate::field::lemma_red_add(a + b, c as int);
    crate::field::lemma_red_add(a as int, b + c);
    assert((a + b) + c == a + (b + c));
}

pub(crate) proof fn lemma_weight_canonical(a: Seq<Entry>, k: int, t: Seq<u64>)
    ensures
        f_red(weight(a, k, t) as int) == weight(a, k, t),
        f_add(weight(a, k, t), 0) == weight(a, k, t),
    decreases a.len(),
{
    if a.len() > 0 {
        lemma_weight_canonical(a.drop_last(), k, t);
    }
}

} // verus!
