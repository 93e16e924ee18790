//! A trace that does not balance is caught: its terminal is zero for fewer challenges than it has entries.

use vstd::prelude::*;

use crate::field::{x_add, x_base, x_inv, x_mul, x_one, x_red, x_sub, x_zero, Ext};
use crate::lookup::air::{LookupAir, RangeCheckAir};
use crate::lookup::balance::{
    entries_total, lemma_taken_out, lemma_trace_total, lemma_without_len, lemma_without_weight, part_of, trace_entries,
    values_combined, weight, without, Entry,
};
use crate::lookup::columns::aux_sum;
use crate::lookup::exact::lemma_poly_less;
use crate::lookup::range::{balanced, lemma_trace_singles, lemma_weight, provided, queried};
use crate::poly::{
    distinct, is_poly, law_too_many_roots, lemma_poly_add, lemma_poly_const, lemma_poly_mul, lemma_poly_same,
    lemma_poly_scale, longer, p_at, shows,
};
use crate::prime::law_extension_is_a_field;
use crate::ring::{
    lemma_base, lemma_difference, lemma_distributes, lemma_no_zero_divisors, lemma_products, lemma_reduced, lemma_undo,
};

verus! {

/// Entries of one lookup whose tuples have one value each.
pub open spec fn singles(es: Seq<Entry>) -> bool {
    forall|j: int| 0 <= j < es.len() ==> (#[trigger] es[j]).lookup == 0 && es[j].tuple.len() == 1
}

/// A challenge that is none of the values.
pub open spec fn avoids(es: Seq<Entry>, a: Ext) -> bool {
    forall|j: int| 0 <= j < es.len() ==> x_red(a) != x_base((#[trigger] es[j]).tuple[0])
}

/// The product of the differences of a point from all values.
pub open spec fn all_below(es: Seq<Entry>, x: Ext) -> Ext
    decreases es.len(),
{
    if es.len() == 0 {
        x_one()
    } else {
        x_mul(all_below(es.drop_last(), x), x_sub(x, x_base(es.last().tuple[0])))
    }
}

/// The fractions at a point, over their common denominator.
pub open spec fn all_above(es: Seq<Entry>, x: Ext) -> Ext
    decreases es.len(),
{
    if es.len() == 0 {
        x_zero()
    } else {
        x_add(
            x_mul(all_above(es.drop_last(), x), x_sub(x, x_base(es.last().tuple[0]))),
            x_mul(x_base(es.last().multiplicity), all_below(es.drop_last(), x)),
        )
    }
}

#[verifier::rlimit(30)]
proof fn lemma_below_poly(es: Seq<Entry>)
    ensures
        is_poly(|x: Ext| all_below(es, x), es.len() + 1),
    decreases es.len(),
{
    let f = |x: Ext| all_below(es, x);
    if es.len() == 0 {
        lemma_poly_const(x_one());
        lemma_reduced(x_one(), x_one());
        lemma_poly_same(|x: Ext| x_red(x_one()), f, 1, 1);
    } else {
        let init = es.drop_last();
        let c = x_base(es.last().tuple[0]);
        let (p, q) = (|x: Ext| all_below(init, x), |x: Ext| x_sub(x, c));
        lemma_below_poly(init);
        lemma_poly_less(c);
        lemma_poly_mul(p, q, es.len(), 2);
        lemma_poly_same(|x: Ext| x_mul(p(x), q(x)), f, (es.len() + 2 - 1) as nat, es.len() + 1);
    }
}

#[verifier::rlimit(30)]
proof fn lemma_above_poly(es: Seq<Entry>)
    ensures
        is_poly(|x: Ext| all_above(es, x), longer(es.len(), 1)),
    decreases es.len(),
{
    let f = |x: Ext| all_above(es, x);
    let n = es.len();
    if n == 0 {
        lemma_poly_const(x_zero());
        lemma_reduced(x_zero(), x_zero());
        lemma_poly_same(|x: Ext| x_red(x_zero()), f, 1, 1);
    } else {
        let init = es.drop_last();
        let (c, m) = (x_base(es.last().tuple[0]), x_base(es.last().multiplicity));
        let (u, b) = (|x: Ext| x_sub(x, c), |x: Ext| all_below(init, x));
        lemma_below_poly(init);
        lemma_poly_less(c);
        lemma_poly_scale(m, b, n);
        let h = |x: Ext| x_mul(m, b(x));
        if n == 1 {
            assert forall|x: Ext| h(x) == #[trigger] f(x) by {
                assert(all_above(init, x) == x_zero());
                assert(all_above(es, x) == x_add(x_mul(x_zero(), u(x)), h(x)));
                lemma_products(u(x), u(x), u(x));
                lemma_products(m, b(x), m);
                lemma_undo(h(x), m, m);
            }
            lemma_poly_same(h, f, 1, 1);
        } else {
            let p = |x: Ext| all_above(init, x);
            lemma_above_poly(init);
            lemma_poly_mul(p, u, (n - 1) as nat, 2);
            let g = |x: Ext| x_mul(p(x), u(x));
            lemma_poly_add(g, h, (n - 1 + 2 - 1) as nat, n);
            lemma_poly_same(|x: Ext| x_add(g(x), h(x)), f, longer((n - 1 + 2 - 1) as nat, n), n);
        }
    }
}

/// The inverse denominator of a single value.
proof fn lemma_single_part(t: Seq<u64>, challenges: Seq<Ext>)
    requires
        t.len() == 1,
        x_red(challenges[0]) != x_base(t[0]),
    ensures
        ({
            let d = x_sub(challenges[0], x_base(t[0]));
            &&& part_of(0, t, challenges) == x_inv(d)
            &&& x_mul(x_inv(d), d) == x_one()
        }),
{
    let c = x_base(t[0]);
    let a = challenges[0];
    reveal_with_fuel(values_combined, 2);
    lemma_products(challenges[1], challenges[1], challenges[1]);
    lemma_undo(c, c, c);
    lemma_base(t[0], 0);
    assert(values_combined(t, challenges[1], 1) == c);
    lemma_difference(a, c);
    lemma_reduced(a, c);
    law_extension_is_a_field(x_sub(a, c));
}

/// The sum of the fractions times their common denominator.
#[verifier::spinoff_prover]
#[verifier::rlimit(40)]
proof fn lemma_over_common(es: Seq<Entry>, challenges: Seq<Ext>)
    requires
        singles(es),
        avoids(es, challenges[0]),
    ensures
        x_mul(entries_total(es, challenges), all_below(es, challenges[0])) == all_above(es, challenges[0]),
    decreases es.len(),
{
    let a = challenges[0];
    if es.len() == 0 {
        lemma_products(x_one(), x_one(), x_one());
    } else {
        let (init, e) = (es.drop_last(), es.last());
        assert(es[es.len() - 1] == e);
        assert(singles(init) && avoids(init, a)) by {
            assert forall|j: int| 0 <= j < init.len() implies (#[trigger] init[j]).lookup == 0 && init[j].tuple.len() == 1
                && x_red(a) != x_base(init[j].tuple[0]) by {
                assert(init[j] == es[j]);
            }
        }
        lemma_over_common(init, challenges);
        lemma_single_part(e.tuple, challenges);
        let (t, b) = (entries_total(init, challenges), all_below(init, a));
        let (d, m) = (x_sub(a, x_base(e.tuple[0])), x_base(e.multiplicity));
        let i = x_inv(d);
        // (t + i m) (b d) = (t b) d + m b
        lemma_distributes(x_mul(b, d), t, x_mul(i, m));
        lemma_products(t, b, d);
        assert(x_mul(x_mul(i, m), x_mul(b, d)) == x_mul(m, b)) by {
            lemma_products(i, m, x_mul(b, d));
            lemma_products(m, b, d);
            lemma_products(i, x_mul(m, b), d);
            lemma_products(x_mul(m, b), d, i);
            lemma_products(i, d, x_mul(m, b));
            lemma_products(m, b, b);
            lemma_products(x_mul(m, b), x_one(), x_one());
        }
    }
}

/// Different values leave the product of the others.
#[verifier::rlimit(30)]
proof fn lemma_below_nonzero(es: Seq<Entry>, v: u64)
    requires
        forall|j: int| 0 <= j < es.len() ==> x_base((#[trigger] es[j]).tuple[0]) != x_base(v),
    ensures
        all_below(es, x_base(v)) != x_zero(),
        x_red(all_below(es, x_base(v))) == all_below(es, x_base(v)),
    decreases es.len(),
{
    lemma_reduced(x_one(), x_one());
    if es.len() > 0 {
        let (init, e) = (es.drop_last(), es.last());
        assert forall|j: int| 0 <= j < init.len() implies x_base((#[trigger] init[j]).tuple[0]) != x_base(v) by {
            assert(init[j] == es[j]);
        }
        lemma_below_nonzero(init, v);
        let (u, d) = (all_below(init, x_base(v)), x_sub(x_base(v), x_base(e.tuple[0])));
        lemma_products(u, d, d);
        assert(es[es.len() - 1] == e);
        lemma_base(v, 0);
        lemma_base(e.tuple[0], 0);
        if x_mul(u, d) == x_zero() {
            lemma_no_zero_divisors(u, d);
            lemma_reduced(x_base(v), x_base(e.tuple[0]));
            lemma_difference(x_base(v), x_base(e.tuple[0]));
        }
    }
}

/// The values are canonical.
pub open spec fn canonical_values(es: Seq<Entry>) -> bool {
    forall|j: int|
        0 <= j < es.len() ==> crate::field::f_red((#[trigger] es[j]).tuple[0] as int) == es[j].tuple[0]
}

/// What is left without a value.
#[verifier::rlimit(30)]
proof fn lemma_without_holds(es: Seq<Entry>, t: Seq<u64>)
    requires
        singles(es),
        canonical_values(es),
        t.len() == 1,
        crate::field::f_red(t[0] as int) == t[0],
    ensures
        ({
            let rest = without(es, 0, t);
            &&& singles(rest)
            &&& canonical_values(rest)
            &&& forall|a: Ext| #[trigger] avoids(es, a) ==> avoids(rest, a)
            &&& forall|j: int| 0 <= j < rest.len() ==> x_base((#[trigger] rest[j]).tuple[0]) != x_base(t[0])
        }),
    decreases es.len(),
{
    if es.len() > 0 {
        let (init, e) = (es.drop_last(), es.last());
        assert forall|j: int| 0 <= j < init.len() implies #[trigger] init[j] == es[j] by {}
        assert(es[es.len() - 1] == e);
        lemma_without_holds(init, t);
        let rest = without(init, 0, t);
        assert forall|a: Ext| #[trigger] avoids(es, a) implies avoids(init, a) by {
            assert forall|j: int| 0 <= j < init.len() implies x_red(a) != x_base((#[trigger] init[j]).tuple[0]) by {
                assert(init[j] == es[j]);
            }
        }
        if !(e.lookup == 0 && e.tuple == t) {
            let all = rest.push(e);
            assert(x_base(e.tuple[0]) != x_base(t[0])) by {
                if e.tuple[0] == t[0] {
                    assert(e.tuple =~= t);
                }
            }
            assert forall|a: Ext| #[trigger] avoids(es, a) implies avoids(all, a) by {
                assert(avoids(init, a));
                assert forall|j: int| 0 <= j < all.len() implies x_red(a) != x_base((#[trigger] all[j]).tuple[0]) by {
                    if j < rest.len() {
                        assert(all[j] == rest[j]);
                    } else {
                        assert(all[j] == es[es.len() - 1]);
                    }
                }
            }
        } else {
            assert forall|a: Ext| #[trigger] avoids(es, a) implies avoids(rest, a) by {
                assert(avoids(init, a));
            }
        }
    }
}

/// The sums vanish at a challenge.
pub open spec fn vanishes_at(es: Seq<Entry>, a: Ext, beta: Ext) -> bool {
    avoids(es, a) && entries_total(es, seq![a, beta]) == x_zero()
}

/// The weight of a value whose sums vanish at as many challenges as there are entries.
#[verifier::spinoff_prover]
#[verifier::rlimit(60)]
proof fn lemma_weight_vanishes(es: Seq<Entry>, t: Seq<u64>, alphas: Seq<Ext>, beta: Ext)
    requires
        es.len() >= 1,
        singles(es),
        canonical_values(es),
        es.last().tuple == t,
        distinct(alphas),
        alphas.len() >= es.len(),
        forall|i: int| 0 <= i < alphas.len() ==> vanishes_at(es, #[trigger] alphas[i], beta),
    ensures
        weight(es, 0, t) == 0,
{
    assert(es[es.len() - 1] == es.last());
    let rest = without(es, 0, t);
    let (v, m) = (t[0], x_base(weight(es, 0, t)));
    lemma_without_holds(es, t);
    lemma_without_len(es, 0, t);
    let n = rest.len();
    // weight times the product over the others, plus the others' fractions times the difference
    let (b, c) = (|x: Ext| all_below(rest, x), |x: Ext| x_sub(x, x_base(v)));
    let p = |x: Ext| all_above(rest, x);
    lemma_below_poly(rest);
    lemma_above_poly(rest);
    lemma_poly_less(x_base(v));
    lemma_poly_scale(m, b, n + 1);
    let h = |x: Ext| x_mul(m, b(x));
    lemma_poly_mul(p, c, longer(n, 1), 2);
    let k = |x: Ext| x_mul(p(x), c(x));
    let f = |x: Ext| x_add(k(x), h(x));
    lemma_poly_add(k, h, (longer(n, 1) + 2 - 1) as nat, n + 1);
    // With no other entries the second part is zero.
    let f2 = if n == 0 {
        h
    } else {
        f
    };
    let d = if n == 0 {
        1
    } else {
        n + 1
    };
    assert(is_poly(f2, d)) by {
        if n > 0 {
            lemma_poly_same(f, f, longer((longer(n, 1) + 2 - 1) as nat, n + 1), n + 1);
        }
    }
    let q = choose|q: Seq<Ext>| #[trigger] shows(f2, q) && q.len() <= d;
    assert forall|i: int| 0 <= i < alphas.len() implies p_at(q, #[trigger] alphas[i]) == x_zero() by {
        let a = alphas[i];
        assert(vanishes_at(es, alphas[i], beta));
        assert(avoids(es, a));
        assert(avoids(rest, a));
        assert(x_red(a) != x_base(es[es.len() - 1].tuple[0]));
        lemma_isolated(es, rest, t, a, beta);
        assert(f2(a) == p_at(q, a));
        if n == 0 {
            lemma_products(c(a), c(a), c(a));
            lemma_products(m, b(a), m);
            lemma_undo(h(a), m, m);
        }
    }
    let z = x_base(v);
    law_too_many_roots(q, alphas, z);
    assert(f2(z) == p_at(q, z));
    lemma_undo(z, z, z);
    lemma_products(p(z), p(z), p(z));
    lemma_products(m, b(z), m);
    lemma_undo(h(z), m, m);
    assert(x_mul(m, b(z)) == x_zero());
    lemma_below_nonzero(rest, v);
    lemma_no_zero_divisors(m, b(z));
    lemma_base(weight(es, 0, t), 0);
    crate::lookup::balance::lemma_weight_canonical(es, 0, t);
}

/// At a challenge where the sums vanish: the others' fractions times the difference, plus the weight times the product
/// over the others, is zero.
#[verifier::spinoff_prover]
#[verifier::rlimit(60)]
proof fn lemma_isolated(es: Seq<Entry>, rest: Seq<Entry>, t: Seq<u64>, a: Ext, beta: Ext)
    requires
        rest == without(es, 0, t),
        singles(rest),
        avoids(rest, a),
        t.len() == 1,
        x_red(a) != x_base(t[0]),
        entries_total(es, seq![a, beta]) == x_zero(),
    ensures
        x_add(
            x_mul(all_above(rest, a), x_sub(a, x_base(t[0]))),
            x_mul(x_base(weight(es, 0, t)), all_below(rest, a)),
        ) == x_zero(),
{
    let ch = seq![a, beta];
    let m = x_base(weight(es, 0, t));
    let d = x_sub(a, x_base(t[0]));
    let (s, b) = (entries_total(rest, ch), all_below(rest, a));
    lemma_taken_out(es, 0, t, ch);
    lemma_single_part(t, ch);
    lemma_over_common(rest, ch);
    let i = x_inv(d);
    // (s + i m) times (b d)
    let bd = x_mul(b, d);
    lemma_distributes(bd, s, x_mul(i, m));
    lemma_products(bd, bd, bd);
    lemma_products(s, b, d);
    assert(x_mul(x_mul(i, m), bd) == x_mul(m, b)) by {
        lemma_products(i, m, bd);
        lemma_products(m, b, d);
        lemma_products(i, x_mul(m, b), d);
        lemma_products(x_mul(m, b), d, i);
        lemma_products(i, d, x_mul(m, b));
        lemma_products(m, b, b);
        lemma_products(x_mul(m, b), x_one(), x_one());
    }
}

/// Entries whose sums vanish at as many different challenges as there are entries have no weight.
#[verifier::rlimit(30)]
proof fn lemma_weights_vanish(es: Seq<Entry>, alphas: Seq<Ext>, beta: Ext, v: u64)
    requires
        singles(es),
        canonical_values(es),
        distinct(alphas),
        alphas.len() >= es.len(),
        forall|i: int| 0 <= i < alphas.len() ==> vanishes_at(es, #[trigger] alphas[i], beta),
    ensures
        weight(es, 0, seq![v]) == 0,
    decreases es.len(),
{
    if es.len() > 0 {
        let e = es.last();
        let t = e.tuple;
        assert(es[es.len() - 1] == e);
        lemma_weight_vanishes(es, t, alphas, beta);
        let rest = without(es, 0, t);
        lemma_without_len(es, 0, t);
        lemma_without_holds(es, t);
        assert forall|i: int| 0 <= i < alphas.len() implies vanishes_at(rest, #[trigger] alphas[i], beta) by {
            let ch = seq![alphas[i], beta];
            assert(vanishes_at(es, alphas[i], beta));
            assert(avoids(es, alphas[i]));
            lemma_taken_out(es, 0, t, ch);
            lemma_base(0, 0);
            let p = part_of(0, t, ch);
            lemma_products(p, p, p);
            let x = entries_total(rest, ch);
            lemma_undo(x, x, x);
            crate::lookup::balance::lemma_total_canonical(rest, ch);
        }
        lemma_weights_vanish(rest, alphas, beta, v);
        lemma_without_weight(es, 0, t, 0, seq![v]);
    }
}

/// The terminal tells a trace that balances from one that does not: where it is zero for as many different challenges,
/// none of them a value of the trace, as the trace has entries, the trace is balanced.
#[verifier::rlimit(30)]
pub proof fn law_terminal_tells_imbalance(main: Seq<Seq<u64>>, pis: Seq<u64>, alphas: Seq<Ext>, beta: Ext)
    requires
        distinct(alphas),
        alphas.len() >= 2 * main.len(),
        forall|i: int|
            0 <= i < alphas.len() ==> aux_sum(
                RangeCheckAir.system().lookups,
                main,
                pis,
                seq![#[trigger] alphas[i], beta],
                main.len(),
            ) == x_zero(),
        forall|i: int, r: int|
            0 <= i < alphas.len() && 0 <= r < main.len() ==> x_red(#[trigger] alphas[i]) != x_base(
                (#[trigger] main[r])[0],
            ) && x_red(alphas[i]) != x_base(main[r][1]),
    ensures
        balanced(main),
{
    let ls = RangeCheckAir.system().lookups;
    let es = trace_entries(ls, main, pis, main.len());
    lemma_trace_singles(main, pis, main.len());
    assert forall|i: int| 0 <= i < alphas.len() implies vanishes_at(es, #[trigger] alphas[i], beta) by {
        lemma_trace_total(ls, main, pis, seq![alphas[i], beta], main.len());
        assert forall|j: int| 0 <= j < es.len() implies x_red(alphas[i]) != x_base((#[trigger] es[j]).tuple[0]) by {
            let r = j / 2;
            assert(es[j].tuple[0] == crate::field::f_red(main[r][j % 2] as int));
            lemma_base(main[r][j % 2], 0);
            assert(x_red(alphas[i]) != x_base(main[r][0]) && x_red(alphas[i]) != x_base(main[r][1]));
        }
    }
    assert forall|v: u64| crate::field::f_red(#[trigger] queried(main, v, main.len()) as int) == crate::field::f_red(
        provided(main, v, main.len()) as int,
    ) by {
        lemma_weights_vanish(es, alphas, beta, v);
        lemma_weight(main, pis, 0, seq![v], main.len());
        let (a, b) = (queried(main, v, main.len()) as int, provided(main, v, main.len()) as int);
        assert(crate::field::f_red(a - b) == 0);
        crate::field::lemma_red_add(a, b);
        crate::field::lemma_red_add(a - b, b);
        assert((a - b) + b == a);
    }
}

} // verus!
