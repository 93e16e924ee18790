//! The range check's traces: a balanced one, and when the aux columns belong to a trace.

use vstd::prelude::*;

use crate::expr::{value, w_cur};
use crate::field::{
    f_add, f_red, f_sub, x_add, x_base, x_inv, x_mul, x_one, x_red, x_same, x_sub, x_zero, Ext,
};
use crate::lookup::air::{law_range_check_system, lookup_constraints, range_lookup, LookupAir, RangeCheckAir};
use crate::lookup::argument::{all_invert, law_lookups_force_aux, trace_lookup, trace_openings};
use crate::lookup::balance::{
    balances, law_balanced_lookups_end_in_zero, lemma_weight_joined, lookup_entries, row_entries, trace_entries, tuple_at,
    weight, Entry,
};
use crate::lookup::columns::{
    aux_combined, aux_denominator, aux_fraction, aux_sum, aux_total, aux_window, is_aux, lookup_resolves,
};
use crate::lookup::degree::{
    constraints_fit, law_constraints_fit_by_degree, law_lookup_transitions, len_of, lookup_reads_cells, reads_cells,
    transitions_within, tree_transitions,
};
use crate::lookup::honest::lookups_read_cells;
use crate::lookup::imbalance::{canonical_values, singles};
use crate::lookup::quotient::rows_of;
use crate::lookup::rounds::{
    challenges_of, law_rounds_round_trip, round_zeta, rounds_error, trace_sponge, LookupRoundProof,
};
use crate::fri::merkle::contents;
use crate::ring::{lemma_base, lemma_distributes, lemma_products, lemma_reduced, lemma_sums, lemma_undo};

verus! {

/// The multiplier that spreads the row numbers.
pub const SPREAD: u64 = 2654435761;

/// The value that row `i` of the balanced trace queries and provides.
pub open spec fn balanced_value(i: int) -> u64 {
    ((i * SPREAD) % 65536) as u64
}

/// A balanced range-check trace: every row queries a 16-bit value and provides it once.
pub fn balanced_main(height: usize) -> (t: Vec<Vec<u64>>)
    requires
        height * SPREAD <= u64::MAX,
    ensures
        t@.len() == height,
        forall|i: int|
            0 <= i < height ==> (#[trigger] t@[i])@ == seq![balanced_value(i), balanced_value(i), 1],
        balanced(contents(t@)),
{
    let mut t: Vec<Vec<u64>> = Vec::new();
    let mut i: usize = 0;
    while i < height
        invariant
            i <= height,
            height * SPREAD <= u64::MAX,
            t@.len() == i,
            forall|k: int| 0 <= k < i ==> (#[trigger] t@[k])@ == seq![balanced_value(k), balanced_value(k), 1],
        decreases height - i,
    {
        assert(i * SPREAD <= height * SPREAD) by (nonlinear_arith)
            requires
                i <= height,
        ;
        let v: u64 = (i as u64 * SPREAD) % 65536;
        let mut row: Vec<u64> = Vec::new();
        row.push(v);
        row.push(v);
        row.push(1);
        assert(row@ =~= seq![balanced_value(i as int), balanced_value(i as int), 1]);
        t.push(row);
        i += 1;
    }
    proof {
        let main = contents(t@);
        assert forall|k: int| 0 <= k < main.len() implies (#[trigger] main[k])[0] == main[k][1] && main[k][2] == 1 by {
            assert(t@[k]@ == seq![balanced_value(k), balanced_value(k), 1]);
        }
        law_rows_that_provide_balance(main);
    }
    t
}

/// A row's fraction: one over the queried value's denominator, less the multiplicity over the table value's.
pub open spec fn row_fraction(row: Seq<u64>, alpha: Ext) -> Ext {
    x_sub(
        x_inv(x_sub(alpha, x_base(row[0]))),
        x_mul(x_inv(x_sub(alpha, x_base(row[1]))), x_base(row[2])),
    )
}

/// The challenge is neither of a row's values.
pub open spec fn off_row(row: Seq<u64>, alpha: Ext) -> bool {
    !x_same(x_sub(alpha, x_base(row[0])), x_zero()) && !x_same(x_sub(alpha, x_base(row[1])), x_zero())
}

/// The sum of the first `n` aux fractions.
pub open spec fn fractions_total(aux: Seq<Vec<Ext>>, n: nat) -> Ext
    decreases n,
{
    if n == 0 {
        x_zero()
    } else {
        x_add(fractions_total(aux, (n - 1) as nat), aux[n - 1]@[1])
    }
}

/// Every aux row holds its fraction, and the fractions add up to the terminal.
pub open spec fn wellformed(main: Seq<Vec<u64>>, aux: Seq<Vec<Ext>>, alpha: Ext, terminal: Ext) -> bool {
    &&& forall|r: int| 0 <= r < main.len() ==> x_same((#[trigger] aux[r])@[1], row_fraction(main[r]@, alpha))
    &&& x_same(fractions_total(aux, main.len()), terminal)
}

/// Whether the aux columns belong to a range-check trace: every row's fraction is the one of its values, and the
/// fractions add up to the terminal.
pub fn aux_fraction_wellformed(main: &Vec<Vec<u64>>, aux: &Vec<Vec<Ext>>, alpha: Ext, terminal: Ext) -> (ok: bool)
    requires
        rows_of(main@, 3),
        aux@.len() >= main@.len(),
        forall|r: int| 0 <= r < aux@.len() ==> (#[trigger] aux@[r])@.len() >= 2,
        forall|r: int| 0 <= r < main@.len() ==> off_row((#[trigger] main@[r])@, alpha),
    ensures
        ok == wellformed(main@, aux@, alpha, terminal),
{
    let mut sum: Ext = Ext::zero();
    let mut r: usize = 0;
    while r < main.len()
        invariant
            r <= main@.len() <= aux@.len(),
            rows_of(main@, 3),
            forall|k: int| 0 <= k < aux@.len() ==> (#[trigger] aux@[k])@.len() >= 2,
            forall|k: int| 0 <= k < main@.len() ==> off_row((#[trigger] main@[k])@, alpha),
            forall|k: int| 0 <= k < r ==> x_same((#[trigger] aux@[k])@[1], row_fraction(main@[k]@, alpha)),
            sum == fractions_total(aux@, r as nat),
        decreases main.len() - r,
    {
        let row: &Vec<u64> = &main[r];
        assert(main@[r as int]@.len() == 3);
        assert(off_row(main@[r as int]@, alpha));
        assert(aux@[r as int]@.len() >= 2);
        let queried: Ext = invert(alpha.minus(Ext::from_base(row[0])));
        let provided: Ext = invert(alpha.minus(Ext::from_base(row[1])));
        let expected: Ext = queried.minus(provided.times(Ext::from_base(row[2])));
        let found: Ext = aux[r][1];
        if !found.same(expected) {
            assert(!x_same(aux@[r as int]@[1], row_fraction(main@[r as int]@, alpha)));
            return false;
        }
        sum = sum.plus(found);
        r += 1;
    }
    sum.same(terminal)
}

fn invert(a: Ext) -> (r: Ext)
    requires
        !x_same(a, x_zero()),
    ensures
        r == x_inv(a),
{
    match a.inverse() {
        Some(v) => v,
        None => {
            assert(false);
            a
        },
    }
}

/// The rows among the first `n` that query `v`.
pub open spec fn queried(main: Seq<Seq<u64>>, v: u64, n: nat) -> nat
    decreases n,
{
    if n == 0 {
        0
    } else if f_red(main[n - 1][0] as int) == v {
        queried(main, v, (n - 1) as nat) + 1
    } else {
        queried(main, v, (n - 1) as nat)
    }
}

/// The multiplicities with which the first `n` rows provide `v`, added up.
pub open spec fn provided(main: Seq<Seq<u64>>, v: u64, n: nat) -> nat
    decreases n,
{
    if n == 0 {
        0
    } else if f_red(main[n - 1][1] as int) == v {
        provided(main, v, (n - 1) as nat) + main[n - 1][2] as nat
    } else {
        provided(main, v, (n - 1) as nat)
    }
}

/// A balanced trace: modulo p, as many rows query a value as the rows provide it.
pub open spec fn balanced(main: Seq<Seq<u64>>) -> bool {
    forall|v: u64|
        f_red(#[trigger] queried(main, v, main.len()) as int) == f_red(provided(main, v, main.len()) as int)
}

/// A difference modulo p that one step changes.
#[verifier::rlimit(30)]
proof fn lemma_counted(a: int, b: int, x: u64, q: bool, y: u64, p: bool)
    requires
        x == f_red(a - b),
    ensures
        f_add(
            f_add(
                x,
                if q {
                    1
                } else {
                    0
                },
            ),
            if p {
                f_sub(0, f_red(y as int))
            } else {
                0
            },
        ) == f_red(
            (a + if q {
                1int
            } else {
                0
            }) - (b + if p {
                y as int
            } else {
                0
            }),
        ),
{
    let one: u64 = if q {
        1
    } else {
        0
    };
    let m: u64 = if p {
        y
    } else {
        0
    };
    crate::field::lemma_red_add(a - b, one as int);
    crate::field::lemma_red_add(0, y as int);
    let neg: u64 = if p {
        f_sub(0, f_red(y as int))
    } else {
        0
    };
    assert(neg == f_red(0 - m));
    crate::field::lemma_red_add((a - b) + one, 0 - m);
    crate::field::lemma_red_add(f_red((a - b) + one) as int, 0 - m);
    assert((a - b) + one + (0 - m) == (a + one) - (b + m));
}

/// The entries of a row of a range check.
#[verifier::rlimit(30)]
proof fn lemma_row_entries(main: Seq<Seq<u64>>, pis: Seq<u64>, r: int, k: int, t: Seq<u64>)
    requires
        0 <= r < main.len(),
    ensures
        ({
            let (q, p) = (f_red(main[r][0] as int), f_red(main[r][1] as int));
            weight(row_entries(RangeCheckAir.system().lookups, aux_window(main, pis, r), 1), k, t) == f_add(
                f_add(
                    0,
                    if k == 0 && t == seq![q] {
                        1
                    } else {
                        0
                    },
                ),
                if k == 0 && t == seq![p] {
                    f_sub(0, f_red(main[r][2] as int))
                } else {
                    0
                },
            )
        }),
{
    let ls = RangeCheckAir.system().lookups;
    let w = aux_window(main, pis, r);
    let v = range_lookup();
    let (q, p) = (f_red(main[r][0] as int), f_red(main[r][1] as int));
    let (e0, e1) = (
        Entry { lookup: 0, tuple: tuple_at(v.elements[0], w), multiplicity: value(v.multiplicities[0], w) },
        Entry { lookup: 0, tuple: tuple_at(v.elements[1], w), multiplicity: value(v.multiplicities[1], w) },
    );
    reveal_with_fuel(row_entries, 2);
    reveal_with_fuel(lookup_entries, 3);
    reveal_with_fuel(value, 3);
    let es = row_entries(ls, w, 1);
    assert(ls[0] == v);
    assert(es =~= seq![e0, e1]);
    assert(e0.tuple =~= seq![q]);
    assert(e1.tuple =~= seq![p]);
    assert(e0.multiplicity == 1);
    assert(e1.multiplicity == f_sub(0, f_red(main[r][2] as int)));
    assert(es.drop_last() =~= seq![e0]);
    assert(seq![e0].drop_last() =~= Seq::<Entry>::empty());
    reveal_with_fuel(weight, 3);
    lemma_neutral(f_sub(0, f_red(main[r][2] as int)));
}

proof fn lemma_neutral(a: u64)
    requires
        f_red(a as int) == a,
    ensures
        f_add(0, a) == a,
        f_add(a, 0) == a,
        f_add(0, 0) == 0,
        f_add(0, 1) == 1,
        f_add(1, 0) == 1,
{
}

/// The weight of a value in a range-check trace: the rows that query it, less what the rows provide.
#[verifier::spinoff_prover]
#[verifier::rlimit(40)]
pub(crate) proof fn lemma_weight(main: Seq<Seq<u64>>, pis: Seq<u64>, k: int, t: Seq<u64>, n: nat)
    requires
        n <= main.len(),
    ensures
        weight(trace_entries(RangeCheckAir.system().lookups, main, pis, n), k, t) == (if k == 0 && t.len() == 1 {
            f_red(queried(main, t[0], n) - provided(main, t[0], n))
        } else {
            0
        }),
    decreases n,
{
    if n > 0 {
        let ls = RangeCheckAir.system().lookups;
        let m = (n - 1) as nat;
        let row = main[n - 1];
        let (q, p) = (f_red(row[0] as int), f_red(row[1] as int));
        lemma_weight(main, pis, k, t, m);
        lemma_row_entries(main, pis, n - 1, k, t);
        let (a, b) = (trace_entries(ls, main, pis, m), row_entries(ls, aux_window(main, pis, n - 1), 1));
        lemma_weight_joined(a, b, k, t);
        assert(ls.len() == 1);
        let at = k == 0 && t.len() == 1;
        assert(k == 0 && t == seq![q] <==> at && q == t[0]) by {
            if at && q == t[0] {
                assert(t =~= seq![q]);
            }
        }
        assert(k == 0 && t == seq![p] <==> at && p == t[0]) by {
            if at && p == t[0] {
                assert(t =~= seq![p]);
            }
        }
        let one: u64 = if at && q == t[0] {
            1
        } else {
            0
        };
        let neg: u64 = if at && p == t[0] {
            f_sub(0, f_red(row[2] as int))
        } else {
            0
        };
        lemma_regroup(weight(a, k, t), one, neg);
        if at {
            lemma_counted(
                queried(main, t[0], m) as int,
                provided(main, t[0], m) as int,
                weight(a, k, t),
                q == t[0],
                row[2],
                p == t[0],
            );
        } else {
            lemma_neutral(0);
        }
    }
}

/// x + ((0 + a) + b) = (x + a) + b.
proof fn lemma_regroup(x: u64, a: u64, b: u64)
    ensures
        f_add(x, f_add(f_add(0, a), b)) == f_add(f_add(x, a), b),
{
    crate::field::lemma_red_add(0 + a, b as int);
    crate::field::lemma_red_add(x as int, a + b);
    crate::field::lemma_red_add(x + a, b as int);
    assert(x + (a + b) == (x + a) + b);
}

/// The entries of a range-check trace: two per row, one value each.
#[verifier::spinoff_prover]
#[verifier::rlimit(40)]
pub(crate) proof fn lemma_trace_singles(main: Seq<Seq<u64>>, pis: Seq<u64>, n: nat)
    requires
        n <= main.len(),
    ensures
        ({
            let es = trace_entries(RangeCheckAir.system().lookups, main, pis, n);
            &&& es.len() == 2 * n
            &&& singles(es)
            &&& canonical_values(es)
            &&& forall|j: int|
                0 <= j < es.len() ==> (#[trigger] es[j]).tuple[0] == f_red(main[j / 2][j % 2] as int)
        }),
    decreases n,
{
    if n > 0 {
        let ls = RangeCheckAir.system().lookups;
        let m = (n - 1) as nat;
        let w = aux_window(main, pis, n - 1);
        let v = range_lookup();
        lemma_trace_singles(main, pis, m);
        let (a, b) = (trace_entries(ls, main, pis, m), row_entries(ls, w, 1));
        let es = trace_entries(ls, main, pis, n);
        assert(ls.len() == 1 && ls[0] == v);
        assert(es == a + b);
        let (e0, e1) = (
            Entry { lookup: 0, tuple: tuple_at(v.elements[0], w), multiplicity: value(v.multiplicities[0], w) },
            Entry { lookup: 0, tuple: tuple_at(v.elements[1], w), multiplicity: value(v.multiplicities[1], w) },
        );
        reveal_with_fuel(row_entries, 2);
        reveal_with_fuel(lookup_entries, 3);
        assert(b =~= seq![e0, e1]);
        assert(e0.tuple =~= seq![f_red(main[n - 1][0] as int)]);
        assert(e1.tuple =~= seq![f_red(main[n - 1][1] as int)]);
        assert forall|j: int| 0 <= j < es.len() implies (#[trigger] es[j]).lookup == 0 && es[j].tuple.len() == 1
            && es[j].tuple[0] == f_red(main[j / 2][j % 2] as int) && f_red(es[j].tuple[0] as int) == es[j].tuple[0] by {
            if j < 2 * m {
                assert(es[j] == a[j]);
            } else {
                assert(es[j] == b[j - 2 * m]);
                assert(j / 2 == n - 1);
            }
        }
    }
}

/// A balanced range-check trace has terminal zero, whatever the challenges.
#[verifier::rlimit(30)]
pub proof fn law_balanced_terminal_is_zero(
    main: Seq<Seq<u64>>,
    pis: Seq<u64>,
    challenges: Seq<Ext>,
    aux: Seq<Vec<Ext>>,
    terminal: Ext,
)
    requires
        is_aux(RangeCheckAir.system().lookups, main, pis, challenges, aux, terminal),
        balanced(main),
    ensures
        terminal == x_zero(),
{
    let ls = RangeCheckAir.system().lookups;
    assert forall|k: int, t: Seq<u64>| #[trigger] weight(trace_entries(ls, main, pis, main.len()), k, t) == 0 by {
        lemma_weight(main, pis, k, t, main.len());
        if t.len() == 1 {
            let (a, b) = (queried(main, t[0], main.len()) as int, provided(main, t[0], main.len()) as int);
            assert(f_red(queried(main, t[0], main.len()) as int) == f_red(provided(main, t[0], main.len()) as int));
            crate::field::lemma_red_add(a, b);
            crate::field::lemma_red_add(f_red(a) as int, b);
        }
    }
    assert(balances(ls, main, pis));
    law_balanced_lookups_end_in_zero(ls, main, pis, challenges, aux, terminal);
}

/// A trace whose rows query the value that they provide once is balanced.
pub proof fn law_rows_that_provide_balance(main: Seq<Seq<u64>>)
    requires
        forall|i: int| 0 <= i < main.len() ==> (#[trigger] main[i])[0] == main[i][1] && main[i][2] == 1,
    ensures
        balanced(main),
{
    assert forall|v: u64| f_red(#[trigger] queried(main, v, main.len()) as int) == f_red(
        provided(main, v, main.len()) as int,
    ) by {
        lemma_provided(main, v, main.len());
    }
}

proof fn lemma_provided(main: Seq<Seq<u64>>, v: u64, n: nat)
    requires
        n <= main.len(),
        forall|i: int| 0 <= i < main.len() ==> (#[trigger] main[i])[0] == main[i][1] && main[i][2] == 1,
    ensures
        queried(main, v, n) == provided(main, v, n),
    decreases n,
{
    if n > 0 {
        lemma_provided(main, v, (n - 1) as nat);
        assert(main[n - 1][0] == main[n - 1][1]);
    }
}

/// The two rounds of a balanced range-check trace are accepted.
pub proof fn law_balanced_rounds_are_accepted(
    main: Seq<Seq<u64>>,
    pis: Seq<u64>,
    aux: Seq<Vec<Ext>>,
    proof: LookupRoundProof,
)
    requires
        proof.alpha == challenges_of(trace_sponge(proof.trace_commit@, pis), 2)[0],
        proof.beta == challenges_of(trace_sponge(proof.trace_commit@, pis), 2)[1],
        proof.zeta == round_zeta(proof.trace_commit@, proof.aux_commit@, pis),
        is_aux(
            RangeCheckAir.system().lookups,
            main,
            pis,
            challenges_of(trace_sponge(proof.trace_commit@, pis), 2),
            aux,
            proof.terminal,
        ),
        balanced(main),
    ensures
        rounds_error(pis, proof) is None,
{
    law_balanced_terminal_is_zero(
        main,
        pis,
        challenges_of(trace_sponge(proof.trace_commit@, pis), 2),
        aux,
        proof.terminal,
    );
    law_rounds_round_trip(pis, proof);
}

/// The denominators of a row of a range check.
proof fn lemma_range_denominator(main: Seq<Seq<u64>>, pis: Seq<u64>, challenges: Seq<Ext>, r: int, j: int)
    requires
        0 <= r < main.len(),
        0 <= j < 2,
    ensures
        aux_denominator(range_lookup(), aux_window(main, pis, r), challenges, 0, j) == x_sub(
            challenges[0],
            x_base(main[r][j]),
        ),
{
    let w = aux_window(main, pis, r);
    let t = range_lookup().elements[j];
    let b = x_base(main[r][j]);
    assert(t =~= seq![w_cur(j)]);
    reveal_with_fuel(aux_combined, 2);
    assert(value(w_cur(j), w) == f_red(main[r][j] as int));
    lemma_base(main[r][j], 0);
    lemma_products(challenges[1], challenges[1], challenges[1]);
    lemma_undo(b, b, b);
    assert(aux_combined(t, challenges[1], w, 1) == b);
}

/// The fraction of a row of a range check.
#[verifier::spinoff_prover]
#[verifier::rlimit(40)]
proof fn lemma_range_fraction(main: Seq<Seq<u64>>, pis: Seq<u64>, challenges: Seq<Ext>, r: int)
    requires
        0 <= r < main.len(),
    ensures
        aux_fraction(range_lookup(), aux_window(main, pis, r), challenges, 0, 2) == row_fraction(main[r], challenges[0]),
{
    let w = aux_window(main, pis, r);
    let v = range_lookup();
    let m = main[r][2];
    lemma_range_denominator(main, pis, challenges, r, 0);
    lemma_range_denominator(main, pis, challenges, r, 1);
    let (i, j) = (
        x_inv(x_sub(challenges[0], x_base(main[r][0]))),
        x_inv(x_sub(challenges[0], x_base(main[r][1]))),
    );
    reveal_with_fuel(aux_fraction, 3);
    reveal_with_fuel(value, 3);
    assert(value(v.multiplicities[0], w) == 1);
    assert(value(v.multiplicities[1], w) == f_sub(0, f_red(m as int)));
    lemma_base(0, f_red(m as int));
    lemma_base(m, 0);
    lemma_base(1, 0);
    lemma_products(i, x_one(), i);
    lemma_undo(x_red(i), x_zero(), x_zero());
    lemma_reduced(i, x_zero());
    let p = x_mul(j, x_base(m));
    lemma_distributes(j, x_zero(), x_base(m));
    lemma_products(j, j, j);
    // i + (0 - p) = i - p
    assert(x_add(x_red(i), x_sub(x_zero(), p)) == x_sub(i, p)) by {
        lemma_negated(i, p);
    }
}

/// a + (0 - b) = a - b.
proof fn lemma_negated(a: Ext, b: Ext)
    ensures
        x_add(x_red(a), x_sub(x_zero(), b)) == x_sub(a, b),
{
    let d = x_sub(x_zero(), b);
    // Both sides give a when b is added.
    lemma_reduced(a, d);
    lemma_undo(x_zero(), b, b);
    lemma_reduced(x_zero(), b);
    lemma_sums(a, d, b);
    lemma_undo(a, b, b);
    lemma_undo(x_add(a, d), b, b);
    lemma_undo(x_sub(a, b), b, b);
    lemma_reduced(a, b);
    lemma_reduced(x_add(a, d), b);
}

/// The aux columns that belong to a range-check trace are well formed.
#[verifier::spinoff_prover]
#[verifier::rlimit(40)]
pub proof fn law_aux_is_wellformed(
    main: Seq<Vec<u64>>,
    pis: Seq<u64>,
    challenges: Seq<Ext>,
    aux: Seq<Vec<Ext>>,
    terminal: Ext,
)
    requires
        is_aux(RangeCheckAir.system().lookups, contents(main), pis, challenges, aux, terminal),
    ensures
        wellformed(main, aux, challenges[0], terminal),
{
    let (ls, rows) = (RangeCheckAir.system().lookups, contents(main));
    assert(ls[0] == range_lookup());
    assert forall|r: int| 0 <= r < main.len() implies x_same((#[trigger] aux[r])@[1], row_fraction(main[r]@, challenges[0])) by {
        lemma_range_fraction(rows, pis, challenges, r);
        let k = 0int;
        assert(aux[r]@[k + 1] == aux_fraction(ls[k], aux_window(rows, pis, r), challenges, k, 2));
        assert(rows[r] == main[r]@);
    }
    lemma_fractions_total(rows, pis, challenges, aux, terminal, main.len());
    lemma_reduced(terminal, terminal);
}

proof fn lemma_fractions_total(
    rows: Seq<Seq<u64>>,
    pis: Seq<u64>,
    challenges: Seq<Ext>,
    aux: Seq<Vec<Ext>>,
    terminal: Ext,
    n: nat,
)
    requires
        is_aux(RangeCheckAir.system().lookups, rows, pis, challenges, aux, terminal),
        n <= rows.len(),
    ensures
        fractions_total(aux, n) == aux_sum(RangeCheckAir.system().lookups, rows, pis, challenges, n),
    decreases n,
{
    if n > 0 {
        let ls = RangeCheckAir.system().lookups;
        let w = aux_window(rows, pis, n - 1);
        lemma_fractions_total(rows, pis, challenges, aux, terminal, (n - 1) as nat);
        reveal_with_fuel(aux_total, 2);
        let (k, r) = (0int, n - 1);
        assert(aux[r]@[k + 1] == aux_fraction(ls[k], w, challenges, k, ls[k].elements.len()));
        let (f, before) = (aux[n - 1]@[1], fractions_total(aux, (n - 1) as nat));
        lemma_undo(f, f, f);
        lemma_reduced(before, f);
    }
}

/// Well-formed aux columns are forced: where every constraint of the range check's lookup vanishes on every row of a trace
/// whose values the challenge avoids, the aux columns are well formed.
#[verifier::rlimit(30)]
pub proof fn law_wellformed_is_forced(
    main: Seq<Vec<u64>>,
    pis: Seq<u64>,
    challenges: Seq<Ext>,
    aux: Seq<Vec<Ext>>,
    terminal: Ext,
)
    requires
        main.len() >= 1,
        rows_of(main, 3),
        forall|r: int| 0 <= r < main.len() ==> off_row((#[trigger] main[r])@, challenges[0]),
        aux.len() == main.len(),
        forall|r: int| 0 <= r < aux.len() ==> (#[trigger] aux[r])@.len() == 2,
        forall|r: int, c: int| 0 <= r < aux.len() && 0 <= c < 2 ==> x_red(#[trigger] aux[r]@[c]) == aux[r]@[c],
        x_red(terminal) == terminal,
        forall|r: int, i: int|
            0 <= r < main.len() && 0 <= i < 4 ==> crate::symbolic::native_ext_value(
                #[trigger] lookup_constraints(RangeCheckAir.system().lookups)[i],
                #[trigger] trace_openings(RangeCheckAir.system(), contents(main), pis, r),
                trace_lookup(aux, challenges, terminal, r),
            ) == x_zero(),
    ensures
        wellformed(main, aux, challenges[0], terminal),
{
    let (s, rows) = (RangeCheckAir.system(), contents(main));
    law_range_check_system();
    lemma_range_resolves(pis.len() as int);
    assert forall|i: int| 0 <= i < rows.len() implies (#[trigger] rows[i]).len() == s.width by {
        assert(main[i]@.len() == 3);
    }
    assert forall|r: int, k: int, j: int|
        0 <= r < rows.len() && 0 <= k < s.lookups.len() && 0 <= j < s.lookups[k].elements.len() implies !x_same(
        #[trigger] aux_denominator(s.lookups[k], aux_window(rows, pis, r), challenges, k, j),
        x_zero(),
    ) by {
        assert(off_row(main[r]@, challenges[0]));
        assert(s.lookups[k] == range_lookup());
        assert(j == 0 || j == 1);
        lemma_range_denominator(rows, pis, challenges, r, j);
    }
    assert(all_invert(s, rows, pis, challenges));
    law_lookups_force_aux(s, rows, pis, challenges, aux, terminal);
    law_aux_is_wellformed(main, pis, challenges, aux, terminal);
}

/// The lookup of the range check reads its three columns.
proof fn lemma_range_resolves(pubs: int)
    ensures
        lookup_resolves(range_lookup(), 3, pubs),
{
    let v = range_lookup();
    reveal_with_fuel(crate::expr::within, 3);
    assert forall|j: int, i: int| 0 <= j < v.elements.len() && 0 <= i < v.elements[j].len() implies crate::expr::within(
        #[trigger] v.elements[j][i],
        3,
        0,
        pubs,
    ) by {
        assert(j == 0 || j == 1);
        assert(i == 0);
    }
}

/// The range check meets what the quotient's length is counted by: its lookup reads cells alone, its constraints multiply
/// by the transition selector at most once, and over columns of `n` coefficients they have at most 3 n - 1.
#[verifier::rlimit(30)]
pub proof fn law_range_check_fits(n: nat, pubs: int)
    requires
        n >= 1,
    ensures
        lookups_read_cells(RangeCheckAir.system(), pubs),
        transitions_within(RangeCheckAir.system(), 1),
        constraints_fit(RangeCheckAir.system(), n, (3 * n - 1) as nat),
{
    let s = RangeCheckAir.system();
    let v = range_lookup();
    law_range_check_system();
    lemma_range_resolves(pubs);
    reveal_with_fuel(reads_cells, 3);
    assert forall|j: int, i: int| 0 <= j < v.elements.len() && 0 <= i < v.elements[j].len() implies reads_cells(
        #[trigger] v.elements[j][i],
    ) by {
        assert(j == 0 || j == 1);
        assert(i == 0);
    }
    assert(lookup_reads_cells(v));
    assert forall|k: int| 0 <= k < s.lookups.len() implies lookup_reads_cells(#[trigger] s.lookups[k]) by {
        assert(s.lookups[k] == v);
    }
    assert forall|i: int| 0 <= i < lookup_constraints(s.lookups).len() implies tree_transitions(
        #[trigger] lookup_constraints(s.lookups)[i],
    ) <= 1 by {
        law_lookup_transitions(s, i);
    }
    law_constraints_fit_by_degree(s, n, 1);
    assert(len_of(3, 1, n) == 3 * n - 1);
}

} // verus!
