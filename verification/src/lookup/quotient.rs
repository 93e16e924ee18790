//! The batched constraints of a system with lookups at a point, and the quotient over its domain.

use p3_commit::PolynomialSpace;
use p3_field::coset::TwoAdicMultiplicativeCoset;
use p3_field::{Field, PrimeCharacteristicRing, PrimeField64};
use p3_goldilocks::Goldilocks;
use vstd::arithmetic::power2::pow2;
use vstd::prelude::*;

use crate::bits::shifted_one;
use crate::expr::{Expr, Wire};
use crate::field::{
    exp_u64, f_inv, f_mul, f_pow, f_red, f_square_times, f_sub, fmul, two_adic_root, x_add, x_base, x_mul,
    Ext, GENERATOR, MODULUS, TWO_ADICITY,
};
use crate::fri::merkle::contents;
use crate::lookup::air::{
    lookup_constraints, lookup_trees, lookup_views, reads_in, system_reads, system_shaped, ExtWire, Lookup, LookupAir,
    SystemView,
};
use crate::lookup::exact::{domain_roots, exact, exact_if_honest, honest, law_quotient_is_exact, Columns};
use crate::prime::law_no_zero_divisors;
use crate::stark::domain::{periodic_column_at, periodic_value};
use crate::stark::verify::{folded_constraints, log_period};
use crate::symbolic::{
    eval_symbolic_ext_native, native_ext_value, ExtExpr, NativeLookup, NativeLookupView, NativeOpenings, NativeView,
};

verus! {

/// The first `n` lookup trees, folded on under alpha after `acc`.
pub open spec fn folded_trees(trees: Seq<ExtWire>, o: NativeView, l: NativeLookupView, alpha: Ext, acc: Ext, n: nat) -> Ext
    decreases n,
{
    if n == 0 {
        acc
    } else {
        x_add(
            x_mul(folded_trees(trees, o, l, alpha, acc, (n - 1) as nat), alpha),
            native_ext_value(trees[n - 1], o, l),
        )
    }
}

/// The batched constraints of a system at openings: its own constraints first, then those of its lookups, folded
/// under alpha.
pub open spec fn batched(s: SystemView, o: NativeView, l: NativeLookupView, alpha: Ext) -> Ext {
    let trees = lookup_constraints(s.lookups);
    folded_trees(
        trees,
        o,
        l,
        alpha,
        folded_constraints(s.constraints, o, alpha, s.constraints.len()),
        trees.len(),
    )
}

/// The openings cover a system: its row pair, public values and periodic columns, and its lookups' aux columns,
/// challenges and terminal.
pub open spec fn covers(s: SystemView, o: NativeView, l: NativeLookupView) -> bool {
    &&& s.width == o.local.len()
    &&& s.width == o.next.len()
    &&& s.pubs <= o.pubs.len()
    &&& s.periodic.len() == o.periodic.len()
    &&& s.lookups.len() + 1 <= l.perm_local.len()
    &&& s.lookups.len() + 1 <= l.perm_next.len()
    &&& 2 * s.lookups.len() <= l.challenges.len()
    &&& 1 <= l.perm_values.len()
}

/// What reads within few public values reads within more.
proof fn lemma_reads_grow(e: Wire, base: (int, int, int, int), pubs: int)
    requires
        crate::symbolic::readable(e, base.0, base.1, base.2, base.3),
        base.2 <= pubs,
    ensures
        crate::symbolic::readable(e, base.0, base.1, pubs, base.3),
    decreases e,
{
    match *e {
        Expr::Sum(a, b) => {
            lemma_reads_grow(a, base, pubs);
            lemma_reads_grow(b, base, pubs);
        },
        Expr::Difference(a, b) => {
            lemma_reads_grow(a, base, pubs);
            lemma_reads_grow(b, base, pubs);
        },
        Expr::Negation(a) => {
            lemma_reads_grow(a, base, pubs);
        },
        Expr::Product(a, b) => {
            lemma_reads_grow(a, base, pubs);
            lemma_reads_grow(b, base, pubs);
        },
        _ => {},
    }
}

/// What reads within few public values and aux cells reads within more.
proof fn lemma_tree_reads_grow(
    e: ExtWire,
    base: (int, int, int, int),
    w: int,
    ch: int,
    pubs: int,
    local: int,
    next: int,
    challenges: int,
    values: int,
)
    requires
        crate::symbolic::ext_readable(e, base, w, w, ch, 1),
        base.2 <= pubs,
        w <= local,
        w <= next,
        ch <= challenges,
        1 <= values,
    ensures
        crate::symbolic::ext_readable(e, (base.0, base.1, pubs, base.3), local, next, challenges, values),
    decreases e,
{
    match *e {
        ExtExpr::Sum(a, b) => {
            lemma_tree_reads_grow(a, base, w, ch, pubs, local, next, challenges, values);
            lemma_tree_reads_grow(b, base, w, ch, pubs, local, next, challenges, values);
        },
        ExtExpr::Difference(a, b) => {
            lemma_tree_reads_grow(a, base, w, ch, pubs, local, next, challenges, values);
            lemma_tree_reads_grow(b, base, w, ch, pubs, local, next, challenges, values);
        },
        ExtExpr::Negation(a) => {
            lemma_tree_reads_grow(a, base, w, ch, pubs, local, next, challenges, values);
        },
        ExtExpr::Product(a, b) => {
            lemma_tree_reads_grow(a, base, w, ch, pubs, local, next, challenges, values);
            lemma_tree_reads_grow(b, base, w, ch, pubs, local, next, challenges, values);
        },
        ExtExpr::Base(b) => {
            lemma_reads_grow(b, base, pubs);
        },
        _ => {},
    }
}

/// Fold a system's constraints at openings.
pub(crate) fn fold_system(
    base: &Vec<Wire>,
    trees: &Vec<ExtWire>,
    o: &NativeOpenings,
    l: &NativeLookup,
    alpha: Ext,
    Ghost(s): Ghost<SystemView>,
) -> (r: Ext)
    requires
        system_shaped(s),
        system_reads(s),
        base@ == s.constraints,
        trees@ == lookup_constraints(s.lookups),
        covers(s, o@, l@),
    ensures
        r == batched(s, o@, l@, alpha),
{
    proof {
        assert forall|i: int| 0 <= i < base@.len() implies o@.reads(#[trigger] base@[i]) by {
            assert(reads_in(s, s.constraints[i]));
            lemma_reads_grow(
                s.constraints[i],
                (s.width as int, s.width as int, s.pubs as int, s.periodic.len() as int),
                o@.pubs.len() as int,
            );
        }
    }
    let mut acc: Ext = crate::stark::verify::fold_constraints(base, o, alpha);
    let ghost start = acc;
    let mut i: usize = 0;
    while i < trees.len()
        invariant
            i <= trees@.len(),
            system_shaped(s),
            system_reads(s),
            trees@ == lookup_constraints(s.lookups),
            covers(s, o@, l@),
            acc == folded_trees(trees@, o@, l@, alpha, start, i as nat),
        decreases trees.len() - i,
    {
        proof {
            crate::lookup::air::law_lookup_constraints_read(s, i as int);
            lemma_tree_reads_grow(
                trees@[i as int],
                (s.width as int, s.width as int, s.pubs as int, s.periodic.len() as int),
                s.lookups.len() as int + 1,
                2 * s.lookups.len() as int,
                o@.pubs.len() as int,
                l@.perm_local.len() as int,
                l@.perm_next.len() as int,
                l@.challenges.len() as int,
                l@.perm_values.len() as int,
            );
        }
        acc = acc.times(alpha).plus(eval_symbolic_ext_native(&trees[i], o, l));
        i += 1;
    }
    acc
}

/// The batched constraints of a system at openings. The quotient at every point of its domain and the identity at
/// the drawn point both fold in this way.
pub fn batched_constraints_at_point<A: LookupAir>(air: &A, o: &NativeOpenings, l: &NativeLookup, alpha: Ext) -> (r: Ext)
    requires
        system_shaped(air.system()),
        system_reads(air.system()),
        covers(air.system(), o@, l@),
    ensures
        r == batched(air.system(), o@, l@, alpha),
{
    let base: Vec<Wire> = air.constraints();
    let lookups: Vec<Lookup> = air.lookups();
    let n: usize = lookups.len();
    assert(lookup_views(lookups@).len() == n);
    let trees: Vec<ExtWire> = lookup_trees(&lookups);
    fold_system(&base, &trees, o, l, alpha, Ghost(air.system()))
}

/// A point of the quotient domain: the coset shift times w^i, w of order 2^log_q.
pub open spec fn quotient_point(log_q: nat, i: nat) -> u64 {
    f_mul(GENERATOR, f_pow(two_adic_root(log_q), i))
}

/// The trace domain's vanishing polynomial at a base point.
pub open spec fn base_vanishing(x: u64, log_n: nat) -> u64 {
    f_sub(f_square_times(x, log_n), 1)
}

/// The trace domain's selectors at all points of the quotient domain.
pub struct CosetSelectors {
    pub is_first_row: Vec<u64>,
    pub is_last_row: Vec<u64>,
    pub is_transition: Vec<u64>,
    pub inv_vanishing: Vec<u64>,
}

/// `PolynomialSpace::selectors_on_coset` of `TwoAdicMultiplicativeCoset`, for the subgroup of order 2^log_n over the
/// coset of order 2^log_q with the field's generator as its shift: at each point x, the vanishing polynomial over
/// x - 1 and over x - g^-1, the difference x - g^-1, and the inverse of the vanishing polynomial, which has no
/// root on the coset. It panics where the coset is smaller than the subgroup.
#[verifier::external_body]
pub(crate) fn coset_selectors(log_n: usize, log_q: usize) -> (r: CosetSelectors)
    requires
        log_n <= log_q <= TWO_ADICITY,
        pow2(log_q as nat) <= usize::MAX,
    ensures
        r.is_first_row@ == Seq::new(
            pow2(log_q as nat),
            |i: int|
                {
                    let x = quotient_point(log_q as nat, i as nat);
                    f_mul(base_vanishing(x, log_n as nat), f_inv(f_sub(x, 1)))
                },
        ),
        r.is_last_row@ == Seq::new(
            pow2(log_q as nat),
            |i: int|
                {
                    let x = quotient_point(log_q as nat, i as nat);
                    f_mul(base_vanishing(x, log_n as nat), f_inv(f_sub(x, f_inv(two_adic_root(log_n as nat)))))
                },
        ),
        r.is_transition@ == Seq::new(
            pow2(log_q as nat),
            |i: int| f_sub(quotient_point(log_q as nat, i as nat), f_inv(two_adic_root(log_n as nat))),
        ),
        r.inv_vanishing@ == Seq::new(
            pow2(log_q as nat),
            |i: int| f_inv(base_vanishing(quotient_point(log_q as nat, i as nat), log_n as nat)),
        ),
{
    let trace = TwoAdicMultiplicativeCoset::new(Goldilocks::ONE, log_n).unwrap();
    let coset = TwoAdicMultiplicativeCoset::new(Goldilocks::GENERATOR, log_q).unwrap();
    let s = trace.selectors_on_coset(coset);
    let plain = |v: Vec<Goldilocks>| v.iter().map(|x| x.as_canonical_u64()).collect();
    CosetSelectors {
        is_first_row: plain(s.is_first_row),
        is_last_row: plain(s.is_last_row),
        is_transition: plain(s.is_transition),
        inv_vanishing: plain(s.inv_vanishing),
    }
}

/// A base row in the extension.
pub open spec fn lifted(row: Seq<u64>) -> Seq<Ext> {
    Seq::new(row.len(), |i: int| x_base(row[i]))
}

/// An aux row from its coordinates: column `c` from cells 2c and 2c + 1.
pub open spec fn paired_row(row: Seq<u64>) -> Seq<Ext> {
    Seq::new((row.len() / 2) as nat, |c: int| Ext { c0: row[2 * c], c1: row[2 * c + 1] })
}

/// The row that follows `i` on the quotient domain: one trace step ahead, around the end.
pub open spec fn next_index(i: int, log_n: nat, log_q: nat) -> int {
    (i + pow2((log_q - log_n) as nat)) % pow2(log_q) as int
}

/// A power of a residue that is not zero is not zero.
proof fn lemma_power_nonzero(w: u64, i: nat)
    requires
        0 < w < MODULUS,
    ensures
        f_red(f_pow(w, i) as int) != 0,
    decreases i,
{
    if i > 0 {
        lemma_power_nonzero(w, (i - 1) as nat);
        law_no_zero_divisors(f_pow(w, (i - 1) as nat), w);
    }
}

/// A point of the quotient domain is not zero.
proof fn lemma_point_nonzero(w: u64, i: nat)
    requires
        0 < w < MODULUS,
    ensures
        f_red(f_mul(GENERATOR, f_pow(w, i)) as int) != 0,
{
    lemma_power_nonzero(w, i);
    law_no_zero_divisors(GENERATOR, f_pow(w, i));
}

/// The periodic columns at a point of the quotient domain.
pub open spec fn periodic_row(s: SystemView, log_n: nat, log_q: nat, i: int) -> Seq<Ext> {
    Seq::new(
        s.periodic.len(),
        |c: int|
            periodic_value(
                s.periodic[c],
                log_period(s.periodic[c]),
                log_n,
                x_base(quotient_point(log_q, i as nat)),
            ),
    )
}

/// What the constraints read at a point of the quotient domain.
pub open spec fn quotient_openings(
    s: SystemView,
    log_n: nat,
    log_q: nat,
    trace: Seq<Seq<u64>>,
    pis: Seq<u64>,
    i: int,
) -> NativeView {
    let x = quotient_point(log_q, i as nat);
    let g_inv = f_inv(two_adic_root(log_n));
    let z = base_vanishing(x, log_n);
    NativeView {
        local: lifted(trace[i]),
        next: lifted(trace[next_index(i, log_n, log_q)]),
        pubs: lifted(pis),
        periodic: periodic_row(s, log_n, log_q, i),
        is_first: x_base(f_mul(z, f_inv(f_sub(x, 1)))),
        is_last: x_base(f_mul(z, f_inv(f_sub(x, g_inv)))),
        is_trans: x_base(f_sub(x, g_inv)),
    }
}

/// What the lookup trees read besides.
pub open spec fn quotient_lookup(
    log_n: nat,
    log_q: nat,
    aux: Seq<Seq<u64>>,
    challenges: Seq<Ext>,
    terminal: Ext,
    i: int,
) -> NativeLookupView {
    NativeLookupView {
        perm_local: paired_row(aux[i]),
        perm_next: paired_row(aux[next_index(i, log_n, log_q)]),
        challenges,
        perm_values: seq![terminal],
    }
}

/// The quotient at a point of its domain: the batched constraints over the vanishing polynomial.
pub open spec fn quotient_at(
    s: SystemView,
    log_n: nat,
    log_q: nat,
    trace: Seq<Seq<u64>>,
    aux: Seq<Seq<u64>>,
    alpha: Ext,
    challenges: Seq<Ext>,
    terminal: Ext,
    pis: Seq<u64>,
    i: int,
) -> Ext {
    x_mul(
        batched(
            s,
            quotient_openings(s, log_n, log_q, trace, pis, i),
            quotient_lookup(log_n, log_q, aux, challenges, terminal, i),
            alpha,
        ),
        x_base(f_inv(base_vanishing(quotient_point(log_q, i as nat), log_n))),
    )
}

/// Every row has the given width.
pub open spec fn rows_of(rows: Seq<Vec<u64>>, width: nat) -> bool {
    forall|i: int| 0 <= i < rows.len() ==> (#[trigger] rows[i])@.len() == width
}

fn lift_row(row: &Vec<u64>) -> (r: Vec<Ext>)
    ensures
        r@ == lifted(row@),
{
    let mut r: Vec<Ext> = Vec::new();
    let mut i: usize = 0;
    while i < row.len()
        invariant
            i <= row@.len(),
            r@ =~= lifted(row@).take(i as int),
        decreases row.len() - i,
    {
        r.push(Ext::from_base(row[i]));
        i += 1;
    }
    assert(r@ =~= lifted(row@));
    r
}

fn pair_row(row: &Vec<u64>) -> (r: Vec<Ext>)
    ensures
        r@ == paired_row(row@),
{
    let len: usize = row.len();
    let n: usize = len / 2;
    let mut r: Vec<Ext> = Vec::new();
    let mut c: usize = 0;
    while c < n
        invariant
            c <= n,
            len == row@.len(),
            n == len / 2,
            r@ =~= paired_row(row@).take(c as int),
        decreases n - c,
    {
        r.push(Ext { c0: row[2 * c], c1: row[2 * c + 1] });
        c += 1;
    }
    assert(r@ =~= paired_row(row@));
    r
}

/// The quotient at all points of its domain.
pub open spec fn quotient_values_of(
    s: SystemView,
    log_n: nat,
    log_q: nat,
    trace: Seq<Seq<u64>>,
    aux: Seq<Seq<u64>>,
    alpha: Ext,
    challenges: Seq<Ext>,
    terminal: Ext,
    pis: Seq<u64>,
) -> Seq<Ext> {
    Seq::new(pow2(log_q), |i: int| quotient_at(s, log_n, log_q, trace, aux, alpha, challenges, terminal, pis, i))
}

/// The quotient of a system over its domain of 2^log_q points, for a trace of 2^log_n rows: from the trace and the
/// aux columns (in coordinates) on that domain, the batched constraints at each point over the vanishing
/// polynomial. Where the columns are polynomials whose constraints vanish on the trace domain, it is exact.
pub fn lookup_quotient_values<A: LookupAir>(
    air: &A,
    log_n: usize,
    log_q: usize,
    trace: &Vec<Vec<u64>>,
    aux: &Vec<Vec<u64>>,
    alpha: Ext,
    challenges: &Vec<Ext>,
    terminal: Ext,
    pis: &Vec<u64>,
) -> (out: Vec<Ext>)
    requires
        system_shaped(air.system()),
        system_reads(air.system()),
        log_n <= log_q <= TWO_ADICITY,
        2 * pow2(log_q as nat) <= usize::MAX,
        trace@.len() == pow2(log_q as nat),
        aux@.len() == pow2(log_q as nat),
        rows_of(trace@, air.system().width),
        rows_of(aux@, (2 * (air.system().lookups.len() + 1)) as nat),
        2 * air.system().lookups.len() <= challenges@.len(),
        air.system().pubs <= pis@.len(),
        forall|c: int|
            0 <= c < air.system().periodic.len() ==> (#[trigger] air.system().periodic[c]).len() <= pow2(log_n as nat),
    ensures
        out@ == quotient_values_of(
            air.system(),
            log_n as nat,
            log_q as nat,
            contents(trace@),
            contents(aux@),
            alpha,
            challenges@,
            terminal,
            pis@,
        ),
        exact_if_honest(
            air.system(),
            log_n as nat,
            log_q as nat,
            contents(trace@),
            contents(aux@),
            pis@,
            challenges@,
            terminal,
            alpha,
            out@,
        ),
{
    let ghost s = air.system();
    let base: Vec<Wire> = air.constraints();
    let lookups: Vec<Lookup> = air.lookups();
    let n_lookups: usize = lookups.len();
    assert(lookup_views(lookups@).len() == n_lookups);
    let trees: Vec<ExtWire> = lookup_trees(&lookups);
    let periodic: Vec<Vec<u64>> = air.periodic_columns();
    assert(contents(periodic@).len() == periodic@.len());
    let sels: CosetSelectors = coset_selectors(log_n, log_q);
    let (g, w): (u64, u64) = domain_roots(log_n, log_q);
    proof {
        crate::bits::lemma_pow2_monotone((log_q - log_n) as nat, log_q as nat);
    }
    let size: usize = shifted_one(log_q);
    let step: usize = shifted_one(log_q - log_n);
    let mut out: Vec<Ext> = Vec::new();
    let mut i: usize = 0;
    while i < size
        invariant
            i <= size,
            size == pow2(log_q as nat),
            step == pow2((log_q - log_n) as nat),
            step <= size,
            2 * size <= usize::MAX,
            s == air.system(),
            system_shaped(s),
            system_reads(s),
            log_n <= log_q <= TWO_ADICITY,
            base@ == s.constraints,
            trees@ == lookup_constraints(s.lookups),
            contents(periodic@) == s.periodic,
            periodic@.len() == s.periodic.len(),
            w == two_adic_root(log_q as nat),
            0 < w < MODULUS,
            trace@.len() == size,
            aux@.len() == size,
            rows_of(trace@, s.width),
            rows_of(aux@, (2 * (s.lookups.len() + 1)) as nat),
            2 * s.lookups.len() <= challenges@.len(),
            s.pubs <= pis@.len(),
            forall|c: int| 0 <= c < s.periodic.len() ==> (#[trigger] s.periodic[c]).len() <= pow2(log_n as nat),
            sels.is_first_row@ == Seq::new(
                pow2(log_q as nat),
                |k: int|
                    {
                        let x = quotient_point(log_q as nat, k as nat);
                        f_mul(base_vanishing(x, log_n as nat), f_inv(f_sub(x, 1)))
                    },
            ),
            sels.is_last_row@ == Seq::new(
                pow2(log_q as nat),
                |k: int|
                    {
                        let x = quotient_point(log_q as nat, k as nat);
                        f_mul(base_vanishing(x, log_n as nat), f_inv(f_sub(x, f_inv(two_adic_root(log_n as nat)))))
                    },
            ),
            sels.is_transition@ == Seq::new(
                pow2(log_q as nat),
                |k: int| f_sub(quotient_point(log_q as nat, k as nat), f_inv(two_adic_root(log_n as nat))),
            ),
            sels.inv_vanishing@ == Seq::new(
                pow2(log_q as nat),
                |k: int| f_inv(base_vanishing(quotient_point(log_q as nat, k as nat), log_n as nat)),
            ),
            out@.len() == i,
            forall|k: int|
                0 <= k < i ==> #[trigger] out@[k] == quotient_at(
                    s,
                    log_n as nat,
                    log_q as nat,
                    contents(trace@),
                    contents(aux@),
                    alpha,
                    challenges@,
                    terminal,
                    pis@,
                    k,
                ),
        decreases size - i,
    {
        let following: usize = (i + step) % size;
        let x: u64 = fmul(GENERATOR, exp_u64(w, i as u64));
        proof {
            lemma_point_nonzero(w, i as nat);
        }
        let per: Vec<Ext> = periodic_at_point(&periodic, log_n, log_q, x, i, Ghost(s));
        let mut values: Vec<Ext> = Vec::new();
        values.push(terminal);
        let o: NativeOpenings = NativeOpenings {
            local: lift_row(&trace[i]),
            next: lift_row(&trace[following]),
            pubs: lift_row(pis),
            periodic: per,
            is_first: Ext::from_base(sels.is_first_row[i]),
            is_last: Ext::from_base(sels.is_last_row[i]),
            is_trans: Ext::from_base(sels.is_transition[i]),
        };
        let l: NativeLookup = NativeLookup {
            perm_local: pair_row(&aux[i]),
            perm_next: pair_row(&aux[following]),
            challenges: crate::stark::verify::copy_exts(challenges),
            perm_values: values,
        };
        proof {
            assert(trace@[i as int]@.len() == s.width);
            assert(trace@[following as int]@.len() == s.width);
            assert(aux@[i as int]@.len() == 2 * (s.lookups.len() + 1));
            assert(aux@[following as int]@.len() == 2 * (s.lookups.len() + 1));
            assert(o@ =~= quotient_openings(s, log_n as nat, log_q as nat, contents(trace@), pis@, i as int));
            assert(l@ =~= quotient_lookup(
                log_n as nat,
                log_q as nat,
                contents(aux@),
                challenges@,
                terminal,
                i as int,
            ));
        }
        let folded: Ext = fold_system(&base, &trees, &o, &l, alpha, Ghost(s));
        out.push(folded.times(Ext::from_base(sels.inv_vanishing[i])));
        i += 1;
    }
    proof {
        let want = quotient_values_of(
            air.system(),
            log_n as nat,
            log_q as nat,
            contents(trace@),
            contents(aux@),
            alpha,
            challenges@,
            terminal,
            pis@,
        );
        assert(out@ =~= want);
        let (k, l) = (log_n as nat, log_q as nat);
        reveal(exact_if_honest);
        assert forall|h: Columns, d: nat|
            #[trigger] honest(s, h, k, l, contents(trace@), contents(aux@), pis@, challenges@, terminal, alpha, d) implies exists|
            q: Seq<Ext>,
        | #[trigger] exact(s, h, k, l, pis@, challenges@, terminal, alpha, d, out@, q) by {
            let q = law_quotient_is_exact(
                s,
                h,
                k,
                l,
                contents(trace@),
                contents(aux@),
                pis@,
                challenges@,
                terminal,
                alpha,
                d,
                out@,
                g,
                w,
            );
        }
    }
    out
}

/// The periodic columns at a point of the quotient domain.
fn periodic_at_point(
    periodic: &Vec<Vec<u64>>,
    log_n: usize,
    log_q: usize,
    x: u64,
    i: usize,
    Ghost(s): Ghost<SystemView>,
) -> (r: Vec<Ext>)
    requires
        contents(periodic@) == s.periodic,
        system_reads(s),
        log_n <= TWO_ADICITY,
        x == quotient_point(log_q as nat, i as nat),
        f_red(x as int) != 0,
        forall|c: int| 0 <= c < s.periodic.len() ==> (#[trigger] s.periodic[c]).len() <= pow2(log_n as nat),
    ensures
        r@ == periodic_row(s, log_n as nat, log_q as nat, i as int),
{
    let mut r: Vec<Ext> = Vec::new();
    let mut c: usize = 0;
    assert(contents(periodic@).len() == periodic@.len());
    while c < periodic.len()
        invariant
            c <= periodic@.len(),
            contents(periodic@) == s.periodic,
            periodic@.len() == s.periodic.len(),
            system_reads(s),
            log_n <= TWO_ADICITY,
            x == quotient_point(log_q as nat, i as nat),
            f_red(x as int) != 0,
            forall|k: int| 0 <= k < s.periodic.len() ==> (#[trigger] s.periodic[k]).len() <= pow2(log_n as nat),
            r@ =~= periodic_row(s, log_n as nat, log_q as nat, i as int).take(c as int),
        decreases periodic.len() - c,
    {
        proof {
            let col = s.periodic[c as int];
            assert(contents(periodic@)[c as int] == periodic@[c as int]@);
            let e = log_period(col);
            assert(col.len() == pow2(e));
            if e > log_n {
                vstd::arithmetic::power2::lemma_pow2_strictly_increases(log_n as nat, e);
            }
        }
        r.push(periodic_column_at(&periodic[c], log_n, Ext::from_base(x)));
        c += 1;
    }
    assert(r@ =~= periodic_row(s, log_n as nat, log_q as nat, i as int));
    r
}

} // verus!
