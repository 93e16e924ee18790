//! What an honest prover of a lookup argument achieves: its columns satisfy the constraints on the trace domain, and its
//! proof is accepted.

use vstd::arithmetic::power2::pow2;
use vstd::prelude::*;

use crate::expr::{value, within, Expr, Window, Wire};
use crate::field::{
    f_inv, f_mul, f_pow, f_red, f_sub, lemma_mul_one, lemma_pow_add, lemma_pow_canonical, lemma_pow_pow,
    lemma_square_times_pow, two_adic_root, x_base, x_inv, x_mul, x_one, x_red, x_same, x_sub, x_zero, Ext,
};
use crate::fri::fold::{lagrange_terms, lagrange_weight};
use crate::lookup::air::{log_quotient_chunks, system_degree, system_reads, system_shaped, SystemView};
use crate::lookup::argument::{flag, law_batched_vanishes, lookup_agrees, opens_row, trace_lookup, trace_openings};
use crate::lookup::balance::{balances, law_balanced_lookups_end_in_zero};
use crate::lookup::chunks::{law_chunks_recompose, lemma_recomposed, splits};
use crate::lookup::columns::{aux_defined, aux_window, is_aux, lookup_resolves};
use crate::lookup::degree::{
    constraints_fit, law_constraints_fit_by_degree, law_lookup_degree, law_quotient_fits_chunks, len_of, lookup_reads_cells,
    reads_cells, transitions_within,
};
use crate::lookup::exact::{
    batched_at, columns_shaped, lemma_coset_off, lemma_ends, lemma_inverse, law_quotient_exists, opened_at, read_at,
    roots_nest, values_at, vanishes_on_trace, Columns,
};
use crate::lookup::quotient::{lifted, quotient_point};
use crate::lookup::verify::{
    error_after, joined_coordinates, log_chunks, lookup_alpha, lookup_challenges, lookup_identity, lookup_openings,
    lookup_reads_at, lookup_zeta, LookupProof,
};
use crate::poly::{lemma_at_reduced, p_at};
use crate::prime::law_extension_is_a_field;
use crate::ring::{lemma_base, lemma_products, lemma_reduced, lemma_undo};
use crate::stark::domain::{
    chunk_value, last_point, lemma_one_pow, lemma_square_times_base, lemma_square_times_same, next_point,
    periodic_value, subgroup, vanishing,
};
use crate::stark::subgroup::{is_root, lemma_powers_differ, lemma_selector, lemma_vanishes_on_points};
use crate::stark::verify::log_period;
use crate::symbolic::{native_value, NativeView};

verus! {

/// The columns have the values of a trace and of its aux columns on the trace domain.
pub open spec fn interpolates(h: Columns, k: nat, main: Seq<Seq<u64>>, aux: Seq<Vec<Ext>>) -> bool {
    &&& main.len() == pow2(k)
    &&& aux.len() == pow2(k)
    &&& forall|r: int|
        0 <= r < main.len() ==> values_at(h.trace, x_base(f_pow(two_adic_root(k), r as nat))) == lifted(#[trigger] main[r])
    &&& forall|r: int|
        0 <= r < aux.len() ==> values_at(h.aux, x_base(f_pow(two_adic_root(k), r as nat))) == (#[trigger] aux[r])@
}

/// The point that follows on the trace domain.
#[verifier::rlimit(30)]
proof fn lemma_next_on_trace(g: u64, k: nat, r: int)
    requires
        g == two_adic_root(k),
        is_root(g, k),
        0 <= r < pow2(k),
    ensures
        next_point(x_base(f_pow(g, r as nat)), k) == x_base(f_pow(g, ((r + 1) % (pow2(k) as int)) as nat)),
        0 <= (r + 1) % (pow2(k) as int) < pow2(k),
{
    let n = pow2(k) as int;
    lemma_base(f_pow(g, r as nat), g);
    assert(f_pow(g, (r + 1) as nat) == f_mul(f_pow(g, r as nat), g)) by {
        assert(((r + 1) as nat - 1) as nat == r as nat);
    }
    if r + 1 < n {
        vstd::arithmetic::div_mod::lemma_small_mod((r + 1) as nat, n as nat);
    } else {
        vstd::arithmetic::div_mod::lemma_mod_self_0(n);
        lemma_square_times_pow(g, k);
        assert(f_pow(g, 0) == 1);
    }
}

/// What is opened on the trace domain: the row pair, and selectors that are zero where they do not select.
#[verifier::spinoff_prover]
#[verifier::rlimit(40)]
proof fn lemma_opened_on_trace(
    s: SystemView,
    h: Columns,
    k: nat,
    main: Seq<Seq<u64>>,
    aux: Seq<Vec<Ext>>,
    pis: Seq<u64>,
    challenges: Seq<Ext>,
    terminal: Ext,
    g: u64,
    r: int,
)
    requires
        g == two_adic_root(k),
        is_root(g, k),
        interpolates(h, k, main, aux),
        0 <= r < main.len(),
    ensures
        ({
            let n = main.len() as int;
            let x = x_base(f_pow(g, r as nat));
            let o = opened_at(s, h, k, pis, x);
            &&& o.local == lifted(main[r])
            &&& o.next == lifted(main[(r + 1) % n])
            &&& o.pubs == lifted(pis)
            &&& r != 0 ==> x_red(o.is_first) == x_zero()
            &&& r != n - 1 ==> x_red(o.is_last) == x_zero()
            &&& r == n - 1 ==> x_red(o.is_trans) == x_zero()
            &&& read_at(h, k, challenges, terminal, x) == trace_lookup(aux, challenges, terminal, r)
        }),
{
    let n = main.len() as int;
    let x = x_base(f_pow(g, r as nat));
    let o = opened_at(s, h, k, pis, x);
    let m = (n - 1) as nat;
    lemma_next_on_trace(g, k, r);
    let j = (r + 1) % n;
    assert(values_at(h.trace, x_base(f_pow(two_adic_root(k), r as nat))) == lifted(main[r]));
    assert(values_at(h.trace, x_base(f_pow(two_adic_root(k), j as nat))) == lifted(main[j]));
    assert(values_at(h.aux, x_base(f_pow(two_adic_root(k), r as nat))) == aux[r]@);
    assert(values_at(h.aux, x_base(f_pow(two_adic_root(k), j as nat))) == aux[j]@);
    assert(f_red(g as int) == g);
    lemma_inverse(g);
    lemma_ends(k, g);
    lemma_vanishes_on_points(g, k, r as nat);
    lemma_base(f_pow(g, r as nat), 0);
    lemma_base(f_pow(g, m), 0);
    lemma_pow_canonical(g, r as nat);
    lemma_pow_canonical(g, m);
    lemma_reduced(x_zero(), x_zero());
    lemma_reduced(x_one(), x_one());
    if r != 0 {
        lemma_powers_differ(g, k, 0, r as nat);
        assert(f_pow(g, 0) == 1);
        lemma_base(1, 0);
        lemma_selector(k, x_one(), x);
    }
    if r != n - 1 {
        lemma_powers_differ(g, k, r as nat, m);
        lemma_selector(k, last_point(k), x);
    } else {
        lemma_undo(x, x, x);
    }
    assert(read_at(h, k, challenges, terminal, x) =~= trace_lookup(aux, challenges, terminal, r));
}

/// An expression over cells on lifted values is its lifted value.
#[verifier::rlimit(30)]
proof fn lemma_cells_lift(e: Wire, w: Window, o: NativeView, width: int, pubs: int)
    requires
        reads_cells(e),
        within(e, width, 0, pubs),
        width <= w.cur.len(),
        width <= w.nxt.len(),
        pubs <= w.publics.len(),
        o.local == lifted(w.cur),
        o.next == lifted(w.nxt),
        o.pubs == lifted(w.publics),
    ensures
        native_value(e, o) == x_base(value(e, w)),
    decreases e,
{
    match *e {
        Expr::Cur(i) => {
            lemma_base(w.cur[i as int], 0);
        },
        Expr::Nxt(i) => {
            lemma_base(w.nxt[i as int], 0);
        },
        Expr::Public(i) => {
            lemma_base(w.publics[i as int], 0);
        },
        Expr::Const(c) => {
            lemma_base(c, 0);
        },
        Expr::Sum(a, b) => {
            lemma_cells_lift(a, w, o, width, pubs);
            lemma_cells_lift(b, w, o, width, pubs);
            lemma_base(value(a, w), value(b, w));
        },
        Expr::Difference(a, b) => {
            lemma_cells_lift(a, w, o, width, pubs);
            lemma_cells_lift(b, w, o, width, pubs);
            lemma_base(value(a, w), value(b, w));
        },
        Expr::Negation(a) => {
            lemma_cells_lift(a, w, o, width, pubs);
            lemma_base(0, value(a, w));
        },
        Expr::Product(a, b) => {
            lemma_cells_lift(a, w, o, width, pubs);
            lemma_cells_lift(b, w, o, width, pubs);
            lemma_base(value(a, w), value(b, w));
        },
        _ => {},
    }
}

/// A system whose lookups read the row pair and the public values alone.
pub open spec fn lookups_read_cells(s: SystemView, pubs: int) -> bool {
    forall|j: int|
        0 <= j < s.lookups.len() ==> lookup_resolves(#[trigger] s.lookups[j], s.width as int, pubs)
            && lookup_reads_cells(s.lookups[j])
}

/// The aux columns of a trace, interpolated with it, make the batched constraints vanish on the trace domain, where the
/// system's own constraints do.
#[verifier::spinoff_prover]
#[verifier::rlimit(40)]
pub proof fn law_interpolated_trace_vanishes(
    s: SystemView,
    h: Columns,
    k: nat,
    main: Seq<Seq<u64>>,
    aux: Seq<Vec<Ext>>,
    pis: Seq<u64>,
    challenges: Seq<Ext>,
    terminal: Ext,
    alpha: Ext,
    g: u64,
)
    requires
        g == two_adic_root(k),
        is_root(g, k),
        system_shaped(s),
        lookups_read_cells(s, pis.len() as int),
        forall|i: int| 0 <= i < main.len() ==> (#[trigger] main[i]).len() == s.width,
        aux_defined(s, main, pis, challenges),
        is_aux(s.lookups, main, pis, challenges, aux, terminal),
        interpolates(h, k, main, aux),
        own_vanish(s, h, k, pis),
    ensures
        vanishes_on_trace(s, h, k, pis, challenges, terminal, alpha),
{
    assert forall|r: nat| r < pow2(k) implies batched_at(
        s,
        h,
        k,
        pis,
        challenges,
        terminal,
        alpha,
        x_base(#[trigger] f_pow(two_adic_root(k), r)),
    ) == x_zero() by {
        let x = x_base(f_pow(g, r));
        let o = opened_at(s, h, k, pis, x);
        let w = aux_window(main, pis, r as int);
        let n = main.len() as int;
        lemma_opened_on_trace(s, h, k, main, aux, pis, challenges, terminal, g, r as int);
        vstd::arithmetic::div_mod::lemma_mod_bound(r as int + 1, n);
        assert(main[r as int].len() == s.width && main[(r as int + 1) % n].len() == s.width);
        assert forall|c: int| 0 <= c < s.lookups.len() implies lookup_agrees(#[trigger] s.lookups[c], w, o) by {
            let v = s.lookups[c];
            assert(lookup_resolves(s.lookups[c], s.width as int, pis.len() as int) && lookup_reads_cells(s.lookups[c]));
            assert forall|j: int| 0 <= j < v.multiplicities.len() implies native_value(#[trigger] v.multiplicities[j], o)
                == x_base(value(v.multiplicities[j], w)) by {
                lemma_cells_lift(v.multiplicities[j], w, o, s.width as int, pis.len() as int);
            }
            assert forall|j: int, i: int| 0 <= j < v.elements.len() && 0 <= i < v.elements[j].len() implies native_value(
                #[trigger] v.elements[j][i],
                o,
            ) == x_base(value(v.elements[j][i], w)) by {
                lemma_cells_lift(v.elements[j][i], w, o, s.width as int, pis.len() as int);
            }
        }
        assert(opens_row(s.lookups, main, pis, r as int, o));
        assert forall|i: int| 0 <= i < s.constraints.len() implies native_value(#[trigger] s.constraints[i], o) == x_zero() by {
            assert(native_value(s.constraints[i], opened_at(s, h, k, pis, x_base(f_pow(two_adic_root(k), r)))) == x_zero());
        }
        law_batched_vanishes(s, main, pis, challenges, aux, terminal, o, alpha, r as int);
    }
}

/// A system's own constraints vanish on the trace domain.
pub open spec fn own_vanish(s: SystemView, h: Columns, k: nat, pis: Seq<u64>) -> bool {
    forall|r: nat, i: int|
        r < pow2(k) && 0 <= i < s.constraints.len() ==> native_value(
            #[trigger] s.constraints[i],
            opened_at(s, h, k, pis, x_base(#[trigger] f_pow(two_adic_root(k), r))),
        ) == x_zero()
}

/// What an honest prover of a trace with 2^k rows opens at the drawn point: the values of its columns there and at the
/// next point, and those of the chunks of its quotient.
pub open spec fn opens_honestly(s: SystemView, proof: LookupProof, pis: Seq<u64>, h: Columns, cs: Seq<Seq<Ext>>) -> bool {
    let zeta = lookup_zeta(s, proof, pis);
    let k = proof.degree_bits as nat;
    let o = proof.opened;
    &&& o.trace_local@ == values_at(h.trace, zeta)
    &&& o.trace_next@ == values_at(h.trace, next_point(zeta, k))
    &&& joined_coordinates(o.aux_local@) == values_at(h.aux, zeta)
    &&& joined_coordinates(o.aux_next@) == values_at(h.aux, next_point(zeta, k))
    &&& o.quotient_chunks@.len() == cs.len()
    &&& forall|i: int| 0 <= i < cs.len() ==> chunk_value((#[trigger] o.quotient_chunks@[i])@) == p_at(cs[i], zeta)
}

/// The chunks have the values of the quotient on its domain: the batched constraints over the trace domain's polynomial.
pub open spec fn chunks_of_quotient(
    s: SystemView,
    h: Columns,
    k: nat,
    c: nat,
    pis: Seq<u64>,
    challenges: Seq<Ext>,
    terminal: Ext,
    alpha: Ext,
    cs: Seq<Seq<Ext>>,
) -> bool {
    &&& cs.len() == pow2(c)
    &&& forall|i: int| 0 <= i < cs.len() ==> (#[trigger] cs[i]).len() <= pow2(k)
    &&& forall|p: nat|
        p < pow2(k + c) ==> p_at(cs[(p % pow2(c)) as int], #[trigger] x_base(quotient_point(k + c, p))) == x_mul(
            batched_at(s, h, k, pis, challenges, terminal, alpha, x_base(quotient_point(k + c, p))),
            x_inv(vanishing(x_base(quotient_point(k + c, p)), k)),
        )
}

/// A proof of an honest prover without hiding: its columns are polynomials of the trace's length whose constraints vanish
/// on the trace domain and fit the chunks, its terminal is zero, and it opens what it has.
pub open spec fn honest_proof(s: SystemView, proof: LookupProof, pis: Seq<u64>, h: Columns, cs: Seq<Seq<Ext>>, d: nat) -> bool {
    let (k, c) = (proof.degree_bits as nat, log_chunks(s, 0));
    let (challenges, alpha) = (lookup_challenges(s, proof, pis), lookup_alpha(s, proof, pis));
    &&& columns_shaped(h, s, k)
    &&& constraints_fit(s, pow2(k), d)
    &&& pow2(k) <= d <= pow2(k) + pow2(c) * pow2(k)
    &&& vanishes_on_trace(s, h, k, pis, challenges, proof.terminal, alpha)
    &&& chunks_of_quotient(s, h, k, c, pis, challenges, proof.terminal, alpha, cs)
    &&& opens_honestly(s, proof, pis, h, cs)
    &&& proof.terminal == x_zero()
    &&& proof.aux_width == s.lookups.len() + 1
    &&& s.periodic.len() > 0 ==> !x_same(lookup_zeta(s, proof, pis), x_zero())
}

/// The verifier reads at the drawn point what the columns open to.
#[verifier::spinoff_prover]
#[verifier::rlimit(40)]
proof fn lemma_reads_honestly(s: SystemView, proof: LookupProof, pis: Seq<u64>, h: Columns, cs: Seq<Seq<Ext>>, g: u64)
    requires
        ({
            let k = proof.degree_bits as nat;
            &&& g == two_adic_root(k)
            &&& is_root(g, k)
        }),
        opens_honestly(s, proof, pis, h, cs),
        !x_same(vanishing(lookup_zeta(s, proof, pis), proof.degree_bits as nat), x_zero()),
    ensures
        ({
            let (k, zeta) = (proof.degree_bits as nat, lookup_zeta(s, proof, pis));
            &&& lookup_openings(s, proof, pis, zeta, 0) == opened_at(s, h, k, pis, zeta)
            &&& lookup_reads_at(s, proof, pis) == read_at(
                h,
                k,
                lookup_challenges(s, proof, pis),
                proof.terminal,
                zeta,
            )
        }),
{
    let (k, zeta) = (proof.degree_bits as nat, lookup_zeta(s, proof, pis));
    assert(f_red(g as int) == g);
    lemma_inverse(g);
    lemma_ends(k, g);
    lemma_reduced(x_zero(), x_zero());
    if x_red(zeta) == x_red(x_one()) {
        lemma_square_times_same(zeta, x_one(), k);
    }
    if x_red(zeta) == x_red(last_point(k)) {
        lemma_square_times_same(zeta, last_point(k), k);
    }
    lemma_selector(k, x_one(), zeta);
    lemma_selector(k, last_point(k), zeta);
    assert((proof.degree_bits - 0) as nat == k);
    assert(lookup_openings(s, proof, pis, zeta, 0) =~= opened_at(s, h, k, pis, zeta));
    assert(lookup_reads_at(s, proof, pis) =~= read_at(h, k, lookup_challenges(s, proof, pis), proof.terminal, zeta));
}

/// The chunks of a quotient split it.
#[verifier::spinoff_prover]
#[verifier::rlimit(60)]
proof fn lemma_quotient_splits(
    s: SystemView,
    h: Columns,
    k: nat,
    c: nat,
    pis: Seq<u64>,
    challenges: Seq<Ext>,
    terminal: Ext,
    alpha: Ext,
    cs: Seq<Seq<Ext>>,
    g: u64,
    w: u64,
    q: Seq<Ext>,
)
    requires
        roots_nest(g, w, k, k + c),
        chunks_of_quotient(s, h, k, c, pis, challenges, terminal, alpha, cs),
        crate::lookup::exact::is_quotient(s, h, k, pis, challenges, terminal, alpha, q),
    ensures
        splits(q, cs, k, c),
{
    assert forall|p: nat| p < pow2(k + c) implies p_at(
        cs[(p % pow2(c)) as int],
        #[trigger] x_base(quotient_point(k + c, p)),
    ) == p_at(q, x_base(quotient_point(k + c, p))) by {
        let x = x_base(quotient_point(k + c, p));
        lemma_coset_off(g, w, k, k + c, p);
        assert(batched_at(s, h, k, pis, challenges, terminal, alpha, x) == x_mul(vanishing(x, k), p_at(q, x)));
        lemma_at_reduced(q, x);
        lemma_divided(vanishing(x, k), p_at(q, x), k, x);
    }
}

/// An honest proof has no fault behind its openings.
#[verifier::spinoff_prover]
#[verifier::rlimit(60)]
pub proof fn law_honest_proof_is_faultless(
    s: SystemView,
    proof: LookupProof,
    pis: Seq<u64>,
    h: Columns,
    cs: Seq<Seq<Ext>>,
    d: nat,
    g: u64,
    w: u64,
)
    requires
        system_shaped(s),
        system_reads(s),
        s.pubs <= pis.len(),
        roots_nest(g, w, proof.degree_bits as nat, proof.degree_bits as nat + log_chunks(s, 0)),
        honest_proof(s, proof, pis, h, cs, d),
        !x_same(vanishing(lookup_zeta(s, proof, pis), proof.degree_bits as nat), x_zero()),
    ensures
        error_after(s, proof, pis, 0) is None,
{
    let (k, c) = (proof.degree_bits as nat, log_chunks(s, 0));
    let (challenges, alpha) = (lookup_challenges(s, proof, pis), lookup_alpha(s, proof, pis));
    let (zeta, terminal) = (lookup_zeta(s, proof, pis), proof.terminal);
    assert(f_red(g as int) == g);
    lemma_inverse(g);
    let q = law_quotient_exists(s, h, k, pis, challenges, terminal, alpha, g, d);
    lemma_quotient_splits(s, h, k, c, pis, challenges, terminal, alpha, cs, g, w, q);
    law_chunks_recompose(g, w, q, cs, k, c, zeta);
    lemma_recomposed(cs, proof.opened.quotient_chunks@, k, c, zeta, pow2(c));
    lemma_reads_honestly(s, proof, pis, h, cs, g);
    assert(batched_at(s, h, k, pis, challenges, terminal, alpha, zeta) == x_mul(vanishing(zeta, k), p_at(q, zeta)));
    lemma_at_reduced(q, zeta);
    lemma_reduced(x_zero(), x_zero());
    lemma_divided(vanishing(zeta, k), p_at(q, zeta), k, zeta);
    assert((proof.degree_bits - 0) as nat == k);
    assert(lookup_identity(s, proof, pis, 0));
}

/// (z v) / z = v.
proof fn lemma_divided(z: Ext, v: Ext, k: nat, x: Ext)
    requires
        z == vanishing(x, k),
        z != x_zero(),
        x_red(v) == v,
    ensures
        x_mul(x_mul(z, v), x_inv(z)) == v,
{
    crate::stark::subgroup::lemma_subgroup_poly(k, x);
    law_extension_is_a_field(z);
    lemma_products(z, v, x_inv(z));
    lemma_products(z, x_inv(z), v);
    lemma_products(v, v, v);
}

/// The points of an interpolation are different residues.
pub open spec fn nodes_differ(xs: Seq<u64>) -> bool {
    forall|i: int, j: int|
        0 <= i < xs.len() && 0 <= j < xs.len() && i != j ==> f_red(#[trigger] xs[i] as int) != f_red(
            #[trigger] xs[j] as int,
        )
}

/// A weight of the interpolation at one of its points.
#[verifier::rlimit(30)]
proof fn lemma_weight_at_node(xs: Seq<u64>, i: int, j: int, n: nat)
    requires
        nodes_differ(xs),
        0 <= i < xs.len(),
        0 <= j < xs.len(),
        n <= xs.len(),
    ensures
        i == j ==> lagrange_weight(xs, x_base(xs[j]), i, n) == x_one(),
        i != j && j < n ==> lagrange_weight(xs, x_base(xs[j]), i, n) == x_zero(),
    decreases n,
{
    let z = x_base(xs[j]);
    if n > 0 {
        let m = (n - 1) as nat;
        lemma_weight_at_node(xs, i, j, m);
        if m != i {
            let before = lagrange_weight(xs, z, i, m);
            let d = f_sub(xs[i], xs[m as int]);
            lemma_base(xs[j], xs[m as int]);
            if i == j {
                crate::field::lemma_zero_difference(xs[i], xs[m as int]);
                assert(f_red(xs[i] as int) != f_red(xs[m as int] as int));
                lemma_canonical_difference(xs[i], xs[m as int]);
                lemma_inverse(d);
                lemma_base(d, f_inv(d));
                lemma_base(1, 0);
                lemma_products(x_one(), x_one(), x_one());
                lemma_reduced(x_one(), x_one());
            } else if m == j {
                lemma_undo(z, z, z);
                lemma_products(x_base(f_inv(d)), before, before);
                lemma_products(before, before, before);
            } else {
                let f = x_mul(x_sub(z, x_base(xs[m as int])), x_base(f_inv(d)));
                lemma_products(f, f, f);
            }
        }
    }
}

proof fn lemma_canonical_difference(a: u64, b: u64)
    ensures
        f_red(f_sub(a, b) as int) == f_sub(a, b),
{
    crate::field::lemma_red_add(a as int, b as int);
}

/// An interpolation at one of its points.
#[verifier::rlimit(30)]
proof fn lemma_terms_at_node(xs: Seq<u64>, ys: Seq<Ext>, j: int, n: nat)
    requires
        nodes_differ(xs),
        0 <= j < xs.len(),
        n <= xs.len(),
    ensures
        lagrange_terms(xs, ys, x_base(xs[j]), n) == (if j < n {
            x_red(ys[j])
        } else {
            x_zero()
        }),
    decreases n,
{
    let z = x_base(xs[j]);
    lemma_reduced(x_zero(), x_zero());
    if n > 0 {
        let m = (n - 1) as nat;
        lemma_terms_at_node(xs, ys, j, m);
        lemma_weight_at_node(xs, m as int, j, xs.len());
        let y = ys[m as int];
        lemma_products(y, y, y);
        lemma_reduced(y, y);
        lemma_reduced(ys[j], y);
        lemma_undo(x_red(y), y, y);
        lemma_undo(x_red(ys[j]), y, y);
        lemma_undo(x_zero(), y, y);
    }
}

/// A periodic column on the trace domain has its cells.
#[verifier::spinoff_prover]
#[verifier::rlimit(40)]
proof fn lemma_periodic_on_trace(column: Seq<u64>, lp: nat, k: nat, v: u64, g: u64, r: nat)
    requires
        roots_nest(v, g, lp, k),
        column.len() == pow2(lp),
    ensures
        periodic_value(column, lp, k, x_base(f_pow(g, r))) == x_base(column[r as int % (column.len() as int)]),
{
    let (n, m) = (pow2(lp), pow2((k - lp) as nat));
    let xs = subgroup(lp);
    let ys = Seq::new(column.len(), |i: int| x_base(column[i]));
    let a = f_pow(g, r);
    vstd::arithmetic::power2::lemma_pow2_pos(lp);
    let j = r as int % (n as int);
    let q = r as int / (n as int);
    vstd::arithmetic::div_mod::lemma_fundamental_div_mod(r as int, n as int);
    vstd::arithmetic::div_mod::lemma_mod_bound(r as int, n as int);
    vstd::arithmetic::div_mod::lemma_div_pos_is_pos(r as int, n as int);
    // The point raised to the number of periods is a point of the short subgroup.
    lemma_square_times_base(a, (k - lp) as nat);
    lemma_square_times_pow(a, (k - lp) as nat);
    lemma_pow_pow(g, r, m);
    lemma_pow_pow(g, m, r);
    assert(r * m == m * r) by (nonlinear_arith);
    assert(f_pow(a, m) == f_pow(v, r));
    lemma_pow_add(v, n * (q as nat), j as nat);
    lemma_pow_pow(v, n, q as nat);
    lemma_square_times_pow(v, lp);
    lemma_one_pow(q as nat);
    lemma_mul_one(f_pow(v, j as nat));
    lemma_pow_canonical(v, j as nat);
    assert(f_pow(v, r) == f_pow(v, j as nat));
    assert(xs[j] == f_pow(v, j as nat));
    assert(nodes_differ(xs)) by {
        assert forall|i: int, l: int| 0 <= i < xs.len() && 0 <= l < xs.len() && i != l implies f_red(
            #[trigger] xs[i] as int,
        ) != f_red(#[trigger] xs[l] as int) by {
            if i < l {
                lemma_powers_differ(v, lp, i as nat, l as nat);
            } else {
                lemma_powers_differ(v, lp, l as nat, i as nat);
            }
            lemma_pow_canonical(v, i as nat);
            lemma_pow_canonical(v, l as nat);
        }
    }
    lemma_terms_at_node(xs, ys, j, n);
    lemma_base(column[j], 0);
}

/// The generators of the periods divide that of the trace domain.
pub open spec fn periods_nest(s: SystemView, k: nat) -> bool {
    forall|c: int|
        0 <= c < s.periodic.len() ==> {
            let lp = log_period(#[trigger] s.periodic[c]);
            &&& s.periodic[c].len() == pow2(lp)
            &&& roots_nest(two_adic_root(lp), two_adic_root(k), lp, k)
        }
}

/// An expression over cells does not depend on the selectors.
#[verifier::rlimit(30)]
proof fn lemma_same_cells(e: Wire, o: NativeView, u: NativeView)
    requires
        reads_cells(e),
        o.local == u.local,
        o.next == u.next,
        o.pubs == u.pubs,
        o.periodic == u.periodic,
    ensures
        native_value(e, o) == native_value(e, u),
    decreases e,
{
    match *e {
        Expr::Sum(a, b) => {
            lemma_same_cells(a, o, u);
            lemma_same_cells(b, o, u);
        },
        Expr::Difference(a, b) => {
            lemma_same_cells(a, o, u);
            lemma_same_cells(b, o, u);
        },
        Expr::Negation(a) => {
            lemma_same_cells(a, o, u);
        },
        Expr::Product(a, b) => {
            lemma_same_cells(a, o, u);
            lemma_same_cells(b, o, u);
        },
        _ => {},
    }
}

/// A constraint over cells, on all rows or under one selector.
pub open spec fn gated(e: Wire) -> bool {
    reads_cells(e) || match *e {
        Expr::Product(a, b) => (*a == Expr::IsFirstRow || *a == Expr::IsLastRow || *a == Expr::IsTransition)
            && reads_cells(b),
        _ => false,
    }
}

/// A constraint over cells, under one selector at most, that vanishes on every row of a trace vanishes on the trace domain.
#[verifier::spinoff_prover]
#[verifier::rlimit(60)]
pub proof fn law_gated_constraints_vanish(
    s: SystemView,
    h: Columns,
    k: nat,
    main: Seq<Seq<u64>>,
    aux: Seq<Vec<Ext>>,
    pis: Seq<u64>,
    g: u64,
)
    requires
        g == two_adic_root(k),
        is_root(g, k),
        periods_nest(s, k),
        interpolates(h, k, main, aux),
        forall|i: int| 0 <= i < s.constraints.len() ==> gated(#[trigger] s.constraints[i]),
        forall|r: int, i: int|
            0 <= r < main.len() && 0 <= i < s.constraints.len() ==> native_value(
                #[trigger] s.constraints[i],
                #[trigger] trace_openings(s, main, pis, r),
            ) == x_zero(),
    ensures
        own_vanish(s, h, k, pis),
{
    assert forall|r: nat, i: int| r < pow2(k) && 0 <= i < s.constraints.len() implies native_value(
        #[trigger] s.constraints[i],
        opened_at(s, h, k, pis, x_base(#[trigger] f_pow(two_adic_root(k), r))),
    ) == x_zero() by {
        let e = s.constraints[i];
        let o = opened_at(s, h, k, pis, x_base(f_pow(g, r)));
        let u = trace_openings(s, main, pis, r as int);
        lemma_opened_on_trace(s, h, k, main, aux, pis, Seq::empty(), x_zero(), g, r as int);
        assert(o.periodic =~= u.periodic) by {
            assert forall|c: int| 0 <= c < s.periodic.len() implies o.periodic[c] == #[trigger] u.periodic[c] by {
                let lp = log_period(s.periodic[c]);
                assert(s.periodic[c].len() == pow2(lp));
                lemma_periodic_on_trace(s.periodic[c], lp, k, two_adic_root(lp), g, r);
            }
        }
        assert(native_value(s.constraints[i], trace_openings(s, main, pis, r as int)) == x_zero());
        assert(gated(s.constraints[i]));
        if reads_cells(e) {
            lemma_same_cells(e, o, u);
        } else {
            match *e {
                Expr::Product(a, b) => {
                    lemma_same_cells(b, o, u);
                    lemma_gated_value(a, b, o, u, r == 0, r == main.len() - 1);
                },
                _ => {},
            }
        }
    }
}

/// A gated value.
proof fn lemma_gated_value(a: Wire, b: Wire, o: NativeView, u: NativeView, first: bool, last: bool)
    requires
        *a == Expr::IsFirstRow || *a == Expr::IsLastRow || *a == Expr::IsTransition,
        native_value(b, o) == native_value(b, u),
        u.is_first == flag(first),
        u.is_last == flag(last),
        u.is_trans == flag(!last),
        !first ==> x_red(o.is_first) == x_zero(),
        !last ==> x_red(o.is_last) == x_zero(),
        last ==> x_red(o.is_trans) == x_zero(),
        x_mul(native_value(a, u), native_value(b, u)) == x_zero(),
    ensures
        x_mul(native_value(a, o), native_value(b, o)) == x_zero(),
{
    let (v, on, at) = (native_value(b, u), native_value(a, u), native_value(a, o));
    lemma_reduced(x_one(), x_one());
    lemma_products(v, v, v);
    if on == x_one() {
        // The selector is one, so that the value itself is zero.
        assert(x_red(v) == x_zero());
        lemma_products(at, v, v);
        lemma_products(at, at, at);
    } else {
        assert(at == x_zero());
    }
}

/// A trace that proves: its lookups balance and read the row pair alone, its own constraints vanish, and its columns are
/// those of an honest prover.
pub open spec fn proves_trace(
    s: SystemView,
    proof: LookupProof,
    pis: Seq<u64>,
    h: Columns,
    cs: Seq<Seq<Ext>>,
    main: Seq<Seq<u64>>,
    aux: Seq<Vec<Ext>>,
    t: nat,
) -> bool {
    let (k, c) = (proof.degree_bits as nat, log_chunks(s, 0));
    let (challenges, alpha) = (lookup_challenges(s, proof, pis), lookup_alpha(s, proof, pis));
    &&& s.lookups.len() >= 1
    &&& lookups_read_cells(s, pis.len() as int)
    &&& forall|i: int| 0 <= i < main.len() ==> (#[trigger] main[i]).len() == s.width
    &&& balances(s.lookups, main, pis)
    &&& aux_defined(s, main, pis, challenges)
    &&& is_aux(s.lookups, main, pis, challenges, aux, proof.terminal)
    &&& columns_shaped(h, s, k)
    &&& interpolates(h, k, main, aux)
    &&& own_vanish(s, h, k, pis)
    &&& transitions_within(s, t)
    &&& t < system_degree(s)
    &&& chunks_of_quotient(s, h, k, c, pis, challenges, proof.terminal, alpha, cs)
    &&& opens_honestly(s, proof, pis, h, cs)
    &&& proof.aux_width == s.lookups.len() + 1
    &&& s.periodic.len() > 0 ==> !x_same(lookup_zeta(s, proof, pis), x_zero())
}

/// A balanced trace proves honestly.
#[verifier::spinoff_prover]
#[verifier::rlimit(40)]
pub proof fn law_balanced_trace_proves(
    s: SystemView,
    proof: LookupProof,
    pis: Seq<u64>,
    h: Columns,
    cs: Seq<Seq<Ext>>,
    main: Seq<Seq<u64>>,
    aux: Seq<Vec<Ext>>,
    t: nat,
    g: u64,
)
    requires
        g == two_adic_root(proof.degree_bits as nat),
        is_root(g, proof.degree_bits as nat),
        system_shaped(s),
        proves_trace(s, proof, pis, h, cs, main, aux, t),
    ensures
        honest_proof(s, proof, pis, h, cs, len_of(system_degree(s), t, pow2(proof.degree_bits as nat)) as nat),
{
    let k = proof.degree_bits as nat;
    let (n, deg) = (pow2(k), system_degree(s));
    let d = len_of(deg, t, n);
    let (challenges, alpha) = (lookup_challenges(s, proof, pis), lookup_alpha(s, proof, pis));
    vstd::arithmetic::power2::lemma_pow2_pos(k);
    law_balanced_lookups_end_in_zero(s.lookups, main, pis, challenges, aux, proof.terminal);
    law_interpolated_trace_vanishes(s, h, k, main, aux, pis, challenges, proof.terminal, alpha, g);
    law_constraints_fit_by_degree(s, n, t);
    law_lookup_degree(s);
    assert(d >= n) by (nonlinear_arith)
        requires
            d == deg * (n - 1) + t + 1,
            deg >= 2,
            n >= 1,
    ;
    law_quotient_fits_chunks(s, n, t, (d - n) as nat);
    assert(log_chunks(s, 0) == log_quotient_chunks(deg, 0));
}

/// A balanced trace stands behind the proof.
pub open spec fn provable(s: SystemView, proof: LookupProof, pis: Seq<u64>) -> bool {
    exists|h: Columns, cs: Seq<Seq<Ext>>, main: Seq<Seq<u64>>, aux: Seq<Vec<Ext>>, t: nat|
        #[trigger] proves_trace(s, proof, pis, h, cs, main, aux, t)
}

/// A proof that a balanced trace stands behind has no fault behind its openings.
pub proof fn law_provable_is_faultless(s: SystemView, proof: LookupProof, pis: Seq<u64>, g: u64, w: u64)
    requires
        system_shaped(s),
        system_reads(s),
        s.pubs <= pis.len(),
        roots_nest(g, w, proof.degree_bits as nat, proof.degree_bits as nat + log_chunks(s, 0)),
        provable(s, proof, pis),
        !x_same(vanishing(lookup_zeta(s, proof, pis), proof.degree_bits as nat), x_zero()),
    ensures
        error_after(s, proof, pis, 0) is None,
{
    let (h, cs, main, aux, t) = choose|h: Columns, cs: Seq<Seq<Ext>>, main: Seq<Seq<u64>>, aux: Seq<Vec<Ext>>, t: nat|
        #[trigger] proves_trace(s, proof, pis, h, cs, main, aux, t);
    let d = len_of(system_degree(s), t, pow2(proof.degree_bits as nat)) as nat;
    law_balanced_trace_proves(s, proof, pis, h, cs, main, aux, t, g);
    law_honest_proof_is_faultless(s, proof, pis, h, cs, d, g, w);
}

} // verus!
