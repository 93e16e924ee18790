//! The quotient of an honest prover is exact: where the columns are polynomials and the constraints vanish on the trace
//! domain, its values are those of a short polynomial, and the identity holds at every point.

use vstd::arithmetic::power2::pow2;
use vstd::prelude::*;

use crate::field::{
    f_inv, f_mul, f_pow, f_red, f_square_times, f_sub, lemma_mul_assoc, lemma_mul_one, lemma_pow_add, lemma_pow_canonical,
    lemma_pow_mul, lemma_pow_pow, lemma_square_times_pow, two_adic_generator, two_adic_root, x_add, x_base, x_inv, x_mul, x_one, x_pow, x_red,
    x_square_times, x_sub, x_zero, Ext, GENERATOR, MODULUS, TWO_ADICITY,
};
use crate::fri::fold::{lagrange_terms, lagrange_weight};
use crate::lookup::air::{system_reads, system_shaped, SystemView};
use crate::lookup::degree::{
    aux_curve, aux_next_curve, constraints_fit, first_curve, last_curve, lemma_batched_poly, local_curve, next_curve,
    periodic_curve, poly_lookup, poly_openings, trans_curve,
};
use crate::lookup::quotient::{
    base_vanishing, batched, lifted, next_index, paired_row, periodic_row, quotient_at, quotient_lookup, quotient_openings,
    quotient_point,
};
use crate::poly::{
    is_poly, lemma_at_reduced, lemma_at_single, lemma_poly_add, lemma_poly_const, lemma_poly_dilate, lemma_poly_mul,
    lemma_poly_same, lemma_poly_scale, lemma_poly_shown, lemma_poly_spread, lemma_poly_sub, p_at,
};
use crate::prime::{law_nonzero_is_unit, lemma_seven_has_full_order};
use crate::ring::{lemma_base, lemma_cancels, lemma_difference, lemma_products, lemma_reduced, lemma_undo};
use crate::stark::domain::{last_point, lemma_square_times_base, next_point, periodic_value, subgroup, vanishing};
use crate::stark::subgroup::{
    is_root, law_vanishing_divides, lemma_selector, lemma_square_is_pow, lemma_subgroup_poly, lemma_vanishes_on_points,
    selector_poly,
};
use crate::stark::verify::{columns_at, log_period, periods_fit, periods_ok};
use crate::symbolic::{NativeLookupView, NativeView};

verus! {

/// The variable less a constant.
#[verifier::rlimit(30)]
pub proof fn lemma_poly_less(a: Ext)
    ensures
        is_poly(|z: Ext| x_sub(z, a), 2),
{
    let id = seq![x_zero(), x_one()];
    let (f, g) = (|z: Ext| p_at(id, z), |z: Ext| x_red(a));
    lemma_poly_shown(id);
    lemma_poly_const(a);
    lemma_poly_sub(f, g, 2, 1);
    let h = |z: Ext| x_sub(f(z), g(z));
    let k = |z: Ext| x_sub(z, a);
    assert forall|z: Ext| h(z) == #[trigger] k(z) by {
        assert(id.drop_first() =~= seq![x_one()]);
        lemma_at_single(x_one(), z);
        lemma_reduced(x_one(), x_one());
        lemma_products(z, x_one(), z);
        lemma_undo(x_red(z), z, z);
        lemma_reduced(z, a);
        lemma_reduced(x_red(z), a);
        lemma_reduced(z, x_red(a));
    }
    lemma_poly_same(h, k, 2, 2);
}

/// A weight of the interpolation is a polynomial.
#[verifier::rlimit(30)]
proof fn lemma_weight_poly(xs: Seq<u64>, i: int, m: nat)
    requires
        0 <= i,
    ensures
        is_poly(
            |z: Ext| lagrange_weight(xs, z, i, m),
            if m > i {
                m
            } else {
                m + 1
            },
        ),
    decreases m,
{
    let f = |z: Ext| lagrange_weight(xs, z, i, m);
    if m == 0 {
        lemma_poly_const(x_one());
        lemma_reduced(x_one(), x_one());
        lemma_poly_same(|z: Ext| x_red(x_one()), f, 1, 1);
    } else {
        let k = (m - 1) as nat;
        let p = |z: Ext| lagrange_weight(xs, z, i, k);
        lemma_weight_poly(xs, i, k);
        if k == i {
            lemma_poly_same(p, f, (k + 1) as nat, m);
        } else {
            let a = x_base(xs[m - 1]);
            let b = x_base(f_inv(f_sub(xs[i], xs[m - 1])));
            let u = |z: Ext| x_sub(z, a);
            lemma_poly_less(a);
            lemma_poly_scale(b, u, 2);
            let v = |z: Ext| x_mul(b, u(z));
            let d = if k > i {
                k
            } else {
                k + 1
            };
            lemma_poly_mul(p, v, d, 2);
            let g = |z: Ext| x_mul(p(z), v(z));
            assert forall|z: Ext| g(z) == #[trigger] f(z) by {
                lemma_products(b, x_sub(z, a), b);
            }
            lemma_poly_same(g, f, (d + 2 - 1) as nat, (d + 1) as nat);
        }
    }
}

/// An interpolation is a polynomial with as many coefficients as there are points.
#[verifier::rlimit(30)]
proof fn lemma_terms_poly(xs: Seq<u64>, ys: Seq<Ext>, m: nat)
    requires
        m <= xs.len(),
        xs.len() >= 1,
    ensures
        is_poly(|z: Ext| lagrange_terms(xs, ys, z, m), xs.len()),
    decreases m,
{
    let f = |z: Ext| lagrange_terms(xs, ys, z, m);
    let n = xs.len();
    if m == 0 {
        lemma_poly_const(x_zero());
        lemma_reduced(x_zero(), x_zero());
        lemma_poly_same(|z: Ext| x_red(x_zero()), f, 1, n);
    } else {
        let k = (m - 1) as nat;
        let p = |z: Ext| lagrange_terms(xs, ys, z, k);
        let w = |z: Ext| lagrange_weight(xs, z, m - 1, n);
        lemma_terms_poly(xs, ys, k);
        lemma_weight_poly(xs, m - 1, n);
        lemma_poly_scale(ys[m - 1], w, n);
        let u = |z: Ext| x_mul(ys[m - 1], w(z));
        lemma_poly_add(p, u, n, n);
        lemma_poly_same(|z: Ext| x_add(p(z), u(z)), f, n, n);
    }
}

/// A periodic column is a polynomial over the trace domain.
#[verifier::rlimit(30)]
pub proof fn lemma_periodic_poly(column: Seq<u64>, lp: nat, k: nat)
    requires
        lp <= k,
    ensures
        is_poly(|x: Ext| periodic_value(column, lp, k, x), pow2(k)),
{
    let xs = subgroup(lp);
    let ys = Seq::new(column.len(), |i: int| x_base(column[i]));
    let (n, m) = (pow2(lp), pow2((k - lp) as nat));
    vstd::arithmetic::power2::lemma_pow2_pos(lp);
    vstd::arithmetic::power2::lemma_pow2_pos((k - lp) as nat);
    vstd::arithmetic::power2::lemma_pow2_adds(lp, (k - lp) as nat);
    lemma_terms_poly(xs, ys, n);
    let f = |z: Ext| lagrange_terms(xs, ys, z, n);
    lemma_poly_spread(f, n, m);
    let g = |x: Ext| f(x_pow(x, m));
    let h = |x: Ext| periodic_value(column, lp, k, x);
    assert forall|x: Ext| g(x) == #[trigger] h(x) by {
        lemma_square_is_pow(x, (k - lp) as nat);
    }
    assert((n - 1) * m + 1 <= n * m) by (nonlinear_arith)
        requires
            n >= 1,
            m >= 1,
    ;
    lemma_poly_same(g, h, ((n - 1) * m + 1) as nat, pow2(k));
}

/// The columns of a trace and its aux columns as polynomials.
pub struct Columns {
    pub trace: Seq<Seq<Ext>>,
    pub aux: Seq<Seq<Ext>>,
}

/// One polynomial per column, with at most 2^k coefficients.
pub open spec fn columns_shaped(h: Columns, s: SystemView, k: nat) -> bool {
    &&& h.trace.len() == s.width
    &&& h.aux.len() == s.lookups.len() + 1
    &&& forall|c: int| 0 <= c < h.trace.len() ==> (#[trigger] h.trace[c]).len() <= pow2(k)
    &&& forall|c: int| 0 <= c < h.aux.len() ==> (#[trigger] h.aux[c]).len() <= pow2(k)
    &&& periods_ok(s.periodic)
    &&& periods_fit(s.periodic, k)
}

/// The values of polynomials at a point.
pub open spec fn values_at(ps: Seq<Seq<Ext>>, x: Ext) -> Seq<Ext> {
    Seq::new(ps.len(), |c: int| p_at(ps[c], x))
}

/// What the constraints read at a point.
pub open spec fn opened_at(s: SystemView, h: Columns, k: nat, pis: Seq<u64>, x: Ext) -> NativeView {
    NativeView {
        local: values_at(h.trace, x),
        next: values_at(h.trace, next_point(x, k)),
        pubs: lifted(pis),
        periodic: columns_at(s.periodic, k, x),
        is_first: p_at(selector_poly(k, x_one()), x),
        is_last: p_at(selector_poly(k, last_point(k)), x),
        is_trans: x_sub(x, last_point(k)),
    }
}

/// What the lookup trees read besides.
pub open spec fn read_at(h: Columns, k: nat, challenges: Seq<Ext>, terminal: Ext, x: Ext) -> NativeLookupView {
    NativeLookupView {
        perm_local: values_at(h.aux, x),
        perm_next: values_at(h.aux, next_point(x, k)),
        challenges,
        perm_values: seq![terminal],
    }
}

/// The batched constraints as a function of the point.
pub open spec fn batched_at(
    s: SystemView,
    h: Columns,
    k: nat,
    pis: Seq<u64>,
    challenges: Seq<Ext>,
    terminal: Ext,
    alpha: Ext,
    x: Ext,
) -> Ext {
    batched(s, opened_at(s, h, k, pis, x), read_at(h, k, challenges, terminal, x), alpha)
}

/// The logarithm of a period that fits.
proof fn lemma_log_period(s: SystemView, k: nat, c: int)
    requires
        periods_ok(s.periodic),
        periods_fit(s.periodic, k),
        0 <= c < s.periodic.len(),
    ensures
        s.periodic[c].len() == pow2(log_period(s.periodic[c])),
        log_period(s.periodic[c]) <= k,
{
    let e = choose|e: nat| s.periodic[c].len() == #[trigger] pow2(e);
    assert(s.periodic[c].len() == pow2(e));
    assert(s.periodic[c].len() <= pow2(k));
    let l = log_period(s.periodic[c]);
    if l > k {
        vstd::arithmetic::power2::lemma_pow2_strictly_increases(k, l);
    }
}

/// The opened values are those of polynomials.
#[verifier::spinoff_prover]
#[verifier::rlimit(60)]
proof fn lemma_opened_poly(s: SystemView, h: Columns, k: nat, pis: Seq<u64>, g: u64)
    requires
        columns_shaped(h, s, k),
        s.pubs <= pis.len(),
        g == two_adic_root(k),
        is_root(g, k),
        f_mul(g, f_inv(g)) == 1,
    ensures
        poly_openings(|x: Ext| opened_at(s, h, k, pis, x), s, lifted(pis), pow2(k)),
{
    let ov = |x: Ext| opened_at(s, h, k, pis, x);
    let n = pow2(k);
    vstd::arithmetic::power2::lemma_pow2_pos(k);
    assert forall|c: int| 0 <= c < s.width implies is_poly(#[trigger] local_curve(ov, c), n) by {
        let p = h.trace[c];
        lemma_poly_shown(p);
        let f = |x: Ext| p_at(p, x);
        assert forall|x: Ext| f(x) == #[trigger] local_curve(ov, c)(x) by {
            lemma_at_reduced(p, x);
        }
        lemma_poly_same(f, local_curve(ov, c), p.len(), n);
    }
    assert forall|c: int| 0 <= c < s.width implies is_poly(#[trigger] next_curve(ov, c), n) by {
        let p = h.trace[c];
        let r = x_base(g);
        lemma_poly_dilate(p, r);
        let f = |x: Ext| p_at(p, x_mul(x, r));
        assert forall|x: Ext| f(x) == #[trigger] next_curve(ov, c)(x) by {
            lemma_at_reduced(p, x_mul(x, r));
        }
        lemma_poly_same(f, next_curve(ov, c), p.len(), n);
    }
    assert forall|c: int| 0 <= c < s.periodic.len() implies is_poly(#[trigger] periodic_curve(ov, c), n) by {
        let col = s.periodic[c];
        let l = log_period(col);
        lemma_log_period(s, k, c);
        lemma_periodic_poly(col, l, k);
        let f = |x: Ext| periodic_value(col, l, k, x);
        assert forall|x: Ext| f(x) == #[trigger] periodic_curve(ov, c)(x) by {
            lemma_periodic_canonical(col, l, k, x);
        }
        lemma_poly_same(f, periodic_curve(ov, c), n, n);
    }
    lemma_ends(k, g);
    lemma_selector_curve(k, x_one());
    lemma_selector_curve(k, last_point(k));
    let (a, b) = (|x: Ext| x_red(p_at(selector_poly(k, x_one()), x)), |x: Ext| x_red(p_at(selector_poly(k, last_point(k)), x)));
    lemma_poly_same(a, first_curve(ov), n, n);
    lemma_poly_same(b, last_curve(ov), n, n);
    lemma_poly_less(last_point(k));
    let t = |z: Ext| x_sub(z, last_point(k));
    assert forall|x: Ext| t(x) == #[trigger] trans_curve(ov)(x) by {
        lemma_reduced(x, last_point(k));
    }
    lemma_poly_same(t, trans_curve(ov), 2, 2);
}

proof fn lemma_selector_curve(k: nat, a: Ext)
    ensures
        is_poly(|x: Ext| x_red(p_at(selector_poly(k, a), x)), pow2(k)),
{
    let p = selector_poly(k, a);
    lemma_subgroup_poly(k, a);
    crate::poly::lemma_div_len(crate::stark::subgroup::subgroup_poly(k), a);
    lemma_poly_shown(p);
    let (f, g) = (|x: Ext| p_at(p, x), |x: Ext| x_red(p_at(p, x)));
    assert forall|x: Ext| f(x) == #[trigger] g(x) by {
        lemma_at_reduced(p, x);
    }
    lemma_poly_same(f, g, p.len(), pow2(k));
}

proof fn lemma_periodic_canonical(column: Seq<u64>, lp: nat, k: nat, x: Ext)
    ensures
        x_red(periodic_value(column, lp, k, x)) == periodic_value(column, lp, k, x),
{
    let xs = subgroup(lp);
    let ys = Seq::new(column.len(), |i: int| x_base(column[i]));
    let z = x_square_times(x, (k - lp) as nat);
    let n = xs.len();
    lemma_reduced(x_zero(), x_zero());
    if n > 0 {
        lemma_reduced(
            lagrange_terms(xs, ys, z, (n - 1) as nat),
            x_mul(ys[n - 1], lagrange_weight(xs, z, n - 1, n)),
        );
    }
}

/// The first and the last point of the trace domain lie in it.
#[verifier::rlimit(30)]
pub proof fn lemma_ends(k: nat, g: u64)
    requires
        g == two_adic_root(k),
        is_root(g, k),
        f_mul(g, f_inv(g)) == 1,
    ensures
        vanishing(x_one(), k) == x_zero(),
        vanishing(last_point(k), k) == x_zero(),
        last_point(k) == x_base(f_pow(g, (pow2(k) - 1) as nat)),
{
    let n = pow2(k);
    vstd::arithmetic::power2::lemma_pow2_pos(k);
    lemma_vanishes_on_points(g, k, 0);
    lemma_base(1, 0);
    assert(f_pow(g, 0) == 1);
    let m = (n - 1) as nat;
    lemma_vanishes_on_points(g, k, m);
    // The last power is the inverse.
    lemma_square_times_pow(g, k);
    assert(f_pow(g, n) == f_mul(f_pow(g, m), g));
    lemma_mul_assoc(f_pow(g, m), g, f_inv(g));
    lemma_mul_one(f_pow(g, m));
    lemma_mul_one(f_inv(g));
    lemma_pow_canonical(g, m);
    lemma_base(f_inv(g), 0);
    assert(f_pow(g, m) == f_red(f_inv(g) as int));
    lemma_base(f_pow(g, m), 0);
}

/// The quotient as a polynomial: the batched constraints are the subgroup's polynomial times it.
pub open spec fn is_quotient(
    s: SystemView,
    h: Columns,
    k: nat,
    pis: Seq<u64>,
    challenges: Seq<Ext>,
    terminal: Ext,
    alpha: Ext,
    q: Seq<Ext>,
) -> bool {
    forall|x: Ext| #[trigger] batched_at(s, h, k, pis, challenges, terminal, alpha, x) == x_mul(vanishing(x, k), p_at(q, x))
}

/// On the trace domain the batched constraints vanish.
pub open spec fn vanishes_on_trace(
    s: SystemView,
    h: Columns,
    k: nat,
    pis: Seq<u64>,
    challenges: Seq<Ext>,
    terminal: Ext,
    alpha: Ext,
) -> bool {
    forall|r: nat|
        r < pow2(k) ==> batched_at(
            s,
            h,
            k,
            pis,
            challenges,
            terminal,
            alpha,
            x_base(#[trigger] f_pow(two_adic_root(k), r)),
        ) == x_zero()
}

/// Where the constraints vanish on the trace domain, the batched constraints are divided by the subgroup's polynomial.
#[verifier::spinoff_prover]
#[verifier::rlimit(60)]
pub proof fn law_quotient_exists(
    s: SystemView,
    h: Columns,
    k: nat,
    pis: Seq<u64>,
    challenges: Seq<Ext>,
    terminal: Ext,
    alpha: Ext,
    g: u64,
    d: nat,
) -> (q: Seq<Ext>)
    requires
        system_shaped(s),
        system_reads(s),
        columns_shaped(h, s, k),
        s.pubs <= pis.len(),
        constraints_fit(s, pow2(k), d),
        d >= pow2(k),
        g == two_adic_root(k),
        is_root(g, k),
        f_mul(g, f_inv(g)) == 1,
        vanishes_on_trace(s, h, k, pis, challenges, terminal, alpha),
    ensures
        is_quotient(s, h, k, pis, challenges, terminal, alpha, q),
        q.len() + pow2(k) <= d,
{
    let ov = |x: Ext| opened_at(s, h, k, pis, x);
    let lv = |x: Ext| read_at(h, k, challenges, terminal, x);
    let n = pow2(k);
    vstd::arithmetic::power2::lemma_pow2_pos(k);
    lemma_opened_poly(s, h, k, pis, g);
    lemma_read_poly(s, h, k, challenges, terminal, g);
    lemma_batched_poly(ov, lv, s, lifted(pis), challenges, seq![terminal], alpha, n, d);
    let f = |x: Ext| batched(s, ov(x), lv(x), alpha);
    assert forall|r: nat| r < n implies f(x_base(#[trigger] f_pow(g, r))) == x_zero() by {
        let x = x_base(f_pow(g, r));
        assert(f(x) == batched_at(s, h, k, pis, challenges, terminal, alpha, x));
        assert(batched_at(s, h, k, pis, challenges, terminal, alpha, x_base(f_pow(two_adic_root(k), r))) == x_zero());
    }
    let q = law_vanishing_divides(f, d, g, k);
    assert forall|x: Ext| #[trigger] batched_at(s, h, k, pis, challenges, terminal, alpha, x) == x_mul(
        vanishing(x, k),
        p_at(q, x),
    ) by {
        assert(f(x) == batched_at(s, h, k, pis, challenges, terminal, alpha, x));
    }
    q
}

#[verifier::rlimit(30)]
proof fn lemma_read_poly(s: SystemView, h: Columns, k: nat, challenges: Seq<Ext>, terminal: Ext, g: u64)
    requires
        columns_shaped(h, s, k),
        g == two_adic_root(k),
    ensures
        poly_lookup(|x: Ext| read_at(h, k, challenges, terminal, x), s, challenges, seq![terminal], pow2(k)),
{
    let lv = |x: Ext| read_at(h, k, challenges, terminal, x);
    let n = pow2(k);
    assert forall|c: int| 0 <= c <= s.lookups.len() implies is_poly(#[trigger] aux_curve(lv, c), n) by {
        let p = h.aux[c];
        lemma_poly_shown(p);
        let f = |x: Ext| p_at(p, x);
        assert forall|x: Ext| f(x) == #[trigger] aux_curve(lv, c)(x) by {
            lemma_at_reduced(p, x);
        }
        lemma_poly_same(f, aux_curve(lv, c), p.len(), n);
    }
    assert forall|c: int| 0 <= c <= s.lookups.len() implies is_poly(#[trigger] aux_next_curve(lv, c), n) by {
        let p = h.aux[c];
        let r = x_base(g);
        lemma_poly_dilate(p, r);
        let f = |x: Ext| p_at(p, x_mul(x, r));
        assert forall|x: Ext| f(x) == #[trigger] aux_next_curve(lv, c)(x) by {
            lemma_at_reduced(p, x_mul(x, r));
        }
        lemma_poly_same(f, aux_next_curve(lv, c), p.len(), n);
    }
}

/// A residue that is not zero has its inverse.
pub proof fn lemma_inverse(a: u64)
    requires
        f_red(a as int) != 0,
    ensures
        f_mul(a, f_inv(a)) == 1,
{
    law_nonzero_is_unit(a);
    let v = choose|v: u64| #[trigger] f_mul(a, v) == 1;
    let r = f_red(v as int);
    crate::field::lemma_red_mul(a as int, v as int);
    assert(f_mul(a, r) == 1 && r < MODULUS);
}

/// The roots of the trace domain and of the quotient domain: the second is of the first's order times the blowup.
pub open spec fn roots_nest(g: u64, w: u64, k: nat, l: nat) -> bool {
    &&& k <= l <= TWO_ADICITY
    &&& g == two_adic_root(k)
    &&& w == two_adic_root(l)
    &&& is_root(g, k)
    &&& is_root(w, l)
    &&& f_pow(w, pow2((l - k) as nat)) == g
}

/// A point of the quotient domain lies outside the trace domain.
#[verifier::spinoff_prover]
#[verifier::rlimit(40)]
pub(crate) proof fn lemma_coset_off(g: u64, w: u64, k: nat, l: nat, i: nat)
    requires
        roots_nest(g, w, k, l),
    ensures
        ({
            let x = quotient_point(l, i);
            &&& vanishing(x_base(x), k) == x_base(base_vanishing(x, k))
            &&& vanishing(x_base(x), k) != x_zero()
            &&& f_red(base_vanishing(x, k) as int) != 0
        }),
{
    let x = quotient_point(l, i);
    let (n, m, big) = (pow2(k), pow2((l - k) as nat), pow2(l));
    lemma_square_times_base(x, k);
    lemma_base(f_square_times(x, k), 1);
    lemma_base(1, 0);
    lemma_base(base_vanishing(x, k), 0);
    if f_red(base_vanishing(x, k) as int) == 0 {
        let y = f_square_times(x, k);
        crate::field::lemma_zero_difference(y, 1);
        lemma_square_times_pow(x, k);
        lemma_pow_canonical(x, n);
        assert(f_pow(x, n) == 1);
        // Raised to the order of the quotient domain, the shift would be one.
        vstd::arithmetic::power2::lemma_pow2_adds(k, (l - k) as nat);
        assert(n * m == big);
        lemma_pow_pow(x, n, m);
        crate::stark::domain::lemma_one_pow(m);
        lemma_pow_mul(GENERATOR, f_pow(w, i), big);
        lemma_pow_pow(w, i, big);
        lemma_pow_pow(w, big, i);
        assert(i * big == big * i) by (nonlinear_arith);
        lemma_square_times_pow(w, l);
        crate::stark::domain::lemma_one_pow(i);
        lemma_mul_one(f_pow(GENERATOR, big));
        lemma_pow_canonical(GENERATOR, big);
        assert(f_pow(7, big) == 1);
        vstd::arithmetic::power2::lemma_pow2_pos(l);
        crate::bits::lemma_pow2_monotone(l, 32);
        vstd::arithmetic::power2::lemma2_to64();
        lemma_seven_has_full_order(big);
    }
}

/// The point that follows on the quotient domain is the next point of the trace domain.
#[verifier::rlimit(30)]
proof fn lemma_next_on_coset(g: u64, w: u64, k: nat, l: nat, i: nat)
    requires
        roots_nest(g, w, k, l),
        i < pow2(l),
    ensures
        next_point(x_base(quotient_point(l, i)), k) == x_base(quotient_point(l, next_index(i as int, k, l) as nat)),
        0 <= next_index(i as int, k, l) < pow2(l),
{
    let (m, big) = (pow2((l - k) as nat), pow2(l));
    let x = quotient_point(l, i);
    vstd::arithmetic::power2::lemma_pow2_pos(l);
    let j = next_index(i as int, k, l);
    vstd::arithmetic::div_mod::lemma_mod_bound((i + m) as int, big as int);
    vstd::arithmetic::div_mod::lemma_fundamental_div_mod((i + m) as int, big as int);
    let q = ((i + m) as int / big as int) as nat;
    vstd::arithmetic::div_mod::lemma_div_pos_is_pos((i + m) as int, big as int);
    assert(i + m == big * q + j);
    lemma_pow_add(w, big * q, j as nat);
    lemma_pow_pow(w, big, q);
    lemma_square_times_pow(w, l);
    crate::stark::domain::lemma_one_pow(q);
    lemma_mul_one(f_pow(w, j as nat));
    lemma_pow_canonical(w, j as nat);
    assert(f_pow(w, i + m) == f_pow(w, j as nat));
    lemma_pow_add(w, i, m);
    lemma_base(x, g);
    lemma_mul_assoc(GENERATOR, f_pow(w, i), g);
}

/// The values on the quotient domain are those of the columns.
pub open spec fn extends(h: Columns, l: nat, trace: Seq<Seq<u64>>, aux: Seq<Seq<u64>>) -> bool {
    &&& trace.len() == pow2(l)
    &&& aux.len() == pow2(l)
    &&& forall|i: int|
        0 <= i < pow2(l) ==> lifted(#[trigger] trace[i]) == values_at(h.trace, x_base(quotient_point(l, i as nat)))
    &&& forall|i: int|
        0 <= i < pow2(l) ==> paired_row(#[trigger] aux[i]) == values_at(h.aux, x_base(quotient_point(l, i as nat)))
}

/// A selector at a point of the quotient domain.
#[verifier::rlimit(30)]
proof fn lemma_selector_on_coset(g: u64, w: u64, k: nat, l: nat, i: nat, a: u64)
    requires
        roots_nest(g, w, k, l),
        vanishing(x_base(a), k) == x_zero(),
    ensures
        ({
            let x = quotient_point(l, i);
            p_at(selector_poly(k, x_base(a)), x_base(x)) == x_base(f_mul(base_vanishing(x, k), f_inv(f_sub(x, a))))
        }),
{
    let x = quotient_point(l, i);
    let (z, d) = (base_vanishing(x, k), f_sub(x, a));
    lemma_coset_off(g, w, k, l, i);
    lemma_base(x, a);
    lemma_base(a, 0);
    lemma_base(x, 0);
    assert(x_red(x_base(x)) != x_red(x_base(a)));
    lemma_selector(k, x_base(a), x_base(x));
    lemma_difference(x_base(x), x_base(a));
    lemma_base(d, 0);
    lemma_inverse(d);
    lemma_base(d, f_inv(d));
    lemma_base(1, 0);
    // Both inverses of the difference are the same.
    let (e, u, v) = (x_base(d), x_inv(x_base(d)), x_base(f_inv(d)));
    lemma_reduced(e, e);
    lemma_cancels(e, u, v);
    lemma_base(z, f_inv(d));
    lemma_products(x_base(z), u, u);
    lemma_products(x_base(z), v, v);
}

/// What is read at a point of the quotient domain is what the columns open to there.
#[verifier::spinoff_prover]
#[verifier::rlimit(60)]
proof fn lemma_quotient_reads(
    s: SystemView,
    h: Columns,
    k: nat,
    l: nat,
    trace: Seq<Seq<u64>>,
    aux: Seq<Seq<u64>>,
    pis: Seq<u64>,
    challenges: Seq<Ext>,
    terminal: Ext,
    g: u64,
    w: u64,
    i: int,
)
    requires
        roots_nest(g, w, k, l),
        extends(h, l, trace, aux),
        0 <= i < pow2(l),
    ensures
        quotient_openings(s, k, l, trace, pis, i) == opened_at(s, h, k, pis, x_base(quotient_point(l, i as nat))),
        quotient_lookup(k, l, aux, challenges, terminal, i) == read_at(
            h,
            k,
            challenges,
            terminal,
            x_base(quotient_point(l, i as nat)),
        ),
{
    let x = quotient_point(l, i as nat);
    let j = next_index(i, k, l);
    let g_inv = f_inv(g);
    lemma_next_on_coset(g, w, k, l, i as nat);
    assert(lifted(trace[i]) == values_at(h.trace, x_base(x)));
    assert(lifted(trace[j]) == values_at(h.trace, next_point(x_base(x), k)));
    assert(paired_row(aux[i]) == values_at(h.aux, x_base(x)));
    assert(paired_row(aux[j]) == values_at(h.aux, next_point(x_base(x), k)));
    lemma_base(g, 0);
    assert(f_red(g as int) == g);
    lemma_inverse(g);
    lemma_ends(k, g);
    lemma_base(1, 0);
    lemma_selector_on_coset(g, w, k, l, i as nat, 1);
    lemma_selector_on_coset(g, w, k, l, i as nat, g_inv);
    lemma_base(x, g_inv);
    assert(periodic_row(s, k, l, i) =~= columns_at(s.periodic, k, x_base(x)));
    assert(quotient_openings(s, k, l, trace, pis, i) =~= opened_at(s, h, k, pis, x_base(x)));
}

/// The values of the quotient on its domain are those of a polynomial that divides the batched constraints everywhere,
/// and is by the trace's length shorter than they are.
pub open spec fn exact(
    s: SystemView,
    h: Columns,
    k: nat,
    l: nat,
    pis: Seq<u64>,
    challenges: Seq<Ext>,
    terminal: Ext,
    alpha: Ext,
    d: nat,
    values: Seq<Ext>,
    q: Seq<Ext>,
) -> bool {
    &&& is_quotient(s, h, k, pis, challenges, terminal, alpha, q)
    &&& q.len() + pow2(k) <= d
    &&& forall|i: int|
        0 <= i < values.len() ==> #[trigger] values[i] == p_at(q, x_base(quotient_point(l, i as nat)))
}

/// What an honest prover evaluates: polynomials of the trace's length, on the quotient domain, whose constraints have at
/// most `d` coefficients and vanish on the trace domain.
pub open spec fn honest(
    s: SystemView,
    h: Columns,
    k: nat,
    l: nat,
    trace: Seq<Seq<u64>>,
    aux: Seq<Seq<u64>>,
    pis: Seq<u64>,
    challenges: Seq<Ext>,
    terminal: Ext,
    alpha: Ext,
    d: nat,
) -> bool {
    &&& columns_shaped(h, s, k)
    &&& extends(h, l, trace, aux)
    &&& constraints_fit(s, pow2(k), d)
    &&& d >= pow2(k)
    &&& vanishes_on_trace(s, h, k, pis, challenges, terminal, alpha)
}

/// Whatever polynomials an honest prover evaluates, the values of its quotient are exact.
#[verifier::opaque]
pub open spec fn exact_if_honest(
    s: SystemView,
    k: nat,
    l: nat,
    trace: Seq<Seq<u64>>,
    aux: Seq<Seq<u64>>,
    pis: Seq<u64>,
    challenges: Seq<Ext>,
    terminal: Ext,
    alpha: Ext,
    values: Seq<Ext>,
) -> bool {
    forall|h: Columns, d: nat|
        #[trigger] honest(s, h, k, l, trace, aux, pis, challenges, terminal, alpha, d) ==> exists|q: Seq<Ext>|
            #[trigger] exact(s, h, k, l, pis, challenges, terminal, alpha, d, values, q)
}

/// The quotient of an honest prover is exact.
#[verifier::spinoff_prover]
#[verifier::rlimit(60)]
pub proof fn law_quotient_is_exact(
    s: SystemView,
    h: Columns,
    k: nat,
    l: nat,
    trace: Seq<Seq<u64>>,
    aux: Seq<Seq<u64>>,
    pis: Seq<u64>,
    challenges: Seq<Ext>,
    terminal: Ext,
    alpha: Ext,
    d: nat,
    values: Seq<Ext>,
    g: u64,
    w: u64,
) -> (q: Seq<Ext>)
    requires
        system_shaped(s),
        system_reads(s),
        s.pubs <= pis.len(),
        roots_nest(g, w, k, l),
        honest(s, h, k, l, trace, aux, pis, challenges, terminal, alpha, d),
        values.len() == pow2(l),
        forall|i: int|
            0 <= i < values.len() ==> #[trigger] values[i] == quotient_at(
                s,
                k,
                l,
                trace,
                aux,
                alpha,
                challenges,
                terminal,
                pis,
                i,
            ),
    ensures
        exact(s, h, k, l, pis, challenges, terminal, alpha, d, values, q),
{
    lemma_base(g, 0);
    assert(f_red(g as int) == g);
    lemma_inverse(g);
    let q = law_quotient_exists(s, h, k, pis, challenges, terminal, alpha, g, d);
    assert forall|i: int| 0 <= i < values.len() implies #[trigger] values[i] == p_at(
        q,
        x_base(quotient_point(l, i as nat)),
    ) by {
        let x = quotient_point(l, i as nat);
        let z = base_vanishing(x, k);
        lemma_quotient_reads(s, h, k, l, trace, aux, pis, challenges, terminal, g, w, i);
        lemma_coset_off(g, w, k, l, i as nat);
        assert(batched_at(s, h, k, pis, challenges, terminal, alpha, x_base(x)) == x_mul(
            vanishing(x_base(x), k),
            p_at(q, x_base(x)),
        ));
        lemma_inverse(z);
        lemma_base(z, f_inv(z));
        lemma_base(1, 0);
        let v = p_at(q, x_base(x));
        lemma_at_reduced(q, x_base(x));
        lemma_products(x_base(z), v, x_base(f_inv(z)));
        lemma_products(x_base(z), x_base(f_inv(z)), v);
        lemma_products(v, v, v);
    }
    q
}

/// The generators of the trace domain and of the quotient domain.
pub fn domain_roots(log_n: usize, log_q: usize) -> (r: (u64, u64))
    requires
        log_n <= log_q <= TWO_ADICITY,
    ensures
        roots_nest(r.0, r.1, log_n as nat, log_q as nat),
{
    let g: u64 = two_adic_generator(log_n);
    let mut w: u64 = g;
    let mut b: usize = log_n;
    proof {
        vstd::arithmetic::power2::lemma2_to64();
        assert(f_pow(w, 1) == f_mul(f_pow(w, 0), w));
        lemma_mul_one(w);
    }
    while b < log_q
        invariant
            log_n <= b <= log_q <= TWO_ADICITY,
            w == two_adic_root(b as nat),
            is_root(w, b as nat),
            f_pow(w, pow2((b - log_n) as nat)) == g,
        decreases log_q - b,
    {
        b += 1;
        let next: u64 = two_adic_generator(b);
        proof {
            let (m, l) = (pow2((b - 1 - log_n) as nat), (b - log_n) as nat);
            vstd::arithmetic::power2::lemma_pow2_unfold(l);
            assert(f_pow(next, 1) == f_mul(f_pow(next, 0), next));
            lemma_mul_one(next);
            lemma_pow_add(next, 1, 1);
            lemma_pow_pow(next, 2, m);
            assert(f_pow(next, 2) == w);
            assert(2 * m == pow2(l));
        }
        w = next;
    }
    (g, w)
}

} // verus!
