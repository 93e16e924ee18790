//! A polynomial comes back from its chunks: on each coset of the trace domain a chunk has its values, and the weights put
//! the chunks together everywhere.

use vstd::arithmetic::power2::pow2;
use vstd::prelude::*;

use crate::field::{
    f_inv, f_mul, f_pow, f_red, f_square_times, lemma_cancel, lemma_mul_one, lemma_pow_add, lemma_pow_canonical,
    lemma_pow_mul, lemma_pow_pow, lemma_square_times_pow, x_add, x_base, x_mul, x_one, x_red, x_sub, x_zero, Ext,
    GENERATOR,
};
use crate::lookup::exact::{lemma_inverse, roots_nest};
use crate::lookup::quotient::quotient_point;
use crate::poly::{
    distinct, is_poly, law_too_many_roots, lemma_at_reduced, lemma_poly_add, lemma_poly_const, lemma_poly_dilate,
    lemma_poly_mul, lemma_poly_same, lemma_poly_scale, lemma_poly_shown, lemma_poly_sub, p_at, shows,
};
use crate::ring::{lemma_base, lemma_difference, lemma_products, lemma_reduced, lemma_undo};
use crate::stark::domain::{
    chunk_gap, chunk_shift, chunk_value, chunk_vanishing, chunk_weight, chunk_weights, lemma_gap_nonzero,
    lemma_generator_inverse, lemma_one_pow, lemma_shift_unit, lemma_square_times_base, recomposed, GENERATOR_INVERSE,
};
use crate::stark::subgroup::{lemma_powers_differ, lemma_subgroup_poly, subgroup_poly};

verus! {

/// The shift of a chunk has its inverse.
proof fn lemma_shift(g: u64, w: u64, k: nat, c: nat, i: nat)
    requires
        roots_nest(g, w, k, k + c),
        i <= pow2(k + c),
    ensures
        f_mul(chunk_shift(k, c, i), f_inv(chunk_shift(k, c, i))) == 1,
        chunk_shift(k, c, i) == f_mul(GENERATOR, f_pow(w, i)),
{
    lemma_square_times_pow(w, k + c);
    lemma_shift_unit(w, pow2(k + c), i);
    lemma_inverse(chunk_shift(k, c, i));
}

/// On its own coset the n-th power of a point is that of the shift.
#[verifier::rlimit(30)]
proof fn lemma_point_power(g: u64, w: u64, k: nat, c: nat, p: nat)
    requires
        roots_nest(g, w, k, k + c),
        p < pow2(k + c),
    ensures
        p % pow2(c) < pow2(c),
        f_pow(quotient_point(k + c, p), pow2(k)) == f_pow(chunk_shift(k, c, p % pow2(c)), pow2(k)),
{
    let (n, m, big) = (pow2(k), pow2(c), pow2(k + c));
    vstd::arithmetic::power2::lemma_pow2_pos(c);
    vstd::arithmetic::power2::lemma_pow2_adds(k, c);
    let (i, j) = (p % m, p / m);
    vstd::arithmetic::div_mod::lemma_fundamental_div_mod(p as int, m as int);
    vstd::arithmetic::div_mod::lemma_mod_bound(p as int, m as int);
    assert(p * n == i * n + big * j) by (nonlinear_arith)
        requires
            p == m * j + i,
            big == n * m,
    ;
    lemma_pow_mul(GENERATOR, f_pow(w, p), n);
    lemma_pow_mul(GENERATOR, f_pow(w, i), n);
    lemma_pow_pow(w, p, n);
    lemma_pow_pow(w, i, n);
    lemma_pow_add(w, i * n, big * j);
    lemma_pow_pow(w, big, j);
    lemma_square_times_pow(w, k + c);
    lemma_one_pow(j);
    lemma_mul_one(f_pow(w, i * n));
    lemma_pow_canonical(w, i * n);
}

/// A chunk's vanishing polynomial at a point of the domain.
#[verifier::rlimit(30)]
proof fn lemma_vanishing_at_point(g: u64, w: u64, k: nat, c: nat, p: nat, o: nat)
    requires
        roots_nest(g, w, k, k + c),
        p < pow2(k + c),
        o < pow2(c),
    ensures
        ({
            let at = p % pow2(c);
            let (x, s) = (quotient_point(k + c, p), chunk_shift(k, c, o));
            &&& at < pow2(c)
            &&& chunk_vanishing(x_base(x), s, k) == x_base(chunk_gap(s, chunk_shift(k, c, at), k))
            &&& o == at ==> chunk_gap(s, chunk_shift(k, c, at), k) == 0
            &&& o != at ==> f_red(chunk_gap(s, chunk_shift(k, c, at), k) as int) != 0
        }),
{
    let (n, m, big) = (pow2(k), pow2(c), pow2(k + c));
    let at = p % m;
    let (x, s, t) = (quotient_point(k + c, p), chunk_shift(k, c, o), chunk_shift(k, c, at));
    let v = f_inv(s);
    vstd::arithmetic::power2::lemma_pow2_adds(k, c);
    vstd::arithmetic::power2::lemma_pow2_pos(k);
    vstd::arithmetic::power2::lemma_pow2_pos(c);
    vstd::arithmetic::div_mod::lemma_mod_bound(p as int, m as int);
    assert(m <= big) by (nonlinear_arith)
        requires
            big == n * m,
            n >= 1,
    ;
    lemma_point_power(g, w, k, c, p);
    lemma_shift(g, w, k, c, o);
    lemma_shift(g, w, k, c, at);
    lemma_base(x, v);
    lemma_square_times_base(f_mul(x, v), k);
    lemma_square_times_pow(f_mul(x, v), k);
    lemma_square_times_pow(f_mul(t, v), k);
    lemma_pow_mul(x, v, n);
    lemma_pow_mul(t, v, n);
    lemma_base(f_square_times(f_mul(x, v), k), 1);
    lemma_base(1, 0);
    if o == at {
        lemma_square_times_pow(1, k);
        lemma_one_pow(n);
        assert(f_mul(t, v) == 1);
        crate::field::lemma_zero_difference(1, 1);
    } else {
        lemma_square_times_pow(w, k + c);
        lemma_gap_nonzero(w, k, c, at, o);
        assert(f_red(chunk_gap(s, t, k) as int) == chunk_gap(s, t, k)) by {
            crate::field::lemma_red_add(f_square_times(f_mul(t, v), k) as int, 1);
        }
    }
}

/// On the points of a coset the weight of its chunk is one, and the others are zero.
#[verifier::rlimit(30)]
proof fn lemma_weight_at_point(g: u64, w: u64, k: nat, c: nat, p: nat, i: nat, t: nat)
    requires
        roots_nest(g, w, k, k + c),
        p < pow2(k + c),
        i < pow2(c),
        t <= pow2(c),
    ensures
        i == p % pow2(c) ==> chunk_weight(x_base(quotient_point(k + c, p)), k, c, i, t) == x_one(),
        i != p % pow2(c) && p % pow2(c) < t ==> chunk_weight(x_base(quotient_point(k + c, p)), k, c, i, t) == x_zero(),
    decreases t,
{
    let x = x_base(quotient_point(k + c, p));
    let at = p % pow2(c);
    if t > 0 {
        let o = (t - 1) as nat;
        lemma_weight_at_point(g, w, k, c, p, i, o);
        lemma_vanishing_at_point(g, w, k, c, p, o);
        if o != i {
            let other = chunk_shift(k, c, o);
            let gap = chunk_gap(other, chunk_shift(k, c, i), k);
            let before = chunk_weight(x, k, c, i, o);
            let f = x_mul(chunk_vanishing(x, other, k), x_base(f_inv(gap)));
            if i == at {
                lemma_inverse(gap);
                lemma_base(gap, f_inv(gap));
                lemma_base(1, 0);
                lemma_products(x_one(), x_one(), x_one());
                lemma_reduced(x_one(), x_one());
            } else if o == at {
                lemma_base(0, 0);
                lemma_products(x_base(f_inv(gap)), before, before);
                lemma_products(before, before, before);
            } else {
                lemma_products(f, f, f);
            }
        }
    }
}

/// A chunk's vanishing polynomial is a polynomial.
proof fn lemma_vanishing_poly(s: u64, k: nat)
    ensures
        is_poly(|x: Ext| chunk_vanishing(x, s, k), pow2(k) + 1),
{
    let z = subgroup_poly(k);
    let b = x_base(f_inv(s));
    lemma_subgroup_poly(k, b);
    lemma_poly_dilate(z, b);
    let f = |x: Ext| p_at(z, x_mul(x, b));
    let h = |x: Ext| chunk_vanishing(x, s, k);
    assert forall|x: Ext| f(x) == #[trigger] h(x) by {
        lemma_subgroup_poly(k, x_mul(x, b));
    }
    lemma_poly_same(f, h, z.len(), pow2(k) + 1);
}

/// How many of the first `t` chunks are others than `i`.
pub open spec fn others(i: nat, t: nat) -> nat {
    if t > i {
        (t - 1) as nat
    } else {
        t
    }
}

/// A weight is a polynomial.
#[verifier::rlimit(30)]
proof fn lemma_chunk_weight_poly(k: nat, c: nat, i: nat, t: nat)
    ensures
        is_poly(|x: Ext| chunk_weight(x, k, c, i, t), others(i, t) * pow2(k) + 1),
    decreases t,
{
    let n = pow2(k);
    let f = |x: Ext| chunk_weight(x, k, c, i, t);
    if t == 0 {
        lemma_poly_const(x_one());
        lemma_reduced(x_one(), x_one());
        assert(0 * n == 0);
        lemma_poly_same(|x: Ext| x_red(x_one()), f, 1, 1);
    } else {
        let o = (t - 1) as nat;
        let p = |x: Ext| chunk_weight(x, k, c, i, o);
        lemma_chunk_weight_poly(k, c, i, o);
        let d = others(i, o) * n + 1;
        if o == i {
            lemma_poly_same(p, f, d, d);
        } else {
            let other = chunk_shift(k, c, o);
            let b = x_base(f_inv(chunk_gap(other, chunk_shift(k, c, i), k)));
            let u = |x: Ext| chunk_vanishing(x, other, k);
            lemma_vanishing_poly(other, k);
            lemma_poly_scale(b, u, n + 1);
            let v = |x: Ext| x_mul(b, u(x));
            lemma_poly_mul(p, v, d, n + 1);
            let h = |x: Ext| x_mul(p(x), v(x));
            assert forall|x: Ext| h(x) == #[trigger] f(x) by {
                lemma_products(b, chunk_vanishing(x, other, k), b);
            }
            assert(others(i, t) == others(i, o) + 1);
            assert((others(i, o) + 1) * n == others(i, o) * n + n) by (nonlinear_arith);
            lemma_poly_same(h, f, (d + (n + 1) - 1) as nat, others(i, t) * n + 1);
        }
    }
}

/// The first `t` chunks put together at a point.
pub open spec fn chunks_at(cs: Seq<Seq<Ext>>, k: nat, c: nat, x: Ext, t: nat) -> Ext
    decreases t,
{
    if t == 0 {
        x_zero()
    } else {
        x_add(
            chunks_at(cs, k, c, x, (t - 1) as nat),
            x_mul(chunk_weight(x, k, c, (t - 1) as nat, pow2(c)), p_at(cs[t - 1], x)),
        )
    }
}

#[verifier::rlimit(30)]
proof fn lemma_chunks_poly(cs: Seq<Seq<Ext>>, k: nat, c: nat, t: nat)
    requires
        t <= cs.len(),
        cs.len() == pow2(c),
        forall|i: int| 0 <= i < cs.len() ==> (#[trigger] cs[i]).len() <= pow2(k),
    ensures
        is_poly(|x: Ext| chunks_at(cs, k, c, x, t), pow2(c) * pow2(k)),
    decreases t,
{
    let (n, m) = (pow2(k), pow2(c));
    let f = |x: Ext| chunks_at(cs, k, c, x, t);
    let d = m * n;
    vstd::arithmetic::power2::lemma_pow2_pos(k);
    vstd::arithmetic::power2::lemma_pow2_pos(c);
    assert(d >= 1 && (m - 1) * n + n == d) by (nonlinear_arith)
        requires
            d == m * n,
            m >= 1,
            n >= 1,
    ;
    if t == 0 {
        lemma_poly_const(x_zero());
        lemma_reduced(x_zero(), x_zero());
        lemma_poly_same(|x: Ext| x_red(x_zero()), f, 1, d);
    } else {
        let i = (t - 1) as nat;
        let p = |x: Ext| chunks_at(cs, k, c, x, i);
        lemma_chunks_poly(cs, k, c, i);
        let u = |x: Ext| chunk_weight(x, k, c, i, m);
        let v = |x: Ext| p_at(cs[i as int], x);
        lemma_chunk_weight_poly(k, c, i, m);
        lemma_poly_shown(cs[i as int]);
        lemma_poly_same(v, v, cs[i as int].len(), n);
        lemma_poly_mul(u, v, (m - 1) as nat * n + 1, n);
        let h = |x: Ext| x_mul(u(x), v(x));
        lemma_poly_same(h, h, ((m - 1) as nat * n + 1 + n - 1) as nat, d);
        lemma_poly_add(p, h, d, d);
        lemma_poly_same(|x: Ext| x_add(p(x), h(x)), f, d, d);
    }
}

/// On a point of the domain the chunks put together are the chunk of its coset.
#[verifier::rlimit(30)]
proof fn lemma_chunks_at_point(g: u64, w: u64, cs: Seq<Seq<Ext>>, k: nat, c: nat, p: nat, t: nat)
    requires
        roots_nest(g, w, k, k + c),
        p < pow2(k + c),
        cs.len() == pow2(c),
        t <= cs.len(),
    ensures
        ({
            let x = x_base(quotient_point(k + c, p));
            let at = p % pow2(c);
            &&& at < pow2(c)
            &&& chunks_at(cs, k, c, x, t) == (if at < t {
                p_at(cs[at as int], x)
            } else {
                x_zero()
            })
        }),
    decreases t,
{
    let x = x_base(quotient_point(k + c, p));
    let at = p % pow2(c);
    vstd::arithmetic::power2::lemma_pow2_pos(c);
    vstd::arithmetic::div_mod::lemma_mod_bound(p as int, pow2(c) as int);
    if t > 0 {
        let i = (t - 1) as nat;
        lemma_chunks_at_point(g, w, cs, k, c, p, i);
        lemma_weight_at_point(g, w, k, c, p, i, pow2(c));
        let v = p_at(cs[i as int], x);
        lemma_at_reduced(cs[i as int], x);
        lemma_at_reduced(cs[at as int], x);
        lemma_products(v, v, v);
        lemma_undo(v, v, v);
        lemma_undo(p_at(cs[at as int], x), v, v);
        lemma_undo(x_zero(), v, v);
        lemma_reduced(x_zero(), x_zero());
    }
}

/// The points of the quotient domain.
pub open spec fn quotient_points(l: nat) -> Seq<Ext> {
    Seq::new(pow2(l), |p: int| x_base(quotient_point(l, p as nat)))
}

#[verifier::rlimit(30)]
proof fn lemma_quotient_points_distinct(g: u64, w: u64, k: nat, l: nat)
    requires
        roots_nest(g, w, k, l),
    ensures
        distinct(quotient_points(l)),
{
    let ps = quotient_points(l);
    assert forall|i: int, j: int| 0 <= i < j < ps.len() implies x_red(#[trigger] ps[i]) != x_red(#[trigger] ps[j]) by {
        let (a, b) = (f_pow(w, i as nat), f_pow(w, j as nat));
        lemma_powers_differ(w, l, i as nat, j as nat);
        lemma_pow_canonical(w, i as nat);
        lemma_pow_canonical(w, j as nat);
        lemma_base(f_mul(GENERATOR, a), 0);
        lemma_base(f_mul(GENERATOR, b), 0);
        if x_red(ps[i]) == x_red(ps[j]) {
            assert(f_mul(GENERATOR, a) == f_mul(GENERATOR, b));
            lemma_generator_inverse();
            lemma_cancel(GENERATOR, GENERATOR_INVERSE, a, b);
        }
    }
}

/// The chunks of a polynomial: chunk `i` has its values on the points whose number leaves `i`.
pub open spec fn splits(q: Seq<Ext>, cs: Seq<Seq<Ext>>, k: nat, c: nat) -> bool {
    &&& cs.len() == pow2(c)
    &&& forall|i: int| 0 <= i < cs.len() ==> (#[trigger] cs[i]).len() <= pow2(k)
    &&& forall|p: nat|
        p < pow2(k + c) ==> p_at(cs[(p % pow2(c)) as int], #[trigger] x_base(quotient_point(k + c, p))) == p_at(
            q,
            x_base(quotient_point(k + c, p)),
        )
}

/// A polynomial that fits its chunks is put together from them at every point.
#[verifier::spinoff_prover]
#[verifier::rlimit(60)]
pub proof fn law_chunks_recompose(g: u64, w: u64, q: Seq<Ext>, cs: Seq<Seq<Ext>>, k: nat, c: nat, x: Ext)
    requires
        roots_nest(g, w, k, k + c),
        splits(q, cs, k, c),
        q.len() <= pow2(c) * pow2(k),
    ensures
        chunks_at(cs, k, c, x, pow2(c)) == p_at(q, x),
{
    let (n, m) = (pow2(k), pow2(c));
    let d = m * n;
    let f = |y: Ext| chunks_at(cs, k, c, y, m);
    let h = |y: Ext| p_at(q, y);
    let e = |y: Ext| x_sub(f(y), h(y));
    vstd::arithmetic::power2::lemma_pow2_adds(k, c);
    assert(m * n == n * m) by (nonlinear_arith);
    lemma_chunks_poly(cs, k, c, m);
    lemma_poly_shown(q);
    lemma_poly_same(h, h, q.len(), d);
    lemma_poly_sub(f, h, d, d);
    let p = choose|p: Seq<Ext>| #[trigger] shows(e, p) && p.len() <= d;
    let ps = quotient_points(k + c);
    lemma_quotient_points_distinct(g, w, k, k + c);
    assert forall|i: int| 0 <= i < ps.len() implies p_at(p, #[trigger] ps[i]) == x_zero() by {
        let y = x_base(quotient_point(k + c, i as nat));
        assert(e(y) == p_at(p, y));
        lemma_chunks_at_point(g, w, cs, k, c, i as nat, m);
        assert(p_at(cs[(i as nat % m) as int], x_base(quotient_point(k + c, i as nat))) == p_at(q, y));
        lemma_undo(p_at(q, y), y, y);
    }
    law_too_many_roots(p, ps, x);
    assert(e(x) == p_at(p, x));
    lemma_difference(f(x), h(x));
    lemma_at_reduced(q, x);
    assert(x_red(f(x)) == f(x)) by {
        if m > 0 {
            lemma_reduced(
                chunks_at(cs, k, c, x, (m - 1) as nat),
                x_mul(chunk_weight(x, k, c, (m - 1) as nat, m), p_at(cs[m - 1], x)),
            );
        }
        vstd::arithmetic::power2::lemma_pow2_pos(c);
    }
}

/// The quotient that the verifier puts together from opened chunks.
pub proof fn lemma_recomposed(cs: Seq<Seq<Ext>>, chunks: Seq<Vec<Ext>>, k: nat, c: nat, x: Ext, t: nat)
    requires
        t <= pow2(c),
        forall|i: int| 0 <= i < t ==> chunk_value((#[trigger] chunks[i])@) == p_at(cs[i], x),
    ensures
        recomposed(chunk_weights(x, k, c), chunks, t) == chunks_at(cs, k, c, x, t),
    decreases t,
{
    if t > 0 {
        lemma_recomposed(cs, chunks, k, c, x, (t - 1) as nat);
        assert(chunk_value(chunks[t - 1]@) == p_at(cs[t - 1], x));
    }
}

} // verus!
