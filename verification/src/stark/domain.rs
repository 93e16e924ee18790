//! The trace domain and the quotient's chunk domains: vanishing polynomials, selectors, recomposition.

use p3_commit::PolynomialSpace;
use p3_field::coset::TwoAdicMultiplicativeCoset;
use p3_field::extension::BinomialExtensionField;
use p3_field::{BasedVectorSpace, PrimeCharacteristicRing, PrimeField64};
use p3_goldilocks::Goldilocks;
use vstd::arithmetic::power2::pow2;
use vstd::prelude::*;

use crate::bits::shifted_one;
use crate::field::{
    exp_power_of_2, exp_u64, f_inv, f_mul, f_pow, f_red, f_square_times, f_sub, finv, fmul, fsub, lemma_cancel,
    lemma_mul_assoc, lemma_mul_one, lemma_pow_add, lemma_pow_canonical, lemma_pow_mul, lemma_pow_pow,
    lemma_same_iff_zero_difference, lemma_square_times_pow, lemma_unit_nonzero, lemma_x_mul_assoc, lemma_x_mul_base,
    lemma_x_mul_comm, lemma_x_mul_one, lemma_zero_difference, two_adic_generator, two_adic_root, x_add, x_base, x_inv,
    x_mul, x_one, x_red, x_same, x_square_times, x_sub, x_zero, Ext, GENERATOR, MODULUS, TWO_ADICITY,
};
use crate::fri::fold::lagrange;

verus! {

/// The inverse of the coset shift.
pub const GENERATOR_INVERSE: u64 = 2635249152773512046;

/// The trace domain's vanishing polynomial: point^n - 1, for the subgroup of order n = 2^log_size.
pub open spec fn vanishing(point: Ext, log_size: nat) -> Ext {
    x_sub(x_square_times(point, log_size), x_one())
}

/// The trace domain's vanishing polynomial at a point.
pub fn vanishing_at(point: Ext, log_size: usize) -> (r: Ext)
    ensures
        r == vanishing(point, log_size as nat),
{
    point.exp_power_of_2(log_size).minus(Ext::one())
}

/// The next point of the trace domain.
pub open spec fn next_point(point: Ext, log_size: nat) -> Ext {
    x_mul(point, x_base(two_adic_root(log_size)))
}

/// The next point of the trace domain.
pub fn next_point_of(point: Ext, log_size: usize) -> (r: Ext)
    requires
        log_size <= TWO_ADICITY,
    ensures
        r == next_point(point, log_size as nat),
{
    point.times(Ext::from_base(two_adic_generator(log_size)))
}

/// The selectors of the first row, the last row and all rows but the last, and the inverse of the vanishing
/// polynomial, at a point.
#[derive(Clone, Copy)]
pub struct Selectors {
    pub is_first_row: Ext,
    pub is_last_row: Ext,
    pub is_transition: Ext,
    pub inv_vanishing: Ext,
}

/// The last point of the trace domain.
pub open spec fn last_point(log_size: nat) -> Ext {
    x_base(f_inv(two_adic_root(log_size)))
}

/// The selectors at a point off the trace domain.
pub open spec fn selectors(point: Ext, log_size: nat) -> Selectors {
    let z_h = vanishing(point, log_size);
    Selectors {
        is_first_row: x_mul(z_h, x_inv(x_sub(point, x_one()))),
        is_last_row: x_mul(z_h, x_inv(x_sub(point, last_point(log_size)))),
        is_transition: x_sub(point, last_point(log_size)),
        inv_vanishing: x_inv(z_h),
    }
}

/// Squaring does not depend on the representative.
pub(crate) proof fn lemma_square_times_same(a: Ext, b: Ext, n: nat)
    requires
        x_same(a, b),
    ensures
        x_square_times(a, n) == x_square_times(b, n),
    decreases n,
{
    if n > 0 {
        lemma_square_times_same(a, b, (n - 1) as nat);
    }
}

/// Squaring in the base field is squaring in the extension.
pub(crate) proof fn lemma_square_times_base(a: u64, n: nat)
    ensures
        x_square_times(x_base(a), n) == x_base(f_square_times(a, n)),
    decreases n,
{
    if n == 0 {
        assert(f_red(f_red(a as int) as int) == f_red(a as int));
    } else {
        lemma_square_times_base(a, (n - 1) as nat);
        let v = f_square_times(a, (n - 1) as nat);
        lemma_x_mul_base(v, v);
    }
}

/// A point of the trace domain is a root of the vanishing polynomial.
pub(crate) proof fn lemma_root_vanishes(point: Ext, a: u64, log_size: nat)
    requires
        x_same(point, x_base(a)),
        f_square_times(a, log_size) == 1,
    ensures
        x_same(vanishing(point, log_size), x_zero()),
{
    lemma_square_times_same(point, x_base(a), log_size);
    lemma_square_times_base(a, log_size);
    lemma_same_iff_zero_difference(x_square_times(point, log_size), x_one());
}

/// A point off the trace domain is neither its first point nor its last.
#[verifier::spinoff_prover]
pub(crate) proof fn lemma_off_ends(point: Ext, g: u64, g_inv: u64, log_size: nat)
    requires
        !x_same(vanishing(point, log_size), x_zero()),
        f_square_times(g, log_size) == 1,
        f_mul(g, g_inv) == 1,
    ensures
        !x_same(x_sub(point, x_one()), x_zero()),
        !x_same(x_sub(point, x_base(g_inv)), x_zero()),
{
    lemma_same_iff_zero_difference(point, x_one());
    lemma_same_iff_zero_difference(point, x_base(g_inv));
    lemma_square_times_pow(g, log_size);
    if x_same(point, x_one()) {
        assert(x_base(1) == x_one());
        lemma_one_pow(pow2(log_size));
        lemma_square_times_pow(1, log_size);
        lemma_root_vanishes(point, 1, log_size);
    }
    if x_same(point, x_base(g_inv)) {
        lemma_square_times_pow(g_inv, log_size);
        lemma_pow_mul(g, g_inv, pow2(log_size));
        lemma_one_pow(pow2(log_size));
        lemma_mul_one(f_pow(g_inv, pow2(log_size)));
        lemma_pow_canonical(g_inv, pow2(log_size));
        lemma_root_vanishes(point, g_inv, log_size);
    }
}

/// The selectors at a point. The point may not lie on the domain.
#[verifier::spinoff_prover]
#[verifier::rlimit(40)]
pub fn selectors_at_point(point: Ext, log_size: usize) -> (r: Selectors)
    requires
        log_size <= TWO_ADICITY,
        !x_same(vanishing(point, log_size as nat), x_zero()),
    ensures
        r == selectors(point, log_size as nat),
        x_mul(r.is_first_row, x_sub(point, x_one())) == vanishing(point, log_size as nat),
        x_mul(r.is_last_row, r.is_transition) == vanishing(point, log_size as nat),
        x_mul(r.inv_vanishing, vanishing(point, log_size as nat)) == x_one(),
{
    let z_h: Ext = vanishing_at(point, log_size);
    let g_inv: u64 = generator_inverse(log_size);
    let from_last: Ext = point.minus(Ext::from_base(g_inv));
    let from_first: Ext = point.minus(Ext::one());
    proof {
        lemma_off_ends(point, two_adic_root(log_size as nat), g_inv, log_size as nat);
        lemma_vanishing_canonical(point, log_size as nat);
    }
    let is_first_row: Ext = divided(z_h, from_first);
    let is_last_row: Ext = divided(z_h, from_last);
    let inv_vanishing: Ext = invert(z_h);
    proof {
        lemma_x_mul_comm(inv_vanishing, z_h);
    }
    Selectors { is_first_row, is_last_row, is_transition: from_last, inv_vanishing }
}

/// The vanishing polynomial's value is canonical.
pub(crate) proof fn lemma_vanishing_canonical(point: Ext, log_size: nat)
    ensures
        x_red(vanishing(point, log_size)) == vanishing(point, log_size),
{
}

/// The inverse of the trace domain's generator.
fn generator_inverse(log_size: usize) -> (r: u64)
    requires
        log_size <= TWO_ADICITY,
    ensures
        r == f_inv(two_adic_root(log_size as nat)),
        f_mul(two_adic_root(log_size as nat), r) == 1,
        f_square_times(two_adic_root(log_size as nat), log_size as nat) == 1,
{
    let g: u64 = two_adic_generator(log_size);
    proof {
        lemma_square_times_pow(g, log_size as nat);
        vstd::arithmetic::power2::lemma_pow2_pos(log_size as nat);
        lemma_pow_unit(g, pow2(log_size as nat), 1);
    }
    unit_inverse(g)
}

/// z / d, for d not zero.
fn divided(z: Ext, d: Ext) -> (r: Ext)
    requires
        !x_same(d, x_zero()),
    ensures
        r == x_mul(z, x_inv(d)),
        x_mul(r, d) == x_red(z),
{
    let inv: Ext = invert(d);
    proof {
        lemma_undo(z, d);
    }
    z.times(inv)
}

/// (z / d) d = z.
proof fn lemma_undo(z: Ext, d: Ext)
    requires
        x_mul(d, x_inv(d)) == x_one(),
    ensures
        x_mul(x_mul(z, x_inv(d)), d) == x_red(z),
{
    lemma_x_mul_assoc(z, x_inv(d), d);
    lemma_x_mul_comm(x_inv(d), d);
    lemma_x_mul_one(z);
}

/// The inverse of an element that is not zero.
fn invert(a: Ext) -> (r: Ext)
    requires
        !x_same(a, x_zero()),
    ensures
        r == x_inv(a),
        x_mul(a, r) == x_one(),
{
    match a.inverse() {
        Some(v) => v,
        None => {
            assert(false);
            a
        },
    }
}

/// The inverse of a unit of the base field.
fn unit_inverse(a: u64) -> (r: u64)
    requires
        f_red(a as int) != 0,
    ensures
        r == f_inv(a),
        r < MODULUS,
        f_mul(a, r) == 1,
{
    match finv(a) {
        Some(v) => v,
        None => {
            assert(false);
            a
        },
    }
}

/// One stays one.
pub(crate) proof fn lemma_one_pow(n: nat)
    ensures
        f_pow(1, n) == 1,
    decreases n,
{
    if n > 0 {
        lemma_one_pow((n - 1) as nat);
        lemma_mul_one(1);
    }
}

/// Where a^n is one, a^i and a^(n - i) are inverse to each other, and neither is zero.
proof fn lemma_pow_unit(a: u64, n: nat, i: nat)
    requires
        f_pow(a, n) == 1,
        i <= n,
    ensures
        f_mul(f_pow(a, i), f_pow(a, (n - i) as nat)) == 1,
        f_mul(f_pow(a, (n - i) as nat), f_pow(a, i)) == 1,
        f_red(f_pow(a, i) as int) != 0,
        i == 1 ==> f_red(a as int) != 0,
{
    lemma_pow_add(a, i, (n - i) as nat);
    lemma_pow_add(a, (n - i) as nat, i);
    lemma_unit_nonzero(f_pow(a, i), f_pow(a, (n - i) as nat));
    if i == 1 {
        assert(f_pow(a, 1) == f_mul(f_pow(a, 0), a));
        lemma_mul_one(a);
        assert(f_red(f_red(a as int) as int) == f_red(a as int));
    }
}

/// The shift of a quotient chunk's domain: the coset shift times w^i, w of order 2^(degree_bits + log_chunks).
pub open spec fn chunk_shift(degree_bits: nat, log_chunks: nat, i: nat) -> u64 {
    f_mul(GENERATOR, f_pow(two_adic_root(degree_bits + log_chunks), i))
}

/// A chunk domain's vanishing polynomial: (point / shift)^n - 1.
pub open spec fn chunk_vanishing(point: Ext, shift: u64, degree_bits: nat) -> Ext {
    x_sub(x_square_times(x_mul(point, x_base(f_inv(shift))), degree_bits), x_one())
}

/// A chunk domain's vanishing polynomial at another one's first point.
pub open spec fn chunk_gap(shift: u64, at: u64, degree_bits: nat) -> u64 {
    f_sub(f_square_times(f_mul(at, f_inv(shift)), degree_bits), 1)
}

/// The recomposition weight of a chunk, over the first `n` other chunks: the product of their vanishing
/// polynomials at zeta over those at this chunk's first point.
pub open spec fn chunk_weight(zeta: Ext, degree_bits: nat, log_chunks: nat, i: nat, n: nat) -> Ext
    decreases n,
{
    if n == 0 {
        x_one()
    } else {
        let before = chunk_weight(zeta, degree_bits, log_chunks, i, (n - 1) as nat);
        if n - 1 == i {
            before
        } else {
            let other = chunk_shift(degree_bits, log_chunks, (n - 1) as nat);
            let gap = chunk_gap(other, chunk_shift(degree_bits, log_chunks, i), degree_bits);
            x_mul(before, x_mul(chunk_vanishing(zeta, other, degree_bits), x_base(f_inv(gap))))
        }
    }
}

/// The recomposition weights of all chunks.
pub open spec fn chunk_weights(zeta: Ext, degree_bits: nat, log_chunks: nat) -> Seq<Ext> {
    Seq::new(
        pow2(log_chunks),
        |i: int| chunk_weight(zeta, degree_bits, log_chunks, i as nat, pow2(log_chunks)),
    )
}

/// A chunk's shift is a unit.
pub(crate) proof fn lemma_shift_unit(w: u64, big: nat, i: nat)
    requires
        f_pow(w, big) == 1,
        i <= big,
    ensures
        f_red(f_mul(GENERATOR, f_pow(w, i)) as int) != 0,
{
    let (g, gi) = (GENERATOR, GENERATOR_INVERSE);
    let (a, b) = (f_pow(w, i), f_pow(w, (big - i) as nat));
    lemma_pow_unit(w, big, i);
    lemma_generator_inverse();
    lemma_mul_assoc(f_mul(g, a), b, gi);
    lemma_mul_assoc(g, a, b);
    lemma_mul_one(g);
    lemma_unit_nonzero(f_mul(g, a), f_mul(b, gi));
}

pub(crate) proof fn lemma_generator_inverse()
    ensures
        f_mul(GENERATOR, GENERATOR_INVERSE) == 1,
        f_mul(GENERATOR_INVERSE, GENERATOR) == 1,
{
    assert(7int * 2635249152773512046 == 18446744069414584322);
}

/// Two chunks' domains are disjoint: neither vanishes at the other's first point.
pub(crate) proof fn lemma_gap_nonzero(w: u64, degree_bits: nat, log_chunks: nat, i: nat, j: nat)
    requires
        f_pow(w, pow2(degree_bits + log_chunks)) == 1,
        forall|k: nat| 0 < k < pow2(degree_bits + log_chunks) ==> #[trigger] f_pow(w, k) != 1,
        i < pow2(log_chunks),
        j < pow2(log_chunks),
        i != j,
        f_mul(f_mul(GENERATOR, f_pow(w, j)), f_inv(f_mul(GENERATOR, f_pow(w, j)))) == 1,
    ensures
        chunk_gap(f_mul(GENERATOR, f_pow(w, j)), f_mul(GENERATOR, f_pow(w, i)), degree_bits) != 0,
{
    let n = pow2(degree_bits);
    let big = pow2(degree_bits + log_chunks);
    let si = f_mul(GENERATOR, f_pow(w, i));
    let sj = f_mul(GENERATOR, f_pow(w, j));
    let a = f_mul(si, f_inv(sj));
    vstd::arithmetic::power2::lemma_pow2_adds(degree_bits, log_chunks);
    vstd::arithmetic::power2::lemma_pow2_pos(degree_bits);
    if chunk_gap(sj, si, degree_bits) == 0 {
        let sq = f_square_times(a, degree_bits);
        lemma_zero_difference(sq, 1);
        lemma_square_times_pow(a, degree_bits);
        lemma_pow_canonical(a, n);
        assert(f_pow(a, n) == 1);
        // a sj = si, so the n-th powers of the shifts agree.
        lemma_mul_assoc(si, f_inv(sj), sj);
        lemma_mul_assoc(f_inv(sj), sj, 1);
        lemma_mul_one(si);
        assert(f_mul(a, sj) == si);
        lemma_pow_mul(a, sj, n);
        lemma_mul_one(f_pow(sj, n));
        lemma_pow_canonical(sj, n);
        assert(f_pow(si, n) == f_pow(sj, n));
        // The coset shift cancels.
        lemma_pow_mul(GENERATOR, f_pow(w, i), n);
        lemma_pow_mul(GENERATOR, f_pow(w, j), n);
        lemma_pow_pow(w, i, n);
        lemma_pow_pow(w, j, n);
        lemma_generator_inverse();
        lemma_pow_mul(GENERATOR_INVERSE, GENERATOR, n);
        lemma_one_pow(n);
        lemma_pow_canonical(w, i * n);
        lemma_pow_canonical(w, j * n);
        lemma_cancel(
            f_pow(GENERATOR, n),
            f_pow(GENERATOR_INVERSE, n),
            f_pow(w, i * n),
            f_pow(w, j * n),
        );
        if i > j {
            lemma_no_repeat(w, big, i * n, j * n, n, i, j, pow2(log_chunks));
        } else {
            lemma_no_repeat(w, big, j * n, i * n, n, j, i, pow2(log_chunks));
        }
    }
}

/// Powers below the order do not repeat.
proof fn lemma_no_repeat(w: u64, big: nat, x: nat, y: nat, n: nat, i: nat, j: nat, m: nat)
    requires
        f_pow(w, big) == 1,
        forall|k: nat| 0 < k < big ==> #[trigger] f_pow(w, k) != 1,
        big == n * m,
        x == i * n,
        y == j * n,
        j < i < m,
        n > 0,
    ensures
        f_pow(w, x) != f_pow(w, y),
{
    assert(y < x < big && x - y > 0) by (nonlinear_arith)
        requires
            big == n * m,
            x == i * n,
            y == j * n,
            j < i < m,
            n > 0,
    ;
    let d = (x - y) as nat;
    let up = (big - y) as nat;
    lemma_pow_add(w, up, y);
    lemma_pow_add(w, up, x);
    lemma_pow_add(w, big, d);
    lemma_mul_one(f_pow(w, d));
    lemma_pow_canonical(w, d);
    assert(up + x == big + d);
    assert(f_pow(w, d) != 1);
}

/// The recomposition weights of the quotient's 2^log_chunks chunks.
pub fn quotient_recompose_weights(zeta: Ext, degree_bits: usize, log_chunks: usize) -> (r: Vec<Ext>)
    requires
        degree_bits + log_chunks <= TWO_ADICITY,
        pow2(log_chunks as nat) <= usize::MAX,
    ensures
        r@ == chunk_weights(zeta, degree_bits as nat, log_chunks as nat),
{
    let ghost (db, lc) = (degree_bits as nat, log_chunks as nat);
    let nqc: usize = shifted_one(log_chunks);
    let w: u64 = two_adic_generator(degree_bits + log_chunks);
    proof {
        lemma_square_times_pow(w, db + lc);
        crate::bits::lemma_pow2_monotone(lc, db + lc);
    }
    let mut shifts: Vec<u64> = Vec::new();
    let mut inverses: Vec<u64> = Vec::new();
    let mut i: usize = 0;
    while i < nqc
        invariant
            i <= nqc,
            nqc == pow2(lc),
            w == two_adic_root(db + lc),
            f_pow(w, pow2(db + lc)) == 1,
            nqc <= pow2(db + lc),
            shifts@.len() == i,
            inverses@.len() == i,
            forall|k: int| 0 <= k < i ==> #[trigger] shifts@[k] == chunk_shift(db, lc, k as nat),
            forall|k: int|
                0 <= k < i ==> #[trigger] inverses@[k] == f_inv(chunk_shift(db, lc, k as nat)) && f_mul(
                    chunk_shift(db, lc, k as nat),
                    inverses@[k],
                ) == 1,
        decreases nqc - i,
    {
        let shift: u64 = fmul(GENERATOR, exp_u64(w, i as u64));
        proof {
            lemma_shift_unit(w, pow2(db + lc), i as nat);
        }
        inverses.push(unit_inverse(shift));
        shifts.push(shift);
        i += 1;
    }
    let mut out: Vec<Ext> = Vec::new();
    let mut i: usize = 0;
    while i < nqc
        invariant
            i <= nqc,
            nqc == pow2(lc),
            db == degree_bits,
            lc == log_chunks,
            w == two_adic_root(db + lc),
            f_pow(w, pow2(db + lc)) == 1,
            forall|k: nat| 0 < k < pow2(db + lc) ==> #[trigger] f_pow(w, k) != 1,
            shifts@.len() == nqc,
            inverses@.len() == nqc,
            forall|k: int| 0 <= k < nqc ==> #[trigger] shifts@[k] == chunk_shift(db, lc, k as nat),
            forall|k: int|
                0 <= k < nqc ==> #[trigger] inverses@[k] == f_inv(chunk_shift(db, lc, k as nat)) && f_mul(
                    chunk_shift(db, lc, k as nat),
                    inverses@[k],
                ) == 1,
            out@ =~= chunk_weights(zeta, db, lc).take(i as int),
        decreases nqc - i,
    {
        let mut weight: Ext = Ext::one();
        let mut j: usize = 0;
        while j < nqc
            invariant
                j <= nqc,
                i < nqc,
                nqc == pow2(lc),
                db == degree_bits,
                lc == log_chunks,
                w == two_adic_root(db + lc),
                f_pow(w, pow2(db + lc)) == 1,
                forall|k: nat| 0 < k < pow2(db + lc) ==> #[trigger] f_pow(w, k) != 1,
                shifts@.len() == nqc,
                inverses@.len() == nqc,
                forall|k: int| 0 <= k < nqc ==> #[trigger] shifts@[k] == chunk_shift(db, lc, k as nat),
                forall|k: int|
                    0 <= k < nqc ==> #[trigger] inverses@[k] == f_inv(chunk_shift(db, lc, k as nat)) && f_mul(
                        chunk_shift(db, lc, k as nat),
                        inverses@[k],
                    ) == 1,
                weight == chunk_weight(zeta, db, lc, i as nat, j as nat),
            decreases nqc - j,
        {
            if j != i {
                let at_zeta: Ext = zeta.times(Ext::from_base(inverses[j])).exp_power_of_2(degree_bits).minus(Ext::one());
                let gap: u64 = fsub(exp_power_of_2(fmul(shifts[i], inverses[j]), degree_bits), 1);
                proof {
                    assert(inverses@[j as int] == f_inv(chunk_shift(db, lc, j as nat)));
                    assert(shifts@[i as int] == chunk_shift(db, lc, i as nat));
                    lemma_gap_nonzero(w, db, lc, i as nat, j as nat);
                    assert(gap == chunk_gap(chunk_shift(db, lc, j as nat), chunk_shift(db, lc, i as nat), db));
                    assert(gap < MODULUS);
                    lemma_mul_one(gap);
                }
                weight = weight.times(at_zeta.times(Ext::from_base(unit_inverse(gap))));
            }
            j += 1;
        }
        out.push(weight);
        i += 1;
    }
    assert(out@ =~= chunk_weights(zeta, db, lc));
    out
}

/// The extension's generator X.
pub open spec fn x_gen() -> Ext {
    Ext { c0: 0, c1: 1 }
}

/// The value of a chunk from the values of its two coordinate polynomials.
pub open spec fn chunk_value(chunk: Seq<Ext>) -> Ext {
    x_add(chunk[0], x_mul(chunk[1], x_gen()))
}

/// The first `n` terms of the quotient: each chunk times its weight.
pub open spec fn recomposed(weights: Seq<Ext>, chunks: Seq<Vec<Ext>>, n: nat) -> Ext
    decreases n,
{
    if n == 0 {
        x_zero()
    } else {
        x_add(
            recomposed(weights, chunks, (n - 1) as nat),
            x_mul(weights[n - 1], chunk_value(chunks[n - 1]@)),
        )
    }
}

/// Every chunk has its two coordinates, and there are weights for all of them.
pub open spec fn chunks_fit(chunks: Seq<Vec<Ext>>, weights: nat) -> bool {
    &&& chunks.len() <= weights
    &&& forall|i: int| 0 <= i < chunks.len() ==> (#[trigger] chunks[i])@.len() == 2
}

/// The quotient at zeta from the values of its chunks.
pub fn recompose_quotient(weights: &Vec<Ext>, chunks: &Vec<Vec<Ext>>) -> (r: Ext)
    requires
        chunks_fit(chunks@, weights@.len()),
    ensures
        r == recomposed(weights@, chunks@, chunks@.len()),
{
    let mut acc: Ext = Ext::zero();
    let mut i: usize = 0;
    while i < chunks.len()
        invariant
            i <= chunks@.len(),
            chunks_fit(chunks@, weights@.len()),
            acc == recomposed(weights@, chunks@, i as nat),
        decreases chunks.len() - i,
    {
        assert(chunks@[i as int]@.len() == 2);
        let x: Ext = Ext { c0: 0, c1: 1 };
        acc = acc.plus(weights[i].times(chunks[i][0].plus(chunks[i][1].times(x))));
        i += 1;
    }
    acc
}

/// The points of the subgroup of order 2^log_period.
pub open spec fn subgroup(log_period: nat) -> Seq<u64> {
    Seq::new(pow2(log_period), |i: int| f_pow(two_adic_root(log_period), i as nat))
}

/// A periodic column's polynomial at a point of the extension: the interpolation of one period over the subgroup
/// of its length, at the point raised to the number of periods.
pub open spec fn periodic_value(column: Seq<u64>, log_period: nat, log_size: nat, point: Ext) -> Ext {
    lagrange(
        subgroup(log_period),
        Seq::new(column.len(), |i: int| x_base(column[i])),
        x_square_times(point, (log_size - log_period) as nat),
    )
}

/// `PolynomialSpace::evaluate_periodic_column_at` of `TwoAdicMultiplicativeCoset`, on the subgroup of order
/// 2^log_size: the interpolation of one period over the subgroup of its length, evaluated at the point raised to
/// the number of periods. It panics where the period is no power of two, or longer than the domain, and at the point
/// zero, which it inverts.
#[verifier::external_body]
pub(crate) fn periodic_column_at(column: &Vec<u64>, log_size: usize, point: Ext) -> (r: Ext)
    requires
        log_size <= TWO_ADICITY,
        exists|e: nat| e <= log_size && column@.len() == #[trigger] pow2(e),
        !x_same(point, x_zero()),
    ensures
        forall|e: nat|
            column@.len() == #[trigger] pow2(e) ==> r == periodic_value(column@, e, log_size as nat, point),
{
    let domain = TwoAdicMultiplicativeCoset::new(Goldilocks::ONE, log_size).unwrap();
    let column: Vec<Goldilocks> = column.iter().map(|v| Goldilocks::new(*v)).collect();
    let point = BinomialExtensionField::<Goldilocks, 2>::new([Goldilocks::new(point.c0), Goldilocks::new(point.c1)]);
    let r = domain.evaluate_periodic_column_at(&column, point);
    let c: &[Goldilocks] = r.as_basis_coefficients_slice();
    Ext { c0: c[0].as_canonical_u64(), c1: c[1].as_canonical_u64() }
}

} // verus!
