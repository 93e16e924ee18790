//! One fold: interpolation over a coset, evaluated at the challenge.

use p3_field::extension::BinomialExtensionField;
use p3_field::{BasedVectorSpace, PrimeField64};
use p3_fri::{FriFoldingStrategy, TwoAdicFriFolding};
use p3_goldilocks::Goldilocks;
use vstd::arithmetic::power2::pow2;
use vstd::prelude::*;
use crate::bits::{reverse_bits_len, reverse_slice_index_bits, rev_bits, shifted_one};
use crate::field::{
    exp_u64, f_add, f_inv, f_mul, f_pow, f_red, f_sub, fmul, is_unit, lemma_cancel, lemma_mul_assoc, lemma_power_unit,
    lemma_red_add, lemma_red_mul, lemma_square_times_pow, lemma_two_unit, lemma_units_multiply, lemma_x_distribute,
    lemma_x_mul_assoc, lemma_x_mul_base, lemma_x_mul_comm, lemma_x_mul_one, lemma_x_mul_red, lemma_x_mul_zero,
    two_adic_generator, two_adic_root, x_add, x_base, x_mul, x_one, x_sub, x_zero, Ext, HALF, MODULUS, TWO_ADICITY,
};
use crate::fri::coset::{coset_points, is_coset, law_half_turn, law_points_are_coset};

verus! {

/// The product over the first `n` points other than point `i` of (z - x_j) / (x_i - x_j).
pub open spec fn lagrange_weight(xs: Seq<u64>, z: Ext, i: int, n: nat) -> Ext
    decreases n,
{
    if n == 0 {
        x_one()
    } else if n - 1 == i {
        lagrange_weight(xs, z, i, (n - 1) as nat)
    } else {
        x_mul(
            lagrange_weight(xs, z, i, (n - 1) as nat),
            x_mul(x_sub(z, x_base(xs[n - 1])), x_base(f_inv(f_sub(xs[i], xs[n - 1])))),
        )
    }
}

/// The first `n` terms of the polynomial through (x_i, y_i), evaluated at `z`.
pub open spec fn lagrange_terms(xs: Seq<u64>, ys: Seq<Ext>, z: Ext, n: nat) -> Ext
    decreases n,
{
    if n == 0 {
        x_zero()
    } else {
        x_add(
            lagrange_terms(xs, ys, z, (n - 1) as nat),
            x_mul(ys[n - 1], lagrange_weight(xs, z, n - 1, xs.len())),
        )
    }
}

/// The polynomial of least degree through (x_i, y_i), evaluated at `z`.
pub open spec fn lagrange(xs: Seq<u64>, ys: Seq<Ext>, z: Ext) -> Ext {
    lagrange_terms(xs, ys, z, xs.len())
}

/// The first point of a fold group: g^rev(index), g of order 2^(log_height + log_arity).
pub open spec fn fold_start(index: nat, log_height: nat, log_arity: nat) -> u64 {
    f_pow(two_adic_root(log_height + log_arity), rev_bits(index, log_height))
}

/// The points of a fold group: the coset of the subgroup of order 2^log_arity, in bit-reversed order.
pub open spec fn fold_points(index: nat, log_height: nat, log_arity: nat) -> Seq<u64> {
    Seq::new(
        pow2(log_arity),
        |i: int|
            f_mul(
                fold_start(index, log_height, log_arity),
                f_pow(two_adic_root(log_arity), rev_bits(i as nat, log_arity)),
            ),
    )
}

/// The fold of a group of evaluations: their interpolation over the group's points, at the challenge.
pub open spec fn folded_row(index: nat, log_height: nat, log_arity: nat, beta: Ext, evals: Seq<Ext>) -> Ext {
    lagrange(fold_points(index, log_height, log_arity), evals, beta)
}

/// The fold of two evaluations at the points s and -s: (e0 + e1) / 2 + beta (e0 - e1) / (2 s).
#[verifier::opaque]
pub open spec fn pair_fold(e0: Ext, e1: Ext, beta: Ext, s: u64) -> Ext {
    x_add(
        x_mul(x_add(e0, e1), x_base(HALF)),
        x_mul(x_mul(beta, x_sub(e0, e1)), x_base(f_inv(f_mul(2, s)))),
    )
}

/// The second point of a group of two is the negative of the first.
pub open spec fn opposite(xs: Seq<u64>) -> bool {
    &&& xs.len() == 2
    &&& xs[0] < MODULUS
    &&& xs[1] == f_sub(0, xs[0])
}

/// k s is one half, for k the inverse of 2 s.
proof fn lemma_half_point(s: u64)
    requires
        is_unit(s),
        s < MODULUS,
    ensures
        f_mul(f_inv(f_mul(2, s)), s) == HALF,
        f_mul(f_mul(2, s), f_inv(f_mul(2, s))) == 1,
        f_inv(f_mul(2, s)) < MODULUS,
{
    let d = f_mul(2, s);
    let k = f_inv(d);
    lemma_two_unit();
    lemma_units_multiply(2, s);
    let v = choose|v: u64| #[trigger] f_mul(d, v) == 1;
    lemma_red_mul(d as int, v as int);
    assert(f_red(v as int) < MODULUS && f_mul(d, f_red(v as int)) == 1);
    assert(f_mul(d, k) == 1 && k < MODULUS);
    let h = f_mul(k, s);
    lemma_mul_assoc(2, s, k);
    lemma_mul_assoc(s, k, 0);
    assert(f_mul(2, h) == 1);
    assert(f_mul(2, HALF) == 1);
    assert(f_mul(HALF, 2) == 1);
    lemma_cancel(2, HALF, h, HALF);
}

/// The inverse of -2 s is minus that of 2 s, and times s it is minus one half.
proof fn lemma_opposite_inverse(s: u64)
    requires
        is_unit(s),
        s < MODULUS,
    ensures
        f_sub(s, f_sub(0, s)) == f_mul(2, s),
        f_inv(f_sub(f_sub(0, s), s)) == f_sub(0, f_inv(f_mul(2, s))),
        f_mul(f_inv(f_mul(2, s)), f_sub(0, s)) == f_sub(0, HALF),
        f_mul(f_sub(0, f_inv(f_mul(2, s))), s) == f_sub(0, HALF),
{
    let d = f_mul(2, s);
    let k = f_inv(d);
    lemma_half_point(s);
    lemma_red_add(s as int, -s);
    lemma_red_add(-s, s as int);
    lemma_red_add(0, 2 * s);
    let m = f_sub(f_sub(0, s), s);
    assert(m == f_sub(0, d));
    lemma_negated_factor(d, k);
    let n = f_sub(0, k);
    lemma_negated_factor(n, d);
    lemma_negated_factor(k, s);
    lemma_negated_factor(s, k);
    lemma_mul_assoc(d, n, 0);
    lemma_mul_assoc(k, s, 0);
    lemma_mul_assoc(n, s, 0);
    lemma_mul_assoc(n, m, 0);
    assert(f_mul(d, n) == f_sub(0, 1));
    assert(f_mul(n, m) == f_sub(0, f_sub(0, 1)));
    assert(f_mul(m, n) == 1);
    assert(n < MODULUS);
    let c = f_inv(m);
    assert(c < MODULUS && f_mul(m, c) == 1);
    lemma_cancel(m, n, c, n);
}

/// A negated factor negates the product.
proof fn lemma_negated_factor(a: u64, b: u64)
    ensures
        f_mul(a, f_sub(0, b)) == f_sub(0, f_mul(a, b)),
{
    lemma_red_mul(a as int, -b);
    lemma_red_add(0, a * b);
    assert(a * (-b) == -(a * b)) by (nonlinear_arith);
}

/// x - (-y) is x + y, and -x - (-y) is y - x.
proof fn lemma_minus_minus(x: u64, y: u64)
    ensures
        f_sub(x, f_sub(0, y)) == f_red(x + y),
        f_sub(f_sub(0, x), f_sub(0, y)) == f_red(y - x),
{
    assert(f_sub(x, f_sub(0, y)) == f_red(x + y)) by {
        lemma_red_add(x as int, -y);
    }
    assert(f_sub(f_sub(0, x), f_sub(0, y)) == f_red(y - x)) by {
        lemma_red_add(-x, f_sub(0, y) as int);
        lemma_red_add(-x, -y);
    }
}

/// The sum of two reduced values.
proof fn lemma_sum_reduced(x: int, y: int)
    ensures
        f_add(f_red(x), f_red(y)) == f_red(x + y),
{
    lemma_red_add(x, f_red(y) as int);
    lemma_red_add(x, y);
}

/// A sum of two differences, rearranged.
proof fn lemma_rearranged(p: u64, q: u64, g: u64, h: u64)
    ensures
        f_add(f_add(0, f_sub(p, f_sub(0, g))), f_sub(f_sub(0, q), f_sub(0, h))) == f_add(f_add(g, h), f_sub(p, q)),
{
    let (x, y) = (p + g, h - q);
    lemma_minus_minus(p, g);
    lemma_minus_minus(q, h);
    assert(f_add(0, f_red(x)) == f_red(x));
    lemma_sum_reduced(x, y);
    lemma_sum_reduced(g + h, p - q);
}

/// The weights of a group of two, unfolded.
proof fn lemma_two_weights(xs: Seq<u64>, beta: Ext)
    ensures
        lagrange_weight(xs, beta, 0, 2) == x_mul(
            x_one(),
            x_mul(x_sub(beta, x_base(xs[1])), x_base(f_inv(f_sub(xs[0], xs[1])))),
        ),
        lagrange_weight(xs, beta, 1, 2) == x_mul(
            x_one(),
            x_mul(x_sub(beta, x_base(xs[0])), x_base(f_inv(f_sub(xs[1], xs[0])))),
        ),
{
    assert(lagrange_weight(xs, beta, 0, 0) == x_one());
    assert(lagrange_weight(xs, beta, 1, 0) == x_one());
    assert(lagrange_weight(xs, beta, 0, 1) == x_one());
    assert(lagrange_weight(xs, beta, 1, 1) == x_mul(
        x_one(),
        x_mul(x_sub(beta, x_base(xs[0])), x_base(f_inv(f_sub(xs[1], xs[0])))),
    ));
}

/// 1 ((beta - x) k) = k beta - k x.
proof fn lemma_weight_factor(beta: Ext, x: u64, k: u64)
    ensures
        x_mul(x_one(), x_mul(x_sub(beta, x_base(x)), x_base(k))) == x_sub(x_mul(x_base(k), beta), x_base(f_mul(k, x))),
{
    let v = x_sub(beta, x_base(x));
    lemma_x_mul_one(x_mul(v, x_base(k)));
    lemma_x_mul_red(v, x_base(k));
    lemma_x_mul_comm(v, x_base(k));
    lemma_x_distribute(x_base(k), beta, x_base(x));
    lemma_x_mul_base(k, x);
}

/// The negative of a base element, as an element of the extension.
proof fn lemma_base_negated(k: u64)
    ensures
        x_base(f_sub(0, k)) == x_sub(x_zero(), x_base(k)),
{
    lemma_red_add(0, k as int);
}

/// The weights of a group of two: (beta + s) k and -(beta - s) k, for k the inverse of 2 s.
proof fn lemma_pair_weights(xs: Seq<u64>, beta: Ext)
    requires
        opposite(xs),
        is_unit(xs[0]),
    ensures
        ({
            let k = x_base(f_inv(f_mul(2, xs[0])));
            let u = x_mul(k, beta);
            let n = x_sub(x_zero(), x_base(HALF));
            &&& lagrange_weight(xs, beta, 0, 2) == x_sub(u, n)
            &&& lagrange_weight(xs, beta, 1, 2) == x_sub(x_sub(x_zero(), u), n)
        }),
{
    let s = xs[0];
    let k = f_inv(f_mul(2, s));
    let m = f_sub(0, k);
    lemma_two_weights(xs, beta);
    lemma_opposite_inverse(s);
    lemma_weight_factor(beta, xs[1], k);
    lemma_weight_factor(beta, s, m);
    lemma_base_negated(HALF);
    assert(x_mul(x_base(m), beta) == x_sub(x_zero(), x_mul(x_base(k), beta))) by {
        lemma_base_negated(k);
        lemma_x_mul_comm(x_base(m), beta);
        lemma_x_distribute(beta, x_zero(), x_base(k));
        lemma_x_mul_zero(beta);
        lemma_x_mul_comm(beta, x_base(k));
    }
}

/// The interpolation through two opposite points, at the challenge, is the fold of two.
pub proof fn law_pair_fold(xs: Seq<u64>, e0: Ext, e1: Ext, beta: Ext)
    requires
        opposite(xs),
        is_unit(xs[0]),
    ensures
        lagrange(xs, seq![e0, e1], beta) == pair_fold(e0, e1, beta, xs[0]),
{
    reveal(pair_fold);
    let ys = seq![e0, e1];
    let k = x_base(f_inv(f_mul(2, xs[0])));
    let h = x_base(HALF);
    let u = x_mul(k, beta);
    let n = x_sub(x_zero(), h);
    lemma_pair_weights(xs, beta);
    reveal_with_fuel(lagrange_terms, 3);
    assert(lagrange(xs, ys, beta) == x_add(
        x_add(x_zero(), x_mul(e0, x_sub(u, n))),
        x_mul(e1, x_sub(x_sub(x_zero(), u), n)),
    ));
    let (p, q, g, f) = (x_mul(e0, u), x_mul(e1, u), x_mul(e0, h), x_mul(e1, h));
    lemma_x_distribute(e0, u, n);
    lemma_x_distribute(e0, x_zero(), h);
    lemma_x_distribute(e1, x_sub(x_zero(), u), n);
    lemma_x_distribute(e1, x_zero(), u);
    lemma_x_distribute(e1, x_zero(), h);
    lemma_x_mul_zero(e0);
    lemma_x_mul_zero(e1);
    assert(lagrange(xs, ys, beta) == x_add(
        x_add(x_zero(), x_sub(p, x_sub(x_zero(), g))),
        x_sub(x_sub(x_zero(), q), x_sub(x_zero(), f)),
    ));
    lemma_rearranged(p.c0, q.c0, g.c0, f.c0);
    lemma_rearranged(p.c1, q.c1, g.c1, f.c1);
    let d = x_sub(e0, e1);
    assert(x_mul(x_add(e0, e1), h) == x_add(g, f)) by {
        lemma_x_mul_comm(x_add(e0, e1), h);
        lemma_x_distribute(h, e0, e1);
        lemma_x_mul_comm(h, e0);
        lemma_x_mul_comm(h, e1);
    }
    assert(x_mul(x_mul(beta, d), k) == x_sub(p, q)) by {
        lemma_x_mul_comm(x_mul(beta, d), k);
        lemma_x_mul_assoc(k, beta, d);
        lemma_x_distribute(u, e0, e1);
        lemma_x_mul_comm(u, e0);
        lemma_x_mul_comm(u, e1);
    }
}

/// `FriFoldingStrategy::fold_row` of `TwoAdicFriFolding`: the Lagrange interpolation of the evaluations over the
/// group's points, evaluated at the challenge. It panics where the group has not 2^log_arity evaluations or the
/// field no subgroup of order 2^(log_height + log_arity).
#[verifier::external_body]
pub(crate) fn fold_row(index: usize, log_height: usize, log_arity: usize, beta: Ext, evals: &Vec<Ext>) -> (r: Ext)
    requires
        log_height + log_arity <= TWO_ADICITY,
        index < pow2(log_height as nat),
        evals@.len() == pow2(log_arity as nat),
    ensures
        r == folded_row(index as nat, log_height as nat, log_arity as nat, beta, evals@),
{
    let wide = |x: &Ext| {
        BinomialExtensionField::<Goldilocks, 2>::new([Goldilocks::new(x.c0), Goldilocks::new(x.c1)])
    };
    let folding: TwoAdicFriFolding<(), ()> = TwoAdicFriFolding(core::marker::PhantomData);
    let evals = evals.iter().map(wide);
    let r = FriFoldingStrategy::<Goldilocks, _>::fold_row(&folding, index, log_height, log_arity, wide(&beta), evals);
    let c: &[Goldilocks] = r.as_basis_coefficients_slice();
    Ext { c0: c[0].as_canonical_u64(), c1: c[1].as_canonical_u64() }
}

/// The points of a group of two are opposite.
proof fn lemma_pair_is_opposite(xs: Seq<u64>)
    requires
        is_coset(xs, 1),
    ensures
        opposite(xs),
{
    vstd::arithmetic::power2::lemma2_to64();
    let k = 0int;
    assert(xs[2 * k + 1] == f_sub(0, xs[2 * k]));
}

/// The points of a fold group.
pub fn points_of_fold(index: usize, log_height: usize, log_arity: usize) -> (xs: Vec<u64>)
    requires
        log_height + log_arity <= TWO_ADICITY,
        pow2(log_height as nat) <= usize::MAX,
        pow2(log_arity as nat) <= usize::MAX,
    ensures
        xs@ == fold_points(index as nat, log_height as nat, log_arity as nat),
        forall|i: int| 0 <= i < xs@.len() ==> #[trigger] is_unit(xs@[i]),
        is_coset(xs@, log_arity as nat),
        log_arity == 1 ==> opposite(xs@),
{
    let root: u64 = two_adic_generator(log_height + log_arity);
    let rev: usize = reverse_bits_len(index, log_height);
    let start: u64 = exp_u64(root, rev as u64);
    let g: u64 = two_adic_generator(log_arity);
    proof {
        crate::bits::law_rev_bits_range(index as nat, log_height as nat);
        crate::bits::lemma_pow2_monotone(log_height as nat, (log_height + log_arity) as nat);
        lemma_square_times_pow(root, (log_height + log_arity) as nat);
        lemma_power_unit(root, pow2((log_height + log_arity) as nat), rev as nat);
        lemma_square_times_pow(g, log_arity as nat);
    }
    let arity: usize = shifted_one(log_arity);
    let mut xs: Vec<u64> = Vec::new();
    let mut i: usize = 0;
    while i < arity
        invariant
            i <= arity,
            xs@.len() == i,
            g == two_adic_root(log_arity as nat),
            forall|k: int| 0 <= k < i ==> #[trigger] xs@[k] == f_mul(start, f_pow(two_adic_root(log_arity as nat), k as nat)),
        decreases arity - i,
    {
        xs.push(fmul(start, exp_u64(g, i as u64)));
        i += 1;
    }
    let ghost straight = xs@;
    reverse_slice_index_bits(&mut xs);
    proof {
        assert forall|k: int| 0 <= k < arity implies #[trigger] xs@[k] == fold_points(
            index as nat,
            log_height as nat,
            log_arity as nat,
        )[k] by {
            crate::bits::law_rev_bits_range(k as nat, log_arity as nat);
            assert(straight.len() == pow2(log_arity as nat));
        }
        assert forall|k: int| 0 <= k < xs@.len() implies #[trigger] is_unit(xs@[k]) by {
            crate::bits::law_rev_bits_range(k as nat, log_arity as nat);
            lemma_power_unit(g, pow2(log_arity as nat), rev_bits(k as nat, log_arity as nat));
            lemma_units_multiply(start, f_pow(g, rev_bits(k as nat, log_arity as nat)));
        }
        assert(xs@ =~= fold_points(index as nat, log_height as nat, log_arity as nat));
        if log_arity > 0 {
            law_half_turn(g, log_arity as nat);
        }
        law_points_are_coset(start, g, log_arity as nat);
        assert(xs@ =~= coset_points(start, g, log_arity as nat));
        if log_arity == 1 {
            lemma_pair_is_opposite(xs@);
        }
    }
    xs
}

} // verus!
