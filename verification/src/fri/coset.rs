//! Cosets in bit-reversed order, and interpolation over them: the products of differences are powers, so that the
//! barycentric form with one scale interpolates.

use vstd::arithmetic::power2::pow2;
use vstd::prelude::*;

use crate::bits::rev_bits;
use crate::field::{
    f_inv, f_mul, f_pow, f_red, f_square_times, f_sub, is_unit, lemma_mul_assoc, lemma_mul_one, lemma_pow_add,
    lemma_pow_canonical, lemma_pow_mul, lemma_red_add, lemma_red_mul, lemma_square_times_pow,
    lemma_x_distribute, lemma_x_mul_assoc, lemma_x_mul_base, lemma_x_mul_comm, lemma_x_mul_one, lemma_x_mul_red,
    lemma_x_mul_zero, lemma_zero_difference, x_add, x_base, x_mul, x_one, x_red, x_sub, x_zero, Ext, MODULUS,
};
use crate::prime::law_no_zero_divisors;
use crate::fri::fold::{lagrange, lagrange_terms, lagrange_weight};

verus! {

/// The squares of the even entries.
pub open spec fn squares(xs: Seq<u64>) -> Seq<u64> {
    Seq::new(xs.len() / 2, |k: int| f_mul(xs[2 * k], xs[2 * k]))
}

/// 2^m points in pairs of opposites whose squares are again such points: a coset of the subgroup of order 2^m in
/// bit-reversed order.
pub open spec fn is_coset(xs: Seq<u64>, m: nat) -> bool
    decreases m,
{
    &&& xs.len() == pow2(m)
    &&& forall|i: int| 0 <= i < xs.len() ==> #[trigger] xs[i] < MODULUS
    &&& m > 0 ==> {
        &&& forall|k: int| 0 <= k < xs.len() / 2 ==> #[trigger] xs[2 * k + 1] == f_sub(0, xs[2 * k])
        &&& is_coset(squares(xs), (m - 1) as nat)
    }
}

/// The points start g^rev(i), in bit-reversed order.
pub open spec fn coset_points(start: u64, g: u64, m: nat) -> Seq<u64> {
    Seq::new(pow2(m), |i: int| f_mul(start, f_pow(g, rev_bits(i as nat, m))))
}

/// The low bit of an index is the high bit of its reversal.
proof fn lemma_rev_pair(k: nat, b: nat, m: nat)
    requires
        b == 0 || b == 1,
        m > 0,
    ensures
        rev_bits(2 * k + b, m) == b * pow2((m - 1) as nat) + rev_bits(k, (m - 1) as nat),
    decreases m,
{
    vstd::arithmetic::power2::lemma2_to64();
    let i = 2 * k + b;
    if m == 1 {
        reveal_with_fuel(rev_bits, 2);
        assert(i / 1 == i);
        assert(b * 1 == b);
    } else {
        let n = (m - 1) as nat;
        lemma_rev_pair(k, b, n);
        let p = pow2((n - 1) as nat);
        vstd::arithmetic::power2::lemma_pow2_unfold(n);
        vstd::arithmetic::power2::lemma_pow2_pos((n - 1) as nat);
        assert(pow2(n) == 2 * p);
        vstd::arithmetic::div_mod::lemma_div_denominator(i as int, 2, p as int);
        assert(i / (2 * p) == k / p);
        assert(2 * (b * p) == b * (2 * p)) by (nonlinear_arith);
        assert(rev_bits(i, m) == 2 * rev_bits(i, n) + (i / pow2(n)) % 2);
        assert(rev_bits(k, n) == 2 * rev_bits(k, (n - 1) as nat) + (k / p) % 2);
    }
}

/// An element of order 2^m leads to -1 half way.
pub proof fn law_half_turn(g: u64, m: nat)
    requires
        m > 0,
        f_square_times(g, m) == 1,
        forall|k: nat| 0 < k < pow2(m) ==> #[trigger] f_pow(g, k) != 1,
    ensures
        f_square_times(g, (m - 1) as nat) == MODULUS - 1,
{
    let n = (m - 1) as nat;
    let y = f_square_times(g, n);
    lemma_square_times_pow(g, n);
    lemma_pow_canonical(g, pow2(n));
    vstd::arithmetic::power2::lemma_pow2_unfold(m);
    vstd::arithmetic::power2::lemma_pow2_pos(n);
    assert(y != 1);
    assert(f_mul(y, y) == 1);
    lemma_pair_difference(y, 1);
    lemma_mul_one(1);
    let (a, b) = (f_sub(y, 1), f_sub(y, f_sub(0, 1)));
    assert(f_mul(a, b) == 0);
    law_no_zero_divisors(a, b);
    lemma_zero_difference(y, 1);
    lemma_zero_difference(y, f_sub(0, 1));
}

/// The points of a subgroup's coset in bit-reversed order are such points.
pub proof fn law_points_are_coset(start: u64, g: u64, m: nat)
    requires
        m > 0 ==> f_square_times(g, (m - 1) as nat) == MODULUS - 1,
    ensures
        is_coset(coset_points(start, g, m), m),
    decreases m,
{
    let xs = coset_points(start, g, m);
    if m > 0 {
        let n = (m - 1) as nat;
        vstd::arithmetic::power2::lemma_pow2_unfold(m);
        let half = pow2(n);
        lemma_square_times_pow(g, n);
        assert forall|k: int| 0 <= k < xs.len() / 2 implies #[trigger] xs[2 * k + 1] == f_sub(0, xs[2 * k]) by {
            lemma_rev_pair(k as nat, 0, m);
            lemma_rev_pair(k as nat, 1, m);
            let r = rev_bits(k as nat, n);
            assert(0 * half == 0 && 1 * half == half) by (nonlinear_arith);
            lemma_pow_add(g, r, half);
            assert(half + r == r + half);
            let p = f_pow(g, r);
            lemma_mul_assoc(start, p, f_pow(g, half));
            lemma_minus_one_times(f_mul(start, p));
        }
        let (s2, g2) = (f_mul(start, start), f_mul(g, g));
        if n > 0 {
            lemma_square_first(g, (n - 1) as nat);
        }
        law_points_are_coset(s2, g2, n);
        assert(squares(xs) =~= coset_points(s2, g2, n)) by {
            assert forall|k: int| 0 <= k < half implies #[trigger] squares(xs)[k] == coset_points(s2, g2, n)[k] by {
                lemma_rev_pair(k as nat, 0, m);
                let r = rev_bits(k as nat, n);
                assert(0 * half == 0) by (nonlinear_arith);
                assert(xs[2 * k] == f_mul(start, f_pow(g, r)));
                lemma_square_pow(g, r);
                lemma_pow_add(g, r, r);
                assert(2 * r == r + r);
                lemma_square_of_product(start, f_pow(g, r));
            }
        }
    }
}

/// (a b)(a b) = (a a)(b b).
proof fn lemma_square_of_product(a: u64, b: u64)
    ensures
        f_mul(f_mul(a, b), f_mul(a, b)) == f_mul(f_mul(a, a), f_mul(b, b)),
{
    lemma_mul_assoc(f_mul(a, b), a, b);
    lemma_swap(a, b, a);
    lemma_mul_assoc(f_mul(a, a), b, b);
}

/// Times -1.
proof fn lemma_minus_one_times(v: u64)
    ensures
        f_mul(v, (MODULUS - 1) as u64) == f_sub(0, v),
{
    lemma_red_mul(v as int, -1);
    assert(f_red(-1) == MODULUS - 1);
    assert(v * (-1) == -v) by (nonlinear_arith);
}

/// The product of the differences of point `i` from the other ones among the first `n`.
pub open spec fn gap(xs: Seq<u64>, i: int, n: nat) -> u64
    decreases n,
{
    if n == 0 {
        1
    } else if n - 1 == i {
        gap(xs, i, (n - 1) as nat)
    } else {
        f_mul(gap(xs, i, (n - 1) as nat), f_sub(xs[i], xs[n - 1]))
    }
}

/// (a - b)(a + b) = a^2 - b^2.
proof fn lemma_pair_difference(a: u64, b: u64)
    ensures
        f_mul(f_sub(a, b), f_sub(a, f_sub(0, b))) == f_sub(f_mul(a, a), f_mul(b, b)),
{
    lemma_red_add(a as int, -b);
    assert(f_sub(a, f_sub(0, b)) == f_red(a + b));
    lemma_red_mul(a - b, f_red(a + b) as int);
    lemma_red_mul(a - b, a + b);
    assert((a - b) * (a + b) == a * a - b * b) by (nonlinear_arith);
    lemma_red_add(a * a, f_red(b * b) as int);
    lemma_red_add(a * a, b * b);
}

/// The square of a negative.
proof fn lemma_negative_square(b: u64)
    ensures
        f_mul(f_sub(0, b), f_sub(0, b)) == f_mul(b, b),
{
    lemma_red_mul(-b, f_sub(0, b) as int);
    lemma_red_mul(-b, -b);
    assert((-b) * (-b) == b * b) by (nonlinear_arith);
}

/// x - (-x) and -x - x are twice the one they start from.
proof fn lemma_double_difference(x: u64)
    requires
        x < MODULUS,
    ensures
        f_sub(x, f_sub(0, x)) == f_mul(2, x),
        f_sub(f_sub(0, x), x) == f_mul(2, f_sub(0, x)),
{
    lemma_red_add(x as int, -x);
    lemma_red_add(-x, x as int);
    lemma_red_mul(2, -x);
}

/// a b = b a, and (a b) c = a (b c).
proof fn lemma_swap(a: u64, b: u64, c: u64)
    ensures
        f_mul(f_mul(a, b), c) == f_mul(f_mul(a, c), b),
{
    lemma_mul_assoc(a, b, c);
    lemma_mul_assoc(a, c, b);
    lemma_mul_assoc(b, c, 0);
}

/// Two more points of a coset: a pair that point `i` is not in contributes the difference of the squares, its own
/// pair twice the point.
proof fn lemma_gap_pairs(xs: Seq<u64>, m: nat, i: int, n: nat)
    requires
        m > 0,
        is_coset(xs, m),
        0 <= i < xs.len(),
        2 * n <= xs.len(),
    ensures
        gap(xs, i, 2 * n) == f_mul(
            gap(squares(xs), i / 2, n),
            if i / 2 < n {
                f_mul(2, xs[i])
            } else {
                1u64
            },
        ),
        gap(xs, i, 2 * n) < MODULUS,
        gap(squares(xs), i / 2, n) < MODULUS,
    decreases n,
{
    let sq = squares(xs);
    let j = i / 2;
    if n == 0 {
        lemma_mul_one(1);
    } else {
        let k = (n - 1) as nat;
        lemma_gap_pairs(xs, m, i, k);
        let h = k as int;
        let (a, b) = (xs[2 * h], xs[2 * h + 1]);
        let before = gap(sq, j, k);
        assert(b == f_sub(0, a));
        assert(gap(xs, i, (2 * n) as nat) == if 2 * n - 1 == i {
            gap(xs, i, (2 * n - 1) as nat)
        } else {
            f_mul(gap(xs, i, (2 * n - 1) as nat), f_sub(xs[i], b))
        });
        assert(gap(xs, i, (2 * n - 1) as nat) == if 2 * n - 2 == i {
            gap(xs, i, (2 * k) as nat)
        } else {
            f_mul(gap(xs, i, (2 * k) as nat), f_sub(xs[i], a))
        });
        lemma_mul_one(before);
        if j == k {
            // Its own pair.
            assert(gap(xs, i, (2 * k) as nat) == before);
            lemma_double_difference(a);
            assert(gap(sq, j, n) == before);
            if i == 2 * k {
            } else {
                assert(i == 2 * k + 1);
            }
        } else {
            let own = if j < k {
                f_mul(2, xs[i])
            } else {
                1u64
            };
            let d = f_sub(sq[j], sq[k as int]);
            lemma_own_square(xs, m, i);
            lemma_pair_difference(xs[i], a);
            assert(f_mul(f_sub(xs[i], a), f_sub(xs[i], b)) == d);
            lemma_mul_assoc(gap(xs, i, (2 * k) as nat), f_sub(xs[i], a), f_sub(xs[i], b));
            assert(gap(xs, i, (2 * n) as nat) == f_mul(f_mul(before, own), d));
            lemma_swap(before, own, d);
            assert(gap(sq, j, n) == f_mul(before, d));
        }
    }
}

/// The square of a point is that of its pair.
proof fn lemma_own_square(xs: Seq<u64>, m: nat, i: int)
    requires
        m > 0,
        is_coset(xs, m),
        0 <= i < xs.len(),
    ensures
        0 <= i / 2 < squares(xs).len(),
        squares(xs)[i / 2] == f_mul(xs[i], xs[i]),
{
    let k = i / 2;
    vstd::arithmetic::power2::lemma_pow2_unfold(m);
    assert(xs[2 * k + 1] == f_sub(0, xs[2 * k]));
    lemma_negative_square(xs[2 * k]);
}

/// (x^2)^n = x^(2 n).
proof fn lemma_square_pow(x: u64, n: nat)
    ensures
        f_pow(f_mul(x, x), n) == f_pow(x, 2 * n),
{
    lemma_pow_mul(x, x, n);
    lemma_pow_add(x, n, n);
    assert(2 * n == n + n);
}

/// The squares of a point, squared on, are the point squared on.
proof fn lemma_square_first(x: u64, n: nat)
    ensures
        f_square_times(f_mul(x, x), n) == f_square_times(x, n + 1),
{
    lemma_square_times_pow(f_mul(x, x), n);
    lemma_square_times_pow(x, n + 1);
    lemma_square_pow(x, pow2(n));
    vstd::arithmetic::power2::lemma_pow2_unfold(n + 1);
}

/// Every point of a coset has the same power to its size.
proof fn lemma_same_power(xs: Seq<u64>, m: nat, i: int)
    requires
        is_coset(xs, m),
        0 <= i < xs.len(),
    ensures
        f_square_times(xs[i], m) == f_square_times(xs[0], m),
    decreases m,
{
    vstd::arithmetic::power2::lemma2_to64();
    if m > 0 {
        let sq = squares(xs);
        lemma_own_square(xs, m, i);
        lemma_own_square(xs, m, 0);
        lemma_same_power(sq, (m - 1) as nat, i / 2);
        lemma_square_first(xs[i], (m - 1) as nat);
        lemma_square_first(xs[0], (m - 1) as nat);
    }
}

/// ((a p) (2 x)) = (2 a)(p x).
proof fn lemma_gap_step(a: u64, p: u64, x: u64)
    ensures
        f_mul(f_mul(a, p), f_mul(2, x)) == f_mul(f_mul(a, 2), f_mul(p, x)),
{
    lemma_mul_assoc(f_mul(a, p), 2, x);
    lemma_swap(a, p, 2);
    lemma_mul_assoc(f_mul(a, 2), p, x);
}

/// The product of the differences of a point of a coset of size n from the others is n x^(n - 1).
proof fn lemma_gap(xs: Seq<u64>, m: nat, i: int)
    requires
        is_coset(xs, m),
        0 <= i < xs.len(),
    ensures
        gap(xs, i, xs.len()) == f_mul(f_red(pow2(m) as int), f_pow(xs[i], (pow2(m) - 1) as nat)),
    decreases m,
{
    let x = xs[i];
    if m == 0 {
        vstd::arithmetic::power2::lemma2_to64();
        reveal_with_fuel(gap, 2);
        lemma_mul_one(1);
    } else {
        let sq = squares(xs);
        let h = pow2((m - 1) as nat);
        vstd::arithmetic::power2::lemma_pow2_unfold(m);
        vstd::arithmetic::power2::lemma_pow2_pos((m - 1) as nat);
        lemma_own_square(xs, m, i);
        lemma_gap(sq, (m - 1) as nat, i / 2);
        lemma_gap_pairs(xs, m, i, h);
        let k = (h - 1) as nat;
        lemma_square_pow(x, k);
        lemma_gap_step(f_red(h as int), f_pow(x, 2 * k), x);
        lemma_red_mul(h as int, 2);
        assert(f_pow(x, (2 * k + 1) as nat) == f_mul(f_pow(x, (2 * k) as nat), x));
        assert(pow2(m) - 1 == 2 * k + 1);
    }
}

/// With the scale that inverts n x_0^n, the product of the differences times the point is inverted for every point.
proof fn lemma_gap_scaled(xs: Seq<u64>, m: nat, i: int, scale: u64)
    requires
        is_coset(xs, m),
        0 <= i < xs.len(),
        f_mul(scale, f_mul(f_red(pow2(m) as int), f_square_times(xs[0], m))) == 1,
    ensures
        f_mul(gap(xs, i, xs.len()), f_mul(xs[i], scale)) == 1,
{
    let (x, n) = (xs[i], f_red(pow2(m) as int));
    vstd::arithmetic::power2::lemma_pow2_pos(m);
    lemma_gap(xs, m, i);
    lemma_same_power(xs, m, i);
    lemma_square_times_pow(x, m);
    let p = f_pow(x, (pow2(m) - 1) as nat);
    assert(f_pow(x, pow2(m)) == f_mul(p, x));
    lemma_mul_assoc(f_mul(n, p), x, scale);
    lemma_mul_assoc(n, p, x);
    lemma_mul_assoc(f_mul(n, f_mul(p, x)), scale, 0);
}

/// The factors of a product of differences that has an inverse have one.
proof fn lemma_gap_factors(xs: Seq<u64>, i: int, n: nat, j: int)
    requires
        is_unit(gap(xs, i, n)),
        0 <= j < n,
        j != i,
    ensures
        is_unit(f_sub(xs[i], xs[j])),
    decreases n,
{
    if n - 1 == i {
        lemma_gap_factors(xs, i, (n - 1) as nat, j);
    } else {
        let (a, d) = (gap(xs, i, (n - 1) as nat), f_sub(xs[i], xs[n - 1]));
        let v = choose|v: u64| #[trigger] f_mul(f_mul(a, d), v) == 1;
        lemma_mul_assoc(a, d, v);
        assert(f_mul(a, f_mul(d, v)) == 1);
        lemma_mul_assoc(d, a, v);
        lemma_mul_assoc(a, d, 0);
        assert(f_mul(d, f_mul(a, v)) == 1);
        if j < n - 1 {
            lemma_gap_factors(xs, i, (n - 1) as nat, j);
        }
    }
}

/// The product of the differences of `z` from the first `n` points.
pub open spec fn differences(xs: Seq<u64>, z: Ext, n: nat) -> Ext
    decreases n,
{
    if n == 0 {
        x_one()
    } else {
        x_mul(differences(xs, z, (n - 1) as nat), x_sub(z, x_base(xs[n - 1])))
    }
}

/// (a b) c = (a c) b.
proof fn lemma_x_swap(a: Ext, b: Ext, c: Ext)
    ensures
        x_mul(x_mul(a, b), c) == x_mul(x_mul(a, c), b),
{
    lemma_x_mul_assoc(a, b, c);
    lemma_x_mul_assoc(a, c, b);
    lemma_x_mul_comm(b, c);
}

/// A product times one.
proof fn lemma_x_product_one(a: Ext, b: Ext)
    ensures
        x_mul(x_mul(a, b), x_one()) == x_mul(a, b),
{
    lemma_x_mul_one(x_mul(a, b));
    lemma_x_mul_red(a, b);
}

/// ((u (d q)) e)(g r) = ((u e) g) d, for q r = 1.
proof fn lemma_regroup(u: Ext, d: Ext, q: Ext, e: Ext, g: Ext, r: Ext)
    requires
        x_mul(q, r) == x_one(),
    ensures
        x_mul(x_mul(x_mul(u, x_mul(d, q)), e), x_mul(g, r)) == x_mul(x_mul(x_mul(u, e), g), d),
{
    let ue = x_mul(u, e);
    lemma_x_mul_assoc(u, d, q);
    lemma_x_swap(x_mul(u, d), q, e);
    lemma_x_swap(u, d, e);
    let t = x_mul(ue, d);
    assert(x_mul(x_mul(u, x_mul(d, q)), e) == x_mul(t, q));
    lemma_x_mul_assoc(x_mul(t, q), g, r);
    lemma_x_swap(t, q, g);
    lemma_x_mul_assoc(x_mul(t, g), q, r);
    lemma_x_product_one(t, g);
    lemma_x_swap(ue, d, g);
}

/// A weight times its own difference and the product of the points' differences is the product of all differences.
proof fn lemma_weight_product(xs: Seq<u64>, z: Ext, i: int, n: nat)
    requires
        0 <= i < xs.len(),
        n <= xs.len(),
        forall|j: int| 0 <= j < n && j != i ==> is_unit(#[trigger] f_sub(xs[i], xs[j])),
    ensures
        ({
            let own = if i < n {
                x_sub(z, x_base(xs[i]))
            } else {
                x_one()
            };
            x_mul(x_mul(lagrange_weight(xs, z, i, n), own), x_base(gap(xs, i, n))) == differences(xs, z, n)
        }),
        x_red(lagrange_weight(xs, z, i, n)) == lagrange_weight(xs, z, i, n),
    decreases n,
{
    let w = lagrange_weight(xs, z, i, n);
    if n == 0 {
        lemma_x_mul_one(x_one());
        assert(x_base(1) == x_one());
    } else {
        let k = (n - 1) as nat;
        lemma_weight_product(xs, z, i, k);
        let before = lagrange_weight(xs, z, i, k);
        let g = x_base(gap(xs, i, k));
        if k == i {
            let d = x_sub(z, x_base(xs[i]));
            lemma_x_mul_one(before);
            lemma_x_swap(before, g, d);
        } else {
            let d = x_sub(z, x_base(xs[k as int]));
            let e = f_sub(xs[i], xs[k as int]);
            let (q, r) = (x_base(f_inv(e)), x_base(e));
            let own = if i < k {
                x_sub(z, x_base(xs[i]))
            } else {
                x_one()
            };
            lemma_unit_inverse(e);
            lemma_x_mul_base(f_inv(e), e);
            assert(x_base(1) == x_one());
            lemma_x_mul_base(gap(xs, i, k), e);
            lemma_regroup(before, d, q, own, g, r);
            lemma_x_mul_red(before, x_mul(d, q));
        }
    }
}

/// The chosen inverse of a unit inverts it.
proof fn lemma_unit_inverse(e: u64)
    requires
        is_unit(e),
    ensures
        f_mul(f_inv(e), e) == 1,
{
    let v = choose|v: u64| #[trigger] f_mul(e, v) == 1;
    lemma_red_mul(e as int, v as int);
    assert(f_red(v as int) < MODULUS && f_mul(e, f_red(v as int)) == 1);
    lemma_mul_assoc(e, f_inv(e), 0);
}

/// ((w d) g)((y i) s) = y w, for d i = 1 and g s = 1.
proof fn lemma_term(w: Ext, d: Ext, g: Ext, y: Ext, i: Ext, s: Ext)
    requires
        x_mul(i, d) == x_one(),
        x_mul(g, s) == x_one(),
    ensures
        x_mul(x_mul(x_mul(w, d), g), x_mul(x_mul(y, i), s)) == x_mul(y, w),
{
    let yi = x_mul(y, i);
    let wd = x_mul(w, d);
    // ((w d) g)((y i) s) = (((w d) g) s)(y i) = (w d)(y i).
    lemma_x_mul_comm(yi, s);
    lemma_x_mul_assoc(x_mul(wd, g), s, yi);
    lemma_x_mul_assoc(wd, g, s);
    lemma_x_product_one(w, d);
    // (w d)(y i) = (w y)(i d).
    lemma_x_mul_assoc(wd, y, i);
    lemma_x_swap(w, d, y);
    lemma_x_mul_assoc(x_mul(w, y), d, i);
    lemma_x_mul_comm(d, i);
    lemma_x_product_one(w, y);
    lemma_x_mul_comm(w, y);
}

/// The first `n` terms of the barycentric form.
pub open spec fn barycentric_terms(xs: Seq<u64>, ys: Seq<Ext>, invs: Seq<Ext>, scale: u64, n: nat) -> Ext
    decreases n,
{
    if n == 0 {
        x_zero()
    } else {
        x_add(
            barycentric_terms(xs, ys, invs, scale, (n - 1) as nat),
            x_mul(x_mul(ys[n - 1], invs[n - 1]), x_base(f_mul(xs[n - 1], scale))),
        )
    }
}

/// The inverses and the scale are those of a coset and a challenge.
pub open spec fn scaled(xs: Seq<u64>, z: Ext, invs: Seq<Ext>, scale: u64, m: nat) -> bool {
    &&& f_mul(scale, f_mul(f_red(pow2(m) as int), f_square_times(xs[0], m))) == 1
    &&& forall|i: int|
        0 <= i < xs.len() ==> x_mul(#[trigger] invs[i], x_sub(z, x_base(xs[i]))) == x_one()
}

proof fn lemma_barycentric_terms(
    xs: Seq<u64>,
    ys: Seq<Ext>,
    z: Ext,
    invs: Seq<Ext>,
    scale: u64,
    m: nat,
    n: nat,
)
    requires
        is_coset(xs, m),
        scaled(xs, z, invs, scale, m),
        n <= xs.len(),
    ensures
        x_mul(differences(xs, z, xs.len()), barycentric_terms(xs, ys, invs, scale, n)) == lagrange_terms(xs, ys, z, n),
    decreases n,
{
    let v = differences(xs, z, xs.len());
    if n == 0 {
        lemma_x_mul_zero(v);
    } else {
        let i = n - 1;
        lemma_barycentric_terms(xs, ys, z, invs, scale, m, i as nat);
        let t = x_mul(x_mul(ys[i], invs[i]), x_base(f_mul(xs[i], scale)));
        lemma_x_distribute(v, barycentric_terms(xs, ys, invs, scale, i as nat), t);
        let g = gap(xs, i, xs.len());
        lemma_gap_scaled(xs, m, i, scale);
        assert(is_unit(g));
        assert forall|j: int| 0 <= j < xs.len() && j != i implies is_unit(#[trigger] f_sub(xs[i], xs[j])) by {
            lemma_gap_factors(xs, i, xs.len(), j);
        }
        lemma_weight_product(xs, z, i, xs.len());
        lemma_x_mul_base(g, f_mul(xs[i], scale));
        assert(x_base(1) == x_one());
        lemma_term(
            lagrange_weight(xs, z, i, xs.len()),
            x_sub(z, x_base(xs[i])),
            x_base(g),
            ys[i],
            invs[i],
            x_base(f_mul(xs[i], scale)),
        );
    }
}

/// Over a coset the barycentric form with one scale interpolates: the product of the differences of the challenge from
/// the points, times the sum of the evaluations over their differences, weighted by the points and the scale, is the
/// polynomial through the evaluations at the challenge.
pub proof fn law_barycentric_interpolates(xs: Seq<u64>, ys: Seq<Ext>, z: Ext, invs: Seq<Ext>, scale: u64, m: nat)
    requires
        is_coset(xs, m),
        scaled(xs, z, invs, scale, m),
    ensures
        x_mul(differences(xs, z, xs.len()), barycentric_terms(xs, ys, invs, scale, xs.len())) == lagrange(xs, ys, z),
{
    lemma_barycentric_terms(xs, ys, z, invs, scale, m, xs.len());
}

} // verus!
