//! The base field F_p with p = 2^64 - 2^32 + 1 and its quadratic extension F_p[X]/(X^2 - 7).
//!
//! A field element is a `u64` read modulo p; every operation returns the canonical representative
//! (below p). An extension element is the pair of its two coordinates.

use p3_field::extension::BinomialExtensionField;
use p3_field::{BasedVectorSpace, Field, PrimeCharacteristicRing, PrimeField64, TwoAdicField};
use p3_goldilocks::Goldilocks;
use vstd::arithmetic::power2::pow2;
use vstd::prelude::*;

verus! {

/// The field modulus 2^64 - 2^32 + 1.
pub const MODULUS: u64 = 18446744069414584321;

/// The non-residue of the extension: X^2 = W_EXT.
pub const W_EXT: u64 = 7;

/// The fixed generator of the multiplicative group, used as the coset shift of every committed domain.
pub const GENERATOR: u64 = 7;

/// The inverse of two modulo p, (p + 1) / 2.
pub const HALF: u64 = 9223372034707292161;

/// The largest supported order of a two-adic subgroup, as a power of two.
pub const TWO_ADICITY: usize = 32;

/// `x` modulo p.
pub open spec fn f_red(x: int) -> u64 {
    (x % (MODULUS as int)) as u64
}

pub open spec fn f_add(a: u64, b: u64) -> u64 {
    f_red(a + b)
}

pub open spec fn f_sub(a: u64, b: u64) -> u64 {
    f_red(a - b)
}

pub open spec fn f_mul(a: u64, b: u64) -> u64 {
    f_red(a * b)
}

/// The canonical inverse of a unit.
pub open spec fn f_inv(a: u64) -> u64 {
    choose|r: u64| r < MODULUS && f_mul(a, r) == 1
}

/// `a` raised to `n`.
pub open spec fn f_pow(a: u64, n: nat) -> u64
    decreases n,
{
    if n == 0 {
        1
    } else {
        f_mul(f_pow(a, (n - 1) as nat), a)
    }
}

/// `a` squared `n` times over.
pub open spec fn f_square_times(a: u64, n: nat) -> u64
    decreases n,
{
    if n == 0 {
        f_red(a as int)
    } else {
        f_mul(f_square_times(a, (n - 1) as nat), f_square_times(a, (n - 1) as nat))
    }
}

/// The generator that the field fixes for its subgroup of order 2^bits.
pub uninterp spec fn two_adic_root(bits: nat) -> u64;

/// Field addition: `Add` of `p3_goldilocks::Goldilocks`, on any two 64-bit representatives. The sum
/// comes back canonical.
#[verifier::external_body]
pub(crate) fn fadd(a: u64, b: u64) -> (r: u64)
    ensures
        r == f_add(a, b),
{
    (Goldilocks::new(a) + Goldilocks::new(b)).as_canonical_u64()
}

/// Field subtraction: `Sub` of `p3_goldilocks::Goldilocks`, on any two 64-bit representatives. The
/// difference comes back canonical.
#[verifier::external_body]
pub(crate) fn fsub(a: u64, b: u64) -> (r: u64)
    ensures
        r == f_sub(a, b),
{
    (Goldilocks::new(a) - Goldilocks::new(b)).as_canonical_u64()
}

/// Field multiplication: `Mul` of `p3_goldilocks::Goldilocks`, on any two 64-bit representatives. The
/// product comes back canonical.
#[verifier::external_body]
pub(crate) fn fmul(a: u64, b: u64) -> (r: u64)
    ensures
        r == f_mul(a, b),
{
    (Goldilocks::new(a) * Goldilocks::new(b)).as_canonical_u64()
}

/// Field inversion: `Field::try_inverse` of `p3_goldilocks::Goldilocks`. There is an inverse exactly
/// when the argument is not zero modulo p, and it is the canonical one.
#[verifier::external_body]
pub(crate) fn finv(a: u64) -> (r: Option<u64>)
    ensures
        r is Some <==> f_red(a as int) != 0,
        r matches Some(v) ==> v == f_inv(a) && v < MODULUS && f_mul(a, v) == 1,
{
    Goldilocks::new(a).try_inverse().map(|v| v.as_canonical_u64())
}

/// `TwoAdicField::two_adic_generator` of `p3_goldilocks::Goldilocks`: a fixed table of units, canonical, with
/// 1 for the trivial subgroup and each entry a square root of the one before it. The order of the entry is 2^bits:
/// `bits` squarings lead to 1, and no lower power is 1. Orders above 2^32 make it panic.
#[verifier::external_body]
pub(crate) fn two_adic_generator(bits: usize) -> (r: u64)
    requires
        bits <= TWO_ADICITY,
    ensures
        r == two_adic_root(bits as nat),
        0 < r < MODULUS,
        bits == 0 ==> r == 1,
        bits > 0 ==> f_mul(r, r) == two_adic_root((bits - 1) as nat),
        f_square_times(r, bits as nat) == 1,
        forall|k: nat| 0 < k < pow2(bits as nat) ==> #[trigger] f_pow(r, k) != 1,
{
    Goldilocks::two_adic_generator(bits).as_canonical_u64()
}

/// The canonical representative of `a`.
pub fn canonical(a: u64) -> (r: u64)
    ensures
        r == f_red(a as int),
{
    a % MODULUS
}

/// `a^n`, by squaring and multiplying.
pub fn exp_u64(a: u64, n: u64) -> (r: u64)
    ensures
        r == f_pow(a, n as nat),
{
    // Square-and-multiply from the top bit down: `acc` is a^(n >> i).
    let mut acc: u64 = 1;
    let mut i: u32 = 64;
    proof {
        assert(n >> 63u64 >> 1u64 == 0) by (bit_vector);
        assert(f_pow(a, 0) == 1);
    }
    let mut top: u64 = 0;
    while i > 0
        invariant
            i <= 64,
            i == 64 ==> top == 0,
            i < 64 ==> top == n >> (i as u64),
            acc == f_pow(a, top as nat),
        decreases i,
    {
        i = i - 1;
        let next: u64 = n >> (i as u64);
        let bit: u64 = next & 1;
        let ghost before = top;
        proof {
            let k: u64 = i as u64;
            if i == 63 {
                assert(next == bit && (next == 0 || next == 1)) by (bit_vector)
                    requires
                        next == n >> 63u64,
                        bit == next & 1u64,
                ;
            } else {
                assert(next == 2 * before + bit && (bit == 0 || bit == 1)) by (bit_vector)
                    requires
                        next == n >> k,
                        before == n >> ((k + 1) as u64),
                        bit == next & 1u64,
                        k < 63u64,
                ;
            }
            lemma_pow_double(a, before as nat);
        }
        acc = fmul(acc, acc);
        if bit == 1 {
            acc = fmul(acc, a);
            assert(f_pow(a, next as nat) == f_mul(f_pow(a, (2 * before) as nat), a));
        }
        top = next;
    }
    proof {
        assert(n >> 0u64 == n) by (bit_vector);
    }
    acc
}

/// `a^(2^n)`, by squaring.
pub fn exp_power_of_2(a: u64, n: usize) -> (r: u64)
    ensures
        r == f_square_times(a, n as nat),
{
    let mut acc: u64 = canonical(a);
    let mut i: usize = 0;
    while i < n
        invariant
            i <= n,
            acc == f_square_times(a, i as nat),
        decreases n - i,
    {
        acc = fmul(acc, acc);
        i += 1;
    }
    acc
}

/// Multiplication modulo p does not depend on the representatives.
pub proof fn lemma_red_mul(a: int, b: int)
    ensures
        f_red(f_red(a) * b) == f_red(a * b),
        f_red(a * f_red(b)) == f_red(a * b),
{
    vstd::arithmetic::div_mod::lemma_mul_mod_noop_left(a, b, MODULUS as int);
    vstd::arithmetic::div_mod::lemma_mul_mod_noop_right(a, b, MODULUS as int);
}

/// Addition modulo p does not depend on the representatives.
pub proof fn lemma_red_add(a: int, b: int)
    ensures
        f_red(f_red(a) + b) == f_red(a + b),
        f_red(a + f_red(b)) == f_red(a + b),
        f_red(f_red(a) - b) == f_red(a - b),
        f_red(a - f_red(b)) == f_red(a - b),
{
    vstd::arithmetic::div_mod::lemma_add_mod_noop_right(b, a, MODULUS as int);
    vstd::arithmetic::div_mod::lemma_add_mod_noop_right(a, b, MODULUS as int);
    vstd::arithmetic::div_mod::lemma_sub_mod_noop_right(a, b, MODULUS as int);
    vstd::arithmetic::div_mod::lemma_add_mod_noop_right(-b, a, MODULUS as int);
}

/// Field multiplication is associative and commutative.
pub proof fn lemma_mul_assoc(a: u64, b: u64, c: u64)
    ensures
        f_mul(f_mul(a, b), c) == f_mul(a, f_mul(b, c)),
        f_mul(a, b) == f_mul(b, a),
{
    lemma_red_mul(a * b, c as int);
    lemma_red_mul(a as int, b * c);
    assert((a * b) * c == a * (b * c)) by (nonlinear_arith);
    assert(a * b == b * a) by (nonlinear_arith);
}

/// Exponents add: a^(m + n) = a^m a^n.
pub proof fn lemma_pow_add(a: u64, m: nat, n: nat)
    ensures
        f_pow(a, m + n) == f_mul(f_pow(a, m), f_pow(a, n)),
    decreases n,
{
    if n == 0 {
        lemma_pow_canonical(a, m);
        assert(f_pow(a, m) * 1 == f_pow(a, m));
    } else {
        lemma_pow_add(a, m, (n - 1) as nat);
        lemma_mul_assoc(f_pow(a, m), f_pow(a, (n - 1) as nat), a);
        assert((m + n - 1) as nat == m + (n - 1) as nat);
    }
}

/// A power is canonical.
pub proof fn lemma_pow_canonical(a: u64, n: nat)
    ensures
        f_pow(a, n) < MODULUS,
{
}

proof fn lemma_pow_double(a: u64, n: nat)
    ensures
        f_pow(a, 2 * n) == f_mul(f_pow(a, n), f_pow(a, n)),
{
    lemma_pow_add(a, n, n);
    assert(2 * n == n + n);
}

/// One is neutral.
pub proof fn lemma_mul_one(a: u64)
    ensures
        f_mul(a, 1) == f_red(a as int),
        f_mul(1, a) == f_red(a as int),
        a < MODULUS ==> f_red(a as int) == a,
{
    assert(a * 1 == a && 1 * a == a) by (nonlinear_arith);
}

/// The factors of one are not zero.
pub proof fn lemma_unit_nonzero(a: u64, b: u64)
    requires
        f_mul(a, b) == 1,
    ensures
        f_red(a as int) != 0,
{
    lemma_red_mul(a as int, b as int);
    if f_red(a as int) == 0 {
        assert(0 * b == 0) by (nonlinear_arith);
    }
}

/// There is an inverse.
pub open spec fn is_unit(a: u64) -> bool {
    exists|b: u64| #[trigger] f_mul(a, b) == 1
}

/// A product of units is a unit.
pub proof fn lemma_units_multiply(a: u64, b: u64)
    requires
        is_unit(a),
        is_unit(b),
    ensures
        is_unit(f_mul(a, b)),
        f_mul(a, b) != 0,
{
    let (x, y) = (choose|x: u64| #[trigger] f_mul(a, x) == 1, choose|y: u64| #[trigger] f_mul(b, y) == 1);
    lemma_mul_assoc(f_mul(a, b), y, x);
    lemma_mul_assoc(a, b, y);
    lemma_mul_one(a);
    lemma_red_mul(a as int, x as int);
    assert(f_mul(f_red(a as int), x) == 1);
    assert(f_mul(f_mul(a, b), f_mul(y, x)) == 1);
    lemma_unit_nonzero(f_mul(a, b), f_mul(y, x));
}

/// The powers of an element of finite order are units.
pub proof fn lemma_power_unit(a: u64, order: nat, n: nat)
    requires
        f_pow(a, order) == 1,
        n <= order,
    ensures
        is_unit(f_pow(a, n)),
{
    lemma_pow_add(a, n, (order - n) as nat);
    assert(f_mul(f_pow(a, n), f_pow(a, (order - n) as nat)) == 1);
}

/// Two is a unit.
pub proof fn lemma_two_unit()
    ensures
        is_unit(2),
{
    assert(f_mul(2, HALF) == 1);
}

/// Repeated squaring is a power.
pub proof fn lemma_square_times_pow(a: u64, n: nat)
    ensures
        f_square_times(a, n) == f_pow(a, pow2(n)),
    decreases n,
{
    vstd::arithmetic::power2::lemma2_to64();
    if n == 0 {
        assert(f_pow(a, 1) == f_mul(f_pow(a, 0), a));
        lemma_mul_one(a);
    } else {
        lemma_square_times_pow(a, (n - 1) as nat);
        lemma_pow_double(a, pow2((n - 1) as nat));
        vstd::arithmetic::power2::lemma_pow2_unfold(n);
    }
}

/// Powers of a product: (a b)^n = a^n b^n.
pub proof fn lemma_pow_mul(a: u64, b: u64, n: nat)
    ensures
        f_pow(f_mul(a, b), n) == f_mul(f_pow(a, n), f_pow(b, n)),
    decreases n,
{
    if n == 0 {
        lemma_mul_one(1);
    } else {
        let (x, y) = (f_pow(a, (n - 1) as nat), f_pow(b, (n - 1) as nat));
        lemma_pow_mul(a, b, (n - 1) as nat);
        lemma_mul_assoc(f_mul(x, y), a, b);
        lemma_mul_assoc(x, y, a);
        lemma_mul_assoc(a, y, x);
        lemma_mul_assoc(x, a, y);
        lemma_mul_assoc(f_mul(x, a), y, b);
    }
}

/// Powers of a power: (a^m)^n = a^(m n).
pub proof fn lemma_pow_pow(a: u64, m: nat, n: nat)
    ensures
        f_pow(f_pow(a, m), n) == f_pow(a, m * n),
    decreases n,
{
    if n == 0 {
        assert(m * 0 == 0) by (nonlinear_arith);
    } else {
        lemma_pow_pow(a, m, (n - 1) as nat);
        lemma_pow_add(a, m * ((n - 1) as nat), m);
        assert(m * n == m * ((n - 1) as nat) + m) by (nonlinear_arith)
            requires
                n > 0,
        ;
    }
}

/// A unit cancels.
pub proof fn lemma_cancel(u: u64, v: u64, a: u64, b: u64)
    requires
        f_mul(v, u) == 1,
        f_mul(u, a) == f_mul(u, b),
        a < MODULUS,
        b < MODULUS,
    ensures
        a == b,
{
    lemma_mul_assoc(v, u, a);
    lemma_mul_assoc(v, u, b);
    lemma_mul_one(a);
    lemma_mul_one(b);
}

/// A difference vanishes modulo p exactly if the two sides agree modulo p.
pub proof fn lemma_zero_difference(a: u64, b: u64)
    ensures
        f_sub(a, b) == 0 <==> f_red(a as int) == f_red(b as int),
{
    vstd::arithmetic::div_mod::lemma_fundamental_div_mod(a as int, MODULUS as int);
    vstd::arithmetic::div_mod::lemma_fundamental_div_mod(b as int, MODULUS as int);
    let (qa, ra) = (a as int / MODULUS as int, a as int % MODULUS as int);
    let (qb, rb) = (b as int / MODULUS as int, b as int % MODULUS as int);
    assert(a - b == MODULUS * (qa - qb) + (ra - rb)) by (nonlinear_arith)
        requires
            a as int == MODULUS * qa + ra,
            b as int == MODULUS * qb + rb,
    ;
    vstd::arithmetic::div_mod::lemma_mod_multiples_vanish(qa - qb, ra - rb, MODULUS as int);
    if ra > rb {
        vstd::arithmetic::div_mod::lemma_small_mod((ra - rb) as nat, MODULUS as nat);
    } else if ra < rb {
        vstd::arithmetic::div_mod::lemma_mod_add_multiples_vanish(ra - rb, MODULUS as int);
        vstd::arithmetic::div_mod::lemma_small_mod((ra - rb + MODULUS) as nat, MODULUS as nat);
    }
}

/// An element c0 + c1 X of the quadratic extension.
#[derive(Clone, Copy, Debug, PartialEq, Eq, Structural)]
pub struct Ext {
    pub c0: u64,
    pub c1: u64,
}

pub open spec fn x_zero() -> Ext {
    Ext { c0: 0, c1: 0 }
}

pub open spec fn x_one() -> Ext {
    Ext { c0: 1, c1: 0 }
}

/// The embedding of the base field.
pub open spec fn x_base(a: u64) -> Ext {
    Ext { c0: f_red(a as int), c1: 0 }
}

pub open spec fn x_add(a: Ext, b: Ext) -> Ext {
    Ext { c0: f_add(a.c0, b.c0), c1: f_add(a.c1, b.c1) }
}

pub open spec fn x_sub(a: Ext, b: Ext) -> Ext {
    Ext { c0: f_sub(a.c0, b.c0), c1: f_sub(a.c1, b.c1) }
}

/// (a0 + a1 X)(b0 + b1 X) = (a0 b0 + 7 a1 b1) + (a0 b1 + a1 b0) X.
pub open spec fn x_mul(a: Ext, b: Ext) -> Ext {
    Ext {
        c0: f_red(a.c0 * b.c0 + W_EXT * (a.c1 * b.c1)),
        c1: f_red(a.c0 * b.c1 + a.c1 * b.c0),
    }
}

/// The representatives modulo p.
pub open spec fn x_red(a: Ext) -> Ext {
    Ext { c0: f_red(a.c0 as int), c1: f_red(a.c1 as int) }
}

/// Whether two pairs name the same extension element.
pub open spec fn x_same(a: Ext, b: Ext) -> bool {
    x_red(a) == x_red(b)
}

/// The canonical inverse of a unit.
pub open spec fn x_inv(a: Ext) -> Ext {
    choose|r: Ext| x_red(r) == r && #[trigger] x_mul(a, r) == x_one()
}

/// `a` raised to `n`.
pub open spec fn x_pow(a: Ext, n: nat) -> Ext
    decreases n,
{
    if n == 0 {
        x_one()
    } else {
        x_mul(x_pow(a, (n - 1) as nat), a)
    }
}

/// `a` squared `n` times over.
pub open spec fn x_square_times(a: Ext, n: nat) -> Ext
    decreases n,
{
    if n == 0 {
        x_red(a)
    } else {
        x_mul(x_square_times(a, (n - 1) as nat), x_square_times(a, (n - 1) as nat))
    }
}

/// The element with the given coordinates modulo p.
pub open spec fn x_of(c0: int, c1: int) -> Ext {
    Ext { c0: f_red(c0), c1: f_red(c1) }
}

/// A product does not depend on the representatives.
pub proof fn lemma_x_mul_raw(m0: int, m1: int, n0: int, n1: int)
    ensures
        x_mul(x_of(m0, m1), x_of(n0, n1)) == x_of(m0 * n0 + W_EXT * (m1 * n1), m0 * n1 + m1 * n0),
{
    let (a0, a1) = (f_red(m0) as int, f_red(m1) as int);
    let (b0, b1) = (f_red(n0) as int, f_red(n1) as int);
    assert(f_red(a0 * b0) == f_red(m0 * n0)) by {
        lemma_red_mul(m0, b0);
        lemma_red_mul(m0, n0);
    }
    assert(f_red(a1 * b1) == f_red(m1 * n1)) by {
        lemma_red_mul(m1, b1);
        lemma_red_mul(m1, n1);
    }
    assert(f_red(a0 * b1) == f_red(m0 * n1)) by {
        lemma_red_mul(m0, b1);
        lemma_red_mul(m0, n1);
    }
    assert(f_red(a1 * b0) == f_red(m1 * n0)) by {
        lemma_red_mul(m1, b0);
        lemma_red_mul(m1, n0);
    }
    lemma_red_mul(W_EXT as int, a1 * b1);
    lemma_red_mul(W_EXT as int, m1 * n1);
    lemma_red_sum(a0 * b0, W_EXT * (a1 * b1), m0 * n0, W_EXT * (m1 * n1));
    lemma_red_sum(a0 * b1, a1 * b0, m0 * n1, m1 * n0);
}

/// Sums of values that agree modulo p agree modulo p.
proof fn lemma_red_sum(a: int, b: int, c: int, d: int)
    requires
        f_red(a) == f_red(c),
        f_red(b) == f_red(d),
    ensures
        f_red(a + b) == f_red(c + d),
{
    lemma_red_add(a, b);
    lemma_red_add(f_red(a) as int, b);
    lemma_red_add(c, d);
    lemma_red_add(f_red(c) as int, d);
}

/// Products in the extension do not depend on the representatives, and come out canonical.
pub proof fn lemma_x_mul_red(a: Ext, b: Ext)
    ensures
        x_mul(x_red(a), x_red(b)) == x_mul(a, b),
        x_red(x_mul(a, b)) == x_mul(a, b),
{
    lemma_x_mul_raw(a.c0 as int, a.c1 as int, b.c0 as int, b.c1 as int);
}

/// Multiplication in the extension is commutative.
pub proof fn lemma_x_mul_comm(a: Ext, b: Ext)
    ensures
        x_mul(a, b) == x_mul(b, a),
{
    assert(a.c0 * b.c0 == b.c0 * a.c0 && a.c1 * b.c1 == b.c1 * a.c1 && a.c0 * b.c1 == b.c1 * a.c0 && a.c1 * b.c0
        == b.c0 * a.c1) by (nonlinear_arith);
}

/// a (x + y) and (x + y) a, multiplied out.
proof fn lemma_distribute(a: int, x: int, y: int)
    ensures
        a * (x + y) == a * x + a * y,
        (x + y) * a == x * a + y * a,
{
    vstd::arithmetic::mul::lemma_mul_is_distributive_add(a, x, y);
    vstd::arithmetic::mul::lemma_mul_is_distributive_add_other_way(a, x, y);
}

/// The two ways of multiplying three pairs of coordinates agree.
proof fn lemma_assoc_coordinates(a0: int, a1: int, b0: int, b1: int, c0: int, c1: int)
    ensures
        (a0 * b0 + W_EXT * (a1 * b1)) * c0 + W_EXT * ((a0 * b1 + a1 * b0) * c1) == a0 * (b0 * c0 + W_EXT * (b1 * c1))
            + W_EXT * (a1 * (b0 * c1 + b1 * c0)),
        (a0 * b0 + W_EXT * (a1 * b1)) * c1 + (a0 * b1 + a1 * b0) * c0 == a0 * (b0 * c1 + b1 * c0) + a1 * (b0 * c0 + W_EXT
            * (b1 * c1)),
{
    let w = 7int;
    lemma_distribute(c0, a0 * b0, w * (a1 * b1));
    lemma_distribute(c1, a0 * b0, w * (a1 * b1));
    lemma_distribute(c1, a0 * b1, a1 * b0);
    lemma_distribute(c0, a0 * b1, a1 * b0);
    lemma_distribute(a0, b0 * c0, w * (b1 * c1));
    lemma_distribute(a1, b0 * c0, w * (b1 * c1));
    lemma_distribute(a1, b0 * c1, b1 * c0);
    lemma_distribute(a0, b0 * c1, b1 * c0);
    assert((a0 * b0) * c0 == a0 * (b0 * c0)) by (nonlinear_arith);
    assert((a0 * b0) * c1 == a0 * (b0 * c1)) by (nonlinear_arith);
    assert((a0 * b1) * c0 == a0 * (b1 * c0)) by (nonlinear_arith);
    assert((a0 * b1) * c1 == a0 * (b1 * c1)) by (nonlinear_arith);
    assert((a1 * b0) * c0 == a1 * (b0 * c0)) by (nonlinear_arith);
    assert((a1 * b0) * c1 == a1 * (b0 * c1)) by (nonlinear_arith);
    assert((a1 * b1) * c0 == a1 * (b1 * c0)) by (nonlinear_arith);
    assert((a1 * b1) * c1 == a1 * (b1 * c1)) by (nonlinear_arith);
    assert((w * (a1 * b1)) * c0 == w * ((a1 * b1) * c0)) by (nonlinear_arith);
    assert((w * (a1 * b1)) * c1 == w * ((a1 * b1) * c1)) by (nonlinear_arith);
    assert(a0 * (w * (b1 * c1)) == w * (a0 * (b1 * c1))) by (nonlinear_arith);
    assert(a1 * (w * (b1 * c1)) == w * (a1 * (b1 * c1))) by (nonlinear_arith);
}

/// Multiplication in the extension is associative.
pub proof fn lemma_x_mul_assoc(a: Ext, b: Ext, c: Ext)
    ensures
        x_mul(x_mul(a, b), c) == x_mul(a, x_mul(b, c)),
{
    let (a0, a1) = (a.c0 as int, a.c1 as int);
    let (b0, b1) = (b.c0 as int, b.c1 as int);
    let (c0, c1) = (c.c0 as int, c.c1 as int);
    let w = W_EXT as int;
    lemma_x_mul_red(x_mul(a, b), c);
    lemma_x_mul_red(a, x_mul(b, c));
    let (l0, l1) = (a0 * b0 + w * (a1 * b1), a0 * b1 + a1 * b0);
    let (r0, r1) = (b0 * c0 + w * (b1 * c1), b0 * c1 + b1 * c0);
    lemma_x_mul_raw(l0, l1, c0, c1);
    lemma_x_mul_raw(a0, a1, r0, r1);
    lemma_assoc_coordinates(a0, a1, b0, b1, c0, c1);
    assert(x_red(c) == x_of(c0, c1));
    assert(x_red(a) == x_of(a0, a1));
}

/// Sums and differences of reduced values are reduced sums and differences.
proof fn lemma_red_pair(p: int, q: int)
    ensures
        f_sub(f_red(p), f_red(q)) == f_red(p - q),
        f_add(f_red(p), f_red(q)) == f_red(p + q),
{
    lemma_red_add(p, q);
    lemma_red_add(f_red(p) as int, q);
}

/// The coordinates of a (b + e c), for e one or minus one.
proof fn lemma_distribute_coordinates(a0: int, a1: int, b0: int, b1: int, c0: int, c1: int)
    ensures
        a0 * (b0 - c0) + W_EXT * (a1 * (b1 - c1)) == (a0 * b0 + W_EXT * (a1 * b1)) - (a0 * c0 + W_EXT * (a1 * c1)),
        a0 * (b1 - c1) + a1 * (b0 - c0) == (a0 * b1 + a1 * b0) - (a0 * c1 + a1 * c0),
        a0 * (b0 + c0) + W_EXT * (a1 * (b1 + c1)) == (a0 * b0 + W_EXT * (a1 * b1)) + (a0 * c0 + W_EXT * (a1 * c1)),
        a0 * (b1 + c1) + a1 * (b0 + c0) == (a0 * b1 + a1 * b0) + (a0 * c1 + a1 * c0),
{
    assert(a0 * (b0 - c0) == a0 * b0 - a0 * c0) by (nonlinear_arith);
    assert(a1 * (b1 - c1) == a1 * b1 - a1 * c1) by (nonlinear_arith);
    assert(a0 * (b1 - c1) == a0 * b1 - a0 * c1) by (nonlinear_arith);
    assert(a1 * (b0 - c0) == a1 * b0 - a1 * c0) by (nonlinear_arith);
    assert(a0 * (b0 + c0) == a0 * b0 + a0 * c0) by (nonlinear_arith);
    assert(a1 * (b1 + c1) == a1 * b1 + a1 * c1) by (nonlinear_arith);
    assert(a0 * (b1 + c1) == a0 * b1 + a0 * c1) by (nonlinear_arith);
    assert(a1 * (b0 + c0) == a1 * b0 + a1 * c0) by (nonlinear_arith);
}

/// Reducing twice is reducing once.
proof fn lemma_red_twice(v: int)
    ensures
        f_red(f_red(v) as int) == f_red(v),
{
}

/// Sums and differences in the extension, by coordinates.
proof fn lemma_x_parts(b: Ext, c: Ext)
    ensures
        x_red(x_sub(b, c)) == x_of(b.c0 - c.c0, b.c1 - c.c1),
        x_red(x_add(b, c)) == x_of(b.c0 + c.c0, b.c1 + c.c1),
        x_red(b) == x_of(b.c0 as int, b.c1 as int),
{
    lemma_red_twice(b.c0 - c.c0);
    lemma_red_twice(b.c1 - c.c1);
    lemma_red_twice(b.c0 + c.c0);
    lemma_red_twice(b.c1 + c.c1);
}

/// A product by coordinates.
proof fn lemma_x_mul_parts(a: Ext, b: Ext)
    ensures
        x_mul(a, b) == x_of(a.c0 * b.c0 + W_EXT * (a.c1 * b.c1), a.c0 * b.c1 + a.c1 * b.c0),
{
}

/// Multiplication in the extension distributes over differences.
proof fn lemma_x_distribute_sub(a: Ext, b: Ext, c: Ext)
    ensures
        x_mul(a, x_sub(b, c)) == x_sub(x_mul(a, b), x_mul(a, c)),
{
    let (a0, a1) = (a.c0 as int, a.c1 as int);
    let (b0, b1) = (b.c0 as int, b.c1 as int);
    let (c0, c1) = (c.c0 as int, c.c1 as int);
    let (p0, p1) = (a0 * b0 + W_EXT * (a1 * b1), a0 * b1 + a1 * b0);
    let (q0, q1) = (a0 * c0 + W_EXT * (a1 * c1), a0 * c1 + a1 * c0);
    lemma_x_parts(b, c);
    lemma_x_parts(a, c);
    lemma_x_mul_parts(a, b);
    lemma_x_mul_parts(a, c);
    lemma_x_mul_red(a, x_sub(b, c));
    lemma_x_mul_raw(a0, a1, b0 - c0, b1 - c1);
    lemma_distribute_coordinates(a0, a1, b0, b1, c0, c1);
    lemma_red_pair(p0, q0);
    lemma_red_pair(p1, q1);
}

/// Multiplication in the extension distributes over sums.
proof fn lemma_x_distribute_add(a: Ext, b: Ext, c: Ext)
    ensures
        x_mul(a, x_add(b, c)) == x_add(x_mul(a, b), x_mul(a, c)),
{
    let (a0, a1) = (a.c0 as int, a.c1 as int);
    let (b0, b1) = (b.c0 as int, b.c1 as int);
    let (c0, c1) = (c.c0 as int, c.c1 as int);
    let (p0, p1) = (a0 * b0 + W_EXT * (a1 * b1), a0 * b1 + a1 * b0);
    let (q0, q1) = (a0 * c0 + W_EXT * (a1 * c1), a0 * c1 + a1 * c0);
    lemma_x_parts(b, c);
    lemma_x_parts(a, c);
    lemma_x_mul_parts(a, b);
    lemma_x_mul_parts(a, c);
    lemma_x_mul_red(a, x_add(b, c));
    lemma_x_mul_raw(a0, a1, b0 + c0, b1 + c1);
    lemma_distribute_coordinates(a0, a1, b0, b1, c0, c1);
    lemma_red_pair(p0, q0);
    lemma_red_pair(p1, q1);
}

/// Multiplication in the extension distributes over differences and sums.
pub proof fn lemma_x_distribute(a: Ext, b: Ext, c: Ext)
    ensures
        x_mul(a, x_sub(b, c)) == x_sub(x_mul(a, b), x_mul(a, c)),
        x_mul(a, x_add(b, c)) == x_add(x_mul(a, b), x_mul(a, c)),
{
    lemma_x_distribute_sub(a, b, c);
    lemma_x_distribute_add(a, b, c);
}

/// Zero absorbs.
pub proof fn lemma_x_mul_zero(a: Ext)
    ensures
        x_mul(a, x_zero()) == x_zero(),
        x_mul(x_zero(), a) == x_zero(),
{
    assert(a.c0 * 0 == 0 && a.c1 * 0 == 0) by (nonlinear_arith);
    lemma_x_mul_comm(a, x_zero());
}

/// Zero is neutral, differences with oneself vanish, and what is added can be taken away.
pub proof fn lemma_x_add_sub(a: Ext, b: Ext)
    ensures
        x_add(x_zero(), a) == x_red(a),
        x_add(a, x_zero()) == x_red(a),
        x_sub(a, a) == x_zero(),
        x_sub(x_sub(x_add(a, b), a), b) == x_zero(),
        x_sub(x_sub(a, b), x_add(a, x_sub(x_zero(), b))) == x_zero(),
        x_red(x_add(a, b)) == x_add(a, b),
        x_red(x_sub(a, b)) == x_sub(a, b),
{
    lemma_zero_sums(a.c0, b.c0);
    lemma_zero_sums(a.c1, b.c1);
    lemma_add_sub(a.c0, b.c0);
    lemma_add_sub(a.c1, b.c1);
    assert(x_sub(x_sub(x_add(a, b), a), b).c0 == f_sub(f_sub(f_add(a.c0, b.c0), a.c0), b.c0));
    assert(x_sub(x_sub(x_add(a, b), a), b).c1 == f_sub(f_sub(f_add(a.c1, b.c1), a.c1), b.c1));
    let t = x_sub(x_sub(a, b), x_add(a, x_sub(x_zero(), b)));
    assert(t.c0 == f_sub(f_sub(a.c0, b.c0), f_add(a.c0, f_sub(0, b.c0))));
    assert(t.c1 == f_sub(f_sub(a.c1, b.c1), f_add(a.c1, f_sub(0, b.c1))));
}

proof fn lemma_zero_sums(a: u64, b: u64)
    ensures
        f_add(0, a) == f_red(a as int),
        f_add(a, 0) == f_red(a as int),
        f_sub(a, a) == 0,
        f_red(f_add(a, b) as int) == f_add(a, b),
        f_red(f_sub(a, b) as int) == f_sub(a, b),
{
}

proof fn lemma_add_sub(a: u64, b: u64)
    ensures
        f_sub(f_sub(f_add(a, b), a), b) == 0,
        f_sub(f_sub(a, b), f_add(a, f_sub(0, b))) == 0,
{
    let (x, y) = (a as int, b as int);
    lemma_red_add(x + y, x);
    lemma_red_add(x + y - x, y);
    lemma_red_add(x, -y);
    lemma_red_add(x - y, f_red(x - y) as int);
    lemma_red_add(x - y, x - y);
    assert(f_add(a, f_sub(0, b)) == f_red(x - y)) by {
        lemma_red_add(x, 0 - y);
    }
}

/// One is neutral.
pub proof fn lemma_x_mul_one(a: Ext)
    ensures
        x_mul(a, x_one()) == x_red(a),
        x_mul(x_one(), a) == x_red(a),
{
    assert(a.c0 * 1 == a.c0 && a.c1 * 0 == 0 && a.c0 * 0 == 0 && a.c1 * 1 == a.c1) by (nonlinear_arith);
    lemma_x_mul_comm(a, x_one());
}

/// The base field multiplies as it does inside the extension.
pub proof fn lemma_x_mul_base(a: u64, b: u64)
    ensures
        x_mul(x_base(a), x_base(b)) == x_base(f_mul(a, b)),
{
    lemma_red_mul(a as int, b as int);
    lemma_red_mul(a as int, f_red(b as int) as int);
    let (x, y) = (f_red(a as int), f_red(b as int));
    assert(x * 0 == 0 && 0 * y == 0 && W_EXT * (0 * 0) == 0) by (nonlinear_arith);
    assert(f_red(f_mul(a, b) as int) == f_mul(a, b));
}

/// Two elements are the same exactly if their difference is zero.
pub proof fn lemma_same_iff_zero_difference(a: Ext, b: Ext)
    ensures
        x_same(x_sub(a, b), x_zero()) <==> x_same(a, b),
{
    lemma_zero_difference(a.c0, b.c0);
    lemma_zero_difference(a.c1, b.c1);
}

/// Inversion in the extension: `Field::try_inverse` of `BinomialExtensionField<Goldilocks, 2>`. There is
/// an inverse exactly when the argument is not zero modulo p, and it is the canonical one.
#[verifier::external_body]
pub(crate) fn ext_try_inverse(a: Ext) -> (r: Option<Ext>)
    ensures
        r is Some <==> x_red(a) != x_zero(),
        r matches Some(v) ==> v == x_inv(a) && x_red(v) == v && x_mul(a, v) == x_one(),
{
    let coords = [Goldilocks::new(a.c0), Goldilocks::new(a.c1)];
    let x = BinomialExtensionField::<Goldilocks, 2>::from_basis_coefficients_slice(&coords).unwrap();
    x.try_inverse().map(|v| {
        let c: &[Goldilocks] = v.as_basis_coefficients_slice();
        Ext { c0: c[0].as_canonical_u64(), c1: c[1].as_canonical_u64() }
    })
}

impl Ext {
    pub fn zero() -> (r: Ext)
        ensures
            r == x_zero(),
    {
        Ext { c0: 0, c1: 0 }
    }

    pub fn one() -> (r: Ext)
        ensures
            r == x_one(),
    {
        Ext { c0: 1, c1: 0 }
    }

    /// The base-field element `a` in the extension.
    pub fn from_base(a: u64) -> (r: Ext)
        ensures
            r == x_base(a),
    {
        Ext { c0: canonical(a), c1: 0 }
    }

    pub fn plus(self, b: Ext) -> (r: Ext)
        ensures
            r == x_add(self, b),
    {
        Ext { c0: fadd(self.c0, b.c0), c1: fadd(self.c1, b.c1) }
    }

    pub fn minus(self, b: Ext) -> (r: Ext)
        ensures
            r == x_sub(self, b),
    {
        Ext { c0: fsub(self.c0, b.c0), c1: fsub(self.c1, b.c1) }
    }

    pub fn times(self, b: Ext) -> (r: Ext)
        ensures
            r == x_mul(self, b),
    {
        let cross: u64 = fmul(self.c1, b.c1);
        let r: Ext = Ext {
            c0: fadd(fmul(self.c0, b.c0), fmul(W_EXT, cross)),
            c1: fadd(fmul(self.c0, b.c1), fmul(self.c1, b.c0)),
        };
        proof {
            let (p0, p1) = (self.c0 * b.c0, self.c1 * b.c1);
            lemma_red_mul(W_EXT as int, p1);
            lemma_red_add(p0, f_red(W_EXT * f_red(p1)) as int);
            lemma_red_add(p0, W_EXT * p1);
            lemma_red_add(self.c0 * b.c1, f_red(self.c1 * b.c0) as int);
            lemma_red_add(self.c0 * b.c1, self.c1 * b.c0);
        }
        r
    }

    /// The inverse, or nothing for zero.
    pub fn inverse(self) -> (r: Option<Ext>)
        ensures
            r is Some <==> !x_same(self, x_zero()),
            r matches Some(v) ==> v == x_inv(self) && x_mul(self, v) == x_one(),
    {
        ext_try_inverse(self)
    }

    /// Equality as field elements, whatever the representatives.
    pub fn same(self, b: Ext) -> (r: bool)
        ensures
            r == x_same(self, b),
    {
        canonical(self.c0) == canonical(b.c0) && canonical(self.c1) == canonical(b.c1)
    }

    /// `self^(2^n)`, by squaring.
    pub fn exp_power_of_2(self, n: usize) -> (r: Ext)
        ensures
            r == x_square_times(self, n as nat),
    {
        let mut acc: Ext = Ext { c0: canonical(self.c0), c1: canonical(self.c1) };
        let mut i: usize = 0;
        while i < n
            invariant
                i <= n,
                acc == x_square_times(self, i as nat),
            decreases n - i,
        {
            acc = acc.times(acc);
            i += 1;
        }
        acc
    }
}

} // verus!
