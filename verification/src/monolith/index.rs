//! What the constraints on the head row of a super-tile say of the query index: its 64 bits are those of its
//! canonical value.

use vstd::arithmetic::power2::pow2;
use vstd::prelude::*;
use super::eval::{mux_selector, mux_sum, mux_wires, opening_ok, CapOpening};
use super::layout::{MonolithAir, QT_DBITS};
use super::trace::{bit_at, law_deep_point_is_query_point, point_acc};
use crate::emit::flat;
use crate::expr::{lemma_value_canonical, value, w_const, w_cur, w_minus, w_per, w_plus, w_times, Window};
use crate::field::{
    f_add, f_mul, f_red, f_square_times, f_sub, lemma_mul_one, lemma_red_add, lemma_red_mul, two_adic_root, GENERATOR,
    MODULUS,
};
use crate::fri::input::query_x;
use crate::prime::law_bit_constraint;
use crate::vanish::{
    lemma_canonical_difference, lemma_const_value, lemma_gated_equation, lemma_gates, lemma_leaf_values,
    lemma_op_values, lemma_vanish_flat, lemma_vanish_parts, pair_at, vanish,
};

verus! {

/// The number that the first `n` digits spell, the lowest first.
pub open spec fn number(bs: Seq<u64>, n: nat) -> nat
    decreases n,
{
    if n == 0 {
        0
    } else {
        number(bs, (n - 1) as nat) + bs[n - 1] as nat * pow2((n - 1) as nat)
    }
}

/// Every digit is a bit.
pub open spec fn are_bits(bs: Seq<u64>) -> bool {
    forall|i: int| 0 <= i < bs.len() ==> #[trigger] bs[i] == 0 || bs[i] == 1
}

/// `n` bits spell a number below 2^n.
proof fn lemma_number_bound(bs: Seq<u64>, n: nat)
    requires
        are_bits(bs),
        n <= bs.len(),
    ensures
        number(bs, n) < pow2(n),
    decreases n,
{
    if n == 0 {
        vstd::arithmetic::power2::lemma2_to64();
    } else {
        lemma_number_bound(bs, (n - 1) as nat);
        vstd::arithmetic::power2::lemma_pow2_unfold(n);
        let b = bs[n - 1];
        let h = pow2((n - 1) as nat);
        assert(b * h <= h) by (nonlinear_arith)
            requires
                b == 0 || b == 1,
        ;
    }
}

/// The greatest number that `n` bits spell has all of them set.
proof fn lemma_full_number(bs: Seq<u64>, n: nat)
    requires
        are_bits(bs),
        n <= bs.len(),
        number(bs, n) == pow2(n) - 1,
    ensures
        forall|i: int| 0 <= i < n ==> #[trigger] bs[i] == 1,
    decreases n,
{
    if n > 0 {
        let m = (n - 1) as nat;
        lemma_number_bound(bs, m);
        vstd::arithmetic::power2::lemma_pow2_unfold(n);
        vstd::arithmetic::power2::lemma_pow2_pos(m);
        let b = bs[n - 1];
        if b == 0 {
            assert(0 * pow2(m) == 0) by (nonlinear_arith);
        } else {
            assert(1 * pow2(m) == pow2(m)) by (nonlinear_arith);
            lemma_full_number(bs, m);
        }
    }
}

/// The number that `m + n` digits spell, from its low and its high part.
proof fn lemma_number_split(bs: Seq<u64>, m: nat, n: nat)
    requires
        m + n <= bs.len(),
    ensures
        number(bs, m + n) == number(bs, m) + pow2(m) * number(bs.skip(m as int), n),
    decreases n,
{
    let high = bs.skip(m as int);
    if n == 0 {
        assert(pow2(m) * 0 == 0) by (nonlinear_arith);
    } else {
        let k = (n - 1) as nat;
        lemma_number_split(bs, m, k);
        vstd::arithmetic::power2::lemma_pow2_adds(m, k);
        assert(high[k as int] == bs[(m + k) as int]);
        let (b, p, q, r) = (high[k as int], pow2(m), pow2(k), number(high, k));
        assert(p * r + b * (p * q) == p * (r + b * q)) by (nonlinear_arith);
        assert((m + n - 1) as nat == m + k);
    }
}

/// Bit `i` of the number that bits spell is digit `i`, and the remainder modulo 2^i is what the digits below spell.
proof fn lemma_digits(bs: Seq<u64>, n: nat, i: nat)
    requires
        are_bits(bs),
        i < n <= bs.len(),
    ensures
        (number(bs, n) / pow2(i)) % 2 == bs[i as int],
        number(bs, n) % pow2(i) == number(bs, i),
{
    lemma_number_split(bs, i, (n - i) as nat);
    lemma_number_bound(bs, i);
    let high = bs.skip(i as int);
    let (p, low, top) = (pow2(i), number(bs, i), number(high, (n - i) as nat));
    vstd::arithmetic::power2::lemma_pow2_pos(i);
    let v = low + p * top;
    assert(v == top * p + low) by (nonlinear_arith)
        requires
            v == low + p * top,
    ;
    vstd::arithmetic::div_mod::lemma_fundamental_div_mod_converse(v as int, p as int, top as int, low as int);
    lemma_number_split(high, 1, (n - i - 1) as nat);
    vstd::arithmetic::power2::lemma2_to64();
    reveal_with_fuel(number, 2);
    assert(number(high, 1) == high[0]) by {
        assert(high[0] * 1 == high[0]) by (nonlinear_arith);
    }
    assert(high[0] == bs[i as int]);
}

/// The 64 bit cells of a row, modulo p.
pub open spec fn index_bits(air: MonolithAir, row: Seq<u64>) -> Seq<u64> {
    Seq::new(64, |i: int| f_red(row[air.s_sb_b(i)] as int))
}

/// The bits from 32 on and before `m` are set.
pub open spec fn ones_from_32(bs: Seq<u64>, m: int) -> bool {
    forall|i: int| 32 <= i < m ==> #[trigger] bs[i] == 1
}

/// A head row that spells its index: the bits are those of the canonical index, the conjunctions are those of the
/// high bits, the point bits are the low bits, and the register holds the index within the domain.
pub open spec fn index_spelled(air: MonolithAir, row: Seq<u64>) -> bool {
    let x = f_red(row[air.s_sb_x()] as int);
    let bs = index_bits(air, row);
    &&& forall|i: int| 0 <= i < 64 ==> #[trigger] bs[i] == (x as nat / pow2(i as nat)) % 2
    &&& forall|k: int|
        0 <= k <= 30 ==> f_red(#[trigger] row[air.s_sb_q(k)] as int) == (if ones_from_32(bs, 34 + k) {
            1u64
        } else {
            0u64
        })
    &&& forall|i: int| 0 <= i < air.s_lg() ==> f_red(#[trigger] row[QT_DBITS + i] as int) == bs[i]
    &&& f_red(row[air.s_idx_rem()] as int) == x as nat % pow2(air.s_lg() as nat)
}

/// The product of two bits is their conjunction.
proof fn lemma_and(a: u64, b: u64)
    requires
        a == 0 || a == 1,
        b == 0 || b == 1,
    ensures
        f_mul(a, b) == (if a == 1 && b == 1 {
            1u64
        } else {
            0u64
        }),
{
    lemma_gates(b);
}

/// The value of a sum of bits is the number that they spell.
proof fn lemma_bits_sum_value(air: MonolithAir, w: Window, n: nat)
    requires
        air.wf(),
        n <= 64,
    ensures
        value(air.s_bits_sum(n as int), w) == f_red(number(index_bits(air, w.cur), n) as int),
    decreases n,
{
    let bs = index_bits(air, w.cur);
    if n == 0 {
        lemma_const_value(0, w);
    } else {
        let m = (n - 1) as nat;
        lemma_bits_sum_value(air, w, m);
        air.lemma_bounds();
        let (low, b) = (air.s_bits_sum(m as int), w_cur(air.s_sb_b(m as int)));
        let c = w_const(1u64 << (m as u64));
        vstd::arithmetic::power2::lemma2_to64();
        vstd::arithmetic::power2::lemma2_to64_rest();
        crate::bits::lemma_pow2_monotone(m, 63);
        vstd::bits::lemma_u64_shl_is_mul(1, m as u64);
        assert((1u64 << (m as u64)) == pow2(m));
        lemma_leaf_values(air.s_sb_b(m as int), w);
        lemma_op_values(b, c, w);
        lemma_op_values(low, w_times(b, c), w);
        let (d, p) = (bs[m as int] as int, pow2(m) as int);
        assert(value(b, w) == d);
        assert(value(c, w) == f_red(p));
        lemma_red_mul(d, p);
        let t = number(bs, m) as int;
        lemma_red_add(t, f_red(d * p) as int);
        lemma_red_add(t, d * p);
        assert(number(bs, n) == t + d * p);
    }
}

/// Bits that are all set spell the greatest number.
proof fn lemma_ones_number(bs: Seq<u64>, n: nat)
    requires
        n <= bs.len(),
        forall|i: int| 0 <= i < n ==> #[trigger] bs[i] == 1,
    ensures
        number(bs, n) == pow2(n) - 1,
    decreases n,
{
    if n == 0 {
        vstd::arithmetic::power2::lemma2_to64();
    } else {
        lemma_ones_number(bs, (n - 1) as nat);
        vstd::arithmetic::power2::lemma_pow2_unfold(n);
        assert(bs[n - 1] == 1);
        assert(1 * pow2((n - 1) as nat) == pow2((n - 1) as nat)) by (nonlinear_arith);
    }
}

/// 64 bits spell a number below p exactly if the low half is zero wherever the high half is full.
proof fn lemma_below_modulus(bs: Seq<u64>)
    requires
        are_bits(bs),
        bs.len() == 64,
    ensures
        number(bs, 64) < MODULUS <==> (ones_from_32(bs, 64) ==> number(bs, 32) == 0),
        number(bs, 32) < MODULUS,
{
    let high = bs.skip(32);
    lemma_number_split(bs, 32, 32);
    lemma_number_bound(bs, 32);
    assert forall|i: int| 0 <= i < high.len() implies #[trigger] high[i] == 0 || high[i] == 1 by {
        assert(high[i] == bs[32 + i]);
    }
    lemma_number_bound(high, 32);
    vstd::arithmetic::power2::lemma2_to64();
    let top = number(high, 32);
    if ones_from_32(bs, 64) {
        assert forall|i: int| 0 <= i < 32 implies #[trigger] high[i] == 1 by {
            assert(high[i] == bs[32 + i]);
        }
        lemma_ones_number(high, 32);
    }
    if top == pow2(32) - 1 {
        lemma_full_number(high, 32);
        assert forall|i: int| 32 <= i < 64 implies #[trigger] bs[i] == 1 by {
            assert(high[i - 32] == bs[i]);
        }
    }
}

/// The number that the bits of `x` spell.
proof fn lemma_number_of(bs: Seq<u64>, x: nat, n: nat)
    requires
        n <= bs.len(),
        forall|i: int| 0 <= i < n ==> #[trigger] bs[i] == (x / pow2(i as nat)) % 2,
    ensures
        number(bs, n) == x % pow2(n),
    decreases n,
{
    vstd::arithmetic::power2::lemma2_to64();
    if n > 0 {
        let m = (n - 1) as nat;
        lemma_number_of(bs, x, m);
        let p = pow2(m);
        vstd::arithmetic::power2::lemma_pow2_unfold(n);
        vstd::arithmetic::power2::lemma_pow2_pos(m);
        assert(bs[m as int] == (x / p) % 2);
        vstd::arithmetic::div_mod::lemma_breakdown(x as int, p as int, 2);
        assert(((x / p) % 2) * p == p * ((x / p) % 2)) by (nonlinear_arith);
        assert(p * 2 == pow2(n));
    }
}

/// The bits and the number that they spell determine each other.
proof fn lemma_bits_are_of(bs: Seq<u64>, x: u64)
    requires
        bs.len() == 64,
    ensures
        (are_bits(bs) && number(bs, 64) == x) <==> forall|i: int|
            0 <= i < 64 ==> #[trigger] bs[i] == (x as nat / pow2(i as nat)) % 2,
{
    vstd::arithmetic::power2::lemma2_to64_rest();
    if are_bits(bs) && number(bs, 64) == x {
        assert forall|i: int| 0 <= i < 64 implies #[trigger] bs[i] == (x as nat / pow2(i as nat)) % 2 by {
            lemma_digits(bs, 64, i as nat);
        }
    }
    if forall|i: int| 0 <= i < 64 ==> #[trigger] bs[i] == (x as nat / pow2(i as nat)) % 2 {
        lemma_number_of(bs, x as nat, 64);
        vstd::arithmetic::div_mod::lemma_small_mod(x as nat, pow2(64));
    }
}

/// The conjunctions follow the recurrence exactly if each is one where the high bits so far are.
proof fn lemma_conjunctions(bs: Seq<u64>, q: spec_fn(int) -> u64)
    requires
        are_bits(bs),
        bs.len() == 64,
    ensures
        (q(0) == f_mul(bs[32], bs[33]) && forall|m: int| 0 <= m < 30 ==> #[trigger] q(m + 1) == f_mul(q(m), bs[34 + m]))
            <==> forall|k: int|
            0 <= k <= 30 ==> #[trigger] q(k) == (if ones_from_32(bs, 34 + k) {
                1u64
            } else {
                0u64
            }),
{
    let flag = |k: int|
        if ones_from_32(bs, 34 + k) {
            1u64
        } else {
            0u64
        };
    lemma_and(bs[32], bs[33]);
    assert(flag(0) == f_mul(bs[32], bs[33])) by {
        if bs[32] == 1 && bs[33] == 1 {
            assert(ones_from_32(bs, 34));
        }
    }
    assert forall|m: int| 0 <= m < 30 implies #[trigger] flag(m + 1) == f_mul(flag(m), bs[34 + m]) by {
        lemma_and(flag(m), bs[34 + m]);
        if flag(m) == 1 && bs[34 + m] == 1 {
            assert(ones_from_32(bs, 34 + (m + 1)));
        } else if ones_from_32(bs, 34 + (m + 1)) {
            assert(bs[34 + m] == 1);
            assert(ones_from_32(bs, 34 + m));
        }
    }
    if q(0) == f_mul(bs[32], bs[33]) && forall|m: int| 0 <= m < 30 ==> #[trigger] q(m + 1) == f_mul(q(m), bs[34 + m]) {
        assert forall|k: int| 0 <= k <= 30 implies #[trigger] q(k) == flag(k) by {
            lemma_same_recurrence(bs, q, flag, k);
        }
    }
    if forall|k: int| 0 <= k <= 30 ==> #[trigger] q(k) == (if ones_from_32(bs, 34 + k) { 1u64 } else { 0u64 }) {
        assert(q(0) == flag(0));
        assert forall|m: int| 0 <= m < 30 implies #[trigger] q(m + 1) == f_mul(q(m), bs[34 + m]) by {
            assert(q(m) == flag(m));
            assert(q(m + 1) == flag(m + 1));
        }
    }
}

proof fn lemma_same_recurrence(bs: Seq<u64>, q: spec_fn(int) -> u64, r: spec_fn(int) -> u64, k: int)
    requires
        0 <= k <= 30,
        q(0) == r(0),
        forall|m: int| 0 <= m < 30 ==> #[trigger] q(m + 1) == f_mul(q(m), bs[34 + m]),
        forall|m: int| 0 <= m < 30 ==> #[trigger] r(m + 1) == f_mul(r(m), bs[34 + m]),
    ensures
        q(k) == r(k),
    decreases k,
{
    if k > 0 {
        lemma_same_recurrence(bs, q, r, k - 1);
        assert(q((k - 1) + 1) == f_mul(q(k - 1), bs[34 + (k - 1)]));
        assert(r((k - 1) + 1) == f_mul(r(k - 1), bs[34 + (k - 1)]));
    }
}

/// The window stands on the head row of a super-tile.
pub open spec fn at_head(air: MonolithAir, w: Window) -> bool {
    w.periodic[air.s_m_tf()] == 1
}

pub(super) proof fn lemma_head_gate(air: MonolithAir, w: Window)
    requires
        air.wf(),
        at_head(air, w),
    ensures
        value(w_per(air.s_m_tf()), w) == 1,
{
    air.lemma_bounds();
    lemma_leaf_values(air.s_m_tf(), w);
}

/// The bit constraints vanish exactly if the cells hold bits.
proof fn lemma_bit_family(air: MonolithAir, w: Window)
    requires
        air.wf(),
        at_head(air, w),
    ensures
        vanish(air.all_index_bits(), w) <==> are_bits(index_bits(air, w.cur)),
{
    let bs = index_bits(air, w.cur);
    lemma_head_gate(air, w);
    air.lemma_bounds();
    lemma_vanish_flat(64, air.f_index_bits(), w);
    let tf = w_per(air.s_m_tf());
    assert forall|i: int| 0 <= i < 64 implies (vanish(#[trigger] air.f_index_bits()(i), w) <==> (bs[i] == 0 || bs[i]
        == 1)) by {
        let b = w_cur(air.s_sb_b(i));
        let one = w_const(1);
        let c = w_times(b, w_minus(one, b));
        lemma_leaf_values(air.s_sb_b(i), w);
        lemma_const_value(1, w);
        lemma_op_values(one, b, w);
        lemma_op_values(b, w_minus(one, b), w);
        lemma_op_values(tf, c, w);
        lemma_value_canonical(c, w);
        lemma_gates(value(c, w));
        law_bit_constraint(bs[i]);
        lemma_mul_one(bs[i]);
        assert(air.f_index_bits()(i) =~= seq![w_times(tf, c)]);
        assert(air.f_index_bits()(i)[0] == w_times(tf, c));
    }
    if vanish(air.all_index_bits(), w) {
        assert forall|i: int| 0 <= i < 64 implies #[trigger] bs[i] == 0 || bs[i] == 1 by {
            assert(vanish(air.f_index_bits()(i), w));
        }
    }
}

/// The conjunction constraints vanish exactly if the cells follow the recurrence.
proof fn lemma_high_family(air: MonolithAir, w: Window)
    requires
        air.wf(),
        at_head(air, w),
    ensures
        vanish(air.all_index_high(), w) <==> forall|m: int|
            0 <= m < 30 ==> f_red(#[trigger] w.cur[air.s_sb_q(m + 1)] as int) == f_mul(
                f_red(w.cur[air.s_sb_q(m)] as int),
                index_bits(air, w.cur)[34 + m],
            ),
{
    let bs = index_bits(air, w.cur);
    lemma_head_gate(air, w);
    air.lemma_bounds();
    lemma_vanish_flat(30, air.f_index_high(), w);
    let tf = w_per(air.s_m_tf());
    assert forall|m: int| 0 <= m < 30 implies (vanish(#[trigger] air.f_index_high()(m), w) <==> f_red(
        w.cur[air.s_sb_q(m + 1)] as int,
    ) == f_mul(f_red(w.cur[air.s_sb_q(m)] as int), bs[34 + m])) by {
        let (next, q, b) = (w_cur(air.s_sb_q(m + 1)), w_cur(air.s_sb_q(m)), w_cur(air.s_sb_b(34 + m)));
        lemma_leaf_values(air.s_sb_q(m + 1), w);
        lemma_leaf_values(air.s_sb_q(m), w);
        lemma_leaf_values(air.s_sb_b(34 + m), w);
        lemma_op_values(q, b, w);
        lemma_gated_equation(tf, next, w_times(q, b), w);
        assert(air.f_index_high()(m) =~= seq![w_times(tf, w_minus(next, w_times(q, b)))]);
    }
    if vanish(air.all_index_high(), w) {
        assert forall|m: int| 0 <= m < 30 implies f_red(#[trigger] w.cur[air.s_sb_q(m + 1)] as int) == f_mul(
            f_red(w.cur[air.s_sb_q(m)] as int),
            bs[34 + m],
        ) by {
            assert(vanish(air.f_index_high()(m), w));
        }
    }
    if forall|m: int|
        0 <= m < 30 ==> f_red(#[trigger] w.cur[air.s_sb_q(m + 1)] as int) == f_mul(
            f_red(w.cur[air.s_sb_q(m)] as int),
            bs[34 + m],
        ) {
        assert forall|m: int| 0 <= m < 30 implies vanish(#[trigger] air.f_index_high()(m), w) by {
            assert(f_red(w.cur[air.s_sb_q(m + 1)] as int) == f_mul(f_red(w.cur[air.s_sb_q(m)] as int), bs[34 + m]));
        }
    }
}

/// The point-bit constraints vanish exactly if the point bits are the low index bits.
proof fn lemma_deep_family(air: MonolithAir, w: Window)
    requires
        air.wf(),
        air.s_lg() <= 32,
        at_head(air, w),
    ensures
        vanish(air.all_deep_bits(), w) <==> forall|i: int|
            0 <= i < air.s_lg() ==> f_red(#[trigger] w.cur[QT_DBITS + i] as int) == index_bits(air, w.cur)[i],
{
    let bs = index_bits(air, w.cur);
    lemma_head_gate(air, w);
    air.lemma_bounds();
    lemma_vanish_flat(air.s_lg(), air.f_deep_bits(), w);
    let tf = w_per(air.s_m_tf());
    assert forall|i: int| 0 <= i < air.s_lg() implies (vanish(#[trigger] air.f_deep_bits()(i), w) <==> f_red(
        w.cur[QT_DBITS + i] as int,
    ) == bs[i]) by {
        let (d, b) = (w_cur(QT_DBITS + i), w_cur(air.s_sb_b(i)));
        lemma_leaf_values(QT_DBITS + i, w);
        lemma_leaf_values(air.s_sb_b(i), w);
        lemma_gated_equation(tf, d, b, w);
        assert(air.f_deep_bits()(i) =~= seq![w_times(tf, w_minus(d, b))]);
    }
    if vanish(air.all_deep_bits(), w) {
        assert forall|i: int| 0 <= i < air.s_lg() implies f_red(#[trigger] w.cur[QT_DBITS + i] as int) == bs[i] by {
            assert(vanish(air.f_deep_bits()(i), w));
        }
    }
    if forall|i: int| 0 <= i < air.s_lg() ==> f_red(#[trigger] w.cur[QT_DBITS + i] as int) == bs[i] {
        assert forall|i: int| 0 <= i < air.s_lg() implies vanish(#[trigger] air.f_deep_bits()(i), w) by {
            assert(f_red(w.cur[QT_DBITS + i] as int) == bs[i]);
        }
    }
}

/// What the parts of the index constraints ask for, over the values of the cells.
spec fn index_parts(air: MonolithAir, row: Seq<u64>) -> bool {
    let x = f_red(row[air.s_sb_x()] as int);
    let bs = index_bits(air, row);
    let q = |k: int| f_red(row[air.s_sb_q(k)] as int);
    &&& are_bits(bs)
    &&& x == f_red(number(bs, 64) as int)
    &&& q(0) == f_mul(bs[32], bs[33])
    &&& forall|m: int|
        0 <= m < 30 ==> f_red(#[trigger] row[air.s_sb_q(m + 1)] as int) == f_mul(
            f_red(row[air.s_sb_q(m)] as int),
            bs[34 + m],
        )
    &&& f_mul(q(30), f_red(number(bs, 32) as int)) == 0
    &&& forall|i: int| 0 <= i < air.s_lg() ==> f_red(#[trigger] row[QT_DBITS + i] as int) == bs[i]
    &&& f_red(row[air.s_idx_rem()] as int) == f_red(number(bs, air.s_lg() as nat) as int)
}

/// The parts hold exactly of the rows that spell their index.
proof fn lemma_parts_spell(air: MonolithAir, row: Seq<u64>)
    requires
        0 <= air.s_lg() <= 32,
    ensures
        index_parts(air, row) <==> index_spelled(air, row),
{
    let x = f_red(row[air.s_sb_x()] as int);
    let bs = index_bits(air, row);
    let q = |k: int| f_red(row[air.s_sb_q(k)] as int);
    let lg = air.s_lg() as nat;
    lemma_bits_are_of(bs, x);
    if are_bits(bs) {
        lemma_conjunctions(bs, q);
        lemma_below_modulus(bs);
        let low = number(bs, 32);
        let flag: u64 = if ones_from_32(bs, 64) {
            1
        } else {
            0
        };
        lemma_gates(low as u64);
        lemma_number_bound(bs, lg);
        lemma_digits(bs, 64, lg);
        vstd::arithmetic::power2::lemma2_to64();
        crate::bits::lemma_pow2_monotone(lg, 32);
        assert(f_red(low as int) == low);
        assert(f_red(number(bs, lg) as int) == number(bs, lg));
        assert(f_mul(flag, low as u64) == 0 <==> number(bs, 64) < MODULUS);
        if index_parts(air, row) {
            assert forall|m: int| 0 <= m < 30 implies #[trigger] q(m + 1) == f_mul(q(m), bs[34 + m]) by {
                assert(f_red(row[air.s_sb_q(m + 1)] as int) == f_mul(f_red(row[air.s_sb_q(m)] as int), bs[34 + m]));
            }
            assert(q(30) == flag);
            assert(number(bs, 64) == x);
            assert forall|k: int| 0 <= k <= 30 implies f_red(#[trigger] row[air.s_sb_q(k)] as int) == (if ones_from_32(
                bs,
                34 + k,
            ) {
                1u64
            } else {
                0u64
            }) by {
                assert(q(k) == f_red(row[air.s_sb_q(k)] as int));
            }
        }
        if index_spelled(air, row) {
            assert forall|k: int| 0 <= k <= 30 implies #[trigger] q(k) == (if ones_from_32(bs, 34 + k) {
                1u64
            } else {
                0u64
            }) by {
                assert(q(k) == f_red(row[air.s_sb_q(k)] as int));
            }
            assert(q(30) == flag);
            assert forall|m: int| 0 <= m < 30 implies f_red(#[trigger] row[air.s_sb_q(m + 1)] as int) == f_mul(
                f_red(row[air.s_sb_q(m)] as int),
                bs[34 + m],
            ) by {
                assert(q(m + 1) == f_mul(q(m), bs[34 + m]));
            }
            assert(number(bs, 64) == x);
        }
    }
}

/// The index constraints vanish exactly if the row holds the public index and the parts hold.
#[verifier::spinoff_prover]
proof fn lemma_index_vanishes(air: MonolithAir, w: Window)
    requires
        air.wf(),
        air.s_lg() <= 32,
        at_head(air, w),
    ensures
        vanish(air.s_index(), w) <==> {
            &&& f_red(w.cur[air.s_sb_x()] as int) == value(air.s_query_sum(air.n_queries as int), w)
            &&& index_parts(air, w.cur)
        },
{
    let bs = index_bits(air, w.cur);
    let tf = w_per(air.s_m_tf());
    let x = w_cur(air.s_sb_x());
    let qs = air.s_query_sum(air.n_queries as int);
    lemma_head_gate(air, w);
    air.lemma_bounds();
    // The parts of the list.
    let a = seq![w_minus(w_times(tf, x), qs)];
    let (q0, b32, b33) = (w_cur(air.s_sb_q(0)), w_cur(air.s_sb_b(32)), w_cur(air.s_sb_b(33)));
    let (eq_x, eq_q) = (
        w_times(tf, w_minus(x, air.s_bits_sum(64))),
        w_times(tf, w_minus(q0, w_times(b32, b33))),
    );
    let b = seq![eq_x, eq_q];
    let low = w_times(w_cur(air.s_sb_q(30)), air.s_bits_sum(32));
    let c = seq![w_times(tf, low)];
    let d = seq![w_times(tf, w_minus(w_cur(air.s_idx_rem()), air.s_bits_sum(air.s_lg())))];
    let (l1, l2, l3) = (a + air.all_index_bits(), a + air.all_index_bits() + b, a + air.all_index_bits() + b
        + air.all_index_high());
    let (l4, l5) = (l3 + c, l3 + c + air.all_deep_bits());
    assert(air.s_index() == l5 + d);
    lemma_vanish_parts(a, air.all_index_bits(), w);
    lemma_vanish_parts(l1, b, w);
    lemma_vanish_parts(l2, air.all_index_high(), w);
    lemma_vanish_parts(l3, c, w);
    lemma_vanish_parts(l4, air.all_deep_bits(), w);
    lemma_vanish_parts(l5, d, w);
    // What each asks for.
    lemma_bit_family(air, w);
    lemma_high_family(air, w);
    lemma_deep_family(air, w);
    assert(vanish(a, w) <==> f_red(w.cur[air.s_sb_x()] as int) == value(qs, w)) by {
        lemma_leaf_values(air.s_sb_x(), w);
        lemma_op_values(tf, x, w);
        lemma_value_canonical(x, w);
        lemma_value_canonical(qs, w);
        lemma_gates(value(x, w));
        lemma_op_values(w_times(tf, x), qs, w);
        lemma_canonical_difference(value(x, w), value(qs, w));
        assert(a[0] == w_minus(w_times(tf, x), qs));
    }
    assert(vanish(b, w) <==> f_red(w.cur[air.s_sb_x()] as int) == f_red(number(bs, 64) as int) && f_red(
        w.cur[air.s_sb_q(0)] as int,
    ) == f_mul(bs[32], bs[33])) by {
        lemma_leaf_values(air.s_sb_x(), w);
        lemma_bits_sum_value(air, w, 64);
        lemma_gated_equation(tf, x, air.s_bits_sum(64), w);
        lemma_leaf_values(air.s_sb_q(0), w);
        lemma_leaf_values(air.s_sb_b(32), w);
        lemma_leaf_values(air.s_sb_b(33), w);
        lemma_op_values(b32, b33, w);
        lemma_gated_equation(tf, q0, w_times(b32, b33), w);
        assert(b[0] == eq_x && b[1] == eq_q);
    }
    assert(vanish(c, w) <==> f_mul(f_red(w.cur[air.s_sb_q(30)] as int), f_red(number(bs, 32) as int)) == 0) by {
        lemma_leaf_values(air.s_sb_q(30), w);
        lemma_bits_sum_value(air, w, 32);
        lemma_op_values(w_cur(air.s_sb_q(30)), air.s_bits_sum(32), w);
        lemma_op_values(tf, low, w);
        lemma_value_canonical(low, w);
        lemma_gates(value(low, w));
        assert(c[0] == w_times(tf, low));
    }
    assert(vanish(d, w) <==> f_red(w.cur[air.s_idx_rem()] as int) == f_red(number(bs, air.s_lg() as nat) as int)) by {
        lemma_leaf_values(air.s_idx_rem(), w);
        lemma_bits_sum_value(air, w, air.s_lg() as nat);
        lemma_gated_equation(tf, w_cur(air.s_idx_rem()), air.s_bits_sum(air.s_lg()), w);
    }
}

/// On a head row the index constraints vanish exactly if the row holds the public index of its query and spells it:
/// the bits are those of the index below p, the point bits its low bits, and the register the index within the domain.
pub proof fn law_head_row_spells_index(air: MonolithAir, w: Window)
    requires
        air.wf(),
        air.s_lg() <= 32,
        at_head(air, w),
    ensures
        vanish(air.s_index(), w) <==> {
            &&& f_red(w.cur[air.s_sb_x()] as int) == value(air.s_query_sum(air.n_queries as int), w)
            &&& index_spelled(air, w.cur)
        },
{
    lemma_index_vanishes(air, w);
    lemma_parts_spell(air, w.cur);
}

/// The accumulator cells of a row hold the products of the factors of the set bits of `x`.
pub open spec fn point_accumulated(air: MonolithAir, row: Seq<u64>, x: nat) -> bool {
    forall|i: int|
        0 <= i < air.s_lg() ==> f_red(#[trigger] row[air.s_qt_acc() + i] as int) == point_acc(
            x,
            air.s_lg() as nat,
            (i + 1) as nat,
        )
}

/// A bit chooses between one and a factor.
proof fn lemma_chosen_factor(b: u64, f: u64)
    requires
        b == 0 || b == 1,
        f < MODULUS,
    ensures
        f_add(1, f_mul(b, f_sub(f, 1))) == (if b == 1 {
            f
        } else {
            1u64
        }),
{
    lemma_gates(f_sub(f, 1));
    lemma_red_add(1, f - 1);
}

/// The constraint of accumulator `i` asks for the accumulator before times the chosen factor.
proof fn lemma_chain_step(air: MonolithAir, w: Window, i: int)
    requires
        air.wf(),
        air.s_lg() <= 32,
        at_head(air, w),
        index_spelled(air, w.cur),
        0 <= i < air.s_lg(),
    ensures
        ({
            let x = f_red(w.cur[air.s_sb_x()] as int) as nat;
            let prev = if i == 0 {
                1u64
            } else {
                f_red(w.cur[air.s_qt_acc() + i - 1] as int)
            };
            let factor = if bit_at(x, i as nat) == 1 {
                air.s_point_factor(i)
            } else {
                1u64
            };
            vanish(air.s_point_chain(i), w) <==> f_red(w.cur[air.s_qt_acc() + i] as int) == f_mul(prev, factor)
        }),
{
    let bs = index_bits(air, w.cur);
    let x = f_red(w.cur[air.s_sb_x()] as int) as nat;
    air.lemma_bounds();
    lemma_head_gate(air, w);
    let tf = w_per(air.s_m_tf());
    let one = w_const(1);
    let (acc, d) = (w_cur(air.s_qt_acc() + i), w_cur(QT_DBITS + i));
    let prev = if i == 0 {
        one
    } else {
        w_cur(air.s_qt_acc() + i - 1)
    };
    let g = w_const(air.s_point_factor(i));
    let factor = w_plus(one, w_times(d, w_minus(g, one)));
    assert(w.cur[QT_DBITS + i] == w.cur[QT_DBITS + i]);
    assert(f_red(w.cur[QT_DBITS + i] as int) == bs[i]);
    assert(bs[i] == (x / pow2(i as nat)) % 2);
    lemma_const_value(1, w);
    lemma_leaf_values(air.s_qt_acc() + i, w);
    lemma_leaf_values(QT_DBITS + i, w);
    if i > 0 {
        lemma_leaf_values(air.s_qt_acc() + i - 1, w);
    }
    lemma_factor_canonical(air, i);
    lemma_const_value(air.s_point_factor(i), w);
    lemma_op_values(g, one, w);
    lemma_op_values(d, w_minus(g, one), w);
    lemma_op_values(one, w_times(d, w_minus(g, one)), w);
    lemma_chosen_factor(bs[i], air.s_point_factor(i));
    lemma_op_values(prev, factor, w);
    lemma_gated_equation(tf, acc, w_times(prev, factor), w);
    assert(air.s_point_chain(i) =~= seq![w_times(tf, w_minus(acc, w_times(prev, factor)))]);
}

proof fn lemma_factor_canonical(air: MonolithAir, i: int)
    ensures
        air.s_point_factor(i) < MODULUS,
{
    let n = (air.s_lg() - 1 - i) as nat;
    assert(f_square_times(two_adic_root(air.s_lg() as nat), n) < MODULUS) by {
        reveal_with_fuel(f_square_times, 2);
    }
}

/// One more bit of the accumulated product.
proof fn lemma_acc_step(air: MonolithAir, x: nat, i: int)
    requires
        0 <= i < air.s_lg(),
    ensures
        point_acc(x, air.s_lg() as nat, (i + 1) as nat) == f_mul(
            point_acc(x, air.s_lg() as nat, i as nat),
            if bit_at(x, i as nat) == 1 {
                air.s_point_factor(i)
            } else {
                1u64
            },
        ),
        point_acc(x, air.s_lg() as nat, 0) == 1,
{
    let n = (i + 1) as nat;
    assert((n - 1) as nat == i as nat);
    assert((air.s_lg() as nat - n) as nat == (air.s_lg() - 1 - i) as nat);
}

/// The accumulators follow the recurrence exactly if they hold the products.
proof fn lemma_chain_accumulates(air: MonolithAir, w: Window)
    requires
        air.wf(),
        air.s_lg() <= 32,
        at_head(air, w),
        index_spelled(air, w.cur),
    ensures
        vanish(flat(air.s_lg(), air.f_point_chain()), w) <==> point_accumulated(
            air,
            w.cur,
            f_red(w.cur[air.s_sb_x()] as int) as nat,
        ),
{
    let x = f_red(w.cur[air.s_sb_x()] as int) as nat;
    let lg = air.s_lg() as nat;
    lemma_vanish_flat(air.s_lg(), air.f_point_chain(), w);
    if vanish(flat(air.s_lg(), air.f_point_chain()), w) {
        assert forall|i: int| 0 <= i < air.s_lg() implies f_red(#[trigger] w.cur[air.s_qt_acc() + i] as int)
            == point_acc(x, lg, (i + 1) as nat) by {
            lemma_accumulated_to(air, w, i);
        }
    }
    if point_accumulated(air, w.cur, x) {
        assert forall|i: int| 0 <= i < air.s_lg() implies vanish(#[trigger] air.f_point_chain()(i), w) by {
            lemma_chain_step(air, w, i);
            lemma_acc_step(air, x, i);
            assert(f_red(w.cur[air.s_qt_acc() + i] as int) == point_acc(x, lg, (i + 1) as nat));
            if i > 0 {
                assert(f_red(w.cur[air.s_qt_acc() + (i - 1)] as int) == point_acc(x, lg, i as nat));
            }
        }
    }
}

proof fn lemma_accumulated_to(air: MonolithAir, w: Window, i: int)
    requires
        air.wf(),
        air.s_lg() <= 32,
        at_head(air, w),
        index_spelled(air, w.cur),
        forall|j: int| 0 <= j < air.s_lg() ==> vanish(#[trigger] air.f_point_chain()(j), w),
        0 <= i < air.s_lg(),
    ensures
        f_red(w.cur[air.s_qt_acc() + i] as int) == point_acc(
            f_red(w.cur[air.s_sb_x()] as int) as nat,
            air.s_lg() as nat,
            (i + 1) as nat,
        ),
    decreases i,
{
    if i > 0 {
        lemma_accumulated_to(air, w, i - 1);
    }
    assert(vanish(air.f_point_chain()(i), w));
    lemma_chain_step(air, w, i);
    lemma_acc_step(air, f_red(w.cur[air.s_sb_x()] as int) as nat, i);
}

/// On a head row that spells its index the point constraints vanish exactly if the accumulators hold the products of
/// the factors and the batching challenge is that of its carrier; the point is then the query point of the index.
pub proof fn law_head_row_point(air: MonolithAir, w: Window)
    requires
        air.wf(),
        air.s_lg() <= 32,
        at_head(air, w),
        index_spelled(air, w.cur),
    ensures
        ({
            let x = f_red(w.cur[air.s_sb_x()] as int) as nat;
            &&& vanish(air.s_arith_point(), w) <==> {
                &&& point_accumulated(air, w.cur, x)
                &&& pair_at(w.cur, air.s_qt_alpha()) == pair_at(w.cur, air.s_carry())
            }
            &&& vanish(air.s_arith_point(), w) && air.s_lg() > 0 ==> value(air.s_point(), w) == query_x(
                x,
                air.s_lg() as nat,
                air.s_lg() as nat,
            )
        }),
{
    let x = f_red(w.cur[air.s_sb_x()] as int) as nat;
    let lg = air.s_lg();
    let tf = w_per(air.s_m_tf());
    air.lemma_bounds();
    lemma_head_gate(air, w);
    let (qa, ca) = (air.s_qt_alpha(), air.s_carry());
    let (e0, e1) = (
        w_times(tf, w_minus(w_cur(qa), w_cur(ca))),
        w_times(tf, w_minus(w_cur(qa + 1), w_cur(ca + 1))),
    );
    let tail = seq![e0, e1];
    let (bits, chain) = (flat(lg, air.f_point_bit()), flat(lg, air.f_point_chain()));
    assert(air.s_arith_point() == bits + chain + tail);
    lemma_vanish_parts(bits, chain, w);
    lemma_vanish_parts(bits + chain, tail, w);
    lemma_point_bits(air, w);
    lemma_chain_accumulates(air, w);
    assert(vanish(tail, w) <==> pair_at(w.cur, qa) == pair_at(w.cur, ca)) by {
        lemma_leaf_values(qa, w);
        lemma_leaf_values(qa + 1, w);
        lemma_leaf_values(ca, w);
        lemma_leaf_values(ca + 1, w);
        lemma_gated_equation(tf, w_cur(qa), w_cur(ca), w);
        lemma_gated_equation(tf, w_cur(qa + 1), w_cur(ca + 1), w);
        assert(tail[0] == e0 && tail[1] == e1);
    }
    if vanish(air.s_arith_point(), w) && lg > 0 {
        let acc = w_cur(air.s_qt_acc() + lg - 1);
        lemma_leaf_values(air.s_qt_acc() + lg - 1, w);
        lemma_const_value(GENERATOR, w);
        lemma_op_values(w_const(GENERATOR), acc, w);
        assert(f_red(w.cur[air.s_qt_acc() + (lg - 1)] as int) == point_acc(x, lg as nat, lg as nat));
        law_deep_point_is_query_point(x, lg as nat);
    }
}

/// The point bits of a row that spells its index are bits.
proof fn lemma_point_bits(air: MonolithAir, w: Window)
    requires
        air.wf(),
        air.s_lg() <= 32,
        at_head(air, w),
        index_spelled(air, w.cur),
    ensures
        vanish(flat(air.s_lg(), air.f_point_bit()), w),
{
    let bs = index_bits(air, w.cur);
    let x = f_red(w.cur[air.s_sb_x()] as int) as nat;
    air.lemma_bounds();
    lemma_head_gate(air, w);
    let tf = w_per(air.s_m_tf());
    lemma_vanish_flat(air.s_lg(), air.f_point_bit(), w);
    assert forall|i: int| 0 <= i < air.s_lg() implies vanish(#[trigger] air.f_point_bit()(i), w) by {
        let (b, one) = (w_cur(QT_DBITS + i), w_const(1));
        let c = w_times(b, w_minus(one, b));
        assert(f_red(w.cur[QT_DBITS + i] as int) == bs[i]);
        assert(bs[i] == (x / pow2(i as nat)) % 2);
        lemma_leaf_values(QT_DBITS + i, w);
        lemma_const_value(1, w);
        lemma_op_values(one, b, w);
        lemma_op_values(b, w_minus(one, b), w);
        lemma_op_values(tf, c, w);
        lemma_value_canonical(c, w);
        lemma_gates(value(c, w));
        law_bit_constraint(bs[i]);
        lemma_mul_one(bs[i]);
        assert(air.f_point_bit()(i)[0] == w_times(tf, c));
    }
}

/// Two numbers agree modulo 2^(j + 1) exactly if they agree modulo 2^j and in bit j.
proof fn lemma_agree_one_more(a: nat, b: nat, j: nat)
    ensures
        a % pow2(j + 1) == b % pow2(j + 1) <==> a % pow2(j) == b % pow2(j) && bit_at(a, j) == bit_at(b, j),
{
    let p = pow2(j);
    vstd::arithmetic::power2::lemma_pow2_pos(j);
    vstd::arithmetic::power2::lemma_pow2_unfold(j + 1);
    assert(pow2(j + 1) == p * 2);
    vstd::arithmetic::div_mod::lemma_breakdown(a as int, p as int, 2);
    vstd::arithmetic::div_mod::lemma_breakdown(b as int, p as int, 2);
    vstd::arithmetic::div_mod::lemma_mod_bound(a as int, p as int);
    vstd::arithmetic::div_mod::lemma_mod_bound(b as int, p as int);
    let (u, v) = ((a / p) % 2, (b / p) % 2);
    assert(u == 0 || u == 1);
    assert(v == 0 || v == 1);
    assert(p * 0 == 0 && p * 1 == p) by (nonlinear_arith);
}

/// Bit `j` of x / 2^s is bit s + j of x.
proof fn lemma_shifted_bit(x: nat, s: nat, j: nat)
    ensures
        bit_at(x / pow2(s), j) == bit_at(x, s + j),
{
    vstd::arithmetic::power2::lemma_pow2_pos(s);
    vstd::arithmetic::power2::lemma_pow2_pos(j);
    vstd::arithmetic::power2::lemma_pow2_adds(s, j);
    vstd::arithmetic::div_mod::lemma_div_denominator(x as int, pow2(s) as int, pow2(j) as int);
}

/// The indicator of entry `e` is one exactly if the shifted index agrees with it in the low `j` bits.
proof fn lemma_selector_value(air: MonolithAir, w: Window, shift: nat, e: nat, j: nat)
    requires
        air.wf(),
        index_spelled(air, w.cur),
        shift + j <= 64,
    ensures
        ({
            let y = f_red(w.cur[air.s_sb_x()] as int) as nat / pow2(shift);
            value(mux_selector(air, shift as int, e, j), w) == (if e % pow2(j) == y % pow2(j) {
                1u64
            } else {
                0u64
            })
        }),
    decreases j,
{
    let x = f_red(w.cur[air.s_sb_x()] as int) as nat;
    let y = x / pow2(shift);
    let bs = index_bits(air, w.cur);
    lemma_const_value(1, w);
    if j == 0 {
        vstd::arithmetic::power2::lemma2_to64();
        assert(e % 1 == 0 && y % 1 == 0);
    } else {
        let m = (j - 1) as nat;
        lemma_selector_value(air, w, shift, e, m);
        lemma_agree_one_more(e, y, m);
        lemma_shifted_bit(x, shift, m);
        air.lemma_bounds();
        let i = shift + m;
        assert(bs[i as int] == (x / pow2(i as nat)) % 2);
        let (b, one) = (w_cur(air.s_sb_b(i as int)), w_const(1));
        let prev = mux_selector(air, shift as int, e, m);
        let pick = if bit_at(e, m) == 1 {
            b
        } else {
            w_minus(one, b)
        };
        lemma_leaf_values(air.s_sb_b(i as int), w);
        lemma_op_values(one, b, w);
        lemma_op_values(prev, pick, w);
        let d = bs[i as int];
        assert(f_sub(1, d) == 1 - d);
        assert(bit_at(y, m) == d);
        assert(shift as int + j - 1 == i);
        lemma_and(value(prev, w), value(pick, w));
    }
}

/// The sum over the first `n` entries holds the selected one, once it is among them.
proof fn lemma_mux_sum_value(air: MonolithAir, w: Window, o: CapOpening, k: int, n: nat)
    requires
        air.wf(),
        index_spelled(air, w.cur),
        opening_ok(air, o),
        n <= pow2(o.bits as nat),
    ensures
        ({
            let t = selected_entry(air, w.cur, o);
            value(mux_sum(air, o, k, n), w) == (if t < n {
                value(air.s_pi(o.cbase + t * 4 + k), w)
            } else {
                0u64
            })
        }),
    decreases n,
{
    lemma_const_value(0, w);
    if n > 0 {
        let e = (n - 1) as nat;
        let t = selected_entry(air, w.cur, o);
        lemma_mux_sum_value(air, w, o, k, e);
        lemma_selector_value(air, w, o.shift as nat, e, o.bits as nat);
        vstd::arithmetic::div_mod::lemma_small_mod(e, pow2(o.bits as nat));
        let (sum, sel, pi) = (
            mux_sum(air, o, k, e),
            mux_selector(air, o.shift as int, e, o.bits as nat),
            air.s_pi(o.cbase + (n - 1) * 4 + k),
        );
        lemma_op_values(sel, pi, w);
        lemma_op_values(sum, w_times(sel, pi), w);
        lemma_value_canonical(pi, w);
        lemma_value_canonical(sum, w);
        lemma_gates(value(pi, w));
        lemma_gates(value(sum, w));
        lemma_gates(0);
    }
}

/// The entry of a cap that the index of a row selects.
pub open spec fn selected_entry(air: MonolithAir, row: Seq<u64>, o: CapOpening) -> nat {
    (f_red(row[air.s_sb_x()] as int) as nat / pow2(o.shift as nat)) % pow2(o.bits as nat)
}

/// On a head row that spells its index the constraints of a selected cap entry vanish exactly if the carriers hold
/// the entry of the cap that the index names.
pub proof fn law_cap_entry_is_selected(air: MonolithAir, w: Window, o: CapOpening)
    requires
        air.wf(),
        air.s_full_cap(),
        at_head(air, w),
        index_spelled(air, w.cur),
        opening_ok(air, o),
    ensures
        vanish(mux_wires(air, o), w) <==> forall|k: int|
            0 <= k < 4 ==> f_red(#[trigger] w.cur[air.s_cap_c(o.cg_off + k)] as int) == value(
                air.s_pi(o.cbase + selected_entry(air, w.cur, o) * 4 + k),
                w,
            ),
{
    let t = selected_entry(air, w.cur, o);
    let tf = w_per(air.s_m_tf());
    let cs = mux_wires(air, o);
    air.lemma_bounds();
    lemma_head_gate(air, w);
    vstd::arithmetic::power2::lemma_pow2_pos(o.bits as nat);
    vstd::arithmetic::div_mod::lemma_mod_bound(
        (f_red(w.cur[air.s_sb_x()] as int) as nat / pow2(o.shift as nat)) as int,
        pow2(o.bits as nat) as int,
    );
    assert forall|k: int| 0 <= k < 4 implies (value(#[trigger] cs[k], w) == 0 <==> f_red(
        w.cur[air.s_cap_c(o.cg_off + k)] as int,
    ) == value(air.s_pi(o.cbase + t * 4 + k), w)) by {
        let sum = mux_sum(air, o, k, pow2(o.bits as nat));
        lemma_mux_sum_value(air, w, o, k, pow2(o.bits as nat));
        lemma_leaf_values(air.s_cap_c(o.cg_off + k), w);
        lemma_gated_equation(tf, w_cur(air.s_cap_c(o.cg_off + k)), sum, w);
    }
    if vanish(cs, w) {
        assert forall|k: int| 0 <= k < 4 implies f_red(#[trigger] w.cur[air.s_cap_c(o.cg_off + k)] as int) == value(
            air.s_pi(o.cbase + t * 4 + k),
            w,
        ) by {
            assert(value(cs[k], w) == 0);
        }
    }
    if forall|k: int|
        0 <= k < 4 ==> f_red(#[trigger] w.cur[air.s_cap_c(o.cg_off + k)] as int) == value(
            air.s_pi(o.cbase + t * 4 + k),
            w,
        ) {
        assert forall|k: int| 0 <= k < cs.len() implies value(#[trigger] cs[k], w) == 0 by {
            assert(f_red(w.cur[air.s_cap_c(o.cg_off + k)] as int) == value(air.s_pi(o.cbase + t * 4 + k), w));
        }
    }
}

} // verus!
