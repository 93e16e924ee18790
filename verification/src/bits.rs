//! Powers of two, ceiling division and bit reversal of indices.

use vstd::arithmetic::power2::{lemma_pow2_pos, lemma_pow2_unfold, pow2};
use vstd::prelude::*;

verus! {

/// The least e with n <= 2^e.
pub open spec fn ceil_log2(n: nat) -> nat
    decreases n,
{
    if n <= 1 {
        0
    } else {
        1 + ceil_log2(((n + 1) / 2) as nat)
    }
}

/// The least power of two that is at least n.
pub open spec fn next_pow2(n: nat) -> nat {
    pow2(ceil_log2(n))
}

/// n / d rounded up.
pub open spec fn div_up(n: int, d: int) -> int {
    (n + d - 1) / d
}

/// The low `bits` bits of x, in reverse order.
pub open spec fn rev_bits(x: nat, bits: nat) -> nat
    decreases bits,
{
    if bits == 0 {
        0
    } else {
        2 * rev_bits(x, (bits - 1) as nat) + (x / pow2((bits - 1) as nat)) % 2
    }
}

/// The next power of two is large enough, and half of it is not.
pub proof fn lemma_next_pow2(n: nat)
    ensures
        n <= next_pow2(n),
        1 <= next_pow2(n),
        n > 1 ==> ceil_log2(n) >= 1 && pow2((ceil_log2(n) - 1) as nat) < n,
        n >= 1 ==> next_pow2(n) < 2 * n,
    decreases n,
{
    lemma_pow2_pos(ceil_log2(n));
    if n <= 1 {
        vstd::arithmetic::power2::lemma2_to64();
    } else {
        let m = ((n + 1) / 2) as nat;
        lemma_next_pow2(m);
        lemma_pow2_unfold(ceil_log2(n));
        if m > 1 {
            lemma_pow2_unfold(ceil_log2(m));
            let half = pow2((ceil_log2(m) - 1) as nat);
            assert(pow2(ceil_log2(m)) == 2 * half);
        } else {
            vstd::arithmetic::power2::lemma2_to64();
        }
    }
}

/// 2^a <= 2^b when a <= b.
pub proof fn lemma_pow2_monotone(a: nat, b: nat)
    requires
        a <= b,
    ensures
        pow2(a) <= pow2(b),
    decreases b - a,
{
    if a < b {
        lemma_pow2_monotone(a, (b - 1) as nat);
        lemma_pow2_unfold(b);
    }
}

/// The next power of two of at least 32 is a multiple of 32.
pub proof fn lemma_next_pow2_of_block(n: nat)
    requires
        n >= 32,
    ensures
        next_pow2(n) % 32 == 0,
        next_pow2(n) / 32 * 32 == next_pow2(n),
{
    lemma_next_pow2(n);
    vstd::arithmetic::power2::lemma2_to64();
    let c = ceil_log2(n);
    if c < 5 {
        lemma_pow2_monotone(c, 4);
    }
    vstd::arithmetic::power2::lemma_pow2_adds(5, (c - 5) as nat);
    assert(next_pow2(n) == 32 * pow2((c - 5) as nat));
}

/// The least power of two that is at least n.
pub fn next_power_of_two(n: usize) -> (r: usize)
    requires
        next_pow2(n as nat) <= usize::MAX,
    ensures
        r == next_pow2(n as nat),
{
    let mut p: usize = 1;
    let ghost mut k: nat = 0;
    proof {
        vstd::arithmetic::power2::lemma2_to64();
        lemma_next_pow2(n as nat);
    }
    while p < n
        invariant
            p == pow2(k),
            k <= ceil_log2(n as nat),
            next_pow2(n as nat) <= usize::MAX,
        decreases ceil_log2(n as nat) - k,
    {
        proof {
            lemma_next_pow2(n as nat);
            if k >= ceil_log2(n as nat) {
                lemma_pow2_monotone(ceil_log2(n as nat), k);
            }
            lemma_pow2_unfold((k + 1) as nat);
            lemma_pow2_monotone((k + 1) as nat, ceil_log2(n as nat));
            lemma_pow2_pos(k);
        }
        p = p * 2;
        proof {
            k = k + 1;
        }
    }
    proof {
        lemma_next_pow2(n as nat);
        if k < ceil_log2(n as nat) {
            lemma_pow2_monotone(k, (ceil_log2(n as nat) - 1) as nat);
        }
    }
    p
}

/// n / d rounded up.
pub fn div_ceil(n: usize, d: usize) -> (r: usize)
    requires
        d > 0,
    ensures
        r == div_up(n as int, d as int),
{
    let q: usize = n / d;
    let m: usize = n % d;
    proof {
        vstd::arithmetic::div_mod::lemma_fundamental_div_mod(n as int, d as int);
        assert(d * q == q * d) by (nonlinear_arith);
        if m == 0 {
            vstd::arithmetic::div_mod::lemma_fundamental_div_mod_converse(
                n + d - 1,
                d as int,
                q as int,
                d - 1,
            );
        } else {
            assert((q + 1) * d == q * d + d) by (nonlinear_arith);
            vstd::arithmetic::div_mod::lemma_fundamental_div_mod_converse(
                n + d - 1,
                d as int,
                q + 1,
                m - 1,
            );
            assert(q < n) by (nonlinear_arith)
                requires
                    n == q * d + m,
                    m > 0,
                    d > 0,
                    q >= 0,
            ;
        }
    }
    if m == 0 {
        q
    } else {
        q + 1
    }
}

/// 2^e as a machine integer.
pub fn shifted_one(e: usize) -> (r: usize)
    requires
        pow2(e as nat) <= usize::MAX,
    ensures
        r == pow2(e as nat),
{
    let mut p: usize = 1;
    let mut i: usize = 0;
    proof {
        vstd::arithmetic::power2::lemma2_to64();
    }
    while i < e
        invariant
            i <= e,
            p == pow2(i as nat),
            pow2(e as nat) <= usize::MAX,
        decreases e - i,
    {
        proof {
            lemma_pow2_unfold((i + 1) as nat);
            lemma_pow2_monotone((i + 1) as nat, e as nat);
        }
        p = p * 2;
        i += 1;
    }
    p
}

/// The exponent of a power of two.
pub fn log2_strict(n: usize) -> (r: usize)
    requires
        exists|e: nat| n == #[trigger] pow2(e),
    ensures
        n == pow2(r as nat),
{
    let ghost e = choose|e: nat| n == #[trigger] pow2(e);
    let mut p: usize = 1;
    let mut i: usize = 0;
    proof {
        vstd::arithmetic::power2::lemma2_to64();
        lemma_pow2_pos(e);
        lemma_pow2_exceeds(e);
    }
    while p < n
        invariant
            p == pow2(i as nat),
            i <= e,
            n == pow2(e),
            e < n,
        decreases n - p,
    {
        proof {
            if i >= e {
                lemma_pow2_monotone(e, i as nat);
            }
            lemma_pow2_unfold((i + 1) as nat);
            lemma_pow2_monotone((i + 1) as nat, e);
            lemma_pow2_pos(i as nat);
        }
        p = p * 2;
        i += 1;
    }
    proof {
        if i < e {
            lemma_pow2_monotone((i + 1) as nat, e);
            lemma_pow2_unfold((i + 1) as nat);
            lemma_pow2_pos(i as nat);
        }
        lemma_pow2_monotone(i as nat, e);
    }
    i
}

/// e < 2^e.
pub proof fn lemma_pow2_exceeds(e: nat)
    ensures
        e < pow2(e),
    decreases e,
{
    vstd::arithmetic::power2::lemma2_to64();
    if e > 0 {
        lemma_pow2_exceeds((e - 1) as nat);
        lemma_pow2_unfold(e);
    }
}

/// A reversal of `bits` bits stays below 2^bits.
pub proof fn law_rev_bits_range(x: nat, bits: nat)
    ensures
        rev_bits(x, bits) < pow2(bits),
    decreases bits,
{
    vstd::arithmetic::power2::lemma2_to64();
    if bits > 0 {
        law_rev_bits_range(x, (bits - 1) as nat);
        lemma_pow2_unfold(bits);
    }
}

/// The bit that leads the reversal is the lowest bit of the index.
proof fn lemma_rev_top(x: nat, bits: nat)
    requires
        bits > 0,
    ensures
        rev_bits(x, bits) == (x % 2) * pow2((bits - 1) as nat) + rev_bits(x / 2, (bits - 1) as nat),
    decreases bits,
{
    vstd::arithmetic::power2::lemma2_to64();
    if bits == 1 {
        assert(rev_bits(x, 1) == 2 * rev_bits(x, 0) + (x / pow2(0)) % 2);
        assert(x / 1 == x);
    } else {
        let b = (bits - 1) as nat;
        lemma_rev_top(x, b);
        lemma_pow2_unfold(b);
        let (p, q) = (pow2((b - 1) as nat), pow2(b));
        lemma_pow2_pos((b - 1) as nat);
        vstd::arithmetic::div_mod::lemma_div_denominator(x as int, 2, p as int);
        assert(x / q == (x / 2) / p);
        assert(2 * ((x % 2) * p + rev_bits(x / 2, (b - 1) as nat)) == (x % 2) * q + 2 * rev_bits(
            x / 2,
            (b - 1) as nat,
        )) by (nonlinear_arith)
            requires
                q == 2 * p,
        ;
        assert(rev_bits(x / 2, b) == 2 * rev_bits(x / 2, (b - 1) as nat) + ((x / 2) / p) % 2);
    }
}

/// Reversing twice gives back the low bits.
pub proof fn law_rev_bits_involution(x: nat, bits: nat)
    ensures
        rev_bits(rev_bits(x, bits), bits) == x % pow2(bits),
    decreases bits,
{
    vstd::arithmetic::power2::lemma2_to64();
    if bits > 0 {
        let b = (bits - 1) as nat;
        let y = rev_bits(x, bits);
        law_rev_bits_involution(x, b);
        lemma_rev_top(y, bits);
        lemma_pow2_unfold(bits);
        lemma_pow2_pos(b);
        let (p, q) = (pow2(b), pow2(bits));
        let bit = (x / p) % 2;
        assert(y % 2 == bit && y / 2 == rev_bits(x, b));
        vstd::arithmetic::div_mod::lemma_mod_breakdown(x as int, p as int, 2);
        assert(p * 2 == q);
        assert(bit * p == p * bit) by (nonlinear_arith);
    }
}

/// The low `bits` bits of `x`, in reverse order.
pub fn reverse_bits_len(x: usize, bits: usize) -> (r: usize)
    requires
        pow2(bits as nat) - 1 <= usize::MAX,
    ensures
        r == rev_bits(x as nat, bits as nat),
{
    let mut r: usize = 0;
    let mut rest: usize = x;
    let mut i: usize = 0;
    proof {
        vstd::arithmetic::power2::lemma2_to64();
        assert(x / 1 == x);
    }
    while i < bits
        invariant
            i <= bits,
            r == rev_bits(x as nat, i as nat),
            rest == x as nat / pow2(i as nat),
            pow2(bits as nat) - 1 <= usize::MAX,
        decreases bits - i,
    {
        proof {
            law_rev_bits_range(x as nat, (i + 1) as nat);
            lemma_pow2_monotone((i + 1) as nat, bits as nat);
            lemma_pow2_unfold((i + 1) as nat);
            lemma_pow2_pos(i as nat);
            vstd::arithmetic::div_mod::lemma_div_denominator(x as int, pow2(i as nat) as int, 2);
            assert(pow2(i as nat) * 2 == pow2((i + 1) as nat));
        }
        r = r * 2 + rest % 2;
        rest = rest / 2;
        i += 1;
    }
    r
}

/// Reorder a slice of power-of-two length by bit-reversed index.
pub fn reverse_slice_index_bits<T: Copy>(xs: &mut Vec<T>)
    requires
        old(xs)@.len() <= 1 || exists|e: nat| old(xs)@.len() == #[trigger] pow2(e),
    ensures
        final(xs)@.len() == old(xs)@.len(),
        forall|e: nat, i: int|
            old(xs)@.len() == #[trigger] pow2(e) && 0 <= i < old(xs)@.len() ==> #[trigger] final(xs)@[i]
                == old(xs)@[rev_bits(i as nat, e) as int],
{
    let n: usize = xs.len();
    if n <= 1 {
        proof {
            assert forall|e: nat, i: int| xs@.len() == #[trigger] pow2(e) && 0 <= i < xs@.len() implies #[trigger] xs@[i]
                == xs@[rev_bits(i as nat, e) as int] by {
                law_rev_bits_range(i as nat, e);
            }
        }
        return ;
    }
    let log_n: usize = log2_strict(n);
    let ghost before = xs@;
    let ghost k: nat = log_n as nat;
    let mut i: usize = 0;
    while i < n
        invariant
            i <= n,
            n == pow2(k),
            k == log_n,
            before.len() == n,
            xs@.len() == n,
            forall|m: int|
                0 <= m < n ==> #[trigger] xs@[m] == if m < i || rev_bits(m as nat, k) < i {
                    before[rev_bits(m as nat, k) as int]
                } else {
                    before[m]
                },
        decreases n - i,
    {
        let j: usize = reverse_bits_len(i, log_n);
        proof {
            law_rev_bits_range(i as nat, k);
            law_rev_bits_involution(i as nat, k);
            assert(i as nat % pow2(k) == i) by {
                vstd::arithmetic::div_mod::lemma_small_mod(i as nat, pow2(k));
            }
            assert forall|m: int| 0 <= m < n && #[trigger] rev_bits(m as nat, k) == i implies m == j by {
                law_rev_bits_involution(m as nat, k);
                vstd::arithmetic::div_mod::lemma_small_mod(m as nat, pow2(k));
            }
        }
        if i < j {
            let a: T = xs[i];
            let b: T = xs[j];
            xs.set(i, b);
            xs.set(j, a);
        }
        i += 1;
    }
    proof {
        assert forall|e: nat, m: int| n == #[trigger] pow2(e) && 0 <= m < n implies #[trigger] xs@[m]
            == before[rev_bits(m as nat, e) as int] by {
            if e < k {
                lemma_pow2_monotone((e + 1) as nat, k);
                lemma_pow2_unfold((e + 1) as nat);
                lemma_pow2_pos(e);
            } else if e > k {
                lemma_pow2_monotone((k + 1) as nat, e);
                lemma_pow2_unfold((k + 1) as nat);
                lemma_pow2_pos(k);
            }
        }
    }
}

} // verus!
