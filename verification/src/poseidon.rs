//! The width-8 permutation of the sponge, its Merkle compression and leaf hash, and its round schedule laid
//! out as rows: one row per round, so a block of rows is one permutation.

use p3_field::PrimeField64;
use p3_goldilocks::{
    default_goldilocks_poseidon2_8, Goldilocks, GOLDILOCKS_POSEIDON2_RC_8_EXTERNAL_FINAL,
    GOLDILOCKS_POSEIDON2_RC_8_EXTERNAL_INITIAL, GOLDILOCKS_POSEIDON2_RC_8_INTERNAL,
};
use p3_symmetric::Permutation;
use vstd::prelude::*;

use crate::expr::{constant, plus, times, value, w_const, w_plus, w_times, Window, Wire};
use crate::field::{f_add, f_mul, f_red, fadd, fmul, MODULUS};
use crate::monolith::layout::{BLOCK, RATE, W};

verus! {

/// Full rounds in each half.
pub const HALF_FULL: usize = 4;

/// Partial rounds.
pub const PARTIAL: usize = 22;

/// What the permutation makes of a state: the last row of its block.
pub open spec fn permuted(state: Seq<u64>) -> Seq<u64> {
    block_last(state)
}

/// The constant added to a lane in a full round; rounds 0..4 open the permutation, 4..8 close it.
pub uninterp spec fn full_constant(round: nat, lane: nat) -> u64;

/// The constant added to lane 0 in a partial round.
pub uninterp spec fn partial_constant(round: nat) -> u64;

/// The permutation: `permute_mut` of `p3_goldilocks::default_goldilocks_poseidon2_8()`. It maps eight lanes
/// to eight canonical lanes and depends on the input lanes modulo p alone. It applies the external linear layer, four
/// full rounds, the partial rounds and four full rounds with the crate's constants, so that its output is the last
/// row of the block that starts from its input.
#[verifier::external_body]
pub(crate) fn permute(state: &Vec<u64>) -> (r: Vec<u64>)
    requires
        state@.len() == W,
    ensures
        r@ == block_last(state@),
        r@.len() == W,
        forall|i: int| 0 <= i < W ==> #[trigger] r@[i] < MODULUS,
{
    let mut lanes: [Goldilocks; 8] = core::array::from_fn(|i| Goldilocks::new(state[i]));
    default_goldilocks_poseidon2_8().permute_mut(&mut lanes);
    lanes.iter().map(|x| x.as_canonical_u64()).collect()
}

/// The full-round constants: `p3_goldilocks::GOLDILOCKS_POSEIDON2_RC_8_EXTERNAL_INITIAL` for rounds 0..4.
#[verifier::external_body]
fn full_constant_initial(round: usize, lane: usize) -> (r: u64)
    requires
        round < HALF_FULL,
        lane < W,
    ensures
        r == full_constant(round as nat, lane as nat),
        r < MODULUS,
{
    GOLDILOCKS_POSEIDON2_RC_8_EXTERNAL_INITIAL[round][lane].as_canonical_u64()
}

/// The full-round constants: `p3_goldilocks::GOLDILOCKS_POSEIDON2_RC_8_EXTERNAL_FINAL`, which holds rounds
/// 4..8 of the schedule.
#[verifier::external_body]
fn full_constant_final(round: usize, lane: usize) -> (r: u64)
    requires
        round < HALF_FULL,
        lane < W,
    ensures
        r == full_constant((round + HALF_FULL) as nat, lane as nat),
        r < MODULUS,
{
    GOLDILOCKS_POSEIDON2_RC_8_EXTERNAL_FINAL[round][lane].as_canonical_u64()
}

/// The partial-round constants: `p3_goldilocks::GOLDILOCKS_POSEIDON2_RC_8_INTERNAL`.
#[verifier::external_body]
fn partial_constant_at(round: usize) -> (r: u64)
    requires
        round < PARTIAL,
    ensures
        r == partial_constant(round as nat),
        r < MODULUS,
{
    GOLDILOCKS_POSEIDON2_RC_8_INTERNAL[round].as_canonical_u64()
}

/// The diagonal of the internal matrix, less the all-ones matrix.
pub open spec fn diagonal(i: int) -> u64 {
    if i == 0 {
        18446744069414584319
    } else if i == 1 {
        1
    } else if i == 2 {
        2
    } else if i == 3 {
        9223372034707292161
    } else if i == 4 {
        3
    } else if i == 5 {
        9223372034707292160
    } else if i == 6 {
        18446744069414584318
    } else {
        18446744069414584317
    }
}

fn diagonal_at(i: usize) -> (r: u64)
    ensures
        r == diagonal(i as int),
{
    if i == 0 {
        18446744069414584319
    } else if i == 1 {
        1
    } else if i == 2 {
        2
    } else if i == 3 {
        9223372034707292161
    } else if i == 4 {
        3
    } else if i == 5 {
        9223372034707292160
    } else if i == 6 {
        18446744069414584318
    } else {
        18446744069414584317
    }
}

/// Four lanes through the circulant matrix with first row 2, 3, 1, 1.
#[verifier::opaque]
pub open spec fn mat4(x0: u64, x1: u64, x2: u64, x3: u64) -> (u64, u64, u64, u64) {
    let t01 = f_add(x0, x1);
    let t23 = f_add(x2, x3);
    let t = f_add(t01, t23);
    let t1 = f_add(t, x1);
    let t3 = f_add(t, x3);
    (f_add(t1, t01), f_add(t1, f_add(x2, x2)), f_add(t3, t23), f_add(t3, f_add(x0, x0)))
}

/// The external linear layer: the matrix on each half, then each lane plus both lanes of its position.
pub open spec fn ext_layer(s: Seq<u64>) -> Seq<u64> {
    let a = mat4(s[0], s[1], s[2], s[3]);
    let b = mat4(s[4], s[5], s[6], s[7]);
    let (t0, t1, t2, t3) = (f_add(a.0, b.0), f_add(a.1, b.1), f_add(a.2, b.2), f_add(a.3, b.3));
    seq![
        f_add(a.0, t0),
        f_add(a.1, t1),
        f_add(a.2, t2),
        f_add(a.3, t3),
        f_add(b.0, t0),
        f_add(b.1, t1),
        f_add(b.2, t2),
        f_add(b.3, t3),
    ]
}

/// The sum of the lanes.
pub open spec fn lane_sum(s: Seq<u64>, n: nat) -> u64
    decreases n,
{
    if n == 0 {
        0
    } else {
        f_add(lane_sum(s, (n - 1) as nat), s[n - 1])
    }
}

/// The internal linear layer: each lane times its diagonal entry, plus the sum of all lanes.
pub open spec fn int_layer(s: Seq<u64>) -> Seq<u64> {
    Seq::new(8, |i: int| f_add(f_mul(s[i], diagonal(i)), lane_sum(s, 8)))
}

/// The seventh power.
pub open spec fn sbox(x: u64) -> u64 {
    f_mul(f_mul(f_mul(f_mul(x, x), f_mul(x, x)), f_mul(x, x)), x)
}

/// Which transition leaves row `t` of a block: the opening linear layer from row 0, full rounds, partial
/// rounds, full rounds, none from the last row.
pub open spec fn row_is_init(t: int) -> bool {
    t == 0
}

pub open spec fn row_is_full(t: int) -> bool {
    1 <= t <= 4 || 27 <= t <= 30
}

pub open spec fn row_is_partial(t: int) -> bool {
    5 <= t <= 26
}

/// The constant that row `t` adds to a lane.
pub open spec fn row_constant(t: int, lane: int) -> u64 {
    if 1 <= t <= 4 {
        full_constant((t - 1) as nat, lane as nat)
    } else if 27 <= t <= 30 {
        full_constant((t - 23) as nat, lane as nat)
    } else if 5 <= t <= 26 && lane == 0 {
        partial_constant((t - 5) as nat)
    } else {
        0
    }
}

/// The state in row `t + 1` from that in row `t`.
pub open spec fn next_row(s: Seq<u64>, t: int) -> Seq<u64> {
    if row_is_init(t) {
        ext_layer(s)
    } else if row_is_full(t) {
        ext_layer(Seq::new(8, |i: int| sbox(f_add(s[i], row_constant(t, i)))))
    } else {
        int_layer(s.update(0, sbox(f_add(s[0], row_constant(t, 0)))))
    }
}

/// The state in row `t` of the block that starts from `input`.
pub open spec fn block_row(input: Seq<u64>, t: nat) -> Seq<u64>
    decreases t,
{
    if t == 0 {
        input
    } else {
        next_row(block_row(input, (t - 1) as nat), t - 1)
    }
}

/// The last row of the block that starts from `input`.
#[verifier::opaque]
pub open spec fn block_last(input: Seq<u64>) -> Seq<u64> {
    block_row(input, 31)
}

/// The block that starts from `input` ends in what the permutation makes of it.
pub open spec fn block_ends(input: Seq<u64>) -> bool {
    block_last(input) == permuted(input)
}

proof fn lemma_ext_layer_len(s: Seq<u64>)
    ensures
        ext_layer(s).len() == 8,
{
}

/// Every row of a block has eight lanes.
pub proof fn lemma_block_row_len(input: Seq<u64>, t: nat)
    requires
        input.len() == 8,
    ensures
        block_row(input, t).len() == 8,
{
    if t > 0 {
        let s = block_row(input, (t - 1) as nat);
        if row_is_init(t - 1) {
            lemma_ext_layer_len(s);
        } else if row_is_full(t - 1) {
            lemma_ext_layer_len(Seq::new(8, |i: int| sbox(f_add(s[i], row_constant(t - 1, i)))));
        }
    }
}

fn mat4_native(x0: u64, x1: u64, x2: u64, x3: u64) -> (r: (u64, u64, u64, u64))
    ensures
        r == mat4(x0, x1, x2, x3),
{
    reveal(mat4);
    let t01: u64 = fadd(x0, x1);
    let t23: u64 = fadd(x2, x3);
    let t: u64 = fadd(t01, t23);
    let t1: u64 = fadd(t, x1);
    let t3: u64 = fadd(t, x3);
    (fadd(t1, t01), fadd(t1, fadd(x2, x2)), fadd(t3, t23), fadd(t3, fadd(x0, x0)))
}

fn ext_layer_native(s: &Vec<u64>) -> (r: Vec<u64>)
    requires
        s@.len() == 8,
    ensures
        r@ == ext_layer(s@),
        r@.len() == 8,
{
    let a: (u64, u64, u64, u64) = mat4_native(s[0], s[1], s[2], s[3]);
    let b: (u64, u64, u64, u64) = mat4_native(s[4], s[5], s[6], s[7]);
    let t0: u64 = fadd(a.0, b.0);
    let t1: u64 = fadd(a.1, b.1);
    let t2: u64 = fadd(a.2, b.2);
    let t3: u64 = fadd(a.3, b.3);
    let r: Vec<u64> = vec![
        fadd(a.0, t0),
        fadd(a.1, t1),
        fadd(a.2, t2),
        fadd(a.3, t3),
        fadd(b.0, t0),
        fadd(b.1, t1),
        fadd(b.2, t2),
        fadd(b.3, t3),
    ];
    assert(r@ =~= ext_layer(s@));
    r
}

fn int_layer_native(s: &Vec<u64>) -> (r: Vec<u64>)
    requires
        s@.len() == 8,
    ensures
        r@ == int_layer(s@),
        r@.len() == 8,
{
    let mut sum: u64 = 0;
    let mut i: usize = 0;
    while i < 8
        invariant
            i <= 8,
            s@.len() == 8,
            sum == lane_sum(s@, i as nat),
        decreases 8 - i,
    {
        sum = fadd(sum, s[i]);
        i += 1;
    }
    let mut r: Vec<u64> = Vec::new();
    let mut j: usize = 0;
    while j < 8
        invariant
            j <= 8,
            s@.len() == 8,
            sum == lane_sum(s@, 8),
            r@ =~= int_layer(s@).subrange(0, j as int),
        decreases 8 - j,
    {
        r.push(fadd(fmul(s[j], diagonal_at(j)), sum));
        j += 1;
    }
    assert(r@ =~= int_layer(s@));
    r
}

fn sbox_native(x: u64) -> (r: u64)
    ensures
        r == sbox(x),
{
    let x2: u64 = fmul(x, x);
    fmul(fmul(fmul(x2, x2), x2), x)
}

/// The constant that row `t` of a block adds to a lane.
pub fn round_constant(t: usize, lane: usize) -> (r: u64)
    requires
        t < BLOCK,
        lane < W,
    ensures
        r == row_constant(t as int, lane as int),
        r < MODULUS,
{
    if 1 <= t && t <= 4 {
        full_constant_initial(t - 1, lane)
    } else if 27 <= t && t <= 30 {
        full_constant_final(t - 27, lane)
    } else if 5 <= t && t <= 26 && lane == 0 {
        partial_constant_at(t - 5)
    } else {
        0
    }
}

/// All rows of the block that starts from `input`.
pub fn native_steps(input: &Vec<u64>) -> (r: Vec<Vec<u64>>)
    requires
        input@.len() == W,
    ensures
        r@.len() == BLOCK,
        forall|t: int| 0 <= t < BLOCK ==> (#[trigger] r@[t])@ == block_row(input@, t as nat),
        forall|t: int| 0 <= t < BLOCK ==> (#[trigger] r@[t])@.len() == W,
{
    let mut rows: Vec<Vec<u64>> = Vec::new();
    let mut state: Vec<u64> = input.clone();
    assert(state@ =~= input@);
    let mut t: usize = 0;
    while t < BLOCK
        invariant
            t <= BLOCK,
            state@.len() == 8,
            t < BLOCK ==> state@ == block_row(input@, t as nat),
            rows@.len() == t,
            forall|u: int| 0 <= u < t ==> (#[trigger] rows@[u])@ == block_row(input@, u as nat),
            forall|u: int| 0 <= u < t ==> (#[trigger] rows@[u])@.len() == W,
        decreases BLOCK - t,
    {
        let ghost before = state@;
        let row: Vec<u64> = state.clone();
        assert(row@ =~= before);
        rows.push(row);
        if t == 0 {
            state = ext_layer_native(&state);
        } else if t <= 4 || (27 <= t && t <= 30) {
            let mut mid: Vec<u64> = Vec::new();
            let mut i: usize = 0;
            while i < 8
                invariant
                    i <= 8,
                    t < BLOCK,
                    state@ == before,
                    before.len() == 8,
                    mid@ =~= Seq::new(i as nat, |k: int| sbox(f_add(before[k], row_constant(t as int, k)))),
                decreases 8 - i,
            {
                mid.push(sbox_native(fadd(state[i], round_constant(t, i))));
                i += 1;
            }
            assert(mid@ =~= Seq::new(8, |k: int| sbox(f_add(before[k], row_constant(t as int, k)))));
            state = ext_layer_native(&mid);
        } else if t <= 26 {
            let s0: u64 = sbox_native(fadd(state[0], round_constant(t, 0)));
            let mut mid: Vec<u64> = state.clone();
            assert(mid@ =~= before);
            mid.set(0, s0);
            assert(mid@ =~= before.update(0, sbox(f_add(before[0], row_constant(t as int, 0)))));
            state = int_layer_native(&mid);
        }
        assert(t + 1 < BLOCK ==> block_row(input@, (t + 1) as nat) == next_row(before, t as int));
        t += 1;
    }
    rows
}

/// The value of round-schedule column `j` at row `t`: the three round kinds, then the lane constants.
pub open spec fn schedule(j: int, t: int) -> u64 {
    if j == 0 {
        if row_is_init(t) {
            1
        } else {
            0
        }
    } else if j == 1 {
        if row_is_full(t) {
            1
        } else {
            0
        }
    } else if j == 2 {
        if row_is_partial(t) {
            1
        } else {
            0
        }
    } else {
        row_constant(t, j - 3)
    }
}

/// The round schedule as eleven columns of one block.
pub fn periodic_table() -> (cols: Vec<Vec<u64>>)
    ensures
        cols@.len() == 11,
        forall|j: int| 0 <= j < 11 ==> (#[trigger] cols@[j])@ == Seq::new(BLOCK as nat, |t: int| schedule(j, t)),
{
    let mut cols: Vec<Vec<u64>> = Vec::new();
    let mut j: usize = 0;
    while j < 11
        invariant
            j <= 11,
            cols@.len() == j,
            forall|k: int| 0 <= k < j ==> (#[trigger] cols@[k])@ == Seq::new(BLOCK as nat, |t: int| schedule(k, t)),
        decreases 11 - j,
    {
        let mut col: Vec<u64> = Vec::new();
        let mut t: usize = 0;
        while t < BLOCK
            invariant
                j < 11,
                t <= BLOCK,
                col@ =~= Seq::new(t as nat, |u: int| schedule(j as int, u)),
            decreases BLOCK - t,
        {
            let hit: bool = (j == 0 && t == 0) || (j == 1 && ((1 <= t && t <= 4) || (27 <= t && t <= 30))) || (j == 2
                && 5 <= t && t <= 26);
            let v: u64 = if j < 3 {
                if hit {
                    1
                } else {
                    0
                }
            } else {
                round_constant(t, j - 3)
            };
            col.push(v);
            t += 1;
        }
        assert(col@ =~= Seq::new(BLOCK as nat, |u: int| schedule(j as int, u)));
        cols.push(col);
        j += 1;
    }
    cols
}

/// Two digests laid side by side.
pub open spec fn paired(left: Seq<u64>, right: Seq<u64>) -> Seq<u64> {
    Seq::new(8, |i: int| if i < 4 { left[i] } else { right[i - 4] })
}

/// The compression of two digests: the first four lanes of the permutation of the pair.
pub open spec fn compressed(left: Seq<u64>, right: Seq<u64>) -> Seq<u64> {
    permuted(paired(left, right)).subrange(0, 4)
}

/// The compression of two digests.
pub fn merge(left: &Vec<u64>, right: &Vec<u64>) -> (r: Vec<u64>)
    requires
        left@.len() == 4,
        right@.len() == 4,
    ensures
        r@ == compressed(left@, right@),
        r@.len() == 4,
        block_ends(paired(left@, right@)),
{
    let state: Vec<u64> = vec![left[0], left[1], left[2], left[3], right[0], right[1], right[2], right[3]];
    assert(state@ =~= paired(left@, right@));
    let out: Vec<u64> = permute(&state);
    let r: Vec<u64> = vec![out[0], out[1], out[2], out[3]];
    assert(r@ =~= compressed(left@, right@));
    r
}

/// The lanes after one block of `felts` from `at` on overwrites the head of the rate.
pub open spec fn absorbed(state: Seq<u64>, felts: Seq<u64>, at: int) -> Seq<u64> {
    Seq::new(8, |i: int| if i < 4 && at + i < felts.len() { felts[at + i] } else { state[i] })
}

/// The sponge state after `blocks` blocks of `felts`, in overwrite mode without padding.
pub open spec fn sponge(felts: Seq<u64>, blocks: nat) -> Seq<u64>
    decreases blocks,
{
    if blocks == 0 {
        Seq::new(8, |i: int| 0u64)
    } else {
        permuted(absorbed(sponge(felts, (blocks - 1) as nat), felts, 4 * (blocks - 1)))
    }
}

/// The leaf hash of a row: the first four lanes once all of it is absorbed.
pub open spec fn leaf_hash(felts: Seq<u64>) -> Seq<u64> {
    sponge(felts, crate::bits::div_up(felts.len() as int, 4) as nat).subrange(0, 4)
}

/// The sponge state after `blocks` blocks, by the rows of the permutation.
pub open spec fn rows_sponge(felts: Seq<u64>, blocks: nat) -> Seq<u64>
    decreases blocks,
{
    if blocks == 0 {
        Seq::new(8, |i: int| 0u64)
    } else {
        block_last(absorbed(rows_sponge(felts, (blocks - 1) as nat), felts, 4 * (blocks - 1)))
    }
}

/// The leaf hash of a row, by the rows of the permutation.
pub open spec fn rows_leaf(felts: Seq<u64>) -> Seq<u64> {
    rows_sponge(felts, crate::bits::div_up(felts.len() as int, 4) as nat).subrange(0, 4)
}

/// The state that enters each block of the leaf hash of a row, and the hash.
pub fn leaf_hash_blocks(felts: &Vec<u64>) -> (r: (Vec<Vec<u64>>, Vec<u64>))
    ensures
        r.0@.len() == crate::bits::div_up(felts@.len() as int, 4),
        forall|b: int|
            0 <= b < r.0@.len() ==> (#[trigger] r.0@[b])@ == absorbed(sponge(felts@, b as nat), felts@, 4 * b),
        forall|b: int| 0 <= b < r.0@.len() ==> (#[trigger] r.0@[b])@.len() == W && block_ends(r.0@[b]@),
        r.1@ == leaf_hash(felts@),
        r.1@ == rows_leaf(felts@),
        r.1@.len() == 4,
{
    let len: usize = felts.len();
    let n: usize = crate::bits::div_ceil(len, RATE);
    let mut inputs: Vec<Vec<u64>> = Vec::new();
    let mut state: Vec<u64> = vec![0, 0, 0, 0, 0, 0, 0, 0];
    assert(state@ =~= sponge(felts@, 0));
    assert(state@ =~= rows_sponge(felts@, 0));
    let mut b: usize = 0;
    while b < n
        invariant
            b <= n,
            len == felts@.len(),
            n == crate::bits::div_up(felts@.len() as int, 4),
            state@ == sponge(felts@, b as nat),
            state@ == rows_sponge(felts@, b as nat),
            state@.len() == 8,
            inputs@.len() == b,
            forall|c: int|
                0 <= c < b ==> (#[trigger] inputs@[c])@ == absorbed(sponge(felts@, c as nat), felts@, 4 * c),
            forall|c: int| 0 <= c < b ==> (#[trigger] inputs@[c])@.len() == W && block_ends(inputs@[c]@),
        decreases n - b,
    {
        let ghost before = state@;
        assert(4 * b < len);
        let at: usize = 4 * b;
        let mut i: usize = 0;
        while i < 4 && i < len - at
            invariant
                i <= 4,
                at == 4 * b,
                len == felts@.len(),
                at + i <= len,
                state@.len() == 8,
                before.len() == 8,
                forall|k: int| 0 <= k < 8 ==> #[trigger] state@[k] == if k < i { felts@[at + k] } else { before[k] },
            decreases 4 - i,
        {
            let v: u64 = felts[at + i];
            state.set(i, v);
            i += 1;
        }
        assert(state@ =~= absorbed(before, felts@, 4 * b));
        let out: Vec<u64> = permute(&state);
        inputs.push(state);
        state = out;
        b += 1;
    }
    let digest: Vec<u64> = vec![state[0], state[1], state[2], state[3]];
    assert(digest@ =~= leaf_hash(felts@));
    (inputs, digest)
}

/// The seventh power of a wire.
pub open spec fn w_sbox(x: Wire) -> Wire {
    w_times(w_times(w_times(w_times(x, x), w_times(x, x)), w_times(x, x)), x)
}

#[verifier::opaque]
pub open spec fn w_mat4(x0: Wire, x1: Wire, x2: Wire, x3: Wire) -> (Wire, Wire, Wire, Wire) {
    let t01 = w_plus(x0, x1);
    let t23 = w_plus(x2, x3);
    let t = w_plus(t01, t23);
    let t1 = w_plus(t, x1);
    let t3 = w_plus(t, x3);
    (w_plus(t1, t01), w_plus(t1, w_plus(x2, x2)), w_plus(t3, t23), w_plus(t3, w_plus(x0, x0)))
}

/// The external linear layer on wires.
pub open spec fn w_ext_layer(s: Seq<Wire>) -> Seq<Wire> {
    let a = w_mat4(s[0], s[1], s[2], s[3]);
    let b = w_mat4(s[4], s[5], s[6], s[7]);
    let (t0, t1, t2, t3) = (w_plus(a.0, b.0), w_plus(a.1, b.1), w_plus(a.2, b.2), w_plus(a.3, b.3));
    seq![
        w_plus(a.0, t0),
        w_plus(a.1, t1),
        w_plus(a.2, t2),
        w_plus(a.3, t3),
        w_plus(b.0, t0),
        w_plus(b.1, t1),
        w_plus(b.2, t2),
        w_plus(b.3, t3),
    ]
}

pub open spec fn w_lane_sum(s: Seq<Wire>, n: nat) -> Wire
    decreases n,
{
    if n == 0 {
        w_const(0)
    } else {
        w_plus(w_lane_sum(s, (n - 1) as nat), s[n - 1])
    }
}

/// The internal linear layer on wires.
pub open spec fn w_int_layer(s: Seq<Wire>) -> Seq<Wire> {
    Seq::new(8, |i: int| w_plus(w_times(s[i], w_const(diagonal(i))), w_lane_sum(s, 8)))
}

pub fn pow7(x: &Wire) -> (r: Wire)
    ensures
        r == w_sbox(*x),
{
    let x2: Wire = times(x, x);
    times(&times(&times(&x2, &x2), &x2), x)
}

fn mat4_wires(x0: &Wire, x1: &Wire, x2: &Wire, x3: &Wire) -> (r: (Wire, Wire, Wire, Wire))
    ensures
        r == w_mat4(*x0, *x1, *x2, *x3),
{
    reveal(w_mat4);
    let t01: Wire = plus(x0, x1);
    let t23: Wire = plus(x2, x3);
    let t: Wire = plus(&t01, &t23);
    let t1: Wire = plus(&t, x1);
    let t3: Wire = plus(&t, x3);
    (plus(&t1, &t01), plus(&t1, &plus(x2, x2)), plus(&t3, &t23), plus(&t3, &plus(x0, x0)))
}

/// The external linear layer on wires.
pub fn ext_linear(s: &Vec<Wire>) -> (r: Vec<Wire>)
    requires
        s@.len() == 8,
    ensures
        r@ == w_ext_layer(s@),
        r@.len() == 8,
{
    let a: (Wire, Wire, Wire, Wire) = mat4_wires(&s[0], &s[1], &s[2], &s[3]);
    let b: (Wire, Wire, Wire, Wire) = mat4_wires(&s[4], &s[5], &s[6], &s[7]);
    let t0: Wire = plus(&a.0, &b.0);
    let t1: Wire = plus(&a.1, &b.1);
    let t2: Wire = plus(&a.2, &b.2);
    let t3: Wire = plus(&a.3, &b.3);
    let r: Vec<Wire> = vec![
        plus(&a.0, &t0),
        plus(&a.1, &t1),
        plus(&a.2, &t2),
        plus(&a.3, &t3),
        plus(&b.0, &t0),
        plus(&b.1, &t1),
        plus(&b.2, &t2),
        plus(&b.3, &t3),
    ];
    assert(r@ =~= w_ext_layer(s@));
    r
}

/// The internal linear layer on wires.
pub fn int_linear(s: &Vec<Wire>) -> (r: Vec<Wire>)
    requires
        s@.len() == 8,
    ensures
        r@ == w_int_layer(s@),
        r@.len() == 8,
{
    let mut sum: Wire = constant(0);
    let mut i: usize = 0;
    while i < 8
        invariant
            i <= 8,
            s@.len() == 8,
            sum == w_lane_sum(s@, i as nat),
        decreases 8 - i,
    {
        sum = plus(&sum, &s[i]);
        i += 1;
    }
    let mut r: Vec<Wire> = Vec::new();
    let mut j: usize = 0;
    while j < 8
        invariant
            j <= 8,
            s@.len() == 8,
            sum == w_lane_sum(s@, 8),
            r@ =~= w_int_layer(s@).subrange(0, j as int),
        decreases 8 - j,
    {
        r.push(plus(&times(&s[j], &constant(diagonal_at(j))), &sum));
        j += 1;
    }
    assert(r@ =~= w_int_layer(s@));
    r
}

/// The values of eight wires at a window.
pub open spec fn values(s: Seq<Wire>, w: Window) -> Seq<u64> {
    Seq::new(8, |i: int| value(s[i], w))
}

proof fn lemma_plus_value(a: Wire, b: Wire, w: Window)
    ensures
        value(w_plus(a, b), w) == f_add(value(a, w), value(b, w)),
{
}

proof fn lemma_mat4_value(x0: Wire, x1: Wire, x2: Wire, x3: Wire, w: Window)
    ensures
        ({
            let m = w_mat4(x0, x1, x2, x3);
            (value(m.0, w), value(m.1, w), value(m.2, w), value(m.3, w)) == mat4(
                value(x0, w),
                value(x1, w),
                value(x2, w),
                value(x3, w),
            )
        }),
{
    reveal(mat4);
    reveal(w_mat4);
    let t01 = w_plus(x0, x1);
    let t23 = w_plus(x2, x3);
    let t = w_plus(t01, t23);
    let t1 = w_plus(t, x1);
    let t3 = w_plus(t, x3);
    lemma_plus_value(x0, x1, w);
    lemma_plus_value(x2, x3, w);
    lemma_plus_value(t01, t23, w);
    lemma_plus_value(t, x1, w);
    lemma_plus_value(t, x3, w);
    lemma_plus_value(x2, x2, w);
    lemma_plus_value(x0, x0, w);
    lemma_plus_value(t1, t01, w);
    lemma_plus_value(t1, w_plus(x2, x2), w);
    lemma_plus_value(t3, t23, w);
    lemma_plus_value(t3, w_plus(x0, x0), w);
}

/// The external layer of wires carries the external layer of their values.
#[verifier::rlimit(100)]
#[verifier::spinoff_prover]
pub proof fn law_ext_layer_value(s: Seq<Wire>, w: Window)
    requires
        s.len() == 8,
    ensures
        values(w_ext_layer(s), w) == ext_layer(values(s, w)),
{
    let a = w_mat4(s[0], s[1], s[2], s[3]);
    let b = w_mat4(s[4], s[5], s[6], s[7]);
    lemma_mat4_value(s[0], s[1], s[2], s[3], w);
    lemma_mat4_value(s[4], s[5], s[6], s[7], w);
    lemma_plus_value(a.0, b.0, w);
    lemma_plus_value(a.1, b.1, w);
    lemma_plus_value(a.2, b.2, w);
    lemma_plus_value(a.3, b.3, w);
    lemma_plus_value(a.0, w_plus(a.0, b.0), w);
    lemma_plus_value(a.1, w_plus(a.1, b.1), w);
    lemma_plus_value(a.2, w_plus(a.2, b.2), w);
    lemma_plus_value(a.3, w_plus(a.3, b.3), w);
    lemma_plus_value(b.0, w_plus(a.0, b.0), w);
    lemma_plus_value(b.1, w_plus(a.1, b.1), w);
    lemma_plus_value(b.2, w_plus(a.2, b.2), w);
    lemma_plus_value(b.3, w_plus(a.3, b.3), w);
    assert(values(w_ext_layer(s), w) =~= ext_layer(values(s, w)));
}

proof fn lemma_lane_sum_value(s: Seq<Wire>, n: nat, w: Window)
    requires
        n <= 8,
        s.len() == 8,
    ensures
        value(w_lane_sum(s, n), w) == lane_sum(values(s, w), n),
    decreases n,
{
    if n > 0 {
        lemma_lane_sum_value(s, (n - 1) as nat, w);
    }
}

/// The internal layer of wires carries the internal layer of their values.
pub proof fn law_int_layer_value(s: Seq<Wire>, w: Window)
    requires
        s.len() == 8,
    ensures
        values(w_int_layer(s), w) == int_layer(values(s, w)),
{
    lemma_lane_sum_value(s, 8, w);
    reveal_with_fuel(value, 4);
    assert forall|i: int| 0 <= i < 8 implies values(w_int_layer(s), w)[i] == int_layer(values(s, w))[i] by {
        assert(f_red(diagonal(i) as int) == diagonal(i));
    }
    assert(values(w_int_layer(s), w) =~= int_layer(values(s, w)));
}

/// The seventh power of a wire carries the seventh power of its value.
pub proof fn law_sbox_value(x: Wire, w: Window)
    ensures
        value(w_sbox(x), w) == sbox(value(x, w)),
{
    reveal_with_fuel(value, 5);
}

} // verus!
