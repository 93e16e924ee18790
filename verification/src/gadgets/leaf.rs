//! Hashing a row of any width into a leaf, rate by rate.

use vstd::prelude::*;

use crate::bits::{div_ceil, div_up, next_pow2, next_power_of_two};
use crate::emit::{flat, lemma_flat_step};
use crate::expr::{cur, minus, on_first, per, public, times, w_cur, w_minus, w_on_first, w_per, w_pub, w_times, Wire};
use crate::fri::merkle::contents;
use crate::gadgets::leaf_trace::{leaf_publics, lemma_rows_are};
use crate::gadgets::traces::reduced;
use crate::monolith::arith::{emit_plain_steps, plain_steps};
use crate::monolith::eval::{emit_lane_carry, f_lane_carry};
use crate::monolith::layout::{BLOCK, RATE, W};
use crate::monolith::periodic::{indicator, range_column};
use crate::poseidon::{
    absorbed, block_ends, block_last, block_row, leaf_hash, native_steps, periodic_table, permute, permuted, schedule,
    sponge,
};

verus! {

/// Proves the leaf hash of a public row of `n_felts` felts.
pub struct GeneralLeafHashAir {
    pub n_felts: usize,
}

impl GeneralLeafHashAir {
    pub open spec fn s_n_blocks(&self) -> int {
        div_up(self.n_felts as int, RATE as int)
    }

    pub open spec fn s_rem(&self) -> int {
        self.n_felts - (self.s_n_blocks() - 1) * 4
    }

    pub open spec fn s_height(&self) -> int {
        next_pow2((self.s_n_blocks() * BLOCK) as nat) as int
    }

    /// The first block is full, so a short last block has one before it, and the rows can be counted.
    pub open spec fn wf(&self) -> bool {
        &&& self.n_felts >= 4
        &&& self.n_felts + 4 <= usize::MAX
        &&& self.s_n_blocks() * BLOCK <= usize::MAX
        &&& self.s_height() <= usize::MAX
    }

    /// Sponge blocks.
    pub fn n_blocks(&self) -> (r: usize)
        ensures
            r == self.s_n_blocks(),
    {
        div_ceil(self.n_felts, RATE)
    }

    /// Felts in the last block.
    pub fn rem(&self) -> (r: usize)
        requires
            self.n_felts >= 1,
        ensures
            r == self.s_rem(),
            1 <= r <= 4,
    {
        self.n_felts - (self.n_blocks() - 1) * RATE
    }

    /// Felts in block `b`.
    pub fn chunk_len(&self, b: usize) -> (r: usize)
        requires
            self.n_felts >= 1,
        ensures
            r == if b == self.s_n_blocks() - 1 {
                self.s_rem()
            } else {
                RATE as int
            },
    {
        if b == self.n_blocks() - 1 {
            self.rem()
        } else {
            RATE
        }
    }

    /// Rows of the trace.
    pub fn height(&self) -> (r: usize)
        requires
            self.s_n_blocks() * BLOCK <= usize::MAX,
            self.s_height() <= usize::MAX,
        ensures
            r == self.s_height(),
    {
        next_power_of_two(self.n_blocks() * BLOCK)
    }

    /// Periodic column of the absorb head of block `b`.
    pub fn p_absorb(&self, b: usize) -> (r: usize)
        requires
            1 <= b,
            11 + b <= usize::MAX,
        ensures
            r == 12 + (b - 1),
    {
        12 + (b - 1)
    }

    /// Periodic column of the last row of the hash.
    pub fn p_term(&self) -> (r: usize)
        requires
            self.wf(),
        ensures
            r == 12 + (self.s_n_blocks() - 1),
    {
        12 + (self.n_blocks() - 1)
    }

    /// Periodic column of the boundary into a short last block.
    pub fn p_last_carry(&self) -> (r: usize)
        requires
            self.wf(),
        ensures
            r == 12 + self.s_n_blocks(),
    {
        self.p_term() + 1
    }

    pub fn width(&self) -> (r: usize)
        ensures
            r == 8,
    {
        W
    }

    /// The row and the leaf are public.
    pub fn num_public_values(&self) -> (r: usize)
        requires
            self.wf(),
        ensures
            r == self.n_felts + 4,
    {
        self.n_felts + 4
    }

    pub open spec fn s_num_periodic_columns(&self) -> int {
        if self.s_rem() < 4 {
            13 + self.s_n_blocks()
        } else {
            12 + self.s_n_blocks()
        }
    }

    pub fn num_periodic_columns(&self) -> (r: usize)
        requires
            self.wf(),
        ensures
            r == self.s_num_periodic_columns(),
    {
        if self.rem() < RATE {
            self.p_last_carry() + 1
        } else {
            self.p_term() + 1
        }
    }

    /// The rows that periodic column `j` marks: block ends, absorb heads, the last row, the boundary into a
    /// short last block.
    pub open spec fn marks(&self, j: int, row: int) -> bool {
        let n = self.s_n_blocks();
        if j == 11 {
            row < n * BLOCK && row % (BLOCK as int) == BLOCK - 1
        } else if j < 11 + n {
            row == (j - 11) * BLOCK
        } else if j == 11 + n {
            row == (n - 1) * BLOCK + BLOCK - 1
        } else {
            row == (n - 2) * BLOCK + BLOCK - 1
        }
    }

    pub open spec fn column(&self, j: int) -> Seq<u64> {
        if j < 11 {
            Seq::new(BLOCK as nat, |t: int| schedule(j, t))
        } else {
            indicator(self.s_height(), |row: int| self.marks(j, row))
        }
    }

    /// The periodic columns.
    pub fn periodic(&self) -> (cols: Vec<Vec<u64>>)
        requires
            self.wf(),
        ensures
            cols@.len() == self.s_num_periodic_columns(),
            forall|j: int| 0 <= j < cols@.len() ==> (#[trigger] cols@[j])@ == self.column(j),
    {
        let h: usize = self.height();
        let n: usize = self.n_blocks();
        proof {
            crate::bits::lemma_next_pow2((self.s_n_blocks() * BLOCK) as nat);
        }
        let mut cols: Vec<Vec<u64>> = periodic_table();
        let end: usize = n * BLOCK;
        let mut last: Vec<u64> = Vec::new();
        let mut r: usize = 0;
        while r < h
            invariant
                r <= h,
                end == self.s_n_blocks() * BLOCK,
                last@ =~= indicator(r as int, |row: int| self.marks(11, row)),
            decreases h - r,
        {
            last.push(
                if r < end && r % BLOCK == BLOCK - 1 {
                    1
                } else {
                    0
                },
            );
            r += 1;
        }
        assert(last@ =~= self.column(11));
        cols.push(last);
        let mut b: usize = 1;
        while b < n
            invariant
                1 <= b <= n,
                n == self.s_n_blocks(),
                h == self.s_height(),
                n * BLOCK <= h,
                cols@.len() == 11 + b,
                forall|j: int| 0 <= j < cols@.len() ==> (#[trigger] cols@[j])@ == self.column(j),
            decreases n - b,
        {
            let at: usize = b * BLOCK;
            let col: Vec<u64> = range_column(h, at, at + 1);
            assert(col@ =~= self.column(11 + b));
            cols.push(col);
            b += 1;
        }
        let end_row: usize = (n - 1) * BLOCK + BLOCK - 1;
        let term: Vec<u64> = range_column(h, end_row, end_row + 1);
        assert(term@ =~= self.column(11 + n));
        cols.push(term);
        if self.rem() < RATE {
            let row: usize = (n - 2) * BLOCK + BLOCK - 1;
            let carry: Vec<u64> = range_column(h, row, row + 1);
            assert(carry@ =~= self.column(12 + n));
            cols.push(carry);
        }
        cols
    }

    /// Felt `4 + c` enters its lane at the head of its block.
    pub open spec fn f_absorb(&self) -> spec_fn(int) -> Seq<Wire> {
        |c: int|
            seq![w_times(w_per(11 + (4 + c) / 4), w_minus(w_cur((4 + c) % 4), w_pub(4 + c)))]
    }

    /// The constraints: every row steps through a permutation, the first block absorbs into an empty sponge,
    /// later ones overwrite the head of the rate and carry the rest, and the last row holds the leaf.
    pub open spec fn s_eval(&self) -> Seq<Wire> {
        let n = self.n_felts as int;
        let first = seq![
            w_on_first(w_minus(w_cur(0), w_pub(0))),
            w_on_first(w_minus(w_cur(1), w_pub(1))),
            w_on_first(w_minus(w_cur(2), w_pub(2))),
            w_on_first(w_minus(w_cur(3), w_pub(3))),
            w_on_first(w_cur(4)),
            w_on_first(w_cur(5)),
            w_on_first(w_cur(6)),
            w_on_first(w_cur(7)),
        ];
        let short = if self.s_rem() < 4 {
            flat(4 - self.s_rem(), f_lane_carry(12 + self.s_n_blocks(), self.s_rem()))
        } else {
            Seq::empty()
        };
        let term = w_per(11 + self.s_n_blocks());
        let last = seq![
            w_times(term, w_minus(w_cur(0), w_pub(n))),
            w_times(term, w_minus(w_cur(1), w_pub(n + 1))),
            w_times(term, w_minus(w_cur(2), w_pub(n + 2))),
            w_times(term, w_minus(w_cur(3), w_pub(n + 3))),
        ];
        plain_steps(0) + first + flat(n - 4, self.f_absorb()) + flat(4, f_lane_carry(11, 4)) + short + last
    }

    /// The constraint system.
    pub fn eval(&self) -> (out: Vec<Wire>)
        requires
            self.wf(),
        ensures
            out@ == self.s_eval(),
    {
        let mut out: Vec<Wire> = Vec::new();
        emit_plain_steps(&mut out, 0);
        let n: usize = self.n_felts;
        out.push(on_first(&minus(&cur(0), &public(0))));
        out.push(on_first(&minus(&cur(1), &public(1))));
        out.push(on_first(&minus(&cur(2), &public(2))));
        out.push(on_first(&minus(&cur(3), &public(3))));
        out.push(on_first(&cur(4)));
        out.push(on_first(&cur(5)));
        out.push(on_first(&cur(6)));
        out.push(on_first(&cur(7)));
        let ghost base = out@;
        let mut c: usize = 0;
        assert(out@ =~= base + flat(0, self.f_absorb()));
        while c < n - 4
            invariant
                self.wf(),
                n == self.n_felts,
                c <= n - 4,
                out@ == base + flat(c as int, self.f_absorb()),
            decreases n - 4 - c,
        {
            let ghost step = out@;
            let at: usize = 4 + c;
            out.push(times(&per(11 + at / 4), &minus(&cur(at % 4), &public(at))));
            proof {
                assert(out@ =~= step + (self.f_absorb())(c as int));
                lemma_flat_step(base, c as int, self.f_absorb(), out@);
            }
            c += 1;
        }
        emit_lane_carry(&mut out, 11, 4, 4);
        let rem: usize = self.rem();
        if rem < RATE {
            emit_lane_carry(&mut out, self.p_last_carry(), rem, RATE - rem);
        }
        let term: Wire = per(self.p_term());
        out.push(times(&term, &minus(&cur(0), &public(n))));
        out.push(times(&term, &minus(&cur(1), &public(n + 1))));
        out.push(times(&term, &minus(&cur(2), &public(n + 2))));
        out.push(times(&term, &minus(&cur(3), &public(n + 3))));
        assert(out@ =~= self.s_eval());
        out
    }
}

/// The state that enters block `b` of the trace of a leaf hash; blocks past the row go on permuting.
pub open spec fn trace_input(group: Seq<u64>, n: int, b: nat) -> Seq<u64>
    decreases b,
{
    let state = if b == 0 {
        Seq::new(8, |i: int| 0u64)
    } else {
        permuted(trace_input(group, n, (b - 1) as nat))
    };
    if b < n {
        absorbed(state, group, 4 * b as int)
    } else {
        state
    }
}

/// Within the row, the trace runs the sponge; so the block that ends it puts out the leaf hash.
pub proof fn law_trace_reaches_leaf_hash(group: Seq<u64>, b: nat)
    requires
        b < div_up(group.len() as int, 4),
    ensures
        permuted(trace_input(group, div_up(group.len() as int, 4), b)) == sponge(group, (b + 1) as nat),
        b + 1 == div_up(group.len() as int, 4) ==> permuted(
            trace_input(group, div_up(group.len() as int, 4), b),
        ).subrange(0, 4) == leaf_hash(group),
    decreases b,
{
    let n = div_up(group.len() as int, 4);
    if b > 0 {
        law_trace_reaches_leaf_hash(group, (b - 1) as nat);
    }
    assert(trace_input(group, n, b) == absorbed(sponge(group, b), group, 4 * b as int));
}

/// The trace of a leaf hash: one block of rows per permutation. It satisfies the constraints.
pub fn build_general_leaf_trace(group: &Vec<u64>) -> (t: Vec<Vec<u64>>)
    requires
        (GeneralLeafHashAir { n_felts: group@.len() as usize }).wf(),
    ensures
        t@.len() == (GeneralLeafHashAir { n_felts: group@.len() as usize }).s_height(),
        forall|r: int|
            0 <= r < t@.len() ==> (#[trigger] t@[r])@ == block_row(
                trace_input(group@, div_up(group@.len() as int, 4), (r / 32) as nat),
                (r % 32) as nat,
            ),
        forall|b: int|
            0 <= b < t@.len() / 32 ==> block_ends(
                #[trigger] trace_input(group@, div_up(group@.len() as int, 4), b as nat),
            ),
        group@.len() > 0 ==> t@[32 * div_up(group@.len() as int, 4) - 1]@.subrange(0, 4) == leaf_hash(group@),
        reduced(group@) ==> (GeneralLeafHashAir { n_felts: group@.len() as usize }).satisfied(
            contents(t@),
            leaf_publics(group@),
        ),
{
    let air: GeneralLeafHashAir = GeneralLeafHashAir { n_felts: group.len() };
    let n: usize = air.n_blocks();
    proof {
        crate::bits::lemma_next_pow2_of_block((n * BLOCK) as nat);
    }
    let total: usize = air.height() / BLOCK;
    let len: usize = group.len();
    let mut t: Vec<Vec<u64>> = Vec::new();
    let mut state: Vec<u64> = vec![0, 0, 0, 0, 0, 0, 0, 0];
    let mut b: usize = 0;
    assert(state@ =~= Seq::new(8, |i: int| 0u64));
    while b < total
        invariant
            b <= total,
            len == group@.len(),
            n == div_up(group@.len() as int, 4),
            total * 32 <= usize::MAX,
            state@.len() == 8,
            state@ == if b == 0 {
                Seq::new(8, |i: int| 0u64)
            } else {
                permuted(trace_input(group@, n as int, (b - 1) as nat))
            },
            t@.len() == b * 32,
            forall|r: int|
                0 <= r < t@.len() ==> (#[trigger] t@[r])@ == block_row(
                    trace_input(group@, n as int, (r / 32) as nat),
                    (r % 32) as nat,
                ),
            forall|k: int| 0 <= k < b ==> block_ends(#[trigger] trace_input(group@, n as int, k as nat)),
        decreases total - b,
    {
        let ghost before = state@;
        if b < n {
            let at: usize = 4 * b;
            let mut i: usize = 0;
            while i < 4 && i < len - at
                invariant
                    i <= 4,
                    at == 4 * b,
                    len == group@.len(),
                    at + i <= len,
                    state@.len() == 8,
                    before.len() == 8,
                    forall|k: int| 0 <= k < 8 ==> #[trigger] state@[k] == if k < i { group@[at + k] } else { before[k] },
                decreases 4 - i,
            {
                let v: u64 = group[at + i];
                state.set(i, v);
                i += 1;
            }
            assert(state@ =~= absorbed(before, group@, 4 * b));
        }
        assert(state@ == trace_input(group@, n as int, b as nat));
        let rows: Vec<Vec<u64>> = native_steps(&state);
        push_block(&mut t, rows);
        proof {
            assert forall|r: int| 0 <= r < t@.len() implies (#[trigger] t@[r])@ == block_row(
                trace_input(group@, n as int, (r / 32) as nat),
                (r % 32) as nat,
            ) by {
                if r >= b * 32 {
                    assert(r / 32 == b && r % 32 == r - b * 32);
                }
            }
        }
        state = permute(&state);
        b += 1;
    }
    proof {
        if len > 0 {
            crate::bits::lemma_next_pow2((n * BLOCK) as nat);
            lemma_leaf_row(group@, n as int, t@);
        }
        if reduced(group@) {
            lemma_rows_are(group@, t@);
            air.lemma_built_satisfied(group@);
        }
    }
    t
}

/// The last row of the block that ends a leaf holds its hash.
proof fn lemma_leaf_row(group: Seq<u64>, n: int, t: Seq<Vec<u64>>)
    requires
        n == div_up(group.len() as int, 4),
        n > 0,
        32 * n <= t.len(),
        forall|r: int|
            0 <= r < t.len() ==> (#[trigger] t[r])@ == block_row(trace_input(group, n, (r / 32) as nat), (r % 32) as nat),
        block_ends(trace_input(group, n, (n - 1) as nat)),
    ensures
        t[32 * n - 1]@.subrange(0, 4) == leaf_hash(group),
{
    reveal(block_last);
    let last = (n - 1) as nat;
    let r = 32 * n - 1;
    assert(r / 32 == last && r % 32 == 31);
    law_trace_reaches_leaf_hash(group, last);
    assert(t[r]@ == block_row(trace_input(group, n, last), 31));
}

/// Append the rows of a block.
pub(crate) fn push_block(t: &mut Vec<Vec<u64>>, rows: Vec<Vec<u64>>)
    ensures
        final(t)@.len() == old(t)@.len() + rows@.len(),
        forall|r: int| 0 <= r < old(t)@.len() ==> (#[trigger] final(t)@[r])@ == old(t)@[r]@,
        forall|r: int|
            old(t)@.len() <= r < final(t)@.len() ==> (#[trigger] final(t)@[r])@ == rows@[r - old(t)@.len()]@,
{
    let ghost before = t@;
    let mut i: usize = 0;
    while i < rows.len()
        invariant
            i <= rows@.len(),
            t@.len() == before.len() + i,
            forall|r: int| 0 <= r < before.len() ==> (#[trigger] t@[r])@ == before[r]@,
            forall|r: int| before.len() <= r < t@.len() ==> (#[trigger] t@[r])@ == rows@[r - before.len()]@,
        decreases rows.len() - i,
    {
        let row: Vec<u64> = rows[i].clone();
        assert(row@ =~= rows@[i as int]@);
        t.push(row);
        i += 1;
    }
}

} // verus!
