//! The trace of a leaf hash satisfies its constraints.

use vstd::prelude::*;

use super::leaf::{law_trace_reaches_leaf_hash, trace_input, GeneralLeafHashAir};
use super::traces::{
    lemma_block_reduced, lemma_first_only, lemma_no_transition, lemma_output_reduced, lemma_steps_vanish,
    lemma_switched, reduced,
};
use crate::bits::div_up;
use crate::emit::flat;
use crate::expr::{value, w_cur, w_minus, w_nxt, w_on_first, w_per, w_pub, w_times, Window};
use crate::field::f_red;
use crate::fri::merkle::contents;
use crate::monolith::arith::plain_steps;
use crate::monolith::eval::f_lane_carry;
use crate::monolith::layout::BLOCK;
use crate::poseidon::{
    absorbed, block_ends, block_last, block_row, leaf_hash, lemma_block_row_len, next_row, permuted, schedule,
};
use crate::vanish::{
    lemma_canonical_difference, lemma_leaf_values, lemma_op_values, lemma_vanish_flat, lemma_vanish_parts, vanish,
};

verus! {

/// The state that enters block `b` of the leaf's trace.
pub open spec fn leaf_block(group: Seq<u64>, b: int) -> Seq<u64> {
    trace_input(group, div_up(group.len() as int, 4), b as nat)
}

/// The state in row `r` of the leaf's trace.
#[verifier::opaque]
pub open spec fn leaf_state_at(group: Seq<u64>, r: int) -> Seq<u64> {
    block_row(leaf_block(group, r / 32), (r % 32) as nat)
}

/// The first `n` blocks end in the permutation's output.
pub open spec fn leaf_blocks_end(group: Seq<u64>, n: int) -> bool {
    forall|b: int| 0 <= b < n ==> block_ends(#[trigger] leaf_block(group, b))
}

/// The public values of the trace: the felts, and their leaf.
pub open spec fn leaf_publics(group: Seq<u64>) -> Seq<u64> {
    group + leaf_hash(group)
}

/// What enters a block behind the first: the output of the one before, the rate overwritten by the next felts.
proof fn lemma_leaf_block(group: Seq<u64>, b: int)
    requires
        0 < b,
    ensures
        ({
            let before = permuted(leaf_block(group, b - 1));
            leaf_block(group, b) == (if b < div_up(group.len() as int, 4) {
                absorbed(before, group, 4 * b)
            } else {
                before
            })
        }),
{
    assert((b as nat - 1) as nat == (b - 1) as nat);
}

/// The states that enter the blocks are reduced.
proof fn lemma_leaf_reduced(group: Seq<u64>, n: int, b: int)
    requires
        0 <= b < n,
        reduced(group),
        leaf_blocks_end(group, n),
    ensures
        leaf_block(group, b).len() == 8,
        reduced(leaf_block(group, b)),
        permuted(leaf_block(group, b)).len() == 8,
        reduced(permuted(leaf_block(group, b))),
    decreases b,
{
    if b > 0 {
        lemma_leaf_reduced(group, n, b - 1);
        lemma_leaf_block(group, b);
    }
    let input = leaf_block(group, b);
    assert(block_ends(input));
    reveal(block_last);
    lemma_block_row_len(input, 31);
    lemma_block_reduced(input, 31);
}

/// The states of a row, of the first row of a block and of the last.
proof fn lemma_leaf_state(group: Seq<u64>, n: int, r: int)
    requires
        0 <= r < 32 * n,
        reduced(group),
        leaf_blocks_end(group, n),
    ensures
        leaf_state_at(group, r).len() == 8,
        reduced(leaf_state_at(group, r)),
        r % 32 == 0 ==> leaf_state_at(group, r) == leaf_block(group, r / 32),
        r % 32 == 31 ==> leaf_state_at(group, r) == permuted(leaf_block(group, r / 32)),
        r % 32 < 31 ==> leaf_state_at(group, r + 1) == next_row(leaf_state_at(group, r), r % 32),
{
    reveal(leaf_state_at);
    let b = r / 32;
    lemma_leaf_reduced(group, n, b);
    let input = leaf_block(group, b);
    lemma_block_row_len(input, (r % 32) as nat);
    lemma_block_reduced(input, (r % 32) as nat);
    assert(block_ends(input));
    reveal(block_last);
    if r % 32 < 31 {
        let t = (r % 32 + 1) as nat;
        assert((r + 1) / 32 == b && (r + 1) % 32 == t);
        assert((t - 1) as nat == (r % 32) as nat);
    }
}

/// The rows of the leaf's trace.
pub open spec fn leaf_rows(group: Seq<u64>, h: int) -> Seq<Seq<u64>> {
    Seq::new(h as nat, |r: int| leaf_state_at(group, r))
}

impl GeneralLeafHashAir {
    /// The felts are those of the layout and reduced, and all blocks of the trace end in the permutation's output.
    spec fn holds_leaf(&self, group: Seq<u64>) -> bool {
        &&& self.wf()
        &&& group.len() == self.n_felts
        &&& reduced(group)
        &&& self.s_height() % 32 == 0
        &&& leaf_blocks_end(group, self.s_height() / 32)
    }

    spec fn built_window(&self, group: Seq<u64>, r: int) -> Window {
        self.window_at(leaf_rows(group, self.s_height()), leaf_publics(group), r)
    }

    /// Every row steps through its block.
    proof fn lemma_built_steps(&self, group: Seq<u64>, r: int)
        requires
            self.holds_leaf(group),
            0 <= r < self.s_height(),
        ensures
            vanish(plain_steps(0), self.built_window(group, r)),
    {
        let w = self.built_window(group, r);
        let (h, at) = (self.s_height(), r % 32);
        let (a, b) = (leaf_state_at(group, r), leaf_state_at(group, r + 1));
        self.lemma_sizes();
        assert forall|j: int| 0 <= j < 11 implies #[trigger] w.periodic[j] == schedule(j, at) by {
            assert(self.column(j).len() == 32);
        }
        if at < 31 && r < h - 1 {
            vstd::arithmetic::div_mod::lemma_small_mod((r + 1) as nat, h as nat);
            lemma_leaf_state(group, h / 32, r);
            lemma_leaf_state(group, h / 32, r + 1);
        }
        lemma_steps_vanish(w, a, b, at);
    }

    /// The first block absorbs into an empty sponge.
    #[verifier::spinoff_prover]
    #[verifier::rlimit(40)]
    proof fn lemma_built_first(&self, group: Seq<u64>, r: int)
        requires
            self.holds_leaf(group),
            0 <= r < self.s_height(),
        ensures
            vanish(self.first_wires(), self.built_window(group, r)),
    {
        let w = self.built_window(group, r);
        let cs = self.first_wires();
        self.lemma_sizes();
        if r == 0 {
            lemma_leaf_state(group, self.s_height() / 32, r);
            assert(w.cur == absorbed(Seq::new(8, |i: int| 0u64), group, 0));
            assert(w.publics[0] == group[0] && w.publics[1] == group[1] && w.publics[2] == group[2] && w.publics[3]
                == group[3]);
        }
        lemma_first_match(0, w);
        lemma_first_match(1, w);
        lemma_first_match(2, w);
        lemma_first_match(3, w);
        lemma_leaf_values(4, w);
        lemma_leaf_values(5, w);
        lemma_leaf_values(6, w);
        lemma_leaf_values(7, w);
        lemma_first_only(w_cur(4), w);
        lemma_first_only(w_cur(5), w);
        lemma_first_only(w_cur(6), w);
        lemma_first_only(w_cur(7), w);
    }

    /// A felt enters its lane at the head of its block.
    proof fn lemma_built_absorb(&self, group: Seq<u64>, r: int, c: int)
        requires
            self.holds_leaf(group),
            0 <= r < self.s_height(),
            0 <= c < self.n_felts - 4,
        ensures
            vanish(self.f_absorb()(c), self.built_window(group, r)),
    {
        let w = self.built_window(group, r);
        let (b, i) = ((4 + c) / 4, (4 + c) % 4);
        self.lemma_sizes();
        assert(1 <= b < self.s_n_blocks());
        self.lemma_mark(leaf_rows(group, self.s_height()), leaf_publics(group), r, 11 + b);
        lemma_leaf_values(i, w);
        assert(value(w_pub(4 + c), w) == f_red(w.publics[4 + c] as int));
        if self.marks(11 + b, r) {
            assert(r == 32 * b);
            assert(r % 32 == 0 && r / 32 == b);
            lemma_leaf_state(group, self.s_height() / 32, r);
            lemma_leaf_block(group, b);
            assert(w.cur[i] == group[4 * b + i]);
        }
        lemma_switched(w_per(11 + b), w_cur(i), w_pub(4 + c), w);
    }

    /// A lane that the next block does not overwrite carries over.
    proof fn lemma_built_carry(&self, group: Seq<u64>, r: int, i: int)
        requires
            self.holds_leaf(group),
            0 <= r < self.s_height() - 1,
            r % 32 == 31,
            0 <= i < 8,
            i >= 4 || 4 * (r / 32 + 1) + i >= group.len(),
        ensures
            self.built_window(group, r).nxt[i] == self.built_window(group, r).cur[i],
    {
        let h = self.s_height();
        vstd::arithmetic::div_mod::lemma_small_mod((r + 1) as nat, h as nat);
        lemma_leaf_state(group, h / 32, r);
        lemma_leaf_state(group, h / 32, r + 1);
        assert((r + 1) / 32 == r / 32 + 1 && (r + 1) % 32 == 0);
        lemma_leaf_block(group, r / 32 + 1);
        lemma_leaf_reduced(group, h / 32, r / 32);
    }

    /// The capacity carries from block to block.
    proof fn lemma_built_capacity(&self, group: Seq<u64>, r: int, i: int)
        requires
            self.holds_leaf(group),
            0 <= r < self.s_height(),
            0 <= i < 4,
        ensures
            vanish(f_lane_carry(11, 4)(i), self.built_window(group, r)),
    {
        let w = self.built_window(group, r);
        self.lemma_sizes();
        self.lemma_mark(leaf_rows(group, self.s_height()), leaf_publics(group), r, 11);
        lemma_leaf_values(4 + i, w);
        let (a, b) = (w_nxt(4 + i), w_cur(4 + i));
        if r == self.s_height() - 1 {
            lemma_no_transition(w_times(w_per(11), w_minus(a, b)), w);
        } else {
            if self.marks(11, r) {
                self.lemma_built_carry(group, r, 4 + i);
            }
            lemma_switched(w_per(11), a, b, w);
        }
    }

    /// The lanes that a short last block leaves carry over.
    proof fn lemma_built_short(&self, group: Seq<u64>, r: int)
        requires
            self.holds_leaf(group),
            0 <= r < self.s_height(),
        ensures
            vanish(self.short_wires(), self.built_window(group, r)),
    {
        let w = self.built_window(group, r);
        self.lemma_sizes();
        if self.s_rem() < 4 {
            let (n, rem) = (self.s_n_blocks(), self.s_rem());
            let f = f_lane_carry(12 + n, rem);
            self.lemma_mark(leaf_rows(group, self.s_height()), leaf_publics(group), r, 12 + n);
            assert forall|i: int| 0 <= i < 4 - rem implies vanish(#[trigger] f(i), w) by {
                lemma_leaf_values(rem + i, w);
                let (a, b) = (w_nxt(rem + i), w_cur(rem + i));
                if self.marks(12 + n, r) {
                    assert(r == 32 * (n - 2) + 31);
                    self.lemma_built_carry(group, r, rem + i);
                }
                lemma_switched(w_per(12 + n), a, b, w);
            }
            lemma_vanish_flat(4 - rem, f, w);
        }
    }

    /// The last row of the last block holds the leaf.
    #[verifier::spinoff_prover]
    #[verifier::rlimit(40)]
    proof fn lemma_built_last(&self, group: Seq<u64>, r: int)
        requires
            self.holds_leaf(group),
            0 <= r < self.s_height(),
        ensures
            vanish(self.last_wires(), self.built_window(group, r)),
    {
        let w = self.built_window(group, r);
        let (n, felts) = (self.s_n_blocks(), self.n_felts as int);
        let on = w_per(11 + n);
        self.lemma_sizes();
        self.lemma_mark(leaf_rows(group, self.s_height()), leaf_publics(group), r, 11 + n);
        assert forall|k: int| 0 <= k < 4 implies value(
            w_times(on, w_minus(#[trigger] w_cur(k), w_pub(felts + k))),
            w,
        ) == 0 by {
            lemma_leaf_values(k, w);
            assert(value(w_pub(felts + k), w) == f_red(w.publics[felts + k] as int));
            if self.marks(11 + n, r) {
                assert(r == 32 * (n - 1) + 31);
                lemma_leaf_state(group, self.s_height() / 32, r);
                lemma_leaf_reduced(group, self.s_height() / 32, n - 1);
                law_trace_reaches_leaf_hash(group, (n - 1) as nat);
                assert(w.cur[k] == leaf_hash(group)[k]);
                assert(w.publics[felts + k] == leaf_hash(group)[k]);
            }
            lemma_switched(on, w_cur(k), w_pub(felts + k), w);
        }
        let cs = self.last_wires();
        assert(cs[0] == w_times(on, w_minus(w_cur(0), w_pub(felts + 0))));
        assert(cs[1] == w_times(on, w_minus(w_cur(1), w_pub(felts + 1))));
        assert(cs[2] == w_times(on, w_minus(w_cur(2), w_pub(felts + 2))));
        assert(cs[3] == w_times(on, w_minus(w_cur(3), w_pub(felts + 3))));
    }

    /// The leaf that the trace ends in is reduced.
    proof fn lemma_publics_reduced(&self, group: Seq<u64>)
        requires
            self.holds_leaf(group),
        ensures
            leaf_publics(group).len() == self.n_felts + 4,
            reduced(leaf_publics(group)),
    {
        self.lemma_sizes();
        let n = self.s_n_blocks();
        lemma_leaf_reduced(group, self.s_height() / 32, n - 1);
        law_trace_reaches_leaf_hash(group, (n - 1) as nat);
        lemma_output_reduced(leaf_block(group, n - 1));
    }

    /// The built trace satisfies the constraints.
    pub(crate) proof fn lemma_built_satisfied(&self, group: Seq<u64>)
        requires
            self.wf(),
            group.len() == self.n_felts,
            reduced(group),
            leaf_blocks_end(group, self.s_height() / 32),
        ensures
            self.satisfied(leaf_rows(group, self.s_height()), leaf_publics(group)),
    {
        self.lemma_sizes();
        crate::bits::lemma_next_pow2_of_block((self.s_n_blocks() * BLOCK) as nat);
        let (rows, pubs) = (leaf_rows(group, self.s_height()), leaf_publics(group));
        self.lemma_publics_reduced(group);
        assert forall|r: int| 0 <= r < rows.len() implies vanish(
            self.s_eval(),
            #[trigger] self.window_at(rows, pubs, r),
        ) by {
            self.lemma_built_row(group, r);
        }
    }

    #[verifier::spinoff_prover]
    #[verifier::rlimit(40)]
    proof fn lemma_built_row(&self, group: Seq<u64>, r: int)
        requires
            self.holds_leaf(group),
            0 <= r < self.s_height(),
        ensures
            vanish(self.s_eval(), self.built_window(group, r)),
    {
        let w = self.built_window(group, r);
        self.lemma_built_steps(group, r);
        self.lemma_built_first(group, r);
        self.lemma_built_short(group, r);
        self.lemma_built_last(group, r);
        assert forall|c: int| 0 <= c < self.n_felts - 4 implies vanish(#[trigger] self.f_absorb()(c), w) by {
            self.lemma_built_absorb(group, r, c);
        }
        assert forall|i: int| 0 <= i < 4 implies vanish(#[trigger] f_lane_carry(11, 4)(i), w) by {
            self.lemma_built_capacity(group, r, i);
        }
        lemma_vanish_flat(self.n_felts - 4, self.f_absorb(), w);
        lemma_vanish_flat(4, f_lane_carry(11, 4), w);
        let (a, b, c) = (plain_steps(0), self.first_wires(), flat(self.n_felts - 4, self.f_absorb()));
        let (d, e, f) = (flat(4, f_lane_carry(11, 4)), self.short_wires(), self.last_wires());
        assert(self.s_eval() == a + b + c + d + e + f);
        lemma_vanish_parts(a, b, w);
        lemma_vanish_parts(a + b, c, w);
        lemma_vanish_parts(a + b + c, d, w);
        lemma_vanish_parts(a + b + c + d, e, w);
        lemma_vanish_parts(a + b + c + d + e, f, w);
    }
}

/// A felt of the first row.
proof fn lemma_first_match(i: int, w: Window)
    requires
        0 <= i < 4,
        w.is_first == 0 || w.cur[i] == w.publics[i],
    ensures
        value(w_on_first(w_minus(w_cur(i), w_pub(i))), w) == 0,
{
    lemma_leaf_values(i, w);
    lemma_op_values(w_cur(i), w_pub(i), w);
    assert(value(w_pub(i), w) == f_red(w.publics[i] as int));
    lemma_canonical_difference(f_red(w.cur[i] as int), f_red(w.publics[i] as int));
    lemma_first_only(w_minus(w_cur(i), w_pub(i)), w);
}

/// The rows that a builder lays out block by block are those of the trace.
pub(crate) proof fn lemma_rows_are(group: Seq<u64>, t: Seq<Vec<u64>>)
    requires
        forall|r: int|
            0 <= r < t.len() ==> (#[trigger] t[r])@ == block_row(
                trace_input(group, div_up(group.len() as int, 4), (r / 32) as nat),
                (r % 32) as nat,
            ),
    ensures
        contents(t) == leaf_rows(group, t.len() as int),
{
    reveal(leaf_state_at);
    assert(contents(t) =~= leaf_rows(group, t.len() as int));
}

} // verus!
