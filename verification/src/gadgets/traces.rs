//! The trace of the statement fold satisfies its constraints.

use vstd::prelude::*;

use super::agg::{
    fold_input, fold_trace_row, lemma_tile_ends, lemma_tile_rows, padded, running_root, statement_at, statement_digest,
    AggFoldAir, AF_ROOT,
};
use crate::emit::flat;
use crate::expr::{
    lemma_value_canonical, value, w_const, w_cur, w_minus, w_nxt, w_on_first, w_on_transition, w_per, w_plus, w_pub,
    w_times, Expr, Window, Wire,
};
use crate::field::{f_add, f_red, MODULUS};
use crate::monolith::arith::{full_lanes, lanes, partial_lanes, plain_steps, step_wire};
use crate::monolith::meaning::{at_step, lanes_at, law_steps_advance};
use crate::poseidon::{
    block_ends, block_last, block_row, ext_layer, lemma_block_row_len, next_row, paired, permuted, row_constant,
    row_is_full, row_is_init, sbox, schedule, w_ext_layer, w_int_layer,
};
use crate::vanish::{
    lemma_canonical_difference, lemma_const_value, lemma_leaf_values, lemma_op_values, lemma_vanish_flat,
    lemma_vanish_parts, vanish,
};

verus! {

/// A product vanishes where a factor does.
pub(crate) proof fn lemma_zero_product(a: Wire, b: Wire, w: Window)
    requires
        value(a, w) == 0 || value(b, w) == 0,
    ensures
        value(w_times(a, b), w) == 0,
{
    lemma_op_values(a, b, w);
    let (x, y) = (value(a, w) as int, value(b, w) as int);
    assert(x * y == 0) by (nonlinear_arith)
        requires
            x == 0 || y == 0,
    ;
}

/// A switched equation vanishes where the switch is off or the sides agree.
pub(crate) proof fn lemma_switched(on: Wire, a: Wire, b: Wire, w: Window)
    requires
        value(on, w) == 0 || value(a, w) == value(b, w),
    ensures
        value(w_times(on, w_minus(a, b)), w) == 0,
        value(w_on_transition(w_times(on, w_minus(a, b))), w) == 0,
{
    let d = w_minus(a, b);
    lemma_op_values(a, b, w);
    lemma_value_canonical(a, w);
    lemma_value_canonical(b, w);
    lemma_canonical_difference(value(a, w), value(b, w));
    lemma_zero_product(on, d, w);
    let gate: Wire = std::sync::Arc::new(Expr::IsTransition);
    lemma_zero_product(gate, w_times(on, d), w);
}

/// Off the transitions a constraint on them vanishes.
pub(crate) proof fn lemma_no_transition(a: Wire, w: Window)
    requires
        w.is_transition == 0,
    ensures
        value(w_on_transition(a), w) == 0,
{
    let gate: Wire = std::sync::Arc::new(Expr::IsTransition);
    assert(value(gate, w) == 0);
    lemma_zero_product(gate, a, w);
}

/// Behind the first row a constraint on it vanishes, and so does one on a value that is zero.
pub(crate) proof fn lemma_first_only(a: Wire, w: Window)
    requires
        w.is_first == 0 || value(a, w) == 0,
    ensures
        value(w_on_first(a), w) == 0,
{
    let gate: Wire = std::sync::Arc::new(Expr::IsFirstRow);
    assert(w.is_first == 0 ==> value(gate, w) == 0);
    lemma_zero_product(gate, a, w);
}

/// Every entry is reduced.
pub open spec fn reduced(s: Seq<u64>) -> bool {
    forall|i: int| 0 <= i < s.len() ==> #[trigger] s[i] < MODULUS
}

/// A row behind the first of its block is reduced.
pub(crate) proof fn lemma_next_row_reduced(s: Seq<u64>, t: int)
    ensures
        reduced(next_row(s, t)),
{
    if row_is_init(t) {
        lemma_ext_layer_reduced(s);
    } else if row_is_full(t) {
        lemma_ext_layer_reduced(
            Seq::new(
                8,
                |i: int|
                    sbox(f_add(s[i], row_constant(t, i))),
            ),
        );
    }
}

proof fn lemma_ext_layer_reduced(s: Seq<u64>)
    ensures
        reduced(ext_layer(s)),
{
}

/// The rows of a block whose input is reduced are reduced.
pub(crate) proof fn lemma_block_reduced(input: Seq<u64>, t: nat)
    requires
        reduced(input),
    ensures
        reduced(block_row(input, t)),
{
    if t > 0 {
        lemma_next_row_reduced(block_row(input, (t - 1) as nat), t - 1);
    }
}

/// The lanes of a row that starts with a reduced state are that state.
proof fn lemma_lanes_are(row: Seq<u64>, state: Seq<u64>)
    requires
        state.len() == 8,
        reduced(state),
        forall|i: int| 0 <= i < 8 ==> row[i] == #[trigger] state[i],
    ensures
        lanes_at(row, 0) == state,
{
    assert forall|i: int| 0 <= i < 8 implies #[trigger] lanes_at(row, 0)[i] == state[i] by {
        assert(row[i] == state[i]);
        assert(state[i] < MODULUS);
    }
    assert(lanes_at(row, 0) =~= state);
}

/// On a window over row `t` of a block, with the next state in the next row, the permutation constraints vanish.
#[verifier::spinoff_prover]
#[verifier::rlimit(40)]
pub(crate) proof fn lemma_steps_vanish(w: Window, a: Seq<u64>, b: Seq<u64>, t: int)
    requires
        0 <= t < 32,
        forall|j: int| 0 <= j < 11 ==> #[trigger] w.periodic[j] == schedule(j, t),
        w.is_transition == 0 || w.is_transition == 1,
        t < 31 && w.is_transition == 1 ==> {
            &&& a.len() == 8 && reduced(a)
            &&& b.len() == 8 && b == next_row(a, t)
            &&& forall|i: int| 0 <= i < 8 ==> w.cur[i] == #[trigger] a[i]
            &&& forall|i: int| 0 <= i < 8 ==> w.nxt[i] == #[trigger] b[i]
        },
    ensures
        vanish(plain_steps(0), w),
{
    let cs = plain_steps(0);
    if w.is_transition == 0 {
        assert forall|i: int| 0 <= i < cs.len() implies value(#[trigger] cs[i], w) == 0 by {
            lemma_no_transition(step_wire(0, i), w);
        }
    } else if t == 31 {
        assert forall|i: int| 0 <= i < cs.len() implies value(#[trigger] cs[i], w) == 0 by {
            lemma_idle_step(w, i);
        }
    } else {
        lemma_next_row_reduced(a, t);
        lemma_lanes_are(w.cur, a);
        lemma_lanes_are(w.nxt, b);
        assert(at_step(w, t));
        lemma_const_value(1, w);
        law_steps_advance(0, w_const(1), w, t);
    }
}

/// On the last row of a block no round is on.
proof fn lemma_idle_step(w: Window, i: int)
    requires
        forall|j: int| 0 <= j < 11 ==> #[trigger] w.periodic[j] == schedule(j, 31),
        0 <= i < 8,
    ensures
        value(w_on_transition(step_wire(0, i)), w) == 0,
{
    let next = w_nxt(i);
    let (a, b, c) = (
        w_minus(next, w_ext_layer(lanes(0))[i]),
        w_minus(next, w_ext_layer(full_lanes(0))[i]),
        w_minus(next, w_int_layer(partial_lanes(0))[i]),
    );
    assert(w.periodic[0] == 0 && w.periodic[1] == 0 && w.periodic[2] == 0);
    lemma_leaf_values(0, w);
    lemma_leaf_values(1, w);
    lemma_leaf_values(2, w);
    let (x, y, z) = (w_times(w_per(0), a), w_times(w_per(1), b), w_times(w_per(2), c));
    lemma_zero_product(w_per(0), a, w);
    lemma_zero_product(w_per(1), b, w);
    lemma_zero_product(w_per(2), c, w);
    lemma_op_values(x, y, w);
    let xy = w_plus(x, y);
    lemma_op_values(xy, z, w);
    assert(step_wire(0, i) == w_plus(xy, z));
    let gate: Wire = std::sync::Arc::new(Expr::IsTransition);
    lemma_zero_product(gate, step_wire(0, i), w);
}

/// The rows of the trace that folds `n` statements.
pub open spec fn fold_rows(dom: u64, pvs: Seq<u64>, n: nat) -> Seq<Seq<u64>> {
    Seq::new(64 * n, |r: int| fold_trace_row(dom, pvs, r))
}

/// The public values of that trace: the statements, zero past the end, and the root.
pub open spec fn fold_publics(dom: u64, pvs: Seq<u64>, n: nat) -> Seq<u64> {
    Seq::new(n, |i: int| statement_at(pvs, i)) + running_root(dom, pvs, n)
}

/// The blocks that the trace of `n` statements runs end in the permutation's output.
pub open spec fn fold_blocks_end(dom: u64, pvs: Seq<u64>, n: nat) -> bool {
    forall|b: int| 0 <= b < 2 * n ==> block_ends(#[trigger] fold_input(dom, pvs, b))
}

/// A root has four reduced felts.
#[verifier::spinoff_prover]
#[verifier::rlimit(40)]
proof fn lemma_root_reduced(dom: u64, pvs: Seq<u64>, n: nat, t: nat)
    requires
        t <= n,
        fold_blocks_end(dom, pvs, n),
        dom < MODULUS,
        reduced(pvs),
    ensures
        running_root(dom, pvs, t).len() == 4,
        reduced(running_root(dom, pvs, t)),
        t < n ==> statement_digest(dom, statement_at(pvs, t as int)).len() == 4,
        t < n ==> reduced(statement_digest(dom, statement_at(pvs, t as int))),
        t < n ==> reduced(fold_input(dom, pvs, 2 * t as int)),
        t < n ==> reduced(fold_input(dom, pvs, (2 * t + 1) as int)),
    decreases t,
{
    if t < n {
        let d = fold_input(dom, pvs, 2 * t as int);
        lemma_tile_rows(dom, pvs, t as int, 64 * t as int);
        assert(reduced(d)) by {
            assert(d == paired(padded(dom), padded(statement_at(pvs, t as int))));
        }
        lemma_output_reduced(d);
    }
    if t > 0 {
        let before = (t - 1) as nat;
        lemma_root_reduced(dom, pvs, n, before);
        lemma_tile_rows(dom, pvs, before as int, 64 * before as int);
        let e = fold_input(dom, pvs, (2 * before + 1) as int);
        lemma_output_reduced(e);
    }
    if t < n {
        assert(reduced(fold_input(dom, pvs, (2 * t + 1) as int)));
    }
}

/// A digest out of a block with a reduced input.
pub(crate) proof fn lemma_output_reduced(input: Seq<u64>)
    requires
        input.len() == 8,
        reduced(input),
        block_ends(input),
    ensures
        permuted(input).len() == 8,
        reduced(permuted(input).subrange(0, 4)),
        permuted(input).subrange(0, 4).len() == 4,
{
    reveal(block_last);
    lemma_block_row_len(input, 31);
    lemma_block_reduced(input, 31);
}

/// The state in row `r` of the trace.
#[verifier::opaque]
pub open spec fn fold_state_at(dom: u64, pvs: Seq<u64>, r: int) -> Seq<u64> {
    block_row(fold_input(dom, pvs, r / 32), (r % 32) as nat)
}

/// The cells of a row: the block's state, and the root before the statement.
#[verifier::spinoff_prover]
#[verifier::rlimit(40)]
proof fn lemma_fold_cells(dom: u64, pvs: Seq<u64>, n: nat, t: int, r: int)
    requires
        0 <= t < n,
        64 * t <= r < 64 * t + 64,
        fold_blocks_end(dom, pvs, n),
        dom < MODULUS,
        reduced(pvs),
    ensures
        ({
            let row = fold_rows(dom, pvs, n)[r];
            let state = fold_state_at(dom, pvs, r);
            &&& state.len() == 8
            &&& reduced(state)
            &&& forall|i: int| 0 <= i < 8 ==> #[trigger] row[i] == state[i]
            &&& row.subrange(8, 12) == running_root(dom, pvs, t as nat)
            &&& row.len() == 12
            &&& running_root(dom, pvs, t as nat).len() == 4
        }),
{
    reveal(fold_state_at);
    lemma_root_reduced(dom, pvs, n, t as nat);
    assert(r / 64 == t);
    if r < 64 * t + 32 {
        assert(r / 32 == 2 * t);
    } else {
        assert(r / 32 == 2 * t + 1);
    }
    lemma_tile_rows(dom, pvs, t, r);
    let input = fold_input(dom, pvs, r / 32);
    assert(input.len() == 8);
    lemma_block_row_len(input, (r % 32) as nat);
    lemma_block_reduced(input, (r % 32) as nat);
    let row = fold_trace_row(dom, pvs, r);
    assert(row.subrange(8, 12) =~= running_root(dom, pvs, t as nat));
}

/// Within a block each state is the next of the one before.
proof fn lemma_fold_steps(dom: u64, pvs: Seq<u64>, r: int)
    requires
        0 <= r,
        r % 32 < 31,
    ensures
        fold_state_at(dom, pvs, r + 1) == next_row(fold_state_at(dom, pvs, r), r % 32),
{
    reveal(fold_state_at);
    let t = (r % 32 + 1) as nat;
    assert((r + 1) / 32 == r / 32 && (r + 1) % 32 == t);
    assert((t - 1) as nat == (r % 32) as nat);
}

/// The first and the last states of a tile's blocks.
proof fn lemma_fold_ends(dom: u64, pvs: Seq<u64>, n: nat, t: int)
    requires
        0 <= t < n,
        fold_blocks_end(dom, pvs, n),
    ensures
        fold_state_at(dom, pvs, 64 * t) == paired(padded(dom), padded(statement_at(pvs, t))),
        fold_state_at(dom, pvs, 64 * t + 32) == paired(
            running_root(dom, pvs, t as nat),
            statement_digest(dom, statement_at(pvs, t)),
        ),
        fold_rows(dom, pvs, n)[64 * t + 31].subrange(0, 4) == statement_digest(dom, statement_at(pvs, t)),
        fold_rows(dom, pvs, n)[64 * t + 63].subrange(0, 4) == running_root(dom, pvs, (t + 1) as nat),
{
    reveal(fold_state_at);
    assert((64 * t) / 32 == 2 * t && (64 * t) % 32 == 0);
    assert((64 * t + 32) / 32 == 2 * t + 1 && (64 * t + 32) % 32 == 0);
    lemma_tile_rows(dom, pvs, t, 64 * t);
    lemma_tile_ends(dom, pvs, t);
}

/// Tile `t` of a trace: its blocks start and end as they should, beside the root before its statement.
pub open spec fn tile_laid(rows: Seq<Seq<u64>>, dom: u64, pvs: Seq<u64>, t: int) -> bool {
    let digest = statement_digest(dom, statement_at(pvs, t));
    let (root, next) = (running_root(dom, pvs, t as nat), running_root(dom, pvs, (t + 1) as nat));
    &&& rows[64 * t].subrange(0, 8) == paired(padded(dom), padded(statement_at(pvs, t)))
    &&& rows[64 * t + 31].subrange(0, 4) == digest
    &&& rows[64 * t + 32].subrange(0, 8) == paired(root, digest)
    &&& rows[64 * t + 63].subrange(0, 4) == next
    &&& forall|r: int|
        64 * t <= r < 64 * t + 64 ==> (#[trigger] rows[r]).len() == 12 && rows[r].subrange(8, 12) == root
}

/// The tiles of the trace are laid out.
#[verifier::spinoff_prover]
#[verifier::rlimit(40)]
proof fn lemma_tile_laid(dom: u64, pvs: Seq<u64>, n: nat, t: int)
    requires
        0 <= t < n,
        fold_blocks_end(dom, pvs, n),
        dom < MODULUS,
        reduced(pvs),
    ensures
        tile_laid(fold_rows(dom, pvs, n), dom, pvs, t),
{
    let rows = fold_rows(dom, pvs, n);
    lemma_fold_ends(dom, pvs, n, t);
    assert forall|r: int| 64 * t <= r < 64 * t + 64 implies (#[trigger] rows[r]).len() == 12 && rows[r].subrange(8, 12)
        == running_root(dom, pvs, t as nat) by {
        lemma_fold_cells(dom, pvs, n, t, r);
    }
    let (a, b) = (fold_state_at(dom, pvs, 64 * t), fold_state_at(dom, pvs, 64 * t + 32));
    lemma_fold_cells(dom, pvs, n, t, 64 * t);
    lemma_fold_cells(dom, pvs, n, t, 64 * t + 32);
    assert(rows[64 * t].subrange(0, 8) =~= a);
    assert(rows[64 * t + 32].subrange(0, 8) =~= b);
}

/// The first cells of a row.
pub(crate) proof fn lemma_head_cells(row: Seq<u64>, n: int, i: int)
    requires
        0 <= i < n <= row.len(),
    ensures
        row[i] == row.subrange(0, n)[i],
{
}

impl AggFoldAir {
    /// The trace fills its height, over reduced statements.
    spec fn tiled(&self, pvs: Seq<u64>) -> bool {
        &&& self.wf()
        &&& self.s_height() == 64 * self.n_tiles
        &&& self.dom < MODULUS
        &&& reduced(pvs)
        &&& fold_blocks_end(self.dom, pvs, self.n_tiles as nat)
    }

    spec fn built_window(&self, pvs: Seq<u64>, r: int) -> Window {
        let n = self.n_tiles as nat;
        self.window_at(fold_rows(self.dom, pvs, n), fold_publics(self.dom, pvs, n), r)
    }

    /// Every row steps through its block.
    #[verifier::spinoff_prover]
    #[verifier::rlimit(40)]
    proof fn lemma_built_steps(&self, pvs: Seq<u64>, r: int)
        requires
            self.tiled(pvs),
            0 <= r < self.s_height(),
        ensures
            vanish(plain_steps(0), self.built_window(pvs, r)),
    {
        let w = self.built_window(pvs, r);
        let (n, at) = (self.n_tiles as nat, r % 32);
        let (a, b) = (fold_state_at(self.dom, pvs, r), fold_state_at(self.dom, pvs, r + 1));
        assert forall|j: int| 0 <= j < 11 implies #[trigger] w.periodic[j] == schedule(j, at) by {
            assert(self.column(j).len() == 32);
        }
        if at < 31 && r < self.s_height() - 1 {
            vstd::arithmetic::div_mod::lemma_small_mod((r + 1) as nat, self.s_height() as nat);
            lemma_fold_cells(self.dom, pvs, n, r / 64, r);
            lemma_fold_cells(self.dom, pvs, n, (r + 1) / 64, r + 1);
            lemma_fold_steps(self.dom, pvs, r);
        }
        lemma_steps_vanish(w, a, b, at);
    }

    /// The rows are laid out tile by tile, with the statements and the root public.
    spec fn laid(&self, rows: Seq<Seq<u64>>, pubs: Seq<u64>, pvs: Seq<u64>) -> bool {
        let n = self.n_tiles as nat;
        &&& self.wf()
        &&& rows.len() == self.s_height() == 64 * self.n_tiles
        &&& forall|t: int| 0 <= t < n ==> #[trigger] tile_laid(rows, self.dom, pvs, t)
        &&& forall|t: int| 0 <= t < n ==> #[trigger] pubs[t] == statement_at(pvs, t)
        &&& forall|k: int| 0 <= k < 4 ==> pubs[n + k] == #[trigger] running_root(self.dom, pvs, n)[k]
    }

    /// A digest block is seeded.
    #[verifier::spinoff_prover]
    #[verifier::rlimit(40)]
    proof fn lemma_laid_seed(&self, rows: Seq<Seq<u64>>, pubs: Seq<u64>, pvs: Seq<u64>, r: int, t: int)
        requires
            self.laid(rows, pubs, pvs),
            0 <= r < self.s_height(),
            0 <= t < self.n_tiles,
        ensures
            vanish(self.s_seed(t), self.window_at(rows, pubs, r)),
    {
        let w = self.window_at(rows, pubs, r);
        let on = w_per(12 + t);
        self.lemma_mark(rows, pubs, r, 12 + t);
        let (tag, pv) = (w_const(self.dom), w_pub(t));
        assert(value(tag, w) == f_red(self.dom as int) && value(pv, w) == f_red(w.publics[t] as int));
        if r == 64 * t {
            assert(tile_laid(rows, self.dom, pvs, t));
            assert(rows[r].len() == 12);
            assert(pubs[t] == statement_at(pvs, t));
            assert forall|i: int| 0 <= i < 8 implies w.cur[i] == #[trigger] paired(padded(self.dom), padded(pubs[t]))[i] by {
                lemma_head_cells(rows[r], 8, i);
            }
            let s = paired(padded(self.dom), padded(pubs[t]));
            assert(s[0] == self.dom && s[1] == 0 && s[2] == 0 && s[3] == 0 && s[4] == pubs[t] && s[5] == 0 && s[6] == 0
                && s[7] == 0);
        }
        lemma_leaf_values(0, w);
        lemma_leaf_values(1, w);
        lemma_leaf_values(2, w);
        lemma_leaf_values(3, w);
        lemma_leaf_values(4, w);
        lemma_leaf_values(5, w);
        lemma_leaf_values(6, w);
        lemma_leaf_values(7, w);
        lemma_switched(on, w_cur(0), tag, w);
        lemma_switched(on, w_cur(4), pv, w);
        lemma_zero_product(on, w_cur(1), w);
        lemma_zero_product(on, w_cur(2), w);
        lemma_zero_product(on, w_cur(3), w);
        lemma_zero_product(on, w_cur(5), w);
        lemma_zero_product(on, w_cur(6), w);
        lemma_zero_product(on, w_cur(7), w);
    }

    /// The digest enters the root block.
    proof fn lemma_laid_digest(&self, rows: Seq<Seq<u64>>, pubs: Seq<u64>, pvs: Seq<u64>, r: int, k: int)
        requires
            self.laid(rows, pubs, pvs),
            0 <= r < self.s_height(),
            0 <= k < 4,
        ensures
            vanish(self.f_digest_out()(k), self.window_at(rows, pubs, r)),
    {
        let w = self.window_at(rows, pubs, r);
        let t = r / 64;
        let on = w_per(13 + self.n_tiles);
        self.lemma_mark(rows, pubs, r, 13 + self.n_tiles);
        lemma_leaf_values(4 + k, w);
        lemma_leaf_values(k, w);
        if self.marks(13 + self.n_tiles, r) {
            assert(r == 64 * t + 31);
            assert(tile_laid(rows, self.dom, pvs, t));
            vstd::arithmetic::div_mod::lemma_small_mod((r + 1) as nat, self.s_height() as nat);
            assert(rows[r].len() == 12 && rows[r + 1].len() == 12);
            lemma_head_cells(rows[r], 4, k);
            lemma_head_cells(rows[r + 1], 8, 4 + k);
        }
        lemma_switched(on, w_nxt(4 + k), w_cur(k), w);
    }

    /// A root block starts from the running root.
    proof fn lemma_laid_root_in(&self, rows: Seq<Seq<u64>>, pubs: Seq<u64>, pvs: Seq<u64>, r: int, k: int)
        requires
            self.laid(rows, pubs, pvs),
            0 <= r < self.s_height(),
            0 <= k < 4,
        ensures
            vanish(self.f_root_in()(k), self.window_at(rows, pubs, r)),
    {
        let w = self.window_at(rows, pubs, r);
        let t = r / 64;
        let on = w_per(12 + self.n_tiles);
        self.lemma_mark(rows, pubs, r, 12 + self.n_tiles);
        lemma_leaf_values(AF_ROOT + k, w);
        lemma_leaf_values(k, w);
        if self.marks(12 + self.n_tiles, r) {
            assert(r == 64 * t + 32);
            assert(tile_laid(rows, self.dom, pvs, t));
            assert(rows[r].len() == 12);
            lemma_head_cells(rows[r], 8, k);
            assert(rows[r].subrange(8, 12)[k] == rows[r][8 + k]);
        }
        lemma_switched(on, w_cur(k), w_cur(AF_ROOT + k), w);
    }

    /// The running root starts at zero.
    proof fn lemma_laid_root_start(&self, rows: Seq<Seq<u64>>, pubs: Seq<u64>, pvs: Seq<u64>, r: int, k: int)
        requires
            self.laid(rows, pubs, pvs),
            0 <= r < self.s_height(),
            0 <= k < 4,
        ensures
            vanish(self.f_root_start()(k), self.window_at(rows, pubs, r)),
    {
        let w = self.window_at(rows, pubs, r);
        lemma_leaf_values(AF_ROOT + k, w);
        if r == 0 {
            assert(tile_laid(rows, self.dom, pvs, 0));
            assert(rows[r].subrange(8, 12)[k] == rows[r][8 + k]);
            assert(running_root(self.dom, pvs, 0)[k] == 0);
        }
        lemma_first_only(w_cur(AF_ROOT + k), w);
    }

    /// The running root is held within a tile and moves at its end.
    #[verifier::spinoff_prover]
    #[verifier::rlimit(40)]
    proof fn lemma_laid_root_hold(&self, rows: Seq<Seq<u64>>, pubs: Seq<u64>, pvs: Seq<u64>, r: int, k: int)
        requires
            self.laid(rows, pubs, pvs),
            0 <= r < self.s_height(),
            0 <= k < 4,
        ensures
            vanish(self.f_root_hold()(k), self.window_at(rows, pubs, r)),
    {
        let w = self.window_at(rows, pubs, r);
        let (t, h) = (r / 64, self.s_height());
        let on = w_per(14 + self.n_tiles);
        let off = w_minus(w_const(1), on);
        let (a, b, c) = (w_nxt(AF_ROOT + k), w_cur(AF_ROOT + k), w_cur(k));
        self.lemma_mark(rows, pubs, r, 14 + self.n_tiles);
        lemma_const_value(1, w);
        lemma_op_values(w_const(1), on, w);
        lemma_leaf_values(AF_ROOT + k, w);
        lemma_leaf_values(k, w);
        if r == h - 1 {
            lemma_no_transition(w_times(off, w_minus(a, b)), w);
            lemma_no_transition(w_times(on, w_minus(a, c)), w);
        } else {
            vstd::arithmetic::div_mod::lemma_small_mod((r + 1) as nat, h as nat);
            let q = (r + 1) / 64;
            assert(tile_laid(rows, self.dom, pvs, t));
            assert(tile_laid(rows, self.dom, pvs, q));
            assert(rows[r].len() == 12 && rows[r + 1].len() == 12);
            assert(rows[r].subrange(8, 12)[k] == rows[r][8 + k]);
            assert(rows[r + 1].subrange(8, 12)[k] == rows[r + 1][8 + k]);
            if self.marks(14 + self.n_tiles, r) {
                assert(r == 64 * t + 63);
                assert(q == t + 1);
                lemma_head_cells(rows[r], 4, k);
            } else {
                assert(r != 64 * t + 63);
                assert(q == t);
            }
            lemma_switched(off, a, b, w);
            lemma_switched(on, a, c, w);
        }
    }

    /// The last root is public.
    proof fn lemma_laid_root_out(&self, rows: Seq<Seq<u64>>, pubs: Seq<u64>, pvs: Seq<u64>, r: int, k: int)
        requires
            self.laid(rows, pubs, pvs),
            0 <= r < self.s_height(),
            0 <= k < 4,
        ensures
            vanish(self.f_root_out()(k), self.window_at(rows, pubs, r)),
    {
        let w = self.window_at(rows, pubs, r);
        let n = self.n_tiles as int;
        let on = w_per(15 + self.n_tiles);
        self.lemma_mark(rows, pubs, r, 15 + self.n_tiles);
        lemma_leaf_values(k, w);
        assert(value(w_pub(n + k), w) == f_red(w.publics[n + k] as int));
        if self.marks(15 + self.n_tiles, r) {
            let t = n - 1;
            assert(r == 64 * t + 63);
            assert(tile_laid(rows, self.dom, pvs, t));
            assert(rows[r].len() == 12);
            lemma_head_cells(rows[r], 4, k);
            assert(pubs[n + k] == running_root(self.dom, pvs, n as nat)[k]);
        }
        lemma_switched(on, w_cur(k), w_pub(n + k), w);
    }

    /// The built trace satisfies the constraints.
    pub(crate) proof fn lemma_built_satisfied(&self, pvs: Seq<u64>)
        requires
            self.wf(),
            self.s_height() == 64 * self.n_tiles,
            self.dom < MODULUS,
            reduced(pvs),
            fold_blocks_end(self.dom, pvs, self.n_tiles as nat),
        ensures
            self.satisfied(
                fold_rows(self.dom, pvs, self.n_tiles as nat),
                fold_publics(self.dom, pvs, self.n_tiles as nat),
            ),
    {
        let n = self.n_tiles as nat;
        let (rows, pubs) = (fold_rows(self.dom, pvs, n), fold_publics(self.dom, pvs, n));
        assert forall|t: int| 0 <= t < n implies #[trigger] tile_laid(rows, self.dom, pvs, t) by {
            lemma_tile_laid(self.dom, pvs, n, t);
        }
        lemma_root_reduced(self.dom, pvs, n, n);
        assert(self.laid(rows, pubs, pvs));
        assert forall|r: int| 0 <= r < rows.len() implies vanish(
            self.s_eval(),
            #[trigger] self.window_at(rows, pubs, r),
        ) by {
            self.lemma_built_steps(pvs, r);
            self.lemma_laid_row(rows, pubs, pvs, r);
        }
    }

    /// All constraints vanish on a row of a trace that is laid out and steps through its blocks.
    proof fn lemma_laid_row(&self, rows: Seq<Seq<u64>>, pubs: Seq<u64>, pvs: Seq<u64>, r: int)
        requires
            self.laid(rows, pubs, pvs),
            0 <= r < self.s_height(),
            vanish(plain_steps(0), self.window_at(rows, pubs, r)),
        ensures
            vanish(self.s_eval(), self.window_at(rows, pubs, r)),
    {
        let w = self.window_at(rows, pubs, r);
        let n = self.n_tiles as int;
        assert forall|t: int| 0 <= t < n implies vanish(#[trigger] self.f_seed()(t), w) by {
            self.lemma_laid_seed(rows, pubs, pvs, r, t);
        }
        assert forall|k: int| 0 <= k < 4 implies vanish(#[trigger] self.f_digest_out()(k), w) by {
            self.lemma_laid_digest(rows, pubs, pvs, r, k);
        }
        assert forall|k: int| 0 <= k < 4 implies vanish(#[trigger] self.f_root_in()(k), w) by {
            self.lemma_laid_root_in(rows, pubs, pvs, r, k);
        }
        assert forall|k: int| 0 <= k < 4 implies vanish(#[trigger] self.f_root_start()(k), w) by {
            self.lemma_laid_root_start(rows, pubs, pvs, r, k);
        }
        assert forall|k: int| 0 <= k < 4 implies vanish(#[trigger] self.f_root_hold()(k), w) by {
            self.lemma_laid_root_hold(rows, pubs, pvs, r, k);
        }
        assert forall|k: int| 0 <= k < 4 implies vanish(#[trigger] self.f_root_out()(k), w) by {
            self.lemma_laid_root_out(rows, pubs, pvs, r, k);
        }
        lemma_vanish_flat(n, self.f_seed(), w);
        lemma_vanish_flat(4, self.f_digest_out(), w);
        lemma_vanish_flat(4, self.f_root_in(), w);
        lemma_vanish_flat(4, self.f_root_start(), w);
        lemma_vanish_flat(4, self.f_root_hold(), w);
        lemma_vanish_flat(4, self.f_root_out(), w);
        let (a, b, c) = (plain_steps(0), flat(n, self.f_seed()), flat(4, self.f_digest_out()));
        let (d, e, f) = (flat(4, self.f_root_in()), flat(4, self.f_root_start()), flat(4, self.f_root_hold()));
        let g = flat(4, self.f_root_out());
        lemma_vanish_parts(a, b, w);
        lemma_vanish_parts(a + b, c, w);
        lemma_vanish_parts(a + b + c, d, w);
        lemma_vanish_parts(a + b + c + d, e, w);
        lemma_vanish_parts(a + b + c + d + e, f, w);
        lemma_vanish_parts(a + b + c + d + e + f, g, w);
    }
}

} // verus!
