//! The blocks of the built openings satisfy the permutation and link constraints, and lead to the cap entry.

use vstd::prelude::*;

use super::arith::steps;
use super::blocks::{block_holds, opening_block, opening_ends, opening_holds, opening_tail};
use super::grid::{bit_felt, cell, ordered};
use super::layout::MonolithAir;
use super::meaning::{at_step, digest_at, lanes_at, law_link_pairs, law_steps_advance};
use super::reading::row_at;
use crate::bits::div_up;
use crate::emit::flat;
use crate::expr::{value, Window, Wire};
use crate::field::{f_add, f_red, lemma_red_add, MODULUS};
use crate::fri::witness::climbed_by_bits;
use crate::gadgets::traces::{lemma_next_row_reduced, reduced};
use crate::poseidon::{
    absorbed, block_ends, block_last, block_row, ext_layer, leaf_hash, lemma_block_row_len, mat4, next_row, paired,
    permuted, sponge,
};
use crate::vanish::vanish;

verus! {

/// Four lanes through the matrix do not depend on the representatives.
proof fn lemma_mat4_reduced(a: u64, b: u64, c: u64, d: u64)
    ensures
        mat4(f_red(a as int), f_red(b as int), f_red(c as int), f_red(d as int)) == mat4(a, b, c, d),
{
    reveal(mat4);
    let (p, q, r, s) = (f_red(a as int), f_red(b as int), f_red(c as int), f_red(d as int));
    lemma_red_add(a as int, b as int);
    lemma_red_add(p as int, b as int);
    lemma_red_add(c as int, d as int);
    lemma_red_add(r as int, d as int);
    assert(f_add(p, q) == f_add(a, b) && f_add(r, s) == f_add(c, d));
    lemma_red_add(c as int, c as int);
    lemma_red_add(r as int, c as int);
    lemma_red_add(a as int, a as int);
    lemma_red_add(p as int, a as int);
    assert(f_add(r, r) == f_add(c, c) && f_add(p, p) == f_add(a, a));
    let t = f_add(f_add(a, b), f_add(c, d));
    lemma_red_add(t as int, b as int);
    lemma_red_add(t as int, d as int);
}

/// Lanes modulo p.
pub open spec fn reduced_lanes(s: Seq<u64>) -> Seq<u64> {
    Seq::new(8, |i: int| f_red(s[i] as int))
}

/// The external layer does not depend on the representatives.
proof fn lemma_ext_layer_red(s: Seq<u64>)
    ensures
        ext_layer(reduced_lanes(s)) == ext_layer(s),
{
    lemma_mat4_reduced(s[0], s[1], s[2], s[3]);
    lemma_mat4_reduced(s[4], s[5], s[6], s[7]);
}

/// A row behind the first of a block is reduced.
proof fn lemma_later_row(input: Seq<u64>, t: nat)
    requires
        t > 0,
        input.len() == 8,
    ensures
        reduced(block_row(input, t)),
        reduced_lanes(block_row(input, t)) == block_row(input, t),
{
    let s = block_row(input, t);
    lemma_next_row_reduced(block_row(input, (t - 1) as nat), t - 1);
    lemma_block_row_len(input, t);
    assert(reduced_lanes(s) =~= s);
}

/// The next state of the reduced lanes is that of the state.
pub(super) proof fn lemma_next_of_reduced(input: Seq<u64>, t: nat)
    requires
        input.len() == 8,
    ensures
        next_row(reduced_lanes(block_row(input, t)), t as int) == block_row(input, t + 1),
        reduced_lanes(block_row(input, t + 1)) == block_row(input, t + 1),
{
    lemma_later_row(input, t + 1);
    assert((t + 1 - 1) as nat == t);
    if t == 0 {
        lemma_ext_layer_red(input);
    } else {
        lemma_later_row(input, t);
    }
}

/// The lanes of a row of a block that stands.
proof fn lemma_standing_lanes(g: Seq<u64>, w: int, row: int, input: Seq<u64>, tail: Seq<u64>, t: int)
    requires
        8 <= w,
        input.len() == 8,
        block_holds(g, w, row, input, tail),
        0 <= t < 32,
    ensures
        lanes_at(row_at(g, w, row + t), 0) == reduced_lanes(block_row(input, t as nat)),
{
    let s = block_row(input, t as nat);
    let cells = row_at(g, w, row + t);
    lemma_block_row_len(input, t as nat);
    assert forall|i: int| 0 <= i < 8 implies #[trigger] cells[i] == s[i] by {
        assert(cell(g, w, row + t, i) == (s + tail)[i]);
    }
    assert(lanes_at(cells, 0) =~= reduced_lanes(s));
}

/// On every row of a block that stands in a trace, but its last, the permutation constraints vanish.
#[verifier::spinoff_prover]
#[verifier::rlimit(40)]
pub proof fn law_built_block_steps(
    g: Seq<u64>,
    w: int,
    row: int,
    input: Seq<u64>,
    tail: Seq<u64>,
    gate: Wire,
    win: Window,
    t: int,
)
    requires
        8 <= w,
        input.len() == 8,
        block_holds(g, w, row, input, tail),
        0 <= t < 31,
        win.cur == row_at(g, w, row + t),
        win.nxt == row_at(g, w, row + t + 1),
        at_step(win, t),
        value(gate, win) == 1,
    ensures
        vanish(steps(0, gate), win),
{
    lemma_standing_lanes(g, w, row, input, tail, t);
    lemma_standing_lanes(g, w, row, input, tail, t + 1);
    lemma_next_of_reduced(input, t as nat);
    law_steps_advance(0, gate, win, t);
}

/// The node that block `b` of an opening puts out: the leaf hash behind the leaf, then the nodes of the path.
pub open spec fn node_after(preimage: Seq<u64>, siblings: Seq<Seq<u64>>, bits: Seq<bool>, b: int) -> Seq<u64> {
    climbed_by_bits(leaf_hash(preimage), siblings, bits, (b + 1 - div_up(preimage.len() as int, 4)) as nat)
}

/// The output of a block of an opening from the last of its leaf on.
proof fn lemma_node_after(preimage: Seq<u64>, siblings: Seq<Seq<u64>>, bits: Seq<bool>, b: int)
    requires
        preimage.len() > 0,
        div_up(preimage.len() as int, 4) - 1 <= b < div_up(preimage.len() as int, 4) + siblings.len(),
    ensures
        permuted(opening_block(preimage, siblings, bits, b)).subrange(0, 4) == node_after(preimage, siblings, bits, b),
{
    let n = div_up(preimage.len() as int, 4);
    if b == n - 1 {
        assert((n as nat - 1) as nat == b as nat);
        assert(sponge(preimage, n as nat) == permuted(absorbed(sponge(preimage, b as nat), preimage, 4 * b)));
    } else {
        let l = (b - n) as nat;
        assert((b + 1 - n) as nat == l + 1);
        assert((l + 1 - 1) as nat == l);
    }
}

/// A block of an opening has eight lanes.
pub(super) proof fn lemma_opening_block_len(preimage: Seq<u64>, siblings: Seq<Seq<u64>>, bits: Seq<bool>, b: int)
    ensures
        opening_block(preimage, siblings, bits, b).len() == 8,
{
}

/// The last row of a block of an opening holds its output.
proof fn lemma_last_row(
    g: Seq<u64>,
    w: int,
    row: int,
    preimage: Seq<u64>,
    siblings: Seq<Seq<u64>>,
    bits: Seq<bool>,
    b: int,
)
    requires
        8 <= w,
        opening_holds(g, w, row, preimage, siblings, bits),
        opening_ends(preimage, siblings, bits),
        0 <= b < div_up(preimage.len() as int, 4) + siblings.len(),
    ensures
        lanes_at(row_at(g, w, row + 32 * b + 31), 0) == permuted(opening_block(preimage, siblings, bits, b)),
{
    let input = opening_block(preimage, siblings, bits, b);
    lemma_opening_block_len(preimage, siblings, bits, b);
    assert(block_holds(g, w, row + 32 * b, input, opening_tail(preimage, siblings, bits, b)));
    assert(block_ends(input));
    reveal(block_last);
    lemma_standing_lanes(g, w, row + 32 * b, input, opening_tail(preimage, siblings, bits, b), 31);
    lemma_later_row(input, 31);
}

/// In the built trace each block of a path starts from the digest before it and its sibling: where the link is on, the
/// link constraints vanish.
#[verifier::spinoff_prover]
#[verifier::rlimit(40)]
pub proof fn law_built_path_links(
    air: MonolithAir,
    g: Seq<u64>,
    w: int,
    row: int,
    preimage: Seq<u64>,
    siblings: Seq<Seq<u64>>,
    bits: Seq<bool>,
    b: int,
    win: Window,
)
    requires
        13 <= w,
        preimage.len() > 0,
        opening_holds(g, w, row, preimage, siblings, bits),
        opening_ends(preimage, siblings, bits),
        forall|i: int| 0 <= i < siblings.len() ==> (#[trigger] siblings[i]).len() == 4,
        div_up(preimage.len() as int, 4) - 1 <= b,
        b + 1 < div_up(preimage.len() as int, 4) + siblings.len(),
        win.cur == row_at(g, w, row + 32 * b + 31),
        win.nxt == row_at(g, w, row + 32 * (b + 1)),
        win.is_transition == 1,
        value(air.s_link_gate(), win) == 1,
    ensures
        vanish(flat(4, air.f_link()), win),
{
    let n = div_up(preimage.len() as int, 4);
    let l = b + 1 - n;
    let (sib, bit) = (siblings[l], bits[l]);
    let input = opening_block(preimage, siblings, bits, b + 1);
    let tail = opening_tail(preimage, siblings, bits, b + 1);
    let node = node_after(preimage, siblings, bits, b);
    assert(sib.len() == 4);
    lemma_last_row(g, w, row, preimage, siblings, bits, b);
    lemma_node_after(preimage, siblings, bits, b);
    lemma_opening_block_len(preimage, siblings, bits, b);
    assert(block_ends(opening_block(preimage, siblings, bits, b)));
    lemma_permuted_len(opening_block(preimage, siblings, bits, b));
    assert(digest_at(win.cur, 0) =~= node) by {
        assert forall|k: int| 0 <= k < 4 implies digest_at(win.cur, 0)[k] == #[trigger] node[k] by {
            assert(digest_at(win.cur, 0)[k] == lanes_at(win.cur, 0)[k]);
        }
    }
    assert(block_holds(g, w, row + 32 * (b + 1), input, tail));
    assert(input == ordered(node, sib, bit));
    lemma_standing_lanes(g, w, row + 32 * (b + 1), input, tail, 0);
    assert(row + 32 * (b + 1) + 0 == row + 32 * (b + 1));
    assert forall|i: int| 8 <= i < 13 implies #[trigger] win.nxt[i] == tail[i - 8] by {
        assert(cell(g, w, row + 32 * (b + 1) + 0, i) == (block_row(input, 0) + tail)[i]);
    }
    assert(win.nxt[12] == bit_felt(bit));
    let (dig, near) = (digest_at(win.cur, 0), digest_at(win.nxt, 8));
    assert(reduced_lanes(input) =~= (if bit {
        paired(near, dig)
    } else {
        paired(dig, near)
    })) by {
        lemma_ordered_reduced(node, sib, bit, dig, near);
    }
    law_link_pairs(air, win);
}

/// What the permutation puts out has eight reduced lanes.
pub(super) proof fn lemma_permuted_len(input: Seq<u64>)
    requires
        input.len() == 8,
        block_ends(input),
    ensures
        permuted(input).len() == 8,
        reduced(permuted(input)),
{
    reveal(block_last);
    lemma_block_row_len(input, 31);
    lemma_later_row(input, 31);
}

/// The inputs of a node, modulo p.
proof fn lemma_ordered_reduced(node: Seq<u64>, sib: Seq<u64>, bit: bool, dig: Seq<u64>, near: Seq<u64>)
    requires
        node.len() == 4,
        sib.len() == 4,
        dig.len() == 4,
        near.len() == 4,
        forall|k: int| 0 <= k < 4 ==> #[trigger] dig[k] == node[k] && dig[k] < MODULUS,
        forall|k: int| 0 <= k < 4 ==> #[trigger] near[k] == f_red(sib[k] as int),
    ensures
        reduced_lanes(ordered(node, sib, bit)) == (if bit {
            paired(near, dig)
        } else {
            paired(dig, near)
        }),
{
    let got = reduced_lanes(ordered(node, sib, bit));
    let want = if bit {
        paired(near, dig)
    } else {
        paired(dig, near)
    };
    assert forall|i: int| 0 <= i < 8 implies got[i] == want[i] by {
        let k = if i < 4 {
            i
        } else {
            i - 4
        };
        assert(dig[k] == node[k] && near[k] == f_red(sib[k] as int));
        assert(f_red(dig[k] as int) == dig[k]);
    }
    assert(got =~= want);
}

/// In the built trace an opening ends in the node that its path leads to from the leaf hash of its preimage.
pub proof fn law_built_path_ends(
    g: Seq<u64>,
    w: int,
    row: int,
    preimage: Seq<u64>,
    siblings: Seq<Seq<u64>>,
    bits: Seq<bool>,
)
    requires
        8 <= w,
        preimage.len() > 0,
        opening_holds(g, w, row, preimage, siblings, bits),
        opening_ends(preimage, siblings, bits),
    ensures
        ({
            let last = div_up(preimage.len() as int, 4) + siblings.len() - 1;
            digest_at(row_at(g, w, row + 32 * last + 31), 0) == climbed_by_bits(
                leaf_hash(preimage),
                siblings,
                bits,
                siblings.len(),
            )
        }),
{
    let last = div_up(preimage.len() as int, 4) + siblings.len() - 1;
    let input = opening_block(preimage, siblings, bits, last);
    lemma_last_row(g, w, row, preimage, siblings, bits, last);
    lemma_node_after(preimage, siblings, bits, last);
    lemma_opening_block_len(preimage, siblings, bits, last);
    assert(block_ends(input));
    lemma_permuted_len(input);
    let cells = row_at(g, w, row + 32 * last + 31);
    let node = node_after(preimage, siblings, bits, last);
    assert forall|k: int| 0 <= k < 4 implies digest_at(cells, 0)[k] == #[trigger] node[k] by {
        assert(digest_at(cells, 0)[k] == lanes_at(cells, 0)[k]);
    }
    assert(digest_at(cells, 0) =~= node);
}

} // verus!
