//! The leaf blocks of the built openings satisfy the absorb constraints.

use vstd::prelude::*;

use super::blocks::{block_holds, opening_block, opening_ends, opening_holds, opening_tail};
use super::eval::{f_lane_carry, f_leaf_absorb, f_leaf_empty, f_leaf_head, leaf_wires};
use super::grid::cell;
use super::reading::row_at;
use crate::bits::div_up;
use crate::emit::flat;
use crate::expr::{w_cur, w_nxt, w_per, Window};
use crate::gadgets::traces::{lemma_switched, lemma_zero_product};
use crate::poseidon::{absorbed, block_ends, block_last, block_row, lemma_block_row_len, permuted, sponge};
use crate::vanish::{lemma_leaf_values, lemma_vanish_flat, lemma_vanish_parts, vanish};

verus! {

/// A mark: one where it holds, else zero.
pub open spec fn mark(on: bool) -> u64 {
    if on {
        1
    } else {
        0
    }
}

/// The selectors of a leaf on its row `r`: its head, the heads of its later blocks, its inner boundaries and the
/// boundary into a short last block.
pub open spec fn leaf_selected(win: Window, head: int, absorb: int, felts: int, r: int) -> bool {
    let n = div_up(felts, 4);
    &&& win.periodic[head] == mark(r == 0)
    &&& forall|b: int| 1 <= b < n ==> #[trigger] win.periodic[absorb + b - 1] == mark(r == 32 * b)
    &&& n > 1 ==> win.periodic[absorb + n - 1] == mark(r % 32 == 31 && r < 32 * (n - 1))
    &&& n > 1 && felts % 4 != 0 ==> win.periodic[absorb + n] == mark(r == 32 * (n - 2) + 31)
}

/// A cell of a leaf block.
proof fn lemma_leaf_cell(
    g: Seq<u64>,
    w: int,
    row: int,
    preimage: Seq<u64>,
    siblings: Seq<Seq<u64>>,
    bits: Seq<bool>,
    b: int,
    t: int,
    c: int,
)
    requires
        8 <= w,
        opening_holds(g, w, row, preimage, siblings, bits),
        0 <= b < div_up(preimage.len() as int, 4),
        0 <= t < 32,
        0 <= c < 8,
    ensures
        row_at(g, w, row + 32 * b + t)[c] == block_row(
            absorbed(sponge(preimage, b as nat), preimage, 4 * b),
            t as nat,
        )[c],
{
    let input = opening_block(preimage, siblings, bits, b);
    let tail = opening_tail(preimage, siblings, bits, b);
    assert(block_holds(g, w, row + 32 * b, input, tail));
    lemma_block_row_len(input, t as nat);
    assert(cell(g, w, row + 32 * b + t, c) == (block_row(input, t as nat) + tail)[c]);
}

/// The first row of a leaf block is its input.
pub(super) proof fn lemma_leaf_first(
    g: Seq<u64>,
    w: int,
    row: int,
    preimage: Seq<u64>,
    siblings: Seq<Seq<u64>>,
    bits: Seq<bool>,
    b: int,
    c: int,
)
    requires
        8 <= w,
        opening_holds(g, w, row, preimage, siblings, bits),
        0 <= b < div_up(preimage.len() as int, 4),
        0 <= c < 8,
    ensures
        row_at(g, w, row + 32 * b)[c] == absorbed(sponge(preimage, b as nat), preimage, 4 * b)[c],
{
    lemma_leaf_cell(g, w, row, preimage, siblings, bits, b, 0, c);
    assert(row + 32 * b + 0 == row + 32 * b);
}

/// A lane that the next block does not overwrite carries over.
pub(super) proof fn lemma_lane_carries(
    g: Seq<u64>,
    w: int,
    row: int,
    preimage: Seq<u64>,
    siblings: Seq<Seq<u64>>,
    bits: Seq<bool>,
    b: int,
    c: int,
)
    requires
        8 <= w,
        opening_holds(g, w, row, preimage, siblings, bits),
        opening_ends(preimage, siblings, bits),
        0 <= b,
        b + 1 < div_up(preimage.len() as int, 4),
        0 <= c < 8,
        c >= 4 || 4 * (b + 1) + c >= preimage.len(),
    ensures
        row_at(g, w, row + 32 * b + 31)[c] == row_at(g, w, row + 32 * b + 32)[c],
{
    let input = absorbed(sponge(preimage, b as nat), preimage, 4 * b);
    lemma_leaf_cell(g, w, row, preimage, siblings, bits, b, 31, c);
    lemma_leaf_first(g, w, row, preimage, siblings, bits, b + 1, c);
    assert(row + 32 * (b + 1) == row + 32 * b + 32);
    assert(input == opening_block(preimage, siblings, bits, b));
    assert(block_ends(input));
    reveal(block_last);
    assert(((b + 1) as nat - 1) as nat == b as nat);
    assert(sponge(preimage, (b + 1) as nat) == permuted(input));
}

/// On every row of the leaf of a built opening, with the preimage in its carrier columns, the absorb constraints vanish.
#[verifier::spinoff_prover]
#[verifier::rlimit(40)]
pub proof fn law_built_leaf_absorbs(
    g: Seq<u64>,
    w: int,
    row: int,
    preimage: Seq<u64>,
    siblings: Seq<Seq<u64>>,
    bits: Seq<bool>,
    head: int,
    absorb: int,
    carrier: int,
    bind: bool,
    r: int,
    win: Window,
)
    requires
        8 <= w,
        preimage.len() > 0,
        opening_holds(g, w, row, preimage, siblings, bits),
        opening_ends(preimage, siblings, bits),
        0 <= r < 32 * div_up(preimage.len() as int, 4),
        win.cur == row_at(g, w, row + r),
        win.nxt == row_at(g, w, row + r + 1),
        0 <= head <= usize::MAX,
        0 <= absorb,
        div_up(preimage.len() as int, 4) > 1 ==> absorb + div_up(preimage.len() as int, 4) <= usize::MAX,
        bind ==> 0 <= carrier && carrier + preimage.len() <= usize::MAX,
        bind ==> forall|c: int| 0 <= c < preimage.len() ==> win.cur[#[trigger] (carrier + c)] == preimage[c],
        leaf_selected(win, head, absorb, preimage.len() as int, r),
    ensures
        vanish(leaf_wires(head, absorb, carrier, preimage.len() as int, bind), win),
{
    reveal(leaf_wires);
    let felts = preimage.len() as int;
    let n = div_up(felts, 4);
    let first = if felts < 4 {
        felts
    } else {
        4
    };
    lemma_leaf_values(head, win);
    // The head row.
    let bound = if bind {
        flat(first, f_leaf_head(head, carrier))
    } else {
        Seq::empty()
    };
    if bind {
        assert forall|c: int| 0 <= c < first implies vanish(#[trigger] f_leaf_head(head, carrier)(c), win) by {
            lemma_leaf_values(c, win);
            lemma_leaf_values(carrier + c, win);
            assert(win.cur[carrier + c] == preimage[c]);
            if r == 0 {
                lemma_leaf_first(g, w, row, preimage, siblings, bits, 0, c);
            }
            lemma_switched(w_per(head), w_cur(c), w_cur(carrier + c), win);
        }
        lemma_vanish_flat(first, f_leaf_head(head, carrier), win);
    }
    let empty = flat(8 - first, f_leaf_empty(head, first));
    assert forall|i: int| 0 <= i < 8 - first implies vanish(#[trigger] f_leaf_empty(head, first)(i), win) by {
        lemma_leaf_values(first + i, win);
        if r == 0 {
            lemma_leaf_first(g, w, row, preimage, siblings, bits, 0, first + i);
        }
        lemma_zero_product(w_per(head), w_cur(first + i), win);
    }
    lemma_vanish_flat(8 - first, f_leaf_empty(head, first), win);
    // The later blocks.
    let later = if bind && felts > 4 {
        flat(felts - 4, f_leaf_absorb(absorb, carrier))
    } else {
        Seq::empty()
    };
    if bind && felts > 4 {
        assert forall|c: int| 0 <= c < felts - 4 implies vanish(#[trigger] f_leaf_absorb(absorb, carrier)(c), win) by {
            let (b, i) = ((4 + c) / 4, (4 + c) % 4);
            assert(1 <= b < n);
            lemma_leaf_values(absorb + b - 1, win);
            lemma_leaf_values(i, win);
            lemma_leaf_values(carrier + 4 + c, win);
            assert(win.cur[carrier + (4 + c)] == preimage[4 + c]);
            assert(win.periodic[absorb + b - 1] == mark(r == 32 * b));
            if r == 32 * b {
                lemma_leaf_first(g, w, row, preimage, siblings, bits, b, i);
                assert(4 * b + i == 4 + c);
            }
            lemma_switched(w_per(absorb + b - 1), w_cur(i), w_cur(carrier + 4 + c), win);
        }
        lemma_vanish_flat(felts - 4, f_leaf_absorb(absorb, carrier), win);
    }
    let carry = if n > 1 {
        flat(4, f_lane_carry(absorb + n - 1, 4)) + if felts % 4 != 0 {
            flat(4 - felts % 4, f_lane_carry(absorb + n, felts % 4))
        } else {
            Seq::empty()
        }
    } else {
        Seq::empty()
    };
    if n > 1 {
        lemma_carries(g, w, row, preimage, siblings, bits, head, absorb, r, win);
    }
    lemma_vanish_parts(bound, empty, win);
    lemma_vanish_parts(bound + empty, later, win);
    lemma_vanish_parts(bound + empty + later, carry, win);
}

/// The lanes between the blocks of a leaf.
#[verifier::spinoff_prover]
#[verifier::rlimit(40)]
proof fn lemma_carries(
    g: Seq<u64>,
    w: int,
    row: int,
    preimage: Seq<u64>,
    siblings: Seq<Seq<u64>>,
    bits: Seq<bool>,
    head: int,
    absorb: int,
    r: int,
    win: Window,
)
    requires
        8 <= w,
        opening_holds(g, w, row, preimage, siblings, bits),
        opening_ends(preimage, siblings, bits),
        0 <= r < 32 * div_up(preimage.len() as int, 4),
        win.cur == row_at(g, w, row + r),
        win.nxt == row_at(g, w, row + r + 1),
        0 <= absorb,
        absorb + div_up(preimage.len() as int, 4) <= usize::MAX,
        leaf_selected(win, head, absorb, preimage.len() as int, r),
        div_up(preimage.len() as int, 4) > 1,
    ensures
        ({
            let (felts, n) = (preimage.len() as int, div_up(preimage.len() as int, 4));
            vanish(
                flat(4, f_lane_carry(absorb + n - 1, 4)) + if felts % 4 != 0 {
                    flat(4 - felts % 4, f_lane_carry(absorb + n, felts % 4))
                } else {
                    Seq::empty()
                },
                win,
            )
        }),
{
    let felts = preimage.len() as int;
    let n = div_up(felts, 4);
    let f = f_lane_carry(absorb + n - 1, 4);
    lemma_leaf_values(absorb + n - 1, win);
    assert forall|i: int| 0 <= i < 4 implies vanish(#[trigger] f(i), win) by {
        lemma_leaf_values(4 + i, win);
        if r % 32 == 31 && r < 32 * (n - 1) {
            let b = r / 32;
            assert(r == 32 * b + 31);
            lemma_lane_carries(g, w, row, preimage, siblings, bits, b, 4 + i);
        }
        lemma_switched(w_per(absorb + n - 1), w_nxt(4 + i), w_cur(4 + i), win);
    }
    lemma_vanish_flat(4, f, win);
    let rest = if felts % 4 != 0 {
        flat(4 - felts % 4, f_lane_carry(absorb + n, felts % 4))
    } else {
        Seq::empty()
    };
    if felts % 4 != 0 {
        let s = f_lane_carry(absorb + n, felts % 4);
        lemma_leaf_values(absorb + n, win);
        assert forall|i: int| 0 <= i < 4 - felts % 4 implies vanish(#[trigger] s(i), win) by {
            let c = felts % 4 + i;
            lemma_leaf_values(c, win);
            if r == 32 * (n - 2) + 31 {
                assert(4 * (n - 1) + c >= felts);
                lemma_lane_carries(g, w, row, preimage, siblings, bits, n - 2, c);
            }
            lemma_switched(w_per(absorb + n), w_nxt(c), w_cur(c), win);
        }
        lemma_vanish_flat(4 - felts % 4, s, win);
    }
    lemma_vanish_parts(flat(4, f), rest, win);
}

} // verus!
