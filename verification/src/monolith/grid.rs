//! Writing cells of a trace that is kept row by row in one vector.

use vstd::prelude::*;

use super::blocks::{opening_block, path_ends};
use super::layout::{BLOCK, W};
use crate::bits::div_up;
use crate::fri::merkle::contents;
use crate::fri::witness::climbed_by_bits;
use crate::poseidon::{
    absorbed, block_ends, block_row, leaf_hash, lemma_block_row_len, leaf_hash_blocks, merge, native_steps, paired,
    sponge,
};

verus! {

/// The cells with those from `at` on replaced by `vs`.
#[verifier::opaque]
pub open spec fn spliced(g: Seq<u64>, at: int, vs: Seq<u64>) -> Seq<u64> {
    Seq::new(
        g.len(),
        |i: int|
            if at <= i < at + vs.len() {
                vs[i - at]
            } else {
                g[i]
            },
    )
}

/// `vs` written into row `row` from column `col` on, of a trace of width `w`.
pub open spec fn written(g: Seq<u64>, w: int, row: int, col: int, vs: Seq<u64>) -> Seq<u64> {
    spliced(g, row * w + col, vs)
}

/// `vs` written into `n` rows from `row` on.
pub open spec fn held(g: Seq<u64>, w: int, row: int, n: nat, col: int, vs: Seq<u64>) -> Seq<u64>
    decreases n,
{
    if n == 0 {
        g
    } else {
        written(held(g, w, row, (n - 1) as nat, col, vs), w, row + n - 1, col, vs)
    }
}

/// The first `n` rows of a permutation block, each followed by `tail`.
pub open spec fn block_written(g: Seq<u64>, w: int, row: int, col: int, input: Seq<u64>, tail: Seq<u64>, n: nat) -> Seq<u64>
    decreases n,
{
    if n == 0 {
        g
    } else {
        written(
            block_written(g, w, row, col, input, tail, (n - 1) as nat),
            w,
            row + n - 1,
            col,
            block_row(input, (n - 1) as nat) + tail,
        )
    }
}

/// The first `n` blocks of a leaf hash.
pub open spec fn leaf_written(g: Seq<u64>, w: int, row: int, preimage: Seq<u64>, n: nat) -> Seq<u64>
    decreases n,
{
    if n == 0 {
        g
    } else {
        block_written(
            leaf_written(g, w, row, preimage, (n - 1) as nat),
            w,
            row + 32 * (n - 1),
            0,
            absorbed(sponge(preimage, (n - 1) as nat), preimage, 4 * (n - 1)),
            Seq::empty(),
            32,
        )
    }
}

/// The inputs of a Merkle node: the sibling comes first where its bit is set.
pub open spec fn ordered(node: Seq<u64>, sibling: Seq<u64>, bit: bool) -> Seq<u64> {
    if bit {
        paired(sibling, node)
    } else {
        paired(node, sibling)
    }
}

/// A bit as a felt.
pub open spec fn bit_felt(b: bool) -> u64 {
    if b {
        1
    } else {
        0
    }
}

/// The first `n` levels of a Merkle path above `leaf`: each a block with its sibling and bit beside it.
pub open spec fn path_written(
    g: Seq<u64>,
    w: int,
    row: int,
    leaf: Seq<u64>,
    siblings: Seq<Seq<u64>>,
    bits: Seq<bool>,
    n: nat,
) -> Seq<u64>
    decreases n,
{
    if n == 0 {
        g
    } else {
        let m = (n - 1) as nat;
        block_written(
            path_written(g, w, row, leaf, siblings, bits, m),
            w,
            row + 32 * m,
            0,
            ordered(climbed_by_bits(leaf, siblings, bits, m), siblings[m as int], bits[m as int]),
            siblings[m as int] + seq![bit_felt(bits[m as int])],
            32,
        )
    }
}

/// A leaf hash and its path.
pub open spec fn opening_written(
    g: Seq<u64>,
    w: int,
    row: int,
    preimage: Seq<u64>,
    siblings: Seq<Seq<u64>>,
    bits: Seq<bool>,
) -> Seq<u64> {
    let blocks = div_up(preimage.len() as int, 4);
    path_written(
        leaf_written(g, w, row, preimage, blocks as nat),
        w,
        row + 32 * blocks,
        leaf_hash(preimage),
        siblings,
        bits,
        siblings.len(),
    )
}

/// A cell of row `row` below `h` stands below h w.
proof fn lemma_cell(row: int, w: int, h: int, col: int, len: int)
    requires
        0 <= row < h,
        0 <= col,
        0 <= len,
        col + len <= w,
    ensures
        0 <= row * w,
        row * w + col + len <= h * w,
{
    assert(0 <= row * w) by (nonlinear_arith)
        requires
            0 <= row,
            0 <= w,
    ;
    assert(row * w + w <= h * w) by (nonlinear_arith)
        requires
            row + 1 <= h,
            0 <= w,
    ;
}

/// The cell in row `r` and column `c` of a trace of width `w`.
pub open spec fn cell(g: Seq<u64>, w: int, r: int, c: int) -> u64 {
    g[r * w + c]
}

/// A cell after a write: the written value in the written run of its row, else the cell before.
pub proof fn law_written_cell(g: Seq<u64>, w: int, row: int, col: int, vs: Seq<u64>, r: int, c: int)
    requires
        0 <= c < w,
        0 <= col,
        col + vs.len() <= w,
        0 <= r,
        r * w + c < g.len(),
    ensures
        written(g, w, row, col, vs).len() == g.len(),
        cell(written(g, w, row, col, vs), w, r, c) == (if r == row && col <= c < col + vs.len() {
            vs[c - col]
        } else {
            cell(g, w, r, c)
        }),
{
    reveal(spliced);
    assert(0 <= r * w) by (nonlinear_arith)
        requires
            0 <= r,
            0 <= w,
    ;
    if r < row {
        assert(r * w + w <= row * w) by (nonlinear_arith)
            requires
                r + 1 <= row,
                0 <= w,
        ;
    } else if r > row {
        assert(row * w + w <= r * w) by (nonlinear_arith)
            requires
                row + 1 <= r,
                0 <= w,
        ;
    }
}

/// A permutation block leaves the cells outside its rows and columns alone.
pub proof fn law_block_keeps_others(
    g: Seq<u64>,
    w: int,
    row: int,
    col: int,
    input: Seq<u64>,
    tail: Seq<u64>,
    n: nat,
    r: int,
    c: int,
)
    requires
        0 <= c < w,
        0 <= col,
        input.len() == 8,
        col + 8 + tail.len() <= w,
        0 <= r,
        r * w + c < g.len(),
        c < col || c >= col + 8 + tail.len() || r < row || r >= row + n,
    ensures
        block_written(g, w, row, col, input, tail, n).len() == g.len(),
        cell(block_written(g, w, row, col, input, tail, n), w, r, c) == cell(g, w, r, c),
    decreases n,
{
    if n > 0 {
        let m = (n - 1) as nat;
        law_block_keeps_others(g, w, row, col, input, tail, m, r, c);
        lemma_block_row_len(input, m);
        law_written_cell(
            block_written(g, w, row, col, input, tail, m),
            w,
            row + m,
            col,
            block_row(input, m) + tail,
            r,
            c,
        );
    }
}

/// Write `vs` into a row.
pub(crate) fn put_row(g: &mut Vec<u64>, w: usize, Ghost(h): Ghost<int>, row: usize, col: usize, vs: &Vec<u64>)
    requires
        old(g)@.len() == h * w,
        row < h,
        col + vs@.len() <= w,
    ensures
        final(g)@ == written(old(g)@, w as int, row as int, col as int, vs@),
        final(g)@.len() == h * w,
{
    let ghost before = g@;
    proof {
        lemma_cell(row as int, w as int, h, col as int, vs@.len() as int);
    }
    let len: usize = g.len();
    let at: usize = row * w + col;
    let mut i: usize = 0;
    reveal(spliced);
    while i < vs.len()
        invariant
            i <= vs@.len(),
            at + vs@.len() <= len,
            g@.len() == len,
            before.len() == len,
            g@ =~= spliced(before, at as int, vs@.take(i as int)),
        decreases vs.len() - i,
    {
        reveal(spliced);
        g.set(at + i, vs[i]);
        i += 1;
    }
    assert(vs@.take(i as int) =~= vs@);
}

/// Write `vs` into `n` rows.
pub(crate) fn hold_rows(
    g: &mut Vec<u64>,
    w: usize,
    Ghost(h): Ghost<int>,
    row: usize,
    n: usize,
    col: usize,
    vs: &Vec<u64>,
)
    requires
        old(g)@.len() == h * w,
        row + n <= h,
        row + n <= usize::MAX,
        col + vs@.len() <= w,
    ensures
        final(g)@ == held(old(g)@, w as int, row as int, n as nat, col as int, vs@),
        final(g)@.len() == h * w,
{
    let ghost before = g@;
    let mut i: usize = 0;
    while i < n
        invariant
            i <= n,
            g@.len() == h * w,
            row + n <= h,
            row + n <= usize::MAX,
            col + vs@.len() <= w,
            g@ == held(before, w as int, row as int, i as nat, col as int, vs@),
        decreases n - i,
    {
        put_row(g, w, Ghost(h), row + i, col, vs);
        i += 1;
    }
}

/// Write a permutation block, each row followed by `tail`.
pub(crate) fn put_block(
    g: &mut Vec<u64>,
    w: usize,
    Ghost(h): Ghost<int>,
    row: usize,
    col: usize,
    input: &Vec<u64>,
    tail: &Vec<u64>,
)
    requires
        old(g)@.len() == h * w,
        input@.len() == 8,
        row + 32 <= h,
        row + 32 <= usize::MAX,
        col + 8 + tail@.len() <= w,
    ensures
        final(g)@ == block_written(old(g)@, w as int, row as int, col as int, input@, tail@, 32),
        final(g)@.len() == h * w,
{
    let ghost before = g@;
    let rows: Vec<Vec<u64>> = native_steps(input);
    let mut t: usize = 0;
    while t < BLOCK
        invariant
            t <= BLOCK,
            rows@.len() == BLOCK,
            forall|k: int| 0 <= k < BLOCK ==> (#[trigger] rows@[k])@ == block_row(input@, k as nat),
            forall|k: int| 0 <= k < BLOCK ==> (#[trigger] rows@[k])@.len() == W,
            g@.len() == h * w,
            row + 32 <= h,
            row + 32 <= usize::MAX,
            col + 8 + tail@.len() <= w,
            g@ == block_written(before, w as int, row as int, col as int, input@, tail@, t as nat),
        decreases BLOCK - t,
    {
        let mut cells: Vec<u64> = Vec::new();
        push_felts(&mut cells, &rows[t]);
        push_felts(&mut cells, tail);
        assert(cells@ =~= block_row(input@, t as nat) + tail@);
        put_row(g, w, Ghost(h), row + t, col, &cells);
        t += 1;
    }
}

/// Append a run of felts.
pub(crate) fn push_felts(out: &mut Vec<u64>, v: &Vec<u64>)
    ensures
        final(out)@ == old(out)@ + v@,
{
    let ghost before = out@;
    let mut i: usize = 0;
    while i < v.len()
        invariant
            i <= v@.len(),
            out@ =~= before + v@.take(i as int),
        decreases v.len() - i,
    {
        out.push(v[i]);
        i += 1;
    }
    assert(out@ =~= before + v@);
}

/// Siblings and sides of a Merkle path.
pub struct PathData {
    pub siblings: Vec<Vec<u64>>,
    pub bits: Vec<bool>,
}

impl PathData {
    /// A path of `depth` digests with a bit each.
    pub open spec fn ok(&self, depth: int) -> bool {
        &&& self.siblings@.len() == depth
        &&& self.bits@.len() == depth
        &&& crate::fri::merkle::digests_ok(self.siblings@)
    }

    /// The node that the path leads to from a leaf.
    pub open spec fn top(&self, leaf: Seq<u64>) -> Seq<u64> {
        climbed_by_bits(leaf, contents(self.siblings@), self.bits@, self.siblings@.len())
    }
}

/// Write a leaf hash and its path; the node at its end comes back.
pub(crate) fn put_opening(
    g: &mut Vec<u64>,
    w: usize,
    Ghost(h): Ghost<int>,
    row: usize,
    preimage: &Vec<u64>,
    path: &PathData,
) -> (node: Vec<u64>)
    requires
        old(g)@.len() == h * w,
        path.ok(path.siblings@.len() as int),
        row + 32 * (div_up(preimage@.len() as int, 4) + path.siblings@.len()) <= h,
        row + 32 * (div_up(preimage@.len() as int, 4) + path.siblings@.len()) <= usize::MAX,
        13 <= w,
    ensures
        final(g)@ == opening_written(
            old(g)@,
            w as int,
            row as int,
            preimage@,
            contents(path.siblings@),
            path.bits@,
        ),
        final(g)@.len() == h * w,
        node@ == path.top(leaf_hash(preimage@)),
        node@.len() == 4,
        path_ends(preimage@, *path),
{
    let ghost before = g@;
    let (inputs, leaf): (Vec<Vec<u64>>, Vec<u64>) = leaf_hash_blocks(preimage);
    let blocks: usize = inputs.len();
    let none: Vec<u64> = Vec::new();
    let mut b: usize = 0;
    while b < blocks
        invariant
            b <= blocks,
            blocks == inputs@.len(),
            none@ == Seq::<u64>::empty(),
            blocks == div_up(preimage@.len() as int, 4),
            g@.len() == h * w,
            row + 32 * (blocks + path.siblings@.len()) <= h,
            row + 32 * (blocks + path.siblings@.len()) <= usize::MAX,
            13 <= w,
            forall|k: int|
                0 <= k < inputs@.len() ==> (#[trigger] inputs@[k])@ == absorbed(
                    sponge(preimage@, k as nat),
                    preimage@,
                    4 * k,
                ),
            forall|k: int| 0 <= k < inputs@.len() ==> (#[trigger] inputs@[k])@.len() == W && block_ends(inputs@[k]@),
            g@ == leaf_written(before, w as int, row as int, preimage@, b as nat),
        decreases blocks - b,
    {
        put_block(g, w, Ghost(h), row + 32 * b, 0, &inputs[b], &none);
        b += 1;
    }
    let ghost after_leaf = g@;
    let ghost sibs = contents(path.siblings@);
    let start: usize = row + 32 * blocks;
    let mut node: Vec<u64> = leaf;
    let mut l: usize = 0;
    assert forall|b: int| 0 <= b < blocks implies block_ends(#[trigger] opening_block(preimage@, sibs, path.bits@, b)) by {
        assert(block_ends(inputs@[b]@));
    }
    while l < path.siblings.len()
        invariant
            l <= path.siblings@.len(),
            path.ok(path.siblings@.len() as int),
            sibs == contents(path.siblings@),
            g@.len() == h * w,
            start + 32 * path.siblings@.len() <= h,
            start + 32 * path.siblings@.len() <= usize::MAX,
            13 <= w,
            node@.len() == 4,
            node@ == climbed_by_bits(leaf_hash(preimage@), sibs, path.bits@, l as nat),
            blocks == div_up(preimage@.len() as int, 4),
            blocks == inputs@.len(),
            forall|k: int|
                0 <= k < inputs@.len() ==> (#[trigger] inputs@[k])@ == absorbed(
                    sponge(preimage@, k as nat),
                    preimage@,
                    4 * k,
                ),
            forall|k: int| 0 <= k < inputs@.len() ==> block_ends((#[trigger] inputs@[k])@),
            forall|b: int|
                0 <= b < blocks + l ==> block_ends(#[trigger] opening_block(preimage@, sibs, path.bits@, b)),
            g@ == path_written(
                after_leaf,
                w as int,
                start as int,
                leaf_hash(preimage@),
                sibs,
                path.bits@,
                l as nat,
            ),
        decreases path.siblings.len() - l,
    {
        let sib: &Vec<u64> = &path.siblings[l];
        let bit: bool = path.bits[l];
        assert(path.siblings@[l as int]@.len() == 4);
        assert(sibs[l as int] == sib@);
        let mut input: Vec<u64> = Vec::new();
        if bit {
            push_felts(&mut input, sib);
            push_felts(&mut input, &node);
        } else {
            push_felts(&mut input, &node);
            push_felts(&mut input, sib);
        }
        assert(input@ =~= ordered(node@, sib@, bit));
        let mut tail: Vec<u64> = Vec::new();
        push_felts(&mut tail, sib);
        tail.push(if bit { 1 } else { 0 });
        assert(tail@ =~= sib@ + seq![bit_felt(bit)]);
        put_block(g, w, Ghost(h), start + 32 * l, 0, &input, &tail);
        let up: Vec<u64> = if bit {
            merge(sib, &node)
        } else {
            merge(&node, sib)
        };
        assert(input@ == opening_block(preimage@, sibs, path.bits@, blocks + l));
        node = up;
        l += 1;
    }
    node
}

} // verus!
