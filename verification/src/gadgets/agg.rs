//! Folding statements into one root: each statement is digested behind a domain tag, and the digests are
//! chained from zero, padded to a power of two with the digest of zero.

use vstd::prelude::*;

use crate::bits::{next_pow2, next_power_of_two};
use crate::emit::{flat, lemma_flat_step};
use crate::expr::{
    constant, cur, minus, nxt, on_first, on_transition, per, public, times, w_const, w_cur, w_minus, w_nxt, w_on_first,
    w_on_transition, w_per, w_pub, w_times, Wire,
};
use crate::field::MODULUS;
use crate::fri::merkle::contents;
use crate::gadgets::leaf::push_block;
use crate::gadgets::traces::{fold_blocks_end, fold_publics, fold_rows, reduced};
use crate::monolith::arith::{emit_plain_steps, plain_steps};
use crate::monolith::layout::BLOCK;
use crate::monolith::periodic::indicator;
use crate::poseidon::{
    block_ends, block_last, block_row, compressed, lemma_block_row_len, merge, native_steps, paired, periodic_table,
    permuted, schedule,
};

verus! {

/// Running root, after the permutation lanes.
pub const AF_ROOT: usize = 8;

/// Width of the trace.
pub const AF_W: usize = 12;

/// A felt as a digest.
pub open spec fn padded(x: u64) -> Seq<u64> {
    seq![x, 0, 0, 0]
}

/// The digest of one statement.
pub open spec fn statement_digest(dom: u64, pv: u64) -> Seq<u64> {
    compressed(padded(dom), padded(pv))
}

/// Statement `i`, zero past the end.
pub open spec fn statement_at(pvs: Seq<u64>, i: int) -> u64 {
    if i < pvs.len() {
        pvs[i]
    } else {
        0
    }
}

/// The root after the first `n` statements.
pub open spec fn running_root(dom: u64, pvs: Seq<u64>, n: nat) -> Seq<u64>
    decreases n,
{
    if n == 0 {
        seq![0u64, 0, 0, 0]
    } else {
        compressed(
            running_root(dom, pvs, (n - 1) as nat),
            statement_digest(dom, statement_at(pvs, n - 1)),
        )
    }
}

/// The digest of one statement, by the rows of the permutation.
pub open spec fn rows_digest(dom: u64, pv: u64) -> Seq<u64> {
    block_last(paired(padded(dom), padded(pv))).subrange(0, 4)
}

/// The root after the first `n` statements, by the rows of the permutation.
pub open spec fn rows_root(dom: u64, pvs: Seq<u64>, n: nat) -> Seq<u64>
    decreases n,
{
    if n == 0 {
        seq![0u64, 0, 0, 0]
    } else {
        block_last(
            paired(rows_root(dom, pvs, (n - 1) as nat), rows_digest(dom, statement_at(pvs, n - 1))),
        ).subrange(0, 4)
    }
}

/// How many statements a root covers: a power of two, at least one.
pub open spec fn padded_count(n: nat) -> nat {
    next_pow2(if n == 0 { 1 } else { n })
}

/// The digest of one statement.
pub fn agg_statement_digest(dom: u64, pv: u64) -> (r: Vec<u64>)
    ensures
        r@ == statement_digest(dom, pv),
        r@.len() == 4,
        block_ends(paired(padded(dom), padded(pv))),
{
    let left: Vec<u64> = vec![dom, 0, 0, 0];
    let right: Vec<u64> = vec![pv, 0, 0, 0];
    assert(left@ =~= padded(dom));
    assert(right@ =~= padded(pv));
    merge(&left, &right)
}

/// The root of a list of statements.
pub fn agg_root(dom: u64, pvs: &Vec<u64>) -> (r: Vec<u64>)
    requires
        padded_count(pvs@.len()) <= usize::MAX,
    ensures
        r@ == running_root(dom, pvs@, padded_count(pvs@.len())),
        r@ == rows_root(dom, pvs@, padded_count(pvs@.len())),
        r@.len() == 4,
{
    let n: usize = pvs.len();
    let total: usize = next_power_of_two(
        if n == 0 {
            1
        } else {
            n
        },
    );
    let dummy: Vec<u64> = agg_statement_digest(dom, 0);
    let mut root: Vec<u64> = vec![0, 0, 0, 0];
    assert(root@ =~= running_root(dom, pvs@, 0));
    assert(root@ =~= rows_root(dom, pvs@, 0));
    let mut i: usize = 0;
    while i < total
        invariant
            i <= total,
            n == pvs@.len(),
            dummy@ == statement_digest(dom, 0),
            dummy@.len() == 4,
            block_ends(paired(padded(dom), padded(0))),
            root@ == running_root(dom, pvs@, i as nat),
            root@ == rows_root(dom, pvs@, i as nat),
            root@.len() == 4,
        decreases total - i,
    {
        if i < n {
            let s: Vec<u64> = agg_statement_digest(dom, pvs[i]);
            root = merge(&root, &s);
        } else {
            root = merge(&root, &dummy);
        }
        i += 1;
    }
    root
}

/// Padding is by zero statements: a list and the same list with a zero appended have the same root as long as
/// they cover the same power of two.
pub proof fn law_padding_is_zero_statements(dom: u64, pvs: Seq<u64>, n: nat)
    ensures
        running_root(dom, pvs, n) == running_root(dom, pvs.push(0), n),
    decreases n,
{
    if n > 0 {
        law_padding_is_zero_statements(dom, pvs, (n - 1) as nat);
        assert(statement_at(pvs, n - 1) == statement_at(pvs.push(0), n - 1));
    }
}

/// Extending the list leaves the roots of its prefixes alone.
pub proof fn law_prefix_roots(dom: u64, pvs: Seq<u64>, more: Seq<u64>, n: nat)
    requires
        n <= pvs.len(),
    ensures
        running_root(dom, pvs, n) == running_root(dom, pvs + more, n),
    decreases n,
{
    if n > 0 {
        law_prefix_roots(dom, pvs, more, (n - 1) as nat);
        assert(statement_at(pvs, n - 1) == statement_at(pvs + more, n - 1));
    }
}

/// Proves the root of `n_tiles` public statements.
pub struct AggFoldAir {
    pub n_tiles: usize,
    /// The domain tag that opens a statement digest.
    pub dom: u64,
}

impl AggFoldAir {
    pub open spec fn s_height(&self) -> int {
        next_pow2((2 * self.n_tiles * BLOCK) as nat) as int
    }

    /// There is a statement, and the rows can be counted.
    pub open spec fn wf(&self) -> bool {
        &&& self.n_tiles >= 1
        &&& 2 * self.n_tiles * BLOCK <= usize::MAX
        &&& self.s_height() <= usize::MAX
        &&& self.n_tiles + 16 <= usize::MAX
    }

    /// Rows of the trace: two blocks per statement, padded to a power of two.
    pub fn height(&self) -> (r: usize)
        requires
            self.wf(),
        ensures
            r == self.s_height(),
    {
        next_power_of_two(2 * self.n_tiles * BLOCK)
    }

    /// Periodic column of the first row of digest block `t`.
    pub fn p_sk(&self, t: usize) -> (r: usize)
        requires
            12 + t <= usize::MAX,
        ensures
            r == 12 + t,
    {
        12 + t
    }

    /// Periodic column of the first row of every root block.
    pub fn p_rootin(&self) -> (r: usize)
        requires
            self.wf(),
        ensures
            r == 12 + self.n_tiles,
    {
        12 + self.n_tiles
    }

    /// Periodic column of the last row of every digest block.
    pub fn p_sklast(&self) -> (r: usize)
        requires
            self.wf(),
        ensures
            r == 13 + self.n_tiles,
    {
        self.p_rootin() + 1
    }

    /// Periodic column of the last row of every root block.
    pub fn p_rootupd(&self) -> (r: usize)
        requires
            self.wf(),
        ensures
            r == 14 + self.n_tiles,
    {
        self.p_rootin() + 2
    }

    /// Periodic column of the last row of the last root block.
    pub fn p_term(&self) -> (r: usize)
        requires
            self.wf(),
        ensures
            r == 15 + self.n_tiles,
    {
        self.p_rootin() + 3
    }

    pub fn width(&self) -> (r: usize)
        ensures
            r == 12,
    {
        AF_W
    }

    /// The statements and the root are public.
    pub fn num_public_values(&self) -> (r: usize)
        requires
            self.wf(),
        ensures
            r == self.n_tiles + 4,
    {
        self.n_tiles + 4
    }

    pub fn num_periodic_columns(&self) -> (r: usize)
        requires
            self.wf(),
        ensures
            r == 16 + self.n_tiles,
    {
        self.p_term() + 1
    }

    /// The rows that periodic column `j` marks.
    pub open spec fn marks(&self, j: int, row: int) -> bool {
        let n = self.n_tiles as int;
        let blk = row / (BLOCK as int);
        let at = row % (BLOCK as int);
        if j == 11 {
            row < 2 * n * BLOCK && at == BLOCK - 1
        } else if j < 12 + n {
            row == 2 * (j - 12) * BLOCK
        } else if j == 12 + n {
            row < 2 * n * BLOCK && blk % 2 == 1 && at == 0
        } else if j == 13 + n {
            row < 2 * n * BLOCK && blk % 2 == 0 && at == BLOCK - 1
        } else if j == 14 + n {
            row < 2 * n * BLOCK && blk % 2 == 1 && at == BLOCK - 1
        } else {
            row == (2 * n - 1) * BLOCK + BLOCK - 1
        }
    }

    pub open spec fn column(&self, j: int) -> Seq<u64> {
        if j < 11 {
            Seq::new(BLOCK as nat, |t: int| schedule(j, t))
        } else {
            indicator(self.s_height(), |row: int| self.marks(j, row))
        }
    }

    /// The column of the rows that `marks` names.
    fn marked(&self, j: usize) -> (col: Vec<u64>)
        requires
            self.wf(),
            11 <= j < 16 + self.n_tiles,
        ensures
            col@ == self.column(j as int),
    {
        let h: usize = self.height();
        let n: usize = self.n_tiles;
        let end: usize = 2 * n * BLOCK;
        let mut col: Vec<u64> = Vec::new();
        let mut r: usize = 0;
        while r < h
            invariant
                self.wf(),
                11 <= j < 16 + n,
                n == self.n_tiles,
                r <= h,
                end == 2 * n * BLOCK,
                col@ =~= indicator(r as int, |row: int| self.marks(j as int, row)),
            decreases h - r,
        {
            let blk: usize = r / BLOCK;
            let at: usize = r % BLOCK;
            let hit: bool = if j == 11 {
                r < end && at == BLOCK - 1
            } else if j < 12 + n {
                proof {
                    assert(2 * (j - 12) * BLOCK <= 2 * n * BLOCK);
                }
                r == 2 * (j - 12) * BLOCK
            } else if j == 12 + n {
                r < end && blk % 2 == 1 && at == 0
            } else if j == 13 + n {
                r < end && blk % 2 == 0 && at == BLOCK - 1
            } else if j == 14 + n {
                r < end && blk % 2 == 1 && at == BLOCK - 1
            } else {
                r == (2 * n - 1) * BLOCK + BLOCK - 1
            };
            col.push(
                if hit {
                    1
                } else {
                    0
                },
            );
            r += 1;
        }
        assert(col@ =~= self.column(j as int));
        col
    }

    /// The periodic columns.
    pub fn periodic(&self) -> (cols: Vec<Vec<u64>>)
        requires
            self.wf(),
        ensures
            cols@.len() == 16 + self.n_tiles,
            forall|j: int| 0 <= j < cols@.len() ==> (#[trigger] cols@[j])@ == self.column(j),
    {
        let mut cols: Vec<Vec<u64>> = periodic_table();
        let total: usize = self.num_periodic_columns();
        let mut j: usize = 11;
        while j < total
            invariant
                self.wf(),
                11 <= j <= total,
                total == 16 + self.n_tiles,
                cols@.len() == j,
                forall|k: int| 0 <= k < j ==> (#[trigger] cols@[k])@ == self.column(k),
            decreases total - j,
        {
            cols.push(self.marked(j));
            j += 1;
        }
        cols
    }

    /// Digest block `t` starts from the domain tag and statement `t`.
    pub open spec fn s_seed(&self, t: int) -> Seq<Wire> {
        let on = w_per(12 + t);
        seq![
            w_times(on, w_minus(w_cur(0), w_const(self.dom))),
            w_times(on, w_minus(w_cur(4), w_pub(t))),
            w_times(on, w_cur(1)),
            w_times(on, w_cur(2)),
            w_times(on, w_cur(3)),
            w_times(on, w_cur(5)),
            w_times(on, w_cur(6)),
            w_times(on, w_cur(7)),
        ]
    }

    pub open spec fn f_seed(&self) -> spec_fn(int) -> Seq<Wire> {
        |t: int| self.s_seed(t)
    }

    pub open spec fn f_digest_out(&self) -> spec_fn(int) -> Seq<Wire> {
        |k: int| seq![w_on_transition(w_times(w_per(13 + self.n_tiles), w_minus(w_nxt(4 + k), w_cur(k))))]
    }

    pub open spec fn f_root_in(&self) -> spec_fn(int) -> Seq<Wire> {
        |k: int| seq![w_times(w_per(12 + self.n_tiles), w_minus(w_cur(k), w_cur(AF_ROOT + k)))]
    }

    pub open spec fn f_root_start(&self) -> spec_fn(int) -> Seq<Wire> {
        |k: int| seq![w_on_first(w_cur(AF_ROOT + k))]
    }

    pub open spec fn f_root_hold(&self) -> spec_fn(int) -> Seq<Wire> {
        |k: int|
            {
                let on = w_per(14 + self.n_tiles);
                seq![
                    w_on_transition(
                        w_times(w_minus(w_const(1), on), w_minus(w_nxt(AF_ROOT + k), w_cur(AF_ROOT + k))),
                    ),
                    w_on_transition(w_times(on, w_minus(w_nxt(AF_ROOT + k), w_cur(k)))),
                ]
            }
    }

    pub open spec fn f_root_out(&self) -> spec_fn(int) -> Seq<Wire> {
        |k: int| seq![w_times(w_per(15 + self.n_tiles), w_minus(w_cur(k), w_pub(self.n_tiles + k)))]
    }

    /// The constraints: every row steps through a permutation, digests and roots alternate, the running root
    /// starts at zero, changes only at the end of a root block, and the last one is public.
    pub open spec fn s_eval(&self) -> Seq<Wire> {
        plain_steps(0) + flat(self.n_tiles as int, self.f_seed()) + flat(4, self.f_digest_out()) + flat(
            4,
            self.f_root_in(),
        ) + flat(4, self.f_root_start()) + flat(4, self.f_root_hold()) + flat(4, self.f_root_out())
    }

    /// The constraint system.
    pub fn eval(&self) -> (out: Vec<Wire>)
        requires
            self.wf(),
        ensures
            out@ == self.s_eval(),
    {
        let mut out: Vec<Wire> = Vec::new();
        emit_plain_steps(&mut out, 0);
        let n: usize = self.n_tiles;
        let dom: Wire = constant(self.dom);
        let ghost b0 = out@;
        let mut t: usize = 0;
        assert(out@ =~= b0 + flat(0, self.f_seed()));
        while t < n
            invariant
                self.wf(),
                t <= n == self.n_tiles,
                dom == w_const(self.dom),
                out@ == b0 + flat(t as int, self.f_seed()),
            decreases n - t,
        {
            let ghost step = out@;
            let on: Wire = per(self.p_sk(t));
            out.push(times(&on, &minus(&cur(0), &dom)));
            out.push(times(&on, &minus(&cur(4), &public(t))));
            out.push(times(&on, &cur(1)));
            out.push(times(&on, &cur(2)));
            out.push(times(&on, &cur(3)));
            out.push(times(&on, &cur(5)));
            out.push(times(&on, &cur(6)));
            out.push(times(&on, &cur(7)));
            proof {
                assert(out@ =~= step + self.s_seed(t as int));
                lemma_flat_step(b0, t as int, self.f_seed(), out@);
            }
            t += 1;
        }
        self.emit_lanes(&mut out);
        assert(out@ =~= self.s_eval());
        out
    }

    fn emit_lanes(&self, out: &mut Vec<Wire>)
        requires
            self.wf(),
        ensures
            final(out)@ == old(out)@ + flat(4, self.f_digest_out()) + flat(4, self.f_root_in()) + flat(
                4,
                self.f_root_start(),
            ) + flat(4, self.f_root_hold()) + flat(4, self.f_root_out()),
    {
        let n: usize = self.n_tiles;
        let one: Wire = constant(1);
        let ghost base0 = out@;
        let ghost f0 = self.f_digest_out();
        let mut k: usize = 0;
        assert(out@ =~= base0 + flat(0, f0));
        while k < 4
            invariant
                self.wf(),
                n == self.n_tiles,
                one == w_const(1),
                k <= 4,
                f0 == self.f_digest_out(),
                out@ == base0 + flat(k as int, f0),
            decreases 4 - k,
        {
            let ghost step = out@;
            let on: Wire = per(self.p_sklast());
            out.push(on_transition(&times(&on, &minus(&nxt(4 + k), &cur(k)))));
            proof {
                assert(out@ =~= step + f0(k as int));
                lemma_flat_step(base0, k as int, f0, out@);
            }
            k += 1;
        }
        let ghost base1 = out@;
        let ghost f1 = self.f_root_in();
        let mut k: usize = 0;
        assert(out@ =~= base1 + flat(0, f1));
        while k < 4
            invariant
                self.wf(),
                n == self.n_tiles,
                one == w_const(1),
                k <= 4,
                f1 == self.f_root_in(),
                out@ == base1 + flat(k as int, f1),
            decreases 4 - k,
        {
            let ghost step = out@;
            let on: Wire = per(self.p_rootin());
            out.push(times(&on, &minus(&cur(k), &cur(AF_ROOT + k))));
            proof {
                assert(out@ =~= step + f1(k as int));
                lemma_flat_step(base1, k as int, f1, out@);
            }
            k += 1;
        }
        let ghost base2 = out@;
        let ghost f2 = self.f_root_start();
        let mut k: usize = 0;
        assert(out@ =~= base2 + flat(0, f2));
        while k < 4
            invariant
                self.wf(),
                n == self.n_tiles,
                one == w_const(1),
                k <= 4,
                f2 == self.f_root_start(),
                out@ == base2 + flat(k as int, f2),
            decreases 4 - k,
        {
            let ghost step = out@;
            out.push(on_first(&cur(AF_ROOT + k)));
            proof {
                assert(out@ =~= step + f2(k as int));
                lemma_flat_step(base2, k as int, f2, out@);
            }
            k += 1;
        }
        let ghost base3 = out@;
        let ghost f3 = self.f_root_hold();
        let mut k: usize = 0;
        assert(out@ =~= base3 + flat(0, f3));
        while k < 4
            invariant
                self.wf(),
                n == self.n_tiles,
                one == w_const(1),
                k <= 4,
                f3 == self.f_root_hold(),
                out@ == base3 + flat(k as int, f3),
            decreases 4 - k,
        {
            let ghost step = out@;
            let on: Wire = per(self.p_rootupd());
            out.push(on_transition(&times(&minus(&one, &on), &minus(&nxt(AF_ROOT + k), &cur(AF_ROOT + k)))));
            out.push(on_transition(&times(&on, &minus(&nxt(AF_ROOT + k), &cur(k)))));
            proof {
                assert(out@ =~= step + f3(k as int));
                lemma_flat_step(base3, k as int, f3, out@);
            }
            k += 1;
        }
        let ghost base4 = out@;
        let ghost f4 = self.f_root_out();
        let mut k: usize = 0;
        assert(out@ =~= base4 + flat(0, f4));
        while k < 4
            invariant
                self.wf(),
                n == self.n_tiles,
                one == w_const(1),
                k <= 4,
                f4 == self.f_root_out(),
                out@ == base4 + flat(k as int, f4),
            decreases 4 - k,
        {
            let ghost step = out@;
            let on: Wire = per(self.p_term());
            out.push(times(&on, &minus(&cur(k), &public(n + k))));
            proof {
                assert(out@ =~= step + f4(k as int));
                lemma_flat_step(base4, k as int, f4, out@);
            }
            k += 1;
        }
    }
}

/// The state that enters block `b` of the trace: digest and root blocks alternate.
pub open spec fn fold_input(dom: u64, pvs: Seq<u64>, b: int) -> Seq<u64> {
    let tile = b / 2;
    let pv = statement_at(pvs, tile);
    if b % 2 == 0 {
        paired(padded(dom), padded(pv))
    } else {
        paired(running_root(dom, pvs, tile as nat), statement_digest(dom, pv))
    }
}

/// Row `r` of the trace: the permutation row, and the root before the statement.
pub open spec fn fold_trace_row(dom: u64, pvs: Seq<u64>, r: int) -> Seq<u64> {
    block_row(fold_input(dom, pvs, r / 32), (r % 32) as nat) + running_root(dom, pvs, (r / 64) as nat)
}

/// The rows of one block with the running root beside them.
fn block_with_root(input: &Vec<u64>, root: &Vec<u64>) -> (rows: Vec<Vec<u64>>)
    requires
        input@.len() == 8,
        root@.len() == 4,
    ensures
        rows@.len() == 32,
        forall|t: int| 0 <= t < 32 ==> (#[trigger] rows@[t])@ == block_row(input@, t as nat) + root@,
{
    let steps: Vec<Vec<u64>> = native_steps(input);
    let mut rows: Vec<Vec<u64>> = Vec::new();
    let mut t: usize = 0;
    while t < BLOCK
        invariant
            t <= BLOCK,
            steps@.len() == BLOCK,
            root@.len() == 4,
            forall|u: int| 0 <= u < BLOCK ==> (#[trigger] steps@[u])@ == block_row(input@, u as nat),
            rows@.len() == t,
            forall|u: int| 0 <= u < t ==> (#[trigger] rows@[u])@ == block_row(input@, u as nat) + root@,
        decreases BLOCK - t,
    {
        let mut row: Vec<u64> = steps[t].clone();
        assert(row@ =~= steps@[t as int]@);
        row.push(root[0]);
        row.push(root[1]);
        row.push(root[2]);
        row.push(root[3]);
        assert(row@ =~= block_row(input@, t as nat) + root@);
        rows.push(row);
        t += 1;
    }
    rows
}

/// The rows of a tile, and the root behind it.
fn tile_rows(dom: u64, pv: u64, root: &Vec<u64>) -> (r: (Vec<Vec<u64>>, Vec<u64>))
    requires
        root@.len() == 4,
    ensures
        r.0@.len() == 64,
        forall|k: int|
            0 <= k < 32 ==> (#[trigger] r.0@[k])@ == block_row(paired(padded(dom), padded(pv)), k as nat) + root@,
        forall|k: int|
            32 <= k < 64 ==> (#[trigger] r.0@[k])@ == block_row(
                paired(root@, statement_digest(dom, pv)),
                (k - 32) as nat,
            ) + root@,
        r.1@ == compressed(root@, statement_digest(dom, pv)),
        r.1@.len() == 4,
        block_ends(paired(padded(dom), padded(pv))),
        block_ends(paired(root@, statement_digest(dom, pv))),
{
    let mut rows: Vec<Vec<u64>> = Vec::new();
    let sk_in: Vec<u64> = vec![dom, 0, 0, 0, pv, 0, 0, 0];
    assert(sk_in@ =~= paired(padded(dom), padded(pv)));
    push_block(&mut rows, block_with_root(&sk_in, root));
    let s_k: Vec<u64> = agg_statement_digest(dom, pv);
    let rt_in: Vec<u64> = vec![root[0], root[1], root[2], root[3], s_k[0], s_k[1], s_k[2], s_k[3]];
    assert(rt_in@ =~= paired(root@, statement_digest(dom, pv)));
    push_block(&mut rows, block_with_root(&rt_in, root));
    (rows, merge(root, &s_k))
}

/// The rows of a tile are those of the trace.
pub(crate) proof fn lemma_tile_rows(dom: u64, pvs: Seq<u64>, tile: int, i: int)
    requires
        0 <= tile,
        64 * tile <= i < 64 * tile + 64,
    ensures
        ({
            let pv = statement_at(pvs, tile);
            let root = running_root(dom, pvs, tile as nat);
            let k = i - 64 * tile;
            fold_trace_row(dom, pvs, i) == (if k < 32 {
                block_row(paired(padded(dom), padded(pv)), k as nat) + root
            } else {
                block_row(paired(root, statement_digest(dom, pv)), (k - 32) as nat) + root
            })
        }),
        fold_input(dom, pvs, 2 * tile) == paired(padded(dom), padded(statement_at(pvs, tile))),
        fold_input(dom, pvs, 2 * tile + 1) == paired(
            running_root(dom, pvs, tile as nat),
            statement_digest(dom, statement_at(pvs, tile)),
        ),
{
    assert((2 * tile) / 2 == tile && (2 * tile) % 2 == 0);
    assert((2 * tile + 1) / 2 == tile && (2 * tile + 1) % 2 == 1);
    assert(i / 64 == tile);
    if i < 64 * tile + 32 {
        assert(i / 32 == 2 * tile && i % 32 == i - 64 * tile);
    } else {
        assert(i / 32 == 2 * tile + 1 && i % 32 == i - 64 * tile - 32);
    }
}

/// The trace that folds `n_tiles` statements, those past the end zero, and the root it reaches. Without padding rows it
/// satisfies the constraints.
#[verifier::spinoff_prover]
#[verifier::rlimit(40)]
pub fn build_agg_fold_trace(n_tiles: usize, dom: u64, pvs: &Vec<u64>) -> (r: (Vec<Vec<u64>>, Vec<u64>))
    requires
        (AggFoldAir { n_tiles, dom }).wf(),
    ensures
        r.0@.len() == (AggFoldAir { n_tiles, dom }).s_height(),
        forall|i: int| 0 <= i < 64 * n_tiles ==> (#[trigger] r.0@[i])@ == fold_trace_row(dom, pvs@, i),
        forall|i: int|
            64 * n_tiles <= i < r.0@.len() ==> (#[trigger] r.0@[i])@ == Seq::new(12, |c: int| 0u64),
        r.1@ == running_root(dom, pvs@, n_tiles as nat),
        forall|k: int|
            0 <= k < n_tiles ==> {
                &&& (#[trigger] r.0@[64 * k + 31])@.subrange(0, 4) == statement_digest(dom, statement_at(pvs@, k))
                &&& r.0@[64 * k + 63]@.subrange(0, 4) == running_root(dom, pvs@, (k + 1) as nat)
            },
        64 * n_tiles == r.0@.len() && dom < MODULUS && reduced(pvs@) ==> (AggFoldAir { n_tiles, dom }).satisfied(
            contents(r.0@),
            fold_publics(dom, pvs@, n_tiles as nat),
        ),
{
    let air: AggFoldAir = AggFoldAir { n_tiles, dom };
    let h: usize = air.height();
    proof {
        crate::bits::lemma_next_pow2((2 * n_tiles * BLOCK) as nat);
    }
    let mut t: Vec<Vec<u64>> = Vec::new();
    let mut root: Vec<u64> = vec![0, 0, 0, 0];
    assert(root@ =~= running_root(dom, pvs@, 0));
    let mut tile: usize = 0;
    while tile < n_tiles
        invariant
            tile <= n_tiles,
            64 * n_tiles <= usize::MAX,
            root@.len() == 4,
            root@ == running_root(dom, pvs@, tile as nat),
            t@.len() == 64 * tile,
            forall|i: int| 0 <= i < t@.len() ==> (#[trigger] t@[i])@ == fold_trace_row(dom, pvs@, i),
            fold_blocks_end(dom, pvs@, tile as nat),
        decreases n_tiles - tile,
    {
        let pv: u64 = if tile < pvs.len() {
            pvs[tile]
        } else {
            0
        };
        assert(pv == statement_at(pvs@, tile as int));
        let ghost before = t@;
        let (rows, next): (Vec<Vec<u64>>, Vec<u64>) = tile_rows(dom, pv, &root);
        let ghost tiled = rows@;
        push_block(&mut t, rows);
        proof {
            assert forall|i: int| 0 <= i < t@.len() implies (#[trigger] t@[i])@ == fold_trace_row(dom, pvs@, i) by {
                if i < 64 * tile {
                    assert(t@[i]@ == before[i]@);
                } else {
                    lemma_tile_rows(dom, pvs@, tile as int, i);
                    assert(t@[i]@ == tiled[i - 64 * tile]@);
                }
            }
            lemma_tile_rows(dom, pvs@, tile as int, 64 * tile);
        }
        root = next;
        tile += 1;
    }
    let ghost full = t@;
    while t.len() < h
        invariant
            64 * n_tiles <= t@.len() <= h,
            fold_blocks_end(dom, pvs@, n_tiles as nat),
            full.len() == 64 * n_tiles,
            forall|i: int| 0 <= i < full.len() ==> (#[trigger] t@[i])@ == fold_trace_row(dom, pvs@, i),
            forall|i: int| full.len() <= i < t@.len() ==> (#[trigger] t@[i])@ == Seq::new(12, |c: int| 0u64),
        decreases h - t.len(),
    {
        let zero: Vec<u64> = vec![0, 0, 0, 0, 0, 0, 0, 0, 0, 0, 0, 0];
        assert(zero@ =~= Seq::new(12, |c: int| 0u64));
        t.push(zero);
    }
    proof {
        lemma_fold_trace(air, pvs@, t@);
    }
    (t, root)
}

/// The digest block of a tile ends in the statement's digest, its root block in the next root.
pub(crate) proof fn lemma_tile_ends(dom: u64, pvs: Seq<u64>, k: int)
    requires
        0 <= k,
        block_ends(fold_input(dom, pvs, 2 * k)),
        block_ends(fold_input(dom, pvs, 2 * k + 1)),
    ensures
        fold_trace_row(dom, pvs, 64 * k + 31).subrange(0, 4) == statement_digest(dom, statement_at(pvs, k)),
        fold_trace_row(dom, pvs, 64 * k + 63).subrange(0, 4) == running_root(dom, pvs, (k + 1) as nat),
{
    reveal(block_last);
    assert((64 * k + 31) / 32 == 2 * k && (64 * k + 31) % 32 == 31);
    assert((64 * k + 63) / 32 == 2 * k + 1 && (64 * k + 63) % 32 == 31);
    assert((2 * k) / 2 == k && (2 * k) % 2 == 0);
    assert((2 * k + 1) / 2 == k && (2 * k + 1) % 2 == 1);
    let (a, b) = (fold_input(dom, pvs, 2 * k), fold_input(dom, pvs, 2 * k + 1));
    lemma_block_row_len(a, 31);
    lemma_block_row_len(b, 31);
    assert(fold_trace_row(dom, pvs, 64 * k + 31).subrange(0, 4) =~= permuted(a).subrange(0, 4));
    assert(fold_trace_row(dom, pvs, 64 * k + 63).subrange(0, 4) =~= permuted(b).subrange(0, 4));
    assert(((k + 1) as nat - 1) as nat == k as nat);
}

/// The rows of a trace of the statement fold hold digests and roots, and without padding they satisfy the constraints.
#[verifier::spinoff_prover]
#[verifier::rlimit(40)]
proof fn lemma_fold_trace(air: AggFoldAir, pvs: Seq<u64>, t: Seq<Vec<u64>>)
    requires
        air.wf(),
        64 * air.n_tiles <= t.len() == air.s_height(),
        forall|i: int| 0 <= i < 64 * air.n_tiles ==> (#[trigger] t[i])@ == fold_trace_row(air.dom, pvs, i),
        fold_blocks_end(air.dom, pvs, air.n_tiles as nat),
    ensures
        forall|k: int|
            0 <= k < air.n_tiles ==> {
                &&& (#[trigger] t[64 * k + 31])@.subrange(0, 4) == statement_digest(air.dom, statement_at(pvs, k))
                &&& t[64 * k + 63]@.subrange(0, 4) == running_root(air.dom, pvs, (k + 1) as nat)
            },
        64 * air.n_tiles == t.len() && air.dom < MODULUS && reduced(pvs) ==> air.satisfied(
            contents(t),
            fold_publics(air.dom, pvs, air.n_tiles as nat),
        ),
{
    assert forall|k: int| 0 <= k < air.n_tiles implies {
        &&& (#[trigger] t[64 * k + 31])@.subrange(0, 4) == statement_digest(air.dom, statement_at(pvs, k))
        &&& t[64 * k + 63]@.subrange(0, 4) == running_root(air.dom, pvs, (k + 1) as nat)
    } by {
        lemma_tile_ends(air.dom, pvs, k);
        assert(t[64 * k + 31]@ == fold_trace_row(air.dom, pvs, 64 * k + 31));
        assert(t[64 * k + 63]@ == fold_trace_row(air.dom, pvs, 64 * k + 63));
    }
    if 64 * air.n_tiles == t.len() && air.dom < MODULUS && reduced(pvs) {
        air.lemma_built_satisfied(pvs);
        assert(contents(t) =~= fold_rows(air.dom, pvs, air.n_tiles as nat));
    }
}

/// The root that the trace of `agg_root`'s own padding reaches is the root itself: the in-circuit fold and the
/// direct one agree.
pub proof fn law_trace_root_is_agg_root(dom: u64, pvs: Seq<u64>, n_tiles: nat)
    requires
        n_tiles == padded_count(pvs.len()),
    ensures
        compressed(
            running_root(dom, pvs, (n_tiles - 1) as nat),
            statement_digest(dom, statement_at(pvs, n_tiles - 1)),
        ) == running_root(dom, pvs, padded_count(pvs.len())),
{
    crate::bits::lemma_next_pow2(if pvs.len() == 0 { 1 } else { pvs.len() });
}

} // verus!
