//! Tiling instances of the fused verifier and folding their statements into one root.

use vstd::arithmetic::power2::pow2;
use vstd::prelude::*;

use super::grid::{block_written, cell, law_written_cell, push_felts, put_block, put_row, written};
use super::layout::{MonolithAir, BLOCK, FOLD_SK_BLOCKS};
use super::trace::zeros;
use crate::fri::merkle::contents;
use crate::gadgets::agg::{padded, running_root, statement_digest};
use crate::poseidon::{compressed, merge, paired};

verus! {

/// The digest of a run of chunks: from the domain tag on, each chunk is compressed into the digest so far.
pub open spec fn chain_digest(dom: u64, chunks: Seq<Seq<u64>>, n: nat) -> Seq<u64>
    decreases n,
{
    if n == 0 {
        padded(dom)
    } else {
        compressed(chain_digest(dom, chunks, (n - 1) as nat), chunks[n - 1])
    }
}

impl MonolithAir {
    /// The chunks of a statement: those of a transaction, or the one public value.
    pub open spec fn s_chunks(&self, pvs: Seq<u64>) -> Seq<Seq<u64>> {
        if self.fold_txstmt {
            Seq::new(
                FOLD_SK_BLOCKS as nat,
                |b: int|
                    Seq::new(
                        4,
                        |k: int|
                            match Self::s_chunk_src(b, k) {
                                Some(off) => pvs[off as int],
                                None => 0,
                            },
                    ),
            )
        } else {
            seq![padded(pvs[0])]
        }
    }

    /// The lanes of a transaction statement's chunks, one after the other, are its values in order, with two zeros
    /// before the binding.
    pub proof fn law_chunks_spell_statement(&self, pvs: Seq<u64>, l: int)
        requires
            self.fold_txstmt,
            pvs.len() >= 26,
            0 <= l < 28,
        ensures
            self.s_chunks(pvs).len() == 7,
            self.s_chunks(pvs)[l / 4].len() == 4,
            self.s_chunks(pvs)[l / 4][l % 4] == (pvs.subrange(0, 22) + seq![0u64, 0u64] + pvs.subrange(22, 26))[l],
    {
        assert(0 <= l / 4 < 7 && 0 <= l % 4 < 4);
        if l < 22 {
            Self::law_chunk_lanes(l as usize);
        } else if l >= 24 {
            Self::law_chunk_lanes((l - 2) as usize);
        }
    }

    /// Two transaction statements with the same chunks are the same statement: no value can be exchanged.
    pub proof fn law_chunks_bind_statement(&self, pvs: Seq<u64>, other: Seq<u64>)
        requires
            self.fold_txstmt,
            pvs.len() == 26,
            other.len() == 26,
            self.s_chunks(pvs) == self.s_chunks(other),
        ensures
            pvs == other,
    {
        assert forall|off: int| 0 <= off < 26 implies pvs[off] == other[off] by {
            let l = if off < 22 {
                off
            } else {
                off + 2
            };
            self.law_chunks_spell_statement(pvs, l);
            self.law_chunks_spell_statement(other, l);
        }
        assert(pvs =~= other);
    }

    /// The digest of a statement.
    pub open spec fn s_statement_digest(&self, pvs: Seq<u64>) -> Seq<u64> {
        chain_digest(self.txroot_dom, self.s_chunks(pvs), self.s_n_sk_blocks() as nat)
    }

    /// The digest of a transaction's statement: from the domain tag on, the anchor, the two nullifiers, the two output
    /// commitments, the fee with the minted amount, and the binding are taken in one after the other.
    pub proof fn law_transaction_digest(&self, pvs: Seq<u64>)
        requires
            self.fold_txstmt,
            pvs.len() == 26,
        ensures
            ({
                let anchor = compressed(seq![self.txroot_dom, 0, 0, 0], pvs.subrange(0, 4));
                let spent = compressed(compressed(anchor, pvs.subrange(4, 8)), pvs.subrange(8, 12));
                let made = compressed(compressed(spent, pvs.subrange(12, 16)), pvs.subrange(16, 20));
                let paid = compressed(made, seq![pvs[20], pvs[21], 0, 0]);
                self.s_statement_digest(pvs) == compressed(paid, pvs.subrange(22, 26))
            }),
    {
        let chunks = self.s_chunks(pvs);
        reveal_with_fuel(chain_digest, 8);
        assert(padded(self.txroot_dom) =~= seq![self.txroot_dom, 0, 0, 0]);
        assert(chunks[0] =~= pvs.subrange(0, 4));
        assert(chunks[1] =~= pvs.subrange(4, 8));
        assert(chunks[2] =~= pvs.subrange(8, 12));
        assert(chunks[3] =~= pvs.subrange(12, 16));
        assert(chunks[4] =~= pvs.subrange(16, 20));
        assert(chunks[5] =~= seq![pvs[20], pvs[21], 0, 0]);
        assert(chunks[6] =~= pvs.subrange(22, 26));
    }

    /// The digest of any other statement takes in its first value alone.
    pub proof fn law_value_digest(&self, pvs: Seq<u64>)
        requires
            !self.fold_txstmt,
        ensures
            self.s_statement_digest(pvs) == compressed(seq![self.txroot_dom, 0, 0, 0], seq![pvs[0], 0, 0, 0]),
    {
        reveal_with_fuel(chain_digest, 2);
        assert(padded(self.txroot_dom) =~= seq![self.txroot_dom, 0, 0, 0]);
        assert(padded(pvs[0]) =~= seq![pvs[0], 0, 0, 0]);
    }

    /// The root after the statements of the first `n` instances.
    pub open spec fn s_fold_root(&self, statements: Seq<Seq<u64>>, n: nat) -> Seq<u64>
        decreases n,
    {
        if n == 0 {
            seq![0u64, 0, 0, 0]
        } else {
            compressed(
                self.s_fold_root(statements, (n - 1) as nat),
                self.s_statement_digest(statements[n - 1]),
            )
        }
    }

    /// The first `n` rows of an instance, each with the root so far beside it.
    pub open spec fn s_rows_laid(&self, g: Seq<u64>, row: int, cells: Seq<u64>, root: Seq<u64>, n: nat) -> Seq<u64>
        decreases n,
    {
        if n == 0 {
            g
        } else {
            let (w, fw) = (self.s_fold_w(), self.s_fused_w());
            let before = self.s_rows_laid(g, row, cells, root, (n - 1) as nat);
            let own = cells.subrange((n - 1) * fw, (n - 1) * fw + fw);
            written(written(before, w, row + n - 1, 0, own), w, row + n - 1, self.s_af_root(0), root)
        }
    }

    /// The first `n` blocks of a statement digest.
    pub open spec fn s_digest_laid(&self, g: Seq<u64>, row: int, chunks: Seq<Seq<u64>>, n: nat) -> Seq<u64>
        decreases n,
    {
        if n == 0 {
            g
        } else {
            block_written(
                self.s_digest_laid(g, row, chunks, (n - 1) as nat),
                self.s_fold_w(),
                row + 32 * (n - 1),
                self.s_af_p(0),
                paired(chain_digest(self.txroot_dom, chunks, (n - 1) as nat), chunks[n - 1]),
                Seq::empty(),
                32,
            )
        }
    }

    /// One instance from row `row` on: its rows with the root so far, the blocks of its digest in its last rows, and the
    /// block that folds the digest into the root.
    pub open spec fn s_instance_laid(&self, g: Seq<u64>, row: int, cells: Seq<u64>, pvs: Seq<u64>, root: Seq<u64>) -> Seq<u64> {
        let fold_row = row + 32 * self.s_fold_sk_block();
        let sk = self.s_n_sk_blocks();
        let g1 = self.s_rows_laid(g, row, cells, root, self.s_inst_h() as nat);
        let g2 = self.s_digest_laid(g1, fold_row, self.s_chunks(pvs), sk as nat);
        block_written(
            g2,
            self.s_fold_w(),
            fold_row + 32 * sk,
            self.s_af_p(0),
            paired(root, self.s_statement_digest(pvs)),
            Seq::empty(),
            32,
        )
    }

    /// The first `n` instances.
    pub open spec fn s_instances_laid(&self, insts: Seq<Seq<u64>>, statements: Seq<Seq<u64>>, n: nat) -> Seq<u64>
        decreases n,
    {
        if n == 0 {
            Seq::new((self.s_height() * self.s_fold_w()) as nat, |i: int| 0u64)
        } else {
            self.s_instance_laid(
                self.s_instances_laid(insts, statements, (n - 1) as nat),
                (n - 1) * self.s_inst_h(),
                insts[n - 1],
                statements[n - 1],
                self.s_fold_root(statements, (n - 1) as nat),
            )
        }
    }

    /// As many statement values as the chunks read.
    pub open spec fn s_statement_len(&self) -> int {
        if self.fold_txstmt {
            26
        } else {
            1
        }
    }

    /// The chunks of a statement.
    fn chunks(&self, pvs: &Vec<u64>) -> (r: Vec<Vec<u64>>)
        requires
            pvs@.len() >= self.s_statement_len(),
        ensures
            contents(r@) == self.s_chunks(pvs@),
            r@.len() == self.s_n_sk_blocks(),
            forall|b: int| 0 <= b < r@.len() ==> (#[trigger] r@[b])@.len() == 4,
    {
        let mut r: Vec<Vec<u64>> = Vec::new();
        if self.fold_txstmt {
            let srcs: Vec<[Option<usize>; 4]> = MonolithAir::fold_chunk_srcs();
            let mut b: usize = 0;
            while b < FOLD_SK_BLOCKS
                invariant
                    b <= FOLD_SK_BLOCKS,
                    self.fold_txstmt,
                    srcs@.len() == FOLD_SK_BLOCKS,
                    pvs@.len() >= 26,
                    forall|c: int, k: int|
                        0 <= c < srcs@.len() && 0 <= k < 4 ==> (#[trigger] srcs@[c]@[k]) == Self::s_chunk_src(c, k),
                    r@.len() == b,
                    forall|c: int| 0 <= c < b ==> (#[trigger] r@[c])@ == self.s_chunks(pvs@)[c],
                decreases FOLD_SK_BLOCKS - b,
            {
                let row: [Option<usize>; 4] = srcs[b];
                let mut chunk: Vec<u64> = Vec::new();
                let mut k: usize = 0;
                while k < 4
                    invariant
                        k <= 4,
                        b < FOLD_SK_BLOCKS,
                        self.fold_txstmt,
                        pvs@.len() >= 26,
                        forall|j: int| 0 <= j < 4 ==> (#[trigger] row@[j]) == Self::s_chunk_src(b as int, j),
                        chunk@ =~= self.s_chunks(pvs@)[b as int].take(k as int),
                    decreases 4 - k,
                {
                    assert(row@[k as int] == Self::s_chunk_src(b as int, k as int));
                    chunk.push(
                        match row[k] {
                            Some(off) => pvs[off],
                            None => 0,
                        },
                    );
                    k += 1;
                }
                assert(chunk@ =~= self.s_chunks(pvs@)[b as int]);
                r.push(chunk);
                b += 1;
            }
        } else {
            let chunk: Vec<u64> = vec![pvs[0], 0, 0, 0];
            assert(chunk@ =~= padded(pvs@[0]));
            r.push(chunk);
        }
        assert(contents(r@) =~= self.s_chunks(pvs@));
        assert forall|b: int| 0 <= b < r@.len() implies (#[trigger] r@[b])@.len() == 4 by {
            assert(contents(r@)[b].len() == 4);
        }
        r
    }
}

impl MonolithAir {
    /// The trace of an aggregator can be laid out: it folds, its instances are a power of two, and the fold blocks lie
    /// behind the queries of an instance.
    pub open spec fn aggregates(&self) -> bool {
        &&& self.wf()
        &&& self.fold
        &&& exists|e: nat| self.k_instances == #[trigger] pow2(e)
        &&& self.s_fold_fits()
        &&& self.s_fold_sk_block() * BLOCK >= self.s_tr() + self.n_queries * self.s_m_period()
        &&& self.s_height() * self.s_fold_w() <= usize::MAX
    }

    /// An instance's rows and its fold blocks lie inside its part of the trace.
    pub(super) proof fn lemma_instance_fits(&self, i: int)
        requires
            self.aggregates(),
            0 <= i < self.k_instances,
        ensures
            0 <= i * self.s_inst_h(),
            i * self.s_inst_h() + self.s_inst_h() == (i + 1) * self.s_inst_h(),
            (i + 1) * self.s_inst_h() <= self.s_height(),
            0 <= self.s_fold_sk_block(),
            32 * (self.s_fold_sk_block() + self.s_n_sk_blocks() + 1) <= self.s_inst_h(),
            self.s_fold_w() == self.s_fused_w() + 12,
            0 <= self.s_fused_w(),
    {
        self.lemma_bounds();
        let h = self.s_inst_h();
        assert(0 <= i * h) by (nonlinear_arith)
            requires
                0 <= i,
                0 <= h,
        ;
        assert(i * h + h == (i + 1) * h) by (nonlinear_arith);
        assert((i + 1) * h <= self.k_instances * h) by (nonlinear_arith)
            requires
                i + 1 <= self.k_instances,
                0 <= h,
        ;
    }

    /// The rows of an instance hold its cells and the root so far, and the other rows are as before.
    pub(super) proof fn lemma_rows_cells(&self, g: Seq<u64>, row: int, cells: Seq<u64>, root: Seq<u64>, n: nat, r: int, c: int)
        requires
            self.s_fold_w() == self.s_fused_w() + 12,
            0 <= self.s_fused_w(),
            0 <= row,
            root.len() == 4,
            n * self.s_fused_w() <= cells.len(),
            0 <= c < self.s_fold_w(),
            0 <= r,
            r * self.s_fold_w() + c < g.len(),
        ensures
            self.s_rows_laid(g, row, cells, root, n).len() == g.len(),
            row <= r < row + n && c < self.s_fused_w() ==> cell(
                self.s_rows_laid(g, row, cells, root, n),
                self.s_fold_w(),
                r,
                c,
            ) == cells[(r - row) * self.s_fused_w() + c],
            row <= r < row + n && c >= self.s_af_root(0) ==> cell(
                self.s_rows_laid(g, row, cells, root, n),
                self.s_fold_w(),
                r,
                c,
            ) == root[c - self.s_af_root(0)],
            !(row <= r < row + n) ==> cell(self.s_rows_laid(g, row, cells, root, n), self.s_fold_w(), r, c) == cell(
                g,
                self.s_fold_w(),
                r,
                c,
            ),
        decreases n,
    {
        if n > 0 {
            let (w, fw) = (self.s_fold_w(), self.s_fused_w());
            let m = (n - 1) as nat;
            assert(m * fw + fw == n * fw) by (nonlinear_arith)
                requires
                    n == m + 1,
            ;
            assert(0 <= m * fw) by (nonlinear_arith)
                requires
                    0 <= fw,
            ;
            self.lemma_rows_cells(g, row, cells, root, m, r, c);
            let before = self.s_rows_laid(g, row, cells, root, m);
            let own = cells.subrange(m * fw, m * fw + fw);
            law_written_cell(before, w, row + m, 0, own, r, c);
            law_written_cell(written(before, w, row + m, 0, own), w, row + m, self.s_af_root(0), root, r, c);
        }
    }

    /// Lay out the rows of an instance with the root so far.
    fn put_rows(&self, g: &mut Vec<u64>, row: usize, cells: &Vec<u64>, root: &Vec<u64>)
        requires
            self.aggregates(),
            old(g)@.len() == self.s_height() * self.s_fold_w(),
            self.s_fold_w() == self.s_fused_w() + 12,
            0 <= self.s_fused_w(),
            row + self.s_inst_h() <= self.s_height(),
            cells@.len() == self.s_inst_h() * self.s_fused_w(),
            root@.len() == 4,
        ensures
            final(g)@.len() == self.s_height() * self.s_fold_w(),
            final(g)@ == self.s_rows_laid(old(g)@, row as int, cells@, root@, self.s_inst_h() as nat),
    {
        let ghost before = g@;
        let ghost h = self.s_height();
        let w: usize = self.fold_w();
        let fw: usize = self.fused_w();
        let n: usize = self.inst_h();
        let total: usize = self.height();
        let len: usize = cells.len();
        let root_at: usize = self.af_root(0);
        let mut at: usize = 0;
        let mut r: usize = 0;
        while r < n
            invariant
                r <= n,
                n == self.s_inst_h(),
                w == self.s_fold_w(),
                fw == self.s_fused_w(),
                w == fw + 12,
                root_at == self.s_af_root(0),
                root@.len() == 4,
                h == self.s_height(),
                h == total,
                row + n <= h,
                len == cells@.len(),
                len == n * fw,
                at == r * fw,
                g@.len() == h * w,
                g@ == self.s_rows_laid(before, row as int, cells@, root@, r as nat),
            decreases n - r,
        {
            proof {
                assert((r + 1) * fw == r * fw + fw) by (nonlinear_arith);
                assert((r + 1) * fw <= n * fw) by (nonlinear_arith)
                    requires
                        r + 1 <= n,
                        0 <= fw,
                ;
            }
            let mut own: Vec<u64> = Vec::new();
            let mut c: usize = 0;
            while c < fw
                invariant
                    c <= fw,
                    at + fw <= len,
                    len == cells@.len(),
                    own@ =~= cells@.subrange(at as int, at + c),
                decreases fw - c,
            {
                own.push(cells[at + c]);
                c += 1;
            }
            put_row(g, w, Ghost(h), row + r, 0, &own);
            put_row(g, w, Ghost(h), row + r, root_at, root);
            at = at + fw;
            r += 1;
        }
    }

    /// Lay out the blocks of a statement digest, which comes back.
    fn put_digest(&self, g: &mut Vec<u64>, row: usize, chunks: &Vec<Vec<u64>>) -> (digest: Vec<u64>)
        requires
            self.aggregates(),
            old(g)@.len() == self.s_height() * self.s_fold_w(),
            self.s_fold_w() == self.s_fused_w() + 12,
            0 <= self.s_fused_w(),
            chunks@.len() == self.s_n_sk_blocks(),
            forall|b: int| 0 <= b < chunks@.len() ==> (#[trigger] chunks@[b])@.len() == 4,
            row + 32 * chunks@.len() <= self.s_height(),
        ensures
            final(g)@.len() == self.s_height() * self.s_fold_w(),
            final(g)@ == self.s_digest_laid(old(g)@, row as int, contents(chunks@), chunks@.len()),
            digest@ == chain_digest(self.txroot_dom, contents(chunks@), chunks@.len()),
            digest@.len() == 4,
    {
        let ghost before = g@;
        let ghost h = self.s_height();
        let ghost cv = contents(chunks@);
        let w: usize = self.fold_w();
        let total: usize = self.height();
        let col: usize = self.af_p(0);
        let none: Vec<u64> = Vec::new();
        let mut digest: Vec<u64> = vec![self.txroot_dom, 0, 0, 0];
        assert(digest@ =~= padded(self.txroot_dom));
        let mut b: usize = 0;
        while b < chunks.len()
            invariant
                b <= chunks@.len(),
                cv == contents(chunks@),
                w == self.s_fold_w(),
                col == self.s_af_p(0),
                col + 12 == w,
                none@ == Seq::<u64>::empty(),
                h == self.s_height(),
                h == total,
                row + 32 * chunks@.len() <= h,
                forall|k: int| 0 <= k < chunks@.len() ==> (#[trigger] chunks@[k])@.len() == 4,
                g@.len() == h * w,
                digest@.len() == 4,
                digest@ == chain_digest(self.txroot_dom, cv, b as nat),
                g@ == self.s_digest_laid(before, row as int, cv, b as nat),
            decreases chunks.len() - b,
        {
            let chunk: &Vec<u64> = &chunks[b];
            assert(cv[b as int] == chunk@);
            let mut input: Vec<u64> = Vec::new();
            push_felts(&mut input, &digest);
            push_felts(&mut input, chunk);
            assert(input@ =~= paired(digest@, chunk@));
            put_block(g, w, Ghost(h), row + 32 * b, col, &input, &none);
            digest = merge(&digest, chunk);
            b += 1;
        }
        digest
    }
}

/// The cell in row `r` of instance `i`.
pub open spec fn tile_cell(air: MonolithAir, g: Seq<u64>, i: int, r: int, c: int) -> u64 {
    cell(g, air.s_fold_w(), i * air.s_inst_h() + r, c)
}

/// The trace of an aggregator: the instances one behind the other, each with the root so far beside its rows and the
/// blocks that fold its statement into the root. The root over all statements comes back.
pub fn build_aggregator_trace(air: &MonolithAir, insts: &Vec<Vec<u64>>, statements: &Vec<Vec<u64>>) -> (r: (
    Vec<u64>,
    Vec<u64>,
))
    requires
        air.aggregates(),
        insts@.len() == air.k_instances,
        statements@.len() == air.k_instances,
        forall|i: int| 0 <= i < insts@.len() ==> (#[trigger] insts@[i])@.len() == air.s_inst_h() * air.s_fused_w(),
        forall|i: int| 0 <= i < statements@.len() ==> (#[trigger] statements@[i])@.len() >= air.s_statement_len(),
    ensures
        r.0@ == air.s_instances_laid(contents(insts@), contents(statements@), air.k_instances as nat),
        r.0@.len() == air.s_height() * air.s_fold_w(),
        r.1@ == air.s_fold_root(contents(statements@), air.k_instances as nat),
        r.1@.len() == 4,
{
    let ghost iv = contents(insts@);
    let ghost sv = contents(statements@);
    let h: usize = air.height();
    let w: usize = air.fold_w();
    let n: usize = air.inst_h();
    let mut g: Vec<u64> = zeros(h * w);
    let mut root: Vec<u64> = vec![0, 0, 0, 0];
    assert(root@ =~= seq![0u64, 0, 0, 0]);
    proof {
        air.lemma_bounds();
        if air.k_instances > 0 {
            air.lemma_instance_fits(0);
        }
    }
    let none: Vec<u64> = Vec::new();
    let mut row: usize = 0;
    let mut i: usize = 0;
    while i < insts.len()
        invariant
            i <= insts@.len(),
            air.aggregates(),
            insts@.len() == air.k_instances,
            statements@.len() == air.k_instances,
            iv == contents(insts@),
            sv == contents(statements@),
            none@ == Seq::<u64>::empty(),
            h == air.s_height(),
            w == air.s_fold_w(),
            n == air.s_inst_h(),
            row == i * n,
            forall|k: int| 0 <= k < insts@.len() ==> (#[trigger] insts@[k])@.len() == air.s_inst_h() * air.s_fused_w(),
            forall|k: int| 0 <= k < statements@.len() ==> (#[trigger] statements@[k])@.len() >= air.s_statement_len(),
            g@.len() == h * w,
            root@.len() == 4,
            root@ == air.s_fold_root(sv, i as nat),
            g@ == air.s_instances_laid(iv, sv, i as nat),
        decreases insts.len() - i,
    {
        proof {
            air.lemma_instance_fits(i as int);
            assert(iv[i as int] == insts@[i as int]@);
            assert(sv[i as int] == statements@[i as int]@);
        }
        air.put_rows(&mut g, row, &insts[i], &root);
        let chunks: Vec<Vec<u64>> = air.chunks(&statements[i]);
        let fold_row: usize = row + 32 * air.fold_sk_block();
        let digest: Vec<u64> = air.put_digest(&mut g, fold_row, &chunks);
        let mut input: Vec<u64> = Vec::new();
        push_felts(&mut input, &root);
        push_felts(&mut input, &digest);
        assert(input@ =~= paired(root@, digest@));
        put_block(&mut g, w, Ghost(h as int), fold_row + 32 * chunks.len(), air.af_p(0), &input, &none);
        root = merge(&root, &digest);
        row = row + n;
        i += 1;
    }
    (g, root)
}

/// Where the statement is one public value, the root of an aggregator is the root over those values.
pub proof fn law_root_is_statement_root(air: MonolithAir, statements: Seq<Seq<u64>>, n: nat)
    requires
        !air.fold_txstmt,
        n <= statements.len(),
    ensures
        air.s_fold_root(statements, n) == running_root(
            air.txroot_dom,
            Seq::new(statements.len(), |i: int| statements[i][0]),
            n,
        ),
    decreases n,
{
    if n > 0 {
        law_root_is_statement_root(air, statements, (n - 1) as nat);
        let chunks = air.s_chunks(statements[n - 1]);
        reveal_with_fuel(chain_digest, 2);
        assert(chunks[0] == padded(statements[n - 1][0]));
        assert(air.s_statement_digest(statements[n - 1]) == statement_digest(air.txroot_dom, statements[n - 1][0]));
    }
}

} // verus!
