//! The trace of an aggregator satisfies its system: the instances stand in it as they stood alone, and the fold blocks
//! take their statements to the root.

use vstd::prelude::*;

use super::aggregate::{chain_digest, tile_cell};
use super::arith::steps;
use super::eval::MonolithBci;
use super::grid::{block_written, cell, law_written_cell};
use super::layout::{MonolithAir, FOLD_SK_BLOCKS};
use super::leaves::mark;
use super::meaning::{at_step, lanes_at, law_steps_advance};
use super::pairs::{columns_shown, lemma_instance_row, lemma_off, lemma_pair_columns, off, row_pair};
use super::paths::{lemma_next_of_reduced, reduced_lanes};
use super::reading::row_at;
use super::rooted::{
    digest_input, lemma_chunk_len, lemma_chunk_source, lemma_digest_len, lemma_fold_columns, lemma_fold_place,
    lemma_permuted_eight, lemma_root_parts,
};
use crate::expr::{
    value, w_const, w_cur, w_minus, w_nxt, w_on_first, w_on_transition, w_per, w_pub, w_times, Expr, Window, Wire,
};
use crate::field::{f_red, MODULUS};
use crate::gadgets::agg::padded;
use crate::gadgets::traces::{lemma_first_only, lemma_no_transition, lemma_switched, lemma_zero_product};
use crate::poseidon::{block_last, block_row, lemma_block_row_len, paired, permuted};
use crate::vanish::{lemma_const_value, lemma_leaf_values, lemma_op_values, lemma_vanish_flat, vanish};

verus! {

/// A cell of a grid with the first `n` rows of a block written from column `col` on.
proof fn lemma_block_at(g: Seq<u64>, w: int, row: int, col: int, input: Seq<u64>, n: nat, r: int, c: int)
    requires
        0 <= col,
        col + 8 <= w,
        input.len() == 8,
        0 <= r,
        0 <= c < w,
        r * w + c < g.len(),
    ensures
        block_written(g, w, row, col, input, Seq::empty(), n).len() == g.len(),
        cell(block_written(g, w, row, col, input, Seq::empty(), n), w, r, c) == (if row <= r < row + n && col <= c < col + 8 {
            block_row(input, (r - row) as nat)[c - col]
        } else {
            cell(g, w, r, c)
        }),
    decreases n,
{
    if n > 0 {
        let m = (n - 1) as nat;
        lemma_block_at(g, w, row, col, input, m, r, c);
        let before = block_written(g, w, row, col, input, Seq::empty(), m);
        let vs = block_row(input, m) + Seq::<u64>::empty();
        lemma_block_row_len(input, m);
        assert(vs =~= block_row(input, m));
        law_written_cell(before, w, row + n - 1, col, vs, r, c);
    }
}

/// What fold block `b` of instance `i` takes in: the digest so far and a chunk, and in the last block the root so far and
/// the digest.
pub open spec fn fold_block_input(air: MonolithAir, statements: Seq<Seq<u64>>, i: int, b: int) -> Seq<u64> {
    if b < air.s_n_sk_blocks() {
        digest_input(air, statements[i], b)
    } else {
        paired(air.s_fold_root(statements, i as nat), air.s_statement_digest(statements[i]))
    }
}

/// The root so far has four felts, all reduced.
pub(super) proof fn lemma_root_len(air: MonolithAir, statements: Seq<Seq<u64>>, n: nat)
    ensures
        air.s_fold_root(statements, n).len() == 4,
        forall|k: int| 0 <= k < 4 ==> #[trigger] air.s_fold_root(statements, n)[k] < MODULUS,
    decreases n,
{
    if n > 0 {
        lemma_root_len(air, statements, (n - 1) as nat);
        lemma_statement_digest_len(air, statements[n - 1]);
        let x = paired(air.s_fold_root(statements, (n - 1) as nat), air.s_statement_digest(statements[n - 1]));
        lemma_permuted_eight(x);
        assert forall|k: int| 0 <= k < 4 implies #[trigger] permuted(x).subrange(0, 4)[k] < MODULUS by {
            assert(permuted(x)[k] < MODULUS);
        }
    }
}

proof fn lemma_chunks_four(air: MonolithAir, pvs: Seq<u64>)
    ensures
        air.s_chunks(pvs).len() == air.s_n_sk_blocks(),
        forall|b: int| 0 <= b < air.s_chunks(pvs).len() ==> (#[trigger] air.s_chunks(pvs)[b]).len() == 4,
{
    assert forall|b: int| 0 <= b < air.s_chunks(pvs).len() implies (#[trigger] air.s_chunks(pvs)[b]).len() == 4 by {
        lemma_chunk_len(air, pvs, b);
    }
}

proof fn lemma_statement_digest_len(air: MonolithAir, pvs: Seq<u64>)
    ensures
        air.s_statement_digest(pvs).len() == 4,
{
    lemma_chunks_four(air, pvs);
    lemma_digest_len(air.txroot_dom, air.s_chunks(pvs), air.s_n_sk_blocks() as nat);
}

/// The inputs of the fold blocks have eight lanes.
proof fn lemma_input_len(air: MonolithAir, statements: Seq<Seq<u64>>, i: int, b: int)
    requires
        0 <= b <= air.s_n_sk_blocks(),
    ensures
        fold_block_input(air, statements, i, b).len() == 8,
{
    lemma_root_len(air, statements, i as nat);
    lemma_statement_digest_len(air, statements[i]);
    lemma_chunks_four(air, statements[i]);
    if b < air.s_n_sk_blocks() {
        lemma_chunk_len(air, statements[i], b);
        lemma_digest_len(air.txroot_dom, air.s_chunks(statements[i]), b as nat);
    }
}

/// Instance `i` stands in a trace: its own cells, the root so far beside them, and its fold blocks.
#[verifier::opaque]
pub open spec fn instance_stands(
    air: MonolithAir,
    g: Seq<u64>,
    insts: Seq<Seq<u64>>,
    statements: Seq<Seq<u64>>,
    i: int,
) -> bool {
    &&& forall|r: int, c: int|
        0 <= r < air.s_inst_h() && 0 <= c < air.s_fused_w() ==> #[trigger] tile_cell(air, g, i, r, c) == insts[i][r
            * air.s_fused_w() + c]
    &&& forall|r: int, c: int|
        0 <= r < air.s_inst_h() && air.s_af_root(0) <= c < air.s_fold_w() ==> #[trigger] tile_cell(air, g, i, r, c)
            == air.s_fold_root(statements, i as nat)[c - air.s_af_root(0)]
    &&& forall|r: int, c: int|
        32 * air.s_fold_sk_block() <= r < air.s_inst_h() && air.s_af_p(0) <= c < air.s_af_p(8) ==> #[trigger] tile_cell(
            air,
            g,
            i,
            r,
            c,
        ) == block_row(
            fold_block_input(air, statements, i, r / 32 - air.s_fold_sk_block()),
            (r % 32) as nat,
        )[c - air.s_af_p(0)]
}

/// The blocks of a digest, cell by cell.
#[verifier::rlimit(30)]
proof fn lemma_digest_cells(
    air: MonolithAir,
    g: Seq<u64>,
    row: int,
    statements: Seq<Seq<u64>>,
    i: int,
    n: nat,
    r: int,
    c: int,
)
    requires
        air.s_fold_w() == air.s_fused_w() + 12,
        0 <= air.s_fused_w(),
        n <= air.s_n_sk_blocks(),
        0 <= r,
        0 <= c < air.s_fold_w(),
        r * air.s_fold_w() + c < g.len(),
    ensures
        ({
            let g2 = air.s_digest_laid(g, row, air.s_chunks(statements[i]), n);
            &&& g2.len() == g.len()
            &&& cell(g2, air.s_fold_w(), r, c) == (if row <= r < row + 32 * n && air.s_af_p(0) <= c < air.s_af_p(8) {
                block_row(
                    fold_block_input(air, statements, i, (r - row) / 32),
                    ((r - row) % 32) as nat,
                )[c - air.s_af_p(0)]
            } else {
                cell(g, air.s_fold_w(), r, c)
            })
        }),
    decreases n,
{
    if n > 0 {
        let m = (n - 1) as nat;
        let chunks = air.s_chunks(statements[i]);
        lemma_digest_cells(air, g, row, statements, i, m, r, c);
        lemma_input_len(air, statements, i, n - 1);
        let before = air.s_digest_laid(g, row, chunks, m);
        lemma_block_at(
            before,
            air.s_fold_w(),
            row + 32 * (n - 1),
            air.s_af_p(0),
            fold_block_input(air, statements, i, n - 1),
            32,
            r,
            c,
        );
        if row + 32 * (n - 1) <= r < row + 32 * n {
            assert((r - row) / 32 == n - 1 && (r - row) % 32 == r - (row + 32 * (n - 1)));
        }
    }
}

/// The fold blocks of an instance from row `first` on, cell by cell.
#[verifier::spinoff_prover]
#[verifier::rlimit(40)]
proof fn lemma_fold_cells(
    air: MonolithAir,
    g: Seq<u64>,
    first: int,
    statements: Seq<Seq<u64>>,
    i: int,
    r: int,
    c: int,
)
    requires
        air.s_fold_w() == air.s_fused_w() + 12,
        0 <= air.s_fused_w(),
        0 <= r,
        0 <= c < air.s_fold_w(),
        r * air.s_fold_w() + c < g.len(),
    ensures
        ({
            let sk = air.s_n_sk_blocks();
            let g2 = block_written(
                air.s_digest_laid(g, first, air.s_chunks(statements[i]), sk as nat),
                air.s_fold_w(),
                first + 32 * sk,
                air.s_af_p(0),
                paired(air.s_fold_root(statements, i as nat), air.s_statement_digest(statements[i])),
                Seq::empty(),
                32,
            );
            &&& g2.len() == g.len()
            &&& cell(g2, air.s_fold_w(), r, c) == (if first <= r < first + 32 * (sk + 1) && air.s_af_p(0) <= c
                < air.s_af_p(8) {
                block_row(
                    fold_block_input(air, statements, i, (r - first) / 32),
                    ((r - first) % 32) as nat,
                )[c - air.s_af_p(0)]
            } else {
                cell(g, air.s_fold_w(), r, c)
            })
        }),
{
    let sk = air.s_n_sk_blocks();
    let g2 = air.s_digest_laid(g, first, air.s_chunks(statements[i]), sk as nat);
    lemma_digest_cells(air, g, first, statements, i, sk as nat, r, c);
    lemma_input_len(air, statements, i, sk);
    let input = paired(air.s_fold_root(statements, i as nat), air.s_statement_digest(statements[i]));
    assert(input == fold_block_input(air, statements, i, sk));
    lemma_block_at(g2, air.s_fold_w(), first + 32 * sk, air.s_af_p(0), input, 32, r, c);
    if first + 32 * sk <= r < first + 32 * (sk + 1) {
        assert((r - first) / 32 == sk && (r - first) % 32 == r - (first + 32 * sk));
    }
}

/// A cell of a trace with one more instance.
#[verifier::spinoff_prover]
#[verifier::rlimit(40)]
proof fn lemma_laid_cell(
    air: MonolithAir,
    g: Seq<u64>,
    insts: Seq<Seq<u64>>,
    statements: Seq<Seq<u64>>,
    i: int,
    r: int,
    c: int,
)
    requires
        air.aggregates(),
        0 <= i < air.k_instances,
        g.len() == air.s_height() * air.s_fold_w(),
        insts[i].len() == air.s_inst_h() * air.s_fused_w(),
        0 <= r < air.s_height(),
        0 <= c < air.s_fold_w(),
    ensures
        ({
            let at = i * air.s_inst_h();
            let f = air.s_fold_sk_block();
            let root = air.s_fold_root(statements, i as nat);
            let g2 = air.s_instance_laid(g, at, insts[i], statements[i], root);
            &&& g2.len() == g.len()
            &&& !(at <= r < at + air.s_inst_h()) ==> cell(g2, air.s_fold_w(), r, c) == cell(g, air.s_fold_w(), r, c)
            &&& at <= r < at + air.s_inst_h() && c < air.s_fused_w() ==> cell(g2, air.s_fold_w(), r, c) == insts[i][(r - at)
                * air.s_fused_w() + c]
            &&& at <= r < at + air.s_inst_h() && c >= air.s_af_root(0) ==> cell(g2, air.s_fold_w(), r, c) == root[c
                - air.s_af_root(0)]
            &&& at + 32 * f <= r < at + air.s_inst_h() && air.s_af_p(0) <= c < air.s_af_p(8) ==> cell(
                g2,
                air.s_fold_w(),
                r,
                c,
            ) == block_row(
                fold_block_input(air, statements, i, (r - at) / 32 - f),
                ((r - at) % 32) as nat,
            )[c - air.s_af_p(0)]
        }),
{
    let at = i * air.s_inst_h();
    let (f, w) = (air.s_fold_sk_block(), air.s_fold_w());
    let root = air.s_fold_root(statements, i as nat);
    let first = at + 32 * f;
    lemma_fold_place(air);
    air.lemma_instance_fits(i);
    lemma_root_len(air, statements, i as nat);
    assert(r * w + c < air.s_height() * w) by (nonlinear_arith)
        requires
            0 <= r < air.s_height(),
            0 <= c < w,
    ;
    let g1 = air.s_rows_laid(g, at, insts[i], root, air.s_inst_h() as nat);
    air.lemma_rows_cells(g, at, insts[i], root, air.s_inst_h() as nat, r, c);
    lemma_fold_cells(air, g1, first, statements, i, r, c);
    if first <= r < at + air.s_inst_h() {
        assert((r - first) / 32 == (r - at) / 32 - f && (r - first) % 32 == (r - at) % 32);
    }
}

/// The instances laid so far stand.
#[verifier::rlimit(30)]
proof fn lemma_instances_stand(
    air: MonolithAir,
    insts: Seq<Seq<u64>>,
    statements: Seq<Seq<u64>>,
    n: nat,
    i: int,
)
    requires
        air.aggregates(),
        n <= air.k_instances,
        insts.len() == air.k_instances,
        forall|j: int| 0 <= j < insts.len() ==> (#[trigger] insts[j]).len() == air.s_inst_h() * air.s_fused_w(),
        0 <= i < n,
    ensures
        air.s_instances_laid(insts, statements, n).len() == air.s_height() * air.s_fold_w(),
        instance_stands(air, air.s_instances_laid(insts, statements, n), insts, statements, i),
    decreases n,
{
    let m = (n - 1) as nat;
    let g = air.s_instances_laid(insts, statements, m);
    lemma_laid_len(air, insts, statements, m);
    lemma_laid_len(air, insts, statements, n);
    let g2 = air.s_instances_laid(insts, statements, n);
    let h = air.s_inst_h();
    lemma_fold_place(air);
    if i < m {
        lemma_instances_stand(air, insts, statements, m, i);
    }
    assert forall|r: int, c: int| 0 <= r < h && 0 <= c < air.s_fold_w() && i < m implies #[trigger] tile_cell(
        air,
        g2,
        i,
        r,
        c,
    ) == tile_cell(air, g, i, r, c) by {
        air.lemma_instance_fits(i);
        assert((i + 1) * h <= m * h) by (nonlinear_arith)
            requires
                i + 1 <= m,
                0 <= h,
        ;
        lemma_laid_cell(air, g, insts, statements, m as int, i * h + r, c);
    }
    assert forall|r: int, c: int| 0 <= r < h && 0 <= c < air.s_fold_w() && i == m implies {
        let v = #[trigger] tile_cell(air, g2, i, r, c);
        &&& c < air.s_fused_w() ==> v == insts[i][r * air.s_fused_w() + c]
        &&& c >= air.s_af_root(0) ==> v == air.s_fold_root(statements, i as nat)[c - air.s_af_root(0)]
        &&& 32 * air.s_fold_sk_block() <= r && air.s_af_p(0) <= c < air.s_af_p(8) ==> v == block_row(
            fold_block_input(air, statements, i, r / 32 - air.s_fold_sk_block()),
            (r % 32) as nat,
        )[c - air.s_af_p(0)]
    } by {
        air.lemma_instance_fits(i);
        lemma_laid_cell(air, g, insts, statements, m as int, i * h + r, c);
    }
    reveal(instance_stands);
}

#[verifier::rlimit(30)]
proof fn lemma_laid_len(air: MonolithAir, insts: Seq<Seq<u64>>, statements: Seq<Seq<u64>>, n: nat)
    requires
        air.aggregates(),
        n <= air.k_instances,
        insts.len() == air.k_instances,
        forall|j: int| 0 <= j < insts.len() ==> (#[trigger] insts[j]).len() == air.s_inst_h() * air.s_fused_w(),
    ensures
        air.s_instances_laid(insts, statements, n).len() == air.s_height() * air.s_fold_w(),
    decreases n,
{
    lemma_fold_place(air);
    if n > 0 {
        lemma_laid_len(air, insts, statements, (n - 1) as nat);
        air.lemma_instance_fits(n - 1);
        lemma_laid_cell(
            air,
            air.s_instances_laid(insts, statements, (n - 1) as nat),
            insts,
            statements,
            n - 1,
            (n - 1) * air.s_inst_h(),
            0,
        );
    } else {
        assert(0 <= air.s_height() * air.s_fold_w()) by (nonlinear_arith)
            requires
                0 <= air.s_height(),
                0 <= air.s_fold_w(),
        ;
    }
}

/// Each instance stands in the trace of an aggregator.
pub proof fn law_instances_stand(air: MonolithAir, insts: Seq<Seq<u64>>, statements: Seq<Seq<u64>>, i: int)
    requires
        air.aggregates(),
        insts.len() == air.k_instances,
        forall|j: int| 0 <= j < insts.len() ==> (#[trigger] insts[j]).len() == air.s_inst_h() * air.s_fused_w(),
        0 <= i < air.k_instances,
    ensures
        ({
            let g = air.s_instances_laid(insts, statements, air.k_instances as nat);
            &&& g.len() == air.s_height() * air.s_fold_w()
            &&& instance_stands(air, g, insts, statements, i)
        }),
{
    lemma_instances_stand(air, insts, statements, air.k_instances as nat, i);
}

/// A trace in which every instance stands with its statement in its window, and the root over all statements.
pub open spec fn aggregate_stands(
    air: MonolithAir,
    g: Seq<u64>,
    insts: Seq<Seq<u64>>,
    statements: Seq<Seq<u64>>,
    root: Seq<u64>,
) -> bool {
    &&& air.aggregates()
    &&& air.eval_ok()
    &&& air.column_window
    &&& g.len() == air.s_height() * air.s_fold_w()
    &&& forall|i: int| 0 <= i < air.k_instances ==> #[trigger] instance_stands(air, g, insts, statements, i)
    &&& forall|i: int, r: int, c: int|
        0 <= i < air.k_instances && 0 <= r < air.s_inst_h() && 0 <= c < air.s_statement_len() ==> #[trigger] tile_cell(
            air,
            g,
            i,
            r,
            air.s_pw(air.s_pub_pi() + c),
        ) == statements[i][c]
    &&& root == air.s_fold_root(statements, air.k_instances as nat)
}

/// What the row pair on row `r` of instance `i` shows.
#[verifier::rlimit(30)]
proof fn lemma_laid_pair(
    air: MonolithAir,
    g: Seq<u64>,
    insts: Seq<Seq<u64>>,
    statements: Seq<Seq<u64>>,
    root: Seq<u64>,
    i: int,
    r: int,
)
    requires
        aggregate_stands(air, g, insts, statements, root),
        0 <= i < air.k_instances,
        0 <= r < air.s_inst_h(),
    ensures
        ({
            let row = i * air.s_inst_h() + r;
            let win = row_pair(air, g, root, row);
            &&& 0 <= row < air.s_height()
            &&& columns_shown(air, win, r)
            &&& row + 1 < air.s_height() ==> win.nxt == row_at(g, air.s_fold_w(), row + 1) && win.is_transition == 1
            &&& row + 1 == air.s_height() ==> win.is_transition == 0 && i == air.k_instances - 1 && r == air.s_inst_h() - 1
            &&& forall|k: int| 0 <= k < 4 ==> #[trigger] win.cur[air.s_af_root(k)] == air.s_fold_root(
                statements,
                i as nat,
            )[k]
            &&& 32 * air.s_fold_sk_block() <= r ==> forall|k: int|
                0 <= k < 8 ==> #[trigger] win.cur[air.s_af_p(k)] == block_row(
                    fold_block_input(air, statements, i, r / 32 - air.s_fold_sk_block()),
                    (r % 32) as nat,
                )[k]
            &&& forall|c: int|
                0 <= c < air.s_statement_len() ==> #[trigger] win.cur[air.s_pw(air.s_pub_pi() + c)] == statements[i][c]
        }),
{
    let row = i * air.s_inst_h() + r;
    let win = row_pair(air, g, root, row);
    lemma_fold_place(air);
    air.lemma_bounds();
    lemma_instance_row(air, i, r);
    lemma_pair_columns(air, g, root, i, r);
    if row + 1 < air.s_height() {
        vstd::arithmetic::div_mod::lemma_small_mod((row + 1) as nat, air.s_height() as nat);
    }
    assert(instance_stands(air, g, insts, statements, i));
    reveal(instance_stands);
    assert forall|k: int| 0 <= k < 4 implies #[trigger] win.cur[air.s_af_root(k)] == air.s_fold_root(
        statements,
        i as nat,
    )[k] by {
        assert(tile_cell(air, g, i, r, air.s_af_root(k)) == air.s_fold_root(statements, i as nat)[k]);
    }
    if 32 * air.s_fold_sk_block() <= r {
        assert forall|k: int| 0 <= k < 8 implies #[trigger] win.cur[air.s_af_p(k)] == block_row(
            fold_block_input(air, statements, i, r / 32 - air.s_fold_sk_block()),
            (r % 32) as nat,
        )[k] by {
            assert(tile_cell(air, g, i, r, air.s_af_p(k)) == cell(g, air.s_fold_w(), row, air.s_af_p(k)));
        }
    }
    assert forall|c: int| 0 <= c < air.s_statement_len() implies #[trigger] win.cur[air.s_pw(air.s_pub_pi() + c)]
        == statements[i][c] by {
        assert(tile_cell(air, g, i, r, air.s_pw(air.s_pub_pi() + c)) == statements[i][c]);
    }
}

/// The next row inside an instance.
proof fn lemma_laid_next(
    air: MonolithAir,
    g: Seq<u64>,
    insts: Seq<Seq<u64>>,
    statements: Seq<Seq<u64>>,
    root: Seq<u64>,
    i: int,
    r: int,
)
    requires
        aggregate_stands(air, g, insts, statements, root),
        0 <= i < air.k_instances,
        0 <= r,
        r + 1 < air.s_inst_h(),
    ensures
        ({
            let win = row_pair(air, g, root, i * air.s_inst_h() + r);
            &&& win.is_transition == 1
            &&& win.nxt == row_pair(air, g, root, i * air.s_inst_h() + (r + 1)).cur
        }),
{
    lemma_laid_pair(air, g, insts, statements, root, i, r);
    lemma_instance_row(air, i, r + 1);
}

/// The permutation constraints of the fold blocks.
#[verifier::spinoff_prover]
#[verifier::rlimit(40)]
proof fn lemma_fold_steps(
    air: MonolithAir,
    g: Seq<u64>,
    insts: Seq<Seq<u64>>,
    statements: Seq<Seq<u64>>,
    root: Seq<u64>,
    i: int,
    r: int,
)
    requires
        aggregate_stands(air, g, insts, statements, root),
        0 <= i < air.k_instances,
        0 <= r < air.s_inst_h(),
    ensures
        vanish(
            steps(air.s_af_p(0), w_per(air.s_p_fold_active())),
            row_pair(air, g, root, i * air.s_inst_h() + r),
        ),
{
    let win = row_pair(air, g, root, i * air.s_inst_h() + r);
    let gate = w_per(air.s_p_fold_active());
    let col = air.s_af_p(0);
    let f = air.s_fold_sk_block();
    lemma_fold_place(air);
    lemma_laid_pair(air, g, insts, statements, root, i, r);
    lemma_fold_columns(air, win, r);
    lemma_leaf_values(air.s_p_fold_active(), win);
    if r < 32 * f {
        lemma_off(steps(col, gate), win);
    } else if r % 32 == 31 {
        super::places::lemma_idle_steps(col, gate, win);
    } else {
        let (b, t) = (r / 32 - f, r % 32);
        let input = fold_block_input(air, statements, i, b);
        lemma_input_len(air, statements, i, b);
        lemma_laid_next(air, g, insts, statements, root, i, r);
        lemma_laid_pair(air, g, insts, statements, root, i, r + 1);
        assert((r + 1) / 32 == r / 32 && (r + 1) % 32 == t + 1);
        let (x, y) = (block_row(input, t as nat), block_row(input, (t + 1) as nat));
        lemma_next_of_reduced(input, t as nat);
        assert((t + 1) as nat == t as nat + 1);
        assert(lanes_at(win.cur, col) =~= reduced_lanes(x)) by {
            assert forall|k: int| 0 <= k < 8 implies lanes_at(win.cur, col)[k] == #[trigger] reduced_lanes(x)[k] by {
                assert(win.cur[air.s_af_p(k)] == x[k]);
            }
        }
        assert(lanes_at(win.nxt, col) =~= reduced_lanes(y)) by {
            assert forall|k: int| 0 <= k < 8 implies lanes_at(win.nxt, col)[k] == #[trigger] reduced_lanes(y)[k] by {
                assert(win.nxt[air.s_af_p(k)] == y[k]);
            }
        }
        assert(at_step(win, t));
        law_steps_advance(col, gate, win, t);
    }
}

/// The chunk lanes and the tag at the start of the digest blocks.
#[verifier::spinoff_prover]
#[verifier::rlimit(40)]
proof fn lemma_fold_starts(
    air: MonolithAir,
    g: Seq<u64>,
    insts: Seq<Seq<u64>>,
    statements: Seq<Seq<u64>>,
    root: Seq<u64>,
    i: int,
    r: int,
    b: int,
)
    requires
        aggregate_stands(air, g, insts, statements, root),
        0 <= i < air.k_instances,
        0 <= r < air.s_inst_h(),
        0 <= b < air.s_n_sk_blocks(),
    ensures
        ({
            let win = row_pair(air, g, root, i * air.s_inst_h() + r);
            let on = w_per(air.s_p_fold_first(b));
            let chunk = air.s_chunks(statements[i])[b];
            &&& value(on, win) == mark(r == 32 * (air.s_fold_sk_block() + b))
            &&& r == 32 * (air.s_fold_sk_block() + b) ==> {
                &&& forall|k: int| 0 <= k < 4 ==> #[trigger] win.cur[air.s_af_p(4 + k)] == chunk[k]
                &&& b == 0 ==> forall|k: int| 0 <= k < 4 ==> #[trigger] win.cur[air.s_af_p(k)] == padded(
                    air.txroot_dom,
                )[k]
            }
        }),
{
    let win = row_pair(air, g, root, i * air.s_inst_h() + r);
    let f = air.s_fold_sk_block();
    lemma_fold_place(air);
    lemma_laid_pair(air, g, insts, statements, root, i, r);
    lemma_fold_columns(air, win, r);
    assert(win.periodic[air.s_p_fold_first(b)] == mark(r == 32 * (f + b)));
    lemma_leaf_values(air.s_p_fold_first(b), win);
    if r == 32 * (f + b) {
        assert(r / 32 - f == b && r % 32 == 0);
        let input = fold_block_input(air, statements, i, b);
        assert(block_row(input, 0) == input);
        lemma_chunks_four(air, statements[i]);
        lemma_chunk_len(air, statements[i], b);
        lemma_digest_len(air.txroot_dom, air.s_chunks(statements[i]), b as nat);
        let chunk = air.s_chunks(statements[i])[b];
        assert forall|k: int| 0 <= k < 4 implies #[trigger] win.cur[air.s_af_p(4 + k)] == chunk[k] by {
            assert(win.cur[air.s_af_p(4 + k)] == input[4 + k]);
        }
    }
}

/// The seed of a digest that is one chunk.
#[verifier::spinoff_prover]
#[verifier::rlimit(40)]
proof fn lemma_seed_row(
    air: MonolithAir,
    g: Seq<u64>,
    insts: Seq<Seq<u64>>,
    statements: Seq<Seq<u64>>,
    root: Seq<u64>,
    i: int,
    r: int,
)
    requires
        aggregate_stands(air, g, insts, statements, root),
        !air.fold_txstmt,
        0 <= i < air.k_instances,
        0 <= r < air.s_inst_h(),
    ensures
        vanish(air.s_fold_seed(), row_pair(air, g, root, i * air.s_inst_h() + r)),
{
    let win = row_pair(air, g, root, i * air.s_inst_h() + r);
    let on = w_per(air.s_p_fold_sk());
    let cs = air.s_fold_seed();
    lemma_fold_place(air);
    air.lemma_bounds();
    lemma_fold_starts(air, g, insts, statements, root, i, r, 0);
    lemma_laid_pair(air, g, insts, statements, root, i, r);
    assert(air.s_p_fold_first(0) == air.s_p_fold_sk());
    if r == 32 * air.s_fold_sk_block() {
        let (tag, pv) = (w_const(air.txroot_dom), w_cur(air.s_pw(air.s_pub_pi())));
        assert(win.cur[air.s_af_p(0)] == air.txroot_dom);
        assert(win.cur[air.s_af_p(1)] == 0 && win.cur[air.s_af_p(2)] == 0 && win.cur[air.s_af_p(3)] == 0);
        assert(win.cur[air.s_af_p(4int + 0)] == statements[i][0]);
        assert(win.cur[air.s_af_p(4int + 1)] == 0 && win.cur[air.s_af_p(4int + 2)] == 0 && win.cur[air.s_af_p(4int + 3)] == 0);
        assert(win.cur[air.s_pw(air.s_pub_pi() + 0)] == statements[i][0]);
        lemma_leaf_values(air.s_pw(air.s_pub_pi()), win);
        lemma_leaf_values(air.s_af_p(0), win);
        lemma_leaf_values(air.s_af_p(1), win);
        lemma_leaf_values(air.s_af_p(2), win);
        lemma_leaf_values(air.s_af_p(3), win);
        lemma_leaf_values(air.s_af_p(4), win);
        lemma_leaf_values(air.s_af_p(5), win);
        lemma_leaf_values(air.s_af_p(6), win);
        lemma_leaf_values(air.s_af_p(7), win);
        assert(value(tag, win) == f_red(air.txroot_dom as int));
        lemma_switched(on, w_cur(air.s_af_p(0)), tag, win);
        lemma_switched(on, w_cur(air.s_af_p(4)), pv, win);
        lemma_zero_product(on, w_cur(air.s_af_p(1)), win);
        lemma_zero_product(on, w_cur(air.s_af_p(2)), win);
        lemma_zero_product(on, w_cur(air.s_af_p(3)), win);
        lemma_zero_product(on, w_cur(air.s_af_p(5)), win);
        lemma_zero_product(on, w_cur(air.s_af_p(6)), win);
        lemma_zero_product(on, w_cur(air.s_af_p(7)), win);
    } else {
        lemma_off(cs, win);
    }
}

/// The chunks of a transaction's statement.
#[verifier::spinoff_prover]
#[verifier::rlimit(40)]
proof fn lemma_statement_row(
    air: MonolithAir,
    g: Seq<u64>,
    insts: Seq<Seq<u64>>,
    statements: Seq<Seq<u64>>,
    root: Seq<u64>,
    i: int,
    r: int,
    b: int,
)
    requires
        aggregate_stands(air, g, insts, statements, root),
        air.fold_txstmt,
        0 <= i < air.k_instances,
        0 <= r < air.s_inst_h(),
        0 <= b < FOLD_SK_BLOCKS,
    ensures
        vanish(air.s_statement(b), row_pair(air, g, root, i * air.s_inst_h() + r)),
{
    let win = row_pair(air, g, root, i * air.s_inst_h() + r);
    let on = w_per(air.s_p_fold_first(b));
    let cs = air.s_statement(b);
    lemma_fold_place(air);
    air.lemma_bounds();
    lemma_fold_starts(air, g, insts, statements, root, i, r, b);
    if r == 32 * (air.s_fold_sk_block() + b) {
        lemma_laid_pair(air, g, insts, statements, root, i, r);
        let chunk = air.s_chunks(statements[i])[b];
        assert forall|k: int| 0 <= k < 4 implies #[trigger] value(cs[k], win) == 0 by {
            let v = air.s_statement_lane(b, k);
            assert(win.cur[air.s_af_p(4 + k)] == chunk[k]);
            lemma_leaf_values(air.s_af_p(4 + k), win);
            lemma_chunk_source(b, k);
            match MonolithAir::s_chunk_src(b, k) {
                Some(off) => {
                    assert(win.cur[air.s_pw(air.s_pub_pi() + off)] == statements[i][off as int]);
                    lemma_leaf_values(air.s_pw(air.s_pub_pi() + off), win);
                },
                None => {
                    lemma_const_value(0, win);
                },
            }
            lemma_switched(on, w_cur(air.s_af_p(4 + k)), v, win);
            assert(cs[k] == w_times(on, w_minus(w_cur(air.s_af_p(4 + k)), v)));
        }
        if b == 0 {
            assert(win.cur[air.s_af_p(0)] == air.txroot_dom);
            assert(win.cur[air.s_af_p(1)] == 0 && win.cur[air.s_af_p(2)] == 0 && win.cur[air.s_af_p(3)] == 0);
            lemma_leaf_values(air.s_af_p(0), win);
            lemma_leaf_values(air.s_af_p(1), win);
            lemma_leaf_values(air.s_af_p(2), win);
            lemma_leaf_values(air.s_af_p(3), win);
            assert(value(w_const(air.txroot_dom), win) == f_red(air.txroot_dom as int));
            lemma_switched(on, w_cur(air.s_af_p(0)), w_const(air.txroot_dom), win);
            lemma_zero_product(on, w_cur(air.s_af_p(1)), win);
            lemma_zero_product(on, w_cur(air.s_af_p(2)), win);
            lemma_zero_product(on, w_cur(air.s_af_p(3)), win);
            assert(cs[4] == w_times(on, w_minus(w_cur(air.s_af_p(0)), w_const(air.txroot_dom))));
            assert(cs[5] == w_times(on, w_cur(air.s_af_p(1))));
            assert(cs[6] == w_times(on, w_cur(air.s_af_p(2))));
            assert(cs[7] == w_times(on, w_cur(air.s_af_p(3))));
        }
        assert(vanish(cs, win)) by {
            assert forall|j: int| 0 <= j < cs.len() implies value(#[trigger] cs[j], win) == 0 by {
                assert(j < 4 || j == 4 || j == 5 || j == 6 || j == 7);
            }
        }
    } else {
        lemma_off(cs, win);
    }
}

/// The end of a digest block and the start of the next fold block: the digest goes over.
#[verifier::rlimit(30)]
proof fn lemma_digest_moves(
    air: MonolithAir,
    g: Seq<u64>,
    insts: Seq<Seq<u64>>,
    statements: Seq<Seq<u64>>,
    root: Seq<u64>,
    i: int,
    b: int,
    k: int,
)
    requires
        aggregate_stands(air, g, insts, statements, root),
        0 <= i < air.k_instances,
        0 <= b < air.s_n_sk_blocks(),
        0 <= k < 4,
    ensures
        ({
            let r = 32 * (air.s_fold_sk_block() + b) + 31;
            let win = row_pair(air, g, root, i * air.s_inst_h() + r);
            let to = if b + 1 < air.s_n_sk_blocks() {
                air.s_af_p(k)
            } else {
                air.s_af_p(4 + k)
            };
            &&& win.nxt[to] == win.cur[air.s_af_p(k)]
            &&& win.is_transition == 1
        }),
{
    let f = air.s_fold_sk_block();
    let r = 32 * (f + b) + 31;
    let n = air.s_n_sk_blocks();
    let win = row_pair(air, g, root, i * air.s_inst_h() + r);
    let next = row_pair(air, g, root, i * air.s_inst_h() + (r + 1));
    lemma_fold_place(air);
    lemma_laid_pair(air, g, insts, statements, root, i, r);
    lemma_laid_pair(air, g, insts, statements, root, i, r + 1);
    lemma_laid_next(air, g, insts, statements, root, i, r);
    assert(r / 32 - f == b && r % 32 == 31);
    assert((r + 1) / 32 - f == b + 1 && (r + 1) % 32 == 0);
    let (x, y) = (fold_block_input(air, statements, i, b), fold_block_input(air, statements, i, b + 1));
    let chunks = air.s_chunks(statements[i]);
    assert(block_row(y, 0) == y);
    assert(block_row(x, 31) == permuted(x)) by {
        reveal(block_last);
    }
    assert(((b + 1) as nat - 1) as nat == b as nat);
    let digest = chain_digest(air.txroot_dom, chunks, (b + 1) as nat);
    assert(digest == permuted(x).subrange(0, 4));
    lemma_chunks_four(air, statements[i]);
    lemma_digest_len(air.txroot_dom, chunks, (b + 1) as nat);
    lemma_root_len(air, statements, i as nat);
    assert(win.cur[air.s_af_p(k)] == permuted(x)[k]);
    if b + 1 < n {
        assert(next.cur[air.s_af_p(k)] == y[k]);
    } else {
        assert(next.cur[air.s_af_p(4 + k)] == y[4 + k]);
    }
}

/// The links, the way out of the digest and the way into the root block.
#[verifier::spinoff_prover]
#[verifier::rlimit(40)]
proof fn lemma_links_row(
    air: MonolithAir,
    g: Seq<u64>,
    insts: Seq<Seq<u64>>,
    statements: Seq<Seq<u64>>,
    root: Seq<u64>,
    i: int,
    r: int,
)
    requires
        aggregate_stands(air, g, insts, statements, root),
        0 <= i < air.k_instances,
        0 <= r < air.s_inst_h(),
    ensures
        ({
            let win = row_pair(air, g, root, i * air.s_inst_h() + r);
            &&& air.fold_txstmt ==> vanish(air.s_fold_link(), win)
            &&& vanish(air.s_fold_out(), win)
            &&& vanish(air.s_root_in(), win)
        }),
{
    let win = row_pair(air, g, root, i * air.s_inst_h() + r);
    let (f, n) = (air.s_fold_sk_block(), air.s_n_sk_blocks());
    lemma_fold_place(air);
    lemma_laid_pair(air, g, insts, statements, root, i, r);
    lemma_fold_columns(air, win, r);
    let (link, out, inn) = (w_per(air.s_p_fold_sklink()), w_per(air.s_p_fold_sklast()), w_per(air.s_p_fold_rootin()));
    lemma_leaf_values(air.s_p_fold_sklast(), win);
    lemma_leaf_values(air.s_p_fold_rootin(), win);
    let (cl, co, ci) = (air.s_fold_link(), air.s_fold_out(), air.s_root_in());
    if air.fold_txstmt {
        lemma_leaf_values(air.s_p_fold_sklink(), win);
        if 32 * f <= r < 32 * (f + n - 1) && r % 32 == 31 {
            let b = r / 32 - f;
            assert forall|k: int| 0 <= k < 4 implies #[trigger] value(cl[k], win) == 0 by {
                let p = air.s_af_p(k);
                lemma_digest_moves(air, g, insts, statements, root, i, b, k);
                lemma_leaf_values(p, win);
                lemma_switched(link, w_nxt(p), w_cur(p), win);
                assert(k == 0 || k == 1 || k == 2 || k == 3);
                assert(cl[k] == w_on_transition(w_times(link, w_minus(w_nxt(p), w_cur(p)))));
            }
            assert(cl.len() == 4);
        } else {
            lemma_off(cl, win);
        }
    }
    if r == 32 * (f + n - 1) + 31 {
        assert forall|k: int| 0 <= k < 4 implies #[trigger] value(co[k], win) == 0 by {
            let (p, q) = (air.s_af_p(4 + k), air.s_af_p(k));
            lemma_digest_moves(air, g, insts, statements, root, i, n - 1, k);
            lemma_leaf_values(p, win);
            lemma_leaf_values(q, win);
            lemma_switched(out, w_nxt(p), w_cur(q), win);
            assert(k == 0 || k == 1 || k == 2 || k == 3);
            assert(co[k] == w_on_transition(w_times(out, w_minus(w_nxt(p), w_cur(q)))));
        }
        assert(co.len() == 4);
    } else {
        lemma_off(co, win);
    }
    if r == 32 * (f + n) {
        assert(r / 32 - f == n && r % 32 == 0);
        let input = fold_block_input(air, statements, i, n);
        assert(block_row(input, 0) == input);
        lemma_root_len(air, statements, i as nat);
        assert forall|k: int| 0 <= k < 4 implies #[trigger] value(ci[k], win) == 0 by {
            let (p, q) = (air.s_af_p(k), air.s_af_root(k));
            assert(win.cur[air.s_af_p(k)] == input[k]);
            assert(win.cur[air.s_af_root(k)] == air.s_fold_root(statements, i as nat)[k]);
            lemma_leaf_values(p, win);
            lemma_leaf_values(q, win);
            lemma_switched(inn, w_cur(p), w_cur(q), win);
            assert(k == 0 || k == 1 || k == 2 || k == 3);
            assert(ci[k] == w_times(inn, w_minus(w_cur(p), w_cur(q))));
        }
        assert(ci.len() == 4);
    } else {
        lemma_off(ci, win);
    }
}

/// The end of an instance holds the root behind its statement.
#[verifier::rlimit(30)]
proof fn lemma_end_holds_root(
    air: MonolithAir,
    g: Seq<u64>,
    insts: Seq<Seq<u64>>,
    statements: Seq<Seq<u64>>,
    root: Seq<u64>,
    i: int,
    k: int,
)
    requires
        aggregate_stands(air, g, insts, statements, root),
        0 <= i < air.k_instances,
        0 <= k < 4,
    ensures
        row_pair(air, g, root, i * air.s_inst_h() + (air.s_inst_h() - 1)).cur[air.s_af_p(k)] == air.s_fold_root(
            statements,
            (i + 1) as nat,
        )[k],
{
    let r = air.s_inst_h() - 1;
    let (f, n) = (air.s_fold_sk_block(), air.s_n_sk_blocks());
    lemma_fold_place(air);
    lemma_laid_pair(air, g, insts, statements, root, i, r);
    assert(r / 32 - f == n && r % 32 == 31);
    let x = fold_block_input(air, statements, i, n);
    assert(block_row(x, 31) == permuted(x)) by {
        reveal(block_last);
    }
    assert(((i + 1) as nat - 1) as nat == i as nat);
    lemma_input_len(air, statements, i, n);
    lemma_permuted_eight(x);
    assert(air.s_fold_root(statements, (i + 1) as nat) == permuted(x).subrange(0, 4));
}

/// The root in the next row.
#[verifier::spinoff_prover]
#[verifier::rlimit(40)]
proof fn lemma_next_root(
    air: MonolithAir,
    g: Seq<u64>,
    insts: Seq<Seq<u64>>,
    statements: Seq<Seq<u64>>,
    root: Seq<u64>,
    i: int,
    r: int,
    k: int,
)
    requires
        aggregate_stands(air, g, insts, statements, root),
        0 <= i < air.k_instances,
        0 <= r < air.s_inst_h(),
        0 <= k < 4,
        i * air.s_inst_h() + r + 1 < air.s_height(),
    ensures
        row_pair(air, g, root, i * air.s_inst_h() + r).nxt[air.s_af_root(k)] == (if r == air.s_inst_h() - 1 {
            air.s_fold_root(statements, (i + 1) as nat)[k]
        } else {
            air.s_fold_root(statements, i as nat)[k]
        }),
{
    let h = air.s_inst_h();
    let row = i * h + r;
    lemma_fold_place(air);
    lemma_laid_pair(air, g, insts, statements, root, i, r);
    if r == h - 1 {
        assert(i + 1 < air.k_instances) by (nonlinear_arith)
            requires
                i * h + (h - 1) + 1 < air.k_instances * h,
                0 < h,
        ;
        lemma_laid_pair(air, g, insts, statements, root, i + 1, 0);
        assert((i + 1) * h + 0 == row + 1) by (nonlinear_arith)
            requires
                row == i * h + (h - 1),
        ;
        let next = row_pair(air, g, root, (i + 1) * h + 0);
        assert(next.cur[air.s_af_root(k)] == air.s_fold_root(statements, (i + 1) as nat)[k]);
    } else {
        lemma_laid_pair(air, g, insts, statements, root, i, r + 1);
        lemma_laid_next(air, g, insts, statements, root, i, r);
        let next = row_pair(air, g, root, i * h + (r + 1));
        assert(next.cur[air.s_af_root(k)] == air.s_fold_root(statements, i as nat)[k]);
    }
}

/// The constraints on the running root in a window that shows it.
#[verifier::rlimit(30)]
proof fn lemma_root_wires(air: MonolithAir, win: Window, k: int, r: int, now: u64, next: u64)
    requires
        air.aggregates(),
        0 <= k < 4,
        columns_shown(air, win, r),
        win.cur[air.s_af_root(k)] == now,
        win.is_transition == 0 || (win.is_transition == 1 && win.nxt[air.s_af_root(k)] == (if r == air.s_inst_h() - 1 {
            next
        } else {
            now
        })),
        r == air.s_inst_h() - 1 ==> win.cur[air.s_af_p(k)] == next,
        win.is_first == 0 || now == 0,
        win.is_last == 0 || (r == air.s_inst_h() - 1 && f_red(win.publics[k] as int) == f_red(next as int)),
    ensures
        vanish(air.s_root(k), win),
{
    let (p, q) = (air.s_af_root(k), air.s_af_p(k));
    let on = w_per(air.s_p_fold_rootupd());
    let no = w_minus(w_const(1), on);
    lemma_fold_place(air);
    lemma_fold_columns(air, win, r);
    lemma_leaf_values(air.s_p_fold_rootupd(), win);
    lemma_const_value(1, win);
    lemma_op_values(w_const(1), on, win);
    lemma_leaf_values(p, win);
    lemma_leaf_values(q, win);
    let cs = air.s_root(k);
    lemma_first_only(w_cur(p), win);
    let (keep, take) = (w_times(no, w_minus(w_nxt(p), w_cur(p))), w_times(on, w_minus(w_nxt(p), w_cur(q))));
    if win.is_transition == 0 {
        lemma_no_transition(keep, win);
        lemma_no_transition(take, win);
    } else {
        lemma_switched(no, w_nxt(p), w_cur(p), win);
        lemma_switched(on, w_nxt(p), w_cur(q), win);
    }
    let last: Wire = std::sync::Arc::new(Expr::IsLastRow);
    assert(value(last, win) == f_red(win.is_last as int));
    assert(value(w_pub(k), win) == f_red(win.publics[k] as int));
    lemma_switched(last, w_cur(q), w_pub(k), win);
    assert(cs[0] == w_on_first(w_cur(p)));
    assert(cs[1] == w_on_transition(keep));
    assert(cs[2] == w_on_transition(take));
    assert(cs[3] == w_times(last, w_minus(w_cur(q), w_pub(k))));
}

/// The running root.
#[verifier::spinoff_prover]
#[verifier::rlimit(40)]
proof fn lemma_running_root(
    air: MonolithAir,
    g: Seq<u64>,
    insts: Seq<Seq<u64>>,
    statements: Seq<Seq<u64>>,
    root: Seq<u64>,
    i: int,
    r: int,
    k: int,
)
    requires
        aggregate_stands(air, g, insts, statements, root),
        0 <= i < air.k_instances,
        0 <= r < air.s_inst_h(),
        0 <= k < 4,
    ensures
        vanish(air.s_root(k), row_pair(air, g, root, i * air.s_inst_h() + r)),
{
    let h = air.s_inst_h();
    let row = i * h + r;
    let win = row_pair(air, g, root, row);
    lemma_fold_place(air);
    lemma_laid_pair(air, g, insts, statements, root, i, r);
    let (now, next) = (air.s_fold_root(statements, i as nat)[k], air.s_fold_root(statements, (i + 1) as nat)[k]);
    assert(win.cur[air.s_af_root(k)] == now);
    if row == 0 {
        assert(i == 0) by (nonlinear_arith)
            requires
                i * h + r == 0,
                0 <= i,
                0 <= r,
                0 < h,
        ;
    }
    if row + 1 < air.s_height() {
        lemma_next_root(air, g, insts, statements, root, i, r, k);
    }
    if r == h - 1 {
        lemma_end_holds_root(air, g, insts, statements, root, i, k);
    }
    lemma_root_wires(air, win, k, r, now, next);
}

/// On every row of the trace the constraints of the root's fold vanish.
#[verifier::rlimit(30)]
pub proof fn law_laid_root_folds(
    air: MonolithAir,
    g: Seq<u64>,
    insts: Seq<Seq<u64>>,
    statements: Seq<Seq<u64>>,
    root: Seq<u64>,
    i: int,
    r: int,
)
    requires
        aggregate_stands(air, g, insts, statements, root),
        0 <= i < air.k_instances,
        0 <= r < air.s_inst_h(),
    ensures
        vanish(air.s_root_fold(), row_pair(air, g, root, i * air.s_inst_h() + r)),
{
    let win = row_pair(air, g, root, i * air.s_inst_h() + r);
    lemma_fold_steps(air, g, insts, statements, root, i, r);
    if air.fold_txstmt {
        assert forall|b: int| 0 <= b < FOLD_SK_BLOCKS implies vanish(#[trigger] air.f_statement()(b), win) by {
            lemma_statement_row(air, g, insts, statements, root, i, r, b);
        }
        lemma_vanish_flat(FOLD_SK_BLOCKS as int, air.f_statement(), win);
    } else {
        lemma_seed_row(air, g, insts, statements, root, i, r);
    }
    lemma_links_row(air, g, insts, statements, root, i, r);
    assert forall|k: int| 0 <= k < 4 implies vanish(#[trigger] air.f_root()(k), win) by {
        lemma_running_root(air, g, insts, statements, root, i, r, k);
    }
    lemma_vanish_flat(4, air.f_root(), win);
    lemma_root_parts(air, win);
}

} // verus!
