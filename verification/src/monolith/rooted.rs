//! What a trace that satisfies the system of an aggregator shows of the root: it is the fold of the statements that the
//! instances show in their windows.

use vstd::prelude::*;

use super::aggregate::chain_digest;
use super::arith::steps;
use super::eval::{InlineBci, MonolithBci};
use super::grid::cell;
use super::layout::{MonolithAir, FOLD_SK_BLOCKS};
use super::leaves::mark;
use super::meaning::{at_step, digest_at, lanes_at, law_steps_advance};
use super::pairs::{columns_shown, lemma_columns_stand, lemma_instance_row, lemma_pair_columns, row_pair, satisfied};
use super::paths::{lemma_next_of_reduced, reduced_lanes};
use super::reading::row_at;
use super::satisfied::{lemma_eval_parts, lemma_instance_parts, lemma_transcript_parts};
use crate::emit::flat;
use crate::expr::{value, w_const, w_cur, w_minus, w_nxt, w_on_transition, w_per, w_pub, w_times, Expr, Window, Wire};
use crate::field::{f_red, MODULUS};
use crate::gadgets::agg::padded;
use crate::poseidon::{block_last, block_row, next_row, paired, permuted};
use crate::vanish::{
    lemma_const_value, lemma_gated_equation, lemma_gates, lemma_leaf_values, lemma_op_values, lemma_vanish_flat,
    lemma_vanish_parts, vanish,
};

verus! {

/// The permutation depends on the lanes modulo p alone.
pub(super) proof fn lemma_permuted_of_reduced(input: Seq<u64>)
    requires
        input.len() == 8,
    ensures
        permuted(reduced_lanes(input)) == permuted(input),
{
    lemma_rows_of_reduced(input, 31);
    reveal(block_last);
}

proof fn lemma_rows_of_reduced(input: Seq<u64>, t: nat)
    requires
        input.len() == 8,
        t > 0,
    ensures
        block_row(reduced_lanes(input), t) == block_row(input, t),
    decreases t,
{
    if t == 1 {
        lemma_next_of_reduced(input, 0);
        assert(block_row(input, 0) == input);
        assert(block_row(reduced_lanes(input), 0) == reduced_lanes(input));
    } else {
        lemma_rows_of_reduced(input, (t - 1) as nat);
    }
}

/// The lanes of the fold blocks in row `row`.
pub open spec fn fold_lanes(air: MonolithAir, g: Seq<u64>, row: int) -> Seq<u64> {
    lanes_at(row_at(g, air.s_fold_w(), row), air.s_af_p(0))
}

/// The running root in row `row`.
pub open spec fn fold_held(air: MonolithAir, g: Seq<u64>, row: int) -> Seq<u64> {
    digest_at(row_at(g, air.s_fold_w(), row), air.s_af_root(0))
}

/// The statement that instance `i` shows in its window.
pub open spec fn shown_statement(air: MonolithAir, g: Seq<u64>, i: int) -> Seq<u64> {
    Seq::new(
        air.s_n_pub() as nat,
        |j: int| f_red(cell(g, air.s_fold_w(), i * air.s_inst_h(), air.s_pw(air.s_pub_pi() + j)) as int),
    )
}

/// The statements that the instances show.
pub open spec fn shown_statements(air: MonolithAir, g: Seq<u64>) -> Seq<Seq<u64>> {
    Seq::new(air.k_instances as nat, |i: int| shown_statement(air, g, i))
}

/// Where the fold selectors stand, and what they show on row `r` of an instance.
#[verifier::spinoff_prover]
#[verifier::rlimit(40)]
pub(super) proof fn lemma_fold_columns(air: MonolithAir, win: Window, r: int)
    requires
        air.wf(),
        air.fold,
        columns_shown(air, win, r),
    ensures
        ({
            let (f, n) = (air.s_fold_sk_block(), air.s_n_sk_blocks());
            &&& win.periodic[air.s_p_fold_active()] == mark(32 * f <= r < 32 * (f + n + 1))
            &&& forall|b: int| 0 <= b < n ==> win.periodic[#[trigger] air.s_p_fold_first(b)] == mark(r == 32 * (f + b))
            &&& air.fold_txstmt ==> win.periodic[air.s_p_fold_sklink()] == mark(
                32 * f <= r < 32 * (f + n - 1) && r % 32 == 31,
            )
            &&& win.periodic[air.s_p_fold_sklast()] == mark(r == 32 * (f + n - 1) + 31)
            &&& win.periodic[air.s_p_fold_rootin()] == mark(r == 32 * (f + n))
            &&& win.periodic[air.s_p_fold_rootupd()] == mark(r == 32 * (f + n) + 31)
            &&& 0 <= air.s_p_fold_active()
            &&& air.s_p_fold_rootupd() < air.s_p_inst_first() <= usize::MAX
            &&& forall|b: int| 0 <= b < n ==> 0 <= #[trigger] air.s_p_fold_first(b) < air.s_p_inst_first()
            &&& air.fold_txstmt ==> 0 <= air.s_p_fold_sklink() < air.s_p_inst_first()
        }),
{
    let (f, n) = (air.s_fold_sk_block(), air.s_n_sk_blocks());
    lemma_columns_stand(air);
    let base = air.s_fold_base();
    assert(air.s_random_absorb_base() == base + air.s_n_fold_p());
    assert forall|j: int| base <= j < base + air.s_n_fold_p() implies #[trigger] win.periodic[j] == mark(
        air.fold_selector(j - base, r),
    ) by {
        assert(air.selector(j, r) == air.fold_selector(j - base, r));
    }
    if air.fold_txstmt {
        let there = exists|b: int| 0 <= b < n - 1 && r == #[trigger] ((f + b) * 32) + 31;
        assert(there <==> 32 * f <= r < 32 * (f + n - 1) && r % 32 == 31) by {
            if 32 * f <= r < 32 * (f + n - 1) && r % 32 == 31 {
                let b = r / 32 - f;
                assert(r == ((f + b) * 32) + 31);
            }
        }
        assert(win.periodic[air.s_p_fold_sklink()] == mark(there));
    }
}

/// The families of the root's fold.
#[verifier::rlimit(30)]
pub(super) proof fn lemma_root_parts(air: MonolithAir, win: Window)
    requires
        air.fold,
    ensures
        vanish(air.s_root_fold(), win) <==> {
            &&& vanish(steps(air.s_af_p(0), w_per(air.s_p_fold_active())), win)
            &&& air.fold_txstmt ==> vanish(flat(FOLD_SK_BLOCKS as int, air.f_statement()), win) && vanish(
                air.s_fold_link(),
                win,
            )
            &&& !air.fold_txstmt ==> vanish(air.s_fold_seed(), win)
            &&& vanish(air.s_fold_out(), win)
            &&& vanish(air.s_root_in(), win)
            &&& vanish(air.all_root(), win)
        },
{
    let (a, d) = (steps(air.s_af_p(0), w_per(air.s_p_fold_active())), air.s_root_in());
    let (x, y, z) = (flat(FOLD_SK_BLOCKS as int, air.f_statement()), air.s_fold_link(), air.s_fold_out());
    let digest = if air.fold_txstmt {
        x + y + z
    } else {
        air.s_fold_seed() + z
    };
    lemma_vanish_parts(x, y, win);
    lemma_vanish_parts(x + y, z, win);
    lemma_vanish_parts(air.s_fold_seed(), z, win);
    lemma_vanish_parts(a, digest, win);
    lemma_vanish_parts(a + digest, d, win);
    lemma_vanish_parts(a + digest + d, air.all_root(), win);
    assert(air.s_root_fold() == a + digest + d + air.all_root());
}

/// A satisfied trace of an aggregator.
pub open spec fn root_satisfied(air: MonolithAir, g: Seq<u64>, root: Seq<u64>) -> bool {
    &&& air.aggregates()
    &&& air.eval_ok()
    &&& air.column_window
    &&& root.len() == 4
    &&& g.len() == air.s_height() * air.s_fold_w()
    &&& satisfied(InlineBci, air, g, root)
}

/// What holds on row `r` of instance `i`.
#[verifier::rlimit(30)]
proof fn lemma_fold_row(air: MonolithAir, g: Seq<u64>, root: Seq<u64>, i: int, r: int)
    requires
        root_satisfied(air, g, root),
        0 <= i < air.k_instances,
        0 <= r < air.s_inst_h(),
    ensures
        ({
            let row = i * air.s_inst_h() + r;
            let win = row_pair(air, g, root, row);
            &&& 0 <= row < air.s_height()
            &&& columns_shown(air, win, r)
            &&& vanish(air.s_root_fold(), win)
            &&& vanish(air.all_window(), win)
            &&& row + 1 < air.s_height() ==> win.nxt == row_at(g, air.s_fold_w(), row + 1) && win.is_transition == 1
        }),
{
    let row = i * air.s_inst_h() + r;
    let win = row_pair(air, g, root, row);
    lemma_instance_row(air, i, r);
    lemma_pair_columns(air, g, root, i, r);
    reveal(satisfied);
    assert(vanish(air.s_eval(InlineBci), win));
    lemma_eval_parts(air, win);
    lemma_instance_parts(air, win);
    lemma_transcript_parts(air, win);
    if row + 1 < air.s_height() {
        vstd::arithmetic::div_mod::lemma_small_mod((row + 1) as nat, air.s_height() as nat);
    }
}

/// Where the fold blocks of an instance stand.
pub(super) proof fn lemma_fold_place(air: MonolithAir)
    requires
        air.aggregates(),
    ensures
        ({
            let (f, n) = (air.s_fold_sk_block(), air.s_n_sk_blocks());
            &&& 0 <= f
            &&& 1 <= n
            &&& 32 * (f + n + 1) == air.s_inst_h()
            &&& air.s_fold_w() == air.s_fused_w() + 12
            &&& 13 <= air.s_fused_w()
            &&& air.s_fold_w() <= usize::MAX
            &&& air.s_pw_base() + air.s_pis_count() <= air.s_fused_w() || !air.column_window
        }),
{
    lemma_columns_stand(air);
    air.lemma_bounds();
}

/// Lanes that stand `t` steps into a fold block.
#[verifier::opaque]
spec fn fold_runs(start: Seq<u64>, end: Seq<u64>, t: nat) -> bool {
    end == block_row(start, t)
}

proof fn lemma_fold_step(start: Seq<u64>, a: Seq<u64>, b: Seq<u64>, t: nat)
    requires
        fold_runs(start, a, t),
        b == next_row(a, t as int),
    ensures
        fold_runs(start, b, t + 1),
{
    reveal(fold_runs);
    assert(((t + 1) as nat - 1) as nat == t);
}

/// The next row of a fold block.
#[verifier::rlimit(30)]
proof fn lemma_fold_advances(air: MonolithAir, g: Seq<u64>, root: Seq<u64>, i: int, r: int)
    requires
        root_satisfied(air, g, root),
        0 <= i < air.k_instances,
        32 * air.s_fold_sk_block() <= r,
        r + 1 < air.s_inst_h(),
        r % 32 < 31,
    ensures
        ({
            let row = i * air.s_inst_h() + r;
            fold_lanes(air, g, row + 1) == next_row(fold_lanes(air, g, row), r % 32)
        }),
{
    let row = i * air.s_inst_h() + r;
    let win = row_pair(air, g, root, row);
    lemma_fold_place(air);
    lemma_instance_row(air, i, r);
    lemma_instance_row(air, i, r + 1);
    lemma_fold_row(air, g, root, i, r);
    lemma_fold_columns(air, win, r);
    lemma_root_parts(air, win);
    let gate = w_per(air.s_p_fold_active());
    lemma_leaf_values(air.s_p_fold_active(), win);
    assert(at_step(win, r % 32));
    law_steps_advance(air.s_af_p(0), gate, win, r % 32);
}

#[verifier::rlimit(30)]
proof fn lemma_fold_rows(air: MonolithAir, g: Seq<u64>, root: Seq<u64>, i: int, b: int, t: nat)
    requires
        root_satisfied(air, g, root),
        0 <= i < air.k_instances,
        0 <= b <= air.s_n_sk_blocks(),
        t <= 31,
    ensures
        ({
            let first = i * air.s_inst_h() + 32 * (air.s_fold_sk_block() + b);
            fold_runs(fold_lanes(air, g, first), fold_lanes(air, g, first + t), t)
        }),
    decreases t,
{
    let r = 32 * (air.s_fold_sk_block() + b);
    let first = i * air.s_inst_h() + r;
    if t == 0 {
        reveal(fold_runs);
    } else {
        let m = (t - 1) as nat;
        lemma_fold_place(air);
        lemma_fold_rows(air, g, root, i, b, m);
        assert((r + m) % 32 == m);
        lemma_fold_advances(air, g, root, i, r + m);
        lemma_fold_step(fold_lanes(air, g, first), fold_lanes(air, g, first + m), fold_lanes(air, g, first + t), m);
    }
}

/// A fold block runs the permutation.
proof fn lemma_fold_block(air: MonolithAir, g: Seq<u64>, root: Seq<u64>, i: int, b: int)
    requires
        root_satisfied(air, g, root),
        0 <= i < air.k_instances,
        0 <= b <= air.s_n_sk_blocks(),
    ensures
        ({
            let first = i * air.s_inst_h() + 32 * (air.s_fold_sk_block() + b);
            fold_lanes(air, g, first + 31) == permuted(fold_lanes(air, g, first))
        }),
{
    lemma_fold_rows(air, g, root, i, b, 31);
    reveal(fold_runs);
    reveal(block_last);
}

/// A value of the window in any row of an instance is that of its first row.
#[verifier::rlimit(30)]
proof fn lemma_statement_held(air: MonolithAir, g: Seq<u64>, root: Seq<u64>, i: int, r: int, c: int)
    requires
        root_satisfied(air, g, root),
        0 <= i < air.k_instances,
        0 <= r < air.s_inst_h(),
        0 <= c < air.s_pis_count(),
    ensures
        ({
            let at = i * air.s_inst_h();
            f_red(cell(g, air.s_fold_w(), at + r, air.s_pw(c)) as int) == f_red(
                cell(g, air.s_fold_w(), at, air.s_pw(c)) as int,
            )
        }),
    decreases r,
{
    if r > 0 {
        let p = air.s_pw(c);
        let row = i * air.s_inst_h() + (r - 1);
        let win = row_pair(air, g, root, row);
        lemma_statement_held(air, g, root, i, r - 1, c);
        lemma_fold_place(air);
        lemma_columns_stand(air);
        air.lemma_bounds();
        lemma_fold_row(air, g, root, i, r - 1);
        lemma_instance_row(air, i, r);
        lemma_vanish_flat(air.s_pis_count(), air.f_window(), win);
        let fam = air.f_window()(c);
        assert(vanish(fam, win));
        let last = w_per(air.s_p_inst_last());
        let held = w_minus(w_const(1), last);
        let e = w_times(held, w_minus(w_nxt(p), w_cur(p)));
        assert(fam[0] == w_on_transition(e));
        assert(value(fam[0], win) == 0);
        lemma_leaf_values(air.s_p_inst_last(), win);
        lemma_const_value(1, win);
        lemma_op_values(w_const(1), last, win);
        super::meaning::lemma_transition_value(e, win);
        lemma_leaf_values(p, win);
        lemma_gated_equation(held, w_nxt(p), w_cur(p), win);
    }
}

/// A lane that is set to a value on a row.
proof fn lemma_set_lane(air: MonolithAir, win: Window, on: Wire, c: int, v: Wire)
    requires
        value(on, win) == 1,
        0 <= c <= usize::MAX,
        value(w_times(on, w_minus(w_cur(c), v)), win) == 0,
    ensures
        f_red(win.cur[c] as int) == value(v, win),
{
    lemma_leaf_values(c, win);
    lemma_gated_equation(on, w_cur(c), v, win);
}

/// A lane that is set to zero on a row.
proof fn lemma_zero_lane(air: MonolithAir, win: Window, on: Wire, c: int)
    requires
        value(on, win) == 1,
        0 <= c <= usize::MAX,
        value(w_times(on, w_cur(c)), win) == 0,
    ensures
        f_red(win.cur[c] as int) == 0,
{
    lemma_leaf_values(c, win);
    lemma_op_values(on, w_cur(c), win);
    crate::expr::lemma_value_canonical(w_cur(c), win);
    lemma_gates(value(w_cur(c), win));
}

/// A lane that goes over into the next row.
proof fn lemma_moved_lane(win: Window, on: Wire, to: int, from: int)
    requires
        win.is_transition == 1,
        value(on, win) == 1,
        0 <= to <= usize::MAX,
        0 <= from <= usize::MAX,
        value(w_on_transition(w_times(on, w_minus(w_nxt(to), w_cur(from)))), win) == 0,
    ensures
        f_red(win.nxt[to] as int) == f_red(win.cur[from] as int),
{
    lemma_leaf_values(to, win);
    lemma_leaf_values(from, win);
    super::meaning::lemma_transition_value(w_times(on, w_minus(w_nxt(to), w_cur(from))), win);
    lemma_gated_equation(on, w_nxt(to), w_cur(from), win);
}

/// What the first row of digest block `b` of a statement holds.
pub open spec fn digest_input(air: MonolithAir, pvs: Seq<u64>, b: int) -> Seq<u64> {
    paired(chain_digest(air.txroot_dom, air.s_chunks(pvs), b as nat), air.s_chunks(pvs)[b])
}

/// The chunks of a statement have four felts each.
pub(super) proof fn lemma_chunk_len(air: MonolithAir, pvs: Seq<u64>, b: int)
    requires
        0 <= b < air.s_n_sk_blocks(),
    ensures
        air.s_chunks(pvs).len() == air.s_n_sk_blocks(),
        air.s_chunks(pvs)[b].len() == 4,
{
}

/// A digest of a run of chunks has four felts.
pub(super) proof fn lemma_digest_len(dom: u64, chunks: Seq<Seq<u64>>, n: nat)
    requires
        n <= chunks.len(),
        forall|b: int| 0 <= b < chunks.len() ==> (#[trigger] chunks[b]).len() == 4,
    ensures
        chain_digest(dom, chunks, n).len() == 4,
    decreases n,
{
    if n > 0 {
        lemma_digest_len(dom, chunks, (n - 1) as nat);
        assert(chunks[n - 1].len() == 4);
        lemma_permuted_eight(paired(chain_digest(dom, chunks, (n - 1) as nat), chunks[n - 1]));
    }
}

/// The permutation has eight lanes, all reduced.
pub(super) proof fn lemma_permuted_eight(input: Seq<u64>)
    requires
        input.len() == 8,
    ensures
        permuted(input).len() == 8,
        forall|k: int| 0 <= k < 8 ==> #[trigger] permuted(input)[k] < MODULUS,
{
    lemma_next_of_reduced(input, 30);
    reveal(block_last);
    let last = block_row(input, 31);
    crate::poseidon::lemma_block_row_len(input, 31);
    assert forall|k: int| 0 <= k < 8 implies #[trigger] last[k] < MODULUS by {
        assert(reduced_lanes(last)[k] == last[k]);
    }
}

/// The seed of a digest that is one chunk.
#[verifier::spinoff_prover]
#[verifier::rlimit(40)]
proof fn lemma_seeded(air: MonolithAir, g: Seq<u64>, root: Seq<u64>, i: int)
    requires
        root_satisfied(air, g, root),
        !air.fold_txstmt,
        0 <= i < air.k_instances,
    ensures
        fold_lanes(air, g, i * air.s_inst_h() + 32 * air.s_fold_sk_block()) == reduced_lanes(
            digest_input(air, shown_statement(air, g, i), 0),
        ),
{
    let r = 32 * air.s_fold_sk_block();
    let row = i * air.s_inst_h() + r;
    let win = row_pair(air, g, root, row);
    let pvs = shown_statement(air, g, i);
    let cs = air.s_fold_seed();
    let on = w_per(air.s_p_fold_sk());
    lemma_fold_place(air);
    air.lemma_bounds();
    lemma_fold_row(air, g, root, i, r);
    lemma_fold_columns(air, win, r);
    lemma_root_parts(air, win);
    assert(air.s_p_fold_first(0) == air.s_p_fold_sk());
    lemma_leaf_values(air.s_p_fold_sk(), win);
    assert(value(on, win) == 1);
    let (tag, pv) = (w_const(air.txroot_dom), w_cur(air.s_pw(air.s_pub_pi())));
    assert(value(cs[0], win) == 0 && value(cs[1], win) == 0 && value(cs[2], win) == 0 && value(cs[3], win) == 0 && value(
        cs[4],
        win,
    ) == 0 && value(cs[5], win) == 0 && value(cs[6], win) == 0 && value(cs[7], win) == 0);
    lemma_set_lane(air, win, on, air.s_af_p(0), tag);
    lemma_set_lane(air, win, on, air.s_af_p(4), pv);
    lemma_zero_lane(air, win, on, air.s_af_p(1));
    lemma_zero_lane(air, win, on, air.s_af_p(2));
    lemma_zero_lane(air, win, on, air.s_af_p(3));
    lemma_zero_lane(air, win, on, air.s_af_p(5));
    lemma_zero_lane(air, win, on, air.s_af_p(6));
    lemma_zero_lane(air, win, on, air.s_af_p(7));
    assert(0 <= air.s_pub_pi() < air.s_pis_count());
    lemma_statement_held(air, g, root, i, r, air.s_pub_pi());
    lemma_leaf_values(air.s_pw(air.s_pub_pi()), win);
    assert(value(tag, win) == f_red(air.txroot_dom as int));
    assert(air.s_pub_pi() + 0 == air.s_pub_pi());
    assert(value(pv, win) == pvs[0]);
    assert(f_red(pvs[0] as int) == pvs[0]);
    let (got, want) = (fold_lanes(air, g, row), reduced_lanes(digest_input(air, pvs, 0)));
    assert(digest_input(air, pvs, 0) == paired(padded(air.txroot_dom), padded(pvs[0])));
    assert(got[0] == want[0] && got[1] == want[1] && got[2] == want[2] && got[3] == want[3] && got[4] == want[4] && got[5]
        == want[5] && got[6] == want[6] && got[7] == want[7]);
    assert(got =~= want);
}

/// The felts of a statement that its chunks read lie among the first 26.
pub(super) proof fn lemma_chunk_source(b: int, k: int)
    requires
        0 <= b < FOLD_SK_BLOCKS,
        0 <= k < 4,
    ensures
        MonolithAir::s_chunk_src(b, k) matches Some(off) ==> off < 26,
{
}

/// A lane of a chunk of a transaction's statement.
#[verifier::spinoff_prover]
#[verifier::rlimit(40)]
proof fn lemma_chunk_lane(air: MonolithAir, g: Seq<u64>, root: Seq<u64>, i: int, b: int, k: int)
    requires
        root_satisfied(air, g, root),
        air.fold_txstmt,
        0 <= i < air.k_instances,
        0 <= b < FOLD_SK_BLOCKS,
        0 <= k < 4,
    ensures
        ({
            let row = i * air.s_inst_h() + 32 * (air.s_fold_sk_block() + b);
            fold_lanes(air, g, row)[4 + k] == air.s_chunks(shown_statement(air, g, i))[b][k]
        }),
{
    let r = 32 * (air.s_fold_sk_block() + b);
    let row = i * air.s_inst_h() + r;
    let win = row_pair(air, g, root, row);
    let pvs = shown_statement(air, g, i);
    lemma_fold_place(air);
    air.lemma_bounds();
    lemma_fold_row(air, g, root, i, r);
    lemma_fold_columns(air, win, r);
    lemma_root_parts(air, win);
    lemma_vanish_flat(FOLD_SK_BLOCKS as int, air.f_statement(), win);
    let cs = air.f_statement()(b);
    assert(vanish(cs, win));
    let on = w_per(air.s_p_fold_first(b));
    let v = air.s_statement_lane(b, k);
    assert(win.periodic[air.s_p_fold_first(b)] == 1);
    lemma_leaf_values(air.s_p_fold_first(b), win);
    assert(cs[k] == w_times(on, w_minus(w_cur(air.s_af_p(4 + k)), v)));
    assert(value(cs[k], win) == 0);
    lemma_set_lane(air, win, on, air.s_af_p(4 + k), v);
    lemma_chunk_source(b, k);
    match MonolithAir::s_chunk_src(b, k) {
        Some(off) => {
            let c = air.s_pub_pi() + off;
            assert(0 <= c < air.s_pis_count());
            lemma_statement_held(air, g, root, i, r, c);
            lemma_leaf_values(air.s_pw(c), win);
            assert(value(v, win) == pvs[off as int]);
        },
        None => {
            lemma_const_value(0, win);
        },
    }
    assert(air.s_af_p(0) + (4 + k) == air.s_af_p(4 + k));
}

/// The first half of the first block of a transaction's digest.
#[verifier::spinoff_prover]
#[verifier::rlimit(40)]
proof fn lemma_tag_lanes(air: MonolithAir, g: Seq<u64>, root: Seq<u64>, i: int, k: int)
    requires
        root_satisfied(air, g, root),
        air.fold_txstmt,
        0 <= i < air.k_instances,
        0 <= k < 4,
    ensures
        fold_lanes(air, g, i * air.s_inst_h() + 32 * air.s_fold_sk_block())[k] == f_red(
            padded(air.txroot_dom)[k] as int,
        ),
{
    let r = 32 * air.s_fold_sk_block();
    let row = i * air.s_inst_h() + r;
    let win = row_pair(air, g, root, row);
    lemma_fold_place(air);
    lemma_fold_row(air, g, root, i, r);
    lemma_fold_columns(air, win, r);
    lemma_root_parts(air, win);
    lemma_vanish_flat(FOLD_SK_BLOCKS as int, air.f_statement(), win);
    let cs = air.f_statement()(0);
    assert(vanish(cs, win));
    let on = w_per(air.s_p_fold_first(0));
    assert(win.periodic[air.s_p_fold_first(0)] == 1);
    lemma_leaf_values(air.s_p_fold_first(0), win);
    assert(cs[4] == w_times(on, w_minus(w_cur(air.s_af_p(0)), w_const(air.txroot_dom))));
    assert(cs[5] == w_times(on, w_cur(air.s_af_p(1))));
    assert(cs[6] == w_times(on, w_cur(air.s_af_p(2))));
    assert(cs[7] == w_times(on, w_cur(air.s_af_p(3))));
    assert(value(cs[4], win) == 0 && value(cs[5], win) == 0 && value(cs[6], win) == 0 && value(cs[7], win) == 0);
    lemma_set_lane(air, win, on, air.s_af_p(0), w_const(air.txroot_dom));
    assert(value(w_const(air.txroot_dom), win) == f_red(air.txroot_dom as int));
    lemma_zero_lane(air, win, on, air.s_af_p(1));
    lemma_zero_lane(air, win, on, air.s_af_p(2));
    lemma_zero_lane(air, win, on, air.s_af_p(3));
    assert(air.s_af_p(0) + k == air.s_af_p(k));
}

/// The digest so far goes over into the next block of a transaction's digest.
#[verifier::spinoff_prover]
#[verifier::rlimit(40)]
proof fn lemma_linked_lanes(air: MonolithAir, g: Seq<u64>, root: Seq<u64>, i: int, b: int, k: int)
    requires
        root_satisfied(air, g, root),
        air.fold_txstmt,
        0 <= i < air.k_instances,
        0 < b < air.s_n_sk_blocks(),
        0 <= k < 4,
    ensures
        ({
            let row = i * air.s_inst_h() + 32 * (air.s_fold_sk_block() + b);
            fold_lanes(air, g, row)[k] == fold_lanes(air, g, row - 1)[k]
        }),
{
    let r = 32 * (air.s_fold_sk_block() + b) - 1;
    let row = i * air.s_inst_h() + r;
    let win = row_pair(air, g, root, row);
    lemma_fold_place(air);
    lemma_fold_row(air, g, root, i, r);
    lemma_instance_row(air, i, r + 1);
    lemma_fold_columns(air, win, r);
    lemma_root_parts(air, win);
    let cs = air.s_fold_link();
    let on = w_per(air.s_p_fold_sklink());
    assert(r % 32 == 31);
    lemma_leaf_values(air.s_p_fold_sklink(), win);
    let p = air.s_af_p(k);
    assert(cs[k] == w_on_transition(w_times(on, w_minus(w_nxt(p), w_cur(p))))) by {
        assert(k == 0 || k == 1 || k == 2 || k == 3);
    }
    assert(value(cs[k], win) == 0);
    lemma_moved_lane(win, on, p, p);
    assert(air.s_af_p(0) + k == p);
}

/// The first row of a digest block holds the digest so far and the next chunk.
#[verifier::spinoff_prover]
#[verifier::rlimit(40)]
proof fn lemma_digest_block(air: MonolithAir, g: Seq<u64>, root: Seq<u64>, i: int, b: int)
    requires
        root_satisfied(air, g, root),
        0 <= i < air.k_instances,
        0 <= b < air.s_n_sk_blocks(),
    ensures
        ({
            let pvs = shown_statement(air, g, i);
            let first = i * air.s_inst_h() + 32 * (air.s_fold_sk_block() + b);
            &&& fold_lanes(air, g, first) == reduced_lanes(digest_input(air, pvs, b))
            &&& fold_lanes(air, g, first + 31).subrange(0, 4) == chain_digest(
                air.txroot_dom,
                air.s_chunks(pvs),
                (b + 1) as nat,
            )
        }),
    decreases b,
{
    let pvs = shown_statement(air, g, i);
    let chunks = air.s_chunks(pvs);
    let first = i * air.s_inst_h() + 32 * (air.s_fold_sk_block() + b);
    let want = reduced_lanes(digest_input(air, pvs, b));
    let got = fold_lanes(air, g, first);
    lemma_chunk_len(air, pvs, b);
    assert forall|c: int| 0 <= c < chunks.len() implies (#[trigger] chunks[c]).len() == 4 by {
        lemma_chunk_len(air, pvs, c);
    }
    lemma_digest_len(air.txroot_dom, chunks, b as nat);
    if air.fold_txstmt {
        if b > 0 {
            lemma_digest_block(air, g, root, i, b - 1);
            assert(first - 32 + 31 == first - 1);
        }
        assert forall|j: int| 0 <= j < 8 implies got[j] == want[j] by {
            if j >= 4 {
                lemma_chunk_lane(air, g, root, i, b, j - 4);
                lemma_chunk_reduced(air, g, i, b, j - 4);
            } else if b == 0 {
                lemma_tag_lanes(air, g, root, i, j);
            } else {
                lemma_linked_lanes(air, g, root, i, b, j);
                let before = fold_lanes(air, g, first - 1);
                assert(before.subrange(0, 4)[j] == before[j]);
                assert(f_red(before[j] as int) == before[j]);
            }
        }
        assert(got =~= want);
    } else {
        lemma_seeded(air, g, root, i);
    }
    lemma_fold_block(air, g, root, i, b);
    lemma_permuted_of_reduced(digest_input(air, pvs, b));
    assert(((b + 1) as nat - 1) as nat == b as nat);
}

/// The felts of a shown statement are reduced.
proof fn lemma_chunk_reduced(air: MonolithAir, g: Seq<u64>, i: int, b: int, k: int)
    requires
        air.fold_txstmt,
        air.s_n_pub() >= 26,
        0 <= b < FOLD_SK_BLOCKS,
        0 <= k < 4,
    ensures
        ({
            let v = air.s_chunks(shown_statement(air, g, i))[b][k];
            f_red(v as int) == v
        }),
{
    lemma_chunk_source(b, k);
}

/// The block that folds a digest into the root starts from both.
#[verifier::spinoff_prover]
#[verifier::rlimit(40)]
proof fn lemma_root_block(air: MonolithAir, g: Seq<u64>, root: Seq<u64>, i: int)
    requires
        root_satisfied(air, g, root),
        0 <= i < air.k_instances,
    ensures
        ({
            let first = i * air.s_inst_h() + 32 * (air.s_fold_sk_block() + air.s_n_sk_blocks());
            fold_lanes(air, g, first) == paired(fold_held(air, g, first), fold_lanes(air, g, first - 1).subrange(0, 4))
        }),
{
    let r = 32 * (air.s_fold_sk_block() + air.s_n_sk_blocks());
    let first = i * air.s_inst_h() + r;
    let (win, was) = (row_pair(air, g, root, first), row_pair(air, g, root, first - 1));
    lemma_fold_place(air);
    lemma_fold_row(air, g, root, i, r);
    lemma_fold_row(air, g, root, i, r - 1);
    lemma_fold_columns(air, win, r);
    lemma_fold_columns(air, was, r - 1);
    lemma_root_parts(air, win);
    lemma_root_parts(air, was);
    let (inn, out) = (w_per(air.s_p_fold_rootin()), w_per(air.s_p_fold_sklast()));
    lemma_leaf_values(air.s_p_fold_rootin(), win);
    lemma_leaf_values(air.s_p_fold_sklast(), was);
    let (a, b) = (air.s_root_in(), air.s_fold_out());
    let got = fold_lanes(air, g, first);
    let want = paired(fold_held(air, g, first), fold_lanes(air, g, first - 1).subrange(0, 4));
    assert forall|k: int| 0 <= k < 4 implies #[trigger] got[k] == want[k] && got[4 + k] == want[4 + k] by {
        assert(k == 0 || k == 1 || k == 2 || k == 3);
        assert(a[k] == w_times(inn, w_minus(w_cur(air.s_af_p(k)), w_cur(air.s_af_root(k)))));
        assert(b[k] == w_on_transition(w_times(out, w_minus(w_nxt(air.s_af_p(4 + k)), w_cur(air.s_af_p(k))))));
        assert(value(a[k], win) == 0 && value(b[k], was) == 0);
        lemma_set_lane(air, win, inn, air.s_af_p(k), w_cur(air.s_af_root(k)));
        lemma_leaf_values(air.s_af_root(k), win);
        lemma_moved_lane(was, out, air.s_af_p(4 + k), air.s_af_p(k));
        assert(air.s_af_p(0) + k == air.s_af_p(k) && air.s_af_p(0) + (4 + k) == air.s_af_p(4 + k));
        assert(air.s_af_root(0) + k == air.s_af_root(k));
    }
    assert forall|j: int| 0 <= j < 8 implies got[j] == want[j] by {
        if j >= 4 {
            assert(got[j - 4] == want[j - 4] && got[4 + (j - 4)] == want[4 + (j - 4)]);
        } else {
            assert(got[j] == want[j]);
        }
    }
    assert(got =~= want);
}

/// The running root is held but at the end of a root block, where it takes the block's output.
#[verifier::spinoff_prover]
#[verifier::rlimit(40)]
proof fn lemma_root_moves(air: MonolithAir, g: Seq<u64>, root: Seq<u64>, i: int, r: int)
    requires
        root_satisfied(air, g, root),
        0 <= i < air.k_instances,
        0 <= r < air.s_inst_h(),
        i * air.s_inst_h() + r + 1 < air.s_height(),
    ensures
        ({
            let row = i * air.s_inst_h() + r;
            fold_held(air, g, row + 1) == (if r == air.s_inst_h() - 1 {
                fold_lanes(air, g, row).subrange(0, 4)
            } else {
                fold_held(air, g, row)
            })
        }),
{
    let row = i * air.s_inst_h() + r;
    let win = row_pair(air, g, root, row);
    let on = w_per(air.s_p_fold_rootupd());
    let off = w_minus(w_const(1), on);
    lemma_fold_place(air);
    lemma_fold_row(air, g, root, i, r);
    lemma_fold_columns(air, win, r);
    lemma_root_parts(air, win);
    lemma_leaf_values(air.s_p_fold_rootupd(), win);
    lemma_const_value(1, win);
    lemma_op_values(w_const(1), on, win);
    lemma_vanish_flat(4, air.f_root(), win);
    let got = fold_held(air, g, row + 1);
    let last = r == air.s_inst_h() - 1;
    let want = if last {
        fold_lanes(air, g, row).subrange(0, 4)
    } else {
        fold_held(air, g, row)
    };
    assert forall|k: int| 0 <= k < 4 implies #[trigger] got[k] == want[k] by {
        let fam = air.f_root()(k);
        assert(vanish(fam, win));
        let (p, q) = (air.s_af_root(k), air.s_af_p(k));
        assert(fam[1] == w_on_transition(w_times(off, w_minus(w_nxt(p), w_cur(p)))));
        assert(fam[2] == w_on_transition(w_times(on, w_minus(w_nxt(p), w_cur(q)))));
        assert(value(fam[1], win) == 0 && value(fam[2], win) == 0);
        assert(air.s_af_root(0) + k == p && air.s_af_p(0) + k == q);
        if last {
            lemma_moved_lane(win, on, p, q);
        } else {
            lemma_moved_lane(win, off, p, p);
        }
    }
    assert(got =~= want);
}

/// Within an instance the running root is held.
proof fn lemma_root_held(air: MonolithAir, g: Seq<u64>, root: Seq<u64>, i: int, r: int)
    requires
        root_satisfied(air, g, root),
        0 <= i < air.k_instances,
        0 <= r < air.s_inst_h(),
    ensures
        fold_held(air, g, i * air.s_inst_h() + r) == fold_held(air, g, i * air.s_inst_h()),
    decreases r,
{
    if r > 0 {
        lemma_root_held(air, g, root, i, r - 1);
        lemma_instance_row(air, i, r);
        lemma_root_moves(air, g, root, i, r - 1);
    }
}

/// The running root starts at zero.
#[verifier::rlimit(30)]
proof fn lemma_root_starts(air: MonolithAir, g: Seq<u64>, root: Seq<u64>)
    requires
        root_satisfied(air, g, root),
        0 < air.k_instances,
    ensures
        fold_held(air, g, 0) == seq![0u64, 0, 0, 0],
{
    let win = row_pair(air, g, root, 0);
    let first: Wire = std::sync::Arc::new(Expr::IsFirstRow);
    lemma_fold_place(air);
    lemma_fold_row(air, g, root, 0, 0);
    assert(0 * air.s_inst_h() == 0);
    lemma_root_parts(air, win);
    lemma_vanish_flat(4, air.f_root(), win);
    assert(value(first, win) == 1);
    let (got, want) = (fold_held(air, g, 0), seq![0u64, 0, 0, 0]);
    assert forall|k: int| 0 <= k < 4 implies #[trigger] got[k] == want[k] by {
        let fam = air.f_root()(k);
        assert(vanish(fam, win));
        assert(fam[0] == w_times(first, w_cur(air.s_af_root(k))));
        assert(value(fam[0], win) == 0);
        lemma_zero_lane(air, win, first, air.s_af_root(k));
        assert(air.s_af_root(0) + k == air.s_af_root(k));
    }
    assert(got =~= want);
}

/// An instance takes the root behind its statement.
#[verifier::rlimit(30)]
proof fn lemma_instance_folds(air: MonolithAir, g: Seq<u64>, root: Seq<u64>, i: int)
    requires
        root_satisfied(air, g, root),
        0 <= i < air.k_instances,
        fold_held(air, g, i * air.s_inst_h()) == air.s_fold_root(shown_statements(air, g), i as nat),
    ensures
        fold_lanes(air, g, i * air.s_inst_h() + air.s_inst_h() - 1).subrange(0, 4) == air.s_fold_root(
            shown_statements(air, g),
            (i + 1) as nat,
        ),
{
    let n = air.s_n_sk_blocks();
    let r = 32 * (air.s_fold_sk_block() + n);
    let first = i * air.s_inst_h() + r;
    lemma_fold_place(air);
    lemma_digest_block(air, g, root, i, n - 1);
    assert(32 * (air.s_fold_sk_block() + (n - 1)) + 31 == r - 1);
    lemma_root_block(air, g, root, i);
    lemma_root_held(air, g, root, i, r);
    lemma_fold_block(air, g, root, i, n);
    assert(first + 31 == i * air.s_inst_h() + air.s_inst_h() - 1);
    assert(((i + 1) as nat - 1) as nat == i as nat);
    assert(shown_statements(air, g)[i] == shown_statement(air, g, i));
}

/// The running root before instance `i`.
#[verifier::rlimit(30)]
proof fn lemma_root_reaches(air: MonolithAir, g: Seq<u64>, root: Seq<u64>, i: int)
    requires
        root_satisfied(air, g, root),
        0 <= i < air.k_instances,
    ensures
        fold_held(air, g, i * air.s_inst_h()) == air.s_fold_root(shown_statements(air, g), i as nat),
    decreases i,
{
    if i == 0 {
        lemma_root_starts(air, g, root);
        assert(0 * air.s_inst_h() == 0);
    } else {
        let h = air.s_inst_h();
        lemma_root_reaches(air, g, root, i - 1);
        lemma_instance_folds(air, g, root, i - 1);
        lemma_fold_place(air);
        lemma_instance_row(air, i, 0);
        assert((i - 1) * h + (h - 1) + 1 == i * h) by (nonlinear_arith);
        lemma_root_moves(air, g, root, i - 1, h - 1);
    }
}

/// Where the system of an aggregator vanishes on every row pair, the public root is the fold of the statements that the
/// instances show in their windows.
#[verifier::rlimit(30)]
pub proof fn law_satisfied_root(air: MonolithAir, g: Seq<u64>, root: Seq<u64>)
    requires
        air.aggregates(),
        air.eval_ok(),
        air.column_window,
        root.len() == 4,
        g.len() == air.s_height() * air.s_fold_w(),
        satisfied(InlineBci, air, g, root),
    ensures
        forall|k: int|
            0 <= k < 4 ==> f_red(#[trigger] root[k] as int) == air.s_fold_root(
                shown_statements(air, g),
                air.k_instances as nat,
            )[k],
{
    let e = choose|e: nat| air.k_instances == #[trigger] vstd::arithmetic::power2::pow2(e);
    vstd::arithmetic::power2::lemma_pow2_pos(e);
    let (i, h) = (air.k_instances - 1, air.s_inst_h());
    lemma_fold_place(air);
    lemma_root_reaches(air, g, root, i);
    lemma_instance_folds(air, g, root, i);
    lemma_fold_row(air, g, root, i, h - 1);
    assert(i * h + (h - 1) == air.k_instances * h - 1) by (nonlinear_arith)
        requires
            i == air.k_instances - 1,
    ;
    let win = row_pair(air, g, root, i * h + (h - 1));
    let last: Wire = std::sync::Arc::new(Expr::IsLastRow);
    lemma_root_parts(air, win);
    lemma_vanish_flat(4, air.f_root(), win);
    assert(value(last, win) == 1);
    assert forall|k: int| 0 <= k < 4 implies f_red(#[trigger] root[k] as int) == air.s_fold_root(
        shown_statements(air, g),
        air.k_instances as nat,
    )[k] by {
        let fam = air.f_root()(k);
        assert(vanish(fam, win));
        assert(fam[3] == w_times(last, w_minus(w_cur(air.s_af_p(k)), w_pub(k))));
        assert(value(fam[3], win) == 0);
        lemma_set_lane(air, win, last, air.s_af_p(k), w_pub(k));
        assert(value(w_pub(k), win) == f_red(root[k] as int));
        assert(air.s_af_p(0) + k == air.s_af_p(k));
        assert(fold_lanes(air, g, i * h + (h - 1)).subrange(0, 4)[k] == fold_lanes(air, g, i * h + (h - 1))[k]);
    }
}

} // verus!
