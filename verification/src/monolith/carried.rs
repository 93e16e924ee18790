//! An instance that stood alone is an instance of an aggregator: its rows lie where they lay.

use vstd::arithmetic::power2::pow2;
use vstd::prelude::*;

use super::blocks::{commit_holds, path_ends, path_holds};
use super::grid::{cell, PathData};
use super::heads::head_written;
use super::instance::{selectors_stand, values_stand, whole_instance, Instance};
use super::layout::{MonolithAir, QT_DBITS};
use super::pairs::{lemma_columns_stand, plain_rounds};
use super::reading::{lemma_chain_len, lemma_siblings, row_at};
use super::region::region_holds;
use super::tiles::{law_built_trace, sides_are_bits, tile_built, trace_built};
use super::trace::{chain_cells, deep_point, transcript_row, QueryData};
use super::window::{selector_cells, window_challenges, WindowMode};
use crate::bits::div_up;
use crate::field::{f_red, x_red, Ext};
use crate::fri::merkle::contents;
use crate::gadgets::opening::OpeningTerm;
use crate::schedule::run;
use crate::stark::replay::stark_program;
use crate::stark::verify::{InnerAir, StarkProof};
use crate::vanish::pair_at;

verus! {

/// Two verifiers that differ at most in how many instances they have and how they fold a root.
pub open spec fn same_instance(a: MonolithAir, s: MonolithAir) -> bool {
    &&& a.counts@ == s.counts@
    &&& a.binds@ == s.binds@
    &&& a.index_binds@ == s.index_binds@
    &&& a.n_queries == s.n_queries
    &&& a.n_terms == s.n_terms
    &&& a.inner_counter == s.inner_counter
    &&& a.column_window == s.column_window
    &&& a.constraints@ == s.constraints@
    &&& a.w_inner_f == s.w_inner_f
    &&& a.n_pub_f == s.n_pub_f
    &&& a.n_periodic_f == s.n_periodic_f
    &&& a.is_zk == s.is_zk
    &&& a.cap_height == s.cap_height
    &&& a.narrow_arith == s.narrow_arith
    &&& a.narrow_caps == s.narrow_caps
    &&& a.narrow_openings == s.narrow_openings
    &&& a.narrow_ov == s.narrow_ov
    &&& a.lookup == s.lookup
    &&& a.txroot_dom == s.txroot_dom
}

proof fn lemma_same_rounds(a: MonolithAir, s: MonolithAir, n: nat)
    requires
        same_instance(a, s),
    ensures
        a.s_rounds_before(n as int) == s.s_rounds_before(n as int),
        a.s_caps_before(n as int) == s.s_caps_before(n as int),
    decreases n,
{
    if n > 0 {
        lemma_same_rounds(a, s, (n - 1) as nat);
    }
}

/// The layout of an instance does not depend on the fold.
pub(super) proof fn lemma_same_layout(a: MonolithAir, s: MonolithAir)
    requires
        same_instance(a, s),
        plain_rounds(s),
        a.wf(),
        s.wf(),
    ensures
        a.s_tr() == s.s_tr(),
        a.s_m_nblocks() == s.s_m_nblocks(),
        a.s_m_period() == s.s_m_period(),
        a.s_inst_h() == s.s_inst_h(),
        a.s_fused_w() == s.s_fused_w(),
        a.s_pw_base() == s.s_pw_base(),
        a.s_sel_base() == s.s_sel_base(),
        a.s_ov() == s.s_ov(),
        a.s_carry() == s.s_carry(),
        a.s_idx_rem() == s.s_idx_rem(),
        a.s_lg() == s.s_lg(),
        a.s_nb() == s.s_nb(),
        a.s_cm_rounds() == s.s_cm_rounds(),
        a.s_pis_count() == s.s_pis_count(),
        a.s_input_depth() == s.s_input_depth(),
        a.s_nqc() == s.s_nqc(),
        a.s_full_cap() == s.s_full_cap(),
        a.s_n_fold_acc() == s.s_n_fold_acc(),
        a.s_m_input_leaf() == s.s_m_input_leaf(),
        a.s_m_quot_leaf() == s.s_m_quot_leaf(),
        a.s_is_lookup() == s.s_is_lookup(),
        forall|t: int| #[trigger] a.s_tile(t) == s.s_tile(t),
        forall|r: int| 0 <= r ==> #[trigger] a.s_cm_leaf(r) == s.s_cm_leaf(r),
        forall|r: int| #[trigger] a.s_cm_depth_r(r) == s.s_cm_depth_r(r),
{
    assert forall|r: int| 0 <= r implies #[trigger] a.s_cm_leaf(r) == s.s_cm_leaf(r) by {
        lemma_same_rounds(a, s, r as nat);
    }
    let n = s.s_cm_rounds();
    assert(0 < n);
    lemma_same_rounds(a, s, n as nat);
    assert(a.s_cm_leaf(n - 1) == s.s_cm_leaf(n - 1));
    assert(a.s_m_nblocks() == s.s_m_nblocks());
}

proof fn lemma_same_terms(a: MonolithAir, s: MonolithAir, terms: Seq<OpeningTerm>, x: u64, alpha: Ext, n: nat)
    requires
        same_instance(a, s),
    ensures
        a.s_terms_cells(terms, x, alpha, n) == s.s_terms_cells(terms, x, alpha, n),
    decreases n,
{
    if n > 0 {
        lemma_same_terms(a, s, terms, x, alpha, (n - 1) as nat);
    }
}

/// The cells of a head row do not depend on the fold.
proof fn lemma_same_head(a: MonolithAir, s: MonolithAir, q: QueryData)
    requires
        same_instance(a, s),
    ensures
        a.s_head_cells(q) == s.s_head_cells(q),
{
    lemma_same_terms(a, s, q.terms@, deep_point(q.index as nat, s.s_lg() as nat), q.alpha, q.terms@.len());
    assert(a.s_lg() == s.s_lg());
    assert(a.s_head_cells(q) =~= s.s_head_cells(q));
}

proof fn lemma_same_quot(a: MonolithAir, s: MonolithAir, q: QueryData, n: nat)
    requires
        same_instance(a, s),
        plain_rounds(s),
    ensures
        a.s_quot_preimage(q, n) == s.s_quot_preimage(q, n),
    decreases n,
{
    if n > 0 {
        lemma_same_quot(a, s, q, (n - 1) as nat);
        let (x, y) = (
            Seq::new(a.s_trm_chunk_w() as nat, |j: int| q.terms@[a.s_trm_quot(n - 1, j)].px),
            Seq::new(s.s_trm_chunk_w() as nat, |j: int| q.terms@[s.s_trm_quot(n - 1, j)].px),
        );
        assert(x =~= y);
    }
}

/// What the leaves hash does not depend on the fold.
proof fn lemma_same_preimages(a: MonolithAir, s: MonolithAir, q: QueryData)
    requires
        same_instance(a, s),
        plain_rounds(s),
        q.hiding is None,
        q.aux_path is None,
    ensures
        a.s_input_preimage(q) == s.s_input_preimage(q),
        a.s_quot_preimage(q, a.s_nqc() as nat) == s.s_quot_preimage(q, s.s_nqc() as nat),
        forall|r: int| #[trigger] a.s_commit_preimage(q, r) == s.s_commit_preimage(q, r),
        a.s_random_preimage(q) == s.s_random_preimage(q),
        a.s_aux_preimage(q) == s.s_aux_preimage(q),
{
    assert(a.s_nqc() == s.s_nqc());
    lemma_same_quot(a, s, q, s.s_nqc() as nat);
    let (x, y) = (
        Seq::new(a.s_trm_committed_w() as nat, |c: int| q.terms@[a.s_trm_trace(c)].px),
        Seq::new(s.s_trm_committed_w() as nat, |c: int| q.terms@[s.s_trm_trace(c)].px),
    );
    assert(x =~= y);
}

proof fn lemma_same_groups(a: MonolithAir, s: MonolithAir, q: QueryData, n: nat)
    requires
        same_instance(a, s),
        plain_rounds(s),
        q.hiding is None,
    ensures
        a.s_groups(q, n) == s.s_groups(q, n),
        a.s_commit_tops(q, n) == s.s_commit_tops(q, n),
    decreases n,
{
    if n > 0 {
        lemma_same_groups(a, s, q, (n - 1) as nat);
    }
}

/// The carriers do not depend on the fold.
proof fn lemma_same_carriers(a: MonolithAir, s: MonolithAir, q: QueryData)
    requires
        same_instance(a, s),
        plain_rounds(s),
        a.wf(),
        s.wf(),
        q.hiding is None,
        q.aux_path is None,
    ensures
        a.s_carrier_cells(q) == s.s_carrier_cells(q),
{
    lemma_same_layout(a, s);
    lemma_same_preimages(a, s, q);
    lemma_same_groups(a, s, q, s.s_cm_rounds() as nat);
}

/// The rows `g2` of an instance of `a` hold what the rows `g` of one of `s` hold.
pub open spec fn rows_carried(a: MonolithAir, g2: Seq<u64>, s: MonolithAir, g: Seq<u64>) -> bool {
    forall|r: int, c: int|
        0 <= r < s.s_inst_h() && 0 <= c < s.s_fused_w() ==> #[trigger] cell(g2, a.s_fold_w(), r, c) == cell(
            g,
            s.s_fold_w(),
            r,
            c,
        )
}

#[verifier::rlimit(30)]
proof fn lemma_same_opening(
    a: MonolithAir,
    g2: Seq<u64>,
    s: MonolithAir,
    g: Seq<u64>,
    row: int,
    at: int,
    pre: Seq<u64>,
    path: PathData,
    depth: int,
)
    requires
        rows_carried(a, g2, s, g),
        13 <= s.s_fused_w(),
        path.ok(depth),
        path_holds(s, g, row, at, pre, path),
        0 <= row,
        0 <= at,
        row + 32 * (at + div_up(pre.len() as int, 4) + depth) <= s.s_inst_h(),
    ensures
        path_holds(a, g2, row, at, pre, path),
{
    let sibs = contents(path.siblings@);
    lemma_siblings(path, depth);
    let n = div_up(pre.len() as int, 4);
    assert forall|b: int| 0 <= b < n + sibs.len() implies super::blocks::block_holds(
        g2,
        a.s_fold_w(),
        row + 32 * at + 32 * b,
        #[trigger] super::blocks::opening_block(pre, sibs, path.bits@, b),
        super::blocks::opening_tail(pre, sibs, path.bits@, b),
    ) by {
        let input = super::blocks::opening_block(pre, sibs, path.bits@, b);
        let tail = super::blocks::opening_tail(pre, sibs, path.bits@, b);
        assert(tail.len() <= 5) by {
            if b >= n {
                assert(sibs[b - n].len() == 4);
            }
        }
        let first = row + 32 * at + 32 * b;
        assert(super::blocks::block_holds(g, s.s_fold_w(), first, input, tail));
        assert forall|t: int, c: int| 0 <= t < 32 && 0 <= c < 8 + tail.len() implies #[trigger] cell(
            g2,
            a.s_fold_w(),
            first + t,
            c,
        ) == (crate::poseidon::block_row(input, t as nat) + tail)[c] by {
            assert(cell(g, s.s_fold_w(), first + t, c) == (crate::poseidon::block_row(input, t as nat) + tail)[c]);
        }
    }
}

/// The openings of a super-tile stand where they stood.
#[verifier::spinoff_prover]
#[verifier::rlimit(60)]
proof fn lemma_openings_carried(a: MonolithAir, g2: Seq<u64>, s: MonolithAir, g: Seq<u64>, row: int, q: QueryData)
    requires
        same_instance(a, s),
        plain_rounds(s),
        a.wf(),
        s.wf(),
        rows_carried(a, g2, s, g),
        q.hiding is None,
        q.aux_path is None,
        tile_built(s, g, row, q),
        0 <= row,
        row + s.s_m_period() <= s.s_inst_h(),
    ensures
        super::blocks::openings_hold(a, g2, row, q),
        super::blocks::openings_end(a, q),
{
    lemma_columns_stand(s);
    s.lemma_bounds();
    s.lemma_openings_fit();
    s.lemma_preimages(q, s.s_nqc() as nat);
    lemma_same_layout(a, s);
    lemma_same_preimages(a, s, q);
    let d = s.s_input_depth();
    lemma_same_opening(a, g2, s, g, row, s.s_m_input_leaf(), s.s_input_preimage(q), q.path, d);
    lemma_same_opening(a, g2, s, g, row, s.s_m_quot_leaf(), s.s_quot_preimage(q, s.s_nqc() as nat), q.quot_path, d);
    assert forall|r: int| 0 <= r < a.s_cm_rounds() implies #[trigger] commit_holds(a, g2, row, q, r) by {
        assert(commit_holds(s, g, row, q, r));
        assert(q.commits@[r].path.ok(s.s_cm_depth_r(r)));
        s.lemma_cm_leaf_bound(r as nat);
        assert(s.s_commit_preimage(q, r).len() == s.s_cm_leaf_felts());
        assert(path_holds(s, g, row, s.s_cm_leaf(r), s.s_commit_preimage(q, r), q.commits@[r].path));
        lemma_same_opening(
            a,
            g2,
            s,
            g,
            row,
            s.s_cm_leaf(r),
            s.s_commit_preimage(q, r),
            q.commits@[r].path,
            s.s_cm_depth_r(r),
        );
        assert(a.s_commit_preimage(q, r) == s.s_commit_preimage(q, r));
    }
    assert forall|r: int| 0 <= r < a.s_cm_rounds() implies path_ends(
        #[trigger] a.s_commit_preimage(q, r),
        q.commits@[r].path,
    ) by {
        assert(path_ends(s.s_commit_preimage(q, r), q.commits@[r].path));
    }
}

/// The rows of a super-tile stand where they stood.
#[verifier::spinoff_prover]
#[verifier::rlimit(60)]
proof fn lemma_tile_carried(a: MonolithAir, g2: Seq<u64>, s: MonolithAir, g: Seq<u64>, row: int, q: QueryData)
    requires
        same_instance(a, s),
        plain_rounds(s),
        a.wf(),
        s.wf(),
        s.s_cm_rounds() < 32,
        s.s_nb() - 2 <= s.s_m_period(),
        rows_carried(a, g2, s, g),
        q.hiding is None,
        q.aux_path is None,
        tile_built(s, g, row, q),
        0 <= row,
        row + s.s_m_period() <= s.s_inst_h(),
    ensures
        tile_built(a, g2, row, q),
{
    let (wa, ws) = (a.s_fold_w(), s.s_fold_w());
    lemma_columns_stand(s);
    s.lemma_bounds();
    s.lemma_terms();
    s.lemma_openings_fit();
    lemma_same_layout(a, s);
    lemma_same_head(a, s, q);
    lemma_same_carriers(a, s, q);
    lemma_openings_carried(a, g2, s, g, row, q);
    a.lemma_bounds();
    let cells = s.s_head_cells(q);
    let carriers = s.s_carrier_cells(q);
    s.lemma_terms_len(q.terms@, deep_point(q.index as nat, s.s_lg() as nat), q.alpha, q.terms@.len());
    assert(QT_DBITS + cells.len() == s.s_idx_rem());
    assert(a.query_fits(q)) by {
        assert forall|r: int| 0 <= r < q.commits@.len() implies (#[trigger] q.commits@[r]).group@.len() == 4
            && q.commits@[r].path.ok(a.s_cm_depth_r(r)) by {
            assert(q.commits@[r].path.ok(s.s_cm_depth_r(r)));
        }
    }
    let (x, y) = (row_at(g, ws, row), row_at(g2, wa, row));
    assert forall|c: int| 0 <= c < s.s_fused_w() implies #[trigger] y[c] == x[c] by {
        assert(cell(g2, wa, row, c) == cell(g, ws, row, c));
    }
    assert(head_written(a, y, q)) by {
        assert forall|i: int| 0 <= i < cells.len() implies y[QT_DBITS + i] == #[trigger] cells[i] by {
            assert(x[QT_DBITS + i] == cells[i]);
            assert(y[QT_DBITS + i] == x[QT_DBITS + i]);
        }
        assert(y[s.s_idx_rem()] == x[s.s_idx_rem()]);
    }
    assert forall|r: int, c: int|
        0 <= r <= a.s_cm_rounds() && r < 32 && 0 <= c < chain_cells(q.ro, q.rounds@, r as nat).len() implies #[trigger] cell(
        g2,
        wa,
        row + r,
        c,
    ) == chain_cells(q.ro, q.rounds@, r as nat)[c] by {
        lemma_chain_len(q.ro, q.rounds@, r as nat);
        assert(cell(g, ws, row + r, c) == chain_cells(q.ro, q.rounds@, r as nat)[c]);
    }
    let v = f_red(q.felt as int) as nat;
    assert forall|r: int| 0 <= r < a.s_nb() - 2 implies #[trigger] cell(g2, wa, row + r, a.s_idx_rem()) == (v % pow2(
        a.s_lg() as nat,
    )) / pow2(r as nat) by {
        assert(cell(g, ws, row + r, s.s_idx_rem()) == (v % pow2(s.s_lg() as nat)) / pow2(r as nat));
    }
    assert forall|r: int, i: int| 0 <= r < a.s_m_period() && 0 <= i < carriers.len() implies #[trigger] cell(
        g2,
        wa,
        row + r,
        a.s_ov() + i,
    ) == carriers[i] by {
        assert(cell(g, ws, row + r, s.s_ov() + i) == carriers[i]);
    }
}

/// A built instance stays built.
#[verifier::spinoff_prover]
#[verifier::rlimit(60)]
proof fn lemma_built_carried(
    a: MonolithAir,
    g2: Seq<u64>,
    s: MonolithAir,
    g: Seq<u64>,
    blocks: Seq<Seq<u64>>,
    qs: Seq<QueryData>,
    alpha: Ext,
)
    requires
        same_instance(a, s),
        plain_rounds(s),
        a.wf(),
        s.buildable(),
        s.s_cm_rounds() < 32,
        rows_carried(a, g2, s, g),
        trace_built(s, g, blocks, qs, alpha),
        qs.len() == s.n_queries,
        forall|t: int| 0 <= t < qs.len() ==> (#[trigger] qs[t]).hiding is None && qs[t].aux_path is None,
    ensures
        trace_built(a, g2, blocks, qs, alpha),
{
    let (wa, ws) = (a.s_fold_w(), s.s_fold_w());
    lemma_columns_stand(s);
    s.lemma_bounds();
    s.lemma_terms();
    lemma_same_layout(a, s);
    law_built_trace(s, g, blocks, qs, alpha);
    a.lemma_bounds();
    assert(region_holds(a, g2, blocks)) by {
        assert forall|r: int, c: int| 0 <= r < a.s_tr() && 0 <= c < 8 implies #[trigger] cell(g2, wa, r, c)
            == transcript_row(blocks, r)[c] by {
            assert(cell(g, ws, r, c) == transcript_row(blocks, r)[c]);
        }
    }
    assert forall|t: int| 0 <= t < qs.len() implies tile_built(a, g2, a.s_tile(t), #[trigger] qs[t]) by {
        s.lemma_tile_fits(t);
        assert(tile_built(s, g, s.s_tile(t), qs[t]));
        assert(a.s_tile(t) == s.s_tile(t));
        lemma_tile_carried(a, g2, s, g, s.s_tile(t), qs[t]);
    }
    assert forall|r: int| 0 <= r < a.s_inst_h() implies pair_at(#[trigger] row_at(g2, wa, r), a.s_carry()) == x_red(
        alpha,
    ) by {
        assert(pair_at(row_at(g, ws, r), s.s_carry()) == x_red(alpha));
        assert(cell(g2, wa, r, s.s_carry()) == cell(g, ws, r, s.s_carry()));
        assert(cell(g2, wa, r, s.s_carry() + 1) == cell(g, ws, r, s.s_carry() + 1));
    }
    assert(sides_are_bits(a, g2, qs)) by {
        assert forall|r: int|
            0 <= r < a.s_inst_h() && (forall|k: int| 0 <= k < qs.len() ==> r != #[trigger] a.s_tile(k)) implies #[trigger] cell(
            g2,
            wa,
            r,
            12,
        ) <= 1 by {
            assert forall|k: int| 0 <= k < qs.len() implies r != #[trigger] s.s_tile(k) by {
                assert(a.s_tile(k) == s.s_tile(k));
            }
            assert(cell(g, ws, r, 12) <= 1);
            assert(cell(g2, wa, r, 12) == cell(g, ws, r, 12));
        }
    }
    reveal(trace_built);
}

proof fn lemma_same_squares(a: MonolithAir, s: MonolithAir, z: Ext, n: nat)
    ensures
        a.s_squares(z, n) == s.s_squares(z, n),
    decreases n,
{
    if n > 0 {
        lemma_same_squares(a, s, z, (n - 1) as nat);
    }
}

/// An instance of a proof stays one where its verifier has more instances or folds a root and its rows stand among others.
#[verifier::spinoff_prover]
#[verifier::rlimit(60)]
pub proof fn law_instance_carries(
    w: Instance,
    a: MonolithAir,
    g2: Seq<u64>,
    inner: InnerAir,
    proof: StarkProof,
    pvs: Seq<u64>,
    mode: WindowMode,
)
    requires
        whole_instance(w, inner, proof, pvs, mode),
        same_instance(a, w.air),
        a.eval_ok(),
        a.buildable(),
        rows_carried(a, g2, w.air, w.cells),
    ensures
        whole_instance(
            Instance { air: a, queries: w.queries, window: w.window, cells: g2 },
            inner,
            proof,
            pvs,
            mode,
        ),
{
    let s = w.air;
    let v = Instance { air: a, queries: w.queries, window: w.window, cells: g2 };
    let chs = window_challenges(proof, pvs);
    super::instance::lemma_instance_air(w, inner, proof, pvs, mode);
    lemma_same_layout(a, s);
    lemma_columns_stand(s);
    s.lemma_bounds();
    lemma_built_carried(a, g2, s, w.cells, run(stark_program(proof, pvs)).sim.blocks, w.queries, chs[2]);
    assert forall|q: int| 0 <= q < w.queries.len() implies a.query_inverts(#[trigger] w.queries[q]) by {
        assert(s.query_inverts(w.queries[q]));
    }
    assert(values_stand(v, proof, pvs)) by {
        reveal(values_stand);
        let n = s.s_cm_rounds() as nat;
        lemma_same_squares(a, s, chs[1], n);
        if a.column_window {
            let vs = w.window + s.s_squares(chs[1], n);
            assert forall|r: int, i: int|
                0 <= r < a.s_inst_h() && 0 <= i < a.s_pis_count() + 2 * a.s_cm_rounds() implies #[trigger] cell(
                g2,
                a.s_fold_w(),
                r,
                a.s_pw_base() + i,
            ) == vs[i] by {
                assert(cell(w.cells, s.s_fold_w(), r, s.s_pw_base() + i) == vs[i]);
            }
        }
    }
    if mode.symbolic {
        super::instance::lemma_selector_cells_len(s, inner, proof, pvs, mode);
        let vs = selector_cells(s, inner, proof, pvs, chs);
        assert(selector_cells(a, inner, proof, pvs, chs) == vs);
        assert(selectors_stand(v, inner, proof, pvs)) by {
            reveal(selectors_stand);
            assert forall|r: int, i: int| 0 <= r < a.s_inst_h() && 0 <= i < vs.len() implies #[trigger] cell(
                g2,
                a.s_fold_w(),
                r,
                a.s_sel_base() + i,
            ) == vs[i] by {
                assert(cell(w.cells, s.s_fold_w(), r, s.s_sel_base() + i) == vs[i]);
            }
        }
    }
}

} // verus!
