//! Nothing in the layout overlaps and nothing is left over: the blocks of a super-tile, the columns of a row and the
//! periodic columns each stand side by side, for every shape of the inner.

use vstd::prelude::*;

use super::layout::MonolithAir;
use crate::bits::div_up;

verus! {

/// Something that takes `n` places from `at` on, where the last one ended, leaves `next` free.
pub open spec fn takes(at: int, n: int, next: int) -> bool {
    n >= 0 && at + n == next
}

/// The felts that are hashed into a leaf: `columns` of a row, and of a hidden row its four codewords and four felts of
/// salt besides.
pub open spec fn leaf_felts(air: MonolithAir, columns: int) -> int {
    if air.is_zk == 1 {
        columns + 8
    } else {
        columns
    }
}

/// The blocks of an opening: one for every four felts of the leaf, and one for every level below the cap.
pub open spec fn opening_blocks(felts: int, depth: int) -> int {
    div_up(felts, 4) + depth
}

/// The levels of a tree over `2^log` rows below its cap.
pub open spec fn levels(air: MonolithAir, log: int) -> int {
    if log >= air.cap_height {
        log - air.cap_height
    } else {
        0
    }
}

/// The blocks of a super-tile: the arithmetic block, then the openings one after the other. A hiding inner opens its random
/// row of two columns first, one with lookups its aux row; then come the trace, the quotient, whose chunks are hidden each for
/// itself, and the commit rounds, each over a pair of values in a tree of half the height.
pub proof fn law_super_tile(air: MonolithAir, r: int)
    requires
        air.wf(),
        0 <= r < air.s_cm_rounds(),
    ensures
        ({
            let depth = levels(air, air.s_lg());
            let first = if air.is_zk == 1 {
                opening_blocks(leaf_felts(air, 2), depth)
            } else if air.lookup is Some {
                opening_blocks(2 * air.lookup->0.aux_ext_w, depth)
            } else {
                0
            };
            let round = opening_blocks(if air.is_zk == 1 {
                8
            } else {
                4
            }, levels(air, air.s_lg() - r - 1));
            &&& air.is_zk == 1 ==> takes(1, first, air.s_m_random_term() + 1)
            &&& air.lookup is Some ==> takes(1, first, air.s_m_aux_term() + 1)
            &&& takes(1, first, air.s_m_input_leaf())
            &&& takes(air.s_m_input_leaf(), opening_blocks(leaf_felts(air, air.s_w_inner()), depth), air.s_m_quot_leaf())
            &&& air.s_m_input_term() + 1 == air.s_m_quot_leaf()
            &&& takes(
                air.s_m_quot_leaf(),
                opening_blocks(air.s_nqc() * leaf_felts(air, 2), depth),
                air.s_cm_leaf(0),
            )
            &&& air.s_m_quot_term() + 1 == air.s_cm_leaf(0)
            &&& takes(air.s_cm_leaf(r), round, air.s_cm_leaf(r + 1))
            &&& air.s_cm_term(r) + 1 == air.s_cm_leaf(r + 1)
            &&& air.s_cm_leaf(air.s_cm_rounds()) == air.s_m_nblocks()
            &&& air.s_m_period() == 32 * air.s_m_nblocks()
        }),
{
    air.lemma_bounds();
    air.lemma_rounds_monotone(0, r);
    let n = air.s_nqc();
    assert(n * leaf_felts(air, 2) == air.s_quot_leaf_felts()) by (nonlinear_arith)
        requires
            air.s_quot_leaf_felts() == (if leaf_felts(air, 2) == 10 {
                10 * n
            } else {
                2 * n
            }),
            leaf_felts(air, 2) == 10 || leaf_felts(air, 2) == 2,
    ;
}

/// An instance is its transcript, 32 rows for each block, and a super-tile for each query, both padded to a power of two;
/// the instances fill the trace, and the blocks of the root's fold are the last ones of an instance.
pub proof fn law_instance_rows(air: MonolithAir)
    requires
        air.wf(),
    ensures
        32 * air.counts@.len() <= air.s_tr(),
        air.counts@.len() > 0 ==> air.s_tr() < 64 * air.counts@.len(),
        air.s_tr() + air.n_queries * air.s_m_period() <= air.s_inst_h(),
        air.s_inst_h() < 2 * (air.s_tr() + air.n_queries * air.s_m_period()),
        air.s_height() == air.k_instances * air.s_inst_h(),
        air.fold ==> air.s_inst_h() / 32 - air.s_fold_sk_block() == (if air.fold_txstmt {
            8int
        } else {
            2
        }),
{
    air.lemma_bounds();
    crate::bits::lemma_next_pow2(air.counts@.len());
    let rows = (air.s_tr() + air.n_queries * air.s_m_period()) as nat;
    crate::bits::lemma_next_pow2(rows);
}

/// The columns of a row stand side by side: what a fold row holds, the bits of the index and the powers that they make, the
/// challenge, the terms, the spelled felt, the carried rows of the openings, the fold groups, the cap entries, the public
/// values with the squares of the point, the selectors with the partial folds, and the root's fold.
pub proof fn law_row_columns(air: MonolithAir)
    requires
        air.wf(),
    ensures
        ({
            let trees = air.constraints@.len() > 0 || air.lookup is Some;
            let stride = if air.narrow_openings {
                0
            } else if air.narrow_arith {
                2
            } else {
                9int
            };
            let rounds = air.s_cm_rounds();
            let row = if air.narrow_ov {
                0
            } else {
                leaf_felts(air, air.s_w_inner())
            };
            let random = if air.is_zk == 1 {
                10int
            } else {
                0
            };
            let aux = match air.lookup {
                Some(l) => 2 * l.aux_ext_w as int,
                None => 0,
            };
            let openings: int = 2 + rounds + (if air.is_zk == 1 || air.lookup is Some {
                1int
            } else {
                0
            });
            let caps = if air.s_full_cap() {
                4 * openings
            } else {
                0
            };
            &&& takes(9, air.s_lg(), air.s_qt_acc())
            &&& takes(air.s_qt_acc(), air.s_lg(), air.s_qt_alpha())
            &&& takes(air.s_qt_alpha(), 2, air.s_qt_terms())
            &&& takes(air.s_qt_terms(), stride * air.n_terms, air.s_sb_x())
            &&& takes(air.s_sb_x(), 1, air.s_sb_b(0))
            &&& takes(air.s_sb_b(0), 64, air.s_sb_q(0))
            &&& takes(air.s_sb_q(0), 31, air.s_idx_rem())
            &&& takes(air.s_idx_rem(), 1, air.s_carry())
            &&& takes(air.s_carry(), 2, air.s_ov_c(0))
            &&& takes(air.s_ov_c(0), row, air.s_ov_random(0))
            &&& takes(air.s_ov_random(0), random, air.s_ov_aux(0))
            &&& takes(air.s_ov_aux(0), aux, air.s_qc(0))
            &&& takes(air.s_qc(0), air.s_nqc() * leaf_felts(air, 2), air.s_cg(0, 0))
            &&& takes(air.s_cg(0, 0), 4 * rounds, air.s_cap_c(0))
            &&& takes(air.s_cap_c(0), caps, air.s_pw(0))
            &&& air.column_window ==> takes(air.s_pw(0), air.s_pis_count(), air.s_sch(0)) && takes(
                air.s_sch(0),
                2 * rounds,
                air.s_sel(0),
            )
            &&& !air.column_window ==> air.s_pw(0) == air.s_sel(0)
            &&& trees ==> takes(air.s_sel(0), 6, air.s_fold_acc(0)) && takes(
                air.s_fold_acc(0),
                2 * air.s_n_fold_acc(),
                air.s_af_p(0),
            )
            &&& !trees ==> air.s_sel(0) == air.s_af_p(0)
            &&& takes(air.s_af_p(0), 8, air.s_af_root(0))
            &&& air.s_width() == if air.fold {
                air.s_af_root(4)
            } else {
                air.s_af_p(0)
            }
        }),
{
    air.lemma_bounds();
    let n = air.s_nqc();
    assert(n * leaf_felts(air, 2) == air.s_quot_leaf_felts()) by (nonlinear_arith)
        requires
            air.s_quot_leaf_felts() == (if leaf_felts(air, 2) == 10 {
                10 * n
            } else {
                2 * n
            }),
            leaf_felts(air, 2) == 10 || leaf_felts(air, 2) == 2,
    ;
    assert(n * leaf_felts(air, 2) >= 0);
}

/// The columns of column `i` within its group: neighbours stand side by side, and so do the parts of a term.
pub proof fn law_row_groups(air: MonolithAir, k: int, i: int, r: int)
    requires
        air.wf(),
        !air.narrow_arith,
        !air.narrow_openings,
    ensures
        takes(air.s_z(k), 2, air.s_pz(k)),
        takes(air.s_pz(k), 2, air.s_px(k)),
        takes(air.s_px(k), 1, air.s_inv(k)),
        takes(air.s_inv(k), 2, air.s_apow(k)),
        takes(air.s_apow(k), 2, air.s_z(k + 1)),
        air.s_z(0) == air.s_qt_terms(),
        takes(air.s_cg(r, 0), 4, air.s_cg(r + 1, 0)),
        air.s_cg(r, i) == air.s_cg(r, 0) + i,
        takes(air.s_fold_acc(i), 2, air.s_fold_acc(i + 1)),
        takes(air.s_ov_c(i), 1, air.s_ov_c(i + 1)),
        takes(air.s_ov_random(i), 1, air.s_ov_random(i + 1)),
        takes(air.s_ov_aux(i), 1, air.s_ov_aux(i + 1)),
        takes(air.s_qc(i), 1, air.s_qc(i + 1)),
        takes(air.s_cap_c(i), 1, air.s_cap_c(i + 1)),
        takes(air.s_pw(i), 1, air.s_pw(i + 1)),
        takes(air.s_sch(i), 1, air.s_sch(i + 1)),
        takes(air.s_sel(i), 1, air.s_sel(i + 1)),
        takes(air.s_af_p(i), 1, air.s_af_p(i + 1)),
        takes(air.s_af_root(i), 1, air.s_af_root(i + 1)),
{
}

/// The partial folds of a row: one before every seventh constraint but those at the end.
pub proof fn law_partial_folds(air: MonolithAir, k: int)
    requires
        air.wf(),
        air.s_symbolic(),
        air.column_window,
    ensures
        0 <= k < air.s_n_fold_acc() <==> 0 <= k && 7 * (k + 1) < air.s_n_constraints(),
{
}

/// The periodic columns that a leaf of several blocks takes: one for every block but the first, one for the boundaries, and
/// one for the lanes that a short last block leaves.
pub open spec fn absorb_columns(felts: int) -> int {
    let blocks = div_up(felts, 4);
    if blocks > 1 {
        blocks + if felts % 4 != 0 {
            1int
        } else {
            0
        }
    } else {
        0
    }
}

/// The periodic columns stand side by side: the schedule of the permutation and of the transcript, the binds, the rounds and
/// queries, the roles of the super-tile's blocks, the leaves of several blocks, the root's fold, the random round, the aux
/// round, the salted commit leaves, and the ends of an instance.
#[verifier::rlimit(40)]
pub proof fn law_periodic_columns(air: MonolithAir)
    requires
        air.wf(),
    ensures
        ({
            let rounds = air.s_cm_rounds();
            let tile = air.s_m_tf();
            let row = leaf_felts(air, air.s_w_inner());
            let chunks = air.s_nqc() * leaf_felts(air, 2);
            let fold = if !air.fold {
                0
            } else if air.fold_txstmt {
                12
            } else {
                5int
            };
            let random = if air.is_zk == 1 {
                2 + absorb_columns(10)
            } else {
                0
            };
            let aux = match air.lookup {
                Some(l) => 2 + absorb_columns(2 * l.aux_ext_w as int),
                None => 0,
            };
            let salted = if air.is_zk == 1 {
                1int
            } else {
                0
            };
            &&& takes(15, (air.binds@.len() + air.index_binds@.len()) as int, air.s_p_round(0))
            &&& takes(air.s_p_round(0), rounds, air.s_p_query(0))
            &&& takes(air.s_p_query(0), air.n_queries as int, tile)
            &&& takes(tile, 1, air.s_m_tl())
            &&& takes(air.s_m_tl(), 1, air.s_m_leaf())
            &&& takes(air.s_m_leaf(), 1, air.s_m_term())
            &&& takes(air.s_m_term(), 1, air.s_s_trans())
            &&& takes(air.s_s_trans(), 1, air.s_s_query())
            &&& takes(air.s_s_query(), 1, air.s_s_merkle())
            &&& takes(air.s_s_merkle(), 1, air.s_s_trans_trans())
            &&& takes(air.s_s_trans_trans(), 1, air.s_p_st_last())
            &&& takes(air.s_p_st_last(), 1, air.s_q_leaf())
            &&& takes(air.s_q_leaf(), 1, air.s_q_term())
            &&& takes(air.s_q_term(), 1, air.s_c_leaf(0))
            &&& takes(air.s_c_leaf(0), rounds, air.s_c_term(0))
            &&& takes(air.s_c_term(0), rounds, air.s_ia_in(1))
            &&& takes(air.s_ia_in(1), absorb_columns(row), air.s_iq_(1))
            &&& takes(air.s_iq_(1), absorb_columns(chunks), air.s_p_fold_active())
            &&& takes(air.s_p_fold_active(), fold, air.s_p_random_leaf())
            &&& takes(air.s_p_random_leaf(), random, air.s_p_aux_leaf())
            &&& takes(air.s_p_aux_leaf(), aux, air.s_c_bnd())
            &&& takes(air.s_c_bnd(), salted, air.s_p_inst_first())
            &&& takes(air.s_p_inst_first(), 1, air.s_p_inst_last())
            &&& takes(air.s_p_inst_last(), 1, air.s_num_periodic_columns())
        }),
{
    air.lemma_bounds();
    let n = air.s_nqc();
    assert(n * leaf_felts(air, 2) == air.s_quot_leaf_felts()) by (nonlinear_arith)
        requires
            air.s_quot_leaf_felts() == (if leaf_felts(air, 2) == 10 {
                10 * n
            } else {
                2 * n
            }),
            leaf_felts(air, 2) == 10 || leaf_felts(air, 2) == 2,
    ;
    assert(air.s_aux_leaf_blocks() >= 0);
}

/// Within a leaf of several blocks, the columns of its later blocks are followed by that of the boundaries and, where the
/// last block is short, by that of the lanes it leaves; and the columns of the root's fold stand side by side.
#[verifier::rlimit(40)]
pub proof fn law_periodic_groups(air: MonolithAir, b: int)
    requires
        air.wf(),
    ensures
        ({
            let row = div_up(leaf_felts(air, air.s_w_inner()), 4);
            let chunks = air.s_quot_leaf_blocks();
            &&& takes(air.s_ia_in(b), 1, air.s_ia_in(b + 1))
            &&& air.s_ia_in(row) == air.s_in_boundary()
            &&& takes(air.s_in_boundary(), 1, air.s_in_last_carry())
            &&& takes(air.s_iq_(b), 1, air.s_iq_(b + 1))
            &&& air.s_iq_(chunks) == air.s_q_boundary()
            &&& takes(air.s_q_boundary(), 1, air.s_q_last_carry())
            &&& takes(air.s_p_random_leaf(), 1, air.s_p_random_term())
            &&& takes(air.s_p_random_term(), 1, air.s_p_random_absorb(1))
            &&& takes(air.s_p_random_absorb(b), 1, air.s_p_random_absorb(b + 1))
            &&& air.s_p_random_absorb(3) == air.s_p_random_boundary()
            &&& takes(air.s_p_random_boundary(), 1, air.s_p_random_last_carry())
            &&& takes(air.s_p_aux_leaf(), 1, air.s_p_aux_term())
            &&& takes(air.s_p_aux_term(), 1, air.s_p_aux_absorb(1))
            &&& takes(air.s_p_aux_absorb(b), 1, air.s_p_aux_absorb(b + 1))
            &&& air.lookup is Some ==> air.s_p_aux_absorb(div_up(2 * air.lookup->0.aux_ext_w, 4))
                == air.s_p_aux_boundary()
            &&& takes(air.s_p_aux_boundary(), 1, air.s_p_aux_last_carry())
            &&& takes(air.s_p_fold_active(), 1, air.s_p_fold_first(0))
            &&& air.s_p_fold_sk() == air.s_p_fold_first(0)
            &&& takes(air.s_p_fold_first(b), 1, air.s_p_fold_first(b + 1))
            &&& air.fold_txstmt ==> takes(air.s_p_fold_first(0), 7, air.s_p_fold_sklink()) && takes(
                air.s_p_fold_sklink(),
                1,
                air.s_p_fold_sklast(),
            )
            &&& !air.fold_txstmt ==> takes(air.s_p_fold_sk(), 1, air.s_p_fold_sklast())
            &&& takes(air.s_p_fold_sklast(), 1, air.s_p_fold_rootin())
            &&& takes(air.s_p_fold_rootin(), 1, air.s_p_fold_rootupd())
            &&& air.fold ==> takes(air.s_p_fold_rootupd(), 1, air.s_p_random_leaf())
            &&& takes(air.s_p_round(b), 1, air.s_p_round(b + 1))
            &&& takes(air.s_p_query(b), 1, air.s_p_query(b + 1))
            &&& takes(air.s_c_leaf(b), 1, air.s_c_leaf(b + 1))
            &&& takes(air.s_c_term(b), 1, air.s_c_term(b + 1))
        }),
{
    air.lemma_bounds();
}

/// The later blocks of a leaf are marked at their heads, from column `absorb` on, the ends of all but the last as boundaries,
/// and the boundary into a short last block for itself.
pub open spec fn leaf_marked(
    air: MonolithAir,
    row: int,
    head: int,
    felts: int,
    absorb: int,
    boundary: int,
    short: int,
) -> bool {
    let blocks = div_up(felts, 4);
    &&& forall|b: int|
        #![trigger air.at_head(row, head + b)]
        1 <= b < blocks ==> air.selector(absorb + b - 1, row) == air.at_head(row, head + b)
    &&& blocks > 1 ==> air.selector(boundary, row) == exists|b: int|
        1 <= b < blocks && #[trigger] air.at_end(row, head + b - 1)
    &&& blocks > 1 && felts % 4 != 0 ==> air.selector(short, row) == air.at_end(row, head + blocks - 2)
}

proof fn lemma_leaf_marked(air: MonolithAir, row: int, head: int, felts: int, absorb: int)
    requires
        felts >= 0,
        forall|i: int|
            0 <= i < absorb_columns(felts) ==> #[trigger] air.selector(absorb + i, row) == air.leaf_selector(
                i,
                row,
                head,
                div_up(felts, 4),
            ),
    ensures
        leaf_marked(air, row, head, felts, absorb, absorb + div_up(felts, 4) - 1, absorb + div_up(felts, 4)),
{
    let blocks = div_up(felts, 4);
    if blocks > 1 {
        assert forall|b: int| 1 <= b < blocks implies air.selector(absorb + b - 1, row) == #[trigger] air.at_head(
            row,
            head + b,
        ) by {
            assert(air.selector(absorb + (b - 1), row) == air.leaf_selector(b - 1, row, head, blocks));
            assert(head + 1 + (b - 1) == head + b);
        }
        assert(air.selector(absorb + (blocks - 1), row) == air.leaf_selector(blocks - 1, row, head, blocks));
        if felts % 4 != 0 {
            assert(air.selector(absorb + blocks, row) == air.leaf_selector(blocks, row, head, blocks));
        }
    }
}

/// The columns of the binds mark the last rows of the blocks that the challenges and the query felts come from.
pub proof fn law_bind_selectors(air: MonolithAir, row: int, j: int, k: int)
    requires
        air.wf(),
        0 <= j < air.binds@.len(),
        0 <= k < air.index_binds@.len(),
    ensures
        air.selector(15 + j, row) == (row == 32 * air.binds@[j] + 31),
        air.selector((15 + air.binds@.len() + k) as int, row) == (row == 32 * air.index_binds@[k].0 + 31),
{
}

/// The columns of the leaves of the trace and of the quotient mark their blocks.
#[verifier::spinoff_prover]
#[verifier::rlimit(40)]
pub proof fn law_leaf_selectors(air: MonolithAir, row: int)
    requires
        air.wf(),
    ensures
        leaf_marked(
            air,
            row,
            air.s_m_input_leaf(),
            leaf_felts(air, air.s_w_inner()),
            air.s_ia_in(1),
            air.s_in_boundary(),
            air.s_in_last_carry(),
        ),
        leaf_marked(
            air,
            row,
            air.s_m_quot_leaf(),
            air.s_quot_leaf_felts(),
            air.s_iq_(1),
            air.s_q_boundary(),
            air.s_q_last_carry(),
        ),
{
    air.lemma_bounds();
    lemma_leaf_marked(
        air,
        row,
        air.s_m_input_leaf(),
        leaf_felts(air, air.s_w_inner()),
        air.s_ia_in(1),
    );
    lemma_leaf_marked(air, row, air.s_m_quot_leaf(), air.s_quot_leaf_felts(), air.s_iq_(1));
}

/// A random or aux round stands in front of the trace's opening: its leaf heads the first block behind the arithmetic, and its
/// columns mark its blocks.
#[verifier::spinoff_prover]
#[verifier::rlimit(40)]
pub proof fn law_front_selectors(air: MonolithAir, row: int)
    requires
        air.wf(),
    ensures
        air.is_zk == 1 ==> air.selector(air.s_p_random_leaf(), row) == air.at_head(row, 1) && leaf_marked(
            air,
            row,
            1,
            10,
            air.s_p_random_absorb(1),
            air.s_p_random_boundary(),
            air.s_p_random_last_carry(),
        ),
        air.lookup is Some ==> air.selector(air.s_p_aux_leaf(), row) == air.at_head(row, 1) && leaf_marked(
            air,
            row,
            1,
            2 * air.lookup->0.aux_ext_w,
            air.s_p_aux_absorb(1),
            air.s_p_aux_boundary(),
            air.s_p_aux_last_carry(),
        ),
{
    air.lemma_bounds();
    if air.is_zk == 1 {
        lemma_leaf_marked(air, row, 1, 10, air.s_p_random_absorb(1));
    }
    if air.lookup is Some {
        lemma_leaf_marked(air, row, 1, 2 * air.lookup->0.aux_ext_w, air.s_p_aux_absorb(1));
    }
}

/// The root's fold fills the last blocks of an instance: the blocks of the statement, seven for a transaction and else one,
/// each marked at its first row, then the block of the root, which ends the instance.
#[verifier::spinoff_prover]
#[verifier::rlimit(40)]
pub proof fn law_fold_selectors(air: MonolithAir, row: int, b: int)
    requires
        air.wf(),
        air.fold,
        air.s_fold_fits(),
    ensures
        ({
            let h = air.s_inst_h();
            let n: int = if air.fold_txstmt {
                7
            } else {
                1
            };
            &&& air.selector(air.s_p_fold_active(), row) == (h - 32 * (n + 1) <= row < h)
            &&& 0 <= b < n ==> air.selector(air.s_p_fold_first(b), row) == (row == h - 32 * (n + 1 - b))
            &&& air.fold_txstmt ==> air.selector(air.s_p_fold_sklink(), row) == (h - 256 <= row < h - 64 && row % 32 == 31)
            &&& air.selector(air.s_p_fold_sklast(), row) == (row == h - 33)
            &&& air.selector(air.s_p_fold_rootin(), row) == (row == h - 32)
            &&& air.selector(air.s_p_fold_rootupd(), row) == (row == h - 1)
        }),
{
    air.lemma_bounds();
    let h = air.s_inst_h();
    let rows = (air.s_tr() + air.n_queries * air.s_m_period()) as nat;
    crate::bits::lemma_next_pow2(air.counts@.len());
    crate::bits::lemma_next_pow2_of_block(rows);
    let n: int = if air.fold_txstmt {
        7
    } else {
        1
    };
    let fb = air.s_fold_sk_block();
    assert(fb == h / 32 - n - 1 && h == 32 * (h / 32));
    if air.fold_txstmt && h - 256 <= row < h - 64 && row % 32 == 31 {
        let c = row / 32 - fb;
        assert(row == ((fb + c) * 32) + 31);
        assert(air.selector(air.s_p_fold_sklink(), row));
    }
}

/// The number of quotient chunks follows from the number of terms: behind the random row, the trace's row pair and the aux
/// columns' row pair, a hiding inner has six terms for each chunk, and any other two.
pub proof fn law_chunks_follow_from_terms(air: MonolithAir, chunks: nat)
    requires
        air.n_terms == (if air.is_zk == 1 {
            6 + 2 * (air.s_w_inner() + 4) + 6 * chunks
        } else {
            2 * air.s_w_inner() + 2 * (match air.lookup {
                Some(l) => 2 * l.aux_ext_w as int,
                None => 0,
            }) + 2 * chunks
        }),
    ensures
        air.s_nqc() == chunks,
{
}

/// How many constraints the carried rows bring: each felt is held, and where the terms are kept, each felt but salt is read by
/// its terms, at two points in a row of the trace or of the aux columns, at one in a chunk or in the random row. A row that is
/// kept elsewhere brings none, and so do the points of the terms where the arithmetic is.
pub proof fn law_carried_constraints(air: MonolithAir, c: int)
    requires
        air.wf(),
        0 <= c,
    ensures
        air.s_opened_row(c).len() == (if c < air.s_w_inner() + (if air.is_zk == 1 {
            4int
        } else {
            0
        }) && !air.narrow_arith {
            3int
        } else {
            1
        }),
        air.s_quot_row(c).len() == (if (air.is_zk == 1 ==> c % 10 < 6) && !air.narrow_arith {
            2int
        } else {
            1
        }),
        air.s_random_row(c).len() == (if c < 6 && air.is_zk == 1 || c < 2 {
            2int
        } else {
            1
        }),
        air.s_aux_row(c).len() == 3,
        air.narrow_ov ==> air.all_opened_row().len() == 0,
        air.is_zk == 0 ==> air.all_random_row().len() == 0,
        air.lookup is None || air.narrow_arith ==> air.all_aux_row().len() == 0,
        air.narrow_arith ==> air.all_term_points().len() == 0,
{
}

/// The felts of a quotient leaf by chunks: ten each where the inner hides, six for the terms and four of salt, else two.
pub proof fn law_chunk_felts(air: MonolithAir, i: int, j: int)
    requires
        0 <= i,
        0 <= j < leaf_felts(air, 2),
    ensures
        air.s_chunk_of(i * leaf_felts(air, 2) + j) == i,
        air.s_chunk_component(i * leaf_felts(air, 2) + j) == j,
        air.s_trm_chunk_w() == if air.is_zk == 1 {
            6int
        } else {
            2
        },
{
    let n = leaf_felts(air, 2);
    assert(air.s_quot_chunk_stride() == n);
    vstd::arithmetic::div_mod::lemma_fundamental_div_mod_converse(i * n + j, n, i, j);
}

} // verus!
