//! The shape of the fused verifier.

use lattica_prover::monolith::geometry::{commit_layout, hiding_commit_layout, milestone_geom_air};
use lattica_prover::monolith::layout::{cm_depth_at, MonolithAir, LOG_BLOWUP, M_INPUT_LEAF};

fn hiding_air() -> MonolithAir {
    MonolithAir {
        counts: vec![],
        binds: vec![0; 10],
        index_binds: vec![],
        n_queries: 1,
        n_terms: 40,
        inner_counter: false,
        column_window: false,
        k_instances: 1,
        fold: false,
        fold_txstmt: false,
        constraints: vec![],
        w_inner_f: 0,
        n_pub_f: 0,
        n_periodic_f: 0,
        is_zk: 1,
        cap_height: 6,
        narrow_arith: false,
        narrow_caps: false,
        narrow_openings: false,
        narrow_ov: false,
        lookup: None,
        txroot_dom: 0,
    }
}

#[test]
fn geometry_matches_milestone() {
    let air = milestone_geom_air();
    assert_eq!((air.lg(), air.cap_height, LOG_BLOWUP), (10, 6, 4));
    assert_eq!((air.cm_rounds(), air.input_depth(), M_INPUT_LEAF), (6, 4, 1));
    let depths: Vec<usize> = (0..6).map(|r| cm_depth_at(r, 10, 6)).collect();
    assert_eq!(depths, vec![3, 2, 1, 0, 0, 0]);
    assert_eq!((air.leaf_blocks(), air.nqc(), air.quot_leaf_blocks()), (1, 1, 1));
    assert_eq!((air.m_input_term(), air.m_quot_leaf(), air.m_quot_term()), (5, 6, 10));
    let leaves: Vec<usize> = (0..6).map(|r| air.cm_leaf(r)).collect();
    assert_eq!(leaves, vec![11, 15, 18, 20, 21, 22]);
    let terms: Vec<usize> = (0..6).map(|r| air.cm_term(r)).collect();
    assert_eq!(terms, vec![14, 17, 19, 20, 21, 22]);
    assert_eq!((air.m_nblocks(), air.m_period()), (23, 736));
}

#[test]
fn commit_layout_generalizes() {
    let (rounds, id, m_input_term, m_quot_term, leaf, term, nb) = commit_layout(10, 6, 4, 1, 1);
    assert_eq!((rounds, id, m_input_term, m_quot_term, nb), (6, 4, 5, 10, 23));
    assert_eq!((leaf, term), (vec![11, 15, 18, 20, 21, 22], vec![14, 17, 19, 20, 21, 22]));
    let (rounds, ..) = commit_layout(16, 6, 4, 1, 1);
    assert_eq!(rounds, 12);
    assert_eq!((cm_depth_at(0, 16, 6), cm_depth_at(9, 16, 6), cm_depth_at(11, 16, 6)), (9, 0, 0));
    let (rounds, id, m_input_term, m_quot_term, leaf, term, nb) = commit_layout(16, 6, 4, 5, 4);
    assert_eq!((rounds, id), (12, 10));
    assert_eq!((m_input_term, m_quot_term), (15, 29));
    assert_eq!((leaf[0], *leaf.last().unwrap(), *term.last().unwrap(), nb), (30, 86, 86, 87));
}

#[test]
fn hiding_super_tile_layout_matches_witness() {
    let (rt, it, qt, leaf, term, nb, n_terms, [rlb, ilb, qlb]) = hiding_commit_layout(1, 4, 11, 6, 4);
    assert_eq!([rlb, ilb, qlb], [3, 3, 10], "salted leaf blocks: random(10f)/trace(9f)/quot(40f)");
    assert_eq!(n_terms, 40, "hiding reduced-opening terms = 6 + 10 + 24");
    assert_eq!((rt, it, qt), (8, 16, 31), "random/trace/quotient terminal blocks");
    assert_eq!(leaf.len(), 7, "arity-2 cm_rounds = log_global - blowup = 7");
    assert_eq!((leaf[0], nb), (32, 56), "commit rounds start after the quotient terminal");
    assert_eq!(*term.last().unwrap() + 1, nb, "m_nblocks == last commit term + 1");
    assert!(rt < it && it < qt && qt < leaf[0], "regions are monotone and disjoint");
}

#[test]
fn monolith_is_zk_geometry_matches_layout() {
    let air = hiding_air();
    let (rt, it, qt, _leaf, _term, nb, n_terms, [rlb, ilb, qlb]) = hiding_commit_layout(1, 4, 11, 6, 4);
    assert_eq!(air.nqc(), 4, "hiding nqc solved from n_terms");
    assert_eq!((air.random_leaf_blocks(), air.leaf_blocks(), air.quot_leaf_blocks()), (rlb, ilb, qlb), "leaf blocks");
    assert_eq!((air.m_random_term(), air.m_input_term(), air.m_quot_term()), (rt, it, qt), "leaf-region terminals");
    assert_eq!(air.m_nblocks(), nb, "m_nblocks");
    assert_eq!(air.n_terms, n_terms, "n_terms");
    assert_eq!(air.lg(), 11, "log_global from binds");
    assert_eq!(air.tile_w(), air.qt_terms() + 9 * 40, "arith tile width = qt_terms + 9 n_terms");
    assert_eq!(
        (air.input_leaf_felts(), air.random_leaf_felts(), air.quot_leaf_felts()),
        (9, 10, 40),
        "leaf-preimage felt widths"
    );
    assert_eq!(air.carriers_base() - air.ov(), 9 + 10 + 40, "carrier region = 3 salted leaf preimages (59 felts)");
    assert_eq!(
        (air.ov_c(0), air.ov_random(0), air.qc(0)),
        (air.ov(), air.ov() + 9, air.ov() + 19),
        "leaf-preimage carrier offsets: trace|random|quotient"
    );
    assert_eq!(air.n_cap_c(), (2 + 1 + 7) * 4, "cap carriers incl. the random round = (3+cm_rounds) 4");
}

#[test]
fn terms_are_ordered_random_trace_next_quotient() {
    let air = hiding_air();
    assert_eq!((air.trm_trace(0), air.trm_next(0), air.trm_quot(0, 0)), (6, 11, 16));
    assert_eq!(air.trm_quot(3, 5), 39);
    let plain = milestone_geom_air();
    assert_eq!((plain.trm_trace(0), plain.trm_next(0), plain.trm_quot(0, 0), plain.trm_quot(0, 1)), (0, 1, 2, 3));
}

#[test]
fn statement_chunks_cover_a_transaction() {
    let srcs = MonolithAir::fold_chunk_srcs();
    assert_eq!(srcs.len(), 7);
    assert_eq!(srcs[0], [Some(0), Some(1), Some(2), Some(3)]);
    assert_eq!(srcs[2], [Some(8), Some(9), Some(10), Some(11)]);
    assert_eq!(srcs[5], [Some(20), Some(21), None, None]);
    assert_eq!(srcs[6], [Some(22), Some(23), Some(24), Some(25)]);
}
