//! Proofs made by `p3_uni_stark`, verified, replayed and turned into instances of the fused verifier.

use lattica_prover::expr::{
    constant, cur, minus, nxt, on_first, on_last, on_transition, per, plus, public, times, Expr, Wire,
};
use lattica_prover::field::Ext;
use lattica_prover::fri::input::{BatchOpening, Round};
use lattica_prover::fri::query::{CommitStep, FriParams, Opening};
use lattica_prover::fri::verify::{FriError, FriProof, QueryProof};
use lattica_prover::fri::witness::{
    general_fold_chain, merkle_witness, query_commit_merkle_all, query_fold_data, query_input_merkle,
    query_quotient_merkle, query_terms, CommitWitness,
};
use lattica_prover::gadgets::agg::agg_root;
use lattica_prover::gadgets::fold::{
    build_arity4_fold_chain_trace, build_general_fold_trace, Arity4FoldChainAir, GeneralFoldAir,
};
use lattica_prover::gadgets::ood::{
    build_general_epilogue_trace, build_symbolic_epilogue_trace, GeneralEpilogueAir, SymbolicEpilogueAir,
};
use lattica_prover::gadgets::opening::{build_multicol_ro_trace, MultiColReducedOpeningAir, OpeningTerm};
use lattica_prover::monolith::aggregate::build_aggregator_trace;
use lattica_prover::monolith::budget::{introspect_geometry, monolith_trace_height};
use lattica_prover::monolith::layout::MonolithAir;
use lattica_prover::monolith::window::{
    build_inner_window, build_symbolic_inner_window, inner_window, InnerWindow, WindowError, WindowMode,
};
use lattica_prover::poseidon::leaf_hash_blocks;
use lattica_prover::stark::domain::{
    next_point_of, quotient_recompose_weights, recompose_quotient, selectors_at_point, Selectors,
};
use lattica_prover::stark::replay::{
    full_transcript_challenges, sim_cap_positions, sim_full, sim_opening_positions, Replay,
};
use lattica_prover::stark::verify::{
    build_params, build_params_cap, claims_of, column_air, epilogue_openings, fold_constraints, periodic_at,
    preamble_challenges, verify_proof, verify_proof_with, InnerAir, StarkError, StarkProof,
};
use p3_air::{Air, AirBuilder, BaseAir, WindowAccess};
use p3_challenger::DuplexChallenger;
use p3_commit::{ExtensionMmcs, Pcs};
use p3_dft::Radix2DitParallel;
use p3_field::extension::BinomialExtensionField;
use p3_field::{BasedVectorSpace, Field, PrimeCharacteristicRing, PrimeField64, TwoAdicField};
use p3_fri::{FriParameters, TwoAdicFriPcs};
use p3_goldilocks::{default_goldilocks_poseidon2_8, Goldilocks, Poseidon2Goldilocks};
use p3_matrix::dense::RowMajorMatrix;
use p3_merkle_tree::MerkleTreeMmcs;
use p3_symmetric::{CryptographicHasher, MerkleCap, PaddingFreeSponge, TruncatedPermutation};
use p3_uni_stark::{prove, verify, Proof, StarkConfig};

type Val = Goldilocks;
type Challenge = BinomialExtensionField<Val, 2>;
type Perm = Poseidon2Goldilocks<8>;
type MyHash = PaddingFreeSponge<Perm, 8, 4, 4>;
type MyCompress = TruncatedPermutation<Perm, 2, 4, 8>;
type InputMmcs = MerkleTreeMmcs<<Val as Field>::Packing, <Val as Field>::Packing, MyHash, MyCompress, 2, 4>;
type ChallengeMmcs = ExtensionMmcs<Val, Challenge, InputMmcs>;
type Chal = DuplexChallenger<Val, Perm, 8, 4>;
type MyPcs = TwoAdicFriPcs<Val, Radix2DitParallel<Val>, InputMmcs, ChallengeMmcs>;
type MyConfig = StarkConfig<MyPcs, Challenge, Chal>;
type PcsOpeningProof = <MyPcs as Pcs<Challenge, Chal>>::Proof;

fn make_config_cap(max_log_arity: usize, num_queries: usize, cap_height: usize) -> MyConfig {
    let perm = default_goldilocks_poseidon2_8();
    let mmcs = InputMmcs::new(MyHash::new(perm.clone()), MyCompress::new(perm.clone()), cap_height);
    let params = FriParameters {
        log_blowup: 4,
        log_final_poly_len: 0,
        max_log_arity,
        num_queries,
        commit_proof_of_work_bits: 0,
        query_proof_of_work_bits: 16,
        mmcs: ChallengeMmcs::new(mmcs.clone()),
    };
    MyConfig::new(MyPcs::new(Radix2DitParallel::default(), mmcs, params), Chal::new(perm))
}

fn make_config(max_log_arity: usize, num_queries: usize) -> MyConfig {
    make_config_cap(max_log_arity, num_queries, 6)
}

fn felt(x: &Val) -> u64 {
    x.as_canonical_u64()
}

fn felts(xs: &[Val]) -> Vec<u64> {
    xs.iter().map(felt).collect()
}

fn plain_ext(x: &Challenge) -> Ext {
    let c: &[Val] = x.as_basis_coefficients_slice();
    Ext { c0: felt(&c[0]), c1: felt(&c[1]) }
}

fn plain_exts(xs: &[Challenge]) -> Vec<Ext> {
    xs.iter().map(plain_ext).collect()
}

fn wide(x: Ext) -> Challenge {
    Challenge::new([Val::new(x.c0), Val::new(x.c1)])
}

fn plain_cap(c: &MerkleCap<Val, [Val; 4]>) -> Vec<Vec<u64>> {
    c.roots().iter().map(|d| felts(d)).collect()
}

fn plain_path(p: &[[Val; 4]]) -> Vec<Vec<u64>> {
    p.iter().map(|d| felts(d)).collect()
}

fn plain_fri(fri: &PcsOpeningProof) -> FriProof {
    FriProof {
        commits: fri.commit_phase_commits.iter().map(plain_cap).collect(),
        commit_pow: fri.commit_pow_witnesses.iter().map(felt).collect(),
        queries: fri
            .query_proofs
            .iter()
            .map(|qp| QueryProof {
                input: qp
                    .input_proof
                    .iter()
                    .map(|b| BatchOpening {
                        rows: b.opened_values.iter().map(|r| felts(r)).collect(),
                        path: plain_path(&b.opening_proof),
                    })
                    .collect(),
                openings: qp
                    .commit_phase_openings
                    .iter()
                    .map(|o| Opening {
                        log_arity: o.log_arity,
                        siblings: plain_exts(&o.sibling_values),
                        path: plain_path(&o.opening_proof),
                    })
                    .collect(),
            })
            .collect(),
        final_poly: plain_exts(&fri.final_poly),
        query_pow: felt(&fri.query_pow_witness),
    }
}

/// An inner constraint system with its number of public values, as `p3_uni_stark` takes it.
struct Circuit {
    air: InnerAir,
    pubs: usize,
}

fn render<AB: AirBuilder<F = Val>>(e: &Expr, b: &AB) -> AB::Expr {
    match e {
        Expr::Cur(i) => b.main().current_slice()[*i].into(),
        Expr::Nxt(i) => b.main().next_slice()[*i].into(),
        Expr::Periodic(i) => b.periodic_values()[*i].into(),
        Expr::Public(i) => b.public_values()[*i].into(),
        Expr::IsFirstRow => b.is_first_row(),
        Expr::IsLastRow => b.is_last_row(),
        Expr::IsTransition => b.is_transition(),
        Expr::Const(c) => AB::Expr::from(Val::from_u64(*c)),
        Expr::Sum(x, y) => render(x, b) + render(y, b),
        Expr::Difference(x, y) => render(x, b) - render(y, b),
        Expr::Negation(x) => -render(x, b),
        Expr::Product(x, y) => render(x, b) * render(y, b),
    }
}

impl BaseAir<Val> for Circuit {
    fn width(&self) -> usize {
        self.air.width
    }
    fn num_public_values(&self) -> usize {
        self.pubs
    }
    fn num_periodic_columns(&self) -> usize {
        self.air.periodic.len()
    }
    fn periodic_columns(&self) -> Vec<Vec<Val>> {
        self.air.periodic.iter().map(|c| c.iter().map(|x| Val::new(*x)).collect()).collect()
    }
}

impl<AB: AirBuilder<F = Val>> Air<AB> for Circuit {
    fn eval(&self, b: &mut AB) {
        for c in &self.air.constraints {
            let e = render(c, b);
            b.assert_zero(e);
        }
    }
}

/// A proof of `p3_uni_stark` in plain values.
fn plain_proof(p: &Proof<MyConfig>) -> StarkProof {
    StarkProof {
        trace_commit: plain_cap(&p.commitments.trace),
        quotient_commit: plain_cap(&p.commitments.quotient_chunks),
        trace_local: plain_exts(&p.opened_values.trace_local),
        trace_next: p.opened_values.trace_next.as_ref().map(|v| plain_exts(v)),
        quotient_chunks: p.opened_values.quotient_chunks.iter().map(|c| plain_exts(c)).collect(),
        opening: plain_fri(&p.opening_proof),
        degree_bits: p.degree_bits,
    }
}

/// A circuit with a valid trace, row by row.
struct Inner {
    circuit: Circuit,
    rows: Vec<u64>,
    pvs: Vec<u64>,
}

fn prove_inner(config: &MyConfig, inner: &Inner) -> (Proof<MyConfig>, Vec<Val>) {
    let vals: Vec<Val> = inner.rows.iter().map(|x| Val::new(*x)).collect();
    let pvs: Vec<Val> = inner.pvs.iter().map(|x| Val::new(*x)).collect();
    (prove(config, &inner.circuit, RowMajorMatrix::new(vals, inner.circuit.air.width), &pvs), pvs)
}

fn column(step: u64, value: u64, log_height: usize) -> Inner {
    Inner {
        circuit: Circuit { air: column_air(step), pubs: 1 },
        rows: (0..1u64 << log_height).map(|i| value + step * i).collect(),
        pvs: vec![value],
    }
}

fn circuit(width: usize, pubs: usize, log_chunks: usize, constraints: Vec<Wire>, periodic: Vec<Vec<u64>>) -> Circuit {
    Circuit { air: InnerAir { width, constraints, periodic, uses_next: true, log_chunks }, pubs }
}

/// Two columns a, b with a' = b and b' = a + b.
fn fibonacci(log_height: usize) -> Inner {
    let constraints = vec![
        on_first(&minus(&cur(0), &public(0))),
        on_first(&minus(&cur(1), &public(1))),
        on_transition(&minus(&nxt(0), &cur(1))),
        on_transition(&minus(&nxt(1), &plus(&cur(0), &cur(1)))),
        on_last(&minus(&cur(1), &public(2))),
    ];
    let (mut a, mut b) = (Val::ONE, Val::ONE);
    let mut rows = Vec::new();
    for _ in 0..1usize << log_height {
        rows.push(felt(&a));
        rows.push(felt(&b));
        let next = a + b;
        a = b;
        b = next;
    }
    let last = rows[rows.len() - 1];
    Inner { circuit: circuit(2, 3, 0, constraints, vec![]), rows, pvs: vec![1, 1, last] }
}

/// Two columns a, a^3 with a' = a + 1: two quotient chunks.
fn cube(log_height: usize) -> Inner {
    let a = cur(0);
    let constraints = vec![
        on_first(&minus(&a, &public(0))),
        minus(&cur(1), &times(&times(&a, &a), &a)),
        on_transition(&minus(&nxt(0), &plus(&a, &constant(1)))),
    ];
    let rows = (0..1u64 << log_height).flat_map(|i| vec![3 + i, (3 + i) * (3 + i) * (3 + i)]).collect();
    Inner { circuit: circuit(2, 1, 1, constraints, vec![]), rows, pvs: vec![3] }
}

/// One column that accumulates the periodic pattern 3, 7.
fn periodic(log_height: usize) -> Inner {
    let constraints = vec![
        on_first(&minus(&cur(0), &public(0))),
        on_transition(&minus(&nxt(0), &plus(&cur(0), &per(0)))),
    ];
    let mut a = 5u64;
    let mut rows = Vec::new();
    for i in 0..1usize << log_height {
        rows.push(a);
        a += if i % 2 == 0 { 3 } else { 7 };
    }
    Inner { circuit: circuit(1, 1, 0, constraints, vec![vec![3, 7]]), rows, pvs: vec![5] }
}

/// The commit rounds of a query under replayed challenges.
fn steps<'a>(proof: &'a StarkProof, rep: &Replay, q: usize) -> Vec<CommitStep<'a>> {
    (0..proof.opening.commits.len())
        .map(|r| CommitStep {
            beta: rep.challenges[3 + r],
            commit: &proof.opening.commits[r],
            opening: &proof.opening.queries[q].openings[r],
        })
        .collect()
}

fn log_global(proof: &StarkProof) -> usize {
    let total: usize = proof.opening.queries[0].openings.iter().map(|o| o.log_arity as usize).sum();
    total + 4
}

fn index_of(proof: &StarkProof, rep: &Replay, q: usize) -> usize {
    (rep.index_felts[q] as usize) & ((1 << log_global(proof)) - 1)
}

/// The terms, the query point and the reduced opening of a query.
fn terms_of(air: &InnerAir, proof: &StarkProof, rep: &Replay, q: usize) -> (Vec<OpeningTerm>, u64, Ext) {
    let coms: Vec<Round> = claims_of(air, proof, rep.challenges[1]);
    let lg = log_global(proof);
    query_terms(&coms, &proof.opening.queries[q].input, 4, index_of(proof, rep, q), lg, lg, rep.challenges[2]).unwrap()
}

fn commit_rounds(air: &InnerAir, proof: &StarkProof, rep: &Replay, q: usize) -> Vec<CommitWitness> {
    let (_, _, ro) = terms_of(air, proof, rep, q);
    query_commit_merkle_all(&steps(proof, rep, q), ro, index_of(proof, rep, q), log_global(proof))
}

fn same(a: Ext, b: Ext) -> bool {
    a.same(b)
}

#[test]
fn native_fri_verify_agrees_with_p3() {
    let config = make_config(4, 96);
    let inner = column(0, 42, 6);
    let (proof, pvs) = prove_inner(&config, &inner);
    let air = column_air(0);
    assert!(verify(&config, &inner.circuit, &proof, &pvs).is_ok(), "p3 accepts");
    let plain = plain_proof(&proof);
    assert_eq!(verify_proof(&air, &plain, &vec![42]), Ok(()));
    assert!(verify(&config, &inner.circuit, &proof, &[Val::from_u64(43)]).is_err());
    assert!(verify_proof(&air, &plain, &vec![43]).is_err(), "wrong public value");
    let mut p2 = plain_proof(&proof);
    p2.opening.queries[0].openings[0].siblings[0].c0 += 1;
    assert!(verify_proof(&air, &p2, &vec![42]).is_err(), "tampered commit-phase sibling");
    let mut p3 = plain_proof(&proof);
    p3.opening.final_poly[0].c0 += 1;
    assert!(verify_proof(&air, &p3, &vec![42]).is_err(), "tampered final polynomial");
}

#[test]
fn verification_agrees_with_p3_on_other_inners() {
    for inner in [column(1, 42, 5), fibonacci(4), cube(4), periodic(4)] {
        let config = make_config_cap(2, 5, 3);
        let (proof, pvs) = prove_inner(&config, &inner);
        assert!(verify(&config, &inner.circuit, &proof, &pvs).is_ok());
        let plain = plain_proof(&proof);
        let params: FriParams = build_params_cap(2, 5, 3);
        assert_eq!(verify_proof_with(&params, &inner.circuit.air, &plain, &inner.pvs), Ok(()));
        let mut bad = inner.pvs.clone();
        bad[0] += 1;
        assert!(verify_proof_with(&params, &inner.circuit.air, &plain, &bad).is_err());
        let mut open = plain_proof(&proof);
        open.trace_local[0].c1 += 1;
        assert!(verify_proof_with(&params, &inner.circuit.air, &open, &inner.pvs).is_err());
    }
}

#[test]
fn each_refusal_is_told() {
    let config = make_config_cap(1, 3, 2);
    let inner = column(1, 7, 4);
    let (proof, _) = prove_inner(&config, &inner);
    let air = column_air(1);
    let params = build_params_cap(1, 3, 2);
    let check = |p: &StarkProof| verify_proof_with(&params, &air, p, &vec![7]);
    let fresh = || plain_proof(&proof);
    assert_eq!(check(&fresh()), Ok(()));
    let mut p = fresh();
    p.trace_next = None;
    assert_eq!(check(&p), Err(StarkError::MissingNext));
    let mut p = fresh();
    p.opening.queries[1].openings.pop();
    assert_eq!(check(&p), Err(StarkError::Fri(FriError::OpeningCount)));
    let mut p = fresh();
    p.opening.final_poly.push(Ext { c0: 0, c1: 0 });
    assert!(matches!(check(&p), Err(StarkError::Fri(_))));
    let mut p = fresh();
    p.opening.queries.pop();
    assert!(matches!(check(&p), Err(StarkError::Fri(_))));
    let mut p = fresh();
    p.opening.query_pow += 1;
    assert!(matches!(check(&p), Err(StarkError::Fri(_))));
    let mut p = fresh();
    p.quotient_chunks[0][0].c0 += 1;
    assert!(check(&p).is_err());
    let mut p = fresh();
    p.opening.queries[0].input[0].path[0][0] += 1;
    assert!(matches!(check(&p), Err(StarkError::Fri(_))));
    let mut p = fresh();
    p.degree_bits = 40;
    assert_eq!(check(&p), Err(StarkError::DegreeBits));
    let mut p = fresh();
    p.degree_bits = 30;
    assert_eq!(check(&p), Err(StarkError::Fri(FriError::GlobalHeight)));
    let mut wrong = column_air(1);
    wrong.constraints = column_air(2).constraints;
    assert_eq!(verify_proof_with(&params, &wrong, &fresh(), &vec![7]), Err(StarkError::Constraints));
}

#[test]
fn phase4d_commit_merkle_structure() {
    let config = make_config(1, 32);
    let inner = column(0, 42, 6);
    let (proof, _) = prove_inner(&config, &inner);
    let plain = plain_proof(&proof);
    let rep = sim_full(&plain, &vec![42]);
    let hasher = MyHash::new(default_goldilocks_poseidon2_8());
    for q in 0..32 {
        let all = commit_rounds(&inner.circuit.air, &plain, &rep, q);
        let depths: Vec<usize> = all.iter().map(|w| w.merkle.bits.len()).collect();
        assert_eq!(depths, vec![3, 2, 1, 0, 0, 0], "commit-phase depths (q {q})");
        for w in &all {
            let h: [Val; 4] = hasher.hash_iter(w.group.iter().map(|x| Val::new(*x)));
            assert_eq!(felts(&h), w.merkle.leaf, "leaf == Hash(group) (q {q})");
        }
        let at = index_of(&plain, &rep, q) >> 2;
        let one = merkle_witness(&all[1].group, 2, &plain.opening.commits[1], at);
        assert_eq!((&all[1].merkle.leaf, &all[1].merkle.bits), (&one.leaf, &one.bits), "round 1 (q {q})");
        assert_eq!(all[1].merkle.cap_entry, one.cap_entry, "round 1 cap entry (q {q})");
    }
    let blocks: usize = commit_rounds(&inner.circuit.air, &plain, &rep, 0).iter().map(|w| 1 + w.merkle.bits.len()).sum();
    assert_eq!(blocks, 12);
}

#[test]
fn counter_epilogue_probe() {
    let config = make_config(1, 32);
    let inner = column(1, 42, 6);
    let (proof, _) = prove_inner(&config, &inner);
    let plain = plain_proof(&proof);
    let start = preamble_challenges(&plain, &vec![42]);
    let sel: Selectors = selectors_at_point(start.zeta, 6);
    let weights = quotient_recompose_weights(start.zeta, 6, 0);
    let quotient = recompose_quotient(&weights, &plain.quotient_chunks);
    let (local, next) = (plain.trace_local[0], plain.trace_next.as_ref().unwrap()[0]);
    let c0 = sel.is_first_row.times(local.minus(Ext::from_base(42)));
    let c1 = sel.is_transition.times(next.minus(local).minus(Ext::one()));
    let folded = c0.times(start.alpha).plus(c1).times(sel.inv_vanishing);
    assert!(same(folded, quotient), "counter: (A alpha + B) / Z == quotient");
    assert!(!same(quotient, Ext::zero()), "the counter's quotient is not zero");
}

#[test]
fn counter_cap_shifts_probe() {
    let config = make_config(1, 32);
    let inner = column(1, 42, 6);
    let (proof, _) = prove_inner(&config, &inner);
    let plain = plain_proof(&proof);
    let rep = sim_full(&plain, &vec![42]);
    let drawn = full_transcript_challenges(&plain, &vec![42]).unwrap();
    let lg = log_global(&plain);
    for q in [0usize, 1, 31] {
        let index = (drawn.index_felts[q] as usize) & ((1 << lg) - 1);
        let input = &plain.opening.queries[q].input;
        let t = query_input_merkle(&input[0], &plain.trace_commit, index);
        assert_eq!(plain.trace_commit[index >> 4], t.cap_entry, "trace cap shift 4 (q {q})");
        let w = query_quotient_merkle(&input[1], &plain.quotient_commit, index, lg, 6);
        assert_eq!(plain.quotient_commit[index >> 4], w.cap_entry, "quotient cap shift 4 (q {q})");
        for (r, c) in commit_rounds(&inner.circuit.air, &plain, &rep, q).iter().enumerate() {
            let shift = (r + 1) + c.merkle.bits.len();
            assert_eq!(plain.opening.commits[r][index >> shift], c.merkle.cap_entry, "commit r{r} shift {shift} (q {q})");
        }
    }
}

#[test]
fn counter_probe() {
    let config = make_config(1, 32);
    let inner = column(1, 42, 6);
    let (proof, pvs) = prove_inner(&config, &inner);
    assert!(verify(&config, &inner.circuit, &proof, &pvs).is_ok(), "counter proof valid (p3)");
    let plain = plain_proof(&proof);
    assert_eq!(verify_proof_with(&build_params(1, 32), &inner.circuit.air, &plain, &vec![42]), Ok(()));
    let cap_distinct = plain.trace_commit.windows(2).any(|w| w[0] != w[1]);
    let (cproof, _) = prove_inner(&config, &column(0, 42, 6));
    let const_distinct = plain_proof(&cproof).trace_commit.windows(2).any(|w| w[0] != w[1]);
    assert!(cap_distinct && !const_distinct, "counter has distinct cap entries; the constant column does not");
}

#[test]
fn arity4_probe() {
    let config = make_config(2, 32);
    let inner = column(0, 42, 6);
    let (proof, pvs) = prove_inner(&config, &inner);
    assert!(verify(&config, &inner.circuit, &proof, &pvs).is_ok(), "arity-4 proof valid (p3)");
    let plain = plain_proof(&proof);
    assert_eq!(plain.opening.commits.len(), 3);
    assert!(plain.opening.queries[0].openings.iter().all(|o| o.log_arity == 2 && o.siblings.len() == 3));
    assert_eq!(verify_proof_with(&build_params(2, 32), &inner.circuit.air, &plain, &vec![42]), Ok(()));
}

#[test]
fn epilogue_probe() {
    let config = make_config(1, 32);
    let inner = column(0, 42, 6);
    let (proof, _) = prove_inner(&config, &inner);
    let plain = plain_proof(&proof);
    let rep = sim_full(&plain, &vec![42]);
    let start = preamble_challenges(&plain, &vec![42]);
    let (db, zeta, alpha) = (plain.degree_bits, start.zeta, start.alpha);
    assert_eq!((db, plain.quotient_chunks.len(), plain.quotient_chunks[0].len()), (6, 1, 2));
    let sel = selectors_at_point(zeta, db);
    let z = wide(zeta);
    let z_h = z.exp_power_of_2(db) - Challenge::ONE;
    assert_eq!(wide(sel.inv_vanishing), z_h.inverse());
    assert_eq!(wide(sel.is_first_row), z_h * (z - Challenge::ONE).inverse());
    assert_eq!(wide(sel.is_transition), z - Challenge::from(Val::two_adic_generator(db).inverse()));
    let chunk = &plain.quotient_chunks[0];
    let weights = quotient_recompose_weights(zeta, db, 0);
    let quotient = recompose_quotient(&weights, &plain.quotient_chunks);
    let x_gen = Challenge::from_basis_coefficients_fn(|i| if i == 1 { Val::ONE } else { Val::ZERO });
    assert_eq!(wide(chunk[0]) + wide(chunk[1]) * x_gen, wide(quotient));
    let (local, next) = (plain.trace_local[0], plain.trace_next.as_ref().unwrap()[0]);
    let c0 = sel.is_first_row.times(local.minus(Ext::from_base(42)));
    let c1 = sel.is_transition.times(next.minus(local));
    assert!(same(c0.times(alpha).plus(c1).times(sel.inv_vanishing), quotient), "identity at zeta");
    let (terms, _, _) = terms_of(&inner.circuit.air, &plain, &rep, 0);
    let g = Challenge::from(Val::two_adic_generator(db));
    assert_eq!(wide(terms[0].z), z, "z(0) == zeta");
    assert_eq!(wide(terms[1].z), z * g, "z(1) == zeta g");
    assert_eq!(wide(terms[2].z), z, "z(2) == zeta");
    assert_eq!(wide(terms[3].z), z, "z(3) == zeta");
    assert!(same(terms[0].pz, local) && same(terms[1].pz, next), "openings of the trace");
    assert!(same(terms[2].pz, chunk[0]) && same(terms[3].pz, chunk[1]), "openings of the quotient");
    assert!(same(next_point_of(zeta, db), terms[1].z));
}

#[test]
fn replayed_transcript_matches_the_challenger() {
    let config = make_config_cap(1, 4, 2);
    let inner = fibonacci(4);
    let (proof, _) = prove_inner(&config, &inner);
    let plain = plain_proof(&proof);
    let rep = sim_full(&plain, &inner.pvs);
    let drawn = full_transcript_challenges(&plain, &inner.pvs).unwrap();
    assert_eq!((rep.challenges[0], rep.challenges[1], rep.challenges[2]), (drawn.alpha, drawn.zeta, drawn.alpha_fri));
    assert_eq!(rep.challenges[3..], drawn.betas[..]);
    assert_eq!(rep.index_felts, drawn.index_felts);
    assert_eq!(rep.block_inputs.len(), rep.counts.len());
    let (blocks, caps) = sim_cap_positions(&plain, &inner.pvs);
    for p in &caps {
        let cap = match p.cap {
            0 => &plain.trace_commit,
            1 => &plain.quotient_commit,
            r => &plain.opening.commits[r - 2],
        };
        assert_eq!(blocks[p.block][p.lane], cap[p.entry][p.felt]);
    }
    let (blocks, openings, values) = sim_opening_positions(&plain, &inner.pvs);
    assert_eq!(openings.len(), values.len());
    for (p, v) in openings.iter().zip(&values) {
        if p.block < blocks.len() {
            assert_eq!(blocks[p.block][p.lane], *v);
        }
    }
}

#[test]
fn fold_chain_reaches_the_final_polynomial() {
    let config = make_config_cap(1, 4, 2);
    for inner in [fibonacci(5), cube(5)] {
        let (proof, _) = prove_inner(&config, &inner);
        let plain = plain_proof(&proof);
        let rep = sim_full(&plain, &inner.pvs);
        for q in 0..4 {
            let (_, _, ro) = terms_of(&inner.circuit.air, &plain, &rep, q);
            let (rounds, last) =
                query_fold_data(&steps(&plain, &rep, q), ro, index_of(&plain, &rep, q), log_global(&plain));
            assert_eq!(rounds.len(), 5);
            assert!(same(last, plain.opening.final_poly[0]), "query {q}");
        }
    }
}

#[test]
fn symbolic_fold_matches_the_quotient() {
    for inner in [fibonacci(4), cube(4), periodic(4)] {
        let config = make_config_cap(1, 2, 2);
        let (proof, _) = prove_inner(&config, &inner);
        let plain = plain_proof(&proof);
        let air = &inner.circuit.air;
        let start = preamble_challenges(&plain, &inner.pvs);
        let at = periodic_at(&air.periodic, 4, start.zeta).unwrap();
        let (o, sel) = epilogue_openings(air, &plain, &inner.pvs, start.zeta, at);
        let folded = fold_constraints(&air.constraints, &o, start.alpha);
        let weights = quotient_recompose_weights(start.zeta, 4, air.log_chunks);
        let quotient = recompose_quotient(&weights, &plain.quotient_chunks);
        assert!(same(folded.times(sel.inv_vanishing), quotient));
    }
}

/// The value of a tree on a window of a trace.
fn value(e: &Expr, c: &[Val], n: &[Val], p: &[Val], pubs: &[Val], sel: (Val, Val, Val)) -> Val {
    match e {
        Expr::Cur(i) => c[*i],
        Expr::Nxt(i) => n[*i],
        Expr::Periodic(i) => p[*i],
        Expr::Public(i) => pubs[*i],
        Expr::IsFirstRow => sel.0,
        Expr::IsLastRow => sel.1,
        Expr::IsTransition => sel.2,
        Expr::Const(x) => Val::new(*x),
        Expr::Sum(x, y) => value(x, c, n, p, pubs, sel) + value(y, c, n, p, pubs, sel),
        Expr::Difference(x, y) => value(x, c, n, p, pubs, sel) - value(y, c, n, p, pubs, sel),
        Expr::Negation(x) => -value(x, c, n, p, pubs, sel),
        Expr::Product(x, y) => {
            let a = value(x, c, n, p, pubs, sel);
            if a == Val::ZERO {
                a
            } else {
                a * value(y, c, n, p, pubs, sel)
            }
        }
    }
}

/// The first row and constraint of a verifier that its trace breaks.
fn broken(air: &MonolithAir, cells: &[u64], pubs: &[u64]) -> Option<(usize, usize)> {
    let w = air.width();
    let h = cells.len() / w;
    assert_eq!(h, air.height());
    assert_eq!(pubs.len(), air.num_public_values());
    let cells: Vec<Val> = cells.iter().map(|x| Val::new(*x)).collect();
    let pubs: Vec<Val> = pubs.iter().map(|x| Val::new(*x)).collect();
    let constraints = air.eval();
    let columns: Vec<Vec<Val>> = air.periodic().iter().map(|c| c.iter().map(|x| Val::new(*x)).collect()).collect();
    for r in 0..h {
        let nr = (r + 1) % h;
        let p: Vec<Val> = columns.iter().map(|c| c[r % c.len()]).collect();
        let flag = |on: bool| if on { Val::ONE } else { Val::ZERO };
        let sel = (flag(r == 0), flag(r == h - 1), flag(r != h - 1));
        for (k, e) in constraints.iter().enumerate() {
            if value(e, &cells[r * w..r * w + w], &cells[nr * w..nr * w + w], &p, &pubs, sel) != Val::ZERO {
                return Some((r, k));
            }
        }
    }
    None
}

fn mode(symbolic: bool, inner_counter: bool, column_window: bool, cap_height: usize) -> WindowMode {
    WindowMode {
        symbolic,
        inner_counter,
        column_window,
        narrow_caps: false,
        narrow_arith: false,
        narrow_openings: false,
        narrow_ov: false,
        cap_height,
        txroot_dom: 0,
    }
}

fn window_of(inner: &Inner, queries: usize, m: &WindowMode) -> InnerWindow {
    let config = make_config_cap(1, queries, m.cap_height);
    let (proof, _) = prove_inner(&config, inner);
    match inner_window(&inner.circuit.air, &plain_proof(&proof), &inner.pvs, m) {
        Ok(w) => w,
        Err(e) => panic!("no instance: {e:?}"),
    }
}

fn holds(w: &InnerWindow) {
    let pubs: Vec<u64> = if w.air.column_window { vec![] } else { w.window.clone() };
    assert_eq!(w.window.len(), w.air.pis_count());
    assert_eq!(broken(&w.air, &w.cells, &pubs), None);
}

#[test]
fn fused_verifier_accepts_a_constant_column() {
    let w = window_of(&column(0, 42, 3), 2, &mode(false, false, false, 1));
    holds(&w);
    let tampered = |i: usize| {
        let mut bad = w.window.clone();
        bad[i] = (Val::new(bad[i]) + Val::ONE).as_canonical_u64();
        broken(&w.air, &w.cells, &bad).is_some()
    };
    assert!(tampered(4), "batching challenge");
    assert!(tampered(2 * w.air.nb()), "index felt");
    assert!(tampered(w.air.cap_base()), "trace cap entry");
    assert!(tampered(w.air.ccap_base() - 1), "inner public value");
    assert!(tampered(w.air.ccap_base()), "commit-phase cap entry");
}

#[test]
fn fused_verifier_accepts_a_window_of_columns() {
    let inner = column(0, 42, 3);
    let config = make_config_cap(1, 2, 1);
    let (proof, _) = prove_inner(&config, &inner);
    let w = build_inner_window(&inner.circuit.air, &plain_proof(&proof), &inner.pvs, 1).ok().unwrap();
    holds(&w);
    let mut cells = w.cells.clone();
    let fw = w.air.fused_w();
    for r in 0..w.air.height() {
        cells[r * fw + w.air.pw(0)] ^= 1;
    }
    assert!(broken(&w.air, &cells, &[]).is_some(), "a tampered window breaks its bind");
}

#[test]
fn fused_verifier_accepts_a_counter() {
    let w = window_of(&column(1, 42, 3), 2, &mode(false, true, false, 2));
    holds(&w);
    let index = (w.queries[0].index) >> w.air.input_depth();
    let mut bad = w.window.clone();
    let at = w.air.cap_base() + 4 * index;
    bad[at] = (Val::new(bad[at]) + Val::ONE).as_canonical_u64();
    assert!(broken(&w.air, &w.cells, &bad).is_some(), "a tampered selected cap entry");
}

#[test]
fn fused_verifier_accepts_constraint_trees() {
    for inner in [fibonacci(3), cube(3), periodic(3)] {
        let w = window_of(&inner, 1, &mode(true, false, false, 1));
        holds(&w);
        let mut bad = w.window.clone();
        let at = w.air.pub_pi();
        bad[at] = (Val::new(bad[at]) + Val::ONE).as_canonical_u64();
        assert!(broken(&w.air, &w.cells, &bad).is_some(), "a tampered inner public value");
    }
}

#[test]
fn fused_verifier_accepts_constraint_trees_in_a_window() {
    for inner in [fibonacci(3), cube(3), periodic(3)] {
        let config = make_config_cap(1, 1, 1);
        let (proof, _) = prove_inner(&config, &inner);
        let plain = plain_proof(&proof);
        let w = build_symbolic_inner_window(&inner.circuit.air, &plain, &inner.pvs, 1, 0, false, false, false, false);
        holds(&w.ok().unwrap());
    }
}

#[test]
fn a_broken_proof_gives_no_instance() {
    let inner = fibonacci(3);
    let config = make_config_cap(1, 1, 1);
    let (proof, _) = prove_inner(&config, &inner);
    let mut plain = plain_proof(&proof);
    plain.quotient_chunks[0][0].c0 ^= 1;
    let r = build_symbolic_inner_window(&inner.circuit.air, &plain, &inner.pvs, 1, 0, false, false, false, false);
    assert!(matches!(r, Err(WindowError::Constraints)));
}

#[test]
fn aggregator_folds_statements_to_the_root() {
    let dom = 77u64;
    let (mut insts, mut statements, mut firsts) = (Vec::new(), Vec::new(), Vec::new());
    let mut shape = None;
    for value in [42u64, 43] {
        let inner = column(0, value, 3);
        let mut m = mode(false, false, true, 1);
        m.txroot_dom = dom;
        let w = window_of(&inner, 1, &m);
        insts.push(w.cells);
        statements.push(inner.pvs.clone());
        firsts.push(value);
        shape = Some(w.air);
    }
    let mut air = shape.unwrap();
    air.k_instances = 2;
    air.fold = true;
    assert!(32 * air.fold_sk_block() >= air.tr() + air.n_queries * air.m_period());
    let (cells, root) = build_aggregator_trace(&air, &insts, &statements);
    assert_eq!(root, agg_root(dom, &firsts));
    assert_eq!(broken(&air, &cells, &root), None);
    let mut bad = root.clone();
    bad[0] ^= 1;
    assert!(broken(&air, &cells, &bad).is_some(), "another root");
    let mut torn = cells.clone();
    let w = air.width();
    for r in air.inst_h()..2 * air.inst_h() {
        torn[r * w + air.pw(0)] ^= 1;
    }
    assert!(broken(&air, &torn, &root).is_some(), "a torn instance");
}

#[test]
fn carried_rows_are_hashed_into_their_leaves() {
    let w = window_of(&fibonacci(3), 2, &mode(true, false, false, 1));
    let (air, width) = (&w.air, w.air.width());
    let cell = |r: usize, c: usize| w.cells[r * width + c];
    for t in 0..2 {
        let tile = air.tr() + t * air.m_period();
        let carried = |c: usize, n: usize| -> Vec<u64> { (c..c + n).map(|c| cell(tile, c)).collect() };
        let digest = |b: usize| -> Vec<u64> { (0..4).map(|k| cell(tile + 32 * b + 31, k)).collect() };
        let trace = carried(air.ov_c(0), 2);
        for c in 0..2 {
            assert_eq!(trace[c], cell(tile, air.px(air.trm_trace(c))));
            assert_eq!(trace[c], cell(tile, air.px(air.trm_next(c))));
        }
        assert_eq!(leaf_hash_blocks(&trace).1, digest(air.m_input_leaf() + air.leaf_blocks() - 1));
        let quotient = carried(air.qc(0), air.quot_leaf_felts());
        assert_eq!(quotient[0], cell(tile, air.px(air.trm_quot(0, 0))));
        assert_eq!(leaf_hash_blocks(&quotient).1, digest(air.m_quot_leaf() + air.quot_leaf_blocks() - 1));
        for r in 0..air.cm_rounds() {
            let (e, s) = (cell(tile + r, 0), cell(tile + r, 2));
            let group = carried(air.cg(r, 0), 4);
            let bit = w.queries[t].rounds[r].bit;
            assert_eq!((group[0], group[2]), if bit { (s, e) } else { (e, s) });
            assert_eq!(leaf_hash_blocks(&group).1, digest(air.cm_leaf(r)));
        }
    }
    let mut torn = w.cells.clone();
    for r in air.tr()..air.tr() + air.m_period() {
        torn[r * width + air.ov_c(0)] ^= 1;
    }
    assert!(broken(air, &torn, &w.window).is_some(), "another row than the one that is hashed");
}

#[test]
fn geometry_of_a_proof_bounds_its_trace() {
    let config = make_config(1, 32);
    let inner = column(0, 42, 6);
    let (proof, _) = prove_inner(&config, &inner);
    let g = introspect_geometry(&plain_proof(&proof), 6);
    assert_eq!((g.degree_bits, g.log_global_max_height, g.num_rounds), (6, 10, 6));
    assert_eq!(g.log_arities, vec![1, 1, 1, 1, 1, 1]);
    assert_eq!((g.num_queries, g.num_quotient_chunks, g.trace_width, g.cap_height), (32, 1, 1, 6));
    assert_eq!(monolith_trace_height(&g), 65536);
}

/// Whether a gadget's trace breaks a constraint.
fn gadget_broken(rows: &[Vec<u64>], constraints: &[Wire], periodic: &[Vec<u64>], pubs: &[u64]) -> bool {
    let h = rows.len();
    let line = |r: usize| -> Vec<Val> { rows[r].iter().map(|x| Val::new(*x)).collect() };
    let pubs: Vec<Val> = pubs.iter().map(|x| Val::new(*x)).collect();
    (0..h).any(|r| {
        let p: Vec<Val> = periodic.iter().map(|c| Val::new(c[r % c.len()])).collect();
        let flag = |on: bool| if on { Val::ONE } else { Val::ZERO };
        let sel = (flag(r == 0), flag(r == h - 1), flag(r != h - 1));
        let (c, n) = (line(r), line((r + 1) % h));
        constraints.iter().any(|e| value(e, &c, &n, &p, &pubs, sel) != Val::ZERO)
    })
}

fn coords(xs: &[Ext]) -> Vec<u64> {
    xs.iter().flat_map(|x| vec![x.c0, x.c1]).collect()
}

/// What an epilogue reads of a proof: the point, the constraint challenge, the selectors and the quotient.
fn epilogue_of(inner: &Inner, plain: &StarkProof) -> (Ext, Ext, Selectors, Ext) {
    let start = preamble_challenges(plain, &inner.pvs);
    let weights = quotient_recompose_weights(start.zeta, plain.degree_bits, inner.circuit.air.log_chunks);
    let quotient = recompose_quotient(&weights, &plain.quotient_chunks);
    (start.zeta, start.alpha, selectors_at_point(start.zeta, plain.degree_bits), quotient)
}

#[test]
fn phase7_general_epilogue_matches_oracle() {
    let inner = fibonacci(6);
    let (proof, _) = prove_inner(&make_config(1, 2), &inner);
    let plain = plain_proof(&proof);
    let (zeta, alpha, _, quotient) = epilogue_of(&inner, &plain);
    let next = plain.trace_next.as_ref().unwrap();
    let (local, next) = ([plain.trace_local[0], plain.trace_local[1]], [next[0], next[1]]);
    let mut pis = coords(&[zeta, alpha]);
    pis.extend_from_slice(&inner.pvs);
    let eval = GeneralEpilogueAir.eval();
    assert!(!gadget_broken(&build_general_epilogue_trace(local, next, quotient), &eval, &[], &pis));
    let bad = build_general_epilogue_trace(local, next, quotient.plus(Ext::one()));
    assert!(gadget_broken(&bad, &eval, &[], &pis), "tampered quotient");
}

#[test]
fn phase7_symbolic_epilogue_matches_oracle() {
    for inner in [fibonacci(6), cube(5)] {
        let (proof, _) = prove_inner(&make_config(1, 2), &inner);
        let plain = plain_proof(&proof);
        let (zeta, alpha, sel, quotient) = epilogue_of(&inner, &plain);
        let next = plain.trace_next.as_ref().unwrap();
        let air = SymbolicEpilogueAir {
            constraints: inner.circuit.air.constraints.clone(),
            w: 2,
            n_pub: inner.pvs.len(),
            n_periodic: 0,
            degree_bits: plain.degree_bits,
        };
        let mut pis = coords(&[zeta, alpha]);
        pis.extend_from_slice(&inner.pvs);
        let build = |q: Ext| {
            build_symbolic_epilogue_trace(&plain.trace_local, next, q, sel.is_first_row, sel.is_last_row, sel.inv_vanishing)
        };
        assert!(!gadget_broken(&build(quotient), &air.eval(), &[], &pis));
        assert!(gadget_broken(&build(quotient.plus(Ext::one())), &air.eval(), &[], &pis), "tampered quotient");
    }
}

#[test]
fn phase7_multicol_reduced_opening_matches_oracle() {
    let inner = fibonacci(6);
    let (proof, _) = prove_inner(&make_config(1, 4), &inner);
    let plain = plain_proof(&proof);
    let rep = sim_full(&plain, &inner.pvs);
    for q in 0..4 {
        let (terms, x, ro) = terms_of(&inner.circuit.air, &plain, &rep, q);
        let air = MultiColReducedOpeningAir { w: 2, n_quot: terms.len() - 4 };
        let mut pis = coords(&[rep.challenges[2], ro]);
        pis.push(x);
        let trace = build_multicol_ro_trace(2, &terms, x);
        assert!(!gadget_broken(&trace, &air.eval(), &[], &pis), "reduced opening (q {q})");
        let mut bad = terms.clone();
        bad[0].px ^= 1;
        let trace = build_multicol_ro_trace(2, &bad, x);
        assert!(gadget_broken(&trace, &air.eval(), &[], &pis), "tampered opened value (q {q})");
    }
}

#[test]
fn phase5_general_fold_matches_p3() {
    let inner = column(0, 42, 6);
    let (proof, _) = prove_inner(&make_config(2, 4), &inner);
    let plain = plain_proof(&proof);
    let rep = sim_full(&plain, &inner.pvs);
    for q in 0..4 {
        let (_, _, ro) = terms_of(&inner.circuit.air, &plain, &rep, q);
        let chain = general_fold_chain(&steps(&plain, &rep, q), ro, index_of(&plain, &rep, q), log_global(&plain));
        assert_eq!(chain.len(), 3);
        for f in &chain {
            let air = GeneralFoldAir { log_arity: 2 };
            let trace = build_general_fold_trace(2, &f.evals, f.beta, &f.xs, f.folded);
            let mut pis = coords(&[f.folded]);
            assert!(!gadget_broken(&trace, &air.eval(), &[], &pis), "fold of four (q {q})");
            pis[0] ^= 1;
            assert!(gadget_broken(&trace, &air.eval(), &[], &pis), "tampered fold (q {q})");
        }
        assert!(same(chain[2].folded, plain.opening.final_poly[0]));
    }
}

#[test]
fn phase5_arity4_fold_chain_reaches_final() {
    let inner = column(1, 42, 6);
    let (proof, _) = prove_inner(&make_config(2, 4), &inner);
    let plain = plain_proof(&proof);
    let rep = sim_full(&plain, &inner.pvs);
    for q in 0..4 {
        let (_, _, ro) = terms_of(&inner.circuit.air, &plain, &rep, q);
        let chain = general_fold_chain(&steps(&plain, &rep, q), ro, index_of(&plain, &rep, q), log_global(&plain));
        let air = Arity4FoldChainAir { n_rounds: 3 };
        let trace = build_arity4_fold_chain_trace(ro, &chain);
        let mut pis = coords(&[ro, plain.opening.final_poly[0]]);
        assert!(!gadget_broken(&trace, &air.eval(), &air.periodic(), &pis), "fold chain (q {q})");
        pis[2] ^= 1;
        assert!(gadget_broken(&trace, &air.eval(), &air.periodic(), &pis), "tampered final value (q {q})");
    }
}
