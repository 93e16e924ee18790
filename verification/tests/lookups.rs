//! Lookup proofs: the rounds, the quotient and the openings are made with `p3`, and verified.

use lattica_prover::expr::{constant, cur, minus, on_first, per, public, times, Expr, Wire};
use lattica_prover::field::Ext;
use lattica_prover::fri::input::BatchOpening;
use lattica_prover::fri::query::Opening;
use lattica_prover::fri::verify::{FriProof, QueryProof};
use lattica_prover::lookup::air::{combined_constraint_layout, Lookup, LookupAir, RangeCheckAir, SystemView};
use lattica_prover::lookup::columns::{aux_columns, try_aux_columns};
use lattica_prover::lookup::exact::domain_roots;
use lattica_prover::lookup::prover::{
    assemble_lookup_proof, commit_aux, commit_quotient, commit_trace, opening_points, prove_lookup_with_quotient,
    quotient_plan, round_aux, LookupQuotientProof, QuotientPlan, QuotientRound,
};
use lattica_prover::lookup::quotient::{batched_constraints_at_point, lookup_quotient_values};
use lattica_prover::lookup::range::{aux_fraction_wellformed, balanced_main};
use lattica_prover::lookup::rounds::{prove_lookup_rounds, verify_lookup_rounds, LookupRoundProof, RoundError};
use lattica_prover::lookup::verify::{
    verify_lookup_inner, verify_lookup_proof_native, LookupOpenedValues, LookupProof, LookupVerifyError, Part,
};
use lattica_prover::stark::replay::sim_full_lookup;
use lattica_prover::symbolic::{NativeLookup, NativeOpenings};
use p3_air::{Air, AirBuilder, BaseAir, RowWindow, WindowAccess};
use p3_challenger::{CanObserve, CanSample, DuplexChallenger, FieldChallenger, GrindingChallenger};
use p3_commit::{ExtensionMmcs, Pcs, PolynomialSpace};
use p3_dft::{Radix2DitParallel, TwoAdicSubgroupDft};
use p3_field::extension::BinomialExtensionField;
use p3_field::{BasedVectorSpace, Field, PrimeCharacteristicRing, PrimeField64, TwoAdicField};
use p3_fri::{FriParameters, TwoAdicFriPcs};
use p3_goldilocks::{default_goldilocks_poseidon2_8, Goldilocks, Poseidon2Goldilocks};
use p3_lookup::folder::VerifierConstraintFolderWithLookups;
use p3_lookup::{InteractionBuilder, LogUpGadget, LookupProtocol, Lookups};
use p3_matrix::dense::{RowMajorMatrix, RowMajorMatrixView};
use p3_matrix::stack::VerticalPair;
use p3_matrix::Matrix;
use p3_merkle_tree::MerkleTreeMmcs;
use p3_symmetric::{MerkleCap, PaddingFreeSponge, TruncatedPermutation};
use p3_uni_stark::{StarkConfig, StarkGenericConfig, VerifierConstraintFolder};

type Val = Goldilocks;
type Challenge = BinomialExtensionField<Val, 2>;
type Perm = Poseidon2Goldilocks<8>;
type MyHash = PaddingFreeSponge<Perm, 8, 4, 4>;
type MyCompress = TruncatedPermutation<Perm, 2, 4, 8>;
type InputMmcs = MerkleTreeMmcs<<Val as Field>::Packing, <Val as Field>::Packing, MyHash, MyCompress, 2, 4>;
type ChallengeMmcs = ExtensionMmcs<Val, Challenge, InputMmcs>;
type Chal = DuplexChallenger<Val, Perm, 8, 4>;
type MyPcs = TwoAdicFriPcs<Val, Radix2DitParallel<Val>, InputMmcs, ChallengeMmcs>;
type MyConfig = StarkConfig<MyPcs, Challenge, Chal>;
type PcsOpeningProof = <MyPcs as Pcs<Challenge, Chal>>::Proof;

fn make_config_cap(max_log_arity: usize, num_queries: usize, cap_height: usize) -> MyConfig {
    let perm = default_goldilocks_poseidon2_8();
    let mmcs = InputMmcs::new(MyHash::new(perm.clone()), MyCompress::new(perm.clone()), cap_height);
    let params = FriParameters {
        log_blowup: 4,
        log_final_poly_len: 0,
        max_log_arity,
        num_queries,
        commit_proof_of_work_bits: 0,
        query_proof_of_work_bits: 16,
        mmcs: ChallengeMmcs::new(mmcs.clone()),
    };
    MyConfig::new(MyPcs::new(Radix2DitParallel::default(), mmcs, params), Chal::new(perm))
}

fn make_config(max_log_arity: usize, num_queries: usize) -> MyConfig {
    make_config_cap(max_log_arity, num_queries, 6)
}

fn felt(x: &Val) -> u64 {
    x.as_canonical_u64()
}

fn felts(xs: &[Val]) -> Vec<u64> {
    xs.iter().map(felt).collect()
}

fn plain_ext(x: &Challenge) -> Ext {
    let c: &[Val] = x.as_basis_coefficients_slice();
    Ext { c0: felt(&c[0]), c1: felt(&c[1]) }
}

fn plain_exts(xs: &[Challenge]) -> Vec<Ext> {
    xs.iter().map(plain_ext).collect()
}

fn wide(x: Ext) -> Challenge {
    Challenge::new([Val::new(x.c0), Val::new(x.c1)])
}

fn plain_cap(c: &MerkleCap<Val, [Val; 4]>) -> Vec<Vec<u64>> {
    c.roots().iter().map(|d| felts(d)).collect()
}

fn plain_path(p: &[[Val; 4]]) -> Vec<Vec<u64>> {
    p.iter().map(|d| felts(d)).collect()
}

fn plain_fri(fri: &PcsOpeningProof) -> FriProof {
    FriProof {
        commits: fri.commit_phase_commits.iter().map(plain_cap).collect(),
        commit_pow: fri.commit_pow_witnesses.iter().map(felt).collect(),
        queries: fri
            .query_proofs
            .iter()
            .map(|qp| QueryProof {
                input: qp
                    .input_proof
                    .iter()
                    .map(|b| BatchOpening {
                        rows: b.opened_values.iter().map(|r| felts(r)).collect(),
                        path: plain_path(&b.opening_proof),
                    })
                    .collect(),
                openings: qp
                    .commit_phase_openings
                    .iter()
                    .map(|o| Opening {
                        log_arity: o.log_arity,
                        siblings: plain_exts(&o.sibling_values),
                        path: plain_path(&o.opening_proof),
                    })
                    .collect(),
            })
            .collect(),
        final_poly: plain_exts(&fri.final_poly),
        query_pow: felt(&fri.query_pow_witness),
    }
}

type Com = MerkleCap<Val, [Val; 4]>;

/// A constraint system with lookups: each lookup is a run of values with their multiplicities.
struct Table {
    width: usize,
    pubs: usize,
    constraints: Vec<Wire>,
    lookups: Vec<Vec<(Wire, Wire)>>,
    periodic: Vec<Vec<u64>>,
}

fn neg(e: Wire) -> Wire {
    Wire::new(Expr::Negation(e))
}

impl Table {
    /// One lookup of column `q` in column `t` with multiplicities in column `m`.
    fn side(q: usize, t: usize, m: usize) -> Vec<(Wire, Wire)> {
        vec![(cur(q), constant(1)), (cur(t), neg(cur(m)))]
    }

    fn range() -> Table {
        Table { width: 3, pubs: 0, constraints: vec![], lookups: vec![Table::side(0, 1, 2)], periodic: vec![] }
    }

    fn boolean() -> Table {
        let b = cur(0);
        let mut t = Table::range();
        t.constraints = vec![times(&b, &minus(&b, &constant(1)))];
        t
    }

    fn pinned() -> Table {
        let mut t = Table::range();
        t.pubs = 1;
        t.constraints = vec![on_first(&minus(&cur(0), &public(0)))];
        t
    }

    fn two() -> Table {
        Table {
            width: 4,
            pubs: 0,
            constraints: vec![],
            lookups: vec![Table::side(0, 2, 3), Table::side(1, 2, 3)],
            periodic: vec![],
        }
    }

    fn periodic() -> Table {
        let mut t = Table::range();
        t.constraints = vec![times(&per(0), &cur(0))];
        t.periodic = vec![vec![1, 0]];
        t
    }
}

impl LookupAir for Table {
    fn system(&self) -> SystemView {
        unreachable!()
    }
    fn width(&self) -> usize {
        self.width
    }
    fn num_public_values(&self) -> usize {
        self.pubs
    }
    fn constraints(&self) -> Vec<Wire> {
        self.constraints.clone()
    }
    fn lookups(&self) -> Vec<Lookup> {
        self.lookups
            .iter()
            .map(|l| Lookup {
                elements: l.iter().map(|(e, _)| vec![e.clone()]).collect(),
                multiplicities: l.iter().map(|(_, m)| m.clone()).collect(),
            })
            .collect()
    }
    fn periodic_columns(&self) -> Vec<Vec<u64>> {
        self.periodic.clone()
    }
}

/// The same system as `p3` takes it.
struct Circuit<'a>(&'a Table);

fn render<AB: AirBuilder<F = Val>>(e: &Expr, b: &AB) -> AB::Expr {
    match e {
        Expr::Cur(i) => b.main().current_slice()[*i].into(),
        Expr::Nxt(i) => b.main().next_slice()[*i].into(),
        Expr::Periodic(i) => b.periodic_values()[*i].into(),
        Expr::Public(i) => b.public_values()[*i].into(),
        Expr::IsFirstRow => b.is_first_row(),
        Expr::IsLastRow => b.is_last_row(),
        Expr::IsTransition => b.is_transition(),
        Expr::Const(c) => AB::Expr::from(Val::from_u64(*c)),
        Expr::Sum(x, y) => render(x, b) + render(y, b),
        Expr::Difference(x, y) => render(x, b) - render(y, b),
        Expr::Negation(x) => -render(x, b),
        Expr::Product(x, y) => render(x, b) * render(y, b),
    }
}

impl BaseAir<Val> for Circuit<'_> {
    fn width(&self) -> usize {
        self.0.width
    }
    fn num_public_values(&self) -> usize {
        self.0.pubs
    }
    fn num_periodic_columns(&self) -> usize {
        self.0.periodic.len()
    }
    fn periodic_columns(&self) -> Vec<Vec<Val>> {
        self.0.periodic.iter().map(|c| c.iter().map(|x| Val::new(*x)).collect()).collect()
    }
}

impl<AB: AirBuilder<F = Val> + InteractionBuilder> Air<AB> for Circuit<'_> {
    fn eval(&self, b: &mut AB) {
        for c in &self.0.constraints {
            let e = render(c, b);
            b.assert_zero(e);
        }
        for l in &self.0.lookups {
            let tuples: Vec<(Vec<AB::Expr>, AB::Expr)> =
                l.iter().map(|(e, m)| (vec![render(e, b)], render(m, b))).collect();
            b.push_local_interaction(tuples);
        }
    }
}

fn matrix(rows: &[Vec<u64>]) -> RowMajorMatrix<Val> {
    let width = rows[0].len();
    RowMajorMatrix::new(rows.iter().flatten().map(|x| Val::new(*x)).collect(), width)
}

fn rows_of(m: &RowMajorMatrix<Val>) -> Vec<Vec<u64>> {
    m.values.chunks(m.width).map(|r| felts(r)).collect()
}

/// The aux columns of a system and its terminal.
fn aux_of(table: &Table, main: &[Vec<u64>], pis: &[u64], challenges: &[Ext]) -> (RowMajorMatrix<Challenge>, Challenge) {
    let lookups: Lookups<Val> = Lookups::from_air::<Challenge, _>(&Circuit(table));
    let ch: Vec<Challenge> = challenges.iter().map(|c| wide(*c)).collect();
    let pis: Vec<Val> = pis.iter().map(|x| Val::new(*x)).collect();
    let (aux, terminal) =
        LogUpGadget::new().generate_permutation::<MyConfig>(&matrix(main), &None, &pis, &lookups, &ch);
    (aux, terminal.unwrap().0)
}

/// A proof of a system, with its last round and the values of its quotient.
struct Made {
    proof: LookupProof,
    three: LookupQuotientProof,
}

fn make<A: LookupAir>(table: &Table, air: &A, main: &[Vec<u64>], pis: &[u64], forge: bool) -> Made {
    make_over(table, air, main, pis, forge, 0)
}

/// With `spare`, the quotient is evaluated on the larger domain that hiding asks for.
fn make_over<A: LookupAir>(table: &Table, air: &A, main: &[Vec<u64>], pis: &[u64], forge: bool, spare: usize) -> Made {
    let config = make_config(1, 4);
    let pcs = config.pcs();
    let mut ch = config.initialise_challenger();
    let degree = main.len();
    let log_degree = degree.trailing_zeros() as usize;
    let plan: QuotientPlan = quotient_plan(air, log_degree, spare);
    let domain = <MyPcs as Pcs<Challenge, Chal>>::natural_domain_for_degree(pcs, degree);
    let (trace_commit, trace_data) = <MyPcs as Pcs<Challenge, Chal>>::commit(pcs, [(domain, matrix(main))]);
    let trace_commit: Com = trace_commit;
    ch.observe(trace_commit.clone());
    for p in pis {
        ch.observe(Val::new(*p));
    }
    let first = commit_trace(plain_cap(&trace_commit), pis.to_vec(), table.lookups.len());
    for c in &first.lookup_challenges {
        let drawn: Challenge = ch.sample_algebra_element();
        assert_eq!(plain_ext(&drawn), *c);
    }
    let challenges = first.lookup_challenges.clone();
    let (cells, terminal) = round_aux(table, &first, &main.to_vec()).unwrap();
    let aux_width = cells[0].len();
    let mut aux = RowMajorMatrix::new(cells.iter().flatten().map(|x| wide(*x)).collect::<Vec<Challenge>>(), aux_width);
    let terminal = wide(terminal);
    if forge {
        aux.values[1] += Challenge::ONE;
    }
    let (aux_commit, aux_data) =
        <MyPcs as Pcs<Challenge, Chal>>::commit(pcs, [(domain, aux.flatten_to_base())]);
    let aux_commit: Com = aux_commit;
    ch.observe(aux_commit.clone());
    let second = commit_aux(first, plain_cap(&aux_commit), plain_ext(&terminal));
    let alpha: Challenge = ch.sample_algebra_element();
    assert_eq!(plain_ext(&alpha), second.alpha);
    let quotient_domain = domain.create_disjoint_domain(1 << plan.log_quotient_size);
    let on = |data| {
        let m = <MyPcs as Pcs<Challenge, Chal>>::get_evaluations_on_domain(pcs, data, 0, quotient_domain);
        rows_of(&m.to_row_major_matrix())
    };
    let values = lookup_quotient_values(
        air,
        log_degree,
        plan.log_quotient_size,
        &on(&trace_data),
        &on(&aux_data),
        second.alpha,
        &challenges,
        plain_ext(&terminal),
        &pis.to_vec(),
    );
    let flat = RowMajorMatrix::new_col(values.iter().map(|v| wide(*v)).collect::<Vec<Challenge>>()).flatten_to_base();
    let (quotient_commit, quotient_data) = <MyPcs as Pcs<Challenge, Chal>>::commit_quotient(
        pcs,
        quotient_domain,
        flat,
        plan.num_quotient_chunks,
    );
    let quotient_commit: Com = quotient_commit;
    ch.observe(quotient_commit.clone());
    let third: QuotientRound = commit_quotient(second, plain_cap(&quotient_commit));
    let zeta: Challenge = ch.sample_algebra_element();
    assert_eq!(plain_ext(&zeta), third.zeta);
    let (z, zn) = opening_points(&third, log_degree);
    let (z, zn) = (wide(z), wide(zn));
    assert_eq!(domain.next_point(z), Some(zn));
    let rounds = vec![
        (&trace_data, vec![vec![z, zn]]),
        (&aux_data, vec![vec![z, zn]]),
        (&quotient_data, vec![vec![z]; plan.num_quotient_chunks]),
    ];
    let (opened, opening) = <MyPcs as Pcs<Challenge, Chal>>::open(pcs, rounds, &mut ch);
    let values_at = LookupOpenedValues {
        trace_local: plain_exts(&opened[0][0][0]),
        trace_next: plain_exts(&opened[0][0][1]),
        aux_local: plain_exts(&opened[1][0][0]),
        aux_next: plain_exts(&opened[1][0][1]),
        quotient_chunks: opened[2].iter().map(|v| plain_exts(&v[0])).collect(),
    };
    let again = commit_quotient(
        commit_aux(
            commit_trace(plain_cap(&trace_commit), pis.to_vec(), table.lookups.len()),
            plain_cap(&aux_commit),
            plain_ext(&terminal),
        ),
        plain_cap(&quotient_commit),
    );
    let three = prove_lookup_with_quotient(air, log_degree, again, &plan, &on(&trace_data), &on(&aux_data));
    assert_eq!(three.quotient_values, values);
    let proof = assemble_lookup_proof(third, values_at, plain_fri(&opening), log_degree, 0, aux_width);
    Made { proof, three }
}

fn range_proof(main: &[Vec<u64>]) -> LookupProof {
    make(&Table::range(), &RangeCheckAir, main, &[], false).proof
}

fn check_range(p: &LookupProof) -> Result<(), LookupVerifyError> {
    verify_lookup_proof_native(&RangeCheckAir, p, &vec![])
}

fn main_of(height: usize, width: usize, value: impl Fn(usize) -> u64) -> Vec<Vec<u64>> {
    (0..height)
        .map(|i| {
            let mut row = vec![value(i); width - 1];
            row.push(1);
            row
        })
        .collect()
}

fn spread(i: usize) -> u64 {
    (i as u64 * 2654435761) & 0xffff
}

/// The batched constraints on a row of a range check, by the library and by the lookup folder of `p3`.
fn batched_at(table: &Table, main: &[Vec<u64>], aux: &RowMajorMatrix<Challenge>, r: usize, alpha: u64, terminal: Challenge) -> Challenge {
    let n = main.len();
    let nr = (r + 1) % n;
    let lift = |row: &[u64]| -> Vec<Challenge> { row.iter().map(|x| Challenge::from(Val::new(*x))).collect() };
    let (tl, tn) = (lift(&main[r]), lift(&main[nr]));
    let al: Vec<Challenge> = aux.values[r * aux.width..(r + 1) * aux.width].to_vec();
    let an: Vec<Challenge> = aux.values[nr * aux.width..(nr + 1) * aux.width].to_vec();
    let flag = |on: bool| if on { Challenge::ONE } else { Challenge::ZERO };
    let (first, last, trans) = (flag(r == 0), flag(r == n - 1), flag(r != n - 1));
    let fold = Challenge::from(Val::new(alpha));
    let lc = [Challenge::from(Val::new(7)), Challenge::from(Val::new(11))];
    let empty: &[Challenge] = &[];
    let inner = VerifierConstraintFolder::<MyConfig> {
        main: VerticalPair::new(RowMajorMatrixView::new_row(&tl), RowMajorMatrixView::new_row(&tn)),
        preprocessed: VerticalPair::new(RowMajorMatrixView::new(empty, 0), RowMajorMatrixView::new(empty, 0)),
        preprocessed_window: RowWindow::from_two_rows(empty, empty),
        periodic_values: empty,
        public_values: &[],
        is_first_row: first,
        is_last_row: last,
        is_transition: trans,
        alpha: fold,
        accumulator: Challenge::ZERO,
    };
    let mut folder = VerifierConstraintFolderWithLookups {
        inner,
        permutation: VerticalPair::new(RowMajorMatrixView::new_row(&al), RowMajorMatrixView::new_row(&an)),
        permutation_challenges: &lc,
        permutation_values: &[terminal],
    };
    let circuit = Circuit(table);
    circuit.eval(&mut folder);
    let lookups: Lookups<Val> = Lookups::from_air::<Challenge, _>(&circuit);
    LogUpGadget::new().eval_all(&mut folder, &lookups);
    let expected = folder.inner.accumulator;
    let o = NativeOpenings {
        local: plain_exts(&tl),
        next: plain_exts(&tn),
        pubs: vec![],
        periodic: vec![],
        is_first: plain_ext(&first),
        is_last: plain_ext(&last),
        is_trans: plain_ext(&trans),
    };
    let l = NativeLookup {
        perm_local: plain_exts(&al),
        perm_next: plain_exts(&an),
        challenges: plain_exts(&lc),
        perm_values: vec![plain_ext(&terminal)],
    };
    let got = wide(batched_constraints_at_point(&RangeCheckAir, &o, &l, plain_ext(&fold)));
    assert_eq!(got, expected, "row {r}");
    got
}

const ALPHA_L: Ext = Ext { c0: 7, c1: 0 };
const BETA: Ext = Ext { c0: 11, c1: 0 };

#[test]
fn batched_constraints_vanish_on_trace_domain() {
    let table = Table::range();
    let main = balanced_main(1 << 4);
    let (aux, terminal) = aux_of(&table, &main, &[], &[ALPHA_L, BETA]);
    for r in 0..16 {
        let acc = batched_at(&table, &main, &aux, r, 13, terminal);
        assert_eq!(acc, Challenge::ZERO, "constraints must vanish at row {r} for a valid trace");
    }
    let mut bad = aux.clone();
    bad.values[1] += Challenge::ONE;
    let any_nonzero = (0..16).any(|r| batched_at(&table, &main, &bad, r, 13, terminal) != Challenge::ZERO);
    assert!(any_nonzero, "a forged aux must violate the batched constraints");
}

#[test]
fn combined_layout_counts_base_plus_lookup_constraints() {
    let layout = combined_constraint_layout(&RangeCheckAir, 1);
    assert!(layout.base + layout.lookup >= 1, "the lookup fraction/accumulator constraints must be counted");
    assert!(layout.log_chunks <= 2, "a degree-3 lookup has log_nqc <= 2");
    assert_eq!((layout.base, layout.lookup), (0, 4));
    let two = combined_constraint_layout(&Table::two(), 0);
    assert_eq!((two.base, two.lookup), (0, 5));
    let boolean = combined_constraint_layout(&Table::boolean(), 0);
    assert_eq!((boolean.base, boolean.lookup, boolean.log_chunks), (1, 4, 1));
}

/// The two committed rounds of a range check.
fn two_rounds(main: &[Vec<u64>]) -> LookupRoundProof {
    let p = range_proof(main);
    prove_lookup_rounds(p.trace_commit, p.aux_commit, p.terminal, &vec![])
}

#[test]
fn two_round_lookup_prover_round_trips() {
    let proof = two_rounds(&balanced_main(1 << 5));
    assert!(verify_lookup_rounds(&vec![], &proof).is_ok(), "balanced lookup must verify");
}

#[test]
fn two_round_lookup_prover_rejects_imbalance() {
    let mut main = balanced_main(1 << 5);
    main[4][1] = 0xBADD;
    let proof = two_rounds(&main);
    assert!(verify_lookup_rounds(&vec![], &proof).is_err(), "imbalanced lookup must be rejected");
    assert_eq!(verify_lookup_rounds(&vec![], &proof), Err(RoundError::Terminal));
}

#[test]
fn aux_trace_wellformedness_is_enforceable() {
    let main = balanced_main(1 << 4);
    let (aux, terminal) = aux_of(&Table::range(), &main, &[], &[ALPHA_L, BETA]);
    let rows = |m: &RowMajorMatrix<Challenge>| -> Vec<Vec<Ext>> { m.values.chunks(2).map(|r| plain_exts(r)).collect() };
    let terminal = plain_ext(&terminal);
    assert!(aux_fraction_wellformed(&main, &rows(&aux), ALPHA_L, terminal), "honest aux must be well-formed");
    let mut bad = aux.clone();
    bad.values[1] += Challenge::ONE;
    assert!(!aux_fraction_wellformed(&main, &rows(&bad), ALPHA_L, terminal), "a forged aux must be caught");
}

#[test]
fn fiat_shamir_binds_the_aux_commitment() {
    let mut proof = two_rounds(&balanced_main(1 << 5));
    proof.aux_commit = proof.trace_commit.clone();
    assert!(verify_lookup_rounds(&vec![], &proof).is_err(), "a tampered aux commitment must be caught");
    assert_eq!(verify_lookup_rounds(&vec![], &proof), Err(RoundError::Point));
    let mut proof = two_rounds(&balanced_main(1 << 5));
    proof.beta.c0 ^= 1;
    assert_eq!(verify_lookup_rounds(&vec![], &proof), Err(RoundError::Challenges));
}

/// Whether the top `n` coefficients of a quotient vanish.
fn top_coeffs_all_zero(values: &[Ext], n: usize) -> bool {
    let flat = RowMajorMatrix::new_col(values.iter().map(|v| wide(*v)).collect::<Vec<Challenge>>()).flatten_to_base();
    let coeffs: RowMajorMatrix<Val> = Radix2DitParallel::default().coset_idft_batch(flat, Val::GENERATOR);
    let h = values.len();
    let coeffs = rows_of(&coeffs);
    (h - n..h).all(|r| coeffs[r].iter().all(|v| *v == 0))
}

#[test]
fn lookup_quotient_is_low_degree_and_commits() {
    let degree = 1 << 5;
    let three = make_over(&Table::range(), &RangeCheckAir, &balanced_main(degree), &[], false, 1).three;
    assert_eq!(three.quotient_values.len(), degree << (1 + three.log_num_quotient_chunks));
    assert!(top_coeffs_all_zero(&three.quotient_values, degree), "an honest quotient has low degree");
    let mut tampered = three.quotient_values.clone();
    tampered[3].c0 ^= 1;
    assert!(!top_coeffs_all_zero(&tampered, degree), "a tampered quotient value must break the low degree");
}

#[test]
fn quotient_wellformed_while_terminal_catches_imbalance() {
    let degree = 1 << 5;
    let bal = make_over(&Table::range(), &RangeCheckAir, &balanced_main(degree), &[], false, 1).three;
    assert!(bal.terminal.same(Ext::zero()), "balanced has a zero terminal");
    assert!(top_coeffs_all_zero(&bal.quotient_values, degree));
    let mut m = balanced_main(degree);
    m[4][1] = 0xBADD;
    let imb = make_over(&Table::range(), &RangeCheckAir, &m, &[], false, 1).three;
    assert!(!imb.terminal.same(Ext::zero()), "imbalanced has a non-zero terminal");
    assert!(top_coeffs_all_zero(&imb.quotient_values, degree), "the quotient remains a valid polynomial");
}

#[test]
fn lookup_prove_verify_round_trips() {
    let proof = range_proof(&balanced_main(1 << 5));
    assert!(check_range(&proof).is_ok(), "a balanced lookup must verify end to end");
    assert_eq!(verify_lookup_inner(&RangeCheckAir, &proof, &vec![], 0, true), Ok(()));
    assert_eq!(
        verify_lookup_inner(&RangeCheckAir, &proof, &vec![], 0, false),
        Err(LookupVerifyError::Pcs(None)),
        "openings that do not hold"
    );
}

#[test]
fn lookup_verify_rejects_imbalance() {
    let mut main = balanced_main(1 << 5);
    main[4][1] = 0xBADD;
    let proof = range_proof(&main);
    assert!(
        matches!(check_range(&proof), Err(LookupVerifyError::NonZeroTerminal)),
        "an imbalanced multiset must be rejected at the terminal check"
    );
}

#[test]
fn lookup_verify_rejects_tampered_opening() {
    let mut proof = range_proof(&balanced_main(1 << 5));
    proof.opened.trace_local[0].c0 ^= 1;
    assert!(
        matches!(check_range(&proof), Err(LookupVerifyError::Pcs(_))),
        "a tampered opening must be caught by the opening argument"
    );
}

#[test]
fn lookup_verify_rejects_forged_aux() {
    let made = make(&Table::range(), &RangeCheckAir, &balanced_main(1 << 5), &[], true);
    assert!(
        matches!(check_range(&made.proof), Err(LookupVerifyError::OodMismatch)),
        "a forged aux must fail the constraint identity"
    );
}

#[test]
fn lookup_verify_tells_which_part_is_misshapen() {
    let main = balanced_main(1 << 4);
    let mut p = range_proof(&main);
    p.opened.trace_next.pop();
    assert_eq!(check_range(&p), Err(LookupVerifyError::Shape(Part::Trace)));
    let mut p = range_proof(&main);
    p.opened.aux_local.pop();
    assert_eq!(check_range(&p), Err(LookupVerifyError::Shape(Part::Aux)));
    let mut p = range_proof(&main);
    p.opened.quotient_chunks.pop();
    assert_eq!(check_range(&p), Err(LookupVerifyError::Shape(Part::Quotient)));
}

fn check(table: &Table, main: &[Vec<u64>], pis: &[u64]) -> Result<(), LookupVerifyError> {
    let p = make(table, table, main, pis, false).proof;
    verify_lookup_proof_native(table, &p, &pis.to_vec())
}

#[test]
fn boolean_air_prove_verify_round_trips() {
    let main = main_of(1 << 5, 3, |i| (i & 1) as u64);
    assert!(check(&Table::boolean(), &main, &[]).is_ok(), "the boolean+lookup AIR must verify end to end");
}

#[test]
fn boolean_air_verify_rejects_broken_base_constraint() {
    let mut main = main_of(1 << 5, 3, |i| (i & 1) as u64);
    main[4][0] = 2;
    main[4][1] = 2;
    assert!(
        matches!(check(&Table::boolean(), &main, &[]), Err(LookupVerifyError::OodMismatch)),
        "a non-boolean b must fail the constraint identity"
    );
}

fn pinned_main(pin: u64) -> Vec<Vec<u64>> {
    main_of(1 << 5, 3, |i| if i == 0 { pin } else { spread(i) })
}

#[test]
fn pinned_air_round_trips_with_public_values() {
    assert!(check(&Table::pinned(), &pinned_main(0x1234), &[0x1234]).is_ok(), "the pinned public value must verify");
}

#[test]
fn further_public_values_are_observed_and_not_read() {
    let (table, main) = (Table::pinned(), pinned_main(0x1234));
    assert!(check(&table, &main, &[0x1234, 7]).is_ok(), "a value behind the declared ones");
    let proof = make(&table, &table, &main, &[0x1234, 7], false).proof;
    assert!(verify_lookup_proof_native(&table, &proof, &vec![0x1234, 7]).is_ok());
    assert!(verify_lookup_proof_native(&table, &proof, &vec![0x1234, 8]).is_err(), "another value behind them");
}

#[test]
fn domain_generators_nest() {
    for (n, q) in [(0, 0), (0, 3), (3, 5), (5, 5), (10, 32)] {
        let (g, w) = domain_roots(n, q);
        assert_eq!(g, Val::two_adic_generator(n).as_canonical_u64());
        assert_eq!(w, Val::two_adic_generator(q).as_canonical_u64());
        assert_eq!(Val::new(w).exp_power_of_2(q - n), Val::new(g));
    }
}

#[test]
fn balanced_traces_end_in_zero_under_any_challenges() {
    let balanced = balanced_main(1 << 4);
    let mut moved = balanced.clone();
    moved[2][1] = balanced[5][0];
    moved[5][1] = balanced[2][0];
    let twice: Vec<Vec<u64>> = vec![vec![7, 7, 2], vec![7, 9, 0], vec![9, 9, 1], vec![4, 4, 1]];
    let mut torn = twice.clone();
    torn[0][2] = 1;
    for (alpha, beta) in [(Ext { c0: 123, c1: 1 }, BETA), (Ext { c0: 99, c1: 5 }, Ext { c0: 7, c1: 8 })] {
        let end = |rows: &Vec<Vec<u64>>| aux_columns(&RangeCheckAir, rows, &vec![], &vec![alpha, beta]).1;
        assert_eq!(end(&balanced), Ext::zero());
        assert_eq!(end(&moved), Ext::zero());
        assert_eq!(end(&twice), Ext::zero());
        assert_ne!(end(&torn), Ext::zero());
    }
}

#[test]
fn pinned_air_rejects_unpinned_trace() {
    assert!(
        matches!(check(&Table::pinned(), &pinned_main(0x9999), &[0x1234]), Err(LookupVerifyError::OodMismatch)),
        "a trace whose first row is not the public value must fail the identity"
    );
}

#[test]
fn aux_columns_are_those_of_the_gadget() {
    let drawn = vec![ALPHA_L, BETA, Ext { c0: 99, c1: 5 }, Ext { c0: 7, c1: 8 }];
    let main = main_of(1 << 4, 4, spread);
    for (table, n) in [(Table::two(), 2), (Table::range(), 1)] {
        let rows: Vec<Vec<u64>> = main.iter().map(|r| r[..table.width].to_vec()).collect();
        let challenges = drawn[..2 * n].to_vec();
        let (aux, terminal) = aux_columns(&table, &rows, &vec![], &challenges);
        let (want, end) = aux_of(&table, &rows, &[], &challenges);
        let cells: Vec<Ext> = aux.iter().flatten().copied().collect();
        assert_eq!(cells, plain_exts(&want.values));
        assert_eq!(terminal, plain_ext(&end));
    }
    let row = vec![5u64, 6, 2];
    let inverse = |x: u64| ALPHA_L.minus(Ext::from_base(x)).inverse().unwrap();
    let (aux, terminal) = aux_columns(&RangeCheckAir, &vec![row], &vec![], &vec![ALPHA_L, BETA]);
    let fraction = inverse(5).minus(inverse(6).times(Ext::from_base(2)));
    assert_eq!(aux, vec![vec![Ext::zero(), fraction]]);
    assert_eq!(terminal, fraction);
    let hit = vec![vec![9u64, 1, 0]];
    assert!(try_aux_columns(&RangeCheckAir, &hit, &vec![], &vec![Ext::from_base(9), BETA]).is_none());
    assert!(try_aux_columns(&RangeCheckAir, &hit, &vec![], &vec![Ext::from_base(1), BETA]).is_some());
}

#[test]
fn two_lookup_air_round_trips() {
    let table = Table::two();
    let main = main_of(1 << 5, 4, spread);
    let proof = make(&table, &table, &main, &[], false).proof;
    assert_eq!(proof.aux_width, 3, "two lookups have one accumulator and two fractions");
    assert!(verify_lookup_proof_native(&table, &proof, &vec![]).is_ok(), "the two-lookup AIR must verify end to end");
}

#[test]
fn periodic_air_round_trips() {
    let main = main_of(1 << 5, 3, |_| 0);
    assert!(check(&Table::periodic(), &main, &[]).is_ok(), "the periodic-selector AIR must verify end to end");
}

#[test]
fn periodic_air_rejects_violated_even_row() {
    let mut main = main_of(1 << 5, 3, |_| 0);
    main[2][0] = 5;
    main[2][1] = 5;
    assert!(
        matches!(check(&Table::periodic(), &main, &[]), Err(LookupVerifyError::OodMismatch)),
        "a violated even-row periodic constraint must fail the identity"
    );
}

#[test]
fn native_lookup_proof_verify_agrees_and_rejects_tampers() {
    let main = balanced_main(1 << 6);
    assert_eq!(check_range(&range_proof(&main)), Ok(()));
    let forged = make(&Table::range(), &RangeCheckAir, &main, &[], true).proof;
    assert!(check_range(&forged).is_err(), "a forged aux must be rejected");
    let mut bad_open = range_proof(&main);
    bad_open.opened.trace_local[0].c0 ^= 1;
    assert!(check_range(&bad_open).is_err(), "a tampered trace opening must be rejected");
    let mut bad_aux = range_proof(&main);
    bad_aux.aux_commit = bad_aux.trace_commit.clone();
    assert!(check_range(&bad_aux).is_err(), "a swapped aux commit must be rejected");
}

#[test]
fn lookup_transcript_sim_matches_challenger() {
    let proof = range_proof(&balanced_main(1 << 6));
    let (rep, lc) = sim_full_lookup(&proof, &vec![], 1);
    let mut ch = make_config(1, 4).initialise_challenger();
    let observe = |ch: &mut Chal, cap: &Vec<Vec<u64>>| {
        for x in cap.iter().flatten() {
            ch.observe(Val::new(*x));
        }
    };
    let pair = |ch: &mut Chal| -> Ext {
        let x: Challenge = ch.sample_algebra_element();
        plain_ext(&x)
    };
    observe(&mut ch, &proof.trace_commit);
    let lc_gt: Vec<Ext> = (0..2).map(|_| pair(&mut ch)).collect();
    observe(&mut ch, &proof.aux_commit);
    let a_stark_gt = pair(&mut ch);
    observe(&mut ch, &proof.quotient_commit);
    let zeta_gt = pair(&mut ch);
    let o = &proof.opened;
    for x in [&o.trace_local, &o.trace_next, &o.aux_local, &o.aux_next].into_iter().chain(&o.quotient_chunks).flatten() {
        ch.observe(Val::new(x.c0));
        ch.observe(Val::new(x.c1));
    }
    let a_fri_gt = pair(&mut ch);
    let fri = &proof.opening_proof;
    let mut betas_gt = Vec::new();
    for (comm, w) in fri.commits.iter().zip(&fri.commit_pow) {
        observe(&mut ch, comm);
        assert!(ch.check_witness(0, Val::new(*w)), "commit pow (0 bits)");
        betas_gt.push(pair(&mut ch));
    }
    for x in &fri.final_poly {
        ch.observe(Val::new(x.c0));
        ch.observe(Val::new(x.c1));
    }
    for op in &fri.queries[0].openings {
        ch.observe(Val::from_u64(op.log_arity as u64));
    }
    assert!(ch.check_witness(16, Val::new(fri.query_pow)), "query pow (16 bits)");
    let idx_gt: Vec<u64> = (0..fri.queries.len())
        .map(|_| {
            let x: Val = ch.sample();
            felt(&x)
        })
        .collect();
    assert_eq!(lc, lc_gt, "the lookup challenges must match the challenger");
    assert_eq!(rep.challenges[0], a_stark_gt, "alpha must match");
    assert_eq!(rep.challenges[1], zeta_gt, "zeta must match");
    assert_eq!(rep.challenges[2], a_fri_gt, "the batching challenge must match");
    assert_eq!(&rep.challenges[3..], &betas_gt[..], "the per-round challenges must match");
    assert_eq!(rep.index_felts, idx_gt, "the query index felts must match");
    assert_eq!(rep.counts.len(), rep.block_inputs.len());
}
