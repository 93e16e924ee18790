//! The gadgets on their own: their traces satisfy their constraints, and tampered values do not.

use lattica_prover::bits::{
    div_ceil, log2_strict, next_power_of_two, reverse_bits_len, reverse_slice_index_bits, shifted_one,
};
use lattica_prover::expr::{constant, cur, evaluate, minus, nxt, per, plus, public, times, Wire, WindowRef};
use lattica_prover::field::{canonical, exp_power_of_2, exp_u64, Ext, GENERATOR, HALF, MODULUS};
use lattica_prover::fingerprint::fingerprint;
use lattica_prover::fri::fold::points_of_fold;
use lattica_prover::fri::merkle::verify_batch;
use lattica_prover::fri::query::{eval_final_poly, final_query_point};
use lattica_prover::gadgets::agg::{agg_root, agg_statement_digest, build_agg_fold_trace, AggFoldAir};
use lattica_prover::gadgets::leaf::{build_general_leaf_trace, GeneralLeafHashAir};
use lattica_prover::gadgets::ood::LogupFoldCheckAir;
use lattica_prover::lookup::air::{lookup_trees, LookupAir, RangeCheckAir};
use lattica_prover::monolith::trace::ft_build_trace;
use lattica_prover::poseidon::{leaf_hash_blocks, merge, native_steps, periodic_table, round_constant};
use lattica_prover::schedule::{replay, replay_challenger, Op};
use lattica_prover::stark::domain::vanishing_at;
use lattica_prover::stark::verify::periodic_at;
use lattica_prover::symbolic::{eval_symbolic_ext_native, NativeLookup, NativeOpenings};
use lattica_prover::transcript::{Challenger, Sim};
use p3_challenger::{CanObserve, CanSample, CanSampleBits, DuplexChallenger, FieldChallenger, GrindingChallenger};
use p3_commit::{Mmcs, PolynomialSpace};
use p3_field::coset::TwoAdicMultiplicativeCoset;
use p3_field::extension::BinomialExtensionField;
use p3_field::{BasedVectorSpace, Field, PrimeCharacteristicRing, PrimeField64, TwoAdicField};
use p3_goldilocks::{default_goldilocks_poseidon2_8, Goldilocks, Poseidon2Goldilocks};
use p3_matrix::dense::RowMajorMatrix;
use p3_merkle_tree::MerkleTreeMmcs;
use p3_symmetric::{
    CryptographicHasher, PaddingFreeSponge, Permutation, PseudoCompressionFunction, TruncatedPermutation,
};

type Val = Goldilocks;
type Challenge = BinomialExtensionField<Val, 2>;
type Perm = Poseidon2Goldilocks<8>;
type MyHash = PaddingFreeSponge<Perm, 8, 4, 4>;
type MyCompress = TruncatedPermutation<Perm, 2, 4, 8>;
type Tree = MerkleTreeMmcs<<Val as Field>::Packing, <Val as Field>::Packing, MyHash, MyCompress, 2, 4>;

fn felts(xs: &[Val]) -> Vec<u64> {
    xs.iter().map(|x| x.as_canonical_u64()).collect()
}

fn vals(xs: &[u64]) -> Vec<Val> {
    xs.iter().map(|x| Val::new(*x)).collect()
}

fn wide(x: Ext) -> Challenge {
    Challenge::new([Val::new(x.c0), Val::new(x.c1)])
}

fn plain(x: Challenge) -> Ext {
    let c: &[Val] = x.as_basis_coefficients_slice();
    Ext { c0: c[0].as_canonical_u64(), c1: c[1].as_canonical_u64() }
}

/// Whether a trace breaks a constraint.
fn broken(rows: &[Vec<u64>], constraints: &[Wire], periodic: &[Vec<u64>], publics: &[u64]) -> bool {
    let h = rows.len();
    (0..h).any(|r| {
        let p: Vec<u64> = periodic.iter().map(|c| c[r % c.len()]).collect();
        let w = WindowRef {
            cur: &rows[r],
            nxt: &rows[(r + 1) % h],
            periodic: &p,
            publics,
            is_first: (r == 0) as u64,
            is_last: (r == h - 1) as u64,
            is_transition: (r != h - 1) as u64,
        };
        constraints.iter().any(|e| evaluate(e, &w) != 0)
    })
}

fn hash(xs: &[u64]) -> Vec<u64> {
    let h: [Val; 4] = MyHash::new(default_goldilocks_poseidon2_8()).hash_iter(vals(xs));
    felts(&h)
}

#[test]
fn phase7_wide_leaf_matches_myhash() {
    for n in [7usize, 9, 10, 13, 16, 27] {
        let group: Vec<u64> = (0..n).map(|i| 0x1234 + 7 * i as u64).collect();
        let leaf = hash(&group);
        assert_eq!(leaf_hash_blocks(&group).1, leaf, "the leaf of {n} felts");
        let air = GeneralLeafHashAir { n_felts: n };
        let mut pis = group.clone();
        pis.extend_from_slice(&leaf);
        let trace = build_general_leaf_trace(&group);
        assert!(!broken(&trace, &air.eval(), &air.periodic(), &pis), "multi-block leaf (n={n})");
        let m = pis.len();
        pis[m - 1] ^= 1;
        assert!(broken(&trace, &air.eval(), &air.periodic(), &pis), "tampered leaf (n={n})");
    }
}

#[test]
fn phase6_agg_fold_matches_oracle() {
    let dom = 1234567;
    let pvs = vec![42u64, 99, 7];
    let root = agg_root(dom, &pvs);
    let air = AggFoldAir { n_tiles: 4, dom };
    let (trace, reached) = build_agg_fold_trace(4, dom, &pvs);
    assert_eq!(reached, root);
    let mut pis = vec![42u64, 99, 7, 0];
    pis.extend_from_slice(&root);
    assert!(!broken(&trace, &air.eval(), &air.periodic(), &pis), "the fold emits the root");
    pis[4] ^= 1;
    assert!(broken(&trace, &air.eval(), &air.periodic(), &pis), "another root");
}

#[test]
fn roots_fold_digests_of_statements() {
    let dom = 5;
    let zero = vec![0u64; 4];
    let one = merge(&zero, &agg_statement_digest(dom, 42));
    assert_eq!(agg_root(dom, &vec![42]), one);
    let two = merge(&one, &agg_statement_digest(dom, 43));
    assert_eq!(agg_root(dom, &vec![42, 43]), two);
    let three = merge(&two, &agg_statement_digest(dom, 44));
    assert_eq!(agg_root(dom, &vec![42, 43, 44]), merge(&three, &agg_statement_digest(dom, 0)));
    assert_eq!(agg_statement_digest(dom, 42), merge(&vec![dom, 0, 0, 0], &vec![42, 0, 0, 0]));
}

#[test]
fn lookup_epilogue_air_checks_logup_ood() {
    let base = RangeCheckAir.constraints();
    let ext = lookup_trees(&RangeCheckAir.lookups());
    let c = |n: u64| Ext { c0: n, c1: 0 };
    let (local, next) = (vec![c(3), c(5), c(7)], vec![c(11), c(13), c(17)]);
    let (aux_local, aux_next) = (vec![c(19), c(23)], vec![c(29), c(31)]);
    let lc = vec![c(37), c(41)];
    let (terminal, alpha) = (c(43), c(47));
    let o = NativeOpenings {
        local: local.clone(),
        next: next.clone(),
        pubs: vec![],
        periodic: vec![],
        is_first: c(2),
        is_last: c(3),
        is_trans: c(5),
    };
    let l = NativeLookup {
        perm_local: aux_local.clone(),
        perm_next: aux_next.clone(),
        challenges: lc.clone(),
        perm_values: vec![terminal],
    };
    let mut expected = Ext::zero();
    for tree in &ext {
        expected = expected.times(alpha).plus(eval_symbolic_ext_native(tree, &o, &l));
    }
    assert!(base.is_empty());
    let mut row: Vec<u64> = Vec::new();
    for v in local.iter().chain(&next).chain(&aux_local).chain(&aux_next).chain(&[c(2), c(3), c(5)]) {
        row.push(v.c0);
        row.push(v.c1);
    }
    let trace = vec![row; 4];
    let mut pubs: Vec<u64> = Vec::new();
    for v in [alpha, lc[0], lc[1], terminal, expected] {
        pubs.push(v.c0);
        pubs.push(v.c1);
    }
    let gadget = LogupFoldCheckAir { base, ext, w: 3, aux_w: 2, n_lc: 2 };
    assert_eq!((gadget.width(), gadget.num_public_values()), (26, 10));
    assert!(!broken(&trace, &gadget.eval(), &[], &pubs), "the fold in constraints is the native fold");
    pubs[8] ^= 1;
    assert!(broken(&trace, &gadget.eval(), &[], &pubs), "a wrong expected fold must be rejected");
}

#[test]
fn permutation_rows_end_in_the_permutation() {
    let input: Vec<u64> = (1..9).map(|i| i * 0x1_0000_0001).collect();
    let mut lanes: [Val; 8] = core::array::from_fn(|i| Val::new(input[i]));
    default_goldilocks_poseidon2_8().permute_mut(&mut lanes);
    let rows = native_steps(&input);
    assert_eq!(rows.len(), 32);
    assert_eq!(rows[0], input);
    assert_eq!(rows[31], felts(&lanes));
    let table = periodic_table();
    assert_eq!(table.len(), 11);
    for t in 0..31 {
        assert_eq!(table[3][t], round_constant(t, 0));
        assert_eq!(table[0][t] + table[1][t] + table[2][t], 1);
    }
}

#[test]
fn transcript_region_pads_with_squeezes() {
    let blocks: Vec<Vec<u64>> = (0..3).map(|b| (0..8).map(|i| 10 * b + i).collect()).collect();
    let t = ft_build_trace(&blocks);
    assert_eq!(t.len(), 128);
    for b in 0..3 {
        assert_eq!(t[32 * b], blocks[b]);
    }
    assert_eq!(t[96], t[95], "the padding block takes in what the last block put out");
    assert_eq!(ft_build_trace(&vec![])[0], vec![0u64; 8]);
}

#[test]
fn merging_is_the_truncated_permutation() {
    let (a, b) = (vec![1u64, 2, 3, 4], vec![5u64, 6, 7, 8]);
    let c = MyCompress::new(default_goldilocks_poseidon2_8());
    let pair = [[1u64, 2, 3, 4], [5, 6, 7, 8]].map(|d| Val::new_array(d));
    assert_eq!(merge(&a, &b), felts(&c.compress(pair)));
    assert_ne!(merge(&a, &b), merge(&b, &a));
}

#[test]
fn batches_open_as_the_tree_says() {
    let perm = default_goldilocks_poseidon2_8();
    for cap_height in [0usize, 2] {
        let tree = Tree::new(MyHash::new(perm.clone()), MyCompress::new(perm.clone()), cap_height);
        let wide = RowMajorMatrix::new((0..48u64).map(Val::new).collect(), 3);
        let thin = RowMajorMatrix::new((100..116u64).map(Val::new).collect(), 1);
        let (commit, data) = tree.commit(vec![wide, thin]);
        let cap: Vec<Vec<u64>> = commit.roots().iter().map(|d| felts(d)).collect();
        let dims = vec![(3usize, 16usize), (1, 16)];
        for index in [0usize, 5, 15] {
            let opened = tree.open_batch(index, &data);
            let rows: Vec<Vec<u64>> = opened.opened_values.iter().map(|r| felts(r)).collect();
            let path: Vec<Vec<u64>> = opened.opening_proof.iter().map(|d| felts(d)).collect();
            assert!(verify_batch(cap_height, &cap, &dims, index, &rows, &path));
            assert!(!verify_batch(cap_height, &cap, &dims, index ^ 1, &rows, &path));
            let mut bad = rows.clone();
            bad[1][0] += 1;
            assert!(!verify_batch(cap_height, &cap, &dims, index, &bad, &path));
            let mut short = path.clone();
            short.pop();
            assert!(!verify_batch(cap_height, &cap, &dims, index, &rows, &short));
        }
        assert!(!verify_batch(cap_height, &cap, &vec![], 0, &vec![], &vec![]));
    }
}

#[test]
fn challenger_follows_the_duplex_challenger() {
    let mut p3 = DuplexChallenger::<Val, Perm, 8, 4>::new(default_goldilocks_poseidon2_8());
    let mut own = Challenger::new();
    let mut sim = Sim::new();
    let mut ops: Vec<Op> = Vec::new();
    let mut drawn: Vec<u64> = Vec::new();
    for i in 0..40u64 {
        if i % 3 == 2 {
            let v: Val = p3.sample();
            drawn.push(v.as_canonical_u64());
            assert_eq!(own.sample(), v.as_canonical_u64());
            let (s, block, _) = sim.sample_base();
            assert_eq!(s, v.as_canonical_u64());
            assert_eq!(block + 1, sim.block_inputs.len());
            ops.push(Op::Sample);
        } else {
            p3.observe(Val::new(i * i));
            own.observe(i * i);
            sim.observe(i * i);
            ops.push(Op::Observe(i * i));
        }
    }
    assert_eq!(replay(&ops).values, drawn);
    assert_eq!(replay_challenger(&ops), drawn);
    let x: Challenge = p3.sample_algebra_element();
    assert_eq!(own.sample_ext(), plain(x));
    assert_eq!(own.sample_bits(7), p3.sample_bits(7));
    let witness = p3.clone().grind(8);
    assert!(own.copied().check_witness(8, witness.as_canonical_u64()));
    assert_eq!(own.check_witness(8, 0), p3.check_witness(8, Val::ZERO));
}

#[test]
fn field_follows_goldilocks() {
    let (a, b) = (MODULUS - 3, 0x1234_5678_9abc_def0u64);
    let (x, y) = (Ext { c0: a, c1: b }, Ext { c0: b, c1: 17 });
    assert_eq!(wide(x.plus(y)), wide(x) + wide(y));
    assert_eq!(wide(x.minus(y)), wide(x) - wide(y));
    assert_eq!(wide(x.times(y)), wide(x) * wide(y));
    assert_eq!(wide(x.inverse().unwrap()), wide(x).inverse());
    assert!(Ext::zero().inverse().is_none());
    assert_eq!(wide(x.exp_power_of_2(5)), wide(x).exp_power_of_2(5));
    assert!(x.same(Ext { c0: a, c1: b }) && !x.same(y));
    assert!(Ext { c0: MODULUS, c1: 0 }.same(Ext::zero()));
    assert_eq!(canonical(u64::MAX), u64::MAX - MODULUS);
    assert_eq!(exp_u64(3, 41), Val::new(3).exp_u64(41).as_canonical_u64());
    assert_eq!(exp_power_of_2(b, 3), Val::new(b).exp_power_of_2(3).as_canonical_u64());
    assert_eq!(Val::new(HALF) + Val::new(HALF), Val::ONE);
    assert_eq!(GENERATOR, Val::GENERATOR.as_canonical_u64());
    assert_eq!(Ext::from_base(9), Ext { c0: 9, c1: 0 });
}

#[test]
fn seven_is_no_square_and_the_extension_inverts() {
    assert_eq!(exp_u64(7, (MODULUS - 1) / 2), MODULUS - 1);
    assert_eq!(exp_u64(7, MODULUS - 1), 1);
    for q in [2u64, 3, 5, 17, 257, 65537] {
        assert_ne!(exp_u64(7, (MODULUS - 1) / q), 1);
    }
    for x in [Ext { c0: 0, c1: 1 }, Ext { c0: 1, c1: MODULUS - 1 }, Ext { c0: u64::MAX, c1: 3 }] {
        assert!(x.times(x.inverse().unwrap()).same(Ext::one()));
    }
    let root = Ext { c0: 0, c1: 1 };
    assert!(root.times(root).same(Ext::from_base(7)));
}

#[test]
fn bits_and_powers_of_two() {
    assert_eq!((next_power_of_two(0), next_power_of_two(1), next_power_of_two(5), next_power_of_two(8)), (1, 1, 8, 8));
    assert_eq!((div_ceil(0, 4), div_ceil(8, 4), div_ceil(9, 4)), (0, 2, 3));
    assert_eq!((log2_strict(1), log2_strict(64), shifted_one(10)), (0, 6, 1024));
    assert_eq!((reverse_bits_len(1, 4), reverse_bits_len(6, 3), reverse_bits_len(0, 0)), (8, 3, 0));
    for x in 0..32 {
        assert_eq!(reverse_bits_len(reverse_bits_len(x, 5), 5), x);
    }
    let mut xs = vec![0, 1, 2, 3, 4, 5, 6, 7];
    reverse_slice_index_bits(&mut xs);
    assert_eq!(xs, vec![0, 4, 2, 6, 1, 5, 3, 7]);
}

#[test]
fn fold_points_are_a_coset() {
    let xs = points_of_fold(5, 3, 2);
    assert_eq!(xs.len(), 4);
    let start = Val::two_adic_generator(5).exp_u64(5);
    let g = Val::two_adic_generator(2);
    let expected: Vec<u64> = [0u64, 2, 1, 3].iter().map(|k| (start * g.exp_u64(*k)).as_canonical_u64()).collect();
    assert_eq!(xs, expected);
    let pair = points_of_fold(3, 4, 1);
    assert_eq!(Val::new(pair[0]) + Val::new(pair[1]), Val::ZERO, "a pair is a point and its negative");
}

#[test]
fn final_polynomial_is_evaluated_at_the_query_point() {
    let coeffs = vec![Ext { c0: 3, c1: 1 }, Ext { c0: 5, c1: 0 }, Ext { c0: 0, c1: 2 }];
    let x = final_query_point(6, 4);
    let g = Challenge::from(Val::two_adic_generator(4).exp_u64(6));
    assert_eq!(wide(x), g);
    assert_eq!(wide(eval_final_poly(&coeffs, x)), wide(coeffs[0]) + wide(coeffs[1]) * g + wide(coeffs[2]) * g * g);
    assert_eq!(eval_final_poly(&vec![], x), Ext::zero());
}

#[test]
fn periodic_columns_and_vanishing_at_a_point() {
    let domain = TwoAdicMultiplicativeCoset::new(Val::ONE, 4).unwrap();
    let z = Ext { c0: 99, c1: 7 };
    let col = vec![3u64, 7, 1, 8];
    let expected = domain.evaluate_periodic_column_at(&vals(&col), wide(z));
    assert_eq!(wide(periodic_at(&vec![col], 4, z).unwrap()[0]), expected);
    assert_eq!(wide(vanishing_at(z, 4)), domain.vanishing_poly_at_point(wide(z)));
}

#[test]
fn expressions_have_their_value() {
    let w = WindowRef { cur: &[3, 5], nxt: &[7, 11], periodic: &[13], publics: &[17], is_first: 1, is_last: 0, is_transition: 1 };
    let e = plus(&times(&cur(0), &nxt(1)), &minus(&per(0), &times(&public(0), &constant(2))));
    assert_eq!(evaluate(&e, &w), 3 * 11 + 13 + MODULUS - 34 - MODULUS);
    assert_eq!(evaluate(&minus(&cur(0), &cur(1)), &w), MODULUS - 2);
}

#[test]
fn fingerprints_tell_sets_apart() {
    let rendered = vec![b"ab".to_vec(), b"c".to_vec()];
    let a = fingerprint(2, 1, &rendered, &vec![1, 3], &vec![vec![1, 2]]);
    assert_eq!((a.0, a.1, a.2, a.3, a.4), (2, 1, 1, 2, 3));
    let b = fingerprint(2, 1, &vec![b"a".to_vec(), b"bc".to_vec()], &vec![1, 3], &vec![vec![1, 2]]);
    assert_ne!(a.5, b.5);
    assert_eq!(a.6, b.6);
    let c = fingerprint(2, 1, &rendered, &vec![1, 3], &vec![vec![1], vec![2]]);
    assert_ne!(a.6, c.6);
}
