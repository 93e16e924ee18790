//! The queries of an accepted proof's instance agree with its window.

use vstd::arithmetic::power2::pow2;
use vstd::prelude::*;

use super::accepted::{query_opens, round_opens};
use super::feeds::group_ordered;
use super::heads::{lemma_difference_reduced, lemma_power_reduced, reduced_terms};
use super::layout::{s_cm_depth_at, s_min, MonolithAir, LOG_BLOWUP};
use super::pairs::plain_rounds;
use super::places::{path_of, preimage_of};
use super::selection::data_agrees;
use super::tilerows::query_agrees;
use super::tops::{ends_in_window, entry_at, top_of};
use super::trace::{bit_at, law_deep_point_is_query_point, QueryData};
use super::window::{
    cap_part, commit_parts, index_under, is_query, follows_inner, law_window_layout, lemma_commit_parts_len,
    lemma_digest_felts_len, lemma_pair_steps, lemma_steps_shaped, lemma_window_len, mode_fits, point_under, proof_shaped,
    query_shaped, space_of, steps_under, terms_under, window_values, WindowMode,
};
use crate::field::{f_mul, f_red, x_add, x_base, x_inv, x_mul, x_pow, x_red, x_sub, Ext, MODULUS};
use crate::fri::input::{batch_terms, input_terms, log_height, matrix_terms, point_terms, reduced, MatrixView};
use crate::fri::merkle::{cap_ok, contents, digests_ok, joined, reduced_digest};
use crate::fri::query::lemma_ext_felts_len;
use crate::fri::witness::{chain_eval, chain_group, chain_index, fold_value, law_bits_climb, law_pair_chain};
use crate::gadgets::opening::OpeningTerm;
use crate::poseidon::leaf_hash;
use crate::stark::verify::{chunk_count, proof_claims, InnerAir, StarkProof};
use crate::transcript::{digest_felts, ext_felts};
use crate::vanish::pair_at;

verus! {

/// A run of digests, felt by felt.
proof fn lemma_digest_at(ds: Seq<Vec<u64>>, e: int, k: int)
    requires
        digests_ok(ds),
        0 <= e < ds.len(),
        0 <= k < 4,
    ensures
        digest_felts(ds)[4 * e + k] == ds[e]@[k],
    decreases ds.len(),
{
    let n = ds.len() - 1;
    assert(digests_ok(ds.drop_last())) by {
        assert forall|i: int| 0 <= i < ds.drop_last().len() implies (#[trigger] ds.drop_last()[i])@.len() == 4 by {
            assert(ds[i]@.len() == 4);
        }
    }
    lemma_digest_felts_len(ds.drop_last());
    assert(ds.last()@.len() == 4);
    if e < n {
        lemma_digest_at(ds.drop_last(), e, k);
        assert(ds.drop_last()[e] == ds[e]);
    }
}

/// The caps of the commit rounds in the window, one behind the other.
proof fn lemma_commit_part_at(
    air: MonolithAir,
    inner: InnerAir,
    proof: StarkProof,
    pvs: Seq<u64>,
    mode: WindowMode,
    felt: u64,
    n: nat,
    r: int,
    e: int,
    k: int,
)
    requires
        proof_shaped(inner, proof, pvs, mode.cap_height as int),
        follows_inner(air, inner, proof, pvs, mode),
        0 <= r < n <= proof.opening.commits@.len(),
        0 <= e < proof.opening.commits@[r]@.len(),
        0 <= k < 4,
    ensures
        commit_parts(true, proof, index_under(proof, felt), mode.cap_height as int, n)[air.s_caps_before(r) + 4 * e + k]
            == proof.opening.commits@[r]@[e]@[k],
        0 <= air.s_caps_before(r) && air.s_caps_before(r) + 4 * e + 4 <= air.s_caps_before(n as int),
        ({
            let at = ((index_under(proof, felt) / pow2((r + 1) as nat)) / pow2(
                s_cm_depth_at(r, space_of(proof), mode.cap_height as int) as nat,
            )) as int;
            commit_parts(false, proof, index_under(proof, felt), mode.cap_height as int, n)[4 * r + k]
                == proof.opening.commits@[r]@[at]@[k]
        }),
    decreases n,
{
    let m = (n - 1) as nat;
    let cap = proof.opening.commits@[n - 1]@;
    assert(cap_ok(cap));
    lemma_commit_parts_len(air, inner, proof, pvs, mode, felt, n);
    lemma_commit_parts_len(air, inner, proof, pvs, mode, felt, m);
    lemma_digest_felts_len(cap);
    air.lemma_caps_monotone(0, m as int);
    assert(air.s_caps_before(n as int) == air.s_caps_before(n - 1) + air.s_commit_cap_size(n - 1) * 4);
    assert(cap.len() == air.s_commit_cap_size(n - 1));
    if r < m {
        lemma_commit_part_at(air, inner, proof, pvs, mode, felt, m, r, e, k);
    } else {
        lemma_digest_at(cap, e, k);
    }
}

/// Where the caps stand in the window: whole ones entry by entry, else the entry that the first query reaches.
#[verifier::spinoff_prover]
#[verifier::rlimit(60)]
pub proof fn law_window_caps(
    air: MonolithAir,
    inner: InnerAir,
    proof: StarkProof,
    pvs: Seq<u64>,
    mode: WindowMode,
    chs: Seq<Ext>,
    felts: Seq<u64>,
    k: int,
)
    requires
        proof_shaped(inner, proof, pvs, mode.cap_height as int),
        mode_fits(inner, pvs, mode),
        follows_inner(air, inner, proof, pvs, mode),
        chs.len() == 3 + proof.opening.commits@.len(),
        felts.len() == proof.opening.queries@.len(),
        !mode.narrow_caps,
        0 <= k < 4,
    ensures
        ({
            let w = window_values(inner, proof, pvs, mode, chs, felts);
            let index = index_under(proof, felts[0]);
            let depth = (space_of(proof) - mode.cap_height) as nat;
            let at = (index / pow2(depth)) as int;
            &&& air.s_full_cap() ==> {
                &&& forall|e: int|
                    0 <= e < proof.trace_commit@.len() ==> w[air.s_cap_base() + 4 * e + k] == (
                    #[trigger] proof.trace_commit@[e])@[k]
                &&& forall|e: int|
                    0 <= e < proof.quotient_commit@.len() ==> w[air.s_qcap_base() + 4 * e + k] == (
                    #[trigger] proof.quotient_commit@[e])@[k]
                &&& forall|r: int, e: int|
                    0 <= r < proof.opening.commits@.len() && 0 <= e < proof.opening.commits@[r]@.len()
                        ==> w[air.s_commit_cap_base(r) + 4 * e + k] == (#[trigger] proof.opening.commits@[r]@[e])@[k]
            }
            &&& !air.s_full_cap() ==> {
                &&& w[air.s_cap_base() + k] == proof.trace_commit@[at]@[k]
                &&& w[air.s_qcap_base() + k] == proof.quotient_commit@[at]@[k]
                &&& forall|r: int|
                    0 <= r < proof.opening.commits@.len() ==> {
                        let a = ((index / pow2((r + 1) as nat)) / pow2(
                            s_cm_depth_at(r, space_of(proof), mode.cap_height as int) as nat,
                        )) as int;
                        w[air.s_ccap_base() + 4 * r + k] == (#[trigger] proof.opening.commits@[r])@[a]@[k]
                    }
            }
        }),
{
    let w = window_values(inner, proof, pvs, mode, chs, felts);
    let full = mode.inner_counter || mode.symbolic;
    let index = index_under(proof, felts[0]);
    let ch = mode.cap_height as int;
    let depth = (space_of(proof) - ch) as nat;
    let n = proof.opening.commits@.len();
    lemma_window_len(air, inner, proof, pvs, mode, chs, felts);
    lemma_commit_parts_len(air, inner, proof, pvs, mode, felts[0], n);
    lemma_ext_felts_len(chs);
    lemma_ext_felts_len(seq![proof.opening.final_poly@[0]]);
    lemma_digest_felts_len(proof.trace_commit@);
    lemma_digest_felts_len(proof.quotient_commit@);
    vstd::arithmetic::power2::lemma_pow2_pos(depth);
    vstd::arithmetic::div_mod::lemma_div_pos_is_pos(index as int, pow2(depth) as int);
    let at = (index / pow2(depth)) as int;
    assert(proof.trace_commit@[at]@.len() == 4);
    assert(proof.quotient_commit@[at]@.len() == 4);
    assert(air.s_full_cap() == full);
    let head = ext_felts(chs) + felts + ext_felts(seq![proof.opening.final_poly@[0]]);
    let t = cap_part(full, proof.trace_commit@, index, depth);
    let q = cap_part(full, proof.quotient_commit@, index, depth);
    let c = commit_parts(full, proof, index, ch, n);
    let p = if mode.symbolic {
        super::window::point_values(inner, proof, chs[1])
    } else {
        Seq::empty()
    };
    assert(w == head + (t + q) + pvs + c + p);
    assert(head.len() == air.s_cap_base());
    assert(t.len() == air.s_pis_cap_stride() && q.len() == air.s_pis_cap_stride());
    assert((head + (t + q) + pvs).len() == air.s_ccap_base());
    assert forall|i: int| 0 <= i < t.len() implies w[air.s_cap_base() + i] == #[trigger] t[i] by {}
    assert forall|i: int| 0 <= i < q.len() implies w[air.s_qcap_base() + i] == #[trigger] q[i] by {}
    assert forall|i: int| 0 <= i < c.len() implies w[air.s_ccap_base() + i] == #[trigger] c[i] by {}
    if full {
        assert forall|e: int| 0 <= e < proof.trace_commit@.len() implies w[air.s_cap_base() + 4 * e + k] == (
        #[trigger] proof.trace_commit@[e])@[k] by {
            lemma_digest_at(proof.trace_commit@, e, k);
            assert(t[4 * e + k] == proof.trace_commit@[e]@[k]);
        }
        assert forall|e: int| 0 <= e < proof.quotient_commit@.len() implies w[air.s_qcap_base() + 4 * e + k] == (
        #[trigger] proof.quotient_commit@[e])@[k] by {
            lemma_digest_at(proof.quotient_commit@, e, k);
            assert(q[4 * e + k] == proof.quotient_commit@[e]@[k]);
        }
        assert forall|r: int, e: int|
            0 <= r < proof.opening.commits@.len() && 0 <= e < proof.opening.commits@[r]@.len() implies w[air.s_commit_cap_base(
            r,
        ) + 4 * e + k] == (#[trigger] proof.opening.commits@[r]@[e])@[k] by {
            lemma_commit_part_at(air, inner, proof, pvs, mode, felts[0], n, r, e, k);
            assert(w[air.s_ccap_base() + (air.s_caps_before(r) + 4 * e + k)] == c[air.s_caps_before(r) + 4 * e + k]);
        }
    } else {
        assert(t[k] == proof.trace_commit@[at]@[k]);
        assert(q[k] == proof.quotient_commit@[at]@[k]);
        assert forall|r: int| 0 <= r < proof.opening.commits@.len() implies {
            let a = ((index / pow2((r + 1) as nat)) / pow2(
                s_cm_depth_at(r, space_of(proof), mode.cap_height as int) as nat,
            )) as int;
            w[air.s_ccap_base() + 4 * r + k] == (#[trigger] proof.opening.commits@[r])@[a]@[k]
        } by {
            vstd::arithmetic::power2::lemma_pow2_pos(s_min(ch, space_of(proof) - (r + 1)) as nat);
            assert(proof.opening.commits@[r]@.len() > 0);
            lemma_commit_part_at(air, inner, proof, pvs, mode, felts[0], n, r, 0, k);
            assert(w[air.s_ccap_base() + (4 * r + k)] == c[4 * r + k]);
        }
    }
}

/// The terms of the quotient's chunks.
proof fn lemma_chunk_term(rows: Seq<Vec<u64>>, mats: Seq<MatrixView>, lg: nat, n: nat, i: int, j: int)
    requires
        0 <= i < n <= mats.len(),
        0 <= j < 2,
        forall|m: int|
            0 <= m < mats.len() ==> log_height(#[trigger] mats[m], LOG_BLOWUP) == lg && mats[m].points.len() == 1
                && mats[m].points[0].values.len() == 2,
    ensures
        batch_terms(rows, mats, LOG_BLOWUP, lg, n).len() == 2 * n,
        batch_terms(rows, mats, LOG_BLOWUP, lg, n)[2 * i + j] == (OpeningTerm {
            z: mats[i].points[0].z,
            pz: mats[i].points[0].values[j],
            px: rows[i]@[j],
        }),
    decreases n,
{
    let m = (n - 1) as nat;
    assert(log_height(mats[n - 1], LOG_BLOWUP) == lg);
    let (row, pts) = (rows[n - 1]@, mats[n - 1].points);
    assert(matrix_terms(row, pts, 1) =~= point_terms(row, pts[0])) by {
        reveal_with_fuel(matrix_terms, 2);
    }
    if m > 0 {
        lemma_chunk_term(rows, mats, lg, m, if i < m {
            i
        } else {
            0
        }, j);
    } else {
        assert(batch_terms(rows, mats, LOG_BLOWUP, lg, 0).len() == 0);
    }
}

/// The terms of a shaped query: the trace row at the point, the same row at the next point, the chunks.
#[verifier::spinoff_prover]
#[verifier::rlimit(60)]
pub(super) proof fn lemma_query_terms(inner: InnerAir, proof: StarkProof, pvs: Seq<u64>, cap_height: int, chs: Seq<Ext>, q: int)
    requires
        proof_shaped(inner, proof, pvs, cap_height),
        0 <= q < proof.opening.queries@.len(),
    ensures
        ({
            let ts = terms_under(inner, proof, chs, q);
            let input = proof.opening.queries@[q].input@;
            let (w, n) = (inner.width as int, proof.quotient_chunks@.len() as int);
            let next = crate::stark::domain::next_point(chs[1], proof.degree_bits as nat);
            &&& ts.len() == 2 * w + 2 * n
            &&& forall|c: int|
                0 <= c < w ==> #[trigger] ts[c] == (OpeningTerm {
                    z: chs[1],
                    pz: proof.trace_local@[c],
                    px: input[0].rows@[0]@[c],
                })
            &&& forall|c: int|
                0 <= c < w ==> #[trigger] ts[w + c] == (OpeningTerm {
                    z: next,
                    pz: proof.trace_next.unwrap()@[c],
                    px: input[0].rows@[0]@[c],
                })
            &&& forall|i: int, j: int|
                0 <= i < n && 0 <= j < 2 ==> #[trigger] ts[2 * w + (2 * i + j)] == (OpeningTerm {
                    z: chs[1],
                    pz: proof.quotient_chunks@[i]@[j],
                    px: input[1].rows@[i]@[j],
                })
        }),
{
    let ts = terms_under(inner, proof, chs, q);
    let coms = proof_claims(inner, proof, chs[1]);
    let input = proof.opening.queries@[q].input@;
    let lg = space_of(proof) as nat;
    let (w, n) = (inner.width as int, proof.quotient_chunks@.len() as int);
    assert(query_shaped(proof.opening.queries@[q], inner, proof, cap_height));
    assert(chunk_count(inner, proof) == proof.quotient_chunks@.len());
    let (m0, m1) = (coms[0].matrices, coms[1].matrices);
    assert(m0[0].points.len() == 2);
    let a = batch_terms(input[0].rows@, m0, LOG_BLOWUP, lg, 1);
    let b = batch_terms(input[1].rows@, m1, LOG_BLOWUP, lg, m1.len());
    reveal_with_fuel(input_terms, 3);
    reveal_with_fuel(batch_terms, 2);
    assert(ts =~= a + b);
    let row = input[0].rows@[0]@;
    let (p0, p1) = (point_terms(row, m0[0].points[0]), point_terms(row, m0[0].points[1]));
    reveal_with_fuel(matrix_terms, 3);
    assert(a =~= p0 + p1);
    assert forall|m: int| 0 <= m < m1.len() implies log_height(#[trigger] m1[m], LOG_BLOWUP) == lg && m1[m].points.len()
        == 1 && m1[m].points[0].values.len() == 2 by {
        assert(proof.quotient_chunks@[m]@.len() == 2);
    }
    vstd::arithmetic::power2::lemma_pow2_pos(inner.log_chunks as nat);
    lemma_chunk_term(input[1].rows@, m1, lg, m1.len(), 0, 0);
    assert forall|i: int, j: int| 0 <= i < n && 0 <= j < 2 implies #[trigger] ts[2 * w + (2 * i + j)] == (OpeningTerm {
        z: chs[1],
        pz: proof.quotient_chunks@[i]@[j],
        px: input[1].rows@[i]@[j],
    }) by {
        lemma_chunk_term(input[1].rows@, m1, lg, m1.len(), i, j);
        assert(ts[2 * w + (2 * i + j)] == b[2 * i + j]);
    }
}

/// A shaped proof in a mode that fits it, the verifier of its instance, and the data of one of its queries.
pub open spec fn query_of(
    air: MonolithAir,
    inner: InnerAir,
    proof: StarkProof,
    pvs: Seq<u64>,
    mode: WindowMode,
    chs: Seq<Ext>,
    felt: u64,
    q: int,
    d: QueryData,
) -> bool {
    &&& proof_shaped(inner, proof, pvs, mode.cap_height as int)
    &&& mode_fits(inner, pvs, mode)
    &&& follows_inner(air, inner, proof, pvs, mode)
    &&& air.buildable()
    &&& chs.len() == 3 + proof.opening.commits@.len()
    &&& 0 <= q < proof.opening.queries@.len()
    &&& is_query(d, inner, proof, chs, felt, q)
    &&& f_red(felt as int) == felt
}

/// What the verifier's dimensions are for a shaped proof.
pub(super) proof fn lemma_dimensions(air: MonolithAir, inner: InnerAir, proof: StarkProof, pvs: Seq<u64>, mode: WindowMode)
    requires
        proof_shaped(inner, proof, pvs, mode.cap_height as int),
        mode_fits(inner, pvs, mode),
        follows_inner(air, inner, proof, pvs, mode),
    ensures
        plain_rounds(air),
        air.s_w_inner() == inner.width,
        air.s_trm_committed_w() == inner.width,
        air.s_nqc() == proof.quotient_chunks@.len(),
        air.s_cm_rounds() == proof.opening.commits@.len(),
        air.s_lg() == space_of(proof),
        air.s_nb() == 3 + proof.opening.commits@.len(),
        air.s_ni() == proof.opening.queries@.len(),
        air.s_n_pub() == pvs.len(),
        mode.symbolic ==> air.s_n_periodic() == inner.periodic@.len(),
        air.s_symbolic() == mode.symbolic,
        forall|c: int| #[trigger] air.s_trm_trace(c) == c,
        forall|c: int| #[trigger] air.s_trm_next(c) == inner.width + c,
        forall|i: int, j: int| #[trigger] air.s_trm_quot(i, j) == 2 * inner.width + (2 * i + j),
        air.s_trm_chunk_w() == 2,
{
    vstd::arithmetic::power2::lemma2_to64();
}

/// The rows that a query opens are what its leaves hash.
proof fn lemma_preimages_are(
    air: MonolithAir,
    inner: InnerAir,
    proof: StarkProof,
    pvs: Seq<u64>,
    mode: WindowMode,
    chs: Seq<Ext>,
    felt: u64,
    q: int,
    d: QueryData,
)
    requires
        query_of(air, inner, proof, pvs, mode, chs, felt, q, d),
    ensures
        ({
            let input = proof.opening.queries@[q].input@;
            &&& air.s_input_preimage(d) == joined(contents(input[0].rows@))
            &&& air.s_quot_preimage(d, air.s_nqc() as nat) == joined(contents(input[1].rows@))
        }),
{
    let input = proof.opening.queries@[q].input@;
    let n = air.s_nqc() as nat;
    lemma_dimensions(air, inner, proof, pvs, mode);
    lemma_query_terms(inner, proof, pvs, mode.cap_height as int, chs, q);
    assert(query_shaped(proof.opening.queries@[q], inner, proof, mode.cap_height as int));
    let rows = contents(input[0].rows@);
    assert(rows.drop_last() =~= Seq::<Seq<u64>>::empty());
    reveal_with_fuel(joined, 2);
    assert(joined(rows) =~= input[0].rows@[0]@);
    let pre = air.s_input_preimage(d);
    assert(pre.len() == inner.width);
    assert forall|c: int| 0 <= c < inner.width implies #[trigger] pre[c] == input[0].rows@[0]@[c] by {
        assert(d.terms@[air.s_trm_trace(c)] == d.terms@[c]);
    }
    assert(pre =~= input[0].rows@[0]@);
    lemma_quot_joined(air, inner, proof, pvs, mode, chs, felt, q, d, n);
    assert(contents(input[1].rows@).take(n as int) =~= contents(input[1].rows@));
}

proof fn lemma_quot_joined(
    air: MonolithAir,
    inner: InnerAir,
    proof: StarkProof,
    pvs: Seq<u64>,
    mode: WindowMode,
    chs: Seq<Ext>,
    felt: u64,
    q: int,
    d: QueryData,
    n: nat,
)
    requires
        query_of(air, inner, proof, pvs, mode, chs, felt, q, d),
        n <= air.s_nqc(),
    ensures
        air.s_quot_preimage(d, n) == joined(contents(proof.opening.queries@[q].input@[1].rows@).take(n as int)),
    decreases n,
{
    let rows = proof.opening.queries@[q].input@[1].rows@;
    if n > 0 {
        let m = (n - 1) as nat;
        lemma_quot_joined(air, inner, proof, pvs, mode, chs, felt, q, d, m);
        lemma_dimensions(air, inner, proof, pvs, mode);
        lemma_query_terms(inner, proof, pvs, mode.cap_height as int, chs, q);
        assert(query_shaped(proof.opening.queries@[q], inner, proof, mode.cap_height as int));
        let part = contents(rows).take(n as int);
        assert(part.drop_last() =~= contents(rows).take(m as int));
        assert(part.last() == rows[n - 1]@);
        assert(rows[n - 1]@.len() == 2);
        let chunk = Seq::new(2, |j: int| d.terms@[air.s_trm_quot(n - 1, j)].px);
        assert forall|j: int| 0 <= j < 2 implies #[trigger] chunk[j] == rows[n - 1]@[j] by {
            assert(air.s_trm_quot(n - 1, j) == 2 * inner.width + (2 * (n - 1) + j));
            assert(d.terms@[2 * inner.width + (2 * (n - 1) + j)].px == rows[n - 1]@[j]);
        }
        assert(chunk =~= rows[n - 1]@);
        assert(air.s_quot_preimage(d, n) =~= air.s_quot_preimage(d, m) + chunk);
    } else {
        assert(contents(rows).take(0) =~= Seq::<Seq<u64>>::empty());
    }
}

/// The folds of a query lead through its chain.
proof fn lemma_fold_is_chain(
    air: MonolithAir,
    inner: InnerAir,
    proof: StarkProof,
    pvs: Seq<u64>,
    mode: WindowMode,
    chs: Seq<Ext>,
    felt: u64,
    q: int,
    d: QueryData,
    n: nat,
)
    requires
        query_of(air, inner, proof, pvs, mode, chs, felt, q, d),
        n <= proof.opening.commits@.len(),
    ensures
        fold_value(d.ro, d.rounds@, n) == chain_eval(
            steps_under(chs, &proof.opening, q),
            d.ro,
            index_under(proof, felt),
            space_of(proof) as nat,
            n,
        ),
{
    let steps = steps_under(chs, &proof.opening, q);
    lemma_steps_shaped(inner, proof, pvs, mode.cap_height as int, chs, felt, q);
    law_pair_chain(d.rounds@, steps, d.ro, index_under(proof, felt), space_of(proof) as nat, n);
}

/// A running value and its sibling in the order of the bit.
#[verifier::spinoff_prover]
#[verifier::rlimit(60)]
proof fn lemma_group_ordered(
    air: MonolithAir,
    inner: InnerAir,
    proof: StarkProof,
    pvs: Seq<u64>,
    mode: WindowMode,
    chs: Seq<Ext>,
    felt: u64,
    q: int,
    d: QueryData,
    k: int,
)
    requires
        query_of(air, inner, proof, pvs, mode, chs, felt, q, d),
        0 <= k < proof.opening.commits@.len(),
    ensures
        group_ordered(d, k),
{
    let steps = steps_under(chs, &proof.opening, q);
    let (lg, index) = (space_of(proof) as nat, index_under(proof, felt));
    lemma_fold_is_chain(air, inner, proof, pvs, mode, chs, felt, q, d, k as nat);
    let qp = proof.opening.queries@[q];
    assert(query_shaped(qp, inner, proof, mode.cap_height as int));
    assert(qp.openings@[k].log_arity == 1 && qp.openings@[k].siblings@.len() == 1);
    let e = chain_eval(steps, d.ro, index, lg, k as nat);
    let f = d.rounds@[k];
    assert(crate::fri::witness::is_pair_round(f, steps, index, lg, k as nat));
    lemma_pair_group(steps, index, e, k as nat);
    let evals = chain_group(steps, index, e, k as nat);
    lemma_pair_felts(evals[0], evals[1]);
    assert(d.commits@[k].group@ == ext_felts(evals));
    let group = d.commits@[k].group@;
    assert(group[0] == evals[0].c0 && group[1] == evals[0].c1 && group[2] == evals[1].c0 && group[3] == evals[1].c1);
}

/// A group of two.
proof fn lemma_pair_group(steps: Seq<crate::fri::query::CommitStep>, index: nat, e: Ext, k: nat)
    requires
        k < steps.len(),
        steps[k as int].opening.log_arity == 1,
        steps[k as int].opening.siblings@.len() == 1,
    ensures
        ({
            let s = steps[k as int].opening.siblings@[0];
            chain_group(steps, index, e, k) == (if chain_index(steps, index, k) % 2 == 1 {
                seq![s, e]
            } else {
                seq![e, s]
            })
        }),
{
    vstd::arithmetic::power2::lemma2_to64();
    let s = steps[k as int].opening.siblings@[0];
    let evals = chain_group(steps, index, e, k);
    if chain_index(steps, index, k) % 2 == 1 {
        assert(evals =~= seq![s, e]);
    } else {
        assert(evals =~= seq![e, s]);
    }
}

proof fn lemma_pair_felts(a: Ext, b: Ext)
    ensures
        ext_felts(seq![a, b]) == seq![a.c0, a.c1, b.c0, b.c1],
{
    assert(seq![a, b].drop_last() =~= seq![a]);
    assert(seq![a].drop_last() =~= Seq::<Ext>::empty());
    reveal_with_fuel(ext_felts, 3);
    assert(ext_felts(seq![a, b]) =~= seq![a.c0, a.c1, b.c0, b.c1]);
}

/// The high bits of a residue.
proof fn lemma_residue_shift(v: nat, lg: nat, shift: nat, bits: nat)
    requires
        shift + bits == lg,
    ensures
        (v % pow2(lg)) / pow2(shift) == (v / pow2(shift)) % pow2(bits),
{
    let (a, b) = (pow2(shift) as int, pow2(bits) as int);
    vstd::arithmetic::power2::lemma_pow2_pos(shift);
    vstd::arithmetic::power2::lemma_pow2_pos(bits);
    vstd::arithmetic::power2::lemma_pow2_adds(shift, bits);
    vstd::arithmetic::div_mod::lemma_mod_breakdown(v as int, a, b);
    vstd::arithmetic::div_mod::lemma_mod_bound(v as int, a);
    let m = (v as int / a) % b;
    vstd::arithmetic::div_mod::lemma_fundamental_div_mod_converse(v as int % (a * b), a, m, v as int % a);
}

/// The entry that the opening of a query reaches: of the trace's cap, of the quotient's, then of the rounds'.
pub open spec fn reached(proof: StarkProof, chs: Seq<Ext>, felt: u64, q: int, cap_height: int, o: int) -> Seq<u64> {
    let lg = space_of(proof);
    let index = index_under(proof, felt);
    let top = (index / pow2((lg - cap_height) as nat)) as int;
    if o == 0 {
        proof.trace_commit@[top]@
    } else if o == 1 {
        proof.quotient_commit@[top]@
    } else {
        let r = o - 2;
        let at = index / pow2((r + 1) as nat);
        proof.opening.commits@[r]@[(at / pow2(s_cm_depth_at(r, lg, cap_height) as nat)) as int]@
    }
}

/// Each opening of an accepted query ends in the entry of its cap.
#[verifier::spinoff_prover]
#[verifier::rlimit(60)]
proof fn lemma_top_reached(
    air: MonolithAir,
    inner: InnerAir,
    proof: StarkProof,
    pvs: Seq<u64>,
    mode: WindowMode,
    chs: Seq<Ext>,
    felt: u64,
    q: int,
    d: QueryData,
    o: int,
)
    requires
        query_of(air, inner, proof, pvs, mode, chs, felt, q, d),
        query_opens(inner, proof, chs, felt, q, mode.cap_height as int),
        0 <= o < 2 + proof.opening.commits@.len(),
    ensures
        top_of(air, d, o) == reduced_digest(reached(proof, chs, felt, q, mode.cap_height as int, o)),
{
    let ch = mode.cap_height as int;
    let (lg, index) = (space_of(proof) as nat, index_under(proof, felt));
    let qp = proof.opening.queries@[q];
    lemma_dimensions(air, inner, proof, pvs, mode);
    lemma_preimages_are(air, inner, proof, pvs, mode, chs, felt, q, d);
    assert(query_shaped(qp, inner, proof, ch));
    let path = path_of(d, o);
    let leaf = leaf_hash(preimage_of(air, d, o));
    if o < 2 {
        assert(qp.input@[o].path@.len() == lg - ch);
        law_bits_climb(leaf, contents(qp.input@[o].path@), index, qp.input@[o].path@.len(), qp.input@[o].path@.len());
    } else {
        let r = o - 2;
        let steps = steps_under(chs, &proof.opening, q);
        lemma_steps_shaped(inner, proof, pvs, ch, chs, felt, q);
        lemma_pair_steps(steps, index, (r + 1) as nat);
        let at = chain_index(steps, index, (r + 1) as nat);
        let p = qp.openings@[r].path@;
        assert(p.len() == s_cm_depth_at(r, lg as int, ch));
        assert(round_opens(steps, d.ro, index, lg, ch, r));
        assert(air.s_commit_preimage(d, r) =~= d.commits@[r].group@);
        law_bits_climb(leaf, contents(p), at, p.len(), p.len());
    }
}

/// Where the window holds an entry of its own per cap, one entry serves every query.
pub open spec fn entries_shared(proof: StarkProof, mode: WindowMode) -> bool {
    mode.inner_counter || mode.symbolic || mode.cap_height == 0 || proof.opening.queries@.len() == 1
}

/// The entry that an opening of a query reaches stands in the window.
#[verifier::spinoff_prover]
#[verifier::rlimit(60)]
proof fn lemma_entry_in_window(
    air: MonolithAir,
    inner: InnerAir,
    proof: StarkProof,
    pvs: Seq<u64>,
    mode: WindowMode,
    chs: Seq<Ext>,
    felt: u64,
    q: int,
    d: QueryData,
    felts: Seq<u64>,
    o: int,
    k: int,
)
    requires
        query_of(air, inner, proof, pvs, mode, chs, felt, q, d),
        felts.len() == proof.opening.queries@.len(),
        felts[q] == felt,
        !mode.narrow_caps,
        entries_shared(proof, mode),
        0 <= o < 2 + proof.opening.commits@.len(),
        0 <= k < 4,
    ensures
        window_values(inner, proof, pvs, mode, chs, felts)[entry_at(air, d, o) + k] == reached(
            proof,
            chs,
            felt,
            q,
            mode.cap_height as int,
            o,
        )[k],
        reached(proof, chs, felt, q, mode.cap_height as int, o).len() == 4,
{
    let ch = mode.cap_height as int;
    let (lg, index) = (space_of(proof) as nat, index_under(proof, felt));
    lemma_dimensions(air, inner, proof, pvs, mode);
    air.lemma_bounds();
    law_window_caps(air, inner, proof, pvs, mode, chs, felts, k);
    lemma_steps_shaped(inner, proof, pvs, ch, chs, felt, q);
    lemma_steps_shaped(inner, proof, pvs, ch, chs, felts[0], 0);
    let depth = (lg - ch) as nat;
    vstd::arithmetic::power2::lemma_pow2_pos(depth);
    vstd::arithmetic::div_mod::lemma_div_pos_is_pos(index as int, pow2(depth) as int);
    let top = (index / pow2(depth)) as int;
    if o < 2 {
        lemma_residue_shift(felt as nat, lg, depth, ch as nat);
        assert(proof.trace_commit@[top]@.len() == 4);
        assert(proof.quotient_commit@[top]@.len() == 4);
    } else {
        lemma_commit_entry(air, inner, proof, pvs, mode, chs, felt, q, d, felts, o - 2, k);
    }
    if !air.s_full_cap() && mode.cap_height == 0 {
        vstd::arithmetic::power2::lemma2_to64();
        assert(index_under(proof, felts[0]) / pow2(depth) == 0);
        assert(index / pow2(depth) == 0);
    }
}

/// The entry of a commit round.
#[verifier::spinoff_prover]
#[verifier::rlimit(60)]
proof fn lemma_commit_entry(
    air: MonolithAir,
    inner: InnerAir,
    proof: StarkProof,
    pvs: Seq<u64>,
    mode: WindowMode,
    chs: Seq<Ext>,
    felt: u64,
    q: int,
    d: QueryData,
    felts: Seq<u64>,
    r: int,
    k: int,
)
    requires
        query_of(air, inner, proof, pvs, mode, chs, felt, q, d),
        felts.len() == proof.opening.queries@.len(),
        felts[q] == felt,
        !mode.narrow_caps,
        entries_shared(proof, mode),
        0 <= r < proof.opening.commits@.len(),
        0 <= k < 4,
    ensures
        window_values(inner, proof, pvs, mode, chs, felts)[entry_at(air, d, 2 + r) + k] == reached(
            proof,
            chs,
            felt,
            q,
            mode.cap_height as int,
            2 + r,
        )[k],
        reached(proof, chs, felt, q, mode.cap_height as int, 2 + r).len() == 4,
{
    let ch = mode.cap_height as int;
    let (lg, index) = (space_of(proof) as nat, index_under(proof, felt));
    let n = proof.opening.commits@.len();
    lemma_dimensions(air, inner, proof, pvs, mode);
    air.lemma_bounds();
    law_window_caps(air, inner, proof, pvs, mode, chs, felts, k);
    lemma_commit_parts_len(air, inner, proof, pvs, mode, felt, n);
    lemma_commit_parts_len(air, inner, proof, pvs, mode, felts[0], n);
    let depth = s_cm_depth_at(r, lg as int, ch) as nat;
    let bits = s_min(ch, lg - (r + 1)) as nat;
    let at = index / pow2((r + 1) as nat);
    let cap = proof.opening.commits@[r]@;
    assert(cap.len() > at / pow2(depth));
    assert(cap_ok(cap));
    vstd::arithmetic::power2::lemma_pow2_pos((r + 1) as nat);
    vstd::arithmetic::power2::lemma_pow2_pos(depth);
    vstd::arithmetic::div_mod::lemma_div_pos_is_pos(index as int, pow2((r + 1) as nat) as int);
    vstd::arithmetic::div_mod::lemma_div_pos_is_pos(at as int, pow2(depth) as int);
    let e = (at / pow2(depth)) as int;
    assert(cap[e]@.len() == 4);
    assert(at / pow2(depth) == index / pow2(((r + 1) + depth) as nat)) by {
        vstd::arithmetic::div_mod::lemma_div_denominator(
            index as int,
            pow2((r + 1) as nat) as int,
            pow2(depth) as int,
        );
        vstd::arithmetic::power2::lemma_pow2_adds((r + 1) as nat, depth);
    }
    lemma_residue_shift(felt as nat, lg, ((r + 1) + depth) as nat, bits);
    if air.s_full_cap() {
        let c = air.s_cap_opening(2 + r);
        lemma_cap_place(air, r);
        assert(c.shift == (r + 1) + depth && c.bits == bits && c.cbase == air.s_commit_cap_base(r));
        assert(proof.opening.commits@[r]@[e]@ == cap[e]@);
        assert(entry_at(air, d, 2 + r) + k == air.s_commit_cap_base(r) + 4 * e + k);
    } else {
        assert(proof.opening.commits@[r]@ == cap);
        if mode.cap_height == 0 {
            vstd::arithmetic::power2::lemma2_to64();
            assert(cap.len() == 1);
            assert(proof.opening.commits@[r]@.len() > (index_under(proof, felts[0]) / pow2((r + 1) as nat)) / pow2(depth));
        }
    }
}

/// The place of a round's cap, as the verifier holds it.
proof fn lemma_cap_place(air: MonolithAir, r: int)
    requires
        air.wf(),
        plain_rounds(air),
        !air.narrow_caps,
        air.s_full_cap(),
        0 <= r < air.s_cm_rounds(),
    ensures
        ({
            let c = air.s_cap_opening(2 + r);
            &&& c.shift == air.s_commit_shift(r)
            &&& c.bits == air.s_commit_bits(r)
            &&& c.cbase == air.s_commit_cap_base(r)
        }),
{
    air.lemma_bounds();
    air.lemma_caps_monotone(0, r);
    air.lemma_caps_monotone(r, air.s_cm_rounds());
}

/// Every opening of an accepted query ends in its entry of the window.
proof fn lemma_ends_in_window(
    air: MonolithAir,
    inner: InnerAir,
    proof: StarkProof,
    pvs: Seq<u64>,
    mode: WindowMode,
    chs: Seq<Ext>,
    felt: u64,
    q: int,
    d: QueryData,
    felts: Seq<u64>,
)
    requires
        query_of(air, inner, proof, pvs, mode, chs, felt, q, d),
        query_opens(inner, proof, chs, felt, q, mode.cap_height as int),
        felts.len() == proof.opening.queries@.len(),
        felts[q] == felt,
        !mode.narrow_caps,
        entries_shared(proof, mode),
    ensures
        ends_in_window(air, d, window_values(inner, proof, pvs, mode, chs, felts)),
{
    let w = window_values(inner, proof, pvs, mode, chs, felts);
    lemma_dimensions(air, inner, proof, pvs, mode);
    assert forall|o: int, k: int| 0 <= o < 2 + air.s_cm_rounds() && 0 <= k < 4 implies #[trigger] top_of(air, d, o)[k]
        == f_red(w[entry_at(air, d, o) + k] as int) by {
        lemma_top_reached(air, inner, proof, pvs, mode, chs, felt, q, d, o);
        lemma_entry_in_window(air, inner, proof, pvs, mode, chs, felt, q, d, felts, o, k);
    }
}

proof fn lemma_less_reduced(a: Ext, b: u64)
    ensures
        x_sub(x_red(a), x_base(f_red(b as int))) == x_sub(a, x_base(b)),
{
    lemma_difference_reduced(a, x_base(f_red(b as int)));
    vstd::arithmetic::div_mod::lemma_sub_mod_noop_right(a.c0 as int, b as int, MODULUS as int);
}

/// A term of a reduced opening, at power `power` of the challenge.
spec fn weighed(power: Ext, x: u64, t: OpeningTerm) -> Ext {
    x_mul(x_mul(power, x_sub(t.pz, x_base(t.px))), x_inv(x_sub(t.z, x_base(x))))
}

/// One term does not depend on the representatives.
proof fn lemma_weighed_same(power: Ext, x: u64, t: OpeningTerm)
    ensures
        weighed(power, x, OpeningTerm { z: x_red(t.z), pz: x_red(t.pz), px: f_red(t.px as int) }) == weighed(power, x, t),
{
    lemma_less_reduced(t.pz, t.px);
    lemma_difference_reduced(t.z, x_base(x));
}

/// One term more.
proof fn lemma_reduced_step(alpha: Ext, x: u64, terms: Seq<OpeningTerm>)
    requires
        terms.len() > 0,
    ensures
        reduced(alpha, x, terms) == x_add(
            reduced(alpha, x, terms.drop_last()),
            weighed(x_pow(alpha, (terms.len() - 1) as nat), x, terms.last()),
        ),
{
}

/// A sum is reduced.
proof fn lemma_sum_is_canonical(a: Ext, b: Ext)
    ensures
        x_red(x_add(a, b)) == x_add(a, b),
{
}

/// A reduced opening does not depend on the representatives of its terms, and is reduced.
proof fn lemma_reduced_same(alpha: Ext, x: u64, terms: Seq<OpeningTerm>)
    ensures
        reduced(x_red(alpha), x, reduced_terms(terms)) == reduced(alpha, x, terms),
        x_red(reduced(alpha, x, terms)) == reduced(alpha, x, terms),
    decreases terms.len(),
{
    if terms.len() > 0 {
        let k = (terms.len() - 1) as nat;
        let (t, rest) = (terms.last(), terms.drop_last());
        lemma_reduced_same(alpha, x, rest);
        assert(reduced_terms(terms).drop_last() =~= reduced_terms(rest));
        lemma_power_reduced(alpha, k);
        lemma_weighed_same(x_pow(alpha, k), x, t);
        lemma_reduced_step(alpha, x, terms);
        lemma_reduced_step(x_red(alpha), x, reduced_terms(terms));
        lemma_sum_is_canonical(reduced(alpha, x, rest), weighed(x_pow(alpha, k), x, t));
        assert(reduced_terms(terms).last() == (OpeningTerm {
            z: x_red(t.z),
            pz: x_red(t.pz),
            px: f_red(t.px as int),
        }));
    }
}

/// A query of an accepted proof's instance agrees with the window.
#[verifier::spinoff_prover]
#[verifier::rlimit(60)]
pub proof fn law_query_agrees(
    air: MonolithAir,
    inner: InnerAir,
    proof: StarkProof,
    pvs: Seq<u64>,
    mode: WindowMode,
    chs: Seq<Ext>,
    felt: u64,
    q: int,
    d: QueryData,
    felts: Seq<u64>,
)
    requires
        query_of(air, inner, proof, pvs, mode, chs, felt, q, d),
        query_opens(inner, proof, chs, felt, q, mode.cap_height as int),
        air.query_inverts(d),
        felts.len() == proof.opening.queries@.len(),
        felts[q] == felt,
        !mode.narrow_caps,
        !mode.narrow_arith,
        entries_shared(proof, mode),
    ensures
        query_agrees(air, q, d, chs[2], window_values(inner, proof, pvs, mode, chs, felts)),
{
    let w = window_values(inner, proof, pvs, mode, chs, felts);
    let (lg, index) = (space_of(proof) as nat, index_under(proof, felt));
    let n = proof.opening.commits@.len();
    lemma_dimensions(air, inner, proof, pvs, mode);
    law_window_layout(air, inner, proof, pvs, mode, chs, felts);
    lemma_ends_in_window(air, inner, proof, pvs, mode, chs, felt, q, d, felts);
    lemma_data_agrees(air, inner, proof, pvs, mode, chs, felt, q, d);
    law_deep_point_is_query_point(index, lg);
    lemma_reduced_same(chs[2], point_under(proof, felt), d.terms@);
    lemma_fold_is_chain(air, inner, proof, pvs, mode, chs, felt, q, d, n);
    assert(w[2 * air.s_nb() + q] == felts[q]);
    assert forall|r: int| 0 <= r < air.s_cm_rounds() implies f_mul(2, (#[trigger] d.rounds@[r]).point) != 0
        && d.rounds@[r].bit == (bit_at(f_red(d.felt as int) as nat % pow2(air.s_lg() as nat), r as nat) == 1) && x_red(
        d.rounds@[r].beta,
    ) == pair_at(w, 2 * air.s_ch_beta(r)) by {
        lemma_round_agrees(air, inner, proof, pvs, mode, chs, felt, q, d, felts, r);
    }
    let fp = proof.opening.final_poly@[0];
    assert(pair_at(w, 2 * air.s_nb() + air.s_ni()) == x_red(fp));
}

proof fn lemma_data_agrees(
    air: MonolithAir,
    inner: InnerAir,
    proof: StarkProof,
    pvs: Seq<u64>,
    mode: WindowMode,
    chs: Seq<Ext>,
    felt: u64,
    q: int,
    d: QueryData,
)
    requires
        query_of(air, inner, proof, pvs, mode, chs, felt, q, d),
    ensures
        data_agrees(air, d),
{
    lemma_dimensions(air, inner, proof, pvs, mode);
    lemma_query_terms(inner, proof, pvs, mode.cap_height as int, chs, q);
    assert forall|k: int| 0 <= k < air.s_cm_rounds() implies #[trigger] group_ordered(d, k) by {
        lemma_group_ordered(air, inner, proof, pvs, mode, chs, felt, q, d, k);
    }
    assert forall|c: int| 0 <= c < air.s_trm_committed_w() implies f_red(
        d.terms@[#[trigger] air.s_trm_next(c)].px as int,
    ) == f_red(d.terms@[air.s_trm_trace(c)].px as int) by {
        assert(d.terms@[inner.width + c].px == d.terms@[c].px);
    }
}

proof fn lemma_round_agrees(
    air: MonolithAir,
    inner: InnerAir,
    proof: StarkProof,
    pvs: Seq<u64>,
    mode: WindowMode,
    chs: Seq<Ext>,
    felt: u64,
    q: int,
    d: QueryData,
    felts: Seq<u64>,
    r: int,
)
    requires
        query_of(air, inner, proof, pvs, mode, chs, felt, q, d),
        air.query_inverts(d),
        felts.len() == proof.opening.queries@.len(),
        felts[q] == felt,
        0 <= r < proof.opening.commits@.len(),
    ensures
        f_mul(2, d.rounds@[r].point) != 0,
        d.rounds@[r].bit == (bit_at(f_red(d.felt as int) as nat % pow2(air.s_lg() as nat), r as nat) == 1),
        x_red(d.rounds@[r].beta) == pair_at(
            window_values(inner, proof, pvs, mode, chs, felts),
            2 * air.s_ch_beta(r),
        ),
{
    let w = window_values(inner, proof, pvs, mode, chs, felts);
    let index = index_under(proof, felt);
    let steps = steps_under(chs, &proof.opening, q);
    lemma_dimensions(air, inner, proof, pvs, mode);
    law_window_layout(air, inner, proof, pvs, mode, chs, felts);
    lemma_steps_shaped(inner, proof, pvs, mode.cap_height as int, chs, felt, q);
    lemma_pair_steps(steps, index, r as nat);
    assert(crate::fri::witness::is_pair_round(d.rounds@[r], steps, index, space_of(proof) as nat, r as nat));
    assert(w[2 * (3 + r)] == chs[3 + r].c0 && w[2 * (3 + r) + 1] == chs[3 + r].c1);
    assert(air.s_ch_beta(r) == 3 + r);
}

} // verus!
