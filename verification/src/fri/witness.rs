//! What a circuit needs to follow one query: the opening terms, the chain of folds and the Merkle paths.

use vstd::arithmetic::power2::pow2;
use vstd::prelude::*;

use crate::bits::shifted_one;
use crate::field::{is_unit, x_base, x_same, Ext};
use crate::fri::coset::is_coset;
use crate::fri::fold::{fold_points, fold_row, folded_row, law_pair_fold, opposite, pair_fold, points_of_fold};
use crate::fri::input::{
    claims, input_terms, log_height, matrix_terms, point_terms, query_point, query_x, reduced, BatchOpening,
    MatrixClaim, MatrixView, PointClaim, PointView, Round, RoundView,
};
use crate::fri::merkle::{climbed, contents};
use crate::fri::query::{
    fold_state, group, group_of, group_opens, lemma_order_monotone, order_ok, CommitStep, FriParams,
};
use crate::gadgets::fold::FoldRound;
use crate::gadgets::opening::{off_terms, OpeningTerm};
use crate::poseidon::{compressed, leaf_hash, leaf_hash_blocks};
use crate::transcript::{ext_felts, felts_of_exts};

verus! {

/// The logarithm of a round's arity.
pub open spec fn log_arity(step: CommitStep) -> nat {
    step.opening.log_arity as nat
}

/// How far the first `n` folds lower the height.
pub open spec fn chain_drop(steps: Seq<CommitStep>, n: nat) -> nat
    decreases n,
{
    if n == 0 {
        0
    } else {
        chain_drop(steps, (n - 1) as nat) + log_arity(steps[n - 1])
    }
}

/// The index after `n` folds.
pub open spec fn chain_index(steps: Seq<CommitStep>, index: nat, n: nat) -> nat
    decreases n,
{
    if n == 0 {
        index
    } else {
        chain_index(steps, index, (n - 1) as nat) / pow2(log_arity(steps[n - 1]))
    }
}

/// The group of round `r` around a running evaluation.
pub open spec fn chain_group(steps: Seq<CommitStep>, index: nat, eval: Ext, r: nat) -> Seq<Ext> {
    let arity = pow2(log_arity(steps[r as int]));
    group((chain_index(steps, index, r) % arity) as int, arity, eval, steps[r as int].opening.siblings@)
}

/// The evaluation after `n` folds, from the reduced opening on.
pub open spec fn chain_eval(steps: Seq<CommitStep>, ro: Ext, index: nat, log_global: nat, n: nat) -> Ext
    decreases n,
{
    if n == 0 {
        ro
    } else {
        let r = (n - 1) as nat;
        folded_row(
            chain_index(steps, index, n),
            (log_global - chain_drop(steps, n)) as nat,
            log_arity(steps[n - 1]),
            steps[n - 1].beta,
            chain_group(steps, index, chain_eval(steps, ro, index, log_global, r), r),
        )
    }
}

/// Every round has its siblings, and the folds stay within the domain.
pub open spec fn chain_ok(steps: Seq<CommitStep>, index: nat, log_global: nat) -> bool {
    &&& order_ok(log_global)
    &&& index < pow2(log_global)
    &&& chain_drop(steps, steps.len()) <= log_global
    &&& forall|r: int|
        0 <= r < steps.len() ==> (#[trigger] steps[r]).opening.siblings@.len() == pow2(log_arity(steps[r])) - 1
}

/// The folds lower the height step by step.
proof fn lemma_drop_monotone(steps: Seq<CommitStep>, m: nat, n: nat)
    requires
        m <= n,
    ensures
        chain_drop(steps, m) <= chain_drop(steps, n),
    decreases n,
{
    if m < n {
        lemma_drop_monotone(steps, m, (n - 1) as nat);
    }
}

/// An index below 2^(a + b), divided by 2^a, is below 2^b.
pub proof fn lemma_index_drops(index: nat, a: nat, b: nat)
    requires
        index < pow2(a + b),
    ensures
        index / pow2(a) < pow2(b),
{
    vstd::arithmetic::power2::lemma_pow2_adds(a, b);
    vstd::arithmetic::power2::lemma_pow2_pos(a);
    let (p, q) = (pow2(a), pow2(b));
    assert(index / p < q) by (nonlinear_arith)
        requires
            index < p * q,
            p > 0,
    ;
}

/// After every fold the index is within the folded domain.
pub proof fn lemma_index_bound(steps: Seq<CommitStep>, index: nat, log_global: nat, n: nat)
    requires
        index < pow2(log_global),
        n <= steps.len(),
        chain_drop(steps, n) <= log_global,
    ensures
        chain_index(steps, index, n) < pow2((log_global - chain_drop(steps, n)) as nat),
    decreases n,
{
    if n > 0 {
        lemma_index_bound(steps, index, log_global, (n - 1) as nat);
        let la = log_arity(steps[n - 1]);
        lemma_index_drops(
            chain_index(steps, index, (n - 1) as nat),
            la,
            (log_global - chain_drop(steps, n)) as nat,
        );
    }
}

/// The chain of folds of a query: per round its group, challenge, points, the slot of the running evaluation and
/// the fold.
pub fn general_fold_chain(steps: &Vec<CommitStep>, ro: Ext, index: usize, log_global: usize) -> (rounds: Vec<FoldRound>)
    requires
        chain_ok(steps@, index as nat, log_global as nat),
    ensures
        rounds@.len() == steps@.len(),
        forall|r: int|
            0 <= r < rounds@.len() ==> is_chain_round(
                #[trigger] rounds@[r],
                steps@,
                ro,
                index as nat,
                log_global as nat,
                r as nat,
            ),
        forall|r: int, i: int|
            0 <= r < rounds@.len() && 0 <= i < rounds@[r].xs@.len() ==> is_unit(#[trigger] rounds@[r].xs@[i]),
        forall|r: int|
            0 <= r < rounds@.len() ==> {
                &&& is_coset((#[trigger] rounds@[r]).xs@, log_arity(steps@[r]))
                &&& log_arity(steps@[r]) == 1 ==> opposite(rounds@[r].xs@)
            },
{
    let mut rounds: Vec<FoldRound> = Vec::new();
    let mut e: Ext = ro;
    let mut at: usize = index;
    let mut height: usize = log_global;
    let mut r: usize = 0;
    while r < steps.len()
        invariant
            r <= steps@.len(),
            chain_ok(steps@, index as nat, log_global as nat),
            at == chain_index(steps@, index as nat, r as nat),
            height + chain_drop(steps@, r as nat) == log_global,
            e == chain_eval(steps@, ro, index as nat, log_global as nat, r as nat),
            rounds@.len() == r,
            forall|k: int|
                0 <= k < r ==> is_chain_round(
                    #[trigger] rounds@[k],
                    steps@,
                    ro,
                    index as nat,
                    log_global as nat,
                    k as nat,
                ),
            forall|k: int, i: int| 0 <= k < r && 0 <= i < rounds@[k].xs@.len() ==> is_unit(#[trigger] rounds@[k].xs@[i]),
            forall|k: int|
                0 <= k < r ==> {
                    &&& is_coset((#[trigger] rounds@[k]).xs@, log_arity(steps@[k]))
                    &&& log_arity(steps@[k]) == 1 ==> opposite(rounds@[k].xs@)
                },
        decreases steps.len() - r,
    {
        let step: &CommitStep = &steps[r];
        let la: usize = step.opening.log_arity as usize;
        proof {
            lemma_drop_monotone(steps@, (r + 1) as nat, steps@.len());
            assert(steps@[r as int].opening.siblings@.len() == pow2(log_arity(steps@[r as int])) - 1);
            lemma_order_monotone(la as nat, log_global as nat);
            lemma_order_monotone((height - la) as nat, log_global as nat);
            lemma_index_bound(steps@, index as nat, log_global as nat, (r + 1) as nat);
            vstd::arithmetic::power2::lemma_pow2_pos(la as nat);
        }
        let arity: usize = shifted_one(la);
        let slot: usize = at % arity;
        let evals: Vec<Ext> = group_of(slot, arity, e, &step.opening.siblings);
        at = at / arity;
        height = height - la;
        let xs: Vec<u64> = points_of_fold(at, height, la);
        let folded: Ext = fold_row(at, height, la, step.beta, &evals);
        e = folded;
        rounds.push(FoldRound { evals, beta: step.beta, xs, slot, folded });
        r += 1;
    }
    rounds
}

/// Round `r` of a query's chain of folds.
pub open spec fn is_chain_round(
    f: FoldRound,
    steps: Seq<CommitStep>,
    ro: Ext,
    index: nat,
    log_global: nat,
    r: nat,
) -> bool {
    let la = log_arity(steps[r as int]);
    &&& f.evals@ == chain_group(steps, index, chain_eval(steps, ro, index, log_global, r), r)
    &&& f.beta == steps[r as int].beta
    &&& f.xs@ == fold_points(
        chain_index(steps, index, r + 1),
        (log_global - chain_drop(steps, r + 1)) as nat,
        la,
    )
    &&& f.slot == chain_index(steps, index, r) % pow2(la)
    &&& f.folded == chain_eval(steps, ro, index, log_global, r + 1)
}

/// The running evaluation stands in its slot of every group: the chain hands each fold on to the next group.
pub proof fn law_chain_hands_on(steps: Seq<CommitStep>, ro: Ext, index: nat, log_global: nat, r: nat)
    requires
        r < steps.len(),
    ensures
        chain_group(steps, index, chain_eval(steps, ro, index, log_global, r), r)[(chain_index(steps, index, r) % pow2(
            log_arity(steps[r as int]),
        )) as int] == chain_eval(steps, ro, index, log_global, r),
{
    vstd::arithmetic::power2::lemma_pow2_pos(log_arity(steps[r as int]));
}

/// Where a query with a single reduced opening is not refused, its evaluation, index and height are those of the
/// chain of folds.
pub proof fn law_chain_is_query(
    params: FriParams,
    steps: Seq<CommitStep>,
    ro: Ext,
    index: nat,
    log_global: nat,
    n: nat,
)
    requires
        n <= steps.len(),
        fold_state(params, steps, seq![(log_global as usize, ro)], index, log_global, n).error is None,
    ensures
        ({
            let st = fold_state(params, steps, seq![(log_global as usize, ro)], index, log_global, n);
            &&& st.eval == chain_eval(steps, ro, index, log_global, n)
            &&& st.index == chain_index(steps, index, n)
            &&& st.log_height + chain_drop(steps, n) == log_global
            &&& st.used == 1
        }),
    decreases n,
{
    if n > 0 {
        law_chain_is_query(params, steps, ro, index, log_global, (n - 1) as nat);
    }
}

/// A Merkle path for a circuit: the leaf's hash, the side of each sibling, and the cap's entry.
pub struct MerkleWitness {
    pub leaf: Vec<u64>,
    pub bits: Vec<bool>,
    pub cap_entry: Vec<u64>,
}

/// The sides of the siblings: the low bits of the index.
pub open spec fn path_bits(index: nat, depth: nat) -> Seq<bool> {
    Seq::new(depth, |l: int| (index / pow2(l as nat)) % 2 == 1)
}

/// The node that `n` siblings with their sides lead to.
pub open spec fn climbed_by_bits(leaf: Seq<u64>, path: Seq<Seq<u64>>, bits: Seq<bool>, n: nat) -> Seq<u64>
    decreases n,
{
    if n == 0 {
        leaf
    } else {
        let node = climbed_by_bits(leaf, path, bits, (n - 1) as nat);
        if bits[n - 1] {
            compressed(path[n - 1], node)
        } else {
            compressed(node, path[n - 1])
        }
    }
}

/// The low bits of the index are the sides of the siblings.
pub proof fn law_bits_climb(leaf: Seq<u64>, path: Seq<Seq<u64>>, index: nat, depth: nat, n: nat)
    requires
        n <= depth,
    ensures
        climbed_by_bits(leaf, path, path_bits(index, depth), n) == climbed(leaf, path, index, n),
    decreases n,
{
    if n > 0 {
        law_bits_climb(leaf, path, index, depth, (n - 1) as nat);
    }
}

/// The path of a row for a circuit.
pub fn merkle_witness(felts: &Vec<u64>, depth: usize, cap: &Vec<Vec<u64>>, index: usize) -> (r: MerkleWitness)
    requires
        index as nat / pow2(depth as nat) < cap@.len(),
    ensures
        r.leaf@ == leaf_hash(felts@),
        r.bits@ == path_bits(index as nat, depth as nat),
        r.cap_entry@ == cap@[(index as nat / pow2(depth as nat)) as int]@,
{
    let (_, leaf): (Vec<Vec<u64>>, Vec<u64>) = leaf_hash_blocks(felts);
    let mut bits: Vec<bool> = Vec::new();
    let mut at: usize = index;
    let mut l: usize = 0;
    proof {
        vstd::arithmetic::power2::lemma2_to64();
    }
    while l < depth
        invariant
            l <= depth,
            at == index as nat / pow2(l as nat),
            bits@ =~= path_bits(index as nat, depth as nat).take(l as int),
        decreases depth - l,
    {
        bits.push(at % 2 == 1);
        proof {
            vstd::arithmetic::power2::lemma_pow2_pos(l as nat);
            vstd::arithmetic::power2::lemma_pow2_unfold((l + 1) as nat);
            vstd::arithmetic::div_mod::lemma_div_denominator(index as int, pow2(l as nat) as int, 2);
            assert(pow2((l + 1) as nat) == pow2(l as nat) * 2);
        }
        at = at / 2;
        l += 1;
    }
    assert(bits@ =~= path_bits(index as nat, depth as nat));
    MerkleWitness { leaf, bits, cap_entry: crate::stark::verify::copy_felts(&cap[at]) }
}

/// The path of a query's trace row.
pub fn query_input_merkle(batch: &BatchOpening, cap: &Vec<Vec<u64>>, index: usize) -> (r: MerkleWitness)
    requires
        batch.rows@.len() > 0,
        index as nat / pow2(batch.path@.len()) < cap@.len(),
    ensures
        r.leaf@ == leaf_hash(batch.rows@[0]@),
        r.bits@ == path_bits(index as nat, batch.path@.len()),
        r.cap_entry@ == cap@[(index as nat / pow2(batch.path@.len())) as int]@,
{
    merkle_witness(&batch.rows[0], batch.path.len(), cap, index)
}

/// The path of a query's quotient row. The quotient may be committed at a lower height than the query space of
/// 2^log_global: what the path and the cap of 2^cap_height entries do not cover is dropped from the index.
pub fn query_quotient_merkle(
    batch: &BatchOpening,
    cap: &Vec<Vec<u64>>,
    index: usize,
    log_global: usize,
    cap_height: usize,
) -> (r: MerkleWitness)
    requires
        batch.rows@.len() > 0,
        cap@.len() == pow2(cap_height as nat),
        cap_height + batch.path@.len() <= log_global,
        order_ok(log_global as nat),
        index < pow2(log_global as nat),
    ensures
        ({
            let dropped = index as nat / pow2((log_global - cap_height - batch.path@.len()) as nat);
            &&& r.leaf@ == leaf_hash(batch.rows@[0]@)
            &&& r.bits@ == path_bits(dropped, batch.path@.len())
            &&& dropped / pow2(batch.path@.len()) < cap@.len()
            &&& r.cap_entry@ == cap@[(dropped / pow2(batch.path@.len())) as int]@
        }),
{
    let depth: usize = batch.path.len();
    let excess: usize = log_global - cap_height - depth;
    proof {
        lemma_order_monotone(excess as nat, log_global as nat);
        vstd::arithmetic::power2::lemma_pow2_pos(excess as nat);
        lemma_index_drops(index as nat, excess as nat, (cap_height + depth) as nat);
        lemma_index_drops(index as nat / pow2(excess as nat), depth as nat, cap_height as nat);
    }
    let dropped: usize = index / shifted_one(excess);
    merkle_witness(&batch.rows[0], depth, cap, dropped)
}

/// One commit round for a circuit: the group's coordinates and its path.
pub struct CommitWitness {
    pub group: Vec<u64>,
    pub merkle: MerkleWitness,
}

/// Round `r` of a query's commit phase, for a circuit.
pub open spec fn is_commit_round(
    w: CommitWitness,
    steps: Seq<CommitStep>,
    ro: Ext,
    index: nat,
    log_global: nat,
    r: nat,
) -> bool {
    let depth = steps[r as int].opening.path@.len();
    let at = chain_index(steps, index, r + 1);
    &&& w.group@ == ext_felts(chain_group(steps, index, chain_eval(steps, ro, index, log_global, r), r))
    &&& w.merkle.leaf@ == leaf_hash(w.group@)
    &&& w.merkle.bits@ == path_bits(at, depth)
    &&& w.merkle.cap_entry@ == steps[r as int].commit@[(at / pow2(depth)) as int]@
}

/// Every round's path ends inside its cap.
pub open spec fn caps_reach(steps: Seq<CommitStep>, index: nat) -> bool {
    forall|r: int|
        0 <= r < steps.len() ==> chain_index(steps, index, (r + 1) as nat) / pow2(
            (#[trigger] steps[r]).opening.path@.len(),
        ) < steps[r].commit@.len()
}

/// The commit-phase paths of a query, for all rounds.
pub fn query_commit_merkle_all(steps: &Vec<CommitStep>, ro: Ext, index: usize, log_global: usize) -> (out: Vec<
    CommitWitness,
>)
    requires
        chain_ok(steps@, index as nat, log_global as nat),
        caps_reach(steps@, index as nat),
    ensures
        out@.len() == steps@.len(),
        forall|r: int|
            0 <= r < out@.len() ==> is_commit_round(
                #[trigger] out@[r],
                steps@,
                ro,
                index as nat,
                log_global as nat,
                r as nat,
            ),
{
    let rounds: Vec<FoldRound> = general_fold_chain(steps, ro, index, log_global);
    let mut out: Vec<CommitWitness> = Vec::new();
    let mut at: usize = index;
    let mut r: usize = 0;
    while r < steps.len()
        invariant
            r <= steps@.len(),
            rounds@.len() == steps@.len(),
            chain_ok(steps@, index as nat, log_global as nat),
            caps_reach(steps@, index as nat),
            at == chain_index(steps@, index as nat, r as nat),
            forall|k: int|
                0 <= k < rounds@.len() ==> is_chain_round(
                    #[trigger] rounds@[k],
                    steps@,
                    ro,
                    index as nat,
                    log_global as nat,
                    k as nat,
                ),
            out@.len() == r,
            forall|k: int|
                0 <= k < r ==> is_commit_round(
                    #[trigger] out@[k],
                    steps@,
                    ro,
                    index as nat,
                    log_global as nat,
                    k as nat,
                ),
        decreases steps.len() - r,
    {
        let step: &CommitStep = &steps[r];
        let la: usize = step.opening.log_arity as usize;
        proof {
            lemma_drop_monotone(steps@, (r + 1) as nat, steps@.len());
            lemma_order_monotone(la as nat, log_global as nat);
            vstd::arithmetic::power2::lemma_pow2_pos(la as nat);
            assert(is_chain_round(rounds@[r as int], steps@, ro, index as nat, log_global as nat, r as nat));
            assert(chain_index(steps@, index as nat, (r + 1) as nat) / pow2(steps@[r as int].opening.path@.len())
                < steps@[r as int].commit@.len());
        }
        at = at / shifted_one(la);
        let group: Vec<u64> = felts_of_exts(&rounds[r].evals);
        let merkle: MerkleWitness = merkle_witness(&group, step.opening.path.len(), step.commit, at);
        out.push(CommitWitness { group, merkle });
        r += 1;
    }
    out
}

/// A commit round that opens gives a path that its sides lead up to the cap's entry.
pub proof fn law_commit_round_reaches_cap(
    cap_height: nat,
    w: CommitWitness,
    steps: Seq<CommitStep>,
    ro: Ext,
    index: nat,
    log_global: nat,
    r: nat,
)
    requires
        r < steps.len(),
        is_commit_round(w, steps, ro, index, log_global, r),
        group_opens(
            cap_height,
            contents(steps[r as int].commit@),
            (log_global - chain_drop(steps, r + 1)) as nat,
            chain_index(steps, index, r + 1),
            chain_group(steps, index, chain_eval(steps, ro, index, log_global, r), r),
            contents(steps[r as int].opening.path@),
        ),
    ensures
        climbed_by_bits(
            w.merkle.leaf@,
            contents(steps[r as int].opening.path@),
            w.merkle.bits@,
            steps[r as int].opening.path@.len(),
        ) == crate::fri::merkle::reduced_digest(w.merkle.cap_entry@),
{
    let depth = steps[r as int].opening.path@.len();
    let cap = steps[r as int].commit@;
    let top = chain_index(steps, index, r + 1) / pow2(depth);
    assert(contents(steps[r as int].opening.path@).len() == depth);
    vstd::arithmetic::power2::lemma_pow2_pos(depth);
    vstd::arithmetic::div_mod::lemma_div_pos_is_pos(
        chain_index(steps, index, r + 1) as int,
        pow2(depth) as int,
    );
    assert(contents(cap)[top as int] == cap[top as int]@);
    law_bits_climb(
        w.merkle.leaf@,
        contents(steps[r as int].opening.path@),
        chain_index(steps, index, r + 1),
        depth,
        depth,
    );
}

/// One fold of two for a circuit: the sibling, the challenge, whether the running evaluation comes second, and
/// the first point of the group.
#[derive(Clone, Copy)]
pub struct PairFold {
    pub sibling: Ext,
    pub beta: Ext,
    pub bit: bool,
    pub point: u64,
}

/// Round `k` of a query's chain of folds of two.
pub open spec fn is_pair_round(f: PairFold, steps: Seq<CommitStep>, index: nat, log_global: nat, k: nat) -> bool {
    let xs = fold_points(chain_index(steps, index, k + 1), (log_global - chain_drop(steps, k + 1)) as nat, 1);
    &&& f.sibling == steps[k as int].opening.siblings@[0]
    &&& f.beta == steps[k as int].beta
    &&& f.bit == (chain_index(steps, index, k) % 2 == 1)
    &&& f.point == xs[0]
    &&& is_unit(f.point)
    &&& opposite(xs)
}

/// The evaluation after `n` folds of two.
pub open spec fn fold_value(ro: Ext, rounds: Seq<PairFold>, n: nat) -> Ext
    decreases n,
{
    if n == 0 {
        ro
    } else {
        let e = fold_value(ro, rounds, (n - 1) as nat);
        let f = rounds[n - 1];
        if f.bit {
            pair_fold(f.sibling, e, f.beta, f.point)
        } else {
            pair_fold(e, f.sibling, f.beta, f.point)
        }
    }
}

/// The folds of two lead through the same evaluations as the interpolations of the chain.
pub proof fn law_pair_chain(
    rounds: Seq<PairFold>,
    steps: Seq<CommitStep>,
    ro: Ext,
    index: nat,
    log_global: nat,
    n: nat,
)
    requires
        n <= rounds.len() == steps.len(),
        chain_ok(steps, index, log_global),
        forall|k: int| 0 <= k < steps.len() ==> log_arity(#[trigger] steps[k]) == 1,
        forall|k: int| 0 <= k < rounds.len() ==> is_pair_round(#[trigger] rounds[k], steps, index, log_global, k as nat),
    ensures
        fold_value(ro, rounds, n) == chain_eval(steps, ro, index, log_global, n),
    decreases n,
{
    if n > 0 {
        let k = (n - 1) as nat;
        law_pair_chain(rounds, steps, ro, index, log_global, k);
        vstd::arithmetic::power2::lemma2_to64();
        let f = rounds[k as int];
        assert(is_pair_round(f, steps, index, log_global, k));
        assert(log_arity(steps[k as int]) == 1);
        assert(steps[k as int].opening.siblings@.len() == pow2(1) - 1);
        let e = chain_eval(steps, ro, index, log_global, k);
        let xs = fold_points(chain_index(steps, index, n), (log_global - chain_drop(steps, n)) as nat, 1);
        let evals = chain_group(steps, index, e, k);
        if f.bit {
            assert(evals =~= seq![f.sibling, e]);
            law_pair_fold(xs, f.sibling, e, f.beta);
        } else {
            assert(evals =~= seq![e, f.sibling]);
            law_pair_fold(xs, e, f.sibling, f.beta);
        }
    }
}

/// The chain of folds of two of a query, and its last evaluation.
pub fn query_fold_data(steps: &Vec<CommitStep>, ro: Ext, index: usize, log_global: usize) -> (r: (Vec<PairFold>, Ext))
    requires
        chain_ok(steps@, index as nat, log_global as nat),
        forall|k: int| 0 <= k < steps@.len() ==> log_arity(#[trigger] steps@[k]) == 1,
    ensures
        r.0@.len() == steps@.len(),
        forall|k: int|
            0 <= k < r.0@.len() ==> is_pair_round(#[trigger] r.0@[k], steps@, index as nat, log_global as nat, k as nat),
        r.1 == chain_eval(steps@, ro, index as nat, log_global as nat, steps@.len()),
        r.1 == fold_value(ro, r.0@, r.0@.len()),
{
    let rounds: Vec<FoldRound> = general_fold_chain(steps, ro, index, log_global);
    let mut out: Vec<PairFold> = Vec::new();
    let mut last: Ext = ro;
    let mut k: usize = 0;
    proof {
        vstd::arithmetic::power2::lemma2_to64();
    }
    while k < steps.len()
        invariant
            k <= steps@.len(),
            rounds@.len() == steps@.len(),
            pow2(1) == 2,
            chain_ok(steps@, index as nat, log_global as nat),
            forall|i: int| 0 <= i < steps@.len() ==> log_arity(#[trigger] steps@[i]) == 1,
            forall|i: int|
                0 <= i < rounds@.len() ==> is_chain_round(
                    #[trigger] rounds@[i],
                    steps@,
                    ro,
                    index as nat,
                    log_global as nat,
                    i as nat,
                ),
            last == chain_eval(steps@, ro, index as nat, log_global as nat, k as nat),
            out@.len() == k,
            forall|i: int|
                0 <= i < k ==> is_pair_round(#[trigger] out@[i], steps@, index as nat, log_global as nat, i as nat),
            forall|r: int, i: int|
                0 <= r < rounds@.len() && 0 <= i < rounds@[r].xs@.len() ==> is_unit(#[trigger] rounds@[r].xs@[i]),
            forall|r: int|
                0 <= r < rounds@.len() && log_arity(steps@[r]) == 1 ==> opposite((#[trigger] rounds@[r]).xs@),
        decreases steps.len() - k,
    {
        let f: &FoldRound = &rounds[k];
        proof {
            assert(is_chain_round(rounds@[k as int], steps@, ro, index as nat, log_global as nat, k as nat));
            assert(log_arity(steps@[k as int]) == 1);
            assert(steps@[k as int].opening.siblings@.len() == pow2(log_arity(steps@[k as int])) - 1);
        }
        out.push(PairFold { sibling: steps[k].opening.siblings[0], beta: f.beta, bit: f.slot == 1, point: f.xs[0] });
        last = f.folded;
        k += 1;
    }
    proof {
        law_pair_chain(out@, steps@, ro, index as nat, log_global as nat, steps@.len());
    }
    (out, last)
}

/// Every batch opens its matrices, and every row has the claimed number of values.
pub open spec fn rows_fit(input: Seq<BatchOpening>, coms: Seq<RoundView>) -> bool {
    &&& input.len() == coms.len()
    &&& forall|b: int|
        0 <= b < coms.len() ==> batch_fits((#[trigger] input[b]).rows@, coms[b].matrices)
}

pub open spec fn batch_fits(rows: Seq<Vec<u64>>, mats: Seq<MatrixView>) -> bool {
    &&& rows.len() == mats.len()
    &&& forall|m: int, i: int|
        0 <= m < mats.len() && 0 <= i < mats[m].points.len() ==> (#[trigger] mats[m].points[i]).values.len()
            == rows[m]@.len()
}

/// Append the terms of a matrix.
fn push_matrix_terms(out: &mut Vec<OpeningTerm>, row: &Vec<u64>, mat: &MatrixClaim)
    requires
        forall|i: int| 0 <= i < mat@.points.len() ==> (#[trigger] mat@.points[i]).values.len() == row@.len(),
    ensures
        final(out)@ == old(out)@ + matrix_terms(row@, mat@.points, mat@.points.len()),
{
    let ghost before = out@;
    let mut i: usize = 0;
    assert(before + matrix_terms(row@, mat@.points, 0) =~= before);
    while i < mat.points.len()
        invariant
            i <= mat.points@.len(),
            mat@.points.len() == mat.points@.len(),
            forall|k: int| 0 <= k < mat@.points.len() ==> (#[trigger] mat@.points[k]).values.len() == row@.len(),
            out@ == before + matrix_terms(row@, mat@.points, i as nat),
        decreases mat.points.len() - i,
    {
        let pt: &PointClaim = &mat.points[i];
        let ghost start = out@;
        let ghost fresh = point_terms(row@, pt@);
        assert(mat@.points[i as int] == pt@);
        let mut c: usize = 0;
        while c < row.len()
            invariant
                c <= row@.len(),
                pt.values@.len() == row@.len(),
                fresh == point_terms(row@, pt@),
                out@ =~= start + fresh.take(c as int),
            decreases row.len() - c,
        {
            out.push(OpeningTerm { z: pt.z, pz: pt.values[c], px: row[c] });
            c += 1;
        }
        assert(out@ =~= before + matrix_terms(row@, mat@.points, (i + 1) as nat));
        i += 1;
    }
}

/// The opening terms of a query at a height.
fn collect_terms(coms: &Vec<Round>, input: &Vec<BatchOpening>, log_blowup: usize, height: usize) -> (out: Vec<OpeningTerm>)
    requires
        rows_fit(input@, claims(coms@)),
    ensures
        out@ == input_terms(input@, claims(coms@), log_blowup, height as nat, coms@.len()),
{
    let ghost cv = claims(coms@);
    let mut out: Vec<OpeningTerm> = Vec::new();
    let mut b: usize = 0;
    while b < coms.len()
        invariant
            b <= coms@.len(),
            cv == claims(coms@),
            cv.len() == coms@.len(),
            rows_fit(input@, cv),
            out@ == input_terms(input@, cv, log_blowup, height as nat, b as nat),
        decreases coms.len() - b,
    {
        let ghost before = out@;
        let rows: &Vec<Vec<u64>> = &input[b].rows;
        let mats: &Vec<MatrixClaim> = &coms[b].matrices;
        let ghost mv = coms@[b as int]@.matrices;
        assert(cv[b as int] == coms@[b as int]@);
        assert(batch_fits(input@[b as int].rows@, mv));
        let mut m: usize = 0;
        assert(before + crate::fri::input::batch_terms(rows@, mv, log_blowup, height as nat, 0) =~= before);
        while m < mats.len()
            invariant
                m <= mats@.len(),
                b < coms@.len(),
                mats@ == coms@[b as int].matrices@,
                mv == coms@[b as int]@.matrices,
                mv.len() == mats@.len(),
                batch_fits(rows@, mv),
                out@ == before + crate::fri::input::batch_terms(rows@, mv, log_blowup, height as nat, m as nat),
            decreases mats.len() - m,
        {
            assert(mv[m as int] == mats@[m as int]@);
            if mats[m].log_size as u128 + log_blowup as u128 == height as u128 {
                push_matrix_terms(&mut out, &rows[m], &mats[m]);
            }
            assert(out@ =~= before + crate::fri::input::batch_terms(
                rows@,
                mv,
                log_blowup,
                height as nat,
                (m + 1) as nat,
            ));
            m += 1;
        }
        assert(out@ =~= input_terms(input@, cv, log_blowup, height as nat, (b + 1) as nat));
        b += 1;
    }
    out
}

/// The opening terms of a query at a height, the query point and the reduced opening; nothing where a term's
/// point is the query point.
pub fn query_terms(
    coms: &Vec<Round>,
    input: &Vec<BatchOpening>,
    log_blowup: usize,
    index: usize,
    log_global: usize,
    height: usize,
    alpha: Ext,
) -> (r: Option<(Vec<OpeningTerm>, u64, Ext)>)
    requires
        rows_fit(input@, claims(coms@)),
        height <= log_global,
        order_ok(log_global as nat),
    ensures
        ({
            let terms = input_terms(input@, claims(coms@), log_blowup, height as nat, coms@.len());
            let x = query_x(index as nat, log_global as nat, height as nat);
            &&& r is Some <==> off_terms(terms, x)
            &&& r matches Some(v) ==> v.0@ == terms && v.1 == x && v.2 == reduced(alpha, x, terms)
        }),
{
    let terms: Vec<OpeningTerm> = collect_terms(coms, input, log_blowup, height);
    let x: u64 = query_point(index, log_global, height);
    let mut pow: Ext = Ext::one();
    let mut ro: Ext = Ext::zero();
    let mut k: usize = 0;
    assert(terms@.take(0) =~= Seq::<OpeningTerm>::empty());
    while k < terms.len()
        invariant
            k <= terms@.len(),
            terms@ == input_terms(input@, claims(coms@), log_blowup, height as nat, coms@.len()),
            x == query_x(index as nat, log_global as nat, height as nat),
            off_terms(terms@.take(k as int), x),
            pow == crate::field::x_pow(alpha, k as nat),
            ro == reduced(alpha, x, terms@.take(k as int)),
        decreases terms.len() - k,
    {
        let t: OpeningTerm = terms[k];
        proof {
            assert(terms@.take(k + 1).drop_last() =~= terms@.take(k as int));
        }
        match t.z.minus(Ext::from_base(x)).inverse() {
            None => {
                assert(x_same(
                    crate::field::x_sub(terms@[k as int].z, x_base(x)),
                    crate::field::x_zero(),
                ));
                return None;
            },
            Some(inv) => {
                ro = ro.plus(pow.times(t.pz.minus(Ext::from_base(t.px))).times(inv));
                pow = pow.times(alpha);
            },
        }
        k += 1;
    }
    assert(terms@.take(k as int) =~= terms@);
    Some((terms, x, ro))
}

/// A column opened at two points shares its opened value: the terms of a matrix with two points of `row.len()`
/// values each agree in their queried values, column by column.
pub proof fn law_columns_share_value(row: Seq<u64>, pts: Seq<PointView>, c: int)
    requires
        pts.len() == 2,
        pts[0].values.len() == row.len(),
        pts[1].values.len() == row.len(),
        0 <= c < row.len(),
    ensures
        matrix_terms(row, pts, 2).len() == 2 * row.len(),
        matrix_terms(row, pts, 2)[c].px == matrix_terms(row, pts, 2)[row.len() + c].px,
        matrix_terms(row, pts, 2)[c].px == row[c],
{
    reveal_with_fuel(matrix_terms, 3);
}

} // verus!
