//! Merkle openings of committed matrices.

use p3_commit::{BatchOpeningRef, Mmcs};
use p3_field::Field;
use p3_goldilocks::{default_goldilocks_poseidon2_8, Goldilocks, Poseidon2Goldilocks};
use p3_matrix::Dimensions;
use p3_merkle_tree::MerkleTreeMmcs;
use p3_symmetric::{MerkleCap, PaddingFreeSponge, TruncatedPermutation};
use vstd::arithmetic::power2::pow2;
use vstd::prelude::*;

use crate::bits::ceil_log2;
use crate::field::f_red;
use crate::poseidon::{compressed, leaf_hash};

verus! {

/// The contents of a run of vectors.
pub open spec fn contents<T>(vs: Seq<Vec<T>>) -> Seq<Seq<T>> {
    Seq::new(vs.len(), |i: int| vs[i]@)
}

/// A run of four-lane digests.
pub open spec fn digests_ok(ds: Seq<Vec<u64>>) -> bool {
    forall|i: int| 0 <= i < ds.len() ==> (#[trigger] ds[i])@.len() == 4
}

/// A cap: as many digests as a power of two.
pub open spec fn cap_ok(cap: Seq<Vec<u64>>) -> bool {
    &&& exists|e: nat| cap.len() == #[trigger] pow2(e)
    &&& digests_ok(cap)
}

/// The rows of a batch, one behind the other.
pub open spec fn joined(rows: Seq<Seq<u64>>) -> Seq<u64>
    decreases rows.len(),
{
    if rows.len() == 0 {
        Seq::empty()
    } else {
        joined(rows.drop_last()) + rows.last()
    }
}

/// The canonical representatives of a digest.
pub open spec fn reduced_digest(d: Seq<u64>) -> Seq<u64> {
    Seq::new(d.len(), |k: int| f_red(d[k] as int))
}

/// The node that `n` siblings lead to from a leaf: at each level the next bit of the index says on which side
/// the sibling stands.
pub open spec fn climbed(leaf: Seq<u64>, path: Seq<Seq<u64>>, index: nat, n: nat) -> Seq<u64>
    decreases n,
{
    if n == 0 {
        leaf
    } else {
        let node = climbed(leaf, path, index, (n - 1) as nat);
        let sibling = path[n - 1];
        if (index / pow2((n - 1) as nat)) % 2 == 0 {
            compressed(node, sibling)
        } else {
            compressed(sibling, node)
        }
    }
}

/// The length of a path to the cap from a leaf layer of 2^log_height nodes.
pub open spec fn path_depth(cap_height: nat, log_height: nat) -> nat {
    if cap_height < log_height {
        (log_height - cap_height) as nat
    } else {
        0
    }
}

/// Rows of the given widths, all of matrices of height 2^log_height, open under a cap: the path from the hash
/// of the joined rows leads to the cap's entry for the index.
pub open spec fn path_opens(
    cap_height: nat,
    cap: Seq<Seq<u64>>,
    dims: Seq<(usize, usize)>,
    log_height: nat,
    index: nat,
    rows: Seq<Seq<u64>>,
    path: Seq<Seq<u64>>,
) -> bool {
    let depth = path_depth(cap_height, log_height);
    let top = index / pow2(depth);
    &&& rows.len() == dims.len()
    &&& forall|i: int| 0 <= i < dims.len() ==> rows[i].len() == (#[trigger] dims[i]).0
    &&& path.len() == depth
    &&& index < pow2(log_height)
    &&& top < cap.len()
    &&& reduced_digest(cap[top as int]) == climbed(leaf_hash(joined(rows)), path, index, depth)
}

/// Whether all matrices of a batch have the same height, 2^(the logarithm of the first).
pub open spec fn level(dims: Seq<(usize, usize)>) -> bool {
    forall|i: int| 0 <= i < dims.len() ==> (#[trigger] dims[i]).1 == pow2(ceil_log2(dims[0].1 as nat))
}

/// Whether rows of matrices of several heights open under a cap.
pub uninterp spec fn mixed_opens(
    cap_height: nat,
    cap: Seq<Seq<u64>>,
    dims: Seq<(usize, usize)>,
    index: nat,
    rows: Seq<Seq<u64>>,
    path: Seq<Seq<u64>>,
) -> bool;

/// Whether the rows of a batch of matrices, given by width and height, open under a cap.
pub open spec fn batch_opens(
    cap_height: nat,
    cap: Seq<Seq<u64>>,
    dims: Seq<(usize, usize)>,
    index: nat,
    rows: Seq<Seq<u64>>,
    path: Seq<Seq<u64>>,
) -> bool {
    if dims.len() == 0 {
        false
    } else if level(dims) {
        path_opens(cap_height, cap, dims, ceil_log2(dims[0].1 as nat), index, rows, path)
    } else {
        mixed_opens(cap_height, cap, dims, index, rows, path)
    }
}

/// The tree that commitments are made with: a padding-free sponge at the leaves, a truncated permutation above.
type Tree = MerkleTreeMmcs<
    <Goldilocks as Field>::Packing,
    <Goldilocks as Field>::Packing,
    PaddingFreeSponge<Poseidon2Goldilocks<8>, 8, 4, 4>,
    TruncatedPermutation<Poseidon2Goldilocks<8>, 2, 4, 8>,
    2,
    4,
>;

/// The digests of a run.
pub open spec fn digests_of(ds: Seq<[u64; 4]>) -> Seq<Seq<u64>> {
    Seq::new(ds.len(), |i: int| ds[i]@)
}

/// `Mmcs::verify_batch` of `MerkleTreeMmcs` with binary nodes, the padding-free Poseidon2 sponge at the leaves and
/// the truncated permutation above. No matrix at all is refused. Where all matrices have one height, a power of
/// two, the rows open exactly if they have the claimed widths, the path has the length that the height and the
/// cap leave, the index is below the height, and the path leads from the hash of the joined rows to the cap's
/// entry. What it answers for matrices of several heights has a name and is not described.
#[verifier::external_body]
fn tree_verify_batch(
    cap_height: usize,
    cap: &Vec<[u64; 4]>,
    dims: &Vec<(usize, usize)>,
    index: usize,
    rows: &Vec<Vec<u64>>,
    path: &Vec<[u64; 4]>,
) -> (ok: bool)
    requires
        exists|e: nat| cap@.len() == #[trigger] pow2(e),
        forall|i: int| 0 <= i < dims@.len() ==> exists|e: nat| (#[trigger] dims@[i]).1 == #[trigger] pow2(e),
    ensures
        dims@.len() == 0 ==> !ok,
        dims@.len() > 0 && level(dims@) ==> ok == path_opens(
            cap_height as nat,
            digests_of(cap@),
            dims@,
            ceil_log2(dims@[0].1 as nat),
            index as nat,
            contents(rows@),
            digests_of(path@),
        ),
        dims@.len() > 0 && !level(dims@) ==> ok == mixed_opens(
            cap_height as nat,
            digests_of(cap@),
            dims@,
            index as nat,
            contents(rows@),
            digests_of(path@),
        ),
{
    let p = default_goldilocks_poseidon2_8();
    let tree = Tree::new(PaddingFreeSponge::new(p.clone()), TruncatedPermutation::new(p), cap_height);
    let digests = |v: &Vec<[u64; 4]>| v.iter().copied().map(Goldilocks::new_array).collect();
    let dims: Vec<_> = dims.iter().map(|&(width, height)| Dimensions { width, height }).collect();
    let rows: Vec<Vec<_>> = rows.iter().map(|r| r.iter().copied().map(Goldilocks::new).collect()).collect();
    tree.verify_batch(&MerkleCap::new(digests(cap)), &dims, index, BatchOpeningRef::new(&rows, &digests(path))).is_ok()
}

/// Digests as arrays.
fn as_digests(ds: &Vec<Vec<u64>>) -> (r: Vec<[u64; 4]>)
    requires
        digests_ok(ds@),
    ensures
        digests_of(r@) == contents(ds@),
        r@.len() == ds@.len(),
{
    let mut r: Vec<[u64; 4]> = Vec::new();
    let mut i: usize = 0;
    while i < ds.len()
        invariant
            i <= ds@.len(),
            digests_ok(ds@),
            r@.len() == i,
            forall|k: int| 0 <= k < i ==> (#[trigger] r@[k])@ == ds@[k]@,
        decreases ds.len() - i,
    {
        let d: &Vec<u64> = &ds[i];
        assert(ds@[i as int]@.len() == 4);
        let a: [u64; 4] = [d[0], d[1], d[2], d[3]];
        assert(a@ =~= d@);
        r.push(a);
        i += 1;
    }
    assert(digests_of(r@) =~= contents(ds@));
    r
}

/// Whether the rows of a batch of matrices open under a cap.
pub fn verify_batch(
    cap_height: usize,
    cap: &Vec<Vec<u64>>,
    dims: &Vec<(usize, usize)>,
    index: usize,
    rows: &Vec<Vec<u64>>,
    path: &Vec<Vec<u64>>,
) -> (ok: bool)
    requires
        cap_ok(cap@),
        digests_ok(path@),
        forall|i: int| 0 <= i < dims@.len() ==> exists|e: nat| (#[trigger] dims@[i]).1 == #[trigger] pow2(e),
    ensures
        ok == batch_opens(
            cap_height as nat,
            contents(cap@),
            dims@,
            index as nat,
            contents(rows@),
            contents(path@),
        ),
{
    let roots: Vec<[u64; 4]> = as_digests(cap);
    let siblings: Vec<[u64; 4]> = as_digests(path);
    tree_verify_batch(cap_height, &roots, dims, index, rows, &siblings)
}

} // verus!
