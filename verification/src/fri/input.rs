//! The input of a query: the committed rows, opened and reduced to one value per height.

use vstd::arithmetic::power2::pow2;
use vstd::prelude::*;

use crate::bits::{reverse_bits_len, rev_bits, shifted_one};
use crate::field::{
    exp_u64, f_mul, f_pow, fmul, two_adic_generator, two_adic_root, x_add, x_base, x_inv, x_mul, x_pow, x_same, x_sub,
    x_zero, Ext, GENERATOR,
};
use crate::fri::merkle::{batch_opens, cap_ok, contents, digests_ok, verify_batch};
use crate::gadgets::opening::OpeningTerm;
use crate::fri::query::{lemma_order_monotone, order_ok};

verus! {

/// The opened rows of one committed batch, with the path to its cap.
pub struct BatchOpening {
    pub rows: Vec<Vec<u64>>,
    pub path: Vec<Vec<u64>>,
}

/// The claimed values of a matrix's columns at a point.
pub struct PointClaim {
    pub z: Ext,
    pub values: Vec<Ext>,
}

/// What is claimed of one committed matrix: its domain's size and its values at points.
pub struct MatrixClaim {
    pub log_size: usize,
    pub points: Vec<PointClaim>,
}

/// A commitment and what is claimed of its matrices.
pub struct Round {
    pub commit: Vec<Vec<u64>>,
    pub matrices: Vec<MatrixClaim>,
}

/// The claim at a point, as mathematics.
#[verifier::ext_equal]
pub struct PointView {
    pub z: Ext,
    pub values: Seq<Ext>,
}

/// The claims on a matrix, as mathematics.
#[verifier::ext_equal]
pub struct MatrixView {
    pub log_size: usize,
    pub points: Seq<PointView>,
}

/// A commitment with its claims, as mathematics.
#[verifier::ext_equal]
pub struct RoundView {
    pub commit: Seq<Seq<u64>>,
    pub matrices: Seq<MatrixView>,
}

impl View for PointClaim {
    type V = PointView;

    open spec fn view(&self) -> PointView {
        PointView { z: self.z, values: self.values@ }
    }
}

impl View for MatrixClaim {
    type V = MatrixView;

    open spec fn view(&self) -> MatrixView {
        MatrixView {
            log_size: self.log_size,
            points: Seq::new(self.points@.len(), |i: int| self.points@[i]@),
        }
    }
}

impl View for Round {
    type V = RoundView;

    open spec fn view(&self) -> RoundView {
        RoundView {
            commit: contents(self.commit@),
            matrices: Seq::new(self.matrices@.len(), |i: int| self.matrices@[i]@),
        }
    }
}

/// The claims of a run of rounds.
pub open spec fn claims(coms: Seq<Round>) -> Seq<RoundView> {
    Seq::new(coms.len(), |b: int| coms[b]@)
}

/// Why a query's input is refused.
#[derive(Clone, Copy, Debug, PartialEq, Eq, Structural)]
pub enum InputError {
    BatchCount,
    MatrixCount,
    /// A matrix without an opening point.
    NoPoints,
    /// A batch does not open under its commitment.
    Merkle,
    EvalCount,
    /// An opening point is the query point.
    PointIsQuery,
    /// The reduced opening at the blowup height is not zero.
    NonzeroConstant,
}

/// The query point at a height: the coset shift times g^rev(index).
pub open spec fn query_x(index: nat, log_global: nat, height: nat) -> u64 {
    f_mul(
        GENERATOR,
        f_pow(two_adic_root(height), rev_bits(index / pow2((log_global - height) as nat), height)),
    )
}

/// The sum over the terms of alpha^k (pz - px) / (z - x).
pub open spec fn reduced(alpha: Ext, x: u64, terms: Seq<OpeningTerm>) -> Ext
    decreases terms.len(),
{
    if terms.len() == 0 {
        x_zero()
    } else {
        let t = terms.last();
        x_add(
            reduced(alpha, x, terms.drop_last()),
            x_mul(
                x_mul(x_pow(alpha, (terms.len() - 1) as nat), x_sub(t.pz, x_base(t.px))),
                x_inv(x_sub(t.z, x_base(x))),
            ),
        )
    }
}

/// The terms of one point.
pub open spec fn point_terms(row: Seq<u64>, pt: PointView) -> Seq<OpeningTerm> {
    Seq::new(pt.values.len(), |c: int| OpeningTerm { z: pt.z, pz: pt.values[c], px: row[c] })
}

/// The terms of a matrix's first `n` points.
pub open spec fn matrix_terms(row: Seq<u64>, pts: Seq<PointView>, n: nat) -> Seq<OpeningTerm>
    decreases n,
{
    if n == 0 {
        Seq::empty()
    } else {
        matrix_terms(row, pts, (n - 1) as nat) + point_terms(row, pts[n - 1])
    }
}

/// The logarithm of a committed matrix's height.
pub open spec fn log_height(m: MatrixView, log_blowup: usize) -> nat {
    (m.log_size + log_blowup) as nat
}

/// The terms of a batch's first `n` matrices at a height.
pub open spec fn batch_terms(
    rows: Seq<Vec<u64>>,
    mats: Seq<MatrixView>,
    log_blowup: usize,
    height: nat,
    n: nat,
) -> Seq<OpeningTerm>
    decreases n,
{
    if n == 0 {
        Seq::empty()
    } else {
        let before = batch_terms(rows, mats, log_blowup, height, (n - 1) as nat);
        if log_height(mats[n - 1], log_blowup) == height {
            before + matrix_terms(rows[n - 1]@, mats[n - 1].points, mats[n - 1].points.len())
        } else {
            before
        }
    }
}

/// The terms of the first `n` batches at a height.
pub open spec fn input_terms(
    input: Seq<BatchOpening>,
    coms: Seq<RoundView>,
    log_blowup: usize,
    height: nat,
    n: nat,
) -> Seq<OpeningTerm>
    decreases n,
{
    if n == 0 {
        Seq::empty()
    } else {
        input_terms(input, coms, log_blowup, height, (n - 1) as nat) + batch_terms(
            input[n - 1].rows@,
            coms[n - 1].matrices,
            log_blowup,
            height,
            coms[n - 1].matrices.len(),
        )
    }
}

/// One of the first `n` matrices stands at the height.
pub open spec fn batch_has(mats: Seq<MatrixView>, log_blowup: usize, height: nat, n: nat) -> bool
    decreases n,
{
    n > 0 && (log_height(mats[n - 1], log_blowup) == height || batch_has(mats, log_blowup, height, (n - 1) as nat))
}

/// A matrix of the first `n` batches stands at the height.
pub open spec fn input_has(coms: Seq<RoundView>, log_blowup: usize, height: nat, n: nat) -> bool
    decreases n,
{
    n > 0 && (input_has(coms, log_blowup, height, (n - 1) as nat) || batch_has(
        coms[n - 1].matrices,
        log_blowup,
        height,
        coms[n - 1].matrices.len(),
    ))
}

/// The first fault in a matrix's first `n` points.
pub open spec fn points_error(row: Seq<u64>, pts: Seq<PointView>, x: u64, n: nat) -> Option<InputError>
    decreases n,
{
    if n == 0 {
        None
    } else {
        let before = points_error(row, pts, x, (n - 1) as nat);
        if before is Some {
            before
        } else if row.len() != pts[n - 1].values.len() {
            Some(InputError::EvalCount)
        } else if x_same(pts[n - 1].z, x_base(x)) {
            Some(InputError::PointIsQuery)
        } else {
            None
        }
    }
}

/// The first fault in the claims on a batch's first `n` matrices.
pub open spec fn claims_error(
    rows: Seq<Vec<u64>>,
    mats: Seq<MatrixView>,
    log_blowup: usize,
    index: nat,
    log_global: nat,
    n: nat,
) -> Option<InputError>
    decreases n,
{
    if n == 0 {
        None
    } else {
        let before = claims_error(rows, mats, log_blowup, index, log_global, (n - 1) as nat);
        if before is Some {
            before
        } else {
            points_error(
                rows[n - 1]@,
                mats[n - 1].points,
                query_x(index, log_global, log_height(mats[n - 1], log_blowup)),
                mats[n - 1].points.len(),
            )
        }
    }
}

/// The tallest of the first `n` matrices.
pub open spec fn tallest(mats: Seq<MatrixView>, log_blowup: usize, n: nat) -> nat
    decreases n,
{
    if n == 0 {
        0
    } else {
        let before = tallest(mats, log_blowup, (n - 1) as nat);
        let h = log_height(mats[n - 1], log_blowup);
        if h > before {
            h
        } else {
            before
        }
    }
}

/// The claimed width and the height of each matrix of a batch.
pub open spec fn batch_dims(mats: Seq<MatrixView>, log_blowup: usize) -> Seq<(usize, usize)> {
    Seq::new(
        mats.len(),
        |i: int| (mats[i].points[0].values.len() as usize, pow2(log_height(mats[i], log_blowup)) as usize),
    )
}

/// The first fault of a batch.
pub open spec fn batch_error(
    cap_height: usize,
    log_blowup: usize,
    log_global: nat,
    index: nat,
    opening: BatchOpening,
    round: RoundView,
) -> Option<InputError> {
    let mats = round.matrices;
    if opening.rows@.len() != mats.len() {
        Some(InputError::MatrixCount)
    } else if exists|i: int| 0 <= i < mats.len() && (#[trigger] mats[i]).points.len() == 0 {
        Some(InputError::NoPoints)
    } else if !batch_opens(
        cap_height as nat,
        round.commit,
        batch_dims(mats, log_blowup),
        if mats.len() == 0 {
            0
        } else {
            index / pow2((log_global - tallest(mats, log_blowup, mats.len())) as nat)
        },
        contents(opening.rows@),
        contents(opening.path@),
    ) {
        Some(InputError::Merkle)
    } else {
        claims_error(opening.rows@, mats, log_blowup, index, log_global, mats.len())
    }
}

/// The first fault of the first `n` batches.
pub open spec fn batches_error(
    cap_height: usize,
    log_blowup: usize,
    log_global: nat,
    index: nat,
    input: Seq<BatchOpening>,
    coms: Seq<RoundView>,
    n: nat,
) -> Option<InputError>
    decreases n,
{
    if n == 0 {
        None
    } else {
        let before = batches_error(cap_height, log_blowup, log_global, index, input, coms, (n - 1) as nat);
        if before is Some {
            before
        } else {
            batch_error(cap_height, log_blowup, log_global, index, input[n - 1], coms[n - 1])
        }
    }
}

/// The reduced opening at a height.
pub open spec fn opening_at(
    log_blowup: usize,
    log_global: nat,
    index: nat,
    alpha: Ext,
    input: Seq<BatchOpening>,
    coms: Seq<RoundView>,
    height: nat,
) -> Ext {
    reduced(
        alpha,
        query_x(index, log_global, height),
        input_terms(input, coms, log_blowup, height, coms.len()),
    )
}

/// The reduced openings of the heights below `top`, tallest first.
pub open spec fn openings_below(
    log_blowup: usize,
    log_global: nat,
    index: nat,
    alpha: Ext,
    input: Seq<BatchOpening>,
    coms: Seq<RoundView>,
    top: nat,
) -> Seq<(usize, Ext)>
    decreases top,
{
    if top == 0 {
        Seq::empty()
    } else {
        let h = (top - 1) as nat;
        let rest = openings_below(log_blowup, log_global, index, alpha, input, coms, h);
        if input_has(coms, log_blowup, h, coms.len()) {
            seq![(h as usize, opening_at(log_blowup, log_global, index, alpha, input, coms, h))] + rest
        } else {
            rest
        }
    }
}

/// The verdict on a query's input: its reduced openings, tallest first, or why it is refused.
pub open spec fn input_result(
    cap_height: usize,
    log_blowup: usize,
    log_global: nat,
    index: nat,
    alpha: Ext,
    input: Seq<BatchOpening>,
    coms: Seq<RoundView>,
) -> Result<Seq<(usize, Ext)>, InputError> {
    if input.len() != coms.len() {
        Err(InputError::BatchCount)
    } else if let Some(e) = batches_error(cap_height, log_blowup, log_global, index, input, coms, coms.len()) {
        Err(e)
    } else if input_has(coms, log_blowup, log_blowup as nat, coms.len()) && !x_same(
        opening_at(log_blowup, log_global, index, alpha, input, coms, log_blowup as nat),
        x_zero(),
    ) {
        Err(InputError::NonzeroConstant)
    } else {
        Ok(openings_below(log_blowup, log_global, index, alpha, input, coms, log_global + 1))
    }
}

/// The caps of the commitments are well formed.
pub open spec fn rounds_ok(coms: Seq<Round>) -> bool {
    forall|b: int| 0 <= b < coms.len() ==> cap_ok((#[trigger] coms[b]).commit@)
}

/// No matrix is taller than the global height.
pub open spec fn coms_ok(coms: Seq<RoundView>, log_blowup: usize, log_global: nat) -> bool {
    forall|b: int| 0 <= b < coms.len() ==> matrices_ok((#[trigger] coms[b]).matrices, log_blowup, log_global)
}

pub open spec fn matrices_ok(mats: Seq<MatrixView>, log_blowup: usize, log_global: nat) -> bool {
    forall|m: int| 0 <= m < mats.len() ==> log_height(#[trigger] mats[m], log_blowup) <= log_global
}

/// The paths of an input are runs of digests.
pub open spec fn input_ok(input: Seq<BatchOpening>) -> bool {
    forall|b: int| 0 <= b < input.len() ==> digests_ok((#[trigger] input[b]).path@)
}

/// The accumulator of one height: a power of alpha and a sum, once a matrix stands at it.
pub open spec fn holds(
    acc: Option<(Ext, Ext)>,
    alpha: Ext,
    x: u64,
    seen: bool,
    terms: Seq<OpeningTerm>,
) -> bool {
    &&& acc is Some <==> seen
    &&& !seen ==> terms.len() == 0
    &&& acc matches Some(a) ==> a.0 == x_pow(alpha, terms.len()) && a.1 == reduced(alpha, x, terms)
}

/// The query point at a height.
pub fn query_point(index: usize, log_global: usize, height: usize) -> (x: u64)
    requires
        height <= log_global,
        order_ok(log_global as nat),
    ensures
        x == query_x(index as nat, log_global as nat, height as nat),
{
    proof {
        lemma_order_monotone(height as nat, log_global as nat);
        lemma_order_monotone((log_global - height) as nat, log_global as nat);
        vstd::arithmetic::power2::lemma_pow2_pos((log_global - height) as nat);
    }
    let rev: usize = reverse_bits_len(index / shifted_one(log_global - height), height);
    fmul(GENERATOR, exp_u64(two_adic_generator(height), rev as u64))
}

/// Take one matrix into its height's accumulator.
fn absorb_matrix(
    acc: (Ext, Ext),
    alpha: Ext,
    x: u64,
    row: &Vec<u64>,
    mat: &MatrixClaim,
    Ghost(before): Ghost<Seq<OpeningTerm>>,
) -> (r: Result<(Ext, Ext), InputError>)
    requires
        holds(Some(acc), alpha, x, true, before),
    ensures
        r matches Err(e) ==> points_error(row@, mat@.points, x, mat@.points.len()) == Some(e),
        r matches Ok(a) ==> points_error(row@, mat@.points, x, mat@.points.len()) is None && holds(
            Some(a),
            alpha,
            x,
            true,
            before + matrix_terms(row@, mat@.points, mat@.points.len()),
        ),
{
    let mut pow: Ext = acc.0;
    let mut sum: Ext = acc.1;
    let mut i: usize = 0;
    assert(before + matrix_terms(row@, mat@.points, 0) =~= before);
    while i < mat.points.len()
        invariant
            i <= mat@.points.len(),
            mat@.points.len() == mat.points@.len(),
            points_error(row@, mat@.points, x, i as nat) is None,
            holds(Some((pow, sum)), alpha, x, true, before + matrix_terms(row@, mat@.points, i as nat)),
        decreases mat.points.len() - i,
    {
        let pt: &PointClaim = &mat.points[i];
        proof {
            lemma_first_fault(row@, mat@.points, x, (i + 1) as nat, mat@.points.len());
            crate::field::lemma_same_iff_zero_difference(mat@.points[i as int].z, x_base(x));
        }
        if row.len() != pt.values.len() {
            return Err(InputError::EvalCount);
        }
        let quotient: Ext = match pt.z.minus(Ext::from_base(x)).inverse() {
            Some(v) => v,
            None => {
                return Err(InputError::PointIsQuery);
            },
        };
        let ghost start = before + matrix_terms(row@, mat@.points, i as nat);
        let ghost fresh = point_terms(row@, mat@.points[i as int]);
        let mut c: usize = 0;
        assert(start + fresh.take(0) =~= start);
        while c < row.len()
            invariant
                c <= row@.len(),
                row@.len() == pt.values@.len(),
                fresh == point_terms(row@, pt@),
                quotient == x_inv(x_sub(pt.z, x_base(x))),
                holds(Some((pow, sum)), alpha, x, true, start + fresh.take(c as int)),
            decreases row.len() - c,
        {
            sum = sum.plus(pow.times(pt.values[c].minus(Ext::from_base(row[c]))).times(quotient));
            pow = pow.times(alpha);
            proof {
                let terms = start + fresh.take(c + 1);
                assert(terms.drop_last() =~= start + fresh.take(c as int));
                assert(terms.last() == fresh[c as int]);
            }
            c += 1;
        }
        proof {
            assert(start + fresh.take(c as int) =~= before + matrix_terms(row@, mat@.points, (i + 1) as nat));
        }
        i += 1;
    }
    Ok((pow, sum))
}

/// The first fault stays the first.
proof fn lemma_first_fault(row: Seq<u64>, pts: Seq<PointView>, x: u64, m: nat, n: nat)
    requires
        m <= n,
    ensures
        points_error(row, pts, x, m) is Some ==> points_error(row, pts, x, n) == points_error(row, pts, x, m),
    decreases n,
{
    if m < n {
        lemma_first_fault(row, pts, x, m, (n - 1) as nat);
    }
}

proof fn lemma_first_claim_fault(
    rows: Seq<Vec<u64>>,
    mats: Seq<MatrixView>,
    log_blowup: usize,
    index: nat,
    log_global: nat,
    m: nat,
    n: nat,
)
    requires
        m <= n,
    ensures
        claims_error(rows, mats, log_blowup, index, log_global, m) is Some ==> claims_error(
            rows,
            mats,
            log_blowup,
            index,
            log_global,
            n,
        ) == claims_error(rows, mats, log_blowup, index, log_global, m),
    decreases n,
{
    if m < n {
        lemma_first_claim_fault(rows, mats, log_blowup, index, log_global, m, (n - 1) as nat);
    }
}

proof fn lemma_first_batch_fault(
    cap_height: usize,
    log_blowup: usize,
    log_global: nat,
    index: nat,
    input: Seq<BatchOpening>,
    coms: Seq<RoundView>,
    m: nat,
    n: nat,
)
    requires
        m <= n,
    ensures
        batches_error(cap_height, log_blowup, log_global, index, input, coms, m) is Some ==> batches_error(
            cap_height,
            log_blowup,
            log_global,
            index,
            input,
            coms,
            n,
        ) == batches_error(cap_height, log_blowup, log_global, index, input, coms, m),
    decreases n,
{
    if m < n {
        lemma_first_batch_fault(cap_height, log_blowup, log_global, index, input, coms, m, (n - 1) as nat);
    }
}

/// Whether a batch opens under its commitment, and if not, why.
fn check_batch(
    cap_height: usize,
    log_blowup: usize,
    log_global: usize,
    index: usize,
    opening: &BatchOpening,
    round: &Round,
) -> (error: Option<InputError>)
    requires
        cap_ok(round.commit@),
        matrices_ok(round@.matrices, log_blowup, log_global as nat),
        digests_ok(opening.path@),
        order_ok(log_global as nat),
    ensures
        error is Some ==> batch_error(cap_height, log_blowup, log_global as nat, index as nat, *opening, round@) == error,
        error is None ==> opening.rows@.len() == round.matrices@.len() && batch_error(
            cap_height,
            log_blowup,
            log_global as nat,
            index as nat,
            *opening,
            round@,
        ) == claims_error(
            opening.rows@,
            round@.matrices,
            log_blowup,
            index as nat,
            log_global as nat,
            round@.matrices.len(),
        ),
{
    let mats: &Vec<MatrixClaim> = &round.matrices;
    let ghost mv = round@.matrices;
    if opening.rows.len() != mats.len() {
        return Some(InputError::MatrixCount);
    }
    let mut dims: Vec<(usize, usize)> = Vec::new();
    let mut top: usize = 0;
    let mut m: usize = 0;
    while m < mats.len()
        invariant
            m <= mats@.len(),
            mats@ == round.matrices@,
            mv == round@.matrices,
            mv.len() == mats@.len(),
            opening.rows@.len() == mats@.len(),
            matrices_ok(mv, log_blowup, log_global as nat),
            order_ok(log_global as nat),
            top <= log_global,
            top == tallest(mv, log_blowup, m as nat),
            forall|i: int| 0 <= i < m ==> (#[trigger] mv[i]).points.len() > 0,
            dims@ =~= batch_dims(mv, log_blowup).take(m as int),
            forall|i: int| 0 <= i < m ==> exists|e: nat| (#[trigger] dims@[i]).1 == #[trigger] pow2(e),
        decreases mats.len() - m,
    {
        let mat: &MatrixClaim = &mats[m];
        if mat.points.len() == 0 {
            assert(mv[m as int].points.len() == 0);
            return Some(InputError::NoPoints);
        }
        assert(log_height(mv[m as int], log_blowup) <= log_global);
        let h: usize = mat.log_size + log_blowup;
        proof {
            lemma_order_monotone(h as nat, log_global as nat);
        }
        let height: usize = shifted_one(h);
        dims.push((mat.points[0].values.len(), height));
        assert(dims@[m as int].1 == pow2(h as nat));
        if h > top {
            top = h;
        }
        m += 1;
    }
    assert(dims@ =~= batch_dims(mv, log_blowup));
    proof {
        lemma_order_monotone((log_global - top) as nat, log_global as nat);
        vstd::arithmetic::power2::lemma_pow2_pos((log_global - top) as nat);
    }
    let at: usize = if mats.len() == 0 {
        0
    } else {
        index / shifted_one(log_global - top)
    };
    if !verify_batch(cap_height, &round.commit, &dims, at, &opening.rows, &opening.path) {
        return Some(InputError::Merkle);
    }
    None
}

/// The reduced openings of one query: every batch's rows have to open under its commitment; the terms of all
/// columns, points and matrices of a height are summed up under rising powers of alpha. The heights come back
/// tallest first; at the blowup height the polynomial is constant, and its reduced opening has to vanish.
pub fn open_input(
    params: &crate::fri::query::FriParams,
    log_global_max_height: usize,
    index: usize,
    input_proof: &Vec<BatchOpening>,
    alpha: Ext,
    coms: &Vec<Round>,
) -> (r: Result<Vec<(usize, Ext)>, InputError>)
    requires
        order_ok(log_global_max_height as nat),
        rounds_ok(coms@),
        coms_ok(claims(coms@), params.log_blowup, log_global_max_height as nat),
        input_ok(input_proof@),
    ensures
        r matches Ok(v) ==> input_result(
            params.cap_height,
            params.log_blowup,
            log_global_max_height as nat,
            index as nat,
            alpha,
            input_proof@,
            claims(coms@),
        ) == Ok::<Seq<(usize, Ext)>, InputError>(v@),
        r matches Err(e) ==> input_result(
            params.cap_height,
            params.log_blowup,
            log_global_max_height as nat,
            index as nat,
            alpha,
            input_proof@,
            claims(coms@),
        ) == Err::<Seq<(usize, Ext)>, InputError>(e),
{
    let ghost cv = claims(coms@);
    let log_global: usize = log_global_max_height;
    let blowup: usize = params.log_blowup;
    if input_proof.len() != coms.len() {
        return Err(InputError::BatchCount);
    }
    let mut acc: Vec<Option<(Ext, Ext)>> = Vec::new();
    let mut h: usize = 0;
    while h <= log_global
        invariant
            h <= log_global + 1,
            log_global <= 32,
            acc@.len() == h,
            forall|k: int| 0 <= k < h ==> #[trigger] acc@[k] == None::<(Ext, Ext)>,
        decreases log_global + 1 - h,
    {
        acc.push(None);
        h += 1;
    }
    let mut b: usize = 0;
    while b < coms.len()
        invariant
            b <= cv.len(),
            cv == claims(coms@),
            cv.len() == coms@.len(),
            input_proof@.len() == cv.len(),
            rounds_ok(coms@),
            order_ok(log_global as nat),
            blowup == params.log_blowup,
            coms_ok(cv, blowup, log_global as nat),
            input_ok(input_proof@),
            log_global == log_global_max_height,
            acc@.len() == log_global + 1,
            batches_error(params.cap_height, blowup, log_global as nat, index as nat, input_proof@, cv, b as nat) is None,
            forall|k: int|
                0 <= k <= log_global ==> holds(
                    #[trigger] acc@[k],
                    alpha,
                    query_x(index as nat, log_global as nat, k as nat),
                    input_has(cv, blowup, k as nat, b as nat),
                    input_terms(input_proof@, cv, blowup, k as nat, b as nat),
                ),
        decreases coms.len() - b,
    {
        let opening: &BatchOpening = &input_proof[b];
        let round: &Round = &coms[b];
        proof {
            assert(cap_ok(coms@[b as int].commit@));
            assert(digests_ok(input_proof@[b as int].path@));
            lemma_first_batch_fault(
                params.cap_height,
                blowup,
                log_global as nat,
                index as nat,
                input_proof@,
                cv,
                (b + 1) as nat,
                cv.len(),
            );
        }
        if let Some(e) = check_batch(params.cap_height, blowup, log_global, index, opening, round) {
            return Err(e);
        }
        let mats: &Vec<MatrixClaim> = &round.matrices;
        let ghost mv = round@.matrices;
        assert(round@ == cv[b as int]);
        assert(mv == cv[b as int].matrices);
        assert(matrices_ok(mv, blowup, log_global as nat));
        let mut m: usize = 0;
        assert forall|k: int| 0 <= k <= log_global implies holds(
            #[trigger] acc@[k],
            alpha,
            query_x(index as nat, log_global as nat, k as nat),
            input_has(cv, blowup, k as nat, b as nat) || batch_has(mv, blowup, k as nat, 0),
            input_terms(input_proof@, cv, blowup, k as nat, b as nat) + batch_terms(
                opening.rows@,
                mv,
                blowup,
                k as nat,
                0,
            ),
        ) by {
            assert(input_terms(input_proof@, cv, blowup, k as nat, b as nat) + batch_terms(
                opening.rows@,
                mv,
                blowup,
                k as nat,
                0,
            ) =~= input_terms(input_proof@, cv, blowup, k as nat, b as nat));
        }
        while m < mats.len()
            invariant
                m <= mats@.len(),
                b < cv.len(),
                cv == claims(coms@),
                cv.len() == coms@.len(),
                mats@ == round.matrices@,
                mv == round@.matrices,
                mv.len() == mats@.len(),
                *opening == input_proof@[b as int],
                round@ == cv[b as int],
                input_proof@.len() == cv.len(),
                opening.rows@.len() == mats@.len(),
                order_ok(log_global as nat),
                blowup == params.log_blowup,
                log_global == log_global_max_height,
                matrices_ok(mv, blowup, log_global as nat),
                acc@.len() == log_global + 1,
                batches_error(
                    params.cap_height,
                    blowup,
                    log_global as nat,
                    index as nat,
                    input_proof@,
                    cv,
                    b as nat,
                ) is None,
                batch_error(params.cap_height, blowup, log_global as nat, index as nat, *opening, round@)
                    == claims_error(opening.rows@, mv, blowup, index as nat, log_global as nat, mv.len()),
                batch_error(params.cap_height, blowup, log_global as nat, index as nat, *opening, round@) is Some ==>
                    batches_error(
                    params.cap_height,
                    blowup,
                    log_global as nat,
                    index as nat,
                    input_proof@,
                    cv,
                    cv.len(),
                ) == batch_error(params.cap_height, blowup, log_global as nat, index as nat, *opening, round@),
                claims_error(opening.rows@, mv, blowup, index as nat, log_global as nat, m as nat) is None,
                forall|k: int|
                    0 <= k <= log_global ==> holds(
                        #[trigger] acc@[k],
                        alpha,
                        query_x(index as nat, log_global as nat, k as nat),
                        input_has(cv, blowup, k as nat, b as nat) || batch_has(mv, blowup, k as nat, m as nat),
                        input_terms(input_proof@, cv, blowup, k as nat, b as nat) + batch_terms(
                            opening.rows@,
                            mv,
                            blowup,
                            k as nat,
                            m as nat,
                        ),
                    ),
            decreases mats.len() - m,
        {
            let mat: &MatrixClaim = &mats[m];
            assert(log_height(mv[m as int], blowup) <= log_global);
            let lh: usize = mat.log_size + blowup;
            let x: u64 = query_point(index, log_global, lh);
            let entry: (Ext, Ext) = match acc[lh] {
                Some(e) => e,
                None => (Ext::one(), Ext::zero()),
            };
            let ghost terms = input_terms(input_proof@, cv, blowup, lh as nat, b as nat) + batch_terms(
                opening.rows@,
                mv,
                blowup,
                lh as nat,
                m as nat,
            );
            proof {
                assert(holds(
                    acc@[lh as int],
                    alpha,
                    query_x(index as nat, log_global as nat, lh as nat),
                    input_has(cv, blowup, lh as nat, b as nat) || batch_has(mv, blowup, lh as nat, m as nat),
                    terms,
                ));
                lemma_first_claim_fault(
                    opening.rows@,
                    mv,
                    blowup,
                    index as nat,
                    log_global as nat,
                    (m + 1) as nat,
                    mv.len(),
                );
            }
            match absorb_matrix(entry, alpha, x, &opening.rows[m], mat, Ghost(terms)) {
                Err(e) => {
                    return Err(e);
                },
                Ok(next) => {
                    acc.set(lh, Some(next));
                    proof {
                        let k = lh as nat;
                        assert(terms + matrix_terms(opening.rows@[m as int]@, mat@.points, mat@.points.len())
                            =~= input_terms(input_proof@, cv, blowup, k, b as nat) + batch_terms(
                            opening.rows@,
                            mv,
                            blowup,
                            k,
                            (m + 1) as nat,
                        ));
                    }
                },
            }
            m += 1;
        }
        b += 1;
    }
    if blowup <= log_global {
        if let Some((_, ro)) = acc[blowup] {
            assert(holds(
                acc@[blowup as int],
                alpha,
                query_x(index as nat, log_global as nat, blowup as nat),
                input_has(cv, blowup, blowup as nat, b as nat),
                input_terms(input_proof@, cv, blowup, blowup as nat, b as nat),
            ));
            if !ro.same(Ext::zero()) {
                return Err(InputError::NonzeroConstant);
            }
        }
    } else {
        proof {
            lemma_no_taller(cv, blowup, log_global as nat, blowup as nat, cv.len());
        }
    }
    let mut out: Vec<(usize, Ext)> = Vec::new();
    let mut k: usize = log_global + 1;
    let ghost all = openings_below(
        blowup,
        log_global as nat,
        index as nat,
        alpha,
        input_proof@,
        cv,
        (log_global + 1) as nat,
    );
    assert(all =~= out@ + all);
    while k > 0
        invariant
            k <= log_global + 1,
            acc@.len() == log_global + 1,
            all == out@ + openings_below(
                blowup,
                log_global as nat,
                index as nat,
                alpha,
                input_proof@,
                cv,
                k as nat,
            ),
            forall|i: int|
                0 <= i <= log_global ==> holds(
                    #[trigger] acc@[i],
                    alpha,
                    query_x(index as nat, log_global as nat, i as nat),
                    input_has(cv, blowup, i as nat, cv.len()),
                    input_terms(input_proof@, cv, blowup, i as nat, cv.len()),
                ),
        decreases k,
    {
        k -= 1;
        let ghost rest = openings_below(
            blowup,
            log_global as nat,
            index as nat,
            alpha,
            input_proof@,
            cv,
            k as nat,
        );
        assert(holds(
            acc@[k as int],
            alpha,
            query_x(index as nat, log_global as nat, k as nat),
            input_has(cv, blowup, k as nat, cv.len()),
            input_terms(input_proof@, cv, blowup, k as nat, cv.len()),
        ));
        let ghost before = out@;
        if let Some((_, ro)) = acc[k] {
            out.push((k, ro));
            assert(before + (seq![(k, ro)] + rest) =~= out@ + rest);
        }
    }
    assert(out@ + Seq::<(usize, Ext)>::empty() =~= out@);
    Ok(out)
}

/// No matrix stands above the global height.
proof fn lemma_no_taller(coms: Seq<RoundView>, log_blowup: usize, log_global: nat, height: nat, n: nat)
    requires
        coms_ok(coms, log_blowup, log_global),
        height > log_global,
        n <= coms.len(),
    ensures
        !input_has(coms, log_blowup, height, n),
    decreases n,
{
    if n > 0 {
        lemma_no_taller(coms, log_blowup, log_global, height, (n - 1) as nat);
        assert(matrices_ok(coms[n - 1].matrices, log_blowup, log_global));
        lemma_batch_no_taller(coms[n - 1].matrices, log_blowup, log_global, height, coms[n - 1].matrices.len());
    }
}

proof fn lemma_batch_no_taller(mats: Seq<MatrixView>, log_blowup: usize, log_global: nat, height: nat, n: nat)
    requires
        matrices_ok(mats, log_blowup, log_global),
        height > log_global,
        n <= mats.len(),
    ensures
        !batch_has(mats, log_blowup, height, n),
    decreases n,
{
    if n > 0 {
        lemma_batch_no_taller(mats, log_blowup, log_global, height, (n - 1) as nat);
        assert(log_height(mats[n - 1], log_blowup) <= log_global);
    }
}

} // verus!
