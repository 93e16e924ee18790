//! Folding a group of 2^la evaluations at a challenge by barycentric interpolation: one fold, and a chain of
//! folds of four.

use vstd::arithmetic::power2::pow2;
use vstd::prelude::*;

use crate::bits::{next_pow2, next_power_of_two, shifted_one};
use crate::emit::{flat, lemma_flat_step};
use crate::expr::{
    constant, cur, minus, nxt, on_first, on_transition, per, plus, public, times, w2, w2_cur, w2_plus, w2_times,
    w2_zero, w_const, w_cur, w_minus, w_nxt, w_on_first, w_on_transition, w_per, w_plus, w_pub, w_times, Wire, Wire2,
};
use crate::field::{
    canonical, exp_power_of_2, f_inv, f_mul, f_red, f_square_times, finv, fmul, x_base, x_inv, x_same, x_sub, x_zero,
    Ext,
};

verus! {

/// Where a fold row keeps its group: evaluations, challenge, points, inverses of challenge minus point, weight
/// scale.
pub struct FoldColumns {
    pub evals: usize,
    pub beta: usize,
    pub xs: usize,
    pub inv: usize,
    pub wscale: usize,
}

/// `x` squared `n` times over, as a wire.
pub open spec fn w_square_times(x: Wire, n: int) -> Wire
    decreases n,
{
    if n <= 0 {
        x
    } else {
        w_times(w_square_times(x, n - 1), w_square_times(x, n - 1))
    }
}

fn square_times(x: &Wire, n: usize) -> (r: Wire)
    ensures
        r == w_square_times(*x, n as int),
{
    let mut s: Wire = x.clone();
    let mut i: usize = 0;
    while i < n
        invariant
            i <= n,
            s == w_square_times(*x, i as int),
        decreases n - i,
    {
        s = times(&s, &s);
        i += 1;
    }
    s
}

impl FoldColumns {
    /// The columns of a group of `arity` exist.
    pub open spec fn fits(&self, arity: int) -> bool {
        &&& self.evals + 2 * arity <= usize::MAX
        &&& self.beta + 2 <= usize::MAX
        &&& self.xs + arity <= usize::MAX
        &&& self.inv + 2 * arity <= usize::MAX
    }

    /// The challenge less point `i`.
    pub open spec fn s_diff(&self, i: int) -> Wire2 {
        let beta = w2_cur(self.beta as int);
        w2(w_minus(beta.a, w_cur(self.xs + i)), beta.b)
    }

    /// The witnessed inverse of the challenge less point `i`, times what it inverts.
    pub open spec fn s_inverse_product(&self, i: int) -> Wire2 {
        w2_times(w2_cur(self.inv + 2 * i), self.s_diff(i))
    }

    /// The product of the first `n` differences.
    pub open spec fn s_vanishing(&self, n: int) -> Wire2
        decreases n,
    {
        if n <= 0 {
            w2(w_const(1), w_const(0))
        } else {
            w2_times(self.s_vanishing(n - 1), self.s_diff(n - 1))
        }
    }

    /// Evaluation `i` over its difference, times its weight.
    pub open spec fn s_weighted(&self, i: int) -> Wire2 {
        let scal = w_times(w_cur(self.xs + i), w_cur(self.wscale as int));
        let t = w2_times(w2_cur(self.evals + 2 * i), w2_cur(self.inv + 2 * i));
        w2(w_times(t.a, scal), w_times(t.b, scal))
    }

    /// The sum of the first `n` weighted evaluations.
    pub open spec fn s_weighted_sum(&self, n: int) -> Wire2
        decreases n,
    {
        if n <= 0 {
            w2_zero()
        } else {
            w2_plus(self.s_weighted_sum(n - 1), self.s_weighted(n - 1))
        }
    }

    /// The weight scale times the number that it inverts: the arity times the first point to the arity.
    pub open spec fn s_scale_product(&self, log_arity: int) -> Wire {
        w_times(
            w_cur(self.wscale as int),
            w_times(
                w_const(pow2(log_arity as nat) as u64),
                w_square_times(w_cur(self.xs as int), log_arity),
            ),
        )
    }

    /// The fold: the product of the differences times the weighted sum.
    pub open spec fn s_folded(&self, arity: int) -> Wire2 {
        w2_times(self.s_vanishing(arity), self.s_weighted_sum(arity))
    }

    pub fn diff(&self, i: usize) -> (r: Wire2)
        requires
            self.fits(i + 1),
        ensures
            r == self.s_diff(i as int),
    {
        let beta: Wire2 = Wire2::cur(self.beta);
        Wire2::new(minus(&beta.a, &cur(self.xs + i)), beta.b)
    }

    pub fn inverse_product(&self, i: usize) -> (r: Wire2)
        requires
            self.fits(i + 1),
        ensures
            r == self.s_inverse_product(i as int),
    {
        Wire2::cur(self.inv + 2 * i).times(&self.diff(i))
    }

    pub fn scale_product(&self, log_arity: usize) -> (r: Wire)
        requires
            pow2(log_arity as nat) <= usize::MAX,
        ensures
            r == self.s_scale_product(log_arity as int),
    {
        let arity: usize = shifted_one(log_arity);
        times(&cur(self.wscale), &times(&constant(arity as u64), &square_times(&cur(self.xs), log_arity)))
    }

    pub fn folded(&self, arity: usize) -> (r: Wire2)
        requires
            self.fits(arity as int),
        ensures
            r == self.s_folded(arity as int),
    {
        let mut lz: Wire2 = Wire2::new(constant(1), constant(0));
        let mut acc: Wire2 = Wire2::zero();
        let wscale: Wire = cur(self.wscale);
        let mut i: usize = 0;
        while i < arity
            invariant
                self.fits(arity as int),
                i <= arity,
                wscale == w_cur(self.wscale as int),
                lz == self.s_vanishing(i as int),
                acc == self.s_weighted_sum(i as int),
            decreases arity - i,
        {
            lz = lz.times(&self.diff(i));
            let scal: Wire = times(&cur(self.xs + i), &wscale);
            let t: Wire2 = Wire2::cur(self.evals + 2 * i).times(&Wire2::cur(self.inv + 2 * i));
            acc = acc.plus(&Wire2::new(times(&t.a, &scal), times(&t.b, &scal)));
            i += 1;
        }
        lz.times(&acc)
    }
}

/// Proves one fold of 2^log_arity evaluations.
pub struct GeneralFoldAir {
    pub log_arity: usize,
}

impl GeneralFoldAir {
    pub open spec fn s_arity(&self) -> int {
        pow2(self.log_arity as nat) as int
    }

    /// The row can be counted.
    pub open spec fn wf(&self) -> bool {
        5 * self.s_arity() + 5 <= usize::MAX
    }

    /// Evaluations in the group.
    pub fn arity(&self) -> (r: usize)
        requires
            self.s_arity() <= usize::MAX,
        ensures
            r == self.s_arity(),
    {
        shifted_one(self.log_arity)
    }

    /// Evaluation `i`.
    pub fn c_eval(&self, i: usize) -> (r: usize)
        requires
            2 * i <= usize::MAX,
        ensures
            r == 2 * i,
    {
        2 * i
    }

    /// The challenge.
    pub fn c_beta(&self) -> (r: usize)
        requires
            self.wf(),
        ensures
            r == 2 * self.s_arity(),
    {
        2 * self.arity()
    }

    /// Point `i`.
    pub fn c_xs(&self, i: usize) -> (r: usize)
        requires
            self.wf(),
            2 * self.s_arity() + 2 + i <= usize::MAX,
        ensures
            r == 2 * self.s_arity() + 2 + i,
    {
        2 * self.arity() + 2 + i
    }

    /// Inverse of the challenge less point `i`.
    pub fn c_inv(&self, i: usize) -> (r: usize)
        requires
            self.wf(),
            3 * self.s_arity() + 2 + 2 * i <= usize::MAX,
        ensures
            r == 3 * self.s_arity() + 2 + 2 * i,
    {
        3 * self.arity() + 2 + 2 * i
    }

    /// The weight scale.
    pub fn c_wscale(&self) -> (r: usize)
        requires
            self.wf(),
        ensures
            r == 5 * self.s_arity() + 2,
    {
        5 * self.arity() + 2
    }

    /// The folded value.
    pub fn c_folded(&self) -> (r: usize)
        requires
            self.wf(),
        ensures
            r == 5 * self.s_arity() + 3,
    {
        5 * self.arity() + 3
    }

    /// Width of the row.
    pub fn w(&self) -> (r: usize)
        requires
            self.wf(),
        ensures
            r == 5 * self.s_arity() + 5,
    {
        5 * self.arity() + 5
    }

    /// The folded value is public.
    pub fn num_public_values(&self) -> (r: usize)
        ensures
            r == 2,
    {
        2
    }

    pub open spec fn s_columns(&self) -> FoldColumns {
        let a = self.s_arity();
        FoldColumns {
            evals: 0,
            beta: (2 * a) as usize,
            xs: (2 * a + 2) as usize,
            inv: (3 * a + 2) as usize,
            wscale: (5 * a + 2) as usize,
        }
    }

    fn columns(&self) -> (r: FoldColumns)
        requires
            self.wf(),
        ensures
            r == self.s_columns(),
    {
        FoldColumns {
            evals: 0,
            beta: self.c_beta(),
            xs: self.c_xs(0),
            inv: self.c_inv(0),
            wscale: self.c_wscale(),
        }
    }

    /// Inverse `i` inverts the challenge less point `i`.
    pub open spec fn f_inverse(&self) -> spec_fn(int) -> Seq<Wire> {
        |i: int|
            {
                let chk = self.s_columns().s_inverse_product(i);
                seq![w_on_first(w_minus(chk.a, w_const(1))), w_on_first(chk.b)]
            }
    }

    /// The constraints: the inverses, the weight scale, the folded value, and its being public.
    pub open spec fn s_eval(&self) -> Seq<Wire> {
        let res = self.s_columns().s_folded(self.s_arity());
        let folded = 5 * self.s_arity() + 3;
        flat(self.s_arity(), self.f_inverse()) + seq![
            w_on_first(w_minus(self.s_columns().s_scale_product(self.log_arity as int), w_const(1))),
            w_on_first(w_minus(w_cur(folded), res.a)),
            w_on_first(w_minus(w_cur(folded + 1), res.b)),
            w_on_first(w_minus(w_cur(folded), w_pub(0))),
            w_on_first(w_minus(w_cur(folded + 1), w_pub(1))),
        ]
    }

    /// The constraint system.
    pub fn eval(&self) -> (out: Vec<Wire>)
        requires
            self.wf(),
        ensures
            out@ == self.s_eval(),
    {
        let mut out: Vec<Wire> = Vec::new();
        let ghost base = out@;
        let cols: FoldColumns = self.columns();
        let arity: usize = self.arity();
        let one: Wire = constant(1);
        let mut i: usize = 0;
        assert(out@ =~= base + flat(0, self.f_inverse()));
        while i < arity
            invariant
                self.wf(),
                cols == self.s_columns(),
                i <= arity == self.s_arity(),
                one == w_const(1),
                out@ == base + flat(i as int, self.f_inverse()),
            decreases arity - i,
        {
            let ghost step = out@;
            let chk: Wire2 = cols.inverse_product(i);
            out.push(on_first(&minus(&chk.a, &one)));
            out.push(on_first(&chk.b));
            proof {
                assert(out@ =~= step + (self.f_inverse())(i as int));
                lemma_flat_step(base, i as int, self.f_inverse(), out@);
            }
            i += 1;
        }
        let folded: usize = self.c_folded();
        let res: Wire2 = cols.folded(arity);
        out.push(on_first(&minus(&cols.scale_product(self.log_arity), &one)));
        out.push(on_first(&minus(&cur(folded), &res.a)));
        out.push(on_first(&minus(&cur(folded + 1), &res.b)));
        out.push(on_first(&minus(&cur(folded), &public(0))));
        out.push(on_first(&minus(&cur(folded + 1), &public(1))));
        assert(out@ =~= self.s_eval());
        out
    }
}

/// The two coordinates of an extension element.
pub open spec fn coords(x: Ext) -> Seq<u64> {
    seq![f_red(x.c0 as int), f_red(x.c1 as int)]
}

/// The coordinates of the first `n` elements.
pub open spec fn coord_pairs(xs: Seq<Ext>, n: int) -> Seq<u64>
    decreases n,
{
    if n <= 0 {
        Seq::empty()
    } else {
        coord_pairs(xs, n - 1) + coords(xs[n - 1])
    }
}

/// The coordinates of the inverses of `beta` less each of the first `n` points.
pub open spec fn inverse_pairs(beta: Ext, xs: Seq<u64>, n: int) -> Seq<u64>
    decreases n,
{
    if n <= 0 {
        Seq::empty()
    } else {
        inverse_pairs(beta, xs, n - 1) + coords(x_inv(x_sub(beta, x_base(xs[n - 1]))))
    }
}

/// The challenge differs from every point.
pub open spec fn off_points(beta: Ext, xs: Seq<u64>) -> bool {
    forall|i: int| 0 <= i < xs.len() ==> !x_same(x_sub(beta, x_base(#[trigger] xs[i])), x_zero())
}

/// Append the coordinates of `x`.
pub(crate) fn push_coords(row: &mut Vec<u64>, x: Ext)
    ensures
        final(row)@ == old(row)@ + coords(x),
{
    let ghost before = row@;
    row.push(canonical(x.c0));
    row.push(canonical(x.c1));
    assert(row@ =~= before + coords(x));
}

/// Append the coordinates of every element of `xs`.
pub(crate) fn push_pairs(row: &mut Vec<u64>, xs: &Vec<Ext>)
    ensures
        final(row)@ == old(row)@ + coord_pairs(xs@, xs@.len() as int),
{
    let ghost before = row@;
    let mut i: usize = 0;
    assert(row@ =~= before + coord_pairs(xs@, 0));
    while i < xs.len()
        invariant
            i <= xs@.len(),
            row@ == before + coord_pairs(xs@, i as int),
        decreases xs.len() - i,
    {
        push_coords(row, xs[i]);
        proof {
            assert(row@ =~= before + coord_pairs(xs@, i + 1));
        }
        i += 1;
    }
}

fn push_inverses(row: &mut Vec<u64>, beta: Ext, xs: &Vec<u64>)
    requires
        off_points(beta, xs@),
    ensures
        final(row)@ == old(row)@ + inverse_pairs(beta, xs@, xs@.len() as int),
{
    let ghost before = row@;
    let mut i: usize = 0;
    assert(row@ =~= before + inverse_pairs(beta, xs@, 0));
    while i < xs.len()
        invariant
            off_points(beta, xs@),
            i <= xs@.len(),
            row@ == before + inverse_pairs(beta, xs@, i as int),
        decreases xs.len() - i,
    {
        assert(!x_same(x_sub(beta, x_base(xs@[i as int])), x_zero()));
        match beta.minus(Ext::from_base(xs[i])).inverse() {
            Some(v) => push_coords(row, v),
            None => assert(false),
        }
        proof {
            assert(row@ =~= before + inverse_pairs(beta, xs@, i + 1));
        }
        i += 1;
    }
}

fn push_reduced(row: &mut Vec<u64>, xs: &Vec<u64>)
    ensures
        final(row)@ == old(row)@ + Seq::new(xs@.len(), |i: int| f_red(xs@[i] as int)),
{
    let ghost before = row@;
    let mut i: usize = 0;
    while i < xs.len()
        invariant
            i <= xs@.len(),
            row@ =~= before + Seq::new(i as nat, |k: int| f_red(xs@[k] as int)),
        decreases xs.len() - i,
    {
        row.push(canonical(xs[i]));
        i += 1;
    }
}

/// The number whose inverse scales the weights: the arity times the first point to the arity.
pub open spec fn scale_base(xs: Seq<u64>, log_arity: nat) -> u64 {
    f_mul(pow2(log_arity) as u64, f_square_times(xs[0], log_arity))
}

/// A row of a fold.
pub open spec fn fold_row_cells(
    evals: Seq<Ext>,
    beta: Ext,
    xs: Seq<u64>,
    folded: Ext,
    log_arity: nat,
) -> Seq<u64> {
    coord_pairs(evals, evals.len() as int) + coords(beta) + Seq::new(xs.len(), |i: int| f_red(xs[i] as int))
        + inverse_pairs(beta, xs, xs.len() as int) + seq![f_inv(scale_base(xs, log_arity))] + coords(folded)
}

fn scale_inverse(xs: &Vec<u64>, log_arity: usize) -> (r: u64)
    requires
        xs@.len() >= 1,
        pow2(log_arity as nat) <= usize::MAX,
        f_red(scale_base(xs@, log_arity as nat) as int) != 0,
    ensures
        r == f_inv(scale_base(xs@, log_arity as nat)),
{
    let arity: usize = shifted_one(log_arity);
    match finv(fmul(arity as u64, exp_power_of_2(xs[0], log_arity))) {
        Some(v) => v,
        None => {
            assert(false);
            0
        },
    }
}

/// `n` copies of a row.
pub(crate) fn repeat_row(row: &Vec<u64>, n: usize) -> (t: Vec<Vec<u64>>)
    ensures
        t@.len() == n,
        forall|r: int| 0 <= r < n ==> (#[trigger] t@[r])@ == row@,
{
    let mut t: Vec<Vec<u64>> = Vec::new();
    let mut i: usize = 0;
    while i < n
        invariant
            i <= n,
            t@.len() == i,
            forall|r: int| 0 <= r < i ==> (#[trigger] t@[r])@ == row@,
        decreases n - i,
    {
        let copy: Vec<u64> = row.clone();
        assert(copy@ =~= row@);
        t.push(copy);
        i += 1;
    }
    t
}

/// The trace of one fold: sixteen copies of its row.
pub fn build_general_fold_trace(log_arity: usize, evals: &Vec<Ext>, beta: Ext, xs: &Vec<u64>, folded: Ext) -> (t: Vec<
    Vec<u64>,
>)
    requires
        pow2(log_arity as nat) <= usize::MAX,
        evals@.len() == pow2(log_arity as nat),
        xs@.len() == pow2(log_arity as nat),
        off_points(beta, xs@),
        f_red(scale_base(xs@, log_arity as nat) as int) != 0,
    ensures
        t@.len() == 16,
        forall|r: int|
            0 <= r < 16 ==> (#[trigger] t@[r])@ == fold_row_cells(evals@, beta, xs@, folded, log_arity as nat),
{
    proof {
        vstd::arithmetic::power2::lemma_pow2_pos(log_arity as nat);
    }
    let mut row: Vec<u64> = Vec::new();
    push_pairs(&mut row, evals);
    push_coords(&mut row, beta);
    push_reduced(&mut row, xs);
    push_inverses(&mut row, beta, xs);
    row.push(scale_inverse(xs, log_arity));
    push_coords(&mut row, folded);
    assert(row@ =~= fold_row_cells(evals@, beta, xs@, folded, log_arity as nat));
    repeat_row(&row, 16)
}

/// Running value of the chain.
pub const A4_E: usize = 0;

/// The four evaluations.
pub const A4_EVALS: usize = 2;

/// The two slot bits.
pub const A4_B0: usize = 10;

pub const A4_B1: usize = 11;

/// The challenge.
pub const A4_BETA: usize = 12;

/// The four points.
pub const A4_XS: usize = 14;

/// The four inverses.
pub const A4_INV: usize = 18;

/// The weight scale.
pub const A4_WSCALE: usize = 26;

/// Width of a row of the chain.
pub const A4_W: usize = 27;

/// Proves a chain of folds of four from a public value to a public value.
pub struct Arity4FoldChainAir {
    pub n_rounds: usize,
}

/// One round of the chain: the four evaluations, the challenge, the four points, the slot of the running value
/// and the folded value.
pub struct FoldRound {
    pub evals: Vec<Ext>,
    pub beta: Ext,
    pub xs: Vec<u64>,
    pub slot: usize,
    pub folded: Ext,
}

/// The indicator of slot `j`.
pub open spec fn slot_selector(j: int) -> Wire {
    let one = w_const(1);
    let b0 = w_cur(A4_B0 as int);
    let b1 = w_cur(A4_B1 as int);
    if j == 0 {
        w_times(w_minus(one, b0), w_minus(one, b1))
    } else if j == 1 {
        w_times(b0, w_minus(one, b1))
    } else if j == 2 {
        w_times(w_minus(one, b0), b1)
    } else {
        w_times(b0, b1)
    }
}

/// The evaluation in the selected slot, over the first `n` slots.
pub open spec fn slotted(n: int) -> Wire2
    decreases n,
{
    if n <= 0 {
        w2_zero()
    } else {
        let e = w2_cur(A4_EVALS + 2 * (n - 1));
        let s = slot_selector(n - 1);
        w2(w_plus(slotted(n - 1).a, w_times(s, e.a)), w_plus(slotted(n - 1).b, w_times(s, e.b)))
    }
}

pub open spec fn chain_columns() -> FoldColumns {
    FoldColumns { evals: A4_EVALS, beta: A4_BETA, xs: A4_XS, inv: A4_INV, wscale: A4_WSCALE }
}

/// On a fold row, inverse `i` inverts the challenge less point `i`.
pub open spec fn f_chain_inverse() -> spec_fn(int) -> Seq<Wire> {
    |i: int|
        {
            let chk = chain_columns().s_inverse_product(i);
            seq![w_times(w_per(0), w_minus(chk.a, w_const(1))), w_times(w_per(0), chk.b)]
        }
}

impl Arity4FoldChainAir {
    pub open spec fn s_height(&self) -> int {
        let h = next_pow2((self.n_rounds + 1) as nat) as int;
        if h >= 2 {
            h
        } else {
            2
        }
    }

    pub open spec fn wf(&self) -> bool {
        self.s_height() <= usize::MAX && self.n_rounds < usize::MAX
    }

    /// Rows: one per round and one for the final value, padded to a power of two.
    pub fn height(&self) -> (r: usize)
        requires
            self.wf(),
        ensures
            r == self.s_height(),
    {
        let h: usize = next_power_of_two(self.n_rounds + 1);
        if h >= 2 {
            h
        } else {
            2
        }
    }

    pub fn width(&self) -> (r: usize)
        ensures
            r == 27,
    {
        A4_W
    }

    /// The first and last value of the chain are public.
    pub fn num_public_values(&self) -> (r: usize)
        ensures
            r == 4,
    {
        4
    }

    /// The fold rows, and the row of the final value.
    pub fn periodic(&self) -> (cols: Vec<Vec<u64>>)
        requires
            self.wf(),
        ensures
            cols@.len() == 2,
            cols@[0]@ == Seq::new(
                self.s_height() as nat,
                |r: int|
                    if r < self.n_rounds {
                        1u64
                    } else {
                        0u64
                    },
            ),
            cols@[1]@ == Seq::new(
                self.s_height() as nat,
                |r: int|
                    if r == self.n_rounds {
                        1u64
                    } else {
                        0u64
                    },
            ),
    {
        let h: usize = self.height();
        let mut fold: Vec<u64> = Vec::new();
        let mut fin: Vec<u64> = Vec::new();
        let mut r: usize = 0;
        while r < h
            invariant
                r <= h,
                fold@ =~= Seq::new(
                    r as nat,
                    |k: int|
                        if k < self.n_rounds {
                            1u64
                        } else {
                            0u64
                        },
                ),
                fin@ =~= Seq::new(
                    r as nat,
                    |k: int|
                        if k == self.n_rounds {
                            1u64
                        } else {
                            0u64
                        },
                ),
            decreases h - r,
        {
            fold.push(
                if r < self.n_rounds {
                    1
                } else {
                    0
                },
            );
            fin.push(
                if r == self.n_rounds {
                    1
                } else {
                    0
                },
            );
            r += 1;
        }
        let mut cols: Vec<Vec<u64>> = Vec::new();
        cols.push(fold);
        cols.push(fin);
        cols
    }

    /// The constraints: the chain starts at the public value, each fold row takes its running value from the
    /// selected slot and hands the fold of the group to the next row, and the chain ends at the public value.
    pub open spec fn s_eval(&self) -> Seq<Wire> {
        let on = w_per(0);
        let fin = w_per(1);
        let one = w_const(1);
        let b0 = w_cur(A4_B0 as int);
        let b1 = w_cur(A4_B1 as int);
        let res = chain_columns().s_folded(4);
        seq![
            w_on_first(w_minus(w_cur(0), w_pub(0))),
            w_on_first(w_minus(w_cur(1), w_pub(1))),
            w_times(on, w_times(b0, w_minus(one, b0))),
            w_times(on, w_times(b1, w_minus(one, b1))),
            w_times(on, w_minus(w_cur(0), slotted(4).a)),
            w_times(on, w_minus(w_cur(1), slotted(4).b)),
        ] + flat(4, f_chain_inverse()) + seq![
            w_times(on, w_minus(chain_columns().s_scale_product(2), one)),
            w_on_transition(w_times(on, w_minus(w_nxt(0), res.a))),
            w_on_transition(w_times(on, w_minus(w_nxt(1), res.b))),
            w_times(fin, w_minus(w_cur(0), w_pub(2))),
            w_times(fin, w_minus(w_cur(1), w_pub(3))),
        ]
    }

    /// The constraint system.
    pub fn eval(&self) -> (out: Vec<Wire>)
        ensures
            out@ == self.s_eval(),
    {
        proof {
            vstd::arithmetic::power2::lemma2_to64();
        }
        let mut out: Vec<Wire> = Vec::new();
        let on: Wire = per(0);
        let fin: Wire = per(1);
        let one: Wire = constant(1);
        let b0: Wire = cur(A4_B0);
        let b1: Wire = cur(A4_B1);
        let cols: FoldColumns = FoldColumns {
            evals: A4_EVALS,
            beta: A4_BETA,
            xs: A4_XS,
            inv: A4_INV,
            wscale: A4_WSCALE,
        };
        out.push(on_first(&minus(&cur(A4_E), &public(0))));
        out.push(on_first(&minus(&cur(A4_E + 1), &public(1))));
        out.push(times(&on, &times(&b0, &minus(&one, &b0))));
        out.push(times(&on, &times(&b1, &minus(&one, &b1))));
        let mut slot: Wire2 = Wire2::zero();
        let mut j: usize = 0;
        while j < 4
            invariant
                j <= 4,
                one == w_const(1),
                b0 == w_cur(A4_B0 as int),
                b1 == w_cur(A4_B1 as int),
                slot == slotted(j as int),
            decreases 4 - j,
        {
            let e: Wire2 = Wire2::cur(A4_EVALS + 2 * j);
            let s: Wire = if j == 0 {
                times(&minus(&one, &b0), &minus(&one, &b1))
            } else if j == 1 {
                times(&b0, &minus(&one, &b1))
            } else if j == 2 {
                times(&minus(&one, &b0), &b1)
            } else {
                times(&b0, &b1)
            };
            slot = Wire2::new(plus(&slot.a, &times(&s, &e.a)), plus(&slot.b, &times(&s, &e.b)));
            j += 1;
        }
        out.push(times(&on, &minus(&cur(A4_E), &slot.a)));
        out.push(times(&on, &minus(&cur(A4_E + 1), &slot.b)));
        let ghost base = out@;
        let mut i: usize = 0;
        assert(out@ =~= base + flat(0, f_chain_inverse()));
        while i < 4
            invariant
                i <= 4,
                cols == chain_columns(),
                one == w_const(1),
                on == w_per(0),
                out@ == base + flat(i as int, f_chain_inverse()),
            decreases 4 - i,
        {
            let ghost step = out@;
            let chk: Wire2 = cols.inverse_product(i);
            out.push(times(&on, &minus(&chk.a, &one)));
            out.push(times(&on, &chk.b));
            proof {
                assert(out@ =~= step + (f_chain_inverse())(i as int));
                lemma_flat_step(base, i as int, f_chain_inverse(), out@);
            }
            i += 1;
        }
        let res: Wire2 = cols.folded(4);
        out.push(times(&on, &minus(&cols.scale_product(2), &one)));
        out.push(on_transition(&times(&on, &minus(&nxt(A4_E), &res.a))));
        out.push(on_transition(&times(&on, &minus(&nxt(A4_E + 1), &res.b))));
        out.push(times(&fin, &minus(&cur(A4_E), &public(2))));
        out.push(times(&fin, &minus(&cur(A4_E + 1), &public(3))));
        assert(out@ =~= self.s_eval());
        out
    }
}

/// Row `r` of the chain: the running value, and on a fold row its group, slot bits and scale.
pub open spec fn chain_row(ro: Ext, rounds: Seq<FoldRound>, r: int) -> Seq<u64> {
    let e = if r == 0 {
        ro
    } else {
        rounds[r - 1].folded
    };
    if r < rounds.len() {
        let f = rounds[r];
        coords(e) + coord_pairs(f.evals@, f.evals@.len() as int) + seq![(f.slot % 2) as u64, ((f.slot / 2) % 2) as u64]
            + coords(f.beta) + Seq::new(f.xs@.len(), |i: int| f_red(f.xs@[i] as int)) + inverse_pairs(
            f.beta,
            f.xs@,
            f.xs@.len() as int,
        ) + seq![f_inv(scale_base(f.xs@, 2))]
    } else if r == rounds.len() {
        coords(e) + Seq::new(25, |i: int| 0u64)
    } else {
        Seq::new(27, |i: int| 0u64)
    }
}

/// A round of four whose inverses exist.
pub open spec fn round_ok(f: FoldRound) -> bool {
    &&& f.evals@.len() == 4
    &&& f.xs@.len() == 4
    &&& off_points(f.beta, f.xs@)
    &&& f_red(scale_base(f.xs@, 2) as int) != 0
}

fn push_zeros(row: &mut Vec<u64>, n: usize)
    ensures
        final(row)@ == old(row)@ + Seq::new(n as nat, |i: int| 0u64),
{
    let ghost before = row@;
    let mut i: usize = 0;
    while i < n
        invariant
            i <= n,
            row@ =~= before + Seq::new(i as nat, |k: int| 0u64),
        decreases n - i,
    {
        row.push(0);
        i += 1;
    }
}

/// The trace of a chain of folds from `ro` on.
pub fn build_arity4_fold_chain_trace(ro: Ext, rounds: &Vec<FoldRound>) -> (t: Vec<Vec<u64>>)
    requires
        (Arity4FoldChainAir { n_rounds: rounds@.len() as usize }).wf(),
        forall|r: int| 0 <= r < rounds@.len() ==> round_ok(#[trigger] rounds@[r]),
    ensures
        t@.len() == (Arity4FoldChainAir { n_rounds: rounds@.len() as usize }).s_height(),
        forall|r: int| 0 <= r < t@.len() ==> (#[trigger] t@[r])@ == chain_row(ro, rounds@, r),
{
    proof {
        vstd::arithmetic::power2::lemma2_to64();
    }
    let n: usize = rounds.len();
    let air: Arity4FoldChainAir = Arity4FoldChainAir { n_rounds: n };
    let h: usize = air.height();
    let mut t: Vec<Vec<u64>> = Vec::new();
    let mut r: usize = 0;
    while r < h
        invariant
            r <= h,
            n == rounds@.len(),
            pow2(2) == 4,
            forall|k: int| 0 <= k < rounds@.len() ==> round_ok(#[trigger] rounds@[k]),
            t@.len() == r,
            forall|k: int| 0 <= k < r ==> (#[trigger] t@[k])@ == chain_row(ro, rounds@, k),
        decreases h - r,
    {
        let mut row: Vec<u64> = Vec::new();
        if r <= n {
            let e: Ext = if r == 0 {
                ro
            } else {
                rounds[r - 1].folded
            };
            push_coords(&mut row, e);
        }
        if r < n {
            let f: &FoldRound = &rounds[r];
            assert(round_ok(rounds@[r as int]));
            push_pairs(&mut row, &f.evals);
            row.push((f.slot % 2) as u64);
            row.push(((f.slot / 2) % 2) as u64);
            push_coords(&mut row, f.beta);
            push_reduced(&mut row, &f.xs);
            push_inverses(&mut row, f.beta, &f.xs);
            row.push(scale_inverse(&f.xs, 2));
        } else if r == n {
            push_zeros(&mut row, 25);
        } else {
            push_zeros(&mut row, 27);
        }
        assert(row@ =~= chain_row(ro, rounds@, r as int));
        t.push(row);
        r += 1;
    }
    t
}

} // verus!
