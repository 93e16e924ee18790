//! The reduced opening of several columns on its own: the queried row value of a column serves its term at
//! both points.

use vstd::prelude::*;

use crate::emit::{flat, lemma_flat_step};
use crate::expr::{
    constant, cur, minus, on_first, public, w2, w2_cur, w2_plus, w2_times, w2_zero, w_const, w_cur, w_minus, w_on_first,
    w_pub, Wire, Wire2,
};
use crate::field::{canonical, f_red, x_base, x_inv, x_same, x_sub, x_zero, Ext};
use crate::gadgets::fold::{coords, push_coords, repeat_row};
use crate::gadgets::ood::{challenge_power, w2_pub};

verus! {

/// Proves a reduced opening of `w` columns at two points and `n_quot` quotient columns at one.
pub struct MultiColReducedOpeningAir {
    pub w: usize,
    pub n_quot: usize,
}

impl MultiColReducedOpeningAir {
    pub open spec fn s_n_terms(&self) -> int {
        2 * self.w + self.n_quot
    }

    pub open spec fn s_trace_off(&self, k: int) -> int {
        self.w + 6 * k
    }

    pub open spec fn s_quot_off(&self, j: int) -> int {
        13 * self.w + 7 * j
    }

    pub open spec fn s_width(&self) -> int {
        13 * self.w + 7 * self.n_quot
    }

    /// There is a column, and the row can be counted.
    pub open spec fn wf(&self) -> bool {
        self.w >= 1 && self.s_width() <= usize::MAX
    }

    /// Terms of the reduced opening.
    pub fn n_terms(&self) -> (r: usize)
        requires
            self.s_n_terms() <= usize::MAX,
        ensures
            r == self.s_n_terms(),
    {
        2 * self.w + self.n_quot
    }

    /// Columns of trace term `k`: point, opening, inverse.
    pub fn trace_off(&self, k: usize) -> (r: usize)
        requires
            self.s_trace_off(k as int) <= usize::MAX,
        ensures
            r == self.s_trace_off(k as int),
    {
        self.w + k * 6
    }

    /// Columns of quotient term `j`: point, opening, inverse, queried value.
    pub fn quot_off(&self, j: usize) -> (r: usize)
        requires
            self.s_quot_off(j as int) <= usize::MAX,
        ensures
            r == self.s_quot_off(j as int),
    {
        self.w + 2 * self.w * 6 + j * 7
    }

    /// Width of the row.
    pub fn width(&self) -> (r: usize)
        requires
            self.s_width() <= usize::MAX,
        ensures
            r == self.s_width(),
    {
        self.w + 2 * self.w * 6 + self.n_quot * 7
    }

    /// The challenge, the reduced opening and the query point are public.
    pub fn num_public_values(&self) -> (r: usize)
        ensures
            r == 5,
    {
        5
    }

    /// First column of term `k`.
    pub open spec fn s_off(&self, k: int) -> int {
        if k < 2 * self.w {
            self.s_trace_off(k)
        } else {
            self.s_quot_off(k - 2 * self.w)
        }
    }

    /// The queried value of term `k`: the shared row value of a trace column, or the term's own.
    pub open spec fn s_px(&self, k: int) -> Wire {
        if k < 2 * self.w {
            w_cur(k % (self.w as int))
        } else {
            w_cur(self.s_quot_off(k - 2 * self.w) + 6)
        }
    }

    /// The witnessed inverse of term `k` inverts its distance from the query point.
    pub open spec fn s_check(&self, k: int) -> Seq<Wire> {
        let z = w2_cur(self.s_off(k));
        let chk = w2_times(w2_cur(self.s_off(k) + 4), w2(w_minus(z.a, w_pub(4)), z.b));
        seq![w_on_first(w_minus(chk.a, w_const(1))), w_on_first(chk.b)]
    }

    pub open spec fn f_check(&self) -> spec_fn(int) -> Seq<Wire> {
        |k: int| self.s_check(k)
    }

    /// Term `k`.
    pub open spec fn s_term(&self, k: int) -> Wire2 {
        let pz = w2_cur(self.s_off(k) + 2);
        w2_times(
            w2_times(challenge_power(w2_pub(0), k), w2(w_minus(pz.a, self.s_px(k)), pz.b)),
            w2_cur(self.s_off(k) + 4),
        )
    }

    /// The first `n` terms summed.
    pub open spec fn s_sum(&self, n: int) -> Wire2
        decreases n,
    {
        if n <= 0 {
            w2_zero()
        } else {
            w2_plus(self.s_sum(n - 1), self.s_term(n - 1))
        }
    }

    /// The constraints: every inverse is one, and the sum of the terms is public.
    pub open spec fn s_eval(&self) -> Seq<Wire> {
        let ro = self.s_sum(self.s_n_terms());
        flat(self.s_n_terms(), self.f_check()) + seq![
            w_on_first(w_minus(ro.a, w_pub(2))),
            w_on_first(w_minus(ro.b, w_pub(3))),
        ]
    }

    /// The constraint system.
    pub fn eval(&self) -> (out: Vec<Wire>)
        requires
            self.wf(),
        ensures
            out@ == self.s_eval(),
    {
        let mut out: Vec<Wire> = Vec::new();
        let ghost base = out@;
        let n: usize = self.n_terms();
        let alpha: Wire2 = Wire2::new(public(0), public(1));
        let x: Wire = public(4);
        let one: Wire = constant(1);
        let mut power: Wire2 = Wire2::new(constant(1), constant(0));
        let mut ro: Wire2 = Wire2::zero();
        let mut k: usize = 0;
        assert(out@ =~= base + flat(0, self.f_check()));
        while k < n
            invariant
                self.wf(),
                k <= n == self.s_n_terms(),
                alpha == w2_pub(0),
                x == w_pub(4),
                one == w_const(1),
                power == challenge_power(alpha, k as int),
                ro == self.s_sum(k as int),
                out@ == base + flat(k as int, self.f_check()),
            decreases n - k,
        {
            let ghost step = out@;
            let trace: bool = k < 2 * self.w;
            let off: usize = if trace {
                self.trace_off(k)
            } else {
                self.quot_off(k - 2 * self.w)
            };
            let px: Wire = if trace {
                cur(k % self.w)
            } else {
                cur(off + 6)
            };
            let z: Wire2 = Wire2::cur(off);
            let pz: Wire2 = Wire2::cur(off + 2);
            let inv: Wire2 = Wire2::cur(off + 4);
            let chk: Wire2 = inv.times(&Wire2::new(minus(&z.a, &x), z.b));
            out.push(on_first(&minus(&chk.a, &one)));
            out.push(on_first(&chk.b));
            let d: Wire2 = Wire2::new(minus(&pz.a, &px), pz.b);
            ro = ro.plus(&power.times(&d).times(&inv));
            power = power.times(&alpha);
            proof {
                assert(out@ =~= step + self.s_check(k as int));
                lemma_flat_step(base, k as int, self.f_check(), out@);
            }
            k += 1;
        }
        out.push(on_first(&minus(&ro.a, &public(2))));
        out.push(on_first(&minus(&ro.b, &public(3))));
        assert(out@ =~= self.s_eval());
        out
    }
}

/// One term of a reduced opening: the point, the opening there, and the queried value.
#[derive(Clone, Copy)]
pub struct OpeningTerm {
    pub z: Ext,
    pub pz: Ext,
    pub px: u64,
}

/// The query point is none of the opening points.
pub open spec fn off_terms(terms: Seq<OpeningTerm>, x: u64) -> bool {
    forall|k: int| 0 <= k < terms.len() ==> !x_same(x_sub((#[trigger] terms[k]).z, x_base(x)), x_zero())
}

/// The point, the opening and the inverse of a term.
pub open spec fn term_cells(t: OpeningTerm, x: u64) -> Seq<u64> {
    coords(t.z) + coords(t.pz) + coords(x_inv(x_sub(t.z, x_base(x))))
}

/// The cells of the trace terms before `n`, then of the quotient terms, each with its queried value.
pub open spec fn terms_cells(terms: Seq<OpeningTerm>, x: u64, w: int, n: int) -> Seq<u64>
    decreases n,
{
    if n <= 0 {
        Seq::empty()
    } else {
        terms_cells(terms, x, w, n - 1) + term_cells(terms[n - 1], x) + if n - 1 < 2 * w {
            Seq::empty()
        } else {
            seq![f_red(terms[n - 1].px as int)]
        }
    }
}

/// The row of a reduced opening: the shared row values, then the terms.
pub open spec fn opening_row(terms: Seq<OpeningTerm>, x: u64, w: nat) -> Seq<u64> {
    Seq::new(w, |c: int| f_red(terms[c].px as int)) + terms_cells(terms, x, w as int, terms.len() as int)
}

/// The trace of a reduced opening: sixteen copies of the shared row values and the terms.
pub fn build_multicol_ro_trace(w: usize, terms: &Vec<OpeningTerm>, x: u64) -> (t: Vec<Vec<u64>>)
    requires
        2 * w <= terms@.len(),
        off_terms(terms@, x),
    ensures
        t@.len() == 16,
        forall|r: int|
            0 <= r < 16 ==> (#[trigger] t@[r])@ == opening_row(terms@, x, w as nat),
{
    let mut row: Vec<u64> = Vec::new();
    let n: usize = terms.len();
    let mut c: usize = 0;
    while c < w
        invariant
            c <= w,
            2 * w <= terms@.len() == n,
            row@ =~= Seq::new(c as nat, |i: int| f_red(terms@[i].px as int)),
        decreases w - c,
    {
        row.push(canonical(terms[c].px));
        c += 1;
    }
    let ghost head = row@;
    let mut k: usize = 0;
    assert(row@ =~= head + terms_cells(terms@, x, w as int, 0));
    while k < n
        invariant
            k <= n == terms@.len(),
            2 * w <= n,
            off_terms(terms@, x),
            row@ == head + terms_cells(terms@, x, w as int, k as int),
        decreases n - k,
    {
        let term: OpeningTerm = terms[k];
        assert(!x_same(x_sub(terms@[k as int].z, x_base(x)), x_zero()));
        push_coords(&mut row, term.z);
        push_coords(&mut row, term.pz);
        match term.z.minus(Ext::from_base(x)).inverse() {
            Some(v) => push_coords(&mut row, v),
            None => assert(false),
        }
        if k >= 2 * w {
            row.push(canonical(term.px));
        }
        proof {
            assert(row@ =~= head + terms_cells(terms@, x, w as int, k + 1));
        }
        k += 1;
    }
    assert(row@ =~= opening_row(terms@, x, w as nat));
    repeat_row(&row, 16)
}

} // verus!
