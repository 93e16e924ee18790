//! The row of a built reduced opening satisfies the constraints exactly if the public value is the reduced opening.

use vstd::prelude::*;

use super::fold::coords;
use super::opening::{off_terms, opening_row, term_cells, terms_cells, MultiColReducedOpeningAir, OpeningTerm};
use crate::expr::Window;
use crate::field::{f_red, x_base, x_inv, x_mul, x_one, x_same, x_sub, x_zero};
use crate::fri::input::reduced;
use crate::monolith::heads::{lemma_difference_reduced, reduced_terms};
use crate::monolith::meaning::lemma_pair_cells;
use crate::prime::law_extension_is_a_field;
use crate::vanish::{pair_at, vanish};

verus! {

/// Where term `k` starts among the cells of the terms.
spec fn term_start(w: int, k: int) -> int {
    if k < 2 * w {
        6 * k
    } else {
        12 * w + 7 * (k - 2 * w)
    }
}

proof fn lemma_terms_cells_len(terms: Seq<OpeningTerm>, x: u64, w: int, n: int)
    requires
        0 <= n,
        0 <= w,
    ensures
        terms_cells(terms, x, w, n).len() == term_start(w, n),
    decreases n,
{
    if n > 0 {
        lemma_terms_cells_len(terms, x, w, n - 1);
    }
}

/// The cells of term `k`.
proof fn lemma_terms_cells(terms: Seq<OpeningTerm>, x: u64, w: int, n: int, k: int, j: int)
    requires
        0 <= k < n,
        0 <= w,
        0 <= j < 6 || j == 6 && k >= 2 * w,
    ensures
        terms_cells(terms, x, w, n)[term_start(w, k) + j] == (if j < 6 {
            term_cells(terms[k], x)[j]
        } else {
            f_red(terms[k].px as int)
        }),
    decreases n,
{
    lemma_terms_cells_len(terms, x, w, n - 1);
    if k < n - 1 {
        lemma_terms_cells(terms, x, w, n - 1, k, j);
    }
}

/// The terms of a column at its two points share the queried value.
pub open spec fn columns_shared(terms: Seq<OpeningTerm>, w: nat) -> bool {
    forall|c: int| 0 <= c < w ==> f_red((#[trigger] terms[w + c]).px as int) == f_red(terms[c].px as int)
}

/// An index below twice a width, modulo the width.
proof fn lemma_wrapped(k: int, w: int)
    requires
        0 <= k < 2 * w,
    ensures
        k % w == (if k < w {
            k
        } else {
            k - w
        }),
{
    if k < w {
        vstd::arithmetic::div_mod::lemma_small_mod(k as nat, w as nat);
    } else {
        vstd::arithmetic::div_mod::lemma_mod_add_multiples_vanish(k - w, w);
        vstd::arithmetic::div_mod::lemma_small_mod((k - w) as nat, w as nat);
    }
}

impl MultiColReducedOpeningAir {
    /// A cell of term `k` in the row.
    proof fn lemma_row_cell(&self, terms: Seq<OpeningTerm>, x: u64, k: int, j: int)
        requires
            self.wf(),
            terms.len() == self.s_n_terms(),
            0 <= k < self.s_n_terms(),
            0 <= j < 6 || j == 6 && k >= 2 * self.w,
        ensures
            opening_row(terms, x, self.w as nat)[self.s_off(k) + j] == (if j < 6 {
                term_cells(terms[k], x)[j]
            } else {
                f_red(terms[k].px as int)
            }),
    {
        let w = self.w as int;
        let head = Seq::new(w as nat, |c: int| f_red(terms[c].px as int));
        lemma_terms_cells_len(terms, x, w, terms.len() as int);
        lemma_terms_cells(terms, x, w, terms.len() as int, k, j);
        assert(self.s_off(k) + j == w + (term_start(w, k) + j));
        assert(term_start(w, k) + j < term_start(w, terms.len() as int));
        assert(opening_row(terms, x, w as nat)[w + (term_start(w, k) + j)] == terms_cells(
            terms,
            x,
            w,
            terms.len() as int,
        )[term_start(w, k) + j]);
    }

    /// What the constraints read of term `k`.
    #[verifier::spinoff_prover]
    #[verifier::rlimit(40)]
    proof fn lemma_row_term(&self, terms: Seq<OpeningTerm>, x: u64, k: int)
        requires
            self.wf(),
            terms.len() == self.s_n_terms(),
            off_terms(terms, x),
            columns_shared(terms, self.w as nat),
            0 <= k < self.s_n_terms(),
        ensures
            ({
                let row = opening_row(terms, x, self.w as nat);
                &&& self.row_terms(row, self.s_n_terms() as nat)[k] == reduced_terms(terms)[k]
                &&& x_mul(
                    pair_at(row, self.s_off(k) + 4),
                    x_sub(pair_at(row, self.s_off(k)), x_base(x)),
                ) == x_one()
            }),
    {
        let row = opening_row(terms, x, self.w as nat);
        let (t, at) = (terms[k], self.s_off(k));
        let d = x_sub(t.z, x_base(x));
        let inv = x_inv(d);
        self.lemma_row_cell(terms, x, k, 0);
        self.lemma_row_cell(terms, x, k, 1);
        self.lemma_row_cell(terms, x, k, 2);
        self.lemma_row_cell(terms, x, k, 3);
        self.lemma_row_cell(terms, x, k, 4);
        self.lemma_row_cell(terms, x, k, 5);
        assert(term_cells(t, x) =~= seq![
            coords(t.z)[0],
            coords(t.z)[1],
            coords(t.pz)[0],
            coords(t.pz)[1],
            coords(inv)[0],
            coords(inv)[1],
        ]);
        lemma_pair_cells(row, at, t.z);
        lemma_pair_cells(row, at + 2, t.pz);
        lemma_pair_cells(row, at + 4, inv);
        assert(f_red(f_red(t.px as int) as int) == f_red(t.px as int));
        let w = self.w as int;
        if k >= 2 * w {
            self.lemma_row_cell(terms, x, k, 6);
            assert(at + 6 == self.s_quot_off(k - 2 * w) + 6);
        } else {
            let c = k % w;
            lemma_wrapped(k, w);
            assert(row[c] == f_red(terms[c].px as int));
            if k >= w {
                assert(c == k - w);
                assert(f_red(terms[w + c].px as int) == f_red(terms[c].px as int));
            } else {
                assert(c == k);
            }
            assert(f_red(f_red(terms[c].px as int) as int) == f_red(terms[c].px as int));
        }
        assert(!x_same(x_sub(terms[k].z, x_base(x)), x_zero()));
        lemma_difference_reduced(t.z, x_base(x));
        law_extension_is_a_field(d);
    }

    /// On the first row of a built reduced opening, whose columns share their queried values, the constraints vanish
    /// exactly if the public value is the reduced opening of the terms at the public point under the public challenge.
    pub proof fn law_built_opening_reduces(&self, terms: Seq<OpeningTerm>, x: u64, w: Window)
        requires
            self.wf(),
            terms.len() == self.s_n_terms(),
            off_terms(terms, x),
            columns_shared(terms, self.w as nat),
            w.cur == opening_row(terms, x, self.w as nat),
            w.is_first == 1,
            f_red(w.publics[4] as int) == x,
        ensures
            vanish(self.s_eval(), w) <==> pair_at(w.publics, 2) == reduced(
                pair_at(w.publics, 0),
                x,
                reduced_terms(terms),
            ),
    {
        let n = self.s_n_terms() as nat;
        assert forall|k: int| 0 <= k < n implies self.row_terms(w.cur, n)[k] == #[trigger] reduced_terms(terms)[k] by {
            self.lemma_row_term(terms, x, k);
        }
        assert(self.row_terms(w.cur, n) =~= reduced_terms(terms));
        assert forall|k: int| 0 <= k < self.s_n_terms() implies x_mul(
            pair_at(w.cur, #[trigger] self.s_off(k) + 4),
            x_sub(pair_at(w.cur, self.s_off(k)), x_base(x)),
        ) == x_one() by {
            self.lemma_row_term(terms, x, k);
        }
        self.law_opening_is_reduced(w);
    }
}

} // verus!
