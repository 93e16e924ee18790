//! The epilogues over whole rows: what a row and the public values spell, and what their constraints then ask.

use vstd::prelude::*;

use super::checks::{lemma_agree_first, lemma_power_value, lemma_public_value};
use super::ood::{
    agree_first, before_last, challenge_power, past_first, vanishing_at, w2_pub, GeneralEpilogueAir, LogupFoldCheckAir,
    SymbolicEpilogueAir,
};
use crate::expr::{
    law_plus_minus_value, law_times_value, value, value2, w2, w2_cur, w2_minus, w2_plus, w2_times, w_const, w_minus, w_pub,
    Window, Wire2,
};
use crate::field::{f_inv, f_red, two_adic_root, x_add, x_base, x_mul, x_one, x_pow, x_red, x_sub, Ext};
use crate::lookup::quotient::{folded_trees, lifted};
use crate::monolith::identity::{lemma_square_times_value, lemma_value2_canonical};
use crate::stark::domain::{last_point, selectors, vanishing};
use crate::stark::verify::folded_constraints;
use crate::symbolic::{carries, carries_lookup, NativeLookupView, NativeView};
use crate::vanish::{lemma_const_value, lemma_less_base, lemma_pair_value, pair_at, vanish};

verus! {

/// A run of cells holds elements, two cells each.
pub open spec fn holds(cells: Seq<u64>, xs: Seq<Ext>) -> bool {
    forall|k: int| 0 <= k < xs.len() ==> #[trigger] pair_at(cells, 2 * k) == x_red(xs[k])
}

proof fn lemma_holds_at(cells: Seq<u64>, xs: Seq<Ext>, k: int)
    requires
        holds(cells, xs),
        0 <= k < xs.len(),
    ensures
        pair_at(cells, 2 * k) == x_red(xs[k]),
{
}

impl LogupFoldCheckAir {
    /// What the trees read.
    pub open spec fn trees_read(&self, local: Seq<Ext>, next: Seq<Ext>, selectors: Seq<Ext>) -> NativeView {
        NativeView {
            local,
            next,
            pubs: Seq::empty(),
            periodic: Seq::empty(),
            is_first: selectors[0],
            is_last: selectors[1],
            is_trans: selectors[2],
        }
    }

    /// A row of the trace's row pair, the aux columns' row pair and the three selectors, one after the other, with the
    /// challenge, the lookup challenges, the terminal and a value as public values, is accepted exactly if the trees at
    /// these openings fold to that value.
    #[verifier::spinoff_prover]
    #[verifier::rlimit(40)]
    pub proof fn law_row_folds(
        &self,
        local: Seq<Ext>,
        next: Seq<Ext>,
        aux_local: Seq<Ext>,
        aux_next: Seq<Ext>,
        selectors: Seq<Ext>,
        alpha: Ext,
        challenges: Seq<Ext>,
        terminal: Ext,
        expected: Ext,
        w: Window,
    )
        requires
            self.wf(),
            w.is_first == 1,
            local.len() == self.w,
            next.len() == self.w,
            aux_local.len() == self.aux_w,
            aux_next.len() == self.aux_w,
            selectors.len() == 3,
            challenges.len() == self.n_lc,
            holds(w.cur, local + next + aux_local + aux_next + selectors),
            holds(w.publics, seq![alpha] + challenges + seq![terminal, expected]),
        ensures
            ({
                let o = self.trees_read(local, next, selectors);
                let l = NativeLookupView {
                    perm_local: aux_local,
                    perm_next: aux_next,
                    challenges,
                    perm_values: seq![terminal],
                };
                let a = x_red(alpha);
                vanish(self.s_eval(), w) <==> folded_trees(
                    self.ext@,
                    o,
                    l,
                    a,
                    folded_constraints(self.base@, o, a, self.base@.len()),
                    self.ext@.len(),
                ) == x_red(expected)
            }),
    {
        let o = self.trees_read(local, next, selectors);
        let l = NativeLookupView { perm_local: aux_local, perm_next: aux_next, challenges, perm_values: seq![terminal] };
        let row = local + next + aux_local + aux_next + selectors;
        let pubs = seq![alpha] + challenges + seq![terminal, expected];
        let (n, m, q) = (self.w as int, self.aux_w as int, self.n_lc as int);
        let (co, cl) = (self.s_view(), self.s_lookup_view());
        assert forall|c: int| 0 <= c < co.local.len() implies value2(#[trigger] co.local[c], w) == x_red(o.local[c]) by {
            lemma_holds_at(w.cur, row, c);
            lemma_pair_value(2 * c, w);
        }
        assert forall|c: int| 0 <= c < co.next.len() implies value2(#[trigger] co.next[c], w) == x_red(o.next[c]) by {
            lemma_holds_at(w.cur, row, n + c);
            lemma_pair_value(2 * (n + c), w);
        }
        assert forall|c: int| 0 <= c < cl.perm_local.len() implies value2(#[trigger] cl.perm_local[c], w) == x_red(
            l.perm_local[c],
        ) by {
            lemma_holds_at(w.cur, row, 2 * n + c);
            lemma_pair_value(2 * (2 * n + c), w);
        }
        assert forall|c: int| 0 <= c < cl.perm_next.len() implies value2(#[trigger] cl.perm_next[c], w) == x_red(
            l.perm_next[c],
        ) by {
            lemma_holds_at(w.cur, row, 2 * n + m + c);
            lemma_pair_value(2 * (2 * n + m + c), w);
        }
        assert forall|c: int| 0 <= c < cl.challenges.len() implies value2(#[trigger] cl.challenges[c], w) == x_red(
            l.challenges[c],
        ) by {
            lemma_holds_at(w.publics, pubs, 1 + c);
            lemma_public_value(2 * (1 + c), w);
        }
        let s = 2 * n + 2 * m;
        lemma_holds_at(w.cur, row, s);
        lemma_holds_at(w.cur, row, s + 1);
        lemma_holds_at(w.cur, row, s + 2);
        lemma_pair_value(2 * s, w);
        lemma_pair_value(2 * (s + 1), w);
        lemma_pair_value(2 * (s + 2), w);
        lemma_holds_at(w.publics, pubs, 0);
        lemma_holds_at(w.publics, pubs, 1 + q);
        lemma_holds_at(w.publics, pubs, 2 + q);
        lemma_public_value(2 * (1 + q), w);
        assert(carries(co, o, w));
        assert(carries_lookup(cl, l, w));
        self.law_fold_is_checked(o, l, w);
    }
}

impl SymbolicEpilogueAir {
    /// A row of the opened row pair, the quotient, the two selectors and the inverse of the vanishing polynomial, one after the
    /// other, with the point, the challenge, the public values and the periodic values as public values, is accepted
    /// exactly if the selectors satisfy their equations at the point and the constraints at these openings, folded and
    /// taken over the vanishing polynomial, are the quotient.
    #[verifier::spinoff_prover]
    #[verifier::rlimit(40)]
    pub proof fn law_row_checks(
        &self,
        local: Seq<Ext>,
        next: Seq<Ext>,
        quot: Ext,
        first: Ext,
        last: Ext,
        inv: Ext,
        zeta: Ext,
        alpha: Ext,
        pvs: Seq<u64>,
        periodic: Seq<Ext>,
        w: Window,
    )
        requires
            self.wf(),
            w.is_first == 1,
            local.len() == self.w,
            next.len() == self.w,
            pvs.len() == self.n_pub,
            periodic.len() == self.n_periodic,
            holds(w.cur, local + next + seq![quot, first, last, inv]),
            holds(w.publics, seq![zeta, alpha]),
            forall|i: int| 0 <= i < pvs.len() ==> w.publics[4 + i] == #[trigger] pvs[i],
            forall|i: int|
                0 <= i < periodic.len() ==> pair_at(w.publics, 4 + self.n_pub + 2 * i) == x_red(#[trigger] periodic[i]),
        ensures
            ({
                let z = vanishing(x_red(zeta), self.degree_bits as nat);
                let tr = x_sub(x_red(zeta), last_point(self.degree_bits as nat));
                let o = NativeView {
                    local,
                    next,
                    pubs: lifted(pvs),
                    periodic,
                    is_first: first,
                    is_last: last,
                    is_trans: tr,
                };
                vanish(self.s_eval(), w) <==> {
                    &&& x_mul(x_red(first), x_sub(x_red(zeta), x_one())) == z
                    &&& x_mul(x_red(last), tr) == z
                    &&& x_mul(x_red(inv), z) == x_one()
                    &&& x_mul(
                        folded_constraints(self.constraints@, o, x_red(alpha), self.constraints@.len()),
                        x_red(inv),
                    ) == x_red(quot)
                }
            }),
    {
        let tr = x_sub(x_red(zeta), last_point(self.degree_bits as nat));
        let o = NativeView {
            local,
            next,
            pubs: lifted(pvs),
            periodic,
            is_first: first,
            is_last: last,
            is_trans: tr,
        };
        let row = local + next + seq![quot, first, last, inv];
        let n = self.w as int;
        let co = self.s_view();
        assert forall|c: int| 0 <= c < co.local.len() implies value2(#[trigger] co.local[c], w) == x_red(o.local[c]) by {
            lemma_holds_at(w.cur, row, c);
            lemma_pair_value(2 * c, w);
        }
        assert forall|c: int| 0 <= c < co.next.len() implies value2(#[trigger] co.next[c], w) == x_red(o.next[c]) by {
            lemma_holds_at(w.cur, row, n + c);
            lemma_pair_value(2 * (n + c), w);
        }
        lemma_const_value(0, w);
        assert forall|c: int| 0 <= c < co.pubs.len() implies value2(#[trigger] co.pubs[c], w) == x_red(o.pubs[c]) by {
            assert(w.publics[4 + c] == pvs[c]);
            assert(value(w_pub(4 + c), w) == f_red(w.publics[4 + c] as int));
            assert(x_red(x_base(pvs[c])) == x_base(pvs[c]));
        }
        assert forall|c: int| 0 <= c < co.periodic.len() implies value2(#[trigger] co.periodic[c], w) == x_red(
            o.periodic[c],
        ) by {
            assert(pair_at(w.publics, 4 + self.n_pub + 2 * c) == x_red(periodic[c]));
            lemma_public_value(4 + self.n_pub + 2 * c, w);
        }
        lemma_holds_at(w.cur, row, 2 * n);
        lemma_holds_at(w.cur, row, 2 * n + 1);
        lemma_holds_at(w.cur, row, 2 * n + 2);
        lemma_holds_at(w.cur, row, 2 * n + 3);
        lemma_pair_value(2 * (2 * n + 1), w);
        lemma_pair_value(2 * (2 * n + 2), w);
        lemma_holds_at(w.publics, seq![zeta, alpha], 0);
        lemma_holds_at(w.publics, seq![zeta, alpha], 1);
        self.lemma_epilogue_parts(w);
        lemma_value2_canonical(co.is_trans, w);
        assert(carries(co, o, w));
        self.law_epilogue_asks(o, w);
    }
}

impl GeneralEpilogueAir {
    /// A row of the two columns at the point and at the next point and of the quotient, with the point, the challenge, the two
    /// first values and the last one as public values, is accepted exactly if the five constraints of the sequence,
    /// each under its power of the challenge and its selector, with the denominators cleared, sum to the quotient: both
    /// columns start at their values, each next pair is the second column and the sum, and the second column ends in
    /// its value.
    #[verifier::spinoff_prover]
    #[verifier::rlimit(60)]
    pub proof fn law_row_asks(&self, a: Ext, b: Ext, na: Ext, nb: Ext, quot: Ext, zeta: Ext, alpha: Ext, w: Window)
        requires
            w.is_first == 1,
            pair_at(w.cur, 0) == a,
            pair_at(w.cur, 2) == b,
            pair_at(w.cur, 4) == na,
            pair_at(w.cur, 6) == nb,
            pair_at(w.cur, 8) == quot,
            pair_at(w.publics, 0) == zeta,
            pair_at(w.publics, 2) == alpha,
        ensures
            ({
                let z = vanishing(zeta, 6);
                let (off, end) = (x_sub(zeta, x_one()), x_sub(zeta, last_point(6)));
                let firsts = |k: nat, x: Ext| x_mul(x_mul(x_mul(x_pow(alpha, k), z), end), x);
                let steps = |k: nat, x: Ext| x_mul(x_mul(x_mul(x_pow(alpha, k), off), x_mul(end, end)), x);
                let lasts = |x: Ext| x_mul(x_mul(z, off), x);
                let at = |i: int| x_base(f_red(w.publics[i] as int));
                vanish(self.s_eval(), w) <==> x_add(
                    x_add(
                        x_add(
                            x_add(firsts(4, x_sub(a, at(4))), firsts(3, x_sub(b, at(5)))),
                            steps(2, x_sub(na, b)),
                        ),
                        steps(1, x_sub(x_sub(nb, a), b)),
                    ),
                    lasts(x_sub(b, at(6))),
                ) == x_mul(x_mul(x_mul(z, off), end), quot)
            }),
    {
        let (wz, wa) = (w2_pub(0), w2_pub(2));
        let z_h = vanishing_at(wz, 6);
        let zmg = before_last(wz, 6);
        let zm1 = past_first(wz);
        let zmg2 = w2_times(zmg, zmg);
        let (ca, cb, cna, cnb, cq) = (w2_cur(0), w2_cur(2), w2_cur(4), w2_cur(6), w2_cur(8));
        let root = f_inv(two_adic_root(6));
        lemma_pair_value(0, w);
        lemma_pair_value(2, w);
        lemma_pair_value(4, w);
        lemma_pair_value(6, w);
        lemma_pair_value(8, w);
        lemma_public_value(0, w);
        lemma_public_value(2, w);
        lemma_square_times_value(wz, 6, w);
        lemma_const_value(1, w);
        lemma_less_base(crate::monolith::epilogue::w2_square_times(wz, 6), w_const(1), w);
        lemma_less_base(wz, w_const(1), w);
        lemma_less_base(wz, w_const(root), w);
        assert(x_base(1) == x_one());
        assert(x_base(value(w_const(root), w)) == x_base(root));
        assert(value2(z_h, w) == vanishing(zeta, 6));
        assert(value2(zmg, w) == x_sub(zeta, last_point(6)));
        law_times_value(zmg, zmg, w);
        lemma_less_base(ca, w_pub(4), w);
        lemma_less_base(cb, w_pub(5), w);
        lemma_less_base(cb, w_pub(6), w);
        law_plus_minus_value(cna, cb, w);
        law_plus_minus_value(cnb, ca, w);
        law_plus_minus_value(w2_minus(cnb, ca), cb, w);
        lemma_first_term(challenge_power(wa, 4), z_h, zmg, w2(w_minus(ca.a, w_pub(4)), ca.b), w);
        lemma_first_term(challenge_power(wa, 3), z_h, zmg, w2(w_minus(cb.a, w_pub(5)), cb.b), w);
        lemma_first_term(challenge_power(wa, 2), zm1, zmg2, w2_minus(cna, cb), w);
        lemma_first_term(challenge_power(wa, 1), zm1, zmg2, w2_minus(w2_minus(cnb, ca), cb), w);
        lemma_power_value(wa, 4, w);
        lemma_power_value(wa, 3, w);
        lemma_power_value(wa, 2, w);
        lemma_power_value(wa, 1, w);
        let end = w2(w_minus(cb.a, w_pub(6)), cb.b);
        law_times_value(z_h, zm1, w);
        law_times_value(w2_times(z_h, zm1), end, w);
        law_times_value(w2_times(z_h, zm1), zmg, w);
        law_times_value(w2_times(w2_times(z_h, zm1), zmg), cq, w);
        let t = self.s_terms();
        let rhs = w2_times(w2_times(w2_times(z_h, zm1), zmg), cq);
        law_plus_minus_value(t.0, t.1, w);
        law_plus_minus_value(w2_plus(t.0, t.1), t.2, w);
        law_plus_minus_value(w2_plus(w2_plus(t.0, t.1), t.2), t.3, w);
        law_plus_minus_value(w2_plus(w2_plus(w2_plus(t.0, t.1), t.2), t.3), t.4, w);
        let lhs = w2_plus(w2_plus(w2_plus(w2_plus(t.0, t.1), t.2), t.3), t.4);
        lemma_agree_first(lhs, rhs, w);
        assert(self.s_eval() == agree_first(lhs, rhs));
    }
}

/// The value of a product of four.
proof fn lemma_first_term(p: Wire2, a: Wire2, b: Wire2, x: Wire2, w: Window)
    ensures
        value2(w2_times(w2_times(w2_times(p, a), b), x), w) == x_mul(
            x_mul(x_mul(value2(p, w), value2(a, w)), value2(b, w)),
            value2(x, w),
        ),
{
    law_times_value(p, a, w);
    law_times_value(w2_times(p, a), b, w);
    law_times_value(w2_times(w2_times(p, a), b), x, w);
}

} // verus!
