//! What the constraints of the reduced opening and of the epilogues say on their first row.

use vstd::prelude::*;
use super::interpolation::{lemma_first_equation, lemma_first_value};
use super::ood::{
    agree_first, before_last, challenge_power, lookup_fold, past_first, tree_fold, vanishing_at, w2_pub,
    LogupFoldCheckAir, SymbolicEpilogueAir,
};
use super::opening::{MultiColReducedOpeningAir, OpeningTerm};
use crate::emit::flat;
use crate::expr::{
    law_plus_minus_value, law_times_value, value, value2, w2, w2_cur, w2_times, w_const, w_minus, w_on_first, w_pub,
    Window, Wire, Wire2,
};
use crate::field::{f_inv, f_red, two_adic_root, x_base, x_mul, x_one, x_pow, x_red, x_sub};
use crate::fri::input::reduced;
use crate::lookup::quotient::folded_trees;
use crate::monolith::identity::{lemma_quotient_is, lemma_square_times_value};
use crate::monolith::reduction::{lemma_one_more_term, lemma_pair_canonical};
use crate::stark::domain::{last_point, selectors, vanishing};
use crate::stark::verify::folded_constraints;
use crate::symbolic::{
    carries, carries_lookup, law_circuit_matches_native, law_ext_circuit_matches_native, CircuitLookupView, CircuitView,
    ExtExpr, NativeLookupView, NativeView,
};
use crate::vanish::{
    lemma_const_value, lemma_ext_inverse_is, lemma_leaf_values, lemma_less_base, lemma_pair_value, lemma_vanish_flat,
    lemma_vanish_parts, pair_at, vanish,
};

verus! {

/// Two elements agree on the first row exactly if their values do.
pub(super) proof fn lemma_agree_first(x: Wire2, y: Wire2, w: Window)
    requires
        w.is_first == 1,
    ensures
        vanish(agree_first(x, y), w) <==> value2(x, w) == value2(y, w),
{
    let cs = agree_first(x, y);
    lemma_first_equation(x.a, y.a, w);
    lemma_first_equation(x.b, y.b, w);
    assert(cs[0] == w_on_first(w_minus(x.a, y.a)) && cs[1] == w_on_first(w_minus(x.b, y.b)));
}

/// An element is one on the first row.
proof fn lemma_one_first(x: Wire2, w: Window)
    requires
        w.is_first == 1,
    ensures
        vanish(seq![w_on_first(w_minus(x.a, w_const(1))), w_on_first(x.b)], w) <==> value2(x, w) == x_one(),
{
    let cs = seq![w_on_first(w_minus(x.a, w_const(1))), w_on_first(x.b)];
    lemma_const_value(1, w);
    lemma_first_equation(x.a, w_const(1), w);
    lemma_first_value(x.b, w);
    assert(cs[0] == w_on_first(w_minus(x.a, w_const(1))) && cs[1] == w_on_first(x.b));
}

/// The value of a pair of public values.
pub(super) proof fn lemma_public_value(i: int, w: Window)
    requires
        0 <= i,
        i + 1 <= usize::MAX,
    ensures
        value2(w2_pub(i), w) == pair_at(w.publics, i),
{
    assert(value(w_pub(i), w) == f_red(w.publics[i] as int));
    assert(value(w_pub(i + 1), w) == f_red(w.publics[i + 1] as int));
}

/// A power of wires carries the power of their value.
pub(super) proof fn lemma_power_value(alpha: Wire2, k: nat, w: Window)
    ensures
        value2(challenge_power(alpha, k as int), w) == x_pow(value2(alpha, w), k),
    decreases k,
{
    if k == 0 {
        lemma_const_value(1, w);
        lemma_const_value(0, w);
    } else {
        lemma_power_value(alpha, (k - 1) as nat, w);
        law_times_value(challenge_power(alpha, k - 1), alpha, w);
    }
}

impl MultiColReducedOpeningAir {
    /// The terms that a row holds.
    pub open spec fn row_terms(&self, row: Seq<u64>, n: nat) -> Seq<OpeningTerm> {
        Seq::new(
            n,
            |k: int|
                OpeningTerm {
                    z: pair_at(row, self.s_off(k)),
                    pz: pair_at(row, self.s_off(k) + 2),
                    px: if k < 2 * self.w {
                        f_red(row[k % (self.w as int)] as int)
                    } else {
                        f_red(row[self.s_quot_off(k - 2 * self.w) + 6] as int)
                    },
                },
        )
    }

    /// The witnessed inverses invert the distances of the points from `x`.
    pub open spec fn inverses_held(&self, row: Seq<u64>, x: u64) -> bool {
        forall|k: int|
            0 <= k < self.s_n_terms() ==> x_mul(
                pair_at(row, #[trigger] self.s_off(k) + 4),
                x_sub(pair_at(row, self.s_off(k)), x_base(x)),
            ) == x_one()
    }

    proof fn lemma_off(&self, k: int)
        requires
            self.wf(),
            0 <= k < self.s_n_terms(),
        ensures
            0 <= self.s_off(k),
            self.s_off(k) + 6 <= usize::MAX,
            k >= 2 * self.w ==> 0 <= self.s_quot_off(k - 2 * self.w) && self.s_quot_off(k - 2 * self.w) + 6 <= usize::MAX,
            0 <= k % (self.w as int) < self.w,
    {
    }

    /// The value of a term, from its cells.
    proof fn lemma_term_value(&self, w: Window, k: int)
        requires
            self.wf(),
            0 <= k < self.s_n_terms(),
        ensures
            value2(self.s_term(k), w) == x_mul(
                x_mul(
                    x_pow(pair_at(w.publics, 0), k as nat),
                    x_sub(
                        self.row_terms(w.cur, (k + 1) as nat)[k].pz,
                        x_base(self.row_terms(w.cur, (k + 1) as nat)[k].px),
                    ),
                ),
                pair_at(w.cur, self.s_off(k) + 4),
            ),
    {
        self.lemma_off(k);
        let pz = w2_cur(self.s_off(k) + 2);
        let px = self.s_px(k);
        let d = w2(w_minus(pz.a, px), pz.b);
        let (pow, inv) = (challenge_power(w2_pub(0), k), w2_cur(self.s_off(k) + 4));
        lemma_public_value(0, w);
        lemma_power_value(w2_pub(0), k as nat, w);
        lemma_pair_value(self.s_off(k) + 2, w);
        lemma_pair_value(self.s_off(k) + 4, w);
        if k < 2 * self.w {
            lemma_leaf_values(k % (self.w as int), w);
        } else {
            lemma_leaf_values(self.s_quot_off(k - 2 * self.w) + 6, w);
        }
        lemma_less_base(pz, px, w);
        law_times_value(pow, d, w);
        law_times_value(w2_times(pow, d), inv, w);
    }

    /// With the inverses held, the sum of the terms is the reduced opening.
    proof fn lemma_sum_is_reduced(&self, w: Window, n: nat)
        requires
            self.wf(),
            n <= self.s_n_terms(),
            self.inverses_held(w.cur, f_red(w.publics[4] as int)),
        ensures
            value2(self.s_sum(n as int), w) == reduced(
                pair_at(w.publics, 0),
                f_red(w.publics[4] as int),
                self.row_terms(w.cur, n),
            ),
        decreases n,
    {
        if n == 0 {
            lemma_const_value(0, w);
        } else {
            self.lemma_sum_is_reduced(w, (n - 1) as nat);
            self.lemma_sum_step(w, n - 1);
        }
    }

    /// One term more.
    #[verifier::spinoff_prover]
    #[verifier::rlimit(60)]
    proof fn lemma_sum_step(&self, w: Window, k: int)
        requires
            self.wf(),
            0 <= k < self.s_n_terms(),
            self.inverses_held(w.cur, f_red(w.publics[4] as int)),
        ensures
            value2(self.s_sum(k), w) == reduced(
                pair_at(w.publics, 0),
                f_red(w.publics[4] as int),
                self.row_terms(w.cur, k as nat),
            ) ==> value2(self.s_sum(k + 1), w) == reduced(
                pair_at(w.publics, 0),
                f_red(w.publics[4] as int),
                self.row_terms(w.cur, (k + 1) as nat),
            ),
    {
        let (x, alpha) = (f_red(w.publics[4] as int), pair_at(w.publics, 0));
        let before = self.row_terms(w.cur, k as nat);
        let t = self.row_terms(w.cur, (k + 1) as nat)[k];
        assert(self.row_terms(w.cur, (k + 1) as nat) =~= before.push(t));
        self.lemma_term_value(w, k);
        law_plus_minus_value(self.s_sum(k), self.s_term(k), w);
        let inv = pair_at(w.cur, self.s_off(k) + 4);
        assert(x_mul(inv, x_sub(t.z, x_base(x))) == x_one());
        assert(x_red(inv) == inv);
        assert(x_pow(alpha, before.len()) == x_pow(alpha, k as nat));
        lemma_one_more_term(alpha, x, before, t, x_pow(alpha, k as nat), inv);
    }

    /// The inverse constraints vanish exactly if the inverses are held.
    proof fn lemma_checks(&self, w: Window)
        requires
            self.wf(),
            w.is_first == 1,
        ensures
            vanish(flat(self.s_n_terms(), self.f_check()), w) <==> self.inverses_held(w.cur, f_red(w.publics[4] as int)),
    {
        let x = f_red(w.publics[4] as int);
        lemma_vanish_flat(self.s_n_terms(), self.f_check(), w);
        assert(value(w_pub(4), w) == x);
        assert forall|k: int| 0 <= k < self.s_n_terms() implies (vanish(#[trigger] self.f_check()(k), w) <==> x_mul(
            pair_at(w.cur, self.s_off(k) + 4),
            x_sub(pair_at(w.cur, self.s_off(k)), x_base(x)),
        ) == x_one()) by {
            self.lemma_off(k);
            let z = w2_cur(self.s_off(k));
            let d = w2(w_minus(z.a, w_pub(4)), z.b);
            let chk = w2_times(w2_cur(self.s_off(k) + 4), d);
            lemma_pair_value(self.s_off(k), w);
            lemma_pair_value(self.s_off(k) + 4, w);
            lemma_less_base(z, w_pub(4), w);
            law_times_value(w2_cur(self.s_off(k) + 4), d, w);
            lemma_one_first(chk, w);
            assert(self.f_check()(k) =~= seq![w_on_first(w_minus(chk.a, w_const(1))), w_on_first(chk.b)]);
        }
        if vanish(flat(self.s_n_terms(), self.f_check()), w) {
            assert forall|k: int| 0 <= k < self.s_n_terms() implies x_mul(
                pair_at(w.cur, #[trigger] self.s_off(k) + 4),
                x_sub(pair_at(w.cur, self.s_off(k)), x_base(x)),
            ) == x_one() by {
                assert(vanish(self.f_check()(k), w));
            }
        }
        if self.inverses_held(w.cur, x) {
            assert forall|k: int| 0 <= k < self.s_n_terms() implies vanish(#[trigger] self.f_check()(k), w) by {
                assert(x_mul(
                    pair_at(w.cur, self.s_off(k) + 4),
                    x_sub(pair_at(w.cur, self.s_off(k)), x_base(x)),
                ) == x_one());
            }
        }
    }

    /// On the first row the constraints vanish exactly if the inverses are held and the public value is the reduced
    /// opening of the row's terms at the public point under the public challenge.
    pub proof fn law_opening_is_reduced(&self, w: Window)
        requires
            self.wf(),
            w.is_first == 1,
        ensures
            vanish(self.s_eval(), w) <==> {
                &&& self.inverses_held(w.cur, f_red(w.publics[4] as int))
                &&& pair_at(w.publics, 2) == reduced(
                    pair_at(w.publics, 0),
                    f_red(w.publics[4] as int),
                    self.row_terms(w.cur, self.s_n_terms() as nat),
                )
            },
    {
        let ro = self.s_sum(self.s_n_terms());
        let checks = flat(self.s_n_terms(), self.f_check());
        let tail = agree_first(ro, w2_pub(2));
        assert(self.s_eval() == checks + tail);
        lemma_vanish_parts(checks, tail, w);
        self.lemma_checks(w);
        lemma_agree_first(ro, w2_pub(2), w);
        lemma_public_value(2, w);
        if self.inverses_held(w.cur, f_red(w.publics[4] as int)) {
            self.lemma_sum_is_reduced(w, self.s_n_terms() as nat);
        }
    }
}

/// A fold of trees carries the fold of their values.
proof fn lemma_tree_fold(trees: Seq<Wire>, o: CircuitView, no: NativeView, alpha: Wire2, n: nat, w: Window)
    requires
        n <= trees.len(),
        carries(o, no, w),
        forall|k: int| 0 <= k < trees.len() ==> o.reads(#[trigger] trees[k]),
    ensures
        value2(tree_fold(trees, o, alpha, n as int), w) == folded_constraints(trees, no, value2(alpha, w), n),
    decreases n,
{
    if n == 0 {
        lemma_const_value(0, w);
    } else {
        lemma_tree_fold(trees, o, no, alpha, (n - 1) as nat, w);
        let f = tree_fold(trees, o, alpha, n - 1);
        assert(o.reads(trees[n - 1]));
        law_circuit_matches_native(trees[n - 1], o, no, w);
        law_times_value(f, alpha, w);
        law_plus_minus_value(w2_times(f, alpha), crate::symbolic::circuit_wire(trees[n - 1], o), w);
    }
}

/// A fold continued with lookup trees carries the fold of their values.
proof fn lemma_lookup_fold(
    start: Wire2,
    trees: Seq<std::sync::Arc<ExtExpr>>,
    o: CircuitView,
    l: CircuitLookupView,
    no: NativeView,
    nl: NativeLookupView,
    alpha: Wire2,
    n: nat,
    w: Window,
)
    requires
        n <= trees.len(),
        carries(o, no, w),
        carries_lookup(l, nl, w),
        forall|k: int| 0 <= k < trees.len() ==> l.reads(#[trigger] trees[k], o),
    ensures
        value2(lookup_fold(start, trees, o, l, alpha, n as int), w) == folded_trees(
            trees,
            no,
            nl,
            value2(alpha, w),
            value2(start, w),
            n,
        ),
    decreases n,
{
    if n > 0 {
        lemma_lookup_fold(start, trees, o, l, no, nl, alpha, (n - 1) as nat, w);
        let f = lookup_fold(start, trees, o, l, alpha, n - 1);
        assert(l.reads(trees[n - 1], o));
        law_ext_circuit_matches_native(trees[n - 1], o, l, no, nl, w);
        law_times_value(f, alpha, w);
        law_plus_minus_value(w2_times(f, alpha), crate::symbolic::circuit_ext_wire(trees[n - 1], o, l), w);
    }
}

impl LogupFoldCheckAir {
    /// Where the columns and public values carry openings, the constraints of the first row vanish exactly if the base
    /// and lookup trees at those openings fold to the public value.
    pub proof fn law_fold_is_checked(&self, no: NativeView, nl: NativeLookupView, w: Window)
        requires
            self.wf(),
            w.is_first == 1,
            carries(self.s_view(), no, w),
            carries_lookup(self.s_lookup_view(), nl, w),
        ensures
            vanish(self.s_eval(), w) <==> folded_trees(
                self.ext@,
                no,
                nl,
                pair_at(w.publics, 0),
                folded_constraints(self.base@, no, pair_at(w.publics, 0), self.base@.len()),
                self.ext@.len(),
            ) == pair_at(w.publics, 4 + 2 * self.n_lc),
    {
        let alpha = w2_pub(0);
        let (o, l) = (self.s_view(), self.s_lookup_view());
        let base = tree_fold(self.base@, o, alpha, self.base@.len() as int);
        let all = lookup_fold(base, self.ext@, o, l, alpha, self.ext@.len() as int);
        lemma_public_value(0, w);
        lemma_public_value(4 + 2 * self.n_lc, w);
        lemma_tree_fold(self.base@, o, no, alpha, self.base@.len(), w);
        lemma_lookup_fold(base, self.ext@, o, l, no, nl, alpha, self.ext@.len(), w);
        lemma_agree_first(all, w2_pub(4 + 2 * self.n_lc), w);
    }
}

impl SymbolicEpilogueAir {
    /// What the constraints of the first row ask of the selectors and of the fold.
    pub(super) proof fn lemma_epilogue_parts(&self, w: Window)
        requires
            self.wf(),
            w.is_first == 1,
        ensures
            ({
                let zeta = pair_at(w.publics, 0);
                let z = vanishing(zeta, self.degree_bits as nat);
                let at = 4 * self.w;
                let folded = tree_fold(self.constraints@, self.s_view(), w2_pub(2), self.constraints@.len() as int);
                vanish(self.s_eval(), w) <==> {
                    &&& x_mul(pair_at(w.cur, at + 2), x_sub(zeta, x_one())) == z
                    &&& x_mul(pair_at(w.cur, at + 4), x_sub(zeta, last_point(self.degree_bits as nat))) == z
                    &&& x_mul(pair_at(w.cur, at + 6), z) == x_one()
                    &&& x_mul(value2(folded, w), pair_at(w.cur, at + 6)) == pair_at(w.cur, at)
                }
            }),
            value2(self.s_view().is_trans, w) == x_sub(pair_at(w.publics, 0), last_point(self.degree_bits as nat)),
    {
        let zeta = w2_pub(0);
        let bits = self.degree_bits as int;
        let at = 4 * self.w as int;
        let root = f_inv(two_adic_root(bits as nat));
        let (z_h, zm1, tr) = (vanishing_at(zeta, bits), past_first(zeta), before_last(zeta, bits));
        let (s0, s2, s4) = (w2_cur(at + 2), w2_cur(at + 4), w2_cur(at + 6));
        let biv = w2_times(s4, z_h);
        let folded = tree_fold(self.constraints@, self.s_view(), w2_pub(2), self.constraints@.len() as int);
        let (a, b) = (agree_first(w2_times(s0, zm1), z_h), agree_first(w2_times(s2, tr), z_h));
        let c = seq![w_on_first(w_minus(biv.a, w_const(1))), w_on_first(biv.b)];
        let d = agree_first(w2_times(folded, s4), w2_cur(at));
        assert(self.s_eval() == a + b + c + d);
        lemma_vanish_parts(a + b + c, d, w);
        lemma_vanish_parts(a + b, c, w);
        lemma_vanish_parts(a, b, w);
        lemma_agree_first(w2_times(s0, zm1), z_h, w);
        lemma_agree_first(w2_times(s2, tr), z_h, w);
        lemma_one_first(biv, w);
        lemma_agree_first(w2_times(folded, s4), w2_cur(at), w);
        law_times_value(s0, zm1, w);
        law_times_value(s2, tr, w);
        law_times_value(s4, z_h, w);
        law_times_value(folded, s4, w);
        lemma_pair_value(at, w);
        lemma_pair_value(at + 2, w);
        lemma_pair_value(at + 4, w);
        lemma_pair_value(at + 6, w);
        lemma_public_value(0, w);
        lemma_square_times_value(zeta, bits as nat, w);
        lemma_const_value(1, w);
        lemma_less_base(crate::monolith::epilogue::w2_square_times(zeta, bits), w_const(1), w);
        lemma_less_base(zeta, w_const(1), w);
        lemma_less_base(zeta, w_const(root), w);
        assert(x_base(1) == x_one());
        assert(x_base(value(w_const(root), w)) == x_base(root));
    }

    /// For openings that the columns and public values carry, the constraints of the first row vanish exactly if the
    /// witnessed selectors satisfy their equations at the public point and the folded trees, over the vanishing
    /// polynomial, are the quotient.
    pub proof fn law_epilogue_asks(&self, no: NativeView, w: Window)
        requires
            self.wf(),
            w.is_first == 1,
            carries(self.s_view(), no, w),
        ensures
            ({
                let zeta = pair_at(w.publics, 0);
                let z = vanishing(zeta, self.degree_bits as nat);
                let at = 4 * self.w;
                vanish(self.s_eval(), w) <==> {
                    &&& x_mul(pair_at(w.cur, at + 2), x_sub(zeta, x_one())) == z
                    &&& x_mul(pair_at(w.cur, at + 4), x_sub(zeta, last_point(self.degree_bits as nat))) == z
                    &&& x_mul(pair_at(w.cur, at + 6), z) == x_one()
                    &&& x_mul(
                        folded_constraints(self.constraints@, no, pair_at(w.publics, 2), self.constraints@.len()),
                        pair_at(w.cur, at + 6),
                    ) == pair_at(w.cur, at)
                }
            }),
    {
        self.lemma_epilogue_parts(w);
        lemma_public_value(2, w);
        lemma_tree_fold(self.constraints@, self.s_view(), no, w2_pub(2), self.constraints@.len(), w);
    }

    /// Where the constraints of the first row vanish, the witnessed selectors are those of the public point, and for
    /// openings that the columns and public values carry, the folded trees over the vanishing polynomial are the
    /// quotient.
    pub proof fn law_epilogue_checks(&self, no: NativeView, w: Window)
        requires
            self.wf(),
            w.is_first == 1,
            vanish(self.s_eval(), w),
            carries(self.s_view(), no, w),
        ensures
            ({
                let sel = selectors(pair_at(w.publics, 0), self.degree_bits as nat);
                let at = 4 * self.w;
                &&& pair_at(w.cur, at + 2) == sel.is_first_row
                &&& pair_at(w.cur, at + 4) == sel.is_last_row
                &&& pair_at(w.cur, at + 6) == sel.inv_vanishing
                &&& value2(self.s_view().is_trans, w) == sel.is_transition
                &&& x_mul(
                    folded_constraints(self.constraints@, no, pair_at(w.publics, 2), self.constraints@.len()),
                    sel.inv_vanishing,
                ) == pair_at(w.cur, at)
            }),
    {
        let zeta = pair_at(w.publics, 0);
        let bits = self.degree_bits as nat;
        let at = 4 * self.w as int;
        let z = vanishing(zeta, bits);
        let (v0, v2, v4) = (pair_at(w.cur, at + 2), pair_at(w.cur, at + 4), pair_at(w.cur, at + 6));
        self.lemma_epilogue_parts(w);
        lemma_pair_canonical(w.cur, at + 2);
        lemma_pair_canonical(w.cur, at + 4);
        lemma_pair_canonical(w.cur, at + 6);
        lemma_quotient_is(v0, x_sub(zeta, x_one()), z, v4);
        lemma_quotient_is(v2, x_sub(zeta, last_point(bits)), z, v4);
        lemma_ext_inverse_is(z, v4);
        lemma_public_value(2, w);
        lemma_tree_fold(self.constraints@, self.s_view(), no, w2_pub(2), self.constraints@.len(), w);
    }
}

} // verus!
