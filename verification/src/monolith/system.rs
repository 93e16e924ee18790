//! The assembled constraint system of the fused verifier.

use vstd::prelude::*;

use super::arith::{emit_steps, steps};
use super::epilogue::{emit_agree, s_agree, s_vanish, w2_square_times};
use super::eval::{opening_ok, InlineBci, MonolithBci};
use super::layout::{MonolithAir, FOLD_SK_BLOCKS};
use crate::emit::{flat, lemma_append_assoc, lemma_flat_step};
use crate::expr::{
    constant, cur, minus, per, plus, times, w2, w2_cur, w2_plus, w2_times, w_const, w_cur, w_minus, w_per, w_plus,
    w_times, Wire, Wire2,
};
use crate::field::{f_inv, finv, two_adic_generator, two_adic_root, TWO_ADICITY};
use crate::symbolic::{CircuitLookup, CircuitOpenings};

verus! {

/// The inverse of the generator of the subgroup of order 2^bits.
pub(crate) fn generator_inverse(bits: usize) -> (r: u64)
    requires
        bits <= TWO_ADICITY,
    ensures
        r == f_inv(two_adic_root(bits as nat)),
{
    let g: u64 = two_adic_generator(bits);
    match finv(g) {
        Some(v) => v,
        None => {
            assert(false);
            0
        },
    }
}

pub(crate) fn square_times(x: &Wire2, n: usize) -> (r: Wire2)
    ensures
        r == w2_square_times(*x, n as int),
{
    let mut s: Wire2 = x.copy();
    let mut i: usize = 0;
    while i < n
        invariant
            i <= n,
            s == w2_square_times(*x, i as int),
        decreases n - i,
    {
        s = s.times(&s);
        i += 1;
    }
    s
}

impl MonolithAir {
    /// Opening term `k` is taken at the point, or at the next point for the trace and aux terms there.
    pub open spec fn s_at_next(&self, k: int) -> bool {
        ||| self.s_trm_next_base() <= k < self.s_trm_next_base() + self.s_trm_committed_w()
        ||| self.s_is_lookup() && self.s_trm_aux_next(0) <= k < self.s_trm_quot_base()
    }

    /// The stored point of term `k` is the transcript's.
    pub open spec fn s_term_point(&self, k: int) -> Seq<Wire> {
        let tf = w_per(self.s_m_tf());
        let g = w_const(two_adic_root(self.s_cdb() as nat));
        let zeta = self.s_zeta();
        let at = if self.s_at_next(k) {
            w2(w_times(zeta.a, g), w_times(zeta.b, g))
        } else {
            zeta
        };
        s_agree(tf, w2_cur(self.s_z(k)), at)
    }

    pub open spec fn f_term_point(&self) -> spec_fn(int) -> Seq<Wire> {
        |k: int| self.s_term_point(k)
    }

    pub open spec fn all_term_points(&self) -> Seq<Wire> {
        if self.narrow_arith {
            Seq::empty()
        } else {
            flat(self.n_terms as int, self.f_term_point())
        }
    }

    fn emit_term_points(&self, out: &mut Vec<Wire>, zeta: &Wire2)
        requires
            self.eval_ok(),
            *zeta == self.s_zeta(),
        ensures
            final(out)@ == old(out)@ + self.all_term_points(),
    {
        let ghost base = out@;
        if self.narrow_arith {
            assert(out@ =~= base + self.all_term_points());
            return ;
        }
        proof {
            self.lemma_bounds();
            self.lemma_terms();
        }
        let tf: Wire = per(self.m_tf());
        let g: Wire = constant(two_adic_generator(self.cm_rounds() - self.is_zk));
        let next: usize = self.trm_next_base();
        let committed: usize = self.trm_committed_w();
        let lookup: bool = self.is_lookup();
        let (aux_next, quot): (usize, usize) = if lookup {
            (self.trm_aux_next(0), self.trm_quot_base())
        } else {
            (0, 0)
        };
        let n: usize = self.n_terms;
        let mut k: usize = 0;
        assert(out@ =~= base + flat(0, self.f_term_point()));
        while k < n
            invariant
                self.wf(),
                k <= n == self.n_terms,
                self.s_z(n as int) <= usize::MAX,
                tf == w_per(self.s_m_tf()),
                g == w_const(two_adic_root(self.s_cdb() as nat)),
                *zeta == self.s_zeta(),
                next == self.s_trm_next_base(),
                committed == self.s_trm_committed_w(),
                next + committed <= n,
                lookup == self.s_is_lookup(),
                lookup ==> aux_next == self.s_trm_aux_next(0) && quot == self.s_trm_quot_base(),
                out@ == base + flat(k as int, self.f_term_point()),
            decreases n - k,
        {
            let ghost step = out@;
            let at_next: bool = (k >= next && k < next + committed) || (lookup && k >= aux_next && k < quot);
            assert(at_next == self.s_at_next(k as int));
            let at: Wire2 = if at_next {
                Wire2::new(times(&zeta.a, &g), times(&zeta.b, &g))
            } else {
                zeta.copy()
            };
            emit_agree(out, &tf, &Wire2::cur(self.z(k)), &at);
            proof {
                assert(out@ =~= step + self.s_term_point(k as int));
                lemma_flat_step(base, k as int, self.f_term_point(), out@);
            }
            k += 1;
        }
    }

    fn emit_squaring(&self, out: &mut Vec<Wire>, zeta: &Wire2) -> (r: Wire2)
        requires
            self.wf(),
            *zeta == self.s_zeta(),
        ensures
            final(out)@ == old(out)@ + self.all_squaring(),
            r == self.s_power_at_size(),
    {
        let ghost base = out@;
        proof {
            self.lemma_bounds();
        }
        let cdb: usize = self.cm_rounds() - self.is_zk;
        if !self.column_window {
            assert(out@ =~= base + self.all_squaring());
            return square_times(zeta, cdb);
        }
        let tf: Wire = per(self.m_tf());
        let mut prev: Wire2 = zeta.copy();
        let mut i: usize = 0;
        assert(out@ =~= base + flat(0, self.f_squaring()));
        while i < cdb
            invariant
                self.wf(),
                self.column_window,
                self.s_sel_base() <= usize::MAX,
                i <= cdb == self.s_cdb(),
                tf == w_per(self.s_m_tf()),
                prev == self.s_chain_at(i as int),
                out@ == base + flat(i as int, self.f_squaring()),
            decreases cdb - i,
        {
            let ghost step = out@;
            let si: Wire2 = Wire2::cur(self.sch(2 * i));
            emit_agree(out, &tf, &si, &prev.times(&prev));
            prev = si;
            proof {
                assert(out@ =~= step + self.s_squaring(i as int));
                lemma_flat_step(base, i as int, self.f_squaring(), out@);
            }
            i += 1;
        }
        prev
    }

    fn quotient(&self) -> (r: Wire2)
        requires
            self.eval_ok(),
        ensures
            r == self.s_quotient(self.s_nqc()),
    {
        proof {
            self.lemma_bounds();
            self.lemma_terms();
        }
        let n: usize = self.nqc();
        let mut acc: Wire2 = Wire2::zero();
        let mut i: usize = 0;
        while i < n
            invariant
                self.eval_ok(),
                i <= n == self.s_nqc(),
                acc == self.s_quotient(i as int),
            decreases n - i,
        {
            proof {
                self.lemma_bounds();
                self.lemma_terms();
                assert(self.s_px(self.s_trm_quot(i as int, 0)) <= self.s_idx_rem());
                assert(self.s_px(self.s_trm_quot(i as int, 1)) <= self.s_idx_rem());
            }
            let d0: Wire2 = Wire2::cur(self.pz(self.trm_quot(i, 0)));
            let d1: Wire2 = Wire2::cur(self.pz(self.trm_quot(i, 1)));
            let chunk: Wire2 = d0.combine(&d1);
            let weighted: Wire2 = if n == 1 {
                chunk
            } else {
                self.pi2(self.qwt_base() + 2 * i).times(&chunk)
            };
            acc = acc.plus(&weighted);
            i += 1;
        }
        acc
    }
}

impl MonolithAir {
    fn openings(&self, is_trans: &Wire2) -> (o: CircuitOpenings)
        requires
            self.eval_ok(),
            self.s_symbolic(),
            *is_trans == self.s_is_trans(),
        ensures
            o@ == self.s_openings_view(),
    {
        proof {
            self.lemma_bounds();
            self.lemma_terms();
        }
        let w: usize = if self.narrow_openings {
            0
        } else {
            self.w_inner()
        };
        let mut local: Vec<Wire2> = Vec::new();
        let mut local_i: usize = 0;
        while local_i < w
            invariant
                self.eval_ok(),
                local_i <= w,
                w == if self.narrow_openings {
                    0
                } else {
                    self.s_w_inner()
                },
                local@ =~= Seq::new(local_i as nat, |c: int| w2_cur(self.s_pz(self.s_trm_trace(c)))),
            decreases w - local_i,
        {
            proof {
                self.lemma_bounds();
                self.lemma_terms();
                assert(self.s_px(self.s_trm_trace(local_i as int)) <= self.s_idx_rem());
            }
            local.push(Wire2::cur(self.pz(self.trm_trace(local_i))));
            local_i += 1;
        }
        let mut next: Vec<Wire2> = Vec::new();
        let mut next_i: usize = 0;
        while next_i < w
            invariant
                self.eval_ok(),
                next_i <= w,
                w == if self.narrow_openings {
                    0
                } else {
                    self.s_w_inner()
                },
                next@ =~= Seq::new(next_i as nat, |c: int| w2_cur(self.s_pz(self.s_trm_next(c)))),
            decreases w - next_i,
        {
            proof {
                self.lemma_bounds();
                self.lemma_terms();
                assert(self.s_px(self.s_trm_next(next_i as int)) <= self.s_idx_rem());
            }
            next.push(Wire2::cur(self.pz(self.trm_next(next_i))));
            next_i += 1;
        }
        let np: usize = self.n_pub();
        let mut pubs: Vec<Wire2> = Vec::new();
        let mut pubs_i: usize = 0;
        while pubs_i < np
            invariant
                self.eval_ok(),
                pubs_i <= np,
                np == self.s_n_pub(),
                pubs@ =~= Seq::new(pubs_i as nat, |i: int| w2(self.s_pi(self.s_pub_pi() + i), w_const(0))),
            decreases np - pubs_i,
        {
            proof {
                self.lemma_bounds();
                self.lemma_terms();
            }
            pubs.push(Wire2::new(self.pi(self.pub_pi() + pubs_i), constant(0)));
            pubs_i += 1;
        }
        let nper: usize = self.n_periodic();
        let mut periodic: Vec<Wire2> = Vec::new();
        let mut periodic_i: usize = 0;
        while periodic_i < nper
            invariant
                self.eval_ok(),
                periodic_i <= nper,
                nper == self.s_n_periodic(),
                periodic@ =~= Seq::new(periodic_i as nat, |i: int| self.s_pi2(self.s_periodic_base() + 2 * i)),
            decreases nper - periodic_i,
        {
            proof {
                self.lemma_bounds();
                self.lemma_terms();
            }
            periodic.push(self.pi2(self.periodic_base() + 2 * periodic_i));
            periodic_i += 1;
        }
        let o: CircuitOpenings = CircuitOpenings {
            local,
            next,
            pubs,
            periodic,
            is_first: Wire2::cur(self.sel(0)),
            is_last: Wire2::cur(self.sel(2)),
            is_trans: is_trans.copy(),
        };
        assert(o@ =~= self.s_openings_view());
        o
    }

    /// The two committed coordinates of an aux column, from term `t` on, recombined.
    fn aux_at(&self, t: usize) -> (r: Wire2)
        requires
            self.wf(),
            t + 1 < self.n_terms,
        ensures
            r == self.s_aux_at(t as int),
    {
        proof {
            self.lemma_bounds();
            self.lemma_terms();
            assert(self.s_px(t as int) <= self.s_idx_rem());
            assert(self.s_px(t + 1) <= self.s_idx_rem());
        }
        Wire2::cur(self.pz(t)).combine(&Wire2::cur(self.pz(t + 1)))
    }

    fn lookup_openings(&self) -> (l: CircuitLookup)
        requires
            self.eval_ok(),
            self.s_is_lookup(),
        ensures
            l@ == self.s_lookup_view(),
    {
        proof {
            self.lemma_bounds();
            self.lemma_terms();
        }
        let w: usize = self.aux_ext_w();
        let mut perm_local: Vec<Wire2> = Vec::new();
        let mut perm_local_i: usize = 0;
        while perm_local_i < w
            invariant
                self.eval_ok(),
                perm_local_i <= w,
                self.s_is_lookup(),
                w == self.s_aux_ext_w(),
                perm_local@ =~= Seq::new(perm_local_i as nat, |c: int| self.s_aux_at(self.s_trm_aux(2 * c))),
            decreases w - perm_local_i,
        {
            proof {
                self.lemma_bounds();
                self.lemma_terms();
            }
            perm_local.push(self.aux_at(self.trm_aux(2 * perm_local_i)));
            perm_local_i += 1;
        }
        let mut perm_next: Vec<Wire2> = Vec::new();
        let mut perm_next_i: usize = 0;
        while perm_next_i < w
            invariant
                self.eval_ok(),
                perm_next_i <= w,
                self.s_is_lookup(),
                w == self.s_aux_ext_w(),
                perm_next@ =~= Seq::new(perm_next_i as nat, |c: int| self.s_aux_at(self.s_trm_aux_next(2 * c))),
            decreases w - perm_next_i,
        {
            proof {
                self.lemma_bounds();
                self.lemma_terms();
            }
            perm_next.push(self.aux_at(self.trm_aux_next(2 * perm_next_i)));
            perm_next_i += 1;
        }
        let nlc: usize = self.nlc();
        let mut challenges: Vec<Wire2> = Vec::new();
        let mut challenges_i: usize = 0;
        while challenges_i < nlc
            invariant
                self.eval_ok(),
                challenges_i <= nlc,
                nlc == self.s_nlc(),
                challenges@ =~= Seq::new(challenges_i as nat, |i: int| self.s_pi2(2 * i)),
            decreases nlc - challenges_i,
        {
            proof {
                self.lemma_bounds();
                self.lemma_terms();
            }
            challenges.push(self.pi2(2 * challenges_i));
            challenges_i += 1;
        }
        let mut perm_values: Vec<Wire2> = Vec::new();
        perm_values.push(self.pi2(self.term_pi()));
        let l: CircuitLookup = CircuitLookup { perm_local, perm_next, challenges, perm_values };
        assert(l@ =~= self.s_lookup_view());
        l
    }

    /// The one-column inner: first row equal to the public value, each row equal to the one before or one more,
    /// with the selectors' denominators cleared.
    pub open spec fn s_one_column(&self) -> Seq<Wire> {
        let tf = w_per(self.s_m_tf());
        let local = w2_cur(self.s_pz(self.s_trm_trace(0)));
        let next = w2_cur(self.s_pz(self.s_trm_next(0)));
        let step = if self.inner_counter {
            w_const(1)
        } else {
            w_const(0)
        };
        let lm = w2(w_minus(local.a, self.s_pi(self.s_pub_pi())), local.b);
        let nl = w2(w_minus(w_minus(next.a, local.a), step), w_minus(next.b, local.b));
        let t1 = w2_times(w2_times(self.s_z_h(), self.s_alpha_stark()), lm);
        let t2 = w2_times(w2_times(self.s_is_trans(), self.s_zeta_minus_one()), nl);
        let rhs = w2_times(w2_times(self.s_z_h(), self.s_zeta_minus_one()), self.s_quotient(self.s_nqc()));
        s_agree(tf, w2_plus(t1, t2), rhs)
    }

    /// The check of an inner given by its trees: the selectors, then the constraint fold, with the terminal of
    /// a lookup argument zero besides.
    pub open spec fn s_tree_check<S: MonolithBci>(&self, bci: S) -> Seq<Wire> {
        self.s_selectors() + if self.s_is_lookup() {
            self.s_fold_check(
                self.s_openings_view(),
                self.s_lookup_view(),
                self.s_n_constraints(),
                w2_cur(self.s_sel(4)),
                self.s_checked_quotient(),
            ) + s_vanish(w_per(self.s_m_tf()), self.s_pi2(self.s_term_pi()))
        } else {
            bci.epilogue(
                *self,
                self.s_openings_view(),
                self.s_alpha_stark(),
                w2_cur(self.s_sel(4)),
                self.s_checked_quotient(),
            )
        }
    }

    /// The out-of-domain check, with the constraint fold left to the strategy.
    pub open spec fn s_ood<S: MonolithBci>(&self, bci: S) -> Seq<Wire> {
        let check = if self.s_symbolic() {
            self.s_tree_check(bci)
        } else {
            self.s_one_column()
        };
        self.all_squaring() + check + self.all_term_points()
    }

    fn emit_one_column(
        &self,
        out: &mut Vec<Wire>,
        alpha: &Wire2,
        z_h: &Wire2,
        is_trans: &Wire2,
        zm1: &Wire2,
    )
        requires
            self.eval_ok(),
            !self.s_symbolic(),
            *alpha == self.s_alpha_stark(),
            *z_h == self.s_z_h(),
            *is_trans == self.s_is_trans(),
            *zm1 == self.s_zeta_minus_one(),
        ensures
            final(out)@ == old(out)@ + self.s_one_column(),
    {
        proof {
            self.lemma_bounds();
            self.lemma_terms();
            assert(self.s_px(self.s_trm_trace(0)) <= self.s_idx_rem());
            assert(self.s_px(self.s_trm_next(0)) <= self.s_idx_rem());
        }
        let tf: Wire = per(self.m_tf());
        let local: Wire2 = Wire2::cur(self.pz(self.trm_trace(0)));
        let next: Wire2 = Wire2::cur(self.pz(self.trm_next(0)));
        let step: Wire = if self.inner_counter {
            constant(1)
        } else {
            constant(0)
        };
        let quot: Wire2 = self.quotient();
        let lm: Wire2 = Wire2::new(minus(&local.a, &self.pi(self.pub_pi())), local.b.clone());
        let nl: Wire2 = Wire2::new(minus(&minus(&next.a, &local.a), &step), minus(&next.b, &local.b));
        let t1: Wire2 = z_h.times(alpha).times(&lm);
        let t2: Wire2 = is_trans.times(zm1).times(&nl);
        let rhs: Wire2 = z_h.times(zm1).times(&quot);
        emit_agree(out, &tf, &t1.plus(&t2), &rhs);
    }

    fn emit_selectors(&self, out: &mut Vec<Wire>, z_h: &Wire2, is_trans: &Wire2, zm1: &Wire2)
        requires
            self.wf(),
            self.s_symbolic(),
            *z_h == self.s_z_h(),
            *is_trans == self.s_is_trans(),
            *zm1 == self.s_zeta_minus_one(),
        ensures
            final(out)@ == old(out)@ + self.s_selectors(),
    {
        let ghost base = out@;
        proof {
            self.lemma_bounds();
        }
        let tf: Wire = per(self.m_tf());
        emit_agree(out, &tf, &Wire2::cur(self.sel(0)).times(zm1), z_h);
        emit_agree(out, &tf, &Wire2::cur(self.sel(2)).times(is_trans), z_h);
        let biv: Wire2 = Wire2::cur(self.sel(4)).times(z_h);
        out.push(times(&tf, &minus(&biv.a, &constant(1))));
        out.push(times(&tf, &biv.b));
        assert(out@ =~= base + self.s_selectors());
    }

    fn emit_lookup_check(&self, out: &mut Vec<Wire>, o: &CircuitOpenings, alpha: &Wire2, inv_van: &Wire2, quot: &Wire2)
        requires
            self.eval_ok(),
            self.s_is_lookup(),
            o@ == self.s_openings_view(),
            *alpha == self.s_alpha_stark(),
        ensures
            final(out)@ == old(out)@ + (self.s_fold_check(
                self.s_openings_view(),
                self.s_lookup_view(),
                self.s_n_constraints(),
                *inv_van,
                *quot,
            ) + s_vanish(w_per(self.s_m_tf()), self.s_pi2(self.s_term_pi()))),
    {
        let ghost base = out@;
        proof {
            self.lemma_bounds();
        }
        let tf: Wire = per(self.m_tf());
        let l: CircuitLookup = self.lookup_openings();
        let n_ext: usize = match &self.lookup {
            Some(lk) => lk.ext_constraints.len(),
            None => 0,
        };
        self.emit_fold_check(out, o, &l, self.constraints.len() + n_ext, alpha, inv_van, quot);
        let ghost mid = out@;
        let terminal: Wire2 = self.pi2(self.term_pi());
        out.push(times(&tf, &terminal.a));
        out.push(times(&tf, &terminal.b));
        assert(out@ =~= mid + s_vanish(tf, self.s_pi2(self.s_term_pi())));
        assert(out@ =~= base + (self.s_fold_check(
            self.s_openings_view(),
            self.s_lookup_view(),
            self.s_n_constraints(),
            *inv_van,
            *quot,
        ) + s_vanish(w_per(self.s_m_tf()), self.s_pi2(self.s_term_pi()))));
    }

    fn emit_tree_check<S: MonolithBci>(
        &self,
        out: &mut Vec<Wire>,
        bci: &S,
        alpha: &Wire2,
        z_h: &Wire2,
        is_trans: &Wire2,
        zm1: &Wire2,
    )
        requires
            self.eval_ok(),
            bci.supports(*self),
            self.s_symbolic(),
            *alpha == self.s_alpha_stark(),
            *z_h == self.s_z_h(),
            *is_trans == self.s_is_trans(),
            *zm1 == self.s_zeta_minus_one(),
        ensures
            final(out)@ == old(out)@ + self.s_tree_check(*bci),
    {
        let ghost base = out@;
        proof {
            self.lemma_bounds();
        }
        self.emit_selectors(out, z_h, is_trans, zm1);
        let ghost mid = out@;
        let o: CircuitOpenings = self.openings(is_trans);
        let inv_van: Wire2 = Wire2::cur(self.sel(4));
        let quot: Wire2 = if self.narrow_openings {
            Wire2::zero()
        } else {
            self.quotient()
        };
        if self.is_lookup() {
            self.emit_lookup_check(out, &o, alpha, &inv_van, &quot);
        } else {
            bci.emit_epilogue(out, self, &o, alpha, &inv_van, &quot);
        }
        assert(out@ =~= base + self.s_tree_check(*bci));
    }

    fn emit_ood<S: MonolithBci>(&self, out: &mut Vec<Wire>, bci: &S)
        requires
            self.eval_ok(),
            bci.supports(*self),
        ensures
            final(out)@ == old(out)@ + self.s_ood(*bci),
    {
        let ghost base = out@;
        proof {
            self.lemma_bounds();
        }
        let one: Wire = constant(1);
        let alpha: Wire2 = self.pi2(2 * self.ch_alpha_stark());
        let zeta: Wire2 = self.pi2(2 * self.ch_zeta());
        let power: Wire2 = self.emit_squaring(out, &zeta);
        let z_h: Wire2 = Wire2::new(minus(&power.a, &one), power.b);
        let g_inv: Wire = constant(generator_inverse(self.cm_rounds() - self.is_zk));
        let is_trans: Wire2 = Wire2::new(minus(&zeta.a, &g_inv), zeta.b.clone());
        let zm1: Wire2 = Wire2::new(minus(&zeta.a, &one), zeta.b.clone());
        if self.symbolic() {
            self.emit_tree_check(out, bci, &alpha, &z_h, &is_trans, &zm1);
        } else {
            self.emit_one_column(out, &alpha, &z_h, &is_trans, &zm1);
        }
        self.emit_term_points(out, &zeta);
        proof {
            let check = if self.s_symbolic() {
                self.s_tree_check(*bci)
            } else {
                self.s_one_column()
            };
            lemma_append_assoc(base, self.all_squaring(), check);
            lemma_append_assoc(base, self.all_squaring() + check, self.all_term_points());
        }
    }
}

impl MonolithAir {
    /// The rows that step through a permutation: the transcript and the Merkle blocks.
    pub open spec fn s_permutation_rows(&self) -> Wire {
        w_plus(w_per(self.s_s_trans()), w_per(self.s_s_merkle()))
    }

    /// The sponge of the transcript, and what is bound to it or held from it.
    pub open spec fn s_transcript(&self) -> Seq<Wire> {
        steps(0, self.s_permutation_rows()) + self.s_transcript_start() + self.s_transcript_link() + self.all_binds() + self.all_index_binds() + self.s_carrier() + self.all_window() + self.all_chain()
    }

    fn emit_transcript(&self, out: &mut Vec<Wire>)
        requires
            self.eval_ok(),
        ensures
            final(out)@ == old(out)@ + self.s_transcript(),
    {
        let ghost base = out@;
        proof {
            self.lemma_bounds();
        }
        emit_steps(out, 0, &plus(&per(self.s_trans()), &per(self.s_merkle())));
        self.emit_transcript_start(out);
        proof {
            lemma_append_assoc(base, steps(0, self.s_permutation_rows()), self.s_transcript_start());
        }
        self.emit_transcript_link(out);
        proof {
            lemma_append_assoc(base, steps(0, self.s_permutation_rows()) + self.s_transcript_start(), self.s_transcript_link());
        }
        self.emit_binds(out);
        proof {
            lemma_append_assoc(base, steps(0, self.s_permutation_rows()) + self.s_transcript_start() + self.s_transcript_link(), self.all_binds());
        }
        self.emit_index_binds(out);
        proof {
            lemma_append_assoc(base, steps(0, self.s_permutation_rows()) + self.s_transcript_start() + self.s_transcript_link() + self.all_binds(), self.all_index_binds());
        }
        self.emit_carrier(out);
        proof {
            lemma_append_assoc(base, steps(0, self.s_permutation_rows()) + self.s_transcript_start() + self.s_transcript_link() + self.all_binds() + self.all_index_binds(), self.s_carrier());
        }
        self.emit_window(out);
        proof {
            lemma_append_assoc(base, steps(0, self.s_permutation_rows()) + self.s_transcript_start() + self.s_transcript_link() + self.all_binds() + self.all_index_binds() + self.s_carrier(), self.all_window());
        }
        self.emit_chain(out);
        proof {
            lemma_append_assoc(base, steps(0, self.s_permutation_rows()) + self.s_transcript_start() + self.s_transcript_link() + self.all_binds() + self.all_index_binds() + self.s_carrier() + self.all_window(), self.all_chain());
        }
    }

    /// The arithmetic block: reduced opening, folds and out-of-domain check.
    pub open spec fn s_head<S: MonolithBci>(&self, bci: S) -> Seq<Wire> {
        bci.arith(*self) + self.all_betas() + self.s_index() + self.s_fold_rows() + self.s_ood(bci)
    }

    fn emit_head<S: MonolithBci>(&self, out: &mut Vec<Wire>, bci: &S)
        requires
            self.eval_ok(),
            bci.supports(*self),
        ensures
            final(out)@ == old(out)@ + self.s_head(*bci),
    {
        let ghost base = out@;
        proof {
            self.lemma_bounds();
        }
        bci.emit_arith(out, self);
        self.emit_betas(out);
        proof {
            lemma_append_assoc(base, bci.arith(*self), self.all_betas());
        }
        self.emit_index(out);
        proof {
            lemma_append_assoc(base, bci.arith(*self) + self.all_betas(), self.s_index());
        }
        self.emit_fold_rows(out);
        proof {
            lemma_append_assoc(base, bci.arith(*self) + self.all_betas() + self.s_index(), self.s_fold_rows());
        }
        self.emit_ood(out, bci);
        proof {
            lemma_append_assoc(base, bci.arith(*self) + self.all_betas() + self.s_index() + self.s_fold_rows(), self.s_ood(*bci));
        }
    }

    /// The rows carried to the Merkle blocks, and the blocks themselves.
    pub open spec fn s_openings_held(&self) -> Seq<Wire> {
        self.all_opened_row() + self.all_random_row() + self.all_aux_row() + self.all_quot_row() + self.all_group() + self.s_leaves() + flat(4, self.f_link())
    }

    fn emit_openings_held(&self, out: &mut Vec<Wire>)
        requires
            self.eval_ok(),
        ensures
            final(out)@ == old(out)@ + self.s_openings_held(),
    {
        let ghost base = out@;
        proof {
            self.lemma_bounds();
        }
        self.emit_opened_row(out);
        self.emit_random_row(out);
        proof {
            lemma_append_assoc(base, self.all_opened_row(), self.all_random_row());
        }
        self.emit_aux_row(out);
        proof {
            lemma_append_assoc(base, self.all_opened_row() + self.all_random_row(), self.all_aux_row());
        }
        self.emit_quot_row(out);
        proof {
            lemma_append_assoc(base, self.all_opened_row() + self.all_random_row() + self.all_aux_row(), self.all_quot_row());
        }
        self.emit_group(out);
        proof {
            lemma_append_assoc(base, self.all_opened_row() + self.all_random_row() + self.all_aux_row() + self.all_quot_row(), self.all_group());
        }
        self.emit_leaves(out);
        proof {
            lemma_append_assoc(base, self.all_opened_row() + self.all_random_row() + self.all_aux_row() + self.all_quot_row() + self.all_group(), self.s_leaves());
        }
        self.emit_link(out);
        proof {
            lemma_append_assoc(base, self.all_opened_row() + self.all_random_row() + self.all_aux_row() + self.all_quot_row() + self.all_group() + self.s_leaves(), flat(4, self.f_link()));
        }
    }

    /// The terminals of the openings: bound to selected cap entries, or to shared ones.
    pub open spec fn s_caps<S: MonolithBci>(&self, bci: S) -> Seq<Wire> {
        if self.s_full_cap() {
            self.s_term_caps() + self.all_commit_caps() + self.all_cap_hold() + bci.capmux(*self, self.s_cap_openings())
        } else {
            self.s_term_shared() + self.all_commit_shared()
        }
    }

    fn emit_caps<S: MonolithBci>(&self, out: &mut Vec<Wire>, bci: &S)
        requires
            self.eval_ok(),
            bci.supports(*self),
        ensures
            final(out)@ == old(out)@ + self.s_caps(*bci),
    {
        let ghost base = out@;
        if self.full_cap() {
            self.emit_term_caps(out);
            self.emit_commit_caps(out);
            proof {
                lemma_append_assoc(base, self.s_term_caps(), self.all_commit_caps());
            }
            self.emit_cap_hold(out);
            proof {
                lemma_append_assoc(base, self.s_term_caps() + self.all_commit_caps(), self.all_cap_hold());
            }
            let openings = self.cap_openings();
            proof {
                if !self.narrow_caps {
                    assert forall|i: int| 0 <= i < openings@.len() implies opening_ok(*self, #[trigger] openings@[i]) by {
                        self.lemma_openings(i);
                    }
                }
            }
            bci.emit_capmux(out, self, &openings);
            proof {
                lemma_append_assoc(
                    base,
                    self.s_term_caps() + self.all_commit_caps() + self.all_cap_hold(),
                    bci.capmux(*self, self.s_cap_openings()),
                );
            }
        } else {
            self.emit_term_shared(out);
            self.emit_commit_shared(out);
            proof {
                lemma_append_assoc(base, self.s_term_shared(), self.all_commit_shared());
            }
        }
    }

    /// Lane `k` of statement chunk `b`: a public value, or zero.
    pub open spec fn s_statement_lane(&self, b: int, k: int) -> Wire {
        match Self::s_chunk_src(b, k) {
            Some(off) => w_cur(self.s_pw(self.s_pub_pi() + off)),
            None => w_const(0),
        }
    }

    /// Chunk `b` of the statement enters its block; the first block starts from the domain tag.
    pub open spec fn s_statement(&self, b: int) -> Seq<Wire> {
        let on = w_per(self.s_p_fold_first(b));
        let chunk = Seq::new(4, |k: int| w_times(on, w_minus(w_cur(self.s_af_p(4 + k)), self.s_statement_lane(b, k))));
        if b == 0 {
            chunk + seq![
                w_times(on, w_minus(w_cur(self.s_af_p(0)), w_const(self.txroot_dom))),
                w_times(on, w_cur(self.s_af_p(1))),
                w_times(on, w_cur(self.s_af_p(2))),
                w_times(on, w_cur(self.s_af_p(3))),
            ]
        } else {
            chunk
        }
    }

    pub open spec fn f_statement(&self) -> spec_fn(int) -> Seq<Wire> {
        |b: int| self.s_statement(b)
    }

    fn emit_statement(&self, out: &mut Vec<Wire>)
        requires
            self.eval_ok(),
            self.fold,
            self.fold_txstmt,
        ensures
            final(out)@ == old(out)@ + flat(FOLD_SK_BLOCKS as int, self.f_statement()),
    {
        let ghost base = out@;
        let srcs: Vec<[Option<usize>; 4]> = MonolithAir::fold_chunk_srcs();
        let mut b: usize = 0;
        assert(out@ =~= base + flat(0, self.f_statement()));
        while b < srcs.len()
            invariant
                self.eval_ok(),
                self.fold,
                self.fold_txstmt,
                b <= srcs@.len() == FOLD_SK_BLOCKS,
                forall|c: int, k: int|
                    0 <= c < srcs@.len() && 0 <= k < 4 ==> (#[trigger] srcs@[c]@[k]) == Self::s_chunk_src(c, k),
                out@ == base + flat(b as int, self.f_statement()),
            decreases srcs.len() - b,
        {
            proof {
                self.lemma_bounds();
            }
            let ghost step = out@;
            let ghost chunk = Seq::new(
                4,
                |k: int|
                    w_times(
                        w_per(self.s_p_fold_first(b as int)),
                        w_minus(w_cur(self.s_af_p(4 + k)), self.s_statement_lane(b as int, k)),
                    ),
            );
            let on: Wire = per(self.p_fold_first(b));
            let row: [Option<usize>; 4] = srcs[b];
            let mut k: usize = 0;
            while k < 4
                invariant
                    self.eval_ok(),
                    self.fold,
                    self.fold_txstmt,
                    b < FOLD_SK_BLOCKS,
                    k <= 4,
                    on == w_per(self.s_p_fold_first(b as int)),
                    forall|j: int| 0 <= j < 4 ==> (#[trigger] row@[j]) == Self::s_chunk_src(b as int, j),
                    chunk == Seq::new(
                        4,
                        |j: int|
                            w_times(
                                w_per(self.s_p_fold_first(b as int)),
                                w_minus(w_cur(self.s_af_p(4 + j)), self.s_statement_lane(b as int, j)),
                            ),
                    ),
                    out@ =~= step + chunk.subrange(0, k as int),
                decreases 4 - k,
            {
                proof {
                    self.lemma_bounds();
                    assert(row@[k as int] == Self::s_chunk_src(b as int, k as int));
                }
                let lane: Wire = match row[k] {
                    Some(off) => cur(self.pw(self.pub_pi() + off)),
                    None => constant(0),
                };
                out.push(times(&on, &minus(&cur(self.af_p(4 + k)), &lane)));
                k += 1;
            }
            if b == 0 {
                out.push(times(&on, &minus(&cur(self.af_p(0)), &constant(self.txroot_dom))));
                out.push(times(&on, &cur(self.af_p(1))));
                out.push(times(&on, &cur(self.af_p(2))));
                out.push(times(&on, &cur(self.af_p(3))));
            }
            proof {
                assert(out@ =~= step + self.s_statement(b as int));
                lemma_flat_step(base, b as int, self.f_statement(), out@);
            }
            b += 1;
        }
    }

    /// The root fold: the permutation of its blocks, the digest of the statement, and the running root.
    pub open spec fn s_root_fold(&self) -> Seq<Wire> {
        if self.fold {
            let digest = if self.fold_txstmt {
                flat(FOLD_SK_BLOCKS as int, self.f_statement()) + self.s_fold_link() + self.s_fold_out()
            } else {
                self.s_fold_seed() + self.s_fold_out()
            };
            steps(self.s_af_p(0), w_per(self.s_p_fold_active())) + digest + self.s_root_in() + self.all_root()
        } else {
            Seq::empty()
        }
    }

    fn emit_root_fold(&self, out: &mut Vec<Wire>)
        requires
            self.eval_ok(),
        ensures
            final(out)@ == old(out)@ + self.s_root_fold(),
    {
        let ghost base = out@;
        if !self.fold {
            assert(out@ =~= base + self.s_root_fold());
            return ;
        }
        proof {
            self.lemma_bounds();
        }
        emit_steps(out, self.af_p(0), &per(self.p_fold_active()));
        let ghost first = steps(self.s_af_p(0), w_per(self.s_p_fold_active()));
        let ghost mid = out@;
        if self.fold_txstmt {
            self.emit_statement(out);
            self.emit_fold_link(out);
            proof {
                lemma_append_assoc(mid, flat(FOLD_SK_BLOCKS as int, self.f_statement()), self.s_fold_link());
            }
            self.emit_fold_out(out);
            proof {
                lemma_append_assoc(
                    mid,
                    flat(FOLD_SK_BLOCKS as int, self.f_statement()) + self.s_fold_link(),
                    self.s_fold_out(),
                );
            }
        } else {
            self.emit_fold_seed(out);
            self.emit_fold_out(out);
            proof {
                lemma_append_assoc(mid, self.s_fold_seed(), self.s_fold_out());
            }
        }
        let ghost digest = if self.fold_txstmt {
            flat(FOLD_SK_BLOCKS as int, self.f_statement()) + self.s_fold_link() + self.s_fold_out()
        } else {
            self.s_fold_seed() + self.s_fold_out()
        };
        proof {
            lemma_append_assoc(base, first, digest);
        }
        self.emit_root_in(out);
        proof {
            lemma_append_assoc(base, first + digest, self.s_root_in());
        }
        self.emit_root(out);
        proof {
            lemma_append_assoc(base, first + digest + self.s_root_in(), self.all_root());
        }
    }

    /// The constraint system of the verifier under a strategy.
    pub open spec fn s_eval<S: MonolithBci>(&self, bci: S) -> Seq<Wire> {
        self.s_transcript() + self.s_head(bci) + self.s_openings_held() + self.s_caps(bci) + self.s_root_fold()
    }

    /// The constraint system of the verifier under a strategy.
    pub fn eval_bci<S: MonolithBci>(&self, bci: &S) -> (r: Vec<Wire>)
        requires
            self.eval_ok(),
            bci.supports(*self),
        ensures
            r@ == self.s_eval(*bci),
    {
        let mut out: Vec<Wire> = Vec::new();
        let ghost base = out@;
        self.emit_transcript(&mut out);
        self.emit_head(&mut out, bci);
        proof {
            lemma_append_assoc(base, self.s_transcript(), self.s_head(*bci));
        }
        self.emit_openings_held(&mut out);
        proof {
            lemma_append_assoc(base, self.s_transcript() + self.s_head(*bci), self.s_openings_held());
        }
        self.emit_caps(&mut out, bci);
        proof {
            lemma_append_assoc(
                base,
                self.s_transcript() + self.s_head(*bci) + self.s_openings_held(),
                self.s_caps(*bci),
            );
        }
        self.emit_root_fold(&mut out);
        proof {
            lemma_append_assoc(
                base,
                self.s_transcript() + self.s_head(*bci) + self.s_openings_held() + self.s_caps(*bci),
                self.s_root_fold(),
            );
            assert(base + self.s_eval(*bci) =~= self.s_eval(*bci));
        }
        out
    }

    /// The constraint system of the verifier with everything in columns.
    pub fn eval(&self) -> (r: Vec<Wire>)
        requires
            self.eval_ok(),
            InlineBci.supports(*self),
        ensures
            r@ == self.s_eval(InlineBci),
    {
        self.eval_bci(&InlineBci)
    }
}

} // verus!
