//! The out-of-domain check of a super-tile: the folded inner constraints at the point, over the vanishing
//! polynomial, equal the recomposed quotient; and every opening is bound to its point.

use vstd::prelude::*;

use super::layout::{MonolithAir, FOLD_CHUNK};
use crate::emit::{flat, lemma_flat_step};
use crate::expr::{
    cur, minus, per, plus, times, w2, w2_combine, w2_cur, w2_plus, w2_times, w2_zero, w_const, w_minus, w_per,
    w_times, Wire, Wire2,
};
use crate::field::{f_inv, two_adic_root};
use crate::symbolic::{
    circuit_ext_wire, circuit_wire, eval_symbolic_circuit, eval_symbolic_ext_circuit, ext_readable, readable,
    CircuitLookup, CircuitLookupView, CircuitOpenings, CircuitView,
};

verus! {

/// `x` squared `n` times over, as wires.
pub open spec fn w2_square_times(x: Wire2, n: int) -> Wire2
    decreases n,
{
    if n <= 0 {
        x
    } else {
        w2_times(w2_square_times(x, n - 1), w2_square_times(x, n - 1))
    }
}

/// Both coordinates of `x` vanish on the head row.
pub open spec fn s_vanish(tf: Wire, x: Wire2) -> Seq<Wire> {
    seq![w_times(tf, x.a), w_times(tf, x.b)]
}

/// Both coordinates of `x` and `y` agree on the head row.
pub open spec fn s_agree(tf: Wire, x: Wire2, y: Wire2) -> Seq<Wire> {
    seq![w_times(tf, w_minus(x.a, y.a)), w_times(tf, w_minus(x.b, y.b))]
}

pub(super) fn emit_agree(out: &mut Vec<Wire>, tf: &Wire, x: &Wire2, y: &Wire2)
    ensures
        final(out)@ == old(out)@ + s_agree(*tf, *x, *y),
{
    let ghost base = out@;
    out.push(times(tf, &minus(&x.a, &y.a)));
    out.push(times(tf, &minus(&x.b, &y.b)));
    assert(out@ =~= base + s_agree(*tf, *x, *y));
}

impl MonolithAir {
    /// The pair of public values from `i` on.
    pub open spec fn s_pi2(&self, i: int) -> Wire2 {
        w2(self.s_pi(i), self.s_pi(i + 1))
    }

    pub(super) fn pi2(&self, i: usize) -> (r: Wire2)
        requires
            self.wf(),
            i + 1 < self.s_pis_count(),
        ensures
            r == self.s_pi2(i as int),
    {
        Wire2::new(self.pi(i), self.pi(i + 1))
    }

    /// Log-size of the inner trace domain; hiding doubles the committed one.
    pub open spec fn s_cdb(&self) -> int {
        self.s_cm_rounds() - self.is_zk
    }

    pub open spec fn s_zeta(&self) -> Wire2 {
        self.s_pi2(2 * self.s_ch_zeta())
    }

    pub open spec fn s_alpha_stark(&self) -> Wire2 {
        self.s_pi2(2 * self.s_ch_alpha_stark())
    }

    /// Entry `i` of the squaring chain of the point; entry 0 is the point itself.
    pub open spec fn s_chain_at(&self, i: int) -> Wire2 {
        if i == 0 {
            self.s_zeta()
        } else {
            w2_cur(self.s_sch(2 * (i - 1)))
        }
    }

    /// Each witnessed entry of the chain is the square of the one before.
    pub open spec fn s_squaring(&self, i: int) -> Seq<Wire> {
        let prev = self.s_chain_at(i);
        s_agree(w_per(self.s_m_tf()), w2_cur(self.s_sch(2 * i)), w2_times(prev, prev))
    }

    pub open spec fn f_squaring(&self) -> spec_fn(int) -> Seq<Wire> {
        |i: int| self.s_squaring(i)
    }

    pub open spec fn all_squaring(&self) -> Seq<Wire> {
        if self.column_window {
            flat(self.s_cdb(), self.f_squaring())
        } else {
            Seq::empty()
        }
    }

    /// The point raised to the size of the trace domain: the end of the witnessed chain where the point is a
    /// column, the inline power where it is public.
    pub open spec fn s_power_at_size(&self) -> Wire2 {
        if self.column_window {
            self.s_chain_at(self.s_cdb())
        } else {
            w2_square_times(self.s_zeta(), self.s_cdb())
        }
    }

    /// The vanishing polynomial at the point.
    pub open spec fn s_z_h(&self) -> Wire2 {
        w2(w_minus(self.s_power_at_size().a, w_const(1)), self.s_power_at_size().b)
    }

    /// The transition selector at the point: the point less the last row's domain element.
    pub open spec fn s_is_trans(&self) -> Wire2 {
        w2(w_minus(self.s_zeta().a, w_const(f_inv(two_adic_root(self.s_cdb() as nat)))), self.s_zeta().b)
    }

    pub open spec fn s_zeta_minus_one(&self) -> Wire2 {
        w2(w_minus(self.s_zeta().a, w_const(1)), self.s_zeta().b)
    }

    /// The witnessed selectors match their definitions at the point.
    pub open spec fn s_selectors(&self) -> Seq<Wire> {
        let tf = w_per(self.s_m_tf());
        let z_h = self.s_z_h();
        let biv = w2_times(w2_cur(self.s_sel(4)), z_h);
        s_agree(tf, w2_times(w2_cur(self.s_sel(0)), self.s_zeta_minus_one()), z_h) + s_agree(
            tf,
            w2_times(w2_cur(self.s_sel(2)), self.s_is_trans()),
            z_h,
        ) + seq![w_times(tf, w_minus(biv.a, w_const(1))), w_times(tf, biv.b)]
    }

    /// Quotient chunk `i` at the point, weighted.
    pub open spec fn s_weighted_chunk(&self, i: int) -> Wire2 {
        let chunk = w2_combine(w2_cur(self.s_pz(self.s_trm_quot(i, 0))), w2_cur(self.s_pz(self.s_trm_quot(i, 1))));
        if self.s_nqc() == 1 {
            chunk
        } else {
            w2_times(self.s_pi2(self.s_qwt_base() + 2 * i), chunk)
        }
    }

    /// The quotient at the point, recomposed from the first `n` chunks.
    pub open spec fn s_quotient(&self, n: int) -> Wire2
        decreases n,
    {
        if n <= 0 {
            w2_zero()
        } else {
            w2_plus(self.s_quotient(n - 1), self.s_weighted_chunk(n - 1))
        }
    }

    /// The openings that the constraint trees read. Where the openings leave the tile there are none.
    pub open spec fn s_openings_view(&self) -> CircuitView {
        let w = if self.narrow_openings {
            0
        } else {
            self.s_w_inner()
        };
        CircuitView {
            local: Seq::new(w as nat, |c: int| w2_cur(self.s_pz(self.s_trm_trace(c)))),
            next: Seq::new(w as nat, |c: int| w2_cur(self.s_pz(self.s_trm_next(c)))),
            pubs: Seq::new(self.s_n_pub() as nat, |i: int| w2(self.s_pi(self.s_pub_pi() + i), w_const(0))),
            periodic: Seq::new(self.s_n_periodic() as nat, |i: int| self.s_pi2(self.s_periodic_base() + 2 * i)),
            is_first: w2_cur(self.s_sel(0)),
            is_last: w2_cur(self.s_sel(2)),
            is_trans: self.s_is_trans(),
        }
    }

    /// The quotient that the fold is checked against; zero where the openings leave the tile.
    pub open spec fn s_checked_quotient(&self) -> Wire2 {
        if self.narrow_openings {
            w2_zero()
        } else {
            self.s_quotient(self.s_nqc())
        }
    }

    /// Aux column `c` at a point, recombined from its two committed coordinates.
    pub open spec fn s_aux_at(&self, t: int) -> Wire2 {
        w2_combine(w2_cur(self.s_pz(t)), w2_cur(self.s_pz(t + 1)))
    }

    /// What the lookup trees read besides.
    pub open spec fn s_lookup_view(&self) -> CircuitLookupView {
        CircuitLookupView {
            perm_local: Seq::new(self.s_aux_ext_w() as nat, |c: int| self.s_aux_at(self.s_trm_aux(2 * c))),
            perm_next: Seq::new(self.s_aux_ext_w() as nat, |c: int| self.s_aux_at(self.s_trm_aux_next(2 * c))),
            challenges: Seq::new(self.s_nlc() as nat, |i: int| self.s_pi2(2 * i)),
            perm_values: seq![self.s_pi2(self.s_term_pi())],
        }
    }

    /// Constraint `k` of the inner, base ones first, at the point.
    pub open spec fn s_constraint_at(&self, o: CircuitView, l: CircuitLookupView, k: int) -> Wire2 {
        if k < self.constraints@.len() {
            circuit_wire(self.constraints@[k], o)
        } else {
            circuit_ext_wire(self.lookup->0.ext_constraints@[k - self.constraints@.len()], o, l)
        }
    }

    /// A partial fold is witnessed after constraint `k`.
    pub open spec fn s_chunk_ends(&self, k: int, n: int) -> bool {
        self.column_window && (k + 1) % (FOLD_CHUNK as int) == 0 && k + 1 < n
    }

    /// The fold of the constraints before `k`, restarted from the witnessed accumulator after each chunk.
    pub open spec fn s_folded(&self, o: CircuitView, l: CircuitLookupView, k: int, n: int) -> Wire2
        decreases k, 0int,
    {
        if k <= 0 {
            w2_zero()
        } else if self.s_chunk_ends(k - 1, n) {
            w2_cur(self.s_fold_acc(k / (FOLD_CHUNK as int) - 1))
        } else {
            self.s_fold_step(o, l, k - 1, n)
        }
    }

    /// The fold with constraint `k` taken in: times the challenge, plus the constraint.
    pub open spec fn s_fold_step(&self, o: CircuitView, l: CircuitLookupView, k: int, n: int) -> Wire2
        decreases k, 1int,
    {
        w2_plus(w2_times(self.s_folded(o, l, k, n), self.s_alpha_stark()), self.s_constraint_at(o, l, k))
    }

    /// The witnessed accumulator that closes a chunk holds the fold so far.
    pub open spec fn s_accumulator(&self, o: CircuitView, l: CircuitLookupView, k: int, n: int) -> Seq<Wire> {
        if self.s_chunk_ends(k, n) {
            s_agree(
                w_per(self.s_m_tf()),
                w2_cur(self.s_fold_acc((k + 1) / (FOLD_CHUNK as int) - 1)),
                self.s_fold_step(o, l, k, n),
            )
        } else {
            Seq::empty()
        }
    }

    pub open spec fn f_accumulator(&self, o: CircuitView, l: CircuitLookupView, n: int) -> spec_fn(int) -> Seq<Wire> {
        |k: int| self.s_accumulator(o, l, k, n)
    }

    /// The whole fold of `n` constraints, checked against the quotient.
    pub open spec fn s_fold_check(
        &self,
        o: CircuitView,
        l: CircuitLookupView,
        n: int,
        inv_van: Wire2,
        quot: Wire2,
    ) -> Seq<Wire> {
        flat(n, self.f_accumulator(o, l, n)) + s_agree(
            w_per(self.s_m_tf()),
            w2_times(self.s_folded(o, l, n, n), inv_van),
            quot,
        )
    }

    /// Every constraint tree reads inside the openings.
    pub open spec fn trees_ok(&self) -> bool {
        &&& forall|k: int|
            0 <= k < self.constraints@.len() && !self.narrow_openings ==> readable(
                #[trigger] self.constraints@[k],
                self.s_w_inner(),
                self.s_w_inner(),
                self.s_n_pub(),
                self.s_n_periodic(),
            )
        &&& self.lookup matches Some(l) ==> {
            &&& !self.narrow_openings
            &&& forall|k: int|
                0 <= k < l.ext_constraints@.len() ==> ext_readable(
                    #[trigger] l.ext_constraints@[k],
                    (self.s_w_inner(), self.s_w_inner(), self.s_n_pub(), self.s_n_periodic()),
                    self.s_aux_ext_w(),
                    self.s_aux_ext_w(),
                    self.s_nlc(),
                    1,
                )
        }
        &&& self.s_nqc() > 1 ==> self.s_symbolic() || self.is_zk == 1
    }

    /// Append the fold of `n` constraints and its check.
    pub(super) fn emit_fold_check(
        &self,
        out: &mut Vec<Wire>,
        o: &CircuitOpenings,
        l: &CircuitLookup,
        n: usize,
        alpha: &Wire2,
        inv_van: &Wire2,
        quot: &Wire2,
    )
        requires
            self.wf(),
            self.s_symbolic(),
            n == self.constraints@.len() || (self.s_is_lookup() && n == self.s_n_constraints()),
            *alpha == self.s_alpha_stark(),
            forall|k: int| 0 <= k < self.constraints@.len() ==> o@.reads(#[trigger] self.constraints@[k]),
            n > self.constraints@.len() ==> (forall|k: int|
                0 <= k < self.lookup->0.ext_constraints@.len() ==> l@.reads(
                    #[trigger] self.lookup->0.ext_constraints@[k],
                    o@,
                )),
        ensures
            final(out)@ == old(out)@ + self.s_fold_check(o@, l@, n as int, *inv_van, *quot),
    {
        let ghost base = out@;
        let ghost f = self.f_accumulator(o@, l@, n as int);
        proof {
            self.lemma_bounds();
        }
        let tf: Wire = per(self.m_tf());
        let n_base: usize = self.constraints.len();
        let mut folded: Wire2 = Wire2::zero();
        let mut acc_i: usize = 0;
        let mut k: usize = 0;
        assert(out@ =~= base + flat(0, f));
        while k < n
            invariant
                self.wf(),
                self.s_symbolic(),
                self.s_fold_w() <= usize::MAX,
                k <= n,
                n == n_base || (self.s_is_lookup() && n == self.s_n_constraints()),
                n_base == self.constraints@.len(),
                f == self.f_accumulator(o@, l@, n as int),
                *alpha == self.s_alpha_stark(),
                tf == w_per(self.s_m_tf()),
                acc_i == if self.column_window && k < n {
                    k as int / FOLD_CHUNK as int
                } else {
                    acc_i as int
                },
                folded == self.s_folded(o@, l@, k as int, n as int),
                forall|j: int| 0 <= j < self.constraints@.len() ==> o@.reads(#[trigger] self.constraints@[j]),
                n > self.constraints@.len() ==> (forall|j: int|
                    0 <= j < self.lookup->0.ext_constraints@.len() ==> l@.reads(
                        #[trigger] self.lookup->0.ext_constraints@[j],
                        o@,
                    )),
                out@ == base + flat(k as int, f),
            decreases n - k,
        {
            let ghost step = out@;
            let ci: Wire2 = if k < n_base {
                eval_symbolic_circuit(&self.constraints[k], o)
            } else {
                match &self.lookup {
                    Some(lk) => eval_symbolic_ext_circuit(&lk.ext_constraints[k - n_base], o, l),
                    None => Wire2::zero(),
                }
            };
            assert(ci == self.s_constraint_at(o@, l@, k as int));
            folded = folded.times(alpha).plus(&ci);
            assert(folded == self.s_fold_step(o@, l@, k as int, n as int));
            if self.column_window && (k + 1) % FOLD_CHUNK == 0 && k + 1 < n {
                proof {
                    assert(acc_i == (k + 1) / (FOLD_CHUNK as int) - 1);
                    assert(acc_i < self.s_n_fold_acc());
                }
                let a: Wire2 = Wire2::cur(self.fold_acc(acc_i));
                emit_agree(out, &tf, &a, &folded);
                folded = a;
                acc_i += 1;
            }
            proof {
                assert(out@ =~= step + self.s_accumulator(o@, l@, k as int, n as int));
                lemma_flat_step(base, k as int, f, out@);
            }
            k += 1;
        }
        let chk: Wire2 = folded.times(inv_van);
        emit_agree(out, &tf, &chk, quot);
        assert(out@ =~= base + self.s_fold_check(o@, l@, n as int, *inv_van, *quot));
    }
}

} // verus!
