//! The permutation rows and the arithmetic block of a super-tile: the query index, the query point, the
//! reduced opening and the fold chain.

use vstd::prelude::*;

use super::layout::{MonolithAir, QT_B, QT_BIT, QT_DBITS, QT_E, QT_I2S, QT_S, QT_SPT};
use crate::emit::{flat, lemma_flat_step};
use crate::expr::{
    constant, cur, minus, nxt, on_transition, per, plus, times, w2, w2_cur, w2_plus, w2_times, w2_zero, w_const, w_cur,
    w_minus, w_nxt, w_on_transition, w_per, w_plus, w_times, Wire, Wire2,
};
use crate::field::{exp_power_of_2, f_square_times, two_adic_generator, two_adic_root, GENERATOR, HALF, TWO_ADICITY};
use crate::poseidon::{ext_linear, int_linear, pow7, w_ext_layer, w_int_layer, w_sbox};

verus! {

/// The eight columns from `col0` on.
pub open spec fn lanes(col0: int) -> Seq<Wire> {
    Seq::new(8, |i: int| w_cur(col0 + i))
}

/// Those columns through the constants and the power of a full round.
pub open spec fn full_lanes(col0: int) -> Seq<Wire> {
    Seq::new(8, |i: int| w_sbox(w_plus(w_cur(col0 + i), w_per(3 + i))))
}

/// Those columns with only the first through its constant and the power.
pub open spec fn partial_lanes(col0: int) -> Seq<Wire> {
    Seq::new(
        8,
        |i: int|
            if i == 0 {
                w_sbox(w_plus(w_cur(col0), w_per(3)))
            } else {
                w_cur(col0 + i)
            },
    )
}

/// Lane `i` of the state from `col0` on takes the step that the round schedule names.
pub open spec fn step_wire(col0: int, i: int) -> Wire {
    let next = w_nxt(col0 + i);
    w_plus(
        w_plus(
            w_times(w_per(0), w_minus(next, w_ext_layer(lanes(col0))[i])),
            w_times(w_per(1), w_minus(next, w_ext_layer(full_lanes(col0))[i])),
        ),
        w_times(w_per(2), w_minus(next, w_int_layer(partial_lanes(col0))[i])),
    )
}

/// The eight permutation constraints of the state from `col0` on, on the rows that `gate` marks.
pub open spec fn steps(col0: int, gate: Wire) -> Seq<Wire> {
    Seq::new(8, |i: int| w_on_transition(w_times(gate, step_wire(col0, i))))
}

/// The eight permutation constraints of the state from `col0` on, on every row.
pub open spec fn plain_steps(col0: int) -> Seq<Wire> {
    Seq::new(8, |i: int| w_on_transition(step_wire(col0, i)))
}

fn step_wires(col0: usize) -> (r: Vec<Wire>)
    requires
        col0 + 8 <= usize::MAX,
    ensures
        r@.len() == 8,
        forall|i: int| 0 <= i < 8 ==> #[trigger] r@[i] == step_wire(col0 as int, i),
{
    let mut init: Vec<Wire> = Vec::new();
    let mut full: Vec<Wire> = Vec::new();
    let mut part: Vec<Wire> = Vec::new();
    let mut i: usize = 0;
    while i < 8
        invariant
            i <= 8,
            col0 + 8 <= usize::MAX,
            init@ =~= lanes(col0 as int).subrange(0, i as int),
            full@ =~= full_lanes(col0 as int).subrange(0, i as int),
            part@ =~= partial_lanes(col0 as int).subrange(0, i as int),
        decreases 8 - i,
    {
        let lane: Wire = cur(col0 + i);
        let powered: Wire = pow7(&plus(&lane, &per(3 + i)));
        part.push(
            if i == 0 {
                pow7(&plus(&cur(col0), &per(3)))
            } else {
                cur(col0 + i)
            },
        );
        init.push(lane);
        full.push(powered);
        i += 1;
    }
    assert(init@ =~= lanes(col0 as int));
    assert(full@ =~= full_lanes(col0 as int));
    assert(part@ =~= partial_lanes(col0 as int));
    let init_s: Vec<Wire> = ext_linear(&init);
    let full_s: Vec<Wire> = ext_linear(&full);
    let part_s: Vec<Wire> = int_linear(&part);
    let mut r: Vec<Wire> = Vec::new();
    let mut j: usize = 0;
    while j < 8
        invariant
            j <= 8,
            col0 + 8 <= usize::MAX,
            init_s@ == w_ext_layer(lanes(col0 as int)),
            full_s@ == w_ext_layer(full_lanes(col0 as int)),
            part_s@ == w_int_layer(partial_lanes(col0 as int)),
            init_s@.len() == 8,
            full_s@.len() == 8,
            part_s@.len() == 8,
            r@.len() == j,
            forall|k: int| 0 <= k < j ==> #[trigger] r@[k] == step_wire(col0 as int, k),
        decreases 8 - j,
    {
        let next: Wire = nxt(col0 + j);
        let step: Wire = plus(
            &plus(&times(&per(0), &minus(&next, &init_s[j])), &times(&per(1), &minus(&next, &full_s[j]))),
            &times(&per(2), &minus(&next, &part_s[j])),
        );
        assert(step == step_wire(col0 as int, j as int));
        r.push(step);
        j += 1;
    }
    r
}

/// Append the permutation constraints of the state from `col0` on.
pub fn emit_steps(out: &mut Vec<Wire>, col0: usize, gate: &Wire)
    requires
        col0 + 8 <= usize::MAX,
    ensures
        final(out)@ == old(out)@ + steps(col0 as int, *gate),
{
    let ghost base = out@;
    let ws: Vec<Wire> = step_wires(col0);
    let mut j: usize = 0;
    while j < 8
        invariant
            j <= 8,
            ws@.len() == 8,
            forall|k: int| 0 <= k < 8 ==> #[trigger] ws@[k] == step_wire(col0 as int, k),
            out@ =~= base + steps(col0 as int, *gate).subrange(0, j as int),
        decreases 8 - j,
    {
        out.push(on_transition(&times(gate, &ws[j])));
        j += 1;
    }
    assert(out@ =~= base + steps(col0 as int, *gate));
}

/// Append the permutation constraints of the state from `col0` on, for every row.
pub fn emit_plain_steps(out: &mut Vec<Wire>, col0: usize)
    requires
        col0 + 8 <= usize::MAX,
    ensures
        final(out)@ == old(out)@ + plain_steps(col0 as int),
{
    let ghost base = out@;
    let ws: Vec<Wire> = step_wires(col0);
    let mut j: usize = 0;
    while j < 8
        invariant
            j <= 8,
            ws@.len() == 8,
            forall|k: int| 0 <= k < 8 ==> #[trigger] ws@[k] == step_wire(col0 as int, k),
            out@ =~= base + plain_steps(col0 as int).subrange(0, j as int),
        decreases 8 - j,
    {
        out.push(on_transition(&ws[j]));
        j += 1;
    }
    assert(out@ =~= base + plain_steps(col0 as int));
}

impl MonolithAir {
    /// The public query indices picked by the query heads.
    pub open spec fn s_query_sum(&self, n: int) -> Wire
        decreases n,
    {
        if n <= 0 {
            w_const(0)
        } else {
            w_plus(
                self.s_query_sum(n - 1),
                w_times(w_per(self.s_p_query(n - 1)), self.s_pi(2 * self.s_nb() + (n - 1))),
            )
        }
    }

    /// The number that the low `n` index bits spell.
    pub open spec fn s_bits_sum(&self, n: int) -> Wire
        decreases n,
    {
        if n <= 0 {
            w_const(0)
        } else {
            w_plus(self.s_bits_sum(n - 1), w_times(w_cur(self.s_sb_b(n - 1)), w_const(1u64 << ((n - 1) as u64))))
        }
    }

    /// The rows on which the folds happen.
    pub open spec fn s_round_mask(&self, n: int) -> Wire
        decreases n,
    {
        if n <= 0 {
            w_const(0)
        } else {
            w_plus(self.s_round_mask(n - 1), w_per(self.s_p_round(n - 1)))
        }
    }

    /// The public values hold an index for every query.
    pub open spec fn queries_ok(&self) -> bool {
        2 * self.s_nb() + self.n_queries <= self.s_pis_count()
    }

    fn query_sum(&self) -> (r: Wire)
        requires
            self.wf(),
            self.queries_ok(),
        ensures
            r == self.s_query_sum(self.n_queries as int),
    {
        let nb: usize = self.nb();
        let mut sum: Wire = constant(0);
        let mut q: usize = 0;
        while q < self.n_queries
            invariant
                self.wf(),
                self.queries_ok(),
                nb == self.s_nb(),
                q <= self.n_queries,
                sum == self.s_query_sum(q as int),
            decreases self.n_queries - q,
        {
            sum = plus(&sum, &times(&per(self.p_query(q)), &self.pi(2 * nb + q)));
            q += 1;
        }
        sum
    }

    fn bits_sum(&self, n: usize) -> (r: Wire)
        requires
            self.wf(),
            n <= 64,
        ensures
            r == self.s_bits_sum(n as int),
    {
        proof {
            self.lemma_bounds();
        }
        let mut sum: Wire = constant(0);
        let mut i: usize = 0;
        while i < n
            invariant
                self.wf(),
                self.s_ov() <= usize::MAX,
                i <= n <= 64,
                sum == self.s_bits_sum(i as int),
            decreases n - i,
        {
            sum = plus(&sum, &times(&cur(self.sb_b(i)), &constant(1u64 << (i as u64))));
            i += 1;
        }
        sum
    }

    fn round_mask(&self) -> (r: Wire)
        requires
            self.wf(),
        ensures
            r == self.s_round_mask(self.s_cm_rounds()),
    {
        let rounds: usize = self.cm_rounds();
        let mut sum: Wire = constant(0);
        let mut r: usize = 0;
        while r < rounds
            invariant
                self.wf(),
                r <= rounds == self.s_cm_rounds(),
                sum == self.s_round_mask(r as int),
            decreases rounds - r,
        {
            sum = plus(&sum, &per(self.p_round(r)));
            r += 1;
        }
        sum
    }

    /// The head row of a super-tile holds the query's public index, its bits below p, and the point bits and
    /// shift register that follow from them.
    pub open spec fn s_index(&self) -> Seq<Wire> {
        let tf = w_per(self.s_m_tf());
        let x = w_cur(self.s_sb_x());
        seq![w_minus(w_times(tf, x), self.s_query_sum(self.n_queries as int))] + self.all_index_bits() + seq![
            w_times(tf, w_minus(x, self.s_bits_sum(64))),
            w_times(
                tf,
                w_minus(w_cur(self.s_sb_q(0)), w_times(w_cur(self.s_sb_b(32)), w_cur(self.s_sb_b(33)))),
            ),
        ] + self.all_index_high() + seq![
            w_times(tf, w_times(w_cur(self.s_sb_q(30)), self.s_bits_sum(32))),
        ] + self.all_deep_bits() + seq![
            w_times(tf, w_minus(w_cur(self.s_idx_rem()), self.s_bits_sum(self.s_lg()))),
        ]
    }

    pub(super) fn emit_index(&self, out: &mut Vec<Wire>)
        requires
            self.wf(),
            self.queries_ok(),
            self.s_lg() <= TWO_ADICITY,
        ensures
            final(out)@ == old(out)@ + self.s_index(),
    {
        let ghost base = out@;
        proof {
            self.lemma_bounds();
        }
        let tf: Wire = per(self.m_tf());
        let x: Wire = cur(self.sb_x());
        out.push(minus(&times(&tf, &x), &self.query_sum()));
        self.emit_index_bits(out);
        out.push(times(&tf, &minus(&x, &self.bits_sum(64))));
        out.push(
            times(&tf, &minus(&cur(self.sb_q(0)), &times(&cur(self.sb_b(32)), &cur(self.sb_b(33))))),
        );
        self.emit_index_high(out);
        out.push(times(&tf, &times(&cur(self.sb_q(30)), &self.bits_sum(32))));
        self.emit_deep_bits(out);
        out.push(times(&tf, &minus(&cur(self.idx_rem()), &self.bits_sum(self.lg()))));
        assert(out@ =~= base + self.s_index());
    }

    /// On a fold row the register sheds its low bit, the bit and the fold point are checked, and the next row
    /// holds the fold of the value with its sibling; the accept row holds the final value.
    pub open spec fn s_fold_rows(&self) -> Seq<Wire> {
        let rm = self.s_round_mask(self.s_cm_rounds());
        let one = w_const(1);
        let two = w_const(2);
        let half = w_const(HALF);
        let bit = w_cur(QT_BIT as int);
        let i2s = w_cur(QT_I2S as int);
        let sign = w_minus(one, w_times(two, bit));
        let e = w2_cur(QT_E as int);
        let s = w2_cur(QT_S as int);
        let prod = w2_times(
            w2(w_minus(e.a, s.a), w_minus(e.b, s.b)),
            w2_cur(QT_B as int),
        );
        let fold0 = w_plus(w_times(w_plus(e.a, s.a), half), w_times(w_times(sign, prod.a), i2s));
        let fold1 = w_plus(w_times(w_plus(e.b, s.b), half), w_times(w_times(sign, prod.b), i2s));
        let tl = w_per(self.s_m_tl());
        let fp = 2 * self.s_nb() + self.s_ni();
        seq![
            w_on_transition(
                w_times(
                    rm,
                    w_minus(w_minus(w_cur(self.s_idx_rem()), w_times(two, w_nxt(self.s_idx_rem()))), bit),
                ),
            ),
            w_on_transition(w_times(rm, w_times(bit, w_minus(one, bit)))),
            w_on_transition(w_times(rm, w_minus(w_times(i2s, w_times(two, w_cur(QT_SPT as int))), one))),
            w_on_transition(w_times(rm, w_minus(w_nxt(QT_E as int), fold0))),
            w_on_transition(w_times(rm, w_minus(w_nxt(QT_E + 1), fold1))),
            w_times(tl, w_minus(e.a, self.s_pi(fp))),
            w_times(tl, w_minus(e.b, self.s_pi(fp + 1))),
        ]
    }

    pub(super) fn emit_fold_rows(&self, out: &mut Vec<Wire>)
        requires
            self.wf(),
        ensures
            final(out)@ == old(out)@ + self.s_fold_rows(),
    {
        let ghost base = out@;
        proof {
            self.lemma_bounds();
        }
        let rm: Wire = self.round_mask();
        let one: Wire = constant(1);
        let two: Wire = constant(2);
        let half: Wire = constant(HALF);
        let bit: Wire = cur(QT_BIT);
        let i2s: Wire = cur(QT_I2S);
        let sign: Wire = minus(&one, &times(&two, &bit));
        let e: Wire2 = Wire2::cur(QT_E);
        let s: Wire2 = Wire2::cur(QT_S);
        let prod: Wire2 = Wire2::new(minus(&e.a, &s.a), minus(&e.b, &s.b)).times(&Wire2::cur(QT_B));
        let fold0: Wire = plus(&times(&plus(&e.a, &s.a), &half), &times(&times(&sign, &prod.a), &i2s));
        let fold1: Wire = plus(&times(&plus(&e.b, &s.b), &half), &times(&times(&sign, &prod.b), &i2s));
        let tl: Wire = per(self.m_tl());
        let fp: usize = 2 * self.nb() + self.ni();
        let rem: usize = self.idx_rem();
        out.push(on_transition(&times(&rm, &minus(&minus(&cur(rem), &times(&two, &nxt(rem))), &bit))));
        out.push(on_transition(&times(&rm, &times(&bit, &minus(&one, &bit)))));
        out.push(on_transition(&times(&rm, &minus(&times(&i2s, &times(&two, &cur(QT_SPT))), &one))));
        out.push(on_transition(&times(&rm, &minus(&nxt(QT_E), &fold0))));
        out.push(on_transition(&times(&rm, &minus(&nxt(QT_E + 1), &fold1))));
        out.push(times(&tl, &minus(&e.a, &self.pi(fp))));
        out.push(times(&tl, &minus(&e.b, &self.pi(fp + 1))));
        assert(out@ =~= base + self.s_fold_rows());
    }

    /// Point bit `i` is a bit.
    pub open spec fn s_point_bit(&self, i: int) -> Seq<Wire> {
        let b = w_cur(QT_DBITS + i);
        seq![w_times(w_per(self.s_m_tf()), w_times(b, w_minus(w_const(1), b)))]
    }

    pub open spec fn f_point_bit(&self) -> spec_fn(int) -> Seq<Wire> {
        |i: int| self.s_point_bit(i)
    }

    /// The factor that point bit `i` contributes when set: the generator squared lg - 1 - i times.
    pub open spec fn s_point_factor(&self, i: int) -> u64 {
        f_square_times(two_adic_root(self.s_lg() as nat), (self.s_lg() - 1 - i) as nat)
    }

    /// The point accumulator multiplies in the factor of bit `i` where the bit is set.
    pub open spec fn s_point_chain(&self, i: int) -> Seq<Wire> {
        let one = w_const(1);
        let prev = if i == 0 {
            one
        } else {
            w_cur(self.s_qt_acc() + i - 1)
        };
        let factor = w_plus(one, w_times(w_cur(QT_DBITS + i), w_minus(w_const(self.s_point_factor(i)), one)));
        seq![w_times(w_per(self.s_m_tf()), w_minus(w_cur(self.s_qt_acc() + i), w_times(prev, factor)))]
    }

    pub open spec fn f_point_chain(&self) -> spec_fn(int) -> Seq<Wire> {
        |i: int| self.s_point_chain(i)
    }

    /// The query point: the coset shift times the accumulated power of the generator.
    pub open spec fn s_point(&self) -> Wire {
        w_times(w_const(GENERATOR), w_cur(self.s_qt_acc() + self.s_lg() - 1))
    }

    /// The constraints that make the query point out of the index bits and take the batching challenge from
    /// its carrier.
    pub open spec fn s_arith_point(&self) -> Seq<Wire> {
        let tf = w_per(self.s_m_tf());
        flat(self.s_lg(), self.f_point_bit()) + flat(self.s_lg(), self.f_point_chain()) + seq![
            w_times(tf, w_minus(w_cur(self.s_qt_alpha()), w_cur(self.s_carry()))),
            w_times(tf, w_minus(w_cur(self.s_qt_alpha() + 1), w_cur(self.s_carry() + 1))),
        ]
    }

    /// Append the point constraints; the query point and the batching challenge come back.
    pub fn arith_point(&self, out: &mut Vec<Wire>) -> (r: (Wire, Wire2))
        requires
            self.wf(),
            self.s_lg() <= TWO_ADICITY,
        ensures
            final(out)@ == old(out)@ + self.s_arith_point(),
            r.0 == self.s_point(),
            r.1 == w2_cur(self.s_qt_alpha()),
    {
        let ghost base = out@;
        proof {
            self.lemma_bounds();
        }
        let lg: usize = self.lg();
        let tf: Wire = per(self.m_tf());
        let one: Wire = constant(1);
        let acc: usize = self.qt_acc();
        let mut i: usize = 0;
        assert(out@ =~= base + flat(0, self.f_point_bit()));
        while i < lg
            invariant
                self.wf(),
                i <= lg == self.s_lg(),
                lg <= TWO_ADICITY,
                tf == w_per(self.s_m_tf()),
                one == w_const(1),
                out@ == base + flat(i as int, self.f_point_bit()),
            decreases lg - i,
        {
            let ghost step = out@;
            let b: Wire = cur(QT_DBITS + i);
            out.push(times(&tf, &times(&b, &minus(&one, &b))));
            proof {
                assert(out@ =~= step + self.s_point_bit(i as int));
                lemma_flat_step(base, i as int, self.f_point_bit(), out@);
            }
            i += 1;
        }
        let ghost mid = out@;
        let g: u64 = two_adic_generator(lg);
        let mut prev: Wire = constant(1);
        let mut j: usize = 0;
        assert(out@ =~= mid + flat(0, self.f_point_chain()));
        while j < lg
            invariant
                self.wf(),
                j <= lg == self.s_lg(),
                lg <= TWO_ADICITY,
                g == two_adic_root(lg as nat),
                acc == self.s_qt_acc(),
                acc + lg <= usize::MAX,
                tf == w_per(self.s_m_tf()),
                one == w_const(1),
                prev == if j == 0 {
                    w_const(1)
                } else {
                    w_cur(acc + j - 1)
                },
                out@ == mid + flat(j as int, self.f_point_chain()),
            decreases lg - j,
        {
            let ghost step = out@;
            let ci: Wire = constant(exp_power_of_2(g, lg - 1 - j));
            let factor: Wire = plus(&one, &times(&cur(QT_DBITS + j), &minus(&ci, &one)));
            out.push(times(&tf, &minus(&cur(acc + j), &times(&prev, &factor))));
            prev = cur(acc + j);
            proof {
                assert(out@ =~= step + self.s_point_chain(j as int));
                lemma_flat_step(mid, j as int, self.f_point_chain(), out@);
            }
            j += 1;
        }
        let x: Wire = times(&constant(GENERATOR), &cur(acc + lg - 1));
        let qa: usize = self.qt_alpha();
        let carry: usize = self.carry();
        out.push(times(&tf, &minus(&cur(qa), &cur(carry))));
        out.push(times(&tf, &minus(&cur(qa + 1), &cur(carry + 1))));
        assert(out@ =~= base + self.s_arith_point());
        (x, Wire2::cur(qa))
    }

    /// The head row's folded value is the reduced opening `ro`.
    pub open spec fn s_bind_reduced_opening(&self, ro: Wire2) -> Seq<Wire> {
        let tf = w_per(self.s_m_tf());
        seq![
            w_times(tf, w_minus(w_cur(QT_E as int), ro.a)),
            w_times(tf, w_minus(w_cur(QT_E + 1), ro.b)),
        ]
    }

    /// Bind the head row's folded value to the reduced opening `ro`.
    pub fn bind_reduced_opening(&self, out: &mut Vec<Wire>, ro: &Wire2)
        requires
            self.wf(),
        ensures
            final(out)@ == old(out)@ + self.s_bind_reduced_opening(*ro),
    {
        let ghost base = out@;
        let tf: Wire = per(self.m_tf());
        out.push(times(&tf, &minus(&cur(QT_E), &ro.a)));
        out.push(times(&tf, &minus(&cur(QT_E + 1), &ro.b)));
        assert(out@ =~= base + self.s_bind_reduced_opening(*ro));
    }

    /// Batching power `k + 1` is power `k` times the challenge.
    pub open spec fn s_power(&self, k: int) -> Seq<Wire> {
        let tf = w_per(self.s_m_tf());
        let prod = w2_times(w2_cur(self.s_apow(k)), w2_cur(self.s_qt_alpha()));
        seq![
            w_times(tf, w_minus(w_cur(self.s_apow(k + 1)), prod.a)),
            w_times(tf, w_minus(w_cur(self.s_apow(k + 1) + 1), prod.b)),
        ]
    }

    pub open spec fn f_power(&self) -> spec_fn(int) -> Seq<Wire> {
        |k: int| self.s_power(k)
    }

    /// The witnessed inverse of term `k` inverts its distance from the query point.
    pub open spec fn s_inverse(&self, k: int) -> Seq<Wire> {
        let tf = w_per(self.s_m_tf());
        let z = w2_cur(self.s_z(k));
        let chk = w2_times(w2_cur(self.s_inv(k)), w2(w_minus(z.a, self.s_point()), z.b));
        seq![w_times(tf, w_minus(chk.a, w_const(1))), w_times(tf, chk.b)]
    }

    pub open spec fn f_inverse(&self) -> spec_fn(int) -> Seq<Wire> {
        |k: int| self.s_inverse(k)
    }

    /// Term `k` of the reduced opening: its power times (opening - queried value) over the distance.
    pub open spec fn s_term(&self, k: int) -> Wire2 {
        let pz = w2_cur(self.s_pz(k));
        let d = w2(w_minus(pz.a, w_cur(self.s_px(k))), pz.b);
        w2_times(w2_times(w2_cur(self.s_apow(k)), d), w2_cur(self.s_inv(k)))
    }

    /// The reduced opening over the first `n` terms.
    pub open spec fn s_reduced_opening(&self, n: int) -> Wire2
        decreases n,
    {
        if n <= 0 {
            w2_zero()
        } else {
            w2_plus(self.s_reduced_opening(n - 1), self.s_term(n - 1))
        }
    }

    /// The whole arithmetic check with every term in columns.
    pub open spec fn s_inline_arith(&self) -> Seq<Wire> {
        let tf = w_per(self.s_m_tf());
        self.s_arith_point() + seq![
            w_times(tf, w_minus(w_cur(self.s_apow(0)), w_const(1))),
            w_times(tf, w_cur(self.s_apow(0) + 1)),
        ] + flat(self.n_terms - 1, self.f_power()) + flat(self.n_terms as int, self.f_inverse())
            + self.s_bind_reduced_opening(self.s_reduced_opening(self.n_terms as int))
    }

    pub(super) fn inline_arith(&self, out: &mut Vec<Wire>)
        requires
            self.wf(),
            self.s_lg() <= TWO_ADICITY,
            !self.narrow_arith,
            !self.narrow_openings,
        ensures
            final(out)@ == old(out)@ + self.s_inline_arith(),
    {
        let ghost base = out@;
        let (x, alpha) = self.arith_point(out);
        proof {
            self.lemma_bounds();
            self.lemma_terms();
        }
        let n: usize = self.n_terms;
        assert(self.s_z(0) + 9 <= self.s_tile_w());
        let tf: Wire = per(self.m_tf());
        let one: Wire = constant(1);
        let a0: usize = self.apow(0);
        out.push(times(&tf, &minus(&cur(a0), &one)));
        out.push(times(&tf, &cur(a0 + 1)));
        let ghost mid = out@;
        let mut k: usize = 0;
        assert(out@ =~= mid + flat(0, self.f_power()));
        while k < n - 1
            invariant
                self.wf(),
                !self.narrow_arith,
                !self.narrow_openings,
                n == self.n_terms,
                n >= 1,
                k <= n - 1,
                tf == w_per(self.s_m_tf()),
                alpha == w2_cur(self.s_qt_alpha()),
                out@ == mid + flat(k as int, self.f_power()),
            decreases n - 1 - k,
        {
            let ghost step = out@;
            proof {
                self.lemma_bounds();
                self.lemma_terms();
                assert(self.s_z(k as int) + 9 <= self.s_tile_w());
                assert(self.s_z(k + 1) + 9 <= self.s_tile_w());
            }
            let prod: Wire2 = Wire2::cur(self.apow(k)).times(&alpha);
            let a: usize = self.apow(k + 1);
            out.push(times(&tf, &minus(&cur(a), &prod.a)));
            out.push(times(&tf, &minus(&cur(a + 1), &prod.b)));
            proof {
                assert(out@ =~= step + self.s_power(k as int));
                lemma_flat_step(mid, k as int, self.f_power(), out@);
            }
            k += 1;
        }
        let ghost last = out@;
        let mut ro: Wire2 = Wire2::zero();
        let mut m: usize = 0;
        assert(out@ =~= last + flat(0, self.f_inverse()));
        while m < n
            invariant
                self.wf(),
                !self.narrow_arith,
                !self.narrow_openings,
                n == self.n_terms,
                m <= n,
                tf == w_per(self.s_m_tf()),
                one == w_const(1),
                x == self.s_point(),
                ro == self.s_reduced_opening(m as int),
                out@ == last + flat(m as int, self.f_inverse()),
            decreases n - m,
        {
            let ghost step = out@;
            proof {
                self.lemma_bounds();
                self.lemma_terms();
                assert(self.s_z(m as int) + 9 <= self.s_tile_w());
            }
            let z: Wire2 = Wire2::cur(self.z(m));
            let inv: Wire2 = Wire2::cur(self.inv(m));
            let chk: Wire2 = inv.times(&Wire2::new(minus(&z.a, &x), z.b));
            out.push(times(&tf, &minus(&chk.a, &one)));
            out.push(times(&tf, &chk.b));
            let pz: Wire2 = Wire2::cur(self.pz(m));
            let d: Wire2 = Wire2::new(minus(&pz.a, &cur(self.px(m))), pz.b);
            let t: Wire2 = Wire2::cur(self.apow(m)).times(&d).times(&inv);
            ro = ro.plus(&t);
            proof {
                assert(out@ =~= step + self.s_inverse(m as int));
                lemma_flat_step(last, m as int, self.f_inverse(), out@);
            }
            m += 1;
        }
        self.bind_reduced_opening(out, &ro);
        assert(out@ =~= base + self.s_inline_arith());
    }
}

} // verus!
