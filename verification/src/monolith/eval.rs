//! The constraint system of the fused verifier, with the three costly parts left to a strategy.

use vstd::arithmetic::power2::{lemma_pow2_pos, lemma_pow2_unfold, pow2};
use vstd::prelude::*;

use super::layout::{MonolithAir, FT_P_BLOCK_LAST, RATE};
use crate::bits::{div_ceil, div_up, shifted_one};
use crate::emit::{flat, lemma_append_assoc, lemma_flat_step};
use crate::expr::{
    constant, cur, minus, nxt, on_transition, per, plus, times, w2_cur, w_const, w_cur, w_minus, w_nxt,
    w_on_transition, w_per, w_plus, w_times, Wire, Wire2,
};
use crate::field::TWO_ADICITY;
use crate::symbolic::{CircuitLookup, CircuitLookupView, CircuitOpenings, CircuitView};

verus! {

/// One opening whose cap entry is selected by the query index: its carrier group, the index bits that select
/// (from `shift` on, `bits` of them) and the public cap.
#[derive(Clone, Copy)]
pub struct CapOpening {
    pub cg_off: usize,
    pub shift: usize,
    pub bits: usize,
    pub cbase: usize,
}

/// How the cap selection, the constraint fold and the reduced opening are expressed.
pub trait MonolithBci {
    /// The shapes of verifier that the strategy can serve.
    spec fn supports(&self, air: MonolithAir) -> bool;

    /// The constraints of the cap selection.
    spec fn capmux(&self, air: MonolithAir, openings: Seq<CapOpening>) -> Seq<Wire>;

    /// The constraints of the constraint fold.
    spec fn epilogue(
        &self,
        air: MonolithAir,
        o: CircuitView,
        alpha: Wire2,
        inv_van: Wire2,
        quot: Wire2,
    ) -> Seq<Wire>;

    /// The constraints of the reduced opening.
    spec fn arith(&self, air: MonolithAir) -> Seq<Wire>;

    /// Bind the cap-entry carriers to the entries that the query index selects. Each opening lies in the window of
    /// caps and in the columns, unless the caps are left out of the window.
    fn emit_capmux(&self, out: &mut Vec<Wire>, air: &MonolithAir, openings: &Vec<CapOpening>)
        requires
            air.eval_ok(),
            self.supports(*air),
            air.s_full_cap(),
            air.narrow_caps || forall|i: int| 0 <= i < openings@.len() ==> opening_ok(*air, #[trigger] openings@[i]),
        ensures
            final(out)@ == old(out)@ + self.capmux(*air, openings@),
    ;

    /// Fold the inner constraints at the openings and check them against the quotient.
    fn emit_epilogue(
        &self,
        out: &mut Vec<Wire>,
        air: &MonolithAir,
        o: &CircuitOpenings,
        alpha: &Wire2,
        inv_van: &Wire2,
        quot: &Wire2,
    )
        requires
            air.eval_ok(),
            self.supports(*air),
            air.s_symbolic(),
            !air.s_is_lookup(),
            o@ == air.s_openings_view(),
            *alpha == air.s_alpha_stark(),
            *inv_van == w2_cur(air.s_sel(4)),
            *quot == air.s_checked_quotient(),
        ensures
            final(out)@ == old(out)@ + self.epilogue(*air, o@, *alpha, *inv_van, *quot),
    ;

    /// Check the reduced opening on the head row.
    fn emit_arith(&self, out: &mut Vec<Wire>, air: &MonolithAir)
        requires
            air.eval_ok(),
            self.supports(*air),
        ensures
            final(out)@ == old(out)@ + self.arith(*air),
    ;
}

/// Everything in columns and products.
pub struct InlineBci;

/// The indicator of entry `e`, over the low `j` of its bits.
pub open spec fn mux_selector(air: MonolithAir, shift: int, e: nat, j: nat) -> Wire
    decreases j,
{
    if j == 0 {
        w_const(1)
    } else {
        let b = w_cur(air.s_sb_b(shift + j - 1));
        w_times(
            mux_selector(air, shift, e, (j - 1) as nat),
            if (e / pow2((j - 1) as nat)) % 2 == 1 {
                b
            } else {
                w_minus(w_const(1), b)
            },
        )
    }
}

/// Felt `k` of the selected entry, over the first `n` entries of the cap.
pub open spec fn mux_sum(air: MonolithAir, o: CapOpening, k: int, n: nat) -> Wire
    decreases n,
{
    if n == 0 {
        w_const(0)
    } else {
        w_plus(
            mux_sum(air, o, k, (n - 1) as nat),
            w_times(
                mux_selector(air, o.shift as int, (n - 1) as nat, o.bits as nat),
                air.s_pi(o.cbase + (n - 1) * 4 + k),
            ),
        )
    }
}

/// The four constraints of one selected cap entry.
pub open spec fn mux_wires(air: MonolithAir, o: CapOpening) -> Seq<Wire> {
    Seq::new(
        4,
        |k: int|
            w_times(
                w_per(air.s_m_tf()),
                w_minus(w_cur(air.s_cap_c(o.cg_off + k)), mux_sum(air, o, k, pow2(o.bits as nat))),
            ),
    )
}

pub open spec fn f_mux(air: MonolithAir, openings: Seq<CapOpening>) -> spec_fn(int) -> Seq<Wire> {
    |i: int| mux_wires(air, openings[i])
}

/// The opening reads whole cap entries and index bits.
pub open spec fn opening_ok(air: MonolithAir, o: CapOpening) -> bool {
    &&& o.cbase + 4 * pow2(o.bits as nat) <= air.s_pis_count()
    &&& o.cg_off + 4 <= air.s_n_cap_c()
    &&& o.shift + o.bits <= 64
}

fn emit_selector(air: &MonolithAir, shift: usize, e: usize, bits: usize) -> (r: Wire)
    requires
        air.wf(),
        shift + bits <= 64,
    ensures
        r == mux_selector(*air, shift as int, e as nat, bits as nat),
{
    proof {
        air.lemma_bounds();
        vstd::arithmetic::power2::lemma2_to64();
        assert(e as nat / 1 == e);
    }
    let one: Wire = constant(1);
    let mut sel: Wire = constant(1);
    let mut rest: usize = e;
    let mut j: usize = 0;
    while j < bits
        invariant
            air.wf(),
            air.s_ov() <= usize::MAX,
            shift + bits <= 64,
            j <= bits,
            one == w_const(1),
            rest == e as nat / pow2(j as nat),
            sel == mux_selector(*air, shift as int, e as nat, j as nat),
        decreases bits - j,
    {
        let b: Wire = cur(air.sb_b(shift + j));
        sel = if rest % 2 == 1 {
            times(&sel, &b)
        } else {
            times(&sel, &minus(&one, &b))
        };
        proof {
            lemma_pow2_unfold((j + 1) as nat);
            lemma_pow2_pos(j as nat);
            vstd::arithmetic::div_mod::lemma_div_denominator(e as int, pow2(j as nat) as int, 2);
            assert(pow2(j as nat) * 2 == pow2((j + 1) as nat));
        }
        rest = rest / 2;
        j += 1;
    }
    sel
}

fn emit_mux(out: &mut Vec<Wire>, air: &MonolithAir, o: &CapOpening)
    requires
        air.wf(),
        air.s_full_cap(),
        opening_ok(*air, *o),
    ensures
        final(out)@ == old(out)@ + mux_wires(*air, *o),
{
    let ghost base = out@;
    proof {
        air.lemma_bounds();
    }
    let tf: Wire = per(air.m_tf());
    let n: usize = shifted_one(o.bits);
    let mut k: usize = 0;
    while k < 4
        invariant
            air.wf(),
            air.s_full_cap(),
            air.s_pw_base() <= usize::MAX,
            opening_ok(*air, *o),
            n == pow2(o.bits as nat),
            k <= 4,
            tf == w_per(air.s_m_tf()),
            out@ =~= base + mux_wires(*air, *o).subrange(0, k as int),
        decreases 4 - k,
    {
        let mut acc: Wire = constant(0);
        let mut e: usize = 0;
        while e < n
            invariant
                air.wf(),
                opening_ok(*air, *o),
                n == pow2(o.bits as nat),
                k < 4,
                e <= n,
                acc == mux_sum(*air, *o, k as int, e as nat),
            decreases n - e,
        {
            let sel: Wire = emit_selector(air, o.shift, e, o.bits);
            acc = plus(&acc, &times(&sel, &air.pi(o.cbase + e * 4 + k)));
            e += 1;
        }
        out.push(times(&tf, &minus(&cur(air.cap_c(o.cg_off + k)), &acc)));
        k += 1;
    }
    assert(out@ =~= base + mux_wires(*air, *o));
}

/// No lookup openings.
pub open spec fn no_lookup() -> CircuitLookupView {
    CircuitLookupView {
        perm_local: Seq::empty(),
        perm_next: Seq::empty(),
        challenges: Seq::empty(),
        perm_values: Seq::empty(),
    }
}

impl MonolithBci for InlineBci {
    open spec fn supports(&self, air: MonolithAir) -> bool {
        !air.narrow_arith && !air.narrow_openings && !air.narrow_caps
    }

    open spec fn capmux(&self, air: MonolithAir, openings: Seq<CapOpening>) -> Seq<Wire> {
        flat(openings.len() as int, f_mux(air, openings))
    }

    open spec fn epilogue(
        &self,
        air: MonolithAir,
        o: CircuitView,
        alpha: Wire2,
        inv_van: Wire2,
        quot: Wire2,
    ) -> Seq<Wire> {
        air.s_fold_check(o, no_lookup(), air.constraints@.len() as int, inv_van, quot)
    }

    open spec fn arith(&self, air: MonolithAir) -> Seq<Wire> {
        air.s_inline_arith()
    }

    fn emit_capmux(&self, out: &mut Vec<Wire>, air: &MonolithAir, openings: &Vec<CapOpening>) {
        let ghost base = out@;
        let ghost f = f_mux(*air, openings@);
        assert(out@ =~= base + flat(0, f));
        let mut i: usize = 0;
        while i < openings.len()
            invariant
                air.wf(),
                air.eval_ok(),
                air.s_full_cap(),
                forall|k: int| 0 <= k < openings@.len() ==> opening_ok(*air, #[trigger] openings@[k]),
                i <= openings@.len(),
                f == f_mux(*air, openings@),
                out@ == base + flat(i as int, f),
            decreases openings.len() - i,
        {
            emit_mux(out, air, &openings[i]);
            proof {
                lemma_flat_step(base, i as int, f, out@);
            }
            i += 1;
        }
    }

    fn emit_epilogue(
        &self,
        out: &mut Vec<Wire>,
        air: &MonolithAir,
        o: &CircuitOpenings,
        alpha: &Wire2,
        inv_van: &Wire2,
        quot: &Wire2,
    ) {
        let l: CircuitLookup = CircuitLookup {
            perm_local: Vec::new(),
            perm_next: Vec::new(),
            challenges: Vec::new(),
            perm_values: Vec::new(),
        };
        assert(l@ =~= no_lookup());
        air.emit_fold_check(out, o, &l, air.constraints.len(), alpha, inv_van, quot);
    }

    fn emit_arith(&self, out: &mut Vec<Wire>, air: &MonolithAir) {
        air.inline_arith(out);
    }
}

impl MonolithAir {
    /// The shape has a constraint system: the depth has a two-adic subgroup, the trees read their openings,
    /// the public values cover the queries, shared caps are public, leaving the openings out leaves their
    /// terms out too, and a fold has its window and statement.
    pub open spec fn eval_ok(&self) -> bool {
        &&& self.wf()
        &&& self.s_lg() <= TWO_ADICITY
        &&& self.lanes_ok()
        &&& self.queries_ok()
        &&& self.trees_ok()
        &&& !self.s_full_cap() ==> !self.narrow_caps
        &&& self.narrow_openings ==> self.narrow_arith
        &&& self.fold ==> self.column_window && self.s_n_pub() >= 1
        &&& self.fold && self.fold_txstmt ==> self.s_n_pub() >= 26
    }

    /// The openings whose cap entry is selected: trace, quotient, the commit rounds, then the prepended round.
    pub open spec fn s_cap_openings(&self) -> Seq<CapOpening> {
        let r = self.s_cm_rounds();
        let extra: int = if self.is_zk == 1 || self.s_is_lookup() {
            1
        } else {
            0
        };
        Seq::new((2 + r + extra) as nat, |i: int| self.s_cap_opening(i))
    }

    pub open spec fn s_cap_opening(&self, i: int) -> CapOpening {
        let r = self.s_cm_rounds();
        if i == 0 {
            CapOpening {
                cg_off: 0,
                shift: self.s_input_depth() as usize,
                bits: self.cap_height,
                cbase: self.s_cap_base() as usize,
            }
        } else if i == 1 {
            CapOpening {
                cg_off: 4,
                shift: self.s_input_depth() as usize,
                bits: self.cap_height,
                cbase: self.s_qcap_base() as usize,
            }
        } else if i < 2 + r {
            CapOpening {
                cg_off: (8 + 4 * (i - 2)) as usize,
                shift: self.s_commit_shift(i - 2) as usize,
                bits: self.s_commit_bits(i - 2) as usize,
                cbase: self.s_commit_cap_base(i - 2) as usize,
            }
        } else {
            CapOpening {
                cg_off: (8 + 4 * r) as usize,
                shift: self.s_input_depth() as usize,
                bits: self.cap_height,
                cbase: if self.is_zk == 1 {
                    self.s_random_cap_base() as usize
                } else {
                    self.s_aux_cap_base() as usize
                },
            }
        }
    }

    /// The caps stand in the public values, entry by entry.
    pub proof fn lemma_openings(&self, i: int)
        requires
            self.eval_ok(),
            self.s_full_cap(),
            !self.narrow_caps,
            0 <= i < self.s_cap_openings().len(),
        ensures
            opening_ok(*self, self.s_cap_openings()[i]),
    {
        self.lemma_bounds();
        let r = self.s_cm_rounds();
        lemma_pow2_pos(self.cap_height as nat);
        if 2 <= i < 2 + r {
            self.lemma_caps_monotone(i - 1, r);
            self.lemma_caps_monotone(0, i - 2);
        }
    }

    pub(super) fn cap_openings(&self) -> (v: Vec<CapOpening>)
        requires
            self.eval_ok(),
            self.s_full_cap(),
        ensures
            v@ == self.s_cap_openings(),
    {
        proof {
            self.lemma_bounds();
        }
        let depth: usize = self.input_depth();
        let rounds: usize = self.cm_rounds();
        let mut v: Vec<CapOpening> = Vec::new();
        v.push(CapOpening { cg_off: 0, shift: depth, bits: self.cap_height, cbase: self.cap_base() });
        v.push(CapOpening { cg_off: 4, shift: depth, bits: self.cap_height, cbase: self.qcap_base() });
        let mut r: usize = 0;
        while r < rounds
            invariant
                self.eval_ok(),
                self.s_full_cap(),
                r <= rounds == self.s_cm_rounds(),
                v@ =~= Seq::new((2 + r) as nat, |i: int| self.s_cap_opening(i)),
            decreases rounds - r,
        {
            proof {
                self.lemma_bounds();
                self.lemma_caps_monotone(r as int, rounds as int);
                self.lemma_caps_monotone(0, r as int);
            }
            v.push(
                CapOpening {
                    cg_off: 8 + 4 * r,
                    shift: self.commit_shift(r),
                    bits: self.commit_bits(r),
                    cbase: self.commit_cap_base(r),
                },
            );
            r += 1;
        }
        if self.is_zk == 1 {
            v.push(
                CapOpening {
                    cg_off: 8 + 4 * rounds,
                    shift: depth,
                    bits: self.cap_height,
                    cbase: self.random_cap_base(),
                },
            );
        }
        if self.is_lookup() {
            v.push(
                CapOpening { cg_off: 8 + 4 * rounds, shift: depth, bits: self.cap_height, cbase: self.aux_cap_base() },
            );
        }
        assert(v@ =~= self.s_cap_openings());
        v
    }
}

/// Felt `c` of a leaf enters lane `c` of the first block.
pub open spec fn f_leaf_head(head: int, carrier: int) -> spec_fn(int) -> Seq<Wire> {
    |c: int| seq![w_times(w_per(head), w_minus(w_cur(c), w_cur(carrier + c)))]
}

/// Lane `from + i` of the first block is empty.
pub open spec fn f_leaf_empty(head: int, from: int) -> spec_fn(int) -> Seq<Wire> {
    |i: int| seq![w_times(w_per(head), w_cur(from + i))]
}

/// Felt `4 + c` of a leaf enters its lane of a later block.
pub open spec fn f_leaf_absorb(absorb: int, carrier: int) -> spec_fn(int) -> Seq<Wire> {
    |c: int|
        seq![
            w_times(w_per(absorb + (4 + c) / 4 - 1), w_minus(w_cur((4 + c) % 4), w_cur(carrier + 4 + c))),
        ]
}

/// Lane `from + i` carries over where `sel` marks.
pub open spec fn f_lane_carry(sel: int, from: int) -> spec_fn(int) -> Seq<Wire> {
    |i: int| seq![w_on_transition(w_times(w_per(sel), w_minus(w_nxt(from + i), w_cur(from + i))))]
}

/// A leaf of `felts` felts, absorbed rate by rate into an empty sponge: `head` marks its first block, the
/// selectors from `absorb` on its later blocks, its inner boundaries and the boundary into a short last block,
/// `carrier` is the first of its columns. Without `bind` the felts are left free.
#[verifier::opaque]
pub open spec fn leaf_wires(head: int, absorb: int, carrier: int, felts: int, bind: bool) -> Seq<Wire> {
    let first = if felts < 4 {
        felts
    } else {
        4
    };
    let blocks = div_up(felts, 4);
    let bound = if bind {
        flat(first, f_leaf_head(head, carrier))
    } else {
        Seq::empty()
    };
    let later = if bind && felts > 4 {
        flat(felts - 4, f_leaf_absorb(absorb, carrier))
    } else {
        Seq::empty()
    };
    let carry = if blocks > 1 {
        flat(4, f_lane_carry(absorb + blocks - 1, 4)) + if felts % 4 != 0 {
            flat(4 - felts % 4, f_lane_carry(absorb + blocks, felts % 4))
        } else {
            Seq::empty()
        }
    } else {
        Seq::empty()
    };
    bound + flat(8 - first, f_leaf_empty(head, first)) + later + carry
}

pub(crate) fn emit_lane_carry(out: &mut Vec<Wire>, sel: usize, from: usize, n: usize)
    requires
        from + n <= 8,
    ensures
        final(out)@ == old(out)@ + flat(n as int, f_lane_carry(sel as int, from as int)),
{
    let ghost base = out@;
    let ghost f = f_lane_carry(sel as int, from as int);
    let on: Wire = per(sel);
    let mut i: usize = 0;
    assert(out@ =~= base + flat(0, f));
    while i < n
        invariant
            i <= n,
            from + n <= 8,
            on == w_per(sel as int),
            f == f_lane_carry(sel as int, from as int),
            out@ == base + flat(i as int, f),
        decreases n - i,
    {
        let ghost step = out@;
        out.push(on_transition(&times(&on, &minus(&nxt(from + i), &cur(from + i)))));
        proof {
            assert(out@ =~= step + f(i as int));
            lemma_flat_step(base, i as int, f, out@);
        }
        i += 1;
    }
}

fn emit_leaf(out: &mut Vec<Wire>, head: usize, absorb: usize, carrier: usize, felts: usize, bind: bool)
    requires
        1 <= felts,
        felts > 4 ==> absorb + div_up(felts as int, 4) <= usize::MAX,
        bind ==> carrier + felts <= usize::MAX,
    ensures
        final(out)@ == old(out)@ + leaf_wires(head as int, absorb as int, carrier as int, felts as int, bind),
{
    reveal(leaf_wires);
    let ghost base = out@;
    let on: Wire = per(head);
    let first: usize = if felts < 4 {
        felts
    } else {
        4
    };
    if bind {
        let ghost f = f_leaf_head(head as int, carrier as int);
        let mut c: usize = 0;
        assert(out@ =~= base + flat(0, f));
        while c < first
            invariant
                c <= first <= felts,
                carrier + felts <= usize::MAX,
                on == w_per(head as int),
                f == f_leaf_head(head as int, carrier as int),
                out@ == base + flat(c as int, f),
            decreases first - c,
        {
            let ghost step = out@;
            out.push(times(&on, &minus(&cur(c), &cur(carrier + c))));
            proof {
                assert(out@ =~= step + f(c as int));
                lemma_flat_step(base, c as int, f, out@);
            }
            c += 1;
        }
    }
    let ghost base1 = out@;
    let ghost g = f_leaf_empty(head as int, first as int);
    let mut i: usize = 0;
    assert(out@ =~= base1 + flat(0, g));
    while i < 8 - first
        invariant
            first <= 4,
            i <= 8 - first,
            on == w_per(head as int),
            g == f_leaf_empty(head as int, first as int),
            out@ == base1 + flat(i as int, g),
        decreases 8 - first - i,
    {
        let ghost step = out@;
        out.push(times(&on, &cur(first + i)));
        proof {
            assert(out@ =~= step + g(i as int));
            lemma_flat_step(base1, i as int, g, out@);
        }
        i += 1;
    }
    let ghost base2 = out@;
    if bind && felts > 4 {
        let ghost h = f_leaf_absorb(absorb as int, carrier as int);
        let mut c: usize = 0;
        assert(out@ =~= base2 + flat(0, h));
        while c < felts - 4
            invariant
                felts > 4,
                c <= felts - 4,
                carrier + felts <= usize::MAX,
                absorb + div_up(felts as int, 4) <= usize::MAX,
                h == f_leaf_absorb(absorb as int, carrier as int),
                out@ == base2 + flat(c as int, h),
            decreases felts - 4 - c,
        {
            let ghost step = out@;
            let at: usize = 4 + c;
            out.push(times(&per(absorb + at / 4 - 1), &minus(&cur(at % 4), &cur(carrier + at))));
            proof {
                assert(out@ =~= step + h(c as int));
                lemma_flat_step(base2, c as int, h, out@);
            }
            c += 1;
        }
    }
    let ghost base3 = out@;
    let blocks: usize = div_ceil(felts, RATE);
    if blocks > 1 {
        emit_lane_carry(out, absorb + blocks - 1, 4, 4);
        let rem: usize = felts % RATE;
        if rem != 0 {
            emit_lane_carry(out, absorb + blocks, rem, 4 - rem);
        }
    }
    assert(out@ =~= base + leaf_wires(head as int, absorb as int, carrier as int, felts as int, bind));
}

impl MonolithAir {
    pub open spec fn s_trace_leaf(&self) -> Seq<Wire> {
        leaf_wires(
            self.s_m_leaf(),
            self.s_leaf_absorb_base(),
            self.s_ov(),
            self.s_input_leaf_felts(),
            !self.narrow_ov,
        )
    }

    pub open spec fn s_quot_leaf(&self) -> Seq<Wire> {
        leaf_wires(self.s_q_leaf(), self.s_quot_absorb_base(), self.s_qc(0), self.s_quot_leaf_felts(), true)
    }

    /// The opening of the random round, when hiding.
    pub open spec fn s_random_opening(&self) -> Seq<Wire> {
        if self.is_zk == 1 {
            leaf_wires(
                self.s_p_random_leaf(),
                self.s_random_absorb_base() + 2,
                self.s_ov_random(0),
                self.s_random_leaf_felts(),
                true,
            ) + self.s_random_term()
        } else {
            Seq::empty()
        }
    }

    /// The opening of the aux round, with a lookup argument.
    pub open spec fn s_aux_opening(&self) -> Seq<Wire> {
        if self.s_is_lookup() {
            leaf_wires(
                self.s_p_aux_leaf(),
                self.s_aux_absorb_base() + 2,
                self.s_ov_aux(0),
                self.s_aux_leaf_felts(),
                true,
            ) + self.s_aux_term()
        } else {
            Seq::empty()
        }
    }

    /// The second block of the commit leaves, when hiding.
    pub open spec fn s_salted_leaves(&self) -> Seq<Wire> {
        if self.is_zk == 1 {
            self.s_commit_carry()
        } else {
            Seq::empty()
        }
    }

    /// The openings from their leaves up.
    pub open spec fn s_leaves(&self) -> Seq<Wire> {
        self.s_trace_leaf() + self.s_quot_leaf() + self.s_random_opening() + self.s_aux_opening()
            + self.all_commit_leaf() + self.s_salted_leaves() + self.s_path_bit()
    }

    fn emit_random_opening(&self, out: &mut Vec<Wire>)
        requires
            self.wf(),
        ensures
            final(out)@ == old(out)@ + self.s_random_opening(),
    {
        let ghost base = out@;
        proof {
            self.lemma_bounds();
        }
        if self.is_zk == 1 {
            emit_leaf(
                out,
                self.p_random_leaf(),
                self.random_absorb_base() + 2,
                self.ov_random(0),
                self.random_leaf_felts(),
                true,
            );
            let ghost leaf = leaf_wires(
                self.s_p_random_leaf(),
                self.s_random_absorb_base() + 2,
                self.s_ov_random(0),
                self.s_random_leaf_felts(),
                true,
            );
            self.emit_random_term(out);
            proof {
                lemma_append_assoc(base, leaf, self.s_random_term());
            }
        } else {
            assert(out@ =~= base + self.s_random_opening());
        }
    }

    fn emit_aux_opening(&self, out: &mut Vec<Wire>)
        requires
            self.wf(),
        ensures
            final(out)@ == old(out)@ + self.s_aux_opening(),
    {
        let ghost base = out@;
        proof {
            self.lemma_bounds();
        }
        if self.is_lookup() {
            emit_leaf(
                out,
                self.p_aux_leaf(),
                self.aux_absorb_base() + 2,
                self.ov_aux(0),
                self.aux_leaf_felts(),
                true,
            );
            let ghost leaf = leaf_wires(
                self.s_p_aux_leaf(),
                self.s_aux_absorb_base() + 2,
                self.s_ov_aux(0),
                self.s_aux_leaf_felts(),
                true,
            );
            self.emit_aux_term(out);
            proof {
                lemma_append_assoc(base, leaf, self.s_aux_term());
            }
        } else {
            assert(out@ =~= base + self.s_aux_opening());
        }
    }

    fn emit_salted_leaves(&self, out: &mut Vec<Wire>)
        requires
            self.wf(),
        ensures
            final(out)@ == old(out)@ + self.s_salted_leaves(),
    {
        let ghost base = out@;
        if self.is_zk == 1 && self.cm_leaf_blocks() > 1 {
            self.emit_commit_carry(out);
        } else {
            assert(out@ =~= base + self.s_salted_leaves());
        }
    }

    pub(super) fn emit_leaves(&self, out: &mut Vec<Wire>)
        requires
            self.wf(),
        ensures
            final(out)@ == old(out)@ + self.s_leaves(),
    {
        let ghost base = out@;
        proof {
            self.lemma_bounds();
        }
        emit_leaf(
            out,
            self.m_leaf(),
            self.leaf_absorb_base(),
            self.ov(),
            self.input_leaf_felts(),
            !self.narrow_ov,
        );
        emit_leaf(out, self.q_leaf(), self.quot_absorb_base(), self.qc(0), self.quot_leaf_felts(), true);
        let ghost l1 = self.s_trace_leaf() + self.s_quot_leaf();
        proof {
            lemma_append_assoc(base, self.s_trace_leaf(), self.s_quot_leaf());
        }
        self.emit_random_opening(out);
        let ghost l2 = l1 + self.s_random_opening();
        proof {
            lemma_append_assoc(base, l1, self.s_random_opening());
        }
        self.emit_aux_opening(out);
        let ghost l3 = l2 + self.s_aux_opening();
        proof {
            lemma_append_assoc(base, l2, self.s_aux_opening());
        }
        self.emit_commit_leaf(out);
        let ghost l4 = l3 + self.all_commit_leaf();
        proof {
            lemma_append_assoc(base, l3, self.all_commit_leaf());
        }
        self.emit_salted_leaves(out);
        let ghost l5 = l4 + self.s_salted_leaves();
        proof {
            lemma_append_assoc(base, l4, self.s_salted_leaves());
        }
        self.emit_path_bit(out);
        proof {
            lemma_append_assoc(base, l5, self.s_path_bit());
        }
    }

    /// The terminals of the first `n` commit rounds, added to those of the other openings.
    pub open spec fn s_terminals(&self, n: int) -> Wire
        decreases n,
    {
        if n <= 0 {
            let both = w_plus(w_per(self.s_m_term()), w_per(self.s_q_term()));
            if self.is_zk == 1 {
                w_plus(both, w_per(self.s_p_random_term()))
            } else {
                both
            }
        } else {
            w_plus(self.s_terminals(n - 1), w_per(self.s_c_term(n - 1)))
        }
    }

    /// The marks of the rows after which no merge follows.
    pub open spec fn s_link_exclusions(&self) -> Wire {
        let t0 = self.s_terminals(self.s_cm_rounds());
        let t1 = if self.s_leaf_blocks() > 1 {
            w_plus(t0, w_per(self.s_in_boundary()))
        } else {
            t0
        };
        let t2 = if self.s_quot_leaf_blocks() > 1 {
            w_plus(t1, w_per(self.s_q_boundary()))
        } else {
            t1
        };
        let t3 = if self.is_zk == 1 {
            w_plus(w_plus(t2, w_per(self.s_p_random_boundary())), w_per(self.s_c_bnd()))
        } else {
            t2
        };
        if self.s_is_lookup() {
            let t4 = w_plus(t3, w_per(self.s_p_aux_term()));
            if self.s_aux_leaf_blocks() > 1 {
                w_plus(t4, w_per(self.s_p_aux_boundary()))
            } else {
                t4
            }
        } else {
            t3
        }
    }

    /// When a block links to the next one: on the last row of a Merkle block, unless excluded or last of its super-tile.
    pub open spec fn s_link_gate(&self) -> Wire {
        let one = w_const(1);
        w_times(
            w_times(
                w_times(w_per(self.s_s_merkle()), w_per(FT_P_BLOCK_LAST as int)),
                w_minus(one, w_per(self.s_p_st_last())),
            ),
            w_minus(one, self.s_link_exclusions()),
        )
    }

    /// Lane `k` of the next block's halves: the digest so far and the sibling, in the order of the path bit.
    pub open spec fn s_link(&self, k: int) -> Seq<Wire> {
        let one = w_const(1);
        let link = self.s_link_gate();
        let bit = w_nxt(12);
        let sib = w_nxt(8 + k);
        seq![
            w_on_transition(
                w_times(
                    link,
                    w_minus(w_nxt(k), w_plus(w_times(w_minus(one, bit), w_cur(k)), w_times(bit, sib))),
                ),
            ),
            w_on_transition(
                w_times(
                    link,
                    w_minus(w_nxt(4 + k), w_plus(w_times(w_minus(one, bit), sib), w_times(bit, w_cur(k)))),
                ),
            ),
        ]
    }

    pub open spec fn f_link(&self) -> spec_fn(int) -> Seq<Wire> {
        |k: int| self.s_link(k)
    }

    fn link_exclusions(&self) -> (r: Wire)
        requires
            self.wf(),
        ensures
            r == self.s_link_exclusions(),
    {
        proof {
            self.lemma_bounds();
        }
        let rounds: usize = self.cm_rounds();
        let mut sum: Wire = plus(&per(self.m_term()), &per(self.q_term()));
        if self.is_zk == 1 {
            sum = plus(&sum, &per(self.p_random_term()));
        }
        let mut r: usize = 0;
        while r < rounds
            invariant
                self.wf(),
                r <= rounds == self.s_cm_rounds(),
                sum == self.s_terminals(r as int),
            decreases rounds - r,
        {
            sum = plus(&sum, &per(self.c_term(r)));
            r += 1;
        }
        if self.leaf_blocks() > 1 {
            sum = plus(&sum, &per(self.in_boundary()));
        }
        if self.quot_leaf_blocks() > 1 {
            sum = plus(&sum, &per(self.q_boundary()));
        }
        if self.is_zk == 1 {
            sum = plus(&sum, &per(self.p_random_boundary()));
            sum = plus(&sum, &per(self.c_bnd()));
        }
        if self.is_lookup() {
            sum = plus(&sum, &per(self.p_aux_term()));
            if self.aux_leaf_blocks() > 1 {
                sum = plus(&sum, &per(self.p_aux_boundary()));
            }
        }
        sum
    }

    pub(super) fn emit_link(&self, out: &mut Vec<Wire>)
        requires
            self.wf(),
        ensures
            final(out)@ == old(out)@ + flat(4, self.f_link()),
    {
        let ghost base = out@;
        proof {
            self.lemma_bounds();
        }
        let one: Wire = constant(1);
        let link: Wire = times(
            &times(
                &times(&per(self.s_merkle()), &per(FT_P_BLOCK_LAST)),
                &minus(&one, &per(self.p_st_last())),
            ),
            &minus(&one, &self.link_exclusions()),
        );
        let bit: Wire = nxt(12);
        let mut k: usize = 0;
        assert(out@ =~= base + flat(0, self.f_link()));
        while k < 4
            invariant
                self.wf(),
                k <= 4,
                one == w_const(1),
                link == self.s_link_gate(),
                bit == w_nxt(12),
                out@ == base + flat(k as int, self.f_link()),
            decreases 4 - k,
        {
            let ghost step = out@;
            let sib: Wire = nxt(8 + k);
            out.push(
                on_transition(
                    &times(
                        &link,
                        &minus(&nxt(k), &plus(&times(&minus(&one, &bit), &cur(k)), &times(&bit, &sib))),
                    ),
                ),
            );
            out.push(
                on_transition(
                    &times(
                        &link,
                        &minus(&nxt(4 + k), &plus(&times(&minus(&one, &bit), &sib), &times(&bit, &cur(k)))),
                    ),
                ),
            );
            proof {
                assert(out@ =~= step + self.s_link(k as int));
                lemma_flat_step(base, k as int, self.f_link(), out@);
            }
            k += 1;
        }
    }
}

} // verus!
