//! The constraint families of the fused verifier that share one shape: transcript, carriers, leaves, paths
//! and the root fold.

use vstd::prelude::*;

use super::layout::{
    MonolithAir, CAP_LANE, FT_BIND_START, FT_COUNT, FT_COUNT_NEXT, FT_IS_SQ_NEXT, FT_P_BLOCK_LAST, QT_B, QT_BIT,
    QT_DBITS, QT_E, QT_S,
};
use crate::emit::{flat, lemma_flat_step};
use crate::expr::{
    constant, cur, minus, nxt, on_first, on_last, on_transition, per, plus, public, times, w_const, w_cur, w_minus,
    w_nxt, w_on_first, w_on_last, w_on_transition, w_per, w_plus, w_pub, w_times, Wire,
};
use crate::field::TWO_ADICITY;

verus! {

impl MonolithAir {
    /// Public value `i` of the inner proof: a window column, or a public value of the statement.
    pub open spec fn s_pi(&self, i: int) -> Wire {
        if self.column_window {
            w_cur(self.s_pw(i))
        } else {
            w_pub(i)
        }
    }

    /// Public value `i` of the inner proof.
    pub fn pi(&self, i: usize) -> (r: Wire)
        requires
            self.wf(),
            i < self.s_pis_count(),
        ensures
            r == self.s_pi(i as int),
    {
        proof {
            self.lemma_bounds();
        }
        if self.column_window {
            cur(self.pw(i))
        } else {
            public(i)
        }
    }

    /// The lane of the first coordinate of challenge `j`: the top of the rate, unless it is a lookup challenge.
    pub open spec fn s_bind_lane(&self, j: int) -> int {
        match self.lookup {
            Some(l) => if j < l.n_lookup_challenges {
                l.lookup_bind_lanes@[j] as int
            } else {
                3
            },
            None => 3,
        }
    }

    /// Every lookup challenge has a lane with one below it.
    pub open spec fn lanes_ok(&self) -> bool {
        match self.lookup {
            Some(l) => {
                &&& l.lookup_bind_lanes@.len() >= l.n_lookup_challenges
                &&& forall|j: int| 0 <= j < l.n_lookup_challenges ==> 1 <= #[trigger] l.lookup_bind_lanes@[j]
            },
            None => true,
        }
    }

    pub fn bind_lane(&self, j: usize) -> (r: usize)
        requires
            self.lanes_ok(),
        ensures
            r == self.s_bind_lane(j as int),
            1 <= r,
    {
        match &self.lookup {
            Some(l) => if j < l.n_lookup_challenges {
                l.lookup_bind_lanes[j]
            } else {
                3
            },
            None => 3,
        }
    }

    /// The lane of query index `k`.
    pub open spec fn s_index_lane(&self, k: int) -> int {
        self.index_binds@[k].1 as int
    }

    pub fn index_lane(&self, k: usize) -> (r: usize)
        requires
            k < self.index_binds@.len(),
        ensures
            r == self.s_index_lane(k as int),
    {
        self.index_binds[k].1
    }

    /// The chunk of felt `c` of a quotient leaf, and the place of the felt in it.
    pub open spec fn s_chunk_of(&self, c: int) -> int {
        c / self.s_quot_chunk_stride()
    }

    pub open spec fn s_chunk_component(&self, c: int) -> int {
        c % self.s_quot_chunk_stride()
    }

    pub fn chunk_of(&self, c: usize) -> (r: usize)
        ensures
            r == self.s_chunk_of(c as int),
    {
        c / self.quot_chunk_stride()
    }

    pub fn chunk_component(&self, c: usize) -> (r: usize)
        ensures
            r == self.s_chunk_component(c as int),
    {
        c % self.quot_chunk_stride()
    }

    /// The terms fill the tile: every term has its columns in it, and the quotient terms are the last ones.
    pub proof fn lemma_terms(&self)
        requires
            self.wf(),
        ensures
            forall|k: int|
                0 <= k < self.n_terms ==> self.s_qt_terms() <= (#[trigger] self.s_px(k)) <= self.s_idx_rem(),
            forall|k: int| 0 <= k < self.n_terms && !self.narrow_arith && !self.narrow_openings
                ==> (#[trigger] self.s_z(k)) + 9 <= self.s_tile_w(),
            self.s_idx_rem() + 3 <= self.s_ov(),
            self.s_trm_next_base() + self.s_trm_committed_w() <= self.n_terms,
            self.s_is_lookup() ==> self.s_trm_quot_base() <= self.n_terms,
            self.s_trm_quot_base() + self.s_chunk_offset(self.s_nqc()) <= self.n_terms,
    {
        self.lemma_bounds();
        if self.is_zk == 1 {
            let rest = self.n_terms - 6 - 2 * (self.s_w_inner() + 4);
            assert(self.s_nqc() == rest / 6);
        }
    }

    /// A component of a quotient chunk has a term.
    pub proof fn lemma_chunks(&self, c: int)
        requires
            self.wf(),
            0 <= c < self.s_quot_leaf_felts(),
        ensures
            0 <= self.s_chunk_of(c) < self.s_nqc(),
            0 <= self.s_chunk_component(c) < self.s_trm_chunk_w() ==> 0 <= self.s_trm_quot(
                self.s_chunk_of(c),
                self.s_chunk_component(c),
            ) < self.n_terms,
    {
        self.lemma_terms();
        let (s, n) = (self.s_quot_chunk_stride(), self.s_nqc());
        vstd::arithmetic::div_mod::lemma_fundamental_div_mod(c, s);
        let i = self.s_chunk_of(c);
        assert(n * s == self.s_quot_leaf_felts()) by (nonlinear_arith)
            requires
                self.s_quot_leaf_felts() == (if s == 10 { 10 * n } else { 2 * n }),
                s == 10 || s == 2,
        ;
        assert(0 <= i < n) by (nonlinear_arith)
            requires
                c == s * i + c % s,
                0 <= c % s < s,
                0 <= c < n * s,
                s > 0,
        ;
    }

    /// The first row of an instance: the sponge starts from the empty capacity with the first input count.
    pub open spec fn s_transcript_start(&self) -> Seq<Wire> {
        let pif = w_per(self.s_p_inst_first());
        seq![
            w_times(pif, w_minus(w_cur(CAP_LANE as int), w_per(FT_COUNT as int))),
            w_times(pif, w_cur(5)),
            w_times(pif, w_cur(6)),
            w_times(pif, w_cur(7)),
        ]
    }

    pub(super) fn emit_transcript_start(&self, out: &mut Vec<Wire>)
        requires
            self.wf(),
        ensures
            final(out)@ == old(out)@ + self.s_transcript_start(),
    {
        let ghost base = out@;
        proof {
            self.lemma_bounds();
        }
        let pif: Wire = per(self.p_inst_first());
        out.push(times(&pif, &minus(&cur(CAP_LANE), &per(FT_COUNT))));
        out.push(times(&pif, &cur(5)));
        out.push(times(&pif, &cur(6)));
        out.push(times(&pif, &cur(7)));
        assert(out@ =~= base + self.s_transcript_start());
    }

    /// Between transcript blocks the capacity carries over, with the next input count added, and a block that absorbs nothing keeps the rate.
    pub open spec fn s_transcript_link(&self) -> Seq<Wire> {
        let stt = w_per(self.s_s_trans_trans());
        let bl = w_per(FT_P_BLOCK_LAST as int);
        let sq = w_per(FT_IS_SQ_NEXT as int);
        seq![
            w_on_transition(w_times(w_times(stt, bl), w_minus(w_minus(w_nxt(CAP_LANE as int), w_cur(CAP_LANE as int)), w_per(FT_COUNT_NEXT as int)))),
            w_on_transition(w_times(w_times(stt, bl), w_minus(w_nxt(5), w_cur(5)))),
            w_on_transition(w_times(w_times(stt, bl), w_minus(w_nxt(6), w_cur(6)))),
            w_on_transition(w_times(w_times(stt, bl), w_minus(w_nxt(7), w_cur(7)))),
            w_on_transition(w_times(w_times(w_times(stt, bl), sq), w_minus(w_nxt(0), w_cur(0)))),
            w_on_transition(w_times(w_times(w_times(stt, bl), sq), w_minus(w_nxt(1), w_cur(1)))),
            w_on_transition(w_times(w_times(w_times(stt, bl), sq), w_minus(w_nxt(2), w_cur(2)))),
            w_on_transition(w_times(w_times(w_times(stt, bl), sq), w_minus(w_nxt(3), w_cur(3)))),
        ]
    }

    pub(super) fn emit_transcript_link(&self, out: &mut Vec<Wire>)
        requires
            self.wf(),
        ensures
            final(out)@ == old(out)@ + self.s_transcript_link(),
    {
        let ghost base = out@;
        proof {
            self.lemma_bounds();
        }
        let stt: Wire = per(self.s_trans_trans());
        let bl: Wire = per(FT_P_BLOCK_LAST);
        let sq: Wire = per(FT_IS_SQ_NEXT);
        out.push(on_transition(&times(&times(&stt, &bl), &minus(&minus(&nxt(CAP_LANE), &cur(CAP_LANE)), &per(FT_COUNT_NEXT)))));
        out.push(on_transition(&times(&times(&stt, &bl), &minus(&nxt(5), &cur(5)))));
        out.push(on_transition(&times(&times(&stt, &bl), &minus(&nxt(6), &cur(6)))));
        out.push(on_transition(&times(&times(&stt, &bl), &minus(&nxt(7), &cur(7)))));
        out.push(on_transition(&times(&times(&times(&stt, &bl), &sq), &minus(&nxt(0), &cur(0)))));
        out.push(on_transition(&times(&times(&times(&stt, &bl), &sq), &minus(&nxt(1), &cur(1)))));
        out.push(on_transition(&times(&times(&times(&stt, &bl), &sq), &minus(&nxt(2), &cur(2)))));
        out.push(on_transition(&times(&times(&times(&stt, &bl), &sq), &minus(&nxt(3), &cur(3)))));
        assert(out@ =~= base + self.s_transcript_link());
    }

    /// Challenge `j` is the pair of lanes squeezed at its block.
    pub open spec fn s_binds(&self, j: int) -> Seq<Wire> {
        let b = w_per(FT_BIND_START + j);
        seq![
            w_times(b, w_minus(w_cur(self.s_bind_lane(j)), self.s_pi(2 * j))),
            w_times(b, w_minus(w_cur(self.s_bind_lane(j) - 1), self.s_pi(2 * j + 1))),
        ]
    }

    pub open spec fn f_binds(&self) -> spec_fn(int) -> Seq<Wire> {
        |j: int| self.s_binds(j)
    }

    pub open spec fn all_binds(&self) -> Seq<Wire> {
        flat(self.s_nb(), self.f_binds())
    }

    pub(super) fn emit_binds(&self, out: &mut Vec<Wire>)
        requires
            self.wf(),
            self.lanes_ok(),
        ensures
            final(out)@ == old(out)@ + self.all_binds(),
    {
        let ghost base = out@;
        let n: usize = self.nb();
        let mut j: usize = 0;
        assert(out@ =~= base + flat(0, self.f_binds()));
        while j < n
            invariant
                self.wf(),
                self.lanes_ok(),
                j <= n == self.s_nb(),
                out@ == base + flat(j as int, self.f_binds()),
            decreases n - j,
        {
            let ghost step = out@;
            proof {
                self.lemma_bounds();
            }
            let b: Wire = per(FT_BIND_START + j);
            out.push(times(&b, &minus(&cur(self.bind_lane(j)), &self.pi(2 * j))));
            out.push(times(&b, &minus(&cur(self.bind_lane(j) - 1), &self.pi(2 * j + 1))));
            proof {
                assert(out@ =~= step + self.s_binds(j as int));
                lemma_flat_step(base, j as int, self.f_binds(), out@);
            }
            j += 1;
        }
    }

    /// Query index `k` is the lane squeezed at its block.
    pub open spec fn s_index_binds(&self, k: int) -> Seq<Wire> {
        let b = w_per(FT_BIND_START + self.s_nb() + k);
        seq![
            w_times(b, w_minus(w_cur(self.s_index_lane(k)), self.s_pi(2 * self.s_nb() + k))),
        ]
    }

    pub open spec fn f_index_binds(&self) -> spec_fn(int) -> Seq<Wire> {
        |k: int| self.s_index_binds(k)
    }

    pub open spec fn all_index_binds(&self) -> Seq<Wire> {
        flat(self.s_ni(), self.f_index_binds())
    }

    pub(super) fn emit_index_binds(&self, out: &mut Vec<Wire>)
        requires
            self.wf(),
        ensures
            final(out)@ == old(out)@ + self.all_index_binds(),
    {
        let ghost base = out@;
        let n: usize = self.ni();
        let mut k: usize = 0;
        assert(out@ =~= base + flat(0, self.f_index_binds()));
        while k < n
            invariant
                self.wf(),
                k <= n == self.s_ni(),
                out@ == base + flat(k as int, self.f_index_binds()),
            decreases n - k,
        {
            let ghost step = out@;
            proof {
                self.lemma_bounds();
            }
            let b: Wire = per(FT_BIND_START + self.nb() + k);
            out.push(times(&b, &minus(&cur(self.index_lane(k)), &self.pi(2 * self.nb() + k))));
            proof {
                assert(out@ =~= step + self.s_index_binds(k as int));
                lemma_flat_step(base, k as int, self.f_index_binds(), out@);
            }
            k += 1;
        }
    }

    /// The batching challenge is held through the instance and seeded where it is squeezed.
    pub open spec fn s_carrier(&self) -> Seq<Wire> {
        let held = w_minus(w_const(1), w_per(self.s_p_inst_last()));
        let seed = w_per(FT_BIND_START + self.s_ch_alpha_fri());
        seq![
            w_on_transition(w_times(held, w_minus(w_nxt(self.s_carry()), w_cur(self.s_carry())))),
            w_on_transition(w_times(held, w_minus(w_nxt(self.s_carry() + 1), w_cur(self.s_carry() + 1)))),
            w_times(seed, w_minus(w_cur(self.s_carry()), w_cur(3))),
            w_times(seed, w_minus(w_cur(self.s_carry() + 1), w_cur(2))),
        ]
    }

    pub(super) fn emit_carrier(&self, out: &mut Vec<Wire>)
        requires
            self.wf(),
        ensures
            final(out)@ == old(out)@ + self.s_carrier(),
    {
        let ghost base = out@;
        proof {
            self.lemma_bounds();
        }
        let held: Wire = minus(&constant(1), &per(self.p_inst_last()));
        let seed: Wire = per(FT_BIND_START + self.ch_alpha_fri());
        out.push(on_transition(&times(&held, &minus(&nxt(self.carry()), &cur(self.carry())))));
        out.push(on_transition(&times(&held, &minus(&nxt(self.carry() + 1), &cur(self.carry() + 1)))));
        out.push(times(&seed, &minus(&cur(self.carry()), &cur(3))));
        out.push(times(&seed, &minus(&cur(self.carry() + 1), &cur(2))));
        assert(out@ =~= base + self.s_carrier());
    }

    /// Public value `i` is held in its window column through the instance.
    pub open spec fn s_window(&self, i: int) -> Seq<Wire> {
        seq![
            w_on_transition(w_times(w_minus(w_const(1), w_per(self.s_p_inst_last())), w_minus(w_nxt(self.s_pw(i)), w_cur(self.s_pw(i))))),
        ]
    }

    pub open spec fn f_window(&self) -> spec_fn(int) -> Seq<Wire> {
        |i: int| self.s_window(i)
    }

    pub open spec fn all_window(&self) -> Seq<Wire> {
        if self.column_window {
            flat(self.s_pis_count(), self.f_window())
        } else {
            Seq::empty()
        }
    }

    pub(super) fn emit_window(&self, out: &mut Vec<Wire>)
        requires
            self.wf(),
        ensures
            final(out)@ == old(out)@ + self.all_window(),
    {
        let ghost base = out@;
        if self.column_window {
            let n: usize = self.pis_count();
            let mut i: usize = 0;
            assert(out@ =~= base + flat(0, self.f_window()));
            while i < n
                invariant
                    self.wf(),
                    i <= n == self.s_pis_count(),
                    out@ == base + flat(i as int, self.f_window()),
                    self.column_window,
                decreases n - i,
            {
                let ghost step = out@;
                proof {
                    self.lemma_bounds();
                }
                out.push(on_transition(&times(&minus(&constant(1), &per(self.p_inst_last())), &minus(&nxt(self.pw(i)), &cur(self.pw(i))))));
                proof {
                    assert(out@ =~= step + self.s_window(i as int));
                    lemma_flat_step(base, i as int, self.f_window(), out@);
                }
                i += 1;
            }
        } else {
            assert(out@ =~= base + self.all_window());
        }
    }

    /// Column `j` of the squaring chain is held through the instance.
    pub open spec fn s_chain(&self, j: int) -> Seq<Wire> {
        seq![
            w_on_transition(w_times(w_minus(w_const(1), w_per(self.s_p_inst_last())), w_minus(w_nxt(self.s_sch(j)), w_cur(self.s_sch(j))))),
        ]
    }

    pub open spec fn f_chain(&self) -> spec_fn(int) -> Seq<Wire> {
        |j: int| self.s_chain(j)
    }

    pub open spec fn all_chain(&self) -> Seq<Wire> {
        if self.column_window {
            flat(2 * self.s_cm_rounds(), self.f_chain())
        } else {
            Seq::empty()
        }
    }

    pub(super) fn emit_chain(&self, out: &mut Vec<Wire>)
        requires
            self.wf(),
        ensures
            final(out)@ == old(out)@ + self.all_chain(),
    {
        let ghost base = out@;
        if self.column_window {
            let n: usize = 2 * self.cm_rounds();
            let mut j: usize = 0;
            assert(out@ =~= base + flat(0, self.f_chain()));
            while j < n
                invariant
                    self.wf(),
                    j <= n == 2 * self.s_cm_rounds(),
                    out@ == base + flat(j as int, self.f_chain()),
                    self.column_window,
                decreases n - j,
            {
                let ghost step = out@;
                proof {
                    self.lemma_bounds();
                }
                out.push(on_transition(&times(&minus(&constant(1), &per(self.p_inst_last())), &minus(&nxt(self.sch(j)), &cur(self.sch(j))))));
                proof {
                    assert(out@ =~= step + self.s_chain(j as int));
                    lemma_flat_step(base, j as int, self.f_chain(), out@);
                }
                j += 1;
            }
        } else {
            assert(out@ =~= base + self.all_chain());
        }
    }

    /// On fold row `r` the fold challenge is that of the round.
    pub open spec fn s_betas(&self, r: int) -> Seq<Wire> {
        let on = w_per(self.s_p_round(r));
        seq![
            w_times(on, w_minus(w_cur(QT_B as int), self.s_pi(2 * self.s_ch_beta(r)))),
            w_times(on, w_minus(w_cur(QT_B + 1), self.s_pi(2 * self.s_ch_beta(r) + 1))),
        ]
    }

    pub open spec fn f_betas(&self) -> spec_fn(int) -> Seq<Wire> {
        |r: int| self.s_betas(r)
    }

    pub open spec fn all_betas(&self) -> Seq<Wire> {
        flat(self.s_cm_rounds(), self.f_betas())
    }

    pub(super) fn emit_betas(&self, out: &mut Vec<Wire>)
        requires
            self.wf(),
        ensures
            final(out)@ == old(out)@ + self.all_betas(),
    {
        let ghost base = out@;
        let n: usize = self.cm_rounds();
        let mut r: usize = 0;
        assert(out@ =~= base + flat(0, self.f_betas()));
        while r < n
            invariant
                self.wf(),
                r <= n == self.s_cm_rounds(),
                out@ == base + flat(r as int, self.f_betas()),
            decreases n - r,
        {
            let ghost step = out@;
            proof {
                self.lemma_bounds();
            }
            let on: Wire = per(self.p_round(r));
            out.push(times(&on, &minus(&cur(QT_B), &self.pi(2 * self.ch_beta(r)))));
            out.push(times(&on, &minus(&cur(QT_B + 1), &self.pi(2 * self.ch_beta(r) + 1))));
            proof {
                assert(out@ =~= step + self.s_betas(r as int));
                lemma_flat_step(base, r as int, self.f_betas(), out@);
            }
            r += 1;
        }
    }

    /// The index bits are bits.
    pub open spec fn s_index_bits(&self, i: int) -> Seq<Wire> {
        let tf = w_per(self.s_m_tf());
        let b = w_cur(self.s_sb_b(i));
        seq![
            w_times(tf, w_times(b, w_minus(w_const(1), b))),
        ]
    }

    pub open spec fn f_index_bits(&self) -> spec_fn(int) -> Seq<Wire> {
        |i: int| self.s_index_bits(i)
    }

    pub open spec fn all_index_bits(&self) -> Seq<Wire> {
        flat(64, self.f_index_bits())
    }

    pub(super) fn emit_index_bits(&self, out: &mut Vec<Wire>)
        requires
            self.wf(),
        ensures
            final(out)@ == old(out)@ + self.all_index_bits(),
    {
        let ghost base = out@;
        let n: usize = 64;
        let mut i: usize = 0;
        assert(out@ =~= base + flat(0, self.f_index_bits()));
        while i < n
            invariant
                self.wf(),
                i <= n == 64,
                out@ == base + flat(i as int, self.f_index_bits()),
            decreases n - i,
        {
            let ghost step = out@;
            proof {
                self.lemma_bounds();
            }
            let tf: Wire = per(self.m_tf());
            let b: Wire = cur(self.sb_b(i));
            out.push(times(&tf, &times(&b, &minus(&constant(1), &b))));
            proof {
                assert(out@ =~= step + self.s_index_bits(i as int));
                lemma_flat_step(base, i as int, self.f_index_bits(), out@);
            }
            i += 1;
        }
    }

    /// The running conjunctions of the high index bits.
    pub open spec fn s_index_high(&self, m: int) -> Seq<Wire> {
        let tf = w_per(self.s_m_tf());
        seq![
            w_times(tf, w_minus(w_cur(self.s_sb_q(m + 1)), w_times(w_cur(self.s_sb_q(m)), w_cur(self.s_sb_b(34 + m))))),
        ]
    }

    pub open spec fn f_index_high(&self) -> spec_fn(int) -> Seq<Wire> {
        |m: int| self.s_index_high(m)
    }

    pub open spec fn all_index_high(&self) -> Seq<Wire> {
        flat(30, self.f_index_high())
    }

    pub(super) fn emit_index_high(&self, out: &mut Vec<Wire>)
        requires
            self.wf(),
        ensures
            final(out)@ == old(out)@ + self.all_index_high(),
    {
        let ghost base = out@;
        let n: usize = 30;
        let mut m: usize = 0;
        assert(out@ =~= base + flat(0, self.f_index_high()));
        while m < n
            invariant
                self.wf(),
                m <= n == 30,
                out@ == base + flat(m as int, self.f_index_high()),
            decreases n - m,
        {
            let ghost step = out@;
            proof {
                self.lemma_bounds();
            }
            let tf: Wire = per(self.m_tf());
            out.push(times(&tf, &minus(&cur(self.sb_q(m + 1)), &times(&cur(self.sb_q(m)), &cur(self.sb_b(34 + m))))));
            proof {
                assert(out@ =~= step + self.s_index_high(m as int));
                lemma_flat_step(base, m as int, self.f_index_high(), out@);
            }
            m += 1;
        }
    }

    /// The point bits are the low index bits.
    pub open spec fn s_deep_bits(&self, i: int) -> Seq<Wire> {
        let tf = w_per(self.s_m_tf());
        seq![
            w_times(tf, w_minus(w_cur(QT_DBITS + i), w_cur(self.s_sb_b(i)))),
        ]
    }

    pub open spec fn f_deep_bits(&self) -> spec_fn(int) -> Seq<Wire> {
        |i: int| self.s_deep_bits(i)
    }

    pub open spec fn all_deep_bits(&self) -> Seq<Wire> {
        flat(self.s_lg(), self.f_deep_bits())
    }

    pub(super) fn emit_deep_bits(&self, out: &mut Vec<Wire>)
        requires
            self.wf(),
            self.s_lg() <= TWO_ADICITY,
        ensures
            final(out)@ == old(out)@ + self.all_deep_bits(),
    {
        let ghost base = out@;
        let n: usize = self.lg();
        let mut i: usize = 0;
        assert(out@ =~= base + flat(0, self.f_deep_bits()));
        while i < n
            invariant
                self.wf(),
                self.s_lg() <= TWO_ADICITY,
                i <= n == self.s_lg(),
                out@ == base + flat(i as int, self.f_deep_bits()),
            decreases n - i,
        {
            let ghost step = out@;
            proof {
                self.lemma_bounds();
            }
            let tf: Wire = per(self.m_tf());
            out.push(times(&tf, &minus(&cur(QT_DBITS + i), &cur(self.sb_b(i)))));
            proof {
                assert(out@ =~= step + self.s_deep_bits(i as int));
                lemma_flat_step(base, i as int, self.f_deep_bits(), out@);
            }
            i += 1;
        }
    }

    /// Round `r` carries its fold group in index order, seeded on its fold row and held in the super-tile.
    pub open spec fn s_group(&self, r: int) -> Seq<Wire> {
        let on = w_per(self.s_p_round(r));
        let bit = w_cur(QT_BIT as int);
        let nbit = w_minus(w_const(1), bit);
        let e0 = w_cur(QT_E as int);
        let e1 = w_cur(QT_E + 1);
        let s0 = w_cur(QT_S as int);
        let s1 = w_cur(QT_S + 1);
        let hold = w_times(w_per(self.s_s_query()), w_minus(w_const(1), w_per(self.s_p_st_last())));
        seq![
            w_times(on, w_minus(w_cur(self.s_cg(r, 0)), w_plus(w_times(nbit, e0), w_times(bit, s0)))),
            w_times(on, w_minus(w_cur(self.s_cg(r, 1)), w_plus(w_times(nbit, e1), w_times(bit, s1)))),
            w_times(on, w_minus(w_cur(self.s_cg(r, 2)), w_plus(w_times(nbit, s0), w_times(bit, e0)))),
            w_times(on, w_minus(w_cur(self.s_cg(r, 3)), w_plus(w_times(nbit, s1), w_times(bit, e1)))),
            w_on_transition(w_times(hold, w_minus(w_nxt(self.s_cg(r, 0)), w_cur(self.s_cg(r, 0))))),
            w_on_transition(w_times(hold, w_minus(w_nxt(self.s_cg(r, 1)), w_cur(self.s_cg(r, 1))))),
            w_on_transition(w_times(hold, w_minus(w_nxt(self.s_cg(r, 2)), w_cur(self.s_cg(r, 2))))),
            w_on_transition(w_times(hold, w_minus(w_nxt(self.s_cg(r, 3)), w_cur(self.s_cg(r, 3))))),
        ]
    }

    pub open spec fn f_group(&self) -> spec_fn(int) -> Seq<Wire> {
        |r: int| self.s_group(r)
    }

    pub open spec fn all_group(&self) -> Seq<Wire> {
        flat(self.s_cm_rounds(), self.f_group())
    }

    pub(super) fn emit_group(&self, out: &mut Vec<Wire>)
        requires
            self.wf(),
        ensures
            final(out)@ == old(out)@ + self.all_group(),
    {
        let ghost base = out@;
        let n: usize = self.cm_rounds();
        let mut r: usize = 0;
        assert(out@ =~= base + flat(0, self.f_group()));
        while r < n
            invariant
                self.wf(),
                r <= n == self.s_cm_rounds(),
                out@ == base + flat(r as int, self.f_group()),
            decreases n - r,
        {
            let ghost step = out@;
            proof {
                self.lemma_bounds();
            }
            let on: Wire = per(self.p_round(r));
            let bit: Wire = cur(QT_BIT);
            let nbit: Wire = minus(&constant(1), &bit);
            let e0: Wire = cur(QT_E);
            let e1: Wire = cur(QT_E + 1);
            let s0: Wire = cur(QT_S);
            let s1: Wire = cur(QT_S + 1);
            let hold: Wire = times(&per(self.s_query()), &minus(&constant(1), &per(self.p_st_last())));
            out.push(times(&on, &minus(&cur(self.cg(r, 0)), &plus(&times(&nbit, &e0), &times(&bit, &s0)))));
            out.push(times(&on, &minus(&cur(self.cg(r, 1)), &plus(&times(&nbit, &e1), &times(&bit, &s1)))));
            out.push(times(&on, &minus(&cur(self.cg(r, 2)), &plus(&times(&nbit, &s0), &times(&bit, &e0)))));
            out.push(times(&on, &minus(&cur(self.cg(r, 3)), &plus(&times(&nbit, &s1), &times(&bit, &e1)))));
            out.push(on_transition(&times(&hold, &minus(&nxt(self.cg(r, 0)), &cur(self.cg(r, 0))))));
            out.push(on_transition(&times(&hold, &minus(&nxt(self.cg(r, 1)), &cur(self.cg(r, 1))))));
            out.push(on_transition(&times(&hold, &minus(&nxt(self.cg(r, 2)), &cur(self.cg(r, 2))))));
            out.push(on_transition(&times(&hold, &minus(&nxt(self.cg(r, 3)), &cur(self.cg(r, 3))))));
            proof {
                assert(out@ =~= step + self.s_group(r as int));
                lemma_flat_step(base, r as int, self.f_group(), out@);
            }
            r += 1;
        }
    }

    /// Felt `c` of the opened row is held in the super-tile and feeds its term at both points.
    pub open spec fn s_opened_row(&self, c: int) -> Seq<Wire> {
        let hold = w_times(w_per(self.s_s_query()), w_minus(w_const(1), w_per(self.s_p_st_last())));
        let tf = w_per(self.s_m_tf());
        seq![
            w_on_transition(w_times(hold, w_minus(w_nxt(self.s_ov_c(c)), w_cur(self.s_ov_c(c))))),
        ] + if c < self.s_trm_committed_w() && !self.narrow_arith {
            seq![w_times(tf, w_minus(w_cur(self.s_ov_c(c)), w_cur(self.s_px(self.s_trm_trace(c))))), w_times(tf, w_minus(w_cur(self.s_ov_c(c)), w_cur(self.s_px(self.s_trm_next(c)))))]
        } else {
            Seq::empty()
        }
    }

    pub open spec fn f_opened_row(&self) -> spec_fn(int) -> Seq<Wire> {
        |c: int| self.s_opened_row(c)
    }

    pub open spec fn all_opened_row(&self) -> Seq<Wire> {
        if !self.narrow_ov {
            flat(self.s_input_leaf_felts(), self.f_opened_row())
        } else {
            Seq::empty()
        }
    }

    pub(super) fn emit_opened_row(&self, out: &mut Vec<Wire>)
        requires
            self.wf(),
        ensures
            final(out)@ == old(out)@ + self.all_opened_row(),
    {
        let ghost base = out@;
        if !self.narrow_ov {
            let n: usize = self.input_leaf_felts();
            let mut c: usize = 0;
            assert(out@ =~= base + flat(0, self.f_opened_row()));
            while c < n
                invariant
                    self.wf(),
                    c <= n == self.s_input_leaf_felts(),
                    out@ == base + flat(c as int, self.f_opened_row()),
                    !self.narrow_ov,
                decreases n - c,
            {
                let ghost step = out@;
                proof {
                    self.lemma_bounds();
                    self.lemma_terms();
                }
                let hold: Wire = times(&per(self.s_query()), &minus(&constant(1), &per(self.p_st_last())));
                let tf: Wire = per(self.m_tf());
                out.push(on_transition(&times(&hold, &minus(&nxt(self.ov_c(c)), &cur(self.ov_c(c))))));
                if c < self.trm_committed_w() && !self.narrow_arith {
                    out.push(times(&tf, &minus(&cur(self.ov_c(c)), &cur(self.px(self.trm_trace(c))))));
                    out.push(times(&tf, &minus(&cur(self.ov_c(c)), &cur(self.px(self.trm_next(c))))));
                }
                proof {
                    assert(out@ =~= step + self.s_opened_row(c as int));
                    lemma_flat_step(base, c as int, self.f_opened_row(), out@);
                }
                c += 1;
            }
        } else {
            assert(out@ =~= base + self.all_opened_row());
        }
    }

    /// Felt `c` of the random row is held in the super-tile and feeds its term.
    pub open spec fn s_random_row(&self, c: int) -> Seq<Wire> {
        let hold = w_times(w_per(self.s_s_query()), w_minus(w_const(1), w_per(self.s_p_st_last())));
        let tf = w_per(self.s_m_tf());
        seq![
            w_on_transition(w_times(hold, w_minus(w_nxt(self.s_ov_random(c)), w_cur(self.s_ov_random(c))))),
        ] + if c < self.s_random_committed_w() {
            seq![w_times(tf, w_minus(w_cur(self.s_ov_random(c)), w_cur(self.s_px(c))))]
        } else {
            Seq::empty()
        }
    }

    pub open spec fn f_random_row(&self) -> spec_fn(int) -> Seq<Wire> {
        |c: int| self.s_random_row(c)
    }

    pub open spec fn all_random_row(&self) -> Seq<Wire> {
        if self.is_zk == 1 {
            flat(self.s_random_leaf_felts(), self.f_random_row())
        } else {
            Seq::empty()
        }
    }

    pub(super) fn emit_random_row(&self, out: &mut Vec<Wire>)
        requires
            self.wf(),
        ensures
            final(out)@ == old(out)@ + self.all_random_row(),
    {
        let ghost base = out@;
        if self.is_zk == 1 {
            let n: usize = self.random_leaf_felts();
            let mut c: usize = 0;
            assert(out@ =~= base + flat(0, self.f_random_row()));
            while c < n
                invariant
                    self.wf(),
                    c <= n == self.s_random_leaf_felts(),
                    out@ == base + flat(c as int, self.f_random_row()),
                    self.is_zk == 1,
                decreases n - c,
            {
                let ghost step = out@;
                proof {
                    self.lemma_bounds();
                    self.lemma_terms();
                }
                let hold: Wire = times(&per(self.s_query()), &minus(&constant(1), &per(self.p_st_last())));
                let tf: Wire = per(self.m_tf());
                out.push(on_transition(&times(&hold, &minus(&nxt(self.ov_random(c)), &cur(self.ov_random(c))))));
                if c < self.random_committed_w() {
                    out.push(times(&tf, &minus(&cur(self.ov_random(c)), &cur(self.px(c)))));
                }
                proof {
                    assert(out@ =~= step + self.s_random_row(c as int));
                    lemma_flat_step(base, c as int, self.f_random_row(), out@);
                }
                c += 1;
            }
        } else {
            assert(out@ =~= base + self.all_random_row());
        }
    }

    /// Felt `c` of the aux row is held in the super-tile and feeds its term at both points.
    pub open spec fn s_aux_row(&self, c: int) -> Seq<Wire> {
        let hold = w_times(w_per(self.s_s_query()), w_minus(w_const(1), w_per(self.s_p_st_last())));
        let tf = w_per(self.s_m_tf());
        seq![
            w_on_transition(w_times(hold, w_minus(w_nxt(self.s_ov_aux(c)), w_cur(self.s_ov_aux(c))))),
            w_times(tf, w_minus(w_cur(self.s_ov_aux(c)), w_cur(self.s_px(self.s_trm_aux(c))))),
            w_times(tf, w_minus(w_cur(self.s_ov_aux(c)), w_cur(self.s_px(self.s_trm_aux_next(c))))),
        ]
    }

    pub open spec fn f_aux_row(&self) -> spec_fn(int) -> Seq<Wire> {
        |c: int| self.s_aux_row(c)
    }

    pub open spec fn all_aux_row(&self) -> Seq<Wire> {
        if self.s_is_lookup() && !self.narrow_arith {
            flat(self.s_aux_base_w(), self.f_aux_row())
        } else {
            Seq::empty()
        }
    }

    pub(super) fn emit_aux_row(&self, out: &mut Vec<Wire>)
        requires
            self.wf(),
        ensures
            final(out)@ == old(out)@ + self.all_aux_row(),
    {
        let ghost base = out@;
        if self.is_lookup() && !self.narrow_arith {
            let n: usize = self.aux_base_w();
            let mut c: usize = 0;
            assert(out@ =~= base + flat(0, self.f_aux_row()));
            while c < n
                invariant
                    self.wf(),
                    c <= n == self.s_aux_base_w(),
                    out@ == base + flat(c as int, self.f_aux_row()),
                    self.s_is_lookup() && !self.narrow_arith,
                decreases n - c,
            {
                let ghost step = out@;
                proof {
                    self.lemma_bounds();
                    self.lemma_terms();
                }
                let hold: Wire = times(&per(self.s_query()), &minus(&constant(1), &per(self.p_st_last())));
                let tf: Wire = per(self.m_tf());
                out.push(on_transition(&times(&hold, &minus(&nxt(self.ov_aux(c)), &cur(self.ov_aux(c))))));
                out.push(times(&tf, &minus(&cur(self.ov_aux(c)), &cur(self.px(self.trm_aux(c))))));
                out.push(times(&tf, &minus(&cur(self.ov_aux(c)), &cur(self.px(self.trm_aux_next(c))))));
                proof {
                    assert(out@ =~= step + self.s_aux_row(c as int));
                    lemma_flat_step(base, c as int, self.f_aux_row(), out@);
                }
                c += 1;
            }
        } else {
            assert(out@ =~= base + self.all_aux_row());
        }
    }

    /// Felt `c` of the quotient row is held in the super-tile; a component of a chunk feeds its term.
    pub open spec fn s_quot_row(&self, c: int) -> Seq<Wire> {
        let hold = w_times(w_per(self.s_s_query()), w_minus(w_const(1), w_per(self.s_p_st_last())));
        let tf = w_per(self.s_m_tf());
        seq![
            w_on_transition(w_times(hold, w_minus(w_nxt(self.s_qc(c)), w_cur(self.s_qc(c))))),
        ] + if self.s_chunk_component(c) < self.s_trm_chunk_w() && !self.narrow_arith {
            seq![w_times(tf, w_minus(w_cur(self.s_qc(c)), w_cur(self.s_px(self.s_trm_quot(self.s_chunk_of(c), self.s_chunk_component(c))))))]
        } else {
            Seq::empty()
        }
    }

    pub open spec fn f_quot_row(&self) -> spec_fn(int) -> Seq<Wire> {
        |c: int| self.s_quot_row(c)
    }

    pub open spec fn all_quot_row(&self) -> Seq<Wire> {
        flat(self.s_quot_leaf_felts(), self.f_quot_row())
    }

    pub(super) fn emit_quot_row(&self, out: &mut Vec<Wire>)
        requires
            self.wf(),
        ensures
            final(out)@ == old(out)@ + self.all_quot_row(),
    {
        let ghost base = out@;
        let n: usize = self.quot_leaf_felts();
        let mut c: usize = 0;
        assert(out@ =~= base + flat(0, self.f_quot_row()));
        while c < n
            invariant
                self.wf(),
                c <= n == self.s_quot_leaf_felts(),
                out@ == base + flat(c as int, self.f_quot_row()),
            decreases n - c,
        {
            let ghost step = out@;
            proof {
                self.lemma_bounds();
                self.lemma_terms();
                self.lemma_chunks(c as int);
            }
            let hold: Wire = times(&per(self.s_query()), &minus(&constant(1), &per(self.p_st_last())));
            let tf: Wire = per(self.m_tf());
            out.push(on_transition(&times(&hold, &minus(&nxt(self.qc(c)), &cur(self.qc(c))))));
            if self.chunk_component(c) < self.trm_chunk_w() && !self.narrow_arith {
                out.push(times(&tf, &minus(&cur(self.qc(c)), &cur(self.px(self.trm_quot(self.chunk_of(c), self.chunk_component(c)))))));
            }
            proof {
                assert(out@ =~= step + self.s_quot_row(c as int));
                lemma_flat_step(base, c as int, self.f_quot_row(), out@);
            }
            c += 1;
        }
    }

    /// The leaf of commit round `r` absorbs the fold group into an empty sponge.
    pub open spec fn s_commit_leaf(&self, r: int) -> Seq<Wire> {
        let on = w_per(self.s_c_leaf(r));
        seq![
            w_times(on, w_minus(w_cur(0), w_cur(self.s_cg(r, 0)))),
            w_times(on, w_minus(w_cur(1), w_cur(self.s_cg(r, 1)))),
            w_times(on, w_minus(w_cur(2), w_cur(self.s_cg(r, 2)))),
            w_times(on, w_minus(w_cur(3), w_cur(self.s_cg(r, 3)))),
            w_times(on, w_cur(4)),
            w_times(on, w_cur(5)),
            w_times(on, w_cur(6)),
            w_times(on, w_cur(7)),
        ]
    }

    pub open spec fn f_commit_leaf(&self) -> spec_fn(int) -> Seq<Wire> {
        |r: int| self.s_commit_leaf(r)
    }

    pub open spec fn all_commit_leaf(&self) -> Seq<Wire> {
        flat(self.s_cm_rounds(), self.f_commit_leaf())
    }

    pub(super) fn emit_commit_leaf(&self, out: &mut Vec<Wire>)
        requires
            self.wf(),
        ensures
            final(out)@ == old(out)@ + self.all_commit_leaf(),
    {
        let ghost base = out@;
        let n: usize = self.cm_rounds();
        let mut r: usize = 0;
        assert(out@ =~= base + flat(0, self.f_commit_leaf()));
        while r < n
            invariant
                self.wf(),
                r <= n == self.s_cm_rounds(),
                out@ == base + flat(r as int, self.f_commit_leaf()),
            decreases n - r,
        {
            let ghost step = out@;
            proof {
                self.lemma_bounds();
            }
            let on: Wire = per(self.c_leaf(r));
            out.push(times(&on, &minus(&cur(0), &cur(self.cg(r, 0)))));
            out.push(times(&on, &minus(&cur(1), &cur(self.cg(r, 1)))));
            out.push(times(&on, &minus(&cur(2), &cur(self.cg(r, 2)))));
            out.push(times(&on, &minus(&cur(3), &cur(self.cg(r, 3)))));
            out.push(times(&on, &cur(4)));
            out.push(times(&on, &cur(5)));
            out.push(times(&on, &cur(6)));
            out.push(times(&on, &cur(7)));
            proof {
                assert(out@ =~= step + self.s_commit_leaf(r as int));
                lemma_flat_step(base, r as int, self.f_commit_leaf(), out@);
            }
            r += 1;
        }
    }

    /// A salted commit leaf carries its capacity into the second block.
    pub open spec fn s_commit_carry(&self) -> Seq<Wire> {
        let on = w_per(self.s_c_bnd());
        seq![
            w_on_transition(w_times(on, w_minus(w_nxt(4), w_cur(4)))),
            w_on_transition(w_times(on, w_minus(w_nxt(5), w_cur(5)))),
            w_on_transition(w_times(on, w_minus(w_nxt(6), w_cur(6)))),
            w_on_transition(w_times(on, w_minus(w_nxt(7), w_cur(7)))),
        ]
    }

    pub(super) fn emit_commit_carry(&self, out: &mut Vec<Wire>)
        requires
            self.wf(),
            self.is_zk == 1,
        ensures
            final(out)@ == old(out)@ + self.s_commit_carry(),
    {
        let ghost base = out@;
        proof {
            self.lemma_bounds();
        }
        let on: Wire = per(self.c_bnd());
        out.push(on_transition(&times(&on, &minus(&nxt(4), &cur(4)))));
        out.push(on_transition(&times(&on, &minus(&nxt(5), &cur(5)))));
        out.push(on_transition(&times(&on, &minus(&nxt(6), &cur(6)))));
        out.push(on_transition(&times(&on, &minus(&nxt(7), &cur(7)))));
        assert(out@ =~= base + self.s_commit_carry());
    }

    /// The random path ends at the selected cap entry.
    pub open spec fn s_random_term(&self) -> Seq<Wire> {
        let on = w_per(self.s_p_random_term());
        seq![
            w_times(on, w_minus(w_cur(0), w_cur(self.s_cap_c(8 + 4 * self.s_cm_rounds() + 0)))),
            w_times(on, w_minus(w_cur(1), w_cur(self.s_cap_c(8 + 4 * self.s_cm_rounds() + 1)))),
            w_times(on, w_minus(w_cur(2), w_cur(self.s_cap_c(8 + 4 * self.s_cm_rounds() + 2)))),
            w_times(on, w_minus(w_cur(3), w_cur(self.s_cap_c(8 + 4 * self.s_cm_rounds() + 3)))),
        ]
    }

    pub(super) fn emit_random_term(&self, out: &mut Vec<Wire>)
        requires
            self.wf(),
            self.is_zk == 1,
        ensures
            final(out)@ == old(out)@ + self.s_random_term(),
    {
        let ghost base = out@;
        proof {
            self.lemma_bounds();
        }
        let on: Wire = per(self.p_random_term());
        out.push(times(&on, &minus(&cur(0), &cur(self.cap_c(8 + 4 * self.cm_rounds() + 0)))));
        out.push(times(&on, &minus(&cur(1), &cur(self.cap_c(8 + 4 * self.cm_rounds() + 1)))));
        out.push(times(&on, &minus(&cur(2), &cur(self.cap_c(8 + 4 * self.cm_rounds() + 2)))));
        out.push(times(&on, &minus(&cur(3), &cur(self.cap_c(8 + 4 * self.cm_rounds() + 3)))));
        assert(out@ =~= base + self.s_random_term());
    }

    /// The aux path ends at the selected cap entry.
    pub open spec fn s_aux_term(&self) -> Seq<Wire> {
        let on = w_per(self.s_p_aux_term());
        seq![
            w_times(on, w_minus(w_cur(0), w_cur(self.s_cap_c(8 + 4 * self.s_cm_rounds() + 0)))),
            w_times(on, w_minus(w_cur(1), w_cur(self.s_cap_c(8 + 4 * self.s_cm_rounds() + 1)))),
            w_times(on, w_minus(w_cur(2), w_cur(self.s_cap_c(8 + 4 * self.s_cm_rounds() + 2)))),
            w_times(on, w_minus(w_cur(3), w_cur(self.s_cap_c(8 + 4 * self.s_cm_rounds() + 3)))),
        ]
    }

    pub(super) fn emit_aux_term(&self, out: &mut Vec<Wire>)
        requires
            self.wf(),
            self.s_is_lookup(),
        ensures
            final(out)@ == old(out)@ + self.s_aux_term(),
    {
        let ghost base = out@;
        proof {
            self.lemma_bounds();
        }
        let on: Wire = per(self.p_aux_term());
        out.push(times(&on, &minus(&cur(0), &cur(self.cap_c(8 + 4 * self.cm_rounds() + 0)))));
        out.push(times(&on, &minus(&cur(1), &cur(self.cap_c(8 + 4 * self.cm_rounds() + 1)))));
        out.push(times(&on, &minus(&cur(2), &cur(self.cap_c(8 + 4 * self.cm_rounds() + 2)))));
        out.push(times(&on, &minus(&cur(3), &cur(self.cap_c(8 + 4 * self.cm_rounds() + 3)))));
        assert(out@ =~= base + self.s_aux_term());
    }

    /// The path bit is a bit on the Merkle rows.
    pub open spec fn s_path_bit(&self) -> Seq<Wire> {
        let on = w_per(self.s_s_merkle());
        seq![
            w_times(on, w_times(w_cur(12), w_minus(w_const(1), w_cur(12)))),
        ]
    }

    pub(super) fn emit_path_bit(&self, out: &mut Vec<Wire>)
        requires
            self.wf(),
        ensures
            final(out)@ == old(out)@ + self.s_path_bit(),
    {
        let ghost base = out@;
        proof {
            self.lemma_bounds();
        }
        let on: Wire = per(self.s_merkle());
        out.push(times(&on, &times(&cur(12), &minus(&constant(1), &cur(12)))));
        assert(out@ =~= base + self.s_path_bit());
    }

    /// With whole caps, the trace and quotient paths end at the selected cap entries.
    pub open spec fn s_term_caps(&self) -> Seq<Wire> {
        let term = w_per(self.s_m_term());
        let qterm = w_per(self.s_q_term());
        seq![
            w_times(term, w_minus(w_cur(0), w_cur(self.s_cap_c(0)))),
            w_times(qterm, w_minus(w_cur(0), w_cur(self.s_cap_c(4)))),
            w_times(term, w_minus(w_cur(1), w_cur(self.s_cap_c(1)))),
            w_times(qterm, w_minus(w_cur(1), w_cur(self.s_cap_c(5)))),
            w_times(term, w_minus(w_cur(2), w_cur(self.s_cap_c(2)))),
            w_times(qterm, w_minus(w_cur(2), w_cur(self.s_cap_c(6)))),
            w_times(term, w_minus(w_cur(3), w_cur(self.s_cap_c(3)))),
            w_times(qterm, w_minus(w_cur(3), w_cur(self.s_cap_c(7)))),
        ]
    }

    pub(super) fn emit_term_caps(&self, out: &mut Vec<Wire>)
        requires
            self.wf(),
            self.s_full_cap(),
        ensures
            final(out)@ == old(out)@ + self.s_term_caps(),
    {
        let ghost base = out@;
        proof {
            self.lemma_bounds();
        }
        let term: Wire = per(self.m_term());
        let qterm: Wire = per(self.q_term());
        out.push(times(&term, &minus(&cur(0), &cur(self.cap_c(0)))));
        out.push(times(&qterm, &minus(&cur(0), &cur(self.cap_c(4)))));
        out.push(times(&term, &minus(&cur(1), &cur(self.cap_c(1)))));
        out.push(times(&qterm, &minus(&cur(1), &cur(self.cap_c(5)))));
        out.push(times(&term, &minus(&cur(2), &cur(self.cap_c(2)))));
        out.push(times(&qterm, &minus(&cur(2), &cur(self.cap_c(6)))));
        out.push(times(&term, &minus(&cur(3), &cur(self.cap_c(3)))));
        out.push(times(&qterm, &minus(&cur(3), &cur(self.cap_c(7)))));
        assert(out@ =~= base + self.s_term_caps());
    }

    /// With whole caps, the path of commit round `r` ends at the selected cap entry.
    pub open spec fn s_commit_caps(&self, r: int) -> Seq<Wire> {
        let on = w_per(self.s_c_term(r));
        seq![
            w_times(on, w_minus(w_cur(0), w_cur(self.s_cap_c(8 + 4 * r + 0)))),
            w_times(on, w_minus(w_cur(1), w_cur(self.s_cap_c(8 + 4 * r + 1)))),
            w_times(on, w_minus(w_cur(2), w_cur(self.s_cap_c(8 + 4 * r + 2)))),
            w_times(on, w_minus(w_cur(3), w_cur(self.s_cap_c(8 + 4 * r + 3)))),
        ]
    }

    pub open spec fn f_commit_caps(&self) -> spec_fn(int) -> Seq<Wire> {
        |r: int| self.s_commit_caps(r)
    }

    pub open spec fn all_commit_caps(&self) -> Seq<Wire> {
        flat(self.s_cm_rounds(), self.f_commit_caps())
    }

    pub(super) fn emit_commit_caps(&self, out: &mut Vec<Wire>)
        requires
            self.wf(),
            self.s_full_cap(),
        ensures
            final(out)@ == old(out)@ + self.all_commit_caps(),
    {
        let ghost base = out@;
        let n: usize = self.cm_rounds();
        let mut r: usize = 0;
        assert(out@ =~= base + flat(0, self.f_commit_caps()));
        while r < n
            invariant
                self.wf(),
                self.s_full_cap(),
                r <= n == self.s_cm_rounds(),
                out@ == base + flat(r as int, self.f_commit_caps()),
            decreases n - r,
        {
            let ghost step = out@;
            proof {
                self.lemma_bounds();
            }
            let on: Wire = per(self.c_term(r));
            out.push(times(&on, &minus(&cur(0), &cur(self.cap_c(8 + 4 * r + 0)))));
            out.push(times(&on, &minus(&cur(1), &cur(self.cap_c(8 + 4 * r + 1)))));
            out.push(times(&on, &minus(&cur(2), &cur(self.cap_c(8 + 4 * r + 2)))));
            out.push(times(&on, &minus(&cur(3), &cur(self.cap_c(8 + 4 * r + 3)))));
            proof {
                assert(out@ =~= step + self.s_commit_caps(r as int));
                lemma_flat_step(base, r as int, self.f_commit_caps(), out@);
            }
            r += 1;
        }
    }

    /// The selected cap entries are held in the super-tile.
    pub open spec fn s_cap_hold(&self, g: int) -> Seq<Wire> {
        let hold = w_times(w_per(self.s_s_query()), w_minus(w_const(1), w_per(self.s_p_st_last())));
        seq![
            w_on_transition(w_times(hold, w_minus(w_nxt(self.s_cap_c(g)), w_cur(self.s_cap_c(g))))),
        ]
    }

    pub open spec fn f_cap_hold(&self) -> spec_fn(int) -> Seq<Wire> {
        |g: int| self.s_cap_hold(g)
    }

    pub open spec fn all_cap_hold(&self) -> Seq<Wire> {
        flat(self.s_n_cap_c(), self.f_cap_hold())
    }

    pub(super) fn emit_cap_hold(&self, out: &mut Vec<Wire>)
        requires
            self.wf(),
            self.s_full_cap(),
        ensures
            final(out)@ == old(out)@ + self.all_cap_hold(),
    {
        let ghost base = out@;
        let n: usize = self.n_cap_c();
        let mut g: usize = 0;
        assert(out@ =~= base + flat(0, self.f_cap_hold()));
        while g < n
            invariant
                self.wf(),
                self.s_full_cap(),
                g <= n == self.s_n_cap_c(),
                out@ == base + flat(g as int, self.f_cap_hold()),
            decreases n - g,
        {
            let ghost step = out@;
            proof {
                self.lemma_bounds();
            }
            let hold: Wire = times(&per(self.s_query()), &minus(&constant(1), &per(self.p_st_last())));
            out.push(on_transition(&times(&hold, &minus(&nxt(self.cap_c(g)), &cur(self.cap_c(g))))));
            proof {
                assert(out@ =~= step + self.s_cap_hold(g as int));
                lemma_flat_step(base, g as int, self.f_cap_hold(), out@);
            }
            g += 1;
        }
    }

    /// With shared caps, the trace and quotient paths end at the public cap entries.
    pub open spec fn s_term_shared(&self) -> Seq<Wire> {
        let term = w_per(self.s_m_term());
        let qterm = w_per(self.s_q_term());
        seq![
            w_times(term, w_minus(w_cur(0), self.s_pi(self.s_cap_base() + 0))),
            w_times(qterm, w_minus(w_cur(0), self.s_pi(self.s_qcap_base() + 0))),
            w_times(term, w_minus(w_cur(1), self.s_pi(self.s_cap_base() + 1))),
            w_times(qterm, w_minus(w_cur(1), self.s_pi(self.s_qcap_base() + 1))),
            w_times(term, w_minus(w_cur(2), self.s_pi(self.s_cap_base() + 2))),
            w_times(qterm, w_minus(w_cur(2), self.s_pi(self.s_qcap_base() + 2))),
            w_times(term, w_minus(w_cur(3), self.s_pi(self.s_cap_base() + 3))),
            w_times(qterm, w_minus(w_cur(3), self.s_pi(self.s_qcap_base() + 3))),
        ]
    }

    pub(super) fn emit_term_shared(&self, out: &mut Vec<Wire>)
        requires
            self.wf(),
            !self.s_full_cap(),
            !self.narrow_caps,
        ensures
            final(out)@ == old(out)@ + self.s_term_shared(),
    {
        let ghost base = out@;
        proof {
            self.lemma_bounds();
        }
        let term: Wire = per(self.m_term());
        let qterm: Wire = per(self.q_term());
        out.push(times(&term, &minus(&cur(0), &self.pi(self.cap_base() + 0))));
        out.push(times(&qterm, &minus(&cur(0), &self.pi(self.qcap_base() + 0))));
        out.push(times(&term, &minus(&cur(1), &self.pi(self.cap_base() + 1))));
        out.push(times(&qterm, &minus(&cur(1), &self.pi(self.qcap_base() + 1))));
        out.push(times(&term, &minus(&cur(2), &self.pi(self.cap_base() + 2))));
        out.push(times(&qterm, &minus(&cur(2), &self.pi(self.qcap_base() + 2))));
        out.push(times(&term, &minus(&cur(3), &self.pi(self.cap_base() + 3))));
        out.push(times(&qterm, &minus(&cur(3), &self.pi(self.qcap_base() + 3))));
        assert(out@ =~= base + self.s_term_shared());
    }

    /// With shared caps, the path of commit round `r` ends at its public cap entry.
    pub open spec fn s_commit_shared(&self, r: int) -> Seq<Wire> {
        let on = w_per(self.s_c_term(r));
        seq![
            w_times(on, w_minus(w_cur(0), self.s_pi(self.s_ccap_base() + 4 * r + 0))),
            w_times(on, w_minus(w_cur(1), self.s_pi(self.s_ccap_base() + 4 * r + 1))),
            w_times(on, w_minus(w_cur(2), self.s_pi(self.s_ccap_base() + 4 * r + 2))),
            w_times(on, w_minus(w_cur(3), self.s_pi(self.s_ccap_base() + 4 * r + 3))),
        ]
    }

    pub open spec fn f_commit_shared(&self) -> spec_fn(int) -> Seq<Wire> {
        |r: int| self.s_commit_shared(r)
    }

    pub open spec fn all_commit_shared(&self) -> Seq<Wire> {
        flat(self.s_cm_rounds(), self.f_commit_shared())
    }

    pub(super) fn emit_commit_shared(&self, out: &mut Vec<Wire>)
        requires
            self.wf(),
            !self.s_full_cap(),
            !self.narrow_caps,
        ensures
            final(out)@ == old(out)@ + self.all_commit_shared(),
    {
        let ghost base = out@;
        let n: usize = self.cm_rounds();
        let mut r: usize = 0;
        assert(out@ =~= base + flat(0, self.f_commit_shared()));
        while r < n
            invariant
                self.wf(),
                !self.s_full_cap(),
                !self.narrow_caps,
                r <= n == self.s_cm_rounds(),
                out@ == base + flat(r as int, self.f_commit_shared()),
            decreases n - r,
        {
            let ghost step = out@;
            proof {
                self.lemma_bounds();
            }
            let on: Wire = per(self.c_term(r));
            out.push(times(&on, &minus(&cur(0), &self.pi(self.ccap_base() + 4 * r + 0))));
            out.push(times(&on, &minus(&cur(1), &self.pi(self.ccap_base() + 4 * r + 1))));
            out.push(times(&on, &minus(&cur(2), &self.pi(self.ccap_base() + 4 * r + 2))));
            out.push(times(&on, &minus(&cur(3), &self.pi(self.ccap_base() + 4 * r + 3))));
            proof {
                assert(out@ =~= step + self.s_commit_shared(r as int));
                lemma_flat_step(base, r as int, self.f_commit_shared(), out@);
            }
            r += 1;
        }
    }

    /// The one-value fold starts from the domain tag and the first public value.
    pub open spec fn s_fold_seed(&self) -> Seq<Wire> {
        let on = w_per(self.s_p_fold_sk());
        seq![
            w_times(on, w_minus(w_cur(self.s_af_p(0)), w_const(self.txroot_dom))),
            w_times(on, w_minus(w_cur(self.s_af_p(4)), w_cur(self.s_pw(self.s_pub_pi())))),
            w_times(on, w_cur(self.s_af_p(1))),
            w_times(on, w_cur(self.s_af_p(2))),
            w_times(on, w_cur(self.s_af_p(3))),
            w_times(on, w_cur(self.s_af_p(5))),
            w_times(on, w_cur(self.s_af_p(6))),
            w_times(on, w_cur(self.s_af_p(7))),
        ]
    }

    pub(super) fn emit_fold_seed(&self, out: &mut Vec<Wire>)
        requires
            self.wf(),
            self.fold,
            self.column_window,
            self.s_pub_pi() < self.s_pis_count(),
        ensures
            final(out)@ == old(out)@ + self.s_fold_seed(),
    {
        let ghost base = out@;
        proof {
            self.lemma_bounds();
        }
        let on: Wire = per(self.p_fold_sk());
        out.push(times(&on, &minus(&cur(self.af_p(0)), &constant(self.txroot_dom))));
        out.push(times(&on, &minus(&cur(self.af_p(4)), &cur(self.pw(self.pub_pi())))));
        out.push(times(&on, &cur(self.af_p(1))));
        out.push(times(&on, &cur(self.af_p(2))));
        out.push(times(&on, &cur(self.af_p(3))));
        out.push(times(&on, &cur(self.af_p(5))));
        out.push(times(&on, &cur(self.af_p(6))));
        out.push(times(&on, &cur(self.af_p(7))));
        assert(out@ =~= base + self.s_fold_seed());
    }

    /// The statement digest enters the root block.
    pub open spec fn s_fold_out(&self) -> Seq<Wire> {
        let on = w_per(self.s_p_fold_sklast());
        seq![
            w_on_transition(w_times(on, w_minus(w_nxt(self.s_af_p(4)), w_cur(self.s_af_p(0))))),
            w_on_transition(w_times(on, w_minus(w_nxt(self.s_af_p(5)), w_cur(self.s_af_p(1))))),
            w_on_transition(w_times(on, w_minus(w_nxt(self.s_af_p(6)), w_cur(self.s_af_p(2))))),
            w_on_transition(w_times(on, w_minus(w_nxt(self.s_af_p(7)), w_cur(self.s_af_p(3))))),
        ]
    }

    pub(super) fn emit_fold_out(&self, out: &mut Vec<Wire>)
        requires
            self.wf(),
            self.fold,
        ensures
            final(out)@ == old(out)@ + self.s_fold_out(),
    {
        let ghost base = out@;
        proof {
            self.lemma_bounds();
        }
        let on: Wire = per(self.p_fold_sklast());
        out.push(on_transition(&times(&on, &minus(&nxt(self.af_p(4)), &cur(self.af_p(0))))));
        out.push(on_transition(&times(&on, &minus(&nxt(self.af_p(5)), &cur(self.af_p(1))))));
        out.push(on_transition(&times(&on, &minus(&nxt(self.af_p(6)), &cur(self.af_p(2))))));
        out.push(on_transition(&times(&on, &minus(&nxt(self.af_p(7)), &cur(self.af_p(3))))));
        assert(out@ =~= base + self.s_fold_out());
    }

    /// Each statement block passes its output on to the next.
    pub open spec fn s_fold_link(&self) -> Seq<Wire> {
        let on = w_per(self.s_p_fold_sklink());
        seq![
            w_on_transition(w_times(on, w_minus(w_nxt(self.s_af_p(0)), w_cur(self.s_af_p(0))))),
            w_on_transition(w_times(on, w_minus(w_nxt(self.s_af_p(1)), w_cur(self.s_af_p(1))))),
            w_on_transition(w_times(on, w_minus(w_nxt(self.s_af_p(2)), w_cur(self.s_af_p(2))))),
            w_on_transition(w_times(on, w_minus(w_nxt(self.s_af_p(3)), w_cur(self.s_af_p(3))))),
        ]
    }

    pub(super) fn emit_fold_link(&self, out: &mut Vec<Wire>)
        requires
            self.wf(),
            self.fold,
            self.fold_txstmt,
        ensures
            final(out)@ == old(out)@ + self.s_fold_link(),
    {
        let ghost base = out@;
        proof {
            self.lemma_bounds();
        }
        let on: Wire = per(self.p_fold_sklink());
        out.push(on_transition(&times(&on, &minus(&nxt(self.af_p(0)), &cur(self.af_p(0))))));
        out.push(on_transition(&times(&on, &minus(&nxt(self.af_p(1)), &cur(self.af_p(1))))));
        out.push(on_transition(&times(&on, &minus(&nxt(self.af_p(2)), &cur(self.af_p(2))))));
        out.push(on_transition(&times(&on, &minus(&nxt(self.af_p(3)), &cur(self.af_p(3))))));
        assert(out@ =~= base + self.s_fold_link());
    }

    /// The root block starts from the running root.
    pub open spec fn s_root_in(&self) -> Seq<Wire> {
        let on = w_per(self.s_p_fold_rootin());
        seq![
            w_times(on, w_minus(w_cur(self.s_af_p(0)), w_cur(self.s_af_root(0)))),
            w_times(on, w_minus(w_cur(self.s_af_p(1)), w_cur(self.s_af_root(1)))),
            w_times(on, w_minus(w_cur(self.s_af_p(2)), w_cur(self.s_af_root(2)))),
            w_times(on, w_minus(w_cur(self.s_af_p(3)), w_cur(self.s_af_root(3)))),
        ]
    }

    pub(super) fn emit_root_in(&self, out: &mut Vec<Wire>)
        requires
            self.wf(),
            self.fold,
        ensures
            final(out)@ == old(out)@ + self.s_root_in(),
    {
        let ghost base = out@;
        proof {
            self.lemma_bounds();
        }
        let on: Wire = per(self.p_fold_rootin());
        out.push(times(&on, &minus(&cur(self.af_p(0)), &cur(self.af_root(0)))));
        out.push(times(&on, &minus(&cur(self.af_p(1)), &cur(self.af_root(1)))));
        out.push(times(&on, &minus(&cur(self.af_p(2)), &cur(self.af_root(2)))));
        out.push(times(&on, &minus(&cur(self.af_p(3)), &cur(self.af_root(3)))));
        assert(out@ =~= base + self.s_root_in());
    }

    /// Lane `k` of the running root starts at zero, changes only to the output of a root block, and ends at the public root.
    pub open spec fn s_root(&self, k: int) -> Seq<Wire> {
        let on = w_per(self.s_p_fold_rootupd());
        seq![
            w_on_first(w_cur(self.s_af_root(k))),
            w_on_transition(w_times(w_minus(w_const(1), on), w_minus(w_nxt(self.s_af_root(k)), w_cur(self.s_af_root(k))))),
            w_on_transition(w_times(on, w_minus(w_nxt(self.s_af_root(k)), w_cur(self.s_af_p(k))))),
            w_on_last(w_minus(w_cur(self.s_af_p(k)), w_pub(k))),
        ]
    }

    pub open spec fn f_root(&self) -> spec_fn(int) -> Seq<Wire> {
        |k: int| self.s_root(k)
    }

    pub open spec fn all_root(&self) -> Seq<Wire> {
        flat(4, self.f_root())
    }

    pub(super) fn emit_root(&self, out: &mut Vec<Wire>)
        requires
            self.wf(),
            self.fold,
        ensures
            final(out)@ == old(out)@ + self.all_root(),
    {
        let ghost base = out@;
        let n: usize = 4;
        let mut k: usize = 0;
        assert(out@ =~= base + flat(0, self.f_root()));
        while k < n
            invariant
                self.wf(),
                self.fold,
                k <= n == 4,
                out@ == base + flat(k as int, self.f_root()),
            decreases n - k,
        {
            let ghost step = out@;
            proof {
                self.lemma_bounds();
            }
            let on: Wire = per(self.p_fold_rootupd());
            out.push(on_first(&cur(self.af_root(k))));
            out.push(on_transition(&times(&minus(&constant(1), &on), &minus(&nxt(self.af_root(k)), &cur(self.af_root(k))))));
            out.push(on_transition(&times(&on, &minus(&nxt(self.af_root(k)), &cur(self.af_p(k))))));
            out.push(on_last(&minus(&cur(self.af_p(k)), &public(k))));
            proof {
                assert(out@ =~= step + self.s_root(k as int));
                lemma_flat_step(base, k as int, self.f_root(), out@);
            }
            k += 1;
        }
    }
}

} // verus!
