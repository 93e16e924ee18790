//! The public values of the inner proof are its parts one after the other, for every shape of the inner.

use vstd::arithmetic::power2::pow2;
use vstd::prelude::*;

use super::layout::MonolithAir;
use crate::field::Ext;
use crate::transcript::ext_felts;

verus! {

/// What the public values of an inner proof hold: its challenges in the order in which they are drawn, the index felts,
/// the final constant, the caps of the trace and the quotient, the public values proper, the caps of the commit rounds, the
/// periodic values, the recomposition weights, the caps of the random and the aux round, and the terminal.
pub struct WindowParts {
    pub challenges: Seq<Ext>,
    pub felts: Seq<u64>,
    pub last: Ext,
    pub trace_cap: Seq<u64>,
    pub quotient_cap: Seq<u64>,
    pub publics: Seq<u64>,
    pub commit_caps: Seq<Seq<u64>>,
    pub periodic: Seq<Ext>,
    pub weights: Seq<Ext>,
    pub random_cap: Seq<u64>,
    pub aux_cap: Seq<u64>,
    pub terminal: Seq<Ext>,
}

/// The first `n` caps, one after the other.
pub open spec fn caps_joined(caps: Seq<Seq<u64>>, n: nat) -> Seq<u64>
    decreases n,
{
    if n == 0 {
        Seq::empty()
    } else {
        caps_joined(caps, (n - 1) as nat) + caps[n - 1]
    }
}

/// The parts one after the other.
pub open spec fn spelled(p: WindowParts) -> Seq<u64> {
    ext_felts(p.challenges) + p.felts + ext_felts(seq![p.last]) + p.trace_cap + p.quotient_cap + p.publics + caps_joined(
        p.commit_caps,
        p.commit_caps.len(),
    ) + ext_felts(p.periodic) + ext_felts(p.weights) + p.random_cap + p.aux_cap + ext_felts(p.terminal)
}

/// The felts of a cap of `2^bits` entries: none where caps are kept elsewhere, one entry where all queries share it.
pub open spec fn cap_felts(air: MonolithAir, bits: int) -> int {
    if air.narrow_caps {
        0
    } else if air.inner_counter || air.constraints@.len() > 0 || air.lookup is Some || air.is_zk == 1 {
        4 * pow2(bits as nat) as int
    } else {
        4
    }
}

/// The cap of a commit round is no larger than the codeword of that round.
pub open spec fn round_cap_bits(air: MonolithAir, r: int) -> int {
    let codeword = air.s_lg() - r - 1;
    if air.cap_height <= codeword {
        air.cap_height as int
    } else {
        codeword
    }
}

/// The parts have the sizes of the inner's shape.
pub open spec fn parts_fit(air: MonolithAir, p: WindowParts) -> bool {
    let cap = cap_felts(air, air.cap_height as int);
    let trees = air.constraints@.len() > 0 || air.lookup is Some;
    &&& p.challenges.len() == air.binds@.len()
    &&& p.felts.len() == air.index_binds@.len()
    &&& p.trace_cap.len() == cap
    &&& p.quotient_cap.len() == cap
    &&& p.publics.len() == if trees {
        air.n_pub_f as int
    } else {
        1
    }
    &&& p.commit_caps.len() == air.s_cm_rounds()
    &&& forall|r: int|
        0 <= r < p.commit_caps.len() ==> (#[trigger] p.commit_caps[r]).len() == cap_felts(air, round_cap_bits(air, r))
    &&& p.periodic.len() == if trees {
        air.n_periodic_f as int
    } else {
        0
    }
    &&& p.weights.len() == if (trees || air.is_zk == 1) && air.s_nqc() > 1 {
        air.s_nqc()
    } else {
        0
    }
    &&& p.random_cap.len() == if air.is_zk == 1 {
        cap
    } else {
        0
    }
    &&& p.aux_cap.len() == if air.lookup is Some {
        cap
    } else {
        0
    }
    &&& p.terminal.len() == if air.lookup is Some {
        1int
    } else {
        0
    }
}

/// A part stands in the public values from `at` on.
pub open spec fn stands(w: Seq<u64>, at: int, part: Seq<u64>) -> bool {
    &&& 0 <= at
    &&& at + part.len() <= w.len()
    &&& w.subrange(at, at + part.len()) == part
}

/// A part behind others stands where they end.
proof fn lemma_stands(before: Seq<u64>, part: Seq<u64>, after: Seq<u64>)
    ensures
        stands(before + part + after, before.len() as int, part),
{
    assert((before + part + after).subrange(before.len() as int, (before.len() + part.len()) as int) =~= part);
}

/// What stands in a prefix stands in the whole.
proof fn lemma_stands_on(w: Seq<u64>, at: int, part: Seq<u64>, more: Seq<u64>)
    requires
        stands(w, at, part),
    ensures
        stands(w + more, at, part),
{
    assert((w + more).subrange(at, at + part.len()) =~= w.subrange(at, at + part.len()));
}

/// What stands in a part stands in the whole, moved.
proof fn lemma_stands_in(w: Seq<u64>, at: int, whole: Seq<u64>, off: int, part: Seq<u64>)
    requires
        stands(w, at, whole),
        stands(whole, off, part),
    ensures
        stands(w, at + off, part),
{
    assert forall|i: int| 0 <= i < part.len() implies w[at + off + i] == part[i] by {
        assert(w.subrange(at, at + whole.len())[off + i] == whole[off + i]);
        assert(whole.subrange(off, off + part.len())[i] == part[i]);
    }
    assert(w.subrange(at + off, at + off + part.len()) =~= part);
}

proof fn lemma_ext_len(xs: Seq<Ext>)
    ensures
        ext_felts(xs).len() == 2 * xs.len(),
    decreases xs.len(),
{
    if xs.len() > 0 {
        lemma_ext_len(xs.drop_last());
    }
}

/// A pair that stands is read coordinate by coordinate.
pub(super) proof fn lemma_pair_stands(w: Seq<u64>, at: int, xs: Seq<Ext>, i: int)
    requires
        stands(w, at, ext_felts(xs)),
        0 <= i < xs.len(),
    ensures
        0 <= at + 2 * i,
        at + 2 * i + 1 < w.len(),
        w[at + 2 * i] == xs[i].c0,
        w[at + 2 * i + 1] == xs[i].c1,
    decreases xs.len(),
{
    lemma_ext_len(xs);
    let init = xs.drop_last();
    lemma_ext_len(init);
    let part = w.subrange(at, at + 2 * xs.len());
    assert(part[2 * i] == w[at + 2 * i] && part[2 * i + 1] == w[at + 2 * i + 1]);
    if i < xs.len() - 1 {
        assert(w.subrange(at, at + 2 * init.len()) =~= part.subrange(0, 2 * init.len() as int));
        assert(ext_felts(xs).subrange(0, 2 * init.len() as int) =~= ext_felts(init));
        lemma_pair_stands(w, at, init, i);
    }
}

/// The caps of the first rounds take what the layout counts.
proof fn lemma_caps_len(air: MonolithAir, p: WindowParts, n: nat)
    requires
        parts_fit(air, p),
        n <= p.commit_caps.len(),
    ensures
        air.narrow_caps ==> caps_joined(p.commit_caps, n).len() == 0,
        !air.narrow_caps && air.s_full_cap() ==> caps_joined(p.commit_caps, n).len() == air.s_caps_before(n as int),
        !air.narrow_caps && !air.s_full_cap() ==> caps_joined(p.commit_caps, n).len() == 4 * n,
    decreases n,
{
    if n > 0 {
        lemma_caps_len(air, p, (n - 1) as nat);
        assert(p.commit_caps[n - 1].len() == cap_felts(air, round_cap_bits(air, n - 1)));
    }
}

/// A cap among the joined ones.
proof fn lemma_cap_stands(caps: Seq<Seq<u64>>, n: nat, r: int)
    requires
        0 <= r < n <= caps.len(),
    ensures
        stands(caps_joined(caps, n), caps_joined(caps, r as nat).len() as int, caps[r]),
    decreases n,
{
    let before = caps_joined(caps, (n - 1) as nat);
    if r < n - 1 {
        lemma_cap_stands(caps, (n - 1) as nat, r);
        lemma_stands_on(before, caps_joined(caps, r as nat).len() as int, caps[r], caps[n - 1]);
    } else {
        lemma_stands(before, caps[r], Seq::empty());
        assert(before + caps[r] + Seq::<u64>::empty() =~= before + caps[r]);
    }
}

/// The public values of an inner proof of any shape, with lookups, hiding or neither, are its parts one after the other:
/// each part is found where the layout puts it, and there is nothing else.
#[verifier::spinoff_prover]
#[verifier::rlimit(60)]
pub proof fn law_window_parts(air: MonolithAir, p: WindowParts)
    requires
        air.wf(),
        parts_fit(air, p),
    ensures
        ({
            let w = spelled(p);
            &&& w.len() == air.s_pis_count()
            &&& stands(w, 0, ext_felts(p.challenges))
            &&& stands(w, 2 * air.binds@.len() as int, p.felts)
            &&& stands(w, (2 * air.binds@.len() + air.index_binds@.len()) as int, ext_felts(seq![p.last]))
            &&& stands(w, air.s_cap_base(), p.trace_cap)
            &&& stands(w, air.s_qcap_base(), p.quotient_cap)
            &&& stands(w, air.s_pub_pi(), p.publics)
            &&& stands(w, air.s_ccap_base(), caps_joined(p.commit_caps, p.commit_caps.len()))
            &&& stands(w, air.s_periodic_base(), ext_felts(p.periodic))
            &&& stands(w, air.s_qwt_base(), ext_felts(p.weights))
            &&& stands(w, air.s_random_cap_base(), p.random_cap)
            &&& stands(w, air.s_aux_cap_base(), p.aux_cap)
            &&& stands(w, air.s_term_pi(), ext_felts(p.terminal))
        }),
{
    let rounds = p.commit_caps.len();
    let a0 = ext_felts(p.challenges);
    let a1 = a0 + p.felts;
    let a2 = a1 + ext_felts(seq![p.last]);
    let a3 = a2 + p.trace_cap;
    let a4 = a3 + p.quotient_cap;
    let a5 = a4 + p.publics;
    let a6 = a5 + caps_joined(p.commit_caps, rounds);
    let a7 = a6 + ext_felts(p.periodic);
    let a8 = a7 + ext_felts(p.weights);
    let a9 = a8 + p.random_cap;
    let a10 = a9 + p.aux_cap;
    let w = a10 + ext_felts(p.terminal);
    assert(w == spelled(p));
    air.lemma_bounds();
    lemma_caps_len(air, p, rounds);
    lemma_ext_len(p.challenges);
    lemma_ext_len(seq![p.last]);
    lemma_ext_len(p.periodic);
    lemma_ext_len(p.weights);
    lemma_ext_len(p.terminal);
    assert(air.s_commit_caps_len() == if air.s_full_cap() {
        air.s_caps_before(air.s_cm_rounds())
    } else {
        air.s_cm_rounds() * 4
    });
    assert(a5.len() == air.s_ccap_base());
    assert(a6.len() == air.s_periodic_base());
    assert(a7.len() == air.s_qwt_base());
    assert(a8.len() == air.s_random_cap_base());
    assert(a9.len() == air.s_aux_cap_base());
    assert(a10.len() == air.s_term_pi());
    assert(stands(w, 0, a0)) by {
        assert(w.subrange(0, a0.len() as int) =~= a0);
    }
    assert(stands(w, a0.len() as int, p.felts)) by {
        assert(w.subrange(a0.len() as int, (a0.len() + p.felts.len()) as int) =~= p.felts);
    }
    let last = ext_felts(seq![p.last]);
    assert(stands(w, a1.len() as int, last)) by {
        assert(w.subrange(a1.len() as int, (a1.len() + last.len()) as int) =~= last);
    }
    assert(stands(w, a2.len() as int, p.trace_cap)) by {
        assert(w.subrange(a2.len() as int, (a2.len() + p.trace_cap.len()) as int) =~= p.trace_cap);
    }
    assert(stands(w, a3.len() as int, p.quotient_cap)) by {
        assert(w.subrange(a3.len() as int, (a3.len() + p.quotient_cap.len()) as int) =~= p.quotient_cap);
    }
    assert(stands(w, a4.len() as int, p.publics)) by {
        assert(w.subrange(a4.len() as int, (a4.len() + p.publics.len()) as int) =~= p.publics);
    }
    let caps = caps_joined(p.commit_caps, rounds);
    assert(stands(w, a5.len() as int, caps)) by {
        assert(w.subrange(a5.len() as int, (a5.len() + caps.len()) as int) =~= caps);
    }
    let per = ext_felts(p.periodic);
    assert(stands(w, a6.len() as int, per)) by {
        assert(w.subrange(a6.len() as int, (a6.len() + per.len()) as int) =~= per);
    }
    let wt = ext_felts(p.weights);
    assert(stands(w, a7.len() as int, wt)) by {
        assert(w.subrange(a7.len() as int, (a7.len() + wt.len()) as int) =~= wt);
    }
    assert(stands(w, a8.len() as int, p.random_cap)) by {
        assert(w.subrange(a8.len() as int, (a8.len() + p.random_cap.len()) as int) =~= p.random_cap);
    }
    assert(stands(w, a9.len() as int, p.aux_cap)) by {
        assert(w.subrange(a9.len() as int, (a9.len() + p.aux_cap.len()) as int) =~= p.aux_cap);
    }
    let term = ext_felts(p.terminal);
    assert(stands(w, a10.len() as int, term)) by {
        assert(w.subrange(a10.len() as int, (a10.len() + term.len()) as int) =~= term);
    }
}

/// The cap that each opening selects its entry from: the trace's, the quotient's, those of the commit rounds in their
/// order, and behind them that of the random round or of the aux round.
pub open spec fn cap_of(air: MonolithAir, p: WindowParts, i: int) -> Seq<u64> {
    if i == 0 {
        p.trace_cap
    } else if i == 1 {
        p.quotient_cap
    } else if i < 2 + p.commit_caps.len() {
        p.commit_caps[i - 2]
    } else if air.is_zk == 1 {
        p.random_cap
    } else {
        p.aux_cap
    }
}

/// Every opening selects from the whole of its own cap.
pub proof fn law_openings_select_their_caps(air: MonolithAir, p: WindowParts, i: int)
    requires
        air.wf(),
        air.s_full_cap(),
        !air.narrow_caps,
        parts_fit(air, p),
        0 <= i < air.s_cap_openings().len(),
    ensures
        air.s_cap_openings().len() == 2 + p.commit_caps.len() + (if air.is_zk == 1 || air.lookup is Some {
            1int
        } else {
            0
        }),
        ({
            let o = air.s_cap_openings()[i];
            &&& cap_of(air, p, i).len() == 4 * pow2(o.bits as nat)
            &&& stands(spelled(p), o.cbase as int, cap_of(air, p, i))
            &&& o.cg_off == 4 * i
            &&& o.shift + o.bits == air.s_lg()
        }),
{
    let rounds = air.s_cm_rounds();
    air.lemma_bounds();
    law_window_parts(air, p);
    if 2 <= i < 2 + rounds {
        let r = i - 2;
        lemma_caps_len(air, p, r as nat);
        lemma_cap_stands(p.commit_caps, rounds as nat, r);
        lemma_stands_in(
            spelled(p),
            air.s_ccap_base(),
            caps_joined(p.commit_caps, rounds as nat),
            air.s_caps_before(r),
            p.commit_caps[r],
        );
        assert(p.commit_caps[r].len() == cap_felts(air, round_cap_bits(air, r)));
    }
}

/// The public values of the system: the root's four felts where instances are folded, none where the inner's values stand in
/// columns, else the inner's values.
pub proof fn law_public_values(air: MonolithAir, p: WindowParts)
    requires
        air.wf(),
        parts_fit(air, p),
    ensures
        air.s_num_public_values() == if air.fold {
            4
        } else if air.column_window {
            0
        } else {
            spelled(p).len() as int
        },
{
    law_window_parts(air, p);
}

} // verus!
