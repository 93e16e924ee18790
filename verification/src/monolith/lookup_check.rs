//! The out-of-domain check of an inner with lookups is the constraint check of the verification of its proof.

use vstd::prelude::*;

use super::epilogue::s_vanish;
use super::eval::InlineBci;
use super::identity::{
    constraint_value, folded_at, law_fold_is_verification, law_head_row_identity, law_head_row_selectors,
    law_head_row_squares, lemma_fold_values, openings_carried, partial_folds_held, squares_held,
};
use super::index::{at_head, lemma_head_gate};
use super::layout::MonolithAir;
use super::ood::{lemma_built_selectors, lemma_over};
use super::parts::{parts_fit, spelled, WindowParts};
use super::terms::{
    law_challenges_read, law_lookup_openings_read, law_openings_read, law_points_read, law_quotient_read,
    lemma_joined_len, points_held, terms_fit, terms_held, terms_spelled, weights_of, TermParts,
};
use super::tops::reads_window;
use super::window::last_row_selected;
use crate::expr::{lemma_value_canonical, value, value2, w2_cur, w_per, w_times, Window};
use crate::field::{
    f_inv, lemma_x_mul_red, two_adic_root, x_base, x_inv, x_mul, x_one, x_red, x_same, x_square_times, x_sub, x_zero, Ext,
};
use crate::lookup::air::{lookup_constraints, SystemView};
use crate::lookup::exact::lemma_inverse;
use crate::lookup::quotient::{batched, folded_trees, lifted};
use crate::lookup::verify::{
    error_after, error_before, joined_coordinates, log_chunks, lookup_alpha, lookup_challenges, lookup_error,
    lookup_identity, lookup_opened, lookup_openings, lookup_reads_at, lookup_zeta, LookupProof,
};
use crate::stark::domain::{
    chunk_weights, last_point, lemma_off_ends, lemma_square_times_same, next_point, recomposed, selectors, vanishing,
    Selectors,
};
use crate::stark::subgroup::is_root;
use crate::stark::verify::{columns_at, columns_defined, folded_constraints};
use crate::symbolic::{carries, carries_lookup, NativeLookupView, NativeView};
use crate::vanish::{lemma_gates, lemma_op_values, lemma_pair_value, lemma_vanish_parts, vanish};

verus! {

/// The inner of a verifier is a system with lookups, and the proof has its sizes.
pub open spec fn verifies_lookups(air: MonolithAir, s: SystemView, proof: LookupProof, pis: Seq<u64>) -> bool {
    &&& air.lookup is Some
    &&& air.constraints@ == s.constraints
    &&& air.lookup->0.ext_constraints@ == lookup_constraints(s.lookups)
    &&& air.lookup->0.n_lookup_challenges == 2 * s.lookups.len()
    &&& air.lookup->0.aux_ext_w == s.lookups.len() + 1
    &&& proof.aux_width == s.lookups.len() + 1
    &&& air.w_inner_f == s.width
    &&& air.n_pub_f == pis.len()
    &&& air.n_periodic_f == s.periodic.len()
    &&& air.n_terms == lookup_opened(proof).len()
    &&& air.binds@.len() == 2 * s.lookups.len() + 3 + proof.degree_bits
}

/// The parts that a verifier reads are those of the proof: the challenges as they are drawn, the public values, the
/// periodic values and the recomposition weights of the drawn point, and the terminal.
pub open spec fn lookup_parts(s: SystemView, proof: LookupProof, pis: Seq<u64>, p: WindowParts) -> bool {
    let n = 2 * s.lookups.len() as int;
    let zeta = lookup_zeta(s, proof, pis);
    &&& n + 2 <= p.challenges.len()
    &&& p.challenges.subrange(0, n) == lookup_challenges(s, proof, pis)
    &&& p.challenges[n] == lookup_alpha(s, proof, pis)
    &&& p.challenges[n + 1] == zeta
    &&& p.publics == pis
    &&& p.periodic == columns_at(s.periodic, proof.degree_bits as nat, zeta)
    &&& proof.opened.quotient_chunks@.len() > 1 ==> p.weights == chunk_weights(
        zeta,
        proof.degree_bits as nat,
        log_chunks(s, 0),
    )
    &&& p.terminal == seq![proof.terminal]
}

/// The opened values of a lookup proof by their parts.
pub open spec fn lookup_terms(proof: LookupProof) -> TermParts {
    TermParts {
        random: Seq::empty(),
        local: proof.opened.trace_local@,
        next: proof.opened.trace_next@,
        aux_local: proof.opened.aux_local@,
        aux_next: proof.opened.aux_next@,
        chunks: proof.opened.quotient_chunks@,
    }
}

/// A head row holds the opened values of a proof, in the order in which they are claimed.
pub open spec fn opened_held(air: MonolithAir, proof: LookupProof, win: Window) -> bool {
    forall|k: int|
        0 <= k < lookup_opened(proof).len() ==> value2(#[trigger] w2_cur(air.s_pz(k)), win) == x_red(
            lookup_opened(proof)[k],
        )
}

/// The fold over all constraints, base ones first, is the batched value of the verification.
pub proof fn law_fold_is_batched(
    air: MonolithAir,
    s: SystemView,
    o: NativeView,
    l: NativeLookupView,
    alpha: Ext,
)
    requires
        air.lookup is Some,
        air.constraints@ == s.constraints,
        air.lookup->0.ext_constraints@ == lookup_constraints(s.lookups),
    ensures
        folded_at(air, o, l, alpha, air.s_n_constraints() as nat) == batched(s, o, l, alpha),
        folded_at(air, o, l, x_red(alpha), air.s_n_constraints() as nat) == batched(s, o, l, alpha),
{
    lemma_fold_over_trees(air, o, l, alpha, lookup_constraints(s.lookups).len());
    lemma_fold_challenge(air, o, l, alpha, air.s_n_constraints() as nat);
}

proof fn lemma_fold_over_trees(air: MonolithAir, o: NativeView, l: NativeLookupView, alpha: Ext, n: nat)
    requires
        air.lookup is Some,
        n <= air.lookup->0.ext_constraints@.len(),
    ensures
        folded_at(air, o, l, alpha, air.constraints@.len() + n) == folded_trees(
            air.lookup->0.ext_constraints@,
            o,
            l,
            alpha,
            folded_constraints(air.constraints@, o, alpha, air.constraints@.len()),
            n,
        ),
    decreases n,
{
    let base = air.constraints@.len();
    if n == 0 {
        law_fold_is_verification(air, o, l, alpha, base);
    } else {
        lemma_fold_over_trees(air, o, l, alpha, (n - 1) as nat);
        assert((base + n - 1) as nat == base + ((n - 1) as nat));
        assert(constraint_value(air, o, l, base + n - 1) == crate::symbolic::native_ext_value(
            air.lookup->0.ext_constraints@[n - 1],
            o,
            l,
        ));
    }
}

/// A fold does not depend on the representative of its challenge.
proof fn lemma_fold_challenge(air: MonolithAir, o: NativeView, l: NativeLookupView, alpha: Ext, n: nat)
    ensures
        folded_at(air, o, l, x_red(alpha), n) == folded_at(air, o, l, alpha, n),
    decreases n,
{
    if n > 0 {
        let m = (n - 1) as nat;
        lemma_fold_challenge(air, o, l, alpha, m);
        let f = folded_at(air, o, l, alpha, m);
        lemma_x_mul_red(f, alpha);
        lemma_x_mul_red(f, x_red(alpha));
        assert(x_red(x_red(alpha)) == x_red(alpha));
    }
}

/// A product is reduced.
proof fn lemma_product_reduced(a: Ext, b: Ext)
    ensures
        x_red(x_mul(a, b)) == x_mul(a, b),
{
    lemma_x_mul_red(a, b);
}

/// The vanishing polynomial does not depend on the representative of the point.
pub(super) proof fn lemma_vanishing_reduced(zeta: Ext, n: nat)
    ensures
        vanishing(x_red(zeta), n) == vanishing(zeta, n),
        x_square_times(x_red(zeta), n) == x_square_times(zeta, n),
{
    assert(x_red(x_red(zeta)) == x_red(zeta));
    lemma_square_times_same(x_red(zeta), zeta, n);
}

/// Selectors do not depend on the representative of the point, and are reduced.
pub(super) proof fn lemma_selectors_reduced(zeta: Ext, n: nat)
    ensures
        selectors(x_red(zeta), n) == selectors(zeta, n),
        x_red(selectors(zeta, n).is_first_row) == selectors(zeta, n).is_first_row,
        x_red(selectors(zeta, n).is_last_row) == selectors(zeta, n).is_last_row,
        x_red(selectors(zeta, n).is_transition) == selectors(zeta, n).is_transition,
{
    let z = vanishing(zeta, n);
    let (first, last) = (x_sub(zeta, x_one()), x_sub(zeta, last_point(n)));
    lemma_vanishing_reduced(zeta, n);
    super::heads::lemma_difference_reduced(zeta, x_one());
    super::heads::lemma_difference_reduced(zeta, last_point(n));
    lemma_product_reduced(z, x_inv(first));
    lemma_product_reduced(z, x_inv(last));
}

/// The selectors that a head row witnesses.
pub open spec fn selectors_held(air: MonolithAir, sel: Selectors, win: Window) -> bool {
    &&& value2(w2_cur(air.s_sel(0)), win) == sel.is_first_row
    &&& value2(w2_cur(air.s_sel(2)), win) == sel.is_last_row
    &&& value2(w2_cur(air.s_sel(4)), win) == x_red(sel.inv_vanishing)
}

/// What a head row witnesses beside the opened values: the squares of the point, its selectors, the partial folds and the
/// points of the opened values.
pub open spec fn lookup_witness(air: MonolithAir, s: SystemView, proof: LookupProof, pis: Seq<u64>, win: Window) -> bool {
    let zeta = lookup_zeta(s, proof, pis);
    let n = proof.degree_bits as nat;
    &&& air.column_window ==> squares_held(air, win)
    &&& selectors_held(air, selectors(zeta, n), win)
    &&& partial_folds_held(
        air,
        lookup_openings(s, proof, pis, zeta, 0),
        lookup_reads_at(s, proof, pis),
        air.s_n_constraints(),
        win,
    )
    &&& points_held(air, lookup_terms(proof), zeta, next_point(zeta, n), win)
}

/// The sizes of a proof are those of the verifier's shape.
proof fn lemma_lookup_fits(air: MonolithAir, s: SystemView, proof: LookupProof, pis: Seq<u64>)
    requires
        air.wf(),
        verifies_lookups(air, s, proof, pis),
        error_before(s, proof, pis, 0) is None,
    ensures
        terms_fit(air, lookup_terms(proof)),
        terms_spelled(lookup_terms(proof)) == lookup_opened(proof),
        air.s_cdb() == proof.degree_bits,
        air.s_nqc() == proof.opened.quotient_chunks@.len(),
        air.is_zk == 0,
{
    let t = lookup_terms(proof);
    assert(terms_spelled(t) =~= lookup_opened(proof));
    assert forall|i: int| 0 <= i < t.chunks.len() implies (#[trigger] t.chunks[i])@.len() == 2 by {
        assert(proof.opened.quotient_chunks@[i]@.len() == 2);
    }
    lemma_joined_len(t.chunks, 2, t.chunks.len());
}

proof fn lemma_base_reduced(v: u64)
    ensures
        x_red(x_base(v)) == x_base(v),
{
}

/// The row pair of the trace, the public and the periodic values.
#[verifier::spinoff_prover]
#[verifier::rlimit(40)]
pub(super) proof fn lemma_openings_carried(air: MonolithAir, t: TermParts, p: WindowParts, no: NativeView, win: Window)
    requires
        air.wf(),
        !air.narrow_openings,
        parts_fit(air, p),
        terms_fit(air, t),
        reads_window(air, win, spelled(p)),
        terms_held(air, t, win),
        no.local == t.local.take(air.s_w_inner()),
        no.next == t.next.take(air.s_w_inner()),
        no.pubs == lifted(p.publics),
        no.periodic == p.periodic,
        value2(air.s_openings_view().is_first, win) == x_red(no.is_first),
        value2(air.s_openings_view().is_last, win) == x_red(no.is_last),
        value2(air.s_openings_view().is_trans, win) == x_red(no.is_trans),
    ensures
        carries(air.s_openings_view(), no, win),
{
    let o = air.s_openings_view();
    law_openings_read(air, p, t, win, 0);
    assert(t.local.len() >= air.s_w_inner() && t.next.len() >= air.s_w_inner());
    assert forall|c: int| 0 <= c < o.local.len() implies value2(#[trigger] o.local[c], win) == x_red(no.local[c]) by {
        law_openings_read(air, p, t, win, c);
    }
    assert forall|c: int| 0 <= c < o.next.len() implies value2(#[trigger] o.next[c], win) == x_red(no.next[c]) by {
        law_openings_read(air, p, t, win, c);
    }
    assert forall|c: int| 0 <= c < o.pubs.len() implies value2(#[trigger] o.pubs[c], win) == x_red(no.pubs[c]) by {
        law_openings_read(air, p, t, win, c);
        lemma_base_reduced(p.publics[c]);
        assert(no.pubs[c] == x_base(p.publics[c]));
    }
    assert forall|c: int| 0 <= c < o.periodic.len() implies value2(#[trigger] o.periodic[c], win) == x_red(
        no.periodic[c],
    ) by {
        law_openings_read(air, p, t, win, c);
    }
}

/// The aux columns, the challenges and the terminal.
#[verifier::spinoff_prover]
#[verifier::rlimit(40)]
proof fn lemma_lookups_carried(air: MonolithAir, t: TermParts, p: WindowParts, nl: NativeLookupView, win: Window)
    requires
        air.wf(),
        air.lookup is Some,
        parts_fit(air, p),
        terms_fit(air, t),
        reads_window(air, win, spelled(p)),
        terms_held(air, t, win),
        nl.perm_local == joined_coordinates(t.aux_local),
        nl.perm_next == joined_coordinates(t.aux_next),
        nl.challenges == p.challenges.subrange(0, air.lookup->0.n_lookup_challenges as int),
        nl.perm_values == p.terminal,
    ensures
        carries_lookup(air.s_lookup_view(), nl, win),
{
    let l = air.s_lookup_view();
    law_challenges_read(air, p, win, 0);
    law_lookup_openings_read(air, p, t, win, 0);
    assert forall|c: int| 0 <= c < l.perm_local.len() implies value2(#[trigger] l.perm_local[c], win) == x_red(
        nl.perm_local[c],
    ) by {
        law_lookup_openings_read(air, p, t, win, c);
        super::identity::lemma_value2_canonical(l.perm_local[c], win);
    }
    assert forall|c: int| 0 <= c < l.perm_next.len() implies value2(#[trigger] l.perm_next[c], win) == x_red(
        nl.perm_next[c],
    ) by {
        law_lookup_openings_read(air, p, t, win, c);
        super::identity::lemma_value2_canonical(l.perm_next[c], win);
    }
    assert forall|c: int| 0 <= c < l.challenges.len() implies value2(#[trigger] l.challenges[c], win) == x_red(
        nl.challenges[c],
    ) by {
        law_challenges_read(air, p, win, c);
    }
}

/// On a head row that reads the parts of a proof and holds its opened values and selectors, the circuit's openings carry
/// what the verification of that proof reads: the row pair of the trace, the public and periodic values, the aux columns
/// of the row pair joined from their coordinates, the drawn challenges and the terminal.
#[verifier::spinoff_prover]
#[verifier::rlimit(40)]
pub proof fn law_lookup_openings_carried(
    air: MonolithAir,
    s: SystemView,
    proof: LookupProof,
    pis: Seq<u64>,
    p: WindowParts,
    win: Window,
)
    requires
        air.wf(),
        !air.narrow_openings,
        verifies_lookups(air, s, proof, pis),
        error_before(s, proof, pis, 0) is None,
        parts_fit(air, p),
        lookup_parts(s, proof, pis, p),
        reads_window(air, win, spelled(p)),
        opened_held(air, proof, win),
        selectors_held(air, selectors(lookup_zeta(s, proof, pis), proof.degree_bits as nat), win),
        value2(air.s_is_trans(), win) == selectors(lookup_zeta(s, proof, pis), proof.degree_bits as nat).is_transition,
    ensures
        carries(
            air.s_openings_view(),
            lookup_openings(s, proof, pis, lookup_zeta(s, proof, pis), 0),
            win,
        ),
        carries_lookup(air.s_lookup_view(), lookup_reads_at(s, proof, pis), win),
{
    let zeta = lookup_zeta(s, proof, pis);
    let t = lookup_terms(proof);
    let no = lookup_openings(s, proof, pis, zeta, 0);
    let nl = lookup_reads_at(s, proof, pis);
    lemma_lookup_fits(air, s, proof, pis);
    lemma_selectors_reduced(zeta, proof.degree_bits as nat);
    assert(terms_held(air, t, win));
    assert(t.local.take(air.s_w_inner()) =~= no.local && t.next.take(air.s_w_inner()) =~= no.next);
    lemma_openings_carried(air, t, p, no, win);
    lemma_lookups_carried(air, t, p, nl, win);
}

/// The two constraints on the terminal vanish exactly if it is zero.
proof fn lemma_terminal(air: MonolithAir, win: Window)
    requires
        air.wf(),
        at_head(air, win),
    ensures
        vanish(s_vanish(w_per(air.s_m_tf()), air.s_pi2(air.s_term_pi())), win) <==> value2(
            air.s_pi2(air.s_term_pi()),
            win,
        ) == x_zero(),
{
    let tf = w_per(air.s_m_tf());
    let x = air.s_pi2(air.s_term_pi());
    let cs = s_vanish(tf, x);
    lemma_head_gate(air, win);
    lemma_op_values(tf, x.a, win);
    lemma_op_values(tf, x.b, win);
    lemma_value_canonical(x.a, win);
    lemma_value_canonical(x.b, win);
    lemma_gates(value(x.a, win));
    lemma_gates(value(x.b, win));
    assert(cs[0] == w_times(tf, x.a) && cs[1] == w_times(tf, x.b));
}

/// The quotient of a head row is that of the verification.
#[verifier::spinoff_prover]
#[verifier::rlimit(40)]
proof fn lemma_lookup_quotient(
    air: MonolithAir,
    s: SystemView,
    proof: LookupProof,
    pis: Seq<u64>,
    p: WindowParts,
    win: Window,
)
    requires
        air.wf(),
        !air.narrow_openings,
        verifies_lookups(air, s, proof, pis),
        error_before(s, proof, pis, 0) is None,
        parts_fit(air, p),
        lookup_parts(s, proof, pis, p),
        reads_window(air, win, spelled(p)),
        opened_held(air, proof, win),
    ensures
        value2(air.s_checked_quotient(), win) == recomposed(
            chunk_weights(lookup_zeta(s, proof, pis), proof.degree_bits as nat, log_chunks(s, 0)),
            proof.opened.quotient_chunks@,
            proof.opened.quotient_chunks@.len(),
        ),
{
    let zeta = lookup_zeta(s, proof, pis);
    let chunks = proof.opened.quotient_chunks@;
    let t = lookup_terms(proof);
    lemma_lookup_fits(air, s, proof, pis);
    assert(terms_held(air, t, win));
    law_quotient_read(air, p, t, win, chunks.len());
    if chunks.len() == 1 {
        crate::bits::lemma_pow2_exceeds(log_chunks(s, 0));
        super::complete::lemma_lone_weight(zeta, proof.degree_bits as nat);
        assert(weights_of(air, p) =~= chunk_weights(zeta, proof.degree_bits as nat, log_chunks(s, 0)));
    }
}

/// The fold check with the terminal, over openings that are carried.
#[verifier::spinoff_prover]
#[verifier::rlimit(40)]
proof fn lemma_carried_tree_check(
    air: MonolithAir,
    s: SystemView,
    no: NativeView,
    nl: NativeLookupView,
    alpha: Ext,
    inv: Ext,
    quot: Ext,
    terminal: Ext,
    win: Window,
)
    requires
        air.wf(),
        air.trees_ok(),
        !air.narrow_openings,
        air.lookup is Some,
        air.constraints@ == s.constraints,
        air.lookup->0.ext_constraints@ == lookup_constraints(s.lookups),
        at_head(air, win),
        carries(air.s_openings_view(), no, win),
        carries_lookup(air.s_lookup_view(), nl, win),
        value2(air.s_alpha_stark(), win) == x_red(alpha),
        value2(w2_cur(air.s_sel(4)), win) == x_red(inv),
        value2(air.s_checked_quotient(), win) == quot,
        value2(air.s_pi2(air.s_term_pi()), win) == x_red(terminal),
    ensures
        ({
            let n = air.s_n_constraints();
            &&& vanish(air.s_tree_check(InlineBci), win) <==> {
                &&& vanish(air.s_selectors(), win)
                &&& partial_folds_held(air, no, nl, n, win)
                &&& x_same(x_mul(batched(s, no, nl, alpha), inv), quot)
                &&& x_same(terminal, x_zero())
            }
            &&& partial_folds_held(air, no, nl, n, win) ==> value2(
                air.s_folded(air.s_openings_view(), air.s_lookup_view(), n, n),
                win,
            ) == batched(s, no, nl, alpha)
        }),
{
    let n = air.s_n_constraints();
    let (o, l) = (air.s_openings_view(), air.s_lookup_view());
    assert(openings_carried(air, o, l, no, nl, n, win)) by {
        assert forall|k: int| 0 <= k < n && k < air.constraints@.len() implies o.reads(
            #[trigger] air.constraints@[k],
        ) by {}
        assert forall|k: int| air.constraints@.len() <= k < n implies l.reads(
            #[trigger] air.lookup->0.ext_constraints@[k - air.constraints@.len()],
            o,
        ) by {}
    }
    let inv_van = w2_cur(air.s_sel(4));
    law_head_row_identity(air, o, l, no, nl, n, inv_van, air.s_checked_quotient(), win);
    law_fold_is_batched(air, s, no, nl, alpha);
    let folded = batched(s, no, nl, alpha);
    lemma_inverse_factor(folded, inv);
    super::identity::lemma_value2_canonical(air.s_checked_quotient(), win);
    lemma_terminal(air, win);
    assert(x_red(x_zero()) == x_zero());
    let check = air.s_fold_check(o, l, n, inv_van, air.s_checked_quotient());
    let term = s_vanish(w_per(air.s_m_tf()), air.s_pi2(air.s_term_pi()));
    lemma_vanish_parts(check, term, win);
    lemma_vanish_parts(air.s_selectors(), check + term, win);
    if partial_folds_held(air, no, nl, n, win) {
        lemma_fold_values(air, o, l, no, nl, n, n, win);
    }
}

pub(super) proof fn lemma_inverse_factor(a: Ext, inv: Ext)
    ensures
        x_mul(a, x_red(inv)) == x_mul(a, inv),
        x_red(x_mul(a, inv)) == x_mul(a, inv),
{
    lemma_x_mul_red(a, inv);
    lemma_x_mul_red(a, x_red(inv));
    assert(x_red(x_red(inv)) == x_red(inv));
}

/// The fold check with the terminal, on a head row with the right selectors.
#[verifier::spinoff_prover]
#[verifier::rlimit(60)]
proof fn lemma_lookup_tree_check(
    air: MonolithAir,
    s: SystemView,
    proof: LookupProof,
    pis: Seq<u64>,
    p: WindowParts,
    win: Window,
)
    requires
        air.wf(),
        air.trees_ok(),
        !air.narrow_openings,
        at_head(air, win),
        verifies_lookups(air, s, proof, pis),
        error_before(s, proof, pis, 0) is None,
        parts_fit(air, p),
        lookup_parts(s, proof, pis, p),
        reads_window(air, win, spelled(p)),
        opened_held(air, proof, win),
        selectors_held(air, selectors(lookup_zeta(s, proof, pis), proof.degree_bits as nat), win),
        value2(air.s_is_trans(), win) == selectors(lookup_zeta(s, proof, pis), proof.degree_bits as nat).is_transition,
    ensures
        ({
            let no = lookup_openings(s, proof, pis, lookup_zeta(s, proof, pis), 0);
            let nl = lookup_reads_at(s, proof, pis);
            let n = air.s_n_constraints();
            &&& vanish(air.s_tree_check(InlineBci), win) <==> {
                &&& vanish(air.s_selectors(), win)
                &&& partial_folds_held(air, no, nl, n, win)
                &&& lookup_identity(s, proof, pis, 0)
                &&& x_same(proof.terminal, x_zero())
            }
            &&& partial_folds_held(air, no, nl, n, win) ==> value2(
                air.s_folded(air.s_openings_view(), air.s_lookup_view(), n, n),
                win,
            ) == batched(s, no, nl, lookup_alpha(s, proof, pis))
        }),
{
    let zeta = lookup_zeta(s, proof, pis);
    let t = lookup_terms(proof);
    lemma_lookup_fits(air, s, proof, pis);
    assert(terms_held(air, t, win));
    law_lookup_openings_carried(air, s, proof, pis, p, win);
    law_challenges_read(air, p, win, 0);
    law_lookup_openings_read(air, p, t, win, 0);
    lemma_lookup_quotient(air, s, proof, pis, p, win);
    let weights = chunk_weights(zeta, proof.degree_bits as nat, log_chunks(s, 0));
    let quot = recomposed(weights, proof.opened.quotient_chunks@, proof.opened.quotient_chunks@.len());
    lemma_carried_tree_check(
        air,
        s,
        lookup_openings(s, proof, pis, zeta, 0),
        lookup_reads_at(s, proof, pis),
        lookup_alpha(s, proof, pis),
        selectors(zeta, proof.degree_bits as nat).inv_vanishing,
        quot,
        proof.terminal,
        win,
    );
}

/// The squares and the selectors of a head row whose point is known.
#[verifier::spinoff_prover]
#[verifier::rlimit(40)]
pub(super) proof fn lemma_head_selectors(air: MonolithAir, zeta: Ext, n: nat, win: Window)
    requires
        air.wf(),
        air.s_symbolic(),
        at_head(air, win),
        air.s_cdb() == n,
        value2(air.s_zeta(), win) == x_red(zeta),
        !x_same(vanishing(zeta, n), x_zero()),
    ensures
        vanish(air.all_squaring(), win) <==> (air.column_window ==> squares_held(air, win)),
        vanish(air.all_squaring(), win) ==> value2(air.s_is_trans(), win) == selectors(zeta, n).is_transition,
        vanish(air.all_squaring(), win) && vanish(air.s_selectors(), win) ==> selectors_held(air, selectors(zeta, n), win),
        vanish(air.all_squaring(), win) && selectors_held(air, selectors(zeta, n), win) && last_row_selected(zeta, n)
            ==> vanish(air.s_selectors(), win),
{
    let sel = selectors(zeta, n);
    air.lemma_bounds();
    law_head_row_squares(air, win);
    lemma_selectors_reduced(zeta, n);
    lemma_vanishing_reduced(zeta, n);
    lemma_pair_value(air.s_sel(0), win);
    lemma_pair_value(air.s_sel(2), win);
    lemma_pair_value(air.s_sel(4), win);
    assert(air.s_cdb() as nat == n);
    if vanish(air.all_squaring(), win) {
        super::identity::lemma_selector_wires(air, win);
        super::heads::lemma_difference_reduced(zeta, last_point(n));
        if vanish(air.s_selectors(), win) {
            law_head_row_selectors(air, win);
            super::identity::lemma_value2_canonical(w2_cur(air.s_sel(4)), win);
        }
        if selectors_held(air, sel, win) && last_row_selected(zeta, n) {
            lemma_built_selectors(air, win, zeta);
        }
    }
}

/// For an inner with lookups, the out-of-domain constraints of a head row that reads the parts of a proof and holds its
/// opened values in the order in which they are claimed vanish exactly if the row's witness is right, the constraint
/// identity of the verification holds of that proof, and its terminal is zero; the value that the circuit folds is then
/// the batched value of the verification. A proof whose openings hold is thus accepted where the constraints vanish, and
/// on an accepted one they vanish.
#[verifier::spinoff_prover]
#[verifier::rlimit(60)]
pub proof fn law_lookup_check_is_verification(
    air: MonolithAir,
    s: SystemView,
    proof: LookupProof,
    pis: Seq<u64>,
    p: WindowParts,
    win: Window,
)
    requires
        air.wf(),
        air.trees_ok(),
        !air.narrow_openings,
        !air.narrow_arith,
        at_head(air, win),
        verifies_lookups(air, s, proof, pis),
        error_before(s, proof, pis, 0) is None,
        parts_fit(air, p),
        lookup_parts(s, proof, pis, p),
        reads_window(air, win, spelled(p)),
        opened_held(air, proof, win),
    ensures
        vanish(air.s_ood(InlineBci), win) ==> {
            &&& lookup_witness(air, s, proof, pis, win)
            &&& lookup_identity(s, proof, pis, 0)
            &&& x_same(proof.terminal, x_zero())
            &&& columns_defined(s.periodic, proof.degree_bits as nat, lookup_zeta(s, proof, pis)) ==> error_after(
                s,
                proof,
                pis,
                0,
            ) is None
        },
        lookup_witness(air, s, proof, pis, win) && error_after(s, proof, pis, 0) is None && last_row_selected(
            lookup_zeta(s, proof, pis),
            proof.degree_bits as nat,
        ) ==> vanish(air.s_ood(InlineBci), win),
        lookup_witness(air, s, proof, pis, win) ==> value2(
            air.s_folded(
                air.s_openings_view(),
                air.s_lookup_view(),
                air.s_n_constraints(),
                air.s_n_constraints(),
            ),
            win,
        ) == batched(
            s,
            lookup_openings(s, proof, pis, lookup_zeta(s, proof, pis), 0),
            lookup_reads_at(s, proof, pis),
            lookup_alpha(s, proof, pis),
        ),
{
    let zeta = lookup_zeta(s, proof, pis);
    let n = proof.degree_bits as nat;
    let (squares, check, points) = (air.all_squaring(), air.s_tree_check(InlineBci), air.all_term_points());
    assert(air.s_ood(InlineBci) == squares + check + points);
    lemma_lookup_fits(air, s, proof, pis);
    law_challenges_read(air, p, win, 0);
    law_points_read(air, lookup_terms(proof), win, zeta);
    lemma_head_selectors(air, zeta, n, win);
    lemma_vanish_parts(squares, check, win);
    lemma_vanish_parts(squares + check, points, win);
    if vanish(air.s_ood(InlineBci), win) {
        let rest = air.s_fold_check(
            air.s_openings_view(),
            air.s_lookup_view(),
            air.s_n_constraints(),
            w2_cur(air.s_sel(4)),
            air.s_checked_quotient(),
        ) + s_vanish(w_per(air.s_m_tf()), air.s_pi2(air.s_term_pi()));
        lemma_vanish_parts(air.s_selectors(), rest, win);
        lemma_lookup_tree_check(air, s, proof, pis, p, win);
    }
    if lookup_witness(air, s, proof, pis, win) {
        lemma_lookup_tree_check(air, s, proof, pis, p, win);
    }
}

/// A point off a domain whose generator is a root of unity of its order has the selector of the last row.
pub proof fn law_last_row_selected(zeta: Ext, n: nat)
    requires
        is_root(two_adic_root(n), n),
        !x_same(vanishing(zeta, n), x_zero()),
    ensures
        last_row_selected(zeta, n),
{
    let g = two_adic_root(n);
    lemma_inverse(g);
    lemma_off_ends(zeta, g, f_inv(g), n);
    super::heads::lemma_difference_reduced(zeta, last_point(n));
    assert(x_red(x_zero()) == x_zero());
    lemma_over(vanishing(zeta, n), x_sub(zeta, last_point(n)));
}

/// On an accepted lookup proof the out-of-domain constraints vanish: for a head row that reads the parts of the proof, holds its
/// opened values and witnesses the squares, the selectors, the partial folds and the points.
pub proof fn law_accepted_lookup_passes(
    air: MonolithAir,
    s: SystemView,
    proof: LookupProof,
    pis: Seq<u64>,
    p: WindowParts,
    win: Window,
)
    requires
        air.wf(),
        air.trees_ok(),
        !air.narrow_openings,
        !air.narrow_arith,
        at_head(air, win),
        verifies_lookups(air, s, proof, pis),
        lookup_error(s, proof, pis, 0, None) is None,
        is_root(two_adic_root(proof.degree_bits as nat), proof.degree_bits as nat),
        parts_fit(air, p),
        lookup_parts(s, proof, pis, p),
        reads_window(air, win, spelled(p)),
        opened_held(air, proof, win),
        lookup_witness(air, s, proof, pis, win),
    ensures
        vanish(air.s_ood(InlineBci), win),
{
    law_last_row_selected(lookup_zeta(s, proof, pis), proof.degree_bits as nat);
    law_lookup_check_is_verification(air, s, proof, pis, p, win);
}

} // verus!
