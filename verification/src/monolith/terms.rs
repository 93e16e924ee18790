//! The opened values of the inner proof are the terms of a head row one after the other, for every shape of the inner:
//! what the out-of-domain check reads of them, and at which point each was opened.

use vstd::prelude::*;

use super::epilogue::s_agree;
use super::index::{at_head, lemma_head_gate};
use super::layout::MonolithAir;
use super::ood::{lemma_combined, lemma_scaled_wires};
use super::parts::{law_window_parts, lemma_pair_stands, parts_fit, spelled, stands, WindowParts};
use super::tops::reads_window;
use crate::expr::{
    law_plus_minus_value, law_times_value, value, value2, w2, w2_combine, w2_cur, w_const, w_per, w_times, Window,
};
use crate::field::{
    f_red, lemma_x_mul_comm, lemma_x_mul_one, lemma_x_mul_red, two_adic_root, x_add, x_base, x_mul, x_one, x_red, Ext,
};
use crate::stark::domain::{chunk_value, next_point, recomposed, x_gen};
use crate::stark::verify::chunks_joined;
use crate::vanish::{lemma_const_value, lemma_pair_equation, lemma_vanish_flat, vanish};

verus! {

/// The opened values of an inner proof: the random row, the trace's row pair, the aux columns' row pair in coordinates,
/// and the chunks of the quotient. A hidden row carries its codewords behind its columns.
pub struct TermParts {
    pub random: Seq<Ext>,
    pub local: Seq<Ext>,
    pub next: Seq<Ext>,
    pub aux_local: Seq<Ext>,
    pub aux_next: Seq<Ext>,
    pub chunks: Seq<Vec<Ext>>,
}

/// All opened values one after the other.
pub open spec fn terms_spelled(t: TermParts) -> Seq<Ext> {
    t.random + t.local + t.next + t.aux_local + t.aux_next + chunks_joined(t.chunks, t.chunks.len())
}

/// The points of the opened values: the rows of the next point are opened there, all others at the point.
pub open spec fn term_points(t: TermParts, zeta: Ext, next: Ext) -> Seq<Ext> {
    Seq::new(t.random.len(), |i: int| zeta) + Seq::new(t.local.len(), |i: int| zeta) + Seq::new(
        t.next.len(),
        |i: int| next,
    ) + Seq::new(t.aux_local.len(), |i: int| zeta) + Seq::new(t.aux_next.len(), |i: int| next) + Seq::new(
        chunks_joined(t.chunks, t.chunks.len()).len(),
        |i: int| zeta,
    )
}

/// The opened values have the sizes of the inner's shape: hiding adds a random row of two columns, and four codewords to
/// every row.
pub open spec fn terms_fit(air: MonolithAir, t: TermParts) -> bool {
    let (random, codewords) = if air.is_zk == 1 {
        (6nat, 4nat)
    } else {
        (0nat, 0nat)
    };
    let aux = match air.lookup {
        Some(l) => 2 * l.aux_ext_w as nat,
        None => 0nat,
    };
    &&& t.random.len() == random
    &&& t.local.len() == air.s_w_inner() + codewords
    &&& t.next.len() == air.s_w_inner() + codewords
    &&& t.aux_local.len() == aux
    &&& t.aux_next.len() == aux
    &&& t.chunks.len() == air.s_nqc()
    &&& forall|i: int| 0 <= i < t.chunks.len() ==> (#[trigger] t.chunks[i])@.len() == 2 + codewords
    &&& terms_spelled(t).len() == air.n_terms
}

/// A head row holds the opened values.
pub open spec fn terms_held(air: MonolithAir, t: TermParts, win: Window) -> bool {
    forall|k: int|
        0 <= k < terms_spelled(t).len() ==> value2(#[trigger] w2_cur(air.s_pz(k)), win) == x_red(terms_spelled(t)[k])
}

/// A head row holds the points of the opened values.
pub open spec fn points_held(air: MonolithAir, t: TermParts, zeta: Ext, next: Ext, win: Window) -> bool {
    forall|k: int|
        0 <= k < term_points(t, zeta, next).len() ==> value2(#[trigger] w2_cur(air.s_z(k)), win) == x_red(
            term_points(t, zeta, next)[k],
        )
}

/// The recomposition weights: a lone chunk has none beside it, and stands for itself.
pub open spec fn weights_of(air: MonolithAir, p: WindowParts) -> Seq<Ext> {
    if air.s_nqc() > 1 {
        p.weights
    } else {
        seq![x_one()]
    }
}

/// Component `j` of chunk `i` among the joined chunks of one width.
proof fn lemma_component(chunks: Seq<Vec<Ext>>, width: nat, n: nat, i: int, j: int)
    requires
        n <= chunks.len(),
        forall|k: int| 0 <= k < chunks.len() ==> (#[trigger] chunks[k])@.len() == width,
        0 <= i < n,
        0 <= j < width,
    ensures
        chunks_joined(chunks, n).len() == n * width,
        0 <= i * width + j < n * width,
        chunks_joined(chunks, n)[i * width + j] == chunks[i]@[j],
    decreases n,
{
    let m = (n - 1) as nat;
    lemma_joined_len(chunks, width, n);
    lemma_joined_len(chunks, width, m);
    assert(n * width == m * width + width) by (nonlinear_arith)
        requires
            n == m + 1,
    ;
    assert(i * width + width <= n * width && 0 <= i * width) by (nonlinear_arith)
        requires
            0 <= i,
            i + 1 <= n,
    ;
    if i < m {
        lemma_component(chunks, width, m, i, j);
    }
}

pub(super) proof fn lemma_joined_len(chunks: Seq<Vec<Ext>>, width: nat, n: nat)
    requires
        n <= chunks.len(),
        forall|k: int| 0 <= k < chunks.len() ==> (#[trigger] chunks[k])@.len() == width,
    ensures
        chunks_joined(chunks, n).len() == n * width,
    decreases n,
{
    if n > 0 {
        let m = (n - 1) as nat;
        lemma_joined_len(chunks, width, m);
        assert(chunks[n - 1]@.len() == width);
        assert(n * width == m * width + width) by (nonlinear_arith)
            requires
                n == m + 1,
        ;
    }
}

/// Where each opened value stands among the terms.
pub proof fn law_term_order(air: MonolithAir, t: TermParts, c: int, i: int, j: int)
    requires
        air.wf(),
        terms_fit(air, t),
        0 <= c,
        0 <= i < t.chunks.len(),
        0 <= j < t.chunks[i]@.len(),
    ensures
        c < t.local.len() ==> terms_spelled(t)[air.s_trm_trace(c)] == t.local[c],
        c < t.next.len() ==> terms_spelled(t)[air.s_trm_next(c)] == t.next[c],
        c < t.aux_local.len() ==> terms_spelled(t)[air.s_trm_aux(c)] == t.aux_local[c],
        c < t.aux_next.len() ==> terms_spelled(t)[air.s_trm_aux_next(c)] == t.aux_next[c],
        0 <= air.s_trm_quot(i, j) < air.n_terms,
        terms_spelled(t)[air.s_trm_quot(i, j)] == t.chunks[i]@[j],
        c < t.local.len() ==> 0 <= air.s_trm_trace(c) < air.n_terms,
        c < t.next.len() ==> 0 <= air.s_trm_next(c) < air.n_terms,
        c < t.aux_local.len() ==> 0 <= air.s_trm_aux(c) < air.n_terms,
        c < t.aux_next.len() ==> 0 <= air.s_trm_aux_next(c) < air.n_terms,
{
    let width: nat = if air.is_zk == 1 {
        6
    } else {
        2
    };
    lemma_component(t.chunks, width, t.chunks.len(), i, j);
    assert(i * width == air.s_chunk_offset(i)) by (nonlinear_arith)
        requires
            width == 6 || width == 2,
            air.s_chunk_offset(i) == (if width == 6 {
                6 * i
            } else {
                2 * i
            }),
    ;
}

/// The value of a pair of public values.
pub(super) proof fn lemma_read_pair(air: MonolithAir, win: Window, w: Seq<u64>, at: int, xs: Seq<Ext>, i: int)
    requires
        reads_window(air, win, w),
        w.len() == air.s_pis_count(),
        stands(w, at, crate::transcript::ext_felts(xs)),
        0 <= i < xs.len(),
    ensures
        value2(air.s_pi2(at + 2 * i), win) == x_red(xs[i]),
{
    lemma_pair_stands(w, at, xs, i);
    assert(value(air.s_pi(at + 2 * i), win) == f_red(w[at + 2 * i] as int));
    assert(value(air.s_pi(at + 2 * i + 1), win) == f_red(w[at + 2 * i + 1] as int));
}

/// On a row that reads the parts of an inner proof, the challenges are found in the order in which they are drawn: those
/// of the lookups, the constraint challenge, the point.
pub proof fn law_challenges_read(air: MonolithAir, p: WindowParts, win: Window, i: int)
    requires
        air.wf(),
        parts_fit(air, p),
        reads_window(air, win, spelled(p)),
    ensures
        ({
            let n = match air.lookup {
                Some(l) => l.n_lookup_challenges as int,
                None => 0,
            };
            &&& n + 2 < p.challenges.len()
            &&& 0 <= i < n ==> value2(air.s_lookup_view().challenges[i], win) == x_red(p.challenges[i])
            &&& value2(air.s_alpha_stark(), win) == x_red(p.challenges[n])
            &&& value2(air.s_zeta(), win) == x_red(p.challenges[n + 1])
        }),
{
    law_window_parts(air, p);
    let n = air.s_nlc();
    let w = spelled(p);
    lemma_read_pair(air, win, w, 0, p.challenges, n);
    lemma_read_pair(air, win, w, 0, p.challenges, n + 1);
    if 0 <= i < n {
        lemma_read_pair(air, win, w, 0, p.challenges, i);
    }
}

/// The quotient of a head row is recomposed from the opened chunks.
#[verifier::spinoff_prover]
#[verifier::rlimit(40)]
pub proof fn law_quotient_read(air: MonolithAir, p: WindowParts, t: TermParts, win: Window, n: nat)
    requires
        air.wf(),
        air.s_nqc() > 1 ==> air.s_symbolic() || air.is_zk == 1,
        parts_fit(air, p),
        terms_fit(air, t),
        reads_window(air, win, spelled(p)),
        terms_held(air, t, win),
        n <= t.chunks.len(),
    ensures
        value2(air.s_quotient(n as int), win) == recomposed(weights_of(air, p), t.chunks, n),
    decreases n,
{
    if n == 0 {
        lemma_const_value(0, win);
    } else {
        let i = n - 1;
        law_quotient_read(air, p, t, win, i as nat);
        law_window_parts(air, p);
        assert(t.chunks[i]@.len() >= 2);
        law_term_order(air, t, 0, i, 0);
        law_term_order(air, t, 0, i, 1);
        let (t0, t1) = (air.s_trm_quot(i, 0), air.s_trm_quot(i, 1));
        let (d0, d1) = (w2_cur(air.s_pz(t0)), w2_cur(air.s_pz(t1)));
        lemma_combined(d0, d1, t.chunks[i]@[0], t.chunks[i]@[1], win);
        let chunk = w2_combine(d0, d1);
        let v = chunk_value(t.chunks[i]@);
        lemma_x_mul_one(v);
        lemma_x_mul_comm(x_one(), v);
        if air.s_nqc() > 1 {
            lemma_read_pair(air, win, spelled(p), air.s_qwt_base(), p.weights, i);
            law_times_value(air.s_pi2(air.s_qwt_base() + 2 * i), chunk, win);
            lemma_x_mul_red(p.weights[i], v);
        }
        law_plus_minus_value(air.s_quotient(i), air.s_weighted_chunk(i), win);
    }
}

/// On a row that reads the parts of an inner proof and holds its opened values, the constraints read the opened row pair
/// of the trace, the public values and the periodic values, in their order.
pub proof fn law_openings_read(air: MonolithAir, p: WindowParts, t: TermParts, win: Window, c: int)
    requires
        air.wf(),
        !air.narrow_openings,
        parts_fit(air, p),
        terms_fit(air, t),
        reads_window(air, win, spelled(p)),
        terms_held(air, t, win),
        0 <= c,
    ensures
        air.s_openings_view().local.len() == air.s_w_inner(),
        air.s_openings_view().next.len() == air.s_w_inner(),
        air.s_openings_view().pubs.len() == p.publics.len(),
        air.s_openings_view().periodic.len() == p.periodic.len(),
        c < air.s_w_inner() ==> {
            &&& value2(air.s_openings_view().local[c], win) == x_red(t.local[c])
            &&& value2(air.s_openings_view().next[c], win) == x_red(t.next[c])
        },
        c < p.publics.len() ==> value2(air.s_openings_view().pubs[c], win) == x_base(p.publics[c]),
        c < p.periodic.len() ==> value2(air.s_openings_view().periodic[c], win) == x_red(p.periodic[c]),
{
    law_window_parts(air, p);
    let w = spelled(p);
    assert(t.chunks[0]@.len() >= 2);
    law_term_order(air, t, c, 0, 0);
    if c < p.publics.len() {
        let at = air.s_pub_pi();
        assert(w.subrange(at, at + p.publics.len())[c] == w[at + c]);
        assert(value(air.s_pi(at + c), win) == f_red(w[at + c] as int));
        lemma_const_value(0, win);
    }
    if c < p.periodic.len() {
        lemma_read_pair(air, win, w, air.s_periodic_base(), p.periodic, c);
    }
}

/// The lookup trees read the opened aux columns of the row pair, each joined from its two coordinates, the row of the point
/// apart from that of the next point, and the terminal.
pub proof fn law_lookup_openings_read(air: MonolithAir, p: WindowParts, t: TermParts, win: Window, c: int)
    requires
        air.wf(),
        air.lookup is Some,
        parts_fit(air, p),
        terms_fit(air, t),
        reads_window(air, win, spelled(p)),
        terms_held(air, t, win),
        0 <= c < air.lookup->0.aux_ext_w,
    ensures
        ({
            let l = air.s_lookup_view();
            &&& l.perm_local.len() == air.lookup->0.aux_ext_w
            &&& l.perm_next.len() == air.lookup->0.aux_ext_w
            &&& l.challenges.len() == air.lookup->0.n_lookup_challenges
            &&& l.perm_values.len() == 1
            &&& value2(l.perm_local[c], win) == x_add(t.aux_local[2 * c], x_mul(t.aux_local[2 * c + 1], x_gen()))
            &&& value2(l.perm_next[c], win) == x_add(t.aux_next[2 * c], x_mul(t.aux_next[2 * c + 1], x_gen()))
            &&& value2(l.perm_values[0], win) == x_red(p.terminal[0])
        }),
{
    law_window_parts(air, p);
    assert(t.chunks[0]@.len() >= 2);
    law_term_order(air, t, 2 * c, 0, 0);
    law_term_order(air, t, 2 * c + 1, 0, 0);
    let a = air.s_trm_aux(2 * c);
    let b = air.s_trm_aux_next(2 * c);
    assert(a + 1 == air.s_trm_aux(2 * c + 1) && b + 1 == air.s_trm_aux_next(2 * c + 1));
    lemma_combined(
        w2_cur(air.s_pz(a)),
        w2_cur(air.s_pz(a + 1)),
        t.aux_local[2 * c],
        t.aux_local[2 * c + 1],
        win,
    );
    lemma_combined(w2_cur(air.s_pz(b)), w2_cur(air.s_pz(b + 1)), t.aux_next[2 * c], t.aux_next[2 * c + 1], win);
    lemma_read_pair(air, win, spelled(p), air.s_term_pi(), p.terminal, 0);
}

/// The point constraints of a head row vanish exactly if each opened value has its point: the row of the next point that
/// one, all others the drawn point.
#[verifier::spinoff_prover]
#[verifier::rlimit(40)]
pub proof fn law_points_read(air: MonolithAir, t: TermParts, win: Window, zeta: Ext)
    requires
        air.wf(),
        !air.narrow_arith,
        at_head(air, win),
        terms_fit(air, t),
        value2(air.s_zeta(), win) == x_red(zeta),
    ensures
        vanish(air.all_term_points(), win) <==> points_held(
            air,
            t,
            zeta,
            next_point(zeta, (air.binds@.len() - 3 - air.s_nlc() - air.is_zk) as nat),
            win,
        ),
{
    let next = next_point(zeta, air.s_cdb() as nat);
    let tf = w_per(air.s_m_tf());
    let root = two_adic_root(air.s_cdb() as nat);
    let point = air.s_zeta();
    let points = term_points(t, zeta, next);
    air.lemma_bounds();
    lemma_head_gate(air, win);
    lemma_scaled_wires(point, root, zeta, win);
    lemma_vanish_flat(air.n_terms as int, air.f_term_point(), win);
    assert(points.len() == air.n_terms);
    let width: nat = if air.is_zk == 1 {
        6
    } else {
        2
    };
    lemma_joined_len(t.chunks, width, t.chunks.len());
    assert forall|k: int| 0 <= k < air.n_terms implies (vanish(#[trigger] air.f_term_point()(k), win) <==> value2(
        w2_cur(air.s_z(k)),
        win,
    ) == x_red(points[k])) by {
        let at = if air.s_at_next(k) {
            w2(w_times(point.a, w_const(root)), w_times(point.b, w_const(root)))
        } else {
            point
        };
        assert(points[k] == if air.s_at_next(k) {
            next
        } else {
            zeta
        });
        assert(value2(at, win) == x_red(points[k]));
        lemma_pair_equation(tf, w2_cur(air.s_z(k)), at, win);
        assert(air.s_term_point(k) == s_agree(tf, w2_cur(air.s_z(k)), at));
    }
    if points_held(air, t, zeta, next, win) {
        assert forall|k: int| 0 <= k < air.n_terms implies vanish(#[trigger] air.f_term_point()(k), win) by {
            assert(value2(w2_cur(air.s_z(k)), win) == x_red(points[k]));
        }
    }
    if vanish(air.all_term_points(), win) {
        assert forall|k: int| 0 <= k < points.len() implies value2(#[trigger] w2_cur(air.s_z(k)), win) == x_red(
            points[k],
        ) by {
            assert(vanish(air.f_term_point()(k), win));
        }
    }
}

} // verus!
