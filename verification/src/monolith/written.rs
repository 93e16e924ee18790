//! What a built instance holds of its queries and of its window, for every shape of the inner: the salted rows behind the
//! leaves, the terms that are kept, and the squares of the point.

use vstd::prelude::*;

use super::grid::{cell, held};
use super::layout::MonolithAir;
use super::meaning::lemma_pair_cells;
use super::ood::{lemma_square_chain, lemma_squares_at};
use super::reading::{lemma_held_cell, lemma_in_rows, row_at};
use super::trace::{square_chain, QueryData};
use crate::field::{f_red, x_base, x_inv, x_pow, x_square_times, x_sub, Ext};
use crate::gadgets::fold::coords;
use crate::gadgets::opening::OpeningTerm;
use crate::vanish::pair_at;

verus! {

/// The queried values of a query's terms from term `at` on.
pub open spec fn queried(q: QueryData, at: int, n: int) -> Seq<u64> {
    Seq::new(n as nat, |c: int| q.terms@[at + c].px)
}

/// The rows behind the leaves of a hiding inner: the random row is the first six terms and its salt, the trace's row the
/// next ones, with four codewords, and its salt, chunk `i` of the quotient its six terms, behind the trace's row at the next
/// point, with a salt of its own; and a commit round hashes its group with its own salt.
pub proof fn law_hidden_leaves(air: MonolithAir, q: QueryData, i: int, r: int)
    requires
        air.wf(),
        air.is_zk == 1,
        air.query_fits(q),
        0 <= i < air.s_nqc(),
        0 <= r < air.s_cm_rounds(),
    ensures
        ({
            let (w, h) = (air.s_w_inner(), q.hiding->0);
            &&& air.s_random_preimage(q) == queried(q, 0, 6) + h.random_salt@
            &&& air.s_input_preimage(q) == queried(q, 6, w + 4) + h.trace_salt@
            &&& air.s_quot_preimage(q, air.s_nqc() as nat).len() == 10 * air.s_nqc()
            &&& air.s_quot_preimage(q, air.s_nqc() as nat).subrange(10 * i, 10 * i + 10) == queried(
                q,
                6 + 2 * (w + 4) + 6 * i,
                6,
            ) + h.quot_salts@[i]@
            &&& air.s_commit_preimage(q, r) == q.commits@[r].group@ + h.commit_salts@[r]@
        }),
{
    let (w, h) = (air.s_w_inner(), q.hiding->0);
    assert(air.s_random_preimage(q) =~= queried(q, 0, 6) + h.random_salt@);
    assert(air.s_input_preimage(q) =~= queried(q, 6, w + 4) + h.trace_salt@);
    lemma_hidden_chunk(air, q, air.s_nqc() as nat, i);
}

proof fn lemma_hidden_chunk(air: MonolithAir, q: QueryData, n: nat, i: int)
    requires
        air.wf(),
        air.is_zk == 1,
        air.query_fits(q),
        0 <= i < n <= air.s_nqc(),
    ensures
        air.s_quot_preimage(q, n).len() == 10 * n,
        air.s_quot_preimage(q, n).subrange(10 * i, 10 * i + 10) == queried(
            q,
            6 + 2 * (air.s_w_inner() + 4) + 6 * i,
            6,
        ) + q.hiding->0.quot_salts@[i]@,
    decreases n,
{
    let m = (n - 1) as nat;
    let whole = air.s_quot_preimage(q, n);
    air.lemma_preimages(q, n);
    air.lemma_preimages(q, m);
    let own = queried(q, 6 + 2 * (air.s_w_inner() + 4) + 6 * i, 6) + q.hiding->0.quot_salts@[i]@;
    if i < m {
        lemma_hidden_chunk(air, q, m, i);
        assert(whole.subrange(10 * i, 10 * i + 10) =~= air.s_quot_preimage(q, m).subrange(10 * i, 10 * i + 10));
    } else {
        assert(q.hiding->0.quot_salts@[i]@.len() == 4);
        assert(whole.subrange(10 * i, 10 * i + 10) =~= own);
    }
}

/// The rows behind the leaves of an inner that does not hide: the trace's row is the first terms, the aux row those behind
/// the trace's row pair, chunk `i` of the quotient its two terms behind the aux row pair, and a commit round hashes its
/// group alone.
pub proof fn law_plain_leaves(air: MonolithAir, q: QueryData, i: int, r: int)
    requires
        air.wf(),
        air.is_zk == 0,
        air.query_fits(q),
        0 <= i < air.s_nqc(),
        0 <= r < air.s_cm_rounds(),
    ensures
        ({
            let w = air.s_w_inner();
            let aux = match air.lookup {
                Some(l) => 2 * l.aux_ext_w as int,
                None => 0,
            };
            &&& air.s_random_preimage(q) == Seq::<u64>::empty()
            &&& air.s_input_preimage(q) == queried(q, 0, w)
            &&& air.s_aux_preimage(q) == queried(q, 2 * w, aux)
            &&& air.s_quot_preimage(q, air.s_nqc() as nat).len() == 2 * air.s_nqc()
            &&& air.s_quot_preimage(q, air.s_nqc() as nat).subrange(2 * i, 2 * i + 2) == queried(
                q,
                2 * w + 2 * aux + 2 * i,
                2,
            )
            &&& air.s_commit_preimage(q, r) == q.commits@[r].group@
        }),
{
    let w = air.s_w_inner();
    let aux = match air.lookup {
        Some(l) => 2 * l.aux_ext_w as int,
        None => 0,
    };
    assert(air.s_input_preimage(q) =~= queried(q, 0, w));
    assert(air.s_aux_preimage(q) =~= queried(q, 2 * w, aux));
    assert(air.s_commit_preimage(q, r) =~= q.commits@[r].group@);
    lemma_plain_chunk(air, q, air.s_nqc() as nat, i);
}

proof fn lemma_plain_chunk(air: MonolithAir, q: QueryData, n: nat, i: int)
    requires
        air.wf(),
        air.is_zk == 0,
        air.query_fits(q),
        0 <= i < n <= air.s_nqc(),
    ensures
        air.s_quot_preimage(q, n).len() == 2 * n,
        air.s_quot_preimage(q, n).subrange(2 * i, 2 * i + 2) == queried(
            q,
            2 * air.s_w_inner() + 2 * (match air.lookup {
                Some(l) => 2 * l.aux_ext_w as int,
                None => 0,
            }) + 2 * i,
            2,
        ),
    decreases n,
{
    let m = (n - 1) as nat;
    let whole = air.s_quot_preimage(q, n);
    air.lemma_preimages(q, n);
    air.lemma_preimages(q, m);
    let aux = match air.lookup {
        Some(l) => 2 * l.aux_ext_w as int,
        None => 0,
    };
    if i < m {
        lemma_plain_chunk(air, q, m, i);
        assert(whole.subrange(2 * i, 2 * i + 2) =~= air.s_quot_preimage(q, m).subrange(2 * i, 2 * i + 2));
    } else {
        assert(whole.subrange(2 * i, 2 * i + 2) =~= queried(q, 2 * air.s_w_inner() + 2 * aux + 2 * i, 2));
    }
}

/// The cells of a term: its point, its opened value, the queried value, the inverse of the point less the query point, and the
/// power of the challenge. Where the arithmetic is kept elsewhere the opened value alone is left, and where the openings are
/// too, nothing.
pub proof fn law_term_cells(air: MonolithAir, t: OpeningTerm, x: u64, alpha: Ext, k: nat)
    ensures
        ({
            let cells = air.s_term_cells(t, x, alpha, k);
            let stride = if air.narrow_openings {
                0
            } else if air.narrow_arith {
                2
            } else {
                9int
            };
            let at = if air.narrow_arith {
                0
            } else {
                2int
            };
            let inverse = x_inv(x_sub(t.z, x_base(x)));
            &&& cells.len() == stride
            &&& stride > 0 ==> pair_at(cells, at) == crate::field::x_red(t.pz)
            &&& stride == 9 ==> {
                &&& pair_at(cells, 0) == crate::field::x_red(t.z)
                &&& cells[4] == f_red(t.px as int)
                &&& pair_at(cells, 5) == crate::field::x_red(inverse)
                &&& pair_at(cells, 7) == crate::field::x_red(x_pow(alpha, k))
            }
        }),
{
    let m = crate::field::MODULUS as int;
    vstd::arithmetic::div_mod::lemma_mod_twice(t.pz.c0 as int, m);
    vstd::arithmetic::div_mod::lemma_mod_twice(t.pz.c1 as int, m);
    vstd::arithmetic::div_mod::lemma_mod_twice(t.z.c0 as int, m);
    vstd::arithmetic::div_mod::lemma_mod_twice(t.z.c1 as int, m);
}

/// Every row of a built instance with its values in columns holds the window, and behind it the squares of the point that the
/// window holds: the point is the challenge behind those of the lookups and the constraint challenge.
#[verifier::spinoff_prover]
#[verifier::rlimit(40)]
pub proof fn law_built_window(
    air: MonolithAir,
    blocks: Seq<Seq<u64>>,
    qs: Seq<QueryData>,
    alpha: Ext,
    window: Seq<u64>,
    r: int,
    i: int,
)
    requires
        air.lays_out(blocks, qs, window),
        air.column_window,
        0 <= r < air.s_height(),
    ensures
        ({
            let row = row_at(air.s_trace(blocks, qs, alpha, window), air.s_fused_w(), r);
            let lookups = match air.lookup {
                Some(l) => l.n_lookup_challenges as int,
                None => 0,
            };
            let zeta = pair_at(row, air.s_pw(2 * (lookups + 1)));
            &&& 0 <= i < air.s_pis_count() ==> row[air.s_pw(i)] == window[i]
            &&& 0 <= i < air.s_cm_rounds() ==> pair_at(row, air.s_sch(2 * i)) == x_square_times(zeta, (i + 1) as nat)
        }),
{
    let lookups = air.s_nlc();
    let at = 2 * (lookups + 1);
    let zeta = Ext { c0: window[at], c1: window[at + 1] };
    let n = air.s_cm_rounds() as nat;
    let row = row_at(air.s_trace(blocks, qs, alpha, window), air.s_fused_w(), r);
    let p = air.s_pw_base();
    air.lemma_bounds();
    lemma_window_cell(air, blocks, qs, alpha, window, r, at);
    lemma_window_cell(air, blocks, qs, alpha, window, r, at + 1);
    if 0 <= i < air.s_pis_count() {
        lemma_window_cell(air, blocks, qs, alpha, window, r, i);
    }
    if 0 <= i < air.s_cm_rounds() {
        let j = air.s_pis_count() + 2 * i;
        lemma_window_cell(air, blocks, qs, alpha, window, r, j);
        lemma_window_cell(air, blocks, qs, alpha, window, r, j + 1);
        lemma_squares_at(air, zeta, n, (i + 1) as nat, 0);
        lemma_squares_at(air, zeta, n, (i + 1) as nat, 1);
        let s = square_chain(zeta, (i + 1) as nat);
        assert(row[p + j] == coords(s)[0]);
        assert(row[p + j + 1] == coords(s)[1]);
        lemma_row_square(row, p + at, p + j, zeta, (i + 1) as nat);
    }
}

/// A square in a row that holds the point.
proof fn lemma_row_square(row: Seq<u64>, a: int, b: int, zeta: Ext, n: nat)
    requires
        n > 0,
        row[a] == zeta.c0,
        row[a + 1] == zeta.c1,
        row[b] == coords(square_chain(zeta, n))[0],
        row[b + 1] == coords(square_chain(zeta, n))[1],
    ensures
        pair_at(row, b) == x_square_times(pair_at(row, a), n),
{
    lemma_square_chain(zeta, n);
    lemma_pair_cells(row, b, square_chain(zeta, n));
    assert(pair_at(row, a) == crate::field::x_red(zeta));
}

/// A cell of the window's columns.
#[verifier::spinoff_prover]
#[verifier::rlimit(40)]
proof fn lemma_window_cell(
    air: MonolithAir,
    blocks: Seq<Seq<u64>>,
    qs: Seq<QueryData>,
    alpha: Ext,
    window: Seq<u64>,
    r: int,
    j: int,
)
    requires
        air.lays_out(blocks, qs, window),
        air.column_window,
        0 <= r < air.s_height(),
        0 <= j < air.s_pis_count() + 2 * air.s_cm_rounds(),
    ensures
        ({
            let at = 2 * (air.s_nlc() + 1);
            let zeta = Ext { c0: window[at], c1: window[at + 1] };
            row_at(air.s_trace(blocks, qs, alpha, window), air.s_fused_w(), r)[air.s_pw_base() + j] == (if j
                < air.s_pis_count() {
                window[j]
            } else {
                air.s_squares(zeta, air.s_cm_rounds() as nat)[j - air.s_pis_count()]
            })
        }),
{
    let (h, w) = (air.s_height(), air.s_fused_w());
    let g0 = Seq::new((h * w) as nat, |k: int| 0u64);
    let g1 = air.s_transcript_written(g0, w, blocks, air.s_tr() as nat);
    let g2 = air.s_tiles_written(g1, w, qs, qs.len());
    let g3 = held(g2, w, 0, h as nat, air.s_carry(), coords(alpha));
    let at = 2 * (air.s_nlc() + 1);
    let zeta = Ext { c0: window[at], c1: window[at + 1] };
    let vs = window + air.s_squares(zeta, air.s_cm_rounds() as nat);
    let c = air.s_pw_base() + j;
    air.lemma_bounds();
    air.lemma_terms();
    air.lemma_squares_len(zeta, air.s_cm_rounds() as nat);
    lemma_in_rows(h, w, r, c);
    lemma_in_rows(h, w, r, 0);
    air.lemma_tiles_len(g1, w, qs, qs.len());
    lemma_held_cell(g2, w, 0, h as nat, air.s_carry(), coords(alpha), r, 0);
    assert(g3.len() == h * w);
    lemma_held_cell(g3, w, 0, h as nat, air.s_pw_base(), vs, r, c);
    assert(row_at(air.s_trace(blocks, qs, alpha, window), w, r)[c] == cell(
        air.s_trace(blocks, qs, alpha, window),
        w,
        r,
        c,
    ));
}

} // verus!
