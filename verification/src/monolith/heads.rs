//! The head row that the trace builder writes satisfies the constraints on it.

use vstd::arithmetic::power2::pow2;
use vstd::prelude::*;

use super::index::{
    at_head, index_bits, index_spelled, law_head_row_point, law_head_row_spells_index, ones_from_32, point_accumulated,
};
use super::layout::{MonolithAir, QT_DBITS, QT_E};
use super::meaning::lemma_pair_cells;
use super::reduction::{law_head_row_reduces, row_terms};
use super::trace::{bit_at, deep_point, high_and, law_deep_point_is_query_point, point_acc, QueryData};
use crate::expr::{value, Window};
use crate::field::{
    f_mul, f_red, f_square_times, lemma_red_add, lemma_x_mul_red, two_adic_root, x_base, x_inv, x_mul, x_one, x_pow,
    x_red, x_same, x_sub, x_zero, Ext,
};
use crate::fri::input::reduced;
use crate::gadgets::fold::coords;
use crate::gadgets::opening::{off_terms, OpeningTerm};
use crate::prime::law_extension_is_a_field;
use crate::vanish::{pair_at, vanish};

verus! {

/// The row holds the head cells of a query, and the register starts from its index.
pub open spec fn head_written(air: MonolithAir, row: Seq<u64>, q: QueryData) -> bool {
    let cells = air.s_head_cells(q);
    &&& forall|i: int| 0 <= i < cells.len() ==> row[QT_DBITS + i] == #[trigger] cells[i]
    &&& row[air.s_idx_rem()] == f_red(q.felt as int) as nat % pow2(air.s_lg() as nat)
}

/// The low bits of a remainder are those of the number.
proof fn lemma_low_bit(v: nat, lg: nat, i: nat)
    requires
        i < lg,
    ensures
        bit_at(v % pow2(lg), i) == bit_at(v, i),
{
    let (p, r, h) = (pow2(i), pow2((lg - i) as nat), pow2((lg - i - 1) as nat));
    vstd::arithmetic::power2::lemma_pow2_pos(lg);
    vstd::arithmetic::power2::lemma_pow2_pos(i);
    vstd::arithmetic::power2::lemma_pow2_adds(i, (lg - i) as nat);
    vstd::arithmetic::power2::lemma_pow2_unfold((lg - i) as nat);
    let (k, m) = (v / pow2(lg), v % pow2(lg));
    vstd::arithmetic::div_mod::lemma_fundamental_div_mod(v as int, pow2(lg) as int);
    assert(v == m + (r * k) * p) by (nonlinear_arith)
        requires
            v == pow2(lg) * k + m,
            pow2(lg) == p * r,
    ;
    vstd::arithmetic::div_mod::lemma_hoist_over_denominator(m as int, (r * k) as int, p);
    assert(v / p == m / p + r * k);
    assert(r * k == 2 * (h * k)) by (nonlinear_arith)
        requires
            r == 2 * h,
    ;
    vstd::arithmetic::div_mod::lemma_mod_multiples_vanish((h * k) as int, (m / p) as int, 2);
}

/// The accumulators of a number are those of its remainder.
proof fn lemma_low_acc(v: nat, lg: nat, n: nat)
    requires
        n <= lg,
    ensures
        point_acc(v % pow2(lg), lg, n) == point_acc(v, lg, n),
    decreases n,
{
    vstd::arithmetic::power2::lemma_pow2_pos(lg);
    let u = v % pow2(lg);
    if n > 0 {
        let m = (n - 1) as nat;
        lemma_low_acc(v, lg, m);
        lemma_low_bit(v, lg, m);
        let f = f_square_times(two_adic_root(lg), (lg - n) as nat);
        assert(point_acc(u, lg, n) == f_mul(point_acc(u, lg, m), if bit_at(u, m) == 1 { f } else { 1 }));
        assert(point_acc(v, lg, n) == f_mul(point_acc(v, lg, m), if bit_at(v, m) == 1 { f } else { 1 }));
    }
}

/// The conjunction of high bits is one exactly if all of them are set.
proof fn lemma_high_and(v: nat, k: nat)
    ensures
        high_and(v, k) == 1 <==> forall|i: int| 32 <= i <= 32 + k ==> bit_at(v, #[trigger] (i as nat)) == 1,
        high_and(v, k) <= 1,
    decreases k,
{
    if k == 0 {
        assert(high_and(v, 0) == 1 ==> forall|i: int| 32 <= i <= 32 ==> bit_at(v, #[trigger] (i as nat)) == 1);
        assert(bit_at(v, 32int as nat) == bit_at(v, 32));
    } else {
        lemma_high_and(v, (k - 1) as nat);
        let (a, b) = (high_and(v, (k - 1) as nat), bit_at(v, 32 + k));
        let i = 32 + k as int;
        assert(bit_at(v, i as nat) == b);
        assert(a * b <= 1 && (a * b == 1 <==> a == 1 && b == 1)) by (nonlinear_arith)
            requires
                a <= 1,
                b <= 1,
        ;
    }
}

/// The parts of the head cells: the index bits, the accumulators and the challenge, from the first column on.
#[verifier::spinoff_prover]
#[verifier::rlimit(40)]
proof fn lemma_head_front(air: MonolithAir, row: Seq<u64>, q: QueryData)
    requires
        air.wf(),
        head_written(air, row, q),
    ensures
        forall|i: int| 0 <= i < air.s_lg() ==> #[trigger] row[QT_DBITS + i] == bit_at(q.index as nat, i as nat),
        forall|i: int|
            0 <= i < air.s_lg() ==> #[trigger] row[air.s_qt_acc() + i] == point_acc(
                q.index as nat,
                air.s_lg() as nat,
                (i + 1) as nat,
            ),
        pair_at(row, air.s_qt_alpha()) == x_red(q.alpha),
{
    let lg = air.s_lg() as nat;
    let v = f_red(q.felt as int) as nat;
    air.lemma_bounds();
    let a = Seq::new(lg, |i: int| bit_at(q.index as nat, i as nat) as u64);
    let b = Seq::new(lg, |i: int| point_acc(q.index as nat, lg, (i + 1) as nat));
    let c = coords(q.alpha);
    let d = air.s_terms_cells(q.terms@, deep_point(q.index as nat, lg), q.alpha, q.terms@.len());
    let e = seq![f_red(q.felt as int)];
    let f = Seq::new(64, |i: int| bit_at(v, i as nat) as u64);
    let g = Seq::new(31, |k: int| high_and(v, (k + 1) as nat) as u64);
    let cells = a + b + c + d + e + f + g;
    assert(cells == air.s_head_cells(q));
    assert forall|i: int| 0 <= i < lg implies #[trigger] row[QT_DBITS + i] == bit_at(q.index as nat, i as nat) by {
        assert(cells[i] == a[i]);
    }
    assert forall|i: int| 0 <= i < lg implies #[trigger] row[air.s_qt_acc() + i] == b[i] by {
        assert(cells[lg + i] == b[i]);
        assert(row[QT_DBITS + (lg + i)] == cells[lg + i]);
    }
    let at = 2 * lg as int;
    assert(cells[at] == c[0] && cells[at + 1] == c[1]);
    assert(row[QT_DBITS + at] == c[0] && row[QT_DBITS + (at + 1)] == c[1]);
    lemma_pair_cells(row, QT_DBITS + at, q.alpha);
}

/// The parts of the head cells behind the terms: the index felt, its bits and the conjunctions.
#[verifier::spinoff_prover]
#[verifier::rlimit(40)]
proof fn lemma_head_back(air: MonolithAir, row: Seq<u64>, q: QueryData)
    requires
        air.wf(),
        q.terms@.len() == air.n_terms,
        head_written(air, row, q),
    ensures
        row[air.s_sb_x()] == f_red(q.felt as int),
        forall|i: int|
            0 <= i < 64 ==> row[#[trigger] air.s_sb_b(i)] == bit_at(f_red(q.felt as int) as nat, i as nat),
        forall|k: int|
            0 <= k < 31 ==> row[#[trigger] air.s_sb_q(k)] == high_and(f_red(q.felt as int) as nat, (k + 1) as nat),
{
    let lg = air.s_lg() as nat;
    let v = f_red(q.felt as int) as nat;
    air.lemma_bounds();
    let a = Seq::new(lg, |i: int| bit_at(q.index as nat, i as nat) as u64);
    let b = Seq::new(lg, |i: int| point_acc(q.index as nat, lg, (i + 1) as nat));
    let c = coords(q.alpha);
    let d = air.s_terms_cells(q.terms@, deep_point(q.index as nat, lg), q.alpha, q.terms@.len());
    let e = seq![f_red(q.felt as int)];
    let f = Seq::new(64, |i: int| bit_at(v, i as nat) as u64);
    let g = Seq::new(31, |k: int| high_and(v, (k + 1) as nat) as u64);
    let cells = a + b + c + d + e + f + g;
    assert(cells == air.s_head_cells(q));
    air.lemma_terms_len(q.terms@, deep_point(q.index as nat, lg), q.alpha, q.terms@.len());
    let at = (a + b + c + d).len() as int;
    assert(QT_DBITS + at == air.s_sb_x());
    assert(cells[at] == e[0]);
    assert(row[QT_DBITS + at] == cells[at]);
    assert forall|i: int| 0 <= i < 64 implies row[#[trigger] air.s_sb_b(i)] == bit_at(v, i as nat) by {
        assert(cells[at + 1 + i] == f[i]);
        assert(row[QT_DBITS + (at + 1 + i)] == cells[at + 1 + i]);
    }
    assert forall|k: int| 0 <= k < 31 implies row[#[trigger] air.s_sb_q(k)] == high_and(v, (k + 1) as nat) by {
        lemma_high_and(v, (k + 1) as nat);
        assert(cells[at + 65 + k] == g[k]);
        assert(row[QT_DBITS + (at + 65 + k)] == cells[at + 65 + k]);
    }
}

/// The cells of term `k` among those of the first `n`.
proof fn lemma_term_cells(air: MonolithAir, terms: Seq<OpeningTerm>, x: u64, alpha: Ext, n: nat, k: int, j: int)
    requires
        !air.narrow_arith,
        !air.narrow_openings,
        0 <= k < n,
        0 <= j < 9,
    ensures
        air.s_terms_cells(terms, x, alpha, n)[9 * k + j] == air.s_term_cells(terms[k], x, alpha, k as nat)[j],
    decreases n,
{
    let m = (n - 1) as nat;
    air.lemma_terms_len(terms, x, alpha, m);
    if k < m {
        lemma_term_cells(air, terms, x, alpha, m, k, j);
    }
}

/// The cells of a term in a head row.
#[verifier::spinoff_prover]
#[verifier::rlimit(40)]
pub(super) proof fn lemma_head_term(air: MonolithAir, row: Seq<u64>, q: QueryData, k: int, j: int)
    requires
        air.wf(),
        !air.narrow_arith,
        !air.narrow_openings,
        q.terms@.len() == air.n_terms,
        head_written(air, row, q),
        0 <= k < air.n_terms,
        0 <= j < 9,
    ensures
        row[air.s_z(k) + j] == air.s_term_cells(
            q.terms@[k],
            deep_point(q.index as nat, air.s_lg() as nat),
            q.alpha,
            k as nat,
        )[j],
{
    let lg = air.s_lg() as nat;
    let v = f_red(q.felt as int) as nat;
    let x = deep_point(q.index as nat, lg);
    air.lemma_bounds();
    let a = Seq::new(lg, |i: int| bit_at(q.index as nat, i as nat) as u64) + Seq::new(
        lg,
        |i: int| point_acc(q.index as nat, lg, (i + 1) as nat),
    ) + coords(q.alpha);
    let d = air.s_terms_cells(q.terms@, x, q.alpha, q.terms@.len());
    let rest = air.s_head_cells(q);
    air.lemma_terms_len(q.terms@, x, q.alpha, q.terms@.len());
    lemma_term_cells(air, q.terms@, x, q.alpha, q.terms@.len(), k, j);
    let at = 2 * lg + 2 + 9 * k + j;
    assert(rest[at] == d[9 * k + j]);
    assert(row[QT_DBITS + at] == rest[at]);
    assert(QT_DBITS + at == air.s_z(k) + j);
}

/// The row that the builder writes spells its index.
#[verifier::spinoff_prover]
#[verifier::rlimit(40)]
pub(super) proof fn lemma_written_spells(air: MonolithAir, row: Seq<u64>, q: QueryData)
    requires
        air.wf(),
        air.s_lg() <= 32,
        q.terms@.len() == air.n_terms,
        q.index == f_red(q.felt as int) as nat % pow2(air.s_lg() as nat),
        head_written(air, row, q),
    ensures
        index_spelled(air, row),
        point_accumulated(air, row, f_red(q.felt as int) as nat),
        row[air.s_sb_x()] == f_red(q.felt as int),
{
    let lg = air.s_lg() as nat;
    let x = f_red(q.felt as int);
    let v = x as nat;
    let bs = index_bits(air, row);
    lemma_head_front(air, row, q);
    lemma_head_back(air, row, q);
    assert(f_red(x as int) == x);
    assert forall|i: int| 0 <= i < 64 implies #[trigger] bs[i] == (v / pow2(i as nat)) % 2 by {
        assert(row[air.s_sb_b(i)] == bit_at(v, i as nat));
    }
    assert forall|k: int| 0 <= k <= 30 implies f_red(#[trigger] row[air.s_sb_q(k)] as int) == (if ones_from_32(bs, 34 + k) {
        1u64
    } else {
        0u64
    }) by {
        lemma_high_and(v, (k + 1) as nat);
        assert(row[air.s_sb_q(k)] == high_and(v, (k + 1) as nat));
        assert(forall|i: int| 32 <= i < 34 + k ==> #[trigger] bs[i] == bit_at(v, i as nat));
        if ones_from_32(bs, 34 + k) {
            assert forall|i: int| 32 <= i <= 32 + (k + 1) implies bit_at(v, #[trigger] (i as nat)) == 1 by {
                assert(bs[i] == 1);
            }
        }
        if high_and(v, (k + 1) as nat) == 1 {
            assert forall|i: int| 32 <= i < 34 + k implies #[trigger] bs[i] == 1 by {
                assert(bit_at(v, i as nat) == 1);
            }
        }
    }
    assert forall|i: int| 0 <= i < air.s_lg() implies f_red(#[trigger] row[QT_DBITS + i] as int) == bs[i] by {
        lemma_low_bit(v, lg, i as nat);
        assert(row[QT_DBITS + i] == bit_at(q.index as nat, i as nat));
        assert(bs[i] == (v / pow2(i as nat)) % 2);
    }
    vstd::arithmetic::power2::lemma_pow2_pos(lg);
    vstd::arithmetic::div_mod::lemma_mod_decreases(v, pow2(lg));
    assert forall|i: int| 0 <= i < air.s_lg() implies f_red(#[trigger] row[air.s_qt_acc() + i] as int) == point_acc(
        v,
        lg,
        (i + 1) as nat,
    ) by {
        lemma_low_acc(v, lg, (i + 1) as nat);
        let acc = point_acc(v, lg, (i + 1) as nat);
        assert(row[air.s_qt_acc() + i] == acc);
        assert(f_red(acc as int) == acc);
    }
}

/// A power does not depend on the representative.
pub(super) proof fn lemma_power_reduced(a: Ext, k: nat)
    ensures
        x_pow(x_red(a), k) == x_pow(a, k),
        x_red(x_pow(a, k)) == x_pow(a, k),
    decreases k,
{
    if k > 0 {
        let m = (k - 1) as nat;
        lemma_power_reduced(a, m);
        lemma_x_mul_red(x_pow(a, m), a);
        lemma_x_mul_red(x_pow(a, m), x_red(a));
        assert(x_red(x_red(a)) == x_red(a));
    }
}

/// The terms of a query, reduced.
pub open spec fn reduced_terms(terms: Seq<OpeningTerm>) -> Seq<OpeningTerm> {
    Seq::new(
        terms.len(),
        |k: int| OpeningTerm { z: x_red(terms[k].z), pz: x_red(terms[k].pz), px: f_red(terms[k].px as int) },
    )
}

/// A term's cells, as the constraints read them.
#[verifier::spinoff_prover]
#[verifier::rlimit(40)]
proof fn lemma_written_term(air: MonolithAir, row: Seq<u64>, q: QueryData, k: int)
    requires
        air.wf(),
        !air.narrow_arith,
        !air.narrow_openings,
        q.terms@.len() == air.n_terms,
        head_written(air, row, q),
        off_terms(q.terms@, deep_point(q.index as nat, air.s_lg() as nat)),
        0 <= k < air.n_terms,
    ensures
        row_terms(air, row, air.n_terms as nat)[k] == reduced_terms(q.terms@)[k],
        pair_at(row, air.s_apow(k)) == x_pow(x_red(q.alpha), k as nat),
        x_mul(
            pair_at(row, air.s_inv(k)),
            x_sub(pair_at(row, air.s_z(k)), x_base(deep_point(q.index as nat, air.s_lg() as nat))),
        ) == x_one(),
{
    let x = deep_point(q.index as nat, air.s_lg() as nat);
    let t = q.terms@[k];
    let d = x_sub(t.z, x_base(x));
    let (inv, power) = (x_inv(d), x_pow(q.alpha, k as nat));
    let cells = air.s_term_cells(t, x, q.alpha, k as nat);
    let at = air.s_z(k);
    assert(!x_same(x_sub(t.z, x_base(x)), x_zero()));
    lemma_head_term(air, row, q, k, 0);
    lemma_head_term(air, row, q, k, 1);
    lemma_head_term(air, row, q, k, 2);
    lemma_head_term(air, row, q, k, 3);
    lemma_head_term(air, row, q, k, 4);
    lemma_head_term(air, row, q, k, 5);
    lemma_head_term(air, row, q, k, 6);
    lemma_head_term(air, row, q, k, 7);
    lemma_head_term(air, row, q, k, 8);
    assert(cells =~= seq![
        f_red(t.z.c0 as int),
        f_red(t.z.c1 as int),
        f_red(t.pz.c0 as int),
        f_red(t.pz.c1 as int),
        f_red(t.px as int),
        f_red(inv.c0 as int),
        f_red(inv.c1 as int),
        f_red(power.c0 as int),
        f_red(power.c1 as int),
    ]);
    lemma_pair_cells(row, at, t.z);
    lemma_pair_cells(row, at + 2, t.pz);
    lemma_pair_cells(row, at + 5, inv);
    lemma_pair_cells(row, at + 7, power);
    assert(f_red(f_red(t.px as int) as int) == f_red(t.px as int));
    lemma_power_reduced(q.alpha, k as nat);
    lemma_difference_reduced(t.z, x_base(x));
    law_extension_is_a_field(d);
}

/// A difference does not depend on the representative, and is reduced.
pub(crate) proof fn lemma_difference_reduced(a: Ext, b: Ext)
    ensures
        x_sub(x_red(a), b) == x_sub(a, b),
        x_red(x_sub(a, b)) == x_sub(a, b),
{
    lemma_red_add(a.c0 as int, b.c0 as int);
    lemma_red_add(a.c1 as int, b.c1 as int);
}

/// On the head row that the builder writes for a query whose index is its felt's low bits, the index constraints vanish
/// exactly if the felt is the transcript's, the point constraints exactly if the challenge is the carried one, and with
/// both the arithmetic constraints exactly if the running value is the reduced opening of the query's terms.
#[verifier::spinoff_prover]
#[verifier::rlimit(40)]
pub proof fn law_built_head_row(air: MonolithAir, w: Window, q: QueryData)
    requires
        air.wf(),
        1 <= air.s_lg() <= 32,
        at_head(air, w),
        q.terms@.len() == air.n_terms,
        q.index == f_red(q.felt as int) as nat % pow2(air.s_lg() as nat),
        head_written(air, w.cur, q),
    ensures
        vanish(air.s_index(), w) <==> f_red(q.felt as int) == value(air.s_query_sum(air.n_queries as int), w),
        vanish(air.s_arith_point(), w) <==> pair_at(w.cur, air.s_carry()) == x_red(q.alpha),
        ({
            let x = deep_point(q.index as nat, air.s_lg() as nat);
            !air.narrow_arith && !air.narrow_openings && air.n_terms >= 1 && off_terms(q.terms@, x) && vanish(
                air.s_arith_point(),
                w,
            ) ==> (vanish(air.s_inline_arith(), w) <==> pair_at(w.cur, QT_E as int) == reduced(
                x_red(q.alpha),
                x,
                reduced_terms(q.terms@),
            ))
        }),
{
    let lg = air.s_lg();
    let x = deep_point(q.index as nat, lg as nat);
    let v = f_red(q.felt as int) as nat;
    lemma_written_spells(air, w.cur, q);
    lemma_head_front(air, w.cur, q);
    assert(f_red(f_red(q.felt as int) as int) == f_red(q.felt as int));
    law_head_row_spells_index(air, w);
    law_head_row_point(air, w);
    if !air.narrow_arith && !air.narrow_openings && air.n_terms >= 1 && off_terms(q.terms@, x) && vanish(
        air.s_arith_point(),
        w,
    ) {
        law_head_row_reduces(air, w);
        law_deep_point_is_query_point(v, lg as nat);
        lemma_low_acc(v, lg as nat, lg as nat);
        assert(value(air.s_point(), w) == x);
        let n = air.n_terms as nat;
        assert forall|k: int| 0 <= k < n implies row_terms(air, w.cur, n)[k] == #[trigger] reduced_terms(q.terms@)[k] by {
            lemma_written_term(air, w.cur, q, k);
        }
        assert(row_terms(air, w.cur, n) =~= reduced_terms(q.terms@));
        assert forall|k: int| 0 <= k < air.n_terms implies pair_at(w.cur, #[trigger] air.s_apow(k)) == x_pow(
            pair_at(w.cur, air.s_qt_alpha()),
            k as nat,
        ) by {
            lemma_written_term(air, w.cur, q, k);
        }
        assert forall|k: int| 0 <= k < air.n_terms implies x_mul(
            pair_at(w.cur, #[trigger] air.s_inv(k)),
            x_sub(pair_at(w.cur, air.s_z(k)), x_base(x)),
        ) == x_one() by {
            lemma_written_term(air, w.cur, q, k);
        }
    }
}

} // verus!
