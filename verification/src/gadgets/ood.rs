//! The out-of-domain check on its own: for the two-column sequence with every selector derived in place, for
//! any constraint trees with witnessed selectors, and the fold of base and lookup trees alone.

use std::sync::Arc;
use vstd::prelude::*;

use crate::expr::{
    constant, cur, minus, on_first, plus, public, times, w2, w2_cur, w2_minus, w2_plus, w2_times, w2_zero, w_const,
    w_minus, w_on_first, w_pub, Wire, Wire2,
};
use crate::field::{f_inv, two_adic_root, Ext, TWO_ADICITY};
use crate::gadgets::fold::{coord_pairs, coords, push_coords, push_pairs, repeat_row};
use crate::monolith::epilogue::w2_square_times;
use crate::monolith::system::{generator_inverse, square_times};
use crate::symbolic::{
    circuit_ext_wire, circuit_wire, eval_symbolic_circuit, eval_symbolic_ext_circuit, CircuitLookup, CircuitLookupView,
    CircuitOpenings, CircuitView, ExtExpr,
};

verus! {

/// Log-size of the trace domain that the two-column check is for.
pub const M_DEGREE_BITS: usize = 6;

pub open spec fn w2_pub(i: int) -> Wire2 {
    w2(w_pub(i), w_pub(i + 1))
}

fn public2(i: usize) -> (r: Wire2)
    requires
        i < usize::MAX,
    ensures
        r == w2_pub(i as int),
{
    Wire2::new(public(i), public(i + 1))
}

/// The vanishing polynomial of the domain of size 2^bits at `zeta`.
pub open spec fn vanishing_at(zeta: Wire2, bits: int) -> Wire2 {
    let s = w2_square_times(zeta, bits);
    w2(w_minus(s.a, w_const(1)), s.b)
}

/// `zeta` less the last element of the domain.
pub open spec fn before_last(zeta: Wire2, bits: int) -> Wire2 {
    w2(w_minus(zeta.a, w_const(f_inv(two_adic_root(bits as nat)))), zeta.b)
}

/// `zeta` less the first element of the domain.
pub open spec fn past_first(zeta: Wire2) -> Wire2 {
    w2(w_minus(zeta.a, w_const(1)), zeta.b)
}

/// Both coordinates agree on the first row.
pub open spec fn agree_first(x: Wire2, y: Wire2) -> Seq<Wire> {
    seq![w_on_first(w_minus(x.a, y.a)), w_on_first(w_minus(x.b, y.b))]
}

fn emit_agree_first(out: &mut Vec<Wire>, x: &Wire2, y: &Wire2)
    ensures
        final(out)@ == old(out)@ + agree_first(*x, *y),
{
    let ghost base = out@;
    out.push(on_first(&minus(&x.a, &y.a)));
    out.push(on_first(&minus(&x.b, &y.b)));
    assert(out@ =~= base + agree_first(*x, *y));
}

/// Checks the five constraints of the two-column additive sequence at a public point: both columns start at
/// public values, each next pair is (b, a + b), and the last b is public.
pub struct GeneralEpilogueAir;

/// The power `k` of the folding challenge.
pub open spec fn challenge_power(alpha: Wire2, k: int) -> Wire2
    decreases k,
{
    if k <= 0 {
        w2(w_const(1), w_const(0))
    } else {
        w2_times(challenge_power(alpha, k - 1), alpha)
    }
}

fn power_of(alpha: &Wire2, k: usize) -> (r: Wire2)
    ensures
        r == challenge_power(*alpha, k as int),
{
    let mut acc: Wire2 = Wire2::new(constant(1), constant(0));
    let mut i: usize = 0;
    while i < k
        invariant
            i <= k,
            acc == challenge_power(*alpha, i as int),
        decreases k - i,
    {
        acc = acc.times(alpha);
        i += 1;
    }
    acc
}

impl GeneralEpilogueAir {
    /// First column at the point.
    pub fn c_la(&self) -> (r: usize)
        ensures
            r == 0,
    {
        0
    }

    /// Second column at the point.
    pub fn c_lb(&self) -> (r: usize)
        ensures
            r == 2,
    {
        2
    }

    /// First column at the next point.
    pub fn c_na(&self) -> (r: usize)
        ensures
            r == 4,
    {
        4
    }

    /// Second column at the next point.
    pub fn c_nb(&self) -> (r: usize)
        ensures
            r == 6,
    {
        6
    }

    /// The quotient at the point.
    pub fn c_q(&self) -> (r: usize)
        ensures
            r == 8,
    {
        8
    }

    pub fn width(&self) -> (r: usize)
        ensures
            r == 10,
    {
        10
    }

    /// The point, the challenge and three values of the sequence are public.
    pub fn num_public_values(&self) -> (r: usize)
        ensures
            r == 7,
    {
        7
    }

    /// The five constraints, each times its power and its selector with the denominators cleared.
    pub open spec fn s_terms(&self) -> (Wire2, Wire2, Wire2, Wire2, Wire2) {
        let zeta = w2_pub(0);
        let alpha = w2_pub(2);
        let z_h = vanishing_at(zeta, M_DEGREE_BITS as int);
        let zmg = before_last(zeta, M_DEGREE_BITS as int);
        let zm1 = past_first(zeta);
        let zmg2 = w2_times(zmg, zmg);
        let (a, b, na, nb) = (w2_cur(0), w2_cur(2), w2_cur(4), w2_cur(6));
        (
            w2_times(
                w2_times(w2_times(challenge_power(alpha, 4), z_h), zmg),
                w2(w_minus(a.a, w_pub(4)), a.b),
            ),
            w2_times(
                w2_times(w2_times(challenge_power(alpha, 3), z_h), zmg),
                w2(w_minus(b.a, w_pub(5)), b.b),
            ),
            w2_times(w2_times(w2_times(challenge_power(alpha, 2), zm1), zmg2), w2_minus(na, b)),
            w2_times(w2_times(w2_times(challenge_power(alpha, 1), zm1), zmg2), w2_minus(w2_minus(nb, a), b)),
            w2_times(w2_times(z_h, zm1), w2(w_minus(b.a, w_pub(6)), b.b)),
        )
    }

    /// The five terms sum to the quotient times the cleared denominators.
    pub open spec fn s_eval(&self) -> Seq<Wire> {
        let zeta = w2_pub(0);
        let z_h = vanishing_at(zeta, M_DEGREE_BITS as int);
        let zmg = before_last(zeta, M_DEGREE_BITS as int);
        let zm1 = past_first(zeta);
        let t = self.s_terms();
        let rhs = w2_times(w2_times(w2_times(z_h, zm1), zmg), w2_cur(8));
        let lhs = w2_plus(w2_plus(w2_plus(w2_plus(t.0, t.1), t.2), t.3), t.4);
        agree_first(lhs, rhs)
    }

    /// The constraint system.
    pub fn eval(&self) -> (out: Vec<Wire>)
        ensures
            out@ == self.s_eval(),
    {
        let mut out: Vec<Wire> = Vec::new();
        let zeta: Wire2 = public2(0);
        let alpha: Wire2 = public2(2);
        let one: Wire = constant(1);
        let g_inv: Wire = constant(generator_inverse(M_DEGREE_BITS));
        let s: Wire2 = square_times(&zeta, M_DEGREE_BITS);
        let z_h: Wire2 = Wire2::new(minus(&s.a, &one), s.b);
        let zmg: Wire2 = Wire2::new(minus(&zeta.a, &g_inv), zeta.b.clone());
        let zm1: Wire2 = Wire2::new(minus(&zeta.a, &one), zeta.b.clone());
        let zmg2: Wire2 = zmg.times(&zmg);
        let a: Wire2 = Wire2::cur(self.c_la());
        let b: Wire2 = Wire2::cur(self.c_lb());
        let na: Wire2 = Wire2::cur(self.c_na());
        let nb: Wire2 = Wire2::cur(self.c_nb());
        let t0: Wire2 = power_of(&alpha, 4).times(&z_h).times(&zmg).times(
            &Wire2::new(minus(&a.a, &public(4)), a.b.clone()),
        );
        let t1: Wire2 = power_of(&alpha, 3).times(&z_h).times(&zmg).times(
            &Wire2::new(minus(&b.a, &public(5)), b.b.clone()),
        );
        let t2: Wire2 = power_of(&alpha, 2).times(&zm1).times(&zmg2).times(&na.minus(&b));
        let t3: Wire2 = power_of(&alpha, 1).times(&zm1).times(&zmg2).times(&nb.minus(&a).minus(&b));
        let t4: Wire2 = z_h.times(&zm1).times(&Wire2::new(minus(&b.a, &public(6)), b.b.clone()));
        let rhs: Wire2 = z_h.times(&zm1).times(&zmg).times(&Wire2::cur(self.c_q()));
        let lhs: Wire2 = t0.plus(&t1).plus(&t2).plus(&t3).plus(&t4);
        emit_agree_first(&mut out, &lhs, &rhs);
        assert(out@ =~= self.s_eval());
        out
    }
}

/// The trace of the two-column check: sixteen copies of the openings.
pub fn build_general_epilogue_trace(local: [Ext; 2], next: [Ext; 2], quotient: Ext) -> (t: Vec<Vec<u64>>)
    ensures
        t@.len() == 16,
        forall|r: int|
            0 <= r < 16 ==> (#[trigger] t@[r])@ == coords(local@[0]) + coords(local@[1]) + coords(next@[0]) + coords(
                next@[1],
            ) + coords(quotient),
{
    let mut row: Vec<u64> = Vec::new();
    push_coords(&mut row, local[0]);
    push_coords(&mut row, local[1]);
    push_coords(&mut row, next[0]);
    push_coords(&mut row, next[1]);
    push_coords(&mut row, quotient);
    assert(row@ =~= coords(local@[0]) + coords(local@[1]) + coords(next@[0]) + coords(next@[1]) + coords(quotient));
    repeat_row(&row, 16)
}

/// Checks any constraint trees at a public point, with the row selectors witnessed.
pub struct SymbolicEpilogueAir {
    pub constraints: Vec<Wire>,
    /// Trace width.
    pub w: usize,
    pub n_pub: usize,
    pub n_periodic: usize,
    /// Log-size of the trace domain.
    pub degree_bits: usize,
}

/// The fold of the first `n` trees at the openings: Horner in the challenge, the first tree highest.
pub open spec fn tree_fold(trees: Seq<Wire>, o: CircuitView, alpha: Wire2, n: int) -> Wire2
    decreases n,
{
    if n <= 0 {
        w2_zero()
    } else {
        w2_plus(w2_times(tree_fold(trees, o, alpha, n - 1), alpha), circuit_wire(trees[n - 1], o))
    }
}

/// The fold continued with the first `n` lookup trees.
pub open spec fn lookup_fold(
    start: Wire2,
    trees: Seq<Arc<ExtExpr>>,
    o: CircuitView,
    l: CircuitLookupView,
    alpha: Wire2,
    n: int,
) -> Wire2
    decreases n,
{
    if n <= 0 {
        start
    } else {
        w2_plus(
            w2_times(lookup_fold(start, trees, o, l, alpha, n - 1), alpha),
            circuit_ext_wire(trees[n - 1], o, l),
        )
    }
}

fn fold_trees(trees: &Vec<Wire>, o: &CircuitOpenings, alpha: &Wire2) -> (r: Wire2)
    requires
        forall|k: int| 0 <= k < trees@.len() ==> o@.reads(#[trigger] trees@[k]),
    ensures
        r == tree_fold(trees@, o@, *alpha, trees@.len() as int),
{
    let mut acc: Wire2 = Wire2::zero();
    let mut k: usize = 0;
    while k < trees.len()
        invariant
            k <= trees@.len(),
            forall|j: int| 0 <= j < trees@.len() ==> o@.reads(#[trigger] trees@[j]),
            acc == tree_fold(trees@, o@, *alpha, k as int),
        decreases trees.len() - k,
    {
        let c: Wire2 = eval_symbolic_circuit(&trees[k], o);
        acc = acc.times(alpha).plus(&c);
        k += 1;
    }
    acc
}

/// `n` extension columns from `from` on.
pub open spec fn column_pairs(from: int, n: int) -> Seq<Wire2> {
    Seq::new(n as nat, |c: int| w2_cur(from + 2 * c))
}

fn read_pairs(from: usize, n: usize) -> (r: Vec<Wire2>)
    requires
        from + 2 * n <= usize::MAX,
    ensures
        r@ == column_pairs(from as int, n as int),
{
    let mut r: Vec<Wire2> = Vec::new();
    let mut c: usize = 0;
    while c < n
        invariant
            c <= n,
            from + 2 * n <= usize::MAX,
            r@ =~= column_pairs(from as int, n as int).subrange(0, c as int),
        decreases n - c,
    {
        r.push(Wire2::cur(from + 2 * c));
        c += 1;
    }
    assert(r@ =~= column_pairs(from as int, n as int));
    r
}

impl SymbolicEpilogueAir {
    /// The columns and public values can be counted, the domain has a generator, and the trees read their
    /// openings.
    pub open spec fn wf(&self) -> bool {
        &&& 4 * self.w + 8 <= usize::MAX
        &&& 4 + self.n_pub + 2 * self.n_periodic <= usize::MAX
        &&& self.degree_bits <= TWO_ADICITY
        &&& forall|k: int|
            0 <= k < self.constraints@.len() ==> self.s_view().reads(#[trigger] self.constraints@[k])
    }

    /// Trace column `i` at the point.
    pub fn c_local(&self, i: usize) -> (r: usize)
        requires
            2 * i <= usize::MAX,
        ensures
            r == 2 * i,
    {
        2 * i
    }

    /// Trace column `i` at the next point.
    pub fn c_next(&self, i: usize) -> (r: usize)
        requires
            2 * self.w + 2 * i <= usize::MAX,
        ensures
            r == 2 * self.w + 2 * i,
    {
        2 * self.w + 2 * i
    }

    /// The quotient at the point.
    pub fn c_quot(&self) -> (r: usize)
        requires
            4 * self.w <= usize::MAX,
        ensures
            r == 4 * self.w,
    {
        4 * self.w
    }

    /// The first-row selector.
    pub fn c_isf(&self) -> (r: usize)
        requires
            4 * self.w + 2 <= usize::MAX,
        ensures
            r == 4 * self.w + 2,
    {
        4 * self.w + 2
    }

    /// The last-row selector.
    pub fn c_isl(&self) -> (r: usize)
        requires
            4 * self.w + 4 <= usize::MAX,
        ensures
            r == 4 * self.w + 4,
    {
        4 * self.w + 4
    }

    /// The inverse of the vanishing polynomial.
    pub fn c_iv(&self) -> (r: usize)
        requires
            4 * self.w + 6 <= usize::MAX,
        ensures
            r == 4 * self.w + 6,
    {
        4 * self.w + 6
    }

    /// Width of the row.
    pub fn w_cols(&self) -> (r: usize)
        requires
            4 * self.w + 8 <= usize::MAX,
        ensures
            r == 4 * self.w + 8,
    {
        4 * self.w + 8
    }

    /// The point, the challenge, the public values and the periodic values are public.
    pub fn num_public_values(&self) -> (r: usize)
        requires
            4 + self.n_pub + 2 * self.n_periodic <= usize::MAX,
        ensures
            r == 4 + self.n_pub + 2 * self.n_periodic,
    {
        4 + self.n_pub + 2 * self.n_periodic
    }

    pub open spec fn s_view(&self) -> CircuitView {
        CircuitView {
            local: column_pairs(0, self.w as int),
            next: column_pairs(2 * self.w, self.w as int),
            pubs: Seq::new(self.n_pub as nat, |i: int| w2(w_pub(4 + i), w_const(0))),
            periodic: Seq::new(self.n_periodic as nat, |i: int| w2_pub(4 + self.n_pub + 2 * i)),
            is_first: w2_cur(4 * self.w + 2),
            is_last: w2_cur(4 * self.w + 4),
            is_trans: before_last(w2_pub(0), self.degree_bits as int),
        }
    }

    fn openings(&self, is_trans: Wire2) -> (o: CircuitOpenings)
        requires
            self.wf(),
            is_trans == before_last(w2_pub(0), self.degree_bits as int),
        ensures
            o@ == self.s_view(),
    {
        let mut pubs: Vec<Wire2> = Vec::new();
        let mut i: usize = 0;
        while i < self.n_pub
            invariant
                self.wf(),
                i <= self.n_pub,
                pubs@ =~= Seq::new(i as nat, |k: int| w2(w_pub(4 + k), w_const(0))),
            decreases self.n_pub - i,
        {
            pubs.push(Wire2::new(public(4 + i), constant(0)));
            i += 1;
        }
        let mut periodic: Vec<Wire2> = Vec::new();
        let mut j: usize = 0;
        while j < self.n_periodic
            invariant
                self.wf(),
                j <= self.n_periodic,
                periodic@ =~= Seq::new(j as nat, |k: int| w2_pub(4 + self.n_pub + 2 * k)),
            decreases self.n_periodic - j,
        {
            periodic.push(public2(4 + self.n_pub + 2 * j));
            j += 1;
        }
        let o: CircuitOpenings = CircuitOpenings {
            local: read_pairs(0, self.w),
            next: read_pairs(2 * self.w, self.w),
            pubs,
            periodic,
            is_first: Wire2::cur(self.c_isf()),
            is_last: Wire2::cur(self.c_isl()),
            is_trans,
        };
        assert(o@ =~= self.s_view());
        o
    }

    /// The constraints: the selectors match their definitions at the point, and the folded trees over the
    /// vanishing polynomial are the quotient.
    pub open spec fn s_eval(&self) -> Seq<Wire> {
        let zeta = w2_pub(0);
        let z_h = vanishing_at(zeta, self.degree_bits as int);
        let is_first = w2_cur(4 * self.w + 2);
        let is_last = w2_cur(4 * self.w + 4);
        let inv_van = w2_cur(4 * self.w + 6);
        let biv = w2_times(inv_van, z_h);
        let folded = tree_fold(self.constraints@, self.s_view(), w2_pub(2), self.constraints@.len() as int);
        agree_first(w2_times(is_first, past_first(zeta)), z_h) + agree_first(
            w2_times(is_last, before_last(zeta, self.degree_bits as int)),
            z_h,
        ) + seq![w_on_first(w_minus(biv.a, w_const(1))), w_on_first(biv.b)] + agree_first(
            w2_times(folded, inv_van),
            w2_cur(4 * self.w),
        )
    }

    /// The constraint system.
    pub fn eval(&self) -> (out: Vec<Wire>)
        requires
            self.wf(),
        ensures
            out@ == self.s_eval(),
    {
        let mut out: Vec<Wire> = Vec::new();
        let zeta: Wire2 = public2(0);
        let alpha: Wire2 = public2(2);
        let one: Wire = constant(1);
        let g_inv: Wire = constant(generator_inverse(self.degree_bits));
        let s: Wire2 = square_times(&zeta, self.degree_bits);
        let z_h: Wire2 = Wire2::new(minus(&s.a, &one), s.b);
        let is_trans: Wire2 = Wire2::new(minus(&zeta.a, &g_inv), zeta.b.clone());
        let zm1: Wire2 = Wire2::new(minus(&zeta.a, &one), zeta.b.clone());
        let inv_van: Wire2 = Wire2::cur(self.c_iv());
        emit_agree_first(&mut out, &Wire2::cur(self.c_isf()).times(&zm1), &z_h);
        emit_agree_first(&mut out, &Wire2::cur(self.c_isl()).times(&is_trans), &z_h);
        let biv: Wire2 = inv_van.times(&z_h);
        out.push(on_first(&minus(&biv.a, &one)));
        out.push(on_first(&biv.b));
        let o: CircuitOpenings = self.openings(is_trans);
        let folded: Wire2 = fold_trees(&self.constraints, &o, &alpha);
        emit_agree_first(&mut out, &folded.times(&inv_van), &Wire2::cur(self.c_quot()));
        assert(out@ =~= self.s_eval());
        out
    }
}

/// The trace of a tree check: sixteen copies of the openings, the quotient and the selectors.
pub fn build_symbolic_epilogue_trace(
    local: &Vec<Ext>,
    next: &Vec<Ext>,
    quot: Ext,
    is_first: Ext,
    is_last: Ext,
    inv_van: Ext,
) -> (t: Vec<Vec<u64>>)
    requires
        local@.len() == next@.len(),
    ensures
        t@.len() == 16,
        forall|r: int|
            0 <= r < 16 ==> (#[trigger] t@[r])@ == coord_pairs(local@, local@.len() as int) + coord_pairs(
                next@,
                next@.len() as int,
            ) + coords(quot) + coords(is_first) + coords(is_last) + coords(inv_van),
{
    let mut row: Vec<u64> = Vec::new();
    push_pairs(&mut row, local);
    push_pairs(&mut row, next);
    push_coords(&mut row, quot);
    push_coords(&mut row, is_first);
    push_coords(&mut row, is_last);
    push_coords(&mut row, inv_van);
    assert(row@ =~= coord_pairs(local@, local@.len() as int) + coord_pairs(next@, next@.len() as int) + coords(quot)
        + coords(is_first) + coords(is_last) + coords(inv_van));
    repeat_row(&row, 16)
}

/// Checks that base and lookup trees, at openings held in columns, fold to a public value.
pub struct LogupFoldCheckAir {
    pub base: Vec<Wire>,
    pub ext: Vec<Arc<ExtExpr>>,
    /// Trace width.
    pub w: usize,
    /// Aux width in extension elements.
    pub aux_w: usize,
    /// Lookup challenges.
    pub n_lc: usize,
}

impl LogupFoldCheckAir {
    pub open spec fn wf(&self) -> bool {
        &&& 4 * self.w + 4 * self.aux_w + 6 <= usize::MAX
        &&& 6 + 2 * self.n_lc <= usize::MAX
        &&& forall|k: int| 0 <= k < self.base@.len() ==> self.s_view().reads(#[trigger] self.base@[k])
        &&& forall|k: int|
            0 <= k < self.ext@.len() ==> self.s_lookup_view().reads(#[trigger] self.ext@[k], self.s_view())
    }

    /// The trace and aux openings and the selectors are columns.
    pub fn width(&self) -> (r: usize)
        requires
            self.wf(),
        ensures
            r == 4 * self.w + 4 * self.aux_w + 6,
    {
        4 * self.w + 4 * self.aux_w + 6
    }

    /// The challenge, the lookup challenges, the terminal and the expected fold are public.
    pub fn num_public_values(&self) -> (r: usize)
        requires
            self.wf(),
        ensures
            r == 6 + 2 * self.n_lc,
    {
        6 + 2 * self.n_lc
    }

    pub open spec fn s_view(&self) -> CircuitView {
        let o = 4 * self.w + 4 * self.aux_w;
        CircuitView {
            local: column_pairs(0, self.w as int),
            next: column_pairs(2 * self.w, self.w as int),
            pubs: Seq::empty(),
            periodic: Seq::empty(),
            is_first: w2_cur(o),
            is_last: w2_cur(o + 2),
            is_trans: w2_cur(o + 4),
        }
    }

    pub open spec fn s_lookup_view(&self) -> CircuitLookupView {
        CircuitLookupView {
            perm_local: column_pairs(4 * self.w, self.aux_w as int),
            perm_next: column_pairs(4 * self.w + 2 * self.aux_w, self.aux_w as int),
            challenges: Seq::new(self.n_lc as nat, |i: int| w2_pub(2 + 2 * i)),
            perm_values: seq![w2_pub(2 + 2 * self.n_lc)],
        }
    }

    /// The fold of all trees is the expected one.
    pub open spec fn s_eval(&self) -> Seq<Wire> {
        let alpha = w2_pub(0);
        let base = tree_fold(self.base@, self.s_view(), alpha, self.base@.len() as int);
        agree_first(
            lookup_fold(base, self.ext@, self.s_view(), self.s_lookup_view(), alpha, self.ext@.len() as int),
            w2_pub(4 + 2 * self.n_lc),
        )
    }

    /// The constraint system.
    pub fn eval(&self) -> (out: Vec<Wire>)
        requires
            self.wf(),
        ensures
            out@ == self.s_eval(),
    {
        let at: usize = 4 * self.w + 4 * self.aux_w;
        let o: CircuitOpenings = CircuitOpenings {
            local: read_pairs(0, self.w),
            next: read_pairs(2 * self.w, self.w),
            pubs: Vec::new(),
            periodic: Vec::new(),
            is_first: Wire2::cur(at),
            is_last: Wire2::cur(at + 2),
            is_trans: Wire2::cur(at + 4),
        };
        assert(o@ =~= self.s_view());
        let mut challenges: Vec<Wire2> = Vec::new();
        let mut i: usize = 0;
        while i < self.n_lc
            invariant
                self.wf(),
                i <= self.n_lc,
                challenges@ =~= Seq::new(i as nat, |k: int| w2_pub(2 + 2 * k)),
            decreases self.n_lc - i,
        {
            challenges.push(public2(2 + 2 * i));
            i += 1;
        }
        let mut perm_values: Vec<Wire2> = Vec::new();
        perm_values.push(public2(2 + 2 * self.n_lc));
        let l: CircuitLookup = CircuitLookup {
            perm_local: read_pairs(4 * self.w, self.aux_w),
            perm_next: read_pairs(4 * self.w + 2 * self.aux_w, self.aux_w),
            challenges,
            perm_values,
        };
        assert(l@ =~= self.s_lookup_view());
        let alpha: Wire2 = public2(0);
        let start: Wire2 = fold_trees(&self.base, &o, &alpha);
        let mut folded: Wire2 = start.copy();
        let mut k: usize = 0;
        while k < self.ext.len()
            invariant
                self.wf(),
                k <= self.ext@.len(),
                o@ == self.s_view(),
                l@ == self.s_lookup_view(),
                folded == lookup_fold(start, self.ext@, o@, l@, alpha, k as int),
            decreases self.ext.len() - k,
        {
            let c: Wire2 = eval_symbolic_ext_circuit(&self.ext[k], &o, &l);
            folded = folded.times(&alpha).plus(&c);
            k += 1;
        }
        let mut out: Vec<Wire> = Vec::new();
        emit_agree_first(&mut out, &folded, &public2(4 + 2 * self.n_lc));
        assert(out@ =~= self.s_eval());
        out
    }
}

} // verus!
