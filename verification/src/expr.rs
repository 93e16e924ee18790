//! Constraint expressions: polynomials in the cells of a two-row window, its periodic and public values
//! and the row selectors, as shared trees, with their value at a concrete window.

use std::sync::Arc;
use vstd::prelude::*;

use crate::field::{
    f_add, f_mul, f_red, f_sub, fadd, fmul, fsub, lemma_red_add, lemma_red_mul, x_add, x_mul, x_sub, Ext, MODULUS,
    W_EXT,
};

verus! {

/// A polynomial over one window of a trace.
#[derive(Debug)]
pub enum Expr {
    /// A column of the current row.
    Cur(usize),
    /// A column of the next row.
    Nxt(usize),
    /// A periodic column at the current row.
    Periodic(usize),
    /// A public value.
    Public(usize),
    IsFirstRow,
    IsLastRow,
    IsTransition,
    Const(u64),
    Sum(Arc<Expr>, Arc<Expr>),
    Difference(Arc<Expr>, Arc<Expr>),
    Negation(Arc<Expr>),
    Product(Arc<Expr>, Arc<Expr>),
}

/// A shared expression.
pub type Wire = Arc<Expr>;

pub open spec fn w_cur(i: int) -> Wire {
    Arc::new(Expr::Cur(i as usize))
}

pub open spec fn w_nxt(i: int) -> Wire {
    Arc::new(Expr::Nxt(i as usize))
}

pub open spec fn w_per(i: int) -> Wire {
    Arc::new(Expr::Periodic(i as usize))
}

pub open spec fn w_pub(i: int) -> Wire {
    Arc::new(Expr::Public(i as usize))
}

pub open spec fn w_const(c: u64) -> Wire {
    Arc::new(Expr::Const(c))
}

pub open spec fn w_plus(a: Wire, b: Wire) -> Wire {
    Arc::new(Expr::Sum(a, b))
}

pub open spec fn w_minus(a: Wire, b: Wire) -> Wire {
    Arc::new(Expr::Difference(a, b))
}

pub open spec fn w_times(a: Wire, b: Wire) -> Wire {
    Arc::new(Expr::Product(a, b))
}

/// `a` gated to the transition rows.
pub open spec fn w_on_transition(a: Wire) -> Wire {
    w_times(Arc::new(Expr::IsTransition), a)
}

/// `a` gated to the first row.
pub open spec fn w_on_first(a: Wire) -> Wire {
    w_times(Arc::new(Expr::IsFirstRow), a)
}

/// `a` gated to the last row.
pub open spec fn w_on_last(a: Wire) -> Wire {
    w_times(Arc::new(Expr::IsLastRow), a)
}

pub fn cur(i: usize) -> (r: Wire)
    ensures
        r == w_cur(i as int),
{
    Arc::new(Expr::Cur(i))
}

pub fn nxt(i: usize) -> (r: Wire)
    ensures
        r == w_nxt(i as int),
{
    Arc::new(Expr::Nxt(i))
}

pub fn per(i: usize) -> (r: Wire)
    ensures
        r == w_per(i as int),
{
    Arc::new(Expr::Periodic(i))
}

pub fn public(i: usize) -> (r: Wire)
    ensures
        r == w_pub(i as int),
{
    Arc::new(Expr::Public(i))
}

pub fn constant(c: u64) -> (r: Wire)
    ensures
        r == w_const(c),
{
    Arc::new(Expr::Const(c))
}

pub fn plus(a: &Wire, b: &Wire) -> (r: Wire)
    ensures
        r == w_plus(*a, *b),
{
    Arc::new(Expr::Sum(a.clone(), b.clone()))
}

pub fn minus(a: &Wire, b: &Wire) -> (r: Wire)
    ensures
        r == w_minus(*a, *b),
{
    Arc::new(Expr::Difference(a.clone(), b.clone()))
}

pub fn times(a: &Wire, b: &Wire) -> (r: Wire)
    ensures
        r == w_times(*a, *b),
{
    Arc::new(Expr::Product(a.clone(), b.clone()))
}

pub fn on_transition(a: &Wire) -> (r: Wire)
    ensures
        r == w_on_transition(*a),
{
    Arc::new(Expr::Product(Arc::new(Expr::IsTransition), a.clone()))
}

pub fn on_first(a: &Wire) -> (r: Wire)
    ensures
        r == w_on_first(*a),
{
    Arc::new(Expr::Product(Arc::new(Expr::IsFirstRow), a.clone()))
}

pub fn on_last(a: &Wire) -> (r: Wire)
    ensures
        r == w_on_last(*a),
{
    Arc::new(Expr::Product(Arc::new(Expr::IsLastRow), a.clone()))
}

/// An extension-field expression: the wires of its two coordinates.
pub struct Wire2 {
    pub a: Wire,
    pub b: Wire,
}

pub open spec fn w2(a: Wire, b: Wire) -> Wire2 {
    Wire2 { a, b }
}

/// The two columns from `i` on, as an extension element.
pub open spec fn w2_cur(i: int) -> Wire2 {
    w2(w_cur(i), w_cur(i + 1))
}

pub open spec fn w2_zero() -> Wire2 {
    w2(w_const(0), w_const(0))
}

pub open spec fn w2_plus(x: Wire2, y: Wire2) -> Wire2 {
    w2(w_plus(x.a, y.a), w_plus(x.b, y.b))
}

pub open spec fn w2_minus(x: Wire2, y: Wire2) -> Wire2 {
    w2(w_minus(x.a, y.a), w_minus(x.b, y.b))
}

pub open spec fn w2_times(x: Wire2, y: Wire2) -> Wire2 {
    w2(
        w_plus(w_times(x.a, y.a), w_times(w_times(w_const(W_EXT), x.b), y.b)),
        w_plus(w_times(x.a, y.b), w_times(x.b, y.a)),
    )
}

/// d0 + d1 X for two extension elements.
pub open spec fn w2_combine(d0: Wire2, d1: Wire2) -> Wire2 {
    w2(w_plus(d0.a, w_times(w_const(W_EXT), d1.b)), w_plus(d0.b, d1.a))
}

impl Wire2 {
    pub fn new(a: Wire, b: Wire) -> (r: Wire2)
        ensures
            r == w2(a, b),
    {
        Wire2 { a, b }
    }

    pub fn zero() -> (r: Wire2)
        ensures
            r == w2_zero(),
    {
        Wire2 { a: constant(0), b: constant(0) }
    }

    pub fn cur(i: usize) -> (r: Wire2)
        requires
            i + 1 <= usize::MAX,
        ensures
            r == w2_cur(i as int),
    {
        Wire2 { a: crate::expr::cur(i), b: crate::expr::cur(i + 1) }
    }

    pub fn copy(&self) -> (r: Wire2)
        ensures
            r == *self,
    {
        Wire2 { a: self.a.clone(), b: self.b.clone() }
    }

    pub fn plus(&self, y: &Wire2) -> (r: Wire2)
        ensures
            r == w2_plus(*self, *y),
    {
        Wire2 { a: crate::expr::plus(&self.a, &y.a), b: crate::expr::plus(&self.b, &y.b) }
    }

    pub fn minus(&self, y: &Wire2) -> (r: Wire2)
        ensures
            r == w2_minus(*self, *y),
    {
        Wire2 { a: crate::expr::minus(&self.a, &y.a), b: crate::expr::minus(&self.b, &y.b) }
    }

    pub fn times(&self, y: &Wire2) -> (r: Wire2)
        ensures
            r == w2_times(*self, *y),
    {
        let w: Wire = constant(W_EXT);
        Wire2 {
            a: crate::expr::plus(
                &crate::expr::times(&self.a, &y.a),
                &crate::expr::times(&crate::expr::times(&w, &self.b), &y.b),
            ),
            b: crate::expr::plus(&crate::expr::times(&self.a, &y.b), &crate::expr::times(&self.b, &y.a)),
        }
    }

    pub fn combine(&self, d1: &Wire2) -> (r: Wire2)
        ensures
            r == w2_combine(*self, *d1),
    {
        let w: Wire = constant(W_EXT);
        Wire2 {
            a: crate::expr::plus(&self.a, &crate::expr::times(&w, &d1.b)),
            b: crate::expr::plus(&self.b, &d1.a),
        }
    }
}

/// One window of a trace: two rows, the periodic and public values and the row selectors.
pub struct Window {
    pub cur: Seq<u64>,
    pub nxt: Seq<u64>,
    pub periodic: Seq<u64>,
    pub publics: Seq<u64>,
    pub is_first: u64,
    pub is_last: u64,
    pub is_transition: u64,
}

/// The value of an expression at a window, in the base field.
pub open spec fn value(e: Wire, w: Window) -> u64
    decreases e,
{
    match *e {
        Expr::Cur(i) => f_red(w.cur[i as int] as int),
        Expr::Nxt(i) => f_red(w.nxt[i as int] as int),
        Expr::Periodic(i) => f_red(w.periodic[i as int] as int),
        Expr::Public(i) => f_red(w.publics[i as int] as int),
        Expr::IsFirstRow => f_red(w.is_first as int),
        Expr::IsLastRow => f_red(w.is_last as int),
        Expr::IsTransition => f_red(w.is_transition as int),
        Expr::Const(c) => f_red(c as int),
        Expr::Sum(a, b) => f_add(value(a, w), value(b, w)),
        Expr::Difference(a, b) => f_sub(value(a, w), value(b, w)),
        Expr::Negation(a) => f_sub(0, value(a, w)),
        Expr::Product(a, b) => f_mul(value(a, w), value(b, w)),
    }
}

/// The value of an extension expression at a window.
pub open spec fn value2(x: Wire2, w: Window) -> Ext {
    Ext { c0: value(x.a, w), c1: value(x.b, w) }
}

/// Every leaf of the expression lies inside a window of these sizes.
pub open spec fn within(e: Wire, width: int, n_periodic: int, n_public: int) -> bool
    decreases e,
{
    match *e {
        Expr::Cur(i) => i < width,
        Expr::Nxt(i) => i < width,
        Expr::Periodic(i) => i < n_periodic,
        Expr::Public(i) => i < n_public,
        Expr::Sum(a, b) => within(a, width, n_periodic, n_public) && within(b, width, n_periodic, n_public),
        Expr::Difference(a, b) => within(a, width, n_periodic, n_public) && within(b, width, n_periodic, n_public),
        Expr::Negation(a) => within(a, width, n_periodic, n_public),
        Expr::Product(a, b) => within(a, width, n_periodic, n_public) && within(b, width, n_periodic, n_public),
        _ => true,
    }
}

/// The degree of an expression in the trace columns: a cell, a periodic value and the two boundary
/// selectors count one, public values, constants and the transition selector count nothing.
pub open spec fn degree(e: Wire) -> nat
    decreases e,
{
    match *e {
        Expr::Cur(_) => 1,
        Expr::Nxt(_) => 1,
        Expr::Periodic(_) => 1,
        Expr::Public(_) => 0,
        Expr::IsFirstRow => 1,
        Expr::IsLastRow => 1,
        Expr::IsTransition => 0,
        Expr::Const(_) => 0,
        Expr::Sum(a, b) => if degree(a) >= degree(b) { degree(a) } else { degree(b) },
        Expr::Difference(a, b) => if degree(a) >= degree(b) { degree(a) } else { degree(b) },
        Expr::Negation(a) => degree(a),
        Expr::Product(a, b) => degree(a) + degree(b),
    }
}

/// A value is canonical.
pub proof fn lemma_value_canonical(e: Wire, w: Window)
    ensures
        value(e, w) < MODULUS,
{
}

/// The value of an extension product is the product of the values.
pub proof fn law_times_value(x: Wire2, y: Wire2, w: Window)
    ensures
        value2(w2_times(x, y), w) == x_mul(value2(x, w), value2(y, w)),
{
    let (a0, a1, b0, b1) = (value(x.a, w), value(x.b, w), value(y.a, w), value(y.b, w));
    let t = w2_times(x, y);
    assert(f_red(W_EXT as int) == W_EXT);
    assert(value(w_const(W_EXT), w) == W_EXT);
    let inner = w_times(w_const(W_EXT), x.b);
    assert(value(inner, w) == f_mul(W_EXT, a1));
    assert(value(w_times(inner, y.b), w) == f_mul(f_mul(W_EXT, a1), b1));
    assert(value(w_times(x.a, y.a), w) == f_mul(a0, b0));
    assert(value(w_times(x.a, y.b), w) == f_mul(a0, b1));
    assert(value(w_times(x.b, y.a), w) == f_mul(a1, b0));
    lemma_red_mul(W_EXT * a1, b1 as int);
    assert((W_EXT * a1) * b1 == W_EXT * (a1 * b1)) by (nonlinear_arith);
    lemma_red_add(a0 * b0, f_red(W_EXT * (a1 * b1)) as int);
    lemma_red_add(a0 * b0, W_EXT * (a1 * b1));
    lemma_red_add(a0 * b1, f_red(a1 * b0) as int);
    lemma_red_add(a0 * b1, a1 * b0);
    assert(value(t.a, w) == f_add(f_mul(a0, b0), f_mul(f_mul(W_EXT, a1), b1)));
    assert(value(t.b, w) == f_add(f_mul(a0, b1), f_mul(a1, b0)));
}

/// Sums and differences of extension expressions are taken coordinate by coordinate.
pub proof fn law_plus_minus_value(x: Wire2, y: Wire2, w: Window)
    ensures
        value2(w2_plus(x, y), w) == x_add(value2(x, w), value2(y, w)),
        value2(w2_minus(x, y), w) == x_sub(value2(x, w), value2(y, w)),
{
    assert(value(w_plus(x.a, y.a), w) == f_add(value(x.a, w), value(y.a, w)));
    assert(value(w_plus(x.b, y.b), w) == f_add(value(x.b, w), value(y.b, w)));
    assert(value(w_minus(x.a, y.a), w) == f_sub(value(x.a, w), value(y.a, w)));
    assert(value(w_minus(x.b, y.b), w) == f_sub(value(x.b, w), value(y.b, w)));
}

/// The sizes and cells of a window that an evaluation reads.
pub struct WindowRef<'a> {
    pub cur: &'a [u64],
    pub nxt: &'a [u64],
    pub periodic: &'a [u64],
    pub publics: &'a [u64],
    pub is_first: u64,
    pub is_last: u64,
    pub is_transition: u64,
}

impl<'a> WindowRef<'a> {
    pub open spec fn view(&self) -> Window {
        Window {
            cur: self.cur@,
            nxt: self.nxt@,
            periodic: self.periodic@,
            publics: self.publics@,
            is_first: self.is_first,
            is_last: self.is_last,
            is_transition: self.is_transition,
        }
    }
}

/// The value of `e` at a concrete window.
pub fn evaluate(e: &Wire, w: &WindowRef) -> (r: u64)
    requires
        w.cur@.len() == w.nxt@.len(),
        within(*e, w.cur@.len() as int, w.periodic@.len() as int, w.publics@.len() as int),
    ensures
        r == value(*e, w.view()),
    decreases *e,
{
    match &**e {
        Expr::Cur(i) => w.cur[*i] % MODULUS,
        Expr::Nxt(i) => w.nxt[*i] % MODULUS,
        Expr::Periodic(i) => w.periodic[*i] % MODULUS,
        Expr::Public(i) => w.publics[*i] % MODULUS,
        Expr::IsFirstRow => w.is_first % MODULUS,
        Expr::IsLastRow => w.is_last % MODULUS,
        Expr::IsTransition => w.is_transition % MODULUS,
        Expr::Const(c) => *c % MODULUS,
        Expr::Sum(a, b) => fadd(evaluate(a, w), evaluate(b, w)),
        Expr::Difference(a, b) => fsub(evaluate(a, w), evaluate(b, w)),
        Expr::Negation(a) => fsub(0, evaluate(a, w)),
        Expr::Product(a, b) => fmul(evaluate(a, w), evaluate(b, w)),
    }
}

} // verus!
