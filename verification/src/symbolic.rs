//! Walking a constraint tree at an out-of-domain point: natively on extension values, and as a circuit on
//! extension wires. A tree reads its cells from the openings at the point and its successor.

use std::sync::Arc;
use vstd::prelude::*;

use crate::expr::{
    constant, value, value2, w2, w2_minus, w2_plus, w2_times, w2_zero, w_const, Expr, Window, Wire, Wire2,
};
use crate::expr::{law_plus_minus_value, law_times_value};
use crate::field::{f_red, x_add, x_base, x_mul, x_red, x_sub, x_zero, Ext, MODULUS};

verus! {

/// The openings a constraint tree is evaluated at, as extension values.
pub struct NativeOpenings {
    pub local: Vec<Ext>,
    pub next: Vec<Ext>,
    pub pubs: Vec<Ext>,
    pub periodic: Vec<Ext>,
    pub is_first: Ext,
    pub is_last: Ext,
    pub is_trans: Ext,
}

/// The openings a constraint tree is evaluated at, as extension wires.
pub struct CircuitOpenings {
    pub local: Vec<Wire2>,
    pub next: Vec<Wire2>,
    pub pubs: Vec<Wire2>,
    pub periodic: Vec<Wire2>,
    pub is_first: Wire2,
    pub is_last: Wire2,
    pub is_trans: Wire2,
}

/// The aux openings, challenges and committed values that a lookup tree reads besides.
pub struct CircuitLookup {
    pub perm_local: Vec<Wire2>,
    pub perm_next: Vec<Wire2>,
    pub challenges: Vec<Wire2>,
    pub perm_values: Vec<Wire2>,
}

/// The same, as extension values.
pub struct NativeLookup {
    pub perm_local: Vec<Ext>,
    pub perm_next: Vec<Ext>,
    pub challenges: Vec<Ext>,
    pub perm_values: Vec<Ext>,
}

/// The openings as sequences of extension values.
#[verifier::ext_equal]
pub struct NativeView {
    pub local: Seq<Ext>,
    pub next: Seq<Ext>,
    pub pubs: Seq<Ext>,
    pub periodic: Seq<Ext>,
    pub is_first: Ext,
    pub is_last: Ext,
    pub is_trans: Ext,
}

/// The openings as sequences of extension wires.
#[verifier::ext_equal]
pub struct CircuitView {
    pub local: Seq<Wire2>,
    pub next: Seq<Wire2>,
    pub pubs: Seq<Wire2>,
    pub periodic: Seq<Wire2>,
    pub is_first: Wire2,
    pub is_last: Wire2,
    pub is_trans: Wire2,
}

/// The lookup openings as sequences of extension values.
#[verifier::ext_equal]
pub struct NativeLookupView {
    pub perm_local: Seq<Ext>,
    pub perm_next: Seq<Ext>,
    pub challenges: Seq<Ext>,
    pub perm_values: Seq<Ext>,
}

/// The lookup openings as sequences of extension wires.
#[verifier::ext_equal]
pub struct CircuitLookupView {
    pub perm_local: Seq<Wire2>,
    pub perm_next: Seq<Wire2>,
    pub challenges: Seq<Wire2>,
    pub perm_values: Seq<Wire2>,
}

impl View for NativeOpenings {
    type V = NativeView;

    open spec fn view(&self) -> NativeView {
        NativeView {
            local: self.local@,
            next: self.next@,
            pubs: self.pubs@,
            periodic: self.periodic@,
            is_first: self.is_first,
            is_last: self.is_last,
            is_trans: self.is_trans,
        }
    }
}

impl View for CircuitOpenings {
    type V = CircuitView;

    open spec fn view(&self) -> CircuitView {
        CircuitView {
            local: self.local@,
            next: self.next@,
            pubs: self.pubs@,
            periodic: self.periodic@,
            is_first: self.is_first,
            is_last: self.is_last,
            is_trans: self.is_trans,
        }
    }
}

impl View for NativeLookup {
    type V = NativeLookupView;

    open spec fn view(&self) -> NativeLookupView {
        NativeLookupView {
            perm_local: self.perm_local@,
            perm_next: self.perm_next@,
            challenges: self.challenges@,
            perm_values: self.perm_values@,
        }
    }
}

impl View for CircuitLookup {
    type V = CircuitLookupView;

    open spec fn view(&self) -> CircuitLookupView {
        CircuitLookupView {
            perm_local: self.perm_local@,
            perm_next: self.perm_next@,
            challenges: self.challenges@,
            perm_values: self.perm_values@,
        }
    }
}

/// An extension-field constraint tree over base subtrees, aux columns, challenges and committed values.
#[derive(Debug)]
pub enum ExtExpr {
    Base(Wire),
    PermCur(usize),
    PermNxt(usize),
    Challenge(usize),
    PermValue(usize),
    Const(Ext),
    Sum(Arc<ExtExpr>, Arc<ExtExpr>),
    Difference(Arc<ExtExpr>, Arc<ExtExpr>),
    Negation(Arc<ExtExpr>),
    Product(Arc<ExtExpr>, Arc<ExtExpr>),
}

/// Every leaf of the tree has an opening.
pub open spec fn readable(e: Wire, local: int, next: int, pubs: int, periodic: int) -> bool
    decreases e,
{
    match *e {
        Expr::Cur(i) => i < local,
        Expr::Nxt(i) => i < next,
        Expr::Periodic(i) => i < periodic,
        Expr::Public(i) => i < pubs,
        Expr::Sum(a, b) => readable(a, local, next, pubs, periodic) && readable(b, local, next, pubs, periodic),
        Expr::Difference(a, b) => readable(a, local, next, pubs, periodic)
            && readable(b, local, next, pubs, periodic),
        Expr::Negation(a) => readable(a, local, next, pubs, periodic),
        Expr::Product(a, b) => readable(a, local, next, pubs, periodic) && readable(b, local, next, pubs, periodic),
        _ => true,
    }
}

impl NativeView {
    pub open spec fn reads(&self, e: Wire) -> bool {
        readable(
            e,
            self.local.len() as int,
            self.next.len() as int,
            self.pubs.len() as int,
            self.periodic.len() as int,
        )
    }
}

impl CircuitView {
    pub open spec fn reads(&self, e: Wire) -> bool {
        readable(
            e,
            self.local.len() as int,
            self.next.len() as int,
            self.pubs.len() as int,
            self.periodic.len() as int,
        )
    }
}

/// Every leaf of a lookup tree has an opening.
pub open spec fn ext_readable(
    e: Arc<ExtExpr>,
    base: (int, int, int, int),
    perm_local: int,
    perm_next: int,
    challenges: int,
    perm_values: int,
) -> bool
    decreases e,
{
    match *e {
        ExtExpr::Base(b) => readable(b, base.0, base.1, base.2, base.3),
        ExtExpr::PermCur(i) => i < perm_local,
        ExtExpr::PermNxt(i) => i < perm_next,
        ExtExpr::Challenge(i) => i < challenges,
        ExtExpr::PermValue(i) => i < perm_values,
        ExtExpr::Const(_) => true,
        ExtExpr::Sum(a, b) => ext_readable(a, base, perm_local, perm_next, challenges, perm_values)
            && ext_readable(b, base, perm_local, perm_next, challenges, perm_values),
        ExtExpr::Difference(a, b) => ext_readable(a, base, perm_local, perm_next, challenges, perm_values)
            && ext_readable(b, base, perm_local, perm_next, challenges, perm_values),
        ExtExpr::Negation(a) => ext_readable(a, base, perm_local, perm_next, challenges, perm_values),
        ExtExpr::Product(a, b) => ext_readable(a, base, perm_local, perm_next, challenges, perm_values)
            && ext_readable(b, base, perm_local, perm_next, challenges, perm_values),
    }
}

impl CircuitLookupView {
    pub open spec fn reads(&self, e: Arc<ExtExpr>, o: CircuitView) -> bool {
        ext_readable(
            e,
            (o.local.len() as int, o.next.len() as int, o.pubs.len() as int, o.periodic.len() as int),
            self.perm_local.len() as int,
            self.perm_next.len() as int,
            self.challenges.len() as int,
            self.perm_values.len() as int,
        )
    }
}

impl NativeLookupView {
    pub open spec fn reads(&self, e: Arc<ExtExpr>, o: NativeView) -> bool {
        ext_readable(
            e,
            (o.local.len() as int, o.next.len() as int, o.pubs.len() as int, o.periodic.len() as int),
            self.perm_local.len() as int,
            self.perm_next.len() as int,
            self.challenges.len() as int,
            self.perm_values.len() as int,
        )
    }
}

/// The extension value of a constraint tree at the openings.
pub open spec fn native_value(e: Wire, o: NativeView) -> Ext
    decreases e,
{
    match *e {
        Expr::Cur(i) => x_red(o.local[i as int]),
        Expr::Nxt(i) => x_red(o.next[i as int]),
        Expr::Periodic(i) => x_red(o.periodic[i as int]),
        Expr::Public(i) => x_red(o.pubs[i as int]),
        Expr::IsFirstRow => x_red(o.is_first),
        Expr::IsLastRow => x_red(o.is_last),
        Expr::IsTransition => x_red(o.is_trans),
        Expr::Const(c) => x_base(c),
        Expr::Sum(a, b) => x_add(native_value(a, o), native_value(b, o)),
        Expr::Difference(a, b) => x_sub(native_value(a, o), native_value(b, o)),
        Expr::Negation(a) => x_sub(x_zero(), native_value(a, o)),
        Expr::Product(a, b) => x_mul(native_value(a, o), native_value(b, o)),
    }
}

/// The extension wire of a constraint tree at the openings.
pub open spec fn circuit_wire(e: Wire, o: CircuitView) -> Wire2
    decreases e,
{
    match *e {
        Expr::Cur(i) => o.local[i as int],
        Expr::Nxt(i) => o.next[i as int],
        Expr::Periodic(i) => o.periodic[i as int],
        Expr::Public(i) => o.pubs[i as int],
        Expr::IsFirstRow => o.is_first,
        Expr::IsLastRow => o.is_last,
        Expr::IsTransition => o.is_trans,
        Expr::Const(c) => w2(w_const(c), w_const(0)),
        Expr::Sum(a, b) => w2_plus(circuit_wire(a, o), circuit_wire(b, o)),
        Expr::Difference(a, b) => w2_minus(circuit_wire(a, o), circuit_wire(b, o)),
        Expr::Negation(a) => w2_minus(w2_zero(), circuit_wire(a, o)),
        Expr::Product(a, b) => w2_times(circuit_wire(a, o), circuit_wire(b, o)),
    }
}

/// The extension value of a lookup tree.
pub open spec fn native_ext_value(e: Arc<ExtExpr>, o: NativeView, l: NativeLookupView) -> Ext
    decreases e,
{
    match *e {
        ExtExpr::Base(b) => native_value(b, o),
        ExtExpr::PermCur(i) => x_red(l.perm_local[i as int]),
        ExtExpr::PermNxt(i) => x_red(l.perm_next[i as int]),
        ExtExpr::Challenge(i) => x_red(l.challenges[i as int]),
        ExtExpr::PermValue(i) => x_red(l.perm_values[i as int]),
        ExtExpr::Const(c) => x_red(c),
        ExtExpr::Sum(a, b) => x_add(native_ext_value(a, o, l), native_ext_value(b, o, l)),
        ExtExpr::Difference(a, b) => x_sub(native_ext_value(a, o, l), native_ext_value(b, o, l)),
        ExtExpr::Negation(a) => x_sub(x_zero(), native_ext_value(a, o, l)),
        ExtExpr::Product(a, b) => x_mul(native_ext_value(a, o, l), native_ext_value(b, o, l)),
    }
}

/// The extension wire of a lookup tree.
pub open spec fn circuit_ext_wire(e: Arc<ExtExpr>, o: CircuitView, l: CircuitLookupView) -> Wire2
    decreases e,
{
    match *e {
        ExtExpr::Base(b) => circuit_wire(b, o),
        ExtExpr::PermCur(i) => l.perm_local[i as int],
        ExtExpr::PermNxt(i) => l.perm_next[i as int],
        ExtExpr::Challenge(i) => l.challenges[i as int],
        ExtExpr::PermValue(i) => l.perm_values[i as int],
        ExtExpr::Const(c) => w2(w_const(c.c0), w_const(c.c1)),
        ExtExpr::Sum(a, b) => w2_plus(circuit_ext_wire(a, o, l), circuit_ext_wire(b, o, l)),
        ExtExpr::Difference(a, b) => w2_minus(circuit_ext_wire(a, o, l), circuit_ext_wire(b, o, l)),
        ExtExpr::Negation(a) => w2_minus(w2_zero(), circuit_ext_wire(a, o, l)),
        ExtExpr::Product(a, b) => w2_times(circuit_ext_wire(a, o, l), circuit_ext_wire(b, o, l)),
    }
}

fn reduced(x: &Ext) -> (r: Ext)
    ensures
        r == x_red(*x),
{
    Ext { c0: x.c0 % MODULUS, c1: x.c1 % MODULUS }
}

/// Evaluate a constraint tree on extension values.
pub fn eval_symbolic_native(e: &Wire, o: &NativeOpenings) -> (r: Ext)
    requires
        o@.reads(*e),
    ensures
        r == native_value(*e, o@),
    decreases *e,
{
    match &**e {
        Expr::Cur(i) => reduced(&o.local[*i]),
        Expr::Nxt(i) => reduced(&o.next[*i]),
        Expr::Periodic(i) => reduced(&o.periodic[*i]),
        Expr::Public(i) => reduced(&o.pubs[*i]),
        Expr::IsFirstRow => reduced(&o.is_first),
        Expr::IsLastRow => reduced(&o.is_last),
        Expr::IsTransition => reduced(&o.is_trans),
        Expr::Const(c) => Ext::from_base(*c),
        Expr::Sum(a, b) => eval_symbolic_native(a, o).plus(eval_symbolic_native(b, o)),
        Expr::Difference(a, b) => eval_symbolic_native(a, o).minus(eval_symbolic_native(b, o)),
        Expr::Negation(a) => Ext::zero().minus(eval_symbolic_native(a, o)),
        Expr::Product(a, b) => eval_symbolic_native(a, o).times(eval_symbolic_native(b, o)),
    }
}

/// Evaluate a lookup tree on extension values.
pub fn eval_symbolic_ext_native(e: &Arc<ExtExpr>, o: &NativeOpenings, l: &NativeLookup) -> (r: Ext)
    requires
        l@.reads(*e, o@),
    ensures
        r == native_ext_value(*e, o@, l@),
    decreases *e,
{
    match &**e {
        ExtExpr::Base(b) => eval_symbolic_native(b, o),
        ExtExpr::PermCur(i) => reduced(&l.perm_local[*i]),
        ExtExpr::PermNxt(i) => reduced(&l.perm_next[*i]),
        ExtExpr::Challenge(i) => reduced(&l.challenges[*i]),
        ExtExpr::PermValue(i) => reduced(&l.perm_values[*i]),
        ExtExpr::Const(c) => reduced(c),
        ExtExpr::Sum(a, b) => eval_symbolic_ext_native(a, o, l).plus(eval_symbolic_ext_native(b, o, l)),
        ExtExpr::Difference(a, b) => eval_symbolic_ext_native(a, o, l).minus(
            eval_symbolic_ext_native(b, o, l),
        ),
        ExtExpr::Negation(a) => Ext::zero().minus(eval_symbolic_ext_native(a, o, l)),
        ExtExpr::Product(a, b) => eval_symbolic_ext_native(a, o, l).times(eval_symbolic_ext_native(b, o, l)),
    }
}

/// Evaluate a constraint tree on extension wires.
pub fn eval_symbolic_circuit(e: &Wire, o: &CircuitOpenings) -> (r: Wire2)
    requires
        o@.reads(*e),
    ensures
        r == circuit_wire(*e, o@),
    decreases *e,
{
    match &**e {
        Expr::Cur(i) => o.local[*i].copy(),
        Expr::Nxt(i) => o.next[*i].copy(),
        Expr::Periodic(i) => o.periodic[*i].copy(),
        Expr::Public(i) => o.pubs[*i].copy(),
        Expr::IsFirstRow => o.is_first.copy(),
        Expr::IsLastRow => o.is_last.copy(),
        Expr::IsTransition => o.is_trans.copy(),
        Expr::Const(c) => Wire2::new(constant(*c), constant(0)),
        Expr::Sum(a, b) => eval_symbolic_circuit(a, o).plus(&eval_symbolic_circuit(b, o)),
        Expr::Difference(a, b) => eval_symbolic_circuit(a, o).minus(&eval_symbolic_circuit(b, o)),
        Expr::Negation(a) => Wire2::zero().minus(&eval_symbolic_circuit(a, o)),
        Expr::Product(a, b) => eval_symbolic_circuit(a, o).times(&eval_symbolic_circuit(b, o)),
    }
}

/// Evaluate a lookup tree on extension wires.
pub fn eval_symbolic_ext_circuit(e: &Arc<ExtExpr>, o: &CircuitOpenings, l: &CircuitLookup) -> (r: Wire2)
    requires
        l@.reads(*e, o@),
    ensures
        r == circuit_ext_wire(*e, o@, l@),
    decreases *e,
{
    match &**e {
        ExtExpr::Base(b) => eval_symbolic_circuit(b, o),
        ExtExpr::PermCur(i) => l.perm_local[*i].copy(),
        ExtExpr::PermNxt(i) => l.perm_next[*i].copy(),
        ExtExpr::Challenge(i) => l.challenges[*i].copy(),
        ExtExpr::PermValue(i) => l.perm_values[*i].copy(),
        ExtExpr::Const(c) => Wire2::new(constant(c.c0), constant(c.c1)),
        ExtExpr::Sum(a, b) => eval_symbolic_ext_circuit(a, o, l).plus(&eval_symbolic_ext_circuit(b, o, l)),
        ExtExpr::Difference(a, b) => eval_symbolic_ext_circuit(a, o, l).minus(
            &eval_symbolic_ext_circuit(b, o, l),
        ),
        ExtExpr::Negation(a) => Wire2::zero().minus(&eval_symbolic_ext_circuit(a, o, l)),
        ExtExpr::Product(a, b) => eval_symbolic_ext_circuit(a, o, l).times(&eval_symbolic_ext_circuit(b, o, l)),
    }
}

/// The circuit openings carry, at window `w`, the native openings.
pub open spec fn carries(o: CircuitView, n: NativeView, w: Window) -> bool {
    &&& o.local.len() == n.local.len()
    &&& o.next.len() == n.next.len()
    &&& o.pubs.len() == n.pubs.len()
    &&& o.periodic.len() == n.periodic.len()
    &&& forall|i: int| 0 <= i < o.local.len() ==> value2(#[trigger] o.local[i], w) == x_red(n.local[i])
    &&& forall|i: int| 0 <= i < o.next.len() ==> value2(#[trigger] o.next[i], w) == x_red(n.next[i])
    &&& forall|i: int| 0 <= i < o.pubs.len() ==> value2(#[trigger] o.pubs[i], w) == x_red(n.pubs[i])
    &&& forall|i: int| 0 <= i < o.periodic.len() ==> value2(#[trigger] o.periodic[i], w) == x_red(n.periodic[i])
    &&& value2(o.is_first, w) == x_red(n.is_first)
    &&& value2(o.is_last, w) == x_red(n.is_last)
    &&& value2(o.is_trans, w) == x_red(n.is_trans)
}

/// The circuit lookup openings carry, at window `w`, the native ones.
pub open spec fn carries_lookup(o: CircuitLookupView, n: NativeLookupView, w: Window) -> bool {
    &&& o.perm_local.len() == n.perm_local.len()
    &&& o.perm_next.len() == n.perm_next.len()
    &&& o.challenges.len() == n.challenges.len()
    &&& o.perm_values.len() == n.perm_values.len()
    &&& forall|i: int|
        0 <= i < o.perm_local.len() ==> value2(#[trigger] o.perm_local[i], w) == x_red(n.perm_local[i])
    &&& forall|i: int|
        0 <= i < o.perm_next.len() ==> value2(#[trigger] o.perm_next[i], w) == x_red(n.perm_next[i])
    &&& forall|i: int|
        0 <= i < o.challenges.len() ==> value2(#[trigger] o.challenges[i], w) == x_red(n.challenges[i])
    &&& forall|i: int|
        0 <= i < o.perm_values.len() ==> value2(#[trigger] o.perm_values[i], w) == x_red(n.perm_values[i])
}

/// On any tree, the circuit computes what the native evaluation computes: at a window where the wires
/// carry the openings, the circuit's wire carries the tree's value.
pub proof fn law_circuit_matches_native(e: Wire, o: CircuitView, n: NativeView, w: Window)
    requires
        carries(o, n, w),
        o.reads(e),
    ensures
        value2(circuit_wire(e, o), w) == native_value(e, n),
    decreases e,
{
    match *e {
        Expr::Sum(a, b) => {
            law_circuit_matches_native(a, o, n, w);
            law_circuit_matches_native(b, o, n, w);
            law_plus_minus_value(circuit_wire(a, o), circuit_wire(b, o), w);
        },
        Expr::Difference(a, b) => {
            law_circuit_matches_native(a, o, n, w);
            law_circuit_matches_native(b, o, n, w);
            law_plus_minus_value(circuit_wire(a, o), circuit_wire(b, o), w);
        },
        Expr::Negation(a) => {
            law_circuit_matches_native(a, o, n, w);
            law_plus_minus_value(w2_zero(), circuit_wire(a, o), w);
            assert(value(w_const(0), w) == 0);
            assert(value2(w2_zero(), w) == x_zero());
        },
        Expr::Product(a, b) => {
            law_circuit_matches_native(a, o, n, w);
            law_circuit_matches_native(b, o, n, w);
            law_times_value(circuit_wire(a, o), circuit_wire(b, o), w);
        },
        Expr::Const(c) => {
            assert(value(w_const(c), w) == f_red(c as int));
            assert(value(w_const(0), w) == 0);
        },
        _ => {},
    }
}

/// On any lookup tree, the circuit computes what the native evaluation computes.
pub proof fn law_ext_circuit_matches_native(
    e: Arc<ExtExpr>,
    o: CircuitView,
    l: CircuitLookupView,
    n: NativeView,
    m: NativeLookupView,
    w: Window,
)
    requires
        carries(o, n, w),
        carries_lookup(l, m, w),
        l.reads(e, o),
    ensures
        value2(circuit_ext_wire(e, o, l), w) == native_ext_value(e, n, m),
    decreases e,
{
    match *e {
        ExtExpr::Base(b) => {
            law_circuit_matches_native(b, o, n, w);
        },
        ExtExpr::Sum(a, b) => {
            law_ext_circuit_matches_native(a, o, l, n, m, w);
            law_ext_circuit_matches_native(b, o, l, n, m, w);
            law_plus_minus_value(circuit_ext_wire(a, o, l), circuit_ext_wire(b, o, l), w);
        },
        ExtExpr::Difference(a, b) => {
            law_ext_circuit_matches_native(a, o, l, n, m, w);
            law_ext_circuit_matches_native(b, o, l, n, m, w);
            law_plus_minus_value(circuit_ext_wire(a, o, l), circuit_ext_wire(b, o, l), w);
        },
        ExtExpr::Negation(a) => {
            law_ext_circuit_matches_native(a, o, l, n, m, w);
            law_plus_minus_value(w2_zero(), circuit_ext_wire(a, o, l), w);
            assert(value(w_const(0), w) == 0);
            assert(value2(w2_zero(), w) == x_zero());
        },
        ExtExpr::Product(a, b) => {
            law_ext_circuit_matches_native(a, o, l, n, m, w);
            law_ext_circuit_matches_native(b, o, l, n, m, w);
            law_times_value(circuit_ext_wire(a, o, l), circuit_ext_wire(b, o, l), w);
        },
        ExtExpr::Const(c) => {
            assert(value(w_const(c.c0), w) == f_red(c.c0 as int));
            assert(value(w_const(c.c1), w) == f_red(c.c1 as int));
        },
        _ => {},
    }
}

} // verus!
