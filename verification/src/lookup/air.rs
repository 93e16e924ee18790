//! Constraint systems with lookups, and the constraints that a lookup adds.

use std::sync::Arc;
use vstd::arithmetic::power2::pow2;
use vstd::prelude::*;

use crate::bits::{ceil_log2, log2_strict, next_pow2, next_power_of_two};
use crate::expr::{constant, cur, degree, w_const, w_cur, Expr, Wire};
use crate::field::{x_one, x_zero, Ext};
use crate::fri::merkle::contents;
use crate::symbolic::{ext_readable, readable, ExtExpr};

verus! {

/// A shared lookup tree.
pub type ExtWire = Arc<ExtExpr>;

/// One lookup: tuples of expressions, each with a multiplicity.
pub struct Lookup {
    pub elements: Vec<Vec<Wire>>,
    pub multiplicities: Vec<Wire>,
}

/// A lookup, as mathematics.
#[verifier::ext_equal]
pub struct LookupView {
    pub elements: Seq<Seq<Wire>>,
    pub multiplicities: Seq<Wire>,
}

impl View for Lookup {
    type V = LookupView;

    open spec fn view(&self) -> LookupView {
        LookupView { elements: contents(self.elements@), multiplicities: self.multiplicities@ }
    }
}

/// A constraint system with lookups, as mathematics.
#[verifier::ext_equal]
pub struct SystemView {
    pub width: nat,
    pub pubs: nat,
    pub constraints: Seq<Wire>,
    pub lookups: Seq<LookupView>,
    pub periodic: Seq<Seq<u64>>,
}

/// A constraint system with lookups: its width, its public values, its constraints, its lookups and its periodic
/// columns.
pub trait LookupAir {
    spec fn system(&self) -> SystemView;

    fn width(&self) -> (r: usize)
        ensures
            r == self.system().width,
    ;

    fn num_public_values(&self) -> (r: usize)
        ensures
            r == self.system().pubs,
    ;

    fn constraints(&self) -> (r: Vec<Wire>)
        ensures
            r@ == self.system().constraints,
    ;

    fn lookups(&self) -> (r: Vec<Lookup>)
        ensures
            lookup_views(r@) == self.system().lookups,
    ;

    fn periodic_columns(&self) -> (r: Vec<Vec<u64>>)
        ensures
            contents(r@) == self.system().periodic,
    ;
}

/// The views of a run of lookups.
pub open spec fn lookup_views(ls: Seq<Lookup>) -> Seq<LookupView> {
    Seq::new(ls.len(), |i: int| ls[i]@)
}

pub open spec fn e_base(a: Wire) -> ExtWire {
    Arc::new(ExtExpr::Base(a))
}

pub open spec fn e_const(c: Ext) -> ExtWire {
    Arc::new(ExtExpr::Const(c))
}

pub open spec fn e_cur(i: int) -> ExtWire {
    Arc::new(ExtExpr::PermCur(i as usize))
}

pub open spec fn e_nxt(i: int) -> ExtWire {
    Arc::new(ExtExpr::PermNxt(i as usize))
}

pub open spec fn e_challenge(i: int) -> ExtWire {
    Arc::new(ExtExpr::Challenge(i as usize))
}

pub open spec fn e_value(i: int) -> ExtWire {
    Arc::new(ExtExpr::PermValue(i as usize))
}

pub open spec fn e_plus(a: ExtWire, b: ExtWire) -> ExtWire {
    Arc::new(ExtExpr::Sum(a, b))
}

pub open spec fn e_minus(a: ExtWire, b: ExtWire) -> ExtWire {
    Arc::new(ExtExpr::Difference(a, b))
}

pub open spec fn e_times(a: ExtWire, b: ExtWire) -> ExtWire {
    Arc::new(ExtExpr::Product(a, b))
}

/// The first `n` entries of a tuple, combined under powers of the second challenge of lookup `c`.
pub open spec fn combined(tuple: Seq<Wire>, c: int, n: nat) -> ExtWire
    decreases n,
{
    if n == 0 {
        e_const(x_zero())
    } else {
        e_plus(
            e_base(tuple[n - 1]),
            e_times(combined(tuple, c, (n - 1) as nat), e_challenge(2 * c + 1)),
        )
    }
}

/// A tuple's denominator: the first challenge of lookup `c` less the combined tuple.
pub open spec fn denominator(l: LookupView, c: int, i: int) -> ExtWire {
    e_minus(e_challenge(2 * c), combined(l.elements[i], c, l.elements[i].len()))
}

/// The product of the first `n` denominators.
pub open spec fn below(l: LookupView, c: int, n: nat) -> ExtWire
    decreases n,
{
    if n == 0 {
        e_const(x_one())
    } else {
        e_times(below(l, c, (n - 1) as nat), denominator(l, c, n - 1))
    }
}

/// The product of the denominators from `i` on.
pub open spec fn above(l: LookupView, c: int, i: nat) -> ExtWire
    decreases l.elements.len() - i,
{
    if i >= l.elements.len() {
        e_const(x_one())
    } else {
        e_times(above(l, c, i + 1), denominator(l, c, i as int))
    }
}

/// The numerator over the first `n` tuples: each multiplicity times all other denominators.
pub open spec fn numerator(l: LookupView, c: int, n: nat) -> ExtWire
    decreases n,
{
    if n == 0 {
        e_const(x_zero())
    } else {
        e_plus(
            numerator(l, c, (n - 1) as nat),
            e_times(
                e_times(e_base(l.multiplicities[n - 1]), below(l, c, (n - 1) as nat)),
                above(l, c, n),
            ),
        )
    }
}

/// Lookup `c`'s fraction column holds the sum of multiplicity over denominator.
pub open spec fn fraction_constraint(l: LookupView, c: int) -> ExtWire {
    e_minus(
        e_times(below(l, c, l.elements.len()), e_cur(c + 1)),
        numerator(l, c, l.elements.len()),
    )
}

/// The sum of the first `n` fractions of a row.
pub open spec fn fraction_sum(n: nat) -> ExtWire
    decreases n,
{
    if n == 0 {
        e_const(x_zero())
    } else {
        e_plus(fraction_sum((n - 1) as nat), e_cur(n as int))
    }
}

/// The accumulator of `n` lookups: it starts at zero, takes in each row's fractions, and ends at the terminal.
pub open spec fn accumulator_constraints(n: nat) -> Seq<ExtWire> {
    seq![
        e_times(e_base(Arc::new(Expr::IsFirstRow)), e_cur(0)),
        e_times(e_base(Arc::new(Expr::IsTransition)), e_minus(e_minus(e_nxt(0), e_cur(0)), fraction_sum(n))),
        e_times(e_base(Arc::new(Expr::IsLastRow)), e_minus(e_minus(e_value(0), e_cur(0)), fraction_sum(n))),
    ]
}

/// The constraints of a run of lookups. No lookups add none.
pub open spec fn lookup_constraints(ls: Seq<LookupView>) -> Seq<ExtWire> {
    if ls.len() == 0 {
        Seq::empty()
    } else {
        Seq::new(ls.len(), |c: int| fraction_constraint(ls[c], c)) + accumulator_constraints(ls.len())
    }
}

/// Every tuple has its multiplicity.
pub open spec fn lookup_shaped(l: LookupView) -> bool {
    l.elements.len() == l.multiplicities.len()
}

fn base_tree(a: &Wire) -> (r: ExtWire)
    ensures
        r == e_base(*a),
{
    Arc::new(ExtExpr::Base(a.clone()))
}

fn plus_tree(a: &ExtWire, b: &ExtWire) -> (r: ExtWire)
    ensures
        r == e_plus(*a, *b),
{
    Arc::new(ExtExpr::Sum(a.clone(), b.clone()))
}

fn minus_tree(a: &ExtWire, b: &ExtWire) -> (r: ExtWire)
    ensures
        r == e_minus(*a, *b),
{
    Arc::new(ExtExpr::Difference(a.clone(), b.clone()))
}

fn times_tree(a: &ExtWire, b: &ExtWire) -> (r: ExtWire)
    ensures
        r == e_times(*a, *b),
{
    Arc::new(ExtExpr::Product(a.clone(), b.clone()))
}

fn denominator_tree(l: &Lookup, c: usize, i: usize) -> (r: ExtWire)
    requires
        i < l.elements@.len(),
        2 * c + 1 <= usize::MAX,
    ensures
        r == denominator(l@, c as int, i as int),
{
    let tuple: &Vec<Wire> = &l.elements[i];
    let beta: ExtWire = Arc::new(ExtExpr::Challenge(2 * c + 1));
    let mut acc: ExtWire = Arc::new(ExtExpr::Const(Ext::zero()));
    let mut n: usize = 0;
    while n < tuple.len()
        invariant
            n <= tuple@.len(),
            beta == e_challenge(2 * c as int + 1),
            acc == combined(tuple@, c as int, n as nat),
        decreases tuple.len() - n,
    {
        acc = plus_tree(&base_tree(&tuple[n]), &times_tree(&acc, &beta));
        n += 1;
    }
    minus_tree(&Arc::new(ExtExpr::Challenge(2 * c)), &acc)
}

fn fraction_tree(l: &Lookup, c: usize) -> (r: ExtWire)
    requires
        lookup_shaped(l@),
        2 * c + 1 <= usize::MAX,
    ensures
        r == fraction_constraint(l@, c as int),
{
    let len: usize = l.elements.len();
    let mut suffix: Vec<ExtWire> = Vec::new();
    suffix.push(Arc::new(ExtExpr::Const(Ext::one())));
    let mut i: usize = len;
    while i > 0
        invariant
            i <= len,
            len == l.elements@.len(),
            2 * c + 1 <= usize::MAX,
            suffix@.len() == len - i + 1,
            forall|k: int| 0 <= k < suffix@.len() ==> #[trigger] suffix@[k] == above(l@, c as int, (len - k) as nat),
        decreases i,
    {
        i -= 1;
        let last: ExtWire = times_tree(&suffix[suffix.len() - 1], &denominator_tree(l, c, i));
        suffix.push(last);
    }
    let mut prefix: ExtWire = Arc::new(ExtExpr::Const(Ext::one()));
    let mut top: ExtWire = Arc::new(ExtExpr::Const(Ext::zero()));
    let mut n: usize = 0;
    while n < len
        invariant
            n <= len,
            len == l.elements@.len(),
            len == l.multiplicities@.len(),
            2 * c + 1 <= usize::MAX,
            suffix@.len() == len + 1,
            forall|k: int| 0 <= k < suffix@.len() ==> #[trigger] suffix@[k] == above(l@, c as int, (len - k) as nat),
            prefix == below(l@, c as int, n as nat),
            top == numerator(l@, c as int, n as nat),
        decreases len - n,
    {
        assert(suffix@[len - n - 1] == above(l@, c as int, (len - (len - n - 1)) as nat));
        top = plus_tree(
            &top,
            &times_tree(&times_tree(&base_tree(&l.multiplicities[n]), &prefix), &suffix[len - n - 1]),
        );
        prefix = times_tree(&prefix, &denominator_tree(l, c, n));
        n += 1;
    }
    let column: ExtWire = Arc::new(ExtExpr::PermCur(c + 1));
    minus_tree(&times_tree(&prefix, &column), &top)
}

/// The constraints that a run of lookups adds to a system: one per fraction column, and three for the
/// accumulator.
pub fn lookup_trees(ls: &Vec<Lookup>) -> (out: Vec<ExtWire>)
    requires
        forall|c: int| 0 <= c < ls@.len() ==> lookup_shaped(#[trigger] lookup_views(ls@)[c]),
        2 * ls@.len() <= usize::MAX,
    ensures
        out@ == lookup_constraints(lookup_views(ls@)),
{
    let ghost lv = lookup_views(ls@);
    let mut out: Vec<ExtWire> = Vec::new();
    let len: usize = ls.len();
    if len == 0 {
        assert(out@ =~= lookup_constraints(lv));
        return out;
    }
    let mut sum: ExtWire = Arc::new(ExtExpr::Const(Ext::zero()));
    let mut c: usize = 0;
    while c < len
        invariant
            c <= len,
            len == ls@.len(),
            lv == lookup_views(ls@),
            2 * len <= usize::MAX,
            forall|k: int| 0 <= k < ls@.len() ==> lookup_shaped(#[trigger] lv[k]),
            sum == fraction_sum(c as nat),
            out@ =~= Seq::new(c as nat, |k: int| fraction_constraint(lv[k], k)),
        decreases len - c,
    {
        assert(lookup_shaped(lv[c as int]));
        out.push(fraction_tree(&ls[c], c));
        let column: ExtWire = Arc::new(ExtExpr::PermCur(c + 1));
        sum = plus_tree(&sum, &column);
        c += 1;
    }
    let acc: ExtWire = Arc::new(ExtExpr::PermCur(0));
    let acc_next: ExtWire = Arc::new(ExtExpr::PermNxt(0));
    let terminal: ExtWire = Arc::new(ExtExpr::PermValue(0));
    let first: ExtWire = base_tree(&Arc::new(Expr::IsFirstRow));
    let transition: ExtWire = base_tree(&Arc::new(Expr::IsTransition));
    let last: ExtWire = base_tree(&Arc::new(Expr::IsLastRow));
    out.push(times_tree(&first, &acc));
    out.push(times_tree(&transition, &minus_tree(&minus_tree(&acc_next, &acc), &sum)));
    out.push(times_tree(&last, &minus_tree(&minus_tree(&terminal, &acc), &sum)));
    assert(out@ =~= lookup_constraints(lv));
    out
}

/// The degree of a lookup tree: an aux column counts one, a challenge and a committed value nothing.
pub open spec fn ext_degree(e: ExtWire) -> nat
    decreases e,
{
    match *e {
        ExtExpr::Base(a) => degree(a),
        ExtExpr::PermCur(_) => 1,
        ExtExpr::PermNxt(_) => 1,
        ExtExpr::Challenge(_) => 0,
        ExtExpr::PermValue(_) => 0,
        ExtExpr::Const(_) => 0,
        ExtExpr::Sum(a, b) => if ext_degree(a) >= ext_degree(b) { ext_degree(a) } else { ext_degree(b) },
        ExtExpr::Difference(a, b) => if ext_degree(a) >= ext_degree(b) { ext_degree(a) } else { ext_degree(b) },
        ExtExpr::Negation(a) => ext_degree(a),
        ExtExpr::Product(a, b) => ext_degree(a) + ext_degree(b),
    }
}

/// The degree of a constraint.
pub fn degree_of(e: &Wire) -> (r: usize)
    requires
        degree(*e) <= usize::MAX,
    ensures
        r == degree(*e),
    decreases *e,
{
    match &**e {
        Expr::Cur(_) => 1,
        Expr::Nxt(_) => 1,
        Expr::Periodic(_) => 1,
        Expr::Public(_) => 0,
        Expr::IsFirstRow => 1,
        Expr::IsLastRow => 1,
        Expr::IsTransition => 0,
        Expr::Const(_) => 0,
        Expr::Sum(a, b) => larger(degree_of(a), degree_of(b)),
        Expr::Difference(a, b) => larger(degree_of(a), degree_of(b)),
        Expr::Negation(a) => degree_of(a),
        Expr::Product(a, b) => degree_of(a) + degree_of(b),
    }
}

/// The degree of a lookup tree.
pub fn ext_degree_of(e: &ExtWire) -> (r: usize)
    requires
        ext_degree(*e) <= usize::MAX,
    ensures
        r == ext_degree(*e),
    decreases *e,
{
    match &**e {
        ExtExpr::Base(a) => degree_of(a),
        ExtExpr::PermCur(_) => 1,
        ExtExpr::PermNxt(_) => 1,
        ExtExpr::Challenge(_) => 0,
        ExtExpr::PermValue(_) => 0,
        ExtExpr::Const(_) => 0,
        ExtExpr::Sum(a, b) => larger(ext_degree_of(a), ext_degree_of(b)),
        ExtExpr::Difference(a, b) => larger(ext_degree_of(a), ext_degree_of(b)),
        ExtExpr::Negation(a) => ext_degree_of(a),
        ExtExpr::Product(a, b) => ext_degree_of(a) + ext_degree_of(b),
    }
}

fn larger(a: usize, b: usize) -> (r: usize)
    ensures
        r == if a >= b { a } else { b },
{
    if a >= b {
        a
    } else {
        b
    }
}

/// The largest degree of the first `n` constraints.
pub open spec fn base_degree(cs: Seq<Wire>, n: nat) -> nat
    decreases n,
{
    if n == 0 {
        0
    } else {
        let before = base_degree(cs, (n - 1) as nat);
        if before >= degree(cs[n - 1]) {
            before
        } else {
            degree(cs[n - 1])
        }
    }
}

/// The largest degree of the first `n` lookup trees.
pub open spec fn trees_degree(cs: Seq<ExtWire>, n: nat) -> nat
    decreases n,
{
    if n == 0 {
        0
    } else {
        let before = trees_degree(cs, (n - 1) as nat);
        if before >= ext_degree(cs[n - 1]) {
            before
        } else {
            ext_degree(cs[n - 1])
        }
    }
}

/// The largest degree of a system's constraints, those of its lookups counted in.
pub open spec fn system_degree(s: SystemView) -> nat {
    let trees = lookup_constraints(s.lookups);
    let (a, b) = (base_degree(s.constraints, s.constraints.len()), trees_degree(trees, trees.len()));
    if a >= b {
        a
    } else {
        b
    }
}

/// The logarithm of the number of quotient chunks for a degree; hiding costs one degree more.
pub open spec fn log_quotient_chunks(max_degree: nat, is_zk: nat) -> nat {
    let d = max_degree + is_zk;
    ceil_log2(
        if d < 2 {
            1
        } else {
            (d - 1) as nat
        },
    )
}

/// A degree that fits a machine integer with room for the next power of two.
pub open spec fn degree_fits(max_degree: nat) -> bool {
    next_pow2(max_degree + 1) <= usize::MAX
}

/// The number of constraints of a system, those of its lookups apart, and the logarithm of its number of quotient
/// chunks.
pub struct Layout {
    pub base: usize,
    pub lookup: usize,
    pub log_chunks: usize,
}

/// A degree among the first ones is at most the largest.
pub(crate) proof fn lemma_base_degree(cs: Seq<Wire>, i: int, n: nat)
    requires
        0 <= i < n <= cs.len(),
    ensures
        degree(cs[i]) <= base_degree(cs, n),
    decreases n,
{
    if i < n - 1 {
        lemma_base_degree(cs, i, (n - 1) as nat);
    }
}

pub(crate) proof fn lemma_trees_degree(cs: Seq<ExtWire>, i: int, n: nat)
    requires
        0 <= i < n <= cs.len(),
    ensures
        ext_degree(cs[i]) <= trees_degree(cs, n),
    decreases n,
{
    if i < n - 1 {
        lemma_trees_degree(cs, i, (n - 1) as nat);
    }
}

/// The layout of a system's full constraint set: its own constraints first, then those of its lookups.
pub fn combined_constraint_layout<A: LookupAir>(air: &A, is_zk: usize) -> (r: Layout)
    requires
        system_shaped(air.system()),
        is_zk <= 1,
        degree_fits(system_degree(air.system())),
    ensures
        r.base == air.system().constraints.len(),
        r.lookup == lookup_constraints(air.system().lookups).len(),
        r.log_chunks == log_quotient_chunks(system_degree(air.system()), is_zk as nat),
{
    let base: Vec<Wire> = air.constraints();
    let lookups: Vec<Lookup> = air.lookups();
    let len: usize = lookups.len();
    proof {
        assert(lookup_views(lookups@).len() == len);
    }
    let trees: Vec<ExtWire> = lookup_trees(&lookups);
    let ghost top = system_degree(air.system());
    proof {
        crate::bits::lemma_next_pow2(top + 1);
    }
    let mut max: usize = 0;
    let mut i: usize = 0;
    while i < base.len()
        invariant
            i <= base@.len(),
            base@ == air.system().constraints,
            top == system_degree(air.system()),
            top < usize::MAX,
            max == base_degree(base@, i as nat),
        decreases base.len() - i,
    {
        proof {
            lemma_base_degree(base@, i as int, base@.len());
        }
        max = larger(max, degree_of(&base[i]));
        i += 1;
    }
    let mut ext: usize = 0;
    let mut k: usize = 0;
    while k < trees.len()
        invariant
            k <= trees@.len(),
            trees@ == lookup_constraints(air.system().lookups),
            top == system_degree(air.system()),
            top < usize::MAX,
            ext == trees_degree(trees@, k as nat),
        decreases trees.len() - k,
    {
        proof {
            lemma_trees_degree(trees@, k as int, trees@.len());
        }
        ext = larger(ext, ext_degree_of(&trees[k]));
        k += 1;
    }
    let all: usize = larger(max, ext);
    let constraint_degree: usize = larger(all + is_zk, 2);
    let chunks: usize = constraint_degree - 1;
    proof {
        lemma_smaller_fits(chunks as nat, top + 1);
        crate::bits::lemma_next_pow2(chunks as nat);
    }
    let rounded: usize = next_power_of_two(chunks);
    proof {
        assert(rounded == pow2(ceil_log2(chunks as nat)));
    }
    let log_chunks: usize = log2_strict(rounded);
    proof {
        crate::fri::query::lemma_ceil_log2_pow2(log_chunks as nat);
        crate::fri::query::lemma_ceil_log2_pow2(ceil_log2(chunks as nat));
    }
    Layout { base: base.len(), lookup: trees.len(), log_chunks }
}

/// The next power of two grows with its argument.
proof fn lemma_smaller_fits(a: nat, b: nat)
    requires
        a <= b,
    ensures
        next_pow2(a) <= next_pow2(b),
{
    lemma_ceil_log2_grows(a, b);
    crate::bits::lemma_pow2_monotone(ceil_log2(a), ceil_log2(b));
}

proof fn lemma_ceil_log2_grows(a: nat, b: nat)
    requires
        a <= b,
    ensures
        ceil_log2(a) <= ceil_log2(b),
    decreases b,
{
    if a > 1 {
        lemma_ceil_log2_grows(((a + 1) / 2) as nat, ((b + 1) / 2) as nat);
    }
}

/// Every lookup has its multiplicities, and their number fits.
pub open spec fn system_shaped(s: SystemView) -> bool {
    &&& forall|c: int| 0 <= c < s.lookups.len() ==> lookup_shaped(#[trigger] s.lookups[c])
    &&& 2 * s.lookups.len() <= usize::MAX
}

/// An expression reads within a system's row pair, public values and periodic columns.
pub open spec fn reads_in(s: SystemView, e: Wire) -> bool {
    readable(e, s.width as int, s.width as int, s.pubs as int, s.periodic.len() as int)
}

/// A lookup's tuples and multiplicities read within the system.
pub open spec fn lookup_reads(s: SystemView, l: LookupView) -> bool {
    &&& forall|i: int, k: int|
        0 <= i < l.elements.len() && 0 <= k < l.elements[i].len() ==> reads_in(s, #[trigger] l.elements[i][k])
    &&& forall|i: int| 0 <= i < l.multiplicities.len() ==> reads_in(s, #[trigger] l.multiplicities[i])
}

/// The constraints and lookups of a system read within its openings, and every period is a power of two.
pub open spec fn system_reads(s: SystemView) -> bool {
    &&& forall|i: int| 0 <= i < s.constraints.len() ==> reads_in(s, #[trigger] s.constraints[i])
    &&& forall|c: int| 0 <= c < s.lookups.len() ==> lookup_reads(s, #[trigger] s.lookups[c])
    &&& crate::stark::verify::periods_ok(s.periodic)
}

/// A lookup tree reads within a system's openings: aux columns for its lookups and accumulator, two challenges
/// per lookup, and the terminal.
pub open spec fn tree_reads(s: SystemView, e: ExtWire) -> bool {
    ext_readable(
        e,
        (s.width as int, s.width as int, s.pubs as int, s.periodic.len() as int),
        s.lookups.len() as int + 1,
        s.lookups.len() as int + 1,
        2 * s.lookups.len() as int,
        1,
    )
}

proof fn lemma_combined_reads(s: SystemView, tuple: Seq<Wire>, c: int, n: nat)
    requires
        0 <= c < s.lookups.len(),
        2 * s.lookups.len() <= usize::MAX,
        n <= tuple.len(),
        forall|k: int| 0 <= k < tuple.len() ==> reads_in(s, #[trigger] tuple[k]),
    ensures
        tree_reads(s, combined(tuple, c, n)),
    decreases n,
{
    if n > 0 {
        lemma_combined_reads(s, tuple, c, (n - 1) as nat);
        assert(reads_in(s, tuple[n - 1]));
        reveal_with_fuel(ext_readable, 4);
    }
}

proof fn lemma_denominator_reads(s: SystemView, l: LookupView, c: int, i: int)
    requires
        0 <= c < s.lookups.len(),
        2 * s.lookups.len() <= usize::MAX,
        lookup_reads(s, l),
        0 <= i < l.elements.len(),
    ensures
        tree_reads(s, denominator(l, c, i)),
{
    assert forall|k: int| 0 <= k < l.elements[i].len() implies reads_in(s, #[trigger] l.elements[i][k]) by {}
    lemma_combined_reads(s, l.elements[i], c, l.elements[i].len());
    reveal_with_fuel(ext_readable, 3);
}

proof fn lemma_products_read(s: SystemView, l: LookupView, c: int, n: nat)
    requires
        0 <= c < s.lookups.len(),
        2 * s.lookups.len() <= usize::MAX,
        lookup_reads(s, l),
        n <= l.elements.len(),
    ensures
        tree_reads(s, below(l, c, n)),
        tree_reads(s, above(l, c, (l.elements.len() - n) as nat)),
    decreases n,
{
    if n > 0 {
        lemma_products_read(s, l, c, (n - 1) as nat);
        lemma_denominator_reads(s, l, c, n - 1);
        lemma_denominator_reads(s, l, c, l.elements.len() - n);
    }
}

proof fn lemma_numerator_reads(s: SystemView, l: LookupView, c: int, n: nat)
    requires
        0 <= c < s.lookups.len(),
        2 * s.lookups.len() <= usize::MAX,
        lookup_reads(s, l),
        lookup_shaped(l),
        n <= l.elements.len(),
    ensures
        tree_reads(s, numerator(l, c, n)),
    decreases n,
{
    if n > 0 {
        lemma_numerator_reads(s, l, c, (n - 1) as nat);
        lemma_products_read(s, l, c, (n - 1) as nat);
        lemma_products_read(s, l, c, (l.elements.len() - n) as nat);
        assert(reads_in(s, l.multiplicities[n - 1]));
        reveal_with_fuel(ext_readable, 4);
    }
}

proof fn lemma_fraction_sum_reads(s: SystemView, n: nat)
    requires
        n <= s.lookups.len(),
        2 * s.lookups.len() <= usize::MAX,
    ensures
        tree_reads(s, fraction_sum(n)),
    decreases n,
{
    if n > 0 {
        lemma_fraction_sum_reads(s, (n - 1) as nat);
        reveal_with_fuel(ext_readable, 3);
    }
}

/// The constraints that the lookups of a system add read within its openings.
pub proof fn law_lookup_constraints_read(s: SystemView, i: int)
    requires
        system_shaped(s),
        system_reads(s),
        0 <= i < lookup_constraints(s.lookups).len(),
    ensures
        tree_reads(s, lookup_constraints(s.lookups)[i]),
{
    let n = s.lookups.len();
    if i < n {
        let l = s.lookups[i];
        assert(lookup_reads(s, l) && lookup_shaped(l));
        lemma_products_read(s, l, i, l.elements.len());
        lemma_numerator_reads(s, l, i, l.elements.len());
        reveal_with_fuel(ext_readable, 4);
        assert(lookup_constraints(s.lookups)[i] == fraction_constraint(l, i));
    } else {
        lemma_fraction_sum_reads(s, n);
        reveal_with_fuel(ext_readable, 5);
        reveal_with_fuel(readable, 2);
        assert(lookup_constraints(s.lookups)[i] == accumulator_constraints(n)[i - n]);
    }
}

/// A range check with one lookup per row: the value is looked up once, the table's value is taken out as often as
/// its multiplicity says. The columns are the value, the table's value and the multiplicity.
pub struct RangeCheckAir;

/// The lookup of the range check.
pub open spec fn range_lookup() -> LookupView {
    LookupView {
        elements: seq![seq![w_cur(0)], seq![w_cur(1)]],
        multiplicities: seq![w_const(1), Arc::new(Expr::Negation(w_cur(2)))],
    }
}

impl LookupAir for RangeCheckAir {
    open spec fn system(&self) -> SystemView {
        SystemView {
            width: 3,
            pubs: 0,
            constraints: Seq::empty(),
            lookups: seq![range_lookup()],
            periodic: Seq::empty(),
        }
    }

    fn width(&self) -> (r: usize) {
        3
    }

    fn num_public_values(&self) -> (r: usize) {
        0
    }

    fn constraints(&self) -> (r: Vec<Wire>) {
        Vec::new()
    }

    fn lookups(&self) -> (r: Vec<Lookup>) {
        let mut queried: Vec<Wire> = Vec::new();
        queried.push(cur(0));
        let mut provided: Vec<Wire> = Vec::new();
        provided.push(cur(1));
        let mut elements: Vec<Vec<Wire>> = Vec::new();
        elements.push(queried);
        elements.push(provided);
        let mut multiplicities: Vec<Wire> = Vec::new();
        multiplicities.push(constant(1));
        multiplicities.push(Arc::new(Expr::Negation(cur(2))));
        let l: Lookup = Lookup { elements, multiplicities };
        proof {
            assert(l@.elements[0] =~= range_lookup().elements[0]);
            assert(l@.elements[1] =~= range_lookup().elements[1]);
            assert(l@.elements =~= range_lookup().elements);
            assert(l@ =~= range_lookup());
        }
        let mut out: Vec<Lookup> = Vec::new();
        out.push(l);
        assert(lookup_views(out@) =~= seq![range_lookup()]);
        out
    }

    fn periodic_columns(&self) -> (r: Vec<Vec<u64>>) {
        let r: Vec<Vec<u64>> = Vec::new();
        assert(contents(r@) =~= Seq::<Seq<u64>>::empty());
        r
    }
}

/// The range check is well formed: its lookup reads within its three columns, it adds four constraints, and their
/// largest degree is three.
pub proof fn law_range_check_system()
    ensures
        system_shaped(RangeCheckAir.system()),
        system_reads(RangeCheckAir.system()),
        lookup_constraints(RangeCheckAir.system().lookups).len() == 4,
        system_degree(RangeCheckAir.system()) == 3,
        degree_fits(3),
{
    let s = RangeCheckAir.system();
    let l = range_lookup();
    reveal_with_fuel(readable, 3);
    assert forall|i: int, k: int| 0 <= i < l.elements.len() && 0 <= k < l.elements[i].len() implies reads_in(
        s,
        #[trigger] l.elements[i][k],
    ) by {
        assert(i == 0 || i == 1);
        assert(k == 0);
    }
    assert(lookup_reads(s, l));
    let trees = lookup_constraints(s.lookups);
    reveal_with_fuel(degree, 3);
    reveal_with_fuel(combined, 2);
    reveal_with_fuel(below, 3);
    reveal_with_fuel(above, 3);
    reveal_with_fuel(numerator, 3);
    reveal_with_fuel(fraction_sum, 2);
    lemma_range_degrees(l);
    assert(trees[0] == fraction_constraint(l, 0));
    assert(trees[1] == accumulator_constraints(1)[0]);
    assert(trees[2] == accumulator_constraints(1)[1]);
    assert(trees[3] == accumulator_constraints(1)[2]);
    reveal_with_fuel(trees_degree, 5);
    reveal_with_fuel(base_degree, 1);
    vstd::arithmetic::power2::lemma2_to64();
    reveal_with_fuel(ceil_log2, 4);
}

/// The degrees of the products of the range check's denominators.
#[verifier::spinoff_prover]
#[verifier::rlimit(40)]
proof fn lemma_range_products(l: LookupView)
    requires
        l == range_lookup(),
    ensures
        ext_degree(below(l, 0, 0)) == 0,
        ext_degree(below(l, 0, 1)) == 1,
        ext_degree(below(l, 0, 2)) == 2,
        ext_degree(above(l, 0, 2)) == 0,
        ext_degree(above(l, 0, 1)) == 1,
{
    reveal_with_fuel(degree, 3);
    reveal_with_fuel(combined, 2);
    reveal_with_fuel(ext_degree, 6);
    assert(ext_degree(denominator(l, 0, 0)) == 1);
    assert(ext_degree(denominator(l, 0, 1)) == 1);
    assert(ext_degree(below(l, 0, 0)) == 0);
    assert(ext_degree(below(l, 0, 1)) == 1);
    assert(ext_degree(above(l, 0, 2)) == 0);
}

/// The degree of the range check's numerator.
#[verifier::spinoff_prover]
#[verifier::rlimit(40)]
proof fn lemma_range_numerator(l: LookupView)
    requires
        l == range_lookup(),
    ensures
        ext_degree(numerator(l, 0, 2)) == 2,
{
    lemma_range_products(l);
    reveal_with_fuel(degree, 3);
    reveal_with_fuel(ext_degree, 4);
    assert(ext_degree(numerator(l, 0, 0)) == 0);
    assert(ext_degree(numerator(l, 0, 1)) == 1);
}

/// The degree of the range check's fraction.
#[verifier::spinoff_prover]
#[verifier::rlimit(40)]
proof fn lemma_range_fraction(l: LookupView)
    requires
        l == range_lookup(),
    ensures
        ext_degree(fraction_constraint(l, 0)) == 3,
{
    lemma_range_products(l);
    lemma_range_numerator(l);
    reveal_with_fuel(ext_degree, 4);
}

/// The degrees of the range check's constraints.
#[verifier::spinoff_prover]
#[verifier::rlimit(40)]
proof fn lemma_range_degrees(l: LookupView)
    requires
        l == range_lookup(),
    ensures
        ext_degree(fraction_constraint(l, 0)) == 3,
        ext_degree(accumulator_constraints(1)[0]) == 2,
        ext_degree(accumulator_constraints(1)[1]) == 1,
        ext_degree(accumulator_constraints(1)[2]) == 2,
{
    lemma_range_fraction(l);
    reveal_with_fuel(fraction_sum, 2);
    reveal_with_fuel(ext_degree, 6);
}

} // verus!
