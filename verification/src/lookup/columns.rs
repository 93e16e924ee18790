//! The aux columns of a trace: per lookup the fractions of its rows, and their running sum.

use p3_air::symbolic::{BaseEntry, BaseLeaf, SymbolicExpr, SymbolicVariable};
use p3_challenger::DuplexChallenger;
use p3_commit::ExtensionMmcs;
use p3_dft::Radix2DitParallel;
use p3_field::extension::BinomialExtensionField;
use p3_field::{BasedVectorSpace, Field, PrimeField64};
use p3_fri::TwoAdicFriPcs;
use p3_goldilocks::{Goldilocks, Poseidon2Goldilocks};
use p3_lookup::{Kind, LogUpGadget, Lookup as Argument, LookupProtocol};
use p3_matrix::dense::RowMajorMatrix;
use p3_merkle_tree::MerkleTreeMmcs;
use p3_symmetric::{PaddingFreeSponge, TruncatedPermutation};
use p3_uni_stark::StarkConfig;
use vstd::prelude::*;

use crate::expr::{constant, evaluate, lemma_value_canonical, value, within, Window, WindowRef, Wire};
use crate::field::{f_red, x_add, x_base, x_inv, x_mul, x_same, x_sub, x_zero, Ext};
use crate::fri::merkle::contents;
use crate::lookup::air::{lookup_shaped, lookup_views, Lookup, LookupAir, LookupView, SystemView};
use crate::lookup::quotient::rows_of;

verus! {

/// A column of a trace as the gadget reads it.
pub type Column = SymbolicExpr<BaseLeaf<Goldilocks>>;

#[verifier::external_type_specification]
#[verifier::external_body]
#[verifier::reject_recursive_types(A)]
pub struct ExSymbolicExpr<A>(SymbolicExpr<A>);

#[verifier::external_type_specification]
#[verifier::external_body]
#[verifier::reject_recursive_types(F)]
pub struct ExBaseLeaf<F>(BaseLeaf<F>);

#[verifier::external_type_specification]
#[verifier::external_body]
pub struct ExGoldilocks(Goldilocks);

/// The place of a column in the row.
pub uninterp spec fn column_of(e: Column) -> usize;

/// `SymbolicVariable::new` of `p3_air`, lifted to an expression: the column at a place of the current row.
#[verifier::external_body]
fn column_at(i: usize) -> (r: Column)
    ensures
        column_of(r) == i,
{
    SymbolicVariable::new(BaseEntry::Main { offset: 0 }, i).into()
}

/// The columns `tuple` of a row, combined under powers of `beta`, the last with power zero.
pub open spec fn row_combined(row: Seq<u64>, tuple: Seq<Column>, beta: Ext, n: nat) -> Ext
    decreases n,
{
    if n == 0 {
        x_zero()
    } else {
        x_add(x_base(row[column_of(tuple[n - 1]) as int]), x_mul(row_combined(row, tuple, beta, (n - 1) as nat), beta))
    }
}

/// The denominator of a tuple of columns: `alpha` less the combined tuple.
pub open spec fn row_denominator(row: Seq<u64>, tuple: Seq<Column>, alpha: Ext, beta: Ext) -> Ext {
    x_sub(alpha, row_combined(row, tuple, beta, tuple.len()))
}

/// One tuple's fraction: the multiplicity over the denominator, zero for a multiplicity of zero.
pub open spec fn row_term(row: Seq<u64>, tuple: Seq<Column>, mult: Column, alpha: Ext, beta: Ext) -> Ext {
    x_mul(x_inv(row_denominator(row, tuple, alpha, beta)), x_base(row[column_of(mult) as int]))
}

/// The fraction of a lookup on a row: the sum over its first `n` tuples.
pub open spec fn row_fraction(
    row: Seq<u64>,
    tuples: Seq<Vec<Column>>,
    mults: Seq<Column>,
    alpha: Ext,
    beta: Ext,
    n: nat,
) -> Ext
    decreases n,
{
    if n == 0 {
        x_zero()
    } else {
        x_add(
            row_fraction(row, tuples, mults, alpha, beta, (n - 1) as nat),
            row_term(row, tuples[n - 1]@, mults[n - 1], alpha, beta),
        )
    }
}

/// The lookups as columns of a trace: per lookup the columns of its tuples and of their multiplicities.
pub struct Places {
    pub elements: Vec<Vec<Vec<Column>>>,
    pub multiplicities: Vec<Vec<Column>>,
}

/// The fraction of lookup `k` on a row.
pub open spec fn place_fraction(p: Places, row: Seq<u64>, challenges: Seq<Ext>, k: int) -> Ext {
    row_fraction(
        row,
        p.elements@[k]@,
        p.multiplicities@[k]@,
        challenges[2 * k],
        challenges[2 * k + 1],
        p.elements@[k]@.len(),
    )
}

/// The sum of the first `n` fractions of a row.
pub open spec fn place_total(p: Places, row: Seq<u64>, challenges: Seq<Ext>, n: nat) -> Ext
    decreases n,
{
    if n == 0 {
        x_zero()
    } else {
        x_add(place_total(p, row, challenges, (n - 1) as nat), place_fraction(p, row, challenges, n - 1))
    }
}

/// The sum of all fractions of the first `n` rows.
pub open spec fn place_sum(p: Places, cells: Seq<u64>, width: nat, challenges: Seq<Ext>, n: nat) -> Ext
    decreases n,
{
    if n == 0 {
        x_zero()
    } else {
        x_add(
            place_sum(p, cells, width, challenges, (n - 1) as nat),
            place_total(p, row_of_cells(cells, width, n - 1), challenges, p.elements@.len()),
        )
    }
}

/// The places lie in rows of `width` columns, every tuple with its multiplicity.
pub open spec fn places_ok(p: Places, width: nat) -> bool {
    &&& p.elements@.len() == p.multiplicities@.len()
    &&& forall|k: int| 0 <= k < p.elements@.len() ==> (#[trigger] p.elements@[k])@.len() == p.multiplicities@[k]@.len()
    &&& forall|k: int, j: int|
        0 <= k < p.elements@.len() && 0 <= j < p.elements@[k]@.len() ==> {
            &&& column_of(#[trigger] p.multiplicities@[k]@[j]) < width
            &&& forall|i: int|
                0 <= i < p.elements@[k]@[j]@.len() ==> column_of(#[trigger] p.elements@[k]@[j]@[i]) < width
        }
}

/// On a row no tuple that counts has the denominator zero.
pub open spec fn row_inverts(p: Places, row: Seq<u64>, challenges: Seq<Ext>) -> bool {
    forall|k: int, j: int|
        0 <= k < p.elements@.len() && 0 <= j < p.elements@[k]@.len() && f_red(
            row[column_of(#[trigger] p.multiplicities@[k]@[j]) as int] as int,
        ) != 0 ==> !x_same(
            row_denominator(row, p.elements@[k]@[j]@, challenges[2 * k], challenges[2 * k + 1]),
            x_zero(),
        )
}

type Extension = BinomialExtensionField<Goldilocks, 2>;

type Tree = MerkleTreeMmcs<
    <Goldilocks as Field>::Packing,
    <Goldilocks as Field>::Packing,
    PaddingFreeSponge<Poseidon2Goldilocks<8>, 8, 4, 4>,
    TruncatedPermutation<Poseidon2Goldilocks<8>, 2, 4, 8>,
    2,
    4,
>;

type Scheme = TwoAdicFriPcs<Goldilocks, Radix2DitParallel<Goldilocks>, Tree, ExtensionMmcs<Goldilocks, Extension, Tree>>;

type Config = StarkConfig<Scheme, Extension, DuplexChallenger<Goldilocks, Poseidon2Goldilocks<8>, 8, 4>>;

/// The cells of rows of `width` columns, row by row.
pub open spec fn row_of_cells(cells: Seq<u64>, width: nat, i: int) -> Seq<u64> {
    cells.subrange(i * width, i * width + width)
}

/// Felt `2 j` and the next one, as an element of the extension.
pub open spec fn ext_at(felts: Seq<u64>, j: int) -> Ext {
    Ext { c0: felts[2 * j], c1: felts[2 * j + 1] }
}

/// A run of felts as elements of the extension.
pub open spec fn exts_of(felts: Seq<u64>, n: nat) -> Seq<Ext> {
    Seq::new(n, |j: int| ext_at(felts, j))
}

/// The felts of the aux rows of `h` rows, and behind them those of the terminal.
pub open spec fn is_logup(p: Places, cells: Seq<u64>, width: nat, drawn: Seq<Ext>, h: nat, r: Seq<u64>) -> bool {
    let n = p.elements@.len() as int;
    &&& r.len() == 2 * (h * (n + 1)) + 2
    &&& forall|i: int, k: int|
        0 <= i < h && 0 <= k < n ==> #[trigger] ext_at(r, i * (n + 1) + (k + 1)) == place_fraction(
            p,
            row_of_cells(cells, width, i),
            drawn,
            k,
        )
    &&& forall|i: int|
        0 <= i < h ==> #[trigger] ext_at(r, i * (n + 1)) == place_sum(p, cells, width, drawn, i as nat)
    &&& ext_at(r, h * (n + 1)) == place_sum(p, cells, width, drawn, h)
}

/// `LookupProtocol::generate_permutation` of `p3_lookup::LogUpGadget`, on lookups whose expressions are columns of the
/// rows, without a preprocessed trace and without public values. The aux rows come back felt by felt, and behind them
/// the terminal. Cell `k + 1` of an aux row is the fraction of lookup `k` on that row, cell 0 the sum of all fractions
/// of the rows before it, and the terminal the sum of all. It panics on a denominator that is zero under a multiplicity
/// that is not.
#[verifier::external_body]
fn logup_columns(p: Places, cells: Vec<u64>, width: usize, challenges: Vec<u64>) -> (r: Vec<u64>)
    requires
        p.elements@.len() >= 1,
        width >= 1,
        cells@.len() >= width,
        cells@.len() % (width as nat) == 0,
        places_ok(p, width as nat),
        challenges@.len() == 4 * p.elements@.len(),
        forall|i: int|
            0 <= i < cells@.len() / (width as nat) ==> row_inverts(
                p,
                #[trigger] row_of_cells(cells@, width as nat, i),
                exts_of(challenges@, (2 * p.elements@.len()) as nat),
            ),
    ensures
        is_logup(
            p,
            cells@,
            width as nat,
            exts_of(challenges@, (2 * p.elements@.len()) as nat),
            cells@.len() / (width as nat),
            r@,
        ),
{
    let lookups: Vec<_> = p.elements.into_iter().zip(p.multiplicities).enumerate().map(|(column, (elements, multiplicities))|
        Argument { kind: Kind::Local, elements, multiplicities, count_weight: 0, column }
    ).collect();
    let main = RowMajorMatrix::new(cells.into_iter().map(Goldilocks::new).collect(), width);
    let drawn = Extension::reconstitute_from_base(challenges.into_iter().map(Goldilocks::new).collect());
    let (aux, end) = LogUpGadget::new().generate_permutation::<Config>(&main, &None, &[], &lookups, &drawn);
    let all = [aux.values, vec![end.unwrap().0]].concat();
    Extension::flatten_to_base(all).iter().map(Goldilocks::as_canonical_u64).collect()
}

/// What the expressions of a lookup read on row `r` of a trace: the row pair around the end, the public values, and the
/// selectors of the row.
pub open spec fn aux_window(main: Seq<Seq<u64>>, pis: Seq<u64>, r: int) -> Window {
    let h = main.len() as int;
    Window {
        cur: main[r],
        nxt: main[(r + 1) % h],
        periodic: Seq::empty(),
        publics: pis,
        is_first: if r == 0 {
            1
        } else {
            0
        },
        is_last: if r == h - 1 {
            1
        } else {
            0
        },
        is_transition: if r == h - 1 {
            0
        } else {
            1
        },
    }
}

/// The first `n` entries of a tuple at a window, combined under powers of `beta`.
pub open spec fn aux_combined(tuple: Seq<Wire>, beta: Ext, w: Window, n: nat) -> Ext
    decreases n,
{
    if n == 0 {
        x_zero()
    } else {
        x_add(x_base(value(tuple[n - 1], w)), x_mul(aux_combined(tuple, beta, w, (n - 1) as nat), beta))
    }
}

/// The denominator of tuple `j` of lookup `k` at a window.
pub open spec fn aux_denominator(l: LookupView, w: Window, challenges: Seq<Ext>, k: int, j: int) -> Ext {
    x_sub(challenges[2 * k], aux_combined(l.elements[j], challenges[2 * k + 1], w, l.elements[j].len()))
}

/// The fraction of lookup `k` at a window: multiplicity over denominator, summed over its first `n` tuples.
pub open spec fn aux_fraction(l: LookupView, w: Window, challenges: Seq<Ext>, k: int, n: nat) -> Ext
    decreases n,
{
    if n == 0 {
        x_zero()
    } else {
        x_add(
            aux_fraction(l, w, challenges, k, (n - 1) as nat),
            x_mul(x_inv(aux_denominator(l, w, challenges, k, n - 1)), x_base(value(l.multiplicities[n - 1], w))),
        )
    }
}

/// The sum of the fractions of the first `n` lookups at a window.
pub open spec fn aux_total(ls: Seq<LookupView>, w: Window, challenges: Seq<Ext>, n: nat) -> Ext
    decreases n,
{
    if n == 0 {
        x_zero()
    } else {
        x_add(
            aux_total(ls, w, challenges, (n - 1) as nat),
            aux_fraction(ls[n - 1], w, challenges, n - 1, ls[n - 1].elements.len()),
        )
    }
}

/// The sum of all fractions of the first `n` rows of a trace.
pub open spec fn aux_sum(ls: Seq<LookupView>, main: Seq<Seq<u64>>, pis: Seq<u64>, challenges: Seq<Ext>, n: nat) -> Ext
    decreases n,
{
    if n == 0 {
        x_zero()
    } else {
        x_add(
            aux_sum(ls, main, pis, challenges, (n - 1) as nat),
            aux_total(ls, aux_window(main, pis, n - 1), challenges, ls.len()),
        )
    }
}

/// The expressions of a lookup read a row pair and the public values, and no periodic column.
pub open spec fn lookup_resolves(l: LookupView, width: int, pubs: int) -> bool {
    &&& lookup_shaped(l)
    &&& forall|j: int| 0 <= j < l.multiplicities.len() ==> within(#[trigger] l.multiplicities[j], width, 0, pubs)
    &&& forall|j: int, i: int|
        0 <= j < l.elements.len() && 0 <= i < l.elements[j].len() ==> within(#[trigger] l.elements[j][i], width, 0, pubs)
}

/// At a window no tuple that counts has the denominator zero.
pub open spec fn aux_inverts(ls: Seq<LookupView>, w: Window, challenges: Seq<Ext>) -> bool {
    forall|k: int, j: int|
        0 <= k < ls.len() && 0 <= j < ls[k].elements.len() && value(#[trigger] ls[k].multiplicities[j], w) != 0
            ==> !x_same(aux_denominator(ls[k], w, challenges, k, j), x_zero())
}

/// The columns `tuple` hold the expressions `es`.
spec fn tuple_placed(tuple: Seq<Column>, es: Seq<Wire>, columns: Seq<Wire>) -> bool {
    &&& tuple.len() == es.len()
    &&& forall|i: int| 0 <= i < tuple.len() ==> column_of(#[trigger] tuple[i]) < columns.len() && columns[column_of(tuple[i]) as int] == es[i]
}

/// The places of a lookup hold its expressions.
spec fn lookup_placed(tuples: Seq<Vec<Column>>, mults: Seq<Column>, l: LookupView, columns: Seq<Wire>) -> bool {
    &&& tuples.len() == l.elements.len()
    &&& forall|j: int| 0 <= j < tuples.len() ==> tuple_placed((#[trigger] tuples[j])@, l.elements[j], columns)
    &&& tuple_placed(mults, l.multiplicities, columns)
}

/// Columns stay where they are when more are appended.
proof fn lemma_tuple_stays(tuple: Seq<Column>, es: Seq<Wire>, a: Seq<Wire>, b: Seq<Wire>)
    requires
        tuple_placed(tuple, es, a),
        a.is_prefix_of(b),
    ensures
        tuple_placed(tuple, es, b),
{
    assert forall|i: int| 0 <= i < tuple.len() implies column_of(#[trigger] tuple[i]) < b.len() && b[column_of(tuple[i]) as int] == es[i] by {
        assert(a[column_of(tuple[i]) as int] == b[column_of(tuple[i]) as int]);
    }
}

proof fn lemma_lookup_stays(
    tuples: Seq<Vec<Column>>,
    mults: Seq<Column>,
    l: LookupView,
    a: Seq<Wire>,
    b: Seq<Wire>,
)
    requires
        lookup_placed(tuples, mults, l, a),
        a.is_prefix_of(b),
    ensures
        lookup_placed(tuples, mults, l, b),
{
    assert forall|j: int| 0 <= j < tuples.len() implies tuple_placed((#[trigger] tuples[j])@, l.elements[j], b) by {
        lemma_tuple_stays(tuples[j]@, l.elements[j], a, b);
    }
    lemma_tuple_stays(mults, l.multiplicities, a, b);
}

/// Every expression reads a row pair of `width` columns and `pubs` public values.
spec fn all_within(es: Seq<Wire>, width: int, pubs: int) -> bool {
    forall|c: int| 0 <= c < es.len() ==> within(#[trigger] es[c], width, 0, pubs)
}

/// Append the expressions of a tuple as columns; their places come back.
fn place_tuple(columns: &mut Vec<Wire>, es: &Vec<Wire>, Ghost(width): Ghost<int>, Ghost(pubs): Ghost<int>) -> (tuple: Vec<Column>)
    requires
        all_within(old(columns)@, width, pubs),
        all_within(es@, width, pubs),
    ensures
        old(columns)@.is_prefix_of(final(columns)@),
        tuple_placed(tuple@, es@, final(columns)@),
        all_within(final(columns)@, width, pubs),
{
    let ghost before = columns@;
    let mut tuple: Vec<Column> = Vec::new();
    let mut i: usize = 0;
    while i < es.len()
        invariant
            i <= es@.len(),
            before.is_prefix_of(columns@),
            tuple_placed(tuple@, es@.take(i as int), columns@),
            all_within(columns@, width, pubs),
            all_within(es@, width, pubs),
        decreases es.len() - i,
    {
        let ghost last = columns@;
        let ghost so_far = tuple@;
        tuple.push(column_at(columns.len()));
        columns.push(es[i].clone());
        proof {
            lemma_tuple_stays(so_far, es@.take(i as int), last, columns@);
            assert(es@.take(i + 1) =~= es@.take(i as int).push(es@[i as int]));
        }
        i += 1;
    }
    assert(es@.take(i as int) =~= es@);
    tuple
}

/// Append the expressions of a lookup as columns; their places come back.
fn place_lookup(columns: &mut Vec<Wire>, l: &Lookup, Ghost(width): Ghost<int>, Ghost(pubs): Ghost<int>) -> (r: (
    Vec<Vec<Column>>,
    Vec<Column>,
))
    requires
        all_within(old(columns)@, width, pubs),
        lookup_resolves(l@, width, pubs),
    ensures
        old(columns)@.is_prefix_of(final(columns)@),
        lookup_placed(r.0@, r.1@, l@, final(columns)@),
        all_within(final(columns)@, width, pubs),
{
    let ghost before = columns@;
    let mut tuples: Vec<Vec<Column>> = Vec::new();
    let mut j: usize = 0;
    assert(l@.elements.len() == l.elements@.len());
    while j < l.elements.len()
        invariant
            j <= l.elements@.len(),
            l@.elements.len() == l.elements@.len(),
            lookup_resolves(l@, width, pubs),
            before.is_prefix_of(columns@),
            all_within(columns@, width, pubs),
            tuples@.len() == j,
            forall|k: int|
                0 <= k < j ==> tuple_placed((#[trigger] tuples@[k])@, l@.elements[k], columns@),
        decreases l.elements.len() - j,
    {
        let ghost last = columns@;
        assert(l@.elements[j as int] == l.elements@[j as int]@);
        assert(all_within(l.elements@[j as int]@, width, pubs)) by {
            assert forall|c: int| 0 <= c < l.elements@[j as int]@.len() implies within(
                #[trigger] l.elements@[j as int]@[c],
                width,
                0,
                pubs,
            ) by {
                assert(within(l@.elements[j as int][c], width, 0, pubs));
            }
        }
        let tuple: Vec<Column> = place_tuple(columns, &l.elements[j], Ghost(width), Ghost(pubs));
        proof {
            assert forall|k: int| 0 <= k < j implies tuple_placed((#[trigger] tuples@[k])@, l@.elements[k], columns@) by {
                lemma_tuple_stays(tuples@[k]@, l@.elements[k], last, columns@);
            }
        }
        tuples.push(tuple);
        j += 1;
    }
    let ghost last = columns@;
    assert(all_within(l.multiplicities@, width, pubs));
    let mults: Vec<Column> = place_tuple(columns, &l.multiplicities, Ghost(width), Ghost(pubs));
    proof {
        assert forall|k: int| 0 <= k < tuples@.len() implies tuple_placed(
            (#[trigger] tuples@[k])@,
            l@.elements[k],
            columns@,
        ) by {
            lemma_tuple_stays(tuples@[k]@, l@.elements[k], last, columns@);
        }
    }
    (tuples, mults)
}

/// The places of the first lookups hold their expressions.
spec fn places_hold(p: Places, ls: Seq<LookupView>, columns: Seq<Wire>, n: int) -> bool {
    &&& p.elements@.len() == n
    &&& p.multiplicities@.len() == n
    &&& forall|k: int|
        0 <= k < n ==> lookup_placed((#[trigger] p.elements@[k])@, p.multiplicities@[k]@, ls[k], columns)
}

/// All expressions of the lookups as columns behind a zero one, and their places.
fn place_lookups(ls: &Vec<Lookup>, Ghost(width): Ghost<int>, Ghost(pubs): Ghost<int>) -> (r: (Places, Vec<Wire>))
    requires
        forall|k: int| 0 <= k < ls@.len() ==> lookup_resolves(#[trigger] lookup_views(ls@)[k], width, pubs),
    ensures
        places_hold(r.0, lookup_views(ls@), r.1@, ls@.len() as int),
        all_within(r.1@, width, pubs),
        r.1@.len() >= 1,
{
    let mut columns: Vec<Wire> = Vec::new();
    columns.push(constant(0));
    let mut p: Places = Places { elements: Vec::new(), multiplicities: Vec::new() };
    let mut k: usize = 0;
    assert(all_within(columns@, width, pubs));
    while k < ls.len()
        invariant
            k <= ls@.len(),
            forall|i: int| 0 <= i < ls@.len() ==> lookup_resolves(#[trigger] lookup_views(ls@)[i], width, pubs),
            places_hold(p, lookup_views(ls@), columns@, k as int),
            all_within(columns@, width, pubs),
            columns@.len() >= 1,
        decreases ls.len() - k,
    {
        let ghost last = columns@;
        let ghost so_far = p;
        assert(lookup_views(ls@)[k as int] == ls@[k as int]@);
        let (tuples, mults): (Vec<Vec<Column>>, Vec<Column>) = place_lookup(
            &mut columns,
            &ls[k],
            Ghost(width),
            Ghost(pubs),
        );
        p.elements.push(tuples);
        p.multiplicities.push(mults);
        proof {
            assert forall|i: int| 0 <= i < k + 1 implies lookup_placed(
                (#[trigger] p.elements@[i])@,
                p.multiplicities@[i]@,
                lookup_views(ls@)[i],
                columns@,
            ) by {
                if i < k {
                    assert(so_far.elements@[i] == p.elements@[i]);
                    lemma_lookup_stays(p.elements@[i]@, p.multiplicities@[i]@, lookup_views(ls@)[i], last, columns@);
                }
            }
        }
        k += 1;
    }
    (p, columns)
}

/// The columns of a row, at its window.
spec fn columns_value(columns: Seq<Wire>, w: Window) -> Seq<u64> {
    Seq::new(columns.len(), |c: int| value(columns[c], w))
}

/// The window of a row.
fn window_of<'a>(main: &'a Vec<Vec<u64>>, pis: &'a Vec<u64>, none: &'a Vec<u64>, r: usize) -> (w: WindowRef<'a>)
    requires
        r < main@.len(),
        none@.len() == 0,
        rows_of(main@, main@[0]@.len()),
    ensures
        w.view() == aux_window(contents(main@), pis@, r as int),
        w.cur@.len() == main@[0]@.len(),
        w.nxt@.len() == main@[0]@.len(),
        w.periodic@.len() == 0,
        w.publics@.len() == pis@.len(),
{
    let h: usize = main.len();
    let next: usize = if r + 1 == h {
        0
    } else {
        r + 1
    };
    let win: WindowRef = WindowRef {
        cur: main[r].as_slice(),
        nxt: main[next].as_slice(),
        periodic: none.as_slice(),
        publics: pis.as_slice(),
        is_first: if r == 0 {
            1
        } else {
            0
        },
        is_last: if r + 1 == h {
            1
        } else {
            0
        },
        is_transition: if r + 1 == h {
            0
        } else {
            1
        },
    };
    proof {
        assert(main@[r as int]@.len() == main@[0]@.len() && main@[next as int]@.len() == main@[0]@.len());
        if r + 1 == h {
            vstd::arithmetic::div_mod::lemma_mod_self_0(h as int);
        } else {
            vstd::arithmetic::div_mod::lemma_small_mod((r + 1) as nat, h as nat);
        }
        assert(none@ =~= Seq::<u64>::empty());
        assert(win.view() =~= aux_window(contents(main@), pis@, r as int));
    }
    win
}

/// Row `i` of cells.
proof fn lemma_row_of_cells(cells: Seq<u64>, row: Seq<u64>, width: nat, i: nat)
    requires
        cells.len() == i * width,
        row.len() == width,
    ensures
        (cells + row).len() == (i + 1) * width,
        row_of_cells(cells + row, width, i as int) == row,
        forall|k: int|
            0 <= k < i ==> #[trigger] row_of_cells(cells + row, width, k) == row_of_cells(cells, width, k),
{
    assert((i + 1) * width == i * width + width) by (nonlinear_arith);
    assert(row_of_cells(cells + row, width, i as int) =~= row);
    assert forall|k: int| 0 <= k < i implies #[trigger] row_of_cells(cells + row, width, k) == row_of_cells(
        cells,
        width,
        k,
    ) by {
        assert(0 <= k * width && k * width + width <= i * width) by (nonlinear_arith)
            requires
                0 <= k,
                k + 1 <= i,
                0 <= width,
        ;
        assert(row_of_cells(cells + row, width, k) =~= row_of_cells(cells, width, k));
    }
}

/// The values of the columns on every row, row by row.
fn column_cells(columns: &Vec<Wire>, main: &Vec<Vec<u64>>, pis: &Vec<u64>) -> (cells: Vec<u64>)
    requires
        main@.len() >= 1,
        rows_of(main@, main@[0]@.len()),
        all_within(columns@, main@[0]@.len() as int, pis@.len() as int),
    ensures
        cells@.len() == main@.len() * columns@.len(),
        forall|r: int|
            0 <= r < main@.len() ==> #[trigger] row_of_cells(cells@, columns@.len(), r) == columns_value(
                columns@,
                aux_window(contents(main@), pis@, r),
            ),
{
    let none: Vec<u64> = Vec::new();
    let h: usize = main.len();
    let mut cells: Vec<u64> = Vec::new();
    let mut r: usize = 0;
    assert(0 * columns@.len() == 0) by (nonlinear_arith);
    while r < h
        invariant
            r <= h,
            h == main@.len(),
            none@.len() == 0,
            rows_of(main@, main@[0]@.len()),
            all_within(columns@, main@[0]@.len() as int, pis@.len() as int),
            cells@.len() == r * columns@.len(),
            forall|k: int|
                0 <= k < r ==> #[trigger] row_of_cells(cells@, columns@.len(), k) == columns_value(
                    columns@,
                    aux_window(contents(main@), pis@, k),
                ),
        decreases h - r,
    {
        let win: WindowRef = window_of(main, pis, &none, r);
        let ghost w = win.view();
        let ghost before = cells@;
        let mut c: usize = 0;
        while c < columns.len()
            invariant
                c <= columns@.len(),
                win.view() == w,
                win.cur@.len() == main@[0]@.len(),
                win.nxt@.len() == main@[0]@.len(),
                win.periodic@.len() == 0,
                win.publics@.len() == pis@.len(),
                all_within(columns@, main@[0]@.len() as int, pis@.len() as int),
                cells@ =~= before + columns_value(columns@, w).take(c as int),
            decreases columns.len() - c,
        {
            cells.push(evaluate(&columns[c], &win));
            c += 1;
        }
        proof {
            assert(columns_value(columns@, w).take(c as int) =~= columns_value(columns@, w));
            lemma_row_of_cells(before, columns_value(columns@, w), columns@.len(), r as nat);
        }
        r += 1;
    }
    cells
}

/// A combined tuple of columns is that of their expressions.
proof fn lemma_combined(tuple: Seq<Column>, es: Seq<Wire>, columns: Seq<Wire>, w: Window, beta: Ext, n: nat)
    requires
        tuple_placed(tuple, es, columns),
        n <= tuple.len(),
    ensures
        row_combined(columns_value(columns, w), tuple, beta, n) == aux_combined(es, beta, w, n),
    decreases n,
{
    if n > 0 {
        lemma_combined(tuple, es, columns, w, beta, (n - 1) as nat);
        assert(column_of(tuple[n - 1]) < columns.len());
    }
}

/// A fraction of columns is that of their expressions.
proof fn lemma_fraction(
    tuples: Seq<Vec<Column>>,
    mults: Seq<Column>,
    l: LookupView,
    columns: Seq<Wire>,
    w: Window,
    challenges: Seq<Ext>,
    k: int,
    n: nat,
)
    requires
        lookup_placed(tuples, mults, l, columns),
        lookup_shaped(l),
        n <= tuples.len(),
    ensures
        row_fraction(columns_value(columns, w), tuples, mults, challenges[2 * k], challenges[2 * k + 1], n)
            == aux_fraction(l, w, challenges, k, n),
    decreases n,
{
    if n > 0 {
        lemma_fraction(tuples, mults, l, columns, w, challenges, k, (n - 1) as nat);
        let j = n - 1;
        assert(tuple_placed(tuples[j]@, l.elements[j], columns));
        lemma_combined(tuples[j]@, l.elements[j], columns, w, challenges[2 * k + 1], tuples[j]@.len());
        assert(column_of(mults[j]) < columns.len());
    }
}

/// The fractions of a row of columns, one by one and summed, are those of the lookups.
proof fn lemma_total(p: Places, ls: Seq<LookupView>, columns: Seq<Wire>, w: Window, challenges: Seq<Ext>, n: nat)
    requires
        places_hold(p, ls, columns, ls.len() as int),
        forall|k: int| 0 <= k < ls.len() ==> lookup_shaped(#[trigger] ls[k]),
        n <= ls.len(),
    ensures
        place_total(p, columns_value(columns, w), challenges, n) == aux_total(ls, w, challenges, n),
        forall|k: int|
            0 <= k < n ==> #[trigger] place_fraction(p, columns_value(columns, w), challenges, k) == aux_fraction(
                ls[k],
                w,
                challenges,
                k,
                ls[k].elements.len(),
            ),
    decreases n,
{
    if n > 0 {
        lemma_total(p, ls, columns, w, challenges, (n - 1) as nat);
        let k = n - 1;
        assert(lookup_placed(p.elements@[k]@, p.multiplicities@[k]@, ls[k], columns));
        lemma_fraction(
            p.elements@[k]@,
            p.multiplicities@[k]@,
            ls[k],
            columns,
            w,
            challenges,
            k,
            p.elements@[k]@.len(),
        );
    }
}

/// The running sum over rows of columns is that over the trace.
proof fn lemma_sum(
    p: Places,
    ls: Seq<LookupView>,
    columns: Seq<Wire>,
    cells: Seq<u64>,
    main: Seq<Seq<u64>>,
    pis: Seq<u64>,
    challenges: Seq<Ext>,
    n: nat,
)
    requires
        places_hold(p, ls, columns, ls.len() as int),
        forall|k: int| 0 <= k < ls.len() ==> lookup_shaped(#[trigger] ls[k]),
        forall|r: int|
            0 <= r < n ==> #[trigger] row_of_cells(cells, columns.len(), r) == columns_value(
                columns,
                aux_window(main, pis, r),
            ),
    ensures
        place_sum(p, cells, columns.len(), challenges, n) == aux_sum(ls, main, pis, challenges, n),
    decreases n,
{
    if n > 0 {
        lemma_sum(p, ls, columns, cells, main, pis, challenges, (n - 1) as nat);
        lemma_total(p, ls, columns, aux_window(main, pis, n - 1), challenges, ls.len());
        assert(row_of_cells(cells, columns.len(), n - 1) == columns_value(columns, aux_window(main, pis, n - 1)));
    }
}

/// The columns of a row invert where the lookups do.
proof fn lemma_inverts(p: Places, ls: Seq<LookupView>, columns: Seq<Wire>, w: Window, challenges: Seq<Ext>)
    requires
        places_hold(p, ls, columns, ls.len() as int),
        forall|k: int| 0 <= k < ls.len() ==> lookup_shaped(#[trigger] ls[k]),
    ensures
        row_inverts(p, columns_value(columns, w), challenges) <==> aux_inverts(ls, w, challenges),
{
    let row = columns_value(columns, w);
    assert forall|k: int, j: int| 0 <= k < ls.len() && 0 <= j < ls[k].elements.len() implies {
        &&& p.elements@[k]@.len() == ls[k].elements.len()
        &&& f_red(row[column_of(#[trigger] p.multiplicities@[k]@[j]) as int] as int) == value(ls[k].multiplicities[j], w)
        &&& row_denominator(row, p.elements@[k]@[j]@, challenges[2 * k], challenges[2 * k + 1]) == aux_denominator(
            ls[k],
            w,
            challenges,
            k,
            j,
        )
    } by {
        lemma_counted(p, ls, columns, w, challenges, k, j);
    }
    if row_inverts(p, row, challenges) {
        assert forall|k: int, j: int|
            0 <= k < ls.len() && 0 <= j < ls[k].elements.len() && value(#[trigger] ls[k].multiplicities[j], w)
                != 0 implies !x_same(aux_denominator(ls[k], w, challenges, k, j), x_zero()) by {
            lemma_counted(p, ls, columns, w, challenges, k, j);
            assert(f_red(row[column_of(p.multiplicities@[k]@[j]) as int] as int) != 0);
        }
    }
    if aux_inverts(ls, w, challenges) {
        assert forall|k: int, j: int|
            0 <= k < p.elements@.len() && 0 <= j < p.elements@[k]@.len() && f_red(
                row[column_of(#[trigger] p.multiplicities@[k]@[j]) as int] as int,
            ) != 0 implies !x_same(
            row_denominator(row, p.elements@[k]@[j]@, challenges[2 * k], challenges[2 * k + 1]),
            x_zero(),
        ) by {
            assert(lookup_placed(p.elements@[k]@, p.multiplicities@[k]@, ls[k], columns));
            lemma_counted(p, ls, columns, w, challenges, k, j);
            assert(value(ls[k].multiplicities[j], w) != 0);
        }
    }
}

/// The multiplicity and the denominator of a tuple of columns are those of its expressions.
proof fn lemma_counted(
    p: Places,
    ls: Seq<LookupView>,
    columns: Seq<Wire>,
    w: Window,
    challenges: Seq<Ext>,
    k: int,
    j: int,
)
    requires
        places_hold(p, ls, columns, ls.len() as int),
        forall|i: int| 0 <= i < ls.len() ==> lookup_shaped(#[trigger] ls[i]),
        0 <= k < ls.len(),
        0 <= j < ls[k].elements.len(),
    ensures
        ({
            let row = columns_value(columns, w);
            &&& p.elements@[k]@.len() == ls[k].elements.len()
            &&& f_red(row[column_of(p.multiplicities@[k]@[j]) as int] as int) == value(ls[k].multiplicities[j], w)
            &&& row_denominator(row, p.elements@[k]@[j]@, challenges[2 * k], challenges[2 * k + 1]) == aux_denominator(
                ls[k],
                w,
                challenges,
                k,
                j,
            )
        }),
{
    let (tuples, mults) = (p.elements@[k]@, p.multiplicities@[k]@);
    assert(lookup_placed(tuples, mults, ls[k], columns));
    assert(tuple_placed(tuples[j]@, ls[k].elements[j], columns));
    assert(column_of(mults[j]) < columns.len());
    lemma_value_canonical(ls[k].multiplicities[j], w);
    lemma_combined(tuples[j]@, ls[k].elements[j], columns, w, challenges[2 * k + 1], tuples[j]@.len());
}

/// A tuple at a window, combined under powers of `beta`.
fn combine(tuple: &Vec<Wire>, beta: Ext, win: &WindowRef) -> (r: Ext)
    requires
        win.cur@.len() == win.nxt@.len(),
        win.periodic@.len() == 0,
        all_within(tuple@, win.cur@.len() as int, win.publics@.len() as int),
    ensures
        r == aux_combined(tuple@, beta, win.view(), tuple@.len()),
{
    let mut acc: Ext = Ext::zero();
    let mut i: usize = 0;
    while i < tuple.len()
        invariant
            i <= tuple@.len(),
            win.cur@.len() == win.nxt@.len(),
            win.periodic@.len() == 0,
            all_within(tuple@, win.cur@.len() as int, win.publics@.len() as int),
            acc == aux_combined(tuple@, beta, win.view(), i as nat),
        decreases tuple.len() - i,
    {
        acc = Ext::from_base(evaluate(&tuple[i], win)).plus(acc.times(beta));
        i += 1;
    }
    acc
}

/// Whether every tuple of a lookup that counts at a window has a denominator that is not zero.
fn lookup_inverts_now(l: &Lookup, alpha: Ext, beta: Ext, win: &WindowRef) -> (ok: bool)
    requires
        win.cur@.len() == win.nxt@.len(),
        win.periodic@.len() == 0,
        lookup_resolves(l@, win.cur@.len() as int, win.publics@.len() as int),
    ensures
        ok == forall|j: int|
            0 <= j < l@.elements.len() && value(#[trigger] l@.multiplicities[j], win.view()) != 0 ==> !x_same(
                x_sub(alpha, aux_combined(l@.elements[j], beta, win.view(), l@.elements[j].len())),
                x_zero(),
            ),
{
    assert(l@.elements.len() == l.elements@.len());
    let mut j: usize = 0;
    while j < l.elements.len()
        invariant
            j <= l.elements@.len(),
            l@.elements.len() == l.elements@.len(),
            win.cur@.len() == win.nxt@.len(),
            win.periodic@.len() == 0,
            lookup_resolves(l@, win.cur@.len() as int, win.publics@.len() as int),
            forall|i: int|
                0 <= i < j && value(#[trigger] l@.multiplicities[i], win.view()) != 0 ==> !x_same(
                    x_sub(alpha, aux_combined(l@.elements[i], beta, win.view(), l@.elements[i].len())),
                    x_zero(),
                ),
        decreases l.elements.len() - j,
    {
        let ghost (width, pubs) = (win.cur@.len() as int, win.publics@.len() as int);
        proof {
            assert(l@.elements[j as int] == l.elements@[j as int]@);
            assert(within(l@.multiplicities[j as int], width, 0, pubs));
            assert forall|c: int| 0 <= c < l.elements@[j as int]@.len() implies within(
                #[trigger] l.elements@[j as int]@[c],
                width,
                0,
                pubs,
            ) by {
                assert(within(l@.elements[j as int][c], width, 0, pubs));
            }
        }
        if evaluate(&l.multiplicities[j], win) != 0 {
            let d: Ext = alpha.minus(combine(&l.elements[j], beta, win));
            if d.same(Ext::zero()) {
                assert(value(l@.multiplicities[j as int], win.view()) != 0);
                return false;
            }
        }
        j += 1;
    }
    true
}

/// Whether every tuple that counts at a window has a denominator that is not zero.
fn inverts_now(ls: &Vec<Lookup>, challenges: &Vec<Ext>, win: &WindowRef) -> (ok: bool)
    requires
        challenges@.len() == 2 * ls@.len(),
        win.cur@.len() == win.nxt@.len(),
        win.periodic@.len() == 0,
        forall|k: int|
            0 <= k < ls@.len() ==> lookup_resolves(
                #[trigger] lookup_views(ls@)[k],
                win.cur@.len() as int,
                win.publics@.len() as int,
            ),
    ensures
        ok == aux_inverts(lookup_views(ls@), win.view(), challenges@),
{
    let drawn: usize = challenges.len();
    let ghost lv = lookup_views(ls@);
    let mut k: usize = 0;
    while k < ls.len()
        invariant
            k <= ls@.len(),
            lv == lookup_views(ls@),
            drawn == challenges@.len(),
            challenges@.len() == 2 * ls@.len(),
            win.cur@.len() == win.nxt@.len(),
            win.periodic@.len() == 0,
            forall|a: int|
                0 <= a < ls@.len() ==> lookup_resolves(
                    #[trigger] lookup_views(ls@)[a],
                    win.cur@.len() as int,
                    win.publics@.len() as int,
                ),
            forall|a: int, j: int|
                0 <= a < k && 0 <= j < lv[a].elements.len() && value(#[trigger] lv[a].multiplicities[j], win.view()) != 0
                    ==> !x_same(aux_denominator(lv[a], win.view(), challenges@, a, j), x_zero()),
        decreases ls.len() - k,
    {
        assert(lv[k as int] == ls@[k as int]@);
        if !lookup_inverts_now(&ls[k], challenges[2 * k], challenges[2 * k + 1], win) {
            proof {
                let l = lv[k as int];
                let j = choose|j: int|
                    0 <= j < l.elements.len() && value(#[trigger] l.multiplicities[j], win.view()) != 0 && x_same(
                        x_sub(
                            challenges@[2 * k as int],
                            aux_combined(l.elements[j], challenges@[2 * k as int + 1], win.view(), l.elements[j].len()),
                        ),
                        x_zero(),
                    );
                assert(value(lv[k as int].multiplicities[j], win.view()) != 0);
            }
            return false;
        }
        k += 1;
    }
    true
}

/// The places lie in the columns.
proof fn lemma_places_ok(p: Places, ls: Seq<LookupView>, columns: Seq<Wire>)
    requires
        places_hold(p, ls, columns, ls.len() as int),
        forall|k: int| 0 <= k < ls.len() ==> lookup_shaped(#[trigger] ls[k]),
    ensures
        places_ok(p, columns.len()),
{
    assert forall|k: int| 0 <= k < p.elements@.len() implies (#[trigger] p.elements@[k])@.len()
        == p.multiplicities@[k]@.len() by {
        assert(lookup_placed(p.elements@[k]@, p.multiplicities@[k]@, ls[k], columns));
    }
    assert forall|k: int, j: int| 0 <= k < p.elements@.len() && 0 <= j < p.elements@[k]@.len() implies {
        &&& column_of(#[trigger] p.multiplicities@[k]@[j]) < columns.len()
        &&& forall|i: int|
            0 <= i < p.elements@[k]@[j]@.len() ==> column_of(#[trigger] p.elements@[k]@[j]@[i]) < columns.len()
    } by {
        assert(lookup_placed(p.elements@[k]@, p.multiplicities@[k]@, ls[k], columns));
        assert(tuple_placed(p.elements@[k]@[j]@, ls[k].elements[j], columns));
    }
}

/// The aux columns of a trace: an aux row holds what the rows before it add up to, then the fraction of each lookup on
/// its row. The terminal is the sum of all fractions.
pub open spec fn is_aux(
    ls: Seq<LookupView>,
    main: Seq<Seq<u64>>,
    pis: Seq<u64>,
    challenges: Seq<Ext>,
    aux: Seq<Vec<Ext>>,
    terminal: Ext,
) -> bool {
    &&& aux.len() == main.len()
    &&& forall|i: int| 0 <= i < main.len() ==> (#[trigger] aux[i])@.len() == ls.len() + 1
    &&& forall|i: int, k: int|
        0 <= i < main.len() && 0 <= k < ls.len() ==> #[trigger] aux[i]@[k + 1] == aux_fraction(
            ls[k],
            aux_window(main, pis, i),
            challenges,
            k,
            ls[k].elements.len(),
        )
    &&& forall|i: int|
        0 <= i < main.len() ==> (#[trigger] aux[i])@[0] == aux_sum(ls, main, pis, challenges, i as nat)
    &&& terminal == aux_sum(ls, main, pis, challenges, main.len())
}

/// A trace has aux columns: it has rows of the system's width, and the lookups read within them and the public values.
pub open spec fn aux_ok(s: SystemView, main: Seq<Vec<u64>>, pis: Seq<u64>, challenges: Seq<Ext>) -> bool {
    &&& s.lookups.len() >= 1
    &&& main.len() >= 1
    &&& rows_of(main, s.width)
    &&& challenges.len() == 2 * s.lookups.len()
    &&& forall|k: int|
        0 <= k < s.lookups.len() ==> lookup_resolves(#[trigger] s.lookups[k], s.width as int, pis.len() as int)
}

/// No row has a tuple that counts with the denominator zero.
pub open spec fn aux_defined(s: SystemView, main: Seq<Seq<u64>>, pis: Seq<u64>, challenges: Seq<Ext>) -> bool {
    forall|i: int|
        0 <= i < main.len() ==> aux_inverts(s.lookups, #[trigger] aux_window(main, pis, i), challenges)
}

/// The aux columns of a trace under two challenges per lookup, and the terminal; nothing where a denominator is zero.
pub fn try_aux_columns<A: LookupAir>(air: &A, main: &Vec<Vec<u64>>, pis: &Vec<u64>, challenges: &Vec<Ext>) -> (r: Option<
    (Vec<Vec<Ext>>, Ext),
>)
    requires
        aux_ok(air.system(), main@, pis@, challenges@),
    ensures
        r is Some <==> aux_defined(air.system(), contents(main@), pis@, challenges@),
        r matches Some(a) ==> is_aux(air.system().lookups, contents(main@), pis@, challenges@, a.0@, a.1),
{
    let lookups: Vec<Lookup> = air.lookups();
    let ghost ls = air.system().lookups;
    let ghost (mv, n) = (contents(main@), main@.len());
    assert(lookup_views(lookups@).len() == lookups@.len());
    assert(main@[0]@.len() == air.system().width);
    let (p, columns): (Places, Vec<Wire>) = place_lookups(
        &lookups,
        Ghost(air.system().width as int),
        Ghost(pis@.len() as int),
    );
    proof {
        assert forall|k: int| 0 <= k < ls.len() implies lookup_shaped(#[trigger] ls[k]) by {
            assert(lookup_resolves(ls[k], air.system().width as int, pis@.len() as int));
        }
        lemma_places_ok(p, ls, columns@);
    }
    let none: Vec<u64> = Vec::new();
    let h: usize = main.len();
    let mut i: usize = 0;
    while i < h
        invariant
            i <= h == main@.len(),
            none@.len() == 0,
            lookup_views(lookups@) == ls,
            ls == air.system().lookups,
            mv == contents(main@),
            main@[0]@.len() == air.system().width,
            aux_ok(air.system(), main@, pis@, challenges@),
            lookups@.len() == ls.len(),
            forall|r: int| 0 <= r < i ==> aux_inverts(ls, #[trigger] aux_window(mv, pis@, r), challenges@),
        decreases h - i,
    {
        let win: WindowRef = window_of(main, pis, &none, i);
        if !inverts_now(&lookups, challenges, &win) {
            assert(!aux_inverts(ls, aux_window(mv, pis@, i as int), challenges@));
            return None;
        }
        i += 1;
    }
    let cells: Vec<u64> = column_cells(&columns, main, pis);
    let width: usize = columns.len();
    let flat: Vec<u64> = flat_exts(challenges);
    let ghost places = p;
    let ghost cv = cells@;
    let ghost drawn = exts_of(flat@, (2 * p.elements@.len()) as nat);
    proof {
        assert(drawn =~= challenges@);
        assert(cells@.len() == n * width);
        vstd::arithmetic::div_mod::lemma_fundamental_div_mod_converse(cells@.len() as int, width as int, n as int, 0);
        assert(1 * width <= n * width) by (nonlinear_arith)
            requires
                1 <= n,
                0 <= width,
        ;
        assert forall|i: int| 0 <= i < n implies row_inverts(p, #[trigger] row_of_cells(cells@, width as nat, i), drawn) by {
            lemma_inverts(p, ls, columns@, aux_window(mv, pis@, i), challenges@);
        }
    }
    let felts: Vec<u64> = logup_columns(p, cells, width, flat);
    proof {
        assert forall|i: int| 0 <= i <= n implies #[trigger] place_sum(places, cv, width as nat, drawn, i as nat) == aux_sum(
            ls,
            mv,
            pis@,
            challenges@,
            i as nat,
        ) by {
            lemma_sum(places, ls, columns@, cv, mv, pis@, challenges@, i as nat);
        }
        assert forall|i: int, k: int| 0 <= i < n && 0 <= k < ls.len() implies #[trigger] place_fraction(
            places,
            row_of_cells(cv, width as nat, i),
            drawn,
            k,
        ) == aux_fraction(ls[k], aux_window(mv, pis@, i), challenges@, k, ls[k].elements.len()) by {
            lemma_total(places, ls, columns@, aux_window(mv, pis@, i), challenges@, ls.len());
        }
    }
    let count: usize = lookups.len();
    let r: (Vec<Vec<Ext>>, Ext) = aux_of_felts(
        &felts,
        h,
        count,
        Ghost(places),
        Ghost(cv),
        Ghost(width as nat),
        Ghost(drawn),
    );
    proof {
        assert forall|i: int, k: int| 0 <= i < n && 0 <= k < ls.len() implies #[trigger] r.0@[i]@[k + 1] == aux_fraction(
            ls[k],
            aux_window(mv, pis@, i),
            challenges@,
            k,
            ls[k].elements.len(),
        ) by {
            assert(place_fraction(places, row_of_cells(cv, width as nat, i), drawn, k) == r.0@[i]@[k + 1]);
        }
        assert forall|i: int| 0 <= i < n implies (#[trigger] r.0@[i])@[0] == aux_sum(ls, mv, pis@, challenges@, i as nat) by {
            assert(place_sum(places, cv, width as nat, drawn, i as nat) == r.0@[i]@[0]);
        }
        let last = n as int;
        assert(place_sum(places, cv, width as nat, drawn, last as nat) == r.1);
    }
    Some(r)
}

/// The coordinates of elements, as they stand.
fn flat_exts(xs: &Vec<Ext>) -> (r: Vec<u64>)
    ensures
        r@.len() == 2 * xs@.len(),
        forall|j: int| 0 <= j < xs@.len() ==> #[trigger] ext_at(r@, j) == xs@[j],
{
    let mut r: Vec<u64> = Vec::new();
    let mut j: usize = 0;
    while j < xs.len()
        invariant
            j <= xs@.len(),
            r@.len() == 2 * j,
            forall|k: int| 0 <= k < j ==> #[trigger] ext_at(r@, k) == xs@[k],
        decreases xs.len() - j,
    {
        let ghost before = r@;
        r.push(xs[j].c0);
        r.push(xs[j].c1);
        proof {
            assert forall|k: int| 0 <= k < j + 1 implies #[trigger] ext_at(r@, k) == xs@[k] by {
                if k < j {
                    assert(ext_at(before, k) == xs@[k]);
                }
            }
        }
        j += 1;
    }
    r
}

/// The aux rows and the terminal out of their felts.
fn aux_of_felts(
    felts: &Vec<u64>,
    h: usize,
    n: usize,
    Ghost(p): Ghost<Places>,
    Ghost(cells): Ghost<Seq<u64>>,
    Ghost(width): Ghost<nat>,
    Ghost(drawn): Ghost<Seq<Ext>>,
) -> (r: (Vec<Vec<Ext>>, Ext))
    requires
        n == p.elements@.len(),
        is_logup(p, cells, width, drawn, h as nat, felts@),
    ensures
        r.0@.len() == h,
        forall|i: int| 0 <= i < h ==> (#[trigger] r.0@[i])@.len() == n + 1,
        forall|i: int, k: int|
            0 <= i < h && 0 <= k < n ==> #[trigger] r.0@[i]@[k + 1] == place_fraction(
                p,
                row_of_cells(cells, width, i),
                drawn,
                k,
            ),
        forall|i: int| 0 <= i < h ==> (#[trigger] r.0@[i])@[0] == place_sum(p, cells, width, drawn, i as nat),
        r.1 == place_sum(p, cells, width, drawn, h as nat),
{
    let total: usize = felts.len();
    let ghost w = n + 1;
    let mut rows: Vec<Vec<Ext>> = Vec::new();
    let mut at: usize = 0;
    let mut i: usize = 0;
    assert(0 * w == 0) by (nonlinear_arith);
    while i < h
        invariant
            i <= h,
            w == n + 1,
            total == felts@.len(),
            total == 2 * (h * w) + 2,
            at == 2 * (i * w),
            rows@.len() == i,
            forall|k: int| 0 <= k < i ==> (#[trigger] rows@[k])@.len() == w,
            forall|k: int, c: int| 0 <= k < i && 0 <= c < w ==> #[trigger] rows@[k]@[c] == ext_at(felts@, k * w + c),
        decreases h - i,
    {
        proof {
            assert(i * w + w <= h * w && (i + 1) * w == i * w + w) by (nonlinear_arith)
                requires
                    i + 1 <= h,
                    0 <= w,
            ;
        }
        let mut row: Vec<Ext> = Vec::new();
        let mut c: usize = 0;
        let ghost start = at;
        while c <= n
            invariant
                c <= n + 1,
                w == n + 1,
                total == felts@.len(),
                start == 2 * (i * w),
                start + 2 * w <= total,
                at == start + 2 * c,
                row@.len() == c,
                forall|k: int| 0 <= k < c ==> #[trigger] row@[k] == ext_at(felts@, i * w + k),
            decreases n + 1 - c,
        {
            row.push(Ext { c0: felts[at], c1: felts[at + 1] });
            at += 2;
            c += 1;
        }
        rows.push(row);
        i += 1;
    }
    let terminal: Ext = Ext { c0: felts[at], c1: felts[at + 1] };
    proof {
        assert forall|i: int, k: int| 0 <= i < h && 0 <= k < n implies #[trigger] rows@[i]@[k + 1] == place_fraction(
            p,
            row_of_cells(cells, width, i),
            drawn,
            k,
        ) by {
            assert(ext_at(felts@, i * (n + 1) + (k + 1)) == rows@[i]@[k + 1]);
        }
        assert forall|i: int| 0 <= i < h implies (#[trigger] rows@[i])@[0] == place_sum(p, cells, width, drawn, i as nat) by {
            let z = 0int;
            assert(rows@[i]@[z] == ext_at(felts@, i * w + z));
            assert(ext_at(felts@, i * (n + 1)) == place_sum(p, cells, width, drawn, i as nat));
        }
    }
    (rows, terminal)
}

/// The aux columns of a trace under two challenges per lookup, and the terminal.
pub fn aux_columns<A: LookupAir>(air: &A, main: &Vec<Vec<u64>>, pis: &Vec<u64>, challenges: &Vec<Ext>) -> (r: (
    Vec<Vec<Ext>>,
    Ext,
))
    requires
        aux_ok(air.system(), main@, pis@, challenges@),
        aux_defined(air.system(), contents(main@), pis@, challenges@),
    ensures
        is_aux(air.system().lookups, contents(main@), pis@, challenges@, r.0@, r.1),
{
    try_aux_columns(air, main, pis, challenges).unwrap()
}

} // verus!
