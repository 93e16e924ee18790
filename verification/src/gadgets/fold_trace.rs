//! The rows of a built fold, and of a built chain of folds, satisfy the constraints exactly if the folded values are the
//! interpolations.

use vstd::arithmetic::power2::pow2;
use vstd::prelude::*;

use super::fold::{
    chain_columns, chain_row, coord_pairs, coords, fold_row_cells, inverse_pairs, off_points, round_ok, scale_base,
    Arity4FoldChainAir, FoldRound, GeneralFoldAir,
};
use super::interpolation::{law_chain_row_interpolates, law_fold_interpolates, slot_of};
use super::traces::reduced;
use crate::expr::Window;
use crate::field::{
    f_inv, f_mul, f_red, f_square_times, lemma_mul_assoc, lemma_red_mul, x_base, x_inv, x_mul, x_one, x_red, x_same,
    x_sub, x_zero, Ext, MODULUS,
};
use crate::fri::coset::is_coset;
use crate::fri::fold::lagrange;
use crate::monolith::heads::lemma_difference_reduced;
use crate::monolith::meaning::lemma_pair_cells;
use crate::prime::{law_extension_is_a_field, law_nonzero_is_unit};
use crate::vanish::{pair_at, vanish};

verus! {

/// The coordinates of a list of elements.
proof fn lemma_coord_pairs(xs: Seq<Ext>, n: int, i: int, k: int)
    requires
        0 <= i < n,
        0 <= k < 2,
    ensures
        coord_pairs(xs, n).len() == 2 * n,
        coord_pairs(xs, n)[2 * i + k] == coords(xs[i])[k],
    decreases n,
{
    lemma_coord_pairs_len(xs, n - 1);
    if i < n - 1 {
        lemma_coord_pairs(xs, n - 1, i, k);
    }
}

proof fn lemma_coord_pairs_len(xs: Seq<Ext>, n: int)
    requires
        0 <= n,
    ensures
        coord_pairs(xs, n).len() == 2 * n,
    decreases n,
{
    if n > 0 {
        lemma_coord_pairs_len(xs, n - 1);
    }
}

/// The coordinates of the inverses.
proof fn lemma_inverse_pairs(beta: Ext, xs: Seq<u64>, n: int, i: int, k: int)
    requires
        0 <= i < n,
        0 <= k < 2,
    ensures
        inverse_pairs(beta, xs, n)[2 * i + k] == coords(x_inv(x_sub(beta, x_base(xs[i]))))[k],
    decreases n,
{
    lemma_inverse_pairs_len(beta, xs, n - 1);
    if i < n - 1 {
        lemma_inverse_pairs(beta, xs, n - 1, i, k);
    }
}

proof fn lemma_inverse_pairs_len(beta: Ext, xs: Seq<u64>, n: int)
    requires
        0 <= n,
    ensures
        inverse_pairs(beta, xs, n).len() == 2 * n,
    decreases n,
{
    if n > 0 {
        lemma_inverse_pairs_len(beta, xs, n - 1);
    }
}

/// The parts of a fold row, and where they start.
#[verifier::spinoff_prover]
#[verifier::rlimit(40)]
proof fn lemma_fold_row_parts(evals: Seq<Ext>, beta: Ext, xs: Seq<u64>, folded: Ext, m: nat, n: int)
    requires
        n == evals.len() == xs.len(),
    ensures
        ({
            let cells = fold_row_cells(evals, beta, xs, folded, m);
            &&& forall|j: int| 0 <= j < 2 * n ==> #[trigger] cells[j] == coord_pairs(evals, n)[j]
            &&& cells[2 * n] == coords(beta)[0] && cells[2 * n + 1] == coords(beta)[1]
            &&& forall|i: int| 0 <= i < n ==> #[trigger] cells[2 * n + 2 + i] == f_red(xs[i] as int)
            &&& forall|j: int| 0 <= j < 2 * n ==> #[trigger] cells[3 * n + 2 + j] == inverse_pairs(beta, xs, n)[j]
            &&& cells[5 * n + 2] == f_inv(scale_base(xs, m))
            &&& cells[5 * n + 3] == coords(folded)[0] && cells[5 * n + 4] == coords(folded)[1]
        }),
{
    lemma_coord_pairs_len(evals, n);
    lemma_inverse_pairs_len(beta, xs, n);
    let (a, b) = (coord_pairs(evals, n), coords(beta));
    let c = Seq::new(xs.len(), |i: int| f_red(xs[i] as int));
    let d = inverse_pairs(beta, xs, n);
    let (e, f) = (seq![f_inv(scale_base(xs, m))], coords(folded));
    let cells = a + b + c + d + e + f;
    assert(cells == fold_row_cells(evals, beta, xs, folded, m));
}

/// The elements, reduced.
pub open spec fn reduced_exts(xs: Seq<Ext>) -> Seq<Ext> {
    Seq::new(xs.len(), |i: int| x_red(xs[i]))
}

/// A canonical inverse.
proof fn lemma_canonical_inverse(d: u64)
    requires
        f_red(d as int) != 0,
    ensures
        f_mul(f_inv(d), d) == 1,
        f_inv(d) < MODULUS,
{
    law_nonzero_is_unit(d);
    let v = choose|v: u64| #[trigger] f_mul(d, v) == 1;
    lemma_red_mul(d as int, v as int);
    assert(f_red(v as int) < MODULUS && f_mul(d, f_red(v as int)) == 1);
    lemma_mul_assoc(d, f_inv(d), 0);
}

/// On the first row of a built fold, for reduced points that are a coset, the constraints vanish exactly if the folded
/// value and the public one are the interpolation of the evaluations over the points at the challenge.
#[verifier::spinoff_prover]
#[verifier::rlimit(60)]
pub proof fn law_built_fold_interpolates(
    air: GeneralFoldAir,
    evals: Seq<Ext>,
    beta: Ext,
    xs: Seq<u64>,
    folded: Ext,
    w: Window,
)
    requires
        air.wf(),
        evals.len() == pow2(air.log_arity as nat),
        xs.len() == pow2(air.log_arity as nat),
        reduced(xs),
        is_coset(xs, air.log_arity as nat),
        off_points(beta, xs),
        f_red(scale_base(xs, air.log_arity as nat) as int) != 0,
        w.cur == fold_row_cells(evals, beta, xs, folded, air.log_arity as nat),
        w.is_first == 1,
    ensures
        vanish(air.s_eval(), w) <==> {
            &&& x_red(folded) == lagrange(xs, reduced_exts(evals), x_red(beta))
            &&& pair_at(w.publics, 0) == lagrange(xs, reduced_exts(evals), x_red(beta))
        },
{
    let m = air.log_arity as nat;
    let n = pow2(m) as int;
    let cols = air.s_columns();
    lemma_fold_row_parts(evals, beta, xs, folded, m, n);
    lemma_pair_cells(w.cur, 2 * n, beta);
    lemma_pair_cells(w.cur, 5 * n + 3, folded);
    assert(cols.points(w.cur, n as nat) =~= xs) by {
        assert forall|i: int| 0 <= i < n implies #[trigger] cols.points(w.cur, n as nat)[i] == xs[i] by {
            assert(w.cur[2 * n + 2 + i] == f_red(xs[i] as int));
            assert(xs[i] < MODULUS);
        }
    }
    assert(cols.group(w.cur, n as nat) =~= reduced_exts(evals)) by {
        assert forall|i: int| 0 <= i < n implies #[trigger] cols.group(w.cur, n as nat)[i] == x_red(evals[i]) by {
            lemma_coord_pairs(evals, n, i, 0);
            lemma_coord_pairs(evals, n, i, 1);
            assert(w.cur[2 * i + 0] == coords(evals[i])[0] && w.cur[2 * i + 1] == coords(evals[i])[1]);
            lemma_pair_cells(w.cur, 2 * i, evals[i]);
        }
    }
    let invs = cols.inverses(w.cur, n as nat);
    assert forall|i: int| 0 <= i < xs.len() implies x_mul(#[trigger] invs[i], x_sub(x_red(beta), x_base(xs[i])))
        == x_one() by {
        lemma_built_inverse(air, evals, beta, xs, folded, w, i);
    }
    let base = scale_base(xs, m);
    lemma_canonical_inverse(base);
    assert(f_red(pow2(m) as int) == f_red((pow2(m) as u64) as int));
    lemma_red_mul(pow2(m) as int, f_square_times(xs[0], m) as int);
    law_fold_interpolates(air, w);
}

/// A witnessed inverse of a built fold.
#[verifier::spinoff_prover]
#[verifier::rlimit(40)]
proof fn lemma_built_inverse(
    air: GeneralFoldAir,
    evals: Seq<Ext>,
    beta: Ext,
    xs: Seq<u64>,
    folded: Ext,
    w: Window,
    i: int,
)
    requires
        air.wf(),
        evals.len() == pow2(air.log_arity as nat),
        xs.len() == pow2(air.log_arity as nat),
        off_points(beta, xs),
        w.cur == fold_row_cells(evals, beta, xs, folded, air.log_arity as nat),
        0 <= i < xs.len(),
    ensures
        x_mul(
            air.s_columns().inverses(w.cur, pow2(air.log_arity as nat))[i],
            x_sub(x_red(beta), x_base(xs[i])),
        ) == x_one(),
{
    let m = air.log_arity as nat;
    let n = pow2(m) as int;
    let d = x_sub(beta, x_base(xs[i]));
    let inv = x_inv(d);
    lemma_fold_row_parts(evals, beta, xs, folded, m, n);
    lemma_inverse_pairs(beta, xs, n, i, 0);
    lemma_inverse_pairs(beta, xs, n, i, 1);
    assert(w.cur[3 * n + 2 + (2 * i + 0)] == coords(inv)[0] && w.cur[3 * n + 2 + (2 * i + 1)] == coords(inv)[1]);
    lemma_pair_cells(w.cur, 3 * n + 2 + 2 * i, inv);
    assert(!x_same(x_sub(beta, x_base(xs[i])), x_zero()));
    lemma_difference_reduced(beta, x_base(xs[i]));
    law_extension_is_a_field(d);
}

/// The parts of a fold row of a chain, and where they start.
#[verifier::spinoff_prover]
#[verifier::rlimit(60)]
proof fn lemma_chain_row_parts(ro: Ext, rounds: Seq<FoldRound>, r: int)
    requires
        0 <= r < rounds.len(),
        round_ok(rounds[r]),
    ensures
        ({
            let cells = chain_row(ro, rounds, r);
            let f = rounds[r];
            &&& cells[0] == coords(chain_value(ro, rounds, r))[0] && cells[1] == coords(chain_value(ro, rounds, r))[1]
            &&& forall|j: int| 0 <= j < 8 ==> #[trigger] cells[2 + j] == coord_pairs(f.evals@, 4)[j]
            &&& cells[10] == f.slot % 2 && cells[11] == (f.slot / 2) % 2
            &&& cells[12] == coords(f.beta)[0] && cells[13] == coords(f.beta)[1]
            &&& forall|i: int| 0 <= i < 4 ==> #[trigger] cells[14 + i] == f_red(f.xs@[i] as int)
            &&& forall|j: int| 0 <= j < 8 ==> #[trigger] cells[18 + j] == inverse_pairs(f.beta, f.xs@, 4)[j]
            &&& cells[26] == f_inv(scale_base(f.xs@, 2))
        }),
{
    let f = rounds[r];
    lemma_coord_pairs_len(f.evals@, 4);
    lemma_inverse_pairs_len(f.beta, f.xs@, 4);
    let a = coords(chain_value(ro, rounds, r));
    let b = coord_pairs(f.evals@, 4);
    let c = seq![(f.slot % 2) as u64, ((f.slot / 2) % 2) as u64];
    let d = coords(f.beta);
    let e = Seq::new(f.xs@.len(), |i: int| f_red(f.xs@[i] as int));
    let g = inverse_pairs(f.beta, f.xs@, 4);
    let k = seq![f_inv(scale_base(f.xs@, 2))];
    let cells = a + b + c + d + e + g + k;
    assert(cells == chain_row(ro, rounds, r));
}

/// The running value of a chain in row `r`.
pub open spec fn chain_value(ro: Ext, rounds: Seq<FoldRound>, r: int) -> Ext {
    if r == 0 {
        ro
    } else {
        rounds[r - 1].folded
    }
}

/// The running value at the head of a row, the row behind the last fold among them.
proof fn lemma_chain_head(ro: Ext, rounds: Seq<FoldRound>, r: int)
    requires
        0 <= r <= rounds.len(),
    ensures
        pair_at(chain_row(ro, rounds, r), 0) == x_red(chain_value(ro, rounds, r)),
{
    let cells = chain_row(ro, rounds, r);
    let e = chain_value(ro, rounds, r);
    assert(cells[0] == f_red(e.c0 as int) && cells[1] == f_red(e.c1 as int));
    lemma_pair_cells(cells, 0, e);
}

/// A witnessed inverse of a built chain row.
#[verifier::spinoff_prover]
#[verifier::rlimit(40)]
proof fn lemma_chain_inverse(ro: Ext, rounds: Seq<FoldRound>, r: int, i: int)
    requires
        0 <= r < rounds.len(),
        round_ok(rounds[r]),
        0 <= i < 4,
    ensures
        x_mul(
            pair_at(chain_row(ro, rounds, r), 18 + 2 * i),
            x_sub(x_red(rounds[r].beta), x_base(rounds[r].xs@[i])),
        ) == x_one(),
{
    let f = rounds[r];
    let cells = chain_row(ro, rounds, r);
    let d = x_sub(f.beta, x_base(f.xs@[i]));
    let inv = x_inv(d);
    lemma_chain_row_parts(ro, rounds, r);
    lemma_inverse_pairs(f.beta, f.xs@, 4, i, 0);
    lemma_inverse_pairs(f.beta, f.xs@, 4, i, 1);
    assert(cells[18 + (2 * i + 0)] == coords(inv)[0] && cells[18 + (2 * i + 1)] == coords(inv)[1]);
    lemma_pair_cells(cells, 18 + 2 * i, inv);
    assert(!x_same(x_sub(f.beta, x_base(f.xs@[i])), x_zero()));
    lemma_difference_reduced(f.beta, x_base(f.xs@[i]));
    law_extension_is_a_field(d);
}

/// An evaluation of a built chain row.
proof fn lemma_chain_eval(ro: Ext, rounds: Seq<FoldRound>, r: int, i: int)
    requires
        0 <= r < rounds.len(),
        round_ok(rounds[r]),
        0 <= i < 4,
    ensures
        pair_at(chain_row(ro, rounds, r), 2 + 2 * i) == x_red(rounds[r].evals@[i]),
{
    let f = rounds[r];
    let cells = chain_row(ro, rounds, r);
    lemma_chain_row_parts(ro, rounds, r);
    lemma_coord_pairs(f.evals@, 4, i, 0);
    lemma_coord_pairs(f.evals@, 4, i, 1);
    assert(cells[2 + (2 * i + 0)] == coords(f.evals@[i])[0] && cells[2 + (2 * i + 1)] == coords(f.evals@[i])[1]);
    lemma_pair_cells(cells, 2 + 2 * i, f.evals@[i]);
}

/// On a fold row of a built chain that is not its first, for reduced points that are a coset, the constraints vanish
/// exactly if the running value is the evaluation in its slot and the next one is the interpolation of the four
/// evaluations at the challenge.
#[verifier::spinoff_prover]
#[verifier::rlimit(60)]
pub proof fn law_built_chain_interpolates(
    air: Arity4FoldChainAir,
    ro: Ext,
    rounds: Seq<FoldRound>,
    r: int,
    w: Window,
)
    requires
        1 <= r < rounds.len(),
        round_ok(rounds[r]),
        rounds[r].slot < 4,
        reduced(rounds[r].xs@),
        is_coset(rounds[r].xs@, 2),
        w.cur == chain_row(ro, rounds, r),
        w.nxt == chain_row(ro, rounds, r + 1),
        w.is_first == 0,
        w.is_transition == 1,
        w.periodic[0] == 1,
        w.periodic[1] == 0,
    ensures
        ({
            let f = rounds[r];
            vanish(air.s_eval(), w) <==> {
                &&& x_red(rounds[r - 1].folded) == x_red(f.evals@[f.slot as int])
                &&& x_red(f.folded) == lagrange(f.xs@, reduced_exts(f.evals@), x_red(f.beta))
            }
        }),
{
    let f = rounds[r];
    let cols = chain_columns();
    vstd::arithmetic::power2::lemma2_to64();
    lemma_chain_row_parts(ro, rounds, r);
    lemma_chain_head(ro, rounds, r);
    lemma_chain_head(ro, rounds, r + 1);
    lemma_pair_cells(w.cur, 12, f.beta);
    assert(cols.points(w.cur, 4) =~= f.xs@) by {
        assert forall|i: int| 0 <= i < 4 implies #[trigger] cols.points(w.cur, 4)[i] == f.xs@[i] by {
            assert(w.cur[14 + i] == f_red(f.xs@[i] as int));
            assert(f.xs@[i] < MODULUS);
        }
    }
    assert(cols.group(w.cur, 4) =~= reduced_exts(f.evals@)) by {
        assert forall|i: int| 0 <= i < 4 implies #[trigger] cols.group(w.cur, 4)[i] == x_red(f.evals@[i]) by {
            lemma_chain_eval(ro, rounds, r, i);
        }
    }
    let invs = cols.inverses(w.cur, 4);
    assert forall|i: int| 0 <= i < f.xs@.len() implies x_mul(#[trigger] invs[i], x_sub(x_red(f.beta), x_base(f.xs@[i])))
        == x_one() by {
        lemma_chain_inverse(ro, rounds, r, i);
    }
    let base = scale_base(f.xs@, 2);
    lemma_canonical_inverse(base);
    assert(f_red(pow2(2) as int) == 4);
    let (b0, b1) = (f.slot % 2, (f.slot / 2) % 2);
    assert(b0 + 2 * b1 == f.slot);
    assert(slot_of(w.cur) == f.slot);
    law_chain_row_interpolates(air, w);
}

} // verus!
