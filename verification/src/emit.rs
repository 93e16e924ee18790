//! Lists of constraints built family by family.

use vstd::prelude::*;

use crate::expr::Wire;

verus! {

/// The families f(0), .., f(n - 1), one after another.
pub open spec fn flat(n: int, f: spec_fn(int) -> Seq<Wire>) -> Seq<Wire>
    decreases n,
{
    if n <= 0 {
        Seq::empty()
    } else {
        flat(n - 1, f) + f(n - 1)
    }
}

/// The list `out` grew from `base` by the families before `i`; with family `i` appended it has grown by the
/// families before `i + 1`.
pub proof fn lemma_flat_step(base: Seq<Wire>, i: int, f: spec_fn(int) -> Seq<Wire>, out: Seq<Wire>)
    requires
        0 <= i,
        out == base + flat(i, f) + f(i),
    ensures
        out == base + flat(i + 1, f),
{
    assert(flat(i + 1, f) == flat(i, f) + f(i));
    assert(out =~= base + flat(i + 1, f));
}

/// Appending two lists one after the other appends their concatenation.
pub proof fn lemma_append_assoc(base: Seq<Wire>, a: Seq<Wire>, b: Seq<Wire>)
    ensures
        (base + a) + b == base + (a + b),
{
    assert((base + a) + b =~= base + (a + b));
}

} // verus!
