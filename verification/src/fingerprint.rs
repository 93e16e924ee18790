//! Fingerprints of a constraint set: its sizes and degree, a hash of the rendered constraints in emission
//! order, and a hash of the periodic columns.

use vstd::prelude::*;

verus! {

/// The hash prime.
pub const FNV_PRIME: u64 = 1099511628211;

/// The hash start value.
pub const FNV_OFFSET: u64 = 14695981039346656037;

/// Separates two constraints.
pub const CONSTRAINT_END: u8 = 30;

/// Separates two periodic columns.
pub const COLUMN_END: u8 = 31;

/// One byte taken into the hash.
pub open spec fn fnv_step(h: u64, b: u8) -> u64 {
    vstd::wrapping::u64_specs::wrapping_mul(h ^ (b as u64), FNV_PRIME)
}

/// A run of bytes taken into the hash.
pub open spec fn fnv_bytes(h: u64, bytes: Seq<u8>) -> u64
    decreases bytes.len(),
{
    if bytes.len() == 0 {
        h
    } else {
        fnv_step(fnv_bytes(h, bytes.drop_last()), bytes.last())
    }
}

/// Byte `i` of `v`, lowest first.
pub open spec fn le_byte(v: u64, i: int) -> u8 {
    ((v >> ((8 * i) as u64)) & 255) as u8
}

/// The bytes of `v`, lowest first.
pub open spec fn le_bytes(v: u64) -> Seq<u8> {
    Seq::new(8, |i: int| le_byte(v, i))
}

/// The bytes of the first `n` values of a column.
pub open spec fn column_bytes(col: Seq<u64>, n: nat) -> Seq<u8>
    decreases n,
{
    if n == 0 {
        Seq::empty()
    } else {
        column_bytes(col, (n - 1) as nat) + le_bytes(col[n - 1])
    }
}

/// The hash of the first `n` rendered constraints, each closed by its separator.
pub open spec fn constraints_hash(rendered: Seq<Vec<u8>>, n: nat) -> u64
    decreases n,
{
    if n == 0 {
        FNV_OFFSET
    } else {
        fnv_step(fnv_bytes(constraints_hash(rendered, (n - 1) as nat), rendered[n - 1]@), CONSTRAINT_END)
    }
}

/// The hash of the first `n` periodic columns, each closed by its separator.
pub open spec fn columns_hash(cols: Seq<Vec<u64>>, n: nat) -> u64
    decreases n,
{
    if n == 0 {
        FNV_OFFSET
    } else {
        fnv_step(
            fnv_bytes(columns_hash(cols, (n - 1) as nat), column_bytes(cols[n - 1]@, cols[n - 1]@.len())),
            COLUMN_END,
        )
    }
}

/// The largest of the first `n` degrees, zero for none.
pub open spec fn max_degree(degrees: Seq<usize>, n: nat) -> usize
    decreases n,
{
    if n == 0 {
        0
    } else if degrees[n - 1] > max_degree(degrees, (n - 1) as nat) {
        degrees[n - 1]
    } else {
        max_degree(degrees, (n - 1) as nat)
    }
}

fn take_byte(h: u64, b: u8) -> (r: u64)
    ensures
        r == fnv_step(h, b),
{
    (h ^ (b as u64)).wrapping_mul(FNV_PRIME)
}

fn take_bytes(h: u64, bytes: &Vec<u8>) -> (r: u64)
    ensures
        r == fnv_bytes(h, bytes@),
{
    let mut acc: u64 = h;
    let mut i: usize = 0;
    while i < bytes.len()
        invariant
            i <= bytes@.len(),
            acc == fnv_bytes(h, bytes@.take(i as int)),
        decreases bytes.len() - i,
    {
        acc = take_byte(acc, bytes[i]);
        proof {
            assert(bytes@.take(i + 1).drop_last() =~= bytes@.take(i as int));
        }
        i += 1;
    }
    proof {
        assert(bytes@.take(i as int) =~= bytes@);
    }
    acc
}

fn bytes_of_column(col: &Vec<u64>) -> (r: Vec<u8>)
    ensures
        r@ == column_bytes(col@, col@.len()),
{
    let mut r: Vec<u8> = Vec::new();
    let mut i: usize = 0;
    while i < col.len()
        invariant
            i <= col@.len(),
            r@ == column_bytes(col@, i as nat),
        decreases col.len() - i,
    {
        let v: u64 = col[i];
        let ghost before = r@;
        let mut j: u64 = 0;
        while j < 8
            invariant
                j <= 8,
                r@ =~= before + le_bytes(v).take(j as int),
            decreases 8 - j,
        {
            r.push(((v >> (8 * j)) & 255) as u8);
            j += 1;
        }
        proof {
            assert(le_bytes(v).take(8) =~= le_bytes(v));
        }
        i += 1;
    }
    r
}

/// Width, periodic columns, public values, constraints, largest degree, hash of the constraints and hash of the
/// periodic columns.
pub fn fingerprint(
    width: usize,
    num_public_values: usize,
    rendered: &Vec<Vec<u8>>,
    degrees: &Vec<usize>,
    columns: &Vec<Vec<u64>>,
) -> (r: (usize, usize, usize, usize, usize, u64, u64))
    ensures
        r.0 == width,
        r.1 == columns@.len(),
        r.2 == num_public_values,
        r.3 == rendered@.len(),
        r.4 == max_degree(degrees@, degrees@.len()),
        r.5 == constraints_hash(rendered@, rendered@.len()),
        r.6 == columns_hash(columns@, columns@.len()),
{
    let mut maxd: usize = 0;
    let mut d: usize = 0;
    while d < degrees.len()
        invariant
            d <= degrees@.len(),
            maxd == max_degree(degrees@, d as nat),
        decreases degrees.len() - d,
    {
        if degrees[d] > maxd {
            maxd = degrees[d];
        }
        d += 1;
    }
    let mut h: u64 = FNV_OFFSET;
    let mut i: usize = 0;
    while i < rendered.len()
        invariant
            i <= rendered@.len(),
            h == constraints_hash(rendered@, i as nat),
        decreases rendered.len() - i,
    {
        h = take_byte(take_bytes(h, &rendered[i]), CONSTRAINT_END);
        i += 1;
    }
    let mut hp: u64 = FNV_OFFSET;
    let mut j: usize = 0;
    while j < columns.len()
        invariant
            j <= columns@.len(),
            hp == columns_hash(columns@, j as nat),
        decreases columns.len() - j,
    {
        hp = take_byte(take_bytes(hp, &bytes_of_column(&columns[j])), COLUMN_END);
        j += 1;
    }
    (width, columns.len(), num_public_values, rendered.len(), maxd, h, hp)
}

} // verus!
