use vstd::prelude::*;

pub mod bits;
pub mod emit;
pub mod expr;
pub mod field;
pub mod fingerprint;
pub mod fri;
pub mod gadgets;
pub mod lookup;
pub mod monolith;
pub mod poly;
pub mod poseidon;
pub mod prime;
pub mod ring;
pub mod schedule;
pub mod squeezed;
pub mod stark;
pub mod symbolic;
pub mod transcript;
pub mod vanish;

verus! {

} // verus!
