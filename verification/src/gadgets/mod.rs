//! Small constraint systems, each proving one step of the verifier on its own, with their traces.

pub mod fold;
pub mod interpolation;
pub mod folding;
pub mod hashing;
pub mod traces;
pub mod leaf_trace;
pub mod fold_trace;
pub mod opening_trace;
pub mod checks;
pub mod rows;
pub mod leaf;
pub mod agg;
pub mod ood;
pub mod opening;
