//! The low-degree test: Merkle openings, reduced openings, the fold down the commit phase.

pub mod accepted;
pub mod coset;
pub mod fold;
pub mod input;
pub mod merkle;
pub mod query;
pub mod verify;
pub mod witness;
