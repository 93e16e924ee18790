//! Proof verification over the two-adic domains: the point, the rounds, the constraint identity.

pub mod accepted;
pub mod domain;
pub mod lookup_replay;
pub mod replay;
pub mod subgroup;
pub mod verify;
