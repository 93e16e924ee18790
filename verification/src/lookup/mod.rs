//! The lookup argument: constraint systems with lookups, their fold, their rounds and their verification.

pub mod accepted;
pub mod air;
pub mod argument;
pub mod balance;
pub mod chunks;
pub mod columns;
pub mod degree;
pub mod exact;
pub mod honest;
pub mod imbalance;
pub mod prover;
pub mod quotient;
pub mod range;
pub mod rounds;
pub mod verify;
