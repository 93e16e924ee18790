//! The fused verifier of STARK proofs as one constraint system.

pub mod layout;
pub mod geometry;
pub mod periodic;
pub mod families;
pub mod arith;
pub mod epilogue;
pub mod eval;
pub mod system;
pub mod meaning;
pub mod index;
pub mod reduction;
pub mod heads;
pub mod identity;
pub mod grid;
pub mod trace;
pub mod reading;
pub mod blocks;
pub mod paths;
pub mod leaves;
pub mod tiles;
pub mod feeds;
pub mod region;
pub mod sides;
pub mod selection;
pub mod pairs;
pub mod quiet;
pub mod places;
pub mod tops;
pub mod tilerows;
pub mod front;
pub mod satisfied;
pub mod sound;
pub mod hashed;
pub mod accepted;
pub mod window;
pub mod agreed;
pub mod parts;
pub mod ood;
pub mod terms;
pub mod regions;
pub mod written;
pub mod instance;
pub mod windowed;
pub mod complete;
pub mod carried;
pub mod lookup_check;
pub mod tree_check;
pub mod aggregate;
pub mod rooted;
pub mod laid;
pub mod aggregated;
pub mod budget;
