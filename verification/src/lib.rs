//! Finite permutation groups given by generating sets: permutation
//! arithmetic, orbit computation, Schreier vectors, stabilizer chains,
//! a product-replacement sampler, and the randomized Schreier-Sims
//! procedure that grows a generating set into a heuristically strong
//! one and reports the group order from it.

pub mod perm;
pub mod schreier;
pub mod span;
pub mod group;
pub mod rng;
pub mod stabchain;
