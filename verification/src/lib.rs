//! Deterministic, seed-driven reordering of block extrinsics.
//!
//! A block author and every validator must agree on the order in which the
//! extrinsics of a block are executed.  The order is derived from a 32-byte
//! seed with an explicit pseudo-random generator and an explicit shuffling
//! algorithm, so that any node can recreate it.  Extrinsics signed by the same
//! account keep their relative order.

pub mod bytes;
pub mod fisher_yates;
pub mod occurrences;
pub mod rng;
pub mod seed;
pub mod shuffle;
