//! Back–Maxwell range proofs with ring size three over the Ristretto group.
//!
//! A prover shows that a committed integer lies in `[0, 3^n)` while revealing
//! only the Pedersen commitment `r·G + v·H`. The value is split into base-3
//! digits (`digits`); each digit is committed to and proven to be 0, 1 or 2 by
//! a three-member ring signature (`ring`, `kernel`, `kernel_ct`); the rings are
//! linked into one non-interactive proof by a single anchor challenge `e0`,
//! the hash of all ring closures (`rangeproof`). Proofs travel as bytes
//! (`codec`).
//!
//! The group arithmetic, hashing and randomness come from `curve25519-dalek`,
//! `sha2`, `rand` and `subtle`. Contracts speak of points by their discrete
//! logarithms (`point`) and of scalars by their residues modulo the group
//! order (`scalar`); the properties that tie provers, verifier and encoding
//! together are proved in `laws`.

use vstd::prelude::*;

pub mod codec;
pub mod digits;
pub mod kernel;
pub mod kernel_ct;
pub mod laws;
pub mod modular;
pub mod point;
pub mod rangeproof;
pub mod ring;
pub mod scalar;

verus! {

/// The largest supported number of base-3 digits: `3^41` is the least power
/// of three above `2^64`.
pub const RANGEPROOF_MAX_N: usize = 41;

} // verus!
