//! A binary hash tree over an ordered sequence of opaque byte items, with
//! compact membership proofs by index.
//!
//! `tree::MerkleTree::build` hashes each item into a leaf with SHA3-256 and
//! reduces the levels pairwise — duplicating the last node of an odd level —
//! until a single root remains. `tree::MerkleTree::get_proof` derives, for a
//! leaf index, the ordered list of sibling digests (each tagged with the side
//! it sits on) needed to recompute the root, and `proofs::verify` performs
//! that recomputation from the leaf's raw data and compares it with a
//! trusted root digest.
//!
//! The contracts are stated over the model in `model`: a level-wise root
//! function on digest sequences and a chain function for proof checking.
//! `proofs` also states the laws relating the three operations: proofs for
//! valid indices verify, building is deterministic, and a wrong expected
//! root is always rejected.
use vstd::prelude::*;

pub mod hashing;
pub mod model;
pub mod proofs;
pub mod tree;

verus! {

} // verus!
