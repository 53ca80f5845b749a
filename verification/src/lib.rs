//! Merkle inclusion proofs: a compact witness that one element belongs to a
//! dataset summarized by a single root hash.
//!
//! A proof owns a `lemma` (leaf hash, sibling hashes, claimed root) and a
//! `path` of left/right direction bits.  Validation re-derives the root from
//! the leaf with a caller-supplied hash combination capability and compares
//! the result to the claimed root.  Proofs also convert to and from a
//! documented byte encoding.

pub mod codec;
pub mod hash;
pub mod inclusion;
pub mod tree;

pub use inclusion::Proof;
