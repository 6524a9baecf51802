//! A sparse Merkle tree over the Pallas base field, with the membership and
//! non-membership paths that an insertion proof is built from.

pub mod circuits;
pub mod element;
pub mod hash;
pub mod tree;

pub use circuits::insert::{prove_insert, InsertWitness, Proof, ProofGenerationFailed};
pub use element::Element;
pub use hash::{hash_merge, hash_table};
pub use tree::path::Path;
pub use tree::repr::{Node, OccupiedSlot};
pub use tree::Tree;
