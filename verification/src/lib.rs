//! A binary Merkle tree over fixed-width digests, with verified generation of
//! inclusion proofs: a bit-indexed descent for an arbitrary leaf index, and a
//! direct rightmost walk for the latest leaf of an append-only commitment.
//!
//! The tree is built elsewhere: an external builder hands over a root digest,
//! a list of leaf descriptors and a content-addressed node table, and the tree
//! is read-only from then on. Hashing, chunking and proof verification are
//! likewise outside collaborators; this crate defines the layout and ordering
//! of the proofs they exchange.

pub mod digest;
pub mod laws;
pub mod node;
pub mod store;
pub mod tree;

pub use digest::Digest;
pub use node::MerkleTreeNode;
pub use store::NodeStore;
pub use tree::MerkleProof;
pub use tree::MerkleTree;
pub use tree::MerkleTreeError;
pub use tree::MerkleTreeLeaf;
