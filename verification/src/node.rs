use crate::digest::Digest;
use vstd::prelude::*;

verus! {

/// A single node of the tree: a leaf terminal, or an internal node holding
/// the digests of its two children. A node is identified by its own digest;
/// the digest is trusted input from the external builder and never re-derived
/// here.
#[derive(Clone, Copy, Debug)]
pub struct MerkleTreeNode {
    /// The digest identifying this node.
    pub digest: Digest,
    /// `None` on a leaf terminal; the left and right child digests on an
    /// internal node.
    pub children: Option<(Digest, Digest)>,
}

impl MerkleTreeNode {
    /// A leaf terminal carrying the given digest.
    pub fn leaf(digest: Digest) -> (n: MerkleTreeNode)
        ensures
            n.digest == digest,
            n.children is None,
    {
        MerkleTreeNode { digest, children: None }
    }

    /// An internal node carrying the given digest and child digests.
    pub fn internal(digest: Digest, left: Digest, right: Digest) -> (n: MerkleTreeNode)
        ensures
            n.digest == digest,
            n.children == Some((left, right)),
    {
        MerkleTreeNode { digest, children: Some((left, right)) }
    }

    /// The two child digests, or `None` on a leaf terminal.
    pub fn children(&self) -> (c: Option<(Digest, Digest)>)
        ensures
            c == self.children,
    {
        self.children
    }
}

} // verus!
