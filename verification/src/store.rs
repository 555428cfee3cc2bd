use crate::digest::Digest;
use crate::node::MerkleTreeNode;
use vstd::prelude::*;

verus! {

/// The first node at or after position `i` whose own digest reads `d`.
pub open spec fn find_node_from(nodes: Seq<MerkleTreeNode>, d: Seq<u8>, i: nat) -> Option<
    MerkleTreeNode,
>
    decreases nodes.len() - i,
{
    if i >= nodes.len() {
        None
    } else if nodes[i as int].digest@ == d {
        Some(nodes[i as int])
    } else {
        find_node_from(nodes, d, (i + 1) as nat)
    }
}

/// A content-addressed node table: each node is filed under its own digest,
/// so equal digests name the identical node. The table is built by an external
/// builder and owned read-only by the tree.
#[derive(Debug)]
pub struct NodeStore {
    nodes: Vec<MerkleTreeNode>,
}

impl View for NodeStore {
    type V = Seq<MerkleTreeNode>;

    closed spec fn view(&self) -> Seq<MerkleTreeNode> {
        self.nodes@
    }
}

impl NodeStore {
    /// The node filed under digest `d`, if any.
    pub open spec fn spec_find(&self, d: Seq<u8>) -> Option<MerkleTreeNode> {
        find_node_from(self@, d, 0)
    }

    /// Whether some node is filed under digest `d`.
    pub open spec fn contains(&self, d: Seq<u8>) -> bool {
        self.spec_find(d) is Some
    }

    /// Wraps an externally built node list into a store.
    pub fn from_nodes(nodes: Vec<MerkleTreeNode>) -> (s: NodeStore)
        ensures
            s@ == nodes@,
    {
        NodeStore { nodes }
    }

    /// Content-addressed lookup of the node filed under `d`.
    pub fn get(&self, d: &Digest) -> (r: Option<&MerkleTreeNode>)
        ensures
            (match r {
                Some(n) => self.spec_find(d@) == Some(*n),
                None => self.spec_find(d@) is None,
            }),
    {
        let n = self.nodes.len();
        let mut i: usize = 0;
        while i < n
            invariant
                i <= n,
                n == self@.len(),
                self.spec_find(d@) == find_node_from(self@, d@, i as nat),
            decreases n - i,
        {
            if self.nodes[i].digest.equals(d) {
                return Some(&self.nodes[i]);
            }
            i = i + 1;
        }
        None
    }
}

/// A found node is filed under its own digest: looking a digest up never hands
/// back a node reading a different one.
pub proof fn lemma_find_reads_digest(nodes: Seq<MerkleTreeNode>, d: Seq<u8>, i: nat)
    requires
        find_node_from(nodes, d, i) is Some,
    ensures
        (find_node_from(nodes, d, i) matches Some(n) && n.digest@ == d),
    decreases nodes.len() - i,
{
    if i < nodes.len() && nodes[i as int].digest@ != d {
        lemma_find_reads_digest(nodes, d, (i + 1) as nat);
    }
}

} // verus!
