use crate::digest::{spec_zero_digest, Digest};
use crate::node::MerkleTreeNode;
use crate::store::NodeStore;
use vstd::arithmetic::power2::{
    lemma2_to64, lemma_pow2_pos, lemma_pow2_strictly_increases, pow2,
};
use vstd::bits::lemma_u64_shr_is_div;
use vstd::prelude::*;

verus! {

/// An inclusion proof: a list of digests in bottom-up order, the entry nearest
/// the leaf first and the entry nearest the root last.
pub type MerkleProof = Vec<Digest>;

/// The fatal failure modes of the proof layer. Every one of them reflects a
/// broken builder invariant or a caller error, never an expected runtime
/// condition, and aborts the operation with no partial result.
#[derive(Clone, Copy, Debug, PartialEq, Eq, Structural)]
pub enum MerkleTreeError {
    /// A digest referenced as root or as a child is absent from the node
    /// table: the table handed in by the builder is incomplete.
    MissingNode,
    /// Two children were demanded of a leaf terminal: the declared height and
    /// the actual shape of the tree disagree.
    NotInternal,
    /// The index handed to `prove_leaf` lies outside the tree's addressable
    /// range: a caller error.
    IndexOutOfRange,
}

/// Per-leaf metadata handed in by the external builder: the leaf's digest, a
/// running total used by outside consumers for indexing, and the declared
/// height of the sub-tree the leaf stands for. A declared height on the first
/// leaf extends the tree's addressable height; the proof algorithms consult
/// nothing else in here.
#[derive(Clone, Copy, Debug)]
pub struct MerkleTreeLeaf {
    pub node: Digest,
    pub accumulated_count: u64,
    pub log2_size: Option<u64>,
}

/// Transient state of one `prove_leaf` call: the leaf digest recorded at the
/// bottom of the descent, and the proof path gathered on the way back up.
/// It lives for the span of one call and is discarded when the call returns.
pub struct ProofAccumulator {
    leaf: Digest,
    path: Vec<Digest>,
}

impl ProofAccumulator {
    /// The leaf digest collected so far; the all-zero sentinel before the
    /// descent reaches the bottom.
    pub closed spec fn spec_leaf(&self) -> Digest {
        self.leaf
    }

    /// The proof path collected so far, bottom-up.
    pub closed spec fn spec_path(&self) -> Seq<Digest> {
        self.path@
    }
}

impl Default for ProofAccumulator {
    fn default() -> (acc: Self)
        ensures
            acc.spec_leaf()@ == spec_zero_digest(),
            acc.spec_path() == Seq::<Digest>::empty(),
    {
        ProofAccumulator { leaf: Digest::zeroed(), path: Vec::new() }
    }
}

/// Whether `index` addresses a leaf of a tree of height `h`: `index < 2^h`.
pub open spec fn index_in_range(index: u64, h: nat) -> bool {
    (index as nat) < pow2(h)
}

/// Bit `k` of `index`: the branch taken one level above height `k` during the
/// descent, `false` for left and `true` for right. Bits past the width of the
/// index type are clear.
pub open spec fn index_bit(index: u64, k: nat) -> bool {
    k < 64 && ((index >> (k as u64)) & 1) == 1
}

/// The bit-indexed descent, one level at a time: from `node` at height `h`,
/// follow bit `h - 1` of `index` into a child, and on the way back up append
/// the digest of the child *not* taken — the sibling of the branch — so the
/// path accumulates bottom-up and lists exactly the digests a verifier pairs
/// with its recomputed ancestors. At height zero the current node is the
/// target leaf and nothing is appended. Both children must be on file at
/// every internal step, and a leaf terminal met above height zero is a height
/// mismatch; either failure aborts the whole descent.
pub open spec fn spec_descend(store: NodeStore, node: MerkleTreeNode, h: nat, index: u64) -> Result<
    (Digest, Seq<Digest>),
    MerkleTreeError,
>
    decreases h,
{
    if h == 0 {
        Ok((node.digest, Seq::empty()))
    } else {
        match node.children {
            None => Err(MerkleTreeError::NotInternal),
            Some((left, right)) => match (store.spec_find(left@), store.spec_find(right@)) {
                (Some(left_node), Some(right_node)) => {
                    let go_right = index_bit(index, (h - 1) as nat);
                    let taken = if go_right {
                        right_node
                    } else {
                        left_node
                    };
                    let sibling = if go_right {
                        left
                    } else {
                        right
                    };
                    match spec_descend(store, taken, (h - 1) as nat, index) {
                        Ok((leaf, path)) => Ok((leaf, path.push(sibling))),
                        Err(e) => Err(e),
                    }
                },
                _ => Err(MerkleTreeError::MissingNode),
            },
        }
    }
}

/// The rightmost walk below the root, stated with a step budget: from the
/// sibling pair `(left, right)`, look the right child up; a leaf terminal ends
/// the walk there, an absent node aborts it, and an internal node continues
/// one level down. Each level contributes the digest of its left child to the
/// path, deepest first, so the path accumulates bottom-up like the descent's.
/// `None` means the walk did not finish within `fuel` steps; on any node table
/// it ends in the same way once the budget suffices.
pub open spec fn spec_last_walk(store: NodeStore, left: Digest, right: Digest, fuel: nat) -> Option<
    Result<(Digest, Seq<Digest>), MerkleTreeError>,
>
    decreases fuel,
{
    match store.spec_find(right@) {
        None => Some(Err(MerkleTreeError::MissingNode)),
        Some(node) => match node.children {
            None => Some(Ok((right, seq![left]))),
            Some((left2, right2)) => {
                if fuel == 0 {
                    None
                } else {
                    match spec_last_walk(store, left2, right2, (fuel - 1) as nat) {
                        None => None,
                        Some(Err(e)) => Some(Err(e)),
                        Some(Ok((leaf, path))) => Some(Ok((leaf, path.push(left)))),
                    }
                }
            },
        },
    }
}

/// The walk ends in the same way under any sufficient step budget: the budget
/// only cuts the walk short, it never alters where the walk arrives.
pub proof fn lemma_last_walk_fuel_agrees(
    store: NodeStore,
    left: Digest,
    right: Digest,
    f1: nat,
    f2: nat,
)
    requires
        spec_last_walk(store, left, right, f1) is Some,
        spec_last_walk(store, left, right, f2) is Some,
    ensures
        spec_last_walk(store, left, right, f1) == spec_last_walk(store, left, right, f2),
    decreases f1,
{
    match store.spec_find(right@) {
        None => {},
        Some(node) => match node.children {
            None => {},
            Some((left2, right2)) => {
                lemma_last_walk_fuel_agrees(
                    store,
                    left2,
                    right2,
                    (f1 - 1) as nat,
                    (f2 - 1) as nat,
                );
            },
        },
    }
}

/// A sub-tree rooted at digest `d` is a perfect binary tree of height `h`
/// whose every node is on file: internal down to height zero, where every
/// node is a leaf terminal.
pub open spec fn subtree_wf(store: NodeStore, d: Seq<u8>, h: nat) -> bool
    decreases h,
{
    match store.spec_find(d) {
        None => false,
        Some(node) => if h == 0 {
            node.children is None
        } else {
            match node.children {
                None => false,
                Some((left, right)) => subtree_wf(store, left@, (h - 1) as nat) && subtree_wf(
                    store,
                    right@,
                    (h - 1) as nat,
                ),
            }
        },
    }
}

/// A binary Merkle tree: a root digest, the ordered leaf descriptors, and the
/// content-addressed node table, all supplied by an external builder and
/// immutable from then on. Exposes the root and child accessors and the two
/// proof algorithms.
#[derive(Debug)]
pub struct MerkleTree {
    log2_size: u32,
    root: Digest,
    leafs: Vec<MerkleTreeLeaf>,
    nodes: NodeStore,
}

impl MerkleTree {
    /// The levels the tree itself counts down to its leaf layer.
    pub closed spec fn spec_log2_size(&self) -> u32 {
        self.log2_size
    }

    /// The digest committing to the whole tree.
    pub closed spec fn spec_root(&self) -> Digest {
        self.root
    }

    /// The leaf descriptors, in leaf order.
    pub closed spec fn spec_leafs(&self) -> Seq<MerkleTreeLeaf> {
        self.leafs@
    }

    /// The node table the tree owns.
    pub closed spec fn spec_store(&self) -> NodeStore {
        self.nodes
    }

    /// The height `H`: the number of edges on every root-to-leaf path, and so
    /// the number of index bits the descent consults. When the first leaf
    /// declares a sub-tree height, that height and the tree's own levels add
    /// up; otherwise every index bit counts, a deliberate fallback for leaves
    /// of uniform granularity.
    pub open spec fn spec_height(&self) -> nat {
        if self.spec_leafs().len() > 0 {
            match self.spec_leafs()[0].log2_size {
                Some(leaf_log2_size) => (leaf_log2_size + self.spec_log2_size()) as nat,
                None => 64,
            }
        } else {
            64
        }
    }

    /// Whether the height fits the 64-bit arithmetic `calculate_height`
    /// performs: a machine limit, not a property of the tree's shape.
    pub open spec fn height_fits(&self) -> bool {
        self.spec_height() <= u64::MAX
    }

    /// The whole tree is a perfect binary tree of its own height, every node
    /// of it on file: the invariant the external builder owes.
    pub open spec fn well_formed(&self) -> bool {
        &&& self.height_fits()
        &&& subtree_wf(self.spec_store(), self.spec_root()@, self.spec_height())
    }

    /// The result of `prove_leaf`, as a function of the tree and the index:
    /// an out-of-range index is rejected before anything else, an absent root
    /// aborts next, and otherwise the bit-indexed descent decides.
    pub open spec fn spec_prove_leaf(&self, index: u64) -> Result<
        (Digest, Seq<Digest>),
        MerkleTreeError,
    > {
        if !index_in_range(index, self.spec_height()) {
            Err(MerkleTreeError::IndexOutOfRange)
        } else {
            match self.spec_store().spec_find(self.spec_root()@) {
                None => Err(MerkleTreeError::MissingNode),
                Some(root_node) => spec_descend(
                    self.spec_store(),
                    root_node,
                    self.spec_height(),
                    index,
                ),
            }
        }
    }

    /// What `prove_leaf` promises of a returned value: the same leaf digest,
    /// path digests and error as the tree and the index determine.
    pub open spec fn prove_leaf_post(
        &self,
        index: u64,
        r: Result<(Digest, Vec<Digest>), MerkleTreeError>,
    ) -> bool {
        match (r, self.spec_prove_leaf(index)) {
            (Ok((leaf, path)), Ok((spec_leaf, spec_path))) => leaf == spec_leaf && path@
                == spec_path,
            (Err(e), Err(spec_e)) => e == spec_e,
            _ => false,
        }
    }

    /// Whether the rightmost walk reaches a leaf terminal or an absent entry
    /// in finitely many steps. It cannot only on a node table whose rightmost
    /// chain loops back on itself, a table no builder keeping the tree shape
    /// would produce.
    pub open spec fn last_walk_terminates(&self) -> bool {
        match self.spec_store().spec_find(self.spec_root()@) {
            None => true,
            Some(root_node) => match root_node.children {
                None => true,
                Some((left, right)) => exists|fuel: nat|
                    spec_last_walk(self.spec_store(), left, right, fuel) is Some,
            },
        }
    }

    /// The result of `last`, as a function of the tree: an absent root
    /// aborts; a root that is itself a leaf terminal is the rightmost leaf,
    /// over an empty path; and otherwise the rightmost walk decides under any
    /// sufficient step budget. On a tree whose walk never ends no budget is
    /// sufficient and the value of this function is immaterial; `last` itself
    /// asks the walk to terminate.
    pub open spec fn spec_last(&self) -> Result<(Digest, Seq<Digest>), MerkleTreeError> {
        match self.spec_store().spec_find(self.spec_root()@) {
            None => Err(MerkleTreeError::MissingNode),
            Some(root_node) => match root_node.children {
                None => Ok((root_node.digest, Seq::empty())),
                Some((left, right)) => {
                    let fuel = choose|fuel: nat|
                        spec_last_walk(self.spec_store(), left, right, fuel) is Some;
                    match spec_last_walk(self.spec_store(), left, right, fuel) {
                        Some(r) => r,
                        None => Err(MerkleTreeError::MissingNode),
                    }
                },
            },
        }
    }

    /// What `last` promises of a returned value.
    pub open spec fn last_post(&self, r: Result<(Digest, Vec<Digest>), MerkleTreeError>) -> bool {
        match (r, self.spec_last()) {
            (Ok((leaf, path)), Ok((spec_leaf, spec_path))) => leaf == spec_leaf && path@
                == spec_path,
            (Err(e), Err(spec_e)) => e == spec_e,
            _ => false,
        }
    }

    /// Takes ownership of an externally built root, leaf list and node table.
    /// No validation happens here: the builder owes the invariants, and the
    /// fatal lookups of the proof algorithms surface any breach at use time.
    pub fn new(
        log2_size: u32,
        root: Digest,
        leafs: Vec<MerkleTreeLeaf>,
        nodes: NodeStore,
    ) -> (t: MerkleTree)
        ensures
            t.spec_log2_size() == log2_size,
            t.spec_root() == root,
            t.spec_leafs() == leafs@,
            t.spec_store() == nodes,
    {
        MerkleTree { log2_size, root, leafs, nodes }
    }

    /// The digest the whole tree commits to.
    pub fn root_hash(&self) -> (d: Digest)
        ensures
            d == self.spec_root(),
    {
        self.root
    }

    /// The children of the node filed under `digest`: `Ok(Some(..))` on an
    /// internal node, `Ok(None)` on a leaf terminal, and `Err(MissingNode)`
    /// when nothing is filed under `digest` — a malformed table, fatal.
    pub fn node_children(&self, digest: Digest) -> (r: Result<
        Option<(Digest, Digest)>,
        MerkleTreeError,
    >)
        ensures
            (match self.spec_store().spec_find(digest@) {
                Some(node) => r == Ok::<_, MerkleTreeError>(node.children),
                None => r == Err::<Option<(Digest, Digest)>, _>(MerkleTreeError::MissingNode),
            }),
    {
        match self.nodes.get(&digest) {
            Some(node) => Ok(node.children()),
            None => Err(MerkleTreeError::MissingNode),
        }
    }

    /// The root's two child digests. An absent root or a root without
    /// children — a single-leaf tree — is a fatal data error here.
    pub fn root_children(&self) -> (r: Result<(Digest, Digest), MerkleTreeError>)
        ensures
            (match self.spec_store().spec_find(self.spec_root()@) {
                None => r == Err::<(Digest, Digest), _>(MerkleTreeError::MissingNode),
                Some(node) => match node.children {
                    None => r == Err::<(Digest, Digest), _>(MerkleTreeError::NotInternal),
                    Some(c) => r == Ok::<_, MerkleTreeError>(c),
                },
            }),
    {
        match self.node_children(self.root) {
            Ok(Some(c)) => Ok(c),
            Ok(None) => Err(MerkleTreeError::NotInternal),
            Err(e) => Err(e),
        }
    }

    /// The height governing the descent, computed as `spec_height` says.
    fn calculate_height(&self) -> (height: u64)
        requires
            self.height_fits(),
        ensures
            height as nat == self.spec_height(),
    {
        let mut height: u64 = 64;
        if self.leafs.len() > 0 {
            if let Some(leaf_log2_size) = self.leafs[0].log2_size {
                height = leaf_log2_size + self.log2_size as u64;
            }
        }
        height
    }

    /// The recursive descent behind `prove_leaf`. On success the accumulator
    /// holds the leaf digest and has the path of this sub-descent appended;
    /// on failure it is exactly as it was, the call aborting with no partial
    /// result.
    fn collect_proof(
        &self,
        acc: &mut ProofAccumulator,
        node: &MerkleTreeNode,
        height: u64,
        include_index: u64,
    ) -> (r: Result<(), MerkleTreeError>)
        ensures
            (match spec_descend(self.spec_store(), *node, height as nat, include_index) {
                Ok((leaf, path)) => r is Ok && final(acc).leaf == leaf && final(acc).path@ == old(
                    acc,
                ).path@ + path,
                Err(e) => r == Err::<(), _>(e) && *final(acc) == *old(acc),
            }),
        decreases height,
    {
        if height == 0 {
            acc.leaf = node.digest;
            proof {
                assert(old(acc).path@ + Seq::<Digest>::empty() =~= old(acc).path@);
            }
            return Ok(());
        }

        let new_height = height - 1;
        let (left, right) = match node.children() {
            Some(c) => c,
            None => {
                return Err(MerkleTreeError::NotInternal);
            },
        };
        let left_node = match self.nodes.get(&left) {
            Some(n) => n,
            None => {
                return Err(MerkleTreeError::MissingNode);
            },
        };
        let right_node = match self.nodes.get(&right) {
            Some(n) => n,
            None => {
                return Err(MerkleTreeError::MissingNode);
            },
        };

        let go_right = new_height < 64 && ((include_index >> new_height) & 1) == 1;
        proof {
            assert(go_right == index_bit(include_index, new_height as nat));
        }
        let taken = if go_right {
            right_node
        } else {
            left_node
        };
        let sibling = if go_right {
            left
        } else {
            right
        };
        match self.collect_proof(acc, taken, new_height, include_index) {
            Ok(()) => {
                acc.path.push(sibling);
                proof {
                    let sub = (match spec_descend(
                        self.spec_store(),
                        *taken,
                        new_height as nat,
                        include_index,
                    ) {
                        Ok((_, path)) => path,
                        Err(_) => Seq::empty(),
                    });
                    assert((old(acc).path@ + sub).push(sibling) =~= old(acc).path@ + sub.push(
                        sibling,
                    ));
                }
                Ok(())
            },
            Err(e) => Err(e),
        }
    }

    /// The inclusion proof for the leaf at `index`: the leaf's digest,
    /// together with the sibling digest of each branch the descent took,
    /// listed bottom-up — what a verifier needs to recompute the root from
    /// the leaf alone. An index outside the tree's range is rejected before
    /// the tree is touched; an incomplete table or a premature leaf terminal
    /// aborts the descent. The result is a pure function of the tree and the
    /// index.
    pub fn prove_leaf(&self, index: u64) -> (r: Result<(Digest, MerkleProof), MerkleTreeError>)
        requires
            self.height_fits(),
        ensures
            self.prove_leaf_post(index, r),
    {
        let height = self.calculate_height();

        let in_range = height >= 64 || (index >> height) == 0;
        proof {
            lemma_index_check_is_in_range(index, height);
        }
        if !in_range {
            return Err(MerkleTreeError::IndexOutOfRange);
        }

        let root_node = match self.nodes.get(&self.root) {
            Some(n) => n,
            None => {
                return Err(MerkleTreeError::MissingNode);
            },
        };

        let mut acc = ProofAccumulator::default();
        let ghost acc0 = acc;
        match self.collect_proof(&mut acc, root_node, height, index) {
            Ok(()) => {
                proof {
                    let spec_path = (match spec_descend(
                        self.spec_store(),
                        *root_node,
                        height as nat,
                        index,
                    ) {
                        Ok((_, path)) => path,
                        Err(_) => Seq::empty(),
                    });
                    assert(acc0.path@ + spec_path =~= spec_path);
                }
                Ok((acc.leaf, acc.path))
            },
            Err(e) => Err(e),
        }
    }

    /// The walk behind `last`, carried out against a ghost step budget whose
    /// sufficiency the caller owes.
    fn last_walk(
        &self,
        left: Digest,
        right: Digest,
        Ghost(fuel): Ghost<nat>,
    ) -> (r: Result<(Digest, MerkleProof), MerkleTreeError>)
        requires
            spec_last_walk(self.spec_store(), left, right, fuel) is Some,
        ensures
            (match (r, spec_last_walk(self.spec_store(), left, right, fuel)) {
                (Ok((leaf, path)), Some(Ok((spec_leaf, spec_path)))) => leaf == spec_leaf && path@
                    == spec_path,
                (Err(e), Some(Err(spec_e))) => e == spec_e,
                _ => false,
            }),
        decreases fuel,
    {
        let node = match self.nodes.get(&right) {
            Some(n) => n,
            None => {
                return Err(MerkleTreeError::MissingNode);
            },
        };
        match node.children() {
            None => {
                let mut path: Vec<Digest> = Vec::new();
                path.push(left);
                proof {
                    assert(path@ =~= seq![left]);
                }
                Ok((right, path))
            },
            Some((left2, right2)) => {
                match self.last_walk(left2, right2, Ghost((fuel - 1) as nat)) {
                    Ok((leaf, path)) => {
                        let mut path = path;
                        path.push(left);
                        Ok((leaf, path))
                    },
                    Err(e) => Err(e),
                }
            },
        }
    }

    /// The rightmost leaf and its proof, with no need to know the height or
    /// the leaf count: from the root, keep taking the right child, filing each
    /// level's left child digest on the way; the node with no children is the
    /// leaf, and the filed digests are reported bottom-up like `prove_leaf`'s.
    /// A root that is itself a leaf terminal is the rightmost leaf, over an
    /// empty path; an absent node aborts the walk. The walk is asked to
    /// terminate: on a table whose rightmost chain loops back on itself it
    /// could not.
    pub fn last(&self) -> (r: Result<(Digest, MerkleProof), MerkleTreeError>)
        requires
            self.last_walk_terminates(),
        ensures
            self.last_post(r),
    {
        let root_node = match self.nodes.get(&self.root) {
            Some(n) => n,
            None => {
                return Err(MerkleTreeError::MissingNode);
            },
        };
        let (left, right) = match root_node.children() {
            Some(c) => c,
            None => {
                return Ok((root_node.digest, Vec::new()));
            },
        };
        let ghost fuel = choose|fuel: nat|
            spec_last_walk(self.spec_store(), left, right, fuel) is Some;
        let r = self.last_walk(left, right, Ghost(fuel));
        proof {
            let spec_fuel = choose|spec_fuel: nat|
                spec_last_walk(self.spec_store(), left, right, spec_fuel) is Some;
            lemma_last_walk_fuel_agrees(self.spec_store(), left, right, fuel, spec_fuel);
        }
        r
    }
}

/// The run-time range test of `prove_leaf` agrees with `index_in_range`: with
/// 64 or more levels every index is addressable, and below that the index is
/// addressable exactly when its bits at and above the height are clear.
proof fn lemma_index_check_is_in_range(index: u64, height: u64)
    ensures
        (height >= 64 || (index >> height) == 0) == index_in_range(index, height as nat),
{
    if height >= 64 {
        lemma2_to64();
        if height > 64 {
            lemma_pow2_strictly_increases(64, height as nat);
        }
        assert(index_in_range(index, height as nat));
    } else {
        lemma_u64_shr_is_div(index, height);
        lemma_pow2_pos(height as nat);
        if (index as nat) < pow2(height as nat) {
            vstd::arithmetic::div_mod::lemma_basic_div(index as int, pow2(height as nat) as int);
        }
        if (index as nat) >= pow2(height as nat) {
            vstd::arithmetic::div_mod::lemma_div_non_zero(
                index as int,
                pow2(height as nat) as int,
            );
        }
    }
}

} // verus!
