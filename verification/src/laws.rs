//! The properties the proof layer stands for, stated over the spec model and
//! proved once for every tree: how an inclusion proof recombines back to the
//! root, how long it is, how the rightmost walk and the bit-indexed descent
//! agree, and that both algorithms are pure functions of the tree.

use crate::digest::Digest;
use crate::store::{lemma_find_reads_digest, NodeStore};
use crate::tree::{
    index_bit, index_in_range, spec_descend, spec_last_walk, subtree_wf,
    lemma_last_walk_fuel_agrees, MerkleTree, MerkleTreeError,
};
use vstd::arithmetic::power2::{lemma2_to64, lemma_pow2_pos, pow2};
use vstd::bits::{lemma_u64_pow2_no_overflow, lemma_u64_shl_is_mul};
use vstd::prelude::*;

verus! {

/// The digest of the target leaf's ancestor at height `k`, reached by
/// descending `h - k` levels from `d` along the bits of `index`. At `k == h`
/// it is `d` itself; at `k == 0` it is the target leaf.
pub open spec fn spec_ancestor(store: NodeStore, d: Seq<u8>, h: nat, index: u64, k: nat) -> Seq<
    u8,
>
    decreases h,
{
    if h <= k {
        d
    } else {
        match store.spec_find(d) {
            Some(node) => match node.children {
                Some((left, right)) => spec_ancestor(
                    store,
                    (if index_bit(index, (h - 1) as nat) {
                        right@
                    } else {
                        left@
                    }),
                    (h - 1) as nat,
                    index,
                    k,
                ),
                None => d,
            },
            None => d,
        }
    }
}

/// The node filed under `parent` is internal and lists exactly `left` and
/// `right` as its two children, in that order: the relation an outside
/// verifier confirms when it merges two child digests into a parent digest.
pub open spec fn spec_children_are(
    store: NodeStore,
    parent: Seq<u8>,
    left: Seq<u8>,
    right: Seq<u8>,
) -> bool {
    match store.spec_find(parent) {
        Some(node) => match node.children {
            Some((left_d, right_d)) => left_d@ == left && right_d@ == right,
            None => false,
        },
        None => false,
    }
}

/// How a successful descent's result recombines: one path entry per level,
/// the leaf is the ancestor at the bottom, and at every height `k` the
/// ancestor one level up holds exactly the ancestor at `k` and the path
/// entry at `k` as its ordered children — the path entry on the left when
/// bit `k` of the index is set, on the right when it is clear. A verifier
/// that starts from the leaf and merges it with each path entry in this
/// order, level by level, arrives at the ancestor at height `h`: the root.
pub open spec fn descend_links(
    store: NodeStore,
    d: Seq<u8>,
    h: nat,
    index: u64,
    leaf: Digest,
    path: Seq<Digest>,
) -> bool {
    &&& path.len() == h
    &&& leaf@ == spec_ancestor(store, d, h, index, 0)
    &&& (forall|k: int|
        #![trigger path[k]]
        0 <= k < h ==> spec_children_are(
            store,
            spec_ancestor(store, d, h, index, (k + 1) as nat),
            (if index_bit(index, k as nat) {
                path[k]@
            } else {
                spec_ancestor(store, d, h, index, k as nat)
            }),
            (if index_bit(index, k as nat) {
                spec_ancestor(store, d, h, index, k as nat)
            } else {
                path[k]@
            }),
        ))
}

/// On a well-shaped sub-tree the descent cannot fail, and what it returns
/// recombines back to the sub-tree's root as `descend_links` says.
pub proof fn lemma_descend_on_wf(store: NodeStore, d: Seq<u8>, h: nat, index: u64)
    requires
        subtree_wf(store, d, h),
    ensures
        (store.spec_find(d) matches Some(node) && spec_descend(store, node, h, index) matches Ok(r)
            && descend_links(store, d, h, index, r.0, r.1)),
    decreases h,
{
    let node = match store.spec_find(d) {
        Some(n) => n,
        None => {
            assert(false);
            arbitrary()
        },
    };
    if h == 0 {
        lemma_find_reads_digest(store@, d, 0);
        assert(spec_descend(store, node, h, index) == Ok::<_, MerkleTreeError>((
            node.digest,
            Seq::<Digest>::empty(),
        )));
    } else {
        let (left_d, right_d) = match node.children {
            Some(c) => c,
            None => {
                assert(false);
                arbitrary()
            },
        };
        assert(subtree_wf(store, left_d@, (h - 1) as nat));
        assert(subtree_wf(store, right_d@, (h - 1) as nat));
        assert(store.spec_find(left_d@) is Some);
        assert(store.spec_find(right_d@) is Some);
        let bit = index_bit(index, (h - 1) as nat);
        let taken_key = if bit {
            right_d@
        } else {
            left_d@
        };
        let sibling = if bit {
            left_d
        } else {
            right_d
        };
        lemma_descend_on_wf(store, taken_key, (h - 1) as nat, index);
        let taken = match store.spec_find(taken_key) {
            Some(n) => n,
            None => {
                assert(false);
                arbitrary()
            },
        };
        let (sub_leaf, sub_path) = match spec_descend(store, taken, (h - 1) as nat, index) {
            Ok(r) => r,
            Err(_) => {
                assert(false);
                arbitrary()
            },
        };
        let path = sub_path.push(sibling);
        assert(spec_descend(store, node, h, index) == Ok::<_, MerkleTreeError>((sub_leaf, path)));
        // One level of descent shifts every ancestor reading below `h` down
        // to the taken child.
        assert forall|k: nat| k < h implies spec_ancestor(store, d, h, index, k) == spec_ancestor(
            store,
            taken_key,
            (h - 1) as nat,
            index,
            k,
        ) by {}
        assert(spec_ancestor(store, d, h, index, h) == d);
        assert forall|k: int| #![trigger path[k]] 0 <= k < h implies spec_children_are(
            store,
            spec_ancestor(store, d, h, index, (k + 1) as nat),
            (if index_bit(index, k as nat) {
                path[k]@
            } else {
                spec_ancestor(store, d, h, index, k as nat)
            }),
            (if index_bit(index, k as nat) {
                spec_ancestor(store, d, h, index, k as nat)
            } else {
                path[k]@
            }),
        ) by {
            if k < h - 1 {
                assert(path[k] == sub_path[k]);
                assert(spec_children_are(
                    store,
                    spec_ancestor(store, taken_key, (h - 1) as nat, index, (k + 1) as nat),
                    (if index_bit(index, k as nat) {
                        sub_path[k]@
                    } else {
                        spec_ancestor(store, taken_key, (h - 1) as nat, index, k as nat)
                    }),
                    (if index_bit(index, k as nat) {
                        spec_ancestor(store, taken_key, (h - 1) as nat, index, k as nat)
                    } else {
                        sub_path[k]@
                    }),
                ));
            } else {
                // k == h - 1: the parent is `d` itself, whose children are
                // the taken branch and the pushed sibling in table order.
                assert(path[k] == sibling);
                lemma_find_reads_digest(store@, taken_key, 0);
                assert(spec_ancestor(store, taken_key, (h - 1) as nat, index, (h - 1) as nat)
                    == taken_key);
                assert(spec_children_are(store, d, left_d@, right_d@));
            }
        }
    }
}

/// Round trip: on a well-formed tree, `prove_leaf` succeeds for every index
/// in range, and recombining what it returns reproduces the root. The path
/// entry at height `k` is the sibling of the leaf's ancestor at height `k`:
/// the node table confirms, level by level, that the ancestor one up holds
/// the ancestor and the entry as its ordered children — entry left or right
/// as bit `k` of the index says — until the ancestor at the top, which is
/// `root_hash` itself.
pub proof fn lemma_prove_leaf_round_trip(t: MerkleTree, index: u64)
    requires
        t.well_formed(),
        index_in_range(index, t.spec_height()),
    ensures
        (t.spec_prove_leaf(index) matches Ok(r) && descend_links(
            t.spec_store(),
            t.spec_root()@,
            t.spec_height(),
            index,
            r.0,
            r.1,
        )),
{
    lemma_descend_on_wf(t.spec_store(), t.spec_root()@, t.spec_height(), index);
}

/// Proof length: on a well-formed tree the path `prove_leaf` returns has
/// exactly one entry per level, the height of the tree.
pub proof fn lemma_prove_leaf_length(t: MerkleTree, index: u64)
    requires
        t.well_formed(),
        index_in_range(index, t.spec_height()),
    ensures
        (t.spec_prove_leaf(index) matches Ok(r) && r.1.len() == t.spec_height()),
{
    lemma_prove_leaf_round_trip(t, index);
}

/// Determinism: any two values `prove_leaf` may return for the same tree and
/// index carry the same leaf digest and the same path digests, or the same
/// error — the result is a pure function of the unchanged tree and the index.
pub proof fn lemma_prove_leaf_deterministic(
    t: MerkleTree,
    index: u64,
    r1: Result<(Digest, Vec<Digest>), MerkleTreeError>,
    r2: Result<(Digest, Vec<Digest>), MerkleTreeError>,
)
    requires
        t.prove_leaf_post(index, r1),
        t.prove_leaf_post(index, r2),
    ensures
        (match (r1, r2) {
            (Ok((leaf1, path1)), Ok((leaf2, path2))) => leaf1 == leaf2 && path1@ == path2@,
            (Err(e1), Err(e2)) => e1 == e2,
            _ => false,
        }),
{
}

/// Determinism of the rightmost walk, in the same sense.
pub proof fn lemma_last_deterministic(
    t: MerkleTree,
    r1: Result<(Digest, Vec<Digest>), MerkleTreeError>,
    r2: Result<(Digest, Vec<Digest>), MerkleTreeError>,
)
    requires
        t.last_post(r1),
        t.last_post(r2),
    ensures
        (match (r1, r2) {
            (Ok((leaf1, path1)), Ok((leaf2, path2))) => leaf1 == leaf2 && path1@ == path2@,
            (Err(e1), Err(e2)) => e1 == e2,
            _ => false,
        }),
{
}

/// An index one past the addressable range — or further — is rejected
/// outright, before the node table is even consulted: never truncated,
/// wrapped or answered with a stray proof.
pub proof fn lemma_out_of_range_rejected(t: MerkleTree, index: u64)
    requires
        !index_in_range(index, t.spec_height()),
    ensures
        t.spec_prove_leaf(index) == Err::<(Digest, Seq<Digest>), _>(
            MerkleTreeError::IndexOutOfRange,
        ),
{
}

/// The digest of the rightmost leaf of the sub-tree of height `h` under `d`:
/// what `h` steps of always-right descent arrive at.
pub open spec fn spec_rightmost(store: NodeStore, d: Seq<u8>, h: nat) -> Seq<u8>
    decreases h,
{
    if h == 0 {
        d
    } else {
        match store.spec_find(d) {
            Some(node) => match node.children {
                Some((left_d, right_d)) => spec_rightmost(store, right_d@, (h - 1) as nat),
                None => d,
            },
            None => d,
        }
    }
}

/// The largest index a tree of height `h` can address.
pub open spec fn spec_max_index(h: nat) -> u64 {
    if h >= 64 {
        u64::MAX
    } else {
        (pow2(h) - 1) as u64
    }
}

/// Every consulted bit of the maximal index is set: the descent to it goes
/// right at every level.
proof fn lemma_max_index_bits(h: nat, k: nat)
    requires
        k < h <= 64,
    ensures
        index_bit(spec_max_index(h), k),
{
    let kk = k as u64;
    if h == 64 {
        assert(((u64::MAX >> kk) & 1) == 1) by (bit_vector)
            requires
                kk < 64,
        ;
    } else {
        let hh = h as u64;
        lemma_u64_pow2_no_overflow(h);
        lemma_u64_shl_is_mul(1u64, hh);
        let m = (pow2(h) - 1) as u64;
        assert(((m >> kk) & 1) == 1) by (bit_vector)
            requires
                m + 1 == (1u64 << hh),
                kk < hh,
                hh < 64,
        ;
    }
}

/// The maximal index is in range.
proof fn lemma_max_index_in_range(h: nat)
    requires
        h <= 64,
    ensures
        index_in_range(spec_max_index(h), h),
{
    if h == 64 {
        lemma2_to64();
    } else {
        lemma_u64_pow2_no_overflow(h);
        lemma_pow2_pos(h);
    }
}

/// The walk below an internal node of a well-shaped sub-tree of height `h`
/// ends, within any budget of at least `h - 1` steps, at the rightmost leaf,
/// with one path entry per level.
proof fn lemma_last_walk_on_wf(store: NodeStore, d: Seq<u8>, h: nat, fuel: nat)
    requires
        subtree_wf(store, d, h),
        h >= 1,
        fuel + 1 >= h,
    ensures
        (store.spec_find(d) matches Some(node) && node.children matches Some((left, right))
            && spec_last_walk(store, left, right, fuel) matches Some(Ok(r)) && r.0@
            == spec_rightmost(store, d, h) && r.1.len() == h),
    decreases h,
{
    let node = match store.spec_find(d) {
        Some(n) => n,
        None => {
            assert(false);
            arbitrary()
        },
    };
    let (left_d, right_d) = match node.children {
        Some(c) => c,
        None => {
            assert(false);
            arbitrary()
        },
    };
    assert(subtree_wf(store, right_d@, (h - 1) as nat));
    assert(spec_rightmost(store, d, h) == spec_rightmost(store, right_d@, (h - 1) as nat));
    if h == 1 {
        lemma_find_reads_digest(store@, right_d@, 0);
        assert(spec_rightmost(store, right_d@, 0) == right_d@);
        assert(spec_last_walk(store, left_d, right_d, fuel) == Some(
            Ok::<_, MerkleTreeError>((right_d, seq![left_d])),
        ));
    } else {
        lemma_last_walk_on_wf(store, right_d@, (h - 1) as nat, (fuel - 1) as nat);
        let right_node = match store.spec_find(right_d@) {
            Some(n) => n,
            None => {
                assert(false);
                arbitrary()
            },
        };
        let (left2_d, right2_d) = match right_node.children {
            Some(c) => c,
            None => {
                assert(false);
                arbitrary()
            },
        };
        let sub = match spec_last_walk(store, left2_d, right2_d, (fuel - 1) as nat) {
            Some(Ok(r)) => r,
            _ => {
                assert(false);
                arbitrary()
            },
        };
        assert(spec_last_walk(store, left_d, right_d, fuel) == Some(
            Ok::<_, MerkleTreeError>((sub.0, sub.1.push(left_d))),
        ));
    }
}

/// On a well-formed tree the rightmost walk terminates: the height itself
/// bounds its steps.
pub proof fn lemma_well_formed_last_terminates(t: MerkleTree)
    requires
        t.well_formed(),
    ensures
        t.last_walk_terminates(),
{
    let store = t.spec_store();
    let h = t.spec_height();
    if h >= 1 {
        lemma_last_walk_on_wf(store, t.spec_root()@, h, h);
        let node = match store.spec_find(t.spec_root()@) {
            Some(n) => n,
            None => {
                assert(false);
                arbitrary()
            },
        };
        let (left_d, right_d) = match node.children {
            Some(c) => c,
            None => {
                assert(false);
                arbitrary()
            },
        };
        assert(spec_last_walk(store, left_d, right_d, h) is Some);
    }
}

/// On a well-formed tree the rightmost walk succeeds, arrives at the
/// rightmost leaf, and returns one path entry per level: its length is the
/// height, like `prove_leaf`'s.
pub proof fn lemma_last_length(t: MerkleTree)
    requires
        t.well_formed(),
    ensures
        (t.spec_last() matches Ok(r) && r.0@ == spec_rightmost(
            t.spec_store(),
            t.spec_root()@,
            t.spec_height(),
        ) && r.1.len() == t.spec_height()),
{
    let store = t.spec_store();
    let root_d = t.spec_root()@;
    let h = t.spec_height();
    if h == 0 {
        lemma_find_reads_digest(store@, root_d, 0);
    } else {
        lemma_last_walk_on_wf(store, root_d, h, h);
        let node = match store.spec_find(root_d) {
            Some(n) => n,
            None => {
                assert(false);
                arbitrary()
            },
        };
        let (left_d, right_d) = match node.children {
            Some(c) => c,
            None => {
                assert(false);
                arbitrary()
            },
        };
        let chosen = choose|fuel: nat| spec_last_walk(store, left_d, right_d, fuel) is Some;
        assert(spec_last_walk(store, left_d, right_d, h) is Some);
        lemma_last_walk_fuel_agrees(store, left_d, right_d, chosen, h);
    }
}

/// Below an internal node of a well-shaped sub-tree, the rightmost walk and
/// the descent along an all-set index return the very same path — both file
/// each level's left child, in the same bottom-up order — and leaf digests
/// that read alike.
proof fn lemma_walk_equals_max_descent(store: NodeStore, d: Seq<u8>, h: nat, index: u64, fuel: nat)
    requires
        subtree_wf(store, d, h),
        1 <= h <= 64,
        fuel + 1 >= h,
        forall|k: nat| k < h ==> index_bit(index, k),
    ensures
        (store.spec_find(d) matches Some(node) && node.children matches Some((left, right))
            && spec_last_walk(store, left, right, fuel) matches Some(Ok(walk_r)) && spec_descend(
            store,
            node,
            h,
            index,
        ) matches Ok(descend_r) && walk_r.0@ == descend_r.0@ && walk_r.1 == descend_r.1
            && descend_r.1.len() == h),
    decreases h,
{
    let node = match store.spec_find(d) {
        Some(n) => n,
        None => {
            assert(false);
            arbitrary()
        },
    };
    let (left_d, right_d) = match node.children {
        Some(c) => c,
        None => {
            assert(false);
            arbitrary()
        },
    };
    assert(subtree_wf(store, left_d@, (h - 1) as nat));
    assert(subtree_wf(store, right_d@, (h - 1) as nat));
    assert(store.spec_find(left_d@) is Some);
    let right_node = match store.spec_find(right_d@) {
        Some(n) => n,
        None => {
            assert(false);
            arbitrary()
        },
    };
    assert(index_bit(index, (h - 1) as nat));
    lemma_find_reads_digest(store@, right_d@, 0);
    if h == 1 {
        assert(spec_last_walk(store, left_d, right_d, fuel) == Some(
            Ok::<_, MerkleTreeError>((right_d, seq![left_d])),
        ));
        assert(spec_descend(store, right_node, 0, index) == Ok::<_, MerkleTreeError>((
            right_node.digest,
            Seq::<Digest>::empty(),
        )));
        assert(spec_descend(store, node, h, index) == Ok::<_, MerkleTreeError>((
            right_node.digest,
            seq![left_d],
        )));
        assert(Seq::<Digest>::empty().push(left_d) =~= seq![left_d]);
    } else {
        lemma_walk_equals_max_descent(store, right_d@, (h - 1) as nat, index, (fuel - 1) as nat);
        let (left2_d, right2_d) = match right_node.children {
            Some(c) => c,
            None => {
                assert(false);
                arbitrary()
            },
        };
        let sub_walk = match spec_last_walk(store, left2_d, right2_d, (fuel - 1) as nat) {
            Some(Ok(r)) => r,
            _ => {
                assert(false);
                arbitrary()
            },
        };
        let sub_descend = match spec_descend(store, right_node, (h - 1) as nat, index) {
            Ok(r) => r,
            Err(_) => {
                assert(false);
                arbitrary()
            },
        };
        assert(spec_last_walk(store, left_d, right_d, fuel) == Some(
            Ok::<_, MerkleTreeError>((sub_walk.0, sub_walk.1.push(left_d))),
        ));
        assert(spec_descend(store, node, h, index) == Ok::<_, MerkleTreeError>((
            sub_descend.0,
            sub_descend.1.push(left_d),
        )));
    }
}

/// Last consistency: on a well-formed tree of height up to the width of the
/// index type, `last` returns exactly what `prove_leaf` returns for the
/// maximal index — the same proof path, and a leaf digest that reads the
/// same — for every shape including the single-leaf tree of height zero.
pub proof fn lemma_last_consistency(t: MerkleTree)
    requires
        t.well_formed(),
        t.spec_height() <= 64,
    ensures
        (t.spec_last() matches Ok(last_r) && t.spec_prove_leaf(
            spec_max_index(t.spec_height()),
        ) matches Ok(prove_r) && last_r.0@ == prove_r.0@ && last_r.1 == prove_r.1 && prove_r.1.len()
            == t.spec_height()),
{
    let store = t.spec_store();
    let root_d = t.spec_root()@;
    let h = t.spec_height();
    let index = spec_max_index(h);
    lemma_max_index_in_range(h);

    if h == 0 {
        lemma2_to64();
        assert(index == 0);
        lemma_find_reads_digest(store@, root_d, 0);
    } else {
        assert forall|k: nat| k < h implies index_bit(index, k) by {
            lemma_max_index_bits(h, k);
        }
        lemma_walk_equals_max_descent(store, root_d, h, index, h);
        let node = match store.spec_find(root_d) {
            Some(n) => n,
            None => {
                assert(false);
                arbitrary()
            },
        };
        let (left_d, right_d) = match node.children {
            Some(c) => c,
            None => {
                assert(false);
                arbitrary()
            },
        };
        let chosen = choose|fuel: nat| spec_last_walk(store, left_d, right_d, fuel) is Some;
        assert(spec_last_walk(store, left_d, right_d, h) is Some);
        lemma_last_walk_fuel_agrees(store, left_d, right_d, chosen, h);
    }
}

/// The minimal tree: with height zero the root is itself the leaf, and both
/// algorithms say so alike — `prove_leaf(0)` and `last` each hand back the
/// root digest over an empty path.
pub proof fn lemma_minimal_tree(t: MerkleTree)
    requires
        t.well_formed(),
        t.spec_height() == 0,
    ensures
        (t.spec_prove_leaf(0) matches Ok(r) && r.0@ == t.spec_root()@ && r.1
            == Seq::<Digest>::empty()),
        t.spec_last() == t.spec_prove_leaf(0),
{
    lemma_pow2_pos(0);
    lemma_prove_leaf_round_trip(t, 0);
}

} // verus!
