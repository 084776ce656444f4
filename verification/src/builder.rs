//! The outside hash builder: a trie built from its leaves in key order.
//!
//! A builder takes the leaves of a trie one by one and stores the branch nodes it finishes on the
//! way. What it stores, and the node it ends with, are functions of the leaves alone.

use crate::bytes::lex_lt;
use crate::nibbles::{all_nibbles, starts_with, Nibbles};
use crate::node::{stored, BranchNodeCompact, BranchView};
use crate::primitives::B256;
use crate::rlp::{branch_reference, empty_root, reference_hash};
use alloy_trie::proof::AddedRemovedKeys;
use alloy_trie::HashBuilder;
use vstd::prelude::*;

verus! {

/// `alloy_trie::HashBuilder`.
#[verifier::external_type_specification]
#[verifier::external_body]
#[verifier::reject_recursive_types(K)]
pub struct ExHashBuilder<K>(alloy_trie::HashBuilder<K>);

/// `alloy_trie::proof::AddedRemovedKeys`, the default parameter of the builder.
#[verifier::external_type_specification]
#[verifier::external_body]
pub struct ExAddedRemovedKeys(alloy_trie::proof::AddedRemovedKeys);

/// A leaf: the nibbles of its key, and its value.
pub type Leaf = (Seq<u8>, Seq<u8>);

/// Branch nodes by path.
pub type Nodes = Map<Seq<u8>, BranchView>;

/// No branch nodes.
pub open spec fn no_nodes() -> Nodes {
    Map::empty()
}

/// Whether the keys are nibbles, of one length from 1 to 64, in strictly ascending order.
pub open spec fn are_leaves(leaves: Seq<Leaf>) -> bool {
    &&& forall|i: int|
        0 <= i < leaves.len() ==> all_nibbles(#[trigger] leaves[i].0) && 1 <= leaves[i].0.len()
            <= 64 && leaves[i].0.len() == leaves[0].0.len()
    &&& forall|i: int, j: int|
        0 <= i < j < leaves.len() ==> lex_lt(#[trigger] leaves[i].0, #[trigger] leaves[j].0)
}

/// Whether the leaves have full keys.
pub open spec fn full_leaves(leaves: Seq<Leaf>) -> bool {
    are_leaves(leaves) && forall|i: int|
        0 <= i < leaves.len() ==> (#[trigger] leaves[i].0).len() == 64
}

/// The leaves whose key starts with `prefix`, without that prefix.
pub open spec fn under(leaves: Seq<Leaf>, prefix: Seq<u8>) -> Seq<Leaf>
    decreases leaves.len(),
{
    if leaves.len() == 0 {
        leaves
    } else {
        let rest = under(leaves.drop_last(), prefix);
        let (key, value) = leaves.last();
        if starts_with(key, prefix) {
            rest.push((key.skip(prefix.len() as int), value))
        } else {
            rest
        }
    }
}

/// The leaves whose key starts with the nibble `n`, without that nibble.
pub open spec fn part(leaves: Seq<Leaf>, n: u8) -> Seq<Leaf> {
    under(leaves, seq![n])
}

/// Whether two keys start with different nibbles.
pub open spec fn spread(leaves: Seq<Leaf>) -> bool {
    exists|i: int, j: int|
        0 <= i < j < leaves.len() && #[trigger] leaves[i].0.take(1) != #[trigger] leaves[j].0.take(
            1,
        )
}

/// The leaves that a builder was given.
pub uninterp spec fn builder_leaves(hb: HashBuilder) -> Seq<Leaf>;

/// The branch nodes that a builder holds.
pub uninterp spec fn builder_nodes(hb: HashBuilder) -> Nodes;

/// Whether the root of a builder was computed.
pub uninterp spec fn builder_closed(hb: HashBuilder) -> bool;

/// The branch nodes that a builder stores while it takes the leaves.
pub uninterp spec fn open_nodes(leaves: Seq<Leaf>) -> Nodes;

/// The branch nodes that a builder stores while it takes the leaves and computes the root.
pub uninterp spec fn trie_nodes(leaves: Seq<Leaf>) -> Nodes;

/// The reference of the topmost node of the trie of the leaves.
pub uninterp spec fn trie_node(leaves: Seq<Leaf>) -> Seq<u8>;

/// What the root branch of the leaves holds for each first nibble.
pub open spec fn part_slots(leaves: Seq<Leaf>) -> Seq<Option<Seq<u8>>> {
    Seq::new(
        16,
        |n: int|
            if part(leaves, n as u8).len() == 0 {
                None
            } else {
                Some(trie_node(part(leaves, n as u8)))
            },
    )
}

/// The branch nodes of the parts, at their paths in the whole trie.
pub open spec fn part_nodes(leaves: Seq<Leaf>) -> Nodes {
    Map::new(
        |p: Seq<u8>| p.len() > 0 && nodes_of(part(leaves, p[0])).contains_key(p.skip(1)),
        |p: Seq<u8>| stored(nodes_of(part(leaves, p[0]))[p.skip(1)]),
    )
}

/// The nodes that are stored in the tables: all but the root node, without root hashes.
pub open spec fn below_root(nodes: Nodes) -> Nodes {
    Map::new(
        |p: Seq<u8>| p.len() > 0 && nodes.contains_key(p),
        |p: Seq<u8>| stored(nodes[p]),
    )
}

/// The root hash of the trie of the leaves.
pub open spec fn root_of(leaves: Seq<Leaf>) -> Seq<u8> {
    if leaves.len() == 0 {
        empty_root()
    } else {
        reference_hash(trie_node(leaves))
    }
}

/// The branch nodes of the trie of the leaves.
pub open spec fn nodes_of(leaves: Seq<Leaf>) -> Nodes {
    if leaves.len() == 0 {
        no_nodes()
    } else {
        trie_nodes(leaves)
    }
}

/// The branch nodes that are finished once a builder has taken the leaves.
pub open spec fn finished_nodes(leaves: Seq<Leaf>) -> Nodes {
    if leaves.len() == 0 {
        no_nodes()
    } else {
        open_nodes(leaves)
    }
}

/// Whether the trie of the leaves is the sum of its parts: below the root it stores the branch
/// nodes of the parts, and where the first nibbles differ, its topmost node is a branch that holds
/// the topmost nodes of the parts.
pub open spec fn is_sum_of_parts(leaves: Seq<Leaf>) -> bool {
    leaves.len() > 0 ==> {
        &&& below_root(nodes_of(leaves)) == part_nodes(leaves)
        &&& spread(leaves) ==> trie_node(leaves) == branch_reference(part_slots(leaves))
    }
}

/// Whether the list holds the entries of the map, each once.
pub open spec fn lists_nodes(list: Seq<(Seq<u8>, BranchView)>, nodes: Nodes) -> bool {
    &&& forall|i: int|
        0 <= i < list.len() ==> nodes.contains_key(#[trigger] list[i].0) && nodes[list[i].0]
            == list[i].1
    &&& forall|p: Seq<u8>| #[trigger]
        nodes.contains_key(p) ==> exists|i: int| 0 <= i < list.len() && #[trigger] list[i].0 == p
    &&& forall|i: int, j: int|
        0 <= i < j < list.len() ==> #[trigger] list[i].0 != #[trigger] list[j].0
}

/// `HashBuilder::default` with `with_updates`: a builder without leaves that keeps the branch
/// nodes it finishes.
#[verifier::external_body]
pub(crate) fn new_builder() -> (r: HashBuilder)
    ensures
        builder_leaves(r) == Seq::<Leaf>::empty(),
        builder_nodes(r) == no_nodes(),
        open_nodes(builder_leaves(r)) == no_nodes(),
        !builder_closed(r),
{
    HashBuilder::default().with_updates(true)
}

/// `HashBuilder::add_leaf`: takes one more leaf, whose key must come after the last one, and adds
/// the branch nodes that this finishes to those the builder holds. A branch node is finished once
/// and then stays as it is. Its path is shorter than the keys.
#[verifier::external_body]
pub(crate) fn add_leaf(hb: &mut HashBuilder, key: &Nibbles, value: &[u8])
    requires
        !builder_closed(*old(hb)),
        are_leaves(builder_leaves(*old(hb)).push((key@, value@))),
    ensures
        !builder_closed(*final(hb)),
        builder_leaves(*final(hb)) == builder_leaves(*old(hb)).push((key@, value@)),
        open_nodes(builder_leaves(*old(hb))).submap_of(open_nodes(builder_leaves(*final(hb)))),
        builder_nodes(*final(hb)) == builder_nodes(*old(hb)).union_prefer_right(
            open_nodes(builder_leaves(*final(hb))).remove_keys(
                open_nodes(builder_leaves(*old(hb))).dom(),
            ),
        ),
        forall|p: Seq<u8>| #[trigger]
            open_nodes(builder_leaves(*final(hb))).contains_key(p) ==> all_nibbles(p) && p.len()
                < key@.len(),
{
    hb.add_leaf(nybbles::Nibbles::from_nibbles(key.as_slice()), value)
}

/// `drain` on the `updated_branch_nodes` of a builder: hands out the branch nodes that the builder
/// holds, each once, in no particular order, and keeps none of them.
#[verifier::external_body]
pub(crate) fn drain_nodes(hb: &mut HashBuilder) -> (r: Vec<(Nibbles, BranchNodeCompact)>)
    ensures
        lists_nodes(
            r@.map_values(|e: (Nibbles, BranchNodeCompact)| (e.0@, e.1@)),
            builder_nodes(*old(hb)),
        ),
        builder_nodes(*final(hb)) == no_nodes(),
        builder_leaves(*final(hb)) == builder_leaves(*old(hb)),
        builder_closed(*final(hb)) == builder_closed(*old(hb)),
{
    let nodes = hb.updated_branch_nodes.as_mut().unwrap();
    nodes.drain().map(|(path, node)| {
        let node = BranchNodeCompact {
            state_mask: node.state_mask.get(),
            tree_mask: node.tree_mask.get(),
            hash_mask: node.hash_mask.get(),
            hashes: node.hashes.iter().map(|hash| B256(hash.0)).collect(),
            root_hash: node.root_hash.map(|hash| B256(hash.0)),
        };
        (Nibbles::from_nibbles(&path.to_vec()), node)
    }).collect()
}

/// `HashBuilder::root`: the root hash of the trie of the leaves. The branch nodes that are finished
/// with the last leaf join those the builder holds.
///
/// The trie is the sum of its parts: a builder that is given only the leaves below one first
/// nibble, without that nibble, stores the same branch nodes at shorter paths, save for a root hash
/// on its own root node, and ends with the node that the branch above it would hold.
#[verifier::external_body]
pub(crate) fn close_builder(hb: &mut HashBuilder) -> (r: B256)
    requires
        !builder_closed(*old(hb)),
    ensures
        builder_closed(*final(hb)),
        builder_leaves(*final(hb)) == builder_leaves(*old(hb)),
        r.bytes() == root_of(builder_leaves(*final(hb))),
        open_nodes(builder_leaves(*final(hb))).submap_of(trie_nodes(builder_leaves(*final(hb)))),
        builder_nodes(*final(hb)) == builder_nodes(*old(hb)).union_prefer_right(
            trie_nodes(builder_leaves(*final(hb))).remove_keys(
                open_nodes(builder_leaves(*final(hb))).dom(),
            ),
        ),
        trie_nodes(builder_leaves(*final(hb))) == nodes_of(builder_leaves(*final(hb))),
        forall|p: Seq<u8>| #[trigger]
            trie_nodes(builder_leaves(*final(hb))).contains_key(p) ==> all_nibbles(p) && p.len()
                < builder_leaves(*final(hb))[0].0.len(),
        builder_leaves(*final(hb))[0].0.len() > 1 ==> is_sum_of_parts(builder_leaves(*final(hb))),
{
    B256(hb.root().0)
}

/// The last entry of the `stack` of a builder whose root was computed: the reference of the topmost
/// node, of at most 33 bytes, or nothing for a trie without leaves.
#[verifier::external_body]
pub(crate) fn top_node(hb: &HashBuilder) -> (r: Option<Vec<u8>>)
    requires
        builder_closed(*hb),
    ensures
        r is Some <==> builder_leaves(*hb).len() > 0,
        r matches Some(node) ==> node@ == trie_node(builder_leaves(*hb)) && node@.len() <= 33,
{
    hb.stack.last().map(|node| node.as_slice().to_vec())
}

} // verus!
