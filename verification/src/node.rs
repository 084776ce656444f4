//! Branch nodes as the trie tables store them.

use crate::primitives::B256;
use vstd::prelude::*;

verus! {

/// A branch node in its stored form.
#[derive(Debug, PartialEq, Eq)]
pub struct BranchNodeCompact {
    /// The nibbles with a child.
    pub state_mask: u16,
    /// The nibbles below which another branch node is stored.
    pub tree_mask: u16,
    /// The nibbles whose child is a hashed branch node.
    pub hash_mask: u16,
    /// The hashes of the children in `hash_mask`.
    pub hashes: Vec<B256>,
    /// The root hash, on the root node of a whole trie.
    pub root_hash: Option<B256>,
}

/// The content of a [`BranchNodeCompact`].
#[verifier::ext_equal]
pub struct BranchView {
    /// The nibbles with a child.
    pub state_mask: u16,
    /// The nibbles below which another branch node is stored.
    pub tree_mask: u16,
    /// The nibbles whose child is a hashed branch node.
    pub hash_mask: u16,
    /// The hashes of the children in `hash_mask`.
    pub hashes: Seq<B256>,
    /// The root hash, on the root node of a whole trie.
    pub root_hash: Option<B256>,
}

impl View for BranchNodeCompact {
    type V = BranchView;

    open spec fn view(&self) -> BranchView {
        BranchView {
            state_mask: self.state_mask,
            tree_mask: self.tree_mask,
            hash_mask: self.hash_mask,
            hashes: self.hashes@,
            root_hash: self.root_hash,
        }
    }
}

/// The node without a root hash, as the tables hold it.
pub open spec fn stored(node: BranchView) -> BranchView {
    BranchView { root_hash: None, ..node }
}

impl BranchNodeCompact {
    /// A node with the same content.
    pub fn duplicate(&self) -> (r: BranchNodeCompact)
        ensures
            r@ == self@,
    {
        let mut hashes: Vec<B256> = Vec::new();
        let mut i: usize = 0;
        while i < self.hashes.len()
            invariant
                i <= self.hashes@.len(),
                hashes@ == self.hashes@.take(i as int),
            decreases self.hashes@.len() - i,
        {
            hashes.push(self.hashes[i]);
            i = i + 1;
            assert(hashes@ =~= self.hashes@.take(i as int));
        }
        assert(hashes@ =~= self.hashes@);
        BranchNodeCompact {
            state_mask: self.state_mask,
            tree_mask: self.tree_mask,
            hash_mask: self.hash_mask,
            hashes,
            root_hash: self.root_hash,
        }
    }
}

} // verus!
