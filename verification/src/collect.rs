//! Collecting emitted nodes into [`TrieUpdates`].

use crate::nibbles::Nibbles;
use crate::node::{BranchNodeCompact, BranchView};
use crate::primitives::B256;
use crate::sink::{lemma_lists_push, lists_all, Entry, NodeSet, OnNode};
use crate::updates::TrieUpdates;
use vstd::prelude::*;

verus! {

/// Accumulates nodes into a [`TrieUpdates`].
///
/// Holds everything in memory; suitable for the merkle-stage integration at the sizes that path
/// already handles, not for a 10^9-leaf build in one go.
pub struct TrieUpdatesCollector {
    updates: TrieUpdates,
    log: Ghost<Seq<Entry>>,
}

impl TrieUpdatesCollector {
    /// The nodes recorded so far.
    pub closed spec fn nodes(&self) -> NodeSet {
        self.updates.nodes()
    }

    #[verifier::type_invariant]
    spec fn inv(self) -> bool {
        self.updates.only_writes() && lists_all(self.log@, self.updates.nodes())
    }

    /// Records a branch node; `account` is `None` for the state trie. No node is recorded twice.
    pub fn push(&mut self, account: Option<B256>, path: Nibbles, node: BranchNodeCompact)
        requires
            !old(self).nodes().contains_key((account, path@)),
        ensures
            final(self).nodes() == old(self).nodes().insert((account, path@), node@),
            final(self).log() == old(self).log().push((account, path@, node@)),
    {
        let ghost entry = (account, path@, node@);
        let mut taken = TrieUpdatesCollector::default();
        std::mem::swap(self, &mut taken);
        proof {
            use_type_invariant(&taken);
        }
        let TrieUpdatesCollector { updates, log } = taken;
        let mut updates = updates;
        proof {
            lemma_lists_push(log@, updates.nodes(), entry);
        }
        updates.insert_node(account, path, node);
        let ghost entries = log@.push(entry);
        *self = TrieUpdatesCollector { updates, log: Ghost(entries) };
    }

    /// Consumes the collector and returns the accumulated updates.
    pub fn into_updates(self) -> (r: TrieUpdates)
        ensures
            r.nodes() == self.nodes(),
            lists_all(self.log(), r.nodes()),
            r.only_writes(),
    {
        proof {
            use_type_invariant(&self);
        }
        let TrieUpdatesCollector { updates, log: _ } = self;
        updates
    }
}

impl Default for TrieUpdatesCollector {
    fn default() -> (r: TrieUpdatesCollector)
        ensures
            r.nodes() == Map::<(Option<B256>, Seq<u8>), BranchView>::empty(),
            r.log() == Seq::<Entry>::empty(),
    {
        TrieUpdatesCollector { updates: TrieUpdates::default(), log: Ghost(Seq::empty()) }
    }
}

impl OnNode for TrieUpdatesCollector {
    closed spec fn log(&self) -> Seq<Entry> {
        self.log@
    }

    open spec fn accepts(&self, account: Option<B256>, path: Seq<u8>) -> bool {
        !self.nodes().contains_key((account, path))
    }

    fn on_node(&mut self, account: Option<B256>, path: Nibbles, node: BranchNodeCompact) {
        self.push(account, path, node)
    }
}

} // verus!
