//! The nodes of a build as updates of the trie tables.

use crate::bytes::lemma_lex_irreflexive;
use crate::nibbles::Nibbles;
use crate::node::{BranchNodeCompact, BranchView};
use crate::ordered::{lists_keys, models, OrderedKey, OrderedMap};
use crate::primitives::B256;
use crate::sink::{lemma_lists_push, lists_all, Entry, NodeSet, OnNode};
use vstd::prelude::*;

verus! {

/// Updates of the storage trie of one account.
#[derive(Debug, PartialEq, Eq)]
pub struct StorageTrieUpdates {
    /// Nodes to write, by path.
    pub storage_nodes: OrderedMap<Nibbles, BranchNodeCompact>,
    /// Paths of nodes to remove.
    pub removed_nodes: OrderedMap<Nibbles, ()>,
}

/// Updates of the trie tables.
#[derive(Debug, PartialEq, Eq)]
pub struct TrieUpdates {
    /// Account trie nodes to write, by path.
    pub account_nodes: OrderedMap<Nibbles, BranchNodeCompact>,
    /// Paths of account trie nodes to remove.
    pub removed_nodes: OrderedMap<Nibbles, ()>,
    /// Updates of storage tries, by hashed address.
    pub storage_tries: OrderedMap<B256, StorageTrieUpdates>,
}

impl StorageTrieUpdates {
    /// Whether there is a node to write or to remove.
    pub open spec fn has_content(&self) -> bool {
        self.storage_nodes@ != Map::<Seq<u8>, BranchNodeCompact>::empty() || self.removed_nodes@
            != Map::<Seq<u8>, ()>::empty()
    }

    /// Updates without content.
    pub fn new() -> (r: StorageTrieUpdates)
        ensures
            r.storage_nodes@ == Map::<Seq<u8>, BranchNodeCompact>::empty(),
            r.removed_nodes@ == Map::<Seq<u8>, ()>::empty(),
    {
        StorageTrieUpdates {
            storage_nodes: OrderedMap::new(),
            removed_nodes: OrderedMap::new(),
        }
    }
}

impl Default for TrieUpdates {
    fn default() -> (r: TrieUpdates)
        ensures
            r.account_nodes@ == Map::<Seq<u8>, BranchNodeCompact>::empty(),
            r.removed_nodes@ == Map::<Seq<u8>, ()>::empty(),
            r.storage_tries@ == Map::<B256, StorageTrieUpdates>::empty(),
            r.nodes() == Map::<(Option<B256>, Seq<u8>), BranchView>::empty(),
    {
        let r = TrieUpdates {
            account_nodes: OrderedMap::new(),
            removed_nodes: OrderedMap::new(),
            storage_tries: OrderedMap::new(),
        };
        assert(r.nodes() =~= Map::empty());
        r
    }
}

impl TrieUpdates {
    /// The nodes to write.
    pub open spec fn nodes(&self) -> NodeSet {
        Map::new(
            |k: (Option<B256>, Seq<u8>)|
                match k.0 {
                    None => self.account_nodes@.contains_key(k.1),
                    Some(a) => self.storage_tries@.contains_key(a)
                        && self.storage_tries@[a].storage_nodes@.contains_key(k.1),
                },
            |k: (Option<B256>, Seq<u8>)|
                match k.0 {
                    None => self.account_nodes@[k.1]@,
                    Some(a) => self.storage_tries@[a].storage_nodes@[k.1]@,
                },
        )
    }

    /// Whether nothing is removed.
    pub open spec fn removes_nothing(&self) -> bool {
        &&& self.removed_nodes@ == Map::<Seq<u8>, ()>::empty()
        &&& forall|a: B256| #[trigger]
            self.storage_tries@.contains_key(a) ==> self.storage_tries@[a].removed_nodes@ == Map::<
                Seq<u8>,
                (),
            >::empty()
    }

    /// Whether only nodes are written: nothing is removed, and no storage trie is empty.
    pub open spec fn only_writes(&self) -> bool {
        &&& self.removed_nodes@ == Map::<Seq<u8>, ()>::empty()
        &&& forall|a: B256| #[trigger]
            self.storage_tries@.contains_key(a) ==> {
                &&& self.storage_tries@[a].removed_nodes@ == Map::<Seq<u8>, ()>::empty()
                &&& self.storage_tries@[a].storage_nodes@ != Map::<
                    Seq<u8>,
                    BranchNodeCompact,
                >::empty()
            }
    }

    /// Whether there is a node to write at a place; `account` is `None` for the state trie.
    pub fn contains_node(&self, account: &Option<B256>, path: &Nibbles) -> (r: bool)
        ensures
            r == self.nodes().contains_key((*account, path@)),
    {
        match account {
            None => self.account_nodes.contains_key(path),
            Some(hashed_address) => match self.storage_tries.get(hashed_address) {
                Some(trie) => trie.storage_nodes.contains_key(path),
                None => false,
            },
        }
    }

    /// Adds a node to write; `account` is `None` for the state trie. Returns the node that was
    /// there.
    pub fn insert_node(
        &mut self,
        account: Option<B256>,
        path: Nibbles,
        node: BranchNodeCompact,
    ) -> (r: Option<BranchNodeCompact>)
        ensures
            final(self).nodes() == old(self).nodes().insert((account, path@), node@),
            final(self).removed_nodes == old(self).removed_nodes,
            old(self).only_writes() ==> final(self).only_writes(),
            r is Some <==> old(self).nodes().contains_key((account, path@)),
            r matches Some(prev) ==> prev@ == old(self).nodes()[(account, path@)],
            account is None ==> final(self).storage_tries == old(self).storage_tries,
            account matches Some(a) ==> {
                &&& final(self).account_nodes == old(self).account_nodes
                &&& final(self).storage_tries@.contains_key(a)
                &&& final(self).storage_tries@[a].removed_nodes@ == if old(self)
                    .storage_tries@.contains_key(a) {
                    old(self).storage_tries@[a].removed_nodes@
                } else {
                    Map::<Seq<u8>, ()>::empty()
                }
                &&& forall|b: B256|
                    b != a ==> (#[trigger] final(self).storage_tries@.contains_key(b) <==> old(
                        self).storage_tries@.contains_key(b))
                &&& forall|b: B256|
                    b != a && old(self).storage_tries@.contains_key(b) ==> (
                    #[trigger] final(self).storage_tries@[b]) == old(self).storage_tries@[b]
            },
    {
        let ghost before = *self;
        let ghost key = path@;
        let ghost view = node@;
        match account {
            None => {
                let r = self.account_nodes.insert(path, node);
                assert(self.nodes() =~= before.nodes().insert((account, key), view));
                r
            },
            Some(hashed_address) => {
                let mut trie = match self.storage_tries.remove(&hashed_address) {
                    Some(trie) => trie,
                    None => StorageTrieUpdates::new(),
                };
                let ghost was = trie.storage_nodes@;
                let r = trie.storage_nodes.insert(path, node);
                assert(trie.storage_nodes@.contains_key(key));
                self.storage_tries.insert(hashed_address, trie);
                proof {
                    let a = before.nodes().insert((account, key), view);
                    let b = self.nodes();
                    assert forall|k: (Option<B256>, Seq<u8>)|
                        #![trigger a.dom().contains(k)]
                        #![trigger b.dom().contains(k)]
                        #![trigger a[k]]
                        a.dom().contains(k) == b.dom().contains(k) && (a.dom().contains(k) ==> a[k]
                            == b[k]) by {
                        if k.0 == Some(hashed_address) {
                            assert(was.contains_key(k.1) == before.nodes().contains_key(k));
                        }
                    }
                    assert(a =~= b);
                    assert(was.contains_key(key) == before.nodes().contains_key((account, key)));
                }
                r
            },
        }
    }
}

/// Whether `r` is `updates` without the storage tries that hold nothing.
pub open spec fn is_without_empty_tries(updates: TrieUpdates, r: TrieUpdates) -> bool {
    &&& r.account_nodes == updates.account_nodes
    &&& r.removed_nodes == updates.removed_nodes
    &&& forall|a: B256| #[trigger]
        r.storage_tries@.contains_key(a) <==> updates.storage_tries@.contains_key(a)
            && updates.storage_tries@[a].has_content()
    &&& forall|a: B256| #[trigger]
        r.storage_tries@.contains_key(a) ==> r.storage_tries@[a] == updates.storage_tries@[a]
}

/// Drops the storage tries `updates` holds nothing for, so two updates compare on content: a walk
/// may record every account with storage, a generator run only those with nodes.
pub fn without_empty_storage_tries(updates: TrieUpdates) -> (r: TrieUpdates)
    ensures
        is_without_empty_tries(updates, r),
        r.nodes() == updates.nodes(),
{
    let ghost all = updates.storage_tries@;
    let ghost was = updates;
    let TrieUpdates { account_nodes, removed_nodes, storage_tries } = updates;
    let mut storage_tries = storage_tries;
    let mut kept: OrderedMap<B256, StorageTrieUpdates> = OrderedMap::new();
    let keys = storage_tries.keys();
    let ghost order = models(keys@);
    proof {
        assert forall|j: int| 0 <= j < keys@.len() implies all.contains_key(#[trigger] keys@[j]) by {
            assert(all.contains_key(order[j]));
        }
    }
    let mut i: usize = 0;
    while i < keys.len()
        invariant
            i <= keys@.len(),
            lists_keys::<B256, StorageTrieUpdates>(order, all),
            order == models(keys@),
            forall|j: int| i <= j < keys@.len() ==> storage_tries@.contains_key(#[trigger] keys@[j])
                && storage_tries@[keys@[j]] == all[keys@[j]],
            forall|a: B256| #[trigger]
                kept@.contains_key(a) <==> all.contains_key(a) && all[a].has_content() && exists|
                    j: int,
                | 0 <= j < i && #[trigger] keys@[j] == a,
            forall|a: B256| #[trigger] kept@.contains_key(a) ==> kept@[a] == all[a],
        decreases keys@.len() - i,
    {
        let key = keys[i];
        assert(all.contains_key(order[i as int]));
        let trie = storage_tries.remove(&key).unwrap();
        if !trie.storage_nodes.is_empty() || !trie.removed_nodes.is_empty() {
            kept.insert(key, trie);
        }
        proof {
            assert forall|j: int| i + 1 <= j < keys@.len() implies storage_tries@.contains_key(
                #[trigger] keys@[j],
            ) && storage_tries@[keys@[j]] == all[keys@[j]] by {
                assert(<B256 as OrderedKey>::before(order[i as int], order[j]));
                lemma_lex_irreflexive(key.bytes());
            }
        }
        i = i + 1;
    }
    let r = TrieUpdates { account_nodes, removed_nodes, storage_tries: kept };
    proof {
        assert forall|a: B256| all.contains_key(a) implies exists|j: int|
            0 <= j < i && #[trigger] keys@[j] == a by {
            assert(order.contains(a));
            let j = choose|j: int| 0 <= j < order.len() && order[j] == a;
            assert(keys@[j] == a);
        }
        let (x, y) = (r.nodes(), was.nodes());
        assert forall|k: (Option<B256>, Seq<u8>)|
            #![trigger x.dom().contains(k)]
            #![trigger y.dom().contains(k)]
            #![trigger x[k]]
            x.dom().contains(k) == y.dom().contains(k) && (x.dom().contains(k) ==> x[k]
                == y[k]) by {
            match k.0 {
                None => {},
                Some(a) => {
                    if all.contains_key(a) && all[a].storage_nodes@.contains_key(k.1) {
                        assert(all[a].storage_nodes@ != Map::<Seq<u8>, BranchNodeCompact>::empty());
                    }
                    assert(kept@.contains_key(a) ==> kept@[a] == all[a]);
                },
            }
        }
        assert(x =~= y);
    }
    r
}

/// The shard that a node belongs to: the first nibble of its account, or of its path in the state
/// trie.
pub open spec fn shard_of(k: (Option<B256>, Seq<u8>)) -> int {
    match k.0 {
        Some(hashed_address) => (hashed_address.bytes()[0] / 16) as int,
        None => k.1[0] as int,
    }
}

/// A sink that collects all nodes into [`TrieUpdates`], in one shard per first nibble.
///
/// All nodes are kept in memory, so this is only suitable for tries of the size the merkle stage
/// already handles, not for the full mainnet state.
pub struct TrieUpdatesSink {
    shards: Vec<TrieUpdates>,
    log: Ghost<Seq<Entry>>,
}

/// The nodes of all shards.
spec fn sharded_nodes(shards: Seq<TrieUpdates>) -> NodeSet {
    Map::new(
        |k: (Option<B256>, Seq<u8>)|
            0 <= shard_of(k) < shards.len() && shards[shard_of(k)].nodes().contains_key(k),
        |k: (Option<B256>, Seq<u8>)| shards[shard_of(k)].nodes()[k],
    )
}

/// Whether every shard holds only what belongs to it.
spec fn well_sharded(shards: Seq<TrieUpdates>) -> bool {
    &&& forall|s: int| 0 <= s < shards.len() ==> (#[trigger] shards[s]).only_writes()
    &&& forall|s: int, k: (Option<B256>, Seq<u8>)|
        0 <= s < shards.len() && #[trigger] shards[s].nodes().contains_key(k) ==> shard_of(k) == s
    &&& forall|s: int, a: B256|
        0 <= s < shards.len() && #[trigger] shards[s].storage_tries@.contains_key(a)
            ==> a.bytes()[0] / 16 == s
}

impl TrieUpdatesSink {
    /// The nodes collected so far.
    pub closed spec fn nodes(&self) -> NodeSet {
        sharded_nodes(self.shards@)
    }

    #[verifier::type_invariant]
    spec fn inv(self) -> bool {
        &&& self.shards@.len() == 0 || self.shards@.len() == 16
        &&& well_sharded(self.shards@)
        &&& lists_all(self.log@, self.nodes())
    }

    /// Consumes the sink and returns the collected updates.
    pub fn into_trie_updates(self) -> (r: TrieUpdates)
        ensures
            r.nodes() == self.nodes(),
            lists_all(self.log(), r.nodes()),
            r.only_writes(),
    {
        proof {
            use_type_invariant(&self);
        }
        let ghost log = self.log@;
        let TrieUpdatesSink { shards, log: _ } = self;
        let ghost all = shards@;
        let mut shards = shards;
        let mut updates = TrieUpdates::default();
        // The shards have disjoint keys, so they can be merged by plain insertion.
        while shards.len() > 0
            invariant
                all.len() <= 16,
                well_sharded(all),
                shards@.len() <= all.len(),
                shards@ =~= all.take(shards@.len() as int),
                updates.only_writes(),
                forall|a: B256| #[trigger]
                    updates.storage_tries@.contains_key(a) ==> a.bytes()[0] / 16 >= shards@.len(),
                forall|k: (Option<B256>, Seq<u8>)| #[trigger]
                    updates.nodes().contains_key(k) <==> sharded_nodes(all).contains_key(k)
                        && shard_of(k) >= shards@.len(),
                forall|k: (Option<B256>, Seq<u8>)| #[trigger]
                    updates.nodes().contains_key(k) ==> updates.nodes()[k] == sharded_nodes(all)[k],
            decreases shards@.len(),
        {
            let ghost s = shards@.len() - 1;
            let ghost before = updates;
            let shard = shards.pop().unwrap();
            assert(shard == all[s]);
            let TrieUpdates { account_nodes, removed_nodes: _, storage_tries } = shard;
            updates.account_nodes.extend(account_nodes);
            updates.storage_tries.extend(storage_tries);
            proof {
                lemma_merged(before, all[s], updates);
                assert forall|k: (Option<B256>, Seq<u8>)|
                    #![trigger updates.nodes().contains_key(k)]
                    (updates.nodes().contains_key(k) <==> sharded_nodes(all).contains_key(k)
                        && shard_of(k) >= s) && (updates.nodes().contains_key(k)
                        ==> updates.nodes()[k] == sharded_nodes(all)[k]) by {
                    if all[s].nodes().contains_key(k) {
                        assert(shard_of(k) == s);
                        assert(!before.nodes().contains_key(k));
                    }
                }
            }
        }
        proof {
            assert(updates.nodes() =~= sharded_nodes(all)) by {
                assert forall|k: (Option<B256>, Seq<u8>)|
                    sharded_nodes(all).contains_key(k) implies updates.nodes().contains_key(k) by {
                    assert(shard_of(k) >= 0);
                }
            }
        }
        updates
    }

    /// Adds a node.
    pub fn on_branch_node(
        &mut self,
        hashed_address: Option<B256>,
        path: Nibbles,
        node: BranchNodeCompact,
    )
        requires
            hashed_address is None ==> path@.len() > 0,
            !old(self).nodes().contains_key((hashed_address, path@)),
        ensures
            final(self).nodes() == old(self).nodes().insert((hashed_address, path@), node@),
            final(self).log() == old(self).log().push((hashed_address, path@, node@)),
    {
        proof {
            use_type_invariant(&*self);
        }
        path.check();
        let ghost k = (hashed_address, path@);
        let ghost view = node@;
        let shard = match &hashed_address {
            Some(hashed_address) => hashed_address.first_nibble(),
            None => path.first().unwrap(),
        };
        let at: usize = shard as usize;
        let mut taken = TrieUpdatesSink { shards: Vec::new(), log: Ghost(Seq::empty()) };
        assert(taken.nodes() =~= Map::empty());
        std::mem::swap(self, &mut taken);
        proof {
            use_type_invariant(&taken);
        }
        let TrieUpdatesSink { shards, log } = taken;
        let mut shards = shards;
        let ghost before = sharded_nodes(shards@);
        while shards.len() < 16
            invariant
                shards@.len() <= 16,
                well_sharded(shards@),
                sharded_nodes(shards@) == before,
            decreases 16 - shards@.len(),
        {
            let ghost was = shards@;
            shards.push(TrieUpdates::default());
            proof {
                assert forall|t: int, k: (Option<B256>, Seq<u8>)|
                    0 <= t < shards@.len() && #[trigger] shards@[t].nodes().contains_key(
                        k,
                    ) implies shard_of(k) == t by {
                    if t < was.len() {
                        assert(was[t].nodes().contains_key(k));
                    }
                }
                assert forall|t: int, a: B256|
                    0 <= t < shards@.len() && #[trigger] shards@[t].storage_tries@.contains_key(
                        a,
                    ) implies a.bytes()[0] / 16 == t by {
                    if t < was.len() {
                        assert(was[t].storage_tries@.contains_key(a));
                    }
                }
                assert(sharded_nodes(shards@) =~= before);
            }
        }
        let ghost was = shards@;
        shards[at].insert_node(hashed_address, path, node);
        proof {
            assert(shards@ == was.update(at as int, shards@[at as int]));
            assert(shard_of(k) == at);
            assert forall|t: int, x: (Option<B256>, Seq<u8>)|
                0 <= t < shards@.len() && #[trigger] shards@[t].nodes().contains_key(
                    x,
                ) implies shard_of(x) == t by {
                if x != k {
                    assert(was[t].nodes().contains_key(x));
                }
            }
            assert forall|t: int, a: B256|
                0 <= t < shards@.len() && #[trigger] shards@[t].storage_tries@.contains_key(
                    a,
                ) implies a.bytes()[0] / 16 == t by {
                if t != at || hashed_address != Some(a) {
                    assert(was[t].storage_tries@.contains_key(a));
                }
            }
            assert(sharded_nodes(shards@) =~= before.insert(k, view));
            lemma_lists_push(log@, before, (hashed_address, k.1, view));
        }
        let ghost entries = log@.push((hashed_address, k.1, view));
        *self = TrieUpdatesSink { shards, log: Ghost(entries) };
    }
}

impl Default for TrieUpdatesSink {
    fn default() -> (r: TrieUpdatesSink)
        ensures
            r.nodes() == Map::<(Option<B256>, Seq<u8>), BranchView>::empty(),
            r.log() == Seq::<Entry>::empty(),
    {
        let r = TrieUpdatesSink { shards: Vec::new(), log: Ghost(Seq::empty()) };
        assert(r.nodes() =~= Map::empty());
        r
    }
}

impl OnNode for TrieUpdatesSink {
    closed spec fn log(&self) -> Seq<Entry> {
        self.log@
    }

    open spec fn accepts(&self, account: Option<B256>, path: Seq<u8>) -> bool {
        !self.nodes().contains_key((account, path))
    }

    fn on_node(&mut self, account: Option<B256>, path: Nibbles, node: BranchNodeCompact) {
        self.on_branch_node(account, path, node)
    }
}

/// Merging updates for different accounts and paths.
proof fn lemma_merged(a: TrieUpdates, b: TrieUpdates, both: TrieUpdates)
    requires
        a.only_writes(),
        b.only_writes(),
        both.removed_nodes == a.removed_nodes,
        both.account_nodes@ == a.account_nodes@.union_prefer_right(b.account_nodes@),
        both.storage_tries@ == a.storage_tries@.union_prefer_right(b.storage_tries@),
        forall|x: B256| #[trigger]
            b.storage_tries@.contains_key(x) ==> !a.storage_tries@.contains_key(x),
    ensures
        both.only_writes(),
        both.nodes() == a.nodes().union_prefer_right(b.nodes()),
{
    let (x, y) = (both.nodes(), a.nodes().union_prefer_right(b.nodes()));
    assert forall|k: (Option<B256>, Seq<u8>)|
        #![trigger x.dom().contains(k)]
        #![trigger y.dom().contains(k)]
        #![trigger x[k]]
        x.dom().contains(k) == y.dom().contains(k) && (x.dom().contains(k) ==> x[k] == y[k]) by {
        match k.0 {
            None => {},
            Some(account) => {
                assert(b.nodes().contains_key(k) == (b.storage_tries@.contains_key(account)
                    && b.storage_tries@[account].storage_nodes@.contains_key(k.1)));
                assert(a.nodes().contains_key(k) == (a.storage_tries@.contains_key(account)
                    && a.storage_tries@[account].storage_nodes@.contains_key(k.1)));
            },
        }
    }
    assert(x =~= y);
}

} // verus!
