//! How many nodes a list holds, trie by trie.

use crate::ordered::{lists_keys, OrderedKey};
use crate::primitives::B256;
use crate::sink::{listed, lists_all, place, Entry, NodeSet};
use crate::tables::count_account_nodes;
use crate::updates::{StorageTrieUpdates, TrieUpdates};
use vstd::prelude::*;

verus! {

/// The number of listed nodes of one trie.
pub open spec fn count_of(list: Seq<Entry>, account: Option<B256>) -> nat
    decreases list.len(),
{
    if list.len() == 0 {
        0
    } else {
        count_of(list.drop_last(), account) + if list.last().0 == account {
            1nat
        } else {
            0nat
        }
    }
}

/// The number of listed nodes of several storage tries.
spec fn count_of_all(list: Seq<Entry>, accounts: Seq<B256>) -> nat
    decreases accounts.len(),
{
    if accounts.len() == 0 {
        0
    } else {
        count_of_all(list, accounts.drop_last()) + count_of(list, Some(accounts.last()))
    }
}

/// The number of storage nodes that updates write, over the given accounts.
pub open spec fn storage_node_count(updates: TrieUpdates, accounts: Seq<B256>) -> nat
    decreases accounts.len(),
{
    if accounts.len() == 0 {
        0
    } else {
        storage_node_count(updates, accounts.drop_last())
            + updates.storage_tries@[accounts.last()].storage_nodes@.len()
    }
}

/// The paths of the listed nodes of one trie.
spec fn paths_of(list: Seq<Entry>, account: Option<B256>) -> Set<Seq<u8>> {
    Set::new(|p: Seq<u8>| listed(list, account, p))
}

/// Whether no two listed nodes are at one place.
spec fn distinct(list: Seq<Entry>) -> bool {
    forall|i: int, j: int|
        0 <= i < j < list.len() ==> #[trigger] place(list, i) != #[trigger] place(list, j)
}

proof fn lemma_count_of(list: Seq<Entry>, account: Option<B256>)
    requires
        distinct(list),
    ensures
        paths_of(list, account).finite(),
        paths_of(list, account).len() == count_of(list, account),
    decreases list.len(),
{
    let all = paths_of(list, account);
    if list.len() == 0 {
        assert(all =~= Set::empty());
    } else {
        let rest = list.drop_last();
        let n = list.len() - 1;
        assert forall|i: int| 0 <= i < n implies #[trigger] place(rest, i) == place(list, i) by {}
        lemma_count_of(rest, account);
        let before = paths_of(rest, account);
        let last = list[n].1;
        assert forall|p: Seq<u8>| all.contains(p) == (before.contains(p) || list[n].0 == account
            && p == last) by {
            if all.contains(p) {
                let i = choose|i: int| 0 <= i < list.len() && #[trigger] place(list, i) == (
                    account,
                    p,
                );
                if i < n {
                    assert(place(rest, i) == (account, p));
                }
            }
            if before.contains(p) {
                let i = choose|i: int| 0 <= i < rest.len() && #[trigger] place(rest, i) == (
                    account,
                    p,
                );
                assert(place(list, i) == (account, p));
            }
            assert(place(list, n) == (list[n].0, last));
        }
        if list[n].0 == account {
            if before.contains(last) {
                let i = choose|i: int| 0 <= i < rest.len() && #[trigger] place(rest, i) == (
                    account,
                    last,
                );
                assert(place(list, i) == place(list, n));
            }
            assert(all =~= before.insert(last));
        } else {
            assert(all =~= before);
        }
    }
}

proof fn lemma_one_more(list: Seq<Entry>, entry: Entry, accounts: Seq<B256>)
    requires
        accounts.no_duplicates(),
    ensures
        count_of_all(list.push(entry), accounts) == count_of_all(list, accounts) + if entry.0
            is Some && accounts.contains(entry.0->0) {
            1nat
        } else {
            0nat
        },
    decreases accounts.len(),
{
    assert(list.push(entry).drop_last() =~= list);
    if accounts.len() > 0 {
        let rest = accounts.drop_last();
        let last = accounts.last();
        lemma_one_more(list, entry, rest);
        assert forall|a: B256| accounts.contains(a) == (rest.contains(a) || a == last) by {
            if accounts.contains(a) && a != last {
                let i = choose|i: int| 0 <= i < accounts.len() && accounts[i] == a;
                assert(rest[i] == a);
            }
            if rest.contains(a) {
                let i = choose|i: int| 0 <= i < rest.len() && rest[i] == a;
                assert(accounts[i] == a);
            }
            assert(accounts[accounts.len() - 1] == last);
        }
        assert(!rest.contains(last)) by {
            if rest.contains(last) {
                let i = choose|i: int| 0 <= i < rest.len() && rest[i] == last;
                assert(accounts[i] == accounts[accounts.len() - 1]);
            }
        }
        if entry.0 is Some {
            let a = entry.0->0;
            assert(accounts.contains(a) == (rest.contains(a) || a == last));
        }
    }
}

proof fn lemma_none_listed(accounts: Seq<B256>)
    ensures
        count_of_all(Seq::empty(), accounts) == 0,
    decreases accounts.len(),
{
    if accounts.len() > 0 {
        lemma_none_listed(accounts.drop_last());
    }
}

proof fn lemma_all_counted(list: Seq<Entry>, accounts: Seq<B256>)
    requires
        accounts.no_duplicates(),
        forall|i: int|
            0 <= i < list.len() && (#[trigger] list[i]).0 is Some ==> accounts.contains(
                list[i].0->0,
            ),
    ensures
        list.len() == count_of(list, None) + count_of_all(list, accounts),
        count_of(list, None) == count_account_nodes(list),
    decreases list.len(),
{
    if list.len() == 0 {
        assert(list =~= Seq::empty());
        lemma_none_listed(accounts);
    } else {
        let rest = list.drop_last();
        assert forall|i: int|
            0 <= i < rest.len() && (#[trigger] rest[i]).0 is Some implies accounts.contains(
            rest[i].0->0,
        ) by {
            assert(list[i].0 is Some);
        }
        lemma_all_counted(rest, accounts);
        lemma_one_more(rest, list.last(), accounts);
        assert(rest.push(list.last()) =~= list);
        assert(list[list.len() - 1].0 is Some ==> accounts.contains(list[list.len() - 1].0->0));
    }
}

/// Keys in their order are all different.
pub proof fn lemma_keys_differ<K: OrderedKey, V>(order: Seq<K::Model>, map: Map<K::Model, V>)
    requires
        lists_keys::<K, V>(order, map),
    ensures
        order.no_duplicates(),
        order.len() == map.len(),
{
    assert forall|i: int, j: int| 0 <= i < order.len() && 0 <= j < order.len() && i
        != j implies order[i] != order[j] by {
        if i < j {
            assert(K::before(order[i], order[j]));
        } else {
            assert(K::before(order[j], order[i]));
        }
        K::lemma_irreflexive(order[i]);
    }
    order.unique_seq_to_set();
    assert(order.to_set() =~= map.dom()) by {
        assert forall|m: K::Model| order.to_set().contains(m) implies map.dom().contains(m) by {
            let i = choose|i: int| 0 <= i < order.len() && order[i] == m;
            assert(map.contains_key(order[i]));
        }
        assert forall|m: K::Model| map.dom().contains(m) implies order.to_set().contains(m) by {
            assert(map.contains_key(m));
        }
    }
}

proof fn lemma_storage_counts(updates: TrieUpdates, list: Seq<Entry>, accounts: Seq<B256>)
    requires
        lists_all(list, updates.nodes()),
        forall|i: int|
            0 <= i < accounts.len() ==> updates.storage_tries@.contains_key(#[trigger] accounts[i]),
    ensures
        count_of_all(list, accounts) == storage_node_count(updates, accounts),
    decreases accounts.len(),
{
    if accounts.len() > 0 {
        let rest = accounts.drop_last();
        let last = accounts.last();
        assert forall|i: int| 0 <= i < rest.len() implies updates.storage_tries@.contains_key(
            #[trigger] rest[i],
        ) by {
            assert(updates.storage_tries@.contains_key(accounts[i]));
        }
        lemma_storage_counts(updates, list, rest);
        assert(updates.storage_tries@.contains_key(accounts[accounts.len() - 1]));
        lemma_trie_count(
            list,
            updates.nodes(),
            Some(last),
            updates.storage_tries@[last].storage_nodes@.dom(),
        );
    }
}

proof fn lemma_trie_count(
    list: Seq<Entry>,
    nodes: NodeSet,
    account: Option<B256>,
    paths: Set<Seq<u8>>,
)
    requires
        lists_all(list, nodes),
        forall|p: Seq<u8>| #[trigger] paths.contains(p) <==> nodes.contains_key((account, p)),
    ensures
        paths.finite(),
        count_of(list, account) == paths.len(),
{
    lemma_count_of(list, account);
    assert forall|p: Seq<u8>| paths_of(list, account).contains(p) == paths.contains(p) by {
        if paths.contains(p) {
            assert(nodes.contains_key((account, p)));
        }
        if listed(list, account, p) {
            let i = choose|i: int| 0 <= i < list.len() && #[trigger] place(list, i) == (account, p);
            assert(nodes.contains_key(place(list, i)));
        }
    }
    assert(paths_of(list, account) =~= paths);
}

/// A list of the nodes of some updates holds as many account nodes, and as many storage nodes, as
/// the updates write.
pub proof fn lemma_updates_are_counted(updates: TrieUpdates, list: Seq<Entry>, accounts: Seq<B256>)
    requires
        lists_all(list, updates.nodes()),
        lists_keys::<B256, StorageTrieUpdates>(accounts, updates.storage_tries@),
    ensures
        count_account_nodes(list) == updates.account_nodes@.len(),
        list.len() == updates.account_nodes@.len() + storage_node_count(updates, accounts),
{
    lemma_keys_differ::<B256, StorageTrieUpdates>(accounts, updates.storage_tries@);
    assert forall|i: int|
        0 <= i < list.len() && (#[trigger] list[i]).0 is Some implies accounts.contains(
        list[i].0->0,
    ) by {
        assert(updates.nodes().contains_key(place(list, i)));
        assert(updates.storage_tries@.contains_key(list[i].0->0));
    }
    lemma_all_counted(list, accounts);
    lemma_storage_counts(updates, list, accounts);
    lemma_trie_count(list, updates.nodes(), None, updates.account_nodes@.dom());
}

} // verus!
