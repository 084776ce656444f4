//! What the sinks and the updates hold.

use crate::bytes::{be_value, lemma_lex_is_value_order};
use crate::collect::TrieUpdatesCollector;
use crate::cursor::{
    ascending, row_at, DatabaseError, HashedCursor, HashedCursorFactory, StateView,
};
use crate::digest::NodeDigest;
use crate::memory::{
    is_sorted_state, no_zero_slots, node_set, represents, slot_pairs, slots_in, MemoryCursorFactory,
    MemorySink, RowCursor,
};
use crate::node::BranchNodeCompact;
use crate::partition::has_row;
use crate::primitives::{Account, B256, U256};
use crate::progress::ProgressSink;
use crate::sink::{
    grows, listed, lists_all, place, received, takes, Discard, Entry, NodeSet, OnNode,
};
use crate::updates::{is_without_empty_tries, StorageTrieUpdates, TrieUpdates, TrieUpdatesSink};
use vstd::prelude::*;

verus! {

/// A list of nodes holds a set of nodes exactly if every entry is a node of the set, every node of
/// the set is an entry, and no place occurs twice.
pub proof fn lemma_list_holds_the_nodes(list: Seq<Entry>, nodes: NodeSet)
    ensures
        lists_all(list, nodes) <==> {
            &&& forall|e: Entry| #[trigger]
                list.contains(e) <==> nodes.contains_key((e.0, e.1)) && nodes[(e.0, e.1)] == e.2
            &&& forall|i: int, j: int|
                0 <= i < list.len() && 0 <= j < list.len() && (#[trigger] list[i]).0 == (
                #[trigger] list[j]).0 && list[i].1 == list[j].1 ==> i == j
        },
{
    let all = forall|e: Entry| #[trigger]
        list.contains(e) <==> nodes.contains_key((e.0, e.1)) && nodes[(e.0, e.1)] == e.2;
    let once = forall|i: int, j: int|
        0 <= i < list.len() && 0 <= j < list.len() && (#[trigger] list[i]).0 == (
        #[trigger] list[j]).0 && list[i].1 == list[j].1 ==> i == j;
    if lists_all(list, nodes) {
        assert forall|e: Entry| #[trigger] list.contains(e) <==> nodes.contains_key((e.0, e.1))
            && nodes[(e.0, e.1)] == e.2 by {
            if list.contains(e) {
                let i = choose|i: int| 0 <= i < list.len() && list[i] == e;
                assert(nodes.contains_key(place(list, i)));
            }
            if nodes.contains_key((e.0, e.1)) && nodes[(e.0, e.1)] == e.2 {
                assert(listed(list, e.0, e.1));
                let i = choose|i: int|
                    0 <= i < list.len() && #[trigger] place(list, i) == (e.0, e.1);
                assert(nodes.contains_key(place(list, i)));
                assert(list[i] == e);
            }
        }
        assert forall|i: int, j: int|
            0 <= i < list.len() && 0 <= j < list.len() && (#[trigger] list[i]).0 == (
            #[trigger] list[j]).0 && list[i].1 == list[j].1 implies i == j by {
            if i < j {
                assert(place(list, i) != place(list, j));
            } else if j < i {
                assert(place(list, j) != place(list, i));
            }
        }
    }
    if all && once {
        assert forall|i: int| 0 <= i < list.len() implies nodes.contains_key(
            #[trigger] place(list, i),
        ) && nodes[place(list, i)] == list[i].2 by {
            assert(list.contains(list[i]));
        }
        assert forall|k: (Option<B256>, Seq<u8>)| #[trigger] nodes.contains_key(k) implies listed(
            list,
            k.0,
            k.1,
        ) by {
            let e: Entry = (k.0, k.1, nodes[k]);
            assert(list.contains(e));
            let i = choose|i: int| 0 <= i < list.len() && list[i] == e;
            assert(place(list, i) == (k.0, k.1));
        }
        assert forall|i: int, j: int| 0 <= i < j < list.len() implies #[trigger] place(list, i)
            != #[trigger] place(list, j) by {
            assert(list[i].0 != list[j].0 || list[i].1 != list[j].1);
        }
    }
}

/// A sink that takes nodes keeps what it had received, in its order, and receives exactly these
/// nodes after that, each once; a sink that merely grows keeps what it had received.
pub proof fn lemma_taken_nodes_are_received<S: OnNode>(before: S, after: S, nodes: NodeSet)
    ensures
        grows(before, after) <==> exists|more: Seq<Entry>|
            #[trigger] (before.log() + more) == after.log(),
        takes(before, after, nodes) ==> exists|more: Seq<Entry>|
            #[trigger] (before.log() + more) == after.log() && lists_all(more, nodes),
        takes(before, after, nodes) ==> forall|a: Option<B256>, p: Seq<u8>|
            before.accepts(a, p) && !nodes.contains_key((a, p)) ==> #[trigger] after.accepts(a, p),
{
    let more = received(before, after);
    if grows(before, after) {
        assert(before.log() + more =~= after.log());
    }
    if exists|more: Seq<Entry>| #[trigger] (before.log() + more) == after.log() {
        let more = choose|more: Seq<Entry>| #[trigger] (before.log() + more) == after.log();
        assert(after.log().subrange(0, before.log().len() as int) =~= before.log());
    }
}

/// Updates write the account nodes of the state trie and, for every storage trie they hold, its
/// nodes, and nothing else.
pub proof fn lemma_updates_write_their_maps(updates: TrieUpdates, account: B256, path: Seq<u8>)
    ensures
        updates.nodes().contains_key((None, path)) <==> updates.account_nodes@.contains_key(path),
        updates.account_nodes@.contains_key(path) ==> updates.nodes()[(None, path)]
            == updates.account_nodes@[path]@,
        updates.nodes().contains_key((Some(account), path))
            <==> updates.storage_tries@.contains_key(account)
            && updates.storage_tries@[account].storage_nodes@.contains_key(path),
        updates.nodes().contains_key((Some(account), path)) ==> updates.nodes()[(
            Some(account),
            path,
        )] == updates.storage_tries@[account].storage_nodes@[path]@,
{
}

/// Updates that only write remove no path anywhere, and hold no storage trie without a node.
pub proof fn lemma_writing_removes_nothing(updates: TrieUpdates)
    ensures
        updates.only_writes() <==> updates.removes_nothing() && forall|a: B256| #[trigger]
            updates.storage_tries@.contains_key(a) ==> exists|p: Seq<u8>|
                updates.storage_tries@[a].storage_nodes@.contains_key(p),
        updates.removes_nothing() <==> {
            &&& forall|p: Seq<u8>| !updates.removed_nodes@.contains_key(p)
            &&& forall|a: B256, p: Seq<u8>|
                updates.storage_tries@.contains_key(a)
                    ==> !(#[trigger] updates.storage_tries@[a].removed_nodes@.contains_key(p))
        },
{
    let none: Map<Seq<u8>, ()> = Map::empty();
    let empty: Map<Seq<u8>, BranchNodeCompact> = Map::empty();
    let nowhere = {
        &&& forall|p: Seq<u8>| !updates.removed_nodes@.contains_key(p)
        &&& forall|a: B256, p: Seq<u8>|
            updates.storage_tries@.contains_key(a)
                ==> !(#[trigger] updates.storage_tries@[a].removed_nodes@.contains_key(p))
    };
    if nowhere {
        assert(updates.removed_nodes@ =~= none);
        assert forall|a: B256| #[trigger]
            updates.storage_tries@.contains_key(
            a,
        ) implies updates.storage_tries@[a].removed_nodes@ == none by {
            assert(updates.storage_tries@[a].removed_nodes@ =~= none);
        }
    }
    if updates.only_writes() {
        assert forall|a: B256| #[trigger] updates.storage_tries@.contains_key(a) implies exists|
            p: Seq<u8>,
        | updates.storage_tries@[a].storage_nodes@.contains_key(p) by {
            let nodes = updates.storage_tries@[a].storage_nodes@;
            if forall|p: Seq<u8>| !nodes.contains_key(p) {
                assert(nodes =~= empty);
            }
        }
    }
    if updates.removes_nothing() && forall|a: B256| #[trigger]
        updates.storage_tries@.contains_key(a) ==> exists|p: Seq<u8>|
            updates.storage_tries@[a].storage_nodes@.contains_key(p) {
        assert forall|a: B256| #[trigger]
            updates.storage_tries@.contains_key(
            a,
        ) implies updates.storage_tries@[a].storage_nodes@ != empty by {
            let p = choose|p: Seq<u8>| updates.storage_tries@[a].storage_nodes@.contains_key(p);
            assert(!empty.contains_key(p));
        }
    }
}

/// A storage trie is dropped exactly if it neither writes a node nor removes a path; the others, and
/// the state trie, are kept as they are.
pub proof fn lemma_only_empty_tries_are_dropped(updates: TrieUpdates, r: TrieUpdates, account: B256)
    requires
        is_without_empty_tries(updates, r),
    ensures
        r.account_nodes == updates.account_nodes,
        r.removed_nodes == updates.removed_nodes,
        r.storage_tries@.contains_key(account) <==> updates.storage_tries@.contains_key(account)
            && exists|p: Seq<u8>|
            #![trigger updates.storage_tries@[account].storage_nodes@.contains_key(p)]
            #![trigger updates.storage_tries@[account].removed_nodes@.contains_key(p)]
            updates.storage_tries@[account].storage_nodes@.contains_key(p)
                || updates.storage_tries@[account].removed_nodes@.contains_key(p),
        r.storage_tries@.contains_key(account) ==> r.storage_tries@[account]
            == updates.storage_tries@[account],
{
    lemma_content_is_a_node_or_a_path(updates.storage_tries@[account]);
    assert(r.storage_tries@.contains_key(account) <==> updates.storage_tries@.contains_key(account)
        && updates.storage_tries@[account].has_content());
}

/// A storage trie has content exactly if it writes a node or removes a path.
pub proof fn lemma_content_is_a_node_or_a_path(trie: StorageTrieUpdates)
    ensures
        trie.has_content() <==> exists|p: Seq<u8>|
            #![trigger trie.storage_nodes@.contains_key(p)]
            #![trigger trie.removed_nodes@.contains_key(p)]
            trie.storage_nodes@.contains_key(p) || trie.removed_nodes@.contains_key(p),
{
    let none: Map<Seq<u8>, ()> = Map::empty();
    let empty: Map<Seq<u8>, BranchNodeCompact> = Map::empty();
    if forall|p: Seq<u8>|
        #![trigger trie.storage_nodes@.contains_key(p)]
        #![trigger trie.removed_nodes@.contains_key(p)]
        !trie.storage_nodes@.contains_key(p) && !trie.removed_nodes@.contains_key(p) {
        assert(trie.storage_nodes@ =~= empty);
        assert(trie.removed_nodes@ =~= none);
    }
    if exists|p: Seq<u8>|
        #![trigger trie.storage_nodes@.contains_key(p)]
        #![trigger trie.removed_nodes@.contains_key(p)]
        trie.storage_nodes@.contains_key(p) || trie.removed_nodes@.contains_key(p) {
        let p = choose|p: Seq<u8>|
            #![trigger trie.storage_nodes@.contains_key(p)]
            #![trigger trie.removed_nodes@.contains_key(p)]
            trie.storage_nodes@.contains_key(p) || trie.removed_nodes@.contains_key(p);
        assert(!empty.contains_key(p) && !none.contains_key(p));
    }
}

/// A pair of maps holds the nodes of the state trie by path and those of the storage tries by
/// account and path.
pub proof fn lemma_maps_hold_the_nodes(
    accounts: Map<Seq<u8>, BranchNodeCompact>,
    storages: Map<(B256, Seq<u8>), BranchNodeCompact>,
    account: B256,
    path: Seq<u8>,
)
    ensures
        node_set(accounts, storages).contains_key((None, path)) <==> accounts.contains_key(path),
        accounts.contains_key(path) ==> node_set(accounts, storages)[(None, path)]
            == accounts[path]@,
        node_set(accounts, storages).contains_key((Some(account), path)) <==> storages.contains_key(
            (account, path),
        ),
        storages.contains_key((account, path)) ==> node_set(accounts, storages)[(
            Some(account),
            path,
        )] == storages[(account, path)]@,
{
}

/// Rows represent a map exactly if they are in strictly ascending order of the numbers of their
/// keys, and have a row with a key and a value exactly if the map does.
pub proof fn lemma_rows_are_the_map<V>(rows: Seq<(B256, V)>, map: Map<B256, V>)
    ensures
        represents(rows, map) <==> {
            &&& forall|i: int, j: int|
                0 <= i < j < rows.len() ==> be_value((#[trigger] rows[i]).0.0@) < be_value(
                    (#[trigger] rows[j]).0.0@,
                )
            &&& forall|row: (B256, V)| #[trigger]
                rows.contains(row) <==> map.contains_key(row.0) && map[row.0] == row.1
        },
{
    let sorted = forall|i: int, j: int|
        0 <= i < j < rows.len() ==> be_value((#[trigger] rows[i]).0.0@) < be_value(
            (#[trigger] rows[j]).0.0@,
        );
    let same = forall|row: (B256, V)| #[trigger]
        rows.contains(row) <==> map.contains_key(row.0) && map[row.0] == row.1;
    lemma_ascending_is_numeric(rows);
    if represents(rows, map) {
        assert forall|row: (B256, V)| #[trigger] rows.contains(row) <==> map.contains_key(row.0)
            && map[row.0] == row.1 by {
            if map.contains_key(row.0) && map[row.0] == row.1 {
                assert(has_row(rows, row.0));
                let i = choose|i: int| 0 <= i < rows.len() && (#[trigger] rows[i]).0 == row.0;
                assert(rows[i] == row);
            }
        }
    }
    if sorted && same {
        assert forall|i: int| 0 <= i < rows.len() implies map.contains_key((#[trigger] rows[i]).0)
            && map[rows[i].0] == rows[i].1 by {
            assert(rows.contains(rows[i]));
        }
        assert forall|k: B256| #[trigger] map.contains_key(k) implies has_row(rows, k) by {
            let row = (k, map[k]);
            assert(rows.contains(row));
            let i = choose|i: int| 0 <= i < rows.len() && rows[i] == row;
            assert(rows[i].0 == k);
        }
    }
}

/// Rows are in order exactly if the numbers of their keys go up.
pub proof fn lemma_ascending_is_numeric<V>(rows: Seq<(B256, V)>)
    ensures
        ascending(rows) <==> forall|i: int, j: int|
            0 <= i < j < rows.len() ==> be_value((#[trigger] rows[i]).0.0@) < be_value(
                (#[trigger] rows[j]).0.0@,
            ),
{
    assert forall|i: int, j: int| 0 <= i < j < rows.len() implies ((#[trigger] rows[i]).0.before(
        (#[trigger] rows[j]).0,
    ) <==> be_value(rows[i].0.0@) < be_value(rows[j].0.0@)) by {
        lemma_lex_is_value_order(rows[i].0.0@, rows[j].0.0@);
    }
}

/// A row is read where it stands, and none past the end.
pub proof fn lemma_row_is_read_where_it_stands<V>(rows: Seq<(B256, V)>, at: int)
    ensures
        0 <= at < rows.len() ==> row_at(rows, at) == Some(rows[at]),
        at >= rows.len() ==> row_at(rows, at) is None,
        forall|key: B256| #[trigger]
            has_row(rows, key) <==> exists|i: int|
                0 <= i < rows.len() && (#[trigger] rows[i]).0 == key,
{
}

/// A sorted state has a row for every account and, for every address, a row for every slot, in the
/// order of their numbers, and nothing else.
pub proof fn lemma_sorted_state_is_the_maps(
    view: StateView,
    accounts: Map<B256, Account>,
    storages: Map<B256, Map<B256, U256>>,
    account: B256,
)
    requires
        is_sorted_state(view, accounts, storages),
    ensures
        represents(view.accounts, accounts),
        storages.contains_key(account) && view.storages.contains_key(account) ==> represents(
            view.storages[account],
            storages[account],
        ),
        view.storages.contains_key(account) <==> storages.contains_key(account) && exists|s: B256|
            storages[account].contains_key(s),
        view.slots(account) == if view.storages.contains_key(account) {
            view.storages[account]
        } else {
            Seq::empty()
        },
{
    let none: Map<B256, U256> = Map::empty();
    assert(represents(view.slots(account), slots_in(storages, account)));
    assert(view.storages.contains_key(account) <==> slots_in(storages, account) != none);
    if storages.contains_key(account) {
        if forall|s: B256| !storages[account].contains_key(s) {
            assert(storages[account] =~= none);
        } else {
            let s = choose|s: B256| storages[account].contains_key(s);
            assert(!none.contains_key(s));
        }
    }
}

/// The slots of an address are those of its map, none where it has no map; all slots together are
/// the pairs of an address and a slot of it; and no slot is zero exactly if none holds zero.
pub proof fn lemma_slots_are_those_of_the_address(
    storages: Map<B256, Map<B256, U256>>,
    account: B256,
    slot: B256,
)
    ensures
        storages.contains_key(account) ==> slots_in(storages, account) == storages[account],
        !storages.contains_key(account) ==> slots_in(storages, account) == Map::<
            B256,
            U256,
        >::empty(),
        slot_pairs(storages).contains((account, slot)) <==> storages.contains_key(account)
            && storages[account].contains_key(slot),
        no_zero_slots(storages) && storages.contains_key(account)
            && storages[account].contains_key(slot) ==> be_value(storages[account][slot].0@) != 0,
{
    if storages.contains_key(account) && storages[account].contains_key(slot) {
        assert(slots_in(storages, account).contains_key(slot));
    }
}

/// Reading a state in memory never fails.
pub proof fn lemma_memory_is_always_read<'a, V: Copy>(
    factory: MemoryCursorFactory<'a>,
    cursor: RowCursor<'a, V>,
    e: DatabaseError,
)
    ensures
        !factory.fails_with(e),
        !cursor.fails_with(e),
{
}

/// A sink that keeps nothing or only a digest takes every node; one that collects takes a node
/// wherever it holds none yet; and one that reports progress takes what its inner sink does and
/// passes it on.
pub proof fn lemma_nodes_are_accepted<S: OnNode>(
    discard: Discard,
    digest: NodeDigest,
    memory: MemorySink,
    collector: TrieUpdatesCollector,
    updates: TrieUpdatesSink,
    progress: ProgressSink<S>,
    account: Option<B256>,
    path: Seq<u8>,
)
    ensures
        discard.accepts(account, path),
        digest.accepts(account, path),
        memory.accepts(account, path) <==> !memory.nodes().contains_key((account, path)),
        collector.accepts(account, path) <==> !collector.nodes().contains_key((account, path)),
        updates.accepts(account, path) <==> !updates.nodes().contains_key((account, path)),
        progress.accepts(account, path) <==> progress.sink().accepts(account, path),
        progress.log() == progress.sink().log(),
{
}

} // verus!
