//! What writing leaves in the trie tables, and what it counts.

use crate::counts::{lemma_keys_differ, lemma_updates_are_counted, storage_node_count};
use crate::digest::{is_digest, lemma_same_nodes_same_digest, one_machine, Digest};
use crate::nibbles::Nibbles;
use crate::ordered::lists_keys;
use crate::primitives::B256;
use crate::rebuild::{updates_of, WalkProgress};
use crate::sink::{
    lemma_lists_both, lemma_lists_nothing, lemma_lists_same, lemma_same_entries, listed, lists_all,
    place, Entry, NodeSet,
};
use crate::tables::{
    account_writes, all_account_writes, all_applied, all_storage_writes, applied, are_writes,
    are_writes_in, count_account_nodes, total_entries, touched, TableWriteView, TrieTablesDigest,
    WriteOutcome,
};
use crate::updates::{StorageTrieUpdates, TrieUpdates};
use crate::writer::{chunk_count, chunks_of, is_chunk, joined, lemma_chunks_are_the_build};
use vstd::prelude::*;

verus! {

/// Whether no node is at the empty path.
pub open spec fn below_roots(nodes: NodeSet) -> bool {
    forall|k: (Option<B256>, Seq<u8>)| #[trigger] nodes.contains_key(k) ==> k.1.len() > 0
}

proof fn lemma_no_account_root(updates: TrieUpdates)
    requires
        below_roots(updates.nodes()),
    ensures
        !updates.account_nodes@.contains_key(Seq::empty()),
{
    let k: (Option<B256>, Seq<u8>) = (None, Seq::empty());
    assert(updates.nodes().contains_key(k) == updates.account_nodes@.contains_key(k.1));
}

/// Whether a node is written at a path of the account trie: never at the empty one.
pub open spec fn account_written(updates: TrieUpdates, path: Seq<u8>) -> bool {
    updates.account_nodes@.contains_key(path) && path.len() > 0
}

/// Whether the node at a path of the account trie is removed: unless one is written there.
pub open spec fn account_removed(updates: TrieUpdates, path: Seq<u8>) -> bool {
    updates.removed_nodes@.contains_key(path) && !updates.account_nodes@.contains_key(path)
}

/// The trie tables once updates are written: without the removed nodes, overlaid with the written
/// ones.
pub open spec fn updated(tables: NodeSet, updates: TrieUpdates) -> NodeSet {
    Map::new(
        |k: (Option<B256>, Seq<u8>)|
            match k.0 {
                None => account_written(updates, k.1) || tables.contains_key(k)
                    && !account_removed(updates, k.1),
                Some(a) => if updates.storage_tries@.contains_key(a) {
                    let trie = updates.storage_tries@[a];
                    trie.storage_nodes@.contains_key(k.1) || tables.contains_key(k)
                        && !trie.removed_nodes@.contains_key(k.1)
                } else {
                    tables.contains_key(k)
                },
            },
        |k: (Option<B256>, Seq<u8>)|
            match k.0 {
                None => if account_written(updates, k.1) {
                    updates.account_nodes@[k.1]@
                } else {
                    tables[k]
                },
                Some(a) => if updates.storage_tries@.contains_key(a)
                    && updates.storage_tries@[a].storage_nodes@.contains_key(k.1) {
                    updates.storage_tries@[a].storage_nodes@[k.1]@
                } else {
                    tables[k]
                },
            },
    )
}

/// Whether no storage trie has a change at the empty path.
pub open spec fn storages_below_roots(updates: TrieUpdates) -> bool {
    forall|a: B256| #[trigger]
        updates.storage_tries@.contains_key(a)
            ==> !updates.storage_tries@[a].storage_nodes@.contains_key(Seq::empty())
            && !updates.storage_tries@[a].removed_nodes@.contains_key(Seq::empty())
}

/// Writing updates the tables: once the changes for some updates are applied, the tables are without
/// the removed nodes, overlaid with the written ones, except at the empty path of the account trie,
/// where nothing is ever written.
pub proof fn lemma_tables_are_updated(
    tables: NodeSet,
    updates: TrieUpdates,
    writes: Seq<TableWriteView>,
)
    requires
        storages_below_roots(updates),
        are_writes(updates, writes),
    ensures
        all_applied(tables, writes) == updated(tables, updates),
{
    let (paths, accounts) = choose|paths: Seq<Seq<u8>>, accounts: Seq<B256>| #[trigger]
        are_writes_in(updates, writes, paths, accounts);
    let (first, second) = (
        all_account_writes(updates, paths),
        all_storage_writes(updates, accounts),
    );
    let mid = all_applied(tables, first);
    lemma_account_writes_apply(tables, updates, paths);
    lemma_storage_writes_apply(mid, updates, accounts);
    lemma_applied_both(tables, first, second);
    let (a, b) = (all_applied(tables, writes), updated(tables, updates));
    assert forall|k: (Option<B256>, Seq<u8>)|
        #![trigger a.dom().contains(k)]
        #![trigger b.dom().contains(k)]
        #![trigger a[k]]
        a.dom().contains(k) == b.dom().contains(k) && (a.dom().contains(k) ==> a[k] == b[k]) by {
        assert(in_account_scope(tables, mid, updates, paths, k));
        assert(in_storage_scope(mid, a, updates, accounts, k));
        match k.0 {
            None => {
                assert(touched(updates).contains_key(k.1) <==> paths.contains(k.1)) by {
                    if paths.contains(k.1) {
                        let i = choose|i: int| 0 <= i < paths.len() && paths[i] == k.1;
                        assert(touched(updates).contains_key(paths[i]));
                    }
                }
            },
            Some(x) => {
                assert(updates.storage_tries@.contains_key(x) <==> accounts.contains(x)) by {
                    if accounts.contains(x) {
                        let i = choose|i: int| 0 <= i < accounts.len() && accounts[i] == x;
                        assert(updates.storage_tries@.contains_key(accounts[i]));
                    }
                }
            },
        }
    }
    assert(a =~= b);
}

proof fn lemma_applied_both(
    tables: NodeSet,
    x: Seq<TableWriteView>,
    y: Seq<TableWriteView>,
)
    ensures
        all_applied(tables, x + y) == all_applied(all_applied(tables, x), y),
    decreases y.len(),
{
    if y.len() == 0 {
        assert(x + y =~= x);
    } else {
        lemma_applied_both(tables, x, y.drop_last());
        assert((x + y).drop_last() =~= x + y.drop_last());
    }
}

/// Whether the changes at the given paths of the account trie took `tables` to `after` at `k`.
spec fn in_account_scope(
    tables: NodeSet,
    after: NodeSet,
    updates: TrieUpdates,
    paths: Seq<Seq<u8>>,
    k: (Option<B256>, Seq<u8>),
) -> bool {
    if k.0 is None && paths.contains(k.1) {
        &&& after.dom().contains(k) == (account_written(updates, k.1) || tables.dom().contains(k)
            && !account_removed(updates, k.1))
        &&& after.dom().contains(k) ==> after[k] == if account_written(updates, k.1) {
            updates.account_nodes@[k.1]@
        } else {
            tables[k]
        }
    } else {
        &&& after.dom().contains(k) == tables.dom().contains(k)
        &&& after.dom().contains(k) ==> after[k] == tables[k]
    }
}

proof fn lemma_account_writes_apply(tables: NodeSet, updates: TrieUpdates, paths: Seq<Seq<u8>>)
    requires
        forall|i: int| 0 <= i < paths.len() ==> #[trigger] touched(updates).contains_key(paths[i]),
    ensures
        forall|k: (Option<B256>, Seq<u8>)| #[trigger]
            in_account_scope(
                tables,
                all_applied(tables, all_account_writes(updates, paths)),
                updates,
                paths,
                k,
            ),
    decreases paths.len(),
{
    if paths.len() > 0 {
        let rest = paths.drop_last();
        let last = paths[paths.len() - 1];
        assert forall|i: int| 0 <= i < rest.len() implies #[trigger] touched(updates).contains_key(
            rest[i],
        ) by {
            assert(touched(updates).contains_key(paths[i]));
        }
        lemma_account_writes_apply(tables, updates, rest);
        assert(touched(updates).contains_key(paths[paths.len() - 1]));
        let (before, more) = (all_account_writes(updates, rest), account_writes(updates, last));
        let (prev, after) = (
            all_applied(tables, before),
            all_applied(tables, all_account_writes(updates, paths)),
        );
        lemma_applied_both(tables, before, more);
        lemma_account_write_applies(prev, updates, last);
        assert forall|k: (Option<B256>, Seq<u8>)| #[trigger]
            in_account_scope(tables, after, updates, paths, k) by {
            lemma_contains_last(paths, k.1);
            assert(in_account_scope(tables, prev, updates, rest, k));
        }
    }
}

/// What one change of the account trie does.
proof fn lemma_account_write_applies(tables: NodeSet, updates: TrieUpdates, path: Seq<u8>)
    requires
        touched(updates).contains_key(path),
    ensures
        all_applied(tables, account_writes(updates, path)) == if account_written(updates, path) {
            tables.insert((None, path), updates.account_nodes@[path]@)
        } else if account_removed(updates, path) {
            tables.remove((None, path))
        } else {
            tables
        },
{
    let writes = account_writes(updates, path);
    if writes.len() > 0 {
        assert(writes.drop_last() =~= Seq::empty());
        assert(all_applied(tables, writes.drop_last()) == tables);
    }
}

proof fn lemma_contains_last<A>(s: Seq<A>, x: A)
    requires
        s.len() > 0,
    ensures
        s.contains(x) <==> s.drop_last().contains(x) || x == s[s.len() - 1],
{
    let rest = s.drop_last();
    if s.contains(x) && x != s[s.len() - 1] {
        let i = choose|i: int| 0 <= i < s.len() && s[i] == x;
        assert(rest[i] == x);
    }
    if rest.contains(x) {
        let i = choose|i: int| 0 <= i < rest.len() && rest[i] == x;
        assert(s[i] == x);
    }
    assert(s.contains(s[s.len() - 1]));
}

/// Whether the changes of the given storage tries took `tables` to `after` at `k`.
spec fn in_storage_scope(
    tables: NodeSet,
    after: NodeSet,
    updates: TrieUpdates,
    accounts: Seq<B256>,
    k: (Option<B256>, Seq<u8>),
) -> bool {
    if k.0 is Some && accounts.contains(k.0->0) {
        let trie = updates.storage_tries@[k.0->0];
        let written = trie.storage_nodes@.contains_key(k.1);
        &&& after.dom().contains(k) == (written || tables.dom().contains(k)
            && !trie.removed_nodes@.contains_key(k.1))
        &&& after.dom().contains(k) ==> after[k] == if written {
            trie.storage_nodes@[k.1]@
        } else {
            tables[k]
        }
    } else {
        &&& after.dom().contains(k) == tables.dom().contains(k)
        &&& after.dom().contains(k) ==> after[k] == tables[k]
    }
}

proof fn lemma_storage_writes_apply(tables: NodeSet, updates: TrieUpdates, accounts: Seq<B256>)
    ensures
        forall|k: (Option<B256>, Seq<u8>)| #[trigger]
            in_storage_scope(
                tables,
                all_applied(tables, all_storage_writes(updates, accounts)),
                updates,
                accounts,
                k,
            ),
    decreases accounts.len(),
{
    if accounts.len() > 0 {
        let rest = accounts.drop_last();
        let last = accounts[accounts.len() - 1];
        lemma_storage_writes_apply(tables, updates, rest);
        let write = TableWriteView::Storage(last, updates.storage_tries@[last]);
        let (before, all) = (
            all_storage_writes(updates, rest),
            all_storage_writes(updates, accounts),
        );
        assert(all =~= before.push(write));
        assert(all.drop_last() =~= before);
        let (prev, after) = (all_applied(tables, before), all_applied(tables, all));
        assert(after == applied(prev, write));
        assert forall|k: (Option<B256>, Seq<u8>)| #[trigger]
            in_storage_scope(tables, after, updates, accounts, k) by {
            assert(in_storage_scope(tables, prev, updates, rest, k));
            if k.0 is Some {
                lemma_contains_last(accounts, k.0->0);
            }
        }
    }
}

/// Writing adds the nodes: once the changes for updates that remove nothing are applied, such as
/// those of a build or of a part of it, the tables hold their nodes, and all others as before.
pub proof fn lemma_writing_adds_the_nodes(
    tables: NodeSet,
    updates: TrieUpdates,
    writes: Seq<TableWriteView>,
)
    requires
        updates.removes_nothing(),
        below_roots(updates.nodes()),
        are_writes(updates, writes),
    ensures
        all_applied(tables, writes) == tables.union_prefer_right(updates.nodes()),
{
    let none: Seq<u8> = Seq::empty();
    assert forall|a: B256| #[trigger] updates.storage_tries@.contains_key(
        a,
    ) implies !updates.storage_tries@[a].storage_nodes@.contains_key(none)
        && !updates.storage_tries@[a].removed_nodes@.contains_key(none) by {
        let k: (Option<B256>, Seq<u8>) = (Some(a), none);
        assert(updates.nodes().contains_key(k)
            == updates.storage_tries@[a].storage_nodes@.contains_key(none));
    }
    lemma_tables_are_updated(tables, updates, writes);
    let (a, b) = (updated(tables, updates), tables.union_prefer_right(updates.nodes()));
    assert forall|k: (Option<B256>, Seq<u8>)|
        #![trigger a.dom().contains(k)]
        #![trigger b.dom().contains(k)]
        #![trigger a[k]]
        a.dom().contains(k) == b.dom().contains(k) && (a.dom().contains(k) ==> a[k] == b[k]) by {
        if updates.nodes().contains_key(k) {
            assert(k.1.len() > 0);
        }
        match k.0 {
            None => {
                assert(updates.nodes().contains_key(k) == updates.account_nodes@.contains_key(k.1));
            },
            Some(x) => {
                if updates.storage_tries@.contains_key(x) {}
            },
        }
    }
    assert(a =~= b);
}

/// Whether `outcome` is what a change of the tables did: a removal says whether there was a node,
/// and a storage trie how many of its entries were changed.
pub open spec fn did(tables: NodeSet, write: TableWriteView, outcome: WriteOutcome) -> bool {
    match write {
        TableWriteView::Upsert(_, _) => outcome == WriteOutcome::Upserted,
        TableWriteView::Delete(path) => outcome == WriteOutcome::Deleted(
            tables.contains_key((None, path)),
        ),
        TableWriteView::Storage(_, _) => outcome is Storage,
    }
}

/// Whether the outcomes are what the changes did, one after the other.
pub open spec fn all_did(
    tables: NodeSet,
    writes: Seq<TableWriteView>,
    outcomes: Seq<WriteOutcome>,
) -> bool {
    &&& outcomes.len() == writes.len()
    &&& forall|i: int|
        0 <= i < writes.len() ==> did(
            all_applied(tables, writes.take(i)),
            #[trigger] writes[i],
            outcomes[i],
        )
}

/// The entries that storage tries report.
pub open spec fn storage_entries(outcomes: Seq<WriteOutcome>) -> nat
    decreases outcomes.len(),
{
    if outcomes.len() == 0 {
        0
    } else {
        storage_entries(outcomes.drop_last()) + match outcomes.last() {
            WriteOutcome::Storage(n) => n as nat,
            _ => 0,
        }
    }
}

/// The paths of the account trie where a node is written.
pub open spec fn written_paths(updates: TrieUpdates) -> Set<Seq<u8>> {
    Set::new(|p: Seq<u8>| account_written(updates, p))
}

/// The paths of the account trie where a node of the tables is removed.
pub open spec fn removed_paths(tables: NodeSet, updates: TrieUpdates) -> Set<Seq<u8>> {
    Set::new(|p: Seq<u8>| account_removed(updates, p) && tables.contains_key((None, p)))
}

/// Entries are counted: writing updates counts one entry per account node that is written, one per
/// account node that is there and removed, and what the storage tries report.
pub proof fn lemma_entries_are_counted(
    tables: NodeSet,
    updates: TrieUpdates,
    writes: Seq<TableWriteView>,
    outcomes: Seq<WriteOutcome>,
)
    requires
        are_writes(updates, writes),
        all_did(tables, writes, outcomes),
    ensures
        written_paths(updates).finite(),
        removed_paths(tables, updates).finite(),
        total_entries(outcomes) == written_paths(updates).len() + removed_paths(
            tables,
            updates,
        ).len() + storage_entries(outcomes),
{
    let (paths, accounts) = choose|paths: Seq<Seq<u8>>, accounts: Seq<B256>| #[trigger]
        are_writes_in(updates, writes, paths, accounts);
    lemma_keys_differ::<Nibbles, ()>(paths, touched(updates));
    let first = all_account_writes(updates, paths);
    let n = first.len() as int;
    let (x, y) = (outcomes.take(n), outcomes.skip(n));
    assert forall|i: int| 0 <= i < n implies did(
        all_applied(tables, first.take(i)),
        #[trigger] first[i],
        x[i],
    ) by {
        assert(writes[i] == first[i]);
        assert(writes.take(i) =~= first.take(i));
    }
    lemma_account_entries(tables, updates, paths, x);
    assert forall|i: int| 0 <= i < y.len() implies (#[trigger] y[i]) is Storage by {
        assert(writes[n + i] == all_storage_writes(updates, accounts)[i]);
        assert(did(all_applied(tables, writes.take(n + i)), writes[n + i], outcomes[n + i]));
    }
    lemma_storage_entries(y);
    lemma_total_both(x, y);
    lemma_storage_entries_both(x, y);
    assert(x + y =~= outcomes);
    assert forall|p: Seq<u8>| touched(updates).contains_key(p) implies paths.contains(p) by {}
    assert(some_written(updates, paths) =~= written_paths(updates)) by {
        assert forall|p: Seq<u8>| account_written(updates, p) implies paths.contains(p) by {
            assert(touched(updates).contains_key(p));
        }
    }
    assert(some_removed(tables, updates, paths) =~= removed_paths(tables, updates)) by {
        assert forall|p: Seq<u8>| account_removed(updates, p) implies paths.contains(p) by {
            assert(touched(updates).contains_key(p));
        }
    }
}

/// The paths among the given ones where a node is written.
spec fn some_written(updates: TrieUpdates, paths: Seq<Seq<u8>>) -> Set<Seq<u8>> {
    Set::new(|p: Seq<u8>| paths.contains(p) && account_written(updates, p))
}

/// The paths among the given ones where a node of the tables is removed.
spec fn some_removed(tables: NodeSet, updates: TrieUpdates, paths: Seq<Seq<u8>>) -> Set<Seq<u8>> {
    Set::new(
        |p: Seq<u8>|
            paths.contains(p) && account_removed(updates, p) && tables.contains_key((None, p)),
    )
}

proof fn lemma_account_entries(
    tables: NodeSet,
    updates: TrieUpdates,
    paths: Seq<Seq<u8>>,
    outcomes: Seq<WriteOutcome>,
)
    requires
        paths.no_duplicates(),
        forall|i: int| 0 <= i < paths.len() ==> #[trigger] touched(updates).contains_key(paths[i]),
        all_did(tables, all_account_writes(updates, paths), outcomes),
    ensures
        some_written(updates, paths).finite(),
        some_removed(tables, updates, paths).finite(),
        total_entries(outcomes) == some_written(updates, paths).len() + some_removed(
            tables,
            updates,
            paths,
        ).len(),
        storage_entries(outcomes) == 0,
    decreases paths.len(),
{
    let (w, r) = (some_written(updates, paths), some_removed(tables, updates, paths));
    if paths.len() == 0 {
        assert(w =~= Set::empty());
        assert(r =~= Set::empty());
    } else {
        let rest = paths.drop_last();
        let last = paths[paths.len() - 1];
        let (before, all) = (all_account_writes(updates, rest), all_account_writes(updates, paths));
        let n = before.len() as int;
        let head = outcomes.take(n);
        assert forall|i: int| 0 <= i < rest.len() implies #[trigger] touched(updates).contains_key(
            rest[i],
        ) by {
            assert(touched(updates).contains_key(paths[i]));
        }
        assert(rest.no_duplicates()) by {
            assert forall|i: int, j: int| 0 <= i < rest.len() && 0 <= j < rest.len() && i
                != j implies rest[i] != rest[j] by {
                assert(paths[i] != paths[j]);
            }
        }
        assert(!rest.contains(last)) by {
            if rest.contains(last) {
                let i = choose|i: int| 0 <= i < rest.len() && rest[i] == last;
                assert(paths[i] != paths[paths.len() - 1]);
            }
        }
        assert forall|i: int| 0 <= i < n implies did(
            all_applied(tables, before.take(i)),
            #[trigger] before[i],
            head[i],
        ) by {
            assert(all[i] == before[i]);
            assert(all.take(i) =~= before.take(i));
        }
        lemma_account_entries(tables, updates, rest, head);
        assert forall|p: Seq<u8>| paths.contains(p) == (rest.contains(p) || p == last) by {
            lemma_contains_last(paths, p);
        }
        let (v, q) = (some_written(updates, rest), some_removed(tables, updates, rest));
        assert(touched(updates).contains_key(paths[paths.len() - 1]));
        let more = account_writes(updates, last);
        assert(all == before + more);
        if more.len() == 0 {
            assert(head =~= outcomes);
            assert(w =~= v);
            assert(r =~= q);
        } else {
            assert(all.take(n) =~= before);
            assert(all[n] == more[0]);
            assert(did(all_applied(tables, all.take(n)), all[n], outcomes[n]));
            assert(outcomes.drop_last() =~= head);
            lemma_account_writes_apply(tables, updates, rest);
            let k: (Option<B256>, Seq<u8>) = (None, last);
            assert(in_account_scope(tables, all_applied(tables, before), updates, rest, k));
            if account_written(updates, last) {
                assert(w =~= v.insert(last));
                assert(r =~= q);
            } else if tables.contains_key(k) {
                assert(w =~= v);
                assert(r =~= q.insert(last));
            } else {
                assert(w =~= v);
                assert(r =~= q);
            }
        }
    }
}

proof fn lemma_storage_entries(outcomes: Seq<WriteOutcome>)
    requires
        forall|i: int| 0 <= i < outcomes.len() ==> (#[trigger] outcomes[i]) is Storage,
    ensures
        total_entries(outcomes) == storage_entries(outcomes),
    decreases outcomes.len(),
{
    if outcomes.len() > 0 {
        lemma_storage_entries(outcomes.drop_last());
        assert(outcomes[outcomes.len() - 1] is Storage);
    }
}

proof fn lemma_storage_entries_both(x: Seq<WriteOutcome>, y: Seq<WriteOutcome>)
    ensures
        storage_entries(x + y) == storage_entries(x) + storage_entries(y),
    decreases y.len(),
{
    if y.len() == 0 {
        assert(x + y =~= x);
    } else {
        lemma_storage_entries_both(x, y.drop_last());
        assert((x + y).drop_last() =~= x + y.drop_last());
    }
}

/// The tables after the changes of several chunks.
pub open spec fn tables_after(tables: NodeSet, chunks: Seq<Seq<TableWriteView>>) -> NodeSet
    decreases chunks.len(),
{
    if chunks.len() == 0 {
        tables
    } else {
        all_applied(tables_after(tables, chunks.drop_last()), chunks.last())
    }
}

/// Chunked writing leaves the build: when the nodes of a build are committed in chunks into empty
/// tables, however they are cut, the tables end up with exactly these nodes.
pub proof fn lemma_chunked_writing_leaves_the_build(
    nodes: NodeSet,
    parts: Seq<Seq<Entry>>,
    chunks: Seq<TrieUpdates>,
    writes: Seq<Seq<TableWriteView>>,
)
    requires
        lists_all(joined(parts), nodes),
        below_roots(nodes),
        chunks.len() == parts.len(),
        writes.len() == parts.len(),
        forall|c: int| 0 <= c < parts.len() ==> #[trigger] is_chunk(chunks[c], parts[c]),
        forall|c: int| 0 <= c < parts.len() ==> #[trigger] are_writes(chunks[c], writes[c]),
    ensures
        tables_after(Map::empty(), writes) == nodes,
{
    lemma_chunks_apply(joined(parts), nodes, parts, chunks, writes);
    lemma_lists_same(joined(parts), tables_after(Map::empty(), writes), nodes);
}

proof fn lemma_chunks_apply(
    list: Seq<Entry>,
    nodes: NodeSet,
    parts: Seq<Seq<Entry>>,
    chunks: Seq<TrieUpdates>,
    writes: Seq<Seq<TableWriteView>>,
)
    requires
        joined(parts).is_prefix_of(list),
        lists_all(list, nodes),
        below_roots(nodes),
        chunks.len() == parts.len(),
        writes.len() == parts.len(),
        forall|c: int| 0 <= c < parts.len() ==> #[trigger] is_chunk(chunks[c], parts[c]),
        forall|c: int| 0 <= c < parts.len() ==> #[trigger] are_writes(chunks[c], writes[c]),
    ensures
        lists_all(joined(parts), tables_after(Map::empty(), writes)),
    decreases parts.len(),
{
    let empty: NodeSet = Map::empty();
    let all = joined(parts);
    if parts.len() == 0 {
        assert(writes =~= Seq::empty());
        lemma_lists_nothing(empty);
        assert(tables_after(empty, writes) =~= empty);
    } else {
        let last = parts.len() - 1;
        let (part, chunk) = (parts[last], chunks[last]);
        let before = joined(parts.drop_last());
        assert(before.is_prefix_of(list));
        assert forall|c: int| 0 <= c < last implies #[trigger] is_chunk(
            chunks.drop_last()[c],
            parts.drop_last()[c],
        ) by {
            assert(is_chunk(chunks[c], parts[c]));
        }
        assert forall|c: int| 0 <= c < last implies #[trigger] are_writes(
            chunks.drop_last()[c],
            writes.drop_last()[c],
        ) by {
            assert(are_writes(chunks[c], writes[c]));
        }
        lemma_chunks_apply(
            list,
            nodes,
            parts.drop_last(),
            chunks.drop_last(),
            writes.drop_last(),
        );
        assert(is_chunk(chunks[last], parts[last]));
        assert(are_writes(chunks[last], writes[last]));
        let n = before.len() as int;
        assert forall|i: int| 0 <= i < part.len() implies #[trigger] place(part, i) == place(
            list,
            n + i,
        ) by {
            assert(all[n + i] == part[i]);
            assert(list[n + i] == all[n + i]);
        }
        assert forall|i: int| 0 <= i < n implies #[trigger] place(before, i) == place(list, i) by {
            assert(all[i] == before[i]);
            assert(list[i] == all[i]);
        }
        assert forall|k: (Option<B256>, Seq<u8>)| #[trigger]
            chunk.nodes().contains_key(k) implies k.1.len() > 0 by {
            assert(listed(part, k.0, k.1));
            let i = choose|i: int| 0 <= i < part.len() && #[trigger] place(part, i) == k;
            assert(nodes.contains_key(place(list, n + i)));
        }
        let tables = tables_after(empty, writes.drop_last());
        lemma_writing_adds_the_nodes(tables, chunk, writes[last]);
        assert forall|k: (Option<B256>, Seq<u8>)|
            tables.contains_key(k) implies !chunk.nodes().contains_key(k) by {
            assert(listed(before, k.0, k.1));
            let i = choose|i: int| 0 <= i < before.len() && #[trigger] place(before, i) == k;
            if chunk.nodes().contains_key(k) {
                assert(listed(part, k.0, k.1));
                let j = choose|j: int| 0 <= j < part.len() && #[trigger] place(part, j) == k;
                assert(place(list, i) != place(list, n + j));
            }
        }
        assert(tables.dom().disjoint(chunk.nodes().dom()));
        lemma_lists_both(before, part, tables, chunk.nodes());
        assert(all == before + part);
    }
}

/// Writing the nodes of a build changes one account trie entry per account node, and nothing else
/// of the account trie.
pub proof fn lemma_build_is_written_whole(updates: TrieUpdates, paths: Seq<Seq<u8>>)
    requires
        updates.removes_nothing(),
        !updates.account_nodes@.contains_key(Seq::empty()),
        lists_keys::<Nibbles, ()>(paths, touched(updates)),
    ensures
        all_account_writes(updates, paths) == Seq::new(
            paths.len(),
            |i: int| TableWriteView::Upsert(paths[i], updates.account_nodes@[paths[i]]@),
        ),
        forall|p: Seq<u8>| #[trigger]
            updates.account_nodes@.contains_key(p) <==> paths.contains(p),
{
    assert forall|i: int| 0 <= i < paths.len() implies updates.account_nodes@.contains_key(
        #[trigger] paths[i],
    ) by {
        assert(touched(updates).contains_key(paths[i]));
    }
    lemma_upserts(updates, paths);
    assert forall|p: Seq<u8>| #[trigger] updates.account_nodes@.contains_key(
        p,
    ) implies paths.contains(p) by {
        assert(touched(updates).contains_key(p));
    }
}

proof fn lemma_upserts(updates: TrieUpdates, paths: Seq<Seq<u8>>)
    requires
        !updates.account_nodes@.contains_key(Seq::empty()),
        forall|i: int|
            0 <= i < paths.len() ==> updates.account_nodes@.contains_key(#[trigger] paths[i]),
    ensures
        all_account_writes(updates, paths) == Seq::new(
            paths.len(),
            |i: int| TableWriteView::Upsert(paths[i], updates.account_nodes@[paths[i]]@),
        ),
    decreases paths.len(),
{
    let all = Seq::new(
        paths.len(),
        |i: int| TableWriteView::Upsert(paths[i], updates.account_nodes@[paths[i]]@),
    );
    if paths.len() > 0 {
        let rest = paths.drop_last();
        assert forall|i: int| 0 <= i < rest.len() implies updates.account_nodes@.contains_key(
            #[trigger] rest[i],
        ) by {
            assert(updates.account_nodes@.contains_key(paths[i]));
        }
        lemma_upserts(updates, rest);
        let last = paths[paths.len() - 1];
        assert(updates.account_nodes@.contains_key(last));
        if last.len() == 0 {
            assert(last =~= Seq::empty());
        }
    }
    assert(all_account_writes(updates, paths) =~= all);
}

/// Whether `outcome` is what a change did that writes nodes and removes none: one entry per node.
pub open spec fn wrote_its_nodes(write: TableWriteView, outcome: WriteOutcome) -> bool {
    match write {
        TableWriteView::Upsert(_, _) => outcome == WriteOutcome::Upserted,
        TableWriteView::Delete(_) => outcome is Deleted,
        TableWriteView::Storage(_, trie) => outcome matches WriteOutcome::Storage(n) && n
            == trie.storage_nodes@.len(),
    }
}

/// Whether the outcomes are what the changes did, one by one.
pub open spec fn all_wrote_their_nodes(
    writes: Seq<TableWriteView>,
    outcomes: Seq<WriteOutcome>,
) -> bool {
    &&& outcomes.len() == writes.len()
    &&& forall|i: int|
        0 <= i < writes.len() ==> wrote_its_nodes(#[trigger] writes[i], outcomes[i])
}

/// Every node is one entry: writing the nodes of a build, or of a part of it, writes as many table
/// entries as there are nodes.
pub proof fn lemma_every_node_is_one_entry(
    updates: TrieUpdates,
    list: Seq<Entry>,
    writes: Seq<TableWriteView>,
    outcomes: Seq<WriteOutcome>,
)
    requires
        updates.removes_nothing(),
        below_roots(updates.nodes()),
        lists_all(list, updates.nodes()),
        are_writes(updates, writes),
        all_wrote_their_nodes(writes, outcomes),
    ensures
        total_entries(outcomes) == list.len(),
{
    lemma_no_account_root(updates);
    let (paths, accounts) = choose|paths: Seq<Seq<u8>>, accounts: Seq<B256>| #[trigger]
        are_writes_in(updates, writes, paths, accounts);
    lemma_build_is_written_whole(updates, paths);
    lemma_updates_are_counted(updates, list, accounts);
    assert(touched(updates).dom() =~= updates.account_nodes@.dom());
    lemma_keys_differ::<Nibbles, ()>(paths, touched(updates));
    let n = paths.len() as int;
    let (first, second) = (outcomes.take(n), outcomes.skip(n));
    assert forall|i: int| 0 <= i < n implies (#[trigger] first[i]) == WriteOutcome::Upserted by {
        assert(writes[i] == all_account_writes(updates, paths)[i]);
        assert(wrote_its_nodes(writes[i], outcomes[i]));
    }
    lemma_upserts_count(first);
    assert forall|i: int| 0 <= i < accounts.len() implies (#[trigger] second[i])
        == WriteOutcome::Storage(
        updates.storage_tries@[accounts[i]].storage_nodes@.len() as usize,
    ) && updates.storage_tries@[accounts[i]].storage_nodes@.len() <= usize::MAX by {
        assert(writes[n + i] == all_storage_writes(updates, accounts)[i]);
        assert(wrote_its_nodes(writes[n + i], outcomes[n + i]));
    }
    lemma_storages_count(updates, accounts, second);
    lemma_total_both(first, second);
    assert(first + second =~= outcomes);
}

proof fn lemma_upserts_count(outcomes: Seq<WriteOutcome>)
    requires
        forall|i: int|
            0 <= i < outcomes.len() ==> (#[trigger] outcomes[i]) == WriteOutcome::Upserted,
    ensures
        total_entries(outcomes) == outcomes.len(),
    decreases outcomes.len(),
{
    if outcomes.len() > 0 {
        lemma_upserts_count(outcomes.drop_last());
        assert(outcomes[outcomes.len() - 1] == WriteOutcome::Upserted);
    }
}

proof fn lemma_storages_count(
    updates: TrieUpdates,
    accounts: Seq<B256>,
    outcomes: Seq<WriteOutcome>,
)
    requires
        outcomes.len() == accounts.len(),
        forall|i: int|
            0 <= i < accounts.len() ==> (#[trigger] outcomes[i]) == WriteOutcome::Storage(
                updates.storage_tries@[accounts[i]].storage_nodes@.len() as usize,
            ) && updates.storage_tries@[accounts[i]].storage_nodes@.len() <= usize::MAX,
    ensures
        total_entries(outcomes) == storage_node_count(updates, accounts),
    decreases accounts.len(),
{
    if accounts.len() > 0 {
        let (rest, tail) = (accounts.drop_last(), outcomes.drop_last());
        assert forall|i: int| 0 <= i < rest.len() implies (#[trigger] tail[i])
            == WriteOutcome::Storage(
            updates.storage_tries@[rest[i]].storage_nodes@.len() as usize,
        ) && updates.storage_tries@[rest[i]].storage_nodes@.len() <= usize::MAX by {
            assert(outcomes[i] == tail[i]);
        }
        lemma_storages_count(updates, rest, tail);
        let n = accounts.len() - 1;
        assert(outcomes[n] == WriteOutcome::Storage(
            updates.storage_tries@[accounts[n]].storage_nodes@.len() as usize,
        ));
    }
}

proof fn lemma_total_both(x: Seq<WriteOutcome>, y: Seq<WriteOutcome>)
    ensures
        total_entries(x + y) == total_entries(x) + total_entries(y),
    decreases y.len(),
{
    if y.len() == 0 {
        assert(x + y =~= x);
    } else {
        lemma_total_both(x, y.drop_last());
        assert((x + y).drop_last() =~= x + y.drop_last());
    }
}

/// Whether `tables` are the counts and the digest of a scan of these rows.
pub open spec fn is_scan(tables: TrieTablesDigest, scanned: Seq<Entry>) -> bool {
    &&& tables.account_nodes == count_account_nodes(scanned)
    &&& tables.account_nodes + tables.storage_nodes == scanned.len()
    &&& is_digest(tables.digest, scanned)
}

/// The tables match the updates: when the nodes of a build are written into empty tables, a scan
/// counts exactly its account nodes and its storage nodes, as many entries were written, and on one
/// machine the tables have the digest of the updates.
pub proof fn lemma_tables_match_the_updates(
    updates: TrieUpdates,
    accounts: Seq<B256>,
    writes: Seq<TableWriteView>,
    outcomes: Seq<WriteOutcome>,
    scanned: Seq<Entry>,
    tables: TrieTablesDigest,
    list: Seq<Entry>,
    collected: Digest,
)
    requires
        updates.removes_nothing(),
        below_roots(updates.nodes()),
        lists_keys::<B256, StorageTrieUpdates>(accounts, updates.storage_tries@),
        are_writes(updates, writes),
        all_wrote_their_nodes(writes, outcomes),
        lists_all(scanned, all_applied(Map::empty(), writes)),
        is_scan(tables, scanned),
        lists_all(list, updates.nodes()),
        is_digest(collected, list),
    ensures
        tables.account_nodes == updates.account_nodes@.len(),
        tables.storage_nodes == storage_node_count(updates, accounts),
        total_entries(outcomes) == tables.account_nodes + tables.storage_nodes,
        one_machine() ==> tables.digest == collected,
{
    lemma_writing_adds_the_nodes(Map::empty(), updates, writes);
    assert(all_applied(Map::empty(), writes) =~= updates.nodes());
    lemma_updates_are_counted(updates, scanned, accounts);
    lemma_every_node_is_one_entry(updates, scanned, writes, outcomes);
    if one_machine() {
        lemma_same_nodes_same_digest(
            tables.digest,
            collected,
            scanned,
            list,
            updates.nodes(),
        );
    }
}

/// The table entries written for several chunks.
pub open spec fn entries_of_chunks(outcomes: Seq<Seq<WriteOutcome>>) -> nat
    decreases outcomes.len(),
{
    if outcomes.len() == 0 {
        0
    } else {
        entries_of_chunks(outcomes.drop_last()) + total_entries(outcomes.last())
    }
}

/// The writing sink leaves the updates: when the nodes of some updates reach the writer in whatever
/// order and are committed into empty tables in chunks of whatever size, the rest included, the
/// tables hold exactly these nodes, as many entries were written, in one transaction per chunk, and
/// on one machine a scan of the tables has the digest of the updates, which counts the entries.
pub proof fn lemma_write_sink_leaves_the_updates(
    updates: TrieUpdates,
    list: Seq<Entry>,
    size: nat,
    chunks: Seq<TrieUpdates>,
    writes: Seq<Seq<TableWriteView>>,
    outcomes: Seq<Seq<WriteOutcome>>,
    scanned: Seq<Entry>,
    tables: TrieTablesDigest,
    other: Seq<Entry>,
    collected: Digest,
)
    requires
        size > 0,
        below_roots(updates.nodes()),
        lists_all(list, updates.nodes()),
        chunks.len() == chunks_of(list, size).len(),
        writes.len() == chunks.len(),
        outcomes.len() == chunks.len(),
        forall|c: int|
            0 <= c < chunks.len() ==> #[trigger] is_chunk(chunks[c], chunks_of(list, size)[c]),
        forall|c: int| 0 <= c < chunks.len() ==> #[trigger] are_writes(chunks[c], writes[c]),
        forall|c: int|
            0 <= c < chunks.len() ==> #[trigger] all_wrote_their_nodes(writes[c], outcomes[c]),
        lists_all(scanned, tables_after(Map::empty(), writes)),
        is_scan(tables, scanned),
        lists_all(other, updates.nodes()),
        is_digest(collected, other),
    ensures
        tables_after(Map::empty(), writes) == updates.nodes(),
        chunks.len() == chunk_count(list.len(), size),
        entries_of_chunks(outcomes) == tables.account_nodes + tables.storage_nodes,
        entries_of_chunks(outcomes) <= u64::MAX ==> tables.digest.count == entries_of_chunks(
            outcomes,
        ),
        one_machine() ==> tables.digest == collected,
{
    let nodes = updates.nodes();
    let parts = chunks_of(list, size);
    lemma_chunks_are_the_build(list, size);
    lemma_chunked_writing_leaves_the_build(nodes, parts, chunks, writes);
    lemma_chunks_count(nodes, parts, list, chunks, writes, outcomes);
    lemma_same_entries(list, scanned, nodes);
    vstd::seq_lib::to_multiset_len(list);
    vstd::seq_lib::to_multiset_len(scanned);
    if one_machine() {
        lemma_same_nodes_same_digest(tables.digest, collected, scanned, other, nodes);
    }
}

proof fn lemma_chunks_count(
    nodes: NodeSet,
    parts: Seq<Seq<Entry>>,
    list: Seq<Entry>,
    chunks: Seq<TrieUpdates>,
    writes: Seq<Seq<TableWriteView>>,
    outcomes: Seq<Seq<WriteOutcome>>,
)
    requires
        joined(parts).is_prefix_of(list),
        lists_all(list, nodes),
        below_roots(nodes),
        chunks.len() == parts.len(),
        writes.len() == parts.len(),
        outcomes.len() == parts.len(),
        forall|c: int| 0 <= c < parts.len() ==> #[trigger] is_chunk(chunks[c], parts[c]),
        forall|c: int| 0 <= c < parts.len() ==> #[trigger] are_writes(chunks[c], writes[c]),
        forall|c: int|
            0 <= c < parts.len() ==> #[trigger] all_wrote_their_nodes(writes[c], outcomes[c]),
    ensures
        entries_of_chunks(outcomes) == joined(parts).len(),
    decreases parts.len(),
{
    if parts.len() > 0 {
        let last = parts.len() - 1;
        let (part, chunk) = (parts[last], chunks[last]);
        let (all, before) = (joined(parts), joined(parts.drop_last()));
        let n = before.len() as int;
        assert(before.is_prefix_of(list));
        assert forall|c: int| 0 <= c < last implies #[trigger] is_chunk(
            chunks.drop_last()[c],
            parts.drop_last()[c],
        ) by {
            assert(is_chunk(chunks[c], parts[c]));
        }
        assert forall|c: int| 0 <= c < last implies #[trigger] are_writes(
            chunks.drop_last()[c],
            writes.drop_last()[c],
        ) by {
            assert(are_writes(chunks[c], writes[c]));
        }
        assert forall|c: int| 0 <= c < last implies #[trigger] all_wrote_their_nodes(
            writes.drop_last()[c],
            outcomes.drop_last()[c],
        ) by {
            assert(all_wrote_their_nodes(writes[c], outcomes[c]));
        }
        lemma_chunks_count(
            nodes,
            parts.drop_last(),
            list,
            chunks.drop_last(),
            writes.drop_last(),
            outcomes.drop_last(),
        );
        assert(is_chunk(chunks[last], parts[last]));
        assert(are_writes(chunks[last], writes[last]));
        assert(all_wrote_their_nodes(writes[last], outcomes[last]));
        assert forall|k: (Option<B256>, Seq<u8>)| #[trigger]
            chunk.nodes().contains_key(k) implies k.1.len() > 0 by {
            assert(listed(part, k.0, k.1));
            let i = choose|i: int| 0 <= i < part.len() && #[trigger] place(part, i) == k;
            assert(all[n + i] == part[i]);
            assert(list[n + i] == all[n + i]);
            assert(nodes.contains_key(place(list, n + i)));
        }
        lemma_every_node_is_one_entry(chunk, part, writes[last], outcomes[last]);
    }
}

/// Whether some round of a rebuild hands out a node at a place.
spec fn handed_out<S>(
    rounds: Seq<(WalkProgress<S, TrieUpdates>, usize)>,
    k: (Option<B256>, Seq<u8>),
) -> bool {
    exists|c: int| #[trigger] hands_out(rounds, c, k)
}

/// Whether the round `c` of a rebuild hands out a node at a place.
pub open spec fn hands_out<S>(
    rounds: Seq<(WalkProgress<S, TrieUpdates>, usize)>,
    c: int,
    k: (Option<B256>, Seq<u8>),
) -> bool {
    0 <= c < rounds.len() && updates_of(rounds[c].0).nodes().contains_key(k)
}

/// Whether the walks of a rebuild hand out the given nodes, cut in whatever way, and remove nothing.
pub open spec fn rounds_hand_out<S>(
    rounds: Seq<(WalkProgress<S, TrieUpdates>, usize)>,
    nodes: NodeSet,
) -> bool {
    &&& forall|c: int|
        0 <= c < rounds.len() ==> updates_of((#[trigger] rounds[c]).0).removes_nothing()
            && updates_of(rounds[c].0).nodes().submap_of(nodes)
    &&& forall|k: (Option<B256>, Seq<u8>)| #[trigger]
        nodes.contains_key(k) ==> exists|c: int| #[trigger] hands_out(rounds, c, k)
}

/// A rebuild leaves the nodes of its walk: where the walks of all rounds together hand out the nodes
/// that one walk over everything would, the tables that were empty end up with exactly these nodes,
/// whatever the rounds, and on one machine they have the digest of these nodes.
pub proof fn lemma_rebuild_leaves_the_walk<S>(
    nodes: NodeSet,
    rounds: Seq<(WalkProgress<S, TrieUpdates>, usize)>,
    writes: Seq<Seq<TableWriteView>>,
    scanned: Seq<Entry>,
    tables: TrieTablesDigest,
    list: Seq<Entry>,
    collected: Digest,
)
    requires
        below_roots(nodes),
        rounds_hand_out(rounds, nodes),
        writes.len() == rounds.len(),
        forall|c: int|
            0 <= c < rounds.len() ==> are_writes(updates_of((#[trigger] rounds[c]).0), writes[c]),
        lists_all(scanned, tables_after(Map::empty(), writes)),
        is_scan(tables, scanned),
        lists_all(list, nodes),
        is_digest(collected, list),
    ensures
        tables_after(Map::empty(), writes) == nodes,
        tables.account_nodes + tables.storage_nodes == list.len(),
        one_machine() ==> tables.digest == collected,
{
    let all = tables_after(Map::empty(), writes);
    lemma_rounds_apply(nodes, rounds, writes);
    assert forall|k: (Option<B256>, Seq<u8>)| nodes.contains_key(k) implies all.contains_key(k) by {
        let c = choose|c: int| #[trigger] hands_out(rounds, c, k);
        assert(handed_out(rounds, k));
        assert(all.dom().contains(k));
    }
    assert(all =~= nodes);
    lemma_same_entries(list, scanned, nodes);
    vstd::seq_lib::to_multiset_len(list);
    vstd::seq_lib::to_multiset_len(scanned);
    if one_machine() {
        lemma_same_nodes_same_digest(tables.digest, collected, scanned, list, nodes);
    }
}

proof fn lemma_rounds_apply<S>(
    nodes: NodeSet,
    rounds: Seq<(WalkProgress<S, TrieUpdates>, usize)>,
    writes: Seq<Seq<TableWriteView>>,
)
    requires
        below_roots(nodes),
        forall|c: int|
            0 <= c < rounds.len() ==> updates_of((#[trigger] rounds[c]).0).removes_nothing()
                && updates_of(rounds[c].0).nodes().submap_of(nodes),
        writes.len() == rounds.len(),
        forall|c: int|
            0 <= c < rounds.len() ==> are_writes(updates_of((#[trigger] rounds[c]).0), writes[c]),
    ensures
        tables_after(Map::empty(), writes).submap_of(nodes),
        forall|k: (Option<B256>, Seq<u8>)| #[trigger]
            tables_after(Map::empty(), writes).dom().contains(k) <==> handed_out(rounds, k),
    decreases rounds.len(),
{
    let empty: NodeSet = Map::empty();
    let all = tables_after(empty, writes);
    if rounds.len() == 0 {
        assert(writes =~= Seq::empty());
        assert(all =~= empty);
    } else {
        let n = rounds.len() - 1;
        let rest = rounds.drop_last();
        assert forall|c: int| 0 <= c < n implies updates_of((#[trigger] rest[c]).0).removes_nothing()
            && updates_of(rest[c].0).nodes().submap_of(nodes) by {
            assert(rest[c] == rounds[c]);
        }
        assert forall|c: int| 0 <= c < n implies are_writes(
            updates_of((#[trigger] rest[c]).0),
            writes.drop_last()[c],
        ) by {
            assert(rest[c] == rounds[c]);
        }
        lemma_rounds_apply(nodes, rest, writes.drop_last());
        let before = tables_after(empty, writes.drop_last());
        let last = updates_of(rounds[n].0);
        assert(last.nodes().submap_of(nodes));
        assert forall|k: (Option<B256>, Seq<u8>)| #[trigger]
            last.nodes().contains_key(k) implies k.1.len() > 0 by {
            assert(last.nodes().dom().contains(k));
            assert(nodes.contains_key(k));
        }
        lemma_writing_adds_the_nodes(before, last, writes[n]);
        assert forall|k: (Option<B256>, Seq<u8>)| #[trigger]
            all.dom().contains(k) <==> handed_out(rounds, k) by {
            if handed_out(rounds, k) {
                let c = choose|c: int| #[trigger] hands_out(rounds, c, k);
                if c < n {
                    assert(rest[c] == rounds[c]);
                    assert(hands_out(rest, c, k));
                    assert(handed_out(rest, k));
                    assert(before.dom().contains(k));
                }
            }
            if before.dom().contains(k) {
                let c = choose|c: int| #[trigger] hands_out(rest, c, k);
                assert(rest[c] == rounds[c]);
                assert(hands_out(rounds, c, k));
            }
            if last.nodes().contains_key(k) {
                assert(hands_out(rounds, n, k));
            }
        }
    }
}

} // verus!
