//! What is read from and written to the tables, row by row.

use crate::bytes::{be_value, lemma_lex_is_value_order, lex_lt};
use crate::cursor::StateView;
use crate::nibbles::Nibbles;
use crate::node::{BranchNodeCompact, BranchView};
use crate::ordered::OrderedKey;
use crate::primitives::{Account, B256, U256};
use crate::sink::{lists_all, Entry};
use crate::tables::{
    account_writes, all_account_writes, all_storage_writes, are_writes, are_writes_in,
    count_account_nodes, in_range, rows_of, table_rows, total_entries, touched,
    write_views, HashedRow, TableWrite, TableWriteView, WriteOutcome,
};
use crate::updates::{StorageTrieUpdates, TrieUpdates};
use crate::writer::is_chunk;
use vstd::prelude::*;

verus! {

/// The rows of a state come account by account, in their order: the row of the account, then one for
/// each of its slots, in their order.
pub proof fn lemma_rows_come_account_by_account(
    state: StateView,
    accounts: Seq<(B256, Account)>,
    address: B256,
    account: Account,
)
    ensures
        table_rows(state, Seq::empty()) == Seq::<HashedRow>::empty(),
        table_rows(state, accounts.push((address, account))) == table_rows(state, accounts).push(
            HashedRow::Account(address, account),
        ) + state.slots(address).map_values(
            |slot: (B256, U256)| HashedRow::Storage(address, slot.0, slot.1),
        ),
{
    let more = accounts.push((address, account));
    assert(more.drop_last() =~= accounts);
    let slots = state.slots(address);
    let rows = slots.map_values(
        |slot: (B256, U256)| HashedRow::Storage(address, slot.0, slot.1),
    );
    assert(rows_of((address, account), slots) =~= seq![HashedRow::Account(address, account)] + rows);
}

/// A key is in a range exactly if its number is, both ends included.
pub proof fn lemma_range_is_numeric(key: B256, low: B256, high: B256)
    ensures
        in_range(key, low, high) <==> be_value(low.0@) <= be_value(key.0@) <= be_value(high.0@),
{
    lemma_lex_is_value_order(key.0@, low.0@);
    lemma_lex_is_value_order(high.0@, key.0@);
}

/// The account nodes of a list are its entries without an account, all of them.
pub proof fn lemma_account_nodes_are_counted(list: Seq<Entry>)
    ensures
        count_account_nodes(list) == list.filter(|entry: Entry| entry.0 is None).len(),
    decreases list.len(),
{
    reveal(Seq::filter);
    if list.len() > 0 {
        lemma_account_nodes_are_counted(list.drop_last());
    }
}

/// The entries that changes wrote are summed: one for a node that was written, one for a node that
/// was removed, none where there was nothing to remove, and for a storage trie what it reported.
pub proof fn lemma_entries_are_summed(outcomes: Seq<WriteOutcome>)
    ensures
        total_entries(outcomes) == outcomes.fold_left(
            0int,
            |sum: int, outcome: WriteOutcome|
                sum + match outcome {
                    WriteOutcome::Upserted => 1,
                    WriteOutcome::Deleted(true) => 1,
                    WriteOutcome::Deleted(false) => 0,
                    WriteOutcome::Storage(n) => n as int,
                },
        ),
    decreases outcomes.len(),
{
    if outcomes.len() > 0 {
        lemma_entries_are_summed(outcomes.drop_last());
    }
}

/// A change is its path and node, its path, or its account and trie.
pub proof fn lemma_change_is_its_content(
    writes: Seq<TableWrite>,
    i: int,
    path: Nibbles,
    node: BranchNodeCompact,
    account: B256,
    trie: StorageTrieUpdates,
)
    requires
        0 <= i < writes.len(),
    ensures
        write_views(writes).len() == writes.len(),
        writes[i] == TableWrite::Upsert(path, node) ==> write_views(writes)[i]
            == TableWriteView::Upsert(path@, node@),
        writes[i] == TableWrite::Delete(path) ==> write_views(writes)[i] == TableWriteView::Delete(
            path@,
        ),
        writes[i] == TableWrite::Storage(account, trie) ==> write_views(writes)[i]
            == TableWriteView::Storage(account, trie),
{
}

/// A chunk holds the listed nodes, and only writes.
pub proof fn lemma_chunk_holds_the_list(chunk: TrieUpdates, list: Seq<Entry>)
    ensures
        is_chunk(chunk, list) <==> chunk.only_writes() && lists_all(list, chunk.nodes()),
{
}

/// Whether an account node is written or removed by a change, at a path.
pub open spec fn at_path(write: TableWriteView, path: Seq<u8>) -> bool {
    match write {
        TableWriteView::Upsert(p, _) => p == path,
        TableWriteView::Delete(p) => p == path,
        TableWriteView::Storage(_, _) => false,
    }
}

proof fn lemma_account_change(updates: TrieUpdates, paths: Seq<Seq<u8>>, write: TableWriteView)
    ensures
        all_account_writes(updates, paths).contains(write) <==> exists|i: int|
            0 <= i < paths.len() && account_writes(updates, #[trigger] paths[i]).contains(write),
    decreases paths.len(),
{
    let all = all_account_writes(updates, paths);
    if paths.len() > 0 {
        let rest = paths.drop_last();
        lemma_account_change(updates, rest, write);
        let before = all_account_writes(updates, rest);
        let last = account_writes(updates, paths.last());
        assert(all == before + last);
        if all.contains(write) {
            let k = choose|k: int| 0 <= k < all.len() && all[k] == write;
            if k < before.len() {
                assert(before[k] == write);
                assert(before.contains(write));
                let i = choose|i: int|
                    0 <= i < rest.len() && account_writes(updates, #[trigger] rest[i]).contains(
                        write,
                    );
                assert(paths[i] == rest[i]);
            } else {
                assert(last[k - before.len()] == write);
                assert(account_writes(updates, paths[paths.len() - 1]).contains(write));
            }
        }
        if exists|i: int|
            0 <= i < paths.len() && account_writes(updates, #[trigger] paths[i]).contains(write) {
            let i = choose|i: int|
                0 <= i < paths.len() && account_writes(updates, #[trigger] paths[i]).contains(write);
            if i < rest.len() {
                assert(rest[i] == paths[i]);
                assert(before.contains(write));
                let k = choose|k: int| 0 <= k < before.len() && before[k] == write;
                assert(all[k] == write);
            } else {
                let k = choose|k: int| 0 <= k < last.len() && last[k] == write;
                assert(all[before.len() + k] == write);
            }
        }
    }
}

proof fn lemma_one_change_per_path(updates: TrieUpdates, path: Seq<u8>)
    ensures
        account_writes(updates, path).len() <= 1,
        forall|i: int|
            0 <= i < account_writes(updates, path).len() ==> at_path(
                #[trigger] account_writes(updates, path)[i],
                path,
            ),
{
}

/// The changes of the account trie go up by path.
proof fn lemma_account_changes_go_up(updates: TrieUpdates, paths: Seq<Seq<u8>>, i: int, j: int)
    requires
        forall|a: int, b: int|
            0 <= a < b < paths.len() ==> lex_lt(#[trigger] paths[a], #[trigger] paths[b]),
        0 <= i < j < all_account_writes(updates, paths).len(),
    ensures
        exists|p: Seq<u8>, q: Seq<u8>|
            #![trigger lex_lt(p, q)]
            at_path(all_account_writes(updates, paths)[i], p) && at_path(
                all_account_writes(updates, paths)[j],
                q,
            ) && lex_lt(p, q),
    decreases paths.len(),
{
    let all = all_account_writes(updates, paths);
    if paths.len() > 0 {
        let rest = paths.drop_last();
        let before = all_account_writes(updates, rest);
        lemma_one_change_per_path(updates, paths.last());
        assert forall|a: int, b: int| 0 <= a < b < rest.len() implies lex_lt(
            #[trigger] rest[a],
            #[trigger] rest[b],
        ) by {
            assert(lex_lt(paths[a], paths[b]));
        }
        if j < before.len() {
            lemma_account_changes_go_up(updates, rest, i, j);
            assert(all[i] == before[i] && all[j] == before[j]);
        } else {
            assert(all[j] == account_writes(updates, paths.last())[j - before.len()]);
            assert(all[i] == before[i]);
            assert(before.contains(before[i]));
            lemma_account_change(updates, rest, before[i]);
            let k = choose|k: int|
                0 <= k < rest.len() && account_writes(updates, #[trigger] rest[k]).contains(
                    before[i],
                );
            lemma_one_change_per_path(updates, rest[k]);
            let m = choose|m: int|
                0 <= m < account_writes(updates, rest[k]).len() && account_writes(
                    updates,
                    rest[k],
                )[m] == before[i];
            assert(at_path(account_writes(updates, rest[k])[m], rest[k]));
            assert(lex_lt(paths[k], paths[paths.len() - 1]));
        }
    }
}

/// The changes for updates are: a write for every account node but one at the root; a removal for
/// every removed path of the account trie that no node is written at; and every storage trie, with
/// its account. There are no others.
pub proof fn lemma_changes_are_the_updates(
    updates: TrieUpdates,
    writes: Seq<TableWriteView>,
    path: Seq<u8>,
    node: BranchView,
    account: B256,
    trie: StorageTrieUpdates,
)
    requires
        are_writes(updates, writes),
    ensures
        writes.contains(TableWriteView::Upsert(path, node)) <==> path.len() > 0
            && updates.account_nodes@.contains_key(path) && updates.account_nodes@[path]@ == node,
        writes.contains(TableWriteView::Delete(path)) <==> updates.removed_nodes@.contains_key(path)
            && !updates.account_nodes@.contains_key(path),
        writes.contains(TableWriteView::Storage(account, trie))
            <==> updates.storage_tries@.contains_key(account) && updates.storage_tries@[account]
            == trie,
{
    let (paths, accounts) = choose|paths: Seq<Seq<u8>>, accounts: Seq<B256>| #[trigger]
        are_writes_in(updates, writes, paths, accounts);
    let (first, second) = (
        all_account_writes(updates, paths),
        all_storage_writes(updates, accounts),
    );
    assert(touched(updates).contains_key(path) <==> paths.contains(path)) by {
        if paths.contains(path) {
            let i = choose|i: int| 0 <= i < paths.len() && paths[i] == path;
            assert(touched(updates).contains_key(paths[i]));
        }
    }
    assert(updates.storage_tries@.contains_key(account) <==> accounts.contains(account)) by {
        if accounts.contains(account) {
            let i = choose|i: int| 0 <= i < accounts.len() && accounts[i] == account;
            assert(updates.storage_tries@.contains_key(accounts[i]));
        }
    }
    lemma_found_in_either(first, second, TableWriteView::Upsert(path, node));
    lemma_found_in_either(first, second, TableWriteView::Delete(path));
    lemma_found_in_either(first, second, TableWriteView::Storage(account, trie));
    lemma_account_change(updates, paths, TableWriteView::Upsert(path, node));
    lemma_account_change(updates, paths, TableWriteView::Delete(path));
    lemma_account_change(updates, paths, TableWriteView::Storage(account, trie));
    assert forall|i: int, w: TableWriteView|
        0 <= i < paths.len() && #[trigger] account_writes(updates, paths[i]).contains(
            w,
        ) implies at_path(w, paths[i]) by {
        lemma_one_change_per_path(updates, paths[i]);
        let all = account_writes(updates, paths[i]);
        let m = choose|m: int| 0 <= m < all.len() && all[m] == w;
        assert(at_path(all[m], paths[i]));
    }
    let here = account_writes(updates, path);
    if paths.contains(path) {
        let i = choose|i: int| 0 <= i < paths.len() && paths[i] == path;
        if here.len() > 0 {
            assert(here.contains(here[0]));
            assert(account_writes(updates, paths[i]).contains(here[0]));
        }
    }
    if accounts.contains(account) {
        let i = choose|i: int| 0 <= i < accounts.len() && accounts[i] == account;
        assert(second[i] == TableWriteView::Storage(account, updates.storage_tries@[account]));
        assert(second.contains(second[i]));
    }
    if second.contains(TableWriteView::Storage(account, trie)) {
        let i = choose|i: int|
            0 <= i < second.len() && second[i] == TableWriteView::Storage(account, trie);
        assert(accounts[i] == account);
        assert(accounts.contains(account));
    }
}

proof fn lemma_found_in_either(
    first: Seq<TableWriteView>,
    second: Seq<TableWriteView>,
    write: TableWriteView,
)
    ensures
        (first + second).contains(write) <==> first.contains(write) || second.contains(write),
{
    let all = first + second;
    if all.contains(write) {
        let i = choose|i: int| 0 <= i < all.len() && all[i] == write;
        if i < first.len() {
            assert(first[i] == write);
        } else {
            assert(second[i - first.len()] == write);
        }
    }
    if first.contains(write) {
        let i = choose|i: int| 0 <= i < first.len() && first[i] == write;
        assert(all[i] == write);
    }
    if second.contains(write) {
        let i = choose|i: int| 0 <= i < second.len() && second[i] == write;
        assert(all[first.len() + i] == write);
    }
}

/// The changes come in order: those of the account trie first, by path, then the storage tries, by
/// account. So no path and no account comes twice.
pub proof fn lemma_changes_come_in_order(
    updates: TrieUpdates,
    writes: Seq<TableWriteView>,
    i: int,
    j: int,
)
    requires
        are_writes(updates, writes),
        0 <= i < j < writes.len(),
    ensures
        writes[i] is Storage ==> writes[j] is Storage,
        writes[j] !is Storage ==> exists|p: Seq<u8>, q: Seq<u8>|
            #![trigger lex_lt(p, q)]
            at_path(writes[i], p) && at_path(writes[j], q) && lex_lt(p, q),
        writes[i] matches TableWriteView::Storage(a, _) ==> (writes[j] matches TableWriteView::Storage(
            b,
            _,
        ) ==> be_value(a.0@) < be_value(b.0@)),
{
    let (paths, accounts) = choose|paths: Seq<Seq<u8>>, accounts: Seq<B256>| #[trigger]
        are_writes_in(updates, writes, paths, accounts);
    let (first, second) = (
        all_account_writes(updates, paths),
        all_storage_writes(updates, accounts),
    );
    let n = first.len() as int;
    assert forall|k: int| 0 <= k < n implies (#[trigger] first[k]) !is Storage by {
        assert(first.contains(first[k]));
        lemma_account_change(updates, paths, first[k]);
        let m = choose|m: int|
            0 <= m < paths.len() && account_writes(updates, #[trigger] paths[m]).contains(first[k]);
        lemma_one_change_per_path(updates, paths[m]);
    }
    assert forall|k: int| n <= k < writes.len() implies #[trigger] writes[k]
        == TableWriteView::Storage(accounts[k - n], updates.storage_tries@[accounts[k - n]]) by {
        assert(writes[k] == second[k - n]);
    }
    if i >= n {
        assert(<B256 as OrderedKey>::before(accounts[i - n], accounts[j - n]));
        lemma_lex_is_value_order(accounts[i - n].0@, accounts[j - n].0@);
    }
    if j < n {
        assert forall|a: int, b: int| 0 <= a < b < paths.len() implies lex_lt(
            #[trigger] paths[a],
            #[trigger] paths[b],
        ) by {
            assert(<Nibbles as OrderedKey>::before(paths[a], paths[b]));
        }
        lemma_account_changes_go_up(updates, paths, i, j);
        assert(writes[i] == first[i] && writes[j] == first[j]);
    }
}

} // verus!
