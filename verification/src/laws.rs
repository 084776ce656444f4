//! What holds of the library as a whole.

use crate::builder::part;
use crate::bytes::lemma_lex_irreflexive;
use crate::counts::{lemma_updates_are_counted, storage_node_count};
use crate::cursor::{ascending, StateView};
use crate::digest::{is_digest, lemma_same_nodes_same_digest, one_machine, Digest, NodeDigest};
use crate::generate::{is_generated, partition_of, state_leaves, state_nodes, state_root, Generated};
use crate::memory::{
    is_sorted_state, lemma_represents_len, lemma_represents_unique, represents, slots_in,
};
use crate::nibbles::unpacked;
use crate::node::{BranchNodeCompact, BranchView};
use crate::ordered::lists_keys;
use crate::partition::{has_row, storages_nodes, subtrie_nodes};
use crate::primitives::{lemma_same_array, Account, B256, U256};
use crate::rlp::empty_root;
use crate::sink::{
    lemma_lists_same, lemma_same_entries, lists_all, received, takes, Entry, NodeSet, OnNode,
};
use crate::storage::{slot_leaves, storage_nodes, storage_root};
use crate::synth::{synthesized, SynthConfig};
use crate::tables::{rows_of, table_rows, HashedRow};
use crate::updates::{is_without_empty_tries, StorageTrieUpdates, TrieUpdates};
use vstd::prelude::*;

verus! {

/// Partitioning cannot be observed: whatever two runs over the same state were configured to do,
/// they end with the same root and number of accounts, and emit the same nodes, in whatever order.
pub proof fn lemma_partitioning_is_invisible(
    state: StateView,
    a: Generated,
    b: Generated,
    x: Seq<Entry>,
    y: Seq<Entry>,
)
    requires
        is_generated(state, a),
        is_generated(state, b),
        lists_all(x, state_nodes(state)),
        lists_all(y, state_nodes(state)),
    ensures
        a == b,
        x.to_multiset() == y.to_multiset(),
{
    lemma_same_array(a.root.0, b.root.0);
    lemma_same_entries(x, y, state_nodes(state));
}

/// A fresh sink holds what a run hands it: once a sink that had received nothing has taken the nodes
/// of a run, what it lists are those nodes and no others.
pub proof fn lemma_fresh_sink_holds_the_nodes<S: OnNode>(
    before: S,
    after: S,
    nodes: NodeSet,
    collected: NodeSet,
)
    requires
        before.log() == Seq::<Entry>::empty(),
        takes(before, after, nodes),
        lists_all(after.log(), collected),
    ensures
        collected == nodes,
{
    assert(received(before, after) =~= after.log());
    lemma_lists_same(after.log(), collected, nodes);
}

/// Parity of digests: on one machine, the digest that a run folds node by node is the digest of the
/// updates that another run over the same state collects.
pub proof fn lemma_run_digest_is_updates_digest(
    state: StateView,
    before: NodeDigest,
    after: NodeDigest,
    run: Digest,
    updates: TrieUpdates,
    list: Seq<Entry>,
    collected: Digest,
)
    requires
        one_machine(),
        before.log() == Seq::<Entry>::empty(),
        takes(before, after, state_nodes(state)),
        is_digest(run, after.log()),
        updates.nodes() == state_nodes(state),
        lists_all(list, updates.nodes()),
        is_digest(collected, list),
    ensures
        run == collected,
{
    assert(received(before, after) =~= after.log());
    lemma_same_nodes_same_digest(run, collected, after.log(), list, state_nodes(state));
}

/// The tables hold what a run wrote: on one machine, if the scanned rows are the nodes of a state,
/// the tables have the digest of a run over that state, and one row per node.
pub proof fn lemma_tables_have_the_digest_of_a_run(
    state: StateView,
    scanned: Seq<Entry>,
    tables: Digest,
    list: Seq<Entry>,
    run: Digest,
)
    requires
        one_machine(),
        lists_all(scanned, state_nodes(state)),
        is_digest(tables, scanned),
        lists_all(list, state_nodes(state)),
        is_digest(run, list),
    ensures
        tables == run,
        scanned.len() == list.len(),
{
    lemma_same_nodes_same_digest(tables, run, scanned, list, state_nodes(state));
    lemma_same_entries(scanned, list, state_nodes(state));
    vstd::seq_lib::to_multiset_len(scanned);
    vstd::seq_lib::to_multiset_len(list);
}

/// Root nodes are never stored, neither that of the state trie nor that of a storage trie, and no
/// stored node has a root hash.
pub proof fn lemma_root_nodes_are_never_stored(state: StateView, k: (Option<B256>, Seq<u8>))
    requires
        state_nodes(state).contains_key(k),
    ensures
        k.1.len() > 0,
        state_nodes(state)[k].root_hash is None,
{
}

/// A state without accounts has the root of an empty trie and no nodes, whatever slots it holds.
pub proof fn lemma_empty_state(state: StateView)
    requires
        state.accounts.len() == 0,
    ensures
        state_root(state) == empty_root(),
        state_nodes(state) == Map::<(Option<B256>, Seq<u8>), BranchView>::empty(),
{
    let leaves = state_leaves(state);
    assert forall|k: (Option<B256>, Seq<u8>)| !state_nodes(state).contains_key(k) by {
        if k.0 is None && k.1.len() > 0 {
            assert(part(leaves, k.1[0]).len() == 0);
        }
    }
    assert(state_nodes(state) =~= Map::empty());
}

/// Whether a slot holds a value.
pub open spec fn is_set(row: (B256, U256)) -> bool {
    row.1.value() != 0
}

/// Zero-valued slots do not count: a storage has the root and the nodes of its other slots.
pub proof fn lemma_zero_slots_do_not_count(hashed_address: B256, rows: Seq<(B256, U256)>)
    ensures
        storage_root(rows) == storage_root(rows.filter(|row: (B256, U256)| is_set(row))),
        storage_nodes(hashed_address, rows) == storage_nodes(
            hashed_address,
            rows.filter(|row: (B256, U256)| is_set(row)),
        ),
{
    lemma_leaves_of_set_slots(rows);
}

proof fn lemma_leaves_of_set_slots(rows: Seq<(B256, U256)>)
    ensures
        slot_leaves(rows) == slot_leaves(rows.filter(|row: (B256, U256)| is_set(row))),
    decreases rows.len(),
{
    reveal(Seq::filter);
    let set = |row: (B256, U256)| is_set(row);
    if rows.len() > 0 {
        lemma_leaves_of_set_slots(rows.drop_last());
        let kept = rows.drop_last().filter(set);
        if is_set(rows.last()) {
            assert(kept.push(rows.last()).drop_last() =~= kept);
        }
    }
}

/// A storage without values has the root of an empty trie and no nodes.
pub proof fn lemma_empty_storage(hashed_address: B256, rows: Seq<(B256, U256)>)
    requires
        forall|i: int| 0 <= i < rows.len() ==> !is_set(#[trigger] rows[i]),
    ensures
        storage_root(rows) == empty_root(),
        storage_nodes(hashed_address, rows) == Map::<
            (Option<B256>, Seq<u8>),
            BranchView,
        >::empty(),
    decreases rows.len(),
{
    if rows.len() > 0 {
        let rest = rows.drop_last();
        assert forall|i: int| 0 <= i < rest.len() implies !is_set(#[trigger] rest[i]) by {
            assert(rest[i] == rows[i]);
        }
        lemma_empty_storage(hashed_address, rest);
        assert(!is_set(rows[rows.len() - 1]));
        assert(slot_leaves(rows) == slot_leaves(rest));
    }
    assert(storage_nodes(hashed_address, rows) =~= Map::empty());
}

/// Every stored node comes out of exactly one of the 16 partitions: that of the first nibble of its
/// path, or for a storage trie, of its account.
pub proof fn lemma_one_partition_per_node(state: StateView, k: (Option<B256>, Seq<u8>), n: u8)
    requires
        state_nodes(state).contains_key(k),
        n < 16,
    ensures
        subtrie_nodes(state, seq![n]).contains_key(k) <==> partition_of(k) == n,
        partition_of(k) == n ==> subtrie_nodes(state, seq![n])[k] == state_nodes(state)[k],
{
    let prefix = seq![n];
    match k.0 {
        None => {
            assert(k.1.take(1) =~= seq![k.1[0]]);
            assert(prefix[0] == n);
            assert(seq![k.1[0]][0] == k.1[0]);
            assert(!storages_nodes(state, state.accounts, prefix).contains_key(k));
        },
        Some(a) => {
            let u = unpacked(a.bytes());
            assert(u.take(1) =~= seq![u[0]]);
            assert(prefix[0] == n);
            assert(seq![u[0]][0] == u[0]);
            assert(u.take(0) =~= Seq::empty());
        },
    }
}

/// The outcome depends on the accounts and slots alone: the sorted rows of a state are determined,
/// and with them the root and the nodes.
pub proof fn lemma_outcome_depends_on_state(
    v: StateView,
    w: StateView,
    accounts: Map<B256, Account>,
    storages: Map<B256, Map<B256, U256>>,
)
    requires
        is_sorted_state(v, accounts, storages),
        is_sorted_state(w, accounts, storages),
    ensures
        v == w,
        state_root(v) == state_root(w),
        state_nodes(v) == state_nodes(w),
{
    lemma_represents_unique(v.accounts, w.accounts, accounts);
    assert forall|a: B256| #[trigger] v.slots(a) == w.slots(a) by {
        lemma_represents_unique(v.slots(a), w.slots(a), slots_in(storages, a));
    }
    let (p, q) = (v.storages, w.storages);
    assert forall|a: B256|
        #![trigger p.dom().contains(a)]
        #![trigger q.dom().contains(a)]
        #![trigger p[a]]
        p.dom().contains(a) == q.dom().contains(a) && (p.dom().contains(a) ==> p[a] == q[a]) by {
        assert(v.storages.contains_key(a) == w.storages.contains_key(a));
        assert(v.slots(a) == w.slots(a));
    }
    assert(p =~= q);
}

/// Slots of addresses without an account do not count: two states with the same accounts, and the
/// same slots of these accounts, have the same root and the same nodes.
pub proof fn lemma_slots_without_account_do_not_count(v: StateView, w: StateView)
    requires
        v.accounts == w.accounts,
        forall|i: int|
            0 <= i < v.accounts.len() ==> v.slots((#[trigger] v.accounts[i]).0) == w.slots(
                v.accounts[i].0,
            ),
    ensures
        state_root(v) == state_root(w),
        state_nodes(v) == state_nodes(w),
{
    assert(state_leaves(v) =~= state_leaves(w));
    let none: Seq<u8> = Seq::empty();
    let (x, y) = (
        storages_nodes(v, v.accounts, none),
        storages_nodes(w, w.accounts, none),
    );
    assert forall|k: (Option<B256>, Seq<u8>)|
        #![trigger x.dom().contains(k)]
        #![trigger y.dom().contains(k)]
        #![trigger x[k]]
        x.dom().contains(k) == y.dom().contains(k) && (x.dom().contains(k) ==> x[k] == y[k]) by {
        if k.0 is Some && has_row(v.accounts, k.0->0) {
            let i = choose|i: int| 0 <= i < v.accounts.len() && (#[trigger] v.accounts[i]).0
                == k.0->0;
            assert(v.slots(v.accounts[i].0) == w.slots(v.accounts[i].0));
        }
    }
    assert(x =~= y);
    assert(state_nodes(v) =~= state_nodes(w));
}

/// Collecting in shards cannot be observed: updates that collect the same nodes, and nothing else,
/// hold the same nodes and have storage tries for the same accounts.
pub proof fn lemma_sharding_is_invisible(list: Seq<Entry>, a: TrieUpdates, b: TrieUpdates)
    requires
        a.only_writes(),
        b.only_writes(),
        lists_all(list, a.nodes()),
        lists_all(list, b.nodes()),
    ensures
        a.nodes() == b.nodes(),
        forall|x: B256| #[trigger]
            a.storage_tries@.contains_key(x) <==> b.storage_tries@.contains_key(x),
{
    lemma_lists_same(list, a.nodes(), b.nodes());
    assert forall|x: B256| #[trigger] a.storage_tries@.contains_key(
        x,
    ) == b.storage_tries@.contains_key(x) by {
        lemma_has_trie(a, x);
        lemma_has_trie(b, x);
    }
}

/// Without removals, an account has a storage trie exactly if it has a node.
proof fn lemma_has_trie(updates: TrieUpdates, x: B256)
    requires
        updates.only_writes(),
    ensures
        updates.storage_tries@.contains_key(x) <==> exists|p: Seq<u8>| #[trigger]
            updates.nodes().contains_key((Some(x), p)),
{
    if updates.storage_tries@.contains_key(x) {
        let nodes = updates.storage_tries@[x].storage_nodes@;
        if forall|p: Seq<u8>| !nodes.contains_key(p) {
            assert(nodes =~= Map::<Seq<u8>, BranchNodeCompact>::empty());
        }
        let p = choose|p: Seq<u8>| nodes.contains_key(p);
        assert(updates.nodes().contains_key((Some(x), p)));
    }
}

/// Equal configurations give equal states.
pub proof fn lemma_equal_configs_equal_states(a: SynthConfig, b: SynthConfig)
    requires
        a.seed == b.seed,
        a.eoas == b.eoas,
        a.small_contracts == b.small_contracts,
        a.small_slots_max == b.small_slots_max,
        a.large_contracts@ == b.large_contracts@,
    ensures
        synthesized(a) == synthesized(b),
{
}

/// Removed nodes do not count: updates that write the same nodes have the same digest on one
/// machine, whatever they remove, and it counts the account nodes and the storage nodes.
pub proof fn lemma_removed_nodes_do_not_count(
    u: TrieUpdates,
    v: TrieUpdates,
    accounts: Seq<B256>,
    x: Seq<Entry>,
    y: Seq<Entry>,
    a: Digest,
    b: Digest,
)
    requires
        u.account_nodes@ == v.account_nodes@,
        u.storage_tries@.dom() == v.storage_tries@.dom(),
        forall|k: B256| #[trigger]
            u.storage_tries@.contains_key(k) ==> u.storage_tries@[k].storage_nodes@
                == v.storage_tries@[k].storage_nodes@,
        lists_keys::<B256, StorageTrieUpdates>(accounts, u.storage_tries@),
        lists_all(x, u.nodes()),
        lists_all(y, v.nodes()),
        is_digest(a, x),
        is_digest(b, y),
    ensures
        u.nodes() == v.nodes(),
        one_machine() ==> a == b,
        a.count == (u.account_nodes@.len() + storage_node_count(u, accounts))
            % 0x1_0000_0000_0000_0000,
{
    let (p, q) = (u.nodes(), v.nodes());
    assert forall|k: (Option<B256>, Seq<u8>)|
        #![trigger p.dom().contains(k)]
        #![trigger q.dom().contains(k)]
        #![trigger p[k]]
        p.dom().contains(k) == q.dom().contains(k) && (p.dom().contains(k) ==> p[k] == q[k]) by {
        if k.0 is Some {
            assert(u.storage_tries@.dom().contains(k.0->0) == v.storage_tries@.dom().contains(
                k.0->0,
            ));
            if u.storage_tries@.contains_key(k.0->0) {}
        }
    }
    assert(p =~= q);
    lemma_updates_are_counted(u, x, accounts);
    if one_machine() {
        lemma_same_nodes_same_digest(a, b, x, y, p);
    }
}

/// Every account is counted: a run over the sorted rows of a state reports as many accounts as the
/// state has.
pub proof fn lemma_every_account_is_counted(
    view: StateView,
    accounts: Map<B256, Account>,
    storages: Map<B256, Map<B256, U256>>,
    generated: Generated,
)
    requires
        is_sorted_state(view, accounts, storages),
        is_generated(view, generated),
    ensures
        generated.accounts == accounts.len(),
{
    lemma_represents_len(view.accounts, accounts);
}

/// Whether a row of the hashed state tables belongs to a state: an account, or a slot of an address
/// with an account.
pub open spec fn belongs(
    row: HashedRow,
    accounts: Map<B256, Account>,
    storages: Map<B256, Map<B256, U256>>,
) -> bool {
    match row {
        HashedRow::Account(a, account) => accounts.contains_key(a) && accounts[a] == account,
        HashedRow::Storage(a, slot, value) => {
            &&& accounts.contains_key(a)
            &&& slots_in(storages, a).contains_key(slot)
            &&& slots_in(storages, a)[slot] == value
        },
    }
}

/// The hashed state tables hold the state: the rows that are written are exactly its accounts and
/// the slots of addresses with an account, each once.
pub proof fn lemma_hashed_rows_are_the_state(
    view: StateView,
    accounts: Map<B256, Account>,
    storages: Map<B256, Map<B256, U256>>,
)
    requires
        is_sorted_state(view, accounts, storages),
    ensures
        forall|row: HashedRow| #[trigger]
            table_rows(view, view.accounts).contains(row) <==> belongs(row, accounts, storages),
        table_rows(view, view.accounts).no_duplicates(),
{
    let rows = view.accounts;
    assert forall|row: HashedRow| #[trigger] table_rows(view, rows).contains(row) <==> belongs(
        row,
        accounts,
        storages,
    ) by {
        lemma_row_source(view, rows, row);
        if table_rows(view, rows).contains(row) {
            let i = choose|i: int|
                0 <= i < rows.len() && #[trigger] rows_at(view, rows, i).contains(row);
            let slots = view.slots(rows[i].0);
            assert(represents(slots, slots_in(storages, rows[i].0)));
            let j = choose|j: int|
                0 <= j < rows_at(view, rows, i).len() && rows_at(view, rows, i)[j] == row;
            assert(accounts.contains_key(rows[i].0));
            if j > 0 {
                assert(slots_in(storages, rows[i].0).contains_key(slots[j - 1].0));
            }
        }
        if belongs(row, accounts, storages) {
            let a = address_of(row);
            assert(has_row(rows, a));
            let i = choose|i: int| 0 <= i < rows.len() && (#[trigger] rows[i]).0 == a;
            let slots = view.slots(a);
            assert(represents(slots, slots_in(storages, a)));
            match row {
                HashedRow::Account(_, _) => {
                    assert(rows_at(view, rows, i)[0] == row);
                },
                HashedRow::Storage(_, slot, _) => {
                    assert(has_row(slots, slot));
                    let j = choose|j: int| 0 <= j < slots.len() && (#[trigger] slots[j]).0 == slot;
                    assert(rows_at(view, rows, i)[j + 1] == row);
                },
            }
            assert(rows_at(view, rows, i).contains(row));
        }
    }
    assert forall|a: B256| ascending(#[trigger] view.slots(a)) by {
        assert(represents(view.slots(a), slots_in(storages, a)));
    }
    lemma_table_rows_differ(view, rows);
}

/// The address that a row is about.
spec fn address_of(row: HashedRow) -> B256 {
    match row {
        HashedRow::Account(a, _) => a,
        HashedRow::Storage(a, _, _) => a,
    }
}

/// The rows of the account `i`.
spec fn rows_at(view: StateView, rows: Seq<(B256, Account)>, i: int) -> Seq<HashedRow> {
    rows_of(rows[i], view.slots(rows[i].0))
}

proof fn lemma_row_source(view: StateView, rows: Seq<(B256, Account)>, row: HashedRow)
    ensures
        table_rows(view, rows).contains(row) <==> exists|i: int|
            0 <= i < rows.len() && #[trigger] rows_at(view, rows, i).contains(row),
    decreases rows.len(),
{
    let all = table_rows(view, rows);
    if rows.len() > 0 {
        let rest = rows.drop_last();
        let last = rows.len() - 1;
        let (before, block) = (table_rows(view, rest), rows_at(view, rows, last));
        lemma_row_source(view, rest, row);
        assert(all == before + block);
        assert(all.contains(row) <==> before.contains(row) || block.contains(row)) by {
            if all.contains(row) {
                let j = choose|j: int| 0 <= j < all.len() && all[j] == row;
                if j < before.len() {
                    assert(before[j] == row);
                } else {
                    assert(block[j - before.len()] == row);
                }
            }
            if before.contains(row) {
                let j = choose|j: int| 0 <= j < before.len() && before[j] == row;
                assert(all[j] == row);
            }
            if block.contains(row) {
                let j = choose|j: int| 0 <= j < block.len() && block[j] == row;
                assert(all[before.len() + j] == row);
            }
        }
        assert forall|i: int| 0 <= i < last implies #[trigger] rows_at(view, rest, i) == rows_at(
            view,
            rows,
            i,
        ) by {}
        if before.contains(row) {
            let i = choose|i: int|
                0 <= i < rest.len() && #[trigger] rows_at(view, rest, i).contains(row);
            assert(rows_at(view, rows, i).contains(row));
        }
        if exists|i: int| 0 <= i < rows.len() && #[trigger] rows_at(view, rows, i).contains(row) {
            let i = choose|i: int|
                0 <= i < rows.len() && #[trigger] rows_at(view, rows, i).contains(row);
            if i < last {
                assert(rows_at(view, rest, i).contains(row));
            }
        }
    }
}

proof fn lemma_table_rows_differ(view: StateView, rows: Seq<(B256, Account)>)
    requires
        ascending(rows),
        forall|a: B256| ascending(#[trigger] view.slots(a)),
    ensures
        table_rows(view, rows).no_duplicates(),
    decreases rows.len(),
{
    let all = table_rows(view, rows);
    if rows.len() > 0 {
        let rest = rows.drop_last();
        let last = rows.len() - 1;
        let (before, block) = (table_rows(view, rest), rows_at(view, rows, last));
        let slots = view.slots(rows[last].0);
        assert(ascending(slots));
        assert(ascending(rest)) by {
            assert forall|i: int, j: int| 0 <= i < j < rest.len() implies (
            #[trigger] rest[i]).0.before((#[trigger] rest[j]).0) by {
                assert(rows[i].0.before(rows[j].0));
            }
        }
        lemma_table_rows_differ(view, rest);
        assert forall|i: int, j: int| 0 <= i < j < block.len() implies block[i] != block[j] by {
            if i > 0 {
                assert(slots[i - 1].0.before(slots[j - 1].0));
                lemma_lex_irreflexive(slots[i - 1].0.bytes());
            }
        }
        assert forall|i: int, j: int| 0 <= i < before.len() && 0 <= j < block.len() implies before[i]
            != block[j] by {
            lemma_row_source(view, rest, before[i]);
            assert(before.contains(before[i]));
            let m = choose|m: int|
                0 <= m < rest.len() && #[trigger] rows_at(view, rest, m).contains(before[i]);
            let k = choose|k: int|
                0 <= k < rows_at(view, rest, m).len() && rows_at(view, rest, m)[k] == before[i];
            assert(address_of(before[i]) == rest[m].0);
            assert(address_of(block[j]) == rows[last].0);
            assert(rows[m].0.before(rows[last].0));
            lemma_lex_irreflexive(rows[last].0.bytes());
        }
        assert(all == before + block);
        assert forall|i: int, j: int| 0 <= i < all.len() && 0 <= j < all.len() && i
            != j implies all[i] != all[j] by {
            let n = before.len() as int;
            if i < n && j < n {
                assert(before[i] != before[j]);
            } else if i >= n && j >= n {
                if i < j {
                    assert(block[i - n] != block[j - n]);
                } else {
                    assert(block[j - n] != block[i - n]);
                }
            } else if i < n {
                assert(before[i] != block[j - n]);
            } else {
                assert(before[j] != block[i - n]);
            }
        }
    }
}

/// Empty storage tries do not count: dropping them keeps the nodes, and on one machine the digest,
/// and dropping them once more changes nothing.
pub proof fn lemma_empty_tries_do_not_count(
    updates: TrieUpdates,
    r: TrieUpdates,
    again: TrieUpdates,
    x: Seq<Entry>,
    y: Seq<Entry>,
    a: Digest,
    b: Digest,
)
    requires
        is_without_empty_tries(updates, r),
        is_without_empty_tries(r, again),
        lists_all(x, updates.nodes()),
        lists_all(y, r.nodes()),
        is_digest(a, x),
        is_digest(b, y),
    ensures
        r.nodes() == updates.nodes(),
        one_machine() ==> a == b,
        again.account_nodes == r.account_nodes,
        again.removed_nodes == r.removed_nodes,
        again.storage_tries@ == r.storage_tries@,
{
    let (p, q) = (r.nodes(), updates.nodes());
    assert forall|k: (Option<B256>, Seq<u8>)|
        #![trigger p.dom().contains(k)]
        #![trigger q.dom().contains(k)]
        #![trigger p[k]]
        p.dom().contains(k) == q.dom().contains(k) && (p.dom().contains(k) ==> p[k] == q[k]) by {
        if k.0 is Some {
            let c = k.0->0;
            assert(r.storage_tries@.contains_key(c) ==> r.storage_tries@[c]
                == updates.storage_tries@[c]);
            if updates.storage_tries@.contains_key(c)
                && updates.storage_tries@[c].storage_nodes@.contains_key(k.1) {
                assert(updates.storage_tries@[c].storage_nodes@ != Map::<
                    Seq<u8>,
                    BranchNodeCompact,
                >::empty());
            }
        }
    }
    assert(p =~= q);
    assert forall|c: B256| #[trigger] r.storage_tries@.contains_key(
        c,
    ) implies again.storage_tries@.contains_key(c) by {
        assert(r.storage_tries@[c] == updates.storage_tries@[c]);
    }
    assert(again.storage_tries@ =~= r.storage_tries@);
    if one_machine() {
        lemma_same_nodes_same_digest(a, b, x, y, q);
    }
}

} // verus!
