//! What is read from and written to the tables of a database.

use crate::bytes::differ_at;
use crate::cursor::StateView;
use crate::digest::{is_digest, Digest, NodeDigest};
use crate::memory::HashedPostStateSorted;
use crate::nibbles::Nibbles;
use crate::node::{BranchNodeCompact, BranchView};
use crate::ordered::{lists_keys, models, OrderedKey};
use crate::primitives::{Account, B256, U256};
use crate::sink::{Entry, NodeSet, OnNode};
use crate::updates::{StorageTrieUpdates, TrieUpdates};
use vstd::prelude::*;

verus! {

/// A row of the hashed state tables.
#[derive(Clone, Copy, Debug, PartialEq, Eq)]
pub enum HashedRow {
    /// An account by its hashed address.
    Account(B256, Account),
    /// A slot of an account: hashed address, hashed slot, value.
    Storage(B256, B256, U256),
}

/// The rows of one account: its own, then those of its slots.
pub open spec fn rows_of(row: (B256, Account), slots: Seq<(B256, U256)>) -> Seq<HashedRow> {
    seq![HashedRow::Account(row.0, row.1)] + Seq::new(
        slots.len(),
        |i: int| HashedRow::Storage(row.0, slots[i].0, slots[i].1),
    )
}

/// The rows of the given accounts of a state.
pub open spec fn table_rows(state: StateView, accounts: Seq<(B256, Account)>) -> Seq<HashedRow>
    decreases accounts.len(),
{
    if accounts.len() == 0 {
        Seq::empty()
    } else {
        table_rows(state, accounts.drop_last()) + rows_of(
            accounts.last(),
            state.slots(accounts.last().0),
        )
    }
}

/// The rows of the hashed state tables for a state, in the order the hashing stages would write
/// them.
pub fn hashed_rows(state: &HashedPostStateSorted) -> (r: Vec<HashedRow>)
    ensures
        r@ == table_rows(state@, state@.accounts),
{
    let accounts = state.account_rows();
    let mut out: Vec<HashedRow> = Vec::new();
    let mut i: usize = 0;
    assert(accounts@.take(0) =~= Seq::empty());
    while i < accounts.len()
        invariant
            i <= accounts@.len(),
            accounts@ == state@.accounts,
            out@ == table_rows(state@, accounts@.take(i as int)),
        decreases accounts@.len() - i,
    {
        let (hashed_address, account) = accounts[i];
        let ghost before = out@;
        out.push(HashedRow::Account(hashed_address, account));
        let slots = state.slot_rows(&hashed_address);
        let mut j: usize = 0;
        while j < slots.len()
            invariant
                j <= slots@.len(),
                out@ =~= before + seq![HashedRow::Account(hashed_address, account)] + Seq::new(
                    j as nat,
                    |k: int| HashedRow::Storage(hashed_address, slots@[k].0, slots@[k].1),
                ),
            decreases slots@.len() - j,
        {
            let (slot, value) = slots[j];
            out.push(HashedRow::Storage(hashed_address, slot, value));
            j = j + 1;
        }
        proof {
            let more = accounts@.take(i + 1);
            assert(more.drop_last() =~= accounts@.take(i as int));
            assert(out@ =~= before + rows_of(accounts@[i as int], slots@));
        }
        i = i + 1;
    }
    assert(accounts@.take(accounts@.len() as int) =~= accounts@);
    out
}

/// The settings that a database records about its storage.
#[derive(Clone, Copy, Debug, PartialEq, Eq)]
pub struct StorageSettings {
    /// Whether the second storage layout is in use.
    pub storage_v2: bool,
}

impl StorageSettings {
    /// The second storage layout.
    pub fn v2() -> (r: StorageSettings)
        ensures
            r.storage_v2,
    {
        StorageSettings { storage_v2: true }
    }

    /// Whether this is the second storage layout.
    pub fn is_v2(&self) -> (r: bool)
        ensures
            r == self.storage_v2,
    {
        self.storage_v2
    }
}

/// Whether the trie tables use the packed (storage v2) key encoding, given what the database
/// records. A database without the entry, or with one that cannot be read, is a legacy one.
pub fn uses_packed_trie_keys(settings: Option<StorageSettings>) -> (r: bool)
    ensures
        r <==> settings == Some(StorageSettings { storage_v2: true }),
{
    match settings {
        Some(settings) => settings.is_v2(),
        None => false,
    }
}

/// Whether `key` lies between the bounds, both included.
pub open spec fn in_range(key: B256, low: B256, high: B256) -> bool {
    !key.before(low) && !high.before(key)
}

/// The first and the last key that start with a nibble.
pub fn nibble_range(nibble: u8) -> (r: (B256, B256))
    requires
        nibble < 16,
    ensures
        r.0.bytes() == Seq::new(
            32,
            |i: int|
                if i == 0 {
                    (16 * nibble) as u8
                } else {
                    0u8
                },
        ),
        r.1.bytes() == Seq::new(
            32,
            |i: int|
                if i == 0 {
                    (16 * nibble + 15) as u8
                } else {
                    0xffu8
                },
        ),
        forall|key: B256| #[trigger] in_range(key, r.0, r.1) <==> key.bytes()[0] / 16 == nibble,
{
    let first = [16 * nibble];
    let low = B256::right_padding_from(first.as_slice());
    let mut high = B256::repeat_byte(0xff);
    high.0[0] = 16 * nibble + 15;
    assert(low.bytes() =~= Seq::new(
        32,
        |i: int|
            if i == 0 {
                (16 * nibble) as u8
            } else {
                0u8
            },
    ));
    assert(high.bytes() =~= Seq::new(
        32,
        |i: int|
            if i == 0 {
                (16 * nibble + 15) as u8
            } else {
                0xffu8
            },
    ));
    proof {
        assert forall|key: B256| #[trigger] in_range(key, low, high) <==> key.bytes()[0] / 16
            == nibble by {
            lemma_in_range(key, low, high, nibble);
        }
    }
    (low, high)
}

proof fn lemma_in_range(key: B256, low: B256, high: B256, nibble: u8)
    requires
        nibble < 16,
        low.bytes()[0] == 16 * nibble,
        forall|i: int| 0 < i < 32 ==> #[trigger] low.bytes()[i] == 0,
        high.bytes()[0] == 16 * nibble + 15,
        forall|i: int| 0 < i < 32 ==> #[trigger] high.bytes()[i] == 0xff,
    ensures
        in_range(key, low, high) <==> key.bytes()[0] / 16 == nibble,
{
    let (k, l, h) = (key.bytes(), low.bytes(), high.bytes());
    if k[0] / 16 == nibble {
        assert forall|d: int| !differ_at(k, l, d) by {
            if 0 < d < 32 && differ_at(k, l, d) {
                assert(l[d] == 0);
            }
        }
        assert forall|d: int| !differ_at(h, k, d) by {
            if 0 < d < 32 && differ_at(h, k, d) {
                assert(h[d] == 0xff);
            }
        }
    } else if k[0] / 16 < nibble {
        assert(k.take(0) =~= l.take(0));
        assert(differ_at(k, l, 0));
    } else {
        assert(k.take(0) =~= h.take(0));
        assert(differ_at(h, k, 0));
    }
}

/// Node counts and digest of the committed trie tables, for comparison with a generator run: after
/// a full rebuild the tables hold exactly the nodes the rebuild emitted.
#[derive(Clone, Copy, Debug, PartialEq, Eq)]
pub struct TrieTablesDigest {
    /// Nodes in the account trie table.
    pub account_nodes: u64,
    /// Nodes in the storage trie table.
    pub storage_nodes: u64,
    /// Digest over both, in the same fold a generator run reports.
    pub digest: Digest,
}

/// The number of listed nodes of the state trie.
pub open spec fn count_account_nodes(list: Seq<Entry>) -> nat
    decreases list.len(),
{
    if list.len() == 0 {
        0
    } else {
        count_account_nodes(list.drop_last()) + if list.last().0 is None {
            1nat
        } else {
            0nat
        }
    }
}

proof fn lemma_count_both(a: Seq<Entry>, b: Seq<Entry>)
    ensures
        count_account_nodes(a + b) == count_account_nodes(a) + count_account_nodes(b),
        count_account_nodes(a) <= a.len(),
    decreases b.len(), a.len(),
{
    if b.len() == 0 {
        assert(a + b =~= a);
        if a.len() > 0 {
            lemma_count_both(a.drop_last(), b);
        }
    } else {
        lemma_count_both(a, b.drop_last());
        assert((a + b).drop_last() =~= a + b.drop_last());
    }
}

/// A scan of the trie tables, or of a part of them.
pub struct TablesScan {
    digest: NodeDigest,
    account_nodes: u64,
    storage_nodes: u64,
}

impl TablesScan {
    /// The nodes scanned so far.
    pub closed spec fn scanned(&self) -> Seq<Entry> {
        self.digest.log()
    }

    #[verifier::type_invariant]
    spec fn inv(self) -> bool {
        &&& self.account_nodes == count_account_nodes(self.digest.log())
        &&& self.account_nodes + self.storage_nodes == self.digest.log().len()
    }

    /// A scan that has read nothing.
    pub fn new() -> (r: TablesScan)
        ensures
            r.scanned() == Seq::<Entry>::empty(),
    {
        TablesScan { digest: NodeDigest::default(), account_nodes: 0, storage_nodes: 0 }
    }

    /// Takes a node of the trie tables: `hashed_address` is `None` for a row of the account trie
    /// table.
    pub fn row(&mut self, hashed_address: Option<B256>, path: &Nibbles, node: &BranchNodeCompact)
        requires
            old(self).scanned().len() < u64::MAX,
        ensures
            final(self).scanned() == old(self).scanned().push((hashed_address, path@, node@)),
    {
        let mut taken = TablesScan::new();
        std::mem::swap(self, &mut taken);
        proof {
            use_type_invariant(&taken);
        }
        let TablesScan { digest, account_nodes, storage_nodes } = taken;
        let mut digest = digest;
        let ghost before = digest.log();
        digest.push(hashed_address, path, node);
        assert(digest.log().drop_last() =~= before);
        if hashed_address.is_none() {
            *self = TablesScan { digest, account_nodes: account_nodes + 1, storage_nodes };
        } else {
            *self = TablesScan { digest, account_nodes, storage_nodes: storage_nodes + 1 };
        }
    }

    /// Adds the scan of another part.
    pub fn merge(&mut self, other: TablesScan)
        requires
            old(self).scanned().len() + other.scanned().len() <= u64::MAX,
        ensures
            final(self).scanned() == old(self).scanned() + other.scanned(),
    {
        let mut taken = TablesScan::new();
        std::mem::swap(self, &mut taken);
        proof {
            use_type_invariant(&taken);
            use_type_invariant(&other);
            lemma_count_both(taken.digest.log(), other.digest.log());
        }
        let TablesScan { digest, account_nodes, storage_nodes } = taken;
        let mut digest = digest;
        digest.merge(other.digest);
        *self = TablesScan {
            digest,
            account_nodes: account_nodes + other.account_nodes,
            storage_nodes: storage_nodes + other.storage_nodes,
        };
    }

    /// The counts and the digest of what was scanned.
    pub fn finish(&self) -> (r: TrieTablesDigest)
        ensures
            r.account_nodes == count_account_nodes(self.scanned()),
            r.account_nodes + r.storage_nodes == self.scanned().len(),
            is_digest(r.digest, self.scanned()),
    {
        proof {
            use_type_invariant(self);
        }
        TrieTablesDigest {
            account_nodes: self.account_nodes,
            storage_nodes: self.storage_nodes,
            digest: self.digest.snapshot(),
        }
    }
}

/// A change of the trie tables.
#[derive(Debug)]
pub enum TableWrite {
    /// Writes an account trie node, whether or not there is one at the path.
    Upsert(Nibbles, BranchNodeCompact),
    /// Removes the account trie node at the path, if there is one.
    Delete(Nibbles),
    /// Applies the updates of the storage trie of an account.
    Storage(B256, StorageTrieUpdates),
}

/// The content of a [`TableWrite`].
pub enum TableWriteView {
    /// Writes an account trie node.
    Upsert(Seq<u8>, BranchView),
    /// Removes an account trie node.
    Delete(Seq<u8>),
    /// Applies the updates of the storage trie of an account.
    Storage(B256, StorageTrieUpdates),
}

impl View for TableWrite {
    type V = TableWriteView;

    open spec fn view(&self) -> TableWriteView {
        match *self {
            TableWrite::Upsert(path, node) => TableWriteView::Upsert(path@, node@),
            TableWrite::Delete(path) => TableWriteView::Delete(path@),
            TableWrite::Storage(a, trie) => TableWriteView::Storage(a, trie),
        }
    }
}

/// What happens to the account trie node at a path: written nodes take precedence over removed
/// ones, and a node at the empty path is never written.
pub open spec fn account_writes(updates: TrieUpdates, path: Seq<u8>) -> Seq<TableWriteView> {
    if updates.account_nodes@.contains_key(path) {
        if path.len() == 0 {
            Seq::empty()
        } else {
            seq![TableWriteView::Upsert(path, updates.account_nodes@[path]@)]
        }
    } else {
        seq![TableWriteView::Delete(path)]
    }
}

/// What happens to the account trie nodes at the given paths.
pub open spec fn all_account_writes(updates: TrieUpdates, paths: Seq<Seq<u8>>) -> Seq<
    TableWriteView,
>
    decreases paths.len(),
{
    if paths.len() == 0 {
        Seq::empty()
    } else {
        all_account_writes(updates, paths.drop_last()) + account_writes(updates, paths.last())
    }
}

/// What happens to the storage tries of the given accounts.
pub open spec fn all_storage_writes(updates: TrieUpdates, accounts: Seq<B256>) -> Seq<
    TableWriteView,
> {
    Seq::new(
        accounts.len(),
        |i: int| TableWriteView::Storage(accounts[i], updates.storage_tries@[accounts[i]]),
    )
}

/// The paths of the account trie that are written or removed.
pub open spec fn touched(updates: TrieUpdates) -> Map<Seq<u8>, ()> {
    Map::new(
        |p: Seq<u8>|
            updates.account_nodes@.contains_key(p) || updates.removed_nodes@.contains_key(p),
        |p: Seq<u8>| (),
    )
}

/// Whether `writes` are the changes for `updates`: the account trie in path order, then the storage
/// tries in the order of their accounts.
pub open spec fn are_writes(updates: TrieUpdates, writes: Seq<TableWriteView>) -> bool {
    exists|paths: Seq<Seq<u8>>, accounts: Seq<B256>| #[trigger]
        are_writes_in(updates, writes, paths, accounts)
}

/// Whether `writes` are the changes for `updates` at the given paths and accounts.
pub open spec fn are_writes_in(
    updates: TrieUpdates,
    writes: Seq<TableWriteView>,
    paths: Seq<Seq<u8>>,
    accounts: Seq<B256>,
) -> bool {
    &&& lists_keys::<Nibbles, ()>(paths, touched(updates))
    &&& lists_keys::<B256, StorageTrieUpdates>(accounts, updates.storage_tries@)
    &&& writes == all_account_writes(updates, paths) + all_storage_writes(updates, accounts)
}

/// The contents of the changes.
pub open spec fn write_views(writes: Seq<TableWrite>) -> Seq<TableWriteView> {
    Seq::new(writes.len(), |i: int| writes[i]@)
}

/// The changes of the trie tables that `updates` stand for, as the merkle stage commits them.
pub fn plan_writes(updates: TrieUpdates) -> (r: Vec<TableWrite>)
    ensures
        are_writes(updates, write_views(r@)),
{
    let ghost was = updates;
    let TrieUpdates { account_nodes, removed_nodes, storage_tries } = updates;
    let mut account_nodes = account_nodes;
    let mut storage_tries = storage_tries;
    let mut paths = removed_nodes;
    let written = account_nodes.keys();
    let ghost order = models(written@);
    let ghost removed = paths@;
    let mut i: usize = 0;
    while i < written.len()
        invariant
            i <= written@.len(),
            order == models(written@),
            forall|p: Seq<u8>| #[trigger]
                paths@.contains_key(p) <==> removed.contains_key(p) || exists|j: int|
                    0 <= j < i && #[trigger] order[j] == p,
        decreases written@.len() - i,
    {
        paths.insert(written[i].duplicate(), ());
        assert(order[i as int] == written@[i as int]@);
        i = i + 1;
    }
    proof {
        assert forall|p: Seq<u8>|
            paths@.contains_key(p) == touched(was).contains_key(p) by {
            if was.account_nodes@.contains_key(p) {
                assert(order.contains(p));
                let j = choose|j: int| 0 <= j < order.len() && order[j] == p;
                assert(order[j] == p);
            }
            if exists|j: int| 0 <= j < i && #[trigger] order[j] == p {
                let j = choose|j: int| 0 <= j < i && #[trigger] order[j] == p;
                assert(was.account_nodes@.contains_key(order[j]));
            }
        }
        assert(paths@ =~= touched(was));
    }
    let mut out: Vec<TableWrite> = Vec::new();
    let keys = paths.keys();
    let ghost places = models(keys@);
    let mut i: usize = 0;
    assert(places.take(0) =~= Seq::empty());
    assert(write_views(out@) =~= Seq::empty());
    while i < keys.len()
        invariant
            i <= keys@.len(),
            places == models(keys@),
            lists_keys::<Nibbles, ()>(places, touched(was)),
            write_views(out@) == all_account_writes(was, places.take(i as int)),
            forall|j: int|
                i <= j < places.len() ==> account_nodes@.contains_key(#[trigger] places[j])
                    == was.account_nodes@.contains_key(places[j]),
            forall|j: int|
                i <= j < places.len() && account_nodes@.contains_key(places[j]) ==> account_nodes@[
                    #[trigger] places[j]] == was.account_nodes@[places[j]],
        decreases keys@.len() - i,
    {
        let path = &keys[i];
        let ghost before = out@;
        let ghost left = account_nodes@;
        assert(places[i as int] == path@);
        match account_nodes.remove(path) {
            Some(node) => {
                if !path.is_empty() {
                    out.push(TableWrite::Upsert(path.duplicate(), node));
                }
            },
            None => {
                out.push(TableWrite::Delete(path.duplicate()));
            },
        }
        proof {
            let more = places.take(i + 1);
            assert(more.drop_last() =~= places.take(i as int));
            assert(more.last() == path@);
            assert(write_views(out@) =~= write_views(before) + account_writes(was, path@));
            assert forall|j: int| i + 1 <= j < places.len() implies account_nodes@.contains_key(
                #[trigger] places[j],
            ) == left.contains_key(places[j]) && (account_nodes@.contains_key(places[j])
                ==> account_nodes@[places[j]] == left[places[j]]) by {
                assert(<Nibbles as OrderedKey>::before(places[i as int], places[j]));
                <Nibbles as OrderedKey>::lemma_irreflexive(places[j]);
            }
        }
        i = i + 1;
    }
    assert(places.take(places.len() as int) =~= places);
    let ghost account_part = write_views(out@);
    let keys = storage_tries.keys();
    let ghost accounts = models(keys@);
    let mut i: usize = 0;
    assert(account_part =~= account_part + all_storage_writes(was, accounts.take(0)));
    while i < keys.len()
        invariant
            i <= keys@.len(),
            accounts == models(keys@),
            lists_keys::<B256, StorageTrieUpdates>(accounts, was.storage_tries@),
            write_views(out@) =~= account_part + all_storage_writes(was, accounts.take(i as int)),
            forall|j: int|
                i <= j < accounts.len() ==> storage_tries@.contains_key(#[trigger] accounts[j])
                    && storage_tries@[accounts[j]] == was.storage_tries@[accounts[j]],
        decreases keys@.len() - i,
    {
        let hashed_address = keys[i];
        let ghost left = storage_tries@;
        assert(accounts[i as int] == hashed_address);
        let trie = storage_tries.remove(&hashed_address).unwrap();
        let ghost before = out@;
        let ghost write = TableWriteView::Storage(hashed_address, trie);
        out.push(TableWrite::Storage(hashed_address, trie));
        proof {
            assert(write_views(out@) =~= write_views(before).push(write));
            assert(all_storage_writes(was, accounts.take(i + 1)) =~= all_storage_writes(
                was,
                accounts.take(i as int),
            ).push(write));
            assert forall|j: int| i + 1 <= j < accounts.len() implies storage_tries@.contains_key(
                #[trigger] accounts[j],
            ) && storage_tries@[accounts[j]] == was.storage_tries@[accounts[j]] by {
                assert(<B256 as OrderedKey>::before(accounts[i as int], accounts[j]));
                <B256 as OrderedKey>::lemma_irreflexive(accounts[j]);
                assert(left.contains_key(accounts[j]));
            }
        }
        i = i + 1;
    }
    assert(accounts.take(accounts.len() as int) =~= accounts);
    assert(are_writes_in(was, write_views(out@), places, accounts));
    out
}

/// The trie tables after a change: written nodes take precedence over removed ones. A storage trie
/// is meant to have no node at the empty path.
pub open spec fn applied(tables: NodeSet, write: TableWriteView) -> NodeSet {
    match write {
        TableWriteView::Upsert(path, node) => tables.insert((None, path), node),
        TableWriteView::Delete(path) => tables.remove((None, path)),
        TableWriteView::Storage(a, trie) => Map::new(
            |k: (Option<B256>, Seq<u8>)|
                if k.0 == Some(a) {
                    trie.storage_nodes@.contains_key(k.1) || tables.contains_key(k)
                        && !trie.removed_nodes@.contains_key(k.1)
                } else {
                    tables.contains_key(k)
                },
            |k: (Option<B256>, Seq<u8>)|
                if k.0 == Some(a) && trie.storage_nodes@.contains_key(k.1) {
                    trie.storage_nodes@[k.1]@
                } else {
                    tables[k]
                },
        ),
    }
}

/// The trie tables after changes, one after the other.
pub open spec fn all_applied(tables: NodeSet, writes: Seq<TableWriteView>) -> NodeSet
    decreases writes.len(),
{
    if writes.len() == 0 {
        tables
    } else {
        applied(all_applied(tables, writes.drop_last()), writes.last())
    }
}

/// What a change of the trie tables did.
#[derive(Clone, Copy, Debug, PartialEq, Eq)]
pub enum WriteOutcome {
    /// A node was written.
    Upserted,
    /// A node was removed, or there was none.
    Deleted(bool),
    /// This many entries of a storage trie were changed.
    Storage(usize),
}

/// The number of table entries that a change wrote.
pub open spec fn entries_of(outcome: WriteOutcome) -> nat {
    match outcome {
        WriteOutcome::Upserted => 1,
        WriteOutcome::Deleted(found) => if found {
            1
        } else {
            0
        },
        WriteOutcome::Storage(n) => n as nat,
    }
}

/// The number of table entries that all changes wrote.
pub open spec fn total_entries(outcomes: Seq<WriteOutcome>) -> nat
    decreases outcomes.len(),
{
    if outcomes.len() == 0 {
        0
    } else {
        total_entries(outcomes.drop_last()) + entries_of(outcomes.last())
    }
}

proof fn lemma_total_grows(outcomes: Seq<WriteOutcome>, n: int)
    requires
        0 <= n <= outcomes.len(),
    ensures
        total_entries(outcomes.take(n)) <= total_entries(outcomes),
    decreases outcomes.len() - n,
{
    if n < outcomes.len() {
        lemma_total_grows(outcomes, n + 1);
        assert(outcomes.take(n + 1).drop_last() =~= outcomes.take(n));
    } else {
        assert(outcomes.take(n) =~= outcomes);
    }
}

/// The number of table entries written, unless it is too large to count.
pub fn written_entries(outcomes: &Vec<WriteOutcome>) -> (r: Option<usize>)
    ensures
        r == if total_entries(outcomes@) <= usize::MAX {
            Some(total_entries(outcomes@) as usize)
        } else {
            None
        },
{
    let mut written: usize = 0;
    let mut i: usize = 0;
    assert(outcomes@.take(0) =~= Seq::empty());
    while i < outcomes.len()
        invariant
            i <= outcomes@.len(),
            written == total_entries(outcomes@.take(i as int)),
        decreases outcomes@.len() - i,
    {
        let entries: usize = match outcomes[i] {
            WriteOutcome::Upserted => 1,
            WriteOutcome::Deleted(found) => if found {
                1
            } else {
                0
            },
            WriteOutcome::Storage(n) => n,
        };
        proof {
            lemma_total_grows(outcomes@, i + 1);
            assert(outcomes@.take(i + 1).drop_last() =~= outcomes@.take(i as int));
        }
        match written.checked_add(entries) {
            Some(more) => {
                written = more;
            },
            None => {
                return None;
            },
        }
        i = i + 1;
    }
    assert(outcomes@.take(outcomes@.len() as int) =~= outcomes@);
    Some(written)
}

} // verus!
