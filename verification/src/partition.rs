//! Building one subtrie of the account trie.
//!
//! A subtrie is the set of accounts whose hashed address starts with a nibble prefix. It is built
//! over keys with the prefix stripped, so the builder's own root is exactly the node a full-trie
//! build would place at that prefix. Emitted branch nodes are re-keyed to absolute paths on the way
//! out.
//!
//! The state trie's root branch node (empty path) is never emitted, so nothing about the root's
//! masks needs to be reconstructed after partitioning.

use crate::builder::{
    add_leaf, are_leaves, builder_closed, builder_leaves, builder_nodes, close_builder,
    finished_nodes, full_leaves, is_sum_of_parts, new_builder, no_nodes, nodes_of, open_nodes, top_node, trie_node,
    trie_nodes, under, Leaf, Nodes,
};
use crate::bytes::{lemma_lex_irreflexive, lemma_lex_skip, lemma_lex_transitive, lex_lt};
use crate::cursor::{
    ascending, row_at, DatabaseError, HashedCursor, HashedCursorFactory, StateView,
};
use crate::emit::{emit_completed, lemma_rekeyed_union, rekeyed};
use crate::nibbles::{
    all_nibbles, is_successor, lemma_prefix_bounded, lemma_prefix_unbounded, lemma_unpacked_is_path,
    lemma_unpacked_order, packed, starts_with, unpacked, Nibbles,
};
use crate::primitives::{Account, B256};
use crate::rlp::{account_value, encode_account, into_trie_account, keccak256, reference_hash};
use crate::sink::{grows, lemma_takes_both, lemma_takes_nothing, takes, NodeSet, OnNode};
use crate::storage::{
    lemma_nothing_finished, storage_nodes, storage_nodes_up_to, storage_root, storage_root_with_nodes,
};
use vstd::prelude::*;

verus! {

/// A built subtrie.
#[derive(Debug)]
pub struct Subtrie {
    /// Prefix of every key in this subtrie, as absolute nibbles.
    pub prefix: Nibbles,
    /// RLP reference to the subtrie's root node, as the parent branch would embed it.
    pub root: Vec<u8>,
    /// Number of account leaves in the subtrie.
    pub leaves: u64,
}

impl Subtrie {
    /// A subtrie with the same content.
    pub fn duplicate(&self) -> (r: Subtrie)
        ensures
            r.prefix@ == self.prefix@,
            r.root@ == self.root@,
            r.leaves == self.leaves,
    {
        Subtrie {
            prefix: self.prefix.duplicate(),
            root: self.root.clone(),
            leaves: self.leaves,
        }
    }
}

/// Whether `key` lies between the bounds, the upper one excluded.
pub open spec fn in_bounds(key: B256, bounds: (B256, Option<B256>)) -> bool {
    !key.before(bounds.0) && (bounds.1 matches Some(end) ==> key.before(end))
}

/// Inclusive lower and exclusive upper bound (if any) of the 32-byte keys starting with `prefix`.
///
/// Packing a prefix into a zeroed 32-byte array is the smallest key with that prefix. The exclusive
/// end is the packed successor prefix; there is none for the empty prefix or one of `0xf` only, and
/// then the range is unbounded above.
pub fn prefix_bounds(prefix: &Nibbles) -> (r: (B256, Option<B256>))
    ensures
        r.0.bytes() == packed(prefix@, 32),
        r.1 is None <==> (forall|j: int| 0 <= j < prefix@.len() ==> prefix@[j] == 15),
        r.1 matches Some(end) ==> exists|next: Seq<u8>, k: int|
            #[trigger] is_successor(prefix@, next, k) && end.bytes() == packed(next, 32),
        forall|key: B256|
            starts_with(unpacked(key.bytes()), prefix@) <==> #[trigger] in_bounds(key, r),
{
    prefix.check();
    let start = prefix.pack_padded();
    match prefix.increment() {
        Some(next) => {
            let end = next.pack_padded();
            let r = (start, Some(end));
            proof {
                let k = choose|k: int| #[trigger] is_successor(prefix@, next@, k);
                assert forall|key: B256|
                    starts_with(unpacked(key.bytes()), prefix@) <==> #[trigger] in_bounds(
                        key,
                        r,
                    ) by {
                    lemma_prefix_bounded(key.bytes(), prefix@, next@, k);
                }
            }
            r
        },
        None => {
            let r = (start, None::<B256>);
            proof {
                assert forall|key: B256|
                    starts_with(unpacked(key.bytes()), prefix@) <==> #[trigger] in_bounds(
                        key,
                        r,
                    ) by {
                    lemma_prefix_unbounded(key.bytes(), prefix@);
                }
            }
            r
        },
    }
}

/// Hash of a subtrie root node reference: the embedded hash, or the hash of the inline RLP.
pub fn node_hash(node: &Vec<u8>) -> (r: B256)
    ensures
        r.bytes() == reference_hash(node@),
{
    if node.len() == 33 {
        let (_, hash) = node.as_slice().split_at(1);
        B256::from_slice(hash)
    } else {
        keccak256(node.as_slice())
    }
}

/// The leaf of an account.
pub open spec fn account_leaf(state: StateView, row: (B256, Account)) -> Leaf {
    (unpacked(row.0.bytes()), account_value(row.1, storage_root(state.slots(row.0))))
}

/// The leaves of the state trie for the given accounts.
pub open spec fn account_leaves(state: StateView, rows: Seq<(B256, Account)>) -> Seq<Leaf> {
    Seq::new(rows.len(), |i: int| account_leaf(state, rows[i]))
}

/// The leaves of the state trie under `prefix`, without it.
pub open spec fn leaves_under(state: StateView, prefix: Seq<u8>) -> Seq<Leaf> {
    under(account_leaves(state, state.accounts), prefix)
}

/// Whether `sub` is the subtrie of the state under `prefix`, or nothing where no account starts
/// with it.
pub open spec fn is_subtrie(state: StateView, prefix: Seq<u8>, sub: Option<Subtrie>) -> bool {
    let leaves = leaves_under(state, prefix);
    &&& sub is Some <==> leaves.len() > 0
    &&& sub matches Some(sub) ==> {
        &&& sub.prefix@ == prefix
        &&& sub.root@ == trie_node(leaves)
        &&& sub.root@.len() <= 33
        &&& sub.leaves == leaves.len()
    }
}

/// Whether there is a row with the given key.
pub open spec fn has_row<V>(rows: Seq<(B256, V)>, key: B256) -> bool {
    exists|i: int| 0 <= i < rows.len() && (#[trigger] rows[i]).0 == key
}

/// The stored nodes of the storage tries of the accounts under `prefix`.
pub open spec fn storages_nodes(
    state: StateView,
    rows: Seq<(B256, Account)>,
    prefix: Seq<u8>,
) -> NodeSet {
    Map::new(
        |k: (Option<B256>, Seq<u8>)|
            k.0 is Some && has_row(rows, k.0->0) && starts_with(
                unpacked((k.0->0).bytes()),
                prefix,
            ) && storage_nodes(k.0->0, state.slots(k.0->0)).contains_key(k),
        |k: (Option<B256>, Seq<u8>)| storage_nodes(k.0->0, state.slots(k.0->0))[k],
    )
}

/// The stored nodes of the state trie under `prefix`, and of the storage tries of the accounts
/// under it.
pub open spec fn subtrie_nodes(state: StateView, prefix: Seq<u8>) -> NodeSet {
    rekeyed(
        None,
        prefix,
        nodes_of(leaves_under(state, prefix)),
    ).union_prefer_right(storages_nodes(state, state.accounts, prefix))
}

/// What is stored of the subtrie under `prefix` when the nodes of the state trie that the first `m`
/// accounts finish were handed out, the storage tries of the first `s` accounts, and what the first
/// `n` slots of the next account finish of its storage trie.
pub open spec fn subtrie_nodes_up_to(
    state: StateView,
    prefix: Seq<u8>,
    m: int,
    s: int,
    n: int,
) -> NodeSet {
    let rows = state.accounts;
    let whole = rekeyed(
        None,
        prefix,
        finished_nodes(under(account_leaves(state, rows.take(m)), prefix)),
    ).union_prefer_right(storages_nodes(state, rows.take(s), prefix));
    if 0 <= s < rows.len() && starts_with(unpacked(rows[s].0.bytes()), prefix) {
        whole.union_prefer_right(
            storage_nodes_up_to(rows[s].0, state.slots(rows[s].0), n),
        )
    } else {
        whole
    }
}

/// Whether a subtrie was left after so many accounts and slots: at an account, or right behind it.
pub open spec fn is_left_at(state: StateView, m: int, s: int, n: int) -> bool {
    &&& 0 <= m <= s <= state.accounts.len()
    &&& s <= m + 1
    &&& n >= 0
    &&& n > 0 ==> s < state.accounts.len() && n <= state.slots(state.accounts[s].0).len()
}

/// A subtrie that was left before its first account.
pub proof fn lemma_nothing_left(state: StateView, prefix: Seq<u8>)
    ensures
        is_left_at(state, 0, 0, 0),
        subtrie_nodes_up_to(state, prefix, 0, 0, 0) =~= Map::empty(),
{
    let rows = state.accounts;
    assert(rows.take(0) =~= Seq::empty());
    assert(account_leaves(state, rows.take(0)) =~= Seq::empty());
    if rows.len() > 0 {
        lemma_nothing_finished(rows[0].0, state.slots(rows[0].0));
    }
}

/// A subtrie that was left at an account, before its slots.
proof fn lemma_left_before_slots(state: StateView, prefix: Seq<u8>, m: int, s: int, leaves: Seq<Leaf>)
    requires
        0 <= m <= s <= state.accounts.len(),
        s <= m + 1,
        leaves == under(account_leaves(state, state.accounts.take(m)), prefix),
        open_nodes(Seq::empty()) == no_nodes(),
    ensures
        is_left_at(state, m, s, 0),
        subtrie_nodes_up_to(state, prefix, m, s, 0) =~= emitted(
            state,
            state.accounts.take(s),
            prefix,
            open_nodes(leaves),
        ),
{
    let rows = state.accounts;
    if leaves.len() == 0 {
        assert(leaves =~= Seq::empty());
    }
    assert(finished_nodes(leaves) == open_nodes(leaves));
    if s < rows.len() {
        lemma_nothing_finished(rows[s].0, state.slots(rows[s].0));
    }
}

/// A subtrie that was left within the slots of an account.
proof fn lemma_left_within_slots<S: OnNode>(
    first: S,
    now: S,
    last: S,
    state: StateView,
    prefix: Seq<u8>,
    at: int,
    n: int,
    leaves: Seq<Leaf>,
)
    requires
        ascending(state.accounts),
        0 <= at < state.accounts.len(),
        starts_with(unpacked(state.accounts[at].0.bytes()), prefix),
        0 <= n <= state.slots(state.accounts[at].0).len(),
        leaves == under(account_leaves(state, state.accounts.take(at)), prefix),
        open_nodes(Seq::empty()) == no_nodes(),
        takes(first, now, emitted(state, state.accounts.take(at), prefix, open_nodes(leaves))),
        takes(
            now,
            last,
            storage_nodes_up_to(state.accounts[at].0, state.slots(state.accounts[at].0), n),
        ),
    ensures
        is_left_at(state, at, at, n),
        takes(first, last, subtrie_nodes_up_to(state, prefix, at, at, n)),
{
    let rows = state.accounts;
    let address = rows[at].0;
    if leaves.len() == 0 {
        assert(leaves =~= Seq::empty());
    }
    lemma_one_more_storage(state, rows, at, prefix);
    let before = emitted(state, rows.take(at), prefix, open_nodes(leaves));
    let more = storage_nodes_up_to(address, state.slots(address), n);
    assert(before.dom().disjoint(more.dom())) by {
        assert forall|k: (Option<B256>, Seq<u8>)| before.contains_key(k) implies !more.contains_key(
            k,
        ) by {
            if more.contains_key(k) {
                assert(k.0 == Some(address));
            }
        }
    }
    lemma_takes_both(
        first,
        now,
        last,
        before,
        more,
        subtrie_nodes_up_to(state, prefix, at, at, n),
    );
}

/// Whether a sink accepts every node that belongs to the subtrie under `prefix`.
pub open spec fn accepts_under<S: OnNode>(sink: S, prefix: Seq<u8>) -> bool {
    &&& forall|p: Seq<u8>|
        p.len() > 0 && starts_with(p, prefix) ==> #[trigger] sink.accepts(None, p)
    &&& forall|a: B256, p: Seq<u8>|
        p.len() > 0 && starts_with(unpacked(a.bytes()), prefix) ==> #[trigger] sink.accepts(
            Some(a),
            p,
        )
}

/// Whether the key without the prefix belongs to the leaf `j`.
spec fn comes_from(leaves: Seq<Leaf>, prefix: Seq<u8>, key: Seq<u8>, j: int) -> bool {
    0 <= j < leaves.len() && leaves[j].0 == prefix + key
}

spec fn has_source(leaves: Seq<Leaf>, prefix: Seq<u8>, key: Seq<u8>) -> bool {
    exists|j: int| comes_from(leaves, prefix, key, j)
}

proof fn lemma_under_keys(leaves: Seq<Leaf>, prefix: Seq<u8>)
    ensures
        forall|i: int|
            0 <= i < under(leaves, prefix).len() ==> has_source(
                leaves,
                prefix,
                #[trigger] under(leaves, prefix)[i].0,
            ),
    decreases leaves.len(),
{
    let all = under(leaves, prefix);
    if leaves.len() > 0 {
        let rest = leaves.drop_last();
        let (key, value) = leaves.last();
        lemma_under_keys(rest, prefix);
        assert forall|i: int| 0 <= i < all.len() implies has_source(
            leaves,
            prefix,
            #[trigger] all[i].0,
        ) by {
            if i < under(rest, prefix).len() {
                assert(has_source(rest, prefix, under(rest, prefix)[i].0));
                let j = choose|j: int| comes_from(rest, prefix, under(rest, prefix)[i].0, j);
                assert(comes_from(leaves, prefix, all[i].0, j));
            } else {
                assert(key =~= prefix + key.skip(prefix.len() as int));
                assert(comes_from(leaves, prefix, all[i].0, leaves.len() - 1));
            }
        }
    }
}

/// The leaves under a prefix, without it, are the leaves of a trie.
pub proof fn lemma_under_leaves(leaves: Seq<Leaf>, prefix: Seq<u8>)
    requires
        full_leaves(leaves),
        prefix.len() < 64,
    ensures
        are_leaves(under(leaves, prefix)),
        forall|i: int|
            0 <= i < under(leaves, prefix).len() ==> (#[trigger] under(leaves, prefix)[i].0).len()
                == 64 - prefix.len(),
    decreases leaves.len(),
{
    let all = under(leaves, prefix);
    let n = prefix.len() as int;
    if leaves.len() > 0 {
        let rest = leaves.drop_last();
        assert forall|i: int, j: int| 0 <= i < j < rest.len() implies lex_lt(
            #[trigger] rest[i].0,
            #[trigger] rest[j].0,
        ) by {
            assert(lex_lt(leaves[i].0, leaves[j].0));
        }
        assert forall|i: int| 0 <= i < rest.len() implies (#[trigger] rest[i].0).len() == 64 by {
            assert(leaves[i].0.len() == 64);
        }
        assert(are_leaves(rest)) by {
            assert forall|i: int| 0 <= i < rest.len() implies all_nibbles(
                #[trigger] rest[i].0,
            ) by {
                assert(all_nibbles(leaves[i].0));
            }
        }
        lemma_under_leaves(rest, prefix);
        lemma_under_keys(rest, prefix);
        let (key, value) = leaves.last();
        assert(key.len() == 64 && all_nibbles(key)) by {
            assert(leaves[leaves.len() - 1].0.len() == 64);
        }
        if starts_with(key, prefix) {
            let before = under(rest, prefix);
            assert forall|i: int| 0 <= i < before.len() implies lex_lt(
                #[trigger] before[i].0,
                key.skip(n),
            ) by {
                assert(has_source(rest, prefix, before[i].0));
                let j = choose|j: int| comes_from(rest, prefix, before[i].0, j);
                assert(lex_lt(leaves[j].0, leaves[leaves.len() - 1].0));
                assert(leaves[j].0.take(n) =~= prefix);
                assert(leaves[j].0.skip(n) =~= before[i].0);
                lemma_lex_skip(leaves[j].0, key, n);
            }
            assert forall|i: int| 0 <= i < all.len() implies (#[trigger] all[i].0).len() == 64
                - prefix.len() && all_nibbles(all[i].0) by {
                if i < before.len() {
                    assert(all[i] == before[i]);
                    assert(all_nibbles(before[i].0));
                }
            }
            assert forall|i: int, j: int| 0 <= i < j < all.len() implies lex_lt(
                #[trigger] all[i].0,
                #[trigger] all[j].0,
            ) by {
                assert(all[i] == before[i]);
                if j < before.len() {
                    assert(all[j] == before[j]);
                }
            }
        }
    }
}

/// Accounts in key order are the leaves of a trie.
pub proof fn lemma_account_leaves(state: StateView, rows: Seq<(B256, Account)>)
    requires
        ascending(rows),
    ensures
        full_leaves(account_leaves(state, rows)),
{
    let leaves = account_leaves(state, rows);
    assert forall|i: int| 0 <= i < leaves.len() implies all_nibbles(
        #[trigger] leaves[i].0,
    ) && leaves[i].0.len() == 64 by {
        lemma_unpacked_is_path(rows[i].0);
    }
    assert forall|i: int, j: int| 0 <= i < j < leaves.len() implies lex_lt(
        #[trigger] leaves[i].0,
        #[trigger] leaves[j].0,
    ) by {
        assert(rows[i].0.before(rows[j].0));
        lemma_unpacked_order(rows[i].0.bytes(), rows[j].0.bytes());
    }
}

/// One more account in front of the cursor.
proof fn lemma_one_more_leaf(
    state: StateView,
    rows: Seq<(B256, Account)>,
    at: int,
    prefix: Seq<u8>,
)
    requires
        0 <= at < rows.len(),
    ensures
        under(account_leaves(state, rows.take(at + 1)), prefix) == if starts_with(
            unpacked(rows[at].0.bytes()),
            prefix,
        ) {
            under(account_leaves(state, rows.take(at)), prefix).push(
                (
                    unpacked(rows[at].0.bytes()).skip(prefix.len() as int),
                    account_leaf(state, rows[at]).1,
                ),
            )
        } else {
            under(account_leaves(state, rows.take(at)), prefix)
        },
{
    let more = account_leaves(state, rows.take(at + 1));
    assert(more.drop_last() =~= account_leaves(state, rows.take(at)));
    assert(more.last() == account_leaf(state, rows[at]));
}

/// Where an account starts with the prefix there is a leaf.
proof fn lemma_populated(state: StateView, rows: Seq<(B256, Account)>, at: int, prefix: Seq<u8>)
    requires
        0 <= at < rows.len(),
        starts_with(unpacked(rows[at].0.bytes()), prefix),
    ensures
        under(account_leaves(state, rows), prefix).len() > 0,
{
    lemma_one_more_leaf(state, rows, at, prefix);
    lemma_grows_on(state, rows, at + 1, prefix);
}

proof fn lemma_grows_on(state: StateView, rows: Seq<(B256, Account)>, from: int, prefix: Seq<u8>)
    requires
        0 <= from <= rows.len(),
    ensures
        under(account_leaves(state, rows.take(from)), prefix).len() <= under(
            account_leaves(state, rows),
            prefix,
        ).len(),
    decreases rows.len() - from,
{
    if from < rows.len() {
        lemma_one_more_leaf(state, rows, from, prefix);
        lemma_grows_on(state, rows, from + 1, prefix);
    } else {
        assert(rows.take(from) =~= rows);
    }
}

/// Accounts that are not under the prefix add no leaf and no storage trie.
proof fn lemma_others_add_nothing(
    state: StateView,
    rows: Seq<(B256, Account)>,
    from: int,
    to: int,
    prefix: Seq<u8>,
)
    requires
        0 <= from <= to <= rows.len(),
        forall|i: int|
            from <= i < to ==> !starts_with(unpacked((#[trigger] rows[i]).0.bytes()), prefix),
    ensures
        under(account_leaves(state, rows.take(to)), prefix) == under(
            account_leaves(state, rows.take(from)),
            prefix,
        ),
        storages_nodes(state, rows.take(to), prefix) == storages_nodes(
            state,
            rows.take(from),
            prefix,
        ),
    decreases to - from,
{
    if from < to {
        lemma_others_add_nothing(state, rows, from, to - 1, prefix);
        lemma_one_more_leaf(state, rows, to - 1, prefix);
        let (a, b) = (rows.take(to - 1), rows.take(to));
        assert forall|key: B256| starts_with(unpacked(key.bytes()), prefix) implies has_row(a, key)
            == has_row(b, key) by {
            if has_row(a, key) {
                let i = choose|i: int| 0 <= i < a.len() && (#[trigger] a[i]).0 == key;
                assert(b[i].0 == key);
            }
            if has_row(b, key) {
                let i = choose|i: int| 0 <= i < b.len() && (#[trigger] b[i]).0 == key;
                assert(rows[i] == b[i]);
                assert(a[i].0 == key);
            }
        }
        assert(storages_nodes(state, b, prefix) =~= storages_nodes(state, a, prefix));
    }
}

/// The storage trie of one more account under the prefix.
proof fn lemma_one_more_storage(
    state: StateView,
    rows: Seq<(B256, Account)>,
    at: int,
    prefix: Seq<u8>,
)
    requires
        ascending(rows),
        0 <= at < rows.len(),
        starts_with(unpacked(rows[at].0.bytes()), prefix),
    ensures
        !has_row(rows.take(at), rows[at].0),
        storages_nodes(state, rows.take(at + 1), prefix) =~= storages_nodes(
            state,
            rows.take(at),
            prefix,
        ).union_prefer_right(storage_nodes(rows[at].0, state.slots(rows[at].0))),
        storages_nodes(state, rows.take(at), prefix).dom().disjoint(
            storage_nodes(rows[at].0, state.slots(rows[at].0)).dom(),
        ),
{
    let (a, b) = (rows.take(at), rows.take(at + 1));
    let new = rows[at].0;
    if has_row(a, new) {
        let i = choose|i: int| 0 <= i < a.len() && (#[trigger] a[i]).0 == new;
        assert(rows[i].0.before(rows[at].0));
        lemma_lex_irreflexive(new.bytes());
    }
    assert forall|key: B256| has_row(b, key) == (has_row(a, key) || key == new) by {
        if has_row(b, key) {
            let i = choose|i: int| 0 <= i < b.len() && (#[trigger] b[i]).0 == key;
            if i < at {
                assert(a[i].0 == key);
            }
        }
        if has_row(a, key) {
            let i = choose|i: int| 0 <= i < a.len() && (#[trigger] a[i]).0 == key;
            assert(b[i].0 == key);
        }
        assert(b[at].0 == new);
    }
}

/// What was emitted once the builder has stored `nodes` and the storage tries of `rows` are done.
spec fn emitted(
    state: StateView,
    rows: Seq<(B256, Account)>,
    prefix: Seq<u8>,
    nodes: Nodes,
) -> NodeSet {
    rekeyed(None, prefix, nodes).union_prefer_right(storages_nodes(state, rows, prefix))
}

/// What a sink that has taken some nodes of a subtrie still accepts.
proof fn lemma_still_accepts<S: OnNode>(
    first: S,
    now: S,
    state: StateView,
    rows: Seq<(B256, Account)>,
    prefix: Seq<u8>,
    nodes: Nodes,
)
    requires
        accepts_under(first, prefix),
        takes(first, now, emitted(state, rows, prefix, nodes)),
    ensures
        forall|p: Seq<u8>|
            prefix.len() + p.len() > 0 && !nodes.contains_key(p) ==> #[trigger] now.accepts(
                None,
                prefix + p,
            ),
        forall|a: B256, p: Seq<u8>|
            p.len() > 0 && starts_with(unpacked(a.bytes()), prefix) && !has_row(rows, a)
                ==> #[trigger] now.accepts(Some(a), p),
{
    assert forall|p: Seq<u8>|
        prefix.len() + p.len() > 0 && !nodes.contains_key(p) implies #[trigger] now.accepts(
        None,
        prefix + p,
    ) by {
        let n = prefix.len() as int;
        assert((prefix + p).take(n) =~= prefix);
        assert((prefix + p).skip(n) =~= p);
        assert(first.accepts(None, prefix + p));
    }
    assert forall|a: B256, p: Seq<u8>|
        p.len() > 0 && starts_with(unpacked(a.bytes()), prefix) && !has_row(
            rows,
            a,
        ) implies #[trigger] now.accepts(Some(a), p) by {
        assert(first.accepts(Some(a), p));
    }
}

/// Emitting a storage trie.
proof fn lemma_storage_step<S: OnNode>(
    first: S,
    now: S,
    next: S,
    state: StateView,
    rows: Seq<(B256, Account)>,
    at: int,
    prefix: Seq<u8>,
    nodes: Nodes,
)
    requires
        ascending(rows),
        0 <= at < rows.len(),
        starts_with(unpacked(rows[at].0.bytes()), prefix),
        takes(first, now, emitted(state, rows.take(at), prefix, nodes)),
        takes(now, next, storage_nodes(rows[at].0, state.slots(rows[at].0))),
    ensures
        takes(first, next, emitted(state, rows.take(at + 1), prefix, nodes)),
{
    lemma_one_more_storage(state, rows, at, prefix);
    let x = emitted(state, rows.take(at), prefix, nodes);
    let y = storage_nodes(rows[at].0, state.slots(rows[at].0));
    let xy = emitted(state, rows.take(at + 1), prefix, nodes);
    assert(x.dom().disjoint(y.dom())) by {
        assert forall|k: (Option<B256>, Seq<u8>)| x.contains_key(k) implies !y.contains_key(k) by {
            if k.0 is Some {
                assert(storages_nodes(state, rows.take(at), prefix).dom().contains(k));
            }
        }
    }
    assert(xy =~= x.union_prefer_right(y));
    lemma_takes_both(first, now, next, x, y, xy);
}

/// Emitting more nodes of the account trie.
proof fn lemma_account_step<S: OnNode>(
    first: S,
    now: S,
    next: S,
    state: StateView,
    rows: Seq<(B256, Account)>,
    prefix: Seq<u8>,
    done: Nodes,
    all: Nodes,
)
    requires
        done.submap_of(all),
        takes(first, now, emitted(state, rows, prefix, done)),
        takes(now, next, rekeyed(None, prefix, all.remove_keys(done.dom()))),
    ensures
        takes(first, next, emitted(state, rows, prefix, all)),
{
    lemma_rekeyed_union(None, prefix, done, all);
    let x = emitted(state, rows, prefix, done);
    let y = rekeyed(None, prefix, all.remove_keys(done.dom()));
    let xy = emitted(state, rows, prefix, all);
    assert(x.dom().disjoint(y.dom())) by {
        assert forall|k: (Option<B256>, Seq<u8>)| x.contains_key(k) implies !y.contains_key(k) by {
            if k.0 is None {
                assert(rekeyed(None, prefix, done).dom().contains(k));
            }
        }
    }
    assert(xy =~= x.union_prefer_right(y));
    lemma_takes_both(first, now, next, x, y, xy);
}

/// Builds the subtrie under `prefix`, handing its account and storage nodes, at absolute paths,
/// to `on_node`.
///
/// Returns `Ok(None)` if no account starts with `prefix`. There is no subtrie at a full key.
pub fn build_subtrie<H: HashedCursorFactory, S: OnNode>(
    factory: &H,
    prefix: Nibbles,
    on_node: &mut S,
) -> (r: Result<Option<Subtrie>, DatabaseError>)
    requires
        prefix@.len() < 64 || leaves_under(factory.state(), prefix@).len() == 0,
        accepts_under(*old(on_node), prefix@),
    ensures
        grows(*old(on_node), *final(on_node)),
        r matches Err(e) ==> factory.fails_with(e),
        r is Err ==> exists|m: int, s: int, n: int|
            is_left_at(factory.state(), m, s, n) && takes(
                *old(on_node),
                *final(on_node),
                #[trigger] subtrie_nodes_up_to(factory.state(), prefix@, m, s, n),
            ),
        r matches Ok(sub) ==> {
            &&& takes(*old(on_node), *final(on_node), subtrie_nodes(factory.state(), prefix@))
            &&& is_subtrie(factory.state(), prefix@, sub)
            &&& ascending(factory.state().accounts)
            &&& factory.state().accounts.len() <= u64::MAX
            &&& prefix@.len() < 63 ==> is_sum_of_parts(leaves_under(factory.state(), prefix@))
        },
{
    let ghost state = factory.state();
    let ghost rows = state.accounts;
    let (start, end) = prefix_bounds(&prefix);
    let mut accounts = match factory.hashed_account_cursor() {
        Ok(cursor) => cursor,
        Err(e) => {
            proof {
                lemma_nothing_left(state, prefix@);
                lemma_takes_nothing(*on_node, subtrie_nodes_up_to(state, prefix@, 0, 0, 0));
            }
            return Err(e);
        },
    };
    let mut hb = new_builder();
    let mut leaves: u64 = 0;
    let mut entry = match accounts.seek(start) {
        Ok(entry) => entry,
        Err(e) => {
            proof {
                lemma_nothing_left(state, prefix@);
                lemma_takes_nothing(*on_node, subtrie_nodes_up_to(state, prefix@, 0, 0, 0));
            }
            return Err(e);
        },
    };
    proof {
        let at = accounts.position();
        assert forall|i: int| 0 <= i < at implies !starts_with(
            unpacked((#[trigger] rows[i]).0.bytes()),
            prefix@,
        ) by {
            assert(!in_bounds(rows[i].0, (start, end)));
        }
        lemma_others_add_nothing(state, rows, 0, at, prefix@);
        assert(rows.take(0) =~= Seq::empty());
        assert(account_leaves(state, rows.take(0)) =~= Seq::empty());
        lemma_takes_nothing(
            *on_node,
            emitted(state, rows.take(at), prefix@, open_nodes(builder_leaves(hb))),
        );
    }
    let mut inside = true;
    while inside
        invariant
            state == factory.state(),
            rows == state.accounts,
            ascending(rows),
            rows.len() <= u64::MAX,
            prefix@.len() < 64 || leaves_under(state, prefix@).len() == 0,
            accepts_under(*old(on_node), prefix@),
            forall|key: B256|
                starts_with(unpacked(key.bytes()), prefix@) <==> #[trigger] in_bounds(
                    key,
                    (start, end),
                ),
            accounts.rows() == rows,
            forall|e: DatabaseError| #[trigger]
                accounts.fails_with(e) ==> factory.fails_with(e),
            0 <= accounts.position() <= rows.len(),
            inside ==> entry == row_at(rows, accounts.position()),
            forall|i: int|
                accounts.position() <= i < rows.len() ==> !(#[trigger] rows[i]).0.before(start),
            !inside ==> forall|i: int|
                accounts.position() <= i < rows.len() ==> !starts_with(
                    unpacked((#[trigger] rows[i]).0.bytes()),
                    prefix@,
                ),
            !builder_closed(hb),
            builder_leaves(hb) == under(
                account_leaves(state, rows.take(accounts.position())),
                prefix@,
            ),
            open_nodes(Seq::empty()) == no_nodes(),
            builder_nodes(hb) == no_nodes(),
            leaves == builder_leaves(hb).len(),
            leaves <= accounts.position(),
            takes(
                *old(on_node),
                *on_node,
                emitted(
                    state,
                    rows.take(accounts.position()),
                    prefix@,
                    open_nodes(builder_leaves(hb)),
                ),
            ),
        decreases rows.len() - accounts.position() + if inside { 1int } else { 0int },
    {
        let ghost at = accounts.position();
        let (hashed_address, account) = match entry {
            Some(row) => row,
            None => {
                inside = false;
                continue;
            },
        };
        let past_end = match &end {
            Some(end) => !hashed_address.is_before(end),
            None => false,
        };
        if past_end {
            proof {
                let end = end->0;
                assert forall|i: int| at <= i < rows.len() implies !starts_with(
                    unpacked((#[trigger] rows[i]).0.bytes()),
                    prefix@,
                ) by {
                    if i > at {
                        assert(rows[at].0.before(rows[i].0));
                        if rows[i].0.before(end) {
                            lemma_lex_transitive(
                                rows[at].0.bytes(),
                                rows[i].0.bytes(),
                                end.bytes(),
                            );
                        }
                    }
                    assert(!in_bounds(rows[i].0, (start, Some(end))));
                }
            }
            inside = false;
            continue;
        }
        proof {
            assert(in_bounds(rows[at].0, (start, end)));
            lemma_populated(state, rows, at, prefix@);
        }
        let ghost before = builder_leaves(hb);
        let ghost done = open_nodes(before);
        let ghost now = *on_node;
        proof {
            lemma_one_more_storage(state, rows, at, prefix@);
            lemma_still_accepts(*old(on_node), now, state, rows.take(at), prefix@, done);
        }
        let mut storage = match factory.hashed_storage_cursor(hashed_address) {
            Ok(cursor) => cursor,
            Err(e) => {
                proof {
                    lemma_left_before_slots(state, prefix@, at, at, before);
                }
                return Err(e);
            },
        };
        let storage_root = match storage_root_with_nodes(hashed_address, &mut storage, on_node) {
            Ok(root) => root,
            Err(e) => {
                proof {
                    let slots = state.slots(hashed_address);
                    let n = choose|n: int|
                        0 <= n <= slots.len() && takes(
                            now,
                            *on_node,
                            #[trigger] storage_nodes_up_to(hashed_address, slots, n),
                        );
                    lemma_left_within_slots(
                        *old(on_node),
                        now,
                        *on_node,
                        state,
                        prefix@,
                        at,
                        n,
                        before,
                    );
                }
                return Err(e);
            },
        };
        let ghost mid = *on_node;
        proof {
            lemma_storage_step(*old(on_node), now, mid, state, rows, at, prefix@, done);
        }
        let full = into_trie_account(&account, &storage_root);
        let account_rlp = encode_account(&full);
        let key = Nibbles::unpack(&hashed_address).slice_from(prefix.len());
        proof {
            lemma_one_more_leaf(state, rows, at, prefix@);
            lemma_account_leaves(state, rows.take(at + 1));
            lemma_under_leaves(account_leaves(state, rows.take(at + 1)), prefix@);
            assert(account_rlp@ == account_leaf(state, rows[at]).1);
        }
        add_leaf(&mut hb, &key, account_rlp.as_slice());
        leaves = leaves + 1;
        let ghost all = open_nodes(builder_leaves(hb));
        entry = match accounts.next() {
            Ok(entry) => entry,
            Err(e) => {
                proof {
                    lemma_left_before_slots(state, prefix@, at, at + 1, before);
                }
                return Err(e);
            },
        };
        proof {
            assert(builder_nodes(hb) =~= all.remove_keys(done.dom()));
            lemma_still_accepts(*old(on_node), mid, state, rows.take(at + 1), prefix@, done);
        }
        emit_completed(&mut hb, None, &prefix, on_node);
        proof {
            lemma_account_step(
                *old(on_node),
                mid,
                *on_node,
                state,
                rows.take(at + 1),
                prefix@,
                done,
                all,
            );
        }
    }
    let ghost at = accounts.position();
    let ghost done = open_nodes(builder_leaves(hb));
    let ghost now = *on_node;
    let _ = close_builder(&mut hb);
    let ghost all = trie_nodes(builder_leaves(hb));
    proof {
        lemma_others_add_nothing(state, rows, at, rows.len() as int, prefix@);
        assert(rows.take(rows.len() as int) =~= rows);
        lemma_account_leaves(state, rows);
        if prefix@.len() < 64 {
            lemma_under_leaves(account_leaves(state, rows), prefix@);
        }
        assert(builder_nodes(hb) =~= all.remove_keys(done.dom()));
        lemma_still_accepts(*old(on_node), now, state, rows.take(at), prefix@, done);
    }
    let root = top_node(&hb);
    emit_completed(&mut hb, None, &prefix, on_node);
    proof {
        lemma_account_step(
            *old(on_node),
            now,
            *on_node,
            state,
            rows.take(at),
            prefix@,
            done,
            all,
        );
    }
    match root {
        Some(root) => Ok(Some(Subtrie { prefix, root, leaves })),
        None => Ok(None),
    }
}

} // verus!
