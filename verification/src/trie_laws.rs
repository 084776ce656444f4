//! What the tries of a state are, in terms of their leaves.

use crate::builder::{
    below_root, finished_nodes, is_sum_of_parts, nodes_of, open_nodes, part, part_slots, root_of,
    spread, trie_node, trie_nodes, under, Leaf,
};
use crate::bytes::{be_value, lemma_lex_is_value_order};
use crate::cursor::{ascending, StateView};
use crate::emit::rekeyed;
use crate::generate::{
    at_first_nibbles, has_nibble, is_generated, nodes_up_to, state_leaves, state_nodes, state_root,
    subtrie_slots, Generated,
};
use crate::leaf_laws::lemma_leaves_are_the_set_slots;
use crate::nibbles::{starts_with, unpacked};
use crate::node::BranchView;
use crate::partition::{
    accepts_under, account_leaves, has_row, in_bounds, is_left_at, is_subtrie, leaves_under,
    storages_nodes, subtrie_nodes, subtrie_nodes_up_to, Subtrie,
};
use crate::primitives::{B256, U256};
use crate::rlp::{branch_reference, empty_root, keccak_of, reference_hash, rlp_number};
use crate::sink::OnNode;
use crate::storage::{storage_nodes, storage_nodes_up_to, storage_root};
use vstd::prelude::*;

verus! {

/// The leaves whose key starts with `prefix`, in their order, without it.
pub open spec fn starting_with(leaves: Seq<Leaf>, prefix: Seq<u8>) -> Seq<Leaf> {
    leaves.filter(|leaf: Leaf| prefix.is_prefix_of(leaf.0)).map_values(
        |leaf: Leaf| (leaf.0.skip(prefix.len() as int), leaf.1),
    )
}

/// The leaves of the slots that hold a value.
pub open spec fn set_slots(rows: Seq<(B256, U256)>) -> Seq<Leaf> {
    rows.filter(|row: (B256, U256)| be_value(row.1.0@) != 0).map_values(
        |row: (B256, U256)| (unpacked(row.0.0@), rlp_number(row.1.0@)),
    )
}

/// The hash that a reference of a node stands for: the hash it holds, or that of the node it holds.
pub open spec fn hash_behind(node: Seq<u8>) -> Seq<u8> {
    if node.len() == 33 {
        node.skip(1)
    } else {
        keccak_of(node)
    }
}

/// A prefix is a prefix.
pub proof fn lemma_starts_with_means(s: Seq<u8>, prefix: Seq<u8>)
    ensures
        starts_with(s, prefix) <==> prefix.is_prefix_of(s),
{
}

/// The leaves of a part are those that start with its prefix, all of them, in their order.
pub proof fn lemma_parts_are_whole(leaves: Seq<Leaf>, prefix: Seq<u8>)
    ensures
        under(leaves, prefix) == starting_with(leaves, prefix),
    decreases leaves.len(),
{
    reveal(Seq::filter);
    let has = |leaf: Leaf| prefix.is_prefix_of(leaf.0);
    let cut = |leaf: Leaf| (leaf.0.skip(prefix.len() as int), leaf.1);
    if leaves.len() > 0 {
        let rest = leaves.drop_last();
        lemma_parts_are_whole(rest, prefix);
        lemma_starts_with_means(leaves.last().0, prefix);
        assert(under(rest, prefix) == rest.filter(has).map_values(cut));
        if has(leaves.last()) {
            assert(rest.filter(has).push(leaves.last()).map_values(cut) =~= rest.filter(
                has,
            ).map_values(cut).push(cut(leaves.last())));
        }
    } else {
        assert(leaves.filter(has).map_values(cut) =~= leaves);
    }
}

/// The root of a storage trie is the hash of the topmost node of the trie of the slots that hold a
/// value, or the root of an empty trie where there are none.
pub proof fn lemma_storage_root_is_that_of_the_set_slots(rows: Seq<(B256, U256)>)
    ensures
        set_slots(rows).len() == 0 ==> storage_root(rows) == empty_root(),
        set_slots(rows).len() > 0 ==> storage_root(rows) == hash_behind(
            trie_node(set_slots(rows)),
        ),
{
    lemma_leaves_are_the_set_slots(rows);
}

/// The stored nodes of a storage trie are the branch nodes of the trie of the slots that hold a
/// value, all but the one at the root, under the account, at their paths, as they are but without a
/// root hash.
pub proof fn lemma_storage_nodes_are_those_of_the_set_slots(
    account: B256,
    rows: Seq<(B256, U256)>,
    whose: Option<B256>,
    path: Seq<u8>,
)
    ensures
        storage_nodes(account, rows).contains_key((whose, path)) <==> whose == Some(account)
            && path.len() > 0 && set_slots(rows).len() > 0 && trie_nodes(
            set_slots(rows),
        ).contains_key(path),
        storage_nodes(account, rows).contains_key((whose, path)) ==> {
            let (kept, node) = (
                storage_nodes(account, rows)[(whose, path)],
                trie_nodes(set_slots(rows))[path],
            );
            &&& kept.state_mask == node.state_mask
            &&& kept.tree_mask == node.tree_mask
            &&& kept.hash_mask == node.hash_mask
            &&& kept.hashes == node.hashes
            &&& kept.root_hash is None
        },
{
    lemma_leaves_are_the_set_slots(rows);
    assert(path.take(0) =~= Seq::<u8>::empty());
    assert(path.skip(0) =~= path);
}

/// A subtrie is that of all accounts whose hashed address starts with the prefix: there is one
/// exactly if there is such an account, it counts them, and its root is the reference of the topmost
/// node of their leaves without the prefix.
pub proof fn lemma_subtrie_is_that_of_the_accounts(
    state: StateView,
    prefix: Seq<u8>,
    sub: Option<Subtrie>,
)
    requires
        is_subtrie(state, prefix, sub),
    ensures
        sub is Some <==> exists|i: int|
            0 <= i < state.accounts.len() && prefix.is_prefix_of(
                unpacked((#[trigger] state.accounts[i]).0.0@),
            ),
        sub matches Some(sub) ==> {
            let leaves = starting_with(account_leaves(state, state.accounts), prefix);
            &&& sub.prefix@ == prefix
            &&& sub.leaves == leaves.len()
            &&& sub.root@ == trie_node(leaves)
        },
{
    let all = account_leaves(state, state.accounts);
    let has = |leaf: Leaf| prefix.is_prefix_of(leaf.0);
    lemma_parts_are_whole(all, prefix);
    if sub is Some {
        all.lemma_filter_pred(has, 0);
        let first = all.filter(has)[0];
        assert(all.filter(has).contains(first));
        all.lemma_filter_contains_rev(has, first);
        let i = choose|i: int| 0 <= i < all.len() && all[i] == first;
        assert(all[i].0 == unpacked(state.accounts[i].0.0@));
    }
    if exists|i: int|
        0 <= i < state.accounts.len() && prefix.is_prefix_of(
            unpacked((#[trigger] state.accounts[i]).0.0@),
        ) {
        let i = choose|i: int|
            0 <= i < state.accounts.len() && prefix.is_prefix_of(
                unpacked((#[trigger] state.accounts[i]).0.0@),
            );
        assert(all[i].0 == unpacked(state.accounts[i].0.0@));
        all.lemma_filter_contains(has, i);
        assert(all.filter(has).len() > 0);
    }
}

/// Nodes that were built below a prefix are stored at the path that starts with it, under the
/// account of their trie, as they are but without a root hash; the node at the root of a whole trie
/// is not stored, and nothing else is.
pub proof fn lemma_nodes_keep_their_place(
    account: Option<B256>,
    prefix: Seq<u8>,
    nodes: Map<Seq<u8>, BranchView>,
    whose: Option<B256>,
    path: Seq<u8>,
)
    ensures
        rekeyed(account, prefix, nodes).contains_key((whose, prefix + path)) <==> whose == account
            && prefix.len() + path.len() > 0 && nodes.contains_key(path),
        rekeyed(account, prefix, nodes).contains_key((whose, path)) ==> prefix.is_prefix_of(path),
        rekeyed(account, prefix, nodes).contains_key((whose, prefix + path)) ==> rekeyed(
            account,
            prefix,
            nodes,
        )[(whose, prefix + path)] == (BranchView {
            state_mask: nodes[path].state_mask,
            tree_mask: nodes[path].tree_mask,
            hash_mask: nodes[path].hash_mask,
            hashes: nodes[path].hashes,
            root_hash: None,
        }),
{
    assert((prefix + path).skip(prefix.len() as int) =~= path);
    assert((prefix + path).take(prefix.len() as int) =~= prefix);
    lemma_starts_with_means(path, prefix);
}

/// A subtrie stores the branch nodes of the leaves below its prefix at their absolute paths in the
/// state trie, and for every account below the prefix all stored nodes of its storage trie.
pub proof fn lemma_subtrie_stores_its_nodes(
    state: StateView,
    prefix: Seq<u8>,
    account: B256,
    path: Seq<u8>,
)
    ensures
        ({
            let leaves = starting_with(account_leaves(state, state.accounts), prefix);
            let nodes = subtrie_nodes(state, prefix);
            let slots = if state.storages.contains_key(account) {
                state.storages[account]
            } else {
                Seq::empty()
            };
            &&& nodes.contains_key((None, prefix + path)) <==> prefix.len() + path.len() > 0
                && leaves.len() > 0 && trie_nodes(leaves).contains_key(path)
            &&& nodes.contains_key((None, prefix + path)) ==> nodes[(None, prefix + path)] == (
            BranchView { root_hash: None, ..trie_nodes(leaves)[path] })
            &&& nodes.contains_key((None, path)) ==> prefix.is_prefix_of(path)
            &&& nodes.contains_key((Some(account), path)) <==> (exists|i: int|
                0 <= i < state.accounts.len() && (#[trigger] state.accounts[i]).0 == account)
                && prefix.is_prefix_of(unpacked(account.0@)) && storage_nodes(
                account,
                slots,
            ).contains_key((Some(account), path))
            &&& nodes.contains_key((Some(account), path)) ==> nodes[(Some(account), path)]
                == storage_nodes(account, slots)[(Some(account), path)]
        }),
{
    let all = account_leaves(state, state.accounts);
    lemma_parts_are_whole(all, prefix);
    lemma_nodes_keep_their_place(None, prefix, nodes_of(under(all, prefix)), None, path);
    lemma_starts_with_means(path, prefix);
    lemma_starts_with_means(unpacked(account.0@), prefix);
    let own = rekeyed(None, prefix, nodes_of(leaves_under(state, prefix)));
    assert(own.contains_key((None, prefix + path)) == subtrie_nodes(state, prefix).contains_key(
        (None, prefix + path),
    ));
    assert(own.contains_key((None, path)) == subtrie_nodes(state, prefix).contains_key(
        (None, path),
    ));
}

/// The branch over the parts of the leaves: what it holds at a nibble is the reference of the
/// topmost node of the leaves that start with it, and nothing where there are none.
pub open spec fn branch_over_parts(leaves: Seq<Leaf>) -> Seq<Option<Seq<u8>>> {
    Seq::new(
        16,
        |n: int|
            if starting_with(leaves, seq![n as u8]).len() == 0 {
                None
            } else {
                Some(trie_node(starting_with(leaves, seq![n as u8])))
            },
    )
}

/// The root of a state: that of an empty trie without accounts; where all addresses start with one
/// nibble, the hash of the topmost node of all leaves; else the hash of the branch over what lies
/// below each nibble.
pub proof fn lemma_root_is_that_of_all_accounts(state: StateView)
    ensures
        state.accounts.len() == 0 ==> state_root(state) == empty_root(),
        ({
            let leaves = account_leaves(state, state.accounts);
            let one_nibble = forall|i: int, j: int|
                0 <= i < state.accounts.len() && 0 <= j < state.accounts.len() ==> unpacked(
                    (#[trigger] state.accounts[i]).0.0@,
                )[0] == unpacked((#[trigger] state.accounts[j]).0.0@)[0];
            &&& state.accounts.len() > 0 && one_nibble ==> state_root(state) == hash_behind(
                trie_node(leaves),
            )
            &&& !one_nibble ==> state_root(state) == hash_behind(
                branch_reference(branch_over_parts(leaves)),
            )
        }),
{
    let leaves = account_leaves(state, state.accounts);
    let one_nibble = forall|i: int, j: int|
        0 <= i < state.accounts.len() && 0 <= j < state.accounts.len() ==> unpacked(
            (#[trigger] state.accounts[i]).0.0@,
        )[0] == unpacked((#[trigger] state.accounts[j]).0.0@)[0];
    assert forall|i: int| 0 <= i < leaves.len() implies (#[trigger] leaves[i].0).take(1) =~= seq![
        unpacked(state.accounts[i].0.0@)[0],
    ] by {}
    if spread(leaves) {
        let (i, j) = choose|i: int, j: int|
            0 <= i < j < leaves.len() && #[trigger] leaves[i].0.take(1)
                != #[trigger] leaves[j].0.take(1);
        assert(unpacked(state.accounts[i].0.0@)[0] != unpacked(state.accounts[j].0.0@)[0]);
        assert(!one_nibble);
    }
    if !one_nibble {
        let (i, j) = choose|i: int, j: int|
            0 <= i < state.accounts.len() && 0 <= j < state.accounts.len() && unpacked(
                (#[trigger] state.accounts[i]).0.0@,
            )[0] != unpacked((#[trigger] state.accounts[j]).0.0@)[0];
        let (a, b) = (leaves[i].0.take(1), leaves[j].0.take(1));
        assert(a[0] != b[0]);
        if i < j {
            assert(spread(leaves));
        } else {
            assert(leaves[j].0.take(1) != leaves[i].0.take(1));
            assert(spread(leaves));
        }
    }
    assert forall|n: int| 0 <= n < 16 implies #[trigger] part(leaves, n as u8) == starting_with(
        leaves,
        seq![n as u8],
    ) by {
        lemma_parts_are_whole(leaves, seq![n as u8]);
    }
    assert(part_slots(leaves) =~= branch_over_parts(leaves));
}

/// What is stored of a state: in the state trie, at every path that starts with a nibble, the branch
/// node that the trie of the leaves below that nibble has at the rest of the path, without a root
/// hash; and the stored nodes of the storage trie of every account, and of no other address.
pub proof fn lemma_nodes_are_those_of_all_accounts(state: StateView, account: B256, path: Seq<u8>)
    ensures
        ({
            let leaves = starting_with(account_leaves(state, state.accounts), path.take(1));
            let nodes = state_nodes(state);
            let slots = if state.storages.contains_key(account) {
                state.storages[account]
            } else {
                Seq::empty()
            };
            &&& nodes.contains_key((None, path)) <==> path.len() > 0 && leaves.len() > 0
                && trie_nodes(leaves).contains_key(path.skip(1))
            &&& nodes.contains_key((None, path)) ==> nodes[(None, path)] == (BranchView {
                root_hash: None,
                ..trie_nodes(leaves)[path.skip(1)]
            })
            &&& nodes.contains_key((Some(account), path)) <==> (exists|i: int|
                0 <= i < state.accounts.len() && (#[trigger] state.accounts[i]).0 == account)
                && storage_nodes(account, slots).contains_key((Some(account), path))
            &&& nodes.contains_key((Some(account), path)) ==> nodes[(Some(account), path)]
                == storage_nodes(account, slots)[(Some(account), path)]
        }),
{
    let all = account_leaves(state, state.accounts);
    if path.len() > 0 {
        assert(path.take(1) =~= seq![path[0]]);
        lemma_parts_are_whole(all, seq![path[0]]);
    }
    let none: Seq<u8> = Seq::empty();
    assert(unpacked(account.0@).take(0) =~= none);
}

/// Where the trie of all leaves is the sum of its parts, as a builder has it, the root is the hash
/// of the topmost node of the trie of all leaves, and the stored nodes of the state trie are all its
/// branch nodes but that at the root.
pub proof fn lemma_parts_make_the_whole(state: StateView, path: Seq<u8>)
    requires
        is_sum_of_parts(account_leaves(state, state.accounts)),
    ensures
        ({
            let leaves = account_leaves(state, state.accounts);
            let nodes = state_nodes(state);
            &&& leaves.len() > 0 ==> state_root(state) == hash_behind(trie_node(leaves))
            &&& nodes.contains_key((None, path)) <==> path.len() > 0 && leaves.len() > 0
                && trie_nodes(leaves).contains_key(path)
            &&& nodes.contains_key((None, path)) ==> nodes[(None, path)] == (BranchView {
                root_hash: None,
                ..trie_nodes(leaves)[path]
            })
        }),
{
    let leaves = account_leaves(state, state.accounts);
    if leaves.len() > 0 {
        let below = below_root(nodes_of(leaves));
        assert(below.contains_key(path) <==> path.len() > 0 && trie_nodes(leaves).contains_key(
            path,
        ));
    } else if path.len() > 0 {
        assert(part(leaves, path[0]) =~= Seq::<Leaf>::empty());
    }
}

/// The outcome of a generation is the root of the state and the number of its accounts.
pub proof fn lemma_outcome_is_root_and_count(state: StateView, generated: Generated)
    ensures
        is_generated(state, generated) <==> generated.root.0@ == state_root(state)
            && generated.accounts == state.accounts.len(),
{
}

/// A key lies between bounds exactly if its number does, the upper bound excluded.
pub proof fn lemma_bounds_are_numeric(key: B256, start: B256, end: Option<B256>)
    ensures
        in_bounds(key, (start, end)) <==> be_value(start.0@) <= be_value(key.0@) && (
        end matches Some(end) ==> be_value(key.0@) < be_value(end.0@)),
{
    lemma_lex_is_value_order(key.0@, start.0@);
    if end is Some {
        lemma_lex_is_value_order(key.0@, (end->0).0@);
    }
}

/// The hash behind a reference of a node is the hash that it holds, where it holds one, or that of
/// the node itself; and the root of leaves is the hash behind the reference of their topmost node.
pub proof fn lemma_hash_behind_a_reference(node: Seq<u8>, leaves: Seq<Leaf>)
    ensures
        reference_hash(node) == hash_behind(node),
        leaves.len() == 0 ==> root_of(leaves) == empty_root(),
        leaves.len() > 0 ==> root_of(leaves) == hash_behind(trie_node(leaves)),
{
}

/// The root branch holds every subtrie at the first nibble of its prefix, by its own root, and
/// nothing at a nibble without a subtrie.
pub proof fn lemma_branch_holds_the_subtries(subtries: Seq<Subtrie>, i: int, n: int)
    requires
        at_first_nibbles(subtries),
        0 <= n < 16,
    ensures
        subtrie_slots(subtries).len() == 16,
        0 <= i < subtries.len() ==> subtrie_slots(subtries)[subtries[i].prefix@[0] as int] == Some(
            subtries[i].root@,
        ),
        (forall|j: int| 0 <= j < subtries.len() ==> (#[trigger] subtries[j]).prefix@[0] != n)
            ==> subtrie_slots(subtries)[n] is None,
{
    if 0 <= i < subtries.len() {
        let m = subtries[i].prefix@[0] as int;
        assert(has_nibble(subtries, i, m));
        let k = choose|k: int| has_nibble(subtries, k, m);
        assert(has_nibble(subtries, k, m));
        if i < k {
            assert(subtries[i].prefix@[0] < subtries[k].prefix@[0]);
        } else if k < i {
            assert(subtries[k].prefix@[0] < subtries[i].prefix@[0]);
        }
        assert(subtries[i].prefix@[0] < 16);
    }
    if forall|j: int| 0 <= j < subtries.len() ==> (#[trigger] subtries[j]).prefix@[0] != n {
        assert forall|j: int| !has_nibble(subtries, j, n) by {
            if has_nibble(subtries, j, n) {
                assert(subtries[j].prefix@[0] != n);
            }
        }
    }
}

/// The leaves of a state are those of all its accounts, and the leaves under a prefix are those of
/// them that start with it, without it.
pub proof fn lemma_state_leaves_are_those_of_all_accounts(state: StateView, prefix: Seq<u8>)
    ensures
        state_leaves(state) == account_leaves(state, state.accounts),
        leaves_under(state, prefix) == starting_with(
            account_leaves(state, state.accounts),
            prefix,
        ),
{
    lemma_parts_are_whole(account_leaves(state, state.accounts), prefix);
}

/// What was handed out of a storage trie when its rows were left after the first `n`: the branch
/// nodes that a builder has finished with the slots that hold a value among these, all but one at
/// the root, as they are but without a root hash.
pub proof fn lemma_left_storage_is_what_was_read(
    account: B256,
    rows: Seq<(B256, U256)>,
    n: int,
    whose: Option<B256>,
    path: Seq<u8>,
)
    ensures
        ({
            let leaves = set_slots(rows.take(n));
            let nodes = storage_nodes_up_to(account, rows, n);
            &&& nodes.contains_key((whose, path)) <==> whose == Some(account) && path.len() > 0
                && leaves.len() > 0 && open_nodes(leaves).contains_key(path)
            &&& nodes.contains_key((whose, path)) ==> nodes[(whose, path)] == (BranchView {
                root_hash: None,
                ..open_nodes(leaves)[path]
            })
        }),
{
    lemma_leaves_are_the_set_slots(rows.take(n));
    assert(path.take(0) =~= Seq::<u8>::empty());
    assert(path.skip(0) =~= path);
}

/// What was handed out of a subtrie that was left: of the state trie, the branch nodes that a
/// builder has finished with the first `m` accounts below the prefix; of the storage tries below the
/// prefix, all stored nodes of those of the first `s` accounts, and of the next one what its first
/// `n` slots finish.
pub proof fn lemma_left_subtrie_is_what_was_read(
    state: StateView,
    prefix: Seq<u8>,
    m: int,
    s: int,
    n: int,
    account: B256,
    path: Seq<u8>,
)
    requires
        ascending(state.accounts),
        0 <= s <= state.accounts.len(),
    ensures
        ({
            let leaves = starting_with(account_leaves(state, state.accounts.take(m)), prefix);
            let nodes = subtrie_nodes_up_to(state, prefix, m, s, n);
            let slots = state.slots(account);
            let k = (Some(account), path);
            let read = exists|i: int| 0 <= i < s && (#[trigger] state.accounts[i]).0 == account;
            let next = s < state.accounts.len() && state.accounts[s].0 == account;
            &&& nodes.contains_key((None, prefix + path)) <==> prefix.len() + path.len() > 0
                && leaves.len() > 0 && open_nodes(leaves).contains_key(path)
            &&& nodes.contains_key((None, prefix + path)) ==> nodes[(None, prefix + path)] == (
            BranchView { root_hash: None, ..open_nodes(leaves)[path] })
            &&& nodes.contains_key((None, path)) ==> prefix.is_prefix_of(path)
            &&& !(read && next)
            &&& nodes.contains_key(k) <==> prefix.is_prefix_of(unpacked(account.0@)) && (read
                && storage_nodes(account, slots).contains_key(k) || next && storage_nodes_up_to(
                account,
                slots,
                n,
            ).contains_key(k))
            &&& nodes.contains_key(k) && read ==> nodes[k] == storage_nodes(account, slots)[k]
            &&& nodes.contains_key(k) && next ==> nodes[k] == storage_nodes_up_to(
                account,
                slots,
                n,
            )[k]
        }),
{
    let rows = state.accounts;
    let all = account_leaves(state, rows.take(m));
    let nodes = subtrie_nodes_up_to(state, prefix, m, s, n);
    let own = rekeyed(None, prefix, finished_nodes(under(all, prefix)));
    let slots = state.slots(account);
    let k = (Some(account), path);
    lemma_parts_are_whole(all, prefix);
    lemma_nodes_keep_their_place(None, prefix, finished_nodes(under(all, prefix)), None, path);
    lemma_starts_with_means(path, prefix);
    lemma_starts_with_means(unpacked(account.0@), prefix);
    assert(own.contains_key((None, prefix + path)) == nodes.contains_key((None, prefix + path)));
    assert(own.contains_key((None, path)) == nodes.contains_key((None, path)));
    let read = exists|i: int| 0 <= i < s && (#[trigger] rows[i]).0 == account;
    let next = s < rows.len() && rows[s].0 == account;
    if read {
        let i = choose|i: int| 0 <= i < s && (#[trigger] rows[i]).0 == account;
        assert(rows.take(s)[i].0 == account);
        assert(has_row(rows.take(s), account));
        if next {
            assert(rows[i].0.before(rows[s].0));
            lemma_lex_is_value_order(account.0@, account.0@);
        }
    }
    if has_row(rows.take(s), account) {
        let i = choose|i: int|
            0 <= i < rows.take(s).len() && (#[trigger] rows.take(s)[i]).0 == account;
        assert(rows[i].0 == account);
    }
    let finished = storages_nodes(state, rows.take(s), prefix);
    assert(finished.contains_key(k) <==> read && prefix.is_prefix_of(unpacked(account.0@))
        && storage_nodes(account, slots).contains_key(k));
    if s < rows.len() {
        let part = storage_nodes_up_to(rows[s].0, state.slots(rows[s].0), n);
        assert(part.contains_key(k) ==> next);
    }
}

/// What was handed out when a generation was left: of a serial one, part of the whole trie; of a
/// partitioned one, all nodes of the partitions before the nibble and part of the one at it, and all
/// nodes where the partitions were complete.
pub proof fn lemma_left_generation_is_what_was_read(
    state: StateView,
    nibble: u8,
    m: int,
    s: int,
    n: int,
    account: Option<B256>,
    path: Seq<u8>,
)
    requires
        nibble < 16,
        path.len() > 0,
    ensures
        nodes_up_to(state, false, nibble as int, m, s, n) == subtrie_nodes_up_to(
            state,
            Seq::empty(),
            m,
            s,
            n,
        ),
        nodes_up_to(state, true, 16, m, s, n) == state_nodes(state),
        ({
            let nodes = nodes_up_to(state, true, nibble as int, m, s, n);
            let part = subtrie_nodes_up_to(state, seq![nibble], m, s, n);
            let first = match account {
                None => path[0],
                Some(address) => unpacked(address.0@)[0],
            };
            let k = (account, path);
            &&& nodes.contains_key(k) <==> state_nodes(state).contains_key(k) && first < nibble
                || part.contains_key(k)
            &&& part.contains_key(k) ==> nodes[k] == part[k]
            &&& nodes.contains_key(k) && !part.contains_key(k) ==> nodes[k] == state_nodes(state)[k]
        }),
{
}

/// A subtrie is left at one of its accounts, or right behind it, at one of its slots.
pub proof fn lemma_left_at_an_account(state: StateView, m: int, s: int, n: int)
    requires
        is_left_at(state, m, s, n),
    ensures
        0 <= m <= state.accounts.len(),
        s == m || s == m + 1,
        s <= state.accounts.len(),
        n >= 0,
        n == 0 || (s < state.accounts.len() && n <= state.slots(state.accounts[s].0).len()),
{
}

/// A sink that takes every node can be used for every subtrie.
pub proof fn lemma_open_sink_is_good_for_all<S: OnNode>(sink: S, prefix: Seq<u8>)
    requires
        forall|a: Option<B256>, p: Seq<u8>| #[trigger] sink.accepts(a, p),
    ensures
        accepts_under(sink, prefix),
{
}

} // verus!
