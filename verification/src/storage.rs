//! Per-account storage trie construction.

use crate::builder::{
    add_leaf, builder_closed, builder_leaves, builder_nodes, close_builder, finished_nodes, full_leaves,
    new_builder, no_nodes, nodes_of, open_nodes, root_of, trie_nodes, Leaf, Nodes,
};
use crate::bytes::lex_lt;
use crate::cursor::{ascending, row_at, DatabaseError, HashedCursor};
use crate::emit::{emit_completed, lemma_rekeyed_union, rekeyed};
use crate::nibbles::{lemma_unpacked_is_path, lemma_unpacked_order, unpacked, Nibbles};
use crate::primitives::{lemma_zero_is_first, B256, U256};
use crate::rlp::{empty_root_hash, encode_number, rlp_number};
use crate::sink::{grows, lemma_takes_both, lemma_takes_nothing, takes, NodeSet, OnNode};
use vstd::prelude::*;

verus! {

/// The leaves of a storage trie: the slots that are not zero.
pub open spec fn slot_leaves(rows: Seq<(B256, U256)>) -> Seq<Leaf>
    decreases rows.len(),
{
    if rows.len() == 0 {
        Seq::empty()
    } else {
        let rest = slot_leaves(rows.drop_last());
        let (slot, value) = rows.last();
        if value.value() == 0 {
            rest
        } else {
            rest.push((unpacked(slot.bytes()), rlp_number(value.bytes())))
        }
    }
}

/// The root of a storage trie.
pub open spec fn storage_root(rows: Seq<(B256, U256)>) -> Seq<u8> {
    root_of(slot_leaves(rows))
}

/// The stored nodes of the storage trie of an account.
pub open spec fn storage_nodes(hashed_address: B256, rows: Seq<(B256, U256)>) -> NodeSet {
    rekeyed(Some(hashed_address), Seq::empty(), nodes_of(slot_leaves(rows)))
}

/// The stored nodes of the storage trie of an account that are finished once the first `n` rows were
/// read.
pub open spec fn storage_nodes_up_to(
    hashed_address: B256,
    rows: Seq<(B256, U256)>,
    n: int,
) -> NodeSet {
    rekeyed(Some(hashed_address), Seq::empty(), finished_nodes(slot_leaves(rows.take(n))))
}

/// Before the first row nothing is finished.
pub proof fn lemma_nothing_finished(hashed_address: B256, rows: Seq<(B256, U256)>)
    ensures
        storage_nodes_up_to(hashed_address, rows, 0) =~= Map::empty(),
{
    assert(rows.take(0) =~= Seq::empty());
}

/// Whether all leaves come before `key`.
spec fn leaves_before(leaves: Seq<Leaf>, key: Seq<u8>) -> bool {
    forall|i: int| 0 <= i < leaves.len() ==> lex_lt(#[trigger] leaves[i].0, key)
}

proof fn lemma_slots_before(rows: Seq<(B256, U256)>, key: B256)
    requires
        forall|i: int| 0 <= i < rows.len() ==> (#[trigger] rows[i]).0.before(key),
    ensures
        leaves_before(slot_leaves(rows), unpacked(key.bytes())),
    decreases rows.len(),
{
    if rows.len() > 0 {
        let rest = rows.drop_last();
        assert forall|i: int| 0 <= i < rest.len() implies (#[trigger] rest[i]).0.before(key) by {
            assert(rest[i] == rows[i]);
        }
        lemma_slots_before(rest, key);
        let last = rows[rows.len() - 1].0;
        lemma_unpacked_order(last.bytes(), key.bytes());
    }
}

/// The non-zero slots in key order are the leaves of a trie.
pub proof fn lemma_slot_leaves(rows: Seq<(B256, U256)>)
    requires
        ascending(rows),
    ensures
        full_leaves(slot_leaves(rows)),
    decreases rows.len(),
{
    if rows.len() > 0 {
        let rest = rows.drop_last();
        lemma_slot_leaves(rest);
        let key = rows.last().0;
        lemma_slots_before(rest, key);
        lemma_unpacked_is_path(key);
    }
}

/// A sink that has taken some nodes of a storage trie still accepts the others.
proof fn lemma_accepts_new<S: OnNode>(first: S, now: S, hashed_address: B256, done: Nodes)
    requires
        takes(first, now, rekeyed(Some(hashed_address), Seq::empty(), done)),
        forall|p: Seq<u8>| p.len() > 0 ==> #[trigger] first.accepts(Some(hashed_address), p),
    ensures
        forall|p: Seq<u8>|
            p.len() > 0 && !done.contains_key(p) ==> #[trigger] now.accepts(
                Some(hashed_address),
                Seq::<u8>::empty() + p,
            ),
{
    assert forall|p: Seq<u8>| p.len() > 0 && !done.contains_key(p) implies #[trigger] now.accepts(
        Some(hashed_address),
        Seq::<u8>::empty() + p,
    ) by {
        assert(Seq::<u8>::empty() + p =~= p);
        assert(first.accepts(Some(hashed_address), p));
        assert(p.skip(0) =~= p);
    }
}

/// Builds the storage trie of `hashed_address` by walking `cursor` from the start, hands its
/// branch nodes to `on_node`, and returns the storage root.
///
/// Zero-valued entries are skipped. An empty storage yields the root of an empty trie and emits
/// nothing. The storage trie's root branch node (empty path) is never emitted.
pub fn storage_root_with_nodes<C: HashedCursor<Value = U256>, S: OnNode>(
    hashed_address: B256,
    cursor: &mut C,
    on_node: &mut S,
) -> (r: Result<B256, DatabaseError>)
    requires
        ascending(old(cursor).rows()),
        forall|p: Seq<u8>| p.len() > 0 ==> #[trigger] old(on_node).accepts(Some(hashed_address), p),
    ensures
        final(cursor).rows() == old(cursor).rows(),
        grows(*old(on_node), *final(on_node)),
        r matches Err(e) ==> old(cursor).fails_with(e),
        r is Err ==> exists|n: int|
            0 <= n <= old(cursor).rows().len() && takes(
                *old(on_node),
                *final(on_node),
                #[trigger] storage_nodes_up_to(hashed_address, old(cursor).rows(), n),
            ),
        r matches Ok(root) ==> {
            &&& root.bytes() == storage_root(old(cursor).rows())
            &&& takes(
                *old(on_node),
                *final(on_node),
                storage_nodes(hashed_address, old(cursor).rows()),
            )
        },
{
    let ghost rows = cursor.rows();
    let ghost account = Some(hashed_address);
    let prefix = Nibbles::new();
    let zero = B256::zero();
    // Positions the cursor on the first slot; `None` means the account has no storage.
    let mut entry = match cursor.seek(zero) {
        Ok(entry) => entry,
        Err(e) => {
            proof {
                lemma_nothing_finished(hashed_address, rows);
                lemma_takes_nothing(*on_node, storage_nodes_up_to(hashed_address, rows, 0));
            }
            return Err(e);
        },
    };
    proof {
        if cursor.position() > 0 {
            lemma_zero_is_first(rows[0].0, zero);
        }
    }
    if entry.is_none() {
        proof {
            lemma_takes_nothing(*on_node, storage_nodes(hashed_address, rows));
        }
        return Ok(empty_root_hash());
    }
    let mut hb = new_builder();
    proof {
        assert(rows.take(0) =~= Seq::empty());
        lemma_takes_nothing(
            *on_node,
            rekeyed(account, prefix@, open_nodes(builder_leaves(hb))),
        );
    }
    while entry.is_some()
        invariant
            account == Some(hashed_address),
            rows == old(cursor).rows(),
            ascending(rows),
            cursor.rows() == rows,
            forall|e: DatabaseError| #[trigger]
                cursor.fails_with(e) ==> old(cursor).fails_with(e),
            0 <= cursor.position() <= rows.len(),
            entry == row_at(rows, cursor.position()),
            prefix@ == Seq::<u8>::empty(),
            !builder_closed(hb),
            builder_leaves(hb) == slot_leaves(rows.take(cursor.position())),
            open_nodes(Seq::empty()) == no_nodes(),
            builder_nodes(hb) == no_nodes(),
            takes(
                *old(on_node),
                *on_node,
                rekeyed(account, prefix@, open_nodes(builder_leaves(hb))),
            ),
            forall|p: Seq<u8>|
                p.len() > 0 ==> #[trigger] old(on_node).accepts(Some(hashed_address), p),
        decreases rows.len() - cursor.position(),
    {
        let (hashed_slot, value) = entry.unwrap();
        let ghost at = cursor.position();
        proof {
            assert(rows.take(at + 1).drop_last() =~= rows.take(at));
            assert(rows.take(at + 1).last() == rows[at]);
        }
        if !value.is_zero() {
            let key = Nibbles::unpack(&hashed_slot);
            let rlp = encode_number(&value);
            let ghost done = open_nodes(builder_leaves(hb));
            let ghost before = *on_node;
            proof {
                lemma_slot_leaves(rows.take(at + 1));
            }
            add_leaf(&mut hb, &key, rlp.as_slice());
            let ghost all = open_nodes(builder_leaves(hb));
            proof {
                assert(builder_nodes(hb) =~= all.remove_keys(done.dom()));
                lemma_rekeyed_union(account, prefix@, done, all);
                lemma_accepts_new(*old(on_node), before, hashed_address, done);
            }
            emit_completed(&mut hb, Some(hashed_address), &prefix, on_node);
            proof {
                lemma_takes_both(
                    *old(on_node),
                    before,
                    *on_node,
                    rekeyed(account, prefix@, done),
                    rekeyed(account, prefix@, all.remove_keys(done.dom())),
                    rekeyed(account, prefix@, all),
                );
            }
        }
        entry = match cursor.next() {
            Ok(entry) => entry,
            Err(e) => {
                proof {
                    assert(builder_leaves(hb) == slot_leaves(rows.take(at + 1)));
                    if builder_leaves(hb).len() == 0 {
                        assert(builder_leaves(hb) =~= Seq::empty());
                    }
                    assert(takes(
                        *old(on_node),
                        *on_node,
                        storage_nodes_up_to(hashed_address, rows, at + 1),
                    ));
                }
                return Err(e);
            },
        };
    }
    let ghost done = open_nodes(builder_leaves(hb));
    let ghost before = *on_node;
    let root = close_builder(&mut hb);
    let ghost all = trie_nodes(builder_leaves(hb));
    proof {
        assert(rows.take(rows.len() as int) =~= rows);
        lemma_slot_leaves(rows);
        assert(builder_nodes(hb) =~= all.remove_keys(done.dom()));
        lemma_rekeyed_union(account, prefix@, done, all);
        lemma_accepts_new(*old(on_node), before, hashed_address, done);
    }
    emit_completed(&mut hb, Some(hashed_address), &prefix, on_node);
    proof {
        lemma_takes_both(
            *old(on_node),
            before,
            *on_node,
            rekeyed(account, prefix@, done),
            rekeyed(account, prefix@, all.remove_keys(done.dom())),
            rekeyed(account, prefix@, all),
        );
    }
    Ok(root)
}

} // verus!
