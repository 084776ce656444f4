//! Handing finished branch nodes out of a builder as it runs.

use crate::builder::{
    builder_closed, builder_leaves, builder_nodes, drain_nodes, lists_nodes, no_nodes, Nodes,
};
use crate::nibbles::{starts_with, Nibbles};
use crate::node::{stored, BranchNodeCompact};
use crate::primitives::B256;
use crate::sink::{
    lemma_takes_both, lemma_takes_nothing, lemma_takes_one, takes, NodeSet, OnNode,
};
use alloy_trie::HashBuilder;
use vstd::prelude::*;

verus! {

/// The nodes of a builder over keys without `prefix`, at their absolute paths in the trie of
/// `account`. The root node of the whole trie is left out, and no node has a root hash.
pub open spec fn rekeyed(account: Option<B256>, prefix: Seq<u8>, nodes: Nodes) -> NodeSet {
    Map::new(
        |k: (Option<B256>, Seq<u8>)|
            k.0 == account && k.1.len() > 0 && starts_with(k.1, prefix) && nodes.contains_key(
                k.1.skip(prefix.len() as int),
            ),
        |k: (Option<B256>, Seq<u8>)| stored(nodes[k.1.skip(prefix.len() as int)]),
    )
}

/// One more node below the prefix.
proof fn lemma_rekeyed_insert(
    account: Option<B256>,
    prefix: Seq<u8>,
    nodes: Nodes,
    path: Seq<u8>,
    node: crate::node::BranchView,
)
    requires
        !nodes.contains_key(path),
    ensures
        prefix.len() + path.len() > 0 ==> rekeyed(account, prefix, nodes.insert(path, node))
            =~= rekeyed(account, prefix, nodes).insert((account, prefix + path), stored(node)),
        prefix.len() + path.len() > 0 ==> !rekeyed(account, prefix, nodes).contains_key(
            (account, prefix + path),
        ),
        prefix.len() + path.len() == 0 ==> rekeyed(account, prefix, nodes.insert(path, node))
            =~= rekeyed(account, prefix, nodes),
{
    let n = prefix.len() as int;
    let abs = prefix + path;
    assert(abs.skip(n) =~= path);
    assert(abs.take(n) =~= prefix);
    assert forall|p: Seq<u8>| starts_with(p, prefix) && #[trigger] p.skip(n) == path implies p
        == abs by {
        assert(p =~= p.take(n) + p.skip(n));
    }
}

/// More nodes below the prefix.
pub proof fn lemma_rekeyed_union(
    account: Option<B256>,
    prefix: Seq<u8>,
    a: Nodes,
    b: Nodes,
)
    requires
        a.submap_of(b),
    ensures
        rekeyed(account, prefix, b) =~= rekeyed(account, prefix, a).union_prefer_right(
            rekeyed(account, prefix, b.remove_keys(a.dom())),
        ),
        rekeyed(account, prefix, a).dom().disjoint(
            rekeyed(account, prefix, b.remove_keys(a.dom())).dom(),
        ),
{
}

/// Hands every branch node the builder has finished so far to `on_node` and forgets it, keeping
/// the builder's memory bounded by the trie depth rather than the trie size.
///
/// `account` is `None` for the state trie and `Some(hashed_address)` for a storage trie. The
/// builder runs over keys without `prefix`, which goes back in front of every path. A node at the
/// empty path is a whole-trie root, which is never stored, so it is skipped.
pub(crate) fn emit_completed<S: OnNode>(
    hb: &mut HashBuilder,
    account: Option<B256>,
    prefix: &Nibbles,
    on_node: &mut S,
)
    requires
        forall|p: Seq<u8>| #[trigger]
            builder_nodes(*old(hb)).contains_key(p) ==> {
                &&& prefix@.len() + p.len() <= 64
                &&& prefix@.len() + p.len() > 0 ==> old(on_node).accepts(account, prefix@ + p)
            },
    ensures
        takes(*old(on_node), *final(on_node), rekeyed(account, prefix@, builder_nodes(*old(hb)))),
        builder_nodes(*final(hb)) == no_nodes(),
        builder_leaves(*final(hb)) == builder_leaves(*old(hb)),
        builder_closed(*final(hb)) == builder_closed(*old(hb)),
{
    let ghost all = builder_nodes(*hb);
    let mut completed = drain_nodes(hb);
    let ghost entries = completed@.map_values(|e: (Nibbles, BranchNodeCompact)| (e.0@, e.1@));
    let ghost mut done: Nodes = Map::empty();
    proof {
        lemma_takes_nothing(*on_node, rekeyed(account, prefix@, done));
    }
    while completed.len() > 0
        invariant
            lists_nodes(entries, all),
            completed@.len() <= entries.len(),
            forall|i: int|
                0 <= i < completed@.len() ==> entries[i] == (
                    (#[trigger] completed@[i]).0@,
                    completed@[i].1@,
                ),
            forall|p: Seq<u8>| #[trigger] done.contains_key(p) ==> all.contains_key(p) && done[p]
                == all[p],
            forall|i: int|
                completed@.len() <= i < entries.len() ==> done.contains_key(#[trigger] entries[i].0),
            forall|i: int|
                0 <= i < completed@.len() ==> !done.contains_key(#[trigger] entries[i].0),
            takes(*old(on_node), *on_node, rekeyed(account, prefix@, done)),
            forall|p: Seq<u8>| #[trigger]
                all.contains_key(p) ==> {
                    &&& prefix@.len() + p.len() <= 64
                    &&& prefix@.len() + p.len() > 0 ==> old(on_node).accepts(account, prefix@ + p)
                },
        decreases completed@.len(),
    {
        let ghost k = completed@.len() - 1;
        let (path, mut node) = completed.pop().unwrap();
        proof {
            assert(entries[k] == (path@, node@));
            assert(all.contains_key(entries[k].0));
            lemma_rekeyed_insert(account, prefix@, done, path@, node@);
        }
        let ghost before = *on_node;
        let ghost set = rekeyed(account, prefix@, done);
        let ghost view = node@;
        if prefix.len() + path.len() > 0 {
            node.root_hash = None;
            assert(node@ =~= stored(view));
            let absolute = prefix.join(&path);
            on_node.on_node(account, absolute, node);
            proof {
                lemma_takes_one(before, *on_node, account, prefix@ + path@, stored(view));
                let one = Map::empty().insert((account, prefix@ + path@), stored(view));
                let both = rekeyed(account, prefix@, done.insert(path@, view));
                assert(both =~= set.union_prefer_right(one));
                lemma_takes_both(*old(on_node), before, *on_node, set, one, both);
            }
        }
        proof {
            done = done.insert(path@, view);
            assert forall|i: int| 0 <= i < completed@.len() implies !done.contains_key(
                #[trigger] entries[i].0,
            ) by {
                assert(entries[i].0 != entries[k].0);
            }
        }
    }
    proof {
        assert forall|p: Seq<u8>| all.contains_key(p) implies done.contains_key(p) by {
            let i = choose|i: int| 0 <= i < entries.len() && #[trigger] entries[i].0 == p;
            assert(done.contains_key(entries[i].0));
        }
        assert(done =~= all);
    }
}

} // verus!
