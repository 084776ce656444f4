//! Receivers of finished branch nodes.

use crate::nibbles::Nibbles;
use crate::node::{BranchNodeCompact, BranchView};
use crate::primitives::B256;
use vstd::prelude::*;

verus! {

/// A branch node of the state trie (`None`) or of an account's storage trie, at its path.
pub type Entry = (Option<B256>, Seq<u8>, BranchView);

/// Branch nodes by trie and path.
pub type NodeSet = Map<(Option<B256>, Seq<u8>), BranchView>;

/// Receives every stored branch node as `(account, path, node)`: `account` is `None` for the state
/// trie and `Some(hashed_address)` for that account's storage trie; `path` is absolute within that
/// trie and not empty.
///
/// Of what a sink has received nothing is known but what its type says of it: a verified sink
/// defines `log`, and `accepts` where it does not take every node.
pub trait OnNode: Sized {
    /// The nodes received so far.
    open spec fn log(&self) -> Seq<Entry> {
        arbitrary()
    }

    /// Whether a node at this place can be received.
    open spec fn accepts(&self, account: Option<B256>, path: Seq<u8>) -> bool {
        true
    }

    /// Takes a node.
    fn on_node(&mut self, account: Option<B256>, path: Nibbles, node: BranchNodeCompact)
        requires
            path@.len() > 0,
            old(self).accepts(account, path@),
        ensures
            final(self).log() == old(self).log().push((account, path@, node@)),
            forall|a: Option<B256>, p: Seq<u8>|
                old(self).accepts(a, p) && (a != account || p != path@)
                    ==> #[trigger] final(self).accepts(a, p),
    ;
}

/// The place of the entry `i`.
pub open spec fn place(list: Seq<Entry>, i: int) -> (Option<B256>, Seq<u8>) {
    (list[i].0, list[i].1)
}

/// Whether a node at this place is in the list.
pub open spec fn listed(list: Seq<Entry>, account: Option<B256>, path: Seq<u8>) -> bool {
    exists|i: int| 0 <= i < list.len() && #[trigger] place(list, i) == (account, path)
}

/// Whether the list holds the given nodes, each once.
pub open spec fn lists_all(list: Seq<Entry>, nodes: NodeSet) -> bool {
    &&& forall|i: int|
        0 <= i < list.len() ==> nodes.contains_key(#[trigger] place(list, i)) && nodes[place(
            list,
            i,
        )] == list[i].2
    &&& forall|k: (Option<B256>, Seq<u8>)| #[trigger]
        nodes.contains_key(k) ==> listed(list, k.0, k.1)
    &&& forall|i: int, j: int|
        0 <= i < j < list.len() ==> #[trigger] place(list, i) != #[trigger] place(list, j)
}

/// What a sink received between two states.
pub open spec fn received<S: OnNode>(before: S, after: S) -> Seq<Entry> {
    after.log().skip(before.log().len() as int)
}

/// Whether `after` comes of `before` by taking nodes only.
pub open spec fn grows<S: OnNode>(before: S, after: S) -> bool {
    before.log().is_prefix_of(after.log())
}

/// Whether `after` comes of `before` by taking the given nodes, each once: what it accepted before
/// it still accepts, but for the places of these nodes.
pub open spec fn takes<S: OnNode>(before: S, after: S, nodes: NodeSet) -> bool {
    &&& grows(before, after)
    &&& lists_all(received(before, after), nodes)
    &&& forall|a: Option<B256>, p: Seq<u8>|
        before.accepts(a, p) && !nodes.contains_key((a, p)) ==> #[trigger] after.accepts(a, p)
}

/// An empty list holds no nodes.
pub proof fn lemma_lists_nothing(nodes: NodeSet)
    requires
        nodes =~= Map::empty(),
    ensures
        lists_all(Seq::empty(), nodes),
{
}

/// A sink that stays as it is has taken no nodes.
pub proof fn lemma_takes_nothing<S: OnNode>(sink: S, nodes: NodeSet)
    requires
        nodes =~= Map::empty(),
    ensures
        takes(sink, sink, nodes),
{
    assert(received(sink, sink) =~= Seq::empty());
    lemma_lists_nothing(nodes);
}

/// One more node at a new place.
pub proof fn lemma_lists_push(list: Seq<Entry>, nodes: NodeSet, entry: Entry)
    requires
        lists_all(list, nodes),
        !nodes.contains_key((entry.0, entry.1)),
    ensures
        lists_all(list.push(entry), nodes.insert((entry.0, entry.1), entry.2)),
{
    let more = list.push(entry);
    let set = nodes.insert((entry.0, entry.1), entry.2);
    assert forall|i: int| 0 <= i < more.len() implies set.contains_key(#[trigger] place(more, i))
        && set[place(more, i)] == more[i].2 by {
        if i < list.len() {
            assert(place(more, i) == place(list, i));
        }
    }
    assert forall|k: (Option<B256>, Seq<u8>)| #[trigger] set.contains_key(k) implies listed(
        more,
        k.0,
        k.1,
    ) by {
        if nodes.contains_key(k) {
            let i = choose|i: int| 0 <= i < list.len() && #[trigger] place(list, i) == (k.0, k.1);
            assert(place(more, i) == (k.0, k.1));
        } else {
            assert(place(more, list.len() as int) == (k.0, k.1));
        }
    }
    assert forall|i: int, j: int| 0 <= i < j < more.len() implies #[trigger] place(more, i)
        != #[trigger] place(more, j) by {
        assert(place(more, i) == place(list, i));
        assert(nodes.contains_key(place(list, i)));
        if j < list.len() {
            assert(place(more, j) == place(list, j));
        }
    }
}

/// A list determines the nodes it holds.
pub proof fn lemma_lists_same(list: Seq<Entry>, a: NodeSet, b: NodeSet)
    requires
        lists_all(list, a),
        lists_all(list, b),
    ensures
        a == b,
{
    assert forall|k: (Option<B256>, Seq<u8>)|
        #![trigger a.dom().contains(k)]
        #![trigger b.dom().contains(k)]
        #![trigger a[k]]
        a.dom().contains(k) == b.dom().contains(k) && (a.dom().contains(k) ==> a[k] == b[k]) by {
        if a.contains_key(k) {
            let i = choose|i: int| 0 <= i < list.len() && #[trigger] place(list, i) == (k.0, k.1);
            assert(b.contains_key(place(list, i)));
        }
        if b.contains_key(k) {
            let i = choose|i: int| 0 <= i < list.len() && #[trigger] place(list, i) == (k.0, k.1);
            assert(a.contains_key(place(list, i)));
        }
    }
    assert(a =~= b);
}

/// Two lists of the same nodes hold the same entries, in whatever order.
pub proof fn lemma_same_entries(x: Seq<Entry>, y: Seq<Entry>, nodes: NodeSet)
    requires
        lists_all(x, nodes),
        lists_all(y, nodes),
    ensures
        x.to_multiset() == y.to_multiset(),
{
    lemma_entry_once(x, nodes);
    lemma_entry_once(y, nodes);
    assert forall|e: Entry| x.to_multiset().count(e) == y.to_multiset().count(e) by {}
    assert(x.to_multiset() =~= y.to_multiset());
}

proof fn lemma_entry_once(list: Seq<Entry>, nodes: NodeSet)
    requires
        lists_all(list, nodes),
    ensures
        forall|e: Entry|
            #[trigger] list.to_multiset().count(e) == if nodes.contains_key((e.0, e.1))
                && nodes[(e.0, e.1)] == e.2 {
                1nat
            } else {
                0nat
            },
{
    broadcast use vstd::seq_lib::group_to_multiset_ensures;

    assert forall|i: int, j: int| 0 <= i < list.len() && 0 <= j < list.len() && i
        != j implies list[i] != list[j] by {
        if i < j {
            assert(place(list, i) != place(list, j));
        } else {
            assert(place(list, j) != place(list, i));
        }
    }
    assert(list.no_duplicates());
    list.lemma_multiset_has_no_duplicates();
    assert forall|e: Entry|
        #[trigger] list.to_multiset().count(e) == if nodes.contains_key((e.0, e.1)) && nodes[(
            e.0,
            e.1,
        )] == e.2 {
            1nat
        } else {
            0nat
        } by {
        if nodes.contains_key((e.0, e.1)) && nodes[(e.0, e.1)] == e.2 {
            assert(listed(list, e.0, e.1));
            let i = choose|i: int| 0 <= i < list.len() && #[trigger] place(list, i) == (e.0, e.1);
            assert(list[i] == e);
            assert(list.contains(e));
        } else if list.contains(e) {
            let i = choose|i: int| 0 <= i < list.len() && list[i] == e;
            assert(nodes.contains_key(place(list, i)));
        }
    }
}

/// Two lists of different nodes in a row hold all of them.
pub proof fn lemma_lists_both(l: Seq<Entry>, m: Seq<Entry>, x: NodeSet, y: NodeSet)
    requires
        lists_all(l, x),
        lists_all(m, y),
        x.dom().disjoint(y.dom()),
    ensures
        lists_all(l + m, x.union_prefer_right(y)),
{
    let n = l + m;
    let xy = x.union_prefer_right(y);
    assert forall|i: int| 0 <= i < n.len() implies xy.contains_key(#[trigger] place(n, i))
        && xy[place(n, i)] == n[i].2 by {
        if i < l.len() {
            assert(place(n, i) == place(l, i));
            assert(x.dom().contains(place(l, i)));
            assert(!y.dom().contains(place(l, i)));
        } else {
            assert(place(n, i) == place(m, i - l.len()));
        }
    }
    assert forall|k: (Option<B256>, Seq<u8>)| #[trigger] xy.contains_key(k) implies listed(
        n,
        k.0,
        k.1,
    ) by {
        if x.contains_key(k) {
            let i = choose|i: int| 0 <= i < l.len() && #[trigger] place(l, i) == (k.0, k.1);
            assert(place(n, i) == (k.0, k.1));
        } else {
            assert(y.contains_key(k));
            let i = choose|i: int| 0 <= i < m.len() && #[trigger] place(m, i) == (k.0, k.1);
            assert(place(n, i + l.len()) == (k.0, k.1));
        }
    }
    assert forall|i: int, j: int| 0 <= i < j < n.len() implies #[trigger] place(n, i)
        != #[trigger] place(n, j) by {
        if j < l.len() {
            assert(place(l, i) != place(l, j));
        } else if i >= l.len() {
            assert(place(m, i - l.len()) != place(m, j - l.len()));
        } else {
            assert(x.dom().contains(place(l, i)));
            assert(y.dom().contains(place(m, j - l.len())));
        }
    }
}

/// Taking some nodes and then others is taking all of them.
pub proof fn lemma_takes_both<S: OnNode>(a: S, b: S, c: S, x: NodeSet, y: NodeSet, xy: NodeSet)
    requires
        takes(a, b, x),
        takes(b, c, y),
        x.dom().disjoint(y.dom()),
        xy =~= x.union_prefer_right(y),
    ensures
        takes(a, c, xy),
{
    let (l, m, n) = (received(a, b), received(b, c), received(a, c));
    assert(n =~= l + m);
    lemma_lists_both(l, m, x, y);
    assert forall|q: Option<B256>, p: Seq<u8>|
        a.accepts(q, p) && !xy.contains_key((q, p)) implies #[trigger] c.accepts(q, p) by {
        assert(b.accepts(q, p));
    }
}

/// Taking one node.
pub proof fn lemma_takes_one<S: OnNode>(
    a: S,
    b: S,
    account: Option<B256>,
    path: Seq<u8>,
    node: BranchView,
)
    requires
        b.log() == a.log().push((account, path, node)),
        forall|q: Option<B256>, p: Seq<u8>|
            a.accepts(q, p) && (q != account || p != path) ==> #[trigger] b.accepts(q, p),
    ensures
        takes(a, b, Map::empty().insert((account, path), node)),
{
    let l = received(a, b);
    assert(l =~= seq![(account, path, node)]);
    assert(place(l, 0) == (account, path));
}

/// A sink that takes every node and keeps none.
pub struct Discard {
    log: Ghost<Seq<Entry>>,
}

impl Discard {
    /// A sink without nodes.
    pub fn new() -> (r: Discard)
        ensures
            r.log() == Seq::<Entry>::empty(),
    {
        Discard { log: Ghost(Seq::empty()) }
    }
}

impl OnNode for Discard {
    closed spec fn log(&self) -> Seq<Entry> {
        self.log@
    }

    open spec fn accepts(&self, account: Option<B256>, path: Seq<u8>) -> bool {
        true
    }

    fn on_node(&mut self, account: Option<B256>, path: Nibbles, node: BranchNodeCompact) {
        self.log = Ghost(self.log@.push((account, path@, node@)));
    }
}

} // verus!
