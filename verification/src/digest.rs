//! Order-independent digest of an emitted node set, for checking parity without holding the
//! nodes.
//!
//! Every node is hashed with its identity (account, path, masks, hashes) and the hashes are
//! folded with XOR, so the result does not depend on emission order, which differs between
//! partitions, drains and runs. Two node multisets with equal count and equal fold are equal
//! with overwhelming probability.
//!
//! The hash is two seeded foldhash passes, 128 bits: both sides of a parity check are produced
//! by code we control, so a non-cryptographic hash is enough and keeps the digest far cheaper
//! than the keccak work that produced the nodes.

use crate::bytes::{be_bytes, lemma_be_bytes_len, lemma_value_of_bytes, pow256};
use crate::nibbles::{digit, is_path, packed, Nibbles};
use crate::node::BranchNodeCompact;
use crate::ordered::{lists_keys, models, OrderedKey, OrderedMap};
use crate::primitives::{lemma_same_array, B256};
use crate::sink::{
    lemma_same_entries, lemma_takes_both, lemma_takes_nothing, lemma_takes_one, lists_all, received,
    takes, Entry, NodeSet, OnNode,
};
use crate::updates::{StorageTrieUpdates, TrieUpdates};
use std::hash::BuildHasher;
use vstd::prelude::*;

verus! {

/// Seed of the upper half of the hash.
pub const SEED_HIGH: u64 = 0x7472_6965_2d67_656e;

/// Seed of the lower half of the hash.
pub const SEED_LOW: u64 = 0x6e6f_6465_2d64_6967;

/// Whether the seeded hash of `data` can be `hash`.
pub uninterp spec fn may_hash_to(seed: u64, data: Seq<u8>, hash: u64) -> bool;

/// `hash_one` of `foldhash::fast::FixedState`: a hash of the bytes under the seed. It depends on
/// the pointer width and the byte order of the machine, so nothing more is said of its value.
#[verifier::external_body]
fn fold_hash(seed: u64, data: &Vec<u8>) -> (r: u64)
    ensures
        may_hash_to(seed, data@, r),
{
    foldhash::fast::FixedState::with_seed(seed).hash_one(data)
}

/// The bytes of a word, or zeros where there is none.
pub open spec fn word_or_zeros(word: Option<B256>) -> Seq<u8> {
    match word {
        Some(word) => word.bytes(),
        None => Seq::new(32, |i: int| 0u8),
    }
}

/// One byte that tells whether there is a word.
pub open spec fn flag(word: Option<B256>) -> Seq<u8> {
    seq![if word is Some { 1u8 } else { 0u8 }]
}

/// The bytes of the hashes in a row.
pub open spec fn joined(hashes: Seq<B256>) -> Seq<u8>
    decreases hashes.len(),
{
    if hashes.len() == 0 {
        Seq::empty()
    } else {
        joined(hashes.drop_last()) + hashes.last().bytes()
    }
}

/// What identifies the row of a node: account, path, masks, hashes and root hash.
pub open spec fn row_bytes(entry: Entry) -> Seq<u8> {
    let (account, path, node) = entry;
    word_or_zeros(account) + flag(account) + seq![path.len() as u8] + packed(
        path,
        ((path.len() + 1) / 2) as nat,
    ) + be_bytes(node.state_mask as nat, 2) + be_bytes(node.tree_mask as nat, 2) + be_bytes(
        node.hash_mask as nat,
        2,
    ) + joined(node.hashes) + word_or_zeros(node.root_hash) + flag(node.root_hash)
}

/// The XOR of all words.
pub open spec fn xor_all(words: Seq<u64>) -> u64
    decreases words.len(),
{
    if words.len() == 0 {
        0
    } else {
        xor_all(words.drop_last()) ^ words.last()
    }
}

/// Whether the words are the hashes of the entries.
pub open spec fn are_hashes(seed: u64, list: Seq<Entry>, words: Seq<u64>) -> bool {
    &&& words.len() == list.len()
    &&& forall|i: int|
        0 <= i < list.len() ==> may_hash_to(seed, row_bytes(#[trigger] list[i]), words[i])
}

/// Whether `digest` is a digest of the listed nodes.
pub open spec fn is_digest(digest: Digest, list: Seq<Entry>) -> bool {
    exists|high: Seq<u64>, low: Seq<u64>| #[trigger] is_fold(digest, list, high, low)
}

/// Whether `digest` folds the given hashes of the listed nodes.
pub open spec fn is_fold(digest: Digest, list: Seq<Entry>, high: Seq<u64>, low: Seq<u64>) -> bool {
    &&& are_hashes(SEED_HIGH, list, high)
    &&& are_hashes(SEED_LOW, list, low)
    &&& digest.count as int == list.len() % 0x1_0000_0000_0000_0000
    &&& digest.fold == xor_all(high) * 0x1_0000_0000_0000_0000 + xor_all(low)
}

/// Snapshot of a [`NodeDigest`].
#[derive(Clone, Copy, Debug, PartialEq, Eq)]
pub struct Digest {
    /// Number of nodes folded in.
    pub count: u64,
    /// XOR of the per-node 128-bit hashes.
    pub fold: u128,
}

/// Running digest of a node multiset.
pub struct NodeDigest {
    count: u64,
    high: u64,
    low: u64,
    log: Ghost<Seq<Entry>>,
    high_hashes: Ghost<Seq<u64>>,
    low_hashes: Ghost<Seq<u64>>,
}

/// Appends a mask in big-endian order.
fn push_mask(row: &mut Vec<u8>, mask: u16)
    ensures
        final(row)@ == old(row)@ + be_bytes(mask as nat, 2),
{
    proof {
        reveal_with_fuel(be_bytes, 3);
    }
    row.push((mask / 256) as u8);
    row.push((mask % 256) as u8);
    assert(row@ =~= old(row)@ + be_bytes(mask as nat, 2));
}

/// Appends the bytes of a word.
fn push_word(row: &mut Vec<u8>, word: &B256)
    ensures
        final(row)@ == old(row)@ + word.bytes(),
{
    row.extend_from_slice(word.as_slice());
    assert(row@ =~= old(row)@ + word.bytes());
}

/// Appends an optional word, zeros where there is none, and one byte that tells the two apart.
fn push_optional(row: &mut Vec<u8>, word: &Option<B256>)
    ensures
        final(row)@ == old(row)@ + word_or_zeros(*word) + flag(*word),
{
    match word {
        Some(word) => {
            push_word(row, word);
            row.push(1);
        },
        None => {
            push_word(row, &B256::zero());
            row.push(0);
        },
    }
    assert(row@ =~= old(row)@ + word_or_zeros(*word) + flag(*word));
}

/// The bytes that identify a node.
pub fn node_row(hashed_address: &Option<B256>, path: &Nibbles, node: &BranchNodeCompact) -> (r: Vec<
    u8,
>)
    ensures
        r@ == row_bytes((*hashed_address, path@, node@)),
{
    path.check();
    let mut row: Vec<u8> = Vec::new();
    push_optional(&mut row, hashed_address);
    row.push(path.len() as u8);
    let bytes = path.pack();
    row.extend_from_slice(bytes.as_slice());
    push_mask(&mut row, node.state_mask);
    push_mask(&mut row, node.tree_mask);
    push_mask(&mut row, node.hash_mask);
    let ghost head = row@;
    let mut i: usize = 0;
    assert(node.hashes@.take(0) =~= Seq::empty());
    while i < node.hashes.len()
        invariant
            i <= node.hashes@.len(),
            row@ =~= head + joined(node.hashes@.take(i as int)),
        decreases node.hashes@.len() - i,
    {
        push_word(&mut row, &node.hashes[i]);
        proof {
            assert(node.hashes@.take(i + 1).drop_last() =~= node.hashes@.take(i as int));
        }
        i = i + 1;
    }
    assert(node.hashes@.take(node.hashes@.len() as int) =~= node.hashes@);
    push_optional(&mut row, &node.root_hash);
    assert(row@ =~= row_bytes((*hashed_address, path@, node@)));
    row
}

impl NodeDigest {
    #[verifier::type_invariant]
    spec fn inv(self) -> bool {
        &&& are_hashes(SEED_HIGH, self.log@, self.high_hashes@)
        &&& are_hashes(SEED_LOW, self.log@, self.low_hashes@)
        &&& self.count as int == self.log@.len() % 0x1_0000_0000_0000_0000
        &&& self.high == xor_all(self.high_hashes@)
        &&& self.low == xor_all(self.low_hashes@)
    }

    /// Folds one node in. `hashed_address` is `None` for the state trie.
    pub fn push(&mut self, hashed_address: Option<B256>, path: &Nibbles, node: &BranchNodeCompact)
        ensures
            final(self).log() == old(self).log().push((hashed_address, path@, node@)),
    {
        proof {
            use_type_invariant(&*self);
        }
        let row = node_row(&hashed_address, path, node);
        let high: u64 = fold_hash(SEED_HIGH, &row);
        let low: u64 = fold_hash(SEED_LOW, &row);
        let ghost entry = (hashed_address, path@, node@);
        proof {
            assert(self.high_hashes@.push(high).drop_last() =~= self.high_hashes@);
            assert(self.low_hashes@.push(low).drop_last() =~= self.low_hashes@);
        }
        *self = NodeDigest {
            count: self.count.wrapping_add(1),
            high: self.high ^ high,
            low: self.low ^ low,
            log: Ghost(self.log@.push(entry)),
            high_hashes: Ghost(self.high_hashes@.push(high)),
            low_hashes: Ghost(self.low_hashes@.push(low)),
        };
    }

    /// Folds in all nodes of another digest.
    pub fn merge(&mut self, other: NodeDigest)
        ensures
            final(self).log() == old(self).log() + other.log(),
    {
        proof {
            use_type_invariant(&*self);
            use_type_invariant(&other);
        }
        let ghost log = self.log@ + other.log@;
        let ghost high_hashes = self.high_hashes@ + other.high_hashes@;
        let ghost low_hashes = self.low_hashes@ + other.low_hashes@;
        let count: u64 = self.count.wrapping_add(other.count);
        proof {
            lemma_xor_both(self.high_hashes@, other.high_hashes@);
            lemma_xor_both(self.low_hashes@, other.low_hashes@);
            lemma_hashes_both(SEED_HIGH, self.log@, other.log@, self.high_hashes@, other.high_hashes@);
            lemma_hashes_both(SEED_LOW, self.log@, other.log@, self.low_hashes@, other.low_hashes@);
        }
        *self = NodeDigest {
            count,
            high: self.high ^ other.high,
            low: self.low ^ other.low,
            log: Ghost(log),
            high_hashes: Ghost(high_hashes),
            low_hashes: Ghost(low_hashes),
        };
    }

    /// The digest so far.
    pub fn snapshot(&self) -> (r: Digest)
        ensures
            is_digest(r, self.log()),
    {
        proof {
            use_type_invariant(self);
        }
        let (high, low) = (self.high, self.low);
        proof {
            lemma_halves(high, low);
        }
        let r = Digest { count: self.count, fold: ((high as u128) << 64) | (low as u128) };
        assert(is_fold(r, self.log(), self.high_hashes@, self.low_hashes@));
        r
    }
}

proof fn lemma_xor_both(a: Seq<u64>, b: Seq<u64>)
    ensures
        xor_all(a + b) == xor_all(a) ^ xor_all(b),
    decreases b.len(),
{
    let x = xor_all(a);
    if b.len() == 0 {
        assert(a + b =~= a);
        assert(x ^ 0 == x) by (bit_vector);
    } else {
        lemma_xor_both(a, b.drop_last());
        assert((a + b).drop_last() =~= a + b.drop_last());
        let (y, z) = (xor_all(b.drop_last()), b.last());
        assert((x ^ y) ^ z == x ^ (y ^ z)) by (bit_vector);
    }
}

/// The nodes of one trie.
pub open spec fn trie_set(
    account: Option<B256>,
    nodes: Map<Seq<u8>, BranchNodeCompact>,
) -> NodeSet {
    Map::new(
        |k: (Option<B256>, Seq<u8>)| k.0 == account && nodes.contains_key(k.1),
        |k: (Option<B256>, Seq<u8>)| nodes[k.1]@,
    )
}

impl NodeDigest {
    /// Folds in the nodes of one trie.
    fn push_trie(&mut self, account: Option<B256>, nodes: &OrderedMap<Nibbles, BranchNodeCompact>)
        ensures
            takes(*old(self), *final(self), trie_set(account, nodes@)),
    {
        let keys = nodes.keys();
        let ghost order = models(keys@);
        let ghost mut done: NodeSet = Map::empty();
        let mut i: usize = 0;
        proof {
            lemma_takes_nothing(*self, done);
        }
        while i < keys.len()
            invariant
                i <= keys@.len(),
                order == models(keys@),
                lists_keys::<Nibbles, BranchNodeCompact>(order, nodes@),
                takes(*old(self), *self, done),
                forall|k: (Option<B256>, Seq<u8>)| #[trigger]
                    done.contains_key(k) ==> trie_set(account, nodes@).contains_key(k) && done[k]
                        == trie_set(account, nodes@)[k],
                forall|j: int| 0 <= j < i ==> done.contains_key((account, #[trigger] order[j])),
                forall|j: int|
                    i <= j < order.len() ==> !done.contains_key((account, #[trigger] order[j])),
            decreases keys@.len() - i,
        {
            let path = &keys[i];
            assert(nodes@.contains_key(order[i as int]));
            let node = nodes.get(path).unwrap();
            let ghost before = *self;
            self.push(account, path, node);
            proof {
                let one = Map::empty().insert((account, path@), node@);
                let both = done.insert((account, path@), node@);
                lemma_takes_one(before, *self, account, path@, node@);
                assert(both =~= done.union_prefer_right(one));
                lemma_takes_both(*old(self), before, *self, done, one, both);
                assert forall|j: int| i + 1 <= j < order.len() implies !both.contains_key(
                    (account, #[trigger] order[j]),
                ) by {
                    assert(<Nibbles as OrderedKey>::before(order[i as int], order[j]));
                    <Nibbles as OrderedKey>::lemma_irreflexive(order[j]);
                }
                done = both;
            }
            i = i + 1;
        }
        proof {
            let all = trie_set(account, nodes@);
            assert forall|k: (Option<B256>, Seq<u8>)| all.contains_key(k) implies done.contains_key(
                k,
            ) by {
                assert(order.contains(k.1));
                let j = choose|j: int| 0 <= j < order.len() && order[j] == k.1;
                assert(done.contains_key((account, order[j])));
            }
            assert(done =~= all);
        }
    }

    /// Digest of [`TrieUpdates`], for comparison with a generator run. Removed nodes are not part
    /// of a build and are ignored.
    pub fn of_trie_updates(updates: &TrieUpdates) -> (r: Digest)
        ensures
            exists|list: Seq<Entry>| #[trigger]
                lists_all(list, updates.nodes()) && is_digest(r, list),
    {
        let mut digest = NodeDigest::default();
        let ghost first = digest;
        digest.push_trie(None, &updates.account_nodes);
        let ghost mut done = trie_set(None, updates.account_nodes@);
        let keys = updates.storage_tries.keys();
        let ghost order = models(keys@);
        let mut i: usize = 0;
        while i < keys.len()
            invariant
                i <= keys@.len(),
                order == models(keys@),
                lists_keys::<B256, StorageTrieUpdates>(order, updates.storage_tries@),
                takes(first, digest, done),
                forall|k: (Option<B256>, Seq<u8>)| #[trigger]
                    done.contains_key(k) ==> updates.nodes().contains_key(k) && done[k]
                        == updates.nodes()[k],
                forall|k: (Option<B256>, Seq<u8>)|
                    k.0 is None && #[trigger] updates.nodes().contains_key(k) ==> done.contains_key(
                        k,
                    ),
                forall|j: int, p: Seq<u8>|
                    0 <= j < i && #[trigger] updates.nodes().contains_key((Some(keys@[j]), p))
                        ==> done.contains_key((Some(keys@[j]), p)),
                forall|j: int, p: Seq<u8>|
                    i <= j < order.len() ==> !#[trigger] done.contains_key((Some(keys@[j]), p)),
            decreases keys@.len() - i,
        {
            let hashed_address = keys[i];
            assert(updates.storage_tries@.contains_key(order[i as int]));
            let trie = updates.storage_tries.get(&hashed_address).unwrap();
            let ghost before = digest;
            digest.push_trie(Some(hashed_address), &trie.storage_nodes);
            proof {
                let more = trie_set(Some(hashed_address), trie.storage_nodes@);
                let both = done.union_prefer_right(more);
                assert(done.dom().disjoint(more.dom())) by {
                    assert forall|k: (Option<B256>, Seq<u8>)| more.contains_key(
                        k,
                    ) implies !done.contains_key(k) by {
                        assert(!done.contains_key((Some(keys@[i as int]), k.1)));
                    }
                }
                lemma_takes_both(first, before, digest, done, more, both);
                assert forall|j: int, p: Seq<u8>|
                    i + 1 <= j < order.len() implies !#[trigger] both.contains_key(
                    (Some(keys@[j]), p),
                ) by {
                    assert(<B256 as OrderedKey>::before(order[i as int], order[j]));
                    <B256 as OrderedKey>::lemma_irreflexive(order[j]);
                    assert(!done.contains_key((Some(keys@[j]), p)));
                }
                assert forall|j: int, p: Seq<u8>|
                    0 <= j < i + 1 && #[trigger] updates.nodes().contains_key(
                        (Some(keys@[j]), p),
                    ) implies both.contains_key((Some(keys@[j]), p)) by {
                    if j == i {
                        assert(more.contains_key((Some(keys@[j]), p)));
                    }
                }
                done = both;
            }
            i = i + 1;
        }
        proof {
            let all = updates.nodes();
            assert forall|k: (Option<B256>, Seq<u8>)| all.contains_key(k) implies done.contains_key(
                k,
            ) by {
                match k.0 {
                    None => {},
                    Some(a) => {
                        assert(updates.storage_tries@.contains_key(a));
                        assert(order.contains(a));
                        let j = choose|j: int| 0 <= j < order.len() && order[j] == a;
                        assert(updates.nodes().contains_key((Some(keys@[j]), k.1)));
                    },
                }
            }
            assert(done =~= all);
            assert(received(first, digest) =~= digest.log());
        }
        let r = digest.snapshot();
        assert(lists_all(digest.log(), updates.nodes()) && is_digest(r, digest.log()));
        r
    }
}

/// Whether hashing the same bytes always gives the same hash, as it does on one machine.
pub open spec fn one_machine() -> bool {
    forall|seed: u64, data: Seq<u8>, a: u64, b: u64|
        #![trigger may_hash_to(seed, data, a), may_hash_to(seed, data, b)]
        may_hash_to(seed, data, a) && may_hash_to(seed, data, b) ==> a == b
}

/// The hash of an entry.
spec fn hash_of(seed: u64, entry: Entry) -> u64 {
    choose|h: u64| may_hash_to(seed, row_bytes(entry), h)
}

/// The hashes of a list folded from the left.
spec fn fold_list(seed: u64, list: Seq<Entry>) -> u64 {
    list.fold_left(0u64, |acc: u64, e: Entry| acc ^ hash_of(seed, e))
}

proof fn lemma_fold_list(seed: u64, list: Seq<Entry>, words: Seq<u64>)
    requires
        one_machine(),
        are_hashes(seed, list, words),
    ensures
        xor_all(words) == fold_list(seed, list),
    decreases list.len(),
{
    let f = |acc: u64, e: Entry| acc ^ hash_of(seed, e);
    if list.len() > 0 {
        let (rest, tail) = (list.drop_last(), words.drop_last());
        assert forall|i: int| 0 <= i < rest.len() implies may_hash_to(
            seed,
            row_bytes(#[trigger] rest[i]),
            tail[i],
        ) by {
            assert(may_hash_to(seed, row_bytes(list[i]), words[i]));
        }
        lemma_fold_list(seed, rest, tail);
        let n = list.len() - 1;
        assert(may_hash_to(seed, row_bytes(list[n]), words[n]));
        assert(may_hash_to(seed, row_bytes(list.last()), hash_of(seed, list.last())));
    }
}

proof fn lemma_fold_permuted(seed: u64, x: Seq<Entry>, y: Seq<Entry>)
    requires
        x.to_multiset() == y.to_multiset(),
    ensures
        fold_list(seed, x) == fold_list(seed, y),
{
    let f = |acc: u64, e: Entry| acc ^ hash_of(seed, e);
    assert forall|a: Entry, b: Entry, v: u64| #[trigger] f(f(v, a), b) == f(f(v, b), a) by {
        let (p, q) = (hash_of(seed, a), hash_of(seed, b));
        assert((v ^ p) ^ q == (v ^ q) ^ p) by (bit_vector);
    }
    vstd::seq_lib::lemma_fold_left_permutation(x, y, f, 0u64);
}

/// The digest does not depend on the order of the nodes: on one machine, two digests of the same
/// nodes are equal, whatever the order they were folded in.
pub proof fn lemma_digest_ignores_order(a: Digest, b: Digest, x: Seq<Entry>, y: Seq<Entry>)
    requires
        one_machine(),
        is_digest(a, x),
        is_digest(b, y),
        x.to_multiset() == y.to_multiset(),
    ensures
        a == b,
{
    let (p, q) = choose|p: Seq<u64>, q: Seq<u64>| #[trigger] is_fold(a, x, p, q);
    let (r, s) = choose|r: Seq<u64>, s: Seq<u64>| #[trigger] is_fold(b, y, r, s);
    lemma_fold_list(SEED_HIGH, x, p);
    lemma_fold_list(SEED_LOW, x, q);
    lemma_fold_list(SEED_HIGH, y, r);
    lemma_fold_list(SEED_LOW, y, s);
    lemma_fold_permuted(SEED_HIGH, x, y);
    lemma_fold_permuted(SEED_LOW, x, y);
    vstd::seq_lib::to_multiset_len(x);
    vstd::seq_lib::to_multiset_len(y);
}

/// On one machine, two digests of the same node set are equal.
pub proof fn lemma_same_nodes_same_digest(
    a: Digest,
    b: Digest,
    x: Seq<Entry>,
    y: Seq<Entry>,
    nodes: NodeSet,
)
    requires
        one_machine(),
        is_digest(a, x),
        is_digest(b, y),
        lists_all(x, nodes),
        lists_all(y, nodes),
    ensures
        a == b,
{
    lemma_same_entries(x, y, nodes);
    lemma_digest_ignores_order(a, b, x, y);
}

/// The digest of nothing.
pub proof fn lemma_empty_digest(digest: Digest)
    requires
        is_digest(digest, Seq::empty()),
    ensures
        digest == (Digest { count: 0, fold: 0 }),
{
}

proof fn lemma_fold_xor(a: u128, b: u128, p: u64, q: u64, r: u64, s: u64)
    requires
        a == p * 0x1_0000_0000_0000_0000 + q,
        b == r * 0x1_0000_0000_0000_0000 + s,
    ensures
        a ^ b == (p ^ r) * 0x1_0000_0000_0000_0000 + (q ^ s),
{
    let (pr, qs) = (p ^ r, q ^ s);
    lemma_halves(p, q);
    lemma_halves(r, s);
    lemma_halves(pr, qs);
    assert((((p as u128) << 64) | (q as u128)) ^ (((r as u128) << 64) | (s as u128)) == (((p
        ^ r) as u128) << 64) | ((q ^ s) as u128)) by (bit_vector);
}

proof fn lemma_halves(high: u64, low: u64)
    by (bit_vector)
    ensures
        ((high as u128) << 64) | (low as u128) == (high as u128) * 0x1_0000_0000_0000_0000 + (
        low as u128),
{
}

/// Digests add up: on one machine, the digest of the nodes of two digests together, in whatever
/// order, has the sum of the counts, modulo 2^64, and the XOR of the folds.
pub proof fn lemma_digests_add_up(
    a: Digest,
    b: Digest,
    c: Digest,
    x: Seq<Entry>,
    y: Seq<Entry>,
    z: Seq<Entry>,
)
    requires
        one_machine(),
        is_digest(a, x),
        is_digest(b, y),
        is_digest(c, z),
        z.to_multiset() == x.to_multiset().add(y.to_multiset()),
    ensures
        c.count == (a.count + b.count) % 0x1_0000_0000_0000_0000,
        c.fold == a.fold ^ b.fold,
        x.len() + y.len() <= u64::MAX ==> c.count == a.count + b.count,
{
    let (p, q) = choose|p: Seq<u64>, q: Seq<u64>| #[trigger] is_fold(a, x, p, q);
    let (r, s) = choose|r: Seq<u64>, s: Seq<u64>| #[trigger] is_fold(b, y, r, s);
    let both = Digest {
        count: ((x.len() + y.len()) % 0x1_0000_0000_0000_0000) as u64,
        fold: a.fold ^ b.fold,
    };
    lemma_xor_both(p, r);
    lemma_xor_both(q, s);
    lemma_fold_xor(a.fold, b.fold, xor_all(p), xor_all(q), xor_all(r), xor_all(s));
    lemma_hashes_both(SEED_HIGH, x, y, p, r);
    lemma_hashes_both(SEED_LOW, x, y, q, s);
    assert(is_fold(both, x + y, p + r, q + s));
    vstd::seq_lib::lemma_multiset_commutative(x, y);
    lemma_digest_ignores_order(c, both, z, x + y);
}

proof fn lemma_hashes_both(
    seed: u64,
    x: Seq<Entry>,
    y: Seq<Entry>,
    p: Seq<u64>,
    q: Seq<u64>,
)
    requires
        are_hashes(seed, x, p),
        are_hashes(seed, y, q),
    ensures
        are_hashes(seed, x + y, p + q),
{
    let all = x + y;
    assert forall|i: int| 0 <= i < all.len() implies may_hash_to(
        seed,
        row_bytes(#[trigger] all[i]),
        (p + q)[i],
    ) by {
        if i < x.len() {
            assert(may_hash_to(seed, row_bytes(x[i]), p[i]));
        } else {
            assert(may_hash_to(seed, row_bytes(y[i - x.len()]), q[i - x.len()]));
        }
    }
}

proof fn lemma_split(a: Seq<u8>, b: Seq<u8>, c: Seq<u8>, d: Seq<u8>)
    requires
        a + b == c + d,
        a.len() == c.len(),
    ensures
        a == c,
        b == d,
{
    let n = a.len() as int;
    assert((a + b).take(n) =~= a);
    assert((c + d).take(n) =~= c);
    assert((a + b).skip(n) =~= b);
    assert((c + d).skip(n) =~= d);
}

proof fn lemma_joined_len(hashes: Seq<B256>)
    ensures
        joined(hashes).len() == 32 * hashes.len(),
    decreases hashes.len(),
{
    if hashes.len() > 0 {
        lemma_joined_len(hashes.drop_last());
    }
}

proof fn lemma_joined_injective(a: Seq<B256>, b: Seq<B256>)
    requires
        joined(a) == joined(b),
    ensures
        a == b,
    decreases a.len(),
{
    lemma_joined_len(a);
    lemma_joined_len(b);
    if a.len() > 0 {
        lemma_joined_len(a.drop_last());
        lemma_joined_len(b.drop_last());
        lemma_split(
            joined(a.drop_last()),
            a.last().bytes(),
            joined(b.drop_last()),
            b.last().bytes(),
        );
        lemma_joined_injective(a.drop_last(), b.drop_last());
        lemma_same_array(a.last().0, b.last().0);
        assert(a =~= a.drop_last().push(a.last()));
        assert(b =~= b.drop_last().push(b.last()));
    } else {
        assert(a =~= b);
    }
}

proof fn lemma_optional_injective(a: Option<B256>, b: Option<B256>)
    requires
        word_or_zeros(a) == word_or_zeros(b),
        flag(a) == flag(b),
    ensures
        a == b,
{
    assert(flag(a)[0] == flag(b)[0]);
    assert(a is Some <==> flag(a)[0] == 1);
    assert(b is Some <==> flag(b)[0] == 1);
    if a is Some {
        lemma_same_array((a->0).0, (b->0).0);
    }
}

proof fn lemma_mask_injective(a: u16, b: u16)
    requires
        be_bytes(a as nat, 2) == be_bytes(b as nat, 2),
    ensures
        a == b,
{
    assert(pow256(2) == 65536) by {
        reveal_with_fuel(pow256, 3);
    }
    lemma_value_of_bytes(a as nat, 2);
    lemma_value_of_bytes(b as nat, 2);
}

/// Different nodes, or nodes at different places, have different rows.
pub proof fn lemma_rows_differ(x: Entry, y: Entry)
    requires
        is_path(x.1),
        is_path(y.1),
        row_bytes(x) == row_bytes(y),
    ensures
        x == y,
{
    let (xa, xp, xn) = x;
    let (ya, yp, yn) = y;
    let xk = ((xp.len() + 1) / 2) as nat;
    let yk = ((yp.len() + 1) / 2) as nat;
    let xs = be_bytes(xn.state_mask as nat, 2);
    let ys = be_bytes(yn.state_mask as nat, 2);
    let xt = be_bytes(xn.tree_mask as nat, 2);
    let yt = be_bytes(yn.tree_mask as nat, 2);
    let xh = be_bytes(xn.hash_mask as nat, 2);
    let yh = be_bytes(yn.hash_mask as nat, 2);
    lemma_be_bytes_len(xn.state_mask as nat, 2);
    lemma_be_bytes_len(yn.state_mask as nat, 2);
    lemma_be_bytes_len(xn.tree_mask as nat, 2);
    lemma_be_bytes_len(yn.tree_mask as nat, 2);
    lemma_be_bytes_len(xn.hash_mask as nat, 2);
    lemma_be_bytes_len(yn.hash_mask as nat, 2);
    lemma_joined_len(xn.hashes);
    lemma_joined_len(yn.hashes);
    // From the end: the root hash.
    let x9 = word_or_zeros(xa) + flag(xa) + seq![xp.len() as u8] + packed(xp, xk) + xs + xt + xh
        + joined(xn.hashes) + word_or_zeros(xn.root_hash);
    let y9 = word_or_zeros(ya) + flag(ya) + seq![yp.len() as u8] + packed(yp, yk) + ys + yt + yh
        + joined(yn.hashes) + word_or_zeros(yn.root_hash);
    assert(row_bytes(x).len() == x9.len() + 1);
    assert(row_bytes(y).len() == y9.len() + 1);
    lemma_split(x9, flag(xn.root_hash), y9, flag(yn.root_hash));
    let x8 = word_or_zeros(xa) + flag(xa) + seq![xp.len() as u8] + packed(xp, xk) + xs + xt + xh
        + joined(xn.hashes);
    let y8 = word_or_zeros(ya) + flag(ya) + seq![yp.len() as u8] + packed(yp, yk) + ys + yt + yh
        + joined(yn.hashes);
    lemma_split(x8, word_or_zeros(xn.root_hash), y8, word_or_zeros(yn.root_hash));
    lemma_optional_injective(xn.root_hash, yn.root_hash);
    // From the start: the account and the length of the path.
    assert(x8.take(32) =~= word_or_zeros(xa));
    assert(y8.take(32) =~= word_or_zeros(ya));
    assert(x8[32] == flag(xa)[0]);
    assert(y8[32] == flag(ya)[0]);
    assert(flag(xa) =~= flag(ya));
    lemma_optional_injective(xa, ya);
    assert(x8[33] == xp.len() as u8);
    assert(y8[33] == yp.len() as u8);
    // Then the parts in between.
    let x7 = word_or_zeros(xa) + flag(xa) + seq![xp.len() as u8] + packed(xp, xk) + xs + xt + xh;
    let y7 = word_or_zeros(ya) + flag(ya) + seq![yp.len() as u8] + packed(yp, yk) + ys + yt + yh;
    lemma_split(x7, joined(xn.hashes), y7, joined(yn.hashes));
    lemma_joined_injective(xn.hashes, yn.hashes);
    let x6 = word_or_zeros(xa) + flag(xa) + seq![xp.len() as u8] + packed(xp, xk) + xs + xt;
    let y6 = word_or_zeros(ya) + flag(ya) + seq![yp.len() as u8] + packed(yp, yk) + ys + yt;
    lemma_split(x6, xh, y6, yh);
    let x5 = word_or_zeros(xa) + flag(xa) + seq![xp.len() as u8] + packed(xp, xk) + xs;
    let y5 = word_or_zeros(ya) + flag(ya) + seq![yp.len() as u8] + packed(yp, yk) + ys;
    lemma_split(x5, xt, y5, yt);
    let x4 = word_or_zeros(xa) + flag(xa) + seq![xp.len() as u8] + packed(xp, xk);
    let y4 = word_or_zeros(ya) + flag(ya) + seq![yp.len() as u8] + packed(yp, yk);
    lemma_split(x4, xs, y4, ys);
    let x3 = word_or_zeros(xa) + flag(xa) + seq![xp.len() as u8];
    let y3 = word_or_zeros(ya) + flag(ya) + seq![yp.len() as u8];
    lemma_split(x3, packed(xp, xk), y3, packed(yp, yk));
    lemma_mask_injective(xn.state_mask, yn.state_mask);
    lemma_mask_injective(xn.tree_mask, yn.tree_mask);
    lemma_mask_injective(xn.hash_mask, yn.hash_mask);
    assert(xp =~= yp) by {
        assert forall|j: int| 0 <= j < xp.len() implies xp[j] == yp[j] by {
            let i = j / 2;
            assert(packed(xp, xk)[i] == packed(yp, yk)[i]);
            let (a, b) = (digit(xp, 2 * i), digit(xp, 2 * i + 1));
            let (c, d) = (digit(yp, 2 * i), digit(yp, 2 * i + 1));
            assert(a < 16 && b < 16 && c < 16 && d < 16);
            assert(packed(xp, xk)[i] == 16 * a + b);
            assert(packed(yp, yk)[i] == 16 * c + d);
            assert(a == c && b == d);
        }
    }
    assert(xn =~= yn);
}

impl Default for NodeDigest {
    fn default() -> (r: NodeDigest)
        ensures
            r.log() == Seq::<Entry>::empty(),
    {
        NodeDigest {
            count: 0,
            high: 0,
            low: 0,
            log: Ghost(Seq::empty()),
            high_hashes: Ghost(Seq::empty()),
            low_hashes: Ghost(Seq::empty()),
        }
    }
}

impl OnNode for NodeDigest {
    closed spec fn log(&self) -> Seq<Entry> {
        self.log@
    }

    open spec fn accepts(&self, account: Option<B256>, path: Seq<u8>) -> bool {
        true
    }

    fn on_node(&mut self, account: Option<B256>, path: Nibbles, node: BranchNodeCompact) {
        self.push(account, &path, &node)
    }
}

} // verus!
