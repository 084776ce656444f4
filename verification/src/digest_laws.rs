//! What a digest is made of.

use crate::bytes::{be_bytes, be_value, lemma_be_bytes_len, lemma_value_of_bytes, pow256};
use crate::digest::{
    are_hashes, flag, is_digest, is_fold, joined, lemma_digests_add_up, may_hash_to, one_machine,
    row_bytes, trie_set, word_or_zeros, xor_all, Digest, SEED_HIGH, SEED_LOW,
};
use crate::nibbles::packed;
use crate::node::BranchNodeCompact;
use crate::primitives::B256;
use crate::sink::Entry;
use vstd::prelude::*;

verus! {

/// Whether `fold` is the two seeded hashes of the row of a node.
pub open spec fn is_row_hash(entry: Entry, fold: u128) -> bool {
    exists|high: u64, low: u64|
        #[trigger] may_hash_to(0x7472_6965_2d67_656e, row_bytes(entry), high)
            && #[trigger] may_hash_to(0x6e6f_6465_2d64_6967, row_bytes(entry), low) && fold
            == high * 0x1_0000_0000_0000_0000 + low
}

/// Every node counts: the digest of one node counts one, and its fold is the two seeded hashes of
/// the row of that node, whichever node it is.
pub proof fn lemma_digest_of_one_node(digest: Digest, entry: Entry)
    requires
        is_digest(digest, seq![entry]),
    ensures
        digest.count == 1,
        is_row_hash(entry, digest.fold),
{
    let none: Seq<Entry> = Seq::empty();
    assert(none.push(entry) =~= seq![entry]);
    let (p, q) = choose|p: Seq<u64>, q: Seq<u64>| #[trigger] is_fold(digest, seq![entry], p, q);
    assert(seq![entry][0] == entry);
    lemma_xor_of_one(p);
    lemma_xor_of_one(q);
    assert(may_hash_to(SEED_HIGH, row_bytes(entry), p[0]));
    assert(may_hash_to(SEED_LOW, row_bytes(entry), q[0]));
}

proof fn lemma_xor_of_one(words: Seq<u64>)
    requires
        words.len() == 1,
    ensures
        xor_all(words) == words[0],
{
    let x = words[0];
    assert(words.drop_last() =~= Seq::<u64>::empty());
    assert(xor_all(words.drop_last()) == 0);
    assert(0u64 ^ x == x) by (bit_vector);
}

proof fn lemma_fold_one_more(a: u128, p: u64, q: u64, r: u64, s: u64) -> (b: u128)
    requires
        a == p * 0x1_0000_0000_0000_0000 + q,
    ensures
        b == r * 0x1_0000_0000_0000_0000 + s,
        a ^ b == (p ^ r) * 0x1_0000_0000_0000_0000 + (q ^ s),
{
    let b = ((r as u128) << 64) | (s as u128);
    let x = ((p as u128) << 64) | (q as u128);
    let (pr, qs) = (p ^ r, q ^ s);
    assert(((r as u128) << 64) | (s as u128) == (r as u128) * 0x1_0000_0000_0000_0000 + (
    s as u128)) by (bit_vector);
    assert(((p as u128) << 64) | (q as u128) == (p as u128) * 0x1_0000_0000_0000_0000 + (
    q as u128)) by (bit_vector);
    assert(((pr as u128) << 64) | (qs as u128) == (pr as u128) * 0x1_0000_0000_0000_0000 + (
    qs as u128)) by (bit_vector);
    assert((((p as u128) << 64) | (q as u128)) ^ (((r as u128) << 64) | (s as u128)) == (((p
        ^ r) as u128) << 64) | ((q ^ s) as u128)) by (bit_vector);
    assert(x == a);
    b
}

/// Every listed node counts: a digest of a list with one more node is a digest of the list, whose
/// count goes up by one, modulo 2^64, and whose fold is changed by the hashes of the row of that
/// node and nothing else.
pub proof fn lemma_digest_of_one_more_node(digest: Digest, list: Seq<Entry>, entry: Entry)
    requires
        is_digest(digest, list.push(entry)),
    ensures
        exists|before: Digest, row_hash: u128|
            #![trigger is_digest(before, list), is_row_hash(entry, row_hash)]
            is_digest(before, list) && is_row_hash(entry, row_hash) && digest.fold == before.fold
                ^ row_hash && digest.count == (before.count + 1) % 0x1_0000_0000_0000_0000,
{
    let more = list.push(entry);
    let (p, q) = choose|p: Seq<u64>, q: Seq<u64>| #[trigger] is_fold(digest, more, p, q);
    let (u, v) = (p.drop_last(), q.drop_last());
    lemma_hashes_before(SEED_HIGH, list, entry, p);
    lemma_hashes_before(SEED_LOW, list, entry, q);
    assert(more[list.len() as int] == entry);
    assert(may_hash_to(SEED_HIGH, row_bytes(entry), p.last()));
    assert(may_hash_to(SEED_LOW, row_bytes(entry), q.last()));
    let (high, low) = (xor_all(u), xor_all(v));
    assert(((high as u128) << 64) | (low as u128) == (high as u128) * 0x1_0000_0000_0000_0000 + (
    low as u128)) by (bit_vector);
    let before = Digest {
        count: (list.len() % 0x1_0000_0000_0000_0000) as u64,
        fold: ((high as u128) << 64) | (low as u128),
    };
    assert(is_fold(before, list, u, v));
    let row_hash = lemma_fold_one_more(before.fold, high, low, p.last(), q.last());
    assert(is_row_hash(entry, row_hash));
    assert(is_digest(before, list));
}

proof fn lemma_hashes_before(seed: u64, list: Seq<Entry>, entry: Entry, words: Seq<u64>)
    requires
        are_hashes(seed, list.push(entry), words),
    ensures
        are_hashes(seed, list, words.drop_last()),
{
    let more = list.push(entry);
    assert forall|i: int| 0 <= i < list.len() implies may_hash_to(
        seed,
        row_bytes(#[trigger] list[i]),
        words.drop_last()[i],
    ) by {
        assert(may_hash_to(seed, row_bytes(more[i]), words[i]));
    }
}

/// Folding in a node changes a digest by the digest of that node alone: on one machine, the fold is
/// the XOR of the two, and the count is one more.
pub proof fn lemma_node_is_folded_in(
    before: Digest,
    one: Digest,
    after: Digest,
    list: Seq<Entry>,
    entry: Entry,
)
    requires
        one_machine(),
        is_digest(before, list),
        is_digest(one, seq![entry]),
        is_digest(after, list.push(entry)),
    ensures
        after.fold == before.fold ^ one.fold,
        after.count == (before.count + 1) % 0x1_0000_0000_0000_0000,
{
    broadcast use vstd::seq_lib::group_to_multiset_ensures;

    let none: Seq<Entry> = Seq::empty();
    assert(seq![entry] =~= none.push(entry));
    assert(list.push(entry).to_multiset() =~= list.to_multiset().add(seq![entry].to_multiset()));
    lemma_digests_add_up(before, one, after, list, seq![entry], list.push(entry));
    lemma_digest_of_one_node(one, entry);
}

proof fn lemma_hashes_in_a_row(hashes: Seq<B256>, i: int)
    requires
        0 <= i < hashes.len(),
    ensures
        joined(hashes).len() == 32 * hashes.len(),
        joined(hashes).subrange(32 * i, 32 * i + 32) == hashes[i].0@,
    decreases hashes.len(),
{
    let rest = hashes.drop_last();
    lemma_joined_len(rest);
    lemma_joined_len(hashes);
    if i < rest.len() {
        lemma_hashes_in_a_row(rest, i);
        assert(joined(hashes).subrange(32 * i, 32 * i + 32) =~= joined(rest).subrange(
            32 * i,
            32 * i + 32,
        ));
    } else {
        assert(joined(hashes).subrange(32 * i, 32 * i + 32) =~= hashes[i].0@);
    }
}

proof fn lemma_joined_len(hashes: Seq<B256>)
    ensures
        joined(hashes).len() == 32 * hashes.len(),
    decreases hashes.len(),
{
    if hashes.len() > 0 {
        lemma_joined_len(hashes.drop_last());
    }
}

/// The row of a node holds everything that identifies it, one after the other: the account and
/// whether there is one, the length of the path and the path, the three masks, all hashes, the root
/// hash and whether there is one.
pub proof fn lemma_row_holds_the_node(entry: Entry, i: int)
    ensures
        ({
            let (account, path, node) = entry;
            let row = row_bytes(entry);
            let k = (path.len() as int + 1) / 2;
            let n = 32 * node.hashes.len() as int;
            &&& row.len() == 73 + k + n
            &&& account matches Some(word) ==> row.take(32) == word.0@ && row[32] == 1
            &&& account is None ==> row.take(32) == Seq::new(32, |j: int| 0u8) && row[32] == 0
            &&& path.len() <= 64 ==> row[33] == path.len()
            &&& row.subrange(34, 34 + k) == packed(path, k as nat)
            &&& be_value(row.subrange(34 + k, 36 + k)) == node.state_mask
            &&& be_value(row.subrange(36 + k, 38 + k)) == node.tree_mask
            &&& be_value(row.subrange(38 + k, 40 + k)) == node.hash_mask
            &&& 0 <= i < node.hashes.len() ==> row.subrange(40 + k + 32 * i, 72 + k + 32 * i)
                == node.hashes[i].0@
            &&& node.root_hash matches Some(word) ==> row.subrange(40 + k + n, 72 + k + n)
                == word.0@ && row[72 + k + n] == 1
            &&& node.root_hash is None ==> row.subrange(40 + k + n, 72 + k + n) == Seq::new(
                32,
                |j: int| 0u8,
            ) && row[72 + k + n] == 0
        }),
{
    let (account, path, node) = entry;
    let k = (path.len() as int + 1) / 2;
    let row = row_bytes(entry);
    let (a, f) = (word_or_zeros(account), flag(account));
    let (len, p) = (seq![path.len() as u8], packed(path, k as nat));
    let (s, t, h) = (
        be_bytes(node.state_mask as nat, 2),
        be_bytes(node.tree_mask as nat, 2),
        be_bytes(node.hash_mask as nat, 2),
    );
    let all = joined(node.hashes);
    let (z, g) = (word_or_zeros(node.root_hash), flag(node.root_hash));
    lemma_joined_len(node.hashes);
    lemma_be_bytes_len(node.state_mask as nat, 2);
    lemma_be_bytes_len(node.tree_mask as nat, 2);
    lemma_be_bytes_len(node.hash_mask as nat, 2);
    assert(pow256(2) == 65536) by {
        reveal_with_fuel(pow256, 3);
    }
    lemma_value_of_bytes(node.state_mask as nat, 2);
    lemma_value_of_bytes(node.tree_mask as nat, 2);
    lemma_value_of_bytes(node.hash_mask as nat, 2);
    let n = all.len() as int;
    assert(row == a + f + len + p + s + t + h + all + z + g);
    assert(a.len() == 32 && z.len() == 32 && f.len() == 1 && g.len() == 1);
    assert(row.take(32) =~= a);
    assert(row[32] == f[0]);
    assert(row[33] == len[0]);
    assert(row.subrange(34, 34 + k) =~= p);
    assert(row.subrange(34 + k, 36 + k) =~= s);
    assert(row.subrange(36 + k, 38 + k) =~= t);
    assert(row.subrange(38 + k, 40 + k) =~= h);
    assert(row.subrange(40 + k, 40 + k + n) =~= all);
    assert(row.subrange(40 + k + n, 72 + k + n) =~= z);
    assert(row[72 + k + n] == g[0]);
    if 0 <= i < node.hashes.len() {
        lemma_hashes_in_a_row(node.hashes, i);
        assert(row.subrange(40 + k + 32 * i, 72 + k + 32 * i) =~= all.subrange(
            32 * i,
            32 * i + 32,
        ));
    }
}

/// The nodes of one trie are those of its map, under its account.
pub proof fn lemma_trie_is_its_map(
    account: Option<B256>,
    nodes: Map<Seq<u8>, BranchNodeCompact>,
    whose: Option<B256>,
    path: Seq<u8>,
)
    ensures
        trie_set(account, nodes).contains_key((whose, path)) <==> whose == account
            && nodes.contains_key(path),
        whose == account && nodes.contains_key(path) ==> trie_set(account, nodes)[(whose, path)]
            == nodes[path]@,
{
}

} // verus!
