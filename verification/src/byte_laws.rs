//! What bytes, numbers, words and paths stand for.

use crate::bytes::{
    be_bytes, be_value, differ_at, le_bytes, lemma_be_bytes_len, lemma_be_value_bound,
    lemma_lex_is_value_order, lemma_value_of_bytes, lex_lt, pow256, without_leading_zeros,
};
use crate::nibbles::{is_path, is_successor, lemma_pack_unpack, packed, unpacked, Nibbles};
use crate::node::BranchNodeCompact;
use crate::ordered::{lists_keys, models, OrderedKey, StoragePath};
use crate::primitives::{B256, U256};
use vstd::arithmetic::power::pow;
use vstd::prelude::*;

verus! {

/// A number in big-endian bytes: no bytes are zero, and one more byte makes 256 times as much and
/// that byte.
pub proof fn lemma_one_more_byte(s: Seq<u8>, byte: u8)
    ensures
        be_value(Seq::empty()) == 0,
        be_value(s.push(byte)) == 256 * be_value(s) + byte,
{
    assert(s.push(byte).drop_last() =~= s);
}

/// The bytes of a number that fits them have that number, in as many bytes as asked for, and in
/// reverse the other way round.
pub proof fn lemma_bytes_hold_the_number(v: nat, n: nat)
    requires
        v < pow(256, n),
    ensures
        be_bytes(v, n).len() == n,
        be_value(be_bytes(v, n)) == v,
        le_bytes(v, n).len() == n,
        forall|i: int| 0 <= i < n ==> #[trigger] le_bytes(v, n)[i] == be_bytes(v, n)[n - 1 - i],
{
    lemma_powers_of_256(n);
    lemma_be_bytes_len(v, n);
    lemma_value_of_bytes(v, n);
}

proof fn lemma_powers_of_256(n: nat)
    ensures
        pow256(n) == pow(256, n),
    decreases n,
{
    reveal(pow);
    if n > 0 {
        lemma_powers_of_256((n - 1) as nat);
    }
}

/// Without leading zeros: the same bytes from the first that is not zero on.
pub proof fn lemma_leading_zeros_are_dropped(s: Seq<u8>)
    ensures
        without_leading_zeros(s).is_suffix_of(s),
        without_leading_zeros(s).len() > 0 ==> without_leading_zeros(s)[0] != 0,
        forall|i: int| 0 <= i < s.len() - without_leading_zeros(s).len() ==> s[i] == 0,
    decreases s.len(),
{
    if s.len() > 0 && s[0] == 0 {
        let rest = s.skip(1);
        lemma_leading_zeros_are_dropped(rest);
        let t = without_leading_zeros(rest);
        assert(s.subrange(s.len() - t.len(), s.len() as int) =~= rest.subrange(
            rest.len() - t.len(),
            rest.len() as int,
        ));
        assert forall|i: int| 0 <= i < s.len() - t.len() implies s[i] == 0 by {
            if i > 0 {
                assert(rest[i - 1] == 0);
            }
        }
    } else {
        assert(s.subrange(0, s.len() as int) =~= s);
    }
}

/// One byte string comes before another exactly if it ends where the other goes on, or has the
/// smaller byte where they first differ.
pub proof fn lemma_order_of_bytes(a: Seq<u8>, b: Seq<u8>)
    ensures
        lex_lt(a, b) <==> exists|k: int|
            #![trigger a.take(k)]
            0 <= k <= a.len() && k < b.len() && a.take(k) == b.take(k) && (k == a.len() || a[k]
                < b[k]),
{
    if lex_lt(a, b) {
        let k = choose|k: int| differ_at(a, b, k);
        assert(a.take(k) == b.take(k));
    }
    if exists|k: int|
        #![trigger a.take(k)]
        0 <= k <= a.len() && k < b.len() && a.take(k) == b.take(k) && (k == a.len() || a[k] < b[k]) {
        let k = choose|k: int|
            #![trigger a.take(k)]
            0 <= k <= a.len() && k < b.len() && a.take(k) == b.take(k) && (k == a.len() || a[k]
                < b[k]);
        assert(differ_at(a, b, k));
    }
}

/// Words are their 32 bytes, ordered as the numbers these are.
pub proof fn lemma_words_are_numbers(a: B256, b: B256, x: U256)
    ensures
        a.bytes() == a.0@,
        a.bytes().len() == 32,
        a.before(b) <==> be_value(a.0@) < be_value(b.0@),
        a.halves().0 == be_value(a.0@.take(16)),
        a.halves().1 == be_value(a.0@.skip(16)),
        x.bytes() == x.0@,
        x.value() == be_value(x.0@),
{
    lemma_lex_is_value_order(a.0@, b.0@);
    lemma_be_value_bound(a.0@.take(16));
    lemma_be_value_bound(a.0@.skip(16));
    assert(pow256(16) == 0x1_0000_0000_0000_0000_0000_0000_0000_0000) by {
        reveal_with_fuel(pow256, 17);
    }
}

/// A byte is two nibbles, the high one first: sixteen times the first and the second make the byte.
pub proof fn lemma_two_nibbles_make_a_byte(b: Seq<u8>, i: int)
    requires
        0 <= i < b.len(),
    ensures
        unpacked(b).len() == 2 * b.len(),
        unpacked(b)[2 * i] < 16,
        unpacked(b)[2 * i + 1] < 16,
        16 * unpacked(b)[2 * i] + unpacked(b)[2 * i + 1] == b[i],
{
}

/// Packing makes a byte of two nibbles, where a missing one is zero.
pub proof fn lemma_packed_two_by_two(s: Seq<u8>, n: nat, i: int)
    requires
        forall|j: int| 0 <= j < s.len() ==> s[j] < 16,
        0 <= i < n,
    ensures
        packed(s, n).len() == n,
        2 * i + 1 < s.len() ==> packed(s, n)[i] == 16 * s[2 * i] + s[2 * i + 1],
        2 * i + 1 == s.len() ==> packed(s, n)[i] == 16 * s[2 * i],
        2 * i >= s.len() ==> packed(s, n)[i] == 0,
{
}

/// Packing gives back what was unpacked.
pub proof fn lemma_packed_is_unpacked_again(b: Seq<u8>)
    ensures
        packed(unpacked(b), b.len()) == b,
{
    lemma_pack_unpack(b);
}

/// A path has at most 64 nibbles.
pub proof fn lemma_path_is_nibbles(s: Seq<u8>)
    ensures
        is_path(s) <==> s.len() <= 64 && forall|i: int| 0 <= i < s.len() ==> s[i] < 16,
{
}

/// The number whose digits in base 16 are the nibbles.
pub open spec fn nibbles_value(s: Seq<u8>) -> int
    decreases s.len(),
{
    if s.len() == 0 {
        0
    } else {
        16 * nibbles_value(s.drop_last()) + s.last()
    }
}

/// The successor of a path is the path of the same length with the next number, and nothing else.
pub proof fn lemma_successor_is_the_next_number(s: Seq<u8>, next: Seq<u8>, k: int)
    requires
        is_path(s),
        is_successor(s, next, k),
    ensures
        next.len() == s.len(),
        is_path(next),
        nibbles_value(next) == nibbles_value(s) + 1,
    decreases s.len(),
{
    assert forall|i: int| 0 <= i < next.len() implies next[i] < 16 by {
        if i > k {
            assert(next[i] == 0);
        } else if i < k {
            assert(next[i] == s[i] && s[i] < 16);
        }
    }
    let (a, b) = (s.drop_last(), next.drop_last());
    if k == s.len() - 1 {
        assert(a =~= b);
    } else {
        assert forall|i: int| 0 <= i < a.len() implies a[i] < 16 by {
            assert(s[i] < 16);
        }
        lemma_successor_is_the_next_number(a, b, k);
        assert(s[s.len() - 1] == 15 && next[s.len() - 1] == 0);
    }
}

/// A stored node is its masks, its hashes and its root hash.
pub proof fn lemma_node_is_its_fields(node: BranchNodeCompact)
    ensures
        node@.state_mask == node.state_mask,
        node@.tree_mask == node.tree_mask,
        node@.hash_mask == node.hash_mask,
        node@.hashes == node.hashes@,
        node@.root_hash == node.root_hash,
{
}

/// Words and paths stand for themselves in ordered maps, and are listed in their own order; the
/// nodes of storage tries are listed by account and, for one account, by path.
pub proof fn lemma_keys_are_in_order(a: B256, b: B256, p: Nibbles, q: Nibbles)
    ensures
        a.model() == a,
        p.model() == p@,
        (StoragePath { hashed_address: a, path: p }).model() == (a, p@),
        <B256 as OrderedKey>::before(a, b) <==> be_value(a.0@) < be_value(b.0@),
        <Nibbles as OrderedKey>::before(p@, q@) <==> lex_lt(p@, q@),
        <StoragePath as OrderedKey>::before((a, p@), (b, q@)) <==> be_value(a.0@) < be_value(b.0@)
            || (a == b && lex_lt(p@, q@)),
{
    lemma_lex_is_value_order(a.0@, b.0@);
}

/// The keys of a map are listed once each, in order, and none is left out.
pub proof fn lemma_keys_are_all_listed<K: OrderedKey, V>(keys: Seq<K>, map: Map<K::Model, V>)
    requires
        lists_keys::<K, V>(models(keys), map),
    ensures
        forall|m: K::Model| #[trigger]
            map.contains_key(m) <==> exists|i: int|
                0 <= i < keys.len() && (#[trigger] keys[i]).model() == m,
        forall|i: int, j: int|
            0 <= i < j < keys.len() ==> K::before(
                (#[trigger] keys[i]).model(),
                (#[trigger] keys[j]).model(),
            ),
{
    let order = models(keys);
    assert forall|m: K::Model| #[trigger] map.contains_key(m) <==> exists|i: int|
        0 <= i < keys.len() && (#[trigger] keys[i]).model() == m by {
        if map.contains_key(m) {
            assert(order.contains(m));
            let i = choose|i: int| 0 <= i < order.len() && order[i] == m;
            assert(keys[i].model() == m);
        }
        if exists|i: int| 0 <= i < keys.len() && (#[trigger] keys[i]).model() == m {
            let i = choose|i: int| 0 <= i < keys.len() && (#[trigger] keys[i]).model() == m;
            assert(map.contains_key(order[i]));
        }
    }
    assert forall|i: int, j: int| 0 <= i < j < keys.len() implies K::before(
        (#[trigger] keys[i]).model(),
        (#[trigger] keys[j]).model(),
    ) by {
        assert(K::before(order[i], order[j]));
    }
}

} // verus!
