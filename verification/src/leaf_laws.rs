//! What the leaves of the tries are, in terms of the rows they come from.

use crate::builder::Leaf;
use crate::bytes::{
    be_bytes, be_value, lemma_be_bytes_len, lemma_bytes_of_value, lemma_value_of_bytes, pow256,
    without_leading_zeros,
};
use crate::cursor::StateView;
use crate::nibbles::{lemma_pack_unpack, unpacked};
use crate::partition::account_leaves;
use crate::primitives::{lemma_same_array, Account, B256, U256};
use crate::rlp::{code_hash_of, keccak_empty, rlp_header, rlp_list, rlp_number, rlp_string};
use crate::storage::{slot_leaves, storage_root};
use vstd::prelude::*;

verus! {

/// Every slot with a value is a leaf: the leaves of a storage trie are, in the order of the rows,
/// the nibbles of the slot and the RLP of the value of exactly the rows whose value is not zero.
pub proof fn lemma_leaves_are_the_set_slots(rows: Seq<(B256, U256)>)
    ensures
        slot_leaves(rows) == rows.filter(
            |row: (B256, U256)| be_value(row.1.0@) != 0,
        ).map_values(|row: (B256, U256)| (unpacked(row.0.0@), rlp_number(row.1.0@))),
    decreases rows.len(),
{
    reveal(Seq::filter);
    let is_set = |row: (B256, U256)| be_value(row.1.0@) != 0;
    let to_leaf = |row: (B256, U256)| (unpacked(row.0.0@), rlp_number(row.1.0@));
    if rows.len() > 0 {
        let rest = rows.drop_last();
        lemma_leaves_are_the_set_slots(rest);
        assert(slot_leaves(rest) == rest.filter(is_set).map_values(to_leaf));
        if is_set(rows.last()) {
            assert(rest.filter(is_set).push(rows.last()).map_values(to_leaf) =~= rest.filter(
                is_set,
            ).map_values(to_leaf).push(to_leaf(rows.last())));
        }
    } else {
        assert(rows.filter(is_set).map_values(to_leaf) =~= Seq::<Leaf>::empty());
    }
}

/// A value is zero exactly if all its bytes are.
pub proof fn lemma_zero_is_all_zeros(s: Seq<u8>)
    ensures
        be_value(s) == 0 <==> forall|i: int| 0 <= i < s.len() ==> s[i] == 0,
    decreases s.len(),
{
    if s.len() > 0 {
        let rest = s.drop_last();
        lemma_zero_is_all_zeros(rest);
        assert(be_value(s) == be_value(rest) * 256 + s.last());
        if forall|i: int| 0 <= i < s.len() ==> s[i] == 0 {
            assert forall|i: int| 0 <= i < rest.len() implies rest[i] == 0 by {
                assert(s[i] == 0);
            }
        }
        if be_value(s) == 0 {
            assert forall|i: int| 0 <= i < s.len() implies s[i] == 0 by {
                if i < rest.len() {
                    assert(rest[i] == 0);
                }
            }
        }
    }
}

/// Dropping leading zeros does not change a number.
proof fn lemma_zeros_do_not_count(s: Seq<u8>)
    ensures
        be_value(without_leading_zeros(s)) == be_value(s),
        without_leading_zeros(s).len() <= s.len(),
    decreases s.len(),
{
    if s.len() > 0 && s[0] == 0 {
        let rest = s.skip(1);
        lemma_zeros_do_not_count(rest);
        lemma_leading_zero(s);
    }
}

proof fn lemma_leading_zero(s: Seq<u8>)
    requires
        s.len() > 0,
        s[0] == 0,
    ensures
        be_value(s.skip(1)) == be_value(s),
    decreases s.len(),
{
    let rest = s.skip(1);
    if rest.len() > 0 {
        assert(rest.drop_last() =~= s.drop_last().skip(1));
        lemma_leading_zero(s.drop_last());
    } else {
        assert(s.drop_last() =~= Seq::<u8>::empty());
        assert(be_value(s.drop_last()) == 0);
    }
}

/// Of two texts that start with the encodings of short strings, equal ones start with the same
/// string and go on alike.
proof fn lemma_strings_are_told_apart(a: Seq<u8>, x: Seq<u8>, b: Seq<u8>, y: Seq<u8>)
    requires
        a.len() <= 55,
        b.len() <= 55,
        rlp_string(a) + x == rlp_string(b) + y,
    ensures
        a == b,
        x == y,
{
    let (p, q) = (rlp_string(a) + x, rlp_string(b) + y);
    let (m, n) = (rlp_string(a).len() as int, rlp_string(b).len() as int);
    assert(p[0] == rlp_string(a)[0]);
    assert(q[0] == rlp_string(b)[0]);
    assert(m == n);
    assert(rlp_string(a) =~= p.take(m));
    assert(rlp_string(b) =~= q.take(n));
    assert(x =~= p.skip(m));
    assert(y =~= q.skip(n));
    if a.len() == 1 && a[0] < 0x80 {
        assert(b.len() == 1 && b[0] < 0x80);
    } else {
        assert(a =~= rlp_string(a).skip(1));
        assert(b =~= rlp_string(b).skip(1));
    }
}

/// The encoding of a number of at most 32 bytes tells the number, with whatever follows it.
proof fn lemma_numbers_are_told_apart(a: Seq<u8>, x: Seq<u8>, b: Seq<u8>, y: Seq<u8>)
    requires
        a.len() == b.len() <= 32,
        rlp_number(a) + x == rlp_number(b) + y,
    ensures
        a == b,
        x == y,
{
    lemma_zeros_do_not_count(a);
    lemma_zeros_do_not_count(b);
    lemma_strings_are_told_apart(without_leading_zeros(a), x, without_leading_zeros(b), y);
    lemma_bytes_of_value(a);
    lemma_bytes_of_value(b);
}

/// The leaf of a slot tells the slot and the value: slots that differ have leaves with keys that
/// differ, and values that differ have leaves with values that differ.
pub proof fn lemma_slot_leaf_tells_the_row(a: (B256, U256), b: (B256, U256))
    requires
        be_value(a.1.0@) != 0,
        be_value(b.1.0@) != 0,
    ensures
        slot_leaves(seq![a]).len() == 1,
        slot_leaves(seq![a])[0].0 == slot_leaves(seq![b])[0].0 ==> a.0 == b.0,
        slot_leaves(seq![a])[0].1 == slot_leaves(seq![b])[0].1 ==> a.1 == b.1,
{
    let none: Seq<(B256, U256)> = Seq::empty();
    assert(seq![a].drop_last() =~= none && seq![b].drop_last() =~= none);
    reveal_with_fuel(slot_leaves, 2);
    let (p, q) = (slot_leaves(seq![a])[0], slot_leaves(seq![b])[0]);
    assert(p == (unpacked(a.0.0@), rlp_number(a.1.0@)));
    assert(q == (unpacked(b.0.0@), rlp_number(b.1.0@)));
    if p.0 == q.0 {
        lemma_pack_unpack(a.0.0@);
        lemma_pack_unpack(b.0.0@);
        lemma_same_array(a.0.0, b.0.0);
    }
    if p.1 == q.1 {
        let end: Seq<u8> = Seq::empty();
        lemma_numbers_are_told_apart(a.1.0@, end, b.1.0@, end);
        lemma_same_array(a.1.0, b.1.0);
    }
}

/// Every account is a leaf: the leaves of the state trie are, in the order of the rows, the nibbles
/// of the address, and the RLP list of the nonce, the balance, the root of the trie of that
/// address's slots, and the hash of the code, which is that of no code where there is none.
pub proof fn lemma_leaves_are_the_accounts(state: StateView, rows: Seq<(B256, Account)>)
    ensures
        account_leaves(state, rows) == rows.map_values(
            |row: (B256, Account)|
                (
                    unpacked(row.0.0@),
                    rlp_list(
                        rlp_number(be_bytes(row.1.nonce as nat, 8)) + rlp_number(row.1.balance.0@)
                            + rlp_string(
                            storage_root(
                                if state.storages.contains_key(row.0) {
                                    state.storages[row.0]
                                } else {
                                    Seq::empty()
                                },
                            ),
                        ) + rlp_string(
                            match row.1.bytecode_hash {
                                Some(hash) => hash.0@,
                                None => keccak_empty(),
                            },
                        ),
                    ),
                ),
        ),
{
}

/// The value of a leaf tells the account: accounts that differ in nonce, balance, storage root or
/// code have leaves with values that differ, whatever states they stand in.
pub proof fn lemma_account_leaf_tells_the_account(
    state: StateView,
    rows: Seq<(B256, Account)>,
    i: int,
    a_root: B256,
    other: StateView,
    others: Seq<(B256, Account)>,
    j: int,
    b_root: B256,
)
    requires
        0 <= i < rows.len(),
        0 <= j < others.len(),
        a_root.0@ == storage_root(state.slots(rows[i].0)),
        b_root.0@ == storage_root(other.slots(others[j].0)),
        account_leaves(state, rows)[i].1 == account_leaves(other, others)[j].1,
    ensures
        rows[i].1.nonce == others[j].1.nonce,
        rows[i].1.balance == others[j].1.balance,
        a_root == b_root,
        match (rows[i].1.bytecode_hash, others[j].1.bytecode_hash) {
            (Some(x), Some(y)) => x == y,
            (Some(x), None) => x.0@ == keccak_empty(),
            (None, Some(y)) => y.0@ == keccak_empty(),
            (None, None) => true,
        },
{
    let (a, b) = (rows[i].1, others[j].1);
    let (n, m) = (be_bytes(a.nonce as nat, 8), be_bytes(b.nonce as nat, 8));
    lemma_be_bytes_len(a.nonce as nat, 8);
    lemma_be_bytes_len(b.nonce as nat, 8);
    lemma_lists_of_four_are_told_apart(
        (n, a.balance.0@, a_root.0@, code_hash_of(a)),
        (m, b.balance.0@, b_root.0@, code_hash_of(b)),
    );
    lemma_same_array(a.balance.0, b.balance.0);
    lemma_same_array(a_root.0, b_root.0);
    assert(pow256(8) == 0x1_0000_0000_0000_0000) by {
        reveal_with_fuel(pow256, 9);
    }
    lemma_value_of_bytes(a.nonce as nat, 8);
    lemma_value_of_bytes(b.nonce as nat, 8);
    if a.bytecode_hash is Some && b.bytecode_hash is Some {
        lemma_same_array((a.bytecode_hash->0).0, (b.bytecode_hash->0).0);
    }
}

/// The encoding of a list of two numbers and two words tells all four.
proof fn lemma_lists_of_four_are_told_apart(
    a: (Seq<u8>, Seq<u8>, Seq<u8>, Seq<u8>),
    b: (Seq<u8>, Seq<u8>, Seq<u8>, Seq<u8>),
)
    requires
        a.0.len() == 8 && a.1.len() == 32 && a.2.len() == 32 && a.3.len() == 32,
        b.0.len() == 8 && b.1.len() == 32 && b.2.len() == 32 && b.3.len() == 32,
        rlp_list(rlp_number(a.0) + rlp_number(a.1) + rlp_string(a.2) + rlp_string(a.3)) == rlp_list(
            rlp_number(b.0) + rlp_number(b.1) + rlp_string(b.2) + rlp_string(b.3),
        ),
    ensures
        a == b,
{
    let p = rlp_number(a.0) + rlp_number(a.1) + rlp_string(a.2) + rlp_string(a.3);
    let q = rlp_number(b.0) + rlp_number(b.1) + rlp_string(b.2) + rlp_string(b.3);
    let (x, y) = (rlp_string(a.2) + rlp_string(a.3), rlp_string(b.2) + rlp_string(b.3));
    lemma_number_len(a.0);
    lemma_number_len(a.1);
    lemma_number_len(b.0);
    lemma_number_len(b.1);
    lemma_lists_are_told_apart(p, q);
    assert(p =~= rlp_number(a.0) + (rlp_number(a.1) + x));
    assert(q =~= rlp_number(b.0) + (rlp_number(b.1) + y));
    lemma_numbers_are_told_apart(a.0, rlp_number(a.1) + x, b.0, rlp_number(b.1) + y);
    lemma_numbers_are_told_apart(a.1, x, b.1, y);
    lemma_strings_are_told_apart(a.2, rlp_string(a.3), b.2, rlp_string(b.3));
    let end: Seq<u8> = Seq::empty();
    assert(rlp_string(a.3) + end =~= rlp_string(a.3) && rlp_string(b.3) + end =~= rlp_string(b.3));
    lemma_strings_are_told_apart(a.3, end, b.3, end);
}

/// The encoding of a number is at most a byte longer than the number.
proof fn lemma_number_len(s: Seq<u8>)
    requires
        s.len() <= 55,
    ensures
        1 <= rlp_number(s).len() <= s.len() + 1,
{
    lemma_zeros_do_not_count(s);
}

/// The encoding of a list tells its payload.
proof fn lemma_lists_are_told_apart(p: Seq<u8>, q: Seq<u8>)
    requires
        55 < p.len() < 256,
        55 < q.len() < 256,
        rlp_list(p) == rlp_list(q),
    ensures
        p == q,
{
    lemma_long_header(p.len());
    lemma_long_header(q.len());
    assert(p =~= rlp_list(p).skip(2));
    assert(q =~= rlp_list(q).skip(2));
}

/// The header of a list of more than 55 and fewer than 256 bytes has two bytes.
proof fn lemma_long_header(len: nat)
    requires
        55 < len < 256,
    ensures
        rlp_header(0xc0, len).len() == 2,
{
    let s = be_bytes(len, 8);
    assert(s =~= seq![0u8, 0, 0, 0, 0, 0, 0, len as u8]) by {
        reveal_with_fuel(be_bytes, 9);
    }
    assert(without_leading_zeros(s) =~= seq![len as u8]) by {
        reveal_with_fuel(without_leading_zeros, 9);
        assert(s.skip(1).skip(1).skip(1).skip(1).skip(1).skip(1).skip(1) =~= seq![len as u8]);
    }
}

} // verus!
