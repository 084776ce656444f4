//! RLP encodings, and the hashes and references of trie nodes.

use crate::bytes::{be_bytes, without_leading_zeros};
use crate::primitives::{Account, TrieAccount, B256, U256};
use alloy_rlp::Encodable;
use vstd::prelude::*;

verus! {

/// The Keccak-256 hash of `data`.
pub uninterp spec fn keccak_of(data: Seq<u8>) -> Seq<u8>;

/// The bytes of the hash of an empty code.
pub open spec fn keccak_empty() -> Seq<u8> {
    seq![
        0xc5u8, 0xd2, 0x46, 0x01, 0x86, 0xf7, 0x23, 0x3c, 0x92, 0x7e, 0x7d, 0xb2, 0xdc, 0xc7, 0x03,
        0xc0, 0xe5, 0x00, 0xb6, 0x53, 0xca, 0x82, 0x27, 0x3b, 0x7b, 0xfa, 0xd8, 0x04, 0x5d, 0x85,
        0xa4, 0x70,
    ]
}

/// The bytes of the root of a trie without leaves.
pub open spec fn empty_root() -> Seq<u8> {
    seq![
        0x56u8, 0xe8, 0x1f, 0x17, 0x1b, 0xcc, 0x55, 0xa6, 0xff, 0x83, 0x45, 0xe6, 0x92, 0xc0, 0xf8,
        0x6e, 0x5b, 0x48, 0xe0, 0x1b, 0x99, 0x6c, 0xad, 0xc0, 0x01, 0x62, 0x2f, 0xb5, 0xe3, 0x63,
        0xb4, 0x21,
    ]
}

/// The header of an RLP item whose payload has `len` bytes: one byte, or for more than 55 bytes
/// the number of bytes of the length and the length. `base` is 0x80 for a string, 0xc0 for a list.
pub open spec fn rlp_header(base: int, len: nat) -> Seq<u8> {
    let digits = without_leading_zeros(be_bytes(len, 8));
    if len <= 55 {
        seq![(base + len) as u8]
    } else {
        seq![(base + 55 + digits.len()) as u8] + digits
    }
}

/// The RLP encoding of a string of bytes.
pub open spec fn rlp_string(s: Seq<u8>) -> Seq<u8> {
    if s.len() == 1 && s[0] < 0x80 {
        s
    } else {
        rlp_header(0x80, s.len()) + s
    }
}

/// The RLP encoding of a list whose items are encoded in `payload`.
pub open spec fn rlp_list(payload: Seq<u8>) -> Seq<u8> {
    rlp_header(0xc0, payload.len()) + payload
}

/// The RLP encoding of a number with the given big-endian bytes.
pub open spec fn rlp_number(be: Seq<u8>) -> Seq<u8> {
    rlp_string(without_leading_zeros(be))
}

/// The RLP encoding of an account.
pub open spec fn rlp_account(
    nonce: u64,
    balance: Seq<u8>,
    storage_root: Seq<u8>,
    code_hash: Seq<u8>,
) -> Seq<u8> {
    rlp_list(
        rlp_number(be_bytes(nonce as nat, 8)) + rlp_number(balance) + rlp_string(storage_root)
            + rlp_string(code_hash),
    )
}

/// The bytes of the code hash of an account.
pub open spec fn code_hash_of(account: Account) -> Seq<u8> {
    match account.bytecode_hash {
        Some(hash) => hash.bytes(),
        None => keccak_empty(),
    }
}

/// The value of the leaf of an account with the given storage root.
pub open spec fn account_value(account: Account, storage_root: Seq<u8>) -> Seq<u8> {
    rlp_account(account.nonce, account.balance.bytes(), storage_root, code_hash_of(account))
}

/// What a parent node holds for a child with the RLP encoding `rlp`: the encoding itself where it
/// is shorter than a hash, else the encoded hash.
pub open spec fn reference(rlp: Seq<u8>) -> Seq<u8> {
    if rlp.len() < 32 {
        rlp
    } else {
        rlp_string(keccak_of(rlp))
    }
}

/// The hash of the node with the given reference.
pub open spec fn reference_hash(node: Seq<u8>) -> Seq<u8> {
    if node.len() == 33 {
        node.skip(1)
    } else {
        keccak_of(node)
    }
}

/// The slots of a branch node from `i` on, and its empty value.
pub open spec fn branch_payload(slots: Seq<Option<Seq<u8>>>, i: int) -> Seq<u8>
    decreases slots.len() - i,
{
    if i >= slots.len() {
        seq![0x80u8]
    } else {
        let slot = match slots[i] {
            Some(node) => node,
            None => seq![0x80u8],
        };
        slot + branch_payload(slots, i + 1)
    }
}

/// The reference of the branch node with the given slots.
pub open spec fn branch_reference(slots: Seq<Option<Seq<u8>>>) -> Seq<u8> {
    reference(rlp_list(branch_payload(slots, 0)))
}

/// Whether `mask` has the bit `i`.
pub open spec fn has_bit(mask: u16, i: int) -> bool {
    mask & (1u16 << (i as u16)) != 0
}

/// The number of bits of `mask` below `i`.
pub open spec fn bits_below(mask: u16, i: int) -> nat
    decreases i,
{
    if i <= 0 {
        0
    } else {
        bits_below(mask, i - 1) + if has_bit(mask, i - 1) {
            1nat
        } else {
            0nat
        }
    }
}

/// The slots that hold `children` in order where `mask` has a bit, and nothing elsewhere.
pub open spec fn slots_of(children: Seq<Seq<u8>>, mask: u16) -> Seq<Option<Seq<u8>>> {
    Seq::new(
        16,
        |i: int|
            if has_bit(mask, i) {
                Some(children[bits_below(mask, i) as int])
            } else {
                None
            },
    )
}

/// `alloy_primitives::keccak256`: the Keccak-256 hash of the bytes, a function of them alone.
#[verifier::external_body]
pub(crate) fn keccak256(data: &[u8]) -> (r: B256)
    ensures
        r.bytes() == keccak_of(data@),
{
    B256(alloy_primitives::keccak256(data).0)
}

/// `alloy_trie::EMPTY_ROOT_HASH`, the constant with these 32 bytes.
#[verifier::external_body]
pub(crate) fn empty_root_hash() -> (r: B256)
    ensures
        r.bytes() == empty_root(),
{
    B256(alloy_trie::EMPTY_ROOT_HASH.0)
}

/// `alloy_rlp::encode_fixed_size` on a 256-bit number: its bytes without the leading zeros, as an
/// RLP string.
#[verifier::external_body]
pub(crate) fn encode_number(value: &U256) -> (r: Vec<u8>)
    ensures
        r@ == rlp_number(value.bytes()),
{
    alloy_rlp::encode_fixed_size(&alloy_primitives::U256::from_be_bytes(value.0)).to_vec()
}

/// `Account::into_trie_account` of `reth_primitives_traits`: the account with its storage root,
/// where an account without code has the hash of an empty code.
#[verifier::external_body]
pub(crate) fn into_trie_account(account: &Account, storage_root: &B256) -> (r: TrieAccount)
    ensures
        r.nonce == account.nonce,
        r.balance.bytes() == account.balance.bytes(),
        r.storage_root.bytes() == storage_root.bytes(),
        r.code_hash.bytes() == code_hash_of(*account),
{
    let balance = alloy_primitives::U256::from_be_bytes(account.balance.0);
    let code = account.bytecode_hash.map(|hash| alloy_primitives::B256::from(hash.0));
    let full = reth_primitives_traits::Account::new(account.nonce, balance, code)
        .into_trie_account(alloy_primitives::B256::from(storage_root.0));
    TrieAccount {
        nonce: full.nonce,
        balance: U256(full.balance.to_be_bytes()),
        storage_root: B256(full.storage_root.0),
        code_hash: B256(full.code_hash.0),
    }
}

/// `encode` of `alloy_trie::TrieAccount`: the RLP list of the nonce, the balance, the storage root
/// and the code hash.
#[verifier::external_body]
pub(crate) fn encode_account(account: &TrieAccount) -> (r: Vec<u8>)
    ensures
        r@ == rlp_account(
            account.nonce,
            account.balance.bytes(),
            account.storage_root.bytes(),
            account.code_hash.bytes(),
        ),
{
    let mut out = Vec::new();
    alloy_trie::TrieAccount::new(
        account.nonce,
        alloy_primitives::U256::from_be_bytes(account.balance.0),
        alloy_primitives::B256::from(account.storage_root.0),
        alloy_primitives::B256::from(account.code_hash.0),
    ).encode(&mut out);
    out
}

/// `BranchNodeRef::new` and `rlp` of `alloy_trie`: the reference of the branch node that holds the
/// children where the mask has a bit. A reference has at most 33 bytes.
#[verifier::external_body]
pub(crate) fn branch_rlp(children: &Vec<Vec<u8>>, mask: u16) -> (r: Vec<u8>)
    requires
        children@.len() == bits_below(mask, 16),
        forall|i: int| 0 <= i < children@.len() ==> (#[trigger] children@[i])@.len() <= 33,
    ensures
        r@ == branch_reference(slots_of(children@.map_values(|c: Vec<u8>| c@), mask)),
{
    let stack: Vec<alloy_trie::nodes::RlpNode> = children
        .iter()
        .map(|child| alloy_trie::nodes::RlpNode::from_raw(child).unwrap())
        .collect();
    let mask = alloy_trie::TrieMask::new(mask);
    let mut buf = Vec::new();
    alloy_trie::nodes::BranchNodeRef::new(&stack, mask).rlp(&mut buf).to_vec()
}

} // verus!
