//! The order-independent digest.

use std::hash::BuildHasher;
use trie_gen::digest::{node_row, Digest, NodeDigest};
use trie_gen::nibbles::Nibbles;
use trie_gen::node::BranchNodeCompact;
use trie_gen::primitives::B256;
use trie_gen::sink::OnNode;
use trie_gen::updates::TrieUpdates;

fn node(seed: u8) -> BranchNodeCompact {
    BranchNodeCompact {
        state_mask: 0x0102 + seed as u16,
        tree_mask: 0x0300,
        hash_mask: 0x0004,
        hashes: vec![B256::repeat_byte(seed); (seed % 3) as usize],
        root_hash: if seed % 2 == 0 { None } else { Some(B256::repeat_byte(0xee)) },
    }
}

fn path(nibbles: &[u8]) -> Nibbles {
    Nibbles::from_nibbles(nibbles)
}

/// The row and its hash, spelled out.
fn expected_row(address: Option<u8>, nibbles: &[u8], packed: &[u8], seed: u8) -> Vec<u8> {
    let mut row = vec![address.unwrap_or(0); 32];
    row.push(address.is_some() as u8);
    row.push(nibbles.len() as u8);
    row.extend_from_slice(packed);
    row.extend_from_slice(&(0x0102u16 + seed as u16).to_be_bytes());
    row.extend_from_slice(&[0x03, 0x00, 0x00, 0x04]);
    for _ in 0..seed % 3 {
        row.extend_from_slice(&[seed; 32]);
    }
    if seed % 2 == 0 {
        row.extend_from_slice(&[0; 33]);
    } else {
        row.extend_from_slice(&[0xee; 32]);
        row.push(1);
    }
    row
}

fn hash(row: &Vec<u8>) -> u128 {
    let high = foldhash::fast::FixedState::with_seed(0x7472_6965_2d67_656e).hash_one(row);
    let low = foldhash::fast::FixedState::with_seed(0x6e6f_6465_2d64_6967).hash_one(row);
    ((high as u128) << 64) | low as u128
}

#[test]
fn rows_spell_out_the_identity_of_a_node() {
    let address = Some(B256::repeat_byte(0x44));
    let row = node_row(&address, &path(&[1, 2, 3]), &node(5));
    assert_eq!(row, expected_row(Some(0x44), &[1, 2, 3], &[0x12, 0x30], 5));
    let row = node_row(&None, &path(&[]), &node(2));
    assert_eq!(row, expected_row(None, &[], &[], 2));
}

#[test]
fn digest_is_the_xor_of_the_row_hashes() {
    let mut digest = NodeDigest::default();
    assert_eq!(digest.snapshot(), Digest { count: 0, fold: 0 });
    digest.push(None, &path(&[7]), &node(1));
    let first = expected_row(None, &[7], &[0x70], 1);
    assert_eq!(digest.snapshot(), Digest { count: 1, fold: hash(&first) });
    digest.push(Some(B256::repeat_byte(9)), &path(&[7, 8]), &node(4));
    let second = expected_row(Some(9), &[7, 8], &[0x78], 4);
    assert_eq!(digest.snapshot(), Digest { count: 2, fold: hash(&first) ^ hash(&second) });
}

#[test]
fn order_does_not_matter() {
    let mut forward = NodeDigest::default();
    let mut backward = NodeDigest::default();
    for i in 0..40u8 {
        forward.on_node(None, path(&[i % 16, i / 16]), node(i));
        let j = 39 - i;
        backward.push(None, &path(&[j % 16, j / 16]), &node(j));
    }
    assert_eq!(forward.snapshot(), backward.snapshot());
    backward.push(None, &path(&[1]), &node(0));
    assert_ne!(forward.snapshot(), backward.snapshot());
}

#[test]
fn every_part_of_a_node_counts() {
    let base = || {
        let mut digest = NodeDigest::default();
        digest.push(None, &path(&[3, 4]), &node(5));
        digest.snapshot()
    };
    let with = |address: Option<B256>, nibbles: &[u8], node: BranchNodeCompact| {
        let mut digest = NodeDigest::default();
        digest.push(address, &path(nibbles), &node);
        digest.snapshot()
    };
    assert_eq!(base(), with(None, &[3, 4], node(5)));
    assert_ne!(base(), with(Some(B256::zero()), &[3, 4], node(5)));
    assert_ne!(base(), with(None, &[3, 4, 0], node(5)));
    assert_ne!(base(), with(None, &[3], node(5)));
    assert_ne!(base(), with(None, &[3, 4], BranchNodeCompact { state_mask: 1, ..node(5) }));
    assert_ne!(base(), with(None, &[3, 4], BranchNodeCompact { tree_mask: 1, ..node(5) }));
    assert_ne!(base(), with(None, &[3, 4], BranchNodeCompact { hash_mask: 1, ..node(5) }));
    assert_ne!(base(), with(None, &[3, 4], BranchNodeCompact { hashes: vec![], ..node(5) }));
    assert_ne!(base(), with(None, &[3, 4], BranchNodeCompact { root_hash: None, ..node(5) }));
}

#[test]
fn merging_is_folding_one_after_the_other() {
    let mut whole = NodeDigest::default();
    let mut left = NodeDigest::default();
    let mut right = NodeDigest::default();
    for i in 0..20u8 {
        whole.push(None, &path(&[i % 16, i / 16]), &node(i));
        let half = if i < 7 { &mut left } else { &mut right };
        half.push(None, &path(&[i % 16, i / 16]), &node(i));
    }
    let (a, b) = (left.snapshot(), right.snapshot());
    assert_eq!(whole.snapshot().count, a.count + b.count);
    assert_eq!(whole.snapshot().fold, a.fold ^ b.fold);
    left.merge(right);
    assert_eq!(left.snapshot(), whole.snapshot());
    let nothing = NodeDigest::default().snapshot();
    assert_eq!((nothing.count, nothing.fold), (0, 0));
}

#[test]
fn updates_are_digested_without_removed_nodes() {
    let mut updates = TrieUpdates::default();
    let mut digest = NodeDigest::default();
    for i in 0..10u8 {
        let address = if i < 4 { None } else { Some(B256::repeat_byte(i / 3)) };
        assert!(updates.insert_node(address, path(&[i, 1]), node(i)).is_none());
        digest.push(address, &path(&[i, 1]), &node(i));
    }
    updates.removed_nodes.insert(path(&[15]), ());
    assert_eq!(NodeDigest::of_trie_updates(&updates), digest.snapshot());
    assert_eq!(digest.snapshot().count, 10);
    assert_eq!(updates.insert_node(None, path(&[0, 1]), node(9)), Some(node(0)));
    assert_ne!(NodeDigest::of_trie_updates(&updates), digest.snapshot());
}
