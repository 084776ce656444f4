//! Rows read from and written to the tables, and collected updates.

use std::collections::BTreeMap;
use trie_gen::digest::NodeDigest;
use trie_gen::generate::{generate, Config};
use trie_gen::memory::MemoryState;
use trie_gen::nibbles::Nibbles;
use trie_gen::node::BranchNodeCompact;
use trie_gen::primitives::{Account, B256, U256};
use trie_gen::sink::OnNode;
use trie_gen::synth::{synthesize, Rng, SynthConfig};
use trie_gen::tables::{
    hashed_rows, nibble_range, plan_writes, uses_packed_trie_keys, written_entries, HashedRow,
    StorageSettings, TableWrite, TablesScan, WriteOutcome,
};
use trie_gen::updates::{
    without_empty_storage_tries, StorageTrieUpdates, TrieUpdates, TrieUpdatesSink,
};
use trie_gen::writer::{ChunkWriter, Written};

fn node(mask: u16) -> BranchNodeCompact {
    BranchNodeCompact {
        state_mask: mask,
        tree_mask: 0,
        hash_mask: 0,
        hashes: Vec::new(),
        root_hash: None,
    }
}

fn path(nibbles: &[u8]) -> Nibbles {
    Nibbles::from_nibbles(nibbles)
}

#[test]
fn rows_come_account_by_account() {
    let mut state = MemoryState::default();
    let account = Account { nonce: 4, balance: U256::from(1), bytecode_hash: None };
    let (a, b, c) = (B256::repeat_byte(1), B256::repeat_byte(2), B256::repeat_byte(3));
    state.insert_account(b, account);
    state.insert_account(a, account);
    state.insert_storage(a, B256::repeat_byte(9), U256::from(90));
    state.insert_storage(a, B256::repeat_byte(8), U256::from(80));
    // Slots of an address without account are not written.
    state.insert_storage(c, B256::repeat_byte(8), U256::from(80));
    let rows = hashed_rows(state.sorted());
    assert_eq!(
        rows,
        vec![
            HashedRow::Account(a, account),
            HashedRow::Storage(a, B256::repeat_byte(8), U256::from(80)),
            HashedRow::Storage(a, B256::repeat_byte(9), U256::from(90)),
            HashedRow::Account(b, account),
        ]
    );
}

#[test]
fn only_recorded_v2_settings_mean_packed_keys() {
    assert!(!uses_packed_trie_keys(None));
    assert!(!uses_packed_trie_keys(Some(StorageSettings { storage_v2: false })));
    assert!(uses_packed_trie_keys(Some(StorageSettings::v2())));
}

#[test]
fn every_key_lies_in_the_range_of_its_first_nibble() {
    let mut rng = Rng::new(12);
    for _ in 0..400 {
        let key = rng.next_b256();
        for nibble in 0u8..16 {
            let (low, high) = nibble_range(nibble);
            assert_eq!(low <= key && key <= high, key.0[0] >> 4 == nibble);
        }
    }
    let (low, high) = nibble_range(0xa);
    assert_eq!(low.0[0], 0xa0);
    assert_eq!(&low.0[1..], &[0; 31]);
    assert_eq!(high.0[0], 0xaf);
    assert_eq!(&high.0[1..], &[0xff; 31]);
}

#[test]
fn a_scan_counts_and_digests_both_tables() {
    let mut state = synthesize(&SynthConfig {
        seed: 11,
        eoas: 2_000,
        small_contracts: 300,
        small_slots_max: 24,
        large_contracts: vec![3_000],
    });
    let mut sink = TrieUpdatesSink::default();
    generate(&state.cursor_factory(), &Config::default(), &mut sink).unwrap();
    let updates = sink.into_trie_updates();
    let mut storage_nodes = 0;
    let mut scan = TablesScan::new();
    for path in updates.account_nodes.keys() {
        scan.row(None, &path, updates.account_nodes.get(&path).unwrap());
    }
    for nibble in 0u8..16 {
        let (low, high) = nibble_range(nibble);
        let mut part = TablesScan::new();
        for address in updates.storage_tries.keys() {
            if address < low || address > high {
                continue;
            }
            let trie = updates.storage_tries.get(&address).unwrap();
            for path in trie.storage_nodes.keys() {
                part.row(Some(address), &path, trie.storage_nodes.get(&path).unwrap());
                storage_nodes += 1;
            }
        }
        scan.merge(part);
    }
    let tables = scan.finish();
    assert_eq!(tables.account_nodes, updates.account_nodes.len() as u64);
    assert_eq!(tables.storage_nodes, storage_nodes);
    assert!(tables.storage_nodes > 0);
    assert_eq!(tables.digest, NodeDigest::of_trie_updates(&updates));
    assert_eq!(tables.digest.count, tables.account_nodes + tables.storage_nodes);
}

#[test]
fn writes_come_in_key_order() {
    let mut updates = TrieUpdates::default();
    updates.insert_node(None, path(&[5]), node(5));
    updates.insert_node(None, path(&[]), node(1));
    updates.insert_node(None, path(&[2, 3]), node(23));
    updates.removed_nodes.insert(path(&[2]), ());
    updates.removed_nodes.insert(path(&[5]), ());
    updates.insert_node(Some(B256::repeat_byte(9)), path(&[1]), node(9));
    updates.insert_node(Some(B256::repeat_byte(4)), path(&[1]), node(4));
    let mut seen = Vec::new();
    for write in plan_writes(updates) {
        seen.push(match write {
            TableWrite::Upsert(path, node) => {
                format!("upsert {:?} {}", path.as_slice(), node.state_mask)
            }
            TableWrite::Delete(path) => format!("delete {:?}", path.as_slice()),
            TableWrite::Storage(address, trie) => {
                format!("storage {} {}", address.0[0], trie.storage_nodes.len())
            }
        });
    }
    assert_eq!(
        seen,
        vec!["delete [2]", "upsert [2, 3] 23", "upsert [5] 5", "storage 4 1", "storage 9 1"]
    );
}

#[test]
fn the_nodes_of_a_build_are_all_written() {
    let mut state = synthesize(&SynthConfig::default());
    let mut sink = TrieUpdatesSink::default();
    generate(&state.cursor_factory(), &Config::default(), &mut sink).unwrap();
    let updates = sink.into_trie_updates();
    let accounts = updates.account_nodes.len();
    let storages = updates.storage_tries.len();
    let writes = plan_writes(updates);
    let mut upserts = 0;
    for write in &writes {
        if matches!(write, TableWrite::Upsert(_, _)) {
            upserts += 1;
        }
    }
    assert_eq!(upserts, accounts);
    assert_eq!(writes.len(), accounts + storages);
}

/// The nodes of the tables by account and path.
type Tables = BTreeMap<(Option<[u8; 32]>, Vec<u8>), u16>;

/// Applies updates to the tables; returns the number of entries written.
fn apply(tables: &mut Tables, updates: TrieUpdates) -> usize {
    let mut outcomes = Vec::new();
    for write in plan_writes(updates) {
        match write {
            TableWrite::Upsert(path, node) => {
                tables.insert((None, path.as_slice().to_vec()), node.state_mask);
                outcomes.push(WriteOutcome::Upserted);
            }
            TableWrite::Delete(path) => {
                let found = tables.remove(&(None, path.as_slice().to_vec())).is_some();
                outcomes.push(WriteOutcome::Deleted(found));
            }
            TableWrite::Storage(address, trie) => {
                for path in trie.storage_nodes.keys() {
                    let place = (Some(address.0), path.as_slice().to_vec());
                    tables.insert(place, trie.storage_nodes.get(&path).unwrap().state_mask);
                }
                outcomes.push(WriteOutcome::Storage(trie.storage_nodes.len()));
            }
        }
    }
    written_entries(&outcomes).unwrap()
}

/// Commits the nodes that it receives in chunks.
struct Committing {
    writer: ChunkWriter,
    tables: Tables,
}

impl OnNode for Committing {
    fn on_node(&mut self, account: Option<B256>, path: Nibbles, node: BranchNodeCompact) {
        assert!(!self.writer.holds(&account, &path));
        if let Some(chunk) = self.writer.push(account, path, node) {
            let nodes = apply(&mut self.tables, chunk);
            self.writer.committed(nodes);
        }
    }
}

#[test]
fn chunked_writing_leaves_the_build() {
    let mut state = synthesize(&SynthConfig::default());
    let mut sink = TrieUpdatesSink::default();
    generate(&state.cursor_factory(), &Config::default(), &mut sink).unwrap();
    let updates = sink.into_trie_updates();
    let nodes = NodeDigest::of_trie_updates(&updates).count as usize;
    let mut whole = Tables::new();
    assert_eq!(apply(&mut whole, updates), nodes);
    assert_eq!(whole.len(), nodes);
    for size in [1, 7, 50, 1_000_000] {
        let mut sink = Committing { writer: ChunkWriter::new(size), tables: Tables::new() };
        generate(&state.cursor_factory(), &Config::default(), &mut sink).unwrap();
        if let Some(rest) = sink.writer.take_rest() {
            let nodes = apply(&mut sink.tables, rest);
            sink.writer.committed(nodes);
        }
        assert_eq!(sink.tables, whole);
        assert_eq!(sink.writer.written(), Written { nodes, chunks: nodes.div_ceil(size) });
    }
}

#[test]
fn removed_nodes_leave_the_tables() {
    let mut tables = Tables::new();
    for nibble in [1u8, 2, 3] {
        tables.insert((None, vec![nibble]), 100 + u16::from(nibble));
    }
    tables.insert((None, vec![]), 7);
    let mut updates = TrieUpdates::default();
    updates.insert_node(None, path(&[]), node(1));
    updates.insert_node(None, path(&[2]), node(22));
    updates.insert_node(None, path(&[5]), node(55));
    updates.removed_nodes.insert(path(&[2]), ());
    updates.removed_nodes.insert(path(&[3]), ());
    updates.removed_nodes.insert(path(&[4]), ());
    // Two nodes are written and one that is there is removed.
    assert_eq!(apply(&mut tables, updates), 3);
    let mut expected = Tables::new();
    expected.insert((None, vec![]), 7);
    expected.insert((None, vec![1]), 101);
    expected.insert((None, vec![2]), 22);
    expected.insert((None, vec![5]), 55);
    assert_eq!(tables, expected);
}

#[test]
fn nodes_are_found_at_their_place() {
    let mut updates = TrieUpdates::default();
    let account = Some(B256::repeat_byte(1));
    updates.insert_node(None, path(&[5]), node(5));
    updates.insert_node(account, path(&[6]), node(6));
    assert!(updates.contains_node(&None, &path(&[5])));
    assert!(!updates.contains_node(&None, &path(&[6])));
    assert!(updates.contains_node(&account, &path(&[6])));
    assert!(!updates.contains_node(&account, &path(&[5])));
    assert!(!updates.contains_node(&Some(B256::repeat_byte(2)), &path(&[6])));
}

#[test]
fn written_entries_add_up() {
    assert_eq!(written_entries(&vec![]), Some(0));
    assert_eq!(
        written_entries(&vec![
            WriteOutcome::Upserted,
            WriteOutcome::Deleted(true),
            WriteOutcome::Deleted(false),
            WriteOutcome::Storage(40),
            WriteOutcome::Upserted,
        ]),
        Some(43)
    );
    let full = WriteOutcome::Storage(usize::MAX);
    assert_eq!(written_entries(&vec![full, WriteOutcome::Deleted(false)]), Some(usize::MAX));
    assert_eq!(written_entries(&vec![full, WriteOutcome::Upserted]), None);
}

#[test]
fn empty_storage_tries_are_dropped() {
    let mut updates = TrieUpdates::default();
    updates.insert_node(None, path(&[1]), node(1));
    updates.insert_node(Some(B256::repeat_byte(1)), path(&[1]), node(1));
    updates.storage_tries.insert(B256::repeat_byte(2), StorageTrieUpdates::new());
    let mut removing = StorageTrieUpdates::new();
    removing.removed_nodes.insert(path(&[3]), ());
    updates.storage_tries.insert(B256::repeat_byte(3), removing);
    let kept = without_empty_storage_tries(updates);
    assert_eq!(kept.account_nodes.len(), 1);
    assert_eq!(kept.storage_tries.keys(), vec![B256::repeat_byte(1), B256::repeat_byte(3)]);
}

#[test]
fn shards_are_merged_back() {
    let mut sink = TrieUpdatesSink::default();
    let mut plain = TrieUpdates::default();
    for i in 0..16u8 {
        sink.on_branch_node(None, path(&[i, 15 - i]), node(i as u16));
        plain.insert_node(None, path(&[i, 15 - i]), node(i as u16));
        let address = Some(B256::repeat_byte(i * 16 + 3));
        for j in 0..3u8 {
            sink.on_node(address, path(&[j]), node(j as u16));
            plain.insert_node(address, path(&[j]), node(j as u16));
        }
    }
    // Only nodes of the state trie are sharded by their path.
    let address = Some(B256::repeat_byte(0x33));
    sink.on_branch_node(address, path(&[]), node(7));
    plain.insert_node(address, path(&[]), node(7));
    assert_eq!(sink.into_trie_updates(), plain);
    assert_eq!(TrieUpdatesSink::default().into_trie_updates(), TrieUpdates::default());
}
