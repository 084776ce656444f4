//! Partitioned generation must be indistinguishable from the serial path, and from a single hash
//! builder over the same rows.

use alloy_trie::HashBuilder;
use std::collections::BTreeMap;
use trie_gen::collect::TrieUpdatesCollector;
use trie_gen::digest::NodeDigest;
use trie_gen::generate::{generate, Config};
use trie_gen::memory::{MemorySink, MemoryState};
use trie_gen::nibbles::Nibbles;
use trie_gen::node::BranchNodeCompact;
use trie_gen::primitives::{Account, B256, U256};
use trie_gen::sink::Discard;
use trie_gen::synth::{synthesize, SynthConfig};
use trie_gen::updates::{without_empty_storage_tries, TrieUpdates, TrieUpdatesSink};

type Node = (u16, u16, u16, Vec<[u8; 32]>, bool);
type Nodes = BTreeMap<(Option<[u8; 32]>, Vec<u8>), Node>;

/// The nodes and the root of one builder over sorted leaves.
fn build(account: Option<[u8; 32]>, leaves: &[([u8; 32], Vec<u8>)], nodes: &mut Nodes) -> [u8; 32] {
    let mut hb = HashBuilder::default().with_updates(true);
    for (key, value) in leaves {
        hb.add_leaf(nybbles::Nibbles::unpack(key), value);
    }
    let root = hb.root();
    let (_, updates) = hb.split();
    for (path, node) in updates {
        if path.is_empty() {
            continue;
        }
        let hashes = node.hashes.iter().map(|h| h.0).collect();
        nodes.insert(
            (account, path.to_vec()),
            (
                node.state_mask.get(),
                node.tree_mask.get(),
                node.hash_mask.get(),
                hashes,
                node.root_hash.is_some(),
            ),
        );
    }
    root.0
}

/// The answer of a serial walk over the same rows.
fn reference(state: &MemoryState) -> ([u8; 32], Nodes) {
    let mut nodes = Nodes::new();
    let mut leaves = Vec::new();
    for (address, account) in state.iter_accounts() {
        let slots: Vec<([u8; 32], Vec<u8>)> = state
            .iter_storage(&address)
            .into_iter()
            .map(|(slot, value)| {
                (slot.0, alloy_rlp::encode(alloy_primitives::U256::from_be_bytes(value.0)))
            })
            .collect();
        let storage_root = build(Some(address.0), &slots, &mut nodes);
        let account = alloy_trie::TrieAccount {
            nonce: account.nonce,
            balance: alloy_primitives::U256::from_be_bytes(account.balance.0),
            storage_root: alloy_primitives::B256::from(storage_root),
            code_hash: match account.bytecode_hash {
                Some(hash) => alloy_primitives::B256::from(hash.0),
                None => alloy_trie::KECCAK_EMPTY,
            },
        };
        leaves.push((address.0, alloy_rlp::encode(account)));
    }
    let root = build(None, &leaves, &mut nodes);
    (root, nodes)
}

fn plain(node: &BranchNodeCompact) -> Node {
    (
        node.state_mask,
        node.tree_mask,
        node.hash_mask,
        node.hashes.iter().map(|h| h.0).collect(),
        node.root_hash.is_some(),
    )
}

fn sink_nodes(sink: MemorySink) -> Nodes {
    let (accounts, storages) = sink.into_maps();
    let mut nodes = Nodes::new();
    for path in accounts.keys() {
        nodes.insert((None, path.as_slice().to_vec()), plain(accounts.get(&path).unwrap()));
    }
    for key in storages.keys() {
        nodes.insert(
            (Some(key.hashed_address.0), key.path.as_slice().to_vec()),
            plain(storages.get(&key).unwrap()),
        );
    }
    nodes
}

fn update_nodes(updates: &TrieUpdates) -> Nodes {
    let mut nodes = Nodes::new();
    for path in updates.account_nodes.keys() {
        let node = updates.account_nodes.get(&path).unwrap();
        nodes.insert((None, path.as_slice().to_vec()), plain(node));
    }
    for address in updates.storage_tries.keys() {
        let trie = updates.storage_tries.get(&address).unwrap();
        for path in trie.storage_nodes.keys() {
            let node = trie.storage_nodes.get(&path).unwrap();
            nodes.insert((Some(address.0), path.as_slice().to_vec()), plain(node));
        }
    }
    nodes
}

fn check(state: &mut MemoryState) {
    let (reference_root, reference_nodes) = reference(state);
    let accounts = state.account_count() as u64;
    let factory = state.cursor_factory();

    let mut serial_sink = MemorySink::default();
    let serial =
        generate(&factory, &Config { partitioned: false }, &mut serial_sink).unwrap();
    let mut par_sink = MemorySink::default();
    let par = generate(&factory, &Config { partitioned: true }, &mut par_sink).unwrap();
    assert_eq!(par, serial, "partitioned vs serial result");
    assert_eq!(serial.accounts, accounts, "accounts in state");
    assert_eq!(serial.root.0, reference_root, "root vs one builder");

    let serial_nodes = sink_nodes(serial_sink);
    assert_eq!(sink_nodes(par_sink), serial_nodes, "nodes of the two paths");
    assert_eq!(serial_nodes, reference_nodes, "nodes vs one builder");

    let mut collector = TrieUpdatesCollector::default();
    generate(&factory, &Config { partitioned: true }, &mut collector).unwrap();
    let mut sharded = TrieUpdatesSink::default();
    generate(&factory, &Config { partitioned: true }, &mut sharded).unwrap();
    let mut digest = NodeDigest::default();
    generate(&factory, &Config { partitioned: true }, &mut digest).unwrap();

    let collected = collector.into_updates();
    let sharded = sharded.into_trie_updates();
    assert_eq!(collected, sharded, "collector vs shards");
    assert_eq!(update_nodes(&collected), reference_nodes, "updates vs one builder");
    assert_eq!(digest.snapshot(), NodeDigest::of_trie_updates(&collected), "digest vs updates");
    assert_eq!(digest.snapshot().count as usize, reference_nodes.len());
    assert_eq!(
        without_empty_storage_tries(collected),
        without_empty_storage_tries(sharded),
        "updates on content"
    );

    let mut nowhere = Discard::new();
    let rootless = generate(&factory, &Config::default(), &mut nowhere).unwrap();
    assert_eq!(rootless, serial);
}

fn eoa(nonce: u64) -> Account {
    Account { nonce, balance: U256::from(nonce + 1), bytecode_hash: None }
}

/// A key starting with `bytes`, zero-padded.
fn key(bytes: &[u8]) -> B256 {
    B256::right_padding_from(bytes)
}

#[test]
fn parity_empty_state() {
    let mut state = MemoryState::default();
    check(&mut state);
    let root = generate(&state.cursor_factory(), &Config::default(), &mut Discard::new());
    assert_eq!(root.unwrap().root.0, alloy_trie::EMPTY_ROOT_HASH.0);
}

#[test]
fn parity_single_account() {
    let mut state = MemoryState::default();
    state.insert_account(B256::repeat_byte(0x11), eoa(1));
    check(&mut state);
}

#[test]
fn parity_all_accounts_share_first_nibble() {
    // Single populated partition: the real root is an extension, not a branch.
    let mut state = MemoryState::default();
    for i in 0..30u8 {
        state.insert_account(key(&[0x70 | (i % 16), i.wrapping_mul(17), i]), eoa(i as u64));
    }
    check(&mut state);
}

#[test]
fn parity_two_leaf_partitions_only() {
    // Root branch with two leaf children: nothing is stored, not even the root.
    let mut state = MemoryState::default();
    state.insert_account(key(&[0x10]), eoa(0));
    state.insert_account(key(&[0xa0]), eoa(0));
    assert!(reference(&state).1.is_empty());
    check(&mut state);
}

#[test]
fn parity_partition_with_deep_common_prefix() {
    // One partition whose keys share several nibbles (extension child of the root), another
    // that branches immediately, another with a single leaf; some with storage.
    let mut state = MemoryState::default();
    let mut add = |bytes: [u8; 3], slots: usize| {
        let hashed_address = key(&bytes);
        let bytecode_hash = if slots > 0 { Some(B256::repeat_byte(0xcc)) } else { None };
        state.insert_account(
            hashed_address,
            Account { nonce: 3, balance: U256::from(9), bytecode_hash },
        );
        for s in 0..slots {
            state.insert_storage(
                hashed_address,
                B256::repeat_byte(s as u8 + 1),
                U256::from(s as u64 + 1),
            );
        }
    };
    add([0x12, 0x34, 0x50], 0);
    add([0x12, 0x34, 0x60], 3);
    add([0x12, 0x34, 0x70], 0);
    add([0x40, 0x00, 0x00], 0);
    add([0x4f, 0x00, 0x00], 40);
    add([0xe0, 0x00, 0x00], 1);
    check(&mut state);
}

/// A contract at `hashed_address` with `slots`, as `(hashed_slot, value)`.
fn contract(state: &mut MemoryState, hashed_address: B256, slots: &[(B256, u64)]) {
    let account =
        Account { nonce: 1, balance: U256::from(5), bytecode_hash: Some(B256::repeat_byte(0xcc)) };
    state.insert_account(hashed_address, account);
    for (hashed_slot, value) in slots {
        state.insert_storage(hashed_address, *hashed_slot, U256::from(*value));
    }
}

#[test]
fn storage_tries_sized_by_first_slot() {
    // Slots spread over several first nibbles, and first slots with more or fewer leading zero
    // bits.
    let mut state = MemoryState::default();
    let spread = |lead: u8| -> Vec<(B256, u64)> {
        (0u8..40)
            .map(|i| (key(&[lead.wrapping_add(i.wrapping_mul(7)), i, 0xee]), 1_000 + u64::from(i)))
            .collect()
    };
    let with_first = |first: B256, mut slots: Vec<(B256, u64)>| {
        slots.push((first, 77));
        slots
    };
    contract(&mut state, key(&[0x11]), &with_first(B256::with_last_byte(1), spread(0x10)));
    contract(&mut state, key(&[0x22]), &with_first(key(&[0x00, 0x00, 0x0f, 0x42]), spread(0x00)));
    contract(&mut state, key(&[0x33]), &with_first(key(&[0x00, 0x00, 0x10]), spread(0x20)));
    contract(&mut state, key(&[0x44]), &[(B256::with_last_byte(9), 3)]);
    contract(&mut state, key(&[0x55]), &with_first(key(&[0x00, 0x02, 0x42]), spread(0x30)));
    contract(&mut state, key(&[0x66]), &with_first(key(&[0x00, 0x04]), spread(0x20)));
    check(&mut state);
}

#[test]
fn inline_storage_subtries() {
    // Two slots sharing 63 nibbles with one-byte values form a branch of under 32 bytes of RLP,
    // inline in the extension above it.
    let mut state = MemoryState::default();
    let low = B256::with_last_byte;
    contract(&mut state, key(&[0x11]), &[(low(0x01), 1), (low(0x02), 2)]);
    let high = |last: u8| {
        let mut k = key(&[0x80]);
        k.0[31] = last;
        k
    };
    contract(&mut state, key(&[0x22]), &[(high(0x01), 1), (high(0x02), 2)]);
    check(&mut state);
}

#[test]
fn inline_branches_below_a_branch() {
    // Four slots in two pairs: the branches of the pairs are inline in the branch above them.
    let mut state = MemoryState::default();
    let low = B256::with_last_byte;
    let slots = [(low(0x01), 1), (low(0x02), 2), (low(0x11), 3), (low(0x12), 4)];
    contract(&mut state, key(&[0x11]), &slots);
    contract(&mut state, key(&[0x12]), &[(low(0x01), 1), (low(0x02), 2), (low(0x11), 3)]);
    check(&mut state);
}

#[test]
fn parity_synthetic_shapes() {
    for (seed, eoas, small, large) in [
        (1u64, 500usize, 40usize, vec![2_000usize]),
        (2, 5_000, 300, vec![]),
        (3, 0, 0, vec![10_000, 3]),
        (4, 3, 2, vec![]),
    ] {
        let mut state = synthesize(&SynthConfig {
            seed,
            eoas,
            small_contracts: small,
            small_slots_max: 12,
            large_contracts: large,
        });
        check(&mut state);
    }
}

#[test]
fn colliding_prefixes_in_random_states() {
    // Keys from a small alphabet of leading bytes, so that partitions collide and prefixes are
    // shared, with small values often enough for inline branches to occur.
    let mut rng = trie_gen::synth::Rng::new(99);
    for _ in 0..60 {
        let mut state = MemoryState::default();
        for _ in 0..rng.below(40) {
            let mut address = rng.next_b256();
            address.0[0] = [0x00, 0x0f, 0x10, 0x11, 0xa0, 0xff][rng.below(6)];
            let bytecode_hash =
                if rng.below(2) == 0 { Some(B256::repeat_byte(0xc0)) } else { None };
            let balance = U256::from(rng.next_u64());
            state.insert_account(
                address,
                Account { nonce: rng.next_u64(), balance, bytecode_hash },
            );
            for _ in 0..rng.below(6) {
                let mut slot = rng.next_b256();
                let lead =
                    [[0, 0, 0], [0, 0, 0x0f], [0x10, 0, 0], [0xa0, 0xff, 0], [0xff; 3]][rng.below(5)];
                slot.0[..3].copy_from_slice(&lead);
                let value = if rng.below(2) == 0 {
                    1 + rng.below(255) as u64
                } else {
                    rng.next_u64()
                };
                state.insert_storage(address, slot, U256::from(value));
            }
        }
        check(&mut state);
    }
}

#[test]
fn parity_node_maps_are_populated_for_realistic_state() {
    let mut state = synthesize(&SynthConfig::default());
    let mut collector = TrieUpdatesCollector::default();
    generate(&state.cursor_factory(), &Config::default(), &mut collector).unwrap();
    let updates = collector.into_updates();
    assert!(!updates.account_nodes.contains_key(&Nibbles::new()), "root node is never stored");
    assert!(updates.account_nodes.len() > 16);
    let mut most = 0;
    for address in updates.storage_tries.keys() {
        most = most.max(updates.storage_tries.get(&address).unwrap().storage_nodes.len());
    }
    assert!(most > 100, "large contract has many storage nodes");
}

#[test]
fn roots_match_the_root_functions() {
    let state = synthesize(&SynthConfig {
        seed: 5,
        eoas: 50,
        small_contracts: 10,
        small_slots_max: 5,
        large_contracts: vec![40],
    });
    let accounts: Vec<(alloy_primitives::B256, alloy_trie::TrieAccount)> = state
        .iter_accounts()
        .into_iter()
        .map(|(address, account)| {
            let slots = state.iter_storage(&address).into_iter().map(|(slot, value)| {
                (
                    alloy_primitives::B256::from(slot.0),
                    alloy_primitives::U256::from_be_bytes(value.0),
                )
            });
            let account = alloy_trie::TrieAccount {
                nonce: account.nonce,
                balance: alloy_primitives::U256::from_be_bytes(account.balance.0),
                storage_root: alloy_trie::root::storage_root(slots),
                code_hash: match account.bytecode_hash {
                    Some(hash) => alloy_primitives::B256::from(hash.0),
                    None => alloy_trie::KECCAK_EMPTY,
                },
            };
            (alloy_primitives::B256::from(address.0), account)
        })
        .collect();
    let expected = alloy_trie::root::state_root(accounts);
    let mut state = state.clone();
    let got = generate(&state.cursor_factory(), &Config::default(), &mut Discard::new()).unwrap();
    assert_eq!(got.root.0, expected.0);
    assert_eq!(got.accounts, 61);
}
