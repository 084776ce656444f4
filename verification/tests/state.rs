//! In-memory state, synthetic state, and the ordered keys they are made of.

use std::collections::BTreeMap;
use trie_gen::cursor::{HashedCursor, HashedCursorFactory};
use trie_gen::generate::{generate, Config};
use trie_gen::memory::{MemorySink, MemoryState, SharedCursorFactory};
use trie_gen::nibbles::Nibbles;
use trie_gen::node::BranchNodeCompact;
use trie_gen::ordered::{OrderedMap, StoragePath};
use trie_gen::primitives::{Account, B256, U256};
use trie_gen::sink::Discard;
use trie_gen::synth::{synthesize, Rng, SynthConfig};

fn account(nonce: u64) -> Account {
    Account { nonce, balance: U256::from(nonce), bytecode_hash: None }
}

#[test]
fn accounts_come_in_key_order_and_are_replaced() {
    let mut state = MemoryState::default();
    assert_eq!(state.account_count(), 0);
    for byte in [9u8, 200, 3, 9] {
        state.insert_account(B256::repeat_byte(byte), account(byte as u64));
    }
    state.insert_account(B256::repeat_byte(3), account(77));
    assert_eq!(state.account_count(), 3);
    let rows = state.iter_accounts();
    let keys: Vec<u8> = rows.iter().map(|row| row.0 .0[0]).collect();
    assert_eq!(keys, vec![3, 9, 200]);
    assert_eq!(rows[0].1.nonce, 77);
}

#[test]
fn zero_removes_a_slot() {
    let mut state = MemoryState::default();
    let (a, b) = (B256::repeat_byte(1), B256::repeat_byte(2));
    state.insert_storage(a, B256::repeat_byte(7), U256::from(5));
    state.insert_storage(a, B256::repeat_byte(6), U256::from(4));
    state.insert_storage(b, B256::repeat_byte(7), U256::from(3));
    assert_eq!(state.storage_count(), 3);
    state.insert_storage(a, B256::repeat_byte(7), U256::from(0));
    state.insert_storage(b, B256::repeat_byte(9), U256::from(0));
    assert_eq!(state.storage_count(), 2);
    assert_eq!(state.iter_storage(&a), vec![(B256::repeat_byte(6), U256::from(4))]);
    assert!(state.iter_storage(&B256::zero()).is_empty());
    state.insert_storage(a, B256::repeat_byte(6), U256::from(0));
    assert_eq!(state.storage_count(), 1);
}

#[test]
fn sorted_rows_follow_changes() {
    let mut state = MemoryState::default();
    state.insert_account(B256::repeat_byte(2), account(2));
    assert_eq!(state.sorted().account_rows().len(), 1);
    state.insert_account(B256::repeat_byte(1), account(1));
    state.insert_storage(B256::repeat_byte(1), B256::repeat_byte(5), U256::from(5));
    let sorted = state.sorted();
    assert_eq!(sorted.account_rows()[0].0, B256::repeat_byte(1));
    assert_eq!(sorted.slot_rows(&B256::repeat_byte(1)).len(), 1);
    assert!(sorted.slot_rows(&B256::repeat_byte(2)).is_empty());
}

#[test]
fn emptied_storages_leave_no_entry() {
    let (a, slot) = (B256::repeat_byte(2), B256::repeat_byte(5));
    let mut state = MemoryState::default();
    state.insert_account(a, account(2));
    let before = format!("{:?}", state.sorted());
    state.insert_storage(a, slot, U256::from(5));
    assert_ne!(format!("{:?}", state.sorted()), before);
    state.insert_storage(a, slot, U256::from(0));
    assert_eq!(format!("{:?}", state.sorted()), before);
}

#[test]
fn a_clone_is_a_state_of_its_own() {
    let mut state = MemoryState::default();
    state.insert_account(B256::repeat_byte(2), account(2));
    state.insert_storage(B256::repeat_byte(2), B256::zero(), U256::from(1));
    let copy = state.clone();
    state.insert_account(B256::repeat_byte(3), account(3));
    state.insert_storage(B256::repeat_byte(2), B256::zero(), U256::from(9));
    assert_eq!(copy.account_count(), 1);
    assert_eq!(copy.iter_storage(&B256::repeat_byte(2))[0].1, U256::from(1));
}

#[test]
fn cursors_seek_and_step() {
    let mut state = MemoryState::default();
    for byte in [10u8, 20, 30] {
        state.insert_account(B256::repeat_byte(byte), account(byte as u64));
    }
    let factory = state.cursor_factory();
    let mut cursor = factory.hashed_account_cursor().unwrap();
    let nonce = |row: Option<(B256, Account)>| row.map(|row| row.1.nonce);
    assert_eq!(nonce(cursor.seek(B256::zero()).unwrap()), Some(10));
    assert_eq!(nonce(cursor.seek(B256::repeat_byte(20)).unwrap()), Some(20));
    assert_eq!(nonce(cursor.next().unwrap()), Some(30));
    assert_eq!(nonce(cursor.next().unwrap()), None);
    assert_eq!(nonce(cursor.seek(B256::repeat_byte(21)).unwrap()), Some(30));
    assert_eq!(nonce(cursor.seek(B256::repeat_byte(31)).unwrap()), None);
}

#[test]
fn a_shared_factory_serves_the_same_state() {
    let mut state = MemoryState::default();
    state.insert_account(B256::repeat_byte(5), account(5));
    let expected = generate(&state.cursor_factory(), &Config::default(), &mut Discard::new());
    let shared: SharedCursorFactory<_> = state.provider_factory();
    let first = shared.database_provider_ro().unwrap();
    let second = shared.clone().database_provider_ro().unwrap();
    for factory in [first, second] {
        let got = generate(&factory, &Config::default(), &mut Discard::new());
        assert_eq!(got.unwrap(), *expected.as_ref().unwrap());
    }
}

#[test]
fn sinks_keep_nodes_by_place() {
    let node = |mask| BranchNodeCompact {
        state_mask: mask,
        tree_mask: 0,
        hash_mask: 0,
        hashes: vec![B256::repeat_byte(1)],
        root_hash: None,
    };
    let path = |nibbles: &[u8]| Nibbles::from_nibbles(nibbles);
    let mut sink = MemorySink::default();
    sink.push(None, path(&[2]), node(1));
    sink.push(Some(B256::repeat_byte(9)), path(&[2]), node(2));
    sink.push(Some(B256::repeat_byte(3)), path(&[2, 2]), node(3));
    let (accounts, storages) = sink.into_maps();
    assert_eq!(accounts.keys(), vec![path(&[2])]);
    assert_eq!(
        storages.keys(),
        vec![
            StoragePath { hashed_address: B256::repeat_byte(3), path: path(&[2, 2]) },
            StoragePath { hashed_address: B256::repeat_byte(9), path: path(&[2]) },
        ]
    );
    let key = StoragePath { hashed_address: B256::repeat_byte(9), path: path(&[2]) };
    assert_eq!(storages.get(&key), Some(&node(2)));
    assert_eq!(node(7).duplicate(), node(7));
}

#[test]
fn maps_are_ordered_as_their_keys() {
    let mut rng = Rng::new(77);
    let mut ours: OrderedMap<Nibbles, usize> = OrderedMap::new();
    let mut plain: BTreeMap<Vec<u8>, usize> = BTreeMap::new();
    for i in 0..2_000usize {
        let n = rng.below(4);
        let nibbles: Vec<u8> = (0..n).map(|_| rng.below(3) as u8).collect();
        let key = Nibbles::from_nibbles(&nibbles);
        if rng.below(3) == 0 {
            assert_eq!(ours.remove(&key), plain.remove(&nibbles));
        } else {
            assert_eq!(ours.insert(key, i), plain.insert(nibbles, i));
        }
        assert_eq!(ours.len(), plain.len());
        assert_eq!(ours.is_empty(), plain.is_empty());
    }
    let keys: Vec<Vec<u8>> = ours.keys().iter().map(|k| k.as_slice().to_vec()).collect();
    assert_eq!(keys, plain.keys().cloned().collect::<Vec<_>>());
    let mut more: OrderedMap<Nibbles, usize> = OrderedMap::new();
    more.insert(Nibbles::from_nibbles(&[9]), 1);
    more.insert(Nibbles::new(), 2);
    ours.extend(more);
    assert_eq!(ours.get(&Nibbles::new()), Some(&2));
    assert!(ours.contains_key(&Nibbles::from_nibbles(&[9])));
    let full = Nibbles::unpack(&B256::repeat_byte(0xff));
    ours.insert(full.duplicate(), 3);
    assert_eq!(ours.keys().last(), Some(&full));
}

#[test]
fn hashes_are_ordered_as_their_bytes() {
    let mut rng = Rng::new(5);
    for _ in 0..300 {
        let mut a = rng.next_b256();
        let b = rng.next_b256();
        let n = rng.below(33);
        a.0[..n].copy_from_slice(&b.0[..n]);
        assert_eq!(a.is_before(&b), a.0 < b.0);
        assert_eq!(a.same(&b), a.0 == b.0);
        assert_eq!(B256::from_halves(a.to_halves()), a);
        assert_eq!(a.to_halves() < b.to_halves(), a.0 < b.0);
    }
}

#[test]
fn paths_agree_with_nybbles() {
    let mut rng = Rng::new(6);
    for _ in 0..300 {
        let key = rng.next_b256();
        let ours = Nibbles::unpack(&key);
        let theirs = nybbles::Nibbles::unpack(key.0);
        assert_eq!(ours.as_slice().to_vec(), theirs.to_vec());
        let from = rng.below(65);
        assert_eq!(ours.slice_from(from).as_slice().to_vec(), theirs.slice(from..).to_vec());
        let n = rng.below(6);
        let digits: Vec<u8> =
            (0..n).map(|_| if rng.below(2) == 0 { 15 } else { rng.below(16) as u8 }).collect();
        let ours = Nibbles::from_nibbles(&digits);
        let theirs = nybbles::Nibbles::from_nibbles(&digits);
        assert_eq!(ours.pack(), theirs.pack().to_vec());
        let mut padded = [0u8; 32];
        theirs.pack_to(&mut padded);
        assert_eq!(ours.pack_padded().0, padded);
        let next = ours.increment().map(|next| next.as_slice().to_vec());
        assert_eq!(next, theirs.increment().map(|next| next.to_vec()));
        let tail = Nibbles::from_nibbles(&[1, 2]);
        let mut joined = digits.clone();
        joined.extend_from_slice(&[1, 2]);
        assert_eq!(ours.join(&tail).as_slice().to_vec(), joined);
    }
}

#[test]
fn numbers_are_big_endian() {
    assert!(U256::from(0).is_zero());
    assert!(!U256::from(1).is_zero());
    let number = U256::from(0x0102_0304_0506_0708);
    assert_eq!(number.0[24..], [1, 2, 3, 4, 5, 6, 7, 8]);
    assert_eq!(number.0[..24], [0; 24]);
}

#[test]
fn generator_is_splitmix64() {
    // The first outputs for the seed 1234567.
    let mut rng = Rng::new(1234567);
    assert_eq!(rng.next_u64(), 6457827717110365317);
    assert_eq!(rng.next_u64(), 3203168211198807973);
    assert_eq!(rng.next_u64(), 9817491932198370423);
    let mut words = Rng::new(1);
    let mut bytes = words.clone();
    let word: Vec<u8> = (0..4).flat_map(|_| words.next_u64().to_le_bytes()).collect();
    assert_eq!(bytes.next_b256().0.to_vec(), word);
    assert_eq!(bytes.next_u64(), words.next_u64());
    let mut rng = Rng::new(9);
    let mut twin = rng.clone();
    assert_eq!(rng.below(1000) as u64, twin.next_u64() % 1000);
}

#[test]
fn equal_configurations_give_equal_states() {
    let config = SynthConfig {
        seed: 31,
        eoas: 20,
        small_contracts: 6,
        small_slots_max: 4,
        large_contracts: vec![9, 0],
    };
    let (a, b) = (synthesize(&config), synthesize(&config));
    assert_eq!(a.iter_accounts(), b.iter_accounts());
    assert_eq!(a.account_count(), 28);
    let mut contracts = 0;
    for (address, account) in a.iter_accounts() {
        assert_eq!(a.iter_storage(&address), b.iter_storage(&address));
        if account.bytecode_hash.is_some() {
            contracts += 1;
            assert_eq!(account.nonce, 1);
        } else {
            assert!(account.nonce < 50);
            assert!(a.iter_storage(&address).is_empty());
        }
    }
    assert_eq!(contracts, 8);
    assert!(a.storage_count() >= 6 + 9 && a.storage_count() <= 24 + 9);
    let other = synthesize(&SynthConfig { seed: 32, ..config });
    assert_ne!(a.iter_accounts(), other.iter_accounts());
}

#[test]
fn one_more_large_contract_only_adds() {
    let config = SynthConfig {
        seed: 31,
        eoas: 20,
        small_contracts: 6,
        small_slots_max: 4,
        large_contracts: vec![9],
    };
    let before = synthesize(&config);
    let more = synthesize(&SynthConfig { large_contracts: vec![9, 17], ..config });
    assert_eq!(more.account_count(), before.account_count() + 1);
    let kept = before.iter_accounts();
    for (address, account) in more.iter_accounts() {
        if kept.contains(&(address, account)) {
            assert_eq!(more.iter_storage(&address), before.iter_storage(&address));
        } else {
            assert_eq!(more.iter_storage(&address).len(), 17);
            assert!(before.iter_storage(&address).is_empty());
        }
    }
    assert_eq!(more.storage_count(), before.storage_count() + 17);
}

#[test]
fn the_first_account_is_drawn_from_the_seed() {
    let config = SynthConfig {
        seed: 40,
        eoas: 1,
        small_contracts: 0,
        small_slots_max: 0,
        large_contracts: vec![2],
    };
    let state = synthesize(&config);
    let mut rng = Rng::new(40);
    let eoa = rng.next_b256();
    let nonce = rng.next_u64() % 50;
    let balance = U256::from(rng.next_u64());
    let contract = rng.next_b256();
    let funds = U256::from(rng.next_u64() % 1_000_000);
    let code = rng.next_b256();
    let mut expected = MemoryState::default();
    expected.insert_account(eoa, Account { nonce, balance, bytecode_hash: None });
    let account = Account { nonce: 1, balance: funds, bytecode_hash: Some(code) };
    expected.insert_account(contract, account);
    for _ in 0..2 {
        let value = U256::from(1 + rng.next_u64() % 0xffff_ffff);
        expected.insert_storage(contract, rng.next_b256(), value);
    }
    assert_eq!(state.iter_accounts(), expected.iter_accounts());
    assert_eq!(state.iter_storage(&contract), expected.iter_storage(&contract));
}

#[test]
fn default_configuration() {
    let config = SynthConfig::default();
    assert_eq!(config.seed, 1);
    assert_eq!(config.eoas, 2_000);
    assert_eq!(config.small_contracts, 200);
    assert_eq!(config.small_slots_max, 16);
    assert_eq!(config.large_contracts, vec![5_000]);
    assert!(Config::default().partitioned);
}
