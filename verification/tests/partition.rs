//! Subtries, their key ranges and their root nodes.

use trie_gen::cursor::{DatabaseError, HashedCursor, HashedCursorFactory};
use trie_gen::generate::{assemble_root, generate, join_subtries, Config};
use trie_gen::memory::{MemorySink, MemoryState, RowCursor};
use trie_gen::nibbles::Nibbles;
use trie_gen::partition::{build_subtrie, node_hash, prefix_bounds, Subtrie};
use trie_gen::primitives::{Account, B256, U256};
use trie_gen::sink::Discard;
use trie_gen::storage::storage_root_with_nodes;
use trie_gen::synth::{synthesize, Rng, SynthConfig};

fn small_state() -> MemoryState {
    synthesize(&SynthConfig {
        seed: 21,
        eoas: 300,
        small_contracts: 20,
        small_slots_max: 30,
        large_contracts: vec![],
    })
}

#[test]
fn prefix_bounds_single_nibble() {
    let (start, end) = prefix_bounds(&Nibbles::from_nibbles(&[0x3]));
    assert_eq!(start.0[0], 0x30);
    assert_eq!(end.unwrap().0[0], 0x40);
    let (start, end) = prefix_bounds(&Nibbles::from_nibbles(&[0xf]));
    assert_eq!(start.0[0], 0xf0);
    assert!(end.is_none());
}

#[test]
fn prefix_bounds_carry() {
    let (start, end) = prefix_bounds(&Nibbles::from_nibbles(&[0x2, 0xf, 0xf]));
    assert_eq!(&start.0[..2], &[0x2f, 0xf0]);
    assert_eq!(&end.unwrap().0[..2], &[0x30, 0x00]);
    let (_, end) = prefix_bounds(&Nibbles::new());
    assert!(end.is_none());
}

#[test]
fn prefix_bounds_hold_exactly_the_keys_with_the_prefix() {
    let mut rng = Rng::new(8);
    for _ in 0..500 {
        let key = rng.next_b256();
        let nibbles = Nibbles::unpack(&key);
        let n = rng.below(5);
        let mut prefix = nibbles.as_slice()[..n].to_vec();
        if n > 0 && rng.below(2) == 0 {
            prefix[n - 1] = rng.below(16) as u8;
        }
        let (start, end) = prefix_bounds(&Nibbles::from_nibbles(&prefix));
        let inside = key >= start && end.map_or(true, |end| key < end);
        assert_eq!(inside, nibbles.as_slice().starts_with(&prefix));
    }
}

#[test]
fn node_hash_takes_the_embedded_hash_or_hashes_the_node() {
    let mut reference = vec![0xa0];
    reference.extend_from_slice(&[0x42; 32]);
    assert_eq!(node_hash(&reference), B256::repeat_byte(0x42));
    let inline = vec![0xc2, 0x20, 0x01];
    assert_eq!(node_hash(&inline).0, alloy_primitives::keccak256(&inline).0);
}

#[test]
fn subtrie_without_accounts_is_none() {
    let mut state = MemoryState::default();
    let account = Account { nonce: 1, balance: U256::from(1), bytecode_hash: None };
    state.insert_account(B256::repeat_byte(0x77), account);
    let factory = state.cursor_factory();
    let prefix = Nibbles::from_nibbles(&[0x6]);
    assert!(build_subtrie(&factory, prefix, &mut Discard::new()).unwrap().is_none());
    let prefix = Nibbles::unpack(&B256::repeat_byte(0x76));
    assert!(build_subtrie(&factory, prefix, &mut Discard::new()).unwrap().is_none());
    let prefix = Nibbles::from_nibbles(&[0x7, 0x7, 0x7]);
    let sub = build_subtrie(&factory, prefix, &mut Discard::new()).unwrap().unwrap();
    assert_eq!(sub.leaves, 1);
    assert_eq!(sub.prefix.as_slice(), &[0x7, 0x7, 0x7]);
    assert!(sub.root.len() <= 33);
}

#[test]
fn subtries_emit_the_nodes_under_their_prefix() {
    let mut state = small_state();
    let factory = state.cursor_factory();
    let mut whole = MemorySink::default();
    generate(&factory, &Config { partitioned: false }, &mut whole).unwrap();
    let (accounts, storages) = whole.into_maps();
    let mut account_nodes = 0;
    let mut storage_nodes = 0;
    let mut leaves = 0;
    let mut subtries = Vec::new();
    for nibble in 0u8..16 {
        let mut sink = MemorySink::default();
        let prefix = Nibbles::from_nibbles(&[nibble]);
        let sub = build_subtrie(&factory, prefix, &mut sink).unwrap();
        leaves += sub.as_ref().map_or(0, |s| s.leaves);
        subtries.push(sub);
        let (some, others) = sink.into_maps();
        for path in some.keys() {
            assert_eq!(path.first(), Some(nibble));
            assert_eq!(some.get(&path), accounts.get(&path));
            account_nodes += 1;
        }
        for key in others.keys() {
            assert_eq!(key.hashed_address.first_nibble(), nibble);
            assert_eq!(others.get(&key), storages.get(&key));
            storage_nodes += 1;
        }
    }
    assert_eq!(account_nodes, accounts.len());
    assert_eq!(storage_nodes, storages.len());
    assert_eq!(leaves, 320);
    let joined = join_subtries(&factory, &subtries).unwrap();
    let serial = generate(&factory, &Config { partitioned: false }, &mut Discard::new()).unwrap();
    assert_eq!(joined, serial);
}

#[test]
fn longer_prefixes_are_the_nodes_above_them() {
    // Two prefixes of one first nibble: the subtrie of the nibble is the branch over them.
    let mut state = MemoryState::default();
    for i in 0..8u8 {
        let key = B256::right_padding_from(&[0x50 + i % 2, i]);
        let account = Account { nonce: i as u64, balance: U256::from(1), bytecode_hash: None };
        state.insert_account(key, account);
    }
    let factory = state.cursor_factory();
    let sub = |nibbles: &[u8]| {
        let prefix = Nibbles::from_nibbles(nibbles);
        build_subtrie(&factory, prefix, &mut Discard::new()).unwrap().unwrap()
    };
    let below = vec![
        Subtrie { prefix: Nibbles::from_nibbles(&[0]), ..sub(&[5, 0]) },
        Subtrie { prefix: Nibbles::from_nibbles(&[1]), ..sub(&[5, 1]) },
    ];
    assert_eq!(assemble_root(&below), node_hash(&sub(&[5]).root));
}

#[test]
fn assembled_root_is_the_hash_of_the_branch() {
    let subtries = vec![
        Subtrie { prefix: Nibbles::from_nibbles(&[2]), root: vec![0xa0; 33], leaves: 1 },
        Subtrie { prefix: Nibbles::from_nibbles(&[9]), root: vec![0xc1, 0x05], leaves: 1 },
    ];
    let mut payload = vec![0x80, 0x80];
    payload.extend_from_slice(&[0xa0; 33]);
    payload.extend_from_slice(&[0x80; 6]);
    payload.extend_from_slice(&[0xc1, 0x05]);
    payload.extend_from_slice(&[0x80; 7]);
    let mut node = vec![0xc0 + payload.len() as u8];
    node.extend_from_slice(&payload);
    assert_eq!(assemble_root(&subtries).0, alloy_primitives::keccak256(&node).0);
}

#[test]
fn storage_root_skips_zero_values() {
    let address = B256::repeat_byte(0x01);
    let mut state = MemoryState::default();
    state.insert_storage(address, B256::repeat_byte(0x10), U256::from(5));
    state.insert_storage(address, B256::repeat_byte(0x20), U256::from(0x1234));
    let expected = alloy_trie::root::storage_root([
        (alloy_primitives::B256::repeat_byte(0x10), alloy_primitives::U256::from(5)),
        (alloy_primitives::B256::repeat_byte(0x20), alloy_primitives::U256::from(0x1234)),
    ]);
    let factory = state.cursor_factory();
    let mut cursor = factory.hashed_storage_cursor(address).unwrap();
    let root = storage_root_with_nodes(address, &mut cursor, &mut Discard::new()).unwrap();
    assert_eq!(root.0, expected.0);
    // A cursor may hold zeros that an in-memory state drops.
    let mut rows = WithZeros { inner: factory.hashed_storage_cursor(address).unwrap(), at: 0 };
    let root = storage_root_with_nodes(address, &mut rows, &mut Discard::new()).unwrap();
    assert_eq!(root.0, expected.0);
    let mut none = factory.hashed_storage_cursor(B256::zero()).unwrap();
    let root = storage_root_with_nodes(B256::zero(), &mut none, &mut Discard::new()).unwrap();
    assert_eq!(root.0, alloy_trie::EMPTY_ROOT_HASH.0);
}

/// The rows of another cursor with a zero row in front of each.
struct WithZeros<'a> {
    inner: RowCursor<'a, U256>,
    at: usize,
}

impl<'a> WithZeros<'a> {
    fn zero_before(row: Option<(B256, U256)>) -> Option<(B256, U256)> {
        row.map(|(key, _)| {
            let mut before = key;
            before.0[31] -= 1;
            (before, U256::from(0))
        })
    }
}

impl<'a> HashedCursor for WithZeros<'a> {
    type Value = U256;

    fn seek(&mut self, key: B256) -> Result<Option<(B256, U256)>, DatabaseError> {
        self.at = 1;
        Ok(Self::zero_before(self.inner.seek(key)?))
    }

    fn next(&mut self) -> Result<Option<(B256, U256)>, DatabaseError> {
        self.at += 1;
        if self.at == 2 {
            return self.inner.seek(B256::zero());
        }
        if self.at % 2 == 1 {
            return Ok(Self::zero_before(self.inner.next()?));
        }
        let last = B256::repeat_byte(0x20);
        self.inner.seek(last)
    }
}

/// A factory whose account cursor cannot be opened.
struct Broken;

impl HashedCursorFactory for Broken {
    type AccountCursor = RowCursor<'static, Account>;
    type StorageCursor = RowCursor<'static, U256>;

    fn hashed_account_cursor(&self) -> Result<RowCursor<'static, Account>, DatabaseError> {
        Err(DatabaseError::Other("closed".to_string()))
    }

    fn hashed_storage_cursor(&self, _: B256) -> Result<RowCursor<'static, U256>, DatabaseError> {
        Err(DatabaseError::Other("closed".to_string()))
    }
}

#[test]
fn errors_of_the_cursors_are_passed_on() {
    let expected = DatabaseError::Other("closed".to_string());
    for partitioned in [false, true] {
        let got = generate(&Broken, &Config { partitioned }, &mut Discard::new());
        assert_eq!(got.unwrap_err(), expected);
    }
}
