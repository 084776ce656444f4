//! Bulk Merkle-Patricia trie generation from sorted hashed state.
//!
//! Input is the hashed state, read through a [`HashedCursorFactory`]: account leaves keyed by
//! `keccak(address)` and storage leaves keyed by `(keccak(address), keccak(slot))`, both in
//! ascending key order. Output is the state root plus every intermediate branch node that the
//! account and storage trie tables persist, as [`BranchNodeCompact`] by nibble path, handed to a
//! sink as nodes complete.
//!
//! The account trie is split into 16 partitions by the first nibble of the hashed address. Each
//! partition is built on its own with a hash builder over its key range, and the root branch node
//! above the partitions is then hashed from the 16 subtrie root nodes. Storage tries are built per
//! account before the account leaf is encoded, so a storage root in the hashed account row is
//! never trusted. Root branch nodes (empty path) are never emitted.
//!
//! Both ways to build, serial and partitioned, have the same contract: the root is
//! [`generate::state_root`] of the state, and the sink receives [`generate::state_nodes`], each
//! node once.
//!
//! Around the generator stand an in-memory state and synthetic states ([`memory`], [`synth`]),
//! sinks that collect, digest, count or chunk the nodes ([`collect`], [`updates`], [`digest`],
//! [`progress`], [`writer`]), the steps of a serial rebuild ([`rebuild`]), what is read from and
//! written to the tables ([`tables`]), heap counters ([`heap`]) and the command line of the
//! benchmark ([`cli`]). The laws that relate several of these are in [`laws`] and [`table_laws`],
//! those of counting and drawing in [`counts`] and [`draws`].
//!
//! What the models of the contracts stand for is stated and proved apart from them: bytes, numbers
//! and paths in [`byte_laws`], the leaves and their rows in [`leaf_laws`], the tries and their nodes
//! in [`trie_laws`], sinks, updates and states in memory in [`sink_laws`], digests in
//! [`digest_laws`], the rows of the tables in [`row_laws`], synthetic states in [`synth_laws`], and
//! counters, texts and command lines in [`text_laws`].
//!
//! What is taken from outside crates is declared in [`builder`] (the hash builder), [`rlp`] (hashes
//! and encodings), [`digest`] (the row hash) and [`cli`] (hexadecimal words).

pub mod builder;
pub mod byte_laws;
pub mod bytes;
pub mod cli;
pub mod collect;
pub mod counts;
pub mod cursor;
pub mod digest;
pub mod digest_laws;
pub mod draws;
pub mod emit;
pub mod generate;
pub mod heap;
pub mod laws;
pub mod leaf_laws;
pub mod memory;
pub mod nibbles;
pub mod node;
pub mod ordered;
pub mod partition;
pub mod primitives;
pub mod progress;
pub mod rebuild;
pub mod rlp;
pub mod row_laws;
pub mod sink;
pub mod sink_laws;
pub mod storage;
pub mod synth;
pub mod synth_laws;
pub mod table_laws;
pub mod tables;
pub mod text;
pub mod text_laws;
pub mod trie_laws;
pub mod updates;
pub mod writer;

pub use collect::TrieUpdatesCollector;
pub use cursor::{DatabaseError, HashedCursor, HashedCursorFactory};
pub use digest::{Digest, NodeDigest};
pub use generate::{generate, Config, Generated};
pub use heap::{human_bytes, PeakAlloc};
pub use memory::{MemorySink, MemoryState, SharedCursorFactory};
pub use nibbles::Nibbles;
pub use node::BranchNodeCompact;
pub use primitives::{Account, TrieAccount, B256, U256};
pub use progress::ProgressSink;
pub use rebuild::Rebuilt;
pub use sink::OnNode;
pub use tables::TrieTablesDigest;
pub use updates::{without_empty_storage_tries, StorageTrieUpdates, TrieUpdates, TrieUpdatesSink};
pub use writer::{Written, DEFAULT_CHUNK_NODES};
