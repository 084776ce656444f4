//! Progress reports, chunks and rebuild rounds.

use trie_gen::memory::MemorySink;
use trie_gen::nibbles::Nibbles;
use trie_gen::node::BranchNodeCompact;
use trie_gen::primitives::B256;
use trie_gen::progress::{Progress, ProgressSink};
use trie_gen::rebuild::{Rebuild, Totals, WalkProgress};
use trie_gen::sink::{Discard, OnNode};
use trie_gen::writer::{ChunkWriter, Written, DEFAULT_CHUNK_NODES};

fn node(mask: u16) -> BranchNodeCompact {
    BranchNodeCompact {
        state_mask: mask,
        tree_mask: 0,
        hash_mask: 0,
        hashes: Vec::new(),
        root_hash: None,
    }
}

fn path(i: u16) -> Nibbles {
    Nibbles::from_nibbles(&[(i / 256 % 16) as u8, (i / 16 % 16) as u8, (i % 16) as u8])
}

#[test]
fn reports_at_most_once_per_interval() {
    let mut sink = ProgressSink::new(MemorySink::default(), 100, 10, 1_000);
    assert_eq!(sink.walked(), 0);
    assert_eq!(sink.on_progress(5, 1_009), None);
    assert_eq!(sink.walked(), 5);
    assert_eq!(sink.on_progress(0, 2_000), None);
    let report = Progress { walked: 25, total: 100, remaining: 75, elapsed: 10 };
    assert_eq!(sink.on_progress(20, 1_010), Some(report));
    assert_eq!(sink.on_progress(1, 1_019), None);
    assert_eq!(sink.on_progress(1, 900), None);
    let report = Progress { walked: 127, total: 100, remaining: 0, elapsed: 50 };
    assert_eq!(sink.on_progress(100, 1_050), Some(report));
    assert_eq!(sink.walked(), 127);
}

#[test]
fn zero_interval_reports_every_batch() {
    let mut sink = ProgressSink::new(MemorySink::default(), 3, 0, 7);
    let report = Progress { walked: 1, total: 3, remaining: 2, elapsed: 0 };
    assert_eq!(sink.on_progress(1, 7), Some(report));
    let report = Progress { walked: 3, total: 3, remaining: 0, elapsed: 1 };
    assert_eq!(sink.on_progress(2, 8), Some(report));
}

#[test]
fn nodes_go_to_the_inner_sink() {
    let mut sink = ProgressSink::new(MemorySink::default(), 1, 1, 0);
    sink.on_node(None, path(3), node(1));
    sink.on_node(Some(B256::zero()), path(3), node(2));
    let _: &MemorySink = sink.inner();
    let (accounts, storages) = sink.into_inner().into_maps();
    assert_eq!(accounts.len(), 1);
    assert_eq!(storages.len(), 1);
    assert_eq!(accounts.get(&path(3)), Some(&node(1)));
}

#[test]
fn walked_entries_add_up_whatever_nodes_pass() {
    let mut sink = ProgressSink::new(Discard::new(), 10, 100, 0);
    assert_eq!(sink.walked(), 0);
    let mut walked = 0;
    for i in 0..20u16 {
        sink.on_node(None, path(i), node(i));
        assert_eq!(sink.walked(), walked);
        let report = sink.on_progress(u64::from(i), u128::from(i) * 30);
        walked += u64::from(i);
        assert_eq!(report.is_some(), i % 4 == 0 && i > 0);
        assert_eq!(sink.walked(), walked);
    }
    assert_eq!(walked, 190);
}

#[test]
fn chunks_are_handed_out_when_full() {
    let mut writer = ChunkWriter::new(3);
    let mut sizes = Vec::new();
    for i in 0..10u16 {
        let account = if i % 2 == 0 { None } else { Some(B256::repeat_byte(i as u8)) };
        if let Some(chunk) = writer.push(account, path(i), node(i)) {
            assert_eq!((i + 1) % 3, 0);
            let mut nodes = chunk.account_nodes.len();
            for address in chunk.storage_tries.keys() {
                nodes += chunk.storage_tries.get(&address).unwrap().storage_nodes.len();
            }
            sizes.push(nodes);
            writer.committed(nodes);
        }
    }
    assert_eq!(sizes, vec![3, 3, 3]);
    assert_eq!(writer.written(), Written { nodes: 9, chunks: 3 });
    let rest = writer.take_rest().unwrap();
    assert_eq!(rest.storage_tries.len(), 1);
    assert!(rest.account_nodes.is_empty());
    writer.committed(1);
    assert_eq!(writer.written(), Written { nodes: 10, chunks: 4 });
    assert!(writer.take_rest().is_none());
    assert!(!writer.holds(&None, &path(1)));
    assert!(writer.push(None, path(1), node(1)).is_none());
    assert!(writer.holds(&None, &path(1)));
}

#[test]
fn a_chunk_of_zero_nodes_is_one_of_one() {
    let mut writer = ChunkWriter::new(0);
    for i in 0..4u16 {
        let chunk = writer.push(None, path(i), node(i)).unwrap();
        assert_eq!(chunk.account_nodes.get(&path(i)), Some(&node(i)));
        writer.committed(1);
    }
    assert!(writer.take_rest().is_none());
    assert_eq!(writer.written(), Written { nodes: 4, chunks: 4 });
    assert_eq!(DEFAULT_CHUNK_NODES, 100_000);
}

#[test]
fn a_place_may_come_back_in_a_later_chunk() {
    let mut writer = ChunkWriter::new(1);
    assert!(writer.push(None, path(1), node(1)).is_some());
    assert!(writer.push(None, path(1), node(2)).is_some());
}

#[test]
fn rebuild_goes_on_until_the_walk_is_complete() {
    let mut rebuild: Rebuild<u32> = Rebuild::new();
    assert_eq!(rebuild.next_walk(), None);
    assert_eq!(rebuild.walked(WalkProgress::Progress(17, 1_000, "first")), "first");
    let step = rebuild.committed(40);
    assert!(step.log.is_none() && step.done.is_none());
    assert_eq!(rebuild.next_walk(), Some(17));
    assert_eq!(rebuild.next_walk(), None);
    let root = B256::repeat_byte(0xab);
    assert_eq!(rebuild.walked(WalkProgress::Complete(root, 5, "last")), "last");
    let done = rebuild.committed(2).done.unwrap();
    assert_eq!(done.root, root);
    assert_eq!((done.entries, done.written, done.chunks), (1_005, 42, 2));
    assert_eq!(rebuild.totals(), Totals { chunks: 2, entries: 1_005, written: 42 });
}

#[test]
fn rebuild_logs_every_hundredth_chunk() {
    let mut rebuild: Rebuild<()> = Rebuild::new();
    let mut logged = Vec::new();
    for _ in 0..250 {
        rebuild.next_walk();
        rebuild.walked(WalkProgress::Progress((), 2, ()));
        if let Some(totals) = rebuild.committed(3).log {
            logged.push(totals);
        }
    }
    assert_eq!(
        logged,
        vec![
            Totals { chunks: 100, entries: 200, written: 300 },
            Totals { chunks: 200, entries: 400, written: 600 },
        ]
    );
}
