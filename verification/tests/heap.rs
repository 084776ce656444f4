//! Counting the heap, and byte counts in words.

use trie_gen::heap::{human_bytes, PeakAlloc};

/// The same count in floating point.
fn in_floats(bytes: usize) -> String {
    let units = ["B", "KiB", "MiB", "GiB", "TiB"];
    let mut value = bytes as f64;
    let mut unit = 0;
    while value >= 1024.0 && unit < units.len() - 1 {
        value /= 1024.0;
        unit += 1;
    }
    format!("{value:.2} {}", units[unit])
}

#[test]
fn counters_follow_allocations() {
    let mut heap = PeakAlloc::new();
    assert_eq!((heap.current(), heap.peak()), (0, 0));
    heap.add(100);
    heap.add(50);
    heap.sub(120);
    assert_eq!((heap.current(), heap.peak()), (30, 150));
    heap.add(40);
    assert_eq!((heap.current(), heap.peak()), (70, 150));
    heap.reset_peak();
    assert_eq!((heap.current(), heap.peak()), (70, 70));
    heap.sub(20);
    heap.add(15);
    assert_eq!((heap.current(), heap.peak()), (65, 70));
    heap.add(6);
    assert_eq!(heap.peak(), 71);
    let other = PeakAlloc::default();
    assert_eq!((other.current(), other.peak()), (0, 0));
}

#[test]
fn current_is_the_sum_of_the_live_blocks() {
    let mut heap = PeakAlloc::new();
    let mut blocks = Vec::new();
    for i in 1..40usize {
        blocks.push(i * i);
        heap.add(i * i);
        if i % 3 == 0 {
            heap.sub(blocks.remove(i % blocks.len()));
        }
        assert_eq!(heap.current(), blocks.iter().sum::<usize>());
    }
}

#[test]
fn freeing_more_than_is_live_wraps() {
    let mut heap = PeakAlloc::new();
    heap.sub(1);
    assert_eq!((heap.current(), heap.peak()), (usize::MAX, 0));
}

#[test]
fn byte_counts_in_words() {
    assert_eq!(human_bytes(0), "0.00 B");
    assert_eq!(human_bytes(1), "1.00 B");
    assert_eq!(human_bytes(1023), "1023.00 B");
    assert_eq!(human_bytes(1024), "1.00 KiB");
    assert_eq!(human_bytes(1536), "1.50 KiB");
    assert_eq!(human_bytes(1_610_612_736), "1.50 GiB");
    assert_eq!(human_bytes(1 << 40), "1.00 TiB");
    assert_eq!(human_bytes(1 << 50), "1024.00 TiB");
    assert_eq!(human_bytes(1024 * 1024 - 1), "1024.00 KiB");
    assert_eq!(human_bytes(usize::MAX), "16777216.00 TiB");
}

#[test]
fn halves_go_to_the_even_digit() {
    // An eighth and three eighths of a unit lie between two hundredths.
    assert_eq!(human_bytes(1024 + 128), "1.12 KiB");
    assert_eq!(human_bytes(1024 + 384), "1.38 KiB");
    assert_eq!(human_bytes(1024 + 640), "1.62 KiB");
    assert_eq!(human_bytes(1024 + 896), "1.88 KiB");
}

#[test]
fn byte_counts_agree_with_floating_point() {
    let mut rng = trie_gen::synth::Rng::new(3);
    for shift in 0..64u32 {
        for _ in 0..300 {
            let bytes = (rng.next_u64() >> shift) as usize;
            assert_eq!(human_bytes(bytes), in_floats(bytes));
        }
        let power = 1usize << shift;
        for bytes in [power - 1, power, power + 1, power + power / 8, power + power / 2] {
            assert_eq!(human_bytes(bytes), in_floats(bytes));
        }
    }
    for bytes in 0..5000usize {
        assert_eq!(human_bytes(bytes), in_floats(bytes));
    }
    for below in 0..3000usize {
        let bytes = usize::MAX - below;
        assert_eq!(human_bytes(bytes), in_floats(bytes));
    }
}
