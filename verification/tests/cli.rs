//! The command line of the benchmark.

use trie_gen::cli::{
    check_root, hashed_entries, parse_args, parse_usize, tip_line, usage, Args, Mode, RootCheck,
};
use trie_gen::primitives::B256;

fn parse(words: &[&str]) -> Result<Args, String> {
    parse_args(&words.iter().map(|word| word.to_string()).collect())
}

#[test]
fn defaults_follow_the_datadir() {
    let args = parse(&["--datadir", "/data"]).unwrap();
    assert_eq!(args.datadir, "/data");
    assert_eq!(args.threads, None);
    assert_eq!(args.repeat, 1);
    assert_eq!(args.expected_root, None);
    assert_eq!(args.chunk_nodes, 100_000);
    assert!(!args.write && !args.reth_serial && !args.reth_rebuild);
    assert!(!args.clear_trie_tables && !args.digest_trie_tables);
    assert_eq!(args.mode(), Mode::Generate);
}

#[test]
fn flags_in_any_order_the_last_one_counts() {
    let root = format!("0x{}", "aB".repeat(32));
    let args = parse(&[
        "--write",
        "--threads",
        "8",
        "--repeat",
        "+3",
        "--expected-root",
        &root,
        "--chunk-nodes",
        "50",
        "--reth-serial",
        "--reth-rebuild",
        "--clear-trie-tables",
        "--digest-trie-tables",
        "--datadir",
        "first",
        "--datadir",
        "second",
    ])
    .unwrap();
    assert_eq!(args.datadir, "second");
    assert_eq!(args.threads, Some(8));
    assert_eq!(args.repeat, 3);
    assert_eq!(args.expected_root, Some(B256::repeat_byte(0xab)));
    assert_eq!(args.chunk_nodes, 50);
    assert!(args.write && args.reth_serial && args.reth_rebuild);
    assert!(args.clear_trie_tables && args.digest_trie_tables);
    assert_eq!(args.mode(), Mode::ReadWrite);
}

#[test]
fn what_is_wrong_is_said() {
    let wrong = |words: &[&str]| parse(words).unwrap_err();
    assert_eq!(wrong(&[]), "--datadir is required");
    assert_eq!(wrong(&["--write"]), "--datadir is required");
    assert_eq!(wrong(&["--datadir", ""]), "--datadir is required");
    assert_eq!(wrong(&["--datadir"]), "--datadir needs a value");
    assert_eq!(wrong(&["--datadir", "d", "--threads"]), "--threads needs a value");
    assert_eq!(wrong(&["--threads", "x"]), "bad --threads");
    assert_eq!(wrong(&["--repeat", "-1"]), "bad --repeat");
    assert_eq!(wrong(&["--chunk-nodes", ""]), "bad --chunk-nodes");
    assert_eq!(wrong(&["--expected-root", "0x12"]), "bad --expected-root");
    assert_eq!(wrong(&["--fast"]), "unknown flag --fast");
    assert_eq!(wrong(&["--fast", "--threads"]), "unknown flag --fast");
}

#[test]
fn a_value_may_look_like_a_flag() {
    assert_eq!(parse(&["--datadir", "--write"]).unwrap().datadir, "--write");
}

#[test]
fn roots_are_read_in_hex() {
    let digits: String = (0..32u8).map(|i| format!("{:02x}", i.wrapping_mul(37))).collect();
    let expected: Vec<u8> = (0..32u8).map(|i| i.wrapping_mul(37)).collect();
    for text in [digits.clone(), format!("0x{digits}"), format!("0X{}", digits.to_uppercase())] {
        let args = parse(&["--datadir", "d", "--expected-root", &text]).unwrap();
        assert_eq!(args.expected_root.unwrap().0.to_vec(), expected);
    }
    for text in [
        format!("{digits}0"),
        format!("x{digits}"),
        format!("0x0x{digits}"),
        format!("0x{}", &digits[2..]),
        format!("0x{}", digits.replacen('0', "g", 1)),
        format!("\u{e9}{}", &digits[2..]),
    ] {
        let got = parse(&["--datadir", "d", "--expected-root", &text]);
        assert_eq!(got.unwrap_err(), "bad --expected-root");
    }
}

#[test]
fn numbers_are_read_as_the_standard_library_does() {
    let max = format!("{}", usize::MAX);
    let over = format!("{}0", usize::MAX);
    for text in [
        "0", "7", "+7", "007", "", "+", "-", "-1", "+-1", "++1", "1 ", " 1", "1_000", "0x10", "12a",
        "\u{664}", &max, &over, "18446744073709551616", "99999999999999999999999999",
        "99999999999999999999999999x",
    ] {
        assert_eq!(parse_usize(text), text.parse::<usize>().ok(), "{text:?}");
    }
}

#[test]
fn modes_have_an_order() {
    let mode = |flags: &[&str]| {
        let mut words = vec!["--datadir", "d"];
        words.extend_from_slice(flags);
        parse(&words).unwrap().mode()
    };
    assert_eq!(mode(&["--write", "--digest-trie-tables"]), Mode::ReadWrite);
    assert_eq!(mode(&["--reth-rebuild"]), Mode::ReadWrite);
    assert_eq!(mode(&["--clear-trie-tables"]), Mode::ReadWrite);
    assert_eq!(mode(&["--reth-serial", "--digest-trie-tables"]), Mode::DigestTables);
    assert_eq!(mode(&["--reth-serial"]), Mode::RethSerial);
}

#[test]
fn roots_are_checked_when_asked() {
    let root = B256::repeat_byte(1);
    assert_eq!(check_root(&root, &None), RootCheck::NotAsked);
    assert_eq!(check_root(&root, &Some(B256::repeat_byte(1))), RootCheck::Matches);
    assert_eq!(check_root(&root, &Some(B256::repeat_byte(2))), RootCheck::Mismatch);
}

#[test]
fn lines_in_words() {
    assert_eq!(tip_line(Some(0)), "tip block 0 (Finish stage checkpoint)");
    assert_eq!(tip_line(Some(21_345_678)), "tip block 21345678 (Finish stage checkpoint)");
    let max = format!("tip block {} (Finish stage checkpoint)", u64::MAX);
    assert_eq!(tip_line(Some(u64::MAX)), max);
    assert_eq!(tip_line(None), "tip block unknown (no Finish checkpoint)");
    assert_eq!(hashed_entries(3, 4), 7);
    assert_eq!(
        usage("bad --repeat"),
        "bad --repeat\nusage: datadir_bench --datadir PATH [--threads N] [--repeat N] [--expected-root 0x..] [--write] [--chunk-nodes N] [--reth-serial] [--reth-rebuild] [--clear-trie-tables] [--digest-trie-tables]"
    );
}
