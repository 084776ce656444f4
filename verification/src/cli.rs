//! The command line of the datadir benchmark, and what it decides.

use crate::primitives::{lemma_word, word_of, B256};
use crate::text::{decimal, push_decimal};
use crate::writer::DEFAULT_CHUNK_NODES;
use vstd::prelude::*;
use vstd::string::{StrSliceExecFns, StringExecFns};

verus! {

/// The value of a hexadecimal digit.
pub open spec fn hex_digit(c: char) -> Option<u8> {
    if '0' <= c && c <= '9' {
        Some((c as u8 - '0' as u8) as u8)
    } else if 'a' <= c && c <= 'f' {
        Some((c as u8 - 'a' as u8 + 10) as u8)
    } else if 'A' <= c && c <= 'F' {
        Some((c as u8 - 'A' as u8 + 10) as u8)
    } else {
        None
    }
}

/// The text without a leading `0x` or `0X`.
pub open spec fn without_prefix(s: Seq<char>) -> Seq<char> {
    if s.len() >= 2 && s[0] == '0' && (s[1] == 'x' || s[1] == 'X') {
        s.skip(2)
    } else {
        s
    }
}

/// Whether the text is a word of 64 hexadecimal digits, with or without prefix.
pub open spec fn is_hex_word(s: Seq<char>) -> bool {
    let digits = without_prefix(s);
    digits.len() == 64 && forall|i: int| 0 <= i < 64 ==> hex_digit(#[trigger] digits[i]) is Some
}

/// The bytes of a hexadecimal word.
pub open spec fn hex_bytes(s: Seq<char>) -> Seq<u8> {
    let digits = without_prefix(s);
    Seq::new(
        32,
        |i: int| (16 * hex_digit(digits[2 * i])->0 + hex_digit(digits[2 * i + 1])->0) as u8,
    )
}

/// `parse` of `alloy_primitives::B256`: a word of 64 hexadecimal digits, in upper or lower case,
/// with or without a leading `0x`.
#[verifier::external_body]
fn parse_word(text: &str) -> (r: Option<B256>)
    ensures
        r is Some <==> is_hex_word(text@),
        r matches Some(word) ==> word.bytes() == hex_bytes(text@),
{
    text.parse::<alloy_primitives::B256>().ok().map(|word| B256(word.0))
}

/// Whether a character is a decimal digit.
pub open spec fn is_digit(c: char) -> bool {
    '0' <= c && c <= '9'
}

/// The number that decimal digits stand for.
pub open spec fn digits_value(s: Seq<char>) -> nat
    decreases s.len(),
{
    if s.len() == 0 {
        0
    } else {
        digits_value(s.drop_last()) * 10 + (s.last() as nat - '0' as nat) as nat
    }
}

/// The decimal digits of a text: all of it but for a leading plus sign.
pub open spec fn unsigned(s: Seq<char>) -> Seq<char> {
    if s.len() > 0 && s[0] == '+' {
        s.skip(1)
    } else {
        s
    }
}

/// The number that a text stands for, if it is one that fits.
pub open spec fn usize_of(s: Seq<char>) -> Option<usize> {
    let digits = unsigned(s);
    if digits.len() > 0 && (forall|i: int| 0 <= i < digits.len() ==> is_digit(#[trigger] digits[i]))
        && digits_value(digits) <= usize::MAX {
        Some(digits_value(digits) as usize)
    } else {
        None
    }
}

proof fn lemma_value_grows(s: Seq<char>, n: int)
    requires
        0 <= n <= s.len(),
        forall|i: int| 0 <= i < s.len() ==> is_digit(#[trigger] s[i]),
    ensures
        digits_value(s.take(n)) <= digits_value(s),
    decreases s.len() - n,
{
    if n < s.len() {
        lemma_value_grows(s, n + 1);
        assert(s.take(n + 1).drop_last() =~= s.take(n));
    } else {
        assert(s.take(n) =~= s);
    }
}

/// The number that a text stands for: decimal digits, with or without a leading plus sign.
pub fn parse_usize(text: &str) -> (r: Option<usize>)
    ensures
        r == usize_of(text@),
{
    let n: usize = text.unicode_len();
    let start: usize = if n > 0 && text.get_char(0) == '+' {
        1
    } else {
        0
    };
    let ghost digits = unsigned(text@);
    if start == n {
        return None;
    }
    let mut value: usize = 0;
    let mut i: usize = start;
    assert(digits.take(0) =~= Seq::empty());
    while i < n
        invariant
            start <= i <= n,
            n == text@.len(),
            start <= 1,
            digits == unsigned(text@),
            digits =~= text@.skip(start as int),
            start < n,
            value == digits_value(digits.take(i - start)),
            forall|j: int| 0 <= j < i - start ==> is_digit(#[trigger] digits[j]),
        decreases n - i,
    {
        let c = text.get_char(i);
        assert(digits[i - start] == c);
        if !('0' <= c && c <= '9') {
            return None;
        }
        let d: u8 = (c as u8) - ('0' as u8);
        proof {
            let at = i - start;
            assert(digits.take(at + 1).drop_last() =~= digits.take(at));
            assert(digits.take(at + 1).last() == c);
            if value * 10 + d > usize::MAX {
                if forall|j: int| 0 <= j < digits.len() ==> is_digit(#[trigger] digits[j]) {
                    lemma_value_grows(digits, at + 1);
                }
            }
        }
        value = match value.checked_mul(10) {
            Some(v) => match v.checked_add(d as usize) {
                Some(v) => v,
                None => {
                    return None;
                },
            },
            None => {
                return None;
            },
        };
        i = i + 1;
    }
    assert(digits.take(digits.len() as int) =~= digits);
    Some(value)
}

/// What the benchmark was asked to do.
#[derive(Debug)]
pub struct Args {
    /// The datadir.
    pub datadir: String,
    /// Threads of the CPU pool, the available parallelism if not given.
    pub threads: Option<usize>,
    /// How often to run.
    pub repeat: usize,
    /// The root to check the outcome against.
    pub expected_root: Option<B256>,
    /// Whether to build and write the trie tables.
    pub write: bool,
    /// The number of nodes per committed chunk.
    pub chunk_nodes: usize,
    /// Whether to run the serial walk over what the trie tables hold.
    pub reth_serial: bool,
    /// Whether to run the serial rebuild.
    pub reth_rebuild: bool,
    /// Whether to clear the trie tables.
    pub clear_trie_tables: bool,
    /// Whether to digest the trie tables.
    pub digest_trie_tables: bool,
}

/// The content of [`Args`].
pub struct ArgsView {
    /// The datadir.
    pub datadir: Seq<char>,
    /// Threads of the CPU pool.
    pub threads: Option<usize>,
    /// How often to run.
    pub repeat: usize,
    /// The root to check the outcome against.
    pub expected_root: Option<B256>,
    /// Whether to build and write the trie tables.
    pub write: bool,
    /// The number of nodes per committed chunk.
    pub chunk_nodes: usize,
    /// Whether to run the serial walk over what the trie tables hold.
    pub reth_serial: bool,
    /// Whether to run the serial rebuild.
    pub reth_rebuild: bool,
    /// Whether to clear the trie tables.
    pub clear_trie_tables: bool,
    /// Whether to digest the trie tables.
    pub digest_trie_tables: bool,
}

impl View for Args {
    type V = ArgsView;

    open spec fn view(&self) -> ArgsView {
        ArgsView {
            datadir: self.datadir@,
            threads: self.threads,
            repeat: self.repeat,
            expected_root: self.expected_root,
            write: self.write,
            chunk_nodes: self.chunk_nodes,
            reth_serial: self.reth_serial,
            reth_rebuild: self.reth_rebuild,
            clear_trie_tables: self.clear_trie_tables,
            digest_trie_tables: self.digest_trie_tables,
        }
    }
}

/// What is asked for without any flag.
pub open spec fn no_args() -> ArgsView {
    ArgsView {
        datadir: Seq::empty(),
        threads: None,
        repeat: 1,
        expected_root: None,
        write: false,
        chunk_nodes: 100_000,
        reth_serial: false,
        reth_rebuild: false,
        clear_trie_tables: false,
        digest_trie_tables: false,
    }
}

/// Whether a flag comes with a value.
pub open spec fn takes_value(flag: Seq<char>) -> bool {
    flag == "--datadir"@ || flag == "--threads"@ || flag == "--repeat"@ || flag
        == "--expected-root"@ || flag == "--chunk-nodes"@
}

/// The effect of a flag with a value, or what is wrong with it.
pub open spec fn with_value(args: ArgsView, flag: Seq<char>, value: Seq<char>) -> Result<
    ArgsView,
    Seq<char>,
> {
    if flag == "--datadir"@ {
        Ok(ArgsView { datadir: value, ..args })
    } else if flag == "--expected-root"@ {
        if is_hex_word(value) {
            Ok(ArgsView { expected_root: Some(word_of(hex_bytes(value))), ..args })
        } else {
            Err("bad --expected-root"@)
        }
    } else {
        match usize_of(value) {
            None => Err("bad "@ + flag),
            Some(n) => if flag == "--threads"@ {
                Ok(ArgsView { threads: Some(n), ..args })
            } else if flag == "--repeat"@ {
                Ok(ArgsView { repeat: n, ..args })
            } else {
                Ok(ArgsView { chunk_nodes: n, ..args })
            },
        }
    }
}

/// The effect of a flag without a value, if there is such a flag.
pub open spec fn with_switch(args: ArgsView, flag: Seq<char>) -> Option<ArgsView> {
    if flag == "--write"@ {
        Some(ArgsView { write: true, ..args })
    } else if flag == "--reth-serial"@ {
        Some(ArgsView { reth_serial: true, ..args })
    } else if flag == "--reth-rebuild"@ {
        Some(ArgsView { reth_rebuild: true, ..args })
    } else if flag == "--clear-trie-tables"@ {
        Some(ArgsView { clear_trie_tables: true, ..args })
    } else if flag == "--digest-trie-tables"@ {
        Some(ArgsView { digest_trie_tables: true, ..args })
    } else {
        None
    }
}

/// What the words of a command line ask for on top of `args`, or the first thing wrong with them.
pub open spec fn parsed(args: ArgsView, words: Seq<Seq<char>>) -> Result<ArgsView, Seq<char>>
    decreases words.len(),
{
    if words.len() == 0 {
        if args.datadir.len() == 0 {
            Err("--datadir is required"@)
        } else {
            Ok(args)
        }
    } else if takes_value(words[0]) {
        if words.len() == 1 {
            Err(words[0] + " needs a value"@)
        } else {
            match with_value(args, words[0], words[1]) {
                Ok(args) => parsed(args, words.skip(2)),
                Err(message) => Err(message),
            }
        }
    } else {
        match with_switch(args, words[0]) {
            Some(args) => parsed(args, words.skip(1)),
            None => Err("unknown flag "@ + words[0]),
        }
    }
}

/// The texts of words.
pub open spec fn texts(words: Seq<String>) -> Seq<Seq<char>> {
    Seq::new(words.len(), |i: int| words[i]@)
}

/// Whether two texts are the same.
fn same_text(a: &String, b: &str) -> (r: bool)
    ensures
        r == (a@ == b@),
{
    let b = b.to_owned();
    *a == b
}

/// Two texts in a row.
fn joined(a: &str, b: &str) -> (r: String)
    ensures
        r@ == a@ + b@,
{
    a.to_owned().concat(b)
}

/// Whether a flag comes with a value.
fn flag_takes_value(flag: &String) -> (r: bool)
    ensures
        r == takes_value(flag@),
{
    same_text(flag, "--datadir") || same_text(flag, "--threads") || same_text(flag, "--repeat")
        || same_text(flag, "--expected-root") || same_text(flag, "--chunk-nodes")
}

/// Sets what a flag with a value asks for; returns what is wrong, if anything is.
fn set_value(args: &mut Args, flag: &String, value: &String) -> (r: Option<String>)
    requires
        takes_value(flag@),
    ensures
        with_value(old(args)@, flag@, value@) == match r {
            None => Ok::<ArgsView, Seq<char>>(final(args)@),
            Some(message) => Err::<ArgsView, Seq<char>>(message@),
        },
{
    if same_text(flag, "--datadir") {
        args.datadir = value.clone();
        return None;
    }
    if same_text(flag, "--expected-root") {
        return match parse_word(value.as_str()) {
            Some(root) => {
                proof {
                    lemma_word(root);
                }
                args.expected_root = Some(root);
                None
            },
            None => Some("bad --expected-root".to_owned()),
        };
    }
    match parse_usize(value.as_str()) {
        None => Some(joined("bad ", flag.as_str())),
        Some(n) => {
            if same_text(flag, "--threads") {
                args.threads = Some(n);
            } else if same_text(flag, "--repeat") {
                args.repeat = n;
            } else {
                args.chunk_nodes = n;
            }
            None
        },
    }
}

/// Sets what a flag without a value asks for; returns whether there is such a flag.
fn set_switch(args: &mut Args, flag: &String) -> (r: bool)
    ensures
        r ==> with_switch(old(args)@, flag@) == Some(final(args)@),
        !r ==> with_switch(old(args)@, flag@) is None,
{
    if same_text(flag, "--write") {
        args.write = true;
    } else if same_text(flag, "--reth-serial") {
        args.reth_serial = true;
    } else if same_text(flag, "--reth-rebuild") {
        args.reth_rebuild = true;
    } else if same_text(flag, "--clear-trie-tables") {
        args.clear_trie_tables = true;
    } else if same_text(flag, "--digest-trie-tables") {
        args.digest_trie_tables = true;
    } else {
        return false;
    }
    true
}

/// Reads the words of a command line, the program's name left out. An error says in words what is
/// wrong.
pub fn parse_args(words: &Vec<String>) -> (r: Result<Args, String>)
    ensures
        parsed(no_args(), texts(words@)) == match r {
            Ok(args) => Ok::<ArgsView, Seq<char>>(args@),
            Err(message) => Err::<ArgsView, Seq<char>>(message@),
        },
{
    let mut args = Args {
        datadir: String::new(),
        threads: None,
        repeat: 1,
        expected_root: None,
        write: false,
        chunk_nodes: DEFAULT_CHUNK_NODES,
        reth_serial: false,
        reth_rebuild: false,
        clear_trie_tables: false,
        digest_trie_tables: false,
    };
    let ghost all = texts(words@);
    let mut i: usize = 0;
    assert(all.skip(0) =~= all);
    assert(args@ =~= no_args());
    while i < words.len()
        invariant
            i <= words@.len(),
            all == texts(words@),
            parsed(no_args(), all) == parsed(args@, all.skip(i as int)),
        decreases words@.len() - i,
    {
        let flag = &words[i];
        let ghost rest = all.skip(i as int);
        proof {
            assert(rest[0] == flag@);
            assert(rest.skip(1) =~= all.skip(i + 1));
        }
        if flag_takes_value(flag) {
            if i + 1 == words.len() {
                return Err(joined(flag.as_str(), " needs a value"));
            }
            let value = &words[i + 1];
            proof {
                assert(rest[1] == value@);
                assert(rest.skip(2) =~= all.skip(i + 2));
            }
            match set_value(&mut args, flag, value) {
                None => {},
                Some(message) => {
                    return Err(message);
                },
            }
            i = i + 2;
        } else {
            if !set_switch(&mut args, flag) {
                return Err(joined("unknown flag ", flag.as_str()));
            }
            i = i + 1;
        }
    }
    let required = "";
    proof {
        reveal_strlit("");
        assert(all.skip(words@.len() as int) =~= Seq::empty());
        assert(args.datadir@ == required@ <==> args.datadir@.len() == 0) by {
            assert(required@ =~= Seq::empty());
            if args.datadir@.len() == 0 {
                assert(args.datadir@ =~= required@);
            }
        }
    }
    if same_text(&args.datadir, required) {
        return Err("--datadir is required".to_owned());
    }
    Ok(args)
}

/// What is printed for a command line that cannot be read.
pub fn usage(message: &str) -> (r: String)
    ensures
        r@ == message@
            + "\nusage: datadir_bench --datadir PATH [--threads N] [--repeat N] [--expected-root 0x..] [--write] [--chunk-nodes N] [--reth-serial] [--reth-rebuild] [--clear-trie-tables] [--digest-trie-tables]"@,
{
    joined(
        message,
        "\nusage: datadir_bench --datadir PATH [--threads N] [--repeat N] [--expected-root 0x..] [--write] [--chunk-nodes N] [--reth-serial] [--reth-rebuild] [--clear-trie-tables] [--digest-trie-tables]",
    )
}

/// What a run of the benchmark does.
#[derive(Clone, Copy, Debug, PartialEq, Eq)]
pub enum Mode {
    /// Opens the database read-write and clears, rebuilds or writes the trie tables.
    ReadWrite,
    /// Digests the trie tables.
    DigestTables,
    /// Runs the serial walk over what the trie tables hold.
    RethSerial,
    /// Builds the trie without writing it.
    Generate,
}

impl Args {
    /// What to do: the flags that write come first, then the digest, then the serial walk.
    pub fn mode(&self) -> (r: Mode)
        ensures
            r == if self.clear_trie_tables || self.reth_rebuild || self.write {
                Mode::ReadWrite
            } else if self.digest_trie_tables {
                Mode::DigestTables
            } else if self.reth_serial {
                Mode::RethSerial
            } else {
                Mode::Generate
            },
    {
        if self.clear_trie_tables || self.reth_rebuild || self.write {
            Mode::ReadWrite
        } else if self.digest_trie_tables {
            Mode::DigestTables
        } else if self.reth_serial {
            Mode::RethSerial
        } else {
            Mode::Generate
        }
    }
}

/// The outcome of checking a root.
#[derive(Clone, Copy, Debug, PartialEq, Eq)]
pub enum RootCheck {
    /// No root was given to check against.
    NotAsked,
    /// The roots are the same.
    Matches,
    /// The roots differ.
    Mismatch,
}

/// Checks a root against the expected one, if there is one.
pub fn check_root(root: &B256, expected: &Option<B256>) -> (r: RootCheck)
    ensures
        r == match *expected {
            None => RootCheck::NotAsked,
            Some(expected) => if *root == expected {
                RootCheck::Matches
            } else {
                RootCheck::Mismatch
            },
        },
{
    match expected {
        None => RootCheck::NotAsked,
        Some(expected) => if root.same(expected) {
            RootCheck::Matches
        } else {
            RootCheck::Mismatch
        },
    }
}

/// The line about the tip block, from the checkpoint of the last stage.
pub fn tip_line(tip: Option<u64>) -> (r: String)
    ensures
        r@ == match tip {
            Some(block) => "tip block "@ + decimal(block as nat) + " (Finish stage checkpoint)"@,
            None => "tip block unknown (no Finish checkpoint)"@,
        },
{
    match tip {
        Some(block) => {
            let mut line = "tip block ".to_owned();
            push_decimal(&mut line, block);
            line.append(" (Finish stage checkpoint)");
            line
        },
        None => "tip block unknown (no Finish checkpoint)".to_owned(),
    }
}

/// The number of hashed entries that a run walks, from the sizes of the two tables.
pub fn hashed_entries(accounts: usize, storages: usize) -> (r: u64)
    requires
        accounts + storages <= usize::MAX,
    ensures
        r == accounts + storages,
{
    (accounts + storages) as u64
}

} // verus!
