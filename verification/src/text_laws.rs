//! What counters, numbers in words and command lines stand for.

use crate::cli::{
    digits_value, hex_bytes, is_digit, is_hex_word, no_args, parsed, takes_value, texts, unsigned,
    usize_of, Args, ArgsView,
};
use crate::heap::{
    counted, counted_all, human_text, rounded, spacing, unit_name, unit_of, unit_size,
    with_53_bits, HeapEvent, PeakView,
};
use crate::primitives::{lemma_word_of_bytes, word_of};
use crate::text::{decimal, digit_char};
use vstd::prelude::*;

verus! {

/// An allocation adds its bytes, and lifts the peak where more is live than ever before; a
/// deallocation takes its bytes away, around the end of the range where more is freed than is live,
/// and leaves the peak.
pub proof fn lemma_bytes_are_counted(c: PeakView, bytes: usize)
    ensures
        c.current + bytes <= usize::MAX ==> {
            let after = counted(c, HeapEvent::Add(bytes));
            &&& after.current == c.current + bytes
            &&& after.peak >= after.current && after.peak >= c.peak
            &&& after.peak == after.current || after.peak == c.peak
        },
        counted(c, HeapEvent::Sub(bytes)).peak == c.peak,
        bytes <= c.current ==> counted(c, HeapEvent::Sub(bytes)).current == c.current - bytes,
        bytes > c.current ==> counted(c, HeapEvent::Sub(bytes)).current == c.current - bytes
            + usize::MAX + 1,
{
}

/// What was allocated and then freed leaves the live bytes as they were.
pub proof fn lemma_freeing_undoes_allocating(c: PeakView, bytes: usize)
    requires
        c.current + bytes <= usize::MAX,
    ensures
        counted(counted(c, HeapEvent::Add(bytes)), HeapEvent::Sub(bytes)).current == c.current,
{
}

/// The events are counted one after the other.
pub proof fn lemma_events_are_counted_in_turn(c: PeakView, events: Seq<HeapEvent>, event: HeapEvent)
    ensures
        counted_all(c, Seq::empty()) == c,
        counted_all(c, events.push(event)) == counted(counted_all(c, events), event),
{
    assert(events.push(event).drop_last() =~= events);
}

/// Whether `r` is the whole number nearest to the quotient of `n` and `d`, the even one of two that
/// are.
pub open spec fn is_nearest(r: nat, n: nat, d: nat) -> bool {
    &&& 2 * (n - r * d) <= d
    &&& 2 * (r * d - n) <= d
    &&& (2 * (n - r * d) == d || 2 * (r * d - n) == d) ==> r % 2 == 0
}

/// Rounding gives the nearest whole number, the even one of two that are.
pub proof fn lemma_rounded_is_nearest(n: nat, d: nat)
    requires
        d > 0,
    ensures
        is_nearest(rounded(n, d), n, d),
{
    let (q, r) = (n / d, n % d);
    assert(n == q * d + r && r < d) by (nonlinear_arith)
        requires
            q == n / d,
            r == n % d,
            d > 0,
    ;
    assert((q + 1) * d == q * d + d) by (nonlinear_arith);
    if 2 * r == d {
        assert(rounded(n, d) == q || rounded(n, d) == q + 1);
        if q % 2 == 0 {
            assert(rounded(n, d) == q);
        } else {
            assert(rounded(n, d) == q + 1);
        }
    }
}

/// Numbers up to 2^53 are held as they are; beyond, neighbouring numbers are so far apart that a
/// number is between 2^52 and 2^53 times the distance.
pub proof fn lemma_spacing_keeps_53_bits(n: nat)
    ensures
        n < 0x20_0000_0000_0000 ==> spacing(n) == 1,
        n >= 0x20_0000_0000_0000 ==> 0x10_0000_0000_0000 * spacing(n) <= n < 0x20_0000_0000_0000
            * spacing(n) && spacing(n) == 2 * spacing(n / 2),
    decreases n,
{
    if n >= 0x20_0000_0000_0000 {
        lemma_spacing_keeps_53_bits(n / 2);
    }
}

/// A byte count in words is the count, to the nearest hundredth of the largest unit that it reaches,
/// in decimal with two decimals, a space and the name of the unit. Up to 2^53 the count is taken as
/// it is, beyond as the nearest multiple of the distance between numbers of 53 bits.
pub proof fn lemma_human_text_is_the_count(bytes: nat)
    ensures
        exists|n: nat, hundredths: nat, size: nat, name: Seq<char>|
            #[trigger] is_human(bytes, n, hundredths, size, name) && human_text(bytes) == decimal(
                hundredths / 100,
            ) + "."@ + seq![digit_char(hundredths / 10 % 10), digit_char(hundredths % 10)] + " "@
                + name,
{
    let n = with_53_bits(bytes);
    let unit = unit_of(n);
    let (size, name) = (unit_size(unit), unit_name(unit));
    let hundredths = rounded(100 * n, size);
    lemma_spacing_keeps_53_bits(bytes);
    lemma_spacing_positive(bytes);
    lemma_rounded_is_nearest(bytes, spacing(bytes));
    lemma_rounded_is_nearest(100 * n, size);
    if bytes < 0x20_0000_0000_0000 {
        assert(rounded(bytes, 1) == bytes);
        assert(n == bytes);
    }
    assert(is_human(bytes, n, hundredths, size, name));
}

proof fn lemma_spacing_positive(n: nat)
    ensures
        spacing(n) >= 1,
    decreases n,
{
    if n >= 0x20_0000_0000_0000 {
        lemma_spacing_positive(n / 2);
    }
}

/// Whether a byte count is given as so many hundredths of a unit with this size and name, by way of
/// the count `n`.
pub open spec fn is_human(
    bytes: nat,
    n: nat,
    hundredths: nat,
    size: nat,
    name: Seq<char>,
) -> bool {
    &&& bytes < 0x20_0000_0000_0000 ==> n == bytes
    &&& 2 * (n - bytes) <= spacing(bytes) && 2 * (bytes - n) <= spacing(bytes)
    &&& exists|k: nat| is_nearest(k, bytes, spacing(bytes)) && n == k * spacing(bytes)
    &&& is_nearest(hundredths, 100 * n, size)
    &&& n < 1024 ==> size == 1 && name == "B"@
    &&& 1024 <= n < 1024 * 1024 ==> size == 1024 && name == "KiB"@
    &&& 1024 * 1024 <= n < 1024 * 1024 * 1024 ==> size == 1024 * 1024 && name == "MiB"@
    &&& 1024 * 1024 * 1024 <= n < 1024 * 1024 * 1024 * 1024 ==> size == 1024 * 1024 * 1024 && name
        == "GiB"@
    &&& n >= 1024 * 1024 * 1024 * 1024 ==> size == 1024 * 1024 * 1024 * 1024 && name == "TiB"@
}

/// A digit is written as its character.
pub proof fn lemma_digit_is_its_character(d: nat)
    requires
        d < 10,
    ensures
        digit_char(d) == "0123456789"@[d as int],
        is_digit(digit_char(d)),
        digit_char(d) as nat == '0' as nat + d,
{
    reveal_strlit("0123456789");
    let all = "0123456789"@;
    assert(all[0] == '0' && all[1] == '1' && all[2] == '2' && all[3] == '3' && all[4] == '4');
    assert(all[5] == '5' && all[6] == '6' && all[7] == '7' && all[8] == '8' && all[9] == '9');
}

/// Digits stand for a number place by place: one more digit makes ten times as much and that digit.
pub proof fn lemma_one_more_digit(s: Seq<char>, c: char)
    requires
        '0' <= c && c <= '9',
    ensures
        digits_value(Seq::empty()) == 0,
        digits_value(s.push(c)) == 10 * digits_value(s) + (c as nat - '0' as nat),
{
    assert(s.push(c).drop_last() =~= s);
}

/// A number in decimal is digits that stand for the number, at least one, and the first of more than
/// one is not zero.
pub proof fn lemma_decimal_stands_for_the_number(n: nat)
    ensures
        digits_value(decimal(n)) == n,
        decimal(n).len() >= 1,
        forall|i: int| 0 <= i < decimal(n).len() ==> '0' <= #[trigger] decimal(n)[i] && decimal(
            n,
        )[i] <= '9',
        n >= 10 ==> decimal(n).len() > 1,
        n > 0 ==> decimal(n)[0] != '0',
    decreases n,
{
    if n < 10 {
        let none: Seq<char> = Seq::empty();
        lemma_digit_is_its_character(n);
        assert(decimal(n) =~= none.push(digit_char(n)));
        lemma_one_more_digit(none, digit_char(n));
    } else {
        lemma_decimal_stands_for_the_number(n / 10);
        lemma_digit_is_its_character(n % 10);
        lemma_one_more_digit(decimal(n / 10), digit_char(n % 10));
        assert forall|i: int| 0 <= i < decimal(n).len() implies '0' <= #[trigger] decimal(n)[i]
            && decimal(n)[i] <= '9' by {
            if i < decimal(n / 10).len() {
                assert(decimal(n)[i] == decimal(n / 10)[i]);
            }
        }
    }
}

/// A text is read as a number exactly if it is one or more decimal digits, with or without a leading
/// plus sign, and the number they stand for fits; it is then that number.
pub proof fn lemma_number_is_read(s: Seq<char>, digits: Seq<char>)
    requires
        s.len() > 0 && s[0] == '+' ==> digits == s.skip(1),
        s.len() == 0 || s[0] != '+' ==> digits == s,
    ensures
        usize_of(s) is Some <==> digits.len() > 0 && digits_value(digits) <= usize::MAX && forall|
            i: int,
        |
            0 <= i < digits.len() ==> '0' <= #[trigger] digits[i] && digits[i] <= '9',
        usize_of(s) matches Some(n) ==> n == digits_value(digits),
{
    assert(digits == unsigned(s));
    if forall|i: int| 0 <= i < digits.len() ==> '0' <= #[trigger] digits[i] && digits[i] <= '9' {
        assert forall|i: int| 0 <= i < digits.len() implies is_digit(#[trigger] digits[i]) by {}
    }
    if forall|i: int| 0 <= i < digits.len() ==> is_digit(#[trigger] digits[i]) {
        assert forall|i: int| 0 <= i < digits.len() implies '0' <= #[trigger] digits[i] && digits[i]
            <= '9' by {
            assert(is_digit(digits[i]));
        }
    }
}

/// A number that is written in decimal is read back as that number.
pub proof fn lemma_written_number_is_read_back(n: usize)
    ensures
        usize_of(decimal(n as nat)) == Some(n),
{
    lemma_decimal_stands_for_the_number(n as nat);
    assert('0' <= decimal(n as nat)[0]);
    lemma_number_is_read(decimal(n as nat), decimal(n as nat));
}

/// A command line is the words it is made of, and what it asks for is its fields.
pub proof fn lemma_args_are_their_fields(args: Args, words: Seq<String>)
    ensures
        texts(words) == words.map_values(|word: String| word@),
        args@.datadir == args.datadir@,
        args@.threads == args.threads,
        args@.repeat == args.repeat,
        args@.expected_root == args.expected_root,
        args@.write == args.write,
        args@.chunk_nodes == args.chunk_nodes,
        args@.reth_serial == args.reth_serial,
        args@.reth_rebuild == args.reth_rebuild,
        args@.clear_trie_tables == args.clear_trie_tables,
        args@.digest_trie_tables == args.digest_trie_tables,
{
}

/// Without flags nothing is asked for but one run in chunks of 100,000 nodes; and a command line
/// that has been read to its end is good exactly if it gave a datadir.
pub proof fn lemma_nothing_is_asked_for_by_itself(args: ArgsView)
    ensures
        no_args().datadir.len() == 0,
        no_args().threads is None,
        no_args().repeat == 1,
        no_args().expected_root is None,
        no_args().chunk_nodes == 100_000,
        !no_args().write && !no_args().reth_serial && !no_args().reth_rebuild,
        !no_args().clear_trie_tables && !no_args().digest_trie_tables,
        args.datadir.len() > 0 ==> parsed(args, Seq::empty()) == Ok::<ArgsView, Seq<char>>(args),
        args.datadir.len() == 0 ==> parsed(args, Seq::empty()) == Err::<ArgsView, Seq<char>>(
            "--datadir is required"@,
        ),
{
}

/// The names of the flags are all different.
proof fn lemma_flags_differ()
    ensures
        "--datadir"@.len() == 9,
        "--threads"@.len() == 9,
        "--repeat"@.len() == 8,
        "--expected-root"@.len() == 15,
        "--chunk-nodes"@.len() == 13,
        "--write"@.len() == 7,
        "--reth-serial"@.len() == 13,
        "--reth-rebuild"@.len() == 14,
        "--clear-trie-tables"@.len() == 19,
        "--digest-trie-tables"@.len() == 20,
        "--datadir"@ != "--threads"@,
        "--chunk-nodes"@ != "--reth-serial"@,
{
    reveal_strlit("--datadir");
    reveal_strlit("--threads");
    reveal_strlit("--repeat");
    reveal_strlit("--expected-root");
    reveal_strlit("--chunk-nodes");
    reveal_strlit("--write");
    reveal_strlit("--reth-serial");
    reveal_strlit("--reth-rebuild");
    reveal_strlit("--clear-trie-tables");
    reveal_strlit("--digest-trie-tables");
    assert("--datadir"@[2] == 'd' && "--threads"@[2] == 't');
    assert("--chunk-nodes"@[2] == 'c' && "--reth-serial"@[2] == 'r');
}

/// Each switch turns on what it names and nothing else, wherever it stands.
pub proof fn lemma_switches_turn_on_what_they_name(args: ArgsView, rest: Seq<Seq<char>>)
    ensures
        parsed(args, seq!["--write"@] + rest) == parsed(ArgsView { write: true, ..args }, rest),
        parsed(args, seq!["--reth-serial"@] + rest) == parsed(
            ArgsView { reth_serial: true, ..args },
            rest,
        ),
        parsed(args, seq!["--reth-rebuild"@] + rest) == parsed(
            ArgsView { reth_rebuild: true, ..args },
            rest,
        ),
        parsed(args, seq!["--clear-trie-tables"@] + rest) == parsed(
            ArgsView { clear_trie_tables: true, ..args },
            rest,
        ),
        parsed(args, seq!["--digest-trie-tables"@] + rest) == parsed(
            ArgsView { digest_trie_tables: true, ..args },
            rest,
        ),
{
    lemma_flags_differ();
    assert((seq!["--write"@] + rest).skip(1) =~= rest);
    assert((seq!["--reth-serial"@] + rest).skip(1) =~= rest);
    assert((seq!["--reth-rebuild"@] + rest).skip(1) =~= rest);
    assert((seq!["--clear-trie-tables"@] + rest).skip(1) =~= rest);
    assert((seq!["--digest-trie-tables"@] + rest).skip(1) =~= rest);
}

/// Each flag with a value sets what it names to the value and nothing else, wherever it stands: the
/// datadir to any text, the threads, runs and nodes per chunk to the number that the text stands
/// for, and the expected root to the word in hexadecimal. Where the value is no such number or word,
/// the command line is refused.
pub proof fn lemma_values_set_what_they_name(
    args: ArgsView,
    value: Seq<char>,
    rest: Seq<Seq<char>>,
)
    ensures
        parsed(args, seq!["--datadir"@, value] + rest) == parsed(
            ArgsView { datadir: value, ..args },
            rest,
        ),
        usize_of(value) matches Some(n) ==> {
            &&& parsed(args, seq!["--threads"@, value] + rest) == parsed(
                ArgsView { threads: Some(n), ..args },
                rest,
            )
            &&& parsed(args, seq!["--repeat"@, value] + rest) == parsed(
                ArgsView { repeat: n, ..args },
                rest,
            )
            &&& parsed(args, seq!["--chunk-nodes"@, value] + rest) == parsed(
                ArgsView { chunk_nodes: n, ..args },
                rest,
            )
        },
        usize_of(value) is None ==> {
            &&& parsed(args, seq!["--threads"@, value] + rest) == Err::<ArgsView, Seq<char>>(
                "bad --threads"@,
            )
            &&& parsed(args, seq!["--repeat"@, value] + rest) == Err::<ArgsView, Seq<char>>(
                "bad --repeat"@,
            )
            &&& parsed(args, seq!["--chunk-nodes"@, value] + rest) == Err::<ArgsView, Seq<char>>(
                "bad --chunk-nodes"@,
            )
        },
        is_hex_word(value) ==> {
            let word = word_of(hex_bytes(value));
            &&& word.0@ == hex_bytes(value)
            &&& parsed(args, seq!["--expected-root"@, value] + rest) == parsed(
                ArgsView { expected_root: Some(word), ..args },
                rest,
            )
        },
        !is_hex_word(value) ==> parsed(args, seq!["--expected-root"@, value] + rest) == Err::<
            ArgsView,
            Seq<char>,
        >("bad --expected-root"@),
{
    lemma_flags_differ();
    lemma_word_of_bytes(hex_bytes(value));
    assert((seq!["--datadir"@, value] + rest).skip(2) =~= rest);
    assert((seq!["--threads"@, value] + rest).skip(2) =~= rest);
    assert((seq!["--repeat"@, value] + rest).skip(2) =~= rest);
    assert((seq!["--chunk-nodes"@, value] + rest).skip(2) =~= rest);
    assert((seq!["--expected-root"@, value] + rest).skip(2) =~= rest);
    reveal_strlit("bad ");
    reveal_strlit("--threads");
    reveal_strlit("--repeat");
    reveal_strlit("--chunk-nodes");
    reveal_strlit("bad --threads");
    reveal_strlit("bad --repeat");
    reveal_strlit("bad --chunk-nodes");
    assert("bad "@ + "--threads"@ =~= "bad --threads"@);
    assert("bad "@ + "--repeat"@ =~= "bad --repeat"@);
    assert("bad "@ + "--chunk-nodes"@ =~= "bad --chunk-nodes"@);
}

/// A flag that takes a value is refused where it is the last word, and any other word is refused
/// where a flag is expected.
pub proof fn lemma_other_words_are_refused(args: ArgsView, flag: Seq<char>, rest: Seq<Seq<char>>)
    ensures
        ({
            let valued = flag == "--datadir"@ || flag == "--threads"@ || flag == "--repeat"@
                || flag == "--expected-root"@ || flag == "--chunk-nodes"@;
            let switch = flag == "--write"@ || flag == "--reth-serial"@ || flag
                == "--reth-rebuild"@ || flag == "--clear-trie-tables"@ || flag
                == "--digest-trie-tables"@;
            &&& takes_value(flag) <==> valued
            &&& valued ==> parsed(args, seq![flag]) == Err::<ArgsView, Seq<char>>(
                flag + " needs a value"@,
            )
            &&& !valued && !switch ==> parsed(args, seq![flag] + rest) == Err::<
                ArgsView,
                Seq<char>,
            >("unknown flag "@ + flag)
        }),
{
    assert((seq![flag] + rest)[0] == flag);
}

} // verus!
