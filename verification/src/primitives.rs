//! Hashes, 256-bit numbers and accounts.

use crate::bytes::{
    be_bytes, be_value, differ_at, lemma_be_value_bound, lemma_be_value_concat, lemma_bytes_of_value,
    lemma_lex_is_value_order, lemma_value_of_bytes, lex_lt, pow256, precedes, same_bytes,
};
use vstd::prelude::*;

verus! {

/// A 32-byte word: a hash, or a hashed key.
#[derive(Clone, Copy, Debug, PartialEq, Eq, PartialOrd, Ord, Hash)]
pub struct B256(pub [u8; 32]);

/// A 256-bit unsigned number, held as its 32 big-endian bytes.
#[derive(Clone, Copy, Debug, PartialEq, Eq, Hash)]
pub struct U256(pub [u8; 32]);

/// An account as the hashed state holds it.
#[derive(Clone, Copy, Debug, PartialEq, Eq)]
pub struct Account {
    /// Number of transactions sent.
    pub nonce: u64,
    /// Balance in wei.
    pub balance: U256,
    /// Hash of the code, `None` for an account without code.
    pub bytecode_hash: Option<B256>,
}

/// An account as the leaf of the state trie encodes it.
#[derive(Clone, Copy, Debug, PartialEq, Eq)]
pub struct TrieAccount {
    /// Number of transactions sent.
    pub nonce: u64,
    /// Balance in wei.
    pub balance: U256,
    /// Root of the account's storage trie.
    pub storage_root: B256,
    /// Hash of the code.
    pub code_hash: B256,
}

/// Two arrays of 32 bytes with the same bytes are the same array.
pub proof fn lemma_same_array(a: [u8; 32], b: [u8; 32])
    requires
        a@ == b@,
    ensures
        a == b,
{
    assert forall|i: int| 0 <= i < 32 implies a[i] == b[i] by {
        assert(a@[i] == b@[i]);
    }
    assert(a =~= b);
}

/// The word with the given 32 bytes.
pub open spec fn word_of(bytes: Seq<u8>) -> B256 {
    choose|w: B256| w.bytes() == bytes
}

/// The 256-bit number `v`.
pub open spec fn number_of(v: nat) -> U256 {
    choose|x: U256| x.value() == v
}

/// A word is determined by its bytes.
pub proof fn lemma_word(w: B256)
    ensures
        word_of(w.bytes()) == w,
{
    let x = word_of(w.bytes());
    assert(x.bytes() == w.bytes());
    lemma_same_array(x.0, w.0);
}

/// There is a word with any 32 bytes.
pub proof fn lemma_word_of_bytes(b: Seq<u8>)
    requires
        b.len() == 32,
    ensures
        word_of(b).bytes() == b,
{
    let w = B256(
        [
            b[0], b[1], b[2], b[3], b[4], b[5], b[6], b[7],
            b[8], b[9], b[10], b[11], b[12], b[13], b[14], b[15],
            b[16], b[17], b[18], b[19], b[20], b[21], b[22], b[23],
            b[24], b[25], b[26], b[27], b[28], b[29], b[30], b[31],
        ],
    );
    assert(w.bytes() =~= b);
}

/// A number is determined by its value.
pub proof fn lemma_number(x: U256)
    ensures
        number_of(x.value()) == x,
{
    let y = number_of(x.value());
    assert(y.value() == x.value());
    lemma_bytes_of_value(x.bytes());
    lemma_bytes_of_value(y.bytes());
    lemma_same_array(x.0, y.0);
}

/// The number of a big-endian half word of 16 bytes.
fn half_to_int(bytes: &[u8]) -> (v: u128)
    requires
        bytes@.len() == 16,
    ensures
        v as nat == be_value(bytes@),
{
    let mut v: u128 = 0;
    let mut i: usize = 0;
    while i < 16
        invariant
            i <= 16,
            bytes@.len() == 16,
            v as nat == be_value(bytes@.take(i as int)),
        decreases 16 - i,
    {
        proof {
            let s = bytes@.take(i as int);
            lemma_be_value_bound(s);
            lemma_pow256_at_most_15(i as nat);
            assert(bytes@.take(i + 1).drop_last() =~= s);
        }
        v = v * 256 + bytes[i] as u128;
        i = i + 1;
    }
    assert(bytes@.take(16) =~= bytes@);
    v
}

proof fn lemma_pow256_at_most_15(i: nat)
    requires
        i < 16,
    ensures
        pow256(i) <= 0x1_00_0000_0000_0000_0000_0000_0000_0000,
    decreases 15 - i,
{
    if i < 15 {
        lemma_pow256_at_most_15(i + 1);
    } else {
        reveal_with_fuel(pow256, 17);
    }
}

/// The 16 big-endian bytes of a number.
fn int_to_half(v: u128) -> (r: Vec<u8>)
    ensures
        r@ == be_bytes(v as nat, 16),
        r@.len() == 16,
        be_value(r@) == v as nat,
{
    let mut r: Vec<u8> = vec![0u8; 16];
    let mut rest: u128 = v;
    let mut i: usize = 16;
    proof {
        assert(be_bytes(v as nat, 16) =~= be_bytes(v as nat, 16) + r@.skip(16)) by {
            assert(r@.skip(16) =~= Seq::<u8>::empty());
        }
    }
    while i > 0
        invariant
            i <= 16,
            r@.len() == 16,
            be_bytes(v as nat, 16) == be_bytes(rest as nat, i as nat) + r@.skip(i as int),
        decreases i,
    {
        let ghost before = r@;
        let ghost digits = be_bytes(rest as nat, i as nat);
        i = i - 1;
        r[i] = (rest % 256) as u8;
        proof {
            assert(r@.skip(i as int) =~= seq![(rest % 256) as u8] + before.skip(i + 1));
            assert(digits =~= be_bytes((rest / 256) as nat, i as nat) + seq![(rest % 256) as u8]);
            assert(digits + before.skip(i + 1) =~= be_bytes((rest / 256) as nat, i as nat)
                + r@.skip(i as int));
        }
        rest = rest / 256;
    }
    proof {
        assert(be_bytes(rest as nat, 0) =~= Seq::<u8>::empty());
        assert(r@.skip(0) =~= r@);
        assert(be_bytes(v as nat, 16) =~= r@);
        assert(pow256(16) == 0x1_0000_0000_0000_0000_0000_0000_0000_0000) by {
            reveal_with_fuel(pow256, 17);
        }
        lemma_value_of_bytes(v as nat, 16);
    }
    r
}

/// The two halves of 32 big-endian bytes as numbers.
pub open spec fn halves_of(b: Seq<u8>) -> (u128, u128) {
    (be_value(b.take(16)) as u128, be_value(b.skip(16)) as u128)
}

/// The halves fit their integer type.
pub proof fn lemma_halves_exact(b: Seq<u8>)
    requires
        b.len() == 32,
    ensures
        halves_of(b).0 as nat == be_value(b.take(16)),
        halves_of(b).1 as nat == be_value(b.skip(16)),
{
    lemma_be_value_bound(b.take(16));
    lemma_be_value_bound(b.skip(16));
    assert(pow256(16) == 0x1_0000_0000_0000_0000_0000_0000_0000_0000) by {
        reveal_with_fuel(pow256, 17);
    }
}

/// 32 bytes are determined by their halves.
pub proof fn lemma_halves_determine(a: Seq<u8>, b: Seq<u8>)
    requires
        a.len() == 32,
        b.len() == 32,
        halves_of(a) == halves_of(b),
    ensures
        a == b,
{
    lemma_halves_exact(a);
    lemma_halves_exact(b);
    lemma_bytes_of_value(a.take(16));
    lemma_bytes_of_value(b.take(16));
    lemma_bytes_of_value(a.skip(16));
    lemma_bytes_of_value(b.skip(16));
    assert(a =~= a.take(16) + a.skip(16));
    assert(b =~= b.take(16) + b.skip(16));
}

/// 32 bytes are ordered as the pairs of their halves.
pub proof fn lemma_halves_order(a: Seq<u8>, b: Seq<u8>)
    requires
        a.len() == 32,
        b.len() == 32,
    ensures
        lex_lt(a, b) <==> (halves_of(a).0 < halves_of(b).0 || (halves_of(a).0 == halves_of(b).0
            && halves_of(a).1 < halves_of(b).1)),
{
    lemma_halves_exact(a);
    lemma_halves_exact(b);
    let (ah, at) = (a.take(16), a.skip(16));
    let (bh, bt) = (b.take(16), b.skip(16));
    assert(a =~= ah + at);
    assert(b =~= bh + bt);
    lemma_be_value_concat(ah, at);
    lemma_be_value_concat(bh, bt);
    lemma_be_value_bound(at);
    lemma_be_value_bound(bt);
    lemma_lex_is_value_order(a, b);
    let p = pow256(16);
    let (x, y) = (be_value(ah), be_value(bh));
    if x < y {
        assert(x * p + p <= y * p) by (nonlinear_arith)
            requires
                x < y,
        ;
    } else if y < x {
        assert(y * p + p <= x * p) by (nonlinear_arith)
            requires
                y < x,
        ;
    }
}

/// No word comes before the word of zeros.
pub proof fn lemma_zero_is_first(a: B256, zero: B256)
    requires
        zero.bytes() == Seq::new(32, |i: int| 0u8),
    ensures
        !a.before(zero),
{
    let (x, z) = (a.bytes(), zero.bytes());
    assert forall|k: int| !differ_at(x, z, k) by {
        if 0 <= k < 32 {
            assert(z[k] == 0);
        }
    }
}

impl B256 {
    /// The bytes.
    pub open spec fn bytes(self) -> Seq<u8> {
        self.0@
    }

    /// Order of the bytes.
    pub open spec fn before(self, other: B256) -> bool {
        lex_lt(self.bytes(), other.bytes())
    }

    /// The two halves as numbers.
    pub open spec fn halves(self) -> (u128, u128) {
        halves_of(self.bytes())
    }

    /// The word of 32 zero bytes.
    pub fn zero() -> (r: B256)
        ensures
            r.bytes() == Seq::new(32, |i: int| 0u8),
    {
        B256::repeat_byte(0)
    }

    /// The word of 32 times the same byte.
    pub fn repeat_byte(byte: u8) -> (r: B256)
        ensures
            r.bytes() == Seq::new(32, |i: int| byte),
    {
        let b = byte;
        B256(
            [
                b, b, b, b, b, b, b, b, b, b, b, b, b, b, b, b, b, b, b, b, b, b, b, b, b, b, b, b, b,
                b, b, b,
            ],
        )
    }

    /// The word that ends in `byte` and is zero elsewhere.
    pub fn with_last_byte(byte: u8) -> (r: B256)
        ensures
            r.bytes() == Seq::new(32, |i: int| if i == 31 { byte } else { 0u8 }),
    {
        let mut out = B256::zero().0;
        out[31] = byte;
        B256(out)
    }

    /// The word that starts with `head` and is zero elsewhere.
    pub fn right_padding_from(head: &[u8]) -> (r: B256)
        requires
            head@.len() <= 32,
        ensures
            r.bytes() == Seq::new(32, |i: int| if i < head@.len() { head@[i] } else { 0u8 }),
    {
        let mut out = B256::zero().0;
        let mut i: usize = 0;
        while i < head.len()
            invariant
                i <= head@.len() <= 32,
                forall|j: int| 0 <= j < 32 ==> out@[j] == if j < i { head@[j] } else { 0u8 },
            decreases head@.len() - i,
        {
            out[i] = head[i];
            i = i + 1;
        }
        B256(out)
    }

    /// The bytes as a slice.
    pub fn as_slice(&self) -> (r: &[u8])
        ensures
            r@ == self.bytes(),
            r@.len() == 32,
    {
        self.0.as_slice()
    }

    /// The word with the given 32 bytes.
    pub fn from_slice(bytes: &[u8]) -> (r: B256)
        requires
            bytes@.len() == 32,
        ensures
            r.bytes() == bytes@,
    {
        let r = Self::right_padding_from(bytes);
        assert(r.bytes() =~= bytes@);
        r
    }

    /// Whether both words hold the same bytes.
    pub fn same(&self, other: &B256) -> (r: bool)
        ensures
            r == (*self == *other),
    {
        let r = same_bytes(self.as_slice(), other.as_slice());
        proof {
            if r {
                lemma_same_array(self.0, other.0);
            }
        }
        r
    }

    /// Whether this word comes before `other`.
    pub fn is_before(&self, other: &B256) -> (r: bool)
        ensures
            r == self.before(*other),
    {
        precedes(self.as_slice(), other.as_slice())
    }

    /// The high nibble of the first byte.
    pub fn first_nibble(&self) -> (r: u8)
        ensures
            r == self.bytes()[0] / 16,
            r < 16,
    {
        self.0[0] / 16
    }

    /// The two halves as numbers.
    pub fn to_halves(&self) -> (r: (u128, u128))
        ensures
            r == self.halves(),
            r.0 as nat == be_value(self.bytes().take(16)),
            r.1 as nat == be_value(self.bytes().skip(16)),
    {
        let (head, tail) = self.as_slice().split_at(16);
        assert(head@ =~= self.bytes().take(16));
        assert(tail@ =~= self.bytes().skip(16));
        (half_to_int(head), half_to_int(tail))
    }

    /// The word with the given halves.
    pub fn from_halves(halves: (u128, u128)) -> (r: B256)
        ensures
            r.halves() == halves,
    {
        let mut all: Vec<u8> = int_to_half(halves.0);
        let mut tail: Vec<u8> = int_to_half(halves.1);
        let ghost (h, t) = (all@, tail@);
        all.append(&mut tail);
        let r = Self::from_slice(all.as_slice());
        proof {
            assert(r.bytes().take(16) =~= h);
            assert(r.bytes().skip(16) =~= t);
        }
        r
    }
}

impl U256 {
    /// The big-endian bytes.
    pub open spec fn bytes(self) -> Seq<u8> {
        self.0@
    }

    /// The number.
    pub open spec fn value(self) -> nat {
        be_value(self.bytes())
    }

    /// The number `v`.
    pub fn from(v: u64) -> (r: U256)
        ensures
            r.bytes() == be_bytes(v as nat, 32),
            r.value() == v as nat,
    {
        let word = B256::from_halves((0u128, v as u128));
        proof {
            lemma_halves_exact(word.bytes());
            let b = word.bytes();
            assert(b =~= b.take(16) + b.skip(16));
            lemma_be_value_concat(b.take(16), b.skip(16));
            assert(0 * pow256(16) == 0) by (nonlinear_arith);
            lemma_bytes_of_value(b);
        }
        U256(word.0)
    }

    /// Whether the number is zero.
    pub fn is_zero(&self) -> (r: bool)
        ensures
            r == (self.value() == 0),
            r == (self.bytes() == Seq::new(32, |i: int| 0u8)),
    {
        let zero = B256::zero();
        let r = same_bytes(self.0.as_slice(), zero.as_slice());
        proof {
            lemma_lex_is_value_order(self.bytes(), zero.bytes());
            lemma_zeros(32);
            assert(zero.bytes() =~= Seq::new(32, |i: int| 0u8));
        }
        r
    }
}

proof fn lemma_zeros(n: nat)
    ensures
        be_value(Seq::new(n, |i: int| 0u8)) == 0,
    decreases n,
{
    if n > 0 {
        lemma_zeros((n - 1) as nat);
        assert(Seq::new(n, |i: int| 0u8).drop_last() =~= Seq::new((n - 1) as nat, |i: int| 0u8));
    }
}

} // verus!
