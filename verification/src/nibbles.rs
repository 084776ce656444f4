//! Paths in a trie: sequences of at most 64 nibbles.

use crate::bytes::{
    differ_at, lemma_lex_asymmetric, lemma_lex_irreflexive, lemma_lex_total, lex_lt, precedes,
    same_bytes,
};
use crate::primitives::B256;
use vstd::prelude::*;

verus! {

/// Whether every entry is a nibble.
pub open spec fn all_nibbles(s: Seq<u8>) -> bool {
    forall|i: int| 0 <= i < s.len() ==> #[trigger] s[i] < 16
}

/// Whether `s` is the content of a path.
pub open spec fn is_path(s: Seq<u8>) -> bool {
    s.len() <= 64 && all_nibbles(s)
}

/// The nibbles of a byte string, high nibble first.
pub open spec fn unpacked(b: Seq<u8>) -> Seq<u8> {
    Seq::new(2 * b.len(), |j: int| if j % 2 == 0 { b[j / 2] / 16 } else { b[j / 2] % 16 })
}

/// The nibble at `j`, or zero past the end.
pub open spec fn digit(s: Seq<u8>, j: int) -> u8 {
    if 0 <= j < s.len() { s[j] } else { 0 }
}

/// The first `n` bytes of `s` packed two nibbles to a byte and padded with zeros.
pub open spec fn packed(s: Seq<u8>, n: nat) -> Seq<u8> {
    Seq::new(n, |i: int| (16 * digit(s, 2 * i) + digit(s, 2 * i + 1)) as u8)
}

/// Whether `s` starts with `prefix`.
pub open spec fn starts_with(s: Seq<u8>, prefix: Seq<u8>) -> bool {
    prefix.len() <= s.len() && s.take(prefix.len() as int) == prefix
}

/// Whether `next` is the path of the length of `s` that comes right after it: one nibble goes up
/// by one, those before it stay, those behind it go from `0xf` to zero.
pub open spec fn is_successor(s: Seq<u8>, next: Seq<u8>, k: int) -> bool {
    &&& next.len() == s.len()
    &&& 0 <= k < s.len()
    &&& s[k] < 15
    &&& next[k] == s[k] + 1
    &&& forall|j: int| 0 <= j < k ==> next[j] == s[j]
    &&& forall|j: int| k < j < s.len() ==> s[j] == 15 && next[j] == 0
}

/// A path in a trie.
#[derive(Debug, PartialEq, Eq, PartialOrd, Ord, Hash)]
pub struct Nibbles {
    nibbles: Vec<u8>,
}

impl View for Nibbles {
    type V = Seq<u8>;

    closed spec fn view(&self) -> Seq<u8> {
        self.nibbles@
    }
}

impl Nibbles {
    #[verifier::type_invariant]
    spec fn inv(self) -> bool {
        is_path(self.nibbles@)
    }

    /// A path holds at most 64 nibbles.
    pub(crate) fn check(&self)
        ensures
            is_path(self@),
    {
        proof {
            use_type_invariant(self);
        }
    }

    /// The empty path.
    pub fn new() -> (r: Nibbles)
        ensures
            r@ == Seq::<u8>::empty(),
    {
        Nibbles { nibbles: Vec::new() }
    }

    /// The path with the given nibbles.
    pub fn from_nibbles(nibbles: &[u8]) -> (r: Nibbles)
        requires
            is_path(nibbles@),
        ensures
            r@ == nibbles@,
    {
        let mut out: Vec<u8> = Vec::new();
        let mut i: usize = 0;
        while i < nibbles.len()
            invariant
                i <= nibbles@.len(),
                out@ == nibbles@.take(i as int),
            decreases nibbles@.len() - i,
        {
            out.push(nibbles[i]);
            i = i + 1;
            assert(out@ =~= nibbles@.take(i as int));
        }
        assert(out@ =~= nibbles@);
        Nibbles { nibbles: out }
    }

    /// The nibbles of a key.
    pub fn unpack(key: &B256) -> (r: Nibbles)
        ensures
            r@ == unpacked(key.bytes()),
            r@.len() == 64,
    {
        let bytes = key.as_slice();
        let mut out: Vec<u8> = Vec::new();
        let mut i: usize = 0;
        while i < 32
            invariant
                i <= 32,
                bytes@ == key.bytes(),
                bytes@.len() == 32,
                out@.len() == 2 * i,
                all_nibbles(out@),
                forall|j: int| 0 <= j < 2 * i ==> out@[j] == unpacked(bytes@)[j],
            decreases 32 - i,
        {
            out.push(bytes[i] / 16);
            out.push(bytes[i] % 16);
            i = i + 1;
        }
        assert(out@ =~= unpacked(bytes@));
        Nibbles { nibbles: out }
    }

    /// Number of nibbles.
    pub fn len(&self) -> (r: usize)
        ensures
            r == self@.len(),
            r <= 64,
    {
        proof {
            use_type_invariant(self);
        }
        self.nibbles.len()
    }

    /// Whether the path is empty.
    pub fn is_empty(&self) -> (r: bool)
        ensures
            r == (self@.len() == 0),
    {
        self.nibbles.len() == 0
    }

    /// The first nibble.
    pub fn first(&self) -> (r: Option<u8>)
        ensures
            r == if self@.len() == 0 { None } else { Some(self@[0]) },
            r matches Some(n) ==> n < 16,
    {
        proof {
            use_type_invariant(self);
        }
        if self.nibbles.len() == 0 {
            None
        } else {
            Some(self.nibbles[0])
        }
    }

    /// The nibbles as a slice.
    pub fn as_slice(&self) -> (r: &[u8])
        ensures
            r@ == self@,
            is_path(r@),
    {
        proof {
            use_type_invariant(self);
        }
        self.nibbles.as_slice()
    }

    /// The same path once more.
    pub fn duplicate(&self) -> (r: Nibbles)
        ensures
            r@ == self@,
    {
        Self::from_nibbles(self.as_slice())
    }

    /// The path from nibble `start` on.
    pub fn slice_from(&self, start: usize) -> (r: Nibbles)
        requires
            start <= self@.len(),
        ensures
            r@ == self@.skip(start as int),
    {
        proof {
            use_type_invariant(self);
        }
        let mut out: Vec<u8> = Vec::new();
        let mut i: usize = start;
        while i < self.nibbles.len()
            invariant
                start <= i <= self@.len(),
                is_path(self@),
                out@ == self@.subrange(start as int, i as int),
            decreases self@.len() - i,
        {
            out.push(self.nibbles[i]);
            i = i + 1;
            assert(out@ =~= self@.subrange(start as int, i as int));
        }
        assert(out@ =~= self@.skip(start as int));
        Nibbles { nibbles: out }
    }

    /// This path followed by `other`.
    pub fn join(&self, other: &Nibbles) -> (r: Nibbles)
        requires
            self@.len() + other@.len() <= 64,
        ensures
            r@ == self@ + other@,
    {
        proof {
            use_type_invariant(self);
            use_type_invariant(other);
        }
        let mut out: Vec<u8> = Vec::new();
        let mut i: usize = 0;
        while i < self.nibbles.len()
            invariant
                i <= self@.len(),
                out@ == self@.take(i as int),
            decreases self@.len() - i,
        {
            out.push(self.nibbles[i]);
            i = i + 1;
            assert(out@ =~= self@.take(i as int));
        }
        assert(out@ =~= self@);
        let mut i: usize = 0;
        while i < other.nibbles.len()
            invariant
                i <= other@.len(),
                out@ == self@ + other@.take(i as int),
            decreases other@.len() - i,
        {
            out.push(other.nibbles[i]);
            i = i + 1;
            assert(out@ =~= self@ + other@.take(i as int));
        }
        assert(out@ =~= self@ + other@);
        Nibbles { nibbles: out }
    }

    /// The path of the same length that comes right after this one, or `None` if there is none:
    /// the path is empty or holds only `0xf`.
    pub fn increment(&self) -> (r: Option<Nibbles>)
        ensures
            r is None <==> (forall|j: int| 0 <= j < self@.len() ==> self@[j] == 15),
            r is Some ==> exists|k: int| #[trigger] is_successor(self@, (r->0)@, k),
    {
        proof {
            use_type_invariant(self);
        }
        let mut i: usize = self.nibbles.len();
        while i > 0 && self.nibbles[i - 1] == 15
            invariant
                i <= self@.len(),
                forall|j: int| i <= j < self@.len() ==> self@[j] == 15,
            decreases i,
        {
            i = i - 1;
        }
        if i == 0 {
            return None;
        }
        let k: usize = i - 1;
        let mut out: Vec<u8> = Vec::new();
        let mut j: usize = 0;
        while j < self.nibbles.len()
            invariant
                j <= self@.len(),
                k < self@.len(),
                is_path(self@),
                self@[k as int] != 15,
                out@.len() == j,
                forall|m: int|
                    0 <= m < j ==> out@[m] == if m < k {
                        self@[m]
                    } else if m == k {
                        (self@[m] + 1) as u8
                    } else {
                        0u8
                    },
            decreases self@.len() - j,
        {
            assert(self@[j as int] < 16);
            if j < k {
                out.push(self.nibbles[j]);
            } else if j == k {
                out.push(self.nibbles[j] + 1);
            } else {
                out.push(0);
            }
            j = j + 1;
        }
        proof {
            assert(self@[k as int] < 16);
            assert forall|m: int| 0 <= m < out@.len() implies #[trigger] out@[m] < 16 by {
                assert(self@[m] < 16);
            }
        }
        let next = Nibbles { nibbles: out };
        let r = Some(next);
        assert(is_successor(self@, (r->0)@, k as int));
        r
    }

    /// The path packed two nibbles to a byte; the last byte of an odd path ends in a zero nibble.
    pub fn pack(&self) -> (r: Vec<u8>)
        ensures
            r@ == packed(self@, ((self@.len() + 1) / 2) as nat),
    {
        proof {
            use_type_invariant(self);
        }
        let n: usize = (self.nibbles.len() + 1) / 2;
        let mut out: Vec<u8> = Vec::new();
        let mut i: usize = 0;
        while i < n
            invariant
                i <= n,
                n == (self@.len() + 1) / 2,
                is_path(self@),
                out@ == packed(self@, i as nat),
            decreases n - i,
        {
            let high: u8 = self.nibbles[2 * i];
            let low: u8 = if 2 * i + 1 < self.nibbles.len() {
                self.nibbles[2 * i + 1]
            } else {
                0
            };
            assert(self@[2 * i as int] < 16);
            assert(low < 16);
            out.push(16 * high + low);
            i = i + 1;
            assert(out@ =~= packed(self@, i as nat));
        }
        out
    }

    /// The smallest key that starts with this path.
    pub fn pack_padded(&self) -> (r: B256)
        ensures
            r.bytes() == packed(self@, 32),
    {
        proof {
            use_type_invariant(self);
        }
        let bytes = self.pack();
        let r = B256::right_padding_from(bytes.as_slice());
        assert(r.bytes() =~= packed(self@, 32));
        r
    }

    /// Whether both paths are the same.
    pub fn same(&self, other: &Nibbles) -> (r: bool)
        ensures
            r == (self@ == other@),
    {
        same_bytes(self.as_slice(), other.as_slice())
    }

    /// Whether this path comes before `other`.
    pub fn is_before(&self, other: &Nibbles) -> (r: bool)
        ensures
            r == lex_lt(self@, other@),
    {
        precedes(self.as_slice(), other.as_slice())
    }
}

/// The nibbles of a key are a full path.
pub proof fn lemma_unpacked_is_path(key: B256)
    ensures
        is_path(unpacked(key.bytes())),
        unpacked(key.bytes()).len() == 64,
{
    let u = unpacked(key.bytes());
    assert forall|i: int| 0 <= i < u.len() implies #[trigger] u[i] < 16 by {}
}

/// Packing the nibbles of a key gives the key.
pub proof fn lemma_pack_unpack(b: Seq<u8>)
    ensures
        packed(unpacked(b), b.len()) == b,
{
    let u = unpacked(b);
    assert forall|i: int| 0 <= i < b.len() implies packed(u, b.len())[i] == b[i] by {
        assert(digit(u, 2 * i) == b[i] / 16);
        assert(digit(u, 2 * i + 1) == b[i] % 16);
    }
    assert(packed(u, b.len()) =~= b);
}

/// Unpacking a packed path gives the path, padded.
pub proof fn lemma_unpack_pack(s: Seq<u8>, j: int)
    requires
        is_path(s),
        0 <= j < 64,
    ensures
        unpacked(packed(s, 32))[j] == digit(s, j),
{
    let i = j / 2;
    let (h, l) = (digit(s, 2 * i), digit(s, 2 * i + 1));
    assert(h < 16 && l < 16);
    assert(packed(s, 32)[i] == 16 * h + l);
}

/// Keys are ordered as their nibbles.
pub proof fn lemma_unpacked_order(a: Seq<u8>, b: Seq<u8>)
    requires
        a.len() == b.len(),
    ensures
        lex_lt(a, b) <==> lex_lt(unpacked(a), unpacked(b)),
{
    if lex_lt(a, b) {
        lemma_unpacked_before(a, b);
    } else if lex_lt(b, a) {
        lemma_unpacked_before(b, a);
        lemma_lex_asymmetric(unpacked(b), unpacked(a));
    } else {
        lemma_lex_total(a, b);
        lemma_lex_irreflexive(unpacked(a));
    }
}

proof fn lemma_unpacked_before(a: Seq<u8>, b: Seq<u8>)
    requires
        a.len() == b.len(),
        lex_lt(a, b),
    ensures
        lex_lt(unpacked(a), unpacked(b)),
{
    let k = choose|k: int| differ_at(a, b, k);
    let (u, v) = (unpacked(a), unpacked(b));
    let m = if a[k] / 16 < b[k] / 16 { 2 * k } else { 2 * k + 1 };
    assert(u.take(m) =~= v.take(m)) by {
        assert forall|j: int| 0 <= j < m implies u[j] == v[j] by {
            if j < 2 * k {
                assert(a.take(k)[j / 2] == b.take(k)[j / 2]);
            }
        }
    }
    assert(differ_at(u, v, m));
}

/// The nibbles of `s`, padded with zeros to a full key.
pub open spec fn padded(s: Seq<u8>) -> Seq<u8> {
    Seq::new(64, |j: int| digit(s, j))
}

/// The nibbles of a packed path are the path and zeros.
pub proof fn lemma_unpacked_padded(s: Seq<u8>)
    requires
        is_path(s),
    ensures
        unpacked(packed(s, 32)) == padded(s),
{
    assert forall|j: int| 0 <= j < 64 implies unpacked(packed(s, 32))[j] == padded(s)[j] by {
        lemma_unpack_pack(s, j);
    }
    assert(unpacked(packed(s, 32)) =~= padded(s));
}

/// No key with a prefix comes before the prefix padded with zeros.
proof fn lemma_with_prefix_not_below(u: Seq<u8>, prefix: Seq<u8>)
    requires
        u.len() == 64,
        is_path(prefix),
        starts_with(u, prefix),
    ensures
        !lex_lt(u, padded(prefix)),
{
    let low = padded(prefix);
    if lex_lt(u, low) {
        let d = choose|d: int| differ_at(u, low, d);
        if d < prefix.len() {
            assert(u.take(prefix.len() as int)[d] == prefix[d]);
        }
        assert(false);
    }
}

/// A key with a prefix comes before the padded successor of the prefix.
proof fn lemma_with_prefix_below_next(u: Seq<u8>, prefix: Seq<u8>, next: Seq<u8>, k: int)
    requires
        u.len() == 64,
        is_path(prefix),
        starts_with(u, prefix),
        is_successor(prefix, next, k),
    ensures
        lex_lt(u, padded(next)),
{
    let high = padded(next);
    let n = prefix.len() as int;
    assert(u.take(k) =~= high.take(k)) by {
        assert forall|j: int| 0 <= j < k implies u[j] == high[j] by {
            assert(u.take(n)[j] == prefix[j]);
        }
    }
    assert(u.take(n)[k] == prefix[k]);
    assert(differ_at(u, high, k));
}

/// A key that leaves the prefix downwards comes before the padded prefix.
proof fn lemma_leaves_down(u: Seq<u8>, prefix: Seq<u8>, d: int)
    requires
        u.len() == 64,
        is_path(prefix),
        0 <= d < prefix.len(),
        u.take(d) == prefix.take(d),
        u[d] < prefix[d],
    ensures
        lex_lt(u, padded(prefix)),
{
    let low = padded(prefix);
    assert(u.take(d) =~= low.take(d)) by {
        assert forall|j: int| 0 <= j < d implies u[j] == low[j] by {
            assert(u[j] == u.take(d)[j]);
            assert(prefix[j] == prefix.take(d)[j]);
        }
    }
    assert(differ_at(u, low, d));
}

/// A key that leaves the prefix upwards does not come before the padded successor.
proof fn lemma_leaves_up(u: Seq<u8>, prefix: Seq<u8>, next: Seq<u8>, k: int, d: int)
    requires
        u.len() == 64,
        all_nibbles(u),
        is_path(prefix),
        is_successor(prefix, next, k),
        0 <= d < prefix.len(),
        u.take(d) == prefix.take(d),
        prefix[d] < u[d],
    ensures
        !lex_lt(u, padded(next)),
{
    let high = padded(next);
    assert(u[d] < 16);
    assert(d <= k);
    if lex_lt(u, high) {
        let e = choose|e: int| differ_at(u, high, e);
        if e < d {
            assert(u[e] == u.take(d)[e]);
            assert(prefix[e] == prefix.take(d)[e]);
        } else if e > d {
            assert(u[d] == u.take(e)[d]);
            assert(high[d] == high.take(e)[d]);
            if d == k && e > k {
                assert(high[e] == 0);
            }
        }
        assert(false);
    }
}

/// A key starts with `prefix` exactly if it lies between the prefix padded with zeros and the
/// padded successor of the prefix.
pub proof fn lemma_prefix_bounded(key: Seq<u8>, prefix: Seq<u8>, next: Seq<u8>, k: int)
    requires
        key.len() == 32,
        is_path(prefix),
        is_successor(prefix, next, k),
    ensures
        starts_with(unpacked(key), prefix) <==> (!lex_lt(key, packed(prefix, 32)) && lex_lt(
            key,
            packed(next, 32),
        )),
{
    let u = unpacked(key);
    lemma_unpacked_order(key, packed(prefix, 32));
    lemma_unpacked_padded(prefix);
    assert(is_path(next)) by {
        assert forall|j: int| 0 <= j < next.len() implies #[trigger] next[j] < 16 by {
            assert(prefix[j] < 16);
        }
    }
    lemma_unpacked_order(key, packed(next, 32));
    lemma_unpacked_padded(next);
    assert(all_nibbles(u));
    if starts_with(u, prefix) {
        lemma_with_prefix_not_below(u, prefix);
        lemma_with_prefix_below_next(u, prefix, next, k);
    } else {
        lemma_first_difference(u, prefix);
        let d = choose|d: int| leaves_at(u, prefix, d);
        if u[d] < prefix[d] {
            lemma_leaves_down(u, prefix, d);
        } else {
            lemma_leaves_up(u, prefix, next, k, d);
        }
    }
}

/// A key starts with a prefix without successor exactly if it does not come before the padded
/// prefix.
pub proof fn lemma_prefix_unbounded(key: Seq<u8>, prefix: Seq<u8>)
    requires
        key.len() == 32,
        is_path(prefix),
        forall|j: int| 0 <= j < prefix.len() ==> prefix[j] == 15,
    ensures
        starts_with(unpacked(key), prefix) <==> !lex_lt(key, packed(prefix, 32)),
{
    let u = unpacked(key);
    lemma_unpacked_order(key, packed(prefix, 32));
    lemma_unpacked_padded(prefix);
    assert(all_nibbles(u));
    if starts_with(u, prefix) {
        lemma_with_prefix_not_below(u, prefix);
    } else {
        lemma_first_difference(u, prefix);
        let d = choose|d: int| leaves_at(u, prefix, d);
        assert(u[d] < 16);
        lemma_leaves_down(u, prefix, d);
    }
}

/// Padding keeps the order of paths, but for a path and what it is padded to.
pub proof fn lemma_padded_order(a: Seq<u8>, b: Seq<u8>)
    requires
        is_path(a),
        is_path(b),
        lex_lt(padded(a), padded(b)) || (padded(a) == padded(b) && a.len() < b.len()),
    ensures
        lex_lt(a, b),
{
    let (p, q) = (padded(a), padded(b));
    let n = a.len() as int;
    if lex_lt(p, q) {
        let k = choose|k: int| differ_at(p, q, k);
        let m = if k < n { k } else { n };
        assert(k < b.len());
        assert(a.take(m) =~= b.take(m)) by {
            assert forall|j: int| 0 <= j < m implies a[j] == b[j] by {
                assert(p[j] == p.take(k)[j]);
                assert(q[j] == q.take(k)[j]);
            }
        }
        assert(differ_at(a, b, m));
    } else {
        assert(a.take(n) =~= b.take(n)) by {
            assert forall|j: int| 0 <= j < n implies a[j] == b[j] by {
                assert(p[j] == q[j]);
            }
        }
        assert(differ_at(a, b, n));
    }
}

/// Whether `u` follows `prefix` up to `d` and leaves it there.
spec fn leaves_at(u: Seq<u8>, prefix: Seq<u8>, d: int) -> bool {
    0 <= d < prefix.len() && u.take(d) == prefix.take(d) && u[d] != prefix[d]
}

proof fn lemma_first_difference(u: Seq<u8>, prefix: Seq<u8>)
    requires
        prefix.len() <= u.len(),
        !starts_with(u, prefix),
    ensures
        exists|d: int| leaves_at(u, prefix, d),
    decreases prefix.len(),
{
    let n = prefix.len() as int;
    if n == 0 {
        assert(u.take(0) =~= prefix);
    } else {
        let p = prefix.drop_last();
        if starts_with(u, p) {
            assert(u.take(n - 1) =~= prefix.take(n - 1)) by {
                assert(u.take(n - 1) == p);
            }
            if u[n - 1] == prefix[n - 1] {
                assert(u.take(n) =~= u.take(n - 1).push(u[n - 1]));
                assert(prefix =~= p.push(prefix[n - 1]));
            }
            assert(leaves_at(u, prefix, n - 1));
        } else {
            lemma_first_difference(u, p);
            let d = choose|d: int| leaves_at(u, p, d);
            assert(prefix.take(d) =~= p.take(d));
            assert(leaves_at(u, prefix, d));
        }
    }
}

} // verus!
