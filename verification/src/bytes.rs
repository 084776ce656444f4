//! Byte strings: their lexicographic order and their value as big-endian numbers.

use vstd::prelude::*;

verus! {

/// Whether `a` and `b` agree on their first `k` entries and `a` comes first because of what
/// stands at `k`: either `a` ends there, or its entry is the smaller one.
pub open spec fn differ_at(a: Seq<u8>, b: Seq<u8>, k: int) -> bool {
    &&& 0 <= k <= a.len()
    &&& k < b.len()
    &&& a.take(k) == b.take(k)
    &&& k == a.len() || a[k] < b[k]
}

/// Lexicographic order: `a` comes strictly before `b`.
pub open spec fn lex_lt(a: Seq<u8>, b: Seq<u8>) -> bool {
    exists|k: int| differ_at(a, b, k)
}

/// The number whose big-endian digits in base 256 are `s`.
pub open spec fn be_value(s: Seq<u8>) -> nat
    decreases s.len(),
{
    if s.len() == 0 {
        0
    } else {
        be_value(s.drop_last()) * 256 + s.last() as nat
    }
}

/// The last `n` big-endian digits of `v` in base 256.
pub open spec fn be_bytes(v: nat, n: nat) -> Seq<u8>
    decreases n,
{
    if n == 0 {
        Seq::empty()
    } else {
        be_bytes(v / 256, (n - 1) as nat).push((v % 256) as u8)
    }
}

/// The first `n` little-endian digits of `v` in base 256.
pub open spec fn le_bytes(v: nat, n: nat) -> Seq<u8> {
    be_bytes(v, n).reverse()
}

/// `256` to the power of `n`.
pub open spec fn pow256(n: nat) -> nat
    decreases n,
{
    if n == 0 {
        1
    } else {
        256 * pow256((n - 1) as nat)
    }
}

/// `s` without its leading zero bytes.
pub open spec fn without_leading_zeros(s: Seq<u8>) -> Seq<u8>
    decreases s.len(),
{
    if s.len() > 0 && s[0] == 0 {
        without_leading_zeros(s.skip(1))
    } else {
        s
    }
}

/// No sequence comes before itself.
pub proof fn lemma_lex_irreflexive(a: Seq<u8>)
    ensures
        !lex_lt(a, a),
{
}

/// The order of bytes is transitive.
pub proof fn lemma_lex_transitive(a: Seq<u8>, b: Seq<u8>, c: Seq<u8>)
    requires
        lex_lt(a, b),
        lex_lt(b, c),
    ensures
        lex_lt(a, c),
{
    let i = choose|k: int| differ_at(a, b, k);
    let j = choose|k: int| differ_at(b, c, k);
    let k = if i < j { i } else { j };
    assert(a.take(k) =~= c.take(k)) by {
        assert forall|m: int| 0 <= m < k implies a[m] == c[m] by {
            assert(a.take(i)[m] == b.take(i)[m]);
            assert(b.take(j)[m] == c.take(j)[m]);
        }
    }
    if i < j {
        assert(b.take(j)[i] == c.take(j)[i]);
    } else if j < i {
        assert(a.take(i)[j] == b.take(i)[j]);
    }
    assert(differ_at(a, c, k));
}

/// Of two sequences at most one comes before the other.
pub proof fn lemma_lex_asymmetric(a: Seq<u8>, b: Seq<u8>)
    requires
        lex_lt(a, b),
    ensures
        !lex_lt(b, a),
        a != b,
{
    if lex_lt(b, a) {
        lemma_lex_transitive(a, b, a);
    }
}

/// Of two byte strings, one comes first or they are equal.
pub proof fn lemma_lex_total(a: Seq<u8>, b: Seq<u8>)
    ensures
        lex_lt(a, b) || lex_lt(b, a) || a == b,
    decreases a.len(),
{
    if a.len() == 0 {
        if b.len() > 0 {
            assert(a.take(0) =~= b.take(0));
            assert(differ_at(a, b, 0));
        } else {
            assert(a =~= b);
        }
    } else {
        let p = a.drop_last();
        let n = p.len() as int;
        lemma_lex_total(p, b);
        if lex_lt(p, b) {
            let k = choose|k: int| differ_at(p, b, k);
            if k < n {
                assert(a.take(k) =~= p.take(k));
                assert(differ_at(a, b, k));
            } else {
                assert(a.take(n) =~= p.take(n));
                if a[n] < b[n] {
                    assert(differ_at(a, b, n));
                } else if b[n] < a[n] {
                    assert(b.take(n) =~= a.take(n));
                    assert(differ_at(b, a, n));
                } else if b.len() == n + 1 {
                    assert(a =~= b) by {
                        assert forall|m: int| 0 <= m < n implies a[m] == b[m] by {
                            assert(p.take(n)[m] == b.take(n)[m]);
                        }
                    }
                } else {
                    assert(a.take(n + 1) =~= b.take(n + 1)) by {
                        assert forall|m: int| 0 <= m < n implies a[m] == b[m] by {
                            assert(p.take(n)[m] == b.take(n)[m]);
                        }
                    }
                    assert(differ_at(a, b, n + 1));
                }
            }
        } else if lex_lt(b, p) {
            let k = choose|k: int| differ_at(b, p, k);
            assert(a.take(k) =~= p.take(k));
            assert(differ_at(b, a, k));
        } else {
            assert(b.take(n) =~= a.take(n));
            assert(differ_at(b, a, n));
        }
    }
}

/// A common prefix does not matter to the order.
pub proof fn lemma_lex_skip(a: Seq<u8>, b: Seq<u8>, n: int)
    requires
        0 <= n <= a.len(),
        n <= b.len(),
        a.take(n) == b.take(n),
        lex_lt(a, b),
    ensures
        lex_lt(a.skip(n), b.skip(n)),
{
    let k = choose|k: int| differ_at(a, b, k);
    if k < n {
        assert(a[k] == a.take(n)[k]);
        assert(b[k] == b.take(n)[k]);
    }
    assert(a.skip(n).take(k - n) =~= b.skip(n).take(k - n)) by {
        assert forall|m: int| 0 <= m < k - n implies a.skip(n)[m] == b.skip(n)[m] by {
            assert(a.take(k)[m + n] == b.take(k)[m + n]);
        }
    }
    assert(differ_at(a.skip(n), b.skip(n), k - n));
}

/// A number of `n` bytes is below 256 to the power of `n`.
pub proof fn lemma_be_value_bound(s: Seq<u8>)
    ensures
        be_value(s) < pow256(s.len()),
    decreases s.len(),
{
    if s.len() > 0 {
        lemma_be_value_bound(s.drop_last());
    }
}

/// Powers of 256 are positive.
pub proof fn lemma_pow256_pos(n: nat)
    ensures
        pow256(n) > 0,
    decreases n,
{
    if n > 0 {
        lemma_pow256_pos((n - 1) as nat);
    }
}

/// The bytes of a number have the length asked for.
pub proof fn lemma_be_bytes_len(v: nat, n: nat)
    ensures
        be_bytes(v, n).len() == n,
    decreases n,
{
    if n > 0 {
        lemma_be_bytes_len(v / 256, (n - 1) as nat);
    }
}

/// Writing a number down and reading it back gives the number.
pub proof fn lemma_value_of_bytes(v: nat, n: nat)
    requires
        v < pow256(n),
    ensures
        be_value(be_bytes(v, n)) == v,
    decreases n,
{
    if n > 0 {
        let m = (n - 1) as nat;
        assert(v / 256 < pow256(m)) by (nonlinear_arith)
            requires
                v < 256 * pow256(m),
        ;
        lemma_value_of_bytes(v / 256, m);
        assert(be_bytes(v, n).drop_last() =~= be_bytes(v / 256, m));
    }
}

/// Reading digits and writing their number down gives the digits.
pub proof fn lemma_bytes_of_value(s: Seq<u8>)
    ensures
        be_bytes(be_value(s), s.len()) == s,
    decreases s.len(),
{
    if s.len() == 0 {
        assert(be_bytes(be_value(s), 0) =~= s);
    } else {
        let v = be_value(s);
        let p = be_value(s.drop_last());
        let l = s.last() as nat;
        assert(v / 256 == p && v % 256 == l) by (nonlinear_arith)
            requires
                v == p * 256 + l,
                l < 256,
        ;
        lemma_bytes_of_value(s.drop_last());
        assert(be_bytes(v, s.len()) =~= s);
    }
}

/// The value of a concatenation.
pub proof fn lemma_be_value_concat(a: Seq<u8>, b: Seq<u8>)
    ensures
        be_value(a + b) == be_value(a) * pow256(b.len()) + be_value(b),
    decreases b.len(),
{
    if b.len() == 0 {
        assert(a + b =~= a);
        assert(be_value(a) * pow256(0) == be_value(a)) by (nonlinear_arith)
            requires
                pow256(0) == 1,
        ;
    } else {
        let c = b.drop_last();
        lemma_be_value_concat(a, c);
        assert((a + b).drop_last() =~= a + c);
        let x = be_value(a);
        let p = pow256(c.len());
        let y = be_value(c);
        assert((x * p + y) * 256 + b.last() as nat == x * (256 * p) + (y * 256 + b.last() as nat))
            by (nonlinear_arith);
    }
}

/// On byte strings of one length, the lexicographic order is the order of the values.
pub proof fn lemma_lex_is_value_order(a: Seq<u8>, b: Seq<u8>)
    requires
        a.len() == b.len(),
    ensures
        lex_lt(a, b) <==> be_value(a) < be_value(b),
        a == b <==> be_value(a) == be_value(b),
{
    if a == b {
        lemma_lex_irreflexive(a);
    } else {
        lemma_bytes_of_value(a);
        lemma_bytes_of_value(b);
        lemma_lex_total(a, b);
        if lex_lt(a, b) {
            lemma_lex_implies_less(a, b);
        } else {
            lemma_lex_implies_less(b, a);
        }
    }
}

proof fn lemma_lex_implies_less(a: Seq<u8>, b: Seq<u8>)
    requires
        a.len() == b.len(),
        lex_lt(a, b),
    ensures
        be_value(a) < be_value(b),
{
    let k = choose|k: int| differ_at(a, b, k);
    let h = a.take(k);
    let (ta, tb) = (a.skip(k + 1), b.skip(k + 1));
    let (da, db) = (seq![a[k]], seq![b[k]]);
    assert(a =~= h + da + ta);
    assert(b =~= h + db + tb) by {
        assert(b.take(k) == h);
    }
    lemma_be_value_concat(h + da, ta);
    lemma_be_value_concat(h + db, tb);
    lemma_be_value_concat(h, da);
    lemma_be_value_concat(h, db);
    lemma_be_value_bound(ta);
    assert(da.drop_last() =~= Seq::<u8>::empty());
    assert(db.drop_last() =~= Seq::<u8>::empty());
    assert(be_value(da) == a[k]) by {
        reveal_with_fuel(be_value, 2);
    }
    assert(be_value(db) == b[k]) by {
        reveal_with_fuel(be_value, 2);
    }
    let p = pow256(ta.len());
    let x = be_value(h + da);
    let y = be_value(h + db);
    assert(x < y);
    assert(x * p + p <= y * p) by (nonlinear_arith)
        requires
            x < y,
    ;
}

/// Whether `a` comes strictly before `b` in lexicographic order.
pub fn precedes(a: &[u8], b: &[u8]) -> (r: bool)
    ensures
        r == lex_lt(a@, b@),
{
    let mut i: usize = 0;
    while i < a.len() && i < b.len() && a[i] == b[i]
        invariant
            i <= a.len(),
            i <= b.len(),
            a@.take(i as int) == b@.take(i as int),
        decreases a.len() - i,
    {
        i = i + 1;
        assert(a@.take(i as int) =~= a@.take(i - 1).push(a@[i - 1]));
        assert(b@.take(i as int) =~= b@.take(i - 1).push(b@[i - 1]));
    }
    let r = i < b.len() && (i == a.len() || a[i] < b[i]);
    proof {
        if r {
            assert(differ_at(a@, b@, i as int));
        } else if i < a.len() {
            assert(a@.take(i as int) == b@.take(i as int));
            assert(differ_at(b@, a@, i as int));
            lemma_lex_asymmetric(b@, a@);
        } else {
            assert(a@.take(i as int) =~= a@);
            assert(b@.take(i as int) =~= b@);
            lemma_lex_irreflexive(a@);
        }
    }
    r
}

/// Whether two byte strings are equal.
pub fn same_bytes(a: &[u8], b: &[u8]) -> (r: bool)
    ensures
        r == (a@ == b@),
{
    if a.len() != b.len() {
        return false;
    }
    let mut i: usize = 0;
    while i < a.len()
        invariant
            i <= a.len(),
            a.len() == b.len(),
            forall|j: int| 0 <= j < i ==> a@[j] == b@[j],
        decreases a.len() - i,
    {
        if a[i] != b[i] {
            return false;
        }
        i = i + 1;
    }
    assert(a@ =~= b@);
    true
}

} // verus!
