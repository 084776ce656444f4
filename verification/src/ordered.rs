//! Maps ordered by hashed keys and by trie paths.
//!
//! The entries live in a [`BTreeMap`] whose keys are tuples of integers: a hash is a pair of
//! halves, a path a left-aligned hash with its length. The order of the tuples is the order of
//! what they stand for.

use crate::bytes::{lemma_lex_irreflexive, lex_lt};
use crate::nibbles::{
    is_path, lemma_padded_order, lemma_unpacked_order, lemma_unpacked_padded, packed, padded,
    Nibbles,
};
use crate::primitives::{
    halves_of, lemma_halves_determine, lemma_halves_order, lemma_same_array, B256,
};
use std::collections::BTreeMap;
use vstd::laws_cmp::obeys_cmp;
use vstd::prelude::*;
use vstd::std_specs::cmp::OrdSpec;
use vstd::std_specs::iter::IteratorSpec;

verus! {

broadcast use {vstd::std_specs::btree::group_btree_axioms, vstd::laws_cmp::group_laws_cmp};

/// The integers that a key is ordered by.
pub type Ints = ((u128, u128), ((u128, u128), u8));

/// A key of an [`OrderedMap`], ordered by integers.
pub trait OrderedKey: Sized {
    /// What the key stands for.
    type Model;

    /// What this key stands for.
    spec fn model(&self) -> Self::Model;

    /// Whether some key stands for `m`.
    spec fn valid(m: Self::Model) -> bool;

    /// The integers of a key that stands for `m`.
    spec fn ints(m: Self::Model) -> Ints;

    /// The order of what the keys stand for.
    spec fn before(a: Self::Model, b: Self::Model) -> bool;

    /// The integers of this key.
    fn to_ints(&self) -> (r: Ints)
        ensures
            Self::valid(self.model()),
            r == Self::ints(self.model()),
    ;

    /// The key with the given integers.
    fn from_ints(ints: Ints) -> (r: Self)
        requires
            exists|m: Self::Model| Self::valid(m) && #[trigger] Self::ints(m) == ints,
        ensures
            Self::valid(r.model()),
            Self::ints(r.model()) == ints,
    ;

    /// Keys with the same integers stand for the same.
    proof fn lemma_injective(a: Self::Model, b: Self::Model)
        requires
            Self::valid(a),
            Self::valid(b),
            Self::ints(a) == Self::ints(b),
        ensures
            a == b,
    ;

    /// The order of the integers is the order of the keys.
    proof fn lemma_order(a: Self::Model, b: Self::Model)
        requires
            Self::valid(a),
            Self::valid(b),
            Self::ints(a).cmp_spec(&Self::ints(b)) is Less,
        ensures
            Self::before(a, b),
    ;

    /// No key comes before itself.
    proof fn lemma_irreflexive(a: Self::Model)
        ensures
            !Self::before(a, a),
    ;
}

/// What the keys stand for.
pub open spec fn models<K: OrderedKey>(keys: Seq<K>) -> Seq<K::Model> {
    Seq::new(keys.len(), |i: int| keys[i].model())
}

/// Whether `order` lists the keys of `map` once each, in their order.
pub open spec fn lists_keys<K: OrderedKey, V>(order: Seq<K::Model>, map: Map<K::Model, V>) -> bool {
    &&& forall|i: int| 0 <= i < order.len() ==> #[trigger] map.contains_key(order[i])
    &&& forall|m: K::Model| #[trigger] map.contains_key(m) ==> order.contains(m)
    &&& forall|i: int, j: int| 0 <= i < j < order.len() ==> #[trigger] K::before(order[i], order[j])
}

impl OrderedKey for B256 {
    type Model = B256;

    open spec fn model(&self) -> B256 {
        *self
    }

    open spec fn valid(m: B256) -> bool {
        true
    }

    open spec fn ints(m: B256) -> Ints {
        (m.halves(), ((0, 0), 0))
    }

    open spec fn before(a: B256, b: B256) -> bool {
        a.before(b)
    }

    fn to_ints(&self) -> (r: Ints) {
        (self.to_halves(), ((0u128, 0u128), 0u8))
    }

    fn from_ints(ints: Ints) -> (r: Self) {
        B256::from_halves(ints.0)
    }

    proof fn lemma_injective(a: B256, b: B256) {
        lemma_halves_determine(a.bytes(), b.bytes());
        lemma_same_array(a.0, b.0);
    }

    proof fn lemma_order(a: B256, b: B256) {
        lemma_halves_order(a.bytes(), b.bytes());
    }

    proof fn lemma_irreflexive(a: B256) {
        lemma_lex_irreflexive(a.bytes());
    }
}

impl OrderedKey for Nibbles {
    type Model = Seq<u8>;

    open spec fn model(&self) -> Seq<u8> {
        self@
    }

    open spec fn valid(m: Seq<u8>) -> bool {
        is_path(m)
    }

    open spec fn ints(m: Seq<u8>) -> Ints {
        ((0, 0), (halves_of(packed(m, 32)), m.len() as u8))
    }

    open spec fn before(a: Seq<u8>, b: Seq<u8>) -> bool {
        lex_lt(a, b)
    }

    fn to_ints(&self) -> (r: Ints) {
        self.check();
        let halves = self.pack_padded().to_halves();
        ((0u128, 0u128), (halves, self.len() as u8))
    }

    fn from_ints(ints: Ints) -> (r: Self) {
        let ghost m = choose|m: Seq<u8>| is_path(m) && #[trigger] Self::ints(m) == ints;
        let word = B256::from_halves(ints.1.0);
        let all = Nibbles::unpack(&word);
        let (head, _) = all.as_slice().split_at(ints.1.1 as usize);
        proof {
            lemma_halves_determine(word.bytes(), packed(m, 32));
            lemma_unpacked_padded(m);
            assert(head@ =~= m);
        }
        Nibbles::from_nibbles(head)
    }

    proof fn lemma_injective(a: Seq<u8>, b: Seq<u8>) {
        lemma_halves_determine(packed(a, 32), packed(b, 32));
        lemma_unpacked_padded(a);
        lemma_unpacked_padded(b);
        assert forall|j: int| 0 <= j < a.len() implies a[j] == b[j] by {
            assert(padded(a)[j] == padded(b)[j]);
        }
        assert(a =~= b);
    }

    proof fn lemma_order(a: Seq<u8>, b: Seq<u8>) {
        lemma_halves_order(packed(a, 32), packed(b, 32));
        lemma_unpacked_order(packed(a, 32), packed(b, 32));
        lemma_unpacked_padded(a);
        lemma_unpacked_padded(b);
        if halves_of(packed(a, 32)) == halves_of(packed(b, 32)) {
            lemma_halves_determine(packed(a, 32), packed(b, 32));
        }
        lemma_padded_order(a, b);
    }

    proof fn lemma_irreflexive(a: Seq<u8>) {
        lemma_lex_irreflexive(a);
    }
}

/// A path in the storage trie of an account.
#[derive(Debug, PartialEq, Eq)]
pub struct StoragePath {
    /// The account.
    pub hashed_address: B256,
    /// The path.
    pub path: Nibbles,
}

impl OrderedKey for StoragePath {
    type Model = (B256, Seq<u8>);

    open spec fn model(&self) -> (B256, Seq<u8>) {
        (self.hashed_address, self.path@)
    }

    open spec fn valid(m: (B256, Seq<u8>)) -> bool {
        is_path(m.1)
    }

    open spec fn ints(m: (B256, Seq<u8>)) -> Ints {
        (m.0.halves(), <Nibbles as OrderedKey>::ints(m.1).1)
    }

    open spec fn before(a: (B256, Seq<u8>), b: (B256, Seq<u8>)) -> bool {
        a.0.before(b.0) || (a.0 == b.0 && lex_lt(a.1, b.1))
    }

    fn to_ints(&self) -> (r: Ints) {
        (self.hashed_address.to_halves(), self.path.to_ints().1)
    }

    fn from_ints(ints: Ints) -> (r: Self) {
        proof {
            let m = choose|m: (B256, Seq<u8>)|
                Self::valid(m) && #[trigger] Self::ints(m) == ints;
            assert(<Nibbles as OrderedKey>::ints(m.1) == ((0u128, 0u128), ints.1));
        }
        StoragePath {
            hashed_address: B256::from_halves(ints.0),
            path: <Nibbles as OrderedKey>::from_ints(((0u128, 0u128), ints.1)),
        }
    }

    proof fn lemma_injective(a: (B256, Seq<u8>), b: (B256, Seq<u8>)) {
        <B256 as OrderedKey>::lemma_injective(a.0, b.0);
        <Nibbles as OrderedKey>::lemma_injective(a.1, b.1);
    }

    proof fn lemma_order(a: (B256, Seq<u8>), b: (B256, Seq<u8>)) {
        lemma_halves_order(a.0.bytes(), b.0.bytes());
        if a.0.halves() == b.0.halves() {
            <B256 as OrderedKey>::lemma_injective(a.0, b.0);
            <Nibbles as OrderedKey>::lemma_order(a.1, b.1);
        }
    }

    proof fn lemma_irreflexive(a: (B256, Seq<u8>)) {
        lemma_lex_irreflexive(a.0.bytes());
        lemma_lex_irreflexive(a.1);
    }
}

/// A map ordered by its keys.
#[derive(Debug, PartialEq, Eq)]
pub struct OrderedMap<K: OrderedKey, V> {
    map: BTreeMap<Ints, V>,
    keys: core::marker::PhantomData<K>,
}

impl<K: OrderedKey, V> View for OrderedMap<K, V> {
    type V = Map<K::Model, V>;

    closed spec fn view(&self) -> Map<K::Model, V> {
        Map::new(
            |m: K::Model| K::valid(m) && self.map@.contains_key(K::ints(m)),
            |m: K::Model| self.map@[K::ints(m)],
        )
    }
}

proof fn lemma_ints_obey_order()
    ensures
        obeys_cmp::<Ints>(),
{
    assert(obeys_cmp::<u128>());
    assert(obeys_cmp::<u8>());
    assert(obeys_cmp::<(u128, u128)>());
    assert(obeys_cmp::<((u128, u128), u8)>());
}

impl<K: OrderedKey, V> OrderedMap<K, V> {
    #[verifier::type_invariant]
    spec fn inv(self) -> bool {
        forall|i: Ints|
            #![trigger self.map@.contains_key(i)]
            self.map@.contains_key(i) ==> exists|m: K::Model|
                K::valid(m) && #[trigger] K::ints(m) == i
    }

    /// The empty map.
    pub fn new() -> (r: Self)
        ensures
            r@ == Map::<K::Model, V>::empty(),
    {
        let r = OrderedMap { map: BTreeMap::new(), keys: core::marker::PhantomData };
        assert(r@ =~= Map::<K::Model, V>::empty());
        r
    }

    /// Sets the value of a key and returns the value it had.
    pub fn insert(&mut self, key: K, value: V) -> (r: Option<V>)
        ensures
            final(self)@ == old(self)@.insert(key.model(), value),
            r == if old(self)@.contains_key(key.model()) {
                Some(old(self)@[key.model()])
            } else {
                None
            },
    {
        proof {
            use_type_invariant(&*self);
            lemma_ints_obey_order();
        }
        let ints = key.to_ints();
        let mut map: BTreeMap<Ints, V> = BTreeMap::new();
        std::mem::swap(&mut map, &mut self.map);
        let ghost before = map@;
        let r = map.insert(ints, value);
        proof {
            assert forall|i: Ints| #[trigger] map@.contains_key(i) implies exists|m: K::Model|
                K::valid(m) && #[trigger] K::ints(m) == i by {
                if i == ints {
                    assert(K::ints(key.model()) == i);
                } else {
                    assert(before.contains_key(i));
                }
            }
        }
        self.map = map;
        proof {
            assert forall|m: K::Model| K::valid(m) && #[trigger] K::ints(m) == ints implies m
                == key.model() by {
                K::lemma_injective(m, key.model());
            }
            assert(self@ =~= old(self)@.insert(key.model(), value));
        }
        r
    }

    /// Removes a key and returns the value it had.
    pub fn remove(&mut self, key: &K) -> (r: Option<V>)
        ensures
            final(self)@ == old(self)@.remove(key.model()),
            r == if old(self)@.contains_key(key.model()) {
                Some(old(self)@[key.model()])
            } else {
                None
            },
    {
        proof {
            use_type_invariant(&*self);
            lemma_ints_obey_order();
        }
        let ints = key.to_ints();
        let mut map: BTreeMap<Ints, V> = BTreeMap::new();
        std::mem::swap(&mut map, &mut self.map);
        let ghost before = map@;
        let r = map.remove(&ints);
        proof {
            assert(map@ == before.remove(ints));
            assert forall|i: Ints| #[trigger] map@.contains_key(i) implies exists|m: K::Model|
                K::valid(m) && #[trigger] K::ints(m) == i by {
                assert(before.contains_key(i));
            }
        }
        self.map = map;
        proof {
            assert forall|m: K::Model| K::valid(m) && #[trigger] K::ints(m) == ints implies m
                == key.model() by {
                K::lemma_injective(m, key.model());
            }
            assert(self@ =~= old(self)@.remove(key.model()));
        }
        r
    }

    /// The value of a key.
    pub fn get(&self, key: &K) -> (r: Option<&V>)
        ensures
            r == if self@.contains_key(key.model()) { Some(&self@[key.model()]) } else { None },
    {
        proof {
            lemma_ints_obey_order();
        }
        let ints = key.to_ints();
        self.map.get(&ints)
    }

    /// Whether the map holds a key.
    pub fn contains_key(&self, key: &K) -> (r: bool)
        ensures
            r == self@.contains_key(key.model()),
    {
        proof {
            lemma_ints_obey_order();
        }
        let ints = key.to_ints();
        self.map.contains_key(&ints)
    }

    proof fn lemma_same_size(self)
        requires
            self.inv(),
        ensures
            self@.dom().finite(),
            self@.len() == self.map@.len(),
    {
        let f = |i: Ints| choose|m: K::Model| K::valid(m) && #[trigger] K::ints(m) == i;
        let (x, y) = (self.map@.dom(), self@.dom());
        assert forall|i: Ints| x.contains(i) implies K::valid(f(i)) && K::ints(f(i)) == i by {
            assert(self.map@.contains_key(i));
        }
        assert(x.map(f) =~= y) by {
            assert forall|m: K::Model| y.contains(m) implies x.map(f).contains(m) by {
                let i = K::ints(m);
                assert(x.contains(i));
                K::lemma_injective(m, f(i));
            }
        }
        assert(vstd::relations::injective_on(f, x));
        vstd::set_lib::lemma_map_size(x, y, f);
    }

    /// The keys in their order.
    pub fn keys(&self) -> (r: Vec<K>)
        ensures
            lists_keys::<K, V>(models(r@), self@),
            r@.len() == self@.len(),
            self@.dom().finite(),
    {
        proof {
            use_type_invariant(self);
            lemma_ints_obey_order();
            self.lemma_same_size();
        }
        let mut r: Vec<K> = Vec::new();
        let ghost g = |kv: (&Ints, &V)| *kv.0;
        let entries = self.map.iter();
        let ghost all = entries.remaining();
        let ghost sorted = all.map_values(g);
        for entry in it: entries
            invariant
                obeys_cmp::<Ints>(),
                self.inv(),
                it.seq() == all,
                sorted == all.map_values(g),
                g == (|kv: (&Ints, &V)| *kv.0),
                all == vstd::std_specs::btree::spec_btree_map_iter(&self.map).remaining(),
                r@.len() == it.index(),
                forall|i: int|
                    0 <= i < r@.len() ==> K::valid((#[trigger] r@[i]).model()) && K::ints(
                        r@[i].model(),
                    ) == sorted[i],
        {
            proof {
                assert(self.map@.contains_key(*all[it.index()].0));
            }
            r.push(K::from_ints(*entry.0));
        }
        proof {
            let order = models(r@);
            assert(forall|i: int| 0 <= i < r@.len() ==> #[trigger] order[i] == r@[i].model());
            assert forall|i: int| 0 <= i < order.len() implies #[trigger] self@.contains_key(
                order[i],
            ) by {
                assert(self.map@.contains_key(*all[i].0));
            }
            assert forall|m: K::Model| #[trigger] self@.contains_key(m) implies order.contains(
                m,
            ) by {
                let ints = K::ints(m);
                assert(self.map@.contains_key(ints));
                assert(all.contains((&ints, &self.map@[ints])));
                let i = choose|i: int| 0 <= i < all.len() && all[i] == (&ints, &self.map@[ints]);
                assert(sorted[i] == ints);
                K::lemma_injective(order[i], m);
                assert(order[i] == m);
            }
            assert forall|i: int, j: int| 0 <= i < j < order.len() implies #[trigger] K::before(
                order[i],
                order[j],
            ) by {
                assert(sorted[i].cmp_spec(&sorted[j]) is Less);
                K::lemma_order(order[i], order[j]);
            }
        }
        r
    }

    /// Takes over the entries of another map.
    pub fn extend(&mut self, other: Self)
        ensures
            final(self)@ == old(self)@.union_prefer_right(other@),
    {
        let ghost all = other@;
        let mut rest = other;
        let keys = rest.keys();
        let ghost order = models(keys@);
        let mut keys = keys;
        while keys.len() > 0
            invariant
                keys@.len() <= order.len(),
                models(keys@) =~= order.take(keys@.len() as int),
                lists_keys::<K, V>(order, all),
                forall|j: int|
                    0 <= j < keys@.len() ==> rest@.contains_key(#[trigger] order[j])
                        && rest@[order[j]] == all[order[j]],
                forall|m: K::Model| #[trigger]
                    self@.contains_key(m) <==> old(self)@.contains_key(m) || exists|j: int|
                        keys@.len() <= j < order.len() && #[trigger] order[j] == m,
                forall|m: K::Model| #[trigger]
                    self@.contains_key(m) ==> self@[m] == if exists|j: int|
                        keys@.len() <= j < order.len() && #[trigger] order[j] == m {
                        all[m]
                    } else {
                        old(self)@[m]
                    },
            decreases keys@.len(),
        {
            let ghost last = keys@.len() - 1;
            let ghost was = self@;
            let ghost left = keys@;
            let key = keys.pop().unwrap();
            proof {
                assert(models(left)[last] == order[last]);
                assert(key.model() == order[last]);
                assert(rest@.contains_key(order[last]));
            }
            let ghost model = key.model();
            let ghost rest_was = rest@;
            let value = rest.remove(&key).unwrap();
            self.insert(key, value);
            proof {
                assert(models(keys@) =~= order.take(last)) by {
                    assert forall|j: int| 0 <= j < last implies models(keys@)[j] == order[j] by {
                        assert(models(left)[j] == order[j]);
                    }
                }
                assert forall|j: int| 0 <= j < last implies rest@.contains_key(#[trigger] order[j])
                    && rest@[order[j]] == all[order[j]] by {
                    assert(K::before(order[j], order[last]));
                    K::lemma_irreflexive(order[last]);
                    assert(rest_was.contains_key(order[j]));
                }
                assert forall|m: K::Model| #[trigger] self@.contains_key(m) implies self@[m] == if exists|
                    j: int,
                |
                    last <= j < order.len() && #[trigger] order[j] == m {
                    all[m]
                } else {
                    old(self)@[m]
                } by {
                    if m != model {
                        assert(was.contains_key(m));
                    }
                }
            }
        }
        proof {
            assert forall|m: K::Model| all.contains_key(m) implies exists|j: int|
                0 <= j < order.len() && #[trigger] order[j] == m by {
                assert(order.contains(m));
            }
            assert forall|m: K::Model|
                (exists|j: int| 0 <= j < order.len() && #[trigger] order[j] == m) implies all.contains_key(
                m,
            ) by {
                let j = choose|j: int| 0 <= j < order.len() && #[trigger] order[j] == m;
                assert(all.contains_key(order[j]));
            }
            assert(self@ =~= old(self)@.union_prefer_right(all));
        }
    }

    /// Number of entries.
    pub fn len(&self) -> (r: usize)
        ensures
            self@.dom().finite(),
            r == self@.len(),
    {
        proof {
            use_type_invariant(self);
            lemma_ints_obey_order();
            self.lemma_same_size();
        }
        self.map.len()
    }

    /// Whether the map holds nothing.
    pub fn is_empty(&self) -> (r: bool)
        ensures
            r == (self@ == Map::<K::Model, V>::empty()),
    {
        proof {
            use_type_invariant(self);
            assert(self@ =~= Map::<K::Model, V>::empty() <==> self.map@ =~= Map::<
                Ints,
                V,
            >::empty()) by {
                if self@ =~= Map::<K::Model, V>::empty() {
                    assert forall|i: Ints| !self.map@.contains_key(i) by {
                        if self.map@.contains_key(i) {
                            let m = choose|m: K::Model| K::valid(m) && #[trigger] K::ints(m) == i;
                            assert(self@.contains_key(m));
                        }
                    }
                } else if self.map@ =~= Map::<Ints, V>::empty() {
                    assert(self@ =~= Map::<K::Model, V>::empty());
                }
            }
        }
        self.map.is_empty()
    }
}

} // verus!
