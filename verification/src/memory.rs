//! In-memory hashed state, exposed through cursors, plus a node-collecting sink.

use crate::bytes::{lemma_lex_asymmetric, lemma_lex_irreflexive, lemma_lex_transitive};
use crate::cursor::{ascending, DatabaseError, HashedCursor, HashedCursorFactory, StateView};
use crate::nibbles::Nibbles;
use crate::node::{BranchNodeCompact, BranchView};
use crate::ordered::{lists_keys, models, OrderedKey, OrderedMap, StoragePath};
use crate::partition::has_row;
use crate::primitives::{Account, B256, U256};
use crate::sink::{lemma_lists_push, lists_all, Entry, NodeSet, OnNode};
use vstd::prelude::*;

verus! {

/// Whether the rows hold the entries of the map, in key order.
pub open spec fn represents<V>(rows: Seq<(B256, V)>, map: Map<B256, V>) -> bool {
    &&& ascending(rows)
    &&& forall|i: int|
        0 <= i < rows.len() ==> map.contains_key((#[trigger] rows[i]).0) && map[rows[i].0]
            == rows[i].1
    &&& forall|k: B256| #[trigger] map.contains_key(k) ==> has_row(rows, k)
}

/// The entries of a map in key order.
fn sorted_rows<V: Copy>(map: &OrderedMap<B256, V>) -> (r: Vec<(B256, V)>)
    ensures
        represents(r@, map@),
        r@.len() == map@.len(),
        map@.dom().finite(),
{
    let keys = map.keys();
    let ghost order = models(keys@);
    let mut rows: Vec<(B256, V)> = Vec::new();
    let mut i: usize = 0;
    while i < keys.len()
        invariant
            i <= keys@.len(),
            order == models(keys@),
            lists_keys::<B256, V>(order, map@),
            rows@.len() == i,
            forall|j: int|
                0 <= j < i ==> (#[trigger] rows@[j]).0 == keys@[j] && rows@[j].1 == map@[keys@[j]],
        decreases keys@.len() - i,
    {
        let key = keys[i];
        assert(map@.contains_key(order[i as int]));
        let value = *map.get(&key).unwrap();
        rows.push((key, value));
        i = i + 1;
    }
    proof {
        assert forall|j: int| 0 <= j < rows@.len() implies map@.contains_key((#[trigger] rows@[j]).0)
            && map@[rows@[j].0] == rows@[j].1 by {
            assert(map@.contains_key(order[j]));
        }
        assert forall|k: B256| #[trigger] map@.contains_key(k) implies has_row(rows@, k) by {
            assert(order.contains(k));
            let j = choose|j: int| 0 <= j < order.len() && order[j] == k;
            assert(rows@[j].0 == k);
        }
        assert forall|a: int, b: int| 0 <= a < b < rows@.len() implies (#[trigger] rows@[a]).0.before(
            (#[trigger] rows@[b]).0,
        ) by {
            assert(<B256 as OrderedKey>::before(order[a], order[b]));
        }
    }
    rows
}

/// There is one way to list the entries of a map in key order.
pub proof fn lemma_represents_unique<V>(a: Seq<(B256, V)>, b: Seq<(B256, V)>, map: Map<B256, V>)
    requires
        represents(a, map),
        represents(b, map),
    ensures
        a == b,
    decreases a.len(),
{
    if a.len() == 0 {
        if b.len() > 0 {
            assert(map.contains_key(b[0].0));
        }
        assert(a =~= b);
    } else {
        let last = a.len() - 1;
        let top = a[last].0;
        assert(map.contains_key(top));
        assert(has_row(b, top));
        let j = choose|j: int| 0 <= j < b.len() && (#[trigger] b[j]).0 == top;
        if j < b.len() - 1 {
            let other = b[b.len() - 1].0;
            assert(b[j].0.before(b[b.len() - 1].0));
            assert(map.contains_key(other));
            let i = choose|i: int| 0 <= i < a.len() && (#[trigger] a[i]).0 == other;
            if i < last {
                assert(a[i].0.before(a[last].0));
                lemma_lex_asymmetric(top.bytes(), other.bytes());
            } else {
                lemma_lex_irreflexive(top.bytes());
            }
        }
        let (x, y) = (a.drop_last(), b.drop_last());
        let less = map.remove(top);
        lemma_without_last(a, map);
        lemma_without_last(b, map);
        lemma_represents_unique(x, y, less);
        assert(a =~= x.push(a[last]));
        assert(b =~= y.push(b[b.len() - 1]));
    }
}

/// The rows of a map are as many as its entries.
pub proof fn lemma_represents_len<V>(rows: Seq<(B256, V)>, map: Map<B256, V>)
    requires
        represents(rows, map),
    ensures
        map.dom().finite(),
        map.len() == rows.len(),
    decreases rows.len(),
{
    if rows.len() == 0 {
        assert forall|k: B256| !map.dom().contains(k) by {
            if map.contains_key(k) {
                assert(has_row(rows, k));
            }
        }
        assert(map.dom() =~= Set::empty());
    } else {
        let top = rows[rows.len() - 1].0;
        lemma_without_last(rows, map);
        lemma_represents_len(rows.drop_last(), map.remove(top));
        assert(map.contains_key(top));
        assert(map.dom() =~= map.remove(top).dom().insert(top));
    }
}

proof fn lemma_without_last<V>(rows: Seq<(B256, V)>, map: Map<B256, V>)
    requires
        represents(rows, map),
        rows.len() > 0,
    ensures
        represents(rows.drop_last(), map.remove(rows.last().0)),
{
    let (rest, top) = (rows.drop_last(), rows.last().0);
    let less = map.remove(top);
    assert forall|i: int| 0 <= i < rest.len() implies less.contains_key((#[trigger] rest[i]).0)
        && less[rest[i].0] == rest[i].1 by {
        assert(rows[i].0.before(rows[rows.len() - 1].0));
        lemma_lex_irreflexive(top.bytes());
        assert(map.contains_key(rows[i].0));
    }
    assert forall|k: B256| #[trigger] less.contains_key(k) implies has_row(rest, k) by {
        assert(map.contains_key(k));
        let i = choose|i: int| 0 <= i < rows.len() && (#[trigger] rows[i]).0 == k;
        assert(rest[i].0 == k);
    }
}

/// A hashed state sorted into rows.
#[derive(Debug)]
pub struct HashedPostStateSorted {
    accounts: Vec<(B256, Account)>,
    storages: OrderedMap<B256, Vec<(B256, U256)>>,
    no_slots: Vec<(B256, U256)>,
}

impl View for HashedPostStateSorted {
    type V = StateView;

    closed spec fn view(&self) -> StateView {
        StateView {
            accounts: self.accounts@,
            storages: Map::new(
                |a: B256| self.storages@.contains_key(a),
                |a: B256| self.storages@[a]@,
            ),
        }
    }
}

impl HashedPostStateSorted {
    #[verifier::type_invariant]
    spec fn inv(self) -> bool {
        &&& ascending(self.accounts@)
        &&& forall|a: B256| #[trigger]
            self.storages@.contains_key(a) ==> ascending(self.storages@[a]@)
        &&& self.no_slots@.len() == 0
    }

    /// The accounts in key order.
    pub fn account_rows(&self) -> (r: &Vec<(B256, Account)>)
        ensures
            r@ == self@.accounts,
            ascending(r@),
    {
        proof {
            use_type_invariant(self);
        }
        &self.accounts
    }

    /// The slots of an account in key order.
    pub fn slot_rows(&self, hashed_address: &B256) -> (r: &Vec<(B256, U256)>)
        ensures
            r@ == self@.slots(*hashed_address),
            ascending(r@),
    {
        proof {
            use_type_invariant(self);
        }
        match self.storages.get(hashed_address) {
            Some(rows) => rows,
            None => {
                assert(self.no_slots@ =~= Seq::empty());
                &self.no_slots
            },
        }
    }
}

/// A cursor over rows in memory.
#[derive(Debug)]
pub struct RowCursor<'a, V> {
    rows: &'a Vec<(B256, V)>,
    at: usize,
}

impl<'a, V> RowCursor<'a, V> {
    #[verifier::type_invariant]
    spec fn inv(self) -> bool {
        ascending(self.rows@) && self.at <= self.rows@.len()
    }
}

impl<'a, V: Copy> HashedCursor for RowCursor<'a, V> {
    type Value = V;

    closed spec fn rows(&self) -> Seq<(B256, V)> {
        self.rows@
    }

    closed spec fn position(&self) -> int {
        self.at as int
    }

    open spec fn fails_with(&self, e: DatabaseError) -> bool {
        false
    }

    fn seek(&mut self, key: B256) -> (r: Result<Option<(B256, V)>, DatabaseError>) {
        proof {
            use_type_invariant(&*self);
        }
        let ghost rows = self.rows@;
        let mut low: usize = 0;
        let mut high: usize = self.rows.len();
        while low < high
            invariant
                low <= high <= rows.len(),
                rows == self.rows@,
                self.rows@ == old(self).rows@,
                ascending(rows),
                forall|i: int| 0 <= i < low ==> (#[trigger] rows[i]).0.before(key),
                forall|i: int| high <= i < rows.len() ==> !(#[trigger] rows[i]).0.before(key),
            decreases high - low,
        {
            let mid: usize = low + (high - low) / 2;
            if self.rows[mid].0.is_before(&key) {
                proof {
                    assert forall|i: int| 0 <= i < mid + 1 implies (#[trigger] rows[i]).0.before(
                        key,
                    ) by {
                        if i < mid {
                            assert(rows[i].0.before(rows[mid as int].0));
                            lemma_lex_transitive(
                                rows[i].0.bytes(),
                                rows[mid as int].0.bytes(),
                                key.bytes(),
                            );
                        }
                    }
                }
                low = mid + 1;
            } else {
                proof {
                    assert forall|i: int| mid <= i < rows.len() implies !(
                    #[trigger] rows[i]).0.before(key) by {
                        if i > mid && rows[i].0.before(key) {
                            assert(rows[mid as int].0.before(rows[i].0));
                            lemma_lex_transitive(
                                rows[mid as int].0.bytes(),
                                rows[i].0.bytes(),
                                key.bytes(),
                            );
                        }
                    }
                }
                high = mid;
            }
        }
        self.at = low;
        if low < self.rows.len() {
            Ok(Some(self.rows[low]))
        } else {
            Ok(None)
        }
    }

    fn next(&mut self) -> (r: Result<Option<(B256, V)>, DatabaseError>) {
        proof {
            use_type_invariant(&*self);
        }
        let count: usize = self.rows.len();
        let next: usize = self.at + 1;
        self.at = next;
        if next < count {
            Ok(Some(self.rows[next]))
        } else {
            Ok(None)
        }
    }
}

/// Cursor factory over an in-memory state.
#[derive(Clone, Copy, Debug)]
pub struct MemoryCursorFactory<'a> {
    sorted: &'a HashedPostStateSorted,
}

impl<'a> MemoryCursorFactory<'a> {
    /// A factory over sorted rows.
    pub fn new(sorted: &'a HashedPostStateSorted) -> (r: MemoryCursorFactory<'a>)
        ensures
            r.state() == sorted@,
    {
        MemoryCursorFactory { sorted }
    }
}

impl<'a> HashedCursorFactory for MemoryCursorFactory<'a> {
    type AccountCursor = RowCursor<'a, Account>;

    type StorageCursor = RowCursor<'a, U256>;

    closed spec fn state(&self) -> StateView {
        self.sorted@
    }

    open spec fn fails_with(&self, e: DatabaseError) -> bool {
        false
    }

    fn hashed_account_cursor(&self) -> (r: Result<RowCursor<'a, Account>, DatabaseError>) {
        let rows = self.sorted.account_rows();
        let n: usize = rows.len();
        assert(n as int <= u64::MAX);
        let cursor = RowCursor { rows, at: 0 };
        assert(cursor.rows() == self.state().accounts);
        Ok(cursor)
    }

    fn hashed_storage_cursor(&self, hashed_address: B256) -> (r: Result<
        RowCursor<'a, U256>,
        DatabaseError,
    >) {
        let rows = self.sorted.slot_rows(&hashed_address);
        let cursor = RowCursor { rows, at: 0 };
        assert(cursor.rows() == self.state().slots(hashed_address));
        Ok(cursor)
    }
}

/// Hashed state held in ordered maps, sortable into rows.
#[derive(Debug)]
pub struct MemoryState {
    accounts: OrderedMap<B256, Account>,
    storages: OrderedMap<B256, OrderedMap<B256, U256>>,
    sorted: Option<HashedPostStateSorted>,
}

/// The slots of one account in a map of slots by account.
pub open spec fn slots_in(storages: Map<B256, Map<B256, U256>>, a: B256) -> Map<B256, U256> {
    if storages.contains_key(a) {
        storages[a]
    } else {
        Map::empty()
    }
}

/// The slots of all accounts, as pairs of hashed address and hashed slot.
pub open spec fn slot_pairs(storages: Map<B256, Map<B256, U256>>) -> Set<(B256, B256)> {
    Set::new(|p: (B256, B256)| slots_in(storages, p.0).contains_key(p.1))
}

/// The slots of one account as pairs.
spec fn pairs_of(a: B256, slots: Map<B256, U256>) -> Set<(B256, B256)> {
    slots.dom().map(|s: B256| (a, s))
}

proof fn lemma_pairs_of(a: B256, slots: Map<B256, U256>)
    requires
        slots.dom().finite(),
    ensures
        pairs_of(a, slots).finite(),
        pairs_of(a, slots).len() == slots.len(),
        forall|p: (B256, B256)| #[trigger]
            pairs_of(a, slots).contains(p) <==> p.0 == a && slots.contains_key(p.1),
{
    let f = |s: B256| (a, s);
    assert(vstd::relations::injective_on(f, slots.dom()));
    vstd::set_lib::lemma_map_size(slots.dom(), pairs_of(a, slots), f);
    assert forall|p: (B256, B256)| p.0 == a && slots.contains_key(
        p.1,
    ) implies #[trigger] pairs_of(a, slots).contains(p) by {
        assert(slots.dom().contains(p.1) && f(p.1) == p);
    }
}

/// The entries of a map once more.
fn copy_map<V: Copy>(map: &OrderedMap<B256, V>) -> (r: OrderedMap<B256, V>)
    ensures
        r@ == map@,
{
    let rows = sorted_rows(map);
    let mut r: OrderedMap<B256, V> = OrderedMap::new();
    let mut i: usize = 0;
    while i < rows.len()
        invariant
            i <= rows@.len(),
            represents(rows@, map@),
            forall|k: B256| #[trigger]
                r@.contains_key(k) <==> exists|j: int| 0 <= j < i && (#[trigger] rows@[j]).0 == k,
            forall|k: B256| #[trigger]
                r@.contains_key(k) ==> map@.contains_key(k) && r@[k] == map@[k],
        decreases rows@.len() - i,
    {
        let (key, value) = rows[i];
        assert(map@.contains_key(rows@[i as int].0));
        r.insert(key, value);
        i = i + 1;
    }
    proof {
        assert forall|k: B256| map@.contains_key(k) implies r@.contains_key(k) by {
            assert(has_row(rows@, k));
        }
        assert(r@ =~= map@);
    }
    r
}

/// Whether `view` holds the accounts and the slots of the maps, in key order, and an entry for
/// exactly the addresses with a slot.
pub open spec fn is_sorted_state(
    view: StateView,
    accounts: Map<B256, Account>,
    storages: Map<B256, Map<B256, U256>>,
) -> bool {
    &&& represents(view.accounts, accounts)
    &&& forall|a: B256| represents(#[trigger] view.slots(a), slots_in(storages, a))
    &&& forall|a: B256| #[trigger]
        view.storages.contains_key(a) <==> slots_in(storages, a) != Map::<B256, U256>::empty()
}

/// Whether no slot is zero.
pub open spec fn no_zero_slots(storages: Map<B256, Map<B256, U256>>) -> bool {
    forall|a: B256, slot: B256| #[trigger]
        slots_in(storages, a).contains_key(slot) ==> slots_in(storages, a)[slot].value() != 0
}

impl MemoryState {
    /// The accounts by hashed address.
    pub closed spec fn accounts(&self) -> Map<B256, Account> {
        self.accounts@
    }

    /// The slots by hashed address and hashed slot.
    pub closed spec fn storages(&self) -> Map<B256, Map<B256, U256>> {
        Map::new(|a: B256| self.storages@.contains_key(a), |a: B256| self.storages@[a]@)
    }

    #[verifier::type_invariant]
    spec fn inv(self) -> bool {
        &&& no_zero_slots(self.storages())
        &&& self.sorted matches Some(sorted) ==> is_sorted_state(
            sorted@,
            self.accounts(),
            self.storages(),
        )
    }

    /// Inserts or replaces an account.
    pub fn insert_account(&mut self, hashed_address: B256, account: Account)
        ensures
            final(self).accounts() == old(self).accounts().insert(hashed_address, account),
            final(self).storages() == old(self).storages(),
    {
        proof {
            use_type_invariant(&*self);
        }
        self.sorted = None;
        let mut accounts: OrderedMap<B256, Account> = OrderedMap::new();
        std::mem::swap(&mut accounts, &mut self.accounts);
        accounts.insert(hashed_address, account);
        self.accounts = accounts;
    }

    /// Sets a storage slot; zero removes it.
    pub fn insert_storage(&mut self, hashed_address: B256, hashed_slot: B256, value: U256)
        ensures
            final(self).accounts() == old(self).accounts(),
            final(self).storages() == old(self).storages().insert(
                hashed_address,
                if value.value() == 0 {
                    slots_in(old(self).storages(), hashed_address).remove(hashed_slot)
                } else {
                    slots_in(old(self).storages(), hashed_address).insert(hashed_slot, value)
                },
            ),
            no_zero_slots(final(self).storages()),
    {
        proof {
            use_type_invariant(&*self);
        }
        self.sorted = None;
        let mut storages: OrderedMap<B256, OrderedMap<B256, U256>> = OrderedMap::new();
        std::mem::swap(&mut storages, &mut self.storages);
        let mut slots = match storages.remove(&hashed_address) {
            Some(slots) => slots,
            None => OrderedMap::new(),
        };
        assert(slots@ == slots_in(old(self).storages(), hashed_address));
        if value.is_zero() {
            slots.remove(&hashed_slot);
        } else {
            slots.insert(hashed_slot, value);
        }
        let ghost now = slots@;
        storages.insert(hashed_address, slots);
        proof {
            let was = old(self).storages();
            let all = was.insert(hashed_address, now);
            let views = Map::new(|a: B256| storages@.contains_key(a), |a: B256| storages@[a]@);
            assert(views =~= all);
            assert forall|a: B256, slot: B256| #[trigger]
                slots_in(all, a).contains_key(slot) implies slots_in(all, a)[slot].value() != 0 by {
                if slots_in(was, a).contains_key(slot) {}
            }
        }
        self.storages = storages;
        assert(self.storages() =~= old(self).storages().insert(hashed_address, now));
    }

    /// Number of accounts.
    pub fn account_count(&self) -> (r: usize)
        ensures
            self.accounts().dom().finite(),
            r == self.accounts().len(),
    {
        self.accounts.len()
    }

    /// Total number of storage slots.
    pub fn storage_count(&self) -> (r: usize)
        requires
            slot_pairs(self.storages()).len() <= usize::MAX,
        ensures
            slot_pairs(self.storages()).finite(),
            r == slot_pairs(self.storages()).len(),
    {
        let keys = self.storages.keys();
        let ghost order = models(keys@);
        let ghost mut counted: Set<(B256, B256)> = Set::empty();
        let ghost all = slot_pairs(self.storages());
        let mut count: u128 = 0;
        let n: usize = keys.len();
        let mut i: usize = 0;
        while i < n
            invariant
                i <= n == keys@.len(),
                order == models(keys@),
                lists_keys::<B256, OrderedMap<B256, U256>>(order, self.storages@),
                all == slot_pairs(self.storages()),
                counted.finite(),
                counted.len() == count,
                count <= i * usize::MAX,
                forall|p: (B256, B256)| #[trigger]
                    counted.contains(p) <==> all.contains(p) && exists|j: int|
                        0 <= j < i && #[trigger] keys@[j] == p.0,
            decreases keys@.len() - i,
        {
            let key = keys[i];
            assert(self.storages@.contains_key(order[i as int]));
            let slots = self.storages.get(&key).unwrap();
            let len: usize = slots.len();
            let ghost before = counted;
            proof {
                let more = pairs_of(key, slots@);
                lemma_pairs_of(key, slots@);
                assert(slots_in(self.storages(), key) == slots@);
                assert forall|p: (B256, B256)| before.contains(p) implies !more.contains(p) by {
                    if more.contains(p) {
                        let j = choose|j: int| 0 <= j < i && #[trigger] keys@[j] == p.0;
                        assert(<B256 as OrderedKey>::before(order[j], order[i as int]));
                        lemma_lex_irreflexive(key.bytes());
                    }
                }
                counted = before + more;
                vstd::set_lib::lemma_set_disjoint_lens(before, more);
                assert(i * usize::MAX + usize::MAX == (i + 1) * usize::MAX) by (nonlinear_arith);
                assert((i + 1) * usize::MAX <= usize::MAX * usize::MAX) by (nonlinear_arith)
                    requires
                        i + 1 <= usize::MAX,
                ;
                assert(usize::MAX * usize::MAX <= u128::MAX) by (nonlinear_arith)
                    requires
                        usize::MAX <= 0xffff_ffff_ffff_ffff,
                ;
            }
            count = count + len as u128;
            i = i + 1;
        }
        proof {
            assert forall|p: (B256, B256)| all.contains(p) implies counted.contains(p) by {
                assert(self.storages@.contains_key(p.0));
                assert(order.contains(p.0));
                let j = choose|j: int| 0 <= j < order.len() && order[j] == p.0;
                assert(keys@[j] == p.0);
            }
            assert(counted =~= all);
        }
        count as usize
    }

    /// All accounts in key order.
    pub fn iter_accounts(&self) -> (r: Vec<(B256, Account)>)
        ensures
            represents(r@, self.accounts()),
            r@.len() == self.accounts().len(),
    {
        sorted_rows(&self.accounts)
    }

    /// Storage of one account in key order.
    pub fn iter_storage(&self, hashed_address: &B256) -> (r: Vec<(B256, U256)>)
        ensures
            represents(r@, slots_in(self.storages(), *hashed_address)),
            r@.len() == slots_in(self.storages(), *hashed_address).len(),
            forall|i: int| 0 <= i < r@.len() ==> (#[trigger] r@[i]).1.value() != 0,
    {
        proof {
            use_type_invariant(self);
        }
        let rows = match self.storages.get(hashed_address) {
            Some(slots) => sorted_rows(slots),
            None => Vec::new(),
        };
        proof {
            let slots = slots_in(self.storages(), *hashed_address);
            assert forall|i: int| 0 <= i < rows@.len() implies (#[trigger] rows@[i]).1.value()
                != 0 by {
                assert(slots.contains_key(rows@[i].0));
            }
        }
        rows
    }

    /// The state as sorted rows.
    fn sort(&self) -> (r: HashedPostStateSorted)
        ensures
            is_sorted_state(r@, self.accounts(), self.storages()),
    {
        let accounts = sorted_rows(&self.accounts);
        let mut storages: OrderedMap<B256, Vec<(B256, U256)>> = OrderedMap::new();
        let keys = self.storages.keys();
        let ghost order = models(keys@);
        let mut i: usize = 0;
        while i < keys.len()
            invariant
                i <= keys@.len(),
                order == models(keys@),
                lists_keys::<B256, OrderedMap<B256, U256>>(order, self.storages@),
                forall|a: B256| #[trigger]
                    storages@.contains_key(a) ==> self.storages@.contains_key(a) && represents(
                        storages@[a]@,
                        self.storages@[a]@,
                    ) && self.storages@[a]@ != Map::<B256, U256>::empty(),
                forall|j: int|
                    0 <= j < i ==> storages@.contains_key(#[trigger] keys@[j]) || self.storages@[
                        keys@[j]]@ == Map::<B256, U256>::empty(),
            decreases keys@.len() - i,
        {
            let key = keys[i];
            assert(self.storages@.contains_key(order[i as int]));
            let slots = self.storages.get(&key).unwrap();
            if !slots.is_empty() {
                storages.insert(key, sorted_rows(slots));
            }
            i = i + 1;
        }
        proof {
            assert forall|a: B256| #[trigger] storages@.contains_key(a) implies ascending(
                storages@[a]@,
            ) by {}
        }
        let r = HashedPostStateSorted { accounts, storages, no_slots: Vec::new() };
        proof {
            assert forall|a: B256| represents(#[trigger] r@.slots(a), slots_in(self.storages(), a)) by {
                if self.storages@.contains_key(a) && !storages@.contains_key(a) {
                    assert(order.contains(a));
                    let j = choose|j: int| 0 <= j < order.len() && order[j] == a;
                    assert(keys@[j] == a);
                }
            }
            assert forall|a: B256| #[trigger] r@.storages.contains_key(a) <==> slots_in(
                self.storages(),
                a,
            ) != Map::<B256, U256>::empty() by {
                if self.storages@.contains_key(a) && !storages@.contains_key(a) {
                    assert(order.contains(a));
                    let j = choose|j: int| 0 <= j < order.len() && order[j] == a;
                    assert(keys@[j] == a);
                }
            }
        }
        r
    }

    /// The state as sorted rows, built once and kept until the state changes.
    pub fn sorted(&mut self) -> (r: &HashedPostStateSorted)
        ensures
            is_sorted_state(r@, old(self).accounts(), old(self).storages()),
            no_zero_slots(old(self).storages()),
            final(self).accounts() == old(self).accounts(),
            final(self).storages() == old(self).storages(),
    {
        proof {
            use_type_invariant(&*self);
        }
        if self.sorted.is_none() {
            let sorted = self.sort();
            self.sorted = Some(sorted);
        }
        proof {
            use_type_invariant(&*self);
        }
        match &self.sorted {
            Some(sorted) => sorted,
            None => vstd::pervasive::unreached(),
        }
    }

    /// A cursor factory reading this state.
    pub fn cursor_factory(&mut self) -> (r: MemoryCursorFactory<'_>)
        ensures
            is_sorted_state(r.state(), old(self).accounts(), old(self).storages()),
            no_zero_slots(old(self).storages()),
            final(self).accounts() == old(self).accounts(),
            final(self).storages() == old(self).storages(),
    {
        MemoryCursorFactory::new(self.sorted())
    }

    /// A provider factory serving every partition with a cursor factory over this state.
    pub fn provider_factory(&mut self) -> (r: SharedCursorFactory<MemoryCursorFactory<'_>>)
        ensures
            is_sorted_state(r.0.state(), old(self).accounts(), old(self).storages()),
            no_zero_slots(old(self).storages()),
            final(self).accounts() == old(self).accounts(),
            final(self).storages() == old(self).storages(),
    {
        SharedCursorFactory(self.cursor_factory())
    }
}

impl Clone for MemoryState {
    fn clone(&self) -> (r: MemoryState)
        ensures
            r.accounts() == self.accounts(),
            r.storages() == self.storages(),
    {
        let mut storages: OrderedMap<B256, OrderedMap<B256, U256>> = OrderedMap::new();
        let keys = self.storages.keys();
        let ghost order = models(keys@);
        let mut i: usize = 0;
        while i < keys.len()
            invariant
                i <= keys@.len(),
                order == models(keys@),
                lists_keys::<B256, OrderedMap<B256, U256>>(order, self.storages@),
                forall|a: B256| #[trigger]
                    storages@.contains_key(a) <==> exists|j: int|
                        0 <= j < i && #[trigger] keys@[j] == a,
                forall|a: B256| #[trigger]
                    storages@.contains_key(a) ==> self.storages@.contains_key(a) && storages@[a]@
                        == self.storages@[a]@,
            decreases keys@.len() - i,
        {
            let key = keys[i];
            assert(self.storages@.contains_key(order[i as int]));
            let slots = copy_map(self.storages.get(&key).unwrap());
            storages.insert(key, slots);
            i = i + 1;
        }
        proof {
            use_type_invariant(self);
            assert forall|a: B256| self.storages@.contains_key(a) implies storages@.contains_key(
                a,
            ) by {
                assert(order.contains(a));
                let j = choose|j: int| 0 <= j < order.len() && order[j] == a;
                assert(keys@[j] == a);
            }
            let views = Map::new(|a: B256| storages@.contains_key(a), |a: B256| storages@[a]@);
            assert(views =~= self.storages());
        }
        let r = MemoryState { accounts: copy_map(&self.accounts), storages, sorted: None };
        assert(r.storages() =~= self.storages());
        r
    }
}

impl Default for MemoryState {
    fn default() -> (r: MemoryState)
        ensures
            r.accounts() == Map::<B256, Account>::empty(),
            r.storages() == Map::<B256, Map<B256, U256>>::empty(),
    {
        let r = MemoryState {
            accounts: OrderedMap::new(),
            storages: OrderedMap::new(),
            sorted: None,
        };
        assert(r.storages() =~= Map::empty());
        r
    }
}

/// Serves every partition with a clone of the same cursor factory.
///
/// This suits factories whose cursors do not contend with each other, such as those over
/// in-memory state. A factory over a single database transaction does not qualify.
#[derive(Debug)]
pub struct SharedCursorFactory<H>(pub H);

impl<H: Clone> Clone for SharedCursorFactory<H> {
    fn clone(&self) -> (r: Self)
        ensures
            cloned(self.0, r.0),
    {
        SharedCursorFactory(self.0.clone())
    }
}

impl<H: Clone> SharedCursorFactory<H> {
    /// A clone of the cursor factory.
    pub fn database_provider_ro(&self) -> (r: Result<H, DatabaseError>)
        ensures
            r matches Ok(factory) && cloned(self.0, factory),
    {
        Ok(self.0.clone())
    }
}

/// Account nodes by path, and storage nodes by hashed address and path.
pub type NodeMaps = (
    OrderedMap<Nibbles, BranchNodeCompact>,
    OrderedMap<StoragePath, BranchNodeCompact>,
);

/// The nodes of a pair of maps.
pub open spec fn node_set(
    accounts: Map<Seq<u8>, BranchNodeCompact>,
    storages: Map<(B256, Seq<u8>), BranchNodeCompact>,
) -> NodeSet {
    Map::new(
        |k: (Option<B256>, Seq<u8>)|
            match k.0 {
                None => accounts.contains_key(k.1),
                Some(a) => storages.contains_key((a, k.1)),
            },
        |k: (Option<B256>, Seq<u8>)|
            match k.0 {
                None => accounts[k.1]@,
                Some(a) => storages[(a, k.1)]@,
            },
    )
}

/// Collects nodes into ordered maps for exact comparison between runs.
pub struct MemorySink {
    accounts: OrderedMap<Nibbles, BranchNodeCompact>,
    storages: OrderedMap<StoragePath, BranchNodeCompact>,
    log: Ghost<Seq<Entry>>,
}

impl MemorySink {
    /// The nodes recorded so far.
    pub closed spec fn nodes(&self) -> NodeSet {
        node_set(self.accounts@, self.storages@)
    }

    #[verifier::type_invariant]
    spec fn inv(self) -> bool {
        lists_all(self.log@, self.nodes())
    }

    /// Consumes the sink and returns the collected nodes.
    pub fn into_maps(self) -> (r: NodeMaps)
        ensures
            node_set(r.0@, r.1@) == self.nodes(),
            lists_all(self.log(), self.nodes()),
    {
        proof {
            use_type_invariant(&self);
        }
        let MemorySink { accounts, storages, log: _ } = self;
        (accounts, storages)
    }

    /// Records a node; `account` is `None` for the state trie. No node is recorded twice.
    pub fn push(&mut self, account: Option<B256>, path: Nibbles, node: BranchNodeCompact)
        requires
            !old(self).nodes().contains_key((account, path@)),
        ensures
            final(self).nodes() == old(self).nodes().insert((account, path@), node@),
            final(self).log() == old(self).log().push((account, path@, node@)),
    {
        let ghost entry = (account, path@, node@);
        let mut taken = MemorySink::default();
        std::mem::swap(self, &mut taken);
        proof {
            use_type_invariant(&taken);
        }
        let ghost before = taken.nodes();
        let MemorySink { accounts, storages, log } = taken;
        let mut accounts = accounts;
        let mut storages = storages;
        proof {
            lemma_lists_push(log@, before, entry);
        }
        match account {
            None => {
                accounts.insert(path, node);
            },
            Some(hashed_address) => {
                storages.insert(StoragePath { hashed_address, path }, node);
            },
        }
        assert(node_set(accounts@, storages@) =~= before.insert((account, entry.1), entry.2));
        let ghost entries = log@.push(entry);
        *self = MemorySink { accounts, storages, log: Ghost(entries) };
    }
}

impl Default for MemorySink {
    fn default() -> (r: MemorySink)
        ensures
            r.nodes() == Map::<(Option<B256>, Seq<u8>), BranchView>::empty(),
            r.log() == Seq::<Entry>::empty(),
    {
        let accounts: OrderedMap<Nibbles, BranchNodeCompact> = OrderedMap::new();
        let storages: OrderedMap<StoragePath, BranchNodeCompact> = OrderedMap::new();
        assert(node_set(accounts@, storages@) =~= Map::empty());
        MemorySink { accounts, storages, log: Ghost(Seq::empty()) }
    }
}

impl OnNode for MemorySink {
    closed spec fn log(&self) -> Seq<Entry> {
        self.log@
    }

    open spec fn accepts(&self, account: Option<B256>, path: Seq<u8>) -> bool {
        !self.nodes().contains_key((account, path))
    }

    fn on_node(&mut self, account: Option<B256>, path: Nibbles, node: BranchNodeCompact) {
        self.push(account, path, node)
    }
}

} // verus!
