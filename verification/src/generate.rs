//! Whole-trie generation: partitioned by the first nibble, or serial for reference.

use crate::builder::{
    below_root, is_sum_of_parts, nodes_of, part, part_nodes, part_slots, root_of, spread, trie_node,
    under, Leaf,
};
use crate::cursor::{ascending, DatabaseError, HashedCursorFactory, StateView};
use crate::emit::rekeyed;
use crate::nibbles::{all_nibbles, starts_with, unpacked, Nibbles};
use crate::partition::{
    accepts_under, account_leaves, build_subtrie, is_left_at, is_subtrie, leaves_under,
    lemma_account_leaves, node_hash, storages_nodes, subtrie_nodes, subtrie_nodes_up_to, Subtrie,
};
use crate::primitives::B256;
use crate::rlp::{
    bits_below, branch_reference, branch_rlp, empty_root, empty_root_hash, has_bit, reference_hash,
    slots_of,
};
use crate::sink::{grows, lemma_takes_both, lemma_takes_nothing, takes, Discard, NodeSet, OnNode};
use vstd::prelude::*;

verus! {

/// Generation settings.
#[derive(Clone, Copy, Debug)]
pub struct Config {
    /// Split the account trie by first nibble and build the 16 subtries one by one. When `false`,
    /// a single builder walks everything; this is the reference path.
    pub partitioned: bool,
}

impl Default for Config {
    fn default() -> (r: Self)
        ensures
            r.partitioned,
    {
        Config { partitioned: true }
    }
}

/// Generation outcome.
#[derive(Clone, Copy, Debug, PartialEq, Eq)]
pub struct Generated {
    /// State root.
    pub root: B256,
    /// Number of account leaves processed.
    pub accounts: u64,
}

/// What a branch node holds for the subtries of the given prefixes.
pub open spec fn subtrie_slots(subtries: Seq<Subtrie>) -> Seq<Option<Seq<u8>>> {
    Seq::new(
        16,
        |n: int|
            if exists|i: int| has_nibble(subtries, i, n) {
                Some(subtries[choose|i: int| has_nibble(subtries, i, n)].root@)
            } else {
                None
            },
    )
}

/// Whether the subtrie `i` is the one at the nibble `n`.
pub open spec fn has_nibble(subtries: Seq<Subtrie>, i: int, n: int) -> bool {
    0 <= i < subtries.len() && subtries[i].prefix@[0] == n
}

/// Whether the subtries are at ascending first nibbles.
pub open spec fn at_first_nibbles(subtries: Seq<Subtrie>) -> bool {
    &&& forall|i: int|
        0 <= i < subtries.len() ==> (#[trigger] subtries[i]).prefix@.len() > 0
            && subtries[i].prefix@[0] < 16 && subtries[i].root@.len() <= 33
    &&& forall|i: int, j: int|
        0 <= i < j < subtries.len() ==> (#[trigger] subtries[i]).prefix@[0] < (
        #[trigger] subtries[j]).prefix@[0]
}

proof fn lemma_set_bit(mask: u16, n: u16, i: u16)
    by (bit_vector)
    requires
        n < 16,
        i < 16,
    ensures
        ((mask | (1u16 << n)) & (1u16 << i) != 0) == (mask & (1u16 << i) != 0 || i == n),
{
}

proof fn lemma_no_bits(i: u16)
    by (bit_vector)
    ensures
        0u16 & (1u16 << i) == 0,
{
}

/// The bits below `m` once the bit `n` is set.
proof fn lemma_count_bit(mask: u16, n: u16, m: int)
    requires
        n < 16,
        0 <= m <= 16,
        !has_bit(mask, n as int),
    ensures
        bits_below(mask | (1u16 << n), m) == bits_below(mask, m) + if m > n {
            1nat
        } else {
            0nat
        },
    decreases m,
{
    if m > 0 {
        lemma_count_bit(mask, n, m - 1);
        lemma_set_bit(mask, n, (m - 1) as u16);
    }
}

/// Without bits from `n` on, all bits are below `n`.
proof fn lemma_all_below(mask: u16, n: int, m: int)
    requires
        0 <= n <= m <= 16,
        forall|i: int| n <= i < m ==> !#[trigger] has_bit(mask, i),
    ensures
        bits_below(mask, m) == bits_below(mask, n),
    decreases m - n,
{
    if n < m {
        lemma_all_below(mask, n, m - 1);
    }
}

/// Hashes the root branch node formed by the populated first-nibble subtries. The node itself is
/// not emitted: the root node is never stored.
pub fn assemble_root(subtries: &Vec<Subtrie>) -> (r: B256)
    requires
        at_first_nibbles(subtries@),
    ensures
        r.bytes() == reference_hash(branch_reference(subtrie_slots(subtries@))),
{
    let mut state_mask: u16 = 0;
    let mut stack: Vec<Vec<u8>> = Vec::new();
    let mut i: usize = 0;
    proof {
        assert forall|n: int| 0 <= n < 16 implies !#[trigger] has_bit(0, n) by {
            lemma_no_bits(n as u16);
        }
        lemma_all_below(0, 0, 16);
    }
    while i < subtries.len()
        invariant
            i <= subtries@.len(),
            at_first_nibbles(subtries@),
            stack@.len() == i,
            bits_below(state_mask, 16) == i,
            forall|j: int| 0 <= j < i ==> (#[trigger] stack@[j])@ == subtries@[j].root@,
            forall|j: int|
                0 <= j < i ==> has_bit(state_mask, (#[trigger] subtries@[j]).prefix@[0] as int)
                    && bits_below(state_mask, subtries@[j].prefix@[0] as int) == j,
            forall|n: int|
                0 <= n < 16 && #[trigger] has_bit(state_mask, n) ==> exists|j: int|
                    j < i && has_nibble(subtries@, j, n),
        decreases subtries@.len() - i,
    {
        let nibble = subtries[i].prefix.first().unwrap();
        let bit: u16 = 1u16 << (nibble as u16);
        let ghost before = state_mask;
        state_mask = state_mask | bit;
        stack.push(subtries[i].root.clone());
        proof {
            let n = nibble as int;
            assert(subtries@[i as int].prefix@[0] == nibble);
            assert forall|m: int| n <= m < 16 implies !#[trigger] has_bit(before, m) by {
                if has_bit(before, m) {
                    let j = choose|j: int| j < i && has_nibble(subtries@, j, m);
                    assert(subtries@[j].prefix@[0] < subtries@[i as int].prefix@[0]);
                }
            }
            lemma_all_below(before, n, 16);
            lemma_count_bit(before, nibble as u16, 16);
            lemma_count_bit(before, nibble as u16, n);
            lemma_set_bit(before, nibble as u16, nibble as u16);
            assert forall|j: int| 0 <= j < i + 1 implies has_bit(
                state_mask,
                (#[trigger] subtries@[j]).prefix@[0] as int,
            ) && bits_below(state_mask, subtries@[j].prefix@[0] as int) == j by {
                if j < i {
                    let m = subtries@[j].prefix@[0];
                    assert(m < subtries@[i as int].prefix@[0]);
                    lemma_set_bit(before, nibble as u16, m as u16);
                    lemma_count_bit(before, nibble as u16, m as int);
                }
            }
            assert forall|m: int| 0 <= m < 16 && #[trigger] has_bit(state_mask, m) implies exists|
                j: int,
            | j < i + 1 && has_nibble(subtries@, j, m) by {
                lemma_set_bit(before, nibble as u16, m as u16);
                if m == n {
                    assert(has_nibble(subtries@, i as int, m));
                } else {
                    assert(has_bit(before, m));
                    let j = choose|j: int| j < i && has_nibble(subtries@, j, m);
                    assert(has_nibble(subtries@, j, m));
                }
            }
        }
        i = i + 1;
    }
    let root = branch_rlp(&stack, state_mask);
    proof {
        let children = stack@.map_values(|c: Vec<u8>| c@);
        let (a, b) = (slots_of(children, state_mask), subtrie_slots(subtries@));
        assert forall|n: int| 0 <= n < 16 implies a[n] == b[n] by {
            if has_bit(state_mask, n) {
                let j = choose|j: int| j < i && has_nibble(subtries@, j, n);
                assert(has_nibble(subtries@, j, n));
                let k = choose|k: int| has_nibble(subtries@, k, n);
                assert(has_nibble(subtries@, k, n));
                if j < k {
                    assert(subtries@[j].prefix@[0] < subtries@[k].prefix@[0]);
                } else if k < j {
                    assert(subtries@[k].prefix@[0] < subtries@[j].prefix@[0]);
                }
                assert(children[j] == subtries@[j].root@);
            } else {
                assert forall|j: int| !has_nibble(subtries@, j, n) by {
                    if has_nibble(subtries@, j, n) {
                        assert(has_bit(state_mask, subtries@[j].prefix@[0] as int));
                    }
                }
            }
        }
        assert(a =~= b);
    }
    node_hash(&root)
}

/// The leaves of the state trie.
pub open spec fn state_leaves(state: StateView) -> Seq<Leaf> {
    account_leaves(state, state.accounts)
}

/// The root of the state trie: that of a trie without leaves; where the first nibbles differ, that
/// of the branch over the parts below each nibble; else that of the one part with its nibble.
pub open spec fn state_root(state: StateView) -> Seq<u8> {
    let leaves = state_leaves(state);
    if leaves.len() == 0 {
        empty_root()
    } else if spread(leaves) {
        reference_hash(branch_reference(part_slots(leaves)))
    } else {
        reference_hash(trie_node(leaves))
    }
}

/// The stored nodes of the state trie and of all storage tries.
pub open spec fn state_nodes(state: StateView) -> NodeSet {
    Map::new(
        |k: (Option<B256>, Seq<u8>)|
            if k.0 is None {
                part_nodes(state_leaves(state)).contains_key(k.1)
            } else {
                storages_nodes(state, state.accounts, Seq::empty()).contains_key(k)
            },
        |k: (Option<B256>, Seq<u8>)|
            if k.0 is None {
                part_nodes(state_leaves(state))[k.1]
            } else {
                storages_nodes(state, state.accounts, Seq::empty())[k]
            },
    )
}

/// Whether `generated` is the outcome for the state.
pub open spec fn is_generated(state: StateView, generated: Generated) -> bool {
    generated.root.bytes() == state_root(state) && generated.accounts == state.accounts.len()
}

/// The nibble by which a node is assigned to a partition.
pub open spec fn partition_of(k: (Option<B256>, Seq<u8>)) -> u8 {
    match k.0 {
        None => k.1[0],
        Some(hashed_address) => unpacked(hashed_address.bytes())[0],
    }
}

/// The stored nodes of the partitions before `n`.
pub open spec fn nodes_before(state: StateView, n: int) -> NodeSet {
    Map::new(
        |k: (Option<B256>, Seq<u8>)| state_nodes(state).contains_key(k) && partition_of(k) < n,
        |k: (Option<B256>, Seq<u8>)| state_nodes(state)[k],
    )
}

/// What is stored of a state when a generation was left: of a serial one, part of the whole trie;
/// of a partitioned one, all of the partitions before `nibble` and part of the one at it, or all
/// partitions.
pub open spec fn nodes_up_to(
    state: StateView,
    partitioned: bool,
    nibble: int,
    m: int,
    s: int,
    n: int,
) -> NodeSet {
    if !partitioned {
        subtrie_nodes_up_to(state, Seq::empty(), m, s, n)
    } else if nibble < 16 {
        nodes_before(state, nibble).union_prefer_right(
            subtrie_nodes_up_to(state, seq![nibble as u8], m, s, n),
        )
    } else {
        state_nodes(state)
    }
}

/// A generation that was left within a partition.
proof fn lemma_left_in_partition<S: OnNode>(
    first: S,
    now: S,
    last: S,
    state: StateView,
    nibble: u8,
    m: int,
    s: int,
    n: int,
)
    requires
        nibble < 16,
        takes(first, now, nodes_before(state, nibble as int)),
        takes(now, last, subtrie_nodes_up_to(state, seq![nibble], m, s, n)),
    ensures
        takes(first, last, nodes_up_to(state, true, nibble as int, m, s, n)),
{
    let prefix = seq![nibble];
    let before = nodes_before(state, nibble as int);
    let more = subtrie_nodes_up_to(state, prefix, m, s, n);
    assert forall|k: (Option<B256>, Seq<u8>)| more.contains_key(k) implies !before.contains_key(
        k,
    ) by {
        match k.0 {
            None => {
                lemma_starts_with_nibble(k.1, nibble);
            },
            Some(a) => {
                lemma_starts_with_nibble(unpacked(a.bytes()), nibble);
            },
        }
        assert(partition_of(k) == nibble);
    }
    assert(before.dom().disjoint(more.dom()));
    assert(nibble as int as u8 == nibble);
    lemma_takes_both(
        first,
        now,
        last,
        before,
        more,
        nodes_up_to(state, true, nibble as int, m, s, n),
    );
}

proof fn lemma_starts_with_nibble(s: Seq<u8>, n: u8)
    ensures
        starts_with(s, seq![n]) <==> s.len() > 0 && s[0] == n,
{
    if s.len() > 0 {
        assert(s.take(1) =~= seq![s[0]]);
        assert(seq![n][0] == n);
        assert(seq![s[0]][0] == s[0]);
    }
}

proof fn lemma_under_nothing(leaves: Seq<Leaf>)
    ensures
        under(leaves, Seq::empty()) == leaves,
    decreases leaves.len(),
{
    if leaves.len() > 0 {
        lemma_under_nothing(leaves.drop_last());
        let (key, value) = leaves.last();
        assert(key.take(0) =~= Seq::empty());
        assert(key.skip(0) =~= key);
        assert(leaves =~= leaves.drop_last().push(leaves.last()));
    }
}

/// The stored nodes of one partition.
proof fn lemma_partition_nodes(state: StateView, n: u8)
    requires
        n < 16,
    ensures
        nodes_before(state, n + 1) =~= nodes_before(state, n as int).union_prefer_right(
            subtrie_nodes(state, seq![n]),
        ),
        nodes_before(state, n as int).dom().disjoint(subtrie_nodes(state, seq![n]).dom()),
{
    let prefix = seq![n];
    let none: Seq<u8> = Seq::empty();
    let part_set = subtrie_nodes(state, prefix);
    assert forall|k: (Option<B256>, Seq<u8>)|
        part_set.contains_key(k) == (state_nodes(state).contains_key(k) && partition_of(k) == n)
            && (part_set.contains_key(k) ==> part_set[k] == state_nodes(state)[k]) by {
        match k.0 {
            None => {
                lemma_starts_with_nibble(k.1, n);
                assert(rekeyed(None, prefix, nodes_of(leaves_under(state, prefix))).contains_key(k)
                    == part_set.contains_key(k));
            },
            Some(a) => {
                let u = unpacked(a.bytes());
                lemma_starts_with_nibble(u, n);
                assert(u.take(0) =~= none);
                assert(storages_nodes(state, state.accounts, prefix).contains_key(k)
                    == part_set.contains_key(k));
            },
        }
    }
}

/// The partitions hold all nodes.
proof fn lemma_all_partitions(state: StateView)
    requires
        ascending(state.accounts),
    ensures
        nodes_before(state, 16) =~= state_nodes(state),
        nodes_before(state, 0) =~= Map::empty(),
{
    let leaves = state_leaves(state);
    lemma_account_leaves(state, state.accounts);
    assert forall|k: (Option<B256>, Seq<u8>)| state_nodes(state).contains_key(k) implies partition_of(
        k,
    ) < 16 by {
        match k.0 {
            None => {
                if k.1[0] >= 16 {
                    lemma_no_such_part(leaves, k.1[0]);
                }
            },
            Some(a) => {
                assert(unpacked(a.bytes())[0] < 16);
            },
        }
    }
}

/// No key starts with more than a nibble.
proof fn lemma_no_such_part(leaves: Seq<Leaf>, n: u8)
    requires
        forall|i: int| 0 <= i < leaves.len() ==> all_nibbles(#[trigger] leaves[i].0),
        n >= 16,
    ensures
        part(leaves, n).len() == 0,
    decreases leaves.len(),
{
    if leaves.len() > 0 {
        let rest = leaves.drop_last();
        assert forall|i: int| 0 <= i < rest.len() implies all_nibbles(#[trigger] rest[i].0) by {
            assert(all_nibbles(leaves[i].0));
        }
        lemma_no_such_part(rest, n);
        let key = leaves.last().0;
        assert(all_nibbles(leaves[leaves.len() - 1].0));
        lemma_starts_with_nibble(key, n);
    }
}

/// The nodes of one build over all leaves.
proof fn lemma_whole_nodes(state: StateView)
    requires
        is_sum_of_parts(leaves_under(state, Seq::empty())),
    ensures
        subtrie_nodes(state, Seq::empty()) =~= state_nodes(state),
        leaves_under(state, Seq::empty()) == state_leaves(state),
{
    let none: Seq<u8> = Seq::empty();
    let leaves = state_leaves(state);
    lemma_under_nothing(leaves);
    let (whole, all) = (subtrie_nodes(state, none), state_nodes(state));
    assert forall|k: (Option<B256>, Seq<u8>)|
        #![trigger whole.dom().contains(k)]
        #![trigger all.dom().contains(k)]
        #![trigger whole[k]]
        whole.dom().contains(k) == all.dom().contains(k) && (whole.dom().contains(k) ==> whole[k]
            == all[k]) by {
        if k.0 is None {
            assert(k.1.take(0) =~= none);
            assert(k.1.skip(0) =~= k.1);
            let own = rekeyed(None, none, nodes_of(leaves));
            assert(own.contains_key(k) == whole.contains_key(k));
            assert(own.contains_key(k) == below_root(nodes_of(leaves)).contains_key(k.1));
            if leaves.len() == 0 {
                if k.1.len() > 0 {
                    assert(part(leaves, k.1[0]).len() == 0);
                }
            }
        }
    }
}

/// Number of leaves in the parts before `n`.
pub open spec fn leaves_in(leaves: Seq<Leaf>, n: int) -> nat
    decreases n,
{
    if n <= 0 {
        0
    } else {
        leaves_in(leaves, n - 1) + part(leaves, (n - 1) as u8).len()
    }
}

proof fn lemma_leaves_in(leaves: Seq<Leaf>, n: int)
    requires
        0 <= n <= 16,
        forall|i: int|
            0 <= i < leaves.len() ==> all_nibbles(#[trigger] leaves[i].0) && leaves[i].0.len() > 0,
    ensures
        leaves_in(leaves, n) <= leaves.len(),
        n == 16 ==> leaves_in(leaves, n) == leaves.len(),
    decreases leaves.len(),
{
    if leaves.len() == 0 {
        lemma_no_leaves_in(leaves, n);
    } else {
        let rest = leaves.drop_last();
        assert forall|i: int| 0 <= i < rest.len() implies all_nibbles(#[trigger] rest[i].0)
            && rest[i].0.len() > 0 by {
            assert(all_nibbles(leaves[i].0));
        }
        lemma_leaves_in(rest, n);
        lemma_one_more_in(leaves, n);
        assert(all_nibbles(leaves[leaves.len() - 1].0));
    }
}

proof fn lemma_no_leaves_in(leaves: Seq<Leaf>, n: int)
    requires
        leaves.len() == 0,
    ensures
        leaves_in(leaves, n) == 0,
    decreases n,
{
    if n > 0 {
        lemma_no_leaves_in(leaves, n - 1);
    }
}

proof fn lemma_one_more_in(leaves: Seq<Leaf>, n: int)
    requires
        0 <= n <= 16,
        leaves.len() > 0,
        leaves.last().0.len() > 0,
    ensures
        leaves_in(leaves, n) == leaves_in(leaves.drop_last(), n) + if leaves.last().0[0] < n {
            1nat
        } else {
            0nat
        },
    decreases n,
{
    if n > 0 {
        lemma_one_more_in(leaves, n - 1);
        lemma_starts_with_nibble(leaves.last().0, (n - 1) as u8);
    }
}

/// A part has a leaf exactly if a key starts with its nibble.
proof fn lemma_part_populated(leaves: Seq<Leaf>, n: u8)
    ensures
        part(leaves, n).len() > 0 <==> exists|i: int|
            0 <= i < leaves.len() && (#[trigger] leaves[i].0).len() > 0 && leaves[i].0[0] == n,
    decreases leaves.len(),
{
    if leaves.len() > 0 {
        let rest = leaves.drop_last();
        lemma_part_populated(rest, n);
        lemma_starts_with_nibble(leaves.last().0, n);
        if part(rest, n).len() > 0 {
            let i = choose|i: int|
                0 <= i < rest.len() && (#[trigger] rest[i].0).len() > 0 && rest[i].0[0] == n;
            assert(leaves[i].0 == rest[i].0);
        }
        if starts_with(leaves.last().0, seq![n]) {
            assert(leaves[leaves.len() - 1].0[0] == n);
        }
        if exists|i: int|
            0 <= i < leaves.len() && (#[trigger] leaves[i].0).len() > 0 && leaves[i].0[0] == n {
            let i = choose|i: int|
                0 <= i < leaves.len() && (#[trigger] leaves[i].0).len() > 0 && leaves[i].0[0] == n;
            if i < rest.len() {
                assert(rest[i].0 == leaves[i].0);
            }
        }
    }
}

/// Whether `subtries` are the populated parts before `n`.
spec fn are_parts(leaves: Seq<Leaf>, subtries: Seq<Subtrie>, n: int) -> bool {
    &&& at_first_nibbles(subtries)
    &&& forall|i: int|
        0 <= i < subtries.len() ==> (#[trigger] subtries[i]).prefix@[0] < n && part(
            leaves,
            subtries[i].prefix@[0],
        ).len() > 0 && subtries[i].root@ == trie_node(part(leaves, subtries[i].prefix@[0]))
    &&& forall|m: u8|
        m < n && #[trigger] part(leaves, m).len() > 0 ==> exists|i: int|
            has_nibble(subtries, i, m as int)
}

/// The subtries are what the root branch holds.
proof fn lemma_part_slots(leaves: Seq<Leaf>, subtries: Seq<Subtrie>)
    requires
        are_parts(leaves, subtries, 16),
    ensures
        subtrie_slots(subtries) == part_slots(leaves),
{
    let (a, b) = (subtrie_slots(subtries), part_slots(leaves));
    assert forall|n: int| 0 <= n < 16 implies a[n] == b[n] by {
        if part(leaves, n as u8).len() > 0 {
            let i = choose|i: int| has_nibble(subtries, i, n);
            assert(has_nibble(subtries, i, n));
            assert(subtries[i].prefix@[0] == n as u8);
        } else {
            assert forall|i: int| !has_nibble(subtries, i, n) by {
                if has_nibble(subtries, i, n) {
                    assert(subtries[i].prefix@[0] == n as u8);
                }
            }
        }
    }
    assert(a =~= b);
}

/// How many parts are populated tells whether the first nibbles differ.
proof fn lemma_spread(leaves: Seq<Leaf>, subtries: Seq<Subtrie>)
    requires
        are_parts(leaves, subtries, 16),
        forall|i: int|
            0 <= i < leaves.len() ==> all_nibbles(#[trigger] leaves[i].0) && leaves[i].0.len() > 0,
    ensures
        spread(leaves) <==> subtries.len() > 1,
        leaves.len() == 0 <==> subtries.len() == 0,
{
    assert forall|i: int| 0 <= i < leaves.len() implies exists|j: int|
        has_nibble(subtries, j, (#[trigger] leaves[i].0)[0] as int) by {
        lemma_part_populated(leaves, leaves[i].0[0]);
        assert(part(leaves, leaves[i].0[0]).len() > 0);
    }
    if subtries.len() > 0 {
        lemma_part_populated(leaves, subtries[0].prefix@[0]);
    }
    if subtries.len() > 1 {
        let (m, n) = (subtries[0].prefix@[0], subtries[1].prefix@[0]);
        assert(m < n);
        lemma_part_populated(leaves, m);
        lemma_part_populated(leaves, n);
        let i = choose|i: int|
            0 <= i < leaves.len() && (#[trigger] leaves[i].0).len() > 0 && leaves[i].0[0] == m;
        let j = choose|j: int|
            0 <= j < leaves.len() && (#[trigger] leaves[j].0).len() > 0 && leaves[j].0[0] == n;
        assert(leaves[i].0.take(1)[0] == m);
        assert(leaves[j].0.take(1)[0] == n);
        if i < j {
            assert(leaves[i].0.take(1) != leaves[j].0.take(1));
        } else {
            assert(leaves[j].0.take(1) != leaves[i].0.take(1));
        }
    }
    if spread(leaves) {
        let (i, j) = choose|i: int, j: int|
            0 <= i < j < leaves.len() && #[trigger] leaves[i].0.take(1)
                != #[trigger] leaves[j].0.take(1);
        let (a, b) = (leaves[i].0, leaves[j].0);
        assert(a[0] != b[0]) by {
            if a[0] == b[0] {
                assert(a.take(1) =~= b.take(1));
            }
        }
        let x = choose|x: int| has_nibble(subtries, x, a[0] as int);
        let y = choose|y: int| has_nibble(subtries, y, b[0] as int);
        assert(has_nibble(subtries, x, a[0] as int));
        assert(has_nibble(subtries, y, b[0] as int));
    }
}

/// Puts the 16 first-nibble subtries together: the state root and the number of accounts.
///
/// With a single populated first nibble the real root is that subtrie's root wrapped in the nibble:
/// an extension or a leaf, never a branch. Every interior node the partition emitted is identical
/// to the serial build's, so only the root hash is recomputed, cheaply, since such tries are tiny.
pub fn join_subtries<H: HashedCursorFactory>(
    factory: &H,
    subtries: &Vec<Option<Subtrie>>,
) -> (r: Result<Generated, DatabaseError>)
    requires
        ascending(factory.state().accounts),
        factory.state().accounts.len() <= u64::MAX,
        subtries@.len() == 16,
        forall|n: int|
            0 <= n < 16 ==> is_subtrie(factory.state(), seq![n as u8], #[trigger] subtries@[n]),
    ensures
        r matches Err(e) ==> factory.fails_with(e),
        r matches Ok(generated) ==> is_generated(factory.state(), generated),
{
    let ghost state = factory.state();
    let ghost leaves = state_leaves(state);
    let mut populated: Vec<Subtrie> = Vec::new();
    let mut accounts: u64 = 0;
    let mut n: usize = 0;
    proof {
        lemma_account_leaves(state, state.accounts);
    }
    while n < 16
        invariant
            n <= 16,
            state == factory.state(),
            leaves == state_leaves(state),
            leaves.len() <= u64::MAX,
            forall|i: int|
                0 <= i < leaves.len() ==> all_nibbles(#[trigger] leaves[i].0) && leaves[i].0.len()
                    > 0,
            subtries@.len() == 16,
            forall|m: int|
                0 <= m < 16 ==> is_subtrie(factory.state(), seq![m as u8], #[trigger] subtries@[m]),
            accounts == leaves_in(leaves, n as int),
            are_parts(leaves, populated@, n as int),
        decreases 16 - n,
    {
        let ghost before = populated@;
        proof {
            assert(is_subtrie(state, seq![n as u8], subtries@[n as int]));
            lemma_leaves_in(leaves, n + 1);
        }
        match &subtries[n] {
            Some(sub) => {
                accounts = accounts + sub.leaves;
                populated.push(sub.duplicate());
                proof {
                    let i = populated@.len() - 1;
                    assert(populated@[i].prefix@ == seq![n as u8]);
                    assert(has_nibble(populated@, i, n as int));
                    assert forall|m: u8|
                        m < n + 1 && #[trigger] part(leaves, m).len() > 0 implies exists|i: int|
                        has_nibble(populated@, i, m as int) by {
                        if m < n {
                            let j = choose|j: int| has_nibble(before, j, m as int);
                            assert(has_nibble(before, j, m as int));
                            assert(has_nibble(populated@, j, m as int));
                        }
                    }
                }
            },
            None => {},
        }
        n = n + 1;
    }
    proof {
        lemma_leaves_in(leaves, 16);
        lemma_spread(leaves, populated@);
        lemma_part_slots(leaves, populated@);
    }
    if populated.len() == 0 {
        return Ok(Generated { root: empty_root_hash(), accounts: 0 });
    }
    if populated.len() == 1 {
        let mut nowhere = Discard::new();
        let sub = match build_subtrie(factory, Nibbles::new(), &mut nowhere) {
            Ok(sub) => sub,
            Err(e) => {
                return Err(e);
            },
        };
        proof {
            lemma_under_nothing(leaves);
        }
        let sub = sub.unwrap();
        return Ok(Generated { root: node_hash(&sub.root), accounts });
    }
    Ok(Generated { root: assemble_root(&populated), accounts })
}

/// Builds the whole state trie from the hashed state behind `factory`, handing every stored
/// branch node to `on_node` as it completes: `(None, path, node)` for the state trie,
/// `(Some(hashed_address), path, node)` for a storage trie.
///
/// Pass a [`Discard`] to compute only the root.
pub fn generate<H: HashedCursorFactory, S: OnNode>(
    factory: &H,
    config: &Config,
    on_node: &mut S,
) -> (r: Result<Generated, DatabaseError>)
    requires
        accepts_under(*old(on_node), Seq::empty()),
    ensures
        grows(*old(on_node), *final(on_node)),
        r matches Err(e) ==> factory.fails_with(e),
        r is Err ==> exists|nibble: int, m: int, s: int, n: int|
            0 <= nibble <= 16 && is_left_at(factory.state(), m, s, n) && takes(
                *old(on_node),
                *final(on_node),
                #[trigger] nodes_up_to(factory.state(), config.partitioned, nibble, m, s, n),
            ),
        r matches Ok(generated) ==> {
            &&& is_generated(factory.state(), generated)
            &&& takes(*old(on_node), *final(on_node), state_nodes(factory.state()))
            &&& !config.partitioned ==> generated.root.bytes() == root_of(
                state_leaves(factory.state()),
            )
        },
{
    let ghost state = factory.state();
    if !config.partitioned {
        let sub = match build_subtrie(factory, Nibbles::new(), on_node) {
            Ok(sub) => sub,
            Err(e) => {
                proof {
                    let none: Seq<u8> = Seq::empty();
                    let (m, s, n) = choose|m: int, s: int, n: int|
                        is_left_at(state, m, s, n) && takes(
                            *old(on_node),
                            *on_node,
                            #[trigger] subtrie_nodes_up_to(state, none, m, s, n),
                        );
                    assert(takes(
                        *old(on_node),
                        *on_node,
                        nodes_up_to(state, false, 0, m, s, n),
                    ));
                }
                return Err(e);
            },
        };
        proof {
            lemma_whole_nodes(state);
        }
        return match sub {
            Some(sub) => Ok(Generated { root: node_hash(&sub.root), accounts: sub.leaves }),
            None => Ok(Generated { root: empty_root_hash(), accounts: 0 }),
        };
    }
    let mut subtries: Vec<Option<Subtrie>> = Vec::new();
    let mut nibble: u8 = 0;
    proof {
        lemma_takes_nothing(*on_node, nodes_before(state, 0));
    }
    while nibble < 16
        invariant
            nibble <= 16,
            config.partitioned,
            state == factory.state(),
            accepts_under(*old(on_node), Seq::empty()),
            subtries@.len() == nibble,
            forall|n: int|
                0 <= n < nibble ==> is_subtrie(state, seq![n as u8], #[trigger] subtries@[n]),
            takes(*old(on_node), *on_node, nodes_before(state, nibble as int)),
            nibble > 0 ==> ascending(state.accounts) && state.accounts.len() <= u64::MAX,
        decreases 16 - nibble,
    {
        let ghost now = *on_node;
        let nibbles = [nibble];
        let prefix = Nibbles::from_nibbles(nibbles.as_slice());
        proof {
            assert(prefix@ =~= seq![nibble]);
            lemma_accepts_partition(*old(on_node), now, state, nibble);
            lemma_partition_nodes(state, nibble);
        }
        let sub = match build_subtrie(factory, prefix, on_node) {
            Ok(sub) => sub,
            Err(e) => {
                proof {
                    let (m, s, n) = choose|m: int, s: int, n: int|
                        is_left_at(state, m, s, n) && takes(
                            now,
                            *on_node,
                            #[trigger] subtrie_nodes_up_to(state, seq![nibble], m, s, n),
                        );
                    lemma_left_in_partition(*old(on_node), now, *on_node, state, nibble, m, s, n);
                }
                return Err(e);
            },
        };
        proof {
            lemma_takes_both(
                *old(on_node),
                now,
                *on_node,
                nodes_before(state, nibble as int),
                subtrie_nodes(state, seq![nibble]),
                nodes_before(state, nibble + 1),
            );
        }
        subtries.push(sub);
        nibble = nibble + 1;
    }
    proof {
        lemma_all_partitions(state);
        assert(is_left_at(state, 0, 0, 0));
        assert(takes(*old(on_node), *on_node, nodes_up_to(state, true, 16, 0, 0, 0)));
    }
    join_subtries(factory, &subtries)
}

/// A sink that has taken the nodes of some partitions accepts those of the next.
proof fn lemma_accepts_partition<S: OnNode>(first: S, now: S, state: StateView, n: u8)
    requires
        accepts_under(first, Seq::empty()),
        takes(first, now, nodes_before(state, n as int)),
    ensures
        accepts_under(now, seq![n]),
{
    assert forall|p: Seq<u8>| p.len() > 0 && starts_with(p, seq![n]) implies #[trigger] now.accepts(
        None,
        p,
    ) by {
        lemma_starts_with_nibble(p, n);
        assert(p.take(0) =~= Seq::empty());
        assert(first.accepts(None, p));
    }
    assert forall|a: B256, p: Seq<u8>|
        p.len() > 0 && starts_with(unpacked(a.bytes()), seq![n]) implies #[trigger] now.accepts(
        Some(a),
        p,
    ) by {
        lemma_starts_with_nibble(unpacked(a.bytes()), n);
        assert(unpacked(a.bytes()).take(0) =~= Seq::empty());
        assert(first.accepts(Some(a), p));
    }
}

} // verus!
