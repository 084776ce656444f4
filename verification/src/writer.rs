//! Collecting emitted nodes into chunks that are committed into the trie tables.
//!
//! Nodes arrive one by one and fill a chunk of updates. Once the chunk holds enough nodes it is
//! handed out to be committed in a write transaction of its own, the way the merkle stage commits
//! its progress.

use crate::nibbles::Nibbles;
use crate::node::{BranchNodeCompact, BranchView};
use crate::primitives::B256;
use crate::sink::{lemma_lists_nothing, lemma_lists_push, lists_all, Entry, NodeSet};
use crate::updates::TrieUpdates;
use vstd::prelude::*;

verus! {

/// The number of nodes a chunk holds before it is committed.
pub const DEFAULT_CHUNK_NODES: usize = 100_000;

/// What the writer committed.
#[derive(Clone, Copy, Debug, PartialEq, Eq)]
pub struct Written {
    /// Trie table entries written.
    pub nodes: usize,
    /// Write transactions committed.
    pub chunks: usize,
}

/// Fills chunks with nodes and counts what was committed.
pub struct ChunkWriter {
    chunk_nodes: usize,
    chunk: TrieUpdates,
    pending: usize,
    written: Written,
    log: Ghost<Seq<Entry>>,
}

/// Whether a chunk holds the listed nodes and nothing else.
pub open spec fn is_chunk(chunk: TrieUpdates, list: Seq<Entry>) -> bool {
    chunk.only_writes() && lists_all(list, chunk.nodes())
}

impl ChunkWriter {
    #[verifier::type_invariant]
    spec fn inv(self) -> bool {
        &&& 0 < self.chunk_nodes
        &&& self.pending < self.chunk_nodes
        &&& self.pending == self.log@.len() % self.chunk_nodes as nat
        &&& is_chunk(self.chunk, self.log@.skip(self.log@.len() - self.pending))
    }

    /// The number of nodes in a full chunk.
    pub closed spec fn chunk_size(&self) -> nat {
        self.chunk_nodes as nat
    }

    /// The nodes taken so far.
    pub closed spec fn taken(&self) -> Seq<Entry> {
        self.log@
    }

    /// The nodes of the chunk that is being filled.
    pub closed spec fn open_chunk(&self) -> NodeSet {
        self.chunk.nodes()
    }

    /// What was committed.
    pub closed spec fn totals(&self) -> Written {
        self.written
    }

    /// A writer without nodes that hands out a chunk every `chunk_nodes` nodes, at least one.
    pub fn new(chunk_nodes: usize) -> (r: ChunkWriter)
        ensures
            r.chunk_size() == if chunk_nodes == 0 {
                1
            } else {
                chunk_nodes as nat
            },
            r.chunk_size() > 0,
            r.taken() == Seq::<Entry>::empty(),
            r.open_chunk() == Map::<(Option<B256>, Seq<u8>), BranchView>::empty(),
            r.totals() == (Written { nodes: 0, chunks: 0 }),
    {
        let chunk_nodes: usize = if chunk_nodes == 0 {
            1
        } else {
            chunk_nodes
        };
        let chunk = TrieUpdates::default();
        let ghost log: Seq<Entry> = Seq::empty();
        proof {
            assert(log.skip(0) =~= Seq::empty());
            lemma_lists_nothing(chunk.nodes());
        }
        ChunkWriter {
            chunk_nodes,
            chunk,
            pending: 0,
            written: Written { nodes: 0, chunks: 0 },
            log: Ghost(log),
        }
    }

    /// Whether the chunk that is being filled holds a node at a place.
    pub fn holds(&self, account: &Option<B256>, path: &Nibbles) -> (r: bool)
        ensures
            r == self.open_chunk().contains_key((*account, path@)),
    {
        self.chunk.contains_node(account, path)
    }

    /// Takes a node; returns the chunk to commit once it is full. No node is taken twice for one
    /// chunk.
    pub fn push(&mut self, account: Option<B256>, path: Nibbles, node: BranchNodeCompact) -> (r:
        Option<TrieUpdates>)
        requires
            !old(self).open_chunk().contains_key((account, path@)),
        ensures
            final(self).chunk_size() == old(self).chunk_size(),
            final(self).chunk_size() > 0,
            final(self).taken() == old(self).taken().push((account, path@, node@)),
            final(self).totals() == old(self).totals(),
            r is Some <==> final(self).taken().len() % old(self).chunk_size() == 0,
            r is None ==> final(self).open_chunk() == old(self).open_chunk().insert(
                (account, path@),
                node@,
            ),
            r matches Some(chunk) ==> {
                &&& is_chunk(
                    chunk,
                    final(self).taken().skip(
                        final(self).taken().len() - old(self).chunk_size(),
                    ),
                )
                &&& final(self).open_chunk() == Map::<
                    (Option<B256>, Seq<u8>),
                    BranchView,
                >::empty()
            },
    {
        let ghost entry = (account, path@, node@);
        let mut taken = ChunkWriter::new(1);
        std::mem::swap(self, &mut taken);
        proof {
            use_type_invariant(&taken);
        }
        let ChunkWriter { chunk_nodes, chunk, pending, written, log } = taken;
        let mut chunk = chunk;
        let ghost before = log@;
        let ghost part = before.skip(before.len() - pending);
        let ghost more = before.push(entry);
        proof {
            lemma_lists_push(part, chunk.nodes(), entry);
            lemma_count(before.len(), chunk_nodes as nat, pending as nat);
            assert(more.skip(more.len() - (pending + 1)) =~= part.push(entry));
        }
        chunk.insert_node(account, path, node);
        let pending: usize = pending + 1;
        if pending >= chunk_nodes {
            let empty = TrieUpdates::default();
            proof {
                assert(more.skip(more.len() as int) =~= Seq::empty());
                lemma_lists_nothing(empty.nodes());
            }
            *self = ChunkWriter { chunk_nodes, chunk: empty, pending: 0, written, log: Ghost(more) };
            Some(chunk)
        } else {
            *self = ChunkWriter { chunk_nodes, chunk, pending, written, log: Ghost(more) };
            None
        }
    }

    /// Counts a committed chunk and the table entries it wrote.
    pub fn committed(&mut self, nodes: usize)
        requires
            old(self).totals().nodes + nodes <= usize::MAX,
            old(self).totals().chunks < usize::MAX,
        ensures
            final(self).chunk_size() == old(self).chunk_size(),
            final(self).chunk_size() > 0,
            final(self).taken() == old(self).taken(),
            final(self).open_chunk() == old(self).open_chunk(),
            final(self).totals() == (Written {
                nodes: (old(self).totals().nodes + nodes) as usize,
                chunks: (old(self).totals().chunks + 1) as usize,
            }),
    {
        proof {
            use_type_invariant(&*self);
        }
        let nodes: usize = self.written.nodes + nodes;
        let chunks: usize = self.written.chunks + 1;
        self.written = Written { nodes, chunks };
    }

    /// Hands out the last chunk, if there are nodes left.
    pub fn take_rest(&mut self) -> (r: Option<TrieUpdates>)
        ensures
            final(self).chunk_size() == old(self).chunk_size(),
            final(self).chunk_size() > 0,
            final(self).totals() == old(self).totals(),
            r is Some <==> old(self).taken().len() % old(self).chunk_size() != 0,
            r matches Some(chunk) ==> is_chunk(
                chunk,
                old(self).taken().skip(
                    old(self).taken().len() - old(self).taken().len() % old(self).chunk_size(),
                ),
            ),
            final(self).taken() == Seq::<Entry>::empty(),
            final(self).open_chunk() == Map::<(Option<B256>, Seq<u8>), BranchView>::empty(),
    {
        let mut taken = ChunkWriter::new(1);
        std::mem::swap(self, &mut taken);
        proof {
            use_type_invariant(&taken);
        }
        let ChunkWriter { chunk_nodes, chunk, pending, written, log } = taken;
        let mut fresh = ChunkWriter::new(chunk_nodes);
        proof {
            use_type_invariant(&fresh);
        }
        fresh.written = written;
        *self = fresh;
        if pending > 0 {
            Some(chunk)
        } else {
            None
        }
    }

    /// What was committed so far.
    pub fn written(&self) -> (r: Written)
        ensures
            r == self.totals(),
    {
        self.written
    }
}

proof fn lemma_count(n: nat, size: nat, pending: nat)
    requires
        size > 0,
        pending == n % size,
    ensures
        pending + 1 < size ==> (n + 1) % size == pending + 1,
        pending + 1 == size ==> (n + 1) % size == 0,
        pending <= n,
{
    vstd::arithmetic::div_mod::lemma_fundamental_div_mod(n as int, size as int);
    let q = n as int / size as int;
    assert(q >= 0 && size * q == q * size && q * size >= 0) by (nonlinear_arith)
        requires
            size > 0,
            q == n as int / size as int,
    ;
    if pending + 1 < size {
        vstd::arithmetic::div_mod::lemma_fundamental_div_mod_converse(
            (n + 1) as int,
            size as int,
            q,
            (pending + 1) as int,
        );
    } else {
        assert((q + 1) * size == q * size + size) by (nonlinear_arith);
        vstd::arithmetic::div_mod::lemma_fundamental_div_mod_converse(
            (n + 1) as int,
            size as int,
            q + 1,
            0,
        );
    }
}

/// The listed parts, one after the other.
pub open spec fn joined(parts: Seq<Seq<Entry>>) -> Seq<Entry>
    decreases parts.len(),
{
    if parts.len() == 0 {
        Seq::empty()
    } else {
        joined(parts.drop_last()) + parts.last()
    }
}

/// How many nodes the last chunk of a build of `nodes` nodes holds.
pub open spec fn last_chunk(nodes: nat, size: nat) -> nat {
    if nodes % size == 0 {
        size
    } else {
        nodes % size
    }
}

/// The chunks of a build: the full ones, as they are handed out on the way, and the rest.
pub open spec fn chunks_of(list: Seq<Entry>, size: nat) -> Seq<Seq<Entry>>
    decreases list.len(),
{
    let last = last_chunk(list.len(), size);
    if list.len() == 0 || last == 0 || last > list.len() {
        Seq::empty()
    } else {
        let before = list.len() - last;
        chunks_of(list.take(before), size).push(list.skip(before))
    }
}

/// The chunks come one after the other: the last chunk of the nodes taken is what a writer hands
/// out for them, all of its full size or the rest, and the chunks before it are those of the nodes
/// before.
pub proof fn lemma_chunks_come_in_turn(taken: Seq<Entry>, size: nat)
    requires
        size > 0,
        taken.len() > 0,
    ensures
        chunks_of(taken, size).len() > 0,
        taken.len() % size == 0 ==> chunks_of(taken, size).last() == taken.skip(
            taken.len() - size,
        ),
        taken.len() % size != 0 ==> chunks_of(taken, size).last() == taken.skip(
            taken.len() - taken.len() % size,
        ),
        chunks_of(taken, size).drop_last() == chunks_of(
            taken.take(taken.len() - last_chunk(taken.len(), size)),
            size,
        ),
{
    let (n, s) = (taken.len() as int, size as int);
    vstd::arithmetic::div_mod::lemma_fundamental_div_mod(n, s);
    let (q, r) = (n / s, n % s);
    assert(q >= 0 && (r == 0 ==> q >= 1) && (q >= 1 ==> s * q >= s) && s * q >= 0) by (
        nonlinear_arith)
        requires
            n > 0,
            s > 0,
            q == n / s,
            r == n % s,
            n == s * q + r,
    ;
    let before = chunks_of(taken.take(n - last_chunk(taken.len(), size)), size);
    assert(chunks_of(taken, size).drop_last() =~= before);
}

/// No node is lost or written twice: the chunks of a build are its nodes in their order, and all
/// but the last chunk are full.
pub proof fn lemma_chunks_are_the_build(list: Seq<Entry>, size: nat)
    requires
        size > 0,
    ensures
        joined(chunks_of(list, size)) == list,
        chunks_of(list, size).len() == chunk_count(list.len(), size),
        forall|c: int|
            0 <= c < chunks_of(list, size).len() - 1 ==> (#[trigger] chunks_of(list, size)[c]).len()
                == size,
    decreases list.len(),
{
    let n = list.len() as int;
    let s = size as int;
    vstd::arithmetic::div_mod::lemma_fundamental_div_mod(n, s);
    let (q, r) = (n / s, n % s);
    if n == 0 {
        vstd::arithmetic::div_mod::lemma_div_of0(s);
    } else {
        let last = last_chunk(n as nat, size) as int;
        assert(q >= 0 && (r == 0 ==> q >= 1) && (q >= 1 ==> s * q >= s) && s * q >= 0) by (
            nonlinear_arith)
            requires
                n > 0,
                s > 0,
                q == n / s,
                r == n % s,
                n == s * q + r,
        ;
        let before = list.take(n - last);
        lemma_chunks_are_the_build(before, size);
        let k = if r == 0 {
            q - 1
        } else {
            q
        };
        assert(n - last == k * s) by (nonlinear_arith)
            requires
                n == s * q + r,
                last == if r == 0 {
                    s
                } else {
                    r
                },
                k == if r == 0 {
                    q - 1
                } else {
                    q
                },
        ;
        vstd::arithmetic::div_mod::lemma_fundamental_div_mod_converse(n - last, s, k, 0);
        let parts = chunks_of(list, size);
        assert(parts.drop_last() =~= chunks_of(before, size));
        assert(joined(parts) =~= list);
        assert forall|c: int| 0 <= c < parts.len() - 1 implies (#[trigger] parts[c]).len()
            == size by {
            let earlier = chunks_of(before, size);
            assert(parts[c] == earlier[c]);
            if c == earlier.len() - 1 {
                assert(last_chunk(before.len(), size) == size);
            }
        }
    }
}

/// How many chunks a build of `nodes` nodes is committed in: one per full chunk, and one more for
/// the rest.
pub open spec fn chunk_count(nodes: nat, size: nat) -> nat {
    nodes / size + if nodes % size == 0 {
        0nat
    } else {
        1nat
    }
}

/// The number of chunks handed out by `push` while `nodes` nodes are taken, one after the other.
pub open spec fn full_chunks(nodes: nat, size: nat) -> nat
    decreases nodes,
{
    if nodes == 0 {
        0
    } else {
        full_chunks((nodes - 1) as nat, size) + if nodes % size == 0 {
            1nat
        } else {
            0nat
        }
    }
}

/// The chunks that are handed out on the way, and the rest, are all chunks of a build.
pub proof fn lemma_chunk_count(nodes: nat, size: nat)
    requires
        size > 0,
    ensures
        full_chunks(nodes, size) + if nodes % size == 0 {
            0nat
        } else {
            1nat
        } == chunk_count(nodes, size),
        full_chunks(nodes, size) == nodes / size,
    decreases nodes,
{
    if nodes == 0 {
        vstd::arithmetic::div_mod::lemma_div_of0(size as int);
    } else {
        let n = (nodes - 1) as nat;
        lemma_chunk_count(n, size);
        let (q, r) = (n as int / size as int, n as int % size as int);
        vstd::arithmetic::div_mod::lemma_fundamental_div_mod(n as int, size as int);
        lemma_count(n, size, r as nat);
        assert(size * q == q * size) by (nonlinear_arith);
        if r + 1 < size {
            vstd::arithmetic::div_mod::lemma_fundamental_div_mod_converse(
                nodes as int,
                size as int,
                q,
                r + 1,
            );
        } else {
            assert((q + 1) * size == q * size + size) by (nonlinear_arith);
            vstd::arithmetic::div_mod::lemma_fundamental_div_mod_converse(
                nodes as int,
                size as int,
                q + 1,
                0,
            );
        }
    }
}

} // verus!
