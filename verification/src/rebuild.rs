//! A full trie rebuild that walks the hashed state serially and commits its nodes in chunks.
//!
//! This is the work the merkle stage does on a rebuild, minus the pipeline around it: clear the
//! trie tables, walk the hashed state, and persist the branch nodes in chunks as the walk hands
//! them out. The walk and the transactions are the caller's; a [`Rebuild`] says what comes next:
//! walk on from where the last chunk ended, write the updates of the walk, commit, and once the
//! walk is complete, stop.

use crate::primitives::B256;
use vstd::prelude::*;

verus! {

/// Outcome of a rebuild.
#[derive(Clone, Copy, Debug)]
pub struct Rebuilt {
    /// The state root.
    pub root: B256,
    /// Hashed entries walked.
    pub entries: usize,
    /// Trie table entries written.
    pub written: usize,
    /// Number of committed chunks.
    pub chunks: usize,
}

/// How many chunks lie between two log lines.
pub const LOG_EVERY: usize = 100;

/// What a walk hands out.
#[derive(Debug)]
pub enum WalkProgress<S, U> {
    /// The walk is not complete: where it goes on, the entries walked, and the updates so far.
    Progress(S, usize, U),
    /// The walk is complete: the root, the entries walked, and the last updates.
    Complete(B256, usize, U),
}

/// A walk that waits for its updates to be committed.
#[derive(Clone, Copy, Debug)]
struct Uncommitted {
    entries: usize,
    root: Option<B256>,
}

/// A rebuild that is under way.
#[derive(Debug)]
pub struct Rebuild<S> {
    resume: Option<S>,
    uncommitted: Option<Uncommitted>,
    entries: usize,
    written: usize,
    chunks: usize,
}

/// The content of a [`Rebuild`].
pub struct RebuildView<S> {
    /// Where the next walk goes on, the start if nowhere.
    pub resume: Option<S>,
    /// The entries and the root of a walk that waits for its updates to be committed.
    pub uncommitted: Option<(usize, Option<B256>)>,
    /// Hashed entries walked.
    pub entries: usize,
    /// Trie table entries written.
    pub written: usize,
    /// Number of committed chunks.
    pub chunks: usize,
}

impl<S> View for Rebuild<S> {
    type V = RebuildView<S>;

    closed spec fn view(&self) -> RebuildView<S> {
        RebuildView {
            resume: self.resume,
            uncommitted: match self.uncommitted {
                Some(walk) => Some((walk.entries, walk.root)),
                None => None,
            },
            entries: self.entries,
            written: self.written,
            chunks: self.chunks,
        }
    }
}

/// The updates that a walk handed out.
pub open spec fn updates_of<S, U>(progress: WalkProgress<S, U>) -> U {
    match progress {
        WalkProgress::Progress(_, _, updates) => updates,
        WalkProgress::Complete(_, _, updates) => updates,
    }
}

/// The entries that a walk went over.
pub open spec fn entries_of<S, U>(progress: WalkProgress<S, U>) -> usize {
    match progress {
        WalkProgress::Progress(_, entries, _) => entries,
        WalkProgress::Complete(_, entries, _) => entries,
    }
}

/// A rebuild after a walk.
pub open spec fn with_walk<S, U>(v: RebuildView<S>, progress: WalkProgress<S, U>) -> RebuildView<
    S,
> {
    match progress {
        WalkProgress::Progress(next, entries, _) => RebuildView {
            resume: Some(next),
            uncommitted: Some((entries, None)),
            ..v
        },
        WalkProgress::Complete(root, entries, _) => RebuildView {
            uncommitted: Some((entries, Some(root))),
            ..v
        },
    }
}

/// A rebuild after the commit of its last walk.
pub open spec fn with_commit<S>(v: RebuildView<S>, written: usize) -> RebuildView<S> {
    RebuildView {
        resume: v.resume,
        uncommitted: None,
        entries: (v.entries + (v.uncommitted->0).0) as usize,
        written: (v.written + written) as usize,
        chunks: (v.chunks + 1) as usize,
    }
}

/// What follows a committed chunk.
#[derive(Clone, Copy, Debug)]
pub struct NextStep {
    /// The totals so far, if they are to be logged.
    pub log: Option<Totals>,
    /// The outcome, once the walk is complete.
    pub done: Option<Rebuilt>,
}

/// The totals of a rebuild.
#[derive(Clone, Copy, Debug, PartialEq, Eq)]
pub struct Totals {
    /// Number of committed chunks.
    pub chunks: usize,
    /// Hashed entries walked.
    pub entries: usize,
    /// Trie table entries written.
    pub written: usize,
}

impl<S> Rebuild<S> {
    /// A rebuild before its first walk.
    pub fn new() -> (r: Rebuild<S>)
        ensures
            r@ == (RebuildView::<S> {
                resume: None,
                uncommitted: None,
                entries: 0,
                written: 0,
                chunks: 0,
            }),
    {
        Rebuild { resume: None, uncommitted: None, entries: 0, written: 0, chunks: 0 }
    }

    /// Where the next walk goes on; `None` is the start.
    pub fn next_walk(&mut self) -> (r: Option<S>)
        ensures
            r == old(self)@.resume,
            final(self)@ == (RebuildView::<S> { resume: None, ..old(self)@ }),
    {
        self.resume.take()
    }

    /// Takes what a walk handed out; returns the updates to write.
    pub fn walked<U>(&mut self, progress: WalkProgress<S, U>) -> (r: U)
        ensures
            r == updates_of(progress),
            final(self)@ == with_walk(old(self)@, progress),
            progress matches WalkProgress::Progress(next, _, _) ==> final(self)@.resume == Some(
                next,
            ),
    {
        match progress {
            WalkProgress::Progress(next, entries, updates) => {
                self.resume = Some(next);
                self.uncommitted = Some(Uncommitted { entries, root: None });
                updates
            },
            WalkProgress::Complete(root, entries, updates) => {
                self.uncommitted = Some(Uncommitted { entries, root: Some(root) });
                updates
            },
        }
    }

    /// The totals of the committed chunks.
    pub fn totals(&self) -> (r: Totals)
        ensures
            r == (Totals {
                chunks: self@.chunks,
                entries: self@.entries,
                written: self@.written,
            }),
    {
        Totals { chunks: self.chunks, entries: self.entries, written: self.written }
    }

    /// Counts the chunk of the last walk as committed, with `written` table entries.
    pub fn committed(&mut self, written: usize) -> (r: NextStep)
        requires
            old(self)@.uncommitted is Some,
            old(self)@.entries + (old(self)@.uncommitted->0).0 <= usize::MAX,
            old(self)@.written + written <= usize::MAX,
            old(self)@.chunks < usize::MAX,
        ensures
            final(self)@ == with_commit(old(self)@, written),
            final(self)@.resume == old(self)@.resume,
            final(self)@.entries == old(self)@.entries + (old(self)@.uncommitted->0).0,
            final(self)@.written == old(self)@.written + written,
            final(self)@.chunks == old(self)@.chunks + 1,
            r.log == if final(self)@.chunks % 100 == 0 {
                Some(
                    Totals {
                        chunks: final(self)@.chunks,
                        entries: final(self)@.entries,
                        written: final(self)@.written,
                    },
                )
            } else {
                None
            },
            r.done == match (old(self)@.uncommitted->0).1 {
                Some(root) => Some(
                    Rebuilt {
                        root,
                        entries: final(self)@.entries,
                        written: final(self)@.written,
                        chunks: final(self)@.chunks,
                    },
                ),
                None => None,
            },
    {
        let walk = self.uncommitted.take().unwrap();
        self.written = self.written + written;
        self.entries = self.entries + walk.entries;
        self.chunks = self.chunks + 1;
        let log = if self.chunks % LOG_EVERY == 0 {
            Some(self.totals())
        } else {
            None
        };
        let done = match walk.root {
            Some(root) => Some(
                Rebuilt {
                    root,
                    entries: self.entries,
                    written: self.written,
                    chunks: self.chunks,
                },
            ),
            None => None,
        };
        NextStep { log, done }
    }
}

/// The entries walked in all rounds: what the walks handed out, and what the commits wrote.
pub open spec fn all_entries<S, U>(rounds: Seq<(WalkProgress<S, U>, usize)>) -> nat
    decreases rounds.len(),
{
    if rounds.len() == 0 {
        0
    } else {
        all_entries(rounds.drop_last()) + entries_of(rounds.last().0) as nat
    }
}

/// The table entries written in all rounds.
pub open spec fn all_written<S, U>(rounds: Seq<(WalkProgress<S, U>, usize)>) -> nat
    decreases rounds.len(),
{
    if rounds.len() == 0 {
        0
    } else {
        all_written(rounds.drop_last()) + rounds.last().1 as nat
    }
}

/// A rebuild after rounds, each a walk from where the last one ended and its commit.
pub open spec fn after_rounds<S, U>(
    v: RebuildView<S>,
    rounds: Seq<(WalkProgress<S, U>, usize)>,
) -> RebuildView<S>
    decreases rounds.len(),
{
    if rounds.len() == 0 {
        v
    } else {
        let before = after_rounds(v, rounds.drop_last());
        let started = RebuildView { resume: None, ..before };
        with_commit(with_walk(started, rounds.last().0), rounds.last().1)
    }
}

/// A rebuild counts one chunk per round, and the entries of all rounds.
pub proof fn lemma_rounds_add_up<S, U>(
    v: RebuildView<S>,
    rounds: Seq<(WalkProgress<S, U>, usize)>,
)
    requires
        v.entries == 0,
        v.written == 0,
        v.chunks == 0,
        all_entries(rounds) <= usize::MAX,
        all_written(rounds) <= usize::MAX,
        rounds.len() <= usize::MAX,
    ensures
        after_rounds(v, rounds).entries == all_entries(rounds),
        after_rounds(v, rounds).written == all_written(rounds),
        after_rounds(v, rounds).chunks == rounds.len(),
    decreases rounds.len(),
{
    if rounds.len() > 0 {
        lemma_rounds_add_up(v, rounds.drop_last());
    }
}

/// A walk that did not end is where the next one goes on, whatever happened before; a complete one
/// leaves that as it is. Either way it waits to be committed, and is not counted before that.
pub proof fn lemma_walk_waits_for_its_commit<S, U>(v: RebuildView<S>, progress: WalkProgress<S, U>)
    ensures
        progress matches WalkProgress::Progress(next, entries, updates) ==> {
            &&& with_walk(v, progress).resume == Some(next)
            &&& with_walk(v, progress).uncommitted == Some((entries, None::<B256>))
            &&& updates_of(progress) == updates
        },
        progress matches WalkProgress::Complete(root, entries, updates) ==> {
            &&& with_walk(v, progress).resume == v.resume
            &&& with_walk(v, progress).uncommitted == Some((entries, Some(root)))
            &&& updates_of(progress) == updates
        },
        with_walk(v, progress).entries == v.entries,
        with_walk(v, progress).written == v.written,
        with_walk(v, progress).chunks == v.chunks,
{
}

/// A commit changes the counters and not where the walk goes on: it counts one chunk, the entries of
/// the walk and what was written, and nothing waits after it.
pub proof fn lemma_commit_only_counts<S>(
    v: RebuildView<S>,
    entries: usize,
    root: Option<B256>,
    written: usize,
)
    requires
        v.uncommitted == Some((entries, root)),
        v.entries + entries <= usize::MAX,
        v.written + written <= usize::MAX,
        v.chunks < usize::MAX,
    ensures
        with_commit(v, written).resume == v.resume,
        with_commit(v, written).uncommitted is None,
        with_commit(v, written).entries == v.entries + entries,
        with_commit(v, written).written == v.written + written,
        with_commit(v, written).chunks == v.chunks + 1,
{
}

/// A rebuild walks on where it stopped: after any rounds, if the last walk did not end, the next one
/// goes on where that one said; if it did end, or there was none, there is nowhere to go on but what
/// there was before the first round.
pub proof fn lemma_walks_on_where_it_stopped<S, U>(
    v: RebuildView<S>,
    rounds: Seq<(WalkProgress<S, U>, usize)>,
)
    ensures
        rounds.len() == 0 ==> after_rounds(v, rounds) == v,
        rounds.len() > 0 ==> {
            &&& rounds.last().0 matches WalkProgress::Progress(next, _, _) ==> after_rounds(
                v,
                rounds,
            ).resume == Some(next)
            &&& rounds.last().0 is Complete ==> after_rounds(v, rounds).resume is None
            &&& after_rounds(v, rounds).uncommitted is None
        },
{
}

/// A round is a walk from where the last one ended, then its commit.
pub proof fn lemma_one_more_round<S, U>(
    v: RebuildView<S>,
    rounds: Seq<(WalkProgress<S, U>, usize)>,
    progress: WalkProgress<S, U>,
    written: usize,
)
    ensures
        after_rounds(v, rounds.push((progress, written))) == with_commit(
            with_walk(RebuildView { resume: None, ..after_rounds(v, rounds) }, progress),
            written,
        ),
{
    assert(rounds.push((progress, written)).drop_last() =~= rounds);
}

/// The entries of all rounds are the sum of what the walks went over, and the written ones that of
/// what the commits wrote.
pub proof fn lemma_rounds_are_summed<S, U>(rounds: Seq<(WalkProgress<S, U>, usize)>)
    ensures
        all_entries(rounds) == rounds.fold_left(
            0int,
            |sum: int, round: (WalkProgress<S, U>, usize)|
                sum + match round.0 {
                    WalkProgress::Progress(_, entries, _) => entries,
                    WalkProgress::Complete(_, entries, _) => entries,
                },
        ),
        all_written(rounds) == rounds.fold_left(
            0int,
            |sum: int, round: (WalkProgress<S, U>, usize)| sum + round.1,
        ),
    decreases rounds.len(),
{
    if rounds.len() > 0 {
        lemma_rounds_are_summed(rounds.drop_last());
    }
}

} // verus!
