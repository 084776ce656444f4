//! Progress reports for a long build, from the entry counts the sink receives.

use crate::nibbles::Nibbles;
use crate::node::BranchNodeCompact;
use crate::primitives::B256;
use crate::sink::{Entry, OnNode};
use vstd::prelude::*;

verus! {

/// A point in a build that is worth a line. Times are in nanoseconds.
#[derive(Clone, Copy, Debug, PartialEq, Eq)]
pub struct Progress {
    /// Hashed entries walked so far.
    pub walked: u64,
    /// The expected number of hashed entries.
    pub total: u64,
    /// Hashed entries still to walk.
    pub remaining: u64,
    /// Time since the start.
    pub elapsed: u128,
}

/// A sink that passes nodes on to an inner sink and reports progress at most once per interval:
/// the share of the expected entries walked so far and the time since the start.
#[derive(Debug)]
pub struct ProgressSink<S> {
    inner: S,
    /// The expected number of hashed entries, from the table stats.
    total: u64,
    walked: u64,
    started: u128,
    interval: u128,
    last_log: u128,
}

/// The counters of a [`ProgressSink`]. Times are in nanoseconds.
pub struct ProgressView {
    /// The expected number of hashed entries.
    pub total: u64,
    /// Hashed entries walked so far.
    pub walked: u64,
    /// Time of the start.
    pub started: u128,
    /// Least time between two reports.
    pub interval: u128,
    /// Time of the last report, or of the start.
    pub last_log: u128,
}

/// The time from `then` to `now`, zero if the clock went back.
pub open spec fn since(then: u128, now: u128) -> int {
    if now >= then {
        now - then
    } else {
        0
    }
}

/// The counters after `entries` more were walked.
pub open spec fn advanced(p: ProgressView, entries: u64, now: u128) -> ProgressView {
    if entries == 0 {
        p
    } else {
        ProgressView {
            walked: (p.walked + entries) as u64,
            last_log: if since(p.last_log, now) < p.interval {
                p.last_log
            } else {
                now
            },
            ..p
        }
    }
}

/// The report that is due once `entries` more were walked.
pub open spec fn due(p: ProgressView, entries: u64, now: u128) -> Option<Progress> {
    if entries == 0 || since(p.last_log, now) < p.interval {
        None
    } else {
        let walked = p.walked + entries;
        Some(
            Progress {
                walked: walked as u64,
                total: p.total,
                remaining: if walked <= p.total {
                    (p.total - walked) as u64
                } else {
                    0
                },
                elapsed: since(p.started, now) as u128,
            },
        )
    }
}

impl<S> ProgressSink<S> {
    /// The counters.
    pub closed spec fn counters(&self) -> ProgressView {
        ProgressView {
            total: self.total,
            walked: self.walked,
            started: self.started,
            interval: self.interval,
            last_log: self.last_log,
        }
    }

    /// The inner sink.
    pub closed spec fn sink(&self) -> S {
        self.inner
    }

    /// Wraps `inner`, expecting `total` hashed entries and reporting at most every `interval`.
    pub fn new(inner: S, total: u64, interval: u128, now: u128) -> (r: Self)
        ensures
            r.sink() == inner,
            r.counters() == (ProgressView { total, walked: 0, started: now, interval, last_log: now }),
    {
        ProgressSink { inner, total, walked: 0, started: now, interval, last_log: now }
    }

    /// The inner sink.
    pub fn inner(&self) -> (r: &S)
        ensures
            *r == self.sink(),
    {
        &self.inner
    }

    /// Consumes the wrapper and returns the inner sink.
    pub fn into_inner(self) -> (r: S)
        ensures
            r == self.sink(),
    {
        self.inner
    }

    /// The number of hashed entries walked so far.
    pub fn walked(&self) -> (r: u64)
        ensures
            r == self.counters().walked,
    {
        self.walked
    }

    /// Counts entries that were walked by the time `now`; returns what to report, if a report is
    /// due.
    pub fn on_progress(&mut self, entries: u64, now: u128) -> (r: Option<Progress>)
        requires
            old(self).counters().walked + entries <= u64::MAX,
        ensures
            final(self).sink() == old(self).sink(),
            final(self).counters() == advanced(old(self).counters(), entries, now),
            r == due(old(self).counters(), entries, now),
            r matches Some(report) ==> {
                &&& report.total == old(self).counters().total
                &&& report.walked == old(self).counters().walked + entries
                &&& report.remaining == if report.walked <= report.total {
                    report.total - report.walked
                } else {
                    0
                }
            },
    {
        if entries == 0 {
            return None;
        }
        self.walked = self.walked + entries;
        if now.saturating_sub(self.last_log) < self.interval {
            return None;
        }
        self.last_log = now;
        Some(
            Progress {
                walked: self.walked,
                total: self.total,
                remaining: self.total.saturating_sub(self.walked),
                elapsed: now.saturating_sub(self.started),
            },
        )
    }
}

impl<S: OnNode> OnNode for ProgressSink<S> {
    open spec fn log(&self) -> Seq<Entry> {
        self.sink().log()
    }

    open spec fn accepts(&self, account: Option<B256>, path: Seq<u8>) -> bool {
        self.sink().accepts(account, path)
    }

    fn on_node(&mut self, account: Option<B256>, path: Nibbles, node: BranchNodeCompact)
        ensures
            final(self).counters() == old(self).counters(),
    {
        self.inner.on_node(account, path, node)
    }
}

/// The counters after batches of entries, each with the time it was walked by.
pub open spec fn after(p: ProgressView, batches: Seq<(u64, u128)>) -> ProgressView
    decreases batches.len(),
{
    if batches.len() == 0 {
        p
    } else {
        advanced(after(p, batches.drop_last()), batches.last().0, batches.last().1)
    }
}

/// The number of entries in all batches.
pub open spec fn all_entries(batches: Seq<(u64, u128)>) -> nat
    decreases batches.len(),
{
    if batches.len() == 0 {
        0
    } else {
        all_entries(batches.drop_last()) + batches.last().0 as nat
    }
}

/// Walked entries add up: whether or not reports were due, the number of walked entries grows by
/// that of all batches, and nothing changes the expected number, the start and the interval.
pub proof fn lemma_walked_adds_up(p: ProgressView, batches: Seq<(u64, u128)>)
    requires
        p.walked + all_entries(batches) <= u64::MAX,
    ensures
        after(p, batches).walked == p.walked + all_entries(batches),
        after(p, batches).total == p.total,
        after(p, batches).started == p.started,
        after(p, batches).interval == p.interval,
    decreases batches.len(),
{
    if batches.len() > 0 {
        lemma_walked_adds_up(p, batches.drop_last());
    }
}

/// Whether no report is due at any of the batches.
pub open spec fn silent(p: ProgressView, batches: Seq<(u64, u128)>) -> bool
    decreases batches.len(),
{
    batches.len() > 0 ==> {
        &&& silent(p, batches.drop_last())
        &&& due(after(p, batches.drop_last()), batches.last().0, batches.last().1) is None
    }
}

proof fn lemma_silence_keeps_the_time(p: ProgressView, batches: Seq<(u64, u128)>)
    requires
        silent(p, batches),
    ensures
        after(p, batches).last_log == p.last_log,
        after(p, batches).interval == p.interval,
    decreases batches.len(),
{
    if batches.len() > 0 {
        lemma_silence_keeps_the_time(p, batches.drop_last());
    }
}

/// Reports are at least the interval apart: between a report and the next one the interval passes,
/// whatever was counted in between.
pub proof fn lemma_reports_are_apart(
    p: ProgressView,
    entries: u64,
    now: u128,
    between: Seq<(u64, u128)>,
    more: u64,
    later: u128,
)
    requires
        due(p, entries, now) is Some,
        silent(advanced(p, entries, now), between),
        due(after(advanced(p, entries, now), between), more, later) is Some,
    ensures
        since(now, later) >= p.interval,
{
    lemma_silence_keeps_the_time(advanced(p, entries, now), between);
}

/// Every report adds up: it tells what was expected, the entries walked with those just counted, and
/// what is left of the expected ones, so that walked and remaining entries make the total as long as
/// no more were walked than expected, and nothing remains after that. The time is the one since the
/// start.
pub proof fn lemma_report_adds_up(p: ProgressView, entries: u64, now: u128)
    requires
        p.walked + entries <= u64::MAX,
    ensures
        due(p, entries, now) matches Some(report) ==> {
            &&& report.total == p.total
            &&& report.walked == p.walked + entries
            &&& report.walked <= report.total ==> report.walked + report.remaining == report.total
            &&& report.walked > report.total ==> report.remaining == 0
            &&& now >= p.started ==> p.started + report.elapsed == now
            &&& now < p.started ==> report.elapsed == 0
        },
{
}

/// A report is due exactly if entries were walked and the interval has passed since the last report;
/// the report is then the last one, and else the last one stays the same.
pub proof fn lemma_report_is_due(p: ProgressView, entries: u64, now: u128)
    ensures
        due(p, entries, now) is Some <==> entries > 0 && (p.interval == 0 || now - p.last_log
            >= p.interval),
        due(p, entries, now) is Some ==> advanced(p, entries, now).last_log == now,
        due(p, entries, now) is None ==> advanced(p, entries, now).last_log == p.last_log,
{
}

/// A report tells the entries of all batches so far, the one it comes with counted in, whichever of
/// the earlier ones were reported.
pub proof fn lemma_report_tells_all_batches(
    p: ProgressView,
    batches: Seq<(u64, u128)>,
    entries: u64,
    now: u128,
)
    requires
        p.walked + all_entries(batches) + entries <= u64::MAX,
    ensures
        due(after(p, batches), entries, now) matches Some(report) ==> {
            &&& report.walked == p.walked + all_entries(batches) + entries
            &&& report.total == p.total
            &&& report.remaining == if report.walked <= p.total {
                p.total - report.walked
            } else {
                0
            }
        },
{
    lemma_walked_adds_up(p, batches);
    lemma_report_adds_up(after(p, batches), entries, now);
}

/// The entries of all batches are the sum of their counts.
pub proof fn lemma_batches_are_summed(batches: Seq<(u64, u128)>)
    ensures
        all_entries(batches) == batches.fold_left(0int, |sum: int, batch: (u64, u128)| sum + batch.0),
    decreases batches.len(),
{
    if batches.len() > 0 {
        lemma_batches_are_summed(batches.drop_last());
    }
}

} // verus!
