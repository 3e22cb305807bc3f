//! The record/replay store: an append-only log of snapshots with their
//! elapsed session time, plus the cursor arithmetic used to scrub a
//! recorded session.
//!
//! Recording appends `(elapsed, snapshot)` pairs in elapsed order behind a
//! header naming the remote system version and the session's start time.
//! Replay retrieves the entries of an elapsed-time range `[from, to)`,
//! clamped to what was actually recorded.

use crate::metrics::{Metrics, MetricsView};
use vstd::prelude::*;

verus! {

/// The specification-level shape of a [`ReplayHeader`].
pub struct ReplayHeaderView {
    pub start_wall_time_ms: u64,
    pub system_version: Seq<char>,
}

/// What a recorded session declares about itself: when it started and
/// which remote system version produced it.
#[derive(Debug)]
pub struct ReplayHeader {
    /// Wall-clock time of the session start, in milliseconds since the
    /// epoch.
    pub start_wall_time_ms: u64,
    /// The remote runtime's version string.
    pub system_version: String,
}

impl View for ReplayHeader {
    type V = ReplayHeaderView;

    open spec fn view(&self) -> ReplayHeaderView {
        ReplayHeaderView {
            start_wall_time_ms: self.start_wall_time_ms,
            system_version: self.system_version@,
        }
    }
}

/// The specification-level shape of a [`RecordedEntry`].
pub struct RecordedEntryView {
    pub elapsed_micros: u64,
    pub metrics: MetricsView,
}

/// One recorded snapshot, stamped with its elapsed time since the start
/// of the session.
#[derive(Debug)]
pub struct RecordedEntry {
    pub elapsed_micros: u64,
    pub metrics: Metrics,
}

impl View for RecordedEntry {
    type V = RecordedEntryView;

    open spec fn view(&self) -> RecordedEntryView {
        RecordedEntryView { elapsed_micros: self.elapsed_micros, metrics: self.metrics@ }
    }
}

/// The specification-level shape of a [`ReplayStore`].
pub struct ReplayStoreView {
    pub header: ReplayHeaderView,
    pub entries: Seq<RecordedEntryView>,
}

impl ReplayStoreView {
    /// Entries are ordered by elapsed time and each snapshot is well
    /// formed.
    pub open spec fn wf(self) -> bool {
        &&& forall|i: int, j: int|
            0 <= i < j < self.entries.len() ==> (#[trigger] self.entries[i]).elapsed_micros <= (
            #[trigger] self.entries[j]).elapsed_micros
        &&& forall|i: int| 0 <= i < self.entries.len() ==> (#[trigger] self.entries[i]).metrics.wf()
    }
}

/// An ordered log of recorded snapshots behind a session header.
#[derive(Debug)]
pub struct ReplayStore {
    pub header: ReplayHeader,
    pub entries: Vec<RecordedEntry>,
}

impl View for ReplayStore {
    type V = ReplayStoreView;

    open spec fn view(&self) -> ReplayStoreView {
        ReplayStoreView {
            header: self.header@,
            entries: self.entries@.map_values(|e: RecordedEntry| e@),
        }
    }
}

impl ReplayStore {
    /// Ordered entries of well-formed snapshots.
    pub open spec fn wf(&self) -> bool {
        self@.wf()
    }

    /// An empty store for a session starting now on the given remote
    /// version.
    pub fn new(start_wall_time_ms: u64, system_version: String) -> (r: Self)
        ensures
            r@.wf(),
            r@.entries.len() == 0,
            r@.header.start_wall_time_ms == start_wall_time_ms,
            r@.header.system_version == system_version@,
    {
        let r = ReplayStore {
            header: ReplayHeader { start_wall_time_ms, system_version },
            entries: Vec::new(),
        };
        proof {
            assert(r@.entries =~= Seq::<RecordedEntryView>::empty());
        }
        r
    }

    /// How many snapshots the store holds.
    pub fn len(&self) -> (r: usize)
        ensures
            r == self@.entries.len(),
    {
        self.entries.len()
    }

    /// A reference to the entry at a position.
    pub fn entry_at(&self, i: usize) -> (r: &RecordedEntry)
        requires
            i < self@.entries.len(),
        ensures
            r@ == self@.entries[i as int],
    {
        &self.entries[i]
    }

    /// Appends one snapshot at the given elapsed time.  The log is
    /// append-only and ordered, so the elapsed time may not precede the
    /// last recorded one.
    pub fn append(&mut self, elapsed_micros: u64, metrics: Metrics)
        requires
            old(self)@.wf(),
            metrics@.wf(),
            old(self)@.entries.len() > 0 ==> old(self)@.entries.last().elapsed_micros
                <= elapsed_micros,
        ensures
            final(self)@.wf(),
            final(self)@.entries == old(self)@.entries.push(
                RecordedEntryView { elapsed_micros, metrics: metrics@ },
            ),
            final(self)@.header == old(self)@.header,
    {
        self.entries.push(RecordedEntry { elapsed_micros, metrics });
        proof {
            assert(self@.entries =~= old(self)@.entries.push(
                RecordedEntryView { elapsed_micros, metrics: metrics@ },
            ));
        }
    }

    /// The elapsed time of the last recorded snapshot, absent while the
    /// store is empty.  Scrub-forward requests are clamped against it.
    pub fn last_elapsed(&self) -> (r: Option<u64>)
        ensures
            match r {
                Some(e) => self@.entries.len() > 0 && e == self@.entries.last().elapsed_micros,
                None => self@.entries.len() == 0,
            },
    {
        if self.entries.len() == 0 {
            None
        } else {
            Some(self.entries[self.entries.len() - 1].elapsed_micros)
        }
    }

    /// How many leading entries lie below `bound`: the position at
    /// which a range query on `bound` splits the ordered log.
    pub open spec fn split_at(es: Seq<RecordedEntryView>, bound: u64) -> int
        decreases es.len(),
    {
        if es.len() == 0 {
            0
        } else {
            Self::split_at(es.drop_last(), bound) + if es.last().elapsed_micros < bound {
                1int
            } else {
                0int
            }
        }
    }

    /// The position of the first entry at or past `bound`, searching from
    /// `start`; every entry before `start` must already lie below `bound`.
    fn first_at_or_after(&self, bound: u64, start: usize) -> (r: usize)
        requires
            self@.wf(),
            start <= self@.entries.len(),
            forall|i: int| 0 <= i < start ==> (#[trigger] self@.entries[i]).elapsed_micros < bound,
        ensures
            start <= r <= self@.entries.len(),
            forall|i: int| 0 <= i < r ==> (#[trigger] self@.entries[i]).elapsed_micros < bound,
            r < self@.entries.len() ==> self@.entries[r as int].elapsed_micros >= bound,
    {
        let n = self.entries.len();
        let mut r: usize = start;
        while r < n
            invariant
                start <= r <= n,
                n == self@.entries.len(),
                self@.wf(),
                forall|i: int| 0 <= i < r ==> (#[trigger] self@.entries[i]).elapsed_micros < bound,
            decreases n - r,
        {
            if self.entries[r].elapsed_micros >= bound {
                return r;
            }
            r = r + 1;
        }
        r
    }

    /// The recorded snapshots whose elapsed time lies in
    /// `[from_micros, to_micros)`, in recording order — exactly the
    /// intersection of the requested range with what was recorded, the
    /// window between the two [`Self::split_at`] points.
    pub fn range(&self, from_micros: u64, to_micros: u64) -> (r: Vec<Metrics>)
        requires
            self@.wf(),
            from_micros <= to_micros,
        ensures
            ({
                let es = self@.entries;
                let lo = Self::split_at(es, from_micros);
                let hi = Self::split_at(es, to_micros);
                &&& 0 <= lo <= hi <= es.len()
                &&& r@.len() == hi - lo
                &&& forall|t: int| 0 <= t < hi - lo ==> (#[trigger] r@[t])@ == es[lo + t].metrics
                &&& forall|i: int|
                    lo <= i < hi ==> from_micros <= (#[trigger] es[i]).elapsed_micros < to_micros
            }),
    {
        let n = self.entries.len();
        let lo = self.first_at_or_after(from_micros, 0);
        let hi = self.first_at_or_after(to_micros, lo);
        proof {
            let es = self@.entries;
            lemma_split_at_bounds(es, from_micros);
            lemma_split_at_bounds(es, to_micros);
            assert(lo == Self::split_at(es, from_micros)) by {
                let s = Self::split_at(es, from_micros);
                if lo < s {
                    assert(es[lo as int].elapsed_micros < from_micros);
                } else if lo > s {
                    assert(es[s].elapsed_micros < from_micros);
                    assert(es[s].elapsed_micros >= from_micros);
                }
            }
            assert forall|i: int| 0 <= i < hi implies (#[trigger] es[i]).elapsed_micros
                < to_micros by {
                if i >= lo && hi < n {
                    assert(es[i].elapsed_micros <= es[hi as int].elapsed_micros);
                }
            }
            assert(hi == Self::split_at(es, to_micros)) by {
                let s = Self::split_at(es, to_micros);
                if hi < s {
                    assert(es[hi as int].elapsed_micros < to_micros);
                } else if hi > s {
                    assert(es[s].elapsed_micros < to_micros);
                    assert(es[s].elapsed_micros >= to_micros);
                }
            }
        }
        let mut r: Vec<Metrics> = Vec::new();
        let mut t: usize = lo;
        while t < hi
            invariant
                lo <= t <= hi <= n,
                n == self@.entries.len(),
                r@.len() == t - lo,
                forall|k: int|
                    0 <= k < t - lo ==> (#[trigger] r@[k])@ == self@.entries[lo + k].metrics,
            decreases hi - t,
        {
            r.push(self.entries[t].metrics.duplicate());
            t = t + 1;
        }
        proof {
            let es = self@.entries;
            assert(forall|i: int|
                lo <= i < hi ==> from_micros <= (#[trigger] es[i]).elapsed_micros < to_micros);
        }
        r
    }
}

/// With ordered entries, the split point of a bound marks exactly the
/// leading entries below it: everything before it lies below the bound
/// and everything from it on lies at or above it.
pub proof fn lemma_split_at_bounds(es: Seq<RecordedEntryView>, bound: u64)
    requires
        forall|i: int, j: int|
            0 <= i < j < es.len() ==> (#[trigger] es[i]).elapsed_micros <= (
            #[trigger] es[j]).elapsed_micros,
    ensures
        0 <= ReplayStore::split_at(es, bound) <= es.len(),
        forall|i: int|
            0 <= i < ReplayStore::split_at(es, bound) ==> (#[trigger] es[i]).elapsed_micros
                < bound,
        forall|i: int|
            ReplayStore::split_at(es, bound) <= i < es.len() ==> (
            #[trigger] es[i]).elapsed_micros >= bound,
    decreases es.len(),
{
    if es.len() > 0 {
        let d = es.drop_last();
        assert(forall|i: int| 0 <= i < d.len() ==> d[i] == es[i]);
        lemma_split_at_bounds(d, bound);
        let s = ReplayStore::split_at(d, bound);
        if es.last().elapsed_micros < bound {
            assert(s == d.len()) by {
                if s < d.len() {
                    assert(d[s].elapsed_micros >= bound);
                    assert(es[s].elapsed_micros <= es[es.len() - 1].elapsed_micros);
                }
            }
        }
    }
}

/// A range query from the session start to past the last recorded
/// elapsed time covers the whole log: its split points are the log's
/// bounds, so replaying a whole recording yields every snapshot, in
/// order.
pub proof fn lemma_full_range(es: Seq<RecordedEntryView>, to: u64)
    requires
        es.len() > 0 ==> to > es.last().elapsed_micros,
        forall|i: int, j: int|
            0 <= i < j < es.len() ==> (#[trigger] es[i]).elapsed_micros <= (
            #[trigger] es[j]).elapsed_micros,
    ensures
        ReplayStore::split_at(es, 0) == 0,
        ReplayStore::split_at(es, to) == es.len(),
{
    lemma_split_at_bounds(es, 0);
    if ReplayStore::split_at(es, 0) > 0 {
        assert(es[0].elapsed_micros < 0);
    }
    lemma_split_at_bounds(es, to);
    let s = ReplayStore::split_at(es, to);
    if s < es.len() {
        assert(es[s].elapsed_micros >= to);
        if s < es.len() - 1 {
            assert(es[s].elapsed_micros <= es[es.len() - 1].elapsed_micros);
        }
    }
}

/// Moves a replay cursor back by `step_micros`, stopping at the start of
/// the session.
pub fn scrub_back(cursor_micros: u64, step_micros: u64) -> (r: u64)
    ensures
        r == if cursor_micros >= step_micros {
            cursor_micros - step_micros
        } else {
            0
        },
{
    if cursor_micros >= step_micros {
        cursor_micros - step_micros
    } else {
        0
    }
}

/// Moves a replay cursor forward by `step_micros`, refusing to move at or
/// past the last recorded elapsed time.
pub fn scrub_forward(cursor_micros: u64, step_micros: u64, last_micros: u64) -> (r: u64)
    ensures
        r == if cursor_micros + step_micros < last_micros {
            cursor_micros + step_micros
        } else {
            cursor_micros as int
        },
{
    if cursor_micros < last_micros && last_micros - cursor_micros > step_micros {
        cursor_micros + step_micros
    } else {
        cursor_micros
    }
}

} // verus!
