//! The log of view updates: each committed batch of events gets the next sequence
//! number, and a bounded window of batches can be replayed. Sequence number zero
//! is kept for snapshots.

use std::collections::VecDeque;

use vstd::prelude::*;

use crate::base::keys;
use crate::base::keys::Dup;
use crate::proto::{
    KvBlockId, KvBlockIdView, Location, LocationView, ViewEvent, ViewEventView, ViewKind,
    ViewUpdate, ViewUpdateView,
};

verus! {

/// How many batches the window holds by default.
pub const DEFAULT_VIEW_LOG_CAP: usize = 1024;

/// What a log stands for.
#[verifier::ext_equal]
pub struct LogView {
    pub updates: Seq<ViewUpdateView>,
    pub cap: nat,
    pub next_seq: u64,
}

impl LogView {
    /// The window is within its capacity and holds the latest batches without a
    /// gap.
    pub open spec fn wf(self) -> bool {
        &&& self.cap >= 1
        &&& self.updates.len() <= self.cap
        &&& self.updates.len() < self.next_seq
        &&& forall|i: int|
            0 <= i < self.updates.len() ==> (#[trigger] self.updates[i]).seq == self.next_seq
                - self.updates.len() + i
    }

    /// A log without batches.
    pub open spec fn fresh(cap: nat) -> LogView {
        LogView { updates: Seq::empty(), cap, next_seq: 1 }
    }

    /// The batch that is committed next.
    pub open spec fn next(self, events: Seq<ViewEventView>) -> ViewUpdateView {
        ViewUpdateView { seq: self.next_seq, events }
    }

    /// The log after a commit: the oldest batch makes room.
    pub open spec fn committed(self, events: Seq<ViewEventView>) -> LogView {
        let grown = self.updates.push(self.next(events));
        LogView {
            updates: if grown.len() > self.cap {
                grown.skip(grown.len() - self.cap)
            } else {
                grown
            },
            next_seq: (self.next_seq + 1) as u64,
            ..self
        }
    }

    /// The sequence number of the oldest batch in the window.
    pub open spec fn floor(self) -> u64 {
        if self.updates.len() > 0 {
            self.updates[0].seq
        } else {
            self.next_seq
        }
    }

    /// The batches after a given number. None where that number was never given
    /// out or the window no longer reaches back to it.
    pub open spec fn replay(self, from_seq: u64) -> Option<Seq<ViewUpdateView>> {
        if from_seq == 0 || from_seq >= self.next_seq || from_seq + 1 < self.floor() {
            None
        } else {
            Some(self.updates.filter(|u: ViewUpdateView| u.seq > from_seq))
        }
    }
}

/// The log as stored.
pub struct ViewLog {
    pub updates: VecDeque<ViewUpdate>,
    pub cap: usize,
    pub next_seq: u64,
}

impl View for ViewLog {
    type V = LogView;

    open spec fn view(&self) -> LogView {
        LogView { updates: keys::views(self.updates@), cap: self.cap as nat, next_seq: self.next_seq }
    }
}

impl Default for ViewLog {
    fn default() -> (log: Self)
        ensures
            log@ == LogView::fresh(1024),
            log@.wf(),
    {
        ViewLog::with_cap(DEFAULT_VIEW_LOG_CAP)
    }
}

impl ViewLog {
    /// A log whose window holds at least one batch.
    pub fn with_cap(cap: usize) -> (log: Self)
        ensures
            log@ == LogView::fresh(
                if cap == 0 {
                    1
                } else {
                    cap as nat
                },
            ),
            log@.wf(),
    {
        let log = ViewLog {
            updates: VecDeque::new(),
            cap: if cap == 0 {
                1
            } else {
                cap
            },
            next_seq: 1,
        };
        assert(log@.updates =~= Seq::empty());
        log
    }

    /// Commits a batch of events under the next sequence number.
    pub fn commit(&mut self, events: Vec<ViewEvent>) -> (u: ViewUpdate)
        requires
            old(self)@.wf(),
            old(self)@.next_seq < u64::MAX,
        ensures
            u@ == old(self)@.next(keys::views(events@)),
            final(self)@ == old(self)@.committed(keys::views(events@)),
            final(self)@.wf(),
    {
        let ghost v = self@;
        let u = ViewUpdate { seq: self.next_seq, events };
        self.next_seq = self.next_seq + 1;
        self.updates.push_back(u.dup());
        assert(self@.updates =~= v.updates.push(u@));
        if self.updates.len() > self.cap {
            let ghost grown = self@.updates;
            self.updates.pop_front();
            assert(self@.updates =~= grown.skip(1));
        }
        assert(self@ =~= v.committed(u@.events));
        u
    }

    /// The last number that was given out; zero before the first.
    pub fn last_seq(&self) -> (n: u64)
        requires
            self@.wf(),
        ensures
            n == self@.next_seq - 1,
    {
        self.next_seq - 1
    }

    /// The number of the oldest batch in the window.
    pub fn floor(&self) -> (n: u64)
        ensures
            n == self@.floor(),
    {
        if self.updates.len() > 0 {
            assert(self@.updates[0] == self.updates@[0]@);
            self.updates[0].seq
        } else {
            self.next_seq
        }
    }

    /// The batches after a given number, or nothing where only a snapshot will do.
    pub fn replay_after(&self, from_seq: u64) -> (r: Option<Vec<ViewUpdate>>)
        ensures
            match r {
                Some(ups) => self@.replay(from_seq) == Some(keys::views(ups@)),
                None => self@.replay(from_seq) is None,
            },
    {
        if from_seq == 0 || from_seq >= self.next_seq {
            return None;
        }
        if from_seq + 1 < self.floor() {
            return None;
        }
        let ghost p = |u: ViewUpdateView| u.seq > from_seq;
        let ghost all = self@.updates;
        let mut out: Vec<ViewUpdate> = Vec::new();
        let mut i: usize = 0;
        assert(keys::views(out@) =~= all.take(0).filter(p)) by {
            reveal(Seq::filter);
        }
        while i < self.updates.len()
            invariant
                i <= self.updates@.len(),
                all == self@.updates,
                p == (|u: ViewUpdateView| u.seq > from_seq),
                keys::views(out@) == all.take(i as int).filter(p),
            decreases self.updates@.len() - i,
        {
            let u = &self.updates[i];
            proof {
                reveal(Seq::filter);
                assert(all.take(i + 1).drop_last() =~= all.take(i as int));
                assert(all[i as int] == u@);
            }
            let ghost before = keys::views(out@);
            if u.seq > from_seq {
                out.push(u.dup());
                assert(keys::views(out@) =~= before.push(u@));
            }
            i += 1;
        }
        assert(all.take(i as int) =~= all);
        Some(out)
    }

    /// Empties the window; numbers go on.
    pub fn reset(&mut self)
        ensures
            final(self)@ == (LogView { updates: Seq::empty(), ..old(self)@ }),
            old(self)@.wf() ==> final(self)@.wf(),
    {
        self.updates.clear();
        assert(self@.updates =~= Seq::empty());
    }
}

/// A block that was registered or moved, with all its locations.
pub open spec fn upserted(
    kind: ViewKind,
    id: KvBlockIdView,
    locations: Seq<LocationView>,
    l3_present: bool,
    block_kind: i32,
) -> ViewEventView {
    ViewEventView { kind: kind.spec_number(), id: Some(id), locations, l3_present, block_kind }
}

/// A block that is gone.
pub open spec fn invalidated(id: KvBlockIdView) -> ViewEventView {
    ViewEventView {
        kind: ViewKind::Invalidated.spec_number(),
        id: Some(id),
        locations: Seq::empty(),
        l3_present: false,
        block_kind: 0,
    }
}

/// Tells of a block that was registered or moved.
pub fn upsert_event(
    kind: ViewKind,
    id: KvBlockId,
    locations: Vec<Location>,
    l3_present: bool,
    block_kind: i32,
) -> (e: ViewEvent)
    ensures
        e@ == upserted(kind, id@, keys::views(locations@), l3_present, block_kind),
{
    ViewEvent { kind: kind.number(), id: Some(id), locations, l3_present, block_kind }
}

/// Tells of a block that is gone.
pub fn invalidated_event(id: KvBlockId) -> (e: ViewEvent)
    ensures
        e@ == invalidated(id@),
{
    let e = ViewEvent {
        kind: ViewKind::Invalidated.number(),
        id: Some(id),
        locations: Vec::new(),
        l3_present: false,
        block_kind: 0,
    };
    assert(e@.locations =~= Seq::empty());
    e
}

proof fn lemma_filter_suffix(s: Seq<ViewUpdateView>, from_seq: u64, k: int)
    requires
        0 <= k <= s.len(),
        forall|i: int| 0 <= i < k ==> (#[trigger] s[i]).seq <= from_seq,
        forall|i: int| k <= i < s.len() ==> (#[trigger] s[i]).seq > from_seq,
    ensures
        s.filter(|u: ViewUpdateView| u.seq > from_seq) == s.skip(k),
    decreases s.len(),
{
    reveal(Seq::filter);
    if s.len() > 0 {
        let init = s.drop_last();
        if k == s.len() {
            lemma_filter_suffix(init, from_seq, k - 1);
            assert(init.skip(k - 1) =~= Seq::empty());
            assert(s.skip(k) =~= Seq::empty());
        } else {
            lemma_filter_suffix(init, from_seq, k);
            assert(s.skip(k) =~= init.skip(k).push(s.last()));
        }
    } else {
        assert(s.skip(k) =~= s);
    }
}

/// A replay misses nothing: it is every batch after the given number up to the
/// latest, in order and without a gap.
pub proof fn replay_is_complete(log: LogView, from_seq: u64)
    requires
        log.wf(),
        log.replay(from_seq) is Some,
    ensures
        log.replay(from_seq)->0.len() == log.next_seq - 1 - from_seq,
        forall|i: int|
            0 <= i < log.replay(from_seq)->0.len() ==> (#[trigger] log.replay(from_seq)->0[i]).seq
                == from_seq + 1 + i,
{
    let k = from_seq + 1 - (log.next_seq - log.updates.len());
    lemma_filter_suffix(log.updates, from_seq, k);
}

/// Numbers grow by one with every commit, and a commit never loses the batch that
/// it commits.
pub proof fn commit_is_sequential(log: LogView, events: Seq<ViewEventView>)
    requires
        log.wf(),
        log.next_seq < u64::MAX,
    ensures
        log.committed(events).wf(),
        log.next(events).seq == log.next_seq,
        log.committed(events).next_seq == log.next_seq + 1,
        log.committed(events).updates.len() > 0,
        log.committed(events).updates.last() == log.next(events),
{
}

/// A reader that was up to date before a commit is replayed exactly that commit.
pub proof fn follower_sees_the_commit(log: LogView, events: Seq<ViewEventView>)
    requires
        log.wf(),
        1 < log.next_seq < u64::MAX,
    ensures
        log.committed(events).replay((log.next_seq - 1) as u64) == Some(seq![log.next(events)]),
{
    let c = log.committed(events);
    let from = (log.next_seq - 1) as u64;
    commit_is_sequential(log, events);
    lemma_filter_suffix(c.updates, from, c.updates.len() - 1);
    assert(c.updates.skip(c.updates.len() - 1) =~= seq![log.next(events)]);
}

/// A number that was never given out, and zero, call for a snapshot.
pub proof fn unknown_numbers_need_a_snapshot(log: LogView, from_seq: u64)
    requires
        from_seq == 0 || from_seq >= log.next_seq,
    ensures
        log.replay(from_seq) is None,
{
}

/// A reader can be replayed exactly where it names a batch that was committed, and every
/// later one is still kept.
pub proof fn replay_is_owed(log: LogView, from_seq: u64)
    requires
        log.wf(),
    ensures
        log.replay(from_seq) is Some <==> 1 <= from_seq < log.next_seq && log.next_seq - 1
            - from_seq <= log.updates.len(),
{
}

/// A replay grows by what is committed: while the window reaches back to it, a reader is
/// replayed after a commit what it was replayed before, and the commit with its events.
pub proof fn replay_grows_by_the_commit(log: LogView, events: Seq<ViewEventView>, from_seq: u64)
    requires
        log.wf(),
        log.next_seq < u64::MAX,
        log.replay(from_seq) is Some,
        log.committed(events).replay(from_seq) is Some,
    ensures
        log.committed(events).replay(from_seq)->0 == log.replay(from_seq)->0.push(
            ViewUpdateView { seq: log.next_seq, events },
        ),
{
    let c = log.committed(events);
    commit_is_sequential(log, events);
    let i = from_seq + 1 - (log.next_seq - log.updates.len());
    lemma_filter_suffix(log.updates, from_seq, i);
    let j = from_seq + 1 - (c.next_seq - c.updates.len());
    lemma_filter_suffix(c.updates, from_seq, j);
    assert(c.updates.skip(j) =~= log.updates.skip(i).push(
        ViewUpdateView { seq: log.next_seq, events },
    ));
}

/// The window loses a batch only where it is full, and then the oldest.
pub proof fn full_windows_lose_the_oldest(log: LogView, events: Seq<ViewEventView>, i: int)
    requires
        log.wf(),
        log.next_seq < u64::MAX,
        0 <= i < log.updates.len(),
    ensures
        log.committed(events).updates.contains(log.updates[i]) <==> i > 0 || log.updates.len()
            < log.cap,
        log.committed(events).cap == log.cap,
{
    let c = log.committed(events);
    if log.updates.len() < log.cap {
        assert(c.updates[i] == log.updates[i]);
    } else {
        if i > 0 {
            assert(c.updates[i - 1] == log.updates[i]);
        }
        if c.updates.contains(log.updates[0]) {
            let j = choose|j: int| 0 <= j < c.updates.len() && c.updates[j] == log.updates[0];
            commit_is_sequential(log, events);
            assert(c.updates[j].seq == c.next_seq - c.updates.len() + j);
        }
    }
}

} // verus!
