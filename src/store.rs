use vstd::prelude::*;
use crate::tracker::{
    lemma_replay_count_bound, lemma_same_stats_view, replay, same_stats, step, words_distinct,
    ChannelKey, ChannelTracker,
};

verus! {

/// Most messages that replay applies to one channel at startup.
pub const BACKLOG_CAP: usize = 50;

/// Where the store stands in its lifetime; it only moves forward.
#[derive(Clone, Copy, Debug, PartialEq, Eq, Structural)]
pub enum Lifecycle {
    Loading,
    Replaying,
    Ready,
}

/// Why a snapshot could not be turned back into a store.
#[derive(Clone, Copy, Debug, PartialEq, Eq, Structural)]
pub enum LoadError {
    /// A channel appears twice, or a tracker lists a word twice.
    Corrupt,
}

/// The tracked channels, each with its tracker, and the lifecycle state.
pub struct Store {
    pub trackers: Vec<(ChannelKey, ChannelTracker)>,
    pub lifecycle: Lifecycle,
}

pub open spec fn keys_unique(t: Seq<(ChannelKey, ChannelTracker)>) -> bool {
    forall|i: int, j: int| 0 <= i < t.len() && 0 <= j < t.len() && i != j ==> t[i].0 != t[j].0
}

pub open spec fn is_tracked(t: Seq<(ChannelKey, ChannelTracker)>, key: ChannelKey) -> bool {
    exists|i: int| 0 <= i < t.len() && t[i].0 == key
}

/// Entries that `restore` accepts: no channel twice, and no tracker with a word twice.
pub open spec fn restorable(entries: Seq<(ChannelKey, ChannelTracker)>) -> bool {
    keys_unique(entries) && forall|i: int| 0 <= i < entries.len() ==> (#[trigger] entries[i]).1.wf()
}

/// `snap` lists the same channels as `trackers`, in the same order, each with the
/// same entries.
pub open spec fn is_snapshot_of(
    snap: Seq<(ChannelKey, ChannelTracker)>,
    trackers: Seq<(ChannelKey, ChannelTracker)>,
) -> bool {
    &&& snap.len() == trackers.len()
    &&& forall|i: int| 0 <= i < snap.len() ==> (#[trigger] snap[i]).0 == trackers[i].0
        && snap[i].1.wf() && same_stats(snap[i].1, trackers[i].1)
}

/// A snapshot of a well-formed store is accepted by `restore`, and every channel
/// comes back with the same message count, word frequencies and high-water mark.
pub proof fn lemma_round_trip(s: Store, snap: Seq<(ChannelKey, ChannelTracker)>)
    requires
        s.wf(),
        is_snapshot_of(snap, s.trackers@),
    ensures
        restorable(snap),
        forall|i: int| 0 <= i < snap.len() ==> (#[trigger] snap[i]).0 == s.trackers@[i].0
            && snap[i].1@ == s.trackers@[i].1@,
{
    assert forall|i: int| 0 <= i < snap.len() implies (#[trigger] snap[i]).0 == s.trackers@[i].0
        && snap[i].1@ == s.trackers@[i].1@ by {
        assert(s.trackers@[i].1.wf());
        lemma_same_stats_view(snap[i].1, s.trackers@[i].1);
    }
}

impl Store {
    pub open spec fn wf(&self) -> bool {
        &&& keys_unique(self.trackers@)
        &&& forall|i: int| 0 <= i < self.trackers@.len() ==> (#[trigger] self.trackers@[i]).1.wf()
    }

    /// An empty store, still loading.
    pub fn new() -> (r: Store)
        ensures
            r.wf(),
            r.trackers@.len() == 0,
            r.lifecycle == Lifecycle::Loading,
    {
        Store { trackers: Vec::new(), lifecycle: Lifecycle::Loading }
    }

    /// Position of the tracker for `key`, if the channel is tracked.
    pub fn find(&self, key: ChannelKey) -> (r: Option<usize>)
        ensures
            r.is_none() <==> !is_tracked(self.trackers@, key),
            r.is_some() ==> r.unwrap() < self.trackers@.len() && self.trackers@[r.unwrap() as int].0 == key,
    {
        let mut i: usize = 0;
        while i < self.trackers.len()
            invariant
                0 <= i <= self.trackers@.len(),
                forall|k: int| 0 <= k < i ==> self.trackers@[k].0 != key,
            decreases self.trackers@.len() - i,
        {
            if self.trackers[i].0 == key {
                return Some(i);
            }
            i = i + 1;
        }
        None
    }

    /// Starts tracking `key` with the given high-water mark; returns false, changing
    /// nothing, when the channel is already tracked.
    pub fn track(&mut self, key: ChannelKey, high_water_mark: u64) -> (r: bool)
        requires
            old(self).wf(),
        ensures
            final(self).wf(),
            final(self).lifecycle == old(self).lifecycle,
            r == !is_tracked(old(self).trackers@, key),
            !r ==> final(self).trackers@ == old(self).trackers@,
            r ==> final(self).trackers@.len() == old(self).trackers@.len() + 1
                && final(self).trackers@.drop_last() == old(self).trackers@
                && final(self).trackers@.last().0 == key
                && final(self).trackers@.last().1.high_water_mark == high_water_mark
                && final(self).trackers@.last().1.message_count == 0
                && final(self).trackers@.last().1.words@.len() == 0,
    {
        if self.find(key).is_some() {
            return false;
        }
        self.trackers.push((key, ChannelTracker::new(high_water_mark)));
        assert(self.trackers@.drop_last() =~= old(self).trackers@);
        true
    }

    /// A detached copy of every tracked key and its statistics, for persisting
    /// without holding the store.
    pub fn snapshot(&self) -> (r: Vec<(ChannelKey, ChannelTracker)>)
        requires
            self.wf(),
        ensures
            is_snapshot_of(r@, self.trackers@),
            restorable(r@),
            forall|i: int| 0 <= i < r@.len() ==> (#[trigger] r@[i]).1@ == self.trackers@[i].1@,
    {
        let mut r: Vec<(ChannelKey, ChannelTracker)> = Vec::new();
        let mut i: usize = 0;
        while i < self.trackers.len()
            invariant
                self.wf(),
                0 <= i <= self.trackers@.len(),
                r@.len() == i,
                forall|k: int| 0 <= k < i ==> r@[k].0 == self.trackers@[k].0
                    && (#[trigger] r@[k]).1.wf() && same_stats(r@[k].1, self.trackers@[k].1),
            decreases self.trackers@.len() - i,
        {
            assert(self.trackers@[i as int].1.wf());
            let t = self.trackers[i].1.duplicate();
            r.push((self.trackers[i].0, t));
            i = i + 1;
        }
        proof {
            lemma_round_trip(*self, r@);
        }
        r
    }

    /// Rebuilds a loading store from a snapshot; a snapshot with a repeated channel
    /// or a tracker with a repeated word is rejected as corrupt.
    pub fn restore(entries: Vec<(ChannelKey, ChannelTracker)>) -> (r: Result<Store, LoadError>)
        ensures
            r.is_ok() <==> restorable(entries@),
            r.is_ok() ==> r.unwrap().wf() && r.unwrap().trackers@ == entries@
                && r.unwrap().lifecycle == Lifecycle::Loading,
    {
        let ghost all = entries@;
        let total: usize = entries.len();
        let mut store = Store::new();
        let mut rest = entries;
        let mut n: usize = 0;
        while rest.len() > 0
            invariant
                all == entries@,
                all.len() == total,
                rest@.len() + n == all.len(),
                rest@ == all.subrange(n as int, all.len() as int),
                store.trackers@ == all.subrange(0, n as int),
                store.wf(),
                store.lifecycle == Lifecycle::Loading,
            decreases rest@.len(),
        {
            let (key, t) = rest.remove(0);
            assert((key, t) == all[n as int]);
            let found = store.find(key);
            if found.is_some() {
                let j = found.unwrap();
                assert(all[j as int] == store.trackers@[j as int]);
                assert(all[j as int].0 == all[n as int].0);
                assert(!keys_unique(all));
                return Err(LoadError::Corrupt);
            }
            if !words_distinct(&t.words) {
                assert(!all[n as int].1.wf());
                return Err(LoadError::Corrupt);
            }
            store.trackers.push((key, t));
            n = n + 1;
            assert(store.trackers@ =~= all.subrange(0, n as int));
            assert(rest@ =~= all.subrange(n as int, all.len() as int));
        }
        assert(all.subrange(0, n as int) =~= all);
        Ok(store)
    }

    /// Every tracked key with its high-water mark, as a detached copy.
    pub fn tracked_keys_with_watermarks(&self) -> (r: Vec<(ChannelKey, u64)>)
        ensures
            r@.len() == self.trackers@.len(),
            forall|i: int| 0 <= i < r@.len() ==> r@[i].0 == self.trackers@[i].0
                && r@[i].1 == self.trackers@[i].1.high_water_mark,
    {
        let mut r: Vec<(ChannelKey, u64)> = Vec::new();
        let mut i: usize = 0;
        while i < self.trackers.len()
            invariant
                0 <= i <= self.trackers@.len(),
                r@.len() == i,
                forall|k: int| 0 <= k < i ==> r@[k].0 == self.trackers@[k].0
                    && r@[k].1 == self.trackers@[k].1.high_water_mark,
            decreases self.trackers@.len() - i,
        {
            r.push((self.trackers[i].0, self.trackers[i].1.high_water_mark));
            i = i + 1;
        }
        r
    }

    /// Applies a live message to the tracker of `key`; an untracked key changes nothing.
    pub fn process(&mut self, key: ChannelKey, id: u64, tokens: &Vec<Vec<u8>>)
        requires
            old(self).wf(),
        ensures
            final(self).wf(),
            final(self).lifecycle == old(self).lifecycle,
            final(self).trackers@.len() == old(self).trackers@.len(),
            forall|i: int| 0 <= i < old(self).trackers@.len() ==> final(self).trackers@[i].0
                == old(self).trackers@[i].0,
            !is_tracked(old(self).trackers@, key) ==> final(self).trackers@ == old(self).trackers@,
            forall|i: int| 0 <= i < old(self).trackers@.len() && old(self).trackers@[i].0 != key
                ==> final(self).trackers@[i] == old(self).trackers@[i],
            forall|i: int| 0 <= i < old(self).trackers@.len() && old(self).trackers@[i].0 == key
                ==> {
                    let o = old(self).trackers@[i].1;
                    let n = final(self).trackers@[i].1;
                    &&& n@ == step(o@, id, tokens@)
                    &&& id <= o.high_water_mark ==> n.message_count == o.message_count
                        && n.words@ == o.words@ && n.high_water_mark == o.high_water_mark
                },
    {
        match self.find(key) {
            None => {},
            Some(i) => {
                let (k, mut t) = self.trackers.remove(i);
                proof {
                    assert(t.wf());
                }
                t.update(id, tokens);
                self.trackers.insert(i, (k, t));
                assert(forall|j: int| 0 <= j < self.trackers@.len() && j != i
                    ==> self.trackers@[j] == old(self).trackers@[j]);
                assert(forall|j: int| 0 <= j < old(self).trackers@.len()
                    && old(self).trackers@[j].0 == key ==> j == i);
            },
        }
    }

    /// Applies a replayed backlog, oldest first, to the tracker of `key`: at most
    /// `BACKLOG_CAP` messages are taken, the rest are left out. Returns how many were
    /// handed to the tracker (0 for an untracked key).
    pub fn apply_backlog(&mut self, key: ChannelKey, messages: &Vec<(u64, Vec<Vec<u8>>)>) -> (r: usize)
        requires
            old(self).wf(),
        ensures
            final(self).wf(),
            final(self).lifecycle == old(self).lifecycle,
            final(self).trackers@.len() == old(self).trackers@.len(),
            r <= BACKLOG_CAP,
            r <= messages@.len(),
            is_tracked(old(self).trackers@, key) ==> r == if messages@.len() < BACKLOG_CAP {
                messages@.len()
            } else {
                BACKLOG_CAP as nat
            },
            !is_tracked(old(self).trackers@, key) ==> r == 0 && final(self).trackers@
                == old(self).trackers@,
            forall|i: int| 0 <= i < old(self).trackers@.len() ==> final(self).trackers@[i].0
                == old(self).trackers@[i].0,
            forall|i: int| 0 <= i < old(self).trackers@.len() && old(self).trackers@[i].0 != key
                ==> final(self).trackers@[i] == old(self).trackers@[i],
            forall|i: int| 0 <= i < old(self).trackers@.len() && old(self).trackers@[i].0 == key
                ==> final(self).trackers@[i].1@ == replay(old(self).trackers@[i].1@, messages@.take(r as int))
                && final(self).trackers@[i].1.message_count <= old(self).trackers@[i].1.message_count + r,
    {
        if self.find(key).is_none() {
            return 0;
        }
        assert(messages@.take(0) =~= Seq::<(u64, Vec<Vec<u8>>)>::empty());
        let n: usize = if messages.len() < BACKLOG_CAP { messages.len() } else { BACKLOG_CAP };
        let mut j: usize = 0;
        while j < n
            invariant
                self.wf(),
                n <= messages@.len(),
                n <= BACKLOG_CAP,
                0 <= j <= n,
                self.lifecycle == old(self).lifecycle,
                self.trackers@.len() == old(self).trackers@.len(),
                forall|i: int| 0 <= i < old(self).trackers@.len() ==> self.trackers@[i].0
                    == old(self).trackers@[i].0,
                forall|i: int| 0 <= i < old(self).trackers@.len() && old(self).trackers@[i].0 != key
                    ==> self.trackers@[i] == old(self).trackers@[i],
                forall|i: int| 0 <= i < old(self).trackers@.len() && old(self).trackers@[i].0 == key
                    ==> self.trackers@[i].1@ == replay(old(self).trackers@[i].1@, messages@.take(j as int)),
            decreases n - j,
        {
            self.process(key, messages[j].0, &messages[j].1);
            assert(messages@.take(j + 1).drop_last() =~= messages@.take(j as int));
            j = j + 1;
        }
        assert forall|i: int| 0 <= i < old(self).trackers@.len() && old(self).trackers@[i].0 == key
            implies self.trackers@[i].1.message_count <= old(self).trackers@[i].1.message_count + n by {
            lemma_replay_count_bound(old(self).trackers@[i].1@, messages@.take(n as int));
        }
        n
    }

    /// Loading moves to Replaying; any other state is kept.
    pub fn begin_replay(&mut self)
        ensures
            final(self).trackers@ == old(self).trackers@,
            old(self).lifecycle == Lifecycle::Loading ==> final(self).lifecycle == Lifecycle::Replaying,
            old(self).lifecycle != Lifecycle::Loading ==> final(self).lifecycle == old(self).lifecycle,
    {
        if self.lifecycle == Lifecycle::Loading {
            self.lifecycle = Lifecycle::Replaying;
        }
    }

    /// Ends replay: the store is Ready from here on.
    pub fn finish_replay(&mut self)
        ensures
            final(self).trackers@ == old(self).trackers@,
            final(self).lifecycle == Lifecycle::Ready,
    {
        self.lifecycle = Lifecycle::Ready;
    }
}

} // verus!
