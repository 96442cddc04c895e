use vstd::prelude::*;

verus! {

/// Immutable name of a tracked channel: the scope (guild) and the channel within it.
#[derive(Clone, Copy, Debug, PartialEq, Eq, Structural)]
pub struct ChannelKey {
    pub guild: u64,
    pub channel: u64,
}

/// Per-channel aggregate statistics.
pub struct ChannelTracker {
    pub message_count: u64,
    pub high_water_mark: u64,
    /// Word frequencies as (word bytes, count) pairs, each word at most once.
    pub words: Vec<(Vec<u8>, u64)>,
}

/// The word of each frequency entry, as a sequence of bytes.
pub open spec fn word_at(w: Seq<(Vec<u8>, u64)>, i: int) -> Seq<u8> {
    w[i].0@
}

pub open spec fn words_unique(w: Seq<(Vec<u8>, u64)>) -> bool {
    forall|i: int, j: int|
        0 <= i < w.len() && 0 <= j < w.len() && i != j ==> word_at(w, i) != word_at(w, j)
}

/// Whether `w` is the word of some frequency entry.
pub open spec fn has_word(ws: Seq<(Vec<u8>, u64)>, w: Seq<u8>) -> bool {
    exists|i: int| 0 <= i < ws.len() && word_at(ws, i) == w
}

/// The count recorded for `w`, or 0 when `w` has no entry.
pub open spec fn freq_of(ws: Seq<(Vec<u8>, u64)>, w: Seq<u8>) -> nat {
    if has_word(ws, w) {
        ws[choose|i: int| 0 <= i < ws.len() && word_at(ws, i) == w].1 as nat
    } else {
        0
    }
}

/// `x`, capped at the largest value a counter can hold.
pub open spec fn sat(x: nat) -> nat {
    if x > u64::MAX { u64::MAX as nat } else { x }
}

/// How many times `w` occurs among the tokens.
pub open spec fn occ(ts: Seq<Vec<u8>>, w: Seq<u8>) -> nat
    decreases ts.len(),
{
    if ts.len() == 0 {
        0
    } else {
        occ(ts.drop_last(), w) + if ts.last()@ == w { 1nat } else { 0nat }
    }
}

/// What a tracker holds: its message count, its high-water mark, and the
/// frequency of every word (0 for words never seen).
pub struct TrackerModel {
    pub count: nat,
    pub mark: nat,
    pub freq: Map<Seq<u8>, nat>,
}

/// The tracker after one message with id `id` and the given tokens: nothing
/// changes when the id is at or below the mark; otherwise the message and each
/// of its tokens are counted and the mark becomes `id`.
pub open spec fn step(m: TrackerModel, id: u64, tokens: Seq<Vec<u8>>) -> TrackerModel {
    if id <= m.mark {
        m
    } else {
        TrackerModel {
            count: sat(m.count + 1),
            mark: id as nat,
            freq: Map::total(|w: Seq<u8>| sat(m.freq[w] + occ(tokens, w))),
        }
    }
}

/// The tracker after the messages, applied in the order given.
pub open spec fn replay(m: TrackerModel, msgs: Seq<(u64, Vec<Vec<u8>>)>) -> TrackerModel
    decreases msgs.len(),
{
    if msgs.len() == 0 {
        m
    } else {
        step(replay(m, msgs.drop_last()), msgs.last().0, msgs.last().1@)
    }
}

proof fn lemma_freq_at(ws: Seq<(Vec<u8>, u64)>, i: int)
    requires
        words_unique(ws),
        0 <= i < ws.len(),
    ensures
        freq_of(ws, word_at(ws, i)) == ws[i].1,
{
    assert(has_word(ws, word_at(ws, i)));
    let j = choose|j: int| 0 <= j < ws.len() && word_at(ws, j) == word_at(ws, i);
    assert(j == i);
}

/// A message whose id is at or below the mark changes nothing: in particular a
/// message applied a second time is not counted again.
pub proof fn lemma_step_idempotent(m: TrackerModel, id: u64, tokens: Seq<Vec<u8>>, again: Seq<Vec<u8>>)
    ensures
        step(step(m, id, tokens), id, again) == step(m, id, tokens),
{
}

/// The high-water mark never decreases, whatever messages are applied.
pub proof fn lemma_replay_monotone(m: TrackerModel, msgs: Seq<(u64, Vec<Vec<u8>>)>)
    ensures
        replay(m, msgs).mark >= m.mark,
    decreases msgs.len(),
{
    if msgs.len() > 0 {
        lemma_replay_monotone(m, msgs.drop_last());
    }
}

/// Replay counts at most one message per message handed to it.
pub proof fn lemma_replay_count_bound(m: TrackerModel, msgs: Seq<(u64, Vec<Vec<u8>>)>)
    ensures
        replay(m, msgs).count <= m.count + msgs.len(),
    decreases msgs.len(),
{
    if msgs.len() > 0 {
        lemma_replay_count_bound(m, msgs.drop_last());
    }
}

/// After replay the mark is the larger of the old mark and the largest id handed in.
pub proof fn lemma_replay_mark(m: TrackerModel, msgs: Seq<(u64, Vec<Vec<u8>>)>)
    ensures
        replay(m, msgs).mark >= m.mark,
        forall|i: int| 0 <= i < msgs.len() ==> replay(m, msgs).mark >= (#[trigger] msgs[i]).0,
        replay(m, msgs).mark == m.mark || exists|i: int|
            0 <= i < msgs.len() && (#[trigger] msgs[i]).0 == replay(m, msgs).mark,
    decreases msgs.len(),
{
    if msgs.len() > 0 {
        let p = msgs.drop_last();
        lemma_replay_mark(m, p);
        assert forall|i: int| 0 <= i < msgs.len() implies replay(m, msgs).mark >= (#[trigger] msgs[i]).0 by {
            if i < msgs.len() - 1 {
                assert(msgs[i] == p[i]);
            }
        }
        if replay(m, msgs).mark != m.mark {
            if replay(m, msgs).mark == replay(m, p).mark {
                let i = choose|i: int| 0 <= i < p.len() && (#[trigger] p[i]).0 == replay(m, p).mark;
                assert(msgs[i] == p[i]);
            } else {
                assert(msgs[msgs.len() - 1].0 == replay(m, msgs).mark);
            }
        }
    }
}

/// Messages handed in with strictly increasing ids, all above the mark, are each
/// counted once: the count grows by their number and the mark ends at the last id.
pub proof fn lemma_replay_increasing(m: TrackerModel, msgs: Seq<(u64, Vec<Vec<u8>>)>)
    requires
        m.count <= u64::MAX,
        forall|i: int, j: int| 0 <= i < j < msgs.len() ==> msgs[i].0 < msgs[j].0,
        msgs.len() > 0 ==> msgs[0].0 > m.mark,
    ensures
        replay(m, msgs).count == sat(m.count + msgs.len()),
        msgs.len() > 0 ==> replay(m, msgs).mark == msgs.last().0,
    decreases msgs.len(),
{
    if msgs.len() > 0 {
        let p = msgs.drop_last();
        lemma_replay_increasing(m, p);
        if p.len() > 0 {
            assert(p.last().0 == msgs[p.len() - 1].0);
        }
        assert(replay(m, p).mark < msgs.last().0);
        let c = replay(m, p).count;
        assert(c == sat(m.count + p.len()));
        assert(sat(c + 1) == sat(m.count + msgs.len()));
    }
}

/// A delivery whose id is at or below that of any earlier delivery changes
/// nothing: however replayed and live messages interleave, a message repeated
/// after itself, or arriving after a newer one, is never counted again.
pub proof fn lemma_repeat_after_newer_ignored(
    m: TrackerModel,
    msgs: Seq<(u64, Vec<Vec<u8>>)>,
    x: (u64, Vec<Vec<u8>>),
    i: int,
)
    requires
        0 <= i < msgs.len(),
        x.0 <= msgs[i].0,
    ensures
        replay(m, msgs.push(x)) == replay(m, msgs),
{
    lemma_replay_mark(m, msgs);
    assert(msgs.push(x).drop_last() =~= msgs);
}

/// Two trackers with the same entries hold the same statistics.
pub proof fn lemma_same_stats_view(a: ChannelTracker, b: ChannelTracker)
    requires
        a.wf(),
        b.wf(),
        same_stats(a, b),
    ensures
        a@ == b@,
{
    assert forall|w: Seq<u8>| freq_of(a.words@, w) == freq_of(b.words@, w) by {
        if has_word(a.words@, w) {
            let j = choose|j: int| 0 <= j < a.words@.len() && word_at(a.words@, j) == w;
            lemma_freq_at(a.words@, j);
            lemma_freq_at(b.words@, j);
        } else if has_word(b.words@, w) {
            let j = choose|j: int| 0 <= j < b.words@.len() && word_at(b.words@, j) == w;
            assert(word_at(a.words@, j) == w);
        }
    }
    assert(a@.freq =~= b@.freq);
}

/// Whether no word occurs twice among the frequency entries.
pub fn words_distinct(w: &Vec<(Vec<u8>, u64)>) -> (r: bool)
    ensures
        r == words_unique(w@),
{
    let mut i: usize = 0;
    while i < w.len()
        invariant
            0 <= i <= w@.len(),
            forall|a: int, b: int| 0 <= a < i && 0 <= b < w@.len() && a != b ==> word_at(w@, a) != word_at(w@, b),
        decreases w@.len() - i,
    {
        let mut j: usize = 0;
        while j < w.len()
            invariant
                0 <= i < w@.len(),
                0 <= j <= w@.len(),
                forall|a: int, b: int| 0 <= a < i && 0 <= b < w@.len() && a != b ==> word_at(w@, a) != word_at(w@, b),
                forall|b: int| 0 <= b < j && b != i ==> word_at(w@, i as int) != word_at(w@, b),
            decreases w@.len() - j,
        {
            if j != i && bytes_eq(&w[i].0, &w[j].0) {
                assert(word_at(w@, i as int) == word_at(w@, j as int));
                return false;
            }
            j = j + 1;
        }
        i = i + 1;
    }
    true
}

fn bytes_eq(a: &Vec<u8>, b: &Vec<u8>) -> (r: bool)
    ensures
        r == (a@ == b@),
{
    if a.len() != b.len() {
        return false;
    }
    let mut i: usize = 0;
    while i < a.len()
        invariant
            a@.len() == b@.len(),
            0 <= i <= a@.len(),
            forall|k: int| 0 <= k < i ==> a@[k] == b@[k],
        decreases a@.len() - i,
    {
        if a[i] != b[i] {
            return false;
        }
        i = i + 1;
    }
    assert(a@ =~= b@);
    true
}

/// Two trackers hold the same count, high-water mark and word frequencies, entry by entry.
pub open spec fn same_stats(a: ChannelTracker, b: ChannelTracker) -> bool {
    &&& a.message_count == b.message_count
    &&& a.high_water_mark == b.high_water_mark
    &&& a.words@.len() == b.words@.len()
    &&& forall|i: int| 0 <= i < a.words@.len() ==> word_at(a.words@, i) == word_at(b.words@, i)
        && a.words@[i].1 == b.words@[i].1
}

impl ChannelTracker {
    /// A detached copy with the same statistics.
    pub fn duplicate(&self) -> (r: ChannelTracker)
        requires
            self.wf(),
        ensures
            r.wf(),
            same_stats(r, *self),
    {
        let mut words: Vec<(Vec<u8>, u64)> = Vec::new();
        let mut i: usize = 0;
        while i < self.words.len()
            invariant
                0 <= i <= self.words@.len(),
                words@.len() == i,
                forall|k: int| 0 <= k < i ==> (#[trigger] words@[k]).0@ == self.words@[k].0@,
                forall|k: int| 0 <= k < i ==> (#[trigger] words@[k]).1 == self.words@[k].1,
            decreases self.words@.len() - i,
        {
            let w = self.words[i].0.clone();
            let c = self.words[i].1;
            words.push((w, c));
            i = i + 1;
        }
        let r = ChannelTracker {
            message_count: self.message_count,
            high_water_mark: self.high_water_mark,
            words,
        };
        assert(forall|k: int| 0 <= k < r.words@.len() ==> word_at(r.words@, k) == word_at(self.words@, k)
            && r.words@[k].1 == self.words@[k].1);
        r
    }

    pub open spec fn wf(&self) -> bool {
        words_unique(self.words@)
    }

    /// A fresh tracker whose high-water mark is the given message id.
    pub fn new(high_water_mark: u64) -> (r: ChannelTracker)
        ensures
            r.wf(),
            r.words@.len() == 0,
            r@ == (TrackerModel { count: 0, mark: high_water_mark as nat, freq: Map::total(|w: Seq<u8>| 0nat) }),
    {
        let r = ChannelTracker { message_count: 0, high_water_mark, words: Vec::new() };
        assert(r@.freq =~= Map::total(|w: Seq<u8>| 0nat));
        r
    }

    /// How often `word` has been counted (0 when never seen).
    pub fn frequency(&self, word: &Vec<u8>) -> (r: u64)
        requires
            self.wf(),
        ensures
            r as nat == self@.freq[word@],
    {
        let mut i: usize = 0;
        while i < self.words.len()
            invariant
                self.wf(),
                0 <= i <= self.words@.len(),
                forall|k: int| 0 <= k < i ==> word_at(self.words@, k) != word@,
            decreases self.words@.len() - i,
        {
            if bytes_eq(&self.words[i].0, word) {
                proof {
                    lemma_freq_at(self.words@, i as int);
                }
                return self.words[i].1;
            }
            i = i + 1;
        }
        0
    }

    /// Adds one occurrence of `word`, saturating at the largest count.
    pub fn count_word(&mut self, word: &Vec<u8>)
        requires
            old(self).wf(),
        ensures
            final(self).wf(),
            final(self).message_count == old(self).message_count,
            final(self).high_water_mark == old(self).high_water_mark,
            forall|w: Seq<u8>| #[trigger] freq_of(final(self).words@, w) == if w == word@ {
                sat(freq_of(old(self).words@, w) + 1)
            } else {
                freq_of(old(self).words@, w)
            },
    {
        let mut i: usize = 0;
        while i < self.words.len()
            invariant
                0 <= i <= self.words@.len(),
                self.wf(),
                self.words@ == old(self).words@,
                self.message_count == old(self).message_count,
                self.high_water_mark == old(self).high_water_mark,
                forall|k: int| 0 <= k < i ==> word_at(self.words@, k) != word@,
            decreases self.words@.len() - i,
        {
            if bytes_eq(&self.words[i].0, word) {
                let c = self.words[i].1;
                let w = self.words[i].0.clone();
                let n = c.saturating_add(1);
                proof {
                    assert(w@ == word_at(self.words@, i as int));
                }
                self.words.set(i, (w, n));
                let ghost ow = old(self).words@;
                let ghost nw = self.words@;
                assert(forall|k: int| 0 <= k < nw.len() ==> word_at(nw, k) == word_at(ow, k));
                assert forall|v: Seq<u8>| #[trigger] freq_of(nw, v) == if v == word@ {
                    sat(freq_of(ow, v) + 1)
                } else {
                    freq_of(ow, v)
                } by {
                    if has_word(nw, v) {
                        let j = choose|j: int| 0 <= j < nw.len() && word_at(nw, j) == v;
                        lemma_freq_at(nw, j);
                        lemma_freq_at(ow, j);
                    } else {
                        if has_word(ow, v) {
                            let j = choose|j: int| 0 <= j < ow.len() && word_at(ow, j) == v;
                            assert(word_at(nw, j) == v);
                        }
                        assert(word_at(nw, i as int) == word@);
                    }
                }
                return;
            }
            i = i + 1;
        }
        let w = word.clone();
        self.words.push((w, 1));
        let ghost ow = old(self).words@;
        let ghost nw = self.words@;
        assert(forall|k: int| 0 <= k < ow.len() ==> word_at(nw, k) == word_at(ow, k));
        assert(word_at(nw, ow.len() as int) == word@);
        assert forall|v: Seq<u8>| #[trigger] freq_of(nw, v) == if v == word@ {
            sat(freq_of(ow, v) + 1)
        } else {
            freq_of(ow, v)
        } by {
            if v == word@ {
                lemma_freq_at(nw, ow.len() as int);
                assert(!has_word(ow, v));
            } else if has_word(nw, v) {
                let j = choose|j: int| 0 <= j < nw.len() && word_at(nw, j) == v;
                lemma_freq_at(nw, j);
                lemma_freq_at(ow, j);
            } else {
                if has_word(ow, v) {
                    let j = choose|j: int| 0 <= j < ow.len() && word_at(ow, j) == v;
                    assert(word_at(nw, j) == v);
                }
            }
        }
    }

    /// Applies one message: a message whose id is at or below the high-water mark is
    /// already accounted for and changes nothing; otherwise the message is counted,
    /// each of its words is counted, and its id becomes the high-water mark.
    pub fn update(&mut self, id: u64, tokens: &Vec<Vec<u8>>)
        requires
            old(self).wf(),
        ensures
            final(self).wf(),
            final(self)@ == step(old(self)@, id, tokens@),
            id <= old(self).high_water_mark ==> final(self).words@ == old(self).words@
                && final(self).message_count == old(self).message_count
                && final(self).high_water_mark == old(self).high_water_mark,
    {
        if id <= self.high_water_mark {
            return;
        }
        self.message_count = self.message_count.saturating_add(1);
        let mut i: usize = 0;
        while i < tokens.len()
            invariant
                self.wf(),
                0 <= i <= tokens@.len(),
                self.high_water_mark == old(self).high_water_mark,
                self.message_count as nat == sat(old(self).message_count as nat + 1),
                forall|w: Seq<u8>| #[trigger] freq_of(self.words@, w) == sat(
                    freq_of(old(self).words@, w) + occ(tokens@.take(i as int), w),
                ),
            decreases tokens@.len() - i,
        {
            let ghost before = self.words@;
            self.count_word(&tokens[i]);
            proof {
                assert(tokens@.take(i + 1).drop_last() =~= tokens@.take(i as int));
                assert forall|w: Seq<u8>| #[trigger] freq_of(self.words@, w) == sat(
                    freq_of(old(self).words@, w) + occ(tokens@.take(i + 1), w),
                ) by {
                    assert(freq_of(before, w) == sat(
                        freq_of(old(self).words@, w) + occ(tokens@.take(i as int), w)));
                }
            }
            i = i + 1;
        }
        self.high_water_mark = id;
        proof {
            assert(tokens@.take(tokens@.len() as int) =~= tokens@);
            assert(self@.freq =~= step(old(self)@, id, tokens@).freq);
        }
    }
}

impl View for ChannelTracker {
    type V = TrackerModel;

    open spec fn view(&self) -> TrackerModel {
        TrackerModel {
            count: self.message_count as nat,
            mark: self.high_water_mark as nat,
            freq: Map::total(|w: Seq<u8>| freq_of(self.words@, w)),
        }
    }
}

} // verus!
