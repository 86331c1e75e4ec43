use vstd::prelude::*;

use crate::text::strings_of;

verus! {

/// Most access timestamps kept per record.
pub const HISTORY_CAP: usize = 10;

/// One second, in the microsecond unit used for all timestamps.
pub const SECOND: i64 = 1_000_000;

/// Abstract value of a record: its tags and its access history.
pub ghost struct RecordModel {
    pub tags: Seq<Seq<char>>,
    pub times: Seq<i64>,
}

/// Weight that one access of the given age (in microseconds) adds to a score.
pub open spec fn tier_weight(age: int) -> nat {
    if age < 60 * SECOND {
        100
    } else if age < 30 * 60 * SECOND {
        80
    } else if age < 60 * 60 * SECOND {
        60
    } else if age < 24 * 60 * 60 * SECOND {
        40
    } else if age < 7 * 24 * 60 * 60 * SECOND {
        20
    } else {
        10
    }
}

/// Sum of the tier weights of every timestamp, measured against `now`.
pub open spec fn frecency(times: Seq<i64>, now: i64) -> nat
    decreases times.len(),
{
    if times.len() == 0 {
        0
    } else {
        frecency(times.drop_last(), now) + tier_weight(now - times.last())
    }
}

/// The at most `HISTORY_CAP` most recent entries of a history, oldest first.
pub open spec fn last_ten(s: Seq<i64>) -> Seq<i64> {
    if s.len() > HISTORY_CAP {
        s.subrange(s.len() - HISTORY_CAP, s.len() as int)
    } else {
        s
    }
}

/// History after one more access at `now`.
pub open spec fn with_access(times: Seq<i64>, now: i64) -> Seq<i64> {
    last_ten(times.push(now))
}

/// Weight of one access whose age, in microseconds, is `age`.
pub fn access_weight(age: i128) -> (r: u64)
    ensures
        r == tier_weight(age as int),
{
    if age < 60 * (SECOND as i128) {
        100
    } else if age < 30 * 60 * (SECOND as i128) {
        80
    } else if age < 60 * 60 * (SECOND as i128) {
        60
    } else if age < 24 * 60 * 60 * (SECOND as i128) {
        40
    } else if age < 7 * 24 * 60 * 60 * (SECOND as i128) {
        20
    } else {
        10
    }
}

/// History after a series of accesses at the given times, one after another.
pub open spec fn replay(times: Seq<i64>, news: Seq<i64>) -> Seq<i64>
    decreases news.len(),
{
    if news.len() == 0 {
        times
    } else {
        replay(with_access(times, news[0]), news.drop_first())
    }
}

/// Truncating early and truncating late keep the same most recent entries.
proof fn lemma_last_ten_absorbs(a: Seq<i64>, b: Seq<i64>)
    ensures
        last_ten(last_ten(a) + b) == last_ten(a + b),
{
    if a.len() > HISTORY_CAP {
        let c = last_ten(a) + b;
        let d = a + b;
        assert(last_ten(c) =~= last_ten(d)) by {
            if b.len() > 0 {
                assert forall|k: int| 0 <= k < HISTORY_CAP implies last_ten(c)[k] == last_ten(d)[k] by {
                    if b.len() + k < HISTORY_CAP {
                        assert(c[b.len() + k] == a[a.len() - HISTORY_CAP + b.len() + k]);
                    } else {
                        assert(c[b.len() + k] == b[b.len() + k - HISTORY_CAP]);
                    }
                }
            }
        }
    } else {
        assert(last_ten(a) == a);
    }
}

/// Bounded history: after any series of accesses, the history holds exactly
/// the most recent entries (at most `HISTORY_CAP`), oldest first; once at
/// least `HISTORY_CAP` accesses have been recorded in all, it holds exactly
/// `HISTORY_CAP` of them.
pub proof fn lemma_bounded_history(start: Seq<i64>, news: Seq<i64>)
    requires
        start.len() <= HISTORY_CAP,
    ensures
        replay(start, news) == last_ten(start + news),
        replay(start, news).len() <= HISTORY_CAP,
        start.len() + news.len() >= HISTORY_CAP ==> replay(start, news).len() == HISTORY_CAP,
    decreases news.len(),
{
    if news.len() == 0 {
        assert(start + news =~= start);
    } else {
        let next = with_access(start, news[0]);
        lemma_bounded_history(next, news.drop_first());
        lemma_last_ten_absorbs(start.push(news[0]), news.drop_first());
        assert(start.push(news[0]) + news.drop_first() =~= start + news);
    }
}

/// An access younger than a minute weighs 100, so a history of such accesses
/// scores 100 per entry.
pub proof fn lemma_fresh_score(times: Seq<i64>, now: i64)
    requires
        forall|k: int| 0 <= k < times.len() ==> now - #[trigger] times[k] < 60 * SECOND,
    ensures
        frecency(times, now) == 100 * times.len(),
    decreases times.len(),
{
    if times.len() > 0 {
        let rest = times.drop_last();
        assert forall|k: int| 0 <= k < rest.len() implies now - #[trigger] rest[k] < 60 * SECOND by {
            assert(rest[k] == times[k]);
        }
        lemma_fresh_score(rest, now);
        assert(now - times.last() < 60 * SECOND);
    }
}

/// More accesses, more score: two records created with one access each, where
/// the first then gets more recorded accesses than the second (and fewer than
/// the cap in all), score in that order as long as every access happened less
/// than a minute before `now`.
pub proof fn lemma_more_accesses_score_higher(a0: i64, news_a: Seq<i64>, b0: i64, news_b: Seq<i64>, now: i64)
    requires
        news_a.len() > news_b.len(),
        news_a.len() < HISTORY_CAP,
        now - a0 < 60 * SECOND,
        now - b0 < 60 * SECOND,
        forall|k: int| 0 <= k < news_a.len() ==> now - #[trigger] news_a[k] < 60 * SECOND,
        forall|k: int| 0 <= k < news_b.len() ==> now - #[trigger] news_b[k] < 60 * SECOND,
    ensures
        frecency(replay(seq![a0], news_a), now) > frecency(replay(seq![b0], news_b), now),
{
    lemma_bounded_history(seq![a0], news_a);
    lemma_bounded_history(seq![b0], news_b);
    let ha = seq![a0] + news_a;
    let hb = seq![b0] + news_b;
    assert(last_ten(ha) == ha);
    assert(last_ten(hb) == hb);
    assert forall|k: int| 0 <= k < ha.len() implies now - #[trigger] ha[k] < 60 * SECOND by {
        if k > 0 {
            assert(ha[k] == news_a[k - 1]);
        }
    }
    assert forall|k: int| 0 <= k < hb.len() implies now - #[trigger] hb[k] < 60 * SECOND by {
        if k > 0 {
            assert(hb[k] == news_b[k - 1]);
        }
    }
    lemma_fresh_score(ha, now);
    lemma_fresh_score(hb, now);
}

/// Usage history of one tracked repository.
#[derive(Debug)]
pub struct RepoAccess {
    pub tags: Vec<String>,
    pub access_times: Vec<i64>,
}

impl View for RepoAccess {
    type V = RecordModel;

    open spec fn view(&self) -> RecordModel {
        RecordModel { tags: strings_of(self.tags@), times: self.access_times@ }
    }
}

impl RepoAccess {
    /// The history holds at most `HISTORY_CAP` timestamps.
    pub open spec fn wf(&self) -> bool {
        self.access_times.len() <= HISTORY_CAP
    }

    /// A fresh record with the given tags and one access at `now`.
    pub fn new(tags: Vec<String>, now: i64) -> (r: Self)
        ensures
            r.tags == tags,
            r.access_times@ == seq![now],
            r.wf(),
    {
        let mut access_times: Vec<i64> = Vec::new();
        access_times.push(now);
        RepoAccess { tags, access_times }
    }

    /// Appends `now` to the history, keeping only the most recent entries.
    pub fn record_access(&mut self, now: i64)
        ensures
            final(self).tags == old(self).tags,
            final(self).access_times@ == with_access(old(self).access_times@, now),
            final(self).wf(),
    {
        self.access_times.push(now);
        self.keep_recent();
    }

    /// Drops the oldest timestamps beyond `HISTORY_CAP`.
    pub fn keep_recent(&mut self)
        ensures
            final(self).tags == old(self).tags,
            final(self).access_times@ == last_ten(old(self).access_times@),
            final(self).wf(),
    {
        let len = self.access_times.len();
        if len > HISTORY_CAP {
            let mut kept: Vec<i64> = Vec::new();
            let mut i: usize = len - HISTORY_CAP;
            while i < len
                invariant
                    len == self.access_times.len(),
                    len > HISTORY_CAP,
                    len - HISTORY_CAP <= i <= len,
                    kept@ == self.access_times@.subrange(len - HISTORY_CAP, i as int),
                decreases len - i,
            {
                kept.push(self.access_times[i]);
                i += 1;
            }
            self.access_times = kept;
        }
    }

    /// Replaces the tags wholesale and records an access at `now`.
    pub fn update_tags(&mut self, tags: Vec<String>, now: i64)
        ensures
            final(self).tags == tags,
            final(self).access_times@ == with_access(old(self).access_times@, now),
            final(self).wf(),
    {
        self.tags = tags;
        self.record_access(now);
    }

    /// Collapses the history to a single access at `now`.
    pub fn reset_frequency(&mut self, now: i64)
        ensures
            final(self).tags == old(self).tags,
            final(self).access_times@ == seq![now],
            final(self).wf(),
    {
        let mut access_times: Vec<i64> = Vec::new();
        access_times.push(now);
        self.access_times = access_times;
    }

    /// Sum of the tier weights of all recorded accesses, measured against `now`.
    pub fn calculate_frecency(&self, now: i64) -> (r: u64)
        requires
            self.wf(),
        ensures
            r == frecency(self.access_times@, now),
    {
        let mut score: u64 = 0;
        let mut i: usize = 0;
        let len = self.access_times.len();
        while i < len
            invariant
                len == self.access_times.len(),
                len <= HISTORY_CAP,
                i <= len,
                score == frecency(self.access_times@.subrange(0, i as int), now),
                score <= 100 * i,
            decreases len - i,
        {
            let t = self.access_times[i];
            let w = access_weight((now as i128) - (t as i128));
            proof {
                let prefix = self.access_times@.subrange(0, i + 1);
                assert(prefix.drop_last() =~= self.access_times@.subrange(0, i as int));
            }
            score = score + w;
            i += 1;
        }
        proof {
            assert(self.access_times@.subrange(0, len as int) =~= self.access_times@);
        }
        score
    }
}

} // verus!
