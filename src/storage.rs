use vstd::prelude::*;

use crate::access::{
    frecency, last_ten, lemma_bounded_history, lemma_fresh_score, replay, with_access, RecordModel, RepoAccess, HISTORY_CAP,
    SECOND,
};
use crate::paths::{absolute_of, to_absolute_path};
use crate::ordering::{lemma_text_order, text_before, text_less};
use crate::text::{opt_text, strings_of, tag_list_matches, tag_matches};

verus! {

/// Abstract value of the index: (path, record) pairs in insertion order.
pub type IndexModel = Seq<(Seq<char>, RecordModel)>;

/// Whether the index holds a record under `key`.
pub open spec fn has_key(m: IndexModel, key: Seq<char>) -> bool {
    exists|i: int| 0 <= i < m.len() && m[i].0 == key
}

/// No path occurs twice.
pub open spec fn keys_unique(m: IndexModel) -> bool {
    forall|i: int, j: int| 0 <= i < m.len() && 0 <= j < m.len() && i != j ==> m[i].0 != m[j].0
}

/// The record under `key` with one more access at `now`.
pub open spec fn touched(m: IndexModel, key: Seq<char>, now: i64) -> IndexModel {
    m.map_values(
        |e: (Seq<char>, RecordModel)|
            if e.0 == key {
                (e.0, RecordModel { tags: e.1.tags, times: with_access(e.1.times, now) })
            } else {
                e
            },
    )
}

/// The record under `key` with its tags replaced and one more access at `now`.
pub open spec fn retagged(m: IndexModel, key: Seq<char>, tags: Seq<Seq<char>>, now: i64) -> IndexModel {
    m.map_values(
        |e: (Seq<char>, RecordModel)|
            if e.0 == key {
                (e.0, RecordModel { tags: tags, times: with_access(e.1.times, now) })
            } else {
                e
            },
    )
}

/// The record under `key` with its history collapsed to one access at `now`.
pub open spec fn reset_one(m: IndexModel, key: Seq<char>, now: i64) -> IndexModel {
    m.map_values(
        |e: (Seq<char>, RecordModel)|
            if e.0 == key {
                (e.0, RecordModel { tags: e.1.tags, times: seq![now] })
            } else {
                e
            },
    )
}

/// Every record with its history collapsed to one access at `now`.
pub open spec fn reset_every(m: IndexModel, now: i64) -> IndexModel {
    m.map_values(
        |e: (Seq<char>, RecordModel)| (e.0, RecordModel { tags: e.1.tags, times: seq![now] }),
    )
}

/// The index after adding `key` with `tags` at `now`: a new record when the
/// path is unknown, otherwise its tags are replaced and an access recorded.
pub open spec fn added(m: IndexModel, key: Seq<char>, tags: Seq<Seq<char>>, now: i64) -> IndexModel {
    if has_key(m, key) {
        retagged(m, key, tags, now)
    } else {
        m.push((key, RecordModel { tags: tags, times: seq![now] }))
    }
}

/// The index after storing `rec` under `key` as given, history truncated.
pub open spec fn inserted(m: IndexModel, key: Seq<char>, rec: RecordModel) -> IndexModel {
    let r = RecordModel { tags: rec.tags, times: last_ten(rec.times) };
    if has_key(m, key) {
        m.map_values(|e: (Seq<char>, RecordModel)| if e.0 == key { (key, r) } else { e })
    } else {
        m.push((key, r))
    }
}

/// The entries whose flag is set, in their order in the input.
pub open spec fn kept(m: IndexModel, flags: Seq<bool>) -> IndexModel
    decreases m.len(),
{
    if m.len() == 0 {
        m
    } else {
        let rest = kept(m.drop_first(), flags.drop_first());
        if flags[0] {
            seq![m[0]] + rest
        } else {
            rest
        }
    }
}

/// `e` is an entry of `m` whose flag is set.
pub open spec fn flagged_in(m: IndexModel, flags: Seq<bool>, e: (Seq<char>, RecordModel)) -> bool {
    exists|j: int| 0 <= j < m.len() && flags[j] && m[j] == e
}

/// `e` is an entry of `s`.
pub open spec fn occurs_in(s: IndexModel, e: (Seq<char>, RecordModel)) -> bool {
    exists|k: int| 0 <= k < s.len() && s[k] == e
}

/// Filtering by flags keeps exactly the flagged entries, in order, with unique paths.
pub proof fn lemma_kept(m: IndexModel, flags: Seq<bool>)
    requires
        flags.len() == m.len(),
        keys_unique(m),
    ensures
        keys_unique(kept(m, flags)),
        forall|k: int| 0 <= k < kept(m, flags).len() ==> flagged_in(m, flags, #[trigger] kept(m, flags)[k]),
        forall|j: int| 0 <= j < m.len() && flags[j] ==> occurs_in(kept(m, flags), #[trigger] m[j]),
    decreases m.len(),
{
    if m.len() > 0 {
        let tail = m.drop_first();
        let ft = flags.drop_first();
        assert(keys_unique(tail)) by {
            assert forall|i: int, j: int| 0 <= i < tail.len() && 0 <= j < tail.len() && i != j implies tail[i].0 != tail[j].0 by {
                assert(tail[i] == m[i + 1] && tail[j] == m[j + 1]);
            }
        }
        lemma_kept(tail, ft);
        let rest = kept(tail, ft);
        let out = kept(m, flags);
        assert forall|k: int| 0 <= k < rest.len() implies rest[k].0 != m[0].0 by {
            assert(flagged_in(tail, ft, rest[k]));
            let j = choose|j: int| 0 <= j < tail.len() && ft[j] && tail[j] == rest[k];
            assert(tail[j] == m[j + 1]);
        }
        if flags[0] {
            assert(out == seq![m[0]] + rest);
            assert forall|k: int| 0 <= k < out.len() implies flagged_in(m, flags, #[trigger] out[k]) by {
                if k == 0 {
                    assert(out[0] == m[0]);
                } else {
                    assert(flagged_in(tail, ft, rest[k - 1]));
                    let j = choose|j: int| 0 <= j < tail.len() && ft[j] && tail[j] == rest[k - 1];
                    assert(out[k] == m[j + 1] && flags[j + 1]);
                }
            }
            assert forall|j: int| 0 <= j < m.len() && flags[j] implies occurs_in(out, #[trigger] m[j]) by {
                if j == 0 {
                    assert(out[0] == m[0]);
                } else {
                    assert(m[j] == tail[j - 1] && ft[j - 1]);
                    assert(occurs_in(rest, tail[j - 1]));
                    let k = choose|k: int| 0 <= k < rest.len() && rest[k] == tail[j - 1];
                    assert(out[k + 1] == m[j]);
                }
            }
            assert forall|a: int, b: int| 0 <= a < out.len() && 0 <= b < out.len() && a != b implies out[a].0 != out[b].0 by {
                if a == 0 {
                    assert(out[b] == rest[b - 1]);
                } else if b == 0 {
                    assert(out[a] == rest[a - 1]);
                } else {
                    assert(out[a] == rest[a - 1] && out[b] == rest[b - 1]);
                }
            }
        } else {
            assert(out == rest);
            assert forall|k: int| 0 <= k < out.len() implies flagged_in(m, flags, #[trigger] out[k]) by {
                assert(flagged_in(tail, ft, rest[k]));
                let j = choose|j: int| 0 <= j < tail.len() && ft[j] && tail[j] == rest[k];
                assert(out[k] == m[j + 1] && flags[j + 1]);
            }
            assert forall|j: int| 0 <= j < m.len() && flags[j] implies occurs_in(out, #[trigger] m[j]) by {
                assert(j != 0);
                assert(m[j] == tail[j - 1] && ft[j - 1]);
                assert(occurs_in(rest, tail[j - 1]));
            }
        }
    }
}

/// Frecency of the record at position `i`, measured against `now`.
pub open spec fn score_at(m: IndexModel, i: int, now: i64) -> nat {
    frecency(m[i].1.times, now)
}

/// Position `i` is listed before position `j`: a higher score first, and on
/// equal scores the path that comes first in lexicographic order.
pub open spec fn ranks_before(m: IndexModel, now: i64, i: int, j: int) -> bool {
    ||| score_at(m, i, now) > score_at(m, j, now)
    ||| (score_at(m, i, now) == score_at(m, j, now) && text_before(m[i].0, m[j].0))
}

/// Listing order is a strict total order on the positions of an index with
/// unique paths.
pub proof fn lemma_ranks_before_order(m: IndexModel, now: i64)
    requires
        keys_unique(m),
    ensures
        forall|i: int| !#[trigger] ranks_before(m, now, i, i),
        forall|i: int, j: int| #[trigger] ranks_before(m, now, i, j) ==> !ranks_before(m, now, j, i),
        forall|i: int, j: int| 0 <= i < m.len() && 0 <= j < m.len() && i != j ==>
            #[trigger] ranks_before(m, now, i, j) || #[trigger] ranks_before(m, now, j, i),
        forall|i: int, j: int, k: int|
            #[trigger] ranks_before(m, now, i, j) && #[trigger] ranks_before(m, now, j, k) ==> ranks_before(m, now, i, k),
{
    lemma_text_order();
}

/// `order` lists exactly the positions of the records that match `query`,
/// each once, from the best score down.
pub open spec fn is_ranking(m: IndexModel, query: Seq<char>, now: i64, order: Seq<int>) -> bool {
    &&& forall|k: int| 0 <= k < order.len() ==> 0 <= #[trigger] order[k] < m.len() && tag_matches(m[order[k]].1.tags, query)
    &&& forall|i: int| 0 <= i < m.len() && tag_matches(#[trigger] m[i].1.tags, query) ==> order.contains(i)
    &&& forall|k: int, l: int| 0 <= k < l < order.len() ==> ranks_before(m, now, #[trigger] order[k], #[trigger] order[l])
}

/// The paths at the given positions.
pub open spec fn paths_at(m: IndexModel, order: Seq<int>) -> Seq<Seq<char>> {
    order.map_values(|i: int| m[i].0)
}

/// Every record that matches `query` with one more access at `now`.
pub open spec fn touched_matching(m: IndexModel, query: Seq<char>, now: i64) -> IndexModel {
    m.map_values(
        |e: (Seq<char>, RecordModel)|
            if tag_matches(e.1.tags, query) {
                (e.0, RecordModel { tags: e.1.tags, times: with_access(e.1.times, now) })
            } else {
                e
            },
    )
}

/// Position `j` is among the entries of a partial ranking.
pub open spec fn listed(r: Seq<(u64, usize)>, j: int) -> bool {
    exists|k: int| 0 <= k < r.len() && r[k].1 == j
}

/// Adding twice: adding an untracked path creates it (the call reports a new
/// path); adding it again reports a known path, and its tags are then exactly
/// the second list (replaced, not merged), with one access per call.
pub proof fn lemma_add_twice(m: IndexModel, key: Seq<char>, t1: Seq<Seq<char>>, t2: Seq<Seq<char>>, n1: i64, n2: i64)
    requires
        keys_unique(m),
        !has_key(m, key),
    ensures
        has_key(added(m, key, t1, n1), key),
        added(added(m, key, t1, n1), key, t2, n2).len() == m.len() + 1,
        added(added(m, key, t1, n1), key, t2, n2)[m.len() as int] == (key, RecordModel { tags: t2, times: seq![n1, n2] }),
{
    let once = added(m, key, t1, n1);
    assert(once[m.len() as int].0 == key);
    let twice = added(once, key, t2, n2);
    assert(with_access(seq![n1], n2) =~= seq![n1, n2]);
    assert(twice[m.len() as int] == (key, RecordModel { tags: t2, times: seq![n1, n2] }));
}

/// Reset leaves one entry: after resetting one path, or every path, each
/// reset record's history holds exactly one timestamp, whatever it held before.
pub proof fn lemma_reset_leaves_one(m: IndexModel, key: Seq<char>, now: i64)
    ensures
        forall|i: int| 0 <= i < m.len() && m[i].0 == key ==> (#[trigger] reset_one(m, key, now)[i]).1.times.len() == 1,
        forall|i: int| 0 <= i < m.len() ==> (#[trigger] reset_every(m, now)[i]).1.times.len() == 1,
        reset_every(m, now).len() == m.len(),
{
}

/// A better score ranks first: in any ranking, a record with a strictly
/// higher frecency comes before one with a lower frecency.
pub proof fn lemma_higher_score_first(m: IndexModel, query: Seq<char>, now: i64, order: Seq<int>, k: int, l: int)
    requires
        is_ranking(m, query, now, order),
        0 <= k < order.len(),
        0 <= l < order.len(),
        score_at(m, order[k], now) > score_at(m, order[l], now),
    ensures
        k < l,
{
    if l < k {
        assert(ranks_before(m, now, order[l], order[k]));
    }
}

/// Paths are unique and every history is within the cap.
pub open spec fn index_wf(m: IndexModel) -> bool {
    &&& keys_unique(m)
    &&& forall|i: int| 0 <= i < m.len() ==> (#[trigger] m[i]).1.times.len() <= crate::access::HISTORY_CAP
}

/// The index after storing each entry in turn, as `insert` does.
pub open spec fn inserted_all(m: IndexModel, es: IndexModel) -> IndexModel
    decreases es.len(),
{
    if es.len() == 0 {
        m
    } else {
        inserted(inserted_all(m, es.drop_last()), es.last().0, es.last().1)
    }
}

/// Rebuilding from entries: storing the entries of a well-formed index, in
/// order, into an empty index gives back the same index, paths, tags and
/// timestamps alike.
pub proof fn lemma_entries_round_trip(m: IndexModel)
    requires
        index_wf(m),
    ensures
        inserted_all(Seq::empty(), m) == m,
    decreases m.len(),
{
    if m.len() > 0 {
        let init = m.drop_last();
        assert(index_wf(init)) by {
            assert forall|i: int| 0 <= i < init.len() implies (#[trigger] init[i]).1.times.len() <= crate::access::HISTORY_CAP by {
                assert(init[i] == m[i]);
            }
            assert forall|i: int, j: int| 0 <= i < init.len() && 0 <= j < init.len() && i != j implies init[i].0 != init[j].0 by {
                assert(init[i] == m[i] && init[j] == m[j]);
            }
        }
        lemma_entries_round_trip(init);
        let last = m.last();
        assert(!has_key(init, last.0)) by {
            if has_key(init, last.0) {
                let i = choose|i: int| 0 <= i < init.len() && init[i].0 == last.0;
                assert(m[i].0 == m[m.len() - 1].0);
            }
        }
        assert(m[m.len() - 1].1.times.len() <= crate::access::HISTORY_CAP);
        assert(last_ten(last.1.times) == last.1.times);
        assert(init.push((last.0, RecordModel { tags: last.1.tags, times: last_ten(last.1.times) })) =~= m);
    }
}

/// Two lists of positions, each strictly ordered by `ranks_before`, that hold
/// the same positions are the same list.
proof fn lemma_sorted_unique(m: IndexModel, now: i64, o1: Seq<int>, o2: Seq<int>)
    requires
        forall|x: int| o1.contains(x) <==> o2.contains(x),
        forall|k: int, l: int| 0 <= k < l < o1.len() ==> ranks_before(m, now, #[trigger] o1[k], #[trigger] o1[l]),
        forall|k: int, l: int| 0 <= k < l < o2.len() ==> ranks_before(m, now, #[trigger] o2[k], #[trigger] o2[l]),
    ensures
        o1 == o2,
    decreases o1.len(),
{
    lemma_text_order();
    if o1.len() == 0 {
        if o2.len() > 0 {
            assert(o2.contains(o2[0]));
        }
        assert(o1 =~= o2);
    } else {
        assert(o1.contains(o1[0]));
        let q = choose|q: int| 0 <= q < o2.len() && o2[q] == o1[0];
        assert(o2.contains(o2[0]));
        let p = choose|p: int| 0 <= p < o1.len() && o1[p] == o2[0];
        if o1[0] != o2[0] {
            assert(p > 0 && q > 0);
            assert(ranks_before(m, now, o1[0], o1[p]));
            assert(ranks_before(m, now, o2[0], o2[q]));
            assert(false);
        }
        let t1 = o1.drop_first();
        let t2 = o2.drop_first();
        assert forall|x: int| t1.contains(x) <==> t2.contains(x) by {
            if t1.contains(x) {
                let k = choose|k: int| 0 <= k < t1.len() && t1[k] == x;
                assert(o1[k + 1] == x);
                assert(ranks_before(m, now, o1[0], o1[k + 1]));
                assert(o2.contains(x));
                let j = choose|j: int| 0 <= j < o2.len() && o2[j] == x;
                assert(j != 0);
                assert(t2[j - 1] == x);
            }
            if t2.contains(x) {
                let k = choose|k: int| 0 <= k < t2.len() && t2[k] == x;
                assert(o2[k + 1] == x);
                assert(ranks_before(m, now, o2[0], o2[k + 1]));
                assert(o1.contains(x));
                let j = choose|j: int| 0 <= j < o1.len() && o1[j] == x;
                assert(j != 0);
                assert(t1[j - 1] == x);
            }
        }
        assert forall|k: int, l: int| 0 <= k < l < t1.len() implies ranks_before(m, now, #[trigger] t1[k], #[trigger] t1[l]) by {
            assert(t1[k] == o1[k + 1] && t1[l] == o1[l + 1]);
        }
        assert forall|k: int, l: int| 0 <= k < l < t2.len() implies ranks_before(m, now, #[trigger] t2[k], #[trigger] t2[l]) by {
            assert(t2[k] == o2[k + 1] && t2[l] == o2[l + 1]);
        }
        lemma_sorted_unique(m, now, t1, t2);
        assert(o1 =~= seq![o1[0]] + t1);
        assert(o2 =~= seq![o2[0]] + t2);
    }
}

/// The ranking is determined: two rankings of the same query against the
/// same index at the same time are the same list, so a search has exactly one
/// correct answer.
pub proof fn lemma_ranking_unique(m: IndexModel, query: Seq<char>, now: i64, o1: Seq<int>, o2: Seq<int>)
    requires
        is_ranking(m, query, now, o1),
        is_ranking(m, query, now, o2),
    ensures
        o1 == o2,
{
    assert forall|x: int| o1.contains(x) <==> o2.contains(x) by {
        if o1.contains(x) {
            let k = choose|k: int| 0 <= k < o1.len() && o1[k] == x;
            assert(0 <= o1[k] < m.len() && tag_matches(m[o1[k]].1.tags, query));
        }
        if o2.contains(x) {
            let k = choose|k: int| 0 <= k < o2.len() && o2[k] == x;
            assert(0 <= o2[k] < m.len() && tag_matches(m[o2[k]].1.tags, query));
        }
    }
    lemma_sorted_unique(m, now, o1, o2);
}

/// The index after accesses to `key` at each of the given times in turn.
pub open spec fn touched_all(m: IndexModel, key: Seq<char>, ts: Seq<i64>) -> IndexModel
    decreases ts.len(),
{
    if ts.len() == 0 {
        m
    } else {
        touched_all(touched(m, key, ts[0]), key, ts.drop_first())
    }
}

/// Repeated accesses to one path replay its history and change nothing else of it.
proof fn lemma_touched_all_entry(m: IndexModel, key: Seq<char>, ts: Seq<i64>, i: int)
    requires
        0 <= i < m.len(),
        m[i].0 == key,
    ensures
        touched_all(m, key, ts).len() == m.len(),
        touched_all(m, key, ts)[i] == (key, RecordModel { tags: m[i].1.tags, times: replay(m[i].1.times, ts) }),
    decreases ts.len(),
{
    if ts.len() > 0 {
        let m1 = touched(m, key, ts[0]);
        assert(m1[i] == (key, RecordModel { tags: m[i].1.tags, times: with_access(m[i].1.times, ts[0]) }));
        lemma_touched_all_entry(m1, key, ts.drop_first(), i);
    }
}

/// Bounded history in the index: after any series of recorded accesses to a
/// tracked path, its record holds exactly the most recent timestamps (at most
/// `HISTORY_CAP`), oldest first, and exactly `HISTORY_CAP` of them once that
/// many accesses have been recorded in all.
pub proof fn lemma_index_bounded_history(m: IndexModel, key: Seq<char>, ts: Seq<i64>, i: int)
    requires
        0 <= i < m.len(),
        m[i].0 == key,
        m[i].1.times.len() <= HISTORY_CAP,
    ensures
        touched_all(m, key, ts)[i].1.times == last_ten(m[i].1.times + ts),
        touched_all(m, key, ts)[i].1.times.len() <= HISTORY_CAP,
        m[i].1.times.len() + ts.len() >= HISTORY_CAP ==> touched_all(m, key, ts)[i].1.times.len() == HISTORY_CAP,
{
    lemma_touched_all_entry(m, key, ts, i);
    lemma_bounded_history(m[i].1.times, ts);
}

/// Accesses to one path leave the records of other paths as they are.
proof fn lemma_touched_all_other(m: IndexModel, key: Seq<char>, ts: Seq<i64>, j: int)
    requires
        0 <= j < m.len(),
        m[j].0 != key,
    ensures
        touched_all(m, key, ts).len() == m.len(),
        touched_all(m, key, ts)[j] == m[j],
    decreases ts.len(),
{
    if ts.len() > 0 {
        lemma_touched_all_other(touched(m, key, ts[0]), key, ts.drop_first(), j);
    }
}

/// More accesses rank first: two tracked paths with the same tags and one
/// access each; the first then gets more recorded accesses than the second
/// (fewer than `HISTORY_CAP - 1` in all, so that the search's own access still
/// fits), every access less than a minute before `now`. A search at `now` on
/// a tag they share scores the first higher and lists it before the second.
pub proof fn lemma_index_more_accesses_rank_first(
    m: IndexModel,
    query: Seq<char>,
    now: i64,
    i: int,
    j: int,
    tsa: Seq<i64>,
    tsb: Seq<i64>,
    order: Seq<int>,
    k: int,
    l: int,
)
    requires
        0 <= i < m.len(),
        0 <= j < m.len(),
        m[i].0 != m[j].0,
        m[i].1.tags == m[j].1.tags,
        tag_matches(m[i].1.tags, query),
        m[i].1.times.len() == 1,
        m[j].1.times.len() == 1,
        now - m[i].1.times[0] < 60 * SECOND,
        now - m[j].1.times[0] < 60 * SECOND,
        tsa.len() > tsb.len(),
        tsa.len() < HISTORY_CAP - 1,
        forall|x: int| 0 <= x < tsa.len() ==> now - #[trigger] tsa[x] < 60 * SECOND,
        forall|x: int| 0 <= x < tsb.len() ==> now - #[trigger] tsb[x] < 60 * SECOND,
        is_ranking(touched_matching(touched_all(touched_all(m, m[i].0, tsa), m[j].0, tsb), query, now), query, now, order),
        0 <= k < order.len() && order[k] == i,
        0 <= l < order.len() && order[l] == j,
    ensures
        score_at(touched_matching(touched_all(touched_all(m, m[i].0, tsa), m[j].0, tsb), query, now), i, now)
            > score_at(touched_matching(touched_all(touched_all(m, m[i].0, tsa), m[j].0, tsb), query, now), j, now),
        k < l,
{
    let ka = m[i].0;
    let kb = m[j].0;
    let m1 = touched_all(m, ka, tsa);
    lemma_touched_all_entry(m, ka, tsa, i);
    lemma_touched_all_other(m, ka, tsa, j);
    let m2 = touched_all(m1, kb, tsb);
    lemma_touched_all_entry(m1, kb, tsb, j);
    lemma_touched_all_other(m1, kb, tsb, i);
    let f = touched_matching(m2, query, now);
    lemma_bounded_history(m[i].1.times, tsa);
    lemma_bounded_history(m[j].1.times, tsb);
    let ha = m[i].1.times + tsa;
    let hb = m[j].1.times + tsb;
    assert(last_ten(ha) == ha);
    assert(last_ten(hb) == hb);
    assert(m2[i].1.tags == m[i].1.tags);
    assert(m2[j].1.tags == m[j].1.tags);
    assert(f[i].1.times == with_access(ha, now));
    assert(f[j].1.times == with_access(hb, now));
    let fa = ha.push(now);
    let fb = hb.push(now);
    assert(last_ten(fa) == fa);
    assert(last_ten(fb) == fb);
    assert forall|x: int| 0 <= x < fa.len() implies now - #[trigger] fa[x] < 60 * SECOND by {
        if 0 < x < fa.len() - 1 {
            assert(fa[x] == tsa[x - 1]);
        }
    }
    assert forall|x: int| 0 <= x < fb.len() implies now - #[trigger] fb[x] < 60 * SECOND by {
        if 0 < x < fb.len() - 1 {
            assert(fb[x] == tsb[x - 1]);
        }
    }
    lemma_fresh_score(fa, now);
    lemma_fresh_score(fb, now);
    lemma_higher_score_first(f, query, now, order, k, l);
}

/// Errors reported by index operations and by loading or saving the index.
#[derive(Debug, PartialEq, Eq)]
pub enum StorageError {
    /// `add` targeted a path that does not exist on the file system.
    PathNotFound(String),
    /// A relative path was given and the working directory is unknown.
    PathResolution,
    /// The persisted document could not be parsed.
    CorruptState(String),
    /// Reading or writing the backing file failed.
    Io(String),
    /// No repository has the given name.
    RepositoryNotFound(String),
    /// The path holds no `.git` directory.
    NotAGitRepository(String),
    /// No name was given and the path has no last component to take it from.
    NoRepositoryName,
}

impl StorageError {
    /// A short description of the error.
    pub fn describe(&self) -> String {
        match self {
            StorageError::PathNotFound(_) => "path does not exist".to_owned(),
            StorageError::PathResolution => "could not determine the current directory".to_owned(),
            StorageError::CorruptState(_) => "failed to parse the stored index".to_owned(),
            StorageError::Io(_) => "failed to read or write the index file".to_owned(),
            StorageError::RepositoryNotFound(_) => "repository not found".to_owned(),
            StorageError::NotAGitRepository(_) => "path is not a Git repository".to_owned(),
            StorageError::NoRepositoryName => "could not determine repository name from path".to_owned(),
        }
    }
}

/// Relies on std::path::Path::exists: whether the file system holds an entry
/// at `path` when it is asked. Nothing is promised about the answer.
#[verifier::external_body]
pub(crate) fn path_exists(path: &str) -> bool {
    std::path::Path::new(path).exists()
}

/// Relies on chrono's conversion `From<SystemTime> for DateTime<Utc>`, which
/// also takes clock readings before the Unix epoch: the current time, in
/// microseconds since the epoch. Nothing is promised about its value.
#[verifier::external_body]
pub(crate) fn current_time() -> i64 {
    chrono::DateTime::<chrono::Utc>::from(std::time::SystemTime::now()).timestamp_micros()
}

/// The index: one usage record per canonical repository path.
#[derive(Debug)]
pub struct Storage {
    repos: Vec<(String, RepoAccess)>,
}

impl View for Storage {
    type V = IndexModel;

    closed spec fn view(&self) -> IndexModel {
        self.repos@.map_values(|e: (String, RepoAccess)| (e.0@, e.1@))
    }
}

impl Storage {
    /// Paths are unique and every history is within bounds.
    pub open spec fn wf(&self) -> bool {
        index_wf(self@)
    }

    /// An empty index.
    pub fn new_empty() -> (r: Self)
        ensures
            r@ == Seq::<(Seq<char>, RecordModel)>::empty(),
            r.wf(),
    {
        Storage { repos: Vec::new() }
    }

    /// Number of tracked paths.
    pub fn len(&self) -> (r: usize)
        ensures
            r == self@.len(),
    {
        self.repos.len()
    }

    /// Position of the record stored under `key`, if any.
    pub fn find(&self, key: &str) -> (r: Option<usize>)
        ensures
            match r {
                Some(i) => i < self@.len() && self@[i as int].0 == key@,
                None => !has_key(self@, key@),
            },
    {
        let k = key.to_owned();
        let mut i: usize = 0;
        while i < self.repos.len()
            invariant
                i <= self.repos.len(),
                k@ == key@,
                forall|j: int| 0 <= j < i ==> self@[j].0 != key@,
            decreases self.repos.len() - i,
        {
            if self.repos[i].0 == k {
                return Some(i);
            }
            i += 1;
        }
        None
    }

    /// Whether a record is stored under `key`.
    pub fn contains_key(&self, key: &str) -> (r: bool)
        ensures
            r == has_key(self@, key@),
    {
        self.find(key).is_some()
    }

    /// The record stored under `key`, if any.
    pub fn get(&self, key: &str) -> (r: Option<&RepoAccess>)
        ensures
            match r {
                Some(a) => exists|i: int| 0 <= i < self@.len() && self@[i] == (key@, a@),
                None => !has_key(self@, key@),
            },
    {
        match self.find(key) {
            Some(i) => Some(&self.repos[i].1),
            None => None,
        }
    }

    /// Records an access at `now` to the record under `key`; false when there is none.
    pub fn record_access_at(&mut self, key: &str, now: i64) -> (r: bool)
        requires
            old(self).wf(),
        ensures
            final(self).wf(),
            r == has_key(old(self)@, key@),
            final(self)@ == touched(old(self)@, key@, now),
    {
        match self.find(key) {
            Some(i) => {
                let ghost before = self@;
                self.repos[i].1.record_access(now);
                proof {
                    assert(self@ =~= touched(before, key@, now));
                }
                true
            },
            None => {
                proof {
                    assert(self@ =~= touched(self@, key@, now));
                }
                false
            },
        }
    }

    /// Replaces the tags of the record under `key` and records an access at
    /// `now`; false, with nothing changed, when there is no such record.
    pub fn update_at(&mut self, key: &str, tags: Vec<String>, now: i64) -> (r: bool)
        requires
            old(self).wf(),
        ensures
            final(self).wf(),
            r == has_key(old(self)@, key@),
            final(self)@ == retagged(old(self)@, key@, strings_of(tags@), now),
    {
        match self.find(key) {
            Some(i) => {
                let ghost before = self@;
                self.repos[i].1.update_tags(tags, now);
                proof {
                    assert(self@ =~= retagged(before, key@, strings_of(tags@), now));
                }
                true
            },
            None => {
                proof {
                    assert(self@ =~= retagged(self@, key@, strings_of(tags@), now));
                }
                false
            },
        }
    }

    /// Adds `key` with `tags` at `now`. True when the path was new and a record
    /// was created; false when it was known, its tags replaced and an access
    /// recorded.
    pub fn add_at(&mut self, key: String, tags: Vec<String>, now: i64) -> (r: bool)
        requires
            old(self).wf(),
        ensures
            final(self).wf(),
            r == !has_key(old(self)@, key@),
            final(self)@ == added(old(self)@, key@, strings_of(tags@), now),
    {
        match self.find(key.as_str()) {
            Some(i) => {
                let ghost before = self@;
                self.repos[i].1.update_tags(tags, now);
                proof {
                    assert(self@ =~= retagged(before, key@, strings_of(tags@), now));
                }
                false
            },
            None => {
                let ghost before = self@;
                let ghost tm = strings_of(tags@);
                let rec = RepoAccess::new(tags, now);
                self.repos.push((key, rec));
                proof {
                    assert(self@ =~= before.push((key@, RecordModel { tags: tm, times: seq![now] })));
                }
                true
            },
        }
    }

    /// Collapses the history of the record under `key` to one access at `now`;
    /// false when there is no such record.
    pub fn reset_one_at(&mut self, key: &str, now: i64) -> (r: bool)
        requires
            old(self).wf(),
        ensures
            final(self).wf(),
            r == has_key(old(self)@, key@),
            final(self)@ == reset_one(old(self)@, key@, now),
    {
        match self.find(key) {
            Some(i) => {
                let ghost before = self@;
                self.repos[i].1.reset_frequency(now);
                proof {
                    assert(self@ =~= reset_one(before, key@, now));
                }
                true
            },
            None => {
                proof {
                    assert(self@ =~= reset_one(self@, key@, now));
                }
                false
            },
        }
    }

    /// Collapses every history to one access at `now`; returns the number of records.
    pub fn reset_all_at(&mut self, now: i64) -> (r: usize)
        requires
            old(self).wf(),
        ensures
            final(self).wf(),
            r == old(self)@.len(),
            final(self)@ == reset_every(old(self)@, now),
    {
        let ghost before = self@;
        let len = self.repos.len();
        let mut i: usize = 0;
        while i < len
            invariant
                len == self.repos.len(),
                len == before.len(),
                i <= len,
                forall|j: int| 0 <= j < i ==> self@[j] == reset_every(before, now)[j],
                forall|j: int| i <= j < len ==> self@[j] == before[j],
            decreases len - i,
        {
            self.repos[i].1.reset_frequency(now);
            i += 1;
        }
        proof {
            assert(self@ =~= reset_every(before, now));
        }
        len
    }

    /// Removes the record under `key`; false when there was none.
    pub fn remove_key(&mut self, key: &str) -> (r: bool)
        requires
            old(self).wf(),
        ensures
            final(self).wf(),
            r == has_key(old(self)@, key@),
            r ==> exists|i: int|
                0 <= i < old(self)@.len() && old(self)@[i].0 == key@ && final(self)@ == old(self)@.remove(i),
            !r ==> final(self)@ == old(self)@,
            !has_key(final(self)@, key@),
    {
        match self.find(key) {
            Some(i) => {
                let ghost before = self@;
                self.repos.remove(i);
                proof {
                    assert(self@ =~= before.remove(i as int));
                }
                true
            },
            None => false,
        }
    }

    /// Keeps exactly the records whose flag is set (flags follow the index
    /// order): a path whose flag is clear is no longer tracked afterwards.
    pub fn retain_flagged(&mut self, flags: &Vec<bool>)
        requires
            old(self).wf(),
            flags.len() == old(self)@.len(),
        ensures
            final(self).wf(),
            final(self)@ == kept(old(self)@, flags@),
            forall|j: int| 0 <= j < old(self)@.len() ==>
                (has_key(final(self)@, #[trigger] old(self)@[j].0) <==> flags@[j]),
    {
        let ghost m = self@;
        let ghost f = flags@;
        let n = self.repos.len();
        let mut i: usize = n;
        while i > 0
            invariant
                n == m.len(),
                n == f.len(),
                f == flags@,
                i <= n,
                self@ == m.subrange(0, i as int) + kept(m.subrange(i as int, n as int), f.subrange(i as int, n as int)),
            decreases i,
        {
            let ghost suffix = m.subrange(i - 1, n as int);
            let ghost fs = f.subrange(i - 1, n as int);
            assert(suffix.drop_first() =~= m.subrange(i as int, n as int));
            assert(fs.drop_first() =~= f.subrange(i as int, n as int));
            assert(self.repos@.len() == self@.len());
            if !flags[i - 1] {
                let ghost before = self@;
                self.repos.remove(i - 1);
                proof {
                    assert(self@ =~= before.remove(i - 1));
                    assert(self@ =~= m.subrange(0, i - 1) + kept(suffix, fs));
                }
            } else {
                proof {
                    assert(m.subrange(0, i as int) =~= m.subrange(0, i - 1) + seq![suffix[0]]);
                    assert(self@ =~= m.subrange(0, i - 1) + kept(suffix, fs));
                }
            }
            i -= 1;
        }
        proof {
            assert(m.subrange(0, 0) + kept(m.subrange(0, n as int), f.subrange(0, n as int)) =~= kept(m, f)) by {
                assert(m.subrange(0, n as int) =~= m);
                assert(f.subrange(0, n as int) =~= f);
            }
            lemma_kept(m, f);
            let out = kept(m, f);
            assert forall|j: int| 0 <= j < m.len() implies (has_key(out, #[trigger] m[j].0) <==> f[j]) by {
                if f[j] {
                    assert(occurs_in(out, m[j]));
                    let k = choose|k: int| 0 <= k < out.len() && out[k] == m[j];
                    assert(out[k].0 == m[j].0);
                }
                if has_key(out, m[j].0) {
                    let k = choose|k: int| 0 <= k < out.len() && out[k].0 == m[j].0;
                    assert(flagged_in(m, f, out[k]));
                    let j2 = choose|j2: int| 0 <= j2 < m.len() && f[j2] && m[j2] == out[k];
                    assert(m[j2].0 == m[j].0);
                }
            }
            assert forall|k: int| 0 <= k < out.len() implies out[k].1.times.len() <= crate::access::HISTORY_CAP by {
                assert(flagged_in(m, f, out[k]));
                let j = choose|j: int| 0 <= j < m.len() && f[j] && m[j] == out[k];
            }
        }
    }

    /// Removes every record whose path no longer exists on the file system.
    /// Which paths exist is read from the file system during the call.
    pub fn cleanup(&mut self)
        requires
            old(self).wf(),
        ensures
            final(self).wf(),
            exists|flags: Seq<bool>| flags.len() == old(self)@.len() && final(self)@ == kept(old(self)@, flags),
    {
        let mut flags: Vec<bool> = Vec::new();
        let mut i: usize = 0;
        while i < self.repos.len()
            invariant
                i <= self.repos.len(),
                flags.len() == i,
            decreases self.repos.len() - i,
        {
            flags.push(path_exists(self.repos[i].0.as_str()));
            i += 1;
        }
        self.retain_flagged(&flags);
    }

    /// Paths of the records with a tag equal to `tag` (ignoring case), best
    /// frecency at `now` first; equal scores keep the order in which the
    /// records were added. Nothing is changed.
    pub fn rank_by_tag(&self, tag: &str, now: i64) -> (r: Vec<String>)
        requires
            self.wf(),
        ensures
            exists|order: Seq<int>|
                is_ranking(self@, tag@, now, order) && strings_of(r@) == paths_at(self@, order),
    {
        let n = self.repos.len();
        let mut ranked: Vec<(u64, usize)> = Vec::new();
        let mut i: usize = 0;
        while i < n
            invariant
                n == self@.len(),
                self.wf(),
                i <= n,
                forall|k: int| 0 <= k < ranked@.len() ==> {
                    &&& (#[trigger] ranked@[k]).1 < i
                    &&& tag_matches(self@[ranked@[k].1 as int].1.tags, tag@)
                    &&& ranked@[k].0 == score_at(self@, ranked@[k].1 as int, now)
                },
                forall|j: int| 0 <= j < i && tag_matches(#[trigger] self@[j].1.tags, tag@) ==> listed(ranked@, j),
                forall|k: int, l: int| 0 <= k < l < ranked@.len() ==>
                    ranks_before(self@, now, (#[trigger] ranked@[k]).1 as int, (#[trigger] ranked@[l]).1 as int),
            decreases n - i,
        {
            if tag_list_matches(&self.repos[i].1.tags, tag) {
                assert(self.repos@[i as int].1.access_times@ == self@[i as int].1.times);
                let s = self.repos[i].1.calculate_frecency(now);
                let mut p: usize = 0;
                while p < ranked.len() && (ranked[p].0 > s || (ranked[p].0 == s && text_less(
                    self.repos[ranked[p].1].0.as_str(),
                    self.repos[i].0.as_str(),
                )))
                    invariant
                        p <= ranked@.len(),
                        n == self@.len(),
                        i < n,
                        s == score_at(self@, i as int, now),
                        forall|k: int| 0 <= k < ranked@.len() ==> {
                            &&& (#[trigger] ranked@[k]).1 < i
                            &&& ranked@[k].0 == score_at(self@, ranked@[k].1 as int, now)
                        },
                        forall|k: int| 0 <= k < p ==> ranks_before(self@, now, (#[trigger] ranked@[k]).1 as int, i as int),
                    decreases ranked@.len() - p,
                {
                    p += 1;
                }
                proof {
                    lemma_ranks_before_order(self@, now);
                    if p < ranked@.len() {
                        assert(!ranks_before(self@, now, ranked@[p as int].1 as int, i as int));
                        assert(ranks_before(self@, now, i as int, ranked@[p as int].1 as int));
                    }
                }
                let ghost old_ranked = ranked@;
                ranked.insert(p, (s, i));
                proof {
                    lemma_ranks_before_order(self@, now);
                    let rr = ranked@;
                    assert(rr == old_ranked.insert(p as int, (s, i)));
                    assert forall|k: int| 0 <= k < rr.len() implies {
                        &&& (#[trigger] rr[k]).1 < i + 1
                        &&& tag_matches(self@[rr[k].1 as int].1.tags, tag@)
                        &&& rr[k].0 == score_at(self@, rr[k].1 as int, now)
                    } by {
                        if k < p {
                            assert(rr[k] == old_ranked[k]);
                        } else if k > p {
                            assert(rr[k] == old_ranked[k - 1]);
                        }
                    }
                    assert forall|j: int| 0 <= j < i + 1 && tag_matches(#[trigger] self@[j].1.tags, tag@) implies listed(rr, j) by {
                        if j == i {
                            assert(rr[p as int].1 == i);
                        } else {
                            assert(listed(old_ranked, j));
                            let k = choose|k: int| 0 <= k < old_ranked.len() && old_ranked[k].1 == j;
                            if k < p {
                                assert(rr[k] == old_ranked[k]);
                            } else {
                                assert(rr[k + 1] == old_ranked[k]);
                            }
                        }
                    }
                    assert forall|k: int, l: int| 0 <= k < l < rr.len() implies
                        ranks_before(self@, now, (#[trigger] rr[k]).1 as int, (#[trigger] rr[l]).1 as int) by {
                        if l < p {
                            assert(rr[k] == old_ranked[k] && rr[l] == old_ranked[l]);
                        } else if l == p {
                            assert(rr[k] == old_ranked[k]);
                        } else if k < p {
                            assert(rr[k] == old_ranked[k] && rr[l] == old_ranked[l - 1]);
                        } else if k == p {
                            assert(rr[l] == old_ranked[l - 1]);
                            if l - 1 > p {
                                assert(ranks_before(self@, now, old_ranked[p as int].1 as int, old_ranked[l - 1].1 as int));
                            }
                        } else {
                            assert(rr[k] == old_ranked[k - 1] && rr[l] == old_ranked[l - 1]);
                        }
                    }
                }
            }
            i += 1;
        }
        let mut out: Vec<String> = Vec::new();
        let mut k: usize = 0;
        while k < ranked.len()
            invariant
                k <= ranked@.len(),
                n == self@.len(),
                forall|a: int| 0 <= a < ranked@.len() ==> (#[trigger] ranked@[a]).1 < n,
                out@.len() == k,
                forall|a: int| 0 <= a < k ==> (#[trigger] out@[a])@ == self@[ranked@[a].1 as int].0,
            decreases ranked@.len() - k,
        {
            let idx = ranked[k].1;
            out.push(self.repos[idx].0.clone());
            k += 1;
        }
        proof {
            let order = ranked@.map_values(|e: (u64, usize)| e.1 as int);
            assert forall|j: int| 0 <= j < n && tag_matches(#[trigger] self@[j].1.tags, tag@) implies order.contains(j) by {
                assert(listed(ranked@, j));
                let a = choose|a: int| 0 <= a < ranked@.len() && ranked@[a].1 == j;
                assert(order[a] == j);
            }
            assert forall|a: int, b: int| 0 <= a < b < order.len() implies
                ranks_before(self@, now, #[trigger] order[a], #[trigger] order[b]) by {
                assert(order[a] == ranked@[a].1 as int && order[b] == ranked@[b].1 as int);
            }
            assert forall|a: int| 0 <= a < order.len() implies
                0 <= #[trigger] order[a] < self@.len() && tag_matches(self@[order[a]].1.tags, tag@) by {
                assert(order[a] == ranked@[a].1 as int);
            }
            assert(is_ranking(self@, tag@, now, order));
            assert(strings_of(out@) =~= paths_at(self@, order));
        }
        out
    }

    /// Records an access at `now` on every record with a tag equal to `tag`
    /// (ignoring case); the others are left as they are.
    pub fn record_accesses_by_tag(&mut self, tag: &str, now: i64)
        requires
            old(self).wf(),
        ensures
            final(self).wf(),
            final(self)@ == touched_matching(old(self)@, tag@, now),
    {
        let ghost before = self@;
        let n = self.repos.len();
        let mut i: usize = 0;
        while i < n
            invariant
                n == self.repos.len(),
                n == before.len(),
                i <= n,
                forall|j: int| 0 <= j < i ==> self@[j] == touched_matching(before, tag@, now)[j],
                forall|j: int| i <= j < n ==> self@[j] == before[j],
            decreases n - i,
        {
            assert(self.repos@[i as int].1@ == before[i as int].1);
            let ghost prev = self@;
            if tag_list_matches(&self.repos[i].1.tags, tag) {
                self.repos[i].1.record_access(now);
            }
            assert(forall|j: int| 0 <= j < n && j != i ==> self@[j] == prev[j]);
            assert(self@[i as int] == touched_matching(before, tag@, now)[i as int]);
            assert forall|j: int| 0 <= j < i + 1 implies self@[j] == touched_matching(before, tag@, now)[j] by {
                if j < i {
                    assert(prev[j] == touched_matching(before, tag@, now)[j]);
                }
            }
            i += 1;
        }
        proof {
            assert(self@ =~= touched_matching(before, tag@, now));
            assert(keys_unique(self@)) by {
                assert forall|a: int, b: int| 0 <= a < self@.len() && 0 <= b < self@.len() && a != b implies self@[a].0 != self@[b].0 by {
                    assert(self@[a].0 == before[a].0 && self@[b].0 == before[b].0);
                }
            }
        }
    }

    /// Searches by tag at time `now`: every matching record first gets an
    /// access at `now`, then the matching paths are returned ranked as by
    /// `rank_by_tag` on the updated index.
    pub fn search_by_tag_at(&mut self, tag: &str, now: i64) -> (r: Vec<String>)
        requires
            old(self).wf(),
        ensures
            final(self).wf(),
            final(self)@ == touched_matching(old(self)@, tag@, now),
            exists|order: Seq<int>|
                is_ranking(final(self)@, tag@, now, order) && strings_of(r@) == paths_at(final(self)@, order),
    {
        self.record_accesses_by_tag(tag, now);
        self.rank_by_tag(tag, now)
    }

    /// Starts tracking `path` (resolved against `cwd`) with `tags`, reading the
    /// clock for the access time. True when the path was new; false when it was
    /// already tracked, its tags replaced and an access recorded. A path that
    /// does not exist on the file system is refused and nothing changes.
    pub fn add_repo(&mut self, path: &str, tags: Vec<String>, cwd: &Option<String>) -> (r: Result<bool, StorageError>)
        requires
            old(self).wf(),
        ensures
            final(self).wf(),
            match absolute_of(path@, opt_text(*cwd)) {
                None => r == Err::<bool, StorageError>(StorageError::PathResolution) && final(self)@ == old(self)@,
                Some(a) => match r {
                    Ok(is_new) => is_new == !has_key(old(self)@, a) && exists|t: i64|
                        final(self)@ == added(old(self)@, a, strings_of(tags@), t),
                    Err(e) => (e matches StorageError::PathNotFound(p) && p@ == a) && final(self)@ == old(self)@,
                },
            },
    {
        let abs = match to_absolute_path(path, cwd) {
            Ok(a) => a,
            Err(e) => return Err(e),
        };
        if !path_exists(abs.as_str()) {
            return Err(StorageError::PathNotFound(abs));
        }
        let now = current_time();
        Ok(self.add_at(abs, tags, now))
    }

    /// Stops tracking `path` (resolved against `cwd`). True when it was tracked.
    pub fn delete_repo(&mut self, path: &str, cwd: &Option<String>) -> (r: Result<bool, StorageError>)
        requires
            old(self).wf(),
        ensures
            final(self).wf(),
            match absolute_of(path@, opt_text(*cwd)) {
                None => r == Err::<bool, StorageError>(StorageError::PathResolution) && final(self)@ == old(self)@,
                Some(a) => r == Ok::<bool, StorageError>(has_key(old(self)@, a)) && !has_key(final(self)@, a) && (
                    if has_key(old(self)@, a) {
                        exists|i: int| 0 <= i < old(self)@.len() && old(self)@[i].0 == a && final(self)@ == old(self)@.remove(i)
                    } else {
                        final(self)@ == old(self)@
                    }),
            },
    {
        let abs = match to_absolute_path(path, cwd) {
            Ok(a) => a,
            Err(e) => return Err(e),
        };
        Ok(self.remove_key(abs.as_str()))
    }

    /// Replaces the tags of `path` (resolved against `cwd`) and records an
    /// access, reading the clock. False, with nothing changed, when the path is
    /// not tracked: no record is created.
    pub fn update_repo(&mut self, path: &str, tags: Vec<String>, cwd: &Option<String>) -> (r: Result<bool, StorageError>)
        requires
            old(self).wf(),
        ensures
            final(self).wf(),
            match absolute_of(path@, opt_text(*cwd)) {
                None => r == Err::<bool, StorageError>(StorageError::PathResolution) && final(self)@ == old(self)@,
                Some(a) => r == Ok::<bool, StorageError>(has_key(old(self)@, a)) && exists|t: i64|
                    final(self)@ == retagged(old(self)@, a, strings_of(tags@), t),
            },
    {
        let abs = match to_absolute_path(path, cwd) {
            Ok(a) => a,
            Err(e) => return Err(e),
        };
        let now = current_time();
        Ok(self.update_at(abs.as_str(), tags, now))
    }

    /// Records an access to `path` (resolved against `cwd`), reading the clock.
    /// False, with nothing changed, when the path is not tracked.
    pub fn record_access(&mut self, path: &str, cwd: &Option<String>) -> (r: Result<bool, StorageError>)
        requires
            old(self).wf(),
        ensures
            final(self).wf(),
            match absolute_of(path@, opt_text(*cwd)) {
                None => r == Err::<bool, StorageError>(StorageError::PathResolution) && final(self)@ == old(self)@,
                Some(a) => r == Ok::<bool, StorageError>(has_key(old(self)@, a)) && exists|t: i64|
                    final(self)@ == touched(old(self)@, a, t),
            },
    {
        let abs = match to_absolute_path(path, cwd) {
            Ok(a) => a,
            Err(e) => return Err(e),
        };
        let now = current_time();
        Ok(self.record_access_at(abs.as_str(), now))
    }

    /// Collapses the history of `path` (resolved against `cwd`), or of every
    /// record when no path is given, to one access now. Returns how many
    /// records were reset.
    pub fn reset_frequency(&mut self, path: Option<&str>, cwd: &Option<String>) -> (r: Result<usize, StorageError>)
        requires
            old(self).wf(),
        ensures
            final(self).wf(),
            match path {
                None => r == Ok::<usize, StorageError>(old(self)@.len() as usize) && exists|t: i64|
                    final(self)@ == reset_every(old(self)@, t),
                Some(p) => match absolute_of(p@, opt_text(*cwd)) {
                    None => r == Err::<usize, StorageError>(StorageError::PathResolution) && final(self)@ == old(self)@,
                    Some(a) => r == Ok::<usize, StorageError>(if has_key(old(self)@, a) { 1 } else { 0 }) && exists|t: i64|
                        final(self)@ == reset_one(old(self)@, a, t),
                },
            },
    {
        match path {
            Some(p) => {
                let abs = match to_absolute_path(p, cwd) {
                    Ok(a) => a,
                    Err(e) => return Err(e),
                };
                let now = current_time();
                if self.reset_one_at(abs.as_str(), now) {
                    Ok(1)
                } else {
                    Ok(0)
                }
            },
            None => {
                let now = current_time();
                Ok(self.reset_all_at(now))
            },
        }
    }

    /// Searches by tag, reading the clock once: every record with a tag equal
    /// to `tag` (ignoring case) gets an access now, and the matching paths are
    /// returned best frecency first.
    pub fn search_by_tag(&mut self, tag: &str) -> (r: Vec<String>)
        requires
            old(self).wf(),
        ensures
            final(self).wf(),
            exists|t: i64| {
                &&& final(self)@ == touched_matching(old(self)@, tag@, t)
                &&& exists|order: Seq<int>|
                    is_ranking(final(self)@, tag@, t, order) && strings_of(r@) == paths_at(final(self)@, order)
            },
    {
        let now = current_time();
        self.search_by_tag_at(tag, now)
    }

    /// Stores `access` under `path` as given, replacing any record already
    /// there; a history longer than the cap keeps its most recent entries.
    pub fn insert(&mut self, path: String, access: RepoAccess)
        requires
            old(self).wf(),
        ensures
            final(self).wf(),
            final(self)@ == inserted(old(self)@, path@, access@),
    {
        let mut access = access;
        access.keep_recent();
        match self.find(path.as_str()) {
            Some(i) => {
                let ghost before = self@;
                self.repos.set(i, (path, access));
                proof {
                    assert(self@ =~= inserted(before, path@, access@)) by {
                        assert(access@ == RecordModel { tags: access@.tags, times: last_ten(access@.times) }) by {
                            assert(last_ten(access@.times) == access@.times);
                        }
                    }
                }
            },
            None => {
                let ghost before = self@;
                self.repos.push((path, access));
                proof {
                    assert(self@ =~= inserted(before, path@, access@));
                }
            },
        }
    }

    /// An index holding the given entries, stored one after another as by
    /// `insert`: a later entry for the same path replaces an earlier one, and
    /// over-long histories keep their most recent timestamps.
    pub fn from_entries(entries: Vec<(String, RepoAccess)>) -> (r: Self)
        ensures
            r.wf(),
            r@ == inserted_all(Seq::empty(), entries@.map_values(|e: (String, RepoAccess)| (e.0@, e.1@))),
    {
        let ghost es = entries@.map_values(|e: (String, RepoAccess)| (e.0@, e.1@));
        let mut out = Storage::new_empty();
        let mut rest = entries;
        let mut taken: Vec<(String, RepoAccess)> = Vec::new();
        // Entries are moved out from the back, then stored from the front.
        while rest.len() > 0
            invariant
                rest@ + taken@.reverse() == entries@,
            decreases rest.len(),
        {
            let e = rest.pop().unwrap();
            proof {
                assert(rest@.push(e) + taken@.reverse() == entries@);
            }
            let ghost before_taken = taken@;
            taken.push(e);
            proof {
                assert(taken@.reverse() =~= seq![e] + before_taken.reverse());
                assert(rest@ + taken@.reverse() =~= entries@);
            }
        }
        let n = taken.len();
        let mut i: usize = 0;
        while i < n
            invariant
                n == entries@.len(),
                es == entries@.map_values(|e: (String, RepoAccess)| (e.0@, e.1@)),
                i <= n,
                taken@.len() == n - i,
                forall|k: int| 0 <= k < taken@.len() ==> #[trigger] taken@[k] == entries@[n - 1 - k],
                out.wf(),
                out@ == inserted_all(Seq::empty(), es.subrange(0, i as int)),
            decreases n - i,
        {
            let e = taken.pop().unwrap();
            proof {
                assert(e == entries@[i as int]);
                assert(es[i as int] == (e.0@, e.1@));
                assert(es.subrange(0, i + 1).drop_last() =~= es.subrange(0, i as int));
            }
            out.insert(e.0, e.1);
            i += 1;
        }
        proof {
            assert(es.subrange(0, n as int) =~= es);
        }
        out
    }

    /// The (path, record) pairs in insertion order.
    pub fn entries(&self) -> (r: &Vec<(String, RepoAccess)>)
        ensures
            r@.map_values(|e: (String, RepoAccess)| (e.0@, e.1@)) == self@,
    {
        &self.repos
    }
}

} // verus!
