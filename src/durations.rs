//! The duration aggregator: per-key cumulative time and the grand total of a
//! window, ranked from the longest key down.

use vstd::prelude::*;
use crate::clock::now_millis;
use crate::reader::{LogReader, ReadError};
use crate::replay::{collect_sessions, ordered_spans, pass_sessions, scan, spans_of};
use crate::session::{Session, Span, sessions};
use crate::settings::{Settings, counted_key, counts, key};

verus! {

/// The length of an interval.
pub open spec fn span_len(sp: Span) -> int {
    sp.end - sp.start
}

/// The summed length of `spans`.
pub open spec fn total_of(spans: Seq<Span>) -> int
    decreases spans.len(),
{
    if spans.len() == 0 {
        0
    } else {
        total_of(spans.drop_last()) + span_len(spans.last())
    }
}

/// The first index at which `t` holds key `k`, or -1.
pub open spec fn key_index(t: Seq<(Seq<char>, int)>, k: Seq<char>) -> int
    decreases t.len(),
{
    if t.len() == 0 {
        -1
    } else if t[0].0 == k {
        0
    } else {
        let j = key_index(t.drop_first(), k);
        if j < 0 {
            -1
        } else {
            j + 1
        }
    }
}

/// `t` with `d` more credited to key `k`; a new key goes last.
pub open spec fn credit(t: Seq<(Seq<char>, int)>, k: Seq<char>, d: int) -> Seq<(Seq<char>, int)> {
    let i = key_index(t, k);
    if i >= 0 {
        t.update(i, (k, t[i].1 + d))
    } else {
        t.push((k, d))
    }
}

/// Each key of `spans` under `settings` with its summed duration, keys in
/// order of first appearance; spans without a key are left out.
pub open spec fn tally(settings: Settings, spans: Seq<Span>) -> Seq<(Seq<char>, int)>
    decreases spans.len(),
{
    if spans.len() == 0 {
        Seq::empty()
    } else {
        let t = tally(settings, spans.drop_last());
        let sp = spans.last();
        match counted_key(settings, sp.class, sp.title) {
            Some(k) => credit(t, k, span_len(sp)),
            None => t,
        }
    }
}

/// `r` lists the entries of `t`, entry `idx[i]` at place `i`, longest duration
/// first and, among equal durations, in the order of `t`.
pub open spec fn ranks(r: Seq<(String, u64)>, t: Seq<(Seq<char>, int)>, idx: Seq<int>) -> bool {
    &&& r.len() == t.len()
    &&& idx.len() == t.len()
    &&& forall|i: int|
        0 <= i < r.len() ==> 0 <= #[trigger] idx[i] < t.len() && r[i].0@ == t[idx[i]].0 && r[i].1
            == t[idx[i]].1
    &&& sorted_desc(r, idx)
}

/// Longest duration first; among equal durations, ascending in `idx`; `idx` without repeats.
pub open spec fn sorted_desc(r: Seq<(String, u64)>, idx: Seq<int>) -> bool {
    &&& forall|i: int, j: int| 0 <= i < j < r.len() ==> idx[i] != idx[j]
    &&& forall|i: int, j: int|
        0 <= i < j < r.len() ==> #[trigger] r[i].1 > #[trigger] r[j].1 || (r[i].1 == r[j].1 && idx[i] < idx[j])
}

/// `r` is `t` ranked by duration, longest first, ties kept in order of first appearance.
pub open spec fn ranked(r: Seq<(String, u64)>, t: Seq<(Seq<char>, int)>) -> bool {
    exists|idx: Seq<int>| ranks(r, t, idx)
}

/// The first place in `s` whose duration does not exceed `d` (or its length).
pub open spec fn first_not_above(s: Seq<(Seq<char>, int)>, d: int) -> int
    decreases s.len(),
{
    if s.len() == 0 {
        0
    } else if s[0].1 <= d {
        0
    } else {
        1 + first_not_above(s.drop_first(), d)
    }
}

/// `t` sorted by duration, longest first, by inserting its entries last to
/// first, each before the first entry that is not longer: a stable sort.
pub open spec fn rank_of(t: Seq<(Seq<char>, int)>) -> Seq<(Seq<char>, int)>
    decreases t.len(),
{
    if t.len() == 0 {
        Seq::empty()
    } else {
        let s = rank_of(t.drop_first());
        s.insert(first_not_above(s, t[0].1), t[0])
    }
}

/// The view of a list of keys with durations.
pub open spec fn pairs_view(r: Seq<(String, u64)>) -> Seq<(Seq<char>, int)> {
    r.map_values(|e: (String, u64)| (e.0@, e.1 as int))
}

/// What the aggregator owes for the log `items` replayed up to `now`: the
/// failure of the pass, or the ranked per-key durations and the grand total.
pub open spec fn durations_result(
    settings: Settings,
    items: Seq<crate::reader::ItemView>,
    now: int,
    r: Result<(Vec<(String, u64)>, u64), ReadError>,
) -> bool {
    match scan(items) {
        Err(e) => r == Err::<(Vec<(String, u64)>, u64), ReadError>(e),
        Ok(recs) => r matches Ok(res) && res.1 == total_of(pass_sessions(settings, recs, now)) && ranked(
            res.0@,
            tally(settings, pass_sessions(settings, recs, now)),
        ) && pairs_view(res.0@) == rank_of(tally(settings, pass_sessions(settings, recs, now))),
    }
}

pub proof fn lemma_key_index(t: Seq<(Seq<char>, int)>, k: Seq<char>)
    ensures
        -1 <= key_index(t, k) < t.len(),
        key_index(t, k) >= 0 ==> t[key_index(t, k)].0 == k,
        key_index(t, k) == -1 ==> forall|j: int| 0 <= j < t.len() ==> (#[trigger] t[j]).0 != k,
        forall|j: int| 0 <= j < t.len() && (#[trigger] t[j]).0 == k ==> key_index(t, k) <= j,
    decreases t.len(),
{
    if t.len() > 0 {
        lemma_key_index(t.drop_first(), k);
        assert forall|j: int| 0 < j < t.len() implies (#[trigger] t[j]) == t.drop_first()[j - 1] by {}
    }
}

proof fn lemma_total_bound(spans: Seq<Span>)
    requires
        spans.len() > 0,
        ordered_spans(spans),
    ensures
        0 <= total_of(spans) <= spans.last().end - spans[0].start,
    decreases spans.len(),
{
    let d = spans.drop_last();
    if d.len() > 0 {
        assert(ordered_spans(d)) by {
            assert forall|i: int| 0 <= i < d.len() implies (#[trigger] d[i]).start <= d[i].end by {
                assert(d[i] == spans[i]);
            }
            assert forall|i: int| 0 < i < d.len() implies d[i - 1].end <= (#[trigger] d[i]).start by {
                assert(d[i] == spans[i]);
                assert(d[i - 1] == spans[i - 1]);
            }
        }
        lemma_total_bound(d);
        assert(d.last() == spans[spans.len() - 2]);
        assert(d[0] == spans[0]);
        assert(spans[spans.len() - 1].start >= spans[spans.len() - 2].end);
        assert(spans[spans.len() - 1].start <= spans[spans.len() - 1].end);
    } else {
        assert(total_of(d) == 0);
        assert(spans[0].start <= spans[0].end);
    }
}

/// Credits `d` more milliseconds to key `k` in the running tally `acc`.
fn credit_key(acc: &mut Vec<(String, u64)>, k: String, d: u64, Ghost(t): Ghost<Seq<(Seq<char>, int)>>)
    requires
        old(acc)@.len() == t.len(),
        forall|i: int|
            0 <= i < t.len() ==> (#[trigger] old(acc)@[i]).0@ == t[i].0 && old(acc)@[i].1 == t[i].1,
        forall|i: int| 0 <= i < t.len() ==> (#[trigger] old(acc)@[i]).1 + d <= u64::MAX,
    ensures
        final(acc)@.len() == credit(t, k@, d as int).len(),
        forall|i: int|
            0 <= i < final(acc)@.len() ==> (#[trigger] final(acc)@[i]).0@ == credit(t, k@, d as int)[i].0
                && final(acc)@[i].1 == credit(t, k@, d as int)[i].1,
        final(acc)@.len() == old(acc)@.len() || final(acc)@.len() == old(acc)@.len() + 1,
        forall|i: int|
            0 <= i < old(acc)@.len() ==> (#[trigger] final(acc)@[i]).1 == old(acc)@[i].1 || final(acc)@[i].1
                == old(acc)@[i].1 + d,
        final(acc)@.len() > old(acc)@.len() ==> final(acc)@[old(acc)@.len() as int].1 == d,
{
    proof {
        lemma_key_index(t, k@);
    }
    let mut i: usize = 0;
    while i < acc.len()
        invariant
            i <= acc@.len(),
            acc@ == old(acc)@,
            acc@.len() == t.len(),
            forall|j: int| 0 <= j < i ==> t[j].0 != k@,
            forall|j: int|
                0 <= j < t.len() ==> (#[trigger] old(acc)@[j]).0@ == t[j].0 && old(acc)@[j].1 == t[j].1,
            forall|j: int| 0 <= j < t.len() ==> (#[trigger] old(acc)@[j]).1 + d <= u64::MAX,
        decreases acc.len() - i,
    {
        assert(acc@[i as int] == old(acc)@[i as int]);
        assert(t[i as int].0 == acc@[i as int].0@);
        if acc[i].0 == k {
            proof {
                lemma_key_index(t, k@);
            }
            let v = acc[i].1 + d;
            assert(key_index(t, k@) == i);
            acc.set(i, (k, v));
            return;
        }
        i = i + 1;
    }
    assert(key_index(t, k@) == -1);
    acc.push((k, d));
}

/// The first place in `out` whose duration does not exceed `d`.
fn insertion_point(out: &Vec<(String, u64)>, d: u64) -> (p: usize)
    ensures
        p <= out@.len(),
        forall|q: int| 0 <= q < p ==> (#[trigger] out@[q]).1 > d,
        p < out@.len() ==> out@[p as int].1 <= d,
{
    let mut p: usize = 0;
    while p < out.len() && out[p].1 > d
        invariant
            p <= out@.len(),
            forall|q: int| 0 <= q < p ==> (#[trigger] out@[q]).1 > d,
        decreases out.len() - p,
    {
        p = p + 1;
    }
    p
}

proof fn lemma_first_not_above(s: Seq<(Seq<char>, int)>, d: int, p: int)
    requires
        0 <= p <= s.len(),
        forall|q: int| 0 <= q < p ==> (#[trigger] s[q]).1 > d,
        p < s.len() ==> s[p].1 <= d,
    ensures
        first_not_above(s, d) == p,
    decreases s.len(),
{
    if s.len() > 0 && p > 0 {
        assert forall|q: int| 0 <= q < p - 1 implies (#[trigger] s.drop_first()[q]).1 > d by {
            assert(s.drop_first()[q] == s[q + 1]);
        }
        if p < s.len() {
            assert(s.drop_first()[p - 1] == s[p]);
        }
        lemma_first_not_above(s.drop_first(), d, p - 1);
    }
}

/// Ranks a tally by duration, longest first; among equal durations the earlier entry stays first.
fn rank(tallied: Vec<(String, u64)>, Ghost(t): Ghost<Seq<(Seq<char>, int)>>) -> (r: Vec<(String, u64)>)
    requires
        tallied@.len() == t.len(),
        forall|i: int|
            0 <= i < t.len() ==> (#[trigger] tallied@[i]).0@ == t[i].0 && tallied@[i].1 == t[i].1,
    ensures
        ranked(r@, t),
        pairs_view(r@) == rank_of(t),
{
    let mut rest = tallied;
    let mut out: Vec<(String, u64)> = Vec::new();
    let ghost mut idx: Seq<int> = Seq::empty();
    let ghost n = t.len();
    while rest.len() > 0
        invariant
            n == t.len(),
            rest@.len() + out@.len() == n,
            forall|i: int| 0 <= i < rest@.len() ==> (#[trigger] rest@[i]).0@ == t[i].0 && rest@[i].1 == t[i].1,
            idx.len() == out@.len(),
            forall|i: int|
                0 <= i < out@.len() ==> rest@.len() <= #[trigger] idx[i] < n && out@[i].0@ == t[idx[i]].0
                    && out@[i].1 == t[idx[i]].1,
            sorted_desc(out@, idx),
            pairs_view(out@) == rank_of(t.subrange(rest@.len() as int, n as int)),
        decreases rest.len(),
    {
        let ghost jj = rest@.len() - 1;
        assert(forall|q: int| 0 <= q < out@.len() ==> idx[q] > jj);
        let ghost before_pop = rest@;
        let entry = rest.pop().unwrap();
        assert(entry == before_pop[jj]);
        assert(entry.0@ == t[jj].0 && entry.1 == t[jj].1);
        let p = insertion_point(&out, entry.1);
        proof {
            lemma_first_not_above(pairs_view(out@), entry.1 as int, p as int);
            let sub = t.subrange(jj, n as int);
            assert(sub.drop_first() =~= t.subrange(jj + 1, n as int));
            assert(sub[0] == t[jj]);
        }
        let ghost old_out = out@;
        let ghost old_idx = idx;
        assert(p == old_out.len() || old_out[p as int].1 <= entry.1);
        assert(sorted_desc(old_out, old_idx));
        assert(forall|q: int| 0 <= q < old_out.len() ==> old_idx[q] > jj);
        out.insert(p, entry);
        proof {
            assert(pairs_view(out@) =~= pairs_view(old_out).insert(p as int, t[jj]));
            idx = old_idx.insert(p as int, jj);
            assert forall|i: int| 0 <= i < out@.len() implies rest@.len() <= #[trigger] idx[i] < n
                && out@[i].0@ == t[idx[i]].0 && out@[i].1 == t[idx[i]].1 by {
                if i < p {
                    assert(out@[i] == old_out[i] && idx[i] == old_idx[i]);
                } else if i > p {
                    assert(out@[i] == old_out[i - 1] && idx[i] == old_idx[i - 1]);
                }
            }
            assert forall|i: int, j: int| 0 <= i < j < out@.len() implies idx[i] != idx[j] && (
            #[trigger] out@[i].1 > #[trigger] out@[j].1 || (out@[i].1 == out@[j].1 && idx[i] < idx[j])) by {
                if j < p {
                    assert(out@[i] == old_out[i] && idx[i] == old_idx[i]);
                    assert(out@[j] == old_out[j] && idx[j] == old_idx[j]);
                } else if j == p {
                    assert(out@[i] == old_out[i] && idx[i] == old_idx[i]);
                    assert(out@[j] == entry && idx[j] == jj);
                } else if i < p {
                    assert(out@[i] == old_out[i] && idx[i] == old_idx[i]);
                    assert(out@[j] == old_out[j - 1] && idx[j] == old_idx[j - 1]);
                } else if i == p {
                    assert(out@[j] == old_out[j - 1] && idx[j] == old_idx[j - 1]);
                    assert(out@[i] == entry && idx[i] == jj);
                    if j - 1 > p {
                        assert(old_out[p as int].1 >= old_out[j - 1].1);
                    }
                } else {
                    assert(out@[i] == old_out[i - 1] && idx[i] == old_idx[i - 1]);
                    assert(out@[j] == old_out[j - 1] && idx[j] == old_idx[j - 1]);
                }
            }
        }
    }
    assert(ranks(out@, t, idx));
    assert(t.subrange(0, n as int) =~= t);
    out
}

/// Aggregates the log of `reader`, replayed from its start up to `now`: the
/// keys ranked by duration, longest first, and the grand total of all
/// sessions (counted whatever the mode filters out).
pub fn compute_durations_at(reader: &mut LogReader, settings: &Settings, now: i64) -> (r: Result<
    (Vec<(String, u64)>, u64),
    ReadError,
>)
    ensures
        final(reader).wf(),
        final(reader).files() == old(reader).files(),
        durations_result(*settings, old(reader).items(), now as int, r),
{
    let sessions_found = collect_sessions(reader, settings, now);
    let found = match sessions_found {
        Err(e) => {
            return Err(e);
        },
        Ok(v) => v,
    };
    let ghost spans = spans_of(found@);
    let mut total: u64 = 0;
    let mut acc: Vec<(String, u64)> = Vec::new();
    let mut i: usize = 0;
    assert(spans.take(0) =~= Seq::<Span>::empty());
    while i < found.len()
        invariant
            i <= found@.len(),
            spans == spans_of(found@),
            ordered_spans(spans),
            total == total_of(spans.take(i as int)),
            acc@.len() == tally(*settings, spans.take(i as int)).len(),
            forall|j: int|
                0 <= j < acc@.len() ==> (#[trigger] acc@[j]).0@ == tally(*settings, spans.take(i as int))[j].0
                    && acc@[j].1 == tally(*settings, spans.take(i as int))[j].1,
            forall|j: int| 0 <= j < acc@.len() ==> (#[trigger] acc@[j]).1 <= total,
        decreases found.len() - i,
    {
        let s: &Session = &found[i];
        let ghost pre = spans.take(i as int);
        let ghost next = spans.take(i + 1);
        proof {
            assert(next.drop_last() =~= pre);
            assert(next.last() == s@);
            assert(ordered_spans(next)) by {
                assert forall|j: int| 0 <= j < next.len() implies (#[trigger] next[j]).start <= next[j].end by {
                    assert(next[j] == spans[j]);
                }
                assert forall|j: int| 0 < j < next.len() implies next[j - 1].end <= (#[trigger] next[j]).start by {
                    assert(next[j] == spans[j]);
                    assert(next[j - 1] == spans[j - 1]);
                }
            }
            lemma_total_bound(next);
            assert(next[0] == spans[0]);
            assert(spans[i as int] == s@);
        }
        let d: u64 = (s.end as i128 - s.start as i128) as u64;
        total = total + d;
        let ghost old_acc = acc@;
        if counts(settings, &s.class) {
            let k = key(settings, &s.class, &s.title);
            credit_key(&mut acc, k, d, Ghost(tally(*settings, pre)));
        }
        assert(forall|j: int| 0 <= j < old_acc.len() ==> old_acc[j].1 <= total - d);
        assert forall|j: int| 0 <= j < acc@.len() implies (#[trigger] acc@[j]).1 <= total by {
            if j < old_acc.len() {
                assert(old_acc[j].1 <= total - d);
            }
        }
        i = i + 1;
    }
    assert(spans.take(i as int) =~= spans);
    let ranked_list = rank(acc, Ghost(tally(*settings, spans)));
    Ok((ranked_list, total))
}

/// Aggregates the log of `reader` up to the present moment, which closes the
/// session still open (see `compute_durations_at`); fails with `Clock` where
/// the system clock cannot be read.
pub fn compute_durations(reader: &mut LogReader, settings: &Settings) -> (r: Result<
    (Vec<(String, u64)>, u64),
    ReadError,
>)
    ensures
        final(reader).wf(),
        final(reader).files() == old(reader).files(),
        r == Err::<(Vec<(String, u64)>, u64), ReadError>(ReadError::Clock) || exists|now: i64|
            durations_result(*settings, old(reader).items(), now as int, r),
{
    match now_millis() {
        Some(now) => compute_durations_at(reader, settings, now),
        None => {
            reader.reset();
            Err(ReadError::Clock)
        },
    }
}

} // verus!
