//! Properties of session reconstruction, aggregation and bucketing that hold
//! for every log, stated over the specification functions and proved.

use vstd::prelude::*;
use crate::durations::{credit, durations_result, rank_of, key_index, lemma_key_index, pairs_view, ranked, span_len, tally, total_of};
use crate::reader::{DayFile, ItemView, ReadError, file_items, stream};
use crate::replay::{end_of, pass_sessions, scan};
use crate::session::{RecordView, Span, TrackerView, closing, fresh, replay, sessions, step};
use crate::settings::{Settings, alias_of, counted_key};
use crate::timeline::{Bucket, BucketView, blank, buckets_view, drawn_key, mark, paint, timeline_of, timeline_result, touches};

verus! {

/// A session that is the only one of its log is credited exactly its length:
/// the grand total is `end - start`, and so is the one entry of the tally
/// where its class counts under the mode (and the tally is empty where it does not).
pub proof fn lemma_single_session(settings: Settings, recs: Seq<RecordView>, now: int)
    requires
        sessions(settings, recs, now).len() == 1,
    ensures
        ({
            let sp = sessions(settings, recs, now)[0];
            &&& total_of(sessions(settings, recs, now)) == sp.end - sp.start
            &&& counted_key(settings, sp.class, sp.title) matches Some(k) ==> tally(
                settings,
                sessions(settings, recs, now),
            ) == seq![(k, sp.end - sp.start)]
            &&& counted_key(settings, sp.class, sp.title) is None ==> tally(
                settings,
                sessions(settings, recs, now),
            ).len() == 0
        }),
{
    let s = sessions(settings, recs, now);
    assert(s.drop_last().len() == 0);
    assert(total_of(s.drop_last()) == 0);
    assert(tally(settings, s.drop_last()) =~= Seq::<(Seq<char>, int)>::empty());
    let sp = s[0];
    assert(s.last() == sp);
    if let Some(k) = counted_key(settings, sp.class, sp.title) {
        assert(crate::durations::key_index(Seq::<(Seq<char>, int)>::empty(), k) == -1);
        assert(tally(settings, s) =~= seq![(k, sp.end - sp.start)]);
    }
}

/// Replaying a log whose prefix ends in a fresh state: the prefix's closed
/// intervals, then those of the rest replayed from scratch.
proof fn lemma_replay_split(settings: Settings, a: Seq<RecordView>, b: Seq<RecordView>)
    requires
        replay(settings, a).0 == fresh(),
    ensures
        replay(settings, a + b) == (replay(settings, b).0, replay(settings, a).1 + replay(settings, b).1),
    decreases b.len(),
{
    if b.len() == 0 {
        assert(a + b =~= a);
        assert(replay(settings, a).1 + replay(settings, b).1 =~= replay(settings, a).1);
    } else {
        lemma_replay_split(settings, a, b.drop_last());
        assert((a + b).drop_last() =~= a + b.drop_last());
        assert((a + b).last() == b.last());
        let (st, sp) = replay(settings, b.drop_last());
        let (_, closed) = step(settings, st, b.last());
        if let Some(x) = closed {
            assert(replay(settings, a).1 + sp.push(x) =~= (replay(settings, a).1 + sp).push(x));
        }
    }
}

/// Every interval of a replay, and the open session if any, starts at the
/// timestamp of one of the replayed records.
proof fn lemma_starts_are_record_times(settings: Settings, recs: Seq<RecordView>)
    ensures
        forall|i: int|
            0 <= i < replay(settings, recs).1.len() ==> exists|j: int|
                0 <= j < recs.len() && recs[j].timestamp == (#[trigger] replay(settings, recs).1[i]).start,
        replay(settings, recs).0.start matches Some(s) ==> exists|j: int|
            0 <= j < recs.len() && recs[j].timestamp == s,
    decreases recs.len(),
{
    if recs.len() > 0 {
        let d = recs.drop_last();
        lemma_starts_are_record_times(settings, d);
        let (st, spans) = replay(settings, d);
        let n = recs.len() - 1;
        assert forall|j: int| 0 <= j < d.len() implies d[j] == recs[j] by {}
        assert(recs[n] == recs.last());
        let all = replay(settings, recs).1;
        assert forall|i: int| 0 <= i < all.len() implies exists|j: int|
            0 <= j < recs.len() && recs[j].timestamp == (#[trigger] all[i]).start by {
            if i < spans.len() {
                assert(all[i] == spans[i]);
                let j = choose|j: int| 0 <= j < d.len() && d[j].timestamp == spans[i].start;
                assert(recs[j] == d[j]);
            } else {
                let s0 = st.start->Some_0;
                let j = choose|j: int| 0 <= j < d.len() && d[j].timestamp == s0;
                assert(recs[j] == d[j]);
            }
        }
        if let Some(s0) = st.start {
            if replay(settings, recs).0.start == Some(s0) {
                let j = choose|j: int| 0 <= j < d.len() && d[j].timestamp == s0;
                assert(recs[j] == d[j]);
            }
        }
    }
}

/// A `boot` marker discards all state: the sessions of a log are those closed
/// before the boot, followed by the sessions of what follows the boot as if
/// the log began there, each of which starts at a record after the boot. No
/// interval spans a boot.
pub proof fn lemma_boot_resets(settings: Settings, recs: Seq<RecordView>, b: int, now: int)
    requires
        0 <= b < recs.len(),
        alias_of(settings.class_mappings@, recs[b].class) == "SYSTEM"@,
        recs[b].title == "boot"@,
    ensures
        sessions(settings, recs, now) == replay(settings, recs.take(b)).1 + sessions(
            settings,
            recs.skip(b + 1),
            now,
        ),
        forall|i: int|
            0 <= i < sessions(settings, recs.skip(b + 1), now).len() ==> exists|j: int|
                b < j < recs.len() && recs[j].timestamp == (#[trigger] sessions(
                    settings,
                    recs.skip(b + 1),
                    now,
                )[i]).start,
{
    let head = recs.take(b + 1);
    let tail = recs.skip(b + 1);
    assert(head.drop_last() =~= recs.take(b));
    assert(head.last() == recs[b]);
    assert(replay(settings, head).0 == fresh());
    assert(replay(settings, head).1 == replay(settings, recs.take(b)).1);
    lemma_replay_split(settings, head, tail);
    assert(head + tail =~= recs);
    let (st, sp) = replay(settings, tail);
    let pre = replay(settings, recs.take(b)).1;
    match crate::session::closing(st, now) {
        Some(x) => {
            assert(pre + sp.push(x) =~= (pre + sp).push(x));
        },
        None => {},
    }
    lemma_starts_are_record_times(settings, tail);
    let after = sessions(settings, tail, now);
    assert forall|i: int| 0 <= i < after.len() implies exists|j: int|
        b < j < recs.len() && recs[j].timestamp == (#[trigger] after[i]).start by {
        let k = if i < sp.len() {
            assert(after[i] == sp[i]);
            choose|k: int| 0 <= k < tail.len() && tail[k].timestamp == sp[i].start
        } else {
            choose|k: int| 0 <= k < tail.len() && tail[k].timestamp == st.start->Some_0
        };
        assert(tail[k] == recs[b + 1 + k]);
    }
}

/// Whether `r` is a `resume` marker under `settings`.
pub open spec fn is_resume(settings: Settings, r: RecordView) -> bool {
    alias_of(settings.class_mappings@, r.class) == "SYSTEM"@ && r.title == "resume"@
}

/// A `resume` opens a session at its timestamp from any state, closes
/// nothing, and keeps the class and title that last took focus.
pub proof fn lemma_resume_opens(settings: Settings, st: TrackerView, r: RecordView)
    requires
        is_resume(settings, r),
    ensures
        step(settings, st, r) == (TrackerView { start: Some(r.timestamp), current: st.current }, None::<Span>),
{
    reveal_strlit("resume");
    reveal_strlit("boot");
    assert("resume"@ != "boot"@) by {
        assert("resume"@.len() != "boot"@.len());
    }
}

/// A second `resume` before any close only moves the start forward: the
/// first one leaves no trace, so no time is credited to the gap between them.
pub proof fn lemma_double_resume(settings: Settings, st: TrackerView, r1: RecordView, r2: RecordView)
    requires
        is_resume(settings, r1),
        is_resume(settings, r2),
    ensures
        step(settings, step(settings, st, r1).0, r2) == step(settings, st, r2),
{
    lemma_resume_opens(settings, st, r1);
    lemma_resume_opens(settings, step(settings, st, r1).0, r2);
    lemma_resume_opens(settings, st, r2);
}

/// The milliseconds covered by the first `n` buckets of `bs`.
pub open spec fn covered_upto(bs: Seq<BucketView>, n: int) -> int
    decreases n,
{
    if n <= 0 {
        0
    } else {
        covered_upto(bs, n - 1) + bs[n - 1].2
    }
}

/// The milliseconds covered by all the buckets of `bs`.
pub open spec fn covered_sum(bs: Seq<BucketView>) -> int {
    covered_upto(bs, bs.len() as int)
}

/// Whether `sp` lies inside the `width` buckets of `ms` from `start`.
pub open spec fn inside(sp: Span, start: int, ms: int, width: nat) -> bool {
    start <= sp.start <= sp.end <= start + ms * width
}

proof fn lemma_paint_covered(
    bs: Seq<BucketView>,
    settings: Settings,
    label: Option<Seq<char>>,
    sp: Span,
    start: int,
    ms: int,
    n: int,
)
    requires
        ms > 0,
        0 <= n <= bs.len(),
        start <= sp.start <= sp.end,
        drawn_key(settings, label, sp) is Some,
    ensures
        covered_upto(paint(bs, settings, label, sp, start, ms), n) == covered_upto(bs, n) + (if (if sp.end
            < start + ms * n {
            sp.end
        } else {
            start + ms * n
        }) - sp.start > 0 {
            (if sp.end < start + ms * n {
                sp.end
            } else {
                start + ms * n
            }) - sp.start
        } else {
            0
        }),
    decreases n,
{
    if n > 0 {
        lemma_paint_covered(bs, settings, label, sp, start, ms, n - 1);
        let i = n - 1;
        assert(ms * n == ms * i + ms) by (nonlinear_arith)
            requires
                i == n - 1,
        ;
        let p = paint(bs, settings, label, sp, start, ms);
        let k = drawn_key(settings, label, sp)->Some_0;
        if touches(sp, start, ms, i) {
            assert(p[i] == mark(bs[i], sp, k, start, ms, i));
        } else {
            assert(p[i] == bs[i]);
        }
    } else {
        assert(ms * n == 0) by (nonlinear_arith)
            requires
                n == 0,
        ;
    }
}

proof fn lemma_timeline_covered(
    settings: Settings,
    label: Option<Seq<char>>,
    spans: Seq<Span>,
    width: nat,
    start: int,
    ms: int,
)
    requires
        ms > 0,
        forall|i: int| 0 <= i < spans.len() ==> inside(#[trigger] spans[i], start, ms, width),
        forall|i: int| 0 <= i < spans.len() ==> drawn_key(settings, label, #[trigger] spans[i]) is Some,
    ensures
        covered_sum(timeline_of(settings, label, spans, width, start, ms)) == total_of(spans),
        timeline_of(settings, label, spans, width, start, ms).len() == width,
    decreases spans.len(),
{
    if spans.len() == 0 {
        let bl = timeline_of(settings, label, spans, width, start, ms);
        assert forall|n: int| 0 <= n <= width implies covered_upto(bl, n) == 0 by {
            lemma_blank_covered(bl, n);
        }
    } else {
        let d = spans.drop_last();
        assert forall|i: int| 0 <= i < d.len() implies inside(#[trigger] d[i], start, ms, width) by {
            assert(d[i] == spans[i]);
        }
        assert forall|i: int| 0 <= i < d.len() implies drawn_key(settings, label, #[trigger] d[i]) is Some by {
            assert(d[i] == spans[i]);
        }
        lemma_timeline_covered(settings, label, d, width, start, ms);
        let sp = spans.last();
        assert(inside(spans[spans.len() - 1], start, ms, width));
        assert(drawn_key(settings, label, spans[spans.len() - 1]) is Some);
        let before = timeline_of(settings, label, d, width, start, ms);
        lemma_paint_covered(before, settings, label, sp, start, ms, width as int);
    }
}

proof fn lemma_blank_covered(bl: Seq<BucketView>, n: int)
    requires
        0 <= n <= bl.len(),
        forall|i: int| 0 <= i < bl.len() ==> (#[trigger] bl[i]).2 == 0,
    ensures
        covered_upto(bl, n) == 0,
    decreases n,
{
    if n > 0 {
        lemma_blank_covered(bl, n - 1);
    }
}

/// Where every session lies inside the bucketed window and counts under the
/// mode, the buckets together cover exactly the grand total of the aggregator.
pub proof fn lemma_buckets_cover_total(
    settings: Settings,
    label: Option<Seq<char>>,
    items: Seq<ItemView>,
    now: int,
    width: nat,
    ms: int,
    durations: Result<(Vec<(String, u64)>, u64), ReadError>,
    buckets: Result<Vec<Bucket>, ReadError>,
)
    requires
        width > 0,
        ms == settings.interval.spec_width() / (width as int),
        ms > 0,
        durations_result(settings, items, now, durations),
        timeline_result(settings, label, items, now, width, buckets),
        scan(items) matches Ok(recs) && forall|i: int|
            0 <= i < pass_sessions(settings, recs, now).len() ==> inside(
                #[trigger] pass_sessions(settings, recs, now)[i],
                settings.interval.start as int,
                ms,
                width,
            ) && drawn_key(settings, label, pass_sessions(settings, recs, now)[i]) is Some,
    ensures
        durations matches Ok(d) && buckets matches Ok(b) && covered_sum(buckets_view(b@)) == d.1,
{
    let recs = scan(items)->Ok_0;
    let spans = pass_sessions(settings, recs, now);
    lemma_timeline_covered(settings, label, spans, width, settings.interval.start as int, ms);
}

/// Two passes over the same log with the same options and end of replay give
/// the same outcome: the same failure, or the same ranking, total and buckets.
pub proof fn lemma_replay_repeats(
    settings: Settings,
    label: Option<Seq<char>>,
    items: Seq<ItemView>,
    now: int,
    width: nat,
    d1: Result<(Vec<(String, u64)>, u64), ReadError>,
    d2: Result<(Vec<(String, u64)>, u64), ReadError>,
    t1: Result<Vec<Bucket>, ReadError>,
    t2: Result<Vec<Bucket>, ReadError>,
)
    requires
        durations_result(settings, items, now, d1),
        durations_result(settings, items, now, d2),
        timeline_result(settings, label, items, now, width, t1),
        timeline_result(settings, label, items, now, width, t2),
    ensures
        d1 is Ok <==> d2 is Ok,
        d1 is Err ==> d1 == d2,
        d1 matches Ok(a) ==> (d2 matches Ok(b) && pairs_view(a.0@) == pairs_view(b.0@) && a.1 == b.1),
        t1 is Ok <==> t2 is Ok,
        t1 is Err ==> t1 == t2,
        t1 matches Ok(a) ==> (t2 matches Ok(b) && buckets_view(a@) == buckets_view(b@)),
{
}

/// A missing day file contributes nothing: the stream of a window is that of
/// its files that exist.
pub proof fn lemma_missing_skipped(files: Seq<DayFile>)
    ensures
        stream(files) == stream(files.filter(|f: DayFile| !(f is Missing))),
    decreases files.len(),
{
    reveal(Seq::filter);
    if files.len() > 0 {
        lemma_missing_skipped(files.drop_last());
        assert(files.drop_last().filter(|f: DayFile| !(f is Missing)) == files.filter(
            |f: DayFile| !(f is Missing),
        ).drop_last() || files.last() is Missing);
        if files.last() is Missing {
            assert(file_items(files.last()) =~= Seq::<ItemView>::empty());
            assert(stream(files) =~= stream(files.drop_last()));
        } else {
            let fl = files.filter(|f: DayFile| !(f is Missing));
            assert(fl.last() == files.last());
        }
    }
}

/// A window without any existing day file aggregates to no key and a zero total.
pub proof fn lemma_no_files_empty(
    settings: Settings,
    files: Seq<DayFile>,
    now: int,
    r: Result<(Vec<(String, u64)>, u64), ReadError>,
)
    requires
        forall|i: int| 0 <= i < files.len() ==> (#[trigger] files[i]) is Missing,
        durations_result(settings, stream(files), now, r),
    ensures
        r matches Ok(res) && res.0@.len() == 0 && res.1 == 0,
{
    lemma_missing_skipped(files);
    assert(files.filter(|f: DayFile| !(f is Missing)) =~= Seq::<DayFile>::empty()) by {
        reveal(Seq::filter);
        lemma_filter_none(files);
    }
    assert(stream(Seq::<DayFile>::empty()) == Seq::<ItemView>::empty());
    assert(scan(stream(files)) == Ok::<Seq<RecordView>, ReadError>(Seq::empty()));
    let s = sessions(settings, Seq::empty(), now);
    assert(s.len() == 0);
    assert(total_of(s) == 0);
    assert(tally(settings, s).len() == 0);
}

proof fn lemma_filter_none(files: Seq<DayFile>)
    requires
        forall|i: int| 0 <= i < files.len() ==> (#[trigger] files[i]) is Missing,
    ensures
        files.filter(|f: DayFile| !(f is Missing)).len() == 0,
    decreases files.len(),
{
    reveal(Seq::filter);
    if files.len() > 0 {
        assert forall|i: int| 0 <= i < files.drop_last().len() implies (#[trigger] files.drop_last()[i]) is Missing by {
            assert(files.drop_last()[i] == files[i]);
        }
        lemma_filter_none(files.drop_last());
        assert(files[files.len() - 1] is Missing);
    }
}

/// Replays that reach the same state with the same intervals stay equal
/// over any continuation.
proof fn lemma_replay_congruent(settings: Settings, a: Seq<RecordView>, b: Seq<RecordView>, q: Seq<RecordView>)
    requires
        replay(settings, a) == replay(settings, b),
    ensures
        replay(settings, a + q) == replay(settings, b + q),
    decreases q.len(),
{
    if q.len() == 0 {
        assert(a + q =~= a);
        assert(b + q =~= b);
    } else {
        lemma_replay_congruent(settings, a, b, q.drop_last());
        assert((a + q).drop_last() =~= a + q.drop_last());
        assert((b + q).drop_last() =~= b + q.drop_last());
        assert((a + q).last() == q.last());
        assert((b + q).last() == q.last());
    }
}

/// A second `resume` before any close leaves the same sessions as the second
/// alone: the gap between the two resumes is never credited.
pub proof fn lemma_double_resume_sessions(
    settings: Settings,
    p: Seq<RecordView>,
    r1: RecordView,
    r2: RecordView,
    q: Seq<RecordView>,
    now: int,
)
    requires
        is_resume(settings, r1),
        is_resume(settings, r2),
    ensures
        replay(settings, p + seq![r1, r2] + q) == replay(settings, p + seq![r2] + q),
        sessions(settings, p + seq![r1, r2] + q, now) == sessions(settings, p + seq![r2] + q, now),
{
    let a = p + seq![r1, r2];
    let b = p + seq![r2];
    let st = replay(settings, p).0;
    lemma_double_resume(settings, st, r1, r2);
    lemma_resume_opens(settings, st, r1);
    lemma_resume_opens(settings, st, r2);
    lemma_resume_opens(settings, step(settings, st, r1).0, r2);
    let a1 = a.drop_last();
    assert(a1.drop_last() =~= p);
    assert(a1.last() == r1);
    assert(a.last() == r2);
    assert(replay(settings, a1) == (step(settings, st, r1).0, replay(settings, p).1));
    assert(replay(settings, a) == (step(settings, step(settings, st, r1).0, r2).0, replay(settings, p).1));
    assert(b.drop_last() =~= p);
    assert(b.last() == r2);
    assert(replay(settings, b) == (step(settings, st, r2).0, replay(settings, p).1));
    lemma_replay_congruent(settings, a, b, q);
}

/// Two logs that differ only by a second `resume` before any close report
/// the same: the same failure, or the same ranking, total and buckets.
pub proof fn lemma_double_resume_reports(
    settings: Settings,
    label: Option<Seq<char>>,
    items1: Seq<ItemView>,
    items2: Seq<ItemView>,
    p: Seq<RecordView>,
    r1: RecordView,
    r2: RecordView,
    q: Seq<RecordView>,
    now: int,
    width: nat,
    d1: Result<(Vec<(String, u64)>, u64), ReadError>,
    d2: Result<(Vec<(String, u64)>, u64), ReadError>,
    t1: Result<Vec<Bucket>, ReadError>,
    t2: Result<Vec<Bucket>, ReadError>,
)
    requires
        is_resume(settings, r1),
        is_resume(settings, r2),
        scan(items1) == Ok::<Seq<RecordView>, ReadError>(p + seq![r1, r2] + q),
        scan(items2) == Ok::<Seq<RecordView>, ReadError>(p + seq![r2] + q),
        durations_result(settings, items1, now, d1),
        durations_result(settings, items2, now, d2),
        timeline_result(settings, label, items1, now, width, t1),
        timeline_result(settings, label, items2, now, width, t2),
    ensures
        d1 is Ok <==> d2 is Ok,
        d1 is Err ==> d1 == d2,
        d1 matches Ok(a) ==> (d2 matches Ok(b) && pairs_view(a.0@) == pairs_view(b.0@) && a.1 == b.1),
        t1 is Ok <==> t2 is Ok,
        t1 is Err ==> t1 == t2,
        t1 matches Ok(a) ==> (t2 matches Ok(b) && buckets_view(a@) == buckets_view(b@)),
{
    lemma_double_resume_sessions(settings, p, r1, r2, q, now);
}

proof fn lemma_total_concat(a: Seq<Span>, b: Seq<Span>)
    ensures
        total_of(a + b) == total_of(a) + total_of(b),
    decreases b.len(),
{
    if b.len() == 0 {
        assert(a + b =~= a);
    } else {
        lemma_total_concat(a, b.drop_last());
        assert((a + b).drop_last() =~= a + b.drop_last());
        assert((a + b).last() == b.last());
    }
}

/// What interval `sp` adds to the covered time of bucket `i`: the length of
/// their overlap where `sp` is drawn and reaches the bucket.
pub open spec fn cover_gain(settings: Settings, label: Option<Seq<char>>, sp: Span, start: int, ms: int, i: int) -> int {
    let lo = start + ms * i;
    let hi = lo + ms;
    if drawn_key(settings, label, sp) is Some && touches(sp, start, ms, i) {
        (if hi < sp.end { hi } else { sp.end }) - (if lo > sp.start { lo } else { sp.start })
    } else {
        0
    }
}

proof fn lemma_paint_gain(bs: Seq<BucketView>, settings: Settings, label: Option<Seq<char>>, sp: Span, start: int, ms: int)
    ensures
        paint(bs, settings, label, sp, start, ms).len() == bs.len(),
        forall|i: int| 0 <= i < bs.len() ==> (#[trigger] paint(bs, settings, label, sp, start, ms)[i]).2 == bs[i].2
            + cover_gain(settings, label, sp, start, ms, i),
{
}

/// Covered time per bucket adds over consecutive runs of intervals.
proof fn lemma_cover_concat(
    settings: Settings,
    label: Option<Seq<char>>,
    a: Seq<Span>,
    b: Seq<Span>,
    width: nat,
    start: int,
    ms: int,
)
    ensures
        timeline_of(settings, label, a + b, width, start, ms).len() == width,
        forall|i: int|
            0 <= i < width ==> (#[trigger] timeline_of(settings, label, a + b, width, start, ms)[i]).2
                == timeline_of(settings, label, a, width, start, ms)[i].2 + timeline_of(
                settings,
                label,
                b,
                width,
                start,
                ms,
            )[i].2,
    decreases a.len() + b.len(),
{
    if b.len() == 0 {
        assert(a + b =~= a);
        if a.len() > 0 {
            lemma_cover_concat(settings, label, a.drop_last(), b, width, start, ms);
            assert(a.drop_last() + b =~= a.drop_last());
            lemma_paint_gain(timeline_of(settings, label, a.drop_last(), width, start, ms), settings, label, a.last(), start, ms);
        }
    } else {
        lemma_cover_concat(settings, label, a, b.drop_last(), width, start, ms);
        assert((a + b).drop_last() =~= a + b.drop_last());
        assert((a + b).last() == b.last());
        lemma_cover_concat(settings, label, Seq::empty(), b.drop_last(), width, start, ms);
        assert(Seq::<Span>::empty() + b.drop_last() =~= b.drop_last());
        lemma_paint_gain(timeline_of(settings, label, a + b.drop_last(), width, start, ms), settings, label, b.last(), start, ms);
        lemma_paint_gain(timeline_of(settings, label, b.drop_last(), width, start, ms), settings, label, b.last(), start, ms);
    }
}

/// Whether `r` is a `boot` marker under `settings`.
pub open spec fn is_boot(settings: Settings, r: RecordView) -> bool {
    alias_of(settings.class_mappings@, r.class) == "SYSTEM"@ && r.title == "boot"@
}

/// Splitting a log at a `boot` marker: the grand total, the duration of every
/// key, and the covered time of every bucket are those of the log up to the
/// boot plus those of the log from the boot on, each replayed on its own.
pub proof fn lemma_boot_adds(
    settings: Settings,
    label: Option<Seq<char>>,
    p: Seq<RecordView>,
    boot: RecordView,
    q: Seq<RecordView>,
    now: int,
    width: nat,
    start: int,
    ms: int,
)
    requires
        is_boot(settings, boot),
    ensures
        total_of(sessions(settings, p + seq![boot] + q, now)) == total_of(sessions(settings, p + seq![boot], now))
            + total_of(sessions(settings, seq![boot] + q, now)),
        forall|k: Seq<char>|
            #[trigger] tally_value(tally(settings, sessions(settings, p + seq![boot] + q, now)), k) == tally_value(
                tally(settings, sessions(settings, p + seq![boot], now)),
                k,
            ) + tally_value(tally(settings, sessions(settings, seq![boot] + q, now)), k),
        forall|i: int|
            0 <= i < width ==> (#[trigger] timeline_of(
                settings,
                label,
                sessions(settings, p + seq![boot] + q, now),
                width,
                start,
                ms,
            )[i]).2 == timeline_of(settings, label, sessions(settings, p + seq![boot], now), width, start, ms)[i].2
                + timeline_of(settings, label, sessions(settings, seq![boot] + q, now), width, start, ms)[i].2,
{
    lemma_boot_split_sessions(settings, p, boot, q, now);
    lemma_total_concat(replay(settings, p).1, sessions(settings, q, now));
    lemma_cover_concat(settings, label, replay(settings, p).1, sessions(settings, q, now), width, start, ms);
    lemma_cover_concat(settings, label, replay(settings, p).1, Seq::empty(), width, start, ms);
    lemma_cover_concat(settings, label, Seq::empty(), sessions(settings, q, now), width, start, ms);
    assert(replay(settings, p).1 + Seq::<Span>::empty() =~= replay(settings, p).1);
    assert(Seq::<Span>::empty() + sessions(settings, q, now) =~= sessions(settings, q, now));
    assert forall|k: Seq<char>|
        #[trigger] tally_value(tally(settings, sessions(settings, p + seq![boot] + q, now)), k) == tally_value(
            tally(settings, sessions(settings, p + seq![boot], now)),
            k,
        ) + tally_value(tally(settings, sessions(settings, seq![boot] + q, now)), k) by {
        lemma_tally_value(settings, sessions(settings, p + seq![boot] + q, now), k);
        lemma_tally_value(settings, sessions(settings, p + seq![boot], now), k);
        lemma_tally_value(settings, sessions(settings, seq![boot] + q, now), k);
        lemma_keyed_concat(settings, replay(settings, p).1, sessions(settings, q, now), k);
    }
}

proof fn lemma_keyed_concat(settings: Settings, a: Seq<Span>, b: Seq<Span>, k: Seq<char>)
    ensures
        keyed_total(settings, a + b, k) == keyed_total(settings, a, k) + keyed_total(settings, b, k),
    decreases b.len(),
{
    if b.len() == 0 {
        assert(a + b =~= a);
    } else {
        lemma_keyed_concat(settings, a, b.drop_last(), k);
        assert((a + b).drop_last() =~= a + b.drop_last());
        assert((a + b).last() == b.last());
    }
}

/// A window without any existing day file gives blank buckets, not an error.
pub proof fn lemma_no_files_blank(
    settings: Settings,
    label: Option<Seq<char>>,
    files: Seq<DayFile>,
    now: int,
    width: nat,
    t: Result<Vec<Bucket>, ReadError>,
)
    requires
        forall|i: int| 0 <= i < files.len() ==> (#[trigger] files[i]) is Missing,
        timeline_result(settings, label, stream(files), now, width, t),
    ensures
        t matches Ok(b) && buckets_view(b@) == blank(width),
{
    lemma_missing_skipped(files);
    assert(files.filter(|f: DayFile| !(f is Missing)) =~= Seq::<DayFile>::empty()) by {
        reveal(Seq::filter);
        lemma_filter_none(files);
    }
    assert(stream(Seq::<DayFile>::empty()) == Seq::<ItemView>::empty());
    assert(scan(stream(files)) == Ok::<Seq<RecordView>, ReadError>(Seq::empty()));
    assert(sessions(settings, Seq::empty(), now).len() == 0);
}

proof fn lemma_boot_split_sessions(settings: Settings, p: Seq<RecordView>, boot: RecordView, q: Seq<RecordView>, now: int)
    requires
        is_boot(settings, boot),
    ensures
        sessions(settings, p + seq![boot] + q, now) == replay(settings, p).1 + sessions(settings, q, now),
        sessions(settings, p + seq![boot], now) == replay(settings, p).1,
        sessions(settings, seq![boot] + q, now) == sessions(settings, q, now),
{
    let recs = p + seq![boot] + q;
    let b = p.len() as int;
    assert(recs[b] == boot);
    lemma_boot_resets(settings, recs, b, now);
    assert(recs.take(b) =~= p);
    assert(recs.skip(b + 1) =~= q);
    let head = p + seq![boot];
    assert(head.drop_last() =~= p);
    assert(head.last() == boot);
    assert(replay(settings, head) == (fresh(), replay(settings, p).1));
    let one = seq![boot];
    assert(one.drop_last() =~= Seq::<RecordView>::empty());
    assert(one.last() == boot);
    assert(replay(settings, Seq::<RecordView>::empty()) == (fresh(), Seq::<Span>::empty()));
    assert(replay(settings, one) == (fresh(), Seq::<Span>::empty()));
    lemma_replay_split(settings, one, q);
    assert(Seq::<Span>::empty() + replay(settings, q).1 =~= replay(settings, q).1);
    assert(replay(settings, seq![boot] + q) == replay(settings, q));
}

/// Whether `r` is a focus change under `settings` (its class is not `SYSTEM`).
pub open spec fn is_focus(settings: Settings, r: RecordView) -> bool {
    alias_of(settings.class_mappings@, r.class) != "SYSTEM"@
}

/// Whether `r` is a `boot`, `idle` or `shutdown` marker under `settings`.
pub open spec fn is_stop_marker(settings: Settings, r: RecordView) -> bool {
    alias_of(settings.class_mappings@, r.class) == "SYSTEM"@ && (r.title == "boot"@ || r.title == "idle"@
        || r.title == "shutdown"@)
}

proof fn lemma_marker_words_differ()
    ensures
        "boot"@ != "resume"@,
        "idle"@ != "resume"@,
        "shutdown"@ != "resume"@,
        "idle"@ != "boot"@,
        "shutdown"@ != "boot"@,
{
    reveal_strlit("boot");
    reveal_strlit("resume");
    reveal_strlit("idle");
    reveal_strlit("shutdown");
    assert("boot"@[0] != "resume"@[0]);
    assert("idle"@[0] != "resume"@[0]);
    assert("shutdown"@[0] != "resume"@[0]);
    assert("idle"@[0] != "boot"@[0]);
    assert("shutdown"@[0] != "boot"@[0]);
}

proof fn lemma_no_focus_yet(settings: Settings, b: Seq<RecordView>)
    requires
        forall|i: int| 0 <= i < b.len() ==> !is_focus(settings, #[trigger] b[i]),
    ensures
        replay(settings, b).0.current is None,
        replay(settings, b).1.len() == 0,
    decreases b.len(),
{
    if b.len() > 0 {
        assert forall|i: int| 0 <= i < b.drop_last().len() implies !is_focus(settings, #[trigger] b.drop_last()[i]) by {
            assert(b.drop_last()[i] == b[i]);
        }
        lemma_no_focus_yet(settings, b.drop_last());
        assert(!is_focus(settings, b[b.len() - 1]));
    }
}

proof fn lemma_stops_close_nothing(settings: Settings, pre: Seq<RecordView>, a: Seq<RecordView>)
    requires
        replay(settings, pre).0.start is None,
        forall|i: int| 0 <= i < a.len() ==> is_stop_marker(settings, #[trigger] a[i]),
    ensures
        replay(settings, pre + a).0.start is None,
        replay(settings, pre + a).1 == replay(settings, pre).1,
    decreases a.len(),
{
    lemma_marker_words_differ();
    if a.len() == 0 {
        assert(pre + a =~= pre);
    } else {
        assert forall|i: int| 0 <= i < a.drop_last().len() implies is_stop_marker(settings, #[trigger] a.drop_last()[i]) by {
            assert(a.drop_last()[i] == a[i]);
        }
        lemma_stops_close_nothing(settings, pre, a.drop_last());
        assert((pre + a).drop_last() =~= pre + a.drop_last());
        assert((pre + a).last() == a.last());
        assert(is_stop_marker(settings, a[a.len() - 1]));
    }
}

/// A log with exactly one open-to-close session: records without a focus
/// change, then a focus change at `open`, then an `idle` or `shutdown` at
/// `close`, then only `boot`, `idle` or `shutdown` markers. Its one session
/// runs from `open` to `close`: the grand total is `close - open`, and so is
/// the one tally entry where the class counts under the mode.
pub proof fn lemma_one_session_log(
    settings: Settings,
    b: Seq<RecordView>,
    opening: RecordView,
    closer: RecordView,
    a: Seq<RecordView>,
    now: int,
)
    requires
        forall|i: int| 0 <= i < b.len() ==> !is_focus(settings, #[trigger] b[i]),
        is_focus(settings, opening),
        alias_of(settings.class_mappings@, closer.class) == "SYSTEM"@,
        closer.title == "idle"@ || closer.title == "shutdown"@,
        forall|i: int| 0 <= i < a.len() ==> is_stop_marker(settings, #[trigger] a[i]),
    ensures
        ({
            let s = sessions(settings, b + seq![opening, closer] + a, now);
            let class = alias_of(settings.class_mappings@, opening.class);
            &&& s.len() == 1
            &&& s[0] == Span { start: opening.timestamp, end: closer.timestamp, class, title: opening.title }
            &&& total_of(s) == closer.timestamp - opening.timestamp
            &&& counted_key(settings, class, opening.title) matches Some(k) ==> tally(settings, s) == seq![
                (k, closer.timestamp - opening.timestamp),
            ]
        }),
{
    lemma_marker_words_differ();
    lemma_no_focus_yet(settings, b);
    let pre = b + seq![opening, closer];
    let p1 = pre.drop_last();
    assert(p1.drop_last() =~= b);
    assert(p1.last() == opening);
    assert(pre.last() == closer);
    let class = alias_of(settings.class_mappings@, opening.class);
    let sp = Span { start: opening.timestamp, end: closer.timestamp, class, title: opening.title };
    assert(replay(settings, p1).1 == replay(settings, b).1);
    let st0 = replay(settings, b).0;
    let st1 = TrackerView { start: Some(opening.timestamp), current: Some((class, opening.title)) };
    assert(step(settings, st0, opening) == (st1, None::<Span>));
    assert(replay(settings, p1) == (st1, replay(settings, b).1));
    assert(step(settings, st1, closer) == (TrackerView { start: None, current: st1.current }, Some(sp)));
    assert(replay(settings, pre).1 == seq![sp]) by {
        assert(replay(settings, b).1 =~= Seq::<Span>::empty());
        assert(Seq::<Span>::empty().push(sp) =~= seq![sp]);
    }
    assert(replay(settings, pre).0.start is None);
    lemma_stops_close_nothing(settings, pre, a);
    let s = sessions(settings, b + seq![opening, closer] + a, now);
    assert(b + seq![opening, closer] + a =~= pre + a);
    lemma_single_session(settings, b + seq![opening, closer] + a, now);
}

/// The summed length of the intervals of `spans` credited to key `k`.
pub open spec fn keyed_total(settings: Settings, spans: Seq<Span>, k: Seq<char>) -> int
    decreases spans.len(),
{
    if spans.len() == 0 {
        0
    } else {
        keyed_total(settings, spans.drop_last(), k) + if counted_key(settings, spans.last().class, spans.last().title)
            == Some(k) {
            span_len(spans.last())
        } else {
            0
        }
    }
}

/// The summed length of the intervals of `spans` that are drawn.
pub open spec fn drawn_total(settings: Settings, label: Option<Seq<char>>, spans: Seq<Span>) -> int
    decreases spans.len(),
{
    if spans.len() == 0 {
        0
    } else {
        drawn_total(settings, label, spans.drop_last()) + if drawn_key(settings, label, spans.last()) is Some {
            span_len(spans.last())
        } else {
            0
        }
    }
}

/// The duration a tally holds for key `k` (zero where `k` is absent).
pub open spec fn tally_value(t: Seq<(Seq<char>, int)>, k: Seq<char>) -> int {
    if key_index(t, k) >= 0 {
        t[key_index(t, k)].1
    } else {
        0
    }
}

proof fn lemma_credit_value(t: Seq<(Seq<char>, int)>, k2: Seq<char>, d: int, k: Seq<char>)
    ensures
        tally_value(credit(t, k2, d), k) == tally_value(t, k) + if k2 == k {
            d
        } else {
            0
        },
{
    lemma_key_index(t, k2);
    lemma_key_index(t, k);
    let c = credit(t, k2, d);
    lemma_key_index(c, k);
    let i = key_index(t, k2);
    let j = key_index(t, k);
    if i >= 0 {
        assert forall|m: int| 0 <= m < c.len() implies (#[trigger] c[m]).0 == t[m].0 by {}
        if j >= 0 {
            assert(c[j].0 == k);
            assert(key_index(c, k) <= j);
            assert(t[key_index(c, k)].0 == k);
        } else {
            assert(forall|m: int| 0 <= m < c.len() ==> (#[trigger] c[m]).0 != k) by {
                assert forall|m: int| 0 <= m < c.len() implies (#[trigger] c[m]).0 != k by {
                    assert(c[m].0 == t[m].0);
                }
            }
        }
    } else {
        if j >= 0 {
            assert(c[j] == t[j]);
            assert(key_index(c, k) <= j);
            assert(c[key_index(c, k)] == t[key_index(c, k)]);
        } else {
            assert(c[t.len() as int] == (k2, d));
            if k2 == k {
                assert(key_index(c, k) <= t.len());
                assert(key_index(c, k) >= 0);
                if key_index(c, k) < t.len() {
                    assert(c[key_index(c, k)] == t[key_index(c, k)]);
                }
            } else {
                assert forall|m: int| 0 <= m < c.len() implies (#[trigger] c[m]).0 != k by {
                    if m < t.len() {
                        assert(c[m] == t[m]);
                    }
                }
            }
        }
    }
}

/// The tally holds, for each key, the summed length of the intervals credited to it.
pub proof fn lemma_tally_value(settings: Settings, spans: Seq<Span>, k: Seq<char>)
    ensures
        tally_value(tally(settings, spans), k) == keyed_total(settings, spans, k),
    decreases spans.len(),
{
    if spans.len() > 0 {
        lemma_tally_value(settings, spans.drop_last(), k);
        let sp = spans.last();
        if let Some(k2) = counted_key(settings, sp.class, sp.title) {
            lemma_credit_value(tally(settings, spans.drop_last()), k2, span_len(sp), k);
        }
    } else {
        assert(key_index(Seq::<(Seq<char>, int)>::empty(), k) == -1);
    }
}

proof fn lemma_drawn_covered(
    settings: Settings,
    label: Option<Seq<char>>,
    spans: Seq<Span>,
    width: nat,
    start: int,
    ms: int,
)
    requires
        ms > 0,
        forall|i: int| 0 <= i < spans.len() ==> inside(#[trigger] spans[i], start, ms, width),
    ensures
        covered_sum(timeline_of(settings, label, spans, width, start, ms)) == drawn_total(settings, label, spans),
        timeline_of(settings, label, spans, width, start, ms).len() == width,
        forall|i: int|
            0 <= i < width ==> (#[trigger] timeline_of(settings, label, spans, width, start, ms)[i]).0.len() == 0
                || label == Some(timeline_of(settings, label, spans, width, start, ms)[i].0) || !settings.multi_timeline,
    decreases spans.len(),
{
    if spans.len() == 0 {
        let bl = timeline_of(settings, label, spans, width, start, ms);
        lemma_blank_covered(bl, width as int);
    } else {
        let d = spans.drop_last();
        assert forall|i: int| 0 <= i < d.len() implies inside(#[trigger] d[i], start, ms, width) by {
            assert(d[i] == spans[i]);
        }
        lemma_drawn_covered(settings, label, d, width, start, ms);
        let sp = spans.last();
        assert(inside(spans[spans.len() - 1], start, ms, width));
        let before = timeline_of(settings, label, d, width, start, ms);
        if drawn_key(settings, label, sp) is Some {
            lemma_paint_covered(before, settings, label, sp, start, ms, width as int);
        }
    }
}

/// In multi-series mode, where every session lies inside the bucketed window,
/// the timeline of key `l`
/// covers exactly the duration that the aggregator credits to `l`, and its
/// buckets hold no other key.
pub proof fn lemma_series_cover_key(
    settings: Settings,
    l: Seq<char>,
    items: Seq<ItemView>,
    now: int,
    width: nat,
    ms: int,
    durations: Result<(Vec<(String, u64)>, u64), ReadError>,
    buckets: Result<Vec<Bucket>, ReadError>,
)
    requires
        width > 0,
        ms == settings.interval.spec_width() / (width as int),
        ms > 0,
        settings.multi_timeline,
        durations_result(settings, items, now, durations),
        timeline_result(settings, Some(l), items, now, width, buckets),
        scan(items) matches Ok(recs) && forall|i: int|
            0 <= i < pass_sessions(settings, recs, now).len() ==> inside(
                #[trigger] pass_sessions(settings, recs, now)[i],
                settings.interval.start as int,
                ms,
                width,
            ),
    ensures
        ({
            let recs = scan(items)->Ok_0;
            let t = tally(settings, pass_sessions(settings, recs, now));
            &&& durations matches Ok(d) && ranked(d.0@, t)
            &&& buckets matches Ok(b) && covered_sum(buckets_view(b@)) == tally_value(t, l)
            &&& buckets matches Ok(b) && forall|i: int|
                0 <= i < b@.len() ==> (#[trigger] b@[i]).0@.len() == 0 || b@[i].0@ == l
        }),
{
    let recs = scan(items)->Ok_0;
    let spans = pass_sessions(settings, recs, now);
    let start = settings.interval.start as int;
    lemma_drawn_covered(settings, Some(l), spans, width, start, ms);
    lemma_tally_value(settings, spans, l);
    lemma_drawn_is_keyed(settings, l, spans);
    let b = buckets->Ok_0;
    assert forall|i: int| 0 <= i < b@.len() implies (#[trigger] b@[i]).0@.len() == 0 || b@[i].0@ == l by {
        assert(buckets_view(b@)[i] == timeline_of(settings, Some(l), spans, width, start, ms)[i]);
    }
}

proof fn lemma_drawn_is_keyed(settings: Settings, l: Seq<char>, spans: Seq<Span>)
    requires
        settings.multi_timeline,
    ensures
        drawn_total(settings, Some(l), spans) == keyed_total(settings, spans, l),
    decreases spans.len(),
{
    if spans.len() > 0 {
        lemma_drawn_is_keyed(settings, l, spans.drop_last());
    }
}

/// The report of a log with exactly one open-to-close session (as in
/// `lemma_one_session_log`): the grand total is `close - open`, and where
/// the class counts under the mode the ranking is that one key with that
/// duration.
pub proof fn lemma_one_session_report(
    settings: Settings,
    items: Seq<ItemView>,
    b: Seq<RecordView>,
    opening: RecordView,
    closer: RecordView,
    a: Seq<RecordView>,
    now: int,
    r: Result<(Vec<(String, u64)>, u64), ReadError>,
)
    requires
        forall|i: int| 0 <= i < b.len() ==> !is_focus(settings, #[trigger] b[i]),
        is_focus(settings, opening),
        alias_of(settings.class_mappings@, closer.class) == "SYSTEM"@,
        closer.title == "idle"@ || closer.title == "shutdown"@,
        forall|i: int| 0 <= i < a.len() ==> is_stop_marker(settings, #[trigger] a[i]),
        scan(items) == Ok::<Seq<RecordView>, ReadError>(b + seq![opening, closer] + a),
        durations_result(settings, items, now, r),
    ensures
        r matches Ok(res) && res.1 == closer.timestamp - opening.timestamp,
        counted_key(settings, alias_of(settings.class_mappings@, opening.class), opening.title) matches Some(k)
            ==> (r matches Ok(res) && pairs_view(res.0@) == seq![(k, closer.timestamp - opening.timestamp)]),
{
    let recs = b + seq![opening, closer] + a;
    lemma_one_session_log(settings, b, opening, closer, a, end_of(recs, now));
    let d = closer.timestamp - opening.timestamp;
    if let Some(k) = counted_key(settings, alias_of(settings.class_mappings@, opening.class), opening.title) {
        let t = seq![(k, d)];
        assert(t.drop_first() =~= Seq::<(Seq<char>, int)>::empty());
        assert(rank_of(t.drop_first()) == Seq::<(Seq<char>, int)>::empty());
        assert(rank_of(t) =~= t);
    }
}

/// The reports of a log split at a `boot` marker add up: the grand total,
/// the tally of every key, and the covered time of every bucket of the whole
/// log are those of the part up to the boot plus those of the part from the
/// boot on, each read on its own with the same options and end of replay.
pub proof fn lemma_boot_adds_reports(
    settings: Settings,
    label: Option<Seq<char>>,
    items: Seq<ItemView>,
    head: Seq<ItemView>,
    tail: Seq<ItemView>,
    p: Seq<RecordView>,
    boot: RecordView,
    q: Seq<RecordView>,
    now: int,
    width: nat,
    d: Result<(Vec<(String, u64)>, u64), ReadError>,
    dh: Result<(Vec<(String, u64)>, u64), ReadError>,
    dt: Result<(Vec<(String, u64)>, u64), ReadError>,
    t: Result<Vec<Bucket>, ReadError>,
    th: Result<Vec<Bucket>, ReadError>,
    tt: Result<Vec<Bucket>, ReadError>,
)
    requires
        is_boot(settings, boot),
        scan(items) == Ok::<Seq<RecordView>, ReadError>(p + seq![boot] + q),
        scan(head) == Ok::<Seq<RecordView>, ReadError>(p + seq![boot]),
        scan(tail) == Ok::<Seq<RecordView>, ReadError>(seq![boot] + q),
        durations_result(settings, items, now, d),
        durations_result(settings, head, now, dh),
        durations_result(settings, tail, now, dt),
        timeline_result(settings, label, items, now, width, t),
        timeline_result(settings, label, head, now, width, th),
        timeline_result(settings, label, tail, now, width, tt),
    ensures
        d matches Ok(x) && dh matches Ok(y) && dt matches Ok(z) && x.1 == y.1 + z.1,
        forall|k: Seq<char>|
            #[trigger] tally_value(tally(settings, pass_sessions(settings, p + seq![boot] + q, now)), k) == tally_value(
                tally(settings, pass_sessions(settings, p + seq![boot], now)),
                k,
            ) + tally_value(tally(settings, pass_sessions(settings, seq![boot] + q, now)), k),
        t matches Ok(x) && th matches Ok(y) && tt matches Ok(z) && forall|i: int|
            0 <= i < width ==> (#[trigger] buckets_view(x@)[i]).2 == buckets_view(y@)[i].2 + buckets_view(z@)[i].2,
{
    let whole = p + seq![boot] + q;
    let first = p + seq![boot];
    let rest = seq![boot] + q;
    let e = end_of(whole, now);
    assert(whole.last() == rest.last());
    assert(end_of(rest, now) == e);
    lemma_boot_split_sessions(settings, p, boot, q, e);
    lemma_boot_split_sessions(settings, p, boot, q, end_of(first, now));
    assert(pass_sessions(settings, first, now) == sessions(settings, first, e));
    let ms = settings.interval.spec_width() / (width as int);
    lemma_boot_adds(settings, label, p, boot, q, e, width, settings.interval.start as int, ms);
    let x = t->Ok_0;
    let y = th->Ok_0;
    let z = tt->Ok_0;
    assert forall|i: int| 0 <= i < width implies (#[trigger] buckets_view(x@)[i]).2 == buckets_view(y@)[i].2
        + buckets_view(z@)[i].2 by {
        assert(buckets_view(x@)[i] == timeline_of(settings, label, sessions(settings, whole, e), width, settings.interval.start as int, ms)[i]);
    }
}

} // verus!
