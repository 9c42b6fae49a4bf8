//! The timeline bucketer: the window cut into equal buckets, each with the
//! dominant key by a streaming weighted vote, the time covered, and whether
//! covered time reaches near its left and right edges.

use vstd::prelude::*;
use crate::clock::now_millis;
use crate::reader::{ItemView, LogReader, ReadError};
use crate::replay::{collect_sessions, ordered_spans, pass_sessions, scan, spans_of};
use crate::session::{Session, Span, sessions};
use crate::settings::{Settings, counted_key, counts, key};

verus! {

/// One bucket: dominant key (empty for none yet), its running vote, the
/// milliseconds covered, and the left-edge and right-edge flags.
pub type Bucket = (String, i64, i64, bool, bool);

/// The mathematical content of a `Bucket`.
pub type BucketView = (Seq<char>, int, int, bool, bool);

/// The view of a bucket.
pub open spec fn bucket_view(b: Bucket) -> BucketView {
    (b.0@, b.1 as int, b.2 as int, b.3, b.4)
}

/// The views of a sequence of buckets.
pub open spec fn buckets_view(v: Seq<Bucket>) -> Seq<BucketView> {
    v.map_values(|b: Bucket| bucket_view(b))
}

/// `width` buckets with no activity.
pub open spec fn blank(width: nat) -> Seq<BucketView> {
    Seq::new(width, |i: int| (Seq::<char>::empty(), 0int, 0int, false, false))
}

/// Which bucket the instant `t` falls in, counted from `start` in buckets of `ms`.
pub open spec fn section_of(start: int, ms: int, t: int) -> int {
    (t - start) / ms
}

/// Whether the interval `sp` reaches bucket `i`: it starts before the bucket
/// ends and ends no earlier than the bucket starts.
pub open spec fn touches(sp: Span, start: int, ms: int, i: int) -> bool {
    sp.start < start + ms * (i + 1) && start + ms * i <= sp.end
}

/// The key under which `sp` is drawn: its key where its class counts under
/// `settings`, and in multi-series mode only where that key is `label`.
pub open spec fn drawn_key(settings: Settings, label: Option<Seq<char>>, sp: Span) -> Option<Seq<char>> {
    match counted_key(settings, sp.class, sp.title) {
        Some(k) => if !settings.multi_timeline || label == Some(k) {
            Some(k)
        } else {
            None
        },
        None => None,
    }
}

/// Bucket `b` (index `i`) after interval `sp` of key `k` is laid over it.
pub open spec fn mark(b: BucketView, sp: Span, k: Seq<char>, start: int, ms: int, i: int) -> BucketView {
    let lo = start + ms * i;
    let hi = lo + ms;
    let pad = ms / 10;
    let c = (if hi < sp.end { hi } else { sp.end }) - (if lo > sp.start { lo } else { sp.start });
    let left = b.3 || lo + pad >= sp.start;
    let right = b.4 || hi - pad <= sp.end;
    if b.0 == k {
        (b.0, b.1 + c, b.2 + c, left, right)
    } else if b.1 - c < 0 {
        (k, c - b.1, b.2 + c, left, right)
    } else {
        (b.0, b.1 - c, b.2 + c, left, right)
    }
}

/// The buckets after interval `sp` is laid over every bucket it reaches.
pub open spec fn paint(
    bs: Seq<BucketView>,
    settings: Settings,
    label: Option<Seq<char>>,
    sp: Span,
    start: int,
    ms: int,
) -> Seq<BucketView> {
    match drawn_key(settings, label, sp) {
        Some(k) => Seq::new(
            bs.len(),
            |i: int|
                if touches(sp, start, ms, i) {
                    mark(bs[i], sp, k, start, ms, i)
                } else {
                    bs[i]
                },
        ),
        None => bs,
    }
}

/// The timeline of `spans`: `width` buckets of `ms` from `start`, each span laid over in turn.
pub open spec fn timeline_of(
    settings: Settings,
    label: Option<Seq<char>>,
    spans: Seq<Span>,
    width: nat,
    start: int,
    ms: int,
) -> Seq<BucketView>
    decreases spans.len(),
{
    if spans.len() == 0 {
        blank(width)
    } else {
        paint(
            timeline_of(settings, label, spans.drop_last(), width, start, ms),
            settings,
            label,
            spans.last(),
            start,
            ms,
        )
    }
}

/// The optional label as a sequence.
pub open spec fn label_view(label: Option<&String>) -> Option<Seq<char>> {
    match label {
        Some(l) => Some(l@),
        None => None,
    }
}

/// What the bucketer owes for the log `items` replayed up to `now`, over
/// `width` buckets of the window of `settings`: the failure of the pass, or
/// the timeline of its sessions.
pub open spec fn timeline_result(
    settings: Settings,
    label: Option<Seq<char>>,
    items: Seq<ItemView>,
    now: int,
    width: nat,
    r: Result<Vec<Bucket>, ReadError>,
) -> bool {
    let ms = settings.interval.spec_width() / (width as int);
    match scan(items) {
        Err(e) => r == Err::<Vec<Bucket>, ReadError>(e),
        Ok(recs) => r matches Ok(v) && buckets_view(v@) == timeline_of(
            settings,
            label,
            pass_sessions(settings, recs, now),
            width,
            settings.interval.start as int,
            ms,
        ),
    }
}

/// The part of bucket `i` that lies before `cursor`.
pub open spec fn filled(start: int, ms: int, i: int, cursor: int) -> int {
    let lo = start + ms * i;
    let hi = lo + ms;
    let top = if hi < cursor { hi } else { cursor };
    if top > lo { top - lo } else { 0 }
}

/// Every bucket's figures are bounded by the time before `cursor` that it spans.
pub open spec fn bounded(v: Seq<Bucket>, start: int, ms: int, cursor: int) -> bool {
    forall|i: int|
        0 <= i < v.len() ==> 0 <= (#[trigger] v[i]).1 <= v[i].2 && v[i].2 <= filled(start, ms, i, cursor)
}

/// The bucket index of instant `timestamp`, for an instant inside the window.
pub fn section_index(starting_ms: i64, ms_per_section: i64, timestamp: i64) -> (r: usize)
    requires
        ms_per_section > 0,
        starting_ms <= timestamp,
        (timestamp - starting_ms) / (ms_per_section as int) <= usize::MAX,
    ensures
        r == section_of(starting_ms as int, ms_per_section as int, timestamp as int),
{
    ((timestamp as i128 - starting_ms as i128) / ms_per_section as i128) as usize
}

proof fn lemma_div_bounds(x: int, ms: int)
    requires
        x >= 0,
        ms > 0,
    ensures
        ms * (x / ms) <= x < ms * (x / ms + 1),
        x / ms >= 0,
{
    vstd::arithmetic::div_mod::lemma_fundamental_div_mod(x, ms);
    vstd::arithmetic::div_mod::lemma_mod_pos_bound(x, ms);
    vstd::arithmetic::div_mod::lemma_div_pos_is_pos(x, ms);
    assert(ms * (x / ms + 1) == ms * (x / ms) + ms) by (nonlinear_arith);
}

proof fn lemma_mul_le(ms: int, a: int, b: int)
    requires
        ms > 0,
        a <= b,
    ensures
        ms * a <= ms * b,
{
    assert(ms * a <= ms * b) by (nonlinear_arith)
        requires
            ms > 0,
            a <= b,
    ;
}

/// Lays the interval `sp`, drawn under key `k`, over the buckets it reaches.
fn paint_span(
    v: &mut Vec<Bucket>,
    sp: &Session,
    k: &String,
    start: i64,
    ms: i64,
    Ghost(settings): Ghost<Settings>,
    Ghost(label): Ghost<Option<Seq<char>>>,
    Ghost(cursor): Ghost<int>,
)
    requires
        ms > 0,
        old(v)@.len() > 0,
        start + ms * old(v)@.len() <= i64::MAX,
        drawn_key(settings, label, sp@) == Some(k@),
        sp.start <= sp.end,
        cursor <= sp.start,
        bounded(old(v)@, start as int, ms as int, cursor),
    ensures
        buckets_view(final(v)@) == paint(buckets_view(old(v)@), settings, label, sp@, start as int, ms as int),
        bounded(final(v)@, start as int, ms as int, sp.end as int),
        final(v)@.len() == old(v)@.len(),
{
    let ghost old_v = buckets_view(v@);
    let ghost target = paint(old_v, settings, label, sp@, start as int, ms as int);
    let width = v.len();
    let ghost w = width as int;
    proof {
        lemma_mul_le(ms as int, w - 1, w);
        lemma_mul_le(ms as int, 0, w - 1);
        assert(ms * (w - 1) + ms == ms * w) by (nonlinear_arith);
    }
    let last_start: i64 = (start as i128 + ms as i128 * (width - 1) as i128) as i64;
    if sp.end < start || sp.start >= last_start + ms {
        // The interval lies wholly outside the window.
        assert forall|i: int| 0 <= i < w implies !touches(sp@, start as int, ms as int, i) by {
            lemma_mul_le(ms as int, i + 1, w);
            lemma_mul_le(ms as int, 0, i);
        }
        assert(buckets_view(v@) =~= target);
        assert forall|i: int| 0 <= i < w implies 0 <= (#[trigger] v@[i]).1 <= v@[i].2 && v@[i].2 <= filled(
            start as int,
            ms as int,
            i,
            sp.end as int,
        ) by {
            assert(filled(start as int, ms as int, i, cursor) <= filled(start as int, ms as int, i, sp.end as int));
        }
        return;
    }
    proof {
        if sp.start > start {
            lemma_div_bounds(sp.start - start, ms as int);
            if (sp.start - start) / (ms as int) >= w {
                lemma_mul_le(ms as int, w, (sp.start - start) / (ms as int));
            }
        }
        if start <= sp.end < last_start + ms {
            lemma_div_bounds(sp.end - start, ms as int);
            if (sp.end - start) / (ms as int) >= w {
                lemma_mul_le(ms as int, w, (sp.end - start) / (ms as int));
            }
        }
    }
    let lo: usize = if sp.start <= start {
        0
    } else {
        section_index(start, ms, sp.start)
    };
    let hi: usize = if sp.end >= last_start + ms {
        width - 1
    } else {
        section_index(start, ms, sp.end)
    };
    proof {
        let s0 = sp.start as int;
        let e0 = sp.end as int;
        let st = start as int;
        let m = ms as int;
        if s0 > st {
            lemma_div_bounds(s0 - st, m);
            let q = (s0 - st) / m;
            if q >= w {
                lemma_mul_le(m, w, q);
            }
        }
        if e0 < last_start + ms {
            lemma_div_bounds(e0 - st, m);
            let q = (e0 - st) / m;
            if q >= w {
                lemma_mul_le(m, w, q);
            }
        }
        assert forall|i: int| 0 <= i < w implies touches(sp@, st, m, i) == (lo <= i <= hi) by {
            lemma_mul_le(m, 0, i);
            assert(m * (i + 1) == m * i + m) by (nonlinear_arith);
            if s0 > st {
                let q = (s0 - st) / m;
                if i < q {
                    lemma_mul_le(m, i + 1, q);
                } else {
                    lemma_mul_le(m, q + 1, i + 1);
                }
            }
            if e0 < last_start + ms {
                let q = (e0 - st) / m;
                if i <= q {
                    lemma_mul_le(m, i, q);
                } else {
                    lemma_mul_le(m, q + 1, i);
                }
            } else {
                lemma_mul_le(m, i, w - 1);
            }
        }
        assert(touches(sp@, st, m, lo as int)) by {
            if s0 > st {
                lemma_div_bounds(s0 - st, m);
            }
        }
    }
    let pad = ms / 10;
    let mut j: usize = lo;
    while j <= hi
        invariant
            lo <= j <= hi + 1,
            hi < width,
            width == v@.len(),
            w == width,
            ms > 0,
            start + ms * w <= i64::MAX,
            pad == ms / 10,
            cursor <= sp.start <= sp.end,
            old_v.len() == w,
            target == paint(old_v, settings, label, sp@, start as int, ms as int),
            drawn_key(settings, label, sp@) == Some(k@),
            forall|i: int| 0 <= i < w ==> touches(sp@, start as int, ms as int, i) == (lo <= i <= hi),
            forall|i: int| 0 <= i < w && !(lo <= i < j) ==> bucket_view(#[trigger] v@[i]) == old_v[i],
            forall|i: int|
                0 <= i < w && lo <= i < j ==> bucket_view(#[trigger] v@[i]) == mark(
                    old_v[i],
                    sp@,
                    k@,
                    start as int,
                    ms as int,
                    i,
                ),
            forall|i: int|
                0 <= i < w && !(lo <= i < j) ==> 0 <= (#[trigger] v@[i]).1 <= v@[i].2 && v@[i].2 <= filled(
                    start as int,
                    ms as int,
                    i,
                    cursor,
                ),
            forall|i: int|
                0 <= i < w && lo <= i < j ==> 0 <= (#[trigger] v@[i]).1 <= v@[i].2 && v@[i].2 <= filled(
                    start as int,
                    ms as int,
                    i,
                    sp.end as int,
                ),
        decreases hi + 1 - j,
    {
        proof {
            lemma_mul_le(ms as int, j as int + 1, w);
            lemma_mul_le(ms as int, j as int, w);
            lemma_mul_le(ms as int, 0, j as int);
            assert(ms * j + ms == ms * (j + 1)) by (nonlinear_arith);
        }
        let lo_edge: i64 = (start as i128 + ms as i128 * j as i128) as i64;
        let hi_edge: i64 = lo_edge + ms;
        assert(touches(sp@, start as int, ms as int, j as int));
        assert(0 <= v@[j as int].1 <= v@[j as int].2);
        assert(!(lo <= j < j));
        let top = if hi_edge < sp.end { hi_edge } else { sp.end };
        let bottom = if lo_edge > sp.start { lo_edge } else { sp.start };
        let c = top - bottom;
        let left = v[j].3 || lo_edge + pad >= sp.start;
        let right = v[j].4 || hi_edge - pad <= sp.end;
        let covered = v[j].2 + c;
        let vote = v[j].1;
        let updated: Bucket = if v[j].0 == *k {
            (k.clone(), vote + c, covered, left, right)
        } else if vote - c < 0 {
            (k.clone(), c - vote, covered, left, right)
        } else {
            (v[j].0.clone(), vote - c, covered, left, right)
        };
        v.set(j, updated);
        j = j + 1;
    }
    assert(buckets_view(v@) =~= target);
    assert forall|i: int| 0 <= i < w implies 0 <= (#[trigger] v@[i]).1 <= v@[i].2 && v@[i].2 <= filled(
        start as int,
        ms as int,
        i,
        sp.end as int,
    ) by {
        if !(lo <= i < j) {
            assert(filled(start as int, ms as int, i, cursor) <= filled(start as int, ms as int, i, sp.end as int));
        }
    }
}

} // verus!

verus! {

/// Lays the log of `reader`, replayed from its start up to `now`, over
/// `width` equal buckets of the window of `settings`. Only sessions with a
/// key count; in multi-series mode only those whose key is `label`.
pub fn timeline_at(
    reader: &mut LogReader,
    width: usize,
    settings: &Settings,
    label: Option<&String>,
    now: i64,
) -> (r: Result<Vec<Bucket>, ReadError>)
    requires
        width > 0,
        width <= settings.interval.spec_width() <= i64::MAX,
    ensures
        final(reader).wf(),
        final(reader).files() == old(reader).files(),
        timeline_result(*settings, label_view(label), old(reader).items(), now as int, width as nat, r),
{
    let start = settings.interval.start;
    let ms: i64 = ((settings.interval.end as i128 - start as i128) / width as i128) as i64;
    let ghost w = width as int;
    let ghost lv = label_view(label);
    proof {
        let span = settings.interval.spec_width();
        lemma_div_bounds(span, w);
        assert(ms as int == span / w);
        assert(w * ms <= span);
        assert(ms * w == w * ms) by (nonlinear_arith);
        if ms < 1 {
            assert(span < w * (0 + 1));
        }
    }
    let sessions_found = collect_sessions(reader, settings, now);
    let found = match sessions_found {
        Err(e) => {
            return Err(e);
        },
        Ok(v) => v,
    };
    let ghost spans = spans_of(found@);
    let mut v: Vec<Bucket> = Vec::new();
    let mut b: usize = 0;
    while b < width
        invariant
            b <= width,
            v@.len() == b,
            forall|i: int| 0 <= i < b ==> bucket_view(#[trigger] v@[i]) == blank(width as nat)[i],
            forall|i: int| 0 <= i < b ==> (#[trigger] v@[i]).1 == 0 && v@[i].2 == 0,
        decreases width - b,
    {
        v.push((String::new(), 0, 0, false, false));
        b = b + 1;
    }
    assert(buckets_view(v@) =~= blank(width as nat));
    assert(spans.take(0) =~= Seq::<Span>::empty());
    let mut cursor: i64 = i64::MIN;
    let mut i: usize = 0;
    while i < found.len()
        invariant
            i <= found@.len(),
            spans == spans_of(found@),
            ordered_spans(spans),
            v@.len() == width,
            width > 0,
            ms > 0,
            start + ms * w <= i64::MAX,
            w == width,
            buckets_view(v@) == timeline_of(*settings, lv, spans.take(i as int), width as nat, start as int, ms as int),
            bounded(v@, start as int, ms as int, cursor as int),
            i > 0 ==> cursor == spans[i - 1].end,
            i == 0 ==> cursor == i64::MIN,
            lv == label_view(label),
        decreases found.len() - i,
    {
        let s: &Session = &found[i];
        let ghost pre = spans.take(i as int);
        proof {
            assert(spans.take(i + 1).drop_last() =~= pre);
            assert(spans.take(i + 1).last() == s@);
            assert(spans[i as int] == s@);
            assert(s.start <= s.end);
            if i > 0 {
                assert(spans[i - 1].end <= spans[i as int].start);
            }
        }
        if counts(settings, &s.class) {
            let k = key(settings, &s.class, &s.title);
            let draw = if !settings.multi_timeline {
                true
            } else {
                match label {
                    Some(l) => *l == k,
                    None => false,
                }
            };
            if draw {
                paint_span(&mut v, s, &k, start, ms, Ghost(*settings), Ghost(lv), Ghost(cursor as int));
            } else {
                assert(drawn_key(*settings, lv, s@) is None);
            }
        }
        proof {
            assert forall|j: int| 0 <= j < v@.len() implies 0 <= (#[trigger] v@[j]).1 <= v@[j].2 && v@[j].2
                <= filled(start as int, ms as int, j, s.end as int) by {
                assert(filled(start as int, ms as int, j, cursor as int) <= filled(start as int, ms as int, j, s.end as int));
            }
        }
        cursor = s.end;
        i = i + 1;
    }
    assert(spans.take(i as int) =~= spans);
    Ok(v)
}

/// Lays the log of `reader` up to the present moment over `width` buckets
/// (see `timeline_at`); fails with `Clock` where the system clock cannot be read.
pub fn timeline(reader: &mut LogReader, width: usize, settings: &Settings, label: Option<&String>) -> (r:
    Result<Vec<Bucket>, ReadError>)
    requires
        width > 0,
        width <= settings.interval.spec_width() <= i64::MAX,
    ensures
        final(reader).wf(),
        final(reader).files() == old(reader).files(),
        r == Err::<Vec<Bucket>, ReadError>(ReadError::Clock) || exists|now: i64|
            timeline_result(*settings, label_view(label), old(reader).items(), now as int, width as nat, r),
{
    match now_millis() {
        Some(now) => timeline_at(reader, width, settings, label, now),
        None => {
            reader.reset();
            Err(ReadError::Clock)
        },
    }
}

} // verus!
