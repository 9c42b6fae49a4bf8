//! One full pass over the log: decoding each raw record, checking that the
//! stream runs forward in time, and feeding the session state machine.

use vstd::prelude::*;
use crate::event::{parse_timestamp, timestamp_text};
use crate::reader::{ItemView, LogReader, ReadError, item_view};
use crate::session::{Record, RecordView, Session, SessionTracker, Span, replay, sessions};
use crate::settings::Settings;

verus! {

/// The record that the raw fields `fields` encode: timestamp, class, title.
pub open spec fn decode_view(fields: Seq<Seq<char>>) -> Result<RecordView, ReadError> {
    if fields.len() >= 3 {
        match timestamp_text(fields[0]) {
            Some(ts) => Ok(RecordView { timestamp: ts, class: fields[1], title: fields[2] }),
            None => Err(ReadError::Parse),
        }
    } else {
        Err(ReadError::Parse)
    }
}

/// The records of the item stream `items`, or the first failure met while
/// reading it front to back: a failed item or a record that does not decode.
/// A record stamped earlier than the one before it (the wall clock stepped
/// back) is taken at the time of the one before it, so time never runs
/// backwards in a replay.
pub open spec fn scan(items: Seq<ItemView>) -> Result<Seq<RecordView>, ReadError>
    decreases items.len(),
{
    if items.len() == 0 {
        Ok(Seq::empty())
    } else {
        match scan(items.drop_last()) {
            Err(e) => Err(e),
            Ok(recs) => match items.last() {
                Err(e) => Err(e),
                Ok(fields) => match decode_view(fields) {
                    Err(e) => Err(e),
                    Ok(r) => if recs.len() > 0 && r.timestamp < recs.last().timestamp {
                        Ok(recs.push(RecordView { timestamp: recs.last().timestamp, ..r }))
                    } else {
                        Ok(recs.push(r))
                    },
                },
            },
        }
    }
}

/// Where a replay of `recs` ends: at `now`, or at the last record where that
/// lies after `now`.
pub open spec fn end_of(recs: Seq<RecordView>, now: int) -> int {
    if recs.len() > 0 && now < recs.last().timestamp {
        recs.last().timestamp
    } else {
        now
    }
}

/// The sessions of a pass over `recs` that ends at `now` (see `end_of`).
pub open spec fn pass_sessions(settings: Settings, recs: Seq<RecordView>, now: int) -> Seq<Span> {
    sessions(settings, recs, end_of(recs, now))
}

/// Intervals that each run forward and follow one another without overlap.
pub open spec fn ordered_spans(spans: Seq<Span>) -> bool {
    &&& forall|i: int| 0 <= i < spans.len() ==> (#[trigger] spans[i]).start <= spans[i].end
    &&& forall|i: int| 0 < i < spans.len() ==> spans[i - 1].end <= (#[trigger] spans[i]).start
}

/// The views of a vector of sessions.
pub open spec fn spans_of(v: Seq<Session>) -> Seq<Span> {
    v.map_values(|s: Session| s@)
}

/// Decodes raw fields into a record (see `decode_view`).
pub fn decode(fields: Vec<String>) -> (r: Result<Record, ReadError>)
    ensures
        match decode_view(fields.deep_view()) {
            Ok(rv) => r matches Ok(rec) && rec@ == rv,
            Err(e) => r == Err::<Record, ReadError>(e),
        },
{
    if fields.len() < 3 {
        return Err(ReadError::Parse);
    }
    let ghost dv = fields.deep_view();
    assert(dv[0] == fields@[0]@ && dv[1] == fields@[1]@ && dv[2] == fields@[2]@);
    match parse_timestamp(fields[0].as_str()) {
        Some(ts) => {
            let class = fields[1].clone();
            let title = fields[2].clone();
            Ok(Record { timestamp: ts, class, title })
        },
        None => Err(ReadError::Parse),
    }
}

proof fn lemma_scan_failure_extends(items: Seq<ItemView>, k: int)
    requires
        0 <= k <= items.len(),
        scan(items.take(k)) is Err,
    ensures
        scan(items) == scan(items.take(k)),
    decreases items.len(),
{
    if k == items.len() {
        assert(items.take(k) =~= items);
    } else {
        assert(items.drop_last().take(k) =~= items.take(k));
        lemma_scan_failure_extends(items.drop_last(), k);
    }
}

/// Replays the whole log of `reader` from its start and returns its sessions,
/// the last one closed at `now` if it is still open; or the first failure.
pub fn collect_sessions(reader: &mut LogReader, settings: &Settings, now: i64) -> (r: Result<Vec<Session>, ReadError>)
    ensures
        final(reader).wf(),
        final(reader).files() == old(reader).files(),
        match scan(old(reader).items()) {
            Err(e) => r == Err::<Vec<Session>, ReadError>(e),
            Ok(recs) => r matches Ok(v) && spans_of(v@) == pass_sessions(*settings, recs, now as int)
                && ordered_spans(spans_of(v@)),
        },
{
    reader.reset();
    let ghost items = reader.items();
    let ghost mut recs: Seq<RecordView> = Seq::empty();
    let mut tracker = SessionTracker::new();
    let mut out: Vec<Session> = Vec::new();
    let mut last: Option<i64> = None;
    assert(items.take(0) =~= Seq::<ItemView>::empty());
    loop
        invariant
            reader.wf(),
            reader.files() == old(reader).files(),
            items == reader.items(),
            0 <= reader.position() <= items.len(),
            scan(items.take(reader.position())) == Ok::<Seq<RecordView>, ReadError>(recs),
            replay(*settings, recs) == (tracker@, spans_of(out@)),
            recs.len() == 0 <==> last is None,
            last matches Some(t) ==> t == recs.last().timestamp,
            ordered_spans(spans_of(out@)),
            tracker@.start matches Some(s) ==> recs.len() > 0 && s <= recs.last().timestamp,
            tracker@.start matches Some(s) ==> (out@.len() > 0 ==> out@.last().end <= s),
            out@.len() > 0 ==> recs.len() > 0 && out@.last().end <= recs.last().timestamp,
        ensures
            scan(items) == Ok::<Seq<RecordView>, ReadError>(recs),
        decreases items.len() - reader.position(),
    {
        let ghost pos = reader.position();
        let item = reader.next();
        match item {
            None => {
                assert(items.take(pos) =~= items);
                break;
            },
            Some(item) => {
                let ghost iv = item_view(item);
                let ghost t1 = items.take(pos + 1);
                assert(t1.drop_last() =~= items.take(pos));
                assert(t1.last() == iv);
                match item {
                    Err(e) => {
                        proof {
                            lemma_scan_failure_extends(items, pos + 1);
                        }
                        return Err(e);
                    },
                    Ok(fields) => {
                        let dec = decode(fields);
                        match dec {
                            Err(e) => {
                                proof {
                                    lemma_scan_failure_extends(items, pos + 1);
                                }
                                return Err(e);
                            },
                            Ok(rec) => {
                                let mut rec = rec;
                                if let Some(t) = last {
                                    if rec.timestamp < t {
                                        rec.timestamp = t;
                                    }
                                }
                                let ghost rv = rec@;
                                let ghost old_spans = spans_of(out@);
                                last = Some(rec.timestamp);
                                let closed = tracker.step(settings, rec);
                                proof {
                                    let nr = recs.push(rv);
                                    assert(nr.drop_last() =~= recs);
                                    recs = nr;
                                }
                                match closed {
                                    Some(s) => {
                                        out.push(s);
                                        assert(spans_of(out@) =~= old_spans.push(s@));
                                    },
                                    None => {},
                                }
                            },
                        }
                    },
                }
            },
        }
    }
    let end = match last {
        Some(t) => if now < t {
            t
        } else {
            now
        },
        None => now,
    };
    let ghost old_spans = spans_of(out@);
    match tracker.close(end) {
        Some(s) => {
            out.push(s);
            assert(spans_of(out@) =~= old_spans.push(s@));
        },
        None => {},
    }
    Ok(out)
}

} // verus!
