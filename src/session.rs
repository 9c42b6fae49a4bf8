//! Session reconstruction: the state machine that turns the ordered stream of
//! focus changes and `SYSTEM` markers into non-overlapping active intervals.

use vstd::prelude::*;
use crate::settings::{Settings, alias, alias_of};

verus! {

/// One decoded log line: when, which application class, which window title.
pub struct Record {
    pub timestamp: i64,
    pub class: String,
    pub title: String,
}

/// The mathematical content of a `Record`.
pub struct RecordView {
    pub timestamp: int,
    pub class: Seq<char>,
    pub title: Seq<char>,
}

impl View for Record {
    type V = RecordView;

    open spec fn view(&self) -> RecordView {
        RecordView { timestamp: self.timestamp as int, class: self.class@, title: self.title@ }
    }
}

/// A reconstructed interval `[start, end)` during which `class` / `title` held focus.
pub struct Session {
    pub start: i64,
    pub end: i64,
    pub class: String,
    pub title: String,
}

/// The mathematical content of a `Session`.
pub struct Span {
    pub start: int,
    pub end: int,
    pub class: Seq<char>,
    pub title: Seq<char>,
}

impl View for Session {
    type V = Span;

    open spec fn view(&self) -> Span {
        Span { start: self.start as int, end: self.end as int, class: self.class@, title: self.title@ }
    }
}

/// The view of an optional session.
pub open spec fn opt_span(o: Option<Session>) -> Option<Span> {
    match o {
        Some(s) => Some(s@),
        None => None,
    }
}

/// The state of reconstruction: when the open session started (if one is
/// open) and the class and title that last took focus.
pub struct TrackerView {
    pub start: Option<int>,
    pub current: Option<(Seq<char>, Seq<char>)>,
}

/// The state before any event, and right after a `boot`.
pub open spec fn fresh() -> TrackerView {
    TrackerView { start: None, current: None }
}

/// The interval that an event at `ts` closes, if a session is open.
pub open spec fn closing(st: TrackerView, ts: int) -> Option<Span> {
    match (st.start, st.current) {
        (Some(s), Some(cur)) => Some(Span { start: s, end: ts, class: cur.0, title: cur.1 }),
        _ => None,
    }
}

/// One transition of the state machine on record `r`: the next state and the
/// interval that `r` closes, if any. The class is renamed by the alias list first.
pub open spec fn step(settings: Settings, st: TrackerView, r: RecordView) -> (TrackerView, Option<Span>) {
    let class = alias_of(settings.class_mappings@, r.class);
    if class == "SYSTEM"@ {
        if r.title == "boot"@ {
            (fresh(), None)
        } else if r.title == "resume"@ {
            (TrackerView { start: Some(r.timestamp), current: st.current }, None)
        } else if r.title == "idle"@ || r.title == "shutdown"@ {
            (TrackerView { start: None, current: st.current }, closing(st, r.timestamp))
        } else {
            (st, None)
        }
    } else {
        (
            TrackerView { start: Some(r.timestamp), current: Some((class, r.title)) },
            closing(st, r.timestamp),
        )
    }
}

/// The state after replaying `recs` from a fresh start, and the intervals closed on the way.
pub open spec fn replay(settings: Settings, recs: Seq<RecordView>) -> (TrackerView, Seq<Span>)
    decreases recs.len(),
{
    if recs.len() == 0 {
        (fresh(), Seq::empty())
    } else {
        let (st, spans) = replay(settings, recs.drop_last());
        let (next, closed) = step(settings, st, recs.last());
        match closed {
            Some(sp) => (next, spans.push(sp)),
            None => (next, spans),
        }
    }
}

/// The sessions of `recs`: the intervals closed by the records, then the
/// still-open session, if any, closed at `now`.
pub open spec fn sessions(settings: Settings, recs: Seq<RecordView>, now: int) -> Seq<Span> {
    let (st, spans) = replay(settings, recs);
    match closing(st, now) {
        Some(sp) => spans.push(sp),
        None => spans,
    }
}

/// The executable state machine of session reconstruction.
pub struct SessionTracker {
    start: Option<i64>,
    current: Option<(String, String)>,
}

impl View for SessionTracker {
    type V = TrackerView;

    closed spec fn view(&self) -> TrackerView {
        TrackerView {
            start: match self.start {
                Some(s) => Some(s as int),
                None => None,
            },
            current: match self.current {
                Some(c) => Some((c.0@, c.1@)),
                None => None,
            },
        }
    }
}

impl SessionTracker {
    /// A tracker with no open session.
    pub fn new() -> (r: SessionTracker)
        ensures
            r@ == fresh(),
    {
        SessionTracker { start: None, current: None }
    }

    /// The interval that an event at `ts` would close.
    pub fn close(&self, ts: i64) -> (r: Option<Session>)
        ensures
            opt_span(r) == closing(self@, ts as int),
    {
        match (&self.start, &self.current) {
            (Some(s), Some(cur)) => Some(
                Session { start: *s, end: ts, class: cur.0.clone(), title: cur.1.clone() },
            ),
            _ => None,
        }
    }

    /// Feeds one record to the state machine; returns the interval it closes.
    pub fn step(&mut self, settings: &Settings, r: Record) -> (closed: Option<Session>)
        ensures
            (final(self)@, opt_span(closed)) == step(*settings, old(self)@, r@),
    {
        let ghost rv = r@;
        let ts = r.timestamp;
        let title = r.title;
        let class = alias(settings, r.class);
        if class == String::from_str("SYSTEM") {
            if title == String::from_str("boot") {
                self.start = None;
                self.current = None;
                None
            } else if title == String::from_str("resume") {
                self.start = Some(ts);
                None
            } else if title == String::from_str("idle") || title == String::from_str("shutdown") {
                let closed = self.close(ts);
                self.start = None;
                closed
            } else {
                None
            }
        } else {
            let closed = self.close(ts);
            self.start = Some(ts);
            self.current = Some((class, title));
            closed
        }
    }
}

} // verus!
