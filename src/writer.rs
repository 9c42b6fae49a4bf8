//! The write side: the messages of the single-writer pipeline, the encoding
//! of a log line, the day-file naming, the command channel's vocabulary, and
//! the decisions of the one consuming task (rollover, retry, shutdown).

use vstd::prelude::*;
use crate::clock::{DayKey, date_text, push_date};
use crate::text::{chars_of, push_signed, signed_dec, trim_bounds, trimmed};

verus! {

/// A message to the log writer.
pub enum LogMsg {
    /// Append one event.
    Line { ts: i64, class: String, title: String },
    /// Flush and stop; the last message the process sends.
    Shutdown,
}

/// The header row of every day file.
pub const HEADER: &'static str = "timestamp,class,title\n";

/// `t` with each double quote doubled.
pub open spec fn escape(t: Seq<char>) -> Seq<char>
    decreases t.len(),
{
    if t.len() == 0 {
        Seq::empty()
    } else {
        escape(t.drop_last()) + if t.last() == '"' {
            seq!['"', '"']
        } else {
            seq![t.last()]
        }
    }
}

/// The log line of an event: timestamp, class, and the quoted, escaped title.
pub open spec fn line_of(ts: int, class: Seq<char>, title: Seq<char>) -> Seq<char> {
    signed_dec(ts) + seq![','] + class + seq![',', '"'] + escape(title) + seq!['"', '\n']
}

/// Encodes one event as a line of the day file.
pub fn encode_line(ts: i64, class: &str, title: &str) -> (r: String)
    ensures
        r@ == line_of(ts as int, class@, title@),
{
    proof {
        reveal_strlit(",");
        reveal_strlit(",\"");
        reveal_strlit("\"");
        reveal_strlit("\"\n");
    }
    let mut s = String::new();
    push_signed(&mut s, ts);
    s.append(",");
    s.append(class);
    s.append(",\"");
    let ghost head = s@;
    let n = title.unicode_len();
    let mut i: usize = 0;
    assert(title@.subrange(0, 0) =~= Seq::<char>::empty());
    while i < n
        invariant
            n == title@.len(),
            i <= n,
            s@ == head + escape(title@.subrange(0, i as int)),
        decreases n - i,
    {
        let piece = title.substring_char(i, i + 1);
        s.append(piece);
        let c = title.get_char(i);
        if c == '"' {
            s.append("\"");
        }
        proof {
            reveal_strlit("\"");
            let next = title@.subrange(0, i + 1);
            assert(next.drop_last() =~= title@.subrange(0, i as int));
            assert(next.last() == c);
            assert(piece@ =~= seq![c]);
            if c == '"' {
                assert(s@ =~= head + escape(title@.subrange(0, i as int)) + seq!['"', '"']);
            } else {
                assert(s@ =~= head + escape(title@.subrange(0, i as int)) + seq![c]);
            }
        }
        i = i + 1;
    }
    assert(title@.subrange(0, n as int) =~= title@);
    s.append("\"\n");
    assert(s@ =~= line_of(ts as int, class@, title@));
    s
}

/// The file name of a day's log, `YYYY-MM-DD.csv`.
pub open spec fn day_file_of(d: DayKey) -> Seq<char> {
    date_text(d) + seq!['.', 'c', 's', 'v']
}

/// Names the log file of day `d`.
pub fn day_file_name(d: DayKey) -> (r: String)
    ensures
        r@ == day_file_of(d),
{
    proof {
        reveal_strlit(".csv");
    }
    let mut s = String::new();
    push_date(&mut s, d);
    s.append(".csv");
    assert(s@ =~= day_file_of(d));
    s
}

/// The marker that a command of the command channel stands for, if any:
/// `idle` or `resume`, with white space around it ignored.
pub open spec fn command_title(cmd: Seq<char>) -> Option<Seq<char>> {
    if trimmed(cmd) == "idle"@ {
        Some("idle"@)
    } else if trimmed(cmd) == "resume"@ {
        Some("resume"@)
    } else {
        None
    }
}

/// Turns a command received at `ts` into the `SYSTEM` event it stands for.
pub fn command_message(cmd: &str, ts: i64) -> (r: Option<LogMsg>)
    ensures
        match command_title(cmd@) {
            Some(t) => r matches Some(LogMsg::Line { ts: rts, class, title }) && rts == ts && class@
                == "SYSTEM"@ && title@ == t,
            None => r is None,
        },
{
    let cs = chars_of(cmd);
    let (a, b) = trim_bounds(&cs, 0, cs.len());
    assert(cs@.subrange(0, cs@.len() as int) =~= cmd@);
    let word = String::from_str(cmd.substring_char(a, b));
    let idle = String::from_str("idle");
    let resume = String::from_str("resume");
    if word == idle {
        Some(LogMsg::Line { ts, class: String::from_str("SYSTEM"), title: idle })
    } else if word == resume {
        Some(LogMsg::Line { ts, class: String::from_str("SYSTEM"), title: resume })
    } else {
        None
    }
}

/// What the writer does with one message.
pub enum WriterStep {
    /// Append `line`, first opening (creating with the header if new) the
    /// file `open` when the day has changed since the last file was opened.
    Append { open: Option<String>, line: String },
    /// Flush and end the loop.
    Stop,
}

/// What the writer does after a failed append.
#[derive(Clone, Copy, Debug, PartialEq, Eq, Structural)]
pub enum FailureStep {
    /// Wait this many milliseconds, then try the same message once more.
    RetryAfter(u64),
    /// Give the message up and report the failure; the loop goes on.
    Drop,
}

/// The delay before the one retry of a failed append.
pub const RETRY_DELAY_MS: u64 = 500;

/// The single writer's state: the day whose file is open, if any.
pub struct WriterState {
    pub day: Option<DayKey>,
}

impl WriterState {
    /// A writer with no file open yet.
    pub fn new() -> (r: WriterState)
        ensures
            r.day is None,
    {
        WriterState { day: None }
    }

    /// Decides what to do with `msg`, received while the local day is `today`
    /// (`None` where the local date cannot be read: the line then goes to the
    /// file that is open).
    pub fn plan(&self, msg: LogMsg, today: Option<DayKey>) -> (r: WriterStep)
        ensures
            match msg {
                LogMsg::Shutdown => r is Stop,
                LogMsg::Line { ts, class, title } => r matches WriterStep::Append { open, line } && line@
                    == line_of(ts as int, class@, title@) && (today is None || self.day == today ==> open is None)
                    && (today is Some && self.day != today ==> (open matches Some(f) && f@ == day_file_of(
                    today->Some_0,
                ))),
            },
    {
        match msg {
            LogMsg::Shutdown => WriterStep::Stop,
            LogMsg::Line { ts, class, title } => {
                let line = encode_line(ts, class.as_str(), title.as_str());
                let open = match today {
                    None => None,
                    Some(d) => {
                        let same = match self.day {
                            Some(cur) => cur == d,
                            None => false,
                        };
                        if same {
                            None
                        } else {
                            Some(day_file_name(d))
                        }
                    },
                };
                WriterStep::Append { open, line }
            },
        }
    }

    /// Records that the file of `day` is now the open one.
    pub fn opened(&mut self, day: DayKey)
        ensures
            final(self).day == Some(day),
    {
        self.day = Some(day);
    }

    /// Decides what follows the failure of append attempt number `attempt`
    /// (counted from one): one retry after a fixed delay, then the message is dropped.
    pub fn after_failure(attempt: u32) -> (r: FailureStep)
        ensures
            attempt <= 1 ==> r == FailureStep::RetryAfter(RETRY_DELAY_MS),
            attempt > 1 ==> r == FailureStep::Drop,
    {
        if attempt <= 1 {
            FailureStep::RetryAfter(RETRY_DELAY_MS)
        } else {
            FailureStep::Drop
        }
    }
}

} // verus!
